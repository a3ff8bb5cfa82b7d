//! The capabilities that the consensus types ask of the values they carry.

use crate::justification::LatestMsgsHonest;
use crate::util::hash;
use crate::util::weight::SendersWeight;
use crate::util::weight::WeightUnit;
use crate::message::Message;
use vstd::prelude::*;

verus! {

/// A type with a designated zero.
pub trait Zero<T> {
    /// The zero of `T`.
    spec fn spec_zero() -> T;

    fn zero() -> (z: T)
        ensures
            z == Self::spec_zero(),
    ;

    fn is_zero(val: &T) -> (r: bool)
        ensures
            r == (*val == Self::spec_zero()),
    ;
}

/// A value with exactly one valid byte representation.
pub trait Serialize {
    /// The canonical bytes of the value.
    spec fn encoding(&self) -> Seq<u8>;

    /// Writes the canonical bytes of the value.
    fn serialize(&self) -> (bin: Vec<u8>)
        ensures
            bin@ == self.encoding(),
    ;
}

/// The rejection of bytes that are not the canonical encoding of any value.
#[derive(Clone, Copy, Debug, PartialEq, Eq, Structural)]
pub struct MalleableEncoding;

/// A value that can be read back from its canonical bytes, and from no others.
pub trait Deserialize: Serialize + Sized {
    /// Reads the value whose canonical encoding is `bin`; fails when `bin`
    /// is the canonical encoding of no value.
    fn deserialize(bin: &[u8]) -> (r: Result<Self, MalleableEncoding>)
        ensures
            r matches Ok(v) ==> v.encoding() == bin@,
            r is Err ==> forall|v: Self| #[trigger] v.encoding() != bin@,
    ;

    /// Different values have different canonical encodings.
    proof fn lemma_encoding_injective(a: Self, b: Self)
        requires
            a.encoding() == b.encoding(),
        ensures
            a == b,
    ;
}

/// A value survives the way through its canonical bytes: whatever
/// `deserialize` gives for the canonical bytes of `value` is `value`.
pub proof fn lemma_deserialize_inverts<T: Deserialize>(value: T, read: Result<T, MalleableEncoding>)
    requires
        read matches Ok(v) ==> v.encoding() == value.encoding(),
        read is Err ==> forall|v: T| #[trigger] v.encoding() != value.encoding(),
    ensures
        read == Ok::<T, MalleableEncoding>(value),
{
    if read is Err {
        // The bytes are the canonical encoding of `value` itself.
        assert(value.encoding() == value.encoding());
    } else {
        T::lemma_encoding_injective(read->Ok_0, value);
    }
}

/// Content that is identified by the digest of its canonical bytes.
pub trait Id: Serialize {
    /// The type of the identifiers.
    type ID;

    /// The digest, as a function of the bytes.
    spec fn digest(data: Seq<u8>) -> Self::ID;

    /// The hashing algorithm behind the identifiers. It is for the
    /// implementing type to choose; messages and blocks choose
    /// `Hash::digest`, BLAKE2b with 512 bits of output.
    fn hash(data: &[u8]) -> (id: Self::ID)
        ensures
            id == Self::digest(data@),
    ;

    /// The identifier of the value: the digest of its canonical bytes.
    fn getid(&self) -> (id: Self::ID)
        ensures
            id == Self::digest(self.encoding()),
    {
        let bin = self.serialize();
        Self::hash(bin.as_slice())
    }
}

/// External data that an estimate may be built on.
pub trait Data {
    type Data;

    /// `data` may be used.
    spec fn valid(data: &Self::Data) -> bool;

    /// Whether `data` may be used.
    fn is_valid(data: &Self::Data) -> (r: bool)
        ensures
            r == Self::valid(data),
    ;
}

/// The name of a validator. The stores of this library keep their entries
/// in the order of the names and compare the names as integers, so the
/// validators are named by `u32`, the one type with this trait.
pub trait Sender: Sized {
}

impl Sender for u32 {
}

/// A value that validators agree on, together with the rule that derives a
/// new value from the latest honest messages and the validators' weights.
pub trait Estimate: Id<ID = hash::Hash> + Sized {
    /// The failure of the rule.
    type Error;

    /// The outcome of the rule, as a function of the latest honest messages
    /// and the weights.
    spec fn estimate_of(latest_msgs: Seq<Message<Self>>, weights: Map<u32, WeightUnit>) -> Result<
        Self,
        Self::Error,
    >;

    /// Applies the rule.
    fn mk_estimate(latest_msgs: &LatestMsgsHonest<Self>, senders_weights: &SendersWeight) -> (r:
        Result<Self, Self::Error>)
        ensures
            r == Self::estimate_of(latest_msgs@, senders_weights@),
    ;
}

} // verus!
