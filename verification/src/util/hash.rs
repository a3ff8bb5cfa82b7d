//! Fixed-width content identifiers and the digest that produces them.

use blake2::Blake2b512;
use blake2::Digest;
use vstd::prelude::*;

verus! {

/// The BLAKE2b digest with 512 bits of output, as a function of the input bytes.
pub uninterp spec fn blake2b_512(data: Seq<u8>) -> Seq<u8>;

/// A 64-byte content identifier, ordered lexicographically by its bytes.
#[derive(Clone, Copy, Debug, PartialEq, Eq, PartialOrd, Ord, Hash)]
pub struct Hash {
    bytes: [u8; 64],
}

impl View for Hash {
    type V = Seq<u8>;

    closed spec fn view(&self) -> Seq<u8> {
        self.bytes@
    }
}

/// The identifier with the bytes of the BLAKE2b-512 digest of `data`.
pub closed spec fn spec_digest(data: Seq<u8>) -> Hash {
    choose|h: Hash| h@ == blake2b_512(data)
}

/// `a` and `b` agree before position `k`, where `a` holds the smaller byte.
pub open spec fn differs_below(a: Seq<u8>, b: Seq<u8>, k: int) -> bool {
    &&& 0 <= k < a.len()
    &&& k < b.len()
    &&& a[k] < b[k]
    &&& forall|j: int| 0 <= j < k ==> a[j] == b[j]
}

/// Lexicographic order on byte strings of equal length.
pub open spec fn lex_lt(a: Seq<u8>, b: Seq<u8>) -> bool {
    exists|k: int| differs_below(a, b, k)
}

/// The lexicographic order is irreflexive and asymmetric.
pub proof fn lemma_lex_asymmetric(a: Seq<u8>, b: Seq<u8>)
    ensures
        !lex_lt(a, a),
        lex_lt(a, b) ==> !lex_lt(b, a),
{
    if lex_lt(a, b) && lex_lt(b, a) {
        let k = choose|k: int| differs_below(a, b, k);
        let l = choose|l: int| differs_below(b, a, l);
        if k < l {
            assert(b[k] == a[k]);
        } else if l < k {
            assert(a[l] == b[l]);
        }
    }
}

/// The lexicographic order is transitive.
pub proof fn lemma_lex_transitive(a: Seq<u8>, b: Seq<u8>, c: Seq<u8>)
    requires
        lex_lt(a, b),
        lex_lt(b, c),
    ensures
        lex_lt(a, c),
{
    let k = choose|k: int| differs_below(a, b, k);
    let l = choose|l: int| differs_below(b, c, l);
    let m = if k <= l {
        k
    } else {
        l
    };
    assert(differs_below(a, c, m));
}

/// Two byte strings of equal length are equal or ordered one way.
pub proof fn lemma_lex_total(a: Seq<u8>, b: Seq<u8>)
    requires
        a.len() == b.len(),
    ensures
        a == b || lex_lt(a, b) || lex_lt(b, a),
{
    lemma_lex_total_from(a, b, 0);
}

proof fn lemma_lex_total_from(a: Seq<u8>, b: Seq<u8>, k: int)
    requires
        a.len() == b.len(),
        0 <= k <= a.len(),
        forall|j: int| 0 <= j < k ==> a[j] == b[j],
    ensures
        a == b || lex_lt(a, b) || lex_lt(b, a),
    decreases a.len() - k,
{
    if k == a.len() {
        assert(a =~= b);
    } else if a[k] < b[k] {
        assert(differs_below(a, b, k));
    } else if b[k] < a[k] {
        assert(differs_below(b, a, k));
    } else {
        lemma_lex_total_from(a, b, k + 1);
    }
}

/// Calls `blake2::Blake2b512::digest` and copies the 64 bytes it returns.
/// The contract names the digest of the input; that the output has 64 bytes
/// follows from the result type.
#[verifier::external_body]
fn blake2b(data: &[u8]) -> (digest: Hash)
    ensures
        digest@ == blake2b_512(data@),
{
    let output = Blake2b512::digest(data);
    let mut bytes = [0u8; 64];
    bytes.copy_from_slice(output.as_slice());
    Hash { bytes }
}

impl Hash {
    /// Every identifier has exactly 64 bytes.
    pub broadcast proof fn lemma_len(self)
        ensures
            #[trigger] self@.len() == 64,
    {
    }

    /// Identifiers with the same bytes are the same identifier.
    pub proof fn lemma_view_injective(self, other: Hash)
        requires
            self@ == other@,
        ensures
            self == other,
    {
        assert(self.bytes =~= other.bytes);
    }

    /// The identifier with all bytes zero.
    pub fn zero() -> (h: Hash)
        ensures
            h@ == Seq::new(64, |i: int| 0u8),
    {
        let h = Hash { bytes: [0u8; 64] };
        assert(h@ =~= Seq::new(64, |i: int| 0u8));
        h
    }

    /// The identifier made of the given bytes, when there are exactly 64 of them.
    pub fn from_slice(data: &[u8]) -> (r: Option<Hash>)
        ensures
            r.is_some() <==> data@.len() == 64,
            r matches Some(h) ==> h@ == data@,
    {
        if data.len() != 64 {
            return None;
        }
        let mut bytes = [0u8; 64];
        let mut i: usize = 0;
        while i < 64
            invariant
                i <= 64,
                data@.len() == 64,
                forall|j: int| 0 <= j < i ==> bytes@[j] == data@[j],
            decreases 64 - i,
        {
            bytes[i] = data[i];
            i += 1;
        }
        assert(bytes@ =~= data@);
        Some(Hash { bytes })
    }

    /// The BLAKE2b-512 digest of `data`.
    ///
    /// The trait `Id` leaves the hashing algorithm to the type that
    /// implements it. The types of this library that are identified by
    /// their bytes, messages and blocks, take this digest: 64 bytes, which
    /// is the width of an identifier.
    pub fn digest(data: &[u8]) -> (h: Hash)
        ensures
            h@ == blake2b_512(data@),
            h == spec_digest(data@),
    {
        let h = blake2b(data);
        proof {
            spec_digest(data@).lemma_view_injective(h);
        }
        h
    }

    /// The bytes of the identifier.
    pub fn to_vec(&self) -> (out: Vec<u8>)
        ensures
            out@ == self@,
    {
        let mut out: Vec<u8> = Vec::new();
        let mut i: usize = 0;
        while i < 64
            invariant
                i <= 64,
                out@ == self@.take(i as int),
            decreases 64 - i,
        {
            out.push(self.bytes[i]);
            assert(self@.take(i + 1) =~= self@.take(i as int).push(self@[i as int]));
            i += 1;
        }
        assert(self@.take(64) =~= self@);
        out
    }

    /// Whether both identifiers hold the same bytes.
    pub fn eq(&self, other: &Hash) -> (r: bool)
        ensures
            r == (self@ == other@),
    {
        let mut i: usize = 0;
        while i < 64
            invariant
                i <= 64,
                forall|j: int| 0 <= j < i ==> self@[j] == other@[j],
            decreases 64 - i,
        {
            if self.bytes[i] != other.bytes[i] {
                return false;
            }
            i += 1;
        }
        assert(self@ =~= other@);
        true
    }

    /// Whether `self` comes strictly before `other` in lexicographic order.
    pub fn lt(&self, other: &Hash) -> (r: bool)
        ensures
            r == lex_lt(self@, other@),
    {
        let mut i: usize = 0;
        while i < 64
            invariant
                i <= 64,
                forall|j: int| 0 <= j < i ==> self@[j] == other@[j],
            decreases 64 - i,
        {
            if self.bytes[i] < other.bytes[i] {
                assert(differs_below(self@, other@, i as int));
                return true;
            }
            if self.bytes[i] > other.bytes[i] {
                proof {
                    assert(differs_below(other@, self@, i as int));
                    lemma_lex_asymmetric(other@, self@);
                }
                return false;
            }
            i += 1;
        }
        proof {
            assert(self@ =~= other@);
            lemma_lex_asymmetric(self@, other@);
        }
        false
    }
}

} // verus!
