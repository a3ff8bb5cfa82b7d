//! Yes/no tallies, summed with the weights of the senders.

use crate::justification::Justification;
use crate::justification::LatestMsgsHonest;
use crate::message::Message;
use crate::traits::Deserialize;
use crate::traits::Estimate;
use crate::traits::Id;
use crate::traits::MalleableEncoding;
use crate::traits::Serialize;
use crate::util::codec::be32;
use crate::util::codec::get_be32;
use crate::util::codec::lemma_be32_inverse;
use crate::util::codec::put_be32;
use crate::util::hash;
use crate::util::weight::SendersWeight;
use crate::util::weight::WeightUnit;
use vstd::prelude::*;

verus! {

/// A count of yes and no votes.
#[derive(Clone, Copy, Debug, PartialEq, Eq, Structural)]
pub struct VoteCount {
    pub yes: u32,
    pub no: u32,
}

/// The failure of a tally: a count does not fit in 32 bits.
#[derive(Clone, Copy, Debug, PartialEq, Eq, Structural)]
pub struct Overflow;

/// How often a vote of a sender with weight `weight` counts: as often as the
/// weight says, and not at all where the weight is unknown.
pub open spec fn factor(weights: Map<u32, WeightUnit>, sender: u32) -> nat {
    if weights.contains_key(sender) {
        match weights[sender] {
            WeightUnit::Finite(w) => w as nat,
            WeightUnit::Infinity => 0x1_0000_0000_0000_0000,
            WeightUnit::NaN => 0,
        }
    } else {
        0
    }
}

/// The weighted number of yes votes in `msgs`.
pub open spec fn tally_yes(msgs: Seq<Message<VoteCount>>, weights: Map<u32, WeightUnit>) -> nat
    decreases msgs.len(),
{
    if msgs.len() == 0 {
        0
    } else {
        tally_yes(msgs.drop_last(), weights) + msgs.last().spec_estimate().yes as nat * factor(
            weights,
            msgs.last().spec_sender(),
        )
    }
}

/// The weighted number of no votes in `msgs`.
pub open spec fn tally_no(msgs: Seq<Message<VoteCount>>, weights: Map<u32, WeightUnit>) -> nat
    decreases msgs.len(),
{
    if msgs.len() == 0 {
        0
    } else {
        tally_no(msgs.drop_last(), weights) + msgs.last().spec_estimate().no as nat * factor(
            weights,
            msgs.last().spec_sender(),
        )
    }
}

/// Adds `count * factor` to a running total that is exact until it leaves
/// the range of 32 bits.
fn add_weighted(total: u32, overflowed: bool, count: u32, weight: Result<
    WeightUnit,
    crate::util::weight::UnknownValidator,
>) -> (r: (u32, bool))
    ensures
        ({
            let f: nat = match weight {
                Ok(WeightUnit::Finite(w)) => w as nat,
                Ok(WeightUnit::Infinity) => 0x1_0000_0000_0000_0000,
                _ => 0,
            };
            &&& r.1 == (overflowed || total + count * f > u32::MAX)
            &&& !r.1 ==> r.0 == total + count * f
        }),
{
    if overflowed {
        return (total, true);
    }
    let f: u128 = match weight {
        Ok(WeightUnit::Finite(w)) => w as u128,
        Ok(WeightUnit::Infinity) => 0x1_0000_0000_0000_0000u128,
        _ => 0u128,
    };
    assert(count as u128 * f <= 0x1_0000_0000 * 0x1_0000_0000_0000_0000) by (nonlinear_arith)
        requires
            count <= 0xffff_ffff,
            f <= 0x1_0000_0000_0000_0000,
    ;
    let product: u128 = count as u128 * f;
    if product > (u32::MAX - total) as u128 {
        (total, true)
    } else {
        (total + product as u32, false)
    }
}

impl VoteCount {
    /// The vote of one validator: one yes, or one no.
    pub fn create_vote_message(sender: u32, vote: bool) -> (msg: Message<VoteCount>)
        ensures
            msg.spec_sender() == sender,
            msg.spec_justification() == Seq::<Message<VoteCount>>::empty(),
            msg.spec_estimate() == if vote {
                VoteCount { yes: 1, no: 0 }
            } else {
                VoteCount { yes: 0, no: 1 }
            },
            msg.identified(),
    {
        let estimate = if vote {
            VoteCount { yes: 1, no: 0 }
        } else {
            VoteCount { yes: 0, no: 1 }
        };
        Message::new(sender, Justification::new(), estimate)
    }
}

impl Serialize for VoteCount {
    /// The yes count and the no count, each in four big-endian bytes.
    open spec fn encoding(&self) -> Seq<u8> {
        be32(self.yes) + be32(self.no)
    }

    fn serialize(&self) -> (bin: Vec<u8>) {
        let mut bin: Vec<u8> = Vec::new();
        put_be32(&mut bin, self.yes);
        put_be32(&mut bin, self.no);
        bin
    }
}

impl Deserialize for VoteCount {
    fn deserialize(bin: &[u8]) -> (r: Result<Self, MalleableEncoding>) {
        if bin.len() != 8 {
            proof {
                assert forall|v: Self| #[trigger] v.encoding() != bin@ by {
                    assert(v.encoding().len() == 8);
                }
            }
            return Err(MalleableEncoding);
        }
        let yes = get_be32(bin, 0);
        let no = get_be32(bin, 4);
        proof {
            lemma_be32_inverse(yes, bin@.subrange(0, 4));
            lemma_be32_inverse(no, bin@.subrange(4, 8));
            assert(bin@ =~= bin@.subrange(0, 4) + bin@.subrange(4, 8));
        }
        Ok(VoteCount { yes, no })
    }

    proof fn lemma_encoding_injective(a: Self, b: Self) {
        lemma_be32_inverse(a.yes, Seq::empty());
        lemma_be32_inverse(a.no, Seq::empty());
        lemma_be32_inverse(b.yes, Seq::empty());
        lemma_be32_inverse(b.no, Seq::empty());
        assert(a.encoding().subrange(0, 4) =~= be32(a.yes));
        assert(b.encoding().subrange(0, 4) =~= be32(b.yes));
        assert(a.encoding().subrange(4, 8) =~= be32(a.no));
        assert(b.encoding().subrange(4, 8) =~= be32(b.no));
    }
}

impl Id for VoteCount {
    type ID = hash::Hash;

    closed spec fn digest(data: Seq<u8>) -> hash::Hash {
        hash::spec_digest(data)
    }

    fn hash(data: &[u8]) -> (id: hash::Hash) {
        hash::Hash::digest(data)
    }
}

impl Estimate for VoteCount {
    type Error = Overflow;

    /// The weighted tallies of the yes and the no votes, where both fit in 32 bits.
    open spec fn estimate_of(latest_msgs: Seq<Message<Self>>, weights: Map<u32, WeightUnit>) -> Result<
        Self,
        Overflow,
    > {
        let yes = tally_yes(latest_msgs, weights);
        let no = tally_no(latest_msgs, weights);
        if yes <= u32::MAX && no <= u32::MAX {
            Ok(VoteCount { yes: yes as u32, no: no as u32 })
        } else {
            Err(Overflow)
        }
    }

    fn mk_estimate(latest_msgs: &LatestMsgsHonest<Self>, senders_weights: &SendersWeight) -> (r:
        Result<Self, Overflow>) {
        let msgs = latest_msgs.iter();
        let mut yes: u32 = 0;
        let mut no: u32 = 0;
        let mut yes_overflowed = false;
        let mut no_overflowed = false;
        let mut i: usize = 0;
        while i < msgs.len()
            invariant
                i <= msgs@.len(),
                yes_overflowed == (tally_yes(msgs@.take(i as int), senders_weights@) > u32::MAX),
                no_overflowed == (tally_no(msgs@.take(i as int), senders_weights@) > u32::MAX),
                !yes_overflowed ==> yes == tally_yes(msgs@.take(i as int), senders_weights@),
                !no_overflowed ==> no == tally_no(msgs@.take(i as int), senders_weights@),
            decreases msgs@.len() - i,
        {
            let msg = &msgs[i];
            let weight = senders_weights.weight(*msg.sender());
            let estimate = *msg.estimate();
            proof {
                assert(msgs@.take(i + 1).drop_last() =~= msgs@.take(i as int));
            }
            let (y, yo) = add_weighted(yes, yes_overflowed, estimate.yes, weight);
            let (n, no_o) = add_weighted(no, no_overflowed, estimate.no, weight);
            yes = y;
            yes_overflowed = yo;
            no = n;
            no_overflowed = no_o;
            i += 1;
        }
        proof {
            assert(msgs@.take(msgs@.len() as int) =~= msgs@);
        }
        if yes_overflowed || no_overflowed {
            Err(Overflow)
        } else {
            Ok(VoteCount { yes, no })
        }
    }
}

} // verus!
