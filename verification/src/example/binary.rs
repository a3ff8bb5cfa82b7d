//! Boolean estimates, decided by the weighted majority.

use crate::justification::LatestMsgsHonest;
use crate::message::Message;
use crate::traits::Deserialize;
use crate::traits::Estimate;
use crate::traits::Id;
use crate::traits::MalleableEncoding;
use crate::traits::Serialize;
use crate::util::hash;
use crate::util::weight::SendersWeight;
use crate::util::weight::WeightUnit;
use vstd::prelude::*;

verus! {

/// A boolean estimate.
#[derive(Clone, Copy, Debug, PartialEq, Eq, Structural)]
pub struct BoolWrapper(pub bool);

/// The failure of the majority rule; the rule never fails.
#[derive(Clone, Copy, Debug, PartialEq, Eq, Structural)]
pub struct Error;

/// The sum of the weights of the senders of those of `msgs` that carry
/// `value`; a sender without a weight does not count.
pub open spec fn weight_for(
    msgs: Seq<Message<BoolWrapper>>,
    weights: Map<u32, WeightUnit>,
    value: bool,
) -> WeightUnit
    decreases msgs.len(),
{
    if msgs.len() == 0 {
        WeightUnit::Finite(0)
    } else {
        let rest = weight_for(msgs.drop_last(), weights, value);
        let msg = msgs.last();
        if msg.spec_estimate().0 == value && weights.contains_key(msg.spec_sender()) {
            rest.spec_plus(weights[msg.spec_sender()])
        } else {
            rest
        }
    }
}

impl BoolWrapper {
    /// The estimate `estimate`.
    pub fn new(estimate: bool) -> (r: Self)
        ensures
            r.0 == estimate,
    {
        BoolWrapper(estimate)
    }
}

impl Serialize for BoolWrapper {
    /// One byte: 1 for true, 0 for false.
    open spec fn encoding(&self) -> Seq<u8> {
        if self.0 {
            seq![1u8]
        } else {
            seq![0u8]
        }
    }

    fn serialize(&self) -> (bin: Vec<u8>) {
        let mut bin: Vec<u8> = Vec::new();
        bin.push(if self.0 {
            1u8
        } else {
            0u8
        });
        assert(bin@ =~= self.encoding());
        bin
    }
}

impl Deserialize for BoolWrapper {
    fn deserialize(bin: &[u8]) -> (r: Result<Self, MalleableEncoding>) {
        if bin.len() == 1 && bin[0] <= 1 {
            let value = BoolWrapper(bin[0] == 1);
            assert(value.encoding() =~= bin@);
            Ok(value)
        } else {
            proof {
                assert forall|v: Self| #[trigger] v.encoding() != bin@ by {
                    assert(v.encoding().len() == 1);
                    assert(v.encoding()[0] <= 1);
                }
            }
            Err(MalleableEncoding)
        }
    }

    proof fn lemma_encoding_injective(a: Self, b: Self) {
        assert(a.encoding()[0] == if a.0 {
            1u8
        } else {
            0u8
        });
        assert(b.encoding()[0] == if b.0 {
            1u8
        } else {
            0u8
        });
    }
}

impl Id for BoolWrapper {
    type ID = hash::Hash;

    closed spec fn digest(data: Seq<u8>) -> hash::Hash {
        hash::spec_digest(data)
    }

    fn hash(data: &[u8]) -> (id: hash::Hash) {
        hash::Hash::digest(data)
    }
}

impl Estimate for BoolWrapper {
    type Error = Error;

    /// True where the weight for true is at least the weight for false.
    open spec fn estimate_of(latest_msgs: Seq<Message<Self>>, weights: Map<u32, WeightUnit>) -> Result<
        Self,
        Error,
    > {
        Ok(
            BoolWrapper(
                weight_for(latest_msgs, weights, true).spec_ge(
                    weight_for(latest_msgs, weights, false),
                ),
            ),
        )
    }

    fn mk_estimate(latest_msgs: &LatestMsgsHonest<Self>, senders_weights: &SendersWeight) -> (r:
        Result<Self, Error>) {
        let msgs = latest_msgs.iter();
        let mut true_w = WeightUnit::Finite(0);
        let mut false_w = WeightUnit::Finite(0);
        let mut i: usize = 0;
        while i < msgs.len()
            invariant
                i <= msgs@.len(),
                true_w == weight_for(msgs@.take(i as int), senders_weights@, true),
                false_w == weight_for(msgs@.take(i as int), senders_weights@, false),
            decreases msgs@.len() - i,
        {
            proof {
                assert(msgs@.take(i + 1).drop_last() =~= msgs@.take(i as int));
            }
            match senders_weights.weight(*msgs[i].sender()) {
                Ok(w) => {
                    if msgs[i].estimate().0 {
                        true_w = true_w.plus(w);
                    } else {
                        false_w = false_w.plus(w);
                    }
                },
                Err(_) => {},
            }
            i += 1;
        }
        proof {
            assert(msgs@.take(msgs@.len() as int) =~= msgs@);
        }
        Ok(BoolWrapper(true_w.ge(false_w)))
    }
}

} // verus!
