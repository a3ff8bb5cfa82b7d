//! Estimates with three values, decided by the weighted plurality.

use crate::justification::LatestMsgsHonest;
use crate::message::Message;
use crate::traits::Deserialize;
use crate::traits::Estimate;
use crate::traits::Id;
use crate::traits::MalleableEncoding;
use crate::traits::Serialize;
use crate::util::hash;
use crate::util::weight::SendersWeight;
use crate::util::weight::WeightUnit;
use vstd::prelude::*;

verus! {

/// One of three values.
#[derive(Clone, Copy, Debug, PartialEq, Eq, Structural)]
pub enum Value {
    Zero,
    One,
    Two,
}

/// The failure of the plurality rule; the rule never fails.
#[derive(Clone, Copy, Debug, PartialEq, Eq, Structural)]
pub struct Error;

/// The sum of the weights of the senders of those of `msgs` that carry
/// `value`; a sender without a weight does not count.
pub open spec fn weight_for(
    msgs: Seq<Message<Value>>,
    weights: Map<u32, WeightUnit>,
    value: Value,
) -> WeightUnit
    decreases msgs.len(),
{
    if msgs.len() == 0 {
        WeightUnit::Finite(0)
    } else {
        let rest = weight_for(msgs.drop_last(), weights, value);
        let msg = msgs.last();
        if msg.spec_estimate() == value && weights.contains_key(msg.spec_sender()) {
            rest.spec_plus(weights[msg.spec_sender()])
        } else {
            rest
        }
    }
}

/// The value with the largest weight; among values that no other value
/// outweighs, the later one.
pub open spec fn plurality(zero: WeightUnit, one: WeightUnit, two: WeightUnit) -> Value {
    let (second, weight) = if one.spec_gt(two) {
        (Value::One, one)
    } else {
        (Value::Two, two)
    };
    if zero.spec_gt(weight) {
        Value::Zero
    } else {
        second
    }
}

impl Value {
    /// The value with the largest weight; among values that no other value
    /// outweighs, the later one.
    pub fn from_weights(zero: WeightUnit, one: WeightUnit, two: WeightUnit) -> (r: Value)
        ensures
            r == plurality(zero, one, two),
    {
        let mut max = Value::Two;
        let mut weight = two;
        if one.gt(weight) {
            max = Value::One;
            weight = one;
        }
        if zero.gt(weight) {
            max = Value::Zero;
        }
        max
    }
}

impl Serialize for Value {
    /// One byte: the number of the value.
    open spec fn encoding(&self) -> Seq<u8> {
        match self {
            Value::Zero => seq![0u8],
            Value::One => seq![1u8],
            Value::Two => seq![2u8],
        }
    }

    fn serialize(&self) -> (bin: Vec<u8>) {
        let mut bin: Vec<u8> = Vec::new();
        bin.push(
            match self {
                Value::Zero => 0u8,
                Value::One => 1u8,
                Value::Two => 2u8,
            },
        );
        assert(bin@ =~= self.encoding());
        bin
    }
}

impl Deserialize for Value {
    fn deserialize(bin: &[u8]) -> (r: Result<Self, MalleableEncoding>) {
        if bin.len() == 1 && bin[0] <= 2 {
            let value = if bin[0] == 0 {
                Value::Zero
            } else if bin[0] == 1 {
                Value::One
            } else {
                Value::Two
            };
            assert(value.encoding() =~= bin@);
            Ok(value)
        } else {
            proof {
                assert forall|v: Self| #[trigger] v.encoding() != bin@ by {
                    assert(v.encoding().len() == 1);
                    assert(v.encoding()[0] <= 2);
                }
            }
            Err(MalleableEncoding)
        }
    }

    proof fn lemma_encoding_injective(a: Self, b: Self) {
        assert(a.encoding()[0] == match a {
            Value::Zero => 0u8,
            Value::One => 1u8,
            Value::Two => 2u8,
        });
        assert(b.encoding()[0] == match b {
            Value::Zero => 0u8,
            Value::One => 1u8,
            Value::Two => 2u8,
        });
    }
}

impl Id for Value {
    type ID = hash::Hash;

    closed spec fn digest(data: Seq<u8>) -> hash::Hash {
        hash::spec_digest(data)
    }

    fn hash(data: &[u8]) -> (id: hash::Hash) {
        hash::Hash::digest(data)
    }
}

impl Estimate for Value {
    type Error = Error;

    /// The value that the largest weight stands behind.
    open spec fn estimate_of(latest_msgs: Seq<Message<Self>>, weights: Map<u32, WeightUnit>) -> Result<
        Self,
        Error,
    > {
        Ok(
            plurality(
                weight_for(latest_msgs, weights, Value::Zero),
                weight_for(latest_msgs, weights, Value::One),
                weight_for(latest_msgs, weights, Value::Two),
            ),
        )
    }

    fn mk_estimate(latest_msgs: &LatestMsgsHonest<Self>, senders_weights: &SendersWeight) -> (r:
        Result<Self, Error>) {
        let msgs = latest_msgs.iter();
        let mut zero = WeightUnit::Finite(0);
        let mut one = WeightUnit::Finite(0);
        let mut two = WeightUnit::Finite(0);
        let mut i: usize = 0;
        while i < msgs.len()
            invariant
                i <= msgs@.len(),
                zero == weight_for(msgs@.take(i as int), senders_weights@, Value::Zero),
                one == weight_for(msgs@.take(i as int), senders_weights@, Value::One),
                two == weight_for(msgs@.take(i as int), senders_weights@, Value::Two),
            decreases msgs@.len() - i,
        {
            proof {
                assert(msgs@.take(i + 1).drop_last() =~= msgs@.take(i as int));
            }
            match senders_weights.weight(*msgs[i].sender()) {
                Ok(w) => {
                    match msgs[i].estimate() {
                        Value::Zero => {
                            zero = zero.plus(w);
                        },
                        Value::One => {
                            one = one.plus(w);
                        },
                        Value::Two => {
                            two = two.plus(w);
                        },
                    }
                },
                Err(_) => {},
            }
            i += 1;
        }
        proof {
            assert(msgs@.take(msgs@.len() as int) =~= msgs@);
        }
        Ok(Value::from_weights(zero, one, two))
    }
}

} // verus!
