//! Integer estimates, decided by a weighted median.

use crate::justification::LatestMsgsHonest;
use crate::message::Message;
use crate::traits::Data;
use crate::traits::Deserialize;
use crate::traits::Estimate;
use crate::traits::Id;
use crate::traits::MalleableEncoding;
use crate::traits::Serialize;
use crate::util::codec::be32;
use crate::util::codec::get_be32;
use crate::util::codec::lemma_be32_inverse;
use crate::util::codec::put_be32;
use crate::util::hash;
use crate::util::weight::SendersWeight;
use crate::util::weight::WeightUnit;
use vstd::prelude::*;

verus! {

/// A message that carries an integer.
pub type IntegerMsg = Message<u32>;

/// A transaction without content.
#[derive(Clone, Copy, Debug, PartialEq, Eq, PartialOrd, Ord, Hash)]
pub struct Tx;

/// The failure of the median rule: the scan of the messages came to their
/// end before it came to the median.
#[derive(Clone, Copy, Debug, PartialEq, Eq, Structural)]
pub struct Error;

/// The weight of `sender`, or zero where it has none.
pub open spec fn weight_or_zero(weights: Map<u32, WeightUnit>, sender: u32) -> WeightUnit {
    if weights.contains_key(sender) {
        weights[sender]
    } else {
        WeightUnit::Finite(0)
    }
}

/// The weight of the sender of `msg` is not above that of the sender of `other`.
pub open spec fn not_heavier(weights: Map<u32, WeightUnit>, msg: IntegerMsg, other: IntegerMsg) -> bool {
    weight_or_zero(weights, msg.spec_sender()).rank() <= weight_or_zero(
        weights,
        other.spec_sender(),
    ).rank()
}

/// `sorted` with `msg` put behind the last message whose sender is not heavier.
pub open spec fn insert_by_weight(
    weights: Map<u32, WeightUnit>,
    sorted: Seq<IntegerMsg>,
    msg: IntegerMsg,
) -> Seq<IntegerMsg>
    decreases sorted.len(),
{
    if sorted.len() == 0 || not_heavier(weights, sorted.last(), msg) {
        sorted.push(msg)
    } else {
        insert_by_weight(weights, sorted.drop_last(), msg).push(sorted.last())
    }
}

/// `msgs` by the weight of their senders, the lightest first; messages of
/// equal weight keep their order.
pub open spec fn sorted_by_weight(weights: Map<u32, WeightUnit>, msgs: Seq<IntegerMsg>) -> Seq<
    IntegerMsg,
>
    decreases msgs.len(),
{
    if msgs.len() == 0 {
        Seq::empty()
    } else {
        insert_by_weight(weights, sorted_by_weight(weights, msgs.drop_last()), msgs.last())
    }
}

/// The sum of the weights of the senders of `msgs`.
pub open spec fn total_weight(weights: Map<u32, WeightUnit>, msgs: Seq<IntegerMsg>) -> WeightUnit
    decreases msgs.len(),
{
    if msgs.len() == 0 {
        WeightUnit::Finite(0)
    } else {
        total_weight(weights, msgs.drop_last()).spec_plus(
            weight_or_zero(weights, msgs.last().spec_sender()),
        )
    }
}

/// The estimate that the scan of `sorted` arrives at from position `at`
/// with the running weight `running`: the scan passes over messages, adding
/// the weights of their senders, until the running weight exceeds half of
/// `total`, and gives the estimate of the message that it stops at.
pub open spec fn median_from(
    weights: Map<u32, WeightUnit>,
    sorted: Seq<IntegerMsg>,
    total: WeightUnit,
    at: nat,
    running: WeightUnit,
) -> Option<u32>
    decreases sorted.len() - at,
{
    if at >= sorted.len() {
        None
    } else if !total.spec_lt(running.spec_plus(running)) {
        median_from(
            weights,
            sorted,
            total,
            at + 1,
            running.spec_plus(weight_or_zero(weights, sorted[at as int].spec_sender())),
        )
    } else {
        Some(sorted[at as int].spec_estimate())
    }
}

proof fn lemma_insert_by_weight_at(
    weights: Map<u32, WeightUnit>,
    sorted: Seq<IntegerMsg>,
    msg: IntegerMsg,
    at: int,
)
    requires
        0 <= at <= sorted.len(),
        forall|k: int| at <= k < sorted.len() ==> !not_heavier(weights, #[trigger] sorted[k], msg),
        at == 0 || not_heavier(weights, sorted[at - 1], msg),
    ensures
        insert_by_weight(weights, sorted, msg) == sorted.insert(at, msg),
    decreases sorted.len(),
{
    if at == sorted.len() {
        assert(sorted.insert(at, msg) =~= sorted.push(msg));
    } else {
        assert(!not_heavier(weights, sorted[sorted.len() - 1], msg));
        lemma_insert_by_weight_at(weights, sorted.drop_last(), msg, at);
        assert(sorted.insert(at, msg) =~= sorted.drop_last().insert(at, msg).push(sorted.last()));
    }
}

/// The references of `msgs` stand for these messages.
pub open spec fn referred(msgs: Seq<&IntegerMsg>) -> Seq<IntegerMsg> {
    msgs.map_values(|m: &IntegerMsg| *m)
}

/// The weight of `sender`, or zero where it has none.
fn weight_of(senders_weights: &SendersWeight, sender: u32) -> (w: WeightUnit)
    ensures
        w == weight_or_zero(senders_weights@, sender),
{
    match senders_weights.weight(sender) {
        Ok(w) => w,
        Err(_) => WeightUnit::Finite(0),
    }
}

impl Data for u32 {
    type Data = u32;

    /// Every integer may be used.
    fn is_valid(data: &u32) -> (r: bool) {
        true
    }

    /// Every integer is valid data.
    open spec fn valid(data: &u32) -> bool {
        true
    }
}

impl Serialize for u32 {
    /// The four bytes of the integer, big-endian.
    open spec fn encoding(&self) -> Seq<u8> {
        be32(*self)
    }

    fn serialize(&self) -> (bin: Vec<u8>) {
        let mut bin: Vec<u8> = Vec::new();
        put_be32(&mut bin, *self);
        bin
    }
}

impl Deserialize for u32 {
    fn deserialize(bin: &[u8]) -> (r: Result<Self, MalleableEncoding>) {
        if bin.len() != 4 {
            proof {
                assert forall|v: Self| #[trigger] v.encoding() != bin@ by {
                    assert(v.encoding().len() == 4);
                }
            }
            return Err(MalleableEncoding);
        }
        let value = get_be32(bin, 0);
        proof {
            lemma_be32_inverse(value, bin@.subrange(0, 4));
            assert(bin@ =~= bin@.subrange(0, 4));
        }
        Ok(value)
    }

    proof fn lemma_encoding_injective(a: Self, b: Self) {
        lemma_be32_inverse(a, Seq::empty());
        lemma_be32_inverse(b, Seq::empty());
    }
}

impl Id for u32 {
    type ID = hash::Hash;

    closed spec fn digest(data: Seq<u8>) -> hash::Hash {
        hash::spec_digest(data)
    }

    fn hash(data: &[u8]) -> (id: hash::Hash) {
        hash::Hash::digest(data)
    }
}

impl Estimate for u32 {
    type Error = Error;

    /// The estimate at the weighted median: the messages are sorted by the
    /// weight of their senders, and scanned from the lightest until the
    /// weight passed exceeds half of the total; the estimate is that of
    /// the message that follows.
    open spec fn estimate_of(latest_msgs: Seq<Message<Self>>, weights: Map<u32, WeightUnit>) -> Result<
        Self,
        Error,
    > {
        match median_from(
            weights,
            sorted_by_weight(weights, latest_msgs),
            total_weight(weights, latest_msgs),
            0,
            WeightUnit::Finite(0),
        ) {
            Some(estimate) => Ok(estimate),
            None => Err(Error),
        }
    }

    fn mk_estimate(latest_msgs: &LatestMsgsHonest<Self>, senders_weights: &SendersWeight) -> (r:
        Result<Self, Error>) {
        let msgs = latest_msgs.iter();
        let mut sorted: Vec<&IntegerMsg> = Vec::new();
        let mut total = WeightUnit::Finite(0);
        let mut i: usize = 0;
        while i < msgs.len()
            invariant
                i <= msgs@.len(),
                sorted@.len() == i,
                referred(sorted@) == sorted_by_weight(senders_weights@, msgs@.take(i as int)),
                total == total_weight(senders_weights@, msgs@.take(i as int)),
            decreases msgs@.len() - i,
        {
            let msg = &msgs[i];
            let weight = weight_of(senders_weights, *msg.sender());
            let ghost before = referred(sorted@);
            let mut at: usize = sorted.len();
            while at > 0 && weight.ranks_below(weight_of(senders_weights, *sorted[at - 1].sender()))
                invariant
                    at <= sorted@.len(),
                    before == referred(sorted@),
                    weight == weight_or_zero(senders_weights@, msg.spec_sender()),
                    forall|k: int|
                        at <= k < before.len() ==> !not_heavier(
                            senders_weights@,
                            #[trigger] before[k],
                            *msg,
                        ),
                decreases at,
            {
                at -= 1;
            }
            proof {
                assert(msgs@.take(i + 1).drop_last() =~= msgs@.take(i as int));
                lemma_insert_by_weight_at(senders_weights@, before, *msg, at as int);
            }
            sorted.insert(at, msg);
            total = total.plus(weight);
            proof {
                assert(referred(sorted@) =~= before.insert(at as int, *msg));
            }
            i += 1;
        }
        proof {
            assert(msgs@.take(msgs@.len() as int) =~= msgs@);
        }
        let ghost ordered = referred(sorted@);
        let mut running = WeightUnit::Finite(0);
        let mut at: usize = 0;
        while at < sorted.len() && !total.lt(running.plus(running))
            invariant
                at <= sorted@.len(),
                ordered == referred(sorted@),
                median_from(senders_weights@, ordered, total, at as nat, running) == median_from(
                    senders_weights@,
                    ordered,
                    total,
                    0,
                    WeightUnit::Finite(0),
                ),
            decreases sorted@.len() - at,
        {
            running = running.plus(weight_of(senders_weights, *sorted[at].sender()));
            at += 1;
        }
        if at < sorted.len() {
            Ok(*sorted[at].estimate())
        } else {
            Err(Error)
        }
    }
}

/// The weight that the scan has passed after the first `n` messages.
pub open spec fn passed(weights: Map<u32, WeightUnit>, sorted: Seq<IntegerMsg>, n: int) -> WeightUnit {
    total_weight(weights, sorted.take(n))
}

/// The running weight exceeds half of the total.
pub open spec fn exceeds_half(running: WeightUnit, total: WeightUnit) -> bool {
    total.spec_lt(running.spec_plus(running))
}

/// What the scan arrives at: the estimate of the message that follows the
/// shortest run of messages whose weight exceeds half of the total, and
/// nothing where no message follows such a run.
pub proof fn lemma_median_from(
    weights: Map<u32, WeightUnit>,
    sorted: Seq<IntegerMsg>,
    total: WeightUnit,
    at: int,
    stop: int,
)
    requires
        0 <= at <= stop <= sorted.len(),
        forall|q: int| at <= q < stop ==> !exceeds_half(#[trigger] passed(weights, sorted, q), total),
        stop < sorted.len() ==> exceeds_half(passed(weights, sorted, stop), total),
    ensures
        median_from(weights, sorted, total, at as nat, passed(weights, sorted, at)) == if stop
            < sorted.len() {
            Some(sorted[stop].spec_estimate())
        } else {
            None
        },
    decreases stop - at,
{
    if at < stop {
        assert(sorted.take(at + 1).drop_last() =~= sorted.take(at));
        assert(!exceeds_half(passed(weights, sorted, at), total));
        lemma_median_from(weights, sorted, total, at + 1, stop);
    }
}

/// Putting a message among messages adds that message and nothing else.
pub proof fn lemma_insert_by_weight(
    weights: Map<u32, WeightUnit>,
    sorted: Seq<IntegerMsg>,
    msg: IntegerMsg,
)
    ensures
        insert_by_weight(weights, sorted, msg).len() == sorted.len() + 1,
        forall|i: int|
            0 <= i < insert_by_weight(weights, sorted, msg).len() ==> {
                let m = #[trigger] insert_by_weight(weights, sorted, msg)[i];
                m == msg || sorted.contains(m)
            },
    decreases sorted.len(),
{
    if !(sorted.len() == 0 || not_heavier(weights, sorted.last(), msg)) {
        let rest = sorted.drop_last();
        lemma_insert_by_weight(weights, rest, msg);
        let inner = insert_by_weight(weights, rest, msg);
        let out = insert_by_weight(weights, sorted, msg);
        assert forall|i: int| 0 <= i < out.len() implies {
            let m = #[trigger] out[i];
            m == msg || sorted.contains(m)
        } by {
            if i < inner.len() {
                if inner[i] != msg {
                    assert(rest.contains(inner[i]));
                    let k = choose|k: int| 0 <= k < rest.len() && rest[k] == inner[i];
                    assert(sorted[k] == out[i]);
                }
            } else {
                assert(sorted[sorted.len() - 1] == out[i]);
            }
        }
    } else {
        let out = insert_by_weight(weights, sorted, msg);
        assert forall|i: int| 0 <= i < out.len() implies {
            let m = #[trigger] out[i];
            m == msg || sorted.contains(m)
        } by {
            if i < sorted.len() {
                assert(sorted[i] == out[i]);
            }
        }
    }
}

/// The sorted messages are the messages given.
pub proof fn lemma_sorted_by_weight(weights: Map<u32, WeightUnit>, msgs: Seq<IntegerMsg>)
    ensures
        sorted_by_weight(weights, msgs).len() == msgs.len(),
        forall|i: int|
            0 <= i < sorted_by_weight(weights, msgs).len() ==> msgs.contains(
                #[trigger] sorted_by_weight(weights, msgs)[i],
            ),
    decreases msgs.len(),
{
    if msgs.len() > 0 {
        let rest = msgs.drop_last();
        lemma_sorted_by_weight(weights, rest);
        lemma_insert_by_weight(weights, sorted_by_weight(weights, rest), msgs.last());
        let out = sorted_by_weight(weights, msgs);
        assert forall|i: int| 0 <= i < out.len() implies msgs.contains(#[trigger] out[i]) by {
            if out[i] == msgs.last() {
                assert(msgs[msgs.len() - 1] == out[i]);
            } else {
                assert(sorted_by_weight(weights, rest).contains(out[i]));
                assert(rest.contains(out[i]));
                let k = choose|k: int| 0 <= k < rest.len() && rest[k] == out[i];
                assert(msgs[k] == out[i]);
            }
        }
    }
}

/// What the scan gives on its way from position `at` is the estimate of
/// one of the messages.
proof fn lemma_median_is_of_a_message(
    weights: Map<u32, WeightUnit>,
    sorted: Seq<IntegerMsg>,
    total: WeightUnit,
    at: nat,
    running: WeightUnit,
)
    ensures
        median_from(weights, sorted, total, at, running) matches Some(e) ==> exists|i: int|
            0 <= i < sorted.len() && (#[trigger] sorted[i]).spec_estimate() == e,
    decreases sorted.len() - at,
{
    if at < sorted.len() && !total.spec_lt(running.spec_plus(running)) {
        lemma_median_is_of_a_message(
            weights,
            sorted,
            total,
            at + 1,
            running.spec_plus(weight_or_zero(weights, sorted[at as int].spec_sender())),
        );
    }
}

/// The estimate at the weighted median is the estimate of one of the
/// latest messages.
pub proof fn lemma_median_is_carried(latest_msgs: Seq<IntegerMsg>, weights: Map<u32, WeightUnit>)
    ensures
        <u32 as Estimate>::estimate_of(latest_msgs, weights) matches Ok(e) ==> exists|i: int|
            0 <= i < latest_msgs.len() && (#[trigger] latest_msgs[i]).spec_estimate() == e,
{
    let sorted = sorted_by_weight(weights, latest_msgs);
    lemma_sorted_by_weight(weights, latest_msgs);
    lemma_median_is_of_a_message(
        weights,
        sorted,
        total_weight(weights, latest_msgs),
        0,
        WeightUnit::Finite(0),
    );
    if <u32 as Estimate>::estimate_of(latest_msgs, weights) is Ok {
        let e = <u32 as Estimate>::estimate_of(latest_msgs, weights)->Ok_0;
        let i = choose|i: int| 0 <= i < sorted.len() && (#[trigger] sorted[i]).spec_estimate() == e;
        assert(latest_msgs.contains(sorted[i]));
        let k = choose|k: int| 0 <= k < latest_msgs.len() && latest_msgs[k] == sorted[i];
        assert(latest_msgs[k].spec_estimate() == e);
    }
}

} // verus!
