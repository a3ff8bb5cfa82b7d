//! Justifications and the bookkeeping of latest messages.

use crate::message::Message;
use crate::traits::Estimate;
use crate::util::hash::lemma_lex_asymmetric;
use crate::util::hash::lemma_lex_total;
use crate::util::hash::lemma_lex_transitive;
use crate::util::hash::lex_lt;
use crate::util::weight::SendersWeight;
use crate::util::weight::WeightUnit;
use rayon::iter::IntoParallelRefIterator;
use std::collections::HashSet;
use vstd::prelude::*;
use vstd::std_specs::cmp::PartialEqSpecImpl;

verus! {

/// The parallel iterator of rayon over the items of a slice.
#[verifier::external_type_specification]
#[verifier::external_body]
#[verifier::reject_recursive_types(T)]
pub struct ExParallelIter<'data, T>(rayon::slice::Iter<'data, T>);

/// The messages that a message cites: kept in insertion order, none twice.
#[derive(Debug)]
pub struct Justification<E> {
    pub(crate) msgs: Vec<Message<E>>,
}

impl<E> View for Justification<E> {
    type V = Seq<Message<E>>;

    open(crate) spec fn view(&self) -> Seq<Message<E>> {
        self.msgs@
    }
}

impl<E> Clone for Justification<E> {
    /// A justification with the same messages.
    fn clone(&self) -> (j: Self)
        ensures
            j@ == self@,
    {
        let mut msgs: Vec<Message<E>> = Vec::new();
        let mut i: usize = 0;
        while i < self.msgs.len()
            invariant
                i <= self.msgs@.len(),
                msgs@ == self.msgs@.take(i as int),
            decreases self.msgs@.len() - i,
        {
            msgs.push(self.msgs[i].clone());
            assert(msgs@ =~= self.msgs@.take(i + 1));
            i += 1;
        }
        assert(msgs@ =~= self.msgs@);
        Justification { msgs }
    }
}

impl<E> Default for Justification<E> {
    /// The empty justification.
    fn default() -> (j: Self)
        ensures
            j@ == Seq::<Message<E>>::empty(),
    {
        Justification { msgs: Vec::new() }
    }
}

/// The identifiers of `msgs`, in their order.
pub open spec fn ids_of<E>(msgs: Seq<Message<E>>) -> Seq<Seq<u8>> {
    msgs.map_values(|m: Message<E>| m.spec_id())
}

impl<E> PartialEq for Justification<E> {
    /// Justifications are equal when they cite messages with the same
    /// identifiers in the same order.
    fn eq(&self, other: &Self) -> (r: bool) {
        if self.msgs.len() != other.msgs.len() {
            assert(ids_of(self@).len() != ids_of(other@).len());
            return false;
        }
        let mut i: usize = 0;
        while i < self.msgs.len()
            invariant
                i <= self.msgs@.len(),
                self.msgs@.len() == other.msgs@.len(),
                forall|k: int|
                    0 <= k < i ==> (#[trigger] self.msgs@[k]).spec_id() == other.msgs@[k].spec_id(),
            decreases self.msgs@.len() - i,
        {
            if !self.msgs[i].eq(&other.msgs[i]) {
                assert(ids_of(self@)[i as int] != ids_of(other@)[i as int]);
                return false;
            }
            i += 1;
        }
        assert(ids_of(self@) =~= ids_of(other@));
        true
    }
}

impl<E> PartialEqSpecImpl for Justification<E> {
    open spec fn obeys_eq_spec() -> bool {
        true
    }

    open spec fn eq_spec(&self, other: &Self) -> bool {
        ids_of(self@) == ids_of(other@)
    }
}

impl<E> Eq for Justification<E> {
}

/// No two of `msgs` have the same identifier.
pub open spec fn distinct_ids<E>(msgs: Seq<Message<E>>) -> bool {
    forall|i: int, j: int|
        0 <= i < j < msgs.len() ==> (#[trigger] msgs[i]).spec_id() != (#[trigger] msgs[j]).spec_id()
}

/// One of `msgs` has the identifier `id`.
pub open spec fn holds_id<E>(msgs: Seq<Message<E>>, id: Seq<u8>) -> bool {
    exists|i: int| 0 <= i < msgs.len() && (#[trigger] msgs[i]).spec_id() == id
}

/// The justification that takes in `msgs` one by one: each message once,
/// at the place where it first occurs.
pub open spec fn justification_of<E>(msgs: Seq<Message<E>>) -> Seq<Message<E>>
    decreases msgs.len(),
{
    if msgs.len() == 0 {
        Seq::empty()
    } else {
        let rest = justification_of(msgs.drop_last());
        if holds_id(rest, msgs.last().spec_id()) {
            rest
        } else {
            rest.push(msgs.last())
        }
    }
}

impl<E> Justification<E> {
    /// No message occurs twice.
    pub open spec fn wf(&self) -> bool {
        distinct_ids(self@)
    }

    /// The empty justification.
    pub fn new() -> (j: Self)
        ensures
            j@ == Seq::<Message<E>>::empty(),
            j.wf(),
    {
        Justification { msgs: Vec::new() }
    }

    /// The number of messages.
    pub fn len(&self) -> (n: usize)
        ensures
            n == self@.len(),
    {
        self.msgs.len()
    }

    /// The messages, in insertion order.
    pub fn iter(&self) -> (it: std::slice::Iter<'_, Message<E>>)
        ensures
            vstd::std_specs::slice::into_iter_elts(it) == self@,
    {
        broadcast use vstd::std_specs::slice::axiom_spec_slice_iter;

        let it = self.msgs.as_slice().iter();
        assert(vstd::std_specs::slice::into_iter_elts(it) =~= self@);
        it
    }

    /// Calls rayon's `par_iter` on the messages: the iterator that hands
    /// them out to threads. Nothing is stated of the iterator.
    #[verifier::external_body]
    pub fn par_iter(&self) -> rayon::slice::Iter<'_, Message<E>>
        where E: Send + Sync,
    {
        self.msgs.par_iter()
    }

    /// The message at position `i`.
    pub fn get(&self, i: usize) -> (m: &Message<E>)
        requires
            i < self@.len(),
        ensures
            *m == self@[i as int],
    {
        &self.msgs[i]
    }

    /// Whether a message with the identifier of `msg` is among the messages.
    pub fn contains(&self, msg: &Message<E>) -> (r: bool)
        ensures
            r == holds_id(self@, msg.spec_id()),
    {
        let mut i: usize = 0;
        while i < self.msgs.len()
            invariant
                i <= self.msgs.len(),
                forall|k: int| 0 <= k < i ==> (#[trigger] self.msgs@[k]).spec_id() != msg.spec_id(),
            decreases self.msgs.len() - i,
        {
            if self.msgs[i].eq(msg) {
                return true;
            }
            i += 1;
        }
        false
    }

    /// Whether no message occurs twice.
    pub fn is_well_formed(&self) -> (r: bool)
        ensures
            r == self.wf(),
    {
        let mut j: usize = 0;
        while j < self.msgs.len()
            invariant
                j <= self.msgs.len(),
                forall|a: int, b: int|
                    0 <= a < b < j ==> (#[trigger] self.msgs@[a]).spec_id() != (
                    #[trigger] self.msgs@[b]).spec_id(),
            decreases self.msgs.len() - j,
        {
            let mut i: usize = 0;
            while i < j
                invariant
                    i <= j < self.msgs.len(),
                    forall|a: int|
                        0 <= a < i ==> (#[trigger] self.msgs@[a]).spec_id()
                            != self.msgs@[j as int].spec_id(),
                decreases j - i,
            {
                if self.msgs[i].eq(&self.msgs[j]) {
                    assert(self@[i as int].spec_id() == self@[j as int].spec_id());
                    return false;
                }
                i += 1;
            }
            j += 1;
        }
        true
    }

    /// Whether every message is a message of `sender`.
    pub fn is_sent_by(&self, sender: u32) -> (r: bool)
        ensures
            r == sent_by(self@, sender),
    {
        let mut i: usize = 0;
        while i < self.msgs.len()
            invariant
                i <= self.msgs.len(),
                forall|a: int| 0 <= a < i ==> (#[trigger] self.msgs@[a]).spec_sender() == sender,
            decreases self.msgs.len() - i,
        {
            if *self.msgs[i].sender() != sender {
                assert(self@[i as int].spec_sender() != sender);
                return false;
            }
            i += 1;
        }
        true
    }

    /// Adds `msg` at the end unless a message with its identifier is there
    /// already; returns whether it was added.
    pub fn insert(&mut self, msg: Message<E>) -> (r: bool)
        ensures
            r == !holds_id(old(self)@, msg.spec_id()),
            final(self)@ == if r {
                old(self)@.push(msg)
            } else {
                old(self)@
            },
            old(self).wf() ==> final(self).wf(),
    {
        if self.contains(&msg) {
            false
        } else {
            self.msgs.push(msg);
            true
        }
    }

    /// The justification that cites the latest honest messages.
    pub fn from_latest_msgs_honest(honest: &LatestMsgsHonest<E>) -> (j: Self)
        ensures
            j@ == justification_of(honest@),
            j.wf(),
    {
        let msgs = honest.iter();
        let mut j = Justification::new();
        let mut i: usize = 0;
        while i < msgs.len()
            invariant
                i <= msgs@.len(),
                j.wf(),
                j@ == justification_of(msgs@.take(i as int)),
            decreases msgs@.len() - i,
        {
            proof {
                assert(msgs@.take(i + 1).drop_last() =~= msgs@.take(i as int));
            }
            j.insert(msgs[i].clone());
            i += 1;
        }
        proof {
            assert(msgs@.take(msgs@.len() as int) =~= msgs@);
        }
        j
    }
}

/// The messages of `frontier` that `new` does not depend on, in their order.
pub open spec fn kept_of<E>(frontier: Seq<Message<E>>, new: Message<E>) -> Seq<Message<E>> {
    frontier.filter(|old: Message<E>| !new.spec_depends(old))
}

/// How the messages kept follow from those kept of all but the last.
pub proof fn lemma_kept_of_last<E>(frontier: Seq<Message<E>>, new: Message<E>)
    ensures
        frontier.len() == 0 ==> kept_of(frontier, new) == Seq::<Message<E>>::empty(),
        frontier.len() > 0 ==> kept_of(frontier, new) == if !new.spec_depends(frontier.last()) {
            kept_of(frontier.drop_last(), new).push(frontier.last())
        } else {
            kept_of(frontier.drop_last(), new)
        },
{
    reveal(Seq::filter);
    if frontier.len() == 0 {
        assert(kept_of(frontier, new) =~= Seq::<Message<E>>::empty());
    }
}

/// `new` is known or stale: a message of `frontier` has its identifier, or
/// depends on it.
pub open spec fn holds_back<E>(frontier: Seq<Message<E>>, new: Message<E>) -> bool {
    exists|i: int|
        0 <= i < frontier.len() && ((#[trigger] frontier[i]).spec_id() == new.spec_id()
            || frontier[i].spec_depends(new))
}

/// The latest messages of one validator once `new`, a message of that
/// validator, has arrived: as they were where `new` is known or stale;
/// and else without the messages that `new` depends on, and with `new`.
pub open spec fn updated_frontier<E>(frontier: Seq<Message<E>>, new: Message<E>) -> Seq<Message<E>> {
    if holds_back(frontier, new) {
        frontier
    } else {
        kept_of(frontier, new).push(new)
    }
}

/// The latest messages once `new` has arrived.
pub open spec fn updated<E>(latest: Map<u32, Seq<Message<E>>>, new: Message<E>) -> Map<
    u32,
    Seq<Message<E>>,
> {
    let sender = new.spec_sender();
    if latest.contains_key(sender) {
        latest.insert(sender, updated_frontier(latest[sender], new))
    } else {
        latest.insert(sender, seq![new])
    }
}

/// Each of `msgs` is free of identifier collisions at and below itself.
pub open spec fn all_collision_free<E>(msgs: Seq<Message<E>>) -> bool {
    forall|i: int| 0 <= i < msgs.len() ==> (#[trigger] msgs[i]).collision_free()
}

/// Each of `part` is one of `whole`.
pub open spec fn drawn_from<E>(part: Seq<Message<E>>, whole: Seq<Message<E>>) -> bool {
    forall|i: int| 0 <= i < part.len() ==> whole.contains(#[trigger] part[i])
}

/// The latest messages of one validator once `new` has arrived, and whether
/// they differ from what they were.
fn refresh<E>(frontier: &Justification<E>, new: &Message<E>) -> (r: (Justification<E>, bool))
    requires
        frontier.wf(),
    ensures
        r.0.wf(),
        r.1 == (r.0@ != frontier@),
        r.1 ==> r.0@.len() > 0 && r.0@.last() == *new && !holds_id(frontier@, new.spec_id()),
        drawn_from(r.0@, frontier@.push(*new)),
        all_collision_free(frontier@) && new.collision_free() ==> r.0@ == updated_frontier(
            frontier@,
            *new,
        ),
{
    let ghost exact = all_collision_free(frontier@) && new.collision_free();
    let ghost whole = frontier@.push(*new);
    let mut i: usize = 0;
    while i < frontier.len()
        invariant
            i <= frontier@.len(),
            frontier.wf(),
            whole == frontier@.push(*new),
            exact == (all_collision_free(frontier@) && new.collision_free()),
            forall|k: int| 0 <= k < i ==> (#[trigger] frontier@[k]).spec_id() != new.spec_id(),
            exact ==> forall|k: int| 0 <= k < i ==> !(#[trigger] frontier@[k]).spec_depends(*new),
        decreases frontier@.len() - i,
    {
        let old = frontier.get(i);
        if old.eq(new) || old.depends(new) {
            let same = frontier.clone();
            proof {
                assert(holds_back(frontier@, *new));
                assert forall|a: int| 0 <= a < same@.len() implies whole.contains(
                    #[trigger] same@[a],
                ) by {
                    assert(whole[a] == same@[a]);
                }
            }
            return (same, false);
        }
        i += 1;
    }
    let mut kept: Vec<Message<E>> = Vec::new();
    let mut i: usize = 0;
    proof {
        lemma_kept_of_last(frontier@.take(0), *new);
    }
    while i < frontier.len()
        invariant
            i <= frontier@.len(),
            frontier.wf(),
            whole == frontier@.push(*new),
            exact == (all_collision_free(frontier@) && new.collision_free()),
            forall|k: int|
                0 <= k < frontier@.len() ==> (#[trigger] frontier@[k]).spec_id() != new.spec_id(),
            exact ==> forall|k: int|
                0 <= k < frontier@.len() ==> !(#[trigger] frontier@[k]).spec_depends(*new),
            exact ==> kept@ == kept_of(frontier@.take(i as int), *new),
            distinct_ids(kept@),
            forall|a: int|
                0 <= a < kept@.len() ==> exists|k: int|
                    0 <= k < i && frontier@[k] == #[trigger] kept@[a],
        decreases frontier@.len() - i,
    {
        let old = frontier.get(i);
        let ghost before = kept@;
        proof {
            lemma_kept_of_last(frontier@.take(i + 1), *new);
            assert(frontier@.take(i + 1).drop_last() =~= frontier@.take(i as int));
            assert forall|a: int| 0 <= a < before.len() implies (#[trigger] before[a]).spec_id()
                != old.spec_id() by {
                let k = choose|k: int| 0 <= k < i && frontier@[k] == before[a];
                assert(frontier@[k].spec_id() != frontier@[i as int].spec_id());
            }
        }
        if !new.depends(old) {
            kept.push(old.clone());
        }
        proof {
            assert forall|a: int| 0 <= a < kept@.len() implies exists|k: int|
                0 <= k < i + 1 && frontier@[k] == #[trigger] kept@[a] by {
                if a < before.len() {
                    let k = choose|k: int| 0 <= k < i && frontier@[k] == before[a];
                    assert(frontier@[k] == kept@[a]);
                } else {
                    assert(frontier@[i as int] == kept@[a]);
                }
            }
        }
        i += 1;
    }
    let ghost filtered = kept@;
    proof {
        assert(frontier@.take(i as int) =~= frontier@);
        assert forall|a: int| 0 <= a < filtered.len() implies (#[trigger] filtered[a]).spec_id()
            != new.spec_id() by {
            let k = choose|k: int| 0 <= k < i && frontier@[k] == filtered[a];
            assert(frontier@[k].spec_id() != new.spec_id());
        }
    }
    kept.push(new.clone());
    proof {
        assert forall|a: int| 0 <= a < kept@.len() implies whole.contains(#[trigger] kept@[a]) by {
            if a < filtered.len() {
                let k = choose|k: int| 0 <= k < i && frontier@[k] == filtered[a];
                assert(whole[k] == kept@[a]);
            } else {
                assert(whole[frontier@.len() as int] == kept@[a]);
            }
        }
        if kept@ == frontier@ {
            assert(frontier@[frontier@.len() - 1].spec_id() == new.spec_id());
        }
        if exact {
            if holds_back(frontier@, *new) {
                let k = choose|k: int|
                    0 <= k < frontier@.len() && ((#[trigger] frontier@[k]).spec_id()
                        == new.spec_id() || frontier@[k].spec_depends(*new));
                assert(!frontier@[k].spec_depends(*new));
            }
        }
    }
    (Justification { msgs: kept }, true)
}

/// `msg` and one of the latest messages of its sender are an equivocation.
pub open spec fn equivocates_with<E>(latest: Map<u32, Seq<Message<E>>>, msg: Message<E>) -> bool {
    latest.contains_key(msg.spec_sender()) && exists|i: int|
        0 <= i < latest[msg.spec_sender()].len() && (
        #[trigger] latest[msg.spec_sender()][i]).spec_equivocates(msg)
}

/// The sizes of `msgs`, added up.
pub open spec fn total_size<E>(msgs: Seq<Message<E>>) -> nat
    decreases msgs.len(),
{
    if msgs.len() == 0 {
        0
    } else {
        total_size(msgs.drop_last()) + msgs.last().size()
    }
}

proof fn lemma_total_size_add<E>(a: Seq<Message<E>>, b: Seq<Message<E>>)
    ensures
        total_size(a + b) == total_size(a) + total_size(b),
    decreases b.len(),
{
    if b.len() == 0 {
        assert(a + b =~= a);
    } else {
        lemma_total_size_add(a, b.drop_last());
        assert((a + b).drop_last() =~= a + b.drop_last());
    }
}

proof fn lemma_total_size_cited<E>(msg: Message<E>, n: nat)
    requires
        n <= msg.spec_justification().len(),
    ensures
        total_size(msg.spec_justification().take(n as int)) == msg.size_below(n),
    decreases n,
{
    if n > 0 {
        lemma_total_size_cited(msg, (n - 1) as nat);
        assert(msg.spec_justification().take(n as int).drop_last() =~= msg.spec_justification().take(
            n - 1,
        ));
    }
}

proof fn lemma_total_size_first<E>(queue: Seq<Message<E>>)
    requires
        queue.len() > 0,
    ensures
        total_size(queue) == queue.first().size() + total_size(queue.drop_first()),
        total_size(queue.drop_first() + queue.first().spec_justification()) < total_size(queue),
{
    lemma_total_size_add(seq![queue.first()], queue.drop_first());
    assert(seq![queue.first()] + queue.drop_first() =~= queue);
    let single = seq![queue.first()];
    assert(single.drop_last() =~= Seq::<Message<E>>::empty());
    assert(total_size(single.drop_last()) == 0);
    assert(single.last() == queue.first());
    assert(total_size(single) == queue.first().size());
    lemma_total_size_add(queue.drop_first(), queue.first().spec_justification());
    let cited = queue.first().spec_justification();
    lemma_total_size_cited(queue.first(), cited.len());
    assert(cited.take(cited.len() as int) =~= cited);
}

/// `order` followed by those of `msgs` whose identifiers it does not hold
/// yet, each once.
pub open spec fn extended<E>(order: Seq<Message<E>>, msgs: Seq<Message<E>>) -> Seq<Message<E>>
    decreases msgs.len(),
{
    if msgs.len() == 0 {
        order
    } else {
        let before = extended(order, msgs.drop_last());
        if holds_id(before, msgs.last().spec_id()) {
            before
        } else {
            before.push(msgs.last())
        }
    }
}

/// What `extended` adds: `order` stays in front, every message behind it
/// is one of `msgs`, every identifier of `msgs` is held, and distinct
/// identifiers stay distinct.
pub proof fn lemma_extended<E>(order: Seq<Message<E>>, msgs: Seq<Message<E>>)
    ensures
        extended(order, msgs).len() >= order.len(),
        extended(order, msgs).take(order.len() as int) == order,
        forall|a: int|
            order.len() <= a < extended(order, msgs).len() ==> msgs.contains(
                #[trigger] extended(order, msgs)[a],
            ),
        forall|i: int|
            0 <= i < msgs.len() ==> holds_id(extended(order, msgs), (#[trigger] msgs[i]).spec_id()),
        total_size(extended(order, msgs)) <= total_size(order) + total_size(msgs),
        distinct_ids(order) ==> distinct_ids(extended(order, msgs)),
    decreases msgs.len(),
{
    let out = extended(order, msgs);
    if msgs.len() == 0 {
        assert(order.take(order.len() as int) =~= order);
    } else {
        let rest = msgs.drop_last();
        let last = msgs.last();
        let before = extended(order, rest);
        lemma_extended(order, rest);
        assert(out.take(order.len() as int) =~= before.take(order.len() as int));
        assert forall|a: int| order.len() <= a < out.len() implies msgs.contains(
            #[trigger] out[a],
        ) by {
            if a < before.len() {
                assert(rest.contains(before[a]));
                let k = choose|k: int| 0 <= k < rest.len() && rest[k] == before[a];
                assert(msgs[k] == out[a]);
            } else {
                assert(msgs[msgs.len() - 1] == out[a]);
            }
        }
        assert forall|i: int| 0 <= i < msgs.len() implies holds_id(
            out,
            (#[trigger] msgs[i]).spec_id(),
        ) by {
            if i < rest.len() {
                assert(rest[i] == msgs[i]);
                let k = choose|k: int|
                    0 <= k < before.len() && (#[trigger] before[k]).spec_id() == rest[i].spec_id();
                assert(out[k].spec_id() == msgs[i].spec_id());
            } else if holds_id(before, last.spec_id()) {
            } else {
                assert(out[out.len() - 1].spec_id() == last.spec_id());
            }
        }
        if !holds_id(before, last.spec_id()) {
            assert(out.drop_last() =~= before);
        }
    }
}

/// The sizes of the messages in front of a place and behind it.
proof fn lemma_total_size_split<E>(msgs: Seq<Message<E>>, at: int)
    requires
        0 <= at <= msgs.len(),
    ensures
        total_size(msgs) == total_size(msgs.take(at)) + total_size(msgs.skip(at)),
{
    lemma_total_size_add(msgs.take(at), msgs.skip(at));
    assert(msgs.take(at) + msgs.skip(at) =~= msgs);
}

/// One step of the walk leaves less to walk.
proof fn lemma_walk_decreases<E>(order: Seq<Message<E>>, head: int)
    requires
        0 <= head < order.len(),
    ensures
        total_size(extended(order, order[head].spec_justification()).skip(head + 1)) < total_size(
            order.skip(head),
        ),
{
    let msg = order[head];
    let cited = msg.spec_justification();
    let next = extended(order, cited);
    lemma_extended(order, cited);
    lemma_total_size_split(next, head + 1);
    lemma_total_size_split(order, head + 1);
    assert(next.take(head + 1) =~= order.take(head + 1)) by {
        assert(next.take(order.len() as int).take(head + 1) =~= next.take(head + 1));
    }
    lemma_total_size_first(order.skip(head));
    assert(order.skip(head).first() == msg);
    assert(order.skip(head).drop_first() =~= order.skip(head + 1));
    lemma_total_size_cited(msg, cited.len());
    assert(cited.take(cited.len() as int) =~= cited);
}

/// The latest messages that result from `latest` by walking on from place
/// `head` of `order`, the messages met so far in the order in which they
/// were met: the message at `head` is taken in, the messages that it
/// cites and that have not been met join the end of `order`, and the walk
/// goes on behind it.
pub open spec fn walked<E>(order: Seq<Message<E>>, head: nat, latest: Map<u32, Seq<Message<E>>>) -> Map<
    u32,
    Seq<Message<E>>,
>
    decreases total_size(order.skip(head as int)),
    via walked_decreases::<E>
{
    if head >= order.len() {
        latest
    } else {
        walked(
            extended(order, order[head as int].spec_justification()),
            head + 1,
            updated(latest, order[head as int]),
        )
    }
}

#[via_fn]
proof fn walked_decreases<E>(order: Seq<Message<E>>, head: nat, latest: Map<u32, Seq<Message<E>>>) {
    if head < order.len() {
        lemma_walk_decreases(order, head as int);
    }
}

/// The latest messages as the messages `justification` show them: what
/// the breadth-first walk from them over every message that they reach
/// arrives at.
pub open spec fn traversed<E>(justification: Seq<Message<E>>) -> Map<u32, Seq<Message<E>>> {
    walked(extended(Seq::empty(), justification), 0, Map::empty())
}

/// One of `roots` is `x` or cites it, directly or not.
pub open spec fn reached_from<E>(roots: Seq<Message<E>>, x: Message<E>) -> bool {
    exists|i: int| 0 <= i < roots.len() && (#[trigger] roots[i]).covers(x)
}

/// No two different messages that `roots` reach have the same identifier.
pub open spec fn jointly_collision_free<E>(roots: Seq<Message<E>>) -> bool {
    forall|x: Message<E>, y: Message<E>|
        #![trigger reached_from(roots, x), reached_from(roots, y)]
        reached_from(roots, x) && reached_from(roots, y) && x.spec_id() == y.spec_id() ==> x == y
}

/// `x` is a latest message of `sender` among the messages that `roots`
/// reach: a message of `sender` that they reach, on which no other message
/// of `sender` that they reach depends.
pub open spec fn is_top<E>(roots: Seq<Message<E>>, sender: u32, x: Message<E>) -> bool {
    &&& reached_from(roots, x)
    &&& x.spec_sender() == sender
    &&& forall|y: Message<E>| #[trigger]
        reached_from(roots, y) && y.spec_sender() == sender && y.spec_id() != x.spec_id()
            ==> !y.spec_depends(x)
}

/// `latest` holds the frontier of what `roots` reach: an entry for each
/// sender of a message that they reach, with exactly the latest messages
/// of that sender among them, each once.
pub open spec fn is_frontier_of<E>(latest: Map<u32, Seq<Message<E>>>, roots: Seq<Message<E>>) -> bool {
    &&& forall|sender: u32| #[trigger]
        latest.contains_key(sender) <==> exists|x: Message<E>| #[trigger]
            reached_from(roots, x) && x.spec_sender() == sender
    &&& forall|sender: u32, x: Message<E>|
        latest.contains_key(sender) ==> (#[trigger] latest[sender].contains(x) <==> is_top(
            roots,
            sender,
            x,
        ))
    &&& forall|sender: u32| #[trigger]
        latest.contains_key(sender) ==> distinct_ids(latest[sender])
}

/// Every one of `msgs` is a message of `sender`.
pub open spec fn sent_by<E>(msgs: Seq<Message<E>>, sender: u32) -> bool {
    forall|i: int| 0 <= i < msgs.len() ==> (#[trigger] msgs[i]).spec_sender() == sender
}

/// The senders of `msgs`, in their order.
pub open spec fn senders_of<E>(msgs: Seq<Message<E>>) -> Seq<u32> {
    msgs.map_values(|m: Message<E>| m.spec_sender())
}

/// What `kept_of` keeps: every kept message is one of `frontier` that
/// `new` does not depend on, and every such message of `frontier` is kept.
pub proof fn lemma_kept_of<E>(frontier: Seq<Message<E>>, new: Message<E>)
    ensures
        forall|i: int|
            0 <= i < kept_of(frontier, new).len() ==> {
                let old = #[trigger] kept_of(frontier, new)[i];
                &&& frontier.contains(old)
                &&& !new.spec_depends(old)
            },
        forall|i: int|
            0 <= i < frontier.len() && !new.spec_depends(#[trigger] frontier[i]) ==> kept_of(
                frontier,
                new,
            ).contains(frontier[i]),
        kept_of(frontier, new).len() <= frontier.len(),
    decreases frontier.len(),
{
    lemma_kept_of_last(frontier, new);
    if frontier.len() > 0 {
        let rest = frontier.drop_last();
        let old = frontier.last();
        lemma_kept_of(rest, new);
        let kept = kept_of(frontier, new);
        let inner = kept_of(rest, new);
        assert forall|i: int| 0 <= i < kept.len() implies {
            let k = #[trigger] kept[i];
            &&& frontier.contains(k)
            &&& !new.spec_depends(k)
        } by {
            if i < inner.len() {
                let k = inner[i];
                assert(rest.contains(k));
                let a = choose|a: int| 0 <= a < rest.len() && rest[a] == k;
                assert(frontier[a] == k);
            } else {
                assert(frontier[frontier.len() - 1] == old);
            }
        }
        assert forall|i: int|
            0 <= i < frontier.len() && !new.spec_depends(
                #[trigger] frontier[i],
            ) implies kept.contains(frontier[i]) by {
            if i < rest.len() {
                assert(rest[i] == frontier[i]);
                assert(inner.contains(rest[i]));
                let a = choose|a: int| 0 <= a < inner.len() && inner[a] == rest[i];
                assert(kept[a] == frontier[i]);
            } else {
                assert(kept[kept.len() - 1] == frontier[i]);
            }
        }
    }
}

/// No message of `frontier` depends on another message of `frontier`.
pub open spec fn is_antichain<E>(frontier: Seq<Message<E>>) -> bool {
    forall|i: int, j: int|
        0 <= i < frontier.len() && 0 <= j < frontier.len() && i != j ==> !(
        #[trigger] frontier[i]).spec_depends(#[trigger] frontier[j])
}

/// The latest messages of one validator stay a frontier when a message
/// arrives: where no message of them depends on another, it is so
/// afterwards; and afterwards the message is among them, or one of them
/// depends on it.
pub proof fn lemma_updated_frontier<E>(frontier: Seq<Message<E>>, new: Message<E>)
    ensures
        is_antichain(frontier) ==> is_antichain(updated_frontier(frontier, new)),
        holds_back(updated_frontier(frontier, new), new),
        updated_frontier(frontier, new).len() > 0,
{
    let after = updated_frontier(frontier, new);
    lemma_kept_of(frontier, new);
    if holds_back(frontier, new) {
    } else {
        let kept = kept_of(frontier, new);
        assert(after[kept.len() as int].spec_id() == new.spec_id());
        if is_antichain(frontier) {
            assert forall|i: int, j: int|
                0 <= i < after.len() && 0 <= j < after.len() && i != j implies !(
            #[trigger] after[i]).spec_depends(#[trigger] after[j]) by {
                if i < kept.len() && j < kept.len() {
                    assert(frontier.contains(kept[i]));
                    assert(frontier.contains(kept[j]));
                    lemma_kept_of_order(frontier, new, i, j);
                } else if i < kept.len() {
                    assert(frontier.contains(kept[i]));
                    let a = choose|a: int| 0 <= a < frontier.len() && frontier[a] == kept[i];
                    assert(!frontier[a].spec_depends(new));
                } else {
                    assert(!new.spec_depends(kept[j]));
                }
            }
        }
    }
}

/// The kept messages stand in the order of the frontier: different places
/// among them are different places of the frontier.
proof fn lemma_kept_of_order<E>(frontier: Seq<Message<E>>, new: Message<E>, i: int, j: int)
    requires
        is_antichain(frontier),
        0 <= i < kept_of(frontier, new).len(),
        0 <= j < kept_of(frontier, new).len(),
        i != j,
    ensures
        !kept_of(frontier, new)[i].spec_depends(kept_of(frontier, new)[j]),
    decreases frontier.len(),
{
    lemma_kept_of_last(frontier, new);
    if frontier.len() > 0 {
        let rest = frontier.drop_last();
        let inner = kept_of(rest, new);
        let kept = kept_of(frontier, new);
        lemma_kept_of(rest, new);
        assert(is_antichain(rest)) by {
            assert forall|a: int, b: int|
                0 <= a < rest.len() && 0 <= b < rest.len() && a != b implies !(
            #[trigger] rest[a]).spec_depends(#[trigger] rest[b]) by {
                assert(!frontier[a].spec_depends(frontier[b]));
            }
        }
        if i < inner.len() && j < inner.len() {
            lemma_kept_of_order(rest, new, i, j);
        } else {
            let low = if i < inner.len() {
                i
            } else {
                j
            };
            assert(rest.contains(inner[low]));
            let a = choose|a: int| 0 <= a < rest.len() && rest[a] == inner[low];
            assert(!frontier[a].spec_depends(frontier[frontier.len() - 1]));
            assert(!frontier[frontier.len() - 1].spec_depends(frontier[a]));
        }
    }
}

/// Taking in a message twice is the same as taking it in once, for the
/// latest messages of one validator.
pub proof fn lemma_updated_frontier_idempotent<E>(frontier: Seq<Message<E>>, new: Message<E>)
    ensures
        updated_frontier(updated_frontier(frontier, new), new) == updated_frontier(frontier, new),
{
    lemma_updated_frontier(frontier, new);
}

/// Taking in a message twice is the same as taking it in once.
pub proof fn lemma_updated_idempotent<E>(latest: Map<u32, Seq<Message<E>>>, new: Message<E>)
    ensures
        updated(updated(latest, new), new) == updated(latest, new),
{
    let sender = new.spec_sender();
    let once = updated(latest, new);
    if latest.contains_key(sender) {
        lemma_updated_frontier_idempotent(latest[sender], new);
    } else {
        let single = seq![new];
        assert(single[0].spec_id() == new.spec_id());
        assert(holds_back(single, new));
    }
    assert(updated(once, new) =~= once);
}

/// Every validator with an entry has latest messages, all of them its own,
/// and none of them depends on another of them.
pub open spec fn is_frontier_store<E>(latest: Map<u32, Seq<Message<E>>>) -> bool {
    forall|v: u32| #[trigger]
        latest.contains_key(v) ==> latest[v].len() > 0 && sent_by(latest[v], v) && is_antichain(
            latest[v],
        )
}

/// The store stays a store of frontiers when a message arrives, and
/// afterwards the message is among the latest messages of its sender, or
/// one of them depends on it.
pub proof fn lemma_updated_keeps_frontiers<E>(latest: Map<u32, Seq<Message<E>>>, new: Message<E>)
    ensures
        is_frontier_store(latest) ==> is_frontier_store(updated(latest, new)),
        updated(latest, new).contains_key(new.spec_sender()),
        holds_back(updated(latest, new)[new.spec_sender()], new),
{
    let sender = new.spec_sender();
    let after = updated(latest, new);
    if latest.contains_key(sender) {
        lemma_updated_frontier(latest[sender], new);
        lemma_updated_frontier_drawn(latest[sender], new);
    } else {
        let single = seq![new];
        assert(single[0].spec_id() == new.spec_id());
        assert(holds_back(single, new));
    }
    if is_frontier_store(latest) {
        assert forall|v: u32| #[trigger] after.contains_key(v) implies after[v].len() > 0
            && sent_by(after[v], v) && is_antichain(after[v]) by {
            if v == sender {
                if latest.contains_key(sender) {
                    let before = latest[sender];
                    assert forall|i: int| 0 <= i < after[v].len() implies (
                    #[trigger] after[v][i]).spec_sender() == v by {
                        if after[v][i] != new {
                            assert(before.contains(after[v][i]));
                            let k = choose|k: int| 0 <= k < before.len() && before[k] == after[v][i];
                            assert(before[k].spec_sender() == v);
                        }
                    }
                }
            } else {
                assert(latest.contains_key(v));
            }
        }
    }
}

/// The messages that `new` keeps have different identifiers where those of
/// `frontier` have.
proof fn lemma_kept_of_distinct<E>(frontier: Seq<Message<E>>, new: Message<E>)
    requires
        distinct_ids(frontier),
    ensures
        distinct_ids(kept_of(frontier, new)),
    decreases frontier.len(),
{
    lemma_kept_of_last(frontier, new);
    if frontier.len() > 0 {
        let rest = frontier.drop_last();
        let inner = kept_of(rest, new);
        let kept = kept_of(frontier, new);
        assert(distinct_ids(rest)) by {
            assert forall|i: int, j: int| 0 <= i < j < rest.len() implies (
            #[trigger] rest[i]).spec_id() != (#[trigger] rest[j]).spec_id() by {
                assert(frontier[i].spec_id() != frontier[j].spec_id());
            }
        }
        lemma_kept_of_distinct(rest, new);
        lemma_kept_of(rest, new);
        assert forall|i: int, j: int| 0 <= i < j < kept.len() implies (
        #[trigger] kept[i]).spec_id() != (#[trigger] kept[j]).spec_id() by {
            if j < inner.len() {
                assert(inner[i].spec_id() != inner[j].spec_id());
            } else {
                assert(rest.contains(inner[i]));
                let a = choose|a: int| 0 <= a < rest.len() && rest[a] == inner[i];
                assert(frontier[a].spec_id() != frontier[frontier.len() - 1].spec_id());
            }
        }
    }
}

/// The latest messages of one validator keep different identifiers when a
/// message arrives.
pub proof fn lemma_updated_frontier_distinct<E>(frontier: Seq<Message<E>>, new: Message<E>)
    requires
        distinct_ids(frontier),
    ensures
        distinct_ids(updated_frontier(frontier, new)),
{
    let after = updated_frontier(frontier, new);
    if !holds_back(frontier, new) {
        let kept = kept_of(frontier, new);
        lemma_kept_of_distinct(frontier, new);
        lemma_kept_of(frontier, new);
        assert forall|i: int, j: int| 0 <= i < j < after.len() implies (
        #[trigger] after[i]).spec_id() != (#[trigger] after[j]).spec_id() by {
            if j < kept.len() {
                assert(kept[i].spec_id() != kept[j].spec_id());
            } else {
                assert(frontier.contains(kept[i]));
                let a = choose|a: int| 0 <= a < frontier.len() && frontier[a] == kept[i];
                assert(frontier[a].spec_id() != new.spec_id());
            }
        }
    }
}

/// What a message that `roots` reach is or cites, they reach.
pub proof fn lemma_reached_below<E>(roots: Seq<Message<E>>, m: Message<E>, x: Message<E>)
    requires
        reached_from(roots, m),
        m.covers(x),
    ensures
        reached_from(roots, x),
{
    let i = choose|i: int| 0 <= i < roots.len() && (#[trigger] roots[i]).covers(m);
    if roots[i] != m && m != x {
        roots[i].lemma_cites_transitive(m, x);
    }
    assert(roots[i].covers(x));
}

/// Where no two different messages that `roots` reach share an identifier,
/// none do at or below two messages that they reach.
pub proof fn lemma_reached_collision_free<E>(roots: Seq<Message<E>>, m: Message<E>, n: Message<E>)
    requires
        jointly_collision_free(roots),
        reached_from(roots, m),
        reached_from(roots, n),
    ensures
        m.collision_free(),
        m.collision_free_with(n),
{
    assert forall|x: Message<E>, y: Message<E>|
        #![trigger m.covers(x), n.covers(y)]
        #![trigger m.covers(x), m.covers(y)]
        #![trigger n.covers(x), n.covers(y)]
        (m.covers(x) || n.covers(x)) && (m.covers(y) || n.covers(y)) && x.spec_id()
            == y.spec_id() implies x == y by {
        if m.covers(x) {
            lemma_reached_below(roots, m, x);
        } else {
            lemma_reached_below(roots, n, x);
        }
        if m.covers(y) {
            lemma_reached_below(roots, m, y);
        } else {
            lemma_reached_below(roots, n, y);
        }
    }
}

/// Where no two different messages at or below `msg` share an identifier,
/// none do among the messages that its justification reaches.
pub proof fn lemma_cited_jointly_collision_free<E>(msg: Message<E>)
    requires
        msg.collision_free(),
    ensures
        jointly_collision_free(msg.spec_justification()),
{
    let cited = msg.spec_justification();
    assert forall|x: Message<E>, y: Message<E>|
        #![trigger reached_from(cited, x), reached_from(cited, y)]
        reached_from(cited, x) && reached_from(cited, y) && x.spec_id()
            == y.spec_id() implies x == y by {
        let i = choose|i: int| 0 <= i < cited.len() && (#[trigger] cited[i]).covers(x);
        let j = choose|j: int| 0 <= j < cited.len() && (#[trigger] cited[j]).covers(y);
        assert(msg.cites(x));
        assert(msg.cites(y));
        assert(msg.covers(x) && msg.covers(y));
    }
}

/// A message that the latest messages of its sender held back stays held
/// back when another message arrives: it is still among them, or one of
/// them depends on it. This is so where the message that `new` cites
/// with the identifier of a latest message is that message.
proof fn lemma_holds_back_stays<E>(frontier: Seq<Message<E>>, new: Message<E>, p: Message<E>)
    requires
        forall|i: int, x: Message<E>|
            0 <= i < frontier.len() && #[trigger] new.cites(x) && x.spec_id() == (
            #[trigger] frontier[i]).spec_id() ==> x == frontier[i],
        holds_back(frontier, p),
    ensures
        holds_back(updated_frontier(frontier, new), p),
{
    let after = updated_frontier(frontier, new);
    if !holds_back(frontier, new) {
        let kept = kept_of(frontier, new);
        lemma_kept_of(frontier, new);
        let i = choose|i: int|
            0 <= i < frontier.len() && ((#[trigger] frontier[i]).spec_id() == p.spec_id()
                || frontier[i].spec_depends(p));
        let held = frontier[i];
        if !new.spec_depends(held) {
            assert(kept.contains(held));
            let k = choose|k: int| 0 <= k < kept.len() && kept[k] == held;
            assert(after[k] == held);
        } else {
            if held.spec_id() != p.spec_id() {
                assert forall|x: Message<E>| #[trigger]
                    new.cites(x) && x.spec_id() == held.spec_id() implies x == held by {
                    assert(frontier[i] == held);
                }
                new.lemma_depends_transitive(held, p);
            }
            assert(new.spec_depends(p));
            assert(after[kept.len() as int] == new);
        }
    }
}

/// The messages that `msg` cites have their identifiers among `order`.
pub open spec fn cited_held<E>(order: Seq<Message<E>>, msg: Message<E>) -> bool {
    forall|c: int|
        0 <= c < msg.spec_justification().len() ==> holds_id(
            order,
            (#[trigger] msg.spec_justification()[c]).spec_id(),
        )
}

/// `msg` is among the latest messages of its sender, or one of them
/// depends on it.
pub open spec fn settled<E>(latest: Map<u32, Seq<Message<E>>>, msg: Message<E>) -> bool {
    latest.contains_key(msg.spec_sender()) && holds_back(latest[msg.spec_sender()], msg)
}

/// `msg` stands in `order` in front of place `head`.
pub open spec fn met_before<E>(order: Seq<Message<E>>, head: int, msg: Message<E>) -> bool {
    exists|a: int| 0 <= a < head && #[trigger] order[a] == msg
}

/// What holds in the middle of the walk from `roots`, with the messages
/// in front of place `head` of `order` taken into `latest`: every message
/// met is reached from `roots`, and `roots` are met; of a message taken in
/// the cited messages are met, and it is settled; and `latest` holds
/// frontiers of messages taken in, each once.
pub open spec fn walk_holds<E>(
    roots: Seq<Message<E>>,
    order: Seq<Message<E>>,
    head: int,
    latest: Map<u32, Seq<Message<E>>>,
) -> bool {
    &&& 0 <= head <= order.len()
    &&& forall|a: int| 0 <= a < order.len() ==> reached_from(roots, #[trigger] order[a])
    &&& forall|i: int| 0 <= i < roots.len() ==> holds_id(order, (#[trigger] roots[i]).spec_id())
    &&& forall|a: int|
        0 <= a < head ==> cited_held(order, #[trigger] order[a]) && settled(latest, order[a])
    &&& is_frontier_store(latest)
    &&& forall|v: u32| #[trigger] latest.contains_key(v) ==> distinct_ids(latest[v])
    &&& forall|v: u32, i: int|
        latest.contains_key(v) && 0 <= i < latest[v].len() ==> met_before(
            order,
            head,
            #[trigger] latest[v][i],
        )
}

/// An identifier that `order` holds is held when `order` has been extended.
proof fn lemma_extended_holds<E>(order: Seq<Message<E>>, msgs: Seq<Message<E>>, id: Seq<u8>)
    requires
        holds_id(order, id),
    ensures
        holds_id(extended(order, msgs), id),
{
    lemma_extended(order, msgs);
    let k = choose|k: int| 0 <= k < order.len() && (#[trigger] order[k]).spec_id() == id;
    let next = extended(order, msgs);
    assert(next.take(order.len() as int)[k] == next[k]);
    assert(next[k].spec_id() == id);
}

/// One step of the walk meets only messages that `roots` reach, and keeps
/// the identifiers that were held.
proof fn lemma_walk_step_met<E>(
    roots: Seq<Message<E>>,
    order: Seq<Message<E>>,
    head: int,
    latest: Map<u32, Seq<Message<E>>>,
)
    requires
        walk_holds(roots, order, head, latest),
        head < order.len(),
    ensures
        forall|a: int|
            0 <= a < order.len() ==> extended(order, order[head].spec_justification())[a]
                == #[trigger] order[a],
        forall|a: int|
            0 <= a < extended(order, order[head].spec_justification()).len() ==> reached_from(
                roots,
                #[trigger] extended(order, order[head].spec_justification())[a],
            ),
        forall|i: int|
            0 <= i < roots.len() ==> holds_id(
                extended(order, order[head].spec_justification()),
                (#[trigger] roots[i]).spec_id(),
            ),
        forall|a: int|
            0 <= a < head + 1 ==> cited_held(
                extended(order, order[head].spec_justification()),
                #[trigger] extended(order, order[head].spec_justification())[a],
            ),
{
    let msg = order[head];
    let cited = msg.spec_justification();
    let next = extended(order, cited);
    lemma_extended(order, cited);
    assert forall|a: int| 0 <= a < order.len() implies next[a] == #[trigger] order[a] by {
        assert(next.take(order.len() as int)[a] == next[a]);
    }
    assert(reached_from(roots, msg));
    assert forall|a: int| 0 <= a < next.len() implies reached_from(roots, #[trigger] next[a]) by {
        if a < order.len() {
            assert(reached_from(roots, order[a]));
        } else {
            assert(cited.contains(next[a]));
            let k = choose|k: int| 0 <= k < cited.len() && cited[k] == next[a];
            assert(msg.cites(next[a]));
            lemma_reached_below(roots, msg, next[a]);
        }
    }
    assert forall|i: int| 0 <= i < roots.len() implies holds_id(
        next,
        (#[trigger] roots[i]).spec_id(),
    ) by {
        lemma_extended_holds(order, cited, roots[i].spec_id());
    }
    assert forall|a: int| 0 <= a < head + 1 implies cited_held(next, #[trigger] next[a]) by {
        let p = order[a];
        assert(next[a] == order[a]);
        if a < head {
            assert(cited_held(order, order[a]));
            assert forall|c: int| 0 <= c < p.spec_justification().len() implies holds_id(
                next,
                (#[trigger] p.spec_justification()[c]).spec_id(),
            ) by {
                lemma_extended_holds(order, cited, p.spec_justification()[c].spec_id());
            }
        }
    }
}

/// The latest messages are messages that `roots` reach.
proof fn lemma_walk_stored<E>(
    roots: Seq<Message<E>>,
    order: Seq<Message<E>>,
    head: int,
    latest: Map<u32, Seq<Message<E>>>,
    v: u32,
)
    requires
        walk_holds(roots, order, head, latest),
        latest.contains_key(v),
    ensures
        forall|i: int| 0 <= i < latest[v].len() ==> reached_from(roots, #[trigger] latest[v][i]),
{
    assert forall|i: int| 0 <= i < latest[v].len() implies reached_from(
        roots,
        #[trigger] latest[v][i],
    ) by {
        assert(met_before(order, head, latest[v][i]));
        let b = choose|b: int| 0 <= b < head && #[trigger] order[b] == latest[v][i];
        assert(reached_from(roots, order[b]));
    }
}

/// One step of the walk leaves the messages taken in settled.
proof fn lemma_walk_step_settled<E>(
    roots: Seq<Message<E>>,
    order: Seq<Message<E>>,
    head: int,
    latest: Map<u32, Seq<Message<E>>>,
)
    requires
        jointly_collision_free(roots),
        walk_holds(roots, order, head, latest),
        head < order.len(),
    ensures
        forall|a: int|
            0 <= a < head + 1 ==> settled(
                updated(latest, order[head]),
                #[trigger] extended(order, order[head].spec_justification())[a],
            ),
{
    let msg = order[head];
    let sender = msg.spec_sender();
    let after = updated(latest, msg);
    let next = extended(order, msg.spec_justification());
    lemma_updated_keeps_frontiers(latest, msg);
    lemma_extended(order, msg.spec_justification());
    assert(reached_from(roots, order[head]));
    assert forall|a: int| 0 <= a < head + 1 implies settled(after, #[trigger] next[a]) by {
        let p = order[a];
        assert(next.take(order.len() as int)[a] == next[a]);
        if a < head {
            assert(settled(latest, order[a]));
            if p.spec_sender() == sender {
                lemma_walk_stored(roots, order, head, latest, sender);
                let frontier = latest[sender];
                assert forall|i: int, x: Message<E>|
                    0 <= i < frontier.len() && #[trigger] msg.cites(x) && x.spec_id() == (
                    #[trigger] frontier[i]).spec_id() implies x == frontier[i] by {
                    lemma_reached_below(roots, msg, x);
                    assert(reached_from(roots, latest[sender][i]));
                }
                lemma_holds_back_stays(frontier, msg, p);
            } else {
                assert(after[p.spec_sender()] == latest[p.spec_sender()]);
            }
        }
    }
}

/// One step of the walk leaves frontiers of messages taken in, each once.
proof fn lemma_walk_step_store<E>(
    roots: Seq<Message<E>>,
    order: Seq<Message<E>>,
    head: int,
    latest: Map<u32, Seq<Message<E>>>,
)
    requires
        walk_holds(roots, order, head, latest),
        head < order.len(),
    ensures
        is_frontier_store(updated(latest, order[head])),
        forall|v: u32| #[trigger]
            updated(latest, order[head]).contains_key(v) ==> distinct_ids(
                updated(latest, order[head])[v],
            ),
        forall|v: u32, i: int|
            updated(latest, order[head]).contains_key(v) && 0 <= i < updated(
                latest,
                order[head],
            )[v].len() ==> met_before(
                extended(order, order[head].spec_justification()),
                head + 1,
                #[trigger] updated(latest, order[head])[v][i],
            ),
{
    let msg = order[head];
    let sender = msg.spec_sender();
    let after = updated(latest, msg);
    let next = extended(order, msg.spec_justification());
    lemma_updated_keeps_frontiers(latest, msg);
    lemma_extended(order, msg.spec_justification());
    assert forall|a: int| 0 <= a < order.len() implies next[a] == #[trigger] order[a] by {
        assert(next.take(order.len() as int)[a] == next[a]);
    }
    assert forall|v: u32| #[trigger] after.contains_key(v) implies distinct_ids(after[v]) by {
        if v == sender {
            if latest.contains_key(sender) {
                lemma_updated_frontier_distinct(latest[sender], msg);
            }
        } else {
            assert(latest.contains_key(v));
        }
    }
    assert forall|v: u32, i: int| after.contains_key(v) && 0 <= i < after[v].len() implies met_before(
        next,
        head + 1,
        #[trigger] after[v][i],
    ) by {
        let x = after[v][i];
        if v == sender && latest.contains_key(sender) {
            lemma_updated_frontier_drawn(latest[sender], msg);
        }
        if v == sender && (!latest.contains_key(sender) || x == msg) {
            assert(order[head] == x);
            assert(next[head] == x);
        } else {
            let at = if v == sender {
                choose|at: int| 0 <= at < latest[sender].len() && latest[sender][at] == x
            } else {
                i
            };
            assert(latest.contains_key(v));
            assert(met_before(order, head, latest[v][at]));
            let b = choose|b: int| 0 <= b < head && #[trigger] order[b] == x;
            assert(next[b] == x);
        }
    }
}

/// One step of the walk keeps what holds in its middle.
proof fn lemma_walk_step<E>(
    roots: Seq<Message<E>>,
    order: Seq<Message<E>>,
    head: int,
    latest: Map<u32, Seq<Message<E>>>,
)
    requires
        jointly_collision_free(roots),
        walk_holds(roots, order, head, latest),
        head < order.len(),
    ensures
        walk_holds(
            roots,
            extended(order, order[head].spec_justification()),
            head + 1,
            updated(latest, order[head]),
        ),
{
    lemma_walk_step_met(roots, order, head, latest);
    lemma_walk_step_settled(roots, order, head, latest);
    lemma_walk_step_store(roots, order, head, latest);
    lemma_extended(order, order[head].spec_justification());
}

/// At the end of the walk every message that a met message is or cites
/// has been met.
proof fn lemma_walk_closed<E>(
    roots: Seq<Message<E>>,
    order: Seq<Message<E>>,
    latest: Map<u32, Seq<Message<E>>>,
    y: Message<E>,
    x: Message<E>,
)
    requires
        jointly_collision_free(roots),
        walk_holds(roots, order, order.len() as int, latest),
        order.contains(y),
        y.covers(x),
    ensures
        order.contains(x),
    decreases y,
{
    if x != y {
        let c = choose|c: int|
            0 <= c < y.spec_justification().len() && (#[trigger] y.spec_justification()[c] == x
                || y.spec_justification()[c].cites(x));
        let child = y.spec_justification()[c];
        let a = choose|a: int| 0 <= a < order.len() && order[a] == y;
        assert(cited_held(order, order[a]));
        let b = choose|b: int|
            0 <= b < order.len() && (#[trigger] order[b]).spec_id() == child.spec_id();
        assert(reached_from(roots, order[b]));
        assert(reached_from(roots, order[a]));
        assert(y.cites(child));
        lemma_reached_below(roots, y, child);
        assert(order[b] == child);
        y.lemma_cited_decreases(c);
        lemma_walk_closed(roots, order, latest, child, x);
    }
}

/// At the end of the walk every message that `roots` reach has been met.
proof fn lemma_walk_all<E>(
    roots: Seq<Message<E>>,
    order: Seq<Message<E>>,
    latest: Map<u32, Seq<Message<E>>>,
    x: Message<E>,
)
    requires
        jointly_collision_free(roots),
        walk_holds(roots, order, order.len() as int, latest),
        reached_from(roots, x),
    ensures
        order.contains(x),
        settled(latest, x),
{
    let i = choose|i: int| 0 <= i < roots.len() && (#[trigger] roots[i]).covers(x);
    let b = choose|b: int|
        0 <= b < order.len() && (#[trigger] order[b]).spec_id() == roots[i].spec_id();
    assert(reached_from(roots, order[b]));
    assert(roots[i].covers(roots[i]));
    assert(reached_from(roots, roots[i]));
    assert(order[b] == roots[i]);
    lemma_walk_closed(roots, order, latest, roots[i], x);
    let a = choose|a: int| 0 <= a < order.len() && order[a] == x;
    assert(settled(latest, order[a]));
}

/// At the end of the walk the store holds the frontier of what `roots` reach.
proof fn lemma_walk_done<E>(
    roots: Seq<Message<E>>,
    order: Seq<Message<E>>,
    latest: Map<u32, Seq<Message<E>>>,
)
    requires
        jointly_collision_free(roots),
        walk_holds(roots, order, order.len() as int, latest),
    ensures
        is_frontier_of(latest, roots),
{
    let end = order.len() as int;
    assert forall|v: u32, i: int|
        latest.contains_key(v) && 0 <= i < latest[v].len() implies reached_from(
        roots,
        #[trigger] latest[v][i],
    ) by {
        assert(met_before(order, end, latest[v][i]));
        let b = choose|b: int| 0 <= b < end && #[trigger] order[b] == latest[v][i];
        assert(reached_from(roots, order[b]));
    }
    assert forall|sender: u32| #[trigger]
        latest.contains_key(sender) <==> exists|x: Message<E>| #[trigger]
            reached_from(roots, x) && x.spec_sender() == sender by {
        if latest.contains_key(sender) {
            let x = latest[sender][0];
            assert(reached_from(roots, x) && x.spec_sender() == sender);
        }
        if exists|x: Message<E>| #[trigger] reached_from(roots, x) && x.spec_sender() == sender {
            let x = choose|x: Message<E>| #[trigger]
                reached_from(roots, x) && x.spec_sender() == sender;
            lemma_walk_all(roots, order, latest, x);
        }
    }
    assert forall|sender: u32, x: Message<E>| latest.contains_key(sender) implies (
    #[trigger] latest[sender].contains(x) <==> is_top(roots, sender, x)) by {
        let frontier = latest[sender];
        if frontier.contains(x) {
            let at = choose|at: int| 0 <= at < frontier.len() && frontier[at] == x;
            assert(reached_from(roots, latest[sender][at]));
            assert forall|y: Message<E>| #[trigger]
                reached_from(roots, y) && y.spec_sender() == sender && y.spec_id()
                    != x.spec_id() implies !y.spec_depends(x) by {
                if y.spec_depends(x) {
                    lemma_walk_all(roots, order, latest, y);
                    let e = choose|e: int|
                        0 <= e < frontier.len() && ((#[trigger] frontier[e]).spec_id()
                            == y.spec_id() || frontier[e].spec_depends(y));
                    let held = frontier[e];
                    assert(reached_from(roots, latest[sender][e]));
                    if held.spec_id() != y.spec_id() {
                        assert forall|z: Message<E>| #[trigger]
                            held.cites(z) && z.spec_id() == y.spec_id() implies z == y by {
                            lemma_reached_below(roots, held, z);
                        }
                        held.lemma_depends_transitive(y, x);
                    }
                    assert(held.spec_depends(x));
                    if e == at {
                        lemma_reached_collision_free(roots, x, x);
                        x.lemma_depends_irreflexive();
                    }
                }
            }
        }
        if is_top(roots, sender, x) {
            lemma_walk_all(roots, order, latest, x);
            let e = choose|e: int|
                0 <= e < frontier.len() && ((#[trigger] frontier[e]).spec_id() == x.spec_id()
                    || frontier[e].spec_depends(x));
            assert(reached_from(roots, latest[sender][e]));
            assert(frontier[e].spec_sender() == sender);
        }
    }
}

/// The walk arrives at the frontier of what `roots` reach, from wherever
/// in its middle it is.
proof fn lemma_walked<E>(
    roots: Seq<Message<E>>,
    order: Seq<Message<E>>,
    head: nat,
    latest: Map<u32, Seq<Message<E>>>,
)
    requires
        jointly_collision_free(roots),
        walk_holds(roots, order, head as int, latest),
    ensures
        is_frontier_of(walked(order, head, latest), roots),
    decreases total_size(order.skip(head as int)),
{
    if head >= order.len() {
        lemma_walk_done(roots, order, latest);
    } else {
        lemma_walk_step(roots, order, head as int, latest);
        lemma_walk_decreases(order, head as int);
        lemma_walked(
            roots,
            extended(order, order[head as int].spec_justification()),
            head + 1,
            updated(latest, order[head as int]),
        );
    }
}

/// What holds at the start of the walk from `roots`.
proof fn lemma_walk_start<E>(roots: Seq<Message<E>>)
    ensures
        walk_holds(roots, extended(Seq::empty(), roots), 0, Map::empty()),
{
    let order = extended(Seq::<Message<E>>::empty(), roots);
    lemma_extended(Seq::<Message<E>>::empty(), roots);
    assert forall|a: int| 0 <= a < order.len() implies reached_from(roots, #[trigger] order[a]) by {
        assert(roots.contains(order[a]));
        let k = choose|k: int| 0 <= k < roots.len() && roots[k] == order[a];
        assert(roots[k].covers(order[a]));
    }
}

/// The latest messages that a justification shows are the frontier of the
/// messages that it reaches: where no two different messages among these
/// share an identifier, the walk arrives, for each validator that sent one
/// of them, at exactly the messages of that validator on which no other of
/// its messages among them depends.
pub proof fn lemma_traversed<E>(roots: Seq<Message<E>>)
    requires
        jointly_collision_free(roots),
    ensures
        is_frontier_of(traversed(roots), roots),
{
    lemma_walk_start(roots);
    lemma_walked(roots, extended(Seq::empty(), roots), 0, Map::empty());
}

/// Two of `frontier` are an equivocation.
pub open spec fn holds_equivocation<E>(frontier: Seq<Message<E>>) -> bool {
    exists|i: int, j: int|
        0 <= i < frontier.len() && 0 <= j < frontier.len() && (#[trigger] frontier[i]).spec_equivocates(
            #[trigger] frontier[j],
        )
}

/// Every validator whose latest messages hold an equivocation is among the
/// equivocators.
pub open spec fn equivocations_known<E>(state: StateView<E>) -> bool {
    forall|v: u32|
        state.latest.contains_key(v) && holds_equivocation(#[trigger] state.latest[v])
            ==> state.equivocators.contains(v)
}

/// Every message of the latest messages once `new` has arrived is `new`
/// or one of the latest messages before.
pub proof fn lemma_updated_frontier_drawn<E>(frontier: Seq<Message<E>>, new: Message<E>)
    ensures
        forall|i: int|
            0 <= i < updated_frontier(frontier, new).len() ==> (#[trigger] updated_frontier(
                frontier,
                new,
            )[i]) == new || frontier.contains(updated_frontier(frontier, new)[i]),
{
    lemma_kept_of(frontier, new);
}

/// An equivocating validator is among the equivocators exactly where its
/// weight could be taken under the threshold: offering a message keeps every
/// validator with an equivocation among its latest messages among the
/// equivocators, and the sender of the message joins the equivocators
/// exactly where the message is a new equivocation and the fault weight
/// with the weight of the sender stays within the threshold.
pub proof fn lemma_step_equivocators<E>(state: StateView<E>, msg: Message<E>)
    requires
        equivocations_known(state),
    ensures
        equivocations_known(step(state, msg)),
        forall|v: u32|
            step(state, msg).equivocators.contains(v) <==> state.equivocators.contains(v) || (v
                == msg.spec_sender() && new_equivocation(state, msg) && raised_fault_weight(
                state,
                msg,
            ).spec_le(state.threshold)),
{
    let next = step(state, msg);
    let sender = msg.spec_sender();
    if admitted(state, msg) {
        assert forall|v: u32|
            next.latest.contains_key(v) && holds_equivocation(
                #[trigger] next.latest[v],
            ) implies next.equivocators.contains(v) by {
            if v == sender {
                if state.latest.contains_key(sender) {
                    let before = state.latest[sender];
                    let after = next.latest[v];
                    lemma_updated_frontier_drawn(before, msg);
                    let (i, j) = choose|i: int, j: int|
                        0 <= i < after.len() && 0 <= j < after.len() && (
                        #[trigger] after[i]).spec_equivocates(#[trigger] after[j]);
                    if after[i] == msg {
                        assert(after[j] != msg);
                        assert(before.contains(after[j]));
                        let a = choose|a: int| 0 <= a < before.len() && before[a] == after[j];
                        assert(before[a].spec_equivocates(msg));
                        assert(equivocates_with(state.latest, msg));
                    } else if after[j] == msg {
                        assert(before.contains(after[i]));
                        let a = choose|a: int| 0 <= a < before.len() && before[a] == after[i];
                        assert(before[a].spec_equivocates(msg));
                        assert(equivocates_with(state.latest, msg));
                    } else {
                        assert(before.contains(after[i]));
                        assert(before.contains(after[j]));
                        let a = choose|a: int| 0 <= a < before.len() && before[a] == after[i];
                        let b = choose|b: int| 0 <= b < before.len() && before[b] == after[j];
                        assert(before[a].spec_equivocates(before[b]));
                        assert(holds_equivocation(before));
                    }
                } else {
                    let after = next.latest[v];
                    assert(after == seq![msg]);
                    let (i, j) = choose|i: int, j: int|
                        0 <= i < after.len() && 0 <= j < after.len() && (
                        #[trigger] after[i]).spec_equivocates(#[trigger] after[j]);
                    assert(false);
                }
            } else {
                assert(next.latest[v] == state.latest[v]);
            }
        }
    }
}

/// Offering a message twice is the same as offering it once.
pub proof fn lemma_step_idempotent<E>(state: StateView<E>, msg: Message<E>)
    ensures
        step(step(state, msg), msg) == step(state, msg),
{
    let once = step(state, msg);
    let sender = msg.spec_sender();
    if admitted(state, msg) {
        lemma_updated_idempotent(state.latest, msg);
        if !new_equivocation(state, msg) && !state.equivocators.contains(sender) {
            if equivocates_with(once.latest, msg) {
                let after = once.latest[sender];
                let i = choose|i: int|
                    0 <= i < after.len() && (#[trigger] after[i]).spec_equivocates(msg);
                if state.latest.contains_key(sender) {
                    let before = state.latest[sender];
                    lemma_updated_frontier_drawn(before, msg);
                    assert(before.contains(after[i]));
                    let k = choose|k: int| 0 <= k < before.len() && before[k] == after[i];
                    assert(before[k].spec_equivocates(msg));
                } else {
                    assert(after == seq![msg]);
                }
            }
        }
        if new_equivocation(state, msg) {
            assert(once.equivocators.contains(sender));
        }
    }
}

/// The fault weight stays within the threshold: where it is within the
/// threshold, it is so once a message has been offered.
pub proof fn lemma_step_fault_weight<E>(state: StateView<E>, msg: Message<E>)
    requires
        state.fault_weight.spec_le(state.threshold),
    ensures
        step(state, msg).fault_weight.spec_le(step(state, msg).threshold),
        step(state, msg).threshold == state.threshold,
{
}

/// Every equivocator has latest messages.
pub open spec fn equivocators_have_entries<E>(state: StateView<E>) -> bool {
    forall|v: u32| state.equivocators.contains(v) ==> #[trigger] state.latest.contains_key(v)
}

/// Where every equivocator has latest messages, it is so once a message
/// has been offered; and no validator loses its latest messages.
pub proof fn lemma_step_entries<E>(state: StateView<E>, msg: Message<E>)
    ensures
        equivocators_have_entries(state) ==> equivocators_have_entries(step(state, msg)),
        forall|v: u32| state.latest.contains_key(v) ==> #[trigger] step(state, msg).latest.contains_key(v),
{
}

/// What holds of a state whatever messages are offered: the fault weight
/// stays within the threshold, the equivocations stay known, and every
/// equivocator keeps latest messages.
pub proof fn lemma_run_invariants<E>(state: StateView<E>, msgs: Seq<Message<E>>)
    requires
        state.fault_weight.spec_le(state.threshold),
        equivocations_known(state),
        equivocators_have_entries(state),
    ensures
        run(state, msgs).fault_weight.spec_le(run(state, msgs).threshold),
        run(state, msgs).threshold == state.threshold,
        equivocations_known(run(state, msgs)),
        equivocators_have_entries(run(state, msgs)),
    decreases msgs.len(),
{
    if msgs.len() > 0 {
        lemma_run_invariants(state, msgs.drop_last());
        lemma_step_fault_weight(run(state, msgs.drop_last()), msgs.last());
        lemma_step_equivocators(run(state, msgs.drop_last()), msgs.last());
        lemma_step_entries(run(state, msgs.drop_last()), msgs.last());
    }
}

/// A new equivocation enters exactly where the weight of its sender fits:
/// the message is taken in, and its sender joins the equivocators, where
/// the fault weight with the weight of the sender stays within the
/// threshold, and else the state stays as it is. Where it is taken in, the
/// sender had one latest message, which neither depends on the new message
/// nor is depended on by it, and has both of them afterwards.
pub proof fn lemma_step_new_equivocation<E>(state: StateView<E>, msg: Message<E>)
    requires
        new_equivocation(state, msg),
        equivocations_known(state),
        is_frontier_store(state.latest),
        distinct_ids(state.latest[msg.spec_sender()]),
    ensures
        admitted(state, msg) == raised_fault_weight(state, msg).spec_le(state.threshold),
        step(state, msg).equivocators.contains(msg.spec_sender()) == admitted(state, msg),
        !admitted(state, msg) ==> step(state, msg) == state,
        state.latest[msg.spec_sender()].len() == 1,
        state.latest[msg.spec_sender()][0].spec_equivocates(msg),
        admitted(state, msg) ==> step(state, msg).latest[msg.spec_sender()]
            == state.latest[msg.spec_sender()].push(msg),
        admitted(state, msg) ==> step(state, msg).fault_weight == raised_fault_weight(state, msg),
{
    let sender = msg.spec_sender();
    let frontier = state.latest[sender];
    let i = choose|i: int| 0 <= i < frontier.len() && (#[trigger] frontier[i]).spec_equivocates(msg);
    if frontier.len() >= 2 {
        let j = if i == 0 {
            1int
        } else {
            0int
        };
        assert(frontier[i].spec_sender() == sender && frontier[j].spec_sender() == sender);
        assert(!frontier[i].spec_depends(frontier[j]) && !frontier[j].spec_depends(frontier[i]));
        if i < j {
            assert(frontier[i].spec_id() != frontier[j].spec_id());
        } else {
            assert(frontier[j].spec_id() != frontier[i].spec_id());
        }
        assert(frontier[i].spec_equivocates(frontier[j]));
        assert(holds_equivocation(frontier));
        assert(false);
    }
    assert(i == 0);
    if holds_back(frontier, msg) {
        let k = choose|k: int|
            0 <= k < frontier.len() && ((#[trigger] frontier[k]).spec_id() == msg.spec_id()
                || frontier[k].spec_depends(msg));
        assert(false);
    }
    lemma_kept_of_last(frontier, msg);
    lemma_kept_of_last(frontier.drop_last(), msg);
    assert(kept_of(frontier, msg) =~= frontier);
}

/// The validators that join the equivocators while `msgs` are offered to
/// `state` one by one, in the order in which they join.
pub open spec fn joining<E>(state: StateView<E>, msgs: Seq<Message<E>>) -> Seq<u32>
    decreases msgs.len(),
{
    if msgs.len() == 0 {
        Seq::empty()
    } else {
        let before = run(state, msgs.drop_last());
        let joined = joining(state, msgs.drop_last());
        if new_equivocation(before, msgs.last()) && admitted(before, msgs.last()) {
            joined.push(msgs.last().spec_sender())
        } else {
            joined
        }
    }
}

/// `fault_weight` with the weights of the validators `joined` added, one
/// after the other; a validator without a weight counts as infinitely heavy.
pub open spec fn charged(weights: Map<u32, WeightUnit>, fault_weight: WeightUnit, joined: Seq<u32>) -> WeightUnit
    decreases joined.len(),
{
    if joined.len() == 0 {
        fault_weight
    } else {
        weight_or_infinity(weights, joined.last()).spec_plus(
            charged(weights, fault_weight, joined.drop_last()),
        )
    }
}

/// The fault weight is the sum of the weights of the equivocators that
/// were admitted: whatever messages are offered, the equivocators are
/// those from before and the validators that joined, each of which joined
/// once and was none before; the fault weight is the one from before with
/// the weight of each of them added; and it does not fall.
pub proof fn lemma_run_fault_weight<E>(state: StateView<E>, msgs: Seq<Message<E>>)
    ensures
        run(state, msgs).weights == state.weights,
        run(state, msgs).threshold == state.threshold,
        run(state, msgs).equivocators == state.equivocators.union(joining(state, msgs).to_set()),
        joining(state, msgs).no_duplicates(),
        forall|i: int|
            0 <= i < joining(state, msgs).len() ==> !state.equivocators.contains(
                #[trigger] joining(state, msgs)[i],
            ),
        run(state, msgs).fault_weight == charged(
            state.weights,
            state.fault_weight,
            joining(state, msgs),
        ),
        state.fault_weight.spec_le(state.threshold) ==> state.fault_weight.spec_le(
            run(state, msgs).fault_weight,
        ) && run(state, msgs).fault_weight.spec_le(state.threshold),
    decreases msgs.len(),
{
    let joined = joining(state, msgs);
    if msgs.len() == 0 {
        assert(run(state, msgs).equivocators =~= state.equivocators.union(joined.to_set()));
    } else {
        let rest = msgs.drop_last();
        let msg = msgs.last();
        let before = run(state, rest);
        let earlier = joining(state, rest);
        lemma_run_fault_weight(state, rest);
        if new_equivocation(before, msg) && admitted(before, msg) {
            let sender = msg.spec_sender();
            assert(joined.drop_last() =~= earlier);
            assert(!before.equivocators.contains(sender));
            assert(!earlier.to_set().contains(sender));
            assert forall|i: int, j: int| 0 <= i < joined.len() && 0 <= j < joined.len() && i
                != j implies joined[i] != joined[j] by {
                if i < earlier.len() {
                    assert(earlier.to_set().contains(earlier[i]));
                }
                if j < earlier.len() {
                    assert(earlier.to_set().contains(earlier[j]));
                }
            }
            assert(run(state, msgs).equivocators =~= state.equivocators.union(joined.to_set())) by {
                assert forall|v: u32| joined.to_set().contains(v) <==> earlier.to_set().contains(v)
                    || v == sender by {
                    if joined.to_set().contains(v) {
                        let k = choose|k: int| 0 <= k < joined.len() && joined[k] == v;
                        if k < earlier.len() {
                            assert(earlier[k] == v);
                        }
                    }
                    if earlier.to_set().contains(v) {
                        let k = choose|k: int| 0 <= k < earlier.len() && earlier[k] == v;
                        assert(joined[k] == v);
                    }
                    if v == sender {
                        assert(joined[joined.len() - 1] == v);
                    }
                }
            }
            WeightUnit::lemma_plus_monotone(
                before.fault_weight,
                weight_or_infinity(state.weights, sender),
            );
            WeightUnit::lemma_plus_laws(
                before.fault_weight,
                weight_or_infinity(state.weights, sender),
                WeightUnit::Finite(0),
            );
        }
    }
}

/// `senders` is strictly increasing.
pub open spec fn increasing(senders: Seq<u32>) -> bool {
    forall|i: int, j: int| 0 <= i < j < senders.len() ==> senders[i] < senders[j]
}

/// For each validator, its latest messages: those of its messages that no
/// other of its messages in the store depends on.
pub struct LatestMsgs<E> {
    senders: Vec<u32>,
    frontiers: Vec<Justification<E>>,
}

impl<E> View for LatestMsgs<E> {
    type V = Map<u32, Seq<Message<E>>>;

    closed spec fn view(&self) -> Map<u32, Seq<Message<E>>> {
        Map::new(
            |sender: u32| self.senders@.contains(sender),
            |sender: u32| self.frontiers@[self.senders@.index_of(sender)]@,
        )
    }
}

impl<E> LatestMsgs<E> {
    /// The entries are kept in the order of the validators, one for each, and
    /// no message occurs twice among the latest messages of a validator.
    pub closed spec fn wf(&self) -> bool {
        &&& self.senders@.len() == self.frontiers@.len()
        &&& increasing(self.senders@)
        &&& forall|i: int| 0 <= i < self.frontiers@.len() ==> (#[trigger] self.frontiers@[i]).wf()
        &&& forall|i: int|
            0 <= i < self.frontiers@.len() ==> sent_by(
                #[trigger] self.frontiers@[i]@,
                self.senders@[i],
            )
    }

    /// No two different messages at or below a stored message share an identifier.
    pub open spec fn collision_free(&self) -> bool {
        forall|sender: u32, i: int|
            self@.contains_key(sender) && 0 <= i < self@[sender].len() ==> (
            #[trigger] self@[sender][i]).collision_free()
    }

    /// How the entries make up the view.
    proof fn lemma_view(&self)
        requires
            self.wf(),
        ensures
            self@.dom() == self.senders@.to_set(),
            forall|i: int|
                0 <= i < self.senders@.len() ==> self@.contains_key(#[trigger] self.senders@[i])
                    && self@[self.senders@[i]] == self.frontiers@[i]@,
    {
        assert(self@.dom() =~= self.senders@.to_set());
        assert forall|i: int| 0 <= i < self.senders@.len() implies self@.contains_key(
            #[trigger] self.senders@[i],
        ) && self@[self.senders@[i]] == self.frontiers@[i]@ by {
            let s = self.senders@[i];
            assert(self.senders@.contains(s));
            let k = self.senders@.index_of(s);
            assert(k == i);
        }
    }

    /// The entries are kept in the order of the keys.
    proof fn lemma_keys(&self)
        requires
            self.wf(),
        ensures
            self.senders@ == sorted_keys(self@),
    {
        self.lemma_view();
        lemma_sorted_keys(self@, self.senders@);
    }

    /// What a well-formed store holds: for each validator messages of that
    /// validator, none of them twice.
    pub proof fn lemma_wf(&self)
        requires
            self.wf(),
        ensures
            increasing(sorted_keys(self@)),
            self@.dom() == sorted_keys(self@).to_set(),
            self@.dom().finite(),
            forall|sender: u32| self@.contains_key(sender) ==> distinct_ids(#[trigger] self@[sender]),
            forall|sender: u32| self@.contains_key(sender) ==> sent_by(#[trigger] self@[sender], sender),
    {
        self.lemma_view();
        lemma_sorted_keys(self@, self.senders@);
        vstd::seq_lib::seq_to_set_is_finite(self.senders@);
        assert forall|sender: u32| self@.contains_key(sender) implies distinct_ids(
            #[trigger] self@[sender],
        ) by {
            let k = self.senders@.index_of(sender);
            assert(self.frontiers@[k].wf());
        }
        assert forall|sender: u32| self@.contains_key(sender) implies sent_by(
            #[trigger] self@[sender],
            sender,
        ) by {
            let k = self.senders@.index_of(sender);
            assert(sent_by(self.frontiers@[k]@, self.senders@[k]));
        }
    }

    /// The empty store.
    pub fn new() -> (latest: Self)
        ensures
            latest@ == Map::<u32, Seq<Message<E>>>::empty(),
            latest.wf(),
    {
        let latest = LatestMsgs { senders: Vec::new(), frontiers: Vec::new() };
        assert(latest@ =~= Map::<u32, Seq<Message<E>>>::empty());
        latest
    }

    /// The number of validators with an entry.
    pub fn len(&self) -> (n: usize)
        requires
            self.wf(),
        ensures
            n == self@.dom().len(),
    {
        proof {
            self.lemma_view();
            self.senders@.unique_seq_to_set();
        }
        self.senders.len()
    }

    /// Whether `sender` has an entry.
    pub fn contains_key(&self, sender: &u32) -> (r: bool)
        requires
            self.wf(),
        ensures
            r == self@.contains_key(*sender),
    {
        self.find(*sender).1
    }

    /// The latest messages of `sender`, if it has an entry.
    pub fn get(&self, sender: &u32) -> (r: Option<&Justification<E>>)
        requires
            self.wf(),
        ensures
            r.is_some() == self@.contains_key(*sender),
            r matches Some(frontier) ==> frontier@ == self@[*sender] && frontier.wf(),
    {
        let (at, found) = self.find(*sender);
        if found {
            proof {
                self.lemma_view();
            }
            Some(&self.frontiers[at])
        } else {
            None
        }
    }

    /// Whether the store is well formed: what a caller that changed latest
    /// messages in place can test before it goes on.
    pub fn is_well_formed(&self) -> (r: bool)
        ensures
            r == self.wf(),
    {
        if self.senders.len() != self.frontiers.len() {
            return false;
        }
        let mut i: usize = 0;
        while i < self.senders.len()
            invariant
                i <= self.senders@.len(),
                self.senders@.len() == self.frontiers@.len(),
                forall|a: int, b: int|
                    0 <= a < b < i ==> #[trigger] self.senders@[a] < #[trigger] self.senders@[b],
                forall|a: int| 0 <= a < i ==> (#[trigger] self.frontiers@[a]).wf(),
                forall|a: int|
                    0 <= a < i ==> sent_by(#[trigger] self.frontiers@[a]@, self.senders@[a]),
            decreases self.senders@.len() - i,
        {
            if i > 0 && self.senders[i - 1] >= self.senders[i] {
                assert(!(self.senders@[i - 1] < self.senders@[i as int]));
                return false;
            }
            if !self.frontiers[i].is_well_formed() {
                assert(!self.frontiers@[i as int].wf());
                return false;
            }
            if !self.frontiers[i].is_sent_by(self.senders[i]) {
                assert(!sent_by(self.frontiers@[i as int]@, self.senders@[i as int]));
                return false;
            }
            i += 1;
        }
        assert(increasing(self.senders@));
        true
    }

    /// The latest messages of `sender`, to change them in place, if it has
    /// an entry. The messages put there must be messages of `sender`, none
    /// of them twice.
    pub fn get_mut(&mut self, sender: &u32) -> (r: Option<&mut Justification<E>>)
        requires
            old(self).wf(),
        ensures
            r.is_some() == old(self)@.contains_key(*sender),
            r.is_none() ==> *final(self) == *old(self),
            r matches Some(frontier) ==> {
                &&& frontier@ == old(self)@[*sender]
                &&& final(self)@ == old(self)@.insert(*sender, final(frontier)@)
                &&& final(frontier).wf() && sent_by(final(frontier)@, *sender) ==> final(self).wf()
            },
    {
        let (at, found) = self.find(*sender);
        if found {
            proof {
                self.lemma_view();
            }
            let ghost before = *self;
            let frontier = &mut self.frontiers[at];
            proof {
                let after = LatestMsgs {
                    senders: before.senders,
                    frontiers: after_borrow(self.frontiers),
                };
                assert(after.frontiers@ == before.frontiers@.update(at as int, *final(frontier)));
                if final(frontier).wf() && sent_by(final(frontier)@, *sender) {
                    assert(after.wf());
                }
                assert(after@ =~= before@.insert(*sender, final(frontier)@)) by {
                    assert forall|s: u32| after@.contains_key(s) implies #[trigger] after@[s]
                        == before@.insert(*sender, final(frontier)@)[s] by {
                        let k = after.senders@.index_of(s);
                        assert(after.senders@.contains(s));
                        assert(after.senders@[k] == s);
                        if k != at {
                            assert(before.senders@[k] < before.senders@[at as int]
                                || before.senders@[at as int] < before.senders@[k]);
                        }
                    }
                }
            }
            Some(frontier)
        } else {
            None
        }
    }

    /// The validators with an entry, in increasing order.
    pub fn keys(&self) -> (senders: &Vec<u32>)
        requires
            self.wf(),
        ensures
            senders@ == sorted_keys(self@),
    {
        proof {
            self.lemma_keys();
        }
        &self.senders
    }

    /// The latest messages of each validator, in the order of the validators.
    pub fn values(&self) -> (frontiers: &Vec<Justification<E>>)
        requires
            self.wf(),
        ensures
            frontiers@.len() == sorted_keys(self@).len(),
            forall|i: int|
                0 <= i < frontiers@.len() ==> (#[trigger] frontiers@[i])@ == self@[sorted_keys(
                    self@,
                )[i]] && frontiers@[i].wf(),
    {
        proof {
            self.lemma_view();
            self.lemma_keys();
        }
        &self.frontiers
    }

    /// Each validator with its latest messages, in the order of the validators.
    pub fn iter(&self) -> (entries: Vec<(u32, &Justification<E>)>)
        requires
            self.wf(),
        ensures
            entries@.len() == sorted_keys(self@).len(),
            forall|i: int|
                0 <= i < entries@.len() ==> (#[trigger] entries@[i]).0 == sorted_keys(self@)[i]
                    && entries@[i].1@ == self@[sorted_keys(self@)[i]] && entries@[i].1.wf(),
    {
        proof {
            self.lemma_view();
            self.lemma_keys();
        }
        let mut entries: Vec<(u32, &Justification<E>)> = Vec::new();
        let mut i: usize = 0;
        while i < self.senders.len()
            invariant
                self.wf(),
                i <= self.senders@.len(),
                entries@.len() == i,
                forall|k: int|
                    0 <= k < i ==> (#[trigger] entries@[k]).0 == self.senders@[k] && *entries@[k].1
                        == self.frontiers@[k],
            decreases self.senders@.len() - i,
        {
            entries.push((self.senders[i], &self.frontiers[i]));
            i += 1;
        }
        entries
    }

    /// Gives `sender` the latest messages `frontier`; returns the latest
    /// messages that it had before.
    pub fn insert(&mut self, sender: u32, frontier: Justification<E>) -> (r: Option<Justification<E>>)
        requires
            old(self).wf(),
            frontier.wf(),
            sent_by(frontier@, sender),
        ensures
            final(self).wf(),
            final(self)@ == old(self)@.insert(sender, frontier@),
            r.is_some() == old(self)@.contains_key(sender),
            r matches Some(before) ==> before@ == old(self)@[sender],
    {
        let (at, found) = self.find(sender);
        proof {
            self.lemma_view();
        }
        if found {
            self.frontiers.push(frontier);
            let before = self.frontiers.swap_remove(at);
            proof {
                assert(self.frontiers@ =~= old(self).frontiers@.update(at as int, frontier));
                assert(self.wf());
                self.lemma_view();
                assert(self@ =~= old(self)@.insert(sender, frontier@)) by {
                    assert forall|s: u32| self@.contains_key(s) implies #[trigger] self@[s] == old(
                        self,
                    )@.insert(sender, frontier@)[s] by {
                        let k = self.senders@.index_of(s);
                        assert(self.senders@.contains(s));
                        assert(self.senders@[k] == s);
                    }
                }
            }
            Some(before)
        } else {
            self.senders.insert(at, sender);
            self.frontiers.insert(at, frontier);
            proof {
                assert(self.wf());
                self.lemma_view();
                assert(self@ =~= old(self)@.insert(sender, frontier@)) by {
                    assert forall|s: u32| self@.contains_key(s) == old(self)@.insert(
                        sender,
                        frontier@,
                    ).contains_key(s) by {
                        if self.senders@.contains(s) {
                            let k = self.senders@.index_of(s);
                            if k < at {
                                assert(old(self).senders@[k] == s);
                            } else if k > at {
                                assert(old(self).senders@[k - 1] == s);
                            }
                        }
                        if old(self).senders@.contains(s) {
                            let k = old(self).senders@.index_of(s);
                            if k < at {
                                assert(self.senders@[k] == s);
                            } else {
                                assert(self.senders@[k + 1] == s);
                            }
                        }
                        if s == sender {
                            assert(self.senders@[at as int] == s);
                        }
                    }
                    assert forall|s: u32| self@.contains_key(s) implies #[trigger] self@[s] == old(
                        self,
                    )@.insert(sender, frontier@)[s] by {
                        let k = self.senders@.index_of(s);
                        assert(self.senders@.contains(s));
                        if k < at {
                            assert(old(self).senders@[k] == s);
                        } else if k > at {
                            assert(old(self).senders@[k - 1] == s);
                        }
                    }
                }
            }
            None
        }
    }

    /// Takes in `new_msg`. Where its sender has no entry, the message becomes
    /// its one latest message. Where a latest message of the sender is
    /// `new_msg` or depends on it, nothing changes. Otherwise the latest
    /// messages that `new_msg` depends on leave, and `new_msg` enters.
    /// Returns whether the latest messages changed.
    ///
    /// Whatever the messages are, only the entry of the sender changes; a
    /// message that is among the latest messages of its sender changes
    /// nothing; and where the latest messages changed, `new_msg` is the
    /// last of them, so that it changes nothing when it arrives again. The
    /// rest is stated where no two different messages at or below `new_msg`
    /// or a stored message share an identifier.
    pub fn update(&mut self, new_msg: &Message<E>) -> (changed: bool)
        requires
            old(self).wf(),
        ensures
            final(self).wf(),
            changed == (final(self)@ != old(self)@),
            final(self)@.contains_key(new_msg.spec_sender()),
            final(self)@ == old(self)@.insert(
                new_msg.spec_sender(),
                final(self)@[new_msg.spec_sender()],
            ),
            changed ==> final(self)@[new_msg.spec_sender()].len() > 0,
            changed ==> final(self)@[new_msg.spec_sender()].last() == *new_msg,
            old(self)@.contains_key(new_msg.spec_sender()) && holds_id(
                old(self)@[new_msg.spec_sender()],
                new_msg.spec_id(),
            ) ==> !changed,
            old(self).collision_free() && new_msg.collision_free() ==> {
                &&& final(self)@ == updated(old(self)@, *new_msg)
                &&& changed == (final(self)@ != old(self)@)
                &&& final(self).collision_free()
                &&& is_frontier_store(old(self)@) ==> is_frontier_store(final(self)@)
                &&& final(self)@.contains_key(new_msg.spec_sender())
                &&& holds_back(final(self)@[new_msg.spec_sender()], *new_msg)
            },
    {
        proof {
            lemma_updated_keeps_frontiers(self@, *new_msg);
        }
        let sender = *new_msg.sender();
        let (at, found) = self.find(sender);
        proof {
            self.lemma_view();
        }
        if found {
            let (frontier, changed) = refresh(&self.frontiers[at], new_msg);
            let ghost before = self.frontiers@[at as int]@;
            self.insert(sender, frontier);
            proof {
                if old(self).collision_free() && new_msg.collision_free() {
                    assert(all_collision_free(before));
                    assert forall|s: u32, i: int|
                        self@.contains_key(s) && 0 <= i < self@[s].len() implies (
                    #[trigger] self@[s][i]).collision_free() by {
                        if s == sender {
                            let whole = before.push(*new_msg);
                            assert(whole.contains(frontier@[i]));
                            let k = choose|k: int| 0 <= k < whole.len() && whole[k] == frontier@[i];
                            if k < before.len() {
                                assert(before[k].collision_free());
                            }
                        }
                    }
                }
                if changed {
                    assert(self@[sender] != old(self)@[sender]);
                } else {
                    assert(self@ =~= old(self)@);
                }
            }
            changed
        } else {
            let mut frontier = Justification::new();
            frontier.insert(new_msg.clone());
            self.insert(sender, frontier);
            proof {
                assert(frontier@ =~= seq![*new_msg]);
                assert(self@.contains_key(sender));
                assert(!old(self)@.contains_key(sender));
            }
            true
        }
    }

    /// The latest messages as `justification` shows them: every message
    /// that the messages of `justification` reach is walked once,
    /// breadth-first from them, and taken in by `update`.
    ///
    /// Where no two different messages that `justification` reaches share an
    /// identifier, the outcome has an entry for each validator that sent
    /// one of the messages reached, and holds for it exactly those of its
    /// messages among them on which no other of them depends.
    pub fn from_justification(justification: &Justification<E>) -> (latest: Self)
        ensures
            latest.wf(),
            jointly_collision_free(justification@) ==> {
                &&& latest@ == traversed(justification@)
                &&& is_frontier_of(latest@, justification@)
                &&& latest.collision_free()
            },
    {
        let ghost roots = justification@;
        let ghost exact = jointly_collision_free(roots);
        let mut latest: LatestMsgs<E> = LatestMsgs::new();
        let mut order: Justification<E> = Justification::new();
        let mut i: usize = 0;
        while i < justification.len()
            invariant
                i <= justification@.len(),
                roots == justification@,
                order.wf(),
                order@ == extended(Seq::empty(), roots.take(i as int)),
            decreases justification@.len() - i,
        {
            order.insert(justification.get(i).clone());
            assert(roots.take(i + 1).drop_last() =~= roots.take(i as int));
            i += 1;
        }
        proof {
            assert(roots.take(roots.len() as int) =~= roots);
            lemma_walk_start(roots);
        }
        let mut head: usize = 0;
        while head < order.len()
            invariant
                latest.wf(),
                order.wf(),
                head <= order@.len(),
                forall|a: int| 0 <= a < order@.len() ==> reached_from(roots, #[trigger] order@[a]),
                exact == jointly_collision_free(roots),
                exact ==> latest.collision_free(),
                exact ==> walked(order@, head as nat, latest@) == traversed(roots),
            decreases total_size(order@.skip(head as int)),
        {
            let msg = order.get(head).clone();
            let ghost before = order@;
            proof {
                lemma_walk_decreases(before, head as int);
                lemma_extended(before, msg.spec_justification());
                if exact {
                    lemma_reached_collision_free(roots, msg, msg);
                }
            }
            latest.update(&msg);
            let cited = msg.justification();
            let mut k: usize = 0;
            while k < cited.len()
                invariant
                    k <= cited@.len(),
                    cited@ == msg.spec_justification(),
                    order.wf(),
                    order@ == extended(before, cited@.take(k as int)),
                decreases cited@.len() - k,
            {
                order.insert(cited.get(k).clone());
                assert(cited@.take(k + 1).drop_last() =~= cited@.take(k as int));
                k += 1;
            }
            proof {
                assert(cited@.take(cited@.len() as int) =~= cited@);
                assert forall|a: int| 0 <= a < order@.len() implies reached_from(
                    roots,
                    #[trigger] order@[a],
                ) by {
                    if a < before.len() {
                        assert(order@.take(before.len() as int)[a] == order@[a]);
                        assert(reached_from(roots, before[a]));
                    } else {
                        assert(cited@.contains(order@[a]));
                        let c = choose|c: int| 0 <= c < cited@.len() && cited@[c] == order@[a];
                        assert(msg.cites(order@[a]));
                        lemma_reached_below(roots, msg, order@[a]);
                    }
                }
            }
            head += 1;
        }
        proof {
            if exact {
                lemma_traversed(roots);
            }
        }
        latest
    }

    /// Whether `msg_new` and a latest message of its sender are an equivocation.
    pub fn equivocate(&self, msg_new: &Message<E>) -> (r: bool)
        requires
            self.wf(),
        ensures
            self.collision_free() && msg_new.collision_free() ==> r == self.spec_equivocate(
                *msg_new,
            ),
    {
        match self.get(msg_new.sender()) {
            None => false,
            Some(frontier) => {
                let mut i: usize = 0;
                while i < frontier.len()
                    invariant
                        i <= frontier@.len(),
                        frontier@ == self@[msg_new.spec_sender()],
                        self@.contains_key(msg_new.spec_sender()),
                        self.collision_free() && msg_new.collision_free() ==> forall|k: int|
                            0 <= k < i ==> !(#[trigger] frontier@[k]).spec_equivocates(*msg_new),
                    decreases frontier@.len() - i,
                {
                    if frontier.get(i).equivocates(msg_new) {
                        return true;
                    }
                    i += 1;
                }
                false
            },
        }
    }

    /// `msg` and a latest message of its sender are an equivocation.
    pub open spec fn spec_equivocate(&self, msg: Message<E>) -> bool {
        equivocates_with(self@, msg)
    }

    /// A store with the same entries.
    pub fn clone(&self) -> (latest: Self)
        requires
            self.wf(),
        ensures
            latest.wf(),
            latest@ == self@,
    {
        let mut senders: Vec<u32> = Vec::new();
        let mut frontiers: Vec<Justification<E>> = Vec::new();
        let mut i: usize = 0;
        while i < self.senders.len()
            invariant
                self.wf(),
                i <= self.senders@.len(),
                senders@ == self.senders@.take(i as int),
                frontiers@.len() == i,
                forall|k: int| 0 <= k < i ==> (#[trigger] frontiers@[k])@ == self.frontiers@[k]@,
            decreases self.senders@.len() - i,
        {
            senders.push(self.senders[i]);
            frontiers.push(self.frontiers[i].clone());
            i += 1;
        }
        let latest = LatestMsgs { senders, frontiers };
        proof {
            assert(latest.senders@ =~= self.senders@);
            assert forall|k: int| 0 <= k < latest.frontiers@.len() implies (
            #[trigger] latest.frontiers@[k]).wf() by {
                assert(self.frontiers@[k].wf());
            }
            self.lemma_view();
            latest.lemma_view();
            assert(latest@ =~= self@) by {
                assert forall|s: u32| latest@.contains_key(s) implies #[trigger] latest@[s]
                    == self@[s] by {
                    let k = latest.senders@.index_of(s);
                    assert(latest.senders@.contains(s));
                    assert(self.senders@[k] == s);
                }
            }
        }
        latest
    }

    /// The position of `sender` among the entries, or the position where its
    /// entry belongs.
    fn find(&self, sender: u32) -> (r: (usize, bool))
        requires
            self.wf(),
        ensures
            r.0 <= self.senders@.len(),
            r.1 == self@.contains_key(sender),
            r.1 ==> r.0 < self.senders@.len() && self.senders@[r.0 as int] == sender,
            forall|k: int| 0 <= k < r.0 ==> self.senders@[k] < sender,
            forall|k: int| r.0 <= k < self.senders@.len() ==> sender <= self.senders@[k],
    {
        proof {
            self.lemma_view();
        }
        let mut i: usize = 0;
        while i < self.senders.len()
            invariant
                i <= self.senders@.len(),
                increasing(self.senders@),
                forall|k: int| 0 <= k < i ==> self.senders@[k] < sender,
            decreases self.senders@.len() - i,
        {
            if self.senders[i] == sender {
                assert(self.senders@.contains(sender));
                return (i, true);
            }
            if self.senders[i] > sender {
                assert(!self.senders@.contains(sender));
                return (i, false);
            }
            i += 1;
        }
        assert(!self.senders@.contains(sender));
        (i, false)
    }
}

/// The keys of `map` that are below `bound`, in increasing order.
pub open spec fn keys_below<V>(map: Map<u32, V>, bound: nat) -> Seq<u32>
    decreases bound,
{
    if bound == 0 {
        Seq::empty()
    } else {
        let rest = keys_below(map, (bound - 1) as nat);
        if bound - 1 <= u32::MAX && map.contains_key((bound - 1) as u32) {
            rest.push((bound - 1) as u32)
        } else {
            rest
        }
    }
}

/// The keys of `map`, in increasing order.
pub open spec fn sorted_keys<V>(map: Map<u32, V>) -> Seq<u32> {
    keys_below(map, 0x1_0000_0000)
}

proof fn lemma_keys_below<V>(map: Map<u32, V>, keys: Seq<u32>, bound: nat) -> (count: int)
    requires
        increasing(keys),
        keys.to_set() == map.dom(),
        bound <= 0x1_0000_0000,
    ensures
        0 <= count <= keys.len(),
        keys.take(count) == keys_below(map, bound),
        forall|i: int| 0 <= i < count ==> keys[i] < bound,
        forall|i: int| count <= i < keys.len() ==> keys[i] >= bound,
    decreases bound,
{
    if bound == 0 {
        assert(keys.take(0) =~= Seq::<u32>::empty());
        0
    } else {
        let below = lemma_keys_below(map, keys, (bound - 1) as nat);
        let key = (bound - 1) as u32;
        if map.contains_key(key) {
            assert(keys.to_set().contains(key));
            let at = choose|at: int| 0 <= at < keys.len() && keys[at] == key;
            assert(at == below) by {
                if at < below {
                    assert(keys[at] < bound - 1);
                }
                if at > below {
                    assert(keys[below] >= bound - 1);
                    assert(keys[below] < keys[at]);
                }
            }
            assert(keys.take(below + 1) =~= keys.take(below).push(key));
            assert forall|i: int| below + 1 <= i < keys.len() implies keys[i] >= bound by {
                assert(keys[below] < keys[i]);
            }
            below + 1
        } else {
            assert forall|i: int| below <= i < keys.len() implies keys[i] >= bound by {
                assert(keys.to_set().contains(keys[i]));
            }
            below
        }
    }
}

/// A strictly increasing sequence that holds exactly the keys of `map` is
/// the sequence of its keys in increasing order.
pub proof fn lemma_sorted_keys<V>(map: Map<u32, V>, keys: Seq<u32>)
    requires
        increasing(keys),
        keys.to_set() == map.dom(),
    ensures
        keys == sorted_keys(map),
{
    let count = lemma_keys_below(map, keys, 0x1_0000_0000);
    if count < keys.len() {
        assert(keys[count] >= 0x1_0000_0000);
    }
    assert(keys.take(keys.len() as int) =~= keys);
}

/// The latest honest messages among `latest`, given the equivocators: the
/// one latest message of each validator that has exactly one and is not
/// among the equivocators, in the order of the validators.
pub open spec fn latest_honest<E>(latest: Map<u32, Seq<Message<E>>>, equivocators: Set<u32>) -> Seq<
    Message<E>,
> {
    honest_of(sorted_keys(latest), latest, equivocators)
}

/// The latest honest messages: the one latest message of each validator that
/// has exactly one and is not known to equivocate, in the order of `keys`.
pub open spec fn honest_of<E>(
    keys: Seq<u32>,
    latest: Map<u32, Seq<Message<E>>>,
    equivocators: Set<u32>,
) -> Seq<Message<E>>
    decreases keys.len(),
{
    if keys.len() == 0 {
        Seq::empty()
    } else {
        let rest = honest_of(keys.drop_last(), latest, equivocators);
        let sender = keys.last();
        if !equivocators.contains(sender) && latest.contains_key(sender) && latest[sender].len()
            == 1 {
            rest.push(latest[sender][0])
        } else {
            rest
        }
    }
}

/// Every latest honest message is the one latest message of a validator.
pub proof fn lemma_honest_drawn<E>(
    keys: Seq<u32>,
    latest: Map<u32, Seq<Message<E>>>,
    equivocators: Set<u32>,
)
    ensures
        forall|i: int|
            0 <= i < honest_of(keys, latest, equivocators).len() ==> {
                let m = #[trigger] honest_of(keys, latest, equivocators)[i];
                exists|v: u32| #[trigger]
                    latest.contains_key(v) && latest[v].len() == 1 && latest[v][0] == m
            },
    decreases keys.len(),
{
    if keys.len() > 0 {
        lemma_honest_drawn(keys.drop_last(), latest, equivocators);
        let rest = honest_of(keys.drop_last(), latest, equivocators);
        let all = honest_of(keys, latest, equivocators);
        assert forall|i: int| 0 <= i < all.len() implies {
            let m = #[trigger] all[i];
            exists|v: u32| #[trigger]
                latest.contains_key(v) && latest[v].len() == 1 && latest[v][0] == m
        } by {
            if i < rest.len() {
                assert(all[i] == rest[i]);
            } else {
                assert(latest.contains_key(keys.last()));
            }
        }
    }
}

/// The messages that a justification takes in are among those offered,
/// and no two of them have the same identifier.
pub proof fn lemma_justification_of<E>(msgs: Seq<Message<E>>)
    ensures
        distinct_ids(justification_of(msgs)),
        forall|i: int|
            0 <= i < justification_of(msgs).len() ==> msgs.contains(
                #[trigger] justification_of(msgs)[i],
            ),
    decreases msgs.len(),
{
    if msgs.len() > 0 {
        let rest = msgs.drop_last();
        lemma_justification_of(rest);
        let taken = justification_of(rest);
        let all = justification_of(msgs);
        assert forall|i: int| 0 <= i < all.len() implies msgs.contains(#[trigger] all[i]) by {
            if i < taken.len() {
                assert(rest.contains(taken[i]));
                let k = choose|k: int| 0 <= k < rest.len() && rest[k] == taken[i];
                assert(msgs[k] == all[i]);
            } else {
                assert(msgs[msgs.len() - 1] == all[i]);
            }
        }
        assert forall|i: int, j: int| 0 <= i < j < all.len() implies (
        #[trigger] all[i]).spec_id() != (#[trigger] all[j]).spec_id() by {
            if j < taken.len() {
                assert(taken[i].spec_id() != taken[j].spec_id());
            } else {
                assert(taken[i].spec_id() != msgs.last().spec_id());
            }
        }
    }
}

/// Every latest message is a well-formed node of the DAG.
pub open spec fn all_well_formed<E: Estimate>(latest: Map<u32, Seq<Message<E>>>) -> bool {
    forall|v: u32, i: int|
        latest.contains_key(v) && 0 <= i < latest[v].len() ==> (
        #[trigger] latest[v][i]).well_formed()
}

/// The latest messages stay well-formed nodes of the DAG when a
/// well-formed message is offered.
pub proof fn lemma_step_well_formed<E: Estimate>(state: StateView<E>, msg: Message<E>)
    requires
        all_well_formed(state.latest),
        msg.well_formed(),
    ensures
        all_well_formed(step(state, msg).latest),
{
    let next = step(state, msg);
    let sender = msg.spec_sender();
    assert forall|v: u32, i: int|
        next.latest.contains_key(v) && 0 <= i < next.latest[v].len() implies (
    #[trigger] next.latest[v][i]).well_formed() by {
        if admitted(state, msg) && v == sender {
            if state.latest.contains_key(sender) {
                let before = state.latest[sender];
                lemma_updated_frontier_drawn(before, msg);
                let m = next.latest[v][i];
                if m != msg {
                    assert(before.contains(m));
                    let k = choose|k: int| 0 <= k < before.len() && before[k] == m;
                    assert(state.latest[sender][k].well_formed());
                }
            }
        } else {
            assert(next.latest[v] == state.latest[v]);
            assert(state.latest[v][i].well_formed());
        }
    }
}

/// A message that cites the latest honest messages of well-formed latest
/// messages, as a message built on a state does, cites well-formed
/// messages, none of them twice.
pub proof fn lemma_built_on_well_formed<E: Estimate>(
    latest: Map<u32, Seq<Message<E>>>,
    equivocators: Set<u32>,
)
    requires
        all_well_formed(latest),
    ensures
        distinct_ids(justification_of(latest_honest(latest, equivocators))),
        forall|i: int|
            0 <= i < justification_of(latest_honest(latest, equivocators)).len() ==> (
            #[trigger] justification_of(latest_honest(latest, equivocators))[i]).well_formed(),
{
    let honest = latest_honest(latest, equivocators);
    lemma_honest_drawn(sorted_keys(latest), latest, equivocators);
    lemma_justification_of(honest);
    let cited = justification_of(honest);
    assert forall|i: int| 0 <= i < cited.len() implies (#[trigger] cited[i]).well_formed() by {
        assert(honest.contains(cited[i]));
        let k = choose|k: int| 0 <= k < honest.len() && honest[k] == cited[i];
        let v = choose|v: u32| #[trigger]
            latest.contains_key(v) && latest[v].len() == 1 && latest[v][0] == honest[k];
        assert(latest[v][0].well_formed());
    }
}

/// Two stores hold the same latest messages for every validator outside
/// `equivocators`.
pub open spec fn agree_outside<E>(
    a: Map<u32, Seq<Message<E>>>,
    b: Map<u32, Seq<Message<E>>>,
    equivocators: Set<u32>,
) -> bool {
    forall|v: u32|
        !equivocators.contains(v) ==> (#[trigger] a.contains_key(v) == b.contains_key(v)) && (
        a.contains_key(v) ==> a[v] == b[v])
}

proof fn lemma_honest_below<E>(
    a: Map<u32, Seq<Message<E>>>,
    b: Map<u32, Seq<Message<E>>>,
    equivocators: Set<u32>,
    bound: nat,
)
    requires
        agree_outside(a, b, equivocators),
    ensures
        honest_of(keys_below(a, bound), a, equivocators) == honest_of(
            keys_below(b, bound),
            b,
            equivocators,
        ),
    decreases bound,
{
    if bound > 0 {
        lemma_honest_below(a, b, equivocators, (bound - 1) as nat);
        if bound - 1 <= u32::MAX {
            let key = (bound - 1) as u32;
            let rest_a = keys_below(a, (bound - 1) as nat);
            let rest_b = keys_below(b, (bound - 1) as nat);
            assert(a.contains_key(key) == b.contains_key(key) || equivocators.contains(key));
            if a.contains_key(key) {
                assert(rest_a.push(key).drop_last() =~= rest_a);
            }
            if b.contains_key(key) {
                assert(rest_b.push(key).drop_last() =~= rest_b);
            }
        }
    }
}

/// The latest honest messages depend only on the latest messages of the
/// validators outside the equivocators.
pub proof fn lemma_honest_agree<E>(
    a: Map<u32, Seq<Message<E>>>,
    b: Map<u32, Seq<Message<E>>>,
    equivocators: Set<u32>,
)
    requires
        agree_outside(a, b, equivocators),
    ensures
        latest_honest(a, equivocators) == latest_honest(b, equivocators),
{
    lemma_honest_below(a, b, equivocators, 0x1_0000_0000);
}

/// A justification takes in messages with different identifiers as they are.
pub proof fn lemma_justification_of_distinct<E>(msgs: Seq<Message<E>>)
    requires
        distinct_ids(msgs),
    ensures
        justification_of(msgs) == msgs,
    decreases msgs.len(),
{
    if msgs.len() > 0 {
        let rest = msgs.drop_last();
        assert(distinct_ids(rest)) by {
            assert forall|i: int, j: int| 0 <= i < j < rest.len() implies (
            #[trigger] rest[i]).spec_id() != (#[trigger] rest[j]).spec_id() by {
                assert(msgs[i].spec_id() != msgs[j].spec_id());
            }
        }
        lemma_justification_of_distinct(rest);
        if holds_id(rest, msgs.last().spec_id()) {
            let i = choose|i: int|
                0 <= i < rest.len() && (#[trigger] rest[i]).spec_id() == msgs.last().spec_id();
            assert(msgs[i].spec_id() != msgs[msgs.len() - 1].spec_id());
        }
        assert(rest.push(msgs.last()) =~= msgs);
    }
}

/// A latest message of `latest` is `m` or cites it, directly or not.
pub open spec fn store_reaches<E>(latest: Map<u32, Seq<Message<E>>>, m: Message<E>) -> bool {
    exists|v: u32, i: int|
        latest.contains_key(v) && 0 <= i < latest[v].len() && (#[trigger] latest[v][i]).covers(m)
}

/// No two different messages that the latest messages reach share an
/// identifier.
pub open spec fn store_collision_free<E>(latest: Map<u32, Seq<Message<E>>>) -> bool {
    forall|x: Message<E>, y: Message<E>|
        #![trigger store_reaches(latest, x), store_reaches(latest, y)]
        store_reaches(latest, x) && store_reaches(latest, y) && x.spec_id() == y.spec_id() ==> x
            == y
}

/// The store has taken in every message that its latest messages cite:
/// each of them is among the latest messages of its sender, or one of
/// these depends on it.
pub open spec fn has_seen_all<E>(latest: Map<u32, Seq<Message<E>>>) -> bool {
    forall|m: Message<E>| #[trigger] store_reaches(latest, m) ==> settled(latest, m)
}

/// Every key of `map` below `bound` is among its keys below `bound`.
proof fn lemma_keys_below_hold<V>(map: Map<u32, V>, bound: nat, key: u32)
    requires
        map.contains_key(key),
        key < bound,
    ensures
        keys_below(map, bound).contains(key),
    decreases bound,
{
    let rest = keys_below(map, (bound - 1) as nat);
    let all = keys_below(map, bound);
    if key == bound - 1 {
        assert(all[all.len() - 1] == key);
    } else {
        lemma_keys_below_hold(map, (bound - 1) as nat, key);
        let k = choose|k: int| 0 <= k < rest.len() && rest[k] == key;
        assert(all[k] == key);
    }
}

/// The one latest message of a validator of `keys` outside the
/// equivocators is among the latest honest messages.
proof fn lemma_honest_holds<E>(
    keys: Seq<u32>,
    latest: Map<u32, Seq<Message<E>>>,
    equivocators: Set<u32>,
    v: u32,
)
    requires
        keys.contains(v),
        !equivocators.contains(v),
        latest.contains_key(v),
        latest[v].len() == 1,
    ensures
        honest_of(keys, latest, equivocators).contains(latest[v][0]),
    decreases keys.len(),
{
    let rest = honest_of(keys.drop_last(), latest, equivocators);
    let all = honest_of(keys, latest, equivocators);
    if keys.last() == v {
        assert(all[all.len() - 1] == latest[v][0]);
    } else {
        let k = choose|k: int| 0 <= k < keys.len() && keys[k] == v;
        assert(keys.drop_last()[k] == v);
        lemma_honest_holds(keys.drop_last(), latest, equivocators, v);
        let a = choose|a: int| 0 <= a < rest.len() && rest[a] == latest[v][0];
        assert(all[a] == latest[v][0]);
    }
}

/// The keys below `bound` are below it, in increasing order.
proof fn lemma_keys_below_increasing<V>(map: Map<u32, V>, bound: nat)
    ensures
        increasing(keys_below(map, bound)),
        forall|i: int|
            0 <= i < keys_below(map, bound).len() ==> (#[trigger] keys_below(map, bound)[i]) < bound,
    decreases bound,
{
    if bound > 0 {
        lemma_keys_below_increasing(map, (bound - 1) as nat);
        let rest = keys_below(map, (bound - 1) as nat);
        let all = keys_below(map, bound);
        assert forall|i: int, j: int| 0 <= i < j < all.len() implies all[i] < all[j] by {
            if j < rest.len() {
                assert(rest[i] < rest[j]);
            } else {
                assert(rest[i] < bound - 1);
            }
        }
        assert forall|i: int| 0 <= i < all.len() implies (#[trigger] all[i]) < bound by {
            if i < rest.len() {
                assert(rest[i] < bound - 1);
            }
        }
    }
}

/// The latest honest messages of validators in increasing order are in
/// the order of their senders, each of which is one of the validators.
proof fn lemma_honest_increasing<E>(
    keys: Seq<u32>,
    latest: Map<u32, Seq<Message<E>>>,
    equivocators: Set<u32>,
)
    requires
        increasing(keys),
        forall|v: u32| #[trigger] latest.contains_key(v) ==> sent_by(latest[v], v),
    ensures
        increasing(senders_of(honest_of(keys, latest, equivocators))),
        forall|a: int|
            0 <= a < honest_of(keys, latest, equivocators).len() ==> keys.contains(
                (#[trigger] honest_of(keys, latest, equivocators)[a]).spec_sender(),
            ),
    decreases keys.len(),
{
    let all = honest_of(keys, latest, equivocators);
    if keys.len() > 0 {
        let front = keys.drop_last();
        let rest = honest_of(front, latest, equivocators);
        assert(increasing(front)) by {
            assert forall|i: int, j: int| 0 <= i < j < front.len() implies front[i] < front[j] by {
                assert(keys[i] < keys[j]);
            }
        }
        lemma_honest_increasing(front, latest, equivocators);
        assert forall|a: int| 0 <= a < all.len() implies keys.contains(
            (#[trigger] all[a]).spec_sender(),
        ) by {
            if a < rest.len() {
                assert(front.contains(rest[a].spec_sender()));
                let k = choose|k: int| 0 <= k < front.len() && front[k] == rest[a].spec_sender();
                assert(keys[k] == all[a].spec_sender());
            } else {
                assert(sent_by(latest[keys.last()], keys.last()));
                assert(keys[keys.len() - 1] == all[a].spec_sender());
            }
        }
        assert forall|a: int, b: int| 0 <= a < b < all.len() implies senders_of(all)[a]
            < senders_of(all)[b] by {
            if b < rest.len() {
                assert(senders_of(rest)[a] < senders_of(rest)[b]);
            } else {
                assert(front.contains(rest[a].spec_sender()));
                let k = choose|k: int| 0 <= k < front.len() && front[k] == rest[a].spec_sender();
                assert(keys[k] < keys[keys.len() - 1]);
                assert(sent_by(latest[keys.last()], keys.last()));
            }
        }
    }
}

/// A validator outside the equivocators has one latest message, where the
/// equivocations are known and the latest messages are frontiers.
proof fn lemma_honest_single<E>(latest: Map<u32, Seq<Message<E>>>, equivocators: Set<u32>, v: u32)
    requires
        is_frontier_store(latest),
        latest.contains_key(v),
        distinct_ids(latest[v]),
        holds_equivocation(latest[v]) ==> equivocators.contains(v),
        !equivocators.contains(v),
    ensures
        latest[v].len() == 1,
{
    let frontier = latest[v];
    if frontier.len() >= 2 {
        assert(frontier[0].spec_sender() == v && frontier[1].spec_sender() == v);
        assert(!frontier[0].spec_depends(frontier[1]) && !frontier[1].spec_depends(frontier[0]));
        assert(frontier[0].spec_id() != frontier[1].spec_id());
        assert(frontier[0].spec_equivocates(frontier[1]));
        assert(holds_equivocation(frontier));
    }
}

/// The walk from the latest honest messages of a state shows the state.
/// Let the latest messages be frontiers, each message once, with every
/// equivocation among them known, and let the store have taken in every
/// message that they cite. Where no two different messages that they reach
/// share an identifier, the walk from the latest honest messages arrives,
/// for every validator outside the equivocators, at the latest messages
/// that the store holds.
pub proof fn lemma_walk_shows_store<E>(latest: Map<u32, Seq<Message<E>>>, equivocators: Set<u32>)
    requires
        store_collision_free(latest),
        is_frontier_store(latest),
        forall|v: u32| #[trigger] latest.contains_key(v) ==> distinct_ids(latest[v]),
        forall|v: u32|
            latest.contains_key(v) && holds_equivocation(#[trigger] latest[v])
                ==> equivocators.contains(v),
        has_seen_all(latest),
    ensures
        jointly_collision_free(latest_honest(latest, equivocators)),
        agree_outside(traversed(latest_honest(latest, equivocators)), latest, equivocators),
{
    let honest = latest_honest(latest, equivocators);
    let shown = traversed(honest);
    lemma_honest_drawn(sorted_keys(latest), latest, equivocators);
    assert forall|x: Message<E>| #[trigger] reached_from(honest, x) implies store_reaches(
        latest,
        x,
    ) by {
        let i = choose|i: int| 0 <= i < honest.len() && (#[trigger] honest[i]).covers(x);
        let m = honest[i];
        let v = choose|v: u32| #[trigger]
            latest.contains_key(v) && latest[v].len() == 1 && latest[v][0] == m;
        assert(latest[v][0].covers(x));
    }
    assert(jointly_collision_free(honest)) by {
        assert forall|x: Message<E>, y: Message<E>|
            #![trigger reached_from(honest, x), reached_from(honest, y)]
            reached_from(honest, x) && reached_from(honest, y) && x.spec_id()
                == y.spec_id() implies x == y by {
            assert(store_reaches(latest, x) && store_reaches(latest, y));
        }
    }
    lemma_traversed(honest);
    assert forall|v: u32| !equivocators.contains(v) implies (#[trigger] shown.contains_key(v)
        == latest.contains_key(v)) && (shown.contains_key(v) ==> shown[v] == latest[v]) by {
        if shown.contains_key(v) {
            let x = choose|x: Message<E>| #[trigger]
                reached_from(honest, x) && x.spec_sender() == v;
            assert(store_reaches(latest, x));
            assert(settled(latest, x));
        }
        if latest.contains_key(v) {
            lemma_honest_single(latest, equivocators, v);
            let x = latest[v][0];
            lemma_keys_below_hold(latest, 0x1_0000_0000, v);
            lemma_honest_holds(sorted_keys(latest), latest, equivocators, v);
            let at = choose|at: int| 0 <= at < honest.len() && honest[at] == x;
            assert(honest[at].covers(x));
            assert(reached_from(honest, x) && x.spec_sender() == v);
            assert(shown.contains_key(v));
            assert(is_top(honest, v, x)) by {
                assert forall|y: Message<E>| #[trigger]
                    reached_from(honest, y) && y.spec_sender() == v && y.spec_id()
                        != x.spec_id() implies !y.spec_depends(x) by {
                    assert(store_reaches(latest, y));
                    assert(settled(latest, y));
                    let e = choose|e: int|
                        0 <= e < latest[v].len() && ((#[trigger] latest[v][e]).spec_id()
                            == y.spec_id() || latest[v][e].spec_depends(y));
                    assert(x.spec_depends(y));
                    lemma_reached_collision_free(honest, x, y);
                    x.lemma_depends_antisymmetric(y);
                }
            }
            assert(shown[v].contains(x));
            assert forall|k: int| 0 <= k < shown[v].len() implies #[trigger] shown[v][k] == x by {
                let y = shown[v][k];
                assert(shown[v].contains(y));
                assert(is_top(honest, v, y));
                assert(store_reaches(latest, y));
                assert(store_reaches(latest, x));
                assert(settled(latest, y));
                let e = choose|e: int|
                    0 <= e < latest[v].len() && ((#[trigger] latest[v][e]).spec_id()
                        == y.spec_id() || latest[v][e].spec_depends(y));
                if x.spec_id() != y.spec_id() {
                    assert(x.spec_depends(y));
                    assert(false);
                }
            }
            if shown[v].len() >= 2 {
                assert(shown[v][0].spec_id() != shown[v][1].spec_id());
            }
            assert(shown[v] =~= latest[v]);
        }
    }
}

/// The latest honest messages of a state are found again from the
/// justification that cites them. For a state as `lemma_walk_shows_store`
/// asks for it, the justification of the latest honest messages holds
/// exactly them, and the latest honest messages that the walk from it
/// shows are the latest honest messages of the state.
pub proof fn lemma_state_round_trip<E>(latest: Map<u32, Seq<Message<E>>>, equivocators: Set<u32>)
    requires
        store_collision_free(latest),
        is_frontier_store(latest),
        forall|v: u32| #[trigger] latest.contains_key(v) ==> distinct_ids(latest[v]),
        forall|v: u32|
            latest.contains_key(v) && holds_equivocation(#[trigger] latest[v])
                ==> equivocators.contains(v),
        has_seen_all(latest),
    ensures
        justification_of(latest_honest(latest, equivocators)) == latest_honest(
            latest,
            equivocators,
        ),
        latest_honest(
            traversed(justification_of(latest_honest(latest, equivocators))),
            equivocators,
        ) == latest_honest(latest, equivocators),
{
    let honest = latest_honest(latest, equivocators);
    lemma_walk_shows_store(latest, equivocators);
    lemma_honest_drawn(sorted_keys(latest), latest, equivocators);
    lemma_keys_below_increasing(latest, 0x1_0000_0000);
    lemma_honest_increasing(sorted_keys(latest), latest, equivocators);
    assert(distinct_ids(honest)) by {
        assert forall|i: int, j: int| 0 <= i < j < honest.len() implies (
        #[trigger] honest[i]).spec_id() != (#[trigger] honest[j]).spec_id() by {
            let x = honest[i];
            let y = honest[j];
            let v = choose|v: u32| #[trigger]
                latest.contains_key(v) && latest[v].len() == 1 && latest[v][0] == x;
            let w = choose|w: u32| #[trigger]
                latest.contains_key(w) && latest[w].len() == 1 && latest[w][0] == y;
            assert(latest[v][0].covers(x));
            assert(latest[w][0].covers(y));
            assert(store_reaches(latest, x) && store_reaches(latest, y));
            assert(senders_of(honest)[i] < senders_of(honest)[j]);
        }
    }
    lemma_honest_round_trip(latest, equivocators);
}

/// The latest honest messages are found again in the justification that
/// cites them: where these messages have different identifiers, and the
/// walk from them shows for every validator outside the equivocators the
/// latest messages that the store holds, the latest honest messages of
/// what the walk shows are those of the store.
pub proof fn lemma_honest_round_trip<E>(latest: Map<u32, Seq<Message<E>>>, equivocators: Set<u32>)
    requires
        distinct_ids(latest_honest(latest, equivocators)),
        agree_outside(traversed(latest_honest(latest, equivocators)), latest, equivocators),
    ensures
        justification_of(latest_honest(latest, equivocators)) == latest_honest(
            latest,
            equivocators,
        ),
        latest_honest(
            traversed(justification_of(latest_honest(latest, equivocators))),
            equivocators,
        ) == latest_honest(latest, equivocators),
{
    let honest = latest_honest(latest, equivocators);
    lemma_justification_of_distinct(honest);
    lemma_honest_agree(traversed(honest), latest, equivocators);
}

/// The estimate of a message built on a state is found again from its
/// justification alone. Let `msg` cite the latest honest messages of
/// `state` and carry the estimate that the rule derives from them, as a
/// message built on `state` does. Where the latest honest messages have
/// different identifiers, the rule gives the same estimate for the messages
/// of the justification; and where the walk from them shows for every
/// validator outside the equivocators the latest messages of the state, it
/// gives the same estimate for the latest honest messages that the walk shows.
pub proof fn lemma_estimate_reproducible<E: Estimate>(state: StateView<E>, msg: Message<E>)
    requires
        distinct_ids(latest_honest(state.latest, state.equivocators)),
        msg.spec_justification() == justification_of(
            latest_honest(state.latest, state.equivocators),
        ),
        E::estimate_of(latest_honest(state.latest, state.equivocators), state.weights) == Ok::<
            E,
            E::Error,
        >(msg.spec_estimate()),
    ensures
        E::estimate_of(msg.spec_justification(), state.weights) == Ok::<E, E::Error>(
            msg.spec_estimate(),
        ),
        agree_outside(
            traversed(msg.spec_justification()),
            state.latest,
            state.equivocators,
        ) ==> E::estimate_of(
            latest_honest(traversed(msg.spec_justification()), state.equivocators),
            state.weights,
        ) == Ok::<E, E::Error>(msg.spec_estimate()),
{
    let honest = latest_honest(state.latest, state.equivocators);
    lemma_justification_of_distinct(honest);
    if agree_outside(
        traversed(msg.spec_justification()),
        state.latest,
        state.equivocators,
    ) {
        lemma_honest_agree(
            traversed(msg.spec_justification()),
            state.latest,
            state.equivocators,
        );
    }
}

/// No two different messages among those that the latest messages reach
/// and those that `msg` is or cites share an identifier.
pub open spec fn collision_free_beside<E>(latest: Map<u32, Seq<Message<E>>>, msg: Message<E>) -> bool {
    forall|x: Message<E>, y: Message<E>|
        #![trigger store_reaches(latest, x), store_reaches(latest, y)]
        #![trigger store_reaches(latest, x), msg.covers(y)]
        #![trigger msg.covers(x), msg.covers(y)]
        (store_reaches(latest, x) || msg.covers(x)) && (store_reaches(latest, y) || msg.covers(y))
            && x.spec_id() == y.spec_id() ==> x == y
}

/// The store has taken in every message that `msg` cites.
pub open spec fn cited_seen<E>(latest: Map<u32, Seq<Message<E>>>, msg: Message<E>) -> bool {
    forall|c: Message<E>| #[trigger] msg.cites(c) ==> settled(latest, c)
}

/// A state that the walk finds again: the latest messages are frontiers,
/// each message once; every equivocation among them is known; and the
/// state has taken in every message that they cite.
pub open spec fn observed<E>(state: StateView<E>) -> bool {
    &&& is_frontier_store(state.latest)
    &&& forall|v: u32| #[trigger] state.latest.contains_key(v) ==> distinct_ids(state.latest[v])
    &&& equivocations_known(state)
    &&& has_seen_all(state.latest)
}

/// A message that the store has taken in stays taken in when `new` arrives.
proof fn lemma_settled_stays<E>(latest: Map<u32, Seq<Message<E>>>, new: Message<E>, m: Message<E>)
    requires
        collision_free_beside(latest, new),
        settled(latest, m),
    ensures
        settled(updated(latest, new), m),
{
    let sender = new.spec_sender();
    if m.spec_sender() == sender {
        let frontier = latest[sender];
        assert forall|i: int, x: Message<E>|
            0 <= i < frontier.len() && #[trigger] new.cites(x) && x.spec_id() == (
            #[trigger] frontier[i]).spec_id() implies x == frontier[i] by {
            assert(latest[sender][i].covers(frontier[i]));
            assert(store_reaches(latest, frontier[i]));
            assert(new.covers(x));
        }
        lemma_holds_back_stays(frontier, new, m);
    } else {
        assert(updated(latest, new)[m.spec_sender()] == latest[m.spec_sender()]);
    }
}

/// Every message that the latest messages reach once `new` has arrived
/// was reached before, or `new` is it or cites it.
proof fn lemma_updated_reaches<E>(latest: Map<u32, Seq<Message<E>>>, new: Message<E>, m: Message<E>)
    requires
        store_reaches(updated(latest, new), m),
    ensures
        store_reaches(latest, m) || new.covers(m),
{
    let after = updated(latest, new);
    let sender = new.spec_sender();
    let (v, i) = choose|v: u32, i: int|
        after.contains_key(v) && 0 <= i < after[v].len() && (#[trigger] after[v][i]).covers(m);
    if v == sender {
        if latest.contains_key(sender) {
            lemma_updated_frontier_drawn(latest[sender], new);
            if after[v][i] != new {
                let k = choose|k: int| 0 <= k < latest[sender].len() && latest[sender][k] == after[v][i];
                assert(latest[sender][k].covers(m));
            }
        } else {
            assert(after[v][i] == new);
        }
    } else {
        assert(latest[v][i].covers(m));
    }
}

/// A state stays one that the walk finds again when a message is offered
/// that cites only messages that the state has taken in. This is so
/// where no two different messages among those that the state reaches and
/// those that the message is or cites share an identifier; and then none
/// do among the messages that the state reaches afterwards.
pub proof fn lemma_step_observed<E>(state: StateView<E>, msg: Message<E>)
    requires
        observed(state),
        collision_free_beside(state.latest, msg),
        cited_seen(state.latest, msg),
    ensures
        observed(step(state, msg)),
        store_collision_free(step(state, msg).latest),
{
    let next = step(state, msg);
    let latest = state.latest;
    let after = updated(latest, msg);
    lemma_step_equivocators(state, msg);
    lemma_updated_keeps_frontiers(latest, msg);
    assert(store_collision_free(latest));
    assert forall|x: Message<E>, y: Message<E>|
        #![trigger store_reaches(after, x), store_reaches(after, y)]
        store_reaches(after, x) && store_reaches(after, y) && x.spec_id()
            == y.spec_id() implies x == y by {
        lemma_updated_reaches(latest, msg, x);
        lemma_updated_reaches(latest, msg, y);
    }
    assert forall|v: u32| #[trigger] after.contains_key(v) implies distinct_ids(after[v]) by {
        if v == msg.spec_sender() {
            if latest.contains_key(v) {
                lemma_updated_frontier_distinct(latest[v], msg);
            }
        } else {
            assert(latest.contains_key(v));
        }
    }
    assert forall|m: Message<E>| #[trigger] store_reaches(after, m) implies settled(after, m) by {
        lemma_updated_reaches(latest, msg, m);
        if store_reaches(latest, m) {
            lemma_settled_stays(latest, msg, m);
        } else if m == msg {
        } else {
            assert(msg.cites(m));
            lemma_settled_stays(latest, msg, m);
        }
    }
}

/// Each of `msgs` is offered when the state has taken in every message
/// that it cites, and shares no identifier with a different message that
/// the state reaches.
pub open spec fn offered_in_order<E>(state: StateView<E>, msgs: Seq<Message<E>>) -> bool
    decreases msgs.len(),
{
    msgs.len() == 0 || {
        let before = run(state, msgs.drop_last());
        &&& offered_in_order(state, msgs.drop_last())
        &&& cited_seen(before.latest, msgs.last())
        &&& collision_free_beside(before.latest, msgs.last())
    }
}

/// A state stays one that the walk finds again whatever messages are
/// offered, where each is offered after the messages that it cites.
pub proof fn lemma_run_observed<E>(state: StateView<E>, msgs: Seq<Message<E>>)
    requires
        observed(state),
        offered_in_order(state, msgs),
    ensures
        observed(run(state, msgs)),
        msgs.len() > 0 ==> store_collision_free(run(state, msgs).latest),
    decreases msgs.len(),
{
    if msgs.len() > 0 {
        lemma_run_observed(state, msgs.drop_last());
        lemma_step_observed(run(state, msgs.drop_last()), msgs.last());
    }
}

/// The estimate of a message built on a state is found again from its
/// justification alone. Let `state` be as the empty state is and as
/// `lemma_step_observed` keeps it, and let no two different messages that
/// its latest messages reach share an identifier. Where `msg` cites the
/// latest honest messages of `state` and carries the estimate that the
/// rule derives from them, the walk from its justification shows these
/// latest honest messages, and the rule derives the same estimate from them.
pub proof fn lemma_state_estimate_reproducible<E: Estimate>(state: StateView<E>, msg: Message<E>)
    requires
        store_collision_free(state.latest),
        observed(state),
        msg.spec_justification() == justification_of(
            latest_honest(state.latest, state.equivocators),
        ),
        E::estimate_of(latest_honest(state.latest, state.equivocators), state.weights) == Ok::<
            E,
            E::Error,
        >(msg.spec_estimate()),
    ensures
        jointly_collision_free(msg.spec_justification()),
        latest_honest(traversed(msg.spec_justification()), state.equivocators) == latest_honest(
            state.latest,
            state.equivocators,
        ),
        E::estimate_of(
            latest_honest(traversed(msg.spec_justification()), state.equivocators),
            state.weights,
        ) == Ok::<E, E::Error>(msg.spec_estimate()),
{
    lemma_walk_shows_store(state.latest, state.equivocators);
    lemma_state_round_trip(state.latest, state.equivocators);
}

/// The latest honest messages: one of each validator that is not known to
/// equivocate, in the order of the validators.
pub struct LatestMsgsHonest<E> {
    msgs: Vec<Message<E>>,
}

impl<E> View for LatestMsgsHonest<E> {
    type V = Seq<Message<E>>;

    closed spec fn view(&self) -> Seq<Message<E>> {
        self.msgs@
    }
}

impl<E> LatestMsgsHonest<E> {
    /// The messages are in the order of their senders, one of each.
    pub open spec fn wf(&self) -> bool {
        increasing(senders_of(self@))
    }

    /// Leaves out the validators in `equivocators` and those that do not have
    /// exactly one latest message.
    pub fn from_latest_msgs(latest_msgs: &LatestMsgs<E>, equivocators: &HashSet<u32>) -> (honest:
        Self)
        requires
            latest_msgs.wf(),
        ensures
            honest@ == latest_honest(latest_msgs@, equivocators@),
            honest.wf(),
    {
        broadcast use vstd::std_specs::hash::group_hash_axioms;

        let keys = latest_msgs.keys();
        let frontiers = latest_msgs.values();
        let mut msgs: Vec<Message<E>> = Vec::new();
        let mut i: usize = 0;
        while i < keys.len()
            invariant
                i <= keys@.len(),
                latest_msgs.wf(),
                keys@ == sorted_keys(latest_msgs@),
                frontiers@.len() == keys@.len(),
                forall|k: int|
                    0 <= k < frontiers@.len() ==> (#[trigger] frontiers@[k])@
                        == latest_msgs@[keys@[k]],
                msgs@ == honest_of(keys@.take(i as int), latest_msgs@, equivocators@),
                increasing(senders_of(msgs@)),
                forall|a: int|
                    0 <= a < msgs@.len() ==> exists|k: int|
                        0 <= k < i && keys@[k] == (#[trigger] msgs@[a]).spec_sender(),
            decreases keys@.len() - i,
        {
            let ghost before = msgs@;
            proof {
                assert(keys@.take(i + 1).drop_last() =~= keys@.take(i as int));
                latest_msgs.lemma_wf();
                assert(sorted_keys(latest_msgs@).to_set().contains(keys@[i as int]));
                assert(sent_by(latest_msgs@[keys@[i as int]], keys@[i as int]));
            }
            if !equivocators.contains(&keys[i]) && frontiers[i].len() == 1 {
                msgs.push(frontiers[i].get(0).clone());
                proof {
                    assert(msgs@[before.len() as int].spec_sender() == keys@[i as int]);
                    assert forall|a: int, b: int| 0 <= a < b < msgs@.len() implies senders_of(
                        msgs@,
                    )[a] < senders_of(msgs@)[b] by {
                        if b < before.len() {
                            assert(senders_of(before)[a] < senders_of(before)[b]);
                        } else {
                            let k = choose|k: int|
                                0 <= k < i && keys@[k] == (#[trigger] before[a]).spec_sender();
                            assert(keys@[k] < keys@[i as int]);
                        }
                    }
                }
            }
            proof {
                assert forall|a: int| 0 <= a < msgs@.len() implies exists|k: int|
                    0 <= k < i + 1 && keys@[k] == (#[trigger] msgs@[a]).spec_sender() by {
                    if a < before.len() {
                        let k = choose|k: int|
                            0 <= k < i && keys@[k] == (#[trigger] before[a]).spec_sender();
                        assert(keys@[k] == msgs@[a].spec_sender());
                    } else {
                        assert(keys@[i as int] == msgs@[a].spec_sender());
                    }
                }
            }
            i += 1;
        }
        proof {
            assert(keys@.take(keys@.len() as int) =~= keys@);
            latest_msgs.lemma_wf();
        }
        LatestMsgsHonest { msgs }
    }

    /// The number of messages.
    pub fn len(&self) -> (n: usize)
        ensures
            n == self@.len(),
    {
        self.msgs.len()
    }

    /// The messages, in the order of their senders.
    pub fn iter(&self) -> (msgs: &Vec<Message<E>>)
        ensures
            msgs@ == self@,
    {
        &self.msgs
    }
}

impl<E: Estimate> LatestMsgsHonest<E> {
    /// The estimate that the rule of `E` derives from these messages.
    pub fn mk_estimate(&self, senders_weights: &SendersWeight) -> (r: Result<E, E::Error>)
        ensures
            r == E::estimate_of(self@, senders_weights@),
    {
        E::mk_estimate(self, senders_weights)
    }
}

/// Calls `HashSet::clone`: a set with the same elements.
#[verifier::external_body]
fn clone_set(set: &HashSet<u32>) -> (r: HashSet<u32>)
    ensures
        r@ == set@,
{
    set.clone()
}

/// What a validator knows, as mathematical values.
pub struct StateView<E> {
    /// The sum of the weights of the validators admitted as equivocators.
    pub fault_weight: WeightUnit,
    /// The cap on the fault weight.
    pub threshold: WeightUnit,
    /// The weight of each validator.
    pub weights: Map<u32, WeightUnit>,
    /// The last message of the validator itself.
    pub my_last_msg: Option<Message<E>>,
    /// The latest messages of each validator.
    pub latest: Map<u32, Seq<Message<E>>>,
    /// The validators admitted as equivocators.
    pub equivocators: Set<u32>,
}

/// The weight that `weights` gives to `sender`, or infinity where it gives none.
pub open spec fn weight_or_infinity(weights: Map<u32, WeightUnit>, sender: u32) -> WeightUnit {
    if weights.contains_key(sender) {
        weights[sender]
    } else {
        WeightUnit::Infinity
    }
}

/// `msg` is a new equivocation: it equivocates with a latest message and its
/// sender is not among the equivocators yet.
pub open spec fn new_equivocation<E>(state: StateView<E>, msg: Message<E>) -> bool {
    equivocates_with(state.latest, msg) && !state.equivocators.contains(msg.spec_sender())
}

/// The fault weight that would result from admitting the sender of `msg`.
pub open spec fn raised_fault_weight<E>(state: StateView<E>, msg: Message<E>) -> WeightUnit {
    weight_or_infinity(state.weights, msg.spec_sender()).spec_plus(state.fault_weight)
}

/// `msg` is taken in: it is no new equivocation, or the weight of its sender
/// still fits under the threshold.
pub open spec fn admitted<E>(state: StateView<E>, msg: Message<E>) -> bool {
    !new_equivocation(state, msg) || raised_fault_weight(state, msg).spec_le(state.threshold)
}

/// The state once `msg` has been offered: unchanged where `msg` is not taken
/// in; else the latest messages take it in, and where it is a new
/// equivocation its sender joins the equivocators and the fault weight grows
/// by the sender's weight.
pub open spec fn step<E>(state: StateView<E>, msg: Message<E>) -> StateView<E> {
    if !admitted(state, msg) {
        state
    } else if new_equivocation(state, msg) {
        StateView {
            latest: updated(state.latest, msg),
            equivocators: state.equivocators.insert(msg.spec_sender()),
            fault_weight: raised_fault_weight(state, msg),
            ..state
        }
    } else {
        StateView { latest: updated(state.latest, msg), ..state }
    }
}

/// The state once each of `msgs` has been offered, in their order.
pub open spec fn run<E>(state: StateView<E>, msgs: Seq<Message<E>>) -> StateView<E>
    decreases msgs.len(),
{
    if msgs.len() == 0 {
        state
    } else {
        step(run(state, msgs.drop_last()), msgs.last())
    }
}

/// One of `msgs`, offered in their order, is taken in.
pub open spec fn any_admitted<E>(state: StateView<E>, msgs: Seq<Message<E>>) -> bool
    decreases msgs.len(),
{
    if msgs.len() == 0 {
        false
    } else {
        any_admitted(state, msgs.drop_last()) || admitted(
            run(state, msgs.drop_last()),
            msgs.last(),
        )
    }
}

/// The fault weight that taking in `msg` would add: the weight of its sender
/// where `msg` is a new equivocation, and zero otherwise.
pub open spec fn overhead<E>(state: StateView<E>, msg: Message<E>) -> WeightUnit {
    if new_equivocation(state, msg) {
        weight_or_infinity(state.weights, msg.spec_sender())
    } else {
        WeightUnit::Finite(0)
    }
}

/// `a` is offered no later than `b`: its overhead is smaller, or the
/// overheads are equal and its identifier is not the larger one.
pub open spec fn precedes<E>(state: StateView<E>, a: Message<E>, b: Message<E>) -> bool {
    let cost_a = overhead(state, a).rank();
    let cost_b = overhead(state, b).rank();
    cost_a < cost_b || (cost_a == cost_b && !lex_lt(b.spec_id(), a.spec_id()))
}

/// `sorted` with `msg` put behind the last message that precedes it.
pub open spec fn insert_sorted<E>(state: StateView<E>, sorted: Seq<Message<E>>, msg: Message<E>) -> Seq<
    Message<E>,
>
    decreases sorted.len(),
{
    if sorted.len() == 0 || precedes(state, sorted.last(), msg) {
        sorted.push(msg)
    } else {
        insert_sorted(state, sorted.drop_last(), msg).push(sorted.last())
    }
}

/// `msgs` in the order in which they are offered to `state`: by overhead,
/// and by identifier where the overheads are equal.
pub open spec fn sorted_by_faultweight<E>(state: StateView<E>, msgs: Seq<Message<E>>) -> Seq<
    Message<E>,
>
    decreases msgs.len(),
{
    if msgs.len() == 0 {
        Seq::empty()
    } else {
        insert_sorted(state, sorted_by_faultweight(state, msgs.drop_last()), msgs.last())
    }
}

/// Each message of `msgs` precedes the messages behind it.
pub open spec fn in_order<E>(state: StateView<E>, msgs: Seq<Message<E>>) -> bool {
    forall|i: int, j: int|
        0 <= i < j < msgs.len() ==> precedes(state, #[trigger] msgs[i], #[trigger] msgs[j])
}

/// Of any two messages one precedes the other, and preceding is transitive.
pub proof fn lemma_precedes<E>(state: StateView<E>, a: Message<E>, b: Message<E>, c: Message<E>)
    ensures
        precedes(state, a, b) || precedes(state, b, a),
        precedes(state, a, b) && precedes(state, b, c) ==> precedes(state, a, c),
{
    a.lemma_id_len();
    b.lemma_id_len();
    c.lemma_id_len();
    lemma_lex_total(a.spec_id(), b.spec_id());
    lemma_lex_asymmetric(a.spec_id(), b.spec_id());
    lemma_lex_asymmetric(b.spec_id(), c.spec_id());
    lemma_lex_total(a.spec_id(), c.spec_id());
    lemma_lex_total(b.spec_id(), c.spec_id());
    if lex_lt(c.spec_id(), b.spec_id()) && lex_lt(b.spec_id(), a.spec_id()) {
        lemma_lex_transitive(c.spec_id(), b.spec_id(), a.spec_id());
    }
    if lex_lt(c.spec_id(), a.spec_id()) && lex_lt(a.spec_id(), b.spec_id()) {
        lemma_lex_transitive(c.spec_id(), a.spec_id(), b.spec_id());
    }
    if lex_lt(b.spec_id(), c.spec_id()) && lex_lt(c.spec_id(), a.spec_id()) {
        lemma_lex_transitive(b.spec_id(), c.spec_id(), a.spec_id());
    }
}

/// Putting a message into messages that are in order leaves them in order,
/// and adds the message and nothing else.
pub proof fn lemma_insert_sorted<E>(state: StateView<E>, sorted: Seq<Message<E>>, msg: Message<E>)
    requires
        in_order(state, sorted),
    ensures
        in_order(state, insert_sorted(state, sorted, msg)),
        insert_sorted(state, sorted, msg).to_multiset() == sorted.to_multiset().insert(msg),
    decreases sorted.len(),
{
    broadcast use vstd::seq_lib::group_to_multiset_ensures;

    let out = insert_sorted(state, sorted, msg);
    if sorted.len() == 0 || precedes(state, sorted.last(), msg) {
        assert forall|i: int, j: int| 0 <= i < j < out.len() implies precedes(
            state,
            #[trigger] out[i],
            #[trigger] out[j],
        ) by {
            if j == sorted.len() && i < sorted.len() - 1 {
                lemma_precedes(state, sorted[i], sorted.last(), msg);
            }
        }
    } else {
        let rest = sorted.drop_last();
        let last = sorted.last();
        assert(in_order(state, rest)) by {
            assert forall|i: int, j: int| 0 <= i < j < rest.len() implies precedes(
                state,
                #[trigger] rest[i],
                #[trigger] rest[j],
            ) by {
                assert(precedes(state, sorted[i], sorted[j]));
            }
        }
        lemma_insert_sorted(state, rest, msg);
        let inner = insert_sorted(state, rest, msg);
        lemma_precedes(state, last, msg, msg);
        assert(sorted =~= rest.push(last));
        assert forall|i: int, j: int| 0 <= i < j < out.len() implies precedes(
            state,
            #[trigger] out[i],
            #[trigger] out[j],
        ) by {
            if j == inner.len() {
                let e = inner[i];
                assert(inner.to_multiset().count(e) > 0);
                assert(rest.to_multiset().insert(msg).count(e) > 0);
                if e != msg {
                    assert(rest.to_multiset().count(e) > 0);
                    assert(rest.contains(e));
                    let k = choose|k: int| 0 <= k < rest.len() && rest[k] == e;
                    assert(precedes(state, sorted[k], sorted[sorted.len() - 1]));
                }
            } else {
                assert(precedes(state, inner[i], inner[j]));
            }
        }
        assert(out.to_multiset() =~= sorted.to_multiset().insert(msg));
    }
}

/// The order in which messages are offered: the messages themselves, each
/// as often as it was given, and each before the messages that do not
/// precede it.
pub proof fn lemma_sorted_by_faultweight<E>(state: StateView<E>, msgs: Seq<Message<E>>)
    ensures
        in_order(state, sorted_by_faultweight(state, msgs)),
        sorted_by_faultweight(state, msgs).to_multiset() == msgs.to_multiset(),
    decreases msgs.len(),
{
    broadcast use vstd::seq_lib::group_to_multiset_ensures;

    if msgs.len() > 0 {
        lemma_sorted_by_faultweight(state, msgs.drop_last());
        lemma_insert_sorted(state, sorted_by_faultweight(state, msgs.drop_last()), msgs.last());
        assert(msgs =~= msgs.drop_last().push(msgs.last()));
    }
}

/// The messages behind the references.
pub open spec fn referents<E>(msgs: Seq<&Message<E>>) -> Seq<Message<E>> {
    msgs.map_values(|m: &Message<E>| *m)
}

proof fn lemma_insert_sorted_at<E>(
    state: StateView<E>,
    sorted: Seq<Message<E>>,
    msg: Message<E>,
    at: int,
)
    requires
        0 <= at <= sorted.len(),
        forall|k: int| at <= k < sorted.len() ==> !precedes(state, #[trigger] sorted[k], msg),
        at == 0 || precedes(state, sorted[at - 1], msg),
    ensures
        insert_sorted(state, sorted, msg) == sorted.insert(at, msg),
    decreases sorted.len(),
{
    if at == sorted.len() {
        assert(sorted.insert(at, msg) =~= sorted.push(msg));
    } else {
        assert(!precedes(state, sorted[sorted.len() - 1], msg));
        lemma_insert_sorted_at(state, sorted.drop_last(), msg, at);
        assert(sorted.insert(at, msg) =~= sorted.drop_last().insert(at, msg).push(sorted.last()));
    }
}

/// Every message behind `msgs` is free of identifier collisions at and below itself.
pub open spec fn all_referents_collision_free<E>(msgs: Seq<&Message<E>>) -> bool {
    forall|i: int| 0 <= i < msgs.len() ==> (#[trigger] msgs[i]).collision_free()
}

/// The state of a validator: the weights, the latest messages, the
/// equivocators, and the fault weight with its threshold.
pub struct SenderState<E> {
    state_fault_weight: WeightUnit,
    thr: WeightUnit,
    senders_weights: SendersWeight,
    my_last_msg: Option<Message<E>>,
    latest_msgs: LatestMsgs<E>,
    equivocators: HashSet<u32>,
}

impl<E> View for SenderState<E> {
    type V = StateView<E>;

    closed spec fn view(&self) -> StateView<E> {
        StateView {
            fault_weight: self.state_fault_weight,
            threshold: self.thr,
            weights: self.senders_weights@,
            my_last_msg: self.my_last_msg,
            latest: self.latest_msgs@,
            equivocators: self.equivocators@,
        }
    }
}

impl<E> SenderState<E> {
    /// The latest messages are well formed.
    pub closed spec fn wf(&self) -> bool {
        self.latest_msgs.wf()
    }

    /// No two different messages at or below a latest message share an identifier.
    pub closed spec fn collision_free(&self) -> bool {
        self.latest_msgs.collision_free()
    }

    /// The state with the given parts.
    pub fn new(
        senders_weights: SendersWeight,
        state_fault_weight: WeightUnit,
        my_last_msg: Option<Message<E>>,
        latest_msgs: LatestMsgs<E>,
        thr: WeightUnit,
        equivocators: HashSet<u32>,
    ) -> (state: Self)
        requires
            latest_msgs.wf(),
        ensures
            state.wf(),
            state@ == (StateView {
                fault_weight: state_fault_weight,
                threshold: thr,
                weights: senders_weights@,
                my_last_msg: my_last_msg,
                latest: latest_msgs@,
                equivocators: equivocators@,
            }),
            state.collision_free() == latest_msgs.collision_free(),
    {
        SenderState {
            senders_weights,
            equivocators,
            state_fault_weight,
            thr,
            my_last_msg,
            latest_msgs,
        }
    }

    /// A state with the same parts.
    pub fn clone(&self) -> (state: Self)
        requires
            self.wf(),
        ensures
            state.wf(),
            state@ == self@,
            state.collision_free() == self.collision_free(),
    {
        let my_last_msg = match &self.my_last_msg {
            Some(m) => Some(m.clone()),
            None => None,
        };
        SenderState {
            state_fault_weight: self.state_fault_weight,
            thr: self.thr,
            senders_weights: self.senders_weights.clone(),
            my_last_msg,
            latest_msgs: self.latest_msgs.clone(),
            equivocators: clone_set(&self.equivocators),
        }
    }

    /// The validators admitted as equivocators.
    pub fn equivocators(&self) -> (r: &HashSet<u32>)
        ensures
            r@ == self@.equivocators,
    {
        &self.equivocators
    }

    /// The weights of the validators.
    pub fn senders_weights(&self) -> (r: &SendersWeight)
        ensures
            r@ == self@.weights,
    {
        &self.senders_weights
    }

    /// Replaces the weights of the validators.
    pub fn set_senders_weights(&mut self, weights: SendersWeight)
        ensures
            final(self)@ == (StateView { weights: weights@, ..old(self)@ }),
            final(self).wf() == old(self).wf(),
            final(self).collision_free() == old(self).collision_free(),
    {
        self.senders_weights = weights;
    }

    /// The last message of the validator itself.
    pub fn my_last_msg(&self) -> (r: &Option<Message<E>>)
        ensures
            *r == self@.my_last_msg,
    {
        &self.my_last_msg
    }

    /// The latest messages.
    pub fn latests_msgs(&self) -> (r: &LatestMsgs<E>)
        ensures
            r@ == self@.latest,
            r.wf() == self.wf(),
            r.collision_free() == self.collision_free(),
    {
        &self.latest_msgs
    }

    /// Whether the state is well formed: what a caller that changed the
    /// latest messages in place can test before it goes on.
    pub fn is_well_formed(&self) -> (r: bool)
        ensures
            r == self.wf(),
    {
        self.latest_msgs.is_well_formed()
    }

    /// The latest messages, to change them in place.
    pub fn latests_msgs_as_mut(&mut self) -> (r: &mut LatestMsgs<E>)
        ensures
            r@ == old(self)@.latest,
            r.wf() == old(self).wf(),
            r.collision_free() == old(self).collision_free(),
            final(self)@ == (StateView { latest: final(r)@, ..old(self)@ }),
            final(self).wf() == final(r).wf(),
            final(self).collision_free() == final(r).collision_free(),
    {
        &mut self.latest_msgs
    }

    /// The fault weight.
    pub fn fault_weight(&self) -> (r: WeightUnit)
        ensures
            r == self@.fault_weight,
    {
        self.state_fault_weight
    }

    /// The threshold of the fault weight.
    pub fn threshold(&self) -> (r: WeightUnit)
        ensures
            r == self@.threshold,
    {
        self.thr
    }

    /// Replaces the fault weight.
    pub fn set_fault_weight(&mut self, fault_weight: WeightUnit)
        ensures
            final(self)@ == (StateView { fault_weight: fault_weight, ..old(self)@ }),
            final(self).wf() == old(self).wf(),
            final(self).collision_free() == old(self).collision_free(),
    {
        self.state_fault_weight = fault_weight;
    }

    /// Replaces the threshold.
    pub fn set_threshold(&mut self, thresh: WeightUnit)
        ensures
            final(self)@ == (StateView { threshold: thresh, ..old(self)@ }),
            final(self).wf() == old(self).wf(),
            final(self).collision_free() == old(self).collision_free(),
    {
        self.thr = thresh;
    }

    /// The fault weight that taking in `msg` would add.
    fn overhead(&self, msg: &Message<E>) -> (r: WeightUnit)
        requires
            self.wf(),
        ensures
            self.collision_free() && msg.collision_free() ==> r == overhead(self@, *msg),
    {
        broadcast use vstd::std_specs::hash::group_hash_axioms;

        let sender = *msg.sender();
        if !self.equivocators.contains(&sender) && self.latest_msgs.equivocate(msg) {
            match self.senders_weights.weight(sender) {
                Ok(w) => w,
                Err(_) => WeightUnit::Infinity,
            }
        } else {
            WeightUnit::Finite(0)
        }
    }

    /// `msgs` in the order in which `update` offers them: by the fault
    /// weight that each would add, and by identifier where that is equal.
    ///
    /// What is stated of the outcome holds where no two different messages at
    /// or below one of `msgs` or a latest message share an identifier.
    pub fn sort_by_faultweight<'z>(&self, msgs: &[&'z Message<E>]) -> (sorted: Vec<&'z Message<E>>)
        requires
            self.wf(),
        ensures
            sorted@.len() == msgs@.len(),
            forall|i: int| 0 <= i < sorted@.len() ==> msgs@.contains(#[trigger] sorted@[i]),
            self.collision_free() && all_referents_collision_free(msgs@) ==> referents(sorted@)
                == sorted_by_faultweight(self@, referents(msgs@)),
    {
        let ghost exact = self.collision_free() && all_referents_collision_free(msgs@);
        let ghost given = referents(msgs@);
        let mut sorted: Vec<&'z Message<E>> = Vec::new();
        let mut costs: Vec<WeightUnit> = Vec::new();
        let mut i: usize = 0;
        while i < msgs.len()
            invariant
                self.wf(),
                i <= msgs@.len(),
                given == referents(msgs@),
                exact == (self.collision_free() && all_referents_collision_free(msgs@)),
                sorted@.len() == i,
                costs@.len() == i,
                forall|k: int| 0 <= k < i ==> msgs@.contains(#[trigger] sorted@[k]),
                exact ==> forall|k: int|
                    0 <= k < i ==> #[trigger] costs@[k] == overhead(self@, *sorted@[k]),
                exact ==> referents(sorted@) == sorted_by_faultweight(self@, given.take(i as int)),
            decreases msgs@.len() - i,
        {
            let msg = msgs[i];
            let cost = self.overhead(msg);
            let id = msg.id();
            let ghost before = referents(sorted@);
            let mut at: usize = sorted.len();
            while at > 0 && (cost.ranks_below(costs[at - 1]) || (!costs[at - 1].ranks_below(cost)
                && id.lt(&sorted[at - 1].id())))
                invariant
                    at <= sorted@.len(),
                    sorted@.len() == costs@.len(),
                    before == referents(sorted@),
                    id@ == msg.spec_id(),
                    exact ==> cost == overhead(self@, *msg),
                    exact ==> forall|k: int|
                        0 <= k < costs@.len() ==> #[trigger] costs@[k] == overhead(
                            self@,
                            *sorted@[k],
                        ),
                    exact ==> forall|k: int|
                        at <= k < before.len() ==> !precedes(self@, #[trigger] before[k], *msg),
                decreases at,
            {
                at -= 1;
            }
            proof {
                assert(msgs@.contains(msg));
                assert(given.take(i + 1).drop_last() =~= given.take(i as int));
                assert(given.take(i + 1).last() == *msg);
                if exact {
                    lemma_insert_sorted_at(self@, before, *msg, at as int);
                }
            }
            sorted.insert(at, msg);
            costs.insert(at, cost);
            proof {
                assert(referents(sorted@) =~= before.insert(at as int, *msg));
            }
            i += 1;
        }
        proof {
            assert(given.take(msgs@.len() as int) =~= given);
        }
        sorted
    }

    /// Offers each of `msgs` to the state, in the order of
    /// `sort_by_faultweight`; returns whether one of them was taken in.
    ///
    /// What is stated of the outcome holds where no two different messages at
    /// or below one of `msgs` or a latest message share an identifier.
    pub fn update(&mut self, msgs: &[&Message<E>]) -> (taken: bool)
        requires
            old(self).wf(),
        ensures
            final(self).wf(),
            old(self).collision_free() && all_referents_collision_free(msgs@) ==> {
                let offered = sorted_by_faultweight(old(self)@, referents(msgs@));
                &&& final(self)@ == run(old(self)@, offered)
                &&& taken == any_admitted(old(self)@, offered)
                &&& final(self).collision_free()
            },
    {
        let ghost exact = old(self).collision_free() && all_referents_collision_free(msgs@);
        let sorted = self.sort_by_faultweight(msgs);
        let ghost offered = referents(sorted@);
        let mut taken = false;
        let mut i: usize = 0;
        while i < sorted.len()
            invariant
                self.wf(),
                i <= sorted@.len(),
                offered == referents(sorted@),
                forall|k: int| 0 <= k < sorted@.len() ==> msgs@.contains(#[trigger] sorted@[k]),
                exact ==> all_referents_collision_free(msgs@),
                exact ==> self.collision_free(),
                exact ==> self@ == run(old(self)@, offered.take(i as int)),
                exact ==> taken == any_admitted(old(self)@, offered.take(i as int)),
            decreases sorted@.len() - i,
        {
            proof {
                assert(offered.take(i + 1).drop_last() =~= offered.take(i as int));
                assert(msgs@.contains(sorted@[i as int]));
            }
            let one = self.take_in(sorted[i]);
            taken = taken || one;
            i += 1;
        }
        proof {
            assert(offered.take(sorted@.len() as int) =~= offered);
        }
        taken
    }

    /// Whether `msg` would be taken in, whether it is a new equivocation, and
    /// the fault weight that admitting its sender would give.
    fn decide(&self, msg: &Message<E>) -> (r: (bool, bool, WeightUnit))
        requires
            self.wf(),
        ensures
            r.2 == raised_fault_weight(self@, *msg),
            self.collision_free() && msg.collision_free() ==> r.0 == admitted(self@, *msg) && r.1
                == new_equivocation(self@, *msg),
    {
        broadcast use vstd::std_specs::hash::group_hash_axioms;

        let sender = *msg.sender();
        let sender_weight = match self.senders_weights.weight(sender) {
            Ok(w) => w,
            Err(_) => WeightUnit::Infinity,
        };
        let raised = sender_weight.plus(self.state_fault_weight);
        let fresh = !self.equivocators.contains(&sender) && self.latest_msgs.equivocate(msg);
        (!fresh || raised.le(self.thr), fresh, raised)
    }

    /// Takes in `msg`, which `decide` has admitted.
    fn apply(&mut self, msg: &Message<E>, fresh: bool, raised: WeightUnit)
        requires
            old(self).wf(),
        ensures
            final(self).wf(),
            old(self).collision_free() && msg.collision_free() ==> {
                &&& final(self).collision_free()
                &&& final(self)@ == if fresh {
                    StateView {
                        latest: updated(old(self)@.latest, *msg),
                        equivocators: old(self)@.equivocators.insert(msg.spec_sender()),
                        fault_weight: raised,
                        ..old(self)@
                    }
                } else {
                    StateView { latest: updated(old(self)@.latest, *msg), ..old(self)@ }
                }
            },
    {
        broadcast use vstd::std_specs::hash::group_hash_axioms;

        self.latest_msgs.update(msg);
        if fresh {
            self.equivocators.insert(*msg.sender());
            self.state_fault_weight = raised;
        }
    }

    /// Offers `msg` to the state; returns whether it was taken in.
    ///
    /// What is stated of the outcome holds where no two different messages at
    /// or below `msg` or a latest message share an identifier.
    pub fn take_in(&mut self, msg: &Message<E>) -> (taken: bool)
        requires
            old(self).wf(),
        ensures
            final(self).wf(),
            old(self).collision_free() && msg.collision_free() ==> {
                &&& final(self)@ == step(old(self)@, *msg)
                &&& taken == admitted(old(self)@, *msg)
                &&& final(self).collision_free()
            },
    {
        let (accept, fresh, raised) = self.decide(msg);
        if accept {
            self.apply(msg, fresh, raised);
        }
        accept
    }

    /// The state once the sender of `msg` has been slashed where `msg` is an
    /// equivocation: the sender joins the equivocators and its weight becomes
    /// zero. The message is taken in whatever the fault weight.
    pub open spec fn slashed(state: StateView<E>, msg: Message<E>) -> StateView<E> {
        if equivocates_with(state.latest, msg) {
            StateView {
                latest: updated(state.latest, msg),
                equivocators: state.equivocators.insert(msg.spec_sender()),
                weights: state.weights.insert(msg.spec_sender(), WeightUnit::Finite(0)),
                ..state
            }
        } else {
            StateView { latest: updated(state.latest, msg), ..state }
        }
    }

    /// Takes in `msg` whatever the fault weight, and slashes its sender where
    /// `msg` equivocates with a latest message.
    pub fn take_in_with_slash(&mut self, msg: &Message<E>)
        requires
            old(self).wf(),
        ensures
            final(self).wf(),
            old(self).collision_free() && msg.collision_free() ==> {
                &&& final(self)@ == Self::slashed(old(self)@, *msg)
                &&& final(self).collision_free()
            },
    {
        broadcast use vstd::std_specs::hash::group_hash_axioms;

        if self.latest_msgs.equivocate(msg) {
            let sender = *msg.sender();
            self.equivocators.insert(sender);
            self.senders_weights.insert(sender, WeightUnit::Finite(0));
        }
        self.latest_msgs.update(msg);
    }
}

/// The outcome of offering `msg` to a justification and a state together:
/// the message joins the justification where the state admits it and the
/// justification does not hold it yet, and only then does the state take it in.
pub open spec fn faulty_inserted<E>(
    justification: Seq<Message<E>>,
    state: StateView<E>,
    msg: Message<E>,
) -> (bool, Seq<Message<E>>, StateView<E>) {
    if admitted(state, msg) && !holds_id(justification, msg.spec_id()) {
        (true, justification.push(msg), step(state, msg))
    } else {
        (false, justification, state)
    }
}

/// The outcome of offering each of `msgs` in turn; the flag says whether one
/// of them joined the justification.
pub open spec fn faulty_inserted_all<E>(
    justification: Seq<Message<E>>,
    state: StateView<E>,
    msgs: Seq<Message<E>>,
) -> (bool, Seq<Message<E>>, StateView<E>)
    decreases msgs.len(),
{
    if msgs.len() == 0 {
        (false, justification, state)
    } else {
        let before = faulty_inserted_all(justification, state, msgs.drop_last());
        let last = faulty_inserted(before.1, before.2, msgs.last());
        (before.0 || last.0, last.1, last.2)
    }
}

impl<E> Justification<E> {
    /// Offers `msg` to the justification and to a copy of `sender_state`:
    /// the message joins the justification where the state admits it under
    /// its fault-weight threshold and the justification does not hold it
    /// yet; the state that is returned has then taken it in.
    ///
    /// What is stated of the outcome holds where no two different messages at
    /// or below `msg` or a latest message of the state share an identifier.
    pub fn faulty_insert(&mut self, msg: &Message<E>, sender_state: &SenderState<E>) -> (r: (
        bool,
        SenderState<E>,
    ))
        requires
            sender_state.wf(),
        ensures
            r.1.wf(),
            old(self).wf() ==> final(self).wf(),
            sender_state.collision_free() && msg.collision_free() ==> {
                let outcome = faulty_inserted(old(self)@, sender_state@, *msg);
                &&& r.0 == outcome.0
                &&& final(self)@ == outcome.1
                &&& r.1@ == outcome.2
                &&& r.1.collision_free()
            },
    {
        let mut state = sender_state.clone();
        let (accept, fresh, raised) = state.decide(msg);
        if accept {
            let success = self.insert(msg.clone());
            if success {
                state.apply(msg, fresh, raised);
            }
            (success, state)
        } else {
            (false, state)
        }
    }

    /// Offers each of `msgs` in turn, in the order in which `sender_state`
    /// sorts them by fault weight; returns whether one of them joined the
    /// justification, and the state after the last.
    ///
    /// What is stated of the outcome holds where no two different messages at
    /// or below one of `msgs` or a latest message of the state share an identifier.
    pub fn faulty_inserts(&mut self, msgs: &[&Message<E>], sender_state: &SenderState<E>) -> (r: (
        bool,
        SenderState<E>,
    ))
        requires
            sender_state.wf(),
        ensures
            r.1.wf(),
            old(self).wf() ==> final(self).wf(),
            sender_state.collision_free() && all_referents_collision_free(msgs@) ==> {
                let outcome = faulty_inserted_all(
                    old(self)@,
                    sender_state@,
                    sorted_by_faultweight(sender_state@, referents(msgs@)),
                );
                &&& r.0 == outcome.0
                &&& final(self)@ == outcome.1
                &&& r.1@ == outcome.2
                &&& r.1.collision_free()
            },
    {
        let ghost exact = sender_state.collision_free() && all_referents_collision_free(msgs@);
        let sorted = sender_state.sort_by_faultweight(msgs);
        let ghost offered = referents(sorted@);
        let mut state = sender_state.clone();
        let mut success = false;
        let mut i: usize = 0;
        while i < sorted.len()
            invariant
                state.wf(),
                old(self).wf() ==> self.wf(),
                i <= sorted@.len(),
                offered == referents(sorted@),
                forall|k: int| 0 <= k < sorted@.len() ==> msgs@.contains(#[trigger] sorted@[k]),
                exact ==> all_referents_collision_free(msgs@),
                exact ==> state.collision_free(),
                exact ==> (success, self@, state@) == faulty_inserted_all(
                    old(self)@,
                    sender_state@,
                    offered.take(i as int),
                ),
            decreases sorted@.len() - i,
        {
            proof {
                assert(offered.take(i + 1).drop_last() =~= offered.take(i as int));
                assert(msgs@.contains(sorted@[i as int]));
            }
            let (one, next) = self.faulty_insert(sorted[i], &state);
            success = success || one;
            state = next;
            i += 1;
        }
        proof {
            assert(offered.take(sorted@.len() as int) =~= offered);
        }
        (success, state)
    }

    /// The justification that results from offering `msgs` to the empty
    /// justification and `sender_state`, and the state after the last.
    pub fn from_msgs(msgs: Vec<Message<E>>, sender_state: &SenderState<E>) -> (r: (
        Self,
        SenderState<E>,
    ))
        requires
            sender_state.wf(),
        ensures
            r.0.wf(),
            r.1.wf(),
            sender_state.collision_free() && all_collision_free(msgs@) ==> {
                let outcome = faulty_inserted_all(
                    Seq::empty(),
                    sender_state@,
                    sorted_by_faultweight(sender_state@, msgs@),
                );
                &&& r.0@ == outcome.1
                &&& r.1@ == outcome.2
            },
    {
        let mut refs: Vec<&Message<E>> = Vec::new();
        let mut i: usize = 0;
        while i < msgs.len()
            invariant
                i <= msgs@.len(),
                refs@.len() == i,
                referents(refs@) == msgs@.take(i as int),
            decreases msgs@.len() - i,
        {
            let ghost before = refs@;
            refs.push(&msgs[i]);
            proof {
                assert forall|k: int| 0 <= k < i + 1 implies referents(refs@)[k] == msgs@.take(
                    i + 1,
                )[k] by {
                    if k < i {
                        assert(referents(before)[k] == msgs@.take(i as int)[k]);
                        assert(refs@[k] == before[k]);
                    }
                }
                assert(referents(refs@) =~= msgs@.take(i + 1));
            }
            i += 1;
        }
        proof {
            assert(msgs@.take(msgs@.len() as int) =~= msgs@);
            if all_collision_free(msgs@) {
                assert forall|k: int| 0 <= k < refs@.len() implies (
                #[trigger] refs@[k]).collision_free() by {
                    assert(referents(refs@)[k] == msgs@[k]);
                }
            }
        }
        let mut j = Justification::new();
        let (_, state) = j.faulty_inserts(refs.as_slice(), sender_state);
        (j, state)
    }

    /// Offers `msg` whatever the fault weight: where it equivocates with a
    /// latest message, its sender joins the equivocators and its weight
    /// becomes zero. Returns whether `msg` joined the justification.
    ///
    /// What is stated of the state holds where no two different messages at
    /// or below `msg` or a latest message of the state share an identifier.
    pub fn faulty_insert_with_slash(&mut self, msg: &Message<E>, sender_state: SenderState<E>) -> (r:
        (bool, SenderState<E>))
        requires
            sender_state.wf(),
        ensures
            r.1.wf(),
            old(self).wf() ==> final(self).wf(),
            r.0 == !holds_id(old(self)@, msg.spec_id()),
            final(self)@ == if r.0 {
                old(self)@.push(*msg)
            } else {
                old(self)@
            },
            sender_state.collision_free() && msg.collision_free() ==> {
                &&& r.1@ == SenderState::slashed(sender_state@, *msg)
                &&& r.1.collision_free()
            },
    {
        let mut state = sender_state;
        state.take_in_with_slash(msg);
        let success = self.insert(msg.clone());
        (success, state)
    }
}

impl<E: Estimate> Justification<E> {
    /// The estimate that the rule of `E` derives from the latest honest
    /// messages that the justification shows.
    ///
    /// What is stated of the outcome holds where no two different messages
    /// that the justification reaches share an identifier.
    pub fn mk_estimate(&self, equivocators: &HashSet<u32>, senders_weights: &SendersWeight) -> (r:
        Result<E, E::Error>)
        ensures
            jointly_collision_free(self@) ==> r == E::estimate_of(
                latest_honest(traversed(self@), equivocators@),
                senders_weights@,
            ),
    {
        let latest_msgs = LatestMsgs::from_justification(self);
        let latest_msgs_honest = LatestMsgsHonest::from_latest_msgs(&latest_msgs, equivocators);
        E::mk_estimate(&latest_msgs_honest, senders_weights)
    }
}

} // verus!
