//! Messages: immutable, content-addressed nodes of the justification DAG.

use crate::justification::all_collision_free;
use crate::justification::all_well_formed;
use crate::justification::lemma_built_on_well_formed;
use crate::justification::distinct_ids;
use crate::justification::latest_honest;
use crate::justification::justification_of;
use crate::justification::Justification;
use crate::justification::LatestMsgsHonest;
use crate::justification::SenderState;
use crate::traits::Deserialize;
use crate::traits::Estimate;
use crate::traits::Id;
use crate::traits::MalleableEncoding;
use crate::traits::Serialize;
use crate::util::cancel::Cancel;
use crate::util::cancel::Never;
use crate::util::codec::be32;
use crate::util::codec::be64;
use crate::util::codec::from_be32;
use crate::util::codec::from_be64;
use crate::util::codec::get_be32;
use crate::util::codec::get_be64;
use crate::util::codec::lemma_be32_inverse;
use crate::util::codec::lemma_be64_inverse;
use crate::util::codec::put_be32;
use crate::util::codec::put_be64;
use crate::util::codec::put_bytes;
use crate::util::handle::share;
use crate::util::hash;
use rayon::iter::ParallelIterator;
use std::collections::HashSet;
use std::sync::Arc;
use vstd::prelude::*;
use vstd::std_specs::cmp::PartialEqSpecImpl;

verus! {

/// Why no message could be made from a state.
#[derive(Debug)]
pub enum Error<E> {
    /// The rule of the estimate failed.
    Estimator(E),
    /// There is no latest honest message to build on.
    NoNewMessage,
}

/// The payload of a message.
#[derive(Debug)]
struct ProtoMessage<E> {
    estimate: E,
    sender: u32,
    justification: Justification<E>,
}

/// A message: the estimate of a validator, justified by earlier messages.
/// The payload is shared between all handles; the identifier is computed once.
#[derive(Debug)]
pub struct Message<E> {
    proto: Arc<ProtoMessage<E>>,
    id: hash::Hash,
}

/// The bytes of all `parts`, one after the other.
pub open spec fn concat(parts: Seq<Seq<u8>>) -> Seq<u8>
    decreases parts.len(),
{
    if parts.len() == 0 {
        Seq::empty()
    } else {
        concat(parts.drop_last()) + parts.last()
    }
}

/// The canonical bytes of a message: the sender, big-endian; the length of the
/// estimate's canonical bytes and those bytes; the number of justifying
/// messages and their identifiers, in the order of the justification.
pub open spec fn message_encoding(sender: u32, estimate: Seq<u8>, ids: Seq<Seq<u8>>) -> Seq<u8> {
    be32(sender) + be64(estimate.len() as u64) + estimate + be64(ids.len() as u64) + concat(ids)
}

impl<E> Message<E> {
    /// The validator that sent the message.
    pub closed spec fn spec_sender(self) -> u32 {
        self.proto.sender
    }

    /// The estimate that the message carries.
    pub closed spec fn spec_estimate(self) -> E {
        self.proto.estimate
    }

    /// The messages that the message cites directly.
    pub closed spec fn spec_justification(self) -> Seq<Message<E>> {
        self.proto.justification@
    }

    /// The bytes of the identifier.
    pub closed spec fn spec_id(self) -> Seq<u8> {
        self.id@
    }

    /// Every identifier has 64 bytes.
    pub proof fn lemma_id_len(self)
        ensures
            self.spec_id().len() == 64,
    {
        self.id.lemma_len();
    }

    /// The identifiers of the messages that the message cites directly.
    pub open spec fn cited_ids(self) -> Seq<Seq<u8>> {
        self.spec_justification().map_values(|m: Message<E>| m.spec_id())
    }

    /// `m` occurs in the justification of the message, directly or through
    /// the justification of a message that does.
    pub open spec fn cites(self, m: Message<E>) -> bool
        decreases self,
    {
        exists|i: int|
            0 <= i < self.spec_justification().len() && (#[trigger] self.spec_justification()[i]
                == m || self.spec_justification()[i].cites(m))
    }

    /// The message depends on `other`: it cites a message with the identifier of `other`.
    pub open spec fn spec_depends(self, other: Message<E>) -> bool {
        exists|m: Message<E>| #[trigger] self.cites(m) && m.spec_id() == other.spec_id()
    }

    /// The two messages are an equivocation: different messages of one sender,
    /// neither of which depends on the other.
    pub open spec fn spec_equivocates(self, other: Message<E>) -> bool {
        &&& self.spec_id() != other.spec_id()
        &&& self.spec_sender() == other.spec_sender()
        &&& !other.spec_depends(self)
        &&& !self.spec_depends(other)
    }

    /// The message and everything it cites.
    pub open spec fn covers(self, m: Message<E>) -> bool {
        m == self || self.cites(m)
    }

    /// No two different messages among the message and those it cites have
    /// the same identifier.
    pub open spec fn collision_free(self) -> bool {
        forall|x: Message<E>, y: Message<E>|
            #![trigger self.covers(x), self.covers(y)]
            self.covers(x) && self.covers(y) && x.spec_id() == y.spec_id() ==> x == y
    }

    /// The validator that sent the message.
    pub fn sender(&self) -> (s: &u32)
        ensures
            *s == self.spec_sender(),
    {
        &self.proto.sender
    }

    /// The estimate that the message carries.
    pub fn estimate(&self) -> (e: &E)
        ensures
            *e == self.spec_estimate(),
    {
        &self.proto.estimate
    }

    /// The messages that the message cites directly.
    pub fn justification(&self) -> (j: &Justification<E>)
        ensures
            j@ == self.spec_justification(),
    {
        &self.proto.justification
    }

    /// The identifier of the message.
    pub fn id(&self) -> (id: hash::Hash)
        ensures
            id@ == self.spec_id(),
    {
        self.id
    }

    /// Whether the two messages have the same identifier.
    pub fn eq(&self, other: &Message<E>) -> (r: bool)
        ensures
            r == (self.spec_id() == other.spec_id()),
    {
        self.id.eq(&other.id)
    }

    /// The number of messages in the tree of citations below and including
    /// the message, each counted as often as it is cited.
    pub open spec fn size(self) -> nat
        decreases self, 1nat, 0nat,
    {
        1 + self.size_below(self.spec_justification().len())
    }

    /// The sizes of the first `n` messages that the message cites directly.
    pub open spec fn size_below(self, n: nat) -> nat
        decreases self, 0nat, n,
    {
        if n == 0 || n > self.spec_justification().len() {
            0
        } else {
            self.size_below((n - 1) as nat) + self.spec_justification()[n - 1].size()
        }
    }

    /// Where a message has no collisions below it, none of the messages that
    /// it cites has.
    pub proof fn lemma_cited_collision_free(self, i: int)
        requires
            self.collision_free(),
            0 <= i < self.spec_justification().len(),
        ensures
            self.spec_justification()[i].collision_free(),
    {
        let c = self.spec_justification()[i];
        assert(self.cites(c));
        assert forall|x: Message<E>, y: Message<E>|
            #![trigger c.covers(x), c.covers(y)]
            c.covers(x) && c.covers(y) && x.spec_id() == y.spec_id() implies x == y by {
            if x != c {
                self.lemma_cites_transitive(c, x);
            }
            if y != c {
                self.lemma_cites_transitive(c, y);
            }
            assert(self.covers(x) && self.covers(y));
        }
    }

    /// A cited message is smaller than the one that cites it.
    pub proof fn lemma_cited_decreases(self, i: int)
        requires
            0 <= i < self.spec_justification().len(),
        ensures
            decreases_to!(self => self.spec_justification()[i]),
    {
    }
}

impl<E: Estimate> Serialize for Message<E> {
    /// The canonical bytes of the message.
    open spec fn encoding(&self) -> Seq<u8> {
        message_encoding(self.spec_sender(), self.spec_estimate().encoding(), self.cited_ids())
    }

    fn serialize(&self) -> (bin: Vec<u8>) {
        encode(*self.sender(), self.estimate(), self.justification())
    }
}

impl<E: Estimate> Id for Message<E> {
    type ID = hash::Hash;

    /// Messages are identified by the digest that their estimates use.
    open spec fn digest(data: Seq<u8>) -> hash::Hash {
        E::digest(data)
    }

    fn hash(data: &[u8]) -> (id: hash::Hash) {
        E::hash(data)
    }

}

/// Writes the canonical bytes of a message with the given parts.
fn encode<E: Estimate>(sender: u32, estimate: &E, justification: &Justification<E>) -> (bin: Vec<
    u8,
>)
    ensures
        bin@ == message_encoding(
            sender,
            estimate.encoding(),
            justification@.map_values(|m: Message<E>| m.spec_id()),
        ),
{
    let mut bin: Vec<u8> = Vec::new();
    put_be32(&mut bin, sender);
    let estimate_bytes = estimate.serialize();
    put_be64(&mut bin, estimate_bytes.len() as u64);
    put_bytes(&mut bin, estimate_bytes.as_slice());
    put_be64(&mut bin, justification.len() as u64);
    let ghost head = bin@;
    let ghost ids = justification@.map_values(|m: Message<E>| m.spec_id());
    let mut i: usize = 0;
    while i < justification.len()
        invariant
            i <= justification@.len(),
            ids == justification@.map_values(|m: Message<E>| m.spec_id()),
            bin@ == head + concat(ids.take(i as int)),
        decreases justification@.len() - i,
    {
        let id = justification.get(i).id().to_vec();
        put_bytes(&mut bin, id.as_slice());
        proof {
            assert(ids.take(i + 1).drop_last() =~= ids.take(i as int));
            assert(bin@ =~= head + concat(ids.take(i + 1)));
        }
        i += 1;
    }
    proof {
        assert(ids.take(ids.len() as int) =~= ids);
        assert(bin@ =~= message_encoding(sender, estimate.encoding(), ids));
    }
    bin
}

impl<E: Estimate> Message<E> {
    /// The identifier is the digest of the canonical bytes.
    pub open spec fn identified(self) -> bool {
        self.spec_id() == E::digest(self.encoding())@
    }

    /// The message is a well-formed node of the DAG: its identifier is the
    /// digest of its canonical bytes, it cites no message twice, and the
    /// messages that it cites are well formed.
    pub open spec fn well_formed(self) -> bool
        decreases self,
    {
        &&& self.identified()
        &&& distinct_ids(self.spec_justification())
        &&& forall|i: int|
            0 <= i < self.spec_justification().len() ==> (
            #[trigger] self.spec_justification()[i]).well_formed()
    }

    /// Every message that a well-formed message covers is well formed.
    pub proof fn lemma_covered_well_formed(self, m: Message<E>)
        requires
            self.well_formed(),
            self.covers(m),
        ensures
            m.well_formed(),
        decreases self,
    {
        if m != self {
            let i = choose|i: int|
                0 <= i < self.spec_justification().len() && (#[trigger] self.spec_justification()[i]
                    == m || self.spec_justification()[i].cites(m));
            self.spec_justification()[i].lemma_covered_well_formed(m);
        }
    }

    /// The message of `sender` that carries `estimate` and cites `justification`.
    /// Its identifier is the digest of its canonical bytes, which hold the
    /// sender, the estimate and the identifiers of the cited messages.
    pub fn new(sender: u32, justification: Justification<E>, estimate: E) -> (m: Self)
        ensures
            m.spec_sender() == sender,
            m.spec_estimate() == estimate,
            m.spec_justification() == justification@,
            m.spec_id() == E::digest(
                message_encoding(
                    sender,
                    estimate.encoding(),
                    justification@.map_values(|m: Message<E>| m.spec_id()),
                ),
            )@,
            m.identified(),
            justification.wf() && (forall|i: int|
                0 <= i < justification@.len() ==> (#[trigger] justification@[i]).well_formed())
                ==> m.well_formed(),
    {
        let bin = encode(sender, &estimate, &justification);
        let id = E::hash(bin.as_slice());
        Message { proto: Arc::new(ProtoMessage { estimate, sender, justification }), id }
    }
}

/// One of `msgs` depends on `target`.
pub open spec fn one_depends<E>(msgs: Seq<Message<E>>, target: Message<E>) -> bool {
    exists|i: int| 0 <= i < msgs.len() && (#[trigger] msgs[i]).spec_depends(target)
}

/// Calls rayon's `any` on the parallel iterator over `cited`, with the
/// search `depends` as the predicate: whether one of the messages
/// depends on `target`. What `depends` states of each answer is stated of
/// the answer to the question whether there is such a message.
#[verifier::external_body]
fn any_depends<E: Send + Sync>(cited: &Justification<E>, target: &Message<E>) -> (r: bool)
    ensures
        r ==> one_depends(cited@, *target),
        all_collision_free(cited@) ==> r == one_depends(cited@, *target),
{
    cited.par_iter().any(|msg| msg.depends(target))
}

/// One of `visited` holds the bytes `id`.
pub open spec fn seen(visited: Seq<hash::Hash>, id: Seq<u8>) -> bool {
    exists|j: int| 0 <= j < visited.len() && (#[trigger] visited[j])@ == id
}

/// Whether `id` is among `visited`.
fn is_seen(visited: &Vec<hash::Hash>, id: &hash::Hash) -> (r: bool)
    ensures
        r == seen(visited@, id@),
{
    let mut i: usize = 0;
    while i < visited.len()
        invariant
            i <= visited.len(),
            forall|j: int| 0 <= j < i ==> (#[trigger] visited@[j])@ != id@,
        decreases visited.len() - i,
    {
        if visited[i].eq(id) {
            return true;
        }
        i += 1;
    }
    false
}

impl<E> Message<E> {
    /// Citing is transitive.
    pub proof fn lemma_cites_transitive(self, b: Message<E>, c: Message<E>)
        requires
            self.cites(b),
            b.cites(c),
        ensures
            self.cites(c),
        decreases self,
    {
        let i = choose|i: int|
            0 <= i < self.spec_justification().len() && (#[trigger] self.spec_justification()[i]
                == b || self.spec_justification()[i].cites(b));
        if self.spec_justification()[i] != b {
            self.spec_justification()[i].lemma_cites_transitive(b, c);
        }
    }

    /// Every message cited directly has been visited, and none of them is the target.
    spec fn closed_under(self, visited: Seq<hash::Hash>, target: Seq<u8>) -> bool {
        forall|i: int|
            0 <= i < self.spec_justification().len() ==> seen(
                visited,
                (#[trigger] self.spec_justification()[i]).spec_id(),
            ) && self.spec_justification()[i].spec_id() != target
    }

    /// A message with the identifier `id` that `self` cites has been searched through.
    spec fn explored(self, id: Seq<u8>, visited: Seq<hash::Hash>, target: Seq<u8>) -> bool {
        exists|x: Message<E>| #[trigger]
            self.cites(x) && x.spec_id() == id && x.closed_under(visited, target)
    }

    proof fn lemma_closed_grows(self, before: Seq<hash::Hash>, after: Seq<hash::Hash>, target: Seq<u8>)
        requires
            self.closed_under(before, target),
            forall|id: Seq<u8>| seen(before, id) ==> seen(after, id),
        ensures
            self.closed_under(after, target),
    {
    }

    /// Where the search from `x` is closed and every visited identifier has been
    /// searched through, no message below `x` has the identifier `target`.
    proof fn lemma_closed_below(
        self,
        x: Message<E>,
        m: Message<E>,
        visited: Seq<hash::Hash>,
        target: Seq<u8>,
    )
        requires
            self.collision_free(),
            self.covers(x),
            x.closed_under(visited, target),
            forall|id: Seq<u8>| seen(visited, id) ==> self.explored(id, visited, target),
            x.cites(m),
        ensures
            m.spec_id() != target,
        decreases x,
    {
        let i = choose|i: int|
            0 <= i < x.spec_justification().len() && (#[trigger] x.spec_justification()[i] == m
                || x.spec_justification()[i].cites(m));
        let c = x.spec_justification()[i];
        if c != m {
            assert(x.cites(c));
            if x != self {
                self.lemma_cites_transitive(x, c);
            }
            assert(self.covers(c));
            assert(seen(visited, c.spec_id()));
            let y = choose|y: Message<E>| #[trigger]
                self.cites(y) && y.spec_id() == c.spec_id() && y.closed_under(visited, target);
            assert(self.covers(y));
            assert(y == c);
            self.lemma_closed_below(c, m, visited, target);
        }
    }

    /// Searches the messages below `self` for the identifier `target`, leaving
    /// out what lies below an identifier in `visited`.
    fn search<C: Cancel>(
        &self,
        target: &hash::Hash,
        visited: &mut Vec<hash::Hash>,
        cancel: &C,
    ) -> (r: Option<bool>)
        ensures
            r is None ==> cancel.can_be_raised(),
            r == Some(true) ==> exists|m: Message<E>| #[trigger]
                self.cites(m) && m.spec_id() == target@,
            r == Some(false) ==> {
                &&& self.closed_under(final(visited)@, target@)
                &&& forall|id: Seq<u8>| seen(old(visited)@, id) ==> seen(final(visited)@, id)
                &&& forall|id: Seq<u8>|
                    seen(final(visited)@, id) && !seen(old(visited)@, id) ==> self.explored(
                        id,
                        final(visited)@,
                        target@,
                    )
            },
        decreases self,
    {
        if cancel.is_raised() {
            return None;
        }
        let justification = self.justification();
        let ghost start = visited@;
        let mut i: usize = 0;
        while i < justification.len()
            invariant
                i <= justification@.len(),
                justification@ == self.spec_justification(),
                forall|k: int|
                    0 <= k < i ==> (#[trigger] justification@[k]).spec_id() != target@,
            decreases justification@.len() - i,
        {
            if justification.get(i).id().eq(target) {
                assert(self.cites(justification@[i as int]));
                return Some(true);
            }
            i += 1;
        }
        let mut i: usize = 0;
        while i < justification.len()
            invariant
                i <= justification@.len(),
                justification@ == self.spec_justification(),
                forall|k: int|
                    0 <= k < justification@.len() ==> (#[trigger] justification@[k]).spec_id()
                        != target@,
                forall|k: int| 0 <= k < i ==> seen(visited@, (#[trigger] justification@[k]).spec_id()),
                forall|id: Seq<u8>| seen(start, id) ==> seen(visited@, id),
                forall|id: Seq<u8>|
                    seen(visited@, id) && !seen(start, id) ==> self.explored(id, visited@, target@),
            decreases justification@.len() - i,
        {
            let child = justification.get(i);
            let child_id = child.id();
            if !is_seen(visited, &child_id) {
                let ghost before = visited@;
                visited.push(child_id);
                let ghost mid = visited@;
                proof {
                    self.lemma_cited_decreases(i as int);
                    assert(mid[before.len() as int]@ == child_id@);
                    assert forall|id: Seq<u8>| seen(before, id) implies seen(mid, id) by {
                        let j = choose|j: int| 0 <= j < before.len() && (#[trigger] before[j])@ == id;
                        assert(mid[j]@ == id);
                    }
                }
                let found = match child.search(target, visited, cancel) {
                    Some(found) => found,
                    None => {
                        return None;
                    },
                };
                proof {
                    assert(self.cites(*child));
                }
                if found {
                    proof {
                        let m = choose|m: Message<E>| #[trigger]
                            child.cites(m) && m.spec_id() == target@;
                        self.lemma_cites_transitive(*child, m);
                    }
                    return Some(true);
                }
                proof {
                    let after = visited@;
                    assert(seen(after, child_id@));
                    assert forall|id: Seq<u8>| seen(after, id) && !seen(start, id) implies self.explored(
                        id,
                        after,
                        target@,
                    ) by {
                        if seen(before, id) {
                            let x = choose|x: Message<E>| #[trigger]
                                self.cites(x) && x.spec_id() == id && x.closed_under(
                                    before,
                                    target@,
                                );
                            x.lemma_closed_grows(before, after, target@);
                        } else if seen(mid, id) {
                            let j = choose|j: int| 0 <= j < mid.len() && (#[trigger] mid[j])@ == id;
                            if j < before.len() {
                                assert(before[j]@ == id);
                            }
                            assert(id == child_id@);
                        } else {
                            let x = choose|x: Message<E>| #[trigger]
                                child.cites(x) && x.spec_id() == id && x.closed_under(
                                    after,
                                    target@,
                                );
                            self.lemma_cites_transitive(*child, x);
                        }
                    }
                }
            }
            i += 1;
        }
        Some(false)
    }

    /// Whether `self` depends on `other`, unless `cancel` is raised
    /// meanwhile: the signal is looked at before the messages that a message
    /// cites are searched, and the search gives up with `None` once it is
    /// seen raised. An answer is as `depends` gives it.
    pub fn depends_unless<C: Cancel>(&self, other: &Message<E>, cancel: &C) -> (r: Option<bool>)
        ensures
            r is None ==> cancel.can_be_raised(),
            r == Some(true) ==> self.spec_depends(*other),
            self.collision_free() && r is Some ==> r == Some(self.spec_depends(*other)),
    {
        let mut visited: Vec<hash::Hash> = Vec::new();
        let target = other.id();
        let found = self.search(&target, &mut visited, cancel);
        proof {
            if found == Some(false) && self.collision_free() {
                assert forall|m: Message<E>| #[trigger] self.cites(m) implies m.spec_id()
                    != target@ by {
                    self.lemma_closed_below(*self, m, visited@, target@);
                }
            }
        }
        found
    }

    /// Whether `self` depends on `other`: whether a message with the identifier
    /// of `other` is cited by `self`, directly or through other messages.
    ///
    /// The messages below `self` are searched once each, identified by their
    /// identifiers. A positive answer is always right; a negative one is right
    /// where no two different messages at or below `self` share an identifier.
    pub fn depends(&self, other: &Message<E>) -> (r: bool)
        ensures
            r ==> self.spec_depends(*other),
            self.collision_free() ==> r == self.spec_depends(*other),
    {
        match self.depends_unless(other, &Never) {
            Some(found) => found,
            None => false,
        }
    }

    /// Whether `self` depends on `other`, with one thread for each message
    /// that `self` cites: the answer of `depends`.
    pub fn depends_in_parallel(&self, other: &Message<E>) -> (r: bool)
        where E: Send + Sync,
        ensures
            r ==> self.spec_depends(*other),
            self.collision_free() ==> r == self.spec_depends(*other),
    {
        let cited = self.justification();
        let direct = cited.contains(other);
        let below = any_depends(cited, other);
        proof {
            if direct {
                let i = choose|i: int|
                    0 <= i < cited@.len() && (#[trigger] cited@[i]).spec_id() == other.spec_id();
                assert(self.cites(cited@[i]));
            }
            if one_depends(cited@, *other) {
                let i = choose|i: int|
                    0 <= i < cited@.len() && (#[trigger] cited@[i]).spec_depends(*other);
                let m = choose|m: Message<E>| #[trigger]
                    cited@[i].cites(m) && m.spec_id() == other.spec_id();
                assert(self.cites(m));
            }
            if self.collision_free() {
                assert forall|k: int| 0 <= k < cited@.len() implies (
                #[trigger] cited@[k]).collision_free() by {
                    self.lemma_cited_collision_free(k);
                }
                if self.spec_depends(*other) {
                    let m = choose|m: Message<E>| #[trigger]
                        self.cites(m) && m.spec_id() == other.spec_id();
                    let i = choose|i: int|
                        0 <= i < cited@.len() && (#[trigger] cited@[i] == m || cited@[i].cites(m));
                    if cited@[i] == m {
                        assert(cited@[i].spec_id() == other.spec_id());
                    } else {
                        assert(cited@[i].spec_depends(*other));
                        assert(one_depends(cited@, *other));
                    }
                }
            }
        }
        direct || below
    }

    /// Whether the two messages are an equivocation: different messages of one
    /// sender, neither of which depends on the other.
    pub fn equivocates(&self, other: &Message<E>) -> (r: bool)
        ensures
            r ==> self.spec_id() != other.spec_id() && self.spec_sender() == other.spec_sender(),
            self.collision_free() && other.collision_free() ==> r == self.spec_equivocates(*other),
    {
        !self.eq(other) && *self.sender() == *other.sender() && !other.depends(self)
            && !self.depends(other)
    }
}

impl<E: Estimate> Message<E> {
    /// The message that `sender` builds on `state`: it cites the latest honest
    /// messages and carries the estimate that the rule of `E` derives from
    /// them and the weights. Fails with `NoNewMessage` where there is no
    /// latest honest message, and with the failure of the rule where it fails.
    pub fn from_validator_state(sender: u32, state: &SenderState<E>) -> (r: Result<
        Self,
        Error<E::Error>,
    >)
        requires
            state.wf(),
        ensures
            ({
                let honest = latest_honest(state@.latest, state@.equivocators);
                if honest.len() == 0 {
                    r matches Err(Error::NoNewMessage)
                } else {
                    match E::estimate_of(honest, state@.weights) {
                        Err(e) => r matches Err(Error::Estimator(f)) && f == e,
                        Ok(estimate) => {
                            &&& r matches Ok(m)
                            &&& m.spec_sender() == sender
                            &&& m.spec_estimate() == estimate
                            &&& m.spec_justification() == justification_of(honest)
                            &&& m.identified()
                            &&& all_well_formed(state@.latest) ==> m.well_formed()
                        },
                    }
                }
            }),
    {
        let honest = LatestMsgsHonest::from_latest_msgs(state.latests_msgs(), state.equivocators());
        if honest.len() == 0 {
            Err(Error::NoNewMessage)
        } else {
            let justification = Justification::from_latest_msgs_honest(&honest);
            proof {
                if all_well_formed(state@.latest) {
                    lemma_built_on_well_formed(state@.latest, state@.equivocators);
                }
            }
            match honest.mk_estimate(state.senders_weights()) {
                Ok(estimate) => Ok(Self::new(sender, justification, estimate)),
                Err(e) => Err(Error::Estimator(e)),
            }
        }
    }
}

impl<E> Message<E> {
    /// `x` lies `n` citations below the message.
    pub open spec fn descends(self, x: Message<E>, n: nat) -> bool
        decreases n,
    {
        if n == 0 {
            self == x
        } else {
            exists|i: int|
                0 <= i < self.spec_justification().len() && (
                #[trigger] self.spec_justification()[i]).descends(x, (n - 1) as nat)
        }
    }

    /// The indirect search from `self` and `other` compares `x` with `y`:
    /// `x` lies as many citations below `self` as `y` lies below `other`,
    /// or `x` lies below `other` and `y` one citation more below `self`.
    pub open spec fn compares(self, other: Message<E>, x: Message<E>, y: Message<E>) -> bool {
        self.level_with(other, x, y) || other.ahead_of(self, x, y)
    }

    /// `x` lies as many citations below `self` as `y` lies below `other`.
    pub open spec fn level_with(self, other: Message<E>, x: Message<E>, y: Message<E>) -> bool {
        exists|n: nat| #[trigger] self.descends(x, n) && other.descends(y, n)
    }

    /// `x` lies below `self`, and `y` one citation more below `other`.
    pub open spec fn ahead_of(self, other: Message<E>, x: Message<E>, y: Message<E>) -> bool {
        exists|n: nat| #[trigger] self.descends(x, n) && other.descends(y, n + 1)
    }

    /// The indirect search from `self` and `other` finds an equivocation.
    pub open spec fn spec_equivocates_indirect(self, other: Message<E>) -> bool {
        exists|x: Message<E>, y: Message<E>| #[trigger]
            self.compares(other, x, y) && x.spec_equivocates(y)
    }

    /// The senders of the first messages of the equivocations that the
    /// indirect search from `self` and `other` finds.
    pub open spec fn indirect_equivocators(self, other: Message<E>) -> Set<u32> {
        Set::new(
            |sender: u32|
                exists|x: Message<E>, y: Message<E>| #[trigger]
                    self.compares(other, x, y) && x.spec_equivocates(y) && x.spec_sender()
                        == sender,
        )
    }

    /// A cited message has a smaller size.
    pub proof fn lemma_size_cited(self, i: int)
        requires
            0 <= i < self.spec_justification().len(),
        ensures
            self.spec_justification()[i].size() < self.size(),
    {
        self.lemma_size_below(self.spec_justification().len(), i);
    }

    proof fn lemma_size_below(self, n: nat, i: int)
        requires
            0 <= i < n <= self.spec_justification().len(),
        ensures
            self.spec_justification()[i].size() <= self.size_below(n),
        decreases n,
    {
        if i < n - 1 {
            self.lemma_size_below((n - 1) as nat, i);
        }
    }

    /// The search compares the two messages themselves, and whatever the
    /// search from `other` and a message cited by `self` compares.
    pub proof fn lemma_compares_unfold(self, other: Message<E>, x: Message<E>, y: Message<E>)
        ensures
            self.compares(other, x, y) <==> (self == x && other == y) || exists|i: int|
                0 <= i < self.spec_justification().len() && other.compares(
                    #[trigger] self.spec_justification()[i],
                    x,
                    y,
                ),
    {
        let cited = self.spec_justification();
        if self.level_with(other, x, y) && !(self == x && other == y) {
            let n = choose|n: nat| #[trigger] self.descends(x, n) && other.descends(y, n);
            assert(n > 0);
            let i = choose|i: int|
                0 <= i < cited.len() && (#[trigger] cited[i]).descends(x, (n - 1) as nat);
            let m = (n - 1) as nat;
            assert(cited[i].descends(x, m) && other.descends(y, m + 1));
            assert(cited[i].ahead_of(other, x, y));
            assert(other.compares(cited[i], x, y));
        }
        if other.ahead_of(self, x, y) {
            let n = choose|n: nat| #[trigger] other.descends(x, n) && self.descends(y, n + 1);
            let i = choose|i: int| 0 <= i < cited.len() && (#[trigger] cited[i]).descends(y, n);
            assert(other.descends(x, n) && cited[i].descends(y, n));
            assert(other.level_with(cited[i], x, y));
            assert(other.compares(cited[i], x, y));
        }
        if self == x && other == y {
            assert(self.descends(x, 0) && other.descends(y, 0));
        }
        if exists|i: int| 0 <= i < cited.len() && other.compares(#[trigger] cited[i], x, y) {
            let i = choose|i: int| 0 <= i < cited.len() && other.compares(#[trigger] cited[i], x, y);
            if other.level_with(cited[i], x, y) {
                let n = choose|n: nat| #[trigger] other.descends(x, n) && cited[i].descends(y, n);
                assert(self.descends(y, n + 1));
                assert(other.descends(x, n) && self.descends(y, n + 1));
            } else {
                let n = choose|n: nat|
                    #[trigger] cited[i].descends(x, n) && other.descends(y, n + 1);
                assert(self.descends(x, n + 1));
                assert(self.descends(x, n + 1) && other.descends(y, n + 1));
            }
        }
    }

    /// Searches the messages below `self` and `other` for an equivocation:
    /// `self` is compared with `other`, and then the search goes on from
    /// `other` and each message that `self` cites. Returns whether an
    /// equivocation was found, and `equivocators` with the senders of the
    /// first messages of the equivocations found.
    ///
    /// The search does not compare every two messages below `self` and
    /// `other`, and it is not symmetric. What is stated of the outcome holds
    /// where no two different messages at or below `self`, or at or below
    /// `other`, share an identifier.
    pub fn equivocates_indirect(&self, other: &Message<E>, equivocators: HashSet<u32>) -> (r: (
        bool,
        HashSet<u32>,
    ))
        ensures
            self.collision_free() && other.collision_free() ==> {
                &&& r.0 == self.spec_equivocates_indirect(*other)
                &&& r.1@ == equivocators@.union(self.indirect_equivocators(*other))
            },
        decreases self.size() + other.size(),
    {
        broadcast use vstd::std_specs::hash::group_hash_axioms;

        let ghost exact = self.collision_free() && other.collision_free();
        let mut found = self.equivocates(other);
        let mut known = equivocators;
        if found {
            known.insert(*self.sender());
        }
        let cited = self.justification();
        let mut i: usize = 0;
        while i < cited.len()
            invariant
                i <= cited@.len(),
                cited@ == self.spec_justification(),
                exact == (self.collision_free() && other.collision_free()),
                exact ==> (found <==> self.spec_equivocates(*other) || exists|
                    k: int,
                    x: Message<E>,
                    y: Message<E>,
                |
                    0 <= k < i && #[trigger] other.compares(cited@[k], x, y)
                        && x.spec_equivocates(y)),
                exact ==> forall|sender: u32|
                    known@.contains(sender) <==> equivocators@.contains(sender) || (
                    self.spec_equivocates(*other) && self.spec_sender() == sender) || exists|
                        k: int,
                        x: Message<E>,
                        y: Message<E>,
                    |
                        0 <= k < i && #[trigger] other.compares(cited@[k], x, y)
                            && x.spec_equivocates(y) && x.spec_sender() == sender,
            decreases cited@.len() - i,
        {
            let ghost before = known@;
            let ghost had = found;
            proof {
                self.lemma_size_cited(i as int);
                if exact {
                    self.lemma_cited_collision_free(i as int);
                }
            }
            let (has, more) = other.equivocates_indirect(cited.get(i), known);
            found = found || has;
            known = more;
            proof {
                if exact {
                    let c = cited@[i as int];
                    assert(has == other.spec_equivocates_indirect(c));
                    assert(found <==> self.spec_equivocates(*other) || exists|
                        k: int,
                        x: Message<E>,
                        y: Message<E>,
                    |
                        0 <= k < i + 1 && #[trigger] other.compares(cited@[k], x, y)
                            && x.spec_equivocates(y)) by {
                        if has {
                            let (x, y) = choose|x: Message<E>, y: Message<E>| #[trigger]
                                other.compares(c, x, y) && x.spec_equivocates(y);
                            assert(other.compares(cited@[i as int], x, y));
                        }
                        if exists|k: int, x: Message<E>, y: Message<E>|
                            0 <= k < i + 1 && #[trigger] other.compares(cited@[k], x, y)
                                && x.spec_equivocates(y) {
                            let (k, x, y) = choose|k: int, x: Message<E>, y: Message<E>|
                                0 <= k < i + 1 && #[trigger] other.compares(cited@[k], x, y)
                                    && x.spec_equivocates(y);
                            if k == i {
                                assert(other.compares(c, x, y) && x.spec_equivocates(y));
                            }
                        }
                    }
                    assert forall|sender: u32|
                        known@.contains(sender) <==> equivocators@.contains(sender) || (
                        self.spec_equivocates(*other) && self.spec_sender() == sender) || exists|
                            k: int,
                            x: Message<E>,
                            y: Message<E>,
                        |
                            0 <= k < i + 1 && #[trigger] other.compares(cited@[k], x, y)
                                && x.spec_equivocates(y) && x.spec_sender() == sender by {
                        assert(known@.contains(sender) <==> before.contains(sender)
                            || other.indirect_equivocators(c).contains(sender));
                        if other.indirect_equivocators(c).contains(sender) {
                            let (x, y) = choose|x: Message<E>, y: Message<E>| #[trigger]
                                other.compares(c, x, y) && x.spec_equivocates(y) && x.spec_sender()
                                    == sender;
                            assert(other.compares(cited@[i as int], x, y));
                        }
                        if exists|k: int, x: Message<E>, y: Message<E>|
                            0 <= k < i + 1 && #[trigger] other.compares(cited@[k], x, y)
                                && x.spec_equivocates(y) && x.spec_sender() == sender {
                            let (k, x, y) = choose|k: int, x: Message<E>, y: Message<E>|
                                0 <= k < i + 1 && #[trigger] other.compares(cited@[k], x, y)
                                    && x.spec_equivocates(y) && x.spec_sender() == sender;
                            if k == i {
                                assert(other.compares(c, x, y) && x.spec_equivocates(y)
                                    && x.spec_sender() == sender);
                            }
                        }
                    }
                }
            }
            i += 1;
        }
        proof {
            if exact {
                assert(found == self.spec_equivocates_indirect(*other)) by {
                    if self.spec_equivocates_indirect(*other) {
                        let (x, y) = choose|x: Message<E>, y: Message<E>| #[trigger]
                            self.compares(*other, x, y) && x.spec_equivocates(y);
                        self.lemma_compares_unfold(*other, x, y);
                    }
                    if found && !self.spec_equivocates(*other) {
                        let (k, x, y) = choose|k: int, x: Message<E>, y: Message<E>|
                            0 <= k < i && #[trigger] other.compares(cited@[k], x, y)
                                && x.spec_equivocates(y);
                        self.lemma_compares_unfold(*other, x, y);
                    }
                    if self.spec_equivocates(*other) {
                        self.lemma_compares_unfold(*other, *self, *other);
                    }
                }
                assert(known@ =~= equivocators@.union(self.indirect_equivocators(*other))) by {
                    assert forall|sender: u32|
                        known@.contains(sender) <==> equivocators@.union(
                            self.indirect_equivocators(*other),
                        ).contains(sender) by {
                        if self.indirect_equivocators(*other).contains(sender) {
                            let (x, y) = choose|x: Message<E>, y: Message<E>| #[trigger]
                                self.compares(*other, x, y) && x.spec_equivocates(y)
                                    && x.spec_sender() == sender;
                            self.lemma_compares_unfold(*other, x, y);
                        }
                        if self.spec_equivocates(*other) && self.spec_sender() == sender {
                            self.lemma_compares_unfold(*other, *self, *other);
                        }
                        if exists|k: int, x: Message<E>, y: Message<E>|
                            0 <= k < i && #[trigger] other.compares(cited@[k], x, y)
                                && x.spec_equivocates(y) && x.spec_sender() == sender {
                            let (k, x, y) = choose|k: int, x: Message<E>, y: Message<E>|
                                0 <= k < i && #[trigger] other.compares(cited@[k], x, y)
                                    && x.spec_equivocates(y) && x.spec_sender() == sender;
                            self.lemma_compares_unfold(*other, x, y);
                        }
                    }
                }
            }
        }
        (found, known)
    }
}

impl<E> Message<E> {
    /// No two different messages among the two messages and those they cite
    /// have the same identifier.
    pub open spec fn collision_free_with(self, other: Message<E>) -> bool {
        forall|x: Message<E>, y: Message<E>|
            #![trigger self.covers(x), other.covers(y)]
            #![trigger self.covers(x), self.covers(y)]
            #![trigger other.covers(x), other.covers(y)]
            (self.covers(x) || other.covers(x)) && (self.covers(y) || other.covers(y))
                && x.spec_id() == y.spec_id() ==> x == y
    }

    /// A message that is cited has a smaller size than the message that
    /// cites it, directly or not.
    pub proof fn lemma_cites_smaller(self, m: Message<E>)
        requires
            self.cites(m),
        ensures
            m.size() < self.size(),
        decreases self,
    {
        let i = choose|i: int|
            0 <= i < self.spec_justification().len() && (#[trigger] self.spec_justification()[i]
                == m || self.spec_justification()[i].cites(m));
        self.lemma_size_cited(i);
        if self.spec_justification()[i] != m {
            self.spec_justification()[i].lemma_cites_smaller(m);
        }
    }

    /// The messages form no cycle: no message cites itself, directly or
    /// not, and of two messages at most one cites the other.
    pub proof fn lemma_cites_acyclic(self, other: Message<E>)
        ensures
            !self.cites(self),
            !(self.cites(other) && other.cites(self)),
    {
        if self.cites(self) {
            self.lemma_cites_smaller(self);
        }
        if self.cites(other) && other.cites(self) {
            self.lemma_cites_smaller(other);
            other.lemma_cites_smaller(self);
        }
    }

    /// Depending is transitive, where the message that `self` cites with the
    /// identifier of `b` is `b`.
    pub proof fn lemma_depends_transitive(self, b: Message<E>, c: Message<E>)
        requires
            self.spec_depends(b),
            b.spec_depends(c),
            forall|x: Message<E>| #[trigger] self.cites(x) && x.spec_id() == b.spec_id() ==> x == b,
        ensures
            self.spec_depends(c),
    {
        let x = choose|x: Message<E>| #[trigger] self.cites(x) && x.spec_id() == b.spec_id();
        let y = choose|y: Message<E>| #[trigger] b.cites(y) && y.spec_id() == c.spec_id();
        self.lemma_cites_transitive(b, y);
    }

    /// The justifications form no cycle: where no two different messages at
    /// or below `self` share an identifier, `self` does not depend on itself.
    pub proof fn lemma_depends_irreflexive(self)
        requires
            self.collision_free(),
        ensures
            !self.spec_depends(self),
    {
        if self.spec_depends(self) {
            let m = choose|m: Message<E>| #[trigger] self.cites(m) && m.spec_id() == self.spec_id();
            assert(self.covers(m) && self.covers(self));
            self.lemma_cites_smaller(m);
        }
    }

    /// The justifications form no cycle: where no two different messages at
    /// or below `self` or `other` share an identifier, the two messages do
    /// not depend on each other; so two messages that did would be equal.
    pub proof fn lemma_depends_antisymmetric(self, other: Message<E>)
        requires
            self.collision_free_with(other),
        ensures
            !(self.spec_depends(other) && other.spec_depends(self)),
            self.spec_depends(other) && other.spec_depends(self) ==> self == other,
    {
        if self.spec_depends(other) && other.spec_depends(self) {
            let m = choose|m: Message<E>| #[trigger] self.cites(m) && m.spec_id() == other.spec_id();
            let n = choose|n: Message<E>| #[trigger] other.cites(n) && n.spec_id() == self.spec_id();
            assert(self.covers(m) && other.covers(other));
            assert(m == other);
            assert(other.covers(n) && self.covers(self));
            assert(n == self);
            self.lemma_cites_smaller(other);
            other.lemma_cites_smaller(self);
        }
    }
}

impl<E: Estimate> Message<E> {
    /// The identifier of a message depends only on its sender, on the
    /// canonical bytes of its estimate and on the identifiers of the
    /// messages that it cites.
    pub proof fn lemma_id_determined(self, other: Message<E>)
        requires
            self.identified(),
            other.identified(),
            self.spec_sender() == other.spec_sender(),
            self.spec_estimate().encoding() == other.spec_estimate().encoding(),
            self.cited_ids() == other.cited_ids(),
        ensures
            self.spec_id() == other.spec_id(),
    {
    }
}

/// What a message says, with the messages that it cites given by their
/// identifiers: the form in which a message travels.
#[derive(Debug)]
pub struct Content<E> {
    /// The validator that sent the message.
    pub sender: u32,
    /// The estimate that the message carries.
    pub estimate: E,
    /// The identifiers of the messages that the message cites.
    pub justification: Vec<hash::Hash>,
}

/// The parts can be framed: the lengths fit in 64 bits, and every
/// identifier has 64 bytes.
pub open spec fn framed(estimate: Seq<u8>, ids: Seq<Seq<u8>>) -> bool {
    &&& estimate.len() <= u64::MAX
    &&& ids.len() <= u64::MAX
    &&& forall|i: int| 0 <= i < ids.len() ==> (#[trigger] ids[i]).len() == 64
}

proof fn lemma_concat_len(ids: Seq<Seq<u8>>)
    requires
        forall|i: int| 0 <= i < ids.len() ==> (#[trigger] ids[i]).len() == 64,
    ensures
        concat(ids).len() == 64 * ids.len(),
    decreases ids.len(),
{
    if ids.len() > 0 {
        assert forall|i: int| 0 <= i < ids.drop_last().len() implies (
        #[trigger] ids.drop_last()[i]).len() == 64 by {
            assert(ids[i].len() == 64);
        }
        lemma_concat_len(ids.drop_last());
    }
}

/// Where the canonical bytes of a message lie in `bin`.
proof fn lemma_encoding_parts(sender: u32, estimate: Seq<u8>, ids: Seq<Seq<u8>>, bin: Seq<u8>)
    requires
        framed(estimate, ids),
        bin == message_encoding(sender, estimate, ids),
    ensures
        bin.len() == 20 + estimate.len() + 64 * ids.len(),
        from_be32(bin.subrange(0, 4)) == sender,
        from_be64(bin.subrange(4, 12)) == estimate.len(),
        bin.subrange(12, 12 + estimate.len() as int) == estimate,
        from_be64(bin.subrange(12 + estimate.len() as int, 20 + estimate.len() as int))
            == ids.len(),
        bin.subrange(20 + estimate.len() as int, bin.len() as int) == concat(ids),
{
    lemma_concat_len(ids);
    lemma_be32_inverse(sender, Seq::empty());
    lemma_be64_inverse(estimate.len() as u64, Seq::empty());
    lemma_be64_inverse(ids.len() as u64, Seq::empty());
    let e = estimate.len() as int;
    assert(bin.subrange(0, 4) =~= be32(sender));
    assert(bin.subrange(4, 12) =~= be64(estimate.len() as u64));
    assert(bin.subrange(12, 12 + e) =~= estimate);
    assert(bin.subrange(12 + e, 20 + e) =~= be64(ids.len() as u64));
    assert(bin.subrange(20 + e, bin.len() as int) =~= concat(ids));
}

impl<E: Estimate> Content<E> {
    /// The identifiers of the cited messages, as bytes.
    pub open spec fn ids(self) -> Seq<Seq<u8>> {
        self.justification@.map_values(|id: hash::Hash| id@)
    }

    /// The canonical bytes: those of the message that says this.
    pub open spec fn encoding(self) -> Seq<u8> {
        message_encoding(self.sender, self.estimate.encoding(), self.ids())
    }

    /// Writes the canonical bytes.
    pub fn serialize(&self) -> (bin: Vec<u8>)
        ensures
            bin@ == self.encoding(),
    {
        let mut bin: Vec<u8> = Vec::new();
        put_be32(&mut bin, self.sender);
        let estimate_bytes = self.estimate.serialize();
        put_be64(&mut bin, estimate_bytes.len() as u64);
        put_bytes(&mut bin, estimate_bytes.as_slice());
        put_be64(&mut bin, self.justification.len() as u64);
        let ghost head = bin@;
        let ghost ids = self.ids();
        let mut i: usize = 0;
        while i < self.justification.len()
            invariant
                i <= self.justification@.len(),
                ids == self.ids(),
                bin@ == head + concat(ids.take(i as int)),
            decreases self.justification@.len() - i,
        {
            let id = self.justification[i].to_vec();
            put_bytes(&mut bin, id.as_slice());
            proof {
                assert(ids.take(i + 1).drop_last() =~= ids.take(i as int));
                assert(bin@ =~= head + concat(ids.take(i + 1)));
            }
            i += 1;
        }
        proof {
            assert(ids.take(ids.len() as int) =~= ids);
            assert(bin@ =~= self.encoding());
        }
        bin
    }

    /// The identifier of the message that says this: the digest of the
    /// canonical bytes.
    pub fn id(&self) -> (id: hash::Hash)
        ensures
            id == E::digest(self.encoding()),
    {
        let bin = self.serialize();
        E::hash(bin.as_slice())
    }
}

/// `bin` is the canonical encoding of `sender`, `estimate` and `ids`.
pub open spec fn encodes<E: Estimate>(bin: Seq<u8>, sender: u32, estimate: E, ids: Seq<Seq<u8>>) -> bool {
    framed(estimate.encoding(), ids) && message_encoding(sender, estimate.encoding(), ids) == bin
}

/// The bytes of `bin` put together again are the canonical encoding of
/// what was read from them.
proof fn lemma_assembled(bin: Seq<u8>, sender: u32, estimate: Seq<u8>, ids: Seq<Seq<u8>>)
    requires
        bin.len() == 20 + estimate.len() + 64 * ids.len(),
        bin.len() <= usize::MAX,
        sender == from_be32(bin.subrange(0, 4)),
        estimate.len() == from_be64(bin.subrange(4, 12)),
        estimate == bin.subrange(12, 12 + estimate.len() as int),
        ids.len() == from_be64(
            bin.subrange(12 + estimate.len() as int, 20 + estimate.len() as int),
        ),
        concat(ids) == bin.subrange(20 + estimate.len() as int, bin.len() as int),
    ensures
        message_encoding(sender, estimate, ids) == bin,
{
    let e = estimate.len() as int;
    lemma_be32_inverse(0, bin.subrange(0, 4));
    lemma_be64_inverse(0, bin.subrange(4, 12));
    lemma_be64_inverse(0, bin.subrange(12 + e, 20 + e));
    assert(be32(sender) == bin.subrange(0, 4));
    assert(be64(estimate.len() as u64) == bin.subrange(4, 12));
    assert(be64(ids.len() as u64) == bin.subrange(12 + e, 20 + e));
    assert(bin.subrange(0, 4) + bin.subrange(4, 12) + bin.subrange(12, 12 + e) + bin.subrange(
        12 + e,
        20 + e,
    ) + bin.subrange(20 + e, bin.len() as int) =~= bin);
}

/// No sender, estimate and identifiers have `bin` as their canonical
/// encoding where one of the lengths that `bin` gives does not fit it.
proof fn lemma_misfit<E: Estimate>(bin: Seq<u8>)
    requires
        bin.len() < 20 || from_be64(bin.subrange(4, 12)) > bin.len() - 20 || {
            let e = from_be64(bin.subrange(4, 12)) as int;
            from_be64(bin.subrange(12 + e, 20 + e)) * 64 != bin.len() - 20 - e
        },
    ensures
        forall|sender: u32, estimate: E, ids: Seq<Seq<u8>>|
            !#[trigger] encodes(bin, sender, estimate, ids),
{
    assert forall|sender: u32, estimate: E, ids: Seq<Seq<u8>>|
        !#[trigger] encodes(bin, sender, estimate, ids) by {
        if encodes(bin, sender, estimate, ids) {
            lemma_encoding_parts(sender, estimate.encoding(), ids, bin);
        }
    }
}

/// No sender, estimate and identifiers have `bin` as their canonical
/// encoding where the bytes at the place of the estimate are the canonical
/// encoding of no estimate.
proof fn lemma_no_estimate<E: Estimate>(bin: Seq<u8>)
    requires
        bin.len() >= 20,
        from_be64(bin.subrange(4, 12)) <= bin.len() - 20,
        forall|v: E| #[trigger]
            v.encoding() != bin.subrange(12, 12 + from_be64(bin.subrange(4, 12)) as int),
    ensures
        forall|sender: u32, estimate: E, ids: Seq<Seq<u8>>|
            !#[trigger] encodes(bin, sender, estimate, ids),
{
    assert forall|sender: u32, estimate: E, ids: Seq<Seq<u8>>|
        !#[trigger] encodes(bin, sender, estimate, ids) by {
        if encodes(bin, sender, estimate, ids) {
            lemma_encoding_parts(sender, estimate.encoding(), ids, bin);
        }
    }
}

/// Reads the lengths that `bin` gives: that of the bytes of the estimate
/// and the number of identifiers.
fn read_lengths(bin: &[u8]) -> (r: Option<(usize, usize)>)
    ensures
        match r {
            Some((e, total)) => {
                &&& bin@.len() == 20 + e + 64 * total
                &&& e == from_be64(bin@.subrange(4, 12))
                &&& total == from_be64(bin@.subrange(12 + e, 20 + e))
            },
            None => bin@.len() < 20 || from_be64(bin@.subrange(4, 12)) > bin@.len() - 20 || {
                let e = from_be64(bin@.subrange(4, 12)) as int;
                from_be64(bin@.subrange(12 + e, 20 + e)) * 64 != bin@.len() - 20 - e
            },
        },
{
    let n = bin.len();
    if n < 20 {
        return None;
    }
    let estimate_len = get_be64(bin, 4);
    if estimate_len > (n - 20) as u64 {
        return None;
    }
    let e = estimate_len as usize;
    let count = get_be64(bin, 12 + e);
    let rest = n - 20 - e;
    if count > (rest / 64) as u64 {
        return None;
    }
    let total = count as usize;
    if total * 64 != rest {
        return None;
    }
    Some((e, total))
}

impl<E: Estimate + Deserialize> Content<E> {
    /// Reads what a message says from its canonical bytes. Fails where
    /// `bin` is not the canonical encoding of any sender, estimate and
    /// identifiers.
    pub fn deserialize(bin: &[u8]) -> (r: Result<Content<E>, MalleableEncoding>)
        ensures
            r matches Ok(content) ==> content.encoding() == bin@,
            r is Err ==> forall|sender: u32, estimate: E, ids: Seq<Seq<u8>>|
                !#[trigger] encodes(bin@, sender, estimate, ids),
    {
        let (e, total) = match read_lengths(bin) {
            Some(lengths) => lengths,
            None => {
                proof {
                    lemma_misfit::<E>(bin@);
                }
                return Err(MalleableEncoding);
            },
        };
        assert(20 + e + 64 * total == bin.len());
        let sender = get_be32(bin, 0);
        let estimate = match E::deserialize(vstd::slice::slice_subrange(bin, 12, 12 + e)) {
            Ok(estimate) => estimate,
            Err(_) => {
                proof {
                    lemma_no_estimate::<E>(bin@);
                }
                return Err(MalleableEncoding);
            },
        };
        let justification = Self::read_ids(bin, 20 + e, total);
        let content = Content { sender, estimate, justification };
        proof {
            lemma_assembled(bin@, sender, estimate.encoding(), content.ids());
        }
        Ok(content)
    }

    /// Reads `total` identifiers from `bin`, from position `from` on.
    fn read_ids(bin: &[u8], from: usize, total: usize) -> (ids: Vec<hash::Hash>)
        requires
            from + 64 * total == bin@.len(),
        ensures
            ids@.len() == total,
            concat(ids@.map_values(|id: hash::Hash| id@)) == bin@.subrange(
                from as int,
                bin@.len() as int,
            ),
    {
        let n = bin.len();
        let mut ids: Vec<hash::Hash> = Vec::new();
        let ghost tail = bin@.subrange(from as int, n as int);
        let mut i: usize = 0;
        while i < total
            invariant
                i <= total,
                n == bin@.len(),
                n == from + 64 * total,
                tail == bin@.subrange(from as int, n as int),
                ids@.len() == i,
                concat(ids@.map_values(|id: hash::Hash| id@)) == tail.subrange(0, 64 * i),
            decreases total - i,
        {
            let at = from + 64 * i;
            let ghost before = ids@.map_values(|id: hash::Hash| id@);
            match hash::Hash::from_slice(vstd::slice::slice_subrange(bin, at, at + 64)) {
                Some(id) => {
                    ids.push(id);
                    proof {
                        let after = ids@.map_values(|id: hash::Hash| id@);
                        assert(after.drop_last() =~= before);
                        assert(after.last() == id@);
                        assert(tail.subrange(0, 64 * (i + 1)) =~= tail.subrange(0, 64 * i)
                            + bin@.subrange(at as int, at + 64));
                    }
                },
                None => {
                    proof {
                        assert(false);
                    }
                },
            }
            i += 1;
        }
        proof {
            assert(tail.subrange(0, 64 * total) =~= tail);
        }
        ids
    }
}

impl<E: Estimate> Message<E> {
    /// A message survives the way through its canonical bytes. Let `read`
    /// be what `Content::deserialize` gives for the canonical bytes of an
    /// identified message whose lengths fit in 64 bits: `read` is no failure,
    /// and what was read has the identifier of the message.
    pub proof fn lemma_read_back(self, read: Result<Content<E>, MalleableEncoding>)
        requires
            self.identified(),
            self.spec_estimate().encoding().len() <= u64::MAX,
            self.spec_justification().len() <= u64::MAX,
            read matches Ok(content) ==> content.encoding() == self.encoding(),
            read is Err ==> forall|sender: u32, estimate: E, ids: Seq<Seq<u8>>|
                !#[trigger] encodes(self.encoding(), sender, estimate, ids),
        ensures
            read matches Ok(content) && E::digest(content.encoding())@ == self.spec_id(),
    {
        assert forall|i: int| 0 <= i < self.cited_ids().len() implies (
        #[trigger] self.cited_ids()[i]).len() == 64 by {
            self.spec_justification()[i].lemma_id_len();
        }
        assert(encodes(
            self.encoding(),
            self.spec_sender(),
            self.spec_estimate(),
            self.cited_ids(),
        ));
    }
}

/// One of `msgs` from position `from` on has the identifier `id`, and each
/// message that it cites has been visited.
spec fn gathered<E>(msgs: Seq<Message<E>>, from: int, id: Seq<u8>, visited: Seq<hash::Hash>) -> bool {
    exists|k: int|
        0 <= k && from <= k < msgs.len() && (#[trigger] msgs[k]).spec_id() == id
            && msgs[k].all_cited_seen(visited)
}

impl<E> Message<E> {
    /// `x` is `self` or `other`, or one of them cites it.
    pub open spec fn reaches(self, other: Message<E>, x: Message<E>) -> bool {
        self.covers(x) || other.covers(x)
    }

    /// Two messages at or below `self` and `other` are an equivocation of `sender`.
    pub open spec fn equivocation_below(self, other: Message<E>, sender: u32) -> bool {
        exists|x: Message<E>, y: Message<E>|
            #![trigger self.reaches(other, x), self.reaches(other, y)]
            self.reaches(other, x) && self.reaches(other, y) && x.spec_equivocates(y)
                && x.spec_sender() == sender
    }

    /// Every message that the message cites directly has been visited.
    spec fn all_cited_seen(self, visited: Seq<hash::Hash>) -> bool {
        forall|i: int|
            0 <= i < self.spec_justification().len() ==> seen(
                visited,
                (#[trigger] self.spec_justification()[i]).spec_id(),
            )
    }

    proof fn lemma_gathered_grows(
        msgs: Seq<Message<E>>,
        more: Seq<Message<E>>,
        from: int,
        id: Seq<u8>,
        before: Seq<hash::Hash>,
        after: Seq<hash::Hash>,
    )
        requires
            gathered(msgs, from, id, before),
            forall|other: Seq<u8>| seen(before, other) ==> seen(after, other),
            msgs.len() <= more.len(),
            more.take(msgs.len() as int) == msgs,
        ensures
            gathered(more, from, id, after),
    {
        let k = choose|k: int|
            0 <= k && from <= k < msgs.len() && (#[trigger] msgs[k]).spec_id() == id
                && msgs[k].all_cited_seen(before);
        assert(more.take(msgs.len() as int)[k] == more[k]);
        assert(more[k].all_cited_seen(after));
    }

    /// What lies some citations below a message is covered by it.
    pub proof fn lemma_descends_covered(self, x: Message<E>, n: nat)
        requires
            self.descends(x, n),
        ensures
            self.covers(x),
        decreases n,
    {
        if n > 0 {
            let i = choose|i: int|
                0 <= i < self.spec_justification().len() && (
                #[trigger] self.spec_justification()[i]).descends(x, (n - 1) as nat);
            let c = self.spec_justification()[i];
            c.lemma_descends_covered(x, (n - 1) as nat);
            assert(self.cites(c));
            if c != x {
                self.lemma_cites_transitive(c, x);
            }
        }
    }

    /// The indirect search finds equivocations only: a validator that it
    /// reports has sent two messages at or below the two messages that are
    /// an equivocation.
    pub proof fn lemma_indirect_is_below(self, other: Message<E>, sender: u32)
        requires
            self.indirect_equivocators(other).contains(sender),
        ensures
            self.equivocation_below(other, sender),
    {
        let (x, y) = choose|x: Message<E>, y: Message<E>| #[trigger]
            self.compares(other, x, y) && x.spec_equivocates(y) && x.spec_sender() == sender;
        if self.level_with(other, x, y) {
            let n = choose|n: nat| #[trigger] self.descends(x, n) && other.descends(y, n);
            self.lemma_descends_covered(x, n);
            other.lemma_descends_covered(y, n);
        } else {
            let n = choose|n: nat| #[trigger] other.descends(x, n) && self.descends(y, n + 1);
            other.lemma_descends_covered(x, n);
            self.lemma_descends_covered(y, n + 1);
        }
        assert(self.reaches(other, x) && self.reaches(other, y));
    }

    /// Gathers into `found` one message for each identifier at or below
    /// `self` that has not been visited.
    fn gather(&self, visited: &mut Vec<hash::Hash>, found: &mut Vec<Message<E>>)
        ensures
            final(found)@.len() >= old(found)@.len(),
            final(found)@.take(old(found)@.len() as int) == old(found)@,
            seen(final(visited)@, self.spec_id()),
            forall|id: Seq<u8>| seen(old(visited)@, id) ==> seen(final(visited)@, id),
            forall|k: int|
                old(found)@.len() <= k < final(found)@.len() ==> self.covers(
                    #[trigger] final(found)@[k],
                ),
            forall|id: Seq<u8>|
                seen(final(visited)@, id) && !seen(old(visited)@, id) ==> gathered(
                    final(found)@,
                    old(found)@.len() as int,
                    id,
                    final(visited)@,
                ),
        decreases self,
    {
        let id = self.id();
        if is_seen(visited, &id) {
            assert(found@.take(found@.len() as int) =~= found@);
            return ;
        }
        let ghost start = found@.len() as int;
        let ghost first = visited@;
        visited.push(id);
        found.push(self.clone());
        proof {
            assert(visited@[first.len() as int]@ == id@);
            assert forall|other: Seq<u8>| seen(first, other) implies seen(visited@, other) by {
                let j = choose|j: int| 0 <= j < first.len() && (#[trigger] first[j])@ == other;
                assert(visited@[j]@ == other);
            }
            assert(found@.take(start) =~= old(found)@);
        }
        let cited = self.justification();
        let mut i: usize = 0;
        while i < cited.len()
            invariant
                i <= cited@.len(),
                cited@ == self.spec_justification(),
                start == old(found)@.len(),
                first == old(visited)@,
                !seen(first, self.spec_id()),
                found@.len() > start,
                found@.take(start) == old(found)@,
                found@[start] == *self,
                seen(visited@, self.spec_id()),
                forall|other: Seq<u8>| seen(first, other) ==> seen(visited@, other),
                forall|k: int| 0 <= k < i ==> seen(visited@, (#[trigger] cited@[k]).spec_id()),
                forall|k: int| start <= k < found@.len() ==> self.covers(#[trigger] found@[k]),
                forall|other: Seq<u8>|
                    seen(visited@, other) && !seen(first, other) && other != self.spec_id()
                        ==> gathered(found@, start, other, visited@),
            decreases cited@.len() - i,
        {
            let ghost before = visited@;
            let ghost had = found@;
            proof {
                self.lemma_cited_decreases(i as int);
            }
            cited.get(i).gather(visited, found);
            proof {
                let child = cited@[i as int];
                assert(self.cites(child));
                assert(found@.take(start) =~= old(found)@) by {
                    assert(found@.take(had.len() as int).take(start) =~= found@.take(start));
                }
                assert(found@[start] == *self) by {
                    assert(found@.take(had.len() as int)[start] == found@[start]);
                }
                assert forall|k: int| start <= k < found@.len() implies self.covers(
                    #[trigger] found@[k],
                ) by {
                    if k < had.len() {
                        assert(found@.take(had.len() as int)[k] == found@[k]);
                    } else {
                        assert(child.covers(found@[k]));
                        if found@[k] != child {
                            self.lemma_cites_transitive(child, found@[k]);
                        }
                    }
                }
                assert forall|other: Seq<u8>|
                    seen(visited@, other) && !seen(first, other) && other
                        != self.spec_id() implies gathered(found@, start, other, visited@) by {
                    if seen(before, other) {
                        Self::lemma_gathered_grows(had, found@, start, other, before, visited@);
                    } else {
                        let k = choose|k: int|
                            had.len() <= k < found@.len() && (#[trigger] found@[k]).spec_id()
                                == other && found@[k].all_cited_seen(visited@);
                        assert(start <= k);
                    }
                }
            }
            i += 1;
        }
        proof {
            assert forall|other: Seq<u8>|
                seen(visited@, other) && !seen(first, other) implies gathered(
                found@,
                start,
                other,
                visited@,
            ) by {
                if other == self.spec_id() {
                    assert(found@[start].all_cited_seen(visited@));
                }
            }
        }
    }

    /// Where every visited identifier belongs to a gathered message whose
    /// cited messages have been visited, every message below a gathered
    /// message has been gathered.
    proof fn lemma_gathered_below(
        self,
        other: Message<E>,
        x: Message<E>,
        m: Message<E>,
        visited: Seq<hash::Hash>,
        found: Seq<Message<E>>,
    )
        requires
            self.collision_free_with(other),
            forall|k: int| 0 <= k < found.len() ==> self.reaches(other, #[trigger] found[k]),
            forall|id: Seq<u8>| seen(visited, id) ==> gathered(found, 0, id, visited),
            self.reaches(other, x),
            seen(visited, x.spec_id()),
            x.covers(m),
        ensures
            holds_message(found, m),
        decreases x,
    {
        let k = choose|k: int|
            0 <= k < found.len() && (#[trigger] found[k]).spec_id() == x.spec_id()
                && found[k].all_cited_seen(visited);
        assert(self.reaches(other, found[k]));
        assert(found[k] == x);
        if m != x {
            let i = choose|i: int|
                0 <= i < x.spec_justification().len() && (#[trigger] x.spec_justification()[i] == m
                    || x.spec_justification()[i].cites(m));
            let c = x.spec_justification()[i];
            assert(x.cites(c));
            assert(self.reaches(other, c)) by {
                if self.covers(x) {
                    if x != self {
                        self.lemma_cites_transitive(x, c);
                    }
                } else {
                    if x != other {
                        other.lemma_cites_transitive(x, c);
                    }
                }
            }
            self.lemma_gathered_below(other, c, m, visited, found);
        }
    }

    /// The validators that have sent two messages at or below `self` and
    /// `other` that are an equivocation. Every message at or below the two
    /// is compared with every other.
    ///
    /// What is stated of the outcome holds where no two different messages
    /// at or below `self` or `other` share an identifier.
    pub fn equivocators_below(&self, other: &Message<E>) -> (equivocators: HashSet<u32>)
        ensures
            self.collision_free_with(*other) ==> forall|sender: u32|
                equivocators@.contains(sender) <==> #[trigger] self.equivocation_below(
                    *other,
                    sender,
                ),
    {
        broadcast use vstd::std_specs::hash::group_hash_axioms;

        let ghost exact = self.collision_free_with(*other);
        let mut visited: Vec<hash::Hash> = Vec::new();
        let mut found: Vec<Message<E>> = Vec::new();
        self.gather(&mut visited, &mut found);
        let ghost half = found@;
        let ghost half_visited = visited@;
        other.gather(&mut visited, &mut found);
        proof {
            assert forall|k: int| 0 <= k < found@.len() implies self.reaches(
                *other,
                #[trigger] found@[k],
            ) by {
                if k < half.len() {
                    assert(found@.take(half.len() as int)[k] == found@[k]);
                }
            }
            assert forall|id: Seq<u8>| seen(visited@, id) implies gathered(
                found@,
                0,
                id,
                visited@,
            ) by {
                if seen(half_visited, id) {
                    Self::lemma_gathered_grows(half, found@, 0, id, half_visited, visited@);
                } else {
                    let k = choose|k: int|
                        half.len() <= k < found@.len() && (#[trigger] found@[k]).spec_id() == id
                            && found@[k].all_cited_seen(visited@);
                }
            }
        }
        let mut equivocators: HashSet<u32> = HashSet::new();
        let mut i: usize = 0;
        while i < found.len()
            invariant
                i <= found@.len(),
                exact == self.collision_free_with(*other),
                forall|k: int| 0 <= k < found@.len() ==> self.reaches(*other, #[trigger] found@[k]),
                exact ==> forall|sender: u32|
                    equivocators@.contains(sender) <==> exists|a: int, b: int|
                        0 <= a < i && 0 <= b < found@.len() && (#[trigger] found@[a]).spec_equivocates(
                            #[trigger] found@[b],
                        ) && found@[a].spec_sender() == sender,
            decreases found@.len() - i,
        {
            let mut j: usize = 0;
            while j < found.len()
                invariant
                    i < found@.len(),
                    j <= found@.len(),
                    exact == self.collision_free_with(*other),
                    forall|k: int|
                        0 <= k < found@.len() ==> self.reaches(*other, #[trigger] found@[k]),
                    exact ==> forall|sender: u32|
                        equivocators@.contains(sender) <==> (exists|a: int, b: int|
                            0 <= a < i && 0 <= b < found@.len() && (
                            #[trigger] found@[a]).spec_equivocates(#[trigger] found@[b])
                                && found@[a].spec_sender() == sender) || (exists|b: int|
                            0 <= b < j && found@[i as int].spec_equivocates(#[trigger] found@[b])
                                && found@[i as int].spec_sender() == sender),
                decreases found@.len() - j,
            {
                proof {
                    if exact {
                        assert(self.reaches(*other, found@[i as int]));
                        assert(self.reaches(*other, found@[j as int]));
                        self.lemma_reached_collision_free(*other, found@[i as int]);
                        self.lemma_reached_collision_free(*other, found@[j as int]);
                    }
                }
                let ghost before = equivocators@;
                if found[i].equivocates(&found[j]) {
                    equivocators.insert(*found[i].sender());
                }
                proof {
                    if exact {
                        assert forall|sender: u32|
                            equivocators@.contains(sender) <==> (exists|a: int, b: int|
                                0 <= a < i && 0 <= b < found@.len() && (
                                #[trigger] found@[a]).spec_equivocates(#[trigger] found@[b])
                                    && found@[a].spec_sender() == sender) || (exists|b: int|
                                0 <= b < j + 1 && found@[i as int].spec_equivocates(
                                    #[trigger] found@[b],
                                ) && found@[i as int].spec_sender() == sender) by {
                            if exists|b: int|
                                0 <= b < j + 1 && found@[i as int].spec_equivocates(
                                    #[trigger] found@[b],
                                ) && found@[i as int].spec_sender() == sender {
                                let b = choose|b: int|
                                    0 <= b < j + 1 && found@[i as int].spec_equivocates(
                                        #[trigger] found@[b],
                                    ) && found@[i as int].spec_sender() == sender;
                                if b < j {
                                    assert(before.contains(sender));
                                }
                            }
                            if exists|b: int|
                                0 <= b < j && found@[i as int].spec_equivocates(
                                    #[trigger] found@[b],
                                ) && found@[i as int].spec_sender() == sender {
                                let b = choose|b: int|
                                    0 <= b < j && found@[i as int].spec_equivocates(
                                        #[trigger] found@[b],
                                    ) && found@[i as int].spec_sender() == sender;
                                assert(0 <= b < j + 1);
                            }
                        }
                    }
                }
                j += 1;
            }
            proof {
                if exact {
                    assert forall|sender: u32|
                        equivocators@.contains(sender) <==> exists|a: int, b: int|
                            0 <= a < i + 1 && 0 <= b < found@.len() && (
                            #[trigger] found@[a]).spec_equivocates(#[trigger] found@[b])
                                && found@[a].spec_sender() == sender by {
                        if exists|a: int, b: int|
                            0 <= a < i + 1 && 0 <= b < found@.len() && (
                            #[trigger] found@[a]).spec_equivocates(#[trigger] found@[b])
                                && found@[a].spec_sender() == sender {
                            let (a, b) = choose|a: int, b: int|
                                0 <= a < i + 1 && 0 <= b < found@.len() && (
                                #[trigger] found@[a]).spec_equivocates(#[trigger] found@[b])
                                    && found@[a].spec_sender() == sender;
                            if a == i {
                                assert(found@[i as int].spec_equivocates(found@[b]));
                            }
                        }
                        if exists|b: int|
                            0 <= b < found@.len() && found@[i as int].spec_equivocates(
                                #[trigger] found@[b],
                            ) && found@[i as int].spec_sender() == sender {
                            let b = choose|b: int|
                                0 <= b < found@.len() && found@[i as int].spec_equivocates(
                                    #[trigger] found@[b],
                                ) && found@[i as int].spec_sender() == sender;
                            assert(found@[i as int].spec_equivocates(found@[b]));
                        }
                    }
                }
            }
            i += 1;
        }
        proof {
            if exact {
                assert forall|sender: u32|
                    equivocators@.contains(sender) <==> #[trigger] self.equivocation_below(
                        *other,
                        sender,
                    ) by {
                    if equivocators@.contains(sender) {
                        let (a, b) = choose|a: int, b: int|
                            0 <= a < found@.len() && 0 <= b < found@.len() && (
                            #[trigger] found@[a]).spec_equivocates(#[trigger] found@[b])
                                && found@[a].spec_sender() == sender;
                        assert(self.reaches(*other, found@[a]));
                        assert(self.reaches(*other, found@[b]));
                    }
                    if self.equivocation_below(*other, sender) {
                        let (x, y) = choose|x: Message<E>, y: Message<E>|
                            #![trigger self.reaches(*other, x), self.reaches(*other, y)]
                            self.reaches(*other, x) && self.reaches(*other, y)
                                && x.spec_equivocates(y) && x.spec_sender() == sender;
                        let root_x = if self.covers(x) {
                            *self
                        } else {
                            *other
                        };
                        let root_y = if self.covers(y) {
                            *self
                        } else {
                            *other
                        };
                        self.lemma_gathered_below(*other, root_x, x, visited@, found@);
                        self.lemma_gathered_below(*other, root_y, y, visited@, found@);
                        let a = choose|a: int| 0 <= a < found@.len() && found@[a] == x;
                        let b = choose|b: int| 0 <= b < found@.len() && found@[b] == y;
                        assert(found@[a].spec_equivocates(found@[b]));
                    }
                }
            }
        }
        equivocators
    }

    /// Where no two different messages at or below `self` or `other` share
    /// an identifier, none at or below a message that the two reach do.
    proof fn lemma_reached_collision_free(self, other: Message<E>, c: Message<E>)
        requires
            self.collision_free_with(other),
            self.reaches(other, c),
        ensures
            c.collision_free(),
    {
        assert forall|x: Message<E>, y: Message<E>|
            #![trigger c.covers(x), c.covers(y)]
            c.covers(x) && c.covers(y) && x.spec_id() == y.spec_id() implies x == y by {
            let root = if self.covers(c) {
                self
            } else {
                other
            };
            if c != root {
                if x != c {
                    root.lemma_cites_transitive(c, x);
                }
                if y != c {
                    root.lemma_cites_transitive(c, y);
                }
            }
            assert(root.covers(x) && root.covers(y));
            assert(self.reaches(other, x) && self.reaches(other, y));
        }
    }
}

/// `m` is one of `msgs`.
spec fn holds_message<E>(msgs: Seq<Message<E>>, m: Message<E>) -> bool {
    exists|k: int| 0 <= k < msgs.len() && msgs[k] == m
}

impl<E> PartialEq for Message<E> {
    /// Messages are equal when their identifiers are.
    fn eq(&self, other: &Self) -> (r: bool) {
        self.id.eq(&other.id)
    }
}

impl<E> PartialEqSpecImpl for Message<E> {
    open spec fn obeys_eq_spec() -> bool {
        true
    }

    open spec fn eq_spec(&self, other: &Self) -> bool {
        self.spec_id() == other.spec_id()
    }
}

impl<E> Eq for Message<E> {
}

impl<E> Clone for Message<E> {
    /// A second handle to the same message.
    fn clone(&self) -> (m: Self)
        ensures
            m == *self,
    {
        Message { proto: share(&self.proto), id: self.id }
    }
}

} // verus!
