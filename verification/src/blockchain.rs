//! Blocks, the GHOST fork choice and the safety oracle.

use crate::justification::all_collision_free;
use crate::justification::latest_honest;
use crate::justification::traversed;
use crate::justification::LatestMsgs;
use crate::justification::LatestMsgsHonest;
use crate::message::Message;
use crate::traits::Id;
use crate::traits::Serialize;
use crate::traits::Estimate;
use crate::util::cancel::Cancel;
use crate::util::cancel::Never;
use crate::util::clique::ascending;
use crate::util::clique::has;
use crate::util::clique::is_graph;
use crate::util::clique::is_maximal_clique;
use crate::util::clique::lemma_push_contains;
use crate::util::clique::linked;
use crate::util::clique::maximal_cliques_unless;
use crate::util::clique::holds_clique;
use crate::util::codec::be32;
use crate::util::codec::put_be32;
use crate::util::codec::put_bytes;
use crate::util::handle::share;
use crate::util::hash;
use crate::util::hash::lex_lt;
use crate::util::weight::sum_of;
use crate::util::weight::SendersWeight;
use crate::util::weight::WeightUnit;
use std::collections::HashSet;
use std::sync::Arc;
use vstd::prelude::*;
use vstd::std_specs::cmp::PartialEqSpecImpl;
use vstd::std_specs::convert::FromSpecImpl;

verus! {

/// The payload of a block.
#[derive(Debug)]
pub struct ProtoBlock {
    prevblock: Option<Block>,
    data: u32,
}

/// A block of a chain: its predecessor, if it has one, and its data. The
/// payload is shared between all handles; the identifier is computed once.
#[derive(Debug)]
pub struct Block {
    proto: Arc<ProtoBlock>,
    id: hash::Hash,
}

/// The failure of the fork choice: no block could be chosen.
#[derive(Clone, Copy, Debug, PartialEq, Eq, Structural)]
pub struct Error;

/// The canonical bytes of a block: one byte that says whether there is a
/// predecessor, the identifier of the predecessor where there is one, and
/// the data, big-endian.
pub open spec fn block_encoding(prev: Option<Seq<u8>>, data: u32) -> Seq<u8> {
    match prev {
        None => seq![0u8] + be32(data),
        Some(id) => seq![1u8] + id + be32(data),
    }
}

impl ProtoBlock {
    /// The payload with the given predecessor and no data.
    pub fn new(prevblock: Option<Block>) -> (proto: ProtoBlock)
        ensures
            proto.spec_prevblock() == prevblock,
            proto.spec_data() == 0,
    {
        ProtoBlock { prevblock, data: 0 }
    }

    /// The payload with the given predecessor and data.
    pub fn with_data(prevblock: Option<Block>, data: u32) -> (proto: ProtoBlock)
        ensures
            proto.spec_prevblock() == prevblock,
            proto.spec_data() == data,
    {
        ProtoBlock { prevblock, data }
    }

    /// The predecessor.
    pub closed spec fn spec_prevblock(self) -> Option<Block> {
        self.prevblock
    }

    /// The data.
    pub closed spec fn spec_data(self) -> u32 {
        self.data
    }
}

impl Block {
    /// The predecessor.
    pub closed spec fn spec_prevblock(self) -> Option<Block> {
        self.proto.prevblock
    }

    /// The data.
    pub closed spec fn spec_data(self) -> u32 {
        self.proto.data
    }

    /// The bytes of the identifier.
    pub closed spec fn spec_id(self) -> Seq<u8> {
        self.id@
    }

    /// The identifier of the predecessor, where there is one.
    pub open spec fn prev_id(self) -> Option<Seq<u8>> {
        match self.spec_prevblock() {
            None => None,
            Some(prev) => Some(prev.spec_id()),
        }
    }

    /// The identifier is the digest of the canonical bytes.
    pub open spec fn identified(self) -> bool {
        self.spec_id() == hash::blake2b_512(block_encoding(self.prev_id(), self.spec_data()))
    }

    /// Every identifier has 64 bytes.
    pub proof fn lemma_id_len(self)
        ensures
            self.spec_id().len() == 64,
    {
        self.id.lemma_len();
    }

    /// A block is determined by its predecessor, its data and its identifier.
    pub proof fn lemma_determined(self, other: Block)
        requires
            self.spec_prevblock() == other.spec_prevblock(),
            self.spec_data() == other.spec_data(),
            self.spec_id() == other.spec_id(),
        ensures
            self == other,
    {
        self.id.lemma_view_injective(other.id);
    }

    /// The block with the given predecessor, data and identifier.
    pub open spec fn made_of(prevblock: Option<Block>, data: u32) -> Block {
        choose|b: Block| b.spec_prevblock() == prevblock && b.spec_data() == data && b.identified()
    }

    /// `self` is `rhs` or one of the blocks before it.
    pub open spec fn spec_is_member(self, rhs: Block) -> bool
        decreases rhs,
    {
        self.spec_id() == rhs.spec_id() || match rhs.spec_prevblock() {
            None => false,
            Some(prev) => self.spec_is_member(prev),
        }
    }

    /// The block with the given predecessor and no data.
    pub fn new(prevblock: Option<Block>) -> (block: Block)
        ensures
            block == Self::made_of(prevblock, 0),
            block.spec_prevblock() == prevblock,
            block.spec_data() == 0,
            block.identified(),
    {
        Self::from_proto(ProtoBlock::new(prevblock))
    }

    /// The block with the given predecessor and data.
    pub fn with_data(prevblock: Option<Block>, data: u32) -> (block: Block)
        ensures
            block == Self::made_of(prevblock, data),
            block.spec_prevblock() == prevblock,
            block.spec_data() == data,
            block.identified(),
    {
        Self::from_proto(ProtoBlock::with_data(prevblock, data))
    }

    /// The block with the given payload.
    pub fn from_proto(proto: ProtoBlock) -> (block: Block)
        ensures
            block == Self::made_of(proto.spec_prevblock(), proto.spec_data()),
            block.spec_prevblock() == proto.spec_prevblock(),
            block.spec_data() == proto.spec_data(),
            block.identified(),
    {
        let mut bin: Vec<u8> = Vec::new();
        match &proto.prevblock {
            None => {
                bin.push(0u8);
            },
            Some(prev) => {
                bin.push(1u8);
                let id = prev.id.to_vec();
                put_bytes(&mut bin, id.as_slice());
            },
        }
        put_be32(&mut bin, proto.data);
        let ghost made = Self::made_of(proto.spec_prevblock(), proto.spec_data());
        let ghost encoded = block_encoding(
            match proto.spec_prevblock() {
                None => None,
                Some(prev) => Some(prev.spec_id()),
            },
            proto.spec_data(),
        );
        assert(bin@ =~= encoded);
        let id = hash::Hash::digest(bin.as_slice());
        let block = Block { proto: Arc::new(proto), id };
        proof {
            made.lemma_determined(block);
        }
        block
    }

    /// The estimate of `msg`.
    pub fn from_msg(msg: &Message<Block>) -> (block: Block)
        ensures
            block == msg.spec_estimate(),
    {
        msg.estimate().clone()
    }

    /// The block whose predecessor is the estimate of `prevblock_msg`, where
    /// there is one, and whose data are those of `incomplete_block`.
    pub fn from_prevblock_msg(prevblock_msg: Option<Message<Block>>, incomplete_block: Block) -> (block:
        Block)
        ensures
            block == Self::made_of(
                match prevblock_msg {
                    None => None,
                    Some(msg) => Some(msg.spec_estimate()),
                },
                incomplete_block.spec_data(),
            ),
            block.identified(),
    {
        let prevblock = match prevblock_msg {
            None => None,
            Some(msg) => Some(Block::from_msg(&msg)),
        };
        Block::with_data(prevblock, incomplete_block.proto.data)
    }

    /// The predecessor, where there is one.
    pub fn prevblock(&self) -> (prev: Option<Block>)
        ensures
            prev == self.spec_prevblock(),
    {
        match &self.proto.prevblock {
            None => None,
            Some(prev) => Some(prev.clone()),
        }
    }

    /// The data.
    pub fn data(&self) -> (data: u32)
        ensures
            data == self.spec_data(),
    {
        self.proto.data
    }

    /// The identifier.
    pub fn id(&self) -> (id: hash::Hash)
        ensures
            id@ == self.spec_id(),
    {
        self.id
    }

    /// Whether both blocks have the same identifier.
    pub fn eq(&self, rhs: &Block) -> (r: bool)
        ensures
            r == (self.spec_id() == rhs.spec_id()),
    {
        self.id.eq(&rhs.id)
    }

    /// Whether `self` is `rhs` or one of the blocks before it.
    pub fn is_member(&self, rhs: &Block) -> (r: bool)
        ensures
            r == self.spec_is_member(*rhs),
    {
        let mut current = rhs;
        loop
            invariant
                self.spec_is_member(*rhs) == self.spec_is_member(*current),
            decreases *current,
        {
            if self.eq(current) {
                return true;
            }
            match &current.proto.prevblock {
                None => {
                    return false;
                },
                Some(prev) => {
                    current = prev;
                },
            }
        }
    }
}

impl PartialEq for Block {
    /// Blocks are equal when their identifiers are.
    fn eq(&self, rhs: &Self) -> (r: bool) {
        self.id.eq(&rhs.id)
    }
}

impl PartialEqSpecImpl for Block {
    open spec fn obeys_eq_spec() -> bool {
        true
    }

    open spec fn eq_spec(&self, rhs: &Self) -> bool {
        self.spec_id() == rhs.spec_id()
    }
}

impl Eq for Block {
}

impl From<ProtoBlock> for Block {
    /// The block with the given payload.
    fn from(proto: ProtoBlock) -> (block: Block) {
        Block::from_proto(proto)
    }
}

impl FromSpecImpl<ProtoBlock> for Block {
    open spec fn obeys_from_spec() -> bool {
        true
    }

    open spec fn from_spec(proto: ProtoBlock) -> Block {
        Block::made_of(proto.spec_prevblock(), proto.spec_data())
    }
}

impl From<&Message<Block>> for Block {
    /// The estimate of `msg`.
    fn from(msg: &Message<Block>) -> (block: Block) {
        Block::from_msg(msg)
    }
}

impl FromSpecImpl<&Message<Block>> for Block {
    open spec fn obeys_from_spec() -> bool {
        true
    }

    open spec fn from_spec(msg: &Message<Block>) -> Block {
        msg.spec_estimate()
    }
}

impl Clone for Block {
    /// A second handle to the same block.
    fn clone(&self) -> (block: Self)
        ensures
            block == *self,
    {
        Block { proto: share(&self.proto), id: self.id }
    }
}

impl Serialize for Block {
    /// The canonical bytes of the block.
    open spec fn encoding(&self) -> Seq<u8> {
        block_encoding(self.prev_id(), self.spec_data())
    }

    fn serialize(&self) -> (bin: Vec<u8>) {
        let mut bin: Vec<u8> = Vec::new();
        match &self.proto.prevblock {
            None => {
                bin.push(0u8);
            },
            Some(prev) => {
                bin.push(1u8);
                let id = prev.id.to_vec();
                put_bytes(&mut bin, id.as_slice());
            },
        }
        put_be32(&mut bin, self.proto.data);
        assert(bin@ =~= self.encoding());
        bin
    }
}

impl Id for Block {
    type ID = hash::Hash;

    closed spec fn digest(data: Seq<u8>) -> hash::Hash {
        hash::spec_digest(data)
    }

    fn hash(data: &[u8]) -> (id: hash::Hash) {
        hash::Hash::digest(data)
    }
}

/// One of `blocks` has the identifier `id`.
pub open spec fn holds_block(blocks: Seq<Block>, id: Seq<u8>) -> bool {
    exists|i: int| 0 <= i < blocks.len() && (#[trigger] blocks[i]).spec_id() == id
}

/// `block` and the blocks before it, the nearest first.
pub open spec fn chain(block: Block) -> Seq<Block>
    decreases block,
{
    match block.spec_prevblock() {
        None => seq![block],
        Some(prev) => seq![block] + chain(prev),
    }
}

/// The chains of all `tips`, one after the other.
pub open spec fn chains(tips: Seq<Block>) -> Seq<Block>
    decreases tips.len(),
{
    if tips.len() == 0 {
        Seq::empty()
    } else {
        chains(tips.drop_last()) + chain(tips.last())
    }
}

/// `blocks` without repetitions: each identifier at the place where it
/// first occurs.
pub open spec fn distinct_blocks(blocks: Seq<Block>) -> Seq<Block>
    decreases blocks.len(),
{
    if blocks.len() == 0 {
        Seq::empty()
    } else {
        let rest = distinct_blocks(blocks.drop_last());
        if holds_block(rest, blocks.last().spec_id()) {
            rest
        } else {
            rest.push(blocks.last())
        }
    }
}

/// The blocks that the messages propose.
pub open spec fn tips(latest_msgs: Seq<Message<Block>>) -> Seq<Block> {
    latest_msgs.map_values(|m: Message<Block>| m.spec_estimate())
}

/// Every block that lies on the chain of a proposed block, once each.
pub open spec fn block_graph(latest_msgs: Seq<Message<Block>>) -> Seq<Block> {
    distinct_blocks(chains(tips(latest_msgs)))
}

/// The blocks of `graph` whose predecessor has the identifier `id`.
pub open spec fn children_of(id: Seq<u8>, graph: Seq<Block>) -> Seq<Block>
    decreases graph.len(),
{
    if graph.len() == 0 {
        Seq::empty()
    } else {
        let rest = children_of(id, graph.drop_last());
        if graph.last().prev_id() == Some(id) {
            rest.push(graph.last())
        } else {
            rest
        }
    }
}

/// The blocks of `graph` without a predecessor.
pub open spec fn genesis_of(graph: Seq<Block>) -> Seq<Block>
    decreases graph.len(),
{
    if graph.len() == 0 {
        Seq::empty()
    } else {
        let rest = genesis_of(graph.drop_last());
        if graph.last().spec_prevblock().is_none() {
            rest.push(graph.last())
        } else {
            rest
        }
    }
}

/// The senders of the messages whose proposed block is `block` or comes
/// after it.
pub open spec fn supporters(block: Block, latest_msgs: Seq<Message<Block>>) -> Seq<u32>
    decreases latest_msgs.len(),
{
    if latest_msgs.len() == 0 {
        Seq::empty()
    } else {
        let rest = supporters(block, latest_msgs.drop_last());
        if block.spec_is_member(latest_msgs.last().spec_estimate()) {
            rest.push(latest_msgs.last().spec_sender())
        } else {
            rest
        }
    }
}

/// The sum of the weights of those of `senders` that have a weight.
pub open spec fn sum_known(weights: Map<u32, WeightUnit>, senders: Seq<u32>) -> WeightUnit
    decreases senders.len(),
{
    if senders.len() == 0 {
        WeightUnit::Finite(0)
    } else {
        let rest = sum_known(weights, senders.drop_last());
        if weights.contains_key(senders.last()) {
            rest.spec_plus(weights[senders.last()])
        } else {
            rest
        }
    }
}

/// The weight behind `block`: the sum of the weights of its supporters.
pub open spec fn score(
    block: Block,
    latest_msgs: Seq<Message<Block>>,
    weights: Map<u32, WeightUnit>,
) -> WeightUnit {
    sum_known(weights, supporters(block, latest_msgs))
}

/// `challenger` beats `best`: it has the larger score, or neither score is
/// larger and it has the larger identifier.
pub open spec fn beats(
    challenger: Block,
    best: Block,
    latest_msgs: Seq<Message<Block>>,
    weights: Map<u32, WeightUnit>,
) -> bool {
    let mine = score(challenger, latest_msgs, weights);
    let theirs = score(best, latest_msgs, weights);
    theirs.spec_lt(mine) || (!mine.spec_lt(theirs) && lex_lt(best.spec_id(), challenger.spec_id()))
}

/// The heaviest of `blocks`: the first block, replaced in turn by each later
/// block that beats the block held so far.
pub open spec fn heaviest(
    blocks: Seq<Block>,
    latest_msgs: Seq<Message<Block>>,
    weights: Map<u32, WeightUnit>,
) -> Option<Block>
    decreases blocks.len(),
{
    if blocks.len() == 0 {
        None
    } else {
        match heaviest(blocks.drop_last(), latest_msgs, weights) {
            None => Some(blocks.last()),
            Some(best) => if beats(blocks.last(), best, latest_msgs, weights) {
                Some(blocks.last())
            } else {
                Some(best)
            },
        }
    }
}

/// The children that `visited` records for the block with the identifier `id`.
pub open spec fn recorded_children(visited: Seq<(Block, Seq<Block>)>, id: Seq<u8>) -> Option<
    Seq<Block>,
>
    decreases visited.len(),
{
    if visited.len() == 0 {
        None
    } else if visited.first().0.spec_id() == id {
        Some(visited.first().1)
    } else {
        recorded_children(visited.drop_first(), id)
    }
}

/// The block that the descent from `blocks` ends at: the heaviest of
/// `blocks` where it has no children, and else the end of the descent from
/// its children. There is none where `blocks` is empty, where a block on the
/// way has no record in `visited`, or after `fuel` descents.
pub open spec fn descend(
    blocks: Seq<Block>,
    visited: Seq<(Block, Seq<Block>)>,
    latest_msgs: Seq<Message<Block>>,
    weights: Map<u32, WeightUnit>,
    fuel: nat,
) -> Option<Block>
    decreases fuel,
{
    if fuel == 0 {
        None
    } else {
        match heaviest(blocks, latest_msgs, weights) {
            None => None,
            Some(best) => match recorded_children(visited, best.spec_id()) {
                None => None,
                Some(children) => if children.len() == 0 {
                    Some(best)
                } else {
                    descend(children, visited, latest_msgs, weights, (fuel - 1) as nat)
                },
            },
        }
    }
}

/// The records behind `visited`, as mathematical values.
pub open spec fn records(visited: Seq<(Block, Vec<Block>)>) -> Seq<(Block, Seq<Block>)> {
    visited.map_values(|entry: (Block, Vec<Block>)| (entry.0, entry.1@))
}

/// For each block of `graph` in turn, the block with its children in `graph`.
pub open spec fn children_map(graph: Seq<Block>) -> Seq<(Block, Seq<Block>)> {
    graph.map_values(|block: Block| (block, children_of(block.spec_id(), graph)))
}

/// `latest_blocks` holds, for each message in turn, the proposed block and the sender.
pub open spec fn records_tips(latest_blocks: Seq<(Block, u32)>, latest_msgs: Seq<Message<Block>>) -> bool {
    &&& latest_blocks.len() == latest_msgs.len()
    &&& forall|i: int|
        0 <= i < latest_msgs.len() ==> #[trigger] latest_blocks[i] == (
            latest_msgs[i].spec_estimate(),
            latest_msgs[i].spec_sender(),
        )
}

/// The block that the fork choice arrives at: the end of the descent from
/// the blocks without a predecessor, through the children that each block
/// has in the graph of the proposed blocks.
pub open spec fn ghost_choice(latest_msgs: Seq<Message<Block>>, weights: Map<u32, WeightUnit>) -> Option<
    Block,
> {
    let graph = block_graph(latest_msgs);
    descend(genesis_of(graph), children_map(graph), latest_msgs, weights, graph.len())
}

/// Whether one of `blocks` has the identifier of `block`.
fn is_recorded(blocks: &Vec<Block>, block: &Block) -> (r: bool)
    ensures
        r == holds_block(blocks@, block.spec_id()),
{
    let mut i: usize = 0;
    while i < blocks.len()
        invariant
            i <= blocks@.len(),
            forall|k: int| 0 <= k < i ==> (#[trigger] blocks@[k]).spec_id() != block.spec_id(),
        decreases blocks@.len() - i,
    {
        if blocks[i].eq(block) {
            return true;
        }
        i += 1;
    }
    false
}

proof fn lemma_chains_step(tips: Seq<Block>, i: int)
    requires
        0 <= i < tips.len(),
    ensures
        chains(tips.take(i + 1)) == chains(tips.take(i)) + chain(tips[i]),
{
    assert(tips.take(i + 1).drop_last() =~= tips.take(i));
}

/// Every block on the chain of a proposed block, once each.
fn graph_of(latest_msgs: &LatestMsgsHonest<Block>) -> (graph: Vec<Block>)
    ensures
        graph@ == block_graph(latest_msgs@),
{
    let msgs = latest_msgs.iter();
    let ghost tips = tips(msgs@);
    let mut graph: Vec<Block> = Vec::new();
    let mut i: usize = 0;
    while i < msgs.len()
        invariant
            i <= msgs@.len(),
            tips == self::tips(msgs@),
            graph@ == distinct_blocks(chains(tips.take(i as int))),
        decreases msgs@.len() - i,
    {
        let mut current = msgs[i].estimate();
        let ghost done = chains(tips.take(i as int));
        let ghost mut walked = Seq::<Block>::empty();
        proof {
            lemma_chains_step(tips, i as int);
            assert(done + walked =~= done);
        }
        loop
            invariant_except_break
                graph@ == distinct_blocks(done + walked),
            invariant
                0 <= i < tips.len(),
                chain(tips[i as int]) == walked + chain(*current),
            ensures
                graph@ == distinct_blocks(done + chain(tips[i as int])),
            decreases *current,
        {
            proof {
                assert((done + walked.push(*current)).drop_last() =~= done + walked);
                assert((done + walked.push(*current)).last() == *current);
            }
            if !is_recorded(&graph, current) {
                graph.push(current.clone());
            }
            match &current.proto.prevblock {
                None => {
                    proof {
                        assert(walked.push(*current) =~= walked + chain(*current));
                    }
                    break ;
                },
                Some(prev) => {
                    proof {
                        assert(walked.push(*current) + chain(*prev) =~= walked + chain(*current));
                        walked = walked.push(*current);
                    }
                    current = prev;
                },
            }
        }
        i += 1;
    }
    proof {
        assert(tips.take(msgs@.len() as int) =~= tips);
    }
    graph
}

/// The children that `visited` records for `block`.
fn children_in<'a>(visited: &'a Vec<(Block, Vec<Block>)>, block: &Block) -> (r: Option<
    &'a Vec<Block>,
>)
    ensures
        match r {
            None => recorded_children(records(visited@), block.spec_id()).is_none(),
            Some(children) => recorded_children(records(visited@), block.spec_id()) == Some(
                children@,
            ),
        },
{
    let ghost all = records(visited@);
    let mut i: usize = 0;
    proof {
        assert(all.skip(0) =~= all);
    }
    while i < visited.len()
        invariant
            i <= visited@.len(),
            all == records(visited@),
            recorded_children(all, block.spec_id()) == recorded_children(
                all.skip(i as int),
                block.spec_id(),
            ),
        decreases visited@.len() - i,
    {
        proof {
            assert(all.skip(i as int).drop_first() =~= all.skip(i + 1));
            assert(all.skip(i as int).first() == (visited@[i as int].0, visited@[i as int].1@));
        }
        if visited[i].0.eq(block) {
            return Some(&visited[i].1);
        }
        i += 1;
    }
    None
}

impl Block {
    /// The senders of the latest messages whose proposed block is `block` or
    /// comes after it, in the order of the messages.
    pub fn collect_validators(block: &Block, latest_msgs: &LatestMsgsHonest<Block>) -> (validators:
        Vec<u32>)
        ensures
            validators@ == supporters(*block, latest_msgs@),
    {
        let msgs = latest_msgs.iter();
        let mut validators: Vec<u32> = Vec::new();
        let mut i: usize = 0;
        while i < msgs.len()
            invariant
                i <= msgs@.len(),
                validators@ == supporters(*block, msgs@.take(i as int)),
            decreases msgs@.len() - i,
        {
            proof {
                assert(msgs@.take(i + 1).drop_last() =~= msgs@.take(i as int));
            }
            if block.is_member(msgs[i].estimate()) {
                validators.push(*msgs[i].sender());
            }
            i += 1;
        }
        proof {
            assert(msgs@.take(msgs@.len() as int) =~= msgs@);
        }
        validators
    }

    /// The weight behind `block`.
    fn score(block: &Block, latest_msgs: &LatestMsgsHonest<Block>, weights: &SendersWeight) -> (r:
        WeightUnit)
        ensures
            r == score(*block, latest_msgs@, weights@),
    {
        let validators = Self::collect_validators(block, latest_msgs);
        let mut total = WeightUnit::Finite(0);
        let mut i: usize = 0;
        while i < validators.len()
            invariant
                i <= validators@.len(),
                total == sum_known(weights@, validators@.take(i as int)),
            decreases validators@.len() - i,
        {
            proof {
                assert(validators@.take(i + 1).drop_last() =~= validators@.take(i as int));
            }
            match weights.weight(validators[i]) {
                Ok(w) => {
                    total = total.plus(w);
                },
                Err(_) => {},
            }
            i += 1;
        }
        proof {
            assert(validators@.take(validators@.len() as int) =~= validators@);
        }
        total
    }

    /// The graph of the proposed blocks: for each block on the chain of a
    /// proposed block, its children; the blocks without a predecessor; and
    /// for each message the proposed block with its sender.
    pub fn parse_blockchains(latest_msgs: &LatestMsgsHonest<Block>) -> (r: (
        Vec<(Block, Vec<Block>)>,
        Vec<Block>,
        Vec<(Block, u32)>,
    ))
        ensures
            records(r.0@) == children_map(block_graph(latest_msgs@)),
            r.1@ == genesis_of(block_graph(latest_msgs@)),
            records_tips(r.2@, latest_msgs@),
    {
        let graph = graph_of(latest_msgs);
        let mut visited: Vec<(Block, Vec<Block>)> = Vec::new();
        let mut genesis: Vec<Block> = Vec::new();
        let mut i: usize = 0;
        while i < graph.len()
            invariant
                i <= graph@.len(),
                visited@.len() == i,
                forall|k: int|
                    0 <= k < i ==> (#[trigger] visited@[k]).0 == graph@[k] && visited@[k].1@
                        == children_of(graph@[k].spec_id(), graph@),
                genesis@ == genesis_of(graph@.take(i as int)),
            decreases graph@.len() - i,
        {
            let block = &graph[i];
            let mut children: Vec<Block> = Vec::new();
            let mut k: usize = 0;
            while k < graph.len()
                invariant
                    k <= graph@.len(),
                    children@ == children_of(block.spec_id(), graph@.take(k as int)),
                decreases graph@.len() - k,
            {
                proof {
                    assert(graph@.take(k + 1).drop_last() =~= graph@.take(k as int));
                }
                let is_child = match &graph[k].proto.prevblock {
                    None => false,
                    Some(prev) => prev.eq(block),
                };
                if is_child {
                    children.push(graph[k].clone());
                }
                k += 1;
            }
            proof {
                assert(graph@.take(graph@.len() as int) =~= graph@);
                assert(graph@.take(i + 1).drop_last() =~= graph@.take(i as int));
            }
            if block.proto.prevblock.is_none() {
                genesis.push(block.clone());
            }
            visited.push((block.clone(), children));
            i += 1;
        }
        proof {
            assert(graph@.take(graph@.len() as int) =~= graph@);
        }
        proof {
            assert(records(visited@) =~= children_map(graph@));
        }
        let msgs = latest_msgs.iter();
        let mut latest_blocks: Vec<(Block, u32)> = Vec::new();
        let mut i: usize = 0;
        while i < msgs.len()
            invariant
                i <= msgs@.len(),
                latest_blocks@.len() == i,
                forall|k: int|
                    0 <= k < i ==> #[trigger] latest_blocks@[k] == (
                        msgs@[k].spec_estimate(),
                        msgs@[k].spec_sender(),
                    ),
            decreases msgs@.len() - i,
        {
            latest_blocks.push((msgs[i].estimate().clone(), *msgs[i].sender()));
            i += 1;
        }
        (visited, genesis, latest_blocks)
    }

    /// The heaviest of `blocks`.
    fn heaviest(blocks: &Vec<Block>, latest_msgs: &LatestMsgsHonest<Block>, weights: &SendersWeight) -> (r:
        Option<Block>)
        ensures
            r == heaviest(blocks@, latest_msgs@, weights@),
    {
        if blocks.len() == 0 {
            return None;
        }
        let mut best: &Block = &blocks[0];
        let mut best_score = Self::score(best, latest_msgs, weights);
        proof {
            assert(blocks@.take(1).drop_last() =~= Seq::<Block>::empty());
            assert(blocks@.take(1).last() == blocks@[0]);
            assert(heaviest(Seq::<Block>::empty(), latest_msgs@, weights@).is_none());
        }
        let mut i: usize = 1;
        while i < blocks.len()
            invariant
                1 <= i <= blocks@.len(),
                heaviest(blocks@.take(i as int), latest_msgs@, weights@) == Some(*best),
                best_score == score(*best, latest_msgs@, weights@),
            decreases blocks@.len() - i,
        {
            proof {
                assert(blocks@.take(i + 1).drop_last() =~= blocks@.take(i as int));
            }
            let challenger = &blocks[i];
            let mine = Self::score(challenger, latest_msgs, weights);
            if best_score.lt(mine) || (!mine.lt(best_score) && best.id.lt(&challenger.id)) {
                best = challenger;
                best_score = mine;
            }
            i += 1;
        }
        proof {
            assert(blocks@.take(blocks@.len() as int) =~= blocks@);
        }
        Some(best.clone())
    }

    /// The block that the descent from `blocks` ends at: at each step the
    /// heaviest block is chosen, and the descent goes on among the children
    /// that `visited` records for it, until a block has none. There are at
    /// most as many steps as `visited` has records.
    pub fn pick_heaviest(
        blocks: &Vec<Block>,
        visited: &Vec<(Block, Vec<Block>)>,
        weights: &SendersWeight,
        latest_msgs: &LatestMsgsHonest<Block>,
    ) -> (r: Option<Block>)
        ensures
            r == descend(blocks@, records(visited@), latest_msgs@, weights@, visited@.len()),
    {
        match Self::pick_heaviest_unless(blocks, visited, weights, latest_msgs, &Never) {
            Some(choice) => choice,
            None => None,
        }
    }

    /// The block that the descent from `blocks` ends at, unless `cancel`
    /// is raised meanwhile: the signal is looked at before every step of the
    /// descent, which gives up with `None` once it is seen raised.
    pub fn pick_heaviest_unless<C: Cancel>(
        blocks: &Vec<Block>,
        visited: &Vec<(Block, Vec<Block>)>,
        weights: &SendersWeight,
        latest_msgs: &LatestMsgsHonest<Block>,
        cancel: &C,
    ) -> (r: Option<Option<Block>>)
        ensures
            r is None ==> cancel.can_be_raised(),
            r matches Some(choice) ==> choice == descend(
                blocks@,
                records(visited@),
                latest_msgs@,
                weights@,
                visited@.len(),
            ),
    {
        let mut candidates = blocks;
        let mut fuel = visited.len();
        while fuel > 0
            invariant
                descend(blocks@, records(visited@), latest_msgs@, weights@, visited@.len())
                    == descend(
                    candidates@,
                    records(visited@),
                    latest_msgs@,
                    weights@,
                    fuel as nat,
                ),
            decreases fuel,
        {
            if cancel.is_raised() {
                return None;
            }
            match Self::heaviest(candidates, latest_msgs, weights) {
                None => {
                    return Some(None);
                },
                Some(best) => match children_in(visited, &best) {
                    None => {
                        return Some(None);
                    },
                    Some(children) => {
                        if children.len() == 0 {
                            return Some(Some(best));
                        }
                        candidates = children;
                        fuel -= 1;
                    },
                },
            }
        }
        Some(None)
    }

    /// The fork choice: the block that the descent through the heaviest
    /// blocks arrives at, from the blocks without a predecessor. Fails
    /// where there is no such block.
    pub fn ghost(latest_msgs: &LatestMsgsHonest<Block>, senders_weights: &SendersWeight) -> (r:
        Result<Block, Error>)
        ensures
            r == match ghost_choice(latest_msgs@, senders_weights@) {
                Some(block) => Ok::<Block, Error>(block),
                None => Err::<Block, Error>(Error),
            },
    {
        match Self::ghost_unless(latest_msgs, senders_weights, &Never) {
            Some(choice) => choice,
            None => Err(Error),
        }
    }

    /// The fork choice, unless `cancel` is raised meanwhile: the signal is
    /// looked at before every step of the descent, which gives up with
    /// `None` once it is seen raised.
    pub fn ghost_unless<C: Cancel>(
        latest_msgs: &LatestMsgsHonest<Block>,
        senders_weights: &SendersWeight,
        cancel: &C,
    ) -> (r: Option<Result<Block, Error>>)
        ensures
            r is None ==> cancel.can_be_raised(),
            r matches Some(choice) ==> choice == match ghost_choice(
                latest_msgs@,
                senders_weights@,
            ) {
                Some(block) => Ok::<Block, Error>(block),
                None => Err::<Block, Error>(Error),
            },
    {
        let (visited, genesis, _) = Self::parse_blockchains(latest_msgs);
        match Self::pick_heaviest_unless(&genesis, &visited, senders_weights, latest_msgs, cancel) {
            Some(Some(block)) => Some(Ok(block)),
            Some(None) => Some(Err(Error)),
            None => None,
        }
    }
}

/// The validators that `msg` has seen agreeing on `block`: the senders of
/// the latest honest messages that the justification of `msg` shows and
/// whose proposed block is `block` or comes after it.
pub open spec fn seen_agreeing(block: Block, msg: Message<Block>, equivocators: Set<u32>) -> Seq<u32> {
    supporters(
        block,
        latest_honest(traversed(msg.spec_justification()), equivocators),
    )
}

/// `v` agrees on `block` with one of `latest_msgs`, and that message has
/// seen `w` agreeing on `block`.
pub open spec fn sees(
    block: Block,
    latest_msgs: Seq<Message<Block>>,
    equivocators: Set<u32>,
    v: u32,
    w: u32,
) -> bool {
    exists|i: int|
        0 <= i < latest_msgs.len() && (#[trigger] latest_msgs[i]).spec_sender() == v
            && block.spec_is_member(latest_msgs[i].spec_estimate()) && seen_agreeing(
            block,
            latest_msgs[i],
            equivocators,
        ).contains(w)
}

/// `v` and `w` have seen each other agreeing on `block`.
pub open spec fn mutual(
    block: Block,
    latest_msgs: Seq<Message<Block>>,
    equivocators: Set<u32>,
    v: u32,
    w: u32,
) -> bool {
    sees(block, latest_msgs, equivocators, v, w) && sees(block, latest_msgs, equivocators, w, v)
}

/// `u` and some validator have seen each other agreeing on `block`.
pub open spec fn has_peer(
    block: Block,
    latest_msgs: Seq<Message<Block>>,
    equivocators: Set<u32>,
    u: u32,
) -> bool {
    exists|v: u32| #[trigger] mutual(block, latest_msgs, equivocators, u, v)
}

/// `c` is a maximal clique of validators that agree on `block`: each has a
/// peer, any two different ones have seen each other agreeing, and no
/// validator with a peer outside `c` has done so with all of `c`.
pub open spec fn is_agreeing_clique(
    block: Block,
    latest_msgs: Seq<Message<Block>>,
    equivocators: Set<u32>,
    c: Seq<u32>,
) -> bool {
    &&& forall|u: u32| #[trigger] c.contains(u) ==> has_peer(block, latest_msgs, equivocators, u)
    &&& forall|u: u32, v: u32|
        #![trigger c.contains(u), c.contains(v)]
        c.contains(u) && c.contains(v) && u != v ==> mutual(block, latest_msgs, equivocators, u, v)
    &&& forall|u: u32| #[trigger]
        has_peer(block, latest_msgs, equivocators, u) && !c.contains(u) ==> exists|v: u32|
            c.contains(v) && !mutual(block, latest_msgs, equivocators, u, v)
}

/// Where the neighbour lists say who has seen whom agreeing, the maximal
/// cliques of the graph are the maximal cliques of agreeing validators.
proof fn lemma_same_cliques(
    block: Block,
    latest_msgs: Seq<Message<Block>>,
    equivocators: Set<u32>,
    vertices: Seq<u32>,
    neighbours: Seq<Vec<u32>>,
    c: Seq<u32>,
)
    requires
        forall|u: u32, v: u32| #[trigger]
            linked(vertices, neighbours, u, v) <==> mutual(block, latest_msgs, equivocators, u, v),
    ensures
        is_maximal_clique(vertices, neighbours, c) <==> is_agreeing_clique(
            block,
            latest_msgs,
            equivocators,
            c,
        ),
{
    assert forall|u: u32|
        crate::util::clique::connected(vertices, neighbours, u) <==> has_peer(
            block,
            latest_msgs,
            equivocators,
            u,
        ) by {
        if crate::util::clique::connected(vertices, neighbours, u) {
            let v = choose|v: u32| #[trigger] linked(vertices, neighbours, u, v);
            assert(mutual(block, latest_msgs, equivocators, u, v));
        }
        if has_peer(block, latest_msgs, equivocators, u) {
            let v = choose|v: u32| #[trigger] mutual(block, latest_msgs, equivocators, u, v);
            assert(linked(vertices, neighbours, u, v));
        }
    }
    if is_maximal_clique(vertices, neighbours, c) {
        assert forall|u: u32| #[trigger]
            has_peer(block, latest_msgs, equivocators, u) && !c.contains(u) implies exists|v: u32|
            c.contains(v) && !mutual(block, latest_msgs, equivocators, u, v) by {
            assert(crate::util::clique::connected(vertices, neighbours, u));
            assert(!crate::util::clique::joins(vertices, neighbours, u, c));
            let v = choose|v: u32| #[trigger] c.contains(v) && !linked(vertices, neighbours, u, v);
            assert(!mutual(block, latest_msgs, equivocators, u, v));
        }
        assert forall|u: u32, v: u32|
            #![trigger c.contains(u), c.contains(v)]
            c.contains(u) && c.contains(v) && u != v implies mutual(
            block,
            latest_msgs,
            equivocators,
            u,
            v,
        ) by {
            assert(linked(vertices, neighbours, u, v));
        }
    }
    if is_agreeing_clique(block, latest_msgs, equivocators, c) {
        assert forall|u: u32| #[trigger]
            crate::util::clique::connected(
                vertices,
                neighbours,
                u,
            ) implies !crate::util::clique::joins(vertices, neighbours, u, c) by {
            if !c.contains(u) {
                assert(has_peer(block, latest_msgs, equivocators, u));
                let v = choose|v: u32|
                    c.contains(v) && !mutual(block, latest_msgs, equivocators, u, v);
                assert(!linked(vertices, neighbours, u, v));
            }
        }
        assert(crate::util::clique::is_clique(vertices, neighbours, c)) by {
            assert forall|u: u32, v: u32|
                #![trigger c.contains(u), c.contains(v)]
                c.contains(u) && c.contains(v) && u != v implies linked(
                vertices,
                neighbours,
                u,
                v,
            ) by {
                assert(mutual(block, latest_msgs, equivocators, u, v));
            }
        }
    }
}

/// The validators that agree on `block`, in increasing order, and for each
/// the validators that it has seen agreeing.
fn agreeing_views(
    block: &Block,
    latest_msgs_honest: &LatestMsgsHonest<Block>,
    equivocators: &HashSet<u32>,
) -> (r: (Vec<u32>, Vec<Vec<u32>>))
    requires
        latest_msgs_honest.wf(),
    ensures
        r.0@.len() == r.1@.len(),
        ascending(r.0@),
        all_collision_free(latest_msgs_honest@) ==> forall|v: u32, w: u32| #[trigger]
            linked(r.0@, r.1@, v, w) <==> sees(*block, latest_msgs_honest@, equivocators@, v, w),
{
    let msgs = latest_msgs_honest.iter();
    let ghost exact = all_collision_free(msgs@);
    let ghost senders = crate::justification::senders_of(msgs@);
    let mut validators: Vec<u32> = Vec::new();
    let mut seen: Vec<Vec<u32>> = Vec::new();
    let mut i: usize = 0;
    while i < msgs.len()
        invariant
            i <= msgs@.len(),
            senders == crate::justification::senders_of(msgs@),
            crate::justification::increasing(senders),
            exact == all_collision_free(msgs@),
            validators@.len() == seen@.len(),
            ascending(validators@),
            forall|a: int|
                0 <= a < validators@.len() ==> exists|k: int|
                    0 <= k < i && msgs@[k].spec_sender() == #[trigger] validators@[a],
            exact ==> forall|v: u32, w: u32| #[trigger]
                linked(validators@, seen@, v, w) <==> sees(
                    *block,
                    msgs@.take(i as int),
                    equivocators@,
                    v,
                    w,
                ),
        decreases msgs@.len() - i,
    {
        let msg = &msgs[i];
        let ghost old_validators = validators@;
        let ghost old_seen = seen@;
        let agrees = block.is_member(msg.estimate());
        if agrees {
            let latest = LatestMsgs::from_justification(msg.justification());
            let view = LatestMsgsHonest::from_latest_msgs(&latest, equivocators);
            let list = Block::collect_validators(block, &view);
            proof {
                if exact {
                    assert(msg.collision_free());
                    crate::justification::lemma_cited_jointly_collision_free(*msg);
                    assert(list@ == seen_agreeing(*block, *msg, equivocators@));
                }
                assert forall|a: int, b: int|
                    0 <= a < b < old_validators.len() + 1 implies old_validators.push(
                    msg.spec_sender(),
                )[a] < old_validators.push(msg.spec_sender())[b] by {
                    if b == old_validators.len() {
                        let k = choose|k: int|
                            0 <= k < i && msgs@[k].spec_sender() == old_validators[a];
                        assert(senders[k] < senders[i as int]);
                    }
                }
            }
            validators.push(*msg.sender());
            seen.push(list);
        }
        proof {
            let before = msgs@.take(i as int);
            let after = msgs@.take(i + 1);
            assert forall|a: int| 0 <= a < validators@.len() implies exists|k: int|
                0 <= k < i + 1 && msgs@[k].spec_sender() == #[trigger] validators@[a] by {
                if a < old_validators.len() {
                    let k = choose|k: int|
                        0 <= k < i && msgs@[k].spec_sender() == old_validators[a];
                    assert(msgs@[k].spec_sender() == validators@[a]);
                } else {
                    assert(msgs@[i as int].spec_sender() == validators@[a]);
                }
            }
            if exact {
                assert forall|v: u32, w: u32| #[trigger]
                    linked(validators@, seen@, v, w) <==> sees(
                        *block,
                        after,
                        equivocators@,
                        v,
                        w,
                    ) by {
                    let here = msg.spec_sender() == v && agrees && seen_agreeing(
                        *block,
                        *msg,
                        equivocators@,
                    ).contains(w);
                    assert(linked(validators@, seen@, v, w) <==> linked(
                        old_validators,
                        old_seen,
                        v,
                        w,
                    ) || here) by {
                        if linked(validators@, seen@, v, w) {
                            let a = choose|a: int|
                                0 <= a < validators@.len() && a < seen@.len() && validators@[a]
                                    == v && (#[trigger] seen@[a])@.contains(w);
                            if a < old_validators.len() {
                                assert(old_seen[a]@.contains(w));
                            }
                        }
                        if linked(old_validators, old_seen, v, w) {
                            let a = choose|a: int|
                                0 <= a < old_validators.len() && a < old_seen.len()
                                    && old_validators[a] == v && (#[trigger] old_seen[a])@.contains(
                                    w,
                                );
                            assert(seen@[a]@.contains(w));
                        }
                        if here {
                            assert(seen@[old_seen.len() as int]@.contains(w));
                        }
                    }
                    assert(sees(*block, after, equivocators@, v, w) <==> sees(
                        *block,
                        before,
                        equivocators@,
                        v,
                        w,
                    ) || here) by {
                        if sees(*block, after, equivocators@, v, w) {
                            let k = choose|k: int|
                                0 <= k < after.len() && (#[trigger] after[k]).spec_sender() == v
                                    && block.spec_is_member(after[k].spec_estimate())
                                    && seen_agreeing(*block, after[k], equivocators@).contains(w);
                            if k < i {
                                assert(before[k] == after[k]);
                            }
                        }
                        if sees(*block, before, equivocators@, v, w) {
                            let k = choose|k: int|
                                0 <= k < before.len() && (#[trigger] before[k]).spec_sender() == v
                                    && block.spec_is_member(before[k].spec_estimate())
                                    && seen_agreeing(*block, before[k], equivocators@).contains(w);
                            assert(after[k] == before[k]);
                        }
                        if here {
                            assert(after[i as int] == *msg);
                        }
                    }
                }
            }
        }
        i += 1;
    }
    proof {
        assert(msgs@.take(msgs@.len() as int) =~= msgs@);
    }
    (validators, seen)
}

/// The position of `u` in the increasing sequence `vertices`, if it is there.
fn find_vertex(vertices: &Vec<u32>, u: u32) -> (r: Option<usize>)
    ensures
        match r {
            None => !vertices@.contains(u),
            Some(at) => at < vertices@.len() && vertices@[at as int] == u,
        },
{
    let mut i: usize = 0;
    while i < vertices.len()
        invariant
            i <= vertices@.len(),
            forall|k: int| 0 <= k < i ==> vertices@[k] != u,
        decreases vertices@.len() - i,
    {
        if vertices[i] == u {
            return Some(i);
        }
        i += 1;
    }
    None
}

/// `list` holds those of the validators seen by the validator at
/// position `b` that have seen it as well.
spec fn is_mutual_list(validators: Seq<u32>, seen: Seq<Vec<u32>>, b: int, list: Seq<u32>) -> bool {
    forall|w: u32| #[trigger]
        list.contains(w) <==> seen[b]@.contains(w) && linked(validators, seen, w, validators[b])
}

/// Whether the validator `w` has seen the validator `me`.
fn has_seen(validators: &Vec<u32>, seen: &Vec<Vec<u32>>, w: u32, me: u32) -> (r: bool)
    requires
        validators@.len() == seen@.len(),
        ascending(validators@),
    ensures
        r == linked(validators@, seen@, w, me),
{
    match find_vertex(validators, w) {
        None => {
            proof {
                if linked(validators@, seen@, w, me) {
                    let b = choose|b: int|
                        0 <= b < validators@.len() && b < seen@.len() && validators@[b] == w && (
                        #[trigger] seen@[b])@.contains(me);
                    assert(validators@.contains(w));
                }
            }
            false
        },
        Some(at) => {
            let r = has(&seen[at], me);
            proof {
                if linked(validators@, seen@, w, me) {
                    let b = choose|b: int|
                        0 <= b < validators@.len() && b < seen@.len() && validators@[b] == w && (
                        #[trigger] seen@[b])@.contains(me);
                    if at < b {
                        assert(validators@[at as int] < validators@[b]);
                    }
                    if b < at {
                        assert(validators@[b] < validators@[at as int]);
                    }
                }
                if r {
                    assert(seen@[at as int]@.contains(me));
                }
            }
            r
        },
    }
}

/// For each validator, those of the validators that it has seen that have
/// seen it as well.
fn mutual_neighbours(validators: &Vec<u32>, seen: &Vec<Vec<u32>>) -> (neighbours: Vec<Vec<u32>>)
    requires
        validators@.len() == seen@.len(),
        ascending(validators@),
    ensures
        is_graph(validators@, neighbours@),
        forall|u: u32, v: u32| #[trigger]
            linked(validators@, neighbours@, u, v) <==> linked(validators@, seen@, u, v) && linked(
                validators@,
                seen@,
                v,
                u,
            ),
{
    let mut neighbours: Vec<Vec<u32>> = Vec::new();
    let mut a: usize = 0;
    while a < validators.len()
        invariant
            a <= validators@.len(),
            validators@.len() == seen@.len(),
            ascending(validators@),
            neighbours@.len() == a,
            forall|b: int|
                0 <= b < a ==> is_mutual_list(validators@, seen@, b, (#[trigger] neighbours@[b])@),
        decreases validators@.len() - a,
    {
        let me = validators[a];
        let list = &seen[a];
        let mut mine: Vec<u32> = Vec::new();
        let mut k: usize = 0;
        while k < list.len()
            invariant
                k <= list@.len(),
                a < validators@.len(),
                validators@.len() == seen@.len(),
                ascending(validators@),
                me == validators@[a as int],
                *list == seen@[a as int],
                forall|w: u32| #[trigger]
                    mine@.contains(w) <==> list@.take(k as int).contains(w) && linked(
                        validators@,
                        seen@,
                        w,
                        me,
                    ),
            decreases list@.len() - k,
        {
            let w = list[k];
            let ghost before = mine@;
            let back = has_seen(validators, seen, w, me);
            if back {
                mine.push(w);
            }
            proof {
                assert(list@.take(k + 1) =~= list@.take(k as int).push(w));
                lemma_push_contains(list@.take(k as int), w);
                lemma_push_contains(before, w);
                assert forall|u: u32| #[trigger]
                    mine@.contains(u) <==> list@.take(k + 1).contains(u) && linked(
                        validators@,
                        seen@,
                        u,
                        me,
                    ) by {
                    assert(before.contains(u) <==> list@.take(k as int).contains(u) && linked(
                        validators@,
                        seen@,
                        u,
                        me,
                    ));
                }
            }
            k += 1;
        }
        proof {
            assert(list@.take(list@.len() as int) =~= list@);
        }
        let ghost old_neighbours = neighbours@;
        neighbours.push(mine);
        proof {
            assert forall|b: int| 0 <= b < a + 1 implies is_mutual_list(
                validators@,
                seen@,
                b,
                (#[trigger] neighbours@[b])@,
            ) by {
                if b < a {
                    assert(neighbours@[b] == old_neighbours[b]);
                }
            }
        }
        a += 1;
    }
    proof {
        let vs = validators@;
        let ns = neighbours@;
        assert forall|u: u32, v: u32| #[trigger]
            linked(vs, ns, u, v) <==> linked(vs, seen@, u, v) && linked(vs, seen@, v, u) by {
            if linked(vs, ns, u, v) {
                let b = choose|b: int|
                    0 <= b < vs.len() && b < ns.len() && vs[b] == u && (#[trigger] ns[b])@.contains(
                        v,
                    );
                assert(is_mutual_list(vs, seen@, b, ns[b]@));
                assert(seen@[b]@.contains(v) && linked(vs, seen@, v, vs[b]));
            }
            if linked(vs, seen@, u, v) && linked(vs, seen@, v, u) {
                let b = choose|b: int|
                    0 <= b < vs.len() && b < seen@.len() && vs[b] == u && (
                    #[trigger] seen@[b])@.contains(v);
                assert(is_mutual_list(vs, seen@, b, ns[b]@));
                assert(ns[b]@.contains(v));
            }
        }
        assert forall|b: int, k: int|
            0 <= b < ns.len() && 0 <= k < ns[b]@.len() implies vs.contains(
            #[trigger] ns[b]@[k],
        ) by {
            let w = ns[b]@[k];
            assert(is_mutual_list(vs, seen@, b, ns[b]@));
            assert(ns[b]@.contains(w));
            assert(linked(vs, seen@, w, vs[b]));
            let l = choose|l: int|
                0 <= l < vs.len() && l < seen@.len() && vs[l] == w && (#[trigger] seen@[l])@.contains(
                    vs[b],
                );
            assert(vs[l] == w);
        }
    }
    neighbours
}

/// Those of `cliques` whose weight exceeds `threshold`, in their order.
fn heavy_cliques(cliques: &Vec<Vec<u32>>, threshold: WeightUnit, weights: &SendersWeight) -> (heavy:
    Vec<Vec<u32>>)
    ensures
        forall|a: int|
            0 <= a < heavy@.len() ==> holds_clique(cliques@, 0, (#[trigger] heavy@[a])@) && sum_of(
                weights@,
                heavy@[a]@,
            ).spec_gt(threshold),
        forall|k: int|
            0 <= k < cliques@.len() && sum_of(weights@, (#[trigger] cliques@[k])@).spec_gt(
                threshold,
            ) ==> holds_clique(heavy@, 0, cliques@[k]@),
        (forall|a: int, b: int|
            0 <= a < b < cliques@.len() ==> (#[trigger] cliques@[a])@ != (#[trigger] cliques@[b])@)
            ==> (forall|a: int, b: int|
            0 <= a < b < heavy@.len() ==> (#[trigger] heavy@[a])@ != (#[trigger] heavy@[b])@),
{
    let mut heavy: Vec<Vec<u32>> = Vec::new();
    let ghost mut origin: Seq<int> = Seq::empty();
    let mut i: usize = 0;
    while i < cliques.len()
        invariant
            i <= cliques@.len(),
            origin.len() == heavy@.len(),
            forall|a: int|
                0 <= a < heavy@.len() ==> 0 <= #[trigger] origin[a] < i && heavy@[a]@
                    == cliques@[origin[a]]@ && sum_of(weights@, heavy@[a]@).spec_gt(threshold),
            forall|a: int, b: int| 0 <= a < b < origin.len() ==> origin[a] < origin[b],
            forall|k: int|
                0 <= k < i && sum_of(weights@, (#[trigger] cliques@[k])@).spec_gt(threshold)
                    ==> holds_clique(heavy@, 0, cliques@[k]@),
        decreases cliques@.len() - i,
    {
        let ghost before = heavy@;
        let ghost origin_before = origin;
        let weight = weights.sum_weight_senders(&cliques[i]);
        if weight.gt(threshold) {
            let mut clique: Vec<u32> = Vec::new();
            let mut k: usize = 0;
            while k < cliques[i].len()
                invariant
                    i < cliques@.len(),
                    k <= cliques@[i as int]@.len(),
                    clique@ == cliques@[i as int]@.take(k as int),
                decreases cliques@[i as int]@.len() - k,
            {
                clique.push(cliques[i][k]);
                assert(clique@ =~= cliques@[i as int]@.take(k + 1));
                k += 1;
            }
            assert(clique@ =~= cliques@[i as int]@);
            heavy.push(clique);
            proof {
                origin = origin.push(i as int);
            }
        }
        proof {
            assert forall|a: int| 0 <= a < heavy@.len() implies 0 <= #[trigger] origin[a] < i + 1
                && heavy@[a]@ == cliques@[origin[a]]@ && sum_of(weights@, heavy@[a]@).spec_gt(
                threshold,
            ) by {
                if a < before.len() {
                    assert(origin[a] == origin_before[a]);
                    assert(heavy@[a] == before[a]);
                    assert(0 <= origin_before[a] < i);
                } else {
                    assert(origin[a] == i);
                    assert(heavy@[a]@ == cliques@[i as int]@);
                }
            }
            assert forall|a: int, b: int| 0 <= a < b < origin.len() implies origin[a]
                < origin[b] by {
                if b < origin_before.len() {
                    assert(origin_before[a] < origin_before[b]);
                } else {
                    assert(0 <= origin_before[a] < i);
                }
            }
            assert forall|k: int|
                0 <= k < i + 1 && sum_of(weights@, (#[trigger] cliques@[k])@).spec_gt(
                    threshold,
                ) implies holds_clique(heavy@, 0, cliques@[k]@) by {
                if k < i {
                    let a = choose|a: int|
                        0 <= a < before.len() && (#[trigger] before[a])@ == cliques@[k]@;
                    assert(heavy@[a]@ == cliques@[k]@);
                } else {
                    assert(heavy@[before.len() as int]@ == cliques@[k]@);
                }
            }
        }
        i += 1;
    }
    proof {
        assert forall|a: int| 0 <= a < heavy@.len() implies holds_clique(
            cliques@,
            0,
            (#[trigger] heavy@[a])@,
        ) && sum_of(weights@, heavy@[a]@).spec_gt(threshold) by {
            let k = origin[a];
            assert(0 <= k < cliques@.len());
            assert(cliques@[k]@ == heavy@[a]@);
        }
        if forall|a: int, b: int|
            0 <= a < b < cliques@.len() ==> (#[trigger] cliques@[a])@ != (#[trigger] cliques@[b])@ {
            assert forall|a: int, b: int| 0 <= a < b < heavy@.len() implies (
            #[trigger] heavy@[a])@ != (#[trigger] heavy@[b])@ by {
                assert(origin[a] < origin[b]);
                assert(cliques@[origin[a]]@ != cliques@[origin[b]]@);
            }
        }
    }
    heavy
}

/// `oracles` are the safety oracles of `block`: each is in increasing
/// order, none occurs twice, and the weight of each exceeds `threshold`;
/// and where no two different messages at or below a latest honest message
/// share an identifier, they are the maximal cliques of validators that
/// have seen each other agreeing on `block`, all of those whose weight
/// exceeds `threshold`.
pub open spec fn are_safety_oracles(
    block: Block,
    latest_msgs: Seq<Message<Block>>,
    equivocators: Set<u32>,
    threshold: WeightUnit,
    weights: Map<u32, WeightUnit>,
    oracles: Seq<Vec<u32>>,
) -> bool {
    &&& forall|i: int|
        0 <= i < oracles.len() ==> ascending((#[trigger] oracles[i])@) && sum_of(
            weights,
            oracles[i]@,
        ).spec_gt(threshold)
    &&& forall|i: int, j: int|
        0 <= i < j < oracles.len() ==> (#[trigger] oracles[i])@ != (#[trigger] oracles[j])@
    &&& all_collision_free(latest_msgs) ==> {
        &&& forall|i: int|
            0 <= i < oracles.len() ==> is_agreeing_clique(
                block,
                latest_msgs,
                equivocators,
                (#[trigger] oracles[i])@,
            )
        &&& forall|c: Seq<u32>|
            ascending(c) && #[trigger] is_agreeing_clique(block, latest_msgs, equivocators, c)
                && sum_of(weights, c).spec_gt(threshold) ==> holds_clique(oracles, 0, c)
    }
}

impl Block {
    /// The safety oracles of `block`: the maximal cliques of validators
    /// that agree on `block` and have seen each other doing so, as far as
    /// their weight exceeds `safety_oracle_threshold`. Each clique is in
    /// increasing order, and none occurs twice.
    ///
    /// The weight of every clique returned exceeds the threshold. That the
    /// cliques are the maximal ones, and all of them, holds where no two
    /// different messages at or below a latest honest message share an identifier.
    pub fn safety_oracles(
        block: Block,
        latest_msgs_honest: &LatestMsgsHonest<Block>,
        equivocators: &HashSet<u32>,
        safety_oracle_threshold: WeightUnit,
        weights: &SendersWeight,
    ) -> (oracles: Vec<Vec<u32>>)
        requires
            latest_msgs_honest.wf(),
        ensures
            are_safety_oracles(
                block,
                latest_msgs_honest@,
                equivocators@,
                safety_oracle_threshold,
                weights@,
                oracles@,
            ),
    {
        match Self::safety_oracles_unless(
            block,
            latest_msgs_honest,
            equivocators,
            safety_oracle_threshold,
            weights,
            &Never,
        ) {
            Some(oracles) => oracles,
            None => Vec::new(),
        }
    }

    /// The safety oracles of `block`, unless `cancel` is raised meanwhile:
    /// the signal is looked at whenever the search for cliques extends a
    /// clique, and the search gives up with `None` once it is seen raised.
    pub fn safety_oracles_unless<C: Cancel>(
        block: Block,
        latest_msgs_honest: &LatestMsgsHonest<Block>,
        equivocators: &HashSet<u32>,
        safety_oracle_threshold: WeightUnit,
        weights: &SendersWeight,
        cancel: &C,
    ) -> (r: Option<Vec<Vec<u32>>>)
        requires
            latest_msgs_honest.wf(),
        ensures
            r is None ==> cancel.can_be_raised(),
            r matches Some(oracles) ==> are_safety_oracles(
                block,
                latest_msgs_honest@,
                equivocators@,
                safety_oracle_threshold,
                weights@,
                oracles@,
            ),
    {
        let (validators, seen) = agreeing_views(&block, latest_msgs_honest, equivocators);
        let neighbours = mutual_neighbours(&validators, &seen);
        let cliques = match maximal_cliques_unless(&validators, &neighbours, cancel) {
            Some(cliques) => cliques,
            None => {
                return None;
            },
        };
        let oracles = heavy_cliques(&cliques, safety_oracle_threshold, weights);
        proof {
            assert forall|i: int| 0 <= i < oracles@.len() implies ascending(
                (#[trigger] oracles@[i])@,
            ) by {
                let k = choose|k: int| 0 <= k < cliques@.len() && (#[trigger] cliques@[k])@
                    == oracles@[i]@;
            }
            if all_collision_free(latest_msgs_honest@) {
                assert forall|u: u32, v: u32| #[trigger]
                    linked(validators@, neighbours@, u, v) <==> mutual(
                        block,
                        latest_msgs_honest@,
                        equivocators@,
                        u,
                        v,
                    ) by {
                    assert(linked(validators@, seen@, u, v) <==> sees(
                        block,
                        latest_msgs_honest@,
                        equivocators@,
                        u,
                        v,
                    ));
                    assert(linked(validators@, seen@, v, u) <==> sees(
                        block,
                        latest_msgs_honest@,
                        equivocators@,
                        v,
                        u,
                    ));
                }
                assert forall|i: int| 0 <= i < oracles@.len() implies is_agreeing_clique(
                    block,
                    latest_msgs_honest@,
                    equivocators@,
                    (#[trigger] oracles@[i])@,
                ) by {
                    let k = choose|k: int| 0 <= k < cliques@.len() && (#[trigger] cliques@[k])@
                        == oracles@[i]@;
                    lemma_same_cliques(
                        block,
                        latest_msgs_honest@,
                        equivocators@,
                        validators@,
                        neighbours@,
                        cliques@[k]@,
                    );
                }
                assert forall|c: Seq<u32>|
                    ascending(c) && #[trigger] is_agreeing_clique(
                        block,
                        latest_msgs_honest@,
                        equivocators@,
                        c,
                    ) && sum_of(weights@, c).spec_gt(safety_oracle_threshold) implies holds_clique(
                    oracles@,
                    0,
                    c,
                ) by {
                    lemma_same_cliques(
                        block,
                        latest_msgs_honest@,
                        equivocators@,
                        validators@,
                        neighbours@,
                        c,
                    );
                    assert(holds_clique(cliques@, 0, c));
                    let k = choose|k: int| 0 <= k < cliques@.len() && (#[trigger] cliques@[k])@
                        == c;
                    assert(holds_clique(oracles@, 0, cliques@[k]@));
                }
            }
        }
        Some(oracles)
    }
}


impl Estimate for Block {
    type Error = Error;

    /// The block without data whose predecessor is the choice of the fork choice.
    open spec fn estimate_of(latest_msgs: Seq<Message<Self>>, weights: Map<u32, WeightUnit>) -> Result<
        Self,
        Error,
    > {
        match ghost_choice(latest_msgs, weights) {
            Some(prevblock) => Ok(Block::made_of(Some(prevblock), 0)),
            None => Err(Error),
        }
    }

    fn mk_estimate(latest_msgs: &LatestMsgsHonest<Self>, senders_weights: &SendersWeight) -> (r:
        Result<Self, Error>) {
        match Block::ghost(latest_msgs, senders_weights) {
            Ok(prevblock) => Ok(Block::new(Some(prevblock))),
            Err(e) => Err(e),
        }
    }
}

} // verus!
