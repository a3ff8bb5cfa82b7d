//! How the fork choice behaves when the frontier grows.

use crate::blockchain::chain;
use crate::blockchain::chains;
use crate::blockchain::children_map;
use crate::blockchain::children_of;
use crate::blockchain::distinct_blocks;
use crate::blockchain::genesis_of;
use crate::blockchain::holds_block;
use crate::blockchain::recorded_children;
use crate::blockchain::beats;
use crate::blockchain::block_graph;
use crate::blockchain::descend;
use crate::blockchain::ghost_choice;
use crate::blockchain::tips;
use crate::blockchain::heaviest;
use crate::blockchain::score;
use crate::blockchain::sum_known;
use crate::blockchain::supporters;
use crate::blockchain::Block;
use crate::message::Message;
use crate::util::hash::lemma_lex_asymmetric;
use crate::util::hash::lemma_lex_total;
use crate::util::hash::lemma_lex_transitive;
use crate::util::hash::lex_lt;
use crate::util::weight::WeightUnit;
use vstd::prelude::*;

verus! {

/// The number of blocks on the chain of `block`.
pub open spec fn depth(block: Block) -> nat {
    chain(block).len()
}

/// No two different blocks among `blocks` have the same identifier.
pub open spec fn blocks_collision_free(blocks: Seq<Block>) -> bool {
    forall|x: Block, y: Block|
        #![trigger blocks.contains(x), blocks.contains(y)]
        blocks.contains(x) && blocks.contains(y) && x.spec_id() == y.spec_id() ==> x == y
}

/// The chain of a block starts with the block and goes on with the chain
/// of its predecessor.
pub proof fn lemma_chain(block: Block)
    ensures
        chain(block).len() >= 1,
        chain(block)[0] == block,
        chain(block).contains(block),
        match block.spec_prevblock() {
            None => chain(block) == seq![block],
            Some(prev) => chain(block) == seq![block] + chain(prev) && chain(prev).len() + 1
                == chain(block).len(),
        },
{
    match block.spec_prevblock() {
        None => {
            assert(seq![block][0] == block);
        },
        Some(prev) => {
            assert((seq![block] + chain(prev))[0] == block);
        },
    }
    assert(chain(block)[0] == block);
}

/// The chain of a block on a chain is the rest of that chain.
pub proof fn lemma_chain_rest(block: Block, i: int)
    requires
        0 <= i < chain(block).len(),
    ensures
        chain(chain(block)[i]) == chain(block).skip(i),
    decreases chain(block).len(),
{
    lemma_chain(block);
    if i == 0 {
        assert(chain(block).skip(0) =~= chain(block));
    } else {
        let prev = block.spec_prevblock().unwrap();
        lemma_chain_rest(prev, i - 1);
        assert(chain(block)[i] == chain(prev)[i - 1]);
        assert(chain(block).skip(i) =~= chain(prev).skip(i - 1));
    }
}

/// A block is a member of the chain of `block` exactly where a block of the
/// chain has its identifier.
pub proof fn lemma_member_on_chain(a: Block, block: Block)
    ensures
        a.spec_is_member(block) <==> holds_block(chain(block), a.spec_id()),
    decreases chain(block).len(),
{
    lemma_chain(block);
    match block.spec_prevblock() {
        None => {
            if holds_block(chain(block), a.spec_id()) {
                let i = choose|i: int|
                    0 <= i < chain(block).len() && (#[trigger] chain(block)[i]).spec_id()
                        == a.spec_id();
                assert(i == 0);
            }
        },
        Some(prev) => {
            lemma_member_on_chain(a, prev);
            if holds_block(chain(block), a.spec_id()) {
                let i = choose|i: int|
                    0 <= i < chain(block).len() && (#[trigger] chain(block)[i]).spec_id()
                        == a.spec_id();
                if i > 0 {
                    assert(chain(prev)[i - 1].spec_id() == a.spec_id());
                }
            }
            if holds_block(chain(prev), a.spec_id()) {
                let i = choose|i: int|
                    0 <= i < chain(prev).len() && (#[trigger] chain(prev)[i]).spec_id()
                        == a.spec_id();
                assert(chain(block)[i + 1].spec_id() == a.spec_id());
            }
        },
    }
}

/// Where no two different blocks share an identifier, a member of the
/// chain of `block` is one of its blocks; its own chain is the rest of the
/// chain from there.
pub proof fn lemma_member_at(universe: Seq<Block>, a: Block, block: Block) -> (i: int)
    requires
        blocks_collision_free(universe),
        universe.contains(a),
        forall|y: Block| #[trigger] chain(block).contains(y) ==> universe.contains(y),
        a.spec_is_member(block),
    ensures
        0 <= i < chain(block).len(),
        chain(block)[i] == a,
        chain(a) == chain(block).skip(i),
        depth(a) + i == depth(block),
{
    lemma_member_on_chain(a, block);
    let i = choose|i: int|
        0 <= i < chain(block).len() && (#[trigger] chain(block)[i]).spec_id() == a.spec_id();
    assert(chain(block).contains(chain(block)[i]));
    lemma_chain_rest(block, i);
    i
}

/// The chains of `tips` hold exactly the blocks of the chain of each tip.
pub proof fn lemma_chains_contains(tips: Seq<Block>, y: Block)
    ensures
        chains(tips).contains(y) <==> exists|i: int|
            0 <= i < tips.len() && chain(#[trigger] tips[i]).contains(y),
    decreases tips.len(),
{
    if tips.len() > 0 {
        let rest = tips.drop_last();
        lemma_chains_contains(rest, y);
        let a = chains(rest);
        let c = chain(tips.last());
        if chains(tips).contains(y) {
            let k = choose|k: int| 0 <= k < (a + c).len() && (a + c)[k] == y;
            if k < a.len() {
                assert(a[k] == y);
                let i = choose|i: int| 0 <= i < rest.len() && chain(#[trigger] rest[i]).contains(y);
                assert(tips[i] == rest[i]);
            } else {
                assert(c[k - a.len()] == y);
                assert(chain(tips[tips.len() - 1]).contains(y));
            }
        }
        if exists|i: int| 0 <= i < tips.len() && chain(#[trigger] tips[i]).contains(y) {
            let i = choose|i: int| 0 <= i < tips.len() && chain(#[trigger] tips[i]).contains(y);
            if i < rest.len() {
                assert(rest[i] == tips[i]);
                assert(a.contains(y));
                let k = choose|k: int| 0 <= k < a.len() && a[k] == y;
                assert((a + c)[k] == y);
            } else {
                let k = choose|k: int| 0 <= k < c.len() && c[k] == y;
                assert((a + c)[a.len() + k] == y);
            }
        }
    }
}

/// With a block, the chains of `tips` hold the blocks of its chain.
pub proof fn lemma_chains_closed(tips: Seq<Block>, y: Block)
    requires
        chains(tips).contains(y),
    ensures
        forall|z: Block| #[trigger] chain(y).contains(z) ==> chains(tips).contains(z),
{
    lemma_chains_contains(tips, y);
    let i = choose|i: int| 0 <= i < tips.len() && chain(#[trigger] tips[i]).contains(y);
    let k = choose|k: int| 0 <= k < chain(tips[i]).len() && chain(tips[i])[k] == y;
    lemma_chain_rest(tips[i], k);
    assert forall|z: Block| #[trigger] chain(y).contains(z) implies chains(tips).contains(z) by {
        let l = choose|l: int| 0 <= l < chain(y).len() && chain(y)[l] == z;
        assert(chain(tips[i])[k + l] == z);
        assert(chain(tips[i]).contains(z));
        lemma_chains_contains(tips, z);
    }
}

/// The chains of two sequences of tips, one after the other.
pub proof fn lemma_chains_add(a: Seq<Block>, b: Seq<Block>)
    ensures
        chains(a + b) == chains(a) + chains(b),
    decreases b.len(),
{
    if b.len() == 0 {
        assert(a + b =~= a);
        assert(chains(a) + chains(b) =~= chains(a));
    } else {
        lemma_chains_add(a, b.drop_last());
        assert((a + b).drop_last() =~= a + b.drop_last());
        assert(chains(a + b) =~= chains(a) + chains(b));
    }
}

/// The blocks of `more` whose identifiers neither `seen` nor an earlier
/// block of `more` has, in their order.
pub open spec fn fresh_blocks(seen: Seq<Block>, more: Seq<Block>) -> Seq<Block>
    decreases more.len(),
{
    if more.len() == 0 {
        Seq::empty()
    } else {
        let rest = fresh_blocks(seen, more.drop_last());
        if holds_block(seen + rest, more.last().spec_id()) {
            rest
        } else {
            rest.push(more.last())
        }
    }
}

/// What `distinct_blocks` keeps: blocks of the sequence, with exactly the
/// identifiers of the sequence.
pub proof fn lemma_distinct_blocks(blocks: Seq<Block>)
    ensures
        forall|x: Block| #[trigger] distinct_blocks(blocks).contains(x) ==> blocks.contains(x),
        forall|id: Seq<u8>|
            holds_block(distinct_blocks(blocks), id) <==> #[trigger] holds_block(blocks, id),
    decreases blocks.len(),
{
    if blocks.len() > 0 {
        let rest = blocks.drop_last();
        let last = blocks.last();
        lemma_distinct_blocks(rest);
        let kept = distinct_blocks(rest);
        let all = distinct_blocks(blocks);
        assert forall|x: Block| #[trigger] all.contains(x) implies blocks.contains(x) by {
            let k = choose|k: int| 0 <= k < all.len() && all[k] == x;
            if k < kept.len() {
                assert(kept[k] == x);
                assert(kept.contains(x));
                let l = choose|l: int| 0 <= l < rest.len() && rest[l] == x;
                assert(blocks[l] == x);
            } else {
                assert(blocks[blocks.len() - 1] == x);
            }
        }
        assert forall|id: Seq<u8>| holds_block(all, id) <==> #[trigger] holds_block(
            blocks,
            id,
        ) by {
            assert(holds_block(kept, id) <==> holds_block(rest, id));
            if holds_block(all, id) {
                let k = choose|k: int| 0 <= k < all.len() && (#[trigger] all[k]).spec_id() == id;
                if k < kept.len() {
                    assert(kept[k].spec_id() == id);
                    let l = choose|l: int|
                        0 <= l < rest.len() && (#[trigger] rest[l]).spec_id() == id;
                    assert(blocks[l].spec_id() == id);
                } else {
                    assert(blocks[blocks.len() - 1].spec_id() == id);
                }
            }
            if holds_block(blocks, id) {
                let l = choose|l: int|
                    0 <= l < blocks.len() && (#[trigger] blocks[l]).spec_id() == id;
                if l < rest.len() {
                    assert(rest[l].spec_id() == id);
                    let k = choose|k: int|
                        0 <= k < kept.len() && (#[trigger] kept[k]).spec_id() == id;
                    assert(all[k].spec_id() == id);
                } else if holds_block(kept, last.spec_id()) {
                    let k = choose|k: int|
                        0 <= k < kept.len() && (#[trigger] kept[k]).spec_id() == id;
                    assert(all[k].spec_id() == id);
                } else {
                    assert(all[all.len() - 1].spec_id() == id);
                }
            }
        }
    }
}

/// The distinct blocks of two sequences, one after the other: those of the
/// first, and then the fresh blocks of the second.
pub proof fn lemma_distinct_add(a: Seq<Block>, more: Seq<Block>)
    ensures
        distinct_blocks(a + more) == distinct_blocks(a) + fresh_blocks(distinct_blocks(a), more),
        forall|x: Block| #[trigger]
            fresh_blocks(distinct_blocks(a), more).contains(x) ==> more.contains(x) && !holds_block(
                distinct_blocks(a),
                x.spec_id(),
            ),
    decreases more.len(),
{
    let seen = distinct_blocks(a);
    if more.len() == 0 {
        assert(a + more =~= a);
        assert(seen + fresh_blocks(seen, more) =~= seen);
    } else {
        let rest = more.drop_last();
        let last = more.last();
        lemma_distinct_add(a, rest);
        assert((a + more).drop_last() =~= a + rest);
        assert((a + more).last() == last);
        let fresh = fresh_blocks(seen, rest);
        assert(distinct_blocks(a + more) =~= seen + fresh_blocks(seen, more));
        assert forall|x: Block| #[trigger] fresh_blocks(seen, more).contains(x) implies more.contains(
            x,
        ) && !holds_block(seen, x.spec_id()) by {
            let all = fresh_blocks(seen, more);
            let k = choose|k: int| 0 <= k < all.len() && all[k] == x;
            if k < fresh.len() {
                assert(fresh[k] == x);
                assert(fresh.contains(x));
                let l = choose|l: int| 0 <= l < rest.len() && rest[l] == x;
                assert(more[l] == x);
            } else {
                assert(more[more.len() - 1] == x);
                if holds_block(seen, x.spec_id()) {
                    let l = choose|l: int|
                        0 <= l < seen.len() && (#[trigger] seen[l]).spec_id() == x.spec_id();
                    assert((seen + fresh)[l].spec_id() == x.spec_id());
                }
            }
        }
    }
}

/// The blocks without a predecessor of two sequences, one after the other.
pub proof fn lemma_genesis_add(a: Seq<Block>, b: Seq<Block>)
    ensures
        genesis_of(a + b) == genesis_of(a) + genesis_of(b),
        (forall|i: int| 0 <= i < b.len() ==> (#[trigger] b[i]).spec_prevblock().is_some())
            ==> genesis_of(a + b) == genesis_of(a),
        forall|x: Block| #[trigger]
            genesis_of(b).contains(x) ==> b.contains(x) && x.spec_prevblock().is_none(),
    decreases b.len(),
{
    if b.len() == 0 {
        assert(a + b =~= a);
        assert(genesis_of(a) + genesis_of(b) =~= genesis_of(a));
    } else {
        let rest = b.drop_last();
        lemma_genesis_add(a, rest);
        assert((a + b).drop_last() =~= a + rest);
        assert(genesis_of(a + b) =~= genesis_of(a) + genesis_of(b));
        assert forall|x: Block| #[trigger] genesis_of(b).contains(x) implies b.contains(x)
            && x.spec_prevblock().is_none() by {
            let g = genesis_of(b);
            let k = choose|k: int| 0 <= k < g.len() && g[k] == x;
            if k < genesis_of(rest).len() {
                assert(genesis_of(rest)[k] == x);
                assert(genesis_of(rest).contains(x));
                let l = choose|l: int| 0 <= l < rest.len() && rest[l] == x;
                assert(b[l] == x);
            } else {
                assert(b[b.len() - 1] == x);
            }
        }
        if forall|i: int| 0 <= i < b.len() ==> (#[trigger] b[i]).spec_prevblock().is_some() {
            assert forall|i: int| 0 <= i < rest.len() implies (
            #[trigger] rest[i]).spec_prevblock().is_some() by {
                assert(rest[i] == b[i]);
            }
            assert(b[b.len() - 1].spec_prevblock().is_some());
        }
    }
}

/// The children of a block in two sequences, one after the other.
pub proof fn lemma_children_add(id: Seq<u8>, a: Seq<Block>, b: Seq<Block>)
    ensures
        children_of(id, a + b) == children_of(id, a) + children_of(id, b),
        forall|x: Block| #[trigger]
            children_of(id, b).contains(x) ==> b.contains(x) && x.prev_id() == Some(id),
        (forall|i: int| 0 <= i < b.len() ==> (#[trigger] b[i]).prev_id() != Some(id))
            ==> children_of(id, b).len() == 0,
    decreases b.len(),
{
    if b.len() == 0 {
        assert(a + b =~= a);
        assert(children_of(id, a) + children_of(id, b) =~= children_of(id, a));
    } else {
        let rest = b.drop_last();
        lemma_children_add(id, a, rest);
        assert((a + b).drop_last() =~= a + rest);
        assert(children_of(id, a + b) =~= children_of(id, a) + children_of(id, b));
        assert forall|x: Block| #[trigger] children_of(id, b).contains(x) implies b.contains(x)
            && x.prev_id() == Some(id) by {
            let g = children_of(id, b);
            let k = choose|k: int| 0 <= k < g.len() && g[k] == x;
            if k < children_of(id, rest).len() {
                assert(children_of(id, rest)[k] == x);
                assert(children_of(id, rest).contains(x));
                let l = choose|l: int| 0 <= l < rest.len() && rest[l] == x;
                assert(b[l] == x);
            } else {
                assert(b[b.len() - 1] == x);
            }
        }
        if forall|i: int| 0 <= i < b.len() ==> (#[trigger] b[i]).prev_id() != Some(id) {
            assert forall|i: int| 0 <= i < rest.len() implies (#[trigger] rest[i]).prev_id()
                != Some(id) by {
                assert(rest[i] == b[i]);
            }
            assert(b[b.len() - 1].prev_id() != Some(id));
        }
    }
}

/// The children that the children map of `graph` records for an
/// identifier: those that the identifier has in `graph`, where a block of
/// `graph` has the identifier.
pub proof fn lemma_recorded_children(graph: Seq<Block>, id: Seq<u8>)
    ensures
        recorded_children(children_map(graph), id) == if holds_block(graph, id) {
            Some(children_of(id, graph))
        } else {
            None
        },
{
    lemma_recorded_from(graph, id, 0);
    assert(children_map(graph).skip(0) =~= children_map(graph));
    if holds_block(graph, id) {
        let i = choose|i: int| 0 <= i < graph.len() && (#[trigger] graph[i]).spec_id() == id;
        assert(0 <= i);
    }
}

proof fn lemma_recorded_from(graph: Seq<Block>, id: Seq<u8>, from: int)
    requires
        0 <= from <= graph.len(),
    ensures
        recorded_children(children_map(graph).skip(from), id) == if exists|i: int|
            from <= i < graph.len() && (#[trigger] graph[i]).spec_id() == id {
            Some(children_of(id, graph))
        } else {
            None
        },
    decreases graph.len() - from,
{
    let map = children_map(graph);
    if from < graph.len() {
        lemma_recorded_from(graph, id, from + 1);
        assert(map.skip(from).first() == map[from]);
        assert(map[from] == (graph[from], children_of(graph[from].spec_id(), graph)));
        assert(map.skip(from).drop_first() =~= map.skip(from + 1));
        if graph[from].spec_id() != id {
            if exists|i: int| from <= i < graph.len() && (#[trigger] graph[i]).spec_id() == id {
                let i = choose|i: int|
                    from <= i < graph.len() && (#[trigger] graph[i]).spec_id() == id;
                assert(from + 1 <= i);
            }
        }
    } else {
        assert(map.skip(from) =~= Seq::<(Block, Seq<Block>)>::empty());
    }
}

/// Every weight is a number: none is the sentinel for an unknown weight.
pub open spec fn all_numbers(weights: Map<u32, WeightUnit>) -> bool {
    forall|v: u32| weights.contains_key(v) ==> #[trigger] weights[v] != WeightUnit::NaN
}

/// The supporters of a block among two sequences of messages, one after the other.
pub proof fn lemma_supporters_add(block: Block, a: Seq<Message<Block>>, b: Seq<Message<Block>>)
    ensures
        supporters(block, a + b) == supporters(block, a) + supporters(block, b),
        (forall|i: int|
            0 <= i < b.len() ==> !block.spec_is_member((#[trigger] b[i]).spec_estimate()))
            ==> supporters(block, b).len() == 0,
    decreases b.len(),
{
    if b.len() == 0 {
        assert(a + b =~= a);
        assert(supporters(block, a) + supporters(block, b) =~= supporters(block, a));
    } else {
        let rest = b.drop_last();
        lemma_supporters_add(block, a, rest);
        assert((a + b).drop_last() =~= a + rest);
        assert(supporters(block, a + b) =~= supporters(block, a) + supporters(block, b));
        if forall|i: int|
            0 <= i < b.len() ==> !block.spec_is_member((#[trigger] b[i]).spec_estimate()) {
            assert forall|i: int| 0 <= i < rest.len() implies !block.spec_is_member(
                (#[trigger] rest[i]).spec_estimate(),
            ) by {
                assert(rest[i] == b[i]);
            }
            assert(!block.spec_is_member(b[b.len() - 1].spec_estimate()));
        }
    }
}

/// The sum of the known weights of two sequences of senders, one after the
/// other; where every weight is a number, so is the sum.
pub proof fn lemma_sum_known_add(weights: Map<u32, WeightUnit>, a: Seq<u32>, b: Seq<u32>)
    ensures
        sum_known(weights, a + b) == sum_known(weights, a).spec_plus(sum_known(weights, b)),
        all_numbers(weights) ==> sum_known(weights, b) != WeightUnit::NaN,
    decreases b.len(),
{
    if b.len() == 0 {
        assert(a + b =~= a);
    } else {
        let rest = b.drop_last();
        lemma_sum_known_add(weights, a, rest);
        assert((a + b).drop_last() =~= a + rest);
        if weights.contains_key(b.last()) {
            WeightUnit::lemma_plus_laws(
                sum_known(weights, a),
                sum_known(weights, rest),
                weights[b.last()],
            );
        }
    }
}

/// The score of a block once the messages `more` have joined the
/// messages `msgs`: the score before, raised by a number; and the very
/// score before where none of `more` proposes a block of its chain.
pub proof fn lemma_score_grows(
    block: Block,
    msgs: Seq<Message<Block>>,
    more: Seq<Message<Block>>,
    weights: Map<u32, WeightUnit>,
)
    requires
        all_numbers(weights),
    ensures
        score(block, msgs, weights) != WeightUnit::NaN,
        score(block, msgs + more, weights) != WeightUnit::NaN,
        !score(block, msgs + more, weights).spec_lt(score(block, msgs, weights)),
        (forall|i: int|
            0 <= i < more.len() ==> !block.spec_is_member((#[trigger] more[i]).spec_estimate()))
            ==> score(block, msgs + more, weights) == score(block, msgs, weights),
{
    lemma_supporters_add(block, msgs, more);
    lemma_sum_known_add(weights, supporters(block, msgs), supporters(block, more));
    lemma_sum_known_add(weights, Seq::empty(), supporters(block, msgs));
    lemma_sum_known_add(weights, Seq::empty(), supporters(block, msgs + more));
    WeightUnit::lemma_plus_monotone(
        score(block, msgs, weights),
        sum_known(weights, supporters(block, more)),
    );
    WeightUnit::lemma_plus_laws(
        score(block, msgs, weights),
        WeightUnit::Finite(0),
        WeightUnit::Finite(0),
    );
}

/// The heaviest of some blocks is one of them.
pub proof fn lemma_heaviest_among(
    blocks: Seq<Block>,
    msgs: Seq<Message<Block>>,
    weights: Map<u32, WeightUnit>,
)
    ensures
        blocks.len() == 0 ==> heaviest(blocks, msgs, weights).is_none(),
        blocks.len() > 0 ==> heaviest(blocks, msgs, weights).is_some() && blocks.contains(
            heaviest(blocks, msgs, weights).unwrap(),
        ),
    decreases blocks.len(),
{
    if blocks.len() > 0 {
        let rest = blocks.drop_last();
        lemma_heaviest_among(rest, msgs, weights);
        assert(blocks[blocks.len() - 1] == blocks.last());
        if rest.len() > 0 {
            let best = heaviest(rest, msgs, weights).unwrap();
            let k = choose|k: int| 0 <= k < rest.len() && rest[k] == best;
            assert(blocks[k] == best);
        }
    }
}

/// Where every weight is a number, no block of `blocks` beats the heaviest.
pub proof fn lemma_heaviest_unbeaten(
    blocks: Seq<Block>,
    msgs: Seq<Message<Block>>,
    weights: Map<u32, WeightUnit>,
)
    requires
        all_numbers(weights),
        blocks.len() > 0,
    ensures
        forall|c: Block| #[trigger]
            blocks.contains(c) ==> !beats(
                c,
                heaviest(blocks, msgs, weights).unwrap(),
                msgs,
                weights,
            ),
    decreases blocks.len(),
{
    let rest = blocks.drop_last();
    let last = blocks.last();
    lemma_heaviest_among(rest, msgs, weights);
    lemma_heaviest_among(blocks, msgs, weights);
    let m = heaviest(blocks, msgs, weights).unwrap();
    lemma_lex_asymmetric(last.spec_id(), last.spec_id());
    assert forall|c: Block| #[trigger] blocks.contains(c) implies !beats(c, m, msgs, weights) by {
        let k = choose|k: int| 0 <= k < blocks.len() && blocks[k] == c;
        lemma_score_grows(c, msgs, Seq::empty(), weights);
        lemma_score_grows(m, msgs, Seq::empty(), weights);
        if rest.len() == 0 {
            assert(c == last);
        } else {
            lemma_heaviest_unbeaten(rest, msgs, weights);
            let best = heaviest(rest, msgs, weights).unwrap();
            lemma_score_grows(best, msgs, Seq::empty(), weights);
            lemma_score_grows(last, msgs, Seq::empty(), weights);
            if k < rest.len() {
                assert(rest[k] == c);
                assert(rest.contains(c));
                assert(!beats(c, best, msgs, weights));
                if beats(last, best, msgs, weights) {
                    if beats(c, last, msgs, weights) {
                        c.lemma_id_len();
                        best.lemma_id_len();
                        last.lemma_id_len();
                        lemma_lex_total(best.spec_id(), c.spec_id());
                        lemma_lex_asymmetric(best.spec_id(), c.spec_id());
                        if lex_lt(best.spec_id(), last.spec_id()) && lex_lt(
                            last.spec_id(),
                            c.spec_id(),
                        ) {
                            lemma_lex_transitive(best.spec_id(), last.spec_id(), c.spec_id());
                        }
                    }
                }
            }
        }
    }
}

/// Where every weight is a number, a block of `blocks` that beats every
/// other block of them is the heaviest.
pub proof fn lemma_heaviest_unique(
    blocks: Seq<Block>,
    msgs: Seq<Message<Block>>,
    weights: Map<u32, WeightUnit>,
    m: Block,
)
    requires
        all_numbers(weights),
        blocks.contains(m),
        forall|c: Block| #[trigger] blocks.contains(c) ==> c == m || beats(m, c, msgs, weights),
    ensures
        heaviest(blocks, msgs, weights) == Some(m),
    decreases blocks.len(),
{
    let rest = blocks.drop_last();
    let last = blocks.last();
    let k = choose|k: int| 0 <= k < blocks.len() && blocks[k] == m;
    lemma_heaviest_among(rest, msgs, weights);
    lemma_score_grows(m, msgs, Seq::empty(), weights);
    lemma_lex_asymmetric(m.spec_id(), m.spec_id());
    assert(blocks.contains(last)) by {
        assert(blocks[blocks.len() - 1] == last);
    }
    assert forall|c: Block| #[trigger] rest.contains(c) implies c == m || beats(
        m,
        c,
        msgs,
        weights,
    ) by {
        let l = choose|l: int| 0 <= l < rest.len() && rest[l] == c;
        assert(blocks[l] == c);
        assert(blocks.contains(c));
    }
    if last == m {
        if rest.len() > 0 {
            let best = heaviest(rest, msgs, weights).unwrap();
            assert(rest.contains(best));
        }
    } else {
        assert(rest[k] == m);
        assert(rest.contains(m));
        lemma_heaviest_unique(rest, msgs, weights, m);
        lemma_score_grows(last, msgs, Seq::empty(), weights);
        lemma_lex_asymmetric(m.spec_id(), last.spec_id());
    }
}

/// The heaviest block stays the heaviest where messages join that raise
/// its score and leave the scores of the other blocks as they are.
pub proof fn lemma_heaviest_stays(
    universe: Seq<Block>,
    blocks: Seq<Block>,
    msgs: Seq<Message<Block>>,
    more: Seq<Message<Block>>,
    weights: Map<u32, WeightUnit>,
)
    requires
        all_numbers(weights),
        blocks_collision_free(universe),
        blocks.len() > 0,
        forall|c: Block| #[trigger] blocks.contains(c) ==> universe.contains(c),
        forall|c: Block| #[trigger]
            blocks.contains(c) && c != heaviest(blocks, msgs, weights).unwrap() ==> score(
                c,
                msgs + more,
                weights,
            ) == score(c, msgs, weights),
    ensures
        heaviest(blocks, msgs + more, weights) == heaviest(blocks, msgs, weights),
{
    lemma_heaviest_among(blocks, msgs, weights);
    lemma_heaviest_unbeaten(blocks, msgs, weights);
    let m = heaviest(blocks, msgs, weights).unwrap();
    lemma_score_grows(m, msgs, more, weights);
    assert forall|c: Block| #[trigger] blocks.contains(c) implies c == m || beats(
        m,
        c,
        msgs + more,
        weights,
    ) by {
        if c != m {
            assert(c.spec_id() != m.spec_id());
            assert(!beats(c, m, msgs, weights));
            lemma_score_grows(c, msgs, more, weights);
            c.lemma_id_len();
            m.lemma_id_len();
            lemma_lex_total(c.spec_id(), m.spec_id());
        }
    }
    lemma_heaviest_unique(blocks, msgs + more, weights, m);
}

/// The identifiers of `blocks`, in their order.
pub open spec fn ids_of(blocks: Seq<Block>) -> Seq<Seq<u8>> {
    blocks.map_values(|block: Block| block.spec_id())
}

/// Where no two different blocks share an identifier, a chain is not
/// deeper than there are blocks in the graph of its blocks.
pub proof fn lemma_depth_bound(universe: Seq<Block>, x: Block)
    requires
        blocks_collision_free(universe),
        universe.contains(x),
        forall|z: Block| #[trigger] chain(x).contains(z) ==> universe.contains(z),
    ensures
        depth(x) <= distinct_blocks(universe).len(),
{
    let graph = distinct_blocks(universe);
    let on_chain = ids_of(chain(x));
    let in_graph = ids_of(graph);
    lemma_distinct_blocks(universe);
    assert(on_chain.no_duplicates()) by {
        assert forall|i: int, j: int|
            0 <= i < on_chain.len() && 0 <= j < on_chain.len() && i != j implies on_chain[i]
            != on_chain[j] by {
            lemma_chain_rest(x, i);
            lemma_chain_rest(x, j);
            let a = chain(x)[i];
            let b = chain(x)[j];
            assert(chain(x).contains(a));
            assert(chain(x).contains(b));
            assert(universe.contains(a) && universe.contains(b));
            assert(on_chain[i] == a.spec_id());
            assert(on_chain[j] == b.spec_id());
            if a.spec_id() == b.spec_id() {
                assert(a == b);
                assert(chain(x).skip(i).len() == chain(x).skip(j).len());
            }
        }
    }
    on_chain.unique_seq_to_set();
    in_graph.lemma_cardinality_of_set();
    vstd::seq_lib::seq_to_set_is_finite(in_graph);
    assert(on_chain.to_set().subset_of(in_graph.to_set())) by {
        assert forall|id: Seq<u8>| on_chain.to_set().contains(id) implies in_graph.to_set().contains(
            id,
        ) by {
            let i = choose|i: int| 0 <= i < on_chain.len() && on_chain[i] == id;
            let z = chain(x)[i];
            assert(chain(x).contains(z));
            assert(universe.contains(z));
            let k = choose|k: int| 0 <= k < universe.len() && universe[k] == z;
            assert(universe[k].spec_id() == id);
            assert(holds_block(universe, id));
            assert(holds_block(graph, id));
            let l = choose|l: int| 0 <= l < graph.len() && (#[trigger] graph[l]).spec_id() == id;
            assert(in_graph[l] == id);
        }
    }
    vstd::set_lib::lemma_len_subset(on_chain.to_set(), in_graph.to_set());
}

/// The blocks without a predecessor of a sequence are among its blocks
/// without a predecessor, and every such block of the sequence is among them.
pub proof fn lemma_genesis_holds(blocks: Seq<Block>, x: Block)
    requires
        blocks.contains(x),
        x.spec_prevblock().is_none(),
    ensures
        genesis_of(blocks).contains(x),
    decreases blocks.len(),
{
    let rest = blocks.drop_last();
    let k = choose|k: int| 0 <= k < blocks.len() && blocks[k] == x;
    if k < rest.len() {
        assert(rest[k] == x);
        lemma_genesis_holds(rest, x);
        let l = choose|l: int| 0 <= l < genesis_of(rest).len() && genesis_of(rest)[l] == x;
        assert(genesis_of(blocks)[l] == x);
    } else {
        assert(genesis_of(blocks)[genesis_of(blocks).len() - 1] == x);
    }
}

/// Where no two different blocks share an identifier, a descent with fuel
/// for the levels that are left comes to an end.
pub proof fn lemma_descend_ends(
    universe: Seq<Block>,
    blocks: Seq<Block>,
    msgs: Seq<Message<Block>>,
    weights: Map<u32, WeightUnit>,
    fuel: nat,
    level: nat,
)
    requires
        blocks_collision_free(universe),
        forall|y: Block, z: Block|
            universe.contains(y) && #[trigger] chain(y).contains(z) ==> universe.contains(z),
        blocks.len() > 0,
        forall|c: Block| #[trigger]
            blocks.contains(c) ==> distinct_blocks(universe).contains(c) && depth(c) == level,
        fuel + level > distinct_blocks(universe).len(),
    ensures
        descend(blocks, children_map(distinct_blocks(universe)), msgs, weights, fuel).is_some(),
    decreases fuel,
{
    let graph = distinct_blocks(universe);
    lemma_distinct_blocks(universe);
    lemma_heaviest_among(blocks, msgs, weights);
    let best = heaviest(blocks, msgs, weights).unwrap();
    assert(graph.contains(best));
    assert(universe.contains(best));
    lemma_depth_bound(universe, best);
    lemma_recorded_children(graph, best.spec_id());
    assert(holds_block(graph, best.spec_id())) by {
        let k = choose|k: int| 0 <= k < graph.len() && graph[k] == best;
        assert(graph[k].spec_id() == best.spec_id());
    }
    let kids = children_of(best.spec_id(), graph);
    if kids.len() > 0 {
        lemma_children_add(best.spec_id(), Seq::empty(), graph);
        assert(Seq::<Block>::empty() + graph =~= graph);
        assert forall|c: Block| #[trigger] kids.contains(c) implies graph.contains(c) && depth(c)
            == level + 1 by {
            assert(universe.contains(c));
            lemma_prev(universe, c, best);
        }
        lemma_descend_ends(universe, kids, msgs, weights, (fuel - 1) as nat, level + 1);
    }
}

/// The fork choice fails for want of messages only: where there is a
/// message and no two different blocks on the chains of the proposed
/// blocks share an identifier, a block is chosen.
pub proof fn lemma_ghost_chooses(msgs: Seq<Message<Block>>, weights: Map<u32, WeightUnit>)
    requires
        msgs.len() > 0,
        blocks_collision_free(chains(tips(msgs))),
    ensures
        ghost_choice(msgs, weights).is_some(),
{
    let all_tips = tips(msgs);
    let universe = chains(all_tips);
    let graph = block_graph(msgs);
    lemma_distinct_blocks(universe);
    assert forall|y: Block, z: Block|
        universe.contains(y) && #[trigger] chain(y).contains(z) implies universe.contains(z) by {
        lemma_chains_closed(all_tips, y);
    }
    let t = all_tips[0];
    lemma_chain(t);
    lemma_chains_contains(all_tips, t);
    assert(universe.contains(t));
    let end = chain(t).last();
    assert(chain(t).contains(end)) by {
        assert(chain(t)[chain(t).len() - 1] == end);
    }
    assert(universe.contains(end));
    lemma_chain_rest(t, chain(t).len() - 1);
    lemma_chain(end);
    assert(end.spec_prevblock().is_none());
    let at = choose|k: int| 0 <= k < universe.len() && universe[k] == end;
    assert(universe[at].spec_id() == end.spec_id());
    assert(holds_block(universe, end.spec_id()));
    assert(holds_block(graph, end.spec_id()));
    let root = choose|l: int| 0 <= l < graph.len() && (#[trigger] graph[l]).spec_id() == end.spec_id();
    assert(graph.contains(graph[root]));
    assert(universe.contains(graph[root]));
    assert(graph[root] == end);
    lemma_genesis_holds(graph, end);
    let roots = genesis_of(graph);
    lemma_genesis_add(Seq::empty(), graph);
    assert(Seq::<Block>::empty() + graph =~= graph);
    assert forall|c: Block| #[trigger] roots.contains(c) implies graph.contains(c) && depth(c)
        == 1 by {
        lemma_chain(c);
    }
    lemma_descend_ends(universe, roots, msgs, weights, graph.len(), 1);
}

/// What the laws of the fork choice build on: among the blocks of
/// `universe` no two different ones share an identifier, with a block
/// `universe` holds its chain, and it holds `b` and the blocks of `graph`
/// and of `added`; every block of `added` comes after `b`; and every weight
/// is a number.
pub open spec fn grown(
    universe: Seq<Block>,
    graph: Seq<Block>,
    added: Seq<Block>,
    weights: Map<u32, WeightUnit>,
    b: Block,
) -> bool {
    &&& all_numbers(weights)
    &&& blocks_collision_free(universe)
    &&& universe.contains(b)
    &&& forall|y: Block, z: Block|
        universe.contains(y) && #[trigger] chain(y).contains(z) ==> universe.contains(z)
    &&& forall|g: Block| #[trigger] graph.contains(g) ==> universe.contains(g)
    &&& forall|x: Block| #[trigger]
        added.contains(x) ==> universe.contains(x) && b.spec_is_member(x) && x.spec_id()
            != b.spec_id()
}

/// A block and its predecessor: the predecessor lies on the chain of the
/// block, one block less deep.
pub proof fn lemma_prev(universe: Seq<Block>, y: Block, parent: Block)
    requires
        blocks_collision_free(universe),
        universe.contains(y),
        universe.contains(parent),
        forall|z: Block| #[trigger] chain(y).contains(z) ==> universe.contains(z),
        y.prev_id() == Some(parent.spec_id()),
    ensures
        y.spec_prevblock() == Some(parent),
        depth(y) == depth(parent) + 1,
        parent.spec_is_member(y),
        y.spec_id() != parent.spec_id(),
{
    lemma_chain(y);
    let p = y.spec_prevblock().unwrap();
    lemma_chain(p);
    assert(chain(y)[1] == p);
    assert(chain(y).contains(p));
    assert(p == parent);
    lemma_member_on_chain(parent, y);
    if y.spec_id() == parent.spec_id() {
        assert(y == parent);
    }
}

/// Where a descent through the children map of `graph` ends at a block,
/// the block is one of `graph`, and the heaviest of the blocks that the
/// descent started from lies on its chain.
pub proof fn lemma_descend_member(
    universe: Seq<Block>,
    graph: Seq<Block>,
    blocks: Seq<Block>,
    msgs: Seq<Message<Block>>,
    weights: Map<u32, WeightUnit>,
    fuel: nat,
)
    requires
        blocks_collision_free(universe),
        forall|y: Block, z: Block|
            universe.contains(y) && #[trigger] chain(y).contains(z) ==> universe.contains(z),
        forall|g: Block| #[trigger] graph.contains(g) ==> universe.contains(g),
        forall|c: Block| #[trigger] blocks.contains(c) ==> graph.contains(c),
        descend(blocks, children_map(graph), msgs, weights, fuel).is_some(),
    ensures
        graph.contains(descend(blocks, children_map(graph), msgs, weights, fuel).unwrap()),
        heaviest(blocks, msgs, weights).is_some(),
        heaviest(blocks, msgs, weights).unwrap().spec_is_member(
            descend(blocks, children_map(graph), msgs, weights, fuel).unwrap(),
        ),
    decreases fuel,
{
    let r = descend(blocks, children_map(graph), msgs, weights, fuel).unwrap();
    lemma_heaviest_among(blocks, msgs, weights);
    let best = heaviest(blocks, msgs, weights).unwrap();
    lemma_recorded_children(graph, best.spec_id());
    let kids = children_of(best.spec_id(), graph);
    if kids.len() > 0 {
        lemma_children_add(best.spec_id(), Seq::empty(), graph);
        assert(Seq::<Block>::empty() + graph =~= graph);
        lemma_descend_member(universe, graph, kids, msgs, weights, (fuel - 1) as nat);
        let k = heaviest(kids, msgs, weights).unwrap();
        lemma_heaviest_among(kids, msgs, weights);
        assert(kids.contains(k));
        assert(graph.contains(k));
        lemma_prev(universe, k, best);
        let i = lemma_member_at(universe, k, r);
        lemma_chain_rest(r, i);
        lemma_chain(k);
        assert(chain(r)[i + 1] == chain(k)[1]);
        assert(chain(k)[1] == best) by {
            lemma_chain(best);
        }
        lemma_member_on_chain(best, r);
    }
}

/// A descent from blocks that come after `b` ends, where it ends, at a
/// block that comes after `b`.
pub proof fn lemma_descend_below(
    universe: Seq<Block>,
    graph: Seq<Block>,
    blocks: Seq<Block>,
    msgs: Seq<Message<Block>>,
    weights: Map<u32, WeightUnit>,
    b: Block,
    fuel: nat,
)
    requires
        blocks_collision_free(universe),
        forall|y: Block, z: Block|
            universe.contains(y) && #[trigger] chain(y).contains(z) ==> universe.contains(z),
        forall|g: Block| #[trigger] graph.contains(g) ==> universe.contains(g),
        forall|c: Block| #[trigger] blocks.contains(c) ==> graph.contains(c) && b.spec_is_member(c),
    ensures
        descend(blocks, children_map(graph), msgs, weights, fuel) matches Some(r)
            ==> b.spec_is_member(r),
    decreases fuel,
{
    if fuel > 0 && blocks.len() > 0 {
        lemma_heaviest_among(blocks, msgs, weights);
        let best = heaviest(blocks, msgs, weights).unwrap();
        lemma_recorded_children(graph, best.spec_id());
        let kids = children_of(best.spec_id(), graph);
        if kids.len() > 0 {
            lemma_children_add(best.spec_id(), Seq::empty(), graph);
            assert(Seq::<Block>::empty() + graph =~= graph);
            assert forall|c: Block| #[trigger] kids.contains(c) implies graph.contains(c)
                && b.spec_is_member(c) by {
                lemma_prev(universe, c, best);
            }
            lemma_descend_below(universe, graph, kids, msgs, weights, b, (fuel - 1) as nat);
        }
    } else {
        lemma_heaviest_among(blocks, msgs, weights);
    }
}

/// The descent from blocks of one depth, once messages have joined that
/// propose blocks after `b`: where the descent ended at `b` or at a block
/// after `b` before, and started no deeper than `b` lies, it ends, where it
/// ends, at `b` or at a block after `b`.
pub proof fn lemma_descend_grows(
    universe: Seq<Block>,
    graph: Seq<Block>,
    added: Seq<Block>,
    blocks: Seq<Block>,
    msgs: Seq<Message<Block>>,
    more: Seq<Message<Block>>,
    weights: Map<u32, WeightUnit>,
    b: Block,
    r: Block,
    fuel: nat,
    larger: nat,
    level: nat,
)
    requires
        grown(universe, graph, added, weights, b),
        forall|i: int|
            0 <= i < more.len() ==> universe.contains((#[trigger] more[i]).spec_estimate())
                && b.spec_is_member(more[i].spec_estimate()),
        forall|c: Block| #[trigger] blocks.contains(c) ==> graph.contains(c) && depth(c) == level,
        descend(blocks, children_map(graph), msgs, weights, fuel) == Some(r),
        b.spec_is_member(r),
        level <= depth(b),
        larger >= fuel,
    ensures
        descend(blocks, children_map(graph + added), msgs + more, weights, larger) matches Some(end)
            ==> b.spec_is_member(end),
    decreases fuel,
{
    let whole = graph + added;
    assert forall|g: Block| #[trigger] whole.contains(g) implies universe.contains(g) by {
        let k = choose|k: int| 0 <= k < whole.len() && whole[k] == g;
        if k < graph.len() {
            assert(graph[k] == g);
            assert(graph.contains(g));
        } else {
            assert(added[k - graph.len()] == g);
            assert(added.contains(g));
        }
    }
    lemma_descend_member(universe, graph, blocks, msgs, weights, fuel);
    lemma_heaviest_among(blocks, msgs, weights);
    let best = heaviest(blocks, msgs, weights).unwrap();
    assert(graph.contains(r));
    assert(blocks.contains(best));
    let at_best = lemma_member_at(universe, best, r);
    let at_b = lemma_member_at(universe, b, r);
    assert(chain(b)[at_best - at_b] == best);
    assert(holds_block(chain(b), best.spec_id()));
    lemma_member_on_chain(best, b);
    assert(best.spec_is_member(b));
    let up = lemma_member_at(universe, best, b);
    assert forall|c: Block| #[trigger] blocks.contains(c) && c != best implies score(
        c,
        msgs + more,
        weights,
    ) == score(c, msgs, weights) by {
        assert forall|i: int| 0 <= i < more.len() implies !c.spec_is_member(
            (#[trigger] more[i]).spec_estimate(),
        ) by {
            let t = more[i].spec_estimate();
            if c.spec_is_member(t) {
                let at_c = lemma_member_at(universe, c, t);
                let below = lemma_member_at(universe, b, t);
                lemma_chain_rest(t, below);
                assert(chain(t)[below + up] == chain(b)[up]);
                assert(chain(t)[at_c] == chain(t)[below + up]);
            }
        }
        lemma_score_grows(c, msgs, more, weights);
    }
    assert forall|c: Block| #[trigger] blocks.contains(c) implies universe.contains(c) by {}
    lemma_heaviest_stays(universe, blocks, msgs, more, weights);
    lemma_recorded_children(graph, best.spec_id());
    lemma_recorded_children(whole, best.spec_id());
    assert(holds_block(whole, best.spec_id())) by {
        let k = choose|k: int| 0 <= k < graph.len() && graph[k] == best;
        assert(whole[k].spec_id() == best.spec_id());
    }
    lemma_children_add(best.spec_id(), graph, added);
    lemma_children_add(best.spec_id(), Seq::empty(), graph);
    assert(Seq::<Block>::empty() + graph =~= graph);
    let kids = children_of(best.spec_id(), graph);
    let new_kids = children_of(best.spec_id(), added);
    if best == b {
        let all_kids = kids + new_kids;
        if all_kids.len() > 0 {
            assert forall|c: Block| #[trigger] all_kids.contains(c) implies whole.contains(c)
                && b.spec_is_member(c) by {
                let k = choose|k: int| 0 <= k < all_kids.len() && all_kids[k] == c;
                if k < kids.len() {
                    assert(kids[k] == c);
                    assert(kids.contains(c));
                    let g = choose|g: int| 0 <= g < graph.len() && graph[g] == c;
                    assert(whole[g] == c);
                } else {
                    assert(new_kids[k - kids.len()] == c);
                    assert(new_kids.contains(c));
                    let g = choose|g: int| 0 <= g < added.len() && added[g] == c;
                    assert(whole[graph.len() + g] == c);
                }
                lemma_prev(universe, c, best);
            }
            lemma_descend_below(
                universe,
                whole,
                all_kids,
                msgs + more,
                weights,
                b,
                (larger - 1) as nat,
            );
        } else {
            lemma_chain(b);
            lemma_member_on_chain(b, b);
        }
    } else {
        assert(up > 0);
        assert(kids.len() > 0);
        lemma_descend_member(universe, graph, kids, msgs, weights, (fuel - 1) as nat);
        assert forall|i: int| 0 <= i < added.len() implies (#[trigger] added[i]).prev_id() != Some(
            best.spec_id(),
        ) by {
            let x = added[i];
            assert(added.contains(x));
            if x.prev_id() == Some(best.spec_id()) {
                lemma_prev(universe, x, best);
                let back = lemma_member_at(universe, b, x);
                if back == 0 {
                    assert(chain(x)[0] == x) by {
                        lemma_chain(x);
                    }
                }
            }
        }
        assert(new_kids.len() == 0);
        assert(kids + new_kids =~= kids);
        assert forall|c: Block| #[trigger] kids.contains(c) implies graph.contains(c) && depth(c)
            == level + 1 by {
            lemma_prev(universe, c, best);
        }
        lemma_descend_grows(
            universe,
            graph,
            added,
            kids,
            msgs,
            more,
            weights,
            b,
            r,
            (fuel - 1) as nat,
            (larger - 1) as nat,
            level + 1,
        );
    }
}

/// What a message adds to the score of a block: the weight of its sender
/// where the sender has one and the message proposes the block or a block
/// after it, and nothing otherwise.
pub open spec fn contribution(
    block: Block,
    msg: Message<Block>,
    weights: Map<u32, WeightUnit>,
) -> WeightUnit {
    if block.spec_is_member(msg.spec_estimate()) && weights.contains_key(msg.spec_sender()) {
        weights[msg.spec_sender()]
    } else {
        WeightUnit::Finite(0)
    }
}

/// The score of a block with one more message.
pub proof fn lemma_score_push(
    block: Block,
    msgs: Seq<Message<Block>>,
    msg: Message<Block>,
    weights: Map<u32, WeightUnit>,
)
    ensures
        score(block, msgs.push(msg), weights) == score(block, msgs, weights).spec_plus(
            contribution(block, msg, weights),
        ),
{
    assert(msgs.push(msg).drop_last() =~= msgs);
    let before = supporters(block, msgs);
    if block.spec_is_member(msg.spec_estimate()) {
        assert(before.push(msg.spec_sender()).drop_last() =~= before);
    }
    WeightUnit::lemma_plus_laws(
        score(block, msgs, weights),
        WeightUnit::Finite(0),
        WeightUnit::Finite(0),
    );
}

/// The score of a block is the score without one of the messages, raised
/// by what that message adds.
pub proof fn lemma_score_remove(
    block: Block,
    msgs: Seq<Message<Block>>,
    at: int,
    weights: Map<u32, WeightUnit>,
)
    requires
        0 <= at < msgs.len(),
    ensures
        score(block, msgs, weights) == score(block, msgs.remove(at), weights).spec_plus(
            contribution(block, msgs[at], weights),
        ),
    decreases msgs.len(),
{
    let rest = msgs.drop_last();
    let last = msgs.last();
    assert(msgs =~= rest.push(last));
    lemma_score_push(block, rest, last, weights);
    if at == msgs.len() - 1 {
        assert(msgs.remove(at) =~= rest);
    } else {
        lemma_score_remove(block, rest, at, weights);
        assert(msgs.remove(at) =~= rest.remove(at).push(last));
        lemma_score_push(block, rest.remove(at), last, weights);
        WeightUnit::lemma_plus_laws(
            score(block, rest.remove(at), weights),
            contribution(block, msgs[at], weights),
            contribution(block, last, weights),
        );
        WeightUnit::lemma_plus_laws(
            contribution(block, msgs[at], weights),
            contribution(block, last, weights),
            WeightUnit::Finite(0),
        );
        WeightUnit::lemma_plus_laws(
            score(block, rest.remove(at), weights),
            contribution(block, last, weights),
            contribution(block, msgs[at], weights),
        );
    }
}

/// The score of a block does not depend on the order of the messages.
pub proof fn lemma_score_permutation(
    block: Block,
    a: Seq<Message<Block>>,
    b: Seq<Message<Block>>,
    weights: Map<u32, WeightUnit>,
)
    requires
        a.to_multiset() == b.to_multiset(),
    ensures
        score(block, a, weights) == score(block, b, weights),
    decreases a.len(),
{
    broadcast use vstd::seq_lib::group_to_multiset_ensures;

    assert(a.len() == a.to_multiset().len());
    assert(b.len() == b.to_multiset().len());
    if a.len() == 0 {
        assert(a =~= b);
    } else {
        let rest = a.drop_last();
        let last = a.last();
        assert(a =~= rest.push(last));
        assert(a.contains(last)) by {
            assert(a[a.len() - 1] == last);
        }
        assert(b.to_multiset().count(last) > 0);
        assert(b.contains(last));
        let at = choose|at: int| 0 <= at < b.len() && b[at] == last;
        assert(rest.to_multiset() =~= a.to_multiset().remove(last)) by {
            assert(a.remove(a.len() - 1) =~= rest);
        }
        assert(b.remove(at).to_multiset() =~= rest.to_multiset());
        lemma_score_permutation(block, rest, b.remove(at), weights);
        lemma_score_push(block, rest, last, weights);
        lemma_score_remove(block, b, at, weights);
    }
}

/// Two sequences hold the same blocks.
pub open spec fn same_blocks(a: Seq<Block>, b: Seq<Block>) -> bool {
    forall|x: Block| a.contains(x) <==> b.contains(x)
}

/// Where no two different blocks share an identifier, the distinct blocks
/// of a sequence are the blocks of the sequence.
pub proof fn lemma_distinct_same(blocks: Seq<Block>)
    requires
        blocks_collision_free(blocks),
    ensures
        same_blocks(distinct_blocks(blocks), blocks),
{
    lemma_distinct_blocks(blocks);
    let kept = distinct_blocks(blocks);
    assert forall|x: Block| kept.contains(x) <==> blocks.contains(x) by {
        if blocks.contains(x) {
            let k = choose|k: int| 0 <= k < blocks.len() && blocks[k] == x;
            assert(blocks[k].spec_id() == x.spec_id());
            assert(holds_block(blocks, x.spec_id()));
            assert(holds_block(kept, x.spec_id()));
            let l = choose|l: int| 0 <= l < kept.len() && (#[trigger] kept[l]).spec_id() == x.spec_id();
            assert(kept.contains(kept[l]));
            assert(blocks.contains(kept[l]));
        }
    }
}

/// A block of a sequence whose predecessor has the identifier `id` is
/// among the children of `id` in the sequence.
pub proof fn lemma_children_holds(id: Seq<u8>, blocks: Seq<Block>, x: Block)
    requires
        blocks.contains(x),
        x.prev_id() == Some(id),
    ensures
        children_of(id, blocks).contains(x),
    decreases blocks.len(),
{
    let rest = blocks.drop_last();
    let k = choose|k: int| 0 <= k < blocks.len() && blocks[k] == x;
    if k < rest.len() {
        assert(rest[k] == x);
        lemma_children_holds(id, rest, x);
        let l = choose|l: int| 0 <= l < children_of(id, rest).len() && children_of(id, rest)[l] == x;
        assert(children_of(id, blocks)[l] == x);
    } else {
        assert(children_of(id, blocks)[children_of(id, blocks).len() - 1] == x);
    }
}

/// The heaviest of some blocks does not depend on the order of the blocks
/// nor on the order of the messages.
pub proof fn lemma_heaviest_permutation(
    universe: Seq<Block>,
    blocks: Seq<Block>,
    others: Seq<Block>,
    msgs: Seq<Message<Block>>,
    shuffled: Seq<Message<Block>>,
    weights: Map<u32, WeightUnit>,
)
    requires
        all_numbers(weights),
        blocks_collision_free(universe),
        forall|c: Block| #[trigger] blocks.contains(c) ==> universe.contains(c),
        same_blocks(blocks, others),
        msgs.to_multiset() == shuffled.to_multiset(),
    ensures
        heaviest(others, shuffled, weights) == heaviest(blocks, msgs, weights),
{
    lemma_heaviest_among(blocks, msgs, weights);
    lemma_heaviest_among(others, shuffled, weights);
    if blocks.len() == 0 {
        if others.len() > 0 {
            assert(others.contains(others[0]));
        }
    } else {
        lemma_heaviest_unbeaten(blocks, msgs, weights);
        let m = heaviest(blocks, msgs, weights).unwrap();
        lemma_score_grows(m, msgs, Seq::empty(), weights);
        lemma_score_permutation(m, msgs, shuffled, weights);
        assert forall|c: Block| #[trigger] others.contains(c) implies c == m || beats(
            m,
            c,
            shuffled,
            weights,
        ) by {
            assert(blocks.contains(c));
            if c != m {
                assert(c.spec_id() != m.spec_id());
                assert(!beats(c, m, msgs, weights));
                lemma_score_grows(c, msgs, Seq::empty(), weights);
                lemma_score_permutation(c, msgs, shuffled, weights);
                c.lemma_id_len();
                m.lemma_id_len();
                lemma_lex_total(c.spec_id(), m.spec_id());
            }
        }
        lemma_heaviest_unique(others, shuffled, weights, m);
    }
}

/// A descent does not depend on the order of the blocks, nor on the order
/// of the messages, nor on the fuel as long as it comes to an end.
pub proof fn lemma_descend_permutation(
    universe: Seq<Block>,
    graph: Seq<Block>,
    other_graph: Seq<Block>,
    blocks: Seq<Block>,
    others: Seq<Block>,
    msgs: Seq<Message<Block>>,
    shuffled: Seq<Message<Block>>,
    weights: Map<u32, WeightUnit>,
    fuel: nat,
    other_fuel: nat,
)
    requires
        all_numbers(weights),
        blocks_collision_free(universe),
        forall|g: Block| #[trigger] graph.contains(g) ==> universe.contains(g),
        same_blocks(graph, other_graph),
        same_blocks(blocks, others),
        forall|c: Block| #[trigger] blocks.contains(c) ==> graph.contains(c),
        msgs.to_multiset() == shuffled.to_multiset(),
        descend(blocks, children_map(graph), msgs, weights, fuel).is_some(),
        descend(others, children_map(other_graph), shuffled, weights, other_fuel).is_some(),
    ensures
        descend(others, children_map(other_graph), shuffled, weights, other_fuel) == descend(
            blocks,
            children_map(graph),
            msgs,
            weights,
            fuel,
        ),
    decreases fuel,
{
    assert forall|c: Block| #[trigger] blocks.contains(c) implies universe.contains(c) by {}
    lemma_heaviest_permutation(universe, blocks, others, msgs, shuffled, weights);
    lemma_heaviest_among(blocks, msgs, weights);
    let best = heaviest(blocks, msgs, weights).unwrap();
    assert(graph.contains(best));
    assert(other_graph.contains(best));
    lemma_recorded_children(graph, best.spec_id());
    lemma_recorded_children(other_graph, best.spec_id());
    assert(holds_block(graph, best.spec_id())) by {
        let k = choose|k: int| 0 <= k < graph.len() && graph[k] == best;
        assert(graph[k].spec_id() == best.spec_id());
    }
    assert(holds_block(other_graph, best.spec_id())) by {
        let k = choose|k: int| 0 <= k < other_graph.len() && other_graph[k] == best;
        assert(other_graph[k].spec_id() == best.spec_id());
    }
    let kids = children_of(best.spec_id(), graph);
    let other_kids = children_of(best.spec_id(), other_graph);
    lemma_children_add(best.spec_id(), Seq::empty(), graph);
    lemma_children_add(best.spec_id(), Seq::empty(), other_graph);
    assert(Seq::<Block>::empty() + graph =~= graph);
    assert(Seq::<Block>::empty() + other_graph =~= other_graph);
    assert forall|x: Block| kids.contains(x) <==> other_kids.contains(x) by {
        if kids.contains(x) {
            assert(other_graph.contains(x));
            lemma_children_holds(best.spec_id(), other_graph, x);
        }
        if other_kids.contains(x) {
            assert(graph.contains(x));
            lemma_children_holds(best.spec_id(), graph, x);
        }
    }
    if kids.len() > 0 {
        assert(kids.contains(kids[0]));
        assert(other_kids.len() > 0);
        lemma_descend_permutation(
            universe,
            graph,
            other_graph,
            kids,
            other_kids,
            msgs,
            shuffled,
            weights,
            (fuel - 1) as nat,
            (other_fuel - 1) as nat,
        );
    } else if other_kids.len() > 0 {
        assert(other_kids.contains(other_kids[0]));
    }
}

/// The chains of the blocks that the messages propose hold the same blocks
/// whatever the order of the messages.
pub proof fn lemma_chains_permutation(a: Seq<Message<Block>>, b: Seq<Message<Block>>)
    requires
        a.to_multiset() == b.to_multiset(),
    ensures
        same_blocks(chains(tips(a)), chains(tips(b))),
{
    broadcast use vstd::seq_lib::group_to_multiset_ensures;

    assert forall|x: Block| chains(tips(a)).contains(x) <==> chains(tips(b)).contains(x) by {
        lemma_chains_contains(tips(a), x);
        lemma_chains_contains(tips(b), x);
        if chains(tips(a)).contains(x) {
            let i = choose|i: int| 0 <= i < tips(a).len() && chain(#[trigger] tips(a)[i]).contains(x);
            assert(a.contains(a[i]));
            assert(b.to_multiset().count(a[i]) > 0);
            assert(b.contains(a[i]));
            let j = choose|j: int| 0 <= j < b.len() && b[j] == a[i];
            assert(tips(b)[j] == tips(a)[i]);
        }
        if chains(tips(b)).contains(x) {
            let i = choose|i: int| 0 <= i < tips(b).len() && chain(#[trigger] tips(b)[i]).contains(x);
            assert(b.contains(b[i]));
            assert(a.to_multiset().count(b[i]) > 0);
            assert(a.contains(b[i]));
            let j = choose|j: int| 0 <= j < a.len() && a[j] == b[i];
            assert(tips(a)[j] == tips(b)[i]);
        }
    }
}

/// The fork choice does not depend on the order of the messages, where
/// every weight is a number and no two different blocks on the chains of
/// the proposed blocks share an identifier.
pub proof fn lemma_ghost_permutation(
    msgs: Seq<Message<Block>>,
    shuffled: Seq<Message<Block>>,
    weights: Map<u32, WeightUnit>,
)
    requires
        all_numbers(weights),
        blocks_collision_free(chains(tips(msgs))),
        msgs.to_multiset() == shuffled.to_multiset(),
    ensures
        ghost_choice(shuffled, weights) == ghost_choice(msgs, weights),
{
    broadcast use vstd::seq_lib::group_to_multiset_ensures;

    assert(msgs.len() == msgs.to_multiset().len());
    assert(shuffled.len() == shuffled.to_multiset().len());
    if msgs.len() == 0 {
        assert(msgs =~= shuffled);
    } else {
        let universe = chains(tips(msgs));
        let other = chains(tips(shuffled));
        lemma_chains_permutation(msgs, shuffled);
        assert(blocks_collision_free(other));
        lemma_ghost_chooses(msgs, weights);
        lemma_ghost_chooses(shuffled, weights);
        let graph = block_graph(msgs);
        let other_graph = block_graph(shuffled);
        lemma_distinct_same(universe);
        lemma_distinct_same(other);
        assert(same_blocks(graph, other_graph));
        lemma_genesis_add(Seq::empty(), graph);
        lemma_genesis_add(Seq::empty(), other_graph);
        assert(Seq::<Block>::empty() + graph =~= graph);
        assert(Seq::<Block>::empty() + other_graph =~= other_graph);
        let roots = genesis_of(graph);
        let other_roots = genesis_of(other_graph);
        assert forall|x: Block| roots.contains(x) <==> other_roots.contains(x) by {
            if roots.contains(x) {
                assert(other_graph.contains(x));
                lemma_genesis_holds(other_graph, x);
            }
            if other_roots.contains(x) {
                assert(graph.contains(x));
                lemma_genesis_holds(graph, x);
            }
        }
        lemma_descend_permutation(
            universe,
            graph,
            other_graph,
            roots,
            other_roots,
            msgs,
            shuffled,
            weights,
            graph.len(),
            other_graph.len(),
        );
    }
}

/// The fork choice is monotone. Let the choice for the messages `msgs` be
/// `b` or a block after `b`, and let every message of `more` propose `b`
/// or a block after `b`. Where every weight is a number and no two
/// different blocks on the chains of the proposed blocks share an
/// identifier, the choice for `msgs` followed by `more` is `b` or a block
/// after `b`.
pub proof fn lemma_ghost_monotone(
    msgs: Seq<Message<Block>>,
    more: Seq<Message<Block>>,
    weights: Map<u32, WeightUnit>,
    b: Block,
)
    requires
        all_numbers(weights),
        blocks_collision_free(chains(tips(msgs + more))),
        ghost_choice(msgs, weights) matches Some(r) && b.spec_is_member(r),
        forall|i: int| 0 <= i < more.len() ==> b.spec_is_member((#[trigger] more[i]).spec_estimate()),
    ensures
        ghost_choice(msgs + more, weights) matches Some(r) && b.spec_is_member(r),
{
    if msgs.len() == 0 {
        assert(tips(msgs) =~= Seq::<Block>::empty());
        assert(chains(tips(msgs)) =~= Seq::<Block>::empty());
        assert(block_graph(msgs) =~= Seq::<Block>::empty());
        lemma_heaviest_among(genesis_of(block_graph(msgs)), msgs, weights);
    }
    assert((msgs + more).len() > 0);
    lemma_ghost_chooses(msgs + more, weights);
    let r = ghost_choice(msgs, weights).unwrap();
    let old_tips = tips(msgs);
    let new_tips = tips(more);
    let all_tips = tips(msgs + more);
    assert(all_tips =~= old_tips + new_tips);
    let universe = chains(all_tips);
    let before = chains(old_tips);
    let after = chains(new_tips);
    lemma_chains_add(old_tips, new_tips);
    let graph = block_graph(msgs);
    let added = fresh_blocks(graph, after);
    lemma_distinct_add(before, after);
    lemma_distinct_blocks(before);
    assert(block_graph(msgs + more) == graph + added);
    assert forall|y: Block| before.contains(y) implies universe.contains(y) by {
        let k = choose|k: int| 0 <= k < before.len() && before[k] == y;
        assert((before + after)[k] == y);
    }
    assert forall|y: Block| after.contains(y) implies universe.contains(y) by {
        let k = choose|k: int| 0 <= k < after.len() && after[k] == y;
        assert((before + after)[before.len() + k] == y);
    }
    assert forall|y: Block, z: Block|
        universe.contains(y) && #[trigger] chain(y).contains(z) implies universe.contains(z) by {
        lemma_chains_closed(all_tips, y);
    }
    assert forall|g: Block| #[trigger] graph.contains(g) implies universe.contains(g) by {
        assert(before.contains(g));
    }
    lemma_genesis_add(Seq::empty(), graph);
    assert(Seq::<Block>::empty() + graph =~= graph);
    let roots = genesis_of(graph);
    lemma_descend_member(universe, graph, roots, msgs, weights, graph.len());
    assert(graph.contains(r));
    assert(before.contains(r));
    // The block of the chain of the choice that has the identifier of `b`.
    lemma_member_on_chain(b, r);
    let at = choose|at: int|
        0 <= at < chain(r).len() && (#[trigger] chain(r)[at]).spec_id() == b.spec_id();
    let on_chain = chain(r)[at];
    assert(chain(r).contains(on_chain));
    lemma_chains_closed(old_tips, r);
    assert(before.contains(on_chain));
    assert(universe.contains(on_chain));
    lemma_member_on_chain(on_chain, r);
    assert forall|x: Block| b.spec_is_member(x) == on_chain.spec_is_member(x) by {
        lemma_member_on_chain(b, x);
        lemma_member_on_chain(on_chain, x);
    }
    assert forall|i: int| 0 <= i < more.len() implies universe.contains(
        (#[trigger] more[i]).spec_estimate(),
    ) && on_chain.spec_is_member(more[i].spec_estimate()) by {
        let t = more[i].spec_estimate();
        assert(new_tips[i] == t);
        lemma_chain(t);
        lemma_chains_contains(new_tips, t);
        assert(after.contains(t));
    }
    assert forall|x: Block| #[trigger] added.contains(x) implies universe.contains(x)
        && on_chain.spec_is_member(x) && x.spec_id() != on_chain.spec_id() by {
        assert(after.contains(x));
        lemma_chains_contains(new_tips, x);
        let i = choose|i: int| 0 <= i < new_tips.len() && chain(#[trigger] new_tips[i]).contains(x);
        let t = new_tips[i];
        assert(t == more[i].spec_estimate());
        let at_x = choose|l: int| 0 <= l < chain(t).len() && chain(t)[l] == x;
        let at_b = lemma_member_at(universe, on_chain, t);
        lemma_chain_rest(t, at_x);
        lemma_chain_rest(t, at_b);
        if at_x >= at_b {
            assert(chain(on_chain)[at_x - at_b] == x);
            assert(chain(on_chain).contains(x));
            lemma_chains_closed(old_tips, on_chain);
            assert(before.contains(x));
            let k = choose|k: int| 0 <= k < before.len() && before[k] == x;
            assert(before[k].spec_id() == x.spec_id());
            assert(holds_block(before, x.spec_id()));
        } else {
            assert(chain(x)[at_b - at_x] == on_chain);
            assert(chain(x)[at_b - at_x].spec_id() == on_chain.spec_id());
            lemma_member_on_chain(on_chain, x);
            if x.spec_id() == on_chain.spec_id() {
                let k = choose|k: int| 0 <= k < before.len() && before[k] == on_chain;
                assert(before[k].spec_id() == x.spec_id());
                assert(holds_block(before, x.spec_id()));
            }
        }
    }
    assert(grown(universe, graph, added, weights, on_chain));
    assert forall|i: int| 0 <= i < added.len() implies (
    #[trigger] added[i]).spec_prevblock().is_some() by {
        assert(added.contains(added[i]));
    }
    lemma_genesis_add(graph, added);
    assert forall|c: Block| #[trigger] roots.contains(c) implies graph.contains(c) && depth(c)
        == 1 by {
        lemma_chain(c);
    }
    lemma_chain(on_chain);
    lemma_descend_grows(
        universe,
        graph,
        added,
        roots,
        msgs,
        more,
        weights,
        on_chain,
        r,
        graph.len(),
        (graph + added).len(),
        1,
    );
}

/// The fork choice is monotone, wherever the new messages stand among the
/// others. Let the choice for the messages `msgs` be `b` or a block after
/// `b`, and let `grown` hold the messages of `msgs` and of `more`, where
/// every message of `more` proposes `b` or a block after `b`. Where every
/// weight is a number and no two different blocks on the chains of the
/// proposed blocks share an identifier, the choice for `grown` is `b` or a
/// block after `b`.
pub proof fn lemma_ghost_monotone_anywhere(
    msgs: Seq<Message<Block>>,
    more: Seq<Message<Block>>,
    grown: Seq<Message<Block>>,
    weights: Map<u32, WeightUnit>,
    b: Block,
)
    requires
        all_numbers(weights),
        blocks_collision_free(chains(tips(msgs + more))),
        ghost_choice(msgs, weights) matches Some(r) && b.spec_is_member(r),
        forall|i: int| 0 <= i < more.len() ==> b.spec_is_member((#[trigger] more[i]).spec_estimate()),
        grown.to_multiset() == (msgs + more).to_multiset(),
    ensures
        ghost_choice(grown, weights) matches Some(r) && b.spec_is_member(r),
{
    lemma_ghost_monotone(msgs, more, weights, b);
    lemma_ghost_permutation(msgs + more, grown, weights);
}

/// What two sets of messages must have in common for the choice to stay
/// at `b` or after it. No two different blocks of `universe` share an
/// identifier, `universe` holds the chain of each of its blocks, `b`, and
/// the blocks of both graphs; the other graph holds the chain of `b`, and
/// no block as deep as `b` or less that `graph` lacks; with the other
/// messages no block on the chain of `b` scores less, and no block beside
/// that chain and as deep as `b` or less scores more; and every weight is
/// a number.
pub open spec fn shifted(
    universe: Seq<Block>,
    graph: Seq<Block>,
    other_graph: Seq<Block>,
    msgs: Seq<Message<Block>>,
    other_msgs: Seq<Message<Block>>,
    weights: Map<u32, WeightUnit>,
    b: Block,
) -> bool {
    &&& all_numbers(weights)
    &&& blocks_collision_free(universe)
    &&& universe.contains(b)
    &&& forall|y: Block, z: Block|
        universe.contains(y) && #[trigger] chain(y).contains(z) ==> universe.contains(z)
    &&& forall|g: Block| #[trigger] graph.contains(g) ==> universe.contains(g)
    &&& forall|g: Block| #[trigger] other_graph.contains(g) ==> universe.contains(g)
    &&& forall|z: Block| #[trigger] chain(b).contains(z) ==> other_graph.contains(z)
    &&& forall|x: Block| #[trigger] other_graph.contains(x) && depth(x) <= depth(b) ==> graph.contains(x)
    &&& forall|p: Block| #[trigger]
        universe.contains(p) && p.spec_is_member(b) ==> !score(p, other_msgs, weights).spec_lt(
            score(p, msgs, weights),
        )
    &&& forall|q: Block| #[trigger]
        universe.contains(q) && !q.spec_is_member(b) && depth(q) <= depth(b) ==> !score(
            q,
            msgs,
            weights,
        ).spec_lt(score(q, other_msgs, weights))
}

/// The block before a block on the chain of `b`, seen from `b`: the
/// block one place nearer to `b` has it as its predecessor.
proof fn lemma_chain_step(b: Block, up: int)
    requires
        0 < up < chain(b).len(),
    ensures
        chain(b)[up - 1].prev_id() == Some(chain(b)[up].spec_id()),
        chain(b)[up - 1].spec_prevblock() == Some(chain(b)[up]),
{
    let k = chain(b)[up - 1];
    lemma_chain_rest(b, up - 1);
    lemma_chain(k);
    assert(chain(k).len() >= 2);
    let prev = k.spec_prevblock().unwrap();
    lemma_chain(prev);
    assert(chain(k)[1] == prev);
    assert(chain(b).skip(up - 1)[1] == chain(b)[up]);
}

/// The descent through another graph with other messages: where the
/// descent ended at `b` or at a block after `b`, and started no deeper
/// than `b` lies, the other descent ends, where it ends, at `b` or at a
/// block after `b`.
pub proof fn lemma_descend_shifted(
    universe: Seq<Block>,
    graph: Seq<Block>,
    other_graph: Seq<Block>,
    blocks: Seq<Block>,
    others: Seq<Block>,
    msgs: Seq<Message<Block>>,
    other_msgs: Seq<Message<Block>>,
    weights: Map<u32, WeightUnit>,
    b: Block,
    r: Block,
    fuel: nat,
    other_fuel: nat,
    level: nat,
)
    requires
        shifted(universe, graph, other_graph, msgs, other_msgs, weights, b),
        forall|c: Block| #[trigger] blocks.contains(c) ==> graph.contains(c) && depth(c) == level,
        forall|c: Block| #[trigger] others.contains(c) ==> other_graph.contains(c) && blocks.contains(c),
        forall|c: Block| #[trigger] blocks.contains(c) && c.spec_is_member(b) ==> others.contains(c),
        descend(blocks, children_map(graph), msgs, weights, fuel) == Some(r),
        b.spec_is_member(r),
        level <= depth(b),
    ensures
        descend(others, children_map(other_graph), other_msgs, weights, other_fuel) matches Some(end)
            ==> b.spec_is_member(end),
    decreases fuel,
{
    lemma_descend_member(universe, graph, blocks, msgs, weights, fuel);
    lemma_heaviest_among(blocks, msgs, weights);
    let best = heaviest(blocks, msgs, weights).unwrap();
    assert(graph.contains(r));
    assert(blocks.contains(best));
    let at_best = lemma_member_at(universe, best, r);
    let at_b = lemma_member_at(universe, b, r);
    assert(chain(b)[at_best - at_b] == best);
    assert(chain(b).contains(best));
    assert(holds_block(chain(b), best.spec_id()));
    lemma_member_on_chain(best, b);
    let up = lemma_member_at(universe, best, b);
    assert(others.contains(best));
    lemma_heaviest_unbeaten(blocks, msgs, weights);
    lemma_score_grows(best, msgs, Seq::empty(), weights);
    lemma_score_grows(best, other_msgs, Seq::empty(), weights);
    assert forall|c: Block| #[trigger] others.contains(c) implies c == best || beats(
        best,
        c,
        other_msgs,
        weights,
    ) by {
        if c != best {
            assert(blocks.contains(c));
            assert(universe.contains(c) && universe.contains(best));
            assert(c.spec_id() != best.spec_id());
            if c.spec_is_member(b) {
                let at_c = lemma_member_at(universe, c, b);
                assert(at_c == up);
            }
            assert(!beats(c, best, msgs, weights));
            lemma_score_grows(c, msgs, Seq::empty(), weights);
            lemma_score_grows(c, other_msgs, Seq::empty(), weights);
            c.lemma_id_len();
            best.lemma_id_len();
            lemma_lex_total(c.spec_id(), best.spec_id());
        }
    }
    lemma_heaviest_unique(others, other_msgs, weights, best);
    assert(other_graph.contains(best));
    lemma_recorded_children(graph, best.spec_id());
    lemma_recorded_children(other_graph, best.spec_id());
    assert(holds_block(other_graph, best.spec_id())) by {
        let k = choose|k: int| 0 <= k < other_graph.len() && other_graph[k] == best;
        assert(other_graph[k].spec_id() == best.spec_id());
    }
    lemma_children_add(best.spec_id(), Seq::empty(), graph);
    assert(Seq::<Block>::empty() + graph =~= graph);
    lemma_children_add(best.spec_id(), Seq::empty(), other_graph);
    assert(Seq::<Block>::empty() + other_graph =~= other_graph);
    let kids = children_of(best.spec_id(), graph);
    let other_kids = children_of(best.spec_id(), other_graph);
    if other_fuel > 0 {
        if best == b {
            if other_kids.len() > 0 {
                assert forall|c: Block| #[trigger] other_kids.contains(c) implies other_graph.contains(
                    c,
                ) && b.spec_is_member(c) by {
                    lemma_prev(universe, c, best);
                }
                lemma_descend_below(
                    universe,
                    other_graph,
                    other_kids,
                    other_msgs,
                    weights,
                    b,
                    (other_fuel - 1) as nat,
                );
            } else {
                lemma_chain(b);
                lemma_member_on_chain(b, b);
            }
        } else {
            assert(up > 0);
            assert(kids.len() > 0);
            let k = chain(b)[up - 1];
            lemma_chain_step(b, up);
            assert(chain(b).contains(k));
            assert(other_graph.contains(k));
            lemma_children_holds(best.spec_id(), other_graph, k);
            assert forall|c: Block| #[trigger] kids.contains(c) implies graph.contains(c) && depth(c)
                == level + 1 by {
                lemma_prev(universe, c, best);
            }
            assert forall|c: Block| #[trigger] other_kids.contains(c) implies other_graph.contains(c)
                && kids.contains(c) by {
                lemma_prev(universe, c, best);
                assert(graph.contains(c));
                lemma_children_holds(best.spec_id(), graph, c);
            }
            assert forall|c: Block| #[trigger] kids.contains(c) && c.spec_is_member(
                b,
            ) implies other_kids.contains(c) by {
                let at_c = lemma_member_at(universe, c, b);
                assert(chain(b).contains(c));
                lemma_children_holds(best.spec_id(), other_graph, c);
            }
            lemma_descend_shifted(
                universe,
                graph,
                other_graph,
                kids,
                other_kids,
                msgs,
                other_msgs,
                weights,
                b,
                r,
                (fuel - 1) as nat,
                (other_fuel - 1) as nat,
                level + 1,
            );
        }
    }
}

/// Later messages of the same validators weigh no less: where each of
/// `olds` has a message of its sender at its place in `news`, and every
/// message of `news` proposes `p` or a block after `p`, the supporters of
/// `p` among `news` weigh at least what those among `olds` weigh.
pub proof fn lemma_replaced_support(
    p: Block,
    olds: Seq<Message<Block>>,
    news: Seq<Message<Block>>,
    weights: Map<u32, WeightUnit>,
)
    requires
        all_numbers(weights),
        olds.len() <= news.len(),
        forall|i: int| 0 <= i < olds.len() ==> (#[trigger] news[i]).spec_sender() == olds[i].spec_sender(),
        forall|i: int| 0 <= i < news.len() ==> p.spec_is_member((#[trigger] news[i]).spec_estimate()),
    ensures
        sum_known(weights, supporters(p, olds)) != WeightUnit::NaN,
        sum_known(weights, supporters(p, news)) != WeightUnit::NaN,
        !sum_known(weights, supporters(p, news)).spec_lt(sum_known(weights, supporters(p, olds))),
    decreases news.len(),
{
    lemma_sum_known_add(weights, Seq::empty(), supporters(p, olds));
    lemma_sum_known_add(weights, Seq::empty(), supporters(p, news));
    if news.len() > 0 {
        let fewer = news.drop_last();
        let sender = news.last().spec_sender();
        assert(p.spec_is_member(news[news.len() - 1].spec_estimate()));
        assert(supporters(p, news).drop_last() =~= supporters(p, fewer));
        lemma_sum_known_add(weights, Seq::empty(), supporters(p, fewer));
        if olds.len() == news.len() {
            let rest = olds.drop_last();
            assert(news[news.len() - 1].spec_sender() == olds[olds.len() - 1].spec_sender());
            lemma_replaced_support(p, rest, fewer, weights);
            lemma_sum_known_add(weights, Seq::empty(), supporters(p, rest));
            if p.spec_is_member(olds.last().spec_estimate()) {
                assert(supporters(p, olds).drop_last() =~= supporters(p, rest));
            }
            if weights.contains_key(sender) {
                assert(weights[sender] != WeightUnit::NaN);
            }
        } else {
            lemma_replaced_support(p, olds, fewer, weights);
            if weights.contains_key(sender) {
                assert(weights[sender] != WeightUnit::NaN);
            }
        }
    }
}

/// A block before `b` is a block before every block that `b` is before.
proof fn lemma_member_transitive(universe: Seq<Block>, p: Block, b: Block, t: Block)
    requires
        blocks_collision_free(universe),
        universe.contains(p),
        universe.contains(b),
        forall|y: Block, z: Block|
            universe.contains(y) && #[trigger] chain(y).contains(z) ==> universe.contains(z),
        universe.contains(t),
        p.spec_is_member(b),
        b.spec_is_member(t),
    ensures
        p.spec_is_member(t),
{
    let at_p = lemma_member_at(universe, p, b);
    let at_b = lemma_member_at(universe, b, t);
    assert(chain(t)[at_b + at_p] == p);
    assert(holds_block(chain(t), p.spec_id()));
    lemma_member_on_chain(p, t);
}

/// Of two blocks before `t`, the one that is no deeper is before the other.
proof fn lemma_members_in_line(universe: Seq<Block>, q: Block, b: Block, t: Block)
    requires
        blocks_collision_free(universe),
        universe.contains(q),
        universe.contains(b),
        forall|y: Block, z: Block|
            universe.contains(y) && #[trigger] chain(y).contains(z) ==> universe.contains(z),
        universe.contains(t),
        q.spec_is_member(t),
        b.spec_is_member(t),
        depth(q) <= depth(b),
    ensures
        q.spec_is_member(b),
        chain(b).contains(q),
{
    let at_q = lemma_member_at(universe, q, t);
    let at_b = lemma_member_at(universe, b, t);
    assert(chain(b)[at_q - at_b] == q);
    assert(holds_block(chain(b), q.spec_id()));
    lemma_member_on_chain(q, b);
}

/// The fork choice is monotone where validators replace their messages.
/// Let the choice for the messages `kept` and `olds` be `b` or a block
/// after `b`. Let `news` come in the place of `olds`: each message of
/// `olds` has a message of its sender at its place in `news`, which may
/// hold messages of further validators, and every message of `news`
/// proposes `b` or a block after `b`. Where every weight is a number and
/// no two different blocks on the chains of the proposed blocks share an
/// identifier, the choice for `kept` and `news` is `b` or a block after `b`.
pub proof fn lemma_ghost_monotone_replacing(
    kept: Seq<Message<Block>>,
    olds: Seq<Message<Block>>,
    news: Seq<Message<Block>>,
    weights: Map<u32, WeightUnit>,
    b: Block,
)
    requires
        all_numbers(weights),
        blocks_collision_free(chains(tips(kept + olds + news))),
        ghost_choice(kept + olds, weights) matches Some(r) && b.spec_is_member(r),
        olds.len() <= news.len(),
        forall|i: int| 0 <= i < olds.len() ==> (#[trigger] news[i]).spec_sender() == olds[i].spec_sender(),
        forall|i: int| 0 <= i < news.len() ==> b.spec_is_member((#[trigger] news[i]).spec_estimate()),
    ensures
        ghost_choice(kept + news, weights) matches Some(r) && b.spec_is_member(r),
{
    let msgs = kept + olds;
    let after = kept + news;
    if news.len() == 0 {
        assert(msgs =~= after);
    } else {
        let r = ghost_choice(msgs, weights).unwrap();
        let universe = chains(tips(kept + olds + news));
        let before = chains(tips(msgs));
        let behind = chains(tips(after));
        let graph = block_graph(msgs);
        let other_graph = block_graph(after);
        assert(tips(kept + olds + news) =~= tips(msgs) + tips(news));
        assert(tips(kept + olds + news) =~= tips(kept) + tips(olds) + tips(news));
        assert(tips(msgs) =~= tips(kept) + tips(olds));
        assert(tips(after) =~= tips(kept) + tips(news));
        lemma_chains_add(tips(msgs), tips(news));
        lemma_chains_add(tips(kept), tips(olds));
        lemma_chains_add(tips(kept), tips(news));
        assert forall|y: Block| before.contains(y) implies universe.contains(y) by {
            let k = choose|k: int| 0 <= k < before.len() && before[k] == y;
            assert((before + chains(tips(news)))[k] == y);
        }
        assert forall|y: Block| chains(tips(news)).contains(y) implies universe.contains(y) by {
            let k = choose|k: int| 0 <= k < chains(tips(news)).len() && chains(tips(news))[k] == y;
            assert((before + chains(tips(news)))[before.len() + k] == y);
        }
        assert forall|y: Block| chains(tips(kept)).contains(y) implies before.contains(y)
            && behind.contains(y) by {
            let k = choose|k: int| 0 <= k < chains(tips(kept)).len() && chains(tips(kept))[k] == y;
            assert((chains(tips(kept)) + chains(tips(olds)))[k] == y);
            assert((chains(tips(kept)) + chains(tips(news)))[k] == y);
        }
        assert forall|y: Block| behind.contains(y) implies universe.contains(y) by {
            let k = choose|k: int| 0 <= k < behind.len() && behind[k] == y;
            if k < chains(tips(kept)).len() {
                assert(chains(tips(kept))[k] == y);
                assert(chains(tips(kept)).contains(y));
            } else {
                assert(chains(tips(news))[k - chains(tips(kept)).len()] == y);
                assert(chains(tips(news)).contains(y));
            }
        }
        assert forall|y: Block| chains(tips(news)).contains(y) implies behind.contains(y) by {
            let k = choose|k: int| 0 <= k < chains(tips(news)).len() && chains(tips(news))[k] == y;
            assert((chains(tips(kept)) + chains(tips(news)))[chains(tips(kept)).len() + k] == y);
        }
        assert(blocks_collision_free(before));
        assert(blocks_collision_free(behind));
        lemma_distinct_same(before);
        lemma_distinct_same(behind);
        assert forall|y: Block, z: Block|
            universe.contains(y) && #[trigger] chain(y).contains(z) implies universe.contains(z) by {
            lemma_chains_closed(tips(kept + olds + news), y);
        }
        assert(after.len() > 0);
        lemma_ghost_chooses(after, weights);
        if msgs.len() == 0 {
            assert(tips(msgs) =~= Seq::<Block>::empty());
            assert(before =~= Seq::<Block>::empty());
            assert(graph =~= Seq::<Block>::empty());
            lemma_heaviest_among(genesis_of(graph), msgs, weights);
        }
        lemma_genesis_add(Seq::empty(), graph);
        assert(Seq::<Block>::empty() + graph =~= graph);
        lemma_genesis_add(Seq::empty(), other_graph);
        assert(Seq::<Block>::empty() + other_graph =~= other_graph);
        let roots = genesis_of(graph);
        let other_roots = genesis_of(other_graph);
        assert forall|g: Block| #[trigger] graph.contains(g) implies universe.contains(g) by {
            assert(before.contains(g));
        }
        assert forall|g: Block| #[trigger] other_graph.contains(g) implies universe.contains(g) by {
            assert(behind.contains(g));
        }
        lemma_descend_member(universe, graph, roots, msgs, weights, graph.len());
        assert(graph.contains(r));
        assert(before.contains(r));
        // The block of the chain of the choice that has the identifier of `b`.
        lemma_member_on_chain(b, r);
        let at = choose|at: int|
            0 <= at < chain(r).len() && (#[trigger] chain(r)[at]).spec_id() == b.spec_id();
        let on_chain = chain(r)[at];
        assert(chain(r).contains(on_chain));
        lemma_chains_closed(tips(msgs), r);
        assert(before.contains(on_chain));
        assert(universe.contains(on_chain));
        lemma_member_on_chain(on_chain, r);
        assert forall|x: Block| b.spec_is_member(x) == on_chain.spec_is_member(x) by {
            lemma_member_on_chain(b, x);
            lemma_member_on_chain(on_chain, x);
        }
        assert forall|i: int| 0 <= i < news.len() implies universe.contains(
            (#[trigger] news[i]).spec_estimate(),
        ) && behind.contains(news[i].spec_estimate()) by {
            let t = news[i].spec_estimate();
            assert(tips(news)[i] == t);
            lemma_chain(t);
            lemma_chains_contains(tips(news), t);
            assert(chains(tips(news)).contains(t));
        }
        let first = news[0].spec_estimate();
        assert forall|z: Block| #[trigger] chain(on_chain).contains(z) implies other_graph.contains(
            z,
        ) by {
            let i = lemma_member_at(universe, on_chain, first);
            let l = choose|l: int| 0 <= l < chain(on_chain).len() && chain(on_chain)[l] == z;
            assert(chain(first)[i + l] == z);
            assert(chain(first).contains(z));
            lemma_chains_closed(tips(after), first);
            assert(behind.contains(z));
        }
        assert forall|x: Block| #[trigger] other_graph.contains(x) && depth(x) <= depth(
            on_chain,
        ) implies graph.contains(x) by {
            assert(behind.contains(x));
            let k = choose|k: int| 0 <= k < behind.len() && behind[k] == x;
            if k < chains(tips(kept)).len() {
                assert(chains(tips(kept))[k] == x);
                assert(chains(tips(kept)).contains(x));
                assert(before.contains(x));
            } else {
                assert(chains(tips(news))[k - chains(tips(kept)).len()] == x);
                assert(chains(tips(news)).contains(x));
                lemma_chains_contains(tips(news), x);
                let i = choose|i: int|
                    0 <= i < tips(news).len() && chain(#[trigger] tips(news)[i]).contains(x);
                let t = tips(news)[i];
                assert(t == news[i].spec_estimate());
                let l = choose|l: int| 0 <= l < chain(t).len() && chain(t)[l] == x;
                assert(chain(t)[l].spec_id() == x.spec_id());
                assert(holds_block(chain(t), x.spec_id()));
                lemma_member_on_chain(x, t);
                lemma_members_in_line(universe, x, on_chain, t);
                lemma_chains_closed(tips(msgs), on_chain);
                assert(before.contains(x));
            }
        }
        assert forall|p: Block| #[trigger]
            universe.contains(p) && p.spec_is_member(on_chain) implies !score(
            p,
            after,
            weights,
        ).spec_lt(score(p, msgs, weights)) by {
            assert forall|i: int| 0 <= i < news.len() implies p.spec_is_member(
                (#[trigger] news[i]).spec_estimate(),
            ) by {
                lemma_member_transitive(universe, p, on_chain, news[i].spec_estimate());
            }
            lemma_replaced_support(p, olds, news, weights);
            lemma_supporters_add(p, kept, olds);
            lemma_supporters_add(p, kept, news);
            lemma_sum_known_add(weights, supporters(p, kept), supporters(p, olds));
            lemma_sum_known_add(weights, supporters(p, kept), supporters(p, news));
            lemma_sum_known_add(weights, Seq::empty(), supporters(p, kept));
        }
        assert forall|q: Block| #[trigger]
            universe.contains(q) && !q.spec_is_member(on_chain) && depth(q) <= depth(
                on_chain,
            ) implies !score(q, msgs, weights).spec_lt(score(q, after, weights)) by {
            assert forall|i: int| 0 <= i < news.len() implies !q.spec_is_member(
                (#[trigger] news[i]).spec_estimate(),
            ) by {
                let t = news[i].spec_estimate();
                if q.spec_is_member(t) {
                    lemma_members_in_line(universe, q, on_chain, t);
                }
            }
            lemma_score_grows(q, kept, news, weights);
            lemma_score_grows(q, kept, olds, weights);
        }
        assert(shifted(universe, graph, other_graph, msgs, after, weights, on_chain));
        lemma_chain(on_chain);
        assert forall|c: Block| #[trigger] roots.contains(c) implies graph.contains(c) && depth(c)
            == 1 by {
            lemma_chain(c);
        }
        assert forall|c: Block| #[trigger] other_roots.contains(c) implies other_graph.contains(c)
            && roots.contains(c) by {
            lemma_chain(c);
            assert(graph.contains(c));
            lemma_genesis_holds(graph, c);
        }
        assert forall|c: Block| #[trigger] roots.contains(c) && c.spec_is_member(
            on_chain,
        ) implies other_roots.contains(c) by {
            let at_c = lemma_member_at(universe, c, on_chain);
            assert(chain(on_chain).contains(c));
            lemma_genesis_holds(other_graph, c);
        }
        lemma_descend_shifted(
            universe,
            graph,
            other_graph,
            roots,
            other_roots,
            msgs,
            after,
            weights,
            on_chain,
            r,
            graph.len(),
            other_graph.len(),
            1,
        );
    }
}

/// The fork choice is monotone where validators replace their messages,
/// in whatever order the messages stand. Let `msgs` hold the messages of
/// `kept` and `olds`, and `after` those of `kept` and `news`, as
/// `lemma_ghost_monotone_replacing` has them. Where the choice for `msgs`
/// is `b` or a block after `b`, so is the choice for `after`.
pub proof fn lemma_ghost_monotone_replaced(
    msgs: Seq<Message<Block>>,
    after: Seq<Message<Block>>,
    kept: Seq<Message<Block>>,
    olds: Seq<Message<Block>>,
    news: Seq<Message<Block>>,
    weights: Map<u32, WeightUnit>,
    b: Block,
)
    requires
        all_numbers(weights),
        blocks_collision_free(chains(tips(kept + olds + news))),
        msgs.to_multiset() == (kept + olds).to_multiset(),
        after.to_multiset() == (kept + news).to_multiset(),
        ghost_choice(msgs, weights) matches Some(r) && b.spec_is_member(r),
        olds.len() <= news.len(),
        forall|i: int| 0 <= i < olds.len() ==> (#[trigger] news[i]).spec_sender() == olds[i].spec_sender(),
        forall|i: int| 0 <= i < news.len() ==> b.spec_is_member((#[trigger] news[i]).spec_estimate()),
    ensures
        ghost_choice(after, weights) matches Some(r) && b.spec_is_member(r),
{
    let universe = chains(tips(kept + olds + news));
    assert(tips(kept + olds + news) =~= tips(kept + olds) + tips(news));
    assert(tips(kept + olds + news) =~= tips(kept) + tips(olds) + tips(news));
    assert(tips(kept + news) =~= tips(kept) + tips(news));
    lemma_chains_add(tips(kept + olds), tips(news));
    lemma_chains_add(tips(kept) + tips(olds), tips(news));
    lemma_chains_add(tips(kept), tips(olds));
    lemma_chains_add(tips(kept), tips(news));
    let front = chains(tips(kept + olds));
    let back = chains(tips(kept + news));
    assert forall|y: Block| front.contains(y) implies universe.contains(y) by {
        let k = choose|k: int| 0 <= k < front.len() && front[k] == y;
        assert((front + chains(tips(news)))[k] == y);
    }
    assert forall|y: Block| back.contains(y) implies universe.contains(y) by {
        let k = choose|k: int| 0 <= k < back.len() && back[k] == y;
        let head = chains(tips(kept));
        if k < head.len() {
            assert((head + chains(tips(olds)) + chains(tips(news)))[k] == y);
        } else {
            assert((head + chains(tips(olds)) + chains(tips(news)))[chains(tips(olds)).len() + k]
                == y);
        }
    }
    assert(blocks_collision_free(front));
    assert(blocks_collision_free(back));
    lemma_ghost_permutation(kept + olds, msgs, weights);
    lemma_ghost_monotone_replacing(kept, olds, news, weights, b);
    lemma_ghost_permutation(kept + news, after, weights);
}

} // verus!
