//! Maximal cliques of an undirected graph, by the algorithm of Bron and Kerbosch.

use crate::util::cancel::Cancel;
use crate::util::cancel::Never;
use vstd::prelude::*;

verus! {

/// `s` is strictly increasing.
pub open spec fn ascending(s: Seq<u32>) -> bool {
    forall|i: int, j: int| 0 <= i < j < s.len() ==> s[i] < s[j]
}

/// `v` is in the neighbour list of `u`.
pub open spec fn linked(vertices: Seq<u32>, neighbours: Seq<Vec<u32>>, u: u32, v: u32) -> bool {
    exists|i: int|
        0 <= i < vertices.len() && i < neighbours.len() && vertices[i] == u && (
        #[trigger] neighbours[i])@.contains(v)
}

/// The graph is given by the neighbour list of each vertex: the vertices
/// are in increasing order, every neighbour is a vertex, and the lists are
/// symmetric.
pub open spec fn is_graph(vertices: Seq<u32>, neighbours: Seq<Vec<u32>>) -> bool {
    &&& vertices.len() == neighbours.len()
    &&& ascending(vertices)
    &&& forall|i: int, k: int|
        0 <= i < neighbours.len() && 0 <= k < neighbours[i]@.len() ==> vertices.contains(
            #[trigger] neighbours[i]@[k],
        )
    &&& forall|u: u32, v: u32| #[trigger]
        linked(vertices, neighbours, u, v) ==> linked(vertices, neighbours, v, u)
}

/// The vertices that have a neighbour.
pub open spec fn connected(vertices: Seq<u32>, neighbours: Seq<Vec<u32>>, u: u32) -> bool {
    exists|v: u32| #[trigger] linked(vertices, neighbours, u, v)
}

/// Any two different vertices of `c` are neighbours.
pub open spec fn is_clique(vertices: Seq<u32>, neighbours: Seq<Vec<u32>>, c: Seq<u32>) -> bool {
    forall|u: u32, v: u32|
        #![trigger c.contains(u), c.contains(v)]
        c.contains(u) && c.contains(v) && u != v ==> linked(vertices, neighbours, u, v)
}

/// `u` is outside `c` and a neighbour of every vertex of `c`.
pub open spec fn joins(vertices: Seq<u32>, neighbours: Seq<Vec<u32>>, u: u32, c: Seq<u32>) -> bool {
    !c.contains(u) && forall|v: u32| #[trigger] c.contains(v) ==> linked(vertices, neighbours, u, v)
}

/// `c` is a maximal clique among the vertices that have a neighbour: it is a
/// clique of such vertices, and none of them joins it.
pub open spec fn is_maximal_clique(vertices: Seq<u32>, neighbours: Seq<Vec<u32>>, c: Seq<u32>) -> bool {
    &&& forall|u: u32| #[trigger] c.contains(u) ==> connected(vertices, neighbours, u)
    &&& is_clique(vertices, neighbours, c)
    &&& forall|u: u32| #[trigger]
        connected(vertices, neighbours, u) ==> !joins(vertices, neighbours, u, c)
}

/// Every element of `a` is an element of `b`.
pub open spec fn within(a: Seq<u32>, b: Seq<u32>) -> bool {
    forall|u: u32| #[trigger] a.contains(u) ==> b.contains(u)
}

/// Two strictly increasing sequences with the same elements are equal.
pub proof fn lemma_ascending_equal(a: Seq<u32>, b: Seq<u32>)
    requires
        ascending(a),
        ascending(b),
        within(a, b),
        within(b, a),
    ensures
        a == b,
    decreases a.len(),
{
    if a.len() == 0 {
        if b.len() > 0 {
            assert(b.contains(b[0]));
        }
        assert(a =~= b);
    } else if b.len() == 0 {
        assert(a.contains(a[0]));
    } else {
        let x = a.last();
        let y = b.last();
        assert(a.contains(x));
        assert(b.contains(y));
        assert(b.contains(x));
        assert(a.contains(y));
        let i = choose|i: int| 0 <= i < b.len() && b[i] == x;
        let j = choose|j: int| 0 <= j < a.len() && a[j] == y;
        assert(x == y);
        let a0 = a.drop_last();
        let b0 = b.drop_last();
        assert forall|u: u32| #[trigger] a0.contains(u) implies b0.contains(u) by {
            let k = choose|k: int| 0 <= k < a0.len() && a0[k] == u;
            assert(a[k] == u);
            assert(a.contains(u));
            let l = choose|l: int| 0 <= l < b.len() && b[l] == u;
            assert(l < b.len() - 1);
            assert(b0[l] == u);
        }
        assert forall|u: u32| #[trigger] b0.contains(u) implies a0.contains(u) by {
            let k = choose|k: int| 0 <= k < b0.len() && b0[k] == u;
            assert(b[k] == u);
            assert(b.contains(u));
            let l = choose|l: int| 0 <= l < a.len() && a[l] == u;
            assert(l < a.len() - 1);
            assert(a0[l] == u);
        }
        lemma_ascending_equal(a0, b0);
        assert(a =~= a0.push(x));
        assert(b =~= b0.push(y));
    }
}

/// Whether `u` is among `list`.
pub fn has(list: &Vec<u32>, u: u32) -> (r: bool)
    ensures
        r == list@.contains(u),
{
    let mut i: usize = 0;
    while i < list.len()
        invariant
            i <= list@.len(),
            forall|k: int| 0 <= k < i ==> list@[k] != u,
        decreases list@.len() - i,
    {
        if list[i] == u {
            return true;
        }
        i += 1;
    }
    false
}

/// The position of the vertex `u`.
fn position(vertices: &Vec<u32>, u: u32) -> (at: usize)
    requires
        vertices@.contains(u),
    ensures
        at < vertices@.len(),
        vertices@[at as int] == u,
{
    let mut i: usize = 0;
    while i < vertices.len()
        invariant
            i <= vertices@.len(),
            forall|k: int| 0 <= k < i ==> vertices@[k] != u,
        decreases vertices@.len() - i,
    {
        if vertices[i] == u {
            return i;
        }
        i += 1;
    }
    proof {
        let k = choose|k: int| 0 <= k < vertices@.len() && vertices@[k] == u;
        assert(false);
    }
    0
}

/// The elements of `list` from position `from` on that are among `keep`, in
/// their order.
fn restrict(list: &Vec<u32>, from: usize, keep: &Vec<u32>) -> (r: Vec<u32>)
    requires
        from <= list@.len(),
    ensures
        r@.len() <= list@.len() - from,
        forall|u: u32|
            r@.contains(u) <==> (exists|k: int| from <= k < list@.len() && list@[k] == u)
                && keep@.contains(u),
        ascending(list@) ==> ascending(r@),
        list@.no_duplicates() ==> r@.no_duplicates(),
{
    let mut r: Vec<u32> = Vec::new();
    let mut i: usize = from;
    while i < list.len()
        invariant
            from <= i <= list@.len(),
            r@.len() <= i - from,
            forall|a: int|
                0 <= a < r@.len() ==> exists|k: int|
                    from <= k < i && list@[k] == #[trigger] r@[a] && keep@.contains(r@[a]),
            forall|k: int|
                from <= k < i && keep@.contains(#[trigger] list@[k]) ==> r@.contains(list@[k]),
            ascending(list@) ==> ascending(r@),
            list@.no_duplicates() ==> r@.no_duplicates(),
        decreases list@.len() - i,
    {
        let ghost before = r@;
        if has(keep, list[i]) {
            r.push(list[i]);
            proof {
                assert(r@[before.len() as int] == list@[i as int]);
                assert forall|k: int|
                    from <= k < i + 1 && keep@.contains(#[trigger] list@[k]) implies r@.contains(
                    list@[k],
                ) by {
                    if k < i {
                        let a = choose|a: int| 0 <= a < before.len() && before[a] == list@[k];
                        assert(r@[a] == list@[k]);
                    }
                }
                assert forall|a: int, b: int| 0 <= a < b < r@.len() && ascending(
                    list@,
                ) implies r@[a] < r@[b] by {
                    if b == before.len() {
                        let k = choose|k: int|
                            from <= k < i && list@[k] == before[a] && keep@.contains(before[a]);
                    }
                }
                assert forall|a: int, b: int|
                    0 <= a < r@.len() && 0 <= b < r@.len() && a != b
                        && list@.no_duplicates() implies r@[a] != r@[b] by {
                    if a == before.len() {
                        let k = choose|k: int|
                            from <= k < i && list@[k] == before[b] && keep@.contains(before[b]);
                    }
                    if b == before.len() {
                        let k = choose|k: int|
                            from <= k < i && list@[k] == before[a] && keep@.contains(before[a]);
                    }
                }
            }
        }
        i += 1;
    }
    proof {
        assert forall|u: u32| r@.contains(u) implies (exists|k: int|
            from <= k < list@.len() && list@[k] == u) && keep@.contains(u) by {
            let a = choose|a: int| 0 <= a < r@.len() && r@[a] == u;
            let k = choose|k: int|
                from <= k < list@.len() && list@[k] == r@[a] && keep@.contains(r@[a]);
            assert(list@[k] == u);
        }
    }
    r
}

/// A copy of `list`.
fn copy(list: &Vec<u32>) -> (r: Vec<u32>)
    ensures
        r@ == list@,
{
    let mut r: Vec<u32> = Vec::new();
    let mut i: usize = 0;
    while i < list.len()
        invariant
            i <= list@.len(),
            r@ == list@.take(i as int),
        decreases list@.len() - i,
    {
        r.push(list[i]);
        assert(r@ =~= list@.take(i + 1));
        i += 1;
    }
    assert(list@.take(list@.len() as int) =~= list@);
    r
}

/// `c` holds all of `r`, and beyond that only elements of `p`.
pub open spec fn between(r: Seq<u32>, p: Seq<u32>, c: Seq<u32>) -> bool {
    &&& within(r, c)
    &&& forall|u: u32| #[trigger] c.contains(u) ==> r.contains(u) || p.contains(u)
}

/// `p` and `x` together hold exactly the vertices that could extend `r`.
spec fn candidates(
    vertices: Seq<u32>,
    neighbours: Seq<Vec<u32>>,
    r: Seq<u32>,
    p: Seq<u32>,
    x: Seq<u32>,
) -> bool {
    &&& forall|u: u32|
        #![trigger p.contains(u)]
        #![trigger x.contains(u)]
        p.contains(u) || x.contains(u) ==> connected(vertices, neighbours, u) && joins(
            vertices,
            neighbours,
            u,
            r,
        )
    &&& forall|u: u32|
        #![trigger joins(vertices, neighbours, u, r)]
        connected(vertices, neighbours, u) && joins(vertices, neighbours, u, r) ==> p.contains(u)
            || x.contains(u)
}

/// One of the cliques of `out` from position `from` on is `c`.
pub open spec fn holds_clique(out: Seq<Vec<u32>>, from: int, c: Seq<u32>) -> bool {
    exists|k: int| from <= k < out.len() && (#[trigger] out[k])@ == c
}

/// What holds of the sets of a search for cliques.
spec fn searching(
    vertices: Seq<u32>,
    neighbours: Seq<Vec<u32>>,
    r: Seq<u32>,
    p: Seq<u32>,
    x: Seq<u32>,
) -> bool {
    &&& is_graph(vertices, neighbours)
    &&& ascending(r)
    &&& ascending(p)
    &&& forall|i: int, j: int| 0 <= i < r.len() && 0 <= j < p.len() ==> r[i] < p[j]
    &&& forall|u: u32| #[trigger] p.contains(u) ==> !x.contains(u)
    &&& forall|u: u32| #[trigger] r.contains(u) ==> connected(vertices, neighbours, u)
    &&& is_clique(vertices, neighbours, r)
    &&& candidates(vertices, neighbours, r, p, x)
}

/// The neighbour list at the position of a vertex holds exactly what is
/// linked to the vertex.
proof fn lemma_neighbours_at(vertices: Seq<u32>, neighbours: Seq<Vec<u32>>, at: int)
    requires
        is_graph(vertices, neighbours),
        0 <= at < vertices.len(),
    ensures
        forall|u: u32|
            neighbours[at]@.contains(u) <==> #[trigger] linked(vertices, neighbours, vertices[at], u),
{
    assert forall|u: u32| #[trigger]
        linked(vertices, neighbours, vertices[at], u) implies neighbours[at]@.contains(u) by {
        let i = choose|i: int|
            0 <= i < vertices.len() && i < neighbours.len() && vertices[i] == vertices[at] && (
            #[trigger] neighbours[i])@.contains(u);
        if i < at {
            assert(vertices[i] < vertices[at]);
        }
        if at < i {
            assert(vertices[at] < vertices[i]);
        }
    }
}

/// The search from `r` extended by `p[k]` meets what a search asks for.
proof fn lemma_search_step(
    vertices: Seq<u32>,
    neighbours: Seq<Vec<u32>>,
    r: Seq<u32>,
    p: Seq<u32>,
    x: Seq<u32>,
    k: int,
    at: int,
    pnew: Seq<u32>,
    xnew: Seq<u32>,
)
    requires
        searching(vertices, neighbours, r, p, x),
        0 <= k < p.len(),
        0 <= at < vertices.len(),
        vertices[at] == p[k],
        ascending(pnew),
        forall|u: u32|
            pnew.contains(u) <==> (exists|j: int| k + 1 <= j < p.len() && p[j] == u)
                && neighbours[at]@.contains(u),
        forall|u: u32|
            xnew.contains(u) <==> (x.contains(u) || exists|j: int| 0 <= j < k && p[j] == u)
                && neighbours[at]@.contains(u),
    ensures
        searching(vertices, neighbours, r.push(p[k]), pnew, xnew),
{
    let v = p[k];
    let rnew = r.push(v);
    lemma_neighbours_at(vertices, neighbours, at);
    assert(p.contains(v));
    assert(joins(vertices, neighbours, v, r));
    assert forall|u: u32| rnew.contains(u) <==> r.contains(u) || u == v by {
        if rnew.contains(u) {
            let i = choose|i: int| 0 <= i < rnew.len() && rnew[i] == u;
            if i < r.len() {
                assert(r[i] == u);
            }
        }
        if r.contains(u) {
            let i = choose|i: int| 0 <= i < r.len() && r[i] == u;
            assert(rnew[i] == u);
        }
        assert(rnew[r.len() as int] == v);
    }
    assert(ascending(rnew)) by {
        assert forall|i: int, j: int| 0 <= i < j < rnew.len() implies rnew[i] < rnew[j] by {
            if j == r.len() {
                assert(r[i] < p[k]);
            }
        }
    }
    assert forall|i: int, j: int| 0 <= i < rnew.len() && 0 <= j < pnew.len() implies rnew[i]
        < pnew[j] by {
        assert(pnew.contains(pnew[j]));
        let l = choose|l: int| k + 1 <= l < p.len() && p[l] == pnew[j];
        if i < r.len() {
            assert(r[i] < p[l]);
        }
    }
    assert forall|u: u32| #[trigger] pnew.contains(u) implies !xnew.contains(u) by {
        let l = choose|l: int| k + 1 <= l < p.len() && p[l] == u;
        assert(p.contains(u));
        if xnew.contains(u) {
            if !x.contains(u) {
                let j = choose|j: int| 0 <= j < k && p[j] == u;
                assert(p[j] < p[l]);
            }
        }
    }
    assert forall|u: u32| #[trigger] rnew.contains(u) implies connected(vertices, neighbours, u) by {}
    assert(is_clique(vertices, neighbours, rnew)) by {
        assert forall|a: u32, b: u32|
            #![trigger rnew.contains(a), rnew.contains(b)]
            rnew.contains(a) && rnew.contains(b) && a != b implies linked(
            vertices,
            neighbours,
            a,
            b,
        ) by {
            if a == v {
                assert(r.contains(b));
            } else if b == v {
                assert(r.contains(a));
                assert(linked(vertices, neighbours, v, a));
            } else {
                assert(r.contains(a) && r.contains(b));
            }
        }
    }
    assert forall|u: u32|
        #![trigger pnew.contains(u)]
        #![trigger xnew.contains(u)]
        pnew.contains(u) || xnew.contains(u) implies connected(vertices, neighbours, u) && joins(
        vertices,
        neighbours,
        u,
        rnew,
    ) by {
        if pnew.contains(u) {
            let l = choose|l: int| k + 1 <= l < p.len() && p[l] == u;
            assert(p.contains(u));
            assert(p[k] < p[l]);
        } else {
            if x.contains(u) {
                assert(!p.contains(u));
            } else {
                let j = choose|j: int| 0 <= j < k && p[j] == u;
                assert(p.contains(u));
                assert(p[j] < p[k]);
            }
        }
        assert(joins(vertices, neighbours, u, r));
        assert(linked(vertices, neighbours, v, u));
        assert(linked(vertices, neighbours, u, v));
        assert forall|w: u32| #[trigger] rnew.contains(w) implies linked(
            vertices,
            neighbours,
            u,
            w,
        ) by {
            if w != v {
                assert(r.contains(w));
            }
        }
    }
    assert forall|u: u32|
        #![trigger joins(vertices, neighbours, u, rnew)]
        connected(vertices, neighbours, u) && joins(
            vertices,
            neighbours,
            u,
            rnew,
        ) implies pnew.contains(u) || xnew.contains(u) by {
        assert(rnew.contains(v));
        assert(linked(vertices, neighbours, u, v));
        assert(linked(vertices, neighbours, v, u));
        assert(joins(vertices, neighbours, u, r)) by {
            assert forall|w: u32| #[trigger] r.contains(w) implies linked(
                vertices,
                neighbours,
                u,
                w,
            ) by {
                assert(rnew.contains(w));
            }
        }
        assert(p.contains(u) || x.contains(u));
        if p.contains(u) {
            let l = choose|l: int| 0 <= l < p.len() && p[l] == u;
            assert(l != k);
        }
    }
}

/// What a search has added to `before`: `after` continues `before` by
/// exactly the maximal cliques that hold all of `r` and beyond that only
/// vertices of `p`, each in increasing order and none twice.
spec fn expanded(
    vertices: Seq<u32>,
    neighbours: Seq<Vec<u32>>,
    r: Seq<u32>,
    p: Seq<u32>,
    before: Seq<Vec<u32>>,
    after: Seq<Vec<u32>>,
) -> bool {
    &&& after.len() >= before.len()
    &&& after.take(before.len() as int) == before
    &&& forall|i: int|
        before.len() <= i < after.len() ==> {
            &&& ascending((#[trigger] after[i])@)
            &&& is_maximal_clique(vertices, neighbours, after[i]@)
            &&& between(r, p, after[i]@)
        }
    &&& forall|c: Seq<u32>|
        ascending(c) && #[trigger] is_maximal_clique(vertices, neighbours, c) && between(r, p, c)
            ==> holds_clique(after, before.len() as int, c)
    &&& forall|i: int, j: int|
        before.len() <= i < j < after.len() ==> (#[trigger] after[i])@ != (#[trigger] after[j])@
}

/// `c` holds one of the first `k` elements of `p`.
spec fn touches(c: Seq<u32>, p: Seq<u32>, k: int) -> bool {
    exists|j: int| 0 <= j < k && j < p.len() && c.contains(#[trigger] p[j])
}

/// What the search from `r` has found once the first `k` vertices of `p`
/// have been tried: from position `start` on, `out` holds exactly the
/// maximal cliques between `r` and `p` that hold one of those vertices.
spec fn found(
    vertices: Seq<u32>,
    neighbours: Seq<Vec<u32>>,
    r: Seq<u32>,
    p: Seq<u32>,
    out: Seq<Vec<u32>>,
    start: int,
    k: int,
) -> bool {
    &&& forall|i: int|
        start <= i < out.len() ==> {
            &&& ascending((#[trigger] out[i])@)
            &&& is_maximal_clique(vertices, neighbours, out[i]@)
            &&& between(r, p, out[i]@)
            &&& touches(out[i]@, p, k)
        }
    &&& forall|c: Seq<u32>|
        ascending(c) && #[trigger] is_maximal_clique(vertices, neighbours, c) && between(r, p, c)
            && touches(c, p, k) ==> holds_clique(out, start, c)
    &&& forall|i: int, j: int|
        start <= i < j < out.len() ==> (#[trigger] out[i])@ != (#[trigger] out[j])@
}

/// The elements of `r` with one more.
pub proof fn lemma_push_contains(r: Seq<u32>, v: u32)
    ensures
        forall|u: u32| #[trigger] r.push(v).contains(u) <==> r.contains(u) || u == v,
{
    let grown = r.push(v);
    assert forall|u: u32| #[trigger] grown.contains(u) <==> r.contains(u) || u == v by {
        if grown.contains(u) {
            let i = choose|i: int| 0 <= i < grown.len() && grown[i] == u;
            if i < r.len() {
                assert(r[i] == u);
            }
        }
        if r.contains(u) {
            let i = choose|i: int| 0 <= i < r.len() && r[i] == u;
            assert(grown[i] == u);
        }
        assert(grown[r.len() as int] == v);
    }
}

/// A clique between `r` with `p[k]` and the later neighbours of `p[k]` lies
/// between `r` and `p`, holds `p[k]`, and holds no earlier vertex of `p`.
proof fn lemma_found_inner(r: Seq<u32>, p: Seq<u32>, k: int, fewer: Seq<u32>, c: Seq<u32>)
    requires
        ascending(p),
        forall|i: int, j: int| 0 <= i < r.len() && 0 <= j < p.len() ==> r[i] < p[j],
        0 <= k < p.len(),
        forall|u: u32| #[trigger] fewer.contains(u) ==> exists|j: int| k + 1 <= j < p.len() && p[j] == u,
        between(r.push(p[k]), fewer, c),
    ensures
        between(r, p, c),
        c.contains(p[k]),
        touches(c, p, k + 1),
        !touches(c, p, k),
{
    let v = p[k];
    let grown = r.push(v);
    lemma_push_contains(r, v);
    assert(grown.contains(v));
    assert(c.contains(v));
    assert forall|u: u32| #[trigger] c.contains(u) implies r.contains(u) || p.contains(u) by {
        if !grown.contains(u) {
            assert(fewer.contains(u));
            let l = choose|l: int| k + 1 <= l < p.len() && p[l] == u;
        }
    }
    assert forall|u: u32| #[trigger] r.contains(u) implies c.contains(u) by {
        assert(grown.contains(u));
    }
    if touches(c, p, k) {
        let j = choose|j: int| 0 <= j < k && j < p.len() && c.contains(#[trigger] p[j]);
        let u = p[j];
        if grown.contains(u) {
            if r.contains(u) {
                let l = choose|l: int| 0 <= l < r.len() && r[l] == u;
                assert(r[l] < p[j]);
            } else {
                assert(p[j] < p[k]);
            }
        } else {
            assert(fewer.contains(u));
            let l = choose|l: int| k + 1 <= l < p.len() && p[l] == u;
            assert(p[j] < p[l]);
        }
    }
}

/// A maximal clique between `r` and `p` that holds `p[k]` and no earlier
/// vertex of `p` lies between `r` with `p[k]` and the later neighbours of `p[k]`.
proof fn lemma_found_outer(
    vertices: Seq<u32>,
    neighbours: Seq<Vec<u32>>,
    r: Seq<u32>,
    p: Seq<u32>,
    k: int,
    at: int,
    fewer: Seq<u32>,
    c: Seq<u32>,
)
    requires
        is_graph(vertices, neighbours),
        ascending(p),
        0 <= k < p.len(),
        0 <= at < vertices.len(),
        vertices[at] == p[k],
        forall|u: u32|
            (exists|j: int| k + 1 <= j < p.len() && p[j] == u) && neighbours[at]@.contains(u)
                ==> #[trigger] fewer.contains(u),
        is_clique(vertices, neighbours, c),
        between(r, p, c),
        touches(c, p, k + 1),
        !touches(c, p, k),
    ensures
        between(r.push(p[k]), fewer, c),
{
    let v = p[k];
    let grown = r.push(v);
    lemma_push_contains(r, v);
    lemma_neighbours_at(vertices, neighbours, at);
    let j = choose|j: int| 0 <= j < k + 1 && j < p.len() && c.contains(#[trigger] p[j]);
    if j < k {
        assert(touches(c, p, k));
    }
    assert(c.contains(v));
    assert forall|u: u32| #[trigger] c.contains(u) implies grown.contains(u) || fewer.contains(
        u,
    ) by {
        if !r.contains(u) && u != v {
            assert(p.contains(u));
            let l = choose|l: int| 0 <= l < p.len() && p[l] == u;
            if l < k {
                assert(c.contains(p[l]));
                assert(touches(c, p, k));
            }
            assert(linked(vertices, neighbours, v, u));
            assert(neighbours[at]@.contains(u));
        }
    }
}

/// What has been found once `p[k]` has been tried as well.
proof fn lemma_found_next(
    vertices: Seq<u32>,
    neighbours: Seq<Vec<u32>>,
    r: Seq<u32>,
    p: Seq<u32>,
    k: int,
    at: int,
    fewer: Seq<u32>,
    mid: Seq<Vec<u32>>,
    after: Seq<Vec<u32>>,
    start: int,
)
    requires
        is_graph(vertices, neighbours),
        ascending(p),
        forall|i: int, j: int| 0 <= i < r.len() && 0 <= j < p.len() ==> r[i] < p[j],
        0 <= k < p.len(),
        0 <= at < vertices.len(),
        vertices[at] == p[k],
        forall|u: u32|
            #[trigger] fewer.contains(u) <==> (exists|j: int| k + 1 <= j < p.len() && p[j] == u)
                && neighbours[at]@.contains(u),
        0 <= start <= mid.len(),
        found(vertices, neighbours, r, p, mid, start, k),
        expanded(vertices, neighbours, r.push(p[k]), fewer, mid, after),
    ensures
        found(vertices, neighbours, r, p, after, start, k + 1),
        after.take(start) == mid.take(start),
{
    let grown = r.push(p[k]);
    assert(after.take(start) =~= mid.take(start)) by {
        assert(after.take(mid.len() as int).take(start) =~= after.take(start));
    }
    assert forall|i: int| 0 <= i < mid.len() implies after[i] == mid[i] by {
        assert(after.take(mid.len() as int)[i] == after[i]);
    }
    assert forall|i: int| start <= i < after.len() implies {
        &&& ascending((#[trigger] after[i])@)
        &&& is_maximal_clique(vertices, neighbours, after[i]@)
        &&& between(r, p, after[i]@)
        &&& touches(after[i]@, p, k + 1)
    } by {
        if i < mid.len() {
            assert(touches(mid[i]@, p, k));
            let j = choose|j: int| 0 <= j < k && j < p.len() && mid[i]@.contains(#[trigger] p[j]);
            assert(after[i]@.contains(p[j]));
        } else {
            lemma_found_inner(r, p, k, fewer, after[i]@);
        }
    }
    assert forall|c: Seq<u32>|
        ascending(c) && #[trigger] is_maximal_clique(vertices, neighbours, c) && between(r, p, c)
            && touches(c, p, k + 1) implies holds_clique(after, start, c) by {
        if touches(c, p, k) {
            assert(holds_clique(mid, start, c));
            let l = choose|l: int| start <= l < mid.len() && (#[trigger] mid[l])@ == c;
            assert(after[l]@ == c);
        } else {
            lemma_found_outer(vertices, neighbours, r, p, k, at, fewer, c);
            assert(holds_clique(after, mid.len() as int, c));
            let l = choose|l: int| mid.len() <= l < after.len() && (#[trigger] after[l])@ == c;
        }
    }
    assert forall|i: int, j: int| start <= i < j < after.len() implies (#[trigger] after[i])@ != (
    #[trigger] after[j])@ by {
        if i < mid.len() && j >= mid.len() {
            lemma_found_inner(r, p, k, fewer, after[j]@);
            assert(touches(mid[i]@, p, k));
        }
    }
}

/// The elements of `list` followed by the first `k` elements of `p`.
proof fn lemma_tried(x: Seq<u32>, p: Seq<u32>, k: int)
    requires
        0 <= k <= p.len(),
    ensures
        forall|u: u32|
            #[trigger] (x + p.take(k)).contains(u) <==> x.contains(u) || exists|j: int|
                0 <= j < k && p[j] == u,
{
    let tried = x + p.take(k);
    assert forall|u: u32| #[trigger] tried.contains(u) <==> x.contains(u) || exists|j: int|
        0 <= j < k && p[j] == u by {
        if tried.contains(u) {
            let l = choose|l: int| 0 <= l < tried.len() && tried[l] == u;
            if l < x.len() {
                assert(x[l] == u);
            } else {
                assert(p[l - x.len()] == u);
            }
        }
        if x.contains(u) {
            let l = choose|l: int| 0 <= l < x.len() && x[l] == u;
            assert(tried[l] == u);
        }
        if exists|j: int| 0 <= j < k && p[j] == u {
            let j = choose|j: int| 0 <= j < k && p[j] == u;
            assert(tried[x.len() + j] == u);
        }
    }
}

/// Where every vertex of `p` has been tried, everything has been found.
proof fn lemma_found_all(
    vertices: Seq<u32>,
    neighbours: Seq<Vec<u32>>,
    r: Seq<u32>,
    p: Seq<u32>,
    x: Seq<u32>,
    before: Seq<Vec<u32>>,
    out: Seq<Vec<u32>>,
)
    requires
        searching(vertices, neighbours, r, p, x),
        p.len() > 0 || x.len() > 0,
        out.len() >= before.len(),
        out.take(before.len() as int) == before,
        found(vertices, neighbours, r, p, out, before.len() as int, p.len() as int),
    ensures
        expanded(vertices, neighbours, r, p, before, out),
{
    let start = before.len() as int;
    assert forall|c: Seq<u32>|
        ascending(c) && #[trigger] is_maximal_clique(vertices, neighbours, c) && between(
            r,
            p,
            c,
        ) implies holds_clique(out, start, c) by {
        if !touches(c, p, p.len() as int) {
            assert forall|u: u32| #[trigger] c.contains(u) implies r.contains(u) by {
                if p.contains(u) {
                    let l = choose|l: int| 0 <= l < p.len() && p[l] == u;
                    assert(c.contains(p[l]));
                }
            }
            lemma_ascending_equal(c, r);
            if p.len() > 0 {
                assert(p.contains(p[0]));
                assert(joins(vertices, neighbours, p[0], r));
            } else {
                assert(x.contains(x[0]));
                assert(joins(vertices, neighbours, x[0], r));
            }
        }
    }
}

/// Adds to `out` every maximal clique that holds all of `r` and beyond that
/// only vertices of `p`. The vertices of `x` are those that have been
/// tried already.
fn expand<C: Cancel>(
    r: &Vec<u32>,
    p: &Vec<u32>,
    x: &Vec<u32>,
    vertices: &Vec<u32>,
    neighbours: &Vec<Vec<u32>>,
    out: &mut Vec<Vec<u32>>,
    cancel: &C,
) -> (done: bool)
    requires
        searching(vertices@, neighbours@, r@, p@, x@),
    ensures
        done ==> expanded(vertices@, neighbours@, r@, p@, old(out)@, final(out)@),
        !done ==> cancel.can_be_raised(),
    decreases p@.len(),
{
    if cancel.is_raised() {
        return false;
    }
    let ghost start = out@.len() as int;
    if p.len() == 0 && x.len() == 0 {
        out.push(copy(r));
        proof {
            assert(out@.take(start) =~= old(out)@);
            assert forall|u: u32| #[trigger]
                connected(vertices@, neighbours@, u) implies !joins(
                vertices@,
                neighbours@,
                u,
                r@,
            ) by {
                if joins(vertices@, neighbours@, u, r@) {
                    assert(p@.contains(u) || x@.contains(u));
                }
            }
            assert forall|c: Seq<u32>|
                ascending(c) && #[trigger] is_maximal_clique(vertices@, neighbours@, c) && between(
                    r@,
                    p@,
                    c,
                ) implies holds_clique(out@, start, c) by {
                lemma_ascending_equal(c, r@);
                assert(out@[start]@ == c);
            }
        }
        return true;
    }
    let mut tried = copy(x);
    let mut k: usize = 0;
    proof {
        assert(tried@ =~= x@ + p@.take(0));
    }
    while k < p.len()
        invariant
            k <= p@.len(),
            searching(vertices@, neighbours@, r@, p@, x@),
            out@.len() >= start,
            start == old(out)@.len(),
            out@.take(start) == old(out)@,
            tried@ == x@ + p@.take(k as int),
            found(vertices@, neighbours@, r@, p@, out@, start, k as int),
        decreases p@.len() - k,
    {
        let v = p[k];
        proof {
            assert(p@.contains(v));
            assert(connected(vertices@, neighbours@, v));
            let w = choose|w: u32| #[trigger] linked(vertices@, neighbours@, v, w);
        }
        let at = position(vertices, v);
        let mut grown = copy(r);
        grown.push(v);
        let fewer = restrict(p, k + 1, &neighbours[at]);
        let known = restrict(&tried, 0, &neighbours[at]);
        let ghost mid = out@;
        proof {
            lemma_tried(x@, p@, k as int);
            assert forall|u: u32|
                known@.contains(u) <==> (x@.contains(u) || exists|j: int|
                    0 <= j < k && p@[j] == u) && neighbours@[at as int]@.contains(u) by {
                assert(tried@.contains(u) <==> exists|l: int|
                    0 <= l < tried@.len() && tried@[l] == u);
            }
            lemma_search_step(
                vertices@,
                neighbours@,
                r@,
                p@,
                x@,
                k as int,
                at as int,
                fewer@,
                known@,
            );
        }
        if !expand(&grown, &fewer, &known, vertices, neighbours, out, cancel) {
            return false;
        }
        tried.push(v);
        proof {
            assert(tried@ =~= x@ + p@.take(k + 1));
            lemma_found_next(
                vertices@,
                neighbours@,
                r@,
                p@,
                k as int,
                at as int,
                fewer@,
                mid,
                out@,
                start,
            );
            assert(out@.take(start) =~= mid.take(start));
        }
        k += 1;
    }
    proof {
        lemma_found_all(vertices@, neighbours@, r@, p@, x@, old(out)@, out@);
    }
    true
}

/// `u` is one of the first `i` vertices and has a neighbour.
spec fn picked(vertices: Seq<u32>, neighbours: Seq<Vec<u32>>, u: u32, i: int) -> bool {
    exists|k: int|
        0 <= k < i && k < vertices.len() && vertices[k] == u && (#[trigger] neighbours[k])@.len()
            > 0
}

/// `cliques` holds exactly the maximal cliques among the vertices that
/// have a neighbour, each in increasing order and none twice.
pub open spec fn are_maximal_cliques(
    vertices: Seq<u32>,
    neighbours: Seq<Vec<u32>>,
    cliques: Seq<Vec<u32>>,
) -> bool {
    &&& forall|i: int|
        0 <= i < cliques.len() ==> ascending((#[trigger] cliques[i])@) && is_maximal_clique(
            vertices,
            neighbours,
            cliques[i]@,
        )
    &&& forall|c: Seq<u32>|
        ascending(c) && #[trigger] is_maximal_clique(vertices, neighbours, c) ==> holds_clique(
            cliques,
            0,
            c,
        )
    &&& forall|i: int, j: int|
        0 <= i < j < cliques.len() ==> (#[trigger] cliques[i])@ != (#[trigger] cliques[j])@
}

/// The maximal cliques among the vertices that have a neighbour, each in
/// increasing order and none twice.
pub fn maximal_cliques(vertices: &Vec<u32>, neighbours: &Vec<Vec<u32>>) -> (cliques: Vec<Vec<u32>>)
    requires
        is_graph(vertices@, neighbours@),
    ensures
        are_maximal_cliques(vertices@, neighbours@, cliques@),
{
    match maximal_cliques_unless(vertices, neighbours, &Never) {
        Some(cliques) => cliques,
        None => Vec::new(),
    }
}

/// The maximal cliques among the vertices that have a neighbour, unless
/// `cancel` is raised meanwhile: the signal is looked at whenever the
/// search extends a clique, and the search gives up with `None` once it is
/// seen raised.
pub fn maximal_cliques_unless<C: Cancel>(
    vertices: &Vec<u32>,
    neighbours: &Vec<Vec<u32>>,
    cancel: &C,
) -> (r: Option<Vec<Vec<u32>>>)
    requires
        is_graph(vertices@, neighbours@),
    ensures
        r is None ==> cancel.can_be_raised(),
        r matches Some(cliques) ==> are_maximal_cliques(vertices@, neighbours@, cliques@),
{
    let mut p: Vec<u32> = Vec::new();
    let mut i: usize = 0;
    while i < vertices.len()
        invariant
            i <= vertices@.len(),
            is_graph(vertices@, neighbours@),
            forall|a: int|
                0 <= a < p@.len() ==> picked(vertices@, neighbours@, #[trigger] p@[a], i as int),
            forall|k: int|
                0 <= k < i && neighbours@[k]@.len() > 0 ==> p@.contains(#[trigger] vertices@[k]),
            ascending(p@),
        decreases vertices@.len() - i,
    {
        let ghost before = p@;
        if neighbours[i].len() > 0 {
            p.push(vertices[i]);
            proof {
                assert(p@[before.len() as int] == vertices@[i as int]);

                assert forall|k: int|
                    0 <= k < i + 1 && neighbours@[k]@.len() > 0 implies p@.contains(
                    #[trigger] vertices@[k],
                ) by {
                    if k < i {
                        let a = choose|a: int| 0 <= a < before.len() && before[a] == vertices@[k];
                        assert(p@[a] == vertices@[k]);
                    }
                }
                assert forall|a: int, b: int| 0 <= a < b < p@.len() implies p@[a] < p@[b] by {
                    if b == before.len() {
                        assert(picked(vertices@, neighbours@, before[a], i as int));
                        let l = choose|l: int|
                            0 <= l < i && l < vertices@.len() && vertices@[l] == before[a] && (
                            #[trigger] neighbours@[l])@.len() > 0;
                        assert(vertices@[l] < vertices@[i as int]);
                    }
                }
            }
        }
        proof {
            assert forall|a: int| 0 <= a < p@.len() implies picked(
                vertices@,
                neighbours@,
                #[trigger] p@[a],
                i + 1,
            ) by {
                if a < before.len() {
                    assert(picked(vertices@, neighbours@, before[a], i as int));
                    let l = choose|l: int|
                        0 <= l < i && l < vertices@.len() && vertices@[l] == before[a] && (
                        #[trigger] neighbours@[l])@.len() > 0;
                    assert(neighbours@[l]@.len() > 0);
                } else {
                    assert(neighbours@[i as int]@.len() > 0);
                }
            }
        }
        i += 1;
    }
    let r: Vec<u32> = Vec::new();
    let x: Vec<u32> = Vec::new();
    let mut cliques: Vec<Vec<u32>> = Vec::new();
    proof {
        let vs = vertices@;
        let ns = neighbours@;
        assert forall|u: u32| p@.contains(u) <==> connected(vs, ns, u) by {
            if p@.contains(u) {
                let a = choose|a: int| 0 <= a < p@.len() && p@[a] == u;
                assert(picked(vs, ns, p@[a], vs.len() as int));
                let l = choose|l: int|
                    0 <= l < vs.len() && l < vs.len() && vs[l] == p@[a] && (#[trigger] ns[l])@.len()
                        > 0;
                assert(ns[l]@.contains(ns[l]@[0]));
                assert(linked(vs, ns, u, ns[l]@[0]));
            }
            if connected(vs, ns, u) {
                let w = choose|w: u32| #[trigger] linked(vs, ns, u, w);
                let l = choose|l: int|
                    0 <= l < vs.len() && l < ns.len() && vs[l] == u && (#[trigger] ns[l])@.contains(
                        w,
                    );
                assert(p@.contains(vs[l]));
            }
        }
        assert(candidates(vs, ns, r@, p@, x@));
        assert(searching(vs, ns, r@, p@, x@));
    }
    if !expand(&r, &p, &x, vertices, neighbours, &mut cliques, cancel) {
        return None;
    }
    proof {
        assert forall|c: Seq<u32>|
            ascending(c) && #[trigger] is_maximal_clique(
                vertices@,
                neighbours@,
                c,
            ) implies holds_clique(cliques@, 0, c) by {
            assert forall|u: u32| #[trigger] c.contains(u) implies r@.contains(u) || p@.contains(
                u,
            ) by {
                assert(connected(vertices@, neighbours@, u));
            }
            assert(between(r@, p@, c));
        }
    }
    Some(cliques)
}

} // verus!
