use vstd::prelude::*;

verus! {

/// `adj[u]` lists `v` among the targets of `u`'s outgoing edges.
pub open spec fn has_edge(adj: Seq<Seq<usize>>, u: int, v: int) -> bool {
    &&& 0 <= u < adj.len()
    &&& exists|j: int| 0 <= j < adj[u].len() && #[trigger] adj[u][j] as int == v
}

/// The `i`-th step of `p` follows an edge.
pub open spec fn linked(adj: Seq<Seq<usize>>, p: Seq<int>, i: int) -> bool {
    has_edge(adj, p[i], p[i + 1])
}

/// `p` is a walk from `s` to `v` along edges; the walk `[s]` takes no step.
pub open spec fn walk(adj: Seq<Seq<usize>>, p: Seq<int>, s: int, v: int) -> bool {
    &&& p.len() > 0
    &&& p[0] == s
    &&& p.last() == v
    &&& forall|i: int| 0 <= i < p.len() - 1 ==> #[trigger] linked(adj, p, i)
}

/// `v` can be reached from `s` in at most `k` steps.
pub open spec fn within(adj: Seq<Seq<usize>>, s: int, v: int, k: nat) -> bool {
    exists|p: Seq<int>| #[trigger] walk(adj, p, s, v) && p.len() <= k + 1
}

/// `v` can be reached from `s` (`s` reaches itself).
pub open spec fn reachable(adj: Seq<Seq<usize>>, s: int, v: int) -> bool {
    exists|p: Seq<int>| #[trigger] walk(adj, p, s, v)
}

/// No edge closes a cycle: the target of an edge never reaches its source.
pub open spec fn acyclic(adj: Seq<Seq<usize>>) -> bool {
    forall|u: int, v: int| #[trigger] has_edge(adj, u, v) ==> !reachable(adj, v, u)
}

pub proof fn lemma_within_start(adj: Seq<Seq<usize>>, s: int)
    ensures
        within(adj, s, s, 0),
{
    assert(walk(adj, seq![s], s, s));
}

pub proof fn lemma_within_mono(adj: Seq<Seq<usize>>, s: int, v: int, k1: nat, k2: nat)
    requires
        k1 <= k2,
        within(adj, s, v, k1),
    ensures
        within(adj, s, v, k2),
{
    let p = choose|p: Seq<int>| #[trigger] walk(adj, p, s, v) && p.len() <= k1 + 1;
    assert(walk(adj, p, s, v) && p.len() <= k2 + 1);
}

/// A walk to `u` followed by the edge `u -> v` is a walk to `v`.
pub proof fn lemma_walk_push(adj: Seq<Seq<usize>>, p: Seq<int>, s: int, u: int, v: int)
    requires
        walk(adj, p, s, u),
        has_edge(adj, u, v),
    ensures
        walk(adj, p.push(v), s, v),
{
    let q = p.push(v);
    assert forall|i: int| 0 <= i < q.len() - 1 implies #[trigger] linked(adj, q, i) by {
        if i < p.len() - 1 {
            assert(linked(adj, p, i));
        }
    }
}

pub proof fn lemma_within_step(adj: Seq<Seq<usize>>, s: int, u: int, v: int, k: nat)
    requires
        within(adj, s, u, k),
        has_edge(adj, u, v),
    ensures
        within(adj, s, v, k + 1),
{
    let p = choose|p: Seq<int>| #[trigger] walk(adj, p, s, u) && p.len() <= k + 1;
    lemma_walk_push(adj, p, s, u, v);
    assert(walk(adj, p.push(v), s, v) && p.push(v).len() <= k + 2);
}

/// A node within `k + 1` steps but not within `k` is one edge past a node within `k`.
pub proof fn lemma_within_last_step(adj: Seq<Seq<usize>>, s: int, v: int, k: nat) -> (u: int)
    requires
        within(adj, s, v, k + 1),
        !within(adj, s, v, k),
    ensures
        within(adj, s, u, k),
        has_edge(adj, u, v),
{
    let p = choose|p: Seq<int>| #[trigger] walk(adj, p, s, v) && p.len() <= k + 2;
    if p.len() <= k + 1 {
        assert(within(adj, s, v, k));
    }
    let q = p.drop_last();
    let u = q.last();
    assert(linked(adj, p, p.len() - 2));
    assert forall|i: int| 0 <= i < q.len() - 1 implies #[trigger] linked(adj, q, i) by {
        assert(linked(adj, p, i));
    }
    assert(walk(adj, q, s, u));
    u
}

/// A set of nodes that holds `s` and every target of its members' edges holds every node on a
/// walk from `s`.
pub proof fn lemma_walk_closed(adj: Seq<Seq<usize>>, marked: Seq<bool>, p: Seq<int>, s: int, v: int)
    requires
        0 <= s < marked.len(),
        marked[s],
        adj.len() == marked.len(),
        forall|x: int, j: int|
            0 <= x < marked.len() && marked[x] && 0 <= j < adj[x].len() ==> #[trigger] adj[x][j]
                < marked.len() && marked[adj[x][j] as int],
        walk(adj, p, s, v),
    ensures
        0 <= v < marked.len() && marked[v],
    decreases p.len(),
{
    if p.len() > 1 {
        let q = p.drop_last();
        let u = q.last();
        assert(linked(adj, p, p.len() - 2));
        assert forall|i: int| 0 <= i < q.len() - 1 implies #[trigger] linked(adj, q, i) by {
            assert(linked(adj, p, i));
        }
        lemma_walk_closed(adj, marked, q, s, u);
        let j = choose|j: int| 0 <= j < adj[u].len() && #[trigger] adj[u][j] as int == v;
        assert(marked[adj[u][j] as int]);
    }
}

/// Dropping the last node of a walk that takes a step leaves a walk to a node with an edge to
/// the dropped one.
pub proof fn lemma_walk_drop_last(adj: Seq<Seq<usize>>, p: Seq<int>, s: int, v: int) -> (u: int)
    requires
        walk(adj, p, s, v),
        p.len() > 1,
    ensures
        walk(adj, p.drop_last(), s, u),
        has_edge(adj, u, v),
{
    let q = p.drop_last();
    assert(linked(adj, p, p.len() - 2));
    assert forall|i: int| 0 <= i < q.len() - 1 implies #[trigger] linked(adj, q, i) by {
        assert(linked(adj, p, i));
    }
    q.last()
}

pub proof fn lemma_reachable_trans(adj: Seq<Seq<usize>>, x: int, m: int, p: Seq<int>, y: int)
    requires
        reachable(adj, x, m),
        walk(adj, p, m, y),
    ensures
        reachable(adj, x, y),
    decreases p.len(),
{
    if p.len() > 1 {
        let u = lemma_walk_drop_last(adj, p, m, y);
        lemma_reachable_trans(adj, x, m, p.drop_last(), u);
        let w = choose|w: Seq<int>| #[trigger] walk(adj, w, x, u);
        lemma_walk_push(adj, w, x, u, y);
    }
}

/// A walk in the graph with the edge `a -> b` added either avoids that edge or passes from a
/// node that reaches `a` to one that `b` reaches.
pub proof fn lemma_walk_with_edge(
    adj: Seq<Seq<usize>>,
    a: int,
    b: usize,
    p: Seq<int>,
    x: int,
    y: int,
)
    requires
        0 <= a < adj.len(),
        walk(adj.update(a, seq![b] + adj[a]), p, x, y),
    ensures
        reachable(adj, x, y) || (reachable(adj, x, a) && reachable(adj, b as int, y)),
    decreases p.len(),
{
    let adj2 = adj.update(a, seq![b] + adj[a]);
    if p.len() == 1 {
        assert(walk(adj, seq![x], x, x));
    } else {
        let u = lemma_walk_drop_last(adj2, p, x, y);
        lemma_walk_with_edge(adj, a, b, p.drop_last(), x, u);
        let j = choose|j: int| 0 <= j < adj2[u].len() && #[trigger] adj2[u][j] as int == y;
        assert(walk(adj, seq![b as int], b as int, b as int));
        if u != a || j > 0 {
            if u == a {
                assert(adj[a][j - 1] as int == y);
            }
            assert(has_edge(adj, u, y));
            if reachable(adj, x, u) {
                let w = choose|w: Seq<int>| #[trigger] walk(adj, w, x, u);
                lemma_walk_push(adj, w, x, u, y);
            } else {
                let w = choose|w: Seq<int>| #[trigger] walk(adj, w, b as int, u);
                lemma_walk_push(adj, w, b as int, u, y);
            }
        }
    }
}

/// Adding an edge `a -> b` where `b` does not reach `a` keeps a graph acyclic.
pub proof fn lemma_add_edge_acyclic(adj: Seq<Seq<usize>>, a: int, b: usize)
    requires
        0 <= a < adj.len(),
        acyclic(adj),
        !reachable(adj, b as int, a),
    ensures
        acyclic(adj.update(a, seq![b] + adj[a])),
{
    let adj2 = adj.update(a, seq![b] + adj[a]);
    assert forall|u: int, v: int| #[trigger] has_edge(adj2, u, v) implies !reachable(adj2, v, u) by {
        if reachable(adj2, v, u) {
            let p = choose|p: Seq<int>| #[trigger] walk(adj2, p, v, u);
            lemma_walk_with_edge(adj, a, b, p, v, u);
            let j = choose|j: int| 0 <= j < adj2[u].len() && #[trigger] adj2[u][j] as int == v;
            if u != a || j > 0 {
                if u == a {
                    assert(adj[a][j - 1] as int == v);
                }
                assert(has_edge(adj, u, v));
                if !reachable(adj, v, u) {
                    // b reaches u, u -> v, and v reaches a
                    let w = choose|w: Seq<int>| #[trigger] walk(adj, w, b as int, u);
                    lemma_walk_push(adj, w, b as int, u, v);
                    let w2 = choose|w2: Seq<int>| #[trigger] walk(adj, w2, v, a);
                    lemma_reachable_trans(adj, b as int, v, w2, a);
                }
            }
        }
    }
}

} // verus!
