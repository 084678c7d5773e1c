use std::collections::VecDeque;
use std::sync::Arc;
use vstd::prelude::*;

use crate::progression::{
    progression_add_edge, progression_add_node, progression_children, progression_children_of,
    progression_new, Progression,
};
use crate::radical_form_data::{LearningError, QuestionAnswerPrompt, UnderstandingLevel};
use crate::reach::{
    acyclic, has_edge, lemma_add_edge_acyclic, lemma_walk_closed,
    lemma_within_last_step, lemma_within_mono, lemma_within_start, lemma_within_step, linked,
    reachable, walk, within,
};

verus! {

/// Some node reachable from `s` has mastery state `level`.
pub open spec fn reaches_level(
    adj: Seq<Seq<usize>>,
    levels: Seq<UnderstandingLevel>,
    s: int,
    level: UnderstandingLevel,
) -> bool {
    exists|u: int| 0 <= u < levels.len() && levels[u] == level && #[trigger] reachable(adj, s, u)
}

/// No node with the same mastery state as `v` is closer to `s` than `v`.
pub open spec fn nearest(
    adj: Seq<Seq<usize>>,
    levels: Seq<UnderstandingLevel>,
    s: int,
    v: int,
) -> bool {
    forall|u: int, k: nat|
        0 <= u < levels.len() && levels[u] == levels[v] && #[trigger] within(adj, s, u, k)
            ==> within(adj, s, v, k)
}

/// The node a learner should see next when starting from `s`: the nearest reachable node that
/// is not known; failing that, the nearest reachable known node; failing that, none.
pub open spec fn shallow_choice(
    adj: Seq<Seq<usize>>,
    levels: Seq<UnderstandingLevel>,
    s: int,
    r: Option<usize>,
) -> bool {
    match r {
        Some(v) => {
            &&& v < levels.len()
            &&& reachable(adj, s, v as int)
            &&& nearest(adj, levels, s, v as int)
            &&& (levels[v as int] == UnderstandingLevel::DontKnow || (levels[v as int]
                == UnderstandingLevel::Know && !reaches_level(
                adj,
                levels,
                s,
                UnderstandingLevel::DontKnow,
            )))
        },
        None => {
            &&& !reaches_level(adj, levels, s, UnderstandingLevel::DontKnow)
            &&& !reaches_level(adj, levels, s, UnderstandingLevel::Know)
        },
    }
}

/// A node of the question graph; the prompt it holds may be shared with other holders.
pub struct QANode<P: QuestionAnswerPrompt + ?Sized> {
    pub qap: Arc<P>,
}

impl<P: QuestionAnswerPrompt + ?Sized> QANode<P> {
    pub fn new(qap: Arc<P>) -> (r: Self)
        ensures
            r.qap == qap,
    {
        QANode { qap }
    }
}

/// Questions ordered by progression: an edge `u -> v` means that `v` comes after `u`. The
/// graph holds the edges; node `i` of the graph is `nodes[i]`.
pub struct QuestionsDAG<P: QuestionAnswerPrompt + ?Sized> {
    dag: Progression,
    nodes: Vec<QANode<P>>,
}

impl<P: QuestionAnswerPrompt + ?Sized> QuestionsDAG<P> {
    /// The nodes, by index.
    pub closed spec fn nodes(&self) -> Seq<QANode<P>> {
        self.nodes@
    }

    /// For each node, its children in the order that the search visits them.
    pub closed spec fn children(&self) -> Seq<Seq<usize>> {
        progression_children(self.dag)
    }

    /// The mastery state of each node's prompt.
    pub open spec fn levels(&self) -> Seq<UnderstandingLevel> {
        self.nodes().map_values(|n: QANode<P>| n.qap.understanding())
    }

    pub open spec fn wf(&self) -> bool {
        &&& self.children().len() == self.nodes().len()
        &&& forall|u: int, j: int|
            0 <= u < self.children().len() && 0 <= j < self.children()[u].len()
                ==> #[trigger] self.children()[u][j] < self.nodes().len()
        &&& acyclic(self.children())
    }

    pub fn new() -> (r: Self)
        ensures
            r.wf(),
            r.nodes() == Seq::<QANode<P>>::empty(),
    {
        let r = QuestionsDAG { dag: progression_new(), nodes: Vec::new() };
        assert forall|u: int, v: int| #[trigger] has_edge(r.children(), u, v) implies !reachable(
            r.children(),
            v,
            u,
        ) by {}
        r
    }

    pub fn add_node(&mut self, node: QANode<P>) -> (r: usize)
        requires
            old(self).wf(),
        ensures
            final(self).wf(),
            r == old(self).nodes().len(),
            final(self).nodes() == old(self).nodes().push(node),
            final(self).children() == old(self).children().push(Seq::<usize>::empty()),
    {
        let r = progression_add_node(&mut self.dag);
        self.nodes.push(node);
        proof {
            let adj0 = old(self).children();
            let adj1 = self.children();
            assert forall|u: int, v: int| has_edge(adj1, u, v) == has_edge(adj0, u, v) by {
                if 0 <= u < adj0.len() {
                    assert(adj1[u] == adj0[u]);
                }
            }
            assert forall|p: Seq<int>, i: int| linked(adj1, p, i) == linked(adj0, p, i) by {}
            assert forall|u: int, v: int| #[trigger] has_edge(adj1, u, v) implies !reachable(
                adj1,
                v,
                u,
            ) by {
                if reachable(adj1, v, u) {
                    let p = choose|p: Seq<int>| #[trigger] walk(adj1, p, v, u);
                    assert(walk(adj0, p, v, u));
                }
            }
        }
        r
    }

    /// The breadth-first-nearest node reachable from `start` that is not known; failing that,
    /// the first known node that the search meets; `None` when every reachable node is
    /// recalled instantly.
    pub fn find_shallow_node(&self, start: usize) -> (r: Option<usize>)
        requires
            self.wf(),
            start < self.nodes().len(),
        ensures
            shallow_choice(self.children(), self.levels(), start as int, r),
    {
        let n = self.nodes.len();
        let mut queue: VecDeque<usize> = VecDeque::new();
        let mut visited: Vec<bool> = vec![false; n];
        let mut know_node: Option<usize> = None;
        let ghost adj = self.children();
        let ghost lv = self.levels();
        let ghost s = start as int;
        // The first `split` entries of the queue are what is left of level `depth`; the rest
        // belong to level `depth + 1`.
        let ghost mut depth: nat = 0;
        let ghost mut split: int = 1;
        let ghost mut know_depth: nat = 0;
        queue.push_back(start);
        proof {
            lemma_within_start(adj, s);
            assert(queue@[0] as int == s);
            assert forall|x: int| 0 <= x < n && #[trigger] within(adj, s, x, depth) implies visited@[x]
                || pending(queue@, split, x) by {
                // a walk of at most one node ends where it starts
                let p = choose|p: Seq<int>| #[trigger] walk(adj, p, s, x) && p.len() <= 1;
                assert(x == p[0]);
            }
        }
        loop
            invariant
                self.wf(),
                n == self.nodes().len(),
                adj == self.children(),
                lv == self.levels(),
                s == start,
                frontier_inv(adj, n as int, s, visited@, queue@, split, depth),
                forall|x: int|
                    0 <= x < n && #[trigger] visited@[x] ==> lv[x] != UnderstandingLevel::DontKnow,
                know_node is None ==> forall|x: int|
                    0 <= x < n && #[trigger] visited@[x] ==> lv[x] != UnderstandingLevel::Know,
                know_node matches Some(w) ==> {
                    &&& w < n
                    &&& lv[w as int] == UnderstandingLevel::Know
                    &&& within(adj, s, w as int, know_depth)
                    &&& forall|x: int, k: nat|
                        0 <= x < n && k < know_depth && lv[x] == UnderstandingLevel::Know
                            ==> !#[trigger] within(adj, s, x, k)
                },
            decreases unvisited(visited@), queue@.len(),
        {
            proof {
                if split == 0 {
                    lemma_next_level(adj, n as int, s, visited@, queue@, depth);
                    depth = depth + 1;
                    split = queue@.len() as int;
                }
            }
            let ghost q0 = queue@;
            let node_index = match queue.pop_front() {
                None => {
                    proof {
                        lemma_search_exhausted(adj, n as int, s, visited@, queue@, split, depth);
                        lemma_exhausted_choice(adj, lv, n as int, s, visited@, know_node, know_depth);
                    }
                    return know_node;
                },
                Some(i) => i,
            };
            if visited[node_index] {
                proof {
                    lemma_pop_visited(adj, n as int, s, visited@, q0, split, depth);
                    split = split - 1;
                }
                continue;
            }
            let ghost before = visited@;
            visited.set(node_index, true);
            proof {
                lemma_unvisited_decreases(before, node_index as int);
            }
            let level = self.nodes[node_index].qap.current_understanding();
            match level {
                UnderstandingLevel::DontKnow => {
                    proof {
                        lemma_closer_visited(adj, n as int, s, before, q0, split, depth);
                        lemma_unknown_choice(adj, lv, n as int, s, before, node_index, depth);
                    }
                    return Some(node_index);
                },
                UnderstandingLevel::Know => {
                    if know_node.is_none() {
                        proof {
                            lemma_closer_visited(adj, n as int, s, before, q0, split, depth);
                            know_depth = depth;
                        }
                        know_node = Some(node_index);
                    }
                },
                _ => {},
            }
            let children = progression_children_of(&self.dag, node_index);
            enqueue_all(&mut queue, &children);
            proof {
                lemma_pop_visit(adj, n as int, s, before, q0, split, depth);
                split = split - 1;
            }
        }
    }

    /// Adds the edge `a -> b`, which puts `b` after `a`. Refused with `CycleRejected`, leaving
    /// the graph as it was, exactly when `b` already reaches `a`. An added edge makes `b` the
    /// first child of `a` that the search visits.
    pub fn add_edge(&mut self, a: usize, b: usize) -> (r: Result<(), LearningError>)
        requires
            old(self).wf(),
            a < old(self).nodes().len(),
            b < old(self).nodes().len(),
        ensures
            final(self).wf(),
            final(self).nodes() == old(self).nodes(),
            r is Err <==> reachable(old(self).children(), b as int, a as int),
            r is Err ==> r == Err::<(), LearningError>(LearningError::CycleRejected)
                && final(self).children() == old(self).children(),
            r is Ok ==> final(self).children() == old(self).children().update(
                a as int,
                seq![b] + old(self).children()[a as int],
            ),
    {
        match progression_add_edge(&mut self.dag, a, b) {
            Ok(()) => {
                proof {
                    lemma_add_edge_acyclic(old(self).children(), a as int, b);
                }
                Ok(())
            },
            Err(_) => Err(LearningError::CycleRejected),
        }
    }

    pub fn index(&self, index: usize) -> (r: &QANode<P>)
        requires
            index < self.nodes().len(),
        ensures
            *r == self.nodes()[index as int],
    {
        &self.nodes[index]
    }

    pub fn node_count(&self) -> (r: usize)
        ensures
            r == self.nodes().len(),
    {
        self.nodes.len()
    }
}

/// The entries of the queue that are left of the current level hold `x`.
pub open spec fn pending(q: Seq<usize>, split: int, x: int) -> bool {
    exists|i: int| 0 <= i < split && #[trigger] q[i] as int == x
}

/// What holds between steps of the breadth-first search from `s`: `vis` marks the nodes taken
/// from the queue, the first `split` entries of `q` lie within `depth` steps and the rest
/// within `depth + 1`, every node closer than `depth` is marked, every node within `depth` is
/// marked or pending, and each child of a marked node is marked or queued.
pub open spec fn frontier_inv(
    adj: Seq<Seq<usize>>,
    n: int,
    s: int,
    vis: Seq<bool>,
    q: Seq<usize>,
    split: int,
    depth: nat,
) -> bool {
    &&& adj.len() == n
    &&& forall|x: int, j: int|
        0 <= x < n && 0 <= j < adj[x].len() ==> #[trigger] adj[x][j] < n
    &&& 0 <= s < n
    &&& vis.len() == n
    &&& forall|i: int| 0 <= i < q.len() ==> #[trigger] q[i] < n
    &&& 0 <= split <= q.len()
    &&& forall|x: int| 0 <= x < n && #[trigger] vis[x] ==> within(adj, s, x, depth)
    &&& forall|i: int| 0 <= i < split ==> within(adj, s, #[trigger] q[i] as int, depth)
    &&& forall|i: int|
        split <= i < q.len() ==> within(adj, s, #[trigger] q[i] as int, depth + 1)
    &&& forall|x: int|
        0 <= x < n && depth > 0 && #[trigger] within(adj, s, x, (depth - 1) as nat) ==> vis[x]
    &&& forall|x: int|
        0 <= x < n && #[trigger] within(adj, s, x, depth) ==> vis[x] || pending(q, split, x)
    &&& forall|x: int, j: int|
        0 <= x < n && vis[x] && 0 <= j < adj[x].len() ==> vis[#[trigger] adj[x][j] as int]
            || q.contains(adj[x][j])
}

/// The number of unmarked entries.
pub open spec fn unvisited(s: Seq<bool>) -> nat
    decreases s.len(),
{
    if s.len() == 0 {
        0
    } else {
        unvisited(s.drop_last()) + if s.last() {
            0nat
        } else {
            1nat
        }
    }
}

proof fn lemma_unvisited_decreases(s: Seq<bool>, i: int)
    requires
        0 <= i < s.len(),
        !s[i],
    ensures
        unvisited(s.update(i, true)) < unvisited(s),
    decreases s.len(),
{
    let t = s.update(i, true);
    if i == s.len() - 1 {
        assert(t.drop_last() =~= s.drop_last());
    } else {
        assert(t.drop_last() =~= s.drop_last().update(i, true));
        lemma_unvisited_decreases(s.drop_last(), i);
    }
}

fn enqueue_all(queue: &mut VecDeque<usize>, items: &Vec<usize>)
    ensures
        final(queue)@ == old(queue)@ + items@,
{
    let mut j: usize = 0;
    while j < items.len()
        invariant
            j <= items@.len(),
            queue@ == old(queue)@ + items@.subrange(0, j as int),
        decreases items@.len() - j,
    {
        queue.push_back(items[j]);
        j = j + 1;
        assert(items@.subrange(0, j as int) =~= items@.subrange(0, j - 1 as int).push(items@[j - 1]));
    }
    assert(items@.subrange(0, j as int) =~= items@);
}

/// Once the current level is used up, the queue holds exactly the next level.
proof fn lemma_next_level(
    adj: Seq<Seq<usize>>,
    n: int,
    s: int,
    vis: Seq<bool>,
    q: Seq<usize>,
    depth: nat,
)
    requires
        frontier_inv(adj, n, s, vis, q, 0, depth),
    ensures
        frontier_inv(adj, n, s, vis, q, q.len() as int, depth + 1),
{
    let d1 = (depth + 1) as nat;
    assert forall|x: int| 0 <= x < n && #[trigger] vis[x] implies within(adj, s, x, d1) by {
        lemma_within_mono(adj, s, x, depth, d1);
    }
    assert forall|i: int| 0 <= i < q.len() implies within(adj, s, #[trigger] q[i] as int, d1) by {}
    assert forall|x: int| 0 <= x < n && #[trigger] within(adj, s, x, (d1 - 1) as nat) implies vis[x] by {
        assert((d1 - 1) as nat == depth);
        if !vis[x] {
            assert(!pending(q, 0, x));
        }
    }
    assert forall|x: int| 0 <= x < n && #[trigger] within(adj, s, x, d1) implies vis[x] || pending(
        q,
        q.len() as int,
        x,
    ) by {
        if within(adj, s, x, depth) {
            assert(!pending(q, 0, x));
        } else {
            let u = lemma_within_last_step(adj, s, x, depth);
            assert(!pending(q, 0, u));
            assert(0 <= u < n);
            let j = choose|j: int| 0 <= j < adj[u].len() && #[trigger] adj[u][j] as int == x;
            if !vis[x] {
                assert(q.contains(adj[u][j]));
                let i = choose|i: int| 0 <= i < q.len() && q[i] == adj[u][j];
                assert(pending(q, q.len() as int, x));
            }
        }
    }
}

/// An exhausted search has marked every node that `s` reaches.
proof fn lemma_search_exhausted(
    adj: Seq<Seq<usize>>,
    n: int,
    s: int,
    vis: Seq<bool>,
    q: Seq<usize>,
    split: int,
    depth: nat,
)
    requires
        frontier_inv(adj, n, s, vis, q, split, depth),
        q.len() == 0,
    ensures
        forall|x: int, p: Seq<int>| #[trigger] walk(adj, p, s, x) ==> 0 <= x < n && vis[x],
{
    lemma_within_start(adj, s);
    lemma_within_mono(adj, s, s, 0, depth);
    assert(!pending(q, split, s));
    assert forall|x: int, j: int|
        0 <= x < vis.len() && vis[x] && 0 <= j < adj[x].len() implies #[trigger] adj[x][j]
        < vis.len() && vis[adj[x][j] as int] by {
        assert(!q.contains(adj[x][j]));
    }
    assert forall|x: int, p: Seq<int>| #[trigger] walk(adj, p, s, x) implies 0 <= x < n && vis[x] by {
        lemma_walk_closed(adj, vis, p, s, x);
    }
}

/// Every node closer to `s` than the current level has been taken from the queue.
proof fn lemma_closer_visited(
    adj: Seq<Seq<usize>>,
    n: int,
    s: int,
    vis: Seq<bool>,
    q: Seq<usize>,
    split: int,
    depth: nat,
)
    requires
        frontier_inv(adj, n, s, vis, q, split, depth),
    ensures
        forall|x: int, k: nat| 0 <= x < n && k < depth && #[trigger] within(adj, s, x, k) ==> vis[x],
{
    assert forall|x: int, k: nat| 0 <= x < n && k < depth && #[trigger] within(adj, s, x, k) implies vis[x] by {
        lemma_within_mono(adj, s, x, k, (depth - 1) as nat);
    }
}

/// Taking an already marked node from the queue keeps the search's invariant.
proof fn lemma_pop_visited(
    adj: Seq<Seq<usize>>,
    n: int,
    s: int,
    vis: Seq<bool>,
    q: Seq<usize>,
    split: int,
    depth: nat,
)
    requires
        frontier_inv(adj, n, s, vis, q, split, depth),
        split > 0,
        vis[q[0] as int],
    ensures
        frontier_inv(adj, n, s, vis, q.subrange(1, q.len() as int), split - 1, depth),
{
    let r = q.subrange(1, q.len() as int);
    assert forall|i: int| 0 <= i < r.len() implies #[trigger] r[i] < n && r[i] == q[i + 1] by {}
    assert forall|i: int| 0 <= i < split - 1 implies within(adj, s, #[trigger] r[i] as int, depth) by {
        assert(r[i] == q[i + 1]);
    }
    assert forall|i: int| split - 1 <= i < r.len() implies within(adj, s, #[trigger] r[i] as int, depth + 1) by {
        assert(r[i] == q[i + 1]);
    }
    assert forall|x: int| 0 <= x < n && #[trigger] within(adj, s, x, depth) implies vis[x] || pending(r, split - 1, x) by {
        if !vis[x] {
            let i = choose|i: int| 0 <= i < split && #[trigger] q[i] as int == x;
            assert(r[i - 1] == q[i]);
        }
    }
    assert forall|x: int, j: int| 0 <= x < n && vis[x] && 0 <= j < adj[x].len() implies vis[#[trigger] adj[x][j] as int]
        || r.contains(adj[x][j]) by {
        if !vis[adj[x][j] as int] {
            let i = choose|i: int| 0 <= i < q.len() && q[i] == adj[x][j];
            assert(r[i - 1] == q[i]);
        }
    }
}

/// Taking an unmarked node `y` from the queue, marking it and queueing its children keeps the
/// search's invariant.
proof fn lemma_pop_visit(
    adj: Seq<Seq<usize>>,
    n: int,
    s: int,
    vis: Seq<bool>,
    q: Seq<usize>,
    split: int,
    depth: nat,
)
    requires
        frontier_inv(adj, n, s, vis, q, split, depth),
        split > 0,
        !vis[q[0] as int],
    ensures
        frontier_inv(
            adj,
            n,
            s,
            vis.update(q[0] as int, true),
            q.subrange(1, q.len() as int) + adj[q[0] as int],
            split - 1,
            depth,
        ),
{
    let y = q[0] as int;
    let v2 = vis.update(y, true);
    let r = q.subrange(1, q.len() as int);
    let c = adj[y];
    let q2 = r + c;
    assert(within(adj, s, y, depth));
    assert forall|i: int| 0 <= i < q2.len() implies #[trigger] q2[i] < n by {
        if i < r.len() {
            assert(q2[i] == q[i + 1]);
        } else {
            assert(q2[i] == c[i - r.len()]);
            assert(adj[y][i - r.len()] < n);
        }
    }
    assert forall|x: int| 0 <= x < n && #[trigger] v2[x] implies within(adj, s, x, depth) by {}
    assert forall|i: int| 0 <= i < split - 1 implies within(adj, s, #[trigger] q2[i] as int, depth) by {
        assert(q2[i] == q[i + 1]);
    }
    assert forall|i: int| split - 1 <= i < q2.len() implies within(adj, s, #[trigger] q2[i] as int, depth + 1) by {
        if i < r.len() {
            assert(q2[i] == q[i + 1]);
        } else {
            let j = i - r.len();
            assert(q2[i] == adj[y][j]);
            assert(has_edge(adj, y, adj[y][j] as int));
            lemma_within_step(adj, s, y, adj[y][j] as int, depth);
        }
    }
    assert forall|x: int| 0 <= x < n && depth > 0 && #[trigger] within(adj, s, x, (depth - 1) as nat) implies v2[x] by {}
    assert forall|x: int| 0 <= x < n && #[trigger] within(adj, s, x, depth) implies v2[x] || pending(q2, split - 1, x) by {
        if !v2[x] {
            let i = choose|i: int| 0 <= i < split && #[trigger] q[i] as int == x;
            assert(q2[i - 1] == q[i]);
        }
    }
    assert forall|x: int, j: int| 0 <= x < n && v2[x] && 0 <= j < adj[x].len() implies v2[#[trigger] adj[x][j] as int]
        || q2.contains(adj[x][j]) by {
        if x == y {
            assert(q2[r.len() + j] == adj[x][j]);
        } else if !v2[adj[x][j] as int] {
            let i = choose|i: int| 0 <= i < q.len() && q[i] == adj[x][j];
            assert(q2[i - 1] == q[i]);
        }
    }
}

/// A node that is not known, met at level `depth` while every closer node was known or
/// recalled, is the search's answer.
proof fn lemma_unknown_choice(
    adj: Seq<Seq<usize>>,
    lv: Seq<UnderstandingLevel>,
    n: int,
    s: int,
    vis: Seq<bool>,
    y: usize,
    depth: nat,
)
    requires
        lv.len() == n,
        vis.len() == n,
        y < n,
        lv[y as int] == UnderstandingLevel::DontKnow,
        within(adj, s, y as int, depth),
        forall|x: int, k: nat| 0 <= x < n && k < depth && #[trigger] within(adj, s, x, k) ==> vis[x],
        forall|x: int| 0 <= x < n && #[trigger] vis[x] ==> lv[x] != UnderstandingLevel::DontKnow,
    ensures
        shallow_choice(adj, lv, s, Some(y)),
{
    let p = choose|p: Seq<int>| #[trigger] walk(adj, p, s, y as int) && p.len() <= depth + 1;
    assert(reachable(adj, s, y as int));
    assert forall|u: int, k: nat| 0 <= u < lv.len() && lv[u] == lv[y as int] && #[trigger] within(adj, s, u, k) implies within(adj, s, y as int, k) by {
        if k >= depth {
            lemma_within_mono(adj, s, y as int, depth, k);
        } else {
            assert(vis[u]);
        }
    }
}

/// When the queue runs dry, the remembered known node, if any, is the search's answer.
proof fn lemma_exhausted_choice(
    adj: Seq<Seq<usize>>,
    lv: Seq<UnderstandingLevel>,
    n: int,
    s: int,
    vis: Seq<bool>,
    know: Option<usize>,
    know_depth: nat,
)
    requires
        lv.len() == n,
        vis.len() == n,
        forall|x: int, p: Seq<int>| #[trigger] walk(adj, p, s, x) ==> 0 <= x < n && vis[x],
        forall|x: int| 0 <= x < n && #[trigger] vis[x] ==> lv[x] != UnderstandingLevel::DontKnow,
        know is None ==> forall|x: int| 0 <= x < n && #[trigger] vis[x] ==> lv[x] != UnderstandingLevel::Know,
        know matches Some(w) ==> {
            &&& w < n
            &&& lv[w as int] == UnderstandingLevel::Know
            &&& within(adj, s, w as int, know_depth)
            &&& forall|x: int, k: nat|
                0 <= x < n && k < know_depth && lv[x] == UnderstandingLevel::Know
                    ==> !#[trigger] within(adj, s, x, k)
        },
    ensures
        shallow_choice(adj, lv, s, know),
{
    assert forall|u: int| 0 <= u < lv.len() && lv[u] == UnderstandingLevel::DontKnow implies !#[trigger] reachable(adj, s, u) by {
        if reachable(adj, s, u) {
            let p = choose|p: Seq<int>| #[trigger] walk(adj, p, s, u);
            assert(vis[u]);
        }
    }
    match know {
        None => {
            assert forall|u: int| 0 <= u < lv.len() && lv[u] == UnderstandingLevel::Know implies !#[trigger] reachable(adj, s, u) by {
                if reachable(adj, s, u) {
                    let p = choose|p: Seq<int>| #[trigger] walk(adj, p, s, u);
                    assert(vis[u]);
                }
            }
        },
        Some(w) => {
            let p = choose|p: Seq<int>| #[trigger] walk(adj, p, s, w as int) && p.len() <= know_depth + 1;
            assert(reachable(adj, s, w as int));
            assert forall|u: int, k: nat| 0 <= u < lv.len() && lv[u] == lv[w as int] && #[trigger] within(adj, s, u, k) implies within(adj, s, w as int, k) by {
                if k >= know_depth {
                    lemma_within_mono(adj, s, w as int, know_depth, k);
                }
            }
        },
    }
}

} // verus!
