use daggy::{Dag, NodeIndex, Walker, WouldCycle};
use vstd::prelude::*;

use crate::reach::{acyclic, reachable};

verus! {

/// The edges of a question graph, kept by `daggy`. Node `i` of the graph stands for question
/// `i`; the node weights carry nothing. `Dag` itself cannot be declared here (its index-type
/// bound is a trait outside this crate), so it stays behind this opaque struct, and
/// `progression_children` names what it holds.
#[verifier::external_body]
pub struct Progression {
    dag: Dag<(), (), usize>,
}

/// daggy's refusal of an edge that would close a cycle.
#[verifier::external_type_specification]
#[verifier::external_body]
#[verifier::reject_recursive_types(E)]
pub struct ExWouldCycle<E>(WouldCycle<E>);

/// For each node of the graph, by index, the targets of its outgoing edges in the order that a
/// walk over its children meets them.
pub uninterp spec fn progression_children(g: Progression) -> Seq<Seq<usize>>;

/// Relies on `daggy::Dag::new`: a new graph has no nodes and no edges.
#[verifier::external_body]
pub(crate) fn progression_new() -> (r: Progression)
    ensures
        progression_children(r) == Seq::<Seq<usize>>::empty(),
{
    Progression { dag: Dag::new() }
}

/// Relies on `daggy::Dag::add_node`: the node gets the next index (petgraph numbers nodes
/// `0..n`) and no edges; with `usize` indices there is no index limit to hit.
#[verifier::external_body]
pub(crate) fn progression_add_node(g: &mut Progression) -> (r: usize)
    ensures
        r == progression_children(*old(g)).len(),
        progression_children(*final(g)) == progression_children(*old(g)).push(
            Seq::<usize>::empty(),
        ),
{
    g.dag.add_node(()).index()
}

/// Relies on `daggy::Dag::add_edge`. On an acyclic graph it refuses the edge `a -> b` exactly
/// when `b` already reaches `a` (`a == b` included), and then changes nothing: where
/// `must_check_for_cycle` skips the search, `b` cannot reach `a` in an acyclic graph. Otherwise
/// petgraph's `add_edge` puts the new edge at the head of `a`'s outgoing list, so a walk over
/// `a`'s children meets `b` first. Both nodes must exist, else it panics.
#[verifier::external_body]
pub(crate) fn progression_add_edge(g: &mut Progression, a: usize, b: usize) -> (r: Result<
    (),
    WouldCycle<()>,
>)
    requires
        a < progression_children(*old(g)).len(),
        b < progression_children(*old(g)).len(),
        acyclic(progression_children(*old(g))),
    ensures
        r is Err <==> reachable(progression_children(*old(g)), b as int, a as int),
        r is Err ==> progression_children(*final(g)) == progression_children(*old(g)),
        r is Ok ==> progression_children(*final(g)) == progression_children(*old(g)).update(
            a as int,
            seq![b] + progression_children(*old(g))[a as int],
        ),
{
    g.dag.add_edge(NodeIndex::new(a), NodeIndex::new(b), ()).map(|_| ())
}

/// Relies on `daggy::Dag::children`, walked to the end: the targets of `i`'s outgoing edges,
/// most recently added first.
#[verifier::external_body]
pub(crate) fn progression_children_of(g: &Progression, i: usize) -> (r: Vec<usize>)
    requires
        i < progression_children(*g).len(),
    ensures
        r@ == progression_children(*g)[i as int],
{
    g.dag.children(NodeIndex::new(i)).iter(&g.dag).map(|(_, c)| c.index()).collect()
}

} // verus!
