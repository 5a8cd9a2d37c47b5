//! The graph searches, and what is taken on trust about each.
//!
//! The searches are `petgraph`'s. Each is stated over the model of the graph that it
//! walks.

use crate::model::{distinct, live};
use crate::store::{arena, edge_order, edge_slots, node_slots, DiGraph};
use fixedbitset::FixedBitSet;
use petgraph::algo::{Cycle, DfsSpace};
use petgraph::stable_graph::NodeIndex;
use petgraph::visit::Bfs;
use vstd::prelude::*;

verus! {

#[verifier::external_type_specification]
#[verifier::external_body]
#[verifier::reject_recursive_types(N)]
#[verifier::reject_recursive_types(VM)]
pub struct ExDfsSpace<N, VM>(DfsSpace<N, VM>);

#[verifier::external_type_specification]
#[verifier::external_body]
#[verifier::reject_recursive_types(Ix)]
pub struct ExNodeIndex<Ix>(NodeIndex<Ix>);

#[verifier::external_type_specification]
#[verifier::external_body]
pub struct ExFixedBitSet(FixedBitSet);

#[verifier::external_type_specification]
#[verifier::external_body]
#[verifier::reject_recursive_types(N)]
pub struct ExCycle<N>(Cycle<N>);

#[verifier::external_type_specification]
#[verifier::external_body]
#[verifier::reject_recursive_types(N)]
#[verifier::reject_recursive_types(VM)]
pub struct ExBfs<N, VM>(Bfs<N, VM>);

/// A breadth-first walk in progress.
pub type Walker = Bfs<NodeIndex<u32>, FixedBitSet>;

/// The working memory of a depth-first search, kept between searches.
pub type Scratch = DfsSpace<NodeIndex<u32>, FixedBitSet>;

/// `DfsSpace::default`: working memory for a search, empty.
#[verifier::external_body]
pub(crate) fn scratch_new() -> Scratch {
    DfsSpace::default()
}

/// `algo::has_path_connecting`: whether a walk along the edges leads from `from` to `to`; true
/// when the two are the same node. The search marks `from` in a bit set of one bit for each
/// index up to the last live node, and panics beyond it: `from` has to be alive.
#[verifier::external_body]
pub(crate) fn has_path_connecting(g: &DiGraph, from: usize, to: usize, space: &mut Scratch) -> (r:
    bool)
    requires
        live(node_slots(*g), from),
        from <= u32::MAX,
        to <= u32::MAX,
    ensures
        r == arena(*g).reaches(from, to),
{
    petgraph::algo::has_path_connecting(g, NodeIndex::new(from), NodeIndex::new(to), Some(space))
}

/// `algo::is_cyclic_directed`: whether some walk of at least one edge returns to its start.
#[verifier::external_body]
pub(crate) fn is_cyclic_directed(g: &DiGraph) -> (r: bool)
    ensures
        r == !arena(*g).acyclic(),
{
    petgraph::algo::is_cyclic_directed(g)
}

/// The order in which `algo::toposort` lists the nodes of an acyclic graph with these node
/// slots, edge slots and edge order.
pub uninterp spec fn toposort_order(
    nodes: Seq<Option<u64>>,
    edges: Seq<Option<(usize, usize, u64)>>,
    order: Seq<usize>,
) -> Seq<usize>;

/// `algo::toposort`: for a graph without cycles, every live node once, each before the
/// nodes that its edges lead to; an error for a graph with a cycle, a self-loop included.
#[verifier::external_body]
pub(crate) fn toposort(g: &DiGraph) -> (r: Result<Vec<usize>, Cycle<NodeIndex<u32>>>)
    ensures
        r is Ok <==> arena(*g).acyclic(),
        r is Ok ==> r->Ok_0@ == toposort_order(node_slots(*g), edge_slots(*g), edge_order(*g)),
        r is Ok ==> arena(*g).is_topological(r->Ok_0@),
{
    petgraph::algo::toposort(g, None).map(|v| v.into_iter().map(|a| a.index()).collect())
}

/// The nodes that a breadth-first walk has found and not left yet, the next to leave first.
pub uninterp spec fn bfs_queue(b: Bfs<NodeIndex<u32>, FixedBitSet>) -> Seq<usize>;

/// The nodes that a breadth-first walk has found.
pub uninterp spec fn bfs_seen(b: Bfs<NodeIndex<u32>, FixedBitSet>) -> Set<usize>;

/// The number of indices that a breadth-first walk has room to mark.
pub uninterp spec fn bfs_room(b: Bfs<NodeIndex<u32>, FixedBitSet>) -> nat;

/// The predicate "`c` is not in `seen`".
pub open spec fn unseen(seen: Set<usize>) -> spec_fn(usize) -> bool {
    |c: usize| !seen.contains(c)
}

/// `Bfs::new`: a walk that has found `start` alone, with room to mark every index up to
/// the last live node. It marks `start`, and panics if there is no room for it: `start`
/// has to be alive.
#[verifier::external_body]
pub(crate) fn bfs_new(g: &DiGraph, start: usize) -> (b: Walker)
    requires
        live(node_slots(*g), start),
        start <= u32::MAX,
    ensures
        bfs_queue(b) == seq![start],
        bfs_seen(b) == set![start],
        forall|a: usize| live(node_slots(*g), a) ==> a < bfs_room(b),
{
    Bfs::new(g, NodeIndex::new(start))
}

/// `Bfs::next`: the walk leaves the node at the front of its queue and returns it, after
/// it has found those children of that node that it had not found before, each once and in
/// the order of the edges; `None` when the queue is empty. It marks each child, and panics
/// if there is no room for one.
#[verifier::external_body]
pub(crate) fn bfs_next(b: &mut Walker, g: &DiGraph) -> (r: Option<usize>)
    requires
        bfs_queue(*old(b)).len() > 0 ==> forall|i: int|
            0 <= i < arena(*g).children(bfs_queue(*old(b))[0]).len() ==> (#[trigger] arena(
                *g,
            ).children(bfs_queue(*old(b))[0])[i]) < bfs_room(*old(b)),
    ensures
        r == (if bfs_queue(*old(b)).len() > 0 {
            Some(bfs_queue(*old(b))[0])
        } else {
            None
        }),
        bfs_queue(*final(b)) == (if r is Some {
            bfs_queue(*old(b)).subrange(1, bfs_queue(*old(b)).len() as int) + distinct(
                arena(*g).children(r->0),
            ).filter(unseen(bfs_seen(*old(b))))
        } else {
            bfs_queue(*old(b))
        }),
        bfs_seen(*final(b)) == (if r is Some {
            bfs_seen(*old(b)).union(arena(*g).children(r->0).to_set())
        } else {
            bfs_seen(*old(b))
        }),
        bfs_room(*final(b)) == bfs_room(*old(b)),
{
    b.next(g).map(|a| a.index())
}

/// `algo::connected_components`, on the graph as `Graph::from` packs it into consecutive
/// indices: the number of groups of live nodes that edges, taken in either direction, hold
/// together.
#[verifier::external_body]
pub(crate) fn connected_components(g: &DiGraph) -> (r: usize)
    ensures
        r == arena(*g).component_count(),
{
    petgraph::algo::connected_components(&petgraph::graph::Graph::from(g.clone()))
}

} // verus!
