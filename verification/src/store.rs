//! The arena that owns the node and edge slots, and what is taken on trust about it.
//!
//! The arena is `petgraph`'s `StableGraph`, with `u64` payloads and `u32` indices. Verus cannot
//! look inside it, so this module names what it holds and states, for each of its methods that
//! the engine calls, what the method does to that content.

use crate::model::{live, live_ids, record_in, weight_at, Arena, EdgeSlot};
use petgraph::stable_graph::{EdgeIndex, NodeIndex, StableGraph};
use petgraph::visit::EdgeRef;
use petgraph::{Directed, Direction};
use vstd::prelude::*;

verus! {

#[verifier::external_type_specification]
#[verifier::external_body]
#[verifier::reject_recursive_types(N)]
#[verifier::reject_recursive_types(E)]
#[verifier::reject_recursive_types(Ty)]
#[verifier::reject_recursive_types(Ix)]
pub struct ExStableGraph<N, E, Ty, Ix>(StableGraph<N, E, Ty, Ix>);

#[verifier::external_type_specification]
#[verifier::external_body]
pub struct ExDirected(Directed);

#[verifier::external_type_specification]
pub struct ExDirection(Direction);

/// A directed graph with `u64` payloads on nodes and edges.
pub type DiGraph = StableGraph<u64, u64, Directed, u32>;

/// The node slots of a graph, by index: the payload of a live node, `None` for a vacant slot.
pub uninterp spec fn node_slots(g: StableGraph<u64, u64, Directed, u32>) -> Seq<Option<u64>>;

/// The edge slots of a graph, by index: source, target and payload of a live edge, `None` for
/// a vacant slot.
pub uninterp spec fn edge_slots(g: StableGraph<u64, u64, Directed, u32>) -> Seq<
    Option<(usize, usize, u64)>,
>;

/// The live edges of a graph, the most recently inserted first.
pub uninterp spec fn edge_order(g: StableGraph<u64, u64, Directed, u32>) -> Seq<usize>;

/// The vacant node slots of a graph, the most recently vacated first.
pub uninterp spec fn free_nodes(g: StableGraph<u64, u64, Directed, u32>) -> Seq<usize>;

/// The vacant edge slots of a graph, the most recently vacated first.
pub uninterp spec fn free_edges(g: StableGraph<u64, u64, Directed, u32>) -> Seq<usize>;

/// Everything a graph holds, as one value.
pub open spec fn arena(g: DiGraph) -> Arena {
    Arena {
        nodes: node_slots(g),
        edges: edge_slots(g),
        order: edge_order(g),
        free_nodes: free_nodes(g),
        free_edges: free_edges(g),
    }
}

/// `StableGraph::new`: the new graph has no slots, and its free lists are empty.
#[verifier::external_body]
pub(crate) fn graph_new() -> (g: DiGraph)
    ensures
        node_slots(g) == Seq::<Option<u64>>::empty(),
        edge_slots(g) == Seq::<EdgeSlot>::empty(),
        edge_order(g) == Seq::<usize>::empty(),
        free_nodes(g) == Seq::<usize>::empty(),
        free_edges(g) == Seq::<usize>::empty(),
{
    StableGraph::new()
}

/// `StableGraph::add_node`: the node goes into the slot at the head of the free list, or into
/// a new slot when the list is empty; the method panics when a new slot would get the index
/// `u32::MAX`. Returns the slot's index.
#[verifier::external_body]
pub(crate) fn graph_add_node(g: &mut DiGraph, w: u64) -> (a: usize)
    requires
        arena(*old(g)).has_node_room(),
    ensures
        a == arena(*old(g)).next_node_id(),
        arena(*final(g)) == arena(*old(g)).insert_node(w),
{
    g.add_node(w).index()
}

/// `StableGraph::add_edge`: the edge goes into the slot at the head of the free list, or into
/// a new slot when the list is empty, and to the front of the edges of both its endpoints.
/// The method panics when an endpoint is not alive, and when a new slot would get the index
/// `u32::MAX`. `NodeIndex::new` keeps an index up to `u32::MAX` as it is. Returns the slot's
/// index.
#[verifier::external_body]
pub(crate) fn graph_add_edge(g: &mut DiGraph, a: usize, b: usize, w: u64) -> (e: usize)
    requires
        live(node_slots(*old(g)), a),
        live(node_slots(*old(g)), b),
        a <= u32::MAX,
        b <= u32::MAX,
        arena(*old(g)).has_edge_room(),
    ensures
        e == arena(*old(g)).next_edge_id(),
        arena(*final(g)) == arena(*old(g)).insert_edge(a, b, w),
{
    g.add_edge(NodeIndex::new(a), NodeIndex::new(b), w).index()
}

/// `StableGraph::remove_node`: the payload of a live node, whose slot becomes the head of the
/// free list, after each edge that touched it was removed as by `remove_edge`: those that
/// leave it first. `None` for an index that is not alive, and nothing changes.
#[verifier::external_body]
pub(crate) fn graph_remove_node(g: &mut DiGraph, a: usize) -> (r: Option<u64>)
    requires
        a <= u32::MAX,
    ensures
        r == (if live(node_slots(*old(g)), a) { node_slots(*old(g))[a as int] } else { None }),
        arena(*final(g)) == arena(*old(g)).delete_node(a),
{
    g.remove_node(NodeIndex::new(a))
}

/// `StableGraph::remove_edge`: the payload of a live edge, whose slot becomes the head of the
/// free list; the other edges keep their order. `None` for an index that is not alive, and
/// nothing changes.
#[verifier::external_body]
pub(crate) fn graph_remove_edge(g: &mut DiGraph, e: usize) -> (r: Option<u64>)
    requires
        e <= u32::MAX,
    ensures
        r == (if live(edge_slots(*old(g)), e) { Some(weight_at(edge_slots(*old(g)), e)) } else { None }),
        arena(*final(g)) == arena(*old(g)).delete_edge(e),
{
    g.remove_edge(EdgeIndex::new(e))
}

/// `StableGraph::node_weight`: the payload of a live node, `None` for any other index.
#[verifier::external_body]
pub(crate) fn graph_node_weight(g: &DiGraph, a: usize) -> (r: Option<u64>)
    requires
        a <= u32::MAX,
    ensures
        r == (if live(node_slots(*g), a) { node_slots(*g)[a as int] } else { None }),
{
    g.node_weight(NodeIndex::new(a)).copied()
}

/// `StableGraph::edge_weight`: the payload of a live edge, `None` for any other index.
#[verifier::external_body]
pub(crate) fn graph_edge_weight(g: &DiGraph, e: usize) -> (r: Option<u64>)
    requires
        e <= u32::MAX,
    ensures
        r == (if live(edge_slots(*g), e) { Some(weight_at(edge_slots(*g), e)) } else { None }),
{
    g.edge_weight(EdgeIndex::new(e)).copied()
}

/// `StableGraph::find_edge`: the first edge from `a` to `b` among the edges that leave `a`,
/// the most recently inserted first.
#[verifier::external_body]
pub(crate) fn graph_find_edge(g: &DiGraph, a: usize, b: usize) -> (r: Option<usize>)
    requires
        a <= u32::MAX,
        b <= u32::MAX,
    ensures
        r == arena(*g).first_edge(a, b),
{
    g.find_edge(NodeIndex::new(a), NodeIndex::new(b)).map(|e| e.index())
}

/// `StableGraph::node_indices`: the indices of the live nodes, ascending.
#[verifier::external_body]
pub(crate) fn graph_node_indices(g: &DiGraph) -> (r: Vec<usize>)
    ensures
        r@ == live_ids(node_slots(*g)),
{
    g.node_indices().map(|a| a.index()).collect()
}

/// `StableGraph::edge_indices`: the indices of the live edges, ascending.
#[verifier::external_body]
pub(crate) fn graph_edge_indices(g: &DiGraph) -> (r: Vec<usize>)
    ensures
        r@ == live_ids(edge_slots(*g)),
{
    g.edge_indices().map(|e| e.index()).collect()
}

/// `StableGraph::neighbors_directed`: for each edge that leaves `a` (or, for `Incoming`,
/// that enters it), the node at its other end, the most recently inserted edge first.
#[verifier::external_body]
pub(crate) fn graph_neighbors_directed(g: &DiGraph, a: usize, dir: Direction) -> (r: Vec<usize>)
    requires
        a <= u32::MAX,
    ensures
        r@ == (match dir {
            Direction::Outgoing => arena(*g).children(a),
            Direction::Incoming => arena(*g).parents(a),
        }),
{
    g.neighbors_directed(NodeIndex::new(a), dir).map(|n| n.index()).collect()
}

/// `StableGraph::neighbors_undirected`: the targets of the edges that leave `a`, then the
/// sources of the edges that enter it from another node.
#[verifier::external_body]
pub(crate) fn graph_neighbors_undirected(g: &DiGraph, a: usize) -> (r: Vec<usize>)
    requires
        a <= u32::MAX,
    ensures
        r@ == arena(*g).neighbours(a),
{
    g.neighbors_undirected(NodeIndex::new(a)).map(|n| n.index()).collect()
}

/// `StableGraph::edges_directed`: source, target and payload of each edge that leaves `a`
/// (or, for `Incoming`, that enters it), the most recently inserted edge first.
#[verifier::external_body]
pub(crate) fn graph_edges_directed(g: &DiGraph, a: usize, dir: Direction) -> (r: Vec<
    (usize, usize, u64),
>)
    requires
        a <= u32::MAX,
    ensures
        r@ == (match dir {
            Direction::Outgoing => arena(*g).out_edges(a),
            Direction::Incoming => arena(*g).in_edges(a),
        }).map_values(record_in(edge_slots(*g))),
{
    g.edges_directed(NodeIndex::new(a), dir).map(
        |e| (e.source().index(), e.target().index(), *e.weight()),
    ).collect()
}

/// `StableGraph::node_count`: the number of live nodes.
#[verifier::external_body]
pub(crate) fn graph_node_count(g: &DiGraph) -> (r: usize)
    ensures
        r == live_ids(node_slots(*g)).len(),
{
    g.node_count()
}

/// `StableGraph::edge_count`: the number of live edges.
#[verifier::external_body]
pub(crate) fn graph_edge_count(g: &DiGraph) -> (r: usize)
    ensures
        r == live_ids(edge_slots(*g)).len(),
{
    g.edge_count()
}

} // verus!
