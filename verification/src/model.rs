//! The mathematical model of the graph: slots, free lists and the order of the edges.

use crate::error::DagError;
use vstd::prelude::*;

verus! {

/// An edge slot: source, target and payload of a live edge, `None` for a vacant slot.
pub type EdgeSlot = Option<(usize, usize, u64)>;

/// Whether slot `i` exists and is occupied.
pub open spec fn live<T>(slots: Seq<Option<T>>, i: usize) -> bool {
    i < slots.len() && slots[i as int] is Some
}

/// The indices `0, 1, .., n - 1`.
pub open spec fn indices(n: nat) -> Seq<usize> {
    Seq::new(n, |i: int| i as usize)
}

/// The predicate "slot `i` is occupied".
pub open spec fn occupied<T>(slots: Seq<Option<T>>) -> spec_fn(usize) -> bool {
    |i: usize| live(slots, i)
}

/// The occupied indices, ascending.
pub open spec fn live_ids<T>(slots: Seq<Option<T>>) -> Seq<usize> {
    indices(slots.len()).filter(occupied(slots))
}

/// The index that the next insertion takes: the head of the free list, or a new slot.
pub open spec fn next_id(free: Seq<usize>, len: nat) -> usize {
    if free.len() > 0 {
        free[0]
    } else {
        len as usize
    }
}

/// The slots after `v` went into slot `i`: an existing slot is filled, slot `len` is appended.
pub open spec fn occupy<T>(slots: Seq<Option<T>>, i: usize, v: T) -> Seq<Option<T>> {
    if i < slots.len() {
        slots.update(i as int, Some(v))
    } else {
        slots.push(Some(v))
    }
}

/// The free list after its head, if any, was taken.
pub open spec fn rest(free: Seq<usize>) -> Seq<usize> {
    if free.len() > 0 {
        free.subrange(1, free.len() as int)
    } else {
        free
    }
}

/// The source of the edge in slot `e`.
pub open spec fn source_at(edges: Seq<EdgeSlot>, e: usize) -> usize {
    (edges[e as int]->0).0
}

/// The target of the edge in slot `e`.
pub open spec fn target_at(edges: Seq<EdgeSlot>, e: usize) -> usize {
    (edges[e as int]->0).1
}

/// The payload of the edge in slot `e`.
pub open spec fn weight_at(edges: Seq<EdgeSlot>, e: usize) -> u64 {
    (edges[e as int]->0).2
}

/// The predicate "`e` is a live edge that leaves `a`".
pub open spec fn leaves(edges: Seq<EdgeSlot>, a: usize) -> spec_fn(usize) -> bool {
    |e: usize| live(edges, e) && source_at(edges, e) == a
}

/// The predicate "`e` is a live edge that enters `a`".
pub open spec fn enters(edges: Seq<EdgeSlot>, a: usize) -> spec_fn(usize) -> bool {
    |e: usize| live(edges, e) && target_at(edges, e) == a
}

/// The predicate "`e` is a live edge that enters `a` from another node".
pub open spec fn enters_from_other(edges: Seq<EdgeSlot>, a: usize) -> spec_fn(usize) -> bool {
    |e: usize| live(edges, e) && target_at(edges, e) == a && source_at(edges, e) != a
}

/// The predicate "`e` is not a live edge with an endpoint in `a`".
pub open spec fn avoids(edges: Seq<EdgeSlot>, a: usize) -> spec_fn(usize) -> bool {
    |e: usize| !(live(edges, e) && (source_at(edges, e) == a || target_at(edges, e) == a))
}

/// Whether `e` is a live edge from `a` to `b`.
pub open spec fn is_arc(edges: Seq<EdgeSlot>, e: usize, a: usize, b: usize) -> bool {
    live(edges, e) && source_at(edges, e) == a && target_at(edges, e) == b
}

/// The predicate "`e` is a live edge from `a` to `b`".
pub open spec fn joins(edges: Seq<EdgeSlot>, a: usize, b: usize) -> spec_fn(usize) -> bool {
    |e: usize| is_arc(edges, e, a, b)
}

/// The predicate "slot `i` is vacant".
pub open spec fn vacant<T>(slots: Seq<Option<T>>) -> spec_fn(usize) -> bool {
    |i: usize| !live(slots, i)
}

/// The predicate "`x` differs from `e`".
pub open spec fn other_than(e: usize) -> spec_fn(usize) -> bool {
    |x: usize| x != e
}

/// The source of edge `e`.
pub open spec fn source_in(edges: Seq<EdgeSlot>) -> spec_fn(usize) -> usize {
    |e: usize| source_at(edges, e)
}

/// The target of edge `e`.
pub open spec fn target_in(edges: Seq<EdgeSlot>) -> spec_fn(usize) -> usize {
    |e: usize| target_at(edges, e)
}

/// Source, target and payload of edge `e`.
pub open spec fn record_in(edges: Seq<EdgeSlot>) -> spec_fn(usize) -> (usize, usize, u64) {
    |e: usize| edges[e as int]->0
}

/// The edge slots after every edge with an endpoint in `a` was vacated.
pub open spec fn detach(edges: Seq<EdgeSlot>, a: usize) -> Seq<EdgeSlot> {
    Seq::new(edges.len(), |e: int| if avoids(edges, a)(e as usize) { edges[e] } else { None })
}

/// The payload of the node in slot `a`.
pub open spec fn payload_in(nodes: Seq<Option<u64>>) -> spec_fn(usize) -> u64 {
    |a: usize| nodes[a as int]->0
}

/// The payload of the edge in slot `e`.
pub open spec fn weight_in(edges: Seq<EdgeSlot>) -> spec_fn(usize) -> u64 {
    |e: usize| weight_at(edges, e)
}

/// The predicate "`e` is an edge that enters `b`".
pub open spec fn target_is(edges: Seq<EdgeSlot>, b: usize) -> spec_fn(usize) -> bool {
    |e: usize| target_at(edges, e) == b
}

/// The members of `s`, each at the place where it first occurs.
pub open spec fn distinct(s: Seq<usize>) -> Seq<usize>
    decreases s.len(),
{
    if s.len() == 0 {
        Seq::empty()
    } else {
        let d = distinct(s.drop_last());
        if d.contains(s.last()) {
            d
        } else {
            d.push(s.last())
        }
    }
}

/// Everything a graph holds.
///
/// Nodes and edges live in slots that keep their index for as long as they are alive. A
/// removal vacates the slot and puts its index at the head of a free list; an insertion takes
/// the head of the free list, or a fresh slot when the list is empty. `order` lists the live
/// edges, the most recently inserted first: it is the order in which the edges of one node are
/// walked.
pub struct Arena {
    pub nodes: Seq<Option<u64>>,
    pub edges: Seq<EdgeSlot>,
    pub order: Seq<usize>,
    pub free_nodes: Seq<usize>,
    pub free_edges: Seq<usize>,
}

impl Arena {
    pub open spec fn empty() -> Arena {
        Arena {
            nodes: Seq::empty(),
            edges: Seq::empty(),
            order: Seq::empty(),
            free_nodes: Seq::empty(),
            free_edges: Seq::empty(),
        }
    }

    pub open spec fn contains_node(self, a: usize) -> bool {
        live(self.nodes, a)
    }

    pub open spec fn contains_edge(self, e: usize) -> bool {
        live(self.edges, e)
    }

    pub open spec fn payload(self, a: usize) -> u64 {
        self.nodes[a as int]->0
    }

    pub open spec fn source(self, e: usize) -> usize {
        source_at(self.edges, e)
    }

    pub open spec fn target(self, e: usize) -> usize {
        target_at(self.edges, e)
    }

    pub open spec fn weight(self, e: usize) -> u64 {
        weight_at(self.edges, e)
    }

    /// The ids of the live nodes, ascending.
    pub open spec fn node_ids(self) -> Seq<usize> {
        live_ids(self.nodes)
    }

    /// The ids of the live edges, ascending.
    pub open spec fn edge_ids(self) -> Seq<usize> {
        live_ids(self.edges)
    }

    /// The id that the next new node gets.
    pub open spec fn next_node_id(self) -> usize {
        next_id(self.free_nodes, self.nodes.len())
    }

    /// The id that the next new edge gets.
    pub open spec fn next_edge_id(self) -> usize {
        next_id(self.free_edges, self.edges.len())
    }

    /// Whether there is room for one more node.
    pub open spec fn has_node_room(self) -> bool {
        self.free_nodes.len() > 0 || self.nodes.len() < u32::MAX
    }

    /// Whether there is room for one more edge.
    pub open spec fn has_edge_room(self) -> bool {
        self.free_edges.len() > 0 || self.edges.len() < u32::MAX
    }

    /// The graph after a node with payload `w` was inserted.
    pub open spec fn insert_node(self, w: u64) -> Arena {
        Arena {
            nodes: occupy(self.nodes, self.next_node_id(), w),
            free_nodes: rest(self.free_nodes),
            ..self
        }
    }

    /// The graph after an edge from `a` to `b` with payload `w` was inserted.
    pub open spec fn insert_edge(self, a: usize, b: usize, w: u64) -> Arena {
        Arena {
            edges: occupy(self.edges, self.next_edge_id(), (a, b, w)),
            free_edges: rest(self.free_edges),
            order: seq![self.next_edge_id()] + self.order,
            ..self
        }
    }

    /// The graph after edge `e` was removed; the same graph if `e` is not alive.
    pub open spec fn delete_edge(self, e: usize) -> Arena {
        if self.contains_edge(e) {
            Arena {
                edges: self.edges.update(e as int, None),
                free_edges: seq![e] + self.free_edges,
                order: self.order.filter(other_than(e)),
                ..self
            }
        } else {
            self
        }
    }

    /// The graph after node `a` was removed, and with it every edge that touched it: first
    /// the edges that leave `a`, then those that enter it, each group in the order in which
    /// it is walked. The same graph if `a` is not alive.
    pub open spec fn delete_node(self, a: usize) -> Arena {
        if self.contains_node(a) {
            Arena {
                nodes: self.nodes.update(a as int, None),
                free_nodes: seq![a] + self.free_nodes,
                edges: detach(self.edges, a),
                order: self.order.filter(avoids(self.edges, a)),
                free_edges: self.order.filter(enters_from_other(self.edges, a)).reverse()
                    + self.order.filter(leaves(self.edges, a)).reverse() + self.free_edges,
            }
        } else {
            self
        }
    }

    /// The edges that leave `a`, in the order in which they are walked.
    pub open spec fn out_edges(self, a: usize) -> Seq<usize> {
        self.order.filter(leaves(self.edges, a))
    }

    /// The edges that enter `a`, in the order in which they are walked.
    pub open spec fn in_edges(self, a: usize) -> Seq<usize> {
        self.order.filter(enters(self.edges, a))
    }

    /// The targets of the edges that leave `a`, one entry for each edge.
    pub open spec fn children(self, a: usize) -> Seq<usize> {
        self.out_edges(a).map_values(target_in(self.edges))
    }

    /// The sources of the edges that enter `a`, one entry for each edge.
    pub open spec fn parents(self, a: usize) -> Seq<usize> {
        self.in_edges(a).map_values(source_in(self.edges))
    }

    /// The neighbours of `a` in either direction: the children, then the parents other than
    /// `a` itself.
    pub open spec fn neighbours(self, a: usize) -> Seq<usize> {
        self.children(a) + self.order.filter(enters_from_other(self.edges, a)).map_values(
            source_in(self.edges),
        )
    }

    /// The edges from `a` to `b`, in the order in which they are walked.
    pub open spec fn edges_between(self, a: usize, b: usize) -> Seq<usize> {
        self.order.filter(joins(self.edges, a, b))
    }

    /// The edge from `a` to `b` that is found first.
    pub open spec fn first_edge(self, a: usize, b: usize) -> Option<usize> {
        if self.edges_between(a, b).len() > 0 {
            Some(self.edges_between(a, b)[0])
        } else {
            None
        }
    }

    /// The edge that `a` and `n` are paired by: the first one from `a` to `n`, or else the
    /// first one from `n` to `a`.
    pub open spec fn link(self, a: usize, n: usize) -> Option<usize> {
        if self.first_edge(a, n) is Some {
            self.first_edge(a, n)
        } else {
            self.first_edge(n, a)
        }
    }

    /// A neighbour `n` of `a`, with the payload of the edge that pairs them.
    pub open spec fn linked(self, a: usize) -> spec_fn(usize) -> (usize, u64) {
        |n: usize| (n, self.weight(self.link(a, n)->0))
    }

    /// A child `n` of `a`, with the payload of the first edge from `a` to it.
    pub open spec fn linked_child(self, a: usize) -> spec_fn(usize) -> (usize, u64) {
        |n: usize| (n, self.weight(self.first_edge(a, n)->0))
    }

    /// A parent `n` of `a`, with the payload of the first edge from it to `a`.
    pub open spec fn linked_parent(self, a: usize) -> spec_fn(usize) -> (usize, u64) {
        |n: usize| (n, self.weight(self.first_edge(n, a)->0))
    }

    /// Whether an edge from `a` to `b` would close a cycle: `b` already reaches `a`, as it
    /// does when the two are one node.
    pub open spec fn would_cycle(self, a: usize, b: usize) -> bool {
        self.reaches(b, a)
    }

    /// Whether the graph has to be searched before an edge from `a` to `b` is inserted:
    /// `a` has a parent, `b` has a child, and no edge runs from `a` to `b` yet.
    pub open spec fn needs_search(self, a: usize, b: usize) -> bool {
        self.parents(a).len() > 0 && self.children(b).len() > 0 && !self.has_arc(a, b)
    }

    /// What inserting an edge from `a` to `b` returns: its handle, unless an endpoint is
    /// missing or the edge would close a cycle.
    pub open spec fn add_edge_outcome(self, a: usize, b: usize) -> Result<usize, DagError> {
        if !(self.contains_node(a) && self.contains_node(b)) {
            Err(DagError::NodeNotFound)
        } else if self.would_cycle(a, b) {
            Err(DagError::WouldCreateCycle)
        } else {
            Ok(self.next_edge_id())
        }
    }

    /// Whether some live edge runs from `a` to `b`.
    pub open spec fn has_arc(self, a: usize, b: usize) -> bool {
        exists|e: usize| #[trigger] is_arc(self.edges, e, a, b)
    }

    /// The number of live nodes.
    pub open spec fn node_count(self) -> nat {
        self.node_ids().len()
    }

    /// The number of live edges.
    pub open spec fn edge_count(self) -> nat {
        self.edge_ids().len()
    }

    /// What always holds of the slots, the free lists and the order of the edges: indices
    /// fit in 32 bits and `u32::MAX` is never one; `order` holds each live edge once; the
    /// endpoints of a live edge are alive; each free list holds each vacant slot once.
    pub open spec fn well_formed(self) -> bool {
        &&& self.nodes.len() <= u32::MAX
        &&& self.edges.len() <= u32::MAX
        &&& self.order.no_duplicates()
        &&& forall|e: usize| #[trigger] self.order.contains(e) <==> self.contains_edge(e)
        &&& forall|e: usize| #[trigger]
            self.contains_edge(e) ==> self.contains_node(self.source(e)) && self.contains_node(
                self.target(e),
            )
        &&& self.free_nodes.no_duplicates()
        &&& forall|a: usize| #[trigger]
            self.free_nodes.contains(a) <==> a < self.nodes.len() && self.nodes[a as int] is None
        &&& self.free_edges.no_duplicates()
        &&& forall|e: usize| #[trigger]
            self.free_edges.contains(e) <==> e < self.edges.len() && self.edges[e as int] is None
    }
}

} // verus!
