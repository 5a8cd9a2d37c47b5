//! The graph itself: nodes and edges behind stable handles, never with a directed cycle.

use crate::error::DagError;
use crate::model::{distinct, joins, leaves, payload_in, record_in, target_is, weight_in, Arena};
use crate::search::{has_path_connecting, scratch_new, Scratch};
use crate::seqs::{lemma_distinct, lemma_filter_twice, lemma_push_members};
use crate::store::{
    arena, graph_add_edge, graph_add_node, graph_edge_count, graph_edge_indices,
    graph_edge_weight, graph_edges_directed, graph_find_edge, graph_neighbors_directed,
    graph_neighbors_undirected, graph_new, graph_node_count, graph_node_indices,
    graph_node_weight, graph_remove_edge, graph_remove_node, DiGraph,
};
use petgraph::Direction;
use std::collections::HashSet;
use vstd::prelude::*;

verus! {

broadcast use vstd::std_specs::hash::group_hash_axioms;

/// A directed acyclic graph whose nodes and edges carry a `u64` payload each.
///
/// Nodes and edges are named by handles that stay valid until the node or edge is removed;
/// the handle of a removed one is given out again by a later insertion.
pub struct PyDAG {
    pub(crate) graph: DiGraph,
    pub(crate) cycle_state: Scratch,
}

impl View for PyDAG {
    type V = Arena;

    closed spec fn view(&self) -> Arena {
        arena(self.graph)
    }
}

/// The members of `v`, each at the place where it first occurs.
pub fn distinct_ids(v: &Vec<usize>) -> (r: Vec<usize>)
    ensures
        r@ == distinct(v@),
{
    let mut out: Vec<usize> = Vec::new();
    let mut used_indexes: HashSet<usize> = HashSet::new();
    let mut i: usize = 0;
    while i < v.len()
        invariant
            i <= v.len(),
            out@ == distinct(v@.take(i as int)),
            forall|x: usize| used_indexes@.contains(x) <==> out@.contains(x),
        decreases v.len() - i,
    {
        let next = v[i];
        proof {
            assert(v@.take(i + 1).drop_last() =~= v@.take(i as int));
            lemma_push_members(out@, next);
        }
        if !used_indexes.contains(&next) {
            out.push(next);
            used_indexes.insert(next);
        }
        i += 1;
    }
    assert(v@.take(v.len() as int) =~= v@);
    out
}

/// Whether the graph has to be searched before an edge from `a` to `b` is inserted: not when
/// `a` has no parent, when `b` has no child, or when an edge already runs from `a` to `b`.
pub fn must_check_for_cycle(dag: &PyDAG, a: usize, b: usize) -> (r: bool)
    requires
        dag.wf(),
    ensures
        r == dag@.needs_search(a, b),
{
    if a > u32::MAX as usize {
        proof {
            dag@.lemma_dead_node_isolated(a);
        }
        return false;
    }
    if b > u32::MAX as usize {
        proof {
            dag@.lemma_dead_node_isolated(b);
        }
        return false;
    }
    proof {
        dag@.lemma_first_edge(a, b);
    }
    let parents_a = graph_neighbors_directed(&dag.graph, a, Direction::Incoming);
    if parents_a.len() == 0 {
        return false;
    }
    let children_b = graph_neighbors_directed(&dag.graph, b, Direction::Outgoing);
    if children_b.len() == 0 {
        return false;
    }
    graph_find_edge(&dag.graph, a, b).is_none()
}

impl PyDAG {
    /// What holds of every graph: its slots and lists are well formed and no walk along its
    /// edges returns to its start.
    pub open spec fn wf(&self) -> bool {
        self@.well_formed() && self@.acyclic()
    }

    /// The arena behind the graph.
    pub(crate) fn store(&self) -> (g: &DiGraph)
        ensures
            arena(*g) == self@,
    {
        &self.graph
    }

    /// Puts another arena behind the graph.
    pub(crate) fn replace_store(&mut self, graph: DiGraph)
        requires
            arena(graph).well_formed(),
            arena(graph).acyclic(),
        ensures
            final(self)@ == arena(graph),
            final(self).wf(),
    {
        self.graph = graph;
    }

    /// Creates a graph without nodes.
    pub fn new() -> (dag: PyDAG)
        ensures
            dag@ == Arena::empty(),
            dag.wf(),
    {
        proof {
            Arena::lemma_empty_well_formed();
        }
        PyDAG { graph: graph_new(), cycle_state: scratch_new() }
    }

    /// The number of nodes.
    pub fn len(&self) -> (r: usize)
        ensures
            r == self@.node_count(),
    {
        graph_node_count(&self.graph)
    }

    /// The number of edges.
    pub fn edge_count(&self) -> (r: usize)
        ensures
            r == self@.edge_count(),
    {
        graph_edge_count(&self.graph)
    }

    /// Whether `node` is a live node.
    pub fn contains_node(&self, node: usize) -> (r: bool)
        requires
            self.wf(),
        ensures
            r == self@.contains_node(node),
    {
        node <= u32::MAX as usize && graph_node_weight(&self.graph, node).is_some()
    }

    /// The payloads of the edges, by ascending handle.
    pub fn edges(&self) -> (r: Vec<u64>)
        requires
            self.wf(),
        ensures
            r@ == self@.edge_ids().map_values(weight_in(self@.edges)),
    {
        let raw_edges = graph_edge_indices(&self.graph);
        let mut out: Vec<u64> = Vec::new();
        let mut i: usize = 0;
        proof {
            self@.lemma_counts();
        }
        while i < raw_edges.len()
            invariant
                i <= raw_edges.len(),
                self.wf(),
                raw_edges@ == self@.edge_ids(),
                forall|e: usize| #[trigger] self@.edge_ids().contains(e) <==> self@.contains_edge(e),
                out@ == raw_edges@.take(i as int).map_values(weight_in(self@.edges)),
            decreases raw_edges.len() - i,
        {
            let e = raw_edges[i];
            assert(self@.edge_ids().contains(e));
            let w = graph_edge_weight(&self.graph, e).unwrap();
            out.push(w);
            assert(raw_edges@.take(i + 1).map_values(weight_in(self@.edges))
                =~= raw_edges@.take(i as int).map_values(weight_in(self@.edges)).push(w));
            i += 1;
        }
        assert(raw_edges@.take(raw_edges.len() as int) =~= raw_edges@);
        out
    }

    /// The payloads of the nodes, by ascending handle.
    pub fn nodes(&self) -> (r: Vec<u64>)
        requires
            self.wf(),
        ensures
            r@ == self@.node_ids().map_values(payload_in(self@.nodes)),
    {
        let raw_nodes = graph_node_indices(&self.graph);
        let mut out: Vec<u64> = Vec::new();
        let mut i: usize = 0;
        proof {
            self@.lemma_counts();
        }
        while i < raw_nodes.len()
            invariant
                i <= raw_nodes.len(),
                self.wf(),
                raw_nodes@ == self@.node_ids(),
                forall|a: usize| #[trigger] self@.node_ids().contains(a) <==> self@.contains_node(a),
                out@ == raw_nodes@.take(i as int).map_values(payload_in(self@.nodes)),
            decreases raw_nodes.len() - i,
        {
            let a = raw_nodes[i];
            assert(self@.node_ids().contains(a));
            let w = graph_node_weight(&self.graph, a).unwrap();
            out.push(w);
            assert(raw_nodes@.take(i + 1).map_values(payload_in(self@.nodes))
                =~= raw_nodes@.take(i as int).map_values(payload_in(self@.nodes)).push(w));
            i += 1;
        }
        assert(raw_nodes@.take(raw_nodes.len() as int) =~= raw_nodes@);
        out
    }

    /// Whether an edge runs from `node_a` to `node_b`.
    pub fn has_edge(&self, node_a: usize, node_b: usize) -> (r: bool)
        requires
            self.wf(),
        ensures
            r == self@.has_arc(node_a, node_b),
    {
        proof {
            self@.lemma_first_edge(node_a, node_b);
            if self@.has_arc(node_a, node_b) {
                self@.lemma_arc_ends_live(node_a, node_b);
            }
        }
        if node_a > u32::MAX as usize || node_b > u32::MAX as usize {
            return false;
        }
        graph_find_edge(&self.graph, node_a, node_b).is_some()
    }

    /// The payloads of the nodes in `ids`, in that order.
    fn payloads(&self, ids: &Vec<usize>) -> (r: Vec<u64>)
        requires
            self.wf(),
            forall|i: int| 0 <= i < ids.len() ==> self@.contains_node(#[trigger] ids@[i]),
        ensures
            r@ == ids@.map_values(payload_in(self@.nodes)),
    {
        let mut out: Vec<u64> = Vec::new();
        let mut i: usize = 0;
        while i < ids.len()
            invariant
                i <= ids.len(),
                self.wf(),
                forall|i: int| 0 <= i < ids.len() ==> self@.contains_node(#[trigger] ids@[i]),
                out@ == ids@.take(i as int).map_values(payload_in(self@.nodes)),
            decreases ids.len() - i,
        {
            assert(self@.contains_node(ids@[i as int]));
            let w = graph_node_weight(&self.graph, ids[i]).unwrap();
            out.push(w);
            assert(ids@.take(i + 1).map_values(payload_in(self@.nodes)) =~= ids@.take(
                i as int,
            ).map_values(payload_in(self@.nodes)).push(w));
            i += 1;
        }
        assert(ids@.take(ids.len() as int) =~= ids@);
        out
    }

    /// The payloads of the children of `node`, the child of the most recently inserted edge
    /// first, each child once.
    pub fn successors(&self, node: usize) -> (r: Result<Vec<u64>, DagError>)
        requires
            self.wf(),
        ensures
            match r {
                Ok(v) => self@.contains_node(node) && v@ == distinct(
                    self@.children(node),
                ).map_values(payload_in(self@.nodes)),
                Err(e) => !self@.contains_node(node) && e == DagError::NodeNotFound,
            },
    {
        if !self.contains_node(node) {
            return Err(DagError::NodeNotFound);
        }
        let children = graph_neighbors_directed(&self.graph, node, Direction::Outgoing);
        let uniq = distinct_ids(&children);
        proof {
            self@.lemma_neighbour_lists(node);
            lemma_distinct(children@);
            assert forall|i: int| 0 <= i < uniq.len() implies self@.contains_node(
                #[trigger] uniq@[i],
            ) by {
                assert(uniq@.contains(uniq@[i]));
                assert(children@.contains(uniq@[i]));
                let j = choose|j: int| 0 <= j < children@.len() && children@[j] == uniq@[i];
                assert(self@.contains_node(self@.children(node)[j]));
            }
        }
        Ok(self.payloads(&uniq))
    }

    /// The payloads of the parents of `node`, the parent of the most recently inserted edge
    /// first, each parent once.
    pub fn predecessors(&self, node: usize) -> (r: Result<Vec<u64>, DagError>)
        requires
            self.wf(),
        ensures
            match r {
                Ok(v) => self@.contains_node(node) && v@ == distinct(
                    self@.parents(node),
                ).map_values(payload_in(self@.nodes)),
                Err(e) => !self@.contains_node(node) && e == DagError::NodeNotFound,
            },
    {
        if !self.contains_node(node) {
            return Err(DagError::NodeNotFound);
        }
        let parents = graph_neighbors_directed(&self.graph, node, Direction::Incoming);
        let uniq = distinct_ids(&parents);
        proof {
            self@.lemma_neighbour_lists(node);
            lemma_distinct(parents@);
            assert forall|i: int| 0 <= i < uniq.len() implies self@.contains_node(
                #[trigger] uniq@[i],
            ) by {
                assert(uniq@.contains(uniq@[i]));
                assert(parents@.contains(uniq@[i]));
                let j = choose|j: int| 0 <= j < parents@.len() && parents@[j] == uniq@[i];
                assert(self@.contains_node(self@.parents(node)[j]));
            }
        }
        Ok(self.payloads(&uniq))
    }

    /// The payload of the edge from `node_a` to `node_b` that is found first: the most
    /// recently inserted one.
    pub fn get_edge_data(&self, node_a: usize, node_b: usize) -> (r: Result<u64, DagError>)
        requires
            self.wf(),
        ensures
            r == (match self@.first_edge(node_a, node_b) {
                Some(e) => Ok::<u64, DagError>(self@.weight(e)),
                None => Err(DagError::EdgeNotFound),
            }),
    {
        proof {
            self@.lemma_first_edge(node_a, node_b);
            if self@.has_arc(node_a, node_b) {
                self@.lemma_arc_ends_live(node_a, node_b);
            }
        }
        if node_a > u32::MAX as usize || node_b > u32::MAX as usize {
            return Err(DagError::EdgeNotFound);
        }
        let edge_index = match graph_find_edge(&self.graph, node_a, node_b) {
            Some(edge_index) => edge_index,
            None => {
                return Err(DagError::EdgeNotFound);
            },
        };
        let data = graph_edge_weight(&self.graph, edge_index).unwrap();
        Ok(data)
    }

    /// The payload of an edge, by the handle of the edge.
    pub fn get_edge_data_by_index(&self, edge: usize) -> (r: Result<u64, DagError>)
        requires
            self.wf(),
        ensures
            r == (if self@.contains_edge(edge) {
                Ok::<u64, DagError>(self@.weight(edge))
            } else {
                Err(DagError::EdgeNotFound)
            }),
    {
        if edge > u32::MAX as usize {
            return Err(DagError::EdgeNotFound);
        }
        match graph_edge_weight(&self.graph, edge) {
            Some(w) => Ok(w),
            None => Err(DagError::EdgeNotFound),
        }
    }

    /// The payload of a node.
    pub fn get_node_data(&self, node: usize) -> (r: Result<u64, DagError>)
        requires
            self.wf(),
        ensures
            r == (if self@.contains_node(node) {
                Ok::<u64, DagError>(self@.payload(node))
            } else {
                Err(DagError::NodeNotFound)
            }),
    {
        if node > u32::MAX as usize {
            return Err(DagError::NodeNotFound);
        }
        match graph_node_weight(&self.graph, node) {
            Some(w) => Ok(w),
            None => Err(DagError::NodeNotFound),
        }
    }

    /// The payloads of all edges from `node_a` to `node_b`, the most recently inserted first.
    pub fn get_all_edge_data(&self, node_a: usize, node_b: usize) -> (r: Result<
        Vec<u64>,
        DagError,
    >)
        requires
            self.wf(),
        ensures
            match r {
                Ok(v) => v@.len() > 0 && v@ == self@.edges_between(node_a, node_b).map_values(
                    weight_in(self@.edges),
                ),
                Err(e) => e == DagError::EdgeNotFound && self@.edges_between(node_a, node_b).len()
                    == 0,
            },
    {
        if node_a > u32::MAX as usize {
            proof {
                self@.lemma_dead_node_isolated(node_a);
            }
            return Err(DagError::EdgeNotFound);
        }
        let raw_edges = graph_edges_directed(&self.graph, node_a, Direction::Outgoing);
        let mut out: Vec<u64> = Vec::new();
        let mut i: usize = 0;
        let ghost ids = self@.out_edges(node_a);
        let ghost tb = target_is(self@.edges, node_b);
        while i < raw_edges.len()
            invariant
                i <= raw_edges.len(),
                ids == self@.out_edges(node_a),
                tb == target_is(self@.edges, node_b),
                raw_edges@ == ids.map_values(record_in(self@.edges)),
                out@ == ids.take(i as int).filter(tb).map_values(weight_in(self@.edges)),
            decreases raw_edges.len() - i,
        {
            let edge = raw_edges[i];
            proof {
                assert(ids.take(i + 1) =~= ids.take(i as int).push(ids[i as int]));
                ids.take(i as int).lemma_filter_push(ids[i as int], tb);
                assert(edge == record_in(self@.edges)(ids[i as int]));
            }
            if edge.1 == node_b {
                out.push(edge.2);
                assert(ids.take(i as int).filter(tb).push(ids[i as int]).map_values(
                    weight_in(self@.edges),
                ) =~= ids.take(i as int).filter(tb).map_values(weight_in(self@.edges)).push(edge.2));
            }
            i += 1;
        }
        proof {
            assert(ids.take(raw_edges.len() as int) =~= ids);
            assert forall|k: int| 0 <= k < self@.order.len() implies joins(
                self@.edges,
                node_a,
                node_b,
            )(#[trigger] self@.order[k]) == (leaves(self@.edges, node_a)(self@.order[k]) && tb(
                self@.order[k],
            )) by {}
            lemma_filter_twice(
                self@.order,
                leaves(self@.edges, node_a),
                tb,
                joins(self@.edges, node_a, node_b),
            );
        }
        if out.len() == 0 {
            Err(DagError::EdgeNotFound)
        } else {
            Ok(out)
        }
    }

    /// Removes a node and every edge that touches it. Nothing happens if `node` is not a
    /// live node.
    pub fn remove_node(&mut self, node: usize) -> (r: Result<(), DagError>)
        requires
            old(self).wf(),
        ensures
            r is Ok,
            final(self)@ == old(self)@.delete_node(node),
            final(self).wf(),
    {
        proof {
            self@.lemma_delete_node(node);
            self@.delete_node(node).lemma_fewer_arcs_acyclic(self@);
        }
        if node <= u32::MAX as usize {
            graph_remove_node(&mut self.graph, node);
        }
        Ok(())
    }

    /// Inserts an edge from `parent` to `child`, unless it would close a cycle.
    ///
    /// The edge is refused when the two are the same node and when `child` already reaches
    /// `parent`. The graph is searched only when `parent` has a parent, `child` has a child
    /// and no edge runs from `parent` to `child` yet.
    pub fn add_edge(&mut self, parent: usize, child: usize, edge: u64) -> (r: Result<
        usize,
        DagError,
    >)
        requires
            old(self).wf(),
            old(self)@.edge_count() < u32::MAX,
        ensures
            r == old(self)@.add_edge_outcome(parent, child),
            final(self)@ == (if r is Ok {
                old(self)@.insert_edge(parent, child, edge)
            } else {
                old(self)@
            }),
            r is Ok ==> final(self)@.has_arc(parent, child),
            final(self).wf(),
    {
        proof {
            self@.lemma_insert_edge_arcs(parent, child, edge);
        }
        if !self.contains_node(parent) || !self.contains_node(child) {
            return Err(DagError::NodeNotFound);
        }
        if parent == child {
            proof {
                self@.lemma_reaches_self(parent);
            }
            return Err(DagError::WouldCreateCycle);
        }
        let should_check_for_cycle = must_check_for_cycle(self, parent, child);
        if should_check_for_cycle && has_path_connecting(
            &self.graph,
            child,
            parent,
            &mut self.cycle_state,
        ) {
            Err(DagError::WouldCreateCycle)
        } else {
            proof {
                self@.lemma_counts();
                if !should_check_for_cycle {
                    self@.lemma_no_search_needed(parent, child);
                }
                self@.lemma_insert_edge(parent, child, edge);
                self@.insert_edge(parent, child, edge).lemma_new_arc_acyclic(self@, parent, child);
            }
            let e = graph_add_edge(&mut self.graph, parent, child, edge);
            Ok(e)
        }
    }

    /// Inserts an edge as `add_edge` does, if the graph has room for one more: it holds at
    /// most `u32::MAX` edges. `None` for a graph that is full, which stays as it is.
    pub fn try_add_edge(&mut self, parent: usize, child: usize, edge: u64) -> (r: Option<
        Result<usize, DagError>,
    >)
        requires
            old(self).wf(),
        ensures
            r == (if old(self)@.edge_count() < u32::MAX {
                Some(old(self)@.add_edge_outcome(parent, child))
            } else {
                None
            }),
            final(self)@ == (if r is Some && r->0 is Ok {
                old(self)@.insert_edge(parent, child, edge)
            } else {
                old(self)@
            }),
            r is Some && r->0 is Ok ==> final(self)@.has_arc(parent, child),
            final(self).wf(),
    {
        if self.edge_count() < u32::MAX as usize {
            Some(self.add_edge(parent, child, edge))
        } else {
            None
        }
    }

    /// Removes the edge from `parent` to `child` that is found first.
    pub fn remove_edge(&mut self, parent: usize, child: usize) -> (r: Result<(), DagError>)
        requires
            old(self).wf(),
        ensures
            match old(self)@.first_edge(parent, child) {
                Some(e) => r is Ok && final(self)@ == old(self)@.delete_edge(e),
                None => r == Err::<(), DagError>(DagError::EdgeNotFound) && final(self)@ == old(
                    self,
                )@,
            },
            final(self).wf(),
    {
        proof {
            self@.lemma_first_edge(parent, child);
            if self@.has_arc(parent, child) {
                self@.lemma_arc_ends_live(parent, child);
            }
        }
        if parent > u32::MAX as usize || child > u32::MAX as usize {
            return Err(DagError::EdgeNotFound);
        }
        let edge_index = match graph_find_edge(&self.graph, parent, child) {
            Some(edge_index) => edge_index,
            None => {
                return Err(DagError::EdgeNotFound);
            },
        };
        proof {
            self@.lemma_delete_edge(edge_index);
            self@.delete_edge(edge_index).lemma_fewer_arcs_acyclic(self@);
        }
        graph_remove_edge(&mut self.graph, edge_index);
        Ok(())
    }

    /// Removes an edge by its handle. Nothing happens if `edge` is not a live edge.
    pub fn remove_edge_from_index(&mut self, edge: usize) -> (r: Result<(), DagError>)
        requires
            old(self).wf(),
        ensures
            r is Ok,
            final(self)@ == old(self)@.delete_edge(edge),
            final(self).wf(),
    {
        proof {
            self@.lemma_delete_edge(edge);
            self@.delete_edge(edge).lemma_fewer_arcs_acyclic(self@);
        }
        if edge <= u32::MAX as usize {
            graph_remove_edge(&mut self.graph, edge);
        }
        Ok(())
    }

    /// Inserts a node and returns its handle: that of the most recently removed node whose
    /// handle is still unused, or else the next new one.
    pub fn add_node(&mut self, obj: u64) -> (r: Result<usize, DagError>)
        requires
            old(self).wf(),
            old(self)@.node_count() < u32::MAX,
        ensures
            r == Ok::<usize, DagError>(old(self)@.next_node_id()),
            final(self)@ == old(self)@.insert_node(obj),
            !old(self)@.contains_node(old(self)@.next_node_id()),
            final(self).wf(),
    {
        proof {
            self@.lemma_counts();
            self@.lemma_insert_node(obj);
            self@.insert_node(obj).lemma_fewer_arcs_acyclic(self@);
        }
        let index = graph_add_node(&mut self.graph, obj);
        Ok(index)
    }

    /// Inserts a node and an edge from `parent` to it, both or neither. Returns the handle
    /// of the node.
    pub fn add_child(&mut self, parent: usize, obj: u64, edge: u64) -> (r: Result<usize, DagError>)
        requires
            old(self).wf(),
            old(self)@.node_count() < u32::MAX,
            old(self)@.edge_count() < u32::MAX,
        ensures
            r == (if old(self)@.contains_node(parent) {
                Ok::<usize, DagError>(old(self)@.next_node_id())
            } else {
                Err(DagError::NodeNotFound)
            }),
            final(self)@ == (if r is Ok {
                old(self)@.insert_node(obj).insert_edge(parent, old(self)@.next_node_id(), edge)
            } else {
                old(self)@
            }),
            final(self).wf(),
    {
        if !self.contains_node(parent) {
            return Err(DagError::NodeNotFound);
        }
        proof {
            self@.lemma_counts();
            self@.lemma_insert_node(obj);
            self@.lemma_new_node_attached(parent, obj, edge, true);
        }
        let child_node = graph_add_node(&mut self.graph, obj);
        graph_add_edge(&mut self.graph, parent, child_node, edge);
        Ok(child_node)
    }

    /// Inserts a node and an edge from it to `child`, both or neither. Returns the handle of
    /// the node.
    pub fn add_parent(&mut self, child: usize, obj: u64, edge: u64) -> (r: Result<usize, DagError>)
        requires
            old(self).wf(),
            old(self)@.node_count() < u32::MAX,
            old(self)@.edge_count() < u32::MAX,
        ensures
            r == (if old(self)@.contains_node(child) {
                Ok::<usize, DagError>(old(self)@.next_node_id())
            } else {
                Err(DagError::NodeNotFound)
            }),
            final(self)@ == (if r is Ok {
                old(self)@.insert_node(obj).insert_edge(old(self)@.next_node_id(), child, edge)
            } else {
                old(self)@
            }),
            final(self).wf(),
    {
        if !self.contains_node(child) {
            return Err(DagError::NodeNotFound);
        }
        proof {
            self@.lemma_counts();
            self@.lemma_insert_node(obj);
            self@.lemma_new_node_attached(child, obj, edge, false);
        }
        let parent_node = graph_add_node(&mut self.graph, obj);
        graph_add_edge(&mut self.graph, parent_node, child, edge);
        Ok(parent_node)
    }

    /// The number of edges that enter `node`.
    pub fn in_degree(&self, node: usize) -> (r: usize)
        requires
            self.wf(),
        ensures
            r == self@.in_edges(node).len(),
    {
        if node > u32::MAX as usize {
            proof {
                self@.lemma_dead_node_isolated(node);
            }
            return 0;
        }
        let neighbors = graph_edges_directed(&self.graph, node, Direction::Incoming);
        neighbors.len()
    }

    /// The number of edges that leave `node`.
    pub fn out_degree(&self, node: usize) -> (r: usize)
        requires
            self.wf(),
        ensures
            r == self@.out_edges(node).len(),
    {
        if node > u32::MAX as usize {
            proof {
                self@.lemma_dead_node_isolated(node);
            }
            return 0;
        }
        let neighbors = graph_edges_directed(&self.graph, node, Direction::Outgoing);
        neighbors.len()
    }

    /// The nodes in `ids`, each with the payload of the edge that pairs it with `node`: for
    /// `Some(true)` the first edge from it to `node`, for `Some(false)` the first edge from
    /// `node` to it, for `None` the latter if there is one and else the former.
    fn paired(&self, node: usize, ids: &Vec<usize>, incoming: Option<bool>) -> (r: Vec<
        (usize, u64),
    >)
        requires
            self.wf(),
            node <= u32::MAX,
            forall|i: int|
                0 <= i < ids.len() ==> (#[trigger] ids@[i]) <= u32::MAX && (match incoming {
                    Some(true) => self@.has_arc(ids@[i], node),
                    Some(false) => self@.has_arc(node, ids@[i]),
                    None => self@.link(node, ids@[i]) is Some,
                }),
        ensures
            r@ == ids@.map_values(
                match incoming {
                    Some(true) => self@.linked_parent(node),
                    Some(false) => self@.linked_child(node),
                    None => self@.linked(node),
                },
            ),
    {
        let mut out: Vec<(usize, u64)> = Vec::new();
        let mut i: usize = 0;
        let ghost f = match incoming {
            Some(true) => self@.linked_parent(node),
            Some(false) => self@.linked_child(node),
            None => self@.linked(node),
        };
        while i < ids.len()
            invariant
                i <= ids.len(),
                self.wf(),
                node <= u32::MAX,
                f == (match incoming {
                    Some(true) => self@.linked_parent(node),
                    Some(false) => self@.linked_child(node),
                    None => self@.linked(node),
                }),
                forall|i: int|
                    0 <= i < ids.len() ==> (#[trigger] ids@[i]) <= u32::MAX && (match incoming {
                        Some(true) => self@.has_arc(ids@[i], node),
                        Some(false) => self@.has_arc(node, ids@[i]),
                        None => self@.link(node, ids@[i]) is Some,
                    }),
                out@ == ids@.take(i as int).map_values(f),
            decreases ids.len() - i,
        {
            let neighbor = ids[i];
            assert(ids@[i as int] <= u32::MAX);
            proof {
                self@.lemma_first_edge(node, neighbor);
                self@.lemma_first_edge(neighbor, node);
            }
            let edge = match incoming {
                Some(true) => graph_find_edge(&self.graph, neighbor, node),
                Some(false) => graph_find_edge(&self.graph, node, neighbor),
                None => {
                    let found = graph_find_edge(&self.graph, node, neighbor);
                    if found.is_none() {
                        graph_find_edge(&self.graph, neighbor, node)
                    } else {
                        found
                    }
                },
            };
            let e = edge.unwrap();
            let edge_w = graph_edge_weight(&self.graph, e).unwrap();
            out.push((neighbor, edge_w));
            assert(ids@.take(i + 1).map_values(f) =~= ids@.take(i as int).map_values(f).push(
                (neighbor, edge_w),
            ));
            i += 1;
        }
        assert(ids@.take(ids.len() as int) =~= ids@);
        out
    }

    /// The neighbours of `node` in either direction, each once and with the payload of the
    /// edge that pairs the two: the children first, by the most recently inserted edge, then
    /// the parents.
    pub fn adj(&mut self, node: usize) -> (r: Result<Vec<(usize, u64)>, DagError>)
        requires
            old(self).wf(),
        ensures
            match r {
                Ok(v) => old(self)@.contains_node(node) && v@ == distinct(
                    old(self)@.neighbours(node),
                ).map_values(old(self)@.linked(node)),
                Err(e) => !old(self)@.contains_node(node) && e == DagError::NodeNotFound,
            },
            *final(self) == *old(self),
    {
        if !self.contains_node(node) {
            return Err(DagError::NodeNotFound);
        }
        let neighbors = graph_neighbors_undirected(&self.graph, node);
        let uniq = distinct_ids(&neighbors);
        proof {
            self@.lemma_neighbours(node);
            lemma_distinct(neighbors@);
            assert forall|i: int| 0 <= i < uniq.len() implies (#[trigger] uniq@[i]) <= u32::MAX
                && self@.link(node, uniq@[i]) is Some by {
                assert(uniq@.contains(uniq@[i]));
                assert(neighbors@.contains(uniq@[i]));
                let j = choose|j: int| 0 <= j < neighbors@.len() && neighbors@[j] == uniq@[i];
                assert(self@.contains_node(self@.neighbours(node)[j]));
            }
        }
        Ok(self.paired(node, &uniq, None))
    }

    /// The parents of `node` if `direction` is set and its children if not, each once and
    /// with the payload of the first edge between the two in that direction.
    pub fn adj_direction(&mut self, node: usize, direction: bool) -> (r: Result<
        Vec<(usize, u64)>,
        DagError,
    >)
        requires
            old(self).wf(),
        ensures
            match r {
                Ok(v) => old(self)@.contains_node(node) && v@ == (if direction {
                    distinct(old(self)@.parents(node)).map_values(old(self)@.linked_parent(node))
                } else {
                    distinct(old(self)@.children(node)).map_values(old(self)@.linked_child(node))
                }),
                Err(e) => !old(self)@.contains_node(node) && e == DagError::NodeNotFound,
            },
            *final(self) == *old(self),
    {
        if !self.contains_node(node) {
            return Err(DagError::NodeNotFound);
        }
        let dir = if direction {
            Direction::Incoming
        } else {
            Direction::Outgoing
        };
        let neighbors = graph_neighbors_directed(&self.graph, node, dir);
        let uniq = distinct_ids(&neighbors);
        proof {
            self@.lemma_neighbour_lists(node);
            lemma_distinct(neighbors@);
            assert forall|i: int| 0 <= i < uniq.len() implies (#[trigger] uniq@[i]) <= u32::MAX && (
            if direction {
                self@.has_arc(uniq@[i], node)
            } else {
                self@.has_arc(node, uniq@[i])
            }) by {
                assert(uniq@.contains(uniq@[i]));
                assert(neighbors@.contains(uniq@[i]));
                let j = choose|j: int| 0 <= j < neighbors@.len() && neighbors@[j] == uniq@[i];
                if direction {
                    assert(self@.contains_node(self@.parents(node)[j]));
                } else {
                    assert(self@.contains_node(self@.children(node)[j]));
                }
            }
        }
        Ok(self.paired(node, &uniq, Some(direction)))
    }

    /// Source, target and payload of each edge that enters `node`, the most recently
    /// inserted first.
    pub fn in_edges(&mut self, node: usize) -> (r: Result<Vec<(usize, usize, u64)>, DagError>)
        requires
            old(self).wf(),
        ensures
            match r {
                Ok(v) => old(self)@.contains_node(node) && v@ == old(self)@.in_edges(
                    node,
                ).map_values(record_in(old(self)@.edges)),
                Err(e) => !old(self)@.contains_node(node) && e == DagError::NodeNotFound,
            },
            *final(self) == *old(self),
    {
        if !self.contains_node(node) {
            return Err(DagError::NodeNotFound);
        }
        Ok(graph_edges_directed(&self.graph, node, Direction::Incoming))
    }

    /// Source, target and payload of each edge that leaves `node`, the most recently
    /// inserted first.
    pub fn out_edges(&mut self, node: usize) -> (r: Result<Vec<(usize, usize, u64)>, DagError>)
        requires
            old(self).wf(),
        ensures
            match r {
                Ok(v) => old(self)@.contains_node(node) && v@ == old(self)@.out_edges(
                    node,
                ).map_values(record_in(old(self)@.edges)),
                Err(e) => !old(self)@.contains_node(node) && e == DagError::NodeNotFound,
            },
            *final(self) == *old(self),
    {
        if !self.contains_node(node) {
            return Err(DagError::NodeNotFound);
        }
        Ok(graph_edges_directed(&self.graph, node, Direction::Outgoing))
    }
}

} // verus!
