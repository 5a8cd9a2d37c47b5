//! Taking the content of a graph out as plain lists, and building a graph from such lists.

use crate::dag::PyDAG;
use crate::error::DagError;
use crate::model::{record_in, Arena};
use crate::search::toposort;
use crate::store::{
    arena, graph_add_edge, graph_add_node, graph_edges_directed, graph_new, graph_node_indices,
    graph_node_weight,
};
use petgraph::Direction;
use std::collections::HashMap;
use vstd::prelude::*;

verus! {

broadcast use vstd::std_specs::hash::group_hash_axioms;

/// For each key of a list of keyed payloads, the place of its last entry.
pub open spec fn key_places(nodes: Seq<(usize, u64)>) -> Map<usize, usize>
    decreases nodes.len(),
{
    if nodes.len() == 0 {
        Map::empty()
    } else {
        key_places(nodes.drop_last()).insert(nodes.last().0, (nodes.len() - 1) as usize)
    }
}

/// The graph that holds one node for each entry of a list of keyed payloads, in that order,
/// and no edge.
pub open spec fn loaded_nodes(nodes: Seq<(usize, u64)>) -> Arena {
    Arena { nodes: nodes.map_values(|e: (usize, u64)| Some(e.1)), ..Arena::empty() }
}

/// The graph `g` after an edge was inserted for each entry of `edges`, in that order,
/// between the nodes at the places that `places` gives for the keys of its ends; `None` if
/// a key has no place.
pub open spec fn loaded_edges(
    g: Arena,
    places: Map<usize, usize>,
    edges: Seq<(usize, usize, u64)>,
) -> Option<Arena>
    decreases edges.len(),
{
    if edges.len() == 0 {
        Some(g)
    } else {
        let e = edges.last();
        match loaded_edges(g, places, edges.drop_last()) {
            Some(h) => if places.dom().contains(e.0) && places.dom().contains(e.1) {
                Some(h.insert_edge(places[e.0], places[e.1], e.2))
            } else {
                None
            },
            None => None,
        }
    }
}

/// The graph that the two lists describe: a node for each entry of `nodes`, with handles
/// counted from zero, and an edge for each entry of `edges`, whose ends are named by the
/// keys of `nodes`.
pub open spec fn loaded(nodes: Seq<(usize, u64)>, edges: Seq<(usize, usize, u64)>) -> Option<
    Arena,
> {
    loaded_edges(loaded_nodes(nodes), key_places(nodes), edges)
}

impl Arena {
    /// A node with its payload.
    pub open spec fn keyed(self) -> spec_fn(usize) -> (usize, u64) {
        |a: usize| (a, self.payload(a))
    }

    /// Source, target and payload of the edges that enter the nodes in `ids`, node by
    /// node.
    pub open spec fn incoming_records(self, ids: Seq<usize>) -> Seq<(usize, usize, u64)>
        decreases ids.len(),
    {
        if ids.len() == 0 {
            Seq::empty()
        } else {
            self.incoming_records(ids.drop_last()) + self.in_edges(ids.last()).map_values(
                record_in(self.edges),
            )
        }
    }

    /// A graph into which only nodes were inserted, as many as `nodes` has slots.
    pub(crate) open spec fn only_nodes(self) -> bool {
        &&& self.edges.len() == 0
        &&& self.order.len() == 0
        &&& self.free_nodes.len() == 0
        &&& self.free_edges.len() == 0
        &&& forall|a: usize| a < self.nodes.len() ==> #[trigger] self.contains_node(a)
    }

    /// A graph from which nothing was removed stays so when an edge is inserted.
    pub(crate) proof fn lemma_loading_edge(self, a: usize, b: usize, w: u64, count: nat)
        requires
            self.well_formed(),
            self.free_edges.len() == 0,
            self.edges.len() == count,
            count < u32::MAX,
            self.contains_node(a),
            self.contains_node(b),
        ensures
            self.insert_edge(a, b, w).well_formed(),
            self.insert_edge(a, b, w).free_edges.len() == 0,
            self.insert_edge(a, b, w).edges.len() == count + 1,
            self.insert_edge(a, b, w).nodes == self.nodes,
    {
        self.lemma_insert_edge(a, b, w);
    }
}

impl PyDAG {
    /// The content of the graph as two lists: each node with its payload, by ascending
    /// handle, and source, target and payload of each edge, listed with the node that it
    /// enters.
    pub fn get_state(&self) -> (r: (Vec<(usize, u64)>, Vec<(usize, usize, u64)>))
        requires
            self.wf(),
        ensures
            r.0@ == self@.node_ids().map_values(self@.keyed()),
            r.1@ == self@.incoming_records(self@.node_ids()),
    {
        let g = self.store();
        let ids = graph_node_indices(g);
        let mut node_list: Vec<(usize, u64)> = Vec::new();
        let mut out_list: Vec<(usize, usize, u64)> = Vec::new();
        let mut i: usize = 0;
        proof {
            self@.lemma_counts();
        }
        while i < ids.len()
            invariant
                i <= ids.len(),
                self.wf(),
                arena(*g) == self@,
                ids@ == self@.node_ids(),
                forall|a: usize| #[trigger] ids@.contains(a) <==> self@.contains_node(a),
                node_list@ == ids@.take(i as int).map_values(self@.keyed()),
                out_list@ == self@.incoming_records(ids@.take(i as int)),
            decreases ids.len() - i,
        {
            let node_index = ids[i];
            assert(ids@.contains(ids@[i as int]));
            let node_data = graph_node_weight(g, node_index).unwrap();
            node_list.push((node_index, node_data));
            let mut incoming = graph_edges_directed(g, node_index, Direction::Incoming);
            proof {
                assert(ids@.take(i + 1).drop_last() =~= ids@.take(i as int));
                assert(ids@.take(i + 1).map_values(self@.keyed()) =~= ids@.take(
                    i as int,
                ).map_values(self@.keyed()).push((node_index, node_data)));
            }
            out_list.append(&mut incoming);
            i += 1;
        }
        assert(ids@.take(ids.len() as int) =~= ids@);
        (node_list, out_list)
    }

    /// Replaces the content of the graph by what the two lists describe: a node for each
    /// entry of `nodes`, with handles counted from zero, and an edge for each entry of
    /// `edges`, whose ends are named by the keys of `nodes`. The graph is left as it was if
    /// an edge names a key that `nodes` lacks, or if the edges close a cycle.
    pub fn set_state(&mut self, nodes: Vec<(usize, u64)>, edges: Vec<(usize, usize, u64)>) -> (r:
        Result<(), DagError>)
        requires
            old(self).wf(),
            nodes.len() <= u32::MAX,
            edges.len() <= u32::MAX,
        ensures
            match loaded(nodes@, edges@) {
                Some(g) => if g.acyclic() {
                    r is Ok && final(self)@ == g
                } else {
                    r == Err::<(), DagError>(DagError::CycleDetected) && final(self)@ == old(self)@
                },
                None => r == Err::<(), DagError>(DagError::NodeNotFound) && final(self)@ == old(
                    self,
                )@,
            },
            final(self).wf(),
    {
        let mut node_mapping: HashMap<usize, usize> = HashMap::new();
        let mut graph = graph_new();
        let mut i: usize = 0;
        proof {
            assert(arena(graph) == loaded_nodes(nodes@.take(0))) by {
                assert(loaded_nodes(nodes@.take(0)).nodes =~= Seq::<Option<u64>>::empty());
            }
            Arena::lemma_empty_well_formed();
        }
        while i < nodes.len()
            invariant
                i <= nodes.len(),
                nodes.len() <= u32::MAX,
                self@ == old(self)@,
                self.wf(),
                arena(graph) == loaded_nodes(nodes@.take(i as int)),
                arena(graph).well_formed(),
                arena(graph).only_nodes(),
                node_mapping@ == key_places(nodes@.take(i as int)),
                forall|k: usize| #[trigger]
                    node_mapping@.dom().contains(k) ==> node_mapping@[k] < i,
            decreases nodes.len() - i,
        {
            let (index, raw_data) = nodes[i];
            proof {
                arena(graph).lemma_insert_node(raw_data);
                assert(nodes@.take(i + 1).drop_last() =~= nodes@.take(i as int));
                assert(loaded_nodes(nodes@.take(i + 1)).nodes =~= loaded_nodes(
                    nodes@.take(i as int),
                ).nodes.push(Some(raw_data)));
            }
            let node_index = graph_add_node(&mut graph, raw_data);
            node_mapping.insert(index, node_index);
            i += 1;
        }
        let ghost start = arena(graph);
        let ghost places = node_mapping@;
        proof {
            assert(nodes@.take(nodes.len() as int) =~= nodes@);
        }
        let mut j: usize = 0;
        while j < edges.len()
            invariant
                j <= edges.len(),
                edges.len() <= u32::MAX,
                self@ == old(self)@,
                self.wf(),
                places == node_mapping@,
                places == key_places(nodes@),
                start == loaded_nodes(nodes@),
                forall|k: usize| #[trigger] places.dom().contains(k) ==> places[k] < start.nodes.len(),
                start.only_nodes(),
                start.nodes.len() <= u32::MAX,
                loaded_edges(start, places, edges@.take(j as int)) == Some(arena(graph)),
                arena(graph).well_formed(),
                arena(graph).free_edges.len() == 0,
                arena(graph).edges.len() == j,
                arena(graph).nodes == start.nodes,
            decreases edges.len() - j,
        {
            let (tmp_p_index, tmp_c_index, edge_data) = edges[j];
            proof {
                assert(edges@.take(j + 1).drop_last() =~= edges@.take(j as int));
            }
            let p_index = match node_mapping.get(&tmp_p_index) {
                Some(p_index) => *p_index,
                None => {
                    proof {
                        lemma_loading_fails(start, places, edges@, j as int);
                    }
                    return Err(DagError::NodeNotFound);
                },
            };
            let c_index = match node_mapping.get(&tmp_c_index) {
                Some(c_index) => *c_index,
                None => {
                    proof {
                        lemma_loading_fails(start, places, edges@, j as int);
                    }
                    return Err(DagError::NodeNotFound);
                },
            };
            proof {
                assert(start.contains_node(p_index));
                assert(start.contains_node(c_index));
                arena(graph).lemma_loading_edge(p_index, c_index, edge_data, j as nat);
            }
            graph_add_edge(&mut graph, p_index, c_index, edge_data);
            j += 1;
        }
        proof {
            assert(edges@.take(edges.len() as int) =~= edges@);
        }
        match toposort(&graph) {
            Ok(_order) => {
                self.replace_store(graph);
                Ok(())
            },
            Err(_cycle) => Err(DagError::CycleDetected),
        }
    }
}

/// Once an edge names a key without a place, the lists describe no graph.
pub(crate) proof fn lemma_loading_fails(
    g: Arena,
    places: Map<usize, usize>,
    edges: Seq<(usize, usize, u64)>,
    j: int,
)
    requires
        0 <= j < edges.len(),
        !(places.dom().contains(edges[j].0) && places.dom().contains(edges[j].1)),
    ensures
        loaded_edges(g, places, edges) is None,
    decreases edges.len(),
{
    if j < edges.len() - 1 {
        lemma_loading_fails(g, places, edges.drop_last(), j);
    }
}

} // verus!
