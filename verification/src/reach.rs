//! What can be reached from a node, and how the graph hangs together.

use crate::dag::PyDAG;
use crate::error::DagError;
use crate::model::{distinct, payload_in, Arena};
use crate::search::{
    bfs_new, bfs_next, bfs_queue, bfs_room, bfs_seen, connected_components, has_path_connecting,
    is_cyclic_directed, scratch_new, unseen,
};
use crate::seqs::{
    lemma_concat_members, lemma_distinct, lemma_filter_mem, lemma_filter_no_duplicates,
    lemma_no_duplicates_within,
};
use crate::store::{arena, graph_neighbors_directed, graph_node_indices, graph_node_weight};
use petgraph::Direction;
use vstd::prelude::*;

verus! {

/// The number of groups of nodes that edges, taken in either direction, hold together.
pub fn number_weakly_connected_components(graph: &PyDAG) -> (r: usize)
    ensures
        r == graph@.component_count(),
{
    connected_components(graph.store())
}

/// Whether no walk along the edges returns to its start.
pub fn is_directed_acyclic_graph(graph: &PyDAG) -> (r: bool)
    ensures
        r == graph@.acyclic(),
{
    let cycle_detected = is_cyclic_directed(graph.store());
    !cycle_detected
}

/// The nodes other than `node` from which a walk leads to it, by ascending handle.
pub fn ancestors(graph: &PyDAG, node: usize) -> (r: Result<Vec<usize>, DagError>)
    requires
        graph.wf(),
    ensures
        match r {
            Ok(v) => graph@.contains_node(node) && v@ == graph@.node_ids().filter(
                graph@.above(node),
            ),
            Err(e) => !graph@.contains_node(node) && e == DagError::NodeNotFound,
        },
{
    if !graph.contains_node(node) {
        return Err(DagError::NodeNotFound);
    }
    let g = graph.store();
    let ids = graph_node_indices(g);
    let mut space = scratch_new();
    let mut out_list: Vec<usize> = Vec::new();
    let mut i: usize = 0;
    proof {
        graph@.lemma_counts();
    }
    while i < ids.len()
        invariant
            i <= ids.len(),
            graph.wf(),
            arena(*g) == graph@,
            node <= u32::MAX,
            ids@ == graph@.node_ids(),
            forall|a: usize| #[trigger] ids@.contains(a) <==> graph@.contains_node(a),
            out_list@ == ids@.take(i as int).filter(graph@.above(node)),
        decreases ids.len() - i,
    {
        let n_int = ids[i];
        proof {
            assert(ids@.contains(ids@[i as int]));
            assert(ids@.take(i + 1) =~= ids@.take(i as int).push(n_int));
            ids@.take(i as int).lemma_filter_push(n_int, graph@.above(node));
        }
        if n_int != node && has_path_connecting(g, n_int, node, &mut space) {
            out_list.push(n_int);
        }
        i += 1;
    }
    assert(ids@.take(ids.len() as int) =~= ids@);
    Ok(out_list)
}

/// The nodes other than `node` to which a walk leads from it, by ascending handle.
pub fn descendants(graph: &PyDAG, node: usize) -> (r: Result<Vec<usize>, DagError>)
    requires
        graph.wf(),
    ensures
        match r {
            Ok(v) => graph@.contains_node(node) && v@ == graph@.node_ids().filter(
                graph@.below(node),
            ),
            Err(e) => !graph@.contains_node(node) && e == DagError::NodeNotFound,
        },
{
    if !graph.contains_node(node) {
        return Err(DagError::NodeNotFound);
    }
    let g = graph.store();
    let ids = graph_node_indices(g);
    let mut space = scratch_new();
    let mut out_list: Vec<usize> = Vec::new();
    let mut i: usize = 0;
    proof {
        graph@.lemma_counts();
    }
    while i < ids.len()
        invariant
            i <= ids.len(),
            graph.wf(),
            arena(*g) == graph@,
            graph@.contains_node(node),
            node <= u32::MAX,
            ids@ == graph@.node_ids(),
            forall|a: usize| #[trigger] ids@.contains(a) <==> graph@.contains_node(a),
            out_list@ == ids@.take(i as int).filter(graph@.below(node)),
        decreases ids.len() - i,
    {
        let n_int = ids[i];
        proof {
            assert(ids@.contains(ids@[i as int]));
            assert(ids@.take(i + 1) =~= ids@.take(i as int).push(n_int));
            ids@.take(i as int).lemma_filter_push(n_int, graph@.below(node));
        }
        if n_int != node && has_path_connecting(g, node, n_int, &mut space) {
            out_list.push(n_int);
        }
        i += 1;
    }
    assert(ids@.take(ids.len() as int) =~= ids@);
    Ok(out_list)
}

impl Arena {
    /// The queue of a breadth-first walk after it left the node at its front.
    pub open spec fn bfs_queue_after(self, queue: Seq<usize>, seen: Set<usize>) -> Seq<usize> {
        queue.subrange(1, queue.len() as int) + distinct(self.children(queue[0])).filter(
            unseen(seen),
        )
    }

    /// The nodes that a breadth-first walk has found after it left the node at the front
    /// of its queue.
    pub open spec fn bfs_seen_after(self, queue: Seq<usize>, seen: Set<usize>) -> Set<usize> {
        seen.union(self.children(queue[0]).to_set())
    }

    /// What a breadth-first walk lists in its next `steps` steps: for each node that it
    /// leaves and that has a child, the payload of the node with the payloads of its
    /// children, one for each edge.
    pub open spec fn bfs_entries(self, queue: Seq<usize>, seen: Set<usize>, steps: nat) -> Seq<
        (u64, Seq<u64>),
    >
        decreases steps,
    {
        if steps == 0 || queue.len() == 0 {
            Seq::empty()
        } else {
            let rest = self.bfs_entries(
                self.bfs_queue_after(queue, seen),
                self.bfs_seen_after(queue, seen),
                (steps - 1) as nat,
            );
            if self.children(queue[0]).len() > 0 {
                seq![
                    (
                        self.payload(queue[0]),
                        self.children(queue[0]).map_values(payload_in(self.nodes)),
                    ),
                ] + rest
            } else {
                rest
            }
        }
    }

    /// What holds of a breadth-first walk: the nodes in `left` have left the queue, those
    /// in `queue` wait in it, and all of them are live nodes that the walk has found, each
    /// listed once.
    pub open spec fn walking(self, left: Seq<usize>, queue: Seq<usize>, seen: Set<usize>) -> bool {
        &&& (left + queue).no_duplicates()
        &&& forall|a: usize| #[trigger] (left + queue).contains(a) <==> seen.contains(a)
        &&& forall|a: usize| #[trigger] seen.contains(a) ==> self.contains_node(a)
    }

    /// A step of a breadth-first walk keeps what holds of it.
    pub proof fn lemma_walking_step(self, left: Seq<usize>, queue: Seq<usize>, seen: Set<usize>)
        requires
            self.well_formed(),
            self.walking(left, queue, seen),
            queue.len() > 0,
        ensures
            self.walking(
                left.push(queue[0]),
                self.bfs_queue_after(queue, seen),
                self.bfs_seen_after(queue, seen),
            ),
            left.len() < self.node_count(),
    {
        let n = queue[0];
        let kids = self.children(n);
        let fresh = distinct(kids).filter(unseen(seen));
        let tail = queue.subrange(1, queue.len() as int);
        let q1 = self.bfs_queue_after(queue, seen);
        let s1 = self.bfs_seen_after(queue, seen);
        let l1 = left.push(n);
        let all = left + queue;
        let all1 = l1 + q1;
        self.lemma_neighbour_lists(n);
        self.lemma_counts();
        lemma_distinct(kids);
        lemma_filter_no_duplicates(distinct(kids), unseen(seen));
        assert(all1 =~= all + fresh);
        assert forall|c: usize| fresh.contains(c) <==> kids.contains(c) && !seen.contains(c) by {
            lemma_filter_mem(distinct(kids), unseen(seen), c);
        }
        lemma_concat_members(all, fresh);
        assert forall|a: usize| #[trigger] all1.contains(a) <==> s1.contains(a) by {
            assert(all.contains(a) <==> seen.contains(a));
            assert(kids.to_set().contains(a) <==> kids.contains(a));
        }
        assert forall|a: usize| #[trigger] s1.contains(a) implies self.contains_node(a) by {
            if !seen.contains(a) {
                assert(kids.contains(a));
                let i = choose|i: int| 0 <= i < kids.len() && kids[i] == a;
                assert(self.contains_node(kids[i]));
            }
        }
        assert forall|y: usize| !(all.contains(y) && fresh.contains(y)) by {
            assert(all.contains(y) <==> seen.contains(y));
        }
        assert forall|x: usize| all.contains(x) implies self.node_ids().contains(x) by {
            assert(seen.contains(x));
        }
        lemma_no_duplicates_within(all, self.node_ids());
    }
}

impl Arena {
    /// A breadth-first walk is over after a step for each node that has not left its queue
    /// yet: further steps list nothing more.
    pub proof fn lemma_walk_ends(
        self,
        left: Seq<usize>,
        queue: Seq<usize>,
        seen: Set<usize>,
        steps: nat,
    )
        requires
            self.well_formed(),
            self.walking(left, queue, seen),
            left.len() <= self.node_count(),
            steps >= self.node_count() - left.len(),
        ensures
            self.bfs_entries(queue, seen, steps) == self.bfs_entries(
                queue,
                seen,
                (self.node_count() - left.len()) as nat,
            ),
        decreases steps,
    {
        if queue.len() > 0 {
            self.lemma_walking_step(left, queue, seen);
            self.lemma_walk_ends(
                left.push(queue[0]),
                self.bfs_queue_after(queue, seen),
                self.bfs_seen_after(queue, seen),
                (steps - 1) as nat,
            );
        }
    }
}

/// For each node that a breadth-first walk from `node` reaches and that has a child, the
/// payload of the node with the payloads of its children, in the order of the walk.
pub fn bfs_successors(graph: &PyDAG, node: usize) -> (r: Result<Vec<(u64, Vec<u64>)>, DagError>)
    requires
        graph.wf(),
    ensures
        match r {
            Ok(v) => {
                let entries = graph@.bfs_entries(seq![node], set![node], graph@.node_count());
                &&& graph@.contains_node(node)
                &&& v@.len() == entries.len()
                &&& forall|i: int|
                    0 <= i < v@.len() ==> (#[trigger] v@[i]).0 == entries[i].0 && v@[i].1@
                        == entries[i].1
            },
            Err(e) => !graph@.contains_node(node) && e == DagError::NodeNotFound,
        },
{
    if !graph.contains_node(node) {
        return Err(DagError::NodeNotFound);
    }
    let g = graph.store();
    let mut bfs = bfs_new(g, node);
    let mut out_list: Vec<(u64, Vec<u64>)> = Vec::new();
    let ghost mut left: Seq<usize> = Seq::empty();
    let ghost total = graph@.bfs_entries(seq![node], set![node], graph@.node_count());
    let ghost mut found: Seq<(u64, Seq<u64>)> = Seq::empty();
    proof {
        assert(Seq::<usize>::empty() + seq![node] =~= seq![node]);
        assert forall|a: usize| #[trigger] seq![node].contains(a) <==> set![node].contains(a) by {
            assert(seq![node][0] == node);
        }
        graph@.lemma_counts();
    }
    let mut going = true;
    while going
        invariant
            graph.wf(),
            arena(*g) == graph@,
            going ==> graph@.walking(left, bfs_queue(bfs), bfs_seen(bfs)),
            going ==> left.len() <= graph@.node_count(),
            forall|a: usize| #[trigger] graph@.contains_node(a) ==> a < bfs_room(bfs),
            going ==> found + graph@.bfs_entries(
                bfs_queue(bfs),
                bfs_seen(bfs),
                (graph@.node_count() - left.len()) as nat,
            ) == total,
            !going ==> found == total,
            out_list@.len() == found.len(),
            forall|i: int|
                0 <= i < out_list@.len() ==> (#[trigger] out_list@[i]).0 == found[i].0
                    && out_list@[i].1@ == found[i].1,
        decreases (if going { graph@.node_count() - left.len() + 1 } else { 0 }),
    {
        let ghost queue = bfs_queue(bfs);
        let ghost seen = bfs_seen(bfs);
        proof {
            if queue.len() > 0 {
                graph@.lemma_neighbour_lists(queue[0]);
                graph@.lemma_walking_step(left, queue, seen);
            }
        }
        match bfs_next(&mut bfs, g) {
            Some(nx) => {
                proof {
                    assert((left + queue).contains(queue[0])) by {
                        assert((left + queue)[left.len() as int] == queue[0]);
                    }
                    assert(seen.contains(nx));
                }
                let children = graph_neighbors_directed(g, nx, Direction::Outgoing);
                let mut succesors: Vec<u64> = Vec::new();
                let mut j: usize = 0;
                while j < children.len()
                    invariant
                        j <= children.len(),
                        graph.wf(),
                        arena(*g) == graph@,
                        children@ == graph@.children(nx),
                        forall|i: int|
                            0 <= i < children.len() ==> graph@.contains_node(#[trigger] children@[i]),
                        succesors@ == children@.take(j as int).map_values(
                            payload_in(graph@.nodes),
                        ),
                    decreases children.len() - j,
                {
                    let succ = children[j];
                    assert(graph@.contains_node(children@[j as int]));
                    let w = graph_node_weight(g, succ).unwrap();
                    succesors.push(w);
                    assert(children@.take(j + 1).map_values(payload_in(graph@.nodes))
                        =~= children@.take(j as int).map_values(payload_in(graph@.nodes)).push(w));
                    j += 1;
                }
                assert(children@.take(children.len() as int) =~= children@);
                proof {
                    left = left.push(nx);
                }
                if succesors.len() > 0 {
                    let w = graph_node_weight(g, nx).unwrap();
                    proof {
                        let entry = (w, succesors@);
                        assert(found.push(entry) + graph@.bfs_entries(
                            bfs_queue(bfs),
                            bfs_seen(bfs),
                            (graph@.node_count() - left.len()) as nat,
                        ) =~= found + (seq![entry] + graph@.bfs_entries(
                            bfs_queue(bfs),
                            bfs_seen(bfs),
                            (graph@.node_count() - left.len()) as nat,
                        )));
                        found = found.push(entry);
                    }
                    out_list.push((w, succesors));
                }
            },
            None => {
                proof {
                    assert(found + Seq::<(u64, Seq<u64>)>::empty() =~= found);
                }
                going = false;
            },
        }
    }
    Ok(out_list)
}

} // verus!
