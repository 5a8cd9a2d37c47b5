//! Orders of the nodes along the edges, and the longest walk.

use crate::dag::PyDAG;
use crate::error::DagError;
use crate::model::Arena;
use crate::search::{toposort, toposort_order};
use crate::store::{arena, graph_neighbors_directed};
use petgraph::Direction;
use std::collections::HashMap;
use vstd::prelude::*;

verus! {

broadcast use vstd::std_specs::hash::group_hash_axioms;

/// The nodes in an order in which each comes before the nodes that its edges lead to.
pub fn topological_sort(graph: &PyDAG) -> (r: Result<Vec<usize>, DagError>)
    requires
        graph.wf(),
    ensures
        r is Ok,
        r->Ok_0@ == toposort_order(graph@.nodes, graph@.edges, graph@.order),
        graph@.is_topological(r->Ok_0@),
{
    let nodes = match toposort(graph.store()) {
        Ok(nodes) => nodes,
        Err(_err) => {
            return Err(DagError::CycleDetected);
        },
    };
    Ok(nodes)
}

impl Arena {
    /// Whether `d` is the number of edges of the longest walk that ends in `n`.
    pub(crate) open spec fn longest_to(self, n: usize, d: nat) -> bool {
        &&& exists|p: Seq<usize>| #[trigger] self.walk_between(p, p[0], n) && p.len() == d + 1
        &&& forall|p: Seq<usize>| #[trigger] self.walk_between(p, p[0], n) ==> p.len() <= d + 1
    }

    /// Whether `p` is a walk over live nodes that no walk is longer than.
    pub open spec fn is_longest_walk(self, p: Seq<usize>) -> bool {
        &&& self.is_walk(p)
        &&& self.contains_node(p[0])
        &&& forall|q: Seq<usize>| #[trigger] self.is_walk(q) ==> q.len() <= p.len()
    }

    /// What is known of the `i`-th node of the order `nodes` once its distance was found:
    /// `dist` holds the number of edges of the longest walk to it, and the parent that
    /// such a walk comes from, or the node itself if the walk has no edge.
    pub(crate) open spec fn settled(
        self,
        nodes: Seq<usize>,
        dist: Map<usize, (usize, usize)>,
        i: int,
    ) -> bool {
        let n = nodes[i];
        let d = dist[n];
        &&& dist.contains_key(n)
        &&& self.longest_to(n, d.0 as nat)
        &&& d.0 <= i
        &&& d.0 == 0 ==> d.1 == n
        &&& d.0 > 0 ==> self.has_arc(d.1, n) && exists|j: int|
            0 <= j < i && nodes[j] == d.1 && dist.contains_key(d.1) && dist[d.1].0 + 1 == d.0
    }

    /// What is known once the distances of the first `k` nodes of the order were found:
    /// each of them is settled, and none is farther than `first`.
    pub(crate) open spec fn measured(
        self,
        nodes: Seq<usize>,
        dist: Map<usize, (usize, usize)>,
        first: usize,
        k: int,
    ) -> bool {
        forall|i: int|
            0 <= i < k ==> #[trigger] self.settled(nodes, dist, i) && dist[nodes[i]].0
                <= dist[first].0
    }

    /// A parent of the `k`-th node of a topological order comes earlier in the order.
    pub(crate) proof fn lemma_earlier_in_order(self, nodes: Seq<usize>, c: usize, k: int) -> (m:
        int)
        requires
            self.well_formed(),
            self.is_topological(nodes),
            0 <= k < nodes.len(),
            self.has_arc(c, nodes[k]),
        ensures
            0 <= m < k,
            nodes[m] == c,
    {
        self.lemma_arc_ends_live(c, nodes[k]);
        assert(nodes.contains(c));
        let m = choose|m: int| 0 <= m < nodes.len() && nodes[m] == c;
        assert(self.has_arc(nodes[m], nodes[k]));
        m
    }

    /// Settling the next node of the order keeps what is known of the earlier ones.
    pub(crate) proof fn lemma_measured_next(
        self,
        nodes: Seq<usize>,
        dist: Map<usize, (usize, usize)>,
        first: usize,
        k: int,
        found: (usize, usize),
    )
        requires
            nodes.no_duplicates(),
            0 <= k < nodes.len(),
            self.measured(nodes, dist, first, k),
            k > 0 ==> exists|i: int| 0 <= i < k && nodes[i] == first,
            self.longest_to(nodes[k], found.0 as nat),
            found.0 <= k,
            found.0 == 0 ==> found.1 == nodes[k],
            found.0 > 0 ==> self.has_arc(found.1, nodes[k]) && exists|j: int|
                0 <= j < k && nodes[j] == found.1 && dist[found.1].0 + 1 == found.0,
        ensures
            self.measured(
                nodes,
                dist.insert(nodes[k], found),
                if k == 0 || found.0 > dist[first].0 {
                    nodes[k]
                } else {
                    first
                },
                k + 1,
            ),
            k > 0 ==> dist.contains_key(first),
    {
        let node = nodes[k];
        let after = dist.insert(node, found);
        let top = if k == 0 || found.0 > dist[first].0 {
            node
        } else {
            first
        };
        if k > 0 {
            let i = choose|i: int| 0 <= i < k && nodes[i] == first;
            assert(self.settled(nodes, dist, i));
        }
        assert forall|i: int| 0 <= i < k + 1 implies #[trigger] self.settled(nodes, after, i)
            && after[nodes[i]].0 <= after[top].0 by {
            if i < k {
                assert(self.settled(nodes, dist, i));
                assert(nodes[i] != nodes[k]);
                let d = dist[nodes[i]];
                if d.0 > 0 {
                    let j = choose|j: int|
                        0 <= j < i && nodes[j] == d.1 && dist.contains_key(d.1) && dist[d.1].0 + 1
                            == d.0;
                    assert(nodes[j] != nodes[k]);
                    assert(after.contains_key(d.1) && after[d.1].0 + 1 == d.0);
                }
            } else {
                if found.0 > 0 {
                    let j = choose|j: int|
                        0 <= j < k && nodes[j] == found.1 && dist[found.1].0 + 1 == found.0;
                    assert(self.settled(nodes, dist, j));
                    assert(nodes[j] != nodes[k]);
                    assert(after.contains_key(found.1) && after[found.1].0 + 1 == found.0);
                }
                assert(self.settled(nodes, after, i));
                assert(after[nodes[i]].0 <= after[top].0);
            }
        }
        assert(self.measured(nodes, after, top, k + 1));
    }

    /// A node without parents ends no walk but the one that it is alone.
    pub(crate) proof fn lemma_longest_to_root(self, n: usize)
        requires
            self.well_formed(),
            self.parents(n).len() == 0,
        ensures
            self.longest_to(n, 0),
    {
        assert(self.walk_between(seq![n], seq![n][0], n));
        assert forall|p: Seq<usize>| #[trigger] self.walk_between(p, p[0], n) implies p.len()
            <= 1 by {
            if p.len() >= 2 {
                assert(self.arc_at(p, p.len() - 2));
                self.lemma_neighbour_lists(n);
                assert(self.parents(n).contains(p[p.len() - 2]));
            }
        }
    }

    /// The longest walk to a node with parents is the longest walk to one of them, and one
    /// edge more.
    pub(crate) proof fn lemma_longest_to_step(self, n: usize, best: usize, d: nat, lens: Map<usize, nat>)
        requires
            self.well_formed(),
            self.has_arc(best, n),
            lens[best] == d,
            forall|c: usize| #[trigger] self.has_arc(c, n) ==> self.longest_to(c, lens[c]) && lens[c] <= d,
        ensures
            self.longest_to(n, d + 1),
    {
        let p = choose|p: Seq<usize>| #[trigger] self.walk_between(p, p[0], best) && p.len() == d + 1;
        self.lemma_walk_push(p, n);
        assert(self.walk_between(p.push(n), p.push(n)[0], n));
        assert forall|q: Seq<usize>| #[trigger] self.walk_between(q, q[0], n) implies q.len() <= d
            + 2 by {
            if q.len() >= 2 {
                let c = q[q.len() - 2];
                assert(self.arc_at(q, q.len() - 2));
                let h = q.subrange(0, q.len() - 1);
                self.lemma_walk_part(q, 0, q.len() - 1);
                assert(self.walk_between(h, h[0], c));
            }
        }
    }
}

/// The nodes of a longest walk along the edges, from its start to its end; none for a graph
/// without nodes.
pub fn longest_path(graph: &PyDAG) -> (r: Result<Vec<usize>, DagError>)
    requires
        graph.wf(),
    ensures
        r is Ok,
        graph@.node_count() == 0 ==> r->Ok_0@.len() == 0,
        graph@.node_count() > 0 ==> graph@.is_longest_walk(r->Ok_0@),
{
    let dag = graph.store();
    let mut path: Vec<usize> = Vec::new();
    let nodes = match toposort(dag) {
        Ok(nodes) => nodes,
        Err(_err) => {
            return Err(DagError::CycleDetected);
        },
    };
    proof {
        graph@.lemma_counts();
        crate::seqs::lemma_same_members_same_len(nodes@, graph@.node_ids());
    }
    if nodes.len() == 0 {
        return Ok(path);
    }
    let mut dist: HashMap<usize, (usize, usize)> = HashMap::new();
    let mut first: usize = nodes[0];
    let mut k: usize = 0;
    while k < nodes.len()
        invariant
            k <= nodes.len(),
            nodes.len() > 0,
            graph.wf(),
            arena(*dag) == graph@,
            graph@.is_topological(nodes@),
            k == 0 ==> first == nodes@[0],
            k > 0 ==> exists|i: int| 0 <= i < k && nodes@[i] == first,
            graph@.measured(nodes@, dist@, first, k as int),
        decreases nodes.len() - k,
    {
        let node = nodes[k];
        assert(nodes@.contains(nodes@[k as int]));
        let parents = graph_neighbors_directed(dag, node, Direction::Incoming);
        let mut maxu: (usize, usize) = (0, node);
        let mut j: usize = 0;
        proof {
            graph@.lemma_neighbour_lists(node);
        }
        while j < parents.len()
            invariant
                j <= parents.len(),
                k < nodes.len(),
                node == nodes@[k as int],
                graph.wf(),
                graph@.is_topological(nodes@),
                parents@ == graph@.parents(node),
                forall|i: int|
                    0 <= i < parents.len() ==> graph@.has_arc(#[trigger] parents@[i], node),
                graph@.measured(nodes@, dist@, first, k as int),
                j == 0 ==> maxu == (0usize, node),
                j > 0 ==> maxu.0 > 0 && maxu.0 <= k && exists|i: int, m: int|
                    0 <= i < j && parents@[i] == maxu.1 && 0 <= m < k && nodes@[m] == maxu.1
                        && dist@[maxu.1].0 + 1 == maxu.0,
                forall|i: int| 0 <= i < j ==> dist@[#[trigger] parents@[i]].0 + 1 <= maxu.0,
            decreases parents.len() - j,
        {
            let p_node = parents[j];
            proof {
                assert(graph@.has_arc(parents@[j as int], node));
                let m = graph@.lemma_earlier_in_order(nodes@, p_node, k as int);
                assert(graph@.settled(nodes@, dist@, m));
            }
            let length = dist.get(&p_node).unwrap().0 + 1;
            if length > maxu.0 {
                maxu = (length, p_node);
            }
            j += 1;
        }
        proof {
            let g = graph@;
            if parents.len() == 0 {
                g.lemma_longest_to_root(node);
            } else {
                let lens = Map::new(|c: usize| true, |c: usize| dist@[c].0 as nat);
                assert forall|c: usize| #[trigger] g.has_arc(c, node) implies g.longest_to(
                    c,
                    lens[c],
                ) && lens[c] <= (maxu.0 - 1) as nat by {
                    assert(g.parents(node).contains(c));
                    let i = choose|i: int| 0 <= i < parents@.len() && parents@[i] == c;
                    assert(dist@[parents@[i]].0 + 1 <= maxu.0);
                    let m = g.lemma_earlier_in_order(nodes@, c, k as int);
                    assert(g.settled(nodes@, dist@, m));
                }
                g.lemma_longest_to_step(node, maxu.1, (maxu.0 - 1) as nat, lens);
            }
            g.lemma_measured_next(nodes@, dist@, first, k as int, maxu);
        }
        let ghost before = dist@;
        dist.insert(node, maxu);
        let ghost earlier = first;
        if k == 0 || maxu.0 > dist.get(&first).unwrap().0 {
            first = node;
        }
        proof {
            assert(first == (if k == 0 || maxu.0 > before[earlier].0 {
                node
            } else {
                earlier
            }));
        }
        k += 1;
    }
    let mut v = first;
    let mut done = false;
    let ghost pos = choose|i: int| 0 <= i < nodes.len() && nodes@[i] == first;
    while !done
        invariant
            graph.wf(),
            graph@.is_topological(nodes@),
            path@.len() == 0 ==> v == first && !done,
            graph@.measured(nodes@, dist@, first, nodes.len() as int),
            0 <= pos < nodes.len(),
            !done ==> nodes@[pos] == v,
            !done ==> path@.len() + dist@[v].0 == dist@[first].0,
            !done && path@.len() > 0 ==> graph@.has_arc(v, path@[path@.len() - 1]),
            done ==> path@.len() == dist@[first].0 + 1,
            path@.len() > 0 ==> path@[0] == first,
            done ==> graph@.contains_node(path@[path@.len() - 1]),
            forall|i: int|
                0 <= i < path@.len() - 1 ==> graph@.has_arc(#[trigger] path@[i + 1], path@[i]),
        decreases (if done { 0 } else { dist@[v].0 + 1 }),
    {
        assert(nodes@.contains(nodes@[pos]));
        assert(graph@.settled(nodes@, dist@, pos));
        path.push(v);
        let u = dist.get(&v).unwrap().1;
        if u == v {
            proof {
                if dist@[v].0 > 0 {
                    graph@.lemma_acyclic_no_return(u, v);
                    graph@.lemma_reaches_self(v);
                }
            }
            done = true;
        } else {
            proof {
                pos = choose|j: int|
                    0 <= j < pos && nodes@[j] == u && dist@.contains_key(u) && dist@[u].0 + 1
                        == dist@[v].0;
            }
            v = u;
        }
    }
    let ghost back = path@;
    let mut out: Vec<usize> = Vec::new();
    let mut i: usize = path.len();
    while i > 0
        invariant
            i <= path.len(),
            path@ == back,
            out@.len() == path.len() - i,
            forall|m: int| 0 <= m < out@.len() ==> out@[m] == back[back.len() - 1 - m],
        decreases i,
    {
        i -= 1;
        out.push(path[i]);
    }
    proof {
        let g = graph@;
        let p = out@;
        assert forall|m: int| 0 <= m < p.len() - 1 implies #[trigger] g.arc_at(p, m) by {
            assert(g.has_arc(back[(back.len() - 2 - m) + 1], back[back.len() - 2 - m]));
        }
        assert forall|q: Seq<usize>| #[trigger] g.is_walk(q) implies q.len() <= p.len() by {
            if q.len() >= 2 {
                let e = q[q.len() - 1];
                assert(g.arc_at(q, q.len() - 2));
                g.lemma_arc_ends_live(q[q.len() - 2], e);
                assert(nodes@.contains(e));
                let m = choose|m: int| 0 <= m < nodes@.len() && nodes@[m] == e;
                assert(g.settled(nodes@, dist@, m));
                assert(g.longest_to(nodes@[m], dist@[e].0 as nat));
                assert(g.walk_between(q, q[0], e));
            }
        }
    }
    Ok(out)
}

/// The nodes of a longest walk along the edges.
pub fn dag_longest_path(graph: &PyDAG) -> (r: Result<Vec<usize>, DagError>)
    requires
        graph.wf(),
    ensures
        r is Ok,
        graph@.node_count() == 0 ==> r->Ok_0@.len() == 0,
        graph@.node_count() > 0 ==> graph@.is_longest_walk(r->Ok_0@),
{
    longest_path(graph)
}

/// The number of edges of a longest walk; zero for a graph without nodes.
pub fn dag_longest_path_length(graph: &PyDAG) -> (r: Result<usize, DagError>)
    requires
        graph.wf(),
    ensures
        r is Ok,
        graph@.node_count() == 0 ==> r->Ok_0 == 0,
        graph@.node_count() > 0 ==> (exists|p: Seq<usize>| #[trigger]
            graph@.is_longest_walk(p) && p.len() == r->Ok_0 + 1),
        forall|q: Seq<usize>| #[trigger] graph@.is_walk(q) && graph@.node_count() > 0 ==> q.len() <= r->Ok_0 + 1,
{
    let path = match longest_path(graph) {
        Ok(path) => path,
        Err(e) => {
            return Err(e);
        },
    };
    if path.len() == 0 {
        return Ok(0);
    }
    let path_length: usize = path.len() - 1;
    Ok(path_length)
}

} // verus!
