//! The topological order that is ranked by keys.

use crate::dag::PyDAG;
use crate::error::DagError;
use crate::keys::{entry_less, pop_least};
use crate::model::{is_arc, payload_in, source_at, Arena, EdgeSlot};
use crate::seqs::{
    lemma_filter_agree, lemma_filter_all, lemma_filter_drop_one, lemma_filter_empty,
    lemma_filter_mem, lemma_filter_none, lemma_no_duplicates_within, lemma_push_members,
    lemma_same_members_same_len,
};
use crate::store::{arena, graph_neighbors_directed, graph_node_indices, graph_node_weight};
use petgraph::Direction;
use std::collections::HashMap;
use vstd::prelude::*;

verus! {

broadcast use vstd::std_specs::hash::group_hash_axioms;

/// The predicate "the source of `e` is not in `done`, and `e` is not in `used`".
pub(crate) open spec fn pending(edges: Seq<EdgeSlot>, done: Seq<usize>, used: Seq<usize>) -> spec_fn(
    usize,
) -> bool {
    |e: usize| !done.contains(source_at(edges, e)) && !used.contains(e)
}

/// The nodes of a queue of keyed nodes.
pub(crate) open spec fn queue_nodes(queue: Seq<(String, usize)>) -> Seq<usize> {
    queue.map_values(|e: (String, usize)| e.1)
}

impl Arena {
    /// Whether `n` can come next after the nodes in `done`: it is a live node that is not
    /// among them, and its parents all are.
    pub open spec fn ready(self, done: Seq<usize>, n: usize) -> bool {
        &&& self.contains_node(n)
        &&& !done.contains(n)
        &&& forall|p: usize| #[trigger] self.has_arc(p, n) ==> done.contains(p)
    }

    /// Whether `s` is the topological order ranked by `keys`: each node is, among the nodes
    /// that can come next at its place, one that no other ranks before.
    pub open spec fn is_lexicographic(self, keys: Map<usize, String>, s: Seq<usize>) -> bool {
        &&& self.is_topological(s)
        &&& forall|k: int, m: usize|
            0 <= k < s.len() && #[trigger] self.ready(s.take(k), m) ==> !entry_less(
                keys[m]@,
                m,
                keys[s[k]]@,
                s[k],
            )
    }

    /// What holds while the order is built: `done` is the order so far, `queue` holds the
    /// nodes that can come next, and `indeg` counts for each node the edges into it that
    /// are still pending.
    pub(crate) open spec fn sorting(
        self,
        keys: Map<usize, String>,
        done: Seq<usize>,
        queue: Seq<(String, usize)>,
        indeg: Map<usize, usize>,
        pend: spec_fn(usize) -> bool,
    ) -> bool {
        &&& done.no_duplicates()
        &&& forall|i: int|
            0 <= i < done.len() ==> self.contains_node(#[trigger] done[i]) && keys.dom().contains(
                done[i],
            )
        &&& forall|n: usize| #[trigger]
            self.contains_node(n) ==> indeg.contains_key(n) && indeg[n] == self.in_edges(
                n,
            ).filter(pend).len()
        &&& queue_nodes(queue).no_duplicates()
        &&& forall|n: usize| #[trigger]
            queue_nodes(queue).contains(n) <==> self.contains_node(n) && !done.contains(n)
                && indeg[n] == 0
        &&& forall|i: int|
            0 <= i < queue.len() ==> keys.dom().contains((#[trigger] queue[i]).1) && keys[queue[i].1]
                == queue[i].0
        &&& forall|n: usize| #[trigger]
            keys.dom().contains(n) ==> done.contains(n) || queue_nodes(queue).contains(n)
        &&& forall|k: int, p: usize|
            0 <= k < done.len() && #[trigger] self.has_arc(p, done[k]) ==> done.take(k).contains(p)
        &&& forall|k: int, m: usize|
            0 <= k < done.len() && #[trigger] self.ready(done.take(k), m) ==> keys.dom().contains(
                m,
            ) && !entry_less(keys[m]@, m, keys[done[k]]@, done[k])
    }

    /// Taking the first-ranked node from the queue puts it at the end of the order.
    pub(crate) proof fn lemma_sorting_pop(
        self,
        keys: Map<usize, String>,
        done: Seq<usize>,
        queue: Seq<(String, usize)>,
        indeg: Map<usize, usize>,
        i: int,
    )
        requires
            self.well_formed(),
            self.sorting(keys, done, queue, indeg, pending(self.edges, done, Seq::empty())),
            0 <= i < queue.len(),
            forall|j: int|
                0 <= j < queue.len() ==> !entry_less(
                    (#[trigger] queue[j]).0@,
                    queue[j].1,
                    queue[i].0@,
                    queue[i].1,
                ),
        ensures
            self.contains_node(queue[i].1),
            !done.contains(queue[i].1),
            self.sorting(
                keys,
                done.push(queue[i].1),
                queue.remove(i),
                indeg,
                pending(self.edges, done, Seq::empty()),
            ),
    {
        let x = queue[i].1;
        let d1 = done.push(x);
        let q1 = queue.remove(i);
        let p0 = pending(self.edges, done, Seq::empty());
        let qn = queue_nodes(queue);
        let qn1 = queue_nodes(q1);
        assert(qn[i] == x);
        assert(qn.contains(x));
        assert(qn1 =~= qn.remove(i));
        assert forall|n: usize| qn1.contains(n) <==> qn.contains(n) && n != x by {
            if qn1.contains(n) {
                let j = choose|j: int| 0 <= j < qn1.len() && qn1[j] == n;
                if j < i {
                    assert(qn[j] == n);
                } else {
                    assert(qn[j + 1] == n);
                }
            }
            if qn.contains(n) && n != x {
                let j = choose|j: int| 0 <= j < qn.len() && qn[j] == n;
                if j < i {
                    assert(qn1[j] == n);
                } else {
                    assert(qn1[j - 1] == n);
                }
            }
        }
        assert(qn1.no_duplicates()) by {
            assert forall|a: int, b: int| 0 <= a < qn1.len() && 0 <= b < qn1.len() && a != b implies qn1[a]
                != qn1[b] by {
                let a0 = if a < i { a } else { a + 1 };
                let b0 = if b < i { b } else { b + 1 };
                assert(qn1[a] == qn[a0] && qn1[b] == qn[b0]);
            }
        }
        assert forall|n: usize| d1.contains(n) <==> done.contains(n) || n == x by {
            if d1.contains(n) {
                let j = choose|j: int| 0 <= j < d1.len() && d1[j] == n;
                if j < done.len() {
                    assert(done[j] == n);
                }
            }
            if done.contains(n) {
                let j = choose|j: int| 0 <= j < done.len() && done[j] == n;
                assert(d1[j] == n);
            }
            assert(d1[done.len() as int] == x);
        }
        assert(d1.no_duplicates()) by {
            assert forall|a: int, b: int| 0 <= a < d1.len() && 0 <= b < d1.len() && a != b implies d1[a]
                != d1[b] by {
                if a < done.len() {
                    assert(done.contains(done[a]));
                }
                if b < done.len() {
                    assert(done.contains(done[b]));
                }
            }
        }
        assert forall|n: usize| #[trigger]
            qn1.contains(n) <==> self.contains_node(n) && !d1.contains(n) && indeg[n]
                == 0 by {
            assert(qn.contains(n) <==> self.contains_node(n) && !done.contains(n) && indeg[n]
                == 0);
        }
        assert forall|j: int| 0 <= j < q1.len() implies keys.dom().contains((#[trigger] q1[j]).1)
            && keys[q1[j].1] == q1[j].0 by {
            let j0 = if j < i { j } else { j + 1 };
            assert(q1[j] == queue[j0]);
        }
        assert forall|n: usize| #[trigger] keys.dom().contains(n) implies d1.contains(n)
            || qn1.contains(n) by {
            assert(done.contains(n) || qn.contains(n));
        }
        assert forall|k: int| 0 <= k < done.len() implies #[trigger] d1.take(k) == done.take(k) by {
            assert(d1.take(k) =~= done.take(k));
        }
        assert(d1.take(done.len() as int) =~= done);
        self.lemma_edge_lists(x, x);
        lemma_filter_empty(self.in_edges(x), p0);
        assert forall|k: int, p: usize| 0 <= k < d1.len() && #[trigger] self.has_arc(p, d1[k]) implies d1.take(
            k,
        ).contains(p) by {
            if k < done.len() {
                assert(d1.take(k) == done.take(k));
                assert(self.has_arc(p, done[k]));
            } else {
                let e = choose|e: usize| is_arc(self.edges, e, p, x);
                assert(self.in_edges(x).contains(e));
                assert(!p0(e));
            }
        }
        assert forall|k: int, m: usize| 0 <= k < d1.len() && #[trigger] self.ready(d1.take(k), m) implies keys.dom().contains(
            m,
        ) && !entry_less(keys[m]@, m, keys[d1[k]]@, d1[k]) by {
            if k < done.len() {
                assert(d1.take(k) == done.take(k));
                assert(self.ready(done.take(k), m));
            } else {
                self.lemma_edge_lists(m, m);
                assert forall|j: int| 0 <= j < self.in_edges(m).len() implies !p0(
                    #[trigger] self.in_edges(m)[j],
                ) by {
                    let e = self.in_edges(m)[j];
                    assert(self.in_edges(m).contains(e));
                    assert(is_arc(self.edges, e, self.source(e), m));
                    assert(self.has_arc(self.source(e), m));
                }
                lemma_filter_none(self.in_edges(m), p0);
                assert(self.contains_node(m));
                assert(qn.contains(m));
                let j = choose|j: int| 0 <= j < qn.len() && qn[j] == m;
                assert(queue[j].1 == m);
            }
        }
    }

    /// Following one edge out of the node that was taken last: the edge is no longer
    /// pending, and its target joins the queue when no edge into it is.
    pub(crate) proof fn lemma_sorting_step(
        self,
        keys: Map<usize, String>,
        done: Seq<usize>,
        queue: Seq<(String, usize)>,
        indeg: Map<usize, usize>,
        j: int,
        key: String,
    )
        requires
            self.well_formed(),
            self.acyclic(),
            done.len() > 0,
            0 <= j < self.out_edges(done.last()).len(),
            self.sorting(
                keys,
                done,
                queue,
                indeg,
                pending(self.edges, done.drop_last(), self.out_edges(done.last()).take(j)),
            ),
        ensures
            ({
                let x = done.last();
                let c = self.children(x)[j];
                let pend = pending(
                    self.edges,
                    done.drop_last(),
                    self.out_edges(x).take(j + 1),
                );
                &&& self.contains_node(c)
                &&& indeg.contains_key(c)
                &&& indeg[c] > 0
                &&& !keys.dom().contains(c)
                &&& indeg[c] > 1 ==> self.sorting(
                    keys,
                    done,
                    queue,
                    indeg.insert(c, (indeg[c] - 1) as usize),
                    pend,
                )
                &&& indeg[c] == 1 ==> self.sorting(
                    keys.insert(c, key),
                    done,
                    queue.push((key, c)),
                    indeg.insert(c, 0),
                    pend,
                )
            }),
    {
        let x = done.last();
        let d0 = done.drop_last();
        let oe = self.out_edges(x);
        let e = oe[j];
        let c = self.children(x)[j];
        let pj = pending(self.edges, d0, oe.take(j));
        let pn = pending(self.edges, d0, oe.take(j + 1));
        let after = indeg.insert(c, (indeg[c] - 1) as usize);
        self.lemma_neighbour_lists(x);
        self.lemma_edge_lists(x, c);
        self.lemma_edge_lists(c, c);
        assert(is_arc(self.edges, e, x, c));
        assert(self.contains_node(self.children(x)[j]));
        assert(self.has_arc(x, self.children(x)[j]));
        assert(oe.contains(e));
        assert(done[done.len() - 1] == x);
        assert(done.contains(x));
        assert(done =~= d0.push(x));
        assert(!d0.contains(x)) by {
            if d0.contains(x) {
                let i = choose|i: int| 0 <= i < d0.len() && d0[i] == x;
                assert(done[i] == x);
            }
        }
        let t0 = oe.take(j);
        let t1 = oe.take(j + 1);
        assert(!t0.contains(e)) by {
            if t0.contains(e) {
                let i = choose|i: int| 0 <= i < t0.len() && t0[i] == e;
                assert(oe[i] == e);
            }
        }
        assert(t1[j] == e);
        assert forall|f: usize| f != e implies (t0.contains(f) <==> #[trigger] t1.contains(f)) by {
            if t0.contains(f) {
                let i = choose|i: int| 0 <= i < t0.len() && t0[i] == f;
                assert(t1[i] == f);
            }
            if t1.contains(f) {
                let i = choose|i: int| 0 <= i < t1.len() && t1[i] == f;
                assert(t0[i] == f);
            }
        }
        assert(self.in_edges(c).contains(e));
        assert forall|i: int| 0 <= i < self.in_edges(c).len() && self.in_edges(c)[i] != e implies pj(
            #[trigger] self.in_edges(c)[i],
        ) == pn(self.in_edges(c)[i]) by {
            let f = self.in_edges(c)[i];
            assert(t0.contains(f) <==> t1.contains(f));
        }
        assert(pj(e) && !pn(e));
        lemma_filter_drop_one(self.in_edges(c), pj, pn, e);
        assert(c != x) by {
            if c == x {
                self.lemma_acyclic_no_return(x, c);
                self.lemma_reaches_self(x);
            }
        }
        assert(!done.contains(c)) by {
            if done.contains(c) {
                let i = choose|i: int| 0 <= i < done.len() && done[i] == c;
                assert(self.has_arc(x, done[i]));
                assert(done.take(i).contains(x));
                let m = choose|m: int| 0 <= m < i && done.take(i)[m] == x;
                assert(done[m] == x);
            }
        }
        assert(!queue_nodes(queue).contains(c));
        assert forall|n: usize| #[trigger] self.contains_node(n) implies after.contains_key(n)
            && after[n] == self.in_edges(n).filter(pn).len() by {
            if n != c {
                self.lemma_edge_lists(n, n);
                assert forall|i: int| 0 <= i < self.in_edges(n).len() implies pj(
                    #[trigger] self.in_edges(n)[i],
                ) == pn(self.in_edges(n)[i]) by {
                    let f = self.in_edges(n)[i];
                    assert(self.in_edges(n).contains(f));
                    assert(t0.contains(f) <==> t1.contains(f));
                }
                lemma_filter_agree(self.in_edges(n), pj, pn);
            }
        }
        assert forall|k: int, m: usize| 0 <= k < done.len() && #[trigger] self.ready(done.take(k), m) implies m
            != c by {}
        if indeg[c] == 1 {
            let q1 = queue.push((key, c));
            let k1 = keys.insert(c, key);
            let qn = queue_nodes(queue);
            let qn1 = queue_nodes(q1);
            assert(qn1 =~= qn.push(c));
            assert forall|n: usize| qn1.contains(n) <==> qn.contains(n) || n == c by {
                if qn1.contains(n) {
                    let i = choose|i: int| 0 <= i < qn1.len() && qn1[i] == n;
                    if i < qn.len() {
                        assert(qn[i] == n);
                    }
                }
                if qn.contains(n) {
                    let i = choose|i: int| 0 <= i < qn.len() && qn[i] == n;
                    assert(qn1[i] == n);
                }
                assert(qn1[qn.len() as int] == c);
            }
            assert(qn1.no_duplicates()) by {
                assert forall|a: int, b: int|
                    0 <= a < qn1.len() && 0 <= b < qn1.len() && a != b implies qn1[a] != qn1[b] by {
                    if a < qn.len() {
                        assert(qn.contains(qn[a]));
                    }
                    if b < qn.len() {
                        assert(qn.contains(qn[b]));
                    }
                }
            }
            assert forall|n: usize| #[trigger]
                qn1.contains(n) <==> self.contains_node(n) && !done.contains(n) && after[n]
                    == 0 by {
                assert(qn.contains(n) <==> self.contains_node(n) && !done.contains(n)
                    && indeg[n] == 0);
            }
            assert forall|i: int| 0 <= i < q1.len() implies k1.dom().contains((#[trigger] q1[i]).1)
                && k1[q1[i].1] == q1[i].0 by {
                if i < queue.len() {
                    assert(q1[i] == queue[i]);
                    assert(qn[i] == queue[i].1);
                    assert(qn.contains(queue[i].1));
                }
            }
            assert forall|n: usize| #[trigger] k1.dom().contains(n) implies done.contains(n)
                || qn1.contains(n) by {
                if n != c {
                    assert(keys.dom().contains(n));
                }
            }
            assert forall|i: int| 0 <= i < done.len() implies self.contains_node(
                #[trigger] done[i],
            ) && k1.dom().contains(done[i]) by {}
            assert forall|k: int, m: usize| 0 <= k < done.len() && #[trigger] self.ready(done.take(k), m) implies k1.dom().contains(
                m,
            ) && !entry_less(k1[m]@, m, k1[done[k]]@, done[k]) by {
                assert(done.contains(done[k]));
            }
            assert(self.sorting(k1, done, q1, after, pn));
        } else {
            let qn = queue_nodes(queue);
            assert forall|n: usize| #[trigger]
                qn.contains(n) <==> self.contains_node(n) && !done.contains(n) && after[n]
                    == 0 by {
                assert(qn.contains(n) <==> self.contains_node(n) && !done.contains(n)
                    && indeg[n] == 0);
            }
            assert(self.sorting(keys, done, queue, after, pn));
        }
    }

    /// Once every edge out of the node that was taken last was followed, the pending edges
    /// are those whose source is not in the order yet.
    pub(crate) proof fn lemma_sorting_next(
        self,
        keys: Map<usize, String>,
        done: Seq<usize>,
        queue: Seq<(String, usize)>,
        indeg: Map<usize, usize>,
    )
        requires
            self.well_formed(),
            done.len() > 0,
            self.sorting(
                keys,
                done,
                queue,
                indeg,
                pending(self.edges, done.drop_last(), self.out_edges(done.last())),
            ),
        ensures
            self.sorting(keys, done, queue, indeg, pending(self.edges, done, Seq::empty())),
    {
        let x = done.last();
        let d0 = done.drop_last();
        let from = pending(self.edges, d0, self.out_edges(x));
        let to = pending(self.edges, done, Seq::empty());
        assert(done =~= d0.push(x));
        assert forall|n: usize| done.contains(n) <==> d0.contains(n) || n == x by {
            if done.contains(n) {
                let i = choose|i: int| 0 <= i < done.len() && done[i] == n;
                if i < d0.len() {
                    assert(d0[i] == n);
                }
            }
            if d0.contains(n) {
                let i = choose|i: int| 0 <= i < d0.len() && d0[i] == n;
                assert(done[i] == n);
            }
            assert(done[done.len() - 1] == x);
        }
        self.lemma_edge_lists(x, x);
        assert forall|n: usize| #[trigger] self.contains_node(n) implies self.in_edges(n).filter(
            from,
        ) == self.in_edges(n).filter(to) by {
            self.lemma_edge_lists(n, n);
            assert forall|i: int| 0 <= i < self.in_edges(n).len() implies from(
                #[trigger] self.in_edges(n)[i],
            ) == to(self.in_edges(n)[i]) by {
                let e = self.in_edges(n)[i];
                assert(self.in_edges(n).contains(e));
                assert(self.out_edges(x).contains(e) <==> self.contains_edge(e) && self.source(e) == x);
            }
            lemma_filter_agree(self.in_edges(n), from, to);
        }
    }

    /// When no node can come next, every node is in the order.
    pub(crate) proof fn lemma_sorting_complete(
        self,
        keys: Map<usize, String>,
        done: Seq<usize>,
        queue: Seq<(String, usize)>,
        indeg: Map<usize, usize>,
    )
        requires
            self.well_formed(),
            self.acyclic(),
            queue.len() == 0,
            self.sorting(keys, done, queue, indeg, pending(self.edges, done, Seq::empty())),
        ensures
            self.is_lexicographic(keys, done),
    {
        let pend = pending(self.edges, done, Seq::empty());
        let among = Set::new(|n: usize| self.contains_node(n) && !done.contains(n));
        self.lemma_counts();
        assert(among.subset_of(self.node_ids().to_set())) by {
            assert forall|n: usize| among.contains(n) implies self.node_ids().to_set().contains(n) by {
                assert(self.node_ids().contains(n));
            }
        }
        vstd::set_lib::lemma_len_subset(among, self.node_ids().to_set());
        assert forall|m: usize| among.contains(m) implies exists|c: usize|
            among.contains(c) && #[trigger] self.has_arc(c, m) by {
            assert(!queue_nodes(queue).contains(m));
            assert(self.contains_node(m));
            let s = self.in_edges(m).filter(pend);
            assert(s.len() > 0);
            assert(s.contains(s[0]));
            let e = s[0];
            lemma_filter_mem(self.in_edges(m), pend, e);
            self.lemma_edge_lists(m, m);
            let c = self.source(e);
            assert(is_arc(self.edges, e, c, m));
            assert(self.contains_edge(e));
            assert(among.contains(c) && self.has_arc(c, m));
        }
        self.lemma_some_node_has_no_parent(among);
        assert forall|a: usize| #[trigger] done.contains(a) <==> self.contains_node(a) by {
            if done.contains(a) {
                let i = choose|i: int| 0 <= i < done.len() && done[i] == a;
                assert(self.contains_node(done[i]));
            }
            if self.contains_node(a) && !done.contains(a) {
                assert(among.contains(a));
                assert(among.len() > 0) by {
                    if among.len() == 0 {
                        among.lemma_len0_is_empty();
                    }
                }
            }
        }
        assert forall|i: int, j: int|
            0 <= i < done.len() && 0 <= j < done.len() && #[trigger] self.has_arc(
                done[i],
                done[j],
            ) implies i < j by {
            assert(done.take(j).contains(done[i]));
            let m = choose|m: int| 0 <= m < j && done.take(j)[m] == done[i];
            assert(done[m] == done[i]);
        }
    }
}

/// The payloads of the nodes in the topological order ranked by keys: each time, of the
/// nodes whose parents have all been listed, the one with the least key comes next, and of
/// several with that key the one with the least handle.
///
/// `key` is asked for the key of a node once, with the payload of that node, when the node
/// can first come next. The sort is abandoned as soon as `key` fails.
pub fn lexicographical_topological_sort<F: Fn(u64) -> Option<String>>(dag: &PyDAG, key: F) -> (r:
    Result<Vec<u64>, DagError>)
    requires
        dag.wf(),
        forall|n: usize| #[trigger] dag@.contains_node(n) ==> key.requires((dag@.payload(n), )),
    ensures
        match r {
            Ok(v) => exists|keys: Map<usize, String>, s: Seq<usize>|
                {
                    &&& #[trigger] dag@.is_lexicographic(keys, s)
                    &&& forall|n: usize| #[trigger]
                        dag@.contains_node(n) ==> key.ensures((dag@.payload(n), ), Some(keys[n]))
                    &&& v@ == s.map_values(payload_in(dag@.nodes))
                },
            Err(e) => e == DagError::CallbackFailure && exists|n: usize| #[trigger]
                dag@.contains_node(n) && key.ensures((dag@.payload(n), ), None::<String>),
        },
{
    let g = dag.store();
    let ids = graph_node_indices(g);
    proof {
        dag@.lemma_counts();
    }
    let mut in_degree_map: HashMap<usize, usize> = HashMap::new();
    let mut i: usize = 0;
    while i < ids.len()
        invariant
            i <= ids.len(),
            dag.wf(),
            ids@ == dag@.node_ids(),
            ids@.no_duplicates(),
            forall|j: int|
                0 <= j < i ==> in_degree_map@.contains_key(#[trigger] ids@[j])
                    && in_degree_map@[ids@[j]] == dag@.in_edges(ids@[j]).len(),
        decreases ids.len() - i,
    {
        let node = ids[i];
        let degree = dag.in_degree(node);
        in_degree_map.insert(node, degree);
        i += 1;
    }
    let ghost mut keys: Map<usize, String> = Map::empty();
    let mut zero_indegree: Vec<(String, usize)> = Vec::new();
    let mut i: usize = 0;
    while i < ids.len()
        invariant
            i <= ids.len(),
            dag.wf(),
            arena(*g) == dag@,
            ids@ == dag@.node_ids(),
            ids@.no_duplicates(),
            forall|a: usize| #[trigger] ids@.contains(a) <==> dag@.contains_node(a),
            forall|j: int|
                0 <= j < ids.len() ==> in_degree_map@.contains_key(#[trigger] ids@[j])
                    && in_degree_map@[ids@[j]] == dag@.in_edges(ids@[j]).len(),
            queue_nodes(zero_indegree@).no_duplicates(),
            forall|n: usize| #[trigger]
                queue_nodes(zero_indegree@).contains(n) <==> ids@.take(i as int).contains(n)
                    && in_degree_map@[n] == 0,
            forall|m: int|
                0 <= m < zero_indegree.len() ==> keys.dom().contains(
                    (#[trigger] zero_indegree@[m]).1,
                ) && keys[zero_indegree@[m].1] == zero_indegree@[m].0,
            forall|n: usize| #[trigger]
                keys.dom().contains(n) ==> queue_nodes(zero_indegree@).contains(n),
            forall|n: usize| #[trigger]
                keys.dom().contains(n) ==> dag@.contains_node(n) && key.ensures(
                    (dag@.payload(n), ),
                    Some(keys[n]),
                ),
            forall|n: usize| #[trigger] dag@.contains_node(n) ==> key.requires((dag@.payload(n), )),
        decreases ids.len() - i,
    {
        let node = ids[i];
        let ghost qn = queue_nodes(zero_indegree@);
        proof {
            assert(ids@.contains(ids@[i as int]));
            assert(ids@.take(i + 1).drop_last() =~= ids@.take(i as int));
            let seen = ids@.take(i as int);
            assert(ids@.take(i + 1) =~= seen.push(node));
            lemma_push_members(seen, node);
            assert(!seen.contains(node)) by {
                if seen.contains(node) {
                    let m = choose|m: int| 0 <= m < seen.len() && seen[m] == node;
                    assert(ids@[m] == ids@[i as int]);
                }
            }
        }
        if *in_degree_map.get(&node).unwrap() == 0 {
            let payload = graph_node_weight(g, node).unwrap();
            let map_key = match key(payload) {
                Some(map_key) => map_key,
                None => {
                    return Err(DagError::CallbackFailure);
                },
            };
            proof {
                keys = keys.insert(node, map_key);
            }
            zero_indegree.push((map_key, node));
            proof {
                let qn1 = queue_nodes(zero_indegree@);
                assert(qn1 =~= qn.push(node));
                assert forall|n: usize| qn1.contains(n) <==> qn.contains(n) || n == node by {
                    if qn1.contains(n) {
                        let m = choose|m: int| 0 <= m < qn1.len() && qn1[m] == n;
                        if m < qn.len() {
                            assert(qn[m] == n);
                        }
                    }
                    if qn.contains(n) {
                        let m = choose|m: int| 0 <= m < qn.len() && qn[m] == n;
                        assert(qn1[m] == n);
                    }
                    assert(qn1[qn.len() as int] == node);
                }
                assert(qn1.no_duplicates()) by {
                    assert forall|a: int, b: int|
                        0 <= a < qn1.len() && 0 <= b < qn1.len() && a != b implies qn1[a]
                        != qn1[b] by {
                        if a < qn.len() {
                            assert(qn.contains(qn[a]));
                        }
                        if b < qn.len() {
                            assert(qn.contains(qn[b]));
                        }
                    }
                }
                assert forall|m: int| 0 <= m < zero_indegree.len() implies keys.dom().contains(
                    (#[trigger] zero_indegree@[m]).1,
                ) && keys[zero_indegree@[m].1] == zero_indegree@[m].0 by {
                    if m < qn.len() {
                        assert(qn[m] == zero_indegree@[m].1);
                        assert(qn.contains(qn[m]));
                    }
                }
            }
        }
        i += 1;
    }
    let mut out_list: Vec<u64> = Vec::new();
    let ghost mut done: Seq<usize> = Seq::empty();
    proof {
        assert(ids@.take(ids.len() as int) =~= ids@);
        let pend = pending(dag@.edges, done, Seq::empty());
        assert forall|n: usize| #[trigger]
            dag@.contains_node(n) implies in_degree_map@.contains_key(n) && in_degree_map@[n]
            == dag@.in_edges(n).filter(pend).len() by {
            assert(ids@.contains(n));
            let m = choose|m: int| 0 <= m < ids@.len() && ids@[m] == n;
            assert(in_degree_map@.contains_key(ids@[m]));
            lemma_filter_all(dag@.in_edges(n), pend);
        }
        assert(dag@.sorting(keys, done, zero_indegree@, in_degree_map@, pend));
    }
    while zero_indegree.len() > 0
        invariant
            dag.wf(),
            arena(*g) == dag@,
            ids@ == dag@.node_ids(),
            ids@.no_duplicates(),
            forall|a: usize| #[trigger] ids@.contains(a) <==> dag@.contains_node(a),
            dag@.sorting(
                keys,
                done,
                zero_indegree@,
                in_degree_map@,
                pending(dag@.edges, done, Seq::empty()),
            ),
            forall|n: usize| #[trigger]
                keys.dom().contains(n) ==> dag@.contains_node(n) && key.ensures(
                    (dag@.payload(n), ),
                    Some(keys[n]),
                ),
            forall|n: usize| #[trigger] dag@.contains_node(n) ==> key.requires((dag@.payload(n), )),
            out_list@ == done.map_values(payload_in(dag@.nodes)),
            done.len() <= ids.len(),
        decreases ids.len() - done.len(),
    {
        let ghost q0 = zero_indegree@;
        let (least_key, node) = pop_least(&mut zero_indegree);
        proof {
            let at = choose|at: int|
                0 <= at < q0.len() && (least_key, node) == #[trigger] q0[at] && zero_indegree@
                    == q0.remove(at);
            dag@.lemma_sorting_pop(keys, done, q0, in_degree_map@, at);
            let before = done;
            done = done.push(node);
            assert(done.drop_last() =~= before);
            assert forall|x: usize| done.contains(x) implies ids@.contains(x) by {
                let m = choose|m: int| 0 <= m < done.len() && done[m] == x;
                assert(dag@.contains_node(done[m]));
            }
            lemma_no_duplicates_within(done, ids@);
            assert(dag@.out_edges(node).take(0) =~= Seq::<usize>::empty());
            dag@.lemma_neighbour_lists(node);
        }
        let neighbors = graph_neighbors_directed(g, node, Direction::Outgoing);
        let mut j: usize = 0;
        while j < neighbors.len()
            invariant
                j <= neighbors.len(),
                dag.wf(),
                arena(*g) == dag@,
                neighbors@ == dag@.children(node),
                neighbors.len() == dag@.out_edges(node).len(),
                done.len() > 0,
                done.last() == node,
                    dag@.sorting(
                    keys,
                    done,
                    zero_indegree@,
                    in_degree_map@,
                    pending(dag@.edges, done.drop_last(), dag@.out_edges(node).take(j as int)),
                ),
                forall|n: usize| #[trigger]
                    keys.dom().contains(n) ==> dag@.contains_node(n) && key.ensures(
                        (dag@.payload(n), ),
                        Some(keys[n]),
                    ),
                forall|n: usize| #[trigger]
                    dag@.contains_node(n) ==> key.requires((dag@.payload(n), )),
            decreases neighbors.len() - j,
        {
            let child = neighbors[j];
            proof {
                dag@.lemma_sorting_step(
                    keys,
                    done,
                    zero_indegree@,
                    in_degree_map@,
                    j as int,
                    least_key,
                );
            }
            let child_degree = *in_degree_map.get(&child).unwrap() - 1;
            if child_degree == 0 {
                let payload = graph_node_weight(g, child).unwrap();
                let map_key = match key(payload) {
                    Some(map_key) => map_key,
                    None => {
                        return Err(DagError::CallbackFailure);
                    },
                };
                proof {
                    dag@.lemma_sorting_step(
                        keys,
                        done,
                        zero_indegree@,
                        in_degree_map@,
                        j as int,
                        map_key,
                    );
                    keys = keys.insert(child, map_key);
                }
                in_degree_map.insert(child, 0);
                zero_indegree.push((map_key, child));
            } else {
                in_degree_map.insert(child, child_degree);
            }
            j += 1;
        }
        proof {
            assert(dag@.out_edges(node).take(neighbors.len() as int) =~= dag@.out_edges(node));
            dag@.lemma_sorting_next(keys, done, zero_indegree@, in_degree_map@);
            assert(dag@.contains_node(done[done.len() - 1]));
        }
        let w = graph_node_weight(g, node).unwrap();
        out_list.push(w);
        proof {
            assert(done.map_values(payload_in(dag@.nodes)) =~= done.drop_last().map_values(
                payload_in(dag@.nodes),
            ).push(w));
        }
    }
    proof {
        dag@.lemma_sorting_complete(keys, done, zero_indegree@, in_degree_map@);
        lemma_same_members_same_len(done, ids@);
        assert forall|n: usize| #[trigger] dag@.contains_node(n) implies key.ensures(
            (dag@.payload(n), ),
            Some(keys[n]),
        ) by {
            assert(done.contains(n));
            let m = choose|m: int| 0 <= m < done.len() && done[m] == n;
            assert(keys.dom().contains(done[m]));
        }
        assert(dag@.is_lexicographic(keys, done));
    }
    if out_list.len() != ids.len() {
        return Err(DagError::CycleDetected);
    }
    Ok(out_list)
}

} // verus!
