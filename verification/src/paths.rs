//! Walks along the edges, reachability and the absence of cycles.

use crate::model::Arena;
use vstd::prelude::*;

verus! {

impl Arena {
    /// Whether an edge joins the `i`-th node of `p` to the next.
    pub open spec fn arc_at(self, p: Seq<usize>, i: int) -> bool {
        self.has_arc(p[i], p[i + 1])
    }

    /// Whether `p` is a walk: a node, or several with an edge from each to the next.
    pub open spec fn is_walk(self, p: Seq<usize>) -> bool {
        p.len() >= 1 && forall|i: int| 0 <= i < p.len() - 1 ==> #[trigger] self.arc_at(p, i)
    }

    /// Whether `p` is a walk from `a` to `b`.
    pub open spec fn walk_between(self, p: Seq<usize>, a: usize, b: usize) -> bool {
        self.is_walk(p) && p[0] == a && p[p.len() - 1] == b
    }

    /// Whether a walk leads from `a` to `b`. Every node reaches itself.
    pub open spec fn reaches(self, a: usize, b: usize) -> bool {
        exists|p: Seq<usize>| #[trigger] self.walk_between(p, a, b)
    }

    /// Whether no walk of at least one edge returns to its start.
    pub open spec fn acyclic(self) -> bool {
        forall|p: Seq<usize>| #[trigger] self.is_walk(p) && p.len() >= 2 ==> p[0] != p[p.len() - 1]
    }

    /// Whether `s` lists every live node once, each before the nodes that its edges lead to.
    pub open spec fn is_topological(self, s: Seq<usize>) -> bool {
        &&& s.no_duplicates()
        &&& forall|a: usize| #[trigger] s.contains(a) <==> self.contains_node(a)
        &&& forall|i: int, j: int|
            0 <= i < s.len() && 0 <= j < s.len() && #[trigger] self.has_arc(s[i], s[j]) ==> i < j
    }

    /// Whether an edge joins the `i`-th node of `p` and the next, in either direction.
    pub open spec fn link_at(self, p: Seq<usize>, i: int) -> bool {
        self.has_arc(p[i], p[i + 1]) || self.has_arc(p[i + 1], p[i])
    }

    /// Whether `a` and `b` hang together: a chain of edges, each taken in either direction,
    /// leads from one to the other.
    pub open spec fn connected(self, a: usize, b: usize) -> bool {
        exists|p: Seq<usize>|
            p.len() >= 1 && p[0] == a && p[p.len() - 1] == b && forall|i: int|
                0 <= i < p.len() - 1 ==> #[trigger] self.link_at(p, i)
    }

    /// Whether `a` is the live node with the least handle among those it hangs together
    /// with.
    pub open spec fn leads_component(self, a: usize) -> bool {
        self.contains_node(a) && forall|b: usize| #[trigger] self.connected(a, b) ==> a <= b
    }

    /// The number of groups of live nodes that hang together.
    pub open spec fn component_count(self) -> nat {
        Set::new(|a: usize| self.leads_component(a)).len()
    }

    /// The predicate "`n` is another node than `a`, and reaches it".
    pub open spec fn above(self, a: usize) -> spec_fn(usize) -> bool {
        |n: usize| n != a && self.reaches(n, a)
    }

    /// The predicate "`n` is another node than `a`, and is reached from it".
    pub open spec fn below(self, a: usize) -> spec_fn(usize) -> bool {
        |n: usize| n != a && self.reaches(a, n)
    }

    /// Every node reaches itself.
    pub proof fn lemma_reaches_self(self, a: usize)
        ensures
            self.reaches(a, a),
    {
        assert(self.walk_between(seq![a], a, a));
    }

    /// A node reaches each of its children.
    pub proof fn lemma_arc_reaches(self, a: usize, b: usize)
        requires
            self.has_arc(a, b),
        ensures
            self.reaches(a, b),
    {
        let p = seq![a, b];
        assert forall|i: int| 0 <= i < p.len() - 1 implies #[trigger] self.arc_at(p, i) by {}
        assert(self.walk_between(p, a, b));
    }

    /// A walk can be extended by an edge at its end.
    pub proof fn lemma_walk_push(self, p: Seq<usize>, c: usize)
        requires
            self.is_walk(p),
            self.has_arc(p[p.len() - 1], c),
        ensures
            self.is_walk(p.push(c)),
    {
        let q = p.push(c);
        assert forall|i: int| 0 <= i < q.len() - 1 implies #[trigger] self.arc_at(q, i) by {
            if i < p.len() - 1 {
                assert(self.arc_at(p, i));
            }
        }
    }

    /// Two walks that meet make one walk.
    pub proof fn lemma_walk_join(self, p: Seq<usize>, q: Seq<usize>)
        requires
            self.is_walk(p),
            self.is_walk(q),
            p[p.len() - 1] == q[0],
        ensures
            self.is_walk(p + q.subrange(1, q.len() as int)),
            (p + q.subrange(1, q.len() as int))[0] == p[0],
            (p + q.subrange(1, q.len() as int)).last() == q.last(),
    {
        let r = p + q.subrange(1, q.len() as int);
        assert forall|i: int| 0 <= i < r.len() - 1 implies #[trigger] self.arc_at(r, i) by {
            if i < p.len() - 1 {
                assert(self.arc_at(p, i));
            } else {
                assert(self.arc_at(q, i - p.len() + 1));
            }
        }
    }

    /// A stretch of a walk is a walk.
    pub proof fn lemma_walk_part(self, p: Seq<usize>, from: int, to: int)
        requires
            self.is_walk(p),
            0 <= from < to <= p.len(),
        ensures
            self.is_walk(p.subrange(from, to)),
    {
        let r = p.subrange(from, to);
        assert forall|i: int| 0 <= i < r.len() - 1 implies #[trigger] self.arc_at(r, i) by {
            assert(self.arc_at(p, from + i));
        }
    }

    /// A node reaches the children of each node that it reaches.
    pub proof fn lemma_reaches_then_arc(self, a: usize, b: usize, c: usize)
        requires
            self.reaches(a, b),
            self.has_arc(b, c),
        ensures
            self.reaches(a, c),
    {
        let p = choose|p: Seq<usize>| self.walk_between(p, a, b);
        self.lemma_walk_push(p, c);
        assert(self.walk_between(p.push(c), a, c));
    }

    /// A node reaches what the nodes that it reaches do.
    pub proof fn lemma_reaches_trans(self, a: usize, b: usize, c: usize)
        requires
            self.reaches(a, b),
            self.reaches(b, c),
        ensures
            self.reaches(a, c),
    {
        let p = choose|p: Seq<usize>| self.walk_between(p, a, b);
        let q = choose|q: Seq<usize>| self.walk_between(q, b, c);
        self.lemma_walk_join(p, q);
        assert(self.walk_between(p + q.subrange(1, q.len() as int), a, c));
    }

    /// A node that reaches another one does so through one of its own children.
    pub proof fn lemma_reaches_first_arc(self, a: usize, b: usize) -> (c: usize)
        requires
            self.reaches(a, b),
            a != b,
        ensures
            self.has_arc(a, c),
            self.reaches(c, b),
    {
        let p = choose|p: Seq<usize>| self.walk_between(p, a, b);
        assert(self.arc_at(p, 0));
        self.lemma_walk_part(p, 1, p.len() as int);
        assert(self.walk_between(p.subrange(1, p.len() as int), p[1], b));
        p[1]
    }

    /// A node that is reached from another one is reached through one of its own parents.
    pub proof fn lemma_reaches_last_arc(self, a: usize, b: usize) -> (c: usize)
        requires
            self.reaches(a, b),
            a != b,
        ensures
            self.reaches(a, c),
            self.has_arc(c, b),
    {
        let p = choose|p: Seq<usize>| self.walk_between(p, a, b);
        assert(self.arc_at(p, p.len() - 2));
        self.lemma_walk_part(p, 0, p.len() - 1);
        assert(self.walk_between(p.subrange(0, p.len() - 1), a, p[p.len() - 2]));
        p[p.len() - 2]
    }

    /// In a graph without cycles no edge leads back along a walk.
    pub proof fn lemma_acyclic_no_return(self, a: usize, b: usize)
        requires
            self.acyclic(),
            self.has_arc(a, b),
        ensures
            !self.reaches(b, a),
    {
        if self.reaches(b, a) {
            let p = choose|p: Seq<usize>| self.walk_between(p, b, a);
            self.lemma_walk_push(p, b);
            assert(self.is_walk(p.push(b)));
        }
    }

    /// A graph whose edges all join nodes that another, acyclic, graph joins is acyclic.
    pub proof fn lemma_fewer_arcs_acyclic(self, before: Arena)
        requires
            before.acyclic(),
            forall|a: usize, b: usize| #[trigger] self.has_arc(a, b) ==> before.has_arc(a, b),
        ensures
            self.acyclic(),
    {
        assert forall|p: Seq<usize>| #[trigger] self.is_walk(p) && p.len() >= 2 implies p[0]
            != p[p.len() - 1] by {
            assert forall|i: int| 0 <= i < p.len() - 1 implies #[trigger] before.arc_at(p, i) by {
                assert(self.arc_at(p, i));
            }
            assert(before.is_walk(p));
        }
    }

    /// A walk in a graph with one more joined pair `a`, `b` either is a walk of the graph
    /// before, or passes from `a` to `b`.
    pub proof fn lemma_walk_with_new_arc(self, before: Arena, a: usize, b: usize, p: Seq<usize>)
        requires
            forall|x: usize, y: usize| #[trigger]
                self.has_arc(x, y) ==> before.has_arc(x, y) || (x == a && y == b),
            self.is_walk(p),
        ensures
            before.is_walk(p) || (before.reaches(p[0], a) && before.reaches(b, p[p.len() - 1])),
        decreases p.len(),
    {
        if p.len() >= 2 {
            let q = p.subrange(0, p.len() - 1);
            self.lemma_walk_part(p, 0, p.len() - 1);
            self.lemma_walk_with_new_arc(before, a, b, q);
            let y = q[q.len() - 1];
            let z = p[p.len() - 1];
            assert(self.arc_at(p, p.len() - 2));
            if before.has_arc(y, z) {
                if before.is_walk(q) {
                    before.lemma_walk_push(q, z);
                    assert(q.push(z) =~= p);
                } else {
                    before.lemma_reaches_then_arc(b, y, z);
                }
            } else {
                before.lemma_reaches_self(b);
                if before.is_walk(q) {
                    assert(before.walk_between(q, p[0], a));
                }
            }
        } else {
            assert forall|i: int| 0 <= i < p.len() - 1 implies #[trigger] before.arc_at(p, i) by {}
        }
    }

    /// Joining `a` to `b` closes no cycle unless `b` already reaches `a`.
    pub proof fn lemma_new_arc_acyclic(self, before: Arena, a: usize, b: usize)
        requires
            before.acyclic(),
            !before.reaches(b, a),
            forall|x: usize, y: usize| #[trigger]
                self.has_arc(x, y) ==> before.has_arc(x, y) || (x == a && y == b),
        ensures
            self.acyclic(),
    {
        assert forall|p: Seq<usize>| #[trigger] self.is_walk(p) && p.len() >= 2 implies p[0]
            != p[p.len() - 1] by {
            self.lemma_walk_with_new_arc(before, a, b, p);
            if p[0] == p[p.len() - 1] && !before.is_walk(p) {
                before.lemma_reaches_trans(b, p[0], a);
            }
        }
    }

    /// When the search is skipped, `b` does not reach `a`: nothing enters `a`, or nothing
    /// leaves `b`, or an edge from `a` to `b` is there already.
    pub proof fn lemma_no_search_needed(self, a: usize, b: usize)
        requires
            self.well_formed(),
            self.acyclic(),
            a != b,
            self.parents(a).len() == 0 || self.children(b).len() == 0 || self.has_arc(a, b),
        ensures
            !self.reaches(b, a),
    {
        if self.reaches(b, a) {
            if self.has_arc(a, b) {
                self.lemma_acyclic_no_return(a, b);
            } else if self.parents(a).len() == 0 {
                let c = self.lemma_reaches_last_arc(b, a);
                self.lemma_neighbour_lists(a);
                assert(self.parents(a).contains(c));
            } else {
                let c = self.lemma_reaches_first_arc(b, a);
                self.lemma_neighbour_lists(b);
                assert(self.children(b).contains(c));
            }
        }
    }

    /// A new node with one edge to or from a node `other` closes no cycle.
    pub proof fn lemma_new_node_attached(self, other: usize, w: u64, edge: u64, below: bool)
        requires
            self.well_formed(),
            self.acyclic(),
            self.has_node_room(),
            self.has_edge_room(),
            self.contains_node(other),
        ensures
            ({
                let n = self.next_node_id();
                let g = self.insert_node(w);
                let h = if below {
                    g.insert_edge(other, n, edge)
                } else {
                    g.insert_edge(n, other, edge)
                };
                g.well_formed() && g.has_edge_room() && g.contains_node(n) && g.contains_node(other)
                    && h.well_formed() && h.acyclic()
            }),
    {
        let n = self.next_node_id();
        let g = self.insert_node(w);
        self.lemma_insert_node(w);
        g.lemma_fewer_arcs_acyclic(self);
        assert(g.contains_node(other));
        assert forall|x: usize| !g.has_arc(n, x) && !g.has_arc(x, n) by {
            if self.has_arc(n, x) {
                self.lemma_arc_ends_live(n, x);
            }
            if self.has_arc(x, n) {
                self.lemma_arc_ends_live(x, n);
            }
        }
        if below {
            g.lemma_insert_edge(other, n, edge);
            if g.reaches(n, other) {
                let c = g.lemma_reaches_first_arc(n, other);
            }
            g.insert_edge(other, n, edge).lemma_new_arc_acyclic(g, other, n);
        } else {
            g.lemma_insert_edge(n, other, edge);
            if g.reaches(other, n) {
                let c = g.lemma_reaches_last_arc(other, n);
            }
            g.insert_edge(n, other, edge).lemma_new_arc_acyclic(g, n, other);
        }
    }

    /// However long, a walk can be found that ends in a given node of a set in which every
    /// node has a parent.
    pub proof fn lemma_walk_back(self, among: Set<usize>, n: usize, k: nat) -> (p: Seq<usize>)
        requires
            among.contains(n),
            forall|m: usize|
                among.contains(m) ==> exists|c: usize| among.contains(c) && #[trigger] self.has_arc(
                    c,
                    m,
                ),
        ensures
            self.is_walk(p),
            p.len() == k + 1,
            forall|i: int| 0 <= i < p.len() ==> among.contains(#[trigger] p[i]),
        decreases k,
    {
        if k == 0 {
            seq![n]
        } else {
            let c = choose|c: usize| among.contains(c) && #[trigger] self.has_arc(c, n);
            let q = self.lemma_walk_back(among, c, (k - 1) as nat);
            let first = choose|c: usize| among.contains(c) && #[trigger] self.has_arc(c, q[0]);
            let p = seq![first] + q;
            assert forall|i: int| 0 <= i < p.len() - 1 implies #[trigger] self.arc_at(p, i) by {
                if i > 0 {
                    assert(self.arc_at(q, i - 1));
                }
            }
            p
        }
    }

    /// In a graph without cycles, a finite set of nodes in which every node has a parent is
    /// empty.
    pub proof fn lemma_some_node_has_no_parent(self, among: Set<usize>)
        requires
            self.acyclic(),
            among.finite(),
            forall|m: usize|
                among.contains(m) ==> exists|c: usize| among.contains(c) && #[trigger] self.has_arc(
                    c,
                    m,
                ),
        ensures
            among.len() == 0,
    {
        if among.len() > 0 {
            let n = among.choose();
            let p = self.lemma_walk_back(among, n, among.len());
            if p.no_duplicates() {
                p.unique_seq_to_set();
                assert(p.to_set().subset_of(among)) by {
                    assert forall|x: usize| p.to_set().contains(x) implies among.contains(x) by {
                        let i = choose|i: int| 0 <= i < p.len() && p[i] == x;
                    }
                }
                vstd::set_lib::lemma_len_subset(p.to_set(), among);
            } else {
                let (i, j) = choose|i: int, j: int|
                    0 <= i < p.len() && 0 <= j < p.len() && i != j && p[i] == p[j];
                let (lo, hi) = if i < j {
                    (i, j)
                } else {
                    (j, i)
                };
                self.lemma_walk_part(p, lo, hi + 1);
                let c = p.subrange(lo, hi + 1);
                assert(c[0] == c[c.len() - 1]);
            }
        }
    }
}

} // verus!
