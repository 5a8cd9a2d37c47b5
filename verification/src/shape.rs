//! Each change to the graph keeps its slots, free lists and edge order well formed.

use crate::model::{avoids, enters_from_other, is_arc, leaves, live, other_than, Arena};
use crate::seqs::{
    lemma_concat_members, lemma_cons_members, lemma_filter_mem, lemma_filter_no_duplicates,
    lemma_reverse_members, lemma_tail_members,
};
use vstd::prelude::*;

verus! {

impl Arena {
    /// The graph without nodes is well formed and has no cycle.
    pub proof fn lemma_empty_well_formed()
        ensures
            Arena::empty().well_formed(),
            Arena::empty().acyclic(),
    {
        let g = Arena::empty();
        assert forall|p: Seq<usize>| #[trigger] g.is_walk(p) && p.len() >= 2 implies p[0] != p[p.len()
            - 1] by {
            assert(g.arc_at(p, 0));
        }
    }

    /// A new node takes a slot that was vacant; the other slots and all edges stay.
    pub proof fn lemma_insert_node(self, w: u64)
        requires
            self.well_formed(),
            self.has_node_room(),
        ensures
            self.insert_node(w).well_formed(),
            !self.contains_node(self.next_node_id()),
            self.next_node_id() < u32::MAX,
            self.insert_node(w).contains_node(self.next_node_id()),
            self.insert_node(w).payload(self.next_node_id()) == w,
            forall|a: usize|
                a != self.next_node_id() ==> #[trigger] self.insert_node(w).contains_node(a)
                    == self.contains_node(a),
            forall|a: usize| #[trigger]
                self.contains_node(a) ==> self.insert_node(w).payload(a) == self.payload(a),
    {
        let n = self.insert_node(w);
        let i = self.next_node_id();
        if self.free_nodes.len() > 0 {
            assert(self.free_nodes.contains(self.free_nodes[0]));
            lemma_tail_members(self.free_nodes);
        } else {
            assert forall|a: usize| a < self.nodes.len() implies self.nodes[a as int] is Some by {
                assert(!self.free_nodes.contains(a));
            }
        }
        assert forall|a: usize| #[trigger]
            n.free_nodes.contains(a) <==> a < n.nodes.len() && n.nodes[a as int] is None by {
            assert(self.free_nodes.contains(a) <==> a < self.nodes.len() && self.nodes[a as int] is None);
        }
        assert forall|e: usize| #[trigger] n.contains_edge(e) implies n.contains_node(n.source(e))
            && n.contains_node(n.target(e)) by {
            assert(self.contains_edge(e));
        }
        assert forall|e: usize| #[trigger] n.order.contains(e) <==> n.contains_edge(e) by {
            assert(self.order.contains(e) <==> self.contains_edge(e));
        }
        assert forall|e: usize| #[trigger]
            n.free_edges.contains(e) <==> e < n.edges.len() && n.edges[e as int] is None by {
            assert(self.free_edges.contains(e) <==> e < self.edges.len() && self.edges[e as int] is None);
        }
    }

    /// A new edge takes a slot that was vacant and joins its two endpoints; the other slots
    /// stay.
    pub proof fn lemma_insert_edge(self, a: usize, b: usize, w: u64)
        requires
            self.well_formed(),
            self.contains_node(a),
            self.contains_node(b),
            self.has_edge_room(),
        ensures
            self.insert_edge(a, b, w).well_formed(),
            !self.contains_edge(self.next_edge_id()),
            self.next_edge_id() < u32::MAX,
            is_arc(self.insert_edge(a, b, w).edges, self.next_edge_id(), a, b),
            self.insert_edge(a, b, w).weight(self.next_edge_id()) == w,
            forall|e: usize, x: usize, y: usize|
                e != self.next_edge_id() ==> #[trigger] is_arc(
                    self.insert_edge(a, b, w).edges,
                    e,
                    x,
                    y,
                ) == is_arc(self.edges, e, x, y),
            forall|x: usize, y: usize| #[trigger]
                self.insert_edge(a, b, w).has_arc(x, y) <==> self.has_arc(x, y) || (x == a && y
                    == b),
    {
        let n = self.insert_edge(a, b, w);
        let i = self.next_edge_id();
        if self.free_edges.len() > 0 {
            assert(self.free_edges.contains(self.free_edges[0]));
            lemma_tail_members(self.free_edges);
        } else {
            assert forall|e: usize| e < self.edges.len() implies self.edges[e as int] is Some by {
                assert(!self.free_edges.contains(e));
            }
        }
        assert(!self.contains_edge(i));
        assert(!self.order.contains(i));
        lemma_cons_members(i, self.order);
        assert forall|e: usize| #[trigger]
            n.free_edges.contains(e) <==> e < n.edges.len() && n.edges[e as int] is None by {
            assert(self.free_edges.contains(e) <==> e < self.edges.len() && self.edges[e as int] is None);
        }
        assert forall|e: usize| #[trigger] n.contains_edge(e) implies n.contains_node(n.source(e))
            && n.contains_node(n.target(e)) by {
            if e != i {
                assert(self.contains_edge(e));
            }
        }
        assert forall|e: usize| #[trigger] n.order.contains(e) <==> n.contains_edge(e) by {
            assert(self.order.contains(e) <==> self.contains_edge(e));
        }
        assert forall|f: usize| #[trigger]
            n.free_nodes.contains(f) <==> f < n.nodes.len() && n.nodes[f as int] is None by {
            assert(self.free_nodes.contains(f) <==> f < self.nodes.len() && self.nodes[f as int] is None);
        }
        assert forall|x: usize, y: usize| #[trigger]
            n.has_arc(x, y) <==> self.has_arc(x, y) || (x == a && y == b) by {
            if n.has_arc(x, y) {
                let e = choose|e: usize| is_arc(n.edges, e, x, y);
                if e != i {
                    assert(is_arc(self.edges, e, x, y));
                }
            }
            if self.has_arc(x, y) {
                let e = choose|e: usize| is_arc(self.edges, e, x, y);
                assert(is_arc(n.edges, e, x, y));
            }
            if x == a && y == b {
                assert(is_arc(n.edges, i, x, y));
            }
        }
    }

    /// A new edge joins its two endpoints and no other nodes, whether or not there is room
    /// for it.
    pub proof fn lemma_insert_edge_arcs(self, a: usize, b: usize, w: u64)
        requires
            self.well_formed(),
        ensures
            self.insert_edge(a, b, w).has_arc(a, b),
            forall|x: usize, y: usize| #[trigger]
                self.insert_edge(a, b, w).has_arc(x, y) ==> self.has_arc(x, y) || (x == a && y
                    == b),
    {
        let n = self.insert_edge(a, b, w);
        let i = self.next_edge_id();
        if self.free_edges.len() > 0 {
            assert(self.free_edges.contains(self.free_edges[0]));
        }
        assert(is_arc(n.edges, i, a, b));
        assert forall|x: usize, y: usize| #[trigger] n.has_arc(x, y) implies self.has_arc(x, y) || (
        x == a && y == b) by {
            let e = choose|e: usize| is_arc(n.edges, e, x, y);
            if e != i {
                assert(is_arc(self.edges, e, x, y));
            }
        }
    }

    /// Removing an edge vacates its slot and nothing else.
    pub proof fn lemma_delete_edge(self, e: usize)
        requires
            self.well_formed(),
        ensures
            self.delete_edge(e).well_formed(),
            forall|x: usize, y: usize| #[trigger]
                self.delete_edge(e).has_arc(x, y) ==> self.has_arc(x, y),
    {
        let n = self.delete_edge(e);
        if self.contains_edge(e) {
            assert(!self.free_edges.contains(e));
            lemma_cons_members(e, self.free_edges);
            lemma_filter_no_duplicates(self.order, other_than(e));
            assert forall|x: usize| #[trigger] n.order.contains(x) <==> n.contains_edge(x) by {
                lemma_filter_mem(self.order, other_than(e), x);
                assert(self.order.contains(x) <==> self.contains_edge(x));
            }
            assert forall|x: usize| #[trigger]
                n.free_edges.contains(x) <==> x < n.edges.len() && n.edges[x as int] is None by {
                assert(self.free_edges.contains(x) <==> x < self.edges.len() && self.edges[x as int] is None);
            }
            assert forall|x: usize| #[trigger] n.contains_edge(x) implies n.contains_node(
                n.source(x),
            ) && n.contains_node(n.target(x)) by {
                assert(self.contains_edge(x));
            }
            assert forall|f: usize| #[trigger]
                n.free_nodes.contains(f) <==> f < n.nodes.len() && n.nodes[f as int] is None by {
                assert(self.free_nodes.contains(f) <==> f < self.nodes.len() && self.nodes[f as int] is None);
            }
        }
        assert forall|x: usize, y: usize| #[trigger] n.has_arc(x, y) implies self.has_arc(x, y) by {
            let f = choose|f: usize| is_arc(n.edges, f, x, y);
            assert(is_arc(self.edges, f, x, y));
        }
    }

    /// Removing a node vacates its slot and the slots of the edges that touched it.
    pub proof fn lemma_delete_node(self, a: usize)
        requires
            self.well_formed(),
        ensures
            self.delete_node(a).well_formed(),
            forall|e: usize, x: usize, y: usize| #[trigger]
                is_arc(self.delete_node(a).edges, e, x, y) <==> is_arc(self.edges, e, x, y) && x != a
                    && y != a,
            forall|x: usize, y: usize| #[trigger]
                self.delete_node(a).has_arc(x, y) <==> self.has_arc(x, y) && x != a && y != a,
    {
        let n = self.delete_node(a);
        if self.contains_node(a) {
            assert(!self.free_nodes.contains(a));
            lemma_cons_members(a, self.free_nodes);
            lemma_filter_no_duplicates(self.order, avoids(self.edges, a));
            let f_in = self.order.filter(enters_from_other(self.edges, a));
            let f_out = self.order.filter(leaves(self.edges, a));
            lemma_filter_no_duplicates(self.order, enters_from_other(self.edges, a));
            lemma_filter_no_duplicates(self.order, leaves(self.edges, a));
            lemma_reverse_members(f_in);
            lemma_reverse_members(f_out);
            assert forall|x: usize| f_in.contains(x) <==> enters_from_other(self.edges, a)(x) by {
                lemma_filter_mem(self.order, enters_from_other(self.edges, a), x);
                assert(self.order.contains(x) <==> self.contains_edge(x));
            }
            assert forall|x: usize| f_out.contains(x) <==> leaves(self.edges, a)(x) by {
                lemma_filter_mem(self.order, leaves(self.edges, a), x);
                assert(self.order.contains(x) <==> self.contains_edge(x));
            }
            assert forall|x: usize| !(f_out.reverse().contains(x) && self.free_edges.contains(x)) by {
                assert(self.free_edges.contains(x) <==> x < self.edges.len() && self.edges[x as int] is None);
            }
            lemma_concat_members(f_out.reverse(), self.free_edges);
            let tail = f_out.reverse() + self.free_edges;
            assert forall|x: usize| !(f_in.reverse().contains(x) && tail.contains(x)) by {
                assert(self.free_edges.contains(x) <==> x < self.edges.len() && self.edges[x as int] is None);
            }
            lemma_concat_members(f_in.reverse(), tail);
            assert(n.free_edges =~= f_in.reverse() + tail);
            assert forall|x: usize| #[trigger]
                n.free_edges.contains(x) <==> x < n.edges.len() && n.edges[x as int] is None by {
                assert(self.free_edges.contains(x) <==> x < self.edges.len() && self.edges[x as int] is None);
                assert(avoids(self.edges, a)(x) <==> !(live(self.edges, x) && (self.source(x) == a
                    || self.target(x) == a)));
                assert(n.free_edges.contains(x) <==> f_in.reverse().contains(x) || tail.contains(x));
                assert(tail.contains(x) <==> f_out.reverse().contains(x) || self.free_edges.contains(
                    x,
                ));
                assert(f_in.contains(x) <==> enters_from_other(self.edges, a)(x));
                assert(f_out.contains(x) <==> leaves(self.edges, a)(x));
                if x < n.edges.len() {
                    assert(n.edges[x as int] == if avoids(self.edges, a)(x) {
                        self.edges[x as int]
                    } else {
                        None
                    });
                }
            }
            assert forall|x: usize| #[trigger] n.order.contains(x) <==> n.contains_edge(x) by {
                lemma_filter_mem(self.order, avoids(self.edges, a), x);
                assert(self.order.contains(x) <==> self.contains_edge(x));
            }
            assert forall|x: usize| #[trigger] n.contains_edge(x) implies n.contains_node(
                n.source(x),
            ) && n.contains_node(n.target(x)) by {
                assert(self.contains_edge(x));
            }
            assert forall|f: usize| #[trigger]
                n.free_nodes.contains(f) <==> f < n.nodes.len() && n.nodes[f as int] is None by {
                assert(self.free_nodes.contains(f) <==> f < self.nodes.len() && self.nodes[f as int] is None);
            }
            assert forall|e: usize, x: usize, y: usize| #[trigger]
                is_arc(n.edges, e, x, y) <==> is_arc(self.edges, e, x, y) && x != a && y != a by {
                assert(avoids(self.edges, a)(e) <==> !(live(self.edges, e) && (self.source(e) == a
                    || self.target(e) == a)));
            }
        } else {
            assert forall|e: usize, x: usize, y: usize| #[trigger]
                is_arc(n.edges, e, x, y) <==> is_arc(self.edges, e, x, y) && x != a && y != a by {
                if is_arc(self.edges, e, x, y) {
                    assert(self.contains_edge(e));
                }
            }
        }
        assert forall|x: usize, y: usize| #[trigger]
            n.has_arc(x, y) <==> self.has_arc(x, y) && x != a && y != a by {
            if n.has_arc(x, y) {
                let f = choose|f: usize| is_arc(n.edges, f, x, y);
                assert(is_arc(self.edges, f, x, y));
            }
            if self.has_arc(x, y) && x != a && y != a {
                let f = choose|f: usize| is_arc(self.edges, f, x, y);
                assert(is_arc(n.edges, f, x, y));
            }
        }
    }
}

} // verus!
