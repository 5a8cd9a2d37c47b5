//! What the edge lists of a well-formed graph hold.

use crate::model::{
    enters, enters_from_other, indices, is_arc, joins, leaves, live, live_ids, occupied, vacant, Arena,
};
use crate::seqs::{
    lemma_filter_mem, lemma_filter_no_duplicates, lemma_filter_none, lemma_filter_split_len,
    lemma_same_members_same_len,
};
use vstd::prelude::*;

verus! {

/// The occupied indices are exactly the live ones, each listed once.
pub proof fn lemma_live_ids<T>(slots: Seq<Option<T>>)
    requires
        slots.len() <= usize::MAX,
    ensures
        live_ids(slots).no_duplicates(),
        forall|i: usize| #[trigger] live_ids(slots).contains(i) <==> live(slots, i),
        live_ids(slots).len() <= slots.len(),
{
    let all = indices(slots.len());
    assert(all.no_duplicates());
    lemma_filter_no_duplicates(all, occupied(slots));
    all.lemma_filter_len(occupied(slots));
    assert forall|i: usize| #[trigger] live_ids(slots).contains(i) <==> live(slots, i) by {
        lemma_filter_mem(all, occupied(slots), i);
        if live(slots, i) {
            assert(all[i as int] == i);
        }
    }
}

/// A free list that holds each vacant slot once is as long as there are vacant slots.
pub proof fn lemma_slot_count<T>(slots: Seq<Option<T>>, free: Seq<usize>)
    requires
        slots.len() <= usize::MAX,
        free.no_duplicates(),
        forall|i: usize| #[trigger] free.contains(i) <==> i < slots.len() && slots[i as int] is None,
    ensures
        live_ids(slots).len() + free.len() == slots.len(),
{
    let all = indices(slots.len());
    assert(all.no_duplicates());
    lemma_filter_split_len(all, occupied(slots), vacant(slots));
    let v = all.filter(vacant(slots));
    lemma_filter_no_duplicates(all, vacant(slots));
    assert forall|i: usize| v.contains(i) <==> free.contains(i) by {
        lemma_filter_mem(all, vacant(slots), i);
        if free.contains(i) {
            assert(all[i as int] == i);
        }
        if v.contains(i) {
            let k = choose|k: int| 0 <= k < all.len() && all[k] == i;
            assert(i < slots.len());
        }
    }
    lemma_same_members_same_len(v, free);
}

impl Arena {
    /// The members of the edge lists.
    pub proof fn lemma_edge_lists(self, a: usize, b: usize)
        requires
            self.well_formed(),
        ensures
            forall|e: usize| #[trigger]
                self.out_edges(a).contains(e) <==> self.contains_edge(e) && self.source(e) == a,
            forall|e: usize| #[trigger]
                self.in_edges(a).contains(e) <==> self.contains_edge(e) && self.target(e) == a,
            forall|e: usize| #[trigger]
                self.edges_between(a, b).contains(e) <==> is_arc(self.edges, e, a, b),
            self.out_edges(a).no_duplicates(),
            self.in_edges(a).no_duplicates(),
            self.edges_between(a, b).no_duplicates(),
    {
        lemma_filter_no_duplicates(self.order, leaves(self.edges, a));
        lemma_filter_no_duplicates(self.order, enters(self.edges, a));
        lemma_filter_no_duplicates(self.order, joins(self.edges, a, b));
        assert forall|e: usize| #[trigger]
            self.out_edges(a).contains(e) <==> self.contains_edge(e) && self.source(e) == a by {
            lemma_filter_mem(self.order, leaves(self.edges, a), e);
            assert(self.order.contains(e) <==> self.contains_edge(e));
        }
        assert forall|e: usize| #[trigger]
            self.in_edges(a).contains(e) <==> self.contains_edge(e) && self.target(e) == a by {
            lemma_filter_mem(self.order, enters(self.edges, a), e);
            assert(self.order.contains(e) <==> self.contains_edge(e));
        }
        assert forall|e: usize| #[trigger]
            self.edges_between(a, b).contains(e) <==> is_arc(self.edges, e, a, b) by {
            lemma_filter_mem(self.order, joins(self.edges, a, b), e);
            assert(self.order.contains(e) <==> self.contains_edge(e));
        }
    }

    /// Each entry of the lists of children and parents is a live node joined to `a`.
    pub proof fn lemma_neighbour_lists(self, a: usize)
        requires
            self.well_formed(),
        ensures
            self.children(a).len() == self.out_edges(a).len(),
            self.parents(a).len() == self.in_edges(a).len(),
            forall|i: int|
                0 <= i < self.children(a).len() ==> self.contains_node(
                    #[trigger] self.children(a)[i],
                ) && self.has_arc(a, self.children(a)[i]) && is_arc(
                    self.edges,
                    self.out_edges(a)[i],
                    a,
                    self.children(a)[i],
                ),
            forall|i: int|
                0 <= i < self.parents(a).len() ==> self.contains_node(#[trigger] self.parents(a)[i])
                    && self.has_arc(self.parents(a)[i], a) && is_arc(
                    self.edges,
                    self.in_edges(a)[i],
                    self.parents(a)[i],
                    a,
                ),
            forall|c: usize| self.has_arc(a, c) <==> #[trigger] self.children(a).contains(c),
            forall|c: usize| self.has_arc(c, a) <==> #[trigger] self.parents(a).contains(c),
    {
        self.lemma_edge_lists(a, a);
        assert forall|i: int| 0 <= i < self.children(a).len() implies self.contains_node(
            #[trigger] self.children(a)[i],
        ) && self.has_arc(a, self.children(a)[i]) && is_arc(
            self.edges,
            self.out_edges(a)[i],
            a,
            self.children(a)[i],
        ) by {
            let e = self.out_edges(a)[i];
            assert(self.out_edges(a).contains(e));
            assert(self.contains_edge(e));
            assert(is_arc(self.edges, e, a, self.children(a)[i]));
        }
        assert forall|i: int| 0 <= i < self.parents(a).len() implies self.contains_node(
            #[trigger] self.parents(a)[i],
        ) && self.has_arc(self.parents(a)[i], a) && is_arc(
            self.edges,
            self.in_edges(a)[i],
            self.parents(a)[i],
            a,
        ) by {
            let e = self.in_edges(a)[i];
            assert(self.in_edges(a).contains(e));
            assert(self.contains_edge(e));
            assert(is_arc(self.edges, e, self.parents(a)[i], a));
        }
        assert forall|c: usize| self.has_arc(a, c) <==> #[trigger] self.children(a).contains(c) by {
            if self.has_arc(a, c) {
                let e = choose|e: usize| is_arc(self.edges, e, a, c);
                assert(self.out_edges(a).contains(e));
                let i = choose|i: int| 0 <= i < self.out_edges(a).len() && self.out_edges(a)[i] == e;
                assert(self.children(a)[i] == c);
            }
            if self.children(a).contains(c) {
                let i = choose|i: int| 0 <= i < self.children(a).len() && self.children(a)[i] == c;
                assert(self.has_arc(a, self.children(a)[i]));
            }
        }
        assert forall|c: usize| self.has_arc(c, a) <==> #[trigger] self.parents(a).contains(c) by {
            if self.has_arc(c, a) {
                let e = choose|e: usize| is_arc(self.edges, e, c, a);
                assert(self.in_edges(a).contains(e));
                let i = choose|i: int| 0 <= i < self.in_edges(a).len() && self.in_edges(a)[i] == e;
                assert(self.parents(a)[i] == c);
            }
            if self.parents(a).contains(c) {
                let i = choose|i: int| 0 <= i < self.parents(a).len() && self.parents(a)[i] == c;
                assert(self.has_arc(self.parents(a)[i], a));
            }
        }
    }

    /// The edge that is found first between two nodes exists exactly if some edge joins them.
    pub proof fn lemma_first_edge(self, a: usize, b: usize)
        requires
            self.well_formed(),
        ensures
            self.first_edge(a, b) is Some <==> self.has_arc(a, b),
            self.first_edge(a, b) is Some ==> is_arc(self.edges, self.first_edge(a, b)->0, a, b),
    {
        self.lemma_edge_lists(a, b);
        let s = self.edges_between(a, b);
        if s.len() > 0 {
            assert(s.contains(s[0]));
        }
        if self.has_arc(a, b) {
            let e = choose|e: usize| is_arc(self.edges, e, a, b);
            assert(s.contains(e));
        }
    }

    /// Edges join live nodes only.
    pub proof fn lemma_arc_ends_live(self, a: usize, b: usize)
        requires
            self.well_formed(),
            self.has_arc(a, b),
        ensures
            self.contains_node(a),
            self.contains_node(b),
    {
        let e = choose|e: usize| is_arc(self.edges, e, a, b);
        assert(self.contains_edge(e));
    }

    /// No edge touches an index that is not a live node.
    pub proof fn lemma_dead_node_isolated(self, a: usize)
        requires
            self.well_formed(),
            !self.contains_node(a),
        ensures
            self.out_edges(a) == Seq::<usize>::empty(),
            self.in_edges(a) == Seq::<usize>::empty(),
            self.children(a) == Seq::<usize>::empty(),
            self.parents(a) == Seq::<usize>::empty(),
            self.neighbours(a) == Seq::<usize>::empty(),
            forall|b: usize| !self.has_arc(a, b) && !self.has_arc(b, a),
            forall|b: usize| #[trigger] self.first_edge(a, b) is None,
            forall|b: usize| #[trigger] self.first_edge(b, a) is None,
            forall|b: usize| #[trigger] self.edges_between(a, b) == Seq::<usize>::empty(),
    {
        assert forall|i: int| 0 <= i < self.order.len() implies !leaves(self.edges, a)(
            #[trigger] self.order[i],
        ) && !enters(self.edges, a)(self.order[i]) && !enters_from_other(self.edges, a)(
            self.order[i],
        ) by {
            assert(self.order.contains(self.order[i]));
            assert(self.contains_edge(self.order[i]));
        }
        lemma_filter_none(self.order, leaves(self.edges, a));
        lemma_filter_none(self.order, enters(self.edges, a));
        lemma_filter_none(self.order, enters_from_other(self.edges, a));
        assert(self.children(a) =~= Seq::<usize>::empty());
        assert(self.parents(a) =~= Seq::<usize>::empty());
        assert(self.neighbours(a) =~= Seq::<usize>::empty());
        assert forall|b: usize| !self.has_arc(a, b) && !self.has_arc(b, a) by {
            if self.has_arc(a, b) {
                self.lemma_arc_ends_live(a, b);
            }
            if self.has_arc(b, a) {
                self.lemma_arc_ends_live(b, a);
            }
        }
        assert forall|b: usize| #[trigger] self.first_edge(a, b) is None by {
            self.lemma_first_edge(a, b);
        }
        assert forall|b: usize| #[trigger] self.first_edge(b, a) is None by {
            self.lemma_first_edge(b, a);
        }
        assert forall|b: usize| #[trigger] self.edges_between(a, b) == Seq::<usize>::empty() by {
            self.lemma_first_edge(a, b);
            assert(self.edges_between(a, b) =~= Seq::<usize>::empty());
        }
    }

    /// Live and vacant slots together are all the slots.
    pub proof fn lemma_counts(self)
        requires
            self.well_formed(),
        ensures
            self.node_count() + self.free_nodes.len() == self.nodes.len(),
            self.edge_count() + self.free_edges.len() == self.edges.len(),
            self.node_count() < u32::MAX ==> self.has_node_room(),
            self.edge_count() < u32::MAX ==> self.has_edge_room(),
            forall|a: usize| #[trigger] self.node_ids().contains(a) <==> self.contains_node(a),
            forall|e: usize| #[trigger] self.edge_ids().contains(e) <==> self.contains_edge(e),
            self.node_ids().no_duplicates(),
            self.edge_ids().no_duplicates(),
    {
        lemma_slot_count(self.nodes, self.free_nodes);
        lemma_slot_count(self.edges, self.free_edges);
        lemma_live_ids(self.nodes);
        lemma_live_ids(self.edges);
    }

    /// Each neighbour of `a` is a live node that an edge joins to `a` in one direction.
    pub proof fn lemma_neighbours(self, a: usize)
        requires
            self.well_formed(),
        ensures
            forall|i: int|
                0 <= i < self.neighbours(a).len() ==> self.contains_node(
                    #[trigger] self.neighbours(a)[i],
                ) && self.link(a, self.neighbours(a)[i]) is Some && self.contains_edge(
                    self.link(a, self.neighbours(a)[i])->0,
                ),
            forall|c: usize| #[trigger]
                self.neighbours(a).contains(c) <==> self.has_arc(a, c) || (c != a && self.has_arc(
                    c,
                    a,
                )),
    {
        self.lemma_neighbour_lists(a);
        let inn = self.order.filter(enters_from_other(self.edges, a));
        let srcs = inn.map_values(crate::model::source_in(self.edges));
        assert forall|i: int| 0 <= i < inn.len() implies is_arc(
            self.edges,
            #[trigger] inn[i],
            srcs[i],
            a,
        ) && srcs[i] != a by {
            self.order.lemma_filter_pred(enters_from_other(self.edges, a), i);
        }
        assert forall|i: int| 0 <= i < self.neighbours(a).len() implies self.contains_node(
            #[trigger] self.neighbours(a)[i],
        ) && self.link(a, self.neighbours(a)[i]) is Some && self.contains_edge(
            self.link(a, self.neighbours(a)[i])->0,
        ) by {
            let n = self.neighbours(a)[i];
            self.lemma_first_edge(a, n);
            self.lemma_first_edge(n, a);
            if i < self.children(a).len() {
                assert(n == self.children(a)[i]);
            } else {
                let k = i - self.children(a).len();
                assert(n == srcs[k]);
                assert(is_arc(self.edges, inn[k], n, a));
                self.lemma_arc_ends_live(n, a);
            }
        }
        assert forall|c: usize| #[trigger]
            self.neighbours(a).contains(c) <==> self.has_arc(a, c) || (c != a && self.has_arc(
                c,
                a,
            )) by {
            crate::seqs::lemma_concat_members(self.children(a), srcs);
            if srcs.contains(c) {
                let k = choose|k: int| 0 <= k < srcs.len() && srcs[k] == c;
                assert(is_arc(self.edges, inn[k], c, a));
            }
            if c != a && self.has_arc(c, a) {
                let e = choose|e: usize| is_arc(self.edges, e, c, a);
                lemma_filter_mem(self.order, enters_from_other(self.edges, a), e);
                assert(self.order.contains(e) <==> self.contains_edge(e));
                let k = choose|k: int| 0 <= k < inn.len() && inn[k] == e;
                assert(srcs[k] == c);
            }
        }
    }
}

} // verus!
