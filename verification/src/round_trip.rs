//! Taking the content of a graph out and loading it again gives a graph of the same shape.

use crate::dag_isomorphism::{is_isomorphism, isomorphic};
use crate::model::{is_arc, record_in, Arena};
use crate::seqs::{lemma_concat_members, lemma_same_members_same_len};
use crate::state::{key_places, loaded, loaded_edges, loaded_nodes};
use vstd::prelude::*;

verus! {

impl Arena {
    /// The edges that enter the nodes in `ids`, node by node.
    pub open spec fn incoming(self, ids: Seq<usize>) -> Seq<usize>
        decreases ids.len(),
    {
        if ids.len() == 0 {
            Seq::empty()
        } else {
            self.incoming(ids.drop_last()) + self.in_edges(ids.last())
        }
    }

    /// The slot of the edge `e` after its ends were moved to the places that `places` gives
    /// for them: the same payload between the new ends.
    pub open spec fn moved(self, places: Map<usize, usize>) -> spec_fn(usize) -> Option<
        (usize, usize, u64),
    > {
        |e: usize| Some((places[self.source(e)], places[self.target(e)], self.weight(e)))
    }

    /// The list of the edges that enter given nodes holds each such edge once, and its
    /// records are theirs.
    pub proof fn lemma_incoming(self, ids: Seq<usize>)
        requires
            self.well_formed(),
            ids.no_duplicates(),
        ensures
            self.incoming(ids).no_duplicates(),
            forall|e: usize| #[trigger]
                self.incoming(ids).contains(e) <==> self.contains_edge(e) && ids.contains(
                    self.target(e),
                ),
            self.incoming_records(ids) == self.incoming(ids).map_values(record_in(self.edges)),
        decreases ids.len(),
    {
        if ids.len() > 0 {
            let rest = ids.drop_last();
            let n = ids.last();
            self.lemma_incoming(rest);
            self.lemma_edge_lists(n, n);
            assert forall|x: usize| ids.contains(x) <==> rest.contains(x) || x == n by {
                if ids.contains(x) {
                    let i = choose|i: int| 0 <= i < ids.len() && ids[i] == x;
                    if i < rest.len() {
                        assert(rest[i] == x);
                    }
                }
                if rest.contains(x) {
                    let i = choose|i: int| 0 <= i < rest.len() && rest[i] == x;
                    assert(ids[i] == x);
                }
                assert(ids[ids.len() - 1] == n);
            }
            assert(!rest.contains(n)) by {
                if rest.contains(n) {
                    let i = choose|i: int| 0 <= i < rest.len() && rest[i] == n;
                    assert(ids[i] == ids[ids.len() - 1]);
                }
            }
            lemma_concat_members(self.incoming(rest), self.in_edges(n));
            assert forall|y: usize|
                !(self.incoming(rest).contains(y) && self.in_edges(n).contains(y)) by {
                if self.incoming(rest).contains(y) {
                    assert(rest.contains(self.target(y)));
                }
            }
            assert forall|e: usize| #[trigger]
                self.incoming(ids).contains(e) <==> self.contains_edge(e) && ids.contains(
                    self.target(e),
                ) by {
                assert(self.incoming(rest).contains(e) <==> self.contains_edge(e) && rest.contains(
                    self.target(e),
                ));
                assert(self.in_edges(n).contains(e) <==> self.contains_edge(e) && self.target(e)
                    == n);
                assert(ids.contains(self.target(e)) <==> rest.contains(self.target(e))
                    || self.target(e) == n);
            }
            assert(self.incoming_records(ids) =~= self.incoming(ids).map_values(
                record_in(self.edges),
            ));
        } else {
            assert(self.incoming_records(ids) =~= self.incoming(ids).map_values(
                record_in(self.edges),
            ));
        }
    }
}

/// The places of the keys of a list without repeated keys.
pub(crate) proof fn lemma_key_places(ids: Seq<usize>, entry: spec_fn(usize) -> (usize, u64))
    requires
        ids.no_duplicates(),
        ids.len() <= usize::MAX,
        forall|a: usize| (#[trigger] entry(a)).0 == a,
    ensures
        forall|a: usize| #[trigger]
            key_places(ids.map_values(entry)).dom().contains(a) <==> ids.contains(a),
        forall|i: int|
            0 <= i < ids.len() ==> key_places(ids.map_values(entry))[#[trigger] ids[i]] == i,
    decreases ids.len(),
{
    let nodes = ids.map_values(entry);
    if ids.len() > 0 {
        let rest = ids.drop_last();
        lemma_key_places(rest, entry);
        assert(nodes.drop_last() =~= rest.map_values(entry));
        assert(nodes.last().0 == ids.last());
        let before = key_places(rest.map_values(entry));
        assert(key_places(nodes) == before.insert(ids.last(), (nodes.len() - 1) as usize));
        assert forall|a: usize| #[trigger] key_places(nodes).dom().contains(a) <==> ids.contains(
            a,
        ) by {
            assert(before.dom().contains(a) <==> rest.contains(a));
            if ids.contains(a) {
                let i = choose|i: int| 0 <= i < ids.len() && ids[i] == a;
                if i < rest.len() {
                    assert(rest[i] == a);
                }
            }
            if rest.contains(a) {
                let i = choose|i: int| 0 <= i < rest.len() && rest[i] == a;
                assert(ids[i] == a);
            }
            assert(ids[ids.len() - 1] == ids.last());
        }
        assert forall|i: int| 0 <= i < ids.len() implies key_places(nodes)[#[trigger] ids[i]]
            == i by {
            if i < rest.len() {
                assert(rest[i] == ids[i]);
                assert(ids[i] != ids[ids.len() - 1]);
                assert(before[rest[i]] == i);
            }
        }
    }
}

/// Loading edges between nodes that are there puts each edge into a slot of its own, in
/// the order of the list.
pub(crate) proof fn lemma_loaded_edges(
    g: Arena,
    places: Map<usize, usize>,
    records: Seq<(usize, usize, u64)>,
)
    requires
        g.well_formed(),
        g.only_nodes(),
        records.len() <= u32::MAX,
        forall|j: int|
            0 <= j < records.len() ==> places.dom().contains((#[trigger] records[j]).0)
                && places.dom().contains(records[j].1) && g.contains_node(places[records[j].0])
                && g.contains_node(places[records[j].1]),
    ensures
        loaded_edges(g, places, records) is Some,
        ({
            let h = loaded_edges(g, places, records)->0;
            &&& h.well_formed()
            &&& h.nodes == g.nodes
            &&& h.free_edges.len() == 0
            &&& h.edges.len() == records.len()
            &&& forall|j: int|
                0 <= j < records.len() ==> #[trigger] h.edges[j] == Some(
                    (places[records[j].0], places[records[j].1], records[j].2),
                )
        }),
    decreases records.len(),
{
    if records.len() > 0 {
        let rest = records.drop_last();
        let e = records.last();
        assert forall|j: int| 0 <= j < rest.len() implies places.dom().contains(
            (#[trigger] rest[j]).0,
        ) && places.dom().contains(rest[j].1) && g.contains_node(places[rest[j].0])
            && g.contains_node(places[rest[j].1]) by {
            assert(rest[j] == records[j]);
        }
        lemma_loaded_edges(g, places, rest);
        let h0 = loaded_edges(g, places, rest)->0;
        assert(records[records.len() - 1] == e);
        h0.lemma_insert_edge(places[e.0], places[e.1], e.2);
        let h = h0.insert_edge(places[e.0], places[e.1], e.2);
        assert forall|j: int| 0 <= j < records.len() implies #[trigger] h.edges[j] == Some(
            (places[records[j].0], places[records[j].1], records[j].2),
        ) by {
            if j < rest.len() {
                assert(h0.edges[j] == Some((places[rest[j].0], places[rest[j].1], rest[j].2)));
                assert(rest[j] == records[j]);
            }
        }
    }
}

/// A graph that is paired one-to-one with a graph without cycles, edge for edge, has no
/// cycle either.
pub proof fn lemma_isomorphism_keeps_acyclic(g: Arena, h: Arena, f: Map<usize, usize>)
    requires
        g.acyclic(),
        h.well_formed(),
        is_isomorphism(g, h, f),
    ensures
        h.acyclic(),
{
    assert forall|p: Seq<usize>| #[trigger] h.is_walk(p) && p.len() >= 2 implies p[0] != p[p.len()
        - 1] by {
        assert forall|i: int| 0 <= i < p.len() implies h.contains_node(#[trigger] p[i]) by {
            if i < p.len() - 1 {
                assert(h.arc_at(p, i));
                h.lemma_arc_ends_live(p[i], p[i + 1]);
            } else {
                assert(h.arc_at(p, i - 1));
                h.lemma_arc_ends_live(p[i - 1], p[i]);
            }
        }
        let back = |c: usize| choose|a: usize| g.contains_node(a) && #[trigger] f[a] == c;
        let q = p.map_values(back);
        assert forall|i: int| 0 <= i < p.len() implies g.contains_node(#[trigger] q[i]) && f[q[i]]
            == p[i] by {
            assert(h.contains_node(p[i]));
        }
        assert forall|i: int| 0 <= i < q.len() - 1 implies #[trigger] g.arc_at(q, i) by {
            assert(h.arc_at(p, i));
            assert(g.contains_node(q[i]) && f[q[i]] == p[i]);
            assert(g.contains_node(q[i + 1]) && f[q[i + 1]] == p[i + 1]);
            assert(g.has_arc(q[i], q[i + 1]) <==> h.has_arc(f[q[i]], f[q[i + 1]]));
        }
        assert(g.is_walk(q));
        if p[0] == p[p.len() - 1] {
            assert(q[0] == q[q.len() - 1]);
        }
    }
}

/// The lists that are taken out of a graph describe a graph of the same shape: loading
/// them pairs each node with the node at its place in the list and keeps the payload of
/// every node, and it holds one edge for each edge of the graph, between the partners of its
/// ends and with its payload. So loading does not fail.
pub proof fn lemma_state_round_trip(g: Arena)
    requires
        g.well_formed(),
        g.acyclic(),
    ensures
        ({
            let nodes = g.node_ids().map_values(g.keyed());
            let edges = g.incoming_records(g.node_ids());
            let h = loaded(nodes, edges);
            &&& h is Some
            &&& h->0.well_formed()
            &&& h->0.acyclic()
            &&& is_isomorphism(g, h->0, key_places(nodes))
            &&& isomorphic(g, h->0)
            &&& forall|a: usize| #[trigger]
                g.contains_node(a) ==> h->0.payload(key_places(nodes)[a]) == g.payload(a)
            &&& g.incoming(g.node_ids()).no_duplicates()
            &&& forall|e: usize| #[trigger]
                g.incoming(g.node_ids()).contains(e) <==> g.contains_edge(e)
            &&& h->0.edges == g.incoming(g.node_ids()).map_values(g.moved(key_places(nodes)))
        }),
{
    let ids = g.node_ids();
    let nodes = ids.map_values(g.keyed());
    let records = g.incoming_records(ids);
    let places = key_places(nodes);
    let start = loaded_nodes(nodes);
    let inc = g.incoming(ids);
    g.lemma_counts();
    g.lemma_incoming(ids);
    lemma_key_places(ids, g.keyed());
    assert forall|i: int| 0 <= i < ids.len() implies g.contains_node(#[trigger] ids[i]) by {
        assert(ids.contains(ids[i]));
    }
    assert forall|e: usize| inc.contains(e) <==> g.edge_ids().contains(e) by {
        if g.contains_edge(e) {
            assert(ids.contains(g.target(e)));
        }
    }
    lemma_same_members_same_len(inc, g.edge_ids());
    assert(start.well_formed() && start.only_nodes()) by {
        assert forall|e: usize| #[trigger] start.order.contains(e) <==> start.contains_edge(e) by {}
    }
    assert forall|j: int| 0 <= j < records.len() implies places.dom().contains(
        (#[trigger] records[j]).0,
    ) && places.dom().contains(records[j].1) && start.contains_node(places[records[j].0])
        && start.contains_node(places[records[j].1]) by {
        let e = inc[j];
        assert(inc.contains(e));
        assert(g.contains_edge(e));
        assert(ids.contains(g.source(e)) && ids.contains(g.target(e)));
        let s = choose|s: int| 0 <= s < ids.len() && ids[s] == g.source(e);
        let t = choose|t: int| 0 <= t < ids.len() && ids[t] == g.target(e);
        assert(places[ids[s]] == s && places[ids[t]] == t);
    }
    lemma_loaded_edges(start, places, records);
    let h = loaded_edges(start, places, records)->0;
    assert forall|a: usize| #[trigger] g.contains_node(a) implies h.contains_node(places[a])
        && h.payload(places[a]) == g.payload(a) by {
        assert(ids.contains(a));
        let i = choose|i: int| 0 <= i < ids.len() && ids[i] == a;
        assert(places[ids[i]] == i);
    }
    assert forall|c: usize| #[trigger] h.contains_node(c) implies exists|a: usize|
        g.contains_node(a) && #[trigger] places[a] == c by {
        let a = ids[c as int];
        assert(g.contains_node(a) && places[ids[c as int]] == c);
    }
    assert forall|a: usize, b: usize|
        g.contains_node(a) && g.contains_node(b) && #[trigger] places[a] == #[trigger] places[b] implies a
        == b by {
        assert(ids.contains(a) && ids.contains(b));
        let i = choose|i: int| 0 <= i < ids.len() && ids[i] == a;
        let j = choose|j: int| 0 <= j < ids.len() && ids[j] == b;
        assert(places[ids[i]] == i && places[ids[j]] == j);
    }
    assert forall|a: usize, b: usize| g.contains_node(a) && g.contains_node(b) implies (
    #[trigger] g.has_arc(a, b) <==> h.has_arc(places[a], places[b])) by {
        if g.has_arc(a, b) {
            let e = choose|e: usize| is_arc(g.edges, e, a, b);
            assert(inc.contains(e));
            let j = choose|j: int| 0 <= j < inc.len() && inc[j] == e;
            assert(records[j] == record_in(g.edges)(inc[j]));
            assert(h.edges[j] == Some((places[records[j].0], places[records[j].1], records[j].2)));
            assert(is_arc(h.edges, j as usize, places[a], places[b]));
        }
        if h.has_arc(places[a], places[b]) {
            let j = choose|j: usize| is_arc(h.edges, j, places[a], places[b]);
            assert(h.edges[j as int] == Some(
                (places[records[j as int].0], places[records[j as int].1], records[j as int].2),
            ));
            let e = inc[j as int];
            assert(inc.contains(e));
            assert(records[j as int] == record_in(g.edges)(inc[j as int]));
            assert(g.contains_node(g.source(e)) && g.contains_node(g.target(e)));
            assert(places[g.source(e)] == places[a]);
            assert(places[g.target(e)] == places[b]);
            assert(is_arc(g.edges, e, a, b));
        }
    }
    assert(is_isomorphism(g, h, places));
    assert forall|j: int| 0 <= j < inc.len() implies h.edges[j] == #[trigger] inc.map_values(
        g.moved(places),
    )[j] by {
        assert(records[j] == record_in(g.edges)(inc[j]));
        assert(h.edges[j] == Some((places[records[j].0], places[records[j].1], records[j].2)));
    }
    assert(h.edges =~= inc.map_values(g.moved(places)));
    assert forall|e: usize| #[trigger] inc.contains(e) <==> g.contains_edge(e) by {
        if g.contains_edge(e) {
            assert(ids.contains(g.target(e)));
        }
    }
    lemma_isomorphism_keeps_acyclic(g, h, places);
    h.lemma_counts();
    assert(h.edge_count() == records.len()) by {
        let all = crate::model::indices(h.edges.len());
        crate::seqs::lemma_filter_all(all, crate::model::occupied(h.edges));
    }
}

} // verus!
