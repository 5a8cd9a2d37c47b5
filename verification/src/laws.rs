//! What holds of the graph whatever is done to it.

use crate::dag_isomorphism::{is_isomorphism, isomorphic};
use crate::error::DagError;
use crate::keys::lemma_entry_total;
use crate::model::{is_arc, Arena};
use crate::seqs::lemma_same_members_same_len;
use vstd::prelude::*;

verus! {

/// An edge that is accepted closes no cycle: a graph without cycles has none after any
/// insertion that does not fail, and the edge is there afterwards. The graph stays well
/// formed where there is room for the edge.
pub proof fn lemma_accepted_edge_keeps_acyclic(g: Arena, a: usize, b: usize, w: u64)
    requires
        g.well_formed(),
        g.acyclic(),
        g.add_edge_outcome(a, b) is Ok,
    ensures
        g.insert_edge(a, b, w).acyclic(),
        g.insert_edge(a, b, w).has_arc(a, b),
        g.has_edge_room() ==> g.insert_edge(a, b, w).well_formed(),
{
    g.lemma_insert_edge_arcs(a, b, w);
    g.insert_edge(a, b, w).lemma_new_arc_acyclic(g, a, b);
    if g.has_edge_room() {
        g.lemma_insert_edge(a, b, w);
    }
}

/// Removing an edge or a node, and inserting a node, close no cycle.
pub proof fn lemma_other_changes_keep_acyclic(g: Arena, a: usize, e: usize, w: u64)
    requires
        g.well_formed(),
        g.acyclic(),
    ensures
        g.delete_edge(e).acyclic(),
        g.delete_node(a).acyclic(),
        g.has_node_room() ==> g.insert_node(w).acyclic(),
{
    g.lemma_delete_edge(e);
    g.delete_edge(e).lemma_fewer_arcs_acyclic(g);
    g.lemma_delete_node(a);
    g.delete_node(a).lemma_fewer_arcs_acyclic(g);
    if g.has_node_room() {
        g.lemma_insert_node(w);
        g.insert_node(w).lemma_fewer_arcs_acyclic(g);
    }
}

/// Once an edge runs from `a` to `b`, an edge from `b` to `a` is refused as one that would
/// close a cycle.
pub proof fn lemma_reverse_edge_refused(g: Arena, a: usize, b: usize)
    requires
        g.well_formed(),
        g.has_arc(a, b),
    ensures
        g.add_edge_outcome(b, a) == Err::<usize, DagError>(DagError::WouldCreateCycle),
{
    g.lemma_arc_ends_live(a, b);
    g.lemma_arc_reaches(a, b);
}

/// An edge from a node to itself is refused as one that would close a cycle.
pub proof fn lemma_self_loop_refused(g: Arena, a: usize)
    requires
        g.contains_node(a),
    ensures
        g.add_edge_outcome(a, a) == Err::<usize, DagError>(DagError::WouldCreateCycle),
{
    g.lemma_reaches_self(a);
}

/// An edge from a node without parents to another node is accepted, and the graph is not
/// searched for it. So is an edge to a node without children. The edge is there
/// afterwards, and it closes no cycle.
pub proof fn lemma_edge_at_the_rim_accepted(g: Arena, a: usize, b: usize, w: u64)
    requires
        g.well_formed(),
        g.acyclic(),
        g.contains_node(a),
        g.contains_node(b),
        a != b,
        g.parents(a).len() == 0 || g.children(b).len() == 0,
    ensures
        !g.needs_search(a, b),
        g.add_edge_outcome(a, b) == Ok::<usize, DagError>(g.next_edge_id()),
        g.insert_edge(a, b, w).has_arc(a, b),
        g.insert_edge(a, b, w).acyclic(),
{
    g.lemma_no_search_needed(a, b);
    lemma_accepted_edge_keeps_acyclic(g, a, b, w);
}

/// A topological order has each node before every other node that it reaches.
pub proof fn lemma_topological_order_follows_walks(g: Arena, s: Seq<usize>, i: int, j: int)
    requires
        g.well_formed(),
        g.is_topological(s),
        0 <= i < s.len(),
        0 <= j < s.len(),
        i != j,
        g.reaches(s[i], s[j]),
    ensures
        i < j,
    decreases j,
{
    let c = g.lemma_reaches_last_arc(s[i], s[j]);
    g.lemma_arc_ends_live(c, s[j]);
    assert(s.contains(c));
    let k = choose|k: int| 0 <= k < s.len() && s[k] == c;
    assert(g.has_arc(s[k], s[j]));
    if k != i {
        lemma_topological_order_follows_walks(g, s, i, k);
    }
}

/// Without its last node, a topological order is a topological order of the graph without
/// that node.
pub proof fn lemma_topological_without_last(g: Arena, s: Seq<usize>)
    requires
        g.well_formed(),
        g.is_topological(s),
        s.len() > 0,
    ensures
        g.delete_node(s.last()).is_topological(s.drop_last()),
{
    let a = s.last();
    let h = g.delete_node(a);
    let t = s.drop_last();
    g.lemma_delete_node(a);
    assert(s.contains(s[s.len() - 1]));
    assert forall|x: usize| #[trigger] t.contains(x) <==> h.contains_node(x) by {
        if t.contains(x) {
            let i = choose|i: int| 0 <= i < t.len() && t[i] == x;
            assert(s[i] == x);
            assert(s.contains(x));
        }
        if h.contains_node(x) {
            assert(s.contains(x));
            let i = choose|i: int| 0 <= i < s.len() && s[i] == x;
            assert(t[i] == x);
        }
    }
    assert forall|i: int, j: int|
        0 <= i < t.len() && 0 <= j < t.len() && #[trigger] h.has_arc(t[i], t[j]) implies i < j by {
        assert(g.has_arc(s[i], s[j]));
    }
}

/// Removing a node removes the node, the edges that touch it and nothing else: the other
/// nodes and edges stay as they are, and the node is no longer among the children or the
/// parents of any node.
pub proof fn lemma_removed_node_is_gone(g: Arena, a: usize, n: usize)
    requires
        g.well_formed(),
    ensures
        !g.delete_node(a).contains_node(a),
        forall|b: usize|
            b != a ==> g.delete_node(a).contains_node(b) == g.contains_node(b) && (g.contains_node(b)
                ==> #[trigger] g.delete_node(a).payload(b) == g.payload(b)),
        forall|e: usize| #[trigger]
            g.delete_node(a).contains_edge(e) <==> g.contains_edge(e) && g.source(e) != a
                && g.target(e) != a,
        forall|e: usize| #[trigger]
            g.delete_node(a).contains_edge(e) ==> g.delete_node(a).edges[e as int]
                == g.edges[e as int],
        !g.delete_node(a).children(n).contains(a),
        !g.delete_node(a).parents(n).contains(a),
        g.delete_node(a).well_formed(),
{
    let h = g.delete_node(a);
    g.lemma_delete_node(a);
    h.lemma_neighbour_lists(n);
    if h.children(n).contains(a) {
        assert(h.has_arc(n, a));
    }
    if h.parents(n).contains(a) {
        assert(h.has_arc(a, n));
    }
    assert forall|e: usize| #[trigger]
        h.contains_edge(e) <==> g.contains_edge(e) && g.source(e) != a && g.target(e) != a by {
        if h.contains_edge(e) {
            assert(is_arc(h.edges, e, h.source(e), h.target(e)));
        }
        if g.contains_edge(e) && g.source(e) != a && g.target(e) != a {
            assert(is_arc(g.edges, e, g.source(e), g.target(e)));
            assert(is_arc(h.edges, e, g.source(e), g.target(e)));
        }
    }
}

/// A graph has the shape of each graph that is the same but for the names of the nodes.
pub proof fn lemma_relabelling_is_isomorphic(g0: Arena, g1: Arena, f: Map<usize, usize>)
    requires
        is_isomorphism(g0, g1, f),
        g0.edge_count() == g1.edge_count(),
    ensures
        isomorphic(g0, g1),
{
}

/// Every graph has its own shape.
pub proof fn lemma_isomorphic_to_itself(g: Arena)
    ensures
        isomorphic(g, g),
{
    let f = Map::new(|a: usize| g.contains_node(a), |a: usize| a);
    assert forall|c: usize| #[trigger] g.contains_node(c) implies exists|a: usize|
        g.contains_node(a) && #[trigger] f[a] == c by {
        assert(g.contains_node(c) && f[c] == c);
    }
    assert(is_isomorphism(g, g, f));
}

/// Two graphs with different numbers of edges, or of nodes, do not have the same shape.
pub proof fn lemma_counts_tell_shapes_apart(g0: Arena, g1: Arena)
    requires
        g0.well_formed(),
        g1.well_formed(),
        g0.edge_count() != g1.edge_count() || g0.node_count() != g1.node_count(),
    ensures
        !isomorphic(g0, g1),
{
    if isomorphic(g0, g1) {
        let f = choose|f: Map<usize, usize>| is_isomorphism(g0, g1, f);
        crate::dag_isomorphism::lemma_isomorphism_counts(g0, g1, f);
    }
}

/// In a topological order, each node can come next after the nodes before it.
pub proof fn lemma_topological_order_is_ready(g: Arena, s: Seq<usize>, k: int)
    requires
        g.well_formed(),
        g.is_topological(s),
        0 <= k < s.len(),
    ensures
        g.ready(s.take(k), s[k]),
{
    let d = s.take(k);
    let n = s[k];
    assert(s.contains(s[k]));
    if d.contains(n) {
        let i = choose|i: int| 0 <= i < d.len() && d[i] == n;
        assert(s[i] == s[k]);
    }
    assert forall|p: usize| #[trigger] g.has_arc(p, n) implies d.contains(p) by {
        g.lemma_arc_ends_live(p, n);
        assert(s.contains(p));
        let i = choose|i: int| 0 <= i < s.len() && s[i] == p;
        assert(g.has_arc(s[i], s[k]));
        assert(d[i] == p);
    }
}

/// Two topological orders ranked by the same keys begin alike, however far one looks.
pub proof fn lemma_lexicographic_orders_begin_alike(
    g: Arena,
    keys: Map<usize, String>,
    s: Seq<usize>,
    t: Seq<usize>,
    k: nat,
)
    requires
        g.well_formed(),
        g.is_lexicographic(keys, s),
        g.is_lexicographic(keys, t),
        k <= s.len(),
        s.len() == t.len(),
    ensures
        s.take(k as int) == t.take(k as int),
    decreases k,
{
    if k > 0 {
        let j = (k - 1) as int;
        lemma_lexicographic_orders_begin_alike(g, keys, s, t, (k - 1) as nat);
        lemma_topological_order_is_ready(g, s, j);
        lemma_topological_order_is_ready(g, t, j);
        assert(g.ready(s.take(j), t[j]));
        assert(g.ready(t.take(j), s[j]));
        lemma_entry_total(keys[s[j]]@, s[j], keys[t[j]]@, t[j]);
        assert(s.take(k as int) =~= s.take(j).push(s[j]));
        assert(t.take(k as int) =~= t.take(j).push(t[j]));
    } else {
        assert(s.take(0) =~= t.take(0));
    }
}

/// The keys decide the order: there is one topological order ranked by given keys, and no
/// other.
pub proof fn lemma_lexicographic_order_unique(
    g: Arena,
    keys: Map<usize, String>,
    s: Seq<usize>,
    t: Seq<usize>,
)
    requires
        g.well_formed(),
        g.is_lexicographic(keys, s),
        g.is_lexicographic(keys, t),
    ensures
        s == t,
{
    lemma_same_members_same_len(s, t);
    lemma_lexicographic_orders_begin_alike(g, keys, s, t, s.len());
    assert(s.take(s.len() as int) =~= s);
    assert(t.take(t.len() as int) =~= t);
}

} // verus!
