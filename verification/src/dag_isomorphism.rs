//! Whether two graphs have the same shape: a search for a one-to-one pairing of their nodes
//! that keeps every edge.

use crate::dag::{distinct_ids, PyDAG};
use crate::error::DagError;
use crate::model::{distinct, Arena};
use crate::seqs::{
    lemma_distinct, lemma_filter_mem, lemma_filter_no_duplicates, lemma_no_duplicates_within,
    lemma_push_members,
};
use crate::store::{
    arena, graph_edge_count, graph_find_edge, graph_neighbors_undirected, graph_node_count,
    graph_node_indices, graph_node_weight, DiGraph,
};
use vstd::prelude::*;

verus! {

/// The entry of a node that has no partner.
pub(crate) const NONE: usize = usize::MAX;

/// One side of a partial pairing: for each node its partner in the other graph, and the
/// depth of the search at which it first touched a paired node.
pub(crate) struct Side {
    pub(crate) partner: Vec<usize>,
    pub(crate) touched: Vec<usize>,
}

/// A partial pairing of the nodes of two graphs.
pub(crate) struct Pairing {
    pub(crate) left: Side,
    pub(crate) right: Side,
    pub(crate) depth: usize,
    pub(crate) paired: Ghost<Seq<usize>>,
}

/// What one side of a pairing holds.
pub(crate) struct SideModel {
    pub(crate) partner: Seq<usize>,
    pub(crate) touched: Seq<usize>,
}

/// What a pairing holds.
pub(crate) struct PairingModel {
    pub(crate) left: SideModel,
    pub(crate) right: SideModel,
    pub(crate) depth: usize,
    pub(crate) paired: Seq<usize>,
}

impl View for Side {
    type V = SideModel;

    closed spec fn view(&self) -> SideModel {
        SideModel { partner: self.partner@, touched: self.touched@ }
    }
}

impl View for Pairing {
    type V = PairingModel;

    closed spec fn view(&self) -> PairingModel {
        PairingModel {
            left: self.left@,
            right: self.right@,
            depth: self.depth,
            paired: self.paired@,
        }
    }
}

impl Arena {
    /// Whether an edge joins `a` and `n`, in either direction.
    pub open spec fn touches(self, a: usize, n: usize) -> bool {
        self.has_arc(a, n) || self.has_arc(n, a)
    }
}

impl SideModel {
    /// Whether `a` has a partner.
    pub(crate) open spec fn has(self, a: usize) -> bool {
        a < self.partner.len() && self.partner[a as int] != NONE
    }

    /// Whether `a` is a node without a partner.
    pub(crate) open spec fn is_free(self, a: usize) -> bool {
        a < self.partner.len() && self.partner[a as int] == NONE
    }

    /// Whether `a` has no partner and touches a node that has one.
    pub(crate) open spec fn at_front(self, a: usize) -> bool {
        self.is_free(a) && self.touched[a as int] > 0
    }

    /// What holds of one side of a pairing in a graph `g`: only live nodes have partners,
    /// and the nodes marked as touching a paired node are those that an edge joins to one.
    pub(crate) open spec fn fits(self, g: Arena, depth: usize, other: SideModel) -> bool {
        &&& self.partner.len() == self.touched.len()
        &&& self.partner.len() <= usize::MAX
        &&& forall|a: usize| #[trigger] g.contains_node(a) ==> a < self.partner.len()
        &&& forall|a: usize| #[trigger]
            self.has(a) ==> g.contains_node(a) && other.has(self.partner[a as int])
                && other.partner[self.partner[a as int] as int] == a
        &&& forall|n: usize|
            n < self.touched.len() ==> (#[trigger] self.touched[n as int]) <= depth
        &&& forall|n: usize|
            n < self.touched.len() ==> ((#[trigger] self.touched[n as int]) > 0 <==> exists|
                a: usize,
            |
                self.has(a) && #[trigger] g.touches(a, n))
    }
}

impl PairingModel {
    /// The pairing as a map from the nodes of the first graph.
    pub(crate) open spec fn as_map(self) -> Map<usize, usize> {
        Map::new(|a: usize| self.left.has(a), |a: usize| self.left.partner[a as int])
    }

    /// What holds of a pairing of `g0` and `g1`: partners are paired with each other, an
    /// edge joins two paired nodes exactly if an edge joins their partners in the same
    /// direction, and `depth` pairs have been made.
    pub(crate) open spec fn fits(self, g0: Arena, g1: Arena) -> bool {
        &&& self.left.fits(g0, self.depth, self.right)
        &&& self.right.fits(g1, self.depth, self.left)
        &&& self.paired.no_duplicates()
        &&& self.paired.len() == self.depth
        &&& forall|a: usize| #[trigger] self.paired.contains(a) <==> self.left.has(a)
        &&& forall|a: usize, b: usize|
            self.left.has(a) && self.left.has(b) ==> (#[trigger] g0.has_arc(a, b) <==> g1.has_arc(
                self.left.partner[a as int],
                self.left.partner[b as int],
            ))
    }

    /// Whether `u` and `v` can be paired as far as the edges to paired nodes go: an edge
    /// joins `u` and a paired node exactly if an edge joins `v` and the partner of that
    /// node in the same direction.
    pub(crate) open spec fn agrees(self, g0: Arena, g1: Arena, u: usize, v: usize) -> bool {
        forall|b: usize| #[trigger] self.left.has(b) ==> self.agrees_at(g0, g1, u, v, b)
    }

    /// Whether an edge joins `u` and the paired node `b` exactly if an edge joins `v` and
    /// the partner of `b` in the same direction.
    pub(crate) open spec fn agrees_at(self, g0: Arena, g1: Arena, u: usize, v: usize, b: usize) -> bool {
        (g0.has_arc(u, b) <==> g1.has_arc(v, self.left.partner[b as int])) && (g0.has_arc(b, u)
            <==> g1.has_arc(self.left.partner[b as int], v))
    }

    /// The pairing after `u` and `v` were paired.
    pub(crate) open spec fn joined(self, g0: Arena, g1: Arena, u: usize, v: usize) -> PairingModel {
        let d = (self.depth + 1) as usize;
        PairingModel {
            left: SideModel {
                partner: self.left.partner.update(u as int, v),
                touched: marked(self.left.touched, g0.neighbours(u), d),
            },
            right: SideModel {
                partner: self.right.partner.update(v as int, u),
                touched: marked(self.right.touched, g1.neighbours(v), d),
            },
            depth: d,
            paired: self.paired.push(u),
        }
    }

    /// The pairing after `u` and `v`, which were paired last, were parted.
    pub(crate) open spec fn parted(self, g0: Arena, g1: Arena, u: usize, v: usize) -> PairingModel {
        PairingModel {
            left: SideModel {
                partner: self.left.partner.update(u as int, NONE),
                touched: unmarked(self.left.touched, g0.neighbours(u), self.depth),
            },
            right: SideModel {
                partner: self.right.partner.update(v as int, NONE),
                touched: unmarked(self.right.touched, g1.neighbours(v), self.depth),
            },
            depth: (self.depth - 1) as usize,
            paired: self.paired.drop_last(),
        }
    }

    /// One side of a pairing still fits after a pair was joined.
    pub(crate) proof fn lemma_side_joined(
        side: SideModel,
        other: SideModel,
        g: Arena,
        depth: usize,
        u: usize,
        v: usize,
    )
        requires
            g.well_formed(),
            g.acyclic(),
            side.fits(g, depth, other),
            g.contains_node(u),
            !side.has(u),
            v < other.partner.len(),
            v != NONE,
            !other.has(v),
            depth < usize::MAX,
        ensures
            (SideModel {
                partner: side.partner.update(u as int, v),
                touched: marked(side.touched, g.neighbours(u), (depth + 1) as usize),
            }).fits(
                g,
                (depth + 1) as usize,
                SideModel { partner: other.partner.update(v as int, u), touched: other.touched },
            ),
            unmarked(
                marked(side.touched, g.neighbours(u), (depth + 1) as usize),
                g.neighbours(u),
                (depth + 1) as usize,
            ) == side.touched,
    {
        let d = (depth + 1) as usize;
        let after = SideModel {
            partner: side.partner.update(u as int, v),
            touched: marked(side.touched, g.neighbours(u), d),
        };
        let across = SideModel { partner: other.partner.update(v as int, u), touched: other.touched };
        g.lemma_neighbours(u);
        assert(u != NONE);
        assert forall|a: usize| #[trigger] after.has(a) implies g.contains_node(a) && across.has(
            after.partner[a as int],
        ) && across.partner[after.partner[a as int] as int] == a by {
            if a != u {
                assert(side.has(a));
                assert(other.has(side.partner[a as int]));
            }
        }
        assert forall|n: usize| n < after.touched.len() implies ((#[trigger] after.touched[n as int])
            > 0 <==> exists|a: usize| after.has(a) && #[trigger] g.touches(a, n)) by {
            assert(side.touched[n as int] > 0 <==> exists|a: usize|
                side.has(a) && #[trigger] g.touches(a, n));
            if g.touches(u, n) {
                assert(g.neighbours(u).contains(n));
            }
            if after.touched[n as int] > 0 {
                if side.touched[n as int] > 0 {
                    let a = choose|a: usize| side.has(a) && #[trigger] g.touches(a, n);
                    assert(after.has(a) && g.touches(a, n));
                } else {
                    assert(g.neighbours(u).contains(n));
                    assert(after.has(u) && g.touches(u, n));
                }
            }
            if exists|a: usize| after.has(a) && #[trigger] g.touches(a, n) {
                let a = choose|a: usize| after.has(a) && #[trigger] g.touches(a, n);
                if a != u {
                    assert(side.has(a) && g.touches(a, n));
                }
            }
        }
        let back = unmarked(after.touched, g.neighbours(u), d);
        assert forall|i: int| 0 <= i < side.touched.len() implies back[i] == side.touched[i] by {
            let n = i as usize;
            assert(side.touched[n as int] <= depth);
        }
        assert(back =~= side.touched);
    }

    /// A pairing still fits after a pair that agrees with it was joined, and parting the
    /// pair again gives the pairing back.
    pub(crate) proof fn lemma_joined(self, g0: Arena, g1: Arena, u: usize, v: usize)
        requires
            g0.well_formed(),
            g0.acyclic(),
            g1.well_formed(),
            g1.acyclic(),
            self.fits(g0, g1),
            g0.contains_node(u),
            g1.contains_node(v),
            !self.left.has(u),
            !self.right.has(v),
            self.depth < usize::MAX,
            self.agrees(g0, g1, u, v),
        ensures
            self.joined(g0, g1, u, v).fits(g0, g1),
            self.joined(g0, g1, u, v).parted(g0, g1, u, v) == self,
            self.joined(g0, g1, u, v).left.has(u),
            forall|a: usize| #[trigger]
                self.joined(g0, g1, u, v).left.has(a) <==> self.left.has(a) || a == u,
    {
        let j = self.joined(g0, g1, u, v);
        let d = (self.depth + 1) as usize;
        Self::lemma_side_joined(self.left, self.right, g0, self.depth, u, v);
        Self::lemma_side_joined(self.right, self.left, g1, self.depth, v, u);
        assert(j.left.fits(g0, d, j.right)) by {
            let across = SideModel {
                partner: self.right.partner.update(v as int, u),
                touched: self.right.touched,
            };
            assert forall|a: usize| #[trigger] j.left.has(a) implies j.right.has(
                j.left.partner[a as int],
            ) && j.right.partner[j.left.partner[a as int] as int] == a by {
                assert(across.has(j.left.partner[a as int]));
            }
        }
        assert(j.right.fits(g1, d, j.left)) by {
            let across = SideModel {
                partner: self.left.partner.update(u as int, v),
                touched: self.left.touched,
            };
            assert forall|a: usize| #[trigger] j.right.has(a) implies j.left.has(
                j.right.partner[a as int],
            ) && j.left.partner[j.right.partner[a as int] as int] == a by {
                assert(across.has(j.right.partner[a as int]));
            }
        }
        assert(!self.paired.contains(u));
        lemma_push_members(self.paired, u);
        assert forall|a: usize| #[trigger] j.paired.contains(a) <==> j.left.has(a) by {
            assert(self.paired.contains(a) <==> self.left.has(a));
        }
        assert(j.paired.no_duplicates());
        assert forall|a: usize, b: usize| j.left.has(a) && j.left.has(b) implies (#[trigger] g0.has_arc(
            a,
            b,
        ) <==> g1.has_arc(j.left.partner[a as int], j.left.partner[b as int])) by {
            if a == u && b == u {
                if g0.has_arc(u, u) {
                    g0.lemma_acyclic_no_return(u, u);
                    g0.lemma_reaches_self(u);
                }
                if g1.has_arc(v, v) {
                    g1.lemma_acyclic_no_return(v, v);
                    g1.lemma_reaches_self(v);
                }
            } else if a == u {
                assert(self.left.has(b));
            } else if b == u {
                assert(self.left.has(a));
            } else {
                assert(self.left.has(a) && self.left.has(b));
            }
        }
        let p = j.parted(g0, g1, u, v);
        assert(p.left.partner =~= self.left.partner);
        assert(p.right.partner =~= self.right.partner);
        assert(p.paired =~= self.paired);
    }
}

/// Whether `f` pairs the live nodes of `g0` one-to-one with the live nodes of `g1` such
/// that an edge joins two nodes exactly if an edge joins their partners in the same
/// direction.
pub open spec fn is_isomorphism(g0: Arena, g1: Arena, f: Map<usize, usize>) -> bool {
    &&& forall|a: usize| #[trigger] f.dom().contains(a) <==> g0.contains_node(a)
    &&& forall|a: usize| #[trigger] g0.contains_node(a) ==> g1.contains_node(f[a])
    &&& forall|a: usize, b: usize|
        g0.contains_node(a) && g0.contains_node(b) && #[trigger] f[a] == #[trigger] f[b] ==> a == b
    &&& forall|c: usize| #[trigger]
        g1.contains_node(c) ==> exists|a: usize| g0.contains_node(a) && #[trigger] f[a] == c
    &&& forall|a: usize, b: usize|
        g0.contains_node(a) && g0.contains_node(b) ==> (#[trigger] g0.has_arc(a, b) <==> g1.has_arc(
            f[a],
            f[b],
        ))
}

/// Whether two graphs have the same shape: as many edges, and a pairing of their nodes
/// that keeps every edge.
pub open spec fn isomorphic(g0: Arena, g1: Arena) -> bool {
    g0.edge_count() == g1.edge_count() && exists|f: Map<usize, usize>| is_isomorphism(g0, g1, f)
}

/// Whether `f` contains the pairing `m`.
pub(crate) open spec fn extends(f: Map<usize, usize>, m: PairingModel) -> bool {
    forall|a: usize| #[trigger] m.left.has(a) ==> f[a] == m.left.partner[a as int]
}

/// Whether `matcher` can accept each node of `g0` with its partner under `f`.
pub open spec fn may_accept<F: Fn(u64, u64) -> Option<bool>>(
    matcher: &F,
    g0: Arena,
    g1: Arena,
    f: Map<usize, usize>,
) -> bool {
    forall|a: usize| #[trigger]
        g0.contains_node(a) ==> matcher.ensures((g0.payload(a), g1.payload(f[a])), Some(true))
}

/// Whether `matcher` cannot refuse any node of `g0` with its partner under `f`: whatever it
/// answers for such a pair, it is not "no".
pub open spec fn cannot_refuse<F: Fn(u64, u64) -> Option<bool>>(
    matcher: &F,
    g0: Arena,
    g1: Arena,
    f: Map<usize, usize>,
) -> bool {
    forall|a: usize, r: Option<bool>|
        g0.contains_node(a) && #[trigger] matcher.ensures(
            (g0.payload(a), g1.payload(f[a])),
            r,
        ) ==> r != Some(false)
}

/// Whether `matcher` can fail on some pair of nodes.
pub open spec fn may_fail<F: Fn(u64, u64) -> Option<bool>>(
    matcher: &F,
    g0: Arena,
    g1: Arena,
) -> bool {
    exists|a: usize, b: usize|
        g0.contains_node(a) && g1.contains_node(b) && #[trigger] matcher.ensures(
            (g0.payload(a), g1.payload(b)),
            None::<bool>,
        )
}

/// The marks after each node in `near` that had none got the mark `depth`.
pub(crate) open spec fn marked(touched: Seq<usize>, near: Seq<usize>, depth: usize) -> Seq<usize> {
    Seq::new(
        touched.len(),
        |n: int|
            if touched[n] == 0 && near.contains(n as usize) {
                depth
            } else {
                touched[n]
            },
    )
}

/// The marks after each node in `near` with the mark `depth` lost it.
pub(crate) open spec fn unmarked(touched: Seq<usize>, near: Seq<usize>, depth: usize) -> Seq<usize> {
    Seq::new(
        touched.len(),
        |n: int|
            if touched[n] == depth && near.contains(n as usize) {
                0
            } else {
                touched[n]
            },
    )
}

/// The predicate "`a` has no partner", or, with `front`, "`a` has no partner and touches a
/// node that has one".
pub(crate) open spec fn open_in(side: SideModel, front: bool) -> spec_fn(usize) -> bool {
    |a: usize|
        if front {
            side.at_front(a)
        } else {
            side.is_free(a)
        }
}

impl PairingModel {
    /// A pairing of all nodes that contains this one pairs a free node with a free node,
    /// a node at the front with a node at the front, and agrees with this one on the edges.
    pub(crate) proof fn lemma_image(self, g0: Arena, g1: Arena, f: Map<usize, usize>, u: usize)
        requires
            self.fits(g0, g1),
            is_isomorphism(g0, g1, f),
            extends(f, self),
            g0.contains_node(u),
            self.left.is_free(u),
        ensures
            g1.contains_node(f[u]),
            self.right.is_free(f[u]),
            self.left.at_front(u) ==> self.right.at_front(f[u]),
            self.agrees(g0, g1, u, f[u]),
    {
        let v = f[u];
        if self.right.has(v) {
            let a = self.right.partner[v as int];
            assert(self.left.has(a));
            assert(f[a] == v);
        }
        if self.left.at_front(u) {
            let a = choose|a: usize| self.left.has(a) && #[trigger] g0.touches(a, u);
            assert(g0.has_arc(a, u) <==> g1.has_arc(f[a], f[u]));
            assert(g0.has_arc(u, a) <==> g1.has_arc(f[u], f[a]));
            assert(self.right.has(f[a]) && g1.touches(f[a], v));
        }
        assert forall|b: usize| #[trigger] self.left.has(b) implies (g0.has_arc(u, b) <==> g1.has_arc(
            v,
            self.left.partner[b as int],
        )) && (g0.has_arc(b, u) <==> g1.has_arc(self.left.partner[b as int], v)) by {
            assert(g0.has_arc(u, b) <==> g1.has_arc(f[u], f[b]));
            assert(g0.has_arc(b, u) <==> g1.has_arc(f[b], f[u]));
        }
    }

    /// Under a pairing of all nodes that contains this one, a node has no more free
    /// neighbours, and no more neighbours at the front, than its partner.
    pub(crate) proof fn lemma_image_count(
        self,
        g0: Arena,
        g1: Arena,
        f: Map<usize, usize>,
        u: usize,
        front: bool,
    )
        requires
            g0.well_formed(),
            g1.well_formed(),
            g1.acyclic(),
            self.fits(g0, g1),
            is_isomorphism(g0, g1, f),
            extends(f, self),
            g0.contains_node(u),
            self.left.is_free(u),
        ensures
            distinct(g0.neighbours(u)).filter(open_in(self.left, front)).len() <= distinct(
                g1.neighbours(f[u]),
            ).filter(open_in(self.right, front)).len(),
    {
        let v = f[u];
        let n0 = distinct(g0.neighbours(u));
        let n1 = distinct(g1.neighbours(v));
        let a = n0.filter(open_in(self.left, front));
        let b = n1.filter(open_in(self.right, front));
        let img = a.map_values(|x: usize| f[x]);
        lemma_distinct(g0.neighbours(u));
        lemma_distinct(g1.neighbours(v));
        lemma_filter_no_duplicates(n0, open_in(self.left, front));
        lemma_filter_no_duplicates(n1, open_in(self.right, front));
        g0.lemma_neighbours(u);
        g1.lemma_neighbours(v);
        assert forall|i: int| 0 <= i < a.len() implies g0.contains_node(#[trigger] a[i])
            && self.left.is_free(a[i]) && b.contains(f[a[i]]) by {
            let x = a[i];
            assert(a.contains(x));
            lemma_filter_mem(n0, open_in(self.left, front), x);
            assert(g0.neighbours(u).contains(x));
            let k = choose|k: int| 0 <= k < g0.neighbours(u).len() && g0.neighbours(u)[k] == x;
            assert(g0.contains_node(g0.neighbours(u)[k]));
            self.lemma_image(g0, g1, f, x);
            assert(g0.has_arc(u, x) <==> g1.has_arc(f[u], f[x]));
            assert(g0.has_arc(x, u) <==> g1.has_arc(f[x], f[u]));
            if g1.has_arc(v, v) {
                g1.lemma_acyclic_no_return(v, v);
                g1.lemma_reaches_self(v);
            }
            assert(g1.neighbours(v).contains(f[x]));
            lemma_filter_mem(n1, open_in(self.right, front), f[x]);
        }
        assert forall|i: int, j: int| 0 <= i < img.len() && 0 <= j < img.len() && i != j implies img[i]
            != img[j] by {
            assert(g0.contains_node(a[i]) && g0.contains_node(a[j]));
            assert(a[i] != a[j]);
        }
        assert forall|y: usize| img.contains(y) implies b.contains(y) by {
            let i = choose|i: int| 0 <= i < img.len() && img[i] == y;
            assert(b.contains(f[a[i]]));
        }
        lemma_no_duplicates_within(img, b);
    }

    /// A pairing that fits and leaves no node of either graph without a partner pairs
    /// the nodes of the two graphs one-to-one and keeps every edge.
    pub(crate) proof fn lemma_complete(self, g0: Arena, g1: Arena)
        requires
            g0.well_formed(),
            g1.well_formed(),
            self.fits(g0, g1),
            self.depth == g0.node_count(),
            g0.node_count() == g1.node_count(),
        ensures
            is_isomorphism(g0, g1, self.as_map()),
            extends(self.as_map(), self),
    {
        let f = self.as_map();
        g0.lemma_counts();
        g1.lemma_counts();
        assert forall|x: usize| self.paired.contains(x) implies g0.node_ids().contains(x) by {
            assert(self.left.has(x));
        }
        lemma_no_duplicates_within(self.paired, g0.node_ids());
        assert forall|a: usize| #[trigger] f.dom().contains(a) <==> g0.contains_node(a) by {
            if g0.contains_node(a) {
                assert(g0.node_ids().contains(a));
                assert(self.paired.contains(a));
            }
        }
        let img = g0.node_ids().map_values(|a: usize| self.left.partner[a as int]);
        assert forall|i: int| 0 <= i < img.len() implies g0.contains_node(
            #[trigger] g0.node_ids()[i],
        ) && self.left.has(g0.node_ids()[i]) by {
            assert(g0.node_ids().contains(g0.node_ids()[i]));
            assert(f.dom().contains(g0.node_ids()[i]));
        }
        assert forall|i: int, j: int| 0 <= i < img.len() && 0 <= j < img.len() && i != j implies img[i]
            != img[j] by {
            assert(self.left.has(g0.node_ids()[i]) && self.left.has(g0.node_ids()[j]));
        }
        assert forall|y: usize| img.contains(y) implies g1.node_ids().contains(y) by {
            let i = choose|i: int| 0 <= i < img.len() && img[i] == y;
            assert(self.left.has(g0.node_ids()[i]));
            assert(self.right.has(y));
            assert(g1.contains_node(y));
        }
        lemma_no_duplicates_within(img, g1.node_ids());
        assert forall|c: usize| #[trigger] g1.contains_node(c) implies exists|a: usize|
            g0.contains_node(a) && #[trigger] f[a] == c by {
            assert(g1.node_ids().contains(c));
            assert(img.contains(c));
            let i = choose|i: int| 0 <= i < img.len() && img[i] == c;
            let a = g0.node_ids()[i];
            assert(g0.contains_node(a) && f[a] == c);
        }
        assert forall|a: usize, b: usize|
            g0.contains_node(a) && g0.contains_node(b) && #[trigger] f[a] == #[trigger] f[b] implies a
            == b by {
            assert(f.dom().contains(a) && f.dom().contains(b));
            assert(self.left.has(a) && self.left.has(b));
        }
        assert forall|a: usize| #[trigger] g0.contains_node(a) implies g1.contains_node(f[a]) by {
            assert(f.dom().contains(a));
            assert(self.left.has(a));
            assert(self.right.has(self.left.partner[a as int]));
        }
        assert forall|a: usize, b: usize| g0.contains_node(a) && g0.contains_node(b) implies (
        #[trigger] g0.has_arc(a, b) <==> g1.has_arc(f[a], f[b])) by {
            assert(f.dom().contains(a) && f.dom().contains(b));
        }
    }

    /// While fewer pairs have been made than there are nodes, some node is free.
    pub(crate) proof fn lemma_some_node_free(self, g0: Arena, g1: Arena)
        requires
            g0.well_formed(),
            self.fits(g0, g1),
            self.depth < g0.node_count(),
        ensures
            exists|a: usize| #[trigger] g0.contains_node(a) && self.left.is_free(a),
    {
        g0.lemma_counts();
        if forall|a: usize| #[trigger] g0.contains_node(a) ==> !self.left.is_free(a) {
            assert forall|x: usize| g0.node_ids().contains(x) implies self.paired.contains(x) by {
                assert(g0.contains_node(x));
                assert(self.left.has(x));
            }
            lemma_no_duplicates_within(g0.node_ids(), self.paired);
        }
    }
}

/// A graph without nodes has no edges.
pub proof fn lemma_no_nodes_no_edges(g: Arena)
    requires
        g.well_formed(),
        g.node_count() == 0,
    ensures
        g.edge_count() == 0,
{
    g.lemma_counts();
    if g.edge_count() > 0 {
        let e = g.edge_ids()[0];
        assert(g.edge_ids().contains(e));
        assert(g.contains_edge(e));
        assert(g.node_ids().contains(g.source(e)));
        let i = choose|i: int| 0 <= i < g.node_ids().len() && g.node_ids()[i] == g.source(e);
    }
}

/// Two graphs whose nodes can be paired one-to-one have as many nodes.
pub proof fn lemma_isomorphism_counts(g0: Arena, g1: Arena, f: Map<usize, usize>)
    requires
        g0.well_formed(),
        g1.well_formed(),
        is_isomorphism(g0, g1, f),
    ensures
        g0.node_count() == g1.node_count(),
{
    g0.lemma_counts();
    g1.lemma_counts();
    let ids0 = g0.node_ids();
    let ids1 = g1.node_ids();
    let img = ids0.map_values(|a: usize| f[a]);
    assert forall|i: int| 0 <= i < ids0.len() implies g0.contains_node(#[trigger] ids0[i]) by {
        assert(ids0.contains(ids0[i]));
    }
    assert forall|i: int, j: int| 0 <= i < img.len() && 0 <= j < img.len() && i != j implies img[i]
        != img[j] by {
        assert(g0.contains_node(ids0[i]) && g0.contains_node(ids0[j]));
    }
    assert forall|y: usize| img.contains(y) implies ids1.contains(y) by {
        let i = choose|i: int| 0 <= i < img.len() && img[i] == y;
        assert(g0.contains_node(ids0[i]));
        assert(g1.contains_node(f[ids0[i]]));
    }
    lemma_no_duplicates_within(img, ids1);
    assert forall|y: usize| ids1.contains(y) implies img.contains(y) by {
        assert(g1.contains_node(y));
        let a = choose|a: usize| g0.contains_node(a) && #[trigger] f[a] == y;
        assert(ids0.contains(a));
        let i = choose|i: int| 0 <= i < ids0.len() && ids0[i] == a;
        assert(img[i] == y);
    }
    lemma_no_duplicates_within(ids1, img);
}

/// Whether no pairing of all nodes that `matcher` cannot refuse contains the pairing
/// `m` and pairs `u` with `v`.
#[verifier::opaque]
pub(crate) open spec fn ruled_out<F: Fn(u64, u64) -> Option<bool>>(
    matcher: &F,
    g0: Arena,
    g1: Arena,
    m: PairingModel,
    u: usize,
    v: usize,
) -> bool {
    forall|f: Map<usize, usize>|
        !(#[trigger] is_isomorphism(g0, g1, f) && extends(f, m) && f[u] == v && cannot_refuse(
            matcher,
            g0,
            g1,
            f,
        ))
}

/// Whether no pairing of all nodes that `matcher` cannot refuse contains the pairing
/// `m`.
#[verifier::opaque]
pub(crate) open spec fn hopeless<F: Fn(u64, u64) -> Option<bool>>(
    matcher: &F,
    g0: Arena,
    g1: Arena,
    m: PairingModel,
) -> bool {
    forall|f: Map<usize, usize>|
        !(#[trigger] is_isomorphism(g0, g1, f) && extends(f, m) && cannot_refuse(matcher, g0, g1, f))
}

/// A node that cannot be paired with any node of the other graph leaves no hope.
pub(crate) proof fn lemma_hopeless<F: Fn(u64, u64) -> Option<bool>>(
    matcher: &F,
    g0: Arena,
    g1: Arena,
    m: PairingModel,
    u: usize,
)
    requires
        g0.contains_node(u),
        forall|v: usize| g1.contains_node(v) ==> #[trigger] ruled_out(matcher, g0, g1, m, u, v),
    ensures
        hopeless(matcher, g0, g1, m),
{
    reveal(hopeless);
    assert forall|f: Map<usize, usize>|
        !(#[trigger] is_isomorphism(g0, g1, f) && extends(f, m) && cannot_refuse(
            matcher,
            g0,
            g1,
            f,
        )) by {
        if is_isomorphism(g0, g1, f) && extends(f, m) {
            assert(g1.contains_node(f[u]));
            assert(ruled_out(matcher, g0, g1, m, u, f[u]));
            reveal(ruled_out);
        }
    }
}

/// If there is no hope once `u` and `v` are paired, the two cannot be paired.
pub(crate) proof fn lemma_ruled_out_by_search<F: Fn(u64, u64) -> Option<bool>>(
    matcher: &F,
    g0: Arena,
    g1: Arena,
    m: PairingModel,
    u: usize,
    v: usize,
)
    requires
        hopeless(matcher, g0, g1, m.joined(g0, g1, u, v)),
        u < m.left.partner.len(),
    ensures
        ruled_out(matcher, g0, g1, m, u, v),
{
    reveal(hopeless);
    reveal(ruled_out);
    assert forall|f: Map<usize, usize>|
        !(#[trigger] is_isomorphism(g0, g1, f) && extends(f, m) && f[u] == v && cannot_refuse(
            matcher,
            g0,
            g1,
            f,
        )) by {
        if is_isomorphism(g0, g1, f) && extends(f, m) && f[u] == v {
            let j = m.joined(g0, g1, u, v);
            assert forall|a: usize| #[trigger] j.left.has(a) implies f[a] == j.left.partner[a as int] by {
                if a != u {
                    assert(m.left.has(a));
                }
            }
            assert(extends(f, j));
        }
    }
}

/// A free node cannot be paired with a node that has a partner, nor a node at the front
/// with a node that is not.
pub(crate) proof fn lemma_ruled_out_by_place<F: Fn(u64, u64) -> Option<bool>>(
    matcher: &F,
    g0: Arena,
    g1: Arena,
    m: PairingModel,
    u: usize,
    v: usize,
)
    requires
        m.fits(g0, g1),
        g0.contains_node(u),
        m.left.is_free(u),
        !m.right.is_free(v) || (m.left.at_front(u) && !m.right.at_front(v)),
    ensures
        ruled_out(matcher, g0, g1, m, u, v),
{
    reveal(ruled_out);
    assert forall|f: Map<usize, usize>|
        !(#[trigger] is_isomorphism(g0, g1, f) && extends(f, m) && f[u] == v && cannot_refuse(
            matcher,
            g0,
            g1,
            f,
        )) by {
        if is_isomorphism(g0, g1, f) && extends(f, m) && f[u] == v {
            m.lemma_image(g0, g1, f, u);
        }
    }
}

/// Two nodes cannot be paired if the edges between them and the paired node `b` differ.
pub(crate) proof fn lemma_ruled_out_by_edge<F: Fn(u64, u64) -> Option<bool>>(
    matcher: &F,
    g0: Arena,
    g1: Arena,
    m: PairingModel,
    u: usize,
    v: usize,
    b: usize,
)
    requires
        m.fits(g0, g1),
        g0.contains_node(u),
        m.left.has(b),
        !m.agrees_at(g0, g1, u, v, b),
    ensures
        ruled_out(matcher, g0, g1, m, u, v),
{
    reveal(ruled_out);
    assert forall|f: Map<usize, usize>|
        !(#[trigger] is_isomorphism(g0, g1, f) && extends(f, m) && f[u] == v && cannot_refuse(
            matcher,
            g0,
            g1,
            f,
        )) by {
        if is_isomorphism(g0, g1, f) && extends(f, m) && f[u] == v {
            assert(f[b] == m.left.partner[b as int]);
            assert(g0.has_arc(u, b) <==> g1.has_arc(f[u], f[b]));
            assert(g0.has_arc(b, u) <==> g1.has_arc(f[b], f[u]));
        }
    }
}

/// Two nodes cannot be paired if the first has more free neighbours, or more neighbours at
/// the front, than the second.
pub(crate) proof fn lemma_ruled_out_by_count<F: Fn(u64, u64) -> Option<bool>>(
    matcher: &F,
    g0: Arena,
    g1: Arena,
    m: PairingModel,
    u: usize,
    v: usize,
    front: bool,
)
    requires
        g0.well_formed(),
        g1.well_formed(),
        g1.acyclic(),
        m.fits(g0, g1),
        g0.contains_node(u),
        m.left.is_free(u),
        distinct(g0.neighbours(u)).filter(open_in(m.left, front)).len() > distinct(
            g1.neighbours(v),
        ).filter(open_in(m.right, front)).len(),
    ensures
        ruled_out(matcher, g0, g1, m, u, v),
{
    reveal(ruled_out);
    assert forall|f: Map<usize, usize>|
        !(#[trigger] is_isomorphism(g0, g1, f) && extends(f, m) && f[u] == v && cannot_refuse(
            matcher,
            g0,
            g1,
            f,
        )) by {
        if is_isomorphism(g0, g1, f) && extends(f, m) && f[u] == v {
            m.lemma_image_count(g0, g1, f, u, front);
        }
    }
}

/// Two nodes cannot be paired if `matcher` can refuse them.
pub(crate) proof fn lemma_ruled_out_by_matcher<F: Fn(u64, u64) -> Option<bool>>(
    matcher: &F,
    g0: Arena,
    g1: Arena,
    m: PairingModel,
    u: usize,
    v: usize,
)
    requires
        g0.contains_node(u),
        matcher.ensures((g0.payload(u), g1.payload(v)), Some(false)),
    ensures
        ruled_out(matcher, g0, g1, m, u, v),
{
    reveal(ruled_out);
    assert forall|f: Map<usize, usize>|
        !(#[trigger] is_isomorphism(g0, g1, f) && extends(f, m) && f[u] == v && cannot_refuse(
            matcher,
            g0,
            g1,
            f,
        )) by {
        if f[u] == v && cannot_refuse(matcher, g0, g1, f) {
            assert(matcher.ensures((g0.payload(u), g1.payload(f[u])), Some(false)));
        }
    }
}

/// Gives each node in `near` that has no mark the mark `depth`.
fn mark(touched: &mut Vec<usize>, near: &Vec<usize>, depth: usize)
    requires
        forall|i: int| 0 <= i < near.len() ==> (#[trigger] near@[i]) < old(touched).len(),
    ensures
        final(touched)@ == marked(old(touched)@, near@, depth),
{
    let mut i: usize = 0;
    while i < near.len()
        invariant
            i <= near.len(),
            touched.len() == old(touched).len(),
            forall|i: int| 0 <= i < near.len() ==> (#[trigger] near@[i]) < touched.len(),
            touched@ == marked(old(touched)@, near@.take(i as int), depth),
        decreases near.len() - i,
    {
        let n = near[i];
        proof {
            assert(near@.take(i + 1) =~= near@.take(i as int).push(n));
            lemma_push_members(near@.take(i as int), n);
        }
        if touched[n] == 0 {
            touched[n] = depth;
        }
        assert(touched@ =~= marked(old(touched)@, near@.take(i + 1), depth));
        i += 1;
    }
    assert(near@.take(near.len() as int) =~= near@);
}

/// Takes the mark `depth` from each node in `near` that has it.
fn unmark(touched: &mut Vec<usize>, near: &Vec<usize>, depth: usize)
    requires
        forall|i: int| 0 <= i < near.len() ==> (#[trigger] near@[i]) < old(touched).len(),
    ensures
        final(touched)@ == unmarked(old(touched)@, near@, depth),
{
    let mut i: usize = 0;
    while i < near.len()
        invariant
            i <= near.len(),
            touched.len() == old(touched).len(),
            forall|i: int| 0 <= i < near.len() ==> (#[trigger] near@[i]) < touched.len(),
            touched@ == unmarked(old(touched)@, near@.take(i as int), depth),
        decreases near.len() - i,
    {
        let n = near[i];
        proof {
            assert(near@.take(i + 1) =~= near@.take(i as int).push(n));
            lemma_push_members(near@.take(i as int), n);
        }
        if touched[n] == depth {
            touched[n] = 0;
        }
        assert(touched@ =~= unmarked(old(touched)@, near@.take(i + 1), depth));
        i += 1;
    }
    assert(near@.take(near.len() as int) =~= near@);
}

/// Pairs `u` with `v`.
fn push_pair(g0: &DiGraph, g1: &DiGraph, st: &mut Pairing, u: usize, v: usize)
    requires
        arena(*g0).well_formed(),
        arena(*g0).acyclic(),
        arena(*g1).well_formed(),
        arena(*g1).acyclic(),
        old(st)@.fits(arena(*g0), arena(*g1)),
        arena(*g0).contains_node(u),
        arena(*g1).contains_node(v),
        !old(st)@.left.has(u),
        !old(st)@.right.has(v),
        old(st).depth < usize::MAX,
        old(st)@.agrees(arena(*g0), arena(*g1), u, v),
    ensures
        final(st)@ == old(st)@.joined(arena(*g0), arena(*g1), u, v),
        final(st)@.fits(arena(*g0), arena(*g1)),
{
    proof {
        st@.lemma_joined(arena(*g0), arena(*g1), u, v);
        arena(*g0).lemma_neighbours(u);
        arena(*g1).lemma_neighbours(v);
    }
    st.left.partner[u] = v;
    st.right.partner[v] = u;
    st.depth = st.depth + 1;
    let near0 = graph_neighbors_undirected(g0, u);
    mark(&mut st.left.touched, &near0, st.depth);
    let near1 = graph_neighbors_undirected(g1, v);
    mark(&mut st.right.touched, &near1, st.depth);
    proof {
        st.paired = Ghost(st.paired@.push(u));
    }
}

/// Parts `u` and `v`, which were paired last.
fn pop_pair(g0: &DiGraph, g1: &DiGraph, st: &mut Pairing, u: usize, v: usize)
    requires
        arena(*g0).well_formed(),
        arena(*g1).well_formed(),
        old(st)@.fits(arena(*g0), arena(*g1)),
        arena(*g0).contains_node(u),
        arena(*g1).contains_node(v),
        old(st).depth > 0,
    ensures
        final(st)@ == old(st)@.parted(arena(*g0), arena(*g1), u, v),
{
    proof {
        arena(*g0).lemma_neighbours(u);
        arena(*g1).lemma_neighbours(v);
    }
    let near0 = graph_neighbors_undirected(g0, u);
    unmark(&mut st.left.touched, &near0, st.depth);
    let near1 = graph_neighbors_undirected(g1, v);
    unmark(&mut st.right.touched, &near1, st.depth);
    st.left.partner[u] = NONE;
    st.right.partner[v] = NONE;
    st.depth = st.depth - 1;
    proof {
        st.paired = Ghost(st.paired@.drop_last());
    }
}

/// One more than the largest member of `ids`; zero if there is none.
fn bound_of(ids: &Vec<usize>) -> (r: usize)
    requires
        forall|i: int| 0 <= i < ids.len() ==> (#[trigger] ids@[i]) < usize::MAX,
    ensures
        forall|i: int| 0 <= i < ids.len() ==> (#[trigger] ids@[i]) < r,
{
    let mut bound: usize = 0;
    let mut i: usize = 0;
    while i < ids.len()
        invariant
            i <= ids.len(),
            forall|i: int| 0 <= i < ids.len() ==> (#[trigger] ids@[i]) < usize::MAX,
            forall|j: int| 0 <= j < i ==> (#[trigger] ids@[j]) < bound,
        decreases ids.len() - i,
    {
        if ids[i] >= bound {
            bound = ids[i] + 1;
        }
        i += 1;
    }
    bound
}

/// Whether an edge runs from `a` to `b`.
fn joined_by(g: &DiGraph, a: usize, b: usize) -> (r: bool)
    requires
        arena(*g).well_formed(),
        a <= u32::MAX,
        b <= u32::MAX,
    ensures
        r == arena(*g).has_arc(a, b),
{
    proof {
        arena(*g).lemma_first_edge(a, b);
    }
    graph_find_edge(g, a, b).is_some()
}

/// A vector of `n` entries `x`.
fn filled(n: usize, x: usize) -> (r: Vec<usize>)
    ensures
        r@.len() == n,
        forall|i: int| 0 <= i < n ==> r@[i] == x,
{
    let mut out: Vec<usize> = Vec::new();
    let mut k: usize = 0;
    while k < n
        invariant
            k <= n,
            out@.len() == k,
            forall|i: int| 0 <= i < k ==> out@[i] == x,
        decreases n - k,
    {
        out.push(x);
        k += 1;
    }
    out
}

/// The number of nodes in `near` that have no partner, or, with `front`, that have none
/// and touch a node that has one.
fn count_open(side: &Side, near: &Vec<usize>, front: bool) -> (r: usize)
    requires
        side.partner.len() == side.touched.len(),
        forall|i: int| 0 <= i < near.len() ==> (#[trigger] near@[i]) < side.partner.len(),
    ensures
        r == near@.filter(open_in(side@, front)).len(),
{
    let mut count: usize = 0;
    let mut i: usize = 0;
    while i < near.len()
        invariant
            i <= near.len(),
            count <= i,
            side.partner.len() == side.touched.len(),
            forall|i: int| 0 <= i < near.len() ==> (#[trigger] near@[i]) < side.partner.len(),
            count == near@.take(i as int).filter(open_in(side@, front)).len(),
        decreases near.len() - i,
    {
        let n = near[i];
        proof {
            assert(near@.take(i + 1) =~= near@.take(i as int).push(n));
            near@.take(i as int).lemma_filter_push(n, open_in(side@, front));
        }
        if side.partner[n] == NONE && (!front || side.touched[n] > 0) {
            count += 1;
        }
        i += 1;
    }
    assert(near@.take(near.len() as int) =~= near@);
    count
}

/// What the answer of a matcher means for the search: "yes" and "no" are passed on, and a
/// matcher that failed ends the search with `CallbackFailure`.
pub fn matched(answer: Option<bool>) -> (r: Result<bool, DagError>)
    ensures
        r == (match answer {
            Some(accepted) => Ok::<bool, DagError>(accepted),
            None => Err(DagError::CallbackFailure),
        }),
{
    match answer {
        Some(accepted) => Ok(accepted),
        None => Err(DagError::CallbackFailure),
    }
}

/// Whether `u` and `v` can be paired next: the edges between each of them and the paired
/// nodes agree, `u` has no more neighbours at the front and no more free neighbours than
/// `v`, and `matcher` accepts their payloads.
fn feasible<F: Fn(u64, u64) -> Option<bool>>(
    g0: &DiGraph,
    g1: &DiGraph,
    st: &Pairing,
    u: usize,
    v: usize,
    matcher: &F,
) -> (r: Result<bool, DagError>)
    requires
        arena(*g0).well_formed(),
        arena(*g0).acyclic(),
        arena(*g1).well_formed(),
        arena(*g1).acyclic(),
        st@.fits(arena(*g0), arena(*g1)),
        arena(*g0).contains_node(u),
        arena(*g1).contains_node(v),
        st@.left.is_free(u),
        st@.right.is_free(v),
        forall|a: usize, b: usize|
            arena(*g0).contains_node(a) && arena(*g1).contains_node(b) ==> #[trigger] matcher.requires(
                (arena(*g0).payload(a), arena(*g1).payload(b)),
            ),
    ensures
        match r {
            Ok(true) => st@.agrees(arena(*g0), arena(*g1), u, v) && matcher.ensures(
                (arena(*g0).payload(u), arena(*g1).payload(v)),
                Some(true),
            ),
            Ok(false) => ruled_out(matcher, arena(*g0), arena(*g1), st@, u, v),
            Err(e) => e == DagError::CallbackFailure && may_fail(matcher, arena(*g0), arena(*g1)),
        },
{
    let ghost a0 = arena(*g0);
    let ghost a1 = arena(*g1);
    let all0 = graph_neighbors_undirected(g0, u);
    let all1 = graph_neighbors_undirected(g1, v);
    let near0 = distinct_ids(&all0);
    let near1 = distinct_ids(&all1);
    proof {
        a0.lemma_neighbours(u);
        a1.lemma_neighbours(v);
        lemma_distinct(all0@);
        lemma_distinct(all1@);
        assert forall|i: int| 0 <= i < near0.len() implies a0.contains_node(#[trigger] near0@[i]) by {
            assert(near0@.contains(near0@[i]));
            let k = choose|k: int| 0 <= k < all0@.len() && all0@[k] == near0@[i];
            assert(a0.contains_node(a0.neighbours(u)[k]));
        }
        assert forall|i: int| 0 <= i < near1.len() implies a1.contains_node(#[trigger] near1@[i]) by {
            assert(near1@.contains(near1@[i]));
            let k = choose|k: int| 0 <= k < all1@.len() && all1@[k] == near1@[i];
            assert(a1.contains_node(a1.neighbours(v)[k]));
        }
    }
    let mut i: usize = 0;
    while i < near0.len()
        invariant
            i <= near0.len(),
            a0 == arena(*g0),
            a1 == arena(*g1),
            a0.well_formed(),
            a1.well_formed(),
            st@.fits(a0, a1),
            a0.contains_node(u),
            a1.contains_node(v),
            forall|i: int| 0 <= i < near0.len() ==> a0.contains_node(#[trigger] near0@[i]),
            forall|k: int|
                0 <= k < i && st@.left.has(#[trigger] near0@[k]) ==> st@.agrees_at(
                    a0,
                    a1,
                    u,
                    v,
                    near0@[k],
                ),
        decreases near0.len() - i,
    {
        let n = near0[i];
        assert(a0.contains_node(near0@[i as int]));
        let m = st.left.partner[n];
        if m != NONE {
            assert(st@.left.has(n));
            let same = joined_by(g0, u, n) == joined_by(g1, v, m) && joined_by(g0, n, u)
                == joined_by(g1, m, v);
            if !same {
                proof {
                    lemma_ruled_out_by_edge(matcher, a0, a1, st@, u, v, n);
                }
                return Ok(false);
            }
        }
        i += 1;
    }
    let mut i: usize = 0;
    while i < near1.len()
        invariant
            i <= near1.len(),
            a0 == arena(*g0),
            a1 == arena(*g1),
            a0.well_formed(),
            a1.well_formed(),
            st@.fits(a0, a1),
            a0.contains_node(u),
            a1.contains_node(v),
            forall|i: int| 0 <= i < near1.len() ==> a1.contains_node(#[trigger] near1@[i]),
            forall|k: int|
                0 <= k < i && st@.right.has(#[trigger] near1@[k]) ==> st@.agrees_at(
                    a0,
                    a1,
                    u,
                    v,
                    st@.right.partner[near1@[k] as int],
                ),
        decreases near1.len() - i,
    {
        let m = near1[i];
        assert(a1.contains_node(near1@[i as int]));
        let n = st.right.partner[m];
        if n != NONE {
            assert(st@.right.has(m));
            assert(st@.left.has(n) && st@.left.partner[n as int] == m);
            let same = joined_by(g0, u, n) == joined_by(g1, v, m) && joined_by(g0, n, u)
                == joined_by(g1, m, v);
            if !same {
                proof {
                    lemma_ruled_out_by_edge(matcher, a0, a1, st@, u, v, n);
                }
                return Ok(false);
            }
        }
        i += 1;
    }
    proof {
        assert forall|b: usize| #[trigger] st@.left.has(b) implies st@.agrees_at(a0, a1, u, v, b) by {
            let m = st@.left.partner[b as int];
            assert(st@.right.has(m) && st@.right.partner[m as int] == b);
            if a0.has_arc(u, u) {
                a0.lemma_acyclic_no_return(u, u);
                a0.lemma_reaches_self(u);
            }
            if a1.has_arc(v, v) {
                a1.lemma_acyclic_no_return(v, v);
                a1.lemma_reaches_self(v);
            }
            if a0.touches(u, b) {
                assert(all0@.contains(b));
                assert(near0@.contains(b));
                let k = choose|k: int| 0 <= k < near0@.len() && near0@[k] == b;
                assert(st@.left.has(near0@[k]));
            } else if a1.touches(v, m) {
                assert(all1@.contains(m));
                assert(near1@.contains(m));
                let k = choose|k: int| 0 <= k < near1@.len() && near1@[k] == m;
                assert(st@.right.has(near1@[k]));
            }
        }
    }
    let front0 = count_open(&st.left, &near0, true);
    let front1 = count_open(&st.right, &near1, true);
    let free0 = count_open(&st.left, &near0, false);
    let free1 = count_open(&st.right, &near1, false);
    if front0 > front1 || free0 > free1 {
        proof {
            lemma_ruled_out_by_count(matcher, a0, a1, st@, u, v, front0 > front1);
        }
        return Ok(false);
    }
    let w0 = graph_node_weight(g0, u).unwrap();
    let w1 = graph_node_weight(g1, v).unwrap();
    assert(matcher.requires((a0.payload(u), a1.payload(v))));
    let answer = matcher(w0, w1);
    proof {
        assert(a0.contains_node(u) && a1.contains_node(v) && matcher.ensures(
            (a0.payload(u), a1.payload(v)),
            answer,
        ));
        if answer == Some(false) {
            lemma_ruled_out_by_matcher(matcher, a0, a1, st@, u, v);
        }
    }
    matched(answer)
}

/// The node of the first graph to pair next: the free node with the least handle among
/// those at the front, or among all free nodes when none is at the front.
fn next_left(ids: &Vec<usize>, st: &Pairing) -> (r: Option<(usize, bool)>)
    requires
        st.left.partner.len() == st.left.touched.len(),
        forall|i: int| 0 <= i < ids.len() ==> (#[trigger] ids@[i]) < st.left.partner.len(),
    ensures
        match r {
            Some((u, front)) => ids@.contains(u) && st@.left.is_free(u) && (front
                ==> st@.left.at_front(u)),
            None => forall|a: usize| ids@.contains(a) ==> !st@.left.is_free(a),
        },
{
    let mut i: usize = 0;
    while i < ids.len()
        invariant
            i <= ids.len(),
            st.left.partner.len() == st.left.touched.len(),
            forall|i: int| 0 <= i < ids.len() ==> (#[trigger] ids@[i]) < st.left.partner.len(),
        decreases ids.len() - i,
    {
        let a = ids[i];
        if st.left.partner[a] == NONE && st.left.touched[a] > 0 {
            return Some((a, true));
        }
        i += 1;
    }
    let mut i: usize = 0;
    while i < ids.len()
        invariant
            i <= ids.len(),
            st.left.partner.len() == st.left.touched.len(),
            forall|i: int| 0 <= i < ids.len() ==> (#[trigger] ids@[i]) < st.left.partner.len(),
            forall|k: int| 0 <= k < i ==> !st@.left.is_free(#[trigger] ids@[k]),
        decreases ids.len() - i,
    {
        let a = ids[i];
        if st.left.partner[a] == NONE {
            return Some((a, false));
        }
        i += 1;
    }
    None
}

/// Extends the pairing `st` to all nodes, if that can be done: pairs the next node of the
/// first graph with each free node of the second one in turn, those at the front only if
/// the node is at the front itself, until the rest of the search succeeds.
fn try_match<F: Fn(u64, u64) -> Option<bool>>(
    g0: &DiGraph,
    g1: &DiGraph,
    ids0: &Vec<usize>,
    ids1: &Vec<usize>,
    st: &mut Pairing,
    matcher: &F,
) -> (r: Result<bool, DagError>)
    requires
        arena(*g0).well_formed(),
        arena(*g0).acyclic(),
        arena(*g1).well_formed(),
        arena(*g1).acyclic(),
        ids0@ == arena(*g0).node_ids(),
        ids1@ == arena(*g1).node_ids(),
        ids0.len() == ids1.len(),
        old(st)@.fits(arena(*g0), arena(*g1)),
        old(st).depth <= ids0.len(),
        forall|a: usize| #[trigger]
            old(st)@.left.has(a) ==> matcher.ensures(
                (
                    arena(*g0).payload(a),
                    arena(*g1).payload(old(st)@.left.partner[a as int]),
                ),
                Some(true),
            ),
        forall|a: usize, b: usize|
            arena(*g0).contains_node(a) && arena(*g1).contains_node(b) ==> #[trigger] matcher.requires(
                (arena(*g0).payload(a), arena(*g1).payload(b)),
            ),
    ensures
        match r {
            Ok(true) => exists|f: Map<usize, usize>| #[trigger]
                is_isomorphism(arena(*g0), arena(*g1), f) && may_accept(
                    matcher,
                    arena(*g0),
                    arena(*g1),
                    f,
                ),
            Ok(false) => final(st)@ == old(st)@ && hopeless(
                matcher,
                arena(*g0),
                arena(*g1),
                old(st)@,
            ),
            Err(e) => e == DagError::CallbackFailure && may_fail(matcher, arena(*g0), arena(*g1)),
        },
    decreases ids0.len() - old(st).depth,
{
    let ghost a0 = arena(*g0);
    let ghost a1 = arena(*g1);
    let ghost entry = st@;
    proof {
        a0.lemma_counts();
        a1.lemma_counts();
    }
    if st.depth == ids0.len() {
        proof {
            st@.lemma_complete(a0, a1);
            let f = st@.as_map();
            assert forall|a: usize| #[trigger] a0.contains_node(a) implies matcher.ensures(
                (a0.payload(a), a1.payload(f[a])),
                Some(true),
            ) by {
                assert(f.dom().contains(a));
                assert(st@.left.has(a));
            }
            assert(is_isomorphism(a0, a1, f) && may_accept(matcher, a0, a1, f));
        }
        return Ok(true);
    }
    proof {
        assert forall|i: int| 0 <= i < ids0.len() implies (#[trigger] ids0@[i])
            < st.left.partner.len() by {
            assert(ids0@.contains(ids0@[i]));
            assert(a0.contains_node(ids0@[i]));
        }
    }
    let (u, front) = match next_left(ids0, st) {
        Some(next) => next,
        None => {
            proof {
                st@.lemma_some_node_free(a0, a1);
                let a = choose|a: usize| #[trigger] a0.contains_node(a) && st@.left.is_free(a);
                assert(ids0@.contains(a));
            }
            return Ok(false);
        },
    };
    let mut i: usize = 0;
    while i < ids1.len()
        invariant
            i <= ids1.len(),
            a0 == arena(*g0),
            a1 == arena(*g1),
            a0.well_formed(),
            a0.acyclic(),
            a1.well_formed(),
            a1.acyclic(),
            ids0@ == a0.node_ids(),
            ids1@ == a1.node_ids(),
            ids0.len() == ids1.len(),
            forall|a: usize| #[trigger] ids1@.contains(a) <==> a1.contains_node(a),
            st@ == entry,
            entry == old(st)@,
            st@.fits(a0, a1),
            st.depth < ids0.len(),
            a0.contains_node(u),
            st@.left.is_free(u),
            front ==> st@.left.at_front(u),
            forall|a: usize| #[trigger]
                st@.left.has(a) ==> matcher.ensures(
                    (a0.payload(a), a1.payload(st@.left.partner[a as int])),
                    Some(true),
                ),
            forall|a: usize, b: usize|
                a0.contains_node(a) && a1.contains_node(b) ==> #[trigger] matcher.requires(
                    (a0.payload(a), a1.payload(b)),
                ),
            forall|k: int|
                0 <= k < i ==> ruled_out(matcher, a0, a1, entry, u, #[trigger] ids1@[k]),
        decreases ids1.len() - i,
    {
        let v = ids1[i];
        assert(ids1@.contains(ids1@[i as int]));
        if st.right.partner[v] == NONE && (!front || st.right.touched[v] > 0) {
            match feasible(g0, g1, st, u, v, matcher) {
                Err(e) => {
                    return Err(e);
                },
                Ok(false) => {},
                Ok(true) => {
                    proof {
                        st@.lemma_joined(a0, a1, u, v);
                    }
                    push_pair(g0, g1, st, u, v);
                    match try_match(g0, g1, ids0, ids1, st, matcher) {
                        Err(e) => {
                            return Err(e);
                        },
                        Ok(true) => {
                            return Ok(true);
                        },
                        Ok(false) => {
                            pop_pair(g0, g1, st, u, v);
                            proof {
                                lemma_ruled_out_by_search(matcher, a0, a1, entry, u, v);
                            }
                        },
                    }
                },
            }
        } else {
            proof {
                lemma_ruled_out_by_place(matcher, a0, a1, entry, u, v);
            }
        }
        i += 1;
    }
    proof {
        assert forall|v: usize| a1.contains_node(v) implies #[trigger] ruled_out(
            matcher,
            a0,
            a1,
            entry,
            u,
            v,
        ) by {
            assert(ids1@.contains(v));
            let k = choose|k: int| 0 <= k < ids1@.len() && ids1@[k] == v;
            assert(ruled_out(matcher, a0, a1, entry, u, ids1@[k]));
        }
        lemma_hopeless(matcher, a0, a1, entry, u);
    }
    Ok(false)
}

/// Whether the two graphs have as many edges and their nodes can be paired one-to-one such
/// that an edge joins two nodes exactly if an edge joins their partners in the same
/// direction, and `node_match` accepts the payloads of the nodes of each pair.
///
/// Graphs with different numbers of edges or of nodes are told apart at once, and
/// `node_match` is not asked. Otherwise the search stops at the first such pairing.
/// `node_match` is asked once for each pair that the search considers, after the edges of
/// the pair were found to agree, with the payload of the node of `first` and then that of
/// the node of `second`. The search is abandoned with `CallbackFailure` as soon as it fails;
/// `Ok(false)` is returned only if each pairing that keeps the edges has a pair that
/// `node_match` can refuse.
pub fn is_isomorphic_matching<F: Fn(u64, u64) -> Option<bool>>(
    first: &PyDAG,
    second: &PyDAG,
    node_match: F,
) -> (r: Result<bool, DagError>)
    requires
        first.wf(),
        second.wf(),
        forall|a: usize, b: usize|
            first@.contains_node(a) && second@.contains_node(b) ==> #[trigger] node_match.requires(
                (first@.payload(a), second@.payload(b)),
            ),
    ensures
        match r {
            Ok(true) => first@.edge_count() == second@.edge_count() && exists|
                f: Map<usize, usize>,
            | #[trigger]
                is_isomorphism(first@, second@, f) && may_accept(&node_match, first@, second@, f),
            Ok(false) => !(first@.edge_count() == second@.edge_count() && exists|
                f: Map<usize, usize>,
            | #[trigger]
                is_isomorphism(first@, second@, f) && cannot_refuse(&node_match, first@, second@, f)),
            Err(e) => e == DagError::CallbackFailure && may_fail(&node_match, first@, second@),
        },
        first@.edge_count() != second@.edge_count() || first@.node_count() != second@.node_count()
            ==> r == Ok::<bool, DagError>(false),
        first@.node_count() == 0 && second@.node_count() == 0 ==> r == Ok::<bool, DagError>(true),
{
    let g0 = first.store();
    let g1 = second.store();
    proof {
        if first@.node_count() == 0 && second@.node_count() == 0 {
            lemma_no_nodes_no_edges(first@);
            lemma_no_nodes_no_edges(second@);
        }
    }
    if graph_edge_count(g0) != graph_edge_count(g1) {
        return Ok(false);
    }
    if graph_node_count(g0) != graph_node_count(g1) {
        proof {
            assert forall|f: Map<usize, usize>| !#[trigger] is_isomorphism(first@, second@, f) by {
                if is_isomorphism(first@, second@, f) {
                    lemma_isomorphism_counts(first@, second@, f);
                }
            }
        }
        return Ok(false);
    }
    let ids0 = graph_node_indices(g0);
    let ids1 = graph_node_indices(g1);
    proof {
        first@.lemma_counts();
        second@.lemma_counts();
        assert forall|i: int| 0 <= i < ids0.len() implies (#[trigger] ids0@[i]) < usize::MAX by {
            assert(ids0@.contains(ids0@[i]));
        }
        assert forall|i: int| 0 <= i < ids1.len() implies (#[trigger] ids1@[i]) < usize::MAX by {
            assert(ids1@.contains(ids1@[i]));
        }
    }
    let bound0 = bound_of(&ids0);
    let bound1 = bound_of(&ids1);
    let mut st = Pairing {
        left: Side { partner: filled(bound0, NONE), touched: filled(bound0, 0) },
        right: Side { partner: filled(bound1, NONE), touched: filled(bound1, 0) },
        depth: 0,
        paired: Ghost(Seq::empty()),
    };
    proof {
        assert forall|a: usize| #[trigger] first@.contains_node(a) implies a
            < st@.left.partner.len() by {
            assert(ids0@.contains(a));
            let i = choose|i: int| 0 <= i < ids0@.len() && ids0@[i] == a;
            assert(ids0@[i] < bound0);
        }
        assert forall|a: usize| #[trigger] second@.contains_node(a) implies a
            < st@.right.partner.len() by {
            assert(ids1@.contains(a));
            let i = choose|i: int| 0 <= i < ids1@.len() && ids1@[i] == a;
            assert(ids1@[i] < bound1);
        }
        assert(st@.fits(first@, second@));
    }
    let ghost start = st@;
    let found = try_match(g0, g1, &ids0, &ids1, &mut st, &node_match);
    proof {
        reveal(hopeless);
        assert forall|f: Map<usize, usize>| extends(f, start) by {}
        if first@.node_count() == 0 && second@.node_count() == 0 {
            let f = Map::<usize, usize>::empty();
            assert forall|a: usize| !first@.contains_node(a) by {
                if first@.contains_node(a) {
                    assert(first@.node_ids().contains(a));
                    let i = choose|i: int|
                        0 <= i < first@.node_ids().len() && first@.node_ids()[i] == a;
                }
            }
            assert forall|a: usize| !second@.contains_node(a) by {
                if second@.contains_node(a) {
                    assert(second@.node_ids().contains(a));
                    let i = choose|i: int|
                        0 <= i < second@.node_ids().len() && second@.node_ids()[i] == a;
                }
            }
            assert(is_isomorphism(first@, second@, f));
            assert(cannot_refuse(&node_match, first@, second@, f));
        }
    }
    found
}

/// Whether the two graphs have the same shape: as many edges, and a one-to-one pairing of
/// their nodes such that an edge joins two nodes exactly if an edge joins their partners in
/// the same direction.
pub fn is_isomorphic(first: &PyDAG, second: &PyDAG) -> (r: bool)
    requires
        first.wf(),
        second.wf(),
    ensures
        r == isomorphic(first@, second@),
{
    let accept = |_a: u64, _b: u64| -> (r: Option<bool>)
        ensures
            r == Some(true),
        { Some(true) };
    match is_isomorphic_matching(first, second, accept) {
        Ok(same) => same,
        Err(_) => false,
    }
}

/// Whether the two graphs have the same shape and `matcher` accepts the payloads of the
/// nodes of each pair. The payloads of the edges are not compared.
pub fn is_isomorphic_node_match<F: Fn(u64, u64) -> Option<bool>>(
    first: &PyDAG,
    second: &PyDAG,
    matcher: F,
) -> (r: Result<bool, DagError>)
    requires
        first.wf(),
        second.wf(),
        forall|a: usize, b: usize|
            first@.contains_node(a) && second@.contains_node(b) ==> #[trigger] matcher.requires(
                (first@.payload(a), second@.payload(b)),
            ),
    ensures
        match r {
            Ok(true) => first@.edge_count() == second@.edge_count() && exists|
                f: Map<usize, usize>,
            | #[trigger]
                is_isomorphism(first@, second@, f) && may_accept(&matcher, first@, second@, f),
            Ok(false) => !(first@.edge_count() == second@.edge_count() && exists|
                f: Map<usize, usize>,
            | #[trigger]
                is_isomorphism(first@, second@, f) && cannot_refuse(&matcher, first@, second@, f)),
            Err(e) => e == DagError::CallbackFailure && may_fail(&matcher, first@, second@),
        },
        first@.edge_count() != second@.edge_count() || first@.node_count() != second@.node_count()
            ==> r == Ok::<bool, DagError>(false),
        first@.node_count() == 0 && second@.node_count() == 0 ==> r == Ok::<bool, DagError>(true),
{
    is_isomorphic_matching(first, second, matcher)
}

} // verus!
