//! Facts about filtered sequences and sequences without duplicates.

use crate::model::distinct;
use vstd::prelude::*;

verus! {

/// `distinct` keeps the members and drops the repetitions.
pub proof fn lemma_distinct(s: Seq<usize>)
    ensures
        distinct(s).no_duplicates(),
        forall|x: usize| #[trigger] distinct(s).contains(x) <==> s.contains(x),
        distinct(s).len() <= s.len(),
    decreases s.len(),
{
    if s.len() > 0 {
        let r = s.drop_last();
        lemma_distinct(r);
        let d = distinct(r);
        assert forall|x: usize| #[trigger] distinct(s).contains(x) <==> s.contains(x) by {
            if distinct(s).contains(x) {
                let i = choose|i: int| 0 <= i < distinct(s).len() && distinct(s)[i] == x;
                if i < d.len() {
                    assert(d[i] == x);
                    assert(d.contains(x));
                    let j = choose|j: int| 0 <= j < r.len() && r[j] == x;
                    assert(s[j] == x);
                } else {
                    assert(s[s.len() - 1] == x);
                }
            }
            if s.contains(x) {
                let j = choose|j: int| 0 <= j < s.len() && s[j] == x;
                if j < r.len() {
                    assert(r[j] == x);
                    assert(d.contains(x));
                    let i = choose|i: int| 0 <= i < d.len() && d[i] == x;
                    assert(distinct(s)[i] == x);
                } else if d.contains(x) {
                } else {
                    assert(distinct(s)[d.len() as int] == x);
                }
            }
        }
        if !d.contains(s.last()) {
            assert forall|i: int, j: int|
                0 <= i < d.len() + 1 && 0 <= j < d.len() + 1 && i != j implies d.push(s.last())[i]
                != d.push(s.last())[j] by {
                if i < d.len() && j < d.len() {
                } else if i < d.len() {
                    assert(d.contains(d[i]));
                } else {
                    assert(d.contains(d[j]));
                }
            }
        }
    }
}

/// Filtering keeps exactly the members that satisfy the predicate.
pub proof fn lemma_filter_mem<A>(s: Seq<A>, p: spec_fn(A) -> bool, x: A)
    ensures
        s.filter(p).contains(x) <==> s.contains(x) && p(x),
    decreases s.len(),
{
    reveal(Seq::filter);
    if s.len() > 0 {
        let r = s.drop_last();
        lemma_filter_mem(r, p, x);
        if s.filter(p).contains(x) {
            let i = choose|i: int| 0 <= i < s.filter(p).len() && s.filter(p)[i] == x;
            if p(s.last()) && i == s.filter(p).len() - 1 {
                assert(s[s.len() - 1] == x);
            } else {
                assert(r.filter(p)[i] == x);
                assert(r.filter(p).contains(x));
                let j = choose|j: int| 0 <= j < r.len() && r[j] == x;
                assert(s[j] == x);
            }
        }
        if s.contains(x) && p(x) {
            let j = choose|j: int| 0 <= j < s.len() && s[j] == x;
            if j == s.len() - 1 {
                assert(s.filter(p).last() == x);
            } else {
                assert(r[j] == x);
                assert(r.filter(p).contains(x));
                let i = choose|i: int| 0 <= i < r.filter(p).len() && r.filter(p)[i] == x;
                assert(s.filter(p)[i] == x);
            }
        }
    }
}

/// Filtering a sequence without duplicates leaves no duplicates.
pub proof fn lemma_filter_no_duplicates<A>(s: Seq<A>, p: spec_fn(A) -> bool)
    requires
        s.no_duplicates(),
    ensures
        s.filter(p).no_duplicates(),
    decreases s.len(),
{
    reveal(Seq::filter);
    if s.len() > 0 {
        let r = s.drop_last();
        lemma_filter_no_duplicates(r, p);
        if p(s.last()) {
            lemma_filter_mem(r, p, s.last());
            if r.contains(s.last()) {
                let j = choose|j: int| 0 <= j < r.len() && r[j] == s.last();
                assert(s[j] == s[s.len() - 1]);
            }
            let f = r.filter(p);
            assert forall|i: int, j: int|
                0 <= i < f.len() + 1 && 0 <= j < f.len() + 1 && i != j implies f.push(s.last())[i]
                != f.push(s.last())[j] by {
                if i < f.len() && j < f.len() {
                } else if i < f.len() {
                    assert(f.contains(f[i]));
                } else {
                    assert(f.contains(f[j]));
                }
            }
        }
    }
}

/// Two predicates that agree on the members of a sequence filter it alike.
pub proof fn lemma_filter_agree<A>(s: Seq<A>, p: spec_fn(A) -> bool, q: spec_fn(A) -> bool)
    requires
        forall|i: int| 0 <= i < s.len() ==> p(#[trigger] s[i]) == q(s[i]),
    ensures
        s.filter(p) == s.filter(q),
    decreases s.len(),
{
    reveal(Seq::filter);
    if s.len() > 0 {
        let r = s.drop_last();
        assert forall|i: int| 0 <= i < r.len() implies p(#[trigger] r[i]) == q(r[i]) by {
            assert(r[i] == s[i]);
        }
        lemma_filter_agree(r, p, q);
        assert(p(s[s.len() - 1]) == q(s[s.len() - 1]));
    }
}

/// Filtering twice is filtering by both predicates.
pub proof fn lemma_filter_twice<A>(s: Seq<A>, p: spec_fn(A) -> bool, q: spec_fn(A) -> bool, pq: spec_fn(A) -> bool)
    requires
        forall|i: int| 0 <= i < s.len() ==> pq(#[trigger] s[i]) == (p(s[i]) && q(s[i])),
    ensures
        s.filter(p).filter(q) == s.filter(pq),
    decreases s.len(),
{
    reveal(Seq::filter);
    if s.len() > 0 {
        let r = s.drop_last();
        assert forall|i: int| 0 <= i < r.len() implies pq(#[trigger] r[i]) == (p(r[i]) && q(
            r[i],
        )) by {
            assert(r[i] == s[i]);
        }
        lemma_filter_twice(r, p, q, pq);
        assert(pq(s[s.len() - 1]) == (p(s[s.len() - 1]) && q(s[s.len() - 1])));
        if p(s.last()) {
            r.filter(p).lemma_filter_push(s.last(), q);
        }
    }
}

/// A filter that every member passes changes nothing.
pub proof fn lemma_filter_all<A>(s: Seq<A>, p: spec_fn(A) -> bool)
    requires
        forall|i: int| 0 <= i < s.len() ==> p(#[trigger] s[i]),
    ensures
        s.filter(p) == s,
    decreases s.len(),
{
    reveal(Seq::filter);
    if s.len() > 0 {
        let r = s.drop_last();
        assert forall|i: int| 0 <= i < r.len() implies p(#[trigger] r[i]) by {
            assert(r[i] == s[i]);
        }
        lemma_filter_all(r, p);
        assert(p(s[s.len() - 1]));
        assert(r.push(s.last()) =~= s);
    }
}

/// A filter that no member passes leaves nothing.
pub proof fn lemma_filter_none<A>(s: Seq<A>, p: spec_fn(A) -> bool)
    requires
        forall|i: int| 0 <= i < s.len() ==> !p(#[trigger] s[i]),
    ensures
        s.filter(p) == Seq::<A>::empty(),
    decreases s.len(),
{
    reveal(Seq::filter);
    if s.len() > 0 {
        let r = s.drop_last();
        assert forall|i: int| 0 <= i < r.len() implies !p(#[trigger] r[i]) by {
            assert(r[i] == s[i]);
        }
        lemma_filter_none(r, p);
        assert(!p(s[s.len() - 1]));
    } else {
        assert(s =~= Seq::<A>::empty());
    }
}

/// Two sequences without duplicates that have the same members are equally long.
pub proof fn lemma_same_members_same_len<A>(s: Seq<A>, t: Seq<A>)
    requires
        s.no_duplicates(),
        t.no_duplicates(),
        forall|x: A| s.contains(x) <==> t.contains(x),
    ensures
        s.len() == t.len(),
{
    s.unique_seq_to_set();
    t.unique_seq_to_set();
    assert(s.to_set() =~= t.to_set());
}

/// A predicate and its negation split a sequence.
pub proof fn lemma_filter_split_len<A>(s: Seq<A>, p: spec_fn(A) -> bool, q: spec_fn(A) -> bool)
    requires
        forall|i: int| 0 <= i < s.len() ==> p(#[trigger] s[i]) == !q(s[i]),
    ensures
        s.filter(p).len() + s.filter(q).len() == s.len(),
    decreases s.len(),
{
    reveal(Seq::filter);
    if s.len() > 0 {
        let r = s.drop_last();
        assert forall|i: int| 0 <= i < r.len() implies p(#[trigger] r[i]) == !q(r[i]) by {
            assert(r[i] == s[i]);
        }
        lemma_filter_split_len(r, p, q);
        assert(p(s[s.len() - 1]) == !q(s[s.len() - 1]));
    }
}

/// Reversing a sequence keeps its members, and keeps it free of duplicates.
pub proof fn lemma_reverse_members<A>(s: Seq<A>)
    ensures
        forall|x: A| s.reverse().contains(x) <==> s.contains(x),
        s.no_duplicates() ==> s.reverse().no_duplicates(),
{
    let r = s.reverse();
    assert forall|x: A| r.contains(x) <==> s.contains(x) by {
        if r.contains(x) {
            let i = choose|i: int| 0 <= i < r.len() && r[i] == x;
            assert(s[s.len() - 1 - i] == x);
        }
        if s.contains(x) {
            let i = choose|i: int| 0 <= i < s.len() && s[i] == x;
            assert(r[s.len() - 1 - i] == x);
        }
    }
}

/// The members of a sequence without duplicates, after its first one was dropped.
pub proof fn lemma_tail_members<A>(s: Seq<A>)
    requires
        s.no_duplicates(),
        s.len() > 0,
    ensures
        s.subrange(1, s.len() as int).no_duplicates(),
        forall|x: A| s.subrange(1, s.len() as int).contains(x) <==> s.contains(x) && x != s[0],
{
    let t = s.subrange(1, s.len() as int);
    assert forall|x: A| t.contains(x) <==> s.contains(x) && x != s[0] by {
        if t.contains(x) {
            let i = choose|i: int| 0 <= i < t.len() && t[i] == x;
            assert(s[i + 1] == x);
        }
        if s.contains(x) && x != s[0] {
            let i = choose|i: int| 0 <= i < s.len() && s[i] == x;
            assert(t[i - 1] == x);
        }
    }
}

/// The members of a sequence after one more was put in front.
pub proof fn lemma_cons_members<A>(x: A, s: Seq<A>)
    ensures
        forall|y: A| (seq![x] + s).contains(y) <==> y == x || s.contains(y),
        s.no_duplicates() && !s.contains(x) ==> (seq![x] + s).no_duplicates(),
{
    let t = seq![x] + s;
    assert forall|y: A| t.contains(y) <==> y == x || s.contains(y) by {
        if t.contains(y) {
            let i = choose|i: int| 0 <= i < t.len() && t[i] == y;
            if i > 0 {
                assert(s[i - 1] == y);
            }
        }
        if y == x {
            assert(t[0] == y);
        }
        if s.contains(y) {
            let i = choose|i: int| 0 <= i < s.len() && s[i] == y;
            assert(t[i + 1] == y);
        }
    }
    if s.no_duplicates() && !s.contains(x) {
        assert forall|i: int, j: int| 0 <= i < t.len() && 0 <= j < t.len() && i != j implies t[i]
            != t[j] by {
            if i > 0 {
                assert(s.contains(s[i - 1]));
            }
            if j > 0 {
                assert(s.contains(s[j - 1]));
            }
        }
    }
}

/// The members of two sequences put together.
pub proof fn lemma_concat_members<A>(s: Seq<A>, t: Seq<A>)
    ensures
        forall|y: A| (s + t).contains(y) <==> s.contains(y) || t.contains(y),
        s.no_duplicates() && t.no_duplicates() && (forall|y: A| !(s.contains(y) && t.contains(y)))
            ==> (s + t).no_duplicates(),
{
    let u = s + t;
    assert forall|y: A| u.contains(y) <==> s.contains(y) || t.contains(y) by {
        if u.contains(y) {
            let i = choose|i: int| 0 <= i < u.len() && u[i] == y;
            if i < s.len() {
                assert(s[i] == y);
            } else {
                assert(t[i - s.len()] == y);
            }
        }
        if s.contains(y) {
            let i = choose|i: int| 0 <= i < s.len() && s[i] == y;
            assert(u[i] == y);
        }
        if t.contains(y) {
            let i = choose|i: int| 0 <= i < t.len() && t[i] == y;
            assert(u[i + s.len()] == y);
        }
    }
    if s.no_duplicates() && t.no_duplicates() && (forall|y: A| !(s.contains(y) && t.contains(y))) {
        assert forall|i: int, j: int| 0 <= i < u.len() && 0 <= j < u.len() && i != j implies u[i]
            != u[j] by {
            if i < s.len() {
                assert(s.contains(s[i]));
            } else {
                assert(t.contains(t[i - s.len()]));
            }
            if j < s.len() {
                assert(s.contains(s[j]));
            } else {
                assert(t.contains(t[j - s.len()]));
            }
        }
    }
}

/// A filter that leaves nothing is passed by no member.
pub proof fn lemma_filter_empty<A>(s: Seq<A>, p: spec_fn(A) -> bool)
    requires
        s.filter(p).len() == 0,
    ensures
        forall|x: A| s.contains(x) ==> !p(x),
{
    assert forall|x: A| s.contains(x) implies !p(x) by {
        lemma_filter_mem(s, p, x);
        if p(x) {
            let i = choose|i: int| 0 <= i < s.filter(p).len() && s.filter(p)[i] == x;
        }
    }
}

/// A second filter that differs from the first on one member only, which passes the first
/// and fails the second, leaves one member fewer.
pub proof fn lemma_filter_drop_one<A>(s: Seq<A>, p: spec_fn(A) -> bool, q: spec_fn(A) -> bool, x: A)
    requires
        s.no_duplicates(),
        s.contains(x),
        p(x),
        !q(x),
        forall|i: int| 0 <= i < s.len() && s[i] != x ==> p(#[trigger] s[i]) == q(s[i]),
    ensures
        s.filter(q).len() + 1 == s.filter(p).len(),
    decreases s.len(),
{
    reveal(Seq::filter);
    let r = s.drop_last();
    assert forall|i: int| 0 <= i < r.len() && r[i] != x implies p(#[trigger] r[i]) == q(r[i]) by {
        assert(r[i] == s[i]);
    }
    if s.last() == x {
        assert forall|i: int| 0 <= i < r.len() implies p(#[trigger] r[i]) == q(r[i]) by {
            assert(r[i] == s[i]);
            assert(s[i] != s[s.len() - 1]);
        }
        lemma_filter_agree(r, p, q);
    } else {
        let i = choose|i: int| 0 <= i < s.len() && s[i] == x;
        assert(r[i] == x);
        lemma_filter_drop_one(r, p, q, x);
        assert(p(s[s.len() - 1]) == q(s[s.len() - 1]));
    }
}

/// A sequence without duplicates whose members all occur in another one is no longer than
/// that one; if it is as long, the two have the same members.
pub proof fn lemma_no_duplicates_within<A>(s: Seq<A>, t: Seq<A>)
    requires
        s.no_duplicates(),
        t.no_duplicates(),
        forall|x: A| s.contains(x) ==> t.contains(x),
    ensures
        s.len() <= t.len(),
        s.len() == t.len() ==> forall|x: A| t.contains(x) ==> s.contains(x),
{
    s.unique_seq_to_set();
    t.unique_seq_to_set();
    assert(s.to_set().subset_of(t.to_set()));
    vstd::set_lib::lemma_len_subset(s.to_set(), t.to_set());
    if s.len() == t.len() {
        vstd::set_lib::lemma_subset_equality(s.to_set(), t.to_set());
        assert forall|x: A| t.contains(x) implies s.contains(x) by {
            assert(t.to_set().contains(x));
            assert(s.to_set().contains(x));
        }
    }
}

/// The members of a sequence after one more was put at its end.
pub proof fn lemma_push_members<A>(s: Seq<A>, x: A)
    ensures
        forall|y: A| s.push(x).contains(y) <==> s.contains(y) || y == x,
        s.no_duplicates() && !s.contains(x) ==> s.push(x).no_duplicates(),
{
    let t = s.push(x);
    assert forall|y: A| t.contains(y) <==> s.contains(y) || y == x by {
        if t.contains(y) {
            let i = choose|i: int| 0 <= i < t.len() && t[i] == y;
            if i < s.len() {
                assert(s[i] == y);
            }
        }
        if s.contains(y) {
            let i = choose|i: int| 0 <= i < s.len() && s[i] == y;
            assert(t[i] == y);
        }
        assert(t[s.len() as int] == x);
    }
    if s.no_duplicates() && !s.contains(x) {
        assert forall|i: int, j: int| 0 <= i < t.len() && 0 <= j < t.len() && i != j implies t[i]
            != t[j] by {
            if i < s.len() {
                assert(s.contains(s[i]));
            }
            if j < s.len() {
                assert(s.contains(s[j]));
            }
        }
    }
}

} // verus!
