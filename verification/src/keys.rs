//! The order of the keys by which nodes are ranked.

use vstd::prelude::*;

verus! {

/// Whether `a` comes before `b` in the dictionary: at the first place where the two differ,
/// `a` has the smaller character, or `a` ends there and `b` goes on.
pub open spec fn lex_less(a: Seq<char>, b: Seq<char>) -> bool
    decreases a.len(),
{
    if b.len() == 0 {
        false
    } else if a.len() == 0 {
        true
    } else if a[0] != b[0] {
        (a[0] as u32) < (b[0] as u32)
    } else {
        lex_less(a.subrange(1, a.len() as int), b.subrange(1, b.len() as int))
    }
}

/// Whether node `a` with key `ka` ranks before node `b` with key `kb`: by key, and by
/// handle where the keys are equal.
pub open spec fn entry_less(ka: Seq<char>, a: usize, kb: Seq<char>, b: usize) -> bool {
    lex_less(ka, kb) || (ka == kb && a < b)
}

/// `<` on `str`: the order of the dictionary, character by character, a character being
/// smaller if its code point is.
#[verifier::external_body]
pub(crate) fn str_less(a: &str, b: &str) -> (r: bool)
    ensures
        r == lex_less(a@, b@),
{
    a < b
}

/// No key comes before itself.
pub proof fn lemma_lex_irreflexive(a: Seq<char>)
    ensures
        !lex_less(a, a),
    decreases a.len(),
{
    if a.len() > 0 {
        lemma_lex_irreflexive(a.subrange(1, a.len() as int));
    }
}

/// A key comes before every key that comes after one that it comes before.
pub proof fn lemma_lex_transitive(a: Seq<char>, b: Seq<char>, c: Seq<char>)
    requires
        lex_less(a, b),
        lex_less(b, c),
    ensures
        lex_less(a, c),
    decreases a.len(),
{
    if a.len() > 0 && a[0] == b[0] && b[0] == c[0] {
        lemma_lex_transitive(
            a.subrange(1, a.len() as int),
            b.subrange(1, b.len() as int),
            c.subrange(1, c.len() as int),
        );
    }
}

/// Of two different keys one comes before the other.
pub proof fn lemma_lex_total(a: Seq<char>, b: Seq<char>)
    ensures
        a == b || lex_less(a, b) || lex_less(b, a),
    decreases a.len(),
{
    if a.len() > 0 && b.len() > 0 {
        if a[0] == b[0] {
            let x = a.subrange(1, a.len() as int);
            let y = b.subrange(1, b.len() as int);
            lemma_lex_total(x, y);
            if x == y {
                assert(a =~= seq![a[0]] + x);
                assert(b =~= seq![b[0]] + y);
            }
        } else {
            assert(a[0] as u32 != b[0] as u32) by {
                vstd::utf8::char_u32_cast(a[0], a[0] as u32);
                vstd::utf8::char_u32_cast(b[0], b[0] as u32);
            }
        }
    } else if a.len() == 0 && b.len() == 0 {
        assert(a =~= b);
    }
}

/// The ranking of nodes is transitive.
pub proof fn lemma_entry_transitive(
    ka: Seq<char>,
    a: usize,
    kb: Seq<char>,
    b: usize,
    kc: Seq<char>,
    c: usize,
)
    requires
        entry_less(ka, a, kb, b),
        entry_less(kb, b, kc, c),
    ensures
        entry_less(ka, a, kc, c),
{
    if lex_less(ka, kb) && lex_less(kb, kc) {
        lemma_lex_transitive(ka, kb, kc);
    }
}

/// Of two different nodes one ranks before the other, and never both.
pub proof fn lemma_entry_total(ka: Seq<char>, a: usize, kb: Seq<char>, b: usize)
    ensures
        a == b || entry_less(ka, a, kb, b) || entry_less(kb, b, ka, a),
        !(entry_less(ka, a, kb, b) && entry_less(kb, b, ka, a)),
{
    lemma_lex_total(ka, kb);
    if lex_less(ka, kb) && lex_less(kb, ka) {
        lemma_lex_transitive(ka, kb, ka);
        lemma_lex_irreflexive(ka);
    }
    lemma_lex_irreflexive(ka);
}

/// The entry of a queue of keyed nodes that ranks first.
pub fn pop_least(queue: &mut Vec<(String, usize)>) -> (r: (String, usize))
    requires
        old(queue).len() > 0,
    ensures
        exists|i: int|
            0 <= i < old(queue)@.len() && r == #[trigger] old(queue)@[i] && final(queue)@ == old(
                queue,
            )@.remove(i),
        forall|j: int|
            0 <= j < old(queue)@.len() ==> !entry_less(
                (#[trigger] old(queue)@[j]).0@,
                old(queue)@[j].1,
                r.0@,
                r.1,
            ),
{
    let mut best: usize = 0;
    let mut j: usize = 1;
    proof {
        lemma_lex_irreflexive(queue@[0].0@);
    }
    while j < queue.len()
        invariant
            1 <= j <= queue.len(),
            best < j,
            *queue == *old(queue),
            forall|i: int|
                0 <= i < j ==> !entry_less(
                    (#[trigger] queue@[i]).0@,
                    queue@[i].1,
                    queue@[best as int].0@,
                    queue@[best as int].1,
                ),
        decreases queue.len() - j,
    {
        let before = str_less(queue[j].0.as_str(), queue[best].0.as_str()) || (queue[j].0
            == queue[best].0 && queue[j].1 < queue[best].1);
        proof {
            lemma_lex_irreflexive(queue@[j as int].0@);
            if before {
                assert forall|i: int| 0 <= i < j + 1 implies !entry_less(
                    (#[trigger] queue@[i]).0@,
                    queue@[i].1,
                    queue@[j as int].0@,
                    queue@[j as int].1,
                ) by {
                    if entry_less(queue@[i].0@, queue@[i].1, queue@[j as int].0@, queue@[j as int].1) {
                        lemma_entry_transitive(
                            queue@[i].0@,
                            queue@[i].1,
                            queue@[j as int].0@,
                            queue@[j as int].1,
                            queue@[best as int].0@,
                            queue@[best as int].1,
                        );
                    }
                }
            }
        }
        if before {
            best = j;
        }
        j += 1;
    }
    queue.remove(best)
}

} // verus!
