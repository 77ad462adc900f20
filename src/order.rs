//! Orders used to keep tokens and results in a fixed sequence.
use vstd::prelude::*;
use crate::text::{utf8_len, chars_of};

verus! {

/// Lexicographic order by code point, as `str`'s `Ord` compares.
pub open spec fn lex_lt(a: Seq<char>, b: Seq<char>) -> bool
    decreases a.len(),
{
    if a.len() == 0 {
        b.len() > 0
    } else if b.len() == 0 {
        false
    } else if a[0] != b[0] {
        (a[0] as int) < (b[0] as int)
    } else {
        lex_lt(a.drop_first(), b.drop_first())
    }
}

pub proof fn lemma_lex_irreflexive(a: Seq<char>)
    ensures
        !lex_lt(a, a),
    decreases a.len(),
{
    if a.len() > 0 {
        lemma_lex_irreflexive(a.drop_first());
    }
}

pub proof fn lemma_lex_asymmetric(a: Seq<char>, b: Seq<char>)
    ensures
        !(lex_lt(a, b) && lex_lt(b, a)),
    decreases a.len(),
{
    if a.len() > 0 && b.len() > 0 && a[0] == b[0] {
        lemma_lex_asymmetric(a.drop_first(), b.drop_first());
    }
}

pub proof fn lemma_lex_total(a: Seq<char>, b: Seq<char>)
    ensures
        a == b || lex_lt(a, b) || lex_lt(b, a),
    decreases a.len(),
{
    if a.len() > 0 && b.len() > 0 && a[0] == b[0] {
        lemma_lex_total(a.drop_first(), b.drop_first());
        if a.drop_first() == b.drop_first() {
            assert(a =~= seq![a[0]] + a.drop_first());
            assert(b =~= seq![b[0]] + b.drop_first());
        }
    } else if a.len() > 0 && b.len() > 0 {
        assert((a[0] as int) != (b[0] as int));
    } else if a.len() == 0 && b.len() == 0 {
        assert(a =~= b);
    }
}

pub proof fn lemma_lex_transitive(a: Seq<char>, b: Seq<char>, c: Seq<char>)
    requires
        lex_lt(a, b),
        lex_lt(b, c),
    ensures
        lex_lt(a, c),
    decreases a.len(),
{
    if a.len() > 0 && b.len() > 0 && c.len() > 0 && a[0] == b[0] && b[0] == c[0] {
        lemma_lex_transitive(a.drop_first(), b.drop_first(), c.drop_first());
    }
}

/// Whether `a` comes strictly before `b` in lexicographic code-point order.
pub fn lex_less(a: &Vec<char>, b: &Vec<char>) -> (r: bool)
    ensures
        r == lex_lt(a@, b@),
{
    let mut i: usize = 0;
    assert(a@.skip(0) =~= a@);
    assert(b@.skip(0) =~= b@);
    while i < a.len() && i < b.len()
        invariant
            i <= a@.len(),
            i <= b@.len(),
            lex_lt(a@, b@) == lex_lt(a@.skip(i as int), b@.skip(i as int)),
        decreases a@.len() - i,
    {
        if a[i] != b[i] {
            return a[i] < b[i];
        }
        assert(a@.skip(i as int).drop_first() =~= a@.skip(i as int + 1));
        assert(b@.skip(i as int).drop_first() =~= b@.skip(i as int + 1));
        i += 1;
    }
    i == a.len() && i < b.len()
}

/// Whether string `a` comes strictly before string `b` lexicographically.
pub fn str_less(a: &str, b: &str) -> (r: bool)
    ensures
        r == lex_lt(a@, b@),
{
    let ca = chars_of(a);
    let cb = chars_of(b);
    lex_less(&ca, &cb)
}

/// The order of ranked results: by score, then by encoded length, then by
/// the text itself.
pub open spec fn ranked_lt(a: (int, Seq<char>), b: (int, Seq<char>)) -> bool {
    a.0 < b.0 || (a.0 == b.0 && (utf8_len(a.1) < utf8_len(b.1) || (utf8_len(a.1) == utf8_len(
        b.1,
    ) && lex_lt(a.1, b.1))))
}

/// Ranking key of a result without the final tie-break on text.
pub open spec fn key_le(a: (int, Seq<char>), b: (int, Seq<char>)) -> bool {
    a.0 < b.0 || (a.0 == b.0 && utf8_len(a.1) <= utf8_len(b.1))
}

pub proof fn lemma_ranked_total(a: (int, Seq<char>), b: (int, Seq<char>))
    ensures
        a == b || ranked_lt(a, b) || ranked_lt(b, a),
        !(ranked_lt(a, b) && ranked_lt(b, a)),
        ranked_lt(a, b) ==> key_le(a, b),
{
    lemma_lex_total(a.1, b.1);
    lemma_lex_asymmetric(a.1, b.1);
}

pub proof fn lemma_ranked_transitive(a: (int, Seq<char>), b: (int, Seq<char>), c: (int, Seq<char>))
    requires
        ranked_lt(a, b),
        ranked_lt(b, c),
    ensures
        ranked_lt(a, c),
{
    if a.0 == b.0 && b.0 == c.0 && utf8_len(a.1) == utf8_len(b.1) && utf8_len(b.1) == utf8_len(
        c.1,
    ) {
        lemma_lex_transitive(a.1, b.1, c.1);
    }
}

} // verus!
