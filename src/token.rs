//! Word tokens: extraction from text, and the index that ranks them against a
//! query.
use vstd::prelude::*;
use vstd::string::StrSliceExecFns;
use crate::matcher::{match_spec, is_subseq, MAX_CANDIDATE_LEN};
use crate::order::{lex_lt, lemma_lex_irreflexive, str_less, ranked_lt, key_le, lemma_lex_total,
    lemma_lex_transitive, lemma_ranked_total, lemma_ranked_transitive};
use crate::text::{utf8_len, byte_len};

verus! {

/// The token pattern: at least three word characters that are not digits,
/// then any further word characters.
pub const WORD_PATTERN: &'static str = "[^\\W\\d]{3,}\\w*";

/// Whether `regex::Regex::new` accepts the pattern.
pub uninterp spec fn regex_valid(pattern: Seq<char>) -> bool;

/// The texts of the successive non-overlapping leftmost matches of a pattern.
pub uninterp spec fn regex_find_all(pattern: Seq<char>, text: Seq<char>) -> Seq<Seq<char>>;

/// The character sequences of a list of strings.
pub open spec fn strings_view(v: Seq<String>) -> Seq<Seq<char>> {
    v.map_values(|s: String| s@)
}

/// Relies on `regex::Regex::new`, which fails exactly on patterns it rejects,
/// and `regex::Regex::find_iter`, which yields the matched substrings from
/// left to right.
#[verifier::external_body]
fn find_all(pattern: &str, text: &str) -> (r: Option<Vec<String>>)
    ensures
        r is Some <==> regex_valid(pattern@),
        r is Some ==> strings_view(r.unwrap()@) == regex_find_all(pattern@, text@),
{
    match regex::Regex::new(pattern) {
        Ok(re) => Some(re.find_iter(text).map(|m| m.as_str().to_string()).collect()),
        Err(_) => None,
    }
}

/// The tokens of `text`, in order of occurrence.
pub open spec fn word_tokens(text: Seq<char>) -> Seq<Seq<char>> {
    if regex_valid(WORD_PATTERN@) {
        regex_find_all(WORD_PATTERN@, text)
    } else {
        Seq::empty()
    }
}

/// Splits `text` into its tokens, left to right.
pub fn tokenize(text: &str) -> (r: Vec<String>)
    ensures
        strings_view(r@) == word_tokens(text@),
{
    match find_all(WORD_PATTERN, text) {
        Some(words) => words,
        None => Vec::new(),
    }
}

/// A token short enough to be scored by the matcher.
pub open spec fn indexable(w: Seq<char>) -> bool {
    w.len() < MAX_CANDIDATE_LEN
}

/// The tokens of `text` that an index takes in.
pub open spec fn indexed_tokens(text: Seq<char>) -> Set<Seq<char>> {
    Set::new(|w: Seq<char>| word_tokens(text).contains(w) && indexable(w))
}

/// Strictly increasing in lexicographic order.
pub open spec fn lex_sorted(s: Seq<Seq<char>>) -> bool {
    forall|i: int, j: int| 0 <= i < j < s.len() ==> lex_lt(s[i], s[j])
}

/// The tokens among the first `k` of `ws` that an index takes in.
pub open spec fn prefix_tokens(ws: Seq<Seq<char>>, k: int) -> Set<Seq<char>> {
    Set::new(|w: Seq<char>| ws.take(k).contains(w) && indexable(w))
}

/// A ranked result as a score and the characters of the token.
pub open spec fn results_view(r: Seq<(i64, String)>) -> Seq<(int, Seq<char>)> {
    r.map_values(|e: (i64, String)| (e.0 as int, e.1@))
}

/// Strictly increasing in ranking order.
pub open spec fn ranked_sorted(s: Seq<(int, Seq<char>)>) -> bool {
    forall|i: int, j: int| 0 <= i < j < s.len() ==> ranked_lt(s[i], s[j])
}

/// Whether `e` is a result of matching query `q` against `token`.
pub open spec fn is_hit(q: Seq<char>, e: (int, Seq<char>)) -> bool {
    match_spec(q, e.1) == (e.0, true)
}

proof fn lemma_push_contains<A>(s: Seq<A>, a: A, x: A)
    ensures
        s.push(a).contains(x) == (s.contains(x) || x == a),
{
    if s.push(a).contains(x) && x != a {
        let i = choose|i: int| 0 <= i < s.len() + 1 && #[trigger] s.push(a)[i] == x;
        assert(s[i] == x);
    }
    if s.contains(x) {
        let i = choose|i: int| 0 <= i < s.len() && #[trigger] s[i] == x;
        assert(s.push(a)[i] == x);
    }
    if x == a {
        assert(s.push(a)[s.len() as int] == x);
    }
}

proof fn lemma_insert_contains<A>(s: Seq<A>, p: int, a: A, x: A)
    requires
        0 <= p <= s.len(),
    ensures
        s.insert(p, a).contains(x) == (s.contains(x) || x == a),
{
    let t = s.insert(p, a);
    if t.contains(x) && x != a {
        let i = choose|i: int| 0 <= i < t.len() && #[trigger] t[i] == x;
        if i < p {
            assert(s[i] == x);
        } else {
            assert(s[i - 1] == x);
        }
    }
    if s.contains(x) {
        let i = choose|i: int| 0 <= i < s.len() && #[trigger] s[i] == x;
        if i < p {
            assert(t[i] == x);
        } else {
            assert(t[i + 1] == x);
        }
    }
    if x == a {
        assert(t[p] == x);
    }
}

/// Adding the same text a second time leaves the tokens, and so their
/// number, as the first addition left them.
pub proof fn lemma_add_text_idempotent(tokens: Set<Seq<char>>, text: Seq<char>)
    ensures
        tokens.union(indexed_tokens(text)).union(indexed_tokens(text)) == tokens.union(
            indexed_tokens(text),
        ),
        tokens.union(indexed_tokens(text)).union(indexed_tokens(text)).len() == tokens.union(
            indexed_tokens(text),
        ).len(),
{
    assert(tokens.union(indexed_tokens(text)).union(indexed_tokens(text)) =~= tokens.union(
        indexed_tokens(text),
    ));
}

/// Whether result `(s1, t1)` ranks strictly before `(s2, t2)`, given the
/// encoded lengths of both texts.
fn ranked_before(s1: i64, l1: u64, t1: &str, s2: i64, l2: u64, t2: &str) -> (r: bool)
    requires
        l1 == utf8_len(t1@),
        l2 == utf8_len(t2@),
    ensures
        r == ranked_lt((s1 as int, t1@), (s2 as int, t2@)),
{
    s1 < s2 || (s1 == s2 && (l1 < l2 || (l1 == l2 && str_less(t1, t2))))
}

/// The deduplicated set of tokens seen so far, kept in lexicographic order.
pub struct TokenStore {
    db: Vec<String>,
}

impl View for TokenStore {
    type V = Seq<Seq<char>>;

    closed spec fn view(&self) -> Seq<Seq<char>> {
        strings_view(self.db@)
    }
}

impl TokenStore {
    /// The stored tokens are in strictly increasing order and each can be
    /// scored.
    pub open spec fn well_formed(&self) -> bool {
        &&& lex_sorted(self@)
        &&& forall|i: int| 0 <= i < self@.len() ==> indexable(#[trigger] self@[i])
    }

    /// The stored tokens as a set.
    pub open spec fn tokens(&self) -> Set<Seq<char>> {
        self@.to_set()
    }

    /// An empty store.
    pub fn new() -> (r: TokenStore)
        ensures
            r.well_formed(),
            r@.len() == 0,
    {
        TokenStore { db: Vec::new() }
    }

    /// Number of distinct tokens held.
    pub fn len(&self) -> (r: usize)
        ensures
            r == self@.len(),
    {
        self.db.len()
    }

    /// Adds every token of `text` to the store.
    pub fn add_text(&mut self, text: &str)
        requires
            old(self).well_formed(),
        ensures
            final(self).well_formed(),
            final(self).tokens() == old(self).tokens().union(indexed_tokens(text@)),
    {
        let words = tokenize(text);
        let ghost ws = strings_view(words@);
        let mut k: usize = 0;
        assert(prefix_tokens(ws, 0) =~= Set::empty());
        assert(old(self).tokens().union(Set::empty()) =~= old(self).tokens());
        while k < words.len()
            invariant
                self.well_formed(),
                ws == strings_view(words@),
                ws == word_tokens(text@),
                k <= words@.len(),
                self.tokens() == old(self).tokens().union(prefix_tokens(ws, k as int)),
            decreases words@.len() - k,
        {
            let w = words[k].clone();
            let short = w.as_str().unicode_len() < MAX_CANDIDATE_LEN;
            let ghost before = self.tokens();
            if short {
                self.insert_token(w);
            }
            proof {
                assert(ws.take(k as int + 1) =~= ws.take(k as int).push(ws[k as int]));
                assert forall|x: Seq<char>| #[trigger] prefix_tokens(ws, k as int + 1).contains(x)
                    == (prefix_tokens(ws, k as int).contains(x) || (x == ws[k as int] && indexable(x))) by {
                    if ws.take(k as int + 1).contains(x) && x != ws[k as int] {
                        let i = choose|i: int| 0 <= i < k + 1 && #[trigger] ws.take(k as int + 1)[i] == x;
                        assert(ws.take(k as int)[i] == x);
                    }
                    if ws.take(k as int).contains(x) {
                        let i = choose|i: int| 0 <= i < k && #[trigger] ws.take(k as int)[i] == x;
                        assert(ws.take(k as int + 1)[i] == x);
                    }
                    if x == ws[k as int] {
                        assert(ws.take(k as int + 1)[k as int] == x);
                    }
                }
                assert(self.tokens() =~= old(self).tokens().union(prefix_tokens(ws, k as int + 1)));
            }
            k += 1;
        }
        proof {
            assert(ws.take(k as int) =~= ws);
            assert(prefix_tokens(ws, k as int) =~= indexed_tokens(text@));
        }
    }

    /// Every stored token that `src` matches, with its score, best first:
    /// by score, then by encoded length, then lexicographically.
    pub fn search(&self, src: &str) -> (r: Vec<(i64, String)>)
        requires
            self.well_formed(),
        ensures
            ranked_sorted(results_view(r@)),
            forall|i: int, j: int|
                0 <= i < j < r@.len() ==> key_le(results_view(r@)[i], results_view(r@)[j]),
            forall|e: (int, Seq<char>)| #[trigger] results_view(r@).contains(e)
                <==> (self.tokens().contains(e.1) && is_hit(src@, e)),
    {
        let mut res: Vec<(i64, String)> = Vec::new();
        let mut lens: Vec<u64> = Vec::new();
        let mut k: usize = 0;
        while k < self.db.len()
            invariant
                self.well_formed(),
                k <= self@.len(),
                lens@.len() == res@.len(),
                forall|i: int| 0 <= i < res@.len() ==> lens@[i] == utf8_len(#[trigger] res@[i].1@),
                ranked_sorted(results_view(res@)),
                forall|e: (int, Seq<char>)| #[trigger] results_view(res@).contains(e)
                    <==> (self@.take(k as int).contains(e.1) && is_hit(src@, e)),
            decreases self@.len() - k,
        {
            let ghost rv = results_view(res@);
            let ghost w = self@[k as int];
            proof {
                assert(self.db@[k as int]@ == w);
                assert(indexable(w));
                assert(self@.take(k as int + 1) =~= self@.take(k as int).push(w));
            }
            let (score, hit) = is_subseq(src, self.db[k].as_str());
            if hit {
                let ghost e = (score as int, w);
                let len = byte_len(self.db[k].as_str());
                let mut p: usize = 0;
                loop
                    invariant
                        p <= res@.len(),
                        k < self.db@.len(),
                        self.db@[k as int]@ == w,
                        len == utf8_len(w),
                        e == (score as int, w),
                        rv == results_view(res@),
                        lens@.len() == res@.len(),
                        forall|i: int| 0 <= i < res@.len() ==> lens@[i] == utf8_len(#[trigger] res@[i].1@),
                        forall|i: int| 0 <= i < p ==> ranked_lt(#[trigger] rv[i], e),
                    ensures
                        p <= res@.len(),
                        forall|i: int| 0 <= i < p ==> ranked_lt(#[trigger] rv[i], e),
                        p < res@.len() ==> !ranked_lt(rv[p as int], e),
                    decreases res@.len() - p,
                {
                    if p == res.len() {
                        break;
                    }
                    if !ranked_before(res[p].0, lens[p], res[p].1.as_str(), score, len, self.db[k].as_str()) {
                        break;
                    }
                    p += 1;
                }
                proof {
                    assert forall|i: int| 0 <= i < rv.len() implies (#[trigger] rv[i]).1 != w by {
                        assert(rv.contains(rv[i]));
                        let j = choose|j: int| 0 <= j < k && #[trigger] self@.take(k as int)[j] == rv[i].1;
                        assert(lex_lt(self@[j], w));
                        lemma_lex_irreflexive(w);
                    }
                    if p < rv.len() {
                        lemma_ranked_total(rv[p as int], e);
                        assert forall|j: int| p <= j < rv.len() implies ranked_lt(e, #[trigger] rv[j]) by {
                            if j > p {
                                lemma_ranked_transitive(e, rv[p as int], rv[j]);
                            }
                        }
                    }
                }
                let ghost old_res = res@;
                let ghost old_lens = lens@;
                res.insert(p, (score, self.db[k].clone()));
                lens.insert(p, len);
                proof {
                    let nv = results_view(res@);
                    assert(nv =~= rv.insert(p as int, e));
                    assert forall|i: int, j: int| 0 <= i < j < nv.len() implies ranked_lt(nv[i], nv[j]) by {
                        if i < p && j > p {
                            lemma_ranked_transitive(rv[i], e, rv[j - 1]);
                        }
                    }
                    assert forall|i: int| 0 <= i < res@.len() implies lens@[i] == utf8_len(#[trigger] res@[i].1@) by {
                        if i > p {
                            assert(res@[i] == old_res[i - 1]);
                            assert(lens@[i] == old_lens[i - 1]);
                        }
                    }
                    assert forall|x: (int, Seq<char>)| #[trigger] nv.contains(x)
                        == (self@.take(k as int + 1).contains(x.1) && is_hit(src@, x)) by {
                        lemma_push_contains(self@.take(k as int), w, x.1);
                        lemma_insert_contains(rv, p as int, e, x);
                    }
                }
            } else {
                proof {
                    assert forall|x: (int, Seq<char>)| #[trigger] rv.contains(x)
                        == (self@.take(k as int + 1).contains(x.1) && is_hit(src@, x)) by {
                        lemma_push_contains(self@.take(k as int), w, x.1);
                    }
                }
            }
            k += 1;
        }
        proof {
            assert(self@.take(k as int) =~= self@);
            let rv = results_view(res@);
            assert forall|i: int, j: int| 0 <= i < j < res@.len() implies key_le(rv[i], rv[j]) by {
                lemma_ranked_total(rv[i], rv[j]);
            }
        }
        res
    }

    /// Adds one token, keeping the order; a token already held is left alone.
    fn insert_token(&mut self, w: String)
        requires
            old(self).well_formed(),
            indexable(w@),
        ensures
            final(self).well_formed(),
            final(self).tokens() == old(self).tokens().insert(w@),
    {
        let mut k: usize = 0;
        while k < self.db.len()
            invariant
                self.well_formed(),
                *self == *old(self),
                k <= self@.len(),
                forall|i: int| 0 <= i < k ==> lex_lt(#[trigger] self@[i], w@),
            ensures
                k <= self@.len(),
                *self == *old(self),
                forall|i: int| 0 <= i < k ==> lex_lt(#[trigger] self@[i], w@),
                k < self@.len() ==> !lex_lt(self@[k as int], w@),
            decreases self@.len() - k,
        {
            if !str_less(self.db[k].as_str(), w.as_str()) {
                break;
            }
            k += 1;
        }
        let ghost before = self@;
        if k < self.db.len() && !str_less(w.as_str(), self.db[k].as_str()) {
            proof {
                lemma_lex_total(before[k as int], w@);
                assert(before.contains(w@));
                assert(before.to_set().insert(w@) =~= before.to_set());
            }
            return;
        }
        proof {
            if k < before.len() {
                lemma_lex_total(before[k as int], w@);
                assert forall|j: int| k <= j < before.len() implies lex_lt(w@, before[j]) by {
                    if j > k {
                        lemma_lex_transitive(w@, before[k as int], before[j]);
                    }
                }
            }
        }
        self.db.insert(k, w);
        proof {
            let after = self@;
            assert(after =~= before.insert(k as int, w@));
            assert forall|i: int, j: int| 0 <= i < j < after.len() implies lex_lt(
                after[i],
                after[j],
            ) by {
                if j == k {
                } else if i == k {
                } else if i < k && j > k {
                    lemma_lex_transitive(before[i], w@, before[j - 1]);
                } else if i > k {
                } else {
                }
            }
            assert forall|x: Seq<char>| after.to_set().contains(x) == before.to_set().insert(
                w@,
            ).contains(x) by {
                if after.contains(x) {
                    let i = choose|i: int| 0 <= i < after.len() && after[i] == x;
                    if i > k {
                        assert(before[i - 1] == x);
                    } else if i < k {
                        assert(before[i] == x);
                    }
                }
                if before.contains(x) {
                    let i = choose|i: int| 0 <= i < before.len() && before[i] == x;
                    if i >= k {
                        assert(after[i + 1] == x);
                    } else {
                        assert(after[i] == x);
                    }
                }
                if x == w@ {
                    assert(after[k as int] == x);
                }
            }
            assert(after.to_set() =~= before.to_set().insert(w@));
        }
    }
}

} // verus!
