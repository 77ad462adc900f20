//! The subsequence matcher: decides whether a query occurs, in order, within a
//! candidate and scores how well it does (lower is better).
use vstd::prelude::*;
use crate::text::{same_char, chars_of, char_eq_fold};

verus! {

/// Candidates are limited to fewer characters than this, so that every score
/// fits in an `i64`.
pub const MAX_CANDIDATE_LEN: usize = 0x8000_0000;

/// Score awarded to a match at the first candidate position.
pub const PREFIX_BONUS: i64 = -999;

/// Score awarded to a match right after the previously matched position.
pub const RUN_BONUS: i64 = -9;

/// What a match at candidate position `i` adds to the score, given the
/// previously matched position `prev` (`-1` when there is none).
pub open spec fn contribution(i: int, prev: int) -> int {
    if i == 0 {
        PREFIX_BONUS as int
    } else if prev == i - 1 {
        RUN_BONUS as int
    } else {
        i
    }
}

/// The left-to-right walk over the candidate `t` from position `i`, looking
/// for query character `qi`, with `prev` the last matched position and
/// `score` the sum so far.
pub open spec fn walk(q: Seq<char>, t: Seq<char>, qi: int, i: int, prev: int, score: int) -> (
    int,
    bool,
)
    decreases t.len() - i,
{
    if i >= t.len() || qi < 0 || qi >= q.len() {
        (0, false)
    } else if same_char(q[qi], t[i]) {
        let s = score + contribution(i, prev);
        if qi == q.len() - 1 {
            (s, true)
        } else {
            walk(q, t, qi + 1, i + 1, i, s)
        }
    } else {
        walk(q, t, qi, i + 1, prev, score)
    }
}

/// The score and the verdict of matching query `q` against candidate `t`.
pub open spec fn match_spec(q: Seq<char>, t: Seq<char>) -> (int, bool) {
    if q.len() == 0 {
        (0, false)
    } else {
        walk(q, t, 0, 0, -1, 0)
    }
}

/// The walk's verdict does not depend on the score carried in, and a found
/// match's score is that score plus what the walk adds from zero.
pub proof fn lemma_walk_shift(q: Seq<char>, t: Seq<char>, qi: int, i: int, prev: int, score: int)
    ensures
        walk(q, t, qi, i, prev, score).1 == walk(q, t, qi, i, prev, 0).1,
        walk(q, t, qi, i, prev, score).1 ==> walk(q, t, qi, i, prev, score).0 == score + walk(
            q,
            t,
            qi,
            i,
            prev,
            0,
        ).0,
    decreases t.len() - i,
{
    if i >= t.len() || qi < 0 || qi >= q.len() {
    } else if same_char(q[qi], t[i]) {
        if qi + 1 != q.len() {
            lemma_walk_shift(q, t, qi + 1, i + 1, i, score + contribution(i, prev));
            lemma_walk_shift(q, t, qi + 1, i + 1, i, contribution(i, prev));
        }
    } else {
        lemma_walk_shift(q, t, qi, i + 1, prev, score);
    }
}

/// When the candidate's first character matches the query's first, a match
/// scores the prefix bonus plus what matching the rest of the query adds.
pub proof fn lemma_prefix_bonus(q: Seq<char>, t: Seq<char>)
    requires
        q.len() > 0,
        t.len() > 0,
        same_char(q[0], t[0]),
    ensures
        q.len() == 1 ==> match_spec(q, t) == (PREFIX_BONUS as int, true),
        q.len() > 1 ==> match_spec(q, t) == walk(q, t, 1, 1, 0, PREFIX_BONUS as int),
        q.len() > 1 && match_spec(q, t).1 ==> match_spec(q, t).0 == PREFIX_BONUS + walk(
            q,
            t,
            1,
            1,
            0,
            0,
        ).0,
{
    if q.len() > 1 {
        lemma_walk_shift(q, t, 1, 1, 0, PREFIX_BONUS as int);
    }
}

/// Past the first position, every further match adds at least the run bonus.
proof fn lemma_walk_lower(q: Seq<char>, t: Seq<char>, qi: int, i: int, prev: int, score: int)
    requires
        i >= 1,
        0 <= qi < q.len(),
        walk(q, t, qi, i, prev, score).1,
    ensures
        walk(q, t, qi, i, prev, score).0 >= score + RUN_BONUS * (q.len() - qi),
    decreases t.len() - i,
{
    if same_char(q[qi], t[i]) {
        if qi + 1 != q.len() {
            lemma_walk_lower(q, t, qi + 1, i + 1, i, score + contribution(i, prev));
        }
    } else {
        lemma_walk_lower(q, t, qi, i + 1, prev, score);
    }
}

/// A walk whose next match cannot continue the previous run adds at least
/// that match's position, then at least the run bonus per further match.
proof fn lemma_walk_gap(q: Seq<char>, t: Seq<char>, qi: int, i: int, prev: int, score: int)
    requires
        i >= 1,
        prev < i - 1,
        0 <= qi < q.len(),
        walk(q, t, qi, i, prev, score).1,
    ensures
        walk(q, t, qi, i, prev, score).0 >= score + i + RUN_BONUS * (q.len() - qi - 1),
    decreases t.len() - i,
{
    if same_char(q[qi], t[i]) {
        if qi + 1 != q.len() {
            lemma_walk_lower(q, t, qi + 1, i + 1, i, score + contribution(i, prev));
        }
    } else {
        lemma_walk_gap(q, t, qi, i + 1, prev, score);
    }
}

/// Skipping candidate positions that do not match the query's first character.
proof fn lemma_walk_skip(q: Seq<char>, t: Seq<char>, p: int)
    requires
        q.len() > 0,
        0 <= p <= t.len(),
        forall|m: int| 0 <= m < p ==> !same_char(q[0], #[trigger] t[m]),
    ensures
        walk(q, t, 0, 0, -1, 0) == walk(q, t, 0, p, -1, 0),
    decreases p,
{
    if p > 0 {
        lemma_walk_skip(q, t, p - 1);
    }
}

/// From position `p + j`, where the candidate holds the rest of the query as
/// one run, the walk ends with a run bonus for each remaining character.
proof fn lemma_walk_run(q: Seq<char>, t: Seq<char>, p: int, j: int, score: int)
    requires
        0 < p,
        1 <= j <= q.len(),
        p + q.len() <= t.len(),
        forall|m: int| j <= m < q.len() ==> same_char(q[m], #[trigger] t[p + m]),
    ensures
        j < q.len() ==> walk(q, t, j, p + j, p + j - 1, score) == (score + RUN_BONUS * (q.len() - j), true),
    decreases q.len() - j,
{
    if j < q.len() {
        assert(same_char(q[j], t[p + j]));
        if j + 1 < q.len() {
            lemma_walk_run(q, t, p, j + 1, score + RUN_BONUS);
        }
    }
}

/// Given two candidates whose first match of the query's first character is
/// at the same position past the start, one holding the whole query as a
/// contiguous run there scores strictly lower than one that does not.
pub proof fn lemma_contiguous_beats_spread(q: Seq<char>, t1: Seq<char>, t2: Seq<char>, p: int)
    requires
        q.len() > 0,
        t1.len() == t2.len(),
        0 < p,
        p + q.len() <= t1.len(),
        forall|m: int| 0 <= m < p ==> !same_char(q[0], #[trigger] t1[m]),
        forall|m: int| 0 <= m < p ==> !same_char(q[0], #[trigger] t2[m]),
        same_char(q[0], t2[p]),
        forall|j: int| 0 <= j < q.len() ==> same_char(q[j], #[trigger] t1[p + j]),
        exists|j: int| 0 <= j < q.len() && !same_char(q[j], #[trigger] t2[p + j]),
        match_spec(q, t2).1,
    ensures
        match_spec(q, t1) == (p + RUN_BONUS * (q.len() - 1), true),
        match_spec(q, t1).0 < match_spec(q, t2).0,
{
    lemma_walk_skip(q, t1, p);
    lemma_walk_skip(q, t2, p);
    assert(same_char(q[0], t1[p + 0]));
    if q.len() > 1 {
        lemma_walk_run(q, t1, p, 1, p);
    }
    let j = choose|j: int| 0 <= j < q.len() && !same_char(q[j], #[trigger] t2[p + j]);
    lemma_spread_walk(q, t2, p, 1, j, p);
}

/// Following a run in `t` from position `p` that breaks at or before query
/// index `j`, the walk scores more than a full run would.
proof fn lemma_spread_walk(q: Seq<char>, t: Seq<char>, p: int, m: int, j: int, score: int)
    requires
        0 < p,
        1 <= m <= j < q.len(),
        p + q.len() <= t.len(),
        !same_char(q[j], t[p + j]),
        walk(q, t, m, p + m, p + m - 1, score).1,
    ensures
        walk(q, t, m, p + m, p + m - 1, score).0 > score + RUN_BONUS * (q.len() - m),
    decreases j - m,
{
    if same_char(q[m], t[p + m]) {
        lemma_spread_walk(q, t, p, m + 1, j, score + RUN_BONUS);
    } else {
        lemma_walk_gap(q, t, m, p + m + 1, p + m - 1, score);
    }
}

/// Matches `src` as a case-insensitive subsequence of `target`, returning the
/// score and whether every character of `src` was found.
pub fn is_subseq(src: &str, target: &str) -> (r: (i64, bool))
    requires
        target@.len() < MAX_CANDIDATE_LEN,
    ensures
        r.0 == match_spec(src@, target@).0,
        r.1 == match_spec(src@, target@).1,
        src@.len() == 0 ==> r == (0i64, false),
{
    let q = chars_of(src);
    let t = chars_of(target);
    if q.len() == 0 {
        return (0, false);
    }
    let mut qi: usize = 0;
    let mut prev: i64 = -1;
    let mut score: i64 = 0;
    let mut i: usize = 0;
    while i < t.len()
        invariant
            q@ == src@,
            t@ == target@,
            t@.len() < MAX_CANDIDATE_LEN,
            q@.len() > 0,
            qi < q@.len(),
            -1 <= prev < i,
            i <= t@.len(),
            -999 - 9 * i <= score <= i * 0x8000_0000,
            i == 0 ==> score == 0,
            walk(q@, t@, 0, 0, -1, 0) == walk(q@, t@, qi as int, i as int, prev as int, score as int),
        decreases t@.len() - i,
    {
        if char_eq_fold(q[qi], t[i]) {
            let add: i64 = if i == 0 {
                PREFIX_BONUS
            } else if prev == i as i64 - 1 {
                RUN_BONUS
            } else {
                i as i64
            };
            score = score + add;
            if qi == q.len() - 1 {
                return (score, true);
            }
            qi += 1;
            prev = i as i64;
        }
        i += 1;
    }
    (0, false)
}

} // verus!
