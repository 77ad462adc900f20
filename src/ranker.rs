//! Ranking of directory entries by how well their names match a fragment.
use vstd::prelude::*;
use vstd::string::StrSliceExecFns;
use vstd::multiset::Multiset;
use crate::matcher::{match_spec, is_subseq, MAX_CANDIDATE_LEN};
use crate::text::{utf8_len, byte_len};

verus! {

broadcast use vstd::seq_lib::to_multiset_build, vstd::seq_lib::to_multiset_insert,
    vstd::seq_lib::to_multiset_len, vstd::multiset::lemma_multiset_empty_len;

/// What a directory entry is.
#[derive(Clone, Copy, Debug, PartialEq, Eq, Structural)]
pub enum EntryKind {
    File,
    Dir,
    Symlink,
}

/// The name and kind of one directory entry.
#[derive(Debug)]
pub struct DirEntry {
    pub name: String,
    pub kind: EntryKind,
}

/// The kind of an entry from what its file type reports: a symlink first,
/// then a directory, else a plain file.
pub fn classify(is_symlink: bool, is_dir: bool) -> (r: EntryKind)
    ensures
        is_symlink ==> r == EntryKind::Symlink,
        !is_symlink && is_dir ==> r == EntryKind::Dir,
        !is_symlink && !is_dir ==> r == EntryKind::File,
{
    if is_symlink {
        EntryKind::Symlink
    } else if is_dir {
        EntryKind::Dir
    } else {
        EntryKind::File
    }
}

/// Whether an entry named `name` is listed for fragment `q`: every entry for
/// an empty fragment, else those whose name the fragment matches.
pub open spec fn listed(q: Seq<char>, name: Seq<char>) -> bool {
    q.len() == 0 || match_spec(q, name).1
}

/// The score an entry is ranked by: zero for an empty fragment.
pub open spec fn entry_score(q: Seq<char>, name: Seq<char>) -> int {
    if q.len() == 0 {
        0
    } else {
        match_spec(q, name).0
    }
}

/// Ranking key of an entry: its score, then the encoded length of its name.
pub open spec fn entry_le(q: Seq<char>, a: DirEntry, b: DirEntry) -> bool {
    let sa = entry_score(q, a.name@);
    let sb = entry_score(q, b.name@);
    sa < sb || (sa == sb && utf8_len(a.name@) <= utf8_len(b.name@))
}

/// The listed entries of `es`, in their original order.
pub open spec fn survivors(q: Seq<char>, es: Seq<DirEntry>) -> Seq<DirEntry>
    decreases es.len(),
{
    if es.len() == 0 {
        Seq::empty()
    } else {
        let rest = survivors(q, es.drop_last());
        if listed(q, es.last().name@) {
            rest.push(es.last())
        } else {
            rest
        }
    }
}

/// The first position from `i` on whose entry does not rank strictly before `e`.
pub open spec fn insert_pos(q: Seq<char>, s: Seq<DirEntry>, e: DirEntry, i: int) -> int
    decreases s.len() - i,
{
    if i >= s.len() || entry_le(q, e, s[i]) {
        i
    } else {
        insert_pos(q, s, e, i + 1)
    }
}

/// The ranking of `es`: each listed entry, from the last to the first, goes
/// in front of the ranked entries whose key is not smaller, so that entries of
/// equal key keep their order in `es`.
pub open spec fn ranking(q: Seq<char>, es: Seq<DirEntry>) -> Seq<DirEntry>
    decreases es.len(),
{
    if es.len() == 0 {
        Seq::empty()
    } else {
        let rest = ranking(q, es.drop_first());
        if listed(q, es[0].name@) {
            rest.insert(insert_pos(q, rest, es[0], 0), es[0])
        } else {
            rest
        }
    }
}

/// In non-decreasing order of ranking key.
pub open spec fn entries_sorted(q: Seq<char>, s: Seq<DirEntry>) -> bool {
    forall|i: int, j: int| 0 <= i < j < s.len() ==> entry_le(q, s[i], s[j])
}

/// With an empty fragment every entry is listed, unscored, and the order is
/// by the encoded length of the name alone.
pub proof fn lemma_empty_fragment_lists_all(es: Seq<DirEntry>)
    ensures
        survivors(Seq::empty(), es) == es,
        forall|a: DirEntry, b: DirEntry| #[trigger] entry_le(Seq::empty(), a, b) == (utf8_len(a.name@) <= utf8_len(b.name@)),
    decreases es.len(),
{
    if es.len() > 0 {
        lemma_empty_fragment_lists_all(es.drop_last());
        assert(es.drop_last().push(es.last()) =~= es);
    }
}

/// Splits a path typed so far into the directory to list and the fragment of
/// the entry name: a path ending in `/` lists that directory with an empty
/// fragment; otherwise the parent (the path itself when it has none) is
/// listed with the last component as fragment.
pub fn path_split(p: &str) -> (r: (String, String))
    ensures
        p@.len() > 0 && p@.last() == '/' ==> r.0@ == p@ && r.1@.len() == 0,
        !(p@.len() > 0 && p@.last() == '/') ==> r.0@ == (match path_parent(p@) {
            Some(d) => d,
            None => p@,
        }) && r.1@ == (match path_file_name(p@) {
            Some(n) => n,
            None => Seq::empty(),
        }),
{
    let n = p.unicode_len();
    if n > 0 && p.get_char(n - 1) == '/' {
        return (p.to_owned(), String::new());
    }
    let dir = match parent_of(p) {
        Some(d) => d,
        None => p.to_owned(),
    };
    let base = match file_name_of(p) {
        Some(b) => b,
        None => String::new(),
    };
    (dir, base)
}

/// What `Path::parent` gives for a path, as text.
pub uninterp spec fn path_parent(p: Seq<char>) -> Option<Seq<char>>;

/// What `Path::file_name` gives for a path, as text.
pub uninterp spec fn path_file_name(p: Seq<char>) -> Option<Seq<char>>;

/// Relies on `std::path::Path::parent`: the path without its final
/// component, or none for a root or an empty path.
#[verifier::external_body]
fn parent_of(p: &str) -> (r: Option<String>)
    ensures
        r matches Some(d) ==> path_parent(p@) == Some(d@),
        r is None ==> path_parent(p@) is None,
{
    std::path::Path::new(p).parent().and_then(|d| d.to_str()).map(|d| d.to_string())
}

/// Relies on `std::path::Path::file_name`: the final component of the path,
/// or none when it ends in `..` or is a root.
#[verifier::external_body]
fn file_name_of(p: &str) -> (r: Option<String>)
    ensures
        r matches Some(b) ==> path_file_name(p@) == Some(b@),
        r is None ==> path_file_name(p@) is None,
{
    std::path::Path::new(p).file_name().and_then(|b| b.to_str()).map(|b| b.to_string())
}

/// The listed entries of a directory, best first.
pub fn rank_entries(entries: Vec<DirEntry>, fragment: &str) -> (r: Vec<DirEntry>)
    requires
        forall|i: int| 0 <= i < entries@.len() ==> (#[trigger] entries@[i]).name@.len() < MAX_CANDIDATE_LEN,
    ensures
        entries_sorted(fragment@, r@),
        r@ == ranking(fragment@, entries@),
        r@.to_multiset() == survivors(fragment@, entries@).to_multiset(),
        fragment@.len() == 0 ==> r@.to_multiset() == entries@.to_multiset(),
        fragment@.len() == 0 ==> forall|i: int, j: int|
            0 <= i < j < r@.len() ==> utf8_len(r@[i].name@) <= utf8_len(r@[j].name@),
{
    let ghost q = fragment@;
    let ghost orig = entries@;
    let empty = fragment.unicode_len() == 0;
    let mut rest = entries;
    let mut res: Vec<DirEntry> = Vec::new();
    let mut keys: Vec<(i64, u64)> = Vec::new();
    proof {
        assert(res@.to_multiset().len() == 0);
        assert(res@.to_multiset() =~= Multiset::empty());
        assert(Multiset::<DirEntry>::empty().add(survivors(q, orig).to_multiset()) =~= survivors(q, orig).to_multiset());
    }
    while rest.len() > 0
        invariant
            empty == (q.len() == 0),
            q == fragment@,
            rest@.len() <= orig.len(),
            forall|i: int| 0 <= i < rest@.len() ==> (#[trigger] rest@[i]).name@.len() < MAX_CANDIDATE_LEN,
            keys@.len() == res@.len(),
            forall|i: int| 0 <= i < res@.len() ==> (#[trigger] keys@[i]).0 == entry_score(q, res@[i].name@)
                && keys@[i].1 == utf8_len(res@[i].name@),
            entries_sorted(q, res@),
            res@.to_multiset().add(survivors(q, rest@).to_multiset()) == survivors(q, orig).to_multiset(),
            rest@ == orig.take(rest@.len() as int),
            res@ == ranking(q, orig.skip(rest@.len() as int)),
        decreases rest@.len(),
    {
        let ghost before = rest@;
        let e = rest.pop().unwrap();
        proof {
            assert(rest@ =~= before.drop_last());
            assert(e == before[before.len() - 1]);
            assert(rest@ =~= orig.take(rest@.len() as int));
            let suffix = orig.skip(rest@.len() as int);
            assert(suffix[0] == e);
            assert(suffix.drop_first() =~= orig.skip(before.len() as int));
        }
        let (score, keep) = if empty {
            (0i64, true)
        } else {
            is_subseq(fragment, e.name.as_str())
        };
        let ghost ms = res@.to_multiset();
        if keep {
            let len = byte_len(e.name.as_str());
            let mut p: usize = 0;
            loop
                invariant
                    p <= res@.len(),
                    keys@.len() == res@.len(),
                    score == entry_score(q, e.name@),
                    len == utf8_len(e.name@),
                    forall|i: int| 0 <= i < res@.len() ==> (#[trigger] keys@[i]).0 == entry_score(q, res@[i].name@)
                        && keys@[i].1 == utf8_len(res@[i].name@),
                    forall|i: int| 0 <= i < p ==> entry_le(q, #[trigger] res@[i], e) && !entry_le(q, e, res@[i]),
                    insert_pos(q, res@, e, 0) == insert_pos(q, res@, e, p as int),
                ensures
                    insert_pos(q, res@, e, 0) == p,
                    p <= res@.len(),
                    forall|i: int| 0 <= i < p ==> entry_le(q, #[trigger] res@[i], e) && !entry_le(q, e, res@[i]),
                    p < res@.len() ==> entry_le(q, e, res@[p as int]),
                decreases res@.len() - p,
            {
                if p == res.len() {
                    break;
                }
                let k = keys[p];
                if !(k.0 < score || (k.0 == score && k.1 < len)) {
                    break;
                }
                p += 1;
            }
            let ghost old_res = res@;
            let ghost old_keys = keys@;
            res.insert(p, e);
            keys.insert(p, (score, len));
            proof {
                assert forall|i: int, j: int| 0 <= i < j < res@.len() implies entry_le(
                    q,
                    res@[i],
                    res@[j],
                ) by {
                    if i < p && j == p {
                    } else if i == p && j > p {
                        if j - 1 > p {
                            assert(entry_le(q, old_res[p as int], old_res[j - 1]));
                        }
                    } else if i < p && j > p {
                        if j - 1 > p {
                            assert(entry_le(q, old_res[p as int], old_res[j - 1]));
                        }
                        assert(entry_le(q, e, old_res[p as int]));
                    } else if i > p {
                        assert(entry_le(q, old_res[i - 1], old_res[j - 1]));
                    } else {
                        assert(entry_le(q, old_res[i], old_res[j - 1]));
                    }
                }
                assert forall|i: int| 0 <= i < res@.len() implies (#[trigger] keys@[i]).0
                    == entry_score(q, res@[i].name@) && keys@[i].1 == utf8_len(res@[i].name@) by {
                    if i > p {
                        assert(res@[i] == old_res[i - 1]);
                        assert(keys@[i] == old_keys[i - 1]);
                    }
                }
                assert(res@.to_multiset() =~= ms.insert(e));
                assert(survivors(q, before) == survivors(q, rest@).push(e));
                assert(res@.to_multiset().add(survivors(q, rest@).to_multiset()) =~= ms.add(
                    survivors(q, before).to_multiset(),
                ));
            }
        } else {
            proof {
                assert(survivors(q, before) == survivors(q, rest@));
            }
        }
    }
    proof {
        assert(survivors(q, rest@) =~= Seq::empty());
        assert(survivors(q, rest@).to_multiset().len() == 0);
        assert(survivors(q, rest@).to_multiset() =~= Multiset::empty());
        assert(res@.to_multiset().add(Multiset::empty()) =~= res@.to_multiset());
        if q.len() == 0 {
            lemma_empty_fragment_lists_all(orig);
            assert(q =~= Seq::<char>::empty());
            assert forall|i: int, j: int| 0 <= i < j < res@.len() implies utf8_len(res@[i].name@)
                <= utf8_len(res@[j].name@) by {
                assert(entry_le(Seq::empty(), res@[i], res@[j]));
            }
        }
    }
    res
}

} // verus!
