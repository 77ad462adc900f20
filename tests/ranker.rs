use std::path::Path;

use fuzzy_match::ranker::{classify, path_split, rank_entries, DirEntry, EntryKind};

fn entry(name: &str, kind: EntryKind) -> DirEntry {
    DirEntry { name: name.to_string(), kind }
}

fn names(v: &[DirEntry]) -> Vec<&str> {
    v.iter().map(|e| e.name.as_str()).collect()
}

#[test]
fn test_path_split() {
    let (d, b) = path_split("/");
    assert_eq!((Path::new(&d), b.as_str()), (Path::new("/"), ""));
    let (d, b) = path_split("/etc");
    assert_eq!((Path::new(&d), b.as_str()), (Path::new("/"), "etc"));
    let (d, b) = path_split("/etc/");
    assert_eq!((Path::new(&d), b.as_str()), (Path::new("/etc"), ""));
    let (d, b) = path_split("/etc/a");
    assert_eq!((Path::new(&d), b.as_str()), (Path::new("/etc"), "a"));
}

#[test]
fn path_split_relative() {
    let (d, b) = path_split("src/li");
    assert_eq!((d.as_str(), b.as_str()), ("src", "li"));
}

#[test]
fn empty_fragment_lists_everything_by_length() {
    let es = vec![
        entry("longest_name", EntryKind::File),
        entry("mid", EntryKind::Dir),
        entry("ab", EntryKind::Symlink),
        entry("żż", EntryKind::File),
    ];
    let r = rank_entries(es, "");
    assert_eq!(names(&r), vec!["ab", "mid", "żż", "longest_name"]);
    assert_eq!(r[0].kind, EntryKind::Symlink);
}

#[test]
fn fragment_filters_and_ranks() {
    let es = vec![
        entry("Cargo.toml", EntryKind::File),
        entry("src", EntryKind::Dir),
        entry("target", EntryKind::Dir),
        entry("README", EntryKind::File),
        entry("tests", EntryKind::Dir),
    ];
    let r = rank_entries(es, "t");
    assert_eq!(names(&r), vec!["tests", "target", "Cargo.toml"]);
}

#[test]
fn equal_keys_keep_listing_order() {
    let es = vec![entry("xab", EntryKind::File), entry("yab", EntryKind::File), entry("zab", EntryKind::Dir)];
    let r = rank_entries(es, "ab");
    assert_eq!(names(&r), vec!["xab", "yab", "zab"]);
}

#[test]
fn no_entries_no_results() {
    assert!(rank_entries(Vec::new(), "a").is_empty());
    assert!(rank_entries(Vec::new(), "").is_empty());
}

#[test]
fn classify_prefers_symlink_then_dir() {
    assert_eq!(classify(true, true), EntryKind::Symlink);
    assert_eq!(classify(true, false), EntryKind::Symlink);
    assert_eq!(classify(false, true), EntryKind::Dir);
    assert_eq!(classify(false, false), EntryKind::File);
}
