use fuzzy_match::matcher::is_subseq;

#[test]
fn test_subseq() {
    assert_eq!(is_subseq("wop", "world"), (0, false));
    assert_eq!(is_subseq("", "world"), (0, false));

    assert_eq!(is_subseq("w", "world"), (-999, true));
    assert_eq!(is_subseq("wld", "world"), (-1005, true));
    assert_eq!(is_subseq("d", "world"), (4, true));
    assert_eq!(is_subseq("od", "world"), (5, true));
    assert_eq!(is_subseq("Od", "world"), (5, true));

    assert_eq!(is_subseq("or", "world"), (-8, true));
    assert_eq!(is_subseq("or", "wwwwwwwwwwwwworld"), (4, true));
    assert_eq!(is_subseq("or", "wowwwwwwwwwwwwrld"), (15, true));
}

#[test]
fn empty_query_never_matches() {
    assert_eq!(is_subseq("", ""), (0, false));
    assert_eq!(is_subseq("", "abc"), (0, false));
    assert_eq!(is_subseq("", "żółw"), (0, false));
}

#[test]
fn empty_candidate_never_matches() {
    assert_eq!(is_subseq("a", ""), (0, false));
}

#[test]
fn prefix_match_carries_prefix_bonus() {
    assert_eq!(is_subseq("W", "world"), (-999, true));
    assert_eq!(is_subseq("wr", "world"), (-997, true));
    // a match right after the first position continues the run
    assert_eq!(is_subseq("wo", "world"), (-1008, true));
}

#[test]
fn contiguous_run_beats_spread_match() {
    let (run, m1) = is_subseq("orl", "xxorld");
    let (spread, m2) = is_subseq("orl", "xxoxrl");
    assert!(m1 && m2);
    assert_eq!(run, 2 - 9 - 9);
    assert_eq!(spread, 2 + 4 - 9);
    assert!(run < spread);
}

#[test]
fn positions_count_characters_not_bytes() {
    assert_eq!(is_subseq("c", "mogąc"), (4, true));
    assert_eq!(is_subseq("oc", "społeczeństwa"), (7, true));
}

#[test]
fn case_folding_respects_encoded_width() {
    assert_eq!(is_subseq("Ą", "ąb"), (-999, true));
    assert_eq!(is_subseq("ŻÓ", "żółw"), (-1008, true));
    // 'a' and 'ą' differ in width and never match
    assert_eq!(is_subseq("a", "ą"), (0, false));
    // the Kelvin sign lowers to 'k' but is three bytes wide
    assert_eq!(is_subseq("k", "\u{212A}"), (0, false));
}

#[test]
fn missing_character_fails_whole_match() {
    assert_eq!(is_subseq("wdx", "world"), (0, false));
    assert_eq!(is_subseq("dw", "world"), (0, false));
}
