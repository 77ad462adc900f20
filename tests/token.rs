use fuzzy_match::token::{tokenize, TokenStore};

#[test]
fn tokenize_keeps_words_of_three_or_more() {
    let t = tokenize("Gorycz odchodzi");
    assert!(t.iter().any(|w| w == "Gorycz"));
    assert!(t.iter().any(|w| w == "odchodzi"));
    assert_eq!(tokenize("a bb ccc"), vec!["ccc".to_string()]);
}

#[test]
fn tokenize_rules_on_digits_and_underscores() {
    assert_eq!(tokenize("ab1cd abc1 12abc x_y_z"), vec!["abc1".to_string(), "abc".to_string(), "x_y_z".to_string()]);
    assert_eq!(tokenize(""), Vec::<String>::new());
    assert_eq!(tokenize("społeczeństwa, mogąc!"), vec!["społeczeństwa".to_string(), "mogąc".to_string()]);
}

#[test]
fn add_text_is_idempotent() {
    let mut store = TokenStore::new();
    store.add_text("alpha beta gamma alpha");
    assert_eq!(store.len(), 3);
    store.add_text("alpha beta gamma alpha");
    assert_eq!(store.len(), 3);
    store.add_text("delta");
    assert_eq!(store.len(), 4);
}

#[test]
fn search_ranks_by_score_then_length() {
    let mut store = TokenStore::new();
    store.add_text("Gorycz odchodzi amochodowego mogąc społeczeństwa xyz");
    let res = store.search("oc");
    let got: Vec<(i64, &str)> = res.iter().map(|(s, w)| (*s, w.as_str())).collect();
    assert_eq!(
        got,
        vec![(-997, "odchodzi"), (-7, "amochodowego"), (5, "Gorycz"), (5, "mogąc"), (7, "społeczeństwa")]
    );
}

#[test]
fn search_results_are_sorted() {
    let mut store = TokenStore::new();
    store.add_text("abc abcd xabc xxabc abxc axbxc zzzz");
    let res = store.search("abc");
    assert_eq!(res.len(), 6);
    for pair in res.windows(2) {
        assert!((pair[0].0, pair[0].1.len()) <= (pair[1].0, pair[1].1.len()));
    }
    assert_eq!(res[0], (-1017, "abc".to_string()));
    assert_eq!(res[1], (-1017, "abcd".to_string()));
}

#[test]
fn equal_keys_are_ordered_by_text() {
    let mut store = TokenStore::new();
    store.add_text("dab bab cab");
    let res = store.search("ab");
    let words: Vec<&str> = res.iter().map(|(_, w)| w.as_str()).collect();
    assert_eq!(words, vec!["bab", "cab", "dab"]);
    assert!(res.iter().all(|(s, _)| *s == -8));
}

#[test]
fn empty_query_finds_nothing() {
    let mut store = TokenStore::new();
    store.add_text("alpha beta");
    assert!(store.search("").is_empty());
}

#[test]
fn empty_store_finds_nothing() {
    let store = TokenStore::new();
    assert!(store.search("abc").is_empty());
    assert_eq!(store.len(), 0);
}
