use mdsearch::error::Error;
use mdsearch::search::{
    can_find_highlights, can_highlight_matches, find_highlights, highlight_matches, query_terms, tokenize,
    try_find_highlights, Highlight, MatchType,
};

fn strings(v: &[&str]) -> Vec<String> {
    v.iter().map(|s| s.to_string()).collect()
}

fn spans(h: &[Highlight]) -> Vec<(usize, usize, String)> {
    h.iter().map(|x| (x.start, x.end, x.text.clone())).collect()
}

#[test]
fn tokenize_lowercases_and_drops_short_pieces() {
    assert_eq!(tokenize("Hello, World! a rust-lang"), strings(&["hello", "world", "rust", "lang"]));
    assert!(tokenize("").is_empty());
}

#[test]
fn empty_queries_are_refused() {
    match query_terms("a ! b") {
        Err(Error::InvalidQuery(m)) => assert_eq!(m, "Empty query"),
        other => panic!("unexpected: {:?}", other),
    }
    assert_eq!(query_terms("Rust search").unwrap(), strings(&["rust", "search"]));
}

#[test]
fn highlights_of_every_match() {
    let h = find_highlights("Rust is fast. RUST rocks", &strings(&["rust"]));
    assert_eq!(spans(&h), vec![(0, 4, "Rust".to_string()), (14, 18, "RUST".to_string())]);
}

#[test]
fn highlights_are_ordered_and_unique() {
    let content = "Rust is fast. RUST rocks";
    let h = find_highlights(content, &strings(&["rocks", "rust"]));
    assert_eq!(
        spans(&h),
        vec![
            (0, 4, "Rust".to_string()),
            (14, 18, "RUST".to_string()),
            (19, 24, "rocks".to_string())
        ]
    );
    let twice = find_highlights(content, &strings(&["rust", "rust"]));
    assert_eq!(twice.len(), 2);
    let two = find_highlights(content, &strings(&["is", "fast"]));
    assert_eq!(spans(&two), vec![(5, 7, "is".to_string()), (8, 12, "fast".to_string())]);
}

#[test]
fn highlights_undefined_where_the_scan_would_fail() {
    assert!(!can_find_highlights("abc", &strings(&[""])));
    assert!(try_find_highlights("abc", &strings(&[""])).is_none());
    assert!(try_find_highlights("\u{130}x", &strings(&["x"])).is_none());
    assert!(try_find_highlights("abc", &strings(&["zz"])).unwrap().is_empty());
}

#[test]
fn matches_are_marked() {
    let content = "Rust is fast";
    let h = find_highlights(content, &strings(&["rust", "fast"]));
    assert_eq!(highlight_matches(content, &h), "**Rust** is **fast**");
    assert_eq!(highlight_matches(content, &[]), "Rust is fast");
    let one = vec![Highlight { start: 0, end: 4, text: "Rust".to_string() }];
    assert_eq!(highlight_matches(content, &one), "**Rust** is fast");
}

#[test]
fn match_types_compare() {
    assert_eq!(MatchType::Exact, MatchType::Exact);
    assert_ne!(MatchType::Exact, MatchType::Semantic);
}

#[test]
fn marking_needs_character_boundaries() {
    let inside = vec![Highlight { start: 1, end: 2, text: "x".to_string() }];
    assert!(!can_highlight_matches("\u{e9}a", &inside));
    let fine = vec![Highlight { start: 2, end: 3, text: "a".to_string() }];
    assert!(can_highlight_matches("\u{e9}a", &fine));
    assert_eq!(highlight_matches("\u{e9}a", &fine), "\u{e9}**a**");
    assert!(can_highlight_matches("abc", &[]));
}

#[test]
fn highlighting_only_adds_markers() {
    let content = "Caf\u{e9} notes: caf\u{e9} and tea, more tea";
    let h = find_highlights(content, &strings(&["caf\u{e9}", "tea"]));
    assert!(can_highlight_matches(content, &h));
    let marked = highlight_matches(content, &h);
    assert_eq!(
        marked,
        "**Caf\u{e9}** notes: **caf\u{e9}** and **tea**, more **tea**"
    );
    let stripped: String = marked.chars().filter(|c| *c != '*').collect();
    assert_eq!(stripped, content);
}
