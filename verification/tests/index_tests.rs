use mdsearch::config::IndexingConfig;
use mdsearch::index::{
    add_document_postings, extract_terms, format_timestamp, is_markdown_extension,
    is_markdown_file, is_stop_word, is_too_large, prepare_document, render_timestamp,
    single_document_postings,
    try_add_document_postings, try_extract_terms, IndexStats,
};
use mdsearch::parser::Parser;
use mdsearch::store::TermPosting;

fn terms(v: &[(&str, u32)]) -> Vec<(String, u32)> {
    v.iter().map(|(t, c)| (t.to_string(), *c)).collect()
}

#[test]
fn stop_words_are_known() {
    assert!(is_stop_word("the"));
    assert!(is_stop_word("if"));
    assert!(!is_stop_word("rust"));
    assert!(!is_stop_word("The"));
}

#[test]
fn terms_skip_stop_words_and_short_words() {
    let got = try_extract_terms("The quick brown fox, the QUICK dog! a I x").unwrap();
    assert_eq!(got, terms(&[("quick", 2), ("brown", 1), ("fox", 1), ("dog", 1)]));
    assert_eq!(try_extract_terms("").unwrap(), Vec::<(String, u32)>::new());
    let long_word = "y".repeat(51);
    assert_eq!(try_extract_terms(&long_word).unwrap(), Vec::<(String, u32)>::new());
}

#[test]
fn extract_terms_reads_document_text() {
    let parser = Parser::new();
    let doc = parser.parse("d.md", "# Rust\n\nRust is fast and safe.\n", None).unwrap();
    let got = extract_terms(&doc);
    assert_eq!(got, terms(&[("rust", 2), ("fast", 1), ("safe", 1)]));
}

#[test]
fn markdown_files_by_extension() {
    assert!(is_markdown_file("notes/a.md"));
    assert!(is_markdown_file("dir/sub/x.markdown"));
    assert!(is_markdown_file("/home/u/notes/a.md"));
    assert!(is_markdown_file("/a.md"));
    assert!(!is_markdown_file("/home/u/a.txt"));
    assert!(!is_markdown_file("dir/x.txt"));
    assert!(is_markdown_file("b.markdown"));
    assert!(!is_markdown_file("a.txt"));
    assert!(!is_markdown_file("md"));
    assert!(!is_markdown_file(".md"));
    assert!(!is_markdown_file("a.MD"));
    assert!(is_markdown_extension(Some("md")));
    assert!(!is_markdown_extension(None));
}

#[test]
fn size_limit() {
    let mut config = IndexingConfig::default();
    assert!(is_too_large(&config, 11 * 1024 * 1024));
    assert!(!is_too_large(&config, 100));
    config.max_file_size = 0;
    assert!(!is_too_large(&config, u64::MAX));
}

#[test]
fn unchanged_documents_are_skipped() {
    let parser = Parser::new();
    let content = "# Rust\n\nRust is fast.\n";
    let doc = parser.parse("d.md", content, None).unwrap();
    let hash = doc.hash;
    assert!(prepare_document(doc, Some(hash)).is_none());

    let doc = parser.parse("d.md", content, None).unwrap();
    let p = prepare_document(doc, Some(hash.wrapping_add(1))).unwrap();
    assert_eq!(p.document.path, "d.md");
    assert_eq!(p.chunks.len(), 1);
    assert_eq!(p.chunks[0].id, "d.md-1-0");
    assert_eq!(p.terms, terms(&[("rust", 2), ("fast", 1)]));

    let doc = parser.parse("d.md", content, None).unwrap();
    assert!(prepare_document(doc, None).is_some());
}

#[test]
fn postings_accumulate_per_document() {
    let p = add_document_postings(Vec::new(), "a.md", &terms(&[("rust", 2), ("fast", 1)]));
    assert_eq!(p.len(), 2);
    assert_eq!(p[0].term, "rust");
    assert_eq!(p[0].doc_ids, vec![("a.md".to_string(), 2)]);
    assert_eq!(p[0].total_frequency, 2);
    let p = add_document_postings(p, "b.md", &terms(&[("rust", 3), ("safe", 4)]));
    assert_eq!(p.len(), 3);
    assert_eq!(p[0].doc_ids, vec![("a.md".to_string(), 2), ("b.md".to_string(), 3)]);
    assert_eq!(p[0].total_frequency, 5);
    assert_eq!(p[1].term, "fast");
    assert_eq!(p[2].term, "safe");
    for posting in &p {
        let sum: u64 = posting.doc_ids.iter().map(|(_, f)| *f as u64).sum();
        assert_eq!(posting.total_frequency, sum);
    }
}

#[test]
fn postings_refuse_overflowing_totals() {
    let mut big = TermPosting::for_document("rust".to_string(), "a.md".to_string(), 1);
    big.total_frequency = u64::MAX - 1;
    assert!(try_add_document_postings(vec![big], "b.md", &terms(&[("rust", 5)])).is_none());
    let small = TermPosting::for_document("rust".to_string(), "a.md".to_string(), 1);
    let ok = try_add_document_postings(vec![small], "b.md", &terms(&[("rust", 5)])).unwrap();
    assert_eq!(ok[0].total_frequency, 6);
}

#[test]
fn stats_record_files() {
    let mut s = IndexStats::default();
    assert_eq!(s.files_indexed, 0);
    s.record_file(3, 100);
    s.record_file(2, 50);
    s.set_unique_terms(7);
    assert_eq!(s.files_indexed, 2);
    assert_eq!(s.chunks_created, 5);
    assert_eq!(s.bytes_indexed, 150);
    assert_eq!(s.unique_terms, 7);
}

#[test]
fn timestamps_render_in_utc() {
    assert_eq!(format_timestamp(0), "1970-01-01 00:00:00 UTC");
    assert_eq!(format_timestamp(86_400 * 365), "1971-01-01 00:00:00 UTC");
    assert_eq!(format_timestamp(u64::MAX), "1969-12-31 23:59:59 UTC");
    assert_eq!(format_timestamp(1u64 << 62), "Invalid timestamp (4611686018427387904)");
    assert_eq!(render_timestamp(5, None), "Invalid timestamp (5)");
    assert_eq!(render_timestamp(5, Some("x".to_string())), "x");
}

#[test]
fn watched_documents_get_postings_of_their_own() {
    let p = single_document_postings("w.md", &terms(&[("rust", 3), ("fast", 1)]));
    assert_eq!(p.len(), 2);
    assert_eq!(p[0].term, "rust");
    assert_eq!(p[0].doc_ids, vec![("w.md".to_string(), 3)]);
    assert_eq!(p[0].total_frequency, 3);
    assert_eq!(p[1].term, "fast");
    assert_eq!(p[1].total_frequency, 1);
}
