use mdsearch::chunk::{Chunk, Chunker};
use mdsearch::parser::Parser;
use mdsearch::store::{
    chunks_for_document, orphaned_documents, search_chunks, DocumentRecord, IndexMetadata,
    TermPosting,
};

fn chunk(id: &str, file: &str, content: &str) -> Chunk {
    Chunk {
        id: id.to_string(),
        file: file.to_string(),
        content: content.to_string(),
        char_range: (0, content.len()),
        line_range: (1, 1),
        section_path: String::new(),
        context_before: None,
        context_after: None,
        token_count: content.len() / 4,
        metadata: Vec::new(),
    }
}

#[test]
fn metadata_counters() {
    let mut m = IndexMetadata::new(5);
    assert_eq!(m.version, 1);
    assert_eq!(m.created_at, 5);
    m.record_document();
    m.record_document();
    m.record_chunks(7);
    m.record_document_removed();
    assert_eq!(m.document_count, 1);
    assert_eq!(m.chunk_count, 7);
    m.record_document_removed();
    m.record_document_removed();
    assert_eq!(m.document_count, 0);
    m.touch(9);
    assert_eq!(m.updated_at, 9);
    assert_eq!(m.created_at, 5);
    let d = IndexMetadata::default();
    assert_eq!(d.created_at, d.updated_at);
    assert!(d.created_at > 1_600_000_000);
}

#[test]
fn search_chunks_matches_case_insensitively_up_to_limit() {
    let chunks = vec![
        chunk("1", "a.md", "Rust programming"),
        chunk("2", "a.md", "Python"),
        chunk("3", "b.md", "more RUST"),
        chunk("4", "b.md", "rust again"),
    ];
    let found = search_chunks(&chunks, "rust", 10);
    assert_eq!(found.iter().map(|c| c.id.clone()).collect::<Vec<_>>(), vec!["1", "3", "4"]);
    let limited = search_chunks(&chunks, "RUST", 2);
    assert_eq!(limited.iter().map(|c| c.id.clone()).collect::<Vec<_>>(), vec!["1", "3"]);
    assert!(search_chunks(&chunks, "rust", 0).is_empty());
}

#[test]
fn chunks_of_one_document() {
    let chunks = vec![chunk("1", "a.md", "x"), chunk("2", "b.md", "y"), chunk("3", "a.md", "z")];
    let found = chunks_for_document(&chunks, "a.md");
    assert_eq!(found.iter().map(|c| c.id.clone()).collect::<Vec<_>>(), vec!["1", "3"]);
}

#[test]
fn document_records_and_postings() {
    let parser = Parser::new();
    let doc = parser.parse("d.md", "# T\n\nx\n", Some(3)).unwrap();
    let r = DocumentRecord::for_document(&doc, 11);
    assert_eq!(r.path, "d.md");
    assert_eq!(r.hash, doc.hash);
    assert_eq!(r.modified, Some(3));
    assert_eq!(r.indexed_at, 11);
    let p = TermPosting::for_document("t".to_string(), "d.md".to_string(), 4);
    assert_eq!(p.doc_ids, vec![("d.md".to_string(), 4)]);
    assert_eq!(p.total_frequency, 4);
    let c = Chunker::default().chunk_document(&doc).unwrap();
    assert_eq!(c[0].duplicate().id, c[0].id);
}

fn record(path: &str) -> DocumentRecord {
    DocumentRecord { path: path.to_string(), hash: 0, modified: None, indexed_at: 0, chunk_count: 0 }
}

#[test]
fn documents_without_chunks_are_orphans() {
    let docs = vec![record("a.md"), record("b.md"), record("c.md")];
    let chunks = vec![chunk("1", "b.md", "x")];
    assert_eq!(orphaned_documents(&docs, &chunks), vec!["a.md".to_string(), "c.md".to_string()]);
    assert!(orphaned_documents(&[], &chunks).is_empty());
}
