use mdsearch::chunk::{Chunk, Chunker};
use mdsearch::parser::{Parser, Section};

#[test]
fn test_chunker_respects_target_size() {
    let text = "A".repeat(1000);
    let chunker = Chunker::new(100, 0);
    let chunks = chunker.smart_split(&text);

    assert!(chunks.iter().all(|(c, _)| c.len() <= 150)); // Allow some overflow
}

#[test]
fn test_chunker_respects_sentence_boundaries() {
    let text = "First sentence. Second sentence. Third sentence.";
    let chunker = Chunker::new(20, 0);
    let chunks = chunker.smart_split(text);

    // Should break at sentence boundaries, not mid-word
    for (chunk, _) in &chunks {
        assert!(
            chunk.ends_with('.') || chunk.ends_with('\n'),
            "Chunk doesn't end at sentence boundary: {:?}",
            chunk
        );
    }
}

#[test]
fn smart_split_pieces_spell_out_the_text() {
    let text = "First sentence. Second sentence. Third sentence.";
    let chunker = Chunker::new(20, 0);
    let chunks = chunker.smart_split(text);
    let joined: String = chunks.iter().map(|(c, _)| c.as_str()).collect();
    assert_eq!(joined, text);
    let mut pos = 0;
    for (c, (a, b)) in &chunks {
        assert!(!c.is_empty());
        assert!(c.chars().count() <= 20);
        assert_eq!(*a, pos);
        assert_eq!(*b, pos + c.len());
        pos = *b;
    }
    assert_eq!(
        chunks.iter().map(|(c, _)| c.clone()).collect::<Vec<_>>(),
        vec![
            "First sentence.".to_string(),
            " Second sentence.".to_string(),
            " Third sentence.".to_string()
        ]
    );
}

#[test]
fn smart_split_counts_characters_not_bytes() {
    let chunker = Chunker::new(3, 0);
    let chunks = chunker.smart_split("h\u{e9}llo w\u{f6}rld");
    assert_eq!(
        chunks,
        vec![
            ("h\u{e9}l".to_string(), (0, 3)),
            ("lo ".to_string(), (3, 6)),
            ("w\u{f6}r".to_string(), (6, 9)),
            ("ld".to_string(), (9, 11)),
        ]
    );
}

#[test]
fn smart_split_pieces_never_exceed_the_target() {
    let chunker = Chunker::new(3, 0);
    let chunks = chunker.smart_split(".a\u{1d11e}\u{1d11e}");
    assert_eq!(
        chunks,
        vec![
            (".".to_string(), (0, 1)),
            ("a\u{1d11e}\u{1d11e}".to_string(), (1, 4)),
        ]
    );
    for (c, _) in &chunks {
        assert!(c.chars().count() <= 3);
    }
}

#[test]
fn smart_split_with_zero_target_cuts_every_character() {
    let chunker = Chunker::new(0, 0);
    let chunks = chunker.smart_split("ab");
    assert_eq!(
        chunks,
        vec![("a".to_string(), (0, 1)), ("b".to_string(), (1, 2))]
    );
}

#[test]
fn section_within_target_characters_is_one_chunk() {
    let content = "\u{e9}".repeat(10);
    let all = vec![Section {
        level: 1,
        title: Some("T".to_string()),
        content: content.clone(),
        line_range: (1, 3),
        code_blocks: Vec::new(),
        slug: None,
    }];
    let chunker = Chunker::new(12, 0);
    let chunks = chunker.chunk_section(&all[0], "x.md", &Vec::new(), &all);
    assert_eq!(chunks.len(), 1);
    assert_eq!(chunks[0].content, content);
    assert_eq!(chunks[0].char_range, (0, 10));
    assert_eq!(chunks[0].token_count, 5);
}

#[test]
fn smart_split_of_empty_text_is_empty() {
    let chunker = Chunker::new(20, 0);
    assert!(chunker.smart_split("").is_empty());
}

#[test]
fn smart_split_short_text_is_one_piece() {
    let chunker = Chunker::new(100, 0);
    let chunks = chunker.smart_split("Short text.");
    assert_eq!(chunks.len(), 1);
    assert_eq!(chunks[0].0, "Short text.");
    assert_eq!(chunks[0].1, (0, 11));
}

#[test]
fn estimate_tokens_is_a_quarter_of_the_bytes() {
    let chunker = Chunker::default();
    assert_eq!(chunker.estimate_tokens("abcdefgh"), 2);
    assert_eq!(chunker.estimate_tokens("abc"), 0);
    assert_eq!(chunker.estimate_tokens(""), 0);
}

#[test]
fn remove_code_blocks_drops_fenced_code() {
    let chunker = Chunker::default();
    let out = chunker.remove_code_blocks("before\n```rust\nfn main() {}\n```\nafter");
    assert_eq!(out, "before\nafter\n");
}

#[test]
fn chunk_document_follows_sections() {
    let content = "# Intro\n\nHello there.\n\n## Details\n\nMore text here.\n";
    let parser = Parser::new();
    let doc = parser.parse("notes.md", content, None).unwrap();
    let chunker = Chunker::new(512, 50);
    let chunks: Vec<Chunk> = chunker.chunk_document(&doc).unwrap();
    assert_eq!(chunks.len(), 2);
    assert_eq!(chunks[0].file, "notes.md");
    assert_eq!(chunks[0].id, "notes.md-1-0");
    assert_eq!(chunks[0].section_path, "Intro");
    assert_eq!(chunks[1].id, "notes.md-5-0");
    assert_eq!(chunks[1].section_path, "Intro > Details");
    assert!(chunks[1].content.contains("More text here."));
}

#[test]
fn chunk_file_parses_then_chunks() {
    let chunker = Chunker::new(512, 50);
    let chunks = chunker
        .chunk_file("a.md", "# Title\n\nBody text.\n", Some(7))
        .unwrap();
    assert_eq!(chunks.len(), 1);
    assert_eq!(chunks[0].content, "Body text.");
    assert_eq!(chunks[0].token_count, chunks[0].content.len() / 4);
}

#[test]
fn chunk_text_numbers_chunks_by_file() {
    let chunker = Chunker::new(20, 0);
    let meta: Vec<(String, String)> = vec![("k".to_string(), "v".to_string())];
    let chunks = chunker.chunk_text("First sentence. Second sentence.", "f.md", &meta);
    assert_eq!(chunks.len(), 2);
    assert_eq!(chunks[0].id, "f.md-0");
    assert_eq!(chunks[1].id, "f.md-1");
    assert_eq!(chunks[1].metadata, meta);
    assert_eq!(chunks[0].line_range, (0, 0));
}

#[test]
fn split_sections_carry_overlap_context() {
    let parser = Parser::new();
    let doc = parser
        .parse("x.md", "# T\n\nFirst sentence. Second sentence. Third sentence.\n", None)
        .unwrap();
    let chunker = Chunker::new(20, 5);
    let chunks = chunker.chunk_section(&doc.sections[0], "x.md", &Vec::new(), &doc.sections);
    assert_eq!(chunks.len(), 3);
    assert_eq!(chunks[0].id, "x.md-1-0");
    assert_eq!(chunks[2].id, "x.md-1-2");
    assert_eq!(chunks[0].context_before, None);
    assert_eq!(chunks[0].context_after, Some(" Seco".to_string()));
    assert_eq!(chunks[1].context_before, Some("ence.".to_string()));
    assert_eq!(chunks[2].context_after, None);
    let joined: String = chunks.iter().map(|c| c.content.as_str()).collect();
    assert_eq!(joined, doc.sections[0].content);
}

fn section(level: u8, title: &str, start: usize) -> Section {
    Section {
        level,
        title: Some(title.to_string()),
        content: "text".to_string(),
        line_range: (start, start + 1),
        code_blocks: Vec::new(),
        slug: None,
    }
}

#[test]
fn section_path_holds_parent_headings_only() {
    let all = vec![
        section(1, "Install", 1),
        section(2, "Linux", 3),
        section(1, "Usage", 5),
        section(2, "CLI", 7),
        section(3, "Flags", 9),
    ];
    let chunker = Chunker::default();
    assert_eq!(chunker.build_section_path(&all[3], &all), "Usage > CLI");
    assert_eq!(chunker.build_section_path(&all[4], &all), "Usage > CLI > Flags");
    assert_eq!(chunker.build_section_path(&all[2], &all), "Usage");
    assert_eq!(chunker.build_section_path(&all[1], &all), "Install > Linux");
}
