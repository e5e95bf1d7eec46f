use mdsearch::parser::{LinkExtractor, Parser};

#[test]
fn test_parse_simple_markdown() {
    let content = r#"
# Heading 1

Some content here.

## Heading 2

More content.

```rust
fn main() {}
```
"#;

    let parser = Parser::new();
    let doc = parser.parse("test.md", content, None).unwrap();

    assert_eq!(doc.sections.len(), 2);
    assert_eq!(doc.sections[0].title, Some("Heading 1".to_string()));
    assert_eq!(doc.sections[0].level, 1);
}

#[test]
fn test_slugify() {
    let parser = Parser::new();
    assert_eq!(parser.slugify("Hello World"), "hello-world");
    assert_eq!(parser.slugify("API Reference"), "api-reference");
}

#[test]
fn slugify_collapses_runs_of_separators() {
    let parser = Parser::new();
    assert_eq!(parser.slugify("C++ & Rust!"), "c-rust");
    assert_eq!(parser.slugify("---"), "");
}

#[test]
fn parse_keeps_code_blocks_and_slugs() {
    let content = "# Heading 1\n\nSome content here.\n\n## Heading 2\n\nMore content.\n\n```rust\nfn main() {}\n```\n";
    let parser = Parser::new();
    let doc = parser.parse("test.md", content, Some(42)).unwrap();
    assert_eq!(doc.path, "test.md");
    assert_eq!(doc.modified, Some(42));
    assert_eq!(doc.sections.len(), 2);
    assert_eq!(doc.sections[0].slug, Some("heading-1".to_string()));
    assert_eq!(doc.sections[0].line_range, (1, 4));
    assert_eq!(doc.sections[1].level, 2);
    assert_eq!(doc.sections[1].code_blocks.len(), 1);
    assert_eq!(doc.sections[1].code_blocks[0].language, Some("rust".to_string()));
    assert_eq!(doc.sections[1].code_blocks[0].code, "fn main() {}\n");
    assert_eq!(doc.sections[1].code_blocks[0].line_range, (9, 11));
    assert_eq!(doc.hash, parser.hash_content(content));
}

#[test]
fn yaml_frontmatter_later_line_wins() {
    let content = "---\ntitle: A\ntags: x\ntitle: B\n---\n# H\n\nbody\n";
    let parser = Parser::new();
    let doc = parser.parse("f.md", content, None).unwrap();
    let fm = doc.frontmatter.expect("frontmatter");
    assert_eq!(fm.raw, "title: A\ntags: x\ntitle: B");
    assert_eq!(
        fm.fields,
        vec![
            ("title".to_string(), "B".to_string()),
            ("tags".to_string(), "x".to_string())
        ]
    );
    assert_eq!(doc.sections.len(), 1);
    assert_eq!(doc.sections[0].line_range, (6, 8));
}

#[test]
fn extract_frontmatter_reports_where_content_starts() {
    let parser = Parser::new();
    let (fm, start) = parser.extract_frontmatter("---\na: 1\n---\nrest");
    assert_eq!(start, 13);
    assert_eq!(fm.unwrap().fields, vec![("a".to_string(), "1".to_string())]);
    let (none, zero) = parser.extract_frontmatter("no frontmatter");
    assert!(none.is_none());
    assert_eq!(zero, 0);
}

#[test]
fn toml_frontmatter_fields() {
    let parser = Parser::new();
    let fields = parser.parse_toml_frontmatter("title = \"T\"\n = skipped\nlevel = 'x'");
    assert_eq!(
        fields,
        vec![
            ("title".to_string(), "T".to_string()),
            ("level".to_string(), "x".to_string())
        ]
    );
}

#[test]
fn yaml_frontmatter_fields_trim_quotes() {
    let parser = Parser::new();
    let fields = parser.parse_yaml_frontmatter("name: \"Ann\"\nnothing here\nurl: http://x");
    assert_eq!(
        fields,
        vec![
            ("name".to_string(), "Ann".to_string()),
            ("url".to_string(), "http://x".to_string())
        ]
    );
}

#[test]
fn heading_levels() {
    let parser = Parser::new();
    assert_eq!(parser.get_heading_level("### Three"), 3);
    assert_eq!(parser.get_heading_level("  ## indented"), 2);
    assert_eq!(parser.get_heading_level("#NoSpace"), 0);
    assert_eq!(parser.get_heading_level("####### seven"), 0);
    assert_eq!(parser.get_heading_level("plain"), 0);
}

#[test]
fn links_internal_and_external() {
    let parser = Parser::new();
    let links = parser.extract_links_from_content("See [docs](guide.md) and [site](https://x.org).");
    assert_eq!(links.len(), 2);
    assert_eq!(links[0].text, "docs");
    assert_eq!(links[0].target, "guide.md");
    assert!(links[0].internal);
    assert_eq!(links[1].target, "https://x.org");
    assert!(!links[1].internal);
}

#[test]
fn link_extractor_matches_nested_brackets() {
    let chars: Vec<char> = "[a[b]c](x(y))".chars().collect();
    let ex = LinkExtractor;
    assert_eq!(ex.find_matching_bracket(&chars, 0), Some(6));
    assert_eq!(ex.find_matching_paren(&chars, 7), Some(12));
    assert_eq!(ex.find_matching_bracket(&chars, 2), Some(4));
    let open: Vec<char> = "[never closed".chars().collect();
    assert_eq!(ex.find_matching_bracket(&open, 0), None);
    let links = ex.extract("[a[b]c](x(y))");
    assert_eq!(links.len(), 1);
    assert_eq!(links[0].text, "a[b]c");
    assert_eq!(links[0].target, "x(y)");
}

#[test]
fn extract_text_joins_markdown_text_events() {
    let parser = Parser::new();
    assert_eq!(parser.extract_text("# Title\n\nHello *world*"), "Title Hello  world ");
}

#[test]
fn hash_depends_on_content() {
    let parser = Parser::new();
    assert_eq!(parser.hash_content("hello"), parser.hash_content("hello"));
    assert_ne!(parser.hash_content("hello"), parser.hash_content("world"));
}

#[test]
fn can_parse_plain_content() {
    let parser = Parser::new();
    assert!(parser.can_parse("# A\n\ntext"));
    let sections = parser.extract_sections("# A\n\ntext\n", 0);
    assert_eq!(sections.len(), 1);
    assert_eq!(sections[0].content, "text");
}

#[test]
fn section_lines_are_lines_of_the_file() {
    let parser = Parser::new();
    let d = parser.parse("a.md", "---\nk: v\n---\n# T\nbody\n", None).unwrap();
    assert_eq!(d.sections.len(), 1);
    assert_eq!(d.sections[0].title, Some("T".to_string()));
    assert_eq!(d.sections[0].content, "body");
    assert_eq!(d.sections[0].line_range, (4, 5));
}

#[test]
fn section_levels_go_with_titles() {
    let parser = Parser::new();
    let sections = parser.extract_sections("intro\n# A\nx\n###### F\ny\n", 0);
    assert_eq!(sections.len(), 3);
    assert_eq!(sections[0].level, 0);
    assert_eq!(sections[0].title, None);
    assert_eq!(sections[0].slug, None);
    assert_eq!(sections[0].line_range, (1, 1));
    assert_eq!(sections[2].level, 6);
    assert_eq!(sections[2].slug, Some("f".to_string()));
}
