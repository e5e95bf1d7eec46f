use mdsearch::config::{split_patterns, ChunkingConfig, IndexingConfig, StorageConfig};
use mdsearch::embeddings::{batch_ranges, EmbeddingConfig, EmbeddingProvider, MockEmbedder};
use mdsearch::error::Error;
use mdsearch::local_embeddings::{
    cache_dir_under, dimensions_of, parse_model_string, LocalModelConfig, DEFAULT_MODEL,
};

#[test]
fn test_parse_model_string() {
    assert_eq!(parse_model_string("minilm"), DEFAULT_MODEL);

    assert_eq!(
        parse_model_string("sentence-transformers/paraphrase-MiniLM-L6-v2"),
        "sentence-transformers/paraphrase-MiniLM-L6-v2"
    );
}

#[test]
fn short_model_names() {
    assert_eq!(parse_model_string("default"), DEFAULT_MODEL);
    assert_eq!(parse_model_string("minilm-l12"), "sentence-transformers/all-MiniLM-L12-v2");
    assert_eq!(parse_model_string("bge-small"), "BAAI/bge-small-en-v1.5");
    assert_eq!(parse_model_string("bge-base"), "BAAI/bge-base-en-v1.5");
}

#[test]
fn local_model_config_builders() {
    let c = LocalModelConfig::new("m".to_string()).with_cache_dir("/tmp/cache".to_string());
    assert_eq!(c.model_id, "m");
    assert_eq!(c.cache_dir, "/tmp/cache");
    assert_eq!(c.dimensions, 384);
    let d = LocalModelConfig::default();
    assert_eq!(d.model_id, DEFAULT_MODEL);
    assert!(d.cache_dir.ends_with("mdsearch"));
}

#[test]
fn providers_by_name() {
    assert_eq!(EmbeddingProvider::from_name("openai"), Some(EmbeddingProvider::OpenAI));
    assert_eq!(EmbeddingProvider::from_name("local"), Some(EmbeddingProvider::Local));
    assert_eq!(EmbeddingProvider::from_name("mock"), Some(EmbeddingProvider::Mock));
    assert_eq!(EmbeddingProvider::from_name("other"), None);
    assert_eq!(EmbeddingProvider::for_semantic_search("openai"), EmbeddingProvider::OpenAI);
    assert_eq!(EmbeddingProvider::for_semantic_search("local"), EmbeddingProvider::Local);
    assert_eq!(EmbeddingProvider::for_semantic_search("mock"), EmbeddingProvider::Mock);
}

#[test]
fn embed_config_refuses_unknown_provider() {
    match EmbeddingConfig::for_embed("cohere", None, None, None) {
        Err(Error::Search(m)) => {
            assert_eq!(m, "Unknown provider 'cohere'. Use: local, openai, mock")
        }
        other => panic!("unexpected: {:?}", other),
    }
    let c = EmbeddingConfig::for_embed("mock", None, None, Some("/c".to_string())).unwrap();
    assert_eq!(c.provider, EmbeddingProvider::Mock);
    assert_eq!(c.model, "default");
    assert_eq!(c.dimensions, 384);
    assert_eq!(c.cache_dir, Some("/c".to_string()));
}

#[test]
fn local_model_config_prefers_model_path() {
    let c = EmbeddingConfig::for_embed(
        "local",
        Some("bge-small".to_string()),
        Some("/models/bge".to_string()),
        Some("/cache".to_string()),
    )
    .unwrap();
    let l = c.local_model_config();
    assert_eq!(l.model_id, "BAAI/bge-small-en-v1.5");
    assert_eq!(l.cache_dir, "/models/bge");
    let c2 = EmbeddingConfig::for_embed("local", None, None, Some("/cache".to_string())).unwrap();
    assert_eq!(c2.local_model_config().cache_dir, "/cache");
    assert_eq!(c2.local_model_config().model_id, DEFAULT_MODEL);
}

#[test]
fn embedding_config_default() {
    let c = EmbeddingConfig::default();
    assert_eq!(c.provider, EmbeddingProvider::Local);
    assert_eq!(c.model, "default");
    assert_eq!(c.dimensions, 384);
}

#[test]
fn batches_cover_all_chunks() {
    assert_eq!(batch_ranges(5, 2), vec![(0, 2), (2, 4), (4, 5)]);
    assert_eq!(batch_ranges(4, 2), vec![(0, 2), (2, 4)]);
    assert_eq!(batch_ranges(0, 3), Vec::<(usize, usize)>::new());
    assert_eq!(batch_ranges(3, 100), vec![(0, 3)]);
}

#[test]
fn mock_embedder_components_are_deterministic() {
    let e = MockEmbedder::new(8);
    assert_eq!(e.dimensions(), 8);
    assert_eq!(e.model_name(), "mock-embedding");
    let a = e.raw_components("hello world");
    let b = e.raw_components("hello world");
    let c = e.raw_components("other text");
    assert_eq!(a.len(), 8);
    assert_eq!(a, b);
    assert_ne!(a, c);
}

#[test]
fn config_defaults() {
    let i = IndexingConfig::default();
    assert_eq!(i.threads, 0);
    assert_eq!(i.include_patterns, vec!["**/*.md".to_string(), "**/*.markdown".to_string()]);
    assert_eq!(i.max_file_size, 10 * 1024 * 1024);
    assert!(i.respect_gitignore);
    assert!(!i.follow_symlinks);
    let c = ChunkingConfig::default();
    assert_eq!(c.target_size, 512);
    assert_eq!(c.overlap, 50);
    let s = StorageConfig::default();
    assert_eq!(s.index_path, ".mdsearch");
    assert_eq!(s.cache_size, 256 * 1024 * 1024);
}

#[test]
fn run_config_from_command_line() {
    let c = IndexingConfig::for_run(Some(4), "*.md, docs/**", Some(" a ,b"), false);
    assert_eq!(c.threads, 4);
    assert_eq!(c.include_patterns, vec!["*.md".to_string(), "docs/**".to_string()]);
    assert_eq!(c.exclude_patterns, vec!["a".to_string(), "b".to_string()]);
    assert!(!c.respect_gitignore);
    let d = IndexingConfig::for_run(None, "", None, true);
    assert_eq!(d.threads, 0);
    assert_eq!(d.include_patterns, vec!["".to_string()]);
    assert_eq!(
        d.exclude_patterns,
        vec!["**/node_modules/**".to_string(), "**/.git/**".to_string()]
    );
}

#[test]
fn patterns_are_trimmed_of_unicode_white_space() {
    assert_eq!(
        split_patterns("\u{3000}a\u{a0},\tb ,"),
        vec!["a".to_string(), "b".to_string(), "".to_string()]
    );
}

#[test]
fn model_dimensions_follow_the_model() {
    assert_eq!(LocalModelConfig::new("BAAI/bge-base-en-v1.5".to_string()).dimensions, 768);
    assert_eq!(LocalModelConfig::new(DEFAULT_MODEL.to_string()).dimensions, 384);
    assert_eq!(dimensions_of("sentence-transformers/bge-base-en"), 768);
    assert_eq!(dimensions_of("other/model"), 384);
    let c = EmbeddingConfig::for_embed("local", Some("bge-base".to_string()), None, None).unwrap();
    assert_eq!(c.local_model_config().dimensions, 768);
    assert!(LocalModelConfig::new("m".to_string()).cache_dir.ends_with("mdsearch"));
}

#[test]
fn cache_directory_under_a_base() {
    let r = cache_dir_under(Some("/home/u/.cache".to_string()));
    assert!(r.starts_with("/home/u/.cache"));
    assert!(r.ends_with("mdsearch"));
    assert!(r == "/home/u/.cache/mdsearch" || r == "/home/u/.cache\\mdsearch");
    let d = cache_dir_under(None);
    assert!(d.starts_with("."));
    assert!(d.ends_with("mdsearch"));
    assert!(d == "./mdsearch" || d == ".\\mdsearch");
}

#[test]
fn test_cache_dir_under_separator_only_where_needed() {
    assert_eq!(cache_dir_under(Some(String::new())), "mdsearch");
    assert_eq!(
        cache_dir_under(Some("/home/u/.cache/".to_string())),
        "/home/u/.cache/mdsearch"
    );
}
