//! mdsearch: markdown parsing, RAG chunking and keyword indexing.
pub mod chunk;
pub mod config;
pub mod embeddings;
pub mod error;
pub mod index;
pub mod local_embeddings;
pub mod parser;
pub mod search;
pub mod store;
pub mod text;
