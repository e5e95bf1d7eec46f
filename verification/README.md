# mdsearch

Markdown search and RAG indexing, with its core logic verified by Verus.

- `src/` is the verified library: the markdown parser (frontmatter, sections,
  code blocks, links, text), the RAG chunker, term extraction and postings,
  query terms and match highlights, and the store's record-keeping. Each
  public function states its result over a model of the text as `Seq<char>`;
  the laws of the library (splitting loses nothing, sentence boundaries,
  sections never crossed, unique frontmatter keys, consistent postings,
  ordered highlights, highlighting only adds markers) are proof functions
  named `law_*`.
- `tests/` runs the library on concrete inputs.
- `app/` is the command-line program: argument parsing, files, the RocksDB
  store, embeddings (floating point and HTTP), scoring and printing.
