//! Configuration of local embedding models.
use crate::text::str_eq;
use vstd::prelude::*;

verus! {

/// Default embedding model (small and fast).
pub const DEFAULT_MODEL: &'static str = "sentence-transformers/all-MiniLM-L6-v2";

/// Model configuration.
#[derive(Debug, Clone)]
pub struct LocalModelConfig {
    /// HuggingFace model ID.
    pub model_id: String,
    /// Cache directory for downloaded models.
    pub cache_dir: String,
    /// Number of dimensions (model-specific).
    pub dimensions: usize,
}

/// `dirs::cache_dir`, the platform's user cache directory, as a string
/// (non-UTF-8 parts replaced). It depends on the environment; nothing is
/// stated of it.
#[verifier::external_body]
fn user_cache_dir() -> (r: Option<String>) {
    dirs::cache_dir().map(|p| p.to_string_lossy().into_owned())
}

/// A path component that no platform reads as a separator, a drive or a
/// root: non-empty, without `/`, `\\` or `:`.
pub open spec fn plain_component(part: Seq<char>) -> bool {
    part.len() > 0 && !part.contains('/') && !part.contains('\\') && !part.contains(':')
}

/// `s` ends with `b`.
pub open spec fn ends_with(s: Seq<char>, b: Seq<char>) -> bool {
    &&& s.len() >= b.len()
    &&& s.subrange(s.len() - b.len(), s.len() as int) == b
}

/// `s` is `base`, then nothing or one separator (`/` or `\\`), then `part`.
pub open spec fn joined(s: Seq<char>, base: Seq<char>, part: Seq<char>) -> bool {
    ||| s == base + part
    ||| s == base + seq!['/'] + part
    ||| s == base + seq!['\\'] + part
}

/// `s` is `base` and `part` with a separator between them where one is
/// needed: none after an empty base or one that ends in `/`, at most a `/`
/// after one that ends in `\\` (a separator on Windows only), and else a
/// `/` or a `\\`.
pub open spec fn joined_with_separator(s: Seq<char>, base: Seq<char>, part: Seq<char>) -> bool {
    if base.len() == 0 {
        s == part
    } else if base.last() == '/' {
        s == base + part
    } else if base.last() == '\\' {
        s == base + part || s == base + seq!['/'] + part
    } else {
        s == base + seq!['/'] + part || s == base + seq!['\\'] + part
    }
}

/// `Path::join` of `part` onto `base`, as a string. Joining a plain
/// component puts it last: the result ends with `part`. A base without
/// `?` (so without a Windows verbatim prefix `\\?\`, under which the
/// joined path is normalised) is kept as it is and followed by `part`, with
/// the platform's separator between them unless none is needed (`base`
/// empty, ending in a separator, or a bare drive such as `C:`); when the
/// base holds no `:` either, `joined_with_separator` says where the
/// separator stands. Which of `/` and `\\` it is follows the platform and
/// is not stated.
#[verifier::external_body]
fn join_path(base: &str, part: &str) -> (r: String)
    ensures
        plain_component(part@) ==> ends_with(r@, part@),
        plain_component(part@) && !base@.contains('?') ==> joined(r@, base@, part@),
        plain_component(part@) && !base@.contains('?') && !base@.contains(':')
            ==> joined_with_separator(r@, base@, part@),
{
    std::path::Path::new(base).join(part).to_string_lossy().into_owned()
}

/// The directory `mdsearch` under `base`, or under `.` when there is no
/// base: it ends with `mdsearch`; when the base holds no `?` it is the
/// base, at most one separator, and `mdsearch`; and when it holds no `:`
/// either, the separator stands exactly where `joined_with_separator` puts
/// it.
pub fn cache_dir_under(base: Option<String>) -> (r: String)
    ensures
        ends_with(r@, "mdsearch"@),
        !(match base {
            Some(b) => b@,
            None => "."@,
        }).contains('?') && !(match base {
            Some(b) => b@,
            None => "."@,
        }).contains(':') ==> joined_with_separator(
            r@,
            match base {
                Some(b) => b@,
                None => "."@,
            },
            "mdsearch"@,
        ),
        !(match base {
            Some(b) => b@,
            None => "."@,
        }).contains('?') ==> joined(
            r@,
            match base {
                Some(b) => b@,
                None => "."@,
            },
            "mdsearch"@,
        ),
{
    let base = match base {
        Some(d) => d,
        None => ".".to_owned(),
    };
    proof {
        reveal_strlit("mdsearch");
    }
    join_path(base.as_str(), "mdsearch")
}

/// Default cache directory: `mdsearch` under the user cache directory, or
/// under `.` when there is none.
pub fn default_cache_dir() -> (r: String)
    ensures
        r@.len() >= 8,
        r@.subrange(r@.len() - 8, r@.len() as int) == "mdsearch"@,
{
    proof {
        reveal_strlit("mdsearch");
    }
    cache_dir_under(user_cache_dir())
}

impl Default for LocalModelConfig {
    fn default() -> (c: Self)
        ensures
            c.model_id@ == DEFAULT_MODEL@,
            c.dimensions == 384,
            c.cache_dir@.len() >= 8,
            c.cache_dir@.subrange(c.cache_dir@.len() - 8, c.cache_dir@.len() as int) == "mdsearch"@,
    {
        LocalModelConfig {
            model_id: DEFAULT_MODEL.to_owned(),
            cache_dir: default_cache_dir(),
            dimensions: 384,
        }
    }
}

impl LocalModelConfig {
    /// Create config with custom model, in the default cache directory and
    /// with the dimensions of that model.
    pub fn new(model_id: String) -> (c: Self)
        ensures
            c.model_id == model_id,
            c.dimensions == model_dimensions(model_id@),
            c.cache_dir@.len() >= 8,
            c.cache_dir@.subrange(c.cache_dir@.len() - 8, c.cache_dir@.len() as int) == "mdsearch"@,
    {
        let d = LocalModelConfig::default();
        let dimensions = dimensions_of(model_id.as_str());
        LocalModelConfig { model_id, cache_dir: d.cache_dir, dimensions }
    }

    /// Set custom cache directory.
    pub fn with_cache_dir(self, path: String) -> (c: Self)
        ensures
            c.model_id == self.model_id,
            c.cache_dir == path,
            c.dimensions == self.dimensions,
    {
        LocalModelConfig { model_id: self.model_id, cache_dir: path, dimensions: self.dimensions }
    }
}

/// Number of dimensions of a model's vectors: 768 for the base-size BGE
/// models of the list of available models, 384 for the others.
pub open spec fn model_dimensions(model_id: Seq<char>) -> usize {
    if model_id == "sentence-transformers/bge-base-en"@ || model_id == "BAAI/bge-base-en-v1.5"@ {
        768
    } else {
        384
    }
}

/// Number of dimensions of a model's vectors.
pub fn dimensions_of(model_id: &str) -> (d: usize)
    ensures
        d == model_dimensions(model_id@),
{
    if str_eq(model_id, "sentence-transformers/bge-base-en") || str_eq(model_id, "BAAI/bge-base-en-v1.5") {
        768
    } else {
        384
    }
}

/// The HuggingFace model ID that a short model name stands for; other
/// strings are taken as IDs already.
pub open spec fn model_id_for(s: Seq<char>) -> Seq<char> {
    if s == "minilm"@ || s == "all-minilm"@ || s == "default"@ {
        DEFAULT_MODEL@
    } else if s == "minilm-l12"@ {
        "sentence-transformers/all-MiniLM-L12-v2"@
    } else if s == "bge-small"@ {
        "BAAI/bge-small-en-v1.5"@
    } else if s == "bge-base"@ {
        "BAAI/bge-base-en-v1.5"@
    } else {
        s
    }
}

/// Parse model string (short name or full HuggingFace ID).
pub fn parse_model_string(s: &str) -> (r: String)
    ensures
        r@ == model_id_for(s@),
{
    if str_eq(s, "minilm") || str_eq(s, "all-minilm") || str_eq(s, "default") {
        DEFAULT_MODEL.to_owned()
    } else if str_eq(s, "minilm-l12") {
        "sentence-transformers/all-MiniLM-L12-v2".to_owned()
    } else if str_eq(s, "bge-small") {
        "BAAI/bge-small-en-v1.5".to_owned()
    } else if str_eq(s, "bge-base") {
        "BAAI/bge-base-en-v1.5".to_owned()
    } else {
        s.to_owned()
    }
}

} // verus!
