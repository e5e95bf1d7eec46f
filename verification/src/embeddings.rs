//! Embedding configuration and the integer part of the mock embedder.
use crate::error::Error;
use crate::local_embeddings::{model_dimensions, model_id_for, parse_model_string, LocalModelConfig};
use crate::parser::{content_hash, opt_view};
use crate::text::{append_chars, chars_to_string, str_eq, to_chars};
use vstd::prelude::*;

verus! {

/// Embedding providers.
#[derive(Debug, Clone, Copy, PartialEq, Eq, Structural)]
pub enum EmbeddingProvider {
    /// OpenAI embeddings API.
    OpenAI,
    /// Local model via candle.
    Local,
    /// Mock provider for testing.
    Mock,
}

/// Embedding configuration.
#[derive(Debug, Clone)]
pub struct EmbeddingConfig {
    /// Provider type.
    pub provider: EmbeddingProvider,
    /// Model name/identifier.
    pub model: String,
    /// Vector dimensions.
    pub dimensions: usize,
    /// Local model path (optional, for bundled models).
    pub model_path: Option<String>,
    /// Cache directory for downloaded models.
    pub cache_dir: Option<String>,
}

impl Default for EmbeddingConfig {
    fn default() -> (c: Self)
        ensures
            c.provider == EmbeddingProvider::Local,
            c.model@ == "default"@,
            c.dimensions == 384,
            c.model_path is None,
            c.cache_dir is None,
    {
        EmbeddingConfig {
            provider: EmbeddingProvider::Local,
            model: "default".to_owned(),
            dimensions: 384,
            model_path: None,
            cache_dir: None,
        }
    }
}

/// The provider that the `embed` command names (`local`, `openai`, `mock`).
pub open spec fn provider_named(s: Seq<char>) -> Option<EmbeddingProvider> {
    if s == "openai"@ {
        Some(EmbeddingProvider::OpenAI)
    } else if s == "local"@ {
        Some(EmbeddingProvider::Local)
    } else if s == "mock"@ {
        Some(EmbeddingProvider::Mock)
    } else {
        None
    }
}

impl EmbeddingProvider {
    /// The provider that the `embed` command names; `None` for an unknown
    /// name.
    pub fn from_name(s: &str) -> (r: Option<EmbeddingProvider>)
        ensures
            r == provider_named(s@),
    {
        if str_eq(s, "openai") {
            Some(EmbeddingProvider::OpenAI)
        } else if str_eq(s, "local") {
            Some(EmbeddingProvider::Local)
        } else if str_eq(s, "mock") {
            Some(EmbeddingProvider::Mock)
        } else {
            None
        }
    }

    /// The provider that semantic search uses: OpenAI for `openai`, the
    /// local model for `local` (the default name), the mock provider for any
    /// other name.
    pub fn for_semantic_search(s: &str) -> (r: EmbeddingProvider)
        ensures
            r == (if s@ == "openai"@ {
                EmbeddingProvider::OpenAI
            } else if s@ == "local"@ {
                EmbeddingProvider::Local
            } else {
                EmbeddingProvider::Mock
            }),
    {
        if str_eq(s, "openai") {
            EmbeddingProvider::OpenAI
        } else if str_eq(s, "local") {
            EmbeddingProvider::Local
        } else {
            EmbeddingProvider::Mock
        }
    }
}

/// Mock embedder for testing (deterministic hash-based vectors).
#[derive(Debug, Clone, Copy)]
pub struct MockEmbedder {
    dimensions: usize,
}

/// The generator state after `k` steps from `seed`
/// (`state * 6364136223846793005 + 1`, wrapping).
pub open spec fn lcg_state(seed: u64, k: nat) -> u64
    decreases k,
{
    if k == 0 {
        seed
    } else {
        vstd::wrapping::u64_specs::wrapping_add(
            vstd::wrapping::u64_specs::wrapping_mul(lcg_state(seed, (k - 1) as nat), 6364136223846793005),
            1,
        )
    }
}

/// Component `i` of the mock embedding before scaling: the high 32 bits of
/// the state after `i + 1` steps, read as an `i32`.
pub open spec fn mock_component(seed: u64, i: nat) -> i32 {
    (lcg_state(seed, i + 1) >> 32u64) as i32
}

impl MockEmbedder {
    /// A mock embedder with vectors of `dimensions` components.
    pub fn new(dimensions: usize) -> (e: Self)
        ensures
            e.dimensions() == dimensions,
    {
        MockEmbedder { dimensions }
    }

    /// Number of components of its vectors.
    pub closed spec fn spec_dimensions(&self) -> usize {
        self.dimensions
    }

    /// Number of components of its vectors.
    #[verifier::when_used_as_spec(spec_dimensions)]
    pub fn dimensions(&self) -> (d: usize)
        ensures
            d == self.spec_dimensions(),
    {
        self.dimensions
    }

    /// Model name.
    pub fn model_name(&self) -> (r: &'static str)
        ensures
            r@ == "mock-embedding"@,
    {
        "mock-embedding"
    }

    /// The integer components of the embedding of `text`: the generator is
    /// seeded with the `DefaultHasher` hash of the text; each component is
    /// then scaled by `i32::MAX` and the vector normalized to unit length.
    pub fn raw_components(&self, text: &str) -> (r: Vec<i32>)
        ensures
            r@.len() == self.spec_dimensions(),
            forall|i: int|
                0 <= i < r@.len() ==> #[trigger] r@[i] == mock_component(content_hash(text@), i as nat),
    {
        let seed = crate::parser::Parser::new().hash_content(text);
        let mut state: u64 = seed;
        let mut out: Vec<i32> = Vec::new();
        let mut i: usize = 0;
        while i < self.dimensions
            invariant
                i <= self.dimensions,
                out@.len() == i,
                state == lcg_state(seed, i as nat),
                seed == content_hash(text@),
                forall|k: int| 0 <= k < i ==> #[trigger] out@[k] == mock_component(seed, k as nat),
            decreases self.dimensions - i,
        {
            state = state.wrapping_mul(6364136223846793005).wrapping_add(1);
            let v: i32 = (state >> 32u64) as i32;
            out.push(v);
            i = i + 1;
        }
        out
    }
}

/// The message of the error for a provider name that the `embed` command
/// does not know.
pub open spec fn unknown_provider_message(name: Seq<char>) -> Seq<char> {
    "Unknown provider '"@ + name + "'. Use: local, openai, mock"@
}

impl EmbeddingConfig {
    /// The configuration of an `embed` run: the provider by its name, the
    /// model (`default` when none is given), 384 dimensions, and the model
    /// and cache directories as given. An unknown provider name is refused.
    pub fn for_embed(
        provider: &str,
        model: Option<String>,
        model_path: Option<String>,
        cache_dir: Option<String>,
    ) -> (r: Result<EmbeddingConfig, Error>)
        ensures
            provider_named(provider@) is None <==> r is Err,
            r matches Err(e) ==> e matches Error::Search(m) && m@ == unknown_provider_message(provider@),
            r matches Ok(c) ==> {
                &&& Some(c.provider) == provider_named(provider@)
                &&& c.model@ == (match model {
                    Some(m) => m@,
                    None => "default"@,
                })
                &&& c.dimensions == 384
                &&& opt_view(c.model_path) == opt_view(model_path)
                &&& opt_view(c.cache_dir) == opt_view(cache_dir)
            },
    {
        match EmbeddingProvider::from_name(provider) {
            Some(p) => {
                let model = match model {
                    Some(m) => m,
                    None => "default".to_owned(),
                };
                Ok(EmbeddingConfig { provider: p, model, dimensions: 384, model_path, cache_dir })
            },
            None => {
                let mut msg = to_chars("Unknown provider '");
                let name = to_chars(provider);
                append_chars(&mut msg, &name);
                let tail = to_chars("'. Use: local, openai, mock");
                append_chars(&mut msg, &tail);
                Err(Error::Search(chars_to_string(&msg)))
            },
        }
    }

    /// The local model settings this configuration asks for: the model ID
    /// its model name stands for, and as cache directory the model path if
    /// one is given, else the cache directory if one is given, else the
    /// default one.
    pub fn local_model_config(&self) -> (c: LocalModelConfig)
        ensures
            c.model_id@ == model_id_for(self.model@),
            c.dimensions == model_dimensions(model_id_for(self.model@)),
            self.model_path matches Some(p) ==> c.cache_dir@ == p@,
            self.model_path is None ==> (self.cache_dir matches Some(d) ==> c.cache_dir@ == d@),
            self.model_path is None && self.cache_dir is None ==> c.cache_dir@.len() >= 8
                && c.cache_dir@.subrange(c.cache_dir@.len() - 8, c.cache_dir@.len() as int)
                == "mdsearch"@,
    {
        let model_id = parse_model_string(self.model.as_str());
        match &self.model_path {
            Some(p) => LocalModelConfig::new(model_id).with_cache_dir(p.clone()),
            None => match &self.cache_dir {
                Some(d) => LocalModelConfig::new(model_id).with_cache_dir(d.clone()),
                None => LocalModelConfig::new(model_id),
            },
        }
    }
}

/// The batches of an `embed` run over `n` chunks, `size` at a time, as
/// ranges of positions (`slice::chunks`, which refuses a size of 0).
pub fn batch_ranges(n: usize, size: usize) -> (r: Vec<(usize, usize)>)
    requires
        size > 0,
    ensures
        r@.len() == (n + size - 1) / (size as int),
        forall|i: int|
            0 <= i < r@.len() ==> #[trigger] r@[i] == (
                (i * size) as usize,
                if (i + 1) * size <= n {
                    ((i + 1) * size) as usize
                } else {
                    n
                },
            ),
{
    let mut r: Vec<(usize, usize)> = Vec::new();
    let mut start: usize = 0;
    proof {
        assert(r@.len() * size == 0) by (nonlinear_arith)
            requires
                r@.len() == 0,
        ;
    }
    while start < n
        invariant
            size > 0,
            start <= n,
            start == (if r@.len() * size <= n {
                r@.len() * size
            } else {
                n as int
            }),
            r@.len() == 0 || (r@.len() - 1) * size < n,
            forall|i: int|
                0 <= i < r@.len() ==> #[trigger] r@[i] == (
                    (i * size) as usize,
                    if (i + 1) * size <= n {
                        ((i + 1) * size) as usize
                    } else {
                        n
                    },
                ),
        decreases n - start,
    {
        let ghost k = r@.len() as int;
        proof {
            assert(k * size + size == (k + 1) * size) by (nonlinear_arith);
            assert(start == k * size);
        }
        let end: usize = if n - start > size {
            start + size
        } else {
            n
        };
        r.push((start, end));
        start = end;
    }
    proof {
        let k = r@.len() as int;
        let sz = size as int;
        let m = n as int;
        assert(k * sz >= m);
        assert((m + sz - 1) / sz == k) by (nonlinear_arith)
            requires
                sz > 0,
                k == 0 || (k - 1) * sz < m,
                m <= k * sz,
                m >= 0,
        ;
    }
    r
}

} // verus!
