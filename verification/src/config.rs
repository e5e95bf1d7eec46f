//! Configuration for mdsearch.
use crate::text::{first_index, lemma_first_index_bound, lemma_first_index_exact, sub_chars, chars_to_string, to_chars, trim, trim_exec};
use vstd::prelude::*;

verus! {

/// Indexing settings.
#[derive(Debug, Clone)]
pub struct IndexingConfig {
    /// Number of parallel threads (0 = auto).
    pub threads: usize,
    /// File patterns to include.
    pub include_patterns: Vec<String>,
    /// File patterns to exclude.
    pub exclude_patterns: Vec<String>,
    /// Respect .gitignore files.
    pub respect_gitignore: bool,
    /// Maximum file size in bytes (0 = unlimited).
    pub max_file_size: u64,
    /// Follow symlinks.
    pub follow_symlinks: bool,
}

/// The characters of each string of a list.
pub open spec fn strings_view(v: Seq<String>) -> Seq<Seq<char>> {
    v.map_values(|s: String| s@)
}

impl Default for IndexingConfig {
    fn default() -> (c: Self)
        ensures
            c.threads == 0,
            strings_view(c.include_patterns@) == seq!["**/*.md"@, "**/*.markdown"@],
            strings_view(c.exclude_patterns@) == seq!["**/node_modules/**"@, "**/.git/**"@],
            c.respect_gitignore,
            c.max_file_size == 10 * 1024 * 1024,
            !c.follow_symlinks,
    {
        let include_patterns: Vec<String> = vec!["**/*.md".to_owned(), "**/*.markdown".to_owned()];
        let exclude_patterns: Vec<String> = vec![
            "**/node_modules/**".to_owned(),
            "**/.git/**".to_owned(),
        ];
        proof {
            assert(strings_view(include_patterns@) =~= seq!["**/*.md"@, "**/*.markdown"@]);
            assert(strings_view(exclude_patterns@) =~= seq!["**/node_modules/**"@, "**/.git/**"@]);
        }
        IndexingConfig {
            threads: 0,
            include_patterns,
            exclude_patterns,
            respect_gitignore: true,
            max_file_size: 10 * 1024 * 1024,
            follow_symlinks: false,
        }
    }
}

/// Chunking settings for RAG.
#[derive(Debug, Clone, Copy)]
pub struct ChunkingConfig {
    /// Target chunk size in characters.
    pub target_size: usize,
    /// Overlap between chunks.
    pub overlap: usize,
    /// Respect markdown structure (don't split mid-section).
    pub respect_structure: bool,
    /// Include code blocks in chunks.
    pub include_code_blocks: bool,
    /// Include frontmatter metadata.
    pub include_frontmatter: bool,
}

impl Default for ChunkingConfig {
    fn default() -> (c: Self)
        ensures
            c.target_size == 512,
            c.overlap == 50,
            c.respect_structure,
            c.include_code_blocks,
            c.include_frontmatter,
    {
        ChunkingConfig {
            target_size: 512,
            overlap: 50,
            respect_structure: true,
            include_code_blocks: true,
            include_frontmatter: true,
        }
    }
}

/// Storage settings.
#[derive(Debug, Clone)]
pub struct StorageConfig {
    /// Path to index database.
    pub index_path: String,
    /// Enable compression.
    pub compress: bool,
    /// Cache size in bytes.
    pub cache_size: usize,
}

impl Default for StorageConfig {
    fn default() -> (c: Self)
        ensures
            c.index_path@ == ".mdsearch"@,
            c.compress,
            c.cache_size == 256 * 1024 * 1024,
    {
        StorageConfig {
            index_path: ".mdsearch".to_owned(),
            compress: true,
            cache_size: 256 * 1024 * 1024,
        }
    }
}

/// `s.split(c)`: the pieces between the occurrences of `c`, empty ones
/// included (one empty piece for an empty `s`).
pub open spec fn split_at(s: Seq<char>, c: char) -> Seq<Seq<char>>
    decreases s.len(),
{
    let k = first_index(s, c);
    proof {
        lemma_first_index_bound(s, c);
    }
    if k >= s.len() {
        seq![s]
    } else {
        seq![s.subrange(0, k)] + split_at(s.subrange(k + 1, s.len() as int), c)
    }
}

/// A comma-separated list of patterns, each trimmed of white space.
pub open spec fn patterns_of(list: Seq<char>) -> Seq<Seq<char>> {
    split_at(list, ',').map_values(|p: Seq<char>| trim(p))
}

/// The pieces of `v` between the occurrences of `c`.
fn split_at_exec(v: &[char], c: char) -> (r: Vec<Vec<char>>)
    ensures
        r@.map_values(|l: Vec<char>| l@) == split_at(v@, c),
{
    let mut r: Vec<Vec<char>> = Vec::new();
    let mut start: usize = 0;
    proof {
        assert(v@.subrange(0, v@.len() as int) =~= v@);
        assert(r@.map_values(|l: Vec<char>| l@) + split_at(v@, c) =~= split_at(v@, c));
    }
    loop
        invariant
            start <= v@.len(),
            r@.map_values(|l: Vec<char>| l@) + split_at(v@.subrange(start as int, v@.len() as int), c)
                == split_at(v@, c),
        decreases v@.len() - start,
    {
        let ghost rest = v@.subrange(start as int, v@.len() as int);
        let ghost old_r = r@.map_values(|l: Vec<char>| l@);
        let mut k: usize = start;
        while k < v.len() && v[k] != c
            invariant
                start <= k <= v@.len(),
                forall|i: int| start <= i < k ==> #[trigger] v@[i] != c,
            decreases v@.len() - k,
        {
            k = k + 1;
        }
        proof {
            assert forall|i: int| 0 <= i < k - start implies #[trigger] rest[i] != c by {
                assert(rest[i] == v@[start + i]);
            }
            lemma_first_index_exact(rest, c, k - start);
        }
        let piece = sub_chars(v, start, k);
        r.push(piece);
        proof {
            assert(r@.map_values(|l: Vec<char>| l@) =~= old_r.push(piece@));
        }
        if k >= v.len() {
            proof {
                assert(piece@ =~= rest);
                assert(old_r.push(rest) =~= old_r + seq![rest]);
            }
            return r;
        }
        proof {
            assert(rest.subrange(0, k - start) =~= piece@);
            assert(rest.subrange(k - start + 1, rest.len() as int) =~= v@.subrange(
                k + 1,
                v@.len() as int,
            ));
            assert(old_r.push(piece@) + split_at(v@.subrange(k + 1, v@.len() as int), c) =~= old_r
                + split_at(rest, c));
        }
        start = k + 1;
    }
}

/// Splits a comma-separated list of patterns and trims each one.
pub fn split_patterns(list: &str) -> (r: Vec<String>)
    ensures
        strings_view(r@) == patterns_of(list@),
{
    let chars = to_chars(list);
    let pieces = split_at_exec(&chars, ',');
    let ghost pv = pieces@.map_values(|l: Vec<char>| l@);
    let mut r: Vec<String> = Vec::new();
    let mut i: usize = 0;
    while i < pieces.len()
        invariant
            i <= pieces@.len(),
            pv == pieces@.map_values(|l: Vec<char>| l@),
            pv == split_at(list@, ','),
            strings_view(r@) == pv.take(i as int).map_values(|p: Seq<char>| trim(p)),
        decreases pieces@.len() - i,
    {
        let t = trim_exec(&pieces[i]);
        let s = chars_to_string(&t);
        let ghost old_r = strings_view(r@);
        r.push(s);
        proof {
            assert(strings_view(r@) =~= old_r.push(s@));
            assert(pv.take(i + 1).map_values(|p: Seq<char>| trim(p)) =~= pv.take(i as int).map_values(
                |p: Seq<char>| trim(p),
            ).push(trim(pv[i as int])));
        }
        i = i + 1;
    }
    proof {
        assert(pv.take(i as int) =~= pv);
    }
    r
}

impl IndexingConfig {
    /// The settings of an `index` run: the defaults, with the thread count,
    /// the lists of patterns to take and to skip and the `.gitignore` switch taken from
    /// the command line.
    pub fn for_run(threads: Option<usize>, included: &str, excluded: Option<&str>, gitignore: bool) -> (c: Self)
        ensures
            c.threads == (match threads {
                Some(t) => t,
                None => 0,
            }),
            strings_view(c.include_patterns@) == patterns_of(included@),
            strings_view(c.exclude_patterns@) == (match excluded {
                Some(e) => patterns_of(e@),
                None => seq!["**/node_modules/**"@, "**/.git/**"@],
            }),
            c.respect_gitignore == gitignore,
            c.max_file_size == 10 * 1024 * 1024,
            !c.follow_symlinks,
    {
        let mut config = IndexingConfig::default();
        match threads {
            Some(t) => {
                config.threads = t;
            },
            None => {},
        }
        config.include_patterns = split_patterns(included);
        match excluded {
            Some(e) => {
                config.exclude_patterns = split_patterns(e);
            },
            None => {},
        }
        config.respect_gitignore = gitignore;
        config
    }
}

} // verus!
