//! Indexing logic: terms of a document, postings, and what gets reindexed.
use crate::chunk::{chunks_view, document_chunks, Chunk, ChunkView, Chunker};
use crate::config::IndexingConfig;
use crate::local_embeddings::plain_component;
use crate::parser::{opt_view, Document, DocumentView};
use crate::store::{doc_ids_view, freq_sum, PostingView, TermPosting};
use crate::text::{
    has_at, append_chars, byte_len, chars_to_string, decimal, is_alphanumeric, is_alphanumeric_char,
    lowercase, lowercase_chars, push_decimal, str_byte_len, str_eq, sub_chars, to_chars,
    trim, trim_exec,
};
use vstd::prelude::*;

verus! {

// ---------------------------------------------------------------------
// Stop words
// ---------------------------------------------------------------------

/// Common words that are not indexed.
pub open spec fn stop_words() -> Seq<Seq<char>> {
    seq![
        "the"@, "a"@, "an"@, "and"@, "or"@, "but"@, "in"@, "on"@, "at"@, "to"@, "for"@, "of"@,
        "with"@, "by"@, "from"@, "as"@, "is"@, "was"@, "are"@, "were"@, "been"@, "be"@, "have"@,
        "has"@, "had"@, "do"@, "does"@, "did"@, "will"@, "would"@, "could"@, "should"@, "may"@,
        "might"@, "must"@, "can"@, "this"@, "that"@, "these"@, "those"@, "it"@, "its"@, "i"@,
        "you"@, "we"@, "they"@, "he"@, "she"@, "what"@, "which"@, "who"@, "when"@, "where"@,
        "why"@, "how"@, "all"@, "each"@, "every"@, "both"@, "few"@, "more"@, "most"@, "other"@,
        "some"@, "such"@, "no"@, "not"@, "only"@, "own"@, "same"@, "so"@, "than"@, "too"@,
        "very"@, "just"@, "also"@, "now"@, "here"@, "there"@, "then"@, "if"@,
    ]
}

/// The stop words as string slices.
fn stop_word_list() -> (r: Vec<&'static str>)
    ensures
        r@.map_values(|w: &str| w@) == stop_words(),
{
    let r: Vec<&'static str> = vec![
        "the", "a", "an", "and", "or", "but", "in", "on", "at", "to", "for", "of", "with", "by",
        "from", "as", "is", "was", "are", "were", "been", "be", "have", "has", "had", "do", "does",
        "did", "will", "would", "could", "should", "may", "might", "must", "can", "this", "that",
        "these", "those", "it", "its", "i", "you", "we", "they", "he", "she", "what", "which",
        "who", "when", "where", "why", "how", "all", "each", "every", "both", "few", "more",
        "most", "other", "some", "such", "no", "not", "only", "own", "same", "so", "than", "too",
        "very", "just", "also", "now", "here", "there", "then", "if",
    ];
    proof {
        assert(r@.map_values(|w: &str| w@) =~= stop_words());
    }
    r
}

/// Check if word is a common stop word.
pub fn is_stop_word(word: &str) -> (b: bool)
    ensures
        b == stop_words().contains(word@),
{
    let list = stop_word_list();
    let ghost sw = stop_words();
    let mut i: usize = 0;
    while i < list.len()
        invariant
            i <= list@.len(),
            sw == stop_words(),
            list@.map_values(|w: &str| w@) == sw,
            forall|j: int| 0 <= j < i ==> sw[j] != word@,
        decreases list@.len() - i,
    {
        if str_eq(word, list[i]) {
            proof {
                assert(sw[i as int] == word@);
            }
            return true;
        }
        i = i + 1;
    }
    false
}

// ---------------------------------------------------------------------
// Words and terms
// ---------------------------------------------------------------------

/// Index of the first character of `s` that is not alphanumeric (or
/// `s.len()`).
pub open spec fn first_separator(s: Seq<char>) -> int
    decreases s.len(),
{
    if s.len() == 0 || !is_alphanumeric_char(s[0]) {
        0
    } else {
        1 + first_separator(s.drop_first())
    }
}

pub proof fn lemma_first_separator(s: Seq<char>, k: int)
    requires
        0 <= k <= s.len(),
        forall|i: int| 0 <= i < k ==> is_alphanumeric_char(#[trigger] s[i]),
        k == s.len() || !is_alphanumeric_char(s[k]),
    ensures
        first_separator(s) == k,
    decreases k,
{
    if k > 0 {
        assert forall|i: int| 0 <= i < k - 1 implies is_alphanumeric_char(#[trigger] s.drop_first()[i]) by {
            assert(s.drop_first()[i] == s[i + 1]);
        }
        lemma_first_separator(s.drop_first(), k - 1);
    }
}

pub proof fn lemma_first_separator_bound(s: Seq<char>)
    ensures
        0 <= first_separator(s) <= s.len(),
    decreases s.len(),
{
    if s.len() > 0 && is_alphanumeric_char(s[0]) {
        lemma_first_separator_bound(s.drop_first());
    }
}

/// `s.split(|c| !c.is_alphanumeric())`: the pieces between
/// non-alphanumeric characters, empty ones included.
pub open spec fn words(s: Seq<char>) -> Seq<Seq<char>>
    decreases s.len(),
{
    let k = first_separator(s);
    proof {
        lemma_first_separator_bound(s);
    }
    if k >= s.len() {
        seq![s]
    } else {
        seq![s.subrange(0, k)] + words(s.subrange(k + 1, s.len() as int))
    }
}

/// The pieces of `v` between non-alphanumeric characters.
pub fn split_words(v: &[char]) -> (r: Vec<Vec<char>>)
    ensures
        r@.map_values(|l: Vec<char>| l@) == words(v@),
{
    let mut r: Vec<Vec<char>> = Vec::new();
    let mut start: usize = 0;
    proof {
        assert(v@.subrange(0, v@.len() as int) =~= v@);
        assert(r@.map_values(|l: Vec<char>| l@) + words(v@) =~= words(v@));
    }
    loop
        invariant
            start <= v@.len(),
            r@.map_values(|l: Vec<char>| l@) + words(v@.subrange(start as int, v@.len() as int))
                == words(v@),
        decreases v@.len() - start,
    {
        let ghost rest = v@.subrange(start as int, v@.len() as int);
        let ghost old_r = r@.map_values(|l: Vec<char>| l@);
        let mut k: usize = start;
        while k < v.len() && is_alphanumeric(v[k])
            invariant
                start <= k <= v@.len(),
                forall|i: int| start <= i < k ==> is_alphanumeric_char(#[trigger] v@[i]),
            decreases v@.len() - k,
        {
            k = k + 1;
        }
        proof {
            assert forall|i: int| 0 <= i < k - start implies is_alphanumeric_char(#[trigger] rest[i]) by {
                assert(rest[i] == v@[start + i]);
            }
            lemma_first_separator(rest, k - start);
        }
        let piece = sub_chars(v, start, k);
        r.push(piece);
        proof {
            assert(r@.map_values(|l: Vec<char>| l@) =~= old_r.push(piece@));
        }
        if k >= v.len() {
            proof {
                assert(piece@ =~= rest);
                assert(old_r.push(rest) =~= old_r + seq![rest]);
            }
            return r;
        }
        proof {
            assert(rest.subrange(0, k - start) =~= piece@);
            assert(rest.subrange(k - start + 1, rest.len() as int) =~= v@.subrange(
                k + 1,
                v@.len() as int,
            ));
            assert(old_r.push(piece@) + words(v@.subrange(k + 1, v@.len() as int)) =~= old_r
                + words(rest));
        }
        start = k + 1;
    }
}

/// The term that a word of a document contributes: the lower-cased word
/// when it holds 2 to 50 bytes and is no stop word.
pub open spec fn term_of(word: Seq<char>) -> Option<Seq<char>> {
    if 2 <= byte_len(word) <= 50 && !stop_words().contains(lowercase(word)) {
        Some(lowercase(word))
    } else {
        None
    }
}

/// Position of the entry for `t` in `counts` (or `counts.len()`).
pub open spec fn count_position(counts: Seq<(Seq<char>, int)>, t: Seq<char>) -> int
    decreases counts.len(),
{
    if counts.len() == 0 {
        0
    } else if counts[0].0 == t {
        0
    } else {
        1 + count_position(counts.drop_first(), t)
    }
}

proof fn lemma_count_position_exact(c: Seq<(Seq<char>, int)>, t: Seq<char>, i: int)
    requires
        0 <= i <= c.len(),
        forall|j: int| 0 <= j < i ==> #[trigger] c[j].0 != t,
        i == c.len() || c[i].0 == t,
    ensures
        count_position(c, t) == i,
    decreases i,
{
    if i > 0 {
        assert forall|j: int| 0 <= j < i - 1 implies #[trigger] c.drop_first()[j].0 != t by {
            assert(c.drop_first()[j] == c[j + 1]);
        }
        lemma_count_position_exact(c.drop_first(), t, i - 1);
    }
}

proof fn lemma_count_position(c: Seq<(Seq<char>, int)>, t: Seq<char>)
    ensures
        0 <= count_position(c, t) <= c.len(),
        count_position(c, t) < c.len() ==> c[count_position(c, t)].0 == t,
        forall|j: int| 0 <= j < count_position(c, t) ==> #[trigger] c[j].0 != t,
    decreases c.len(),
{
    if c.len() > 0 && c[0].0 != t {
        lemma_count_position(c.drop_first(), t);
        assert forall|j: int| 0 <= j < count_position(c, t) implies #[trigger] c[j].0 != t by {
            if j > 0 {
                assert(c[j] == c.drop_first()[j - 1]);
            }
        }
    }
}

/// One more occurrence of `t`.
pub open spec fn bump(counts: Seq<(Seq<char>, int)>, t: Seq<char>) -> Seq<(Seq<char>, int)> {
    let i = count_position(counts, t);
    if i < counts.len() {
        counts.update(i, (t, counts[i].1 + 1))
    } else {
        counts.push((t, 1))
    }
}

/// Term counts over the first `n` words, each term listed once, in the
/// order in which it first occurs.
pub open spec fn term_counts(ws: Seq<Seq<char>>, n: int) -> Seq<(Seq<char>, int)>
    decreases n,
{
    if n <= 0 {
        Seq::empty()
    } else {
        let prev = term_counts(ws, n - 1);
        match term_of(ws[n - 1]) {
            Some(t) => bump(prev, t),
            None => prev,
        }
    }
}

/// `Indexer::extract_terms`: each term of the text with its number of
/// occurrences.
pub open spec fn terms_of_text(text: Seq<char>) -> Seq<(Seq<char>, int)> {
    let ws = words(text);
    term_counts(ws, ws.len() as int)
}

/// No term occurs more often than a `u32` counts.
pub open spec fn counts_fit(text: Seq<char>) -> bool {
    forall|j: int| 0 <= j < terms_of_text(text).len() ==> #[trigger] terms_of_text(text)[j].1 <= u32::MAX
}

/// Each count is at most the number of words read so far, and so is the
/// number of entries.
proof fn lemma_term_counts_bound(ws: Seq<Seq<char>>, n: int)
    requires
        0 <= n <= ws.len(),
    ensures
        term_counts(ws, n).len() <= n,
        forall|j: int| 0 <= j < term_counts(ws, n).len() ==> #[trigger] term_counts(ws, n)[j].1 <= n,
    decreases n,
{
    if n > 0 {
        lemma_term_counts_bound(ws, n - 1);
        let prev = term_counts(ws, n - 1);
        match term_of(ws[n - 1]) {
            Some(t) => {
                lemma_count_position(prev, t);
                let next = term_counts(ws, n);
                assert forall|j: int| 0 <= j < next.len() implies #[trigger] next[j].1 <= n by {
                    if j < prev.len() {
                        assert(prev[j].1 <= n - 1);
                    }
                }
            },
            None => {},
        }
    }
}

/// The pairs view of term counts.
pub open spec fn counts_view(v: Seq<(String, u32)>) -> Seq<(Seq<char>, int)> {
    v.map_values(|p: (String, u32)| (p.0@, p.1 as int))
}

/// The pairs view of term counts held in `usize` counters.
pub open spec fn wide_counts_view(v: Seq<(String, usize)>) -> Seq<(Seq<char>, int)> {
    v.map_values(|p: (String, usize)| (p.0@, p.1 as int))
}

/// The term of a word (lower-cased, 2 to 50 bytes, no stop word).
fn term_of_word(word: &[char]) -> (r: Option<String>)
    ensures
        r matches Some(t) ==> term_of(word@) == Some(t@),
        r is None ==> term_of(word@) is None,
{
    let s = chars_to_string(word);
    let n = str_byte_len(s.as_str());
    if n < 2 || n > 50 {
        return None;
    }
    let low = lowercase_chars(word);
    let t = chars_to_string(&low);
    if is_stop_word(t.as_str()) {
        None
    } else {
        Some(t)
    }
}

/// The terms of `text` with their numbers of occurrences, counted in
/// `usize` (a count never exceeds the number of words).
fn count_terms(text: &str) -> (r: Vec<(String, usize)>)
    ensures
        wide_counts_view(r@) == terms_of_text(text@),
{
    let chars = to_chars(text);
    let ws = split_words(&chars);
    let ghost wv = ws@.map_values(|l: Vec<char>| l@);
    let mut counts: Vec<(String, usize)> = Vec::new();
    let mut i: usize = 0;
    proof {
        assert(wide_counts_view(counts@) =~= Seq::<(Seq<char>, int)>::empty());
    }
    while i < ws.len()
        invariant
            i <= ws@.len(),
            wv == ws@.map_values(|l: Vec<char>| l@),
            wv == words(text@),
            wide_counts_view(counts@) == term_counts(wv, i as int),
        decreases ws@.len() - i,
    {
        match term_of_word(&ws[i]) {
            Some(t) => {
                let ghost prev = wide_counts_view(counts@);
                let mut j: usize = 0;
                let mut found: bool = false;
                while j < counts.len() && !found
                    invariant
                        j <= counts@.len(),
                        prev == wide_counts_view(counts@),
                        forall|k: int| 0 <= k < j ==> #[trigger] prev[k].0 != t@,
                        found ==> j < counts@.len() && prev[j as int].0 == t@,
                    decreases counts@.len() - j + (if found {
                        0int
                    } else {
                        1int
                    }),
                {
                    if str_eq(counts[j].0.as_str(), t.as_str()) {
                        found = true;
                    } else {
                        j = j + 1;
                    }
                }
                proof {
                    lemma_count_position_exact(prev, t@, j as int);
                }
                if found {
                    let c = counts[j].1;
                    let key = counts[j].0.clone();
                    proof {
                        lemma_term_counts_bound(wv, i as int);
                        assert(c as int == prev[j as int].1);
                        assert(prev[j as int].1 <= i);
                    }
                    counts.set(j, (key, c + 1));
                } else {
                    counts.push((t, 1));
                }
                proof {
                    assert(wide_counts_view(counts@) =~= bump(prev, t@));
                }
            },
            None => {},
        }
        i = i + 1;
    }
    counts
}

/// `Indexer::extract_terms` over a text, when every count fits the `u32`
/// counter that the index keeps (`None` when one would not).
pub fn try_extract_terms(text: &str) -> (r: Option<Vec<(String, u32)>>)
    ensures
        r is Some <==> counts_fit(text@),
        r matches Some(v) ==> counts_view(v@) == terms_of_text(text@),
{
    let counts = count_terms(text);
    let ghost all = wide_counts_view(counts@);
    let mut out: Vec<(String, u32)> = Vec::new();
    let mut i: usize = 0;
    while i < counts.len()
        invariant
            i <= counts@.len(),
            all == wide_counts_view(counts@),
            all == terms_of_text(text@),
            counts_view(out@) == all.take(i as int),
            forall|j: int| 0 <= j < i ==> #[trigger] all[j].1 <= u32::MAX,
        decreases counts@.len() - i,
    {
        let c = counts[i].1;
        if c > 0xffff_ffffusize {
            proof {
                assert(all[i as int].1 > u32::MAX);
            }
            return None;
        }
        let key = counts[i].0.clone();
        let ghost prev_out = out@;
        out.push((key, c as u32));
        proof {
            assert(key@ == counts@[i as int].0@);
            assert(out@ == prev_out.push((key, c as u32)));
            assert(counts_view(out@) =~= counts_view(prev_out).push((key@, c as int)));
            assert(all.take(i + 1) =~= all.take(i as int).push(all[i as int]));
            assert(counts_view(out@) =~= all.take(i + 1));
        }
        i = i + 1;
    }
    proof {
        assert(all.take(i as int) =~= all);
    }
    Some(out)
}

/// Extract searchable terms from document: each term with its number of
/// occurrences in the document's text.
pub fn extract_terms(doc: &Document) -> (r: Vec<(String, u32)>)
    requires
        counts_fit(doc.text@),
    ensures
        counts_view(r@) == terms_of_text(doc.text@),
{
    match try_extract_terms(doc.text.as_str()) {
        Some(v) => v,
        None => Vec::new(),
    }
}

// ---------------------------------------------------------------------
// Which files are indexed
// ---------------------------------------------------------------------

/// Index of the last `c` in `s`, or -1 when there is none.
pub open spec fn last_index(s: Seq<char>, c: char) -> int
    decreases s.len(),
{
    if s.len() == 0 {
        -1
    } else if s.last() == c {
        s.len() - 1
    } else {
        last_index(s.drop_last(), c)
    }
}

/// The extension of a file name, as `Path::extension` documents it: what
/// follows its last `.`; none when it holds no `.` or when its only `.`
/// starts it.
pub open spec fn extension_of_name(name: Seq<char>) -> Option<Seq<char>> {
    let k = last_index(name, '.');
    if k <= 0 {
        None
    } else {
        Some(name.subrange(k + 1, name.len() as int))
    }
}

/// A path that every platform reads as one file name: a plain component
/// (no `/`, `\\` or `:`) other than `.` and `..`.
pub open spec fn lone_file_name(path: Seq<char>) -> bool {
    plain_component(path) && path != "."@ && path != ".."@
}

/// `path` is the relative directory part `dir`, a `/` and the file name
/// `name`, in a form that every platform reads the same way: `dir` is not
/// empty, starts with no separator and holds no drive mark `:`, and `name`
/// is a lone file name.
pub open spec fn dir_and_name(path: Seq<char>, dir: Seq<char>, name: Seq<char>) -> bool {
    &&& path == dir + seq!['/'] + name
    &&& lone_file_name(name)
    &&& dir.len() > 0
    &&& !dir.contains(':')
    &&& dir[0] != '/'
    &&& dir[0] != '\\'
}

/// `path` is a `/` and then a lone file name: a file at the root.
pub open spec fn rooted_name(path: Seq<char>) -> bool {
    path.len() > 0 && path[0] == '/' && lone_file_name(path.drop_first())
}

/// `path` is a `/` and then what `dir_and_name` reads as the directory part
/// `dir`, a `/` and the file name `name`: an absolute path. A single leading
/// `/` is a root on every platform (only `//` would start a network
/// prefix, and `dir` starts with no separator).
pub open spec fn rooted_dir_and_name(path: Seq<char>, dir: Seq<char>, name: Seq<char>) -> bool {
    path.len() > 0 && path[0] == '/' && dir_and_name(path.drop_first(), dir, name)
}

/// `Path::extension` of `path`, as text. The extension is what follows the
/// last `.` of the file name, a part of `path`: so it holds no `.`, and
/// `path` holds a `.` followed by it. When `path` is a lone file name, or a
/// relative directory part, a `/` and a lone file name, each of these
/// possibly behind a leading `/`, that name is its file name and the
/// extension is `extension_of_name` of it. Which part of another `path` is
/// the file name follows the platform's path syntax and is not stated.
#[verifier::external_body]
fn path_extension(path: &str) -> (r: Option<String>)
    ensures
        r matches Some(e) ==> !e@.contains('.') && exists|i: int| has_at(path@, i, seq!['.'] + e@),
        lone_file_name(path@) ==> opt_view(r) == extension_of_name(path@),
        forall|dir: Seq<char>, name: Seq<char>|
            #[trigger] dir_and_name(path@, dir, name) ==> opt_view(r) == extension_of_name(name),
        rooted_name(path@) ==> opt_view(r) == extension_of_name(path@.drop_first()),
        forall|dir: Seq<char>, name: Seq<char>|
            #[trigger] rooted_dir_and_name(path@, dir, name) ==> opt_view(r) == extension_of_name(
                name,
            ),
{
    match std::path::Path::new(path).extension() {
        Some(e) => Some(e.to_string_lossy().into_owned()),
        None => None,
    }
}

/// An extension names a markdown file when it is `md` or `markdown`.
pub open spec fn markdown_extension(ext: Option<Seq<char>>) -> bool {
    ext == Some("md"@) || ext == Some("markdown"@)
}

/// Whether a file with extension `ext` is a markdown file.
pub fn is_markdown_extension(ext: Option<&str>) -> (b: bool)
    ensures
        b == markdown_extension(match ext {
            Some(e) => Some(e@),
            None => None,
        }),
{
    match ext {
        Some(e) => str_eq(e, "md") || str_eq(e, "markdown"),
        None => false,
    }
}

/// Whether `path` names a markdown file: its extension, as `Path` reads
/// it, is `md` or `markdown`.
pub fn is_markdown_file(path: &str) -> (b: bool)
    ensures
        b ==> exists|i: int| has_at(path@, i, ".md"@) || has_at(path@, i, ".markdown"@),
        lone_file_name(path@) ==> b == markdown_extension(extension_of_name(path@)),
        forall|dir: Seq<char>, name: Seq<char>|
            #[trigger] dir_and_name(path@, dir, name) ==> b == markdown_extension(
                extension_of_name(name),
            ),
        rooted_name(path@) ==> b == markdown_extension(extension_of_name(path@.drop_first())),
        forall|dir: Seq<char>, name: Seq<char>|
            #[trigger] rooted_dir_and_name(path@, dir, name) ==> b == markdown_extension(
                extension_of_name(name),
            ),
{
    match path_extension(path) {
        Some(e) => {
            let b = is_markdown_extension(Some(e.as_str()));
            proof {
                reveal_strlit(".md");
                reveal_strlit(".markdown");
                reveal_strlit("md");
                reveal_strlit("markdown");
                if b {
                    let i = choose|i: int| has_at(path@, i, seq!['.'] + e@);
                    if e@ == "md"@ {
                        assert(seq!['.'] + e@ =~= ".md"@);
                    } else {
                        assert(seq!['.'] + e@ =~= ".markdown"@);
                    }
                    assert(has_at(path@, i, ".md"@) || has_at(path@, i, ".markdown"@));
                }
            }
            b
        },
        None => is_markdown_extension(None),
    }
}

/// A file of `size` bytes is skipped when a limit is set (non-zero) and
/// the file exceeds it.
pub fn is_too_large(config: &IndexingConfig, size: u64) -> (b: bool)
    ensures
        b == (config.max_file_size > 0 && size > config.max_file_size),
{
    config.max_file_size > 0 && size > config.max_file_size
}

// ---------------------------------------------------------------------
// Preparing one file
// ---------------------------------------------------------------------

/// What indexing one file produces: the document, its chunks and its
/// term counts.
#[derive(Debug)]
pub struct PreparedDocument {
    pub document: Document,
    pub chunks: Vec<Chunk>,
    pub terms: Vec<(String, u32)>,
}

/// The chunker the indexer uses.
pub open spec fn index_chunker() -> Chunker {
    Chunker { target_size: 512, overlap: 50, respect_structure: true, include_code: true }
}

/// The steps of `Indexer::index_file_internal` that follow parsing: a
/// document whose content hash equals that of its stored record
/// (`existing_hash`) is skipped; otherwise it is chunked and its terms are
/// counted.
pub fn prepare_document(doc: Document, existing_hash: Option<u64>) -> (r: Option<PreparedDocument>)
    requires
        counts_fit(doc.text@),
    ensures
        r is None <==> existing_hash == Some(doc.hash),
        r matches Some(p) ==> {
            &&& p.document@ == doc@
            &&& chunks_view(p.chunks@) == document_chunks(index_chunker(), doc@)
            &&& counts_view(p.terms@) == terms_of_text(doc.text@)
        },
{
    match existing_hash {
        Some(h) => {
            if h == doc.hash {
                return None;
            }
        },
        None => {},
    }
    let chunker = Chunker::new(512, 50);
    let chunks = match chunker.chunk_document(&doc) {
        Ok(c) => c,
        Err(_) => Vec::new(),
    };
    let terms = extract_terms(&doc);
    Some(PreparedDocument { document: doc, chunks, terms })
}

// ---------------------------------------------------------------------
// Statistics
// ---------------------------------------------------------------------

/// Statistics from an indexing operation.
#[derive(Debug, Clone, Copy)]
pub struct IndexStats {
    pub files_indexed: usize,
    pub chunks_created: usize,
    pub bytes_indexed: u64,
    pub unique_terms: usize,
}

impl Default for IndexStats {
    fn default() -> (s: Self)
        ensures
            s.files_indexed == 0,
            s.chunks_created == 0,
            s.bytes_indexed == 0,
            s.unique_terms == 0,
    {
        IndexStats { files_indexed: 0, chunks_created: 0, bytes_indexed: 0, unique_terms: 0 }
    }
}

impl IndexStats {
    /// One more file was indexed, with `chunks` chunks and a text of
    /// `bytes` bytes.
    pub fn record_file(&mut self, chunks: usize, bytes: u64)
        requires
            old(self).files_indexed < usize::MAX,
            old(self).chunks_created + chunks <= usize::MAX,
            old(self).bytes_indexed + bytes <= u64::MAX,
        ensures
            *final(self) == (IndexStats {
                files_indexed: (old(self).files_indexed + 1) as usize,
                chunks_created: (old(self).chunks_created + chunks) as usize,
                bytes_indexed: (old(self).bytes_indexed + bytes) as u64,
                ..*old(self)
            }),
    {
        self.files_indexed = self.files_indexed + 1;
        self.chunks_created = self.chunks_created + chunks;
        self.bytes_indexed = self.bytes_indexed + bytes;
    }

    /// The number of distinct terms was found to be `n`.
    pub fn set_unique_terms(&mut self, n: usize)
        ensures
            *final(self) == (IndexStats { unique_terms: n, ..*old(self) }),
    {
        self.unique_terms = n;
    }
}

// ---------------------------------------------------------------------
// Term postings
// ---------------------------------------------------------------------

/// The postings as plain values.
pub open spec fn postings_view(v: Seq<TermPosting>) -> Seq<PostingView> {
    v.map_values(|p: TermPosting| p@)
}

/// Position of the posting of `t` in `ps` (or `ps.len()`).
pub open spec fn posting_position(ps: Seq<PostingView>, t: Seq<char>) -> int
    decreases ps.len(),
{
    if ps.len() == 0 {
        0
    } else if ps[0].term == t {
        0
    } else {
        1 + posting_position(ps.drop_first(), t)
    }
}

proof fn lemma_posting_position(ps: Seq<PostingView>, t: Seq<char>)
    ensures
        0 <= posting_position(ps, t) <= ps.len(),
        posting_position(ps, t) < ps.len() ==> ps[posting_position(ps, t)].term == t,
        forall|j: int| 0 <= j < posting_position(ps, t) ==> #[trigger] ps[j].term != t,
    decreases ps.len(),
{
    if ps.len() > 0 && ps[0].term != t {
        lemma_posting_position(ps.drop_first(), t);
        assert forall|j: int| 0 <= j < posting_position(ps, t) implies #[trigger] ps[j].term != t by {
            if j > 0 {
                assert(ps[j] == ps.drop_first()[j - 1]);
            }
        }
    }
}

proof fn lemma_posting_position_exact(ps: Seq<PostingView>, t: Seq<char>, i: int)
    requires
        0 <= i <= ps.len(),
        forall|j: int| 0 <= j < i ==> #[trigger] ps[j].term != t,
        i == ps.len() || ps[i].term == t,
    ensures
        posting_position(ps, t) == i,
    decreases i,
{
    if i > 0 {
        assert forall|j: int| 0 <= j < i - 1 implies #[trigger] ps.drop_first()[j].term != t by {
            assert(ps.drop_first()[j] == ps[j + 1]);
        }
        lemma_posting_position_exact(ps.drop_first(), t, i - 1);
    }
}

/// Records that the document at `path` holds term `t` `f` times: the
/// entry is appended to the posting of `t`, or a posting of `t` is added.
pub open spec fn add_occurrence(ps: Seq<PostingView>, path: Seq<char>, t: Seq<char>, f: int) -> Seq<
    PostingView,
> {
    let i = posting_position(ps, t);
    if i < ps.len() {
        ps.update(i, PostingView { term: t, doc_ids: ps[i].doc_ids.push((path, f)), total: ps[i].total + f })
    } else {
        ps.push(PostingView { term: t, doc_ids: seq![(path, f)], total: f })
    }
}

/// The postings after the first `n` terms of the document at `path` were
/// recorded.
pub open spec fn add_terms(ps: Seq<PostingView>, path: Seq<char>, terms: Seq<(Seq<char>, int)>, n: int) -> Seq<
    PostingView,
>
    decreases n,
{
    if n <= 0 {
        ps
    } else {
        let prev = add_terms(ps, path, terms, n - 1);
        add_occurrence(prev, path, terms[n - 1].0, terms[n - 1].1)
    }
}

/// After all terms of the document are recorded, no total exceeds the
/// `u64` that holds it.
pub open spec fn totals_fit(ps: Seq<PostingView>, path: Seq<char>, terms: Seq<(Seq<char>, int)>) -> bool {
    let r = add_terms(ps, path, terms, terms.len() as int);
    forall|j: int| 0 <= j < r.len() ==> #[trigger] r[j].total <= u64::MAX
}

/// Postings keep their places and terms, and totals only grow.
proof fn lemma_add_terms_monotone(
    ps: Seq<PostingView>,
    path: Seq<char>,
    terms: Seq<(Seq<char>, int)>,
    i: int,
    n: int,
)
    requires
        0 <= i <= n <= terms.len(),
        forall|k: int| 0 <= k < terms.len() ==> #[trigger] terms[k].1 >= 0,
    ensures
        add_terms(ps, path, terms, i).len() <= add_terms(ps, path, terms, n).len(),
        forall|j: int|
            0 <= j < add_terms(ps, path, terms, i).len() ==> #[trigger] add_terms(ps, path, terms, n)[j].term
                == add_terms(ps, path, terms, i)[j].term && add_terms(ps, path, terms, i)[j].total
                <= add_terms(ps, path, terms, n)[j].total,
    decreases n - i,
{
    if i < n {
        lemma_add_terms_monotone(ps, path, terms, i, n - 1);
        lemma_posting_position(add_terms(ps, path, terms, n - 1), terms[n - 1].0);
    }
}

/// The posting of one more occurrence, built from the posting `p` that
/// already holds `term`.
fn extend_posting(p: TermPosting, path: &str, f: u32) -> (r: Option<TermPosting>)
    ensures
        r is None <==> p.total_frequency + f > u64::MAX,
        r matches Some(q) ==> q@ == (PostingView {
            term: p@.term,
            doc_ids: p@.doc_ids.push((path@, f as int)),
            total: p@.total + f,
        }),
{
    if p.total_frequency > u64::MAX - (f as u64) {
        return None;
    }
    let mut q = p;
    let ghost old_ids = doc_ids_view(q.doc_ids@);
    q.doc_ids.push((path.to_owned(), f));
    q.total_frequency = q.total_frequency + (f as u64);
    proof {
        assert(doc_ids_view(q.doc_ids@) =~= old_ids.push((path@, f as int)));
    }
    Some(q)
}

/// Records the terms of the document at `path` in `postings`, stopping
/// with `false` when a total would overflow.
fn aggregate_postings(postings: Vec<TermPosting>, path: &str, terms: &[(String, u32)]) -> (r: (
    Vec<TermPosting>,
    bool,
))
    ensures
        r.1 <==> totals_fit(postings_view(postings@), path@, counts_view(terms@)),
        r.1 ==> postings_view(r.0@) == add_terms(
            postings_view(postings@),
            path@,
            counts_view(terms@),
            terms@.len() as int,
        ),
{
    let ghost ps0 = postings_view(postings@);
    let ghost tv = counts_view(terms@);
    let mut ps = postings;
    let mut i: usize = 0;
    proof {
        assert forall|k: int| 0 <= k < tv.len() implies #[trigger] tv[k].1 >= 0 by {}
    }
    while i < terms.len()
        invariant
            i <= terms@.len(),
            tv == counts_view(terms@),
            ps0 == postings_view(postings@),
            forall|k: int| 0 <= k < tv.len() ==> #[trigger] tv[k].1 >= 0,
            postings_view(ps@) == add_terms(ps0, path@, tv, i as int),
        decreases terms@.len() - i,
    {
        let ghost prev = postings_view(ps@);
        let t = &terms[i].0;
        let f = terms[i].1;
        let mut j: usize = 0;
        let mut found: bool = false;
        while j < ps.len() && !found
            invariant
                j <= ps@.len(),
                prev == postings_view(ps@),
                forall|k: int| 0 <= k < j ==> #[trigger] prev[k].term != t@,
                found ==> j < ps@.len() && prev[j as int].term == t@,
            decreases ps@.len() - j + (if found {
                0int
            } else {
                1int
            }),
        {
            if str_eq(ps[j].term.as_str(), t.as_str()) {
                found = true;
            } else {
                j = j + 1;
            }
        }
        proof {
            lemma_posting_position_exact(prev, t@, j as int);
            assert(tv[i as int] == (t@, f as int));
        }
        if found {
            let p = ps.remove(j);
            match extend_posting(p, path, f) {
                Some(q) => {
                    ps.insert(j, q);
                    proof {
                        assert(postings_view(ps@) =~= add_occurrence(prev, path@, t@, f as int));
                    }
                },
                None => {
                    proof {
                        let fin = add_terms(ps0, path@, tv, tv.len() as int);
                        let next = add_terms(ps0, path@, tv, i + 1);
                        lemma_add_terms_monotone(ps0, path@, tv, i + 1, tv.len() as int);
                        assert(next == add_occurrence(prev, path@, t@, f as int));
                        assert(next[j as int].total > u64::MAX);
                        assert(fin[j as int].term == next[j as int].term);
                        assert(fin[j as int].total > u64::MAX);
                        assert(!totals_fit(ps0, path@, tv));
                    }
                    return (ps, false);
                },
            }
        } else {
            let q = TermPosting::for_document(t.clone(), path.to_owned(), f);
            ps.push(q);
            proof {
                assert(postings_view(ps@) =~= add_occurrence(prev, path@, t@, f as int));
            }
        }
        i = i + 1;
    }
    proof {
        assert(tv.len() == terms@.len());
    }
    (ps, true)
}

/// Records the terms of the document at `path` (as `extract_terms` gives
/// them) in the postings: each term's posting gets the entry
/// `(path, frequency)` and its total grows by the frequency; a term seen
/// for the first time gets a posting of its own, at the end.
pub fn add_document_postings(postings: Vec<TermPosting>, path: &str, terms: &[(String, u32)]) -> (r: Vec<
    TermPosting,
>)
    requires
        totals_fit(postings_view(postings@), path@, counts_view(terms@)),
    ensures
        postings_view(r@) == add_terms(
            postings_view(postings@),
            path@,
            counts_view(terms@),
            terms@.len() as int,
        ),
{
    aggregate_postings(postings, path, terms).0
}

/// `add_document_postings` where every total fits its `u64`, else `None`.
pub fn try_add_document_postings(postings: Vec<TermPosting>, path: &str, terms: &[(String, u32)]) -> (r:
    Option<Vec<TermPosting>>)
    ensures
        r is Some <==> totals_fit(postings_view(postings@), path@, counts_view(terms@)),
        r matches Some(v) ==> postings_view(v@) == add_terms(
            postings_view(postings@),
            path@,
            counts_view(terms@),
            terms@.len() as int,
        ),
{
    let (v, ok) = aggregate_postings(postings, path, terms);
    if ok {
        Some(v)
    } else {
        None
    }
}

/// The postings that watching writes for a reindexed document: one per
/// term, holding only this document.
pub open spec fn single_postings(path: Seq<char>, terms: Seq<(Seq<char>, int)>) -> Seq<PostingView> {
    terms.map_values(|t: (Seq<char>, int)| PostingView { term: t.0, doc_ids: seq![(path, t.1)], total: t.1 })
}

/// The posting of each term of the document at `path`, as if it were the
/// only document that holds the term.
pub fn single_document_postings(path: &str, terms: &[(String, u32)]) -> (r: Vec<TermPosting>)
    ensures
        postings_view(r@) == single_postings(path@, counts_view(terms@)),
{
    let ghost tv = counts_view(terms@);
    let mut r: Vec<TermPosting> = Vec::new();
    let mut i: usize = 0;
    proof {
        assert(postings_view(r@) =~= single_postings(path@, tv.take(0)));
    }
    while i < terms.len()
        invariant
            i <= terms@.len(),
            tv == counts_view(terms@),
            postings_view(r@) == single_postings(path@, tv.take(i as int)),
        decreases terms@.len() - i,
    {
        let p = TermPosting::for_document(terms[i].0.clone(), path.to_owned(), terms[i].1);
        let ghost old_r = postings_view(r@);
        r.push(p);
        proof {
            assert(tv.take(i + 1) =~= tv.take(i as int).push(tv[i as int]));
            assert(postings_view(r@) =~= old_r.push(p@));
            assert(postings_view(r@) =~= single_postings(path@, tv.take(i + 1)));
        }
        i = i + 1;
    }
    proof {
        assert(tv.take(terms@.len() as int) =~= tv);
    }
    r
}

// ---------------------------------------------------------------------
// Timestamps
// ---------------------------------------------------------------------

/// What chrono renders, with the pattern `pattern`, for the UTC time
/// `secs` seconds after the Unix epoch; `None` when that time lies outside
/// chrono's range.
pub uninterp spec fn utc_datetime_text(secs: i64, pattern: Seq<char>) -> Option<Seq<char>>;

/// The pattern timestamps are shown with: date, time of day, and `UTC`.
pub open spec fn timestamp_pattern() -> Seq<char> {
    "%Y-%m-%d %H:%M:%S UTC"@
}

/// `Utc.timestamp_opt(secs, 0)` formatted with `pattern`; its result is
/// named `utc_datetime_text`. The pattern is the one timestamps are shown
/// with, which chrono renders without error (a pattern it cannot render
/// makes `to_string` panic).
#[verifier::external_body]
fn format_utc(secs: i64, pattern: &str) -> (r: Option<String>)
    requires
        pattern@ == timestamp_pattern(),
    ensures
        opt_view(r) == utc_datetime_text(secs, pattern@),
{
    match chrono::TimeZone::timestamp_opt(&chrono::Utc, secs, 0) {
        chrono::LocalResult::Single(dt) => Some(dt.format(pattern).to_string()),
        chrono::LocalResult::Ambiguous(_, _) => None,
        chrono::LocalResult::None => None,
    }
}

/// The text shown for timestamp `ts`, given what chrono rendered for it.
pub open spec fn timestamp_text(ts: u64, formatted: Option<Seq<char>>) -> Seq<char> {
    match formatted {
        Some(s) => s,
        None => "Invalid timestamp ("@ + decimal(ts as nat) + ")"@,
    }
}

/// The text shown for timestamp `ts`: what chrono rendered, or
/// `Invalid timestamp (ts)` when it rendered nothing.
pub fn render_timestamp(ts: u64, formatted: Option<String>) -> (r: String)
    ensures
        r@ == timestamp_text(ts, opt_view(formatted)),
{
    match formatted {
        Some(s) => s,
        None => {
            let mut out = to_chars("Invalid timestamp (");
            push_decimal(&mut out, ts);
            let close = to_chars(")");
            append_chars(&mut out, &close);
            chars_to_string(&out)
        },
    }
}

/// Formats a Unix timestamp (seconds) as a UTC date and time.
pub fn format_timestamp(ts: u64) -> (r: String)
    ensures
        r@ == timestamp_text(ts, utc_datetime_text(ts as i64, timestamp_pattern())),
{
    render_timestamp(ts, format_utc(ts as i64, "%Y-%m-%d %H:%M:%S UTC"))
}

// ---------------------------------------------------------------------
// Laws
// ---------------------------------------------------------------------

/// Postings are consistent when no two share a term and each total is the
/// sum of the frequencies of its entries.
pub open spec fn postings_consistent(ps: Seq<PostingView>) -> bool {
    &&& forall|a: int, b: int| 0 <= a < b < ps.len() ==> #[trigger] ps[a].term != #[trigger] ps[b].term
    &&& forall|j: int| 0 <= j < ps.len() ==> #[trigger] ps[j].total == freq_sum(ps[j].doc_ids)
}

/// Recording a document keeps postings consistent: terms stay unique, and
/// every posting's total frequency stays the sum of its per-document
/// frequencies.
pub proof fn law_add_terms_consistent(ps: Seq<PostingView>, path: Seq<char>, terms: Seq<(Seq<char>, int)>, n: int)
    requires
        postings_consistent(ps),
        0 <= n <= terms.len(),
    ensures
        postings_consistent(add_terms(ps, path, terms, n)),
    decreases n,
{
    if n > 0 {
        law_add_terms_consistent(ps, path, terms, n - 1);
        let prev = add_terms(ps, path, terms, n - 1);
        let t = terms[n - 1].0;
        let f = terms[n - 1].1;
        lemma_posting_position(prev, t);
        let i = posting_position(prev, t);
        let next = add_terms(ps, path, terms, n);
        if i < prev.len() {
            let d = prev[i].doc_ids.push((path, f));
            assert(d.drop_last() =~= prev[i].doc_ids);
            assert(freq_sum(d) == freq_sum(prev[i].doc_ids) + f);
            assert forall|j: int| 0 <= j < next.len() implies #[trigger] next[j].total == freq_sum(
                next[j].doc_ids,
            ) by {
                if j != i {
                    assert(next[j] == prev[j]);
                }
            }
        } else {
            let d: Seq<(Seq<char>, int)> = seq![(path, f)];
            assert(d.drop_last() =~= Seq::<(Seq<char>, int)>::empty());
            assert(freq_sum(d.drop_last()) == 0);
            assert(d.last().1 == f);
            assert(freq_sum(d) == f);
            assert forall|j: int| 0 <= j < next.len() implies #[trigger] next[j].total == freq_sum(
                next[j].doc_ids,
            ) by {
                if j < prev.len() {
                    assert(next[j] == prev[j]);
                }
            }
            assert forall|a: int, b: int| 0 <= a < b < next.len() implies #[trigger] next[a].term
                != #[trigger] next[b].term by {
                if b < prev.len() {
                    assert(next[a] == prev[a] && next[b] == prev[b]);
                } else {
                    assert(next[a] == prev[a]);
                }
            }
        }
    }
}

/// Every indexed term comes from a word of the text: it is that word
/// lower-cased, the word holds 2 to 50 bytes and is no stop word; no term
/// is listed twice, and each count is at least one.
pub proof fn law_terms_of_text(text: Seq<char>)
    ensures
        forall|j: int|
            0 <= j < terms_of_text(text).len() ==> #[trigger] terms_of_text(text)[j].1 >= 1 && exists|k: int|
                0 <= k < words(text).len() && term_of(#[trigger] words(text)[k]) == Some(
                    terms_of_text(text)[j].0,
                ),
        forall|a: int, b: int|
            0 <= a < b < terms_of_text(text).len() ==> #[trigger] terms_of_text(text)[a].0
                != #[trigger] terms_of_text(text)[b].0,
{
    let ws = words(text);
    lemma_term_counts_props(ws, ws.len() as int);
}

proof fn lemma_term_counts_props(ws: Seq<Seq<char>>, n: int)
    requires
        0 <= n <= ws.len(),
    ensures
        forall|j: int|
            0 <= j < term_counts(ws, n).len() ==> #[trigger] term_counts(ws, n)[j].1 >= 1 && exists|k: int|
                0 <= k < ws.len() && term_of(#[trigger] ws[k]) == Some(term_counts(ws, n)[j].0),
        forall|a: int, b: int|
            0 <= a < b < term_counts(ws, n).len() ==> #[trigger] term_counts(ws, n)[a].0
                != #[trigger] term_counts(ws, n)[b].0,
    decreases n,
{
    if n > 0 {
        lemma_term_counts_props(ws, n - 1);
        let prev = term_counts(ws, n - 1);
        let next = term_counts(ws, n);
        match term_of(ws[n - 1]) {
            Some(t) => {
                lemma_count_position(prev, t);
                let i = count_position(prev, t);
                assert forall|j: int| 0 <= j < next.len() implies #[trigger] next[j].1 >= 1 && exists|k: int|
                    0 <= k < ws.len() && term_of(#[trigger] ws[k]) == Some(next[j].0) by {
                    if j < prev.len() {
                        assert(next[j].0 == prev[j].0);
                        assert(prev[j].1 >= 1);
                    } else {
                        assert(term_of(ws[n - 1]) == Some(next[j].0));
                    }
                }
                assert forall|a: int, b: int| 0 <= a < b < next.len() implies #[trigger] next[a].0
                    != #[trigger] next[b].0 by {
                    if b < prev.len() {
                        assert(next[a].0 == prev[a].0 && next[b].0 == prev[b].0);
                    } else {
                        assert(next[a].0 == prev[a].0);
                    }
                }
            },
            None => {},
        }
    }
}

} // verus!
