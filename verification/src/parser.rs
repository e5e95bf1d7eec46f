//! Markdown parser with structure awareness.
use crate::error::Error;
use crate::text::{
    is_blank_exec, lemma_char_index_unique, str_byte_len, to_chars, append_chars, chars_to_string, char_width_exec, find_from, find_from_exec, has_at_exec, leading_ws,
    lemma_byte_len_prefix, lemma_byte_len_push, lemma_byte_len_split, lemma_find_from_props,
    lemma_leading_ws, split_lines, trim_char_exec, trim_exec, byte_len, char_index_at, first_index, has_at, is_alphanumeric,
    is_alphanumeric_char, is_blank, is_char_boundary, is_whitespace, is_whitespace_char,
    leading_count, lemma_first_index_bound, lemma_first_index_exact, lines_of, lowercase,
    lowercase_chars, sub_chars, suffix_at_byte, trim, trim_char, trim_start, trim_start_exec,
};
use vstd::prelude::*;

verus! {

// ---------------------------------------------------------------------
// Data types and their views
// ---------------------------------------------------------------------

/// Parsed markdown document with structure.
#[derive(Debug)]
pub struct Document {
    /// File path.
    pub path: String,
    /// File content hash.
    pub hash: u64,
    /// Parsed sections.
    pub sections: Vec<Section>,
    /// Frontmatter (if present).
    pub frontmatter: Option<Frontmatter>,
    /// All text content (for indexing).
    pub text: String,
    /// Links found in the document.
    pub links: Vec<Link>,
    /// Last modified timestamp.
    pub modified: Option<u64>,
}

/// A section of markdown content.
#[derive(Debug)]
pub struct Section {
    /// Section level (1-6 for headings, 0 for content).
    pub level: u8,
    /// Section title (if heading).
    pub title: Option<String>,
    /// Content text.
    pub content: String,
    /// Line range in the markdown file.
    pub line_range: (usize, usize),
    /// Code blocks in this section.
    pub code_blocks: Vec<CodeBlock>,
    /// Section slug (derived from title).
    pub slug: Option<String>,
}

/// Code block within a section.
#[derive(Debug)]
pub struct CodeBlock {
    /// Language identifier.
    pub language: Option<String>,
    /// Code content.
    pub code: String,
    /// Line range in the markdown file.
    pub line_range: (usize, usize),
}

/// Frontmatter metadata.
#[derive(Debug, Clone)]
pub struct Frontmatter {
    /// Raw frontmatter content.
    pub raw: String,
    /// Parsed fields, one entry per distinct key, in the order in which the
    /// keys first appear.
    pub fields: Vec<(String, String)>,
}

/// A link in the document.
#[derive(Debug, Clone)]
pub struct Link {
    /// Link text.
    pub text: String,
    /// Link target (URL or file path).
    pub target: String,
    /// Whether it's an internal link.
    pub internal: bool,
}

/// Markdown parser.
#[derive(Debug, Clone)]
pub struct Parser {
    /// Extract code blocks.
    pub extract_code: bool,
    /// Extract links.
    pub extract_links: bool,
    /// Parse frontmatter.
    pub parse_frontmatter: bool,
}

pub struct CodeBlockView {
    pub language: Option<Seq<char>>,
    pub code: Seq<char>,
    pub line_range: (usize, usize),
}

pub struct SectionView {
    pub level: u8,
    pub title: Option<Seq<char>>,
    pub content: Seq<char>,
    pub line_range: (usize, usize),
    pub code_blocks: Seq<CodeBlockView>,
    pub slug: Option<Seq<char>>,
}

pub struct FrontmatterView {
    pub raw: Seq<char>,
    pub fields: Seq<(Seq<char>, Seq<char>)>,
}

pub struct LinkView {
    pub text: Seq<char>,
    pub target: Seq<char>,
    pub internal: bool,
}

pub struct DocumentView {
    pub path: Seq<char>,
    pub hash: u64,
    pub sections: Seq<SectionView>,
    pub frontmatter: Option<FrontmatterView>,
    pub text: Seq<char>,
    pub links: Seq<LinkView>,
    pub modified: Option<u64>,
}

/// The characters of an optional string.
pub open spec fn opt_view(o: Option<String>) -> Option<Seq<char>> {
    match o {
        Some(s) => Some(s@),
        None => None,
    }
}

/// The character view of a list of string pairs.
pub open spec fn pairs_view(v: Seq<(String, String)>) -> Seq<(Seq<char>, Seq<char>)> {
    v.map_values(|p: (String, String)| (p.0@, p.1@))
}

impl View for CodeBlock {
    type V = CodeBlockView;

    open spec fn view(&self) -> CodeBlockView {
        CodeBlockView {
            language: opt_view(self.language),
            code: self.code@,
            line_range: self.line_range,
        }
    }
}

impl View for Section {
    type V = SectionView;

    open spec fn view(&self) -> SectionView {
        SectionView {
            level: self.level,
            title: opt_view(self.title),
            content: self.content@,
            line_range: self.line_range,
            code_blocks: self.code_blocks@.map_values(|c: CodeBlock| c@),
            slug: opt_view(self.slug),
        }
    }
}

impl View for Frontmatter {
    type V = FrontmatterView;

    open spec fn view(&self) -> FrontmatterView {
        FrontmatterView { raw: self.raw@, fields: pairs_view(self.fields@) }
    }
}

impl View for Link {
    type V = LinkView;

    open spec fn view(&self) -> LinkView {
        LinkView { text: self.text@, target: self.target@, internal: self.internal }
    }
}

impl View for Document {
    type V = DocumentView;

    open spec fn view(&self) -> DocumentView {
        DocumentView {
            path: self.path@,
            hash: self.hash,
            sections: self.sections@.map_values(|s: Section| s@),
            frontmatter: match self.frontmatter {
                Some(f) => Some(f@),
                None => None,
            },
            text: self.text@,
            links: self.links@.map_values(|l: Link| l@),
            modified: self.modified,
        }
    }
}

// ---------------------------------------------------------------------
// Splitting and joining on a separator
// ---------------------------------------------------------------------

/// The non-empty pieces of `s` between occurrences of `sep`
/// (`s.split(sep).filter(|p| !p.is_empty())`).
pub open spec fn nonempty_pieces(s: Seq<char>, sep: char) -> Seq<Seq<char>>
    decreases s.len(),
{
    if s.len() == 0 {
        Seq::empty()
    } else {
        let k = first_index(s, sep);
        proof {
            lemma_first_index_bound(s, sep);
        }
        if k >= s.len() {
            seq![s]
        } else {
            let rest = nonempty_pieces(s.subrange(k + 1, s.len() as int), sep);
            if k == 0 {
                rest
            } else {
                seq![s.subrange(0, k)] + rest
            }
        }
    }
}

/// The pieces joined with `sep` between consecutive pieces (`[T]::join`).
pub open spec fn join(pieces: Seq<Seq<char>>, sep: Seq<char>) -> Seq<char>
    decreases pieces.len(),
{
    if pieces.len() == 0 {
        Seq::empty()
    } else if pieces.len() == 1 {
        pieces[0]
    } else {
        join(pieces.drop_last(), sep) + sep + pieces.last()
    }
}

/// The non-empty pieces of `v` between occurrences of `sep`.
pub fn split_nonempty(v: &[char], sep: char) -> (r: Vec<Vec<char>>)
    ensures
        r@.map_values(|l: Vec<char>| l@) == nonempty_pieces(v@, sep),
{
    let mut r: Vec<Vec<char>> = Vec::new();
    let mut start: usize = 0;
    proof {
        assert(v@.subrange(0, v@.len() as int) =~= v@);
        assert(r@.map_values(|l: Vec<char>| l@) =~= Seq::<Seq<char>>::empty());
        assert(Seq::<Seq<char>>::empty() + nonempty_pieces(v@, sep) =~= nonempty_pieces(v@, sep));
    }
    while start < v.len()
        invariant
            start <= v@.len(),
            r@.map_values(|l: Vec<char>| l@) + nonempty_pieces(
                v@.subrange(start as int, v@.len() as int),
                sep,
            ) == nonempty_pieces(v@, sep),
        decreases v@.len() - start,
    {
        let ghost rest = v@.subrange(start as int, v@.len() as int);
        let ghost old_r = r@.map_values(|l: Vec<char>| l@);
        let mut k: usize = start;
        while k < v.len() && v[k] != sep
            invariant
                start <= k <= v@.len(),
                forall|i: int| start <= i < k ==> #[trigger] v@[i] != sep,
            decreases v@.len() - k,
        {
            k = k + 1;
        }
        proof {
            lemma_first_index_exact(rest, sep, k - start);
        }
        if k > start {
            let piece = sub_chars(v, start, k);
            r.push(piece);
            proof {
                assert(r@.map_values(|l: Vec<char>| l@) =~= old_r.push(piece@));
            }
        }
        if k < v.len() {
            proof {
                assert(rest.subrange(0, k - start) =~= v@.subrange(start as int, k as int));
                assert(rest.subrange(k - start + 1, rest.len() as int) =~= v@.subrange(
                    k + 1,
                    v@.len() as int,
                ));
                if k > start {
                    assert(old_r.push(v@.subrange(start as int, k as int)) + nonempty_pieces(
                        v@.subrange(k + 1, v@.len() as int),
                        sep,
                    ) =~= old_r + nonempty_pieces(rest, sep));
                }
            }
            start = k + 1;
        } else {
            proof {
                assert(rest =~= v@.subrange(start as int, k as int));
                assert(v@.subrange(v@.len() as int, v@.len() as int) =~= Seq::<char>::empty());
                assert(old_r.push(rest) + Seq::<Seq<char>>::empty() =~= old_r + nonempty_pieces(
                    rest,
                    sep,
                ));
            }
            start = v.len();
        }
    }
    proof {
        assert(v@.subrange(start as int, v@.len() as int) =~= Seq::<char>::empty());
        assert(r@.map_values(|l: Vec<char>| l@) + Seq::<Seq<char>>::empty() =~= r@.map_values(
            |l: Vec<char>| l@,
        ));
    }
    r
}

/// The pieces joined with `sep`.
pub fn join_exec(pieces: &Vec<Vec<char>>, sep: &[char]) -> (r: Vec<char>)
    ensures
        r@ == join(pieces@.map_values(|l: Vec<char>| l@), sep@),
{
    let ghost ps = pieces@.map_values(|l: Vec<char>| l@);
    let mut r: Vec<char> = Vec::new();
    let mut i: usize = 0;
    while i < pieces.len()
        invariant
            i <= pieces@.len(),
            ps == pieces@.map_values(|l: Vec<char>| l@),
            r@ == join(ps.subrange(0, i as int), sep@),
        decreases pieces@.len() - i,
    {
        if i > 0 {
            append_chars(&mut r, sep);
        }
        append_chars(&mut r, &pieces[i]);
        proof {
            let a = ps.subrange(0, i + 1);
            assert(a.drop_last() =~= ps.subrange(0, i as int));
            if i == 0 {
                assert(a.len() == 1);
            }
        }
        i = i + 1;
    }
    proof {
        assert(ps.subrange(0, pieces@.len() as int) =~= ps);
    }
    r
}

// ---------------------------------------------------------------------
// Headings and slugs
// ---------------------------------------------------------------------

/// Heading level of a line: the number of leading `#` after leading
/// whitespace, when it is between 1 and 6 and a space follows; else 0.
pub open spec fn heading_level(line: Seq<char>) -> nat {
    let t = trim_start(line);
    let n = leading_count(t, '#');
    if 1 <= n <= 6 && n < t.len() && t[n as int] == ' ' {
        n
    } else {
        0
    }
}

proof fn lemma_leading_count_exact(s: Seq<char>, c: char, k: int)
    requires
        0 <= k <= s.len(),
        forall|i: int| 0 <= i < k ==> #[trigger] s[i] == c,
        k == s.len() || s[k] != c,
    ensures
        leading_count(s, c) == k,
    decreases k,
{
    if k > 0 {
        assert forall|i: int| 0 <= i < k - 1 implies #[trigger] s.drop_first()[i] == c by {
            assert(s.drop_first()[i] == s[i + 1]);
        }
        lemma_leading_count_exact(s.drop_first(), c, k - 1);
    }
}

/// Heading level of `line` (0 when it is no heading).
pub fn heading_level_exec(line: &[char]) -> (n: usize)
    ensures
        n == heading_level(line@),
        n <= 6,
{
    let t = trim_start_exec(line);
    let mut k: usize = 0;
    while k < t.len() && t[k] == '#'
        invariant
            k <= t@.len(),
            forall|i: int| 0 <= i < k ==> #[trigger] t@[i] == '#',
        decreases t@.len() - k,
    {
        k = k + 1;
    }
    proof {
        lemma_leading_count_exact(t@, '#', k as int);
    }
    if 1 <= k && k <= 6 && k < t.len() && t[k] == ' ' {
        k
    } else {
        0
    }
}

/// `Parser::slugify`: lower-case, every non-alphanumeric character becomes
/// `-`, then runs of `-` collapse and no `-` is left at either end.
pub open spec fn slugify(text: Seq<char>) -> Seq<char> {
    let mapped = lowercase(text).map_values(
        |c: char|
            if is_alphanumeric_char(c) {
                c
            } else {
                '-'
            },
    );
    join(nonempty_pieces(mapped, '-'), seq!['-'])
}

/// Lower-cases and replaces every non-alphanumeric character by `-`.
fn dash_non_alphanumeric(text: &[char]) -> (r: Vec<char>)
    ensures
        r@ == lowercase(text@).map_values(
            |c: char|
                if is_alphanumeric_char(c) {
                    c
                } else {
                    '-'
                },
        ),
{
    let low = lowercase_chars(text);
    let mut r: Vec<char> = Vec::new();
    let mut i: usize = 0;
    while i < low.len()
        invariant
            i <= low@.len(),
            low@ == lowercase(text@),
            r@ == low@.subrange(0, i as int).map_values(
                |c: char|
                    if is_alphanumeric_char(c) {
                        c
                    } else {
                        '-'
                    },
            ),
        decreases low@.len() - i,
    {
        let c = low[i];
        if is_alphanumeric(c) {
            r.push(c);
        } else {
            r.push('-');
        }
        proof {
            assert(low@.subrange(0, i + 1) =~= low@.subrange(0, i as int).push(c));
        }
        i = i + 1;
    }
    proof {
        assert(low@.subrange(0, low@.len() as int) =~= low@);
    }
    r
}

/// `Parser::slugify` on characters.
pub fn slugify_chars(text: &[char]) -> (r: Vec<char>)
    ensures
        r@ == slugify(text@),
{
    let mapped = dash_non_alphanumeric(text);
    let pieces = split_nonempty(&mapped, '-');
    let dash: Vec<char> = vec!['-'];
    proof {
        assert(dash@ =~= seq!['-']);
    }
    join_exec(&pieces, &dash)
}

// ---------------------------------------------------------------------
// First whitespace-separated word
// ---------------------------------------------------------------------

/// Index of the first whitespace character of `s` (or `s.len()`).
pub open spec fn first_ws_index(s: Seq<char>) -> nat
    decreases s.len(),
{
    if s.len() == 0 || is_whitespace_char(s[0]) {
        0
    } else {
        1 + first_ws_index(s.drop_first())
    }
}

/// `s.split_whitespace().next()`.
pub open spec fn first_word(s: Seq<char>) -> Option<Seq<char>> {
    let t = trim_start(s);
    if t.len() == 0 {
        None
    } else {
        Some(t.take(first_ws_index(t) as int))
    }
}

proof fn lemma_first_ws_exact(s: Seq<char>, k: int)
    requires
        0 <= k <= s.len(),
        forall|i: int| 0 <= i < k ==> !is_whitespace_char(#[trigger] s[i]),
        k == s.len() || is_whitespace_char(s[k]),
    ensures
        first_ws_index(s) == k,
    decreases k,
{
    if k > 0 {
        assert forall|i: int| 0 <= i < k - 1 implies !is_whitespace_char(#[trigger] s.drop_first()[i]) by {
            assert(s.drop_first()[i] == s[i + 1]);
        }
        lemma_first_ws_exact(s.drop_first(), k - 1);
    }
}

/// First whitespace-separated word of `v`.
pub fn first_word_exec(v: &[char]) -> (r: Option<Vec<char>>)
    ensures
        r matches Some(w) ==> first_word(v@) == Some(w@),
        r is None ==> first_word(v@) is None,
{
    let t = trim_start_exec(v);
    if t.len() == 0 {
        return None;
    }
    let mut k: usize = 0;
    while k < t.len() && !is_whitespace(t[k])
        invariant
            k <= t@.len(),
            forall|i: int| 0 <= i < k ==> !is_whitespace_char(#[trigger] t@[i]),
        decreases t@.len() - k,
    {
        k = k + 1;
    }
    proof {
        lemma_first_ws_exact(t@, k as int);
    }
    Some(sub_chars(&t, 0, k))
}

// ---------------------------------------------------------------------
// Frontmatter fields
// ---------------------------------------------------------------------

/// Position of the entry with key `k` in `f`, or `f.len()` when absent.
pub open spec fn key_position(f: Seq<(Seq<char>, Seq<char>)>, k: Seq<char>) -> int
    decreases f.len(),
{
    if f.len() == 0 {
        0
    } else if f[0].0 == k {
        0
    } else {
        1 + key_position(f.drop_first(), k)
    }
}

pub proof fn lemma_key_position(f: Seq<(Seq<char>, Seq<char>)>, k: Seq<char>)
    ensures
        0 <= key_position(f, k) <= f.len(),
        key_position(f, k) < f.len() ==> f[key_position(f, k)].0 == k,
        forall|i: int| 0 <= i < key_position(f, k) ==> #[trigger] f[i].0 != k,
    decreases f.len(),
{
    if f.len() > 0 && f[0].0 != k {
        lemma_key_position(f.drop_first(), k);
        assert forall|i: int| 0 <= i < key_position(f, k) implies #[trigger] f[i].0 != k by {
            if i > 0 {
                assert(f[i] == f.drop_first()[i - 1]);
            }
        }
    }
}

proof fn lemma_key_position_exact(f: Seq<(Seq<char>, Seq<char>)>, k: Seq<char>, i: int)
    requires
        0 <= i <= f.len(),
        forall|j: int| 0 <= j < i ==> #[trigger] f[j].0 != k,
        i == f.len() || f[i].0 == k,
    ensures
        key_position(f, k) == i,
    decreases i,
{
    if i > 0 {
        assert forall|j: int| 0 <= j < i - 1 implies #[trigger] f.drop_first()[j].0 != k by {
            assert(f.drop_first()[j] == f[j + 1]);
        }
        lemma_key_position_exact(f.drop_first(), k, i - 1);
    }
}

/// Inserts `(k, v)`, replacing the value of an existing entry with key `k`
/// (`HashMap::insert`).
pub open spec fn upsert(f: Seq<(Seq<char>, Seq<char>)>, k: Seq<char>, v: Seq<char>) -> Seq<
    (Seq<char>, Seq<char>),
> {
    let i = key_position(f, k);
    if i < f.len() {
        f.update(i, (k, v))
    } else {
        f.push((k, v))
    }
}

/// The `key <sep> value` pair that one frontmatter line holds, if any: the
/// line is split at the first `sep`, the key is trimmed, the value is
/// trimmed and then stripped of surrounding `"` and then `'` characters;
/// lines without `sep` or with an empty key hold none.
pub open spec fn field_of_line(line: Seq<char>, sep: char) -> Option<(Seq<char>, Seq<char>)> {
    let k = first_index(line, sep);
    if k < line.len() {
        let key = trim(line.subrange(0, k));
        let value = trim_char(trim_char(trim(line.subrange(k + 1, line.len() as int)), '"'), '\'');
        if key.len() > 0 {
            Some((key, value))
        } else {
            None
        }
    } else {
        None
    }
}

/// The fields of frontmatter lines, later lines overriding earlier ones.
pub open spec fn fields_of(lines: Seq<Seq<char>>, sep: char) -> Seq<(Seq<char>, Seq<char>)>
    decreases lines.len(),
{
    if lines.len() == 0 {
        Seq::empty()
    } else {
        let prev = fields_of(lines.drop_last(), sep);
        match field_of_line(lines.last(), sep) {
            Some(kv) => upsert(prev, kv.0, kv.1),
            None => prev,
        }
    }
}

/// The key/value pair of one frontmatter line.
fn field_of_line_exec(line: &[char], sep: char) -> (r: Option<(Vec<char>, Vec<char>)>)
    ensures
        r matches Some(kv) ==> field_of_line(line@, sep) == Some((kv.0@, kv.1@)),
        r is None ==> field_of_line(line@, sep) is None,
{
    let mut k: usize = 0;
    while k < line.len() && line[k] != sep
        invariant
            k <= line@.len(),
            forall|i: int| 0 <= i < k ==> #[trigger] line@[i] != sep,
        decreases line@.len() - k,
    {
        k = k + 1;
    }
    proof {
        lemma_first_index_exact(line@, sep, k as int);
    }
    if k >= line.len() {
        return None;
    }
    let before = sub_chars(line, 0, k);
    let key = trim_exec(&before);
    let after = sub_chars(line, k + 1, line.len());
    let t = trim_exec(&after);
    let t1 = trim_char_exec(&t, '"');
    let value = trim_char_exec(&t1, '\'');
    if key.len() > 0 {
        Some((key, value))
    } else {
        None
    }
}

/// Inserts or replaces the entry with key `k`.
fn upsert_exec(fields: &mut Vec<(String, String)>, k: Vec<char>, v: Vec<char>)
    ensures
        pairs_view(final(fields)@) == upsert(pairs_view(old(fields)@), k@, v@),
{
    let ghost f = pairs_view(fields@);
    let key = chars_to_string(&k);
    let value = chars_to_string(&v);
    let mut i: usize = 0;
    while i < fields.len()
        invariant
            i <= fields@.len(),
            f == pairs_view(fields@),
            fields@ == old(fields)@,
            key@ == k@,
            value@ == v@,
            forall|j: int| 0 <= j < i ==> #[trigger] f[j].0 != k@,
        decreases fields@.len() - i,
    {
        if fields[i].0 == key {
            proof {
                assert(f[i as int].0 == k@);
                lemma_key_position_exact(f, k@, i as int);
            }
            fields.set(i, (key, value));
            proof {
                assert(pairs_view(fields@) =~= f.update(i as int, (k@, v@)));
            }
            return;
        }
        i = i + 1;
    }
    proof {
        lemma_key_position_exact(f, k@, i as int);
    }
    fields.push((key, value));
    proof {
        assert(pairs_view(fields@) =~= f.push((k@, v@)));
    }
}

/// The fields of frontmatter content whose lines hold `key <sep> value`.
pub fn parse_fields(content: &[char], sep: char) -> (r: Vec<(String, String)>)
    ensures
        pairs_view(r@) == fields_of(lines_of(content@), sep),
{
    let lines = split_lines(content);
    let ghost ls = lines@.map_values(|l: Vec<char>| l@);
    let mut r: Vec<(String, String)> = Vec::new();
    let mut i: usize = 0;
    proof {
        assert(pairs_view(r@) =~= Seq::empty());
        assert(ls.subrange(0, 0) =~= Seq::<Seq<char>>::empty());
    }
    while i < lines.len()
        invariant
            i <= lines@.len(),
            ls == lines@.map_values(|l: Vec<char>| l@),
            pairs_view(r@) == fields_of(ls.subrange(0, i as int), sep),
        decreases lines@.len() - i,
    {
        proof {
            assert(ls.subrange(0, i + 1).drop_last() =~= ls.subrange(0, i as int));
            assert(ls.subrange(0, i + 1).last() == lines@[i as int]@);
        }
        match field_of_line_exec(&lines[i], sep) {
            Some(kv) => {
                upsert_exec(&mut r, kv.0, kv.1);
            },
            None => {},
        }
        i = i + 1;
    }
    proof {
        assert(ls.subrange(0, lines@.len() as int) =~= ls);
    }
    r
}

/// `Parser::parse_yaml_frontmatter`: the `key: value` fields.
fn yaml_fields(content: &[char]) -> (r: Vec<(String, String)>)
    ensures
        pairs_view(r@) == fields_of(lines_of(content@), ':'),
{
    parse_fields(content, ':')
}

/// `Parser::parse_toml_frontmatter`: the `key = value` fields.
fn toml_fields(content: &[char]) -> (r: Vec<(String, String)>)
    ensures
        pairs_view(r@) == fields_of(lines_of(content@), '='),
{
    parse_fields(content, '=')
}

// ---------------------------------------------------------------------
// Frontmatter detection
// ---------------------------------------------------------------------

/// `---\n`, which opens YAML frontmatter.
pub open spec fn yaml_open() -> Seq<char> {
    seq!['-', '-', '-', '\n']
}

/// `\n---\n`, which closes YAML frontmatter.
pub open spec fn yaml_close() -> Seq<char> {
    seq!['\n', '-', '-', '-', '\n']
}

/// `+++\n`, which opens TOML frontmatter.
pub open spec fn toml_open() -> Seq<char> {
    seq!['+', '+', '+', '\n']
}

/// `\n+++\n`, which closes TOML frontmatter.
pub open spec fn toml_close() -> Seq<char> {
    seq!['\n', '+', '+', '+', '\n']
}

/// Frontmatter delimited by `open` ... `close` at the start of `t`: its raw
/// content and the byte offset just past the closing delimiter.
pub open spec fn delimited_frontmatter(t: Seq<char>, open: Seq<char>, close: Seq<char>) -> Option<
    (Seq<char>, nat),
> {
    if has_at(t, 0, open) {
        match find_from(t, close, 4) {
            Some(k) => Some((t.subrange(4, k), byte_len(t.take(k + 5)))),
            None => None,
        }
    } else {
        None
    }
}

/// `Parser::extract_frontmatter`: the frontmatter (YAML first, then TOML)
/// found after leading whitespace, and the byte offset, counted in the
/// trimmed content, at which the body starts (0 without frontmatter).
pub open spec fn frontmatter_split(content: Seq<char>) -> (Option<FrontmatterView>, nat) {
    let t = trim_start(content);
    match delimited_frontmatter(t, yaml_open(), yaml_close()) {
        Some(rk) => (
            Some(FrontmatterView { raw: rk.0, fields: fields_of(lines_of(rk.0), ':') }),
            rk.1,
        ),
        None => match delimited_frontmatter(t, toml_open(), toml_close()) {
            Some(rk) => (
                Some(FrontmatterView { raw: rk.0, fields: fields_of(lines_of(rk.0), '=') }),
                rk.1,
            ),
            None => (None, 0),
        },
    }
}

/// Byte length of the first `n` characters of `v`.
pub fn prefix_bytes(v: &[char], n: usize) -> (r: usize)
    requires
        n <= v@.len(),
        byte_len(v@) <= isize::MAX,
    ensures
        r == byte_len(v@.take(n as int)),
{
    let mut r: usize = 0;
    let mut i: usize = 0;
    proof {
        assert(v@.take(0) =~= Seq::<char>::empty());
    }
    while i < n
        invariant
            i <= n <= v@.len(),
            byte_len(v@) <= isize::MAX,
            r == byte_len(v@.take(i as int)),
        decreases n - i,
    {
        proof {
            assert(v@.take(i + 1) =~= v@.take(i as int).push(v@[i as int]));
            lemma_byte_len_push(v@.take(i as int), v@[i as int]);
            assert(v@.subrange(0, i + 1) =~= v@.take(i + 1));
            lemma_byte_len_prefix(v@, i + 1, i + 1);
        }
        r = r + char_width_exec(v[i]);
        i = i + 1;
    }
    r
}

/// Looks for frontmatter delimited by `open`/`close` at the start of `t`.
fn delimited_frontmatter_exec(t: &[char], open: &[char], close: &[char]) -> (r: Option<
    (Vec<char>, usize),
>)
    requires
        open@.len() == 4,
        close@.len() == 5,
        byte_len(t@) <= isize::MAX,
    ensures
        r matches Some(rk) ==> delimited_frontmatter(t@, open@, close@) == Some((rk.0@, rk.1 as nat)),
        r is None ==> delimited_frontmatter(t@, open@, close@) is None,
{
    if !has_at_exec(t, 0, open) {
        return None;
    }
    match find_from_exec(t, close, 4) {
        Some(k) => {
            proof {
                lemma_find_from_props(t@, close@, 4);
                lemma_byte_len_prefix(t@, 0, t@.len() as int);
                assert(t@.subrange(0, t@.len() as int) =~= t@);
            }
            let raw = sub_chars(t, 4, k);
            let off = prefix_bytes(t, k + 5);
            Some((raw, off))
        },
        None => None,
    }
}

/// Whether `content` starts (after whitespace) with frontmatter, and where.
fn frontmatter_of_chars(content: &[char]) -> (r: (Option<Frontmatter>, usize))
    requires
        byte_len(content@) <= isize::MAX,
    ensures
        (match r.0 {
            Some(f) => Some(f@),
            None => None,
        }) == frontmatter_split(content@).0,
        r.1 == frontmatter_split(content@).1,
{
    let t = trim_start_exec(content);
    proof {
        lemma_leading_ws(content@);
        lemma_byte_len_split(content@, leading_ws(content@) as int);
        assert(t@ =~= content@.subrange(leading_ws(content@) as int, content@.len() as int));
    }
    let yo: Vec<char> = vec!['-', '-', '-', '\n'];
    let yc: Vec<char> = vec!['\n', '-', '-', '-', '\n'];
    proof {
        assert(yo@ =~= yaml_open());
        assert(yc@ =~= yaml_close());
    }
    match delimited_frontmatter_exec(&t, &yo, &yc) {
        Some(rk) => {
            let fields = yaml_fields(&rk.0);
            let raw = chars_to_string(&rk.0);
            return (Some(Frontmatter { raw, fields }), rk.1);
        },
        None => {},
    }
    let to: Vec<char> = vec!['+', '+', '+', '\n'];
    let tc: Vec<char> = vec!['\n', '+', '+', '+', '\n'];
    proof {
        assert(to@ =~= toml_open());
        assert(tc@ =~= toml_close());
    }
    match delimited_frontmatter_exec(&t, &to, &tc) {
        Some(rk) => {
            let fields = toml_fields(&rk.0);
            let raw = chars_to_string(&rk.0);
            (Some(Frontmatter { raw, fields }), rk.1)
        },
        None => (None, 0),
    }
}

// ---------------------------------------------------------------------
// Sections
// ---------------------------------------------------------------------

/// ```` ``` ````, which opens and closes a fenced code block.
pub open spec fn fence() -> Seq<char> {
    seq!['`', '`', '`']
}

/// The characters of an optional character vector.
pub open spec fn optc(o: Option<Vec<char>>) -> Option<Seq<char>> {
    match o {
        Some(v) => Some(v@),
        None => None,
    }
}

/// State of the line-by-line section scanner.
pub struct SectionState {
    /// Sections completed so far.
    pub sections: Seq<SectionView>,
    /// Section being filled.
    pub cur: SectionView,
    /// Inside a fenced code block.
    pub in_code: bool,
    /// Line on which the open code block started.
    pub code_start: int,
    /// Language of the open code block.
    pub lang: Option<Seq<char>>,
    /// Code collected in the open code block.
    pub code: Seq<char>,
    /// Number of the line being scanned.
    pub line_num: int,
    /// Line on which the current section started.
    pub section_start: int,
    /// No heading title so far started inside a character (where slicing
    /// the line panics).
    pub ok: bool,
}

/// An empty untitled section.
pub open spec fn empty_section() -> SectionView {
    SectionView {
        level: 0,
        title: None,
        content: Seq::empty(),
        line_range: (1, 1),
        code_blocks: Seq::empty(),
        slug: None,
    }
}

/// Scanner state before the first line.
pub open spec fn initial_state(offset: int) -> SectionState {
    SectionState {
        sections: Seq::empty(),
        cur: empty_section(),
        in_code: false,
        code_start: 0,
        lang: None,
        code: Seq::empty(),
        line_num: 1 + offset,
        section_start: 1 + offset,
        ok: true,
    }
}

/// `cur` completed on the line before `st.line_num`.
pub open spec fn closed_section(st: SectionState) -> SectionView {
    SectionView {
        level: st.cur.level,
        title: st.cur.title,
        content: st.cur.content,
        line_range: (st.section_start as usize, (st.line_num - 1) as usize),
        code_blocks: st.cur.code_blocks,
        slug: st.cur.slug,
    }
}

/// The sections so far, with `cur` added when it has non-blank content.
pub open spec fn flush(st: SectionState) -> Seq<SectionView> {
    if !is_blank(st.cur.content) {
        st.sections.push(closed_section(st))
    } else {
        st.sections
    }
}

/// `content` with `line` appended, separated by a newline unless empty.
pub open spec fn append_line(content: Seq<char>, line: Seq<char>) -> Seq<char> {
    if content.len() > 0 {
        content.push('\n') + line
    } else {
        line
    }
}

/// One line of `Parser::extract_sections`.
pub open spec fn section_step(st: SectionState, line: Seq<char>, extract_code: bool) -> SectionState {
    if has_at(line, 0, fence()) {
        if st.in_code {
            if extract_code {
                let block = CodeBlockView {
                    language: st.lang,
                    code: st.code,
                    line_range: (st.code_start as usize, st.line_num as usize),
                };
                SectionState {
                    cur: SectionView {
                        level: st.cur.level,
                        title: st.cur.title,
                        content: st.cur.content,
                        line_range: st.cur.line_range,
                        code_blocks: st.cur.code_blocks.push(block),
                        slug: st.cur.slug,
                    },
                    in_code: false,
                    lang: None,
                    code: Seq::empty(),
                    line_num: st.line_num + 1,
                    ..st
                }
            } else {
                SectionState { in_code: false, line_num: st.line_num + 1, ..st }
            }
        } else {
            SectionState {
                in_code: true,
                code_start: st.line_num,
                lang: first_word(line.skip(3)),
                line_num: st.line_num + 1,
                ..st
            }
        }
    } else if st.in_code {
        SectionState {
            code: if extract_code {
                st.code + line.push('\n')
            } else {
                st.code
            },
            line_num: st.line_num + 1,
            ..st
        }
    } else {
        let lvl = heading_level(line);
        if lvl > 0 {
            let title = trim(suffix_at_byte(line, lvl as int));
            SectionState {
                sections: flush(st),
                cur: SectionView {
                    level: lvl as u8,
                    title: Some(title),
                    content: Seq::empty(),
                    line_range: (st.line_num as usize, st.line_num as usize),
                    code_blocks: Seq::empty(),
                    slug: Some(slugify(title)),
                },
                section_start: st.line_num,
                line_num: st.line_num + 1,
                ok: st.ok && is_char_boundary(line, lvl as int),
                ..st
            }
        } else {
            SectionState {
                cur: SectionView {
                    level: st.cur.level,
                    title: st.cur.title,
                    content: append_line(st.cur.content, line),
                    line_range: st.cur.line_range,
                    code_blocks: st.cur.code_blocks,
                    slug: st.cur.slug,
                },
                line_num: st.line_num + 1,
                ..st
            }
        }
    }
}

/// Scanner state after the first `n` lines.
pub open spec fn sections_fold(lines: Seq<Seq<char>>, n: int, offset: int, extract_code: bool) -> SectionState
    decreases n,
{
    if n <= 0 {
        initial_state(offset)
    } else {
        section_step(sections_fold(lines, n - 1, offset, extract_code), lines[n - 1], extract_code)
    }
}

/// Final scanner state over the lines of `content`.
pub open spec fn sections_scan(content: Seq<char>, offset: int, extract_code: bool) -> SectionState {
    let lines = lines_of(content);
    sections_fold(lines, lines.len() as int, offset, extract_code)
}

/// `Parser::extract_sections`: the sections of `content`, whose first line
/// is numbered `1 + offset`.
pub open spec fn sections_of(content: Seq<char>, offset: int, extract_code: bool) -> Seq<SectionView> {
    flush(sections_scan(content, offset, extract_code))
}

/// The scan never slices a heading line inside a character.
pub open spec fn sections_defined(content: Seq<char>, offset: int, extract_code: bool) -> bool {
    sections_scan(content, offset, extract_code).ok
}

proof fn lemma_fold_line_num(lines: Seq<Seq<char>>, n: int, offset: int, extract_code: bool)
    requires
        0 <= n,
        0 <= offset,
    ensures
        sections_fold(lines, n, offset, extract_code).line_num == 1 + offset + n,
        sections_fold(lines, n, offset, extract_code).section_start <= 1 + offset + n,
        sections_fold(lines, n, offset, extract_code).section_start >= 1,
        sections_fold(lines, n, offset, extract_code).code_start <= 1 + offset + n,
        sections_fold(lines, n, offset, extract_code).code_start >= 0,
    decreases n,
{
    if n > 0 {
        lemma_fold_line_num(lines, n - 1, offset, extract_code);
    }
}

pub proof fn lemma_lines_len(s: Seq<char>)
    ensures
        lines_of(s).len() <= s.len(),
    decreases s.len(),
{
    if s.len() > 0 {
        let k = first_index(s, '\n');
        lemma_first_index_bound(s, '\n');
        if k < s.len() {
            lemma_lines_len(s.subrange(k + 1, s.len() as int));
        }
    }
}

/// The character index at byte offset `b` of `v`.
pub fn char_index_for_byte(v: &[char], b: usize) -> (k: usize)
    requires
        is_char_boundary(v@, b as int),
    ensures
        k <= v@.len(),
        byte_len(v@.take(k as int)) == b,
        k == char_index_at(v@, b as int),
{
    let ghost k0 = char_index_at(v@, b as int);
    let mut i: usize = 0;
    let mut acc: usize = 0;
    proof {
        assert(v@.take(0) =~= Seq::<char>::empty());
    }
    while acc < b
        invariant
            0 <= k0 <= v@.len(),
            byte_len(v@.subrange(0, k0)) == b,
            i <= k0,
            acc == byte_len(v@.take(i as int)),
        decreases k0 - i,
    {
        proof {
            assert(i < k0);
            lemma_byte_len_prefix(v@, i + 1, k0);
            assert(v@.take(i + 1) =~= v@.take(i as int).push(v@[i as int]));
            lemma_byte_len_push(v@.take(i as int), v@[i as int]);
        }
        acc = acc + char_width_exec(v[i]);
        i = i + 1;
    }
    proof {
        if i < k0 {
            lemma_byte_len_prefix(v@, i as int, k0);
        }
    }
    i
}

/// The character index at byte offset `b` of `v`, if `b` falls between
/// two characters.
pub fn char_index_at_byte_checked(v: &[char], b: usize) -> (r: Option<usize>)
    ensures
        r matches Some(k) ==> k <= v@.len() && byte_len(v@.take(k as int)) == b && k
            == char_index_at(v@, b as int) && is_char_boundary(v@, b as int),
        r is None ==> !is_char_boundary(v@, b as int),
{
    let mut i: usize = 0;
    let mut acc: usize = 0;
    proof {
        assert(v@.take(0) =~= Seq::<char>::empty());
    }
    while acc < b && i < v.len()
        invariant
            i <= v@.len(),
            acc == byte_len(v@.take(i as int)),
            acc <= b,
            forall|k: int| 0 <= k < i ==> #[trigger] byte_len(v@.subrange(0, k)) < b,
        decreases v@.len() - i,
    {
        let w = char_width_exec(v[i]);
        proof {
            assert(v@.take(i + 1) =~= v@.take(i as int).push(v@[i as int]));
            lemma_byte_len_push(v@.take(i as int), v@[i as int]);
        }
        if w > b - acc {
            proof {
                assert forall|k: int| 0 <= k <= v@.len() implies byte_len(#[trigger] v@.subrange(0, k))
                    != b by {
                    if k > i {
                        lemma_byte_len_prefix(v@, i + 1, k);
                    } else if k < i {
                    } else {
                        assert(v@.subrange(0, k) == v@.take(i as int));
                    }
                }
            }
            return None;
        }
        proof {
            assert(v@.subrange(0, i as int) == v@.take(i as int));
        }
        acc = acc + w;
        i = i + 1;
    }
    if acc == b {
        proof {
            assert(v@.subrange(0, i as int) == v@.take(i as int));
            assert(is_char_boundary(v@, b as int));
            let k0 = char_index_at(v@, b as int);
            lemma_char_index_unique(v@, k0, i as int);
        }
        Some(i)
    } else {
        proof {
            assert forall|k: int| 0 <= k <= v@.len() implies byte_len(#[trigger] v@.subrange(0, k))
                != b by {
                if k < i {
                } else if k == i {
                    assert(v@.subrange(0, k) == v@.take(i as int));
                } else {
                    lemma_byte_len_prefix(v@, i as int, k);
                }
            }
        }
        None
    }
}

/// A section built from its parts.
fn make_section(
    level: u8,
    title: Option<Vec<char>>,
    content: Vec<char>,
    line_range: (usize, usize),
    code_blocks: Vec<CodeBlock>,
    slug: Option<Vec<char>>,
) -> (s: Section)
    ensures
        s@ == (SectionView {
            level,
            title: optc(title),
            content: content@,
            line_range,
            code_blocks: code_blocks@.map_values(|c: CodeBlock| c@),
            slug: optc(slug),
        }),
{
    let t = match title {
        Some(v) => Some(chars_to_string(&v)),
        None => None,
    };
    let sl = match slug {
        Some(v) => Some(chars_to_string(&v)),
        None => None,
    };
    Section {
        level,
        title: t,
        content: chars_to_string(&content),
        line_range,
        code_blocks,
        slug: sl,
    }
}

impl Parser {
    /// `Parser::extract_sections` over the characters of `content`, whose
    /// first line is numbered `1 + offset`.
    /// The flag tells whether the scan is defined (no heading line is sliced
    /// inside a character); the sections are those of the scan when it is.
    fn scan_sections(&self, content: &[char], offset: usize) -> (r: (Vec<Section>, bool))
        requires
            offset + content@.len() < usize::MAX,
        ensures
            r.1 == sections_defined(content@, offset as int, self.extract_code),
            r.1 ==> r.0@.map_values(|s: Section| s@) == sections_of(
                content@,
                offset as int,
                self.extract_code,
            ),
    {
        let lines = split_lines(content);
        let ghost ls = lines@.map_values(|l: Vec<char>| l@);
        let ghost ec = self.extract_code;
        proof {
            lemma_lines_len(content@);
        }
        let mut sections: Vec<Section> = Vec::new();
        let mut cur_level: u8 = 0;
        let mut cur_title: Option<Vec<char>> = None;
        let mut cur_content: Vec<char> = Vec::new();
        let mut cur_blocks: Vec<CodeBlock> = Vec::new();
        let mut cur_slug: Option<Vec<char>> = None;
        let mut in_code: bool = false;
        let mut code_start: usize = 0;
        let mut lang: Option<Vec<char>> = None;
        let mut code: Vec<char> = Vec::new();
        let mut line_num: usize = 1 + offset;
        let mut section_start: usize = 1 + offset;
        let mut i: usize = 0;
        let mut ok: bool = true;
        proof {
            assert(sections@.map_values(|s: Section| s@) =~= Seq::<SectionView>::empty());
            assert(cur_blocks@.map_values(|c: CodeBlock| c@) =~= Seq::<CodeBlockView>::empty());
        }
        while i < lines.len()
            invariant
                i <= lines@.len(),
                lines@.len() <= content@.len(),
                offset + content@.len() < usize::MAX,
                ls == lines@.map_values(|l: Vec<char>| l@),
                ls == lines_of(content@),
                ec == self.extract_code,
                ok == sections_fold(ls, i as int, offset as int, ec).ok,
                line_num == 1 + offset + i,
                ok ==> ({
                    let st = sections_fold(ls, i as int, offset as int, ec);
                    &&& sections@.map_values(|s: Section| s@) == st.sections
                    &&& cur_level == st.cur.level
                    &&& optc(cur_title) == st.cur.title
                    &&& cur_content@ == st.cur.content
                    &&& cur_blocks@.map_values(|c: CodeBlock| c@) == st.cur.code_blocks
                    &&& optc(cur_slug) == st.cur.slug
                    &&& in_code == st.in_code
                    &&& code_start == st.code_start
                    &&& optc(lang) == st.lang
                    &&& code@ == st.code
                    &&& line_num == st.line_num
                    &&& section_start == st.section_start
                }),
            decreases lines@.len() - i,
        {
            let ghost st = sections_fold(ls, i as int, offset as int, ec);
            proof {
                lemma_fold_line_num(ls, i as int, offset as int, ec);
                assert(sections_fold(ls, i + 1, offset as int, ec) == section_step(st, ls[i as int], ec));
            }
            let line = &lines[i];
            let fence_chars: Vec<char> = vec!['`', '`', '`'];
            proof {
                assert(fence_chars@ =~= fence());
            }
            if has_at_exec(line, 0, &fence_chars) {
                if in_code {
                    if self.extract_code {
                        let ghost old_blocks = cur_blocks@.map_values(|c: CodeBlock| c@);
                        let language = match lang {
                            Some(v) => Some(chars_to_string(&v)),
                            None => None,
                        };
                        let block = CodeBlock {
                            language,
                            code: chars_to_string(&code),
                            line_range: (code_start, line_num),
                        };
                        cur_blocks.push(block);
                        proof {
                            assert(cur_blocks@.map_values(|c: CodeBlock| c@) =~= old_blocks.push(
                                block@,
                            ));
                        }
                        lang = None;
                        code = Vec::new();
                    }
                    in_code = false;
                } else {
                    in_code = true;
                    code_start = line_num;
                    let after = sub_chars(line, 3, line.len());
                    proof {
                        assert(after@ =~= line@.skip(3));
                    }
                    lang = first_word_exec(&after);
                }
                line_num = line_num + 1;
            } else if in_code {
                if self.extract_code {
                    append_chars(&mut code, line);
                    code.push('\n');
                    proof {
                        if ok {
                            assert(code@ =~= st.code + line@.push('\n'));
                        }
                    }
                }
                line_num = line_num + 1;
            } else {
                let lvl = heading_level_exec(line);
                if lvl > 0 {
                    let blank = is_blank_exec(&cur_content);
                    if !blank {
                        let ghost old_s = sections@.map_values(|s: Section| s@);
                        let sec = make_section(
                            cur_level,
                            cur_title,
                            cur_content,
                            (section_start, line_num - 1),
                            cur_blocks,
                            cur_slug,
                        );
                        sections.push(sec);
                        proof {
                            if ok {
                                assert(sections@.map_values(|s: Section| s@) =~= old_s.push(sec@));
                            }
                        }
                    }
                    let k = match char_index_at_byte_checked(line, lvl) {
                        Some(k) => k,
                        None => {
                            ok = false;
                            0
                        },
                    };
                    let rest = sub_chars(line, k, line.len());
                    let title = trim_exec(&rest);
                    let slug = slugify_chars(&title);
                    section_start = line_num;
                    cur_level = lvl as u8;
                    cur_title = Some(title);
                    cur_content = Vec::new();
                    cur_blocks = Vec::new();
                    cur_slug = Some(slug);
                    proof {
                        assert(cur_blocks@.map_values(|c: CodeBlock| c@) =~= Seq::<CodeBlockView>::empty());
                        assert(cur_content@ =~= Seq::<char>::empty());
                    }
                } else {
                    if cur_content.len() > 0 {
                        cur_content.push('\n');
                    }
                    append_chars(&mut cur_content, line);
                    proof {
                        if ok {
                            assert(cur_content@ =~= append_line(st.cur.content, line@));
                        }
                    }
                }
                line_num = line_num + 1;
            }
            i = i + 1;
        }
        proof {
            lemma_fold_line_num(ls, i as int, offset as int, ec);
        }
        let blank = is_blank_exec(&cur_content);
        if !blank {
            let ghost old_s = sections@.map_values(|s: Section| s@);
            let sec = make_section(
                cur_level,
                cur_title,
                cur_content,
                (section_start, line_num - 1),
                cur_blocks,
                cur_slug,
            );
            sections.push(sec);
            proof {
                if ok {
                    assert(sections@.map_values(|s: Section| s@) =~= old_s.push(sec@));
                }
            }
        }
        (sections, ok)
    }
}

// ---------------------------------------------------------------------
// Links
// ---------------------------------------------------------------------

/// Index of the `close` that balances an already open `open`, scanning `s`
/// from `j` with `depth` unbalanced openers (`find_matching_bracket` and
/// `find_matching_paren`).
pub open spec fn match_close(s: Seq<char>, j: int, depth: int, open: char, close: char) -> Option<int>
    decreases s.len() - j,
{
    if j < 0 || j >= s.len() {
        None
    } else if s[j] == open {
        match_close(s, j + 1, depth + 1, open, close)
    } else if s[j] == close {
        if depth - 1 == 0 {
            Some(j)
        } else {
            match_close(s, j + 1, depth - 1, open, close)
        }
    } else {
        match_close(s, j + 1, depth, open, close)
    }
}

pub proof fn lemma_match_close_range(s: Seq<char>, j: int, depth: int, open: char, close: char)
    ensures
        match_close(s, j, depth, open, close) matches Some(k) ==> j <= k < s.len() && s[k] == close,
    decreases s.len() - j,
{
    if 0 <= j < s.len() {
        if s[j] == open {
            lemma_match_close_range(s, j + 1, depth + 1, open, close);
        } else if s[j] == close {
            if depth - 1 != 0 {
                lemma_match_close_range(s, j + 1, depth - 1, open, close);
            }
        } else {
            lemma_match_close_range(s, j + 1, depth, open, close);
        }
    }
}

/// `http`.
pub open spec fn http_prefix() -> Seq<char> {
    seq!['h', 't', 't', 'p']
}

/// `//`.
pub open spec fn slashes_prefix() -> Seq<char> {
    seq!['/', '/']
}

/// The link `[s[i+1..te]](s[te+2..tg])`.
pub open spec fn link_at(s: Seq<char>, i: int, te: int, tg: int) -> LinkView {
    let target = s.subrange(te + 2, tg);
    LinkView {
        text: s.subrange(i + 1, te),
        target,
        internal: !has_at(target, 0, http_prefix()) && !has_at(target, 0, slashes_prefix()),
    }
}

/// `LinkExtractor::extract` from position `i`: every `[text](target)` with
/// balanced brackets and parentheses, scanning on after each link found.
pub open spec fn links_from(s: Seq<char>, i: int) -> Seq<LinkView>
    decreases s.len() - i,
{
    if i < 0 || i >= s.len() {
        Seq::empty()
    } else if s[i] == '[' {
        proof {
            lemma_match_close_range(s, i + 1, 1, '[', ']');
        }
        match match_close(s, i + 1, 1, '[', ']') {
            Some(te) => if te + 1 < s.len() && s[te + 1] == '(' {
                proof {
                    lemma_match_close_range(s, te + 2, 1, '(', ')');
                }
                match match_close(s, te + 2, 1, '(', ')') {
                    Some(tg) => seq![link_at(s, i, te, tg)] + links_from(s, tg + 1),
                    None => links_from(s, i + 1),
                }
            } else {
                links_from(s, i + 1)
            },
            None => links_from(s, i + 1),
        }
    } else {
        links_from(s, i + 1)
    }
}

/// The links of `s`.
pub open spec fn links_of(s: Seq<char>) -> Seq<LinkView> {
    links_from(s, 0)
}

/// `find_matching_bracket` / `find_matching_paren` from the opener at `start`.
fn find_matching_char(chars: &[char], start: usize, open: char, close: char) -> (r: Option<usize>)
    requires
        start < chars@.len(),
    ensures
        r matches Some(k) ==> match_close(chars@, start + 1, 1, open, close) == Some(k as int),
        r is None ==> match_close(chars@, start + 1, 1, open, close) is None,
{
    let n: usize = chars.len();
    let mut depth: usize = 1;
    let mut j: usize = start + 1;
    while j < chars.len()
        invariant
            start + 1 <= j <= chars@.len(),
            1 <= depth <= j - start,
            match_close(chars@, start + 1, 1, open, close) == match_close(
                chars@,
                j as int,
                depth as int,
                open,
                close,
            ),
        decreases chars@.len() - j,
    {
        let c = chars[j];
        if c == open {
            depth = depth + 1;
        } else if c == close {
            if depth == 1 {
                return Some(j);
            }
            depth = depth - 1;
        }
        j = j + 1;
    }
    None
}

/// The link view of a built link.
fn make_link(text: Vec<char>, target: Vec<char>) -> (l: Link)
    ensures
        l@ == (LinkView {
            text: text@,
            target: target@,
            internal: !has_at(target@, 0, http_prefix()) && !has_at(target@, 0, slashes_prefix()),
        }),
{
    let http: Vec<char> = vec!['h', 't', 't', 'p'];
    let slashes: Vec<char> = vec!['/', '/'];
    proof {
        assert(http@ =~= http_prefix());
        assert(slashes@ =~= slashes_prefix());
    }
    let internal = !has_at_exec(&target, 0, &http) && !has_at_exec(&target, 0, &slashes);
    Link { text: chars_to_string(&text), target: chars_to_string(&target), internal }
}

/// `LinkExtractor::extract`: the `[text](target)` links of `chars`.
fn links_of_chars(chars: &[char]) -> (r: Vec<Link>)
    ensures
        r@.map_values(|l: Link| l@) == links_of(chars@),
{
    let mut links: Vec<Link> = Vec::new();
    let mut i: usize = 0;
    proof {
        assert(links@.map_values(|l: Link| l@) + links_from(chars@, 0) =~= links_of(chars@));
    }
    while i < chars.len()
        invariant
            i <= chars@.len(),
            links@.map_values(|l: Link| l@) + links_from(chars@, i as int) == links_of(chars@),
        decreases chars@.len() - i,
    {
        let ghost old_l = links@.map_values(|l: Link| l@);
        if chars[i] == '[' {
            proof {
                lemma_match_close_range(chars@, i + 1, 1, '[', ']');
            }
            match LinkExtractor.find_matching_bracket(chars, i) {
                Some(te) => {
                    if te + 1 < chars.len() && chars[te + 1] == '(' {
                        proof {
                            lemma_match_close_range(chars@, te + 2, 1, '(', ')');
                        }
                        match LinkExtractor.find_matching_paren(chars, te + 1) {
                            Some(tg) => {
                                let text = sub_chars(chars, i + 1, te);
                                let target = sub_chars(chars, te + 2, tg);
                                let link = make_link(text, target);
                                links.push(link);
                                proof {
                                    assert(link@ == link_at(chars@, i as int, te as int, tg as int));
                                    assert(links@.map_values(|l: Link| l@) =~= old_l.push(link@));
                                    assert(old_l.push(link@) + links_from(chars@, tg + 1) =~= old_l + (
                                    seq![link@] + links_from(chars@, tg + 1)));
                                }
                                i = tg + 1;
                                continue ;
                            },
                            None => {},
                        }
                    }
                },
                None => {},
            }
        }
        i = i + 1;
    }
    proof {
        assert(links@.map_values(|l: Link| l@) + Seq::<LinkView>::empty() =~= links@.map_values(
            |l: Link| l@,
        ));
    }
    links
}

// ---------------------------------------------------------------------
// Plain text (pulldown-cmark) and content hash (std)
// ---------------------------------------------------------------------

/// For each event that `pulldown_cmark::Parser::new_ext(content,
/// Options::empty())` yields: the text of a `Text` event, `None` for any
/// other event.
pub uninterp spec fn markdown_text_events(content: Seq<char>) -> Seq<Option<Seq<char>>>;

/// What `DefaultHasher::new()` gives for `content.hash(..)` followed by
/// `finish()`.
pub uninterp spec fn content_hash(content: Seq<char>) -> u64;

/// `pulldown_cmark::Parser::new_ext` with no options, each event mapped to
/// the text it carries when it is `Event::Text`, else `None`. The contract
/// names the result `markdown_text_events` of the content; what the events
/// are is left to pulldown-cmark.
#[verifier::external_body]
fn markdown_events(content: &str) -> (r: Vec<Option<String>>)
    ensures
        r@.map_values(|e: Option<String>| opt_view(e)) == markdown_text_events(content@),
{
    pulldown_cmark::Parser::new_ext(content, pulldown_cmark::Options::empty()).map(
        |e| match e {
            pulldown_cmark::Event::Text(t) => Some(t.to_string()),
            _ => None,
        },
    ).collect()
}

/// `std::hash::Hash` of a `str` fed to a fresh `DefaultHasher`, then
/// `Hasher::finish`. Every `DefaultHasher::new()` starts from the same
/// keys, so the result is named `content_hash` of the content.
#[verifier::external_body]
fn hash_str(content: &str) -> (h: u64)
    ensures
        h == content_hash(content@),
{
    let mut hasher = std::collections::hash_map::DefaultHasher::new();
    std::hash::Hash::hash(content, &mut hasher);
    std::hash::Hasher::finish(&hasher)
}

/// The texts of the `Text` events, each followed by a space.
pub open spec fn join_texts(events: Seq<Option<Seq<char>>>) -> Seq<char>
    decreases events.len(),
{
    if events.len() == 0 {
        Seq::empty()
    } else {
        let prev = join_texts(events.drop_last());
        match events.last() {
            Some(t) => prev + t.push(' '),
            None => prev,
        }
    }
}

/// `Parser::extract_text`: the text of a markdown document.
pub open spec fn markdown_text(content: Seq<char>) -> Seq<char> {
    join_texts(markdown_text_events(content))
}

/// `Parser::extract_text`.
fn text_of_markdown(content: &str) -> (r: String)
    ensures
        r@ == markdown_text(content@),
{
    let events = markdown_events(content);
    let ghost evs = events@.map_values(|e: Option<String>| opt_view(e));
    let mut text: Vec<char> = Vec::new();
    let mut i: usize = 0;
    proof {
        assert(evs.subrange(0, 0) =~= Seq::<Option<Seq<char>>>::empty());
    }
    while i < events.len()
        invariant
            i <= events@.len(),
            evs == events@.map_values(|e: Option<String>| opt_view(e)),
            text@ == join_texts(evs.subrange(0, i as int)),
        decreases events@.len() - i,
    {
        proof {
            assert(evs.subrange(0, i + 1).drop_last() =~= evs.subrange(0, i as int));
        }
        match &events[i] {
            Some(t) => {
                let tc = to_chars(t.as_str());
                append_chars(&mut text, &tc);
                text.push(' ');
                proof {
                    assert(text@ =~= join_texts(evs.subrange(0, i as int)) + t@.push(' '));
                }
            },
            None => {},
        }
        i = i + 1;
    }
    proof {
        assert(evs.subrange(0, events@.len() as int) =~= evs);
    }
    chars_to_string(&text)
}

// ---------------------------------------------------------------------
// The parser
// ---------------------------------------------------------------------

/// Frontmatter and body start for a parser's settings.
pub open spec fn split_for(p: Parser, content: Seq<char>) -> (Option<FrontmatterView>, nat) {
    if p.parse_frontmatter {
        frontmatter_split(content)
    } else {
        (None, 0)
    }
}

/// The body of `content`: what follows the frontmatter's byte offset.
pub open spec fn body_of(p: Parser, content: Seq<char>) -> Seq<char> {
    suffix_at_byte(content, split_for(p, content).1 as int)
}

/// Number of line breaks in `s`.
pub open spec fn newline_count(s: Seq<char>) -> nat
    decreases s.len(),
{
    if s.len() == 0 {
        0
    } else {
        newline_count(s.drop_last()) + if s.last() == '\n' {
            1nat
        } else {
            0nat
        }
    }
}

/// Number of lines of `content` before its body (the lines that the
/// frontmatter takes), so that the body's first line is line
/// `1 + body_line_offset` of the file.
pub open spec fn body_line_offset(p: Parser, content: Seq<char>) -> nat {
    newline_count(content.subrange(0, char_index_at(content, split_for(p, content).1 as int)))
}

/// `Parser::parse` neither slices `content` inside a character at the
/// frontmatter's end (the offset is counted in the trimmed content but
/// applied to the whole of it) nor a heading line inside a character.
pub open spec fn parse_defined(p: Parser, content: Seq<char>) -> bool {
    let start = split_for(p, content).1;
    &&& is_char_boundary(content, start as int)
    &&& sections_defined(body_of(p, content), body_line_offset(p, content) as int, p.extract_code)
}

/// The line breaks among the first `k` characters of `v`.
fn count_newlines(v: &[char], k: usize) -> (n: usize)
    requires
        k <= v@.len(),
    ensures
        n == newline_count(v@.subrange(0, k as int)),
        n <= k,
{
    let mut n: usize = 0;
    let mut i: usize = 0;
    proof {
        assert(v@.subrange(0, 0) =~= Seq::<char>::empty());
    }
    while i < k
        invariant
            i <= k <= v@.len(),
            n == newline_count(v@.subrange(0, i as int)),
            n <= i,
        decreases k - i,
    {
        proof {
            assert(v@.subrange(0, i + 1).drop_last() =~= v@.subrange(0, i as int));
        }
        if v[i] == '\n' {
            n = n + 1;
        }
        i = i + 1;
    }
    n
}

/// `Parser::parse`: the document that `content`, read from `path` and last
/// modified at `modified`, parses to.
pub open spec fn parse_spec(p: Parser, path: Seq<char>, content: Seq<char>, modified: Option<u64>) -> DocumentView {
    let start = split_for(p, content).1;
    let body = body_of(p, content);
    DocumentView {
        path,
        hash: content_hash(content),
        sections: sections_of(body, body_line_offset(p, content) as int, p.extract_code),
        frontmatter: split_for(p, content).0,
        text: markdown_text(body),
        links: if p.extract_links {
            links_of(body)
        } else {
            Seq::empty()
        },
        modified,
    }
}

impl Default for Parser {
    fn default() -> (p: Self)
        ensures
            p.extract_code && p.extract_links && p.parse_frontmatter,
    {
        Parser { extract_code: true, extract_links: true, parse_frontmatter: true }
    }
}

impl Parser {
    /// Create a new parser.
    pub fn new() -> (p: Self)
        ensures
            p.extract_code && p.extract_links && p.parse_frontmatter,
    {
        Parser::default()
    }

    /// Whether `parse` is defined on `content` (it would otherwise slice a
    /// string inside a character).
    pub fn can_parse(&self, content: &str) -> (b: bool)
        ensures
            b == parse_defined(*self, content@),
    {
        let n = str_byte_len(content);
        let chars = to_chars(content);
        let start: usize = if self.parse_frontmatter {
            frontmatter_of_chars(&chars).1
        } else {
            0
        };
        match char_index_at_byte_checked(&chars, start) {
            Some(k) => {
                let body = sub_chars(&chars, k, chars.len());
                proof {
                    lemma_byte_len_prefix(chars@, k as int, chars@.len() as int);
                    lemma_byte_len_prefix(chars@, 0, k as int);
                    assert(chars@.subrange(0, chars@.len() as int) =~= chars@);
                    assert(chars@.subrange(0, 0) =~= Seq::<char>::empty());
                }
                let lines_before = count_newlines(&chars, k);
                self.scan_sections(&body, lines_before).1
            },
            None => false,
        }
    }

    /// Parse markdown `content` read from `path`, whose file was last
    /// modified at `modified` (seconds since the Unix epoch).
    pub fn parse(&self, path: &str, content: &str, modified: Option<u64>) -> (r: Result<Document, Error>)
        requires
            parse_defined(*self, content@),
        ensures
            r matches Ok(d) && d@ == parse_spec(*self, path@, content@, modified),
    {
        let n = str_byte_len(content);
        let hash = self.hash_content(content);
        let chars = to_chars(content);
        let (frontmatter, start) = if self.parse_frontmatter {
            frontmatter_of_chars(&chars)
        } else {
            (None, 0)
        };
        let k = char_index_for_byte(&chars, start);
        let body = sub_chars(&chars, k, chars.len());
        proof {
            lemma_byte_len_prefix(chars@, k as int, chars@.len() as int);
            lemma_byte_len_split(chars@, k as int);
            lemma_byte_len_prefix(body@, body@.len() as int, body@.len() as int);
            assert(body@.subrange(0, body@.len() as int) =~= body@);
            assert(chars@.subrange(0, chars@.len() as int) =~= chars@);
            lemma_byte_len_prefix(body@, 0, body@.len() as int);
        }
        let lines_before = count_newlines(&chars, k);
        proof {
            lemma_byte_len_prefix(chars@, 0, chars@.len() as int);
            assert(chars@.subrange(0, 0) =~= Seq::<char>::empty());
            assert(lines_before + body@.len() <= chars@.len());
        }
        let sections = self.scan_sections(&body, lines_before).0;
        let links = if self.extract_links {
            links_of_chars(&body)
        } else {
            Vec::new()
        };
        let body_str = chars_to_string(&body);
        let text = text_of_markdown(body_str.as_str());
        let doc = Document {
            path: path.to_owned(),
            hash,
            sections,
            frontmatter,
            text,
            links,
            modified,
        };
        proof {
            if !self.extract_links {
                assert(links@.map_values(|l: Link| l@) =~= Seq::<LinkView>::empty());
            }
        }
        Ok(doc)
    }
}

/// Extracts `[text](target)` links.
pub struct LinkExtractor;

impl LinkExtractor {
    /// The `[text](target)` links of `content`.
    pub fn extract(&self, content: &str) -> (r: Vec<Link>)
        ensures
            r@.map_values(|l: Link| l@) == links_of(content@),
    {
        let chars = to_chars(content);
        links_of_chars(&chars)
    }

    /// Index of the `]` that closes the `[` at `start`.
    pub fn find_matching_bracket(&self, chars: &[char], start: usize) -> (r: Option<usize>)
        requires
            start < chars@.len(),
        ensures
            r matches Some(k) ==> match_close(chars@, start + 1, 1, '[', ']') == Some(k as int),
            r is None ==> match_close(chars@, start + 1, 1, '[', ']') is None,
    {
        find_matching_char(chars, start, '[', ']')
    }

    /// Index of the `)` that closes the `(` at `start`.
    pub fn find_matching_paren(&self, chars: &[char], start: usize) -> (r: Option<usize>)
        requires
            start < chars@.len(),
        ensures
            r matches Some(k) ==> match_close(chars@, start + 1, 1, '(', ')') == Some(k as int),
            r is None ==> match_close(chars@, start + 1, 1, '(', ')') is None,
    {
        find_matching_char(chars, start, '(', ')')
    }
}

impl Parser {
    /// `DefaultHasher` hash of the content.
    pub fn hash_content(&self, content: &str) -> (h: u64)
        ensures
            h == content_hash(content@),
    {
        hash_str(content)
    }

    /// Frontmatter at the start of `content` (after whitespace) and the byte
    /// offset, counted in the trimmed content, where the body starts.
    pub fn extract_frontmatter(&self, content: &str) -> (r: (Option<Frontmatter>, usize))
        ensures
            (match r.0 {
                Some(f) => Some(f@),
                None => None,
            }) == frontmatter_split(content@).0,
            r.1 == frontmatter_split(content@).1,
    {
        let n = str_byte_len(content);
        let chars = to_chars(content);
        frontmatter_of_chars(&chars)
    }

    /// The `key: value` fields of YAML frontmatter.
    pub fn parse_yaml_frontmatter(&self, content: &str) -> (r: Vec<(String, String)>)
        ensures
            pairs_view(r@) == fields_of(lines_of(content@), ':'),
    {
        let chars = to_chars(content);
        yaml_fields(&chars)
    }

    /// The `key = value` fields of TOML frontmatter.
    pub fn parse_toml_frontmatter(&self, content: &str) -> (r: Vec<(String, String)>)
        ensures
            pairs_view(r@) == fields_of(lines_of(content@), '='),
    {
        let chars = to_chars(content);
        toml_fields(&chars)
    }

    /// The sections of `content`, whose first line is numbered
    /// `1 + offset`.
    pub fn extract_sections(&self, content: &str, offset: usize) -> (r: Vec<Section>)
        requires
            offset + content@.len() < usize::MAX,
            sections_defined(content@, offset as int, self.extract_code),
        ensures
            r@.map_values(|s: Section| s@) == sections_of(content@, offset as int, self.extract_code),
    {
        let chars = to_chars(content);
        self.scan_sections(&chars, offset).0
    }

    /// Heading level of `line` (1 to 6), or 0 when it is no heading.
    pub fn get_heading_level(&self, line: &str) -> (n: usize)
        ensures
            n == heading_level(line@),
    {
        let chars = to_chars(line);
        heading_level_exec(&chars)
    }

    /// URL-style slug of `text`.
    pub fn slugify(&self, text: &str) -> (r: String)
        ensures
            r@ == slugify(text@),
    {
        let chars = to_chars(text);
        let slug = slugify_chars(&chars);
        chars_to_string(&slug)
    }

    /// The `[text](target)` links of `content`.
    pub fn extract_links_from_content(&self, content: &str) -> (r: Vec<Link>)
        ensures
            r@.map_values(|l: Link| l@) == links_of(content@),
    {
        LinkExtractor.extract(content)
    }

    /// The plain text of markdown `content`: the text of each text event,
    /// followed by a space.
    pub fn extract_text(&self, content: &str) -> (r: String)
        ensures
            r@ == markdown_text(content@),
    {
        text_of_markdown(content)
    }
}

// ---------------------------------------------------------------------
// Laws
// ---------------------------------------------------------------------

/// The key that a frontmatter line names, if any.
pub open spec fn line_key(line: Seq<char>, sep: char) -> Option<Seq<char>> {
    match field_of_line(line, sep) {
        Some(kv) => Some(kv.0),
        None => None,
    }
}

/// No line after line `k` names the key of line `k`.
pub open spec fn last_for_key(lines: Seq<Seq<char>>, k: int, sep: char) -> bool {
    forall|m: int| k < m < lines.len() ==> #[trigger] line_key(lines[m], sep) != line_key(lines[k], sep)
}

/// Frontmatter fields name each key once, and no key is empty; a later
/// line with the same key replaces the earlier value, so the value of a
/// key is that of the last line that names it.
pub proof fn law_fields_unique(lines: Seq<Seq<char>>, sep: char)
    ensures
        forall|a: int, b: int|
            0 <= a < b < fields_of(lines, sep).len() ==> #[trigger] fields_of(lines, sep)[a].0
                != #[trigger] fields_of(lines, sep)[b].0,
        forall|j: int| 0 <= j < fields_of(lines, sep).len() ==> #[trigger] fields_of(lines, sep)[j].0.len() > 0,
        forall|k: int|
            0 <= k < lines.len() && field_of_line(lines[k], sep) is Some && #[trigger] last_for_key(lines, k, sep)
                ==> fields_of(lines, sep).contains(field_of_line(lines[k], sep).unwrap()),
    decreases lines.len(),
{
    if lines.len() > 0 {
        let init = lines.drop_last();
        law_fields_unique(init, sep);
        let prev = fields_of(init, sep);
        let f = fields_of(lines, sep);
        match field_of_line(lines.last(), sep) {
            Some(kv) => {
                lemma_key_position(prev, kv.0);
                let i = key_position(prev, kv.0);
                assert forall|a: int, b: int| 0 <= a < b < f.len() implies #[trigger] f[a].0 != #[trigger] f[b].0 by {
                    if i < prev.len() {
                        if a == i {
                            assert(f[b] == prev[b]);
                        } else if b == i {
                            assert(f[a] == prev[a]);
                        } else {
                            assert(f[a] == prev[a] && f[b] == prev[b]);
                        }
                    } else if b < prev.len() {
                        assert(f[a] == prev[a] && f[b] == prev[b]);
                    } else {
                        assert(f[a] == prev[a]);
                    }
                }
                assert forall|j: int| 0 <= j < f.len() implies #[trigger] f[j].0.len() > 0 by {
                    if j != i && j < prev.len() {
                        assert(f[j] == prev[j]);
                    }
                }
                assert forall|k: int|
                    0 <= k < lines.len() && field_of_line(lines[k], sep) is Some && #[trigger] last_for_key(
                        lines,
                        k,
                        sep,
                    ) implies f.contains(field_of_line(lines[k], sep).unwrap()) by {
                    let kv1 = field_of_line(lines[k], sep).unwrap();
                    if k == lines.len() - 1 {
                        if i < prev.len() {
                            assert(f[i] == kv1);
                        } else {
                            assert(f[prev.len() as int] == kv1);
                        }
                    } else {
                        assert(lines[k] == init[k]);
                        assert forall|m: int| k < m < init.len() implies #[trigger] line_key(init[m], sep)
                            != line_key(init[k], sep) by {
                            assert(init[m] == lines[m]);
                        }
                        assert(last_for_key(init, k, sep));
                        assert(prev.contains(kv1));
                        let w = choose|w: int| 0 <= w < prev.len() && prev[w] == kv1;
                        assert(line_key(lines[lines.len() - 1], sep) != line_key(lines[k], sep));
                        assert(kv.0 != kv1.0);
                        if i < prev.len() {
                            assert(w != i);
                            assert(f[w] == kv1);
                        } else {
                            assert(f[w] == kv1);
                        }
                    }
                }
            },
            None => {
                assert forall|k: int|
                    0 <= k < lines.len() && field_of_line(lines[k], sep) is Some && #[trigger] last_for_key(
                        lines,
                        k,
                        sep,
                    ) implies f.contains(field_of_line(lines[k], sep).unwrap()) by {
                    if k < lines.len() - 1 {
                        assert(lines[k] == init[k]);
                        assert forall|m: int| k < m < init.len() implies #[trigger] line_key(init[m], sep)
                            != line_key(init[k], sep) by {
                            assert(init[m] == lines[m]);
                        }
                        assert(last_for_key(init, k, sep));
                    } else {
                        assert(field_of_line(lines.last(), sep) is None);
                    }
                }
            },
        }
    }
}

/// A section's level and anchor go with its title: a heading section has
/// a level from 1 to 6 and the slug of its title as anchor; an untitled
/// section has level 0 and no anchor.
pub open spec fn heading_labels_ok(sec: SectionView) -> bool {
    &&& sec.level <= 6
    &&& (sec.level == 0 <==> sec.title is None)
    &&& sec.slug == match sec.title {
        Some(t) => Some(slugify(t)),
        None => None,
    }
}

/// Sections whose content is not blank and whose levels and anchors go
/// with their titles.
pub open spec fn sections_ok(ss: Seq<SectionView>) -> bool {
    forall|j: int| 0 <= j < ss.len() ==> !is_blank(#[trigger] ss[j].content) && heading_labels_ok(ss[j])
}

proof fn lemma_flush_keeps(st: SectionState)
    requires
        heading_labels_ok(st.cur),
        sections_ok(st.sections),
    ensures
        sections_ok(flush(st)),
{
    assert forall|j: int| 0 <= j < flush(st).len() implies !is_blank(#[trigger] flush(st)[j].content)
        && heading_labels_ok(flush(st)[j]) by {
        if j < st.sections.len() {
            assert(flush(st)[j] == st.sections[j]);
        }
    }
}

proof fn lemma_step_invariant(st: SectionState, line: Seq<char>, extract_code: bool)
    requires
        heading_labels_ok(st.cur),
        sections_ok(st.sections),
    ensures
        heading_labels_ok(section_step(st, line, extract_code).cur),
        sections_ok(section_step(st, line, extract_code).sections),
{
    let next = section_step(st, line, extract_code);
    if !has_at(line, 0, fence()) && !st.in_code && heading_level(line) > 0 {
        assert(next.cur.level == heading_level(line) as u8);
        assert(heading_level(line) <= 6);
        lemma_flush_keeps(st);
        assert(next.sections == flush(st));
    } else {
        assert(next.sections == st.sections);
        assert(next.cur.title == st.cur.title && next.cur.slug == st.cur.slug
            && next.cur.level == st.cur.level);
    }
}

proof fn lemma_scan_invariant(lines: Seq<Seq<char>>, n: int, offset: int, extract_code: bool)
    requires
        0 <= n <= lines.len(),
    ensures
        heading_labels_ok(sections_fold(lines, n, offset, extract_code).cur),
        sections_ok(sections_fold(lines, n, offset, extract_code).sections),
    decreases n,
{
    if n > 0 {
        lemma_scan_invariant(lines, n - 1, offset, extract_code);
        lemma_step_invariant(sections_fold(lines, n - 1, offset, extract_code), lines[n - 1], extract_code);
    }
}

/// Every section that the parser returns has content that is not blank;
/// a heading section has a level from 1 to 6 and the slug of its title as
/// anchor, an untitled section level 0 and no anchor.
pub proof fn law_sections_well_formed(content: Seq<char>, offset: int, extract_code: bool)
    ensures
        forall|j: int|
            0 <= j < sections_of(content, offset, extract_code).len() ==> !is_blank(
                #[trigger] sections_of(content, offset, extract_code)[j].content,
            ) && heading_labels_ok(sections_of(content, offset, extract_code)[j]),
{
    let lines = lines_of(content);
    lemma_scan_invariant(lines, lines.len() as int, offset, extract_code);
    lemma_flush_keeps(sections_scan(content, offset, extract_code));
}

/// Number of the first `n` lines that are code fences (start with ```` ``` ````).
pub open spec fn fence_count(lines: Seq<Seq<char>>, n: int) -> nat
    decreases n,
{
    if n <= 0 {
        0
    } else {
        fence_count(lines, n - 1) + if has_at(lines[n - 1], 0, seq!['`', '`', '`']) {
            1nat
        } else {
            0nat
        }
    }
}

/// Line `k` is prose: it is no fence, lies outside every fenced code block
/// (an even number of fences comes before it), and is no heading.
pub open spec fn is_prose_line(lines: Seq<Seq<char>>, k: int) -> bool {
    &&& !has_at(lines[k], 0, seq!['`', '`', '`'])
    &&& fence_count(lines, k) % 2 == 0
    &&& heading_level(lines[k]) == 0
}

/// The prose lines among lines `a .. b`, one after the other, each
/// separated from what comes before it by a newline.
pub open spec fn prose_between(lines: Seq<Seq<char>>, a: int, b: int) -> Seq<char>
    decreases b - a,
{
    if b <= a {
        Seq::empty()
    } else {
        let prev = prose_between(lines, a, b - 1);
        if is_prose_line(lines, b - 1) {
            if prev.len() > 0 {
                prev.push('\n') + lines[b - 1]
            } else {
                lines[b - 1]
            }
        } else {
            prev
        }
    }
}

/// Index of the first line whose prose a section holds: the line after its
/// heading, or the first line for the untitled section before any heading.
pub open spec fn first_content_line(sec: SectionView, offset: int) -> int {
    if sec.title is Some {
        sec.line_range.0 - offset
    } else {
        sec.line_range.0 - offset - 1
    }
}

proof fn lemma_prose_invariant(lines: Seq<Seq<char>>, n: int, offset: int, extract_code: bool)
    requires
        0 <= n <= lines.len(),
        0 <= offset,
        offset + lines.len() + 1 <= usize::MAX,
    ensures
        sections_fold(lines, n, offset, extract_code).in_code == (fence_count(lines, n) % 2 == 1),
        sections_fold(lines, n, offset, extract_code).cur.title is None ==> sections_fold(
            lines,
            n,
            offset,
            extract_code,
        ).section_start == 1 + offset,
        sections_fold(lines, n, offset, extract_code).cur.title is Some ==> sections_fold(
            lines,
            n,
            offset,
            extract_code,
        ).section_start <= offset + n,
        sections_fold(lines, n, offset, extract_code).cur.content == prose_between(
            lines,
            if sections_fold(lines, n, offset, extract_code).cur.title is Some {
                sections_fold(lines, n, offset, extract_code).section_start - offset
            } else {
                0
            },
            n,
        ),
        forall|j: int|
            0 <= j < sections_fold(lines, n, offset, extract_code).sections.len() ==> (
            #[trigger] sections_fold(lines, n, offset, extract_code).sections[j]).content
                == prose_between(
                lines,
                first_content_line(sections_fold(lines, n, offset, extract_code).sections[j], offset),
                sections_fold(lines, n, offset, extract_code).sections[j].line_range.1 - offset,
            ),
    decreases n,
{
    lemma_fold_line_num(lines, n, offset, extract_code);
    if n > 0 {
        let i = n - 1;
        lemma_prose_invariant(lines, i, offset, extract_code);
        lemma_fold_line_num(lines, i, offset, extract_code);
        let st = sections_fold(lines, i, offset, extract_code);
        let line = lines[i];
        let next = sections_fold(lines, n, offset, extract_code);
        assert(fence() =~= seq!['`', '`', '`']);
        let a = if st.cur.title is Some {
            st.section_start - offset
        } else {
            0
        };
        if st.cur.title is Some {
            assert(st.section_start - offset <= i);
        }
        if !has_at(line, 0, fence()) && !st.in_code && heading_level(line) > 0 {
            assert(next.sections == flush(st));
            assert(prose_between(lines, n, n) == Seq::<char>::empty());
            assert forall|j: int| 0 <= j < next.sections.len() implies (#[trigger] next.sections[j]).content
                == prose_between(lines, first_content_line(next.sections[j], offset), next.sections[j].line_range.1 - offset) by {
                if j < st.sections.len() {
                    assert(next.sections[j] == st.sections[j]);
                } else {
                    assert(next.sections[j] == closed_section(st));
                }
            }
        } else {
            assert(next.sections == st.sections);
            assert(next.cur.title == st.cur.title);
            assert(next.section_start == st.section_start);
            assert(prose_between(lines, a, n) == (if is_prose_line(lines, i) {
                append_line(prose_between(lines, a, i), line)
            } else {
                prose_between(lines, a, i)
            }));
        }
    }
}

/// A section's content is its prose and nothing else: the lines from the
/// one after its heading (from the first line for the untitled section
/// before any heading) up to its last line that are no fence, lie outside
/// fenced code blocks and are no heading, joined by newlines. So no line
/// inside a fenced code block is ever part of a section's content.
pub proof fn law_section_content_is_prose(content: Seq<char>, offset: int, extract_code: bool)
    requires
        0 <= offset,
        offset + content.len() + 2 <= usize::MAX,
    ensures
        forall|j: int|
            0 <= j < sections_of(content, offset, extract_code).len() ==> (
            #[trigger] sections_of(content, offset, extract_code)[j]).content == prose_between(
                lines_of(content),
                first_content_line(sections_of(content, offset, extract_code)[j], offset),
                sections_of(content, offset, extract_code)[j].line_range.1 - offset,
            ),
{
    let lines = lines_of(content);
    lemma_lines_len(content);
    lemma_prose_invariant(lines, lines.len() as int, offset, extract_code);
    lemma_fold_line_num(lines, lines.len() as int, offset, extract_code);
    let st = sections_scan(content, offset, extract_code);
    let out = sections_of(content, offset, extract_code);
    assert forall|j: int| 0 <= j < out.len() implies (#[trigger] out[j]).content == prose_between(
        lines,
        first_content_line(out[j], offset),
        out[j].line_range.1 - offset,
    ) by {
        if j < st.sections.len() {
            assert(out[j] == st.sections[j]);
        } else {
            assert(out[j] == closed_section(st));
        }
    }
}

/// `http`, the start of a web address.
pub open spec fn web_prefix() -> Seq<char> {
    seq!['h', 't', 't', 'p']
}

/// `//`, the start of a scheme-relative address.
pub open spec fn network_prefix() -> Seq<char> {
    seq!['/', '/']
}

/// `t` starts with `p`.
pub open spec fn starts_with(t: Seq<char>, p: Seq<char>) -> bool {
    p.len() <= t.len() && t.take(p.len() as int) == p
}

/// A link as it is written in the text: `[`, its text, `](`, its target,
/// `)`.
pub open spec fn written_link(l: LinkView) -> Seq<char> {
    seq!['['] + l.text + seq![']', '('] + l.target + seq![')']
}

/// What every link of `ls` satisfies, found in `s` from `i` on.
pub open spec fn links_classified_from(s: Seq<char>, i: int, ls: Seq<LinkView>) -> bool {
    forall|j: int|
        #![trigger ls[j]]
        0 <= j < ls.len() ==> {
            &&& ls[j].internal == (!starts_with(ls[j].target, web_prefix())
                && !starts_with(ls[j].target, network_prefix()))
            &&& exists|at: int| i <= at && #[trigger] has_at(s, at, written_link(ls[j]))
        }
}

proof fn lemma_links_from_skip(s: Seq<char>, i: int)
    requires
        links_classified_from(s, i + 1, links_from(s, i + 1)),
        links_from(s, i) == links_from(s, i + 1),
    ensures
        links_classified_from(s, i, links_from(s, i)),
{
    let ls = links_from(s, i);
    assert forall|j: int| #![trigger ls[j]] 0 <= j < ls.len() implies {
        &&& ls[j].internal == (!starts_with(ls[j].target, web_prefix())
            && !starts_with(ls[j].target, network_prefix()))
        &&& exists|at: int| i <= at && #[trigger] has_at(s, at, written_link(ls[j]))
    } by {
        let at = choose|at: int| i + 1 <= at && #[trigger] has_at(s, at, written_link(ls[j]));
        assert(i <= at && has_at(s, at, written_link(ls[j])));
    }
}

proof fn lemma_links_from_props(s: Seq<char>, i: int)
    ensures
        links_classified_from(s, i, links_from(s, i)),
    decreases s.len() - i,
{
    if 0 <= i < s.len() {
        if s[i] == '[' {
            lemma_match_close_range(s, i + 1, 1, '[', ']');
            match match_close(s, i + 1, 1, '[', ']') {
                Some(te) => {
                    if te + 1 < s.len() && s[te + 1] == '(' {
                        lemma_match_close_range(s, te + 2, 1, '(', ')');
                        match match_close(s, te + 2, 1, '(', ')') {
                            Some(tg) => {
                                lemma_links_from_props(s, tg + 1);
                                let l = link_at(s, i, te, tg);
                                let rest = links_from(s, tg + 1);
                                let all = links_from(s, i);
                                assert(all == seq![l] + rest);
                                assert(s.subrange(i, tg + 1) =~= written_link(l));
                                assert(has_at(s, i, written_link(l)));
                                assert(http_prefix() =~= web_prefix());
                                assert(slashes_prefix() =~= network_prefix());
                                if l.target.len() >= 4 {
                                    assert(l.target.subrange(0, 4) =~= l.target.take(4));
                                }
                                if l.target.len() >= 2 {
                                    assert(l.target.subrange(0, 2) =~= l.target.take(2));
                                }
                                assert forall|j: int| #![trigger all[j]] 0 <= j < all.len() implies {
                                    &&& all[j].internal == (!starts_with(
                                        all[j].target,
                                        web_prefix(),
                                    ) && !starts_with(all[j].target, network_prefix()))
                                    &&& exists|at: int| i <= at && #[trigger] has_at(s, at, written_link(all[j]))
                                } by {
                                    if j == 0 {
                                        assert(all[j] == l);
                                        assert(i <= i && has_at(s, i, written_link(all[j])));
                                    } else {
                                        assert(all[j] == rest[j - 1]);
                                        let at = choose|at: int|
                                            tg + 1 <= at && #[trigger] has_at(s, at, written_link(rest[j - 1]));
                                        assert(i <= at && has_at(s, at, written_link(all[j])));
                                    }
                                }
                                assert(links_classified_from(s, i, all));
                            },
                            None => {
                                lemma_links_from_props(s, i + 1);
                                lemma_links_from_skip(s, i);
                            },
                        }
                    } else {
                        lemma_links_from_props(s, i + 1);
                        lemma_links_from_skip(s, i);
                    }
                },
                None => {
                    lemma_links_from_props(s, i + 1);
                    lemma_links_from_skip(s, i);
                },
            }
        } else {
            lemma_links_from_props(s, i + 1);
            lemma_links_from_skip(s, i);
        }
    } else {
        assert(links_from(s, i).len() == 0);
    }
}

/// Every link found is written in the text as `[text](target)`, and it is
/// internal exactly when its target starts neither with `http` nor with
/// `//` (`links_classified_from` with the whole text).
pub proof fn law_links_classified(s: Seq<char>)
    ensures
        links_classified_from(s, 0, links_of(s)),
{
    lemma_links_from_props(s, 0);
}

/// Three `m` and a newline: the line that opens frontmatter (`---` for
/// YAML, `+++` for TOML).
pub open spec fn delimiter_line(m: char) -> Seq<char> {
    seq![m, m, m, '\n']
}

/// A newline, three `m` and a newline: the line that closes frontmatter.
pub open spec fn closing_line(m: char) -> Seq<char> {
    seq!['\n', m, m, m, '\n']
}

/// `t` opens with the delimiter line of `m`, then holds `raw`, then the
/// first closing line of `m` after the opening one.
pub open spec fn framed_by(t: Seq<char>, m: char, raw: Seq<char>) -> bool {
    &&& has_at(t, 0, delimiter_line(m))
    &&& has_at(t, 4, raw)
    &&& has_at(t, 4 + raw.len() as int, closing_line(m))
    &&& forall|k: int| 4 <= k < 4 + raw.len() ==> !#[trigger] has_at(t, k, closing_line(m))
}

/// `t` opens with the delimiter line of `m` and a closing line of `m`
/// follows.
pub open spec fn has_frame(t: Seq<char>, m: char) -> bool {
    has_at(t, 0, delimiter_line(m)) && exists|k: int| 4 <= k && #[trigger] has_at(t, k, closing_line(m))
}

proof fn lemma_delimited(t: Seq<char>, m: char)
    ensures
        delimited_frontmatter(t, delimiter_line(m), closing_line(m)) is Some <==> has_frame(t, m),
        delimited_frontmatter(t, delimiter_line(m), closing_line(m)) matches Some(rk) ==> framed_by(
            t,
            m,
            rk.0,
        ) && rk.1 == byte_len(t.take(rk.0.len() as int + 9)),
{
    lemma_find_from_props(t, closing_line(m), 4);
    match find_from(t, closing_line(m), 4) {
        Some(k) => {
            if has_at(t, 0, delimiter_line(m)) {
                let raw = t.subrange(4, k);
                assert(t.subrange(4, 4 + raw.len() as int) =~= raw);
                assert(has_at(t, k, closing_line(m)));
            }
        },
        None => {
            if has_frame(t, m) {
                let k = choose|k: int| 4 <= k && #[trigger] has_at(t, k, closing_line(m));
                assert(!has_at(t, k, closing_line(m)));
            }
        },
    }
}

/// Frontmatter is recognised and read by its delimiters: there is
/// frontmatter exactly when the content, after leading whitespace, opens
/// with a `---` line (YAML) or a `+++` line (TOML) that a matching closing
/// line follows; its raw text is what lies between the opening line and
/// the first closing line; its fields are the `key: value` lines of that
/// text for YAML and the `key = value` lines for TOML; and the body starts
/// right after the closing line (offset 0 without frontmatter).
pub proof fn law_frontmatter_fields(content: Seq<char>)
    ensures
        frontmatter_split(content).0 is Some <==> (has_frame(trim_start(content), '-') || has_frame(
            trim_start(content),
            '+',
        )),
        frontmatter_split(content).0 is None ==> frontmatter_split(content).1 == 0,
        frontmatter_split(content).0 matches Some(f) ==> {
            ||| framed_by(trim_start(content), '-', f.raw) && f.fields == fields_of(lines_of(f.raw), ':')
            ||| framed_by(trim_start(content), '+', f.raw) && f.fields == fields_of(lines_of(f.raw), '=')
        },
        frontmatter_split(content).0 matches Some(f) ==> frontmatter_split(content).1 == byte_len(
            trim_start(content).take(f.raw.len() as int + 9),
        ),
{
    let t = trim_start(content);
    assert(yaml_open() =~= delimiter_line('-'));
    assert(yaml_close() =~= closing_line('-'));
    assert(toml_open() =~= delimiter_line('+'));
    assert(toml_close() =~= closing_line('+'));
    lemma_delimited(t, '-');
    lemma_delimited(t, '+');
}

/// Parsing depends on the content alone: parses of the same content, read
/// from any paths at any times, differ only in the path and modification
/// time they record.
pub proof fn law_parse_ignores_path(
    p: Parser,
    path1: Seq<char>,
    path2: Seq<char>,
    content: Seq<char>,
    modified1: Option<u64>,
    modified2: Option<u64>,
)
    ensures
        parse_spec(p, path1, content, modified1).hash == parse_spec(p, path2, content, modified2).hash,
        parse_spec(p, path1, content, modified1).sections == parse_spec(
            p,
            path2,
            content,
            modified2,
        ).sections,
        parse_spec(p, path1, content, modified1).frontmatter == parse_spec(
            p,
            path2,
            content,
            modified2,
        ).frontmatter,
        parse_spec(p, path1, content, modified1).text == parse_spec(p, path2, content, modified2).text,
        parse_spec(p, path1, content, modified1).links == parse_spec(p, path2, content, modified2).links,
        parse_spec(p, path1, content, modified1).path == path1,
        parse_spec(p, path1, content, modified1).modified == modified1,
{
}

} // verus!
