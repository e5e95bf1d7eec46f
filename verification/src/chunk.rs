//! RAG chunking for markdown content.
use crate::error::Error;
use crate::parser::{
    join, join_exec, opt_view, pairs_view, parse_defined, parse_spec, Document, DocumentView, Parser, Section, SectionView,
};
use crate::text::{
    append_chars, byte_len, chars_to_string, decimal, push_decimal, sub_chars, to_chars,
    str_byte_len, lines_of, split_lines,
};
use vstd::prelude::*;

verus! {

/// A chunk of markdown content for RAG.
#[derive(Debug)]
pub struct Chunk {
    /// Unique chunk ID.
    pub id: String,
    /// Source file path.
    pub file: String,
    /// Chunk content.
    pub content: String,
    /// Character range in the chunked text (the section's content, or the
    /// document's text).
    pub char_range: (usize, usize),
    /// Line range in the markdown file.
    pub line_range: (usize, usize),
    /// Section path (e.g., "Introduction > Getting Started").
    pub section_path: String,
    /// Preceding context (for overlap).
    pub context_before: Option<String>,
    /// Following context (for overlap).
    pub context_after: Option<String>,
    /// Token count (approximate).
    pub token_count: usize,
    /// Metadata from frontmatter, one entry per key.
    pub metadata: Vec<(String, String)>,
}

/// Chunker for creating RAG-ready chunks.
#[derive(Debug, Clone, Copy)]
pub struct Chunker {
    /// Target chunk size in characters.
    pub target_size: usize,
    /// Overlap between chunks, in characters.
    pub overlap: usize,
    /// Respect markdown structure.
    pub respect_structure: bool,
    /// Include code blocks.
    pub include_code: bool,
}

pub struct ChunkView {
    pub id: Seq<char>,
    pub file: Seq<char>,
    pub content: Seq<char>,
    pub char_range: (int, int),
    pub line_range: (usize, usize),
    pub section_path: Seq<char>,
    pub context_before: Option<Seq<char>>,
    pub context_after: Option<Seq<char>>,
    pub token_count: int,
    pub metadata: Seq<(Seq<char>, Seq<char>)>,
}

impl View for Chunk {
    type V = ChunkView;

    open spec fn view(&self) -> ChunkView {
        ChunkView {
            id: self.id@,
            file: self.file@,
            content: self.content@,
            char_range: (self.char_range.0 as int, self.char_range.1 as int),
            line_range: self.line_range,
            section_path: self.section_path@,
            context_before: opt_view(self.context_before),
            context_after: opt_view(self.context_after),
            token_count: self.token_count as int,
            metadata: pairs_view(self.metadata@),
        }
    }
}

/// The views of a list of chunks.
pub open spec fn chunks_view(v: Seq<Chunk>) -> Seq<ChunkView> {
    v.map_values(|c: Chunk| c@)
}

/// The views of the pieces that `smart_split` returns.
pub open spec fn pieces_view(v: Seq<(String, (usize, usize))>) -> Seq<(Seq<char>, (int, int))> {
    v.map_values(|p: (String, (usize, usize))| (p.0@, (p.1.0 as int, p.1.1 as int)))
}

// ---------------------------------------------------------------------
// Splitting text at sentence boundaries
// ---------------------------------------------------------------------

/// Characters after which a sentence ends.
pub open spec fn is_sentence_end(c: char) -> bool {
    c == '.' || c == '!' || c == '?' || c == '\n'
}

/// State of `smart_split` before character `i`: the pieces so far, the
/// character index where the current piece starts, and the character index
/// just after the last sentence end seen. The current piece is `s[cs..i]`.
pub struct SplitState {
    pub pieces: Seq<(Seq<char>, (int, int))>,
    pub cs: int,
    pub lse: int,
}

/// The piece `s[a..b]` with its character range.
pub open spec fn piece(s: Seq<char>, a: int, b: int) -> (Seq<char>, (int, int)) {
    (s.subrange(a, b), (a, b))
}

/// `smart_split` taking in character `i` of `s`: once the current piece
/// reaches `target` characters it is cut after the last sentence end inside
/// it (keeping the rest as the start of the next piece), or, without one,
/// right here.
pub open spec fn split_step(s: Seq<char>, target: int, st: SplitState, i: int) -> SplitState {
    let lse = if is_sentence_end(s[i]) {
        i + 1
    } else {
        st.lse
    };
    if i + 1 - st.cs >= target {
        if lse > st.cs && lse < i + 1 {
            SplitState { pieces: st.pieces.push(piece(s, st.cs, lse)), cs: lse, lse }
        } else {
            SplitState { pieces: st.pieces.push(piece(s, st.cs, i + 1)), cs: i + 1, lse: i + 1 }
        }
    } else {
        SplitState { pieces: st.pieces, cs: st.cs, lse }
    }
}

/// `smart_split` state after the first `n` characters.
pub open spec fn split_fold(s: Seq<char>, target: int, n: int) -> SplitState
    decreases n,
{
    if n <= 0 {
        SplitState { pieces: Seq::empty(), cs: 0, lse: 0 }
    } else {
        split_step(s, target, split_fold(s, target, n - 1), n - 1)
    }
}

/// `Chunker::smart_split`: the pieces of `s` (with their character ranges)
/// for a target size of `target` characters.
pub open spec fn smart_split_spec(s: Seq<char>, target: int) -> Seq<(Seq<char>, (int, int))> {
    let st = split_fold(s, target, s.len() as int);
    if st.cs < s.len() {
        st.pieces.push(piece(s, st.cs, s.len() as int))
    } else {
        st.pieces
    }
}

impl Chunker {
    /// `Chunker::smart_split` over the characters of `text`.
    fn split_chars(&self, text: &[char]) -> (r: Vec<(String, (usize, usize))>)
        ensures
            pieces_view(r@) == smart_split_spec(text@, self.target_size as int),
    {
        let ghost s = text@;
        let ghost t = self.target_size as int;
        let mut pieces: Vec<(String, (usize, usize))> = Vec::new();
        let mut cs: usize = 0;
        let mut lse: usize = 0;
        let mut i: usize = 0;
        proof {
            assert(pieces_view(pieces@) =~= Seq::empty());
        }
        while i < text.len()
            invariant
                s == text@,
                t == self.target_size as int,
                i <= s.len(),
                pieces_view(pieces@) == split_fold(s, t, i as int).pieces,
                cs == split_fold(s, t, i as int).cs,
                lse == split_fold(s, t, i as int).lse,
                cs <= lse <= i,
            decreases s.len() - i,
        {
            let c = text[i];
            if c == '.' || c == '!' || c == '?' || c == '\n' {
                lse = i + 1;
            }
            if i + 1 - cs >= self.target_size {
                if lse > cs && lse < i + 1 {
                    let ghost old_p = pieces_view(pieces@);
                    let p = sub_chars(text, cs, lse);
                    let ps = chars_to_string(&p);
                    pieces.push((ps, (cs, lse)));
                    proof {
                        assert(pieces_view(pieces@) =~= old_p.push(piece(s, cs as int, lse as int)));
                    }
                    cs = lse;
                } else {
                    let ghost old_p = pieces_view(pieces@);
                    let p = sub_chars(text, cs, i + 1);
                    let ps = chars_to_string(&p);
                    pieces.push((ps, (cs, i + 1)));
                    proof {
                        assert(pieces_view(pieces@) =~= old_p.push(piece(s, cs as int, i + 1)));
                    }
                    cs = i + 1;
                    lse = i + 1;
                }
            }
            i = i + 1;
        }
        if cs < text.len() {
            let ghost old_p = pieces_view(pieces@);
            let p = sub_chars(text, cs, text.len());
            let ps = chars_to_string(&p);
            pieces.push((ps, (cs, text.len())));
            proof {
                assert(pieces_view(pieces@) =~= old_p.push(piece(s, cs as int, s.len() as int)));
            }
        }
        pieces
    }
}

// ---------------------------------------------------------------------
// What every split satisfies
// ---------------------------------------------------------------------

/// The pieces' texts one after the other.
pub open spec fn concat_all(p: Seq<Seq<char>>) -> Seq<char>
    decreases p.len(),
{
    if p.len() == 0 {
        Seq::empty()
    } else {
        concat_all(p.drop_last()) + p.last()
    }
}

/// The texts of split pieces.
pub open spec fn piece_texts(p: Seq<(Seq<char>, (int, int))>) -> Seq<Seq<char>> {
    p.map_values(|x: (Seq<char>, (int, int))| x.0)
}

/// Every piece is non-empty, holds at most `max_len` characters, and its
/// character range starts where the text of the pieces before it ends and
/// spans its own text.
pub open spec fn well_cut(p: Seq<(Seq<char>, (int, int))>, max_len: int) -> bool {
    forall|j: int|
        0 <= j < p.len() ==> {
            &&& (#[trigger] p[j]).0.len() > 0
            &&& p[j].0.len() <= max_len
            &&& p[j].1.0 == concat_all(piece_texts(p).take(j)).len()
            &&& p[j].1.1 == concat_all(piece_texts(p).take(j + 1)).len()
        }
}

/// The most characters a piece of `smart_split` holds: the target size, or
/// one character when the target is zero.
pub open spec fn piece_limit(target: int) -> int {
    if target > 0 {
        target
    } else {
        1
    }
}

#[verifier::spinoff_prover]
proof fn lemma_push_piece(
    s: Seq<char>,
    p: Seq<(Seq<char>, (int, int))>,
    a: int,
    b: int,
    max_len: int,
)
    requires
        0 <= a < b <= s.len(),
        concat_all(piece_texts(p)) == s.take(a),
        well_cut(p, max_len),
        b - a <= max_len,
    ensures
        concat_all(piece_texts(p.push(piece(s, a, b)))) == s.take(b),
        well_cut(p.push(piece(s, a, b)), max_len),
{
    let q = p.push(piece(s, a, b));
    assert(piece_texts(q) =~= piece_texts(p).push(s.subrange(a, b)));
    assert(piece_texts(q).drop_last() =~= piece_texts(p));
    assert(s.take(a) + s.subrange(a, b) =~= s.take(b));
    assert forall|j: int| 0 <= j < q.len() implies {
        &&& (#[trigger] q[j]).0.len() > 0
        &&& q[j].0.len() <= max_len
        &&& q[j].1.0 == concat_all(piece_texts(q).take(j)).len()
        &&& q[j].1.1 == concat_all(piece_texts(q).take(j + 1)).len()
    } by {
        if j < p.len() {
            assert(piece_texts(q).take(j) =~= piece_texts(p).take(j));
            assert(piece_texts(q).take(j + 1) =~= piece_texts(p).take(j + 1));
        } else {
            assert(piece_texts(q).take(j) =~= piece_texts(p));
            assert(piece_texts(q).take(j + 1) =~= piece_texts(q));
            assert(piece_texts(q).take(j + 1).drop_last() =~= piece_texts(p));
        }
    }
}

/// What holds of `smart_split` after `n` characters: the pieces spell out
/// the text up to the current piece's start, they are well cut, and the
/// current piece is below the piece limit.
proof fn lemma_split_invariant(s: Seq<char>, t: int, n: int)
    requires
        0 <= n <= s.len(),
        0 <= t,
    ensures
        concat_all(piece_texts(split_fold(s, t, n).pieces)) == s.take(split_fold(s, t, n).cs),
        well_cut(split_fold(s, t, n).pieces, piece_limit(t)),
        0 <= split_fold(s, t, n).cs <= split_fold(s, t, n).lse <= n,
        n - split_fold(s, t, n).cs < piece_limit(t),
    decreases n,
{
    if n == 0 {
        assert(s.take(0) =~= Seq::<char>::empty());
        assert(piece_texts(Seq::<(Seq<char>, (int, int))>::empty()) =~= Seq::<Seq<char>>::empty());
    } else {
        let i = n - 1;
        lemma_split_invariant(s, t, i);
        let st = split_fold(s, t, i);
        let cs = st.cs;
        let lse = if is_sentence_end(s[i]) {
            n
        } else {
            st.lse
        };
        if n - cs >= t {
            if lse > cs && lse < n {
                lemma_push_piece(s, st.pieces, cs, lse, piece_limit(t));
            } else {
                lemma_push_piece(s, st.pieces, cs, n, piece_limit(t));
            }
        }
    }
}

/// A piece is cut at a sentence end: its last character ends a sentence,
/// or no character of it does (a cut forced by the size).
pub open spec fn cut_at_sentence(p: Seq<char>) -> bool {
    ||| (p.len() > 0 && is_sentence_end(p.last()))
    ||| forall|k: int| 0 <= k < p.len() ==> !is_sentence_end(#[trigger] p[k])
}

/// What `smart_split` keeps about sentence ends after `n` characters: the
/// pieces so far are cut at sentence ends; `lse`, when past the current
/// piece's start, follows a sentence end; and no sentence end lies between
/// `lse` (or the piece's start) and `n`.
proof fn lemma_split_sentences(s: Seq<char>, t: int, n: int)
    requires
        0 <= n <= s.len(),
        0 <= t,
    ensures
        forall|j: int|
            0 <= j < split_fold(s, t, n).pieces.len() ==> cut_at_sentence(
                #[trigger] split_fold(s, t, n).pieces[j].0,
            ),
        split_fold(s, t, n).lse > split_fold(s, t, n).cs ==> is_sentence_end(
            s[split_fold(s, t, n).lse - 1],
        ),
        forall|k: int|
            split_fold(s, t, n).lse <= k < n && split_fold(s, t, n).cs <= k ==> !is_sentence_end(
                #[trigger] s[k],
            ),
    decreases n,
{
    if n > 0 {
        let i = n - 1;
        lemma_split_sentences(s, t, i);
        lemma_split_invariant(s, t, i);
        let st = split_fold(s, t, i);
        let next = split_fold(s, t, n);
        let cs = st.cs;
        let lse = if is_sentence_end(s[i]) {
            n
        } else {
            st.lse
        };
        if n - cs >= t {
            let b = if lse > cs && lse < n {
                lse
            } else {
                n
            };
            let pc = s.subrange(cs, b);
            assert(next.pieces == st.pieces.push(piece(s, cs, b)));
            if b == lse {
                assert(pc.last() == s[lse - 1]);
            } else if is_sentence_end(s[i]) {
                assert(pc.last() == s[i]);
            } else {
                assert forall|k: int| 0 <= k < pc.len() implies !is_sentence_end(#[trigger] pc[k]) by {
                    assert(pc[k] == s[cs + k]);
                }
            }
            assert(cut_at_sentence(pc));
            assert forall|j: int| 0 <= j < next.pieces.len() implies cut_at_sentence(
                #[trigger] next.pieces[j].0,
            ) by {
                if j < st.pieces.len() {
                    assert(next.pieces[j] == st.pieces[j]);
                }
            }
        }
    }
}

/// Sentence boundaries are respected: every piece of `smart_split` but the
/// last ends with `.`, `!`, `?` or a newline, unless the piece holds none
/// of them at all and was cut at the size limit.
pub proof fn law_smart_split_sentences(s: Seq<char>, target: usize)
    ensures
        forall|j: int|
            0 <= j < smart_split_spec(s, target as int).len() - 1 ==> cut_at_sentence(
                #[trigger] smart_split_spec(s, target as int)[j].0,
            ),
{
    let t = target as int;
    lemma_split_sentences(s, t, s.len() as int);
    let st = split_fold(s, t, s.len() as int);
    let r = smart_split_spec(s, t);
    assert forall|j: int| 0 <= j < r.len() - 1 implies cut_at_sentence(#[trigger] r[j].0) by {
        assert(r[j] == st.pieces[j]);
    }
}

/// Splitting loses and adds nothing: the pieces of `smart_split`, one after
/// the other, spell out the text; every piece is non-empty; its character
/// range starts where the pieces before it end and spans its own
/// characters; and no piece is longer than the target size (one character
/// when the target is zero).
pub proof fn law_smart_split_partitions(s: Seq<char>, target: usize)
    ensures
        concat_all(piece_texts(smart_split_spec(s, target as int))) == s,
        well_cut(smart_split_spec(s, target as int), piece_limit(target as int)),
        s.len() == 0 <==> smart_split_spec(s, target as int).len() == 0,
{
    let t = target as int;
    lemma_split_invariant(s, t, s.len() as int);
    let st = split_fold(s, t, s.len() as int);
    assert(s.take(s.len() as int) =~= s);
    if st.cs < s.len() {
        lemma_push_piece(s, st.pieces, st.cs, s.len() as int, piece_limit(t));
    } else {
        if s.len() == 0 && st.pieces.len() > 0 {
            assert(st.pieces[0].0.len() > 0);
            lemma_concat_len(piece_texts(st.pieces), 0);
        }
    }
    if s.len() > 0 && smart_split_spec(s, t).len() == 0 {
        assert(piece_texts(smart_split_spec(s, t)) =~= Seq::<Seq<char>>::empty());
    }
}

proof fn lemma_concat_len(p: Seq<Seq<char>>, j: int)
    requires
        0 <= j < p.len(),
    ensures
        concat_all(p).len() >= p[j].len(),
    decreases p.len(),
{
    if j < p.len() - 1 {
        lemma_concat_len(p.drop_last(), j);
    }
}

/// The piece `a .. b` of `s` is cut as `smart_split` cuts: the window of
/// `limit` characters from `a` lies within the text, and the piece ends
/// just after the last sentence end in that window, or with the window when
/// the window holds none.
pub open spec fn cut_in_window(s: Seq<char>, a: int, b: int, limit: int) -> bool {
    &&& 0 <= a
    &&& a + limit <= s.len()
    &&& a < b <= a + limit
    &&& forall|m: int| b <= m < a + limit ==> !is_sentence_end(#[trigger] s[m])
    &&& is_sentence_end(s[b - 1]) || forall|m: int| a <= m < a + limit ==> !is_sentence_end(
        #[trigger] s[m],
    )
}

proof fn lemma_split_cuts(s: Seq<char>, t: int, n: int)
    requires
        0 <= n <= s.len(),
        0 <= t,
    ensures
        forall|j: int|
            0 <= j < split_fold(s, t, n).pieces.len() ==> cut_in_window(
                s,
                (#[trigger] split_fold(s, t, n).pieces[j]).1.0,
                split_fold(s, t, n).pieces[j].1.1,
                piece_limit(t),
            ),
    decreases n,
{
    if n > 0 {
        let i = n - 1;
        lemma_split_cuts(s, t, i);
        lemma_split_invariant(s, t, i);
        lemma_split_sentences(s, t, i);
        let st = split_fold(s, t, i);
        let next = split_fold(s, t, n);
        let cs = st.cs;
        let lim = piece_limit(t);
        let lse = if is_sentence_end(s[i]) {
            n
        } else {
            st.lse
        };
        if n - cs >= t {
            assert(n - cs == lim);
            let b = if lse > cs && lse < n {
                lse
            } else {
                n
            };
            assert(next.pieces == st.pieces.push(piece(s, cs, b)));
            assert(cut_in_window(s, cs, b, lim)) by {
                if lse > cs && lse < n {
                    assert(!is_sentence_end(s[i]));
                    assert(is_sentence_end(s[b - 1]));
                } else if !is_sentence_end(s[i]) {
                    assert(st.lse <= cs);
                    assert forall|m: int| cs <= m < cs + lim implies !is_sentence_end(#[trigger] s[m]) by {
                        if m < i {
                            assert(st.lse <= m && m < i && cs <= m);
                        }
                    }
                }
            }
            assert forall|j: int| 0 <= j < next.pieces.len() implies cut_in_window(
                s,
                (#[trigger] next.pieces[j]).1.0,
                next.pieces[j].1.1,
                lim,
            ) by {
                if j < st.pieces.len() {
                    assert(next.pieces[j] == st.pieces[j]);
                }
            }
        }
    }
}

/// Pieces are cut only once the target size is reached: every piece but
/// the last starts a window of `target` characters (one when the target is
/// zero) that lies within the text, and ends just after the last sentence
/// end in that window (with the window when it holds none); the last piece
/// is cut in the same way or is what remains of the text, shorter than the
/// target. So a text shorter than the target is one piece.
pub proof fn law_smart_split_cuts(s: Seq<char>, target: usize)
    ensures
        forall|j: int|
            0 <= j < smart_split_spec(s, target as int).len() - 1 ==> cut_in_window(
                s,
                (#[trigger] smart_split_spec(s, target as int)[j]).1.0,
                smart_split_spec(s, target as int)[j].1.1,
                piece_limit(target as int),
            ),
        smart_split_spec(s, target as int).len() > 0 ==> ({
            let last = smart_split_spec(s, target as int).last();
            cut_in_window(s, last.1.0, last.1.1, piece_limit(target as int)) || (last.1.1 == s.len()
                && last.1.1 - last.1.0 < piece_limit(target as int))
        }),
        s.len() < piece_limit(target as int) ==> smart_split_spec(s, target as int).len() <= 1,
{
    let t = target as int;
    let lim = piece_limit(t);
    lemma_split_cuts(s, t, s.len() as int);
    lemma_split_invariant(s, t, s.len() as int);
    let st = split_fold(s, t, s.len() as int);
    let r = smart_split_spec(s, t);
    assert forall|j: int| 0 <= j < r.len() - 1 implies cut_in_window(
        s,
        (#[trigger] r[j]).1.0,
        r[j].1.1,
        lim,
    ) by {
        assert(r[j] == st.pieces[j]);
    }
    if r.len() > 0 {
        if st.cs < s.len() {
            assert(r.last() == piece(s, st.cs, s.len() as int));
        } else {
            assert(r.last() == st.pieces[st.pieces.len() - 1]);
        }
    }
    if s.len() < lim && r.len() > 1 {
        assert(r[0] == st.pieces[0]);
        assert(cut_in_window(s, r[0].1.0, r[0].1.1, lim));
    }
}

// ---------------------------------------------------------------------
// Chunk identifiers, code removal, section paths
// ---------------------------------------------------------------------

/// `-`.
pub open spec fn dash() -> Seq<char> {
    seq!['-']
}

/// ` > `, between the titles of a section path.
pub open spec fn path_separator() -> Seq<char> {
    seq![' ', '>', ' ']
}

/// `format!("{}-{}-{}", file, line, i)`.
pub open spec fn section_chunk_id(file: Seq<char>, line: nat, i: nat) -> Seq<char> {
    file + dash() + decimal(line) + dash() + decimal(i)
}

/// `format!("{}-{}", file, i)`.
pub open spec fn text_chunk_id(file: Seq<char>, i: nat) -> Seq<char> {
    file + dash() + decimal(i)
}

/// Output and in-code flag of `remove_code_blocks` after the first `n`
/// lines.
pub open spec fn code_fold(lines: Seq<Seq<char>>, n: int) -> (Seq<char>, bool)
    decreases n,
{
    if n <= 0 {
        (Seq::empty(), false)
    } else {
        let prev = code_fold(lines, n - 1);
        let line = lines[n - 1];
        if crate::text::has_at(line, 0, crate::parser::fence()) {
            (prev.0, !prev.1)
        } else if !prev.1 {
            (prev.0 + line.push('\n'), prev.1)
        } else {
            prev
        }
    }
}

/// `Chunker::remove_code_blocks`: the lines outside fenced code blocks,
/// each followed by a newline (fence lines themselves dropped).
pub open spec fn without_code(content: Seq<char>) -> Seq<char> {
    let lines = lines_of(content);
    code_fold(lines, lines.len() as int).0
}

/// Number of sections before the first one that starts at or after line
/// `start`: the sections that come before a section starting there.
pub open spec fn earlier_count(all: Seq<SectionView>, start: usize) -> int
    decreases all.len(),
{
    if all.len() == 0 {
        0
    } else if all[0].line_range.0 >= start {
        0
    } else {
        1 + earlier_count(all.drop_first(), start)
    }
}

proof fn lemma_earlier_count_exact(all: Seq<SectionView>, start: usize, k: int)
    requires
        0 <= k <= all.len(),
        forall|j: int| 0 <= j < k ==> #[trigger] all[j].line_range.0 < start,
        k == all.len() || all[k].line_range.0 >= start,
    ensures
        earlier_count(all, start) == k,
    decreases k,
{
    if k > 0 {
        assert forall|j: int| 0 <= j < k - 1 implies #[trigger] all.drop_first()[j].line_range.0 < start by {
            assert(all.drop_first()[j] == all[j + 1]);
        }
        lemma_earlier_count_exact(all.drop_first(), start, k - 1);
    }
}

/// Titles of the parent headings of a section of level `level` among the
/// first `n` sections, outermost first: the nearest of them that has a
/// title and a lower level, preceded by its own parent headings.
pub open spec fn ancestor_titles(all: Seq<SectionView>, n: int, level: u8) -> Seq<Seq<char>>
    decreases n,
{
    if n <= 0 {
        Seq::empty()
    } else {
        let s = all[n - 1];
        if s.title is Some && s.level < level {
            ancestor_titles(all, n - 1, s.level).push(s.title.unwrap())
        } else {
            ancestor_titles(all, n - 1, level)
        }
    }
}

/// `Chunker::build_section_path`: the titles of the section's parent
/// headings among the sections before it, then its own title, joined by
/// ` > `.
pub open spec fn section_path(section: SectionView, all: Seq<SectionView>) -> Seq<char> {
    let parents = ancestor_titles(all, earlier_count(all, section.line_range.0), section.level);
    let titles = match section.title {
        Some(t) => parents.push(t),
        None => parents,
    };
    join(titles, path_separator())
}

/// The last `n` characters of `s` (all of them when it is shorter).
pub open spec fn last_chars(s: Seq<char>, n: nat) -> Seq<char> {
    if s.len() <= n {
        s
    } else {
        s.skip(s.len() - n)
    }
}

/// The first `n` characters of `s` (all of them when it is shorter).
pub open spec fn first_chars(s: Seq<char>, n: nat) -> Seq<char> {
    if s.len() <= n {
        s
    } else {
        s.take(n as int)
    }
}

/// Views of a string pair list.
pub fn clone_pairs(v: &Vec<(String, String)>) -> (r: Vec<(String, String)>)
    ensures
        pairs_view(r@) == pairs_view(v@),
{
    let mut r: Vec<(String, String)> = Vec::new();
    let mut i: usize = 0;
    while i < v.len()
        invariant
            i <= v@.len(),
            pairs_view(r@) == pairs_view(v@).take(i as int),
        decreases v@.len() - i,
    {
        let pr = &v[i];
        let a = pr.0.clone();
        let b = pr.1.clone();
        let ghost old_r = pairs_view(r@);
        r.push((a, b));
        proof {
            assert(a@ == v@[i as int].0@);
            assert(b@ == v@[i as int].1@);
            assert(pairs_view(r@) =~= old_r.push((a@, b@)));
            assert(pairs_view(v@).take(i + 1) =~= pairs_view(v@).take(i as int).push(
                pairs_view(v@)[i as int],
            ));
        }
        i = i + 1;
    }
    proof {
        assert(pairs_view(v@).take(v@.len() as int) =~= pairs_view(v@));
    }
    r
}

/// The characters of `file`, `-`, the decimal `a`, and, when given, `-` and
/// the decimal `b`.
fn make_id(file: &[char], a: usize, b: Option<usize>) -> (r: String)
    ensures
        r@ == (match b {
            Some(b) => section_chunk_id(file@, a as nat, b as nat),
            None => text_chunk_id(file@, a as nat),
        }),
{
    let mut v: Vec<char> = Vec::new();
    append_chars(&mut v, file);
    v.push('-');
    push_decimal(&mut v, a as u64);
    match b {
        Some(b) => {
            v.push('-');
            push_decimal(&mut v, b as u64);
            proof {
                assert(v@ =~= section_chunk_id(file@, a as nat, b as nat));
            }
        },
        None => {
            proof {
                assert(v@ =~= text_chunk_id(file@, a as nat));
            }
        },
    }
    chars_to_string(&v)
}

/// The last `n` characters of `v`.
fn last_chars_exec(v: &[char], n: usize) -> (r: Vec<char>)
    ensures
        r@ == last_chars(v@, n as nat),
{
    if v.len() <= n {
        sub_chars(v, 0, v.len())
    } else {
        sub_chars(v, v.len() - n, v.len())
    }
}

/// The first `n` characters of `v`.
fn first_chars_exec(v: &[char], n: usize) -> (r: Vec<char>)
    ensures
        r@ == first_chars(v@, n as nat),
{
    if v.len() <= n {
        sub_chars(v, 0, v.len())
    } else {
        sub_chars(v, 0, n)
    }
}

impl Chunker {
    /// `Chunker::remove_code_blocks` over characters.
    fn code_free_chars(&self, content: &[char]) -> (r: Vec<char>)
        ensures
            r@ == without_code(content@),
    {
        let lines = split_lines(content);
        let ghost ls = lines@.map_values(|l: Vec<char>| l@);
        let fence: Vec<char> = vec!['`', '`', '`'];
        proof {
            assert(fence@ =~= crate::parser::fence());
        }
        let mut result: Vec<char> = Vec::new();
        let mut in_code: bool = false;
        let mut i: usize = 0;
        while i < lines.len()
            invariant
                i <= lines@.len(),
                ls == lines@.map_values(|l: Vec<char>| l@),
                fence@ == crate::parser::fence(),
                (result@, in_code) == code_fold(ls, i as int),
            decreases lines@.len() - i,
        {
            if crate::text::has_at_exec(&lines[i], 0, &fence) {
                in_code = !in_code;
            } else if !in_code {
                append_chars(&mut result, &lines[i]);
                result.push('\n');
                proof {
                    assert(result@ =~= code_fold(ls, i as int).0 + ls[i as int].push('\n'));
                }
            }
            i = i + 1;
        }
        result
    }

    /// `Chunker::build_section_path` as characters.
    fn section_path_chars(&self, section: &Section, all_sections: &[Section]) -> (r: Vec<char>)
        ensures
            r@ == section_path(section@, all_sections@.map_values(|s: Section| s@)),
    {
        let ghost all = all_sections@.map_values(|s: Section| s@);
        let ghost start = section.line_range.0;
        let mut k: usize = 0;
        while k < all_sections.len() && all_sections[k].line_range.0 < section.line_range.0
            invariant
                k <= all_sections@.len(),
                all == all_sections@.map_values(|s: Section| s@),
                start == section.line_range.0,
                forall|j: int| 0 <= j < k ==> #[trigger] all[j].line_range.0 < start,
            decreases all_sections@.len() - k,
        {
            proof {
                assert(all[k as int] == all_sections@[k as int]@);
            }
            k = k + 1;
        }
        proof {
            if k < all_sections.len() {
                assert(all[k as int] == all_sections@[k as int]@);
            }
            lemma_earlier_count_exact(all, start, k as int);
        }
        let mut path: Vec<Vec<char>> = Vec::new();
        let mut m: usize = k;
        let mut level: u8 = section.level;
        proof {
            assert(ancestor_titles(all, k as int, section.level) =~= ancestor_titles(all, m as int, level)
                + path@.map_values(|l: Vec<char>| l@));
        }
        while m > 0
            invariant
                m <= k <= all_sections@.len(),
                all == all_sections@.map_values(|s: Section| s@),
                ancestor_titles(all, k as int, section.level) == ancestor_titles(all, m as int, level)
                    + path@.map_values(|l: Vec<char>| l@),
            decreases m,
        {
            let s = &all_sections[m - 1];
            proof {
                assert(all[m - 1] == s@);
            }
            let ghost old_p = path@.map_values(|l: Vec<char>| l@);
            if s.level < level {
                match &s.title {
                    Some(t) => {
                        path.insert(0, to_chars(t.as_str()));
                        proof {
                            assert(path@.map_values(|l: Vec<char>| l@) =~= seq![t@] + old_p);
                            assert(ancestor_titles(all, m as int, level) == ancestor_titles(
                                all,
                                m - 1,
                                s.level,
                            ).push(t@));
                            assert(ancestor_titles(all, m - 1, s.level).push(t@) + old_p =~= ancestor_titles(
                                all,
                                m - 1,
                                s.level,
                            ) + (seq![t@] + old_p));
                        }
                        level = s.level;
                    },
                    None => {},
                }
            }
            m = m - 1;
        }
        proof {
            assert(ancestor_titles(all, 0, level) =~= Seq::<Seq<char>>::empty());
            assert(Seq::<Seq<char>>::empty() + path@.map_values(|l: Vec<char>| l@) =~= path@.map_values(
                |l: Vec<char>| l@,
            ));
        }
        match &section.title {
            Some(t) => {
                let ghost old_p = path@.map_values(|l: Vec<char>| l@);
                path.push(to_chars(t.as_str()));
                proof {
                    assert(path@.map_values(|l: Vec<char>| l@) =~= old_p.push(t@));
                }
            },
            None => {},
        }
        let sep: Vec<char> = vec![' ', '>', ' '];
        proof {
            assert(sep@ =~= path_separator());
        }
        join_exec(&path, &sep)
    }

    /// Tokens for a text of `bytes` bytes: about four bytes per token.
    fn tokens_for_bytes(&self, bytes: usize) -> (n: usize)
        ensures
            n == bytes / 4,
    {
        bytes / 4
    }

    /// Approximate token count of `text`: its byte length divided by four.
    pub fn estimate_tokens(&self, text: &str) -> (n: usize)
        ensures
            n == byte_len(text@) / 4,
    {
        let b = str_byte_len(text);
        b / 4
    }

    /// Splits `text` into pieces of at most `target_size` characters,
    /// cutting after sentence ends where it can; each piece comes with its
    /// character range.
    pub fn smart_split(&self, text: &str) -> (r: Vec<(String, (usize, usize))>)
        ensures
            pieces_view(r@) == smart_split_spec(text@, self.target_size as int),
    {
        let chars = to_chars(text);
        self.split_chars(&chars)
    }

    /// The lines of `content` outside fenced code blocks, each followed by
    /// a newline.
    pub fn remove_code_blocks(&self, content: &str) -> (r: String)
        ensures
            r@ == without_code(content@),
    {
        let chars = to_chars(content);
        let kept = self.code_free_chars(&chars);
        chars_to_string(&kept)
    }

    /// Section path: the titles of the earlier sections of lower level, then
    /// the section's own title, joined by ` > `.
    pub fn build_section_path(&self, section: &Section, all_sections: &[Section]) -> (r: String)
        ensures
            r@ == section_path(section@, all_sections@.map_values(|s: Section| s@)),
    {
        let p = self.section_path_chars(section, all_sections);
        chars_to_string(&p)
    }
}

// ---------------------------------------------------------------------
// Chunking sections, text and documents
// ---------------------------------------------------------------------

/// The content that a section is chunked from.
pub open spec fn section_content(ch: Chunker, sec: SectionView) -> Seq<char> {
    if ch.include_code {
        sec.content
    } else {
        without_code(sec.content)
    }
}

/// Chunk `i` of a section whose content was split into `sp`: overlap
/// context is the last `overlap` characters of the previous piece and the
/// first `overlap` characters of the next.
pub open spec fn split_chunk(
    ch: Chunker,
    sp: Seq<(Seq<char>, (int, int))>,
    i: int,
    file: Seq<char>,
    line_range: (usize, usize),
    path: Seq<char>,
    meta: Seq<(Seq<char>, Seq<char>)>,
) -> ChunkView {
    ChunkView {
        id: section_chunk_id(file, line_range.0 as nat, i as nat),
        file,
        content: sp[i].0,
        char_range: sp[i].1,
        line_range,
        section_path: path,
        context_before: if i > 0 && ch.overlap > 0 {
            Some(last_chars(sp[i - 1].0, ch.overlap as nat))
        } else {
            None
        },
        context_after: if i < sp.len() - 1 && ch.overlap > 0 {
            Some(first_chars(sp[i + 1].0, ch.overlap as nat))
        } else {
            None
        },
        token_count: byte_len(sp[i].0) as int / 4,
        metadata: meta,
    }
}

/// `Chunker::chunk_section`: one chunk when the section's content fits the
/// target size, else one chunk per piece of `smart_split`.
pub open spec fn section_chunks(
    ch: Chunker,
    sec: SectionView,
    file: Seq<char>,
    meta: Seq<(Seq<char>, Seq<char>)>,
    all: Seq<SectionView>,
) -> Seq<ChunkView> {
    let path = section_path(sec, all);
    let content = section_content(ch, sec);
    if content.len() <= ch.target_size {
        seq![
            ChunkView {
                id: section_chunk_id(file, sec.line_range.0 as nat, 0),
                file,
                content,
                char_range: (0, content.len() as int),
                line_range: sec.line_range,
                section_path: path,
                context_before: None,
                context_after: None,
                token_count: byte_len(content) as int / 4,
                metadata: meta,
            },
        ]
    } else {
        let sp = smart_split_spec(content, ch.target_size as int);
        Seq::new(sp.len(), |i: int| split_chunk(ch, sp, i, file, sec.line_range, path, meta))
    }
}

/// `Chunker::chunk_text`: one chunk per piece of `smart_split`, with no
/// line range, section path or context.
pub open spec fn text_chunks(
    ch: Chunker,
    text: Seq<char>,
    file: Seq<char>,
    meta: Seq<(Seq<char>, Seq<char>)>,
) -> Seq<ChunkView> {
    let sp = smart_split_spec(text, ch.target_size as int);
    Seq::new(
        sp.len(),
        |i: int|
            ChunkView {
                id: text_chunk_id(file, i as nat),
                file,
                content: sp[i].0,
                char_range: sp[i].1,
                line_range: (0, 0),
                section_path: Seq::empty(),
                context_before: None,
                context_after: None,
                token_count: byte_len(sp[i].0) as int / 4,
                metadata: meta,
            },
    )
}

/// The chunks of the first `n` sections, in order.
pub open spec fn sections_chunks(
    ch: Chunker,
    secs: Seq<SectionView>,
    n: int,
    file: Seq<char>,
    meta: Seq<(Seq<char>, Seq<char>)>,
) -> Seq<ChunkView>
    decreases n,
{
    if n <= 0 {
        Seq::empty()
    } else {
        sections_chunks(ch, secs, n - 1, file, meta) + section_chunks(ch, secs[n - 1], file, meta, secs)
    }
}

/// Frontmatter fields of a document (none without frontmatter).
pub open spec fn doc_metadata(doc: DocumentView) -> Seq<(Seq<char>, Seq<char>)> {
    match doc.frontmatter {
        Some(f) => f.fields,
        None => Seq::empty(),
    }
}

/// `Chunker::chunk_document`.
pub open spec fn document_chunks(ch: Chunker, doc: DocumentView) -> Seq<ChunkView> {
    if ch.respect_structure {
        sections_chunks(ch, doc.sections, doc.sections.len() as int, doc.path, doc_metadata(doc))
    } else {
        text_chunks(ch, doc.text, doc.path, doc_metadata(doc))
    }
}

/// The parser that `chunk_file` uses.
pub open spec fn default_parser() -> Parser {
    Parser { extract_code: true, extract_links: true, parse_frontmatter: true }
}

impl Default for Chunker {
    fn default() -> (c: Self)
        ensures
            c.target_size == 512 && c.overlap == 50 && c.respect_structure && c.include_code,
    {
        Chunker { target_size: 512, overlap: 50, respect_structure: true, include_code: true }
    }
}

impl Chunker {
    /// Create a new chunker.
    pub fn new(target_size: usize, overlap: usize) -> (c: Self)
        ensures
            c.target_size == target_size && c.overlap == overlap && c.respect_structure
                && c.include_code,
    {
        Chunker { target_size, overlap, respect_structure: true, include_code: true }
    }

    /// `Chunker::chunk_section`.
    pub fn chunk_section(
        &self,
        section: &Section,
        file: &str,
        metadata: &Vec<(String, String)>,
        all_sections: &[Section],
    ) -> (r: Vec<Chunk>)
        ensures
            chunks_view(r@) == section_chunks(
                *self,
                section@,
                file@,
                pairs_view(metadata@),
                all_sections@.map_values(|s: Section| s@),
            ),
    {
        let ghost all = all_sections@.map_values(|s: Section| s@);
        let ghost meta = pairs_view(metadata@);
        let file = to_chars(file);
        let path = self.build_section_path(section, all_sections);
        let content_str: String = if self.include_code {
            section.content.clone()
        } else {
            self.remove_code_blocks(section.content.as_str())
        };
        let nbytes = str_byte_len(content_str.as_str());
        let content = to_chars(content_str.as_str());
        let nchars = content.len();
        let mut chunks: Vec<Chunk> = Vec::new();
        if nchars <= self.target_size {
            let chunk = Chunk {
                id: make_id(&file, section.line_range.0, Some(0)),
                file: chars_to_string(&file),
                content: content_str,
                char_range: (0, nchars),
                line_range: section.line_range,
                section_path: path,
                context_before: None,
                context_after: None,
                token_count: self.tokens_for_bytes(nbytes),
                metadata: clone_pairs(metadata),
            };
            chunks.push(chunk);
            proof {
                assert(chunks_view(chunks@) =~= section_chunks(
                    *self,
                    section@,
                    file@,
                    meta,
                    all,
                ));
            }
            return chunks;
        }
        let splits = self.split_chars(&content);
        let ghost sp = pieces_view(splits@);
        let mut i: usize = 0;
        while i < splits.len()
            invariant
                i <= splits@.len(),
                sp == pieces_view(splits@),
                sp == smart_split_spec(section_content(*self, section@), self.target_size as int),
                path@ == section_path(section@, all),
                meta == pairs_view(metadata@),
                chunks_view(chunks@) == Seq::new(
                    i as nat,
                    |k: int| split_chunk(*self, sp, k, file@, section.line_range, path@, meta),
                ),
            decreases splits@.len() - i,
        {
            let text = &splits[i].0;
            let tb = str_byte_len(text.as_str());
            let before: Option<String> = if i > 0 && self.overlap > 0 {
                let prev = to_chars(splits[i - 1].0.as_str());
                Some(chars_to_string(&last_chars_exec(&prev, self.overlap)))
            } else {
                None
            };
            let after: Option<String> = if i + 1 < splits.len() && self.overlap > 0 {
                let next = to_chars(splits[i + 1].0.as_str());
                Some(chars_to_string(&first_chars_exec(&next, self.overlap)))
            } else {
                None
            };
            let chunk = Chunk {
                id: make_id(&file, section.line_range.0, Some(i)),
                file: chars_to_string(&file),
                content: text.clone(),
                char_range: splits[i].1,
                line_range: section.line_range,
                section_path: path.clone(),
                context_before: before,
                context_after: after,
                token_count: self.tokens_for_bytes(tb),
                metadata: clone_pairs(metadata),
            };
            let ghost old_c = chunks_view(chunks@);
            chunks.push(chunk);
            proof {
                assert(chunk@ == split_chunk(*self, sp, i as int, file@, section.line_range, path@, meta));
                assert(chunks_view(chunks@) =~= old_c.push(chunk@));
                assert(chunks_view(chunks@) =~= Seq::new(
                    (i + 1) as nat,
                    |k: int| split_chunk(*self, sp, k, file@, section.line_range, path@, meta),
                ));
            }
            i = i + 1;
        }
        chunks
    }

    /// `Chunker::chunk_text`.
    pub fn chunk_text(&self, text: &str, file: &str, metadata: &Vec<(String, String)>) -> (r: Vec<
        Chunk,
    >)
        ensures
            chunks_view(r@) == text_chunks(*self, text@, file@, pairs_view(metadata@)),
    {
        let ghost meta = pairs_view(metadata@);
        let file = to_chars(file);
        let chars = to_chars(text);
        let splits = self.split_chars(&chars);
        let ghost sp = pieces_view(splits@);
        let mut chunks: Vec<Chunk> = Vec::new();
        let mut i: usize = 0;
        while i < splits.len()
            invariant
                i <= splits@.len(),
                sp == pieces_view(splits@),
                sp == smart_split_spec(text@, self.target_size as int),
                meta == pairs_view(metadata@),
                chunks_view(chunks@) == text_chunks(*self, text@, file@, meta).take(i as int),
            decreases splits@.len() - i,
        {
            let tb = str_byte_len(splits[i].0.as_str());
            let chunk = Chunk {
                id: make_id(&file, i, None),
                file: chars_to_string(&file),
                content: splits[i].0.clone(),
                char_range: splits[i].1,
                line_range: (0, 0),
                section_path: chars_to_string(&Vec::new()),
                context_before: None,
                context_after: None,
                token_count: self.tokens_for_bytes(tb),
                metadata: clone_pairs(metadata),
            };
            let ghost old_c = chunks_view(chunks@);
            chunks.push(chunk);
            proof {
                assert(chunk@.section_path =~= Seq::<char>::empty());
                assert(chunks_view(chunks@) =~= old_c.push(chunk@));
                assert(chunks_view(chunks@) =~= text_chunks(*self, text@, file@, meta).take(i + 1));
            }
            i = i + 1;
        }
        proof {
            assert(text_chunks(*self, text@, file@, meta).take(splits@.len() as int) =~= text_chunks(
                *self,
                text@,
                file@,
                meta,
            ));
        }
        chunks
    }

    /// Chunk a parsed document.
    pub fn chunk_document(&self, doc: &Document) -> (r: Result<Vec<Chunk>, Error>)
        ensures
            r matches Ok(c) && chunks_view(c@) == document_chunks(*self, doc@),
    {
        let metadata: Vec<(String, String)> = match &doc.frontmatter {
            Some(f) => clone_pairs(&f.fields),
            None => Vec::new(),
        };
        proof {
            assert(pairs_view(metadata@) =~= doc_metadata(doc@));
        }
        if self.respect_structure {
            let ghost secs = doc.sections@.map_values(|s: Section| s@);
            let mut chunks: Vec<Chunk> = Vec::new();
            let mut i: usize = 0;
            proof {
                assert(chunks_view(chunks@) =~= Seq::<ChunkView>::empty());
            }
            while i < doc.sections.len()
                invariant
                    i <= doc.sections@.len(),
                    secs == doc.sections@.map_values(|s: Section| s@),
                    pairs_view(metadata@) == doc_metadata(doc@),
                    chunks_view(chunks@) == sections_chunks(
                        *self,
                        secs,
                        i as int,
                        doc.path@,
                        doc_metadata(doc@),
                    ),
                decreases doc.sections@.len() - i,
            {
                let mut section_chunks = self.chunk_section(
                    &doc.sections[i],
                    doc.path.as_str(),
                    &metadata,
                    doc.sections.as_slice(),
                );
                let ghost old_c = chunks_view(chunks@);
                let ghost new_c = chunks_view(section_chunks@);
                chunks.append(&mut section_chunks);
                proof {
                    assert(chunks_view(chunks@) =~= old_c + new_c);
                }
                i = i + 1;
            }
            Ok(chunks)
        } else {
            Ok(self.chunk_text(doc.text.as_str(), doc.path.as_str(), &metadata))
        }
    }

    /// Chunk the markdown `content` of the file at `path`, last modified at
    /// `modified`.
    pub fn chunk_file(&self, path: &str, content: &str, modified: Option<u64>) -> (r: Result<
        Vec<Chunk>,
        Error,
    >)
        requires
            parse_defined(default_parser(), content@),
        ensures
            r matches Ok(c) && chunks_view(c@) == document_chunks(
                *self,
                parse_spec(default_parser(), path@, content@, modified),
            ),
    {
        let parser = Parser::new();
        let doc = match parser.parse(path, content, modified) {
            Ok(d) => d,
            Err(e) => return Err(e),
        };
        self.chunk_document(&doc)
    }
}

// ---------------------------------------------------------------------
// Laws
// ---------------------------------------------------------------------

/// The contents of chunks, one after the other.
pub open spec fn chunk_contents(cs: Seq<ChunkView>) -> Seq<Seq<char>> {
    cs.map_values(|c: ChunkView| c.content)
}

/// A chunk belongs to section `sec` of a document at `file` with
/// frontmatter fields `meta`.
pub open spec fn chunk_of_section(
    c: ChunkView,
    sec: SectionView,
    all: Seq<SectionView>,
    file: Seq<char>,
    meta: Seq<(Seq<char>, Seq<char>)>,
) -> bool {
    &&& c.file == file
    &&& c.metadata == meta
    &&& c.line_range == sec.line_range
    &&& c.section_path == section_path(sec, all)
}

/// Chunking a section loses and adds nothing: its chunks' contents, one
/// after the other, spell out the content that is chunked; every chunk
/// carries the section's file, lines, path and metadata; and chunk `j` is
/// named `{file}-{first line}-{j}`.
pub proof fn law_section_chunks_cover(
    ch: Chunker,
    sec: SectionView,
    file: Seq<char>,
    meta: Seq<(Seq<char>, Seq<char>)>,
    all: Seq<SectionView>,
)
    ensures
        concat_all(chunk_contents(section_chunks(ch, sec, file, meta, all))) == section_content(ch, sec),
        forall|j: int|
            0 <= j < section_chunks(ch, sec, file, meta, all).len() ==> chunk_of_section(
                #[trigger] section_chunks(ch, sec, file, meta, all)[j],
                sec,
                all,
                file,
                meta,
            ),
        forall|j: int|
            0 <= j < section_chunks(ch, sec, file, meta, all).len() ==> (#[trigger] section_chunks(
                ch,
                sec,
                file,
                meta,
                all,
            )[j]).id == section_chunk_id(file, sec.line_range.0 as nat, j as nat),
{
    let content = section_content(ch, sec);
    let cs = section_chunks(ch, sec, file, meta, all);
    if content.len() <= ch.target_size {
        let one = chunk_contents(cs);
        assert(one =~= seq![content]);
        assert(one.drop_last() =~= Seq::<Seq<char>>::empty());
        assert(concat_all(one.drop_last()) =~= Seq::<char>::empty());
        assert(concat_all(one) =~= content);
    } else {
        let sp = smart_split_spec(content, ch.target_size as int);
        law_smart_split_partitions(content, ch.target_size);
        assert(chunk_contents(cs) =~= piece_texts(sp));
    }
}

/// Overlap gives context continuity: when a section is split and an
/// overlap is set, each chunk after the first carries the last `overlap`
/// characters of the chunk before it, and each chunk before the last the
/// first `overlap` characters of the chunk after it.
pub proof fn law_overlap_context(
    ch: Chunker,
    sec: SectionView,
    file: Seq<char>,
    meta: Seq<(Seq<char>, Seq<char>)>,
    all: Seq<SectionView>,
)
    requires
        ch.overlap > 0,
        section_content(ch, sec).len() > ch.target_size,
    ensures
        forall|j: int|
            0 < j < section_chunks(ch, sec, file, meta, all).len() ==> (#[trigger] section_chunks(
                ch,
                sec,
                file,
                meta,
                all,
            )[j]).context_before == Some(
                last_chars(section_chunks(ch, sec, file, meta, all)[j - 1].content, ch.overlap as nat),
            ),
        forall|j: int|
            0 <= j < section_chunks(ch, sec, file, meta, all).len() - 1 ==> (#[trigger] section_chunks(
                ch,
                sec,
                file,
                meta,
                all,
            )[j]).context_after == Some(
                first_chars(section_chunks(ch, sec, file, meta, all)[j + 1].content, ch.overlap as nat),
            ),
{
    let cs = section_chunks(ch, sec, file, meta, all);
    assert forall|j: int| 0 < j < cs.len() implies (#[trigger] cs[j]).context_before == Some(
        last_chars(cs[j - 1].content, ch.overlap as nat),
    ) by {
        assert(cs[j - 1].content == smart_split_spec(section_content(ch, sec), ch.target_size as int)[j - 1].0);
    }
    assert forall|j: int| 0 <= j < cs.len() - 1 implies (#[trigger] cs[j]).context_after == Some(
        first_chars(cs[j + 1].content, ch.overlap as nat),
    ) by {
        assert(cs[j + 1].content == smart_split_spec(section_content(ch, sec), ch.target_size as int)[j + 1].0);
    }
}

/// Structure-aware chunking never crosses a section: every chunk of a
/// document comes from one of its sections, whose lines, path and file it
/// carries, with the document's frontmatter fields as metadata.
pub proof fn law_chunks_within_sections(ch: Chunker, doc: DocumentView)
    requires
        ch.respect_structure,
    ensures
        forall|j: int|
            0 <= j < document_chunks(ch, doc).len() ==> exists|k: int|
                0 <= k < doc.sections.len() && chunk_of_section(
                    #[trigger] document_chunks(ch, doc)[j],
                    doc.sections[k],
                    doc.sections,
                    doc.path,
                    doc_metadata(doc),
                ),
{
    lemma_sections_chunks_within(ch, doc.sections, doc.sections.len() as int, doc.path, doc_metadata(doc));
}

/// Lists of chunks, one after the other.
pub open spec fn concat_chunks(p: Seq<Seq<ChunkView>>) -> Seq<ChunkView>
    decreases p.len(),
{
    if p.len() == 0 {
        Seq::empty()
    } else {
        concat_chunks(p.drop_last()) + p.last()
    }
}

/// The chunks of each section of `doc`, section by section.
pub open spec fn chunks_per_section(ch: Chunker, doc: DocumentView) -> Seq<Seq<ChunkView>> {
    Seq::new(
        doc.sections.len(),
        |k: int| section_chunks(ch, doc.sections[k], doc.path, doc_metadata(doc), doc.sections),
    )
}

/// The content that each section of `doc` is chunked from.
pub open spec fn contents_per_section(ch: Chunker, doc: DocumentView) -> Seq<Seq<char>> {
    Seq::new(doc.sections.len(), |k: int| section_content(ch, doc.sections[k]))
}

proof fn lemma_concat_all_add(a: Seq<Seq<char>>, b: Seq<Seq<char>>)
    ensures
        concat_all(a + b) == concat_all(a) + concat_all(b),
    decreases b.len(),
{
    if b.len() == 0 {
        assert(a + b =~= a);
        assert(concat_all(a) + concat_all(b) =~= concat_all(a));
    } else {
        lemma_concat_all_add(a, b.drop_last());
        assert((a + b).drop_last() =~= a + b.drop_last());
        assert((a + b).last() == b.last());
    }
}

/// A section always gives at least one chunk.
proof fn lemma_section_chunks_nonempty(
    ch: Chunker,
    sec: SectionView,
    file: Seq<char>,
    meta: Seq<(Seq<char>, Seq<char>)>,
    all: Seq<SectionView>,
)
    ensures
        section_chunks(ch, sec, file, meta, all).len() > 0,
{
    let content = section_content(ch, sec);
    if content.len() > ch.target_size {
        law_smart_split_partitions(content, ch.target_size);
    }
}

proof fn lemma_sections_chunks_concat(ch: Chunker, doc: DocumentView, n: int)
    requires
        0 <= n <= doc.sections.len(),
    ensures
        sections_chunks(ch, doc.sections, n, doc.path, doc_metadata(doc)) == concat_chunks(
            chunks_per_section(ch, doc).take(n),
        ),
        concat_all(chunk_contents(sections_chunks(ch, doc.sections, n, doc.path, doc_metadata(doc))))
            == concat_all(contents_per_section(ch, doc).take(n)),
    decreases n,
{
    let meta = doc_metadata(doc);
    if n == 0 {
        assert(chunks_per_section(ch, doc).take(0) =~= Seq::<Seq<ChunkView>>::empty());
        assert(contents_per_section(ch, doc).take(0) =~= Seq::<Seq<char>>::empty());
        assert(chunk_contents(Seq::<ChunkView>::empty()) =~= Seq::<Seq<char>>::empty());
    } else {
        lemma_sections_chunks_concat(ch, doc, n - 1);
        let prev = sections_chunks(ch, doc.sections, n - 1, doc.path, meta);
        let last = section_chunks(ch, doc.sections[n - 1], doc.path, meta, doc.sections);
        assert(chunks_per_section(ch, doc).take(n).drop_last() =~= chunks_per_section(ch, doc).take(n - 1));
        assert(chunks_per_section(ch, doc).take(n).last() == last);
        assert(contents_per_section(ch, doc).take(n).drop_last() =~= contents_per_section(ch, doc).take(n - 1));
        assert(contents_per_section(ch, doc).take(n).last() == section_content(ch, doc.sections[n - 1]));
        assert(chunk_contents(prev + last) =~= chunk_contents(prev) + chunk_contents(last));
        lemma_concat_all_add(chunk_contents(prev), chunk_contents(last));
        law_section_chunks_cover(ch, doc.sections[n - 1], doc.path, meta, doc.sections);
    }
}

/// Structure-aware chunking covers every section, in order: the chunks of
/// a document are those of its first section, then those of its second,
/// and so on; every section, titled or not, gives at least one chunk; and
/// the chunks' contents, one after the other, spell out the chunked
/// contents of all the sections in order.
pub proof fn law_document_chunks_cover_sections(ch: Chunker, doc: DocumentView)
    requires
        ch.respect_structure,
    ensures
        document_chunks(ch, doc) == concat_chunks(chunks_per_section(ch, doc)),
        forall|k: int| 0 <= k < doc.sections.len() ==> (#[trigger] chunks_per_section(ch, doc)[k]).len() > 0,
        concat_all(chunk_contents(document_chunks(ch, doc))) == concat_all(contents_per_section(ch, doc)),
{
    let n = doc.sections.len() as int;
    lemma_sections_chunks_concat(ch, doc, n);
    assert(chunks_per_section(ch, doc).take(n) =~= chunks_per_section(ch, doc));
    assert(contents_per_section(ch, doc).take(n) =~= contents_per_section(ch, doc));
    assert forall|k: int| 0 <= k < doc.sections.len() implies (#[trigger] chunks_per_section(ch, doc)[k]).len() > 0 by {
        lemma_section_chunks_nonempty(ch, doc.sections[k], doc.path, doc_metadata(doc), doc.sections);
    }
}

proof fn lemma_sections_chunks_within(
    ch: Chunker,
    secs: Seq<SectionView>,
    n: int,
    file: Seq<char>,
    meta: Seq<(Seq<char>, Seq<char>)>,
)
    requires
        0 <= n <= secs.len(),
    ensures
        forall|j: int|
            0 <= j < sections_chunks(ch, secs, n, file, meta).len() ==> exists|k: int|
                0 <= k < n && chunk_of_section(
                    #[trigger] sections_chunks(ch, secs, n, file, meta)[j],
                    secs[k],
                    secs,
                    file,
                    meta,
                ),
    decreases n,
{
    if n > 0 {
        lemma_sections_chunks_within(ch, secs, n - 1, file, meta);
        let prev = sections_chunks(ch, secs, n - 1, file, meta);
        let last = section_chunks(ch, secs[n - 1], file, meta, secs);
        law_section_chunks_cover(ch, secs[n - 1], file, meta, secs);
        let all = sections_chunks(ch, secs, n, file, meta);
        assert forall|j: int| 0 <= j < all.len() implies exists|k: int|
            0 <= k < n && chunk_of_section(#[trigger] all[j], secs[k], secs, file, meta) by {
            if j < prev.len() {
                assert(all[j] == prev[j]);
                let k = choose|k: int| 0 <= k < n - 1 && chunk_of_section(#[trigger] prev[j], secs[k], secs, file, meta);
                assert(chunk_of_section(all[j], secs[k], secs, file, meta));
            } else {
                assert(all[j] == last[j - prev.len()]);
                assert(chunk_of_section(all[j], secs[n - 1], secs, file, meta));
            }
        }
    }
}

} // verus!
