//! Keyword search: query terms, match highlights and their rendering.
use crate::error::Error;
use crate::index::{split_words, words};
use crate::parser::{char_index_at_byte_checked, char_index_for_byte, prefix_bytes};
use crate::text::{
    append_chars, byte_len, char_index_at, chars_to_string, find_from, find_from_exec,
    is_char_boundary, lowercase, lowercase_chars, str_byte_len, sub_chars, to_chars, to_lowercase,
};
use vstd::prelude::*;

verus! {

// ---------------------------------------------------------------------
// Types
// ---------------------------------------------------------------------

/// Highlight span: byte offsets into the content and the text between them.
#[derive(Debug, Clone)]
pub struct Highlight {
    pub start: usize,
    pub end: usize,
    pub text: String,
}

/// A highlight as plain values.
pub struct HighlightView {
    pub start: int,
    pub end: int,
    pub text: Seq<char>,
}

impl View for Highlight {
    type V = HighlightView;

    open spec fn view(&self) -> HighlightView {
        HighlightView { start: self.start as int, end: self.end as int, text: self.text@ }
    }
}

/// The highlights of a list as plain values.
pub open spec fn highlights_view(v: Seq<Highlight>) -> Seq<HighlightView> {
    v.map_values(|h: Highlight| h@)
}

/// Type of match.
#[derive(Debug, Clone, Copy, PartialEq, Eq, Structural)]
pub enum MatchType {
    Exact,
    Fuzzy,
    Semantic,
    Prefix,
}

// ---------------------------------------------------------------------
// Query terms
// ---------------------------------------------------------------------

/// Keeps the pieces of at least two bytes.
pub open spec fn long_enough(w: Seq<char>) -> bool {
    byte_len(w) >= 2
}

/// `Searcher::tokenize`: the lower-cased text split at every character
/// that is not alphanumeric, keeping the pieces of at least two bytes.
pub open spec fn tokens(text: Seq<char>) -> Seq<Seq<char>> {
    words(lowercase(text)).filter(|w: Seq<char>| long_enough(w))
}

/// The characters of each string of a list.
pub open spec fn texts_view(v: Seq<String>) -> Seq<Seq<char>> {
    v.map_values(|s: String| s@)
}

/// Splits `text` into lower-cased search terms.
pub fn tokenize(text: &str) -> (r: Vec<String>)
    ensures
        texts_view(r@) == tokens(text@),
{
    let low = to_lowercase(text);
    let chars = to_chars(low.as_str());
    let ws = split_words(&chars);
    let ghost wv = ws@.map_values(|l: Vec<char>| l@);
    let ghost pred = |w: Seq<char>| long_enough(w);
    let mut r: Vec<String> = Vec::new();
    let mut i: usize = 0;
    proof {
        assert(wv.take(0) =~= Seq::<Seq<char>>::empty());
        assert(wv.take(0).filter(pred) =~= Seq::<Seq<char>>::empty());
    }
    while i < ws.len()
        invariant
            i <= ws@.len(),
            wv == ws@.map_values(|l: Vec<char>| l@),
            wv == words(lowercase(text@)),
            pred == (|w: Seq<char>| long_enough(w)),
            texts_view(r@) == wv.take(i as int).filter(pred),
        decreases ws@.len() - i,
    {
        proof {
            assert(wv.take(i + 1) =~= wv.take(i as int).push(wv[i as int]));
            reveal_with_fuel(Seq::<_>::filter, 1);
            assert(wv.take(i + 1).drop_last() =~= wv.take(i as int));
        }
        let s = chars_to_string(&ws[i]);
        let n = str_byte_len(s.as_str());
        if n >= 2 {
            let ghost old_r = texts_view(r@);
            r.push(s);
            proof {
                assert(texts_view(r@) =~= old_r.push(s@));
            }
        }
        i = i + 1;
    }
    proof {
        assert(wv.take(ws@.len() as int) =~= wv);
    }
    r
}

/// The search terms of `query`; a query without any is refused with
/// `InvalidQuery("Empty query")`.
pub fn query_terms(query: &str) -> (r: Result<Vec<String>, Error>)
    ensures
        tokens(query@).len() == 0 <==> r is Err,
        r matches Ok(t) ==> texts_view(t@) == tokens(query@),
        r matches Err(e) ==> e matches Error::InvalidQuery(m) && m@ == "Empty query"@,
{
    let terms = tokenize(query);
    if terms.len() == 0 {
        Err(Error::InvalidQuery("Empty query".to_owned()))
    } else {
        Ok(terms)
    }
}

// ---------------------------------------------------------------------
// Highlights
// ---------------------------------------------------------------------

/// The highlight of the match of a term whose byte length is `tlen` found
/// at byte `a` of the lower-cased content; its text is taken from `c`.
pub open spec fn highlight_at(c: Seq<char>, a: int, tlen: int) -> HighlightView {
    HighlightView {
        start: a,
        end: a + tlen,
        text: c.subrange(char_index_at(c, a), char_index_at(c, a + tlen)),
    }
}

/// The matches of one term, searched in the lower-cased content `cl` from
/// character `k` on: each match of `tl` (the lower-cased term) at byte `a`
/// gives the span `a .. a + byte_len(t)` of the content `c`, and the search
/// goes on from the end of that span. The flag is false where the scan
/// would slice a string off a character boundary, or would find the same
/// match again and never end.
pub open spec fn term_scan(c: Seq<char>, cl: Seq<char>, t: Seq<char>, tl: Seq<char>, k: int) -> (Seq<
    HighlightView,
>, bool)
    decreases cl.len() - k,
{
    if k < 0 || k > cl.len() {
        (Seq::empty(), false)
    } else {
        match find_from(cl, tl, k) {
            None => (Seq::empty(), true),
            Some(m) => {
                let a = byte_len(cl.take(m)) as int;
                let e = a + byte_len(t);
                if !is_char_boundary(c, a) || !is_char_boundary(c, e) || !is_char_boundary(cl, e) {
                    (Seq::empty(), false)
                } else {
                    let nk = char_index_at(cl, e);
                    if nk <= k {
                        (Seq::empty(), false)
                    } else {
                        let rest = term_scan(c, cl, t, tl, nk);
                        (seq![highlight_at(c, a, byte_len(t) as int)] + rest.0, rest.1)
                    }
                }
            },
        }
    }
}

/// The matches of the first `n` terms, term after term.
pub open spec fn terms_scan(c: Seq<char>, ts: Seq<Seq<char>>, n: int) -> (Seq<HighlightView>, bool)
    decreases n,
{
    if n <= 0 {
        (Seq::empty(), true)
    } else {
        let prev = terms_scan(c, ts, n - 1);
        let r = term_scan(c, lowercase(c), ts[n - 1], lowercase(ts[n - 1]), 0);
        (prev.0 + r.0, prev.1 && r.1)
    }
}

/// Position of the first highlight that starts at or after `s`.
pub open spec fn first_at_or_after(acc: Seq<HighlightView>, s: int) -> int
    decreases acc.len(),
{
    if acc.len() == 0 {
        0
    } else if acc[0].start >= s {
        0
    } else {
        1 + first_at_or_after(acc.drop_first(), s)
    }
}

/// Adds `h` to highlights kept in order of their starts, unless one with
/// the same start is already there.
pub open spec fn insert_by_start(acc: Seq<HighlightView>, h: HighlightView) -> Seq<HighlightView> {
    let p = first_at_or_after(acc, h.start);
    if p < acc.len() && acc[p].start == h.start {
        acc
    } else {
        acc.insert(p, h)
    }
}

/// The first `n` highlights ordered by start, keeping the first of each
/// start (a stable sort by start followed by removal of repeated starts).
pub open spec fn sort_dedup(raw: Seq<HighlightView>, n: int) -> Seq<HighlightView>
    decreases n,
{
    if n <= 0 {
        Seq::empty()
    } else {
        insert_by_start(sort_dedup(raw, n - 1), raw[n - 1])
    }
}

/// `Searcher::find_highlights`: the matches of every term in the
/// content, ordered by start, one per start.
pub open spec fn highlights_of(c: Seq<char>, ts: Seq<Seq<char>>) -> Seq<HighlightView> {
    let raw = terms_scan(c, ts, ts.len() as int).0;
    sort_dedup(raw, raw.len() as int)
}

/// The scan of every term stays on character boundaries and ends.
pub open spec fn highlights_defined(c: Seq<char>, ts: Seq<Seq<char>>) -> bool {
    terms_scan(c, ts, ts.len() as int).1
}

proof fn lemma_first_at_or_after(acc: Seq<HighlightView>, s: int)
    ensures
        0 <= first_at_or_after(acc, s) <= acc.len(),
        first_at_or_after(acc, s) < acc.len() ==> acc[first_at_or_after(acc, s)].start >= s,
        forall|j: int| 0 <= j < first_at_or_after(acc, s) ==> #[trigger] acc[j].start < s,
    decreases acc.len(),
{
    if acc.len() > 0 && acc[0].start < s {
        lemma_first_at_or_after(acc.drop_first(), s);
        assert forall|j: int| 0 <= j < first_at_or_after(acc, s) implies #[trigger] acc[j].start < s by {
            if j > 0 {
                assert(acc[j] == acc.drop_first()[j - 1]);
            }
        }
    }
}

proof fn lemma_first_at_or_after_exact(acc: Seq<HighlightView>, s: int, i: int)
    requires
        0 <= i <= acc.len(),
        forall|j: int| 0 <= j < i ==> #[trigger] acc[j].start < s,
        i == acc.len() || acc[i].start >= s,
    ensures
        first_at_or_after(acc, s) == i,
    decreases i,
{
    if i > 0 {
        assert forall|j: int| 0 <= j < i - 1 implies #[trigger] acc.drop_first()[j].start < s by {
            assert(acc.drop_first()[j] == acc[j + 1]);
        }
        lemma_first_at_or_after_exact(acc.drop_first(), s, i - 1);
    }
}

/// Highlights in order of start, each start once.
pub open spec fn strictly_ordered(r: Seq<HighlightView>) -> bool {
    forall|a: int, b: int| 0 <= a < b < r.len() ==> #[trigger] r[a].start < #[trigger] r[b].start
}

/// No highlight before `raw[k]` has its start.
#[verifier::opaque]
pub open spec fn first_of_start(raw: Seq<HighlightView>, k: int) -> bool {
    forall|m: int| 0 <= m < k ==> #[trigger] raw[m].start != raw[k].start
}

/// Each highlight of `r` is the first of `raw` with its start.
pub open spec fn firsts_of(r: Seq<HighlightView>, raw: Seq<HighlightView>) -> bool {
    forall|j: int|
        0 <= j < r.len() ==> exists|k: int|
            0 <= k < raw.len() && raw[k] == #[trigger] r[j] && #[trigger] first_of_start(raw, k)
}

/// Every start of `raw[..n]` has a highlight in `r`.
pub open spec fn covers(r: Seq<HighlightView>, raw: Seq<HighlightView>, n: int) -> bool {
    forall|k: int| 0 <= k < n ==> exists|j: int| 0 <= j < r.len() && #[trigger] r[j].start == #[trigger] raw[k].start
}

/// No highlight of an ordered list other than the one at
/// `first_at_or_after` can share the start of `h`.
proof fn lemma_same_start_at_position(acc: Seq<HighlightView>, h: HighlightView, j: int)
    requires
        strictly_ordered(acc),
        0 <= j < acc.len(),
        acc[j].start == h.start,
    ensures
        j == first_at_or_after(acc, h.start),
{
    lemma_first_at_or_after(acc, h.start);
    let p = first_at_or_after(acc, h.start);
    if j > p {
        assert(acc[p].start < acc[j].start);
    }
}

proof fn lemma_step_ordered(acc: Seq<HighlightView>, h: HighlightView)
    requires
        strictly_ordered(acc),
    ensures
        strictly_ordered(insert_by_start(acc, h)),
{
    lemma_first_at_or_after(acc, h.start);
    let p = first_at_or_after(acc, h.start);
    if !(p < acc.len() && acc[p].start == h.start) {
        let r = acc.insert(p, h);
        assert forall|a: int, b: int| 0 <= a < b < r.len() implies #[trigger] r[a].start < #[trigger] r[b].start by {
            if b < p {
                assert(r[a] == acc[a] && r[b] == acc[b]);
            } else if b == p {
                assert(r[a] == acc[a]);
            } else if a < p {
                assert(r[a] == acc[a] && r[b] == acc[b - 1]);
                assert(acc[b - 1].start >= acc[p].start);
            } else if a == p {
                assert(r[b] == acc[b - 1]);
                assert(acc[b - 1].start >= acc[p].start);
            } else {
                assert(r[a] == acc[a - 1] && r[b] == acc[b - 1]);
            }
        }
    }
}

proof fn lemma_step_covers(raw: Seq<HighlightView>, n: int)
    requires
        0 < n <= raw.len(),
        covers(sort_dedup(raw, n - 1), raw, n - 1),
    ensures
        covers(sort_dedup(raw, n), raw, n),
{
    let acc = sort_dedup(raw, n - 1);
    let h = raw[n - 1];
    let r = sort_dedup(raw, n);
    lemma_first_at_or_after(acc, h.start);
    let p = first_at_or_after(acc, h.start);
    let kept = p < acc.len() && acc[p].start == h.start;
    assert forall|k: int| 0 <= k < n implies exists|j: int|
        0 <= j < r.len() && #[trigger] r[j].start == #[trigger] raw[k].start by {
        if k == n - 1 {
            assert(r[p].start == raw[k].start);
        } else {
            let j = choose|j: int| 0 <= j < acc.len() && #[trigger] acc[j].start == #[trigger] raw[k].start;
            if kept || j < p {
                assert(r[j].start == raw[k].start);
            } else {
                assert(r[j + 1].start == raw[k].start);
            }
        }
    }
}

/// A start that `insert_by_start` adds was not among the earlier ones.
proof fn lemma_new_start(raw: Seq<HighlightView>, n: int, acc: Seq<HighlightView>)
    requires
        0 < n <= raw.len(),
        strictly_ordered(acc),
        covers(acc, raw, n - 1),
        !(first_at_or_after(acc, raw[n - 1].start) < acc.len() && acc[first_at_or_after(
            acc,
            raw[n - 1].start,
        )].start == raw[n - 1].start),
    ensures
        first_of_start(raw, n - 1),
{
    reveal(first_of_start);
    let h = raw[n - 1];
    assert forall|m: int| 0 <= m < n - 1 implies #[trigger] raw[m].start != raw[n - 1].start by {
        if raw[m].start == h.start {
            let jj = choose|jj: int| 0 <= jj < acc.len() && #[trigger] acc[jj].start == #[trigger] raw[m].start;
            lemma_same_start_at_position(acc, h, jj);
        }
    }
}

proof fn lemma_firsts_inserted(raw: Seq<HighlightView>, n: int, acc: Seq<HighlightView>, p: int)
    requires
        0 < n <= raw.len(),
        0 <= p <= acc.len(),
        firsts_of(acc, raw),
        first_of_start(raw, n - 1),
    ensures
        firsts_of(acc.insert(p, raw[n - 1]), raw),
{
    let r = acc.insert(p, raw[n - 1]);
    assert forall|j: int| 0 <= j < r.len() implies exists|k: int|
        0 <= k < raw.len() && raw[k] == #[trigger] r[j] && #[trigger] first_of_start(raw, k) by {
        if j == p {
            assert(raw[n - 1] == r[j]);
        } else {
            let jj = if j < p {
                j
            } else {
                j - 1
            };
            assert(r[j] == acc[jj]);
            let k = choose|k: int| 0 <= k < raw.len() && raw[k] == #[trigger] acc[jj] && #[trigger] first_of_start(raw, k);
            assert(raw[k] == r[j]);
        }
    }
}

proof fn lemma_step_firsts(raw: Seq<HighlightView>, n: int)
    requires
        0 < n <= raw.len(),
        strictly_ordered(sort_dedup(raw, n - 1)),
        firsts_of(sort_dedup(raw, n - 1), raw),
        covers(sort_dedup(raw, n - 1), raw, n - 1),
    ensures
        firsts_of(sort_dedup(raw, n), raw),
{
    let acc = sort_dedup(raw, n - 1);
    let h = raw[n - 1];
    let p = first_at_or_after(acc, h.start);
    lemma_first_at_or_after(acc, h.start);
    if p < acc.len() && acc[p].start == h.start {
    } else {
        lemma_new_start(raw, n, acc);
        lemma_firsts_inserted(raw, n, acc, p);
    }
}

proof fn lemma_sort_dedup(raw: Seq<HighlightView>, n: int)
    requires
        0 <= n <= raw.len(),
    ensures
        strictly_ordered(sort_dedup(raw, n)),
        firsts_of(sort_dedup(raw, n), raw),
        covers(sort_dedup(raw, n), raw, n),
    decreases n,
{
    if n > 0 {
        lemma_sort_dedup(raw, n - 1);
        lemma_step_ordered(sort_dedup(raw, n - 1), raw[n - 1]);
        lemma_step_covers(raw, n);
        lemma_step_firsts(raw, n);
    }
}

/// Highlights come out ordered by start with no start twice; each is the
/// first match found at its start, and every match found has a highlight
/// at its start.
pub proof fn law_highlights_ordered(raw: Seq<HighlightView>)
    ensures
        strictly_ordered(sort_dedup(raw, raw.len() as int)),
        firsts_of(sort_dedup(raw, raw.len() as int), raw),
        covers(sort_dedup(raw, raw.len() as int), raw, raw.len() as int),
{
    lemma_sort_dedup(raw, raw.len() as int);
}

/// Appends the matches of one term to `out`; false where the scan would
/// panic or not end.
fn scan_term(
    c: &Vec<char>,
    cl: &Vec<char>,
    t: &str,
    out: &mut Vec<Highlight>,
) -> (ok: bool)
    requires
        byte_len(cl@) <= isize::MAX,
    ensures
        ok == term_scan(c@, cl@, t@, lowercase(t@), 0).1,
        ok ==> highlights_view(final(out)@) == highlights_view(old(out)@) + term_scan(
            c@,
            cl@,
            t@,
            lowercase(t@),
            0,
        ).0,
{
    let tc = to_chars(t);
    let tl = lowercase_chars(&tc);
    let tlen = str_byte_len(t);
    let ghost full = term_scan(c@, cl@, t@, tl@, 0);
    let ghost base = highlights_view(out@);
    let mut k: usize = 0;
    proof {
        lemma_byte_len_bound(cl@);
    }
    loop
        invariant
            k <= cl@.len(),
            tl@ == lowercase(t@),
            tlen == byte_len(t@),
            tlen <= isize::MAX,
            byte_len(cl@) <= isize::MAX,
            full == term_scan(c@, cl@, t@, tl@, 0),
            base == highlights_view(old(out)@),
            full.1 == term_scan(c@, cl@, t@, tl@, k as int).1,
            highlights_view(out@) + term_scan(c@, cl@, t@, tl@, k as int).0 == base + full.0,
        decreases cl@.len() - k,
    {
        let ghost here = term_scan(c@, cl@, t@, tl@, k as int);
        match find_from_exec(cl, &tl, k) {
            None => {
                proof {
                    assert(here.0 =~= Seq::<HighlightView>::empty());
                    assert(highlights_view(out@) + here.0 =~= highlights_view(out@));
                }
                return true;
            },
            Some(m) => {
                proof {
                    crate::text::lemma_find_from_props(cl@, tl@, k as int);
                    crate::text::lemma_byte_len_prefix(cl@, m as int, cl@.len() as int);
                    assert(cl@.take(m as int) =~= cl@.subrange(0, m as int));
                }
                let a = prefix_bytes(cl, m);
                let e = a + tlen;
                let ca = char_index_at_byte_checked(c, a);
                let ce = char_index_at_byte_checked(c, e);
                let nk = char_index_at_byte_checked(cl, e);
                match (ca, ce, nk) {
                    (Some(ia), Some(ie), Some(n)) => {
                        if n <= k {
                            return false;
                        }
                        proof {
                            if ia > ie {
                                crate::text::lemma_byte_len_prefix(c@, ie as int, ia as int);
                                assert(c@.take(ie as int) =~= c@.subrange(0, ie as int));
                                assert(c@.take(ia as int) =~= c@.subrange(0, ia as int));
                            }
                        }
                        let piece = sub_chars(c, ia, ie);
                        let text = chars_to_string(&piece);
                        let h = Highlight { start: a, end: e, text };
                        let ghost old_out = highlights_view(out@);
                        out.push(h);
                        proof {
                            assert(highlights_view(out@) =~= old_out.push(h@));
                            assert(h@ == highlight_at(c@, a as int, tlen as int));
                            assert(here.0 =~= seq![h@] + term_scan(c@, cl@, t@, tl@, n as int).0);
                            assert(old_out.push(h@) + term_scan(c@, cl@, t@, tl@, n as int).0 =~= old_out
                                + here.0);
                        }
                        k = n;
                    },
                    _ => {
                        return false;
                    },
                }
            },
        }
    }
}

/// The byte length of a character sequence is at least its length.
proof fn lemma_byte_len_bound(s: Seq<char>)
    ensures
        s.len() <= byte_len(s),
{
    crate::text::lemma_byte_len_prefix(s, 0, s.len() as int);
    assert(s.subrange(0, s.len() as int) =~= s);
    assert(s.subrange(0, 0) =~= Seq::<char>::empty());
}

proof fn lemma_terms_scan_ok_prefix(c: Seq<char>, ts: Seq<Seq<char>>, i: int, n: int)
    requires
        0 <= i <= n,
        terms_scan(c, ts, n).1,
    ensures
        terms_scan(c, ts, i).1,
    decreases n - i,
{
    if i < n {
        lemma_terms_scan_ok_prefix(c, ts, i, n - 1);
    }
}

/// The raw matches of every term, in the order they are found, and
/// whether the scan stayed defined.
fn scan_highlights(content: &str, terms: &[String]) -> (r: (Vec<Highlight>, bool))
    ensures
        r.1 == highlights_defined(content@, texts_view(terms@)),
        r.1 ==> highlights_view(r.0@) == terms_scan(
            content@,
            texts_view(terms@),
            terms@.len() as int,
        ).0,
{
    let ghost ts = texts_view(terms@);
    let c = to_chars(content);
    let low = to_lowercase(content);
    let _n = str_byte_len(low.as_str());
    let cl = to_chars(low.as_str());
    let mut raw: Vec<Highlight> = Vec::new();
    let mut i: usize = 0;
    proof {
        assert(highlights_view(raw@) =~= Seq::<HighlightView>::empty());
    }
    while i < terms.len()
        invariant
            i <= terms@.len(),
            ts == texts_view(terms@),
            c@ == content@,
            cl@ == lowercase(content@),
            byte_len(cl@) <= isize::MAX,
            terms_scan(content@, ts, i as int).1,
            highlights_view(raw@) == terms_scan(content@, ts, i as int).0,
        decreases terms@.len() - i,
    {
        let ok = scan_term(&c, &cl, terms[i].as_str(), &mut raw);
        if !ok {
            proof {
                assert(!terms_scan(content@, ts, i + 1).1);
                if terms_scan(content@, ts, ts.len() as int).1 {
                    lemma_terms_scan_ok_prefix(content@, ts, i + 1, ts.len() as int);
                }
            }
            return (raw, false);
        }
        i = i + 1;
    }
    (raw, true)
}

/// A copy of a highlight.
fn copy_highlight(h: &Highlight) -> (r: Highlight)
    ensures
        r@ == h@,
{
    Highlight { start: h.start, end: h.end, text: h.text.clone() }
}

/// The highlights ordered by start, keeping the first of each start.
fn order_highlights(raw: &Vec<Highlight>) -> (r: Vec<Highlight>)
    ensures
        highlights_view(r@) == sort_dedup(highlights_view(raw@), raw@.len() as int),
{
    let ghost rv = highlights_view(raw@);
    let mut acc: Vec<Highlight> = Vec::new();
    let mut i: usize = 0;
    proof {
        assert(highlights_view(acc@) =~= Seq::<HighlightView>::empty());
    }
    while i < raw.len()
        invariant
            i <= raw@.len(),
            rv == highlights_view(raw@),
            highlights_view(acc@) == sort_dedup(rv, i as int),
        decreases raw@.len() - i,
    {
        let h = copy_highlight(&raw[i]);
        let ghost av = highlights_view(acc@);
        let mut p: usize = 0;
        while p < acc.len() && acc[p].start < h.start
            invariant
                p <= acc@.len(),
                av == highlights_view(acc@),
                forall|j: int| 0 <= j < p ==> #[trigger] av[j].start < h.start,
            decreases acc@.len() - p,
        {
            p = p + 1;
        }
        proof {
            lemma_first_at_or_after_exact(av, h@.start, p as int);
            assert(rv[i as int] == h@);
        }
        if p < acc.len() && acc[p].start == h.start {
        } else {
            acc.insert(p, h);
            proof {
                assert(highlights_view(acc@) =~= av.insert(p as int, h@));
            }
        }
        i = i + 1;
    }
    acc
}

/// Whether `find_highlights` can run on `content` and `terms`: every slice
/// it takes falls on character boundaries and every scan ends.
pub fn can_find_highlights(content: &str, terms: &[String]) -> (b: bool)
    ensures
        b == highlights_defined(content@, texts_view(terms@)),
{
    scan_highlights(content, terms).1
}

/// `Searcher::find_highlights`: every match of every term (lower-cased
/// search in the lower-cased content) as a span of the content, ordered by
/// start, one per start.
pub fn find_highlights(content: &str, terms: &[String]) -> (r: Vec<Highlight>)
    requires
        highlights_defined(content@, texts_view(terms@)),
    ensures
        highlights_view(r@) == highlights_of(content@, texts_view(terms@)),
{
    let (raw, _ok) = scan_highlights(content, terms);
    order_highlights(&raw)
}

/// `find_highlights` where it is defined, else `None`.
pub fn try_find_highlights(content: &str, terms: &[String]) -> (r: Option<Vec<Highlight>>)
    ensures
        r is Some <==> highlights_defined(content@, texts_view(terms@)),
        r matches Some(v) ==> highlights_view(v@) == highlights_of(content@, texts_view(terms@)),
{
    if can_find_highlights(content, terms) {
        Some(find_highlights(content, terms))
    } else {
        None
    }
}

// ---------------------------------------------------------------------
// Rendering highlights
// ---------------------------------------------------------------------

/// The marker put around a highlighted match.
pub open spec fn stars() -> Seq<char> {
    seq!['*', '*']
}

/// `highlight_matches` after the first `n` highlights: the text so far,
/// the byte where the previous highlight ended, and whether every slice so
/// far fell on character boundaries.
pub open spec fn marked_fold(c: Seq<char>, hs: Seq<HighlightView>, n: int) -> (Seq<char>, int, bool)
    decreases n,
{
    if n <= 0 {
        (Seq::empty(), 0, true)
    } else {
        let prev = marked_fold(c, hs, n - 1);
        let h = hs[n - 1];
        let last = prev.1;
        if h.start > last {
            (
                prev.0 + c.subrange(char_index_at(c, last), char_index_at(c, h.start)) + stars() + h.text
                    + stars(),
                h.end,
                prev.2 && is_char_boundary(c, last) && is_char_boundary(c, h.start),
            )
        } else {
            (prev.0 + stars() + h.text + stars(), h.end, prev.2)
        }
    }
}

/// The content with each highlight's text put between `**` markers, the
/// content between highlights copied as it is.
pub open spec fn marked_text(c: Seq<char>, hs: Seq<HighlightView>) -> Seq<char> {
    if hs.len() == 0 {
        c
    } else {
        let f = marked_fold(c, hs, hs.len() as int);
        if f.1 < byte_len(c) {
            f.0 + c.subrange(char_index_at(c, f.1), c.len() as int)
        } else {
            f.0
        }
    }
}

/// Every slice that `highlight_matches` takes falls on character
/// boundaries of the content.
pub open spec fn marking_defined(c: Seq<char>, hs: Seq<HighlightView>) -> bool {
    hs.len() == 0 || {
        let f = marked_fold(c, hs, hs.len() as int);
        f.2 && (f.1 < byte_len(c) ==> is_char_boundary(c, f.1))
    }
}

proof fn lemma_marked_fold_ok_prefix(c: Seq<char>, hs: Seq<HighlightView>, i: int, n: int)
    requires
        0 <= i <= n,
        marked_fold(c, hs, n).2,
    ensures
        marked_fold(c, hs, i).2,
    decreases n - i,
{
    if i < n {
        lemma_marked_fold_ok_prefix(c, hs, i, n - 1);
    }
}

/// Character indices grow with byte offsets.
proof fn lemma_char_index_monotone(s: Seq<char>, a: int, b: int)
    requires
        is_char_boundary(s, a),
        is_char_boundary(s, b),
        a <= b,
    ensures
        0 <= char_index_at(s, a) <= char_index_at(s, b) <= s.len(),
{
    let ia = char_index_at(s, a);
    let ib = char_index_at(s, b);
    if ia > ib {
        crate::text::lemma_byte_len_prefix(s, ib, ia);
        crate::text::lemma_char_index_unique(s, ia, ib);
    }
}

/// Puts `**` around each highlighted match of `content`.
pub fn highlight_matches(content: &str, highlights: &[Highlight]) -> (r: String)
    requires
        marking_defined(content@, highlights_view(highlights@)),
    ensures
        r@ == marked_text(content@, highlights_view(highlights@)),
{
    let ghost hs = highlights_view(highlights@);
    if highlights.len() == 0 {
        return content.to_owned();
    }
    let c = to_chars(content);
    let total = str_byte_len(content);
    let mut out: Vec<char> = Vec::new();
    let mut last: usize = 0;
    let mut i: usize = 0;
    proof {
        lemma_marked_fold_ok_prefix(c@, hs, 0, hs.len() as int);
    }
    while i < highlights.len()
        invariant
            i <= highlights@.len(),
            hs == highlights_view(highlights@),
            c@ == content@,
            hs.len() > 0,
            marked_fold(c@, hs, hs.len() as int).2,
            out@ == marked_fold(c@, hs, i as int).0,
            last as int == marked_fold(c@, hs, i as int).1,
        decreases highlights@.len() - i,
    {
        proof {
            lemma_marked_fold_ok_prefix(c@, hs, i + 1, hs.len() as int);
        }
        let start = highlights[i].start;
        if start > last {
            proof {
                lemma_char_index_monotone(c@, last as int, start as int);
            }
            let a = char_index_for_byte(&c, last);
            let b = char_index_for_byte(&c, start);
            let piece = sub_chars(&c, a, b);
            append_chars(&mut out, &piece);
        }
        out.push('*');
        out.push('*');
        let tc = to_chars(highlights[i].text.as_str());
        append_chars(&mut out, &tc);
        out.push('*');
        out.push('*');
        proof {
            assert(hs[i as int] == highlights@[i as int]@);
            assert(out@ =~= marked_fold(c@, hs, i + 1).0);
        }
        last = highlights[i].end;
        i = i + 1;
    }
    if last < total {
        let a = char_index_for_byte(&c, last);
        let piece = sub_chars(&c, a, c.len());
        append_chars(&mut out, &piece);
    }
    chars_to_string(&out)
}

/// Keeps every character but `*`.
pub open spec fn not_star() -> spec_fn(char) -> bool {
    |ch: char| ch != '*'
}

/// `s` with every `*` removed.
pub open spec fn without_stars(s: Seq<char>) -> Seq<char> {
    s.filter(not_star())
}

/// Highlights that mark whole spans of the content one after the other:
/// each starts and ends on character boundaries, `start <= end`, holds the
/// content's characters between them, and starts at or after the end of
/// the highlight before it.
pub open spec fn disjoint_spans(c: Seq<char>, hs: Seq<HighlightView>) -> bool {
    &&& forall|j: int|
        0 <= j < hs.len() ==> {
            &&& is_char_boundary(c, (#[trigger] hs[j]).start)
            &&& is_char_boundary(c, hs[j].end)
            &&& hs[j].start <= hs[j].end
            &&& hs[j].text == c.subrange(char_index_at(c, hs[j].start), char_index_at(c, hs[j].end))
        }
    &&& forall|j: int| 0 < j < hs.len() ==> hs[j - 1].end <= (#[trigger] hs[j]).start
}

proof fn lemma_without_stars_add(a: Seq<char>, b: Seq<char>)
    ensures
        without_stars(a + b) == without_stars(a) + without_stars(b),
{
    Seq::filter_distributes_over_add(a, b, not_star());
}

proof fn lemma_without_stars_plain(s: Seq<char>)
    requires
        !s.contains('*'),
    ensures
        without_stars(s) == s,
    decreases s.len(),
{
    reveal(Seq::filter);
    if s.len() > 0 {
        let d = s.drop_last();
        assert(!d.contains('*')) by {
            if d.contains('*') {
                let k = choose|k: int| 0 <= k < d.len() && d[k] == '*';
                assert(s[k] == '*');
            }
        }
        lemma_without_stars_plain(d);
        assert(s[s.len() - 1] != '*');
        assert(d.push(s.last()) =~= s);
    }
}

proof fn lemma_without_stars_markers()
    ensures
        without_stars(stars()) == Seq::<char>::empty(),
{
    reveal_with_fuel(Seq::filter, 3);
    assert(stars().drop_last().drop_last() =~= Seq::<char>::empty());
}

proof fn lemma_slice_without_stars(c: Seq<char>, a: int, b: int)
    requires
        !c.contains('*'),
        0 <= a <= b <= c.len(),
    ensures
        without_stars(c.subrange(a, b)) == c.subrange(a, b),
{
    let p = c.subrange(a, b);
    assert(!p.contains('*')) by {
        if p.contains('*') {
            let k = choose|k: int| 0 <= k < p.len() && p[k] == '*';
            assert(c[a + k] == '*');
        }
    }
    lemma_without_stars_plain(p);
}

/// The character index at a boundary lies within the text, and byte 0 sits
/// at index 0.
proof fn lemma_char_index_bounds(c: Seq<char>, b: int)
    requires
        is_char_boundary(c, b),
    ensures
        0 <= char_index_at(c, b) <= c.len(),
        byte_len(c.subrange(0, char_index_at(c, b))) == b,
        b == 0 ==> char_index_at(c, b) == 0,
        b >= byte_len(c) ==> char_index_at(c, b) == c.len(),
{
    let k = char_index_at(c, b);
    if b == 0 {
        assert(c.subrange(0, 0) =~= Seq::<char>::empty());
        crate::text::lemma_char_index_unique(c, k, 0);
    }
    if b >= byte_len(c) && k < c.len() {
        crate::text::lemma_byte_len_prefix(c, k, c.len() as int);
        assert(c.subrange(0, c.len() as int) =~= c);
    }
}

proof fn lemma_marked_fold_strips(c: Seq<char>, hs: Seq<HighlightView>, n: int)
    requires
        !c.contains('*'),
        disjoint_spans(c, hs),
        0 <= n <= hs.len(),
    ensures
        marked_fold(c, hs, n).2,
        is_char_boundary(c, marked_fold(c, hs, n).1),
        n > 0 ==> marked_fold(c, hs, n).1 == hs[n - 1].end,
        n == 0 ==> marked_fold(c, hs, n).1 == 0,
        without_stars(marked_fold(c, hs, n).0) == c.take(char_index_at(c, marked_fold(c, hs, n).1)),
    decreases n,
{
    if n == 0 {
        assert(c.subrange(0, 0) =~= Seq::<char>::empty());
        assert(byte_len(c.subrange(0, 0)) == 0);
        assert(is_char_boundary(c, 0));
        lemma_char_index_bounds(c, 0);
        reveal(Seq::filter);
        assert(c.take(0) =~= Seq::<char>::empty());
    } else {
        lemma_marked_fold_strips(c, hs, n - 1);
        let prev = marked_fold(c, hs, n - 1);
        let last = prev.1;
        let h = hs[n - 1];
        assert(last <= h.start) by {
            if n - 1 > 0 {
                assert(hs[n - 2].end <= hs[n - 1].start);
            }
        }
        lemma_char_index_monotone(c, last, h.start);
        lemma_char_index_monotone(c, h.start, h.end);
        let il = char_index_at(c, last);
        let is = char_index_at(c, h.start);
        let ie = char_index_at(c, h.end);
        lemma_slice_without_stars(c, il, is);
        lemma_slice_without_stars(c, is, ie);
        lemma_without_stars_markers();
        let mid = c.subrange(il, is);
        if h.start > last {
            lemma_without_stars_add(prev.0, mid);
            lemma_without_stars_add(prev.0 + mid, stars());
            lemma_without_stars_add(prev.0 + mid + stars(), h.text);
            lemma_without_stars_add(prev.0 + mid + stars() + h.text, stars());
            assert(c.take(il) + mid + h.text =~= c.take(ie));
        } else {
            lemma_without_stars_add(prev.0, stars());
            lemma_without_stars_add(prev.0 + stars(), h.text);
            lemma_without_stars_add(prev.0 + stars() + h.text, stars());
            assert(c.take(il) + h.text =~= c.take(ie));
        }
    }
}

/// Highlighting only adds markers: when the content holds no `*` and the
/// highlights mark disjoint spans of it in order, `highlight_matches` is
/// defined there, and removing every `*` from what it returns gives back
/// the content.
pub proof fn law_highlight_only_adds_markers(c: Seq<char>, hs: Seq<HighlightView>)
    requires
        !c.contains('*'),
        disjoint_spans(c, hs),
    ensures
        marking_defined(c, hs),
        without_stars(marked_text(c, hs)) == c,
{
    if hs.len() == 0 {
        lemma_without_stars_plain(c);
    } else {
        let n = hs.len() as int;
        lemma_marked_fold_strips(c, hs, n);
        let f = marked_fold(c, hs, n);
        lemma_char_index_bounds(c, f.1);
        let k = char_index_at(c, f.1);
        if f.1 < byte_len(c) {
            lemma_slice_without_stars(c, k, c.len() as int);
            lemma_without_stars_add(f.0, c.subrange(k, c.len() as int));
            assert(c.take(k) + c.subrange(k, c.len() as int) =~= c);
        } else {
            assert(c.take(k) =~= c);
        }
    }
}

/// Whether `highlight_matches` can run on `content` and `highlights`:
/// every slice it takes falls on character boundaries.
pub fn can_highlight_matches(content: &str, highlights: &[Highlight]) -> (b: bool)
    ensures
        b == marking_defined(content@, highlights_view(highlights@)),
{
    let ghost hs = highlights_view(highlights@);
    if highlights.len() == 0 {
        return true;
    }
    let c = to_chars(content);
    let total = str_byte_len(content);
    let mut last: usize = 0;
    let mut i: usize = 0;
    while i < highlights.len()
        invariant
            i <= highlights@.len(),
            hs == highlights_view(highlights@),
            c@ == content@,
            hs.len() > 0,
            marked_fold(c@, hs, i as int).2,
            last as int == marked_fold(c@, hs, i as int).1,
        decreases highlights@.len() - i,
    {
        let start = highlights[i].start;
        if start > last {
            let a = char_index_at_byte_checked(&c, last);
            let b = char_index_at_byte_checked(&c, start);
            if a.is_none() || b.is_none() {
                proof {
                    assert(!marked_fold(c@, hs, i + 1).2);
                    if marked_fold(c@, hs, hs.len() as int).2 {
                        lemma_marked_fold_ok_prefix(c@, hs, i + 1, hs.len() as int);
                    }
                }
                return false;
            }
        }
        last = highlights[i].end;
        i = i + 1;
    }
    if last < total {
        char_index_at_byte_checked(&c, last).is_some()
    } else {
        true
    }
}

} // verus!
