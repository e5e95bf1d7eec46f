//! Records kept by the index store, and the store's own logic over them.
use crate::chunk::{chunks_view, Chunk, ChunkView};
use crate::parser::{opt_view, pairs_view, Document};
use crate::text::{find_from, find_from_exec, lowercase, lowercase_chars, to_chars, str_eq};
use vstd::prelude::*;

verus! {

/// Index metadata.
#[derive(Debug, Clone, Copy)]
pub struct IndexMetadata {
    pub version: u32,
    pub created_at: u64,
    pub updated_at: u64,
    pub document_count: u64,
    pub chunk_count: u64,
    pub total_bytes: u64,
}

/// `SystemTime::now()` as whole seconds since the Unix epoch, `None` for a
/// clock set before the epoch. It reads the clock; nothing is stated of the
/// value.
#[verifier::external_body]
fn unix_now() -> (t: Option<u64>) {
    match std::time::SystemTime::now().duration_since(std::time::UNIX_EPOCH) {
        Ok(d) => Some(d.as_secs()),
        Err(_) => None,
    }
}

impl IndexMetadata {
    /// Metadata of a new, empty index created at `now`.
    pub fn new(now: u64) -> (m: Self)
        ensures
            m.version == 1,
            m.created_at == now,
            m.updated_at == now,
            m.document_count == 0,
            m.chunk_count == 0,
            m.total_bytes == 0,
    {
        IndexMetadata {
            version: 1,
            created_at: now,
            updated_at: now,
            document_count: 0,
            chunk_count: 0,
            total_bytes: 0,
        }
    }

    /// One more document was indexed.
    pub fn record_document(&mut self)
        requires
            old(self).document_count < u64::MAX,
        ensures
            *final(self) == (IndexMetadata {
                document_count: (old(self).document_count + 1) as u64,
                ..*old(self)
            }),
    {
        self.document_count = self.document_count + 1;
    }

    /// `n` more chunks were stored.
    pub fn record_chunks(&mut self, n: u64)
        requires
            old(self).chunk_count + n <= u64::MAX,
        ensures
            *final(self) == (IndexMetadata {
                chunk_count: (old(self).chunk_count + n) as u64,
                ..*old(self)
            }),
    {
        self.chunk_count = self.chunk_count + n;
    }

    /// A document was deleted (the count does not go below zero).
    pub fn record_document_removed(&mut self)
        ensures
            *final(self) == (IndexMetadata {
                document_count: if old(self).document_count > 0 {
                    (old(self).document_count - 1) as u64
                } else {
                    0
                },
                ..*old(self)
            }),
    {
        self.document_count = self.document_count.saturating_sub(1);
    }

    /// The metadata was updated at `now`.
    pub fn touch(&mut self, now: u64)
        ensures
            *final(self) == (IndexMetadata { updated_at: now, ..*old(self) }),
    {
        self.updated_at = now;
    }
}

impl Default for IndexMetadata {
    fn default() -> (m: Self)
        ensures
            m.version == 1,
            m.created_at == m.updated_at,
            m.document_count == 0,
            m.chunk_count == 0,
            m.total_bytes == 0,
    {
        match unix_now() {
            Some(t) => IndexMetadata::new(t),
            None => IndexMetadata::new(0),
        }
    }
}

/// Document record for storage.
#[derive(Debug, Clone)]
pub struct DocumentRecord {
    pub path: String,
    pub hash: u64,
    pub modified: Option<u64>,
    pub indexed_at: u64,
    pub chunk_count: usize,
}

impl DocumentRecord {
    /// The record stored for `doc` when it is indexed at `indexed_at`.
    pub fn for_document(doc: &Document, indexed_at: u64) -> (r: Self)
        ensures
            r.path@ == doc.path@,
            r.hash == doc.hash,
            r.modified == doc.modified,
            r.indexed_at == indexed_at,
            r.chunk_count == 0,
    {
        DocumentRecord {
            path: doc.path.clone(),
            hash: doc.hash,
            modified: doc.modified,
            indexed_at,
            chunk_count: 0,
        }
    }
}

/// Term posting for inverted index.
#[derive(Debug, Clone)]
pub struct TermPosting {
    pub term: String,
    /// (document path, frequency of the term in it)
    pub doc_ids: Vec<(String, u32)>,
    pub total_frequency: u64,
}

/// A term posting as plain values.
pub struct PostingView {
    pub term: Seq<char>,
    pub doc_ids: Seq<(Seq<char>, int)>,
    pub total: int,
}

/// The (document, frequency) pairs of a posting as plain values.
pub open spec fn doc_ids_view(v: Seq<(String, u32)>) -> Seq<(Seq<char>, int)> {
    v.map_values(|p: (String, u32)| (p.0@, p.1 as int))
}

impl View for TermPosting {
    type V = PostingView;

    open spec fn view(&self) -> PostingView {
        PostingView {
            term: self.term@,
            doc_ids: doc_ids_view(self.doc_ids@),
            total: self.total_frequency as int,
        }
    }
}

/// Sum of the frequencies of a posting's entries.
pub open spec fn freq_sum(d: Seq<(Seq<char>, int)>) -> int
    decreases d.len(),
{
    if d.len() == 0 {
        0
    } else {
        freq_sum(d.drop_last()) + d.last().1
    }
}

impl TermPosting {
    /// The posting of `term` for one document at `path` where it occurs
    /// `freq` times.
    pub fn for_document(term: String, path: String, freq: u32) -> (r: Self)
        ensures
            r@ == (PostingView { term: term@, doc_ids: seq![(path@, freq as int)], total: freq as int }),
    {
        let doc_ids: Vec<(String, u32)> = vec![(path, freq)];
        proof {
            assert(doc_ids_view(doc_ids@) =~= seq![(path@, freq as int)]);
        }
        TermPosting { term, doc_ids, total_frequency: freq as u64 }
    }
}

/// `s` contains `pat` (`str::contains`).
pub open spec fn contains(s: Seq<char>, pat: Seq<char>) -> bool {
    find_from(s, pat, 0) is Some
}

/// The chunk's content contains the query, both lower-cased.
pub open spec fn chunk_matches(c: ChunkView, query: Seq<char>) -> bool {
    contains(lowercase(c.content), lowercase(query))
}

/// `Store::search_chunks` over the stored chunks in store order: the first
/// `limit` chunks whose lower-cased content contains the lower-cased query.
pub open spec fn matching_chunks(chunks: Seq<ChunkView>, query: Seq<char>, limit: nat) -> Seq<ChunkView> {
    let m = chunks.filter(|c: ChunkView| chunk_matches(c, query));
    if m.len() <= limit {
        m
    } else {
        m.take(limit as int)
    }
}

/// `Store::get_chunks_for_document` over the stored chunks in store order:
/// those of the file `path`.
pub open spec fn document_chunks_of(chunks: Seq<ChunkView>, path: Seq<char>) -> Seq<ChunkView> {
    chunks.filter(|c: ChunkView| c.file == path)
}

impl Chunk {
    /// A copy of the chunk.
    pub fn duplicate(&self) -> (r: Chunk)
        ensures
            r@ == self@,
    {
        let before = match &self.context_before {
            Some(s) => Some(s.clone()),
            None => None,
        };
        let after = match &self.context_after {
            Some(s) => Some(s.clone()),
            None => None,
        };
        Chunk {
            id: self.id.clone(),
            file: self.file.clone(),
            content: self.content.clone(),
            char_range: self.char_range,
            line_range: self.line_range,
            section_path: self.section_path.clone(),
            context_before: before,
            context_after: after,
            token_count: self.token_count,
            metadata: crate::chunk::clone_pairs(&self.metadata),
        }
    }
}

/// Whether the lower-cased `content` contains the lower-cased query
/// `query_lower`.
fn content_matches(content: &str, query_lower: &[char]) -> (b: bool)
    ensures
        b == contains(lowercase(content@), query_lower@),
{
    let chars = to_chars(content);
    let low = lowercase_chars(&chars);
    match find_from_exec(&low, query_lower, 0) {
        Some(_) => true,
        None => false,
    }
}

/// `Store::search_chunks` over `chunks`, the stored chunks in store order.
pub fn search_chunks(chunks: &[Chunk], query: &str, limit: usize) -> (r: Vec<Chunk>)
    ensures
        chunks_view(r@) == matching_chunks(chunks_view(chunks@), query@, limit as nat),
{
    let ghost cv = chunks_view(chunks@);
    let ghost pred = |c: ChunkView| chunk_matches(c, query@);
    let qc = to_chars(query);
    let ql = lowercase_chars(&qc);
    let mut results: Vec<Chunk> = Vec::new();
    let mut i: usize = 0;
    proof {
        assert(cv.take(0) =~= Seq::<ChunkView>::empty());
        assert(cv.take(0).filter(pred) =~= Seq::<ChunkView>::empty());
        assert(cv.take(cv.len() as int) =~= cv);
    }
    while i < chunks.len()
        invariant
            i <= chunks@.len(),
            cv == chunks_view(chunks@),
            ql@ == lowercase(query@),
            pred == (|c: ChunkView| chunk_matches(c, query@)),
            chunks_view(results@) == cv.take(i as int).filter(pred),
            results@.len() <= limit,
            cv.len() == chunks@.len(),
            cv.take(cv.len() as int) == cv,
        ensures
            chunks_view(results@) == matching_chunks(cv, query@, limit as nat),
        decreases chunks@.len() - i,
    {
        if results.len() >= limit {
            proof {
                lemma_filter_prefix_take(cv, pred, i as int, limit as int);
            }
            break;
        }
        proof {
            assert(cv.take(i + 1) =~= cv.take(i as int).push(cv[i as int]));
            reveal_with_fuel(Seq::<_>::filter, 1);
            assert(cv.take(i + 1).drop_last() =~= cv.take(i as int));
        }
        if content_matches(chunks[i].content.as_str(), &ql) {
            let c = chunks[i].duplicate();
            let ghost old_r = chunks_view(results@);
            results.push(c);
            proof {
                assert(chunks_view(results@) =~= old_r.push(c@));
            }
        }
        i = i + 1;
    }
    results
}

proof fn lemma_filter_prefix_take(s: Seq<ChunkView>, pred: spec_fn(ChunkView) -> bool, i: int, limit: int)
    requires
        0 <= i <= s.len(),
        0 <= limit,
        s.take(i).filter(pred).len() >= limit,
    ensures
        (if s.filter(pred).len() <= limit {
            s.filter(pred)
        } else {
            s.filter(pred).take(limit)
        }) == s.take(i).filter(pred).take(limit),
{
    assert(s =~= s.take(i) + s.skip(i));
    Seq::filter_distributes_over_add(s.take(i), s.skip(i), pred);
    let a = s.take(i).filter(pred);
    let b = s.skip(i).filter(pred);
    assert((a + b).take(limit) =~= a.take(limit));
    if s.filter(pred).len() <= limit {
        assert(a.len() == limit);
        assert(a.take(limit) =~= a);
        assert(b.len() == 0);
        assert(a + b =~= a);
    }
}

/// `Store::get_chunks_for_document` over `chunks`, the stored chunks in
/// store order.
pub fn chunks_for_document(chunks: &[Chunk], path: &str) -> (r: Vec<Chunk>)
    ensures
        chunks_view(r@) == document_chunks_of(chunks_view(chunks@), path@),
{
    let ghost cv = chunks_view(chunks@);
    let ghost pred = |c: ChunkView| c.file == path@;
    let mut results: Vec<Chunk> = Vec::new();
    let mut i: usize = 0;
    proof {
        assert(cv.take(0) =~= Seq::<ChunkView>::empty());
        assert(cv.take(0).filter(pred) =~= Seq::<ChunkView>::empty());
    }
    while i < chunks.len()
        invariant
            i <= chunks@.len(),
            cv == chunks_view(chunks@),
            pred == (|c: ChunkView| c.file == path@),
            chunks_view(results@) == cv.take(i as int).filter(pred),
        decreases chunks@.len() - i,
    {
        proof {
            assert(cv.take(i + 1) =~= cv.take(i as int).push(cv[i as int]));
            reveal_with_fuel(Seq::<_>::filter, 1);
            assert(cv.take(i + 1).drop_last() =~= cv.take(i as int));
        }
        if str_eq(chunks[i].file.as_str(), path) {
            let c = chunks[i].duplicate();
            let ghost old_r = chunks_view(results@);
            results.push(c);
            proof {
                assert(chunks_view(results@) =~= old_r.push(c@));
            }
        }
        i = i + 1;
    }
    proof {
        assert(cv.take(chunks@.len() as int) =~= cv);
    }
    results
}

/// No stored chunk belongs to the document at `path`.
pub open spec fn without_chunks(chunks: Seq<ChunkView>, path: Seq<char>) -> bool {
    forall|k: int| 0 <= k < chunks.len() ==> #[trigger] chunks[k].file != path
}

/// The documents (by path, in order) that `doctor` reports as orphaned:
/// those with no stored chunk.
pub open spec fn orphaned(paths: Seq<Seq<char>>, chunks: Seq<ChunkView>) -> Seq<Seq<char>> {
    paths.filter(|p: Seq<char>| without_chunks(chunks, p))
}

/// Whether some chunk belongs to the document at `path`.
fn has_chunks(chunks: &[Chunk], path: &str) -> (b: bool)
    ensures
        b == !without_chunks(chunks_view(chunks@), path@),
{
    let ghost cv = chunks_view(chunks@);
    let mut k: usize = 0;
    while k < chunks.len()
        invariant
            k <= chunks@.len(),
            cv == chunks_view(chunks@),
            forall|j: int| 0 <= j < k ==> #[trigger] cv[j].file != path@,
        decreases chunks@.len() - k,
    {
        if str_eq(chunks[k].file.as_str(), path) {
            proof {
                assert(cv[k as int].file == path@);
            }
            return true;
        }
        k = k + 1;
    }
    false
}

/// The paths of the stored documents that have no stored chunk, in the
/// order of `docs`; `chunks` are the stored chunks.
pub fn orphaned_documents(docs: &[DocumentRecord], chunks: &[Chunk]) -> (r: Vec<String>)
    ensures
        r@.map_values(|p: String| p@) == orphaned(
            docs@.map_values(|d: DocumentRecord| d.path@),
            chunks_view(chunks@),
        ),
{
    let ghost ps = docs@.map_values(|d: DocumentRecord| d.path@);
    let ghost cv = chunks_view(chunks@);
    let ghost pred = |p: Seq<char>| without_chunks(cv, p);
    let mut r: Vec<String> = Vec::new();
    let mut i: usize = 0;
    proof {
        assert(ps.take(0) =~= Seq::<Seq<char>>::empty());
        assert(ps.take(0).filter(pred) =~= Seq::<Seq<char>>::empty());
        assert(r@.map_values(|p: String| p@) =~= Seq::<Seq<char>>::empty());
    }
    while i < docs.len()
        invariant
            i <= docs@.len(),
            ps == docs@.map_values(|d: DocumentRecord| d.path@),
            cv == chunks_view(chunks@),
            pred == (|p: Seq<char>| without_chunks(cv, p)),
            r@.map_values(|p: String| p@) == ps.take(i as int).filter(pred),
        decreases docs@.len() - i,
    {
        proof {
            assert(ps.take(i + 1) =~= ps.take(i as int).push(ps[i as int]));
            reveal_with_fuel(Seq::<_>::filter, 1);
            assert(ps.take(i + 1).drop_last() =~= ps.take(i as int));
        }
        if !has_chunks(chunks, docs[i].path.as_str()) {
            let ghost old_r = r@.map_values(|p: String| p@);
            let p = docs[i].path.clone();
            r.push(p);
            proof {
                assert(r@.map_values(|p: String| p@) =~= old_r.push(ps[i as int]));
            }
        }
        i = i + 1;
    }
    proof {
        assert(ps.take(docs@.len() as int) =~= ps);
    }
    r
}

} // verus!
