//! The data that moves between the stages of indexing: analyzed books, the
//! batch that becomes a segment, and the files of a segment.
use vstd::prelude::*;

verus! {

/// The header of a segment.
#[derive(Clone, Debug)]
pub struct SegmentMeta {
    pub num_docs: u32,
    pub base_doc_id: u32,
    pub total_length: u64,
}

/// The manifest of an index: its segments and the totals over them.
#[derive(Debug)]
pub struct IndexMeta {
    pub segments: Vec<String>,
    pub total_docs: u32,
    /// Sum of the analyzed lengths of all chunks.
    pub total_length: u64,
}

/// One chunk of a book after analysis: how many tokens it has, and how
/// often each term occurs in it. No term is listed twice.
pub struct ChunkTerms {
    pub length: u32,
    pub freqs: Vec<(String, u32)>,
}

/// One book after analysis.
pub struct ProcessedDoc {
    pub book_id: String,
    pub chunks: Vec<ChunkTerms>,
}

/// The books that go into one segment, and the first document id to give
/// out.
pub struct BatchData {
    pub segment_id: usize,
    pub docs: Vec<ProcessedDoc>,
    pub base_doc_id: u32,
}

impl ChunkTerms {
    /// No term is listed twice.
    pub open spec fn wf(&self) -> bool {
        forall|i: int, j: int|
            0 <= i < j < self.freqs@.len() ==> self.freqs@[i].0@ != self.freqs@[j].0@
    }

    /// The chunk lists the term among its first `upto` terms.
    pub open spec fn lists_before(&self, term: Seq<char>, upto: int) -> bool {
        exists|i: int| 0 <= i < upto && i < self.freqs@.len() && #[trigger] self.freqs@[i].0@ == term
    }

    /// The chunk lists the term.
    pub open spec fn lists(&self, term: Seq<char>) -> bool {
        self.lists_before(term, self.freqs@.len() as int)
    }

    /// How often a listed term occurs in the chunk.
    pub open spec fn freq_of(&self, term: Seq<char>) -> u32 {
        self.freqs@[choose|i: int| 0 <= i < self.freqs@.len() && #[trigger] self.freqs@[i].0@ == term].1
    }

    /// A chunk of `length` tokens with the given term frequencies, or
    /// nothing where a term is listed twice.
    pub fn new(length: u32, freqs: Vec<(String, u32)>) -> (r: Option<ChunkTerms>)
        ensures
            r is Some <==> (forall|i: int, j: int|
                0 <= i < j < freqs@.len() ==> freqs@[i].0@ != freqs@[j].0@),
            r is Some ==> r->Some_0.wf() && r->Some_0.length == length && r->Some_0.freqs == freqs,
    {
        let n: usize = freqs.len();
        let mut j: usize = 0;
        while j < n
            invariant
                j <= n,
                n == freqs@.len(),
                forall|a: int, b: int| 0 <= a < b < j ==> freqs@[a].0@ != freqs@[b].0@,
            decreases n - j,
        {
            let mut i: usize = 0;
            while i < j
                invariant
                    i <= j < n,
                    n == freqs@.len(),
                    forall|a: int| 0 <= a < i ==> freqs@[a].0@ != freqs@[j as int].0@,
                decreases j - i,
            {
                if freqs[i].0 == freqs[j].0 {
                    return None;
                }
                i = i + 1;
            }
            j = j + 1;
        }
        Some(ChunkTerms { length, freqs })
    }
}

impl ProcessedDoc {
    /// Every chunk is well formed.
    pub open spec fn wf(&self) -> bool {
        forall|i: int| 0 <= i < self.chunks@.len() ==> (#[trigger] self.chunks@[i]).wf()
    }
}

/// The chunks of the books, in the order of the books.
pub open spec fn flat_chunks(docs: Seq<ProcessedDoc>) -> Seq<ChunkTerms>
    decreases docs.len(),
{
    if docs.len() == 0 {
        Seq::empty()
    } else {
        flat_chunks(docs.drop_last()) + docs.last().chunks@
    }
}

/// For each chunk, the id of the book that it belongs to.
pub open spec fn flat_books(docs: Seq<ProcessedDoc>) -> Seq<Seq<char>>
    decreases docs.len(),
{
    if docs.len() == 0 {
        Seq::empty()
    } else {
        flat_books(docs.drop_last()) + Seq::new(
            docs.last().chunks@.len(),
            |j: int| docs.last().book_id@,
        )
    }
}

/// The postings of a term over the chunks, the first chunk having document
/// id `base`: one posting for each chunk that lists the term, in the order
/// of the chunks.
pub open spec fn postings_of(chunks: Seq<ChunkTerms>, base: u32, term: Seq<char>) -> Seq<
    (u32, u32),
>
    decreases chunks.len(),
{
    if chunks.len() == 0 {
        Seq::empty()
    } else {
        let rest = postings_of(chunks.drop_last(), base, term);
        if chunks.last().lists(term) {
            rest.push(((base + chunks.len() - 1) as u32, chunks.last().freq_of(term)))
        } else {
            rest
        }
    }
}

/// The sum of the analyzed lengths of the chunks.
pub open spec fn total_length(chunks: Seq<ChunkTerms>) -> nat
    decreases chunks.len(),
{
    if chunks.len() == 0 {
        0
    } else {
        total_length(chunks.drop_last()) + chunks.last().length as nat
    }
}

impl BatchData {
    /// Every chunk of every book is well formed.
    pub open spec fn wf(&self) -> bool {
        forall|i: int| 0 <= i < self.docs@.len() ==> (#[trigger] self.docs@[i]).wf()
    }

    /// The chunks of the batch, in document-id order.
    pub open spec fn chunks(&self) -> Seq<ChunkTerms> {
        flat_chunks(self.docs@)
    }

    /// For each chunk of the batch, the id of its book.
    pub open spec fn books(&self) -> Seq<Seq<char>> {
        flat_books(self.docs@)
    }
}

/// The contents of the files of one segment.
pub struct SegmentFiles {
    pub terms_fst: Vec<u8>,
    pub offsets: Vec<u8>,
    pub postings_docs: Vec<u8>,
    pub postings_freqs: Vec<u8>,
    pub chunks: Vec<u8>,
    pub doc_lengths: Vec<u8>,
    pub meta: SegmentMeta,
}

} // verus!
