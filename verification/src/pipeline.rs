//! The stages between a parsed book and a segment: dropping books already
//! seen, analyzing the chunks of a book, and gathering analyzed books into
//! batches.
use dashmap::DashMap;
use vstd::prelude::*;
use crate::analysis::{analyze_arena, analyze_spec, arena_new, arena_reset, term_views};
use crate::index::segment::{BatchData, ChunkTerms, ProcessedDoc};

verus! {

/// Books per segment.
pub const BATCH_BOOKS: usize = 1000;

/// Characters per chunk.
pub const CHUNK_SIZE: usize = 1000;

/// Characters that a chunk shares with the one before.
pub const CHUNK_OVERLAP: usize = 100;

/// Capacity of the queue of downloaded books.
pub const RAW_QUEUE: usize = 50;

/// Capacity of the queue of analyzed books.
pub const PROCESSED_QUEUE: usize = 500;

/// Downloads that run at the same time.
pub const DOWNLOADS: usize = 20;

/// The term is among the stopwords.
pub open spec fn is_stop(stopwords: Seq<String>, term: Seq<char>) -> bool {
    exists|i: int| 0 <= i < stopwords.len() && (#[trigger] stopwords[i])@ == term
}

/// Tells whether the token is among the stopwords.
pub fn is_stopword(stopwords: &Vec<String>, token: &str) -> (r: bool)
    ensures
        r == is_stop(stopwords@, token@),
{
    let n: usize = stopwords.len();
    let mut i: usize = 0;
    while i < n
        invariant
            i <= n,
            n == stopwords@.len(),
            forall|k: int| 0 <= k < i ==> (#[trigger] stopwords@[k])@ != token@,
        decreases n - i,
    {
        if crate::document::str_equal(stopwords[i].as_str(), token) {
            return true;
        }
        i = i + 1;
    }
    false
}

/// The term frequencies as plain values.
pub open spec fn freqs_view(freqs: Seq<(String, u32)>) -> Seq<(Seq<char>, u32)> {
    Seq::new(freqs.len(), |i: int| (freqs[i].0@, freqs[i].1))
}

/// Some item of the list is for the term.
pub open spec fn has_term(list: Seq<(Seq<char>, u32)>, term: Seq<char>) -> bool {
    exists|j: int| 0 <= j < list.len() && (#[trigger] list[j]).0 == term
}

/// The place of the term in the list.
pub open spec fn term_index(list: Seq<(Seq<char>, u32)>, term: Seq<char>) -> int {
    choose|j: int| 0 <= j < list.len() && (#[trigger] list[j]).0 == term
}

/// One more, but never past the largest 32-bit value.
pub open spec fn one_more(n: u32) -> u32 {
    if n < u32::MAX {
        (n + 1) as u32
    } else {
        n
    }
}

/// The list after one more occurrence of the term: its count is raised, or
/// the term is added at the end with a count of one.
pub open spec fn counted(list: Seq<(Seq<char>, u32)>, term: Seq<char>) -> Seq<(Seq<char>, u32)> {
    if has_term(list, term) {
        let j = term_index(list, term);
        list.update(j, (term, one_more(list[j].1)))
    } else {
        list.push((term, 1))
    }
}

/// How often each term that is no stopword occurs among the first `i`
/// tokens, the terms in the order in which they first occur.
pub open spec fn counts(tokens: Seq<Seq<char>>, stopwords: Seq<String>, i: int) -> Seq<
    (Seq<char>, u32),
>
    decreases i,
{
    if i <= 0 {
        Seq::empty()
    } else {
        let earlier = counts(tokens, stopwords, i - 1);
        if is_stop(stopwords, tokens[i - 1]) {
            earlier
        } else {
            counted(earlier, tokens[i - 1])
        }
    }
}

/// No term stands twice in the list.
pub open spec fn distinct_terms(list: Seq<(Seq<char>, u32)>) -> bool {
    forall|a: int, b: int| 0 <= a < b < list.len() ==> list[a].0 != list[b].0
}

/// Counting keeps the terms distinct.
pub proof fn lemma_counted_distinct(list: Seq<(Seq<char>, u32)>, term: Seq<char>)
    requires
        distinct_terms(list),
    ensures
        distinct_terms(counted(list, term)),
{
    let after = counted(list, term);
    if has_term(list, term) {
        let j = term_index(list, term);
        assert forall|a: int, b: int| 0 <= a < b < after.len() implies after[a].0 != after[b].0 by {
            assert(after[a].0 == list[a].0);
            assert(after[b].0 == list[b].0);
        }
    } else {
        assert forall|a: int, b: int| 0 <= a < b < after.len() implies after[a].0 != after[b].0 by {
            if b == list.len() {
                assert(list[a].0 != term);
            }
        }
    }
}

/// The counts list no term twice.
pub proof fn lemma_counts_distinct(tokens: Seq<Seq<char>>, stopwords: Seq<String>, i: int)
    ensures
        distinct_terms(counts(tokens, stopwords, i)),
    decreases i,
{
    if i > 0 {
        lemma_counts_distinct(tokens, stopwords, i - 1);
        if !is_stop(stopwords, tokens[i - 1]) {
            lemma_counted_distinct(counts(tokens, stopwords, i - 1), tokens[i - 1]);
        }
    }
}

/// Counts the tokens that are no stopwords.
pub fn count_terms(tokens: &Vec<&str>, stopwords: &Vec<String>) -> (freqs: Vec<(String, u32)>)
    ensures
        freqs_view(freqs@) == counts(term_views(tokens@), stopwords@, tokens@.len() as int),
        distinct_terms(freqs_view(freqs@)),
{
    let ghost views = term_views(tokens@);
    let n: usize = tokens.len();
    let mut freqs: Vec<(String, u32)> = Vec::new();
    let mut i: usize = 0;
    assert(freqs_view(freqs@) =~= counts(views, stopwords@, 0));
    while i < n
        invariant
            i <= n,
            n == tokens@.len(),
            views == term_views(tokens@),
            freqs_view(freqs@) == counts(views, stopwords@, i as int),
        decreases n - i,
    {
        let token: &str = tokens[i];
        assert(views[i as int] == token@);
        proof {
            lemma_counts_distinct(views, stopwords@, i as int);
        }
        if !is_stopword(stopwords, token) {
            let ghost before = freqs_view(freqs@);
            let m: usize = freqs.len();
            let mut j: usize = 0;
            let mut found: bool = false;
            while j < m
                invariant_except_break
                    !found,
                    forall|k: int| 0 <= k < j ==> (#[trigger] before[k]).0 != token@,
                invariant
                    j <= m,
                    m == freqs@.len(),
                    before == freqs_view(freqs@),
                ensures
                    j <= m,
                    m == freqs@.len(),
                    before == freqs_view(freqs@),
                    found ==> j < m && before[j as int].0 == token@,
                    !found ==> j == m && !has_term(before, token@),
                decreases m - j,
            {
                if crate::document::str_equal(freqs[j].0.as_str(), token) {
                    found = true;
                    assert(before[j as int].0 == token@);
                    break;
                }
                j = j + 1;
            }
            if found {
                let count: u32 = freqs[j].1;
                let raised: u32 = if count < u32::MAX {
                    count + 1
                } else {
                    count
                };
                let term: String = freqs[j].0.clone();
                freqs.set(j, (term, raised));
                proof {
                    assert(has_term(before, token@));
                    let at = term_index(before, token@);
                    if at < j {
                        assert(before[at].0 != before[j as int].0);
                    } else if j < at {
                        assert(before[j as int].0 != before[at].0);
                    }
                    assert(freqs_view(freqs@) =~= counted(before, token@));
                }
            } else {
                freqs.push((token.to_owned(), 1));
                assert(freqs_view(freqs@) =~= counted(before, token@));
            }
        }
        i = i + 1;
    }
    proof {
        lemma_counts_distinct(views, stopwords@, n as int);
    }
    freqs
}

/// A length as a 32-bit number, the largest one standing for all that are
/// greater.
pub open spec fn clamp_len(n: int) -> u32 {
    if n > u32::MAX {
        u32::MAX
    } else {
        n as u32
    }
}

/// A chunk as plain values: its length and its term frequencies.
pub open spec fn chunk_view(chunk: ChunkTerms) -> (u32, Seq<(Seq<char>, u32)>) {
    (chunk.length, freqs_view(chunk.freqs@))
}

/// The chunks as plain values.
pub open spec fn chunk_views(chunks: Seq<ChunkTerms>) -> Seq<(u32, Seq<(Seq<char>, u32)>)> {
    Seq::new(chunks.len(), |i: int| chunk_view(chunks[i]))
}

/// What analysis makes of one chunk of text: the number of its terms and
/// the counts of those that are no stopwords; nothing where it has no term
/// or only stopwords.
pub open spec fn analyzed_chunk(text: Seq<char>, stopwords: Seq<String>) -> Option<
    (u32, Seq<(Seq<char>, u32)>),
> {
    let terms = analyze_spec(text);
    let freqs = counts(terms, stopwords, terms.len() as int);
    if terms.len() == 0 || freqs.len() == 0 {
        None
    } else {
        Some((clamp_len(terms.len() as int), freqs))
    }
}

/// What analysis makes of the first `i` chunks of a book.
pub open spec fn analyzed_chunks(chunks: Seq<String>, stopwords: Seq<String>, i: int) -> Seq<
    (u32, Seq<(Seq<char>, u32)>),
>
    decreases i,
{
    if i <= 0 {
        Seq::empty()
    } else {
        let earlier = analyzed_chunks(chunks, stopwords, i - 1);
        match analyzed_chunk(chunks[i - 1]@, stopwords) {
            Some(c) => earlier.push(c),
            None => earlier,
        }
    }
}

/// Analyzes the chunks of a book and counts their terms. Chunks without a
/// term that is no stopword are left out; a book of which no chunk is left
/// gives nothing.
pub fn analyze_content(id: String, chunks: &Vec<String>, stopwords: &Vec<String>) -> (r: Option<
    ProcessedDoc,
>)
    ensures
        r is Some <==> analyzed_chunks(chunks@, stopwords@, chunks@.len() as int).len() > 0,
        r is Some ==> r->Some_0.book_id == id && r->Some_0.wf() && chunk_views(
            r->Some_0.chunks@,
        ) == analyzed_chunks(chunks@, stopwords@, chunks@.len() as int),
{
    let mut chunk_data: Vec<ChunkTerms> = Vec::new();
    let mut bump = arena_new();
    let n: usize = chunks.len();
    let mut i: usize = 0;
    assert(chunk_views(chunk_data@) =~= analyzed_chunks(chunks@, stopwords@, 0));
    while i < n
        invariant
            i <= n,
            n == chunks@.len(),
            chunk_views(chunk_data@) == analyzed_chunks(chunks@, stopwords@, i as int),
            forall|k: int| 0 <= k < chunk_data@.len() ==> (#[trigger] chunk_data@[k]).wf(),
        decreases n - i,
    {
        arena_reset(&mut bump);
        let tokens = analyze_arena(chunks[i].as_str(), &bump);
        let ghost before = chunk_views(chunk_data@);
        if tokens.len() > 0 {
            let token_len: u32 = if tokens.len() > 0xFFFF_FFFF {
                0xFFFF_FFFF
            } else {
                tokens.len() as u32
            };
            let freqs = count_terms(&tokens, stopwords);
            if freqs.len() > 0 {
                let chunk = ChunkTerms { length: token_len, freqs };
                assert(chunk.wf()) by {
                    let v = freqs_view(chunk.freqs@);
                    assert forall|a: int, b: int|
                        0 <= a < b < chunk.freqs@.len() implies chunk.freqs@[a].0@
                        != chunk.freqs@[b].0@ by {
                        assert(v[a].0 != v[b].0);
                    }
                }
                chunk_data.push(chunk);
                assert(chunk_views(chunk_data@) =~= before.push(chunk_view(chunk)));
            }
        }
        i = i + 1;
    }
    if chunk_data.len() == 0 {
        None
    } else {
        let doc = ProcessedDoc { book_id: id, chunks: chunk_data };
        Some(doc)
    }
}

/// The decimal digits of a number.
pub open spec fn decimal(n: nat) -> Seq<char>
    decreases n,
{
    if n < 10 {
        seq![digit(n)]
    } else {
        decimal(n / 10).push(digit(n % 10))
    }
}

/// The character of a digit.
pub open spec fn digit(d: nat) -> char {
    if d == 0 {
        '0'
    } else if d == 1 {
        '1'
    } else if d == 2 {
        '2'
    } else if d == 3 {
        '3'
    } else if d == 4 {
        '4'
    } else if d == 5 {
        '5'
    } else if d == 6 {
        '6'
    } else if d == 7 {
        '7'
    } else if d == 8 {
        '8'
    } else {
        '9'
    }
}

/// The character of a digit.
fn digit_char(d: usize) -> (c: char)
    requires
        d < 10,
    ensures
        c == digit(d as nat),
{
    if d == 0 {
        '0'
    } else if d == 1 {
        '1'
    } else if d == 2 {
        '2'
    } else if d == 3 {
        '3'
    } else if d == 4 {
        '4'
    } else if d == 5 {
        '5'
    } else if d == 6 {
        '6'
    } else if d == 7 {
        '7'
    } else if d == 8 {
        '8'
    } else {
        '9'
    }
}

/// Appends the decimal digits of a number.
fn push_decimal(out: &mut Vec<char>, n: usize)
    ensures
        final(out)@ == old(out)@ + decimal(n as nat),
    decreases n,
{
    let ghost start = out@;
    if n >= 10 {
        push_decimal(out, n / 10);
    }
    out.push(digit_char(n % 10));
    assert(out@ =~= start + decimal(n as nat));
}

/// The name of a segment's directory: `segment_` and the segment's number.
pub open spec fn segment_name_spec(segment_id: nat) -> Seq<char> {
    seq!['s', 'e', 'g', 'm', 'e', 'n', 't', '_'] + decimal(segment_id)
}

/// The name of the directory of the segment with the given number.
pub fn segment_name(segment_id: usize) -> (name: String)
    ensures
        name@ == segment_name_spec(segment_id as nat),
{
    let mut out: Vec<char> = Vec::new();
    out.push('s');
    out.push('e');
    out.push('g');
    out.push('m');
    out.push('e');
    out.push('n');
    out.push('t');
    out.push('_');
    assert(out@ =~= seq!['s', 'e', 'g', 'm', 'e', 'n', 't', '_']);
    push_decimal(&mut out, segment_id);
    crate::document::string_from_chars(out.as_slice())
}

/// The state of the stage that gathers analyzed books into batches and
/// numbers segments and documents.
pub struct Indexer {
    pub batch: Vec<ProcessedDoc>,
    pub global_doc_id: u32,
    pub segment_id: usize,
}

impl Indexer {
    /// An indexer with nothing gathered, at segment 0 and document 0.
    pub fn new() -> (s: Indexer)
        ensures
            s.batch@.len() == 0,
            s.global_doc_id == 0,
            s.segment_id == 0,
    {
        Indexer { batch: Vec::new(), global_doc_id: 0, segment_id: 0 }
    }

    /// Takes the books gathered so far as the batch of the next segment.
    fn take_batch(&mut self) -> (data: BatchData)
        ensures
            data.docs == old(self).batch,
            data.segment_id == old(self).segment_id,
            data.base_doc_id == old(self).global_doc_id,
            final(self).batch@.len() == 0,
            final(self).global_doc_id == old(self).global_doc_id,
            final(self).segment_id == old(self).segment_id,
    {
        let mut docs: Vec<ProcessedDoc> = Vec::new();
        std::mem::swap(&mut docs, &mut self.batch);
        BatchData { segment_id: self.segment_id, docs, base_doc_id: self.global_doc_id }
    }

    /// Takes in an analyzed book. When that makes the batch full, the batch
    /// is handed out to be written as the next segment.
    pub fn accept(&mut self, doc: ProcessedDoc) -> (r: Option<BatchData>)
        ensures
            final(self).global_doc_id == old(self).global_doc_id,
            final(self).segment_id == old(self).segment_id,
            r is Some <==> old(self).batch@.len() + 1 >= BATCH_BOOKS,
            r is Some ==> r->Some_0.docs@ == old(self).batch@.push(doc) && r->Some_0.segment_id
                == old(self).segment_id && r->Some_0.base_doc_id == old(self).global_doc_id
                && final(self).batch@.len() == 0,
            r is None ==> final(self).batch@ == old(self).batch@.push(doc),
    {
        self.batch.push(doc);
        if self.batch.len() >= BATCH_BOOKS {
            Some(self.take_batch())
        } else {
            None
        }
    }

    /// Hands out what is left when no more books will come.
    pub fn finish(&mut self) -> (r: Option<BatchData>)
        ensures
            final(self).global_doc_id == old(self).global_doc_id,
            final(self).segment_id == old(self).segment_id,
            final(self).batch@.len() == 0,
            r is Some <==> old(self).batch@.len() > 0,
            r is Some ==> r->Some_0.docs@ == old(self).batch@ && r->Some_0.segment_id == old(
                self,
            ).segment_id && r->Some_0.base_doc_id == old(self).global_doc_id,
    {
        if self.batch.len() > 0 {
            Some(self.take_batch())
        } else {
            None
        }
    }

    /// Records how writing the segment of the last batch ended: with the
    /// number of documents written, or with a failure. The segment number
    /// moves on either way; the document ids only after a success. Neither
    /// moves past the largest value of its type.
    pub fn segment_done(&mut self, written: Option<u32>)
        ensures
            final(self).batch == old(self).batch,
            final(self).segment_id == if old(self).segment_id < usize::MAX {
                (old(self).segment_id + 1) as usize
            } else {
                old(self).segment_id
            },
            final(self).global_doc_id == match written {
                Some(n) => if old(self).global_doc_id + n <= u32::MAX {
                    (old(self).global_doc_id + n) as u32
                } else {
                    u32::MAX
                },
                None => old(self).global_doc_id,
            },
    {
        match written {
            Some(n) => {
                self.global_doc_id = if n <= u32::MAX - self.global_doc_id {
                    self.global_doc_id + n
                } else {
                    u32::MAX
                };
            },
            None => {},
        }
        if self.segment_id < usize::MAX {
            self.segment_id = self.segment_id + 1;
        }
    }
}

/// Name for the BLAKE3 hash of some bytes.
pub uninterp spec fn blake3_of(bytes: Seq<u8>) -> Seq<u8>;

/// The set of hashes, a `DashMap` of the `dashmap` crate.
pub type HashTable = DashMap<[u8; 32], ()>;

/// Name for the hashes that the table holds.
pub uninterp spec fn seen_hashes(m: HashTable) -> Set<Seq<u8>>;

/// `blake3::hash`, and the 32 bytes of the hash.
#[verifier::external_body]
fn content_hash(bytes: &[u8]) -> (h: [u8; 32])
    ensures
        h@ == blake3_of(bytes@),
{
    *blake3::hash(bytes).as_bytes()
}

/// `DashMap::new`: a table that holds nothing.
#[verifier::external_body]
fn seen_new() -> (m: HashTable)
    ensures
        seen_hashes(m) == Set::<Seq<u8>>::empty(),
{
    DashMap::new()
}

/// `DashMap::contains_key`: whether the table holds the hash.
#[verifier::external_body]
fn seen_contains(m: &HashTable, h: &[u8; 32]) -> (r: bool)
    ensures
        r == seen_hashes(*m).contains(h@),
{
    m.contains_key(h)
}

/// `DashMap::insert`: afterwards the table holds the hash too.
#[verifier::external_body]
fn seen_insert(m: &mut HashTable, h: [u8; 32])
    ensures
        seen_hashes(*final(m)) == seen_hashes(*old(m)).insert(h@),
{
    m.insert(h, ());
}

/// Remembers the texts that went by, by their hashes, so that a text that
/// comes again can be dropped.
pub struct SeenTexts {
    pub table: HashTable,
}

impl SeenTexts {
    /// The hashes of the texts that were let through.
    pub open spec fn seen(&self) -> Set<Seq<u8>> {
        seen_hashes(self.table)
    }

    /// Nothing seen yet.
    pub fn new() -> (s: SeenTexts)
        ensures
            s.seen() == Set::<Seq<u8>>::empty(),
    {
        SeenTexts { table: seen_new() }
    }

    /// Lets a text through unless one with the same hash was let through
    /// before.
    pub fn first_sight(&mut self, text: &str) -> (fresh: bool)
        ensures
            fresh == !old(self).seen().contains(blake3_of(vstd::utf8::encode_utf8(text@))),
            final(self).seen() == old(self).seen().insert(
                blake3_of(vstd::utf8::encode_utf8(text@)),
            ),
    {
        let h = content_hash(text.as_bytes());
        if seen_contains(&self.table, &h) {
            assert(self.seen().insert(h@) =~= self.seen());
            false
        } else {
            seen_insert(&mut self.table, h);
            true
        }
    }
}

} // verus!
