//! Builds the files of a segment from a batch of analyzed books.
use vstd::prelude::*;
use vstd::slice::slice_to_vec;
use vstd::utf8::encode_utf8;
use crate::codecs::separated::{
    decode_separated, encode_postings_separated, freqs_of, gaps_of, stream_bytes,
};
use crate::codecs::sorting::{docs_strictly_ascending, lemma_sort_postings_fixed};
use crate::index::dictionary::{bytes_lt, entries_view, fst_build, fst_image, keys_ascending};
use crate::index::reader::{book_id_bytes, le_u32, le_u64, row_at, u32_at, OffsetsRow};
use crate::index::segment::{SegmentFiles, SegmentMeta};
use crate::index::segment::{
    flat_books, flat_chunks, postings_of, total_length, BatchData, ChunkTerms, ProcessedDoc,
};
use crate::index::term_table::{
    list_or_empty, sort_by_term, table_contents, table_into_vec, table_new, table_push, TermEntry,
    TermTable,
};

verus! {

/// Why a segment could not be built.
#[derive(Clone, Copy, Debug, PartialEq, Eq)]
pub enum BuildError {
    /// The document ids of the batch do not fit in 32 bits.
    TooManyChunks,
    /// A stream or the book-id table is longer than its 32-bit length field
    /// can say.
    TooLarge,
}

/// The inverted index of the chunks: every term that some chunk lists, with
/// its postings.
pub open spec fn inverted(chunks: Seq<ChunkTerms>, base: u32) -> Map<Seq<char>, Seq<(u32, u32)>> {
    Map::new(
        |t: Seq<char>| postings_of(chunks, base, t).len() > 0,
        |t: Seq<char>| postings_of(chunks, base, t),
    )
}

/// The postings of a term over the chunks and the first `upto` terms of one
/// more chunk, which has document id `doc`.
pub open spec fn postings_with(
    chunks: Seq<ChunkTerms>,
    base: u32,
    next: ChunkTerms,
    upto: int,
    doc: u32,
    term: Seq<char>,
) -> Seq<(u32, u32)> {
    if next.lists_before(term, upto) {
        postings_of(chunks, base, term).push((doc, next.freq_of(term)))
    } else {
        postings_of(chunks, base, term)
    }
}

/// The terms of the list strictly ascend in the byte order of their UTF-8
/// text.
pub open spec fn terms_ascending(list: Seq<TermEntry>) -> bool {
    forall|i: int, j: int|
        0 <= i < j < list.len() ==> bytes_lt(encode_utf8(list[i].0@), encode_utf8(list[j].0@))
}

/// Terms in fewer chunks than this are left out of a segment, unless
/// another number is asked for.
pub const MIN_POSTINGS: usize = 2;

/// A term with this many postings is kept where at least `min` are asked
/// for.
pub open spec fn is_kept(len: nat, min: int) -> bool {
    len >= 1 && len >= min
}

/// The list holds, in ascending order of the terms, exactly the terms that
/// at least `min` chunks list, each with its postings.
#[verifier::opaque]
pub open spec fn is_term_list(
    list: Seq<TermEntry>,
    chunks: Seq<ChunkTerms>,
    base: u32,
    min: int,
) -> bool {
    &&& terms_ascending(list)
    &&& forall|i: int|
        0 <= i < list.len() ==> (#[trigger] list[i]).1@ == postings_of(chunks, base, list[i].0@)
            && is_kept(list[i].1@.len(), min)
    &&& forall|t: Seq<char>| #[trigger]
        is_kept(postings_of(chunks, base, t).len(), min as int) ==> exists|i: int|
            0 <= i < list.len() && #[trigger] list[i].0@ == t
}

/// The chunks of the first `d + 1` books are those of the first `d` and
/// then those of book `d`.
pub proof fn lemma_flat_step(docs: Seq<ProcessedDoc>, d: int)
    requires
        0 <= d < docs.len(),
    ensures
        flat_chunks(docs.take(d + 1)) == flat_chunks(docs.take(d)) + docs[d].chunks@,
        flat_books(docs.take(d + 1)) == flat_books(docs.take(d)) + Seq::new(
            docs[d].chunks@.len(),
            |j: int| docs[d].book_id@,
        ),
{
    assert(docs.take(d + 1).drop_last() =~= docs.take(d));
    assert(docs.take(d + 1).last() == docs[d]);
}

/// A prefix of the books has no more chunks than all of them, and one book
/// more has at least its own chunks more.
pub proof fn lemma_flat_len(docs: Seq<ProcessedDoc>, d: int)
    requires
        0 <= d <= docs.len(),
    ensures
        flat_chunks(docs.take(d)).len() <= flat_chunks(docs).len(),
        flat_books(docs.take(d)).len() == flat_chunks(docs.take(d)).len(),
        d < docs.len() ==> flat_chunks(docs.take(d)).len() + docs[d].chunks@.len() <= flat_chunks(
            docs,
        ).len(),
    decreases docs.len() - d,
{
    lemma_flat_books_len(docs.take(d));
    if d == docs.len() {
        assert(docs.take(d) =~= docs);
    } else {
        lemma_flat_step(docs, d);
        lemma_flat_len(docs, d + 1);
    }
}

/// There is one book id for each chunk.
pub proof fn lemma_flat_books_len(docs: Seq<ProcessedDoc>)
    ensures
        flat_books(docs).len() == flat_chunks(docs).len(),
    decreases docs.len(),
{
    if docs.len() > 0 {
        lemma_flat_books_len(docs.drop_last());
    }
}

/// The postings of a term have document ids from `base` on, below `base`
/// plus the number of chunks, strictly ascending; there are no more of them
/// than chunks.
pub proof fn lemma_postings_shape(chunks: Seq<ChunkTerms>, base: u32, term: Seq<char>)
    requires
        base + chunks.len() <= u32::MAX,
    ensures
        postings_of(chunks, base, term).len() <= chunks.len(),
        forall|i: int|
            0 <= i < postings_of(chunks, base, term).len() ==> base <= (#[trigger] postings_of(
                chunks,
                base,
                term,
            )[i]).0 < base + chunks.len(),
        docs_strictly_ascending(postings_of(chunks, base, term)),
    decreases chunks.len(),
{
    if chunks.len() > 0 {
        lemma_postings_shape(chunks.drop_last(), base, term);
    }
}

/// A well-formed chunk gives a listed term the frequency that stands beside
/// it.
pub proof fn lemma_freq_of(chunk: ChunkTerms, i: int)
    requires
        chunk.wf(),
        0 <= i < chunk.freqs@.len(),
    ensures
        chunk.lists(chunk.freqs@[i].0@),
        chunk.freq_of(chunk.freqs@[i].0@) == chunk.freqs@[i].1,
{
    let term = chunk.freqs@[i].0@;
    assert(chunk.lists_before(term, chunk.freqs@.len() as int));
    let k = choose|k: int| 0 <= k < chunk.freqs@.len() && #[trigger] chunk.freqs@[k].0@ == term;
    if k < i {
        assert(chunk.freqs@[k].0@ != chunk.freqs@[i].0@);
    } else if i < k {
        assert(chunk.freqs@[i].0@ != chunk.freqs@[k].0@);
    }
}

/// Adds the postings of one chunk to the table.
fn add_chunk(
    table: &mut TermTable,
    chunk: &ChunkTerms,
    doc_id: u32,
    Ghost(chunks): Ghost<Seq<ChunkTerms>>,
    Ghost(base): Ghost<u32>,
)
    requires
        chunk.wf(),
        doc_id == base + chunks.len(),
        table_contents(*old(table)) == inverted(chunks, base),
    ensures
        table_contents(*final(table)) == inverted(chunks.push(*chunk), base),
{
    let n: usize = chunk.freqs.len();
    let mut j: usize = 0;
    assert(table_contents(*table) =~= Map::new(
        |t: Seq<char>| postings_with(chunks, base, *chunk, 0, doc_id, t).len() > 0,
        |t: Seq<char>| postings_with(chunks, base, *chunk, 0, doc_id, t),
    ));
    while j < n
        invariant
            j <= n,
            n == chunk.freqs@.len(),
            chunk.wf(),
            doc_id == base + chunks.len(),
            table_contents(*table) == Map::new(
                |t: Seq<char>| postings_with(chunks, base, *chunk, j as int, doc_id, t).len() > 0,
                |t: Seq<char>| postings_with(chunks, base, *chunk, j as int, doc_id, t),
            ),
        decreases n - j,
    {
        let term: String = chunk.freqs[j].0.clone();
        let freq: u32 = chunk.freqs[j].1;
        let ghost before = table_contents(*table);
        table_push(table, term, (doc_id, freq));
        proof {
            let key = chunk.freqs@[j as int].0@;
            lemma_freq_of(*chunk, j as int);
            assert(!chunk.lists_before(key, j as int)) by {
                if chunk.lists_before(key, j as int) {
                    let k = choose|k: int|
                        0 <= k < j && k < chunk.freqs@.len() && #[trigger] chunk.freqs@[k].0@
                            == key;
                    assert(chunk.freqs@[k].0@ != chunk.freqs@[j as int].0@);
                }
            }
            assert(chunk.lists_before(key, j + 1));
            assert(list_or_empty(before, key) =~= postings_of(chunks, base, key));
            assert forall|t: Seq<char>| t != key implies chunk.lists_before(t, j + 1)
                == chunk.lists_before(t, j as int) by {
                if chunk.lists_before(t, j + 1) {
                    let k = choose|k: int|
                        0 <= k < j + 1 && k < chunk.freqs@.len() && #[trigger] chunk.freqs@[k].0@
                            == t;
                    assert(k < j);
                }
                if chunk.lists_before(t, j as int) {
                    let k = choose|k: int|
                        0 <= k < j && k < chunk.freqs@.len() && #[trigger] chunk.freqs@[k].0@ == t;
                    assert(k < j + 1);
                }
            }
            assert(table_contents(*table) =~= Map::new(
                |t: Seq<char>|
                    postings_with(chunks, base, *chunk, j + 1, doc_id, t).len() > 0,
                |t: Seq<char>| postings_with(chunks, base, *chunk, j + 1, doc_id, t),
            ));
        }
        j = j + 1;
    }
    proof {
        let after = chunks.push(*chunk);
        assert(after.drop_last() =~= chunks);
        assert(after.last() == *chunk);
        assert forall|t: Seq<char>|
            postings_of(after, base, t) == postings_with(
                chunks,
                base,
                *chunk,
                n as int,
                doc_id,
                t,
            ) by {}
        assert(table_contents(*table) =~= inverted(after, base));
    }
}

/// What a walk over the batch gathers: the table of postings, the length of
/// each chunk, the number of its book, and the sum of the lengths.
struct Gathered {
    table: TermTable,
    lengths: Vec<u32>,
    books: Vec<usize>,
    total_length: u64,
}

/// Walks the batch in document-id order. Gives nothing where the document
/// ids would leave 32 bits.
fn gather(data: &BatchData) -> (r: Option<Gathered>)
    requires
        data.wf(),
    ensures
        r is Some <==> data.base_doc_id + data.chunks().len() <= u32::MAX,
        r is Some ==> {
            let g = r->Some_0;
            &&& table_contents(g.table) == inverted(data.chunks(), data.base_doc_id)
            &&& g.lengths@.len() == data.chunks().len()
            &&& forall|k: int|
                0 <= k < g.lengths@.len() ==> g.lengths@[k] == (#[trigger] data.chunks()[k]).length
            &&& g.books@.len() == data.chunks().len()
            &&& forall|k: int|
                0 <= k < g.books@.len() ==> (#[trigger] g.books@[k]) < data.docs@.len()
                    && data.docs@[g.books@[k] as int].book_id@ == data.books()[k]
            &&& g.total_length == total_length(data.chunks())
        },
{
    let base: u32 = data.base_doc_id;
    let mut table = table_new(500_000);
    let mut lengths: Vec<u32> = Vec::new();
    let mut books: Vec<usize> = Vec::new();
    let mut total: u64 = 0;
    let mut count: u32 = 0;
    let num_docs: usize = data.docs.len();
    let mut d: usize = 0;
    assert(data.docs@.take(0) =~= Seq::<ProcessedDoc>::empty());
    assert(table_contents(table) =~= inverted(Seq::<ChunkTerms>::empty(), base));
    while d < num_docs
        invariant
            d <= num_docs,
            num_docs == data.docs@.len(),
            data.wf(),
            base == data.base_doc_id,
            count == flat_chunks(data.docs@.take(d as int)).len(),
            base + count <= u32::MAX,
            table_contents(table) == inverted(flat_chunks(data.docs@.take(d as int)), base),
            lengths@.len() == count,
            forall|k: int|
                0 <= k < count ==> lengths@[k] == (#[trigger] flat_chunks(
                    data.docs@.take(d as int),
                )[k]).length,
            books@.len() == count,
            forall|k: int|
                0 <= k < count ==> (#[trigger] books@[k]) < num_docs
                    && data.docs@[books@[k] as int].book_id@ == flat_books(
                    data.docs@.take(d as int),
                )[k],
            total == total_length(flat_chunks(data.docs@.take(d as int))),
            total <= count * 0xFFFF_FFFF,
        decreases num_docs - d,
    {
        let doc: &ProcessedDoc = &data.docs[d];
        let ghost before = flat_chunks(data.docs@.take(d as int));
        let ghost before_books = flat_books(data.docs@.take(d as int));
        let num_chunks: usize = doc.chunks.len();
        let mut c: usize = 0;
        proof {
            lemma_flat_len(data.docs@, d as int);
            assert(doc.wf());
            assert(doc.chunks@.take(0) =~= Seq::<ChunkTerms>::empty());
            assert(before + doc.chunks@.take(0) =~= before);
        }
        while c < num_chunks
            invariant
                c <= num_chunks,
                num_chunks == doc.chunks@.len(),
                d < num_docs,
                num_docs == data.docs@.len(),
                *doc == data.docs@[d as int],
                doc.wf(),
                base == data.base_doc_id,
                before == flat_chunks(data.docs@.take(d as int)),
                before_books == flat_books(data.docs@.take(d as int)),
                before_books.len() == before.len(),
                before.len() + num_chunks <= data.chunks().len(),
                count == before.len() + c,
                base + count <= u32::MAX,
                table_contents(table) == inverted(before + doc.chunks@.take(c as int), base),
                lengths@.len() == count,
                forall|k: int|
                    0 <= k < count ==> lengths@[k] == (#[trigger] (before + doc.chunks@.take(
                        c as int,
                    ))[k]).length,
                books@.len() == count,
                forall|k: int|
                    0 <= k < before.len() ==> (#[trigger] books@[k]) < num_docs
                        && data.docs@[books@[k] as int].book_id@ == before_books[k],
                forall|k: int| before.len() <= k < count ==> (#[trigger] books@[k]) == d,
                total == total_length(before + doc.chunks@.take(c as int)),
                total <= count * 0xFFFF_FFFF,
            decreases num_chunks - c,
        {
            if count >= u32::MAX - base {
                return None;
            }
            let doc_id: u32 = base + count;
            let chunk: &ChunkTerms = &doc.chunks[c];
            let ghost seen = before + doc.chunks@.take(c as int);
            assert(chunk.wf());
            add_chunk(&mut table, chunk, doc_id, Ghost(seen), Ghost(base));
            lengths.push(chunk.length);
            books.push(d);
            total = total + chunk.length as u64;
            count = count + 1;
            c = c + 1;
            proof {
                let now = before + doc.chunks@.take(c as int);
                assert(now =~= seen.push(*chunk));
                assert(now.drop_last() =~= seen);
            }
        }
        proof {
            lemma_flat_step(data.docs@, d as int);
            assert(doc.chunks@.take(num_chunks as int) =~= doc.chunks@);
        }
        d = d + 1;
    }
    proof {
        assert(data.docs@.take(num_docs as int) =~= data.docs@);
    }
    Some(Gathered { table, lengths, books, total_length: total })
}

/// Takes the terms out of the table, keeps those that at least `min`
/// chunks list, and puts them in ascending order.
fn indexed_terms(
    table: TermTable,
    min: usize,
    Ghost(chunks): Ghost<Seq<ChunkTerms>>,
    Ghost(base): Ghost<u32>,
) -> (list: Vec<TermEntry>)
    requires
        table_contents(table) == inverted(chunks, base),
    ensures
        is_term_list(list@, chunks, base, min as int),
{
    let mut all: Vec<TermEntry> = table_into_vec(table);
    let mut kept: Vec<TermEntry> = Vec::new();
    proof {
        assert forall|t: Seq<char>| #[trigger]
            is_kept(postings_of(chunks, base, t).len(), min as int) implies exists|i: int|
            0 <= i < all@.len() && #[trigger] all@[i].0@ == t by {
            assert(table_contents(table).contains_key(t));
        }
    }
    while all.len() > 0
        invariant
            forall|i: int|
                0 <= i < all@.len() ==> (#[trigger] all@[i]).1@ == postings_of(
                    chunks,
                    base,
                    all@[i].0@,
                ),
            forall|i: int|
                0 <= i < kept@.len() ==> (#[trigger] kept@[i]).1@ == postings_of(
                    chunks,
                    base,
                    kept@[i].0@,
                ) && is_kept(kept@[i].1@.len(), min as int),
            forall|i: int, j: int| 0 <= i < j < all@.len() ==> all@[i].0@ != all@[j].0@,
            forall|i: int, j: int| 0 <= i < j < kept@.len() ==> kept@[i].0@ != kept@[j].0@,
            forall|i: int, j: int|
                0 <= i < all@.len() && 0 <= j < kept@.len() ==> all@[i].0@ != kept@[j].0@,
            forall|t: Seq<char>| #[trigger]
                is_kept(postings_of(chunks, base, t).len(), min as int) ==> (exists|i: int|
                    0 <= i < all@.len() && #[trigger] all@[i].0@ == t) || (exists|i: int|
                    0 <= i < kept@.len() && #[trigger] kept@[i].0@ == t),
        decreases all@.len(),
    {
        let ghost all_before = all@;
        let ghost kept_before = kept@;
        let entry: TermEntry = all.pop().unwrap();
        let ghost last = all_before.len() - 1;
        assert(entry == all_before[last]);
        if entry.1.len() >= 1 && entry.1.len() >= min {
            kept.push(entry);
        }
        proof {
            assert forall|t: Seq<char>| #[trigger]
                is_kept(postings_of(chunks, base, t).len(), min as int) implies (exists|i: int|
                0 <= i < all@.len() && #[trigger] all@[i].0@ == t) || (exists|i: int|
                0 <= i < kept@.len() && #[trigger] kept@[i].0@ == t) by {
                if exists|i: int| 0 <= i < all_before.len() && #[trigger] all_before[i].0@ == t {
                    let i = choose|i: int|
                        0 <= i < all_before.len() && #[trigger] all_before[i].0@ == t;
                    if i == last {
                        assert(kept@[kept@.len() - 1].0@ == t);
                    } else {
                        assert(all@[i].0@ == t);
                    }
                } else {
                    let i = choose|i: int|
                        0 <= i < kept_before.len() && #[trigger] kept_before[i].0@ == t;
                    assert(kept@[i].0@ == t);
                }
            }
        }
    }
    let ghost unsorted = kept@;
    sort_by_term(&mut kept);
    proof {
        reveal(is_term_list);
        let sorted = kept@;
        unsorted.to_multiset_ensures();
        sorted.to_multiset_ensures();
        assert(unsorted.no_duplicates()) by {
            assert forall|i: int, j: int|
                0 <= i < unsorted.len() && 0 <= j < unsorted.len() && i != j implies unsorted[i]
                != unsorted[j] by {
                if i < j {
                    assert(unsorted[i].0@ != unsorted[j].0@);
                } else {
                    assert(unsorted[j].0@ != unsorted[i].0@);
                }
            }
        }
        unsorted.lemma_multiset_has_no_duplicates();
        sorted.lemma_multiset_has_no_duplicates_conv();
        assert forall|i: int| 0 <= i < sorted.len() implies (#[trigger] sorted[i]).1@
            == postings_of(chunks, base, sorted[i].0@) && is_kept(sorted[i].1@.len(), min as int) by {
            assert(sorted.contains(sorted[i]));
            assert(sorted.to_multiset().count(sorted[i]) > 0);
            assert(unsorted.to_multiset().count(sorted[i]) > 0);
            assert(unsorted.contains(sorted[i]));
        }
        assert forall|i: int, j: int| 0 <= i < j < sorted.len() implies bytes_lt(
            encode_utf8(sorted[i].0@),
            encode_utf8(sorted[j].0@),
        ) by {
            assert(sorted.contains(sorted[i]));
            assert(sorted.to_multiset().count(sorted[i]) > 0);
            assert(unsorted.to_multiset().count(sorted[i]) > 0);
            assert(unsorted.contains(sorted[i]));
            assert(sorted.contains(sorted[j]));
            assert(sorted.to_multiset().count(sorted[j]) > 0);
            assert(unsorted.to_multiset().count(sorted[j]) > 0);
            assert(unsorted.contains(sorted[j]));
            let a = choose|a: int| 0 <= a < unsorted.len() && unsorted[a] == sorted[i];
            let b = choose|b: int| 0 <= b < unsorted.len() && unsorted[b] == sorted[j];
            assert(sorted[i] != sorted[j]);
            assert(a != b);
            assert(sorted[i].0@ != sorted[j].0@) by {
                if a < b {
                    assert(unsorted[a].0@ != unsorted[b].0@);
                } else {
                    assert(unsorted[b].0@ != unsorted[a].0@);
                }
            }
            crate::index::dictionary::lemma_utf8_injective(sorted[i].0@, sorted[j].0@);
            crate::index::dictionary::lemma_bytes_lt_connected(
                encode_utf8(sorted[i].0@),
                encode_utf8(sorted[j].0@),
            );
        }
        assert forall|t: Seq<char>| #[trigger]
            is_kept(postings_of(chunks, base, t).len(), min as int) implies exists|i: int|
            0 <= i < sorted.len() && #[trigger] sorted[i].0@ == t by {
            let k = choose|k: int| 0 <= k < unsorted.len() && #[trigger] unsorted[k].0@ == t;
            assert(unsorted.contains(unsorted[k]));
            assert(unsorted.to_multiset().count(unsorted[k]) > 0);
            assert(sorted.to_multiset().count(unsorted[k]) > 0);
            assert(sorted.contains(unsorted[k]));
            let i = choose|i: int| 0 <= i < sorted.len() && sorted[i] == unsorted[k];
            assert(sorted[i].0@ == t);
        }
    }
    kept
}

/// The four bytes of `v`, least significant first.
pub open spec fn u32_le_bytes(v: u32) -> Seq<u8> {
    seq![
        (v % 0x100) as u8,
        (v / 0x100 % 0x100) as u8,
        (v / 0x1_0000 % 0x100) as u8,
        (v / 0x100_0000) as u8,
    ]
}

/// The eight bytes of `v`, least significant first.
pub open spec fn u64_le_bytes(v: u64) -> Seq<u8> {
    u32_le_bytes((v % 0x1_0000_0000) as u32) + u32_le_bytes((v / 0x1_0000_0000) as u32)
}

/// The 28 bytes of a row of the offsets table.
pub open spec fn row_bytes(row: OffsetsRow) -> Seq<u8> {
    u64_le_bytes(row.doc_offset) + u32_le_bytes(row.doc_len) + u64_le_bytes(row.freq_offset)
        + u32_le_bytes(row.freq_len) + u32_le_bytes(row.doc_count)
}

/// Where the bytes of `v` stand, `v` is read.
pub proof fn lemma_u32_read_back(data: Seq<u8>, pos: int, v: u32)
    requires
        0 <= pos,
        pos + 4 <= data.len(),
        data.subrange(pos, pos + 4) == u32_le_bytes(v),
    ensures
        le_u32(data, pos) == v,
        u32_at(data, pos) == Some(v),
{
    let b = u32_le_bytes(v);
    assert(data[pos] == data.subrange(pos, pos + 4)[0]);
    assert(data[pos + 1] == data.subrange(pos, pos + 4)[1]);
    assert(data[pos + 2] == data.subrange(pos, pos + 4)[2]);
    assert(data[pos + 3] == data.subrange(pos, pos + 4)[3]);
}

/// Where the bytes of `v` stand, `v` is read.
pub proof fn lemma_u64_read_back(data: Seq<u8>, pos: int, v: u64)
    requires
        0 <= pos,
        pos + 8 <= data.len(),
        data.subrange(pos, pos + 8) == u64_le_bytes(v),
    ensures
        le_u64(data, pos) == v,
{
    let low = (v % 0x1_0000_0000) as u32;
    let high = (v / 0x1_0000_0000) as u32;
    assert(data.subrange(pos, pos + 4) =~= u32_le_bytes(low)) by {
        assert forall|i: int| 0 <= i < 4 implies data[pos + i] == u32_le_bytes(low)[i] by {
            assert(data[pos + i] == data.subrange(pos, pos + 8)[i]);
        }
    }
    assert(data.subrange(pos + 4, pos + 8) =~= u32_le_bytes(high)) by {
        assert forall|i: int| 0 <= i < 4 implies data[pos + 4 + i] == u32_le_bytes(high)[i] by {
            assert(data[pos + 4 + i] == data.subrange(pos, pos + 8)[4 + i]);
        }
    }
    lemma_u32_read_back(data, pos, low);
    lemma_u32_read_back(data, pos + 4, high);
}

/// A part of a run of bytes stands in the data where the run stands, at the
/// part's place in the run.
proof fn lemma_part(data: Seq<u8>, at: int, whole: Seq<u8>, off: int, part: Seq<u8>)
    requires
        0 <= at,
        at + whole.len() <= data.len(),
        data.subrange(at, at + whole.len()) == whole,
        0 <= off,
        off + part.len() <= whole.len(),
        whole.subrange(off, off + part.len()) == part,
    ensures
        data.subrange(at + off, at + off + part.len()) == part,
{
    assert(data.subrange(at + off, at + off + part.len()) =~= data.subrange(
        at,
        at + whole.len(),
    ).subrange(off, off + part.len()));
}

/// The fields of a row stand in its bytes at 0, 8, 12, 20 and 24.
proof fn lemma_row_parts(row: OffsetsRow)
    ensures
        row_bytes(row).len() == 28,
        row_bytes(row).subrange(0, 8) == u64_le_bytes(row.doc_offset),
        row_bytes(row).subrange(8, 12) == u32_le_bytes(row.doc_len),
        row_bytes(row).subrange(12, 20) == u64_le_bytes(row.freq_offset),
        row_bytes(row).subrange(20, 24) == u32_le_bytes(row.freq_len),
        row_bytes(row).subrange(24, 28) == u32_le_bytes(row.doc_count),
{
    let a = u64_le_bytes(row.doc_offset);
    let b = u32_le_bytes(row.doc_len);
    let c = u64_le_bytes(row.freq_offset);
    let d = u32_le_bytes(row.freq_len);
    let e = u32_le_bytes(row.doc_count);
    let r = a + b + c + d + e;
    assert(a.len() == 8 && b.len() == 4 && c.len() == 8 && d.len() == 4 && e.len() == 4);
    assert(r.subrange(0, 8) =~= a);
    assert(r.subrange(8, 12) =~= b);
    assert(r.subrange(12, 20) =~= c);
    assert(r.subrange(20, 24) =~= d);
    assert(r.subrange(24, 28) =~= e);
}

/// Where the bytes of a row stand as row `k` of a table, that row is read.
pub proof fn lemma_row_read_back(data: Seq<u8>, k: int, row: OffsetsRow)
    requires
        0 <= k,
        28 * k + 28 <= data.len(),
        data.subrange(28 * k, 28 * k + 28) == row_bytes(row),
    ensures
        row_at(data, k) == Some(row),
{
    let at = 28 * k;
    let r = row_bytes(row);
    lemma_row_parts(row);
    lemma_part(data, at, r, 0, u64_le_bytes(row.doc_offset));
    lemma_part(data, at, r, 8, u32_le_bytes(row.doc_len));
    lemma_part(data, at, r, 12, u64_le_bytes(row.freq_offset));
    lemma_part(data, at, r, 20, u32_le_bytes(row.freq_len));
    lemma_part(data, at, r, 24, u32_le_bytes(row.doc_count));
    lemma_u64_read_back(data, at, row.doc_offset);
    lemma_u32_read_back(data, at + 8, row.doc_len);
    lemma_u64_read_back(data, at + 12, row.freq_offset);
    lemma_u32_read_back(data, at + 20, row.freq_len);
    lemma_u32_read_back(data, at + 24, row.doc_count);
}

/// Appends `v` as four bytes, least significant first.
pub fn push_u32_le(buf: &mut Vec<u8>, v: u32)
    ensures
        final(buf)@ == old(buf)@ + u32_le_bytes(v),
{
    let ghost start = buf@;
    buf.push((v % 0x100) as u8);
    buf.push((v / 0x100 % 0x100) as u8);
    buf.push((v / 0x1_0000 % 0x100) as u8);
    buf.push((v / 0x100_0000) as u8);
    assert(buf@ =~= start + u32_le_bytes(v));
}

/// Appends `v` as eight bytes, least significant first.
pub fn push_u64_le(buf: &mut Vec<u8>, v: u64)
    ensures
        final(buf)@ == old(buf)@ + u64_le_bytes(v),
{
    let ghost start = buf@;
    push_u32_le(buf, (v % 0x1_0000_0000) as u32);
    push_u32_le(buf, (v / 0x1_0000_0000) as u32);
    assert(buf@ =~= start + u64_le_bytes(v));
}

/// Appends a row of the offsets table.
fn push_row(buf: &mut Vec<u8>, row: &OffsetsRow)
    ensures
        final(buf)@ == old(buf)@ + row_bytes(*row),
{
    let ghost start = buf@;
    push_u64_le(buf, row.doc_offset);
    push_u32_le(buf, row.doc_len);
    push_u64_le(buf, row.freq_offset);
    push_u32_le(buf, row.freq_len);
    push_u32_le(buf, row.doc_count);
    assert(buf@ =~= start + row_bytes(*row));
}

/// The stream of document-id gaps of a posting list.
pub open spec fn doc_stream(p: Seq<(u32, u32)>) -> Seq<u8> {
    stream_bytes(gaps_of(p))
}

/// The stream of term frequencies of a posting list.
pub open spec fn freq_stream(p: Seq<(u32, u32)>) -> Seq<u8> {
    stream_bytes(freqs_of(p))
}

/// Where the gap streams of the first `i` terms end.
pub open spec fn docs_end(list: Seq<TermEntry>, i: int) -> nat
    decreases i,
{
    if i <= 0 {
        0
    } else {
        docs_end(list, i - 1) + doc_stream(list[i - 1].1@).len()
    }
}

/// Where the frequency streams of the first `i` terms end.
pub open spec fn freqs_end(list: Seq<TermEntry>, i: int) -> nat
    decreases i,
{
    if i <= 0 {
        0
    } else {
        freqs_end(list, i - 1) + freq_stream(list[i - 1].1@).len()
    }
}

/// The lengths and offsets of term `i` fit the fields of its row.
pub open spec fn row_fits(list: Seq<TermEntry>, i: int) -> bool {
    &&& docs_end(list, i) <= u64::MAX
    &&& freqs_end(list, i) <= u64::MAX
    &&& doc_stream(list[i].1@).len() <= u32::MAX
    &&& freq_stream(list[i].1@).len() <= u32::MAX
    &&& list[i].1@.len() <= u32::MAX
}

/// The row of term `i`.
pub open spec fn expected_row(list: Seq<TermEntry>, i: int) -> OffsetsRow {
    OffsetsRow {
        doc_offset: docs_end(list, i) as u64,
        doc_len: doc_stream(list[i].1@).len() as u32,
        freq_offset: freqs_end(list, i) as u64,
        freq_len: freq_stream(list[i].1@).len() as u32,
        doc_count: list[i].1@.len() as u32,
    }
}

/// The offsets table and the two blobs hold the streams of the terms one
/// after the other, a row for each, and each term's streams decode to its
/// postings.
#[verifier::opaque]
pub open spec fn postings_laid_out(
    list: Seq<TermEntry>,
    offsets: Seq<u8>,
    docs: Seq<u8>,
    freqs: Seq<u8>,
) -> bool {
    &&& offsets.len() == 28 * list.len()
    &&& docs.len() == docs_end(list, list.len() as int)
    &&& freqs.len() == freqs_end(list, list.len() as int)
    &&& forall|i: int|
        0 <= i < list.len() ==> {
            &&& row_fits(list, i)
            &&& row_at(offsets, i) == Some(expected_row(list, i))
            &&& docs_end(list, i + 1) <= docs.len()
            &&& freqs_end(list, i + 1) <= freqs.len()
            &&& docs.subrange(docs_end(list, i) as int, docs_end(list, i + 1) as int)
                == doc_stream(list[i].1@)
            &&& freqs.subrange(freqs_end(list, i) as int, freqs_end(list, i + 1) as int)
                == freq_stream(list[i].1@)
            &&& decode_separated(
                doc_stream(list[i].1@),
                freq_stream(list[i].1@),
                list[i].1@.len(),
            ) == (#[trigger] list[i]).1@
        }
}

/// Some term's stream is longer than a 32-bit length can say.
pub open spec fn stream_too_long(list: Seq<TermEntry>) -> bool {
    exists|i: int|
        0 <= i < list.len() && (doc_stream((#[trigger] list[i]).1@).len() > u32::MAX
            || freq_stream(list[i].1@).len() > u32::MAX)
}

/// Term `k` is stored: its row stands in the table, its streams in the
/// blobs, and they decode to its postings.
pub open spec fn term_stored(
    list: Seq<TermEntry>,
    k: int,
    offsets: Seq<u8>,
    docs: Seq<u8>,
    freqs: Seq<u8>,
) -> bool {
    &&& row_fits(list, k)
    &&& 28 * k + 28 <= offsets.len()
    &&& offsets.subrange(28 * k, 28 * k + 28) == row_bytes(expected_row(list, k))
    &&& docs_end(list, k + 1) <= docs.len()
    &&& freqs_end(list, k + 1) <= freqs.len()
    &&& docs.subrange(docs_end(list, k) as int, docs_end(list, k + 1) as int) == doc_stream(
        list[k].1@,
    )
    &&& freqs.subrange(freqs_end(list, k) as int, freqs_end(list, k + 1) as int) == freq_stream(
        list[k].1@,
    )
    &&& decode_separated(doc_stream(list[k].1@), freq_stream(list[k].1@), list[k].1@.len())
        == list[k].1@
}

/// A row is 28 bytes long.
pub proof fn lemma_row_bytes_len(row: OffsetsRow)
    ensures
        row_bytes(row).len() == 28,
{
}

/// A stored term stays stored when bytes are added at the end of the table
/// and the blobs.
proof fn lemma_term_stored_frame(
    list: Seq<TermEntry>,
    k: int,
    offsets: Seq<u8>,
    docs: Seq<u8>,
    freqs: Seq<u8>,
    more_offsets: Seq<u8>,
    more_docs: Seq<u8>,
    more_freqs: Seq<u8>,
)
    requires
        0 <= k,
        term_stored(list, k, offsets, docs, freqs),
    ensures
        term_stored(list, k, offsets + more_offsets, docs + more_docs, freqs + more_freqs),
{
    assert((offsets + more_offsets).subrange(28 * k, 28 * k + 28) =~= offsets.subrange(
        28 * k,
        28 * k + 28,
    ));
    assert((docs + more_docs).subrange(docs_end(list, k) as int, docs_end(list, k + 1) as int)
        =~= docs.subrange(docs_end(list, k) as int, docs_end(list, k + 1) as int));
    assert((freqs + more_freqs).subrange(
        freqs_end(list, k) as int,
        freqs_end(list, k + 1) as int,
    ) =~= freqs.subrange(freqs_end(list, k) as int, freqs_end(list, k + 1) as int));
}

/// A term whose row and streams are added at the ends of the table and the
/// blobs is stored.
proof fn lemma_term_stored_new(
    list: Seq<TermEntry>,
    k: int,
    offsets: Seq<u8>,
    docs: Seq<u8>,
    freqs: Seq<u8>,
)
    requires
        0 <= k < list.len(),
        offsets.len() == 28 * k,
        docs.len() == docs_end(list, k),
        freqs.len() == freqs_end(list, k),
        doc_stream(list[k].1@).len() <= u32::MAX,
        freq_stream(list[k].1@).len() <= u32::MAX,
        list[k].1@.len() <= u32::MAX,
        docs.len() <= u64::MAX,
        freqs.len() <= u64::MAX,
        decode_separated(doc_stream(list[k].1@), freq_stream(list[k].1@), list[k].1@.len())
            == list[k].1@,
    ensures
        term_stored(
            list,
            k,
            offsets + row_bytes(expected_row(list, k)),
            docs + doc_stream(list[k].1@),
            freqs + freq_stream(list[k].1@),
        ),
{
    let row = row_bytes(expected_row(list, k));
    lemma_row_bytes_len(expected_row(list, k));
    assert((offsets + row).subrange(28 * k, 28 * k + 28) =~= row);
    assert((docs + doc_stream(list[k].1@)).subrange(
        docs_end(list, k) as int,
        docs_end(list, k + 1) as int,
    ) =~= doc_stream(list[k].1@));
    assert((freqs + freq_stream(list[k].1@)).subrange(
        freqs_end(list, k) as int,
        freqs_end(list, k + 1) as int,
    ) =~= freq_stream(list[k].1@));
}

/// What is stored can be read: the row of a stored term is found in the
/// table.
proof fn lemma_term_stored_row(
    list: Seq<TermEntry>,
    k: int,
    offsets: Seq<u8>,
    docs: Seq<u8>,
    freqs: Seq<u8>,
)
    requires
        0 <= k,
        term_stored(list, k, offsets, docs, freqs),
    ensures
        row_at(offsets, k) == Some(expected_row(list, k)),
{
    lemma_row_read_back(offsets, k, expected_row(list, k));
}

/// Where every term is stored and the table and the blobs end with the
/// last term, the postings are laid out, and no stream is too long.
proof fn lemma_all_stored(list: Seq<TermEntry>, offsets: Seq<u8>, docs: Seq<u8>, freqs: Seq<u8>)
    requires
        offsets.len() == 28 * list.len(),
        docs.len() == docs_end(list, list.len() as int),
        freqs.len() == freqs_end(list, list.len() as int),
        forall|k: int| 0 <= k < list.len() ==> #[trigger] term_stored(list, k, offsets, docs, freqs),
    ensures
        postings_laid_out(list, offsets, docs, freqs),
        !stream_too_long(list),
{
    reveal(postings_laid_out);
    assert forall|k: int| 0 <= k < list.len() implies {
        &&& row_fits(list, k)
        &&& row_at(offsets, k) == Some(expected_row(list, k))
        &&& docs_end(list, k + 1) <= docs.len()
        &&& freqs_end(list, k + 1) <= freqs.len()
        &&& docs.subrange(docs_end(list, k) as int, docs_end(list, k + 1) as int) == doc_stream(
            list[k].1@,
        )
        &&& freqs.subrange(freqs_end(list, k) as int, freqs_end(list, k + 1) as int)
            == freq_stream(list[k].1@)
        &&& decode_separated(doc_stream(list[k].1@), freq_stream(list[k].1@), list[k].1@.len())
            == (#[trigger] list[k]).1@
    } by {
        assert(term_stored(list, k, offsets, docs, freqs));
        lemma_term_stored_row(list, k, offsets, docs, freqs);
    }
    if stream_too_long(list) {
        let k = choose|k: int|
            0 <= k < list.len() && (doc_stream((#[trigger] list[k]).1@).len() > u32::MAX
                || freq_stream(list[k].1@).len() > u32::MAX);
        assert(term_stored(list, k, offsets, docs, freqs));
    }
}

/// What encoding the terms gives: the offsets table and the two blobs.
struct Encoded {
    offsets: Vec<u8>,
    docs: Vec<u8>,
    freqs: Vec<u8>,
}

/// Encodes the postings of every term and lays the streams out. Gives
/// nothing where a stream is too long for its length field.
fn encode_terms(list: &Vec<TermEntry>) -> (r: Option<Encoded>)
    requires
        forall|i: int|
            0 <= i < list@.len() ==> docs_strictly_ascending((#[trigger] list@[i]).1@)
                && list@[i].1@.len() <= u32::MAX,
    ensures
        r is Some <==> !stream_too_long(list@),
        r is Some ==> postings_laid_out(
            list@,
            r->Some_0.offsets@,
            r->Some_0.docs@,
            r->Some_0.freqs@,
        ),
{
    let n: usize = list.len();
    let mut offsets: Vec<u8> = Vec::new();
    let mut docs: Vec<u8> = Vec::new();
    let mut freqs: Vec<u8> = Vec::new();
    let mut i: usize = 0;
    while i < n
        invariant
            i <= n,
            n == list@.len(),
            forall|k: int|
                0 <= k < list@.len() ==> docs_strictly_ascending((#[trigger] list@[k]).1@)
                    && list@[k].1@.len() <= u32::MAX,
            offsets@.len() == 28 * i,
            docs@.len() == docs_end(list@, i as int),
            freqs@.len() == freqs_end(list@, i as int),
            forall|k: int| 0 <= k < i ==> #[trigger] term_stored(list@, k, offsets@, docs@, freqs@),
        decreases n - i,
    {
        let postings: &Vec<(u32, u32)> = &list[i].1;
        proof {
            assert(docs_strictly_ascending(list@[i as int].1@));
            lemma_sort_postings_fixed(postings@);
        }
        let (mut doc_bytes, mut freq_bytes) = encode_postings_separated(postings.as_slice());
        if doc_bytes.len() > 0xFFFF_FFFF || freq_bytes.len() > 0xFFFF_FFFF {
            assert(stream_too_long(list@)) by {
                assert(doc_stream(list@[i as int].1@).len() > u32::MAX || freq_stream(
                    list@[i as int].1@,
                ).len() > u32::MAX);
            }
            return None;
        }
        let row = OffsetsRow {
            doc_offset: docs.len() as u64,
            doc_len: doc_bytes.len() as u32,
            freq_offset: freqs.len() as u64,
            freq_len: freq_bytes.len() as u32,
            doc_count: postings.len() as u32,
        };
        assert(row == expected_row(list@, i as int));
        let ghost offsets_before = offsets@;
        let ghost docs_before = docs@;
        let ghost freqs_before = freqs@;
        push_row(&mut offsets, &row);
        docs.append(&mut doc_bytes);
        freqs.append(&mut freq_bytes);
        proof {
            lemma_row_bytes_len(row);
            lemma_term_stored_new(list@, i as int, offsets_before, docs_before, freqs_before);
            assert forall|k: int| 0 <= k < i implies #[trigger] term_stored(
                list@,
                k,
                offsets@,
                docs@,
                freqs@,
            ) by {
                lemma_term_stored_frame(
                    list@,
                    k,
                    offsets_before,
                    docs_before,
                    freqs_before,
                    row_bytes(row),
                    doc_stream(list@[i as int].1@),
                    freq_stream(list@[i as int].1@),
                );
            }
        }
        i = i + 1;
    }
    proof {
        lemma_all_stored(list@, offsets@, docs@, freqs@);
    }
    Some(Encoded { offsets, docs, freqs })
}

/// The entries of the dictionary: each term's UTF-8 bytes with the number
/// of its row.
pub open spec fn dictionary_entries(list: Seq<TermEntry>) -> Seq<(Seq<u8>, u64)> {
    Seq::new(list.len(), |i: int| (encode_utf8(list[i].0@), i as u64))
}

/// Builds the dictionary that maps each term to the number of its row.
fn build_dictionary(list: &Vec<TermEntry>) -> (bytes: Vec<u8>)
    requires
        terms_ascending(list@),
    ensures
        bytes@ == fst_image(dictionary_entries(list@)),
        keys_ascending(dictionary_entries(list@)),
{
    let n: usize = list.len();
    let mut entries: Vec<(Vec<u8>, u64)> = Vec::new();
    let mut i: usize = 0;
    while i < n
        invariant
            i <= n,
            n == list@.len(),
            entries@.len() == i,
            forall|k: int|
                0 <= k < i ==> (#[trigger] entries@[k]).0@ == encode_utf8(list@[k].0@)
                    && entries@[k].1 == k,
        decreases n - i,
    {
        let key: Vec<u8> = slice_to_vec(list[i].0.as_str().as_bytes());
        entries.push((key, i as u64));
        i = i + 1;
    }
    assert(entries_view(entries@) =~= dictionary_entries(list@));
    assert(keys_ascending(dictionary_entries(list@)));
    match fst_build(&entries) {
        Ok(bytes) => bytes,
        Err(_) => Vec::new(),
    }
}

/// Where the book ids of the first `k` chunks end.
pub open spec fn ids_end(books: Seq<Seq<char>>, k: int) -> nat
    decreases k,
{
    if k <= 0 {
        0
    } else {
        ids_end(books, k - 1) + encode_utf8(books[k - 1]).len()
    }
}

/// Entry `k` of the table of 32-bit numbers at the start of a blob.
pub open spec fn table_entry(blob: Seq<u8>, k: int) -> nat {
    le_u32(blob, 4 * k)
}

/// The chunk table: one 32-bit offset for each chunk and one more, then the
/// UTF-8 bytes of each chunk's book id, one after the other.
#[verifier::opaque]
pub open spec fn chunks_laid_out(books: Seq<Seq<char>>, blob: Seq<u8>) -> bool {
    let n = books.len() as int;
    let table = 4 * (n + 1);
    &&& ids_end(books, n) <= u32::MAX
    &&& blob.len() == table + ids_end(books, n)
    &&& forall|k: int| 0 <= k <= n ==> #[trigger] table_entry(blob, k) == ids_end(books, k)
    &&& forall|k: int|
        0 <= k < n ==> blob.subrange(table + ids_end(books, k), table + ids_end(books, k + 1))
            == encode_utf8(#[trigger] books[k])
}

/// The ends of the book ids never go back.
pub proof fn lemma_ids_end_monotonic(books: Seq<Seq<char>>, a: int, b: int)
    requires
        a <= b,
    ensures
        ids_end(books, a) <= ids_end(books, b),
    decreases b - a,
{
    if a < b {
        lemma_ids_end_monotonic(books, a, b - 1);
    }
}

/// A header of the ends of the book ids, followed by the book ids, is the
/// chunk table.
#[verifier::rlimit(50)]
proof fn lemma_chunk_table(
    names: Seq<Seq<char>>,
    starts: Seq<u32>,
    header: Seq<u8>,
    tail: Seq<u8>,
)
    requires
        starts.len() == names.len() + 1,
        header.len() == 4 * starts.len(),
        tail.len() == ids_end(names, names.len() as int),
        tail.len() <= u32::MAX,
        forall|j: int| 0 <= j < starts.len() ==> #[trigger] starts[j] == ids_end(names, j),
        forall|i: int|
            0 <= i < starts.len() ==> header.subrange(4 * i, 4 * i + 4) == u32_le_bytes(
                #[trigger] starts[i],
            ),
        forall|j: int|
            0 <= j < names.len() ==> tail.subrange(
                ids_end(names, j) as int,
                ids_end(names, j + 1) as int,
            ) == encode_utf8(#[trigger] names[j]),
    ensures
        chunks_laid_out(names, header + tail),
{
    reveal(chunks_laid_out);
    let n = names.len() as int;
    let blob = header + tail;
    let table = 4 * (n + 1);
    assert forall|i: int| 0 <= i <= n implies #[trigger] table_entry(blob, i) == ids_end(
        names,
        i,
    ) by {
        assert(blob.subrange(4 * i, 4 * i + 4) =~= header.subrange(4 * i, 4 * i + 4));
        assert(header.subrange(4 * i, 4 * i + 4) == u32_le_bytes(starts[i]));
        lemma_u32_read_back(blob, 4 * i, starts[i]);
    }
    assert forall|i: int| 0 <= i < n implies blob.subrange(
        table + ids_end(names, i),
        table + ids_end(names, i + 1),
    ) == encode_utf8(#[trigger] names[i]) by {
        lemma_ids_end_monotonic(names, i + 1, n);
        assert(blob.subrange(table + ids_end(names, i), table + ids_end(names, i + 1))
            =~= tail.subrange(ids_end(names, i) as int, ids_end(names, i + 1) as int));
    }
}

/// Lays out the chunk table. Gives nothing where the book ids take more
/// bytes than a 32-bit offset can say.
#[verifier::rlimit(50)]
fn chunks_blob(data: &BatchData, books: &Vec<usize>) -> (r: Option<Vec<u8>>)
    requires
        books@.len() == data.books().len(),
        forall|k: int|
            0 <= k < books@.len() ==> (#[trigger] books@[k]) < data.docs@.len()
                && data.docs@[books@[k] as int].book_id@ == data.books()[k],
    ensures
        r is Some <==> ids_end(data.books(), data.books().len() as int) <= u32::MAX,
        r is Some ==> chunks_laid_out(data.books(), r->Some_0@),
{
    let ghost names = data.books();
    let n: usize = books.len();
    let mut ids: Vec<u8> = Vec::new();
    let mut starts: Vec<u32> = Vec::new();
    let mut k: usize = 0;
    while k < n
        invariant
            k <= n,
            n == books@.len(),
            names == data.books(),
            names.len() == n,
            forall|j: int|
                0 <= j < books@.len() ==> (#[trigger] books@[j]) < data.docs@.len()
                    && data.docs@[books@[j] as int].book_id@ == names[j],
            ids@.len() == ids_end(names, k as int),
            ids@.len() <= u32::MAX,
            starts@.len() == k,
            forall|j: int| 0 <= j < k ==> #[trigger] starts@[j] == ids_end(names, j),
            forall|j: int|
                0 <= j < k ==> ids@.subrange(ids_end(names, j) as int, ids_end(names, j + 1) as int)
                    == encode_utf8(#[trigger] names[j]),
        decreases n - k,
    {
        let book: usize = books[k];
        let id: &[u8] = data.docs[book].book_id.as_str().as_bytes();
        assert(id@ == encode_utf8(names[k as int]));
        if id.len() > 0xFFFF_FFFF - ids.len() {
            proof {
                lemma_ids_end_monotonic(names, k + 1, n as int);
            }
            return None;
        }
        starts.push(ids.len() as u32);
        let ghost ids_before = ids@;
        let mut copy: Vec<u8> = slice_to_vec(id);
        ids.append(&mut copy);
        proof {
            assert(ids@.subrange(ids_end(names, k as int) as int, ids_end(names, k + 1) as int)
                =~= encode_utf8(names[k as int]));
            assert forall|j: int| 0 <= j < k implies ids@.subrange(
                ids_end(names, j) as int,
                ids_end(names, j + 1) as int,
            ) == encode_utf8(#[trigger] names[j]) by {
                lemma_ids_end_monotonic(names, j + 1, k as int);
                assert(ids@.subrange(ids_end(names, j) as int, ids_end(names, j + 1) as int)
                    =~= ids_before.subrange(
                    ids_end(names, j) as int,
                    ids_end(names, j + 1) as int,
                ));
            }
        }
        k = k + 1;
    }
    starts.push(ids.len() as u32);
    let mut blob: Vec<u8> = Vec::new();
    let m: usize = starts.len();
    let mut j: usize = 0;
    while j < m
        invariant
            j <= m,
            m == starts@.len(),
            blob@.len() == 4 * j,
            forall|i: int|
                0 <= i < j ==> blob@.subrange(4 * i, 4 * i + 4) == u32_le_bytes(
                    #[trigger] starts@[i],
                ),
        decreases m - j,
    {
        let ghost blob_before = blob@;
        push_u32_le(&mut blob, starts[j]);
        proof {
            assert(blob@.subrange(4 * j, 4 * j + 4) =~= u32_le_bytes(starts@[j as int]));
            assert forall|i: int| 0 <= i < j implies blob@.subrange(4 * i, 4 * i + 4)
                == u32_le_bytes(#[trigger] starts@[i]) by {
                assert(blob@.subrange(4 * i, 4 * i + 4) =~= blob_before.subrange(4 * i, 4 * i + 4));
            }
        }
        j = j + 1;
    }
    let ghost header = blob@;
    let ghost tail = ids@;
    blob.append(&mut ids);
    proof {
        lemma_chunk_table(names, starts@, header, tail);
    }
    Some(blob)
}

/// The lengths table: the length of each chunk as four bytes.
#[verifier::opaque]
pub open spec fn lengths_laid_out(lengths: Seq<u32>, blob: Seq<u8>) -> bool {
    &&& blob.len() == 4 * lengths.len()
    &&& forall|k: int| 0 <= k < lengths.len() ==> le_u32(blob, 4 * k) == #[trigger] lengths[k]
}

/// Lays out the lengths table.
fn lengths_blob(lengths: &Vec<u32>) -> (blob: Vec<u8>)
    ensures
        lengths_laid_out(lengths@, blob@),
{
    let mut blob: Vec<u8> = Vec::new();
    let m: usize = lengths.len();
    let mut j: usize = 0;
    while j < m
        invariant
            j <= m,
            m == lengths@.len(),
            blob@.len() == 4 * j,
            forall|i: int|
                0 <= i < j ==> blob@.subrange(4 * i, 4 * i + 4) == u32_le_bytes(
                    #[trigger] lengths@[i],
                ),
        decreases m - j,
    {
        let ghost blob_before = blob@;
        push_u32_le(&mut blob, lengths[j]);
        proof {
            assert(blob@.subrange(4 * j, 4 * j + 4) =~= u32_le_bytes(lengths@[j as int]));
            assert forall|i: int| 0 <= i < j implies blob@.subrange(4 * i, 4 * i + 4)
                == u32_le_bytes(#[trigger] lengths@[i]) by {
                assert(blob@.subrange(4 * i, 4 * i + 4) =~= blob_before.subrange(4 * i, 4 * i + 4));
            }
        }
        j = j + 1;
    }
    proof {
        reveal(lengths_laid_out);
        assert forall|i: int| 0 <= i < m implies le_u32(blob@, 4 * i) == #[trigger] lengths@[i] by {
            lemma_u32_read_back(blob@, 4 * i, lengths@[i]);
        }
    }
    blob
}

/// The files hold the segment of the batch, `list` being its terms with
/// their postings: the dictionary maps each term to its row, the offsets
/// table and the blobs hold the streams, and the chunk and lengths tables
/// hold each chunk's book id and length.
pub open spec fn segment_holds(
    files: SegmentFiles,
    data: BatchData,
    list: Seq<TermEntry>,
    min: int,
) -> bool {
    let chunks = data.chunks();
    &&& list.len() <= usize::MAX
    &&& is_term_list(list, chunks, data.base_doc_id, min)
    &&& files.terms_fst@ == fst_image(dictionary_entries(list))
    &&& postings_laid_out(list, files.offsets@, files.postings_docs@, files.postings_freqs@)
    &&& chunks_laid_out(data.books(), files.chunks@)
    &&& lengths_laid_out(Seq::new(chunks.len(), |k: int| chunks[k].length), files.doc_lengths@)
    &&& files.meta.num_docs == chunks.len()
    &&& files.meta.base_doc_id == data.base_doc_id
    &&& files.meta.total_length == total_length(chunks)
}

/// Some term that is kept has a stream longer than a 32-bit length can
/// say.
pub open spec fn streams_too_long(chunks: Seq<ChunkTerms>, base: u32, min: int) -> bool {
    exists|t: Seq<char>|
        is_kept((#[trigger] postings_of(chunks, base, t)).len(), min) && (doc_stream(
            postings_of(chunks, base, t),
        ).len() > u32::MAX || freq_stream(postings_of(chunks, base, t)).len() > u32::MAX)
}

/// Builds the files of the segment that holds the batch: flattens the
/// chunks, inverts them, drops the terms that fewer than `min_postings`
/// chunks list, and lays out dictionary, offsets, streams, chunk table and
/// lengths. The batch is refused where its document ids would leave 32
/// bits, or where a stream or the book ids are longer than a 32-bit length
/// can say.
pub fn build_segment_with(data: &BatchData, min_postings: usize) -> (r: Result<
    SegmentFiles,
    BuildError,
>)
    requires
        data.wf(),
    ensures
        r == Err::<SegmentFiles, BuildError>(BuildError::TooManyChunks) <==> data.base_doc_id
            + data.chunks().len() > u32::MAX,
        r == Err::<SegmentFiles, BuildError>(BuildError::TooLarge) <==> data.base_doc_id
            + data.chunks().len() <= u32::MAX && (streams_too_long(
            data.chunks(),
            data.base_doc_id,
            min_postings as int,
        ) || ids_end(data.books(), data.books().len() as int) > u32::MAX),
        r is Ok ==> exists|list: Seq<TermEntry>| #[trigger]
            segment_holds(r->Ok_0, *data, list, min_postings as int),
{
    let ghost min = min_postings as int;
    let ghost chunks = data.chunks();
    let ghost base = data.base_doc_id;
    let gathered = match gather(data) {
        Some(g) => g,
        None => { return Err(BuildError::TooManyChunks); },
    };
    let Gathered { table, lengths, books, total_length } = gathered;
    let list = indexed_terms(table, min_postings, Ghost(chunks), Ghost(base));
    proof {
        reveal(is_term_list);
        assert forall|i: int| 0 <= i < list@.len() implies docs_strictly_ascending(
            (#[trigger] list@[i]).1@,
        ) && list@[i].1@.len() <= u32::MAX by {
            lemma_postings_shape(chunks, base, list@[i].0@);
        }
    }
    let encoded = match encode_terms(&list) {
        Some(e) => e,
        None => {
            proof {
                reveal(is_term_list);
                let i = choose|i: int|
                    0 <= i < list@.len() && (doc_stream((#[trigger] list@[i]).1@).len() > u32::MAX
                        || freq_stream(list@[i].1@).len() > u32::MAX);
                assert(is_kept(postings_of(chunks, base, list@[i].0@).len(), min));
            }
            return Err(BuildError::TooLarge);
        },
    };
    proof {
        assert(!streams_too_long(chunks, base, min)) by {
            reveal(is_term_list);
            if streams_too_long(chunks, base, min) {
                let t = choose|t: Seq<char>|
                    is_kept((#[trigger] postings_of(chunks, base, t)).len(), min) && (doc_stream(
                        postings_of(chunks, base, t),
                    ).len() > u32::MAX || freq_stream(postings_of(chunks, base, t)).len()
                        > u32::MAX);
                let i = choose|i: int| 0 <= i < list@.len() && #[trigger] list@[i].0@ == t;
                assert(list@[i].1@ == postings_of(chunks, base, t));
                assert(stream_too_long(list@));
            }
        }
        lemma_flat_books_len(data.docs@);
    }
    let chunk_table = match chunks_blob(data, &books) {
        Some(b) => b,
        None => { return Err(BuildError::TooLarge); },
    };
    let doc_lengths = lengths_blob(&lengths);
    proof {
        assert(terms_ascending(list@)) by {
            reveal(is_term_list);
        }
    }
    let term_count: usize = list.len();
    let terms_fst = build_dictionary(&list);
    let Encoded { offsets, docs, freqs } = encoded;
    let files = SegmentFiles {
        terms_fst,
        offsets,
        postings_docs: docs,
        postings_freqs: freqs,
        chunks: chunk_table,
        doc_lengths,
        meta: SegmentMeta {
            num_docs: lengths.len() as u32,
            base_doc_id: data.base_doc_id,
            total_length,
        },
    };
    proof {
        assert(lengths@ =~= Seq::new(chunks.len(), |k: int| chunks[k].length));
        assert(list@.len() == term_count);
        assert(segment_holds(files, *data, list@, min));
    }
    let r: Result<SegmentFiles, BuildError> = Ok(files);
    assert(segment_holds(r->Ok_0, *data, list@, min));
    r
}

/// Builds the files of the segment that holds the batch, leaving out the
/// terms that fewer than two chunks list.
pub fn build_segment(data: &BatchData) -> (r: Result<SegmentFiles, BuildError>)
    requires
        data.wf(),
    ensures
        r == Err::<SegmentFiles, BuildError>(BuildError::TooManyChunks) <==> data.base_doc_id
            + data.chunks().len() > u32::MAX,
        r == Err::<SegmentFiles, BuildError>(BuildError::TooLarge) <==> data.base_doc_id
            + data.chunks().len() <= u32::MAX && (streams_too_long(
            data.chunks(),
            data.base_doc_id,
            2,
        ) || ids_end(data.books(), data.books().len() as int) > u32::MAX),
        r is Ok ==> exists|list: Seq<TermEntry>| #[trigger] segment_holds(r->Ok_0, *data, list, 2),
{
    build_segment_with(data, MIN_POSTINGS)
}

} // verus!
