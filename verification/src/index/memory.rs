//! Indexing a batch of parsed books wholly in memory: every chunk gets a
//! document id, and every term its postings as one interleaved varint
//! stream.
use vstd::prelude::*;
use crate::analysis::{analyze, analyze_spec};
use crate::codecs::interleaved::{encode_postings_internal, interleaved_bytes};
use crate::codecs::sorting::{docs_strictly_ascending, lemma_sort_postings_fixed};
use crate::index::ram::{
    add_postings, as_refs, distinct_index, lemma_list_for_at, list_for, list_with, lists_term,
    TermPostings,
};
use crate::pipeline::{clamp_len, count_terms, counts, freqs_view};

verus! {

/// A book as text: its id and its chunks.
pub struct ParsedBook {
    pub book_id: String,
    pub chunks: Vec<String>,
}

/// A term with the number of chunks that hold it and its encoded postings.
pub struct EncodedTerm {
    pub term: String,
    pub df: u32,
    pub postings: Vec<u8>,
}

/// What indexing a batch in memory gives: for each chunk its document id
/// and book id and its number of tokens, for each term its encoded
/// postings, the number of all tokens and the number of chunks.
pub struct BatchIndex {
    pub chunk_records: Vec<(u32, String)>,
    pub lengths: Vec<u32>,
    pub terms: Vec<EncodedTerm>,
    pub total_len: u64,
    pub count: u32,
}

/// The texts of the chunks of the books, in the order of the books.
pub open spec fn book_texts(books: Seq<ParsedBook>) -> Seq<Seq<char>>
    decreases books.len(),
{
    if books.len() == 0 {
        Seq::empty()
    } else {
        book_texts(books.drop_last()) + books.last().chunks.deep_view()
    }
}

/// For each chunk, the id of its book.
pub open spec fn book_names(books: Seq<ParsedBook>) -> Seq<Seq<char>>
    decreases books.len(),
{
    if books.len() == 0 {
        Seq::empty()
    } else {
        book_names(books.drop_last()) + Seq::new(
            books.last().chunks@.len(),
            |j: int| books.last().book_id@,
        )
    }
}

/// The counts of the terms of a chunk that are no stopwords.
pub open spec fn chunk_counts(text: Seq<char>, stopwords: Seq<String>) -> Seq<(Seq<char>, u32)> {
    counts(analyze_spec(text), stopwords, analyze_spec(text).len() as int)
}

/// The postings of a term over the first `i` chunks, the first chunk
/// having document id `start`.
pub open spec fn gathered(
    texts: Seq<Seq<char>>,
    stopwords: Seq<String>,
    start: u32,
    i: int,
    term: Seq<char>,
) -> Seq<(u32, u32)>
    decreases i,
{
    if i <= 0 {
        Seq::empty()
    } else {
        let cs = chunk_counts(texts[i - 1], stopwords);
        list_with(
            gathered(texts, stopwords, start, i - 1, term),
            cs,
            cs.len() as int,
            (start + i - 1) as u32,
            term,
        )
    }
}

/// The number of tokens of the first `i` chunks.
pub open spec fn tokens_total(texts: Seq<Seq<char>>, i: int) -> nat
    decreases i,
{
    if i <= 0 {
        0
    } else {
        tokens_total(texts, i - 1) + clamp_len(analyze_spec(texts[i - 1]).len() as int) as nat
    }
}

/// The postings gathered for a term have strictly ascending document ids
/// from `start` on, below `start + i`.
pub proof fn lemma_gathered_shape(
    texts: Seq<Seq<char>>,
    stopwords: Seq<String>,
    start: u32,
    i: int,
    term: Seq<char>,
)
    requires
        0 <= i,
        start + i <= u32::MAX,
    ensures
        docs_strictly_ascending(gathered(texts, stopwords, start, i, term)),
        forall|k: int|
            0 <= k < gathered(texts, stopwords, start, i, term).len() ==> start <= (
            #[trigger] gathered(texts, stopwords, start, i, term)[k]).0 < start + i,
        gathered(texts, stopwords, start, i, term).len() <= i,
        tokens_total(texts, i) <= i * 0xFFFF_FFFF,
    decreases i,
{
    if i > 0 {
        lemma_gathered_shape(texts, stopwords, start, i - 1, term);
    }
}

/// The chunks of the first `d + 1` books are those of the first `d` and
/// then those of book `d`.
pub proof fn lemma_books_step(books: Seq<ParsedBook>, d: int)
    requires
        0 <= d < books.len(),
    ensures
        book_texts(books.take(d + 1)) == book_texts(books.take(d)) + books[d].chunks.deep_view(),
        book_names(books.take(d + 1)) == book_names(books.take(d)) + Seq::new(
            books[d].chunks@.len(),
            |j: int| books[d].book_id@,
        ),
{
    assert(books.take(d + 1).drop_last() =~= books.take(d));
    assert(books.take(d + 1).last() == books[d]);
}

/// A prefix of the books has no more chunks than all of them, and one book
/// more has at least its own chunks more.
pub proof fn lemma_books_len(books: Seq<ParsedBook>, d: int)
    requires
        0 <= d <= books.len(),
    ensures
        book_texts(books.take(d)).len() <= book_texts(books).len(),
        d < books.len() ==> book_texts(books.take(d)).len() + books[d].chunks@.len()
            <= book_texts(books).len(),
    decreases books.len() - d,
{
    if d == books.len() {
        assert(books.take(d) =~= books);
    } else {
        lemma_books_step(books, d);
        lemma_books_len(books, d + 1);
    }
}

/// The records as plain values.
pub open spec fn records_view(records: Seq<(u32, String)>) -> Seq<(u32, Seq<char>)> {
    Seq::new(records.len(), |i: int| (records[i].0, records[i].1@))
}

/// The records of the chunks: successive document ids from `start` on,
/// each with the id of the chunk's book.
pub open spec fn chunk_records(names: Seq<Seq<char>>, start: u32) -> Seq<(u32, Seq<char>)> {
    Seq::new(names.len(), |i: int| ((start + i) as u32, names[i]))
}

/// The terms hold, each once, every term that has postings, with the
/// number of its postings and their interleaved stream.
pub open spec fn terms_encoded(
    terms: Seq<EncodedTerm>,
    texts: Seq<Seq<char>>,
    stopwords: Seq<String>,
    start: u32,
) -> bool {
    let n = texts.len() as int;
    &&& forall|a: int, b: int| 0 <= a < b < terms.len() ==> terms[a].term@ != terms[b].term@
    &&& forall|k: int|
        0 <= k < terms.len() ==> (#[trigger] terms[k]).postings@ == interleaved_bytes(
            gathered(texts, stopwords, start, n, terms[k].term@),
        ) && terms[k].df == clamp_len(
            gathered(texts, stopwords, start, n, terms[k].term@).len() as int,
        )
    &&& forall|t: Seq<char>| #[trigger]
        gathered(texts, stopwords, start, n, t).len() > 0 ==> exists|k: int|
            0 <= k < terms.len() && (#[trigger] terms[k]).term@ == t
}

/// Encodes the postings of every term of the index.
fn encode_index(
    index: Vec<TermPostings>,
    Ghost(texts): Ghost<Seq<Seq<char>>>,
    Ghost(stopwords): Ghost<Seq<String>>,
    Ghost(start): Ghost<u32>,
) -> (terms: Vec<EncodedTerm>)
    requires
        distinct_index(index@),
        start + texts.len() <= u32::MAX,
        forall|t: Seq<char>| #[trigger]
            list_for(index@, t) == gathered(texts, stopwords, start, texts.len() as int, t),
    ensures
        terms_encoded(terms@, texts, stopwords, start),
{
    let mut index = index;
    let ghost all = index@;
    let n: usize = index.len();
    let mut terms: Vec<EncodedTerm> = Vec::new();
    let mut i: usize = 0;
    while i < n
        invariant
            i <= n,
            n == index@.len(),
            all.len() == n,
            distinct_index(all),
            start + texts.len() <= u32::MAX,
            forall|t: Seq<char>| #[trigger]
                list_for(all, t) == gathered(texts, stopwords, start, texts.len() as int, t),
            forall|k: int| i <= k < n ==> index@[k] == all[k],
            terms@.len() == i,
            forall|k: int|
                0 <= k < i ==> (#[trigger] terms@[k]).term@ == all[k].0@ && terms@[k].postings@
                    == interleaved_bytes(all[k].1@) && terms@[k].df == clamp_len(
                    all[k].1@.len() as int,
                ),
        decreases n - i,
    {
        let mut entry: TermPostings = (String::new(), Vec::new());
        std::mem::swap(&mut entry, &mut index[i]);
        let (term, postings) = entry;
        proof {
            lemma_list_for_at(all, i as int);
            lemma_gathered_shape(texts, stopwords, start, texts.len() as int, term@);
            lemma_sort_postings_fixed(postings@);
        }
        let df: u32 = if postings.len() > 0xFFFF_FFFF {
            0xFFFF_FFFF
        } else {
            postings.len() as u32
        };
        let encoded = encode_postings_internal(postings.as_slice());
        terms.push(EncodedTerm { term, df, postings: encoded });
        i = i + 1;
    }
    proof {
        let m = texts.len() as int;
        assert forall|a: int, b: int| 0 <= a < b < terms@.len() implies terms@[a].term@
            != terms@[b].term@ by {
            assert(all[a].0@ != all[b].0@);
        }
        assert forall|k: int| 0 <= k < terms@.len() implies (#[trigger] terms@[k]).postings@
            == interleaved_bytes(gathered(texts, stopwords, start, m, terms@[k].term@))
            && terms@[k].df == clamp_len(
            gathered(texts, stopwords, start, m, terms@[k].term@).len() as int,
        ) by {
            lemma_list_for_at(all, k);
        }
        assert forall|t: Seq<char>| #[trigger]
            gathered(texts, stopwords, start, m, t).len() > 0 implies exists|k: int|
            0 <= k < terms@.len() && (#[trigger] terms@[k]).term@ == t by {
            assert(list_for(all, t).len() > 0);
            assert(lists_term(all, t));
            let k = choose|k: int| 0 <= k < all.len() && (#[trigger] all[k]).0@ == t;
            assert(terms@[k].term@ == t);
        }
    }
    terms
}

/// Indexes the chunks of the books in memory. Every chunk gets the next
/// document id, from `start_doc_id` on; every term that is no stopword
/// gets a posting for each chunk that holds it, and the postings of a term
/// are encoded as one interleaved stream. Gives nothing where the document
/// ids would leave 32 bits.
pub fn process_batch(books: &Vec<ParsedBook>, start_doc_id: u32, stopwords: &Vec<String>) -> (r:
    Option<BatchIndex>)
    ensures
        r is Some <==> start_doc_id + book_texts(books@).len() <= u32::MAX,
        r is Some ==> ({
            let out = r->Some_0;
            &&& out.count == book_texts(books@).len()
            &&& records_view(out.chunk_records@) == chunk_records(book_names(books@), start_doc_id)
            &&& out.lengths@.len() == book_texts(books@).len()
            &&& forall|i: int|
                0 <= i < out.lengths@.len() ==> #[trigger] out.lengths@[i] == clamp_len(
                    analyze_spec(book_texts(books@)[i]).len() as int,
                )
            &&& out.total_len == tokens_total(book_texts(books@), book_texts(books@).len() as int)
            &&& terms_encoded(out.terms@, book_texts(books@), stopwords@, start_doc_id)
        }),
{
    let mut index: Vec<TermPostings> = Vec::new();
    let mut records: Vec<(u32, String)> = Vec::new();
    let mut lengths: Vec<u32> = Vec::new();
    let mut total: u64 = 0;
    let mut count: u32 = 0;
    let num_books: usize = books.len();
    let mut d: usize = 0;
    assert(books@.take(0) =~= Seq::<ParsedBook>::empty());
    assert(records_view(records@) =~= chunk_records(book_names(books@.take(0)), start_doc_id));
    while d < num_books
        invariant
            d <= num_books,
            num_books == books@.len(),
            count == book_texts(books@.take(d as int)).len(),
            book_names(books@.take(d as int)).len() == count,
            start_doc_id + count <= u32::MAX,
            distinct_index(index@),
            forall|t: Seq<char>| #[trigger]
                list_for(index@, t) == gathered(
                    book_texts(books@.take(d as int)),
                    stopwords@,
                    start_doc_id,
                    count as int,
                    t,
                ),
            records_view(records@) == chunk_records(
                book_names(books@.take(d as int)),
                start_doc_id,
            ),
            total == tokens_total(book_texts(books@.take(d as int)), count as int),
            lengths@.len() == count,
            forall|i: int|
                0 <= i < count ==> #[trigger] lengths@[i] == clamp_len(
                    analyze_spec(book_texts(books@.take(d as int))[i]).len() as int,
                ),
        decreases num_books - d,
    {
        let book: &ParsedBook = &books[d];
        let ghost before = book_texts(books@.take(d as int));
        let ghost names_before = book_names(books@.take(d as int));
        let num_chunks: usize = book.chunks.len();
        let mut c: usize = 0;
        proof {
            lemma_books_len(books@, d as int);
            assert(book.chunks.deep_view().take(0) =~= Seq::<Seq<char>>::empty());
            assert(before + book.chunks.deep_view().take(0) =~= before);
            assert(names_before + Seq::new(0, |j: int| book.book_id@) =~= names_before);
        }
        while c < num_chunks
            invariant
                c <= num_chunks,
                num_chunks == book.chunks@.len(),
                d < num_books,
                num_books == books@.len(),
                *book == books@[d as int],
                before == book_texts(books@.take(d as int)),
                names_before == book_names(books@.take(d as int)),
                names_before.len() == before.len(),
                before.len() + num_chunks <= book_texts(books@).len(),
                count == before.len() + c,
                start_doc_id + count <= u32::MAX,
                distinct_index(index@),
                forall|t: Seq<char>| #[trigger]
                    list_for(index@, t) == gathered(
                        before + book.chunks.deep_view().take(c as int),
                        stopwords@,
                        start_doc_id,
                        count as int,
                        t,
                    ),
                records_view(records@) == chunk_records(
                    names_before + Seq::new(c as nat, |j: int| book.book_id@),
                    start_doc_id,
                ),
                total == tokens_total(
                    before + book.chunks.deep_view().take(c as int),
                    count as int,
                ),
                lengths@.len() == count,
                forall|i: int|
                    0 <= i < count ==> #[trigger] lengths@[i] == clamp_len(
                        analyze_spec((before + book.chunks.deep_view().take(c as int))[i]).len() as int,
                    ),
            decreases num_chunks - c,
        {
            if count >= u32::MAX - start_doc_id {
                return None;
            }
            let doc_id: u32 = start_doc_id + count;
            let ghost seen = before + book.chunks.deep_view().take(c as int);
            let ghost now = before + book.chunks.deep_view().take(c + 1);
            let ghost text = book.chunks@[c as int]@;
            proof {
                assert(now =~= seen.push(text));
                lemma_tokens_prefix(seen, text, count as int);
                lemma_gathered_shape(seen, stopwords@, start_doc_id, count as int, text);
            }
            let ghost old_records = records_view(records@);
            records.push((doc_id, book.book_id.clone()));
            let tokens = analyze(book.chunks[c].as_str());
            let len: u32 = if tokens.len() > 0xFFFF_FFFF {
                0xFFFF_FFFF
            } else {
                tokens.len() as u32
            };
            total = total + len as u64;
            lengths.push(len);
            let refs = as_refs(&tokens);
            let freqs = count_terms(&refs, stopwords);
            add_postings(&mut index, &freqs, doc_id);
            count = count + 1;
            c = c + 1;
            proof {
                assert(freqs_view(freqs@) == chunk_counts(text, stopwords@));
                assert(now[count - 1] == text);
                assert forall|t: Seq<char>| #[trigger]
                    list_for(index@, t) == gathered(
                        now,
                        stopwords@,
                        start_doc_id,
                        count as int,
                        t,
                    ) by {
                    lemma_gathered_prefix(seen, text, stopwords@, start_doc_id, count - 1, t);
                }
                assert(tokens_total(now, count as int) == total);
                assert forall|i: int| 0 <= i < count implies #[trigger] lengths@[i] == clamp_len(
                    analyze_spec(now[i]).len() as int,
                ) by {
                    if i < count - 1 {
                        assert(now[i] == seen[i]);
                    }
                }
                assert(records_view(records@) =~= old_records.push((doc_id, book.book_id@)));
                assert(records_view(records@) =~= chunk_records(
                    names_before + Seq::new(c as nat, |j: int| book.book_id@),
                    start_doc_id,
                ));
            }
        }
        proof {
            lemma_books_step(books@, d as int);
            assert(book.chunks.deep_view().take(num_chunks as int) =~= book.chunks.deep_view());
        }
        d = d + 1;
    }
    proof {
        assert(books@.take(num_books as int) =~= books@);
    }
    let terms = encode_index(index, Ghost(book_texts(books@)), Ghost(stopwords@), Ghost(start_doc_id));
    Some(BatchIndex { chunk_records: records, lengths, terms, total_len: total, count })
}

/// What was gathered over chunks does not change when a chunk is added
/// after them.
pub proof fn lemma_gathered_prefix(
    texts: Seq<Seq<char>>,
    more: Seq<char>,
    stopwords: Seq<String>,
    start: u32,
    i: int,
    term: Seq<char>,
)
    requires
        0 <= i <= texts.len(),
    ensures
        gathered(texts.push(more), stopwords, start, i, term) == gathered(
            texts,
            stopwords,
            start,
            i,
            term,
        ),
    decreases i,
{
    if i > 0 {
        lemma_gathered_prefix(texts, more, stopwords, start, i - 1, term);
    }
}

/// The number of tokens of chunks does not change when a chunk is added
/// after them.
pub proof fn lemma_tokens_prefix(texts: Seq<Seq<char>>, more: Seq<char>, i: int)
    requires
        0 <= i <= texts.len(),
    ensures
        tokens_total(texts.push(more), i) == tokens_total(texts, i),
        tokens_total(texts, i) <= i * 0xFFFF_FFFF,
    decreases i,
{
    if i > 0 {
        lemma_tokens_prefix(texts, more, i - 1);
    }
}

} // verus!
