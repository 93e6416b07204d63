//! What a reader answers on the files of a segment that was built from a
//! batch.
use vstd::prelude::*;
use vstd::utf8::{encode_utf8, encode_utf8_decode_utf8, encode_utf8_valid_utf8};
use crate::index::dictionary::{
    fst_entries, has_key, keys_ascending, lemma_lookup_finds, lemma_utf8_injective, lookup,
};
use crate::index::reader::{book_id_bytes, row_at, row_streams, u32_at, SegmentReader};
use crate::index::segment::{postings_of, BatchData, ChunkTerms, SegmentFiles};
use crate::index::term_table::TermEntry;
use crate::index::writer::{
    build_segment_with, BuildError,
    chunks_laid_out, dictionary_entries, docs_end, expected_row, freqs_end, ids_end, is_kept,
    is_term_list, lemma_ids_end_monotonic, lengths_laid_out, postings_laid_out, segment_holds,
    table_entry,
    terms_ascending,
};

verus! {

/// The reader stands on the files: it holds their bytes and header, and its
/// dictionary holds the entries that the dictionary file was built from.
pub open spec fn reads(reader: SegmentReader, files: SegmentFiles, list: Seq<TermEntry>) -> bool {
    &&& reader.dictionary_sound()
    &&& fst_entries(reader.terms_fst) == dictionary_entries(list)
    &&& reader.offsets@ == files.offsets@
    &&& reader.postings_docs@ == files.postings_docs@
    &&& reader.postings_freqs@ == files.postings_freqs@
    &&& reader.chunks@ == files.chunks@
    &&& reader.doc_lengths@ == files.doc_lengths@
    &&& reader.base_doc_id == files.meta.base_doc_id
    &&& reader.num_docs == files.meta.num_docs
}

/// Terms in ascending order make dictionary entries with ascending keys.
pub proof fn lemma_entries_ascending(list: Seq<TermEntry>)
    requires
        terms_ascending(list),
    ensures
        keys_ascending(dictionary_entries(list)),
{
}

/// Builds the segment of a batch and opens a reader on it.
pub fn build_reader(data: &BatchData, min_postings: usize) -> (r: Result<SegmentReader, BuildError>)
    requires
        data.wf(),
    ensures
        r is Ok <==> build_fits(*data, min_postings as int),
        r is Ok ==> r->Ok_0.dictionary_sound() && exists|files: SegmentFiles, list: Seq<TermEntry>|
            #[trigger] segment_holds(files, *data, list, min_postings as int) && reads(
                r->Ok_0,
                files,
                list,
            ),
{
    let files = match build_segment_with(data, min_postings) {
        Ok(files) => files,
        Err(e) => {
            return Err(e);
        },
    };
    let ghost list = choose|list: Seq<TermEntry>| #[trigger]
        segment_holds(files, *data, list, min_postings as int);
    let ghost kept = files;
    proof {
        assert(terms_ascending(list)) by {
            reveal(is_term_list);
        }
        lemma_entries_ascending(list);
        assert(crate::index::dictionary::is_fst_image(files.terms_fst@));
    }
    match SegmentReader::open(files) {
        Ok(reader) => {
            assert(reads(reader, kept, list));
            Ok(reader)
        },
        Err(_) => Err(BuildError::TooLarge),
    }
}

/// The batch can be built: its document ids fit in 32 bits, and no stream
/// and not the book ids are too long.
pub open spec fn build_fits(data: BatchData, min: int) -> bool {
    &&& data.base_doc_id + data.chunks().len() <= u32::MAX
    &&& !crate::index::writer::streams_too_long(data.chunks(), data.base_doc_id, min)
    &&& ids_end(data.books(), data.books().len() as int) <= u32::MAX
}

/// The dictionary of a built segment lists its terms in ascending byte
/// order, and looking a term up gives the number of the row that holds that
/// term's offsets.
pub proof fn lemma_dictionary_rows(
    files: SegmentFiles,
    data: BatchData,
    list: Seq<TermEntry>,
    reader: SegmentReader,
    min: int,
    i: int,
)
    requires
        segment_holds(files, data, list, min),
        reads(reader, files, list),
        0 <= i < list.len(),
    ensures
        keys_ascending(fst_entries(reader.terms_fst)),
        reader.term_row(list[i].0@) == Some(i as u64),
        reader.term_offsets(list[i].0@) == Some(expected_row(list, i)),
{
    let entries = dictionary_entries(list);
    assert(entries[i] == (encode_utf8(list[i].0@), i as u64));
    assert(keys_ascending(entries)) by {
        reveal(is_term_list);
        assert(terms_ascending(list));
    }
    lemma_lookup_finds(entries, i);
    assert(row_at(files.offsets@, i) == Some(expected_row(list, i))) by {
        reveal(postings_laid_out);
        assert(list[i].1@ == list[i].1@);
    }
}

/// The row of a term of a laid-out segment points to the term's streams,
/// which decode to its postings.
proof fn lemma_stored_streams(files: SegmentFiles, list: Seq<TermEntry>, i: int)
    requires
        postings_laid_out(list, files.offsets@, files.postings_docs@, files.postings_freqs@),
        0 <= i < list.len(),
    ensures
        ({
            let row = expected_row(list, i);
            let streams = row_streams(files.postings_docs@, files.postings_freqs@, row);
            &&& streams is Some
            &&& crate::codecs::separated::decode_separated(
                streams->Some_0.0,
                streams->Some_0.1,
                row.doc_count as nat,
            ) == list[i].1@
            &&& row.doc_count == list[i].1@.len()
        }),
{
    reveal(postings_laid_out);
    let row = expected_row(list, i);
    assert(list[i].1@ == list[i].1@);
    assert(docs_end(list, i + 1) == docs_end(list, i) + row.doc_len);
    assert(freqs_end(list, i + 1) == freqs_end(list, i) + row.freq_len);
}

/// A reader on a built segment finds, for every term that enough chunks of
/// the batch list to be kept, exactly that term's postings, and nothing
/// for any other term.
pub proof fn lemma_built_segment_terms(
    files: SegmentFiles,
    data: BatchData,
    list: Seq<TermEntry>,
    reader: SegmentReader,
    min: int,
    term: Seq<char>,
)
    requires
        segment_holds(files, data, list, min),
        reads(reader, files, list),
    ensures
        is_kept(postings_of(data.chunks(), data.base_doc_id, term).len(), min)
            ==> reader.term_postings(
            term,
        ) == Some(postings_of(data.chunks(), data.base_doc_id, term)) && reader.doc_freq(term)
            == Some(postings_of(data.chunks(), data.base_doc_id, term).len() as u32),
        !is_kept(postings_of(data.chunks(), data.base_doc_id, term).len(), min)
            ==> reader.term_postings(
            term,
        ) is None && reader.doc_freq(term) is None,
{
    let chunks = data.chunks();
    let base = data.base_doc_id;
    let entries = dictionary_entries(list);
    let p = postings_of(chunks, base, term);
    if is_kept(p.len(), min) {
        assert(exists|i: int| 0 <= i < list.len() && #[trigger] list[i].0@ == term) by {
            reveal(is_term_list);
        }
        let i = choose|i: int| 0 <= i < list.len() && #[trigger] list[i].0@ == term;
        lemma_dictionary_rows(files, data, list, reader, min, i);
        assert(list[i].1@ == p) by {
            reveal(is_term_list);
        }
        let row = expected_row(list, i);
        assert(row_at(reader.offsets@, i) == Some(row));
        lemma_stored_streams(files, list, i);
    } else {
        if has_key(entries, encode_utf8(term)) {
            let i = choose|i: int|
                0 <= i < entries.len() && #[trigger] entries[i].0 == encode_utf8(term);
            if list[i].0@ != term {
                lemma_utf8_injective(list[i].0@, term);
            }
            assert(list[i].1@ == postings_of(chunks, base, list[i].0@) && is_kept(
                list[i].1@.len(),
                min,
            ))
                by {
                reveal(is_term_list);
            }
        }
        assert(lookup(entries, encode_utf8(term)) is None);
    }
}

/// The lengths table gives the length of chunk `k`.
proof fn lemma_length_on_file(lengths: Seq<u32>, blob: Seq<u8>, k: int)
    requires
        lengths_laid_out(lengths, blob),
        0 <= k < lengths.len(),
    ensures
        u32_at(blob, 4 * k) == Some(lengths[k]),
{
    reveal(lengths_laid_out);
}

/// The chunk table gives the book id of chunk `k`.
#[verifier::rlimit(50)]
proof fn lemma_book_on_file(names: Seq<Seq<char>>, blob: Seq<u8>, k: int)
    requires
        chunks_laid_out(names, blob),
        0 <= k < names.len(),
    ensures
        book_id_bytes(blob, names.len() as int, k) == Some(encode_utf8(names[k])),
{
    reveal(chunks_laid_out);
    let n = names.len() as int;
    let start = ids_end(names, k);
    let end = ids_end(names, k + 1);
    lemma_ids_end_monotonic(names, k + 1, n);
    assert(table_entry(blob, k) == start);
    assert(table_entry(blob, k + 1) == end);
    assert(blob.subrange(4 * (n + 1) + start, 4 * (n + 1) + end) == encode_utf8(names[k]));
}

/// A reader on a built segment knows, for every chunk of the batch, its
/// length and the id of its book, under the document id that the chunk got.
pub proof fn lemma_built_segment_chunks(
    files: SegmentFiles,
    data: BatchData,
    list: Seq<TermEntry>,
    reader: SegmentReader,
    min: int,
    k: int,
)
    requires
        segment_holds(files, data, list, min),
        reads(reader, files, list),
        data.base_doc_id + data.chunks().len() <= u32::MAX,
        0 <= k < data.chunks().len(),
        data.books().len() == data.chunks().len(),
    ensures
        reader.doc_length((data.base_doc_id + k) as u32) == Some(data.chunks()[k].length),
        reader.book_id((data.base_doc_id + k) as u32) == Some(data.books()[k]),
{
    let chunks = data.chunks();
    let books = data.books();
    let lengths = Seq::new(chunks.len(), |j: int| chunks[j].length);
    assert(lengths[k] == chunks[k].length);
    lemma_length_on_file(lengths, files.doc_lengths@, k);
    lemma_book_on_file(books, files.chunks@, k);
    encode_utf8_valid_utf8(books[k]);
    encode_utf8_decode_utf8(books[k]);
}

/// The postings of a term over chunks that are cut in two are the postings
/// over the first part followed by those over the second, whose document
/// ids go on where the first part's end.
pub proof fn lemma_postings_additive(
    first: Seq<ChunkTerms>,
    second: Seq<ChunkTerms>,
    base: u32,
    term: Seq<char>,
)
    requires
        base + first.len() + second.len() <= u32::MAX,
    ensures
        postings_of(first + second, base, term) == postings_of(first, base, term) + postings_of(
            second,
            (base + first.len()) as u32,
            term,
        ),
    decreases second.len(),
{
    let mid = (base + first.len()) as u32;
    if second.len() == 0 {
        assert(first + second =~= first);
        assert(postings_of(first, base, term) + postings_of(second, mid, term) =~= postings_of(
            first,
            base,
            term,
        ));
    } else {
        let whole = first + second;
        assert(whole.drop_last() =~= first + second.drop_last());
        assert(whole.last() == second.last());
        lemma_postings_additive(first, second.drop_last(), base, term);
        let a = postings_of(first, base, term);
        let b = postings_of(second.drop_last(), mid, term);
        if second.last().lists(term) {
            let p = ((base + whole.len() - 1) as u32, second.last().freq_of(term));
            assert((a + b).push(p) =~= a + b.push(p));
        }
    }
}

/// What scoring reads of a term in a segment: its postings, each with the
/// length of its chunk, a chunk of unknown length counting as one token.
pub open spec fn scoring_inputs(reader: SegmentReader, term: Seq<char>) -> Seq<(u32, u32, u32)> {
    match reader.term_postings(term) {
        Some(p) => Seq::new(
            p.len(),
            |i: int|
                (
                    p[i].0,
                    p[i].1,
                    match reader.doc_length(p[i].0) {
                        Some(len) => len,
                        None => 1,
                    },
                ),
        ),
        None => Seq::empty(),
    }
}

/// The number of chunks that a segment records for a term, 0 where it does
/// not know the term.
pub open spec fn recorded_df(reader: SegmentReader, term: Seq<char>) -> int {
    match reader.doc_freq(term) {
        Some(df) => df as int,
        None => 0,
    }
}

/// On a built segment that keeps every term, scoring reads for a term one
/// input for each of the term's postings over the batch, with the length
/// of the posting's chunk.
pub proof fn lemma_scoring_inputs(
    files: SegmentFiles,
    data: BatchData,
    list: Seq<TermEntry>,
    reader: SegmentReader,
    min: int,
    term: Seq<char>,
)
    requires
        data.wf(),
        segment_holds(files, data, list, min),
        reads(reader, files, list),
        min <= 1,
        data.base_doc_id + data.chunks().len() <= u32::MAX,
    ensures
        scoring_inputs(reader, term).len() == postings_of(
            data.chunks(),
            data.base_doc_id,
            term,
        ).len(),
        recorded_df(reader, term) == postings_of(data.chunks(), data.base_doc_id, term).len(),
        forall|i: int|
            0 <= i < scoring_inputs(reader, term).len() ==> {
                let p = postings_of(data.chunks(), data.base_doc_id, term)[i];
                &&& data.base_doc_id <= p.0 < data.base_doc_id + data.chunks().len()
                &&& #[trigger] scoring_inputs(reader, term)[i] == (
                    p.0,
                    p.1,
                    data.chunks()[p.0 - data.base_doc_id].length,
                )
            },
{
    let chunks = data.chunks();
    let base = data.base_doc_id;
    let p = postings_of(chunks, base, term);
    lemma_built_segment_terms(files, data, list, reader, min, term);
    crate::index::writer::lemma_postings_shape(chunks, base, term);
    crate::index::writer::lemma_flat_books_len(data.docs@);
    if p.len() >= 1 {
        assert(is_kept(p.len(), min));
        assert forall|i: int| 0 <= i < p.len() implies base <= p[i].0 < base + chunks.len()
            && #[trigger] scoring_inputs(reader, term)[i] == (
            p[i].0,
            p[i].1,
            chunks[p[i].0 - base].length,
        ) by {
            lemma_built_segment_chunks(files, data, list, reader, min, p[i].0 - base);
        }
    } else {
        assert(!is_kept(p.len(), min));
    }
}

/// Chunks cut into two segments give scoring what one segment of all the
/// chunks gives: for every term the same postings with the same chunk
/// lengths, and the same number of chunks. This holds where the segments
/// keep every term.
pub proof fn lemma_split_segments_agree(
    whole: (SegmentFiles, BatchData, Seq<TermEntry>, SegmentReader),
    first: (SegmentFiles, BatchData, Seq<TermEntry>, SegmentReader),
    second: (SegmentFiles, BatchData, Seq<TermEntry>, SegmentReader),
    min: int,
    term: Seq<char>,
)
    requires
        min <= 1,
        whole.1.wf() && first.1.wf() && second.1.wf(),
        segment_holds(whole.0, whole.1, whole.2, min) && reads(whole.3, whole.0, whole.2),
        segment_holds(first.0, first.1, first.2, min) && reads(first.3, first.0, first.2),
        segment_holds(second.0, second.1, second.2, min) && reads(second.3, second.0, second.2),
        whole.1.chunks() == first.1.chunks() + second.1.chunks(),
        first.1.base_doc_id == whole.1.base_doc_id,
        second.1.base_doc_id == whole.1.base_doc_id + first.1.chunks().len(),
        whole.1.base_doc_id + whole.1.chunks().len() <= u32::MAX,
    ensures
        scoring_inputs(whole.3, term) == scoring_inputs(first.3, term) + scoring_inputs(
            second.3,
            term,
        ),
        recorded_df(whole.3, term) == recorded_df(first.3, term) + recorded_df(second.3, term),
{
    let base = whole.1.base_doc_id;
    let a = first.1.chunks();
    let b = second.1.chunks();
    let mid = (base + a.len()) as u32;
    lemma_postings_additive(a, b, base, term);
    lemma_scoring_inputs(whole.0, whole.1, whole.2, whole.3, min, term);
    lemma_scoring_inputs(first.0, first.1, first.2, first.3, min, term);
    lemma_scoring_inputs(second.0, second.1, second.2, second.3, min, term);
    let pa = postings_of(a, base, term);
    let pb = postings_of(b, mid, term);
    let left = scoring_inputs(whole.3, term);
    let right = scoring_inputs(first.3, term) + scoring_inputs(second.3, term);
    assert(left.len() == right.len());
    assert forall|i: int| 0 <= i < left.len() implies left[i] == right[i] by {
        if i < pa.len() {
            assert((pa + pb)[i] == pa[i]);
            assert(scoring_inputs(first.3, term)[i] == (pa[i].0, pa[i].1, a[pa[i].0 - base].length));
            assert((a + b)[pa[i].0 - base] == a[pa[i].0 - base]);
        } else {
            let j = i - pa.len();
            assert((pa + pb)[i] == pb[j]);
            assert(scoring_inputs(second.3, term)[j] == (
                pb[j].0,
                pb[j].1,
                b[pb[j].0 - mid].length,
            ));
            assert((a + b)[pb[j].0 - base] == b[pb[j].0 - mid]);
        }
    }
    assert(left =~= right);
}

} // verus!
