//! Read access to one segment: term statistics, postings, chunk lengths and
//! the book that a chunk belongs to.
use vstd::prelude::*;
use vstd::slice::{slice_subrange, slice_to_vec};
use vstd::utf8::{decode_utf8, encode_utf8, valid_utf8};
use crate::codecs::separated::decode_separated;
use crate::index::dictionary::{
    fst_bytes, fst_entries, fst_fuzzy, fst_get, fst_image, fst_open, fst_sound, fuzzy_keys,
    is_fst_image, keys_ascending, lookup, string_from_utf8,
};
use crate::index::postings_iter::PostingsIter;
use crate::index::segment::SegmentFiles;

verus! {

/// Bytes per row of the offsets table.
pub const ROW_LEN: usize = 28;

/// Why a segment could not be opened.
#[derive(Clone, Copy, Debug, PartialEq, Eq)]
pub enum SegmentError {
    /// The term dictionary was not accepted.
    CorruptDictionary,
}

/// The number that four bytes at `pos` denote, least significant first.
pub open spec fn le_u32(data: Seq<u8>, pos: int) -> nat {
    (data[pos] + 0x100 * data[pos + 1] + 0x1_0000 * data[pos + 2] + 0x100_0000 * data[pos
        + 3]) as nat
}

/// The number that eight bytes at `pos` denote, least significant first.
pub open spec fn le_u64(data: Seq<u8>, pos: int) -> nat {
    le_u32(data, pos) + 0x1_0000_0000 * le_u32(data, pos + 4)
}

/// The 32-bit number at `pos`, if four bytes stand there.
pub open spec fn u32_at(data: Seq<u8>, pos: int) -> Option<u32> {
    if 0 <= pos && pos + 4 <= data.len() {
        Some(le_u32(data, pos) as u32)
    } else {
        None
    }
}

/// The 64-bit number at `pos`, if eight bytes stand there.
pub open spec fn u64_at(data: Seq<u8>, pos: int) -> Option<u64> {
    if 0 <= pos && pos + 8 <= data.len() {
        Some(le_u64(data, pos) as u64)
    } else {
        None
    }
}

/// One row of the offsets table: where a term's two streams lie and how
/// many postings they hold.
pub struct OffsetsRow {
    pub doc_offset: u64,
    pub doc_len: u32,
    pub freq_offset: u64,
    pub freq_len: u32,
    pub doc_count: u32,
}

/// Row number `row` of the table, if the table holds it whole.
pub open spec fn row_at(offsets: Seq<u8>, row: int) -> Option<OffsetsRow> {
    if 0 <= row && 28 * row + 28 <= offsets.len() {
        Some(
            (OffsetsRow {
                doc_offset: le_u64(offsets, 28 * row) as u64,
                doc_len: le_u32(offsets, 28 * row + 8) as u32,
                freq_offset: le_u64(offsets, 28 * row + 12) as u64,
                freq_len: le_u32(offsets, 28 * row + 20) as u32,
                doc_count: le_u32(offsets, 28 * row + 24) as u32,
            }),
        )
    } else {
        None
    }
}

/// The two streams that a row points to, if both lie inside the blobs.
pub open spec fn row_streams(docs: Seq<u8>, freqs: Seq<u8>, row: OffsetsRow) -> Option<
    (Seq<u8>, Seq<u8>),
> {
    if row.doc_offset + row.doc_len <= docs.len() && row.freq_offset + row.freq_len
        <= freqs.len() {
        Some(
            (
                docs.subrange(row.doc_offset as int, row.doc_offset + row.doc_len),
                freqs.subrange(row.freq_offset as int, row.freq_offset + row.freq_len),
            ),
        )
    } else {
        None
    }
}

/// The bytes of the book id of local chunk `local`, if the chunk table and
/// the extent that it gives lie inside the blob.
pub open spec fn book_id_bytes(chunks: Seq<u8>, num_docs: int, local: int) -> Option<Seq<u8>> {
    let table = 4 * (num_docs + 1);
    if 0 <= local < num_docs && table <= chunks.len() {
        let start = le_u32(chunks, 4 * local);
        let end = le_u32(chunks, 4 * local + 4);
        if start <= end && table + end <= chunks.len() {
            Some(chunks.subrange(table + start, table + end))
        } else {
            None
        }
    } else {
        None
    }
}

/// Reads a little-endian `u32`, or nothing where fewer than four bytes are
/// left.
pub fn read_u32(data: &[u8], pos: usize) -> (r: Option<u32>)
    ensures
        r == u32_at(data@, pos as int),
{
    if data.len() < 4 || pos > data.len() - 4 {
        return None;
    }
    let b0: u32 = data[pos] as u32;
    let b1: u32 = data[pos + 1] as u32;
    let b2: u32 = data[pos + 2] as u32;
    let b3: u32 = data[pos + 3] as u32;
    Some(b0 + 0x100 * b1 + 0x1_0000 * b2 + 0x100_0000 * b3)
}

/// Reads a little-endian `u64`, or nothing where fewer than eight bytes are
/// left.
pub fn read_u64(data: &[u8], pos: usize) -> (r: Option<u64>)
    ensures
        r == u64_at(data@, pos as int),
{
    if data.len() < 8 || pos > data.len() - 8 {
        return None;
    }
    let low = read_u32(data, pos);
    let high = read_u32(data, pos + 4);
    match (low, high) {
        (Some(l), Some(h)) => Some((l as u64) + 0x1_0000_0000 * (h as u64)),
        _ => None,
    }
}

/// An opened segment. It owns the bytes of its files.
pub struct SegmentReader {
    pub terms_fst: fst::Map<Vec<u8>>,
    pub offsets: Vec<u8>,
    pub postings_docs: Vec<u8>,
    pub postings_freqs: Vec<u8>,
    pub chunks: Vec<u8>,
    pub doc_lengths: Vec<u8>,
    pub base_doc_id: u32,
    pub num_docs: u32,
}

impl SegmentReader {
    /// The dictionary reads from bytes that a dictionary builder wrote.
    pub open spec fn dictionary_sound(&self) -> bool {
        fst_sound(self.terms_fst)
    }

    /// The row number that the dictionary gives for a term.
    pub open spec fn term_row(&self, term: Seq<char>) -> Option<u64> {
        lookup(fst_entries(self.terms_fst), encode_utf8(term))
    }

    /// The row of the offsets table that belongs to a term.
    pub open spec fn term_offsets(&self, term: Seq<char>) -> Option<OffsetsRow> {
        match self.term_row(term) {
            Some(row) => row_at(self.offsets@, row as int),
            None => None,
        }
    }

    /// The two streams of a term, with the number of postings in them.
    pub open spec fn term_streams(&self, term: Seq<char>) -> Option<(Seq<u8>, Seq<u8>, nat)> {
        match self.term_offsets(term) {
            Some(row) => match row_streams(self.postings_docs@, self.postings_freqs@, row) {
                Some(streams) => Some((streams.0, streams.1, row.doc_count as nat)),
                None => None,
            },
            None => None,
        }
    }

    /// The postings of a term, as its streams decode.
    pub open spec fn term_postings(&self, term: Seq<char>) -> Option<Seq<(u32, u32)>> {
        match self.term_streams(term) {
            Some(s) => Some(decode_separated(s.0, s.1, s.2)),
            None => None,
        }
    }

    /// The number of postings recorded for a term.
    pub open spec fn doc_freq(&self, term: Seq<char>) -> Option<u32> {
        match self.term_offsets(term) {
            Some(row) => Some(row.doc_count),
            None => None,
        }
    }

    /// The analyzed length of a chunk, by its global document id.
    pub open spec fn doc_length(&self, global_doc_id: u32) -> Option<u32> {
        if self.base_doc_id <= global_doc_id && global_doc_id - self.base_doc_id < self.num_docs {
            u32_at(self.doc_lengths@, 4 * (global_doc_id - self.base_doc_id))
        } else {
            None
        }
    }

    /// The book id of a chunk, by its global document id.
    pub open spec fn book_id(&self, global_doc_id: u32) -> Option<Seq<char>> {
        if self.base_doc_id <= global_doc_id {
            match book_id_bytes(
                self.chunks@,
                self.num_docs as int,
                global_doc_id - self.base_doc_id,
            ) {
                Some(bytes) => if valid_utf8(bytes) {
                    Some(decode_utf8(bytes))
                } else {
                    None
                },
                None => None,
            }
        } else {
            None
        }
    }

    /// Opens a segment from the contents of its files. A dictionary that a
    /// dictionary builder wrote is always accepted.
    pub fn open(files: SegmentFiles) -> (r: Result<SegmentReader, SegmentError>)
        ensures
            is_fst_image(files.terms_fst@) ==> r is Ok && r->Ok_0.dictionary_sound(),
            forall|e: Seq<(Seq<u8>, u64)>|
                keys_ascending(e) && files.terms_fst@ == #[trigger] fst_image(e) ==> r is Ok
                    && fst_entries(r->Ok_0.terms_fst) == e,
            r is Ok ==> {
                let reader = r->Ok_0;
                &&& fst_bytes(reader.terms_fst) == files.terms_fst@
                &&& reader.offsets@ == files.offsets@
                &&& reader.postings_docs@ == files.postings_docs@
                &&& reader.postings_freqs@ == files.postings_freqs@
                &&& reader.chunks@ == files.chunks@
                &&& reader.doc_lengths@ == files.doc_lengths@
                &&& reader.base_doc_id == files.meta.base_doc_id
                &&& reader.num_docs == files.meta.num_docs
            },
            r is Err ==> r->Err_0 == SegmentError::CorruptDictionary,
    {
        let SegmentFiles {
            terms_fst,
            offsets,
            postings_docs,
            postings_freqs,
            chunks,
            doc_lengths,
            meta,
        } = files;
        match fst_open(terms_fst) {
            Ok(map) => Ok(
                SegmentReader {
                    terms_fst: map,
                    offsets,
                    postings_docs,
                    postings_freqs,
                    chunks,
                    doc_lengths,
                    base_doc_id: meta.base_doc_id,
                    num_docs: meta.num_docs,
                },
            ),
            Err(_) => Err(SegmentError::CorruptDictionary),
        }
    }

    /// Looks a term up in the dictionary and reads its row of the offsets
    /// table.
    fn find_row(&self, term: &str) -> (r: Option<OffsetsRow>)
        requires
            self.dictionary_sound(),
        ensures
            r == self.term_offsets(term@),
    {
        let term_idx: u64 = match fst_get(&self.terms_fst, term.as_bytes()) {
            Some(v) => v,
            None => { return None; },
        };
        let table: &[u8] = self.offsets.as_slice();
        if table.len() < 28 || term_idx > ((table.len() - 28) / 28) as u64 {
            return None;
        }
        let offset_pos: usize = (term_idx as usize) * 28;
        let doc_offset = read_u64(table, offset_pos);
        let doc_len = read_u32(table, offset_pos + 8);
        let freq_offset = read_u64(table, offset_pos + 12);
        let freq_len = read_u32(table, offset_pos + 20);
        let doc_count = read_u32(table, offset_pos + 24);
        match (doc_offset, doc_len, freq_offset, freq_len, doc_count) {
            (Some(doc_offset), Some(doc_len), Some(freq_offset), Some(freq_len), Some(doc_count)) => {
                Some(OffsetsRow { doc_offset, doc_len, freq_offset, freq_len, doc_count })
            },
            _ => None,
        }
    }

    /// The number of chunks of this segment that contain the term.
    pub fn get_doc_freq(&self, term: &str) -> (r: Option<u32>)
        requires
            self.dictionary_sound(),
        ensures
            r == self.doc_freq(term@),
    {
        match self.find_row(term) {
            Some(row) => Some(row.doc_count),
            None => None,
        }
    }

    /// A cursor over the postings of the term. There is none where the
    /// dictionary lacks the term, or its row or the extent of either stream
    /// lies outside the files.
    pub fn get_postings_iter<'a>(&'a self, term: &str) -> (r: Option<PostingsIter<'a>>)
        requires
            self.dictionary_sound(),
        ensures
            r is Some <==> self.term_postings(term@) is Some,
            r is Some ==> r->Some_0.wf() && Some(r->Some_0.remaining()) == self.term_postings(
                term@,
            ),
    {
        let row = match self.find_row(term) {
            Some(row) => row,
            None => { return None; },
        };
        let docs: &[u8] = self.postings_docs.as_slice();
        let freqs: &[u8] = self.postings_freqs.as_slice();
        if row.doc_offset > docs.len() as u64 || row.doc_len as u64 > docs.len() as u64
            - row.doc_offset {
            return None;
        }
        if row.freq_offset > freqs.len() as u64 || row.freq_len as u64 > freqs.len() as u64
            - row.freq_offset {
            return None;
        }
        let doc_start: usize = row.doc_offset as usize;
        let doc_end: usize = doc_start + row.doc_len as usize;
        let freq_start: usize = row.freq_offset as usize;
        let freq_end: usize = freq_start + row.freq_len as usize;
        Some(
            PostingsIter::new(
                slice_subrange(docs, doc_start, doc_end),
                slice_subrange(freqs, freq_start, freq_end),
                row.doc_count as usize,
            ),
        )
    }

    /// The analyzed length of the chunk with the given global document id,
    /// if the chunk belongs to this segment and its length is on file.
    pub fn get_doc_length(&self, global_doc_id: u32) -> (r: Option<u32>)
        ensures
            r == self.doc_length(global_doc_id),
    {
        if global_doc_id < self.base_doc_id {
            return None;
        }
        let local_id: u32 = global_doc_id - self.base_doc_id;
        if local_id >= self.num_docs {
            return None;
        }
        let lengths: &[u8] = self.doc_lengths.as_slice();
        if lengths.len() < 4 || local_id as u64 > ((lengths.len() - 4) / 4) as u64 {
            return None;
        }
        read_u32(lengths, (local_id as usize) * 4)
    }

    /// The id of the book that the chunk with the given global document id
    /// belongs to, if the chunk belongs to this segment and the id is on
    /// file as valid UTF-8.
    pub fn get_book_id(&self, global_doc_id: u32) -> (r: Option<String>)
        ensures
            r is Some <==> self.book_id(global_doc_id) is Some,
            r is Some ==> Some(r->Some_0@) == self.book_id(global_doc_id),
    {
        if global_doc_id < self.base_doc_id {
            return None;
        }
        let local_id: u32 = global_doc_id - self.base_doc_id;
        if local_id >= self.num_docs {
            return None;
        }
        let chunks: &[u8] = self.chunks.as_slice();
        let table: u64 = (self.num_docs as u64 + 1) * 4;
        if table > chunks.len() as u64 {
            return None;
        }
        let offsets_size: usize = table as usize;
        let start_pos: usize = (local_id as usize) * 4;
        let start: usize = match read_u32(chunks, start_pos) {
            Some(v) => v as usize,
            None => { return None; },
        };
        let end: usize = match read_u32(chunks, start_pos + 4) {
            Some(v) => v as usize,
            None => { return None; },
        };
        if start > end || end > chunks.len() - offsets_size {
            return None;
        }
        let bytes = slice_to_vec(slice_subrange(chunks, offsets_size + start, offsets_size + end));
        string_from_utf8(bytes)
    }

    /// The terms of the dictionary within `max_dist` edits of `term`, as the
    /// dictionary's fuzzy search returns them; keys that are not valid UTF-8
    /// are left out.
    pub fn get_fuzzy_terms(&self, term: &str, max_dist: u32) -> (r: Vec<String>)
        requires
            self.dictionary_sound(),
        ensures
            r.deep_view() == fuzzy_terms(fuzzy_keys(fst_entries(self.terms_fst), term@, max_dist)),
    {
        let mut keys = fst_fuzzy(&self.terms_fst, term, max_dist);
        let ghost all = keys.deep_view();
        let mut results: Vec<String> = Vec::new();
        let n: usize = keys.len();
        let mut i: usize = 0;
        while i < n
            invariant
                i <= n,
                n == keys.len(),
                forall|j: int| i <= j < n ==> keys@[j]@ == all[j],
                all.len() == n,
                results.deep_view() == fuzzy_terms(all.take(i as int)),
            decreases n - i,
        {
            let mut key: Vec<u8> = Vec::new();
            std::mem::swap(&mut key, &mut keys[i]);
            let ghost before = results.deep_view();
            proof {
                assert(all.take(i + 1).drop_last() =~= all.take(i as int));
            }
            match string_from_utf8(key) {
                Some(s) => {
                    results.push(s);
                    assert(results.deep_view() =~= before.push(decode_utf8(all[i as int])));
                },
                None => {},
            }
            i = i + 1;
        }
        assert(all.take(n as int) =~= all);
        results
    }
}

/// The keys that are valid UTF-8, decoded, in the order of the keys.
pub open spec fn fuzzy_terms(keys: Seq<Seq<u8>>) -> Seq<Seq<char>>
    decreases keys.len(),
{
    if keys.len() == 0 {
        Seq::empty()
    } else if valid_utf8(keys.last()) {
        fuzzy_terms(keys.drop_last()).push(decode_utf8(keys.last()))
    } else {
        fuzzy_terms(keys.drop_last())
    }
}

} // verus!
