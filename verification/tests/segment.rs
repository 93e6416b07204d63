use rust_bm25::index::reader::SegmentError;
use rust_bm25::index::{
    build_segment, build_segment_with, BatchData, BuildError, ChunkTerms, ProcessedDoc,
    SegmentFiles, SegmentMeta, SegmentReader,
};

fn chunk(length: u32, freqs: &[(&str, u32)]) -> ChunkTerms {
    ChunkTerms::new(length, freqs.iter().map(|(t, f)| (t.to_string(), *f)).collect()).unwrap()
}

fn small_batch(base: u32) -> BatchData {
    BatchData {
        segment_id: 0,
        base_doc_id: base,
        docs: vec![
            ProcessedDoc {
                book_id: "alpha".to_string(),
                chunks: vec![
                    chunk(3, &[("the", 1), ("cat", 1), ("sat", 1)]),
                    chunk(2, &[("the", 1), ("cat", 1)]),
                ],
            },
            ProcessedDoc { book_id: "béta".to_string(), chunks: vec![chunk(5, &[("dog", 4), ("the", 1)])] },
            ProcessedDoc { book_id: "empty".to_string(), chunks: vec![] },
            ProcessedDoc { book_id: "g".to_string(), chunks: vec![chunk(7, &[("dog", 2), ("zebra", 5)])] },
        ],
    }
}

fn open(batch: &BatchData) -> SegmentReader {
    SegmentReader::open(build_segment(batch).unwrap()).unwrap()
}

fn postings(reader: &SegmentReader, term: &str) -> Option<Vec<(u32, u32)>> {
    reader.get_postings_iter(term).map(|mut it| it.collect_remaining())
}

#[test]
fn chunk_terms_rejects_a_term_listed_twice() {
    assert!(ChunkTerms::new(2, vec![("a".to_string(), 1), ("a".to_string(), 1)]).is_none());
    assert!(ChunkTerms::new(2, vec![("a".to_string(), 1), ("b".to_string(), 1)]).is_some());
    assert!(ChunkTerms::new(0, vec![]).is_some());
}

#[test]
fn segment_header_counts_chunks_and_lengths() {
    let files = build_segment(&small_batch(10)).unwrap();
    assert_eq!(files.meta.num_docs, 4);
    assert_eq!(files.meta.base_doc_id, 10);
    assert_eq!(files.meta.total_length, 17);
}

#[test]
fn segment_lengths_table_is_little_endian() {
    let files = build_segment(&small_batch(0)).unwrap();
    assert_eq!(files.doc_lengths, vec![3, 0, 0, 0, 2, 0, 0, 0, 5, 0, 0, 0, 7, 0, 0, 0]);
}

#[test]
fn segment_chunk_table_holds_offsets_then_book_ids() {
    let files = build_segment(&small_batch(0)).unwrap();
    let mut expected: Vec<u8> = Vec::new();
    for off in [0u32, 5, 10, 15, 16] {
        expected.extend_from_slice(&off.to_le_bytes());
    }
    expected.extend_from_slice("alphaalphabétag".as_bytes());
    assert_eq!(files.chunks, expected);
}

#[test]
fn segment_offsets_table_has_one_row_of_28_bytes_per_term() {
    let files = build_segment(&small_batch(0)).unwrap();
    // kept terms, ascending: cat, dog, the
    assert_eq!(files.offsets.len(), 3 * 28);
    let row = |i: usize| &files.offsets[28 * i..28 * i + 28];
    let u64_at = |r: &[u8], p: usize| u64::from_le_bytes(r[p..p + 8].try_into().unwrap());
    let u32_at = |r: &[u8], p: usize| u32::from_le_bytes(r[p..p + 4].try_into().unwrap());
    let mut doc_off = 0u64;
    let mut freq_off = 0u64;
    let counts = [2u32, 2, 3];
    for i in 0..3 {
        let r = row(i);
        assert_eq!(u64_at(r, 0), doc_off);
        assert_eq!(u64_at(r, 12), freq_off);
        assert_eq!(u32_at(r, 24), counts[i]);
        assert_eq!(u32_at(r, 8), counts[i]);
        assert_eq!(u32_at(r, 20), counts[i]);
        doc_off += u32_at(r, 8) as u64;
        freq_off += u32_at(r, 20) as u64;
    }
    assert_eq!(doc_off as usize, files.postings_docs.len());
    assert_eq!(freq_off as usize, files.postings_freqs.len());
    assert_eq!(files.postings_docs, vec![0u8, 1, 2, 1, 0, 1, 1]);
    assert_eq!(files.postings_freqs, vec![1u8, 1, 4, 2, 1, 1, 1]);
}

#[test]
fn reader_finds_postings_of_terms_in_two_or_more_chunks() {
    let reader = open(&small_batch(100));
    assert_eq!(postings(&reader, "the"), Some(vec![(100, 1), (101, 1), (102, 1)]));
    assert_eq!(postings(&reader, "cat"), Some(vec![(100, 1), (101, 1)]));
    assert_eq!(postings(&reader, "dog"), Some(vec![(102, 4), (103, 2)]));
    assert_eq!(reader.get_doc_freq("the"), Some(3));
    assert_eq!(reader.get_doc_freq("cat"), Some(2));
    assert_eq!(reader.get_doc_freq("dog"), Some(2));
}

#[test]
fn reader_has_no_terms_of_a_single_chunk() {
    let reader = open(&small_batch(0));
    assert_eq!(postings(&reader, "sat"), None);
    assert_eq!(postings(&reader, "zebra"), None);
    assert_eq!(reader.get_doc_freq("zebra"), None);
    assert_eq!(reader.get_doc_freq("absent"), None);
    assert_eq!(reader.get_doc_freq(""), None);
}

#[test]
fn reader_knows_chunk_lengths_by_global_id() {
    let reader = open(&small_batch(100));
    assert_eq!(reader.get_doc_length(100), Some(3));
    assert_eq!(reader.get_doc_length(101), Some(2));
    assert_eq!(reader.get_doc_length(102), Some(5));
    assert_eq!(reader.get_doc_length(103), Some(7));
    assert_eq!(reader.get_doc_length(104), None);
    assert_eq!(reader.get_doc_length(99), None);
    assert_eq!(reader.get_doc_length(0), None);
    assert_eq!(reader.get_doc_length(u32::MAX), None);
}

#[test]
fn reader_knows_book_ids_by_global_id() {
    let reader = open(&small_batch(100));
    assert_eq!(reader.get_book_id(100), Some("alpha".to_string()));
    assert_eq!(reader.get_book_id(101), Some("alpha".to_string()));
    assert_eq!(reader.get_book_id(102), Some("béta".to_string()));
    assert_eq!(reader.get_book_id(103), Some("g".to_string()));
    assert_eq!(reader.get_book_id(104), None);
    assert_eq!(reader.get_book_id(99), None);
}

#[test]
fn reader_fuzzy_terms_within_one_edit() {
    let reader = open(&small_batch(0));
    assert_eq!(reader.get_fuzzy_terms("catt", 1), vec!["cat".to_string()]);
    assert_eq!(reader.get_fuzzy_terms("dig", 1), vec!["dog".to_string()]);
    assert_eq!(reader.get_fuzzy_terms("the", 0), vec!["the".to_string()]);
    assert!(reader.get_fuzzy_terms("umbrella", 2).is_empty());
    let mut near = reader.get_fuzzy_terms("cot", 2);
    near.sort();
    assert_eq!(near, vec!["cat".to_string(), "dog".to_string()]);
}

#[test]
fn reader_terms_come_out_in_byte_order() {
    let batch = BatchData {
        segment_id: 0,
        base_doc_id: 0,
        docs: vec![ProcessedDoc {
            book_id: "b".to_string(),
            chunks: vec![
                chunk(4, &[("zz", 1), ("ab", 1), ("aab", 1), ("b", 1)]),
                chunk(4, &[("b", 1), ("aab", 1), ("zz", 1), ("ab", 1)]),
            ],
        }],
    };
    let reader = open(&batch);
    assert_eq!(
        reader.get_fuzzy_terms("ab", 2),
        vec!["aab".to_string(), "ab".to_string(), "b".to_string(), "zz".to_string()]
    );
}

#[test]
fn empty_batch_builds_an_empty_segment() {
    let batch = BatchData { segment_id: 3, base_doc_id: 7, docs: vec![] };
    let files = build_segment(&batch).unwrap();
    assert_eq!(files.meta.num_docs, 0);
    assert_eq!(files.meta.total_length, 0);
    assert!(files.offsets.is_empty());
    assert!(files.postings_docs.is_empty());
    assert!(files.doc_lengths.is_empty());
    assert_eq!(files.chunks, vec![0u8, 0, 0, 0]);
    let reader = SegmentReader::open(files).unwrap();
    assert_eq!(reader.get_doc_freq("cat"), None);
    assert_eq!(reader.get_doc_length(7), None);
    assert_eq!(reader.get_book_id(7), None);
}

#[test]
fn too_many_chunks_for_the_base_id() {
    let mut batch = small_batch(u32::MAX - 3);
    assert!(matches!(build_segment(&batch), Err(BuildError::TooManyChunks)));
    batch.base_doc_id = u32::MAX - 4;
    assert!(build_segment(&batch).is_ok());
}

#[test]
fn many_chunks_use_bit_packed_blocks() {
    let chunks: Vec<ChunkTerms> = (0..300u32)
        .map(|i| {
            if i == 42 {
                chunk(2, &[("word", 1 + i % 3), ("umbrella", 1)])
            } else {
                chunk(1, &[("word", 1 + i % 3)])
            }
        })
        .collect();
    let batch = BatchData {
        segment_id: 0,
        base_doc_id: 1000,
        docs: vec![ProcessedDoc { book_id: "book".to_string(), chunks }],
    };
    let reader = open(&batch);
    let expected: Vec<(u32, u32)> = (0..300u32).map(|i| (1000 + i, 1 + i % 3)).collect();
    assert_eq!(postings(&reader, "word"), Some(expected));
    assert_eq!(reader.get_doc_freq("word"), Some(300));
    assert_eq!(postings(&reader, "umbrella"), None);
    let mut it = reader.get_postings_iter("word").unwrap();
    assert_eq!(it.next(), Some((1000, 1)));
    assert_eq!(it.next(), Some((1001, 2)));
}

#[test]
fn open_rejects_a_dictionary_that_is_too_short() {
    let files = SegmentFiles {
        terms_fst: vec![1, 2, 3],
        offsets: vec![],
        postings_docs: vec![],
        postings_freqs: vec![],
        chunks: vec![],
        doc_lengths: vec![],
        meta: SegmentMeta { num_docs: 0, base_doc_id: 0, total_length: 0 },
    };
    assert!(matches!(SegmentReader::open(files), Err(SegmentError::CorruptDictionary)));
}

#[test]
fn truncated_files_give_nothing_and_do_not_panic() {
    let mut files = build_segment(&small_batch(0)).unwrap();
    files.doc_lengths.truncate(6);
    files.chunks.truncate(25);
    files.offsets.truncate(28 + 27);
    files.postings_docs.truncate(1);
    let reader = SegmentReader::open(files).unwrap();
    assert_eq!(reader.get_doc_length(0), Some(3));
    assert_eq!(reader.get_doc_length(1), None);
    assert_eq!(reader.get_book_id(0), Some("alpha".to_string()));
    assert_eq!(reader.get_book_id(1), None);
    assert_eq!(reader.get_doc_freq("cat"), Some(2));
    assert_eq!(reader.get_doc_freq("dog"), None);
    assert!(reader.get_postings_iter("cat").is_none());
    assert!(reader.get_postings_iter("dog").is_none());
}

#[test]
fn with_a_minimum_of_one_every_term_is_kept() {
    let reader = SegmentReader::open(build_segment_with(&small_batch(0), 1).unwrap()).unwrap();
    assert_eq!(postings(&reader, "zebra"), Some(vec![(3, 5)]));
    assert_eq!(postings(&reader, "sat"), Some(vec![(0, 1)]));
    assert_eq!(reader.get_doc_freq("the"), Some(3));
    let same = SegmentReader::open(build_segment_with(&small_batch(0), 0).unwrap()).unwrap();
    assert_eq!(postings(&same, "zebra"), Some(vec![(3, 5)]));
    let strict = SegmentReader::open(build_segment_with(&small_batch(0), 3).unwrap()).unwrap();
    assert_eq!(postings(&strict, "cat"), None);
    assert_eq!(strict.get_doc_freq("the"), Some(3));
}
