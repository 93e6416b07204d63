use rust_bm25::codecs::decode_postings_internal;
use rust_bm25::index::memory::{process_batch, ParsedBook};
use rust_bm25::index::ProcessedDoc;
use rust_bm25::pipeline::{
    analyze_content, count_terms, is_stopword, segment_name, Indexer, SeenTexts, BATCH_BOOKS,
};

fn words(list: &[&str]) -> Vec<String> {
    list.iter().map(|s| s.to_string()).collect()
}

fn book(id: &str) -> ProcessedDoc {
    analyze_content(id.to_string(), &words(&["cat dog"]), &vec![]).unwrap()
}

#[test]
fn stopword_lookup() {
    let stop = words(&["the", "de"]);
    assert!(is_stopword(&stop, "the"));
    assert!(is_stopword(&stop, "de"));
    assert!(!is_stopword(&stop, "th"));
    assert!(!is_stopword(&vec![], "the"));
}

#[test]
fn count_terms_counts_in_order_of_first_occurrence() {
    let tokens = vec!["cat", "dog", "cat", "the", "cat", "dog"];
    let freqs = count_terms(&tokens, &words(&["the"]));
    assert_eq!(freqs, vec![("cat".to_string(), 3), ("dog".to_string(), 2)]);
    assert!(count_terms(&vec![], &vec![]).is_empty());
    assert!(count_terms(&vec!["the"], &words(&["the"])).is_empty());
}

#[test]
fn analyze_content_counts_all_tokens_in_the_length() {
    let doc = analyze_content("b1".to_string(), &words(&["the cat sat", "the cat"]), &words(&["the"])).unwrap();
    assert_eq!(doc.book_id, "b1");
    assert_eq!(doc.chunks.len(), 2);
    assert_eq!(doc.chunks[0].length, 3);
    assert_eq!(doc.chunks[1].length, 2);
    assert_eq!(doc.chunks[1].freqs, vec![("cat".to_string(), 1)]);
    assert_eq!(doc.chunks[0].freqs.len(), 2);
}

#[test]
fn analyze_content_drops_chunks_without_terms() {
    let doc = analyze_content("b".to_string(), &words(&["12 34", "the the", "cat"]), &words(&["the"])).unwrap();
    assert_eq!(doc.chunks.len(), 1);
    assert_eq!(doc.chunks[0].length, 1);
}

#[test]
fn analyze_content_of_nothing_gives_nothing() {
    assert!(analyze_content("b".to_string(), &vec![], &vec![]).is_none());
    assert!(analyze_content("b".to_string(), &words(&["1 2 3", ""]), &vec![]).is_none());
    assert!(analyze_content("b".to_string(), &words(&["the"]), &words(&["the"])).is_none());
}

#[test]
fn segment_names() {
    assert_eq!(segment_name(0), "segment_0");
    assert_eq!(segment_name(7), "segment_7");
    assert_eq!(segment_name(10), "segment_10");
    assert_eq!(segment_name(1234567890), "segment_1234567890");
    assert_eq!(segment_name(usize::MAX), format!("segment_{}", usize::MAX));
}

#[test]
fn indexer_hands_out_a_batch_when_it_is_full() {
    let mut ix = Indexer::new();
    for i in 0..BATCH_BOOKS - 1 {
        assert!(ix.accept(book(&format!("b{}", i))).is_none());
    }
    assert_eq!(ix.batch.len(), BATCH_BOOKS - 1);
    let batch = ix.accept(book("last")).unwrap();
    assert_eq!(batch.docs.len(), BATCH_BOOKS);
    assert_eq!(batch.docs[BATCH_BOOKS - 1].book_id, "last");
    assert_eq!(batch.segment_id, 0);
    assert_eq!(batch.base_doc_id, 0);
    assert!(ix.batch.is_empty());
    assert!(ix.finish().is_none());
}

#[test]
fn indexer_finish_hands_out_what_is_left() {
    let mut ix = Indexer::new();
    assert!(ix.finish().is_none());
    assert!(ix.accept(book("a")).is_none());
    assert!(ix.accept(book("b")).is_none());
    let batch = ix.finish().unwrap();
    assert_eq!(batch.docs.len(), 2);
    assert!(ix.finish().is_none());
}

#[test]
fn indexer_numbers_segments_and_documents() {
    let mut ix = Indexer::new();
    ix.accept(book("a"));
    let first = ix.finish().unwrap();
    assert_eq!((first.segment_id, first.base_doc_id), (0, 0));
    ix.segment_done(Some(12));
    assert_eq!((ix.segment_id, ix.global_doc_id), (1, 12));
    ix.accept(book("b"));
    let second = ix.finish().unwrap();
    assert_eq!((second.segment_id, second.base_doc_id), (1, 12));
    ix.segment_done(None);
    assert_eq!((ix.segment_id, ix.global_doc_id), (2, 12));
    ix.segment_done(Some(u32::MAX));
    assert_eq!((ix.segment_id, ix.global_doc_id), (3, u32::MAX));
}

#[test]
fn the_same_text_is_let_through_once() {
    let mut seen = SeenTexts::new();
    assert!(seen.first_sight("the same book"));
    assert!(!seen.first_sight("the same book"));
    assert!(seen.first_sight("another book"));
    assert!(!seen.first_sight("the same book"));
    assert!(!seen.first_sight("another book"));
    assert!(seen.first_sight(""));
    assert!(!seen.first_sight(""));
}

#[test]
fn of_two_books_with_the_same_content_one_is_indexed() {
    let mut seen = SeenTexts::new();
    let mut ix = Indexer::new();
    let content = "the cat sat on the mat";
    for id in ["first_id", "second_id"] {
        if seen.first_sight(content) {
            let doc = analyze_content(id.to_string(), &words(&[content]), &vec![]).unwrap();
            ix.accept(doc);
        }
    }
    let batch = ix.finish().unwrap();
    assert_eq!(batch.docs.len(), 1);
}

#[test]
fn batch_in_memory_numbers_chunks_and_encodes_postings() {
    let books = vec![
        ParsedBook { book_id: "a".to_string(), chunks: words(&["the cat sat", "12 34", "the cat"]) },
        ParsedBook { book_id: "none".to_string(), chunks: vec![] },
        ParsedBook { book_id: "b".to_string(), chunks: words(&["cat cat dog"]) },
    ];
    let out = process_batch(&books, 7, &words(&["the"])).unwrap();
    assert_eq!(out.count, 4);
    assert_eq!(out.total_len, 3 + 0 + 2 + 3);
    assert_eq!(out.lengths, vec![3, 0, 2, 3]);
    assert_eq!(
        out.chunk_records,
        vec![(7, "a".to_string()), (8, "a".to_string()), (9, "a".to_string()), (10, "b".to_string())]
    );
    let find = |t: &str| out.terms.iter().find(|e| e.term == t);
    let cat = find("cat").unwrap();
    assert_eq!(cat.df, 3);
    assert_eq!(decode_postings_internal(&cat.postings), vec![(7, 1), (9, 1), (10, 2)]);
    assert_eq!(cat.postings, vec![7u8, 1, 2, 1, 1, 2]);
    assert_eq!(decode_postings_internal(&find("dog").unwrap().postings), vec![(10, 1)]);
    assert!(find("the").is_none());
    assert_eq!(out.terms.len(), 3);
}

#[test]
fn batch_in_memory_refuses_ids_past_32_bits() {
    let books = vec![ParsedBook { book_id: "a".to_string(), chunks: words(&["x", "y"]) }];
    assert!(process_batch(&books, u32::MAX - 1, &vec![]).is_none());
    assert!(process_batch(&books, u32::MAX - 2, &vec![]).is_some());
    let empty = process_batch(&vec![], u32::MAX, &vec![]).unwrap();
    assert_eq!(empty.count, 0);
    assert!(empty.terms.is_empty());
}
