use rust_bm25::index::answers::build_reader;
use rust_bm25::index::ram::{Document, RamIndex};
use rust_bm25::index::realtime::{flush_batch, merge_results, ram_book, replay};
use rust_bm25::index::wal::{frame_record, record_lines};
use rust_bm25::index::{build_segment_with, BatchData, SegmentReader};
use rust_bm25::pipeline::analyze_content;
use rust_bm25::search::searcher::Hit;
use rust_bm25::search::FileSearcher;

fn record(content: &str) -> Document {
    Document { id: 0, content: content.to_string(), metadata: "{}".to_string(), length: 0 }
}

#[test]
fn ram_index_gives_out_ids_from_its_start() {
    let mut ram = RamIndex::new(10);
    assert_eq!(ram.insert("the cat sat".to_string(), "{\"a\":1}".to_string()), 10);
    assert_eq!(ram.insert("the cat".to_string(), "{}".to_string()), 11);
    assert_eq!(ram.next_doc_id, 12);
    assert_eq!(ram.num_docs(), 2);
    assert_eq!(ram.total_length, 5);
    assert_eq!(ram.docs[0].id, 10);
    assert_eq!(ram.docs[0].length, 3);
    assert_eq!(ram.docs[0].metadata, "{\"a\":1}");
    assert_eq!(ram.docs[1].content, "the cat");
}

#[test]
fn ram_index_plans_a_term() {
    let mut ram = RamIndex::new(10);
    ram.insert("the cat sat cat".to_string(), "{}".to_string());
    ram.insert("the dog".to_string(), "{}".to_string());
    ram.insert("cat".to_string(), "{}".to_string());
    let plan = ram.plan_term("cat").unwrap();
    assert_eq!(plan.total_df, 2);
    assert_eq!(
        plan.hits,
        vec![Hit { doc_id: 10, tf: 2, doc_len: 4 }, Hit { doc_id: 12, tf: 1, doc_len: 1 }]
    );
    assert!(ram.plan_term("zebra").is_none());
    let plans = ram.plan("cat zebra dog cat");
    assert_eq!(plans.len(), 3);
    assert_eq!(plans[1].hits, vec![Hit { doc_id: 11, tf: 1, doc_len: 2 }]);
    assert!(ram.plan("").is_empty());
}

#[test]
fn ram_index_clear_keeps_the_next_id() {
    let mut ram = RamIndex::new(3);
    ram.insert("the cat".to_string(), "{}".to_string());
    ram.clear();
    assert_eq!(ram.num_docs(), 0);
    assert_eq!(ram.total_length, 0);
    assert!(ram.inverted_index.is_empty());
    assert_eq!(ram.next_doc_id, 4);
    assert!(ram.plan_term("cat").is_none());
    assert_eq!(ram.insert("cat".to_string(), "{}".to_string()), 4);
    assert_eq!(ram.plan_term("cat").unwrap().hits, vec![Hit { doc_id: 4, tf: 1, doc_len: 1 }]);
}

#[test]
fn replay_puts_records_back_in_order() {
    let mut ram = RamIndex::new(100);
    let n = replay(&mut ram, vec![record("the cat"), record("the dog barks"), record("")]);
    assert_eq!(n, 3);
    assert_eq!(ram.next_doc_id, 103);
    assert_eq!(ram.docs[1].id, 101);
    assert_eq!(ram.docs[1].content, "the dog barks");
    assert_eq!(ram.docs[1].length, 3);
    assert_eq!(ram.docs[2].length, 0);
    assert_eq!(ram.plan_term("dog").unwrap().hits[0].doc_id, 101);
}

#[test]
fn replay_stops_where_the_ids_run_out() {
    let mut ram = RamIndex::new(u32::MAX - 1);
    let n = replay(&mut ram, vec![record("cat"), record("dog")]);
    assert_eq!(n, 1);
    assert_eq!(ram.next_doc_id, u32::MAX);
    assert_eq!(ram.num_docs(), 1);
}

#[test]
fn a_new_chunk_is_found_before_any_flush() {
    let texts: Vec<String> = (0..10).map(|i| format!("old text number {}", i)).collect();
    let disk_doc = analyze_content("disk".to_string(), &texts, &vec![]).unwrap();
    let reader =
        build_reader(&BatchData { segment_id: 0, docs: vec![disk_doc], base_doc_id: 0 }, 2).unwrap();
    let searcher = FileSearcher::new(vec![reader], 10);
    let mut ram = RamIndex::new(searcher.num_docs());
    for i in 0..5 {
        let text = if i == 3 { "fresh umbrella text".to_string() } else { format!("fresh text {}", i) };
        assert_eq!(ram.insert(text, "{}".to_string()), 10 + i);
    }
    assert!(searcher.plan("umbrella").is_empty());
    let plans = ram.plan("umbrella");
    assert_eq!(plans.len(), 1);
    assert_eq!(plans[0].hits, vec![Hit { doc_id: 13, tf: 1, doc_len: 3 }]);
    let merged = merge_results(vec![], vec![(13, 7)], 10);
    assert_eq!(merged, vec![("RAM_BOOK".to_string(), 7, 13)]);
    assert_eq!(ram.num_docs(), 5);
}

#[test]
fn merge_orders_by_rank_and_keeps_top_k() {
    let disk = vec![("a".to_string(), 50, 1), ("b".to_string(), 10, 2)];
    let ram = vec![(7, 30), (8, 50), (9, 5)];
    let all = merge_results(disk.clone(), ram.clone(), 10);
    assert_eq!(
        all,
        vec![
            ("a".to_string(), 50, 1),
            ("RAM_BOOK".to_string(), 50, 8),
            ("RAM_BOOK".to_string(), 30, 7),
            ("b".to_string(), 10, 2),
            ("RAM_BOOK".to_string(), 5, 9),
        ]
    );
    assert_eq!(merge_results(disk.clone(), ram.clone(), 2), all[..2].to_vec());
    assert!(merge_results(disk, ram, 0).is_empty());
    assert!(merge_results(vec![], vec![], 5).is_empty());
    assert_eq!(ram_book(), "RAM_BOOK");
}

#[test]
fn flush_turns_the_documents_into_one_batch() {
    let mut ram = RamIndex::new(20);
    assert!(flush_batch(&ram, 4).is_none());
    ram.insert("the cat sat".to_string(), "{}".to_string());
    ram.insert("".to_string(), "{}".to_string());
    ram.insert("the cat".to_string(), "{}".to_string());
    let batch = flush_batch(&ram, 4).unwrap();
    assert_eq!(batch.segment_id, 4);
    assert_eq!(batch.base_doc_id, 20);
    assert_eq!(batch.docs.len(), 1);
    assert_eq!(batch.docs[0].book_id, "RAM_BOOK");
    assert_eq!(batch.docs[0].chunks.len(), 3);
    assert_eq!(batch.docs[0].chunks[1].length, 0);
    assert!(batch.docs[0].chunks[1].freqs.is_empty());
    let files = build_segment_with(&batch, 1).unwrap();
    assert_eq!(files.meta.num_docs, 3);
    assert_eq!(files.meta.total_length, ram.total_length);
    let reader = SegmentReader::open(files).unwrap();
    assert_eq!(reader.get_doc_freq("cat"), Some(2));
    assert_eq!(reader.get_doc_freq("sat"), Some(1));
    assert_eq!(reader.get_doc_length(22), Some(2));
    assert_eq!(reader.get_book_id(21), Some("RAM_BOOK".to_string()));
    let mut it = reader.get_postings_iter("cat").unwrap();
    assert_eq!(it.collect_remaining(), vec![(20, 1), (22, 1)]);
}

#[test]
fn log_lines_skip_blank_lines() {
    assert_eq!(record_lines("{\"a\":1}\n{\"b\":2}\n"), vec!["{\"a\":1}".to_string(), "{\"b\":2}".to_string()]);
    assert_eq!(record_lines("x\n\n  \t\ny"), vec!["x".to_string(), "y".to_string()]);
    assert!(record_lines("").is_empty());
    assert!(record_lines("\n\n").is_empty());
    assert_eq!(record_lines("torn tail {\"id\":"), vec!["torn tail {\"id\":".to_string()]);
}

#[test]
fn log_lines_drop_the_carriage_return_before_a_line_feed() {
    assert_eq!(record_lines("a\r\nb\r\n"), vec!["a".to_string(), "b".to_string()]);
    assert_eq!(record_lines("a\rb\nc\r"), vec!["a\rb".to_string(), "c\r".to_string()]);
    assert!(record_lines("\r\n").is_empty());
}

#[test]
fn a_framed_record_is_one_line() {
    assert_eq!(frame_record("{\"id\":1}"), "{\"id\":1}\n");
    let mut log = String::new();
    log.push_str(&frame_record("{\"id\":1}"));
    log.push_str(&frame_record("{\"id\":2}"));
    assert_eq!(record_lines(&log), vec!["{\"id\":1}".to_string(), "{\"id\":2}".to_string()]);
}
