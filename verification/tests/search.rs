use rust_bm25::index::answers::build_reader;
use rust_bm25::index::{BatchData, ChunkTerms, ProcessedDoc, SegmentReader};
use rust_bm25::pipeline::analyze_content;
use rust_bm25::search::ranking::rank_results;
use rust_bm25::search::searcher::{Hit, TermPlan};
use rust_bm25::search::{top_k, FileSearcher};
use std::collections::HashMap;

const K1: f32 = 1.5;
const B: f32 = 0.75;

fn doc(id: &str, chunks: &[&str]) -> ProcessedDoc {
    let chunks: Vec<String> = chunks.iter().map(|s| s.to_string()).collect();
    analyze_content(id.to_string(), &chunks, &vec![]).unwrap()
}

fn reader(base: u32, docs: Vec<ProcessedDoc>, min: usize) -> SegmentReader {
    build_reader(&BatchData { segment_id: 0, docs, base_doc_id: base }, min).unwrap()
}

fn idf(total_docs: u32, df: u32) -> f32 {
    ((total_docs as f32 - df as f32 + 0.5) / (df as f32 + 0.5) + 1.0).ln()
}

fn scores(plans: &[TermPlan], total_docs: u32, avgdl: f32) -> HashMap<u32, f32> {
    let mut out: HashMap<u32, f32> = HashMap::new();
    for plan in plans {
        let idf = idf(total_docs, plan.total_df);
        for h in &plan.hits {
            let tf = h.tf as f32;
            let s = idf * tf * (K1 + 1.0) / (tf + K1 * (1.0 - B + B * h.doc_len as f32 / avgdl));
            *out.entry(h.doc_id).or_insert(0.0) += s;
        }
    }
    out
}

fn rank_of(score: f32) -> u32 {
    score.to_bits()
}

#[test]
fn shorter_chunk_scores_higher_for_the_same_term() {
    let searcher = FileSearcher::new(vec![reader(0, vec![doc("b", &["the cat sat", "the cat"])], 2)], 2);
    let plans = searcher.plan("cat");
    assert_eq!(plans.len(), 1);
    assert_eq!(plans[0].total_df, 2);
    assert_eq!(
        plans[0].hits,
        vec![Hit { doc_id: 0, tf: 1, doc_len: 3 }, Hit { doc_id: 1, tf: 1, doc_len: 2 }]
    );
    let s = scores(&plans, 2, 2.5);
    assert!(s[&0] > 0.0);
    assert!(s[&1] > 0.0);
    assert!(s[&1] > s[&0]);
    let best = top_k(s.iter().map(|(d, v)| (*d, rank_of(*v))).collect(), 10);
    assert_eq!(best.iter().map(|r| r.0).collect::<Vec<_>>(), vec![1, 0]);
    let named = searcher.resolve_books(&best);
    assert_eq!(named[0].0, "b");
    assert_eq!(named[0].2, 1);
}

#[test]
fn textbook_score_for_one_posting() {
    let searcher = FileSearcher::new(vec![reader(0, vec![doc("b", &["the cat sat", "the cat"])], 2)], 2);
    let plans = searcher.plan("cat");
    let s = scores(&plans, 2, 2.5);
    let idf = (0.5f32 / 2.5 + 1.0).ln();
    let expected = idf * 2.5 / (1.0 + 1.5 * (0.25 + 0.75 * 3.0 / 2.5));
    assert!((s[&0] - expected).abs() <= 1e-5 * expected.abs());
}

#[test]
fn a_rare_term_in_one_chunk_of_three_hundred() {
    let texts: Vec<String> = (0..300)
        .map(|i| if i == 42 { "filler umbrella".to_string() } else { "filler words".to_string() })
        .collect();
    let refs: Vec<&str> = texts.iter().map(|s| s.as_str()).collect();
    let searcher = FileSearcher::new(vec![reader(0, vec![doc("b", &refs)], 1)], 300);
    let plans = searcher.plan("umbrella");
    assert_eq!(plans.len(), 1);
    assert_eq!(plans[0].total_df, 1);
    assert_eq!(plans[0].hits, vec![Hit { doc_id: 42, tf: 1, doc_len: 2 }]);
    let value = idf(300, plans[0].total_df);
    assert!((value - 5.30).abs() < 0.005);
    let s = scores(&plans, 300, 2.0);
    let best = top_k(s.iter().map(|(d, v)| (*d, rank_of(*v))).collect(), 1);
    assert_eq!(best.len(), 1);
    assert_eq!(best[0].0, 42);
}

#[test]
fn a_term_in_one_chunk_is_left_out_by_default() {
    let searcher =
        FileSearcher::new(vec![reader(0, vec![doc("b", &["filler umbrella", "filler words"])], 2)], 2);
    assert!(searcher.plan("umbrella").is_empty());
    assert_eq!(searcher.plan("filler").len(), 1);
}

#[test]
fn a_typo_is_scored_as_the_term_it_is_near() {
    let searcher = FileSearcher::new(vec![reader(0, vec![doc("b", &["the cat sat", "the cat"])], 2)], 2);
    let typo = searcher.plan("catt");
    let exact = searcher.plan("cat");
    assert_eq!(typo.len(), 1);
    assert_eq!(typo[0].total_df, exact[0].total_df);
    assert_eq!(typo[0].hits, exact[0].hits);
    let resolved = searcher.resolve("catt");
    assert_eq!(resolved.terms, vec!["cat".to_string()]);
    assert_eq!(scores(&typo, 2, 2.5), scores(&exact, 2, 2.5));
}

#[test]
fn an_exact_match_does_not_look_for_near_terms() {
    let searcher = FileSearcher::new(
        vec![reader(0, vec![doc("b", &["cat cab car", "cat cab car"])], 2)],
        2,
    );
    let resolved = searcher.resolve("cat");
    assert_eq!(resolved.terms, vec!["cat".to_string()]);
    assert_eq!(resolved.total_df, 2);
    let near = searcher.resolve("caz");
    let mut terms = near.terms.clone();
    terms.sort();
    assert_eq!(terms, vec!["cab".to_string(), "car".to_string(), "cat".to_string()]);
    assert_eq!(near.total_df, 6);
}

#[test]
fn long_tokens_allow_two_edits_and_short_ones_one() {
    let chunk = || ChunkTerms::new(2, vec![("abcd".to_string(), 1), ("umbrell".to_string(), 1)]).unwrap();
    let docs = vec![ProcessedDoc { book_id: "b".to_string(), chunks: vec![chunk(), chunk()] }];
    let searcher = FileSearcher::new(vec![reader(0, docs, 2)], 2);
    assert_eq!(searcher.resolve("umbxxll").terms, vec!["umbrell".to_string()]);
    assert_eq!(searcher.resolve("umbxxll").total_df, 2);
    assert_eq!(searcher.resolve("umxxxll").total_df, 0);
    assert_eq!(searcher.resolve("abxd").terms, vec!["abcd".to_string()]);
    let far = searcher.resolve("axxd");
    assert_eq!(far.total_df, 0);
    assert_eq!(far.terms, vec!["axxd".to_string()]);
    assert!(searcher.plan_token("axxd").is_none());
}

#[test]
fn unknown_terms_have_no_plan() {
    let searcher = FileSearcher::new(vec![reader(0, vec![doc("b", &["the cat sat", "the cat"])], 2)], 2);
    assert!(searcher.plan("zzzzzzzz").is_empty());
    assert!(searcher.plan("").is_empty());
    assert!(searcher.plan("1 2 3").is_empty());
    let none = FileSearcher::new(vec![], 0);
    assert!(none.plan("cat").is_empty());
    assert_eq!(none.get_book_id(0), None);
}

#[test]
fn stopwords_are_left_out_of_queries() {
    let mut searcher =
        FileSearcher::new(vec![reader(0, vec![doc("b", &["the cat sat", "the cat"])], 2)], 2);
    assert_eq!(searcher.plan("the cat").len(), 2);
    searcher.set_stopwords(vec!["the".to_string()]);
    assert_eq!(searcher.query_tokens("the cat"), vec!["cat".to_string()]);
    assert_eq!(searcher.plan("the cat").len(), 1);
    assert!(searcher.plan("the").is_empty());
    assert_eq!(searcher.num_docs(), 2);
}

#[test]
fn two_segments_give_what_one_segment_gives() {
    let first = vec![doc("a", &["the cat sat", "the cat"])];
    let second = vec![doc("b", &["cat and dog", "the cat and the dog"])];
    let mut all = vec![doc("a", &["the cat sat", "the cat"])];
    all.push(doc("b", &["cat and dog", "the cat and the dog"]));
    let split = FileSearcher::new(vec![reader(0, first, 1), reader(2, second, 1)], 4);
    let whole = FileSearcher::new(vec![reader(0, all, 1)], 4);
    for query in ["cat", "the", "dog", "sat", "the cat and dog"] {
        let a = split.plan(query);
        let b = whole.plan(query);
        assert_eq!(a.len(), b.len());
        for (x, y) in a.iter().zip(b.iter()) {
            assert_eq!(x.total_df, y.total_df);
            assert_eq!(x.hits, y.hits);
        }
        let sa = scores(&a, 4, 3.0);
        let sb = scores(&b, 4, 3.0);
        let ta = top_k(sa.iter().map(|(d, v)| (*d, rank_of(*v))).collect(), 3);
        let tb = top_k(sb.iter().map(|(d, v)| (*d, rank_of(*v))).collect(), 3);
        assert_eq!(ta, tb);
        assert_eq!(split.resolve_books(&ta), whole.resolve_books(&tb));
    }
    assert_eq!(split.get_book_id(3), Some("b".to_string()));
    assert_eq!(split.get_book_id(4), None);
}

#[test]
fn top_k_takes_the_best_ranks_first() {
    let results = vec![(7, 10), (3, 50), (9, 50), (1, 0), (4, 20)];
    assert_eq!(top_k(results.clone(), 3), vec![(3, 50), (9, 50), (4, 20)]);
    assert_eq!(top_k(results.clone(), 0), vec![]);
    assert_eq!(top_k(results.clone(), 5), vec![(3, 50), (9, 50), (4, 20), (7, 10), (1, 0)]);
    assert_eq!(top_k(results.clone(), 99).len(), 5);
    assert_eq!(top_k(vec![], 3), vec![]);
    assert_eq!(rank_results(vec![(1, u32::MAX), (2, 0)]), vec![(1, u32::MAX), (2, 0)]);
}
