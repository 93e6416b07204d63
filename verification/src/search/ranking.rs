//! Selection of the best results. A result is a document id with a rank, a
//! 32-bit number that stands for its score: a greater rank is a better
//! score.
use vstd::prelude::*;
use crate::codecs::sorting::{lemma_sort_postings, posting_order, sort_posting_list, sort_postings};
use vstd::relations::sorted_by;

verus! {

/// The key by which a result is sorted: results with a greater rank get a
/// smaller key, and among equal ranks the smaller document id comes first.
pub open spec fn sort_key(result: (u32, u32)) -> (u32, u32) {
    ((u32::MAX - result.1) as u32, result.0)
}

/// The result that a key stands for.
pub open spec fn from_key(key: (u32, u32)) -> (u32, u32) {
    (key.1, (u32::MAX - key.0) as u32)
}

/// The keys of the results.
pub open spec fn keys_of(results: Seq<(u32, u32)>) -> Seq<(u32, u32)> {
    Seq::new(results.len(), |i: int| sort_key(results[i]))
}

/// The results in order: best rank first, equal ranks by document id.
pub open spec fn ranked(results: Seq<(u32, u32)>) -> Seq<(u32, u32)> {
    let sorted = sort_postings(keys_of(results));
    Seq::new(sorted.len(), |i: int| from_key(sorted[i]))
}

/// The best `k` results, best first.
pub open spec fn best(results: Seq<(u32, u32)>, k: int) -> Seq<(u32, u32)> {
    if k <= 0 {
        Seq::empty()
    } else if k < results.len() {
        ranked(results).take(k)
    } else {
        ranked(results)
    }
}

/// The results in order hold the same results, and their ranks never rise.
pub proof fn lemma_ranked(results: Seq<(u32, u32)>)
    ensures
        ranked(results).len() == results.len(),
        ranked(results).to_multiset() == results.to_multiset(),
        forall|i: int, j: int|
            0 <= i < j < results.len() ==> ranked(results)[i].1 >= ranked(results)[j].1,
{
    let keys = keys_of(results);
    let sorted = sort_postings(keys);
    let out = ranked(results);
    lemma_sort_postings(keys);
    assert forall|i: int, j: int| 0 <= i < j < results.len() implies out[i].1 >= out[j].1 by {
        assert(posting_order()(sorted[i], sorted[j]));
    }
    assert(results =~= keys.map_values(|k: (u32, u32)| from_key(k)));
    assert(out =~= sorted.map_values(|k: (u32, u32)| from_key(k)));
    lemma_map_multiset(keys, sorted);
}

/// Sequences with the same items have the same items after each item is
/// replaced by the result that it stands for.
proof fn lemma_map_multiset(a: Seq<(u32, u32)>, b: Seq<(u32, u32)>)
    requires
        a.to_multiset() == b.to_multiset(),
    ensures
        a.map_values(|k: (u32, u32)| from_key(k)).to_multiset() == b.map_values(
            |k: (u32, u32)| from_key(k),
        ).to_multiset(),
    decreases a.len(),
{
    broadcast use vstd::multiset::group_multiset_axioms;

    let f = |k: (u32, u32)| from_key(k);
    a.to_multiset_ensures();
    b.to_multiset_ensures();
    if a.len() == 0 {
        assert(b.len() == 0);
        assert(a.map_values(f) =~= b.map_values(f));
    } else {
        let x = a.last();
        assert(a.contains(x));
        assert(a.to_multiset().count(x) > 0);
        assert(b.to_multiset().count(x) > 0);
        assert(b.contains(x));
        let j = choose|j: int| 0 <= j < b.len() && b[j] == x;
        let a2 = a.drop_last();
        let b2 = b.remove(j);
        assert(a2 =~= a.remove(a.len() - 1));
        assert(a2.to_multiset() =~= a.to_multiset().remove(x));
        assert(b2.to_multiset() =~= b.to_multiset().remove(x));
        lemma_map_multiset(a2, b2);
        assert(a.map_values(f) =~= a2.map_values(f).push(f(x)));
        a2.map_values(f).to_multiset_ensures();
        assert(b2.map_values(f) =~= b.map_values(f).remove(j));
        b.map_values(f).to_multiset_ensures();
        assert(b.map_values(f)[j] == f(x));
        assert(b.map_values(f).to_multiset() =~= b2.map_values(f).to_multiset().insert(f(x)));
    }
}

/// Puts the results in order: best rank first, equal ranks by document id.
pub fn rank_results(results: Vec<(u32, u32)>) -> (out: Vec<(u32, u32)>)
    ensures
        out@ == ranked(results@),
{
    let n: usize = results.len();
    let mut keys: Vec<(u32, u32)> = Vec::new();
    let mut i: usize = 0;
    while i < n
        invariant
            i <= n,
            n == results@.len(),
            keys@ == keys_of(results@).take(i as int),
        decreases n - i,
    {
        let (doc, rank) = results[i];
        keys.push((u32::MAX - rank, doc));
        assert(keys@ =~= keys_of(results@).take(i + 1));
        i = i + 1;
    }
    assert(keys@ =~= keys_of(results@));
    sort_posting_list(&mut keys);
    proof {
        lemma_sort_postings(keys_of(results@));
    }
    let mut out: Vec<(u32, u32)> = Vec::new();
    let mut j: usize = 0;
    while j < n
        invariant
            j <= n,
            n == keys@.len(),
            keys@ == sort_postings(keys_of(results@)),
            out@ == ranked(results@).take(j as int),
        decreases n - j,
    {
        let (inverse, doc) = keys[j];
        out.push((doc, u32::MAX - inverse));
        assert(out@ =~= ranked(results@).take(j + 1));
        j = j + 1;
    }
    assert(out@ =~= ranked(results@));
    out
}

/// The best `k` of the results, best rank first and equal ranks by
/// document id.
pub fn top_k(results: Vec<(u32, u32)>, k: usize) -> (out: Vec<(u32, u32)>)
    ensures
        out@ == best(results@, k as int),
{
    let ghost all = results@;
    if k == 0 {
        return Vec::new();
    }
    let mut out = rank_results(results);
    proof {
        lemma_sort_postings(keys_of(all));
    }
    if k < out.len() {
        out.truncate(k);
        assert(out@ =~= ranked(all).take(k as int));
    }
    out
}

} // verus!
