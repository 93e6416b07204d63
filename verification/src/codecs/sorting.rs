//! The order in which posting lists are stored: by document id, ties by
//! term frequency.
use vstd::prelude::*;
use vstd::relations::{sorted_by, total_ordering};
use vstd::seq_lib::lemma_sorted_unique;

verus! {

/// `a` comes no later than `b`: smaller document id first, then smaller
/// frequency.
pub open spec fn posting_leq(a: (u32, u32), b: (u32, u32)) -> bool {
    a.0 < b.0 || (a.0 == b.0 && a.1 <= b.1)
}

/// The order of postings as a relation.
pub open spec fn posting_order() -> spec_fn((u32, u32), (u32, u32)) -> bool {
    |a: (u32, u32), b: (u32, u32)| posting_leq(a, b)
}

/// The postings of `s` in storage order.
pub open spec fn sort_postings(s: Seq<(u32, u32)>) -> Seq<(u32, u32)> {
    s.sort_by(posting_order())
}

/// Document ids never decrease along `s`.
pub open spec fn docs_ascending(s: Seq<(u32, u32)>) -> bool {
    forall|i: int, j: int| 0 <= i < j < s.len() ==> s[i].0 <= s[j].0
}

/// Document ids strictly increase along `s`.
pub open spec fn docs_strictly_ascending(s: Seq<(u32, u32)>) -> bool {
    forall|i: int, j: int| 0 <= i < j < s.len() ==> s[i].0 < s[j].0
}

/// The storage order is a total order.
pub proof fn lemma_posting_order_total()
    ensures
        total_ordering(posting_order()),
{
    let r = posting_order();
    assert forall|x: (u32, u32), y: (u32, u32)| #[trigger] r(x, y) && r(y, x) implies x == y by {}
}

/// Sorted postings hold the same postings, in storage order, with ascending
/// document ids.
pub proof fn lemma_sort_postings(s: Seq<(u32, u32)>)
    ensures
        sort_postings(s).to_multiset() == s.to_multiset(),
        sort_postings(s).len() == s.len(),
        sorted_by(sort_postings(s), posting_order()),
        docs_ascending(sort_postings(s)),
{
    lemma_posting_order_total();
    s.lemma_sort_by_ensures(posting_order());
    s.to_multiset_ensures();
    sort_postings(s).to_multiset_ensures();
    let t = sort_postings(s);
    assert forall|i: int, j: int| 0 <= i < j < t.len() implies t[i].0 <= t[j].0 by {
        assert(posting_order()(t[i], t[j]));
    }
}

/// A list whose document ids strictly increase is already in storage order.
pub proof fn lemma_sort_postings_fixed(s: Seq<(u32, u32)>)
    requires
        docs_strictly_ascending(s),
    ensures
        sort_postings(s) == s,
{
    lemma_posting_order_total();
    s.lemma_sort_by_ensures(posting_order());
    assert(sorted_by(s, posting_order())) by {
        assert forall|i: int, j: int| 0 <= i < j < s.len() implies #[trigger] posting_order()(
            s[i],
            s[j],
        ) by {}
    }
    lemma_sorted_unique(sort_postings(s), s, posting_order());
}

/// `<[(u32, u32)]>::sort_unstable`: afterwards the vector holds the same
/// pairs as before, ordered as tuples are: by first component, then by second.
#[verifier::external_body]
fn sort_pairs(v: &mut Vec<(u32, u32)>)
    ensures
        final(v)@.to_multiset() == old(v)@.to_multiset(),
        sorted_by(final(v)@, posting_order()),
{
    v.sort_unstable();
}

/// Puts `v` into storage order.
pub fn sort_posting_list(v: &mut Vec<(u32, u32)>)
    ensures
        final(v)@ == sort_postings(old(v)@),
{
    let ghost before = v@;
    sort_pairs(v);
    proof {
        lemma_posting_order_total();
        before.lemma_sort_by_ensures(posting_order());
        lemma_sorted_unique(v@, sort_postings(before), posting_order());
    }
}

} // verus!
