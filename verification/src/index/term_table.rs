//! The table that gathers, for every term of a batch, the postings seen so
//! far. It is a `DashMap` of the `dashmap` crate.
use dashmap::DashMap;
use rayon::slice::ParallelSliceMut;
use vstd::prelude::*;
use vstd::utf8::encode_utf8;
use crate::index::dictionary::bytes_lt;

verus! {

#[verifier::external_type_specification]
#[verifier::external_body]
#[verifier::reject_recursive_types(K)]
#[verifier::reject_recursive_types(V)]
#[verifier::reject_recursive_types(S)]
pub struct ExDashMap<K, V, S>(DashMap<K, V, S>);

/// A list of postings.
pub type Postings = Vec<(u32, u32)>;

/// The table type: from a term to its postings.
pub type TermTable = DashMap<String, Postings>;

/// A term with its postings.
pub type TermEntry = (String, Postings);

/// Name for what the table holds: for each term that it has, the list of
/// postings under it.
pub uninterp spec fn table_contents(m: TermTable) -> Map<
    Seq<char>,
    Seq<(u32, u32)>,
>;

/// The list under a term, empty where the table lacks the term.
pub open spec fn list_or_empty(
    contents: Map<Seq<char>, Seq<(u32, u32)>>,
    term: Seq<char>,
) -> Seq<(u32, u32)> {
    if contents.contains_key(term) {
        contents[term]
    } else {
        Seq::empty()
    }
}

/// `DashMap::with_capacity`: a table that holds nothing.
#[verifier::external_body]
pub(crate) fn table_new(capacity: usize) -> (m: TermTable)
    ensures
        forall|t: Seq<char>| !(#[trigger] table_contents(m).contains_key(t)),
{
    DashMap::with_capacity(capacity)
}

/// `DashMap::entry` and `Entry::or_default`, then a push onto the list
/// found or made: the posting is added at the end of the term's list.
#[verifier::external_body]
pub(crate) fn table_push(m: &mut TermTable, term: String, posting: (u32, u32))
    ensures
        table_contents(*final(m)) == table_contents(*old(m)).insert(
            term@,
            list_or_empty(table_contents(*old(m)), term@).push(posting),
        ),
{
    m.entry(term).or_default().push(posting);
}

/// `DashMap::into_iter`, collected: every term of the table once, with its
/// list, in no particular order.
#[verifier::external_body]
pub(crate) fn table_into_vec(m: TermTable) -> (r: Vec<TermEntry>)
    ensures
        forall|i: int|
            0 <= i < r@.len() ==> table_contents(m).contains_key(#[trigger] r@[i].0@)
                && table_contents(m)[r@[i].0@] == r@[i].1@,
        forall|i: int, j: int| 0 <= i < j < r@.len() ==> r@[i].0@ != r@[j].0@,
        forall|t: Seq<char>| #[trigger]
            table_contents(m).contains_key(t) ==> exists|i: int|
                0 <= i < r@.len() && #[trigger] r@[i].0@ == t,
{
    m.into_iter().collect()
}

/// rayon's `par_sort_unstable_by` with the order of `String`, which is the
/// byte order of the UTF-8 text: afterwards the vector holds the same items
/// and no item's term comes before that of an earlier item.
#[verifier::external_body]
pub(crate) fn sort_by_term(v: &mut Vec<TermEntry>)
    ensures
        final(v)@.to_multiset() == old(v)@.to_multiset(),
        forall|i: int, j: int|
            0 <= i < j < final(v)@.len() ==> !bytes_lt(
                encode_utf8(final(v)@[j].0@),
                encode_utf8(final(v)@[i].0@),
            ),
{
    v.par_sort_unstable_by(|a, b| a.0.cmp(&b.0));
}

} // verus!
