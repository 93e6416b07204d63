//! The in-memory index that holds documents not yet written to a segment.
use vstd::prelude::*;
use crate::analysis::{analyze, analyze_spec, term_views};
use crate::document::str_equal;
use crate::pipeline::{clamp_len, count_terms, counts, has_term, term_index};
use crate::search::searcher::{plans_view, Hit, TermPlan};

verus! {

/// A document held in memory, with its analyzed length.
#[derive(Clone, Debug)]
pub struct Document {
    pub id: u32,
    pub content: String,
    /// Metadata as a JSON string.
    pub metadata: String,
    /// Number of analyzed tokens, kept for scoring.
    pub length: u32,
}

/// A term with the postings gathered for it.
pub type TermPostings = (String, Vec<(u32, u32)>);

/// The postings that the index holds for the term; none where it does not
/// list the term.
pub open spec fn list_for(index: Seq<TermPostings>, term: Seq<char>) -> Seq<(u32, u32)> {
    if exists|i: int| 0 <= i < index.len() && (#[trigger] index[i]).0@ == term {
        index[choose|i: int| 0 <= i < index.len() && (#[trigger] index[i]).0@ == term].1@
    } else {
        Seq::empty()
    }
}

/// The index lists the term.
pub open spec fn lists_term(index: Seq<TermPostings>, term: Seq<char>) -> bool {
    exists|i: int| 0 <= i < index.len() && (#[trigger] index[i]).0@ == term
}

/// No term is listed twice.
pub open spec fn distinct_index(index: Seq<TermPostings>) -> bool {
    forall|i: int, j: int| 0 <= i < j < index.len() ==> index[i].0@ != index[j].0@
}

/// Every posting of the index is for a document id from `lo` up to, but
/// not including, `hi`.
pub open spec fn postings_within(index: Seq<TermPostings>, lo: int, hi: int) -> bool {
    forall|i: int, k: int|
        0 <= i < index.len() && 0 <= k < index[i].1@.len() ==> lo <= (#[trigger] index[i].1@[k]).0
            < hi
}

/// The sum of the lengths of the first `i` documents.
pub open spec fn lengths_sum(docs: Seq<Document>, i: int) -> nat
    decreases i,
{
    if i <= 0 {
        0
    } else {
        lengths_sum(docs, i - 1) + docs[i - 1].length as nat
    }
}

/// The sum of lengths is at most the largest length times their number.
pub proof fn lemma_lengths_sum_bound(docs: Seq<Document>, i: int)
    requires
        0 <= i <= docs.len(),
    ensures
        lengths_sum(docs, i) <= i * 0xFFFF_FFFF,
    decreases i,
{
    if i > 0 {
        lemma_lengths_sum_bound(docs, i - 1);
    }
}

/// The sum over a longer sequence agrees on what both hold.
pub proof fn lemma_lengths_sum_push(docs: Seq<Document>, doc: Document, i: int)
    requires
        0 <= i <= docs.len(),
    ensures
        lengths_sum(docs.push(doc), i) == lengths_sum(docs, i),
    decreases i,
{
    if i > 0 {
        lemma_lengths_sum_push(docs, doc, i - 1);
    }
}

/// With distinct terms, the postings of a listed term are those that stand
/// beside it.
pub proof fn lemma_list_for_at(index: Seq<TermPostings>, i: int)
    requires
        distinct_index(index),
        0 <= i < index.len(),
    ensures
        list_for(index, index[i].0@) == index[i].1@,
{
    let term = index[i].0@;
    let j = choose|j: int| 0 <= j < index.len() && (#[trigger] index[j]).0@ == term;
    if j < i {
        assert(index[j].0@ != index[i].0@);
    } else if i < j {
        assert(index[i].0@ != index[j].0@);
    }
}

/// Finds the place of a term in the index.
fn find_term(index: &Vec<TermPostings>, term: &str) -> (r: Option<usize>)
    ensures
        r is Some <==> lists_term(index@, term@),
        r is Some ==> r->Some_0 < index@.len() && index@[r->Some_0 as int].0@ == term@,
{
    let n: usize = index.len();
    let mut i: usize = 0;
    while i < n
        invariant
            i <= n,
            n == index@.len(),
            forall|k: int| 0 <= k < i ==> (#[trigger] index@[k]).0@ != term@,
        decreases n - i,
    {
        if str_equal(index[i].0.as_str(), term) {
            return Some(i);
        }
        i = i + 1;
    }
    None
}

/// Adds a posting at the end of the list of a term, listing the term if
/// need be.
fn add_posting(index: &mut Vec<TermPostings>, term: String, posting: (u32, u32))
    requires
        distinct_index(old(index)@),
    ensures
        distinct_index(final(index)@),
        list_for(final(index)@, term@) == list_for(old(index)@, term@).push(posting),
        forall|t: Seq<char>|
            t != term@ ==> #[trigger] list_for(final(index)@, t) == list_for(old(index)@, t),
        forall|lo: int, hi: int|
            postings_within(old(index)@, lo, hi) && lo <= posting.0 < hi ==> postings_within(
                final(index)@,
                lo,
                hi,
            ),
{
    let ghost before = index@;
    match find_term(index, term.as_str()) {
        Some(at) => {
            let mut list: Vec<(u32, u32)> = Vec::new();
            std::mem::swap(&mut list, &mut index[at].1);
            list.push(posting);
            let name: String = index[at].0.clone();
            index.set(at, (name, list));
            proof {
                let after = index@;
                assert forall|i: int, j: int| 0 <= i < j < after.len() implies after[i].0@
                    != after[j].0@ by {
                    assert(after[i].0@ == before[i].0@);
                    assert(after[j].0@ == before[j].0@);
                }
                lemma_list_for_at(before, at as int);
                lemma_list_for_at(after, at as int);
                assert forall|t: Seq<char>| t != term@ implies #[trigger] list_for(after, t)
                    == list_for(before, t) by {
                    if lists_term(before, t) {
                        let k = choose|k: int|
                            0 <= k < before.len() && (#[trigger] before[k]).0@ == t;
                        assert(after[k].0@ == t);
                        lemma_list_for_at(before, k);
                        lemma_list_for_at(after, k);
                    } else {
                        if lists_term(after, t) {
                            let k = choose|k: int|
                                0 <= k < after.len() && (#[trigger] after[k]).0@ == t;
                            assert(before[k].0@ == t);
                        }
                    }
                }
                assert forall|lo: int, hi: int|
                    postings_within(before, lo, hi) && lo <= posting.0 < hi implies postings_within(
                    after,
                    lo,
                    hi,
                ) by {
                    assert forall|i: int, k: int|
                        0 <= i < after.len() && 0 <= k < after[i].1@.len() implies lo <= (
                    #[trigger] after[i].1@[k]).0 < hi by {
                        if i == at {
                            if k < before[i].1@.len() {
                                assert(after[i].1@[k] == before[i].1@[k]);
                            }
                        } else {
                            assert(after[i].1@[k] == before[i].1@[k]);
                        }
                    }
                }
            }
        },
        None => {
            let mut list: Vec<(u32, u32)> = Vec::new();
            list.push(posting);
            let ghost key = term@;
            index.push((term, list));
            proof {
                let after = index@;
                let last = before.len() as int;
                assert forall|i: int, j: int| 0 <= i < j < after.len() implies after[i].0@
                    != after[j].0@ by {
                    if j == last {
                        assert(before[i].0@ != key);
                    }
                }
                lemma_list_for_at(after, last);
                assert(list_for(before, key) =~= Seq::<(u32, u32)>::empty());
                assert(after[last].1@ =~= Seq::<(u32, u32)>::empty().push(posting));
                assert forall|t: Seq<char>| t != key implies #[trigger] list_for(after, t)
                    == list_for(before, t) by {
                    if lists_term(before, t) {
                        let k = choose|k: int|
                            0 <= k < before.len() && (#[trigger] before[k]).0@ == t;
                        assert(after[k].0@ == t);
                        lemma_list_for_at(before, k);
                        lemma_list_for_at(after, k);
                    } else {
                        if lists_term(after, t) {
                            let k = choose|k: int|
                                0 <= k < after.len() && (#[trigger] after[k]).0@ == t;
                            assert(k < last);
                            assert(before[k].0@ == t);
                        }
                    }
                }
                assert forall|lo: int, hi: int|
                    postings_within(before, lo, hi) && lo <= posting.0 < hi implies postings_within(
                    after,
                    lo,
                    hi,
                ) by {
                    assert forall|i: int, k: int|
                        0 <= i < after.len() && 0 <= k < after[i].1@.len() implies lo <= (
                    #[trigger] after[i].1@[k]).0 < hi by {
                        if i < last {
                            assert(after[i].1@[k] == before[i].1@[k]);
                        }
                    }
                }
            }
        },
    }
}

/// The postings of a term after a document with the given term counts was
/// added under `id`.
pub open spec fn list_with(
    before: Seq<(u32, u32)>,
    cs: Seq<(Seq<char>, u32)>,
    upto: int,
    id: u32,
    term: Seq<char>,
) -> Seq<(u32, u32)> {
    if has_term(cs.take(upto), term) {
        before.push((id, cs[term_index(cs.take(upto), term)].1))
    } else {
        before
    }
}

/// The texts of the strings, borrowed.
pub fn as_refs(tokens: &Vec<String>) -> (refs: Vec<&str>)
    ensures
        term_views(refs@) == tokens.deep_view(),
{
    let mut refs: Vec<&str> = Vec::new();
    let mut i: usize = 0;
    while i < tokens.len()
        invariant
            i <= tokens@.len(),
            term_views(refs@) == tokens.deep_view().take(i as int),
        decreases tokens@.len() - i,
    {
        let ghost before = term_views(refs@);
        refs.push(tokens[i].as_str());
        assert(tokens.deep_view()[i as int] == tokens@[i as int]@);
        assert(term_views(refs@) =~= before.push(tokens@[i as int]@));
        assert(term_views(refs@) =~= tokens.deep_view().take(i + 1));
        i = i + 1;
    }
    assert(tokens.deep_view().take(tokens@.len() as int) =~= tokens.deep_view());
    refs
}

/// Adds, for each counted term, a posting for the document `doc_id`.
pub fn add_postings(index: &mut Vec<TermPostings>, freqs: &Vec<(String, u32)>, doc_id: u32)
    requires
        distinct_index(old(index)@),
        crate::pipeline::distinct_terms(crate::pipeline::freqs_view(freqs@)),
    ensures
        distinct_index(final(index)@),
        forall|lo: int|
            lo <= doc_id && postings_within(old(index)@, lo, doc_id as int) ==> postings_within(
                final(index)@,
                lo,
                doc_id + 1,
            ),
        forall|t: Seq<char>| #[trigger]
            list_for(final(index)@, t) == list_with(
                list_for(old(index)@, t),
                crate::pipeline::freqs_view(freqs@),
                freqs@.len() as int,
                doc_id,
                t,
            ),
{
    let ghost old_index = index@;
    let ghost cs = crate::pipeline::freqs_view(freqs@);
    let m: usize = freqs.len();
    let mut j: usize = 0;
    assert(cs.take(0) =~= Seq::<(Seq<char>, u32)>::empty());
    while j < m
        invariant
            j <= m,
            m == freqs@.len(),
            cs == crate::pipeline::freqs_view(freqs@),
            crate::pipeline::distinct_terms(cs),
            distinct_index(index@),
            forall|lo: int|
                lo <= doc_id && postings_within(old_index, lo, doc_id as int) ==> postings_within(
                    index@,
                    lo,
                    doc_id + 1,
                ),
            forall|t: Seq<char>| #[trigger]
                list_for(index@, t) == list_with(list_for(old_index, t), cs, j as int, doc_id, t),
        decreases m - j,
    {
        let term: String = freqs[j].0.clone();
        let freq: u32 = freqs[j].1;
        let ghost before = index@;
        add_posting(index, term, (doc_id, freq));
        proof {
            let key = cs[j as int].0;
            let front = cs.take(j as int);
            let next = cs.take(j + 1);
            assert(next[j as int] == cs[j as int]);
            assert(!has_term(front, key)) by {
                if has_term(front, key) {
                    let k = term_index(front, key);
                    assert(front[k] == cs[k]);
                    assert(cs[k].0 != cs[j as int].0);
                }
            }
            assert(has_term(next, key));
            assert(term_index(next, key) == j) by {
                let k = term_index(next, key);
                assert(next[k] == cs[k]);
                if k < j {
                    assert(cs[k].0 != cs[j as int].0);
                }
            }
            assert forall|t: Seq<char>| #[trigger]
                list_for(index@, t) == list_with(list_for(old_index, t), cs, j + 1, doc_id, t) by {
                if t != key {
                    assert(list_for(index@, t) == list_for(before, t));
                    if has_term(front, t) {
                        let k = term_index(front, t);
                        assert(front[k] == cs[k]);
                        assert(next[k] == cs[k]);
                        assert(has_term(next, t));
                        let k2 = term_index(next, t);
                        assert(next[k2] == cs[k2]);
                        if k < k2 {
                            assert(cs[k].0 != cs[k2].0);
                        } else if k2 < k {
                            assert(cs[k2].0 != cs[k].0);
                        }
                    } else {
                        if has_term(next, t) {
                            let k2 = term_index(next, t);
                            assert(next[k2] == cs[k2]);
                            assert(k2 < j);
                            assert(front[k2] == cs[k2]);
                        }
                    }
                }
            }
        }
        j = j + 1;
    }
    proof {
        assert(cs.take(m as int) =~= cs);
    }
}

/// An index in memory: for each term the chunks that hold it, and the
/// documents themselves.
pub struct RamIndex {
    /// For each term, the documents that hold it with the term's frequency.
    pub inverted_index: Vec<TermPostings>,
    /// The documents, in the order of their ids.
    pub docs: Vec<Document>,
    pub next_doc_id: u32,
    pub total_length: u64,
}

impl RamIndex {
    /// The id of the first document held.
    pub open spec fn first_id(&self) -> int {
        self.next_doc_id - self.docs@.len()
    }

    /// No term is listed twice; the documents have successive ids that end
    /// before the next id to give out; every posting is for a document
    /// held; and the total length is the sum of the documents' lengths.
    pub open spec fn wf(&self) -> bool {
        &&& distinct_index(self.inverted_index@)
        &&& self.docs@.len() <= self.next_doc_id
        &&& forall|i: int|
            0 <= i < self.docs@.len() ==> (#[trigger] self.docs@[i]).id == self.first_id() + i
        &&& postings_within(self.inverted_index@, self.first_id(), self.next_doc_id as int)
        &&& self.total_length == lengths_sum(self.docs@, self.docs@.len() as int)
    }

    /// The postings held for a term.
    pub open spec fn postings_for(&self, term: Seq<char>) -> Seq<(u32, u32)> {
        list_for(self.inverted_index@, term)
    }

    /// What scoring needs of the postings held for a term: for each, the
    /// document, the term's frequency, and the document's length.
    pub open spec fn hits_for(&self, term: Seq<char>) -> Seq<Hit> {
        let p = self.postings_for(term);
        Seq::new(
            p.len(),
            |k: int|
                (Hit {
                    doc_id: p[k].0,
                    tf: p[k].1,
                    doc_len: self.docs@[p[k].0 - self.first_id()].length,
                }),
        )
    }

    /// The plans of the first `i` terms, terms that the index does not
    /// list left out.
    pub open spec fn term_plans(&self, terms: Seq<Seq<char>>, i: int) -> Seq<(u32, Seq<Hit>)>
        decreases i,
    {
        if i <= 0 {
            Seq::empty()
        } else if lists_term(self.inverted_index@, terms[i - 1]) {
            self.term_plans(terms, i - 1).push(
                (
                    clamp_len(self.postings_for(terms[i - 1]).len() as int),
                    self.hits_for(terms[i - 1]),
                ),
            )
        } else {
            self.term_plans(terms, i - 1)
        }
    }

    /// An empty index whose first document will get the id `start_doc_id`.
    pub fn new(start_doc_id: u32) -> (s: RamIndex)
        ensures
            s.wf(),
            s.next_doc_id == start_doc_id,
            s.docs@.len() == 0,
            s.inverted_index@.len() == 0,
            s.total_length == 0,
    {
        RamIndex {
            inverted_index: Vec::new(),
            docs: Vec::new(),
            next_doc_id: start_doc_id,
            total_length: 0,
        }
    }

    /// The number of documents held.
    pub fn num_docs(&self) -> (n: usize)
        ensures
            n == self.docs@.len(),
    {
        self.docs.len()
    }

    /// Takes in a document: analyzes its content, gives it the next id,
    /// and adds a posting for each of its terms. Returns the id.
    pub fn insert(&mut self, content: String, metadata: String) -> (id: u32)
        requires
            old(self).wf(),
            old(self).next_doc_id < u32::MAX,
        ensures
            final(self).wf(),
            id == old(self).next_doc_id,
            final(self).next_doc_id == id + 1,
            final(self).docs@.len() == old(self).docs@.len() + 1,
            final(self).docs@.drop_last() == old(self).docs@,
            final(self).docs@.last().id == id,
            final(self).docs@.last().content == content,
            final(self).docs@.last().metadata == metadata,
            final(self).docs@.last().length == clamp_len(analyze_spec(content@).len() as int),
            final(self).total_length == old(self).total_length + final(self).docs@.last().length,
            forall|t: Seq<char>| #[trigger]
                final(self).postings_for(t) == list_with(
                    old(self).postings_for(t),
                    counts(
                        analyze_spec(content@),
                        Seq::<String>::empty(),
                        analyze_spec(content@).len() as int,
                    ),
                    counts(
                        analyze_spec(content@),
                        Seq::<String>::empty(),
                        analyze_spec(content@).len() as int,
                    ).len() as int,
                    id,
                    t,
                ),
    {
        let doc_id: u32 = self.next_doc_id;
        let tokens: Vec<String> = analyze(content.as_str());
        let doc_length: u32 = if tokens.len() > 0xFFFF_FFFF {
            0xFFFF_FFFF
        } else {
            tokens.len() as u32
        };
        proof {
            lemma_lengths_sum_bound(self.docs@, self.docs@.len() as int);
        }
        let ghost old_docs = self.docs@;
        let ghost old_index = self.inverted_index@;
        let ghost lo = self.first_id();
        self.next_doc_id = doc_id + 1;
        self.total_length = self.total_length + doc_length as u64;
        let doc = Document { id: doc_id, content, metadata, length: doc_length };
        self.docs.push(doc);
        proof {
            assert(self.docs@.drop_last() =~= old_docs);
            lemma_lengths_sum_push(old_docs, doc, old_docs.len() as int);
        }
        let refs = as_refs(&tokens);
        let stopwords: Vec<String> = Vec::new();
        assert(stopwords@ =~= Seq::<String>::empty());
        let freqs = count_terms(&refs, &stopwords);
        add_postings(&mut self.inverted_index, &freqs, doc_id);
        doc_id
    }

    /// Forgets all documents and postings. The next id to give out stays.
    pub fn clear(&mut self)
        ensures
            final(self).wf(),
            final(self).inverted_index@.len() == 0,
            final(self).docs@.len() == 0,
            final(self).total_length == 0,
            final(self).next_doc_id == old(self).next_doc_id,
    {
        self.inverted_index.clear();
        self.docs.clear();
        self.total_length = 0;
    }

    /// What scoring needs of a term: the number of documents that hold it
    /// and, for each, the term's frequency and the document's length.
    /// Nothing where the index does not list the term.
    pub fn plan_term(&self, term: &str) -> (r: Option<TermPlan>)
        requires
            self.wf(),
        ensures
            r is Some <==> lists_term(self.inverted_index@, term@),
            r is Some ==> r->Some_0.total_df == clamp_len(self.postings_for(term@).len() as int)
                && r->Some_0.hits@ == self.hits_for(term@),
    {
        let at: usize = match find_term(&self.inverted_index, term) {
            Some(at) => at,
            None => { return None; },
        };
        proof {
            lemma_list_for_at(self.inverted_index@, at as int);
        }
        let postings: &Vec<(u32, u32)> = &self.inverted_index[at].1;
        let n: usize = postings.len();
        let first: u32 = self.next_doc_id - (self.docs.len() as u32);
        let mut hits: Vec<Hit> = Vec::new();
        let mut k: usize = 0;
        while k < n
            invariant
                k <= n,
                n == postings@.len(),
                self.wf(),
                first == self.first_id(),
                at < self.inverted_index@.len(),
                *postings == self.inverted_index@[at as int].1,
                hits@.len() == k,
                forall|i: int|
                    0 <= i < k ==> (#[trigger] hits@[i]) == (Hit {
                        doc_id: postings@[i].0,
                        tf: postings@[i].1,
                        doc_len: self.docs@[postings@[i].0 - first].length,
                    }),
            decreases n - k,
        {
            let (doc_id, tf) = postings[k];
            assert(first <= self.inverted_index@[at as int].1@[k as int].0 < self.next_doc_id);
            let doc: &Document = &self.docs[(doc_id - first) as usize];
            hits.push(Hit { doc_id, tf, doc_len: doc.length });
            k = k + 1;
        }
        let df: u32 = if n > 0xFFFF_FFFF {
            0xFFFF_FFFF
        } else {
            n as u32
        };
        assert(hits@ =~= self.hits_for(term@));
        Some(TermPlan { total_df: df, hits })
    }

    /// What scoring needs for a query: a plan for each of its terms that
    /// the index lists, in the order of the terms.
    pub fn plan(&self, query: &str) -> (plans: Vec<TermPlan>)
        requires
            self.wf(),
        ensures
            plans_view(plans@) == self.term_plans(
                analyze_spec(query@),
                analyze_spec(query@).len() as int,
            ),
    {
        let tokens = analyze(query);
        let ghost views = tokens.deep_view();
        let n: usize = tokens.len();
        let mut plans: Vec<TermPlan> = Vec::new();
        let mut i: usize = 0;
        assert(plans_view(plans@) =~= self.term_plans(views, 0));
        while i < n
            invariant
                i <= n,
                n == tokens@.len(),
                self.wf(),
                views == tokens.deep_view(),
                plans_view(plans@) == self.term_plans(views, i as int),
            decreases n - i,
        {
            assert(views[i as int] == tokens@[i as int]@);
            let ghost before = plans_view(plans@);
            match self.plan_term(tokens[i].as_str()) {
                Some(p) => {
                    let ghost pv = (p.total_df, p.hits@);
                    plans.push(p);
                    assert(plans_view(plans@) =~= before.push(pv));
                },
                None => {},
            }
            i = i + 1;
        }
        plans
    }
}

} // verus!
