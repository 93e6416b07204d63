//! Query planning over the segments of an index: which terms a query token
//! stands for, how many chunks hold them, and the postings to score.
use vstd::prelude::*;
use vstd::utf8::encode_utf8;
use crate::analysis::{analyze, analyze_spec};
use crate::document::str_equal;
use crate::index::dictionary::{fst_entries, fuzzy_keys};
use crate::index::reader::{fuzzy_terms, SegmentReader};
use crate::pipeline::{is_stop, is_stopword};

verus! {

/// What scoring needs of one posting: the chunk, how often the term occurs
/// in it, and how long the chunk is.
#[derive(Clone, Copy, Debug, PartialEq, Eq)]
pub struct Hit {
    pub doc_id: u32,
    pub tf: u32,
    pub doc_len: u32,
}

/// The terms that a query token stands for, and the number of chunks that
/// hold any of them.
pub struct Resolved {
    pub terms: Vec<String>,
    pub total_df: u32,
}

/// What scoring needs of one query token: the number of chunks that hold
/// its terms, and the postings of those terms.
pub struct TermPlan {
    pub total_df: u32,
    pub hits: Vec<Hit>,
}

/// The sum of two counts, the largest 32-bit value standing for all sums
/// that are greater.
pub open spec fn sat_add(a: u32, b: u32) -> u32 {
    if a + b > u32::MAX {
        u32::MAX
    } else {
        (a + b) as u32
    }
}

/// The number of chunks of a segment that hold the term; 0 where the
/// segment does not know the term.
pub open spec fn df_in(reader: SegmentReader, term: Seq<char>) -> u32 {
    match reader.doc_freq(term) {
        Some(df) => df,
        None => 0,
    }
}

/// The number of chunks that hold the term, over the first `i` segments.
pub open spec fn df_sum(readers: Seq<SegmentReader>, term: Seq<char>, i: int) -> u32
    decreases i,
{
    if i <= 0 {
        0
    } else {
        sat_add(df_sum(readers, term, i - 1), df_in(readers[i - 1], term))
    }
}

/// One of the first `i` segments knows the term.
pub open spec fn known_in(readers: Seq<SegmentReader>, term: Seq<char>, i: int) -> bool {
    exists|k: int| 0 <= k < i && k < readers.len() && (#[trigger] readers[k]).doc_freq(term) is Some
}

/// How many edits a fuzzy search allows for a token: 2 for tokens of more
/// than 4 bytes, else 1.
pub open spec fn fuzzy_distance(token: Seq<char>) -> u32 {
    if encode_utf8(token).len() > 4 {
        2
    } else {
        1
    }
}

/// The terms of a segment near the token.
pub open spec fn near_terms(reader: SegmentReader, token: Seq<char>) -> Seq<Seq<char>> {
    fuzzy_terms(fuzzy_keys(fst_entries(reader.terms_fst), token, fuzzy_distance(token)))
}

/// `list` with the first `j` of `more` added at the end, each unless it is
/// in the list already.
pub open spec fn with_new(list: Seq<Seq<char>>, more: Seq<Seq<char>>, j: int) -> Seq<Seq<char>>
    decreases j,
{
    if j <= 0 {
        list
    } else {
        let earlier = with_new(list, more, j - 1);
        if earlier.contains(more[j - 1]) {
            earlier
        } else {
            earlier.push(more[j - 1])
        }
    }
}

/// The terms near the token in the first `i` segments, each once, in the
/// order in which the segments give them.
pub open spec fn candidates(readers: Seq<SegmentReader>, token: Seq<char>, i: int) -> Seq<
    Seq<char>,
>
    decreases i,
{
    if i <= 0 {
        Seq::empty()
    } else {
        let more = near_terms(readers[i - 1], token);
        with_new(candidates(readers, token, i - 1), more, more.len() as int)
    }
}

/// The number of chunks that hold any of the first `j` terms, each term
/// counted over all segments.
pub open spec fn terms_df(readers: Seq<SegmentReader>, terms: Seq<Seq<char>>, j: int) -> u32
    decreases j,
{
    if j <= 0 {
        0
    } else {
        sat_add(
            terms_df(readers, terms, j - 1),
            df_sum(readers, terms[j - 1], readers.len() as int),
        )
    }
}

/// The terms that a token stands for: itself where some segment knows it,
/// else the terms near it.
pub open spec fn resolved_terms(readers: Seq<SegmentReader>, token: Seq<char>) -> Seq<Seq<char>> {
    let n = readers.len() as int;
    if known_in(readers, token, n) || candidates(readers, token, n).len() == 0 {
        seq![token]
    } else {
        candidates(readers, token, n)
    }
}

/// The number of chunks that hold the terms that a token stands for.
pub open spec fn resolved_df(readers: Seq<SegmentReader>, token: Seq<char>) -> u32 {
    let n = readers.len() as int;
    if known_in(readers, token, n) {
        df_sum(readers, token, n)
    } else {
        let c = candidates(readers, token, n);
        terms_df(readers, c, c.len() as int)
    }
}

/// The postings of a term in a segment, each with the length of its chunk;
/// a chunk whose length the segment does not know counts as one token long.
pub open spec fn segment_hits(reader: SegmentReader, term: Seq<char>) -> Seq<Hit> {
    match reader.term_postings(term) {
        Some(p) => Seq::new(
            p.len(),
            |i: int|
                (Hit {
                    doc_id: p[i].0,
                    tf: p[i].1,
                    doc_len: match reader.doc_length(p[i].0) {
                        Some(len) => len,
                        None => 1,
                    },
                }),
        ),
        None => Seq::empty(),
    }
}

/// The postings of a term in the first `i` segments.
pub open spec fn term_hits(readers: Seq<SegmentReader>, term: Seq<char>, i: int) -> Seq<Hit>
    decreases i,
{
    if i <= 0 {
        Seq::empty()
    } else {
        term_hits(readers, term, i - 1) + segment_hits(readers[i - 1], term)
    }
}

/// The postings of the first `j` terms, each over all segments.
pub open spec fn terms_hits(readers: Seq<SegmentReader>, terms: Seq<Seq<char>>, j: int) -> Seq<
    Hit,
>
    decreases j,
{
    if j <= 0 {
        Seq::empty()
    } else {
        terms_hits(readers, terms, j - 1) + term_hits(
            readers,
            terms[j - 1],
            readers.len() as int,
        )
    }
}

/// The tokens of a query: its terms that are no stopwords.
pub open spec fn kept_tokens(terms: Seq<Seq<char>>, stopwords: Seq<String>, i: int) -> Seq<
    Seq<char>,
>
    decreases i,
{
    if i <= 0 {
        Seq::empty()
    } else if is_stop(stopwords, terms[i - 1]) {
        kept_tokens(terms, stopwords, i - 1)
    } else {
        kept_tokens(terms, stopwords, i - 1).push(terms[i - 1])
    }
}

/// What scoring needs for a token, as plain values: the number of chunks
/// and the postings; nothing where no chunk holds a term of the token.
pub open spec fn token_plan(readers: Seq<SegmentReader>, token: Seq<char>) -> Option<
    (u32, Seq<Hit>),
> {
    if resolved_df(readers, token) == 0 {
        None
    } else {
        let terms = resolved_terms(readers, token);
        Some((resolved_df(readers, token), terms_hits(readers, terms, terms.len() as int)))
    }
}

/// The plans of the first `i` tokens, those without a plan left out.
pub open spec fn token_plans(readers: Seq<SegmentReader>, tokens: Seq<Seq<char>>, i: int) -> Seq<
    (u32, Seq<Hit>),
>
    decreases i,
{
    if i <= 0 {
        Seq::empty()
    } else {
        match token_plan(readers, tokens[i - 1]) {
            Some(p) => token_plans(readers, tokens, i - 1).push(p),
            None => token_plans(readers, tokens, i - 1),
        }
    }
}

/// The plans as plain values.
pub open spec fn plans_view(plans: Seq<TermPlan>) -> Seq<(u32, Seq<Hit>)> {
    Seq::new(plans.len(), |i: int| (plans[i].total_df, plans[i].hits@))
}

/// The book of a chunk: what the first segment that knows the chunk says.
pub open spec fn book_of(readers: Seq<SegmentReader>, doc_id: u32, i: int) -> Option<Seq<char>>
    decreases readers.len() - i,
{
    if i < 0 || i >= readers.len() {
        None
    } else {
        match readers[i].book_id(doc_id) {
            Some(b) => Some(b),
            None => book_of(readers, doc_id, i + 1),
        }
    }
}

/// The results with the books of their chunks; results whose chunk no
/// segment knows are left out.
pub open spec fn with_books(readers: Seq<SegmentReader>, results: Seq<(u32, u32)>, i: int) -> Seq<
    (Seq<char>, u32, u32),
>
    decreases i,
{
    if i <= 0 {
        Seq::empty()
    } else {
        match book_of(readers, results[i - 1].0, 0) {
            Some(b) => with_books(readers, results, i - 1).push(
                (b, results[i - 1].1, results[i - 1].0),
            ),
            None => with_books(readers, results, i - 1),
        }
    }
}

/// The results as plain values.
pub open spec fn results_view(results: Seq<(String, u32, u32)>) -> Seq<(Seq<char>, u32, u32)> {
    Seq::new(results.len(), |i: int| (results[i].0@, results[i].1, results[i].2))
}

/// The segments of an index with the number of its chunks and the
/// stopwords of its queries.
pub struct FileSearcher {
    pub segments: Vec<SegmentReader>,
    pub total_docs: u32,
    pub stopwords: Vec<String>,
}

impl FileSearcher {
    /// The dictionary of every segment is sound.
    pub open spec fn wf(&self) -> bool {
        forall|i: int|
            0 <= i < self.segments@.len() ==> (#[trigger] self.segments@[i]).dictionary_sound()
    }

    /// A searcher over the segments, without stopwords.
    pub fn new(segments: Vec<SegmentReader>, total_docs: u32) -> (s: FileSearcher)
        ensures
            s.segments == segments,
            s.total_docs == total_docs,
            s.stopwords@.len() == 0,
    {
        FileSearcher { segments, total_docs, stopwords: Vec::new() }
    }

    /// Sets the words that queries leave out.
    pub fn set_stopwords(&mut self, words: Vec<String>)
        ensures
            final(self).stopwords == words,
            final(self).segments == old(self).segments,
            final(self).total_docs == old(self).total_docs,
    {
        self.stopwords = words;
    }

    /// The number of chunks of the index.
    pub fn num_docs(&self) -> (n: u32)
        ensures
            n == self.total_docs,
    {
        self.total_docs
    }

    /// The id of the book of a chunk, from the first segment that knows the
    /// chunk.
    pub fn get_book_id(&self, chunk_id: u32) -> (r: Option<String>)
        ensures
            r is Some <==> book_of(self.segments@, chunk_id, 0) is Some,
            r is Some ==> Some(r->Some_0@) == book_of(self.segments@, chunk_id, 0),
    {
        let n: usize = self.segments.len();
        let mut i: usize = 0;
        while i < n
            invariant
                i <= n,
                n == self.segments@.len(),
                book_of(self.segments@, chunk_id, 0) == book_of(self.segments@, chunk_id, i as int),
            decreases n - i,
        {
            match self.segments[i].get_book_id(chunk_id) {
                Some(b) => { return Some(b); },
                None => {},
            }
            i = i + 1;
        }
        None
    }

    /// The tokens of a query: its terms that are no stopwords.
    pub fn query_tokens(&self, query: &str) -> (tokens: Vec<String>)
        ensures
            tokens.deep_view() == kept_tokens(
                analyze_spec(query@),
                self.stopwords@,
                analyze_spec(query@).len() as int,
            ),
    {
        let mut terms = analyze(query);
        let ghost all = terms.deep_view();
        let n: usize = terms.len();
        let mut tokens: Vec<String> = Vec::new();
        let mut i: usize = 0;
        assert(tokens.deep_view() =~= kept_tokens(all, self.stopwords@, 0));
        while i < n
            invariant
                i <= n,
                n == terms@.len(),
                all.len() == n,
                forall|k: int| i <= k < n ==> terms@[k]@ == all[k],
                tokens.deep_view() == kept_tokens(all, self.stopwords@, i as int),
            decreases n - i,
        {
            let mut term: String = String::new();
            std::mem::swap(&mut term, &mut terms[i]);
            if !is_stopword(&self.stopwords, term.as_str()) {
                let ghost before = tokens.deep_view();
                tokens.push(term);
                assert(tokens.deep_view() =~= before.push(all[i as int]));
            }
            i = i + 1;
        }
        tokens
    }

    /// The number of chunks that hold the term, over all segments, and
    /// whether any segment knows the term.
    pub fn count_chunks(&self, term: &str) -> (r: (u32, bool))
        requires
            self.wf(),
        ensures
            r.0 == df_sum(self.segments@, term@, self.segments@.len() as int),
            r.1 == known_in(self.segments@, term@, self.segments@.len() as int),
    {
        let n: usize = self.segments.len();
        let mut total: u32 = 0;
        let mut found: bool = false;
        let mut i: usize = 0;
        while i < n
            invariant
                i <= n,
                n == self.segments@.len(),
                self.wf(),
                total == df_sum(self.segments@, term@, i as int),
                found == known_in(self.segments@, term@, i as int),
            decreases n - i,
        {
            match self.segments[i].get_doc_freq(term) {
                Some(df) => {
                    total = if df > u32::MAX - total {
                        u32::MAX
                    } else {
                        total + df
                    };
                    found = true;
                    assert(known_in(self.segments@, term@, i + 1)) by {
                        assert(self.segments@[i as int].doc_freq(term@) is Some);
                    }
                },
                None => {
                    assert(known_in(self.segments@, term@, i + 1) == known_in(
                        self.segments@,
                        term@,
                        i as int,
                    )) by {
                        if known_in(self.segments@, term@, i + 1) {
                            let k = choose|k: int|
                                0 <= k < i + 1 && k < self.segments@.len() && (
                                #[trigger] self.segments@[k]).doc_freq(term@) is Some;
                            assert(k < i);
                        }
                    }
                },
            }
            i = i + 1;
        }
        (total, found)
    }

    /// The terms near the token in any segment, each once.
    fn fuzzy_candidates(&self, token: &str) -> (list: Vec<String>)
        requires
            self.wf(),
        ensures
            list.deep_view() == candidates(self.segments@, token@, self.segments@.len() as int),
    {
        let dist: u32 = if token.as_bytes().len() > 4 {
            2
        } else {
            1
        };
        let n: usize = self.segments.len();
        let mut list: Vec<String> = Vec::new();
        let mut i: usize = 0;
        assert(list.deep_view() =~= candidates(self.segments@, token@, 0));
        while i < n
            invariant
                i <= n,
                n == self.segments@.len(),
                self.wf(),
                dist == fuzzy_distance(token@),
                list.deep_view() == candidates(self.segments@, token@, i as int),
            decreases n - i,
        {
            let mut more = self.segments[i].get_fuzzy_terms(token, dist);
            let ghost more_view = more.deep_view();
            let ghost start = list.deep_view();
            let m: usize = more.len();
            let mut j: usize = 0;
            while j < m
                invariant
                    j <= m,
                    m == more@.len(),
                    more_view.len() == m,
                    forall|k: int| j <= k < m ==> more@[k]@ == more_view[k],
                    list.deep_view() == with_new(start, more_view, j as int),
                decreases m - j,
            {
                let mut cand: String = String::new();
                std::mem::swap(&mut cand, &mut more[j]);
                let ghost before = list.deep_view();
                if !contains_term(&list, cand.as_str()) {
                    list.push(cand);
                    assert(list.deep_view() =~= before.push(more_view[j as int]));
                }
                j = j + 1;
            }
            i = i + 1;
        }
        list
    }

    /// The number of chunks that hold any of the terms.
    fn count_all(&self, terms: &Vec<String>) -> (total: u32)
        requires
            self.wf(),
        ensures
            total == terms_df(self.segments@, terms.deep_view(), terms@.len() as int),
    {
        let n: usize = terms.len();
        let mut total: u32 = 0;
        let mut j: usize = 0;
        while j < n
            invariant
                j <= n,
                n == terms@.len(),
                self.wf(),
                total == terms_df(self.segments@, terms.deep_view(), j as int),
            decreases n - j,
        {
            let (df, _) = self.count_chunks(terms[j].as_str());
            assert(terms.deep_view()[j as int] == terms@[j as int]@);
            total = if df > u32::MAX - total {
                u32::MAX
            } else {
                total + df
            };
            j = j + 1;
        }
        total
    }

    /// The terms that a query token stands for, with the number of chunks
    /// that hold them: the token itself where some segment knows it; else
    /// the terms near it, within 2 edits for tokens of more than 4 bytes
    /// and within 1 edit for shorter ones.
    pub fn resolve(&self, token: &str) -> (r: Resolved)
        requires
            self.wf(),
        ensures
            r.terms.deep_view() == resolved_terms(self.segments@, token@),
            r.total_df == resolved_df(self.segments@, token@),
            known_in(self.segments@, token@, self.segments@.len() as int) ==> r.terms.deep_view()
                == seq![token@],
    {
        let (df, found) = self.count_chunks(token);
        if found {
            let mut terms: Vec<String> = Vec::new();
            terms.push(token.to_owned());
            assert(terms.deep_view() =~= seq![token@]);
            return Resolved { terms, total_df: df };
        }
        let list = self.fuzzy_candidates(token);
        let total = self.count_all(&list);
        if list.len() == 0 {
            let mut terms: Vec<String> = Vec::new();
            terms.push(token.to_owned());
            assert(terms.deep_view() =~= seq![token@]);
            Resolved { terms, total_df: total }
        } else {
            Resolved { terms: list, total_df: total }
        }
    }

    /// Adds the postings of a term in every segment to `hits`.
    fn add_hits(&self, term: &str, hits: &mut Vec<Hit>)
        requires
            self.wf(),
        ensures
            final(hits)@ == old(hits)@ + term_hits(
                self.segments@,
                term@,
                self.segments@.len() as int,
            ),
    {
        let ghost start = hits@;
        let n: usize = self.segments.len();
        let mut i: usize = 0;
        assert(hits@ =~= start + term_hits(self.segments@, term@, 0));
        while i < n
            invariant
                i <= n,
                n == self.segments@.len(),
                self.wf(),
                hits@ == start + term_hits(self.segments@, term@, i as int),
            decreases n - i,
        {
            let segment: &SegmentReader = &self.segments[i];
            let ghost before = hits@;
            match segment.get_postings_iter(term) {
                Some(mut iter) => {
                    let ghost all = iter.remaining();
                    let ghost expected = segment_hits(*segment, term@);
                    loop
                        invariant
                            iter.wf(),
                            all == segment.term_postings(term@)->Some_0,
                            segment.term_postings(term@) is Some,
                            expected == segment_hits(*segment, term@),
                            iter.remaining().len() <= all.len(),
                            iter.remaining() == all.skip(all.len() - iter.remaining().len()),
                            hits@ == before + expected.take(all.len() - iter.remaining().len()),
                        ensures
                            hits@ == before + expected,
                        decreases iter.remaining().len(),
                    {
                        let ghost done = all.len() - iter.remaining().len();
                        let ghost rest = iter.remaining();
                        match iter.next() {
                            Some((doc_id, tf)) => {
                                let doc_len: u32 = match segment.get_doc_length(doc_id) {
                                    Some(len) => len,
                                    None => 1,
                                };
                                hits.push(Hit { doc_id, tf, doc_len });
                                proof {
                                    assert(rest[0] == all[done]);
                                    assert(rest.drop_first() =~= all.skip(done + 1));
                                    assert(expected.take(done + 1) =~= expected.take(done).push(
                                        expected[done],
                                    ));
                                }
                            },
                            None => {
                                assert(expected.take(all.len() as int) =~= expected);
                                break;
                            },
                        }
                    }
                },
                None => {
                    assert(hits@ =~= before + segment_hits(*segment, term@));
                },
            }
            assert(hits@ =~= start + term_hits(self.segments@, term@, i + 1));
            i = i + 1;
        }
    }

    /// What scoring needs for one query token; nothing where no chunk
    /// holds a term of the token.
    pub fn plan_token(&self, token: &str) -> (r: Option<TermPlan>)
        requires
            self.wf(),
        ensures
            r is Some <==> token_plan(self.segments@, token@) is Some,
            r is Some ==> Some((r->Some_0.total_df, r->Some_0.hits@)) == token_plan(
                self.segments@,
                token@,
            ),
    {
        let resolved = self.resolve(token);
        if resolved.total_df == 0 {
            return None;
        }
        let ghost terms = resolved.terms.deep_view();
        let mut hits: Vec<Hit> = Vec::new();
        let n: usize = resolved.terms.len();
        let mut j: usize = 0;
        assert(hits@ =~= terms_hits(self.segments@, terms, 0));
        while j < n
            invariant
                j <= n,
                n == resolved.terms@.len(),
                self.wf(),
                terms == resolved.terms.deep_view(),
                hits@ == terms_hits(self.segments@, terms, j as int),
            decreases n - j,
        {
            assert(terms[j as int] == resolved.terms@[j as int]@);
            self.add_hits(resolved.terms[j].as_str(), &mut hits);
            j = j + 1;
        }
        Some(TermPlan { total_df: resolved.total_df, hits })
    }

    /// What scoring needs for a query: for each of its tokens that some
    /// chunk holds, the number of chunks and the postings.
    pub fn plan(&self, query: &str) -> (plans: Vec<TermPlan>)
        requires
            self.wf(),
        ensures
            plans_view(plans@) == token_plans(
                self.segments@,
                kept_tokens(
                    analyze_spec(query@),
                    self.stopwords@,
                    analyze_spec(query@).len() as int,
                ),
                kept_tokens(analyze_spec(query@), self.stopwords@, analyze_spec(query@).len() as int).len() as int,
            ),
    {
        let tokens = self.query_tokens(query);
        let ghost views = tokens.deep_view();
        let n: usize = tokens.len();
        let mut plans: Vec<TermPlan> = Vec::new();
        let mut i: usize = 0;
        assert(plans_view(plans@) =~= token_plans(self.segments@, views, 0));
        while i < n
            invariant
                i <= n,
                n == tokens@.len(),
                self.wf(),
                views == tokens.deep_view(),
                plans_view(plans@) == token_plans(self.segments@, views, i as int),
            decreases n - i,
        {
            assert(views[i as int] == tokens@[i as int]@);
            let ghost before = plans_view(plans@);
            match self.plan_token(tokens[i].as_str()) {
                Some(p) => {
                    let ghost pv = (p.total_df, p.hits@);
                    plans.push(p);
                    assert(plans_view(plans@) =~= before.push(pv));
                },
                None => {},
            }
            i = i + 1;
        }
        plans
    }

    /// Puts the book of its chunk beside each result; results whose chunk
    /// no segment knows are left out.
    pub fn resolve_books(&self, results: &Vec<(u32, u32)>) -> (out: Vec<(String, u32, u32)>)
        ensures
            results_view(out@) == with_books(self.segments@, results@, results@.len() as int),
    {
        let n: usize = results.len();
        let mut out: Vec<(String, u32, u32)> = Vec::new();
        let mut i: usize = 0;
        assert(results_view(out@) =~= with_books(self.segments@, results@, 0));
        while i < n
            invariant
                i <= n,
                n == results@.len(),
                results_view(out@) == with_books(self.segments@, results@, i as int),
            decreases n - i,
        {
            let (doc_id, rank) = results[i];
            let ghost before = results_view(out@);
            match self.get_book_id(doc_id) {
                Some(book) => {
                    let ghost b = book@;
                    out.push((book, rank, doc_id));
                    assert(results_view(out@) =~= before.push((b, rank, doc_id)));
                },
                None => {},
            }
            i = i + 1;
        }
        out
    }
}

/// Tells whether the list holds the term.
pub fn contains_term(list: &Vec<String>, term: &str) -> (r: bool)
    ensures
        r == list.deep_view().contains(term@),
{
    let n: usize = list.len();
    let mut i: usize = 0;
    while i < n
        invariant
            i <= n,
            n == list@.len(),
            forall|k: int| 0 <= k < i ==> list.deep_view()[k] != term@,
        decreases n - i,
    {
        if str_equal(list[i].as_str(), term) {
            assert(list.deep_view()[i as int] == term@);
            return true;
        }
        i = i + 1;
    }
    false
}

} // verus!
