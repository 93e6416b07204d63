//! What the real-time layer decides: replaying the log into the in-memory
//! index, merging results from disk and from memory, and turning the
//! in-memory index into the batch of a new segment.
use vstd::prelude::*;
use crate::analysis::{analyze, analyze_spec};
use crate::index::ram::{as_refs, list_with, Document, RamIndex};
use crate::index::segment::{BatchData, ChunkTerms, ProcessedDoc};
use crate::pipeline::{clamp_len, count_terms, counts, freqs_view};
use crate::search::ranking::{rank_results, ranked};
use crate::search::searcher::results_view;

verus! {

/// The book id under which results from memory appear.
pub open spec fn ram_book_spec() -> Seq<char> {
    seq!['R', 'A', 'M', '_', 'B', 'O', 'O', 'K']
}

/// The book id under which results from memory appear.
pub fn ram_book() -> (name: String)
    ensures
        name@ == ram_book_spec(),
{
    let mut chars: Vec<char> = Vec::new();
    chars.push('R');
    chars.push('A');
    chars.push('M');
    chars.push('_');
    chars.push('B');
    chars.push('O');
    chars.push('O');
    chars.push('K');
    assert(chars@ =~= ram_book_spec());
    crate::document::string_from_chars(chars.as_slice())
}

/// The postings of a term after the first `i` records were put into an
/// index that held `before` for the term, the first record getting the id
/// `first_id`.
pub open spec fn replayed(
    before: Seq<(u32, u32)>,
    records: Seq<Document>,
    first_id: u32,
    i: int,
    term: Seq<char>,
) -> Seq<(u32, u32)>
    decreases i,
{
    if i <= 0 {
        before
    } else {
        let cs = content_counts(records[i - 1].content@);
        list_with(
            replayed(before, records, first_id, i - 1, term),
            cs,
            cs.len() as int,
            (first_id + i - 1) as u32,
            term,
        )
    }
}

/// Puts the recorded documents into the index again, in the order of the
/// log, each getting the next id. Stops where the ids run out. Returns how
/// many were put in.
pub fn replay(ram: &mut RamIndex, records: Vec<Document>) -> (count: usize)
    requires
        old(ram).wf(),
    ensures
        final(ram).wf(),
        count == if records@.len() <= u32::MAX - old(ram).next_doc_id {
            records@.len() as int
        } else {
            u32::MAX - old(ram).next_doc_id
        },
        final(ram).next_doc_id == old(ram).next_doc_id + count,
        final(ram).docs@.len() == old(ram).docs@.len() + count,
        forall|i: int|
            0 <= i < old(ram).docs@.len() ==> final(ram).docs@[i] == old(ram).docs@[i],
        forall|i: int|
            0 <= i < count ==> (#[trigger] final(ram).docs@[old(ram).docs@.len() + i]).content
                == records@[i].content && final(ram).docs@[old(ram).docs@.len() + i].metadata
                == records@[i].metadata && final(ram).docs@[old(ram).docs@.len() + i].length
                == clamp_len(analyze_spec(records@[i].content@).len() as int),
        forall|t: Seq<char>| #[trigger]
            final(ram).postings_for(t) == replayed(
                old(ram).postings_for(t),
                records@,
                old(ram).next_doc_id,
                count as int,
                t,
            ),
{
    let mut records = records;
    let ghost all = records@;
    let ghost start_docs = ram.docs@;
    let ghost start_id = ram.next_doc_id;
    let ghost start_index = ram.inverted_index@;
    let n: usize = records.len();
    let mut i: usize = 0;
    while i < n && ram.next_doc_id < u32::MAX
        invariant
            i <= n,
            n == records@.len(),
            all.len() == n,
            forall|k: int| i <= k < n ==> records@[k] == all[k],
            ram.wf(),
            ram.next_doc_id == start_id + i,
            ram.docs@.len() == start_docs.len() + i,
            forall|k: int| 0 <= k < start_docs.len() ==> ram.docs@[k] == start_docs[k],
            forall|k: int|
                0 <= k < i ==> (#[trigger] ram.docs@[start_docs.len() + k]).content
                    == all[k].content && ram.docs@[start_docs.len() + k].metadata
                    == all[k].metadata && ram.docs@[start_docs.len() + k].length == clamp_len(
                    analyze_spec(all[k].content@).len() as int,
                ),
            forall|t: Seq<char>| #[trigger]
                ram.postings_for(t) == replayed(
                    crate::index::ram::list_for(start_index, t),
                    all,
                    start_id,
                    i as int,
                    t,
                ),
        decreases n - i,
    {
        let mut record = Document {
            id: 0,
            content: String::new(),
            metadata: String::new(),
            length: 0,
        };
        std::mem::swap(&mut record, &mut records[i]);
        let ghost before = ram.docs@;
        assert(record == all[i as int]);
        ram.insert(record.content, record.metadata);
        proof {
            assert(ram.docs@.drop_last() == before);
            assert forall|k: int| 0 <= k < before.len() implies ram.docs@[k] == before[k] by {
                assert(ram.docs@.drop_last()[k] == ram.docs@[k]);
            }
            assert(ram.docs@[start_docs.len() + i] == ram.docs@.last());
            assert forall|k: int| 0 <= k < i + 1 implies (#[trigger] ram.docs@[start_docs.len()
                + k]).content == all[k].content && ram.docs@[start_docs.len() + k].metadata
                == all[k].metadata && ram.docs@[start_docs.len() + k].length == clamp_len(
                analyze_spec(all[k].content@).len() as int,
            ) by {
                if k < i {
                    assert(ram.docs@[start_docs.len() + k] == before[start_docs.len() + k]);
                }
            }
        }
        i = i + 1;
    }
    i
}

/// The results from disk and, after them, those from memory under the
/// book id for memory.
pub open spec fn all_results(disk: Seq<(Seq<char>, u32, u32)>, ram: Seq<(u32, u32)>) -> Seq<
    (Seq<char>, u32, u32),
> {
    disk + Seq::new(ram.len(), |i: int| (ram_book_spec(), ram[i].1, ram[i].0))
}

/// The places of the results in order: best rank first, among equal ranks
/// the earlier result first.
pub open spec fn merge_order(all: Seq<(Seq<char>, u32, u32)>) -> Seq<(u32, u32)> {
    ranked(Seq::new(all.len(), |i: int| (i as u32, all[i].1)))
}

/// The best `top_k` of the results from disk and from memory, best rank
/// first.
pub open spec fn merged(
    disk: Seq<(Seq<char>, u32, u32)>,
    ram: Seq<(u32, u32)>,
    top_k: int,
) -> Seq<(Seq<char>, u32, u32)> {
    let all = all_results(disk, ram);
    let order = merge_order(all);
    Seq::new(
        if top_k < all.len() {
            if top_k < 0 {
                0
            } else {
                top_k as nat
            }
        } else {
            all.len()
        },
        |j: int| all[order[j].0 as int],
    )
}

/// Merges the results from disk, which carry book id, rank and document
/// id, with those from memory, which carry document id and rank, and keeps
/// the best `top_k`.
pub fn merge_results(disk: Vec<(String, u32, u32)>, ram: Vec<(u32, u32)>, top_k: usize) -> (out:
    Vec<(String, u32, u32)>)
    requires
        disk@.len() + ram@.len() <= u32::MAX,
    ensures
        results_view(out@) == merged(results_view(disk@), ram@, top_k as int),
{
    let ghost all = all_results(results_view(disk@), ram@);
    let mut combined: Vec<(String, u32, u32)> = disk;
    let ghost disk_view = results_view(combined@);
    let m: usize = ram.len();
    let mut i: usize = 0;
    assert(results_view(combined@) =~= all.take(disk_view.len() as int));
    while i < m
        invariant
            i <= m,
            m == ram@.len(),
            disk_view.len() + m <= u32::MAX,
            all == all_results(disk_view, ram@),
            results_view(combined@) == all.take(disk_view.len() + i),
        decreases m - i,
    {
        let (doc_id, rank) = ram[i];
        let ghost before = results_view(combined@);
        combined.push((ram_book(), rank, doc_id));
        assert(all[disk_view.len() + i] == (ram_book_spec(), rank, doc_id));
        assert(results_view(combined@) =~= before.push((ram_book_spec(), rank, doc_id)));
        assert(results_view(combined@) =~= all.take(disk_view.len() + i + 1));
        i = i + 1;
    }
    assert(all.take(all.len() as int) =~= all);
    let n: usize = combined.len();
    let mut keys: Vec<(u32, u32)> = Vec::new();
    let mut j: usize = 0;
    let ghost pairs = Seq::new(all.len(), |i: int| (i as u32, all[i].1));
    while j < n
        invariant
            j <= n,
            n == combined@.len(),
            n <= u32::MAX,
            results_view(combined@) == all,
            pairs == Seq::new(all.len(), |i: int| (i as u32, all[i].1)),
            keys@ == pairs.take(j as int),
        decreases n - j,
    {
        keys.push((j as u32, combined[j].1));
        assert(all[j as int].1 == combined@[j as int].1);
        assert(keys@ =~= pairs.take(j + 1));
        j = j + 1;
    }
    assert(pairs.take(n as int) =~= pairs);
    let order = rank_results(keys);
    proof {
        crate::search::ranking::lemma_ranked(pairs);
        lemma_order_in_range(pairs);
    }
    let limit: usize = if top_k < n {
        top_k
    } else {
        n
    };
    let mut out: Vec<(String, u32, u32)> = Vec::new();
    let mut k: usize = 0;
    let ghost want = merged(disk_view, ram@, top_k as int);
    while k < limit
        invariant
            k <= limit <= n,
            n == combined@.len(),
            order@.len() == n,
            order@ == merge_order(all),
            results_view(combined@) == all,
            forall|x: int| 0 <= x < n ==> (#[trigger] order@[x]).0 < n,
            want == merged(disk_view, ram@, top_k as int),
            want.len() == limit,
            all == all_results(disk_view, ram@),
            results_view(out@) == want.take(k as int),
        decreases limit - k,
    {
        let at: usize = order[k].0 as usize;
        let item: &(String, u32, u32) = &combined[at];
        let ghost before = results_view(out@);
        out.push((item.0.clone(), item.1, item.2));
        assert(results_view(out@) =~= before.push(all[at as int]));
        assert(results_view(out@) =~= want.take(k + 1));
        k = k + 1;
    }
    assert(want.take(limit as int) =~= want);
    out
}

/// Every place in the order of the results is the place of a result.
proof fn lemma_order_in_range(pairs: Seq<(u32, u32)>)
    requires
        forall|i: int| 0 <= i < pairs.len() ==> (#[trigger] pairs[i]).0 == i,
        pairs.len() <= u32::MAX,
    ensures
        forall|x: int| 0 <= x < pairs.len() ==> (#[trigger] ranked(pairs)[x]).0 < pairs.len(),
{
    crate::search::ranking::lemma_ranked(pairs);
    let r = ranked(pairs);
    pairs.to_multiset_ensures();
    r.to_multiset_ensures();
    assert forall|x: int| 0 <= x < pairs.len() implies (#[trigger] r[x]).0 < pairs.len() by {
        assert(r.contains(r[x]));
        assert(r.to_multiset().count(r[x]) > 0);
        assert(pairs.to_multiset().count(r[x]) > 0);
        assert(pairs.contains(r[x]));
        let i = choose|i: int| 0 <= i < pairs.len() && pairs[i] == r[x];
        assert(pairs[i].0 == i);
    }
}

/// What analysis makes of the content of a document: the counts of its
/// terms.
pub open spec fn content_counts(content: Seq<char>) -> Seq<(Seq<char>, u32)> {
    counts(analyze_spec(content), Seq::<String>::empty(), analyze_spec(content).len() as int)
}

/// The documents held in memory as the batch of a new segment: one book
/// under the book id for memory, with one chunk for each document, in the
/// order of their ids, the first document's id being the batch's first
/// document id. Nothing where no documents are held.
pub fn flush_batch(ram: &RamIndex, segment_id: usize) -> (r: Option<BatchData>)
    requires
        ram.wf(),
    ensures
        r is Some <==> ram.docs@.len() > 0,
        r is Some ==> ({
            let batch = r->Some_0;
            &&& batch.wf()
            &&& batch.segment_id == segment_id
            &&& batch.base_doc_id == ram.first_id()
            &&& batch.docs@.len() == 1
            &&& batch.docs@[0].book_id@ == ram_book_spec()
            &&& batch.docs@[0].chunks@.len() == ram.docs@.len()
            &&& forall|i: int|
                0 <= i < ram.docs@.len() ==> (#[trigger] batch.docs@[0].chunks@[i]).length
                    == ram.docs@[i].length && freqs_view(batch.docs@[0].chunks@[i].freqs@)
                    == content_counts(ram.docs@[i].content@)
        }),
{
    let n: usize = ram.docs.len();
    if n == 0 {
        return None;
    }
    let mut chunks: Vec<ChunkTerms> = Vec::new();
    let mut i: usize = 0;
    while i < n
        invariant
            i <= n,
            n == ram.docs@.len(),
            chunks@.len() == i,
            forall|k: int| 0 <= k < i ==> (#[trigger] chunks@[k]).wf(),
            forall|k: int|
                0 <= k < i ==> (#[trigger] chunks@[k]).length == ram.docs@[k].length
                    && freqs_view(chunks@[k].freqs@) == content_counts(ram.docs@[k].content@),
        decreases n - i,
    {
        let doc: &Document = &ram.docs[i];
        let tokens = analyze(doc.content.as_str());
        let refs = as_refs(&tokens);
        let stopwords: Vec<String> = Vec::new();
        assert(stopwords@ =~= Seq::<String>::empty());
        let freqs = count_terms(&refs, &stopwords);
        let chunk = ChunkTerms { length: doc.length, freqs };
        assert(chunk.wf()) by {
            let v = freqs_view(chunk.freqs@);
            assert forall|a: int, b: int| 0 <= a < b < chunk.freqs@.len() implies chunk.freqs@[a].0@
                != chunk.freqs@[b].0@ by {
                assert(v[a].0 != v[b].0);
            }
        }
        chunks.push(chunk);
        i = i + 1;
    }
    let first: u32 = ram.next_doc_id - (n as u32);
    let mut docs: Vec<ProcessedDoc> = Vec::new();
    docs.push(ProcessedDoc { book_id: ram_book(), chunks });
    Some(BatchData { segment_id, docs, base_doc_id: first })
}

} // verus!
