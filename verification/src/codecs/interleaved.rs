//! The interleaved all-varint stream: for each posting the gap to the
//! previous document id, then the term frequency.
use vstd::prelude::*;
use crate::codecs::sorting::{
    docs_ascending, docs_strictly_ascending, lemma_sort_postings, lemma_sort_postings_fixed,
    sort_posting_list, sort_postings,
};
use crate::codecs::varint::{
    decode_varint, encode_varint, lemma_varint_bytes_len, lemma_varint_len_bounds,
    lemma_varint_read_back, varint_bytes, varint_len, varint_value,
};

verus! {

/// The document id before position `i`, or 0 at the start.
pub open spec fn prev_doc(s: Seq<(u32, u32)>, i: int) -> u32 {
    if i <= 0 {
        0
    } else {
        s[i - 1].0
    }
}

/// The gap stored for position `i` of a list with ascending document ids.
pub open spec fn delta_at(s: Seq<(u32, u32)>, i: int) -> u32 {
    (s[i].0 - prev_doc(s, i)) as u32
}

/// The interleaved stream of a list with ascending document ids.
pub open spec fn interleaved_bytes(s: Seq<(u32, u32)>) -> Seq<u8>
    decreases s.len(),
{
    if s.len() == 0 {
        Seq::empty()
    } else {
        interleaved_bytes(s.drop_last()) + varint_bytes(delta_at(s, s.len() - 1)) + varint_bytes(
            s.last().1,
        )
    }
}

/// The postings read from `data` starting at `pos`, the previous document id
/// being `doc`. A gap with no frequency after it ends the list.
pub open spec fn decode_interleaved(data: Seq<u8>, pos: int, doc: u32) -> Seq<(u32, u32)>
    decreases data.len() - pos,
{
    if pos < 0 || pos >= data.len() {
        Seq::empty()
    } else {
        let p1 = pos + varint_len(data, pos);
        if p1 >= data.len() {
            Seq::empty()
        } else {
            let d = doc.wrapping_add(varint_value(data, pos));
            let p2 = p1 + varint_len(data, p1);
            proof {
                lemma_varint_len_bounds(data, pos);
                lemma_varint_len_bounds(data, p1);
            }
            seq![(d, varint_value(data, p1))] + decode_interleaved(data, p2, d)
        }
    }
}

/// The stream of a prefix is a prefix of the stream.
pub proof fn lemma_interleaved_prefix(s: Seq<(u32, u32)>, k: int)
    requires
        0 <= k <= s.len(),
    ensures
        interleaved_bytes(s.take(k)).len() <= interleaved_bytes(s).len(),
        interleaved_bytes(s).take(interleaved_bytes(s.take(k)).len() as int) == interleaved_bytes(
            s.take(k),
        ),
    decreases s.len() - k,
{
    if k == s.len() {
        assert(s.take(k) =~= s);
        assert(interleaved_bytes(s).take(interleaved_bytes(s).len() as int) =~= interleaved_bytes(
            s,
        ));
    } else {
        lemma_interleaved_prefix(s, k + 1);
        let t = s.take(k + 1);
        assert(t.drop_last() =~= s.take(k));
        let a = interleaved_bytes(s.take(k));
        assert(interleaved_bytes(t) == a + varint_bytes(delta_at(t, k)) + varint_bytes(t.last().1));
        assert(interleaved_bytes(s).take(a.len() as int) =~= interleaved_bytes(t).take(
            a.len() as int,
        ));
        assert(interleaved_bytes(t).take(a.len() as int) =~= a);
    }
}

/// From the end of the first `k` postings' bytes, the rest of the stream
/// reads as the rest of the list.
proof fn lemma_interleaved_suffix(s: Seq<(u32, u32)>, k: int)
    requires
        docs_ascending(s),
        0 <= k <= s.len(),
    ensures
        decode_interleaved(
            interleaved_bytes(s),
            interleaved_bytes(s.take(k)).len() as int,
            prev_doc(s, k),
        ) == s.skip(k),
    decreases s.len() - k,
{
    let data = interleaved_bytes(s);
    let pos = interleaved_bytes(s.take(k)).len() as int;
    lemma_interleaved_prefix(s, k);
    if k == s.len() {
        assert(s.take(k) =~= s);
        assert(s.skip(k) =~= Seq::<(u32, u32)>::empty());
    } else {
        let t = s.take(k + 1);
        assert(t.drop_last() =~= s.take(k));
        let delta = delta_at(s, k);
        assert(delta_at(t, k) == delta);
        let tf = s[k].1;
        let a = interleaved_bytes(s.take(k));
        let gap = varint_bytes(delta);
        let freq = varint_bytes(tf);
        assert(interleaved_bytes(t) == a + gap + freq);
        lemma_interleaved_prefix(s, k + 1);
        lemma_varint_bytes_len(delta);
        lemma_varint_bytes_len(tf);
        let whole = interleaved_bytes(t);
        assert(data.take(whole.len() as int) == whole);
        assert(data.subrange(pos, pos + gap.len()) =~= gap) by {
            assert forall|i: int| 0 <= i < gap.len() implies data[pos + i] == gap[i] by {
                assert(data[pos + i] == data.take(whole.len() as int)[pos + i]);
            }
        }
        let p1 = pos + gap.len();
        assert(data.subrange(p1, p1 + freq.len()) =~= freq) by {
            assert forall|i: int| 0 <= i < freq.len() implies data[p1 + i] == freq[i] by {
                assert(data[p1 + i] == data.take(whole.len() as int)[p1 + i]);
            }
        }
        lemma_varint_read_back(data, pos, delta);
        lemma_varint_read_back(data, p1, tf);
        assert(prev_doc(s, k) <= s[k].0) by {
            if k > 0 {
                assert(s[k - 1].0 <= s[k].0);
            }
        }
        assert(prev_doc(s, k).wrapping_add(delta) == s[k].0);
        assert(prev_doc(s, k + 1) == s[k].0);
        lemma_interleaved_suffix(s, k + 1);
        assert(s.skip(k) =~= seq![s[k]] + s.skip(k + 1));
    }
}

/// Decoding the stream of a list with ascending document ids gives the list
/// back.
pub proof fn lemma_interleaved_round_trip(s: Seq<(u32, u32)>)
    requires
        docs_ascending(s),
    ensures
        decode_interleaved(interleaved_bytes(s), 0, 0) == s,
{
    lemma_interleaved_suffix(s, 0);
    assert(s.take(0) =~= Seq::<(u32, u32)>::empty());
    assert(s.skip(0) =~= s);
}

/// Encodes the postings, in storage order, as one interleaved varint stream.
pub fn encode_postings_internal(postings: &[(u32, u32)]) -> (result: Vec<u8>)
    ensures
        result@ == interleaved_bytes(sort_postings(postings@)),
        decode_interleaved(result@, 0, 0) == sort_postings(postings@),
        docs_strictly_ascending(postings@) ==> decode_interleaved(result@, 0, 0) == postings@,
{
    proof {
        if docs_strictly_ascending(postings@) {
            lemma_sort_postings_fixed(postings@);
        }
    }
    let mut sorted: Vec<(u32, u32)> = vstd::slice::slice_to_vec(postings);
    sort_posting_list(&mut sorted);
    proof {
        lemma_sort_postings(postings@);
    }
    let mut result: Vec<u8> = Vec::new();
    let mut prev_doc_id: u32 = 0;
    let mut i: usize = 0;
    while i < sorted.len()
        invariant
            i <= sorted.len(),
            docs_ascending(sorted@),
            prev_doc_id == prev_doc(sorted@, i as int),
            result@ == interleaved_bytes(sorted@.take(i as int)),
        decreases sorted.len() - i,
    {
        let (doc_id, tf) = sorted[i];
        assert(prev_doc_id <= doc_id) by {
            if i > 0 {
                assert(sorted@[i - 1].0 <= sorted@[i as int].0);
            }
        }
        let delta: u32 = doc_id - prev_doc_id;
        prev_doc_id = doc_id;
        encode_varint(delta, &mut result);
        encode_varint(tf, &mut result);
        proof {
            let t = sorted@.take(i + 1);
            assert(t.drop_last() =~= sorted@.take(i as int));
            assert(delta_at(t, i as int) == delta);
        }
        i = i + 1;
    }
    proof {
        assert(sorted@.take(sorted@.len() as int) =~= sorted@);
        lemma_interleaved_round_trip(sorted@);
    }
    result
}

/// Decodes an interleaved varint stream.
pub fn decode_postings_internal(data: &[u8]) -> (result: Vec<(u32, u32)>)
    ensures
        result@ == decode_interleaved(data@, 0, 0),
{
    let mut result: Vec<(u32, u32)> = Vec::new();
    let mut pos: usize = 0;
    let mut doc_id: u32 = 0;
    while pos < data.len()
        invariant
            decode_interleaved(data@, 0, 0) == result@ + decode_interleaved(
                data@,
                pos as int,
                doc_id,
            ),
        ensures
            result@ == decode_interleaved(data@, 0, 0),
        decreases data@.len() - pos,
    {
        let ghost start = pos;
        let (delta, new_pos) = decode_varint(data, pos);
        pos = new_pos;
        if pos >= data.len() {
            assert(decode_interleaved(data@, start as int, doc_id) =~= Seq::<(u32, u32)>::empty());
            break;
        }
        let ghost mid = pos;
        let (tf, new_pos) = decode_varint(data, pos);
        pos = new_pos;
        let ghost before = doc_id;
        doc_id = doc_id.wrapping_add(delta);
        let ghost shown = result@;
        result.push((doc_id, tf));
        assert(decode_interleaved(data@, start as int, before) == seq![(doc_id, tf)]
            + decode_interleaved(data@, pos as int, doc_id));
        assert(result@ + decode_interleaved(data@, pos as int, doc_id) =~= shown
            + decode_interleaved(data@, start as int, before));
    }
    result
}

/// Encodes a posting list as one interleaved varint stream.
pub fn encode_postings(postings: Vec<(u32, u32)>) -> (result: Vec<u8>)
    ensures
        result@ == interleaved_bytes(sort_postings(postings@)),
        decode_interleaved(result@, 0, 0) == sort_postings(postings@),
{
    encode_postings_internal(postings.as_slice())
}

/// Decodes an interleaved varint stream.
pub fn decode_postings(data: &[u8]) -> (result: Vec<(u32, u32)>)
    ensures
        result@ == decode_interleaved(data@, 0, 0),
{
    decode_postings_internal(data)
}

/// Merges two encoded lists: both are decoded, the postings of `b` are put
/// after those of `a`, and the whole is encoded again.
pub fn merge_postings(a: &[u8], b: &[u8]) -> (result: Vec<u8>)
    ensures
        result@ == interleaved_bytes(
            sort_postings(decode_interleaved(a@, 0, 0) + decode_interleaved(b@, 0, 0)),
        ),
        decode_interleaved(result@, 0, 0) == sort_postings(
            decode_interleaved(a@, 0, 0) + decode_interleaved(b@, 0, 0),
        ),
{
    let mut postings_a = decode_postings_internal(a);
    let mut postings_b = decode_postings_internal(b);
    postings_a.append(&mut postings_b);
    encode_postings_internal(postings_a.as_slice())
}

} // verus!
