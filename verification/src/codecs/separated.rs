//! The block format: document-id gaps and term frequencies in two parallel
//! streams, each a run of bit-packed blocks of 128 values followed by a tail
//! of varints.
use vstd::prelude::*;
use vstd::slice::{slice_subrange, slice_to_vec};
use crate::codecs::bitpack::{
    block_num_bits, block_width, lemma_block_width, pack_block, packed_block, packing_inverts,
    unpack_block, unpacked_block,
};
use crate::codecs::interleaved::{delta_at, prev_doc};
use crate::codecs::sorting::{
    docs_ascending, docs_strictly_ascending, lemma_sort_postings, lemma_sort_postings_fixed,
    sort_posting_list, sort_postings,
};
use crate::codecs::varint::{
    decode_varint, encode_varint, lemma_varint_bytes_len, lemma_varint_read_back, varint_bytes,
    varint_len, varint_value,
};

verus! {

/// The gaps between successive document ids of `s`, the first counted from 0.
pub open spec fn gaps_of(s: Seq<(u32, u32)>) -> Seq<u32> {
    Seq::new(s.len(), |i: int| delta_at(s, i))
}

/// The term frequencies of `s`.
pub open spec fn freqs_of(s: Seq<(u32, u32)>) -> Seq<u32> {
    Seq::new(s.len(), |i: int| s[i].1)
}

/// The varints of `values`, one after the other.
pub open spec fn varints_bytes(values: Seq<u32>) -> Seq<u8>
    decreases values.len(),
{
    if values.len() == 0 {
        Seq::empty()
    } else {
        varints_bytes(values.drop_last()) + varint_bytes(values.last())
    }
}

/// One block on the wire: its width in one byte, then the packed values.
pub open spec fn block_bytes(block: Seq<u32>) -> Seq<u8> {
    let w = block_width(block) as u8;
    seq![w] + packed_block(block, w)
}

/// A stream of values: full blocks of 128 while they last, then varints.
pub open spec fn stream_bytes(values: Seq<u32>) -> Seq<u8>
    decreases values.len(),
{
    if values.len() >= 128 {
        block_bytes(values.take(128)) + stream_bytes(values.skip(128))
    } else {
        varints_bytes(values)
    }
}

/// The `q`-th run of 128 values.
pub open spec fn block_at(values: Seq<u32>, q: int) -> Seq<u32> {
    values.subrange(128 * q, 128 * q + 128)
}

/// Bit-packing inverts on every full block of `values`.
pub open spec fn blocks_invert(values: Seq<u32>) -> bool {
    forall|q: int|
        0 <= q && 128 * (q + 1) <= values.len() ==> packing_inverts(#[trigger] block_at(values, q))
}

/// A whole block stands at `pos`: a width byte of at most 32 and, after it,
/// 16 bytes per bit of width.
pub open spec fn block_present(data: Seq<u8>, pos: int) -> bool {
    &&& 0 <= pos < data.len()
    &&& data[pos] <= 32
    &&& pos + 1 + 16 * data[pos] <= data.len()
}

/// The position after the block at `pos`.
pub open spec fn block_end(data: Seq<u8>, pos: int) -> int {
    pos + 1 + 16 * data[pos]
}

/// The 128 values of the block at `pos`.
pub open spec fn block_values(data: Seq<u8>, pos: int) -> Seq<u32> {
    let raw = unpacked_block(data.subrange(pos + 1, block_end(data, pos)), data[pos]);
    Seq::new(128, |i: int| raw[i])
}

/// The position of the `k`-th varint of a run that starts at `pos`.
pub open spec fn run_pos(data: Seq<u8>, pos: int, k: nat) -> int
    decreases k,
{
    if k == 0 {
        pos
    } else {
        let p = run_pos(data, pos, (k - 1) as nat);
        p + varint_len(data, p)
    }
}

/// The values of a run of `count` varints that starts at `pos`.
pub open spec fn varint_run(data: Seq<u8>, pos: int, count: nat) -> Seq<u32> {
    Seq::new(count, |i: int| varint_value(data, run_pos(data, pos, i as nat)))
}

/// The document id reached from `doc` after the first `k` gaps.
pub open spec fn doc_after(gaps: Seq<u32>, doc: u32, k: nat) -> u32
    decreases k,
{
    if k == 0 {
        doc
    } else {
        doc_after(gaps, doc, (k - 1) as nat).wrapping_add(gaps[k - 1])
    }
}

/// The postings that gaps and frequencies denote, counted on from `doc`.
pub open spec fn postings_from(gaps: Seq<u32>, freqs: Seq<u32>, doc: u32) -> Seq<(u32, u32)> {
    Seq::new(
        if gaps.len() <= freqs.len() {
            gaps.len()
        } else {
            freqs.len()
        },
        |i: int| (doc_after(gaps, doc, (i + 1) as nat), freqs[i]),
    )
}

/// The postings read from the two streams at the given positions, `count`
/// of them being left and `doc` the last document id. A block that is absent
/// from either stream ends the list.
pub open spec fn decode_from(
    docs: Seq<u8>,
    dpos: int,
    freqs: Seq<u8>,
    fpos: int,
    count: nat,
    doc: u32,
) -> Seq<(u32, u32)>
    decreases count,
{
    if count >= 128 {
        if block_present(docs, dpos) && block_present(freqs, fpos) {
            let gaps = block_values(docs, dpos);
            postings_from(gaps, block_values(freqs, fpos), doc) + decode_from(
                docs,
                block_end(docs, dpos),
                freqs,
                block_end(freqs, fpos),
                (count - 128) as nat,
                doc_after(gaps, doc, 128),
            )
        } else {
            Seq::empty()
        }
    } else {
        postings_from(varint_run(docs, dpos, count), varint_run(freqs, fpos, count), doc)
    }
}

/// The postings that the two streams hold for a list of `count` postings.
pub open spec fn decode_separated(docs: Seq<u8>, freqs: Seq<u8>, count: nat) -> Seq<(u32, u32)> {
    decode_from(docs, 0, freqs, 0, count, 0)
}

/// The varints of a prefix are a prefix of the varints.
pub proof fn lemma_varints_prefix(values: Seq<u32>, k: int)
    requires
        0 <= k <= values.len(),
    ensures
        varints_bytes(values.take(k)).len() <= varints_bytes(values).len(),
        varints_bytes(values).take(varints_bytes(values.take(k)).len() as int) == varints_bytes(
            values.take(k),
        ),
    decreases values.len() - k,
{
    if k == values.len() {
        assert(values.take(k) =~= values);
        assert(varints_bytes(values).take(varints_bytes(values).len() as int) =~= varints_bytes(
            values,
        ));
    } else {
        lemma_varints_prefix(values, k + 1);
        let t = values.take(k + 1);
        assert(t.drop_last() =~= values.take(k));
        let a = varints_bytes(values.take(k));
        assert(varints_bytes(t) == a + varint_bytes(t.last()));
        assert(varints_bytes(values).take(a.len() as int) =~= varints_bytes(t).take(
            a.len() as int,
        ));
        assert(varints_bytes(t).take(a.len() as int) =~= a);
    }
}

/// A run of varints takes at most five bytes per value.
pub proof fn lemma_varints_len(values: Seq<u32>)
    ensures
        varints_bytes(values).len() <= 5 * values.len(),
    decreases values.len(),
{
    if values.len() > 0 {
        lemma_varints_len(values.drop_last());
        lemma_varint_bytes_len(values.last());
    }
}

/// Where the varints of `values` stand in `data` from `pos` on, the run read
/// at `pos` finds each value at its place.
pub proof fn lemma_varints_read_back(data: Seq<u8>, pos: int, values: Seq<u32>, i: int)
    requires
        0 <= pos,
        pos + varints_bytes(values).len() <= data.len(),
        data.subrange(pos, pos + varints_bytes(values).len()) == varints_bytes(values),
        0 <= i <= values.len(),
    ensures
        run_pos(data, pos, i as nat) == pos + varints_bytes(values.take(i)).len(),
        i < values.len() ==> varint_value(data, run_pos(data, pos, i as nat)) == values[i],
        i < values.len() ==> varint_len(data, run_pos(data, pos, i as nat)) == varint_bytes(
            values[i],
        ).len(),
    decreases i,
{
    let all = varints_bytes(values);
    if i > 0 {
        lemma_varints_read_back(data, pos, values, i - 1);
        let t = values.take(i);
        assert(t.drop_last() =~= values.take(i - 1));
        assert(t.last() == values[i - 1]);
    } else {
        assert(values.take(0) =~= Seq::<u32>::empty());
    }
    if i < values.len() {
        let here = pos + varints_bytes(values.take(i)).len();
        let t = values.take(i + 1);
        assert(t.drop_last() =~= values.take(i));
        let enc = varint_bytes(values[i]);
        assert(varints_bytes(t) == varints_bytes(values.take(i)) + enc);
        lemma_varints_prefix(values, i + 1);
        let whole = varints_bytes(t);
        assert(all.take(whole.len() as int) == whole);
        assert(data.subrange(here, here + enc.len()) =~= enc) by {
            assert forall|j: int| 0 <= j < enc.len() implies data[here + j] == enc[j] by {
                assert(data[here + j] == data.subrange(pos, pos + all.len())[here - pos + j]);
                assert(all[here - pos + j] == all.take(whole.len() as int)[here - pos + j]);
            }
        }
        lemma_varint_read_back(data, here, values[i]);
    }
}

/// Along a list with ascending document ids, adding up its gaps from
/// position `k` on walks through its document ids.
pub proof fn lemma_doc_after_gaps(s: Seq<(u32, u32)>, k: int, gaps: Seq<u32>, j: nat)
    requires
        docs_ascending(s),
        0 <= k,
        k + j <= s.len(),
        j <= gaps.len(),
        forall|i: int| 0 <= i < j ==> gaps[i] == delta_at(s, k + i),
    ensures
        doc_after(gaps, prev_doc(s, k), j) == prev_doc(s, k + j),
    decreases j,
{
    if j > 0 {
        lemma_doc_after_gaps(s, k, gaps, (j - 1) as nat);
        let at = k + j - 1;
        assert(gaps[j - 1] == delta_at(s, at));
        assert(prev_doc(s, at) <= s[at].0) by {
            if at > 0 {
                assert(s[at - 1].0 <= s[at].0);
            }
        }
    }
}

/// Where the streams of a list with ascending document ids stand, from a
/// block boundary `k` of the list on, they read as the rest of the list,
/// given that bit-packing inverts on the list's blocks.
pub proof fn lemma_streams_read_back(
    docs: Seq<u8>,
    dpos: int,
    freqs: Seq<u8>,
    fpos: int,
    s: Seq<(u32, u32)>,
    k: int,
)
    requires
        docs_ascending(s),
        0 <= k <= s.len(),
        k % 128 == 0,
        0 <= dpos <= docs.len(),
        0 <= fpos <= freqs.len(),
        docs.skip(dpos) == stream_bytes(gaps_of(s).skip(k)),
        freqs.skip(fpos) == stream_bytes(freqs_of(s).skip(k)),
        blocks_invert(gaps_of(s)),
        blocks_invert(freqs_of(s)),
    ensures
        decode_from(docs, dpos, freqs, fpos, (s.len() - k) as nat, prev_doc(s, k)) == s.skip(k),
    decreases s.len() - k,
{
    let count = (s.len() - k) as nat;
    let doc = prev_doc(s, k);
    let g = gaps_of(s).skip(k);
    let f = freqs_of(s).skip(k);
    if count >= 128 {
        let q = k / 128;
        let gb = g.take(128);
        let fb = f.take(128);
        assert(gb =~= block_at(gaps_of(s), q));
        assert(fb =~= block_at(freqs_of(s), q));
        assert(packing_inverts(block_at(gaps_of(s), q)));
        assert(packing_inverts(block_at(freqs_of(s), q)));
        lemma_block_width(gb);
        lemma_block_width(fb);
        let gw = block_width(gb) as u8;
        let fw = block_width(fb) as u8;
        let grest = stream_bytes(g.skip(128));
        let frest = stream_bytes(f.skip(128));
        assert(docs.skip(dpos) == seq![gw] + packed_block(gb, gw) + grest);
        assert(freqs.skip(fpos) == seq![fw] + packed_block(fb, fw) + frest);
        assert(docs[dpos] == docs.skip(dpos)[0]);
        assert(freqs[fpos] == freqs.skip(fpos)[0]);
        assert(docs.skip(dpos).len() == 1 + 16 * gw + grest.len());
        assert(freqs.skip(fpos).len() == 1 + 16 * fw + frest.len());
        assert(block_present(docs, dpos));
        assert(block_present(freqs, fpos));
        let dend = block_end(docs, dpos);
        let fend = block_end(freqs, fpos);
        assert(docs.subrange(dpos + 1, dend) =~= packed_block(gb, gw)) by {
            assert forall|i: int| 0 <= i < 16 * gw implies docs[dpos + 1 + i] == packed_block(
                gb,
                gw,
            )[i] by {
                assert(docs[dpos + 1 + i] == docs.skip(dpos)[1 + i]);
            }
        }
        assert(freqs.subrange(fpos + 1, fend) =~= packed_block(fb, fw)) by {
            assert forall|i: int| 0 <= i < 16 * fw implies freqs[fpos + 1 + i] == packed_block(
                fb,
                fw,
            )[i] by {
                assert(freqs[fpos + 1 + i] == freqs.skip(fpos)[1 + i]);
            }
        }
        assert(block_values(docs, dpos) =~= gb);
        assert(block_values(freqs, fpos) =~= fb);
        assert(docs.skip(dend) =~= grest) by {
            assert forall|i: int| 0 <= i < grest.len() implies docs[dend + i] == grest[i] by {
                assert(docs[dend + i] == docs.skip(dpos)[1 + 16 * gw + i]);
            }
        }
        assert(freqs.skip(fend) =~= frest) by {
            assert forall|i: int| 0 <= i < frest.len() implies freqs[fend + i] == frest[i] by {
                assert(freqs[fend + i] == freqs.skip(fpos)[1 + 16 * fw + i]);
            }
        }
        assert(g.skip(128) =~= gaps_of(s).skip(k + 128));
        assert(f.skip(128) =~= freqs_of(s).skip(k + 128));
        lemma_doc_after_gaps(s, k, gb, 128);
        lemma_streams_read_back(docs, dend, freqs, fend, s, k + 128);
        let head = postings_from(gb, fb, doc);
        assert(head =~= s.subrange(k, k + 128)) by {
            assert forall|i: int| 0 <= i < 128 implies head[i] == s[k + i] by {
                lemma_doc_after_gaps(s, k, gb, (i + 1) as nat);
            }
        }
        assert(s.skip(k) =~= s.subrange(k, k + 128) + s.skip(k + 128));
    } else {
        assert(docs.skip(dpos) == varints_bytes(g));
        assert(freqs.skip(fpos) == varints_bytes(f));
        assert(docs.subrange(dpos, dpos + varints_bytes(g).len()) =~= docs.skip(dpos));
        assert(freqs.subrange(fpos, fpos + varints_bytes(f).len()) =~= freqs.skip(fpos));
        let gr = varint_run(docs, dpos, count);
        let fr = varint_run(freqs, fpos, count);
        assert(gr =~= g) by {
            assert forall|i: int| 0 <= i < count implies gr[i] == g[i] by {
                lemma_varints_read_back(docs, dpos, g, i);
            }
        }
        assert(fr =~= f) by {
            assert forall|i: int| 0 <= i < count implies fr[i] == f[i] by {
                lemma_varints_read_back(freqs, fpos, f, i);
            }
        }
        let tail = postings_from(g, f, doc);
        assert(tail =~= s.skip(k)) by {
            assert forall|i: int| 0 <= i < count implies tail[i] == s[k + i] by {
                lemma_doc_after_gaps(s, k, g, (i + 1) as nat);
            }
        }
    }
}

/// Decoding the two streams of a list with ascending document ids gives the
/// list back, given that bit-packing inverts on the list's blocks.
pub proof fn lemma_separated_round_trip(s: Seq<(u32, u32)>)
    requires
        docs_ascending(s),
        blocks_invert(gaps_of(s)),
        blocks_invert(freqs_of(s)),
    ensures
        decode_separated(
            stream_bytes(gaps_of(s)),
            stream_bytes(freqs_of(s)),
            s.len(),
        ) == s,
{
    let docs = stream_bytes(gaps_of(s));
    let freqs = stream_bytes(freqs_of(s));
    assert(docs.skip(0) =~= docs);
    assert(freqs.skip(0) =~= freqs);
    assert(gaps_of(s).skip(0) =~= gaps_of(s));
    assert(freqs_of(s).skip(0) =~= freqs_of(s));
    assert(s.skip(0) =~= s);
    lemma_streams_read_back(docs, 0, freqs, 0, s, 0);
}

/// Tells whether a whole block stands at `pos`.
pub fn has_block(data: &[u8], pos: usize) -> (present: bool)
    ensures
        present == block_present(data@, pos as int),
{
    if pos >= data.len() {
        return false;
    }
    let bits: u8 = data[pos];
    if bits > 32 {
        return false;
    }
    let need: usize = 16 * (bits as usize);
    data.len() - pos - 1 >= need
}

/// Unpacks the block at `pos` into `out` and returns the position after it.
pub fn read_block(data: &[u8], pos: usize, out: &mut [u32; 128]) -> (end: usize)
    requires
        block_present(data@, pos as int),
    ensures
        final(out)@ == block_values(data@, pos as int),
        end == block_end(data@, pos as int),
{
    let bits: u8 = data[pos];
    let end: usize = pos + 1 + 16 * (bits as usize);
    let packed = slice_subrange(data, pos + 1, end);
    unpack_block(packed, bits, out);
    assert(out@ =~= block_values(data@, pos as int));
    end
}

/// Encodes the postings, in storage order, as a stream of document-id gaps
/// and a stream of term frequencies.
pub fn encode_postings_separated(postings: &[(u32, u32)]) -> (r: (Vec<u8>, Vec<u8>))
    ensures
        r.0@ == stream_bytes(gaps_of(sort_postings(postings@))),
        r.1@ == stream_bytes(freqs_of(sort_postings(postings@))),
        decode_separated(r.0@, r.1@, postings@.len()) == sort_postings(postings@),
        docs_strictly_ascending(postings@) ==> decode_separated(r.0@, r.1@, postings@.len())
            == postings@,
        r.0@.len() <= 5 * postings@.len(),
        r.1@.len() <= 5 * postings@.len(),
{
    let mut sorted: Vec<(u32, u32)> = slice_to_vec(postings);
    sort_posting_list(&mut sorted);
    proof {
        lemma_sort_postings(postings@);
        if docs_strictly_ascending(postings@) {
            lemma_sort_postings_fixed(postings@);
        }
    }
    let n: usize = sorted.len();
    let ghost g = gaps_of(sorted@);
    let ghost f = freqs_of(sorted@);
    let mut docs_buf: Vec<u8> = Vec::new();
    let mut freqs_buf: Vec<u8> = Vec::new();
    let mut chunk_docs: [u32; 128] = [0u32; 128];
    let mut chunk_freqs: [u32; 128] = [0u32; 128];
    let mut prev_doc_id: u32 = 0;
    let mut start: usize = 0;
    assert(g.skip(0) =~= g);
    assert(f.skip(0) =~= f);
    while n - start >= 128
        invariant
            start <= n,
            start % 128 == 0,
            n == sorted@.len(),
            docs_ascending(sorted@),
            g == gaps_of(sorted@),
            f == freqs_of(sorted@),
            prev_doc_id == prev_doc(sorted@, start as int),
            docs_buf@ + stream_bytes(g.skip(start as int)) == stream_bytes(g),
            freqs_buf@ + stream_bytes(f.skip(start as int)) == stream_bytes(f),
            forall|q: int|
                0 <= q && 128 * (q + 1) <= start ==> packing_inverts(#[trigger] block_at(g, q)),
            forall|q: int|
                0 <= q && 128 * (q + 1) <= start ==> packing_inverts(#[trigger] block_at(f, q)),
            docs_buf@.len() <= 5 * start,
            freqs_buf@.len() <= 5 * start,
        decreases n - start,
    {
        let mut j: usize = 0;
        while j < 128
            invariant
                j <= 128,
                start + 128 <= n,
                n == sorted@.len(),
                docs_ascending(sorted@),
                g == gaps_of(sorted@),
                f == freqs_of(sorted@),
                prev_doc_id == prev_doc(sorted@, start + j),
                forall|i: int| 0 <= i < j ==> chunk_docs@[i] == g[start + i],
                forall|i: int| 0 <= i < j ==> chunk_freqs@[i] == f[start + i],
            decreases 128 - j,
        {
            let (doc_id, tf) = sorted[start + j];
            assert(prev_doc_id <= doc_id) by {
                if start + j > 0 {
                    assert(sorted@[start + j - 1].0 <= sorted@[start + j].0);
                }
            }
            chunk_docs[j] = doc_id - prev_doc_id;
            chunk_freqs[j] = tf;
            prev_doc_id = doc_id;
            j = j + 1;
        }
        let ghost gb = g.skip(start as int).take(128);
        let ghost fb = f.skip(start as int).take(128);
        let ghost q = start as int / 128;
        assert(chunk_docs@ =~= gb);
        assert(chunk_freqs@ =~= fb);
        assert(gb =~= block_at(g, q));
        assert(fb =~= block_at(f, q));
        proof {
            lemma_block_width(gb);
            lemma_block_width(fb);
        }
        let doc_bits = block_num_bits(&chunk_docs);
        let mut doc_packed = pack_block(&chunk_docs, doc_bits);
        let ghost docs_before = docs_buf@;
        docs_buf.push(doc_bits);
        docs_buf.append(&mut doc_packed);
        assert(docs_buf@ =~= docs_before + block_bytes(gb));
        let freq_bits = block_num_bits(&chunk_freqs);
        let mut freq_packed = pack_block(&chunk_freqs, freq_bits);
        let ghost freqs_before = freqs_buf@;
        freqs_buf.push(freq_bits);
        freqs_buf.append(&mut freq_packed);
        assert(freqs_buf@ =~= freqs_before + block_bytes(fb));
        proof {
            assert(packing_inverts(block_at(g, q)));
            assert(packing_inverts(block_at(f, q)));
            assert(g.skip(start as int).skip(128) =~= g.skip(start + 128));
            assert(f.skip(start as int).skip(128) =~= f.skip(start + 128));
            assert(docs_buf@ + stream_bytes(g.skip(start + 128)) =~= docs_before + stream_bytes(
                g.skip(start as int),
            ));
            assert(freqs_buf@ + stream_bytes(f.skip(start + 128)) =~= freqs_before
                + stream_bytes(f.skip(start as int)));
        }
        start = start + 128;
    }
    let ghost gt = g.skip(start as int);
    let ghost ft = f.skip(start as int);
    let ghost docs_head = docs_buf@;
    let ghost freqs_head = freqs_buf@;
    let mut i: usize = start;
    assert(gt.take(0) =~= Seq::<u32>::empty());
    assert(ft.take(0) =~= Seq::<u32>::empty());
    while i < n
        invariant
            start <= i <= n,
            n - start < 128,
            n == sorted@.len(),
            docs_ascending(sorted@),
            g == gaps_of(sorted@),
            f == freqs_of(sorted@),
            gt == g.skip(start as int),
            ft == f.skip(start as int),
            prev_doc_id == prev_doc(sorted@, i as int),
            docs_buf@ == docs_head + varints_bytes(gt.take(i - start)),
            freqs_buf@ == freqs_head + varints_bytes(ft.take(i - start)),
        decreases n - i,
    {
        let (doc_id, tf) = sorted[i];
        assert(prev_doc_id <= doc_id) by {
            if i > 0 {
                assert(sorted@[i - 1].0 <= sorted@[i as int].0);
            }
        }
        let delta: u32 = doc_id - prev_doc_id;
        prev_doc_id = doc_id;
        encode_varint(delta, &mut docs_buf);
        encode_varint(tf, &mut freqs_buf);
        proof {
            let gn = gt.take(i - start + 1);
            let fnext = ft.take(i - start + 1);
            assert(gn.drop_last() =~= gt.take(i - start));
            assert(fnext.drop_last() =~= ft.take(i - start));
            assert(gn.last() == delta);
            assert(fnext.last() == tf);
        }
        i = i + 1;
    }
    proof {
        assert(gt.take(n - start) =~= gt);
        assert(ft.take(n - start) =~= ft);
        lemma_varints_len(gt);
        lemma_varints_len(ft);
        assert(blocks_invert(g)) by {
            assert forall|q: int| 0 <= q && 128 * (q + 1) <= g.len() implies packing_inverts(
                #[trigger] block_at(g, q),
            ) by {
                assert(128 * (q + 1) <= start);
            }
        }
        assert(blocks_invert(f)) by {
            assert forall|q: int| 0 <= q && 128 * (q + 1) <= f.len() implies packing_inverts(
                #[trigger] block_at(f, q),
            ) by {
                assert(128 * (q + 1) <= start);
            }
        }
        lemma_separated_round_trip(sorted@);
    }
    (docs_buf, freqs_buf)
}

/// Decodes `num_postings` postings from the two streams, block by block and
/// then the varint tail.
pub fn decode_postings_separated(doc_data: &[u8], tf_data: &[u8], num_postings: usize) -> (result:
    Vec<(u32, u32)>)
    ensures
        result@ == decode_separated(doc_data@, tf_data@, num_postings as nat),
{
    let mut result: Vec<(u32, u32)> = Vec::new();
    let mut doc_pos: usize = 0;
    let mut tf_pos: usize = 0;
    let mut docs_block: [u32; 128] = [0u32; 128];
    let mut freqs_block: [u32; 128] = [0u32; 128];
    let mut left: usize = num_postings;
    let mut doc_id_accum: u32 = 0;
    let ghost all = decode_separated(doc_data@, tf_data@, num_postings as nat);
    while left >= 128
        invariant
            all == decode_separated(doc_data@, tf_data@, num_postings as nat),
            all == result@ + decode_from(
                doc_data@,
                doc_pos as int,
                tf_data@,
                tf_pos as int,
                left as nat,
                doc_id_accum,
            ),
        decreases left,
    {
        if !has_block(doc_data, doc_pos) || !has_block(tf_data, tf_pos) {
            assert(all =~= result@);
            return result;
        }
        let ghost doc_start = doc_id_accum;
        let ghost shown = result@;
        let doc_end = read_block(doc_data, doc_pos, &mut docs_block);
        let tf_end = read_block(tf_data, tf_pos, &mut freqs_block);
        let ghost head = postings_from(docs_block@, freqs_block@, doc_start);
        let mut i: usize = 0;
        while i < 128
            invariant
                i <= 128,
                docs_block@.len() == 128,
                freqs_block@.len() == 128,
                head == postings_from(docs_block@, freqs_block@, doc_start),
                doc_id_accum == doc_after(docs_block@, doc_start, i as nat),
                result@ == shown + head.take(i as int),
            decreases 128 - i,
        {
            doc_id_accum = doc_id_accum.wrapping_add(docs_block[i]);
            result.push((doc_id_accum, freqs_block[i]));
            assert(head.take(i + 1) =~= head.take(i as int).push(head[i as int]));
            i = i + 1;
        }
        assert(head.take(128) =~= head);
        doc_pos = doc_end;
        tf_pos = tf_end;
        left = left - 128;
        assert(all =~= result@ + decode_from(
            doc_data@,
            doc_pos as int,
            tf_data@,
            tf_pos as int,
            left as nat,
            doc_id_accum,
        ));
    }
    let ghost doc_start = doc_id_accum;
    let ghost shown = result@;
    let ghost doc_from = doc_pos;
    let ghost tf_from = tf_pos;
    let ghost gaps = varint_run(doc_data@, doc_from as int, left as nat);
    let ghost freqs = varint_run(tf_data@, tf_from as int, left as nat);
    let ghost tail = postings_from(gaps, freqs, doc_start);
    let mut k: usize = 0;
    while k < left
        invariant
            k <= left,
            left < 128,
            gaps == varint_run(doc_data@, doc_from as int, left as nat),
            freqs == varint_run(tf_data@, tf_from as int, left as nat),
            tail == postings_from(gaps, freqs, doc_start),
            doc_pos == run_pos(doc_data@, doc_from as int, k as nat),
            tf_pos == run_pos(tf_data@, tf_from as int, k as nat),
            doc_id_accum == doc_after(gaps, doc_start, k as nat),
            result@ == shown + tail.take(k as int),
        decreases left - k,
    {
        let (delta, new_pos) = decode_varint(doc_data, doc_pos);
        doc_pos = new_pos;
        let (tf, new_tf_pos) = decode_varint(tf_data, tf_pos);
        tf_pos = new_tf_pos;
        doc_id_accum = doc_id_accum.wrapping_add(delta);
        result.push((doc_id_accum, tf));
        assert(tail.take(k + 1) =~= tail.take(k as int).push(tail[k as int]));
        k = k + 1;
    }
    assert(tail.take(left as int) =~= tail);
    result
}

} // verus!
