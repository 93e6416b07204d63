//! Streaming reader of one term's postings in the block format.
use vstd::prelude::*;
use crate::codecs::separated::{
    decode_from, decode_separated, doc_after, has_block, postings_from, read_block, run_pos,
    varint_run,
};
use crate::codecs::varint::decode_varint;

verus! {

/// Walks the postings of one term without decoding more than one block
/// ahead.
pub struct PostingsIter<'a> {
    doc_data: &'a [u8],
    freq_data: &'a [u8],
    doc_pos: usize,
    freq_pos: usize,
    current_doc: u32,
    count_left: usize,
    doc_buffer: [u32; 128],
    freq_buffer: [u32; 128],
    buffer_idx: usize,
    buffer_len: usize,
}

/// Skipping the first gap amounts to starting one document further.
pub proof fn lemma_doc_after_shift(gaps: Seq<u32>, doc: u32, k: nat)
    requires
        1 <= k <= gaps.len(),
    ensures
        doc_after(gaps, doc, k) == doc_after(
            gaps.drop_first(),
            doc.wrapping_add(gaps[0]),
            (k - 1) as nat,
        ),
    decreases k,
{
    if k > 1 {
        lemma_doc_after_shift(gaps, doc, (k - 1) as nat);
        assert(gaps.drop_first()[k - 2] == gaps[k - 1]);
    } else {
        assert(doc_after(gaps, doc, 0) == doc);
    }
}

impl<'a> PostingsIter<'a> {
    /// The gaps decoded and not yet handed out.
    pub closed spec fn buffered_gaps(&self) -> Seq<u32> {
        self.doc_buffer@.subrange(self.buffer_idx as int, self.buffer_len as int)
    }

    /// The frequencies decoded and not yet handed out.
    pub closed spec fn buffered_freqs(&self) -> Seq<u32> {
        self.freq_buffer@.subrange(self.buffer_idx as int, self.buffer_len as int)
    }

    /// The cursor is consistent: the buffer bounds are in range and no more
    /// values are buffered than postings are left.
    pub closed spec fn wf(&self) -> bool {
        &&& self.buffer_idx <= self.buffer_len <= 128
        &&& self.buffer_len - self.buffer_idx <= self.count_left
    }

    /// The postings that are still to come, in order.
    pub closed spec fn remaining(&self) -> Seq<(u32, u32)> {
        let gaps = self.buffered_gaps();
        postings_from(gaps, self.buffered_freqs(), self.current_doc) + decode_from(
            self.doc_data@,
            self.doc_pos as int,
            self.freq_data@,
            self.freq_pos as int,
            (self.count_left - gaps.len()) as nat,
            doc_after(gaps, self.current_doc, gaps.len()),
        )
    }

    /// A cursor at the start of a term's two streams, which hold `doc_count`
    /// postings.
    pub fn new(doc_data: &'a [u8], freq_data: &'a [u8], doc_count: usize) -> (it: Self)
        ensures
            it.wf(),
            it.remaining() == decode_separated(doc_data@, freq_data@, doc_count as nat),
    {
        let it = PostingsIter {
            doc_data,
            freq_data,
            doc_pos: 0,
            freq_pos: 0,
            current_doc: 0,
            count_left: doc_count,
            doc_buffer: [0u32; 128],
            freq_buffer: [0u32; 128],
            buffer_idx: 0,
            buffer_len: 0,
        };
        assert(it.remaining() =~= decode_separated(doc_data@, freq_data@, doc_count as nat));
        it
    }

    /// Decodes the next block, or the whole varint tail, into the buffers.
    /// Returns false, and ends the walk, when a block is absent.
    fn refill_buffer(&mut self) -> (filled: bool)
        requires
            old(self).wf(),
            old(self).buffer_idx == old(self).buffer_len,
            old(self).count_left > 0,
        ensures
            final(self).wf(),
            final(self).remaining() == old(self).remaining(),
            filled ==> final(self).buffer_idx < final(self).buffer_len,
            !filled ==> final(self).count_left == 0 && final(self).remaining().len() == 0,
    {
        let ghost before = self.remaining();
        if self.count_left >= 128 {
            if !has_block(self.doc_data, self.doc_pos) || !has_block(
                self.freq_data,
                self.freq_pos,
            ) {
                assert(before =~= Seq::<(u32, u32)>::empty());
                self.count_left = 0;
                self.buffer_idx = 0;
                self.buffer_len = 0;
                assert(self.remaining() =~= Seq::<(u32, u32)>::empty());
                return false;
            }
            let doc_end = read_block(self.doc_data, self.doc_pos, &mut self.doc_buffer);
            let freq_end = read_block(self.freq_data, self.freq_pos, &mut self.freq_buffer);
            self.doc_pos = doc_end;
            self.freq_pos = freq_end;
            self.buffer_idx = 0;
            self.buffer_len = 128;
            assert(self.buffered_gaps() =~= self.doc_buffer@);
            assert(self.buffered_freqs() =~= self.freq_buffer@);
            assert(self.remaining() =~= before);
        } else {
            let ghost doc_from = self.doc_pos;
            let ghost freq_from = self.freq_pos;
            let ghost gaps = varint_run(self.doc_data@, doc_from as int, self.count_left as nat);
            let ghost freqs = varint_run(self.freq_data@, freq_from as int, self.count_left as nat);
            let n: usize = self.count_left;
            let mut i: usize = 0;
            while i < n
                invariant
                    i <= n < 128,
                    n == self.count_left,
                    self.doc_data == old(self).doc_data,
                    self.freq_data == old(self).freq_data,
                    self.current_doc == old(self).current_doc,
                    gaps == varint_run(self.doc_data@, doc_from as int, n as nat),
                    freqs == varint_run(self.freq_data@, freq_from as int, n as nat),
                    self.doc_pos == run_pos(self.doc_data@, doc_from as int, i as nat),
                    self.freq_pos == run_pos(self.freq_data@, freq_from as int, i as nat),
                    forall|j: int| 0 <= j < i ==> self.doc_buffer@[j] == gaps[j],
                    forall|j: int| 0 <= j < i ==> self.freq_buffer@[j] == freqs[j],
                decreases n - i,
            {
                let (delta, new_pos) = decode_varint(self.doc_data, self.doc_pos);
                self.doc_pos = new_pos;
                self.doc_buffer[i] = delta;
                let (tf, new_pos) = decode_varint(self.freq_data, self.freq_pos);
                self.freq_pos = new_pos;
                self.freq_buffer[i] = tf;
                i = i + 1;
            }
            self.buffer_idx = 0;
            self.buffer_len = n;
            assert(self.buffered_gaps() =~= gaps);
            assert(self.buffered_freqs() =~= freqs);
            assert(self.remaining() =~= before);
        }
        true
    }

    /// Hands out the next posting, or `None` when the walk is over.
    pub fn next(&mut self) -> (r: Option<(u32, u32)>)
        requires
            old(self).wf(),
        ensures
            final(self).wf(),
            old(self).remaining().len() == 0 ==> r is None && final(self).remaining().len() == 0,
            old(self).remaining().len() > 0 ==> r == Some(old(self).remaining()[0])
                && final(self).remaining() == old(self).remaining().drop_first(),
    {
        if self.count_left == 0 {
            assert(self.remaining() =~= Seq::<(u32, u32)>::empty());
            return None;
        }
        if self.buffer_idx >= self.buffer_len {
            if !self.refill_buffer() {
                return None;
            }
        }
        let ghost before = self.remaining();
        let ghost gaps = self.buffered_gaps();
        let ghost freqs = self.buffered_freqs();
        let ghost doc = self.current_doc;
        let delta = self.doc_buffer[self.buffer_idx];
        let freq = self.freq_buffer[self.buffer_idx];
        self.current_doc = self.current_doc.wrapping_add(delta);
        self.buffer_idx = self.buffer_idx + 1;
        self.count_left = self.count_left - 1;
        proof {
            assert(self.buffered_gaps() =~= gaps.drop_first());
            assert(self.buffered_freqs() =~= freqs.drop_first());
            lemma_doc_after_shift(gaps, doc, gaps.len());
            let head = postings_from(gaps, freqs, doc);
            let rest = postings_from(gaps.drop_first(), freqs.drop_first(), self.current_doc);
            assert(head.drop_first() =~= rest) by {
                assert forall|i: int| 0 <= i < rest.len() implies head[i + 1] == rest[i] by {
                    lemma_doc_after_shift(gaps, doc, (i + 2) as nat);
                }
            }
            assert(doc_after(gaps, doc, 0) == doc);
            assert(gaps[0] == delta && freqs[0] == freq);
            assert(head[0] == (self.current_doc, freq));
            assert(self.remaining() =~= before.drop_first());
        }
        Some((self.current_doc, freq))
    }

    /// Hands out all postings that are still to come.
    pub fn collect_remaining(&mut self) -> (out: Vec<(u32, u32)>)
        requires
            old(self).wf(),
        ensures
            final(self).wf(),
            out@ == old(self).remaining(),
            final(self).remaining().len() == 0,
    {
        let mut out: Vec<(u32, u32)> = Vec::new();
        let ghost all = self.remaining();
        loop
            invariant
                self.wf(),
                all == out@ + self.remaining(),
            ensures
                self.wf(),
                out@ == all,
                self.remaining().len() == 0,
            decreases self.remaining().len(),
        {
            let ghost rest = self.remaining();
            match self.next() {
                Some(p) => {
                    out.push(p);
                    assert(all =~= out@ + self.remaining());
                },
                None => {
                    assert(all =~= out@);
                    break;
                },
            }
        }
        out
    }
}

} // verus!
