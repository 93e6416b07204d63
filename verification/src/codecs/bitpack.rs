//! Blocks of 128 values, bit-packed by the `bitpacking` crate.
use bitpacking::{BitPacker, BitPacker4x};
use vstd::arithmetic::power2::{lemma2_to64, lemma_pow2_unfold, pow2};
use vstd::prelude::*;

verus! {

/// Number of values in one block.
pub const BLOCK_LEN: usize = 128;

/// Bits needed to write `v`: zero for 0, else the place of its highest set
/// bit, counted from one.
pub open spec fn bit_width(v: u32) -> nat
    decreases v,
{
    if v == 0 {
        0
    } else {
        1 + bit_width(v / 2)
    }
}

/// The width of a block: the largest bit width among its values.
pub open spec fn block_width(values: Seq<u32>) -> nat
    decreases values.len(),
{
    if values.len() == 0 {
        0
    } else {
        let rest = block_width(values.drop_last());
        if bit_width(values.last()) > rest {
            bit_width(values.last())
        } else {
            rest
        }
    }
}

/// Every value of the block can be written in `bits` bits.
pub open spec fn fits(values: Seq<u32>, bits: nat) -> bool {
    forall|i: int| 0 <= i < values.len() ==> bit_width(#[trigger] values[i]) <= bits
}

/// Name for the bytes that `BitPacker4x::compress` writes for a block of 128
/// values at the given width.
pub uninterp spec fn packed_block(values: Seq<u32>, bits: u8) -> Seq<u8>;

/// Name for the 128 values that `BitPacker4x::decompress` reads from
/// `16 * bits` bytes at the given width.
pub uninterp spec fn unpacked_block(bytes: Seq<u8>, bits: u8) -> Seq<u32>;

/// Unpacking what was packed from `block` at its own width gives `block`
/// back, and the packed form is 16 bytes per bit of width.
pub open spec fn packing_inverts(block: Seq<u32>) -> bool {
    let w = block_width(block) as u8;
    &&& packed_block(block, w).len() == 16 * w
    &&& unpacked_block(packed_block(block, w), w) == block
}

proof fn lemma_bit_width_below(v: u32, k: nat)
    requires
        v < pow2(k),
    ensures
        bit_width(v) <= k,
    decreases k,
{
    if v != 0 {
        if k == 0 {
            lemma2_to64();
        } else {
            lemma_pow2_unfold(k);
            lemma_bit_width_below(v / 2, (k - 1) as nat);
        }
    }
}

/// No 32-bit value is wider than 32 bits.
pub proof fn lemma_bit_width_max(v: u32)
    ensures
        bit_width(v) <= 32,
{
    lemma2_to64();
    lemma_bit_width_below(v, 32);
}

/// A block is as wide as its widest value, and no wider than 32 bits.
pub proof fn lemma_block_width(values: Seq<u32>)
    ensures
        fits(values, block_width(values)),
        block_width(values) <= 32,
    decreases values.len(),
{
    if values.len() > 0 {
        lemma_block_width(values.drop_last());
        lemma_bit_width_max(values.last());
        assert forall|i: int| 0 <= i < values.len() implies bit_width(#[trigger] values[i])
            <= block_width(values) by {
            if i < values.len() - 1 {
                assert(values[i] == values.drop_last()[i]);
            }
        }
    }
}

/// `BitPacker4x::num_bits`: the least number of bits in which the largest
/// value of the block can be written.
#[verifier::external_body]
pub(crate) fn block_num_bits(values: &[u32; 128]) -> (bits: u8)
    ensures
        bits == block_width(values@),
{
    BitPacker4x::new().num_bits(values)
}

/// `BitPacker4x::compress` into a buffer of its own: for values that fit the
/// width it writes 16 bytes per bit, from which `BitPacker4x::decompress`
/// at the same width reads the values back.
#[verifier::external_body]
pub(crate) fn pack_block(values: &[u32; 128], bits: u8) -> (packed: Vec<u8>)
    requires
        bits <= 32,
        fits(values@, bits as nat),
    ensures
        packed@ == packed_block(values@, bits),
        packed@.len() == 16 * bits,
        unpacked_block(packed@, bits) == values@,
{
    let mut buf = [0u8; 512];
    let n = BitPacker4x::new().compress(values, &mut buf, bits);
    buf[..n].to_vec()
}

/// `BitPacker4x::decompress` of exactly one block's bytes.
#[verifier::external_body]
pub(crate) fn unpack_block(bytes: &[u8], bits: u8, out: &mut [u32; 128])
    requires
        bits <= 32,
        bytes@.len() == 16 * bits,
    ensures
        final(out)@ == unpacked_block(bytes@, bits),
{
    BitPacker4x::new().decompress(bytes, out, bits);
}

} // verus!
