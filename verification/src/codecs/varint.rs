//! LEB128 encoding of 32-bit values, least significant group first.
use vstd::prelude::*;

verus! {

/// The bytes that encode `v`: seven bits per byte, low group first, the high
/// bit set on every byte but the last.
pub open spec fn varint_bytes(v: u32) -> Seq<u8>
    decreases v,
{
    if v < 0x80 {
        seq![v as u8]
    } else {
        seq![((v % 0x80) + 0x80) as u8] + varint_bytes(v / 0x80)
    }
}

/// Number of bytes that a varint starting at `pos` occupies: up to and
/// including the first byte whose high bit is clear, or up to the end of the
/// data when there is no such byte.
pub open spec fn varint_len(data: Seq<u8>, pos: int) -> nat
    decreases data.len() - pos,
{
    if pos < 0 || pos >= data.len() {
        0
    } else if data[pos] < 0x80 {
        1
    } else {
        1 + varint_len(data, pos + 1)
    }
}

/// The unbounded number that the varint starting at `pos` denotes.
pub open spec fn varint_nat(data: Seq<u8>, pos: int) -> nat
    decreases data.len() - pos,
{
    if pos < 0 || pos >= data.len() {
        0
    } else if data[pos] < 0x80 {
        data[pos] as nat
    } else {
        (data[pos] - 0x80) as nat + 0x80 * varint_nat(data, pos + 1)
    }
}

/// The 32-bit value read at `pos`: the denoted number, truncated to 32 bits.
pub open spec fn varint_value(data: Seq<u8>, pos: int) -> u32 {
    (varint_nat(data, pos) % 0x1_0000_0000) as u32
}

/// A varint read inside the data takes at least one byte and ends inside the
/// data.
pub proof fn lemma_varint_len_bounds(data: Seq<u8>, pos: int)
    requires
        0 <= pos < data.len(),
    ensures
        1 <= varint_len(data, pos),
        pos + varint_len(data, pos) <= data.len(),
    decreases data.len() - pos,
{
    if data[pos] >= 0x80 {
        if pos + 1 < data.len() {
            lemma_varint_len_bounds(data, pos + 1);
        } else {
            assert(varint_len(data, pos + 1) == 0);
        }
    }
}

/// A varint is one to five bytes long.
pub proof fn lemma_varint_bytes_len(v: u32)
    ensures
        1 <= varint_bytes(v).len() <= 5,
        v < 0x80 ==> varint_bytes(v).len() == 1,
{
    reveal_with_fuel(varint_bytes, 6);
    assert(v / 0x80 / 0x80 / 0x80 / 0x80 < 0x80);
}

/// Reading where the bytes of `v` stand gives `v` back and consumes exactly
/// those bytes.
pub proof fn lemma_varint_read_back(data: Seq<u8>, pos: int, v: u32)
    requires
        0 <= pos,
        pos + varint_bytes(v).len() <= data.len(),
        data.subrange(pos, pos + varint_bytes(v).len()) == varint_bytes(v),
    ensures
        varint_nat(data, pos) == v,
        varint_value(data, pos) == v,
        varint_len(data, pos) == varint_bytes(v).len(),
    decreases v,
{
    let enc = varint_bytes(v);
    let n = enc.len() as int;
    assert(data[pos] == data.subrange(pos, pos + n)[0]);
    if v < 0x80 {
    } else {
        let rest = varint_bytes(v / 0x80);
        assert(enc == seq![((v % 0x80) + 0x80) as u8] + rest);
        assert(enc[0] == ((v % 0x80) + 0x80) as u8);
        assert(data.subrange(pos + 1, pos + 1 + rest.len()) =~= rest) by {
            assert forall|i: int| 0 <= i < rest.len() implies data.subrange(
                pos + 1,
                pos + 1 + rest.len(),
            )[i] == rest[i] by {
                assert(data[pos + 1 + i] == data.subrange(pos, pos + n)[i + 1]);
                assert(enc[i + 1] == rest[i]);
            }
        }
        lemma_varint_read_back(data, pos + 1, v / 0x80);
    }
}

/// Appends the encoding of `value` to `buf`.
pub fn encode_varint(value: u32, buf: &mut Vec<u8>)
    ensures
        final(buf)@ == old(buf)@ + varint_bytes(value),
{
    let ghost start = buf@;
    let mut v: u32 = value;
    while v >= 0x80
        invariant
            buf@ + varint_bytes(v) == start + varint_bytes(value),
        decreases v,
    {
        let low: u8 = ((v & 0x7F) as u8) | 0x80;
        assert(((v & 0x7F) as u8) | 0x80 == (v % 0x80) + 0x80) by (bit_vector);
        assert(v >> 7 == v / 0x80) by (bit_vector);
        let ghost before = buf@;
        buf.push(low);
        assert(buf@ + varint_bytes(v / 0x80) =~= before + varint_bytes(v));
        v = v >> 7;
    }
    let last: u8 = v as u8;
    buf.push(last);
    assert(buf@ =~= start + varint_bytes(value));
}

/// Reads one varint at `pos`. Returns the value and the position after it.
/// Data that ends inside a varint gives the groups read so far; groups past
/// the 32nd bit are consumed and dropped.
pub fn decode_varint(data: &[u8], pos: usize) -> (r: (u32, usize))
    ensures
        r.0 == varint_value(data@, pos as int),
        r.1 == pos + varint_len(data@, pos as int),
        pos <= data@.len() ==> r.1 <= data@.len(),
{
    let mut result: u32 = 0;
    let mut shift: u32 = 0;
    let mut p: usize = pos;
    let ghost mut acc: nat = 0;
    let ghost mut scale: nat = 1;
    loop
        invariant_except_break
            varint_len(data@, pos as int) == (p - pos) + varint_len(data@, p as int),
            varint_nat(data@, pos as int) == acc + scale * varint_nat(data@, p as int),
        invariant
            pos <= p,
            pos < data@.len() ==> p <= data@.len(),
            result == acc % 0x1_0000_0000,
            shift == 0 || shift == 7 || shift == 14 || shift == 21 || shift == 28 || shift == 35,
            shift == 0 ==> scale == 1 && acc == 0,
            shift == 7 ==> scale == 0x80 && acc < 0x80,
            shift == 14 ==> scale == 0x4000 && acc < 0x4000,
            shift == 21 ==> scale == 0x20_0000 && acc < 0x20_0000,
            shift == 28 ==> scale == 0x1000_0000 && acc < 0x1000_0000,
            shift == 35 ==> scale % 0x1_0000_0000 == 0,
        ensures
            result == varint_value(data@, pos as int),
            p == pos + varint_len(data@, pos as int),
            pos <= data@.len() ==> p <= data@.len(),
        decreases data@.len() - p,
    {
        if p >= data.len() {
            assert(varint_nat(data@, p as int) == 0);
            assert(varint_len(data@, p as int) == 0);
            assert(scale * 0 == 0);
            return (result, p);
        }
        let byte: u8 = data[p];
        let ghost low: nat = (if byte < 0x80 { byte as nat } else { (byte - 0x80) as nat });
        let ghost rest: nat = (if byte < 0x80 { 0 } else { varint_nat(data@, p + 1) });
        assert(varint_nat(data@, p as int) == low + 0x80 * rest);
        assert(scale * (low + 0x80 * rest) == scale * low + (scale * 0x80) * rest)
            by (nonlinear_arith);
        let ghost old_acc = acc;
        let ghost old_scale = scale;
        proof {
            acc = acc + scale * low;
            scale = scale * 0x80;
        }
        if shift < 32 {
            let group: u32 = (byte & 0x7F) as u32;
            assert(group == low) by {
                assert((byte & 0x7F) == (if byte < 0x80u8 { byte } else { (byte - 0x80u8) as u8 }))
                    by (bit_vector);
            }
            let old_result = result;
            result = result | (group << shift);
            assert(result as nat == (old_result as nat + group as nat * old_scale) % 0x1_0000_0000)
                by {
                if shift == 0 {
                    assert(0u32 | (group << 0u32) == group) by (bit_vector);
                } else if shift == 7 {
                    assert(old_result < 0x80 && group < 0x80 ==> (old_result | (group << 7u32))
                        == old_result + group * 0x80) by (bit_vector);
                } else if shift == 14 {
                    assert(old_result < 0x4000 && group < 0x80 ==> (old_result | (group << 14u32))
                        == old_result + group * 0x4000) by (bit_vector);
                } else if shift == 21 {
                    assert(old_result < 0x20_0000 && group < 0x80 ==> (old_result | (group
                        << 21u32)) == old_result + group * 0x20_0000) by (bit_vector);
                } else {
                    assert(old_result < 0x1000_0000 && group < 0x80 ==> (old_result | (group
                        << 28u32)) as u64 == ((old_result as u64 + (group as u64) * 0x1000_0000u64) as u64)
                        % 0x1_0000_0000u64) by (bit_vector);
                }
            }
            shift = shift + 7;
        } else {
            assert((old_acc + old_scale * low) % 0x1_0000_0000 == old_acc % 0x1_0000_0000) by {
                vstd::arithmetic::div_mod::lemma_mod_multiples_vanish(
                    (old_scale / 0x1_0000_0000) as int * low as int,
                    old_acc as int,
                    0x1_0000_0000,
                );
                assert(old_scale == 0x1_0000_0000 * (old_scale / 0x1_0000_0000));
                assert(old_scale * low == 0x1_0000_0000 * ((old_scale / 0x1_0000_0000) * low))
                    by (nonlinear_arith)
                    requires
                        old_scale == 0x1_0000_0000 * (old_scale / 0x1_0000_0000),
                ;
            }
        }
        assert(shift == 35 ==> scale % 0x1_0000_0000 == 0) by {
            if shift == 35 {
                if old_scale == 0x1000_0000 {
                } else {
                    assert((old_scale * 0x80) % 0x1_0000_0000 == 0) by (nonlinear_arith)
                        requires
                            old_scale % 0x1_0000_0000 == 0,
                    ;
                }
            }
        }
        p = p + 1;
        if byte & 0x80 == 0 {
            assert(byte < 0x80) by {
                assert(byte & 0x80 == 0 ==> byte < 0x80) by (bit_vector);
            }
            assert(old_scale * (low + 0x80 * 0) == old_scale * low) by (nonlinear_arith);
            break;
        }
        assert(byte >= 0x80) by {
            assert(byte & 0x80 != 0 ==> byte >= 0x80) by (bit_vector);
        }
    }
    (result, p)
}

} // verus!
