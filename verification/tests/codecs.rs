use rust_bm25::codecs::separated::{decode_postings_separated, encode_postings_separated};
use rust_bm25::index::PostingsIter;
use rust_bm25::codecs::{
    decode_postings, decode_postings_internal, decode_varint, encode_postings,
    encode_postings_internal, encode_varint, merge_postings,
};

fn sample(n: usize) -> Vec<(u32, u32)> {
    let mut out = Vec::with_capacity(n);
    let mut doc = 0u32;
    for i in 0..n {
        doc += 1 + ((i as u32 * 7) % 5);
        out.push((doc, 1 + (i as u32 % 9)));
    }
    out
}

fn four_hundred() -> Vec<(u32, u32)> {
    let mut out = vec![(1u32, 3u32), (2, 1), (5, 7)];
    let mut doc = 5u32;
    for i in 3..400u32 {
        doc += 1 + (i % 3);
        out.push((doc, if i == 399 { 2 } else { 1 + (i % 4) }));
    }
    out
}

#[test]
fn varint_small_values_take_one_byte() {
    let mut buf = Vec::new();
    encode_varint(0, &mut buf);
    encode_varint(1, &mut buf);
    encode_varint(127, &mut buf);
    assert_eq!(buf, vec![0u8, 1, 127]);
}

#[test]
fn varint_exact_bytes() {
    let mut buf = Vec::new();
    encode_varint(128, &mut buf);
    assert_eq!(buf, vec![0x80u8, 0x01]);
    let mut buf = Vec::new();
    encode_varint(300, &mut buf);
    assert_eq!(buf, vec![0xACu8, 0x02]);
    let mut buf = Vec::new();
    encode_varint(u32::MAX, &mut buf);
    assert_eq!(buf, vec![0xFFu8, 0xFF, 0xFF, 0xFF, 0x0F]);
}

#[test]
fn varint_round_trip_at_offsets() {
    let values = [0u32, 1, 127, 128, 16383, 16384, 2097151, 2097152, 268435455, 268435456, u32::MAX];
    let mut buf = vec![0xEEu8];
    for v in values {
        encode_varint(v, &mut buf);
    }
    let mut pos = 1usize;
    for v in values {
        let (got, next) = decode_varint(&buf, pos);
        assert_eq!(got, v);
        assert!(next > pos);
        pos = next;
    }
    assert_eq!(pos, buf.len());
}

#[test]
fn varint_at_end_of_data_reads_zero() {
    let data = [0x05u8];
    assert_eq!(decode_varint(&data, 1), (0, 1));
    assert_eq!(decode_varint(&data, 7), (0, 7));
}

#[test]
fn varint_cut_short_gives_groups_read() {
    let data = [0x81u8, 0x82];
    assert_eq!(decode_varint(&data, 0), (1 + (2 << 7), 2));
}

#[test]
fn varint_overlong_is_truncated_to_32_bits() {
    let data = [0xFFu8, 0xFF, 0xFF, 0xFF, 0xFF, 0xFF, 0x01, 0x2A];
    assert_eq!(decode_varint(&data, 0), (u32::MAX, 7));
    assert_eq!(decode_varint(&data, 7), (0x2A, 8));
}

#[test]
fn interleaved_exact_bytes() {
    let bytes = encode_postings_internal(&[(1, 3), (2, 1), (5, 7)]);
    assert_eq!(bytes, vec![1u8, 3, 1, 1, 3, 7]);
    let bytes = encode_postings_internal(&[(300, 2)]);
    assert_eq!(bytes, vec![0xACu8, 0x02, 2]);
}

#[test]
fn interleaved_round_trip() {
    let list = sample(500);
    let bytes = encode_postings_internal(&list);
    assert_eq!(decode_postings_internal(&bytes), list);
    assert_eq!(decode_postings(&encode_postings(list.clone())), list);
}

#[test]
fn interleaved_sorts_its_input() {
    let bytes = encode_postings_internal(&[(9, 1), (2, 5), (4, 4)]);
    assert_eq!(decode_postings_internal(&bytes), vec![(2, 5), (4, 4), (9, 1)]);
}

#[test]
fn interleaved_empty() {
    assert!(encode_postings_internal(&[]).is_empty());
    assert!(decode_postings_internal(&[]).is_empty());
}

#[test]
fn interleaved_drops_a_gap_without_frequency() {
    assert_eq!(decode_postings_internal(&[1, 3, 4]), vec![(1, 3)]);
}

#[test]
fn merge_joins_and_sorts() {
    let a = encode_postings_internal(&[(1, 1), (7, 2)]);
    let b = encode_postings_internal(&[(3, 4), (9, 1)]);
    let merged = merge_postings(&a, &b);
    assert_eq!(decode_postings_internal(&merged), vec![(1, 1), (3, 4), (7, 2), (9, 1)]);
    assert_eq!(merged, encode_postings_internal(&[(1, 1), (3, 4), (7, 2), (9, 1)]));
}

#[test]
fn merge_with_empty_is_identity() {
    let a = encode_postings_internal(&[(1, 1), (7, 2)]);
    assert_eq!(merge_postings(&a, &[]), a);
    assert_eq!(merge_postings(&[], &a), a);
}

#[test]
fn separated_round_trip_around_block_boundaries() {
    for n in [0usize, 1, 2, 127, 128, 129, 255, 256, 257, 400, 1000] {
        let list = sample(n);
        let (docs, freqs) = encode_postings_separated(&list);
        assert_eq!(decode_postings_separated(&docs, &freqs, n), list, "n = {}", n);
        assert!(docs.len() + freqs.len() <= 10 * n);
    }
}

#[test]
fn separated_sorts_its_input() {
    let mut list = sample(200);
    list.reverse();
    let (docs, freqs) = encode_postings_separated(&list);
    assert_eq!(decode_postings_separated(&docs, &freqs, 200), sample(200));
}

#[test]
fn separated_short_list_is_all_varints() {
    let (docs, freqs) = encode_postings_separated(&[(1, 3), (2, 1), (5, 7), (305, 130)]);
    assert_eq!(docs, vec![1u8, 1, 3, 0xAC, 0x02]);
    assert_eq!(freqs, vec![3u8, 1, 7, 0x82, 0x01]);
}

#[test]
fn separated_block_header_is_the_bit_width() {
    let list: Vec<(u32, u32)> = (0..128u32).map(|i| (10 * (i + 1), 1)).collect();
    let (docs, freqs) = encode_postings_separated(&list);
    assert_eq!(docs[0], 4);
    assert_eq!(docs.len(), 1 + 4 * 16);
    assert_eq!(freqs[0], 1);
    assert_eq!(freqs.len(), 1 + 16);
}

#[test]
fn separated_block_of_zeros_has_width_zero() {
    let list: Vec<(u32, u32)> = (0..128u32).map(|i| (i + 1, 0)).collect();
    let (docs, freqs) = encode_postings_separated(&list);
    assert_eq!(docs, {
        let mut v = vec![1u8];
        v.extend(std::iter::repeat(0xFFu8).take(16));
        v
    });
    assert_eq!(freqs, vec![0u8]);
    assert_eq!(decode_postings_separated(&docs, &freqs, 128), list);
}

#[test]
fn separated_full_width_block() {
    let mut list: Vec<(u32, u32)> = (0..128u32).map(|i| (i + 1, u32::MAX - i)).collect();
    list[127].0 = u32::MAX;
    let (docs, freqs) = encode_postings_separated(&list);
    assert_eq!(freqs[0], 32);
    assert_eq!(freqs.len(), 1 + 512);
    assert_eq!(docs[0], 32);
    assert_eq!(decode_postings_separated(&docs, &freqs, 128), list);
}

#[test]
fn four_hundred_postings_three_blocks_and_a_tail_of_sixteen() {
    let list = four_hundred();
    assert_eq!(list.len(), 400);
    assert_eq!(&list[..3], &[(1, 3), (2, 1), (5, 7)]);
    assert_eq!(list[399].1, 2);
    let (docs, freqs) = encode_postings_separated(&list);
    assert_eq!(decode_postings_separated(&docs, &freqs, 400), list);
    for stream in [&docs, &freqs] {
        let mut pos = 0usize;
        for _ in 0..3 {
            let bits = stream[pos] as usize;
            assert!(bits <= 32);
            pos += 1 + 16 * bits;
        }
        let mut tail = 0;
        while pos < stream.len() {
            let (_, next) = decode_varint(stream, pos);
            pos = next;
            tail += 1;
        }
        assert_eq!(tail, 16);
    }
}

#[test]
fn separated_decoder_stops_at_a_missing_block() {
    let list = sample(300);
    let (docs, freqs) = encode_postings_separated(&list);
    let first = 1 + 16 * docs[0] as usize;
    let cut = &docs[..first + 3];
    assert_eq!(decode_postings_separated(cut, &freqs, 300), list[..128].to_vec());
    assert!(decode_postings_separated(&[], &freqs, 300).is_empty());
    assert!(decode_postings_separated(&[33], &[33], 128).is_empty());
}

#[test]
fn separated_tail_cut_short_reads_zero_gaps() {
    let got = decode_postings_separated(&[4], &[9], 3);
    assert_eq!(got, vec![(4, 9), (4, 0), (4, 0)]);
}

#[test]
fn cursor_agrees_with_the_decoder_around_block_boundaries() {
    for n in [0usize, 1, 127, 128, 129, 255, 256, 257, 400] {
        let list = sample(n);
        let (docs, freqs) = encode_postings_separated(&list);
        let straight = decode_postings_separated(&docs, &freqs, n);
        let mut cursor = PostingsIter::new(&docs, &freqs, n);
        let mut walked = Vec::new();
        while let Some(p) = cursor.next() {
            walked.push(p);
        }
        assert_eq!(walked, straight, "n = {}", n);
        assert_eq!(cursor.next(), None);
        let mut again = PostingsIter::new(&docs, &freqs, n);
        assert_eq!(again.collect_remaining(), straight);
    }
}

#[test]
fn cursor_ends_at_a_missing_block() {
    let list = sample(300);
    let (docs, freqs) = encode_postings_separated(&list);
    let first = 1 + 16 * docs[0] as usize;
    let mut cursor = PostingsIter::new(&docs[..first + 2], &freqs, 300);
    assert_eq!(cursor.collect_remaining(), list[..128].to_vec());
    assert_eq!(cursor.next(), None);
    let mut empty = PostingsIter::new(&[], &[], 0);
    assert_eq!(empty.next(), None);
}
