use searchkit::util::bitvec::RankBitVec;
use searchkit::util::bytes::LoadError;
use searchkit::util::rrr::CompressedFlags;
use searchkit::util::varint::{
    decode_u64s_varint_delta, decode_varint, delta_decode, delta_encode, encode_u64s_varint_delta,
    encode_varint, VarintError,
};

#[test]
fn roundtrip() {
    let xs = vec![1, 2, 3, 10, 100, 1000, 10000, 100000];
    let buf = encode_u64s_varint_delta(xs.clone());
    let ys = decode_u64s_varint_delta(&buf).unwrap();
    assert_eq!(xs, ys);
}

#[test]
fn small() {
    let r = RankBitVec::from_bits(vec![0b01101001u8 as u64]);
    assert_eq!(r.rank1(0), 0);
    assert_eq!(r.rank1(1), 1);
    assert_eq!(r.rank1(4), 2);
}

#[test]
fn varint_exact_bytes() {
    let mut out = Vec::new();
    encode_varint(0, &mut out);
    assert_eq!(out, vec![0x00]);
    let mut out = Vec::new();
    encode_varint(127, &mut out);
    assert_eq!(out, vec![0x7f]);
    let mut out = Vec::new();
    encode_varint(128, &mut out);
    assert_eq!(out, vec![0x80, 0x01]);
    let mut out = Vec::new();
    encode_varint(300, &mut out);
    assert_eq!(out, vec![0xac, 0x02]);
    let mut out = vec![9u8];
    encode_varint(u64::MAX, &mut out);
    assert_eq!(out.len(), 11);
    assert_eq!(out[0], 9);
    assert_eq!(out[10], 0x01);
}

#[test]
fn varint_decode_roundtrip_values() {
    let values = [0u64, 1, 127, 128, 255, 16383, 16384, 1 << 32, (1 << 63) + 5, u64::MAX];
    for &x in values.iter() {
        let mut buf = vec![0xffu8, 0x01];
        let at = buf.len();
        encode_varint(x, &mut buf);
        let end = buf.len();
        buf.push(0x55);
        assert_eq!(decode_varint(&buf, at), Ok((x, end)));
    }
}

#[test]
fn varint_decode_errors() {
    assert_eq!(decode_varint(&[], 0), Err(VarintError::VarintOverflow));
    assert_eq!(decode_varint(&[0x80], 0), Err(VarintError::VarintOverflow));
    assert_eq!(decode_varint(&[0x01], 1), Err(VarintError::VarintOverflow));
    assert_eq!(decode_varint(&[0x80; 10], 0), Err(VarintError::VarintTooLong));
    assert_eq!(decode_varint(&[0x80; 11], 0), Err(VarintError::VarintTooLong));
    let mut nine = vec![0x80u8; 9];
    assert_eq!(decode_varint(&nine, 0), Err(VarintError::VarintOverflow));
    nine.push(0x01);
    assert_eq!(decode_varint(&nine, 0), Ok((1u64 << 63, 10)));
}

#[test]
fn delta_encode_sorts_first() {
    assert_eq!(delta_encode(vec![10, 3, 7]), vec![3, 4, 3]);
    assert_eq!(delta_encode(vec![]), Vec::<u64>::new());
    assert_eq!(delta_encode(vec![5, 5]), vec![5, 0]);
}

#[test]
fn delta_decode_sums_up() {
    assert_eq!(delta_decode(vec![3, 4, 3]), vec![3, 7, 10]);
    assert_eq!(delta_decode(vec![u64::MAX, 2]), vec![u64::MAX, 1]);
}

#[test]
fn delta_chain_undoes_itself_on_sorted_input() {
    let s = vec![0u64, 0, 4, 9, 9, 1 << 40, u64::MAX];
    assert_eq!(delta_decode(delta_encode(s.clone())), s);
}

#[test]
fn delta_varint_decode_reports_errors() {
    assert_eq!(decode_u64s_varint_delta(&[0x01, 0x80]), Err(VarintError::VarintOverflow));
    assert_eq!(decode_u64s_varint_delta(&[0x80; 12]), Err(VarintError::VarintTooLong));
    assert_eq!(decode_u64s_varint_delta(&[]), Ok(vec![]));
}

fn naive_rank(words: &[u64], pos: usize) -> u64 {
    let mut count = 0;
    for i in 0..pos {
        if (words[i / 64] >> (i % 64)) & 1 == 1 {
            count += 1;
        }
    }
    count
}

#[test]
fn rank_matches_naive_count_at_every_position() {
    let mut words = Vec::new();
    let mut x: u64 = 0x9e3779b97f4a7c15;
    for _ in 0..19 {
        x ^= x << 13;
        x ^= x >> 7;
        x ^= x << 17;
        words.push(x);
    }
    words[3] = u64::MAX;
    words[4] = 0;
    let r = RankBitVec::from_bits(words.clone());
    let mut last = 0;
    for pos in 0..=words.len() * 64 {
        let got = r.rank1(pos);
        assert_eq!(got, naive_rank(&words, pos));
        assert!(got >= last);
        last = got;
    }
}

#[test]
fn rank_counts_bit_62_at_position_63() {
    let r = RankBitVec::from_bits(vec![(1u64 << 62) | (1u64 << 63), 1]);
    assert_eq!(r.rank1(62), 0);
    assert_eq!(r.rank1(63), 1);
    assert_eq!(r.rank1(64), 2);
    assert_eq!(r.rank1(65), 3);
    assert_eq!(r.rank1(128), 3);
}

#[test]
fn rank_of_empty_bitvector() {
    let r = RankBitVec::from_bits(vec![]);
    assert_eq!(r.rank1(0), 0);
}

#[test]
fn sparse_rank_counts_marks_below() {
    let f = CompressedFlags::build(2000, &[1500, 0, 512, 3, 1999]);
    assert_eq!(f.rank1(0), 0);
    assert_eq!(f.rank1(1), 1);
    assert_eq!(f.rank1(3), 1);
    assert_eq!(f.rank1(4), 2);
    assert_eq!(f.rank1(512), 2);
    assert_eq!(f.rank1(513), 3);
    assert_eq!(f.rank1(1500), 3);
    assert_eq!(f.rank1(1501), 4);
    assert_eq!(f.rank1(1999), 4);
    assert_eq!(f.rank1(2000), 5);
    assert_eq!(f.num_bits(), 2000);
    assert_eq!(f.num_ones(), 5);
}

#[test]
fn sparse_flags_save_layout_and_load() {
    let f = CompressedFlags::build(600, &[2, 513]);
    let mut out = vec![0xaau8];
    f.save(&mut out);
    let mut expected = vec![0xaau8];
    expected.extend_from_slice(&600u64.to_le_bytes());
    expected.extend_from_slice(&3u64.to_le_bytes());
    for v in [0u32, 1, 2] {
        expected.extend_from_slice(&v.to_le_bytes());
    }
    expected.extend_from_slice(&2u64.to_le_bytes());
    for v in [2u32, 513] {
        expected.extend_from_slice(&v.to_le_bytes());
    }
    assert_eq!(out, expected);
    let (g, next) = CompressedFlags::load(&out, 1).unwrap();
    assert_eq!(next, out.len());
    for pos in 0..=600 {
        assert_eq!(g.rank1(pos), f.rank1(pos));
    }
}

#[test]
fn sparse_flags_load_errors() {
    let f = CompressedFlags::build(600, &[2, 513]);
    let mut out = Vec::new();
    f.save(&mut out);
    assert!(matches!(CompressedFlags::load(&out[..out.len() - 1], 0), Err(LoadError::ShortRead)));
    assert!(matches!(CompressedFlags::load(&out[..7], 0), Err(LoadError::ShortRead)));
    let mut bad = out.clone();
    let at = bad.len() - 4;
    bad[at..].copy_from_slice(&1u32.to_le_bytes());
    assert!(matches!(CompressedFlags::load(&bad, 0), Err(LoadError::Malformed)));
    let mut bad = out.clone();
    bad[16] = 7;
    assert!(matches!(CompressedFlags::load(&bad, 0), Err(LoadError::Malformed)));
}
