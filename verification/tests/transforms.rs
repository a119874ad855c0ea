use searchkit::index::bwt::bwt_from_sa;
use searchkit::index::fmindex::{FMIndex, MatchRange};
use searchkit::index::lcp::kasai_lcp;
use searchkit::index::suffix_array::build_sa;
use searchkit::util::bytes::LoadError;
use searchkit::util::varint::VarintError;

#[test]
fn transform_of_banana_with_its_primary_row() {
    let s = b"banana$";
    let sa = vec![6, 5, 3, 1, 0, 4, 2];
    let (bwt, primary) = bwt_from_sa(s, &sa);
    assert_eq!(String::from_utf8(bwt).unwrap(), "annb$aa");
    assert_eq!(sa[primary], 0);
    assert_eq!(primary, 4);
}

#[test]
fn transform_without_offset_zero_has_primary_zero() {
    let (bwt, primary) = bwt_from_sa(b"ab$", &[2, 1]);
    assert_eq!(bwt, b"ba".to_vec());
    assert_eq!(primary, 0);
}

#[test]
fn lcp_basic() {
    let s = b"banana$";
    let sa = vec![6, 5, 3, 1, 0, 4, 2];
    assert_eq!(kasai_lcp(s, &sa), vec![0, 0, 1, 3, 0, 0, 2]);
}

#[test]
fn sa_basic() {
    let s = b"banana$";
    assert_eq!(build_sa(s), vec![6, 5, 3, 1, 0, 4, 2]);
}

#[test]
fn sa_of_empty_and_single() {
    assert_eq!(build_sa(b""), Vec::<usize>::new());
    assert_eq!(build_sa(b"$"), vec![0]);
}

fn build_fm(text: &[u8], k: usize) -> (FMIndex, Vec<usize>) {
    let sa = build_sa(text);
    let (bwt, _) = bwt_from_sa(text, &sa);
    (FMIndex::build(text, &sa, &bwt, k), sa)
}

fn occurrences(text: &[u8], pat: &[u8]) -> Vec<usize> {
    let body = &text[..text.len() - 1];
    let mut found = Vec::new();
    if pat.len() <= body.len() {
        for p in 0..=body.len() - pat.len() {
            if &body[p..p + pat.len()] == pat {
                found.push(p);
            }
        }
    }
    found
}

#[test]
fn fm_substring_abracadabra() {
    let (fm, _) = build_fm(b"abracadabra$", 2);
    let range = fm.backward_search(b"abra").unwrap();
    assert_eq!(range.r - range.l, 2);
    let mut locs = fm.locate_range(&range, 10);
    locs.sort_unstable();
    assert_eq!(locs, vec![0, 7]);
    assert_eq!(fm.locate_range(&range, 1).len(), 1);
    assert_eq!(fm.locate_range(&range, 0).len(), 0);
}

#[test]
fn fm_empty_pattern_and_no_match() {
    let (fm, _) = build_fm(b"abracadabra$", 3);
    assert_eq!(fm.backward_search(b""), Some(MatchRange { l: 0, r: 12 }));
    assert_eq!(fm.backward_search(b"xyz"), None);
    assert_eq!(fm.backward_search(b"abrab"), None);
    assert_eq!(fm.n, 12);
    assert_eq!(fm.sa_sample, 3);
}

#[test]
fn fm_sampling_period_zero_samples_every_row() {
    let (fm, sa) = build_fm(b"mississippi$", 0);
    assert_eq!(fm.sa_sample, 1);
    for r in 0..sa.len() {
        assert!(fm.is_sampled(r));
        assert_eq!(fm.locate(r as u64), sa[r]);
    }
}

#[test]
fn fm_locate_gives_the_suffix_array() {
    let text = b"the cat sat on the mat and the cat ate the rat$";
    for k in [1usize, 2, 3, 5, 8, 100] {
        let (fm, sa) = build_fm(text, k);
        for r in 0..sa.len() {
            assert_eq!(fm.locate(r as u64), sa[r]);
            assert_eq!(fm.is_sampled(r), r % k == 0);
        }
    }
}

#[test]
fn fm_counts_and_places_every_occurrence() {
    let text = b"abracadabra abracadabra banana bandana$";
    let (fm, _) = build_fm(text, 4);
    let patterns: [&[u8]; 9] = [b"a", b"abra", b"ana", b"ban", b"dab", b" ", b"nan", b"q", b"abracadabra "];
    for pat in patterns.iter() {
        let expected = occurrences(text, pat);
        match fm.backward_search(pat) {
            None => assert!(expected.is_empty()),
            Some(range) => {
                assert_eq!((range.r - range.l) as usize, expected.len());
                let mut locs = fm.locate_range(&range, usize::MAX);
                for &p in locs.iter() {
                    assert_eq!(&text[p..p + pat.len()], *pat);
                }
                locs.sort_unstable();
                assert_eq!(locs, expected);
            }
        }
    }
}

#[test]
fn fm_lf_walks_the_text_backwards() {
    let text = b"banana$";
    let (fm, sa) = build_fm(text, 1);
    for r in 0..sa.len() {
        let to = fm.lf(r as u64) as usize;
        assert_eq!(sa[to], (sa[r] + text.len() - 1) % text.len());
    }
    assert_eq!(fm.occ_rank(b'a', 7), 3);
    assert_eq!(fm.occ_rank(b'n', 3), 2);
}

#[test]
fn fm_rle_exact_bytes() {
    assert_eq!(FMIndex::encode_bwt_rle(b""), Vec::<u8>::new());
    assert_eq!(FMIndex::encode_bwt_rle(b"aaabcc"), vec![b'a', 3, b'b', 1, b'c', 2]);
    let long = vec![b'z'; 300];
    assert_eq!(FMIndex::encode_bwt_rle(&long), vec![b'z', 0xac, 0x02]);
    assert_eq!(FMIndex::decode_bwt_rle(&[b'z', 0xac, 0x02], 300), Ok(long));
    assert_eq!(FMIndex::decode_bwt_rle(&[b'a', 3, b'b', 1], 4), Ok(b"aaab".to_vec()));
}

#[test]
fn fm_rle_decode_errors() {
    assert_eq!(FMIndex::decode_bwt_rle(&[b'a', 3], 4), Err(LoadError::BwtLengthMismatch));
    assert_eq!(FMIndex::decode_bwt_rle(&[b'a', 3], 2), Err(LoadError::BwtLengthMismatch));
    assert_eq!(
        FMIndex::decode_bwt_rle(&[b'a'], 1),
        Err(LoadError::Varint(VarintError::VarintOverflow))
    );
    assert_eq!(
        FMIndex::decode_bwt_rle(&[b'a', 9, b'b', 0x80], 2),
        Err(LoadError::Varint(VarintError::VarintOverflow))
    );
    let mut long = vec![b'a'];
    long.extend_from_slice(&[0x80; 10]);
    assert_eq!(
        FMIndex::decode_bwt_rle(&long, 1),
        Err(LoadError::Varint(VarintError::VarintTooLong))
    );
}

#[test]
fn fm_round_trip() {
    let text = b"she sells sea shells by the sea shore$";
    let (fm, _) = build_fm(text, 3);
    let bytes = fm.to_bytes();
    assert_eq!(&bytes[0..4], b"FMX2");
    assert_eq!(&bytes[4..12], &(text.len() as u64).to_le_bytes());
    assert_eq!(&bytes[12..20], &3u64.to_le_bytes());
    let loaded = FMIndex::from_bytes(&bytes).unwrap();
    assert_eq!(loaded.n, fm.n);
    assert_eq!(loaded.sa_sample, fm.sa_sample);
    assert_eq!(loaded.bwt, fm.bwt);
    assert_eq!(loaded.c, fm.c);
    let patterns: [&[u8]; 10] =
        [b"s", b"se", b"sea", b"sh", b"shells", b"e", b" ", b"the", b"zebra", b"ore"];
    for pat in patterns.iter() {
        let a = fm.backward_search(pat);
        let b = loaded.backward_search(pat);
        assert_eq!(a, b);
        if let (Some(ra), Some(rb)) = (a, b) {
            assert_eq!(fm.locate_range(&ra, 100), loaded.locate_range(&rb, 100));
        }
    }
}

#[test]
fn fm_load_errors() {
    let (fm, _) = build_fm(b"abracadabra$", 2);
    let bytes = fm.to_bytes();
    assert!(matches!(FMIndex::from_bytes(&bytes[..3]), Err(LoadError::ShortRead)));
    let mut bad = bytes.clone();
    bad[3] = b'1';
    assert!(matches!(FMIndex::from_bytes(&bad), Err(LoadError::BadMagic)));
    assert!(matches!(FMIndex::from_bytes(&bytes[..100]), Err(LoadError::ShortRead)));
    assert!(matches!(FMIndex::from_bytes(&bytes[..bytes.len() - 1]), Err(LoadError::ShortRead)));
    let mut bad = bytes.clone();
    bad[4] = 13;
    assert!(matches!(FMIndex::from_bytes(&bad), Err(LoadError::BwtLengthMismatch)));
    let mut bad = bytes.clone();
    bad[4..12].copy_from_slice(&0u64.to_le_bytes());
    assert!(matches!(FMIndex::from_bytes(&bad), Err(LoadError::Malformed)));
    let mut bad = bytes.clone();
    bad[20] = 1;
    assert!(matches!(FMIndex::from_bytes(&bad), Err(LoadError::Malformed)));
    let mut bad = bytes.clone();
    bad[2068..2076].copy_from_slice(&1u64.to_le_bytes());
    assert!(matches!(
        FMIndex::from_bytes(&bad),
        Err(LoadError::Varint(VarintError::VarintOverflow))
    ));
}
