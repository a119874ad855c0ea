use searchkit::adapter::inv_adapter::{compute_doc_lens, InvertedAdapter, InvertedReader};
use searchkit::index::inverted::{
    bytes_less, decode_postings, encode_postings, DictEntry, InvBuilder, InvError, InvertedIndex,
};
use searchkit::query::phrase::{adjacent_hits, phrase_query};
use searchkit::rank::topk::top_k;
use searchkit::text::tokenize::tokenize;

fn two_docs() -> InvertedIndex {
    let mut b = InvBuilder::default();
    b.add_doc(1, "the cat sat on the mat");
    b.add_doc(2, "the cat ate the rat");
    b.finalize()
}

#[test]
fn build_and_read() {
    let mut b = InvBuilder::default();
    b.add_doc(1, "the cat sat on the mat");
    b.add_doc(2, "the cat ate the rat");
    let inv = b.finalize();
    assert_eq!(inv.postings("cat").len(), 2);
}

#[test]
fn inverted_over_two_docs() {
    let inv = two_docs();
    assert_eq!(inv.postings("cat"), vec![(1, vec![1]), (2, vec![1])]);
    assert_eq!(inv.postings("the"), vec![(1, vec![0, 4]), (2, vec![0, 3])]);
    assert_eq!(inv.postings("rat"), vec![(2, vec![4])]);
    assert_eq!(inv.postings("dog"), vec![]);
    assert_eq!(inv.postings(""), vec![]);
}

#[test]
fn terms_come_in_ascending_order() {
    let inv = two_docs();
    let terms: Vec<String> =
        inv.terms().into_iter().map(|t| String::from_utf8(t).unwrap()).collect();
    assert_eq!(terms, vec!["ate", "cat", "mat", "on", "rat", "sat", "the"]);
}

#[test]
fn postings_blob_exact_bytes() {
    let inv = two_docs();
    let at = inv.lookup(b"the").unwrap();
    assert_eq!(inv.dict[at].blob, vec![1, 2, 0, 4, 1, 2, 0, 3]);
    let list = vec![(0u32, vec![0u32]), (300, vec![5, 6, 200])];
    let blob = encode_postings(&list);
    assert_eq!(blob, vec![0, 1, 0, 0xac, 0x02, 3, 5, 1, 0xc2, 0x01]);
    assert_eq!(decode_postings(&blob), Ok(list));
}

#[test]
fn round_trip_of_a_corpus() {
    let docs = ["a b a c", "", "b b b", "c a   b\ta\n", "zebra"];
    let mut b = InvBuilder::new();
    for (d, text) in docs.iter().enumerate() {
        b.add_doc(d as u32 * 3, text);
    }
    let inv = b.finalize();
    for term in ["a", "b", "c", "zebra", "nothing"] {
        let mut expected = Vec::new();
        for (d, text) in docs.iter().enumerate() {
            let pos: Vec<u32> = text
                .split_whitespace()
                .enumerate()
                .filter(|(_, t)| *t == term)
                .map(|(i, _)| i as u32)
                .collect();
            if !pos.is_empty() {
                expected.push((d as u32 * 3, pos));
            }
        }
        assert_eq!(inv.postings(term), expected);
    }
}

#[test]
fn corrupt_postings_are_rejected() {
    assert_eq!(decode_postings(&[]), Ok(vec![]));
    assert_eq!(decode_postings(&[1]), Err(InvError::CorruptPostings));
    assert_eq!(decode_postings(&[1, 2, 0]), Err(InvError::CorruptPostings));
    assert_eq!(decode_postings(&[1, 1, 0, 0, 1, 0]), Err(InvError::CorruptPostings));
    assert_eq!(decode_postings(&[1, 2, 3, 0]), Err(InvError::CorruptPostings));
    assert_eq!(decode_postings(&[0x80], ), Err(InvError::CorruptPostings));
    assert_eq!(
        decode_postings(&[0xff, 0xff, 0xff, 0xff, 0x0f, 0, 1, 0]),
        Err(InvError::CorruptPostings)
    );
    assert_eq!(decode_postings(&[0xff, 0xff, 0xff, 0xff, 0x0f, 0]), Err(InvError::CorruptPostings));
    assert_eq!(
        decode_postings(&[0xff, 0xff, 0xff, 0xff, 0x0f, 1, 0]),
        Ok(vec![(u32::MAX, vec![0])])
    );
}

#[test]
fn dictionary_is_checked_when_taken() {
    let good = vec![
        DictEntry { term: b"a".to_vec(), blob: vec![1, 1, 0] },
        DictEntry { term: b"ab".to_vec(), blob: vec![] },
    ];
    let inv = InvertedIndex::from_dict(good).ok().unwrap();
    assert_eq!(inv.postings("a"), vec![(1, vec![0])]);
    let corrupt = vec![DictEntry { term: b"a".to_vec(), blob: vec![1] }];
    assert!(matches!(InvertedIndex::from_dict(corrupt), Err(InvError::CorruptPostings)));
    let unordered = vec![
        DictEntry { term: b"b".to_vec(), blob: vec![] },
        DictEntry { term: b"a".to_vec(), blob: vec![] },
    ];
    assert!(matches!(InvertedIndex::from_dict(unordered), Err(InvError::UnorderedTerms)));
    let twice = vec![
        DictEntry { term: b"a".to_vec(), blob: vec![] },
        DictEntry { term: b"a".to_vec(), blob: vec![] },
    ];
    assert!(matches!(InvertedIndex::from_dict(twice), Err(InvError::UnorderedTerms)));
}

#[test]
fn term_order_is_lexicographic_on_bytes() {
    assert!(bytes_less(b"", b"a"));
    assert!(bytes_less(b"a", b"ab"));
    assert!(bytes_less(b"ab", b"b"));
    assert!(!bytes_less(b"b", b"ab"));
    assert!(!bytes_less(b"a", b"a"));
    assert!(bytes_less(b"a", &[0xc3, 0xa9]));
}

#[test]
fn tokenizer_splits_on_whitespace() {
    assert_eq!(tokenize(""), Vec::<Vec<u8>>::new());
    assert_eq!(tokenize("  \t\n"), Vec::<Vec<u8>>::new());
    assert_eq!(tokenize("the  cat\tsat\n"), vec![b"the".to_vec(), b"cat".to_vec(), b"sat".to_vec()]);
    assert_eq!(tokenize("x"), vec![b"x".to_vec()]);
}

#[test]
fn phrase_queries_over_two_docs() {
    let inv = two_docs();
    assert_eq!(phrase_query(&inv, &["the", "cat"]), vec![1, 2]);
    assert_eq!(phrase_query(&inv, &["cat", "sat"]), vec![1]);
    assert_eq!(phrase_query(&inv, &["cat", "ate"]), vec![2]);
    assert_eq!(phrase_query(&inv, &["the", "cat", "ate", "the", "rat"]), vec![2]);
    assert_eq!(phrase_query(&inv, &["cat", "the"]), Vec::<u32>::new());
    assert_eq!(phrase_query(&inv, &["the", "dog"]), Vec::<u32>::new());
    assert_eq!(phrase_query(&inv, &[]), Vec::<u32>::new());
    assert_eq!(phrase_query(&inv, &["the"]), vec![1, 2]);
}

#[test]
fn phrase_matches_naive_scan() {
    let docs = ["a b a b c", "b a b", "c c a b a", "a", "b c a b c a b", ""];
    let mut b = InvBuilder::new();
    for (d, text) in docs.iter().enumerate() {
        b.add_doc(d as u32, text);
    }
    let inv = b.finalize();
    let phrases: [&[&str]; 7] =
        [&["a", "b"], &["b", "a"], &["a", "b", "c"], &["c", "a", "b"], &["c", "c"], &["a", "a"], &["b", "c", "a", "b"]];
    for phrase in phrases.iter() {
        let mut expected = Vec::new();
        for (d, text) in docs.iter().enumerate() {
            let toks: Vec<&str> = text.split_whitespace().collect();
            if toks.windows(phrase.len()).any(|w| w == *phrase) {
                expected.push(d as u32);
            }
        }
        assert_eq!(phrase_query(&inv, phrase), expected);
    }
}

#[test]
fn adjacent_positions() {
    assert_eq!(adjacent_hits(&vec![0, 4, 9], &vec![1, 2, 5, 11]), vec![1, 5]);
    assert_eq!(adjacent_hits(&vec![u32::MAX], &vec![0]), Vec::<u32>::new());
    assert_eq!(adjacent_hits(&vec![], &vec![1]), Vec::<u32>::new());
}

#[test]
fn adapter_reads_frequencies_and_lengths() {
    let adapter = InvertedAdapter::from_index(two_docs());
    assert_eq!(adapter.num_docs(), 3);
    assert_eq!(adapter.postings(b"the"), vec![(1, 2), (2, 2)]);
    assert_eq!(adapter.postings(b"dog"), vec![]);
    assert_eq!(adapter.doc_len(1), Some(6));
    assert_eq!(adapter.doc_len(2), Some(5));
    assert_eq!(adapter.doc_len(0), None);
    assert_eq!(adapter.terms().len(), 7);
    let lens = compute_doc_lens(&adapter);
    assert_eq!(lens.len(), 2);
    assert_eq!(lens.get(&1), Some(&6));
    assert_eq!(lens.get(&2), Some(&5));
    let empty = InvertedAdapter::from_index(InvBuilder::new().finalize());
    assert_eq!(empty.num_docs(), 0);
    assert_eq!(compute_doc_lens(&empty).len(), 0);
}

#[test]
fn top_k_orders_by_key_then_document() {
    let items = vec![(5u32, 9u32), (7, 2), (5, 1), (0, 4), (u32::MAX, 3), (7, 1)];
    assert_eq!(top_k(&items, 4), vec![(u32::MAX, 3), (7, 1), (7, 2), (5, 1)]);
    assert_eq!(
        top_k(&items, 100),
        vec![(u32::MAX, 3), (7, 1), (7, 2), (5, 1), (5, 9), (0, 4)]
    );
    assert_eq!(top_k(&items, 0), vec![]);
    assert_eq!(top_k(&vec![], 3), vec![]);
    assert_eq!(top_k(&vec![(1, u32::MAX), (1, 0)], 1), vec![(1, 0)]);
}
