//! Tests for the vocabulary, the mappings, the ring buffer, the token
//! lexers and the binary headers.

use kenlm_rs::builder::{LoadMethod, ModelBuilder, KENLM_MAX_ORDER};
use kenlm_rs::counts::{Counts, NGramCardinality};
use kenlm_rs::headers::{FixedParameters, Sanity, sanity_reference, SANITY_HEADER_BYTES};
use kenlm_rs::mapping::{BidirectionalMapping, HashMapVecMap, Mappings, NoOPMapping};
use kenlm_rs::ngram::{vec_into_bytes, ToByteVec};
use kenlm_rs::ring::RingBuffer;
use kenlm_rs::text::{float_token, parse_usize_token, split_ascii_ws};
use kenlm_rs::vocab::BidiMapping;
use kenlm_rs::Error;

#[test]
fn vocab_assigns_dense_insertion_ordered_ids() {
    let mut v = BidiMapping::default();
    assert_eq!(v.insert_or_get("have".to_string()), 0);
    assert_eq!(v.insert_or_get("a".to_string()), 1);
    assert_eq!(v.insert_or_get("have".to_string()), 0);
    assert_eq!(v.len(), 2);
    assert_eq!(v.get_index("a"), Some(1));
    assert_eq!(v.get_index("missing"), None);
    assert_eq!(v.get_value(0), Some("have".to_string()));
    assert_eq!(v.get_value(9), None);
    assert_eq!(v.values(), &vec!["have".to_string(), "a".to_string()]);
}

#[test]
fn hash_map_vec_map_round_trips() {
    let mut m = HashMapVecMap::default();
    assert_eq!(m.insert_or_get_index("x".to_string()), 0);
    assert_eq!(m.insert_or_get_index("y".to_string()), 1);
    assert_eq!(m.insert_or_get_index("x".to_string()), 0);
    assert_eq!(m.get_index(&"y".to_string()), Some(1));
    assert_eq!(m.get_value(1), Some("y".to_string()));
    assert_eq!(m.len(), 2);
}

#[test]
fn noop_mapping_answers_defaults() {
    let mut m = NoOPMapping;
    assert_eq!(m.insert_or_get_index("x".to_string()), 0);
    assert_eq!(m.get_index(&"x".to_string()), None);
    assert_eq!(m.get_value(0), None);
    assert_eq!(m.len(), 0);
}

#[test]
fn mappings_dispatch() {
    let mut m = Mappings::default();
    assert_eq!(m.insert_or_get_index("x".to_string()), 0);
    assert_eq!(m.get_index(&"x".to_string()), Some(0));
    let mut n = Mappings::NoOp;
    assert_eq!(n.insert_or_get_index("x".to_string()), 0);
    assert_eq!(n.get_index(&"x".to_string()), None);
}

#[test]
fn ring_window_keeps_most_recent_words() {
    let mut rb = RingBuffer::new(3);
    for n in [1u32, 2, 3, 4, 5] {
        rb.push(n, format!("-{n}.0"), "-0.1".to_string());
    }
    assert_eq!(rb.len(), 3);
    assert_eq!(rb.words, vec![3, 4, 5]);
    assert_eq!(rb.log_probs, vec!["-3.0".to_string(), "-4.0".to_string(), "-5.0".to_string()]);
}

#[test]
fn ring_grows_until_capacity() {
    let mut rb = RingBuffer::new(3);
    assert_eq!(rb.len(), 0);
    rb.push(7, "-1.0".to_string(), "0".to_string());
    assert_eq!(rb.len(), 1);
    rb.push(8, "-1.0".to_string(), "0".to_string());
    assert_eq!(rb.len(), 2);
    rb.push(9, "-1.0".to_string(), "0".to_string());
    rb.push(10, "-1.0".to_string(), "0".to_string());
    assert_eq!(rb.len(), 3);
    assert_eq!(rb.words, vec![8, 9, 10]);
}

#[test]
fn float_token_shapes() {
    assert!(float_token("-0.25"));
    assert!(float_token("0.30103"));
    assert!(float_token("1e5"));
    assert!(float_token("-1.5E-3"));
    assert!(float_token("3."));
    assert!(float_token(".5"));
    assert!(float_token("inf"));
    assert!(float_token("-Infinity"));
    assert!(float_token("NaN"));
    assert!(!float_token(""));
    assert!(!float_token("."));
    assert!(!float_token("abc"));
    assert!(!float_token("1.2.3"));
    assert!(!float_token("--1"));
    assert!(!float_token("1e"));
}

#[test]
fn usize_tokens() {
    assert_eq!(parse_usize_token("0"), Some(0));
    assert_eq!(parse_usize_token("4415"), Some(4415));
    assert_eq!(parse_usize_token("+7"), Some(7));
    assert_eq!(parse_usize_token(""), None);
    assert_eq!(parse_usize_token("12a"), None);
    assert_eq!(parse_usize_token("99999999999999999999999999"), None);
}

#[test]
fn splits_on_ascii_whitespace() {
    let toks = split_ascii_ws("  -0.5\thave a\r\n");
    assert_eq!(
        toks,
        vec!["-0.5".to_string(), "have".to_string(), "a".to_string()]
    );
    assert_eq!(split_ascii_ws("   "), Vec::<String>::new());
}

#[test]
fn key_encoding_reverses_word_chunks() {
    let v: Vec<u32> = vec![1, 2];
    assert_eq!(vec_into_bytes(&v), vec![2u8, 0, 0, 0, 1, 0, 0, 0]);
    assert_eq!(vec_into_bytes(&Vec::new()), Vec::<u8>::new());
    assert_eq!(v.to_bytes(), vec![2u8, 0, 0, 0, 1, 0, 0, 0]);
}

#[test]
fn text_key_encoding_reverses_tokens_too() {
    let s = "a b".to_string();
    assert_eq!(s.to_word_chunks(), vec![vec![b'b'], vec![b'a']]);
    assert_eq!(s.to_bytes(), vec![b'b', b'a']);
}

#[test]
fn counts_reject_duplicates_and_gaps() {
    let dup = vec![
        NGramCardinality { order: 1, cardinality: 5 },
        NGramCardinality { order: 1, cardinality: 6 },
    ];
    assert!(Counts::from_count_vec(dup).is_err());
    let gap = vec![
        NGramCardinality { order: 1, cardinality: 5 },
        NGramCardinality { order: 3, cardinality: 6 },
    ];
    assert!(Counts::from_count_vec(gap).is_err());
    assert!(Counts::from_count_vec(Vec::new()).is_err());
}

#[test]
fn counts_sort_by_order() {
    let c = Counts::from_count_vec(vec![
        NGramCardinality { order: 2, cardinality: 20 },
        NGramCardinality { order: 1, cardinality: 10 },
    ])
    .unwrap();
    assert_eq!(c.order(), 2);
    assert_eq!(c.get(1), Some(NGramCardinality { order: 1, cardinality: 10 }));
    assert_eq!(c.get(2), Some(NGramCardinality { order: 2, cardinality: 20 }));
    assert_eq!(c.get(0), None);
    assert_eq!(c.get(3), None);
    assert_eq!(c.highest_order_count(), NGramCardinality { order: 2, cardinality: 20 });
    assert_eq!(
        c.highest_order_minus_one_counts(),
        vec![NGramCardinality { order: 1, cardinality: 10 }]
    );
    assert_eq!(NGramCardinality::try_from_order_and_cardinality(0, 5).is_err(), true);
}

#[test]
fn sanity_reference_shape() {
    let r = sanity_reference();
    assert_eq!(r.len(), SANITY_HEADER_BYTES);
    assert_eq!(
        &r[..52],
        "mmap lm http://kheafield.com/code format version 5\n\0".as_bytes()
    );
    assert_eq!(&r[56..60], &0.0f32.to_le_bytes());
    assert_eq!(&r[60..64], &1.0f32.to_le_bytes());
    assert_eq!(&r[64..68], &(-0.5f32).to_le_bytes());
    assert_eq!(&r[68..72], &1u32.to_le_bytes());
    assert_eq!(&r[72..76], &u32::MAX.to_le_bytes());
    assert_eq!(&r[80..88], &1u64.to_le_bytes());
}

#[test]
fn sanity_validation() {
    let reference = sanity_reference();
    let s = Sanity::from_bytes(&reference).unwrap();
    assert!(s.matches_reference());
    let builder = ModelBuilder::new("model.bin");
    assert!(builder.verify_sanity(&s).is_ok());

    let mut bad = reference.clone();
    bad[0] = b'x';
    let sb = Sanity::from_bytes(&bad).unwrap();
    assert!(!sb.matches_reference());
    assert!(matches!(builder.verify_sanity(&sb), Err(Error::SanityFormatError)));

    let short: Vec<u8> = vec![0; 10];
    assert!(matches!(Sanity::from_bytes(&short), Err(Error::SanityFormatError)));
}

#[test]
fn fixed_parameters_decode() {
    let mut data: Vec<u8> = Vec::new();
    data.push(3);  // order
    data.extend_from_slice(&[0, 0, 0]);  // padding
    data.extend_from_slice(&1.5f32.to_bits().to_le_bytes());
    data.extend_from_slice(&2u32.to_le_bytes());  // model type
    data.push(1);  // has vocabulary
    data.extend_from_slice(&[0, 0, 0]);  // padding
    data.extend_from_slice(&1u32.to_le_bytes());  // search version
    let p = FixedParameters::from_bytes(&data).unwrap();
    assert_eq!(
        p,
        FixedParameters {
            order: 3,
            probing_multiplier: 1.5f32.to_bits(),
            model_type: 2,
            has_vocabulary: 1,
            search_version: 1,
        }
    );
    assert!(p.has_vocabulary());
    assert!(matches!(
        FixedParameters::from_bytes(&vec![1, 2, 3]),
        Err(Error::ParamHeaderFormatError)
    ));
}

#[test]
fn binary_counts_decode() {
    let mut data: Vec<u8> = vec![0xaa; 4];  // unrelated leading bytes
    data.extend_from_slice(&24u64.to_le_bytes());
    data.extend_from_slice(&30u64.to_le_bytes());
    data.extend_from_slice(&40u64.to_le_bytes());
    let c = Counts::from_kenlm_binary(&data, 4, 3).unwrap();
    assert_eq!(c.order(), 3);
    assert_eq!(c.get(1).unwrap().cardinality, 24);
    assert_eq!(c.get(2).unwrap().cardinality, 30);
    assert_eq!(c.get(3).unwrap().cardinality, 40);
    assert!(Counts::from_kenlm_binary(&data, 4, 4).is_err());
    assert!(Counts::from_kenlm_binary(&data, 4, 0).is_err());
}

#[test]
fn builder_checks_order_limits() {
    let builder = ModelBuilder::new("model.arpa").with_load_method(LoadMethod::Read).store_vocab(
        true,
    );
    assert_eq!(builder.load_method, LoadMethod::Read);
    assert!(builder.vocab);

    let ok = Counts::from_count_vec(vec![
        NGramCardinality { order: 1, cardinality: 1 },
        NGramCardinality { order: 2, cardinality: 1 },
    ])
    .unwrap();
    assert!(builder.verify_arpa(&ok).is_ok());

    let mut many: Vec<NGramCardinality> = Vec::new();
    let too_many = KENLM_MAX_ORDER as usize + 1;
    for o in 1..=too_many {
        many.push(NGramCardinality { order: o, cardinality: 1 });
    }
    let big = Counts::from_count_vec(many).unwrap();
    match builder.verify_arpa(&big) {
        Err(Error::IncompatibleMaxOrder { max_order, model_order }) => {
            assert_eq!(max_order, KENLM_MAX_ORDER as usize);
            assert_eq!(model_order, too_many);
        },
        _ => panic!("expected an incompatible order error"),
    }

    let params = FixedParameters {
        order: KENLM_MAX_ORDER + 1,
        probing_multiplier: 0,
        model_type: 0,
        has_vocabulary: 0,
        search_version: 0,
    };
    assert!(matches!(builder.verify(&params), Err(Error::IncompatibleMaxOrder { .. })));
    let no_vocab = FixedParameters { order: 2, ..params };
    assert!(matches!(builder.verify(&no_vocab), Err(Error::ModelHasNoVocab)));
    let fine = FixedParameters { order: 2, has_vocabulary: 1, ..params };
    assert!(builder.verify(&fine).is_ok());
}
