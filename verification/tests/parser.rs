//! Tests for the text model parser and the binary header helpers.

use kenlm_rs::arpa::{read_arpa, ArpaReadError, ArpaReader, StringProcessor};
use kenlm_rs::arpa::matches_ngram_section_header;
use kenlm_rs::counts::{Counts, NGramCardinality};
use kenlm_rs::headers::total_header_size;

fn to_lines(text: &str) -> Vec<String> {
    text.split('\n').map(|s| s.to_string()).collect()
}

fn lm_small_text() -> String {
    let mut t = String::new();
    t.push_str("\\data\\\n");
    t.push_str("ngram 1=12\n");
    t.push_str("ngram 2=13\n");
    t.push_str("ngram 3=12\n");
    t.push_str("\n");
    t.push_str("\\1-grams:\n");
    t.push_str("-1.3424227\t<unk>\t-0.0\n");
    t.push_str("-0.0\t<s>\t-0.30103\n");
    t.push_str("-1.0761548\t</s>\t-0.0\n");
    t.push_str("-0.91229796\ti\t-0.30103\n");
    t.push_str("-1.0761548\thave\t-0.30103\n");
    t.push_str("-0.7936082\ta\t-0.30103\n");
    t.push_str("-1.0761548\tgood\t-0.30103\n");
    t.push_str("-1.0761548\tdeal\t-0.30103\n");
    t.push_str("-1.0761548\tof\t-0.30103\n");
    t.push_str("-1.0761548\twill\t-0.30103\n");
    t.push_str("-1.0761548\tyou\t-0.30103\n");
    t.push_str("-1.0761548\tremember\t-0.30103\n");
    t.push_str("\n");
    t.push_str("\\2-grams:\n");
    t.push_str("-0.68063426\ta </s>\t-0.0\n");
    t.push_str("-0.250891\t<s> i\t-0.30103\n");
    t.push_str("-0.250891\tremember i\t-0.30103\n");
    t.push_str("-0.5346796\ti have\t-0.30103\n");
    t.push_str("-0.4809342\ti a\t-0.30103\n");
    t.push_str("-0.23625793\thave a\t-0.30103\n");
    t.push_str("-0.6071514\ta a\t-0.30103\n");
    t.push_str("-0.68063426\ta good\t-0.30103\n");
    t.push_str("-0.26603433\tgood deal\t-0.30103\n");
    t.push_str("-0.26603433\tdeal of\t-0.30103\n");
    t.push_str("-0.26603433\tof will\t-0.30103\n");
    t.push_str("-0.26603433\twill you\t-0.30103\n");
    t.push_str("-0.26603433\tyou remember\t-0.30103\n");
    t.push_str("\n");
    t.push_str("\\3-grams:\n");
    t.push_str("-0.21873854\ta a </s>\n");
    t.push_str("-0.10757457\tyou remember i\n");
    t.push_str("-0.18978158\t<s> i have\n");
    t.push_str("-0.1770414\tremember i a\n");
    t.push_str("-0.10225761\ti have a\n");
    t.push_str("-0.2051335\ti a a\n");
    t.push_str("-0.21873854\thave a good\n");
    t.push_str("-0.112957425\ta good deal\n");
    t.push_str("-0.112957425\tgood deal of\n");
    t.push_str("-0.112957425\tdeal of will\n");
    t.push_str("-0.112957425\tof will you\n");
    t.push_str("-0.112957425\twill you remember\n");
    t
}

#[test]
fn test_total_header_size() {
    assert_eq!(total_header_size(6), 160);
    assert_eq!(total_header_size(2), 128);
}

#[test]
fn test_reads() {
    let model = read_arpa(to_lines(&lm_small_text()), StringProcessor).unwrap();
    assert_eq!(model.sections.backoffs.len(), 2);
    assert_eq!(model.sections.backoffs[0].len(), 12);
    assert_eq!(model.sections.backoffs[1].len(), 13);
    assert_eq!(model.sections.no_backoff.len(), 12);

    let uni = &model.sections.backoffs[0];
    assert_eq!(uni[0].ngram.0, "<unk>".to_string());
    assert_eq!(uni[0].prob_backoff.log_prob.parse::<f32>().unwrap(), -1.3424227f32);
    assert_eq!(uni[0].prob_backoff.backoff.parse::<f32>().unwrap(), -0.0f32);
    assert_eq!(uni[11].ngram.0, "remember".to_string());

    let bi = &model.sections.backoffs[1];
    assert_eq!(bi[5].ngram.0, "have a".to_string());
    assert_eq!(bi[5].prob_backoff.log_prob.parse::<f32>().unwrap(), -0.23625793f32);
    assert_eq!(bi[5].prob_backoff.backoff.parse::<f32>().unwrap(), -0.30103f32);

    let tri = &model.sections.no_backoff;
    assert_eq!(tri[4].ngram.0, "i have a".to_string());
    assert_eq!(tri[4].prob.parse::<f32>().unwrap(), -0.10225761f32);
}

#[test]
fn test_no_data_header() {
    let text = "ngram 1=2\n\n\\1-grams:\n-0.1\ta\n";
    let err = ArpaReader::new(to_lines(text), StringProcessor);
    match err {
        Ok(_) => panic!("returned Ok when it should have been `Err(DataHeaderMissing)`"),
        Err(e) => assert!(matches!(e, ArpaReadError::DataHeaderMissing)),
    }
}

#[test]
fn test_no_ngram_counts() {
    let text = "\\data\\\n\n\\1-grams:\n-0.1\ta\n";
    let err = ArpaReader::new(to_lines(text), StringProcessor);
    match err {
        Ok(_) => panic!("returned Ok when it should have been `Err(NgramCountsMissing)`"),
        Err(e) => assert!(matches!(e, ArpaReadError::NgramCountsMissing)),
    }
}

#[test]
fn test_header() {
    let text = "\\data\\\nngram 1=4415\nngram 2=18349\n\n";
    let reader = ArpaReader::new(to_lines(text), StringProcessor).unwrap();
    assert_eq!(
        &Counts::from_count_vec(vec![
            NGramCardinality::try_from_order_and_cardinality(1, 4415).unwrap(),
            NGramCardinality::try_from_order_and_cardinality(2, 18349).unwrap(),
        ])
        .unwrap(),
        reader.counts()
    );
    assert_eq!(reader.order(), 2);
}

#[test]
fn test_broken_count_line() {
    let text = "\\data\\\nngram one=2\n\n";
    let err = ArpaReader::new(to_lines(text), StringProcessor);
    match err {
        Ok(_) => panic!("expected a broken count line error"),
        Err(e) => assert!(matches!(e, ArpaReadError::NgramCountsBroken)),
    }
}

#[test]
fn test_duplicate_order_rejected() {
    let text = "\\data\\\nngram 1=2\nngram 1=3\n\n";
    let err = ArpaReader::new(to_lines(text), StringProcessor);
    match err {
        Ok(_) => panic!("expected an invalid count set error"),
        Err(e) => assert!(matches!(e, ArpaReadError::CountHeaderError(_))),
    }
}

#[test]
fn test_gap_in_orders_rejected() {
    let text = "\\data\\\nngram 1=2\nngram 3=3\n\n";
    let err = ArpaReader::new(to_lines(text), StringProcessor);
    match err {
        Ok(_) => panic!("expected an invalid count set error"),
        Err(e) => assert!(matches!(e, ArpaReadError::CountHeaderError(_))),
    }
}

#[test]
fn test_section_header_mismatch() {
    let text = "\\data\\\nngram 1=1\nngram 2=1\n\n\\2-grams:\n-0.1\ta\t-0.2\n\n\\2-grams:\n-0.1\ta b\n";
    let err = read_arpa(to_lines(text), StringProcessor);
    match err {
        Ok(_) => panic!("expected a section header mismatch"),
        Err(e) => assert!(matches!(e, ArpaReadError::NGramSectionHeaderMismatch(_, _))),
    }
}

#[test]
fn test_count_mismatch() {
    let text = "\\data\\\nngram 1=3\nngram 2=1\n\n\\1-grams:\n-0.1\ta\t-0.2\n-0.1\tb\t-0.2";
    let err = read_arpa(to_lines(text), StringProcessor);
    match err {
        Ok(_) => panic!("expected a row count mismatch"),
        Err(e) => assert!(matches!(e, ArpaReadError::NgramCountsMismatch)),
    }
}

#[test]
fn test_boundary_missing() {
    let text = "\\data\\\nngram 1=1\nngram 2=1\n\n\\1-grams:\n-0.1\ta\t-0.2\n\\2-grams:\n-0.1\ta a\n";
    let err = read_arpa(to_lines(text), StringProcessor);
    match err {
        Ok(_) => panic!("expected a missing boundary error"),
        Err(e) => assert!(matches!(e, ArpaReadError::SectionBoundaryMissing)),
    }
}

#[test]
fn test_bad_backoff_row() {
    let text = "\\data\\\nngram 1=1\nngram 2=1\n\n\\1-grams:\nnotafloat\ta\t-0.2\n\n\\2-grams:\n-0.1\ta a\n";
    let err = read_arpa(to_lines(text), StringProcessor);
    match err {
        Ok(_) => panic!("expected a backoff section error"),
        Err(e) => assert!(matches!(e, ArpaReadError::BackOffSectionError)),
    }
}

#[test]
fn test_bad_top_row() {
    let text = "\\data\\\nngram 1=1\nngram 2=1\n\n\\1-grams:\n-0.1\ta\t-0.2\n\n\\2-grams:\nbroken\n";
    let err = read_arpa(to_lines(text), StringProcessor);
    match err {
        Ok(_) => panic!("expected a top section error"),
        Err(e) => assert!(matches!(e, ArpaReadError::NoBackoffSectionError)),
    }
}

#[test]
fn test_reader_state_guard() {
    let text = "\\data\\\nngram 1=1\nngram 2=1\n\n\\1-grams:\n-0.1\ta\t-0.2\n\n\\2-grams:\n-0.1\ta a\n";
    let mut reader = ArpaReader::new(to_lines(text), StringProcessor).unwrap();
    let err = reader.read_no_backoff_section();
    match err {
        Ok(_) => panic!("expected an invalid reader state error"),
        Err(e) => assert!(matches!(e, ArpaReadError::InvalidReaderState)),
    }
}

#[test]
fn test_section_header_text() {
    assert!(matches_ngram_section_header("\\2-grams:", 2).is_ok());
    assert!(matches_ngram_section_header("\\12-grams:", 12).is_ok());
    assert!(matches_ngram_section_header("\\2-grams:", 3).is_err());
    assert!(matches_ngram_section_header("\\2-grams", 2).is_err());
}

#[test]
fn test_counts_round_trip_header() {
    // Re-deriving the counts from the parsed sections reproduces the
    // declared per-order cardinalities exactly.
    let model = read_arpa(to_lines(&lm_small_text()), StringProcessor).unwrap();
    let counts = &model.sections.counts;
    for (i, section) in model.sections.backoffs.iter().enumerate() {
        assert_eq!(section.len(), counts.counts()[i].cardinality);
    }
    assert_eq!(
        model.sections.no_backoff.len(),
        counts.counts()[counts.counts().len() - 1].cardinality
    );
    let rederived = Counts::from_count_vec(
        model
            .sections
            .backoffs
            .iter()
            .enumerate()
            .map(|(i, s)| NGramCardinality { order: i + 1, cardinality: s.len() })
            .chain(std::iter::once(NGramCardinality {
                order: model.sections.backoffs.len() + 1,
                cardinality: model.sections.no_backoff.len(),
            }))
            .collect(),
    )
    .unwrap();
    assert_eq!(&rederived, counts);
}
