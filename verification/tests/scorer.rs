//! Tests for the compact index and the incremental backoff scorer.

use kenlm_rs::arpa::{read_arpa, IntVocabProcessor};
use kenlm_rs::index::{FstIndexer, NGramIndexer, State};
use kenlm_rs::mapping::Mappings;

fn to_lines(text: &str) -> Vec<String> {
    text.split('\n').map(|s| s.to_string()).collect()
}

fn lm_small_text() -> String {
    let mut t = String::new();
    t.push_str("\\data\\\n");
    t.push_str("ngram 1=12\n");
    t.push_str("ngram 2=13\n");
    t.push_str("ngram 3=12\n");
    t.push_str("\n");
    t.push_str("\\1-grams:\n");
    t.push_str("-1.3424227\t<unk>\t-0.0\n");
    t.push_str("-0.0\t<s>\t-0.30103\n");
    t.push_str("-1.0761548\t</s>\t-0.0\n");
    t.push_str("-0.91229796\ti\t-0.30103\n");
    t.push_str("-1.0761548\thave\t-0.30103\n");
    t.push_str("-0.7936082\ta\t-0.30103\n");
    t.push_str("-1.0761548\tgood\t-0.30103\n");
    t.push_str("-1.0761548\tdeal\t-0.30103\n");
    t.push_str("-1.0761548\tof\t-0.30103\n");
    t.push_str("-1.0761548\twill\t-0.30103\n");
    t.push_str("-1.0761548\tyou\t-0.30103\n");
    t.push_str("-1.0761548\tremember\t-0.30103\n");
    t.push_str("\n");
    t.push_str("\\2-grams:\n");
    t.push_str("-0.68063426\ta </s>\t-0.0\n");
    t.push_str("-0.250891\t<s> i\t-0.30103\n");
    t.push_str("-0.250891\tremember i\t-0.30103\n");
    t.push_str("-0.5346796\ti have\t-0.30103\n");
    t.push_str("-0.4809342\ti a\t-0.30103\n");
    t.push_str("-0.23625793\thave a\t-0.30103\n");
    t.push_str("-0.6071514\ta a\t-0.30103\n");
    t.push_str("-0.68063426\ta good\t-0.30103\n");
    t.push_str("-0.26603433\tgood deal\t-0.30103\n");
    t.push_str("-0.26603433\tdeal of\t-0.30103\n");
    t.push_str("-0.26603433\tof will\t-0.30103\n");
    t.push_str("-0.26603433\twill you\t-0.30103\n");
    t.push_str("-0.26603433\tyou remember\t-0.30103\n");
    t.push_str("\n");
    t.push_str("\\3-grams:\n");
    t.push_str("-0.21873854\ta a </s>\n");
    t.push_str("-0.10757457\tyou remember i\n");
    t.push_str("-0.18978158\t<s> i have\n");
    t.push_str("-0.1770414\tremember i a\n");
    t.push_str("-0.10225761\ti have a\n");
    t.push_str("-0.2051335\ti a a\n");
    t.push_str("-0.21873854\thave a good\n");
    t.push_str("-0.112957425\ta good deal\n");
    t.push_str("-0.112957425\tgood deal of\n");
    t.push_str("-0.112957425\tdeal of will\n");
    t.push_str("-0.112957425\tof will you\n");
    t.push_str("-0.112957425\twill you remember\n");
    t
}

fn build(text: &str) -> (FstIndexer, Mappings) {
    let model = read_arpa(to_lines(text), IntVocabProcessor(Mappings::default())).unwrap();
    let vocab = model.vocab;
    let indexer = FstIndexer::new(model.sections);
    (indexer, vocab)
}

/// One scoring step; answers the new state and the step's log score,
/// summing the emitted terms as the log-domain decomposition asks.
fn score_word(indexer: &FstIndexer, state: State, word_id: u32) -> (State, f32) {
    let before = state.score_terms.len();
    let out = <FstIndexer as NGramIndexer<Vec<u32>>>::find_with_state(indexer, state, word_id);
    let terms = &out.score_terms[before..];
    let step = if terms.is_empty() {
        0.0f32
    } else {
        let base: f32 = terms[0].parse().unwrap();
        let paid: f32 = terms[1..].iter().map(|t| t.parse::<f32>().unwrap()).sum();
        base + paid
    };
    (out, step)
}

fn id_of(vocab: &Mappings, word: &str) -> u32 {
    vocab.get_index(&word.to_string()).unwrap_or(0)
}

fn close(a: f32, b: f32) {
    assert!((a - b).abs() <= 1e-5, "{a} vs {b}");
}

#[test]
fn scores_unigram_from_null_context() {
    let (indexer, vocab) = build(&lm_small_text());
    let state = State::default();
    let (state, step) = score_word(&indexer, state, id_of(&vocab, "have"));
    close(step, -1.0761548);
    assert_eq!(state.ngram_length, 1);
    assert_eq!(state.words, vec![id_of(&vocab, "have")]);
}

#[test]
fn scores_full_trigram_exactly() {
    // An exact stored n-gram pays no backoff: scoring `a` after the
    // context `i have` emits the stored trigram log probability.
    let (indexer, vocab) = build(&lm_small_text());
    let mut state = State::default();
    let mut steps: Vec<f32> = Vec::new();
    for w in ["i", "have", "a"] {
        let (next, step) = score_word(&indexer, state, id_of(&vocab, w));
        steps.push(step);
        state = next;
    }
    close(steps[0], -0.91229796);  // unigram i
    close(steps[1], -0.5346796);  // bigram i have
    close(steps[2], -0.10225761);  // trigram i have a, exact match
    assert_eq!(state.ngram_length, 2);  // window truncates to order - 1
}

#[test]
fn backoff_is_paid_for_discarded_context() {
    // `have have` is not stored: the second step falls back to the
    // unigram and pays the backoff of the discarded context.
    let (indexer, vocab) = build(&lm_small_text());
    let state = State::default();
    let (state, s1) = score_word(&indexer, state, id_of(&vocab, "have"));
    close(s1, -1.0761548);
    let (state, s2) = score_word(&indexer, state, id_of(&vocab, "have"));
    close(s2, -1.0761548 + -0.30103);
    let (_state, s3) = score_word(&indexer, state, id_of(&vocab, "a"));
    close(s3, -0.23625793);  // bigram have a
    let total = s1 + s2 + s3;
    close(total, -2.6895976);
}

#[test]
fn oov_word_scores_through_unknown_entry() {
    // A word absent from the vocabulary resolves to the reserved id 0,
    // scores through the unknown-word unigram, and never panics.
    let (indexer, vocab) = build(&lm_small_text());
    assert!(vocab.get_index(&"game".to_string()).is_none());
    assert_eq!(id_of(&vocab, "game"), 0);
    let state = State::default();
    let (state, _s1) = score_word(&indexer, state, id_of(&vocab, "have"));
    let (state, _s2) = score_word(&indexer, state, id_of(&vocab, "a"));
    let (state, s3) = score_word(&indexer, state, id_of(&vocab, "game"));
    // unknown unigram plus the two discarded context backoffs
    close(s3, -1.3424227 + -0.30103 + -0.30103);
    assert_eq!(state.ngram_length, 1);  // only the unknown unigram matched
}

#[test]
fn bos_context_uses_bigram() {
    // Scoring `i` right after a begin-of-sentence context finds the
    // stored bigram `<s> i`.
    let (indexer, vocab) = build(&lm_small_text());
    let bos = id_of(&vocab, "<s>");
    let bos_state = State {
        words: vec![bos],
        ngram_length: 1,
        backoffs: vec!["-0.30103".to_string()],
        score_terms: Vec::new(),
    };
    let (_state, step) = score_word(&indexer, bos_state, id_of(&vocab, "i"));
    close(step, -0.250891);
}

fn fixture_bigram_text() -> String {
    let mut t = String::new();
    t.push_str("\\data\\\n");
    t.push_str("ngram 1=3\n");
    t.push_str("ngram 2=1\n");
    t.push_str("\n");
    t.push_str("\\1-grams:\n");
    t.push_str("-2.5\t<s>\t-0.3\n");
    t.push_str("-1.0\thave\t-0.3\n");
    t.push_str("-2.0\ta\t-0.3\n");
    t.push_str("\n");
    t.push_str("\\2-grams:\n");
    t.push_str("-0.25\t<s> have\n");
    t
}

#[test]
fn fixture_null_and_bos_scores() {
    // From a null context `have` scores as its unigram; right after a
    // begin-of-sentence context it scores as the stored bigram.
    let (indexer, vocab) = build(&fixture_bigram_text());
    let state = State::default();
    let (_s, step) = score_word(&indexer, state, id_of(&vocab, "have"));
    close(step, -1.0);

    let bos_state = State {
        words: vec![id_of(&vocab, "<s>")],
        ngram_length: 1,
        backoffs: vec!["-0.3".to_string()],
        score_terms: Vec::new(),
    };
    let (_s2, step2) = score_word(&indexer, bos_state, id_of(&vocab, "have"));
    close(step2, -0.25);
}

#[test]
fn window_never_exceeds_order_minus_one() {
    let (indexer, vocab) = build(&lm_small_text());
    let mut state = State::default();
    for w in ["i", "have", "a", "good", "deal", "of", "will", "you", "remember"] {
        let (next, _step) = score_word(&indexer, state, id_of(&vocab, w));
        state = next;
        assert!(state.ngram_length <= 2);
        assert_eq!(state.words.len(), state.ngram_length);
    }
}

#[test]
fn cloned_state_branches_independently() {
    let (indexer, vocab) = build(&lm_small_text());
    let state = State::default();
    let (state, _s) = score_word(&indexer, state, id_of(&vocab, "i"));
    let branch = state.clone();
    let (_a, step_have) = score_word(&indexer, state, id_of(&vocab, "have"));
    let (_b, step_a) = score_word(&indexer, branch, id_of(&vocab, "a"));
    close(step_have, -0.5346796);  // bigram i have
    close(step_a, -0.4809342);  // bigram i a
}

#[test]
fn try_new_rejects_duplicate_ngrams() {
    let text = "\\data\\\nngram 1=2\nngram 2=1\n\n\\1-grams:\n-0.1\ta\t-0.2\n-0.3\ta\t-0.4\n\n\\2-grams:\n-0.1\ta a\n";
    let lines = to_lines(text);
    let model = read_arpa(lines, IntVocabProcessor(Mappings::default())).unwrap();
    assert!(FstIndexer::try_new(model.sections).is_none());

    let good = read_arpa(to_lines(&lm_small_text()), IntVocabProcessor(Mappings::default()))
        .unwrap();
    assert!(FstIndexer::try_new(good.sections).is_some());
}

#[test]
fn find_collects_matches_by_suffix_length() {
    let (indexer, vocab) = build(&lm_small_text());
    let query = vec![id_of(&vocab, "i"), id_of(&vocab, "have"), id_of(&vocab, "a")];
    let found = indexer.find(&query);
    assert_eq!(found.len(), 3);
    // most specific match last: the stored trigram
    match &found[2] {
        kenlm_rs::index::Scores::Longest(p) => {
            assert_eq!(p.parse::<f32>().unwrap(), -0.10225761f32)
        },
        _ => panic!("expected the trigram record"),
    }
    match &found[0] {
        kenlm_rs::index::Scores::Middle(pb) => {
            assert_eq!(pb.log_prob.parse::<f32>().unwrap(), -0.7936082f32)
        },
        _ => panic!("expected the unigram record"),
    }
}
