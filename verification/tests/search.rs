use seroost::codec::model_from_str;
use seroost::codec::model_to_string;
use seroost::lexer::tokenize;
use seroost::lexer::Lexer;
use seroost::model::build_index;
use seroost::model::Model;
use seroost::rank::rank;
use seroost::score::compute_idf;
use seroost::score::compute_tf;
use seroost::score::idf_micro;
use seroost::score::MICRO;

fn chars(s: &str) -> Vec<char> {
    s.chars().collect()
}

fn corpus(pairs: &[(&str, &str)]) -> Vec<(String, String)> {
    pairs
        .iter()
        .map(|(p, t)| (p.to_string(), t.to_string()))
        .collect()
}

fn df_of(m: &Model, term: &str) -> Option<u64> {
    m.df.get(&term.to_string())
}

fn tf_of(m: &Model, doc: &str, term: &str) -> Option<u64> {
    m.docs
        .iter()
        .find(|d| d.path == doc)
        .and_then(|d| d.tf.get(&term.to_string()))
}

#[test]
fn tokenizer_empty_input_yields_no_tokens() {
    let cs = chars("");
    assert!(tokenize(&cs).is_empty());
}

#[test]
fn tokenizer_whitespace_only_yields_no_tokens() {
    let cs = chars(" \t\n  \r ");
    assert!(tokenize(&cs).is_empty());
}

#[test]
fn tokenizer_folds_alphabetic_runs_to_upper_case() {
    let cs = chars("the Cat sat");
    assert_eq!(tokenize(&cs), vec!["THE", "CAT", "SAT"]);
}

#[test]
fn tokenizer_splits_numbers_letters_and_punctuation() {
    let cs = chars("abc123 42,x7!");
    assert_eq!(tokenize(&cs), vec!["ABC123", "42", ",", "X7", "!"]);
}

#[test]
fn tokenizer_single_punctuation_is_one_token() {
    let cs = chars(";");
    assert_eq!(tokenize(&cs), vec![";"]);
}

#[test]
fn lexer_next_token_advances_and_ends() {
    let cs = chars("  a1  9");
    let mut lx = Lexer::new(&cs);
    assert_eq!(lx.next_token(), Some("A1".to_string()));
    assert_eq!(lx.next_token(), Some("9".to_string()));
    assert_eq!(lx.next_token(), None);
    assert!(lx.is_empty());
}

#[test]
fn index_counts_terms_and_documents() {
    let m = build_index(&corpus(&[("a", "the cat sat"), ("b", "the cat ran away")]));
    assert_eq!(m.doc_count(), 2);
    assert_eq!(tf_of(&m, "a", "CAT"), Some(1));
    assert_eq!(tf_of(&m, "a", "SAT"), Some(1));
    assert_eq!(tf_of(&m, "b", "SAT"), None);
    assert_eq!(df_of(&m, "CAT"), Some(2));
    assert_eq!(df_of(&m, "THE"), Some(2));
    assert_eq!(df_of(&m, "SAT"), Some(1));
    assert_eq!(df_of(&m, "RAN"), Some(1));
    assert_eq!(df_of(&m, "DOG"), None);
}

#[test]
fn reindexing_same_document_wins_last() {
    let m = build_index(&corpus(&[("a", "old text"), ("a", "new words here")]));
    assert_eq!(m.doc_count(), 1);
    assert_eq!(tf_of(&m, "a", "OLD"), None);
    assert_eq!(tf_of(&m, "a", "NEW"), Some(1));
    assert_eq!(df_of(&m, "OLD"), None);
    assert_eq!(df_of(&m, "WORDS"), Some(1));
}

#[test]
fn indexing_order_does_not_change_tables() {
    let m1 = build_index(&corpus(&[("a", "the cat sat"), ("b", "the cat ran away")]));
    let m2 = build_index(&corpus(&[("b", "the cat ran away"), ("a", "the cat sat")]));
    for term in ["THE", "CAT", "SAT", "RAN", "AWAY"] {
        assert_eq!(df_of(&m1, term), df_of(&m2, term));
        for doc in ["a", "b"] {
            assert_eq!(tf_of(&m1, doc, term), tf_of(&m2, doc, term));
        }
    }
    assert_eq!(m1.doc_count(), m2.doc_count());
}

#[test]
fn query_of_term_in_every_document_ranks_nothing() {
    // Both documents contain CAT, so its weight is log10(2/2) = 0 and the
    // ranked result is empty.
    let m = build_index(&corpus(&[("a", "the cat sat"), ("b", "the cat ran away")]));
    let r = rank("cat", &m);
    assert!(r.is_empty());
}

#[test]
fn query_of_rare_term_ranks_its_document() {
    let m = build_index(&corpus(&[("a", "the cat sat"), ("b", "the cat ran away")]));
    let r = rank("sat", &m);
    assert_eq!(r.len(), 1);
    assert_eq!(r[0].doc, "a");
    // tf = 1/3, idf = log10(2) ~ 0.301, so the score is about 0.1003.
    let score = r[0].score.num as f64 / (r[0].score.den as f64 * MICRO as f64);
    assert!(r[0].score.den == 3);
    assert!(score > 0.1002 && score < 0.1004, "score was {score}");
}

#[test]
fn query_of_unknown_terms_ranks_nothing() {
    let m = build_index(&corpus(&[("a", "the cat sat"), ("b", "the cat ran away")]));
    assert!(rank("zebra quark", &m).is_empty());
}

#[test]
fn empty_query_ranks_nothing() {
    let m = build_index(&corpus(&[("a", "the cat sat")]));
    assert!(rank("", &m).is_empty());
}

#[test]
fn tied_documents_keep_model_order() {
    let m = build_index(&corpus(&[("a", "quark"), ("b", "quark"), ("c", "other")]));
    let r = rank("quark", &m);
    assert_eq!(r.len(), 2);
    assert_eq!(r[0].doc, "a");
    assert_eq!(r[1].doc, "b");
    assert_eq!(r[0].score, r[1].score);
}

#[test]
fn more_occurrences_rank_strictly_higher() {
    let m = build_index(&corpus(&[
        ("a", "quark quark tau"),
        ("b", "quark tau tau"),
        ("c", "muon"),
    ]));
    let r = rank("quark", &m);
    assert_eq!(r.len(), 2);
    assert_eq!(r[0].doc, "a");
    assert_eq!(r[1].doc, "b");
    // Exact rational comparison: 2w/3 > 1w/3.
    let (hi, lo) = (&r[0].score, &r[1].score);
    assert!((hi.num as u128) * (lo.den as u128) > (lo.num as u128) * (hi.den as u128));
}

#[test]
fn idf_weights_match_the_logarithm() {
    // log10(1) = 0: a term in every document weighs nothing.
    assert_eq!(idf_micro(2, 2), 0);
    assert_eq!(idf_micro(1, 1), 0);
    assert_eq!(idf_micro(3, 7), 0);
    // log10(10) = 1 exactly.
    assert_eq!(idf_micro(10, 1), MICRO);
    assert_eq!(idf_micro(100, 1), 2 * MICRO);
    // log10(2) ~ 0.30103.
    let w = idf_micro(2, 1);
    assert!(w > 300_900 && w < 301_100, "weight was {w}");
    // log10(3/2) ~ 0.17609.
    let w = idf_micro(3, 2);
    assert!(w > 175_900 && w < 176_200, "weight was {w}");
}

#[test]
fn tf_and_idf_helpers_report_counts() {
    let m = build_index(&corpus(&[("a", "x x y")]));
    let doc = &m.docs[0].tf;
    let (f, s) = compute_tf(&"X".to_string(), doc);
    assert_eq!((f, s), (2, 3));
    let (f, s) = compute_tf(&"Z".to_string(), doc);
    assert_eq!((f, s), (0, 3));
    // An unseen term's document frequency defaults to one.
    assert_eq!(compute_idf(&"Z".to_string(), 10, &m.df), idf_micro(10, 1));
    assert_eq!(compute_idf(&"X".to_string(), 1, &m.df), 0);
}

#[test]
fn model_round_trips_through_the_codec() {
    let m = build_index(&corpus(&[("a", "the cat sat"), ("b", "the cat ran away")]));
    let text = model_to_string(&m);
    let m2 = model_from_str(&text).expect("the serialized model parses");
    assert_eq!(m2.doc_count(), m.doc_count());
    for term in ["THE", "CAT", "SAT", "RAN", "AWAY"] {
        assert_eq!(df_of(&m2, term), df_of(&m, term));
        for doc in ["a", "b"] {
            assert_eq!(tf_of(&m2, doc, term), tf_of(&m, doc, term));
        }
    }
    // The loaded model answers queries exactly as the built one does.
    let r1 = rank("sat", &m);
    let r2 = rank("sat", &m2);
    assert_eq!(r1.len(), r2.len());
    assert_eq!(r1[0].doc, r2[0].doc);
    assert_eq!(r1[0].score, r2[0].score);
}

#[test]
fn empty_model_round_trips() {
    let m = build_index(&corpus(&[]));
    let text = model_to_string(&m);
    let m2 = model_from_str(&text).expect("the empty model parses");
    assert_eq!(m2.doc_count(), 0);
    assert!(rank("anything", &m2).is_empty());
}

#[test]
fn malformed_text_is_refused() {
    assert!(model_from_str("").is_none());
    assert!(model_from_str("not an index").is_none());
    assert!(model_from_str("00000000000000000001").is_none());
    // A document count pointing past the end of the text.
    assert!(model_from_str("00000000000000000009x").is_none());
}

#[test]
fn truncated_model_text_is_refused() {
    let m = build_index(&corpus(&[("a", "the cat sat")]));
    let text = model_to_string(&m);
    let cut: String = text.chars().take(text.chars().count() - 1).collect();
    assert!(model_from_str(&cut).is_none());
    let padded = format!("{text} ");
    assert!(model_from_str(&padded).is_none());
}

#[test]
fn lexer_take_hands_out_and_consumes() {
    let cs: Vec<char> = "abcdef".chars().collect();
    let mut lx = seroost::lexer::Lexer::new(&cs);
    let first = lx.take(2);
    assert_eq!(first, &['a', 'b']);
    let rest = lx.take(4);
    assert_eq!(rest, &['c', 'd', 'e', 'f']);
    assert!(lx.is_empty());
}

#[test]
fn lexer_take_while_stops_at_the_class_boundary() {
    let cs: Vec<char> = "123ab".chars().collect();
    let mut lx = seroost::lexer::Lexer::new(&cs);
    let run = lx.take_while(seroost::lexer::CharClass::Numeric);
    assert_eq!(run, &['1', '2', '3']);
    let run = lx.take_while(seroost::lexer::CharClass::Alphanumeric);
    assert_eq!(run, &['a', 'b']);
}

#[test]
fn lexer_trim_start_skips_whitespace_only() {
    let cs: Vec<char> = "  \t x".chars().collect();
    let mut lx = seroost::lexer::Lexer::new(&cs);
    lx.trim_start();
    assert_eq!(lx.take(1), &['x']);
}
