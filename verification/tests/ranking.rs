use tfindex::index::{build_index, Index};
use tfindex::lexer::tokenize;
use tfindex::model::TermFreq;
use tfindex::rank::{frac_le, score, search, tf};

fn chars(s: &str) -> Vec<char> {
    s.chars().collect()
}

fn model_of(text: &str) -> TermFreq {
    let cs = chars(text);
    TermFreq::from_tokens(&tokenize(cs.as_slice()))
}

fn index_of(docs: &[(&str, &str)]) -> Index {
    let sources: Vec<(String, Option<String>)> = docs
        .iter()
        .map(|(id, text)| (id.to_string(), Some(text.to_string())))
        .collect();
    build_index(&sources).unwrap()
}

#[test]
fn term_frequency_model_counts_occurrences() {
    let m = model_of("The cat sat on the mat");
    assert_eq!(m.count(&"THE".to_string()), 2);
    assert_eq!(m.count(&"CAT".to_string()), 1);
    assert_eq!(m.count(&"SAT".to_string()), 1);
    assert_eq!(m.count(&"ON".to_string()), 1);
    assert_eq!(m.count(&"MAT".to_string()), 1);
    assert_eq!(m.count(&"DOG".to_string()), 0);
    assert_eq!(m.total_count(), 6);
}

#[test]
fn model_total_equals_token_count() {
    let texts = ["", "one", "a b c a b a", "7 7 7 7"];
    for text in texts {
        let cs = chars(text);
        let toks = tokenize(cs.as_slice());
        let m = TermFreq::from_tokens(&toks);
        assert_eq!(m.total_count(), toks.len());
    }
}

#[test]
fn per_term_frequency_is_count_over_total() {
    let m = model_of("The cat sat on the mat");
    let (num, den) = tf(&"THE".to_string(), &m);
    assert_eq!((num, den), (2, 6));
    assert!((num as f64 / den as f64 - 0.333).abs() < 0.001);
}

#[test]
fn empty_document_scores_zero_without_failure() {
    let m = model_of("");
    let (num, den) = tf(&"ANYTHING".to_string(), &m);
    assert_eq!((num, den), (0, 1));
    let s = score(&m, &vec!["ANYTHING".to_string(), "AT".to_string(), "ALL".to_string()]);
    assert_eq!(s, (0, 1));
    assert_eq!(s.0 as f64 / s.1 as f64, 0.0);
}

#[test]
fn higher_term_frequency_ranks_first() {
    let ix = index_of(&[("a.xml", "cat dog"), ("b.xml", "cat cat cat cat cat")]);
    let results = search(&ix, "cat");
    assert_eq!(results.len(), 2);
    assert_eq!(results[0].doc_id, "b.xml");
    assert_eq!(results[1].doc_id, "a.xml");
    let top = results[0].score_num as f64 / results[0].score_den as f64;
    let bottom = results[1].score_num as f64 / results[1].score_den as f64;
    assert_eq!(top, 1.0);
    assert_eq!(bottom, 0.5);
}

#[test]
fn empty_index_returns_empty_ranking() {
    let ix = Index::new();
    let results = search(&ix, "anything at all");
    assert!(results.is_empty());
}

#[test]
fn documents_are_never_filtered_out() {
    let ix = index_of(&[("a", "apples"), ("b", "bananas"), ("c", "cherries")]);
    let results = search(&ix, "durians");
    assert_eq!(results.len(), 3);
    for r in &results {
        assert_eq!(r.score_num, 0);
    }
}

#[test]
fn repeated_query_words_increase_weight() {
    let m = model_of("cat dog dog dog");
    let once = score(&m, &vec!["CAT".to_string()]);
    let twice = score(&m, &vec!["CAT".to_string(), "CAT".to_string()]);
    assert_eq!(once, (1, 4));
    assert_eq!(twice, (2, 4));
}

#[test]
fn pointwise_dominant_document_scores_at_least_as_much() {
    let d1 = model_of("cat cat dog");
    let d2 = model_of("cat mouse mouse mouse");
    let q = vec!["CAT".to_string(), "DOG".to_string()];
    let s1 = score(&d1, &q);
    let s2 = score(&d2, &q);
    assert!(frac_le(s2.0, s2.1 as u128, s1.0, s1.1 as u128));
}

#[test]
fn exact_fraction_comparison_agrees_with_arithmetic() {
    assert!(frac_le(1, 3, 1, 2));
    assert!(!frac_le(1, 2, 1, 3));
    assert!(frac_le(2, 4, 1, 2));
    assert!(frac_le(0, 1, 0, 7));
    assert!(frac_le(999_999_999_999, 1_000_000_000_000, 1, 1));
    assert!(!frac_le(1, 1, 999_999_999_999, 1_000_000_000_000));
}

#[test]
fn unreadable_document_aborts_with_its_identifier() {
    let sources = vec![
        ("ok.xml".to_string(), Some("fine text".to_string())),
        ("broken.xml".to_string(), None),
        ("later.xml".to_string(), None),
    ];
    let err = build_index(&sources).err().unwrap();
    assert_eq!(err.doc_id, "broken.xml");
}

#[test]
fn build_index_indexes_every_document() {
    let ix = index_of(&[("one", "alpha beta"), ("two", "gamma")]);
    assert_eq!(ix.doc_count(), 2);
    let docs = ix.docs();
    assert_eq!(docs[0].0, "one");
    assert_eq!(docs[0].1.count(&"ALPHA".to_string()), 1);
    assert_eq!(docs[1].1.count(&"GAMMA".to_string()), 1);
}
