use std::collections::HashSet;

use tfidf::document::{Document, Idf, Score};
use tfidf::engine::TFIDF;
use tfidf::tokenizer::Tokenizer;

/// Numeric value of a raw (unnormalized) score: ln(N/(df+1)+1) / n.
fn score_value(s: Score) -> f64 {
    f64::ln(s.idf.corpus_size as f64 / (s.idf.doc_freq as f64 + 1.0) + 1.0)
        / (s.num_terms as f64)
}

fn get_score(doc: &Document, term: &str) -> Option<Score> {
    doc.tfidf_scores
        .iter()
        .find(|(t, _)| t == term)
        .map(|(_, s)| *s)
}

fn get_idf(engine: &TFIDF, term: &str) -> Option<Idf> {
    engine
        .idf_scores
        .iter()
        .find(|(t, _)| t == term)
        .map(|(_, w)| *w)
}

#[test]
fn test_tokenize() {
    let text = "The quick brown fox.";
    let expected_tokens: HashSet<String> = ["the", "quick", "brown", "fox"]
        .iter()
        .map(|s| s.to_string())
        .collect();
    let actual: HashSet<String> = Tokenizer::tokenize(text).into_iter().collect();
    assert_eq!(actual, expected_tokens);
}

#[test]
fn test_compute_tfidf() {
    let mut tfidf = TFIDF::new();
    let documents = vec!["Blue house.", "Red house.", "Blue window."];
    tfidf.fit(&documents);

    let mut doc = Document::new("Blue house.");
    doc.compute_tfidf(&tfidf.idf_scores);

    let blue_score = score_value(get_score(&doc, "blue").unwrap());
    let house_score = score_value(get_score(&doc, "house").unwrap());

    let expected_blue_score = (1.0 / 2.0) * f64::ln(3.0 / (2.0 + 1.0) + 1.0);
    let expected_house_score = (1.0 / 2.0) * f64::ln(3.0 / (2.0 + 1.0) + 1.0);

    assert!((blue_score - expected_blue_score).abs() < f64::EPSILON);
    assert!((house_score - expected_house_score).abs() < f64::EPSILON);
}

#[test]
fn tokenize_empty_and_punctuation() {
    assert!(Tokenizer::tokenize("").is_empty());
    assert!(Tokenizer::tokenize("   \t\n  ").is_empty());
    assert!(Tokenizer::tokenize("!!! ??? ---").is_empty());
}

#[test]
fn tokenize_deduplicates_and_lowercases() {
    let tokens = Tokenizer::tokenize("Hello, hello HELLO world");
    let set: HashSet<String> = tokens.iter().cloned().collect();
    assert_eq!(tokens.len(), 2);
    assert!(set.contains("hello"));
    assert!(set.contains("world"));
}

#[test]
fn tokenize_splits_on_any_whitespace() {
    let set: HashSet<String> =
        Tokenizer::tokenize("a\tb\nc \u{3000} d").into_iter().collect();
    let expected: HashSet<String> =
        ["a", "b", "c", "d"].iter().map(|s| s.to_string()).collect();
    assert_eq!(set, expected);
}

#[test]
fn tokenize_trims_non_alphanumeric_edges() {
    let set: HashSet<String> = Tokenizer::tokenize("...fox... (den) [42]").into_iter().collect();
    let expected: HashSet<String> =
        ["fox", "den", "42"].iter().map(|s| s.to_string()).collect();
    assert_eq!(set, expected);
}

#[test]
fn fit_records_exact_document_frequencies() {
    let mut engine = TFIDF::new();
    engine.fit(&["Blue house.", "Red house.", "Blue window."]);

    assert_eq!(engine.idf_scores.len(), 4);
    assert_eq!(get_idf(&engine, "blue").unwrap(), Idf { doc_freq: 2, corpus_size: 3 });
    assert_eq!(get_idf(&engine, "house").unwrap(), Idf { doc_freq: 2, corpus_size: 3 });
    assert_eq!(get_idf(&engine, "red").unwrap(), Idf { doc_freq: 1, corpus_size: 3 });
    assert_eq!(get_idf(&engine, "window").unwrap(), Idf { doc_freq: 1, corpus_size: 3 });

    // idf = ln(N/(df+1)+1), numerically
    let idf_blue = get_idf(&engine, "blue").unwrap();
    let v = f64::ln(idf_blue.corpus_size as f64 / (idf_blue.doc_freq as f64 + 1.0) + 1.0);
    assert!((v - f64::ln(2.0)).abs() < 1e-12);
    let idf_red = get_idf(&engine, "red").unwrap();
    let w = f64::ln(idf_red.corpus_size as f64 / (idf_red.doc_freq as f64 + 1.0) + 1.0);
    assert!((w - f64::ln(2.5)).abs() < 1e-12);
}

#[test]
fn refit_overwrites_the_table() {
    let mut engine = TFIDF::new();
    engine.fit(&["old vocabulary here"]);
    assert!(get_idf(&engine, "vocabulary").is_some());
    engine.fit(&["new words only"]);
    assert!(get_idf(&engine, "vocabulary").is_none());
    assert_eq!(get_idf(&engine, "new").unwrap(), Idf { doc_freq: 1, corpus_size: 1 });
}

#[test]
fn term_frequency_ignores_duplicates() {
    let mut engine = TFIDF::new();
    engine.fit(&["dog dog dog cat"]);
    let doc = engine.transform("dog dog dog cat");
    // two distinct terms, so tf = 1/2 for both, however often "dog" repeats
    let dog = get_score(&doc, "dog").unwrap();
    let cat = get_score(&doc, "cat").unwrap();
    assert_eq!(dog.num_terms, 2);
    assert_eq!(cat.num_terms, 2);
    assert_eq!(dog.idf, Idf { doc_freq: 1, corpus_size: 1 });
}

#[test]
fn transform_drops_out_of_vocabulary_terms() {
    let mut engine = TFIDF::new();
    engine.fit(&["Blue house.", "Red house.", "Blue window."]);
    let doc = engine.transform("blue unicorn");
    assert!(get_score(&doc, "blue").is_some());
    assert!(get_score(&doc, "unicorn").is_none());
    assert_eq!(doc.tfidf_scores.len(), 1);
    // n counts all distinct terms of the text, not only the scored ones
    assert_eq!(get_score(&doc, "blue").unwrap().num_terms, 2);
}

#[test]
fn transform_on_unfitted_index_yields_empty_scores() {
    let engine = TFIDF::new();
    let doc = engine.transform("anything at all");
    assert!(doc.tfidf_scores.is_empty());
    assert!(!doc.normalized);
}

#[test]
fn transform_empty_text_yields_empty_scores() {
    let mut engine = TFIDF::new();
    engine.fit(&["some corpus text"]);
    let doc = engine.transform("?!");
    assert!(doc.tfidf_scores.is_empty());
}

#[test]
fn worked_scenario_scores_and_normalization() {
    let mut engine = TFIDF::new();
    engine.fit(&["Blue house.", "Red house.", "Blue window."]);
    let mut doc = engine.transform("Blue house.");

    let blue = score_value(get_score(&doc, "blue").unwrap());
    let house = score_value(get_score(&doc, "house").unwrap());
    assert!((blue - 0.3466).abs() < 1e-4);
    assert!((house - 0.3466).abs() < 1e-4);

    doc.normalize_tfidf_scores();
    assert!(doc.normalized);
    let norm = (blue * blue + house * house).sqrt();
    assert!(norm > 0.0);
    let blue_n = blue / norm;
    let house_n = house / norm;
    assert!((blue_n - 0.7071).abs() < 1e-4);
    assert!((house_n - 0.7071).abs() < 1e-4);
    // the sum of squared normalized scores is one
    assert!((blue_n * blue_n + house_n * house_n - 1.0).abs() < 1e-12);
}

#[test]
fn normalize_is_idempotent() {
    let mut engine = TFIDF::new();
    engine.fit(&["Blue house.", "Red house.", "Blue window."]);
    let mut doc = engine.transform("Blue house.");
    doc.normalize_tfidf_scores();
    let scores_after_first = doc.tfidf_scores.clone();
    let flag_after_first = doc.normalized;
    doc.normalize_tfidf_scores();
    assert_eq!(doc.tfidf_scores, scores_after_first);
    assert_eq!(doc.normalized, flag_after_first);
}

#[test]
fn normalize_of_empty_score_map_is_a_no_op() {
    let mut doc = Document::new("no scores yet");
    doc.normalize_tfidf_scores();
    assert!(!doc.normalized);
    assert!(doc.tfidf_scores.is_empty());
}

#[test]
fn top_keywords_are_sorted_and_capped() {
    let mut engine = TFIDF::new();
    engine.fit(&["Blue house.", "Red house.", "Blue window."]);
    // dfs: blue 2, house 2, red 1, window 1; rarer terms score higher
    let doc = engine.transform("blue red house window");

    let top2: HashSet<String> = engine
        .transform("blue red house window")
        .get_top_keywords(2)
        .into_iter()
        .collect();
    let expected: HashSet<String> =
        ["red", "window"].iter().map(|s| s.to_string()).collect();
    assert_eq!(top2, expected);

    let all = doc.get_top_keywords(10);
    assert_eq!(all.len(), 4);
    let first_two: HashSet<String> = all[..2].iter().cloned().collect();
    assert_eq!(first_two, expected);
    // scores along the returned order never increase
    let values: Vec<f64> = all
        .iter()
        .map(|t| score_value(get_score(&doc, t).unwrap()))
        .collect();
    for pair in values.windows(2) {
        assert!(pair[0] >= pair[1]);
    }

    assert_eq!(doc.get_top_keywords(0).len(), 0);
    assert_eq!(doc.get_top_keywords(4).len(), 4);
}

#[test]
fn search_by_keyword_filters_by_key_membership() {
    let mut engine = TFIDF::new();
    let corpus = vec!["Blue house.", "Red house.", "Blue window."];
    engine.fit(&corpus);
    let docs = engine.transform_all(&corpus);

    let hits = engine.search_by_keyword("blue", &docs);
    assert_eq!(hits.len(), 2);
    assert_eq!(hits[0].content, "Blue house.");
    assert_eq!(hits[1].content, "Blue window.");

    let hits = engine.search_by_keyword("house", &docs);
    assert_eq!(hits.len(), 2);

    let hits = engine.search_by_keyword("unicorn", &docs);
    assert!(hits.is_empty());
}

#[test]
fn search_against_unfitted_index_finds_nothing() {
    let engine = TFIDF::new();
    let docs = engine.transform_all(&["Blue house.", "Red house."]);
    assert!(engine.search_by_keyword("blue", &docs).is_empty());
}

#[test]
fn transform_all_is_element_wise() {
    let mut engine = TFIDF::new();
    let corpus = vec!["Blue house.", "Red house."];
    engine.fit(&corpus);
    let docs = engine.transform_all(&corpus);
    assert_eq!(docs.len(), 2);
    assert_eq!(docs[0].content, "Blue house.");
    assert_eq!(docs[1].content, "Red house.");
    assert!(get_score(&docs[1], "red").is_some());
    assert!(get_score(&docs[1], "blue").is_none());
}
