use autoorganize::similarity::TextPreprocessor;

#[test]
fn test_text_preprocessor() {
    let tokens = vec![
        "the".to_string(),
        "quick".to_string(),
        "brown".to_string(),
        "fox".to_string(),
        "is".to_string(),
        "running".to_string(),
    ];
    let filtered = TextPreprocessor::remove_stop_words(&tokens);
    assert!(filtered.len() < tokens.len());
    assert!(filtered.contains(&"quick".to_string()));
    assert!(filtered.contains(&"brown".to_string()));
    assert!(!filtered.contains(&"the".to_string()));
    assert!(!filtered.contains(&"is".to_string()));
}

#[test]
fn test_ngram_extraction() {
    let tokens = vec!["hello".to_string(), "world".to_string(), "test".to_string()];
    let bigrams = TextPreprocessor::extract_ngrams(&tokens, 2);
    assert_eq!(bigrams.len(), 2);
    assert!(bigrams.contains(&"hello world".to_string()));
    assert!(bigrams.contains(&"world test".to_string()));
}

#[test]
fn ngram_edge_cases() {
    let tokens = vec!["a".to_string(), "b".to_string()];
    assert!(TextPreprocessor::extract_ngrams(&tokens, 0).is_empty());
    assert!(TextPreprocessor::extract_ngrams(&tokens, 3).is_empty());
    assert_eq!(TextPreprocessor::extract_ngrams(&tokens, 2), vec!["a b".to_string()]);
}

#[test]
fn test_term_frequency() {
    let tokens = vec!["hello".to_string(), "world".to_string(), "hello".to_string(), "test".to_string()];
    let counts = TextPreprocessor::term_counts(&tokens);
    let total = tokens.len() as f64;
    let tf = |t: &str| counts.iter().find(|(k, _)| k == t).map(|(_, c)| *c as f64 / total).unwrap();
    assert!((tf("hello") - 0.5).abs() < 0.01);
    assert!((tf("world") - 0.25).abs() < 0.01);
    assert!((tf("test") - 0.25).abs() < 0.01);
    assert_eq!(counts[0], ("hello".to_string(), 2));
}
