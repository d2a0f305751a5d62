use autoorganize::distance::levenshtein_distance;
use autoorganize::search::{
    generate_snippet, paginate, Document, SearchEngine, SearchMode, SearchQuery, SearchResult,
    SortBy,
};
use autoorganize::numparse::parse_i64;
use autoorganize::search::result_order;
use autoorganize::text::tokenize;

fn create_test_document(id: &str, title: &str, content: &str) -> Document {
    Document {
        id: id.to_string(),
        title: title.to_string(),
        content: content.to_string(),
        created_at: 1640000000,
        size: content.len() as u64,
        metadata: Vec::new(),
    }
}

fn query(text: &str, mode: SearchMode) -> SearchQuery {
    SearchQuery {
        query: text.to_string(),
        filters: Vec::new(),
        limit: None,
        offset: None,
        sort_by: Some(SortBy::Relevance),
        search_mode: mode,
    }
}

fn relevance(r: &SearchResult) -> f64 {
    r.hits
        .iter()
        .map(|h| {
            let tf = h.occurrences as f64 / h.document_length as f64;
            let idf = if h.document_frequency == 0 {
                0.0
            } else {
                (h.total_documents as f64 / h.document_frequency as f64).ln()
            };
            let sim = 1.0 - h.distance as f64 / h.max_length as f64;
            tf * idf * sim
        })
        .sum()
}

#[test]
fn lib_test_search_engine_creation() {
    let engine = SearchEngine::new();
    assert_eq!(engine.get_document_count(), 0);
}

#[test]
fn test_add_document() {
    let mut engine = SearchEngine::new();
    let doc = create_test_document("1", "Test Document", "This is a test document with some content.");
    let result = engine.add_document(doc);
    assert!(result.is_ok());
    assert_eq!(engine.get_document_count(), 1);
}

#[test]
fn test_remove_document() {
    let mut engine = SearchEngine::new();
    let doc = create_test_document("1", "Test Document", "This is a test document.");
    engine.add_document(doc).unwrap();
    assert_eq!(engine.get_document_count(), 1);
    let result = engine.remove_document("1");
    assert!(result.is_ok());
    assert_eq!(engine.get_document_count(), 0);
}

#[test]
fn remove_unknown_document_fails() {
    let mut engine = SearchEngine::new();
    assert!(engine.remove_document("missing").is_err());
}

#[test]
fn test_standard_search() {
    let mut engine = SearchEngine::new();
    let doc1 = create_test_document("1", "First Document", "This document contains information about rust programming.");
    let doc2 = create_test_document("2", "Second Document", "This document talks about python programming.");
    engine.add_document(doc1).unwrap();
    engine.add_document(doc2).unwrap();
    let results = engine.search(&query("rust programming", SearchMode::Standard)).unwrap();
    assert!(!results.is_empty());
    assert_eq!(results[0].document_id, "1");
}

#[test]
fn standard_search_ranks_rust_document_first() {
    let mut engine = SearchEngine::new();
    engine
        .add_document(create_test_document("A", "A", "This document contains information about rust programming."))
        .unwrap();
    engine
        .add_document(create_test_document("B", "B", "This document talks about python programming."))
        .unwrap();
    let results = engine.search(&query("rust programming", SearchMode::Standard)).unwrap();
    let ids: Vec<&str> = results.iter().map(|r| r.document_id.as_str()).collect();
    assert_eq!(ids, vec!["A", "B"]);
    assert!(relevance(&results[0]) > relevance(&results[1]));
}

#[test]
fn test_fuzzy_search() {
    let mut engine = SearchEngine::new();
    let doc = create_test_document("1", "Document", "This document contains programming information.");
    engine.add_document(doc).unwrap();
    let results = engine.search(&query("programing", SearchMode::Fuzzy)).unwrap();
    assert!(!results.is_empty());
}

#[test]
fn fuzzy_finds_misspelling_that_standard_misses() {
    let mut engine = SearchEngine::new();
    engine
        .add_document(create_test_document("1", "Document", "This document contains programming information."))
        .unwrap();
    let fuzzy = engine.search(&query("programing", SearchMode::Fuzzy)).unwrap();
    assert_eq!(fuzzy.len(), 1);
    assert_eq!(fuzzy[0].hits[0].term, "programming");
    assert_eq!(fuzzy[0].hits[0].distance, 1);
    assert_eq!(fuzzy[0].hits[0].max_length, 11);
    let standard = engine.search(&query("programing", SearchMode::Standard)).unwrap();
    assert!(standard.is_empty());
}

#[test]
fn test_boolean_search() {
    let mut engine = SearchEngine::new();
    engine.add_document(create_test_document("1", "Doc1", "This document contains rust and programming.")).unwrap();
    engine.add_document(create_test_document("2", "Doc2", "This document contains python programming.")).unwrap();
    engine.add_document(create_test_document("3", "Doc3", "This document contains rust only.")).unwrap();
    let results = engine.search(&query("rust and programming", SearchMode::Boolean)).unwrap();
    assert_eq!(results.len(), 1);
    assert_eq!(results[0].document_id, "1");
}

#[test]
fn boolean_upper_case_and_or() {
    let mut engine = SearchEngine::new();
    engine.add_document(create_test_document("D1", "D1", "rust and programming")).unwrap();
    engine.add_document(create_test_document("D2", "D2", "python programming")).unwrap();
    engine.add_document(create_test_document("D3", "D3", "rust only")).unwrap();
    let and = engine.search(&query("rust AND programming", SearchMode::Boolean)).unwrap();
    let ids: Vec<&str> = and.iter().map(|r| r.document_id.as_str()).collect();
    assert_eq!(ids, vec!["D1"]);
    let or = engine.search(&query("python OR only", SearchMode::Boolean)).unwrap();
    let ids: Vec<&str> = or.iter().map(|r| r.document_id.as_str()).collect();
    assert_eq!(ids, vec!["D2", "D3"]);
}

#[test]
fn test_wildcard_search() {
    let mut engine = SearchEngine::new();
    engine
        .add_document(create_test_document("1", "Document", "This document contains programming and development."))
        .unwrap();
    let results = engine.search(&query("program*", SearchMode::Wildcard)).unwrap();
    assert!(!results.is_empty());
    assert_eq!(results[0].hits[0].term, "programming");
}

#[test]
fn invalid_wildcard_pattern_is_an_error() {
    let mut engine = SearchEngine::new();
    engine.add_document(create_test_document("1", "Document", "text")).unwrap();
    assert!(engine.search(&query("(unclosed*", SearchMode::Wildcard)).is_err());
}

#[test]
fn semantic_search_is_not_implemented() {
    let engine = SearchEngine::new();
    assert!(engine.search(&query("anything", SearchMode::Semantic)).is_err());
}

#[test]
fn test_search_with_filters() {
    let mut engine = SearchEngine::new();
    let mut doc = create_test_document("1", "Document", "This is a test document.");
    doc.metadata = vec![("content_type".to_string(), "pdf".to_string())];
    engine.add_document(doc).unwrap();
    let mut q = query("test", SearchMode::Standard);
    q.filters = vec![("content_type".to_string(), "pdf".to_string())];
    let results = engine.search(&q).unwrap();
    assert!(!results.is_empty());
}

#[test]
fn size_filters_apply() {
    let mut engine = SearchEngine::new();
    engine.add_document(create_test_document("1", "Document", "test content")).unwrap();
    let mut q = query("test", SearchMode::Standard);
    q.filters = vec![("min_size".to_string(), "100".to_string())];
    assert!(engine.search(&q).unwrap().is_empty());
    q.filters = vec![("max_size".to_string(), "+100".to_string())];
    assert_eq!(engine.search(&q).unwrap().len(), 1);
    q.filters = vec![("content_type".to_string(), "pdf".to_string())];
    assert_eq!(engine.search(&q).unwrap().len(), 1);
}

#[test]
fn test_pagination() {
    let mut engine = SearchEngine::new();
    for i in 1..=10 {
        let doc = create_test_document(&i.to_string(), &format!("Document {}", i), "test content");
        engine.add_document(doc).unwrap();
    }
    let results = engine.search(&query("test", SearchMode::Standard)).unwrap();
    let page = paginate(results, Some(0), Some(5));
    assert_eq!(page.len(), 5);
}

#[test]
fn offset_past_end_gives_empty_page() {
    let items = vec![1, 2, 3];
    assert!(paginate(items.clone(), Some(3), Some(2)).is_empty());
    assert_eq!(paginate(items.clone(), Some(1), None), vec![2, 3]);
    assert_eq!(paginate(items, None, Some(2)), vec![1, 2]);
}

#[test]
fn empty_query_returns_nothing() {
    let mut engine = SearchEngine::new();
    engine.add_document(create_test_document("1", "Doc", "some words")).unwrap();
    assert!(engine.search(&query("", SearchMode::Standard)).unwrap().is_empty());
}

#[test]
fn test_tokenization() {
    let tokens = tokenize("This is a test, with punctuation!");
    assert!(tokens.contains(&"test".to_string()));
    assert!(tokens.contains(&"punctuation".to_string()));
    assert!(!tokens.contains(&"is".to_string()));
    assert_eq!(tokens, vec!["this", "test", "punctuation"]);
}

#[test]
fn test_levenshtein_distance() {
    assert_eq!(levenshtein_distance("cat", "cat"), 0);
    assert_eq!(levenshtein_distance("cat", "bat"), 1);
    assert_eq!(levenshtein_distance("kitten", "sitting"), 3);
}

#[test]
fn test_edit_distance() {
    assert_eq!(levenshtein_distance("kitten", "sitting"), 3);
    assert_eq!(levenshtein_distance("hello", "hello"), 0);
    assert_eq!(levenshtein_distance("", "abc"), 3);
    assert_eq!(levenshtein_distance("abc", ""), 3);
}

#[test]
fn lib_test_snippet_generation() {
    let content = "This is a very long document with lots of content. We want to test snippet generation.";
    let snippet = generate_snippet(content, "test", 50);
    assert!(snippet.contains("test"));
    assert!(snippet.len() <= 60);
}

#[test]
fn snippet_window_and_markers() {
    let content = "abcdefghij keyword klmnopqrst";
    let snippet = generate_snippet(content, "keyword", 10);
    assert_eq!(snippet, "\u{2026}ghij keywo\u{2026}");
    assert_eq!(generate_snippet("short text", "absent", 50), "short text");
    assert_eq!(generate_snippet("0123456789", "absent", 4), "0123\u{2026}");
}

#[test]
fn test_clear_index() {
    let mut engine = SearchEngine::new();
    engine.add_document(create_test_document("1", "Document", "Test content")).unwrap();
    assert_eq!(engine.get_document_count(), 1);
    engine.clear_index();
    assert_eq!(engine.get_document_count(), 0);
}

#[test]
fn test_index_stats() {
    let mut engine = SearchEngine::new();
    engine
        .add_document(create_test_document("1", "Document", "This is test content with unique words."))
        .unwrap();
    let stats = engine.get_index_stats();
    assert_eq!(stats.total_documents, 1);
    assert!(stats.total_terms > 0);
    assert_eq!(stats.total_terms, 6);
}

#[test]
fn reingest_same_document_is_idempotent() {
    let mut engine = SearchEngine::new();
    let doc = create_test_document("1", "Doc", "alpha beta");
    engine.add_document(doc.clone()).unwrap();
    let before = engine.get_index_stats();
    engine.add_document(doc).unwrap();
    let after = engine.get_index_stats();
    assert_eq!(engine.get_document_count(), 1);
    assert_eq!(before.total_terms, after.total_terms);
    assert_eq!(engine.df("alpha"), 1);
}

#[test]
fn stored_document_round_trips() {
    let mut engine = SearchEngine::new();
    engine.add_document(create_test_document("7", "Title", "exact content, kept")).unwrap();
    let d = engine.get_document("7").unwrap();
    assert_eq!(d.content, "exact content, kept");
    assert!(engine.get_document("8").is_none());
}

#[test]
fn delete_removes_all_postings() {
    let mut engine = SearchEngine::new();
    engine.add_document(create_test_document("1", "One", "shared word")).unwrap();
    engine.add_document(create_test_document("2", "Two", "shared other")).unwrap();
    assert_eq!(engine.df("shared"), 2);
    engine.remove_document("1").unwrap();
    assert_eq!(engine.df("shared"), 1);
    assert!(engine.postings("word").is_empty());
    assert!(engine.postings("shared").iter().all(|p| p.document_id != "1"));
}

#[test]
fn test_inverted_index() {
    let mut engine = SearchEngine::new();
    engine.add_document(create_test_document("1", "", "hello world")).unwrap();
    engine.add_document(create_test_document("2", "", "world test")).unwrap();
    let postings = engine.postings("world");
    assert_eq!(postings.len(), 2);
    assert_eq!(postings[0].document_id, "1");
    assert_eq!(postings[1].document_id, "2");
    assert_eq!(postings[0].positions, vec![1]);
    assert_eq!(postings[1].positions, vec![0]);
    assert_eq!(engine.df("world"), 2);
}

#[test]
fn zero_token_document_has_no_postings() {
    let mut engine = SearchEngine::new();
    engine.add_document(create_test_document("1", "", "the and of")).unwrap();
    assert_eq!(engine.get_document_count(), 1);
    assert_eq!(engine.get_index_stats().total_terms, 0);
}

#[test]
fn rebuild_keeps_documents_and_postings() {
    let mut engine = SearchEngine::new();
    engine.add_document(create_test_document("1", "T", "alpha beta alpha")).unwrap();
    engine.rebuild_index();
    assert_eq!(engine.get_document_count(), 1);
    assert_eq!(engine.postings("alpha")[0].positions, vec![0, 2]);
}

fn result_with(title: &str, meta: Vec<(&str, &str)>) -> autoorganize::search::SearchResult {
    autoorganize::search::SearchResult {
        document_id: title.to_string(),
        title: title.to_string(),
        content_snippet: String::new(),
        match_positions: Vec::new(),
        metadata: meta.into_iter().map(|(k, v)| (k.to_string(), v.to_string())).collect(),
        hits: Vec::new(),
    }
}

#[test]
fn results_order_by_title_date_and_size() {
    let rs = vec![
        result_with("b", vec![("created_at", "-5"), ("size", "10")]),
        result_with("a", vec![("created_at", "100"), ("size", "x")]),
        result_with("c", vec![("size", "30")]),
    ];
    assert_eq!(result_order(&rs, SortBy::Title), vec![1, 0, 2]);
    assert_eq!(result_order(&rs, SortBy::Date), vec![1, 2, 0]);
    assert_eq!(result_order(&rs, SortBy::Size), vec![2, 0, 1]);
    assert_eq!(result_order(&rs, SortBy::Relevance), vec![0, 1, 2]);
}

#[test]
fn blank_query_returns_nothing_in_every_mode() {
    let mut engine = SearchEngine::new();
    engine.add_document(create_test_document("1", "Doc", "some words")).unwrap();
    for mode in [SearchMode::Standard, SearchMode::Fuzzy, SearchMode::Boolean, SearchMode::Wildcard] {
        assert!(engine.search(&query("  ", mode)).unwrap().is_empty());
    }
}

#[test]
fn signed_numbers_parse_like_i64() {
    assert_eq!(parse_i64("-9223372036854775808"), Some(i64::MIN));
    assert_eq!(parse_i64("+42"), Some(42));
    assert_eq!(parse_i64("-+4"), None);
    assert_eq!(parse_i64("9223372036854775808"), None);
    assert_eq!(parse_i64("-"), None);
}
