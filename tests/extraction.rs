use autoorganize::entities::RegexEntityExtractor;
use autoorganize::encryption::EncryptionUtils;
use autoorganize::engine::AutoOrganizeError;
use autoorganize::ranker::{DiversityKey, ResultDiversifier, SearchResultType};

#[test]
fn extracts_email_and_url_only() {
    let extractor = RegexEntityExtractor::new();
    let entities = extractor.extract_entities("Contact us at test@example.com or visit https://example.com");
    assert_eq!(entities.len(), 2);
    let email = entities.iter().find(|e| e.entity_type == "email").unwrap();
    assert_eq!(email.name, "test@example.com");
    let url = entities.iter().find(|e| e.entity_type == "url").unwrap();
    assert_eq!(url.name, "https://example.com");
    assert!(email.end_position <= url.start_position || url.end_position <= email.start_position);
}

#[test]
fn test_regex_entity_extractor() {
    let extractor = RegexEntityExtractor::new();
    let text = "Contact John Doe at john.doe@example.com or call (555) 123-4567. Visit https://example.com for more info.";
    let entities = extractor.extract_entities(text);
    assert!(!entities.is_empty());
    let emails: Vec<_> = entities.iter().filter(|e| e.entity_type == "email").collect();
    assert_eq!(emails[0].name, "john.doe@example.com");
    assert!(entities.iter().any(|e| e.entity_type == "phone"));
    let urls: Vec<_> = entities.iter().filter(|e| e.entity_type == "url").collect();
    assert_eq!(urls[0].name, "https://example.com");
    for (i, a) in entities.iter().enumerate() {
        for b in entities.iter().skip(i + 1) {
            assert!(a.end_position <= b.start_position || b.end_position <= a.start_position);
        }
    }
}

#[test]
fn test_custom_pattern() {
    let mut extractor = RegexEntityExtractor::new();
    assert!(extractor.add_custom_pattern("product".to_string(), r"\bPRD-\d{4}\b", 90).is_ok());
    let entities = extractor.extract_entities("Order PRD-1234 today");
    assert!(entities.iter().any(|e| e.entity_type == "product" && e.name == "PRD-1234"));
    assert!(extractor.add_custom_pattern("bad".to_string(), "(", 50).is_err());
}

#[test]
fn test_encryption_utils() {
    assert!(EncryptionUtils::constant_time_compare(b"hello", b"hello"));
    assert!(!EncryptionUtils::constant_time_compare(b"hello", b"world"));
    assert!(!EncryptionUtils::constant_time_compare(b"short", b"longer_data"));
}

#[test]
fn test_result_diversification() {
    let diversifier = ResultDiversifier::new();
    let keys: Vec<DiversityKey> = (0..3)
        .map(|_| DiversityKey { result_type: SearchResultType::Document, source_type: "unknown".to_string() })
        .collect();
    let kept = diversifier.diversify_results(&keys);
    assert!(!kept.is_empty());
}

#[test]
fn diversification_caps_per_source() {
    let mut diversifier = ResultDiversifier::new();
    diversifier.set_diversity_limits(10, 2);
    let keys: Vec<DiversityKey> = ["a", "a", "b", "a", "b", "b"]
        .iter()
        .map(|s| DiversityKey { result_type: SearchResultType::Document, source_type: s.to_string() })
        .collect();
    assert_eq!(diversifier.diversify_results(&keys), vec![0, 1, 2, 4]);
}

#[test]
fn error_messages_carry_heading_and_detail() {
    let e = AutoOrganizeError::SearchError("bad query".to_string());
    assert_eq!(e.to_message(), "Search error: bad query");
}

fn entity(kind: &str, name: &str) -> autoorganize::entities::ExtractedEntity {
    autoorganize::entities::ExtractedEntity {
        id: String::new(),
        entity_type: kind.to_string(),
        name: name.to_string(),
        confidence: 90,
        start_position: 0,
        end_position: name.len(),
    }
}

#[test]
fn entity_search_filters_and_sorts_by_name() {
    let es = vec![
        entity("person", "Zoe Smith"),
        entity("organization", "Acme Corp"),
        entity("person", "Adam Smith"),
        entity("person", "Bob Jones"),
    ];
    let hits = autoorganize::entities::search_entities(&es, "Smith", &Vec::new(), 10);
    assert_eq!(hits, vec![2, 0]);
    let people = autoorganize::entities::search_entities(&es, "", &vec!["person".to_string()], 2);
    assert_eq!(people, vec![2, 3]);
    assert!(autoorganize::entities::search_entities(&es, "nobody", &Vec::new(), 10).is_empty());
}

#[test]
fn highlights_are_sorted_and_disjoint() {
    let hs = autoorganize::search::generate_highlights(
        "This is a test document with test content for testing.",
        "test content",
    );
    let spans: Vec<(usize, usize)> = hs.iter().map(|h| (h.start, h.end)).collect();
    assert_eq!(spans, vec![(10, 14), (29, 33), (34, 41), (46, 50)]);
    assert!(hs.iter().all(|h| h.text == "test" || h.text == "content"));
}

#[test]
fn entity_spans_count_characters() {
    let extractor = RegexEntityExtractor::new();
    let text = "Café: test@example.com";
    let entities = extractor.extract_entities(text);
    let email = entities.iter().find(|e| e.entity_type == "email").unwrap();
    assert_eq!((email.start_position, email.end_position), (6, 22));
    assert_eq!(text.chars().count(), 22);
}
