use autoorganize::pipeline::{DocumentStore, IngestOutcome};
use autoorganize::search::{Document, SearchMode, SearchQuery};

fn doc(id: &str, content: &str) -> Document {
    Document {
        id: id.to_string(),
        title: "foo".to_string(),
        content: content.to_string(),
        created_at: 0,
        size: content.len() as u64,
        metadata: Vec::new(),
    }
}

#[test]
fn ingesting_unchanged_file_twice_is_a_no_op() {
    let mut store = DocumentStore::new();
    let first = store.ingest("/d/foo.txt".to_string(), "h1".to_string(), doc("id1", "alpha beta"));
    assert!(matches!(first, IngestOutcome::Indexed(ref id) if id == "id1"));
    let terms = store.engine().get_index_stats().total_terms;
    let second = store.ingest("/d/foo.txt".to_string(), "h1".to_string(), doc("id1", "alpha beta"));
    assert!(matches!(second, IngestOutcome::Unchanged(ref id) if id == "id1"));
    assert_eq!(store.engine().get_document_count(), 1);
    assert_eq!(store.engine().get_index_stats().total_terms, terms);
    assert!(store.is_unchanged("/d/foo.txt", "h1"));
}

#[test]
fn changed_file_replaces_its_document() {
    let mut store = DocumentStore::new();
    store.ingest("/d/foo.txt".to_string(), "h1".to_string(), doc("id1", "alpha"));
    store.ingest("/d/foo.txt".to_string(), "h2".to_string(), doc("id2", "gamma"));
    assert_eq!(store.engine().get_document_count(), 1);
    assert!(store.engine().get_document("id1").is_none());
    assert_eq!(store.engine().df("alpha"), 0);
    assert_eq!(store.engine().df("gamma"), 1);
}

#[test]
fn deleting_a_path_cascades_to_postings() {
    let mut store = DocumentStore::new();
    store.ingest("/d/foo.txt".to_string(), "h1".to_string(), doc("id1", "alpha beta"));
    assert!(store.delete_path("/d/foo.txt"));
    assert!(!store.delete_path("/d/foo.txt"));
    assert_eq!(store.engine().get_document_count(), 0);
    assert!(store.engine().postings("alpha").is_empty());
}

#[test]
fn ingested_file_is_found_by_search() {
    let mut store = DocumentStore::new();
    store.ingest("/d/foo.txt".to_string(), "h1".to_string(), doc("id1", "alpha beta"));
    let q = SearchQuery {
        query: "alpha".to_string(),
        filters: Vec::new(),
        limit: None,
        offset: None,
        sort_by: None,
        search_mode: SearchMode::Standard,
    };
    let results = store.engine().search(&q).unwrap();
    assert_eq!(results.len(), 1);
    assert_eq!(results[0].title, "foo");
}

#[test]
fn document_for_a_file() {
    let d = autoorganize::pipeline::document_for("/docs/foo.txt", "p1", "c9", "alpha beta".to_string(), 7, 10);
    assert_eq!(d.id, "p1-c9");
    assert_eq!(d.title, "foo");
    assert_eq!(d.metadata[0], ("content_type".to_string(), "text/plain".to_string()));
    assert_eq!(d.metadata[1], ("file_path".to_string(), "/docs/foo.txt".to_string()));
}
