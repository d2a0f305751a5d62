use autoorganize::graph::{EntityRelationship, GraphDatabase};

fn rel(id: &str, from: &str, to: &str, kind: &str) -> EntityRelationship {
    EntityRelationship {
        id: id.to_string(),
        source_entity_id: from.to_string(),
        target_entity_id: to.to_string(),
        relationship_type: kind.to_string(),
        strength: 80,
        confidence: 90,
        created_at: 1_700_000_000,
        metadata: "{}".to_string(),
    }
}

#[test]
fn test_relationship_storage_and_retrieval() {
    let mut db = GraphDatabase::new();
    db.store_relationship(rel("r1", "entity1", "entity2", "related_to"));
    let got = db.get_relationship("r1").unwrap();
    assert_eq!(got.source_entity_id, "entity1");
    assert_eq!(got.target_entity_id, "entity2");
    assert_eq!(got.relationship_type, "related_to");
    assert!(db.get_relationship("missing").is_none());
}

#[test]
fn test_entity_relationships_lookup() {
    let mut db = GraphDatabase::new();
    db.store_relationship(rel("r1", "entity1", "entity2", "related_to"));
    assert_eq!(db.get_entity_relationships("entity1"), vec!["r1".to_string()]);
    assert_eq!(db.get_entity_relationships("entity2"), vec!["r1".to_string()]);
    assert_eq!(db.get_relationships_by_type("related_to"), vec!["r1".to_string()]);
    assert!(db.get_relationships_by_type("other").is_empty());
}

#[test]
fn test_relationship_deletion() {
    let mut db = GraphDatabase::new();
    db.store_relationship(rel("r1", "entity1", "entity2", "related_to"));
    db.delete_relationship("r1");
    assert!(db.get_relationship("r1").is_none());
    assert!(db.get_entity_relationships("entity1").is_empty());
    db.delete_relationship("unknown");
}

#[test]
fn test_connected_entities() {
    let mut db = GraphDatabase::new();
    db.store_relationship(rel("r1", "entity1", "entity2", "connects"));
    db.store_relationship(rel("r2", "entity2", "entity3", "connects"));
    let one = db.get_connected_entities("entity1", 1);
    assert_eq!(one, vec!["entity2".to_string()]);
    let two = db.get_connected_entities("entity1", 2);
    assert_eq!(two, vec!["entity2".to_string(), "entity3".to_string()]);
    let back = db.get_connected_entities("entity3", 5);
    assert_eq!(back, vec!["entity2".to_string(), "entity1".to_string()]);
}

#[test]
fn shortest_path_found_and_missing() {
    let mut db = GraphDatabase::new();
    db.store_relationship(rel("r1", "a", "b", "x"));
    db.store_relationship(rel("r2", "b", "c", "x"));
    db.store_relationship(rel("r3", "a", "c", "x"));
    db.store_relationship(rel("r4", "d", "e", "x"));
    assert_eq!(db.find_shortest_path("a", "c"), Some(vec!["a".to_string(), "c".to_string()]));
    assert_eq!(db.find_shortest_path("c", "a"), Some(vec!["c".to_string(), "a".to_string()]));
    assert_eq!(db.find_shortest_path("a", "a"), Some(vec!["a".to_string()]));
    assert_eq!(db.find_shortest_path("a", "e"), None);
}

#[test]
fn test_graph_statistics() {
    let mut db = GraphDatabase::new();
    db.store_relationship(rel("r1", "a", "b", "knows"));
    db.store_relationship(rel("r2", "a", "c", "knows"));
    db.store_relationship(rel("r3", "b", "c", "works_with"));
    let stats = db.calculate_graph_statistics();
    assert_eq!(stats.total_entities, 3);
    assert_eq!(stats.total_relationships, 3);
    assert_eq!(stats.relationship_types, vec![("knows".to_string(), 2), ("works_with".to_string(), 1)]);
    assert_eq!(stats.max_degree, 2);
}

#[test]
fn deleting_an_entity_cascades_to_its_relationships() {
    let mut db = GraphDatabase::new();
    db.store_relationship(rel("r1", "a", "b", "x"));
    db.store_relationship(rel("r2", "b", "c", "x"));
    db.store_relationship(rel("r3", "c", "d", "x"));
    assert_eq!(db.delete_entity_relationships("b"), 2);
    assert!(db.get_relationship("r1").is_none());
    assert!(db.get_relationship("r2").is_none());
    assert!(db.get_relationship("r3").is_some());
    assert!(db.get_entity_relationships("b").is_empty());
}

#[test]
fn connected_entities_come_nearest_first() {
    let mut db = GraphDatabase::new();
    db.store_relationship(rel("r1", "c", "d", "x"));
    db.store_relationship(rel("r2", "b", "c", "x"));
    db.store_relationship(rel("r3", "a", "b", "x"));
    assert_eq!(
        db.get_connected_entities("a", 3),
        vec!["b".to_string(), "c".to_string(), "d".to_string()]
    );
}
