use systematics_embeddings::index::VectorIndex;
use systematics_embeddings::similarity::SCALE;

fn meta(text: &str) -> serde_json::Value {
    serde_json::from_str::<serde_json::Value>(text).unwrap()
}

#[test]
fn test_add_get_count() {
    let mut index = VectorIndex::new();
    assert_eq!(index.count(), 0);
    index.add("a", vec![SCALE, 0], "cat".to_string(), None);
    assert_eq!(index.count(), 1);
    let doc = index.get("a").unwrap();
    assert_eq!(doc.id, "a");
    assert_eq!(doc.embedding, vec![SCALE, 0]);
    assert_eq!(doc.text, "cat");
    assert!(doc.metadata.is_none());
    assert!(index.get("b").is_none());
}

#[test]
fn test_readd_replaces_entry_and_keeps_count() {
    let mut index = VectorIndex::new();
    index.add("a", vec![SCALE, 0], "cat".to_string(), None);
    index.add("b", vec![0, SCALE], "dog".to_string(), None);
    assert_eq!(index.count(), 2);

    let m = meta("{\"kind\":\"feline\",\"legs\":4}");
    index.add("a", vec![0, -SCALE], "tiger".to_string(), Some(m.clone()));
    assert_eq!(index.count(), 2);

    let doc = index.get("a").unwrap();
    assert_eq!(doc.embedding, vec![0, -SCALE]);
    assert_eq!(doc.text, "tiger");
    assert_eq!(doc.metadata.unwrap(), m);
}

#[test]
fn test_delete_present_and_absent() {
    let mut index = VectorIndex::new();
    index.add("a", vec![SCALE], "one".to_string(), None);
    index.add("b", vec![-SCALE], "two".to_string(), None);

    assert!(index.delete("a"));
    assert_eq!(index.count(), 1);
    assert!(index.get("a").is_none());

    assert!(!index.delete("a"));
    assert_eq!(index.count(), 1);
    assert!(index.get("b").is_some());
}

#[test]
fn test_clear_empties_index() {
    let mut index = VectorIndex::new();
    index.add("a", vec![SCALE], "one".to_string(), None);
    index.add("b", vec![-SCALE], "two".to_string(), None);
    index.clear();
    assert_eq!(index.count(), 0);
    assert!(index.get("a").is_none());
    assert!(index.get("b").is_none());
}

#[test]
fn test_search_limit_and_score_order() {
    let mut index = VectorIndex::new();
    index.add("a", vec![SCALE, 0], "east".to_string(), None);
    index.add("b", vec![0, SCALE], "north".to_string(), None);
    index.add("c", vec![-SCALE, 0], "west".to_string(), None);
    index.add("d", vec![SCALE, SCALE], "northeast".to_string(), None);

    let query = vec![SCALE, 0];
    let results = index.search(&query, 2);
    assert_eq!(results.len(), 2);
    assert!(results[0].score >= results[1].score);
    assert_eq!(results[0].id, "a");
    assert_eq!(results[0].score, SCALE);

    let all = index.search(&query, 10);
    assert_eq!(all.len(), 4);
    for w in all.windows(2) {
        assert!(w[0].score >= w[1].score);
    }
    assert_eq!(all[3].id, "c");
}

#[test]
fn test_search_scenario_cat_dog() {
    let mut index = VectorIndex::new();
    index.add("a", vec![SCALE, 0], "cat".to_string(), None);
    index.add("b", vec![0, SCALE], "dog".to_string(), None);

    let results = index.search(&vec![SCALE, 0], 1);
    assert_eq!(results.len(), 1);
    assert_eq!(results[0].id, "a");
    assert_eq!(results[0].text, "cat");
    assert!((results[0].score - SCALE).abs() < SCALE / 1000);
}

#[test]
fn test_search_tie_break_first_added() {
    let mut index = VectorIndex::new();
    // Identical embeddings: every query scores them equally.
    index.add("late", vec![SCALE, SCALE], "first in".to_string(), None);
    index.add("early", vec![SCALE, SCALE], "second in".to_string(), None);

    let query = vec![SCALE, 0];
    let all = index.search(&query, 10);
    assert_eq!(all[0].id, "late");
    assert_eq!(all[1].id, "early");

    // Truncation keeps the first-added of the tied pair.
    let top = index.search(&query, 1);
    assert_eq!(top.len(), 1);
    assert_eq!(top[0].id, "late");

    // Re-adding does not move an id in the tie-break order.
    index.add("late", vec![SCALE, SCALE], "replaced".to_string(), None);
    let top = index.search(&query, 1);
    assert_eq!(top[0].id, "late");
    assert_eq!(top[0].text, "replaced");
}

#[test]
fn test_search_empty_index() {
    let index = VectorIndex::new();
    let results = index.search(&vec![SCALE, 0, 0], 5);
    assert!(results.is_empty());
}

#[test]
fn test_metadata_survives_storage() {
    let mut index = VectorIndex::new();
    let m = meta("[1,2,{\"nested\":true},null]");
    index.add("doc", vec![SCALE], "body".to_string(), Some(m.clone()));
    let got = index.get("doc").unwrap();
    assert_eq!(got.metadata.unwrap(), m);
}
