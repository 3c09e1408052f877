use std::collections::HashMap;
use stream_analytics::DimensionKey;

fn pair(name: &str, value: &str) -> (String, String) {
    (name.to_string(), value.to_string())
}

#[test]
fn test_dimension_key() {
    let key1 = DimensionKey::new()
        .with_dimension("device", "agv_001")
        .with_dimension("sensor", "temp");

    let key2 = DimensionKey::new()
        .with_dimension("sensor", "temp")
        .with_dimension("device", "agv_001");

    assert_eq!(key1, key2);
}

#[test]
fn new_key_is_empty() {
    let key = DimensionKey::new();
    assert_eq!(key.len(), 0);
    assert!(key.dimensions().is_empty());
    assert_eq!(key, DimensionKey::default());
}

#[test]
fn with_dimension_orders_by_name() {
    let key = DimensionKey::new()
        .with_dimension("zone", "north")
        .with_dimension("device", "agv_001")
        .with_dimension("sensor", "temp");
    assert_eq!(
        key.dimensions(),
        &vec![pair("device", "agv_001"), pair("sensor", "temp"), pair("zone", "north")]
    );
}

#[test]
fn with_dimension_keeps_arrival_order_of_equal_names() {
    let key = DimensionKey::new()
        .with_dimension("device", "b")
        .with_dimension("device", "a");
    assert_eq!(key.dimensions(), &vec![pair("device", "b"), pair("device", "a")]);
}

#[test]
fn names_compare_by_bytes() {
    let key = DimensionKey::new()
        .with_dimension("b", "1")
        .with_dimension("a", "2")
        .with_dimension("B", "3")
        .with_dimension("ab", "4")
        .with_dimension("", "5")
        .with_dimension("é", "6");
    let names: Vec<&str> = key.dimensions().iter().map(|p| p.0.as_str()).collect();
    assert_eq!(names, vec!["", "B", "a", "ab", "b", "é"]);
}

#[test]
fn from_tags_sorts_the_map() {
    let mut tags = HashMap::new();
    tags.insert("sensor".to_string(), "temp".to_string());
    tags.insert("device".to_string(), "agv_001".to_string());
    tags.insert("zone".to_string(), "north".to_string());
    let key = DimensionKey::from_tags(&tags);
    assert_eq!(
        key.dimensions(),
        &vec![pair("device", "agv_001"), pair("sensor", "temp"), pair("zone", "north")]
    );
    let built = DimensionKey::new()
        .with_dimension("zone", "north")
        .with_dimension("sensor", "temp")
        .with_dimension("device", "agv_001");
    assert_eq!(key, built);
}

#[test]
fn from_tags_of_empty_map_is_empty_key() {
    let tags: HashMap<String, String> = HashMap::new();
    assert_eq!(DimensionKey::from_tags(&tags), DimensionKey::new());
}

#[test]
fn clone_equals_its_source() {
    let key = DimensionKey::new().with_dimension("device", "a");
    assert_eq!(key.clone(), key);
}
