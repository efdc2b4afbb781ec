use clickhouse_utils::serde::map::{deserialize, serialize, StringMap};

fn pairs(entries: &[(&str, &str)]) -> Vec<(String, String)> {
    entries
        .iter()
        .map(|(k, v)| (k.to_string(), v.to_string()))
        .collect()
}

#[test]
fn empty_map_serializes_to_no_pairs() {
    let m = StringMap::new();
    assert!(serialize(&m).is_empty());
}

#[test]
fn insert_and_get() {
    let mut m = StringMap::new();
    m.insert("region".to_string(), "eu".to_string());
    m.insert("tier".to_string(), "gold".to_string());
    assert_eq!(m.get(&"region".to_string()), Some(&"eu".to_string()));
    assert_eq!(m.get(&"tier".to_string()), Some(&"gold".to_string()));
    assert_eq!(m.get(&"absent".to_string()), None);
}

#[test]
fn insert_overwrites_earlier_binding() {
    let mut m = StringMap::new();
    m.insert("k".to_string(), "old".to_string());
    m.insert("k".to_string(), "new".to_string());
    assert_eq!(m.get(&"k".to_string()), Some(&"new".to_string()));
    assert_eq!(serialize(&m).len(), 1);
}

#[test]
fn deserialize_later_pair_wins() {
    let m = deserialize(pairs(&[("k", "first"), ("other", "x"), ("k", "second")]));
    assert_eq!(m.get(&"k".to_string()), Some(&"second".to_string()));
    assert_eq!(m.get(&"other".to_string()), Some(&"x".to_string()));
    assert_eq!(serialize(&m).len(), 2);
}

#[test]
fn round_trip_preserves_the_map() {
    let original = deserialize(pairs(&[("a", "1"), ("b", "2"), ("c", "3")]));
    let wire = serialize(&original);
    assert_eq!(wire.len(), 3);
    let back = deserialize(wire);
    for key in ["a", "b", "c"] {
        assert_eq!(back.get(&key.to_string()), original.get(&key.to_string()));
    }
}

#[test]
fn serialized_pairs_carry_each_key_once() {
    let m = deserialize(pairs(&[("k", "1"), ("k", "2"), ("j", "3")]));
    let wire = serialize(&m);
    let mut keys: Vec<&str> = wire.iter().map(|p| p.0.as_str()).collect();
    keys.sort();
    assert_eq!(keys, vec!["j", "k"]);
}

#[test]
fn to_pairs_matches_serialize() {
    let m = deserialize(pairs(&[("a", "1"), ("b", "2")]));
    let mut p1 = m.to_pairs();
    let mut p2 = serialize(&m);
    p1.sort();
    p2.sort();
    assert_eq!(p1, p2);
}
