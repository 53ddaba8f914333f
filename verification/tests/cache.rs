use memory_cache::store::MemoryCache;

#[test]
fn it_works() {
    let mut cache = MemoryCache::new();
    assert_eq!(cache.get("missing".to_string()), None);
    cache.insert("k".to_string(), "v".to_string());
    assert_eq!(cache.get("k".to_string()), Some("v".to_string()));
}

#[test]
fn insert_overwrites_prior_value() {
    let mut cache = MemoryCache::new();
    cache.insert("k".to_string(), "v1".to_string());
    cache.insert("k".to_string(), "v2".to_string());
    assert_eq!(cache.get("k".to_string()), Some("v2".to_string()));
}

#[test]
fn empty_value_is_distinct_from_absence() {
    let mut cache = MemoryCache::new();
    cache.insert("k".to_string(), String::new());
    assert_eq!(cache.get("k".to_string()), Some(String::new()));
    assert_eq!(cache.get("other".to_string()), None);
}

#[test]
fn remove_absent_key_returns_none_and_changes_nothing() {
    let mut cache = MemoryCache::new();
    cache.insert("a".to_string(), "1".to_string());
    let before = cache.get_all();
    assert_eq!(cache.remove("b".to_string()), None);
    assert_eq!(cache.get_all(), before);
}

#[test]
fn remove_twice_yields_some_then_none() {
    let mut cache = MemoryCache::new();
    cache.insert("k".to_string(), "v".to_string());
    assert_eq!(cache.remove("k".to_string()), Some("v".to_string()));
    assert_eq!(cache.remove("k".to_string()), None);
    assert_eq!(cache.get("k".to_string()), None);
}

#[test]
fn snapshot_holds_every_entry_once_in_key_order() {
    let mut cache = MemoryCache::new();
    cache.insert("c".to_string(), "3".to_string());
    cache.insert("a".to_string(), "1".to_string());
    cache.insert("b".to_string(), "2".to_string());
    let snap = cache.snapshot();
    let pairs: Vec<(String, String)> =
        snap.iter().map(|e| (e.key.clone(), e.value.clone())).collect();
    assert_eq!(
        pairs,
        vec![
            ("a".to_string(), "1".to_string()),
            ("b".to_string(), "2".to_string()),
            ("c".to_string(), "3".to_string()),
        ]
    );
}

#[test]
fn get_all_of_empty_store() {
    let cache = MemoryCache::new();
    assert_eq!(cache.get_all(), "{}");
}

#[test]
fn get_all_lists_entries_in_key_order() {
    let mut cache = MemoryCache::new();
    cache.insert("b".to_string(), "2".to_string());
    cache.insert("a".to_string(), "1".to_string());
    assert_eq!(cache.get_all(), r#"{"a":"1","b":"2"}"#);
}

#[test]
fn get_all_escapes_quotes_and_backslashes() {
    let mut cache = MemoryCache::new();
    cache.insert("q\"k".to_string(), "v\\1".to_string());
    assert_eq!(cache.get_all(), r#"{"q\"k":"v\\1"}"#);
}

#[test]
fn get_all_matches_serde_json_for_plain_text() {
    let mut cache = MemoryCache::new();
    let mut object = serde_json::Map::new();
    for (k, v) in [("alpha", "1"), ("beta", "two"), ("gamma", "")] {
        cache.insert(k.to_string(), v.to_string());
        object.insert(k.to_string(), serde_json::Value::String(v.to_string()));
    }
    let expected = serde_json::to_string(&serde_json::Value::Object(object)).unwrap();
    assert_eq!(cache.get_all(), expected);
}
