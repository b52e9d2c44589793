use toy_pkc::kv_store::KVStore;

#[test]
fn kv_insert_then_get() {
    let mut store = KVStore::new();
    store.insert("test".to_string(), "123".to_string());
    assert_eq!(store.get("test".to_string()), Some("123".to_string()));
    assert_eq!(store.get("other".to_string()), None);
}

#[test]
fn kv_insert_replaces_value() {
    let mut store = KVStore::new();
    store.insert("a".to_string(), "1".to_string());
    store.insert("b".to_string(), "2".to_string());
    store.insert("a".to_string(), "3".to_string());
    assert_eq!(store.get("a".to_string()), Some("3".to_string()));
    assert_eq!(store.get("b".to_string()), Some("2".to_string()));
}

#[test]
fn kv_delete_removes_only_that_key() {
    let mut store = KVStore::new();
    store.insert("a".to_string(), "1".to_string());
    store.insert("b".to_string(), "2".to_string());
    store.insert("c".to_string(), "3".to_string());
    store.delete("b".to_string());
    assert_eq!(store.get("b".to_string()), None);
    assert_eq!(store.get("a".to_string()), Some("1".to_string()));
    assert_eq!(store.get("c".to_string()), Some("3".to_string()));
    store.delete("missing".to_string());
    assert_eq!(store.get("a".to_string()), Some("1".to_string()));
}

#[test]
fn kv_empty_store() {
    let store = KVStore::new();
    assert_eq!(store.get("".to_string()), None);
}
