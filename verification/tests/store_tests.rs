use kvx::{Key, KeyValueStore, Namespace, Scope, Segment};
use serde_json::Value;

fn store(ns: &str) -> KeyValueStore {
    KeyValueStore::new_memory(Namespace::parse(ns).unwrap())
}

fn key(s: &str) -> Key {
    Key::from_str(s).unwrap()
}

fn scope(s: &str) -> Scope {
    Scope::from_str(s).unwrap()
}

#[test]
fn store_then_get_returns_the_value() {
    let mut kv = store("ns1");
    let k = key("a/b/c");
    kv.store(&k, Value::from(42)).unwrap();
    assert_eq!(kv.get(&k).unwrap(), Some(Value::from(42)));
    assert!(kv.has(&k).unwrap());
    assert!(!kv.is_empty().unwrap());
}

#[test]
fn store_does_not_affect_other_keys() {
    let mut kv = store("ns1");
    let k1 = key("a/x");
    let k2 = key("a/y");
    kv.store(&k1, Value::from(1)).unwrap();
    kv.store(&k2, Value::from(2)).unwrap();
    kv.store(&k1, Value::from(3)).unwrap();
    assert_eq!(kv.get(&k2).unwrap(), Some(Value::from(2)));
    assert_eq!(kv.get(&k1).unwrap(), Some(Value::from(3)));
}

#[test]
fn store_makes_every_scope_prefix_visible() {
    let mut kv = store("ns1");
    kv.store(&key("a/b/c/name"), Value::from("v")).unwrap();
    assert!(kv.has_scope(&scope("a")).unwrap());
    assert!(kv.has_scope(&scope("a/b")).unwrap());
    assert!(kv.has_scope(&scope("a/b/c")).unwrap());
    assert!(!kv.has_scope(&scope("a/b/c/d")).unwrap());
    assert!(!kv.has_scope(&scope("b")).unwrap());
}

#[test]
fn list_keys_global_returns_all_stored_keys() {
    let mut kv = store("ns1");
    kv.store(&key("a/x"), Value::from(1)).unwrap();
    kv.store(&key("b/y"), Value::from(2)).unwrap();
    kv.store(&key("z"), Value::from(3)).unwrap();
    let mut names: Vec<String> = kv
        .list_keys(&Scope::global())
        .unwrap()
        .iter()
        .map(|k| k.to_string())
        .collect();
    names.sort();
    assert_eq!(names, vec!["a/x".to_string(), "b/y".to_string(), "z".to_string()]);
}

#[test]
fn list_scopes_is_sorted_and_deduplicated() {
    let mut kv = store("ns1");
    kv.store(&key("foo/x"), Value::from(1)).unwrap();
    kv.store(&key("foo/bar/y"), Value::from(2)).unwrap();
    kv.store(&key("baz/z"), Value::from(3)).unwrap();
    let scopes: Vec<String> = kv.list_scopes().unwrap().iter().map(|s| s.to_string()).collect();
    assert_eq!(
        scopes,
        vec!["baz".to_string(), "foo".to_string(), "foo/bar".to_string()]
    );
}

#[test]
fn delete_scope_removes_subtree_and_nothing_else() {
    let mut kv = store("ns1");
    kv.store(&key("a/b/x"), Value::from(1)).unwrap();
    kv.store(&key("a/b/y"), Value::from(2)).unwrap();
    kv.store(&key("a/z"), Value::from(3)).unwrap();
    kv.store(&key("c/w"), Value::from(4)).unwrap();
    kv.delete_scope(&scope("a/b")).unwrap();
    assert!(kv.list_keys(&scope("a/b")).unwrap().is_empty());
    let mut names: Vec<String> = kv
        .list_keys(&Scope::global())
        .unwrap()
        .iter()
        .map(|k| k.to_string())
        .collect();
    names.sort();
    assert_eq!(names, vec!["a/z".to_string(), "c/w".to_string()]);
}

#[test]
fn move_scope_moves_exact_scope_only() {
    let mut kv = store("ns1");
    kv.store(&key("a/x"), Value::from(1)).unwrap();
    kv.store(&key("a/sub/y"), Value::from(2)).unwrap();
    kv.move_scope(&scope("a"), &scope("b")).unwrap();
    assert_eq!(kv.get(&key("b/x")).unwrap(), Some(Value::from(1)));
    assert!(!kv.has(&key("a/x")).unwrap());
    assert_eq!(kv.get(&key("a/sub/y")).unwrap(), Some(Value::from(2)));
}

#[test]
fn move_value_moves_and_fails_on_missing() {
    let mut kv = store("ns1");
    kv.store(&key("from"), Value::from("v")).unwrap();
    kv.move_value(&key("from"), &key("to")).unwrap();
    assert!(!kv.has(&key("from")).unwrap());
    assert_eq!(kv.get(&key("to")).unwrap(), Some(Value::from("v")));
    let missing = kv.move_value(&key("from"), &key("elsewhere"));
    assert_eq!(missing, Err(kvx::Error::UnknownKey));
}

#[test]
fn delete_missing_key_is_an_error() {
    let mut kv = store("ns1");
    assert_eq!(kv.delete(&key("nothing")), Err(kvx::Error::UnknownKey));
    kv.store(&key("something"), Value::from(1)).unwrap();
    kv.delete(&key("something")).unwrap();
    assert!(kv.is_empty().unwrap());
}

#[test]
fn clear_empties_the_namespace() {
    let mut kv = store("ns1");
    kv.store(&key("a/x"), Value::from(1)).unwrap();
    kv.store(&key("b/y"), Value::from(2)).unwrap();
    kv.clear().unwrap();
    assert!(kv.is_empty().unwrap());
}

#[test]
fn migrate_namespace_preserves_entries() {
    let mut kv = store("old-ns");
    kv.store(&key("a/x"), Value::from(1)).unwrap();
    kv.store(&key("y"), Value::from(2)).unwrap();
    kv.migrate_namespace(Namespace::parse("new-ns").unwrap()).unwrap();
    assert_eq!(kv.namespace().as_str(), "new-ns");
    assert_eq!(kv.get(&key("a/x")).unwrap(), Some(Value::from(1)));
    assert_eq!(kv.get(&key("y")).unwrap(), Some(Value::from(2)));
    assert_eq!(kv.list_keys(&Scope::global()).unwrap().len(), 2);
}

#[test]
fn migrate_empty_namespace_fails() {
    let mut kv = store("empty-ns");
    let r = kv.migrate_namespace(Namespace::parse("other").unwrap());
    assert!(matches!(r, Err(kvx::Error::NamespaceMigration(_))));
}

#[test]
fn transaction_applies_the_body() {
    let kv = store("ns1");
    let counter = Key::new_global(Segment::parse("counter").unwrap());
    let (mut kv, r) = kv.execute(&scope("counter"), |mut s: KeyValueStore| {
        let r = s.store(&Key::new_global(Segment::parse("counter").unwrap()), Value::from(0));
        (s, r)
    });
    r.unwrap();
    for round in 0..2u64 {
        let pair = kv.execute(&scope("counter"), |mut s: KeyValueStore| {
            let k = Key::new_global(Segment::parse("counter").unwrap());
            let seen = match s.get(&k) {
                Ok(Some(v)) => v.as_u64().unwrap(),
                _ => 0,
            };
            let derived = Key::from_str(&format!("key-{}", round + 1)).unwrap();
            if let Err(e) = s.store(&derived, Value::from(seen)) {
                return (s, Err(e));
            }
            let r = s.store(&k, Value::from(seen + 1));
            (s, r)
        });
        kv = pair.0;
        pair.1.unwrap();
    }
    assert_eq!(kv.get(&counter).unwrap(), Some(Value::from(2)));
    assert_eq!(kv.get(&key("key-1")).unwrap(), Some(Value::from(0)));
    assert_eq!(kv.get(&key("key-2")).unwrap(), Some(Value::from(1)));
}

#[test]
fn transaction_discards_a_failed_body() {
    let kv = store("ns1");
    let (mut kv, r) = kv.execute(&Scope::global(), |mut s: KeyValueStore| {
        let r = s.store(&key("kept"), Value::from(1));
        (s, r)
    });
    r.unwrap();
    let (kv2, outcome) = kv.transaction(&Scope::global(), |mut s: KeyValueStore| {
        s.store(&key("discarded"), Value::from(2)).unwrap();
        s.delete(&key("kept")).unwrap();
        (s, Err(kvx::Error::Other("body failed".to_string())))
    });
    kv = kv2;
    assert!(matches!(outcome, Err(kvx::Error::Other(_))));
    assert!(!kv.has(&key("discarded")).unwrap());
    assert_eq!(kv.get(&key("kept")).unwrap(), Some(Value::from(1)));
}

#[test]
fn reserved_lock_scope_is_recognised() {
    assert!(kvx::disk::is_reserved_scope(&scope(".locks")));
    assert!(kvx::disk::is_reserved_scope(&scope(".locks/a/b")));
    assert!(!kvx::disk::is_reserved_scope(&scope("a/.locks")));
    assert!(!kvx::disk::is_reserved_scope(&Scope::global()));
    assert_eq!(kvx::disk::lock_dir_name(), ".locks");
}
