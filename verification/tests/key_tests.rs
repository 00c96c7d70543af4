use kvx::decimal::{parse_u64, u64_to_dec};
use kvx::disk::{key_from_path, scope_from_path, Disk};
use kvx::{Key, Scope, Segment};

#[test]
fn key_string_round_trip() {
    for s in ["name", "a/name", "a/b/c/name", "te st/with-dash"] {
        let k = Key::from_str(s).unwrap();
        let printed = k.to_string();
        assert_eq!(printed, s);
        let parsed = Key::from_str(&printed).unwrap();
        assert!(parsed == k);
    }
}

#[test]
fn key_parts() {
    let k = Key::from_str("a/b/name").unwrap();
    assert_eq!(k.name().as_str(), "name");
    assert_eq!(k.scope().to_string(), "a/b");
    let global = Key::new_global(Segment::parse("top").unwrap());
    assert_eq!(global.to_string(), "top");
}

#[test]
fn key_builders() {
    let k = Key::from_str("a/name").unwrap();
    let deeper = k.with_sub_scope(Segment::parse("b").unwrap());
    assert_eq!(deeper.to_string(), "a/b/name");
    let namespaced = k.with_namespace(Segment::parse("ns").unwrap());
    assert_eq!(namespaced.to_string(), "ns/a/name");
    let mut stripped = namespaced.clone();
    assert!(stripped.remove_namespace(Segment::parse("ns").unwrap()).is_some());
    assert!(stripped == k);
}

#[test]
fn invalid_key_strings_fail() {
    assert!(Key::from_str("").is_err());
    assert!(Key::from_str("a//b").is_err());
    assert!(Key::from_str("a/ b/c").is_err());
}

#[test]
fn paths_round_trip() {
    let disk = Disk::new("/tmp/kv", "ns1");
    assert_eq!(disk.root(), "/tmp/kv/ns1");
    assert_eq!(disk.tmp(), "/tmp/kv/tmp");
    let k = Key::from_str("a/b/c").unwrap();
    let path = k.as_path(disk.root());
    assert_eq!(path, "/tmp/kv/ns1/a/b/c");
    let back = key_from_path(&path, disk.root()).unwrap();
    assert!(back == k);
    let sc = Scope::from_str("a/b").unwrap();
    let dir = sc.as_path(disk.root());
    assert_eq!(dir, "/tmp/kv/ns1/a/b");
    let sc_back = scope_from_path(&dir, disk.root()).unwrap();
    assert!(sc_back == sc);
    assert_eq!(Scope::global().as_path(disk.root()), "/tmp/kv/ns1");
}

#[test]
fn path_outside_root_is_rejected() {
    assert!(matches!(
        key_from_path("/elsewhere/a/b", "/tmp/kv/ns1"),
        Err(kvx::Error::InvalidKey)
    ));
    assert!(matches!(
        key_from_path("/tmp/kv/ns1", "/tmp/kv/ns1"),
        Err(kvx::Error::InvalidKey)
    ));
    assert!(matches!(
        key_from_path("/tmp/kv/ns1/a//b", "/tmp/kv/ns1"),
        Err(kvx::Error::InvalidSegment(_))
    ));
    assert!(matches!(
        scope_from_path("/tmp/kv/ns1/a/ b", "/tmp/kv/ns1"),
        Err(kvx::Error::InvalidSegment(_))
    ));
}

#[test]
fn decimal_round_trip() {
    for n in [0u64, 1, 9, 10, 42, 999, 1000, u64::MAX] {
        let s = u64_to_dec(n);
        assert_eq!(s, n.to_string());
        assert_eq!(parse_u64(&s), Some(n));
    }
    assert_eq!(parse_u64(""), None);
    assert_eq!(parse_u64("12a"), None);
    assert_eq!(parse_u64("18446744073709551616"), None);
    assert_eq!(parse_u64("0042"), Some(42));
}
