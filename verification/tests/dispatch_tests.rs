use kvx::dispatch::{backend_for_scheme, prefixed_namespace};
use kvx::locks::LockSet;
use kvx::{BackendKind, Namespace, Scope};

#[test]
fn scheme_selects_the_backend() {
    assert_eq!(backend_for_scheme("local").unwrap(), BackendKind::Disk);
    assert_eq!(backend_for_scheme("memory").unwrap(), BackendKind::Memory);
    assert_eq!(backend_for_scheme("postgres").unwrap(), BackendKind::Postgres);
    match backend_for_scheme("ftp") {
        Err(kvx::Error::UnknownScheme(s)) => assert_eq!(s, "ftp"),
        other => panic!("expected an unknown-scheme error, got {:?}", other),
    }
}

#[test]
fn namespace_prefix_is_applied() {
    let ns = Namespace::parse("testing").unwrap();
    let combined = prefixed_namespace("suite", &ns).unwrap();
    assert_eq!(combined.as_str(), "suite_testing");
    assert!(prefixed_namespace("bad prefix", &ns).is_err());
}

#[test]
fn overlapping_scopes_are_mutually_exclusive() {
    let mut locks = LockSet::new();
    let a = Scope::from_str("a").unwrap();
    let ab = Scope::from_str("a/b").unwrap();
    let c = Scope::from_str("c").unwrap();
    assert!(locks.acquire(&a));
    assert!(locks.is_locked(&ab));
    assert!(!locks.acquire(&ab));
    assert!(locks.acquire(&c));
    locks.release(&a);
    assert!(locks.acquire(&ab));
    assert!(locks.is_locked(&c));
}
