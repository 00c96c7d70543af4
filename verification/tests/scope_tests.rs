use kvx::segment::SEPARATOR;
use kvx::{Scope, Segment};

fn parse_scope(s: &str) -> Scope {
    Scope::from_str(s).unwrap()
}

#[test]
fn test_matches() {
    let full: Scope = parse_scope(&format!(
        "this{sep}is{sep}a{sep}beautiful{sep}scope",
        sep = SEPARATOR
    ));
    let partial: Scope = parse_scope(&format!("this{sep}is{sep}a", sep = SEPARATOR));
    let wrong: Scope = parse_scope(&format!("this{sep}is{sep}b", sep = SEPARATOR));

    assert!(full.matches(&partial));
    assert!(partial.matches(&full));
    assert!(!partial.matches(&wrong));
    assert!(!wrong.matches(&partial));
    assert!(!full.matches(&wrong));
    assert!(!wrong.matches(&full));
}

#[test]
fn test_starts_with() {
    let full: Scope = parse_scope(&format!(
        "this{sep}is{sep}a{sep}beautiful{sep}scope",
        sep = SEPARATOR
    ));
    let partial: Scope = parse_scope(&format!("this{sep}is{sep}a", sep = SEPARATOR));
    let wrong: Scope = parse_scope(&format!("this{sep}is{sep}b", sep = SEPARATOR));

    assert!(full.starts_with(&partial));
    assert!(!partial.starts_with(&full));
    assert!(!partial.starts_with(&wrong));
    assert!(!wrong.starts_with(&partial));
    assert!(!full.starts_with(&wrong));
    assert!(!wrong.starts_with(&full));
}

#[test]
fn scope_test_matches() {
    let full: Scope = parse_scope(&format!(
        "this{sep}is{sep}a{sep}beautiful{sep}scope",
        sep = SEPARATOR
    ));
    let partial: Scope = parse_scope(&format!("this{sep}is{sep}a", sep = SEPARATOR));
    let wrong: Scope = parse_scope(&format!("this{sep}is{sep}b", sep = SEPARATOR));

    assert!(full.matches(&partial));
    assert!(partial.matches(&full));
    assert!(!partial.matches(&wrong));
    assert!(!wrong.matches(&partial));
    assert!(!full.matches(&wrong));
    assert!(!wrong.matches(&full));
}

#[test]
fn scope_test_starts_with() {
    let full: Scope = parse_scope(&format!(
        "this{sep}is{sep}a{sep}beautiful{sep}scope",
        sep = SEPARATOR
    ));
    let partial: Scope = parse_scope(&format!("this{sep}is{sep}a", sep = SEPARATOR));
    let wrong: Scope = parse_scope(&format!("this{sep}is{sep}b", sep = SEPARATOR));

    assert!(full.starts_with(&partial));
    assert!(!partial.starts_with(&full));
    assert!(!partial.starts_with(&wrong));
    assert!(!wrong.starts_with(&partial));
    assert!(!full.starts_with(&wrong));
    assert!(!wrong.starts_with(&full));
}

#[test]
fn scope_string_round_trip() {
    let s = format!("a{sep}b{sep}c", sep = SEPARATOR);
    let scope = parse_scope(&s);
    assert_eq!(scope.to_string(), s);
    assert!(!scope.is_global());
    assert!(Scope::global().is_global());
}

#[test]
fn scope_trailing_separator_ignored() {
    let with = parse_scope("a/b/");
    let without = parse_scope("a/b");
    assert!(with == without);
}

#[test]
fn scope_sub_scopes_lists_prefixes() {
    let scope = parse_scope("a/b/c");
    let subs = scope.sub_scopes();
    assert_eq!(subs.len(), 3);
    assert_eq!(subs[0].to_string(), "a");
    assert_eq!(subs[1].to_string(), "a/b");
    assert_eq!(subs[2].to_string(), "a/b/c");
}

#[test]
fn scope_super_and_sub() {
    let base = parse_scope("b");
    let sub = base.with_sub_scope(Segment::parse("c").unwrap());
    assert_eq!(sub.to_string(), "b/c");
    let sup = base.with_super_scope(Segment::parse("a").unwrap());
    assert_eq!(sup.to_string(), "a/b");
    let mut named = base.with_namespace(Segment::parse("ns").unwrap());
    assert_eq!(named.to_string(), "ns/b");
    let removed = named.remove_namespace(Segment::parse("ns").unwrap());
    assert!(removed.is_some());
    assert_eq!(named.to_string(), "b");
}
