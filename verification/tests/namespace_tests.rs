use kvx::{Namespace, ParseNamespaceError};

#[test]
fn test_empty_namespace_fails() {
    assert_eq!(Namespace::parse(""), Err(ParseNamespaceError::Empty))
}

#[test]
fn test_long_namespace_fails() {
    let long = "n".repeat(256);
    assert_eq!(Namespace::parse(&long), Err(ParseNamespaceError::TooLong));
    assert!(Namespace::parse(&"n".repeat(255)).is_ok());
}

#[test]
fn test_illegal_character_fails() {
    assert_eq!(
        Namespace::parse("name space"),
        Err(ParseNamespaceError::IllegalCharacter)
    );
    assert_eq!(
        Namespace::parse("name/space"),
        Err(ParseNamespaceError::IllegalCharacter)
    );
}

#[test]
fn test_namespace_succeeds() {
    let ns = Namespace::parse("Namespace-1_b").unwrap();
    assert_eq!(ns.as_str(), "Namespace-1_b");
}
