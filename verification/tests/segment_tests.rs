use kvx::segment::SEPARATOR;
use kvx::Segment;

#[test]
fn test_trailing_separator_fails() {
    assert!(Segment::parse(&format!("test{}", SEPARATOR)).is_err());
}

#[test]
fn test_trailing_space_fails() {
    assert!(Segment::parse("test ").is_err());
}

#[test]
fn test_trailing_tab_fails() {
    assert!(Segment::parse("test\t").is_err());
}

#[test]
fn test_trailing_newline_fails() {
    assert!(Segment::parse("test\n").is_err());
}

#[test]
fn test_leading_separator_fails() {
    assert!(Segment::parse(&format!("{}test", SEPARATOR)).is_err());
}

#[test]
fn test_leading_space_fails() {
    assert!(Segment::parse(" test").is_err());
}

#[test]
fn test_leading_tab_fails() {
    assert!(Segment::parse("\ttest").is_err());
}

#[test]
fn test_leading_newline_fails() {
    assert!(Segment::parse("\ntest").is_err());
}

#[test]
fn test_containing_separator_fails() {
    assert!(Segment::parse(&format!("te{}st", SEPARATOR)).is_err());
}

#[test]
fn test_containing_space_succeeds() {
    assert!(Segment::parse("te st").is_ok());
}

#[test]
fn test_containing_tab_succeeds() {
    assert!(Segment::parse("te\tst").is_ok());
}

#[test]
fn test_containing_newline_succeeds() {
    assert!(Segment::parse("te\nst").is_ok());
}

#[test]
fn test_segment_succeeds() {
    assert!(Segment::parse("test").is_ok())
}

#[test]
fn test_segment_error_kinds() {
    assert_eq!(
        Segment::parse(""),
        Err(kvx::ParseSegmentError::Empty)
    );
    assert_eq!(
        Segment::parse(" x"),
        Err(kvx::ParseSegmentError::TrailingWhitespace)
    );
    assert_eq!(
        Segment::parse("a/b"),
        Err(kvx::ParseSegmentError::ContainsSeparator)
    );
}

#[test]
fn test_segment_as_str_round_trip() {
    let segment_str = "segment";
    let segment = Segment::parse(segment_str).unwrap();
    assert_eq!(segment.as_str(), segment_str);
}
