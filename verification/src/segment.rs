use vstd::prelude::*;
use vstd::string::StrSliceExecFns;

verus! {

/// The character that separates segments in the string form of a scope or key.
pub const SEPARATOR: char = '/';

/// Whitespace as far as segment validation is concerned: space, tab, newline.
pub open spec fn is_whitespace_char(c: char) -> bool {
    c == ' ' || c == '\t' || c == '\n'
}

/// A sequence of characters is a valid segment when it is nonempty, does not
/// start or end with whitespace, and contains no separator.
pub open spec fn valid_segment(s: Seq<char>) -> bool {
    &&& s.len() > 0
    &&& !is_whitespace_char(s[0])
    &&& !is_whitespace_char(s[s.len() - 1])
    &&& forall|i: int| 0 <= i < s.len() ==> s[i] != SEPARATOR
}

/// All the ways parsing a string as a [`Segment`] can fail.
#[derive(Debug, PartialEq, Eq, Structural)]
pub enum ParseSegmentError {
    /// The string starts or ends with whitespace.
    TrailingWhitespace,
    /// The string is empty.
    Empty,
    /// The string contains the scope separator.
    ContainsSeparator,
}

/// The error that parsing `s` as a segment reports when `s` is not a valid
/// segment: emptiness is reported first, then whitespace at an edge, then an
/// embedded separator.
pub open spec fn segment_error(s: Seq<char>) -> ParseSegmentError {
    if s.len() == 0 {
        ParseSegmentError::Empty
    } else if is_whitespace_char(s[0]) || is_whitespace_char(s[s.len() - 1]) {
        ParseSegmentError::TrailingWhitespace
    } else {
        ParseSegmentError::ContainsSeparator
    }
}

/// A validated path component: a nonempty string without leading or trailing
/// whitespace and without the scope separator.
#[derive(Debug)]
pub struct Segment {
    s: String,
}

/// The owned variant; segments in this crate are always owned, so the two
/// names denote one type.
pub type SegmentBuf = Segment;

impl View for Segment {
    type V = Seq<char>;

    closed spec fn view(&self) -> Seq<char> {
        self.s@
    }
}

impl DeepView for Segment {
    type V = Seq<char>;

    open spec fn deep_view(&self) -> Seq<char> {
        self.view()
    }
}

/// True iff the first character of `value` is whitespace.
pub fn leading_whitespace(value: &str) -> (r: bool)
    requires
        value@.len() > 0,
    ensures
        r == is_whitespace_char(value@[0]),
{
    let c = value.get_char(0);
    c == ' ' || c == '\t' || c == '\n'
}

/// True iff the last character of `value` is whitespace.
pub fn trailing_whitespace(value: &str) -> (r: bool)
    requires
        value@.len() > 0,
    ensures
        r == is_whitespace_char(value@[value@.len() - 1]),
{
    let n = value.unicode_len();
    let c = value.get_char(n - 1);
    c == ' ' || c == '\t' || c == '\n'
}

/// True iff `value` contains the scope separator.
pub fn contains_separator(value: &str) -> (r: bool)
    ensures
        r == exists|i: int| 0 <= i < value@.len() && value@[i] == SEPARATOR,
{
    let n = value.unicode_len();
    let mut index: usize = 0;
    while index < n
        invariant
            n == value@.len(),
            0 <= index <= n,
            forall|j: int| 0 <= j < index ==> value@[j] != SEPARATOR,
        decreases n - index,
    {
        if value.get_char(index) == '/' {
            return true;
        }
        index += 1;
    }
    false
}

impl Segment {
    #[verifier::type_invariant]
    closed spec fn type_inv(&self) -> bool {
        valid_segment(self.s@)
    }

    /// Parse a segment from a string, rejecting empty strings, whitespace at
    /// either edge, and embedded separators.
    pub fn parse(value: &str) -> (r: Result<Segment, ParseSegmentError>)
        ensures
            r matches Ok(seg) ==> seg@ == value@ && valid_segment(value@),
            r == Err::<Segment, _>(ParseSegmentError::Empty) <==> value@.len() == 0,
            r == Err::<Segment, _>(ParseSegmentError::TrailingWhitespace) <==> value@.len() > 0
                && (is_whitespace_char(value@[0]) || is_whitespace_char(
                value@[value@.len() - 1],
            )),
            r == Err::<Segment, _>(ParseSegmentError::ContainsSeparator) <==> value@.len() > 0
                && !is_whitespace_char(value@[0]) && !is_whitespace_char(value@[value@.len() - 1])
                && (exists|i: int| 0 <= i < value@.len() && value@[i] == SEPARATOR),
            r is Ok <==> valid_segment(value@),
            r matches Err(e) ==> e == segment_error(value@),
    {
        if value.unicode_len() == 0 {
            Err(ParseSegmentError::Empty)
        } else if leading_whitespace(value) || trailing_whitespace(value) {
            Err(ParseSegmentError::TrailingWhitespace)
        } else if contains_separator(value) {
            Err(ParseSegmentError::ContainsSeparator)
        } else {
            Ok(Segment { s: value.to_owned() })
        }
    }

    /// Build a segment from a string already known to be valid.
    pub fn new(value: &str) -> (r: Segment)
        requires
            valid_segment(value@),
        ensures
            r@ == value@,
    {
        Segment { s: value.to_owned() }
    }

    /// The encapsulated string, which is always a valid segment.
    pub fn as_str(&self) -> (r: &str)
        ensures
            r@ == self@,
            valid_segment(self@),
    {
        proof {
            use_type_invariant(self);
        }
        self.s.as_str()
    }
}

impl Clone for Segment {
    fn clone(&self) -> (r: Self)
        ensures
            r == self,
    {
        proof {
            use_type_invariant(self);
        }
        Segment { s: self.s.clone() }
    }
}

impl PartialEq for Segment {
    fn eq(&self, other: &Self) -> (r: bool) {
        self.s == other.s
    }
}

impl vstd::std_specs::cmp::PartialEqSpecImpl for Segment {
    open spec fn obeys_eq_spec() -> bool {
        true
    }

    open spec fn eq_spec(&self, other: &Self) -> bool {
        self@ == other@
    }
}

} // verus!
