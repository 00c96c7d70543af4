use vstd::prelude::*;
use vstd::string::StrSliceExecFns;

verus! {

/// The longest string form a namespace may have, in characters.
pub const MAX_NAMESPACE_LEN: usize = 255;

/// Namespaces may hold ASCII letters, digits, `-` and `_` and nothing else.
pub open spec fn legal_namespace_char(c: char) -> bool {
    ||| 'a' <= c && c <= 'z'
    ||| 'A' <= c && c <= 'Z'
    ||| '0' <= c && c <= '9'
    ||| c == '-'
    ||| c == '_'
}

/// A sequence of characters is a valid namespace when it is nonempty, at most
/// [`MAX_NAMESPACE_LEN`] characters long, and made of legal characters only.
pub open spec fn valid_namespace(s: Seq<char>) -> bool {
    &&& s.len() > 0
    &&& s.len() <= MAX_NAMESPACE_LEN
    &&& forall|i: int| 0 <= i < s.len() ==> legal_namespace_char(s[i])
}

/// All the ways parsing a string as a [`Namespace`] can fail.
#[derive(Debug, PartialEq, Eq, Structural)]
pub enum ParseNamespaceError {
    /// The string is empty.
    Empty,
    /// The string is longer than [`MAX_NAMESPACE_LEN`] characters.
    TooLong,
    /// The string holds a character outside ASCII alphanumerics, `-` and `_`.
    IllegalCharacter,
}

/// A validated logical partition identifier. Namespaces isolate stores that
/// share one physical substrate from each other.
#[derive(Debug)]
pub struct Namespace {
    s: String,
}

/// The owned variant; namespaces in this crate are always owned, so the two
/// names denote one type.
pub type NamespaceBuf = Namespace;

impl View for Namespace {
    type V = Seq<char>;

    closed spec fn view(&self) -> Seq<char> {
        self.s@
    }
}

/// True iff every character of `value` is legal in a namespace.
pub fn contains_only_legal_chars(value: &str) -> (r: bool)
    ensures
        r == forall|i: int| 0 <= i < value@.len() ==> legal_namespace_char(value@[i]),
{
    let n = value.unicode_len();
    let mut index: usize = 0;
    while index < n
        invariant
            n == value@.len(),
            0 <= index <= n,
            forall|j: int| 0 <= j < index ==> legal_namespace_char(value@[j]),
        decreases n - index,
    {
        let c = value.get_char(index);
        let legal = ('a' <= c && c <= 'z') || ('A' <= c && c <= 'Z') || ('0' <= c && c <= '9') || c
            == '-' || c == '_';
        if !legal {
            return false;
        }
        index += 1;
    }
    true
}

impl Namespace {
    #[verifier::type_invariant]
    closed spec fn type_inv(&self) -> bool {
        valid_namespace(self.s@)
    }

    /// Parse a namespace from a string, rejecting empty strings, strings over
    /// the length bound, and illegal characters.
    pub fn parse(value: &str) -> (r: Result<Namespace, ParseNamespaceError>)
        ensures
            r matches Ok(ns) ==> ns@ == value@ && valid_namespace(value@),
            r == Err::<Namespace, _>(ParseNamespaceError::Empty) <==> value@.len() == 0,
            r == Err::<Namespace, _>(ParseNamespaceError::TooLong) <==> value@.len()
                > MAX_NAMESPACE_LEN,
            r == Err::<Namespace, _>(ParseNamespaceError::IllegalCharacter) <==> 0 < value@.len()
                <= MAX_NAMESPACE_LEN && (exists|i: int|
                0 <= i < value@.len() && !legal_namespace_char(value@[i])),
            r is Ok <==> valid_namespace(value@),
    {
        let n = value.unicode_len();
        if n == 0 {
            Err(ParseNamespaceError::Empty)
        } else if n > MAX_NAMESPACE_LEN {
            Err(ParseNamespaceError::TooLong)
        } else if contains_only_legal_chars(value) {
            Ok(Namespace { s: value.to_owned() })
        } else {
            Err(ParseNamespaceError::IllegalCharacter)
        }
    }

    /// Build a namespace from a string already known to be valid.
    pub fn new(value: &str) -> (r: Namespace)
        requires
            valid_namespace(value@),
        ensures
            r@ == value@,
    {
        Namespace { s: value.to_owned() }
    }

    /// The encapsulated string, which is always a valid namespace.
    pub fn as_str(&self) -> (r: &str)
        ensures
            r@ == self@,
            valid_namespace(self@),
    {
        proof {
            use_type_invariant(self);
        }
        self.s.as_str()
    }
}

impl Clone for Namespace {
    fn clone(&self) -> (r: Self)
        ensures
            r == self,
    {
        proof {
            use_type_invariant(self);
        }
        Namespace { s: self.s.clone() }
    }
}

impl PartialEq for Namespace {
    fn eq(&self, other: &Self) -> (r: bool) {
        self.s == other.s
    }
}

impl vstd::std_specs::cmp::PartialEqSpecImpl for Namespace {
    open spec fn obeys_eq_spec() -> bool {
        true
    }

    open spec fn eq_spec(&self, other: &Self) -> bool {
        self@ == other@
    }
}

} // verus!
