use vstd::prelude::*;
use vstd::string::StrSliceExecFns;
use crate::segment::{valid_segment, segment_error, ParseSegmentError, Segment, SEPARATOR};
use crate::scope::{parse_segments, valid_scope, Scope};
use crate::text::{join_with, sep_free, split_on, split_str, lemma_split_join, push_char, views_of};

verus! {

/// The mathematical value of a [`Key`]: a scope and a name.
#[verifier::ext_equal]
pub ghost struct KeyView {
    pub scope: Seq<Seq<char>>,
    pub name: Seq<char>,
}

/// The scope and the name are made of valid segments.
pub open spec fn valid_key(k: KeyView) -> bool {
    valid_scope(k.scope) && valid_segment(k.name)
}

/// The string form of a key: its scope's segments and then its name, joined
/// by the separator. A global key is just its name.
pub open spec fn key_string(k: KeyView) -> Seq<char> {
    join_with(k.scope.push(k.name), SEPARATOR)
}

/// Identifies one entry of a store: a name under a [`Scope`].
#[derive(Debug)]
pub struct Key {
    scope: Scope,
    name: Segment,
}

impl View for Key {
    type V = KeyView;

    closed spec fn view(&self) -> KeyView {
        KeyView { scope: self.scope@, name: self.name@ }
    }
}

impl Key {
    /// A key under the given scope.
    pub fn new_scoped(scope: Scope, name: Segment) -> (r: Key)
        ensures
            r@ == (KeyView { scope: scope@, name: name@ }),
    {
        Key { scope, name }
    }

    /// A key in the global scope.
    pub fn new_global(name: Segment) -> (r: Key)
        ensures
            r@ == (KeyView { scope: Seq::<Seq<char>>::empty(), name: name@ }),
    {
        Key::new_scoped(Scope::global(), name)
    }

    /// The key's name.
    pub fn name(&self) -> (r: &Segment)
        ensures
            r@ == self@.name,
    {
        &self.name
    }

    /// The key's scope.
    pub fn scope(&self) -> (r: &Scope)
        ensures
            r@ == self@.scope,
    {
        &self.scope
    }

    /// A copy of the key with one segment appended to its scope.
    pub fn with_sub_scope(&self, sub_scope: Segment) -> (r: Key)
        ensures
            r@.scope == self@.scope.push(sub_scope@),
            r@.name == self@.name,
    {
        let mut clone = self.clone();
        clone.add_sub_scope(sub_scope);
        clone
    }

    /// Appends one segment to the key's scope.
    pub fn add_sub_scope(&mut self, sub_scope: Segment)
        ensures
            final(self)@.scope == old(self)@.scope.push(sub_scope@),
            final(self)@.name == old(self)@.name,
    {
        self.scope.add_sub_scope(sub_scope);
    }

    /// A copy of the key grouped under one more leading scope segment.
    pub fn with_namespace(&self, namespace: Segment) -> (r: Key)
        ensures
            r@.scope == seq![namespace@] + self@.scope,
            r@.name == self@.name,
    {
        let mut clone = self.clone();
        clone.add_namespace(namespace);
        clone
    }

    /// Groups the key under one more leading scope segment.
    pub fn add_namespace(&mut self, namespace: Segment)
        ensures
            final(self)@.scope == seq![namespace@] + old(self)@.scope,
            final(self)@.name == old(self)@.name,
    {
        self.scope.add_namespace(namespace);
    }

    /// A copy of the key grouped under one more leading scope segment, at the
    /// front of the scope.
    pub fn with_super_scope(&self, super_scope: Segment) -> (r: Key)
        ensures
            r@.scope == seq![super_scope@] + self@.scope,
            r@.name == self@.name,
    {
        self.with_namespace(super_scope)
    }

    /// Prepends one segment to the key's scope.
    pub fn add_super_scope(&mut self, super_scope: Segment)
        ensures
            final(self)@.scope == seq![super_scope@] + old(self)@.scope,
            final(self)@.name == old(self)@.name,
    {
        self.add_namespace(super_scope)
    }

    /// Removes the leading scope segment when it equals `namespace`.
    pub fn remove_namespace(&mut self, namespace: Segment) -> (r: Option<Segment>)
        ensures
            old(self)@.scope.len() > 0 && old(self)@.scope[0] == namespace@ ==> final(self)@.scope
                == old(self)@.scope.drop_first() && (r matches Some(seg) && seg@ == namespace@),
            !(old(self)@.scope.len() > 0 && old(self)@.scope[0] == namespace@) ==> final(self)@
                == old(self)@ && r is None,
            final(self)@.name == old(self)@.name,
    {
        self.scope.remove_namespace(namespace)
    }

    /// The string form of the key.
    pub fn to_string(&self) -> (r: String)
        ensures
            r@ == key_string(self@),
    {
        let ghost parts = self@.scope.push(self@.name);
        if self.scope.is_global() {
            proof {
                assert(parts.len() == 1);
                assert(parts[0] == self@.name);
                assert(join_with(parts, SEPARATOR) == self@.name);
            }
            let n: &str = self.name.as_str();
            n.to_owned()
        } else {
            let mut out = self.scope.to_string();
            proof {
                assert(parts.drop_last() =~= self@.scope);
                assert(parts.last() == self@.name);
                assert(join_with(parts, SEPARATOR) == join_with(self@.scope, SEPARATOR)
                    + seq![SEPARATOR] + self@.name);
            }
            push_char(&mut out, SEPARATOR);
            out.append(self.name.as_str());
            proof {
                assert(out@ =~= key_string(self@));
            }
            out
        }
    }

    /// Parse a key from its string form: the last piece is the name, the
    /// others are the scope, and every piece must be a valid segment.
    pub fn from_str(s: &str) -> (r: Result<Key, ParseSegmentError>)
        ensures
            ({
                let parts = split_on(s@, SEPARATOR);
                &&& r matches Ok(k) ==> k@.scope == parts.drop_last() && k@.name == parts.last()
                &&& r is Ok <==> valid_scope(parts)
                &&& r matches Err(e) ==> exists|i: int|
                    0 <= i < parts.len() && !valid_segment(#[trigger] parts[i]) && (forall|j: int|
                        0 <= j < i ==> valid_segment(#[trigger] parts[j])) && e == segment_error(
                        parts[i],
                    )
            }),
    {
        let parts = split_str(s, SEPARATOR);
        match parse_segments(&parts) {
            Ok(mut segments) => {
                let name = match segments.pop() {
                    Some(seg) => seg,
                    None => {
                        proof {
                            assert(views_of(parts@).len() >= 1);
                            assert(false);
                        }
                        return Err(ParseSegmentError::Empty);
                    },
                };
                let scope = Scope::new(segments);
                let k = Key { scope, name };
                proof {
                    let pview = views_of(parts@);
                    assert(k@.scope.len() == pview.len() - 1);
                    assert(k@.scope =~= pview.drop_last());
                    assert(k@.name == pview.last());
                }
                Ok(k)
            },
            Err(e) => Err(e),
        }
    }
}

impl Clone for Key {
    fn clone(&self) -> (r: Self)
        ensures
            r@ == self@,
    {
        Key { scope: self.scope.clone(), name: self.name.clone() }
    }
}

impl PartialEq for Key {
    fn eq(&self, other: &Self) -> (r: bool) {
        self.scope == other.scope && self.name == other.name
    }
}

impl vstd::std_specs::cmp::PartialEqSpecImpl for Key {
    open spec fn obeys_eq_spec() -> bool {
        true
    }

    open spec fn eq_spec(&self, other: &Self) -> bool {
        self@ == other@
    }
}

/// Law: a key's string form parses back into exactly the same key. For every
/// valid key view, the pieces of its string form are valid segments whose
/// last piece is the name and whose other pieces are the scope.
pub proof fn lemma_key_string_round_trip(k: KeyView)
    requires
        valid_key(k),
    ensures
        ({
            let parts = split_on(key_string(k), SEPARATOR);
            &&& valid_scope(parts)
            &&& parts.drop_last() == k.scope
            &&& parts.last() == k.name
        }),
{
    let parts0 = k.scope.push(k.name);
    assert(forall|i: int| 0 <= i < parts0.len() ==> sep_free(#[trigger] parts0[i], SEPARATOR)) by {
        assert(forall|i: int| 0 <= i < k.scope.len() ==> #[trigger] parts0[i] == k.scope[i]);
    }
    lemma_split_join(parts0, SEPARATOR);
    assert(parts0.drop_last() =~= k.scope);
    assert(parts0.last() == k.name);
    assert(valid_scope(parts0));
}

} // verus!
