use vstd::prelude::*;
use vstd::string::StrSliceExecFns;
use crate::segment::{valid_segment, segment_error, ParseSegmentError, Segment, SEPARATOR};
use crate::text::{join_with, split_on, split_str, push_char, views_of};

verus! {

/// `prefix` is a (non-strict) prefix of `scope`.
pub open spec fn scope_starts_with(scope: Seq<Seq<char>>, prefix: Seq<Seq<char>>) -> bool {
    &&& prefix.len() <= scope.len()
    &&& forall|i: int| 0 <= i < prefix.len() ==> scope[i] == prefix[i]
}

/// Two scopes match iff one is a prefix of the other.
pub open spec fn scopes_match(a: Seq<Seq<char>>, b: Seq<Seq<char>>) -> bool {
    scope_starts_with(a, b) || scope_starts_with(b, a)
}

/// Every segment of the scope is valid.
pub open spec fn valid_scope(s: Seq<Seq<char>>) -> bool {
    forall|i: int| 0 <= i < s.len() ==> valid_segment(#[trigger] s[i])
}

/// The string form of a scope before parsing: one trailing separator, if any,
/// is ignored.
pub open spec fn strip_trailing_sep(s: Seq<char>) -> Seq<char> {
    if s.len() > 0 && s.last() == SEPARATOR {
        s.drop_last()
    } else {
        s
    }
}

/// An ordered sequence of [`Segment`]s under which keys are grouped. The
/// empty scope is called global.
#[derive(Debug)]
pub struct Scope {
    segments: Vec<Segment>,
}

impl View for Scope {
    type V = Seq<Seq<char>>;

    closed spec fn view(&self) -> Seq<Seq<char>> {
        self.segments.deep_view()
    }
}

impl DeepView for Scope {
    type V = Seq<Seq<char>>;

    open spec fn deep_view(&self) -> Seq<Seq<char>> {
        self.view()
    }
}

proof fn lemma_scope_view(s: &Scope)
    ensures
        s@.len() == s.segments@.len(),
        forall|i: int| 0 <= i < s@.len() ==> #[trigger] s@[i] == s.segments@[i]@,
{
}

proof fn lemma_segments_view(v: &Vec<Segment>)
    ensures
        v.deep_view().len() == v@.len(),
        forall|i: int| 0 <= i < v@.len() ==> #[trigger] v.deep_view()[i] == v@[i]@,
{
}

/// Duplicates a vector of segments.
fn clone_segments(v: &Vec<Segment>) -> (r: Vec<Segment>)
    ensures
        r@ == v@,
{
    let mut r: Vec<Segment> = Vec::new();
    let mut i: usize = 0;
    while i < v.len()
        invariant
            0 <= i <= v@.len(),
            r@ =~= v@.take(i as int),
        decreases v@.len() - i,
    {
        r.push(v[i].clone());
        proof {
            assert(r@ =~= v@.take(i + 1));
        }
        i += 1;
    }
    proof {
        assert(v@.take(v@.len() as int) =~= v@);
    }
    r
}


/// Parses every string of `parts` as a segment, reporting the first failure.
pub fn parse_segments(parts: &Vec<String>) -> (r: Result<Vec<Segment>, ParseSegmentError>)
    ensures
        ({
            let pview = views_of(parts@);
            &&& r matches Ok(v) ==> v@.len() == pview.len() && (forall|j: int|
                0 <= j < pview.len() ==> (#[trigger] v@[j])@ == pview[j]) && valid_scope(pview)
            &&& r is Ok <==> valid_scope(pview)
            &&& r matches Err(e) ==> exists|i: int|
                0 <= i < pview.len() && !valid_segment(#[trigger] pview[i]) && (forall|j: int|
                    0 <= j < i ==> valid_segment(#[trigger] pview[j])) && e == segment_error(
                    pview[i],
                )
        }),
{
    let ghost pview = views_of(parts@);
    let mut segments: Vec<Segment> = Vec::new();
    let mut i: usize = 0;
    while i < parts.len()
        invariant
            pview == views_of(parts@),
            0 <= i <= parts@.len(),
            segments@.len() == i,
            forall|j: int| 0 <= j < i ==> (#[trigger] segments@[j])@ == pview[j],
            forall|j: int| 0 <= j < i ==> valid_segment(#[trigger] pview[j]),
        decreases parts@.len() - i,
    {
        match Segment::parse(parts[i].as_str()) {
            Ok(seg) => {
                segments.push(seg);
            },
            Err(e) => {
                proof {
                    assert(pview[i as int] == parts@[i as int]@);
                    assert(!valid_segment(pview[i as int]));
                    assert(e == segment_error(pview[i as int]));
                    assert(!valid_scope(pview));
                }
                return Err(e);
            },
        }
        i += 1;
    }
    Ok(segments)
}

impl Scope {
    /// The scope holding exactly one segment.
    pub fn from_segment(segment: Segment) -> (r: Scope)
        ensures
            r@ == seq![segment@],
    {
        let mut segments: Vec<Segment> = Vec::new();
        segments.push(segment);
        proof {
            assert(segments.deep_view() =~= seq![segments@[0]@]);
        }
        Scope { segments }
    }

    /// The empty scope.
    pub fn global() -> (r: Scope)
        ensures
            r@ == Seq::<Seq<char>>::empty(),
    {
        let segments: Vec<Segment> = Vec::new();
        proof {
            assert(segments.deep_view() =~= Seq::<Seq<char>>::empty());
        }
        Scope { segments }
    }

    /// A scope made of the given segments, in order.
    pub fn new(segments: Vec<Segment>) -> (r: Scope)
        ensures
            r@ == segments.deep_view(),
    {
        Scope { segments }
    }

    /// The underlying vector of segments.
    pub fn as_vec(&self) -> (r: &Vec<Segment>)
        ensures
            r.deep_view() == self@,
    {
        &self.segments
    }

    /// How many segments the scope has.
    pub fn len(&self) -> (r: i32)
        requires
            self@.len() <= i32::MAX,
        ensures
            r == self@.len(),
    {
        self.segments.len() as i32
    }

    /// True iff the scope has no segments.
    pub fn is_global(&self) -> (r: bool)
        ensures
            r == (self@.len() == 0),
    {
        self.segments.is_empty()
    }

    /// True iff `prefix` is a prefix of this scope.
    pub fn starts_with(&self, prefix: &Scope) -> (r: bool)
        ensures
            r == scope_starts_with(self@, prefix@),
    {
        if prefix.segments.len() > self.segments.len() {
            return false;
        }
        let mut i: usize = 0;
        while i < prefix.segments.len()
            invariant
                prefix@.len() <= self@.len(),
                0 <= i <= prefix@.len(),
                forall|j: int| 0 <= j < i ==> self@[j] == prefix@[j],
            decreases prefix@.len() - i,
        {
            proof {
                lemma_scope_view(self);
                lemma_scope_view(prefix);
            }
            if !(self.segments[i] == prefix.segments[i]) {
                proof {
                    assert(self@[i as int] == self.segments@[i as int]@);
                    assert(prefix@[i as int] == prefix.segments@[i as int]@);
                }
                return false;
            }
            i += 1;
        }
        true
    }

    /// True iff one of the two scopes is a prefix of the other.
    pub fn matches(&self, other: &Scope) -> (r: bool)
        ensures
            r == scopes_match(self@, other@),
    {
        if self.segments.len() <= other.segments.len() {
            other.starts_with(self)
        } else {
            self.starts_with(other)
        }
    }

    /// All non-empty prefixes of the scope, shortest first.
    pub fn sub_scopes(&self) -> (r: Vec<Scope>)
        ensures
            r@.len() == self@.len(),
            forall|i: int| 0 <= i < r@.len() ==> (#[trigger] r@[i])@ == self@.take(i + 1),
    {
        let mut r: Vec<Scope> = Vec::new();
        let mut cur: Vec<Segment> = Vec::new();
        let mut i: usize = 0;
        proof {
            lemma_scope_view(self);
        }
        while i < self.segments.len()
            invariant
                0 <= i <= self@.len(),
                self@.len() == self.segments@.len(),
                forall|j: int| 0 <= j < self@.len() ==> #[trigger] self@[j] == self.segments@[j]@,
                cur@.len() == i,
                forall|j: int| 0 <= j < i ==> (#[trigger] cur@[j])@ == self@[j],
                r@.len() == i,
                forall|j: int| 0 <= j < i ==> (#[trigger] r@[j])@ == self@.take(j + 1),
            decreases self@.len() - i,
        {
            cur.push(self.segments[i].clone());
            let sc = Scope { segments: clone_segments(&cur) };
            proof {
                lemma_scope_view(&sc);
                assert(sc@ =~= self@.take(i + 1));
            }
            r.push(sc);
            i += 1;
        }
        r
    }

    /// A copy of the scope with one segment appended.
    pub fn with_sub_scope(&self, sub_scope: Segment) -> (r: Scope)
        ensures
            r@ == self@.push(sub_scope@),
    {
        let mut clone = self.clone();
        clone.add_sub_scope(sub_scope);
        clone
    }

    /// Appends one segment to the scope.
    pub fn add_sub_scope(&mut self, sub_scope: Segment)
        ensures
            final(self)@ == old(self)@.push(sub_scope@),
    {
        let ghost before = self.segments.deep_view();
        self.segments.push(sub_scope);
        proof {
            assert(self.segments.deep_view() =~= before.push(self.segments@.last()@));
        }
    }

    /// A copy of the scope with one segment prepended.
    pub fn with_super_scope(&self, super_scope: Segment) -> (r: Scope)
        ensures
            r@ == seq![super_scope@] + self@,
    {
        let mut clone = self.clone();
        clone.add_super_scope(super_scope);
        clone
    }

    /// Prepends one segment to the scope.
    pub fn add_super_scope(&mut self, super_scope: Segment)
        ensures
            final(self)@ == seq![super_scope@] + old(self)@,
    {
        let ghost before = self.segments.deep_view();
        self.segments.insert(0, super_scope);
        proof {
            assert(self.segments.deep_view() =~= seq![self.segments@[0]@] + before);
        }
    }

    /// A copy of the scope grouped under one more leading segment.
    pub fn with_namespace(&self, namespace: Segment) -> (r: Scope)
        ensures
            r@ == seq![namespace@] + self@,
    {
        self.with_super_scope(namespace)
    }

    /// Groups the scope under one more leading segment.
    pub fn add_namespace(&mut self, namespace: Segment)
        ensures
            final(self)@ == seq![namespace@] + old(self)@,
    {
        self.add_super_scope(namespace)
    }

    /// Removes the leading segment when it equals `namespace`, returning it.
    pub fn remove_namespace(&mut self, namespace: Segment) -> (r: Option<Segment>)
        ensures
            old(self)@.len() > 0 && old(self)@[0] == namespace@ ==> final(self)@ == old(
                self,
            )@.drop_first() && (r matches Some(seg) && seg@ == namespace@),
            !(old(self)@.len() > 0 && old(self)@[0] == namespace@) ==> final(self)@ == old(self)@
                && r is None,
    {
        if self.segments.len() == 0 {
            return None;
        }
        if self.segments[0] == namespace {
            let ghost before = self.segments.deep_view();
            let seg = self.segments.remove(0);
            proof {
                assert(self.segments.deep_view() =~= before.drop_first());
            }
            Some(seg)
        } else {
            None
        }
    }

    /// The string form: the segments joined by the separator.
    pub fn to_string(&self) -> (r: String)
        ensures
            r@ == join_with(self@, SEPARATOR),
    {
        let mut out = String::new();
        let mut i: usize = 0;
        proof {
            assert(self@.take(0) =~= Seq::<Seq<char>>::empty());
        }
        while i < self.segments.len()
            invariant
                0 <= i <= self@.len(),
                self@.len() == self.segments@.len(),
                out@ == join_with(self@.take(i as int), SEPARATOR),
            decreases self@.len() - i,
        {
            proof {
                assert(self@.take(i + 1).drop_last() =~= self@.take(i as int));
                assert(self@.take(i + 1).last() == self@[i as int]);
            }
            if i > 0 {
                push_char(&mut out, SEPARATOR);
                proof {
                    assert(out@ =~= join_with(self@.take(i as int), SEPARATOR) + seq![SEPARATOR]);
                }
            }
            out.append(self.segments[i].as_str());
            proof {
                if i == 0 {
                    assert(join_with(self@.take(1), SEPARATOR) == self@[0]);
                    assert(out@ =~= self@[0]);
                } else {
                    assert(out@ =~= join_with(self@.take(i as int), SEPARATOR) + seq![SEPARATOR]
                        + self@[i as int]);
                }
            }
            i += 1;
        }
        proof {
            assert(self@.take(self@.len() as int) =~= self@);
        }
        out
    }

    /// Parse a scope from its string form. One trailing separator is ignored;
    /// every piece between separators must be a valid segment.
    pub fn from_str(s: &str) -> (r: Result<Scope, ParseSegmentError>)
        ensures
            ({
                let parts = split_on(strip_trailing_sep(s@), SEPARATOR);
                &&& r matches Ok(sc) ==> sc@ == parts
                &&& r is Ok <==> valid_scope(parts)
                &&& r matches Err(e) ==> exists|i: int|
                    0 <= i < parts.len() && !valid_segment(#[trigger] parts[i]) && (forall|j: int|
                        0 <= j < i ==> valid_segment(#[trigger] parts[j])) && e == segment_error(
                        parts[i],
                    )
            }),
    {
        let n = s.unicode_len();
        let stripped: &str = if n > 0 && s.get_char(n - 1) == '/' {
            let t = s.substring_char(0, n - 1);
            proof {
                assert(t@ =~= strip_trailing_sep(s@));
            }
            t
        } else {
            proof {
                assert(s@ == strip_trailing_sep(s@));
            }
            s
        };
        proof {
            assert(stripped@ == strip_trailing_sep(s@));
        }
        let parts = split_str(stripped, SEPARATOR);
        match parse_segments(&parts) {
            Ok(segments) => {
                let sc = Scope { segments };
                proof {
                    lemma_scope_view(&sc);
                    assert(sc@ =~= views_of(parts@));
                }
                Ok(sc)
            },
            Err(e) => Err(e),
        }
    }
}

impl Clone for Scope {
    fn clone(&self) -> (r: Self)
        ensures
            r@ == self@,
    {
        Scope { segments: clone_segments(&self.segments) }
    }
}

impl PartialEq for Scope {
    fn eq(&self, other: &Self) -> (r: bool) {
        if self.segments.len() != other.segments.len() {
            return false;
        }
        let mut i: usize = 0;
        while i < self.segments.len()
            invariant
                self@.len() == other@.len(),
                self@.len() == self.segments@.len(),
                other@.len() == other.segments@.len(),
                0 <= i <= self@.len(),
                forall|j: int| 0 <= j < i ==> self@[j] == other@[j],
            decreases self@.len() - i,
        {
            proof {
                lemma_scope_view(self);
                lemma_scope_view(other);
            }
            if !(self.segments[i] == other.segments[i]) {
                proof {
                    assert(self@[i as int] == self.segments@[i as int]@);
                    assert(other@[i as int] == other.segments@[i as int]@);
                }
                return false;
            }
            i += 1;
        }
        proof {
            assert(self@ =~= other@);
        }
        true
    }
}

impl vstd::std_specs::cmp::PartialEqSpecImpl for Scope {
    open spec fn obeys_eq_spec() -> bool {
        true
    }

    open spec fn eq_spec(&self, other: &Self) -> bool {
        self@ == other@
    }
}

/// Lexicographic order on character sequences, by code point.
pub open spec fn chars_lt(a: Seq<char>, b: Seq<char>) -> bool
    decreases a.len() + b.len(),
{
    if b.len() == 0 {
        false
    } else if a.len() == 0 {
        true
    } else if a[0] != b[0] {
        (a[0] as int) < (b[0] as int)
    } else {
        chars_lt(a.drop_first(), b.drop_first())
    }
}

/// Lexicographic order on scopes: segment by segment, shorter prefixes first.
pub open spec fn scope_lt(a: Seq<Seq<char>>, b: Seq<Seq<char>>) -> bool
    decreases a.len() + b.len(),
{
    if b.len() == 0 {
        false
    } else if a.len() == 0 {
        true
    } else if a[0] != b[0] {
        chars_lt(a[0], b[0])
    } else {
        scope_lt(a.drop_first(), b.drop_first())
    }
}

/// Of two character sequences, exactly one of: equal, first smaller, second
/// smaller.
pub proof fn lemma_chars_lt_trichotomy(a: Seq<char>, b: Seq<char>)
    ensures
        a == b || chars_lt(a, b) || chars_lt(b, a),
        chars_lt(a, b) ==> a != b && !chars_lt(b, a),
        chars_lt(b, a) ==> a != b && !chars_lt(a, b),
    decreases a.len() + b.len(),
{
    if a.len() > 0 && b.len() > 0 && a[0] == b[0] {
        lemma_chars_lt_trichotomy(a.drop_first(), b.drop_first());
        if a.drop_first() == b.drop_first() {
            assert forall|k: int| 0 <= k < a.len() implies a[k] == b[k] by {
                if k > 0 {
                    assert(a[k] == a.drop_first()[k - 1]);
                    assert(b[k] == b.drop_first()[k - 1]);
                }
            }
            assert(a =~= b);
        }
        if a == b {
            assert(a.drop_first() =~= b.drop_first());
        }
    } else if a.len() == 0 && b.len() == 0 {
        assert(a =~= b);
    }
}

/// Lexicographic order on character sequences is transitive.
pub proof fn lemma_chars_lt_trans(a: Seq<char>, b: Seq<char>, c: Seq<char>)
    requires
        chars_lt(a, b),
        chars_lt(b, c),
    ensures
        chars_lt(a, c),
    decreases a.len() + b.len() + c.len(),
{
    if a.len() > 0 {
        assert(b.len() > 0);
        assert(c.len() > 0);
        if a[0] == b[0] && b[0] == c[0] {
            lemma_chars_lt_trans(a.drop_first(), b.drop_first(), c.drop_first());
        }
    }
}

/// Of two scopes, exactly one of: equal, first smaller, second smaller.
pub proof fn lemma_scope_lt_trichotomy(a: Seq<Seq<char>>, b: Seq<Seq<char>>)
    ensures
        a == b || scope_lt(a, b) || scope_lt(b, a),
        scope_lt(a, b) ==> a != b && !scope_lt(b, a),
        scope_lt(b, a) ==> a != b && !scope_lt(a, b),
    decreases a.len() + b.len(),
{
    if a.len() > 0 && b.len() > 0 {
        lemma_chars_lt_trichotomy(a[0], b[0]);
        if a[0] == b[0] {
            lemma_scope_lt_trichotomy(a.drop_first(), b.drop_first());
            if a.drop_first() == b.drop_first() {
                assert forall|k: int| 0 <= k < a.len() implies a[k] == b[k] by {
                    if k > 0 {
                        assert(a[k] == a.drop_first()[k - 1]);
                        assert(b[k] == b.drop_first()[k - 1]);
                    }
                }
                assert(a =~= b);
            }
            if a == b {
                assert(a.drop_first() =~= b.drop_first());
            }
        } else {
            assert(a != b);
        }
    } else if a.len() == 0 && b.len() == 0 {
        assert(a =~= b);
    }
}

/// Lexicographic order on scopes is transitive.
pub proof fn lemma_scope_lt_trans(a: Seq<Seq<char>>, b: Seq<Seq<char>>, c: Seq<Seq<char>>)
    requires
        scope_lt(a, b),
        scope_lt(b, c),
    ensures
        scope_lt(a, c),
    decreases a.len() + b.len() + c.len(),
{
    if a.len() > 0 {
        assert(b.len() > 0);
        assert(c.len() > 0);
        if a[0] == b[0] && b[0] == c[0] {
            lemma_scope_lt_trans(a.drop_first(), b.drop_first(), c.drop_first());
        } else if a[0] == b[0] {
            assert(chars_lt(a[0], c[0]));
        } else if b[0] == c[0] {
            assert(chars_lt(a[0], c[0]));
        } else {
            lemma_chars_lt_trans(a[0], b[0], c[0]);
            lemma_chars_lt_trichotomy(a[0], c[0]);
        }
    }
}

/// Compares two strings in lexicographic order by code point.
pub fn str_lt(a: &str, b: &str) -> (r: bool)
    ensures
        r == chars_lt(a@, b@),
{
    let an = a.unicode_len();
    let bn = b.unicode_len();
    let mut i: usize = 0;
    proof {
        assert(a@.skip(0) =~= a@);
        assert(b@.skip(0) =~= b@);
    }
    while i < an && i < bn
        invariant
            an == a@.len(),
            bn == b@.len(),
            0 <= i <= an,
            0 <= i <= bn,
            chars_lt(a@, b@) == chars_lt(a@.skip(i as int), b@.skip(i as int)),
        decreases an - i,
    {
        let ca = a.get_char(i);
        let cb = b.get_char(i);
        proof {
            assert(a@.skip(i as int)[0] == a@[i as int]);
            assert(b@.skip(i as int)[0] == b@[i as int]);
            assert(a@.skip(i as int).drop_first() =~= a@.skip(i + 1));
            assert(b@.skip(i as int).drop_first() =~= b@.skip(i + 1));
        }
        if ca != cb {
            return (ca as u32) < (cb as u32);
        }
        i += 1;
    }
    proof {
        if i >= bn {
            assert(b@.skip(i as int).len() == 0);
        } else {
            assert(a@.skip(i as int).len() == 0);
            assert(b@.skip(i as int).len() > 0);
        }
    }
    i < bn
}

/// Compares two segments in lexicographic order by code point.
pub fn segment_lt(a: &Segment, b: &Segment) -> (r: bool)
    ensures
        r == chars_lt(a@, b@),
{
    str_lt(a.as_str(), b.as_str())
}

/// Compares two scopes in lexicographic order: segment by segment, shorter
/// prefixes first.
pub fn scope_cmp_lt(a: &Scope, b: &Scope) -> (r: bool)
    ensures
        r == scope_lt(a@, b@),
{
    let av = a.as_vec();
    let bv = b.as_vec();
    proof {
        lemma_scope_view(a);
        lemma_scope_view(b);
        lemma_segments_view(av);
        lemma_segments_view(bv);
    }
    let an = av.len();
    let bn = bv.len();
    let mut i: usize = 0;
    proof {
        assert(a@.skip(0) =~= a@);
        assert(b@.skip(0) =~= b@);
    }
    while i < an && i < bn
        invariant
            av.deep_view() == a@,
            bv.deep_view() == b@,
            forall|j: int| 0 <= j < a@.len() ==> #[trigger] a@[j] == av@[j]@,
            forall|j: int| 0 <= j < b@.len() ==> #[trigger] b@[j] == bv@[j]@,
            an == a@.len(),
            bn == b@.len(),
            0 <= i <= an,
            0 <= i <= bn,
            scope_lt(a@, b@) == scope_lt(a@.skip(i as int), b@.skip(i as int)),
        decreases an - i,
    {
        proof {
            assert(a@.skip(i as int)[0] == a@[i as int]);
            assert(b@.skip(i as int)[0] == b@[i as int]);
            assert(a@.skip(i as int).drop_first() =~= a@.skip(i + 1));
            assert(b@.skip(i as int).drop_first() =~= b@.skip(i + 1));
        }
        if !(av[i] == bv[i]) {
            return segment_lt(&av[i], &bv[i]);
        }
        i += 1;
    }
    proof {
        if i >= bn {
            assert(b@.skip(i as int).len() == 0);
        } else {
            assert(a@.skip(i as int).len() == 0);
            assert(b@.skip(i as int).len() > 0);
        }
    }
    i < bn
}

/// The set of views of a vector of scopes.
pub open spec fn scope_set(s: Seq<Scope>) -> Set<Seq<Seq<char>>> {
    Set::new(|x: Seq<Seq<char>>| exists|j: int| 0 <= j < s.len() && (#[trigger] s[j])@ == x)
}

/// The scopes are strictly increasing, so also free of duplicates.
pub open spec fn sorted_scopes(s: Seq<Scope>) -> bool {
    forall|i: int, j: int| 0 <= i < j < s.len() ==> scope_lt((#[trigger] s[i])@, (#[trigger] s[j])@)
}

/// Places `sc` at its position in a sorted vector of scopes, keeping the
/// vector sorted and free of duplicates.
pub fn insert_sorted(v: &mut Vec<Scope>, sc: Scope)
    requires
        sorted_scopes(old(v)@),
    ensures
        sorted_scopes(final(v)@),
        scope_set(final(v)@) == scope_set(old(v)@).insert(sc@),
{
    let ghost before = v@;
    let mut i: usize = 0;
    while i < v.len() && scope_cmp_lt(&v[i], &sc)
        invariant
            v@ == before,
            sorted_scopes(v@),
            0 <= i <= v@.len(),
            forall|j: int| 0 <= j < i ==> scope_lt((#[trigger] v@[j])@, sc@),
        decreases v@.len() - i,
    {
        i += 1;
    }
    if i < v.len() {
        let same = v[i].eq(&sc);
        if same {
            proof {
                assert(v@[i as int]@ == sc@);
                assert(scope_set(v@).insert(sc@) =~= scope_set(v@));
            }
            return ;
        }
        proof {
            lemma_scope_lt_trichotomy(v@[i as int]@, sc@);
            assert(scope_lt(sc@, v@[i as int]@));
        }
    }
    proof {
        assert forall|j: int| i <= j < v@.len() implies scope_lt(sc@, (#[trigger] v@[j])@) by {
            if j > i {
                lemma_scope_lt_trans(sc@, v@[i as int]@, v@[j]@);
            }
        }
    }
    let ghost prev = v@;
    v.insert(i, sc);
    proof {
        assert(v@[i as int]@ == sc@);
        assert(forall|j: int| 0 <= j < i ==> v@[j] == prev[j]);
        assert(forall|j: int| i < j < v@.len() ==> v@[j] == prev[j - 1]);
        assert forall|j: int, k: int| 0 <= j < k < v@.len() implies scope_lt(
            (#[trigger] v@[j])@,
            (#[trigger] v@[k])@,
        ) by {
            if j < i && k > i {
                assert(scope_lt(v@[j]@, sc@));
                assert(scope_lt(sc@, v@[k]@));
                lemma_scope_lt_trans(v@[j]@, sc@, v@[k]@);
            }
        }
        assert forall|x: Seq<Seq<char>>| #[trigger] scope_set(v@).contains(x) implies scope_set(
            prev,
        ).insert(sc@).contains(x) by {
            let j = choose|j: int| 0 <= j < v@.len() && (#[trigger] v@[j])@ == x;
            if j < i {
                assert(prev[j]@ == x);
            } else if j > i {
                assert(prev[j - 1]@ == x);
            }
        }
        assert forall|x: Seq<Seq<char>>| #[trigger] scope_set(prev).insert(sc@).contains(
            x,
        ) implies scope_set(v@).contains(x) by {
            if x == sc@ {
                assert(v@[i as int]@ == x);
            } else {
                let j = choose|j: int| 0 <= j < prev.len() && (#[trigger] prev[j])@ == x;
                if j < i {
                    assert(v@[j]@ == x);
                } else {
                    assert(v@[j + 1]@ == x);
                }
            }
        }
        assert(scope_set(v@) =~= scope_set(prev).insert(sc@));
    }
}

} // verus!
