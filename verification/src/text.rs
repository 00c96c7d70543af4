use vstd::prelude::*;
use vstd::string::StrSliceExecFns;

verus! {

/// Appends one character to an owned string.
///
/// Relies on String::push: the string grows by exactly that character.
#[verifier::external_body]
pub fn push_char(s: &mut String, c: char)
    ensures
        final(s)@ == old(s)@.push(c),
{
    s.push(c)
}

/// The views of a vector of strings.
pub open spec fn views_of(parts: Seq<String>) -> Seq<Seq<char>> {
    parts.map_values(|p: String| p@)
}

/// True iff `s` does not contain `sep`.
pub open spec fn sep_free(s: Seq<char>, sep: char) -> bool {
    forall|i: int| 0 <= i < s.len() ==> s[i] != sep
}

/// The pieces of `s` between occurrences of `sep`, in order. There is always
/// at least one piece; splitting the empty sequence gives one empty piece.
pub open spec fn split_on(s: Seq<char>, sep: char) -> Seq<Seq<char>>
    decreases s.len(),
{
    if s.len() == 0 {
        seq![Seq::<char>::empty()]
    } else {
        let rest = split_on(s.drop_last(), sep);
        if s.last() == sep {
            rest.push(Seq::<char>::empty())
        } else {
            rest.update(rest.len() - 1, rest.last().push(s.last()))
        }
    }
}

/// The pieces joined back together with `sep` between them.
pub open spec fn join_with(parts: Seq<Seq<char>>, sep: char) -> Seq<char>
    decreases parts.len(),
{
    if parts.len() == 0 {
        Seq::<char>::empty()
    } else if parts.len() == 1 {
        parts[0]
    } else {
        join_with(parts.drop_last(), sep) + seq![sep] + parts.last()
    }
}

/// Splitting yields at least one piece.
pub proof fn lemma_split_len(s: Seq<char>, sep: char)
    ensures
        split_on(s, sep).len() >= 1,
    decreases s.len(),
{
    if s.len() > 0 {
        lemma_split_len(s.drop_last(), sep);
    }
}

/// Extending a sequence by separator-free text extends its last piece.
pub proof fn lemma_split_append_free(s: Seq<char>, t: Seq<char>, sep: char)
    requires
        sep_free(t, sep),
    ensures
        split_on(s + t, sep) == split_on(s, sep).update(
            split_on(s, sep).len() - 1,
            split_on(s, sep).last() + t,
        ),
    decreases t.len(),
{
    lemma_split_len(s, sep);
    if t.len() == 0 {
        assert(s + t =~= s);
        assert(split_on(s, sep).last() + t =~= split_on(s, sep).last());
        assert(split_on(s, sep).update(split_on(s, sep).len() - 1, split_on(s, sep).last() + t)
            =~= split_on(s, sep));
    } else {
        let t0 = t.drop_last();
        let c = t.last();
        assert(sep_free(t0, sep));
        lemma_split_append_free(s, t0, sep);
        assert((s + t).drop_last() =~= s + t0);
        assert((s + t).last() == c);
        assert(c != sep);
        let base = split_on(s, sep);
        let mid = split_on(s + t0, sep);
        assert(mid == base.update(base.len() - 1, base.last() + t0));
        assert(mid.len() == base.len());
        assert(mid.last() == base.last() + t0);
        assert(split_on(s + t, sep) == mid.update(mid.len() - 1, mid.last().push(c)));
        assert(mid.last().push(c) =~= base.last() + t);
        assert(mid.update(mid.len() - 1, mid.last().push(c)) =~= base.update(
            base.len() - 1,
            base.last() + t,
        ));
    }
}

/// Extending a sequence by the separator starts a new, empty last piece.
pub proof fn lemma_split_append_sep(s: Seq<char>, sep: char)
    ensures
        split_on(s + seq![sep], sep) == split_on(s, sep).push(Seq::<char>::empty()),
{
    assert((s + seq![sep]).drop_last() =~= s);
    assert((s + seq![sep]).last() == sep);
}

/// Splitting after joining recovers the original pieces, provided every piece
/// is free of the separator.
pub proof fn lemma_split_join(parts: Seq<Seq<char>>, sep: char)
    requires
        parts.len() >= 1,
        forall|i: int| 0 <= i < parts.len() ==> sep_free(#[trigger] parts[i], sep),
    ensures
        split_on(join_with(parts, sep), sep) == parts,
    decreases parts.len(),
{
    if parts.len() == 1 {
        let p = parts[0];
        assert(join_with(parts, sep) == p);
        lemma_split_append_free(Seq::<char>::empty(), p, sep);
        assert(Seq::<char>::empty() + p =~= p);
        assert(split_on(Seq::<char>::empty(), sep) =~= seq![Seq::<char>::empty()]);
        assert(split_on(p, sep) == seq![Seq::<char>::empty()].update(
            0,
            Seq::<char>::empty() + p,
        ));
        assert(seq![Seq::<char>::empty()].update(0, Seq::<char>::empty() + p) =~= seq![p]);
        assert(parts =~= seq![p]);
    } else {
        let front = parts.drop_last();
        let p = parts.last();
        lemma_split_join(front, sep);
        let j0 = join_with(front, sep);
        assert(join_with(parts, sep) == j0 + seq![sep] + p);
        lemma_split_append_sep(j0, sep);
        lemma_split_append_free(j0 + seq![sep], p, sep);
        assert(j0 + seq![sep] + p =~= (j0 + seq![sep]) + p);
        let withsep = split_on(j0 + seq![sep], sep);
        assert(withsep == front.push(Seq::<char>::empty()));
        assert(withsep.last() =~= Seq::<char>::empty());
        assert(withsep.last() + p =~= p);
        assert(split_on(join_with(parts, sep), sep) == withsep.update(
            withsep.len() - 1,
            withsep.last() + p,
        ));
        assert(withsep.update(withsep.len() - 1, withsep.last() + p) =~= parts);
    }
}

/// Splits `s` into the pieces between occurrences of `sep`.
pub fn split_str(s: &str, sep: char) -> (parts: Vec<String>)
    ensures
        views_of(parts@) == split_on(s@, sep),
        parts@.len() >= 1,
{
    let n = s.unicode_len();
    let mut parts: Vec<String> = Vec::new();
    let mut start: usize = 0;
    let mut i: usize = 0;
    proof {
        assert(s@.take(0) =~= Seq::<char>::empty());
        assert(views_of(parts@).push(s@.subrange(0, 0)) =~= split_on(
            s@.take(0),
            sep,
        ));
    }
    while i < n
        invariant
            n == s@.len(),
            0 <= start <= i <= n,
            sep_free(s@.subrange(start as int, i as int), sep),
            views_of(parts@).push(s@.subrange(start as int, i as int)) == split_on(
                s@.take(i as int),
                sep,
            ),
        decreases n - i,
    {
        let ghost pre = views_of(parts@);
        let ghost cur = s@.subrange(start as int, i as int);
        let c = s.get_char(i);
        proof {
            assert(s@.take(i + 1).drop_last() =~= s@.take(i as int));
            assert(s@.take(i + 1).last() == s@[i as int]);
            lemma_split_len(s@.take(i as int), sep);
            assert(pre.push(cur).last() == cur);
            assert(pre.push(cur).len() - 1 == pre.len());
        }
        if c == sep {
            let piece = s.substring_char(start, i).to_owned();
            parts.push(piece);
            proof {
                assert(split_on(s@.take(i + 1), sep) == split_on(s@.take(i as int), sep).push(
                    Seq::<char>::empty(),
                ));
                assert(views_of(parts@) =~= pre.push(cur));
                assert(s@.subrange(i + 1, i + 1) =~= Seq::<char>::empty());
                assert(views_of(parts@).push(s@.subrange(i + 1, i + 1)) =~= pre.push(cur).push(
                    Seq::<char>::empty(),
                ));
            }
            start = i + 1;
        } else {
            proof {
                assert(split_on(s@.take(i + 1), sep) == pre.push(cur).update(
                    pre.len() as int,
                    cur.push(s@[i as int]),
                ));
                assert(s@.subrange(start as int, i + 1) =~= cur.push(s@[i as int]));
                assert(pre.push(cur).update(pre.len() as int, cur.push(s@[i as int])) =~= pre.push(
                    s@.subrange(start as int, i + 1),
                ));
                assert(sep_free(s@.subrange(start as int, i + 1), sep));
            }
        }
        i += 1;
    }
    let ghost pre = views_of(parts@);
    let last = s.substring_char(start, n).to_owned();
    parts.push(last);
    proof {
        assert(s@.take(n as int) =~= s@);
        assert(views_of(parts@) =~= pre.push(s@.subrange(start as int, n as int)));
        lemma_split_len(s@, sep);
    }
    parts
}

/// The text before the first occurrence of `sep` and the text after it, if
/// `sep` occurs at all.
pub open spec fn split_once_on(s: Seq<char>, sep: char) -> Option<(Seq<char>, Seq<char>)>
    decreases s.len(),
{
    if s.len() == 0 {
        None
    } else if s[0] == sep {
        Some((Seq::<char>::empty(), s.drop_first()))
    } else {
        match split_once_on(s.drop_first(), sep) {
            None => None,
            Some((a, b)) => Some((seq![s[0]] + a, b)),
        }
    }
}

/// Where the first separator sits, splitting there is what
/// [`split_once_on`] yields.
pub proof fn lemma_split_once_at(s: Seq<char>, sep: char, i: int)
    requires
        0 <= i < s.len(),
        s[i] == sep,
        forall|j: int| 0 <= j < i ==> s[j] != sep,
    ensures
        split_once_on(s, sep) == Some((s.take(i), s.skip(i + 1))),
    decreases i,
{
    if i == 0 {
        assert(s.take(0) =~= Seq::<char>::empty());
        assert(s.skip(1) =~= s.drop_first());
    } else {
        let t = s.drop_first();
        assert(t[i - 1] == sep);
        assert(forall|j: int| 0 <= j < i - 1 ==> t[j] == s[j + 1] && t[j] != sep);
        lemma_split_once_at(t, sep, i - 1);
        assert(seq![s[0]] + t.take(i - 1) =~= s.take(i));
        assert(t.skip(i) =~= s.skip(i + 1));
    }
}

/// Without a separator there is nothing to split.
pub proof fn lemma_split_once_none(s: Seq<char>, sep: char)
    requires
        sep_free(s, sep),
    ensures
        split_once_on(s, sep) is None,
    decreases s.len(),
{
    if s.len() > 0 {
        assert(sep_free(s.drop_first(), sep));
        lemma_split_once_none(s.drop_first(), sep);
    }
}

/// True iff two strings hold the same characters.
pub fn str_eq(a: &str, b: &str) -> (r: bool)
    ensures
        r == (a@ == b@),
{
    let an = a.unicode_len();
    let bn = b.unicode_len();
    if an != bn {
        return false;
    }
    let mut i: usize = 0;
    while i < an
        invariant
            an == a@.len(),
            an == b@.len(),
            0 <= i <= an,
            forall|j: int| 0 <= j < i ==> a@[j] == b@[j],
        decreases an - i,
    {
        if a.get_char(i) != b.get_char(i) {
            return false;
        }
        i += 1;
    }
    proof {
        assert(a@ =~= b@);
    }
    true
}

} // verus!
