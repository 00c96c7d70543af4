use vstd::prelude::*;
use crate::error::Error;
use crate::key::{key_string, Key, KeyView};
use crate::scope::{strip_trailing_sep, valid_scope, Scope};
use crate::segment::{ParseSegmentError, SEPARATOR};
use crate::text::{join_with, push_char, split_on, str_eq};
use vstd::string::StrSliceExecFns;

verus! {

/// Where a disk-backed store keeps its files: one directory per namespace
/// under a base path, and a shared staging directory for temporary files
/// beside it. This type only computes paths; reading and writing the files is
/// the surrounding runtime's concern.
#[derive(Debug)]
pub struct Disk {
    root: String,
    tmp: String,
}

impl Disk {
    /// The store rooted at `<path>/<namespace>`, staging temporary files in
    /// `<path>/tmp`.
    pub fn new(path: &str, namespace: &str) -> (r: Disk)
        ensures
            r.root_view() == path@ + seq![SEPARATOR] + namespace@,
            r.tmp_view() == path@ + seq![SEPARATOR] + "tmp"@,
    {
        let mut root = path.to_owned();
        push_char(&mut root, '/');
        root.append(namespace);
        let mut tmp = path.to_owned();
        push_char(&mut tmp, '/');
        tmp.append("tmp");
        Disk { root, tmp }
    }

    /// The namespace directory.
    pub closed spec fn root_view(&self) -> Seq<char> {
        self.root@
    }

    /// The staging directory.
    pub closed spec fn tmp_view(&self) -> Seq<char> {
        self.tmp@
    }

    /// The namespace directory.
    pub fn root(&self) -> (r: &str)
        ensures
            r@ == self.root_view(),
    {
        self.root.as_str()
    }

    /// The staging directory.
    pub fn tmp(&self) -> (r: &str)
        ensures
            r@ == self.tmp_view(),
    {
        self.tmp.as_str()
    }
}

impl Key {
    /// The file the key's value lives in, under `root`: the scope's segments
    /// as directories, then the name.
    pub fn as_path(&self, root: &str) -> (r: String)
        ensures
            r@ == root@ + seq![SEPARATOR] + key_string(self@),
    {
        let mut out = root.to_owned();
        push_char(&mut out, '/');
        let rest = self.to_string();
        out.append(rest.as_str());
        proof {
            assert(out@ =~= root@ + seq![SEPARATOR] + key_string(self@));
        }
        out
    }
}

impl Scope {
    /// The directory the scope's keys live under, under `root`. The global
    /// scope is the root itself.
    pub fn as_path(&self, root: &str) -> (r: String)
        ensures
            self@.len() == 0 ==> r@ == root@,
            self@.len() > 0 ==> r@ == root@ + seq![SEPARATOR] + join_with(self@, SEPARATOR),
    {
        if self.is_global() {
            root.to_owned()
        } else {
            let mut out = root.to_owned();
            push_char(&mut out, '/');
            let rest = self.to_string();
            out.append(rest.as_str());
            proof {
                assert(out@ =~= root@ + seq![SEPARATOR] + join_with(self@, SEPARATOR));
            }
            out
        }
    }
}

/// `path` lies under `root`: it is the root, one separator, and a remainder.
pub open spec fn under_root(path: Seq<char>, root: Seq<char>) -> bool {
    &&& path.len() > root.len()
    &&& path.take(root.len() as int) == root
    &&& path[root.len() as int] == SEPARATOR
}

/// The part of `path` after the prefix `root` and one separator, if the path
/// lies under the root.
pub fn strip_root<'a>(path: &'a str, root: &str) -> (r: Option<&'a str>)
    ensures
        r matches Some(rest) ==> path@ == root@ + seq![SEPARATOR] + rest@ && rest@ == path@.skip(
            root@.len() as int + 1,
        ),
        r is Some <==> under_root(path@, root@),
{
    let pn = path.unicode_len();
    let rn = root.unicode_len();
    if pn <= rn {
        return None;
    }
    let prefix = path.substring_char(0, rn);
    if !str_eq(prefix, root) {
        proof {
            assert(prefix@ =~= path@.take(rn as int));
        }
        return None;
    }
    if path.get_char(rn) != '/' {
        proof {
            assert(path@.take(rn as int) =~= prefix@);
        }
        return None;
    }
    let rest = path.substring_char(rn + 1, pn);
    proof {
        assert(path@.take(rn as int) =~= prefix@);
        assert(path@ =~= root@ + seq![SEPARATOR] + rest@);
        assert(rest@ =~= path@.skip(rn as int + 1));
    }
    Some(rest)
}

/// Reads the file path of a stored value back into its key: the path must
/// lie under `root`, and each component between separators must be a valid
/// segment, the last one being the key's name.
pub fn key_from_path(path: &str, root: &str) -> (r: Result<Key, Error>)
    ensures
        r is Ok <==> under_root(path@, root@) && valid_scope(
            split_on(path@.skip(root@.len() as int + 1), SEPARATOR),
        ),
        r matches Ok(k) ==> ({
            let parts = split_on(path@.skip(root@.len() as int + 1), SEPARATOR);
            &&& path@ == root@ + seq![SEPARATOR] + path@.skip(root@.len() as int + 1)
            &&& k@.scope == parts.drop_last()
            &&& k@.name == parts.last()
        }),
        r == Err::<Key, Error>(Error::InvalidKey) <==> !under_root(path@, root@),
        r matches Err(e) && e matches Error::InvalidSegment(_) <==> under_root(path@, root@)
            && !valid_scope(split_on(path@.skip(root@.len() as int + 1), SEPARATOR)),
{
    let rest = match strip_root(path, root) {
        Some(rest) => rest,
        None => {
            return Err(Error::InvalidKey);
        },
    };
    proof {
        assert(rest@ =~= path@.skip(root@.len() as int + 1));
    }
    match Key::from_str(rest) {
        Ok(k) => Ok(k),
        Err(e) => Err(Error::InvalidSegment(e)),
    }
}

/// Reads the directory of a scope back into the scope: the path must lie
/// under `root`, and each component must be a valid segment. One trailing
/// separator is ignored.
pub fn scope_from_path(path: &str, root: &str) -> (r: Result<Scope, Error>)
    ensures
        r is Ok <==> under_root(path@, root@) && valid_scope(
            split_on(strip_trailing_sep(path@.skip(root@.len() as int + 1)), SEPARATOR),
        ),
        r matches Ok(sc) ==> ({
            let parts = split_on(strip_trailing_sep(path@.skip(root@.len() as int + 1)), SEPARATOR);
            &&& path@ == root@ + seq![SEPARATOR] + path@.skip(root@.len() as int + 1)
            &&& sc@ == parts
            &&& valid_scope(parts)
        }),
        r == Err::<Scope, Error>(Error::InvalidKey) <==> !under_root(path@, root@),
        r matches Err(e) && e matches Error::InvalidSegment(_) <==> under_root(path@, root@)
            && !valid_scope(split_on(strip_trailing_sep(path@.skip(root@.len() as int + 1)), SEPARATOR)),
{
    let rest = match strip_root(path, root) {
        Some(rest) => rest,
        None => {
            return Err(Error::InvalidKey);
        },
    };
    proof {
        assert(rest@ =~= path@.skip(root@.len() as int + 1));
    }
    match Scope::from_str(rest) {
        Ok(sc) => Ok(sc),
        Err(e) => Err(Error::InvalidSegment(e)),
    }
}

/// The directory under the namespace root that holds transaction lockfiles.
/// It is reserved: no key may be stored under it, and listings skip it.
pub fn lock_dir_name() -> (r: &'static str)
    ensures
        r@ == ".locks"@,
{
    ".locks"
}

/// The scope lies in the reserved lock directory: its string form begins
/// with the lock directory's name, that is, its first segment does.
pub open spec fn reserved_scope(scope: Seq<Seq<char>>) -> bool {
    &&& scope.len() > 0
    &&& scope[0].len() >= ".locks"@.len()
    &&& scope[0].take(".locks"@.len() as int) == ".locks"@
}

/// True iff the scope lies in the reserved lock directory, where no key may
/// be stored.
pub fn is_reserved_scope(scope: &Scope) -> (r: bool)
    ensures
        r == reserved_scope(scope@),
{
    proof {
        reveal_strlit(".locks");
    }
    if scope.is_global() {
        return false;
    }
    let v = scope.as_vec();
    proof {
        assert(v.deep_view()[0] == v@[0]@);
    }
    let first: &str = v[0].as_str();
    let n = first.unicode_len();
    if n < 6 {
        return false;
    }
    let head = first.substring_char(0, 6);
    proof {
        assert(head@ =~= first@.take(6));
    }
    str_eq(head, ".locks")
}

} // verus!
