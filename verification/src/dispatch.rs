use vstd::prelude::*;
use crate::error::Error;
use crate::namespace::{valid_namespace, Namespace};
use crate::text::{push_char, str_eq};
use vstd::string::StrSliceExecFns;

verus! {

/// Which backend a storage URI selects.
#[derive(Clone, Copy, Debug, PartialEq, Eq, Structural)]
pub enum BackendKind {
    /// Files under a directory, selected by the `local` scheme.
    Disk,
    /// The in-process store, selected by the `memory` scheme.
    Memory,
    /// A relational database, selected by the `postgres` scheme.
    Postgres,
}

/// The backend a URI scheme selects, or an unknown-scheme error carrying the
/// scheme itself.
pub fn backend_for_scheme(scheme: &str) -> (r: Result<BackendKind, Error>)
    ensures
        scheme@ == "local"@ ==> r == Ok::<BackendKind, Error>(BackendKind::Disk),
        scheme@ == "memory"@ ==> r == Ok::<BackendKind, Error>(BackendKind::Memory),
        scheme@ == "postgres"@ ==> r == Ok::<BackendKind, Error>(BackendKind::Postgres),
        !(scheme@ == "local"@ || scheme@ == "memory"@ || scheme@ == "postgres"@) ==> (r matches Err(
            e,
        ) && e matches Error::UnknownScheme(s) && s@ == scheme@),
{
    proof {
        reveal_strlit("local");
        reveal_strlit("memory");
        reveal_strlit("postgres");
        assert("local"@.len() == 5);
        assert("memory"@.len() == 6);
        assert("postgres"@.len() == 8);
    }
    if str_eq(scheme, "local") {
        Ok(BackendKind::Disk)
    } else if str_eq(scheme, "memory") {
        Ok(BackendKind::Memory)
    } else if str_eq(scheme, "postgres") {
        Ok(BackendKind::Postgres)
    } else {
        Err(Error::UnknownScheme(scheme.to_owned()))
    }
}

/// The namespace that a store behind a shared substrate actually uses when a
/// URI carries a prefix: the prefix, an underscore, then the namespace. Fails
/// when the combined text is not a valid namespace.
pub fn prefixed_namespace(prefix: &str, namespace: &Namespace) -> (r: Result<Namespace, Error>)
    ensures
        r matches Ok(ns) ==> ns@ == prefix@ + seq!['_'] + namespace@ && valid_namespace(
            prefix@ + seq!['_'] + namespace@,
        ),
        r is Ok <==> valid_namespace(prefix@ + seq!['_'] + namespace@),
        r matches Err(e) ==> e matches Error::UnknownScheme(_),
{
    let mut s = prefix.to_owned();
    push_char(&mut s, '_');
    s.append(namespace.as_str());
    proof {
        assert(s@ =~= prefix@ + seq!['_'] + namespace@);
    }
    match Namespace::parse(s.as_str()) {
        Ok(ns) => Ok(ns),
        Err(_) => Err(
            Error::UnknownScheme(
                String::from_str("cannot use this prefix for an in-memory store"),
            ),
        ),
    }
}

} // verus!
