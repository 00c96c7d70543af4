use vstd::prelude::*;
use crate::error::Error;
use crate::key::{Key, KeyView};
use crate::namespace::Namespace;
use crate::scope::{insert_sorted, scope_set, scope_starts_with, sorted_scopes, Scope};
use crate::value::clone_value;
use serde_json::Value;

verus! {

/// Identifies one stored entry across all namespaces: the namespace, the
/// scope and the name, all as character sequences.
#[verifier::ext_equal]
pub ghost struct EntryId {
    pub ns: Seq<char>,
    pub scope: Seq<Seq<char>>,
    pub name: Seq<char>,
}

/// The identity of `k` within namespace `ns`.
pub open spec fn id_of(ns: Seq<char>, k: KeyView) -> EntryId {
    EntryId { ns: ns, scope: k.scope, name: k.name }
}

/// The key part of an entry identity.
pub open spec fn key_of(id: EntryId) -> KeyView {
    KeyView { scope: id.scope, name: id.name }
}

struct Row {
    namespace: Namespace,
    key: Key,
    value: Value,
}

spec fn row_id(r: Row) -> EntryId {
    id_of(r.namespace@, r.key@)
}

spec fn unique_rows(rows: Seq<Row>) -> bool {
    forall|i: int, j: int| 0 <= i < j < rows.len() ==> row_id(rows[i]) != row_id(rows[j])
}

spec fn contents_of(rows: Seq<Row>) -> Map<EntryId, Value>
    decreases rows.len(),
{
    if rows.len() == 0 {
        Map::empty()
    } else {
        contents_of(rows.drop_last()).insert(row_id(rows.last()), rows.last().value)
    }
}

proof fn lemma_contents_dom(rows: Seq<Row>)
    ensures
        forall|id: EntryId|
            #[trigger] contents_of(rows).dom().contains(id) <==> exists|i: int|
                0 <= i < rows.len() && row_id(#[trigger] rows[i]) == id,
    decreases rows.len(),
{
    if rows.len() > 0 {
        let front = rows.drop_last();
        lemma_contents_dom(front);
        assert forall|id: EntryId| #[trigger] contents_of(rows).dom().contains(id) implies exists|
            i: int,
        | 0 <= i < rows.len() && row_id(#[trigger] rows[i]) == id by {
            if id == row_id(rows.last()) {
                assert(row_id(rows[rows.len() - 1]) == id);
            } else {
                assert(contents_of(front).dom().contains(id));
                let i = choose|i: int| 0 <= i < front.len() && row_id(#[trigger] front[i]) == id;
                assert(front[i] == rows[i]);
            }
        };
        assert forall|id: EntryId|
            (exists|i: int| 0 <= i < rows.len() && row_id(#[trigger] rows[i]) == id) implies #[trigger] contents_of(
            rows,
        ).dom().contains(id) by {
            let i = choose|i: int| 0 <= i < rows.len() && row_id(#[trigger] rows[i]) == id;
            if i < rows.len() - 1 {
                assert(front[i] == rows[i]);
                assert(contents_of(front).dom().contains(id));
            }
        };
    }
}

proof fn lemma_contents_get(rows: Seq<Row>, i: int)
    requires
        unique_rows(rows),
        0 <= i < rows.len(),
    ensures
        contents_of(rows).dom().contains(row_id(rows[i])),
        contents_of(rows)[row_id(rows[i])] == rows[i].value,
    decreases rows.len(),
{
    let front = rows.drop_last();
    if i == rows.len() - 1 {
    } else {
        assert(unique_rows(front)) by {
            assert(forall|k: int| 0 <= k < front.len() ==> front[k] == rows[k]);
        }
        assert(front[i] == rows[i]);
        lemma_contents_get(front, i);
        assert(row_id(rows[rows.len() - 1]) != row_id(rows[i]));
    }
}

proof fn lemma_contents_remove(rows: Seq<Row>, i: int)
    requires
        unique_rows(rows),
        0 <= i < rows.len(),
    ensures
        unique_rows(rows.remove(i)),
        contents_of(rows.remove(i)) == contents_of(rows).remove(row_id(rows[i])),
    decreases rows.len(),
{
    let front = rows.drop_last();
    let id = row_id(rows[i]);
    assert(unique_rows(front)) by {
        assert(forall|k: int| 0 <= k < front.len() ==> front[k] == rows[k]);
    }
    if i == rows.len() - 1 {
        assert(rows.remove(i) =~= front);
        lemma_contents_dom(front);
        assert(!contents_of(front).dom().contains(id)) by {
            if contents_of(front).dom().contains(id) {
                let j = choose|j: int| 0 <= j < front.len() && row_id(#[trigger] front[j]) == id;
                assert(front[j] == rows[j]);
            }
        }
        assert(contents_of(front) =~= contents_of(rows).remove(id));
    } else {
        lemma_contents_remove(front, i);
        assert(rows.remove(i).drop_last() =~= front.remove(i));
        assert(rows.remove(i).last() == rows.last());
        assert(contents_of(rows.remove(i)) == contents_of(front.remove(i)).insert(
            row_id(rows.last()),
            rows.last().value,
        ));
        assert(row_id(rows.last()) != id);
        assert(contents_of(front).remove(id).insert(row_id(rows.last()), rows.last().value)
            =~= contents_of(rows).remove(id));
        assert(unique_rows(rows.remove(i))) by {
            assert(forall|k: int|
                0 <= k < rows.remove(i).len() ==> rows.remove(i)[k] == (if k < i {
                    rows[k]
                } else {
                    rows[k + 1]
                }));
        }
    }
}

/// A store for every namespace that shares one in-process substrate. Its
/// mathematical value is a map from entry identities to JSON values.
pub struct MemoryStore {
    rows: Vec<Row>,
}

impl View for MemoryStore {
    type V = Map<EntryId, Value>;

    closed spec fn view(&self) -> Map<EntryId, Value> {
        contents_of(self.rows@)
    }
}

impl MemoryStore {
    /// Well-formedness: no two rows name the same entry. Constructors
    /// establish it and every operation preserves it.
    pub closed spec fn wf(&self) -> bool {
        unique_rows(self.rows@)
    }

    /// An empty store.
    pub fn new() -> (r: MemoryStore)
        ensures
            r@ == Map::<EntryId, Value>::empty(),
            r.wf(),
    {
        MemoryStore { rows: Vec::new() }
    }

    fn find(&self, namespace: &Namespace, key: &Key) -> (r: Option<usize>)
        ensures
            r matches Some(i) ==> i < self.rows@.len() && row_id(self.rows@[i as int]) == id_of(
                namespace@,
                key@,
            ),
            r is None ==> !self@.dom().contains(id_of(namespace@, key@)),
    {
        let ghost id = id_of(namespace@, key@);
        let mut i: usize = 0;
        while i < self.rows.len()
            invariant
                0 <= i <= self.rows@.len(),
                forall|j: int| 0 <= j < i ==> row_id(#[trigger] self.rows@[j]) != id,
                id == id_of(namespace@, key@),
            decreases self.rows@.len() - i,
        {
            if self.rows[i].namespace == *namespace && self.rows[i].key == *key {
                return Some(i);
            }
            i += 1;
        }
        proof {
            lemma_contents_dom(self.rows@);
        }
        None
    }

    /// True iff the namespace holds an entry for the key.
    pub fn has(&self, namespace: &Namespace, key: &Key) -> (r: bool)
        requires
            self.wf(),
        ensures
            r == self@.dom().contains(id_of(namespace@, key@)),
    {
        match self.find(namespace, key) {
            Some(i) => {
                proof {
                    lemma_contents_get(self.rows@, i as int);
                }
                true
            },
            None => false,
        }
    }

    /// The value stored for the key in the namespace, if any.
    pub fn get(&self, namespace: &Namespace, key: &Key) -> (r: Option<Value>)
        requires
            self.wf(),
        ensures
            r matches Some(v) ==> self@.dom().contains(id_of(namespace@, key@)) && v == self@[id_of(
                namespace@,
                key@,
            )],
            r is Some <==> self@.dom().contains(id_of(namespace@, key@)),
    {
        match self.find(namespace, key) {
            Some(i) => {
                proof {
                    lemma_contents_get(self.rows@, i as int);
                }
                Some(clone_value(&self.rows[i].value))
            },
            None => None,
        }
    }

    /// Stores the value under the key, creating or replacing the entry.
    pub fn insert(&mut self, namespace: &Namespace, key: &Key, value: Value)
        requires
            old(self).wf(),
        ensures
            final(self).wf(),
            final(self)@ == old(self)@.insert(id_of(namespace@, key@), value),
    {
        let ghost id = id_of(namespace@, key@);
        let ghost before = self@;
        match self.find(namespace, key) {
            Some(i) => {
                proof {
                    lemma_contents_remove(self.rows@, i as int);
                }
                let _ = self.rows.remove(i);
                proof {
                    lemma_contents_dom(self.rows@);
                    assert(!self@.dom().contains(id));
                }
            },
            None => {
                proof {
                    lemma_contents_dom(self.rows@);
                }
            },
        }
        let ghost mid_rows = self.rows@;
        let ghost mid = self@;
        proof {
            assert(!mid.dom().contains(id));
            assert(forall|j: int| 0 <= j < mid_rows.len() ==> row_id(#[trigger] mid_rows[j]) != id)
                by {
                lemma_contents_dom(mid_rows);
                if exists|j: int| 0 <= j < mid_rows.len() && row_id(#[trigger] mid_rows[j]) == id {
                    let j = choose|j: int|
                        0 <= j < mid_rows.len() && row_id(#[trigger] mid_rows[j]) == id;
                    assert(mid.dom().contains(id));
                }
            }
        }
        let row = Row { namespace: namespace.clone(), key: key.clone(), value };
        proof {
            assert(row_id(row) == id);
            assert(unique_rows(mid_rows.push(row)));
        }
        self.rows.push(row);
        proof {
            assert(self.rows@.drop_last() =~= mid_rows);
            assert(row_id(self.rows@.last()) == id);
            assert(self@ == mid.insert(id, value));
            assert(mid.insert(id, value) =~= before.insert(id, value));
        }
    }

    /// Deletes the entry for the key; reports the key unknown if absent.
    pub fn delete(&mut self, namespace: &Namespace, key: &Key) -> (r: Result<(), Error>)
        requires
            old(self).wf(),
        ensures
            final(self).wf(),
            old(self)@.dom().contains(id_of(namespace@, key@)) ==> r == Ok::<(), Error>(())
                && final(self)@ == old(self)@.remove(id_of(namespace@, key@)),
            !old(self)@.dom().contains(id_of(namespace@, key@)) ==> r == Err::<(), Error>(
                Error::UnknownKey,
            ) && final(self)@ == old(self)@,
    {
        match self.find(namespace, key) {
            Some(i) => {
                proof {
                    lemma_contents_get(self.rows@, i as int);
                    lemma_contents_remove(self.rows@, i as int);
                }
                let _ = self.rows.remove(i);
                Ok(())
            },
            None => Err(Error::UnknownKey),
        }
    }

    /// Moves the value stored at `from` to `to`, replacing anything there;
    /// reports the key unknown when `from` is absent.
    pub fn move_value(&mut self, namespace: &Namespace, from: &Key, to: &Key) -> (r: Result<
        (),
        Error,
    >)
        requires
            old(self).wf(),
        ensures
            final(self).wf(),
            old(self)@.dom().contains(id_of(namespace@, from@)) ==> r == Ok::<(), Error>(())
                && final(self)@ == old(self)@.remove(id_of(namespace@, from@)).insert(
                id_of(namespace@, to@),
                old(self)@[id_of(namespace@, from@)],
            ),
            !old(self)@.dom().contains(id_of(namespace@, from@)) ==> r == Err::<(), Error>(
                Error::UnknownKey,
            ) && final(self)@ == old(self)@,
    {
        match self.find(namespace, from) {
            Some(i) => {
                proof {
                    lemma_contents_get(self.rows@, i as int);
                    lemma_contents_remove(self.rows@, i as int);
                }
                let row = self.rows.remove(i);
                self.insert(namespace, to, row.value);
                Ok(())
            },
            None => Err(Error::UnknownKey),
        }
    }

    /// True iff the namespace holds no entry at all.
    pub fn namespace_is_empty(&self, namespace: &Namespace) -> (r: bool)
        requires
            self.wf(),
        ensures
            r == (forall|id: EntryId| #[trigger] self@.dom().contains(id) ==> id.ns != namespace@),
    {
        proof {
            lemma_contents_dom(self.rows@);
        }
        let mut i: usize = 0;
        while i < self.rows.len()
            invariant
                0 <= i <= self.rows@.len(),
                forall|j: int| 0 <= j < i ==> row_id(#[trigger] self.rows@[j]).ns != namespace@,
            decreases self.rows@.len() - i,
        {
            if self.rows[i].namespace == *namespace {
                proof {
                    lemma_contents_dom(self.rows@);
                    assert(self@.dom().contains(row_id(self.rows@[i as int])));
                }
                return false;
            }
            i += 1;
        }
        proof {
            lemma_contents_dom(self.rows@);
            assert forall|id: EntryId| #[trigger] self@.dom().contains(id) implies id.ns
                != namespace@ by {
                let j = choose|j: int|
                    0 <= j < self.rows@.len() && row_id(#[trigger] self.rows@[j]) == id;
                assert(row_id(self.rows@[j]).ns != namespace@);
            }
        }
        true
    }

    /// True iff some entry of the namespace lies at or under the scope.
    pub fn has_scope(&self, namespace: &Namespace, scope: &Scope) -> (r: bool)
        requires
            self.wf(),
        ensures
            r == (exists|id: EntryId|
                #[trigger] self@.dom().contains(id) && id.ns == namespace@ && scope_starts_with(
                    id.scope,
                    scope@,
                )),
    {
        let mut i: usize = 0;
        while i < self.rows.len()
            invariant
                0 <= i <= self.rows@.len(),
                forall|j: int|
                    0 <= j < i ==> !(row_id(#[trigger] self.rows@[j]).ns == namespace@
                        && scope_starts_with(row_id(self.rows@[j]).scope, scope@)),
            decreases self.rows@.len() - i,
        {
            if self.rows[i].namespace == *namespace && self.rows[i].key.scope().starts_with(scope) {
                proof {
                    lemma_contents_dom(self.rows@);
                    assert(self@.dom().contains(row_id(self.rows@[i as int])));
                }
                return true;
            }
            i += 1;
        }
        proof {
            lemma_contents_dom(self.rows@);
            assert forall|id: EntryId| #[trigger] self@.dom().contains(id) implies !(id.ns
                == namespace@ && scope_starts_with(id.scope, scope@)) by {
                let j = choose|j: int|
                    0 <= j < self.rows@.len() && row_id(#[trigger] self.rows@[j]) == id;
            }
        }
        false
    }

    /// Every key of the namespace whose scope starts with `scope`. The order
    /// is unspecified; no key appears twice.
    pub fn list_keys(&self, namespace: &Namespace, scope: &Scope) -> (r: Vec<Key>)
        requires
            self.wf(),
        ensures
            forall|j: int|
                0 <= j < r@.len() ==> #[trigger] self@.dom().contains(
                    id_of(namespace@, r@[j]@),
                ) && scope_starts_with(r@[j]@.scope, scope@),
            forall|id: EntryId|
                #[trigger] self@.dom().contains(id) && id.ns == namespace@ && scope_starts_with(
                    id.scope,
                    scope@,
                ) ==> exists|j: int| 0 <= j < r@.len() && r@[j]@ == key_of(id),
            forall|j: int, k: int| 0 <= j < k < r@.len() ==> r@[j]@ != r@[k]@,
    {
        proof {
            lemma_contents_dom(self.rows@);
        }
        let mut r: Vec<Key> = Vec::new();
        let mut i: usize = 0;
        while i < self.rows.len()
            invariant
                0 <= i <= self.rows@.len(),
                unique_rows(self.rows@),
                self@ == contents_of(self.rows@),
                forall|j: int|
                    0 <= j < r@.len() ==> #[trigger] self@.dom().contains(
                        id_of(namespace@, r@[j]@),
                    ) && scope_starts_with(r@[j]@.scope, scope@),
                forall|j: int|
                    0 <= j < i && row_id(#[trigger] self.rows@[j]).ns == namespace@
                        && scope_starts_with(row_id(self.rows@[j]).scope, scope@) ==> exists|k: int|
                        0 <= k < r@.len() && r@[k]@ == key_of(row_id(self.rows@[j])),
                forall|j: int, k: int|
                    #![trigger r@[j], self.rows@[k]]
                    0 <= j < r@.len() && 0 <= k < self.rows@.len() && r@[j]@ == key_of(
                        row_id(self.rows@[k]),
                    ) && row_id(self.rows@[k]).ns == namespace@ ==> k < i,
                forall|j: int, k: int| 0 <= j < k < r@.len() ==> r@[j]@ != r@[k]@,
            decreases self.rows@.len() - i,
        {
            if self.rows[i].namespace == *namespace && self.rows[i].key.scope().starts_with(scope) {
                let ghost id = row_id(self.rows@[i as int]);
                proof {
                    lemma_contents_dom(self.rows@);
                    assert(self@.dom().contains(id));
                    assert(key_of(id) =~= self.rows@[i as int].key@);
                    assert(id_of(namespace@, key_of(id)) =~= id);
                }
                let ghost prev = r@;
                r.push(self.rows[i].key.clone());
                proof {
                    assert(r@[r@.len() - 1]@ == key_of(id));
                    assert forall|j: int|
                        0 <= j <= i && row_id(#[trigger] self.rows@[j]).ns == namespace@
                            && scope_starts_with(
                            row_id(self.rows@[j]).scope,
                            scope@,
                        ) implies exists|k: int|
                        0 <= k < r@.len() && r@[k]@ == key_of(row_id(self.rows@[j])) by {
                        if j == i {
                            assert(r@[r@.len() - 1]@ == key_of(row_id(self.rows@[j])));
                        } else {
                            let k = choose|k: int|
                                0 <= k < prev.len() && prev[k]@ == key_of(
                                    row_id(self.rows@[j]),
                                );
                            assert(r@[k]@ == key_of(row_id(self.rows@[j])));
                        }
                    }
                    assert forall|j: int, k: int|
                        #![trigger r@[j], self.rows@[k]]
                        0 <= j < r@.len() && 0 <= k < self.rows@.len() && r@[j]@ == key_of(
                            row_id(self.rows@[k]),
                        ) && row_id(self.rows@[k]).ns == namespace@ implies k <= i by {
                        if j < r@.len() - 1 {
                        } else {
                            if k != i {
                                assert(key_of(row_id(self.rows@[k])) == key_of(id));
                                assert(row_id(self.rows@[k]) =~= id);
                            }
                        }
                    }
                }
            }
            i += 1;
        }
        proof {
            lemma_contents_dom(self.rows@);
            assert forall|id: EntryId|
                #[trigger] self@.dom().contains(id) && id.ns == namespace@ && scope_starts_with(
                    id.scope,
                    scope@,
                ) implies exists|j: int| 0 <= j < r@.len() && r@[j]@ == key_of(id) by {
                let j = choose|j: int|
                    0 <= j < self.rows@.len() && row_id(#[trigger] self.rows@[j]) == id;
                assert(row_id(self.rows@[j]).ns == namespace@);
            }
        }
        r
    }

    /// Every non-empty prefix of the scope of an entry of the namespace, in
    /// ascending order, without duplicates.
    pub fn list_scopes(&self, namespace: &Namespace) -> (r: Vec<Scope>)
        requires
            self.wf(),
        ensures
            sorted_scopes(r@),
            scope_set(r@) == stored_prefixes(self@, namespace@),
    {
        proof {
            lemma_contents_dom(self.rows@);
        }
        let mut out: Vec<Scope> = Vec::new();
        let mut i: usize = 0;
        proof {
            assert(scope_set(out@) =~= row_prefixes(self.rows@, namespace@, 0));
        }
        while i < self.rows.len()
            invariant
                0 <= i <= self.rows@.len(),
                sorted_scopes(out@),
                scope_set(out@) == row_prefixes(self.rows@, namespace@, i as int),
            decreases self.rows@.len() - i,
        {
            let ghost entry_count = row_prefixes(self.rows@, namespace@, i as int);
            if self.rows[i].namespace == *namespace {
                let ghost si = row_id(self.rows@[i as int]).scope;
                let subs = self.rows[i].key.scope().sub_scopes();
                let mut k: usize = 0;
                proof {
                    assert(scope_set(out@) =~= entry_count.union(prefix_stage(si, 0)));
                }
                while k < subs.len()
                    invariant
                        0 <= k <= subs@.len(),
                        subs@.len() == si.len(),
                        forall|k2: int|
                            0 <= k2 < subs@.len() ==> (#[trigger] subs@[k2])@ == si.take(k2 + 1),
                        sorted_scopes(out@),
                        scope_set(out@) == entry_count.union(prefix_stage(si, k as int)),
                    decreases subs@.len() - k,
                {
                    let ghost prevset = scope_set(out@);
                    insert_sorted(&mut out, subs[k].clone());
                    proof {
                        assert(subs@[k as int]@ == si.take(k + 1));
                        assert(scope_set(out@) == prevset.insert(si.take(k + 1)));
                        assert forall|x: Seq<Seq<char>>|
                            #[trigger] prevset.insert(si.take(k + 1)).contains(x) implies
                        entry_count.union(prefix_stage(si, k + 1)).contains(x) by {
                            if x == si.take(k + 1) {
                                assert(is_nonempty_prefix(x, si));
                                assert(prefix_stage(si, k + 1).contains(x));
                            }
                        }
                        assert forall|x: Seq<Seq<char>>|
                            #[trigger] entry_count.union(prefix_stage(si, k + 1)).contains(
                            x,
                        ) implies prevset.insert(si.take(k + 1)).contains(x) by {
                            if prefix_stage(si, k + 1).contains(x) && x.len() == k + 1 {
                                assert(x == si.take(k + 1));
                            }
                        }
                        assert(scope_set(out@) =~= entry_count.union(prefix_stage(si, k + 1)));
                    }
                    k += 1;
                }
                proof {
                    assert forall|x: Seq<Seq<char>>|
                        #[trigger] entry_count.union(prefix_stage(si, si.len() as int)).contains(
                        x,
                    ) implies row_prefixes(self.rows@, namespace@, i + 1).contains(x) by {
                        if entry_count.contains(x) {
                            let j = choose|j: int|
                                0 <= j < i && row_id(#[trigger] self.rows@[j]).ns == namespace@
                                    && is_nonempty_prefix(x, row_id(self.rows@[j]).scope);
                        } else {
                            assert(is_nonempty_prefix(x, row_id(self.rows@[i as int]).scope));
                        }
                    }
                    assert forall|x: Seq<Seq<char>>|
                        #[trigger] row_prefixes(self.rows@, namespace@, i + 1).contains(
                        x,
                    ) implies entry_count.union(prefix_stage(si, si.len() as int)).contains(x) by {
                        let j = choose|j: int|
                            0 <= j <= i && row_id(#[trigger] self.rows@[j]).ns == namespace@
                                && is_nonempty_prefix(x, row_id(self.rows@[j]).scope);
                        if j < i {
                            assert(entry_count.contains(x));
                        } else {
                            assert(prefix_stage(si, si.len() as int).contains(x));
                        }
                    }
                    assert(scope_set(out@) =~= row_prefixes(self.rows@, namespace@, i + 1));
                }
            } else {
                proof {
                    assert forall|x: Seq<Seq<char>>|
                        #[trigger] row_prefixes(self.rows@, namespace@, i + 1).contains(
                        x,
                    ) implies entry_count.contains(x) by {
                        let j = choose|j: int|
                            0 <= j <= i && row_id(#[trigger] self.rows@[j]).ns == namespace@
                                && is_nonempty_prefix(x, row_id(self.rows@[j]).scope);
                        assert(j < i);
                    }
                    assert(scope_set(out@) =~= row_prefixes(self.rows@, namespace@, i + 1));
                }
            }
            i += 1;
        }
        proof {
            lemma_contents_dom(self.rows@);
            assert forall|x: Seq<Seq<char>>|
                #[trigger] row_prefixes(self.rows@, namespace@, self.rows@.len() as int).contains(
                x,
            ) implies stored_prefixes(self@, namespace@).contains(x) by {
                let j = choose|j: int|
                    0 <= j < self.rows@.len() && row_id(#[trigger] self.rows@[j]).ns == namespace@
                        && is_nonempty_prefix(x, row_id(self.rows@[j]).scope);
                assert(self@.dom().contains(row_id(self.rows@[j])));
            }
            assert forall|x: Seq<Seq<char>>| #[trigger] stored_prefixes(self@, namespace@).contains(
                x,
            ) implies row_prefixes(self.rows@, namespace@, self.rows@.len() as int).contains(x) by {
                let id = choose|id: EntryId|
                    #[trigger] self@.dom().contains(id) && id.ns == namespace@ && is_nonempty_prefix(
                        x,
                        id.scope,
                    );
                let j = choose|j: int|
                    0 <= j < self.rows@.len() && row_id(#[trigger] self.rows@[j]) == id;
            }
            assert(scope_set(out@) =~= stored_prefixes(self@, namespace@));
        }
        out
    }

    fn extract(&mut self, namespace: &Namespace, scope: &Scope, mode: FilterMode) -> (moved: Vec<
        Row,
    >)
        requires
            old(self).wf(),
        ensures
            final(self).wf(),
            final(self)@ == old(self)@.remove_keys(filter_ids(mode, namespace@, scope@)),
            forall|j: int|
                0 <= j < moved@.len() ==> old(self)@.dom().contains(
                    row_id(#[trigger] moved@[j]),
                ) && id_matches(mode, namespace@, scope@, row_id(moved@[j])) && moved@[j].value
                    == old(self)@[row_id(moved@[j])],
            forall|id: EntryId|
                #[trigger] old(self)@.dom().contains(id) && id_matches(mode, namespace@, scope@, id)
                    ==> exists|j: int| 0 <= j < moved@.len() && row_id(#[trigger] moved@[j]) == id,
            forall|j: int, k: int|
                0 <= j < k < moved@.len() ==> row_id(moved@[j]) != row_id(moved@[k]),
    {
        let ghost before = self@;
        let mut moved: Vec<Row> = Vec::new();
        let mut i: usize = 0;
        while i < self.rows.len()
            invariant
                old(self).wf(),
                self.wf(),
                0 <= i <= self.rows@.len(),
                forall|j: int|
                    0 <= j < i ==> !id_matches(
                        mode,
                        namespace@,
                        scope@,
                        row_id(#[trigger] self.rows@[j]),
                    ),
                forall|j: int|
                    0 <= j < moved@.len() ==> before.dom().contains(row_id(#[trigger] moved@[j]))
                        && id_matches(mode, namespace@, scope@, row_id(moved@[j])) && moved@[j].value
                        == before[row_id(moved@[j])],
                forall|j: int, k: int|
                    0 <= j < k < moved@.len() ==> row_id(moved@[j]) != row_id(moved@[k]),
                forall|id: EntryId|
                    #[trigger] self@.dom().contains(id) ==> before.dom().contains(id) && self@[id]
                        == before[id],
                forall|id: EntryId|
                    #[trigger] before.dom().contains(id) ==> self@.dom().contains(id) || (exists|
                        j: int,
                    | 0 <= j < moved@.len() && row_id(#[trigger] moved@[j]) == id),
                forall|id: EntryId|
                    #[trigger] self@.dom().contains(id) ==> !(exists|j: int|
                        0 <= j < moved@.len() && row_id(#[trigger] moved@[j]) == id),
            decreases self.rows@.len() - i,
        {
            let is_match = match mode {
                FilterMode::InScope => self.rows[i].namespace == *namespace && self.rows[
                    i
                ].key.scope().starts_with(scope),
                FilterMode::ExactScope => self.rows[i].namespace == *namespace && self.rows[
                    i
                ].key.scope().eq(scope),
                FilterMode::WholeNamespace => self.rows[i].namespace == *namespace,
            };
            if is_match {
                proof {
                    lemma_contents_get(self.rows@, i as int);
                    lemma_contents_remove(self.rows@, i as int);
                    lemma_contents_dom(self.rows@);
                }
                let ghost oldrows = self.rows@;
                let ghost oldself = self@;
                let ghost id = row_id(self.rows@[i as int]);
                let ghost prev_moved = moved@;
                let row = self.rows.remove(i);
                moved.push(row);
                proof {
                    assert(row == oldrows[i as int]);
                    assert(row_id(row) == id);
                    assert(moved@ == prev_moved.push(row));
                    assert(self@ == oldself.remove(id));
                    assert(id_matches(mode, namespace@, scope@, id));
                    assert(oldself.dom().contains(id));
                    assert(before.dom().contains(id) && before[id] == row.value);
                    assert(row_id(moved@[moved@.len() - 1]) == id);
                    assert forall|id2: EntryId| #[trigger] before.dom().contains(
                        id2,
                    ) implies self@.dom().contains(id2) || (exists|j: int|
                        0 <= j < moved@.len() && row_id(#[trigger] moved@[j]) == id2) by {
                        if id2 == id {
                            assert(row_id(moved@[moved@.len() - 1]) == id2);
                        } else if !self@.dom().contains(id2) {
                            let j = choose|j: int|
                                0 <= j < prev_moved.len() && row_id(#[trigger] prev_moved[j])
                                    == id2;
                            assert(row_id(moved@[j]) == id2);
                        }
                    }
                }
            } else {
                i += 1;
            }
        }
        proof {
            lemma_contents_dom(self.rows@);
            assert forall|id: EntryId| #[trigger] self@.dom().contains(id) implies !id_matches(
                mode,
                namespace@,
                scope@,
                id,
            ) by {
                let j = choose|j: int|
                    0 <= j < self.rows@.len() && row_id(#[trigger] self.rows@[j]) == id;
            }
            assert(self@ =~= before.remove_keys(filter_ids(mode, namespace@, scope@)));
        }
        moved
    }

    /// Removes every entry of the namespace whose scope starts with `scope`.
    pub fn delete_scope(&mut self, namespace: &Namespace, scope: &Scope) -> (r: Result<(), Error>)
        requires
            old(self).wf(),
        ensures
            final(self).wf(),
            final(self)@ == old(self)@.remove_keys(scoped_ids(namespace@, scope@)),
            r == Ok::<(), Error>(()),
    {
        let _ = self.extract(namespace, scope, FilterMode::InScope);
        proof {
            assert(filter_ids(FilterMode::InScope, namespace@, scope@) =~= scoped_ids(
                namespace@,
                scope@,
            ));
        }
        Ok(())
    }

    /// Removes every entry of the namespace.
    pub fn clear(&mut self, namespace: &Namespace) -> (r: Result<(), Error>)
        requires
            old(self).wf(),
        ensures
            final(self).wf(),
            final(self)@ == old(self)@.remove_keys(namespace_ids(namespace@)),
            r == Ok::<(), Error>(()),
    {
        let scope = Scope::global();
        let _ = self.extract(namespace, &scope, FilterMode::WholeNamespace);
        proof {
            assert(filter_ids(FilterMode::WholeNamespace, namespace@, scope@) =~= namespace_ids(
                namespace@,
            ));
        }
        Ok(())
    }

    /// Reassigns every entry whose scope is exactly `from` to the scope `to`,
    /// replacing anything already stored there. Entries in strict sub-scopes
    /// of `from` stay where they are.
    pub fn move_scope(&mut self, namespace: &Namespace, from: &Scope, to: &Scope) -> (r: Result<
        (),
        Error,
    >)
        requires
            old(self).wf(),
        ensures
            final(self).wf(),
            r == Ok::<(), Error>(()),
            forall|id: EntryId|
                #[trigger] final(self)@.dom().contains(id) <==> move_scope_dom(
                    old(self)@,
                    namespace@,
                    from@,
                    to@,
                    id,
                ),
            forall|id: EntryId|
                #[trigger] final(self)@.dom().contains(id) ==> final(self)@[id] == move_scope_val(
                    old(self)@,
                    namespace@,
                    from@,
                    to@,
                    id,
                ),
    {
        let ghost before = self@;
        let mut moved = self.extract(namespace, from, FilterMode::ExactScope);
        let ghost orig = moved@;
        let ghost base = self@;
        proof {
            assert(forall|j: int|
                0 <= j < orig.len() ==> row_id(#[trigger] orig[j]).scope == from@ && row_id(
                    orig[j],
                ).ns == namespace@);
        }
        while moved.len() > 0
            invariant
                self.wf(),
                moved@.len() <= orig.len(),
                moved@ == orig.take(moved@.len() as int),
                base == before.remove_keys(filter_ids(FilterMode::ExactScope, namespace@, from@)),
                forall|j: int|
                    0 <= j < orig.len() ==> before.dom().contains(row_id(#[trigger] orig[j]))
                        && row_id(orig[j]).scope == from@ && row_id(orig[j]).ns == namespace@
                        && orig[j].value == before[row_id(orig[j])],
                forall|j: int, k: int| 0 <= j < k < orig.len() ==> row_id(orig[j]) != row_id(
                    orig[k],
                ),
                forall|id: EntryId|
                    #[trigger] before.dom().contains(id) && id.ns == namespace@ && id.scope == from@
                        ==> exists|j: int| 0 <= j < orig.len() && row_id(#[trigger] orig[j]) == id,
                forall|id: EntryId|
                    #[trigger] self@.dom().contains(id) <==> base.dom().contains(id) || (exists|
                        j: int,
                    | moved@.len() <= j < orig.len() && rescoped(row_id(#[trigger] orig[j]), to@)
                        == id),
                forall|j: int|
                    moved@.len() <= j < orig.len() ==> self@.dom().contains(
                        rescoped(row_id(#[trigger] orig[j]), to@),
                    ) && self@[rescoped(row_id(orig[j]), to@)] == orig[j].value,
                forall|id: EntryId|
                    #[trigger] self@.dom().contains(id) && !(exists|j: int|
                        moved@.len() <= j < orig.len() && rescoped(row_id(#[trigger] orig[j]), to@)
                            == id) ==> base.dom().contains(id) && self@[id] == base[id],
            decreases moved@.len(),
        {
            let ghost prev = self@;
            let ghost mlen = moved@.len() as int;
            let row = match moved.pop() {
                Some(row) => row,
                None => {
                    proof {
                        assert(false);
                    }
                    return Ok(());
                },
            };
            proof {
                assert(orig.take(mlen).drop_last() =~= orig.take(mlen - 1));
                assert(row == orig[mlen - 1]);
            }
            let ghost tid = rescoped(row_id(row), to@);
            let key = Key::new_scoped(to.clone(), row.key.name().clone());
            proof {
                assert(id_of(namespace@, key@) =~= tid);
            }
            self.insert(namespace, &key, row.value);
            proof {
                assert forall|id: EntryId| #[trigger] self@.dom().contains(id) <==> base
                    .dom().contains(id) || (exists|j: int|
                    moved@.len() <= j < orig.len() && rescoped(row_id(#[trigger] orig[j]), to@)
                        == id) by {
                    if id == tid {
                        assert(rescoped(row_id(orig[mlen - 1]), to@) == id);
                    } else {
                        if self@.dom().contains(id) {
                            assert(prev.dom().contains(id));
                        }
                        if exists|j: int|
                            moved@.len() <= j < orig.len() && rescoped(
                                row_id(#[trigger] orig[j]),
                                to@,
                            ) == id {
                            let j = choose|j: int|
                                moved@.len() <= j < orig.len() && rescoped(
                                    row_id(#[trigger] orig[j]),
                                    to@,
                                ) == id;
                            if j >= mlen {
                                assert(prev.dom().contains(id));
                            }
                        }
                    }
                }
                assert forall|j: int|
                    moved@.len() <= j < orig.len() implies self@.dom().contains(
                        rescoped(row_id(#[trigger] orig[j]), to@),
                    ) && self@[rescoped(row_id(orig[j]), to@)] == orig[j].value by {
                    if j > mlen - 1 {
                        assert(rescoped(row_id(orig[j]), to@) != tid) by {
                            assert(row_id(orig[j]) != row_id(orig[mlen - 1]));
                            assert(row_id(orig[j]).name != row_id(orig[mlen - 1]).name
                                || row_id(orig[j]).scope != row_id(orig[mlen - 1]).scope || row_id(
                                orig[j],
                            ).ns != row_id(orig[mlen - 1]).ns);
                        }
                    }
                }
            }
        }
        proof {
            assert(moved@ =~= Seq::<Row>::empty());
            assert forall|id: EntryId| #[trigger] self@.dom().contains(id) <==> move_scope_dom(
                before,
                namespace@,
                from@,
                to@,
                id,
            ) by {
                lemma_move_scope_case(before, namespace@, from@, to@, orig, self@, base, id);
            }
            assert forall|id: EntryId| #[trigger] self@.dom().contains(id) implies self@[id]
                == move_scope_val(before, namespace@, from@, to@, id) by {
                lemma_move_scope_case(before, namespace@, from@, to@, orig, self@, base, id);
            }
        }
        Ok(())
    }

    /// A copy of the store holding the same entries, so that a state can be
    /// kept aside and restored.
    pub fn snapshot(&self) -> (r: MemoryStore)
        ensures
            r@ == self@,
            self.wf() ==> r.wf(),
    {
        let mut rows: Vec<Row> = Vec::new();
        let mut i: usize = 0;
        while i < self.rows.len()
            invariant
                0 <= i <= self.rows@.len(),
                rows@.len() == i,
                forall|j: int|
                    0 <= j < i ==> row_id(#[trigger] rows@[j]) == row_id(self.rows@[j])
                        && rows@[j].value == self.rows@[j].value,
            decreases self.rows@.len() - i,
        {
            let row = &self.rows[i];
            rows.push(
                Row {
                    namespace: row.namespace.clone(),
                    key: row.key.clone(),
                    value: clone_value(&row.value),
                },
            );
            i += 1;
        }
        let r = MemoryStore { rows };
        proof {
            lemma_contents_congruent(r.rows@, self.rows@);
            if self.wf() {
                assert forall|a: int, b: int| 0 <= a < b < r.rows@.len() implies row_id(
                    r.rows@[a],
                ) != row_id(r.rows@[b]) by {
                    assert(row_id(r.rows@[a]) == row_id(self.rows@[a]));
                    assert(row_id(r.rows@[b]) == row_id(self.rows@[b]));
                }
            }
        }
        r
    }

    /// Reassigns every entry of namespace `from` to namespace `to`. Fails
    /// when `to` already holds entries or when `from` holds none.
    pub fn migrate_namespace(&mut self, from: &Namespace, to: &Namespace) -> (r: Result<(), Error>)
        requires
            old(self).wf(),
        ensures
            final(self).wf(),
            r is Ok <==> (!(exists|id: EntryId|
                #[trigger] old(self)@.dom().contains(id) && id.ns == to@) && (exists|id: EntryId|
                #[trigger] old(self)@.dom().contains(id) && id.ns == from@)),
            r matches Err(e) ==> (e matches Error::NamespaceMigration(_)) && final(self)@ == old(
                self,
            )@,
            r is Ok ==> (forall|id: EntryId|
                #[trigger] final(self)@.dom().contains(id) <==> ((id.ns == to@ && old(
                    self,
                )@.dom().contains(renamespaced(id, from@))) || (id.ns != to@ && id.ns != from@
                    && old(self)@.dom().contains(id)))),
            r is Ok ==> (forall|id: EntryId|
                #[trigger] final(self)@.dom().contains(id) ==> final(self)@[id] == (if id.ns == to@ {
                    old(self)@[renamespaced(id, from@)]
                } else {
                    old(self)@[id]
                })),
    {
        if !self.namespace_is_empty(to) {
            return Err(
                Error::NamespaceMigration(String::from_str("target namespace is not empty")),
            );
        }
        if self.namespace_is_empty(from) {
            return Err(
                Error::NamespaceMigration(String::from_str("source namespace does not exist")),
            );
        }
        let ghost before = self@;
        let scope = Scope::global();
        let mut moved = self.extract(from, &scope, FilterMode::WholeNamespace);
        let ghost orig = moved@;
        let ghost base = self@;
        while moved.len() > 0
            invariant
                self.wf(),
                moved@.len() <= orig.len(),
                moved@ == orig.take(moved@.len() as int),
                base == before.remove_keys(filter_ids(FilterMode::WholeNamespace, from@, scope@)),
                forall|id: EntryId|
                    #[trigger] before.dom().contains(id) ==> id.ns != to@,
                forall|j: int|
                    0 <= j < orig.len() ==> before.dom().contains(row_id(#[trigger] orig[j]))
                        && row_id(orig[j]).ns == from@ && orig[j].value == before[row_id(orig[j])],
                forall|j: int, k: int| 0 <= j < k < orig.len() ==> row_id(orig[j]) != row_id(
                    orig[k],
                ),
                forall|id: EntryId|
                    #[trigger] before.dom().contains(id) && id.ns == from@ ==> exists|j: int|
                        0 <= j < orig.len() && row_id(#[trigger] orig[j]) == id,
                forall|id: EntryId|
                    #[trigger] self@.dom().contains(id) <==> base.dom().contains(id) || (exists|
                        j: int,
                    | moved@.len() <= j < orig.len() && renamespaced(row_id(#[trigger] orig[j]), to@)
                        == id),
                forall|j: int|
                    moved@.len() <= j < orig.len() ==> self@.dom().contains(
                        renamespaced(row_id(#[trigger] orig[j]), to@),
                    ) && self@[renamespaced(row_id(orig[j]), to@)] == orig[j].value,
                forall|id: EntryId|
                    #[trigger] self@.dom().contains(id) && !(exists|j: int|
                        moved@.len() <= j < orig.len() && renamespaced(
                            row_id(#[trigger] orig[j]),
                            to@,
                        ) == id) ==> base.dom().contains(id) && self@[id] == base[id],
            decreases moved@.len(),
        {
            let ghost prev = self@;
            let ghost mlen = moved@.len() as int;
            let row = match moved.pop() {
                Some(row) => row,
                None => {
                    proof {
                        assert(false);
                    }
                    return Ok(());
                },
            };
            proof {
                assert(orig.take(mlen).drop_last() =~= orig.take(mlen - 1));
                assert(row == orig[mlen - 1]);
            }
            let ghost tid = renamespaced(row_id(row), to@);
            proof {
                assert(id_of(to@, row.key@) =~= tid);
            }
            self.insert(to, &row.key, row.value);
            proof {
                assert forall|id: EntryId| #[trigger] self@.dom().contains(id) <==> base
                    .dom().contains(id) || (exists|j: int|
                    moved@.len() <= j < orig.len() && renamespaced(row_id(#[trigger] orig[j]), to@)
                        == id) by {
                    if id == tid {
                        assert(renamespaced(row_id(orig[mlen - 1]), to@) == id);
                    } else {
                        if self@.dom().contains(id) {
                            assert(prev.dom().contains(id));
                        }
                        if exists|j: int|
                            moved@.len() <= j < orig.len() && renamespaced(
                                row_id(#[trigger] orig[j]),
                                to@,
                            ) == id {
                            let j = choose|j: int|
                                moved@.len() <= j < orig.len() && renamespaced(
                                    row_id(#[trigger] orig[j]),
                                    to@,
                                ) == id;
                            if j >= mlen {
                                assert(prev.dom().contains(id));
                            }
                        }
                    }
                }
                assert forall|j: int|
                    moved@.len() <= j < orig.len() implies self@.dom().contains(
                        renamespaced(row_id(#[trigger] orig[j]), to@),
                    ) && self@[renamespaced(row_id(orig[j]), to@)] == orig[j].value by {
                    if j > mlen - 1 {
                        assert(renamespaced(row_id(orig[j]), to@) != tid) by {
                            assert(row_id(orig[j]) != row_id(orig[mlen - 1]));
                            assert(row_id(orig[j]).ns == from@ && row_id(orig[mlen - 1]).ns
                                == from@);
                        }
                    }
                }
            }
        }
        proof {
            assert(moved@ =~= Seq::<Row>::empty());
            assert forall|id: EntryId| #[trigger] self@.dom().contains(id) <==> ((id.ns == to@
                && before.dom().contains(renamespaced(id, from@))) || (id.ns != to@ && id.ns
                != from@ && before.dom().contains(id))) by {
                lemma_migrate_case(before, from@, to@, orig, self@, base, id);
            }
            assert forall|id: EntryId| #[trigger] self@.dom().contains(id) implies self@[id] == (
            if id.ns == to@ {
                before[renamespaced(id, from@)]
            } else {
                before[id]
            }) by {
                lemma_migrate_case(before, from@, to@, orig, self@, base, id);
            }
        }
        Ok(())
    }
}

/// `x` is a non-empty prefix of `s`.
pub open spec fn is_nonempty_prefix(x: Seq<Seq<char>>, s: Seq<Seq<char>>) -> bool {
    1 <= x.len() <= s.len() && x == s.take(x.len() as int)
}

/// Every non-empty prefix of the scope of an entry of namespace `ns`.
pub open spec fn stored_prefixes(m: Map<EntryId, Value>, ns: Seq<char>) -> Set<Seq<Seq<char>>> {
    Set::new(
        |x: Seq<Seq<char>>|
            exists|id: EntryId|
                #[trigger] m.dom().contains(id) && id.ns == ns && is_nonempty_prefix(x, id.scope),
    )
}

spec fn row_prefixes(rows: Seq<Row>, ns: Seq<char>, n: int) -> Set<Seq<Seq<char>>> {
    Set::new(
        |x: Seq<Seq<char>>|
            exists|j: int|
                0 <= j < n && row_id(#[trigger] rows[j]).ns == ns && is_nonempty_prefix(
                    x,
                    row_id(rows[j]).scope,
                ),
    )
}

spec fn prefix_stage(s: Seq<Seq<char>>, k: int) -> Set<Seq<Seq<char>>> {
    Set::new(|x: Seq<Seq<char>>| is_nonempty_prefix(x, s) && x.len() <= k)
}

/// The same entry under another namespace.
pub open spec fn renamespaced(id: EntryId, ns: Seq<char>) -> EntryId {
    EntryId { ns: ns, scope: id.scope, name: id.name }
}

#[verifier::spinoff_prover]
proof fn lemma_migrate_case(
    before: Map<EntryId, Value>,
    from: Seq<char>,
    to: Seq<char>,
    orig: Seq<Row>,
    cur: Map<EntryId, Value>,
    base: Map<EntryId, Value>,
    id: EntryId,
)
    requires
        base == before.remove_keys(filter_ids(FilterMode::WholeNamespace, from, Seq::empty())),
        forall|id2: EntryId| #[trigger] before.dom().contains(id2) ==> id2.ns != to,
        forall|j: int|
            0 <= j < orig.len() ==> before.dom().contains(row_id(#[trigger] orig[j])) && row_id(
                orig[j],
            ).ns == from && orig[j].value == before[row_id(orig[j])],
        forall|id2: EntryId|
            #[trigger] before.dom().contains(id2) && id2.ns == from ==> exists|j: int|
                0 <= j < orig.len() && row_id(#[trigger] orig[j]) == id2,
        forall|id2: EntryId|
            #[trigger] cur.dom().contains(id2) <==> base.dom().contains(id2) || (exists|j: int|
                0 <= j < orig.len() && renamespaced(row_id(#[trigger] orig[j]), to) == id2),
        forall|j: int|
            0 <= j < orig.len() ==> cur.dom().contains(renamespaced(row_id(#[trigger] orig[j]), to))
                && cur[renamespaced(row_id(orig[j]), to)] == orig[j].value,
        forall|id2: EntryId|
            #[trigger] cur.dom().contains(id2) && !(exists|j: int|
                0 <= j < orig.len() && renamespaced(row_id(#[trigger] orig[j]), to) == id2) ==> base
                .dom().contains(id2) && cur[id2] == base[id2],
    ensures
        cur.dom().contains(id) <==> ((id.ns == to && before.dom().contains(renamespaced(id, from)))
            || (id.ns != to && id.ns != from && before.dom().contains(id))),
        cur.dom().contains(id) ==> cur[id] == (if id.ns == to {
            before[renamespaced(id, from)]
        } else {
            before[id]
        }),
{
    if id.ns == to {
        let src = renamespaced(id, from);
        assert(!base.dom().contains(id));
        if before.dom().contains(src) {
            let j = choose|j: int| 0 <= j < orig.len() && row_id(#[trigger] orig[j]) == src;
            assert(renamespaced(row_id(orig[j]), to) =~= id);
            assert(cur.dom().contains(id));
            assert(cur[id] == orig[j].value);
        } else {
            if exists|j: int| 0 <= j < orig.len() && renamespaced(row_id(#[trigger] orig[j]), to)
                == id {
                let j = choose|j: int|
                    0 <= j < orig.len() && renamespaced(row_id(#[trigger] orig[j]), to) == id;
                assert(row_id(orig[j]) =~= src);
            }
            assert(!cur.dom().contains(id));
        }
    } else {
        if exists|j: int| 0 <= j < orig.len() && renamespaced(row_id(#[trigger] orig[j]), to)
            == id {
            let j = choose|j: int|
                0 <= j < orig.len() && renamespaced(row_id(#[trigger] orig[j]), to) == id;
            assert(renamespaced(row_id(orig[j]), to).ns == to);
        }
        if id.ns == from {
            assert(!base.dom().contains(id));
        }
    }
}

proof fn lemma_contents_congruent(a: Seq<Row>, b: Seq<Row>)
    requires
        a.len() == b.len(),
        forall|i: int|
            0 <= i < a.len() ==> row_id(#[trigger] a[i]) == row_id(b[i]) && a[i].value
                == b[i].value,
    ensures
        contents_of(a) == contents_of(b),
    decreases a.len(),
{
    if a.len() > 0 {
        assert forall|i: int|
            0 <= i < a.drop_last().len() implies row_id(#[trigger] a.drop_last()[i]) == row_id(
            b.drop_last()[i],
        ) && a.drop_last()[i].value == b.drop_last()[i].value by {
            assert(a.drop_last()[i] == a[i]);
            assert(b.drop_last()[i] == b[i]);
        }
        lemma_contents_congruent(a.drop_last(), b.drop_last());
        assert(row_id(a.last()) == row_id(b.last()));
        assert(a.last().value == b.last().value);
    }
}

/// How [`MemoryStore::extract`] selects the entries to take out.
enum FilterMode {
    InScope,
    ExactScope,
    WholeNamespace,
}

spec fn id_matches(mode: FilterMode, ns: Seq<char>, scope: Seq<Seq<char>>, id: EntryId) -> bool {
    match mode {
        FilterMode::InScope => id.ns == ns && scope_starts_with(id.scope, scope),
        FilterMode::ExactScope => id.ns == ns && id.scope == scope,
        FilterMode::WholeNamespace => id.ns == ns,
    }
}

spec fn filter_ids(mode: FilterMode, ns: Seq<char>, scope: Seq<Seq<char>>) -> Set<EntryId> {
    Set::new(|id: EntryId| id_matches(mode, ns, scope, id))
}

/// The entries of namespace `ns` whose scope starts with `scope`.
pub open spec fn scoped_ids(ns: Seq<char>, scope: Seq<Seq<char>>) -> Set<EntryId> {
    Set::new(|id: EntryId| id.ns == ns && scope_starts_with(id.scope, scope))
}

/// All the entries of namespace `ns`.
pub open spec fn namespace_ids(ns: Seq<char>) -> Set<EntryId> {
    Set::new(|id: EntryId| id.ns == ns)
}

/// The same entry under another scope.
pub open spec fn rescoped(id: EntryId, scope: Seq<Seq<char>>) -> EntryId {
    EntryId { ns: id.ns, scope: scope, name: id.name }
}

/// After a scope move, the entries at the target scope are those that were
/// already there or that stood exactly at the source scope; the source scope
/// is empty; everything else is untouched.
pub open spec fn move_scope_dom(
    m: Map<EntryId, Value>,
    ns: Seq<char>,
    from: Seq<Seq<char>>,
    to: Seq<Seq<char>>,
    id: EntryId,
) -> bool {
    if id.ns != ns {
        m.dom().contains(id)
    } else if id.scope == to {
        m.dom().contains(id) || m.dom().contains(rescoped(id, from))
    } else if id.scope == from {
        false
    } else {
        m.dom().contains(id)
    }
}

/// After a scope move, an entry at the target scope carries the value that
/// stood at the source scope under its name, if any; every other entry keeps
/// its value.
pub open spec fn move_scope_val(
    m: Map<EntryId, Value>,
    ns: Seq<char>,
    from: Seq<Seq<char>>,
    to: Seq<Seq<char>>,
    id: EntryId,
) -> Value {
    if id.ns == ns && id.scope == to && m.dom().contains(rescoped(id, from)) {
        m[rescoped(id, from)]
    } else {
        m[id]
    }
}

#[verifier::spinoff_prover]
proof fn lemma_move_scope_case(
    before: Map<EntryId, Value>,
    ns: Seq<char>,
    from: Seq<Seq<char>>,
    to: Seq<Seq<char>>,
    orig: Seq<Row>,
    cur: Map<EntryId, Value>,
    base: Map<EntryId, Value>,
    id: EntryId,
)
    requires
        base == before.remove_keys(filter_ids(FilterMode::ExactScope, ns, from)),
        forall|j: int|
            0 <= j < orig.len() ==> before.dom().contains(row_id(#[trigger] orig[j])) && row_id(
                orig[j],
            ).scope == from && row_id(orig[j]).ns == ns && orig[j].value == before[row_id(orig[j])],
        forall|id2: EntryId|
            #[trigger] before.dom().contains(id2) && id2.ns == ns && id2.scope == from ==> exists|
                j: int,
            | 0 <= j < orig.len() && row_id(#[trigger] orig[j]) == id2,
        forall|id2: EntryId|
            #[trigger] cur.dom().contains(id2) <==> base.dom().contains(id2) || (exists|j: int|
                0 <= j < orig.len() && rescoped(row_id(#[trigger] orig[j]), to) == id2),
        forall|j: int|
            0 <= j < orig.len() ==> cur.dom().contains(rescoped(row_id(#[trigger] orig[j]), to))
                && cur[rescoped(row_id(orig[j]), to)] == orig[j].value,
        forall|id2: EntryId|
            #[trigger] cur.dom().contains(id2) && !(exists|j: int|
                0 <= j < orig.len() && rescoped(row_id(#[trigger] orig[j]), to) == id2) ==> base
                .dom().contains(id2) && cur[id2] == base[id2],
    ensures
        cur.dom().contains(id) <==> move_scope_dom(before, ns, from, to, id),
        cur.dom().contains(id) ==> cur[id] == move_scope_val(before, ns, from, to, id),
{
    if id.ns != ns {
        if exists|j: int| 0 <= j < orig.len() && rescoped(row_id(#[trigger] orig[j]), to) == id {
            let j = choose|j: int|
                0 <= j < orig.len() && rescoped(row_id(#[trigger] orig[j]), to) == id;
            assert(rescoped(row_id(orig[j]), to).ns == ns);
        }
    } else if id.scope == to {
        let src = rescoped(id, from);
        if before.dom().contains(src) {
            assert(src.ns == ns && src.scope == from);
            let j = choose|j: int| 0 <= j < orig.len() && row_id(#[trigger] orig[j]) == src;
            assert(rescoped(row_id(orig[j]), to) =~= id);
            assert(cur.dom().contains(id));
            assert(cur[id] == orig[j].value);
        } else {
            if exists|j: int| 0 <= j < orig.len() && rescoped(row_id(#[trigger] orig[j]), to)
                == id {
                let j = choose|j: int|
                    0 <= j < orig.len() && rescoped(row_id(#[trigger] orig[j]), to) == id;
                assert(row_id(orig[j]) =~= src);
            }
            if cur.dom().contains(id) {
                assert(base.dom().contains(id) && cur[id] == base[id]);
            }
            if base.dom().contains(id) {
                assert(cur.dom().contains(id));
            }
        }
    } else if id.scope == from {
        assert(!base.dom().contains(id));
        if exists|j: int| 0 <= j < orig.len() && rescoped(row_id(#[trigger] orig[j]), to) == id {
            let j = choose|j: int|
                0 <= j < orig.len() && rescoped(row_id(#[trigger] orig[j]), to) == id;
            assert(rescoped(row_id(orig[j]), to).scope == to);
            assert(from == to);
            assert(row_id(orig[j]) =~= id);
            assert(cur[id] == orig[j].value);
            assert(move_scope_dom(before, ns, from, to, id));
        }
    } else {
        if exists|j: int| 0 <= j < orig.len() && rescoped(row_id(#[trigger] orig[j]), to) == id {
            let j = choose|j: int|
                0 <= j < orig.len() && rescoped(row_id(#[trigger] orig[j]), to) == id;
            assert(rescoped(row_id(orig[j]), to).scope == to);
        }
        if before.dom().contains(rescoped(id, from)) {
            assert(rescoped(id, from).scope == from && id.scope != from);
        }
    }
}

} // verus!
