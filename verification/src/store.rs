use vstd::prelude::*;
use crate::error::Error;
use crate::key::{Key, KeyView};
use crate::memory::{id_of, key_of, EntryId, MemoryStore};
use crate::namespace::Namespace;
use crate::scope::{scope_set, scope_starts_with, sorted_scopes, Scope};
use serde_json::Value;

verus! {

/// The keys of `m` whose scope starts with `scope`.
pub open spec fn keys_in_scope(scope: Seq<Seq<char>>) -> Set<KeyView> {
    Set::new(|k: KeyView| scope_starts_with(k.scope, scope))
}

/// The same key under another scope.
pub open spec fn key_rescoped(k: KeyView, scope: Seq<Seq<char>>) -> KeyView {
    KeyView { scope: scope, name: k.name }
}

/// After a scope move, the keys at the target scope are those that were
/// already there or that stood exactly at the source scope; the source scope
/// is empty; every other key is untouched.
pub open spec fn kv_move_scope_dom(
    m: Map<KeyView, Value>,
    from: Seq<Seq<char>>,
    to: Seq<Seq<char>>,
    k: KeyView,
) -> bool {
    if k.scope == to {
        m.dom().contains(k) || m.dom().contains(key_rescoped(k, from))
    } else if k.scope == from {
        false
    } else {
        m.dom().contains(k)
    }
}

/// After a scope move, a key at the target scope carries the value that stood
/// at the source scope under its name, if any; every other key keeps its
/// value.
pub open spec fn kv_move_scope_val(
    m: Map<KeyView, Value>,
    from: Seq<Seq<char>>,
    to: Seq<Seq<char>>,
    k: KeyView,
) -> Value {
    if k.scope == to && m.dom().contains(key_rescoped(k, from)) {
        m[key_rescoped(k, from)]
    } else {
        m[k]
    }
}

/// Every key in `keys` is stored in `m` and lies under `scope`.
pub open spec fn listed_keys_in_scope(
    m: Map<KeyView, Value>,
    scope: Seq<Seq<char>>,
    keys: Seq<Key>,
) -> bool {
    forall|j: int|
        0 <= j < keys.len() ==> #[trigger] m.dom().contains(keys[j]@) && scope_starts_with(
            keys[j]@.scope,
            scope,
        )
}

/// Every stored key of `m` under `scope` appears in `keys`.
pub open spec fn lists_all_keys(
    m: Map<KeyView, Value>,
    scope: Seq<Seq<char>>,
    keys: Seq<Key>,
) -> bool {
    forall|k: KeyView|
        #[trigger] m.dom().contains(k) && scope_starts_with(k.scope, scope) ==> exists|j: int|
            0 <= j < keys.len() && keys[j]@ == k
}

/// Every non-empty prefix of the scope of a stored key.
pub open spec fn kv_prefixes(m: Map<KeyView, Value>) -> Set<Seq<Seq<char>>> {
    Set::new(
        |x: Seq<Seq<char>>|
            exists|k: KeyView|
                #[trigger] m.dom().contains(k) && crate::memory::is_nonempty_prefix(x, k.scope),
    )
}

/// A key-value store bound to one namespace, backed by the verified
/// in-process substrate. Its mathematical value is a map from key views to
/// JSON values.
pub struct KeyValueStore {
    namespace: Namespace,
    store: MemoryStore,
}

impl View for KeyValueStore {
    type V = Map<KeyView, Value>;

    closed spec fn view(&self) -> Map<KeyView, Value> {
        Map::new(
            |k: KeyView| self.store@.dom().contains(id_of(self.namespace@, k)),
            |k: KeyView| self.store@[id_of(self.namespace@, k)],
        )
    }
}

proof fn lemma_kv_view(s: &KeyValueStore)
    ensures
        forall|k: KeyView|
            #[trigger] s@.dom().contains(k) <==> s.store@.dom().contains(id_of(s.namespace@, k)),
        forall|k: KeyView|
            s@.dom().contains(k) ==> #[trigger] s@[k] == s.store@[id_of(s.namespace@, k)],
        forall|id: EntryId|
            #[trigger] s.store@.dom().contains(id) && id.ns == s.namespace@ ==> id_of(
                s.namespace@,
                key_of(id),
            ) =~= id && s@.dom().contains(key_of(id)),
{
    assert forall|id: EntryId|
        #[trigger] s.store@.dom().contains(id) && id.ns == s.namespace@ implies id_of(
        s.namespace@,
        key_of(id),
    ) =~= id && s@.dom().contains(key_of(id)) by {
        assert(id_of(s.namespace@, key_of(id)) =~= id);
    }
}

impl KeyValueStore {
    /// Well-formedness: the substrate is well-formed and holds entries of
    /// this store's namespace only.
    pub closed spec fn wf(&self) -> bool {
        &&& self.store.wf()
        &&& forall|id: EntryId|
            #[trigger] self.store@.dom().contains(id) ==> id.ns == self.namespace@
    }

    /// The namespace the store is bound to.
    pub closed spec fn ns(&self) -> Seq<char> {
        self.namespace@
    }

    /// An empty store bound to the given namespace.
    pub fn new_memory(namespace: Namespace) -> (r: KeyValueStore)
        ensures
            r.wf(),
            r@ == Map::<KeyView, Value>::empty(),
            r.ns() == namespace@,
    {
        let r = KeyValueStore { namespace, store: MemoryStore::new() };
        proof {
            assert(r@ =~= Map::<KeyView, Value>::empty());
        }
        r
    }

    /// The namespace the store is bound to.
    pub fn namespace(&self) -> (r: &Namespace)
        ensures
            r@ == self.ns(),
    {
        &self.namespace
    }

    /// True iff the store holds no entry.
    pub fn is_empty(&self) -> (r: Result<bool, Error>)
        requires
            self.wf(),
        ensures
            r matches Ok(b) && (b <==> (forall|k: KeyView| !(#[trigger] self@.dom().contains(k)))),
    {
        let b = self.store.namespace_is_empty(&self.namespace);
        proof {
            lemma_kv_view(self);
            if b {
                assert forall|k: KeyView| !(#[trigger] self@.dom().contains(k)) by {
                    if self@.dom().contains(k) {
                        assert(self.store@.dom().contains(id_of(self.namespace@, k)));
                    }
                }
            } else {
                let id = choose|id: EntryId|
                    #[trigger] self.store@.dom().contains(id) && id.ns == self.namespace@;
                assert(self@.dom().contains(key_of(id)));
            }
        }
        Ok(b)
    }

    /// True iff the store holds an entry for the key.
    pub fn has(&self, key: &Key) -> (r: Result<bool, Error>)
        requires
            self.wf(),
        ensures
            r == Ok::<bool, Error>(self@.dom().contains(key@)),
    {
        let b = self.store.has(&self.namespace, key);
        proof {
            lemma_kv_view(self);
        }
        Ok(b)
    }

    /// True iff some stored key's scope starts with `scope`.
    pub fn has_scope(&self, scope: &Scope) -> (r: Result<bool, Error>)
        requires
            self.wf(),
        ensures
            r matches Ok(b) && (b <==> (exists|k: KeyView|
                #[trigger] self@.dom().contains(k) && scope_starts_with(k.scope, scope@))),
    {
        let b = self.store.has_scope(&self.namespace, scope);
        proof {
            lemma_kv_view(self);
            if b {
                let id = choose|id: EntryId|
                    #[trigger] self.store@.dom().contains(id) && id.ns == self.namespace@
                        && scope_starts_with(id.scope, scope@);
                assert(self@.dom().contains(key_of(id)) && scope_starts_with(
                    key_of(id).scope,
                    scope@,
                ));
            } else {
                assert forall|k: KeyView| !(#[trigger] self@.dom().contains(k)
                    && scope_starts_with(k.scope, scope@)) by {
                    if self@.dom().contains(k) && scope_starts_with(k.scope, scope@) {
                        assert(self.store@.dom().contains(id_of(self.namespace@, k)));
                    }
                }
            }
        }
        Ok(b)
    }

    /// The value stored for the key, if any.
    pub fn get(&self, key: &Key) -> (r: Result<Option<Value>, Error>)
        requires
            self.wf(),
        ensures
            r is Ok,
            r matches Ok(v) ==> (v matches Some(x) ==> self@.dom().contains(key@) && x
                == self@[key@]),
            r matches Ok(v) ==> (v is Some <==> self@.dom().contains(key@)),
    {
        let v = self.store.get(&self.namespace, key);
        proof {
            lemma_kv_view(self);
        }
        Ok(v)
    }

    /// Stores a value, creating or replacing the entry for the key.
    pub fn store(&mut self, key: &Key, value: Value) -> (r: Result<(), Error>)
        requires
            old(self).wf(),
        ensures
            final(self).wf(),
            final(self).ns() == old(self).ns(),
            r == Ok::<(), Error>(()),
            final(self)@ == old(self)@.insert(key@, value),
    {
        proof {
            let ghost o = *old(self);
            lemma_kv_view(&o);
        }
        self.store.insert(&self.namespace, key, value);
        proof {
            lemma_kv_view(self);
            assert forall|k: KeyView| #[trigger] self@.dom().contains(k) <==> old(self)@.insert(key@, value).dom().contains(k) by {
                if id_of(self.namespace@, k) == id_of(self.namespace@, key@) {
                    assert(k =~= key@);
                }
            }
            assert forall|k: KeyView| self@.dom().contains(k) implies #[trigger] self@[k] == old(self)@.insert(key@, value)[k] by {
                if id_of(self.namespace@, k) == id_of(self.namespace@, key@) {
                    assert(k =~= key@);
                }
            }
            assert(self@ =~= old(self)@.insert(key@, value));
        }
        Ok(())
    }

    /// Moves the value at `from` to `to`, replacing anything stored there.
    /// Fails with an unknown-key error when `from` is absent.
    pub fn move_value(&mut self, from: &Key, to: &Key) -> (r: Result<(), Error>)
        requires
            old(self).wf(),
        ensures
            final(self).wf(),
            final(self).ns() == old(self).ns(),
            r is Ok <==> old(self)@.dom().contains(from@),
            old(self)@.dom().contains(from@) ==> r == Ok::<(), Error>(()) && final(self)@ == old(self)@.remove(from@).insert(to@, old(self)@[from@]),
            !old(self)@.dom().contains(from@) ==> r == Err::<(), Error>(Error::UnknownKey) && final(self)@ == old(self)@,
    {
        proof {
            let ghost o = *old(self);
            lemma_kv_view(&o);
        }
        let r = self.store.move_value(&self.namespace, from, to);
        proof {
            lemma_kv_view(self);
            if old(self)@.dom().contains(from@) {
                assert forall|k: KeyView| #[trigger] self@.dom().contains(k) <==> old(self)@.remove(from@).insert(to@, old(self)@[from@]).dom().contains(k) by {
                    if id_of(self.namespace@, k) == id_of(self.namespace@, to@) {
                        assert(k =~= to@);
                    }
                    if id_of(self.namespace@, k) == id_of(self.namespace@, from@) {
                        assert(k =~= from@);
                    }
                }
                assert forall|k: KeyView| self@.dom().contains(k) implies #[trigger] self@[k]
                    == old(self)@.remove(from@).insert(to@, old(self)@[from@])[k] by {
                    if id_of(self.namespace@, k) == id_of(self.namespace@, to@) {
                        assert(k =~= to@);
                    }
                    if id_of(self.namespace@, k) == id_of(self.namespace@, from@) {
                        assert(k =~= from@);
                    }
                }
                assert(self@ =~= old(self)@.remove(from@).insert(to@, old(self)@[from@]));
            } else {
                assert(self@ =~= old(self)@);
            }
        }
        r
    }

    /// Deletes the entry for the key; fails with an unknown-key error when it
    /// is absent.
    pub fn delete(&mut self, key: &Key) -> (r: Result<(), Error>)
        requires
            old(self).wf(),
        ensures
            final(self).wf(),
            final(self).ns() == old(self).ns(),
            r is Ok <==> old(self)@.dom().contains(key@),
            old(self)@.dom().contains(key@) ==> r == Ok::<(), Error>(()) && final(self)@ == old(self)@.remove(key@),
            !old(self)@.dom().contains(key@) ==> r == Err::<(), Error>(Error::UnknownKey) && final(self)@ == old(self)@,
    {
        proof {
            let ghost o = *old(self);
            lemma_kv_view(&o);
        }
        let r = self.store.delete(&self.namespace, key);
        proof {
            lemma_kv_view(self);
            if old(self)@.dom().contains(key@) {
                assert forall|k: KeyView| #[trigger] self@.dom().contains(k) <==> old(self)@.remove(key@).dom().contains(k) by {
                    if id_of(self.namespace@, k) == id_of(self.namespace@, key@) {
                        assert(k =~= key@);
                    }
                }
                assert(self@ =~= old(self)@.remove(key@));
            } else {
                assert(self@ =~= old(self)@);
            }
        }
        r
    }

    /// Every stored key whose scope starts with `scope`. The order is
    /// unspecified; no key appears twice.
    #[verifier::spinoff_prover]
    #[verifier::rlimit(60)]
    pub fn list_keys(&self, scope: &Scope) -> (r: Result<Vec<Key>, Error>)
        requires
            self.wf(),
        ensures
            r matches Ok(keys) ==> listed_keys_in_scope(self@, scope@, keys@),
            r matches Ok(keys) ==> lists_all_keys(self@, scope@, keys@),
            r matches Ok(keys) ==> (forall|j: int, l: int|
                0 <= j < l < keys@.len() ==> keys@[j]@ != keys@[l]@),
            r is Ok,
    {
        let keys = self.store.list_keys(&self.namespace, scope);
        proof {
            lemma_kv_view(self);
            assert(lists_all_keys(self@, scope@, keys@)) by {
                assert forall|k: KeyView|
                    #[trigger] self@.dom().contains(k) && scope_starts_with(k.scope, scope@)
                        implies exists|j: int| 0 <= j < keys@.len() && keys@[j]@ == k by {
                    let id = id_of(self.namespace@, k);
                    assert(self.store@.dom().contains(id) && id.ns == self.namespace@
                        && scope_starts_with(id.scope, scope@));
                    let j = choose|j: int| 0 <= j < keys@.len() && keys@[j]@ == key_of(id);
                    assert(key_of(id) =~= k);
                    assert(0 <= j < keys@.len() && keys@[j]@ == k);
                }
            }
            assert(listed_keys_in_scope(self@, scope@, keys@)) by {
                assert forall|j: int|
                    0 <= j < keys@.len() implies #[trigger] self@.dom().contains(keys@[j]@)
                        && scope_starts_with(keys@[j]@.scope, scope@) by {
                    assert(self.store@.dom().contains(id_of(self.namespace@, keys@[j]@)));
                }
            }
        }
        Ok(keys)
    }

    /// Every non-empty prefix of a stored key's scope, in ascending order,
    /// without duplicates.
    pub fn list_scopes(&self) -> (r: Result<Vec<Scope>, Error>)
        requires
            self.wf(),
        ensures
            r matches Ok(scopes) ==> sorted_scopes(scopes@) && scope_set(scopes@) == kv_prefixes(
                self@,
            ),
            r is Ok,
    {
        let scopes = self.store.list_scopes(&self.namespace);
        proof {
            lemma_kv_view(self);
            assert forall|x: Seq<Seq<char>>|
                #[trigger] crate::memory::stored_prefixes(self.store@, self.namespace@).contains(
                x,
            ) implies kv_prefixes(self@).contains(x) by {
                let id = choose|id: EntryId|
                    #[trigger] self.store@.dom().contains(id) && id.ns == self.namespace@
                        && crate::memory::is_nonempty_prefix(x, id.scope);
                assert(self@.dom().contains(key_of(id)));
                assert(crate::memory::is_nonempty_prefix(x, key_of(id).scope));
            }
            assert forall|x: Seq<Seq<char>>| #[trigger] kv_prefixes(self@).contains(x) implies
            crate::memory::stored_prefixes(self.store@, self.namespace@).contains(x) by {
                let k = choose|k: KeyView|
                    #[trigger] self@.dom().contains(k) && crate::memory::is_nonempty_prefix(
                        x,
                        k.scope,
                    );
                assert(self.store@.dom().contains(id_of(self.namespace@, k)));
            }
            assert(crate::memory::stored_prefixes(self.store@, self.namespace@) =~= kv_prefixes(
                self@,
            ));
        }
        Ok(scopes)
    }

    /// Removes every entry whose scope starts with `scope`; entries outside
    /// the scope are untouched.
    pub fn delete_scope(&mut self, scope: &Scope) -> (r: Result<(), Error>)
        requires
            old(self).wf(),
        ensures
            final(self).wf(),
            final(self).ns() == old(self).ns(),
            r == Ok::<(), Error>(()),
            final(self)@ == old(self)@.remove_keys(keys_in_scope(scope@)),
    {
        proof {
            let ghost o = *old(self);
            lemma_kv_view(&o);
        }
        let r = self.store.delete_scope(&self.namespace, scope);
        proof {
            lemma_kv_view(self);
            assert(self@ =~= old(self)@.remove_keys(keys_in_scope(scope@)));
        }
        r
    }

    /// Removes every entry of the store.
    pub fn clear(&mut self) -> (r: Result<(), Error>)
        requires
            old(self).wf(),
        ensures
            final(self).wf(),
            final(self).ns() == old(self).ns(),
            r == Ok::<(), Error>(()),
            final(self)@ == Map::<KeyView, Value>::empty(),
    {
        proof {
            let ghost o = *old(self);
            lemma_kv_view(&o);
        }
        let r = self.store.clear(&self.namespace);
        proof {
            lemma_kv_view(self);
            assert(self@ =~= Map::<KeyView, Value>::empty());
        }
        r
    }

    /// Reassigns every entry whose scope is exactly `from` to the scope `to`,
    /// replacing anything already stored there. Entries in strict sub-scopes
    /// of `from` stay where they are.
    pub fn move_scope(&mut self, from: &Scope, to: &Scope) -> (r: Result<(), Error>)
        requires
            old(self).wf(),
        ensures
            final(self).wf(),
            final(self).ns() == old(self).ns(),
            r == Ok::<(), Error>(()),
            forall|k: KeyView|
                #[trigger] final(self)@.dom().contains(k) <==> kv_move_scope_dom(
                    old(self)@,
                    from@,
                    to@,
                    k,
                ),
            forall|k: KeyView|
                #[trigger] final(self)@.dom().contains(k) ==> final(self)@[k] == kv_move_scope_val(
                    old(self)@,
                    from@,
                    to@,
                    k,
                ),
    {
        proof {
            let ghost o = *old(self);
            lemma_kv_view(&o);
        }
        let r = self.store.move_scope(&self.namespace, from, to);
        proof {
            lemma_kv_view(self);
            assert forall|k: KeyView| #[trigger] self@.dom().contains(k) <==> kv_move_scope_dom(
                old(self)@,
                from@,
                to@,
                k,
            ) by {
                let id = id_of(self.namespace@, k);
                assert(crate::memory::rescoped(id, from@) =~= id_of(
                    self.namespace@,
                    key_rescoped(k, from@),
                ));
            }
            assert forall|k: KeyView| #[trigger] self@.dom().contains(k) implies self@[k]
                == kv_move_scope_val(old(self)@, from@, to@, k) by {
                let id = id_of(self.namespace@, k);
                assert(crate::memory::rescoped(id, from@) =~= id_of(
                    self.namespace@,
                    key_rescoped(k, from@),
                ));
            }
        }
        r
    }

    /// Reassigns every entry of the store to the namespace `to`. Fails when
    /// `to` already holds entries or when this store holds none; on success
    /// the keys and values are preserved and the old namespace is empty.
    pub fn migrate_namespace(&mut self, to: Namespace) -> (r: Result<(), Error>)
        requires
            old(self).wf(),
        ensures
            final(self).wf(),
            r is Ok <==> ((exists|k: KeyView| #[trigger] old(self)@.dom().contains(k)) && to@
                != old(self).ns()),
            r is Ok ==> final(self)@ == old(self)@ && final(self).ns() == to@,
            r matches Err(e) ==> (e matches Error::NamespaceMigration(_)) && final(self)@ == old(self)@ && final(self).ns() == old(self).ns(),
    {
        proof {
            let ghost o = *old(self);
            lemma_kv_view(&o);
            if exists|k: KeyView| #[trigger] old(self)@.dom().contains(k) {
                let k = choose|k: KeyView| #[trigger] old(self)@.dom().contains(k);
                assert(self.store@.dom().contains(id_of(self.namespace@, k)));
                assert(id_of(self.namespace@, k).ns == self.namespace@);
            }
            if exists|id: EntryId| #[trigger] self.store@.dom().contains(id) {
                let id = choose|id: EntryId| #[trigger] self.store@.dom().contains(id);
                assert(self@.dom().contains(key_of(id)));
            }
        }
        let r = self.store.migrate_namespace(&self.namespace, &to);
        match r {
            Ok(()) => {
                self.namespace = to;
                proof {
                    lemma_kv_view(self);
                    assert forall|k: KeyView| #[trigger] self@.dom().contains(k) <==> old(self)@.dom().contains(k) by {
                        assert(crate::memory::renamespaced(id_of(self.namespace@, k), old(self).namespace@) =~= id_of(old(self).namespace@, k));
                    }
                    assert forall|k: KeyView| self@.dom().contains(k) implies #[trigger] self@[k]
                        == old(self)@[k] by {
                        assert(crate::memory::renamespaced(id_of(self.namespace@, k), old(self).namespace@) =~= id_of(old(self).namespace@, k));
                    }
                    assert(self@ =~= old(self)@);
                }
                Ok(())
            },
            Err(e) => {
                proof {
                    lemma_kv_view(self);
                    assert(self@ =~= old(self)@);
                }
                Err(e)
            },
        }
    }

    fn snapshot(&self) -> (r: KeyValueStore)
        ensures
            r@ == self@,
            r.ns() == self.ns(),
            self.wf() ==> r.wf(),
    {
        let r = KeyValueStore { namespace: self.namespace.clone(), store: self.store.snapshot() };
        proof {
            assert(r@ =~= self@);
        }
        r
    }

    /// Runs `callback` on the store as one transaction. When the body
    /// succeeds, its writes are the transaction's effect; when it returns an
    /// error, none of its writes survive: the store comes back in its old
    /// state and the body's error propagates. Exclusion between concurrent
    /// transactions is the concern of the surrounding runtime, which holds
    /// the scope lock for the duration of the call.
    pub fn transaction<F: FnOnce(KeyValueStore) -> (KeyValueStore, Result<(), Error>)>(
        self,
        scope: &Scope,
        callback: F,
    ) -> (r: (KeyValueStore, Result<(), Error>))
        requires
            callback.requires((self,)),
        ensures
            r.1 is Ok ==> callback.ensures((self,), r),
            r.1 is Err ==> r.0@ == self@ && r.0.ns() == self.ns() && (self.wf() ==> r.0.wf()) && (
            exists|p: (KeyValueStore, Result<(), Error>)|
                #[trigger] callback.ensures((self,), p) && p.1 == r.1),
    {
        let snapshot = self.snapshot();
        let ghost orig = self;
        let result = callback(self);
        let ghost full = result;
        if result.1.is_err() {
            let (_state, res) = result;
            match res {
                Err(e) => {
                    proof {
                        assert(callback.ensures((orig,), full));
                        assert(full.1 == Err::<(), Error>(e));
                    }
                    (snapshot, Err(e))
                },
                Ok(()) => {
                    proof {
                        assert(false);
                    }
                    (snapshot, Ok(()))
                },
            }
        } else {
            result
        }
    }

    /// Runs `op` on the store as one transaction that hands a result back:
    /// its writes survive exactly when it succeeds.
    pub fn execute<T, F: FnOnce(KeyValueStore) -> (KeyValueStore, Result<T, Error>)>(
        self,
        scope: &Scope,
        op: F,
    ) -> (r: (KeyValueStore, Result<T, Error>))
        requires
            op.requires((self,)),
        ensures
            r.1 is Ok ==> op.ensures((self,), r),
            r.1 is Err ==> r.0@ == self@ && r.0.ns() == self.ns() && (self.wf() ==> r.0.wf()) && (
            exists|p: (KeyValueStore, Result<T, Error>)|
                #[trigger] op.ensures((self,), p) && p.1 == r.1),
    {
        let snapshot = self.snapshot();
        let ghost orig = self;
        let result = op(self);
        let ghost full = result;
        if result.1.is_err() {
            let (_state, res) = result;
            match res {
                Err(e) => {
                    proof {
                        assert(op.ensures((orig,), full));
                        assert(full.1 == Err::<T, Error>(e));
                    }
                    (snapshot, Err(e))
                },
                Ok(v) => {
                    proof {
                        assert(false);
                    }
                    (snapshot, Ok(v))
                },
            }
        } else {
            result
        }
    }
}

/// Law: after storing a value, reading the same key yields exactly that
/// value.
pub proof fn lemma_store_then_get(m: Map<KeyView, Value>, k: KeyView, v: Value)
    ensures
        m.insert(k, v).dom().contains(k),
        m.insert(k, v)[k] == v,
{
}

/// Law: storing under one key does not affect what any other key holds.
pub proof fn lemma_store_other_key(m: Map<KeyView, Value>, k: KeyView, k2: KeyView, v: Value)
    requires
        k != k2,
    ensures
        m.insert(k, v).dom().contains(k2) == m.dom().contains(k2),
        m.dom().contains(k2) ==> m.insert(k, v)[k2] == m[k2],
{
}

/// Law: after storing a key, every prefix of its scope is a scope the store
/// answers for, the key's own scope included.
pub proof fn lemma_store_has_scope(
    m: Map<KeyView, Value>,
    k: KeyView,
    v: Value,
    s: Seq<Seq<char>>,
)
    requires
        scope_starts_with(k.scope, s),
    ensures
        exists|k2: KeyView|
            #[trigger] m.insert(k, v).dom().contains(k2) && scope_starts_with(k2.scope, s),
{
    assert(m.insert(k, v).dom().contains(k));
}

/// Law: moving a scope reassigns exactly its own entries. When the source
/// and target scopes differ, a key that stood exactly at the source scope is
/// gone from there and its name now holds its old value at the target scope,
/// while a key at neither scope — in particular one in a strict sub-scope of
/// the source — is untouched.
pub proof fn lemma_move_scope_reassigns(
    pre: Map<KeyView, Value>,
    post: Map<KeyView, Value>,
    from: Seq<Seq<char>>,
    to: Seq<Seq<char>>,
    k: KeyView,
)
    requires
        from != to,
        forall|k2: KeyView|
            #[trigger] post.dom().contains(k2) <==> kv_move_scope_dom(pre, from, to, k2),
        forall|k2: KeyView|
            #[trigger] post.dom().contains(k2) ==> post[k2] == kv_move_scope_val(pre, from, to, k2),
    ensures
        k.scope == from && pre.dom().contains(k) ==> !post.dom().contains(k) && post.dom().contains(
            key_rescoped(k, to),
        ) && post[key_rescoped(k, to)] == pre[k],
        k.scope != from && k.scope != to ==> post.dom().contains(k) == pre.dom().contains(k) && (
        pre.dom().contains(k) ==> post[k] == pre[k]),
{
    if k.scope == from && pre.dom().contains(k) {
        let moved = key_rescoped(k, to);
        assert(moved.scope == to);
        assert(key_rescoped(moved, from) =~= k);
        assert(post.dom().contains(moved));
        assert(post[moved] == pre[k]);
    }
}

/// Law: every key's scope starts with the global scope, so listing the
/// global scope reaches exactly the stored keys.
pub proof fn lemma_global_scope_matches_all(k: KeyView)
    ensures
        scope_starts_with(k.scope, Seq::<Seq<char>>::empty()),
{
}

/// Law: after deleting a scope, no key within it remains and every key
/// outside it is untouched.
pub proof fn lemma_delete_scope(m: Map<KeyView, Value>, s: Seq<Seq<char>>, k: KeyView)
    ensures
        scope_starts_with(k.scope, s) ==> !m.remove_keys(keys_in_scope(s)).dom().contains(k),
        !scope_starts_with(k.scope, s) ==> m.remove_keys(keys_in_scope(s)).dom().contains(k)
            == m.dom().contains(k) && (m.dom().contains(k) ==> m.remove_keys(keys_in_scope(s))[k]
            == m[k]),
{
}

} // verus!
