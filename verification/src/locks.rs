use vstd::prelude::*;
use crate::scope::{scopes_match, Scope};

verus! {

/// The scopes that active transactions currently hold. Two transactions may
/// run at once only when their scopes do not match, so a scope enters the set
/// only while no held scope matches it.
pub struct LockSet {
    held: Vec<Scope>,
}

impl View for LockSet {
    type V = Seq<Scope>;

    closed spec fn view(&self) -> Seq<Scope> {
        self.held@
    }
}

impl LockSet {
    /// Well-formedness: no two held scopes match each other.
    pub closed spec fn wf(&self) -> bool {
        forall|i: int, j: int|
            0 <= i < j < self.held@.len() ==> !scopes_match(
                (#[trigger] self.held@[i])@,
                (#[trigger] self.held@[j])@,
            )
    }

    /// No scope is held yet.
    pub fn new() -> (r: LockSet)
        ensures
            r.wf(),
            r@.len() == 0,
    {
        LockSet { held: Vec::new() }
    }

    /// True iff some held scope matches `scope`.
    pub fn is_locked(&self, scope: &Scope) -> (r: bool)
        ensures
            r == exists|i: int| 0 <= i < self@.len() && scopes_match((#[trigger] self@[i])@, scope@),
    {
        let mut i: usize = 0;
        while i < self.held.len()
            invariant
                0 <= i <= self.held@.len(),
                forall|j: int|
                    0 <= j < i ==> !scopes_match((#[trigger] self.held@[j])@, scope@),
            decreases self.held@.len() - i,
        {
            if self.held[i].matches(scope) {
                proof {
                    assert(scopes_match((self@[i as int])@, scope@));
                }
                return true;
            }
            i += 1;
        }
        false
    }

    /// Takes the lock for `scope` when no held scope matches it; reports
    /// whether the lock was taken.
    pub fn acquire(&mut self, scope: &Scope) -> (r: bool)
        requires
            old(self).wf(),
        ensures
            final(self).wf(),
            r == !(exists|i: int|
                0 <= i < old(self)@.len() && scopes_match((#[trigger] old(self)@[i])@, scope@)),
            r ==> final(self)@.len() == old(self)@.len() + 1 && final(self)@[final(self)@.len()
                - 1]@ == scope@ && (forall|i: int|
                0 <= i < old(self)@.len() ==> final(self)@[i] == old(self)@[i]),
            !r ==> final(self)@ == old(self)@,
    {
        if self.is_locked(scope) {
            false
        } else {
            self.held.push(scope.clone());
            true
        }
    }

    /// Releases the lock for `scope`: the held scope equal to it, if any,
    /// leaves the set.
    pub fn release(&mut self, scope: &Scope)
        requires
            old(self).wf(),
        ensures
            final(self).wf(),
            (exists|i: int| 0 <= i < old(self)@.len() && (#[trigger] old(self)@[i])@ == scope@)
                ==> exists|i: int|
                0 <= i < old(self)@.len() && (#[trigger] old(self)@[i])@ == scope@ && final(self)@
                    == old(self)@.remove(i),
            !(exists|i: int| 0 <= i < old(self)@.len() && (#[trigger] old(self)@[i])@ == scope@)
                ==> final(self)@ == old(self)@,
    {
        let mut i: usize = 0;
        while i < self.held.len()
            invariant
                old(self).wf(),
                self@ == old(self)@,
                0 <= i <= self.held@.len(),
                forall|j: int| 0 <= j < i ==> (#[trigger] self.held@[j])@ != scope@,
            decreases self.held@.len() - i,
        {
            if self.held[i].eq(scope) {
                let ghost before = self.held@;
                let _ = self.held.remove(i);
                proof {
                    assert(self.held@ == before.remove(i as int));
                    assert(forall|j: int|
                        0 <= j < self.held@.len() ==> self.held@[j] == (if j < i {
                            before[j]
                        } else {
                            before[j + 1]
                        }));
                    assert forall|j2: int, k2: int|
                        0 <= j2 < k2 < self.held@.len() implies !scopes_match(
                        (#[trigger] self.held@[j2])@,
                        (#[trigger] self.held@[k2])@,
                    ) by {
                        let b2 = if j2 < i {
                            j2
                        } else {
                            j2 + 1
                        };
                        let c2 = if k2 < i {
                            k2
                        } else {
                            k2 + 1
                        };
                        assert(0 <= b2 < c2 < before.len());
                        assert(self.held@[j2] == before[b2]);
                        assert(self.held@[k2] == before[c2]);
                        assert(before == old(self)@);
                        assert(!scopes_match((before[b2])@, (before[c2])@));
                    }
                }
                return ;
            }
            i += 1;
        }
    }
}

/// Law: transactions on overlapping scopes are serialized. Any two scopes
/// held at once do not match, so no two active transactions cover a common
/// scope.
pub proof fn lemma_held_locks_disjoint(l: &LockSet, i: int, j: int)
    requires
        l.wf(),
        0 <= i < j < l@.len(),
    ensures
        !scopes_match(l@[i]@, l@[j]@),
{
}

} // verus!
