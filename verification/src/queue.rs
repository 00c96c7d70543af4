use vstd::prelude::*;
use vstd::string::StrSliceExecFns;
use crate::decimal::{
    all_digits,
    dec_digits,
    dec_val,
    is_digit,
    lemma_dec_digits_shape,
    lemma_dec_digits_val,
    parse_u64,
    u64_to_dec,
};
use crate::error::Error;
use crate::key::{Key, KeyView};
use crate::scope::{scope_starts_with, Scope};
use crate::segment::{valid_segment, Segment};
use crate::store::KeyValueStore;
use crate::text::{lemma_split_once_at, lemma_split_once_none, push_char, split_once_on};
use serde_json::Value;

verus! {

/// The character between the timestamp and the name in a task key name.
pub const TASK_SEPARATOR: char = '-';

/// How long a claimed task may run before a sweep sends it back to pending.
pub const RESCHEDULE_AFTER_SECS: u64 = 900;

/// A task waiting in the pending scope: scheduled at `timestamp`, claimable
/// once that time has passed.
#[derive(Debug)]
pub struct PendingTask {
    pub name: Segment,
    pub timestamp: u64,
    pub value: Value,
}

/// A claimed task in the running scope: `timestamp` records when it was
/// claimed.
#[derive(Debug)]
pub struct RunningTask {
    pub name: Segment,
    pub timestamp: u64,
    pub value: Value,
}

/// What scheduling does when a task of the same name already exists.
#[derive(Clone, Copy, Debug)]
pub enum ScheduleMode {
    /// Remove any pending and any running task of the name, then store the
    /// new pending task.
    FinishOrReplaceExisting,
    /// Keep whatever pending or running task exists; only store the new task
    /// when there is none.
    IfMissing,
}

/// The scope that holds the waiting tasks.
pub open spec fn pending_scope_view() -> Seq<Seq<char>> {
    seq!["pending"@]
}

/// The scope that holds the claimed tasks.
pub open spec fn running_scope_view() -> Seq<Seq<char>> {
    seq!["running"@]
}

/// The scope the queue serializes its operations under.
pub fn lock_scope() -> (r: Scope)
    ensures
        r@ == Seq::<Seq<char>>::empty(),
{
    Scope::global()
}

/// The scope that holds the waiting tasks.
pub fn pending_scope() -> (r: Scope)
    ensures
        r@ == pending_scope_view(),
{
    proof {
        reveal_strlit("pending");
    }
    Scope::from_segment(Segment::new("pending"))
}

/// The scope that holds the claimed tasks.
pub fn running_scope() -> (r: Scope)
    ensures
        r@ == running_scope_view(),
{
    proof {
        reveal_strlit("running");
    }
    Scope::from_segment(Segment::new("running"))
}

/// The key name of a task: the decimal timestamp, the separator, the name.
#[verifier::opaque]
pub open spec fn task_name_seq(ts: u64, name: Seq<char>) -> Seq<char> {
    dec_digits(ts as nat) + seq![TASK_SEPARATOR] + name
}

/// The key of a waiting task.
pub open spec fn pending_key_view(ts: u64, name: Seq<char>) -> KeyView {
    KeyView { scope: pending_scope_view(), name: task_name_seq(ts, name) }
}

/// The key of a claimed task.
pub open spec fn running_key_view(ts: u64, name: Seq<char>) -> KeyView {
    KeyView { scope: running_scope_view(), name: task_name_seq(ts, name) }
}

/// What reading a task key name back yields: the text before the first
/// separator as a number, the rest as the task's name.
#[verifier::opaque]
pub open spec fn task_decode(s: Seq<char>) -> Option<(u64, Seq<char>)> {
    match split_once_on(s, TASK_SEPARATOR) {
        None => None,
        Some(p) => if p.0.len() > 0 && all_digits(p.0) && dec_val(p.0) <= u64::MAX
            && valid_segment(p.1) {
            Some((dec_val(p.0) as u64, p.1))
        } else {
            None
        },
    }
}

/// A task key name is a valid segment.
pub proof fn lemma_task_name_valid(ts: u64, name: Seq<char>)
    requires
        valid_segment(name),
    ensures
        valid_segment(task_name_seq(ts, name)),
{
    reveal(task_name_seq);
    lemma_dec_digits_shape(ts as nat);
    let d = dec_digits(ts as nat);
    let s = task_name_seq(ts, name);
    assert(s.len() == d.len() + 1 + name.len());
    assert(s[0] == d[0]);
    assert(is_digit(d[0]));
    assert(s[s.len() - 1] == name[name.len() - 1]);
    assert forall|i: int| 0 <= i < s.len() implies s[i] != '/' by {
        if i < d.len() {
            assert(s[i] == d[i]);
            assert(is_digit(d[i]));
        } else if i == d.len() {
            assert(s[i] == TASK_SEPARATOR);
        } else {
            assert(s[i] == name[i - d.len() - 1]);
        }
    }
}

/// Reading a task key name back yields the timestamp and name it was made
/// from.
pub proof fn lemma_task_decode_encode(ts: u64, name: Seq<char>)
    requires
        valid_segment(name),
    ensures
        task_decode(task_name_seq(ts, name)) == Some((ts, name)),
{
    reveal(task_name_seq);
    reveal(task_decode);
    lemma_dec_digits_shape(ts as nat);
    lemma_dec_digits_val(ts as nat);
    let d = dec_digits(ts as nat);
    let s = task_name_seq(ts, name);
    assert(s[d.len() as int] == TASK_SEPARATOR);
    assert forall|j: int| 0 <= j < d.len() implies s[j] != TASK_SEPARATOR by {
        assert(s[j] == d[j]);
        assert(is_digit(d[j]));
    }
    lemma_split_once_at(s, TASK_SEPARATOR, d.len() as int);
    assert(s.take(d.len() as int) =~= d);
    assert(s.skip(d.len() + 1 as int) =~= name);
}

/// Builds the key name of a task.
pub fn task_segment(ts: u64, name: &Segment) -> (r: Segment)
    ensures
        r@ == task_name_seq(ts, name@),
        valid_segment(name@),
{
    let mut s = u64_to_dec(ts);
    push_char(&mut s, '-');
    let n: &str = name.as_str();
    s.append(n);
    proof {
        reveal(task_name_seq);
        assert(s@ =~= task_name_seq(ts, name@));
        lemma_task_name_valid(ts, name@);
    }
    Segment::new(s.as_str())
}

/// The key of a waiting task.
pub fn pending_key(ts: u64, name: &Segment) -> (r: Key)
    ensures
        r@ == pending_key_view(ts, name@),
{
    let k = Key::new_scoped(pending_scope(), task_segment(ts, name));
    proof {
        assert(k@ =~= pending_key_view(ts, name@));
    }
    k
}

/// The key of a claimed task.
pub fn running_key(ts: u64, name: &Segment) -> (r: Key)
    ensures
        r@ == running_key_view(ts, name@),
{
    let k = Key::new_scoped(running_scope(), task_segment(ts, name));
    proof {
        assert(k@ =~= running_key_view(ts, name@));
    }
    k
}

/// Reads a task key name back into its timestamp and name.
pub fn decode_task_name(name: &Segment) -> (r: Option<(u64, Segment)>)
    ensures
        r matches Some(p) ==> task_decode(name@) == Some::<(u64, Seq<char>)>((p.0, p.1@)),
        r is Some <==> task_decode(name@) is Some,
{
    proof {
        reveal(task_decode);
    }
    let s: &str = name.as_str();
    let n = s.unicode_len();
    let mut i: usize = 0;
    while i < n && s.get_char(i) != '-'
        invariant
            n == s@.len(),
            0 <= i <= n,
            forall|j: int| 0 <= j < i ==> s@[j] != TASK_SEPARATOR,
        decreases n - i,
    {
        i += 1;
    }
    if i == n {
        proof {
            lemma_split_once_none(s@, TASK_SEPARATOR);
        }
        return None;
    }
    proof {
        lemma_split_once_at(s@, TASK_SEPARATOR, i as int);
    }
    let pre = s.substring_char(0, i);
    let rest = s.substring_char(i + 1, n);
    proof {
        assert(pre@ =~= s@.take(i as int));
        assert(rest@ =~= s@.skip(i + 1));
    }
    match parse_u64(pre) {
        None => None,
        Some(ts) => match Segment::parse(rest) {
            Err(_) => None,
            Ok(seg) => Some((ts, seg)),
        },
    }
}

/// The stored keys under the given task scope.
pub open spec fn tasks_in(m: Map<KeyView, Value>, scope: Seq<Seq<char>>) -> Set<KeyView> {
    Set::new(|k: KeyView| m.dom().contains(k) && scope_starts_with(k.scope, scope))
}

/// Relies on std::time::SystemTime::now: seconds since the Unix epoch, or
/// zero if the clock reads earlier than the epoch.
#[verifier::external_body]
pub fn now() -> u64 {
    std::time::SystemTime::now().duration_since(std::time::UNIX_EPOCH).map(
        |d| d.as_secs(),
    ).unwrap_or(0)
}

impl KeyValueStore {
    fn count_scope(&self, scope: &Scope) -> (r: Result<usize, Error>)
        requires
            self.wf(),
        ensures
            r matches Ok(n) ==> tasks_in(self@, scope@).finite() && n == tasks_in(
                self@,
                scope@,
            ).len(),
            r is Ok,
    {
        let keys = match self.list_keys(scope) {
            Ok(keys) => keys,
            Err(e) => {
                proof {
                    assert(false);
                }
                return Err(e);
            },
        };
        proof {
            let kviews = keys@.map_values(|k: Key| k@);
            assert(kviews.no_duplicates()) by {
                assert(forall|j: int|
                    0 <= j < kviews.len() ==> kviews[j] == (#[trigger] keys@[j])@);
            }
            kviews.unique_seq_to_set();
            assert forall|k: KeyView| #[trigger] kviews.to_set().contains(k) implies tasks_in(
                self@,
                scope@,
            ).contains(k) by {
                let j = choose|j: int| 0 <= j < kviews.len() && kviews[j] == k;
                assert(keys@[j]@ == k);
            }
            assert forall|k: KeyView| #[trigger] tasks_in(self@, scope@).contains(k) implies
            kviews.to_set().contains(k) by {
                let j = choose|j: int| 0 <= j < keys@.len() && (#[trigger] keys@[j])@ == k;
                assert(kviews[j] == k);
            }
            assert(kviews.to_set() =~= tasks_in(self@, scope@));
            assert(kviews.len() == keys@.len());
        }
        Ok(keys.len())
    }

    /// How many tasks wait in the pending scope.
    pub fn pending_tasks_remaining(&self) -> (r: Result<usize, Error>)
        requires
            self.wf(),
        ensures
            r matches Ok(n) ==> tasks_in(self@, pending_scope_view()).finite() && n == tasks_in(
                self@,
                pending_scope_view(),
            ).len(),
            r is Ok,
    {
        self.count_scope(&pending_scope())
    }

    /// How many tasks are claimed and running.
    pub fn running_tasks_remaining(&self) -> (r: Result<usize, Error>)
        requires
            self.wf(),
        ensures
            r matches Ok(n) ==> tasks_in(self@, running_scope_view()).finite() && n == tasks_in(
                self@,
                running_scope_view(),
            ).len(),
            r is Ok,
    {
        self.count_scope(&running_scope())
    }

    /// The keys of the claimed tasks.
    pub fn running_tasks_keys(&self) -> (r: Result<Vec<Key>, Error>)
        requires
            self.wf(),
        ensures
            r matches Ok(keys) ==> crate::store::listed_keys_in_scope(
                self@,
                running_scope_view(),
                keys@,
            ),
            r matches Ok(keys) ==> crate::store::lists_all_keys(
                self@,
                running_scope_view(),
                keys@,
            ),
            r is Ok,
    {
        let rs = running_scope();
        self.list_keys(&rs)
    }

    /// The scheduled time of the waiting task of the given name, if one
    /// waits.
    pub fn pending_task_scheduled(&self, name: Segment) -> (r: Result<Option<u64>, Error>)
        requires
            self.wf(),
        ensures
            r is Ok,
            r matches Ok(opt) ==> (opt matches Some(t) ==> exists|k: KeyView|
                #[trigger] self@.dom().contains(k) && k.scope == pending_scope_view()
                    && task_decode(k.name) == Some((t, name@))),
            r matches Ok(opt) ==> (opt is None ==> forall|k: KeyView|
                #[trigger] self@.dom().contains(k) && k.scope == pending_scope_view()
                    ==> !(task_decode(k.name) matches Some(p) && p.1 == name@)),
    {
        let ps = pending_scope();
        let keys = match self.list_keys(&ps) {
            Ok(keys) => keys,
            Err(e) => {
                proof {
                    assert(false);
                }
                return Err(e);
            },
        };
        let mut j: usize = 0;
        while j < keys.len()
            invariant
                self.wf(),
                ps@ == pending_scope_view(),
                0 <= j <= keys@.len(),
                crate::store::listed_keys_in_scope(self@, pending_scope_view(), keys@),
                crate::store::lists_all_keys(self@, pending_scope_view(), keys@),
                forall|j2: int|
                    0 <= j2 < j ==> !((#[trigger] keys@[j2]@).scope == pending_scope_view()
                        && (task_decode(keys@[j2]@.name) matches Some(p) && p.1 == name@)),
            decreases keys@.len() - j,
        {
            let k = &keys[j];
            if k.scope().eq(&ps) {
                match decode_task_name(k.name()) {
                    Some((ts, nm)) => {
                        if nm == name {
                            proof {
                                assert(self@.dom().contains(keys@[j as int]@));
                                assert(task_decode(keys@[j as int]@.name) == Some((ts, name@)));
                            }
                            return Ok(Some(ts));
                        }
                    },
                    None => {},
                }
            }
            j += 1;
        }
        proof {
            assert forall|k: KeyView|
                #[trigger] self@.dom().contains(k) && k.scope == pending_scope_view() implies !(
            task_decode(k.name) matches Some(p) && p.1 == name@) by {
                if task_decode(k.name) matches Some(p) && p.1 == name@ {
                    assert(scope_starts_with(k.scope, pending_scope_view()));
                    let j2 = choose|j2: int| 0 <= j2 < keys@.len() && (#[trigger] keys@[j2])@ == k;
                }
            }
        }
        Ok(None)
    }
}

/// The pending and the running scope are two different scopes.
pub proof fn lemma_scopes_distinct()
    ensures
        pending_scope_view() != running_scope_view(),
{
    reveal_strlit("pending");
    reveal_strlit("running");
    assert("pending"@[0] == 'p');
    assert("running"@[0] == 'r');
    if "pending"@ == "running"@ {
        assert("pending"@[0] == "running"@[0]);
    }
    if pending_scope_view() == running_scope_view() {
        assert(pending_scope_view()[0] == running_scope_view()[0]);
    }
}

/// The key belongs to the task of the given name: it sits directly in the
/// pending or the running scope and its key name decodes to that task name.
pub open spec fn task_named(k: KeyView, name: Seq<char>) -> bool {
    &&& (k.scope == pending_scope_view() || k.scope == running_scope_view())
    &&& task_decode(k.name) matches Some(p) && p.1 == name
}

/// What scheduling a task does to the store, for a given timestamp.
pub open spec fn schedule_spec(
    pre: Map<KeyView, Value>,
    post: Map<KeyView, Value>,
    name: Seq<char>,
    value: Value,
    ts: u64,
    mode: ScheduleMode,
) -> bool {
    match mode {
        ScheduleMode::IfMissing => {
            if exists|k: KeyView| #[trigger] pre.dom().contains(k) && task_named(k, name) {
                post == pre
            } else {
                post == pre.insert(pending_key_view(ts, name), value)
            }
        },
        ScheduleMode::FinishOrReplaceExisting => {
            &&& (forall|k: KeyView|
                #[trigger] post.dom().contains(k) <==> (k == pending_key_view(ts, name) || (
                pre.dom().contains(k) && !task_named(k, name))))
            &&& post[pending_key_view(ts, name)] == value
            &&& (forall|k: KeyView|
                #[trigger] post.dom().contains(k) && k != pending_key_view(ts, name) ==> post[k]
                    == pre[k])
        },
    }
}

/// The position of the first key that lies directly in `scope` and names a
/// task called `name`, if any. This is the search that scheduling performs;
/// it decides over listed keys alone, so a runtime can apply it to any
/// backend's listing.
pub fn find_task_named(keys: &Vec<Key>, scope: &Scope, name: &Segment) -> (r: Option<usize>)
    ensures
        r matches Some(i) ==> i < keys@.len() && keys@[i as int]@.scope == scope@ && (task_decode(
            keys@[i as int]@.name,
        ) matches Some(p) && p.1 == name@),
        r is None ==> (forall|j: int|
            0 <= j < keys@.len() ==> !((#[trigger] keys@[j]@).scope == scope@ && (task_decode(
                keys@[j]@.name,
            ) matches Some(p) && p.1 == name@))),
{
    let mut j: usize = 0;
    while j < keys.len()
        invariant
            0 <= j <= keys@.len(),
            forall|j2: int|
                0 <= j2 < j ==> !((#[trigger] keys@[j2]@).scope == scope@ && (task_decode(
                    keys@[j2]@.name,
                ) matches Some(p) && p.1 == name@)),
        decreases keys@.len() - j,
    {
        let k = &keys[j];
        if k.scope().eq(scope) {
            match decode_task_name(k.name()) {
                Some((_ts, nm)) => {
                    if nm == *name {
                        return Some(j);
                    }
                },
                None => {},
            }
        }
        j += 1;
    }
    None
}

impl KeyValueStore {
    fn scope_has_task(&self, scope: &Scope, name: &Segment) -> (r: bool)
        requires
            self.wf(),
        ensures
            r <==> exists|k: KeyView|
                #[trigger] self@.dom().contains(k) && k.scope == scope@ && (task_decode(k.name)
                    matches Some(p) && p.1 == name@),
    {
        let keys = match self.list_keys(scope) {
            Ok(keys) => keys,
            Err(_) => {
                proof {
                    assert(false);
                }
                return false;
            },
        };
        match find_task_named(&keys, scope, name) {
            Some(i) => {
                proof {
                    assert(self@.dom().contains(keys@[i as int]@));
                }
                true
            },
            None => {
                proof {
                    assert forall|k: KeyView|
                        #[trigger] self@.dom().contains(k) && k.scope == scope@ implies !(
                    task_decode(k.name) matches Some(p) && p.1 == name@) by {
                        if task_decode(k.name) matches Some(p) && p.1 == name@ {
                            assert(scope_starts_with(k.scope, scope@));
                            let j2 = choose|j2: int|
                                0 <= j2 < keys@.len() && (#[trigger] keys@[j2])@ == k;
                        }
                    }
                }
                false
            },
        }
    }

    fn delete_tasks_named(&mut self, scope: &Scope, name: &Segment) -> (r: Result<(), Error>)
        requires
            old(self).wf(),
        ensures
            final(self).wf(),
            final(self).ns() == old(self).ns(),
            r == Ok::<(), Error>(()),
            forall|k: KeyView|
                #[trigger] final(self)@.dom().contains(k) <==> (old(self)@.dom().contains(k) && !(
                k.scope == scope@ && (task_decode(k.name) matches Some(p) && p.1 == name@))),
            forall|k: KeyView|
                #[trigger] final(self)@.dom().contains(k) ==> final(self)@[k] == old(self)@[k],
    {
        let ghost before = self@;
        let keys = match self.list_keys(scope) {
            Ok(keys) => keys,
            Err(e) => {
                proof {
                    assert(false);
                }
                return Err(e);
            },
        };
        let mut j: usize = 0;
        while j < keys.len()
            invariant
                self.wf(),
                self.ns() == old(self).ns(),
                0 <= j <= keys@.len(),
                crate::store::listed_keys_in_scope(before, scope@, keys@),
                crate::store::lists_all_keys(before, scope@, keys@),
                forall|k: KeyView|
                    #[trigger] self@.dom().contains(k) ==> before.dom().contains(k) && self@[k]
                        == before[k],
                forall|k: KeyView|
                    #[trigger] before.dom().contains(k) && !(k.scope == scope@ && (task_decode(
                        k.name,
                    ) matches Some(p) && p.1 == name@)) ==> self@.dom().contains(k),
                forall|j2: int|
                    0 <= j2 < j ==> !self@.dom().contains((#[trigger] keys@[j2])@) || !(
                    keys@[j2]@.scope == scope@ && (task_decode(keys@[j2]@.name) matches Some(p)
                        && p.1 == name@)),
            decreases keys@.len() - j,
        {
            let k = &keys[j];
            let mut matched = false;
            if k.scope().eq(scope) {
                match decode_task_name(k.name()) {
                    Some((_ts, nm)) => {
                        if nm == *name {
                            matched = true;
                        }
                    },
                    None => {},
                }
            }
            if matched {
                let _ = self.delete(k);
            }
            j += 1;
        }
        proof {
            assert forall|k: KeyView| #[trigger] self@.dom().contains(k) implies (
            before.dom().contains(k) && !(k.scope == scope@ && (task_decode(k.name) matches Some(p)
                && p.1 == name@))) by {
                if k.scope == scope@ && (task_decode(k.name) matches Some(p) && p.1 == name@) {
                    assert(before.dom().contains(k));
                    assert(scope_starts_with(k.scope, scope@));
                    let j2 = choose|j2: int| 0 <= j2 < keys@.len() && (#[trigger] keys@[j2])@ == k;
                }
            }
        }
        Ok(())
    }

    /// Schedules the task of the given name at the given timestamp.
    pub fn schedule_task_at(
        &mut self,
        name: &Segment,
        value: Value,
        ts: u64,
        mode: ScheduleMode,
    ) -> (r: Result<(), Error>)
        requires
            old(self).wf(),
        ensures
            final(self).wf(),
            final(self).ns() == old(self).ns(),
            r == Ok::<(), Error>(()),
            schedule_spec(old(self)@, final(self)@, name@, value, ts, mode),
    {
        let ps = pending_scope();
        let rs = running_scope();
        match mode {
            ScheduleMode::IfMissing => {
                let in_pending = self.scope_has_task(&ps, name);
                let in_running = self.scope_has_task(&rs, name);
                if in_pending || in_running {
                    proof {
                        if in_pending {
                            let k = choose|k: KeyView|
                                #[trigger] self@.dom().contains(k) && k.scope
                                    == pending_scope_view() && (task_decode(k.name) matches Some(p)
                                    && p.1 == name@);
                            assert(task_named(k, name@));
                        } else {
                            let k = choose|k: KeyView|
                                #[trigger] self@.dom().contains(k) && k.scope
                                    == running_scope_view() && (task_decode(k.name) matches Some(p)
                                    && p.1 == name@);
                            assert(task_named(k, name@));
                        }
                    }
                    Ok(())
                } else {
                    proof {
                        assert forall|k: KeyView| !(#[trigger] self@.dom().contains(k)
                            && task_named(k, name@)) by {
                            if self@.dom().contains(k) && task_named(k, name@) {
                            }
                        }
                    }
                    let key = pending_key(ts, name);
                    let r = self.store(&key, value);
                    r
                }
            },
            ScheduleMode::FinishOrReplaceExisting => {
                let ghost pre = self@;
                let r1 = self.delete_tasks_named(&rs, name);
                let ghost mid1 = self@;
                let r2 = self.delete_tasks_named(&ps, name);
                let ghost mid2 = self@;
                let key = pending_key(ts, name);
                let r = self.store(&key, value);
                proof {
                    assert forall|k: KeyView| #[trigger] self@.dom().contains(k) <==> (k
                        == pending_key_view(ts, name@) || (pre.dom().contains(k) && !task_named(
                        k,
                        name@,
                    ))) by {
                        if k != pending_key_view(ts, name@) {
                            assert(self@.dom().contains(k) == mid2.dom().contains(k));
                        }
                    }
                    assert forall|k: KeyView|
                        #[trigger] self@.dom().contains(k) && k != pending_key_view(
                            ts,
                            name@,
                        ) implies self@[k] == pre[k] by {
                        assert(self@[k] == mid2[k]);
                        assert(mid2[k] == mid1[k]);
                    }
                }
                r
            },
        }
    }

    /// Schedules the task of the given name at the given timestamp, or at the
    /// current time when none is given.
    pub fn schedule_task(
        &mut self,
        name: Segment,
        value: Value,
        timestamp: Option<u64>,
        mode: ScheduleMode,
    ) -> (r: Result<(), Error>)
        requires
            old(self).wf(),
        ensures
            final(self).wf(),
            final(self).ns() == old(self).ns(),
            r == Ok::<(), Error>(()),
            timestamp matches Some(t) ==> schedule_spec(
                old(self)@,
                final(self)@,
                name@,
                value,
                t,
                mode,
            ),
            timestamp is None ==> exists|t: u64|
                schedule_spec(old(self)@, final(self)@, name@, value, t, mode),
    {
        let ts = match timestamp {
            Some(t) => t,
            None => now(),
        };
        let r = self.schedule_task_at(&name, value, ts, mode);
        proof {
            assert(schedule_spec(old(self)@, self@, name@, value, ts, mode));
        }
        r
    }
}

/// The key is due in the pending scope: stored there, with an encoded time
/// not after `now`.
pub open spec fn due_pending(m: Map<KeyView, Value>, now: u64, k: KeyView) -> bool {
    &&& m.dom().contains(k)
    &&& k.scope == pending_scope_view()
    &&& task_decode(k.name) matches Some(p) && p.0 <= now
}

/// What a successful claim at time `now` did: `k` was a due pending entry of
/// minimal encoded time; it moved to the running scope under `now`, and the
/// returned task carries its name and value.
pub open spec fn claim_witness(
    pre: Map<KeyView, Value>,
    post: Map<KeyView, Value>,
    now: u64,
    k: KeyView,
    rt_name: Seq<char>,
    rt_ts: u64,
    rt_value: Value,
) -> bool {
    &&& due_pending(pre, now, k)
    &&& (forall|k2: KeyView|
        #[trigger] due_pending(pre, now, k2) ==> task_decode(k.name).unwrap().0 <= task_decode(
            k2.name,
        ).unwrap().0)
    &&& rt_name == task_decode(k.name).unwrap().1
    &&& rt_ts == now
    &&& rt_value == pre[k]
    &&& post == pre.remove(k).insert(running_key_view(now, rt_name), pre[k])
}

/// What a claim at time `now` did: either nothing was due and the store is
/// unchanged, or the returned task witnesses a minimal due entry that moved.
pub open spec fn claim_spec(
    pre: Map<KeyView, Value>,
    post: Map<KeyView, Value>,
    o: Option<RunningTask>,
    now: u64,
) -> bool {
    ||| ((forall|k: KeyView| !due_pending(pre, now, k)) && post == pre && o is None)
    ||| (o matches Some(rt) && (exists|k: KeyView|
        claim_witness(pre, post, now, k, rt.name@, rt.timestamp, rt.value)))
}

/// Law: a claim consumes its pending entry. After a successful claim the
/// witnessed pending key is gone, so no later claim can pick the same entry
/// again, and the claimed task waits in the running scope instead.
pub proof fn lemma_claim_consumes_entry(
    pre: Map<KeyView, Value>,
    post: Map<KeyView, Value>,
    now: u64,
    k: KeyView,
    rt_name: Seq<char>,
    rt_ts: u64,
    rt_value: Value,
)
    requires
        claim_witness(pre, post, now, k, rt_name, rt_ts, rt_value),
    ensures
        !post.dom().contains(k),
        post.dom().contains(running_key_view(now, rt_name)),
        post[running_key_view(now, rt_name)] == rt_value,
{
    lemma_scopes_distinct();
    assert(k.scope == pending_scope_view());
    assert(running_key_view(now, rt_name).scope == running_scope_view());
    assert(k != running_key_view(now, rt_name));
}

/// The key names a task that overran the threshold: stored directly in the
/// running scope with an encoded claim time not after `threshold`.
pub open spec fn overdue_name(threshold: u64, k: KeyView) -> bool {
    &&& k.scope == running_scope_view()
    &&& task_decode(k.name) matches Some(p) && p.0 <= threshold
}

/// As [`overdue_name`], and the key is stored in `m`.
pub open spec fn overdue_running(m: Map<KeyView, Value>, threshold: u64, k: KeyView) -> bool {
    m.dom().contains(k) && overdue_name(threshold, k)
}

/// The pending key an overdue running entry moves to at time `now`.
pub open spec fn resched_target(now: u64, k: KeyView) -> KeyView {
    pending_key_view(now, task_decode(k.name).unwrap().1)
}

/// What the timeout sweep at time `now` with cutoff `threshold` did: every
/// overdue running entry is gone and waits again under `now`; every other
/// entry is still present with its value untouched; each rescheduled entry
/// carries the value of an overdue entry of its name.
pub open spec fn resched_spec(
    pre: Map<KeyView, Value>,
    post: Map<KeyView, Value>,
    now: u64,
    threshold: u64,
) -> bool {
    &&& (forall|k: KeyView|
        #[trigger] overdue_running(pre, threshold, k) ==> !post.dom().contains(k))
    &&& (forall|k: KeyView|
        #[trigger] pre.dom().contains(k) && !overdue_running(pre, threshold, k)
            ==> post.dom().contains(k))
    &&& (forall|k: KeyView|
        #[trigger] overdue_running(pre, threshold, k) ==> post.dom().contains(
            resched_target(now, k),
        ))
    &&& (forall|k: KeyView|
        #[trigger] post.dom().contains(k) ==> (pre.dom().contains(k) && !overdue_running(
            pre,
            threshold,
            k,
        )) || (exists|k2: KeyView|
            #[trigger] overdue_running(pre, threshold, k2) && k == resched_target(now, k2)))
    &&& (forall|k: KeyView|
        #[trigger] post.dom().contains(k) && !(exists|k2: KeyView|
            #[trigger] overdue_running(pre, threshold, k2) && k == resched_target(now, k2))
            ==> post[k] == pre[k])
    &&& (forall|k: KeyView|
        #[trigger] post.dom().contains(k) && (exists|k2: KeyView|
            #[trigger] overdue_running(pre, threshold, k2) && k == resched_target(now, k2))
            ==> exists|k2: KeyView|
            overdue_running(pre, threshold, k2) && k == resched_target(now, k2) && post[k]
                == pre[k2])
}

/// Among the listed keys, the position and encoded time of the task that a
/// claim at time `now_ts` picks: it lies directly in the pending scope, its
/// encoded time has passed, and no listed due task has an earlier one. This
/// is the claim's selection decision; it decides over listed keys alone, so a
/// runtime can apply it to any backend's listing.
pub fn select_due_task(keys: &Vec<Key>, now_ts: u64) -> (r: Option<(usize, u64)>)
    ensures
        r matches Some(p) ==> p.0 < keys@.len() && keys@[p.0 as int]@.scope == pending_scope_view()
            && (task_decode(keys@[p.0 as int]@.name) matches Some(q) && q.0 <= now_ts && q.0
            == p.1),
        r matches Some(p) ==> (forall|j2: int|
            0 <= j2 < keys@.len() && (#[trigger] keys@[j2]@).scope == pending_scope_view() && (
            task_decode(keys@[j2]@.name) matches Some(q) && q.0 <= now_ts) ==> p.1 <= task_decode(
                keys@[j2]@.name,
            ).unwrap().0),
        r is None ==> (forall|j2: int|
            0 <= j2 < keys@.len() ==> !((#[trigger] keys@[j2]@).scope == pending_scope_view() && (
            task_decode(keys@[j2]@.name) matches Some(q) && q.0 <= now_ts))),
{
    let ps = pending_scope();
    let mut best: Option<(usize, u64)> = None;
    let mut j: usize = 0;
    while j < keys.len()
        invariant
            ps@ == pending_scope_view(),
            0 <= j <= keys@.len(),
            best matches Some(p) ==> p.0 < j && keys@[p.0 as int]@.scope == pending_scope_view()
                && (task_decode(keys@[p.0 as int]@.name) matches Some(q) && q.0 <= now_ts && q.0
                == p.1),
            best matches Some(p) ==> (forall|j2: int|
                0 <= j2 < j && (#[trigger] keys@[j2]@).scope == pending_scope_view() && (
                task_decode(keys@[j2]@.name) matches Some(q) && q.0 <= now_ts) ==> p.1
                    <= task_decode(keys@[j2]@.name).unwrap().0),
            best is None ==> (forall|j2: int|
                0 <= j2 < j ==> !((#[trigger] keys@[j2]@).scope == pending_scope_view() && (
                task_decode(keys@[j2]@.name) matches Some(q) && q.0 <= now_ts))),
        decreases keys@.len() - j,
    {
        let k = &keys[j];
        if k.scope().eq(&ps) {
            match decode_task_name(k.name()) {
                Some((ts, _nm)) => {
                    if ts <= now_ts {
                        let better = match best {
                            Some((_bj, bts)) => ts < bts,
                            None => true,
                        };
                        if better {
                            best = Some((j, ts));
                        }
                    }
                },
                None => {},
            }
        }
        j += 1;
    }
    best
}

impl KeyValueStore {
    /// Claims the due pending task with the least scheduled time, as of time
    /// `now_ts`: it moves to the running scope under `now_ts` and comes back
    /// as a [`RunningTask`]. Yields nothing when no pending task is due.
    #[verifier::spinoff_prover]
    #[verifier::rlimit(100)]
    pub fn claim_scheduled_pending_task_at(&mut self, now_ts: u64) -> (r: Result<
        Option<RunningTask>,
        Error,
    >)
        requires
            old(self).wf(),
        ensures
            final(self).wf(),
            final(self).ns() == old(self).ns(),
            r is Ok,
            r matches Ok(o) ==> claim_spec(old(self)@, final(self)@, o, now_ts),
    {
        let ps = pending_scope();
        let keys = match self.list_keys(&ps) {
            Ok(keys) => keys,
            Err(e) => {
                proof {
                    assert(false);
                }
                return Err(e);
            },
        };
        let best = select_due_task(&keys, now_ts);
        proof {
            match best {
                Some(p) => {
                    assert(self@.dom().contains(keys@[p.0 as int]@));
                    assert(due_pending(self@, now_ts, keys@[p.0 as int]@));
                },
                None => {},
            }
        }
        let (best_j, _best_ts) = match best {
            Some(p) => p,
            None => {
                proof {
                    assert forall|k: KeyView| !due_pending(self@, now_ts, k) by {
                        if due_pending(self@, now_ts, k) {
                            assert(scope_starts_with(k.scope, pending_scope_view()));
                            let j2 = choose|j2: int|
                                0 <= j2 < keys@.len() && (#[trigger] keys@[j2])@ == k;
                        }
                    }
                    assert(claim_spec(old(self)@, self@, Option::<RunningTask>::None, now_ts));
                }
                return Ok(None);
            },
        };
        let k = &keys[best_j];
        let nm = match decode_task_name(k.name()) {
            Some((_ts, nm)) => nm,
            None => {
                proof {
                    assert(false);
                }
                return Ok(None);
            },
        };
        let value = match self.get(k) {
            Ok(Some(v)) => v,
            _ => {
                proof {
                    assert(false);
                }
                return Ok(None);
            },
        };
        let rkey = running_key(now_ts, &nm);
        let ghost pre = self@;
        let ghost kk = keys@[best_j as int]@;
        let _ = self.move_value(k, &rkey);
        proof {
            assert(self@ == pre.remove(kk).insert(running_key_view(now_ts, nm@), pre[kk]));
            assert forall|k2: KeyView| #[trigger] due_pending(pre, now_ts, k2) implies task_decode(
                kk.name,
            ).unwrap().0 <= task_decode(k2.name).unwrap().0 by {
                assert(scope_starts_with(k2.scope, pending_scope_view()));
                let j2 = choose|j2: int| 0 <= j2 < keys@.len() && (#[trigger] keys@[j2])@ == k2;
            }
        }
        let rt = RunningTask { name: nm, timestamp: now_ts, value };
        proof {
            assert(claim_witness(old(self)@, self@, now_ts, kk, rt.name@, rt.timestamp, rt.value));
            assert(exists|k2: KeyView|
                claim_witness(old(self)@, self@, now_ts, k2, rt.name@, rt.timestamp, rt.value));
            assert(Some(rt) matches Some(rt2) ==> rt2 == rt);
            assert(claim_spec(old(self)@, self@, Some(rt), now_ts));
        }
        Ok(Some(rt))
    }

    /// Claims the due pending task with the least scheduled time, as of the
    /// current time.
    pub fn claim_scheduled_pending_task(&mut self) -> (r: Result<Option<RunningTask>, Error>)
        requires
            old(self).wf(),
        ensures
            final(self).wf(),
            final(self).ns() == old(self).ns(),
            r is Ok,
            r matches Ok(o) ==> exists|t: u64| #[trigger] claim_spec(old(self)@, final(self)@, o, t),
    {
        let t = now();
        let r = self.claim_scheduled_pending_task_at(t);
        proof {
            if r is Ok {
                assert(claim_spec(old(self)@, self@, r.unwrap(), t));
            }
        }
        r
    }

    /// Deletes a claimed task; fails when the key is not present.
    pub fn finish_running_task(&mut self, running: &Key) -> (r: Result<(), Error>)
        requires
            old(self).wf(),
        ensures
            final(self).wf(),
            final(self).ns() == old(self).ns(),
            r is Ok <==> old(self)@.dom().contains(running@),
            old(self)@.dom().contains(running@) ==> r == Ok::<(), Error>(()) && final(self)@ == old(
                self,
            )@.remove(running@),
            !old(self)@.dom().contains(running@) ==> (r matches Err(e) && e matches Error::Other(_))
                && final(self)@ == old(self)@,
    {
        let present = match self.has(running) {
            Ok(b) => b,
            Err(e) => {
                proof {
                    assert(false);
                }
                return Err(e);
            },
        };
        if present {
            self.delete(running)
        } else {
            Err(Error::Other(String::from_str("cannot finish a task that is not running")))
        }
    }

    /// Moves a claimed task back to the pending scope under the given
    /// timestamp. Fails when the key name does not decode as a task, or when
    /// the key is not present.
    pub fn reschedule_running_task_at(&mut self, running: &Key, ts: u64) -> (r: Result<(), Error>)
        requires
            old(self).wf(),
        ensures
            final(self).wf(),
            final(self).ns() == old(self).ns(),
            task_decode(running@.name) is None ==> r == Err::<(), Error>(Error::InvalidKey)
                && final(self)@ == old(self)@,
            task_decode(running@.name) is Some && !old(self)@.dom().contains(running@) ==> r
                == Err::<(), Error>(Error::UnknownKey) && final(self)@ == old(self)@,
            task_decode(running@.name) is Some && old(self)@.dom().contains(running@) ==> r
                == Ok::<(), Error>(()) && final(self)@ == old(self)@.remove(running@).insert(
                pending_key_view(ts, task_decode(running@.name).unwrap().1),
                old(self)@[running@],
            ),
    {
        let nm = match decode_task_name(running.name()) {
            Some((_old_ts, nm)) => nm,
            None => {
                return Err(Error::InvalidKey);
            },
        };
        let pkey = pending_key(ts, &nm);
        self.move_value(running, &pkey)
    }

    /// Moves a claimed task back to the pending scope under the given
    /// timestamp, or under the current time when none is given.
    pub fn reschedule_running_task(&mut self, running: &Key, timestamp: Option<u64>) -> (r: Result<
        (),
        Error,
    >)
        requires
            old(self).wf(),
        ensures
            final(self).wf(),
            final(self).ns() == old(self).ns(),
            task_decode(running@.name) is None ==> r == Err::<(), Error>(Error::InvalidKey)
                && final(self)@ == old(self)@,
            task_decode(running@.name) is Some && !old(self)@.dom().contains(running@) ==> r
                == Err::<(), Error>(Error::UnknownKey) && final(self)@ == old(self)@,
            task_decode(running@.name) is Some && old(self)@.dom().contains(running@) ==> r
                == Ok::<(), Error>(()) && (exists|t: u64|
                final(self)@ == old(self)@.remove(running@).insert(
                    pending_key_view(t, task_decode(running@.name).unwrap().1),
                    old(self)@[running@],
                )),
            timestamp matches Some(t) ==> (task_decode(running@.name) is Some && old(
                self,
            )@.dom().contains(running@) ==> final(self)@ == old(self)@.remove(running@).insert(
                pending_key_view(t, task_decode(running@.name).unwrap().1),
                old(self)@[running@],
            )),
    {
        let ts = match timestamp {
            Some(t) => t,
            None => now(),
        };
        self.reschedule_running_task_at(running, ts)
    }

    fn resched_step(&mut self, k: &Key, rs: &Scope, now_ts: u64, threshold: u64)
        requires
            old(self).wf(),
            rs@ == running_scope_view(),
        ensures
            final(self).wf(),
            final(self).ns() == old(self).ns(),
            !(overdue_name(threshold, k@) && old(self)@.dom().contains(k@)) ==> final(self)@ == old(
                self,
            )@,
            (overdue_name(threshold, k@) && old(self)@.dom().contains(k@)) ==> final(self)@ == old(
                self,
            )@.remove(k@).insert(resched_target(now_ts, k@), old(self)@[k@]),
    {
        if k.scope().eq(rs) {
            match decode_task_name(k.name()) {
                Some((ts, nm)) => {
                    if ts <= threshold {
                        proof {
                            assert(overdue_name(threshold, k@));
                            assert(resched_target(now_ts, k@) == pending_key_view(now_ts, nm@));
                        }
                        let pkey = pending_key(now_ts, &nm);
                        let _ = self.move_value(k, &pkey);
                    } else {
                        proof {
                            assert(!overdue_name(threshold, k@));
                        }
                    }
                },
                None => {
                    proof {
                        assert(!overdue_name(threshold, k@));
                    }
                },
            }
        } else {
            proof {
                assert(!overdue_name(threshold, k@));
            }
        }
    }

    /// Sends every claimed task whose claim time is not after `threshold`
    /// back to the pending scope under time `now_ts`.
    #[verifier::spinoff_prover]
    #[verifier::rlimit(100)]
    pub fn reschedule_long_running_tasks_at(&mut self, now_ts: u64, threshold: u64) -> (r: Result<
        (),
        Error,
    >)
        requires
            old(self).wf(),
        ensures
            final(self).wf(),
            final(self).ns() == old(self).ns(),
            r == Ok::<(), Error>(()),
            resched_spec(old(self)@, final(self)@, now_ts, threshold),
    {
        let ghost before = self@;
        let rs = running_scope();
        let keys = match self.list_keys(&rs) {
            Ok(keys) => keys,
            Err(e) => {
                proof {
                    assert(false);
                }
                return Err(e);
            },
        };
        let mut j: usize = 0;
        while j < keys.len()
            invariant
                self.wf(),
                self.ns() == old(self).ns(),
                rs@ == running_scope_view(),
                0 <= j <= keys@.len(),
                crate::store::listed_keys_in_scope(before, running_scope_view(), keys@),
                crate::store::lists_all_keys(before, running_scope_view(), keys@),
                forall|j2: int, l2: int| 0 <= j2 < l2 < keys@.len() ==> keys@[j2]@ != keys@[l2]@,
                forall|j2: int|
                    0 <= j2 < j && overdue_name(threshold, (#[trigger] keys@[j2])@)
                        ==> !self@.dom().contains(keys@[j2]@),
                forall|j2: int|
                    j <= j2 < keys@.len() && overdue_name(threshold, (#[trigger] keys@[j2])@)
                        ==> self@.dom().contains(keys@[j2]@) && self@[keys@[j2]@] == before[keys@[j2]@],
                forall|k: KeyView|
                    #[trigger] before.dom().contains(k) && !overdue_name(threshold, k)
                        ==> self@.dom().contains(k),
                forall|k: KeyView|
                    #[trigger] self@.dom().contains(k) ==> before.dom().contains(k) || (exists|
                        j2: int,
                    | 0 <= j2 < j && overdue_name(threshold, (#[trigger] keys@[j2])@) && k
                        == resched_target(now_ts, keys@[j2]@)),
                forall|k: KeyView|
                    #[trigger] self@.dom().contains(k) && !(exists|j2: int|
                        0 <= j2 < j && overdue_name(threshold, (#[trigger] keys@[j2])@) && k
                            == resched_target(now_ts, keys@[j2]@)) ==> self@[k] == before[k],
                forall|j2: int|
                    0 <= j2 < j && overdue_name(threshold, (#[trigger] keys@[j2])@)
                        ==> self@.dom().contains(resched_target(now_ts, keys@[j2]@)) && (exists|
                        j3: int,
                    | 0 <= j3 < j && overdue_name(threshold, (#[trigger] keys@[j3])@)
                        && resched_target(now_ts, keys@[j3]@) == resched_target(now_ts, keys@[j2]@)
                        && self@[resched_target(now_ts, keys@[j2]@)] == before[keys@[j3]@]),
            decreases keys@.len() - j,
        {
            let ghost prev = self@;
            self.resched_step(&keys[j], &rs, now_ts, threshold);
            proof {
                lemma_scopes_distinct();
                let kj = keys@[j as int]@;
                if overdue_name(threshold, kj) {
                    lemma_resched_step_maintain(
                        before,
                        prev,
                        self@,
                        keys@,
                        j as int,
                        now_ts,
                        threshold,
                    );
                }
            }
            j += 1;
        }
        proof {
            lemma_scopes_distinct();
            lemma_resched_finish(before, self@, keys@, now_ts, threshold);
        }
        Ok(())
    }

    /// Sends every claimed task that has run longer than `reschedule_after`
    /// seconds, or longer than the default when none is given, back to the
    /// pending scope under the current time.
    pub fn reschedule_long_running_tasks(&mut self, reschedule_after: Option<u64>) -> (r: Result<
        (),
        Error,
    >)
        requires
            old(self).wf(),
        ensures
            final(self).wf(),
            final(self).ns() == old(self).ns(),
            r == Ok::<(), Error>(()),
            exists|n: u64, t: u64| resched_spec(old(self)@, final(self)@, n, t),
    {
        let after = match reschedule_after {
            Some(a) => a,
            None => RESCHEDULE_AFTER_SECS,
        };
        let n = now();
        let threshold = n.saturating_sub(after);
        let r = self.reschedule_long_running_tasks_at(n, threshold);
        proof {
            assert(resched_spec(old(self)@, self@, n, threshold));
        }
        r
    }
}

#[verifier::spinoff_prover]
proof fn lemma_resched_finish(
    before: Map<KeyView, Value>,
    cur: Map<KeyView, Value>,
    keys: Seq<Key>,
    now_ts: u64,
    threshold: u64,
)
    requires
        crate::store::listed_keys_in_scope(before, running_scope_view(), keys),
        crate::store::lists_all_keys(before, running_scope_view(), keys),
        forall|j2: int|
            0 <= j2 < keys.len() && overdue_name(threshold, (#[trigger] keys[j2])@)
                ==> !cur.dom().contains(keys[j2]@),
        forall|k: KeyView|
            #[trigger] before.dom().contains(k) && !overdue_name(threshold, k)
                ==> cur.dom().contains(k),
        forall|k: KeyView|
            #[trigger] cur.dom().contains(k) ==> before.dom().contains(k) || (exists|j2: int|
                0 <= j2 < keys.len() && overdue_name(threshold, (#[trigger] keys[j2])@) && k
                    == resched_target(now_ts, keys[j2]@)),
        forall|k: KeyView|
            #[trigger] cur.dom().contains(k) && !(exists|j2: int|
                0 <= j2 < keys.len() && overdue_name(threshold, (#[trigger] keys[j2])@) && k
                    == resched_target(now_ts, keys[j2]@)) ==> cur[k] == before[k],
        forall|j2: int|
            0 <= j2 < keys.len() && overdue_name(threshold, (#[trigger] keys[j2])@)
                ==> cur.dom().contains(resched_target(now_ts, keys[j2]@)) && (exists|j3: int|
                0 <= j3 < keys.len() && overdue_name(threshold, (#[trigger] keys[j3])@)
                    && resched_target(now_ts, keys[j3]@) == resched_target(now_ts, keys[j2]@)
                    && cur[resched_target(now_ts, keys[j2]@)] == before[keys[j3]@]),
    ensures
        resched_spec(before, cur, now_ts, threshold),
{
    lemma_scopes_distinct();
    assert forall|k: KeyView|
        #[trigger] before.dom().contains(k) && !overdue_running(before, threshold, k) implies
    cur.dom().contains(k) by {
        assert(!overdue_name(threshold, k));
    }
    assert forall|k: KeyView|
        #[trigger] overdue_running(before, threshold, k) implies !cur.dom().contains(k)
        && cur.dom().contains(resched_target(now_ts, k)) by {
        assert(scope_starts_with(k.scope, running_scope_view()));
        let j2 = choose|j2: int| 0 <= j2 < keys.len() && (#[trigger] keys[j2])@ == k;
    }
    assert forall|k: KeyView| #[trigger] cur.dom().contains(k) implies (before.dom().contains(k)
        && !overdue_running(before, threshold, k)) || (exists|k2: KeyView|
        #[trigger] overdue_running(before, threshold, k2) && k == resched_target(now_ts, k2)) by {
        if exists|j2: int|
            0 <= j2 < keys.len() && overdue_name(threshold, (#[trigger] keys[j2])@) && k
                == resched_target(now_ts, keys[j2]@) {
            let j2 = choose|j2: int|
                0 <= j2 < keys.len() && overdue_name(threshold, (#[trigger] keys[j2])@) && k
                    == resched_target(now_ts, keys[j2]@);
            assert(overdue_running(before, threshold, keys[j2]@) && k == resched_target(
                now_ts,
                keys[j2]@,
            ));
        } else {
            if overdue_running(before, threshold, k) {
                let j2 = choose|j2: int| 0 <= j2 < keys.len() && (#[trigger] keys[j2])@ == k;
            }
        }
    }
    assert forall|k: KeyView|
        #[trigger] cur.dom().contains(k) && !(exists|k2: KeyView|
            #[trigger] overdue_running(before, threshold, k2) && k == resched_target(now_ts, k2))
            implies cur[k] == before[k] by {
        if exists|j2: int|
            0 <= j2 < keys.len() && overdue_name(threshold, (#[trigger] keys[j2])@) && k
                == resched_target(now_ts, keys[j2]@) {
            let j2 = choose|j2: int|
                0 <= j2 < keys.len() && overdue_name(threshold, (#[trigger] keys[j2])@) && k
                    == resched_target(now_ts, keys[j2]@);
            assert(overdue_running(before, threshold, keys[j2]@) && k == resched_target(
                now_ts,
                keys[j2]@,
            ));
        }
    }
    assert forall|k: KeyView|
        #[trigger] cur.dom().contains(k) && (exists|k2: KeyView|
            #[trigger] overdue_running(before, threshold, k2) && k == resched_target(now_ts, k2))
            implies exists|k2: KeyView|
        overdue_running(before, threshold, k2) && k == resched_target(now_ts, k2) && cur[k]
            == before[k2] by {
        let kk = choose|k2: KeyView|
            #[trigger] overdue_running(before, threshold, k2) && k == resched_target(now_ts, k2);
        assert(scope_starts_with(kk.scope, running_scope_view()));
        let j2 = choose|j2: int| 0 <= j2 < keys.len() && (#[trigger] keys[j2])@ == kk;
        assert(overdue_name(threshold, keys[j2]@));
        let j3 = choose|j3: int|
            0 <= j3 < keys.len() && overdue_name(threshold, (#[trigger] keys[j3])@)
                && resched_target(now_ts, keys[j3]@) == resched_target(now_ts, keys[j2]@) && cur[
            resched_target(now_ts, keys[j2]@)] == before[keys[j3]@];
        assert(overdue_running(before, threshold, keys[j3]@) && k == resched_target(
            now_ts,
            keys[j3]@,
        ) && cur[k] == before[keys[j3]@]);
    }
}

#[verifier::spinoff_prover]
proof fn lemma_resched_step_maintain(
    before: Map<KeyView, Value>,
    prev: Map<KeyView, Value>,
    cur: Map<KeyView, Value>,
    keys: Seq<Key>,
    j: int,
    now_ts: u64,
    threshold: u64,
)
    requires
        0 <= j < keys.len(),
        overdue_name(threshold, keys[j]@),
        prev.dom().contains(keys[j]@),
        prev[keys[j]@] == before[keys[j]@],
        cur == prev.remove(keys[j]@).insert(resched_target(now_ts, keys[j]@), prev[keys[j]@]),
        forall|j2: int|
            0 <= j2 < j && overdue_name(threshold, (#[trigger] keys[j2])@)
                ==> prev.dom().contains(resched_target(now_ts, keys[j2]@)) && (exists|j3: int|
                0 <= j3 < j && overdue_name(threshold, (#[trigger] keys[j3])@) && resched_target(
                    now_ts,
                    keys[j3]@,
                ) == resched_target(now_ts, keys[j2]@) && prev[resched_target(now_ts, keys[j2]@)]
                    == before[keys[j3]@]),
    ensures
        forall|j2: int|
            0 <= j2 < j + 1 && overdue_name(threshold, (#[trigger] keys[j2])@)
                ==> cur.dom().contains(resched_target(now_ts, keys[j2]@)) && (exists|j3: int|
                0 <= j3 < j + 1 && overdue_name(threshold, (#[trigger] keys[j3])@)
                    && resched_target(now_ts, keys[j3]@) == resched_target(now_ts, keys[j2]@)
                    && cur[resched_target(now_ts, keys[j2]@)] == before[keys[j3]@]),
{
    lemma_scopes_distinct();
    let kj = keys[j]@;
    let tkj = resched_target(now_ts, kj);
    assert(tkj.scope == pending_scope_view());
    assert(kj.scope == running_scope_view());
    assert(tkj != kj);
    assert forall|j2: int|
        0 <= j2 < j + 1 && overdue_name(threshold, (#[trigger] keys[j2])@) implies
    cur.dom().contains(resched_target(now_ts, keys[j2]@)) && (exists|j3: int|
        0 <= j3 < j + 1 && overdue_name(threshold, (#[trigger] keys[j3])@) && resched_target(
            now_ts,
            keys[j3]@,
        ) == resched_target(now_ts, keys[j2]@) && cur[resched_target(now_ts, keys[j2]@)]
            == before[keys[j3]@]) by {
        let t2 = resched_target(now_ts, keys[j2]@);
        if t2 == tkj {
            assert(cur.dom().contains(t2));
            assert(cur[t2] == before[kj]);
            assert(0 <= j < j + 1 && overdue_name(threshold, keys[j]@) && resched_target(
                now_ts,
                keys[j]@,
            ) == t2 && cur[t2] == before[keys[j]@]);
        } else {
            assert(j2 < j);
            let j3 = choose|j3: int|
                0 <= j3 < j && overdue_name(threshold, (#[trigger] keys[j3])@) && resched_target(
                    now_ts,
                    keys[j3]@,
                ) == resched_target(now_ts, keys[j2]@) && prev[resched_target(now_ts, keys[j2]@)]
                    == before[keys[j3]@];
            assert(t2 != kj);
            assert(cur[t2] == prev[t2]);
            assert(cur.dom().contains(t2));
            assert(0 <= j3 < j + 1 && overdue_name(threshold, keys[j3]@) && resched_target(
                now_ts,
                keys[j3]@,
            ) == t2 && cur[t2] == before[keys[j3]@]);
        }
    }
}

} // verus!
