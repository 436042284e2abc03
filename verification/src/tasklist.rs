//! The task store: owns the collection of tasks, resolves id prefixes,
//! runs the maintenance passes, and carries every mutating operation.

use crate::task::{
    distinct_seq, task_le, task_le_exec, task_wf, ts_plus, ts_wf, Task, TaskStatus, TaskView,
    Timestamp, TS_MIN_SECS,
};
use vstd::prelude::*;
use vstd::string::StringExecFns;

verus! {

/// A task's id starts with the given prefix.
pub open spec fn matches_prefix(t: TaskView, p: Seq<char>) -> bool {
    p.len() <= t.id.len() && t.id.subrange(0, p.len() as int) == p
}

/// How many tasks of the sequence match the prefix.
pub open spec fn count_matches(s: Seq<TaskView>, p: Seq<char>) -> nat
    decreases s.len(),
{
    if s.len() == 0 {
        0
    } else {
        count_matches(s.drop_last(), p) + (if matches_prefix(s.last(), p) {
            1nat
        } else {
            0
        })
    }
}

/// A match makes the count positive.
pub proof fn lemma_match_implies_count(s: Seq<TaskView>, p: Seq<char>, i: int)
    requires
        0 <= i < s.len(),
        matches_prefix(s[i], p),
    ensures
        count_matches(s, p) >= 1,
    decreases s.len(),
{
    if i < s.len() - 1 {
        lemma_match_implies_count(s.drop_last(), p, i);
    }
}

/// Two matches at distinct positions make the count at least two.
pub proof fn lemma_two_matches(s: Seq<TaskView>, p: Seq<char>, i: int, j: int)
    requires
        0 <= i < j < s.len(),
        matches_prefix(s[i], p),
        matches_prefix(s[j], p),
    ensures
        count_matches(s, p) >= 2,
    decreases s.len(),
{
    if j == s.len() - 1 {
        lemma_match_implies_count(s.drop_last(), p, i);
    } else {
        lemma_two_matches(s.drop_last(), p, i, j);
    }
}

/// A positive count yields a match.
pub proof fn lemma_count_implies_match(s: Seq<TaskView>, p: Seq<char>)
    requires
        count_matches(s, p) >= 1,
    ensures
        exists|i: int| 0 <= i < s.len() && matches_prefix(#[trigger] s[i], p),
    decreases s.len(),
{
    if matches_prefix(s.last(), p) {
        assert(matches_prefix(s[s.len() - 1], p));
    } else {
        lemma_count_implies_match(s.drop_last(), p);
        let i = choose|i: int|
            0 <= i < s.len() - 1 && matches_prefix(#[trigger] s.drop_last()[i], p);
        assert(matches_prefix(s[i], p));
    }
}

/// Resolution of a prefix: the index of the unique matching task, if the
/// prefix is long enough and matches exactly one task; nothing otherwise.
pub open spec fn spec_resolve(s: Seq<TaskView>, p: Seq<char>, minlen: nat) -> Option<int> {
    if p.len() >= minlen && count_matches(s, p) == 1 {
        Some(choose|i: int| 0 <= i < s.len() && matches_prefix(#[trigger] s[i], p))
    } else {
        None
    }
}

/// What spec_resolve returns when it returns something.
pub proof fn lemma_resolve_some(s: Seq<TaskView>, p: Seq<char>, minlen: nat)
    requires
        spec_resolve(s, p, minlen) is Some,
    ensures
        ({
            let i = spec_resolve(s, p, minlen)->0;
            0 <= i < s.len() && matches_prefix(s[i], p)
        }),
{
    lemma_count_implies_match(s, p);
}

/// A sequence of tasks holds the given id.
pub open spec fn contains_id(s: Seq<TaskView>, id: Seq<char>) -> bool {
    exists|i: int| 0 <= i < s.len() && (#[trigger] s[i]).id == id
}

/// A well-formed store: every task is well-formed and no id appears twice.
pub open spec fn store_wf(s: Seq<TaskView>) -> bool {
    &&& forall|i: int| 0 <= i < s.len() ==> task_wf(#[trigger] s[i])
    &&& forall|i: int, j: int| 0 <= i < j < s.len() ==> s[i].id != s[j].id
}

/// Which of a sequence of freshly loaded tasks are admitted into a store:
/// the well-formed ones whose id was not already taken by an earlier one.
pub open spec fn admit_tasks(s: Seq<TaskView>) -> Seq<TaskView>
    decreases s.len(),
{
    if s.len() == 0 {
        Seq::empty()
    } else {
        let prev = admit_tasks(s.drop_last());
        if task_wf(s.last()) && !contains_id(prev, s.last().id) {
            prev.push(s.last())
        } else {
            prev
        }
    }
}

/// The store of tasks.
pub struct TaskList {
    tasks: Vec<Task>,
    min_prefix: usize,
}

impl View for TaskList {
    type V = Seq<TaskView>;

    closed spec fn view(&self) -> Seq<TaskView> {
        self.tasks.deep_view()
    }
}

/// Does a string start with the given prefix (character-wise)?
pub fn str_starts_with(id: &str, p: &str) -> (b: bool)
    ensures
        b == (p@.len() <= id@.len() && id@.subrange(0, p@.len() as int) == p@),
{
    let plen = p.unicode_len();
    let ilen = id.unicode_len();
    if plen > ilen {
        return false;
    }
    let mut i: usize = 0;
    while i < plen
        invariant
            0 <= i <= plen,
            plen <= ilen,
            plen == p@.len(),
            ilen == id@.len(),
            forall|k: int| 0 <= k < i ==> id@[k] == p@[k],
        decreases plen - i,
    {
        let ca = id.get_char(i);
        let cb = p.get_char(i);
        if ca != cb {
            assert(id@.subrange(0, plen as int)[i as int] != p@[i as int]);
            return false;
        }
        i += 1;
    }
    assert(id@.subrange(0, plen as int) =~= p@);
    true
}

/// Is a task's id matched by the prefix?
fn task_matches(t: &Task, p: &str) -> (b: bool)
    ensures
        b == matches_prefix(t@, p@),
{
    str_starts_with(t.id.as_str(), p)
}

impl TaskList {
    /// The store is well-formed.
    pub open spec fn wf(&self) -> bool {
        store_wf(self@)
    }

    /// The configured minimum prefix length for id resolution.
    pub closed spec fn min_prefix_spec(&self) -> nat {
        self.min_prefix as nat
    }

    /// An empty store that accepts prefixes of any length.
    pub fn new() -> (r: TaskList)
        ensures
            r@ == Seq::<TaskView>::empty(),
            r.wf(),
            r.min_prefix_spec() == 0,
    {
        let r = TaskList { tasks: Vec::new(), min_prefix: 0 };
        assert(r@ =~= Seq::<TaskView>::empty());
        r
    }

    /// Sets the minimum prefix length: shorter prefixes are treated as
    /// ambiguous by every resolving operation.
    pub fn set_min_prefix(&mut self, n: usize)
        ensures
            final(self)@ == old(self)@,
            final(self).min_prefix_spec() == n,
            old(self).wf() ==> final(self).wf(),
    {
        self.min_prefix = n;
    }

    /// A store made of the given tasks: malformed tasks and tasks whose
    /// id was already taken are dropped, everything else is kept in order.
    pub fn from_tasks(tasks: Vec<Task>) -> (r: TaskList)
        ensures
            r@ == admit_tasks(tasks.deep_view()),
            r.wf(),
            r.min_prefix_spec() == 0,
    {
        let mut r = TaskList { tasks: Vec::new(), min_prefix: 0 };
        let ghost all = tasks.deep_view();
        let mut i: usize = 0;
        assert(r@ =~= admit_tasks(all.take(0)));
        while i < tasks.len()
            invariant
                0 <= i <= tasks.len(),
                all == tasks.deep_view(),
                r@ == admit_tasks(all.take(i as int)),
                r.wf(),
                r.min_prefix == 0,
            decreases tasks.len() - i,
        {
            let t = &tasks[i];
            assert(all.take(i + 1).drop_last() =~= all.take(i as int));
            assert(all.take(i + 1).last() == t@);
            if task_wf_exec(t) && !r.holds_id(t.id.as_str()) {
                let dup = t.duplicate();
                r.tasks.push(dup);
                assert(r@ =~= admit_tasks(all.take(i as int)).push(t@));
            }
            i += 1;
        }
        assert(all.take(tasks.len() as int) =~= all);
        r
    }

    /// Does some task carry exactly this id?
    fn holds_id(&self, id: &str) -> (b: bool)
        ensures
            b == contains_id(self@, id@),
    {
        let mut i: usize = 0;
        let mut found = false;
        while i < self.tasks.len()
            invariant
                0 <= i <= self.tasks.len(),
                found == (exists|k: int| 0 <= k < i && (#[trigger] self@[k]).id == id@),
            decreases self.tasks.len() - i,
        {
            if str_eq(self.tasks[i].id.as_str(), id) {
                found = true;
                assert(self@[i as int].id == id@);
            } else {
                assert(self@[i as int].id != id@);
            }
            i += 1;
        }
        found
    }

    /// The number of tasks in the store.
    pub fn num_tasks(&self) -> (n: usize)
        ensures
            n == self@.len(),
    {
        self.tasks.len()
    }

    /// Resolves a prefix: the index of the unique matching task, or
    /// nothing when the prefix is too short, matches no task, or matches
    /// several.
    fn resolve(&self, prefix: &str) -> (r: Option<usize>)
        ensures
            match r {
                Some(i) => spec_resolve(self@, prefix@, self.min_prefix_spec()) == Some(i as int),
                None => spec_resolve(self@, prefix@, self.min_prefix_spec()) is None,
            },
    {
        if prefix.unicode_len() < self.min_prefix {
            return None;
        }
        let ghost s = self@;
        let mut count: usize = 0;
        let mut found: usize = 0;
        let mut i: usize = 0;
        while i < self.tasks.len()
            invariant
                0 <= i <= self.tasks.len(),
                s == self@,
                s.len() == self.tasks.len(),
                count == count_matches(s.take(i as int), prefix@),
                count > 0 ==> found < i && matches_prefix(s[found as int], prefix@),
            decreases self.tasks.len() - i,
        {
            assert(s.take(i + 1).drop_last() =~= s.take(i as int));
            assert(s.take(i + 1).last() == s[i as int]);
            if task_matches(&self.tasks[i], prefix) {
                if count == 0 {
                    found = i;
                }
                assert(count_matches(s.take(i as int), prefix@) <= s.take(i as int).len())
                    by {
                    lemma_count_le_len(s.take(i as int), prefix@);
                };
                count += 1;
            }
            i += 1;
        }
        assert(s.take(self.tasks.len() as int) =~= s);
        if count == 1 {
            proof {
                let c = choose|k: int| 0 <= k < s.len() && matches_prefix(#[trigger] s[k], prefix@);
                lemma_count_implies_match(s, prefix@);
                if c < found as int {
                    lemma_two_matches(s, prefix@, c, found as int);
                } else if c > found as int {
                    lemma_two_matches(s, prefix@, found as int, c);
                }
            }
            Some(found)
        } else {
            None
        }
    }

    /// How many tasks the prefix matches, regardless of the minimum
    /// prefix length.
    pub fn match_count(&self, prefix: &str) -> (n: usize)
        ensures
            n == count_matches(self@, prefix@),
    {
        let ghost s = self@;
        let mut count: usize = 0;
        let mut i: usize = 0;
        while i < self.tasks.len()
            invariant
                0 <= i <= self.tasks.len(),
                s == self@,
                s.len() == self.tasks.len(),
                count == count_matches(s.take(i as int), prefix@),
            decreases self.tasks.len() - i,
        {
            assert(s.take(i + 1).drop_last() =~= s.take(i as int));
            assert(s.take(i + 1).last() == s[i as int]);
            if task_matches(&self.tasks[i], prefix) {
                assert(count_matches(s.take(i as int), prefix@) <= s.take(i as int).len())
                    by {
                    lemma_count_le_len(s.take(i as int), prefix@);
                };
                count += 1;
            }
            i += 1;
        }
        assert(s.take(self.tasks.len() as int) =~= s);
        count
    }

    /// A copy of the uniquely resolved task, or nothing when the prefix
    /// does not resolve.
    pub fn copy_task(&self, prefix: &str) -> (r: Option<Task>)
        ensures
            match r {
                Some(t) => {
                    let res = spec_resolve(self@, prefix@, self.min_prefix_spec());
                    res is Some && t@ == self@[res->0]
                },
                None => spec_resolve(self@, prefix@, self.min_prefix_spec()) is None,
            },
    {
        match self.resolve(prefix) {
            Some(i) => {
                proof {
                    lemma_resolve_some(self@, prefix@, self.min_prefix_spec());
                }
                Some(self.tasks[i].duplicate())
            },
            None => None,
        }
    }

    /// Adds a task. A task whose id is already present is not added; the
    /// id of the given task is returned either way.
    pub fn add_task(&mut self, task: Task) -> (id: String)
        requires
            old(self).wf(),
            task_wf(task@),
        ensures
            final(self).wf(),
            id@ == task@.id,
            final(self).min_prefix_spec() == old(self).min_prefix_spec(),
            contains_id(old(self)@, task@.id) ==> final(self)@ == old(self)@,
            !contains_id(old(self)@, task@.id) ==> final(self)@ == old(self)@.push(task@),
    {
        let id = task.id.clone();
        if !self.holds_id(task.id.as_str()) {
            self.tasks.push(task);
            assert(final(self)@ =~= old(self)@.push(task@));
        }
        id
    }

    /// Removes the uniquely resolved task; removes nothing when the
    /// prefix does not resolve. Returns the number of removed tasks.
    pub fn remove_task(&mut self, prefix: &str) -> (n: usize)
        requires
            old(self).wf(),
        ensures
            final(self).wf(),
            final(self).min_prefix_spec() == old(self).min_prefix_spec(),
            ({
                let res = spec_resolve(old(self)@, prefix@, old(self).min_prefix_spec());
                match res {
                    Some(i) => n == 1 && final(self)@ == old(self)@.remove(i),
                    None => n == 0 && final(self)@ == old(self)@,
                }
            }),
    {
        match self.resolve(prefix) {
            Some(i) => {
                proof {
                    lemma_resolve_some(self@, prefix@, self.min_prefix_spec());
                }
                self.tasks.remove(i);
                assert(final(self)@ =~= old(self)@.remove(i as int));
                1
            },
            None => 0,
        }
    }

    /// Replaces the task at a known position.
    fn replace_task(&mut self, i: usize, t: Task)
        requires
            i < old(self)@.len(),
        ensures
            final(self)@ == old(self)@.update(i as int, t@),
            final(self).min_prefix_spec() == old(self).min_prefix_spec(),
            final(self).tasks@.len() == old(self).tasks@.len(),
    {
        assert(self.tasks.deep_view().len() == self.tasks@.len());
        self.tasks.remove(i);
        self.tasks.insert(i, t);
        assert(final(self)@ =~= old(self)@.update(i as int, t@));
    }
}

/// The task with its status replaced and everything else kept.
pub open spec fn with_status(t: TaskView, st: TaskStatus) -> TaskView {
    TaskView { status: st, ..t }
}

/// The task put to sleep until the given instant.
pub open spec fn suspended(t: TaskView, wake: Timestamp) -> TaskView {
    TaskView { status: TaskStatus::Sleeping, wake_at: Some(wake), ..t }
}

/// The task blocked on one more id; an id it already waits on is not
/// added twice.
pub open spec fn blocked_with(t: TaskView, bid: Seq<char>) -> TaskView {
    TaskView {
        status: TaskStatus::Blocked,
        blocked_by: if t.blocked_by.contains(bid) {
            t.blocked_by
        } else {
            t.blocked_by.push(bid)
        },
        ..t
    }
}

/// Updating one task without touching its id keeps the store well-formed.
proof fn lemma_wf_update_same_id(s: Seq<TaskView>, i: int, t: TaskView)
    requires
        store_wf(s),
        0 <= i < s.len(),
        t.id == s[i].id,
        task_wf(t),
    ensures
        store_wf(s.update(i, t)),
{
}

impl TaskList {
    /// Marks the uniquely resolved task completed; its dependency list
    /// and wake time are left as they are, though they no longer matter.
    /// Touches nothing when the prefix does not resolve.
    pub fn complete_task(&mut self, prefix: &str) -> (n: usize)
        requires
            old(self).wf(),
        ensures
            final(self).wf(),
            final(self).min_prefix_spec() == old(self).min_prefix_spec(),
            ({
                let res = spec_resolve(old(self)@, prefix@, old(self).min_prefix_spec());
                match res {
                    Some(i) => n == 1 && final(self)@ == old(self)@.update(
                        i,
                        with_status(old(self)@[i], TaskStatus::Completed),
                    ),
                    None => n == 0 && final(self)@ == old(self)@,
                }
            }),
    {
        self.set_status(prefix, TaskStatus::Completed)
    }

    /// Marks the uniquely resolved task active. A completed task is
    /// terminal and is left unchanged. Touches nothing when the prefix
    /// does not resolve.
    pub fn start_task(&mut self, prefix: &str) -> (n: usize)
        requires
            old(self).wf(),
        ensures
            final(self).wf(),
            final(self).min_prefix_spec() == old(self).min_prefix_spec(),
            ({
                let res = spec_resolve(old(self)@, prefix@, old(self).min_prefix_spec());
                match res {
                    Some(i) => {
                        if old(self)@[i].status is Completed {
                            n == 0 && final(self)@ == old(self)@
                        } else {
                            n == 1 && final(self)@ == old(self)@.update(
                                i,
                                with_status(old(self)@[i], TaskStatus::Active),
                            )
                        }
                    },
                    None => n == 0 && final(self)@ == old(self)@,
                }
            }),
    {
        match self.resolve(prefix) {
            Some(i) => {
                proof {
                    lemma_resolve_some(self@, prefix@, self.min_prefix_spec());
                }
                if self.tasks[i].status == TaskStatus::Completed {
                    return 0;
                }
                let mut t = self.tasks[i].duplicate();
                t.status = TaskStatus::Active;
                assert(t@ =~= with_status(old(self)@[i as int], TaskStatus::Active));
                proof {
                    lemma_wf_update_same_id(old(self)@, i as int, t@);
                }
                self.replace_task(i, t);
                1
            },
            None => 0,
        }
    }

    /// Sets the status of the uniquely resolved task.
    fn set_status(&mut self, prefix: &str, st: TaskStatus) -> (n: usize)
        requires
            old(self).wf(),
        ensures
            final(self).wf(),
            final(self).min_prefix_spec() == old(self).min_prefix_spec(),
            ({
                let res = spec_resolve(old(self)@, prefix@, old(self).min_prefix_spec());
                match res {
                    Some(i) => n == 1 && final(self)@ == old(self)@.update(
                        i,
                        with_status(old(self)@[i], st),
                    ),
                    None => n == 0 && final(self)@ == old(self)@,
                }
            }),
    {
        match self.resolve(prefix) {
            Some(i) => {
                proof {
                    lemma_resolve_some(self@, prefix@, self.min_prefix_spec());
                }
                let mut t = self.tasks[i].duplicate();
                t.status = st;
                assert(t@ =~= with_status(old(self)@[i as int], st));
                proof {
                    lemma_wf_update_same_id(old(self)@, i as int, t@);
                }
                self.replace_task(i, t);
                1
            },
            None => 0,
        }
    }

    /// Puts the uniquely resolved task to sleep until `now` shifted by
    /// `dur_secs` seconds; a non-positive shift yields an already expired
    /// sleep. A completed task is terminal and is left unchanged.
    /// Touches nothing when the prefix does not resolve.
    pub fn suspend_task_at(&mut self, prefix: &str, dur_secs: i64, now: Timestamp) -> (n: usize)
        requires
            old(self).wf(),
            ts_wf(now),
        ensures
            final(self).wf(),
            final(self).min_prefix_spec() == old(self).min_prefix_spec(),
            ({
                let res = spec_resolve(old(self)@, prefix@, old(self).min_prefix_spec());
                match res {
                    Some(i) => {
                        if old(self)@[i].status is Completed {
                            n == 0 && final(self)@ == old(self)@
                        } else {
                            n == 1 && final(self)@ == old(self)@.update(
                                i,
                                suspended(old(self)@[i], ts_plus(now, dur_secs as int)),
                            )
                        }
                    },
                    None => n == 0 && final(self)@ == old(self)@,
                }
            }),
    {
        match self.resolve(prefix) {
            Some(i) => {
                proof {
                    lemma_resolve_some(self@, prefix@, self.min_prefix_spec());
                }
                if self.tasks[i].status == TaskStatus::Completed {
                    return 0;
                }
                let wake = now.plus_seconds(dur_secs);
                let mut t = self.tasks[i].duplicate();
                t.status = TaskStatus::Sleeping;
                t.wake_at = Some(wake);
                assert(t@ =~= suspended(old(self)@[i as int], ts_plus(now, dur_secs as int)));
                proof {
                    lemma_wf_update_same_id(old(self)@, i as int, t@);
                }
                self.replace_task(i, t);
                1
            },
            None => 0,
        }
    }

    /// Blocks the task resolved by the first prefix on the task resolved
    /// by the second: the blocker's id joins the blockee's dependency
    /// list and the blockee is marked blocked. A completed blockee is
    /// terminal and is left unchanged. Touches nothing unless both
    /// prefixes resolve.
    pub fn block_task_on(&mut self, blockee_prefix: &str, blocker_prefix: &str) -> (n: usize)
        requires
            old(self).wf(),
        ensures
            final(self).wf(),
            final(self).min_prefix_spec() == old(self).min_prefix_spec(),
            ({
                let ri = spec_resolve(old(self)@, blockee_prefix@, old(self).min_prefix_spec());
                let rj = spec_resolve(old(self)@, blocker_prefix@, old(self).min_prefix_spec());
                if ri is Some && rj is Some {
                    if old(self)@[ri->0].status is Completed {
                        n == 0 && final(self)@ == old(self)@
                    } else {
                        n == 1 && final(self)@ == old(self)@.update(
                            ri->0,
                            blocked_with(old(self)@[ri->0], old(self)@[rj->0].id),
                        )
                    }
                } else {
                    n == 0 && final(self)@ == old(self)@
                }
            }),
    {
        let ri = self.resolve(blockee_prefix);
        let rj = self.resolve(blocker_prefix);
        match (ri, rj) {
            (Some(i), Some(j)) => {
                proof {
                    lemma_resolve_some(self@, blockee_prefix@, self.min_prefix_spec());
                    lemma_resolve_some(self@, blocker_prefix@, self.min_prefix_spec());
                }
                if self.tasks[i].status == TaskStatus::Completed {
                    return 0;
                }
                let blocker_id = self.tasks[j].id.clone();
                let mut t = self.tasks[i].duplicate();
                t.block_on(blocker_id);
                assert(t@ =~= blocked_with(old(self)@[i as int], old(self)@[j as int].id));
                proof {
                    lemma_wf_update_same_id(old(self)@, i as int, t@);
                }
                self.replace_task(i, t);
                1
            },
            _ => 0,
        }
    }
}

/// A sleeping task whose wake time has arrived.
pub open spec fn wake_due(t: TaskView, now: Timestamp) -> bool {
    t.status is Sleeping && t.wake_at is Some && t.wake_at->0.secs <= now.secs
}

/// One step of the wake pass: a due sleeper returns to the backlog and
/// loses its wake time; everything else is untouched.
pub open spec fn wake_one(t: TaskView, now: Timestamp) -> TaskView {
    if wake_due(t, now) {
        TaskView { status: TaskStatus::Backlog, wake_at: None, ..t }
    } else {
        t
    }
}

/// The whole wake pass.
pub open spec fn spec_wake(s: Seq<TaskView>, now: Timestamp) -> Seq<TaskView> {
    Seq::new(s.len(), |i: int| wake_one(s[i], now))
}

/// How many tasks the wake pass wakes.
pub open spec fn wake_count(s: Seq<TaskView>, now: Timestamp) -> nat
    decreases s.len(),
{
    if s.len() == 0 {
        0
    } else {
        wake_count(s.drop_last(), now) + (if wake_due(s.last(), now) {
            1nat
        } else {
            0
        })
    }
}

/// The wake count never exceeds the length.
proof fn lemma_wake_count_le_len(s: Seq<TaskView>, now: Timestamp)
    ensures
        wake_count(s, now) <= s.len(),
    decreases s.len(),
{
    if s.len() > 0 {
        lemma_wake_count_le_len(s.drop_last(), now);
    }
}

/// The ids that can still block another task: the id of every task that
/// is not completed. (A removed task's id is absent from the store
/// altogether.)
pub open spec fn capable_ids(s: Seq<TaskView>) -> Set<Seq<char>> {
    Set::new(
        |id: Seq<char>|
            exists|i: int|
                0 <= i < s.len() && !((#[trigger] s[i]).status is Completed) && s[i].id == id,
    )
}

/// The same ids, listed in store order.
pub open spec fn capable_seq(s: Seq<TaskView>) -> Seq<Seq<char>>
    decreases s.len(),
{
    if s.len() == 0 {
        Seq::empty()
    } else {
        let prev = capable_seq(s.drop_last());
        if !(s.last().status is Completed) {
            prev.push(s.last().id)
        } else {
            prev
        }
    }
}

/// The listed capable ids are exactly the capable set.
proof fn lemma_capable_seq_contains(s: Seq<TaskView>, id: Seq<char>)
    ensures
        capable_seq(s).contains(id) == capable_ids(s).contains(id),
    decreases s.len(),
{
    if s.len() == 0 {
        assert(!capable_ids(s).contains(id));
    } else {
        let prev = s.drop_last();
        lemma_capable_seq_contains(prev, id);
        let last_in = !(s.last().status is Completed) && s.last().id == id;
        assert(capable_seq(s).contains(id) == (capable_seq(prev).contains(id) || last_in)) by {
            let cs = capable_seq(s);
            let cp = capable_seq(prev);
            if !(s.last().status is Completed) {
                assert(cs == cp.push(s.last().id));
                if cp.contains(id) {
                    let k = choose|k: int| 0 <= k < cp.len() && cp[k] == id;
                    assert(cs[k] == id);
                }
                if last_in {
                    assert(cs[cs.len() - 1] == id);
                }
                if cs.contains(id) {
                    let k = choose|k: int| 0 <= k < cs.len() && cs[k] == id;
                    if k < cp.len() {
                        assert(cp[k] == id);
                    } else {
                        assert(id == s.last().id);
                    }
                }
            } else {
                assert(cs == cp);
            }
        }
        assert(capable_ids(s).contains(id) == (capable_ids(prev).contains(id) || last_in)) by {
            if capable_ids(prev).contains(id) {
                let j = choose|j: int|
                    0 <= j < prev.len() && !((#[trigger] prev[j]).status is Completed)
                        && prev[j].id == id;
                assert(!(s[j].status is Completed) && s[j].id == id);
            }
            if last_in {
                assert(!(s[s.len() - 1].status is Completed) && s[s.len() - 1].id == id);
            }
            if capable_ids(s).contains(id) {
                let j = choose|j: int|
                    0 <= j < s.len() && !((#[trigger] s[j]).status is Completed) && s[j].id == id;
                if j < s.len() - 1 {
                    assert(!(prev[j].status is Completed) && prev[j].id == id);
                }
            }
        }
    }
}

/// The dependency entries of a task that still point at a capable id.
pub open spec fn kept_blockers(t: TaskView, cap: Set<Seq<char>>) -> Seq<Seq<char>> {
    t.blocked_by.filter(|b: Seq<char>| cap.contains(b))
}

/// One step of the unblock pass: a blocked task keeps only the capable
/// entries of its dependency list, and returns to the backlog when none
/// is left; everything else is untouched.
pub open spec fn unblock_one(t: TaskView, cap: Set<Seq<char>>) -> TaskView {
    if t.status is Blocked {
        let kept = kept_blockers(t, cap);
        TaskView {
            status: if kept.len() == 0 {
                TaskStatus::Backlog
            } else {
                TaskStatus::Blocked
            },
            blocked_by: kept,
            ..t
        }
    } else {
        t
    }
}

/// The whole unblock pass.
pub open spec fn spec_unblock(s: Seq<TaskView>) -> Seq<TaskView> {
    Seq::new(s.len(), |i: int| unblock_one(s[i], capable_ids(s)))
}

/// How many tasks the unblock pass unblocks, against a fixed capable set.
pub open spec fn unblock_count_rec(s: Seq<TaskView>, cap: Set<Seq<char>>) -> nat
    decreases s.len(),
{
    if s.len() == 0 {
        0
    } else {
        unblock_count_rec(s.drop_last(), cap) + (if s.last().status is Blocked && kept_blockers(
            s.last(),
            cap,
        ).len() == 0 {
            1nat
        } else {
            0
        })
    }
}

/// How many tasks the unblock pass unblocks.
pub open spec fn unblock_count(s: Seq<TaskView>) -> nat {
    unblock_count_rec(s, capable_ids(s))
}

/// The unblock count never exceeds the length.
proof fn lemma_unblock_count_le_len(s: Seq<TaskView>, cap: Set<Seq<char>>)
    ensures
        unblock_count_rec(s, cap) <= s.len(),
    decreases s.len(),
{
    if s.len() > 0 {
        lemma_unblock_count_le_len(s.drop_last(), cap);
    }
}

/// Everything a filter keeps was in the sequence.
proof fn lemma_filter_subset<A>(s: Seq<A>, p: spec_fn(A) -> bool, x: A)
    requires
        s.filter(p).contains(x),
    ensures
        s.contains(x),
    decreases s.len(),
{
    reveal(Seq::filter);
    if s.len() > 0 {
        if p(s.last()) && x == s.last() {
            assert(s[s.len() - 1] == x);
        } else {
            let f = s.drop_last().filter(p);
            if p(s.last()) {
                let j = choose|j: int| 0 <= j < s.filter(p).len() && s.filter(p)[j] == x;
                assert(f[j] == x);
            }
            lemma_filter_subset(s.drop_last(), p, x);
            let j = choose|j: int| 0 <= j < s.drop_last().len() && s.drop_last()[j] == x;
            assert(s[j] == x);
        }
    }
}

/// Filtering a sequence of distinct elements keeps them distinct.
proof fn lemma_filter_distinct<A>(s: Seq<A>, p: spec_fn(A) -> bool)
    requires
        distinct_seq(s),
    ensures
        distinct_seq(s.filter(p)),
    decreases s.len(),
{
    reveal(Seq::filter);
    if s.len() > 0 {
        assert(distinct_seq(s.drop_last())) by {
            assert(forall|i: int, j: int|
                0 <= i < j < s.drop_last().len() ==> s.drop_last()[i] == s[i] && s.drop_last()[j]
                    == s[j]);
        }
        lemma_filter_distinct(s.drop_last(), p);
        if p(s.last()) {
            let f = s.drop_last().filter(p);
            if f.contains(s.last()) {
                lemma_filter_subset(s.drop_last(), p, s.last());
                let j = choose|j: int|
                    0 <= j < s.drop_last().len() && s.drop_last()[j] == s.last();
                assert(s[j] == s[s.len() - 1]);
                assert(false);
            }
            assert forall|i: int, j: int|
                0 <= i < j < f.push(s.last()).len() implies f.push(s.last())[i] != f.push(
                s.last(),
            )[j] by {
                if j < f.len() {
                    assert(f[i] != f[j]);
                } else {
                    assert(!f.contains(f.push(s.last())[i]) ==> f.push(s.last())[i] != s.last());
                    assert(f.contains(f[i]));
                }
            }
        }
    }
}

/// A filter that keeps every element returns the sequence unchanged.
proof fn lemma_filter_all<A>(s: Seq<A>, p: spec_fn(A) -> bool)
    requires
        forall|i: int| 0 <= i < s.len() ==> p(#[trigger] s[i]),
    ensures
        s.filter(p) == s,
    decreases s.len(),
{
    reveal(Seq::filter);
    if s.len() > 0 {
        assert(forall|i: int|
            0 <= i < s.drop_last().len() ==> p(#[trigger] s.drop_last()[i]));
        lemma_filter_all(s.drop_last(), p);
        assert(s.filter(p) =~= s);
    }
}

/// Is one of the strings of `v` equal to `x`?
fn holds_str(v: &Vec<String>, x: &str) -> (b: bool)
    ensures
        b == v.deep_view().contains(x@),
{
    let mut i: usize = 0;
    let mut found = false;
    while i < v.len()
        invariant
            0 <= i <= v.len(),
            found == (exists|k: int| 0 <= k < i && v.deep_view()[k] == x@),
        decreases v.len() - i,
    {
        if str_eq(v[i].as_str(), x) {
            found = true;
            assert(v.deep_view()[i as int] == x@);
        } else {
            assert(v.deep_view()[i as int] != x@);
        }
        i += 1;
    }
    assert(found == v.deep_view().contains(x@));
    found
}

/// The entries of `v` that lie in the capable set, in order.
fn retain_capable(v: &Vec<String>, cap: &Vec<String>, Ghost(capset): Ghost<Set<Seq<char>>>) -> (r:
    Vec<String>)
    requires
        forall|id: Seq<char>| capset.contains(id) == cap.deep_view().contains(id),
    ensures
        r.deep_view() == v.deep_view().filter(|b: Seq<char>| capset.contains(b)),
{
    let ghost pred = |b: Seq<char>| capset.contains(b);
    let ghost all = v.deep_view();
    let mut r: Vec<String> = Vec::new();
    let mut i: usize = 0;
    assert(r.deep_view() =~= all.take(0).filter(pred));
    while i < v.len()
        invariant
            0 <= i <= v.len(),
            all == v.deep_view(),
            all.len() == v.len(),
            forall|id: Seq<char>| capset.contains(id) == cap.deep_view().contains(id),
            pred == (|b: Seq<char>| capset.contains(b)),
            r.deep_view() == all.take(i as int).filter(pred),
        decreases v.len() - i,
    {
        proof {
            reveal(Seq::filter);
            assert(all.take(i + 1).drop_last() =~= all.take(i as int));
            assert(all.take(i + 1).last() == all[i as int]);
        }
        if holds_str(cap, v[i].as_str()) {
            r.push(v[i].clone());
            assert(r.deep_view() =~= all.take(i as int).filter(pred).push(all[i as int]));
            assert(pred(all[i as int]));
        } else {
            assert(!pred(all[i as int]));
        }
        i += 1;
    }
    assert(all.take(v.len() as int) =~= all);
    r
}

impl TaskList {
    /// The ids capable of blocking, in store order.
    fn capable_vec(&self) -> (cap: Vec<String>)
        ensures
            cap.deep_view() == capable_seq(self@),
    {
        let ghost s = self@;
        let mut cap: Vec<String> = Vec::new();
        let mut i: usize = 0;
        assert(cap.deep_view() =~= capable_seq(s.take(0)));
        while i < self.tasks.len()
            invariant
                0 <= i <= self.tasks.len(),
                s == self@,
                s.len() == self.tasks.len(),
                cap.deep_view() == capable_seq(s.take(i as int)),
            decreases self.tasks.len() - i,
        {
            assert(s.take(i + 1).drop_last() =~= s.take(i as int));
            assert(s.take(i + 1).last() == s[i as int]);
            if !(self.tasks[i].status == TaskStatus::Completed) {
                cap.push(self.tasks[i].id.clone());
                assert(cap.deep_view() =~= capable_seq(s.take(i as int)).push(s[i as int].id));
            }
            i += 1;
        }
        assert(s.take(s.len() as int) =~= s);
        cap
    }

    /// Wakes every sleeping task whose wake time has arrived: it returns
    /// to the backlog and its wake time is cleared. Returns the number of
    /// tasks woken.
    pub fn wake_tasks_at(&mut self, now: Timestamp) -> (n: usize)
        requires
            old(self).wf(),
        ensures
            final(self).wf(),
            final(self).min_prefix_spec() == old(self).min_prefix_spec(),
            final(self)@ == spec_wake(old(self)@, now),
            n == wake_count(old(self)@, now),
    {
        let ghost s = old(self)@;
        let mut n: usize = 0;
        let mut i: usize = 0;
        while i < self.tasks.len()
            invariant
                0 <= i <= self.tasks.len(),
                self@.len() == s.len(),
                s.len() == self.tasks.len(),
                self.wf(),
                self.min_prefix_spec() == old(self).min_prefix_spec(),
                forall|k: int| 0 <= k < i ==> self@[k] == wake_one(s[k], now),
                forall|k: int| i <= k < s.len() ==> self@[k] == s[k],
                n == wake_count(s.take(i as int), now),
            decreases self.tasks.len() - i,
        {
            assert(s.take(i + 1).drop_last() =~= s.take(i as int));
            assert(s.take(i + 1).last() == s[i as int]);
            proof {
                lemma_wake_count_le_len(s.take(i as int), now);
            }
            let sleeping = self.tasks[i].status == TaskStatus::Sleeping;
            let expired = match &self.tasks[i].wake_at {
                Some(w) => w.secs <= now.secs,
                None => false,
            };
            let due = sleeping && expired;
            assert(due == wake_due(s[i as int], now));
            if due {
                let mut t = self.tasks[i].duplicate();
                t.status = TaskStatus::Backlog;
                t.wake_at = None;
                assert(t@ =~= wake_one(s[i as int], now));
                proof {
                    lemma_wf_update_same_id(self@, i as int, t@);
                }
                self.replace_task(i, t);
                n += 1;
            }
            i += 1;
        }
        assert(s.take(s.len() as int) =~= s);
        assert(final(self)@ =~= spec_wake(s, now));
        n
    }

    /// Recomputes every blocked task's dependency list against the set
    /// of ids still capable of blocking (every id of a task that is not
    /// completed), and returns a task whose list becomes empty to the
    /// backlog. Returns the number of tasks unblocked.
    pub fn unblock_tasks(&mut self) -> (n: usize)
        requires
            old(self).wf(),
        ensures
            final(self).wf(),
            final(self).min_prefix_spec() == old(self).min_prefix_spec(),
            final(self)@ == spec_unblock(old(self)@),
            n == unblock_count(old(self)@),
    {
        let ghost s = old(self)@;
        let ghost capset = capable_ids(s);
        let ghost pred = |b: Seq<char>| capset.contains(b);

        let cap = self.capable_vec();
        proof {
            assert forall|id: Seq<char>|
                capset.contains(id) == cap.deep_view().contains(id) by {
                lemma_capable_seq_contains(s, id);
            }
        }

        let mut n: usize = 0;
        let mut i: usize = 0;
        while i < self.tasks.len()
            invariant
                0 <= i <= self.tasks.len(),
                self@.len() == s.len(),
                s.len() == self.tasks.len(),
                self.wf(),
                self.min_prefix_spec() == old(self).min_prefix_spec(),
                capset == capable_ids(s),
                pred == (|b: Seq<char>| capset.contains(b)),
                forall|id: Seq<char>| capset.contains(id) == cap.deep_view().contains(id),
                forall|k: int| 0 <= k < i ==> self@[k] == unblock_one(s[k], capset),
                forall|k: int| i <= k < s.len() ==> self@[k] == s[k],
                n == unblock_count_rec(s.take(i as int), capset),
            decreases self.tasks.len() - i,
        {
            assert(s.take(i + 1).drop_last() =~= s.take(i as int));
            assert(s.take(i + 1).last() == s[i as int]);
            proof {
                lemma_unblock_count_le_len(s.take(i as int), capset);
            }
            if self.tasks[i].status == TaskStatus::Blocked {
                let mut t = self.tasks[i].duplicate();
                let kept = retain_capable(&t.blocked_by, &cap, Ghost(capset));
                proof {
                    lemma_filter_distinct(t.blocked_by.deep_view(), pred);
                }
                t.blocked_by = kept;
                assert(t@.blocked_by == kept_blockers(s[i as int], capset));
                if t.blocked_by.len() == 0 {
                    t.status = TaskStatus::Backlog;
                    n += 1;
                } else {
                    t.status = TaskStatus::Blocked;
                }
                assert(t@ =~= unblock_one(s[i as int], capset));
                proof {
                    lemma_wf_update_same_id(self@, i as int, t@);
                }
                self.replace_task(i, t);
            } else {
                assert(self@[i as int] == unblock_one(s[i as int], capset));
            }
            i += 1;
        }
        assert(s.take(s.len() as int) =~= s);
        assert(final(self)@ =~= spec_unblock(s));
        n
    }
}

/// Every task is blocked exactly when its dependency list is non-empty.
pub open spec fn blocked_iff(s: Seq<TaskView>) -> bool {
    forall|i: int|
        0 <= i < s.len() ==> ((#[trigger] s[i]).status is Blocked <==> s[i].blocked_by.len() > 0)
}

/// Every task is sleeping exactly when it has a wake time.
pub open spec fn sleeping_iff(s: Seq<TaskView>) -> bool {
    forall|i: int|
        0 <= i < s.len() ==> ((#[trigger] s[i]).status is Sleeping <==> s[i].wake_at is Some)
}

/// A wake count of a sequence with no due sleeper is zero.
proof fn lemma_wake_count_zero(s: Seq<TaskView>, now: Timestamp)
    requires
        forall|i: int| 0 <= i < s.len() ==> !wake_due(#[trigger] s[i], now),
    ensures
        wake_count(s, now) == 0,
    decreases s.len(),
{
    if s.len() > 0 {
        assert(forall|i: int|
            0 <= i < s.drop_last().len() ==> !wake_due(#[trigger] s.drop_last()[i], now));
        lemma_wake_count_zero(s.drop_last(), now);
    }
}

/// An unblock count of a sequence with nothing to unblock is zero.
proof fn lemma_unblock_count_zero(s: Seq<TaskView>, cap: Set<Seq<char>>)
    requires
        forall|i: int|
            0 <= i < s.len() ==> !((#[trigger] s[i]).status is Blocked && kept_blockers(
                s[i],
                cap,
            ).len() == 0),
    ensures
        unblock_count_rec(s, cap) == 0,
    decreases s.len(),
{
    if s.len() > 0 {
        assert(forall|i: int|
            0 <= i < s.drop_last().len() ==> s.drop_last()[i] == s[i]);
        lemma_unblock_count_zero(s.drop_last(), cap);
    }
}

/// The unblock pass leaves every task blocked exactly when it still
/// waits on something — provided no task entered the pass waiting on
/// something without being marked blocked. (A task completed while it
/// was still blocked keeps its dependency list and breaks that premise.)
pub proof fn lemma_unblock_establishes_blocked_iff(s: Seq<TaskView>)
    requires
        forall|i: int|
            0 <= i < s.len() && (#[trigger] s[i]).blocked_by.len() > 0 ==> s[i].status is Blocked,
    ensures
        blocked_iff(spec_unblock(s)),
{
    let cap = capable_ids(s);
    let r = spec_unblock(s);
    assert forall|i: int|
        0 <= i < r.len() implies ((#[trigger] r[i]).status is Blocked <==> r[i].blocked_by.len()
        > 0) by {
        let t = s[i];
        assert(r[i] == unblock_one(t, cap));
        if !(t.status is Blocked) {
            assert(t.blocked_by.len() == 0);
        }
    }
}

/// The blocking operation keeps the blocked-iff invariant: the blockee
/// ends up blocked with a non-empty dependency list.
pub proof fn lemma_block_preserves_blocked_iff(s: Seq<TaskView>, i: int, bid: Seq<char>)
    requires
        blocked_iff(s),
        0 <= i < s.len(),
    ensures
        blocked_iff(s.update(i, blocked_with(s[i], bid))),
{
    let r = s.update(i, blocked_with(s[i], bid));
    assert forall|k: int|
        0 <= k < r.len() implies ((#[trigger] r[k]).status is Blocked <==> r[k].blocked_by.len()
        > 0) by {
        if k != i {
            assert(r[k] == s[k]);
        }
    }
}

/// Running the unblock pass twice in a row changes nothing more: the
/// second pass unblocks zero tasks and leaves the store as it was.
pub proof fn lemma_unblock_idempotent(s: Seq<TaskView>)
    ensures
        spec_unblock(spec_unblock(s)) == spec_unblock(s),
        unblock_count(spec_unblock(s)) == 0,
{
    let cap = capable_ids(s);
    let pred = |b: Seq<char>| cap.contains(b);
    let r = spec_unblock(s);
    assert forall|id: Seq<char>| capable_ids(r).contains(id) == cap.contains(id) by {
        assert(forall|i: int|
            0 <= i < r.len() ==> (#[trigger] r[i]).id == s[i].id && ((r[i].status is Completed)
                <==> (s[i].status is Completed)));
        if capable_ids(r).contains(id) {
            let i = choose|i: int|
                0 <= i < r.len() && !((#[trigger] r[i]).status is Completed) && r[i].id == id;
            assert(!(s[i].status is Completed) && s[i].id == id);
        }
        if cap.contains(id) {
            let i = choose|i: int|
                0 <= i < s.len() && !((#[trigger] s[i]).status is Completed) && s[i].id == id;
            assert(!(r[i].status is Completed) && r[i].id == id);
        }
    }
    assert(capable_ids(r) =~= cap);
    assert forall|i: int| 0 <= i < r.len() implies unblock_one(#[trigger] r[i], cap) == r[i] by {
        let t = s[i];
        assert(r[i] == unblock_one(t, cap));
        if t.status is Blocked {
            let kept = kept_blockers(t, cap);
            if kept.len() > 0 {
                assert(forall|j: int| 0 <= j < kept.len() ==> pred(#[trigger] kept[j])) by {
                    assert(forall|j: int|
                        0 <= j < kept.len() ==> pred(
                            #[trigger] t.blocked_by.filter(pred)[j],
                        )) by {
                        assert forall|j: int|
                            0 <= j < t.blocked_by.filter(pred).len() implies pred(
                            #[trigger] t.blocked_by.filter(pred)[j],
                        ) by {
                            t.blocked_by.lemma_filter_pred(pred, j);
                        }
                    }
                }
                lemma_filter_all(kept, pred);
                assert(unblock_one(r[i], cap) =~= r[i]);
            }
        }
    }
    assert(spec_unblock(r) =~= r);
    assert forall|i: int|
        0 <= i < r.len() implies !((#[trigger] r[i]).status is Blocked && kept_blockers(
        r[i],
        capable_ids(r),
    ).len() == 0) by {
        let t = s[i];
        assert(r[i] == unblock_one(t, cap));
        if r[i].status is Blocked {
            let kept = kept_blockers(t, cap);
            assert(r[i].blocked_by == kept && kept.len() > 0);
            assert(forall|j: int| 0 <= j < kept.len() ==> pred(#[trigger] kept[j])) by {
                assert forall|j: int|
                    0 <= j < t.blocked_by.filter(pred).len() implies pred(
                    #[trigger] t.blocked_by.filter(pred)[j],
                ) by {
                    t.blocked_by.lemma_filter_pred(pred, j);
                }
            }
            lemma_filter_all(kept, pred);
        }
    }
    lemma_unblock_count_zero(r, capable_ids(r));
}

/// The wake pass keeps the blocked-iff invariant: it only moves
/// sleeping tasks, which wait on nothing when the invariant holds.
pub proof fn lemma_wake_preserves_blocked_iff(s: Seq<TaskView>, now: Timestamp)
    requires
        blocked_iff(s),
    ensures
        blocked_iff(spec_wake(s, now)),
{
    let r = spec_wake(s, now);
    assert forall|i: int|
        0 <= i < r.len() implies ((#[trigger] r[i]).status is Blocked <==> r[i].blocked_by.len()
        > 0) by {
        assert(r[i] == wake_one(s[i], now));
    }
}

/// The unblock pass keeps the sleeping-iff invariant: it only moves
/// blocked tasks, which carry no wake time when the invariant holds.
pub proof fn lemma_unblock_preserves_sleeping_iff(s: Seq<TaskView>)
    requires
        sleeping_iff(s),
    ensures
        sleeping_iff(spec_unblock(s)),
{
    let r = spec_unblock(s);
    let cap = capable_ids(s);
    assert forall|i: int|
        0 <= i < r.len() implies ((#[trigger] r[i]).status is Sleeping <==> r[i].wake_at
        is Some) by {
        assert(r[i] == unblock_one(s[i], cap));
    }
}

/// Suspending a task keeps the sleeping-iff invariant: the task ends up
/// sleeping with a wake time.
pub proof fn lemma_suspend_preserves_sleeping_iff(s: Seq<TaskView>, i: int, w: Timestamp)
    requires
        sleeping_iff(s),
        0 <= i < s.len(),
    ensures
        sleeping_iff(s.update(i, suspended(s[i], w))),
{
    let r = s.update(i, suspended(s[i], w));
    assert forall|k: int|
        0 <= k < r.len() implies ((#[trigger] r[k]).status is Sleeping <==> r[k].wake_at
        is Some) by {
        if k != i {
            assert(r[k] == s[k]);
        }
    }
}

/// The wake pass keeps the sleeping-iff invariant: afterwards a task is
/// sleeping exactly when it still has a wake time.
pub proof fn lemma_wake_preserves_sleeping_iff(s: Seq<TaskView>, now: Timestamp)
    requires
        sleeping_iff(s),
    ensures
        sleeping_iff(spec_wake(s, now)),
{
    let r = spec_wake(s, now);
    assert forall|i: int|
        0 <= i < r.len() implies ((#[trigger] r[i]).status is Sleeping <==> r[i].wake_at
        is Some) by {
        assert(r[i] == wake_one(s[i], now));
    }
}

/// After a wake pass, no sleeping task's wake time lies at or before
/// `now` — provided every sleeping task had a wake time to begin with.
pub proof fn lemma_wake_clears_expired(s: Seq<TaskView>, now: Timestamp)
    requires
        forall|i: int| 0 <= i < s.len() && (#[trigger] s[i]).status is Sleeping ==> s[i].wake_at
            is Some,
    ensures
        forall|i: int|
            0 <= i < s.len() && (#[trigger] spec_wake(s, now)[i]).status is Sleeping ==> spec_wake(
                s,
                now,
            )[i].wake_at is Some && spec_wake(s, now)[i].wake_at->0.secs > now.secs,
{
    let r = spec_wake(s, now);
    assert forall|i: int|
        0 <= i < s.len() && (#[trigger] r[i]).status is Sleeping implies r[i].wake_at is Some
        && r[i].wake_at->0.secs > now.secs by {
        assert(r[i] == wake_one(s[i], now));
    }
}

/// Running the wake pass twice with the same clock changes nothing more:
/// the second pass wakes zero tasks and leaves the store as it was.
pub proof fn lemma_wake_idempotent(s: Seq<TaskView>, now: Timestamp)
    ensures
        spec_wake(spec_wake(s, now), now) == spec_wake(s, now),
        wake_count(spec_wake(s, now), now) == 0,
{
    let r = spec_wake(s, now);
    assert forall|i: int| 0 <= i < r.len() implies !wake_due(#[trigger] r[i], now) by {
        assert(r[i] == wake_one(s[i], now));
    }
    assert(spec_wake(r, now) =~= r);
    lemma_wake_count_zero(r, now);
}

/// A sequence of tasks listed most urgent first.
pub open spec fn sorted_by_urgency(s: Seq<TaskView>) -> bool {
    forall|i: int, j: int| 0 <= i < j < s.len() ==> task_le(s[i], s[j])
}

/// The multiset of a sequence with one element slid in at a position.
proof fn lemma_to_multiset_insert<A>(s: Seq<A>, k: int, x: A)
    requires
        0 <= k <= s.len(),
    ensures
        s.insert(k, x).to_multiset() == s.to_multiset().insert(x),
{
    broadcast use vstd::seq_lib::group_to_multiset_ensures;

    let left = s.take(k);
    let right = s.skip(k);
    assert(s.insert(k, x) =~= left.push(x) + right);
    assert(s =~= left + right);
    vstd::seq_lib::lemma_multiset_commutative(left.push(x), right);
    vstd::seq_lib::lemma_multiset_commutative(left, right);
    assert(left.push(x).to_multiset() =~= left.to_multiset().insert(x));
    assert(left.to_multiset().insert(x).add(right.to_multiset()) =~= left.to_multiset().add(
        right.to_multiset(),
    ).insert(x));
}

/// Slides a task into a sorted vector, keeping it sorted.
fn insert_sorted(r: &mut Vec<Task>, t: Task)
    requires
        sorted_by_urgency(old(r).deep_view()),
    ensures
        sorted_by_urgency(final(r).deep_view()),
        final(r).deep_view().to_multiset() == old(r).deep_view().to_multiset().insert(t@),
{
    let ghost s = old(r).deep_view();
    let mut k: usize = 0;
    loop
        invariant_except_break
            0 <= k <= r.len(),
            r.deep_view() == s,
            s.len() == r.len(),
            sorted_by_urgency(s),
            forall|j: int| 0 <= j < k ==> task_le(#[trigger] s[j], t@),
        ensures
            0 <= k <= s.len(),
            r.deep_view() == s,
            s.len() == r.len(),
            forall|j: int| 0 <= j < k ==> task_le(#[trigger] s[j], t@),
            k < s.len() ==> task_le(t@, s[k as int]),
        decreases r.len() - k,
    {
        if k == r.len() {
            break;
        }
        if task_le_exec(&t, &r[k]) {
            break;
        }
        proof {
            crate::task::lemma_task_le_total(t@, s[k as int]);
        }
        k += 1;
    }
    let ghost kk = k as int;
    r.insert(k, t);
    assert(r.deep_view() =~= s.insert(kk, t@));
    proof {
        lemma_to_multiset_insert(s, kk, t@);
        let d = r.deep_view();
        assert forall|i: int, j: int| 0 <= i < j < d.len() implies task_le(d[i], d[j]) by {
            if i < kk && j == kk {
                assert(d[i] == s[i] && d[j] == t@);
            } else if i == kk && j > kk {
                assert(d[i] == t@ && d[j] == s[j - 1]);
                if j - 1 > kk {
                    assert(task_le(s[kk], s[j - 1]));
                    crate::task::lemma_task_le_transitive(t@, s[kk], s[j - 1]);
                }
            } else if i < kk && j > kk {
                assert(d[i] == s[i] && d[j] == s[j - 1]);
                if i == j - 1 {
                    crate::task::lemma_task_le_reflexive(s[i]);
                }
            } else if i < kk && j < kk {
                assert(d[i] == s[i] && d[j] == s[j]);
            } else {
                assert(d[i] == s[i - 1] && d[j] == s[j - 1]);
            }
        }
    }
}

impl TaskList {
    /// Every task, copied out and listed most urgent first in the order
    /// of the task comparison rule.
    pub fn tasks_sorted(&self) -> (r: Vec<Task>)
        ensures
            sorted_by_urgency(r.deep_view()),
            r.deep_view().to_multiset() == self@.to_multiset(),
    {
        let ghost s = self@;
        let mut r: Vec<Task> = Vec::new();
        let mut i: usize = 0;
        proof {
            broadcast use vstd::seq_lib::group_to_multiset_ensures;

            assert(r.deep_view() =~= Seq::<TaskView>::empty());
            assert(s.take(0) =~= Seq::<TaskView>::empty());
        }
        while i < self.tasks.len()
            invariant
                0 <= i <= self.tasks.len(),
                s == self@,
                s.len() == self.tasks.len(),
                sorted_by_urgency(r.deep_view()),
                r.deep_view().to_multiset() == s.take(i as int).to_multiset(),
            decreases self.tasks.len() - i,
        {
            let t = self.tasks[i].duplicate();
            insert_sorted(&mut r, t);
            proof {
                broadcast use vstd::seq_lib::group_to_multiset_ensures;

                assert(s.take(i + 1) =~= s.take(i as int).push(s[i as int]));
            }
            i += 1;
        }
        assert(s.take(s.len() as int) =~= s);
        r
    }

    /// The tasks of one status, copied out and listed most urgent first.
    pub fn tasks_with_status(&self, status: TaskStatus) -> (r: Vec<Task>)
        ensures
            sorted_by_urgency(r.deep_view()),
            r.deep_view().to_multiset() == self@.filter(
                |t: TaskView| t.status == status,
            ).to_multiset(),
    {
        let ghost s = self@;
        let ghost pred = |t: TaskView| t.status == status;
        let mut r: Vec<Task> = Vec::new();
        let mut i: usize = 0;
        proof {
            reveal(Seq::filter);
            assert(r.deep_view() =~= Seq::<TaskView>::empty());
            assert(s.take(0).filter(pred) =~= Seq::<TaskView>::empty());
            broadcast use vstd::seq_lib::group_to_multiset_ensures;

        }
        while i < self.tasks.len()
            invariant
                0 <= i <= self.tasks.len(),
                s == self@,
                s.len() == self.tasks.len(),
                pred == (|t: TaskView| t.status == status),
                sorted_by_urgency(r.deep_view()),
                r.deep_view().to_multiset() == s.take(i as int).filter(pred).to_multiset(),
            decreases self.tasks.len() - i,
        {
            proof {
                reveal(Seq::filter);
                assert(s.take(i + 1).drop_last() =~= s.take(i as int));
                assert(s.take(i + 1).last() == s[i as int]);
            }
            if self.tasks[i].status == status {
                let t = self.tasks[i].duplicate();
                insert_sorted(&mut r, t);
                proof {
                    broadcast use vstd::seq_lib::group_to_multiset_ensures;

                    assert(s.take(i + 1).filter(pred) =~= s.take(i as int).filter(pred).push(
                        s[i as int],
                    ));
                }
            } else {
                assert(s.take(i + 1).filter(pred) =~= s.take(i as int).filter(pred));
            }
            i += 1;
        }
        assert(s.take(s.len() as int) =~= s);
        r
    }

    /// The most urgent task of one status, or nothing when no task has
    /// that status.
    pub fn first_with_status(&self, status: TaskStatus) -> (r: Option<Task>)
        ensures
            match r {
                Some(t) => {
                    &&& t@.status == status
                    &&& self@.contains(t@)
                    &&& forall|i: int|
                        0 <= i < self@.len() && (#[trigger] self@[i]).status == status
                            ==> task_le(t@, self@[i])
                },
                None => forall|i: int|
                    0 <= i < self@.len() ==> (#[trigger] self@[i]).status != status,
            },
    {
        let ghost s = self@;
        let ghost pred = |t: TaskView| t.status == status;
        let mut v = self.tasks_with_status(status);
        proof {
            broadcast use vstd::seq_lib::group_to_multiset_ensures;

        }
        if v.len() == 0 {
            proof {
                assert forall|i: int|
                    0 <= i < s.len() implies (#[trigger] s[i]).status != status by {
                    if s[i].status == status {
                        s.lemma_filter_contains(pred, i);
                        assert(s.filter(pred).to_multiset().contains(s[i]));
                        assert(v.deep_view().to_multiset().len() == 0);
                    }
                }
            }
            None
        } else {
            let ghost w = v.deep_view();
            let t = v.remove(0);
            proof {
                broadcast use vstd::seq_lib::group_to_multiset_ensures;

                let full = s.filter(pred);
                assert(t@ == w[0]);
                assert(w.contains(w[0]));
                assert(full.to_multiset().contains(t@));
                assert(full.contains(t@));
                let j0 = choose|j: int| 0 <= j < full.len() && full[j] == t@;
                s.lemma_filter_pred(pred, j0);
                lemma_filter_subset(s, pred, t@);
                assert forall|i: int|
                    0 <= i < s.len() && (#[trigger] s[i]).status == status implies task_le(
                    t@,
                    s[i],
                ) by {
                    s.lemma_filter_contains(pred, i);
                    assert(full.to_multiset().contains(s[i]));
                    assert(w.to_multiset().contains(s[i]));
                    assert(w.contains(s[i]));
                    let j = choose|j: int| 0 <= j < w.len() && w[j] == s[i];
                    if j == 0 {
                        crate::task::lemma_task_le_reflexive(t@);
                    } else {
                        assert(task_le(w[0], w[j]));
                    }
                }
            }
            Some(t)
        }
    }
}

/// A well-formed store is admitted unchanged.
pub proof fn lemma_admit_wf(s: Seq<TaskView>)
    requires
        store_wf(s),
    ensures
        admit_tasks(s) == s,
    decreases s.len(),
{
    if s.len() > 0 {
        let prev = s.drop_last();
        assert(store_wf(prev)) by {
            assert(forall|i: int|
                0 <= i < prev.len() ==> prev[i] == s[i]);
        }
        lemma_admit_wf(prev);
        assert(!contains_id(prev, s.last().id)) by {
            if contains_id(prev, s.last().id) {
                let i = choose|i: int|
                    0 <= i < prev.len() && (#[trigger] prev[i]).id == s.last().id;
                assert(s[i].id == s[s.len() - 1].id);
            }
        }
        assert(admit_tasks(s) =~= s);
    }
}

/// Persisting a well-formed store and reading the text back yields
/// exactly the same tasks.
pub proof fn lemma_store_round_trip(s: Seq<TaskView>)
    requires
        store_wf(s),
    ensures
        crate::codec::spec_parse_tasks(crate::codec::tasks_json(s)) == Some(s),
        admit_tasks(s) == s,
{
    crate::codec::lemma_tasks_round_trip(s);
    lemma_admit_wf(s);
}

impl TaskList {
    /// The persisted text of the store.
    pub fn save_to_string(&self) -> (r: String)
        requires
            self.wf(),
        ensures
            r@ == crate::codec::tasks_json(self@),
    {
        crate::codec::format_tasks(&self.tasks)
    }

    /// A store read from persisted text. Text that is not a task array
    /// yields an empty store, so a missing or unreadable file means a
    /// first run; tasks that are malformed or repeat an id are dropped.
    pub fn load_from_str(contents: &str) -> (r: TaskList)
        ensures
            r.wf(),
            r.min_prefix_spec() == 0,
            match crate::codec::spec_parse_tasks(contents@) {
                Some(vs) => r@ == admit_tasks(vs),
                None => r@ == Seq::<TaskView>::empty(),
            },
    {
        match crate::codec::parse_tasks(contents) {
            Some(ts) => TaskList::from_tasks(ts),
            None => TaskList::new(),
        }
    }

    /// Replaces the uniquely resolved task's whole mutable payload with
    /// the edited text, a task object as rendered by `format_task` with
    /// any amount of blank space between its tokens; its id and creation
    /// time are preserved verbatim. Text that does not read back as a
    /// task leaves the task as it was. Touches nothing when the prefix
    /// does not resolve.
    pub fn edit_task(&mut self, prefix: &str, edited: &str) -> (n: usize)
        requires
            old(self).wf(),
        ensures
            final(self).wf(),
            final(self).min_prefix_spec() == old(self).min_prefix_spec(),
            ({
                let res = spec_resolve(old(self)@, prefix@, old(self).min_prefix_spec());
                match res {
                    Some(i) => n == 1 && (match crate::codec::spec_parse_task(
                        crate::codec::strip_ws(edited@, false),
                    ) {
                        Some(tv) => final(self)@ == old(self)@.update(
                            i,
                            TaskView {
                                id: old(self)@[i].id,
                                created_at: old(self)@[i].created_at,
                                ..tv
                            },
                        ),
                        None => final(self)@ == old(self)@,
                    }),
                    None => n == 0 && final(self)@ == old(self)@,
                }
            }),
    {
        match self.resolve(prefix) {
            Some(i) => {
                proof {
                    lemma_resolve_some(self@, prefix@, self.min_prefix_spec());
                }
                match crate::codec::parse_task_str(edited) {
                    Some(nt) => {
                        let mut t = self.tasks[i].duplicate();
                        t.update_from(&nt);
                        proof {
                            lemma_wf_update_same_id(old(self)@, i as int, t@);
                        }
                        self.replace_task(i, t);
                    },
                    None => {},
                }
                1
            },
            None => 0,
        }
    }

    /// Replaces the uniquely resolved task's details with the edited
    /// text, leading and trailing blank characters removed. Touches
    /// nothing when the prefix does not resolve.
    pub fn edit_task_details(&mut self, prefix: &str, text: &str) -> (n: usize)
        requires
            old(self).wf(),
        ensures
            final(self).wf(),
            final(self).min_prefix_spec() == old(self).min_prefix_spec(),
            ({
                let res = spec_resolve(old(self)@, prefix@, old(self).min_prefix_spec());
                match res {
                    Some(i) => n == 1 && final(self)@ == old(self)@.update(
                        i,
                        (TaskView { details: trim_spec(text@), ..old(self)@[i] }),
                    ),
                    None => n == 0 && final(self)@ == old(self)@,
                }
            }),
    {
        match self.resolve(prefix) {
            Some(i) => {
                proof {
                    lemma_resolve_some(self@, prefix@, self.min_prefix_spec());
                }
                let mut t = self.tasks[i].duplicate();
                t.details = trim_blank(text);
                assert(t@ =~= (TaskView { details: trim_spec(text@), ..old(self)@[i as int] }));
                proof {
                    lemma_wf_update_same_id(old(self)@, i as int, t@);
                }
                self.replace_task(i, t);
                1
            },
            None => 0,
        }
    }

    /// Puts the uniquely resolved task to sleep for the given duration
    /// text, measured from the clock now. A duration that does not parse
    /// or does not fit fails the operation with the parse diagnostic and
    /// changes nothing; any other duration succeeds. A completed task is
    /// terminal and is left unchanged. Touches nothing when the prefix
    /// does not resolve.
    pub fn suspend_task(&mut self, prefix: &str, duration: &str) -> (r: Result<
        usize,
        crate::simple_duration::Error,
    >)
        requires
            old(self).wf(),
        ensures
            final(self).wf(),
            final(self).min_prefix_spec() == old(self).min_prefix_spec(),
            r is Ok <==> (crate::simple_duration::spec_parse_duration(duration@) is Ok && -i64::MAX
                <= crate::simple_duration::spec_parse_duration(duration@)->Ok_0 <= i64::MAX),
            r is Err ==> final(self)@ == old(self)@ && (match crate::simple_duration::spec_parse_duration(
                duration@,
            ) {
                Ok(v) => r->Err_0.message() == crate::simple_duration::dur_err_msg(duration@),
                Err(m) => r->Err_0.message() == m,
            }),
            r is Ok ==> ({
                let d = crate::simple_duration::spec_parse_duration(duration@)->Ok_0;
                let res = spec_resolve(old(self)@, prefix@, old(self).min_prefix_spec());
                match res {
                    Some(i) => {
                        if old(self)@[i].status is Completed {
                            r->Ok_0 == 0 && final(self)@ == old(self)@
                        } else {
                            r->Ok_0 == 1 && (exists|now: Timestamp|
                                ts_wf(now) && final(self)@ == old(self)@.update(
                                    i,
                                    suspended(old(self)@[i], #[trigger] ts_plus(now, d)),
                                ))
                        }
                    },
                    None => r->Ok_0 == 0 && final(self)@ == old(self)@,
                }
            }),
    {
        match crate::simple_duration::parse(duration) {
            Err(e) => Err(e),
            Ok(d) => {
                let now = clock_now();
                let n = self.suspend_task_at(prefix, d, now);
                proof {
                    let dspec = crate::simple_duration::spec_parse_duration(duration@)->Ok_0;
                    assert(dspec == d as int);
                    if spec_resolve(old(self)@, prefix@, old(self).min_prefix_spec()) is Some {
                        let i = spec_resolve(old(self)@, prefix@, old(self).min_prefix_spec())->0;
                        lemma_resolve_some(old(self)@, prefix@, old(self).min_prefix_spec());
                        if !(old(self)@[i].status is Completed) {
                            assert(ts_plus(now, dspec) == ts_plus(now, d as int));
                            assert(ts_wf(now) && final(self)@ == old(self)@.update(
                                i,
                                suspended(old(self)@[i], ts_plus(now, dspec)),
                            ));
                            assert(exists|nw: Timestamp|
                                ts_wf(nw) && final(self)@ == old(self)@.update(
                                    i,
                                    suspended(old(self)@[i], #[trigger] ts_plus(nw, dspec)),
                                ));
                        }
                    }
                }
                Ok(n)
            },
        }
    }

    /// Wakes every sleeping task whose wake time has arrived, measured
    /// against the clock now.
    pub fn wake_tasks(&mut self) -> (n: usize)
        requires
            old(self).wf(),
        ensures
            final(self).wf(),
            final(self).min_prefix_spec() == old(self).min_prefix_spec(),
            exists|now: Timestamp|
                ts_wf(now) && final(self)@ == #[trigger] spec_wake(old(self)@, now) && n
                    == wake_count(old(self)@, now),
    {
        let now = clock_now();
        let n = self.wake_tasks_at(now);
        proof {
            assert(ts_wf(now) && final(self)@ == spec_wake(old(self)@, now) && n == wake_count(
                old(self)@,
                now,
            ));
        }
        n
    }
}

/// The clock reading as a well-formed timestamp: epoch seconds and the
/// local offset, clamped into the supported range.
pub fn clock_now() -> (r: Timestamp)
    ensures
        ts_wf(r),
{
    let (secs, off_secs) = crate::trusted::now_parts();
    let off_min: i32 = if off_secs < 0 {
        -((-off_secs) / 60)
    } else {
        off_secs / 60
    };
    Timestamp::clamped(secs, off_min)
}

/// A blank character trimmed away at the edges of edited details.
pub open spec fn is_blank(c: char) -> bool {
    c == ' ' || c == '\t' || c == '\n' || c == '\r'
}

/// The position of the first non-blank character at or after `i`.
pub open spec fn scan_blank(s: Seq<char>, i: int) -> int
    decreases s.len() - i when 0 <= i <= s.len()
{
    if i >= s.len() {
        s.len() as int
    } else if !is_blank(s[i]) {
        i
    } else {
        scan_blank(s, i + 1)
    }
}

/// A text without its trailing blank characters.
pub open spec fn rstrip_blank(s: Seq<char>) -> Seq<char>
    decreases s.len(),
{
    if s.len() > 0 && is_blank(s.last()) {
        rstrip_blank(s.drop_last())
    } else {
        s
    }
}

/// A text without leading and trailing blank characters.
pub open spec fn trim_spec(s: Seq<char>) -> Seq<char> {
    rstrip_blank(s.skip(scan_blank(s, 0)))
}

/// Bounds of the blank scan.
proof fn lemma_scan_blank(s: Seq<char>, i: int)
    requires
        0 <= i <= s.len(),
    ensures
        i <= scan_blank(s, i) <= s.len(),
    decreases s.len() - i,
{
    if i < s.len() && is_blank(s[i]) {
        lemma_scan_blank(s, i + 1);
    }
}

/// Removes leading and trailing blank characters.
pub fn trim_blank(s: &str) -> (r: String)
    ensures
        r@ == trim_spec(s@),
{
    let n = s.unicode_len();
    let mut a: usize = 0;
    loop
        invariant_except_break
            0 <= a <= n,
            n == s@.len(),
            scan_blank(s@, 0) == scan_blank(s@, a as int),
        ensures
            0 <= a <= n,
            n == s@.len(),
            a as int == scan_blank(s@, 0),
        decreases n - a,
    {
        if a == n {
            break;
        }
        let c = s.get_char(a);
        if !(c == ' ' || c == '\t' || c == '\n' || c == '\r') {
            break;
        }
        a += 1;
    }
    let mut b: usize = n;
    let ghost tail = s@.skip(a as int);
    loop
        invariant_except_break
            a <= b <= n,
            n == s@.len(),
            tail == s@.skip(a as int),
            rstrip_blank(tail) == rstrip_blank(s@.subrange(a as int, b as int)),
        ensures
            a <= b <= n,
            rstrip_blank(tail) == s@.subrange(a as int, b as int),
        decreases b,
    {
        if b == a {
            assert(s@.subrange(a as int, a as int).len() == 0);
            break;
        }
        let c = s.get_char(b - 1);
        if !(c == ' ' || c == '\t' || c == '\n' || c == '\r') {
            assert(s@.subrange(a as int, b as int).last() == s@[b - 1]);
            break;
        }
        proof {
            assert(s@.subrange(a as int, b as int).last() == s@[b - 1]);
            assert(s@.subrange(a as int, b as int).drop_last() =~= s@.subrange(a as int, b - 1));
        }
        b -= 1;
    }
    let piece = s.substring_char(a, b);
    assert(piece@ =~= s@.subrange(a as int, b as int));
    String::from_str(piece)
}

/// The decimal digits of a number.
pub open spec fn dec_nat(n: int) -> Seq<char>
    decreases n when n >= 0
{
    if n < 10 {
        seq![crate::timefmt::digit_char(n)]
    } else {
        dec_nat(n / 10) + seq![crate::timefmt::digit_char(n % 10)]
    }
}

/// Appends the decimal digits of a number.
fn push_dec(out: &mut Vec<char>, n: u128)
    ensures
        final(out)@ == old(out)@ + dec_nat(n as int),
    decreases n,
{
    if n < 10 {
        out.push(crate::timefmt::digit_to_char(n as u64));
        assert(final(out)@ =~= old(out)@ + dec_nat(n as int));
    } else {
        push_dec(out, n / 10);
        out.push(crate::timefmt::digit_to_char((n % 10) as u64));
        assert(final(out)@ =~= old(out)@ + dec_nat(n as int));
    }
}

/// The default name of a freshly added task, numbered after the tasks
/// already in the store.
pub open spec fn default_name_spec(count: int) -> Seq<char> {
    "New task #"@ + dec_nat(count + 1)
}

/// The names joined into one, separated by single spaces.
pub open spec fn join_names(names: Seq<Seq<char>>) -> Seq<char>
    decreases names.len(),
{
    if names.len() == 0 {
        Seq::empty()
    } else if names.len() == 1 {
        names[0]
    } else {
        join_names(names.drop_last()) + seq![' '] + names.last()
    }
}

/// What is made of the names handed to an add operation: no names make
/// one task with the default name; several names without spaces make
/// one task named by joining them; anything else makes one task per
/// name.
pub open spec fn spec_merge_names(names: Seq<Seq<char>>, count: int) -> Seq<Seq<char>> {
    if names.len() == 0 {
        seq![default_name_spec(count)]
    } else if names.len() > 1 && (forall|i: int|
        0 <= i < names.len() ==> !(#[trigger] names[i]).contains(' ')) {
        seq![join_names(names)]
    } else {
        names
    }
}

/// Does the string hold a space?
fn has_space(s: &str) -> (b: bool)
    ensures
        b == s@.contains(' '),
{
    let n = s.unicode_len();
    let mut i: usize = 0;
    while i < n
        invariant
            0 <= i <= n,
            n == s@.len(),
            forall|k: int| 0 <= k < i ==> s@[k] != ' ',
        decreases n - i,
    {
        if s.get_char(i) == ' ' {
            assert(s@.contains(' '));
            return true;
        }
        i += 1;
    }
    assert(!s@.contains(' '));
    false
}

/// The task names an add operation creates from its arguments.
pub fn merge_task_names(names: &Vec<String>, count: usize) -> (r: Vec<String>)
    ensures
        r.deep_view() == spec_merge_names(names.deep_view(), count as int),
{
    let ghost v = names.deep_view();
    if names.len() == 0 {
        let mut out: Vec<char> = Vec::new();
        push_str_chars_list(&mut out, "New task #");
        push_dec(&mut out, (count as u128) + 1);
        let name = crate::trusted::string_from_chars(&out);
        let mut r: Vec<String> = Vec::new();
        r.push(name);
        assert(r.deep_view() =~= seq![default_name_spec(count as int)]);
        return r;
    }
    if names.len() > 1 {
        let mut all_single = true;
        let mut i: usize = 0;
        while i < names.len()
            invariant
                0 <= i <= names.len(),
                v == names.deep_view(),
                v.len() == names.len(),
                all_single == (forall|k: int| 0 <= k < i ==> !(#[trigger] v[k]).contains(' ')),
            decreases names.len() - i,
        {
            if has_space(names[i].as_str()) {
                all_single = false;
                assert(v[i as int].contains(' '));
            }
            i += 1;
        }
        if all_single {
            let mut out: Vec<char> = Vec::new();
            push_str_chars_list(&mut out, names[0].as_str());
            let mut k: usize = 1;
            assert(out@ =~= join_names(v.take(1)));
            while k < names.len()
                invariant
                    1 <= k <= names.len(),
                    v == names.deep_view(),
                    v.len() == names.len(),
                    out@ == join_names(v.take(k as int)),
                decreases names.len() - k,
            {
                out.push(' ');
                push_str_chars_list(&mut out, names[k].as_str());
                proof {
                    assert(v.take(k + 1).drop_last() =~= v.take(k as int));
                    assert(v.take(k + 1).last() == v[k as int]);
                    assert(out@ =~= join_names(v.take(k + 1)));
                }
                k += 1;
            }
            assert(v.take(v.len() as int) =~= v);
            let name = crate::trusted::string_from_chars(&out);
            let mut r: Vec<String> = Vec::new();
            r.push(name);
            assert(r.deep_view() =~= seq![join_names(v)]);
            return r;
        }
    }
    let r = crate::task::clone_strings(names);
    assert(r.deep_view() == v);
    r
}

/// Appends the characters of a string.
fn push_str_chars_list(out: &mut Vec<char>, lit: &str)
    ensures
        final(out)@ == old(out)@ + lit@,
{
    let n = lit.unicode_len();
    let mut i: usize = 0;
    while i < n
        invariant
            0 <= i <= n,
            n == lit@.len(),
            out@ == old(out)@ + lit@.take(i as int),
        decreases n - i,
    {
        out.push(lit.get_char(i));
        assert(out@ =~= old(out)@ + lit@.take(i + 1));
        i += 1;
    }
    assert(lit@.take(n as int) =~= lit@);
}

/// One step of a prefix-driven removal: the uniquely resolved task
/// leaves, anything else changes nothing.
pub open spec fn step_remove(s: Seq<TaskView>, p: Seq<char>, minlen: nat) -> Seq<TaskView> {
    match spec_resolve(s, p, minlen) {
        Some(i) => s.remove(i),
        None => s,
    }
}

/// One step of a prefix-driven completion.
pub open spec fn step_complete(s: Seq<TaskView>, p: Seq<char>, minlen: nat) -> Seq<TaskView> {
    match spec_resolve(s, p, minlen) {
        Some(i) => s.update(i, with_status(s[i], TaskStatus::Completed)),
        None => s,
    }
}

/// One step of a prefix-driven start; a completed task is terminal and
/// stays.
pub open spec fn step_start(s: Seq<TaskView>, p: Seq<char>, minlen: nat) -> Seq<TaskView> {
    match spec_resolve(s, p, minlen) {
        Some(i) => if s[i].status is Completed {
            s
        } else {
            s.update(i, with_status(s[i], TaskStatus::Active))
        },
        None => s,
    }
}

/// One step of a prefix-driven suspension at a clock reading; a
/// completed task is terminal and stays.
pub open spec fn step_suspend(
    s: Seq<TaskView>,
    p: Seq<char>,
    minlen: nat,
    now: Timestamp,
    d: int,
) -> Seq<TaskView> {
    match spec_resolve(s, p, minlen) {
        Some(i) => if s[i].status is Completed {
            s
        } else {
            s.update(i, suspended(s[i], ts_plus(now, d)))
        },
        None => s,
    }
}

/// The store after removing every prefix of the list in order.
pub open spec fn fold_remove(s: Seq<TaskView>, ids: Seq<Seq<char>>, minlen: nat) -> Seq<TaskView>
    decreases ids.len(),
{
    if ids.len() == 0 {
        s
    } else {
        fold_remove(step_remove(s, ids[0], minlen), ids.skip(1), minlen)
    }
}

/// The store after completing every prefix of the list in order.
pub open spec fn fold_complete(s: Seq<TaskView>, ids: Seq<Seq<char>>, minlen: nat) -> Seq<TaskView>
    decreases ids.len(),
{
    if ids.len() == 0 {
        s
    } else {
        fold_complete(step_complete(s, ids[0], minlen), ids.skip(1), minlen)
    }
}

/// The store after starting every prefix of the list in order.
pub open spec fn fold_start(s: Seq<TaskView>, ids: Seq<Seq<char>>, minlen: nat) -> Seq<TaskView>
    decreases ids.len(),
{
    if ids.len() == 0 {
        s
    } else {
        fold_start(step_start(s, ids[0], minlen), ids.skip(1), minlen)
    }
}

/// The store after suspending every prefix of the list in order, each
/// step against its own clock reading.
pub open spec fn fold_suspend(
    s: Seq<TaskView>,
    ids: Seq<Seq<char>>,
    nows: Seq<Timestamp>,
    minlen: nat,
    d: int,
) -> Seq<TaskView>
    decreases ids.len(),
{
    if ids.len() == 0 {
        s
    } else {
        fold_suspend(
            step_suspend(s, ids[0], minlen, nows[0], d),
            ids.skip(1),
            nows.skip(1),
            minlen,
            d,
        )
    }
}

/// Folding one more prefix is one more step.
proof fn lemma_fold_remove_snoc(s: Seq<TaskView>, ids: Seq<Seq<char>>, x: Seq<char>, minlen: nat)
    ensures
        fold_remove(s, ids.push(x), minlen) == step_remove(fold_remove(s, ids, minlen), x, minlen),
    decreases ids.len(),
{
    if ids.len() == 0 {
        assert(ids.push(x)[0] == x);
        assert(ids.push(x).skip(1) =~= Seq::<Seq<char>>::empty());
        assert(fold_remove(s, ids.push(x), minlen) == fold_remove(
            step_remove(s, x, minlen),
            Seq::<Seq<char>>::empty(),
            minlen,
        ));
        assert(fold_remove(step_remove(s, x, minlen), Seq::<Seq<char>>::empty(), minlen)
            == step_remove(s, x, minlen));
        assert(fold_remove(s, ids, minlen) == s);
    } else {
        assert(ids.push(x)[0] == ids[0]);
        assert(ids.push(x).skip(1) =~= ids.skip(1).push(x));
        lemma_fold_remove_snoc(step_remove(s, ids[0], minlen), ids.skip(1), x, minlen);
        assert(fold_remove(s, ids, minlen) == fold_remove(
            step_remove(s, ids[0], minlen),
            ids.skip(1),
            minlen,
        ));
    }
}

/// Folding one more prefix is one more step.
proof fn lemma_fold_complete_snoc(s: Seq<TaskView>, ids: Seq<Seq<char>>, x: Seq<char>, minlen: nat)
    ensures
        fold_complete(s, ids.push(x), minlen) == step_complete(
            fold_complete(s, ids, minlen),
            x,
            minlen,
        ),
    decreases ids.len(),
{
    if ids.len() == 0 {
        assert(ids.push(x)[0] == x);
        assert(ids.push(x).skip(1) =~= Seq::<Seq<char>>::empty());
        assert(fold_complete(s, ids.push(x), minlen) == fold_complete(
            step_complete(s, x, minlen),
            Seq::<Seq<char>>::empty(),
            minlen,
        ));
        assert(fold_complete(step_complete(s, x, minlen), Seq::<Seq<char>>::empty(), minlen)
            == step_complete(s, x, minlen));
        assert(fold_complete(s, ids, minlen) == s);
    } else {
        assert(ids.push(x)[0] == ids[0]);
        assert(ids.push(x).skip(1) =~= ids.skip(1).push(x));
        lemma_fold_complete_snoc(step_complete(s, ids[0], minlen), ids.skip(1), x, minlen);
        assert(fold_complete(s, ids, minlen) == fold_complete(
            step_complete(s, ids[0], minlen),
            ids.skip(1),
            minlen,
        ));
    }
}

/// Folding one more prefix is one more step.
proof fn lemma_fold_start_snoc(s: Seq<TaskView>, ids: Seq<Seq<char>>, x: Seq<char>, minlen: nat)
    ensures
        fold_start(s, ids.push(x), minlen) == step_start(fold_start(s, ids, minlen), x, minlen),
    decreases ids.len(),
{
    if ids.len() == 0 {
        assert(ids.push(x)[0] == x);
        assert(ids.push(x).skip(1) =~= Seq::<Seq<char>>::empty());
        assert(fold_start(s, ids.push(x), minlen) == fold_start(
            step_start(s, x, minlen),
            Seq::<Seq<char>>::empty(),
            minlen,
        ));
        assert(fold_start(step_start(s, x, minlen), Seq::<Seq<char>>::empty(), minlen)
            == step_start(s, x, minlen));
        assert(fold_start(s, ids, minlen) == s);
    } else {
        assert(ids.push(x)[0] == ids[0]);
        assert(ids.push(x).skip(1) =~= ids.skip(1).push(x));
        lemma_fold_start_snoc(step_start(s, ids[0], minlen), ids.skip(1), x, minlen);
        assert(fold_start(s, ids, minlen) == fold_start(
            step_start(s, ids[0], minlen),
            ids.skip(1),
            minlen,
        ));
    }
}

/// Folding one more prefix is one more step.
proof fn lemma_fold_suspend_snoc(
    s: Seq<TaskView>,
    ids: Seq<Seq<char>>,
    nows: Seq<Timestamp>,
    x: Seq<char>,
    nw: Timestamp,
    minlen: nat,
    d: int,
)
    requires
        ids.len() == nows.len(),
    ensures
        fold_suspend(s, ids.push(x), nows.push(nw), minlen, d) == step_suspend(
            fold_suspend(s, ids, nows, minlen, d),
            x,
            minlen,
            nw,
            d,
        ),
    decreases ids.len(),
{
    if ids.len() == 0 {
        assert(ids.push(x)[0] == x);
        assert(nows.push(nw)[0] == nw);
        assert(ids.push(x).skip(1) =~= Seq::<Seq<char>>::empty());
        assert(nows.push(nw).skip(1) =~= Seq::<Timestamp>::empty());
        assert(fold_suspend(s, ids.push(x), nows.push(nw), minlen, d) == fold_suspend(
            step_suspend(s, x, minlen, nw, d),
            Seq::<Seq<char>>::empty(),
            Seq::<Timestamp>::empty(),
            minlen,
            d,
        ));
        assert(fold_suspend(
            step_suspend(s, x, minlen, nw, d),
            Seq::<Seq<char>>::empty(),
            Seq::<Timestamp>::empty(),
            minlen,
            d,
        ) == step_suspend(s, x, minlen, nw, d));
        assert(fold_suspend(s, ids, nows, minlen, d) == s);
    } else {
        assert(ids.push(x)[0] == ids[0]);
        assert(nows.push(nw)[0] == nows[0]);
        assert(ids.push(x).skip(1) =~= ids.skip(1).push(x));
        assert(nows.push(nw).skip(1) =~= nows.skip(1).push(nw));
        lemma_fold_suspend_snoc(
            step_suspend(s, ids[0], minlen, nows[0], d),
            ids.skip(1),
            nows.skip(1),
            x,
            nw,
            minlen,
            d,
        );
        assert(fold_suspend(s, ids, nows, minlen, d) == fold_suspend(
            step_suspend(s, ids[0], minlen, nows[0], d),
            ids.skip(1),
            nows.skip(1),
            minlen,
            d,
        ));
    }
}

impl TaskList {
    /// The position of the most urgent task, when the store is not
    /// empty.
    fn most_urgent_index(&self) -> (r: Option<usize>)
        ensures
            match r {
                Some(i) => i < self@.len() && (forall|k: int|
                    0 <= k < self@.len() ==> task_le(self@[i as int], #[trigger] self@[k])),
                None => self@.len() == 0,
            },
    {
        if self.tasks.len() == 0 {
            return None;
        }
        let mut best: usize = 0;
        let mut j: usize = 1;
        proof {
            crate::task::lemma_task_le_reflexive(self@[0]);
        }
        while j < self.tasks.len()
            invariant
                0 <= best < j <= self.tasks.len(),
                self@.len() == self.tasks.len(),
                forall|k: int| 0 <= k < j ==> task_le(self@[best as int], #[trigger] self@[k]),
            decreases self.tasks.len() - j,
        {
            if !task_le_exec(&self.tasks[best], &self.tasks[j]) {
                proof {
                    crate::task::lemma_task_le_total(self@[best as int], self@[j as int]);
                    assert forall|k: int|
                        0 <= k < j + 1 implies task_le(self@[j as int], #[trigger] self@[k]) by {
                        if k < j {
                            crate::task::lemma_task_le_transitive(
                                self@[j as int],
                                self@[best as int],
                                self@[k],
                            );
                        } else {
                            crate::task::lemma_task_le_reflexive(self@[j as int]);
                        }
                    }
                }
                best = j;
            }
            j += 1;
        }
        Some(best)
    }

    /// Adds tasks for the given names: none makes one task with the
    /// default name, several single-word names make one task named by
    /// joining them, anything else makes one task per name. Returns the
    /// ids of the created tasks; when those random ids are fresh and
    /// distinct — the ordinary case — exactly the merged names are
    /// appended, in order, each under its returned id.
    #[verifier::rlimit(100)]
    pub fn process_add(&mut self, names: Vec<String>, is_interrupt: bool) -> (r: Vec<String>)
        requires
            old(self).wf(),
        ensures
            final(self).wf(),
            final(self).min_prefix_spec() == old(self).min_prefix_spec(),
            r.deep_view().len() == spec_merge_names(
                names.deep_view(),
                old(self)@.len() as int,
            ).len(),
            old(self)@.len() <= final(self)@.len(),
            forall|k: int| 0 <= k < old(self)@.len() ==> final(self)@[k] == old(self)@[k],
            forall|j: int|
                old(self)@.len() <= j < final(self)@.len() ==> task_wf(#[trigger] final(self)@[j])
                    && final(self)@[j].status == (if is_interrupt {
                    TaskStatus::Active
                } else {
                    TaskStatus::Backlog
                }) && final(self)@[j].blocked_by.len() == 0 && final(self)@[j].wake_at is None,
            (distinct_seq(r.deep_view()) && (forall|k: int|
                0 <= k < r.deep_view().len() ==> !contains_id(
                    old(self)@,
                    #[trigger] r.deep_view()[k],
                ))) ==> ({
                let merged = spec_merge_names(names.deep_view(), old(self)@.len() as int);
                &&& final(self)@.len() == old(self)@.len() + merged.len()
                &&& forall|k: int|
                    0 <= k < merged.len() ==> (#[trigger] final(self)@[old(self)@.len() + k]).summary
                        == merged[k] && final(self)@[old(self)@.len() + k].id == r.deep_view()[k]
                        && final(self)@[old(self)@.len() + k].category == "quick"@
            }),
    {
        let count = self.tasks.len();
        let merged = merge_task_names(&names, count);
        let ghost mdv = merged.deep_view();
        let ghost base = old(self)@;
        let mut ids: Vec<String> = Vec::new();
        let mut i: usize = 0;
        while i < merged.len()
            invariant
                0 <= i <= merged.len(),
                ids.len() == i,
                mdv == merged.deep_view(),
                mdv.len() == merged.len(),
                base == old(self)@,
                self.wf(),
                self.min_prefix_spec() == old(self).min_prefix_spec(),
                base.len() <= self@.len(),
                forall|k: int| 0 <= k < base.len() ==> self@[k] == base[k],
                forall|j: int|
                    base.len() <= j < self@.len() ==> task_wf(#[trigger] self@[j]) && self@[j].status
                        == (if is_interrupt {
                        TaskStatus::Active
                    } else {
                        TaskStatus::Backlog
                    }) && self@[j].blocked_by.len() == 0 && self@[j].wake_at is None,
                (distinct_seq(ids.deep_view()) && (forall|k: int|
                    0 <= k < ids.deep_view().len() ==> !contains_id(
                        base,
                        #[trigger] ids.deep_view()[k],
                    ))) ==> (self@.len() == base.len() + i && (forall|k: int|
                    0 <= k < i ==> (#[trigger] self@[base.len() + k]).summary == mdv[k]
                        && self@[base.len() + k].id == ids.deep_view()[k] && self@[base.len()
                        + k].category == "quick"@)),
            decreases merged.len() - i,
        {
            let name = merged[i].clone();
            let category = String::from_str("quick");
            let t = Task::new(name, category, is_interrupt);
            let ghost tv = t@;
            let ghost pre = self@;
            let ghost rid_old = ids.deep_view();
            let id = self.add_task(t);
            ids.push(id);
            proof {
                let rid_new = ids.deep_view();
                assert(rid_new =~= rid_old.push(tv.id));
                assert(rid_new[i as int] == tv.id);
                if distinct_seq(rid_new) && (forall|k: int|
                    0 <= k < rid_new.len() ==> !contains_id(base, #[trigger] rid_new[k])) {
                    assert(distinct_seq(rid_old)) by {
                        assert(forall|k: int| 0 <= k < rid_old.len() ==> rid_old[k] == rid_new[k]);
                    }
                    assert forall|k: int|
                        0 <= k < rid_old.len() implies !contains_id(
                        base,
                        #[trigger] rid_old[k],
                    ) by {
                        assert(rid_old[k] == rid_new[k]);
                    }
                    assert(pre.len() == base.len() + i);
                    assert(!contains_id(pre, tv.id)) by {
                        if contains_id(pre, tv.id) {
                            let j = choose|j: int|
                                0 <= j < pre.len() && (#[trigger] pre[j]).id == tv.id;
                            if j < base.len() {
                                assert(base[j].id == tv.id);
                                assert(contains_id(base, rid_new[i as int]));
                            } else {
                                let kk = j - base.len();
                                assert(pre[base.len() + kk].id == rid_old[kk]);
                                assert(rid_new[kk] == rid_new[i as int]);
                            }
                        }
                    }
                    assert(self@ == pre.push(tv));
                }
            }
            i += 1;
        }
        ids
    }

    /// Removes tasks: each given prefix removes its uniquely resolved
    /// task; no prefixes remove the most urgent task. Returns how many
    /// tasks were removed.
    pub fn process_del(&mut self, ids: &Vec<String>) -> (n: usize)
        requires
            old(self).wf(),
        ensures
            final(self).wf(),
            final(self).min_prefix_spec() == old(self).min_prefix_spec(),
            n == old(self)@.len() - final(self)@.len(),
            ids.len() == 0 && old(self)@.len() > 0 ==> n == 1 && (exists|i: int|
                0 <= i < old(self)@.len() && (forall|k: int|
                    0 <= k < old(self)@.len() ==> task_le(
                        #[trigger] old(self)@[i],
                        #[trigger] old(self)@[k],
                    )) && final(self)@ == old(self)@.remove(i)),
            ids.len() == 0 && old(self)@.len() == 0 ==> final(self)@ == old(self)@,
            ids.deep_view().len() > 0 ==> final(self)@ == fold_remove(
                old(self)@,
                ids.deep_view(),
                old(self).min_prefix_spec(),
            ),
    {
        if ids.len() == 0 {
            match self.most_urgent_index() {
                Some(i) => {
                    self.tasks.remove(i);
                    assert(final(self)@ =~= old(self)@.remove(i as int));
                    1
                },
                None => 0,
            }
        } else {
            let mut n: usize = 0;
            let mut k: usize = 0;
            let ghost dv = ids.deep_view();
            let ghost m = old(self).min_prefix_spec();
            proof {
                assert(dv.take(0) =~= Seq::<Seq<char>>::empty());
                assert(fold_remove(old(self)@, dv.take(0), m) == old(self)@);
            }
            while k < ids.len()
                invariant
                    0 <= k <= ids.len(),
                    n <= k,
                    dv == ids.deep_view(),
                    dv.len() == ids.len(),
                    m == old(self).min_prefix_spec(),
                    self.wf(),
                    self.min_prefix_spec() == old(self).min_prefix_spec(),
                    n == old(self)@.len() - self@.len(),
                    self@.len() <= old(self)@.len(),
                    self@ == fold_remove(old(self)@, dv.take(k as int), m),
                decreases ids.len() - k,
            {
                let ghost before = self@;
                let removed = self.remove_task(ids[k].as_str());
                proof {
                    let res = spec_resolve(before, dv[k as int], m);
                    if res is Some {
                        lemma_resolve_some(before, dv[k as int], m);
                        assert(self@ == before.remove(res->0));
                        assert(self@.len() == before.len() - 1);
                    } else {
                        assert(self@ == before);
                    }
                    assert(self@ == step_remove(before, dv[k as int], m));
                    assert(dv.take(k + 1) =~= dv.take(k as int).push(dv[k as int]));
                    lemma_fold_remove_snoc(old(self)@, dv.take(k as int), dv[k as int], m);
                }
                n += removed;
                k += 1;
            }
            assert(dv.take(ids.len() as int) =~= dv);
            n
        }
    }

    /// Completes tasks: each given prefix completes its uniquely
    /// resolved task; no prefixes complete the most urgent active task.
    /// Returns how many tasks were completed.
    #[verifier::rlimit(100)]
    pub fn process_complete(&mut self, ids: &Vec<String>) -> (n: usize)
        requires
            old(self).wf(),
        ensures
            final(self).wf(),
            final(self).min_prefix_spec() == old(self).min_prefix_spec(),
            ids.len() == 0 && (forall|i: int|
                0 <= i < old(self)@.len() ==> (#[trigger] old(self)@[i]).status
                    != TaskStatus::Active) ==> n == 0 && final(self)@ == old(self)@,
            ids.len() == 0 && (exists|i: int|
                0 <= i < old(self)@.len() && (#[trigger] old(self)@[i]).status
                    == TaskStatus::Active) ==> (exists|i: int|
                0 <= i < old(self)@.len() && (#[trigger] old(self)@[i]).status == TaskStatus::Active
                    && (forall|k: int|
                    0 <= k < old(self)@.len() && (#[trigger] old(self)@[k]).status
                        == TaskStatus::Active ==> task_le(old(self)@[i], old(self)@[k]))
                    && final(self)@ == step_complete(
                    old(self)@,
                    old(self)@[i].id,
                    old(self).min_prefix_spec(),
                )),
            ids.deep_view().len() > 0 ==> final(self)@ == fold_complete(
                old(self)@,
                ids.deep_view(),
                old(self).min_prefix_spec(),
            ),
    {
        if ids.len() == 0 {
            match self.first_with_status(TaskStatus::Active) {
                Some(t) => {
                    let ghost tv = t@;
                    let n = self.complete_task(t.id.as_str());
                    proof {
                        let i = choose|i: int| 0 <= i < old(self)@.len() && old(self)@[i] == tv;
                        assert(old(self)@[i].status == TaskStatus::Active);
                        assert(final(self)@ == step_complete(
                            old(self)@,
                            old(self)@[i].id,
                            old(self).min_prefix_spec(),
                        ));
                    }
                    n
                },
                None => 0,
            }
        } else {
            let mut n: usize = 0;
            let mut k: usize = 0;
            let ghost dv = ids.deep_view();
            let ghost m = old(self).min_prefix_spec();
            proof {
                assert(dv.take(0) =~= Seq::<Seq<char>>::empty());
                assert(fold_complete(old(self)@, dv.take(0), m) == old(self)@);
            }
            while k < ids.len()
                invariant
                    0 <= k <= ids.len(),
                    n <= k,
                    dv == ids.deep_view(),
                    dv.len() == ids.len(),
                    m == old(self).min_prefix_spec(),
                    self.wf(),
                    self.min_prefix_spec() == old(self).min_prefix_spec(),
                    self@ == fold_complete(old(self)@, dv.take(k as int), m),
                decreases ids.len() - k,
            {
                let ghost before = self@;
                let c = self.complete_task(ids[k].as_str());
                proof {
                    assert(self@ == step_complete(before, dv[k as int], m));
                    assert(dv.take(k + 1) =~= dv.take(k as int).push(dv[k as int]));
                    lemma_fold_complete_snoc(old(self)@, dv.take(k as int), dv[k as int], m);
                }
                n = n + c;
                k += 1;
            }
            assert(dv.take(ids.len() as int) =~= dv);
            n
        }
    }

    /// Starts tasks: each given prefix starts its uniquely resolved
    /// task; no prefixes start the most urgent backlog task, but only
    /// when no task is active. Returns how many tasks were started.
    #[verifier::rlimit(100)]
    pub fn process_start(&mut self, ids: &Vec<String>) -> (n: usize)
        requires
            old(self).wf(),
        ensures
            final(self).wf(),
            final(self).min_prefix_spec() == old(self).min_prefix_spec(),
            ids.len() == 0 && (exists|i: int|
                0 <= i < old(self)@.len() && (#[trigger] old(self)@[i]).status
                    == TaskStatus::Active) ==> n == 0 && final(self)@ == old(self)@,
            ids.len() == 0 && (forall|i: int|
                0 <= i < old(self)@.len() ==> (#[trigger] old(self)@[i]).status
                    != TaskStatus::Active && old(self)@[i].status != TaskStatus::Backlog) ==> n == 0
                && final(self)@ == old(self)@,
            ids.len() == 0 && (forall|i: int|
                0 <= i < old(self)@.len() ==> (#[trigger] old(self)@[i]).status
                    != TaskStatus::Active) && (exists|i: int|
                0 <= i < old(self)@.len() && (#[trigger] old(self)@[i]).status
                    == TaskStatus::Backlog) ==> (exists|i: int|
                0 <= i < old(self)@.len() && (#[trigger] old(self)@[i]).status == TaskStatus::Backlog
                    && (forall|k: int|
                    0 <= k < old(self)@.len() && (#[trigger] old(self)@[k]).status
                        == TaskStatus::Backlog ==> task_le(old(self)@[i], old(self)@[k]))
                    && final(self)@ == step_start(
                    old(self)@,
                    old(self)@[i].id,
                    old(self).min_prefix_spec(),
                )),
            ids.deep_view().len() > 0 ==> final(self)@ == fold_start(
                old(self)@,
                ids.deep_view(),
                old(self).min_prefix_spec(),
            ),
    {
        if ids.len() == 0 {
            match self.first_with_status(TaskStatus::Active) {
                Some(_) => 0,
                None => {
                    match self.first_with_status(TaskStatus::Backlog) {
                        Some(t) => {
                            let ghost tv = t@;
                            let n = self.start_task(t.id.as_str());
                            proof {
                                let i = choose|i: int|
                                    0 <= i < old(self)@.len() && old(self)@[i] == tv;
                                assert(old(self)@[i].status == TaskStatus::Backlog);
                                assert(final(self)@ == step_start(
                                    old(self)@,
                                    old(self)@[i].id,
                                    old(self).min_prefix_spec(),
                                ));
                            }
                            n
                        },
                        None => 0,
                    }
                },
            }
        } else {
            let mut n: usize = 0;
            let mut k: usize = 0;
            let ghost dv = ids.deep_view();
            let ghost m = old(self).min_prefix_spec();
            proof {
                assert(dv.take(0) =~= Seq::<Seq<char>>::empty());
                assert(fold_start(old(self)@, dv.take(0), m) == old(self)@);
            }
            while k < ids.len()
                invariant
                    0 <= k <= ids.len(),
                    n <= k,
                    dv == ids.deep_view(),
                    dv.len() == ids.len(),
                    m == old(self).min_prefix_spec(),
                    self.wf(),
                    self.min_prefix_spec() == old(self).min_prefix_spec(),
                    self@ == fold_start(old(self)@, dv.take(k as int), m),
                decreases ids.len() - k,
            {
                let ghost before = self@;
                let c = self.start_task(ids[k].as_str());
                proof {
                    assert(self@ == step_start(before, dv[k as int], m));
                    assert(dv.take(k + 1) =~= dv.take(k as int).push(dv[k as int]));
                    lemma_fold_start_snoc(old(self)@, dv.take(k as int), dv[k as int], m);
                }
                n = n + c;
                k += 1;
            }
            assert(dv.take(ids.len() as int) =~= dv);
            n
        }
    }

    /// Stops tasks by putting them to sleep with a zero duration, so
    /// the next maintenance pass returns them to the backlog: each
    /// given prefix stops its uniquely resolved task; no prefixes stop
    /// the most urgent active task.
    #[verifier::rlimit(100)]
    pub fn process_stop(&mut self, ids: &Vec<String>) -> (n: usize)
        requires
            old(self).wf(),
        ensures
            final(self).wf(),
            final(self).min_prefix_spec() == old(self).min_prefix_spec(),
            ids.len() == 0 && (forall|i: int|
                0 <= i < old(self)@.len() ==> (#[trigger] old(self)@[i]).status
                    != TaskStatus::Active) ==> n == 0 && final(self)@ == old(self)@,
            ids.len() == 0 && (exists|i: int|
                0 <= i < old(self)@.len() && (#[trigger] old(self)@[i]).status
                    == TaskStatus::Active) ==> (exists|i: int, now: Timestamp|
                0 <= i < old(self)@.len() && old(self)@[i].status == TaskStatus::Active && ts_wf(
                    now,
                ) && (forall|k: int|
                    0 <= k < old(self)@.len() && (#[trigger] old(self)@[k]).status
                        == TaskStatus::Active ==> task_le(old(self)@[i], old(self)@[k]))
                    && final(self)@ == (#[trigger] step_suspend(
                    old(self)@,
                    old(self)@[i].id,
                    old(self).min_prefix_spec(),
                    now,
                    0,
                ))),
            ids.deep_view().len() > 0 ==> (exists|nows: Seq<Timestamp>|
                nows.len() == ids.deep_view().len() && (forall|q: int|
                    0 <= q < nows.len() ==> ts_wf(#[trigger] nows[q])) && final(self)@
                    == fold_suspend(
                    old(self)@,
                    ids.deep_view(),
                    nows,
                    old(self).min_prefix_spec(),
                    0,
                )),
    {
        proof {
            lemma_parse_zero();
        }
        if ids.len() == 0 {
            match self.first_with_status(TaskStatus::Active) {
                Some(t) => {
                    let ghost tv = t@;
                    match self.suspend_task(t.id.as_str(), "0") {
                        Ok(c) => {
                            proof {
                                let i = choose|i: int|
                                    0 <= i < old(self)@.len() && old(self)@[i] == tv;
                                let m = old(self).min_prefix_spec();
                                let res = spec_resolve(old(self)@, tv.id, m);
                                if res is Some && !(old(self)@[res->0].status is Completed) {
                                    let nw = choose|nw: Timestamp|
                                        ts_wf(nw) && final(self)@ == old(self)@.update(
                                            res->0,
                                            suspended(old(self)@[res->0], #[trigger] ts_plus(nw, 0)),
                                        );
                                    assert(final(self)@ == step_suspend(
                                        old(self)@,
                                        old(self)@[i].id,
                                        m,
                                        nw,
                                        0,
                                    ));
                                } else {
                                    let nw = Timestamp { secs: TS_MIN_SECS, offset_minutes: 0 };
                                    assert(ts_wf(nw));
                                    assert(final(self)@ == step_suspend(
                                        old(self)@,
                                        old(self)@[i].id,
                                        m,
                                        nw,
                                        0,
                                    ));
                                }
                            }
                            c
                        },
                        Err(_) => 0,
                    }
                },
                None => 0,
            }
        } else {
            let mut n: usize = 0;
            let mut k: usize = 0;
            let ghost dv = ids.deep_view();
            let ghost m = old(self).min_prefix_spec();
            let ghost mut nows: Seq<Timestamp> = Seq::empty();
            proof {
                assert(dv.take(0) =~= Seq::<Seq<char>>::empty());
                assert(fold_suspend(old(self)@, dv.take(0), nows, m, 0) == old(self)@);
            }
            while k < ids.len()
                invariant
                    0 <= k <= ids.len(),
                    n <= k,
                    dv == ids.deep_view(),
                    dv.len() == ids.len(),
                    m == old(self).min_prefix_spec(),
                    nows.len() == k,
                    forall|q: int| 0 <= q < nows.len() ==> ts_wf(#[trigger] nows[q]),
                    self.wf(),
                    self.min_prefix_spec() == old(self).min_prefix_spec(),
                    self@ == fold_suspend(old(self)@, dv.take(k as int), nows, m, 0),
                decreases ids.len() - k,
            {
                proof {
                    lemma_parse_zero();
                }
                let ghost before = self@;
                match self.suspend_task(ids[k].as_str(), "0") {
                    Ok(c) => {
                        proof {
                            let res = spec_resolve(before, dv[k as int], m);
                            let ghost nw: Timestamp;
                            if res is Some && !(before[res->0].status is Completed) {
                                nw = choose|nw: Timestamp|
                                    ts_wf(nw) && self@ == before.update(
                                        res->0,
                                        suspended(before[res->0], #[trigger] ts_plus(nw, 0)),
                                    );
                            } else {
                                nw = Timestamp { secs: TS_MIN_SECS, offset_minutes: 0 };
                            }
                            assert(ts_wf(nw));
                            assert(self@ == step_suspend(before, dv[k as int], m, nw, 0));
                            assert(dv.take(k + 1) =~= dv.take(k as int).push(dv[k as int]));
                            lemma_fold_suspend_snoc(
                                old(self)@,
                                dv.take(k as int),
                                nows,
                                dv[k as int],
                                nw,
                                m,
                                0,
                            );
                            nows = nows.push(nw);
                        }
                        n = n + c;
                    },
                    Err(_) => {
                        proof {
                            assert(false);
                        }
                    },
                }
                k += 1;
            }
            assert(dv.take(ids.len() as int) =~= dv);
            n
        }
    }

    /// Puts tasks to sleep for the given duration text: each given
    /// prefix suspends its uniquely resolved task; no prefixes suspend
    /// the most urgent active task. A duration that does not parse or
    /// does not fit fails the operation with the parse diagnostic before
    /// anything changes; the duration is not read at all when there is
    /// nothing to suspend.
    #[verifier::rlimit(100)]
    pub fn process_sleep(&mut self, ids: &Vec<String>, duration: &str) -> (r: Result<
        usize,
        crate::simple_duration::Error,
    >)
        requires
            old(self).wf(),
        ensures
            final(self).wf(),
            final(self).min_prefix_spec() == old(self).min_prefix_spec(),
            r is Err ==> final(self)@ == old(self)@ && !(
            crate::simple_duration::spec_parse_duration(duration@) is Ok && -i64::MAX
                <= crate::simple_duration::spec_parse_duration(duration@)->Ok_0 <= i64::MAX)
                && (match crate::simple_duration::spec_parse_duration(duration@) {
                Ok(v) => r->Err_0.message() == crate::simple_duration::dur_err_msg(duration@),
                Err(msg) => r->Err_0.message() == msg,
            }),
            (crate::simple_duration::spec_parse_duration(duration@) is Ok && -i64::MAX
                <= crate::simple_duration::spec_parse_duration(duration@)->Ok_0 <= i64::MAX)
                ==> r is Ok,
            ids.len() == 0 && (forall|i: int|
                0 <= i < old(self)@.len() ==> (#[trigger] old(self)@[i]).status
                    != TaskStatus::Active) ==> r == Ok::<usize, crate::simple_duration::Error>(0)
                && final(self)@ == old(self)@,
            r is Ok && ids.deep_view().len() > 0 ==> (exists|nows: Seq<Timestamp>|
                nows.len() == ids.deep_view().len() && (forall|q: int|
                    0 <= q < nows.len() ==> ts_wf(#[trigger] nows[q])) && final(self)@
                    == fold_suspend(
                    old(self)@,
                    ids.deep_view(),
                    nows,
                    old(self).min_prefix_spec(),
                    crate::simple_duration::spec_parse_duration(duration@)->Ok_0,
                )),
    {
        let ghost d = crate::simple_duration::spec_parse_duration(duration@)->Ok_0;
        if ids.len() == 0 {
            match self.first_with_status(TaskStatus::Active) {
                Some(t) => self.suspend_task(t.id.as_str(), duration),
                None => Ok(0),
            }
        } else {
            let mut n: usize = 0;
            let mut k: usize = 0;
            let ghost dv = ids.deep_view();
            let ghost m = old(self).min_prefix_spec();
            let ghost mut nows: Seq<Timestamp> = Seq::empty();
            proof {
                assert(dv.take(0) =~= Seq::<Seq<char>>::empty());
                assert(fold_suspend(old(self)@, dv.take(0), nows, m, d) == old(self)@);
            }
            while k < ids.len()
                invariant
                    0 <= k <= ids.len(),
                    n <= k,
                    dv == ids.deep_view(),
                    dv.len() == ids.len(),
                    m == old(self).min_prefix_spec(),
                    d == crate::simple_duration::spec_parse_duration(duration@)->Ok_0,
                    nows.len() == k,
                    forall|q: int| 0 <= q < nows.len() ==> ts_wf(#[trigger] nows[q]),
                    k > 0 ==> (crate::simple_duration::spec_parse_duration(duration@) is Ok
                        && -i64::MAX <= d <= i64::MAX),
                    self.wf(),
                    self.min_prefix_spec() == old(self).min_prefix_spec(),
                    self@ == fold_suspend(old(self)@, dv.take(k as int), nows, m, d),
                decreases ids.len() - k,
            {
                let ghost before = self@;
                match self.suspend_task(ids[k].as_str(), duration) {
                    Ok(c) => {
                        proof {
                            let res = spec_resolve(before, dv[k as int], m);
                            let ghost nw: Timestamp;
                            if res is Some && !(before[res->0].status is Completed) {
                                nw = choose|nw: Timestamp|
                                    ts_wf(nw) && self@ == before.update(
                                        res->0,
                                        suspended(before[res->0], #[trigger] ts_plus(nw, d)),
                                    );
                            } else {
                                nw = Timestamp { secs: TS_MIN_SECS, offset_minutes: 0 };
                            }
                            assert(ts_wf(nw));
                            assert(self@ == step_suspend(before, dv[k as int], m, nw, d));
                            assert(dv.take(k + 1) =~= dv.take(k as int).push(dv[k as int]));
                            lemma_fold_suspend_snoc(
                                old(self)@,
                                dv.take(k as int),
                                nows,
                                dv[k as int],
                                nw,
                                m,
                                d,
                            );
                            nows = nows.push(nw);
                        }
                        n = n + c;
                    },
                    Err(e) => {
                        proof {
                            assert(k == 0);
                            assert(before == old(self)@);
                        }
                        return Err(e);
                    },
                }
                k += 1;
            }
            assert(dv.take(ids.len() as int) =~= dv);
            Ok(n)
        }
    }
}

/// A zero duration text parses to zero seconds.
proof fn lemma_parse_zero()
    ensures
        crate::simple_duration::spec_parse_duration("0"@) == Ok::<int, Seq<char>>(0),
{
    reveal_strlit("0");
    assert("0"@.len() == 1 && "0"@[0] == '0');
}

/// The pieces of a rendered countdown: the days, hours, minutes and
/// seconds of a span, each listed only when it is not zero.
pub open spec fn countdown_pieces(t: int) -> Seq<Seq<char>> {
    let days = t / 86400;
    let hours = t / 3600 % 24;
    let minutes = t / 60 % 60;
    let seconds = t % 60;
    (if days > 0 {
        seq![dec_nat(days) + seq!['d']]
    } else {
        Seq::empty()
    }) + (if hours > 0 {
        seq![dec_nat(hours) + seq!['h']]
    } else {
        Seq::empty()
    }) + (if minutes > 0 {
        seq![dec_nat(minutes) + seq!['m']]
    } else {
        Seq::empty()
    }) + (if seconds > 0 {
        seq![dec_nat(seconds) + seq!['s']]
    } else {
        Seq::empty()
    })
}

/// The annotation rendered beside a sleeping task: the wake time as a
/// local date and time, and in parentheses how far away it lies — or by
/// how much it is overdue.
pub open spec fn wake_note_spec(wake: Timestamp, now: Timestamp) -> Seq<char> {
    let date = crate::timefmt::fmt_ts(wake).take(10) + seq![' '] + crate::timefmt::fmt_ts(
        wake,
    ).subrange(11, 19);
    let delta = wake.secs - now.secs;
    let overdue = delta <= 0;
    let total: int = if overdue {
        -delta
    } else {
        delta
    };
    date + seq![' ', '('] + (if overdue {
        "overdue by "@
    } else {
        Seq::empty()
    }) + join_names(countdown_pieces(total)) + seq![')']
}

/// Renders the countdown pieces of a span, joined by spaces.
#[verifier::rlimit(100)]
fn countdown_text(tu: u64) -> (r: Vec<char>)
    ensures
        r@ == join_names(countdown_pieces(tu as int)),
{
    let ghost ti: int = tu as int;
    let ghost c1: Seq<Seq<char>> = if ti / 86400 > 0 {
        seq![dec_nat(ti / 86400) + seq!['d']]
    } else {
        Seq::empty()
    };
    let ghost c2: Seq<Seq<char>> = if ti / 3600 % 24 > 0 {
        seq![dec_nat(ti / 3600 % 24) + seq!['h']]
    } else {
        Seq::empty()
    };
    let ghost c3: Seq<Seq<char>> = if ti / 60 % 60 > 0 {
        seq![dec_nat(ti / 60 % 60) + seq!['m']]
    } else {
        Seq::empty()
    };
    let ghost c4: Seq<Seq<char>> = if ti % 60 > 0 {
        seq![dec_nat(ti % 60) + seq!['s']]
    } else {
        Seq::empty()
    };
    let mut pieces: Vec<Vec<char>> = Vec::new();
    if tu / 86400 > 0 {
        let mut p: Vec<char> = Vec::new();
        push_dec(&mut p, (tu / 86400) as u128);
        p.push('d');
        assert(p@ =~= dec_nat(ti / 86400) + seq!['d']);
        pieces.push(p);
    }
    assert(pieces.deep_view() =~~= c1);
    if tu / 3600 % 24 > 0 {
        let mut p: Vec<char> = Vec::new();
        push_dec(&mut p, (tu / 3600 % 24) as u128);
        p.push('h');
        assert(p@ =~= dec_nat(ti / 3600 % 24) + seq!['h']);
        pieces.push(p);
    }
    assert(pieces.deep_view() =~~= c1 + c2);
    if tu / 60 % 60 > 0 {
        let mut p: Vec<char> = Vec::new();
        push_dec(&mut p, (tu / 60 % 60) as u128);
        p.push('m');
        assert(p@ =~= dec_nat(ti / 60 % 60) + seq!['m']);
        pieces.push(p);
    }
    assert(pieces.deep_view() =~~= c1 + c2 + c3);
    if tu % 60 > 0 {
        let mut p: Vec<char> = Vec::new();
        push_dec(&mut p, (tu % 60) as u128);
        p.push('s');
        assert(p@ =~= dec_nat(ti % 60) + seq!['s']);
        pieces.push(p);
    }
    assert(pieces.deep_view() =~~= c1 + c2 + c3 + c4);
    assert(pieces.deep_view() =~~= countdown_pieces(ti));

    let mut out: Vec<char> = Vec::new();
    let mut k: usize = 0;
    assert(out@ =~= join_names(pieces.deep_view().take(0)));
    while k < pieces.len()
        invariant
            0 <= k <= pieces.len(),
            pieces.deep_view() == countdown_pieces(tu as int),
            out@ == join_names(pieces.deep_view().take(k as int)),
        decreases pieces.len() - k,
    {
        if k > 0 {
            out.push(' ');
        }
        let ghost before = out@;
        let piece = &pieces[k];
        let mut j: usize = 0;
        while j < piece.len()
            invariant
                0 <= j <= piece.len(),
                piece@ == pieces@[k as int]@,
                out@ == before + piece@.take(j as int),
            decreases piece.len() - j,
        {
            out.push(piece[j]);
            assert(out@ =~= before + piece@.take(j + 1));
            j += 1;
        }
        proof {
            assert(piece@.take(piece@.len() as int) =~= piece@);
            let pv = pieces.deep_view();
            assert(pv.take(k + 1).drop_last() =~= pv.take(k as int));
            assert(pv.take(k + 1).last() == pv[k as int]);
            if k == 0 {
                assert(pv.take(1) =~= seq![pv[0]]);
                assert(out@ =~= join_names(pv.take(1)));
            } else {
                assert(out@ =~= join_names(pv.take(k + 1)));
            }
        }
        k += 1;
    }
    assert(pieces.deep_view().take(pieces.len() as int) =~= pieces.deep_view());
    out
}

/// Renders the wake-time annotation of a sleeping task.
#[verifier::rlimit(100)]
pub fn wake_note(wake: Timestamp, now: Timestamp) -> (r: String)
    requires
        ts_wf(wake),
        ts_wf(now),
    ensures
        r@ == wake_note_spec(wake, now),
{
    let mut stamp: Vec<char> = Vec::new();
    crate::timefmt::push_ts(&mut stamp, wake);
    proof {
        crate::timefmt::lemma_fmt_ts_len(wake);
        assert(stamp@ =~= crate::timefmt::fmt_ts(wake));
    }
    let mut out: Vec<char> = Vec::new();
    let mut k: usize = 0;
    while k < 10
        invariant
            0 <= k <= 10,
            stamp@ == crate::timefmt::fmt_ts(wake),
            stamp@.len() == 25,
            out@ == stamp@.take(k as int),
        decreases 10 - k,
    {
        out.push(stamp[k]);
        assert(out@ =~= stamp@.take(k + 1));
        k += 1;
    }
    out.push(' ');
    let ghost date_head = stamp@.take(10) + seq![' '];
    assert(out@ =~= date_head);
    let mut k: usize = 11;
    while k < 19
        invariant
            11 <= k <= 19,
            stamp@ == crate::timefmt::fmt_ts(wake),
            stamp@.len() == 25,
            out@ == date_head + stamp@.subrange(11, k as int),
        decreases 19 - k,
    {
        out.push(stamp[k]);
        assert(out@ =~= date_head + stamp@.subrange(11, k + 1));
        k += 1;
    }
    out.push(' ');
    out.push('(');
    let delta: i64 = wake.secs - now.secs;
    let overdue = delta <= 0;
    let total: i64 = if overdue {
        -delta
    } else {
        delta
    };
    if overdue {
        push_str_chars_list(&mut out, "overdue by ");
    }
    let ghost head = out@;
    let tail = countdown_text(total as u64);
    let mut j: usize = 0;
    while j < tail.len()
        invariant
            0 <= j <= tail.len(),
            tail@ == join_names(countdown_pieces(total as u64 as int)),
            out@ == head + tail@.take(j as int),
        decreases tail.len() - j,
    {
        out.push(tail[j]);
        assert(out@ =~= head + tail@.take(j + 1));
        j += 1;
    }
    assert(tail@.take(tail@.len() as int) =~= tail@);
    out.push(')');
    assert(out@ =~= wake_note_spec(wake, now));
    crate::trusted::string_from_chars(&out)
}

/// Character-wise equality of two strings.
pub fn str_eq(a: &str, b: &str) -> (r: bool)
    ensures
        r == (a@ == b@),
{
    let alen = a.unicode_len();
    let blen = b.unicode_len();
    if alen != blen {
        return false;
    }
    let mut i: usize = 0;
    while i < alen
        invariant
            0 <= i <= alen,
            alen == a@.len(),
            blen == b@.len(),
            alen == blen,
            forall|k: int| 0 <= k < i ==> a@[k] == b@[k],
        decreases alen - i,
    {
        if a.get_char(i) != b.get_char(i) {
            return false;
        }
        i += 1;
    }
    assert(a@ =~= b@);
    true
}

/// Checks at run time that a task is well-formed.
pub fn task_wf_exec(t: &Task) -> (b: bool)
    ensures
        b == task_wf(t@),
{
    let ts_ok = ts_wf_exec(&t.created_at) && (match &t.wake_at {
        Some(w) => ts_wf_exec(w),
        None => true,
    });
    if !ts_ok {
        return false;
    }
    let mut i: usize = 0;
    while i < t.blocked_by.len()
        invariant
            0 <= i <= t.blocked_by.len(),
            forall|a: int, b: int|
                0 <= a < b < t.blocked_by.deep_view().len() && a < i ==> t.blocked_by.deep_view()[a]
                    != t.blocked_by.deep_view()[b],
        decreases t.blocked_by.len() - i,
    {
        let mut j: usize = i + 1;
        while j < t.blocked_by.len()
            invariant
                0 <= i < j <= t.blocked_by.len(),
                forall|b: int|
                    i < b < j ==> t.blocked_by.deep_view()[i as int] != t.blocked_by.deep_view()[b],
            decreases t.blocked_by.len() - j,
        {
            if str_eq(t.blocked_by[i].as_str(), t.blocked_by[j].as_str()) {
                assert(t.blocked_by.deep_view()[i as int] == t.blocked_by.deep_view()[j as int]);
                return false;
            }
            j += 1;
        }
        i += 1;
    }
    assert(distinct_seq(t.blocked_by.deep_view()));
    true
}

/// Checks at run time that a timestamp is well-formed.
pub fn ts_wf_exec(ts: &Timestamp) -> (b: bool)
    ensures
        b == ts_wf(*ts),
{
    crate::task::TS_MIN_SECS <= ts.secs && ts.secs <= crate::task::TS_MAX_SECS && -1439
        <= ts.offset_minutes && ts.offset_minutes <= 1439
}

/// The count of matches never exceeds the length.
proof fn lemma_count_le_len(s: Seq<TaskView>, p: Seq<char>)
    ensures
        count_matches(s, p) <= s.len(),
    decreases s.len(),
{
    if s.len() > 0 {
        lemma_count_le_len(s.drop_last(), p);
    }
}

} // verus!
