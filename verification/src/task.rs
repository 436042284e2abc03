//! The task entity: status enumeration, timestamps, the task record
//! itself, and the total ordering used to rank tasks by urgency.

use crate::trusted::{fresh_task_id, is_lower_hex, now_parts};
use vstd::prelude::*;

verus! {

/// Status of a task. The order of the variants is the rank used as the
/// primary sort key: `Active` tasks come first, `Completed` tasks last.
#[derive(Clone, Copy, Debug, PartialEq, Eq, Structural)]
pub enum TaskStatus {
    Active,
    Backlog,
    Blocked,
    Sleeping,
    Completed,
}

/// Sort rank of a status: `Active` is the most urgent, `Completed` the least.
pub open spec fn status_rank(s: TaskStatus) -> int {
    match s {
        TaskStatus::Active => 0,
        TaskStatus::Backlog => 1,
        TaskStatus::Blocked => 2,
        TaskStatus::Sleeping => 3,
        TaskStatus::Completed => 4,
    }
}

impl TaskStatus {
    /// The rank as an executable value.
    pub fn rank(&self) -> (r: u8)
        ensures
            r as int == status_rank(*self),
    {
        match self {
            TaskStatus::Active => 0,
            TaskStatus::Backlog => 1,
            TaskStatus::Blocked => 2,
            TaskStatus::Sleeping => 3,
            TaskStatus::Completed => 4,
        }
    }

    /// The lowercase name under which the status is persisted.
    pub fn name(&self) -> (r: &'static str)
        ensures
            r@ == status_name(*self),
    {
        match self {
            TaskStatus::Active => "active",
            TaskStatus::Backlog => "backlog",
            TaskStatus::Blocked => "blocked",
            TaskStatus::Sleeping => "sleeping",
            TaskStatus::Completed => "completed",
        }
    }
}

/// The persisted spelling of each status.
pub open spec fn status_name(s: TaskStatus) -> Seq<char> {
    match s {
        TaskStatus::Active => "active"@,
        TaskStatus::Backlog => "backlog"@,
        TaskStatus::Blocked => "blocked"@,
        TaskStatus::Sleeping => "sleeping"@,
        TaskStatus::Completed => "completed"@,
    }
}

/// An instant in time: seconds since the Unix epoch, together with the
/// local UTC offset (in minutes) that was in effect when the instant was
/// recorded. The offset only matters for rendering and persistence; all
/// comparisons of instants go by `secs`.
#[derive(Clone, Copy, Debug, PartialEq, Eq, Structural)]
pub struct Timestamp {
    pub secs: i64,
    pub offset_minutes: i32,
}

/// Lowest epoch second a stored timestamp may carry (one day into 1970,
/// so that applying any legal offset stays within the representable years).
pub const TS_MIN_SECS: i64 = 86400;

/// Highest epoch second a stored timestamp may carry (one day before the
/// end of year 9999).
pub const TS_MAX_SECS: i64 = 253402214399;

/// A well-formed timestamp: the epoch second is within the supported range
/// and the offset is a legal UTC offset (strictly less than a day in
/// either direction).
pub open spec fn ts_wf(ts: Timestamp) -> bool {
    &&& TS_MIN_SECS <= ts.secs <= TS_MAX_SECS
    &&& -1439 <= ts.offset_minutes <= 1439
}

/// The instant `t` shifted by `delta` seconds, clamped into the supported
/// range; the offset is kept.
pub open spec fn ts_plus(t: Timestamp, delta: int) -> Timestamp {
    let s: int = if t.secs + delta < TS_MIN_SECS {
        TS_MIN_SECS as int
    } else if t.secs + delta > TS_MAX_SECS {
        TS_MAX_SECS as int
    } else {
        t.secs + delta
    };
    Timestamp { secs: s as i64, offset_minutes: t.offset_minutes }
}

impl Timestamp {
    /// Builds a well-formed timestamp from arbitrary raw clock data by
    /// clamping the epoch second into the supported range and discarding
    /// an offset that is out of range.
    pub fn clamped(secs: i64, offset_minutes: i32) -> (r: Timestamp)
        ensures
            ts_wf(r),
            TS_MIN_SECS <= secs <= TS_MAX_SECS ==> r.secs == secs,
            -1439 <= offset_minutes <= 1439 ==> r.offset_minutes == offset_minutes,
    {
        let s: i64 = if secs < TS_MIN_SECS {
            TS_MIN_SECS
        } else if secs > TS_MAX_SECS {
            TS_MAX_SECS
        } else {
            secs
        };
        let o: i32 = if offset_minutes < -1439 || offset_minutes > 1439 {
            0
        } else {
            offset_minutes
        };
        Timestamp { secs: s, offset_minutes: o }
    }

    /// The instant shifted by a signed number of seconds, clamped so the
    /// result stays well-formed. The offset is kept.
    pub fn plus_seconds(&self, delta: i64) -> (r: Timestamp)
        requires
            ts_wf(*self),
        ensures
            ts_wf(r),
            r == ts_plus(*self, delta as int),
    {
        let shifted: i64 = match self.secs.checked_add(delta) {
            Some(v) => v,
            None => {
                if delta < 0 {
                    i64::MIN + 1
                } else {
                    i64::MAX
                }
            },
        };
        let s: i64 = if shifted < TS_MIN_SECS {
            TS_MIN_SECS
        } else if shifted > TS_MAX_SECS {
            TS_MAX_SECS
        } else {
            shifted
        };
        Timestamp { secs: s, offset_minutes: self.offset_minutes }
    }
}

/// One work item.
#[derive(Debug)]
pub struct Task {
    pub id: String,
    pub summary: String,
    pub details: String,
    pub priority: u8,
    pub category: String,
    pub created_at: Timestamp,
    pub status: TaskStatus,
    pub blocked_by: Vec<String>,
    pub wake_at: Option<Timestamp>,
}

/// The mathematical image of a task.
#[verifier::ext_equal]
pub struct TaskView {
    pub id: Seq<char>,
    pub summary: Seq<char>,
    pub details: Seq<char>,
    pub priority: int,
    pub category: Seq<char>,
    pub created_at: Timestamp,
    pub status: TaskStatus,
    pub blocked_by: Seq<Seq<char>>,
    pub wake_at: Option<Timestamp>,
}

impl View for Task {
    type V = TaskView;

    open spec fn view(&self) -> TaskView {
        TaskView {
            id: self.id@,
            summary: self.summary@,
            details: self.details@,
            priority: self.priority as int,
            category: self.category@,
            created_at: self.created_at,
            status: self.status,
            blocked_by: self.blocked_by.deep_view(),
            wake_at: self.wake_at,
        }
    }
}

impl DeepView for Task {
    type V = TaskView;

    open spec fn deep_view(&self) -> TaskView {
        self.view()
    }
}

/// A sequence holds no element twice.
pub open spec fn distinct_seq<A>(s: Seq<A>) -> bool {
    forall|i: int, j: int| 0 <= i < j < s.len() ==> s[i] != s[j]
}

/// A well-formed task: its timestamps are in range, its dependency
/// list holds no id twice, and its priority is a small number.
pub open spec fn task_wf(t: TaskView) -> bool {
    &&& ts_wf(t.created_at)
    &&& match t.wake_at {
        Some(w) => ts_wf(w),
        None => true,
    }
    &&& distinct_seq(t.blocked_by)
    &&& 0 <= t.priority <= 255
}

/// Lexicographic order on character sequences, by Unicode scalar value.
pub open spec fn lex_le(a: Seq<char>, b: Seq<char>) -> bool
    decreases a.len(),
{
    if a.len() == 0 {
        true
    } else if b.len() == 0 {
        false
    } else if (a[0] as u32) < (b[0] as u32) {
        true
    } else if (a[0] as u32) > (b[0] as u32) {
        false
    } else {
        lex_le(a.subrange(1, a.len() as int), b.subrange(1, b.len() as int))
    }
}

/// The secondary sort key: between tasks that are not both active,
/// a lower priority number is more urgent; the priority of active tasks
/// is ignored entirely.
pub open spec fn prio_key(t: TaskView) -> int {
    if t.status is Active {
        0
    } else {
        t.priority
    }
}

/// The total order on tasks, most urgent first:
/// two active tasks are ordered by creation time alone (oldest first);
/// otherwise status rank decides, then priority, then creation time.
/// Ties are broken by the id, so distinct tasks never compare equal both
/// ways.
pub open spec fn task_le(a: TaskView, b: TaskView) -> bool {
    if status_rank(a.status) != status_rank(b.status) {
        status_rank(a.status) < status_rank(b.status)
    } else if prio_key(a) != prio_key(b) {
        prio_key(a) < prio_key(b)
    } else if a.created_at.secs != b.created_at.secs {
        a.created_at.secs < b.created_at.secs
    } else {
        lex_le(a.id, b.id)
    }
}

/// `lex_le` is total: of any two sequences, one is less-or-equal to the
/// other.
pub proof fn lemma_lex_le_total(a: Seq<char>, b: Seq<char>)
    ensures
        lex_le(a, b) || lex_le(b, a),
    decreases a.len(),
{
    if a.len() != 0 && b.len() != 0 && !((a[0] as u32) < (b[0] as u32)) && !((b[0] as u32) < (
    a[0] as u32)) {
        lemma_lex_le_total(a.subrange(1, a.len() as int), b.subrange(1, b.len() as int));
    }
}

/// `lex_le` both ways only holds between equal sequences.
pub proof fn lemma_lex_le_antisymmetric(a: Seq<char>, b: Seq<char>)
    requires
        lex_le(a, b),
        lex_le(b, a),
    ensures
        a == b,
    decreases a.len(),
{
    if a.len() == 0 {
        assert(b.len() == 0);
        assert(a =~= b);
    } else {
        vstd::utf8::char_u32_cast(a[0], a[0] as u32);
        vstd::utf8::char_u32_cast(b[0], a[0] as u32);
        assert(a[0] == b[0]);
        let at = a.subrange(1, a.len() as int);
        let bt = b.subrange(1, b.len() as int);
        lemma_lex_le_antisymmetric(at, bt);
        assert(a.len() == b.len());
        assert forall|i: int| 0 <= i < a.len() implies a[i] == b[i] by {
            if i > 0 {
                assert(at[i - 1] == a[i]);
                assert(bt[i - 1] == b[i]);
            }
        }
        assert(a =~= b);
    }
}

/// `lex_le` is transitive.
pub proof fn lemma_lex_le_transitive(a: Seq<char>, b: Seq<char>, c: Seq<char>)
    requires
        lex_le(a, b),
        lex_le(b, c),
    ensures
        lex_le(a, c),
    decreases a.len(),
{
    if a.len() == 0 {
        assert(lex_le(a, c));
    } else {
        assert(b.len() != 0);
        assert(c.len() != 0);
        if (a[0] as u32) < (b[0] as u32) || (b[0] as u32) < (c[0] as u32) {
            assert((a[0] as u32) < (c[0] as u32));
            assert(lex_le(a, c));
        } else {
            vstd::utf8::char_u32_cast(a[0], a[0] as u32);
            vstd::utf8::char_u32_cast(b[0], a[0] as u32);
            vstd::utf8::char_u32_cast(c[0], b[0] as u32);
            assert(a[0] == b[0] && b[0] == c[0]);
            lemma_lex_le_transitive(
                a.subrange(1, a.len() as int),
                b.subrange(1, b.len() as int),
                c.subrange(1, c.len() as int),
            );
            assert(lex_le(a, c));
        }
    }
}

/// The task order is total.
pub proof fn lemma_task_le_total(a: TaskView, b: TaskView)
    ensures
        task_le(a, b) || task_le(b, a),
{
    lemma_lex_le_total(a.id, b.id);
}

/// The task order is transitive.
pub proof fn lemma_task_le_transitive(a: TaskView, b: TaskView, c: TaskView)
    requires
        task_le(a, b),
        task_le(b, c),
    ensures
        task_le(a, c),
{
    if status_rank(a.status) == status_rank(b.status)
        && status_rank(b.status) == status_rank(c.status)
        && prio_key(a) == prio_key(b) && prio_key(b) == prio_key(c)
        && a.created_at.secs == b.created_at.secs
        && b.created_at.secs == c.created_at.secs {
        lemma_lex_le_transitive(a.id, b.id, c.id);
    }
}

/// Tasks ordered both ways agree on every sort key, the id too.
pub proof fn lemma_task_le_antisymmetric_keys(a: TaskView, b: TaskView)
    requires
        task_le(a, b),
        task_le(b, a),
    ensures
        a.id == b.id,
        a.status == b.status,
{
    lemma_lex_le_antisymmetric(a.id, b.id);
}

/// `lex_le` is reflexive.
pub proof fn lemma_lex_le_reflexive(a: Seq<char>)
    ensures
        lex_le(a, a),
    decreases a.len(),
{
    if a.len() != 0 {
        lemma_lex_le_reflexive(a.subrange(1, a.len() as int));
    }
}

/// The task order is reflexive.
pub proof fn lemma_task_le_reflexive(a: TaskView)
    ensures
        task_le(a, a),
{
    lemma_lex_le_reflexive(a.id);
}

/// Between two active tasks, the earlier-created one sorts strictly
/// first, whatever their priorities.
pub proof fn lemma_active_order(a: TaskView, b: TaskView)
    requires
        a.status is Active,
        b.status is Active,
        a.created_at.secs < b.created_at.secs,
    ensures
        task_le(a, b),
        !task_le(b, a),
{
}

/// Between two tasks of the same non-active status, the one with the
/// lower priority number sorts strictly first, whatever their creation
/// times.
pub proof fn lemma_priority_order(a: TaskView, b: TaskView)
    requires
        a.status == b.status,
        !(a.status is Active),
        a.priority < b.priority,
    ensures
        task_le(a, b),
        !task_le(b, a),
{
}

/// If the first `i` characters of `a` and `b` agree, the order is decided
/// by the remainders.
proof fn lemma_lex_le_skip(a: Seq<char>, b: Seq<char>, i: int)
    requires
        0 <= i <= a.len(),
        i <= b.len(),
        forall|k: int| 0 <= k < i ==> a[k] == b[k],
    ensures
        lex_le(a, b) == lex_le(a.skip(i), b.skip(i)),
    decreases i,
{
    if i > 0 {
        let a1 = a.subrange(1, a.len() as int);
        let b1 = b.subrange(1, b.len() as int);
        lemma_lex_le_skip(a1, b1, i - 1);
        assert(a1.skip(i - 1) =~= a.skip(i));
        assert(b1.skip(i - 1) =~= b.skip(i));
    } else {
        assert(a.skip(0) =~= a);
        assert(b.skip(0) =~= b);
    }
}

/// Executable lexicographic comparison of two strings.
pub fn str_lex_le(a: &str, b: &str) -> (r: bool)
    ensures
        r == lex_le(a@, b@),
{
    let alen = a.unicode_len();
    let blen = b.unicode_len();
    let mut i: usize = 0;
    loop
        invariant
            0 <= i <= alen,
            i <= blen,
            alen == a@.len(),
            blen == b@.len(),
            forall|k: int| 0 <= k < i ==> a@[k] == b@[k],
        decreases alen - i,
    {
        proof {
            lemma_lex_le_skip(a@, b@, i as int);
        }
        if i == alen {
            assert(a@.skip(i as int).len() == 0);
            return true;
        }
        if i == blen {
            assert(b@.skip(i as int).len() == 0);
            assert(a@.skip(i as int).len() > 0);
            return false;
        }
        let ca = a.get_char(i);
        let cb = b.get_char(i);
        assert(a@.skip(i as int)[0] == a@[i as int]);
        assert(b@.skip(i as int)[0] == b@[i as int]);
        if (ca as u32) < (cb as u32) {
            return true;
        }
        if (ca as u32) > (cb as u32) {
            return false;
        }
        proof {
            vstd::utf8::char_u32_cast(ca, ca as u32);
            vstd::utf8::char_u32_cast(cb, ca as u32);
        }
        assert(ca == cb);
        i += 1;
    }
}

/// Executable comparison in the task order.
pub fn task_le_exec(a: &Task, b: &Task) -> (r: bool)
    ensures
        r == task_le(a@, b@),
{
    let ra = a.status.rank();
    let rb = b.status.rank();
    if ra != rb {
        return ra < rb;
    }
    let pa: u8 = if matches!(a.status, TaskStatus::Active) {
        0
    } else {
        a.priority
    };
    let pb: u8 = if matches!(b.status, TaskStatus::Active) {
        0
    } else {
        b.priority
    };
    if pa != pb {
        return pa < pb;
    }
    if a.created_at.secs != b.created_at.secs {
        return a.created_at.secs < b.created_at.secs;
    }
    str_lex_le(a.id.as_str(), b.id.as_str())
}

/// A copy of a vector of strings.
pub(crate) fn clone_strings(v: &Vec<String>) -> (r: Vec<String>)
    ensures
        r.deep_view() == v.deep_view(),
{
    let mut r: Vec<String> = Vec::new();
    let mut i: usize = 0;
    while i < v.len()
        invariant
            0 <= i <= v.len(),
            r.len() == i,
            forall|k: int| 0 <= k < i ==> r.deep_view()[k] == v.deep_view()[k],
        decreases v.len() - i,
    {
        r.push(v[i].clone());
        i += 1;
    }
    assert(r.deep_view() =~= v.deep_view());
    r
}

impl Task {
    /// A fresh task: a random id, the given summary and category, empty
    /// details, the default mid-range priority, created now, active when
    /// marked as an interrupt and in the backlog otherwise.
    pub fn new(summary: String, category: String, is_interrupt: bool) -> (t: Task)
        ensures
            task_wf(t@),
            t@.id.len() == 32,
            forall|i: int| 0 <= i < t@.id.len() ==> is_lower_hex(#[trigger] t@.id[i]),
            t@.summary == summary@,
            t@.details.len() == 0,
            t@.priority == 3,
            t@.category == category@,
            t@.status == (if is_interrupt {
                TaskStatus::Active
            } else {
                TaskStatus::Backlog
            }),
            t@.blocked_by.len() == 0,
            t@.wake_at is None,
    {
        let (raw_secs, raw_offset) = now_parts();
        let created_at = Timestamp::clamped(raw_secs, raw_offset / 60);
        let t = Task {
            id: fresh_task_id(),
            summary,
            details: String::new(),
            priority: 3,
            category,
            created_at,
            status: if is_interrupt {
                TaskStatus::Active
            } else {
                TaskStatus::Backlog
            },
            blocked_by: Vec::new(),
            wake_at: None,
        };
        assert(t@.blocked_by =~= Seq::<Seq<char>>::empty());
        t
    }

    /// A field-by-field copy.
    pub fn duplicate(&self) -> (t: Task)
        ensures
            t@ == self@,
    {
        let t = Task {
            id: self.id.clone(),
            summary: self.summary.clone(),
            details: self.details.clone(),
            priority: self.priority,
            category: self.category.clone(),
            created_at: self.created_at,
            status: self.status,
            blocked_by: clone_strings(&self.blocked_by),
            wake_at: self.wake_at,
        };
        assert(t@ =~= self@);
        t
    }

    /// Puts the blocker's id into the dependency list and marks the
    /// task blocked; an id the task already waits on is not added
    /// twice.
    pub fn block_on(&mut self, blocker_id: String)
        ensures
            final(self)@.status is Blocked,
            old(self)@.blocked_by.contains(blocker_id@) ==> final(self)@.blocked_by == old(
                self,
            )@.blocked_by,
            !old(self)@.blocked_by.contains(blocker_id@) ==> final(self)@.blocked_by == old(
                self,
            )@.blocked_by.push(blocker_id@),
            final(self)@ == (TaskView {
                status: TaskStatus::Blocked,
                blocked_by: final(self)@.blocked_by,
                ..old(self)@
            }),
            distinct_seq(old(self)@.blocked_by) ==> distinct_seq(final(self)@.blocked_by),
    {
        let mut present = false;
        let mut i: usize = 0;
        while i < self.blocked_by.len()
            invariant
                0 <= i <= self.blocked_by.len(),
                present == (exists|k: int|
                    0 <= k < i && self.blocked_by.deep_view()[k] == blocker_id@),
            decreases self.blocked_by.len() - i,
        {
            proof {
                assert(self.blocked_by.deep_view()[i as int] == self.blocked_by@[i as int]@);
            }
            if self.blocked_by[i] == blocker_id {
                present = true;
                assert(self.blocked_by.deep_view()[i as int] == blocker_id@);
            } else {
                assert(self.blocked_by.deep_view()[i as int] != blocker_id@);
            }
            i += 1;
        }
        assert(present == self@.blocked_by.contains(blocker_id@));
        if !present {
            self.blocked_by.push(blocker_id);
            assert(self.blocked_by.deep_view() =~= old(self)@.blocked_by.push(
                self.blocked_by.deep_view().last(),
            ));
        }
        self.status = TaskStatus::Blocked;
        assert(final(self)@ =~= TaskView {
            status: TaskStatus::Blocked,
            blocked_by: final(self)@.blocked_by,
            ..old(self)@
        });
    }

    /// Replaces the whole mutable payload with the one of `other`; the id
    /// and the creation time are preserved verbatim.
    pub fn update_from(&mut self, other: &Task)
        ensures
            final(self)@ == (TaskView {
                id: old(self)@.id,
                created_at: old(self)@.created_at,
                ..other@
            }),
    {
        self.priority = other.priority;
        self.summary = other.summary.clone();
        self.details = other.details.clone();
        self.category = other.category.clone();
        self.status = other.status;
        self.blocked_by = clone_strings(&other.blocked_by);
        self.wake_at = other.wake_at;
        assert(final(self)@ =~= TaskView {
            id: old(self)@.id,
            created_at: old(self)@.created_at,
            ..other@
        });
    }
}

} // verus!
