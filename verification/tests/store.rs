//! Tests for the task store: adding, resolving, the state machine, the
//! maintenance passes, the ordering, and persistence.

use ztask::task::{Task, TaskStatus, Timestamp};
use ztask::tasklist::{wake_note, TaskList};
use ztask::codec::format_task;

fn ts(secs: i64) -> Timestamp {
    Timestamp { secs, offset_minutes: 0 }
}

fn mk_task(id: &str, status: TaskStatus, priority: u8, created_secs: i64) -> Task {
    Task {
        id: String::from(id),
        summary: format!("task {id}"),
        details: String::new(),
        priority,
        category: String::from("quick"),
        created_at: ts(created_secs),
        status,
        blocked_by: Vec::new(),
        wake_at: None,
    }
}

const T0: i64 = 1704067200;

#[test]
fn check_task_defaults() {
    let task = Task::new("Get stuff done".to_string(), "Category".to_string(), true);

    assert_eq!(task.summary, "Get stuff done".to_string());
    assert_eq!(task.category, "Category".to_string());
    assert_eq!(task.status, TaskStatus::Active);
    assert_eq!(task.id.len(), 32);
}

#[test]
fn verify_remove_single() {
    let mut list = TaskList::new();
    let a = mk_task("aaaa000000000000000000000000000a", TaskStatus::Backlog, 3, T0);
    let b = mk_task("bbbb000000000000000000000000000b", TaskStatus::Backlog, 3, T0 + 1);
    let id = a.id.clone();
    list.add_task(a);
    list.add_task(b);

    list.remove_task(id.as_str());
    assert_eq!(list.num_tasks(), 1);
}

#[test]
fn tasklist_verify_edit_single() {
    let mut list = TaskList::new();
    let a = mk_task("aaaa000000000000000000000000000a", TaskStatus::Backlog, 3, T0);
    let b = mk_task("bbbb000000000000000000000000000b", TaskStatus::Backlog, 3, T0 + 1);
    let id = a.id.clone();
    list.add_task(a);
    list.add_task(b);

    let mut edited = mk_task("aaaa000000000000000000000000000a", TaskStatus::Backlog, 4, T0);
    edited.summary = String::from("edited summary");
    let payload = format_task(&edited);
    let n = list.edit_task(id.as_str(), payload.as_str());
    assert_eq!(n, 1);
    assert_eq!(list.num_tasks(), 2);
    let got = list.copy_task(id.as_str()).unwrap();
    assert_eq!(got.summary, "edited summary");
    assert_eq!(got.priority, 4);
}

#[test]
fn edit_with_bad_payload_keeps_task() {
    let mut list = TaskList::new();
    let a = mk_task("aaaa000000000000000000000000000a", TaskStatus::Backlog, 3, T0);
    let id = a.id.clone();
    list.add_task(a);
    let n = list.edit_task(id.as_str(), "this is not a task");
    assert_eq!(n, 1);
    let got = list.copy_task(id.as_str()).unwrap();
    assert_eq!(got.summary, format!("task {id}"));
}

#[test]
fn edit_details_trims_text() {
    let mut list = TaskList::new();
    let a = mk_task("aaaa000000000000000000000000000a", TaskStatus::Backlog, 3, T0);
    let id = a.id.clone();
    list.add_task(a);
    let n = list.edit_task_details(id.as_str(), "  new details\n");
    assert_eq!(n, 1);
    assert_eq!(list.copy_task(id.as_str()).unwrap().details, "new details");
}

#[test]
fn ambiguous_prefix_removes_nothing() {
    // Two tasks share the prefix "ab": removing by it deletes nothing
    // and the caller can see that it matched two tasks.
    let mut list = TaskList::new();
    list.add_task(mk_task("ab11000000000000000000000000000a", TaskStatus::Backlog, 3, T0));
    list.add_task(mk_task("ab22000000000000000000000000000b", TaskStatus::Backlog, 3, T0 + 1));
    let n = list.remove_task("ab");
    assert_eq!(n, 0);
    assert_eq!(list.num_tasks(), 2);
    assert_eq!(list.match_count("ab"), 2);
}

#[test]
fn short_prefix_is_ambiguous_under_policy() {
    let mut list = TaskList::new();
    list.add_task(mk_task("ab11000000000000000000000000000a", TaskStatus::Backlog, 3, T0));
    list.set_min_prefix(4);
    assert_eq!(list.remove_task("ab"), 0);
    assert_eq!(list.remove_task("ab11"), 1);
}

#[test]
fn active_tasks_sort_by_age_not_priority() {
    // An older active task sorts first even with a worse priority.
    let mut list = TaskList::new();
    list.add_task(mk_task("aaaa000000000000000000000000000a", TaskStatus::Active, 5, T0));
    list.add_task(mk_task("bbbb000000000000000000000000000b", TaskStatus::Active, 1, T0 + 10));
    let sorted = list.tasks_sorted();
    assert_eq!(sorted[0].id, "aaaa000000000000000000000000000a");
    assert_eq!(sorted[1].id, "bbbb000000000000000000000000000b");
}

#[test]
fn backlog_tasks_sort_by_priority_then_age() {
    // A lower priority number sorts first even when created later.
    let mut list = TaskList::new();
    list.add_task(mk_task("bbbb000000000000000000000000000b", TaskStatus::Backlog, 5, T0));
    list.add_task(mk_task("aaaa000000000000000000000000000a", TaskStatus::Backlog, 1, T0 + 10));
    let sorted = list.tasks_sorted();
    assert_eq!(sorted[0].id, "aaaa000000000000000000000000000a");
    assert_eq!(sorted[1].id, "bbbb000000000000000000000000000b");
}

#[test]
fn statuses_rank_active_first() {
    let mut list = TaskList::new();
    list.add_task(mk_task("cccc000000000000000000000000000c", TaskStatus::Completed, 1, T0));
    list.add_task(mk_task("bbbb000000000000000000000000000b", TaskStatus::Backlog, 1, T0));
    list.add_task(mk_task("aaaa000000000000000000000000000a", TaskStatus::Active, 9, T0));
    let sorted = list.tasks_sorted();
    assert_eq!(sorted[0].status, TaskStatus::Active);
    assert_eq!(sorted[1].status, TaskStatus::Backlog);
    assert_eq!(sorted[2].status, TaskStatus::Completed);
}

#[test]
fn expired_sleeper_wakes_on_load() {
    // A task whose wake time lies one second in the past returns to
    // the backlog when the store is loaded.
    let mut asleep = mk_task("aaaa000000000000000000000000000a", TaskStatus::Sleeping, 3, T0);
    asleep.wake_at = Some(ts(T0 + 99));
    let mut list = TaskList::from_tasks(vec![asleep]);
    let woken = list.wake_tasks_at(ts(T0 + 100));
    assert_eq!(woken, 1);
    let got = list.copy_task("aaaa").unwrap();
    assert_eq!(got.status, TaskStatus::Backlog);
    assert_eq!(got.wake_at, None);
}

#[test]
fn future_sleeper_stays_asleep() {
    let mut asleep = mk_task("aaaa000000000000000000000000000a", TaskStatus::Sleeping, 3, T0);
    asleep.wake_at = Some(ts(T0 + 1000));
    let mut list = TaskList::from_tasks(vec![asleep]);
    assert_eq!(list.wake_tasks_at(ts(T0 + 100)), 0);
    assert_eq!(list.copy_task("aaaa").unwrap().status, TaskStatus::Sleeping);
}

#[test]
fn blocked_until_every_blocker_is_gone() {
    // X waits on Y and Z: completing Y leaves X blocked, completing Z
    // too lets the unblock pass return X to the backlog.
    let mut list = TaskList::new();
    list.add_task(mk_task("xxxx000000000000000000000000000a", TaskStatus::Backlog, 3, T0));
    list.add_task(mk_task("yyyy000000000000000000000000000b", TaskStatus::Backlog, 3, T0));
    list.add_task(mk_task("zzzz000000000000000000000000000c", TaskStatus::Backlog, 3, T0));
    assert_eq!(list.block_task_on("xxxx", "yyyy"), 1);
    assert_eq!(list.block_task_on("xxxx", "zzzz"), 1);
    assert_eq!(list.copy_task("xxxx").unwrap().status, TaskStatus::Blocked);

    assert_eq!(list.complete_task("yyyy"), 1);
    assert_eq!(list.unblock_tasks(), 0);
    assert_eq!(list.copy_task("xxxx").unwrap().status, TaskStatus::Blocked);

    assert_eq!(list.complete_task("zzzz"), 1);
    assert_eq!(list.unblock_tasks(), 1);
    assert_eq!(list.copy_task("xxxx").unwrap().status, TaskStatus::Backlog);
}

#[test]
fn unblock_twice_changes_nothing_more() {
    let mut list = TaskList::new();
    list.add_task(mk_task("xxxx000000000000000000000000000a", TaskStatus::Backlog, 3, T0));
    list.add_task(mk_task("yyyy000000000000000000000000000b", TaskStatus::Backlog, 3, T0));
    assert_eq!(list.block_task_on("xxxx", "yyyy"), 1);
    assert_eq!(list.remove_task("yyyy"), 1);
    assert_eq!(list.unblock_tasks(), 1);
    assert_eq!(list.unblock_tasks(), 0);
    assert_eq!(list.copy_task("xxxx").unwrap().status, TaskStatus::Backlog);
}

#[test]
fn negative_suspend_expires_at_once() {
    // Suspending for "-5s" makes a sleep that has already expired, so
    // the next maintenance pass wakes the task.
    let mut list = TaskList::new();
    list.add_task(mk_task("aaaa000000000000000000000000000a", TaskStatus::Active, 3, T0));
    let now = ts(T0 + 500);
    assert_eq!(list.suspend_task_at("aaaa", -5, now), 1);
    let got = list.copy_task("aaaa").unwrap();
    assert_eq!(got.status, TaskStatus::Sleeping);
    assert_eq!(got.wake_at, Some(ts(T0 + 495)));
    assert_eq!(list.wake_tasks_at(now), 1);
    assert_eq!(list.copy_task("aaaa").unwrap().status, TaskStatus::Backlog);
}

#[test]
fn suspend_with_bad_duration_fails() {
    let mut list = TaskList::new();
    list.add_task(mk_task("aaaa000000000000000000000000000a", TaskStatus::Active, 3, T0));
    assert!(list.suspend_task("aaaa", "nonsense").is_err());
    assert_eq!(list.copy_task("aaaa").unwrap().status, TaskStatus::Active);
}

#[test]
fn save_then_load_keeps_every_task() {
    // Writing the store out and reading the text back yields the same
    // set of tasks, field for field.
    let mut list = TaskList::new();
    let mut x = mk_task("xxxx000000000000000000000000000a", TaskStatus::Blocked, 2, T0);
    x.blocked_by = vec![String::from("yyyy000000000000000000000000000b")];
    x.details = String::from("multi\nline \"details\"");
    let mut y = mk_task("yyyy000000000000000000000000000b", TaskStatus::Sleeping, 7, T0 + 5);
    y.wake_at = Some(Timestamp { secs: T0 + 7200, offset_minutes: -300 });
    list.add_task(x);
    list.add_task(y);

    let text = list.save_to_string();
    let reloaded = TaskList::load_from_str(text.as_str());
    assert_eq!(reloaded.num_tasks(), 2);
    let rx = reloaded.copy_task("xxxx").unwrap();
    let ry = reloaded.copy_task("yyyy").unwrap();
    assert_eq!(rx.blocked_by, vec![String::from("yyyy000000000000000000000000000b")]);
    assert_eq!(rx.details, "multi\nline \"details\"");
    assert_eq!(rx.status, TaskStatus::Blocked);
    assert_eq!(rx.priority, 2);
    assert_eq!(ry.wake_at, Some(Timestamp { secs: T0 + 7200, offset_minutes: -300 }));
    assert_eq!(ry.status, TaskStatus::Sleeping);
    assert_eq!(reloaded.save_to_string(), text);
}

#[test]
fn load_of_unreadable_text_gives_empty_store() {
    let list = TaskList::load_from_str("garbage");
    assert_eq!(list.num_tasks(), 0);
}

#[test]
fn completing_stays_terminal_for_maintenance() {
    // A completed task is left alone by both maintenance passes.
    let mut done = mk_task("cccc000000000000000000000000000c", TaskStatus::Completed, 3, T0);
    done.wake_at = Some(ts(T0));
    let mut list = TaskList::from_tasks(vec![done]);
    assert_eq!(list.wake_tasks_at(ts(T0 + 100)), 0);
    assert_eq!(list.unblock_tasks(), 0);
    assert_eq!(list.copy_task("cccc").unwrap().status, TaskStatus::Completed);
}

#[test]
fn process_add_merges_single_words() {
    let mut list = TaskList::new();
    let names = vec![
        String::from("create"),
        String::from("single"),
        String::from("task"),
    ];
    let ids = list.process_add(names, false);
    assert_eq!(ids.len(), 1);
    assert_eq!(list.num_tasks(), 1);
    let got = list.copy_task(ids[0].as_str()).unwrap();
    assert_eq!(got.summary, "create single task");
    assert_eq!(got.status, TaskStatus::Backlog);
}

#[test]
fn process_add_keeps_multiword_names_separate() {
    let mut list = TaskList::new();
    let names = vec![
        String::from("test task #1"),
        String::from("test task #2"),
        String::from("task3"),
        String::from("task4"),
    ];
    let ids = list.process_add(names, false);
    assert_eq!(ids.len(), 4);
    assert_eq!(list.num_tasks(), 4);
}

#[test]
fn process_add_default_name_counts_tasks() {
    let mut list = TaskList::new();
    let ids = list.process_add(Vec::new(), true);
    assert_eq!(ids.len(), 1);
    let got = list.copy_task(ids[0].as_str()).unwrap();
    assert_eq!(got.summary, "New task #1");
    assert_eq!(got.status, TaskStatus::Active);
}

#[test]
fn process_del_without_ids_removes_most_urgent() {
    let mut list = TaskList::new();
    list.add_task(mk_task("aaaa000000000000000000000000000a", TaskStatus::Active, 3, T0));
    list.add_task(mk_task("bbbb000000000000000000000000000b", TaskStatus::Backlog, 3, T0));
    assert_eq!(list.process_del(&Vec::new()), 1);
    assert_eq!(list.num_tasks(), 1);
    assert!(list.copy_task("aaaa").is_none());
}

#[test]
fn process_start_respects_running_task()
{
    let mut list = TaskList::new();
    list.add_task(mk_task("aaaa000000000000000000000000000a", TaskStatus::Active, 3, T0));
    list.add_task(mk_task("bbbb000000000000000000000000000b", TaskStatus::Backlog, 3, T0));
    // A task is already active: nothing is started by default.
    assert_eq!(list.process_start(&Vec::new()), 0);
    assert_eq!(list.complete_task("aaaa"), 1);
    // Now the oldest backlog task is started.
    assert_eq!(list.process_start(&Vec::new()), 1);
    assert_eq!(list.copy_task("bbbb").unwrap().status, TaskStatus::Active);
}

#[test]
fn first_with_status_picks_most_urgent() {
    let mut list = TaskList::new();
    list.add_task(mk_task("bbbb000000000000000000000000000b", TaskStatus::Backlog, 5, T0));
    list.add_task(mk_task("aaaa000000000000000000000000000a", TaskStatus::Backlog, 1, T0 + 10));
    let first = list.first_with_status(TaskStatus::Backlog).unwrap();
    assert_eq!(first.id, "aaaa000000000000000000000000000a");
    assert!(list.first_with_status(TaskStatus::Sleeping).is_none());
}

#[test]
fn block_is_additive_and_deduplicates() {
    let mut list = TaskList::new();
    list.add_task(mk_task("xxxx000000000000000000000000000a", TaskStatus::Backlog, 3, T0));
    list.add_task(mk_task("yyyy000000000000000000000000000b", TaskStatus::Backlog, 3, T0));
    assert_eq!(list.block_task_on("xxxx", "yyyy"), 1);
    assert_eq!(list.block_task_on("xxxx", "yyyy"), 1);
    let got = list.copy_task("xxxx").unwrap();
    assert_eq!(got.blocked_by.len(), 1);
    assert_eq!(got.status, TaskStatus::Blocked);
}

#[test]
fn duplicate_ids_are_dropped_on_load() {
    let a = mk_task("aaaa000000000000000000000000000a", TaskStatus::Backlog, 3, T0);
    let a2 = mk_task("aaaa000000000000000000000000000a", TaskStatus::Active, 1, T0 + 5);
    let list = TaskList::from_tasks(vec![a, a2]);
    assert_eq!(list.num_tasks(), 1);
    assert_eq!(list.copy_task("aaaa").unwrap().status, TaskStatus::Backlog);
}

#[test]
fn wake_note_shows_countdown() {
    let wake = ts(1704067200);
    let before = ts(1704067200 - 90061);
    assert_eq!(
        wake_note(wake, before),
        "2024-01-01 00:00:00 (1d 1h 1m 1s)"
    );
    let after = ts(1704067200 + 5);
    assert_eq!(wake_note(wake, after), "2024-01-01 00:00:00 (overdue by 5s)");
    let exactly = ts(1704067200);
    assert_eq!(wake_note(wake, exactly), "2024-01-01 00:00:00 (overdue by )");
}

#[test]
fn completed_is_terminal_for_transitions() {
    // No transition moves a task out of Completed: starting, blocking
    // or suspending a completed task changes nothing.
    let mut list = TaskList::new();
    list.add_task(mk_task("aaaa000000000000000000000000000a", TaskStatus::Backlog, 3, T0));
    list.add_task(mk_task("bbbb000000000000000000000000000b", TaskStatus::Backlog, 3, T0));
    assert_eq!(list.complete_task("aaaa"), 1);

    assert_eq!(list.start_task("aaaa"), 0);
    assert_eq!(list.copy_task("aaaa").unwrap().status, TaskStatus::Completed);

    assert_eq!(list.suspend_task_at("aaaa", 60, ts(T0 + 10)), 0);
    assert_eq!(list.copy_task("aaaa").unwrap().status, TaskStatus::Completed);

    assert_eq!(list.block_task_on("aaaa", "bbbb"), 0);
    let got = list.copy_task("aaaa").unwrap();
    assert_eq!(got.status, TaskStatus::Completed);
    assert_eq!(got.blocked_by.len(), 0);
}

#[test]
fn edit_accepts_reformatted_payload() {
    // An editor that reflows the object across lines still edits the
    // task; blank space inside the quoted texts is kept.
    let mut list = TaskList::new();
    let a = mk_task("aaaa000000000000000000000000000a", TaskStatus::Backlog, 3, T0);
    let id = a.id.clone();
    list.add_task(a);
    let payload = "{\n  \"id\": \"aaaa000000000000000000000000000a\",\n  \"summary\": \"kept  spaces\",\n  \"details\": \"\",\n  \"priority\": 7,\n  \"category\": \"quick\",\n  \"created_at\": \"2024-01-01T00:00:00+00:00\",\n  \"status\": \"backlog\",\n  \"blocked_by\": [],\n  \"wake_at\": null\n}\n";
    let n = list.edit_task(id.as_str(), payload);
    assert_eq!(n, 1);
    let got = list.copy_task(id.as_str()).unwrap();
    assert_eq!(got.summary, "kept  spaces");
    assert_eq!(got.priority, 7);
}
