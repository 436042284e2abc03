//! Tests for the duration parser, the line search, and the persisted
//! task format.

use ztask::simple_duration::{parse, Error};
use ztask::search::{search, search_case_insensitive};
use ztask::task::{Task, TaskStatus, Timestamp};
use ztask::codec::{format_task, format_tasks, parse_task_str, parse_tasks};

const SECONDS_PER_MINUTE: i64 = 60;
const SECONDS_PER_HOUR: i64 = SECONDS_PER_MINUTE * 60;
const SECONDS_PER_DAY: i64 = SECONDS_PER_HOUR * 24;
const SECONDS_PER_WEEK: i64 = SECONDS_PER_DAY * 7;

#[test]
fn test_parse_duration() {
    assert_eq!(parse("2s").unwrap(), 2);
    assert_eq!(parse("104s").unwrap(), 104);
    assert_eq!(parse("2m").unwrap(), 2 * SECONDS_PER_MINUTE);
    assert_eq!(parse("32d").unwrap(), 32 * SECONDS_PER_DAY);
    assert_eq!(parse("3w").unwrap(), 3 * SECONDS_PER_WEEK);
    assert_eq!(parse("3m10s").unwrap(), (3 * SECONDS_PER_MINUTE) + 10);
    assert_eq!(parse("3m 10s").unwrap(), (3 * SECONDS_PER_MINUTE) + 10);
    assert_eq!(parse("3h").unwrap(), 3 * SECONDS_PER_HOUR);
    assert_eq!(parse("-2s").unwrap(), -2);
    assert_eq!(
        parse("").unwrap_err(),
        Error::ParseError(String::from("invalid duration: ''")),
    );
    assert_eq!(
        parse("12").unwrap_err(),
        Error::ParseError(String::from("invalid duration units: ''")),
    );
    assert_eq!(
        parse("1q").unwrap_err(),
        Error::ParseError(String::from("invalid duration units: 'q'")),
    );
}

#[test]
fn duration_zero_and_sign() {
    assert_eq!(parse("0").unwrap(), 0);
    assert_eq!(parse("-5s").unwrap(), -5);
    assert_eq!(parse("1h 35m").unwrap(), SECONDS_PER_HOUR + 35 * SECONDS_PER_MINUTE);
}

#[test]
fn case_sensitive() {
    let query = "duct";
    let contents = "\
Rust:
safe, fast, productive.
Pick three.";

    assert_eq!(vec!["safe, fast, productive."], search(query, contents));
}

#[test]
fn case_insensitive() {
    let query = "rUsT";
    let contents = "\
Rust:
safe, fast, productive.
Pick three.
Trust me.";

    assert_eq!(
        vec!["Rust:", "Trust me."],
        search_case_insensitive(query, contents)
    );
}

fn fixed_task() -> Task {
    Task {
        id: String::from("0123456789abcdef0123456789abcdef"),
        summary: String::from("say \"hi\""),
        details: String::from("line one\nline two"),
        priority: 3,
        category: String::from("quick"),
        created_at: Timestamp { secs: 1704067200, offset_minutes: 0 },
        status: TaskStatus::Backlog,
        blocked_by: Vec::new(),
        wake_at: None,
    }
}

#[test]
fn format_task_exact_text() {
    let t = fixed_task();
    let text = format_task(&t);
    assert_eq!(
        text,
        "{\"id\":\"0123456789abcdef0123456789abcdef\",\"summary\":\"say \\\"hi\\\"\",\
         \"details\":\"line one\\nline two\",\"priority\":3,\"category\":\"quick\",\
         \"created_at\":\"2024-01-01T00:00:00+00:00\",\"status\":\"backlog\",\
         \"blocked_by\":[],\"wake_at\":null}"
    );
}

#[test]
fn parse_task_round_trip() {
    let t = fixed_task();
    let text = format_task(&t);
    let back = parse_task_str(text.as_str()).unwrap();
    assert_eq!(back.id, t.id);
    assert_eq!(back.summary, t.summary);
    assert_eq!(back.details, t.details);
    assert_eq!(back.priority, t.priority);
    assert_eq!(back.category, t.category);
    assert_eq!(back.created_at, t.created_at);
    assert_eq!(back.status, t.status);
    assert_eq!(back.blocked_by, t.blocked_by);
    assert_eq!(back.wake_at, t.wake_at);
}

#[test]
fn parse_timestamp_exact_epoch() {
    let text = "[{\"id\":\"ab\",\"summary\":\"x\",\"details\":\"\",\"priority\":5,\
        \"category\":\"c\",\"created_at\":\"2024-02-15T22:38:39-05:00\",\
        \"status\":\"active\",\"blocked_by\":[],\"wake_at\":null}]";
    let tasks = parse_tasks(text).unwrap();
    assert_eq!(tasks.len(), 1);
    assert_eq!(tasks[0].created_at.secs, 1708054719);
    assert_eq!(tasks[0].created_at.offset_minutes, -300);
    assert_eq!(tasks[0].status, TaskStatus::Active);
    assert_eq!(tasks[0].priority, 5);
}

#[test]
fn parse_rejects_malformed_text() {
    assert!(parse_tasks("not json").is_none());
    assert!(parse_tasks("[{]").is_none());
    assert!(parse_tasks("").is_none());
    assert!(parse_task_str("{\"id\":\"x\"}").is_none());
}

#[test]
fn format_tasks_round_trip_with_escapes() {
    let mut t = fixed_task();
    t.summary = String::from("tabs\tand\\slashes and control\u{1}char");
    t.wake_at = Some(Timestamp { secs: 1704067260, offset_minutes: 60 });
    t.status = TaskStatus::Sleeping;
    t.blocked_by = vec![String::from("aaaa"), String::from("bbbb")];
    t.status = TaskStatus::Blocked;
    t.wake_at = None;
    let mut v = Vec::new();
    v.push(t);
    let text = format_tasks(&v);
    let back = parse_tasks(text.as_str()).unwrap();
    assert_eq!(back.len(), 1);
    assert_eq!(back[0].summary, v[0].summary);
    assert_eq!(back[0].blocked_by, v[0].blocked_by);
}

#[test]
fn search_keeps_line_order_and_strips_cr() {
    let contents = "alpha\r\nbeta\nalpha beta\n";
    assert_eq!(vec!["alpha", "alpha beta"], search("alpha", contents));
    let empty: Vec<&str> = Vec::new();
    assert_eq!(empty, search("gamma", contents));
}
