//! The persisted form of the store: a JSON array of task objects, with
//! the fields id, summary, details, priority, category, created_at,
//! status, blocked_by and wake_at. Writing and reading are exact
//! inverses of each other.

use crate::task::{distinct_seq, status_name, task_wf, Task, TaskStatus, TaskView, Timestamp};
use crate::timefmt::{digit_char, fmt_ts, parse_ts, ts_digit};
use vstd::prelude::*;

verus! {

/// The character of one hexadecimal digit value.
pub open spec fn hex_digit(d: int) -> char {
    if d < 10 {
        digit_char(d)
    } else if d == 10 {
        'a'
    } else if d == 11 {
        'b'
    } else if d == 12 {
        'c'
    } else if d == 13 {
        'd'
    } else if d == 14 {
        'e'
    } else {
        'f'
    }
}

/// The value of one hexadecimal digit character, or 16 for any other
/// character.
pub open spec fn hex_val(c: char) -> int {
    if crate::simple_duration::is_digit(c) {
        ts_digit(c)
    } else if c == 'a' {
        10
    } else if c == 'b' {
        11
    } else if c == 'c' {
        12
    } else if c == 'd' {
        13
    } else if c == 'e' {
        14
    } else if c == 'f' {
        15
    } else {
        16
    }
}

/// The escaped form of one character: quotes, backslashes and the usual
/// control characters get a short escape, other control characters a
/// `\u00XX` escape, everything else stands for itself.
pub open spec fn esc_char(c: char) -> Seq<char> {
    if c == '"' {
        seq!['\\', '"']
    } else if c == '\\' {
        seq!['\\', '\\']
    } else if c == '\n' {
        seq!['\\', 'n']
    } else if c == '\r' {
        seq!['\\', 'r']
    } else if c == '\t' {
        seq!['\\', 't']
    } else if (c as u32) < 32 {
        seq!['\\', 'u', '0', '0', hex_digit(c as u32 as int / 16), hex_digit(c as u32 as int % 16)]
    } else {
        seq![c]
    }
}

/// The escaped form of a text.
pub open spec fn json_escape(s: Seq<char>) -> Seq<char>
    decreases s.len(),
{
    if s.len() == 0 {
        Seq::empty()
    } else {
        esc_char(s[0]) + json_escape(s.skip(1))
    }
}

/// A quoted and escaped text.
pub open spec fn quoted(s: Seq<char>) -> Seq<char> {
    seq!['"'] + json_escape(s) + seq!['"']
}

/// A small number in decimal.
pub open spec fn dec_u8(p: int) -> Seq<char> {
    if p >= 100 {
        seq![digit_char(p / 100), digit_char(p / 10 % 10), digit_char(p % 10)]
    } else if p >= 10 {
        seq![digit_char(p / 10), digit_char(p % 10)]
    } else {
        seq![digit_char(p)]
    }
}

/// The ids a task waits on, after the first, each with its separator.
pub open spec fn blocked_rest_json(bb: Seq<Seq<char>>) -> Seq<char>
    decreases bb.len(),
{
    if bb.len() == 0 {
        Seq::empty()
    } else {
        seq![','] + quoted(bb[0]) + blocked_rest_json(bb.skip(1))
    }
}

/// The ids a task waits on, as a JSON array of strings.
pub open spec fn blocked_json(bb: Seq<Seq<char>>) -> Seq<char> {
    if bb.len() == 0 {
        seq!['[', ']']
    } else {
        seq!['['] + quoted(bb[0]) + blocked_rest_json(bb.skip(1)) + seq![']']
    }
}

/// The wake time: `null` or a quoted timestamp.
pub open spec fn wake_json(w: Option<Timestamp>) -> Seq<char> {
    match w {
        Option::None => seq!['n', 'u', 'l', 'l'],
        Option::Some(t) => quoted(fmt_ts(t)),
    }
}

/// One task as a JSON object.
#[verifier::opaque]
pub open spec fn task_json(t: TaskView) -> Seq<char> {
    "{\"id\":"@ + quoted(t.id) + ",\"summary\":"@ + quoted(t.summary) + ",\"details\":"@ + quoted(
        t.details,
    ) + ",\"priority\":"@ + dec_u8(t.priority) + ",\"category\":"@ + quoted(t.category)
        + ",\"created_at\":"@ + quoted(fmt_ts(t.created_at)) + ",\"status\":"@ + quoted(
        status_name(t.status),
    ) + ",\"blocked_by\":"@ + blocked_json(t.blocked_by) + ",\"wake_at\":"@ + wake_json(t.wake_at)
        + seq!['}']
}

/// The tasks after the first, each with its separator.
pub open spec fn tasks_rest_json(s: Seq<TaskView>) -> Seq<char>
    decreases s.len(),
{
    if s.len() == 0 {
        Seq::empty()
    } else {
        seq![','] + task_json(s[0]) + tasks_rest_json(s.skip(1))
    }
}

/// The whole store as a JSON array of task objects.
pub open spec fn tasks_json(s: Seq<TaskView>) -> Seq<char> {
    if s.len() == 0 {
        seq!['[', ']']
    } else {
        seq!['['] + task_json(s[0]) + tasks_rest_json(s.skip(1)) + seq![']']
    }
}

/// Consumes an exact literal; what follows it remains.
pub open spec fn p_lit(s: Seq<char>, lit: Seq<char>) -> Option<Seq<char>> {
    if lit.len() <= s.len() && s.take(lit.len() as int) == lit {
        Some(s.skip(lit.len() as int))
    } else {
        None
    }
}

/// Reads a string body after its opening quote: the unescaped content,
/// and what follows the closing quote.
pub open spec fn p_str_body(s: Seq<char>) -> Option<(Seq<char>, Seq<char>)>
    decreases s.len(),
{
    if s.len() == 0 {
        None
    } else if s[0] == '"' {
        Some((Seq::empty(), s.skip(1)))
    } else if s[0] == '\\' {
        if s.len() < 2 {
            None
        } else if s[1] == 'u' {
            if s.len() < 6 {
                None
            } else {
                let code = hex_val(s[2]) * 4096 + hex_val(s[3]) * 256 + hex_val(s[4]) * 16
                    + hex_val(s[5]);
                if hex_val(s[2]) < 16 && hex_val(s[3]) < 16 && hex_val(s[4]) < 16 && hex_val(s[5])
                    < 16 && code < 0xD800 {
                    match p_str_body(s.skip(6)) {
                        Some((t, r)) => Some((seq![((code as u32) as char)] + t, r)),
                        None => None,
                    }
                } else {
                    None
                }
            }
        } else {
            let c: char = if s[1] == '"' {
                '"'
            } else if s[1] == '\\' {
                '\\'
            } else if s[1] == 'n' {
                '\n'
            } else if s[1] == 'r' {
                '\r'
            } else {
                '\t'
            };
            if s[1] == '"' || s[1] == '\\' || s[1] == 'n' || s[1] == 'r' || s[1] == 't' {
                match p_str_body(s.skip(2)) {
                    Some((t, r)) => Some((seq![c] + t, r)),
                    None => None,
                }
            } else {
                None
            }
        }
    } else {
        match p_str_body(s.skip(1)) {
            Some((t, r)) => Some((seq![s[0]] + t, r)),
            None => None,
        }
    }
}

/// Reads a quoted string.
pub open spec fn p_string(s: Seq<char>) -> Option<(Seq<char>, Seq<char>)> {
    if s.len() >= 1 && s[0] == '"' {
        p_str_body(s.skip(1))
    } else {
        None
    }
}

/// What a string read leaves behind is shorter than the input.
pub proof fn lemma_p_str_body_shrinks(s: Seq<char>)
    ensures
        p_str_body(s) is Some ==> (p_str_body(s)->0).1.len() < s.len(),
    decreases s.len(),
{
    if s.len() > 0 && s[0] != '"' {
        if s[0] == '\\' {
            if s.len() >= 6 && s[1] == 'u' {
                lemma_p_str_body_shrinks(s.skip(6));
            }
            if s.len() >= 2 && s[1] != 'u' {
                lemma_p_str_body_shrinks(s.skip(2));
            }
        } else {
            lemma_p_str_body_shrinks(s.skip(1));
        }
    }
}

/// What a quoted-string read leaves behind is shorter than the input.
pub proof fn lemma_p_string_shrinks(s: Seq<char>)
    ensures
        p_string(s) is Some ==> (p_string(s)->0).1.len() < s.len(),
{
    if s.len() >= 1 && s[0] == '"' {
        lemma_p_str_body_shrinks(s.skip(1));
    }
}

/// Reads a small decimal number (at most three digits, at most 255).
pub open spec fn p_u8(s: Seq<char>) -> Option<(int, Seq<char>)> {
    if s.len() == 0 || !crate::simple_duration::is_digit(s[0]) {
        None
    } else if s.len() >= 2 && crate::simple_duration::is_digit(s[1]) {
        if s.len() >= 3 && crate::simple_duration::is_digit(s[2]) {
            if s.len() >= 4 && crate::simple_duration::is_digit(s[3]) {
                None
            } else {
                let v = ts_digit(s[0]) * 100 + ts_digit(s[1]) * 10 + ts_digit(s[2]);
                if v <= 255 {
                    Some((v, s.skip(3)))
                } else {
                    None
                }
            }
        } else {
            Some((ts_digit(s[0]) * 10 + ts_digit(s[1]), s.skip(2)))
        }
    } else {
        Some((ts_digit(s[0]), s.skip(1)))
    }
}

/// Reads a quoted timestamp.
pub open spec fn p_ts(s: Seq<char>) -> Option<(Timestamp, Seq<char>)> {
    match p_string(s) {
        Some((u, r)) => match parse_ts(u) {
            Some(t) => Some((t, r)),
            None => None,
        },
        None => None,
    }
}

/// Reads a quoted status name.
pub open spec fn p_status(s: Seq<char>) -> Option<(TaskStatus, Seq<char>)> {
    match p_string(s) {
        Some((u, r)) => {
            if u == status_name(TaskStatus::Active) {
                Some((TaskStatus::Active, r))
            } else if u == status_name(TaskStatus::Backlog) {
                Some((TaskStatus::Backlog, r))
            } else if u == status_name(TaskStatus::Blocked) {
                Some((TaskStatus::Blocked, r))
            } else if u == status_name(TaskStatus::Sleeping) {
                Some((TaskStatus::Sleeping, r))
            } else if u == status_name(TaskStatus::Completed) {
                Some((TaskStatus::Completed, r))
            } else {
                None
            }
        },
        None => None,
    }
}

/// Reads the ids after the first of a dependency array.
pub open spec fn p_blocked_rest(s: Seq<char>) -> Option<(Seq<Seq<char>>, Seq<char>)>
    decreases s.len() when true via p_blocked_rest_decreases
{
    if s.len() == 0 {
        None
    } else if s[0] == ']' {
        Some((Seq::empty(), s.skip(1)))
    } else if s[0] == ',' {
        match p_string(s.skip(1)) {
            Some((x, r)) => match p_blocked_rest(r) {
                Some((xs, r2)) => Some((seq![x] + xs, r2)),
                None => None,
            },
            None => None,
        }
    } else {
        None
    }
}

#[via_fn]
proof fn p_blocked_rest_decreases(s: Seq<char>) {
    if s.len() > 0 && s[0] == ',' {
        lemma_p_string_shrinks(s.skip(1));
    }
}

/// Reads a dependency array.
pub open spec fn p_blocked(s: Seq<char>) -> Option<(Seq<Seq<char>>, Seq<char>)> {
    if s.len() >= 1 && s[0] == '[' {
        if s.len() >= 2 && s[1] == ']' {
            Some((Seq::empty(), s.skip(2)))
        } else {
            match p_string(s.skip(1)) {
                Some((x, r)) => match p_blocked_rest(r) {
                    Some((xs, r2)) => Some((seq![x] + xs, r2)),
                    None => None,
                },
                None => None,
            }
        }
    } else {
        None
    }
}

/// Reads a wake time: `null` or a quoted timestamp.
pub open spec fn p_wake(s: Seq<char>) -> Option<(Option<Timestamp>, Seq<char>)> {
    if s.len() >= 4 && s.take(4) == seq!['n', 'u', 'l', 'l'] {
        Some((Option::None, s.skip(4)))
    } else {
        match p_ts(s) {
            Some((t, r)) => Some((Some(t), r)),
            None => None,
        }
    }
}

/// Reads the first three fields of a task object: id, summary and
/// details.
pub open spec fn p_task_a(s: Seq<char>) -> Option<((Seq<char>, Seq<char>, Seq<char>), Seq<char>)> {
    match p_lit(s, "{\"id\":"@) {
        Some(s1) => match p_string(s1) {
            Some((id, s2)) => match p_lit(s2, ",\"summary\":"@) {
                Some(s3) => match p_string(s3) {
                    Some((summary, s4)) => match p_lit(s4, ",\"details\":"@) {
                        Some(s5) => match p_string(s5) {
                            Some((details, s6)) => Some(((id, summary, details), s6)),
                            None => None,
                        },
                        None => None,
                    },
                    None => None,
                },
                None => None,
            },
            None => None,
        },
        None => None,
    }
}

/// Reads the middle fields of a task object: priority, category and
/// creation time.
pub open spec fn p_task_b(s: Seq<char>) -> Option<((int, Seq<char>, Timestamp), Seq<char>)> {
    match p_lit(s, ",\"priority\":"@) {
        Some(s7) => match p_u8(s7) {
            Some((priority, s8)) => match p_lit(s8, ",\"category\":"@) {
                Some(s9) => match p_string(s9) {
                    Some((category, s10)) => match p_lit(s10, ",\"created_at\":"@) {
                        Some(s11) => match p_ts(s11) {
                            Some((created_at, s12)) => Some(((priority, category, created_at), s12)),
                            None => None,
                        },
                        None => None,
                    },
                    None => None,
                },
                None => None,
            },
            None => None,
        },
        None => None,
    }
}

/// Reads the last fields of a task object: status, dependencies and
/// wake time, and the closing brace.
pub open spec fn p_task_c(s: Seq<char>) -> Option<
    ((TaskStatus, Seq<Seq<char>>, Option<Timestamp>), Seq<char>),
> {
    match p_lit(s, ",\"status\":"@) {
        Some(s13) => match p_status(s13) {
            Some((status, s14)) => match p_lit(s14, ",\"blocked_by\":"@) {
                Some(s15) => match p_blocked(s15) {
                    Some((bb, s16)) => match p_lit(s16, ",\"wake_at\":"@) {
                        Some(s17) => match p_wake(s17) {
                            Some((wake, s18)) => match p_lit(s18, seq!['}']) {
                                Some(s19) => Some(((status, bb, wake), s19)),
                                None => None,
                            },
                            None => None,
                        },
                        None => None,
                    },
                    None => None,
                },
                None => None,
            },
            None => None,
        },
        None => None,
    }
}

/// Reads one task object. A task whose dependency list repeats an id is
/// rejected.
pub open spec fn p_task(s: Seq<char>) -> Option<(TaskView, Seq<char>)> {
    match p_task_a(s) {
        Some(((id, summary, details), sa)) => match p_task_b(sa) {
            Some(((priority, category, created_at), sb)) => match p_task_c(sb) {
                Some(((status, bb, wake), sc)) => {
                    if distinct_seq(bb) {
                        Some(
                            (
                                TaskView {
                                    id,
                                    summary,
                                    details,
                                    priority,
                                    category,
                                    created_at,
                                    status,
                                    blocked_by: bb,
                                    wake_at: wake,
                                },
                                sc,
                            ),
                        )
                    } else {
                        None
                    }
                },
                None => None,
            },
            None => None,
        },
        None => None,
    }
}

/// What a literal read leaves behind is shorter, when the literal is
/// not empty.
proof fn lemma_p_lit_shrinks(s: Seq<char>, lit: Seq<char>)
    ensures
        p_lit(s, lit) is Some ==> p_lit(s, lit)->0.len() <= s.len() - lit.len(),
{
}

/// What a dependency-array read leaves behind is shorter.
proof fn lemma_p_blocked_rest_shrinks(s: Seq<char>)
    ensures
        p_blocked_rest(s) is Some ==> (p_blocked_rest(s)->0).1.len() < s.len(),
    decreases s.len(),
{
    if s.len() > 0 && s[0] == ',' {
        lemma_p_string_shrinks(s.skip(1));
        if p_string(s.skip(1)) is Some {
            lemma_p_blocked_rest_shrinks((p_string(s.skip(1))->0).1);
        }
    }
}

/// What the first task fields leave behind is shorter.
proof fn lemma_p_task_a_shrinks(s: Seq<char>)
    ensures
        p_task_a(s) is Some ==> (p_task_a(s)->0).1.len() < s.len(),
{
    if p_lit(s, "{\"id\":"@) is Some {
        let s1 = p_lit(s, "{\"id\":"@)->0;
        lemma_p_string_shrinks(s1);
        if p_string(s1) is Some {
            let s2 = (p_string(s1)->0).1;
            if p_lit(s2, ",\"summary\":"@) is Some {
                let s3 = p_lit(s2, ",\"summary\":"@)->0;
                lemma_p_string_shrinks(s3);
                if p_string(s3) is Some {
                    let s4 = (p_string(s3)->0).1;
                    if p_lit(s4, ",\"details\":"@) is Some {
                        let s5 = p_lit(s4, ",\"details\":"@)->0;
                        lemma_p_string_shrinks(s5);
                    }
                }
            }
        }
    }
}

/// What the middle task fields leave behind is no longer.
proof fn lemma_p_task_b_shrinks(s: Seq<char>)
    ensures
        p_task_b(s) is Some ==> (p_task_b(s)->0).1.len() < s.len(),
{
    if p_lit(s, ",\"priority\":"@) is Some {
        let s7 = p_lit(s, ",\"priority\":"@)->0;
        if p_u8(s7) is Some {
            let s8 = (p_u8(s7)->0).1;
            if p_lit(s8, ",\"category\":"@) is Some {
                let s9 = p_lit(s8, ",\"category\":"@)->0;
                lemma_p_string_shrinks(s9);
                if p_string(s9) is Some {
                    let s10 = (p_string(s9)->0).1;
                    if p_lit(s10, ",\"created_at\":"@) is Some {
                        let s11 = p_lit(s10, ",\"created_at\":"@)->0;
                        lemma_p_string_shrinks(s11);
                    }
                }
            }
        }
    }
}

/// What the last task fields leave behind is shorter.
proof fn lemma_p_task_c_shrinks(s: Seq<char>)
    ensures
        p_task_c(s) is Some ==> (p_task_c(s)->0).1.len() < s.len(),
{
    if p_lit(s, ",\"status\":"@) is Some {
        let s13 = p_lit(s, ",\"status\":"@)->0;
        lemma_p_string_shrinks(s13);
        if p_status(s13) is Some {
            let s14 = (p_status(s13)->0).1;
            if p_lit(s14, ",\"blocked_by\":"@) is Some {
                let s15 = p_lit(s14, ",\"blocked_by\":"@)->0;
                lemma_p_blocked_shrinks(s15);
                if p_blocked(s15) is Some {
                    let s16 = (p_blocked(s15)->0).1;
                    if p_lit(s16, ",\"wake_at\":"@) is Some {
                        let s17 = p_lit(s16, ",\"wake_at\":"@)->0;
                        lemma_p_string_shrinks(s17);
                    }
                }
            }
        }
    }
}

/// What a task read leaves behind is shorter.
proof fn lemma_p_task_shrinks(s: Seq<char>)
    ensures
        p_task(s) is Some ==> (p_task(s)->0).1.len() < s.len(),
{
    lemma_p_task_a_shrinks(s);
    if p_task_a(s) is Some {
        let sa = (p_task_a(s)->0).1;
        lemma_p_task_b_shrinks(sa);
        if p_task_b(sa) is Some {
            let sb = (p_task_b(sa)->0).1;
            lemma_p_task_c_shrinks(sb);
        }
    }
}

/// What a dependency-array read leaves behind is shorter.
proof fn lemma_p_blocked_shrinks(s: Seq<char>)
    ensures
        p_blocked(s) is Some ==> (p_blocked(s)->0).1.len() < s.len(),
{
    if s.len() >= 1 && s[0] == '[' && !(s.len() >= 2 && s[1] == ']') {
        lemma_p_string_shrinks(s.skip(1));
        if p_string(s.skip(1)) is Some {
            lemma_p_blocked_rest_shrinks((p_string(s.skip(1))->0).1);
        }
    }
}

/// Reads the tasks after the first of the array.
pub open spec fn p_tasks_rest(s: Seq<char>) -> Option<(Seq<TaskView>, Seq<char>)>
    decreases s.len() when true via p_tasks_rest_decreases
{
    if s.len() == 0 {
        None
    } else if s[0] == ']' {
        Some((Seq::empty(), s.skip(1)))
    } else if s[0] == ',' {
        match p_task(s.skip(1)) {
            Some((t, r)) => match p_tasks_rest(r) {
                Some((ts, r2)) => Some((seq![t] + ts, r2)),
                None => None,
            },
            None => None,
        }
    } else {
        None
    }
}

#[via_fn]
proof fn p_tasks_rest_decreases(s: Seq<char>) {
    if s.len() > 0 && s[0] == ',' {
        lemma_p_task_shrinks(s.skip(1));
    }
}

/// The store a whole text stands for: a JSON array of task objects and
/// nothing else.
pub open spec fn spec_parse_tasks(s: Seq<char>) -> Option<Seq<TaskView>> {
    if s.len() >= 1 && s[0] == '[' {
        if s.len() >= 2 && s[1] == ']' {
            if s.len() == 2 {
                Some(Seq::empty())
            } else {
                None
            }
        } else {
            match p_task(s.skip(1)) {
                Some((t, r)) => match p_tasks_rest(r) {
                    Some((ts, r2)) => {
                        if r2.len() == 0 {
                            Some(seq![t] + ts)
                        } else {
                            None
                        }
                    },
                    None => None,
                },
                None => None,
            }
        }
    } else {
        None
    }
}

/// A character that stands for itself inside a string.
pub open spec fn plain_char(c: char) -> bool {
    c != '"' && c != '\\' && c as u32 >= 32
}

/// Escaping changes nothing about a text of plain characters.
proof fn lemma_escape_plain(s: Seq<char>)
    requires
        forall|i: int| 0 <= i < s.len() ==> plain_char(#[trigger] s[i]),
    ensures
        json_escape(s) == s,
    decreases s.len(),
{
    if s.len() > 0 {
        assert(('"' as u32) == 34 && ('\\' as u32) == 92);
        assert(esc_char(s[0]) =~= seq![s[0]]);
        assert(forall|i: int| 0 <= i < s.skip(1).len() ==> plain_char(#[trigger] s.skip(1)[i]));
        lemma_escape_plain(s.skip(1));
        assert(json_escape(s) =~= s);
    }
}

/// A consumed literal leaves exactly what followed it.
proof fn lemma_lit_rt(lit: Seq<char>, rest: Seq<char>)
    ensures
        p_lit(lit + rest, lit) == Some(rest),
{
    assert((lit + rest).take(lit.len() as int) =~= lit);
    assert((lit + rest).skip(lit.len() as int) =~= rest);
}

/// Reading an escaped string body gives back exactly the original text.
proof fn lemma_str_body_rt(x: Seq<char>, rest: Seq<char>)
    ensures
        p_str_body(json_escape(x) + seq!['"'] + rest) == Some((x, rest)),
    decreases x.len(),
{
    let s = json_escape(x) + seq!['"'] + rest;
    assert(('"' as u32) == 34 && ('\\' as u32) == 92 && ('n' as u32) == 110 && ('r' as u32) == 114
        && ('t' as u32) == 116 && ('u' as u32) == 117 && ('\n' as u32) == 10 && ('\r' as u32) == 13
        && ('\t' as u32) == 9 && ('0' as u32) == 48);
    if x.len() == 0 {
        assert(s =~= seq!['"'] + rest);
        assert(s.skip(1) =~= rest);
    } else {
        let c = x[0];
        let e = esc_char(c);
        assert(json_escape(x) == e + json_escape(x.skip(1)));
        lemma_str_body_rt(x.skip(1), rest);
        let tail = json_escape(x.skip(1)) + seq!['"'] + rest;
        if c == '"' || c == '\\' || c == '\n' || c == '\r' || c == '\t' {
            assert(s[0] == '\\');
            assert(s.len() >= 2);
            assert(s[1] != 'u');
            assert(s.skip(2) =~= tail);
            assert(p_str_body(s) == Some((seq![c] + x.skip(1), rest)));
            assert(seq![c] + x.skip(1) =~= x);
        } else if (c as u32) < 32 {
            let code = c as u32 as int;
            let hi = code / 16;
            let lo = code % 16;
            assert(0 <= hi <= 1);
            assert(0 <= lo <= 15);
            assert(s[0] == '\\' && s[1] == 'u' && s[2] == '0' && s[3] == '0');
            assert(s[4] == hex_digit(hi) && s[5] == hex_digit(lo));
            lemma_hex_rt(hi);
            lemma_hex_rt(lo);
            assert(hex_val('0') == 0);
            assert(hex_val(s[2]) * 4096 + hex_val(s[3]) * 256 + hex_val(s[4]) * 16 + hex_val(s[5])
                == code);
            assert(s.skip(6) =~= tail);
            vstd::utf8::char_u32_cast(c, code as u32);
            assert(((code as u32) as char) == c);
            assert(p_str_body(s) == Some((seq![c] + x.skip(1), rest)));
            assert(seq![c] + x.skip(1) =~= x);
        } else {
            assert(e =~= seq![c]);
            assert(s[0] == c);
            assert(c != '"' && c != '\\');
            assert(s.skip(1) =~= tail);
            assert(p_str_body(s) == Some((seq![c] + x.skip(1), rest)));
            assert(seq![c] + x.skip(1) =~= x);
        }
    }
}

/// A hexadecimal digit character carries its value.
proof fn lemma_hex_rt(d: int)
    requires
        0 <= d <= 15,
    ensures
        hex_val(hex_digit(d)) == d,
        hex_digit(d) != '"' && hex_digit(d) != '\\',
{
    if d < 10 {
        crate::timefmt::lemma_digit_char_val(d);
        assert(('a' as u32) == 97 && ('f' as u32) == 102 && ('"' as u32) == 34 && ('\\' as u32)
            == 92);
    } else {
        assert(('a' as u32) == 97 && ('b' as u32) == 98 && ('c' as u32) == 99 && ('d' as u32)
            == 100 && ('e' as u32) == 101 && ('f' as u32) == 102);
        assert(('0' as u32) == 48 && ('9' as u32) == 57 && ('"' as u32) == 34 && ('\\' as u32)
            == 92);
    }
}

/// Reading a quoted string gives back exactly the original text.
proof fn lemma_string_rt(x: Seq<char>, rest: Seq<char>)
    ensures
        p_string(quoted(x) + rest) == Some((x, rest)),
{
    let s = quoted(x) + rest;
    assert(s[0] == '"');
    assert(s.skip(1) =~= json_escape(x) + seq!['"'] + rest);
    lemma_str_body_rt(x, rest);
}

/// Reading a rendered small number gives it back, when what follows
/// starts with no digit.
proof fn lemma_dec_u8_rt(p: int, rest: Seq<char>)
    requires
        0 <= p <= 255,
        rest.len() >= 1,
        !crate::simple_duration::is_digit(rest[0]),
    ensures
        p_u8(dec_u8(p) + rest) == Some((p, rest)),
{
    let s = dec_u8(p) + rest;
    if p >= 100 {
        crate::timefmt::lemma_digit_char_val(p / 100);
        crate::timefmt::lemma_digit_char_val(p / 10 % 10);
        crate::timefmt::lemma_digit_char_val(p % 10);
        assert(p / 100 <= 9) by {
            vstd::arithmetic::div_mod::lemma_div_is_ordered(p, 255, 100);
            assert(255int / 100 == 2);
        }
        assert(s.skip(3) =~= rest);
        assert(p / 100 * 100 + p / 10 % 10 * 10 + p % 10 == p) by {
            crate::timefmt::lemma_dec3_val(p);
        }
    } else if p >= 10 {
        crate::timefmt::lemma_digit_char_val(p / 10);
        crate::timefmt::lemma_digit_char_val(p % 10);
        assert(s.skip(2) =~= rest);
        assert(p / 10 * 10 + p % 10 == p);
        assert(p / 10 == p / 10 % 10);
    } else {
        crate::timefmt::lemma_digit_char_val(p);
        assert(s.skip(1) =~= rest);
    }
}

/// A rendered timestamp holds only plain characters.
proof fn lemma_fmt_ts_plain(t: Timestamp)
    requires
        crate::task::ts_wf(t),
    ensures
        forall|i: int| 0 <= i < fmt_ts(t).len() ==> plain_char(#[trigger] fmt_ts(t)[i]),
        fmt_ts(t).len() == 25,
    decreases 0int,
{
    crate::timefmt::lemma_fmt_ts_fields(t);
    let u = fmt_ts(t);
    assert(('-' as u32) == 45 && ('T' as u32) == 84 && (':' as u32) == 58 && ('+' as u32) == 43
        && ('"' as u32) == 34 && ('\\' as u32) == 92);
    assert forall|i: int| 0 <= i < u.len() implies plain_char(#[trigger] u[i]) by {
        if i == 4 || i == 7 {
        } else if i == 10 {
        } else if i == 13 || i == 16 || i == 22 {
        } else if i == 19 {
        } else {
            assert(crate::simple_duration::is_digit(u[i]));
        }
    }
}

/// Reading a rendered quoted timestamp gives it back.
proof fn lemma_ts_field_rt(t: Timestamp, rest: Seq<char>)
    requires
        crate::task::ts_wf(t),
    ensures
        p_ts(quoted(fmt_ts(t)) + rest) == Some((t, rest)),
{
    lemma_fmt_ts_plain(t);
    lemma_escape_plain(fmt_ts(t));
    lemma_string_rt(fmt_ts(t), rest);
    crate::timefmt::lemma_ts_round_trip(t);
}

/// Reading a rendered status gives it back.
proof fn lemma_status_rt(st: TaskStatus, rest: Seq<char>)
    ensures
        p_status(quoted(status_name(st)) + rest) == Some((st, rest)),
{
    reveal_strlit("active");
    reveal_strlit("backlog");
    reveal_strlit("blocked");
    reveal_strlit("sleeping");
    reveal_strlit("completed");
    assert(('a' as u32) == 97 && ('b' as u32) == 98 && ('c' as u32) == 99 && ('d' as u32) == 100
        && ('e' as u32) == 101 && ('g' as u32) == 103 && ('i' as u32) == 105 && ('k' as u32)
        == 107 && ('l' as u32) == 108 && ('m' as u32) == 109 && ('n' as u32) == 110 && ('o'
        as u32) == 111 && ('p' as u32) == 112 && ('s' as u32) == 115 && ('t' as u32) == 116 && ('v'
        as u32) == 118);
    let name = status_name(st);
    assert(forall|i: int| 0 <= i < name.len() ==> plain_char(#[trigger] name[i]));
    lemma_escape_plain(name);
    lemma_string_rt(name, rest);
    assert(status_name(TaskStatus::Backlog) != status_name(TaskStatus::Blocked)) by {
        assert(status_name(TaskStatus::Backlog)[1] == 'a');
    }
}

/// Reading a rendered dependency array gives it back.
proof fn lemma_blocked_rt(bb: Seq<Seq<char>>, rest: Seq<char>)
    ensures
        p_blocked(blocked_json(bb) + rest) == Some((bb, rest)),
{
    let s = blocked_json(bb) + rest;
    assert(('[' as u32) == 91 && (']' as u32) == 93 && ('"' as u32) == 34 && (',' as u32) == 44);
    if bb.len() == 0 {
        assert(s[0] == '[' && s[1] == ']');
        assert(s.skip(2) =~= rest);
    } else {
        assert(s[0] == '[');
        assert(s[1] == '"');
        assert(s.skip(1) =~= quoted(bb[0]) + (blocked_rest_json(bb.skip(1)) + seq![']'] + rest));
        lemma_string_rt(bb[0], blocked_rest_json(bb.skip(1)) + seq![']'] + rest);
        lemma_blocked_rest_rt(bb.skip(1), rest);
        assert(seq![bb[0]] + bb.skip(1) =~= bb);
    }
}

/// Reading the rendered tail of a dependency array gives it back.
proof fn lemma_blocked_rest_rt(bb: Seq<Seq<char>>, rest: Seq<char>)
    ensures
        p_blocked_rest(blocked_rest_json(bb) + seq![']'] + rest) == Some((bb, rest)),
    decreases bb.len(),
{
    let s = blocked_rest_json(bb) + seq![']'] + rest;
    assert((']' as u32) == 93 && (',' as u32) == 44);
    if bb.len() == 0 {
        assert(s[0] == ']');
        assert(s.skip(1) =~= rest);
    } else {
        assert(s[0] == ',');
        assert(s.skip(1) =~= quoted(bb[0]) + (blocked_rest_json(bb.skip(1)) + seq![']'] + rest));
        lemma_string_rt(bb[0], blocked_rest_json(bb.skip(1)) + seq![']'] + rest);
        lemma_blocked_rest_rt(bb.skip(1), rest);
        assert(seq![bb[0]] + bb.skip(1) =~= bb);
    }
}

/// Reading a rendered wake time gives it back.
proof fn lemma_wake_rt(w: Option<Timestamp>, rest: Seq<char>)
    requires
        match w {
            Some(t) => crate::task::ts_wf(t),
            None => true,
        },
    ensures
        p_wake(wake_json(w) + rest) == Some((w, rest)),
{
    let s = wake_json(w) + rest;
    assert(('n' as u32) == 110 && ('"' as u32) == 34);
    match w {
        Option::None => {
            assert(s.take(4) =~= seq!['n', 'u', 'l', 'l']);
            assert(s.skip(4) =~= rest);
        },
        Option::Some(t) => {
            assert(s[0] == '"');
            if s.len() >= 4 {
                assert(s.take(4)[0] == '"');
                assert(s.take(4) != seq!['n', 'u', 'l', 'l']);
            }
            lemma_ts_field_rt(t, rest);
        },
    }
}

/// Reading the rendered first fields gives them back.
#[verifier::rlimit(100)]
proof fn lemma_task_a_rt(t: TaskView, after: Seq<char>)
    ensures
        p_task_a(
            "{\"id\":"@ + quoted(t.id) + ",\"summary\":"@ + quoted(t.summary) + ",\"details\":"@
                + quoted(t.details) + after,
        ) == Some(((t.id, t.summary, t.details), after)),
{
    let s4 = quoted(t.details) + after;
    let s3p = ",\"details\":"@ + s4;
    let s2 = quoted(t.summary) + s3p;
    let s1p = ",\"summary\":"@ + s2;
    let s0 = quoted(t.id) + s1p;
    let s = "{\"id\":"@ + s0;
    assert("{\"id\":"@ + quoted(t.id) + ",\"summary\":"@ + quoted(t.summary) + ",\"details\":"@
        + quoted(t.details) + after =~= s);
    lemma_lit_rt("{\"id\":"@, s0);
    lemma_string_rt(t.id, s1p);
    lemma_lit_rt(",\"summary\":"@, s2);
    lemma_string_rt(t.summary, s3p);
    lemma_lit_rt(",\"details\":"@, s4);
    lemma_string_rt(t.details, after);
}

/// Reading the rendered middle fields gives them back.
#[verifier::rlimit(100)]
proof fn lemma_task_b_rt(t: TaskView, after: Seq<char>)
    requires
        task_wf(t),
    ensures
        p_task_b(
            ",\"priority\":"@ + dec_u8(t.priority) + ",\"category\":"@ + quoted(t.category)
                + ",\"created_at\":"@ + quoted(fmt_ts(t.created_at)) + after,
        ) == Some(((t.priority, t.category, t.created_at), after)),
{
    let s11 = quoted(fmt_ts(t.created_at)) + after;
    let s10 = ",\"created_at\":"@ + s11;
    let s9 = quoted(t.category) + s10;
    let s8 = ",\"category\":"@ + s9;
    let s7 = dec_u8(t.priority) + s8;
    let s = ",\"priority\":"@ + s7;
    assert(",\"priority\":"@ + dec_u8(t.priority) + ",\"category\":"@ + quoted(t.category)
        + ",\"created_at\":"@ + quoted(fmt_ts(t.created_at)) + after =~= s);
    lemma_lit_rt(",\"priority\":"@, s7);
    reveal_strlit(",\"category\":");
    assert((',' as u32) == 44);
    assert(s8.len() >= 1 && !crate::simple_duration::is_digit(s8[0]));
    lemma_dec_u8_rt(t.priority, s8);
    lemma_lit_rt(",\"category\":"@, s9);
    lemma_string_rt(t.category, s10);
    lemma_lit_rt(",\"created_at\":"@, s11);
    lemma_ts_field_rt(t.created_at, after);
}

/// Reading the rendered last fields gives them back.
#[verifier::rlimit(100)]
proof fn lemma_task_c_rt(t: TaskView, after: Seq<char>)
    requires
        task_wf(t),
    ensures
        p_task_c(
            ",\"status\":"@ + quoted(status_name(t.status)) + ",\"blocked_by\":"@ + blocked_json(
                t.blocked_by,
            ) + ",\"wake_at\":"@ + wake_json(t.wake_at) + seq!['}'] + after,
        ) == Some(((t.status, t.blocked_by, t.wake_at), after)),
{
    let s18 = seq!['}'] + after;
    let s17 = wake_json(t.wake_at) + s18;
    let s16 = ",\"wake_at\":"@ + s17;
    let s15 = blocked_json(t.blocked_by) + s16;
    let s14 = ",\"blocked_by\":"@ + s15;
    let s13 = quoted(status_name(t.status)) + s14;
    let s = ",\"status\":"@ + s13;
    assert(",\"status\":"@ + quoted(status_name(t.status)) + ",\"blocked_by\":"@ + blocked_json(
        t.blocked_by,
    ) + ",\"wake_at\":"@ + wake_json(t.wake_at) + seq!['}'] + after =~= s);
    lemma_lit_rt(",\"status\":"@, s13);
    lemma_status_rt(t.status, s14);
    lemma_lit_rt(",\"blocked_by\":"@, s15);
    lemma_blocked_rt(t.blocked_by, s16);
    lemma_lit_rt(",\"wake_at\":"@, s17);
    lemma_wake_rt(t.wake_at, s18);
    lemma_lit_rt(seq!['}'], after);
}

/// Reading a rendered task object gives back exactly the task.
#[verifier::rlimit(100)]
proof fn lemma_task_rt(t: TaskView, rest: Seq<char>)
    requires
        task_wf(t),
    ensures
        p_task(task_json(t) + rest) == Some((t, rest)),
{
    let part_a = "{\"id\":"@ + quoted(t.id) + ",\"summary\":"@ + quoted(t.summary)
        + ",\"details\":"@ + quoted(t.details);
    let part_b = ",\"priority\":"@ + dec_u8(t.priority) + ",\"category\":"@ + quoted(t.category)
        + ",\"created_at\":"@ + quoted(fmt_ts(t.created_at));
    let part_c = ",\"status\":"@ + quoted(status_name(t.status)) + ",\"blocked_by\":"@
        + blocked_json(t.blocked_by) + ",\"wake_at\":"@ + wake_json(t.wake_at) + seq!['}'];
    assert(task_json(t) + rest =~= part_a + (part_b + (part_c + rest))) by {
        reveal(task_json);
    }
    assert(part_a + (part_b + (part_c + rest)) =~= "{\"id\":"@ + quoted(t.id) + ",\"summary\":"@
        + quoted(t.summary) + ",\"details\":"@ + quoted(t.details) + (part_b + (part_c + rest)));
    lemma_task_a_rt(t, part_b + (part_c + rest));
    assert(part_b + (part_c + rest) =~= ",\"priority\":"@ + dec_u8(t.priority) + ",\"category\":"@
        + quoted(t.category) + ",\"created_at\":"@ + quoted(fmt_ts(t.created_at)) + (part_c
        + rest));
    lemma_task_b_rt(t, part_c + rest);
    assert(part_c + rest =~= ",\"status\":"@ + quoted(status_name(t.status)) + ",\"blocked_by\":"@
        + blocked_json(t.blocked_by) + ",\"wake_at\":"@ + wake_json(t.wake_at) + seq!['}'] + rest);
    lemma_task_c_rt(t, rest);
    assert(t =~= (TaskView {
        id: t.id,
        summary: t.summary,
        details: t.details,
        priority: t.priority,
        category: t.category,
        created_at: t.created_at,
        status: t.status,
        blocked_by: t.blocked_by,
        wake_at: t.wake_at,
    }));
}

/// Reading the rendered tail of the task array gives it back.
#[verifier::rlimit(100)]
proof fn lemma_tasks_rest_rt(s: Seq<TaskView>, rest: Seq<char>)
    requires
        forall|i: int| 0 <= i < s.len() ==> task_wf(#[trigger] s[i]),
    ensures
        p_tasks_rest(tasks_rest_json(s) + seq![']'] + rest) == Some((s, rest)),
    decreases s.len(),
{
    let u = tasks_rest_json(s) + seq![']'] + rest;
    assert((']' as u32) == 93 && (',' as u32) == 44);
    if s.len() == 0 {
        assert(u[0] == ']');
        assert(u.skip(1) =~= rest);
        assert(p_tasks_rest(u) == Some((Seq::<TaskView>::empty(), rest)));
        assert(s =~= Seq::<TaskView>::empty());
    } else {
        assert(u[0] == ',');
        assert(u.skip(1) =~= task_json(s[0]) + (tasks_rest_json(s.skip(1)) + seq![']'] + rest));
        lemma_task_rt(s[0], tasks_rest_json(s.skip(1)) + seq![']'] + rest);
        assert(forall|i: int|
            0 <= i < s.skip(1).len() ==> task_wf(#[trigger] s.skip(1)[i]));
        lemma_tasks_rest_rt(s.skip(1), rest);
        assert(seq![s[0]] + s.skip(1) =~= s);
    }
}

/// Reading a rendered store gives back exactly its tasks: writing and
/// reading are inverses.
#[verifier::rlimit(100)]
pub proof fn lemma_tasks_round_trip(s: Seq<TaskView>)
    requires
        forall|i: int| 0 <= i < s.len() ==> task_wf(#[trigger] s[i]),
    ensures
        spec_parse_tasks(tasks_json(s)) == Some(s),
{
    let u = tasks_json(s);
    assert(('[' as u32) == 91 && (']' as u32) == 93 && ('{' as u32) == 123);
    if s.len() == 0 {
        assert(u =~= seq!['[', ']']);
        assert(spec_parse_tasks(u) == Some(Seq::<TaskView>::empty()));
        assert(s =~= Seq::<TaskView>::empty());
    } else {
        assert(u[0] == '[');
        assert(u.len() >= 2);
        assert(task_json(s[0])[0] == '{' && task_json(s[0]).len() > 0) by {
            reveal(task_json);
            reveal_strlit("{\"id\":");
        }
        assert(u[1] == '{');
        assert(u.skip(1) =~= task_json(s[0]) + (tasks_rest_json(s.skip(1)) + seq![']']
            + Seq::<char>::empty()));
        lemma_task_rt(s[0], tasks_rest_json(s.skip(1)) + seq![']'] + Seq::<char>::empty());
        assert(forall|i: int|
            0 <= i < s.skip(1).len() ==> task_wf(#[trigger] s.skip(1)[i]));
        lemma_tasks_rest_rt(s.skip(1), Seq::<char>::empty());
        assert(seq![s[0]] + s.skip(1) =~= s);
    }
}

/// Escaping distributes over concatenation.
proof fn lemma_escape_append(a: Seq<char>, b: Seq<char>)
    ensures
        json_escape(a + b) == json_escape(a) + json_escape(b),
    decreases a.len(),
{
    if a.len() == 0 {
        assert(a + b =~= b);
        assert(json_escape(a) + json_escape(b) =~= json_escape(b));
    } else {
        assert((a + b).skip(1) =~= a.skip(1) + b);
        lemma_escape_append(a.skip(1), b);
        assert(json_escape(a + b) =~= json_escape(a) + json_escape(b));
    }
}

/// The rendered tail of a task array distributes over concatenation.
proof fn lemma_tasks_rest_append(a: Seq<TaskView>, b: Seq<TaskView>)
    ensures
        tasks_rest_json(a + b) == tasks_rest_json(a) + tasks_rest_json(b),
    decreases a.len(),
{
    if a.len() == 0 {
        assert(a + b =~= b);
        assert(tasks_rest_json(a) + tasks_rest_json(b) =~= tasks_rest_json(b));
    } else {
        assert((a + b).skip(1) =~= a.skip(1) + b);
        assert((a + b)[0] == a[0]);
        lemma_tasks_rest_append(a.skip(1), b);
        assert(tasks_rest_json(a + b) =~= tasks_rest_json(a) + tasks_rest_json(b));
    }
}

/// Appends the characters of a string.
fn push_str_chars(out: &mut Vec<char>, lit: &str)
    ensures
        final(out)@ == old(out)@ + lit@,
{
    let n = lit.unicode_len();
    let mut i: usize = 0;
    while i < n
        invariant
            0 <= i <= n,
            n == lit@.len(),
            out@ == old(out)@ + lit@.take(i as int),
        decreases n - i,
    {
        out.push(lit.get_char(i));
        assert(out@ =~= old(out)@ + lit@.take(i + 1));
        i += 1;
    }
    assert(lit@.take(n as int) =~= lit@);
}

/// The character of one hexadecimal digit value, executably.
fn hex_to_char(v: u32) -> (c: char)
    requires
        v <= 15,
    ensures
        c == hex_digit(v as int),
{
    match v {
        0 => '0',
        1 => '1',
        2 => '2',
        3 => '3',
        4 => '4',
        5 => '5',
        6 => '6',
        7 => '7',
        8 => '8',
        9 => '9',
        10 => 'a',
        11 => 'b',
        12 => 'c',
        13 => 'd',
        14 => 'e',
        _ => 'f',
    }
}

/// Appends the escaped form of a text.
fn push_escaped(out: &mut Vec<char>, s: &str)
    ensures
        final(out)@ == old(out)@ + json_escape(s@),
{
    let n = s.unicode_len();
    let mut i: usize = 0;
    proof {
        assert(s@.take(0) =~= Seq::<char>::empty());
    }
    while i < n
        invariant
            0 <= i <= n,
            n == s@.len(),
            out@ == old(out)@ + json_escape(s@.take(i as int)),
        decreases n - i,
    {
        let c = s.get_char(i);
        let ghost pre = out@;
        proof {
            assert(s@.take(i + 1) =~= s@.take(i as int) + seq![s@[i as int]]);
            lemma_escape_append(s@.take(i as int), seq![s@[i as int]]);
            let ghost single = seq![s@[i as int]];
            assert(single.len() == 1 && single[0] == s@[i as int]);
            assert(single.skip(1) =~= Seq::<char>::empty());
            assert(json_escape(single) == esc_char(single[0]) + json_escape(single.skip(1)));
            assert(json_escape(Seq::<char>::empty()) =~= Seq::<char>::empty());
            assert(json_escape(single) =~= esc_char(s@[i as int]));
        }
        if c == '"' {
            out.push('\\');
            out.push('"');
            assert(out@ =~= pre + esc_char(c));
        } else if c == '\\' {
            out.push('\\');
            out.push('\\');
            assert(out@ =~= pre + esc_char(c));
        } else if c == '\n' {
            out.push('\\');
            out.push('n');
            assert(out@ =~= pre + esc_char(c));
        } else if c == '\r' {
            out.push('\\');
            out.push('r');
            assert(out@ =~= pre + esc_char(c));
        } else if c == '\t' {
            out.push('\\');
            out.push('t');
            assert(out@ =~= pre + esc_char(c));
        } else if (c as u32) < 32 {
            out.push('\\');
            out.push('u');
            out.push('0');
            out.push('0');
            out.push(hex_to_char((c as u32) / 16));
            out.push(hex_to_char((c as u32) % 16));
            assert(out@ =~= pre + esc_char(c));
        } else {
            out.push(c);
            assert(out@ =~= pre + esc_char(c));
        }
        assert(out@ =~= old(out)@ + json_escape(s@.take(i + 1)));
        i += 1;
    }
    assert(s@.take(n as int) =~= s@);
}

/// Appends a quoted, escaped text.
fn push_quoted(out: &mut Vec<char>, s: &str)
    ensures
        final(out)@ == old(out)@ + quoted(s@),
{
    out.push('"');
    push_escaped(out, s);
    out.push('"');
    assert(final(out)@ =~= old(out)@ + quoted(s@));
}

/// Appends a small number in decimal.
fn push_dec_u8(out: &mut Vec<char>, p: u8)
    ensures
        final(out)@ == old(out)@ + dec_u8(p as int),
{
    let v: u64 = p as u64;
    if p >= 100 {
        out.push(crate::timefmt::digit_to_char(v / 100));
        out.push(crate::timefmt::digit_to_char(v / 10 % 10));
        out.push(crate::timefmt::digit_to_char(v % 10));
        assert(v as int / 100 == p as int / 100);
        assert(final(out)@ =~= old(out)@ + dec_u8(p as int));
    } else if p >= 10 {
        out.push(crate::timefmt::digit_to_char(v / 10));
        out.push(crate::timefmt::digit_to_char(v % 10));
        assert(final(out)@ =~= old(out)@ + dec_u8(p as int));
    } else {
        out.push(crate::timefmt::digit_to_char(v));
        assert(final(out)@ =~= old(out)@ + dec_u8(p as int));
    }
}

/// Appends a rendered dependency array.
fn push_blocked(out: &mut Vec<char>, bb: &Vec<String>)
    ensures
        final(out)@ == old(out)@ + blocked_json(bb.deep_view()),
{
    let ghost v = bb.deep_view();
    out.push('[');
    if bb.len() == 0 {
        out.push(']');
        assert(final(out)@ =~= old(out)@ + blocked_json(v));
        return ;
    }
    push_quoted(out, bb[0].as_str());
    let mut i: usize = 1;
    assert(out@ =~= old(out)@ + seq!['['] + quoted(v[0]) + blocked_rest_json(
        v.subrange(1, 1),
    )) by {
        assert(v.subrange(1, 1) =~= Seq::<Seq<char>>::empty());
    }
    while i < bb.len()
        invariant
            1 <= i <= bb.len(),
            v == bb.deep_view(),
            v.len() == bb.len(),
            out@ == old(out)@ + seq!['['] + quoted(v[0]) + blocked_rest_json(v.subrange(1, i as int)),
        decreases bb.len() - i,
    {
        let ghost pre = out@;
        out.push(',');
        push_quoted(out, bb[i].as_str());
        proof {
            assert(v.subrange(1, i + 1) =~= v.subrange(1, i as int) + seq![v[i as int]]);
            lemma_blocked_rest_json_append(v.subrange(1, i as int), seq![v[i as int]]);
            let ghost single = seq![v[i as int]];
            assert(single.len() == 1 && single[0] == v[i as int]);
            assert(single.skip(1) =~= Seq::<Seq<char>>::empty());
            assert(blocked_rest_json(single) == seq![','] + quoted(single[0])
                + blocked_rest_json(single.skip(1)));
            assert(blocked_rest_json(Seq::<Seq<char>>::empty()) =~= Seq::<char>::empty());
            assert(blocked_rest_json(single) =~= seq![','] + quoted(v[i as int]));
            assert(out@ =~= old(out)@ + seq!['['] + quoted(v[0]) + blocked_rest_json(
                v.subrange(1, i + 1),
            ));
        }
        i += 1;
    }
    out.push(']');
    proof {
        assert(v.subrange(1, v.len() as int) =~= v.skip(1));
        assert(final(out)@ =~= old(out)@ + blocked_json(v));
    }
}

/// The rendered tail of a dependency array distributes over
/// concatenation.
proof fn lemma_blocked_rest_json_append(a: Seq<Seq<char>>, b: Seq<Seq<char>>)
    ensures
        blocked_rest_json(a + b) == blocked_rest_json(a) + blocked_rest_json(b),
    decreases a.len(),
{
    if a.len() == 0 {
        assert(a + b =~= b);
        assert(blocked_rest_json(a) + blocked_rest_json(b) =~= blocked_rest_json(b));
    } else {
        assert((a + b).skip(1) =~= a.skip(1) + b);
        assert((a + b)[0] == a[0]);
        lemma_blocked_rest_json_append(a.skip(1), b);
        assert(blocked_rest_json(a + b) =~= blocked_rest_json(a) + blocked_rest_json(b));
    }
}

/// Appends one rendered task object.
#[verifier::rlimit(100)]
pub fn push_task(out: &mut Vec<char>, t: &Task)
    requires
        task_wf(t@),
    ensures
        final(out)@ == old(out)@ + task_json(t@),
{
    let ghost base = out@;
    push_str_chars(out, "{\"id\":");
    push_quoted(out, t.id.as_str());
    assert(out@ =~= base + ("{\"id\":"@ + quoted(t@.id)));
    let ghost c1 = "{\"id\":"@ + quoted(t@.id);
    push_str_chars(out, ",\"summary\":");
    push_quoted(out, t.summary.as_str());
    assert(out@ =~= base + (c1 + ",\"summary\":"@ + quoted(t@.summary)));
    let ghost c2 = c1 + ",\"summary\":"@ + quoted(t@.summary);
    push_str_chars(out, ",\"details\":");
    push_quoted(out, t.details.as_str());
    assert(out@ =~= base + (c2 + ",\"details\":"@ + quoted(t@.details)));
    let ghost c3 = c2 + ",\"details\":"@ + quoted(t@.details);
    push_str_chars(out, ",\"priority\":");
    push_dec_u8(out, t.priority);
    assert(out@ =~= base + (c3 + ",\"priority\":"@ + dec_u8(t@.priority)));
    let ghost c4 = c3 + ",\"priority\":"@ + dec_u8(t@.priority);
    push_str_chars(out, ",\"category\":");
    push_quoted(out, t.category.as_str());
    assert(out@ =~= base + (c4 + ",\"category\":"@ + quoted(t@.category)));
    let ghost c5 = c4 + ",\"category\":"@ + quoted(t@.category);
    push_str_chars(out, ",\"created_at\":");
    out.push('"');
    crate::timefmt::push_ts(out, t.created_at);
    out.push('"');
    assert(out@ =~= base + (c5 + ",\"created_at\":"@ + quoted(fmt_ts(t@.created_at)))) by {
        lemma_fmt_ts_plain(t@.created_at);
        lemma_escape_plain(fmt_ts(t@.created_at));
    }
    let ghost c6 = c5 + ",\"created_at\":"@ + quoted(fmt_ts(t@.created_at));
    push_str_chars(out, ",\"status\":");
    out.push('"');
    push_str_chars(out, t.status.name());
    out.push('"');
    assert(out@ =~= base + (c6 + ",\"status\":"@ + quoted(status_name(t@.status)))) by {
        lemma_status_name_plain(t@.status);
        lemma_escape_plain(status_name(t@.status));
    }
    let ghost c7 = c6 + ",\"status\":"@ + quoted(status_name(t@.status));
    push_str_chars(out, ",\"blocked_by\":");
    push_blocked(out, &t.blocked_by);
    assert(out@ =~= base + (c7 + ",\"blocked_by\":"@ + blocked_json(t@.blocked_by)));
    let ghost c8 = c7 + ",\"blocked_by\":"@ + blocked_json(t@.blocked_by);
    push_str_chars(out, ",\"wake_at\":");
    match &t.wake_at {
        Some(w) => {
            out.push('"');
            crate::timefmt::push_ts(out, *w);
            out.push('"');
            assert(out@ =~= base + (c8 + ",\"wake_at\":"@ + wake_json(t@.wake_at))) by {
                lemma_fmt_ts_plain(t@.wake_at->0);
                lemma_escape_plain(fmt_ts(t@.wake_at->0));
            }
        },
        None => {
            push_str_chars(out, "null");
            assert(out@ =~= base + (c8 + ",\"wake_at\":"@ + wake_json(t@.wake_at))) by {
                reveal_strlit("null");
            }
        },
    }
    let ghost c9 = c8 + ",\"wake_at\":"@ + wake_json(t@.wake_at);
    out.push('}');
    assert(out@ =~= base + (c9 + seq!['}']));
    assert(final(out)@ =~= old(out)@ + task_json(t@)) by {
        reveal(task_json);
    }
}

/// The name of a status holds only plain characters.
proof fn lemma_status_name_plain(st: TaskStatus)
    ensures
        forall|i: int| 0 <= i < status_name(st).len() ==> plain_char(#[trigger] status_name(st)[i]),
{
    reveal_strlit("active");
    reveal_strlit("backlog");
    reveal_strlit("blocked");
    reveal_strlit("sleeping");
    reveal_strlit("completed");
    assert(('a' as u32) == 97 && ('b' as u32) == 98 && ('c' as u32) == 99 && ('d' as u32) == 100
        && ('e' as u32) == 101 && ('g' as u32) == 103 && ('i' as u32) == 105 && ('k' as u32)
        == 107 && ('l' as u32) == 108 && ('m' as u32) == 109 && ('n' as u32) == 110 && ('o'
        as u32) == 111 && ('p' as u32) == 112 && ('s' as u32) == 115 && ('t' as u32) == 116 && ('v'
        as u32) == 118);
}

/// Renders the whole store as its persisted JSON text.
pub fn format_tasks(tasks: &Vec<Task>) -> (r: String)
    requires
        forall|i: int| 0 <= i < tasks.deep_view().len() ==> task_wf(#[trigger] tasks.deep_view()[i]),
    ensures
        r@ == tasks_json(tasks.deep_view()),
{
    let ghost v = tasks.deep_view();
    let mut out: Vec<char> = Vec::new();
    out.push('[');
    if tasks.len() == 0 {
        out.push(']');
        assert(out@ =~= tasks_json(v));
        return crate::trusted::string_from_chars(&out);
    }
    assert(tasks.deep_view()[0] == tasks@[0]@);
    push_task(&mut out, &tasks[0]);
    let mut i: usize = 1;
    assert(out@ =~= seq!['['] + task_json(v[0]) + tasks_rest_json(v.subrange(1, 1))) by {
        assert(v.subrange(1, 1) =~= Seq::<TaskView>::empty());
    }
    while i < tasks.len()
        invariant
            1 <= i <= tasks.len(),
            v == tasks.deep_view(),
            v.len() == tasks.len(),
            forall|k: int| 0 <= k < v.len() ==> task_wf(#[trigger] v[k]),
            out@ == seq!['['] + task_json(v[0]) + tasks_rest_json(v.subrange(1, i as int)),
        decreases tasks.len() - i,
    {
        out.push(',');
        assert(tasks.deep_view()[i as int] == tasks@[i as int]@);
        push_task(&mut out, &tasks[i]);
        proof {
            assert(v.subrange(1, i + 1) =~= v.subrange(1, i as int) + seq![v[i as int]]);
            lemma_tasks_rest_append(v.subrange(1, i as int), seq![v[i as int]]);
            let ghost single = seq![v[i as int]];
            assert(single.len() == 1 && single[0] == v[i as int]);
            assert(single.skip(1) =~= Seq::<TaskView>::empty());
            assert(tasks_rest_json(single) == seq![','] + task_json(single[0])
                + tasks_rest_json(single.skip(1)));
            assert(tasks_rest_json(Seq::<TaskView>::empty()) =~= Seq::<char>::empty());
            assert(tasks_rest_json(single) =~= seq![','] + task_json(v[i as int]));
            assert(out@ =~= seq!['['] + task_json(v[0]) + tasks_rest_json(v.subrange(1, i + 1)));
        }
        i += 1;
    }
    out.push(']');
    proof {
        assert(v.subrange(1, v.len() as int) =~= v.skip(1));
        assert(out@ =~= tasks_json(v));
    }
    crate::trusted::string_from_chars(&out)
}

/// Renders one task object on its own, as handed to the editor.
pub fn format_task(t: &Task) -> (r: String)
    requires
        task_wf(t@),
    ensures
        r@ == task_json(t@),
{
    let mut out: Vec<char> = Vec::new();
    push_task(&mut out, t);
    assert(out@ =~= task_json(t@));
    crate::trusted::string_from_chars(&out)
}

/// Consumes an exact literal at a position, executably.
fn e_lit(v: &Vec<char>, i: usize, lit: &str) -> (r: Option<usize>)
    requires
        i <= v@.len(),
    ensures
        match r {
            Some(j) => i <= j <= v@.len() && p_lit(v@.skip(i as int), lit@) == Some(
                v@.skip(j as int),
            ),
            None => p_lit(v@.skip(i as int), lit@) is None,
        },
{
    let n = lit.unicode_len();
    let vn = v.len();
    if n > vn - i {
        assert(p_lit(v@.skip(i as int), lit@) is None);
        return None;
    }
    let mut k: usize = 0;
    while k < n
        invariant
            0 <= k <= n,
            i + n <= vn,
            vn == v@.len(),
            n == lit@.len(),
            forall|q: int| 0 <= q < k ==> v@.skip(i as int)[q] == lit@[q],
        decreases n - k,
    {
        if !(v[i + k] == lit.get_char(k)) {
            assert(v@.skip(i as int).take(n as int)[k as int] != lit@[k as int]);
            assert(p_lit(v@.skip(i as int), lit@) is None);
            return None;
        }
        assert(v@.skip(i as int)[k as int] == lit@[k as int]);
        k += 1;
    }
    assert(v@.skip(i as int).take(n as int) =~= lit@);
    assert(v@.skip(i as int).skip(n as int) =~= v@.skip(i + n));
    Some(i + n)
}

/// The value of one hexadecimal digit character, executably.
fn hex_value(c: char) -> (h: u64)
    ensures
        h as int == hex_val(c),
{
    let u = c as u32;
    if 48 <= u && u <= 57 {
        (u - 48) as u64
    } else if c == 'a' {
        10
    } else if c == 'b' {
        11
    } else if c == 'c' {
        12
    } else if c == 'd' {
        13
    } else if c == 'e' {
        14
    } else if c == 'f' {
        15
    } else {
        16
    }
}

/// Reads a quoted string at a position, executably.
#[verifier::rlimit(100)]
fn e_string(v: &Vec<char>, i: usize) -> (r: Option<(Vec<char>, usize)>)
    requires
        i <= v@.len(),
    ensures
        match r {
            Some((x, j)) => i <= j <= v@.len() && p_string(v@.skip(i as int)) == Some(
                (x@, v@.skip(j as int)),
            ),
            None => p_string(v@.skip(i as int)) is None,
        },
{
    let n = v.len();
    if i == n || !(v[i] == '"') {
        return None;
    }
    let start = i + 1;
    let mut acc: Vec<char> = Vec::new();
    let mut cur: usize = start;
    assert(v@.skip(i as int).skip(1) =~= v@.skip(start as int));
    loop
        invariant
            start <= cur <= n,
            n == v@.len(),
            i + 1 == start,
            i < n,
            v@[i as int] == '"',
            ({
                let pb = p_str_body(v@.skip(cur as int));
                let p0 = p_str_body(v@.skip(start as int));
                match pb {
                    Some((t, r)) => p0 == Some((acc@ + t, r)),
                    None => p0 is None,
                }
            }),
        decreases n - cur,
    {
        proof {
            assert(v@.skip(i as int).skip(1) =~= v@.skip(start as int));
        }
        let ghost su = v@.skip(cur as int);
        if cur == n {
            assert(su.len() == 0);
            return None;
        }
        assert(su[0] == v@[cur as int]);
        let c = v[cur];
        if c == '"' {
            assert(su.skip(1) =~= v@.skip(cur + 1));
            assert(acc@ + Seq::<char>::empty() =~= acc@);
            assert(v@.skip(i as int)[0] == '"');
            return Some((acc, cur + 1));
        }
        if c == '\\' {
            if n - cur < 2 {
                assert(su.len() < 2);
                return None;
            }
            assert(su[1] == v@[cur + 1]);
            let e = v[cur + 1];
            if e == 'u' {
                if n - cur < 6 {
                    assert(su.len() < 6);
                    return None;
                }
                assert(su[2] == v@[cur + 2] && su[3] == v@[cur + 3] && su[4] == v@[cur + 4]
                    && su[5] == v@[cur + 5]);
                let h2 = hex_value(v[cur + 2]);
                let h3 = hex_value(v[cur + 3]);
                let h4 = hex_value(v[cur + 4]);
                let h5 = hex_value(v[cur + 5]);
                let code: u64 = h2 * 4096 + h3 * 256 + h4 * 16 + h5;
                if !(h2 < 16 && h3 < 16 && h4 < 16 && h5 < 16 && code < 0xD800) {
                    return None;
                }
                let ch = crate::trusted::char_from_u32(code as u32);
                proof {
                    vstd::utf8::char_u32_cast(ch, code as u32);
                }
                let ghost acc_old = acc@;
                acc.push(ch);
                proof {
                    assert(su.skip(6) =~= v@.skip(cur + 6));
                    if p_str_body(v@.skip(cur + 6)) is Some {
                        let (t, r) = p_str_body(v@.skip(cur + 6))->0;
                        assert(acc_old + (seq![ch] + t) =~= acc@ + t);
                    }
                }
                cur = cur + 6;
            } else if e == '"' || e == '\\' || e == 'n' || e == 'r' || e == 't' {
                let dc: char = if e == '"' {
                    '"'
                } else if e == '\\' {
                    '\\'
                } else if e == 'n' {
                    '\n'
                } else if e == 'r' {
                    '\r'
                } else {
                    '\t'
                };
                let ghost acc_old = acc@;
                acc.push(dc);
                proof {
                    assert(su.skip(2) =~= v@.skip(cur + 2));
                    if p_str_body(v@.skip(cur + 2)) is Some {
                        let (t, r) = p_str_body(v@.skip(cur + 2))->0;
                        assert(acc_old + (seq![dc] + t) =~= acc@ + t);
                    }
                }
                cur = cur + 2;
            } else {
                return None;
            }
        } else {
            let ghost acc_old = acc@;
            acc.push(c);
            proof {
                assert(su.skip(1) =~= v@.skip(cur + 1));
                if p_str_body(v@.skip(cur + 1)) is Some {
                    let (t, r) = p_str_body(v@.skip(cur + 1))->0;
                    assert(acc_old + (seq![c] + t) =~= acc@ + t);
                }
            }
            cur = cur + 1;
        }
    }
}

/// Reads a small decimal number at a position, executably.
fn e_u8(v: &Vec<char>, i: usize) -> (r: Option<(u8, usize)>)
    requires
        i <= v@.len(),
    ensures
        match r {
            Some((p, j)) => i <= j <= v@.len() && p_u8(v@.skip(i as int)) == Some(
                (p as int, v@.skip(j as int)),
            ),
            None => p_u8(v@.skip(i as int)) is None,
        },
{
    let ghost su = v@.skip(i as int);
    let n = v.len();
    if i == n {
        return None;
    }
    assert(su[0] == v@[i as int]);
    let d0 = crate::timefmt::char_digit(v[i]);
    if d0 > 9 {
        return None;
    }
    let has1 = i + 1 < n && crate::timefmt::char_digit(v[i + 1]) <= 9;
    proof {
        if i + 1 < n {
            assert(su[1] == v@[i + 1]);
        }
    }
    if !has1 {
        assert(su.skip(1) =~= v@.skip(i + 1));
        return Some((d0 as u8, i + 1));
    }
    let d1 = crate::timefmt::char_digit(v[i + 1]);
    let has2 = i + 2 < n && crate::timefmt::char_digit(v[i + 2]) <= 9;
    proof {
        if i + 2 < n {
            assert(su[2] == v@[i + 2]);
        }
    }
    if !has2 {
        assert(su.skip(2) =~= v@.skip(i + 2));
        return Some(((d0 * 10 + d1) as u8, i + 2));
    }
    let d2 = crate::timefmt::char_digit(v[i + 2]);
    let has3 = i + 3 < n && crate::timefmt::char_digit(v[i + 3]) <= 9;
    proof {
        if i + 3 < n {
            assert(su[3] == v@[i + 3]);
        }
    }
    if has3 {
        return None;
    }
    let val: u64 = d0 * 100 + d1 * 10 + d2;
    if val <= 255 {
        assert(su.skip(3) =~= v@.skip(i + 3));
        Some((val as u8, i + 3))
    } else {
        None
    }
}

/// Do the characters equal the string?
fn chars_eq_str(x: &Vec<char>, lit: &str) -> (b: bool)
    ensures
        b == (x@ == lit@),
{
    let n = lit.unicode_len();
    if x.len() != n {
        return false;
    }
    let mut k: usize = 0;
    while k < n
        invariant
            0 <= k <= n,
            n == lit@.len(),
            n == x@.len(),
            forall|q: int| 0 <= q < k ==> x@[q] == lit@[q],
        decreases n - k,
    {
        if !(x[k] == lit.get_char(k)) {
            return false;
        }
        k += 1;
    }
    assert(x@ =~= lit@);
    true
}

/// Reads a quoted status name at a position, executably.
fn e_status(v: &Vec<char>, i: usize) -> (r: Option<(TaskStatus, usize)>)
    requires
        i <= v@.len(),
    ensures
        match r {
            Some((st, j)) => i <= j <= v@.len() && p_status(v@.skip(i as int)) == Some(
                (st, v@.skip(j as int)),
            ),
            None => p_status(v@.skip(i as int)) is None,
        },
{
    match e_string(v, i) {
        Some((x, j)) => {
            if chars_eq_str(&x, "active") {
                Some((TaskStatus::Active, j))
            } else if chars_eq_str(&x, "backlog") {
                Some((TaskStatus::Backlog, j))
            } else if chars_eq_str(&x, "blocked") {
                Some((TaskStatus::Blocked, j))
            } else if chars_eq_str(&x, "sleeping") {
                Some((TaskStatus::Sleeping, j))
            } else if chars_eq_str(&x, "completed") {
                Some((TaskStatus::Completed, j))
            } else {
                None
            }
        },
        None => None,
    }
}

/// Reads a quoted timestamp at a position, executably.
fn e_ts(v: &Vec<char>, i: usize) -> (r: Option<(Timestamp, usize)>)
    requires
        i <= v@.len(),
    ensures
        match r {
            Some((t, j)) => i <= j <= v@.len() && p_ts(v@.skip(i as int)) == Some(
                (t, v@.skip(j as int)),
            ),
            None => p_ts(v@.skip(i as int)) is None,
        },
{
    match e_string(v, i) {
        Some((x, j)) => match crate::timefmt::parse_ts_exec(&x) {
            Some(t) => Some((t, j)),
            None => None,
        },
        None => None,
    }
}

/// Reads a dependency array at a position, executably.
#[verifier::rlimit(100)]
fn e_blocked(v: &Vec<char>, i: usize) -> (r: Option<(Vec<String>, usize)>)
    requires
        i <= v@.len(),
    ensures
        match r {
            Some((bb, j)) => i <= j <= v@.len() && p_blocked(v@.skip(i as int)) == Some(
                (bb.deep_view(), v@.skip(j as int)),
            ),
            None => p_blocked(v@.skip(i as int)) is None,
        },
{
    let n = v.len();
    if i == n || !(v[i] == '[') {
        return None;
    }
    assert(v@.skip(i as int)[0] == '[');
    if i + 1 < n && v[i + 1] == ']' {
        assert(v@.skip(i as int)[1] == ']');
        assert(v@.skip(i as int).skip(2) =~= v@.skip(i + 2));
        let bb: Vec<String> = Vec::new();
        assert(bb.deep_view() =~= Seq::<Seq<char>>::empty());
        return Some((bb, i + 2));
    }
    assert(i + 1 < n ==> v@.skip(i as int)[1] == v@[i + 1]);
    assert(v@.skip(i as int).skip(1) =~= v@.skip(i + 1));
    if i + 1 > n {
        assert(false);
    }
    let first = match e_string(v, i + 1) {
        Some(p) => p,
        None => {
            return None;
        },
    };
    assert(i + 1 < n) by {
        if i + 1 == n {
            assert(v@.skip(i + 1).len() == 0);
        }
    }
    let (x0, mut cur) = first;
    let mut bb: Vec<String> = Vec::new();
    bb.push(crate::trusted::string_from_chars(&x0));
    assert(bb.deep_view() =~= seq![x0@]);
    let ghost r_first = v@.skip(cur as int);
    assert(v@.skip(i as int)[1] == v@[i + 1]);
    assert(v@[i + 1] == '"');
    loop
        invariant
            0 < cur <= n,
            i < cur,
            i + 1 < n,
            n == v@.len(),
            v@[i as int] == '[',
            v@[i + 1] == '"',
            v@.skip(i as int)[0] == '[',
            v@.skip(i as int)[1] == '"',
            p_string(v@.skip(i + 1)) == Some((x0@, r_first)),
            bb.deep_view().len() >= 1,
            ({
                let pr = p_blocked_rest(v@.skip(cur as int));
                let p0 = p_blocked_rest(r_first);
                match pr {
                    Some((xs, r2)) => p0 == Some(
                        (bb.deep_view().skip(1) + xs, r2),
                    ),
                    None => p0 is None,
                }
            }),
            bb.deep_view()[0] == x0@,
        decreases n - cur,
    {
        proof {
            assert(v@.skip(i as int).skip(1) =~= v@.skip(i + 1));
        }
        let ghost su = v@.skip(cur as int);
        if cur == n {
            assert(su.len() == 0);
            return None;
        }
        assert(su[0] == v@[cur as int]);
        if v[cur] == ']' {
            assert(su.skip(1) =~= v@.skip(cur + 1));
            assert(bb.deep_view().skip(1) + Seq::<Seq<char>>::empty() =~= bb.deep_view().skip(1));
            assert(seq![x0@] + bb.deep_view().skip(1) =~= bb.deep_view());
            proof {
                assert(('"' as u32) == 34 && (']' as u32) == 93);
                assert(p_blocked_rest(r_first) == Some(
                    (bb.deep_view().skip(1), v@.skip(cur + 1)),
                ));
                assert(p_blocked(v@.skip(i as int)) == Some((bb.deep_view(), v@.skip(cur + 1))));
            }
            return Some((bb, cur + 1));
        }
        if !(v[cur] == ',') {
            return None;
        }
        assert(su.skip(1) =~= v@.skip(cur + 1));
        match e_string(v, cur + 1) {
            Some((x, j)) => {
                let ghost bb_old = bb.deep_view();
                bb.push(crate::trusted::string_from_chars(&x));
                proof {
                    assert(bb.deep_view() =~= bb_old.push(x@));
                    if p_blocked_rest(v@.skip(j as int)) is Some {
                        let (xs, r2) = p_blocked_rest(v@.skip(j as int))->0;
                        assert(bb_old.skip(1) + (seq![x@] + xs) =~= bb.deep_view().skip(1) + xs);
                    }
                    lemma_p_string_shrinks(su.skip(1));
                }
                cur = j;
            },
            None => {
                return None;
            },
        }
    }
}

/// Reads a wake time at a position, executably.
fn e_wake(v: &Vec<char>, i: usize) -> (r: Option<(Option<Timestamp>, usize)>)
    requires
        i <= v@.len(),
    ensures
        match r {
            Some((w, j)) => i <= j <= v@.len() && p_wake(v@.skip(i as int)) == Some(
                (w, v@.skip(j as int)),
            ),
            None => p_wake(v@.skip(i as int)) is None,
        },
{
    let ghost su = v@.skip(i as int);
    let is_null = v.len() - i >= 4 && v[i] == 'n' && v[i + 1] == 'u' && v[i + 2] == 'l' && v[i + 3]
        == 'l';
    proof {
        if i + 4 <= v@.len() {
            assert(su[0] == v@[i as int] && su[1] == v@[i + 1] && su[2] == v@[i + 2] && su[3]
                == v@[i + 3]);
            if v@[i as int] == 'n' && v@[i + 1] == 'u' && v@[i + 2] == 'l' && v@[i + 3] == 'l' {
                assert(su.take(4) =~= seq!['n', 'u', 'l', 'l']);
            } else {
                assert(su.take(4) != seq!['n', 'u', 'l', 'l']) by {
                    assert(su.take(4)[0] == su[0] && su.take(4)[1] == su[1] && su.take(4)[2]
                        == su[2] && su.take(4)[3] == su[3]);
                }
            }
        }
    }
    if is_null {
        assert(su.skip(4) =~= v@.skip(i + 4));
        return Some((None, i + 4));
    }
    proof {
        if su.len() >= 4 {
            assert(su.take(4) != seq!['n', 'u', 'l', 'l']);
        }
    }
    match e_ts(v, i) {
        Some((t, j)) => Some((Some(t), j)),
        None => None,
    }
}

/// Reads one task object at a position, executably.
#[verifier::rlimit(100)]
fn e_task(v: &Vec<char>, i: usize) -> (r: Option<(Task, usize)>)
    requires
        i <= v@.len(),
    ensures
        match r {
            Some((t, j)) => i <= j <= v@.len() && p_task(v@.skip(i as int)) == Some(
                (t@, v@.skip(j as int)),
            ) && task_wf(t@),
            None => p_task(v@.skip(i as int)) is None,
        },
{
    let s1 = match e_lit(v, i, "{\"id\":") {
        Some(j) => j,
        None => {
            return None;
        },
    };
    let (id, s2) = match e_string(v, s1) {
        Some(p) => p,
        None => {
            return None;
        },
    };
    let s3 = match e_lit(v, s2, ",\"summary\":") {
        Some(j) => j,
        None => {
            return None;
        },
    };
    let (summary, s4) = match e_string(v, s3) {
        Some(p) => p,
        None => {
            return None;
        },
    };
    let s5 = match e_lit(v, s4, ",\"details\":") {
        Some(j) => j,
        None => {
            return None;
        },
    };
    let (details, s6) = match e_string(v, s5) {
        Some(p) => p,
        None => {
            return None;
        },
    };
    assert(p_task_a(v@.skip(i as int)) == Some(((id@, summary@, details@), v@.skip(s6 as int))));
    let s7 = match e_lit(v, s6, ",\"priority\":") {
        Some(j) => j,
        None => {
            assert(p_task_b(v@.skip(s6 as int)) is None);
            return None;
        },
    };
    let (priority, s8) = match e_u8(v, s7) {
        Some(p) => p,
        None => {
            assert(p_task_b(v@.skip(s6 as int)) is None);
            return None;
        },
    };
    let s9 = match e_lit(v, s8, ",\"category\":") {
        Some(j) => j,
        None => {
            assert(p_task_b(v@.skip(s6 as int)) is None);
            return None;
        },
    };
    let (category, s10) = match e_string(v, s9) {
        Some(p) => p,
        None => {
            assert(p_task_b(v@.skip(s6 as int)) is None);
            return None;
        },
    };
    let s11 = match e_lit(v, s10, ",\"created_at\":") {
        Some(j) => j,
        None => {
            assert(p_task_b(v@.skip(s6 as int)) is None);
            return None;
        },
    };
    let (created_at, s12) = match e_ts(v, s11) {
        Some(p) => p,
        None => {
            assert(p_task_b(v@.skip(s6 as int)) is None);
            return None;
        },
    };
    assert(p_task_b(v@.skip(s6 as int)) == Some(
        ((priority as int, category@, created_at), v@.skip(s12 as int)),
    ));
    let s13 = match e_lit(v, s12, ",\"status\":") {
        Some(j) => j,
        None => {
            assert(p_task_c(v@.skip(s12 as int)) is None);
            return None;
        },
    };
    let (status, s14) = match e_status(v, s13) {
        Some(p) => p,
        None => {
            assert(p_task_c(v@.skip(s12 as int)) is None);
            return None;
        },
    };
    let s15 = match e_lit(v, s14, ",\"blocked_by\":") {
        Some(j) => j,
        None => {
            assert(p_task_c(v@.skip(s12 as int)) is None);
            return None;
        },
    };
    let (bb, s16) = match e_blocked(v, s15) {
        Some(p) => p,
        None => {
            assert(p_task_c(v@.skip(s12 as int)) is None);
            return None;
        },
    };
    let s17 = match e_lit(v, s16, ",\"wake_at\":") {
        Some(j) => j,
        None => {
            assert(p_task_c(v@.skip(s12 as int)) is None);
            return None;
        },
    };
    let (wake, s18) = match e_wake(v, s17) {
        Some(p) => p,
        None => {
            assert(p_task_c(v@.skip(s12 as int)) is None);
            return None;
        },
    };
    let s19 = match e_lit(v, s18, "}") {
        Some(j) => j,
        None => {
            assert(seq!['}'] =~= "}"@) by {
                reveal_strlit("}");
            }
            assert(p_task_c(v@.skip(s12 as int)) is None);
            return None;
        },
    };
    assert(seq!['}'] =~= "}"@) by {
        reveal_strlit("}");
    }
    assert(p_task_c(v@.skip(s12 as int)) == Some(
        ((status, bb.deep_view(), wake), v@.skip(s19 as int)),
    ));
    let t = Task {
        id: crate::trusted::string_from_chars(&id),
        summary: crate::trusted::string_from_chars(&summary),
        details: crate::trusted::string_from_chars(&details),
        priority,
        category: crate::trusted::string_from_chars(&category),
        created_at,
        status,
        blocked_by: bb,
        wake_at: wake,
    };
    if crate::tasklist::task_wf_exec(&t) {
        assert(t@ =~= (TaskView {
            id: id@,
            summary: summary@,
            details: details@,
            priority: priority as int,
            category: category@,
            created_at,
            status,
            blocked_by: bb.deep_view(),
            wake_at: wake,
        }));
        assert(distinct_seq(bb.deep_view()));
        Some((t, s19))
    } else {
        assert(!distinct_seq(bb.deep_view()));
        None
    }
}

/// Reads the persisted text of a whole store: the tasks of the JSON
/// array, or nothing when the text is not exactly such an array. Every
/// task returned is well-formed.
#[verifier::rlimit(100)]
pub fn parse_tasks(s: &str) -> (r: Option<Vec<Task>>)
    ensures
        match r {
            Some(ts) => spec_parse_tasks(s@) == Some(ts.deep_view()) && (forall|i: int|
                0 <= i < ts.deep_view().len() ==> task_wf(#[trigger] ts.deep_view()[i])),
            None => spec_parse_tasks(s@) is None,
        },
{
    let v = crate::trusted::chars_of(s);
    let n = v.len();
    if n == 0 || !(v[0] == '[') {
        return None;
    }
    if n >= 2 && v[1] == ']' {
        if n == 2 {
            let ts: Vec<Task> = Vec::new();
            assert(ts.deep_view() =~= Seq::<TaskView>::empty());
            return Some(ts);
        } else {
            return None;
        }
    }
    assert(v@.skip(1) =~= s@.skip(1));
    let (t0, r0) = match e_task(&v, 1) {
        Some(p) => p,
        None => {
            return None;
        },
    };
    let mut ts: Vec<Task> = Vec::new();
    let ghost first_rest = v@.skip(r0 as int);
    ts.push(t0);
    let mut cur = r0;
    assert(ts.deep_view() =~= seq![t0@]);
    loop
        invariant
            0 < cur <= n,
            n == v@.len(),
            v@ == s@,
            v@[0] == '[',
            n >= 2,
            !(v@[1] == ']'),
            p_task(v@.skip(1)) == Some((t0@, first_rest)),
            ts.deep_view().len() >= 1,
            ts.deep_view()[0] == t0@,
            forall|k: int| 0 <= k < ts.deep_view().len() ==> task_wf(#[trigger] ts.deep_view()[k]),
            ({
                let pr = p_tasks_rest(v@.skip(cur as int));
                let p0 = p_tasks_rest(first_rest);
                match pr {
                    Some((xs, r2)) => p0 == Some((ts.deep_view().skip(1) + xs, r2)),
                    None => p0 is None,
                }
            }),
        decreases n - cur,
    {
        let ghost su = v@.skip(cur as int);
        if cur == n {
            assert(su.len() == 0);
            return None;
        }
        assert(su[0] == v@[cur as int]);
        if v[cur] == ']' {
            if cur + 1 == n {
                assert(su.skip(1) =~= v@.skip(cur + 1));
                assert(v@.skip(cur + 1).len() == 0);
                assert(ts.deep_view().skip(1) + Seq::<TaskView>::empty() =~= ts.deep_view().skip(
                    1,
                ));
                assert(seq![t0@] + ts.deep_view().skip(1) =~= ts.deep_view());
                assert(spec_parse_tasks(s@) == Some(ts.deep_view()));
                return Some(ts);
            } else {
                assert(su.skip(1) =~= v@.skip(cur + 1));
                assert(v@.skip(cur + 1).len() > 0);
                return None;
            }
        }
        if !(v[cur] == ',') {
            return None;
        }
        assert(su.skip(1) =~= v@.skip(cur + 1));
        match e_task(&v, cur + 1) {
            Some((t, j)) => {
                let ghost ts_old = ts.deep_view();
                ts.push(t);
                proof {
                    assert(ts.deep_view() =~= ts_old.push(t@));
                    if p_tasks_rest(v@.skip(j as int)) is Some {
                        let (xs, r2) = p_tasks_rest(v@.skip(j as int))->0;
                        assert(ts_old.skip(1) + (seq![t@] + xs) =~= ts.deep_view().skip(1) + xs);
                    }
                    lemma_p_task_shrinks(su.skip(1));
                }
                cur = j;
            },
            None => {
                return None;
            },
        }
    }
}

/// Reads the text of one task object on its own, as handed back by the
/// editor; the task must be the whole text.
pub open spec fn spec_parse_task(s: Seq<char>) -> Option<TaskView> {
    match p_task(s) {
        Some((t, r)) => {
            if r.len() == 0 {
                Some(t)
            } else {
                None
            }
        },
        None => None,
    }
}

/// A blank character that may stand between the tokens of an edited
/// task object.
pub open spec fn ws_char(c: char) -> bool {
    c == ' ' || c == '\t' || c == '\n' || c == '\r'
}

/// The text with every blank character outside string literals removed;
/// string contents, escapes first of all, are kept exactly.
pub open spec fn strip_ws(s: Seq<char>, in_str: bool) -> Seq<char>
    decreases s.len(),
{
    if s.len() == 0 {
        Seq::empty()
    } else if in_str {
        if s[0] == '\\' && s.len() >= 2 {
            seq![s[0], s[1]] + strip_ws(s.skip(2), true)
        } else if s[0] == '"' {
            seq!['"'] + strip_ws(s.skip(1), false)
        } else {
            seq![s[0]] + strip_ws(s.skip(1), true)
        }
    } else {
        if ws_char(s[0]) {
            strip_ws(s.skip(1), false)
        } else if s[0] == '"' {
            seq!['"'] + strip_ws(s.skip(1), true)
        } else {
            seq![s[0]] + strip_ws(s.skip(1), false)
        }
    }
}

/// Removes the blank characters outside string literals, executably.
#[verifier::rlimit(100)]
fn strip_ws_exec(v: &Vec<char>) -> (r: Vec<char>)
    ensures
        r@ == strip_ws(v@, false),
{
    let n = v.len();
    let mut out: Vec<char> = Vec::new();
    let mut cur: usize = 0;
    let mut in_str = false;
    proof {
        assert(v@.skip(0) =~= v@);
        assert(out@ + strip_ws(v@, false) =~= strip_ws(v@, false));
    }
    loop
        invariant_except_break
            0 <= cur <= n,
            n == v@.len(),
            strip_ws(v@, false) == out@ + strip_ws(v@.skip(cur as int), in_str),
        ensures
            out@ == strip_ws(v@, false),
        decreases n - cur,
    {
        let ghost su = v@.skip(cur as int);
        if cur == n {
            assert(su.len() == 0);
            assert(out@ + Seq::<char>::empty() =~= out@);
            break;
        }
        assert(su[0] == v@[cur as int]);
        let c = v[cur];
        let ghost pre = out@;
        if in_str {
            if c == '\\' && cur + 1 < n {
                assert(su[1] == v@[cur + 1]);
                out.push(c);
                out.push(v[cur + 1]);
                proof {
                    assert(su.skip(2) =~= v@.skip(cur + 2));
                    assert(pre + (seq![su[0], su[1]] + strip_ws(v@.skip(cur + 2), true)) =~= out@
                        + strip_ws(v@.skip(cur + 2), true));
                }
                cur = cur + 2;
            } else if c == '\\' {
                // A lone trailing backslash: the text ends inside an
                // escape; keep the character and stop.
                assert(su.len() == 1);
                out.push(c);
                proof {
                    assert(su.skip(1) =~= v@.skip(cur + 1));
                    assert(pre + (seq![su[0]] + strip_ws(v@.skip(cur + 1), true)) =~= out@
                        + strip_ws(v@.skip(cur + 1), true));
                }
                cur = cur + 1;
            } else if c == '"' {
                out.push(c);
                proof {
                    assert(su.skip(1) =~= v@.skip(cur + 1));
                    assert(pre + (seq!['"'] + strip_ws(v@.skip(cur + 1), false)) =~= out@
                        + strip_ws(v@.skip(cur + 1), false));
                }
                in_str = false;
                cur = cur + 1;
            } else {
                out.push(c);
                proof {
                    assert(su.skip(1) =~= v@.skip(cur + 1));
                    assert(pre + (seq![su[0]] + strip_ws(v@.skip(cur + 1), true)) =~= out@
                        + strip_ws(v@.skip(cur + 1), true));
                }
                cur = cur + 1;
            }
        } else {
            if c == ' ' || c == '\t' || c == '\n' || c == '\r' {
                proof {
                    assert(su.skip(1) =~= v@.skip(cur + 1));
                }
                cur = cur + 1;
            } else if c == '"' {
                out.push(c);
                proof {
                    assert(su.skip(1) =~= v@.skip(cur + 1));
                    assert(pre + (seq!['"'] + strip_ws(v@.skip(cur + 1), true)) =~= out@
                        + strip_ws(v@.skip(cur + 1), true));
                }
                in_str = true;
                cur = cur + 1;
            } else {
                out.push(c);
                proof {
                    assert(su.skip(1) =~= v@.skip(cur + 1));
                    assert(pre + (seq![su[0]] + strip_ws(v@.skip(cur + 1), false)) =~= out@
                        + strip_ws(v@.skip(cur + 1), false));
                }
                cur = cur + 1;
            }
        }
    }
    out
}

/// Reads the text of one task object on its own, executably. Blank
/// characters between tokens — an editor's reformatting — are ignored;
/// string contents are taken exactly.
pub fn parse_task_str(s: &str) -> (r: Option<Task>)
    ensures
        match r {
            Some(t) => spec_parse_task(strip_ws(s@, false)) == Some(t@) && task_wf(t@),
            None => spec_parse_task(strip_ws(s@, false)) is None,
        },
{
    let v = crate::trusted::chars_of(s);
    let w = strip_ws_exec(&v);
    assert(w@.skip(0) =~= strip_ws(s@, false));
    match e_task(&w, 0) {
        Some((t, j)) => {
            if j == w.len() {
                assert(w@.skip(j as int).len() == 0);
                Some(t)
            } else {
                assert(w@.skip(j as int).len() > 0);
                None
            }
        },
        None => None,
    }
}

/// Reading a rendered single task gives it back.
pub proof fn lemma_task_text_round_trip(t: TaskView)
    requires
        task_wf(t),
    ensures
        spec_parse_task(task_json(t)) == Some(t),
{
    lemma_task_rt(t, Seq::<char>::empty());
    assert(task_json(t) + Seq::<char>::empty() =~= task_json(t));
}

} // verus!
