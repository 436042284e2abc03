//! The narrow band of outside calls the library relies on: the system
//! clock, random id generation, Unicode lowercasing, and turning a vector
//! of characters into a `String`. Each item carries the contract the
//! verified code builds on.

use vstd::prelude::*;

verus! {

/// Relies on `chrono::Local::now`, `DateTime::timestamp` and
/// `FixedOffset::local_minus_utc`: the current instant as seconds since
/// the Unix epoch, and the local UTC offset in seconds. Nothing can be
/// promised about the clock reading itself; `chrono` keeps every fixed
/// offset strictly below one day in magnitude.
#[verifier::external_body]
pub(crate) fn now_parts() -> (r: (i64, i32))
    ensures
        -86399 <= r.1 <= 86399,
{
    let now = chrono::Local::now();
    (now.timestamp(), now.offset().local_minus_utc())
}

/// A character that can appear in a generated task id: a lowercase
/// hexadecimal digit.
pub open spec fn is_lower_hex(c: char) -> bool {
    (48 <= c as u32 <= 57) || (97 <= c as u32 <= 102)
}

/// Relies on `uuid::Uuid::new_v4` and its `Simple` formatter: a random
/// 128-bit value rendered as exactly 32 lowercase hexadecimal digits.
/// The value is random, so no two calls are related.
#[verifier::external_body]
pub(crate) fn fresh_task_id() -> (r: String)
    ensures
        r@.len() == 32,
        forall|i: int| 0 <= i < r@.len() ==> is_lower_hex(#[trigger] r@[i]),
{
    uuid::Uuid::new_v4().simple().to_string()
}

/// Relies on `String: FromIterator<char>` (`Iterator::collect`): the
/// string made of exactly the given characters in order.
#[verifier::external_body]
pub(crate) fn string_from_chars(v: &Vec<char>) -> (r: String)
    ensures
        r@ == v@,
{
    v.iter().collect()
}

/// Relies on `str::chars` (`Iterator::collect`): the characters of the
/// string, in order.
#[verifier::external_body]
pub(crate) fn chars_of(s: &str) -> (r: Vec<char>)
    ensures
        r@ == s@,
{
    s.chars().collect()
}

/// Relies on `char::from_u32`: every value below the surrogate range is
/// a Unicode scalar, so the call returns the character of exactly that
/// scalar value.
#[verifier::external_body]
pub(crate) fn char_from_u32(u: u32) -> (c: char)
    requires
        u < 0xD800,
    ensures
        c as u32 == u,
{
    match char::from_u32(u) {
        Some(c) => c,
        None => ' ',
    }
}

/// What `str::to_lowercase` returns: a function of the characters alone.
pub uninterp spec fn lower_of(s: Seq<char>) -> Seq<char>;

/// Relies on `str::to_lowercase`: the Unicode-lowercased text, a function
/// of the characters alone; an empty input stays empty.
#[verifier::external_body]
pub(crate) fn lowercase(s: &str) -> (r: String)
    ensures
        r@ == lower_of(s@),
        s@.len() == 0 ==> r@.len() == 0,
{
    s.to_lowercase()
}

} // verus!
