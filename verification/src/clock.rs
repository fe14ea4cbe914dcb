//! Identifiers and time, which come from outside the library.

use vstd::prelude::*;

verus! {

/// Calls `uuid::Uuid::new_v4` and hands out the value of the UUID as a
/// 128-bit integer (`Uuid::as_u128`). The identifier is random: nothing is
/// claimed of it, and two calls may return anything.
#[verifier::external_body]
pub(crate) fn fresh_id() -> u128 {
    uuid::Uuid::new_v4().as_u128()
}

/// Calls `chrono::Utc::now` and hands out the instant as microseconds since
/// the Unix epoch (`DateTime::timestamp_micros`). Nothing is claimed of the
/// value. The call does not return on a machine whose clock stands before
/// 1970.
#[verifier::external_body]
pub(crate) fn now_micros() -> i64 {
    chrono::Utc::now().timestamp_micros()
}

/// The bound of what `DateTime::timestamp` returns, in seconds.
pub const SECONDS_BOUND: i64 = 0x1_0000_0000_0000;

/// Calls `chrono::Utc::now` and hands out the instant as whole seconds
/// since the Unix epoch (`DateTime::timestamp`). Of the value only its
/// size is claimed: `timestamp` makes it of a count of days that is an
/// `i32`, less 719,163, times 86,400, plus a second of the day that is a
/// `u32`, so it lies within `SECONDS_BOUND` of zero. The call does not
/// return on a machine whose clock stands before 1970.
#[verifier::external_body]
pub(crate) fn now_seconds() -> (r: i64)
    ensures
        -SECONDS_BOUND <= r <= SECONDS_BOUND,
{
    chrono::Utc::now().timestamp()
}

/// What `Uuid`'s `Display` writes for the UUID with this value.
pub uninterp spec fn uuid_text(id: u128) -> Seq<char>;

/// Calls `uuid::Uuid::from_u128` and then `to_string` on the UUID. The
/// text is a function of the value alone; it is known here only by its
/// name, `uuid_text`.
#[verifier::external_body]
pub(crate) fn text_of_uuid(id: u128) -> (r: String)
    ensures
        r@ == uuid_text(id),
{
    uuid::Uuid::from_u128(id).to_string()
}

/// What `Uuid::parse_str` makes of a text: the value of the UUID that it
/// reads, or `None` where it reads none.
pub uninterp spec fn uuid_parsed(text: Seq<char>) -> Option<u128>;

/// Calls `uuid::Uuid::parse_str` and hands out the value of the UUID
/// (`Uuid::as_u128`), or `None` where the call fails. The outcome is a
/// function of the text alone; it is known here only by its name,
/// `uuid_parsed`.
#[verifier::external_body]
pub(crate) fn parse_uuid(text: &str) -> (r: Option<u128>)
    ensures
        r == uuid_parsed(text@),
{
    match uuid::Uuid::parse_str(text) {
        Ok(id) => Some(id.as_u128()),
        Err(_) => None,
    }
}

} // verus!
