//! Replies of the API: a status and a JSON body.

use vstd::prelude::*;

use crate::json::{Json, JsonView};
use crate::text;

verus! {

/// What the API answers.
pub struct Reply {
    pub status: u16,
    pub body: Json,
}

/// What a `Reply` says.
#[verifier::ext_equal]
pub struct ReplyView {
    pub status: u16,
    pub body: JsonView,
}

impl View for Reply {
    type V = ReplyView;

    open spec fn view(&self) -> ReplyView {
        ReplyView { status: self.status, body: self.body@ }
    }
}

pub const OK: u16 = 200;

pub const BAD_REQUEST: u16 = 400;

pub const NOT_FOUND: u16 = 404;

pub const INTERNAL_SERVER_ERROR: u16 = 500;

/// An object of one member.
pub open spec fn only_member(name: Seq<char>, value: JsonView) -> JsonView {
    JsonView::Object(seq![(name, value)])
}

/// A reply that says what went wrong.
pub open spec fn failure(status: u16, error: Seq<char>) -> ReplyView {
    ReplyView { status, body: only_member("error"@, JsonView::Text(error)) }
}

/// Make an object of one member.
pub fn single_member(name: &str, value: Json) -> (r: Json)
    ensures
        r@ == only_member(name@, value@),
{
    let ghost v = value@;
    let mut members: Vec<(String, Json)> = Vec::new();
    members.push((text::owned(name), value));
    let r = Json::Object(members);
    assert(r@->Object_0 =~= seq![(name@, v)]);
    r
}

/// Say what went wrong.
pub fn fail(status: u16, error: &str) -> (r: Reply)
    ensures
        r@ == failure(status, error@),
{
    Reply { status, body: single_member("error", Json::Text(text::owned(error))) }
}

/// The rows that a query may return: at least one, a thousand at most.
pub open spec fn clamped(limit: int) -> int {
    if limit < 1 {
        1
    } else if limit > 1000 {
        1000
    } else {
        limit
    }
}

/// The rows that a query that names no limit may return.
pub const DEFAULT_LIMIT: i64 = 100;

/// Keep a query's limit within bounds.
pub fn clamp_limit(limit: i64) -> (r: i64)
    ensures
        r == clamped(limit as int),
{
    if limit < 1 {
        1
    } else if limit > 1000 {
        1000
    } else {
        limit
    }
}

/// Lists are limited to between one and a thousand rows; a limit within that is
/// kept.
pub proof fn law_limits_are_kept(limit: int)
    ensures
        1 <= limit <= 1000 ==> clamped(limit) == limit,
        limit < 1 ==> clamped(limit) == 1,
        limit > 1000 ==> clamped(limit) == 1000,
{
}

/// A failure tells its error.
pub proof fn law_failures_tell_the_error(status: u16, error: Seq<char>)
    ensures
        failure(status, error).status == status,
        failure(status, error).body == JsonView::Object(seq![("error"@, JsonView::Text(error))]),
{
}

} // verus!
