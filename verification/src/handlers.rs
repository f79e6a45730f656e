//! Command handlers for the storage node.
//!
//! Each request variant has a handler; the node itself dispatches on the
//! variant. [`spec_process`] is the transition the node makes for one
//! request: the new store contents and the reply.

pub mod add_batch_handler;
pub mod add_handler;
pub mod check_handler;
pub mod drop_batch_handler;
pub mod get_batch_handler;

use vstd::prelude::*;
use crate::consistent_hash::{has_token, lemma_sorted_insert, sorted_insert, token_of, tokens_sorted};
use crate::error::AppResult;
use crate::numerals::spec_decimal;
use crate::protocol::types::{ReqV, Request, RespV, Response};
use crate::storage::{
    lemma_drop_batch_has_token, spec_add_batch, spec_drop_batch, spec_get_batch,
    token_in_ranges,
};

verus! {

/// A trait for handling one kind of request.
pub trait Handler {
    /// Processes a request and produces the reply to send back.
    fn handle(&mut self, request: Request) -> AppResult<Response>;
}

/// The reply to `Add`: "Added {value}, there are currently {count}".
pub open spec fn add_message(v: Seq<char>, count: nat) -> Seq<char> {
    "Added "@ + v + ", there are currently "@ + spec_decimal(count)
}

/// The reply to a missing `Check`: "Value: {value} doesn't exist".
pub open spec fn check_miss_message(v: Seq<char>) -> Seq<char> {
    "Value: "@ + v + " doesn't exist"@
}

/// The reply to `AddBatch`: "Inserted batch of {count}".
pub open spec fn add_batch_message(count: nat) -> Seq<char> {
    "Inserted batch of "@ + spec_decimal(count)
}

/// The reply to `DropBatch`: "Removed: {count}".
pub open spec fn drop_batch_message(count: nat) -> Seq<char> {
    "Removed: "@ + spec_decimal(count)
}

/// The reply of a handler handed a request of the wrong kind.
pub open spec fn wrong_handler_message() -> Seq<char> {
    "Wrong handler!"@
}

/// What one request does to a node's store, and what the node replies:
/// the request/response transition of the per-connection state machine.
pub open spec fn spec_process(s: Seq<(u64, Seq<char>)>, req: ReqV) -> (
    Seq<(u64, Seq<char>)>,
    RespV,
) {
    match req {
        ReqV::Add(v) => {
            let s2 = sorted_insert(s, token_of(v), v);
            (s2, RespV::String(add_message(v, s2.len())))
        },
        ReqV::Check(v) => (
            s,
            if has_token(s, token_of(v)) {
                RespV::Bool(true)
            } else {
                RespV::String(check_miss_message(v))
            },
        ),
        ReqV::AddBatch(items) => (
            spec_add_batch(s, items),
            RespV::String(add_batch_message(items.len())),
        ),
        ReqV::GetBatch(rs) => (s, RespV::Array(spec_get_batch(s, rs))),
        ReqV::DropBatch(rs) => (
            spec_drop_batch(s, rs),
            RespV::String(
                drop_batch_message((s.len() - spec_drop_batch(s, rs).len()) as nat),
            ),
        ),
    }
}

/// Add/Check law. After `Add(v)` replies, a `Check(v)` on the same node
/// replies `Bool(true)`. Conversely, while the value's token is absent —
/// before any `Add(v)`, or after a `DropBatch` whose ranges cover it —
/// `Check(v)` replies a `String` message.
pub proof fn lemma_add_then_check(
    s: Seq<(u64, Seq<char>)>,
    v: Seq<char>,
    ranges: Seq<crate::consistent_hash_ring::Range>,
)
    requires
        tokens_sorted(s),
    ensures
        spec_process(spec_process(s, ReqV::Add(v)).0, ReqV::Check(v)).1 == RespV::Bool(true),
        !has_token(s, token_of(v)) ==> spec_process(s, ReqV::Check(v)).1 == RespV::String(
            check_miss_message(v),
        ),
        token_in_ranges(token_of(v), ranges) ==> spec_process(
            spec_process(s, ReqV::DropBatch(ranges)).0,
            ReqV::Check(v),
        ).1 == RespV::String(check_miss_message(v)),
{
    lemma_sorted_insert(s, token_of(v), v);
    lemma_drop_batch_has_token(s, ranges, token_of(v));
}

/// Count monotonicity under Add. Two successive adds of values with
/// distinct hashes, neither hash stored yet, raise the count by two; a
/// second add under the same hash overwrites and keeps the count of the
/// first.
pub proof fn lemma_count_under_add(s: Seq<(u64, Seq<char>)>, v1: Seq<char>, v2: Seq<char>)
    requires
        tokens_sorted(s),
    ensures
        token_of(v1) != token_of(v2) && !has_token(s, token_of(v1)) && !has_token(
            s,
            token_of(v2),
        ) ==> spec_process(spec_process(s, ReqV::Add(v1)).0, ReqV::Add(v2)).0.len() == s.len()
            + 2,
        token_of(v1) == token_of(v2) ==> spec_process(
            spec_process(s, ReqV::Add(v1)).0,
            ReqV::Add(v2),
        ).0.len() == spec_process(s, ReqV::Add(v1)).0.len(),
{
    lemma_sorted_insert(s, token_of(v1), v1);
    let s1 = sorted_insert(s, token_of(v1), v1);
    lemma_sorted_insert(s1, token_of(v2), v2);
}

} // verus!
