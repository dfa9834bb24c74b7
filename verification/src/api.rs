//! Decision rules of the aggregator's HTTP surface.
//!
//! The network plumbing outside this crate reduces a request to plain facts —
//! which method, which content type, whether the body decoded — and these
//! functions decide what the aggregator answers and how an accepted report
//! reaches the store.

use vstd::prelude::*;

use crate::state::{spec_set, spec_update, State};
use crate::types::{item_views, FromWatcher};

verus! {

/// Dispatch a decoded watcher report into the store, stamped `now`: a first
/// report replaces the source's record with the report's added items, any
/// other report is applied as a diff.
pub fn apply_message(state: &mut State, msg: FromWatcher, now_ms: u64)
    requires
        old(state).wf(),
    ensures
        final(state).wf(),
        msg.first ==> final(state)@ == spec_set(
            old(state)@,
            msg.id@,
            item_views(msg.diff.added@),
            now_ms,
        ),
        !msg.first ==> final(state)@ == spec_update(
            old(state)@,
            msg.id@,
            item_views(msg.diff.added@),
            item_views(msg.diff.removed@),
            now_ms,
        ),
{
    if msg.first {
        state.set(msg.id, msg.diff.added, now_ms);
    } else {
        state.update(msg.id, msg.diff, now_ms);
    }
}

/// The intake endpoint's precheck: anything but a POST is turned away with
/// 405, a POST without a JSON content type with 415; otherwise the body may
/// be read.
pub fn intake_precheck(is_post: bool, is_json: bool) -> (r: Option<u16>)
    ensures
        r == (if !is_post {
            Some(405u16)
        } else if !is_json {
            Some(415u16)
        } else {
            None::<u16>
        }),
{
    if !is_post {
        Some(405)
    } else if !is_json {
        Some(415)
    } else {
        None
    }
}

/// The intake endpoint's verdict on a body: malformed JSON is rejected with
/// 400, a decoded report is acknowledged with 200.
pub fn intake_body_status(decode_ok: bool) -> (s: u16)
    ensures
        s == (if decode_ok {
            200u16
        } else {
            400u16
        }),
{
    if decode_ok {
        200
    } else {
        400
    }
}

/// The fallback behind the static file collaborator: unmatched GET and HEAD
/// requests are not found, any other method is a bad request.
pub fn fallback_status(is_get_or_head: bool) -> (s: u16)
    ensures
        s == (if is_get_or_head {
            404u16
        } else {
            400u16
        }),
{
    if is_get_or_head {
        404
    } else {
        400
    }
}

} // verus!
