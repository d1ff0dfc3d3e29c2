//! What the join and trigger endpoints answer, and the wire constants.
use vstd::prelude::*;

use crate::registry::Registry;

verus! {

/// Longest room identifier accepted, in bytes.
pub const MAX_ROOM_ID_BYTES: usize = 64;

/// Text sent to every member of a room when it is triggered.
pub const TRIGGER_MESSAGE: &'static str = "c";

/// Text sent to every member of every room as a liveness probe.
pub const HEARTBEAT_MESSAGE: &'static str = "h";

/// Seconds between two liveness probes.
pub const HEARTBEAT_SECS: u64 = 10;

/// Milliseconds a send may take before its connection is dropped.
pub const SEND_DEADLINE_MILLIS: u64 = 500;

/// How an endpoint answers a request.
#[derive(PartialEq, Eq, Structural, Debug, Clone, Copy)]
pub enum Reply {
    /// The request goes ahead: the connection is accepted, or the trigger
    /// reached an existing room.
    Accepted,
    /// The room identifier is too long.
    BadRequest,
    /// The triggered room has no member.
    NotFound,
}

/// Whether a room identifier is short enough, counted in UTF-8 bytes.
pub open spec fn room_id_fits(id: &str) -> bool {
    id.len() <= MAX_ROOM_ID_BYTES
}

/// Checks the length of a room identifier.
pub fn room_id_ok(id: &str) -> (r: bool)
    ensures
        r == room_id_fits(id),
{
    id.len() <= MAX_ROOM_ID_BYTES
}

/// The answer to a request to listen in `room`, given before any
/// connection is set up.
pub fn listen_reply(room: &str) -> (r: Reply)
    ensures
        r == (if room_id_fits(room) {
            Reply::Accepted
        } else {
            Reply::BadRequest
        }),
{
    if room_id_ok(room) {
        Reply::Accepted
    } else {
        Reply::BadRequest
    }
}

/// The answer to a trigger of `room`: too long an identifier is refused
/// before the registry is looked at, an absent room is not found.
pub fn click_reply<C>(registry: &Registry<C>, room: &str) -> (r: Reply)
    requires
        registry.wf(),
    ensures
        r == (if !room_id_fits(room) {
            Reply::BadRequest
        } else if !registry@.contains_key(room@) {
            Reply::NotFound
        } else {
            Reply::Accepted
        }),
{
    if !room_id_ok(room) {
        Reply::BadRequest
    } else if !registry.contains(room) {
        Reply::NotFound
    } else {
        Reply::Accepted
    }
}

/// Trigger of `room` in one step, for a caller that has already sent the
/// trigger to the members and knows which sends failed: answers as
/// `click_reply` does and, when the room exists, drops the failed members.
pub fn fire_trigger<C>(registry: &mut Registry<C>, room: &str, failed: &Vec<u64>) -> (r: Reply)
    requires
        old(registry).wf(),
    ensures
        final(registry).wf(),
        r == (if !room_id_fits(room) {
            Reply::BadRequest
        } else if !old(registry)@.contains_key(room@) {
            Reply::NotFound
        } else {
            Reply::Accepted
        }),
        final(registry)@ == (if room_id_fits(room) {
            crate::registry::after_settle(old(registry)@, room@, failed@)
        } else {
            old(registry)@
        }),
        final(registry).next_id() == old(registry).next_id(),
{
    if !room_id_ok(room) {
        Reply::BadRequest
    } else if registry.settle(room, failed) {
        Reply::Accepted
    } else {
        Reply::NotFound
    }
}

} // verus!
