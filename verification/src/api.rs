//! Status of the gateway as reported by the HTTP API.
use vstd::prelude::*;
use std::collections::VecDeque;
use crate::clock::now_millis;
use crate::events::SignedEvent;

verus! {

/// A reading younger than this (in milliseconds) means the scale is connected.
pub const CONNECTED_WINDOW_MS: u64 = 10_000;

/// Status of the gateway.
pub struct StatusSummary {
    /// The last reading is less than ten seconds old.
    pub connected: bool,
    /// Readings held in the log.
    pub event_count: usize,
    /// The most recent reading.
    pub last_event: Option<SignedEvent>,
}

/// The scale counts as connected when the newest reading of `log` is less
/// than ten seconds older than `now_ms` (a reading from the future counts).
pub open spec fn connected_spec(log: Seq<SignedEvent>, now_ms: u64) -> bool {
    log.len() > 0 && (if now_ms >= log.last().timestamp_ms {
        now_ms - log.last().timestamp_ms
    } else {
        0
    }) < 10_000
}

/// Whether the scale counts as connected depends on the newest reading
/// alone: whatever older readings the log holds, it is connected at `now_ms`
/// exactly when the newest reading `e` is less than 10 000 ms older than
/// `now_ms` (a reading stamped after `now_ms` counts as fresh); an empty log
/// is never connected.
pub proof fn lemma_connected_by_newest(log: Seq<SignedEvent>, e: SignedEvent, now_ms: u64)
    ensures
        connected_spec(log.push(e), now_ms) == (now_ms < e.timestamp_ms || now_ms
            - e.timestamp_ms < 10_000),
        !connected_spec(Seq::<SignedEvent>::empty(), now_ms),
{
}

/// Status of the log at time `now_ms`.
pub fn status_of(log: &VecDeque<SignedEvent>, now_ms: u64) -> (r: StatusSummary)
    ensures
        r.connected == connected_spec(log@, now_ms),
        r.event_count == log@.len(),
        match r.last_event {
            Some(e) => log@.len() > 0 && e.same_as(log@.last()),
            None => log@.len() == 0,
        },
{
    let n = log.len();
    if n == 0 {
        return StatusSummary { connected: false, event_count: 0, last_event: None };
    }
    let last = log[n - 1].duplicate();
    let connected = now_ms.saturating_sub(last.timestamp_ms) < CONNECTED_WINDOW_MS;
    StatusSummary { connected, event_count: n, last_event: Some(last) }
}

/// Status of the log now (read from the clock).
pub fn current_status(log: &VecDeque<SignedEvent>) -> (r: StatusSummary)
    ensures
        exists|now: u64| r.connected == connected_spec(log@, now),
        r.event_count == log@.len(),
        match r.last_event {
            Some(e) => log@.len() > 0 && e.same_as(log@.last()),
            None => log@.len() == 0,
        },
{
    let now = now_millis();
    status_of(log, now)
}

} // verus!
