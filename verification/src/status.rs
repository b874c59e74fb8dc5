//! The per-URL lifecycle and how one inspection result advances it.

use vstd::prelude::*;

verus! {

/// Lifecycle of one monitored stream URL. Exactly one value per URL at any
/// instant.
#[derive(Clone, Copy, Debug, PartialEq, Eq, Structural)]
pub enum StreamStatus {
    /// Not known to be live; eligible to start downloading once the stream is
    /// seen live.
    Idle,
    /// Reserved transitional state; no poll transition enters or leaves it.
    Pending,
    /// The stream is actively being pulled.
    Downloading,
    /// The stream is actively being pushed downstream.
    Uploading,
}

/// The status after one poll of a URL: a stream seen live while `Idle` starts
/// `Downloading`; every other observation (still live in any other state, or
/// a failed inspection) leaves the status as it was.
pub open spec fn next_status(current: StreamStatus, live: bool) -> StreamStatus {
    if live && current is Idle {
        StreamStatus::Downloading
    } else {
        current
    }
}

/// Executable form of `next_status`.
pub fn advance_status(current: StreamStatus, live: bool) -> (r: StreamStatus)
    ensures
        r == next_status(current, live),
{
    if live {
        match current {
            StreamStatus::Idle => StreamStatus::Downloading,
            _ => current,
        }
    } else {
        current
    }
}

/// A failed inspection never changes a status, whatever it was before the
/// poll.
pub proof fn lemma_failed_poll_keeps_status(current: StreamStatus)
    ensures
        next_status(current, false) == current,
{
}

/// A stream seen live while `Idle` moves to `Downloading`, and further
/// successful polls keep it there: the transition never flaps back.
pub proof fn lemma_live_poll_settles(current: StreamStatus)
    ensures
        current is Idle ==> next_status(current, true) is Downloading,
        next_status(next_status(current, true), true) == next_status(current, true),
{
}

} // verus!
