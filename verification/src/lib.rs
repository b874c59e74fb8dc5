//! Core of a live-stream monitor: URLs are grouped by the platform that can
//! inspect them, each group is polled round-robin by one background task, and
//! every URL advances through a small liveness state machine.
//!
//! The library holds the shared data structures and every decision the
//! monitor makes: which URL to poll next, how an inspection result changes a
//! status, and when a platform's polling task must be spawned or cancelled.
//! The asynchronous plumbing that carries those decisions out (task spawning,
//! sleeping, network calls) lives outside the library and only hands plain
//! values in and out.

pub mod actor;
pub mod cycle;
pub mod status;
