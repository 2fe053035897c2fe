//! Correlation core for a bridge to a long-lived external worker process.
//!
//! The worker accepts newline-delimited JSON commands on one pipe and emits
//! newline-delimited JSON responses on another. This crate provides the
//! verified heart of that exchange: identifier allocation, the pending-request
//! table, the line-framing protocol, and the dispatch step that routes an
//! incoming reply to the one waiting caller (exactly once) or to a live
//! subscription (repeatedly). Process spawning, pipes and channels live in the
//! unverified shell around this library.

use vstd::prelude::*;

pub mod bridge;
pub mod store;
pub mod types;
pub mod wire;

verus! {

/// Outcome a caller can observe from a request or subscription.
#[derive(Clone, Copy, Debug, PartialEq, Eq, Structural)]
pub enum Error {
    /// Writing to or reading from the worker failed at the pipe level.
    Io,
    /// A line from the worker was not a well-formed response envelope.
    Decode,
    /// The worker exited; every still-pending request is failed with this.
    WorkerTerminated,
    /// The configured deadline passed before the worker answered.
    TimedOut,
}

} // verus!
