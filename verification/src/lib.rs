//! Non-blocking update notification for a command-line tool.
//!
//! The library decides whether a newer release of a tool exists and whether
//! the user should be told so, without ever blocking the tool's own work.
//! It holds the verified core: the dotted-version comparator, the on-disk
//! version cache and its file format, the orchestration rules that bound how
//! often the network is consulted, and the foreground checker that consumes
//! a background probe's result through a one-shot channel.

pub mod cache;
pub mod checker;
pub mod codec;
pub mod orchestrator;
pub mod version;

use vstd::prelude::*;

verus! {

/// A cached record is trusted for this many seconds after a network check.
pub const CACHE_VALIDITY_SECONDS: u64 = 86400;

} // verus!
