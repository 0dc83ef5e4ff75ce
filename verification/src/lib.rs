//! Keeping a machine awake: the decisions behind a tool that blocks
//! sleep for a time, or until watched processes are gone.
//!
//! The modules hold the verified core: parsing the wait duration,
//! choosing the inhibition backend from host probes, reading the
//! liveness probe of a process, and the wait policy that decides each
//! polling tick. The host process around the library does the probing,
//! the timer, the session-manager call and the printing, and hands
//! plain values in and out.

pub mod backend;
pub mod duration;
pub mod inhibit;
pub mod liveness;
pub mod policy;

use vstd::prelude::*;

verus! {

/// Number of seconds the polling loop sleeps between ticks.
pub const POLL_INTERVAL_SECS: u64 = 1;

} // verus!
