//! The process liveness oracle: whether a process id identifies a live
//! process right now, read from the result of a harmless signal probe.

use vstd::prelude::*;

verus! {

/// The liveness oracle. An answer is a point-in-time snapshot of
/// operating-system state, never a handle: process ids may be reused
/// once a process is gone. The library states nothing of the answer;
/// the host implements this per operating system.
pub trait IsRunning {
    fn is_running(&self) -> bool;
}

/// The errno a signal probe sets when the caller may not signal the
/// target: the POSIX "operation not permitted" code, 1 on Linux and on
/// macOS.
pub const PERMISSION_DENIED_ERRNO: i32 = 1;

/// Reads a signal-probe result. The process exists when the probe
/// succeeded, and also when it failed only because the caller lacks
/// permission to signal it: a process owned by another user is alive
/// all the same. Every other failure means no such process.
pub fn interpret_probe(probe_result: i32, errno: i32) -> (r: bool)
    ensures
        r == (probe_result == 0 || errno == PERMISSION_DENIED_ERRNO),
{
    probe_result == 0 || errno == PERMISSION_DENIED_ERRNO
}

} // verus!
