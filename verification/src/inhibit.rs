//! The inhibition flags of the session manager's Inhibit call, and the
//! mask this tool always requests.

use vstd::prelude::*;

verus! {

/// Block logging out.
pub const FLAG_LOG_OUT: u32 = 1;

/// Block switching users.
pub const FLAG_SWITCH_USER: u32 = 2;

/// Block suspending the machine.
pub const FLAG_SUSPEND: u32 = 4;

/// Block the idle timeout.
pub const FLAG_IDLE: u32 = 8;

/// Block automatic mounting.
pub const FLAG_AUTO_MOUNT: u32 = 16;

/// The mask this tool always requests: block suspend and idle.
pub fn sleep_inhibit_flags() -> (r: u32)
    ensures
        r == (FLAG_SUSPEND | FLAG_IDLE),
        r == 12,
{
    proof {
        assert(4u32 | 8u32 == 12) by (bit_vector);
    }
    FLAG_SUSPEND | FLAG_IDLE
}

} // verus!
