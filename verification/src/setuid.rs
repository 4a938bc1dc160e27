//! Permission-bit helpers for the privilege glue around the tool.
//!
//! The caller reads and writes the executable's mode; here stands
//! only what the mode words mean.

use vstd::prelude::*;

verus! {

/// The setuid permission bit.
pub const SETUID_BIT: u32 = 0o4000;

/// The mode the tool gives itself: setuid, owner free, others may
/// read and execute, group nothing (0o4000 | 0o0700 | 0o0004 | 0o0001).
pub const TOOL_MODE: u32 = 0o4705;

/// Does `mode` carry the setuid bit?
pub fn is_set(mode: u32) -> (r: bool)
    ensures
        r == (mode & 0o4000u32 != 0),
{
    mode & SETUID_BIT != 0
}

/// The mode to install: it carries the setuid bit.
pub fn tool_mode() -> (r: u32)
    ensures
        r == 0o4705u32,
        r & 0o4000u32 != 0,
{
    proof {
        assert(0o4705u32 & 0o4000u32 != 0) by (bit_vector);
    }
    TOOL_MODE
}

} // verus!
