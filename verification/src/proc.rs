//! Spawning child processes without a flashing console window.

use vstd::prelude::*;

verus! {

/// The Win32 process-creation flag that runs a console child without giving it a console.
pub const CREATE_NO_WINDOW: u32 = 0x0800_0000;

} // verus!
