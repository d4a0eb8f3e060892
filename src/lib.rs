//! Memory-management core of a small x86_64 kernel: the frame source, the
//! heap-region initialisation sequence and the two allocator strategies.
use vstd::prelude::*;

pub mod allocator;
pub mod error;
pub mod interrupt;
pub mod memory;
pub mod vga_buffer;

verus! {

/// The exit status the kernel reports to the emulator through its debug-exit port.
#[derive(Clone, Copy, Debug, PartialEq, Eq, Structural)]
pub enum QemuExitCode {
    Success,
    Failed,
}

impl QemuExitCode {
    /// The value written to the exit port.
    pub fn code(self) -> (r: u32)
        ensures
            self == QemuExitCode::Success ==> r == 0x10,
            self == QemuExitCode::Failed ==> r == 0x11,
    {
        match self {
            QemuExitCode::Success => 0x10,
            QemuExitCode::Failed => 0x11,
        }
    }
}

} // verus! // verus!
