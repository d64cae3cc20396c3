//! The verified core of a small x86-64 kernel: its heap allocators, and the
//! values that its interrupt and screen code compute with.

use vstd::prelude::*;

pub mod allocator;
pub mod interrupts;
pub mod memory;
pub mod vga_buffer;

verus! {

/// How the kernel ends a run under the emulator.
#[derive(Debug, Clone, Copy, PartialEq, Eq, Structural)]
pub enum QemuExitCode {
    Success,
    Failed,
}

impl QemuExitCode {
    /// The value written to the emulator's exit port: `0x10` for success,
    /// `0x11` for failure.
    pub fn code(self) -> (code: u32)
        ensures
            code == match self {
                QemuExitCode::Success => 0x10u32,
                QemuExitCode::Failed => 0x11u32,
            },
    {
        match self {
            QemuExitCode::Success => 0x10,
            QemuExitCode::Failed => 0x11,
        }
    }
}

} // verus!
