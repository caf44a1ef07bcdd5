//! Building blocks of a small freestanding kernel: heap allocators that keep
//! their books over plain addresses, fixed-capacity containers, and the
//! decision logic of the console and of the boot-time setup.

use vstd::prelude::*;

pub mod allocator;
pub mod collections;
pub mod coquille;
pub mod interrupts;
pub mod memory;
pub mod serial;
pub mod stack_string;
pub mod test_utils;
pub mod vga_buffer;


verus! {

/// What the kernel tells the emulator when it is done.
#[derive(Debug, Clone, Copy, PartialEq, Eq, Structural)]
pub enum QemuExitCode {
    /// Everything went well.
    Success,
    /// Something failed.
    Failed,
}

impl QemuExitCode {
    /// The value written to the emulator's exit port. The emulator ends
    /// with the status `(value << 1) | 1`.
    pub fn code(self) -> (value: u32)
        ensures
            value == match self {
                QemuExitCode::Success => 0x10u32,
                QemuExitCode::Failed => 0x11u32,
            },
    {
        match self {
            QemuExitCode::Success => 0x10,
            QemuExitCode::Failed => 0x11,
        }
    }
}

} // verus!
