//! The numbers under which the interrupt controllers report.

use vstd::prelude::*;

verus! {

/// The first interrupt number of the first controller.
pub const PIC_1_OFFSET: u8 = 32;

/// The first interrupt number of the second controller.
pub const PIC_2_OFFSET: u8 = PIC_1_OFFSET + 8;

/// The hardware interrupts that the kernel handles.
#[derive(Debug, Clone, Copy, PartialEq, Eq, Structural)]
pub enum InterruptIndex {
    /// The timer, on the first line of the first controller.
    Timer,
    /// The keyboard, on the line after the timer's.
    Keyboard,
}

impl InterruptIndex {
    /// The interrupt number.
    pub open spec fn number(self) -> int {
        match self {
            InterruptIndex::Timer => PIC_1_OFFSET as int,
            InterruptIndex::Keyboard => PIC_1_OFFSET + 1,
        }
    }

    /// The interrupt number as a byte.
    pub fn into_u8(self) -> (number: u8)
        ensures
            number == self.number(),
    {
        match self {
            InterruptIndex::Timer => PIC_1_OFFSET,
            InterruptIndex::Keyboard => PIC_1_OFFSET + 1,
        }
    }

    /// The interrupt number as an index into the table of handlers.
    pub fn into_usize(self) -> (number: usize)
        ensures
            number == self.number(),
    {
        self.into_u8() as usize
    }
}

} // verus!
