//! The numbers under which the hardware interrupts arrive.

use vstd::prelude::*;

verus! {

/// The first interrupt number of the primary interrupt controller: the
/// numbers below it belong to the processor's exceptions.
pub const PIC_1_OFFSET: u8 = 32;

/// The first interrupt number of the secondary interrupt controller.
pub const PIC_2_OFFSET: u8 = PIC_1_OFFSET + 8;

/// A hardware interrupt, by the line of the primary controller that it
/// arrives on.
#[derive(Debug, Clone, Copy, PartialEq, Eq, Structural)]
pub enum InterruptIndex {
    Timer,
    Keyboard,
}

impl InterruptIndex {
    /// The line of the primary controller: 0 for the timer, 1 for the
    /// keyboard.
    pub open spec fn line(self) -> int {
        match self {
            InterruptIndex::Timer => 0,
            InterruptIndex::Keyboard => 1,
        }
    }

    /// The interrupt number: the controller's first number plus the line.
    pub fn as_u8(self) -> (number: u8)
        ensures
            number == PIC_1_OFFSET + self.line(),
            PIC_1_OFFSET <= number < PIC_2_OFFSET,
    {
        match self {
            InterruptIndex::Timer => PIC_1_OFFSET,
            InterruptIndex::Keyboard => PIC_1_OFFSET + 1,
        }
    }

    /// The interrupt number as a place in the table of handlers.
    pub fn as_usize(self) -> (number: usize)
        ensures
            number == PIC_1_OFFSET + self.line(),
    {
        self.as_u8() as usize
    }
}

} // verus!
