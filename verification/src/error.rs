//! The ways in which loading or running a program can fail.

use vstd::prelude::*;

verus! {

/// Which kind of bracket was left without a partner.
#[derive(Debug, Clone, Copy, PartialEq, Eq, Structural)]
pub enum Unmatched {
    /// A `[` that no later `]` closes.
    Opening,
    /// A `]` that no earlier `[` opens.
    Closing,
}

/// Why a program was rejected or its run was stopped.
#[derive(Debug, Clone, Copy, PartialEq, Eq, Structural)]
pub enum Error {
    /// The program holds no instruction.
    EmptyProgram,
    /// The program holds more instructions than the tape has cells.
    ProgramTooLarge,
    /// The brackets do not balance. Scanning from the left, the first `]`
    /// without a partner is reported; if there is none, a `[` was left open.
    MalformedBrackets(Unmatched),
    /// An input instruction was reached and no byte was left to read.
    InputExhausted,
    /// A move would have taken the pointer off either end of the tape.
    PointerOutOfBounds,
}

} // verus!
