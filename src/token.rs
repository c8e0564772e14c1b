//! Lexical tokens and the library's error type.
use vstd::prelude::*;

verus! {

/// One unit of the textual notation.
#[derive(Clone, Copy, Debug, PartialEq, Eq, Structural)]
pub enum Token {
    /// Following bytes go to the register file, starting at this index.
    Register(u8),
    /// Following bytes go to memory, starting at this address.
    Memory(u8),
    /// Write this byte at the current pointer, then advance the pointer.
    Byte(u8),
}

/// Everything that can go wrong while reading text or running the machine.
#[derive(Clone, Copy, Debug, PartialEq, Eq, Structural)]
pub enum Error {
    /// A character that no rule of the notation accepts, at a 1-based line and column.
    LexError { line: usize, column: usize, character: char },
    /// A two-character byte whose second character is not a hex digit.
    MalformedHexByte,
    /// The text ended inside a directive, a byte or an escape sequence.
    UnexpectedEnd,
    /// A byte written past the last memory cell.
    MemoryOverflow,
    /// The byte at the program counter is no instruction.
    InvalidOpcode { byte: u8 },
    /// A run stopped after its step budget without reaching a halt.
    StepLimit,
}

} // verus!
