//! A tiny byte machine: sixteen registers, 256 bytes of memory, a textual
//! notation for its state, and a fetch-decode-execute engine.
use vstd::prelude::*;

pub mod computer;
pub mod laws;
pub mod lexer;
pub mod render;
pub mod round_trip;
pub mod subcommand;
pub mod token;

verus! {

/// Index of the accumulator register.
pub const ACC: usize = 0;

/// Index of the program-counter register.
pub const PC: usize = 12;

/// Number of registers.
pub const REGISTERS: usize = 16;

/// Number of memory cells; addresses are single bytes.
pub const MEMORY: usize = 256;

/// Opcode: add the byte at the operand address to the accumulator.
pub const OP_ADD: u8 = 0x10;

/// Opcode: store the accumulator at the operand address.
pub const OP_STORE: u8 = 0x20;

/// Opcode: halt; stepping leaves the machine unchanged.
pub const OP_HALT: u8 = 0xFF;

} // verus!
