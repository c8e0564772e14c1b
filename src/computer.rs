//! The machine state, the loader that replays tokens into it, and the engine.
use crate::lexer::{lex_spec, Lexer};
use crate::token::{Error, Token};
use crate::{ACC, MEMORY, OP_ADD, OP_HALT, OP_STORE, PC, REGISTERS};
use vstd::prelude::*;

verus! {

/// The mathematical picture of a machine: its registers and its memory.
pub struct Machine {
    pub registers: Seq<u8>,
    pub memory: Seq<u8>,
}

/// Sixteen registers and 256 bytes of memory.
#[derive(Clone, Copy, Debug, PartialEq, Eq)]
pub struct Computer {
    pub registers: [u8; 16],
    pub memory: [u8; 256],
}

impl View for Computer {
    type V = Machine;

    open spec fn view(&self) -> Machine {
        Machine { registers: self.registers@, memory: self.memory@ }
    }
}

pub open spec fn well_sized(m: Machine) -> bool {
    m.registers.len() == REGISTERS && m.memory.len() == MEMORY
}

/// The zeroed machine.
pub open spec fn zeroed() -> Machine {
    Machine { registers: Seq::new(REGISTERS as nat, |i: int| 0u8), memory: Seq::new(MEMORY as nat, |i: int| 0u8) }
}

pub open spec fn wrapping_add_u8(a: u8, b: u8) -> u8 {
    ((a + b) % 256) as u8
}

pub open spec fn pc_of(m: Machine) -> u8 {
    m.registers[PC as int]
}

/// The byte at the program counter.
pub open spec fn opcode_of(m: Machine) -> u8 {
    m.memory[pc_of(m) as int]
}

/// The byte after the opcode; the address wraps past the last cell.
pub open spec fn operand_of(m: Machine) -> u8 {
    m.memory[(pc_of(m) + 1) % 256]
}

pub open spec fn halted(m: Machine) -> bool {
    opcode_of(m) == OP_HALT
}

/// One fetch-decode-execute cycle.
pub open spec fn step_spec(m: Machine) -> Result<Machine, Error> {
    let op = opcode_of(m);
    let arg = operand_of(m) as int;
    let next_pc = wrapping_add_u8(pc_of(m), 2);
    if op == OP_ADD {
        Ok(Machine {
            registers: m.registers.update(ACC as int, wrapping_add_u8(m.registers[ACC as int], m.memory[arg])).update(
                PC as int,
                next_pc,
            ),
            memory: m.memory,
        })
    } else if op == OP_STORE {
        Ok(Machine {
            registers: m.registers.update(PC as int, next_pc),
            memory: m.memory.update(arg, m.registers[ACC as int]),
        })
    } else if op == OP_HALT {
        Ok(m)
    } else {
        Err(Error::InvalidOpcode { byte: op })
    }
}

/// `n` steps in a row, stopping at the first error.
pub open spec fn steps_spec(m: Machine, n: nat) -> Result<Machine, Error>
    decreases n,
{
    if n == 0 {
        Ok(m)
    } else {
        match step_spec(m) {
            Ok(m2) => steps_spec(m2, (n - 1) as nat),
            Err(e) => Err(e),
        }
    }
}

/// Steps until a halt, with at most `budget` steps: the final machine and how the run ended.
pub open spec fn run_spec(m: Machine, budget: nat) -> (Machine, Result<(), Error>)
    decreases budget,
{
    if halted(m) {
        (m, Ok(()))
    } else if budget == 0 {
        (m, Err(Error::StepLimit))
    } else {
        match step_spec(m) {
            Ok(m2) => run_spec(m2, (budget - 1) as nat),
            Err(e) => (m, Err(e)),
        }
    }
}

/// Where the loader writes: into the registers or into memory, and at which index.
pub struct Cursor {
    pub in_registers: bool,
    pub pointer: nat,
}

/// Replays `ts` from `cur` onto `m`.
pub open spec fn load_from(m: Machine, cur: Cursor, ts: Seq<Token>) -> Result<Machine, Error>
    decreases ts.len(),
{
    if ts.len() == 0 {
        Ok(m)
    } else {
        let rest = ts.drop_first();
        match ts[0] {
            Token::Register(p) => load_from(m, Cursor { in_registers: true, pointer: p as nat }, rest),
            Token::Memory(p) => load_from(m, Cursor { in_registers: false, pointer: p as nat }, rest),
            Token::Byte(b) => if cur.in_registers {
                let m2 = Machine { registers: m.registers.update(cur.pointer as int, b), memory: m.memory };
                if cur.pointer + 1 == REGISTERS {
                    load_from(m2, Cursor { in_registers: false, pointer: 0 }, rest)
                } else {
                    load_from(m2, Cursor { in_registers: true, pointer: cur.pointer + 1 }, rest)
                }
            } else if cur.pointer < MEMORY {
                let m2 = Machine { registers: m.registers, memory: m.memory.update(cur.pointer as int, b) };
                load_from(m2, Cursor { in_registers: false, pointer: cur.pointer + 1 }, rest)
            } else {
                Err(Error::MemoryOverflow)
            },
        }
    }
}

/// Register tokens name one of the sixteen registers.
pub open spec fn registers_in_range(ts: Seq<Token>) -> bool {
    forall|k: int| 0 <= k < ts.len() ==> match #[trigger] ts[k] {
        Token::Register(p) => p < REGISTERS,
        _ => true,
    }
}

/// The machine that a token sequence describes, starting from zero in register mode.
pub open spec fn load_spec(ts: Seq<Token>) -> Result<Machine, Error> {
    load_from(zeroed(), Cursor { in_registers: true, pointer: 0 }, ts)
}

/// The machine that a text describes.
pub open spec fn parse_spec(s: Seq<char>) -> Result<Machine, Error> {
    match lex_spec(s) {
        Ok(ts) => load_spec(ts),
        Err(e) => Err(e),
    }
}

impl Computer {
    /// The zeroed machine.
    pub fn new() -> (r: Computer)
        ensures
            r@ == zeroed(),
    {
        let r = Computer { registers: [0u8; 16], memory: [0u8; 256] };
        assert(r@.registers =~= zeroed().registers);
        assert(r@.memory =~= zeroed().memory);
        r
    }

    /// Executes the instruction at the program counter.
    pub fn step(&mut self) -> (r: Result<(), Error>)
        ensures
            match step_spec(old(self)@) {
                Ok(m) => r == Ok::<(), Error>(()) && final(self)@ == m,
                Err(e) => r == Err::<(), Error>(e) && final(self)@ == old(self)@,
            },
            halted(old(self)@) ==> r == Ok::<(), Error>(()) && final(self)@ == old(self)@,
    {
        let pc = self.registers[PC];
        let instruction = self.memory[pc as usize];
        let operand = self.memory[((pc as usize) + 1) % MEMORY];
        if instruction == OP_ADD {
            self.registers[ACC] = self.registers[ACC].wrapping_add(self.memory[operand as usize]);
            self.registers[PC] = pc.wrapping_add(2);
            assert(self@.registers =~= step_spec(old(self)@)->Ok_0.registers);
            Ok(())
        } else if instruction == OP_STORE {
            self.memory[operand as usize] = self.registers[ACC];
            self.registers[PC] = pc.wrapping_add(2);
            assert(self@.registers =~= step_spec(old(self)@)->Ok_0.registers);
            assert(self@.memory =~= step_spec(old(self)@)->Ok_0.memory);
            Ok(())
        } else if instruction == OP_HALT {
            Ok(())
        } else {
            Err(Error::InvalidOpcode { byte: instruction })
        }
    }

    /// Steps until the byte at the program counter is a halt, for at most
    /// `max_steps` steps; stops at the first invalid opcode.
    pub fn run(&mut self, max_steps: usize) -> (r: Result<(), Error>)
        ensures
            run_spec(old(self)@, max_steps as nat) == (final(self)@, r),
    {
        let mut budget = max_steps;
        while self.memory[self.registers[PC] as usize] != OP_HALT
            invariant
                run_spec(old(self)@, max_steps as nat) == run_spec(self@, budget as nat),
            decreases budget,
        {
            if budget == 0 {
                return Err(Error::StepLimit);
            }
            let ghost before = self@;
            match self.step() {
                Ok(()) => {},
                Err(e) => {
                    assert(self@ == before);
                    return Err(e);
                },
            }
            budget = budget - 1;
        }
        Ok(())
    }

    /// Replays `tokens` onto a zeroed machine.
    pub fn load(tokens: &Vec<Token>) -> (r: Result<Computer, Error>)
        requires
            registers_in_range(tokens@),
        ensures
            match r {
                Ok(c) => load_spec(tokens@) == Ok::<Machine, Error>(c@),
                Err(e) => load_spec(tokens@) == Err::<Machine, Error>(e),
            },
    {
        let mut computer = Computer::new();
        let mut in_registers = true;
        let mut pointer: usize = 0;
        let mut k: usize = 0;
        assert(tokens@.skip(0) =~= tokens@);
        while k < tokens.len()
            invariant
                k <= tokens.len(),
                registers_in_range(tokens@),
                in_registers ==> pointer < REGISTERS,
                !in_registers ==> pointer <= MEMORY,
                load_spec(tokens@) == load_from(
                    computer@,
                    Cursor { in_registers, pointer: pointer as nat },
                    tokens@.skip(k as int),
                ),
            decreases tokens.len() - k,
        {
            assert(tokens@.skip(k as int).drop_first() =~= tokens@.skip(k + 1));
            assert(tokens@.skip(k as int)[0] == tokens@[k as int]);
            match tokens[k] {
                Token::Byte(b) => {
                    if in_registers {
                        computer.registers[pointer] = b;
                        pointer = pointer + 1;
                        if pointer == REGISTERS {
                            in_registers = false;
                            pointer = 0;
                        }
                    } else if pointer < MEMORY {
                        computer.memory[pointer] = b;
                        pointer = pointer + 1;
                    } else {
                        return Err(Error::MemoryOverflow);
                    }
                },
                Token::Memory(p) => {
                    in_registers = false;
                    pointer = p as usize;
                },
                Token::Register(p) => {
                    in_registers = true;
                    pointer = p as usize;
                },
            }
            k = k + 1;
        }
        assert(tokens@.skip(k as int).len() == 0);
        Ok(computer)
    }

    /// The machine that `src` describes.
    pub fn parse(src: &str) -> (r: Result<Computer, Error>)
        ensures
            match r {
                Ok(c) => parse_spec(src@) == Ok::<Machine, Error>(c@),
                Err(e) => parse_spec(src@) == Err::<Machine, Error>(e),
            },
    {
        let tokens = match Lexer::lex(src) {
            Ok(tokens) => tokens,
            Err(e) => return Err(e),
        };
        proof {
            crate::lexer::lemma_lex_registers(src@, 0, crate::lexer::Scan::Top);
        }
        Computer::load(&tokens)
    }
}

impl std::str::FromStr for Computer {
    type Err = Error;

    fn from_str(src: &str) -> (r: Result<Computer, Error>)
        ensures
            match r {
                Ok(c) => parse_spec(src@) == Ok::<Machine, Error>(c@),
                Err(e) => parse_spec(src@) == Err::<Machine, Error>(e),
            },
    {
        Computer::parse(src)
    }
}

impl Default for Computer {
    fn default() -> (r: Computer)
        ensures
            r@ == zeroed(),
    {
        Computer::new()
    }
}

} // verus!
