//! General properties of loading and of execution.
use crate::computer::{
    halted, load_from, load_spec, operand_of, pc_of, step_spec, steps_spec, wrapping_add_u8, zeroed, Cursor,
    Machine,
};
use crate::token::Token;
use vstd::prelude::*;

verus! {

/// The byte tokens that write `bs` in order.
pub open spec fn byte_tokens(bs: Seq<u8>) -> Seq<Token> {
    bs.map_values(|b: u8| Token::Byte(b))
}

/// `m` with the registers from index `p` on replaced by `bs`.
pub open spec fn with_registers(m: Machine, p: int, bs: Seq<u8>) -> Machine {
    Machine {
        registers: Seq::new(m.registers.len(), |i: int| if p <= i < p + bs.len() { bs[i - p] } else { m.registers[i] }),
        memory: m.memory,
    }
}

/// `m` with the memory from address `p` on replaced by `bs`.
pub open spec fn with_memory(m: Machine, p: int, bs: Seq<u8>) -> Machine {
    Machine {
        registers: m.registers,
        memory: Seq::new(m.memory.len(), |i: int| if p <= i < p + bs.len() { bs[i - p] } else { m.memory[i] }),
    }
}

proof fn lemma_byte_tokens_split(bs: Seq<u8>, rest: Seq<Token>)
    requires
        bs.len() > 0,
    ensures
        (byte_tokens(bs) + rest)[0] == Token::Byte(bs[0]),
        (byte_tokens(bs) + rest).drop_first() =~= byte_tokens(bs.drop_first()) + rest,
{
}

/// Bytes written in register mode from `p` fill the registers in order; the
/// sixteenth register moves the cursor to memory address 0.
pub proof fn lemma_fill_registers(m: Machine, p: nat, bs: Seq<u8>, rest: Seq<Token>)
    requires
        m.registers.len() == 16,
        p + bs.len() <= 16,
        p < 16,
    ensures
        load_from(m, Cursor { in_registers: true, pointer: p }, byte_tokens(bs) + rest) == load_from(
            with_registers(m, p as int, bs),
            if p + bs.len() == 16 {
                Cursor { in_registers: false, pointer: 0 }
            } else {
                Cursor { in_registers: true, pointer: p + bs.len() }
            },
            rest,
        ),
    decreases bs.len(),
{
    if bs.len() == 0 {
        assert(byte_tokens(bs) + rest =~= rest);
        assert(with_registers(m, p as int, bs).registers =~= m.registers);
    } else {
        lemma_byte_tokens_split(bs, rest);
        let m2 = Machine { registers: m.registers.update(p as int, bs[0]), memory: m.memory };
        if p + 1 == 16 {
            assert(bs.drop_first().len() == 0);
            assert(byte_tokens(bs.drop_first()) + rest =~= rest);
            assert(with_registers(m, p as int, bs).registers =~= m2.registers);
        } else {
            lemma_fill_registers(m2, p + 1, bs.drop_first(), rest);
            assert(with_registers(m2, p + 1int, bs.drop_first()).registers =~= with_registers(
                m,
                p as int,
                bs,
            ).registers);
        }
    }
}

/// Bytes written in memory mode from `p` fill memory in order, while they fit.
pub proof fn lemma_fill_memory(m: Machine, p: nat, bs: Seq<u8>, rest: Seq<Token>)
    requires
        m.memory.len() == 256,
        p + bs.len() <= 256,
    ensures
        load_from(m, Cursor { in_registers: false, pointer: p }, byte_tokens(bs) + rest) == load_from(
            with_memory(m, p as int, bs),
            Cursor { in_registers: false, pointer: p + bs.len() },
            rest,
        ),
    decreases bs.len(),
{
    if bs.len() == 0 {
        assert(byte_tokens(bs) + rest =~= rest);
        assert(with_memory(m, p as int, bs).memory =~= m.memory);
    } else {
        lemma_byte_tokens_split(bs, rest);
        let m2 = Machine { registers: m.registers, memory: m.memory.update(p as int, bs[0]) };
        lemma_fill_memory(m2, p + 1, bs.drop_first(), rest);
        assert(with_memory(m2, p + 1int, bs.drop_first()).memory =~= with_memory(m, p as int, bs).memory);
    }
}

/// A register directive for register 0 followed by up to sixteen bytes sets
/// registers 0 onward to those bytes in order and leaves everything else zero.
pub proof fn lemma_registers_from_zero(bs: Seq<u8>)
    requires
        bs.len() <= 16,
    ensures
        load_spec(seq![Token::Register(0)] + byte_tokens(bs)) == Ok::<Machine, crate::token::Error>(
            Machine {
                registers: Seq::new(16, |i: int| if i < bs.len() { bs[i] } else { 0u8 }),
                memory: zeroed().memory,
            },
        ),
{
    let ts = seq![Token::Register(0)] + byte_tokens(bs);
    assert(ts.drop_first() =~= byte_tokens(bs) + Seq::<Token>::empty());
    lemma_fill_registers(zeroed(), 0, bs, Seq::empty());
    assert(with_registers(zeroed(), 0, bs).registers =~= Seq::new(
        16,
        |i: int| if i < bs.len() { bs[i] } else { 0u8 },
    ));
}

/// Bytes without any directive fill the sixteen registers, then switch once to
/// memory mode with the pointer at address 0, and fill memory from there.
pub proof fn lemma_bytes_cross_into_memory(bs: Seq<u8>)
    requires
        16 <= bs.len() <= 16 + 256,
    ensures
        load_spec(byte_tokens(bs)) == Ok::<Machine, crate::token::Error>(
            Machine {
                registers: bs.take(16),
                memory: Seq::new(256, |i: int| if i < bs.len() - 16 { bs[i + 16] } else { 0u8 }),
            },
        ),
{
    let head = bs.take(16);
    let tail = bs.skip(16);
    assert(byte_tokens(bs) =~= byte_tokens(head) + byte_tokens(tail));
    assert(byte_tokens(tail) =~= byte_tokens(tail) + Seq::<Token>::empty());
    lemma_fill_registers(zeroed(), 0, head, byte_tokens(tail));
    let m1 = with_registers(zeroed(), 0, head);
    lemma_fill_memory(m1, 0, tail, Seq::empty());
    assert(with_memory(m1, 0, tail).registers =~= bs.take(16));
    assert(with_memory(m1, 0, tail).memory =~= Seq::new(
        256,
        |i: int| if i < bs.len() - 16 { bs[i + 16] } else { 0u8 },
    ));
}

/// A machine whose program counter points at a halt is unchanged by any
/// number of further steps.
pub proof fn lemma_halted_stays(m: Machine, n: nat)
    requires
        halted(m),
    ensures
        steps_spec(m, n) == Ok::<Machine, crate::token::Error>(m),
    decreases n,
{
    if n > 0 {
        lemma_halted_stays(m, (n - 1) as nat);
    }
}

/// With the program counter on the last cell, the operand is fetched from
/// address 0; an add there reads the cell that byte names, and the program
/// counter wraps to 1.
pub proof fn lemma_operand_wraps(m: Machine)
    requires
        m.registers.len() == 16,
        m.memory.len() == 256,
        pc_of(m) == 255,
    ensures
        operand_of(m) == m.memory[0],
        m.memory[255] == crate::OP_ADD ==> (step_spec(m) matches Ok(next) && next.registers[crate::ACC as int]
            == wrapping_add_u8(m.registers[crate::ACC as int], m.memory[m.memory[0] as int]) && pc_of(next) == 1),
{
}

} // verus!
