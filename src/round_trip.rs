//! Reading text back: a report parses to the machine it shows, and a register
//! directive followed by bytes parses to those bytes in order.
use crate::computer::{load_from, parse_spec, pc_of, Cursor, Machine};
use crate::laws::{
    byte_tokens, lemma_bytes_cross_into_memory, lemma_fill_memory, lemma_registers_from_zero, with_memory,
    with_registers,
};
use crate::lexer::{hex_byte, hex_value, is_blank, is_escape_final, is_hex_digit, lex_from, lex_spec, prepend, Scan};
use crate::render::{
    cyan_off, cyan_on, lemma_trimmed_len_bound, memory_cell,
    hex2_lower, hex2_upper, hex_lower, hex_upper, join, memory_cells, memory_line, memory_lines, memory_row,
    register_cell, register_cells, register_line, register_lines, register_row, render_spec, trimmed_len,
};
use crate::token::{Error, Token};
use vstd::prelude::*;

verus! {

/// Scanning `s` from `i` yields `ts` and then continues from `j`.
pub open spec fn lexes_to(s: Seq<char>, i: int, j: int, ts: Seq<Token>) -> bool {
    lex_from(s, i, Scan::Top) == prepend(ts, lex_from(s, j, Scan::Top))
}

proof fn lemma_hex_digits(v: u8)
    requires
        v < 16,
    ensures
        is_hex_digit(hex_upper(v)),
        hex_value(hex_upper(v)) == v,
        hex_upper(v) != 'R',
        is_hex_digit(hex_lower(v)),
        hex_value(hex_lower(v)) == v,
        hex_lower(v) != 'R',
{
}

proof fn lemma_hex_pair(b: u8)
    ensures
        is_hex_digit(hex2_upper(b)[0]),
        is_hex_digit(hex2_upper(b)[1]),
        hex2_upper(b)[0] != 'R',
        hex_byte(hex2_upper(b)[0], hex2_upper(b)[1]) == b,
        is_hex_digit(hex2_lower(b)[0]),
        is_hex_digit(hex2_lower(b)[1]),
        hex2_lower(b)[0] != 'R',
        hex_byte(hex2_lower(b)[0], hex2_lower(b)[1]) == b,
        is_hex_pair(hex2_upper(b), b),
        is_hex_pair(hex2_lower(b), b),
{
    lemma_hex_digits(b / 16);
    lemma_hex_digits(b % 16);
}

proof fn lemma_compose(s: Seq<char>, i: int, j: int, k: int, t1: Seq<Token>, t2: Seq<Token>)
    requires
        lexes_to(s, i, j, t1),
        lexes_to(s, j, k, t2),
    ensures
        lexes_to(s, i, k, t1 + t2),
{
    if let Ok(rest) = lex_from(s, k, Scan::Top) {
        assert(t1 + (t2 + rest) =~= (t1 + t2) + rest);
    }
}

proof fn lemma_nothing(s: Seq<char>, i: int)
    ensures
        lexes_to(s, i, i, Seq::empty()),
{
    if let Ok(rest) = lex_from(s, i, Scan::Top) {
        assert(Seq::<Token>::empty() + rest =~= rest);
    }
}

proof fn lemma_blank(s: Seq<char>, i: int)
    requires
        0 <= i < s.len(),
        is_blank(s[i]),
    ensures
        lexes_to(s, i, i + 1, Seq::empty()),
{
    lemma_nothing(s, i + 1);
}

/// `s` holds `a` then `b` from `i` on.
proof fn lemma_split(s: Seq<char>, i: int, a: Seq<char>, b: Seq<char>)
    requires
        0 <= i,
        i + a.len() + b.len() <= s.len(),
        s.subrange(i, i + a.len() + b.len()) == a + b,
    ensures
        s.subrange(i, i + a.len()) == a,
        s.subrange(i + a.len(), i + a.len() + b.len()) == b,
{
    assert(s.subrange(i, i + a.len()) =~= (a + b).subrange(0, a.len() as int));
    assert(s.subrange(i + a.len(), i + a.len() + b.len()) =~= (a + b).subrange(
        a.len() as int,
        (a.len() + b.len()) as int,
    ));
    assert((a + b).subrange(0, a.len() as int) =~= a);
    assert((a + b).subrange(a.len() as int, (a.len() + b.len()) as int) =~= b);
}

/// Not followed by a colon: at the end of `s`, or before another character.
pub open spec fn no_colon_at(s: Seq<char>, k: int) -> bool {
    k < s.len() ==> s[k] != ':'
}

proof fn lemma_byte(s: Seq<char>, i: int, b: u8, digits: Seq<char>)
    requires
        0 <= i,
        i + 2 <= s.len(),
        is_hex_pair(digits, b),
        s.subrange(i, i + 2) == digits,
        no_colon_at(s, i + 2),
    ensures
        lexes_to(s, i, i + 2, seq![Token::Byte(b)]),
{
    assert(s[i] == s.subrange(i, i + 2)[0]);
    assert(s[i + 1] == s.subrange(i, i + 2)[1]);
}

proof fn lemma_register_cell(s: Seq<char>, i: int, index: int, v: u8)
    requires
        0 <= i,
        0 <= index < 16,
        i + 6 <= s.len(),
        s.subrange(i, i + 6) == register_cell(index, v),
        no_colon_at(s, i + 6),
    ensures
        lexes_to(s, i, i + 6, seq![Token::Register(index as u8), Token::Byte(v)]),
{
    let cell = register_cell(index, v);
    lemma_hex_digits(index as u8);
    assert(s[i] == cell[0]);
    assert(s[i + 1] == cell[1]);
    assert(s[i + 2] == cell[2]);
    assert(s[i + 3] == cell[3]);
    lemma_split(s, i, seq!['R', hex_upper(index as u8), ':', ' '], hex2_lower(v));
    lemma_hex_pair(v);
    lemma_byte(s, i + 4, v, hex2_lower(v));
    lemma_blank(s, i + 3);
    lemma_compose(s, i + 3, i + 4, i + 6, Seq::empty(), seq![Token::Byte(v)]);
    assert(Seq::<Token>::empty() + seq![Token::Byte(v)] =~= seq![Token::Byte(v)]);
    lemma_compose(s, i, i + 3, i + 6, seq![Token::Register(index as u8)], seq![Token::Byte(v)]);
    assert(seq![Token::Register(index as u8)] + seq![Token::Byte(v)] =~= seq![
        Token::Register(index as u8),
        Token::Byte(v),
    ]);
}

/// The tokens of the first `n` cells of register row `row`.
pub open spec fn register_line_tokens(m: Machine, row: int, n: nat) -> Seq<Token>
    decreases n,
{
    if n == 0 {
        Seq::empty()
    } else {
        register_line_tokens(m, row, (n - 1) as nat) + seq![
            Token::Register((4 * row + n - 1) as u8),
            Token::Byte(m.registers[4 * row + n - 1]),
        ]
    }
}

/// The tokens of the register lines of the first `n` rows.
pub open spec fn register_tokens(m: Machine, n: int) -> Seq<Token>
    decreases n,
{
    if n <= 0 {
        Seq::empty()
    } else {
        register_tokens(m, n - 1) + register_line_tokens(m, n - 1, trimmed_len(register_row(m, n - 1)))
    }
}

/// The tokens of memory row `row`, trimmed to `n` bytes.
pub open spec fn memory_line_tokens(m: Machine, row: int, n: nat) -> Seq<Token> {
    seq![Token::Memory((16 * row) as u8)] + byte_tokens(memory_row(m, row).take(n as int))
}

/// The tokens of the memory lines of the first `n` rows.
pub open spec fn memory_tokens(m: Machine, n: int) -> Seq<Token>
    decreases n,
{
    if n <= 0 {
        Seq::empty()
    } else if trimmed_len(memory_row(m, n - 1)) == 0 {
        memory_tokens(m, n - 1)
    } else {
        memory_tokens(m, n - 1) + memory_line_tokens(m, n - 1, trimmed_len(memory_row(m, n - 1)))
    }
}

proof fn lemma_register_cells(s: Seq<char>, i: int, m: Machine, row: int, n: nat)
    requires
        m.registers.len() == 16,
        0 <= row < 4,
        n <= 4,
        0 <= i,
        i + join(register_cells(m, row, n), ' ').len() <= s.len(),
        s.subrange(i, i + join(register_cells(m, row, n), ' ').len()) == join(register_cells(m, row, n), ' '),
        no_colon_at(s, i + join(register_cells(m, row, n), ' ').len()),
    ensures
        lexes_to(s, i, i + join(register_cells(m, row, n), ' ').len(), register_line_tokens(m, row, n)),
    decreases n,
{
    let cells = register_cells(m, row, n);
    if n == 0 {
        lemma_nothing(s, i);
    } else {
        let pair = seq![Token::Register((4 * row + n - 1) as u8), Token::Byte(m.registers[4 * row + n - 1])];
        let last = register_cell(4 * row + n - 1, m.registers[4 * row + n - 1]);
        if n == 1 {
            assert(join(cells, ' ') == last);
            lemma_register_cell(s, i, 4 * row + n - 1, m.registers[4 * row + n - 1]);
            assert(register_line_tokens(m, row, 0) + pair =~= pair);
        } else {
            let front = join(register_cells(m, row, (n - 1) as nat), ' ');
            assert(cells.drop_last() =~= register_cells(m, row, (n - 1) as nat));
            assert(join(cells, ' ') == front.push(' ') + last);
            assert(front.push(' ') + last =~= front + (seq![' '] + last));
            lemma_split(s, i, front, seq![' '] + last);
            lemma_split(s, i + front.len(), seq![' '], last);
            assert(s[i + front.len()] == s.subrange(i + front.len(), i + front.len() + 1)[0]);
            lemma_register_cells(s, i, m, row, (n - 1) as nat);
            lemma_blank(s, i + front.len());
            lemma_register_cell(s, i + front.len() + 1, 4 * row + n - 1, m.registers[4 * row + n - 1]);
            lemma_compose(s, i, i + front.len(), i + front.len() + 1, register_line_tokens(m, row, (n - 1) as nat), Seq::empty());
            assert(register_line_tokens(m, row, (n - 1) as nat) + Seq::empty() =~= register_line_tokens(m, row, (n - 1) as nat));
            lemma_compose(s, i, i + front.len() + 1, i + front.len() + 7, register_line_tokens(m, row, (n - 1) as nat), pair);
        }
    }
}

/// An escape sequence of the report scans to nothing.
proof fn lemma_color_escape(s: Seq<char>, i: int)
    requires
        0 <= i,
        i + 5 <= s.len(),
        s.subrange(i, i + 5) == cyan_on() || s.subrange(i, i + 5) == cyan_off(),
    ensures
        lexes_to(s, i, i + 5, Seq::empty()),
{
    let e = s.subrange(i, i + 5);
    assert(s[i] == e[0]);
    assert(s[i + 1] == e[1]);
    assert(s[i + 2] == e[2]);
    assert(s[i + 3] == e[3]);
    assert(s[i + 4] == e[4]);
    assert(!is_escape_final(s[i + 2]));
    assert(!is_escape_final(s[i + 3]));
    assert(is_escape_final(s[i + 4]));
    assert(lex_from(s, i + 4, Scan::Escape) == lex_from(s, i + 5, Scan::Top));
    assert(lex_from(s, i + 3, Scan::Escape) == lex_from(s, i + 5, Scan::Top));
    assert(lex_from(s, i + 2, Scan::Escape) == lex_from(s, i + 5, Scan::Top));
    assert(lex_from(s, i, Scan::Top) == lex_from(s, i + 5, Scan::Top));
    lemma_nothing(s, i + 5);
}

proof fn lemma_memory_cell(s: Seq<char>, i: int, m: Machine, addr: int, color: bool)
    requires
        m.memory.len() == 256,
        0 <= addr < 256,
        0 <= i,
        i + memory_cell(m, addr, color).len() <= s.len(),
        s.subrange(i, i + memory_cell(m, addr, color).len()) == memory_cell(m, addr, color),
        no_colon_at(s, i + memory_cell(m, addr, color).len()),
    ensures
        lexes_to(s, i, i + memory_cell(m, addr, color).len(), seq![Token::Byte(m.memory[addr])]),
{
    let v = m.memory[addr];
    let digits = hex2_upper(v);
    lemma_hex_pair(v);
    if color && addr == pc_of(m) {
        lemma_split(s, i, cyan_on() + digits, cyan_off());
        lemma_split(s, i, cyan_on(), digits);
        lemma_color_escape(s, i);
        assert(s[i + 7] == s.subrange(i + 7, i + 12)[0]);
        lemma_byte(s, i + 5, v, digits);
        lemma_color_escape(s, i + 7);
        lemma_compose(s, i, i + 5, i + 7, Seq::empty(), seq![Token::Byte(v)]);
        assert(Seq::<Token>::empty() + seq![Token::Byte(v)] =~= seq![Token::Byte(v)]);
        lemma_compose(s, i, i + 7, i + 12, seq![Token::Byte(v)], Seq::empty());
        assert(seq![Token::Byte(v)] + Seq::<Token>::empty() =~= seq![Token::Byte(v)]);
    } else {
        lemma_byte(s, i, v, digits);
    }
}

proof fn lemma_memory_cells(s: Seq<char>, i: int, m: Machine, row: int, n: nat, color: bool)
    requires
        m.memory.len() == 256,
        0 <= row < 16,
        n <= 16,
        0 <= i,
        i + join(memory_cells(m, row, n, color), ' ').len() <= s.len(),
        s.subrange(i, i + join(memory_cells(m, row, n, color), ' ').len()) == join(
            memory_cells(m, row, n, color),
            ' ',
        ),
        no_colon_at(s, i + join(memory_cells(m, row, n, color), ' ').len()),
    ensures
        lexes_to(
            s,
            i,
            i + join(memory_cells(m, row, n, color), ' ').len(),
            byte_tokens(memory_row(m, row).take(n as int)),
        ),
    decreases n,
{
    let cells = memory_cells(m, row, n, color);
    let v = m.memory[16 * row + n - 1];
    if n == 0 {
        assert(byte_tokens(memory_row(m, row).take(0)) =~= Seq::<Token>::empty());
        lemma_nothing(s, i);
    } else {
        assert(byte_tokens(memory_row(m, row).take(n as int)) =~= byte_tokens(
            memory_row(m, row).take(n - 1),
        ) + seq![Token::Byte(v)]);
        let last = memory_cell(m, 16 * row + n - 1, color);
        if n == 1 {
            assert(join(cells, ' ') == last);
            lemma_memory_cell(s, i, m, 16 * row + n - 1, color);
            assert(byte_tokens(memory_row(m, row).take(0)) + seq![Token::Byte(v)] =~= seq![Token::Byte(v)]);
        } else {
            let front = join(memory_cells(m, row, (n - 1) as nat, color), ' ');
            assert(cells.drop_last() =~= memory_cells(m, row, (n - 1) as nat, color));
            assert(join(cells, ' ') == front.push(' ') + last);
            assert(front.push(' ') + last =~= front + (seq![' '] + last));
            lemma_split(s, i, front, seq![' '] + last);
            lemma_split(s, i + front.len(), seq![' '], last);
            assert(s[i + front.len()] == s.subrange(i + front.len(), i + front.len() + 1)[0]);
            lemma_memory_cells(s, i, m, row, (n - 1) as nat, color);
            lemma_blank(s, i + front.len());
            lemma_memory_cell(s, i + front.len() + 1, m, 16 * row + n - 1, color);
            let prev = byte_tokens(memory_row(m, row).take(n - 1));
            lemma_compose(s, i, i + front.len(), i + front.len() + 1, prev, Seq::empty());
            assert(prev + Seq::empty() =~= prev);
            lemma_compose(s, i, i + front.len() + 1, i + front.len() + 1 + last.len(), prev, seq![Token::Byte(v)]);
        }
    }
}

proof fn lemma_memory_line(s: Seq<char>, i: int, m: Machine, row: int, color: bool)
    requires
        m.memory.len() == 256,
        0 <= row < 16,
        0 <= i,
        i + memory_line(m, row, color).len() <= s.len(),
        s.subrange(i, i + memory_line(m, row, color).len()) == memory_line(m, row, color),
        no_colon_at(s, i + memory_line(m, row, color).len()),
    ensures
        lexes_to(
            s,
            i,
            i + memory_line(m, row, color).len(),
            memory_line_tokens(m, row, trimmed_len(memory_row(m, row))),
        ),
{
    let t = trimmed_len(memory_row(m, row));
    lemma_trimmed_len_bound(memory_row(m, row));
    let b = (16 * row) as u8;
    let head = hex2_upper(b) + seq![':', ' '];
    let body = join(memory_cells(m, row, t, color), ' ');
    lemma_split(s, i, head, body);
    lemma_hex_pair(b);
    assert(s[i] == head[0]);
    assert(s[i + 1] == head[1]);
    assert(s[i + 2] == head[2]);
    assert(s[i + 3] == head[3]);
    lemma_blank(s, i + 3);
    lemma_compose(s, i, i + 3, i + 4, seq![Token::Memory(b)], Seq::empty());
    assert(seq![Token::Memory(b)] + Seq::<Token>::empty() =~= seq![Token::Memory(b)]);
    lemma_memory_cells(s, i + 4, m, row, t, color);
    lemma_compose(s, i, i + 4, i + 4 + body.len(), seq![Token::Memory(b)], byte_tokens(memory_row(m, row).take(t as int)));
}

proof fn lemma_no_register_lines(m: Machine, n: int)
    ensures
        register_lines(m, n).len() == 0 ==> register_tokens(m, n) == Seq::<Token>::empty(),
    decreases n,
{
    if n > 0 {
        lemma_no_register_lines(m, n - 1);
        if trimmed_len(register_row(m, n - 1)) == 0 {
            assert(register_tokens(m, n) =~= register_tokens(m, n - 1));
        }
    }
}

proof fn lemma_no_memory_lines(m: Machine, n: int, color: bool)
    ensures
        memory_lines(m, n, color).len() == 0 ==> memory_tokens(m, n) == Seq::<Token>::empty(),
    decreases n,
{
    if n > 0 {
        lemma_no_memory_lines(m, n - 1, color);
    }
}

proof fn lemma_register_lines(s: Seq<char>, i: int, m: Machine, n: int)
    requires
        m.registers.len() == 16,
        0 <= n <= 4,
        0 <= i,
        i + join(register_lines(m, n), '\n').len() <= s.len(),
        s.subrange(i, i + join(register_lines(m, n), '\n').len()) == join(register_lines(m, n), '\n'),
        no_colon_at(s, i + join(register_lines(m, n), '\n').len()),
    ensures
        lexes_to(s, i, i + join(register_lines(m, n), '\n').len(), register_tokens(m, n)),
    decreases n,
{
    if n == 0 {
        lemma_nothing(s, i);
    } else {
        let t = trimmed_len(register_row(m, n - 1));
        lemma_trimmed_len_bound(register_row(m, n - 1));
        let prev = register_lines(m, n - 1);
        if t == 0 {
            assert(register_tokens(m, n) =~= register_tokens(m, n - 1));
            lemma_register_lines(s, i, m, n - 1);
        } else {
            let line = register_line(m, n - 1);
            let lines = register_lines(m, n);
            assert(lines.drop_last() =~= prev);
            if prev.len() == 0 {
                lemma_no_register_lines(m, n - 1);
                assert(join(lines, '\n') == line);
                lemma_register_cells(s, i, m, n - 1, t);
                assert(register_tokens(m, n) =~= register_line_tokens(m, n - 1, t));
            } else {
                let front = join(prev, '\n');
                assert(join(lines, '\n') == front.push('\n') + line);
                assert(front.push('\n') + line =~= front + (seq!['\n'] + line));
                lemma_split(s, i, front, seq!['\n'] + line);
                lemma_split(s, i + front.len(), seq!['\n'], line);
                assert(s[i + front.len()] == s.subrange(i + front.len(), i + front.len() + 1)[0]);
                lemma_register_lines(s, i, m, n - 1);
                lemma_blank(s, i + front.len());
                lemma_register_cells(s, i + front.len() + 1, m, n - 1, t);
                let pt = register_tokens(m, n - 1);
                lemma_compose(s, i, i + front.len(), i + front.len() + 1, pt, Seq::empty());
                assert(pt + Seq::empty() =~= pt);
                lemma_compose(s, i, i + front.len() + 1, i + front.len() + 1 + line.len(), pt, register_line_tokens(m, n - 1, t));
            }
        }
    }
}

proof fn lemma_memory_lines(s: Seq<char>, i: int, m: Machine, n: int, color: bool)
    requires
        m.memory.len() == 256,
        0 <= n <= 16,
        0 <= i,
        i + join(memory_lines(m, n, color), '\n').len() <= s.len(),
        s.subrange(i, i + join(memory_lines(m, n, color), '\n').len()) == join(memory_lines(m, n, color), '\n'),
        no_colon_at(s, i + join(memory_lines(m, n, color), '\n').len()),
    ensures
        lexes_to(s, i, i + join(memory_lines(m, n, color), '\n').len(), memory_tokens(m, n)),
    decreases n,
{
    if n == 0 {
        lemma_nothing(s, i);
    } else {
        let t = trimmed_len(memory_row(m, n - 1));
        let prev = memory_lines(m, n - 1, color);
        if t == 0 {
            lemma_memory_lines(s, i, m, n - 1, color);
        } else {
            let line = memory_line(m, n - 1, color);
            let lines = memory_lines(m, n, color);
            assert(lines.drop_last() =~= prev);
            if prev.len() == 0 {
                lemma_no_memory_lines(m, n - 1, color);
                assert(join(lines, '\n') == line);
                lemma_memory_line(s, i, m, n - 1, color);
                assert(memory_tokens(m, n) =~= memory_line_tokens(m, n - 1, t));
            } else {
                let front = join(prev, '\n');
                assert(join(lines, '\n') == front.push('\n') + line);
                assert(front.push('\n') + line =~= front + (seq!['\n'] + line));
                lemma_split(s, i, front, seq!['\n'] + line);
                lemma_split(s, i + front.len(), seq!['\n'], line);
                assert(s[i + front.len()] == s.subrange(i + front.len(), i + front.len() + 1)[0]);
                lemma_memory_lines(s, i, m, n - 1, color);
                lemma_blank(s, i + front.len());
                lemma_memory_line(s, i + front.len() + 1, m, n - 1, color);
                let pt = memory_tokens(m, n - 1);
                lemma_compose(s, i, i + front.len(), i + front.len() + 1, pt, Seq::empty());
                assert(pt + Seq::empty() =~= pt);
                lemma_compose(s, i, i + front.len() + 1, i + front.len() + 1 + line.len(), pt, memory_line_tokens(m, n - 1, t));
            }
        }
    }
}

/// The report of a machine, coloured or not, scans to its register tokens, then its memory tokens.
proof fn lemma_lex_render(m: Machine, color: bool)
    requires
        m.registers.len() == 16,
        m.memory.len() == 256,
    ensures
        lex_spec(render_spec(m, color)) == Ok::<Seq<Token>, Error>(register_tokens(m, 4) + memory_tokens(m, 16)),
{
    let s = render_spec(m, color);
    let a = join(register_lines(m, 4), '\n');
    let b: Seq<char> = if register_lines(m, 4).len() > 0 { seq!['\n'] } else { Seq::empty() };
    let d = join(memory_lines(m, 16, color), '\n');
    let p1 = a.len() as int;
    let p2 = p1 + b.len();
    let p3 = p2 + 1;
    assert(s == a + b + seq!['\n'] + d);
    assert(s.subrange(0, p1) =~= a);
    assert(s.subrange(p3, s.len() as int) =~= d);
    assert(s[p2] == '\n');
    assert(s[p1] == '\n');
    lemma_register_lines(s, 0, m, 4);
    lemma_memory_lines(s, p3, m, 16, color);
    let rt = register_tokens(m, 4);
    let mt = memory_tokens(m, 16);
    lemma_blank(s, p2);
    if b.len() > 0 {
        lemma_blank(s, p1);
        lemma_compose(s, p1, p2, p3, Seq::empty(), Seq::empty());
    } else {
        assert(Seq::<Token>::empty() + Seq::<Token>::empty() =~= Seq::<Token>::empty());
    }
    assert(Seq::<Token>::empty() + Seq::<Token>::empty() =~= Seq::<Token>::empty());
    lemma_compose(s, 0, p1, p3, rt, Seq::empty());
    assert(rt + Seq::empty() =~= rt);
    lemma_compose(s, 0, p3, s.len() as int, rt, mt);
    assert((rt + mt) + Seq::<Token>::empty() =~= rt + mt);
}

/// The sequence is empty or begins with a directive, so the cursor it starts from does not matter.
pub open spec fn starts_with_directive(ts: Seq<Token>) -> bool {
    ts.len() == 0 || ts[0] is Register || ts[0] is Memory
}

proof fn lemma_cursor_irrelevant(m: Machine, c1: Cursor, c2: Cursor, ts: Seq<Token>)
    requires
        starts_with_directive(ts),
    ensures
        load_from(m, c1, ts) == load_from(m, c2, ts),
{
}

proof fn lemma_zero_after_trim(row: Seq<u8>, k: int)
    requires
        trimmed_len(row) <= k < row.len(),
    ensures
        row[k] == 0,
    decreases row.len(),
{
    if row.last() == 0 && k < row.len() - 1 {
        lemma_zero_after_trim(row.drop_last(), k);
    }
}

proof fn lemma_register_line_starts(m: Machine, row: int, t: nat, rest: Seq<Token>)
    requires
        starts_with_directive(rest),
    ensures
        starts_with_directive(register_line_tokens(m, row, t) + rest),
    decreases t,
{
    if t > 0 {
        lemma_register_line_starts(m, row, (t - 1) as nat, rest);
        if t > 1 {
            assert((register_line_tokens(m, row, t) + rest)[0] == (register_line_tokens(m, row, (t - 1) as nat) + rest)[0]);
        }
    }
}

proof fn lemma_load_register_line(m: Machine, base: Machine, row: int, t: nat, c: Cursor, rest: Seq<Token>)
    requires
        m.registers.len() == 16,
        base.registers.len() == 16,
        0 <= row < 4,
        t <= 4,
        starts_with_directive(rest),
    ensures
        load_from(base, c, register_line_tokens(m, row, t) + rest) == load_from(
            with_registers(base, 4 * row, m.registers.subrange(4 * row, 4 * row + t)),
            Cursor { in_registers: true, pointer: 0 },
            rest,
        ),
    decreases t,
{
    let c0 = Cursor { in_registers: true, pointer: 0 };
    if t == 0 {
        assert(register_line_tokens(m, row, t) + rest =~= rest);
        assert(with_registers(base, 4 * row, m.registers.subrange(4 * row, 4 * row)).registers =~= base.registers);
        lemma_cursor_irrelevant(base, c, c0, rest);
    } else {
        let k = 4 * row + t - 1;
        let v = m.registers[k];
        let pair = seq![Token::Register(k as u8), Token::Byte(v)];
        assert(register_line_tokens(m, row, t) + rest =~= register_line_tokens(m, row, (t - 1) as nat) + (pair + rest));
        lemma_load_register_line(m, base, row, (t - 1) as nat, c, pair + rest);
        let m1 = with_registers(base, 4 * row, m.registers.subrange(4 * row, k));
        assert((pair + rest).drop_first()[0] == Token::Byte(v));
        assert((pair + rest).drop_first().drop_first() =~= rest);
        let m2 = Machine { registers: m1.registers.update(k, v), memory: m1.memory };
        let c1 = if k + 1 == 16 {
            Cursor { in_registers: false, pointer: 0 }
        } else {
            Cursor { in_registers: true, pointer: (k + 1) as nat }
        };
        let ck = Cursor { in_registers: true, pointer: k as nat };
        assert((pair + rest)[0] == Token::Register(k as u8));
        assert((k as u8) as nat == k);
        assert(load_from(m1, c0, pair + rest) == load_from(m1, ck, (pair + rest).drop_first()));
        assert(load_from(m1, ck, (pair + rest).drop_first()) == load_from(m2, c1, (pair + rest).drop_first().drop_first()));
        assert(load_from(m1, c0, pair + rest) == load_from(m2, c1, rest));
        lemma_cursor_irrelevant(m2, c1, c0, rest);
        assert(m2.registers =~= with_registers(base, 4 * row, m.registers.subrange(4 * row, 4 * row + t)).registers);
    }
}

/// The machine whose first `n` register rows are those of `m`, all else zero.
pub open spec fn registers_upto(m: Machine, n: int) -> Machine {
    Machine {
        registers: Seq::new(16, |k: int| if k < 4 * n { m.registers[k] } else { 0u8 }),
        memory: Seq::new(256, |k: int| 0u8),
    }
}

proof fn lemma_load_registers(m: Machine, n: int, rest: Seq<Token>)
    requires
        m.registers.len() == 16,
        0 <= n <= 4,
        starts_with_directive(rest),
    ensures
        load_from(registers_upto(m, 0), Cursor { in_registers: true, pointer: 0 }, register_tokens(m, n) + rest)
            == load_from(registers_upto(m, n), Cursor { in_registers: true, pointer: 0 }, rest),
    decreases n,
{
    let c0 = Cursor { in_registers: true, pointer: 0 };
    if n == 0 {
        assert(register_tokens(m, n) + rest =~= rest);
    } else {
        let row = n - 1;
        let t = trimmed_len(register_row(m, row));
        lemma_trimmed_len_bound(register_row(m, row));
        let line = register_line_tokens(m, row, t);
        assert(register_tokens(m, n) + rest =~= register_tokens(m, n - 1) + (line + rest));
        lemma_register_line_starts(m, row, t, rest);
        lemma_load_registers(m, n - 1, line + rest);
        lemma_load_register_line(m, registers_upto(m, n - 1), row, t, c0, rest);
        let after = with_registers(registers_upto(m, n - 1), 4 * row, m.registers.subrange(4 * row, 4 * row + t));
        assert forall|k: int| 0 <= k < 16 implies after.registers[k] == registers_upto(m, n).registers[k] by {
            if 4 * row + t <= k < 4 * n {
                assert(register_row(m, row)[k - 4 * row] == m.registers[k]);
                lemma_zero_after_trim(register_row(m, row), k - 4 * row);
            }
        }
        assert(after.registers =~= registers_upto(m, n).registers);
        assert(after.memory =~= registers_upto(m, n).memory);
    }
}

/// The machine with the registers of `m` and its first `n` memory rows, all else zero.
pub open spec fn memory_upto(m: Machine, n: int) -> Machine {
    Machine {
        registers: m.registers,
        memory: Seq::new(256, |k: int| if k < 16 * n { m.memory[k] } else { 0u8 }),
    }
}

proof fn lemma_memory_starts(m: Machine, n: int)
    ensures
        starts_with_directive(memory_tokens(m, n)),
    decreases n,
{
    if n > 0 {
        lemma_memory_starts(m, n - 1);
        let t = trimmed_len(memory_row(m, n - 1));
        if t != 0 && memory_tokens(m, n - 1).len() > 0 {
            assert(memory_tokens(m, n)[0] == memory_tokens(m, n - 1)[0]);
        }
    }
}

proof fn lemma_load_memory(m: Machine, n: int, rest: Seq<Token>)
    requires
        m.registers.len() == 16,
        m.memory.len() == 256,
        0 <= n <= 16,
        starts_with_directive(rest),
    ensures
        load_from(memory_upto(m, 0), Cursor { in_registers: true, pointer: 0 }, memory_tokens(m, n) + rest)
            == load_from(memory_upto(m, n), Cursor { in_registers: true, pointer: 0 }, rest),
    decreases n,
{
    let c0 = Cursor { in_registers: true, pointer: 0 };
    if n == 0 {
        assert(memory_tokens(m, n) + rest =~= rest);
    } else {
        let row = n - 1;
        let t = trimmed_len(memory_row(m, row));
        lemma_trimmed_len_bound(memory_row(m, row));
        let before = memory_upto(m, row);
        if t == 0 {
            lemma_load_memory(m, n - 1, rest);
            assert forall|k: int| 0 <= k < 256 implies before.memory[k] == memory_upto(m, n).memory[k] by {
                if 16 * row <= k < 16 * n {
                    assert(memory_row(m, row)[k - 16 * row] == m.memory[k]);
                    lemma_zero_after_trim(memory_row(m, row), k - 16 * row);
                }
            }
            assert(before.memory =~= memory_upto(m, n).memory);
        } else {
            let bytes = memory_row(m, row).take(t as int);
            let line = memory_line_tokens(m, row, t);
            assert(memory_tokens(m, n) + rest =~= memory_tokens(m, n - 1) + (line + rest));
            lemma_load_memory(m, n - 1, line + rest);
            let cm = Cursor { in_registers: false, pointer: (16 * row) as nat };
            assert((line + rest)[0] == Token::Memory((16 * row) as u8));
            assert((line + rest).drop_first() =~= byte_tokens(bytes) + rest);
            assert(load_from(before, c0, line + rest) == load_from(before, cm, byte_tokens(bytes) + rest));
            lemma_fill_memory(before, (16 * row) as nat, bytes, rest);
            let after = with_memory(before, 16 * row, bytes);
            lemma_cursor_irrelevant(after, Cursor { in_registers: false, pointer: (16 * row + t) as nat }, c0, rest);
            assert forall|k: int| 0 <= k < 256 implies after.memory[k] == memory_upto(m, n).memory[k] by {
                if 16 * row <= k < 16 * n {
                    assert(memory_row(m, row)[k - 16 * row] == m.memory[k]);
                    if k >= 16 * row + t {
                        lemma_zero_after_trim(memory_row(m, row), k - 16 * row);
                    }
                }
            }
            assert(after.memory =~= memory_upto(m, n).memory);
        }
    }
}

/// Parsing the report of a machine, coloured or not, gives back that machine.
pub proof fn lemma_render_parse_round_trip(m: Machine, color: bool)
    requires
        m.registers.len() == 16,
        m.memory.len() == 256,
    ensures
        parse_spec(render_spec(m, color)) == Ok::<Machine, Error>(m),
{
    lemma_lex_render(m, color);
    let rt = register_tokens(m, 4);
    let mt = memory_tokens(m, 16);
    let c0 = Cursor { in_registers: true, pointer: 0 };
    lemma_memory_starts(m, 16);
    assert(crate::computer::zeroed() == registers_upto(m, 0)) by {
        assert(crate::computer::zeroed().registers =~= registers_upto(m, 0).registers);
        assert(crate::computer::zeroed().memory =~= registers_upto(m, 0).memory);
    }
    lemma_load_registers(m, 4, mt);
    assert(registers_upto(m, 4) == memory_upto(m, 0)) by {
        assert(registers_upto(m, 4).registers =~= memory_upto(m, 0).registers);
        assert(registers_upto(m, 4).memory =~= memory_upto(m, 0).memory);
    }
    assert(mt =~= mt + Seq::<Token>::empty());
    lemma_load_memory(m, 16, Seq::empty());
    assert(memory_upto(m, 16) == m) by {
        assert(memory_upto(m, 16).memory =~= m.memory);
    }
}

/// `d` is two hex digits, of either case, that spell `b`.
pub open spec fn is_hex_pair(d: Seq<char>, b: u8) -> bool {
    d.len() == 2 && is_hex_digit(d[0]) && is_hex_digit(d[1]) && hex_byte(d[0], d[1]) == b
}

/// `ds` spells the bytes `bs` one pair of hex digits each.
pub open spec fn spells(ds: Seq<Seq<char>>, bs: Seq<u8>) -> bool {
    ds.len() == bs.len() && forall|k: int| 0 <= k < ds.len() ==> is_hex_pair(#[trigger] ds[k], bs[k])
}

/// Each pair of digits after a space, in order.
pub open spec fn bytes_text(ds: Seq<Seq<char>>) -> Seq<char>
    decreases ds.len(),
{
    if ds.len() == 0 {
        Seq::empty()
    } else {
        bytes_text(ds.drop_last()) + seq![' '] + ds.last()
    }
}

/// `R0:` followed by the spelled bytes.
pub open spec fn register_text(ds: Seq<Seq<char>>) -> Seq<char> {
    seq!['R', '0', ':'] + bytes_text(ds)
}

proof fn lemma_spells_prefix(ds: Seq<Seq<char>>, bs: Seq<u8>)
    requires
        spells(ds, bs),
        ds.len() > 0,
    ensures
        spells(ds.drop_last(), bs.drop_last()),
        is_hex_pair(ds.last(), bs.last()),
{
    assert forall|k: int| 0 <= k < ds.len() - 1 implies is_hex_pair(#[trigger] ds.drop_last()[k], bs.drop_last()[k]) by {
        assert(is_hex_pair(ds[k], bs[k]));
    }
    assert(is_hex_pair(ds[ds.len() - 1], bs[bs.len() - 1]));
}

proof fn lemma_bytes_text_len(ds: Seq<Seq<char>>, bs: Seq<u8>)
    requires
        spells(ds, bs),
    ensures
        bytes_text(ds).len() == 3 * bs.len(),
    decreases ds.len(),
{
    if ds.len() > 0 {
        lemma_spells_prefix(ds, bs);
        lemma_bytes_text_len(ds.drop_last(), bs.drop_last());
    }
}

proof fn lemma_lex_bytes_text(s: Seq<char>, i: int, ds: Seq<Seq<char>>, bs: Seq<u8>)
    requires
        spells(ds, bs),
        0 <= i,
        i + 3 * bs.len() <= s.len(),
        s.subrange(i, i + 3 * bs.len()) == bytes_text(ds),
        no_colon_at(s, i + 3 * bs.len()),
    ensures
        lexes_to(s, i, i + 3 * bs.len(), byte_tokens(bs)),
    decreases bs.len(),
{
    if bs.len() == 0 {
        assert(byte_tokens(bs) =~= Seq::<Token>::empty());
        lemma_nothing(s, i);
    } else {
        lemma_spells_prefix(ds, bs);
        let prev = bs.drop_last();
        let v = bs.last();
        let d = ds.last();
        let front = bytes_text(ds.drop_last());
        lemma_bytes_text_len(ds.drop_last(), prev);
        let p = i + 3 * prev.len();
        assert(bytes_text(ds) =~= front + (seq![' '] + d));
        lemma_split(s, i, front, seq![' '] + d);
        lemma_split(s, p, seq![' '], d);
        assert(s[p] == s.subrange(p, p + 1)[0]);
        lemma_lex_bytes_text(s, i, ds.drop_last(), prev);
        lemma_blank(s, p);
        lemma_byte(s, p + 1, v, d);
        let pt = byte_tokens(prev);
        lemma_compose(s, i, p, p + 1, pt, Seq::empty());
        assert(pt + Seq::empty() =~= pt);
        lemma_compose(s, i, p + 1, p + 3, pt, seq![Token::Byte(v)]);
        assert(byte_tokens(bs) =~= pt + seq![Token::Byte(v)]);
    }
}

proof fn lemma_lex_register_text(ds: Seq<Seq<char>>, bs: Seq<u8>)
    requires
        spells(ds, bs),
    ensures
        lex_spec(register_text(ds)) == Ok::<Seq<Token>, Error>(seq![Token::Register(0)] + byte_tokens(bs)),
{
    let s = register_text(ds);
    lemma_bytes_text_len(ds, bs);
    let n = (3 * bs.len()) as int;
    assert(s.subrange(3, 3 + n) =~= bytes_text(ds));
    lemma_lex_bytes_text(s, 3, ds, bs);
    lemma_hex_digits(0);
    assert(s[0] == 'R' && s[1] == '0' && s[2] == ':');
    assert(hex_upper(0) == '0');
    assert(lex_from(s, 0, Scan::Top) == prepend(seq![Token::Register(0)], lex_from(s, 3, Scan::Top)));
    lemma_compose(s, 0, 3, 3 + n, seq![Token::Register(0)], byte_tokens(bs));
    assert((seq![Token::Register(0)] + byte_tokens(bs)) + Seq::<Token>::empty() =~= seq![Token::Register(0)]
        + byte_tokens(bs));
}

/// `R0:` followed by up to sixteen bytes, each written as two hex digits of
/// either case, sets registers 0 onward to those bytes in order; the other
/// registers and all of memory stay zero.
pub proof fn lemma_parse_register_text(ds: Seq<Seq<char>>, bs: Seq<u8>)
    requires
        spells(ds, bs),
        bs.len() <= 16,
    ensures
        parse_spec(register_text(ds)) == Ok::<Machine, Error>(
            Machine {
                registers: Seq::new(16, |i: int| if i < bs.len() { bs[i] } else { 0u8 }),
                memory: crate::computer::zeroed().memory,
            },
        ),
{
    lemma_lex_register_text(ds, bs);
    lemma_registers_from_zero(bs);
}

/// `R0:` followed by sixteen or more bytes, each written as two hex digits of
/// either case, fills the registers, then switches once to memory at address 0
/// and fills memory in order; the rest stays zero.
pub proof fn lemma_parse_register_text_into_memory(ds: Seq<Seq<char>>, bs: Seq<u8>)
    requires
        spells(ds, bs),
        16 <= bs.len() <= 16 + 256,
    ensures
        parse_spec(register_text(ds)) == Ok::<Machine, Error>(
            Machine {
                registers: bs.take(16),
                memory: Seq::new(256, |i: int| if i < bs.len() - 16 { bs[i + 16] } else { 0u8 }),
            },
        ),
{
    lemma_lex_register_text(ds, bs);
    lemma_bytes_cross_into_memory(bs);
    let ts = seq![Token::Register(0)] + byte_tokens(bs);
    assert(ts.drop_first() =~= byte_tokens(bs));
}

} // verus!
