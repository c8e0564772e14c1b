//! The two-block text report of a machine: trimmed register rows, then
//! trimmed memory rows, optionally with the byte at the program counter coloured.
use crate::computer::{pc_of, Computer, Machine};
use owo_colors::OwoColorize;
use vstd::prelude::*;

verus! {

/// A hex digit in upper case.
pub open spec fn hex_upper(v: u8) -> char {
    if v < 10 {
        ((48 + v) as u8) as char
    } else {
        ((55 + v) as u8) as char
    }
}

/// A hex digit in lower case.
pub open spec fn hex_lower(v: u8) -> char {
    if v < 10 {
        ((48 + v) as u8) as char
    } else {
        ((87 + v) as u8) as char
    }
}

pub open spec fn hex2_upper(b: u8) -> Seq<char> {
    seq![hex_upper(b / 16), hex_upper(b % 16)]
}

pub open spec fn hex2_lower(b: u8) -> Seq<char> {
    seq![hex_lower(b / 16), hex_lower(b % 16)]
}

/// The escape sequence that turns the foreground bright cyan.
pub open spec fn cyan_on() -> Seq<char> {
    seq!['\x1b', '[', '9', '6', 'm']
}

/// The escape sequence that restores the default foreground.
pub open spec fn cyan_off() -> Seq<char> {
    seq!['\x1b', '[', '3', '9', 'm']
}

/// The length of `row` without its trailing zeros.
pub open spec fn trimmed_len(row: Seq<u8>) -> nat
    decreases row.len(),
{
    if row.len() == 0 {
        0
    } else if row.last() != 0 {
        row.len()
    } else {
        trimmed_len(row.drop_last())
    }
}

/// The parts with `sep` between each two of them.
pub open spec fn join(parts: Seq<Seq<char>>, sep: char) -> Seq<char>
    decreases parts.len(),
{
    if parts.len() == 0 {
        Seq::empty()
    } else if parts.len() == 1 {
        parts[0]
    } else {
        join(parts.drop_last(), sep).push(sep) + parts.last()
    }
}

pub open spec fn register_row(m: Machine, i: int) -> Seq<u8> {
    m.registers.subrange(4 * i, 4 * i + 4)
}

pub open spec fn memory_row(m: Machine, i: int) -> Seq<u8> {
    m.memory.subrange(16 * i, 16 * i + 16)
}

/// `R<index>: <value>`, the index as one upper-case digit, the value as two lower-case ones.
pub open spec fn register_cell(index: int, value: u8) -> Seq<char> {
    seq!['R', hex_upper(index as u8), ':', ' '] + hex2_lower(value)
}

pub open spec fn register_cells(m: Machine, i: int, n: nat) -> Seq<Seq<char>> {
    Seq::new(n, |j: int| register_cell(4 * i + j, m.registers[4 * i + j]))
}

pub open spec fn register_line(m: Machine, i: int) -> Seq<char> {
    join(register_cells(m, i, trimmed_len(register_row(m, i))), ' ')
}

/// The lines of the first `n` register rows, all-zero rows left out.
pub open spec fn register_lines(m: Machine, n: int) -> Seq<Seq<char>>
    decreases n,
{
    if n <= 0 {
        Seq::empty()
    } else if trimmed_len(register_row(m, n - 1)) == 0 {
        register_lines(m, n - 1)
    } else {
        register_lines(m, n - 1).push(register_line(m, n - 1))
    }
}

/// A memory byte as two upper-case digits, coloured at the program counter when asked.
pub open spec fn memory_cell(m: Machine, addr: int, color: bool) -> Seq<char> {
    if color && addr == pc_of(m) {
        cyan_on() + hex2_upper(m.memory[addr]) + cyan_off()
    } else {
        hex2_upper(m.memory[addr])
    }
}

pub open spec fn memory_cells(m: Machine, i: int, n: nat, color: bool) -> Seq<Seq<char>> {
    Seq::new(n, |j: int| memory_cell(m, 16 * i + j, color))
}

/// `<address>: <bytes>`, the row's first address as two upper-case digits.
pub open spec fn memory_line(m: Machine, i: int, color: bool) -> Seq<char> {
    hex2_upper((16 * i) as u8) + seq![':', ' '] + join(
        memory_cells(m, i, trimmed_len(memory_row(m, i)), color),
        ' ',
    )
}

/// The lines of the first `n` memory rows, all-zero rows left out.
pub open spec fn memory_lines(m: Machine, n: int, color: bool) -> Seq<Seq<char>>
    decreases n,
{
    if n <= 0 {
        Seq::empty()
    } else if trimmed_len(memory_row(m, n - 1)) == 0 {
        memory_lines(m, n - 1, color)
    } else {
        memory_lines(m, n - 1, color).push(memory_line(m, n - 1, color))
    }
}

/// The whole report: register lines, a blank line, memory lines.
pub open spec fn render_spec(m: Machine, color: bool) -> Seq<char> {
    let regs = register_lines(m, 4);
    join(regs, '\n') + (if regs.len() > 0 {
        seq!['\n']
    } else {
        Seq::empty()
    }) + seq!['\n'] + join(memory_lines(m, 16, color), '\n')
}

/// Relies on owo_colors' `bright_cyan` under `{:02X}`: the two upper-case hex
/// digits of `b` between the bright-cyan and the default-foreground escapes.
#[verifier::external_body]
fn bright_cyan_hex(b: u8) -> (r: String)
    ensures
        r@ == cyan_on() + hex2_upper(b) + cyan_off(),
{
    format!("{:02X}", b.bright_cyan())
}

/// Relies on std's `FromIterator<char>` for `String`: the characters in order.
#[verifier::external_body]
fn string_of(chars: &Vec<char>) -> (r: String)
    ensures
        r@ == chars@,
{
    chars.iter().collect()
}

fn hex_upper_char(v: u8) -> (c: char)
    requires
        v < 16,
    ensures
        c == hex_upper(v),
{
    if v < 10 {
        (48 + v) as char
    } else {
        (55 + v) as char
    }
}

fn hex_lower_char(v: u8) -> (c: char)
    requires
        v < 16,
    ensures
        c == hex_lower(v),
{
    if v < 10 {
        (48 + v) as char
    } else {
        (87 + v) as char
    }
}

/// The length of `values[start..start + width]` without its trailing zeros.
fn trimmed(values: &[u8], start: usize, width: usize) -> (n: usize)
    requires
        start + width <= values@.len(),
        values@.len() <= usize::MAX,
    ensures
        n == trimmed_len(values@.subrange(start as int, start + width)),
{
    let ghost row = values@.subrange(start as int, start + width);
    let mut n = width;
    assert(row.take(n as int) =~= row);
    while n > 0 && values[start + n - 1] == 0
        invariant
            n <= width,
            start + width <= values@.len(),
            values@.len() <= usize::MAX,
            row == values@.subrange(start as int, start + width),
            trimmed_len(row) == trimmed_len(row.take(n as int)),
        decreases n,
    {
        assert(row.take(n as int).drop_last() =~= row.take(n - 1));
        n = n - 1;
    }
    n
}

fn push_str(out: &mut Vec<char>, s: &str)
    ensures
        final(out)@ == old(out)@ + s@,
{
    let n = s.unicode_len();
    let mut k: usize = 0;
    while k < n
        invariant
            n == s@.len(),
            k <= n,
            out@ == old(out)@ + s@.take(k as int),
        decreases n - k,
    {
        out.push(s.get_char(k));
        assert(old(out)@ + s@.take(k + 1) =~= (old(out)@ + s@.take(k as int)).push(s@[k as int]));
        k = k + 1;
    }
    assert(s@.take(n as int) =~= s@);
}

pub proof fn lemma_trimmed_len_bound(row: Seq<u8>)
    ensures
        trimmed_len(row) <= row.len(),
    decreases row.len(),
{
    if row.len() > 0 {
        lemma_trimmed_len_bound(row.drop_last());
    }
}

proof fn lemma_join_next(parts: Seq<Seq<char>>, sep: char)
    requires
        parts.len() >= 2,
    ensures
        join(parts, sep) == join(parts.drop_last(), sep).push(sep) + parts.last(),
{
}

impl Computer {
    /// The text of the register row `i`, trimmed after its last non-zero register.
    fn register_line_text(&self, i: usize, last: usize) -> (line: Vec<char>)
        requires
            i < 4,
            last == trimmed_len(register_row(self@, i as int)),
        ensures
            line@ == register_line(self@, i as int),
    {
        let ghost m = self@;
        proof {
            lemma_trimmed_len_bound(register_row(m, i as int));
        }
        let mut line: Vec<char> = Vec::new();
        let mut j: usize = 0;
        while j < last
            invariant
                i < 4,
                last <= 4,
                m == self@,
                j <= last,
                line@ == join(register_cells(m, i as int, j as nat), ' '),
            decreases last - j,
        {
            if j > 0 {
                line.push(' ');
            }
            let index = (i * 4 + j) as u8;
            let value = self.registers[i * 4 + j];
            line.push('R');
            line.push(hex_upper_char(index));
            line.push(':');
            line.push(' ');
            line.push(hex_lower_char(value / 16));
            line.push(hex_lower_char(value % 16));
            proof {
                let cells = register_cells(m, i as int, (j + 1) as nat);
                assert(cells.drop_last() =~= register_cells(m, i as int, j as nat));
                if j > 0 {
                    lemma_join_next(cells, ' ');
                }
                assert(line@ =~= join(cells, ' '));
            }
            j = j + 1;
        }
        line
    }

    /// The text of the memory row `i`, trimmed after its last non-zero byte.
    fn memory_line_text(&self, i: usize, last: usize, color: bool) -> (line: Vec<char>)
        requires
            i < 16,
            last == trimmed_len(memory_row(self@, i as int)),
        ensures
            line@ == memory_line(self@, i as int, color),
    {
        let ghost m = self@;
        proof {
            lemma_trimmed_len_bound(memory_row(m, i as int));
        }
        let mut line: Vec<char> = Vec::new();
        let base = (i * 16) as u8;
        line.push(hex_upper_char(base / 16));
        line.push(hex_upper_char(base % 16));
        line.push(':');
        line.push(' ');
        let ghost head = line@;
        let mut j: usize = 0;
        while j < last
            invariant
                i < 16,
                last <= 16,
                m == self@,
                j <= last,
                base == (16 * i) as u8,
                head == hex2_upper(base) + seq![':', ' '],
                line@ == head + join(memory_cells(m, i as int, j as nat, color), ' '),
            decreases last - j,
        {
            if j > 0 {
                line.push(' ');
            }
            let addr = i * 16 + j;
            let byte = self.memory[addr];
            if color && addr == self.registers[crate::PC] as usize {
                let s = bright_cyan_hex(byte);
                push_str(&mut line, s.as_str());
            } else {
                line.push(hex_upper_char(byte / 16));
                line.push(hex_upper_char(byte % 16));
            }
            proof {
                let cells = memory_cells(m, i as int, (j + 1) as nat, color);
                assert(cells.drop_last() =~= memory_cells(m, i as int, j as nat, color));
                if j > 0 {
                    lemma_join_next(cells, ' ');
                }
                assert(line@ =~= head + join(cells, ' '));
            }
            j = j + 1;
        }
        assert(head =~= hex2_upper((16 * i) as u8) + seq![':', ' ']);
        line
    }

    /// The report of this machine; with `color`, the byte at the program
    /// counter is wrapped in bright-cyan escapes.
    pub fn render(&self, color: bool) -> (r: String)
        ensures
            r@ == render_spec(self@, color),
    {
        let ghost m = self@;
        let mut out: Vec<char> = Vec::new();
        let mut printed: usize = 0;
        let mut i: usize = 0;
        while i < 4
            invariant
                i <= 4,
                m == self@,
                printed == register_lines(m, i as int).len(),
                printed <= i,
                out@ == join(register_lines(m, i as int), '\n'),
            decreases 4 - i,
        {
            let last = trimmed(self.registers.as_slice(), i * 4, 4);
            if last > 0 {
                if printed > 0 {
                    out.push('\n');
                }
                let mut line = self.register_line_text(i, last);
                out.append(&mut line);
                proof {
                    let lines = register_lines(m, i + 1);
                    assert(lines.drop_last() =~= register_lines(m, i as int));
                    if printed > 0 {
                        lemma_join_next(lines, '\n');
                    }
                }
                printed = printed + 1;
            }
            i = i + 1;
        }
        if printed > 0 {
            out.push('\n');
        }
        out.push('\n');
        let ghost head = out@;
        let mut printed: usize = 0;
        let mut i: usize = 0;
        while i < 16
            invariant
                i <= 16,
                m == self@,
                printed == memory_lines(m, i as int, color).len(),
                printed <= i,
                out@ == head + join(memory_lines(m, i as int, color), '\n'),
            decreases 16 - i,
        {
            let last = trimmed(self.memory.as_slice(), i * 16, 16);
            if last > 0 {
                if printed > 0 {
                    out.push('\n');
                }
                let mut line = self.memory_line_text(i, last, color);
                out.append(&mut line);
                proof {
                    let lines = memory_lines(m, i + 1, color);
                    assert(lines.drop_last() =~= memory_lines(m, i as int, color));
                    if printed > 0 {
                        lemma_join_next(lines, '\n');
                    }
                }
                printed = printed + 1;
            }
            i = i + 1;
        }
        assert(out@ =~= render_spec(m, color));
        string_of(&out)
    }
}

} // verus!
