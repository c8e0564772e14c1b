//! A one-pass scanner from text to tokens, with one character of lookahead.
use crate::token::{Error, Token};
use vstd::prelude::*;
use vstd::std_specs::iter::IteratorSpec;

verus! {

broadcast use vstd::string::axiom_spec_iter, vstd::string::next_postcondition;

/// Where the scanner stands between two characters.
pub enum Scan {
    /// Between tokens.
    Top,
    /// Inside a `#` comment, which runs to the end of its line.
    Comment,
    /// Inside an ANSI escape sequence, after its `ESC [`.
    Escape,
}

pub open spec fn is_hex_digit(c: char) -> bool {
    ('0' <= c && c <= '9') || ('a' <= c && c <= 'f') || ('A' <= c && c <= 'F')
}

pub open spec fn hex_value(c: char) -> u8 {
    if '0' <= c && c <= '9' {
        (c as u32 - '0' as u32) as u8
    } else if 'a' <= c && c <= 'f' {
        (c as u32 - 'a' as u32 + 10) as u8
    } else {
        (c as u32 - 'A' as u32 + 10) as u8
    }
}

/// A byte written as two hex digits.
pub open spec fn hex_byte(hi: char, lo: char) -> u8 {
    (hex_value(hi) * 16 + hex_value(lo)) as u8
}

/// The last character of an escape sequence lies in 0x40..=0x7E.
pub open spec fn is_escape_final(c: char) -> bool {
    '\u{40}' <= c && c <= '\u{7e}'
}

pub open spec fn is_blank(c: char) -> bool {
    c == ' ' || c == '\n' || c == '\r'
}

/// Number of newlines before position `i`.
pub open spec fn line_at(s: Seq<char>, i: int) -> int
    decreases i,
{
    if i <= 0 {
        0
    } else {
        line_at(s, i - 1) + if s[i - 1] == '\n' { 1int } else { 0int }
    }
}

/// Number of characters between the last newline before `i` and `i`.
pub open spec fn column_at(s: Seq<char>, i: int) -> int
    decreases i,
{
    if i <= 0 {
        0
    } else if s[i - 1] == '\n' {
        0
    } else {
        column_at(s, i - 1) + 1
    }
}

/// The error for an unexpected character at position `i`, counted from 1.
pub open spec fn unexpected(s: Seq<char>, i: int) -> Error {
    Error::LexError {
        line: (line_at(s, i) + 1) as usize,
        column: (column_at(s, i) + 1) as usize,
        character: s[i],
    }
}

/// `ts` in front of a successful result; errors pass through.
pub open spec fn prepend(ts: Seq<Token>, r: Result<Seq<Token>, Error>) -> Result<Seq<Token>, Error> {
    match r {
        Ok(rest) => Ok(ts + rest),
        Err(e) => Err(e),
    }
}

/// The tokens of `s` from position `i` on, when the scanner stands there in `mode`.
pub open spec fn lex_from(s: Seq<char>, i: int, mode: Scan) -> Result<Seq<Token>, Error>
    decreases s.len() - i,
{
    if i < 0 || i >= s.len() {
        match mode {
            Scan::Escape => Err(Error::UnexpectedEnd),
            _ => Ok(Seq::empty()),
        }
    } else {
        let c = s[i];
        match mode {
            Scan::Comment => if c == '\n' {
                lex_from(s, i + 1, Scan::Top)
            } else {
                lex_from(s, i + 1, Scan::Comment)
            },
            Scan::Escape => if is_escape_final(c) {
                lex_from(s, i + 1, Scan::Top)
            } else {
                lex_from(s, i + 1, Scan::Escape)
            },
            Scan::Top => if c == 'R' {
                if i + 1 >= s.len() {
                    Err(Error::UnexpectedEnd)
                } else if !is_hex_digit(s[i + 1]) {
                    Err(unexpected(s, i + 1))
                } else if i + 2 >= s.len() {
                    Err(Error::UnexpectedEnd)
                } else if s[i + 2] != ':' {
                    Err(unexpected(s, i + 2))
                } else {
                    prepend(seq![Token::Register(hex_value(s[i + 1]))], lex_from(s, i + 3, Scan::Top))
                }
            } else if is_hex_digit(c) {
                if i + 1 >= s.len() {
                    Err(Error::UnexpectedEnd)
                } else if !is_hex_digit(s[i + 1]) {
                    Err(Error::MalformedHexByte)
                } else if i + 2 < s.len() && s[i + 2] == ':' {
                    prepend(seq![Token::Memory(hex_byte(c, s[i + 1]))], lex_from(s, i + 3, Scan::Top))
                } else {
                    prepend(seq![Token::Byte(hex_byte(c, s[i + 1]))], lex_from(s, i + 2, Scan::Top))
                }
            } else if c == '#' {
                lex_from(s, i + 1, Scan::Comment)
            } else if is_blank(c) {
                lex_from(s, i + 1, Scan::Top)
            } else if c == '\x1b' {
                if i + 1 >= s.len() {
                    Err(Error::UnexpectedEnd)
                } else if s[i + 1] != '[' {
                    Err(unexpected(s, i + 1))
                } else {
                    lex_from(s, i + 2, Scan::Escape)
                }
            } else {
                Err(unexpected(s, i))
            },
        }
    }
}

/// The tokens of a whole text.
pub open spec fn lex_spec(s: Seq<char>) -> Result<Seq<Token>, Error> {
    lex_from(s, 0, Scan::Top)
}

/// The value of a hex digit, or `None` for any other character.
pub fn hex_digit(c: char) -> (r: Option<u8>)
    ensures
        r == (if is_hex_digit(c) { Some(hex_value(c)) } else { None::<u8> }),
{
    if '0' <= c && c <= '9' {
        Some((c as u32 - '0' as u32) as u8)
    } else if 'a' <= c && c <= 'f' {
        Some((c as u32 - 'a' as u32 + 10) as u8)
    } else if 'A' <= c && c <= 'F' {
        Some((c as u32 - 'A' as u32 + 10) as u8)
    } else {
        None
    }
}

/// A cursor over the characters of a text, tracking line and column.
pub struct Lexer {
    chars: Vec<char>,
    pos: usize,
    line: usize,
    column: usize,
}

impl Lexer {
    /// The characters being scanned.
    pub closed spec fn text(&self) -> Seq<char> {
        self.chars@
    }

    /// The position of the next character.
    pub closed spec fn position(&self) -> int {
        self.pos as int
    }

    pub closed spec fn wf(&self) -> bool {
        &&& self.pos <= self.chars.len()
        &&& self.line == line_at(self.chars@, self.pos as int)
        &&& self.column == column_at(self.chars@, self.pos as int)
        &&& self.line <= self.pos
        &&& self.column <= self.pos
    }

    /// A cursor at the start of `src`.
    pub fn new(src: &str) -> (r: Lexer)
        ensures
            r.wf(),
            r.text() == src@,
            r.position() == 0,
    {
        let n = src.unicode_len();
        let mut it = src.chars();
        let mut chars: Vec<char> = Vec::new();
        assert(src@.skip(0) =~= src@);
        while chars.len() < n
            invariant
                n == src@.len(),
                chars.len() <= n,
                chars@ == src@.take(chars.len() as int),
                it.remaining() == src@.skip(chars.len() as int),
            decreases n - chars.len(),
        {
            match it.next() {
                Some(c) => {
                    chars.push(c);
                    assert(chars@ =~= src@.take(chars.len() as int));
                    assert(it.remaining() =~= src@.skip(chars.len() as int));
                },
                None => {
                    assert(src@.skip(chars.len() as int).len() > 0);
                    assert(false);
                },
            }
        }
        assert(chars@ =~= src@);
        Lexer { chars, pos: 0, line: 0, column: 0 }
    }

    /// The tokens of `src`, or the first error met.
    pub fn lex(src: &str) -> (r: Result<Vec<Token>, Error>)
        ensures
            match r {
                Ok(ts) => lex_spec(src@) == Ok::<Seq<Token>, Error>(ts@),
                Err(e) => lex_spec(src@) == Err::<Seq<Token>, Error>(e),
            },
    {
        Lexer::new(src).tokenize()
    }

    /// The character under the cursor, if any.
    pub fn peek(&self) -> (r: Option<char>)
        requires
            self.wf(),
        ensures
            r == (if self.position() < self.text().len() {
                Some(self.text()[self.position()])
            } else {
                None::<char>
            }),
    {
        if self.pos < self.chars.len() {
            Some(self.chars[self.pos])
        } else {
            None
        }
    }

    /// Moves past the character under the cursor; fails at the end of the text.
    pub fn advance(&mut self) -> (r: Result<(), Error>)
        requires
            old(self).wf(),
        ensures
            final(self).wf(),
            final(self).text() == old(self).text(),
            old(self).position() < old(self).text().len() ==> r == Ok::<(), Error>(())
                && final(self).position() == old(self).position() + 1,
            old(self).position() >= old(self).text().len() ==> r == Err::<(), Error>(
                Error::UnexpectedEnd,
            ) && final(self).position() == old(self).position(),
    {
        if self.pos < self.chars.len() {
            if self.chars[self.pos] == '\n' {
                self.line = self.line + 1;
                self.column = 0;
            } else {
                self.column = self.column + 1;
            }
            self.pos = self.pos + 1;
            Ok(())
        } else {
            Err(Error::UnexpectedEnd)
        }
    }

    /// The error for the character under the cursor.
    fn unexpected_here(&self) -> (e: Error)
        requires
            self.wf(),
            self.position() < self.text().len(),
        ensures
            e == unexpected(self.text(), self.position()),
    {
        Error::LexError { line: self.line + 1, column: self.column + 1, character: self.chars[self.pos] }
    }

    /// The tokens from the cursor to the end of the text, or the first error met.
    pub fn tokenize(self) -> (r: Result<Vec<Token>, Error>)
        requires
            self.wf(),
        ensures
            match r {
                Ok(ts) => lex_from(self.text(), self.position(), Scan::Top) == Ok::<
                    Seq<Token>,
                    Error,
                >(ts@),
                Err(e) => lex_from(self.text(), self.position(), Scan::Top) == Err::<
                    Seq<Token>,
                    Error,
                >(e),
            },
    {
        let ghost s = self.text();
        let ghost goal = lex_from(s, self.position(), Scan::Top);
        let mut lexer = self;
        let mut tokens: Vec<Token> = Vec::new();
        while lexer.pos < lexer.chars.len()
            invariant
                lexer.wf(),
                lexer.text() == s,
                goal == prepend(tokens@, lex_from(s, lexer.position(), Scan::Top)),
                goal == lex_from(self.text(), self.position(), Scan::Top),
            decreases s.len() - lexer.position(),
        {
            let i = lexer.pos;
            let ghost here = lex_from(s, i as int, Scan::Top);
            let c = lexer.chars[i];
            if c == 'R' {
                lexer.advance();
                let d = match lexer.peek() {
                    Some(d) => d,
                    None => {
                        proof { lemma_failed(tokens@, here, Error::UnexpectedEnd); }
                        return Err(Error::UnexpectedEnd);
                    },
                };
                let v = match hex_digit(d) {
                    Some(v) => v,
                    None => {
                        let e = lexer.unexpected_here();
                        proof { lemma_failed(tokens@, here, e); }
                        return Err(e);
                    },
                };
                lexer.advance();
                match lexer.peek() {
                    Some(':') => {},
                    Some(_) => {
                        let e = lexer.unexpected_here();
                        proof { lemma_failed(tokens@, here, e); }
                        return Err(e);
                    },
                    None => {
                        proof { lemma_failed(tokens@, here, Error::UnexpectedEnd); }
                        return Err(Error::UnexpectedEnd);
                    },
                }
                lexer.advance();
                proof {
                    lemma_prepend_push(tokens@, Token::Register(v), lex_from(s, i + 3, Scan::Top));
                }
                tokens.push(Token::Register(v));
            } else if let Some(hi) = hex_digit(c) {
                lexer.advance();
                let d = match lexer.peek() {
                    Some(d) => d,
                    None => {
                        proof { lemma_failed(tokens@, here, Error::UnexpectedEnd); }
                        return Err(Error::UnexpectedEnd);
                    },
                };
                let lo = match hex_digit(d) {
                    Some(lo) => lo,
                    None => {
                        proof { lemma_failed(tokens@, here, Error::MalformedHexByte); }
                        return Err(Error::MalformedHexByte);
                    },
                };
                let b: u8 = hi * 16 + lo;
                lexer.advance();
                let t = if lexer.peek() == Some(':') {
                    lexer.advance();
                    Token::Memory(b)
                } else {
                    Token::Byte(b)
                };
                proof {
                    lemma_prepend_push(tokens@, t, lex_from(s, lexer.position(), Scan::Top));
                }
                tokens.push(t);
            } else if c == '#' {
                lexer.advance();
                loop
                    invariant_except_break
                        goal == prepend(tokens@, lex_from(s, lexer.position(), Scan::Comment)),
                    invariant
                        lexer.wf(),
                        lexer.text() == s,
                        goal == lex_from(self.text(), self.position(), Scan::Top),
                        lexer.position() > i,
                    ensures
                        goal == prepend(tokens@, lex_from(s, lexer.position(), Scan::Top)),
                    decreases s.len() - lexer.position(),
                {
                    match lexer.peek() {
                        None => break,
                        Some('\n') => {
                            lexer.advance();
                            break;
                        },
                        Some(_) => {
                            lexer.advance();
                        },
                    }
                }
            } else if c == ' ' || c == '\n' || c == '\r' {
                lexer.advance();
            } else if c == '\x1b' {
                lexer.advance();
                match lexer.peek() {
                    Some('[') => {},
                    Some(_) => {
                        let e = lexer.unexpected_here();
                        proof { lemma_failed(tokens@, here, e); }
                        return Err(e);
                    },
                    None => {
                        proof { lemma_failed(tokens@, here, Error::UnexpectedEnd); }
                        return Err(Error::UnexpectedEnd);
                    },
                }
                loop
                    invariant_except_break
                        lexer.position() < s.len(),
                        goal == prepend(tokens@, lex_from(s, lexer.position() + 1, Scan::Escape)),
                    invariant
                        lexer.wf(),
                        lexer.text() == s,
                        goal == lex_from(self.text(), self.position(), Scan::Top),
                        lexer.position() > i,
                    ensures
                        goal == prepend(tokens@, lex_from(s, lexer.position(), Scan::Top)),
                        lexer.position() > i,
                    decreases s.len() - lexer.position(),
                {
                    lexer.advance();
                    let ghost rest = lex_from(s, lexer.position(), Scan::Escape);
                    let e = match lexer.peek() {
                        Some(e) => e,
                        None => {
                            proof { lemma_failed(tokens@, rest, Error::UnexpectedEnd); }
                            return Err(Error::UnexpectedEnd);
                        },
                    };
                    if '\u{40}' <= e && e <= '\u{7e}' {
                        lexer.advance();
                        break;
                    }
                }
            } else {
                let e = lexer.unexpected_here();
                proof { lemma_failed(tokens@, here, e); }
                return Err(e);
            }
        }
        assert(tokens@ + Seq::<Token>::empty() =~= tokens@);
        Ok(tokens)
    }
}

proof fn lemma_failed(ts: Seq<Token>, r: Result<Seq<Token>, Error>, e: Error)
    requires
        r == Err::<Seq<Token>, Error>(e),
    ensures
        prepend(ts, r) == Err::<Seq<Token>, Error>(e),
{
}

proof fn lemma_prepend_push(ts: Seq<Token>, t: Token, r: Result<Seq<Token>, Error>)
    ensures
        prepend(ts, prepend(seq![t], r)) == prepend(ts.push(t), r),
{
    if let Ok(rest) = r {
        assert(ts + (seq![t] + rest) =~= ts.push(t) + rest);
    }
}

} // verus!

verus! {

/// Every register token that the scanner produces names one of the sixteen registers.
pub proof fn lemma_lex_registers(s: Seq<char>, i: int, mode: Scan)
    ensures
        lex_from(s, i, mode) is Ok ==> crate::computer::registers_in_range(lex_from(s, i, mode)->Ok_0),
    decreases s.len() - i,
{
    if 0 <= i < s.len() {
        lemma_lex_registers(s, i + 1, Scan::Top);
        lemma_lex_registers(s, i + 1, Scan::Comment);
        lemma_lex_registers(s, i + 1, Scan::Escape);
        if i + 2 <= s.len() {
            lemma_lex_registers(s, i + 2, Scan::Top);
            lemma_lex_registers(s, i + 2, Scan::Escape);
        }
        if i + 3 <= s.len() {
            lemma_lex_registers(s, i + 3, Scan::Top);
        }
        let r = lex_from(s, i, mode);
        if r is Ok {
            let ts = r->Ok_0;
            assert forall|k: int| 0 <= k < ts.len() implies match #[trigger] ts[k] {
                Token::Register(p) => p < 16,
                _ => true,
            } by {
                if k > 0 {
                    if lex_from(s, i + 3, Scan::Top) is Ok && ts == seq![ts[0]] + lex_from(s, i + 3, Scan::Top)->Ok_0 {
                        assert(ts[k] == lex_from(s, i + 3, Scan::Top)->Ok_0[k - 1]);
                    }
                    if lex_from(s, i + 2, Scan::Top) is Ok && ts == seq![ts[0]] + lex_from(s, i + 2, Scan::Top)->Ok_0 {
                        assert(ts[k] == lex_from(s, i + 2, Scan::Top)->Ok_0[k - 1]);
                    }
                }
            }
        }
    }
}

} // verus!
