use computer::computer::Computer;
use computer::lexer::Lexer;
use computer::subcommand::Subcommand;
use computer::token::{Error, Token};

fn parse(src: &str) -> Computer {
    Computer::parse(src).unwrap()
}

#[test]
fn comment_and_escape_are_skipped() {
    let plain = Lexer::lex("R0: 05 # comment\n10").unwrap();
    let colored = Lexer::lex("\x1b[31mR0: 05\x1b[0m 10").unwrap();
    let expected = vec![Token::Register(0), Token::Byte(0x05), Token::Byte(0x10)];
    assert_eq!(plain, expected);
    assert_eq!(colored, expected);
}

#[test]
fn missing_colon_after_register_is_an_error() {
    assert_eq!(
        Lexer::lex("R0 05"),
        Err(Error::LexError { line: 1, column: 3, character: ' ' })
    );
}

#[test]
fn lex_error_reports_line_and_column() {
    assert_eq!(
        Lexer::lex("05\n  x"),
        Err(Error::LexError { line: 2, column: 3, character: 'x' })
    );
}

#[test]
fn memory_directive_and_bytes() {
    assert_eq!(
        Lexer::lex("1f: Ab 0C\r\nRf:"),
        Ok(vec![Token::Memory(0x1F), Token::Byte(0xAB), Token::Byte(0x0C), Token::Register(15)])
    );
}

#[test]
fn malformed_hex_byte() {
    assert_eq!(Lexer::lex("0g"), Err(Error::MalformedHexByte));
}

#[test]
fn text_ending_inside_a_construct() {
    assert_eq!(Lexer::lex("R"), Err(Error::UnexpectedEnd));
    assert_eq!(Lexer::lex("R1"), Err(Error::UnexpectedEnd));
    assert_eq!(Lexer::lex("0"), Err(Error::UnexpectedEnd));
    assert_eq!(Lexer::lex("\x1b[3"), Err(Error::UnexpectedEnd));
}

#[test]
fn escape_without_bracket_is_an_error() {
    assert_eq!(
        Lexer::lex("\x1bx"),
        Err(Error::LexError { line: 1, column: 2, character: 'x' })
    );
}

#[test]
fn advance_past_end_fails() {
    let mut lexer = Lexer::new("a");
    assert_eq!(lexer.advance(), Ok(()));
    assert_eq!(lexer.peek(), None);
    assert_eq!(lexer.advance(), Err(Error::UnexpectedEnd));
    assert_eq!(lexer.tokenize(), Ok(vec![]));
}

#[test]
fn sixteen_register_bytes() {
    let c = parse("R0: 00 01 02 03 04 05 06 07 08 09 0a 0b 0c 0d 0e 0f");
    for i in 0..16 {
        assert_eq!(c.registers[i], i as u8);
    }
    assert!(c.memory.iter().all(|b| *b == 0));
}

#[test]
fn fewer_register_bytes_leave_the_rest_zero() {
    let c = parse("R0: 11 22 33");
    assert_eq!(&c.registers[0..3], &[0x11, 0x22, 0x33]);
    assert!(c.registers[3..].iter().all(|b| *b == 0));
}

#[test]
fn bytes_continue_from_registers_into_memory() {
    let c = parse("01 02 03 04 05 06 07 08 09 0A 0B 0C 0D 0E 0F 10 AA BB");
    for i in 0..16 {
        assert_eq!(c.registers[i], i as u8 + 1);
    }
    assert_eq!(c.memory[0], 0xAA);
    assert_eq!(c.memory[1], 0xBB);
    assert!(c.memory[2..].iter().all(|b| *b == 0));
}

#[test]
fn register_directive_resets_the_pointer() {
    let c = parse("RE: 01 02 03 R1: 04");
    assert_eq!(c.registers[14], 1);
    assert_eq!(c.registers[15], 2);
    assert_eq!(c.memory[0], 3);
    assert_eq!(c.registers[1], 4);
}

#[test]
fn writing_past_the_last_cell_fails() {
    assert_eq!(Computer::parse("FF: 01 02"), Err(Error::MemoryOverflow));
    assert_eq!(parse("FF: 01").memory[255], 1);
}

#[test]
fn add_wraps() {
    let mut c = parse("R0: 05\n00: 10 08\n08: FD");
    assert_eq!(c.step(), Ok(()));
    assert_eq!(c.registers[0], 0x02);
    assert_eq!(c.registers[12], 2);
}

#[test]
fn store_copies_the_accumulator() {
    let mut c = parse("R0: 7F\n00: 20 10");
    assert_eq!(c.step(), Ok(()));
    assert_eq!(c.memory[0x10], 0x7F);
    assert_eq!(c.registers[0], 0x7F);
    assert_eq!(c.registers[12], 2);
}

#[test]
fn halt_is_a_fixed_point() {
    let mut c = parse("R0: 09\n00: FF 01");
    let before = c;
    for _ in 0..5 {
        assert_eq!(c.step(), Ok(()));
        assert_eq!(c, before);
    }
}

#[test]
fn operand_wraps_to_address_zero() {
    let mut c = parse("RC: FF\nFF: 10\n00: 03\n03: 04");
    assert_eq!(c.step(), Ok(()));
    assert_eq!(c.registers[0], 4);
    assert_eq!(c.registers[12], 1);
}

#[test]
fn unknown_opcode_is_reported() {
    let mut c = Computer::new();
    assert_eq!(c.step(), Err(Error::InvalidOpcode { byte: 0 }));
    assert_eq!(c, Computer::new());
}

#[test]
fn run_stops_at_halt() {
    let mut c = parse("R0: 01\n00: 10 04 FF 00 05");
    assert_eq!(c.run(100), Ok(()));
    assert_eq!(c.registers[0], 6);
    assert_eq!(c.registers[12], 2);
}

#[test]
fn run_respects_its_step_budget() {
    let mut c = parse("00: 10 00 10 00 FF");
    assert_eq!(c.run(1), Err(Error::StepLimit));
    assert_eq!(c.registers[12], 2);
    assert_eq!(c.run(1), Ok(()));
    assert_eq!(c.registers[12], 4);
}

#[test]
fn render_plain() {
    let c = parse("R0: 05 RC: 01\n00: 10 05 FF");
    assert_eq!(c.render(false), "R0: 05\nRC: 01\n\n00: 10 05 FF");
    assert_eq!(Computer::new().render(false), "\n");
}

#[test]
fn render_trims_rows() {
    let c = parse("R5: ab\n20: 00 01");
    assert_eq!(c.render(false), "R4: 00 R5: ab\n\n20: 00 01");
}

#[test]
fn render_colors_the_byte_at_pc() {
    let c = parse("R0: 05 RC: 01\n00: 10 05 FF");
    assert_eq!(c.render(true), "R0: 05\nRC: 01\n\n00: 10 \x1b[96m05\x1b[39m FF");
}

#[test]
fn rendered_text_parses_back() {
    let mut c = parse("R0: 01 R3: 7c\n00: 10 05 20 40 FF 05\nF0: 01 00 00 00 00 00 00 00 00 00 00 00 00 00 00 09");
    c.run(100).unwrap();
    assert_eq!(Computer::parse(&c.render(false)), Ok(c));
    assert_eq!(Computer::parse(&c.render(true)), Ok(c));
}

#[test]
fn subcommands() {
    let src = "R0: 01\n00: 10 04 FF 00 05";
    assert_eq!(Subcommand::Init.run(src, 10), Ok(Computer::new()));
    assert_eq!(Subcommand::Load.run(src, 10), Ok(parse(src)));
    assert_eq!(Subcommand::Step.run(src, 10).unwrap().registers[0], 6);
    assert_eq!(Subcommand::Run.run(src, 10).unwrap().registers[12], 2);
    assert_eq!(Subcommand::Load.run("R0 05", 10), Err(Error::LexError { line: 1, column: 3, character: ' ' }));
    assert_eq!(Subcommand::load("Z"), Err(Error::LexError { line: 1, column: 1, character: 'Z' }));
}

#[test]
fn from_str_and_default() {
    let c: Computer = "R0: 05".parse().unwrap();
    assert_eq!(c.registers[0], 5);
    assert_eq!(Computer::default(), Computer::new());
}

#[test]
fn later_register_directive_overwrites() {
    let c: Computer = "01 02 R0: 03".parse().unwrap();
    let mut expected = Computer::new();
    expected.registers[0] = 0x03;
    expected.registers[1] = 0x02;
    assert_eq!(c, expected);
}

#[test]
fn directives_alone_write_nothing() {
    assert_eq!("R5: 10:".parse::<Computer>(), Ok(Computer::default()));
}

#[test]
fn register_overflow_continues_at_address_zero() {
    let c: Computer = "RE: 01 02 03".parse().unwrap();
    let mut expected = Computer::new();
    expected.registers[14] = 0x01;
    expected.registers[15] = 0x02;
    expected.memory[0] = 0x03;
    assert_eq!(c, expected);
}

#[test]
fn from_str_rejects_missing_colon() {
    assert!("R0 05".parse::<Computer>().is_err());
}

#[test]
fn colored_report_of_unhalted_machine_parses_back() {
    let c = parse("R0: 7F RC: 03\n00: 10 05 20 40 FF 05");
    assert_eq!(c.render(true).parse::<Computer>(), Ok(c));
    assert_eq!(c.render(false).parse::<Computer>(), Ok(c));
}

#[test]
fn comment_may_end_the_text() {
    assert_eq!(Lexer::lex("05 # end"), Ok(vec![Token::Byte(0x05)]));
    assert_eq!(Lexer::lex("#"), Ok(vec![]));
    assert_eq!(parse("R0: 05 # end").registers[0], 0x05);
}
