use simple_risc::info::{Instruction, Opcode, MOD_DEF, MOD_H};
use simple_risc::parser::{immediate, instruction, parse_code, ErrKind, Parser, Scanner, Token};

#[test]
fn test_scanner() {
    let mut s = Scanner::new("1234YYXXX");
    assert_eq!(s.peek(), Some('1'));
    assert_eq!(s.take_while(|ch| ch.is_numeric()), "1234");
    assert_eq!(s.take_while(|ch| ch == 'Y'), "YY");
    assert_eq!(s.take_while(|ch| ch == 'X'), "XXX");
}

#[test]
fn imm_test() {
    let test_pairs: [(&str, Result<Token, ErrKind>); 6] = [
        ("42", Ok(Token::Imm(42))),
        ("0", Ok(Token::Imm(0))),
        ("-42", Ok(Token::Imm(!42 + 1))),
        ("-0x69", Ok(Token::Imm(!0x69 + 1))),
        ("0x1FFFF", Err(ErrKind::ImmOverflow)),
        ("0x1oops", Err(ErrKind::InvalidImm)),
    ];
    for (test, res) in test_pairs {
        assert_eq!(immediate(&mut Scanner::new(test)), res);
    }
}

#[test]
fn instruction_test() {
    assert_eq!(
        instruction("add"),
        Ok(Some(Token::Inst(Instruction {
            name: "add",
            opcode: Opcode::ADD,
            ndst: 1,
            nsrc: 2,
            modbits: MOD_DEF,
        })))
    );
    assert_eq!(
        instruction("addh"),
        Ok(Some(Token::Inst(Instruction {
            name: "add",
            opcode: Opcode::ADD,
            ndst: 1,
            nsrc: 2,
            modbits: MOD_H,
        })))
    );
    // Invalid ones
    assert_eq!(instruction("nopu"), Err(ErrKind::IllegalModifier));
    assert_eq!(instruction("nosuchins"), Ok(None));
}

#[test]
fn test_fine() {
    // Test only for first instruction
    let test_pairs: [(&str, u32); 4] = [
        ("mov r0, -0x1\n", 0b01001_1_0000_0000_00_1111111111111111),
        ("add r0, r1, r2\n", 0b00000_0_0000_0001_0010 << 14),
        (
            "add r0, r1, /* Block comment */ 0b1101\n",
            0b00000_1_0000_0001_00_0000000000001101,
        ),
        (
            "b has_label\n ret\n ret\n has_label: ret\n",
            0b10010_000000000000000000000000011,
        ),
    ];
    for (input, res) in test_pairs {
        assert_eq!(Parser::new(input).parse().unwrap()[0], res);
    }
}

#[test]
fn test_bad() {
    let test_pairs: [(&str, ErrKind); 12] = [
        ("add r0, r1", ErrKind::CharExp(',')),
        ("add r0, /* uncomp*", ErrKind::OpenComment),
        ("/ *Illegal comment */", ErrKind::CharExp('*')),
        ("add r0, r1, r4", ErrKind::CharExp('\n')),
        ("add r0, r1, \n", ErrKind::OperandExp),
        ("addh r0, r1, r2 \n", ErrKind::IllegalModifier),
        ("noph\n", ErrKind::IllegalModifier),
        ("b r0\n", ErrKind::IdentExp),
        ("cmp 24, 88\n", ErrKind::RegExp),
        ("r13 add r11\n", ErrKind::IllegalToken),
        (
            "b undefme\n",
            ErrKind::UndefinedLabel(String::from("undefme")),
        ),
        (
            "abc:\n\n abc: ret\n",
            ErrKind::DuplicateLabel(String::from("abc")),
        ),
    ];
    for (input, err) in test_pairs {
        assert_eq!(parse_code(input).unwrap_err().kind, err);
    }
}

#[test]
fn test_backward_branch_offset() {
    // A backward reference: the branch at word index 1 targets index 0,
    // so its 27-bit offset field holds -1 in two's complement.
    let words = parse_code("back: ret\nb back\n").unwrap();
    assert_eq!(words.len(), 2);
    assert_eq!(words[1], (0b10010 << 27) | 0x07FF_FFFF);
}

#[test]
fn test_store_and_memory_form() {
    // st r3, 8[r2] encodes as a store with an immediate displacement.
    let words = parse_code("st r3, 8[r2]\n").unwrap();
    assert_eq!(words[0], (15 << 27) | (1 << 26) | (3 << 22) | (2 << 18) | 8);
}

#[test]
fn test_missing_immediate_in_memory_form() {
    // The displacement of a load must be an immediate.
    assert_eq!(
        parse_code("ld r0, r1[r2]\n").unwrap_err().kind,
        ErrKind::ImmExp
    );
}

#[test]
fn test_modifier_encodings() {
    // The u modifier selects modifier bits 01, the h modifier 10.
    let words = parse_code("movu r1, 7\nmovh r2, 7\n").unwrap();
    assert_eq!(words[0], (9 << 27) | (1 << 26) | (1 << 22) | (0b01 << 16) | 7);
    assert_eq!(words[1], (9 << 27) | (1 << 26) | (2 << 22) | (0b10 << 16) | 7);
}

#[test]
fn test_line_numbers() {
    // The duplicate definition sits on line 3.
    let err = parse_code("one:\ntwo:\nt2: two: ret\n").unwrap_err();
    assert_eq!(err.kind, ErrKind::DuplicateLabel(String::from("two")));
    assert_eq!(err.line, 3);
}

#[test]
fn test_nullary_and_syscall_words() {
    let words = parse_code("nop\nret\nsys\n").unwrap();
    assert_eq!(words[0], 13 << 27);
    assert_eq!(words[1], 20 << 27);
    assert_eq!(words[2], 21 << 27);
}

#[test]
fn test_empty_program() {
    // No statements assemble to no words, and such a program halts at once.
    assert_eq!(parse_code("").unwrap().len(), 0);
    assert_eq!(parse_code("@ comment only\n\n /* block */\n").unwrap().len(), 0);
    let mut emul = simple_risc::emulator::Emulator::new(vec![]);
    assert_eq!(emul.exec(), Ok(()));
}
