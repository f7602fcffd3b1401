use tis_100::instruction::{parse_decimal, Condition, Instruction, Operand, ParseError, Port};
use tis_100::parse::{parse, parse_program, Executable, Line};

fn insns(e: &Executable) -> Vec<&Instruction> {
    (0..e.len()).map(|k| e.insn_at(k)).collect()
}

#[test]
fn label_on_nop_is_folded() {
    let l = Line::from_str("foo: NOP").unwrap();
    assert_eq!(l.label, Some("FOO".to_string()));
    assert_eq!(l.insn, Some(Instruction::NOP));
}

#[test]
fn lower_case_instruction_is_read() {
    let l = Line::from_str("mov up acc").unwrap();
    assert_eq!(l.label, None);
    assert_eq!(l.insn, Some(Instruction::MOV { src: Operand::Port(Port::Up), dst: Operand::ACC }));
}

#[test]
fn literal_destination_rejected_in_program() {
    assert_eq!(parse("MOV UP 10").unwrap_err(), ParseError::LiteralDestination);
    assert_eq!(parse("NOP\nmov up 10").unwrap_err(), ParseError::LiteralDestination);
}

#[test]
fn jump_to_missing_label_rejected() {
    assert_eq!(parse("TOP: NOP\nJMP NOWHERE").unwrap_err(), ParseError::UndefinedLabel);
    assert_eq!(parse("JMP NOWHERE").unwrap_err(), ParseError::UndefinedLabel);
}

#[test]
fn jump_to_trailing_label_rejected() {
    assert_eq!(parse("JMP END\nEND:").unwrap_err(), ParseError::UndefinedLabel);
}

#[test]
fn trailing_label_without_jump_binds_to_start() {
    let e = parse("NOP\nNOP\nEND:").unwrap();
    assert_eq!(e.label_line(&"END".to_string()), Some(0));
}

#[test]
fn label_binds_to_next_instruction() {
    let e = parse("NOP\n\nA:\n\nB: SWP\nJMP A").unwrap();
    assert_eq!(e.label_line(&"A".to_string()), Some(1));
    assert_eq!(e.label_line(&"B".to_string()), Some(1));
    assert_eq!(e.label_line(&"C".to_string()), None);
    assert_eq!(e.srcline_at(1), 4);
    assert_eq!(e.srcline_at(2), 5);
}

#[test]
fn duplicate_label_rejected() {
    assert_eq!(parse("A: NOP\nA: NOP").unwrap_err(), ParseError::DuplicateLabel);
    assert_eq!(parse("a: NOP\nA: SWP").unwrap_err(), ParseError::DuplicateLabel);
}

#[test]
fn repeated_label_with_same_binding_accepted() {
    let e = parse("A:\nA: NOP\nJMP A").unwrap();
    assert_eq!(e.len(), 2);
    assert_eq!(e.label_line(&"A".to_string()), Some(0));
}

#[test]
fn line_error_comes_before_label_errors() {
    assert_eq!(parse("A: NOP\nA: NOP\nFOO BAR BAZ").unwrap_err(), ParseError::BadOpcode);
    assert_eq!(parse("JMP X\nADD FOO").unwrap_err(), ParseError::InvalidOperand);
}

#[test]
fn empty_program_parses_to_nothing() {
    let e = parse("").unwrap();
    assert_eq!(e.len(), 0);
    let e = parse("\n  \n").unwrap();
    assert_eq!(e.len(), 0);
}

#[test]
fn crlf_lines_are_read() {
    let e = parse("ADD 1\r\nSUB 2\r\n").unwrap();
    assert_eq!(insns(&e), vec![&Instruction::ADD { addend: Operand::Lit(1) }, &Instruction::SUB { subtrahend: Operand::Lit(2) }]);
    assert_eq!(e.srcline_at(1), 1);
}

#[test]
fn tabs_separate_label_and_operands() {
    let l = Line::from_str("\tL:\tNOP").unwrap();
    assert_eq!(l.label, Some("L".to_string()));
    assert_eq!(l.insn, Some(Instruction::NOP));
    let l = Line::from_str("ADD\t1").unwrap();
    assert_eq!(l.insn, Some(Instruction::ADD { addend: Operand::Lit(1) }));
    assert_eq!(Instruction::from_str("ADD\t1").unwrap(), Instruction::ADD { addend: Operand::Lit(1) });
    assert_eq!(
        Line::from_str("mov\tup\tdown").unwrap().insn,
        Some(Instruction::MOV { src: Operand::Port(Port::Up), dst: Operand::Port(Port::Down) })
    );
    assert_eq!(Line::from_str("NOP\t").unwrap().insn, Some(Instruction::NOP));
}

#[test]
fn label_is_first_word_up_to_last_colon() {
    let l = Line::from_str("a:b NOP").unwrap_err();
    assert_eq!(l, ParseError::BadOpcode);
    let l = Line::from_str("a:b:NOP").unwrap();
    assert_eq!(l.label, Some("A:B".to_string()));
    assert_eq!(l.insn, Some(Instruction::NOP));
    let l = Line::from_str(":NOP").unwrap_err();
    assert_eq!(l, ParseError::BadOpcode);
    let l = Line::from_str("x:").unwrap();
    assert_eq!(l, Line { label: Some("X".to_string()), insn: None });
}

#[test]
fn decimal_operands() {
    assert_eq!(parse_decimal("+5"), Some(5));
    assert_eq!(parse_decimal("-0"), Some(0));
    assert_eq!(parse_decimal("007"), Some(7));
    assert_eq!(parse_decimal("2147483647"), Some(i32::MAX));
    assert_eq!(parse_decimal("-2147483648"), Some(i32::MIN));
    assert_eq!(parse_decimal("2147483648"), None);
    assert_eq!(parse_decimal("-2147483649"), None);
    assert_eq!(parse_decimal("99999999999999999999"), None);
    assert_eq!(parse_decimal("-"), None);
    assert_eq!(parse_decimal("+"), None);
    assert_eq!(parse_decimal(""), None);
    assert_eq!(parse_decimal("1a"), None);
    assert_eq!(parse_decimal("--1"), None);
}

#[test]
fn operand_errors() {
    assert_eq!(Operand::from_str("2147483648").unwrap_err(), ParseError::InvalidOperand);
    assert_eq!(Operand::from_str("-12").unwrap(), Operand::Lit(-12));
    assert_eq!(Operand::from_str("ANY").unwrap(), Operand::Port(Port::Any));
    assert_eq!(Operand::from_str("LAST").unwrap(), Operand::Port(Port::Last));
    assert_eq!(Operand::from_str("acc").unwrap_err(), ParseError::InvalidOperand);
    assert_eq!(Port::from_str("up").unwrap_err(), ParseError::BadPort);
    assert_eq!(Port::from_str("ANY").unwrap(), Port::Any);
}

#[test]
fn jump_targets_any_word() {
    assert_eq!(Instruction::from_str("JMP 10").unwrap(), Instruction::J { cond: Condition::Unconditional, dst: "10".to_string() });
    assert_eq!(Instruction::from_str("JRO ACC").unwrap(), Instruction::JRO { dst: Operand::ACC });
    assert_eq!(Instruction::from_str("JRO X").unwrap_err(), ParseError::InvalidOperand);
    assert_eq!(Instruction::from_str("ADD").unwrap_err(), ParseError::BadOpcode);
    assert_eq!(Instruction::from_str("NOP NOP").unwrap_err(), ParseError::BadOpcode);
    assert_eq!(Instruction::from_str("MOV X ACC").unwrap_err(), ParseError::InvalidOperand);
    assert_eq!(Instruction::from_str("MOV ACC X").unwrap_err(), ParseError::InvalidOperand);
}

#[test]
fn error_messages() {
    assert_eq!(ParseError::BadOpcode.message(), "Bad opcode for # of arguments");
    assert_eq!(ParseError::NumArgs.message(), "Wrong number of arguments");
    assert_eq!(ParseError::LiteralDestination.message(), "Literal not allowed as dst operand");
    assert_eq!(ParseError::UndefinedLabel.message(), "Jump to undefined label");
}

#[test]
fn case_does_not_change_the_program() {
    let text = "start: mov 5 acc\n  Loop: SUB 1\njgz LOOP\njmp start";
    let upper = parse(&text.to_ascii_uppercase()).unwrap();
    let lower = parse(&text.to_ascii_lowercase()).unwrap();
    assert_eq!(upper, lower);
    assert_eq!(parse(text).unwrap(), upper);
}

#[test]
fn every_label_and_jump_resolves() {
    let e = parse("A: ADD 1\nJGZ B\n\nB: JMP A\nC:").unwrap();
    for name in ["A", "B", "C"] {
        let at = e.label_line(&name.to_string()).unwrap();
        assert!((at as usize) < e.len());
    }
    for k in 0..e.len() {
        if let Instruction::J { dst, .. } = e.insn_at(k) {
            assert!(e.label_line(dst).is_some());
        }
    }
}

#[test]
fn program_lines_are_kept_in_order() {
    let lines = parse_program("A:\n NOP\n\nb: jmp a").unwrap();
    assert_eq!(lines.len(), 4);
    assert_eq!(lines[0], Line { label: Some("A".to_string()), insn: None });
    assert_eq!(lines[1], Line { label: None, insn: Some(Instruction::NOP) });
    assert_eq!(lines[2], Line { label: None, insn: None });
    assert_eq!(lines[3].insn, Some(Instruction::J { cond: Condition::Unconditional, dst: "A".to_string() }));
    assert_eq!(parse_program("NOP\nBAD").unwrap_err(), ParseError::BadOpcode);
}
