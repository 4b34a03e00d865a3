use hackerman::assembler::{translate_comp, translate_compute_instruction, translate_dest, translate_jump, AssembleError, Assembler};
use hackerman::parser::{Instruction, Parser, Token};

fn s(x: &str) -> String {
    x.to_string()
}

fn addr(x: &str) -> Instruction {
    Instruction::Address(s(x))
}

fn label(x: &str) -> Instruction {
    Instruction::Label(s(x))
}

fn compute(dest: Option<&str>, comp: &str, jump: Option<&str>) -> Instruction {
    Instruction::Compute {
        dest: dest.map(|d| Token::Dest(s(d))),
        comp: Token::Comp(s(comp)),
        jump: jump.map(|j| Token::Jump(s(j))),
    }
}

fn assemble_text(lines: &[&str]) -> Result<Vec<u16>, AssembleError> {
    let instructions: Vec<Instruction> = lines.iter().map(|l| Parser::parse(l).unwrap()).collect();
    Assembler::assemble(&instructions)
}

#[test]
fn mod_full_compute_instruction() {
    let expected_binary: u16 = 0b1111_1100_1001_1111;

    let binary = translate_compute_instruction(
        &Some(Token::Dest(s("MD"))),
        &Token::Comp(s("M-1")),
        &Some(Token::Jump(s("JMP"))),
    );

    assert_eq!(binary, Some(expected_binary));
}

#[test]
fn compute_instruction_with_dest_and_comp() {
    let expected_binary: u16 = 0b1110_0100_1101_0000;

    let binary = translate_compute_instruction(&Some(Token::Dest(s("D"))), &Token::Comp(s("D-A")), &None);

    assert_eq!(binary, Some(expected_binary));
}

#[test]
fn compute_instruction_with_comp_and_jump() {
    let expected_binary: u16 = 0b1110_1010_1000_0101;

    let binary = translate_compute_instruction(&None, &Token::Comp(s("0")), &Some(Token::Jump(s("JNE"))));

    assert_eq!(binary, Some(expected_binary));
}

#[test]
fn assemble() {
    let expected_binaries: Vec<u16> = vec![
        0b0000_0001_0000_0000,
        0b1110_1100_0001_0000,
        0b0000_0000_0000_0000,
        0b1110_0011_0000_1000,
        0b0000_0000_1000_0101,
        0b1110_1010_1000_0111,
        0b0000_0000_0000_1111,
        0b1110_0011_0000_1000,
        0b0000_0000_0000_0000,
        0b1111_1100_1010_1000,
        0b1111_1100_0001_0000,
        0b1110_1100_1010_0000,
        0b1111_0001_1101_0000,
        0b1110_1010_1000_1000,
        0b0000_0000_0001_0011,
        0b1110_0011_0000_0101,
        0b0000_0000_0000_0000,
        0b1111_1100_1010_0000,
        0b1110_1110_1000_1000,
    ];

    let instructions: &[Instruction] = &[
        addr("256"),
        compute(Some("D"), "A", None),
        addr("SP"),
        compute(Some("M"), "D", None),
        addr("133"),
        compute(None, "0", Some("JMP")),
        addr("R15"),
        compute(Some("M"), "D", None),
        addr("SP"),
        compute(Some("AM"), "M-1", None),
        compute(Some("D"), "M", None),
        compute(Some("A"), "A-1", None),
        compute(Some("D"), "M-D", None),
        compute(Some("M"), "0", None),
        addr("END_EQ"),
        compute(None, "D", Some("JNE")),
        addr("SP"),
        compute(Some("A"), "M-1", None),
        compute(Some("M"), "-1", None),
        label("END_EQ"),
    ];

    let binaries = Assembler::assemble(instructions);

    assert_eq!(binaries, Ok(expected_binaries));
}

#[test]
fn field_tables() {
    assert_eq!(translate_dest("M"), Some(0b001 << 3));
    assert_eq!(translate_dest("AMD"), Some(0b111 << 3));
    assert_eq!(translate_dest("ADM"), Some(0b111 << 3));
    assert_eq!(translate_dest("DA"), None);
    assert_eq!(translate_comp("D|M"), Some(0b101_0101 << 6));
    assert_eq!(translate_comp("!A"), Some(0b011_0001 << 6));
    assert_eq!(translate_comp("A+D"), None);
    assert_eq!(translate_jump("JLE"), Some(0b110));
    assert_eq!(translate_jump("JLX"), None);
}

#[test]
fn address_boundaries() {
    assert_eq!(assemble_text(&["@0"]), Ok(vec![0x0000]));
    assert_eq!(assemble_text(&["@32767"]), Ok(vec![0x7FFF]));
    assert_eq!(assemble_text(&["@32768"]), Err(AssembleError::BadAddressLiteral(0)));
    assert_eq!(assemble_text(&["@0", "@99999999999999999999"]), Err(AssembleError::BadAddressLiteral(1)));
    assert_eq!(assemble_text(&["@-5"]), Err(AssembleError::BadAddressLiteral(0)));
}

#[test]
fn first_variable_is_sixteen() {
    assert_eq!(assemble_text(&["@R3", "@foo", "@bar", "@foo"]), Ok(vec![3, 16, 17, 16]));
}

#[test]
fn label_at_start_binds_zero() {
    assert_eq!(assemble_text(&["(START)", "D=A", "@START"]), Ok(vec![0b1110_1100_0001_0000, 0]));
}

#[test]
fn adjacent_labels_share_address() {
    assert_eq!(assemble_text(&["@1", "(A)", "(B)", "D=A", "@A", "@B"]), Ok(vec![1, 0b1110_1100_0001_0000, 1, 1]));
}

#[test]
fn predefined_symbols() {
    assert_eq!(
        assemble_text(&["@SP", "@LCL", "@ARG", "@THIS", "@THAT", "@R0", "@R9", "@R10", "@R15", "@SCREEN", "@KBD", "@R16"]),
        Ok(vec![0, 1, 2, 3, 4, 0, 9, 10, 15, 0x4000, 0x6000, 16])
    );
}

#[test]
fn predefined_name_beats_label() {
    assert_eq!(assemble_text(&["D=A", "(SP)", "@SP"]), Ok(vec![0b1110_1100_0001_0000, 0]));
}

#[test]
fn scenario_at_256() {
    assert_eq!(assemble_text(&["@256"]), Ok(vec![0b0000_0001_0000_0000]));
}

#[test]
fn scenario_d_eq_a() {
    assert_eq!(assemble_text(&["D=A"]), Ok(vec![0b1110_1100_0001_0000]));
}

#[test]
fn scenario_zero_jmp() {
    assert_eq!(assemble_text(&["0;JMP"]), Ok(vec![0b1110_1010_1000_0111]));
}

#[test]
fn scenario_m_eq_m_minus_1() {
    assert_eq!(assemble_text(&["M=M-1"]), Ok(vec![0b1111_1100_1000_1000]));
}

#[test]
fn scenario_forward_label() {
    let words = assemble_text(&["@R0", "D=M", "@END", "D;JEQ", "@R1", "D=M", "(END)"]).unwrap();
    assert_eq!(words.len(), 6);
    assert_eq!(words[2], 0b0000_0000_0000_0110);
}

#[test]
fn scenario_variable_reuse() {
    let words = assemble_text(&["@i", "M=0", "@i", "D=M"]).unwrap();
    assert_eq!(words.len(), 4);
    assert_eq!(words[0], 0b0000_0000_0001_0000);
    assert_eq!(words[2], 0b0000_0000_0001_0000);
}

#[test]
fn duplicate_label_is_an_error() {
    assert_eq!(assemble_text(&["(X)", "D=A", "(X)"]), Err(AssembleError::DuplicateLabel(2)));
}

#[test]
fn unknown_mnemonic_is_an_error() {
    let instructions = vec![addr("1"), compute(Some("Q"), "D", None)];
    assert_eq!(Assembler::assemble(&instructions), Err(AssembleError::UnknownMnemonic(1)));
    let wrong_slot = vec![Instruction::Compute { dest: None, comp: Token::Jump(s("JMP")), jump: None }];
    assert_eq!(Assembler::assemble(&wrong_slot), Err(AssembleError::UnknownMnemonic(0)));
    let bad_comp = vec![compute(None, "D+D", None)];
    assert_eq!(Assembler::assemble(&bad_comp), Err(AssembleError::UnknownMnemonic(0)));
}

#[test]
fn variable_space_runs_out() {
    let mut instructions: Vec<Instruction> = Vec::new();
    for k in 0..16368 {
        instructions.push(addr(&format!("v{}", k)));
    }
    let words = Assembler::assemble(&instructions).unwrap();
    assert_eq!(words[16367], 16383);
    instructions.push(addr("one_more"));
    assert_eq!(Assembler::assemble(&instructions), Err(AssembleError::SymbolTableFull(16368)));
}

#[test]
fn signed_literals() {
    assert_eq!(assemble_text(&["@-0"]), Ok(vec![0]));
    assert_eq!(assemble_text(&["@-00"]), Ok(vec![0]));
    assert_eq!(assemble_text(&["@+5"]), Ok(vec![5]));
    assert_eq!(assemble_text(&["@+32767"]), Ok(vec![0x7FFF]));
    assert_eq!(assemble_text(&["@+32768"]), Err(AssembleError::BadAddressLiteral(0)));
    assert_eq!(assemble_text(&["@-1"]), Err(AssembleError::BadAddressLiteral(0)));
    assert_eq!(assemble_text(&["@-", "@+"]), Ok(vec![16, 17]));
}

#[test]
fn variables_follow_first_use() {
    assert_eq!(
        assemble_text(&["@a", "@7", "@SP", "@b", "(L)", "@a", "@L", "@c", "@b"]),
        Ok(vec![16, 7, 0, 17, 16, 4, 18, 17])
    );
}
