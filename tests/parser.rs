use hackerman::parser::{lex_comp, lex_dest, lex_jump, Instruction, ParseError, Parser, Token};

fn s(x: &str) -> String {
    x.to_string()
}

#[test]
fn address_instruction() {
    let expected_instruction = Instruction::Address(s("sum"));

    let instruction = Parser::parse("@sum").unwrap();

    assert_eq!(instruction, expected_instruction);
}

#[test]
fn label_instruction() {
    let expected_instruction = Instruction::Label(s("LABEL"));

    let instruction = Parser::parse("(LABEL)").unwrap();

    assert_eq!(instruction, expected_instruction);
}

#[test]
fn dest_token() {
    let expected_token = Token::Dest(s("M"));

    let token = lex_dest("M=").unwrap();

    assert_eq!(token, expected_token);
}

#[test]
fn comp_token() {
    let expected_token = Token::Comp(s("D&A"));

    let token = lex_comp("D&A").unwrap();

    assert_eq!(token, expected_token);
}

#[test]
fn jump_token() {
    let expected_token = Token::Jump(s("JNE"));

    let token = lex_jump(";JNE").unwrap();

    assert_eq!(token, expected_token);
}

#[test]
fn full_compute_instruction() {
    let expected_instruction = Instruction::Compute {
        dest: Some(Token::Dest(s("M"))),
        comp: Token::Comp(s("D|A")),
        jump: Some(Token::Jump(s("JNE"))),
    };

    let instruction = Parser::parse("M=D|A;JNE").unwrap();

    assert_eq!(instruction, expected_instruction);
}

#[test]
fn compute_instruction_with_dest() {
    let expected_instruction = Instruction::Compute {
        dest: Some(Token::Dest(s("D"))),
        comp: Token::Comp(s("A")),
        jump: None,
    };

    let instruction = Parser::parse("D=A").unwrap();

    assert_eq!(instruction, expected_instruction);
}

#[test]
fn compute_with_comp_and_jump_only() {
    let instruction = Parser::parse("0;JMP").unwrap();
    assert_eq!(
        instruction,
        Instruction::Compute { dest: None, comp: Token::Comp(s("0")), jump: Some(Token::Jump(s("JMP"))) }
    );
}

#[test]
fn bare_comp_is_a_line() {
    let instruction = Parser::parse("D+1").unwrap();
    assert_eq!(instruction, Instruction::Compute { dest: None, comp: Token::Comp(s("D+1")), jump: None });
}

#[test]
fn longest_dest_and_comp_are_taken() {
    let instruction = Parser::parse("AMD=M+1;JGE").unwrap();
    assert_eq!(
        instruction,
        Instruction::Compute {
            dest: Some(Token::Dest(s("AMD"))),
            comp: Token::Comp(s("M+1")),
            jump: Some(Token::Jump(s("JGE"))),
        }
    );
}

#[test]
fn adm_spelling_is_accepted() {
    let instruction = Parser::parse("ADM=-1").unwrap();
    assert_eq!(
        instruction,
        Instruction::Compute { dest: Some(Token::Dest(s("ADM"))), comp: Token::Comp(s("-1")), jump: None }
    );
}

#[test]
fn numeric_address_is_kept_as_text() {
    assert_eq!(Parser::parse("@256").unwrap(), Instruction::Address(s("256")));
}

#[test]
fn malformed_lines_are_rejected() {
    for line in ["", "D=", "=D", "D=A;", "D;JXX", "X=D", "D=Q", "@", "@a b", "()", "(A", "(A)B", "D = A", "0;JMP;JMP", "M=D=A"] {
        assert_eq!(Parser::parse(line), Err(ParseError { line: s(line) }), "line {:?}", line);
    }
}

#[test]
fn lexers_reject_other_text() {
    assert_eq!(lex_dest("M"), None);
    assert_eq!(lex_dest("MA="), None);
    assert_eq!(lex_comp("D+2"), None);
    assert_eq!(lex_comp(""), None);
    assert_eq!(lex_jump("JNE"), None);
    assert_eq!(lex_jump(";JNO"), None);
}
