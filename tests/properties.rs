use hackerman::assembler::Assembler;
use hackerman::parser::{Instruction, Parser, Token};

fn parse_all(lines: &[&str]) -> Vec<Instruction> {
    lines.iter().map(|l| Parser::parse(l).unwrap()).collect()
}

#[test]
fn one_word_per_instruction_without_labels() {
    let program = parse_all(&["@7", "D=A", "@x", "M=D", "0;JMP"]);
    assert_eq!(Assembler::assemble(&program).unwrap().len(), program.len());
}

#[test]
fn labels_emit_no_words() {
    let program = parse_all(&["(A)", "@7", "(B)", "D=A", "(C)"]);
    assert_eq!(Assembler::assemble(&program).unwrap().len(), 2);
}

#[test]
fn word_kinds_have_their_top_bits() {
    let program = parse_all(&["@32767", "AMD=D|M;JMP", "@KBD", "0", "@v"]);
    let words = Assembler::assemble(&program).unwrap();
    for (k, w) in words.iter().enumerate() {
        if k % 2 == 0 {
            assert_eq!(w >> 15, 0);
        } else {
            assert_eq!(w >> 13, 0b111);
        }
    }
}

#[test]
fn canonical_compute_text_round_trips() {
    let direct = Instruction::Compute {
        dest: Some(Token::Dest("AM".to_string())),
        comp: Token::Comp("D-M".to_string()),
        jump: Some(Token::Jump("JLT".to_string())),
    };
    let parsed = Parser::parse("AM=D-M;JLT").unwrap();
    assert_eq!(Assembler::assemble(&[parsed]), Assembler::assemble(&[direct]));
}

#[test]
fn inserting_labels_keeps_words() {
    let with_labels = parse_all(&["(X)", "@5", "(Y)", "D=A", "@Y", "0;JMP"]);
    let without = parse_all(&["@5", "D=A", "@1", "0;JMP"]);
    assert_eq!(Assembler::assemble(&with_labels), Assembler::assemble(&without));
}
