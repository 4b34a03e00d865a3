use vstd::prelude::*;
use vstd::string::*;

use crate::assembler::{
    comp_code, dest_code, jump_code, translate_comp, translate_dest, translate_jump,
};

verus! {

/// One of the three sub-fields of a compute instruction, holding its text verbatim.
#[derive(Debug, PartialEq)]
pub enum Token {
    Dest(String),
    Comp(String),
    Jump(String),
}

/// One parsed line of Hack assembly.
#[derive(Debug, PartialEq)]
pub enum Instruction {
    /// `@X`: load the address or value `X` into the A register.
    Address(String),
    /// `[dest=]comp[;jump]`: a compute instruction.
    Compute { dest: Option<Token>, comp: Token, jump: Option<Token> },
    /// `(NAME)`: binds `NAME` to the address of the next real instruction.
    Label(String),
}

/// A line that is not a well-formed instruction; `line` holds its text.
#[derive(Debug, PartialEq)]
pub struct ParseError {
    pub line: String,
}

/// Turns single lines of assembly into instructions.
pub struct Parser;

/// ASCII whitespace.
pub open spec fn is_space(c: char) -> bool {
    c == ' ' || c == '\t' || c == '\n' || c == '\r' || c == '\x0B' || c == '\x0C'
}

/// A character that may appear in a symbol.
pub open spec fn is_symbol_char(c: char) -> bool {
    c != '(' && c != ')' && c != '@' && c != ';' && c != '=' && !is_space(c)
}

/// A non-empty run of symbol characters.
pub open spec fn is_identifier(s: Seq<char>) -> bool {
    s.len() > 0 && forall|i: int| 0 <= i < s.len() ==> is_symbol_char(#[trigger] s[i])
}

/// The text a token holds.
pub open spec fn token_text(t: Token) -> Seq<char> {
    match t {
        Token::Dest(s) => s@,
        Token::Comp(s) => s@,
        Token::Jump(s) => s@,
    }
}

/// How an optional destination is spelled in front of the computation: `d=` or nothing.
pub open spec fn dest_text(dest: Option<Token>) -> Seq<char> {
    match dest {
        Some(t) => token_text(t) + seq!['='],
        None => Seq::empty(),
    }
}

/// How an optional jump is spelled after the computation: `;j` or nothing.
pub open spec fn jump_text(jump: Option<Token>) -> Seq<char> {
    match jump {
        Some(t) => seq![';'] + token_text(t),
        None => Seq::empty(),
    }
}

/// An optional destination that is absent or a destination token with a known mnemonic.
pub open spec fn dest_ok(dest: Option<Token>) -> bool {
    match dest {
        None => true,
        Some(Token::Dest(d)) => dest_code(d@) is Some,
        Some(_) => false,
    }
}

/// A computation token with a known mnemonic.
pub open spec fn comp_ok(comp: Token) -> bool {
    match comp {
        Token::Comp(c) => comp_code(c@) is Some,
        _ => false,
    }
}

/// An optional jump that is absent or a jump token with a known mnemonic.
pub open spec fn jump_ok(jump: Option<Token>) -> bool {
    match jump {
        None => true,
        Some(Token::Jump(j)) => jump_code(j@) is Some,
        Some(_) => false,
    }
}

impl Instruction {
    /// The canonical spelling of the instruction.
    pub open spec fn text(self) -> Seq<char> {
        match self {
            Instruction::Address(s) => seq!['@'] + s@,
            Instruction::Label(s) => seq!['('] + s@ + seq![')'],
            Instruction::Compute { dest, comp, jump } => dest_text(dest) + token_text(comp)
                + jump_text(jump),
        }
    }

    /// What the parser can produce: symbols are identifiers and every
    /// token is of its slot's kind with a known mnemonic.
    pub open spec fn well_formed(self) -> bool {
        match self {
            Instruction::Address(s) => is_identifier(s@),
            Instruction::Label(s) => is_identifier(s@),
            Instruction::Compute { dest, comp, jump } => dest_ok(dest) && comp_ok(comp) && jump_ok(
                jump,
            ),
        }
    }
}

/// Where the `=` after a destination stands in a compute line, or 0 when
/// there is none. Destinations are one to three characters long.
pub open spec fn dest_len(s: Seq<char>) -> int {
    if s.len() > 1 && s[1] == '=' {
        1
    } else if s.len() > 2 && s[2] == '=' {
        2
    } else if s.len() > 3 && s[3] == '=' {
        3
    } else {
        0
    }
}

/// Where the computation starts in a compute line.
pub open spec fn comp_start(s: Seq<char>) -> int {
    if dest_len(s) == 0 {
        0
    } else {
        dest_len(s) + 1
    }
}

/// Where the computation ends in a compute line: before a `;` and a
/// three-letter jump, or at the end.
pub open spec fn comp_end(s: Seq<char>) -> int {
    if s.len() >= comp_start(s) + 4 && s[s.len() - 4] == ';' {
        s.len() - 4
    } else {
        s.len() as int
    }
}

/// `[dest=]comp[;jump]` with known mnemonics.
pub open spec fn compute_line_ok(s: Seq<char>) -> bool {
    &&& (dest_len(s) == 0 || dest_code(s.subrange(0, dest_len(s))) is Some)
    &&& comp_code(s.subrange(comp_start(s), comp_end(s))) is Some
    &&& (comp_end(s) == s.len() || jump_code(s.subrange(comp_end(s) + 1, s.len() as int)) is Some)
}

/// A line of the instruction grammar; the first character chooses the form.
pub open spec fn line_ok(s: Seq<char>) -> bool {
    if s.len() > 0 && s[0] == '(' {
        s.len() >= 2 && s[s.len() - 1] == ')' && is_identifier(s.subrange(1, s.len() - 1))
    } else if s.len() > 0 && s[0] == '@' {
        is_identifier(s.subrange(1, s.len() as int))
    } else {
        compute_line_ok(s)
    }
}

/// Whether the whole text is an identifier.
fn scan_identifier(s: &str) -> (r: bool)
    ensures
        r == is_identifier(s@),
{
    let n = s.unicode_len();
    if n == 0 {
        return false;
    }
    let mut i: usize = 0;
    while i < n
        invariant
            n == s@.len(),
            i <= n,
            forall|j: int| 0 <= j < i ==> is_symbol_char(#[trigger] s@[j]),
        decreases n - i,
    {
        let c = s.get_char(i);
        if c == '(' || c == ')' || c == '@' || c == ';' || c == '=' || c == ' ' || c == '\t' || c
            == '\n' || c == '\r' || c == '\x0B' || c == '\x0C' {
            return false;
        }
        i = i + 1;
    }
    true
}

/// Reads `d=`, a destination mnemonic followed by `=`.
pub fn lex_dest(s: &str) -> (r: Option<Token>)
    ensures
        r is Some <==> (s@.len() > 0 && s@.last() == '=' && dest_code(s@.drop_last()) is Some),
        r matches Some(t) ==> t is Dest && token_text(t) == s@.drop_last(),
{
    let n = s.unicode_len();
    if n == 0 || s.get_char(n - 1) != '=' {
        return None;
    }
    let d = s.substring_char(0, n - 1);
    assert(d@ =~= s@.drop_last());
    match translate_dest(d) {
        Some(_) => Some(Token::Dest(d.to_owned())),
        None => None,
    }
}

/// Reads a computation mnemonic that spans the whole text.
pub fn lex_comp(s: &str) -> (r: Option<Token>)
    ensures
        r is Some <==> comp_code(s@) is Some,
        r matches Some(t) ==> t is Comp && token_text(t) == s@,
{
    match translate_comp(s) {
        Some(_) => Some(Token::Comp(s.to_owned())),
        None => None,
    }
}

/// Reads `;j`, a `;` followed by a jump mnemonic.
pub fn lex_jump(s: &str) -> (r: Option<Token>)
    ensures
        r is Some <==> (s@.len() > 0 && s@[0] == ';' && jump_code(s@.drop_first()) is Some),
        r matches Some(t) ==> t is Jump && token_text(t) == s@.drop_first(),
{
    let n = s.unicode_len();
    if n == 0 || s.get_char(0) != ';' {
        return None;
    }
    let j = s.substring_char(1, n);
    assert(j@ =~= s@.drop_first());
    match translate_jump(j) {
        Some(_) => Some(Token::Jump(j.to_owned())),
        None => None,
    }
}

fn parse_error(input: &str) -> (r: ParseError)
    ensures
        r.line@ == input@,
{
    ParseError { line: input.to_owned() }
}

/// Splits `[dest=]comp[;jump]` at the `=` and the `;` and reads each part.
fn parse_compute(input: &str) -> (r: Result<Instruction, ParseError>)
    ensures
        r is Ok <==> compute_line_ok(input@),
        r matches Ok(i) ==> i is Compute && i.well_formed() && i.text() == input@,
        r matches Err(e) ==> e.line@ == input@,
{
    let ghost s = input@;
    let n = input.unicode_len();
    let k: usize = if n > 1 && input.get_char(1) == '=' {
        1
    } else if n > 2 && input.get_char(2) == '=' {
        2
    } else if n > 3 && input.get_char(3) == '=' {
        3
    } else {
        0
    };
    assert(k == dest_len(s));
    let start: usize = if k == 0 {
        0
    } else {
        k + 1
    };
    let end: usize = if n >= start + 4 && input.get_char(n - 4) == ';' {
        n - 4
    } else {
        n
    };
    assert(end == comp_end(s));
    let dest = if k == 0 {
        None
    } else {
        let d = input.substring_char(0, k + 1);
        assert(d@.drop_last() =~= s.subrange(0, k as int));
        match lex_dest(d) {
            Some(t) => Some(t),
            None => return Err(parse_error(input)),
        }
    };
    let c = input.substring_char(start, end);
    let comp = match lex_comp(c) {
        Some(t) => t,
        None => return Err(parse_error(input)),
    };
    let jump = if end == n {
        None
    } else {
        let j = input.substring_char(end, n);
        assert(j@.drop_first() =~= s.subrange(end + 1, n as int));
        match lex_jump(j) {
            Some(t) => Some(t),
            None => return Err(parse_error(input)),
        }
    };
    let ghost dt = dest_text(dest);
    let ghost jt = jump_text(jump);
    assert(dt =~= s.subrange(0, start as int));
    assert(jt =~= s.subrange(end as int, n as int));
    assert(dt + token_text(comp) + jt =~= s);
    Ok(Instruction::Compute { dest, comp, jump })
}

impl Parser {
    /// Parses one line, already stripped of comments and surrounding
    /// whitespace, into the instruction it spells.
    pub fn parse(input: &str) -> (r: Result<Instruction, ParseError>)
        ensures
            r is Ok <==> line_ok(input@),
            r matches Ok(i) ==> i.well_formed() && i.text() == input@,
            r matches Err(e) ==> e.line@ == input@,
    {
        let ghost s = input@;
        let n = input.unicode_len();
        if n > 0 && input.get_char(0) == '(' {
            if n >= 2 && input.get_char(n - 1) == ')' {
                let name = input.substring_char(1, n - 1);
                if scan_identifier(name) {
                    assert(seq!['('] + name@ + seq![')'] =~= s);
                    return Ok(Instruction::Label(name.to_owned()));
                }
            }
            Err(parse_error(input))
        } else if n > 0 && input.get_char(0) == '@' {
            let sym = input.substring_char(1, n);
            if scan_identifier(sym) {
                assert(seq!['@'] + sym@ =~= s);
                Ok(Instruction::Address(sym.to_owned()))
            } else {
                Err(parse_error(input))
            }
        } else {
            parse_compute(input)
        }
    }
}

} // verus!
