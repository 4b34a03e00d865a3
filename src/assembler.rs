use vstd::prelude::*;
use vstd::string::*;

use crate::parser::{Instruction, Token};
use crate::symbols::{
    find, find_name, is_numeral, numeral, numeral_value, predefined, predefined_address, views,
};

verus! {

/// Why a sequence of instructions could not be assembled; each error holds
/// the position of the offending instruction.
#[derive(Debug, PartialEq, Eq, Clone, Copy)]
pub enum AssembleError {
    /// A compute instruction holds a token that is not a known mnemonic
    /// of its slot.
    UnknownMnemonic(usize),
    /// A numeric operand is below 0 or above 32767, or a label it names
    /// stands at an address that does not fit in 15 bits.
    BadAddressLiteral(usize),
    /// A label is declared a second time.
    DuplicateLabel(usize),
    /// A new variable would need address 16384 or above.
    SymbolTableFull(usize),
}

/// Assembles sequences of instructions into machine words.
pub struct Assembler;

/// The 3-bit destination mask (A, D, M) for a destination mnemonic, if it is one.
/// `ADM` and `AMD` both name all three registers.
pub open spec fn dest_code(d: Seq<char>) -> Option<u16> {
    if d.len() == 1 {
        match d[0] {
            'M' => Some(0b001u16),
            'D' => Some(0b010u16),
            'A' => Some(0b100u16),
            _ => None,
        }
    } else if d.len() == 2 {
        match (d[0], d[1]) {
            ('M', 'D') => Some(0b011u16),
            ('A', 'M') => Some(0b101u16),
            ('A', 'D') => Some(0b110u16),
            _ => None,
        }
    } else if d.len() == 3 {
        match (d[0], d[1], d[2]) {
            ('A', 'M', 'D') => Some(0b111u16),
            ('A', 'D', 'M') => Some(0b111u16),
            _ => None,
        }
    } else {
        None
    }
}

/// The 7-bit computation field (the `a` bit and six `c` bits) for a
/// computation mnemonic, if it is one.
pub open spec fn comp_code(c: Seq<char>) -> Option<u16> {
    if c.len() == 1 {
        match c[0] {
            '0' => Some(0b0101010u16),
            '1' => Some(0b0111111u16),
            'D' => Some(0b0001100u16),
            'A' => Some(0b0110000u16),
            'M' => Some(0b1110000u16),
            _ => None,
        }
    } else if c.len() == 2 {
        match (c[0], c[1]) {
            ('-', '1') => Some(0b0111010u16),
            ('!', 'D') => Some(0b0001101u16),
            ('!', 'A') => Some(0b0110001u16),
            ('-', 'D') => Some(0b0001111u16),
            ('-', 'A') => Some(0b0110011u16),
            ('!', 'M') => Some(0b1110001u16),
            ('-', 'M') => Some(0b1110011u16),
            _ => None,
        }
    } else if c.len() == 3 {
        match (c[0], c[1], c[2]) {
            ('D', '+', '1') => Some(0b0011111u16),
            ('A', '+', '1') => Some(0b0110111u16),
            ('D', '-', '1') => Some(0b0001110u16),
            ('A', '-', '1') => Some(0b0110010u16),
            ('D', '+', 'A') => Some(0b0000010u16),
            ('D', '-', 'A') => Some(0b0010011u16),
            ('A', '-', 'D') => Some(0b0000111u16),
            ('D', '&', 'A') => Some(0b0000000u16),
            ('D', '|', 'A') => Some(0b0010101u16),
            ('M', '+', '1') => Some(0b1110111u16),
            ('M', '-', '1') => Some(0b1110010u16),
            ('D', '+', 'M') => Some(0b1000010u16),
            ('D', '-', 'M') => Some(0b1010011u16),
            ('M', '-', 'D') => Some(0b1000111u16),
            ('D', '&', 'M') => Some(0b1000000u16),
            ('D', '|', 'M') => Some(0b1010101u16),
            _ => None,
        }
    } else {
        None
    }
}

/// The 3-bit jump field for a jump mnemonic, if it is one.
pub open spec fn jump_code(j: Seq<char>) -> Option<u16> {
    if j.len() == 3 && j[0] == 'J' {
        match (j[1], j[2]) {
            ('G', 'T') => Some(1u16),
            ('E', 'Q') => Some(2u16),
            ('G', 'E') => Some(3u16),
            ('L', 'T') => Some(4u16),
            ('N', 'E') => Some(5u16),
            ('L', 'E') => Some(6u16),
            ('M', 'P') => Some(7u16),
            _ => None,
        }
    } else {
        None
    }
}

/// Encodes a jump mnemonic as its 3-bit field.
pub fn translate_jump(jump: &str) -> (r: Option<u16>)
    ensures
        r == jump_code(jump@),
{
    if jump.unicode_len() != 3 || jump.get_char(0) != 'J' {
        return None;
    }
    match (jump.get_char(1), jump.get_char(2)) {
        ('G', 'T') => Some(1),
        ('E', 'Q') => Some(2),
        ('G', 'E') => Some(3),
        ('L', 'T') => Some(4),
        ('N', 'E') => Some(5),
        ('L', 'E') => Some(6),
        ('M', 'P') => Some(7),
        _ => None,
    }
}

/// Encodes a destination mnemonic as its mask, already shifted into bits 5-3.
pub fn translate_dest(dest: &str) -> (r: Option<u16>)
    ensures
        r == (match dest_code(dest@) {
            Some(d) => Some((d << 3u16) as u16),
            None => None,
        }),
{
    let n = dest.unicode_len();
    let code: u16 = if n == 1 {
        match dest.get_char(0) {
            'M' => 0b001,
            'D' => 0b010,
            'A' => 0b100,
            _ => return None,
        }
    } else if n == 2 {
        match (dest.get_char(0), dest.get_char(1)) {
            ('M', 'D') => 0b011,
            ('A', 'M') => 0b101,
            ('A', 'D') => 0b110,
            _ => return None,
        }
    } else if n == 3 {
        match (dest.get_char(0), dest.get_char(1), dest.get_char(2)) {
            ('A', 'M', 'D') => 0b111,
            ('A', 'D', 'M') => 0b111,
            _ => return None,
        }
    } else {
        return None;
    };
    Some(code << 3u16)
}

/// Encodes a computation mnemonic as its field, already shifted into bits 12-6.
pub fn translate_comp(comp: &str) -> (r: Option<u16>)
    ensures
        r == (match comp_code(comp@) {
            Some(c) => Some((c << 6u16) as u16),
            None => None,
        }),
{
    let n = comp.unicode_len();
    let code: u16 = if n == 1 {
        match comp.get_char(0) {
            '0' => 0b0101010,
            '1' => 0b0111111,
            'D' => 0b0001100,
            'A' => 0b0110000,
            'M' => 0b1110000,
            _ => return None,
        }
    } else if n == 2 {
        match (comp.get_char(0), comp.get_char(1)) {
            ('-', '1') => 0b0111010,
            ('!', 'D') => 0b0001101,
            ('!', 'A') => 0b0110001,
            ('-', 'D') => 0b0001111,
            ('-', 'A') => 0b0110011,
            ('!', 'M') => 0b1110001,
            ('-', 'M') => 0b1110011,
            _ => return None,
        }
    } else if n == 3 {
        match (comp.get_char(0), comp.get_char(1), comp.get_char(2)) {
            ('D', '+', '1') => 0b0011111,
            ('A', '+', '1') => 0b0110111,
            ('D', '-', '1') => 0b0001110,
            ('A', '-', '1') => 0b0110010,
            ('D', '+', 'A') => 0b0000010,
            ('D', '-', 'A') => 0b0010011,
            ('A', '-', 'D') => 0b0000111,
            ('D', '&', 'A') => 0b0000000,
            ('D', '|', 'A') => 0b0010101,
            ('M', '+', '1') => 0b1110111,
            ('M', '-', '1') => 0b1110010,
            ('D', '+', 'M') => 0b1000010,
            ('D', '-', 'M') => 0b1010011,
            ('M', '-', 'D') => 0b1000111,
            ('D', '&', 'M') => 0b1000000,
            ('D', '|', 'M') => 0b1010101,
            _ => return None,
        }
    } else {
        return None;
    };
    Some(code << 6u16)
}

/// The destination field of a compute instruction: 0 when absent.
pub open spec fn dest_field(dest: Option<Token>) -> Option<u16> {
    match dest {
        None => Some(0u16),
        Some(Token::Dest(d)) => dest_code(d@),
        Some(_) => None,
    }
}

/// The computation field of a compute instruction.
pub open spec fn comp_field(comp: Token) -> Option<u16> {
    match comp {
        Token::Comp(c) => comp_code(c@),
        _ => None,
    }
}

/// The jump field of a compute instruction: 0 when absent.
pub open spec fn jump_field(jump: Option<Token>) -> Option<u16> {
    match jump {
        None => Some(0u16),
        Some(Token::Jump(j)) => jump_code(j@),
        Some(_) => None,
    }
}

/// The word of a compute instruction: `111` in bits 15-13, then the
/// computation, destination and jump fields.
pub open spec fn compute_word(dest: Option<Token>, comp: Token, jump: Option<Token>) -> Option<u16> {
    match (dest_field(dest), comp_field(comp), jump_field(jump)) {
        (Some(d), Some(c), Some(j)) => Some(
            (0xE000u16 | ((c << 6u16) as u16) | ((d << 3u16) as u16) | j) as u16,
        ),
        _ => None,
    }
}

/// Encodes a compute instruction, or `None` when a token is of the wrong
/// kind or not a known mnemonic.
pub fn translate_compute_instruction(dest: &Option<Token>, comp: &Token, jump: &Option<Token>) -> (r:
    Option<u16>)
    ensures
        r == compute_word(*dest, *comp, *jump),
{
    let ghost mut fields: (u16, u16, u16) = (0, 0, 0);
    let d: u16 = match dest {
        None => 0,
        Some(Token::Dest(d)) => match translate_dest(d.as_str()) {
            Some(v) => {
                proof {
                    fields.0 = dest_code(d@)->0;
                }
                v
            },
            None => return None,
        },
        Some(_) => return None,
    };
    let c: u16 = match comp {
        Token::Comp(c) => match translate_comp(c.as_str()) {
            Some(v) => {
                proof {
                    fields.1 = comp_code(c@)->0;
                }
                v
            },
            None => return None,
        },
        _ => return None,
    };
    let j: u16 = match jump {
        None => 0,
        Some(Token::Jump(j)) => match translate_jump(j.as_str()) {
            Some(v) => {
                proof {
                    fields.2 = v;
                }
                v
            },
            None => return None,
        },
        Some(_) => return None,
    };
    assert((0u16 << 3u16) == 0u16) by (bit_vector);
    assert(dest_field(*dest) == Some(fields.0) && d == (fields.0 << 3u16) as u16);
    assert(comp_field(*comp) == Some(fields.1) && c == (fields.1 << 6u16) as u16);
    assert(jump_field(*jump) == Some(fields.2) && j == fields.2);
    Some(0xE000u16 | c | d | j)
}

/// The instructions that emit a word: the address and compute
/// instructions, in order.
pub open spec fn real_instructions(instrs: Seq<Instruction>) -> Seq<Instruction> {
    instrs.filter(|i: Instruction| !(i is Label))
}

/// The number of words a sequence of instructions emits.
pub open spec fn word_count(instrs: Seq<Instruction>) -> nat {
    real_instructions(instrs).len()
}

/// Each instruction adds one word to the count, but a label.
pub proof fn lemma_word_count_step(s: Seq<Instruction>, k: int)
    requires
        0 <= k < s.len(),
    ensures
        word_count(s.subrange(0, k + 1)) == word_count(s.subrange(0, k)) + if s[k] is Label {
            0nat
        } else {
            1nat
        },
{
    reveal(Seq::filter);
    assert(s.subrange(0, k + 1).drop_last() =~= s.subrange(0, k));
    assert(s.subrange(0, k + 1).last() == s[k]);
}

/// The first pass: label names in order of declaration, each with the
/// number of words emitted before it.
pub open spec fn bind_labels(instrs: Seq<Instruction>) -> Result<
    (Seq<Seq<char>>, Seq<nat>),
    AssembleError,
>
    decreases instrs.len(),
{
    if instrs.len() == 0 {
        Ok((Seq::empty(), Seq::empty()))
    } else {
        match bind_labels(instrs.drop_last()) {
            Err(e) => Err(e),
            Ok((names, pcs)) => match instrs.last() {
                Instruction::Label(l) => if find(names, l@) >= 0 {
                    Err(AssembleError::DuplicateLabel((instrs.len() - 1) as usize))
                } else {
                    Ok((names.push(l@), pcs.push(word_count(instrs.drop_last()))))
                },
                _ => Ok((names, pcs)),
            },
        }
    }
}

/// The address a label is bound to, if it is a label.
pub open spec fn label_of(names: Seq<Seq<char>>, pcs: Seq<nat>, sym: Seq<char>) -> Option<nat> {
    if find(names, sym) >= 0 {
        Some(pcs[find(names, sym)])
    } else {
        None
    }
}

/// A decimal numeral with a minus sign.
pub open spec fn is_negative_numeral(sym: Seq<char>) -> bool {
    sym.len() > 1 && sym[0] == '-' && is_numeral(sym.drop_first())
}

/// A decimal numeral with a plus sign.
pub open spec fn is_positive_numeral(sym: Seq<char>) -> bool {
    sym.len() > 1 && sym[0] == '+' && is_numeral(sym.drop_first())
}

/// The value of an operand written as a decimal numeral, with or without
/// a sign.
pub open spec fn literal_value(sym: Seq<char>) -> Option<int> {
    if is_numeral(sym) {
        Some(numeral_value(sym) as int)
    } else if is_positive_numeral(sym) {
        Some(numeral_value(sym.drop_first()) as int)
    } else if is_negative_numeral(sym) {
        Some(-numeral_value(sym.drop_first()))
    } else {
        None
    }
}

/// The address an `@sym` at position `at` loads, given the labels and the
/// variables allocated so far (variable `k` lives at `16 + k`), with the
/// variables afterwards.
pub open spec fn resolve(
    sym: Seq<char>,
    at: int,
    names: Seq<Seq<char>>,
    pcs: Seq<nat>,
    vars: Seq<Seq<char>>,
) -> Result<(u16, Seq<Seq<char>>), AssembleError> {
    if literal_value(sym) is Some {
        if 0 <= literal_value(sym)->0 < 32768 {
            Ok((literal_value(sym)->0 as u16, vars))
        } else {
            Err(AssembleError::BadAddressLiteral(at as usize))
        }
    } else if predefined(sym) is Some {
        Ok((predefined(sym)->0, vars))
    } else if label_of(names, pcs, sym) is Some {
        if label_of(names, pcs, sym)->0 < 32768 {
            Ok((label_of(names, pcs, sym)->0 as u16, vars))
        } else {
            Err(AssembleError::BadAddressLiteral(at as usize))
        }
    } else if find(vars, sym) >= 0 {
        Ok(((16 + find(vars, sym)) as u16, vars))
    } else if 16 + vars.len() >= 16384 {
        Err(AssembleError::SymbolTableFull(at as usize))
    } else {
        Ok(((16 + vars.len()) as u16, vars.push(sym)))
    }
}

/// The second pass: the words emitted, and the variables allocated.
pub open spec fn emit(instrs: Seq<Instruction>, names: Seq<Seq<char>>, pcs: Seq<nat>) -> Result<
    (Seq<u16>, Seq<Seq<char>>),
    AssembleError,
>
    decreases instrs.len(),
{
    if instrs.len() == 0 {
        Ok((Seq::empty(), Seq::empty()))
    } else {
        match emit(instrs.drop_last(), names, pcs) {
            Err(e) => Err(e),
            Ok((words, vars)) => match instrs.last() {
                Instruction::Label(_) => Ok((words, vars)),
                Instruction::Address(sym) => match resolve(
                    sym@,
                    instrs.len() - 1,
                    names,
                    pcs,
                    vars,
                ) {
                    Ok((w, vars2)) => Ok((words.push(w), vars2)),
                    Err(e) => Err(e),
                },
                Instruction::Compute { dest, comp, jump } => match compute_word(dest, comp, jump) {
                    Some(w) => Ok((words.push(w), vars)),
                    None => Err(AssembleError::UnknownMnemonic((instrs.len() - 1) as usize)),
                },
            },
        }
    }
}

/// The words a sequence of instructions assembles to, or the first error.
pub open spec fn assembled(instrs: Seq<Instruction>) -> Result<Seq<u16>, AssembleError> {
    match bind_labels(instrs) {
        Err(e) => Err(e),
        Ok((names, pcs)) => match emit(instrs, names, pcs) {
            Ok((words, _)) => Ok(words),
            Err(e) => Err(e),
        },
    }
}

/// The program counters as naturals.
pub open spec fn nat_view(v: Seq<usize>) -> Seq<nat> {
    v.map_values(|p: usize| p as nat)
}

pub(crate) proof fn lemma_bind_labels_error_stays(s: Seq<Instruction>, i: int)
    requires
        0 <= i <= s.len(),
        bind_labels(s.subrange(0, i)) is Err,
    ensures
        bind_labels(s) == bind_labels(s.subrange(0, i)),
    decreases s.len() - i,
{
    if i == s.len() {
        assert(s.subrange(0, i) =~= s);
    } else {
        assert(s.subrange(0, i + 1).drop_last() =~= s.subrange(0, i));
        lemma_bind_labels_error_stays(s, i + 1);
    }
}

proof fn lemma_emit_error_stays(s: Seq<Instruction>, names: Seq<Seq<char>>, pcs: Seq<nat>, i: int)
    requires
        0 <= i <= s.len(),
        emit(s.subrange(0, i), names, pcs) is Err,
    ensures
        emit(s, names, pcs) == emit(s.subrange(0, i), names, pcs),
    decreases s.len() - i,
{
    if i == s.len() {
        assert(s.subrange(0, i) =~= s);
    } else {
        assert(s.subrange(0, i + 1).drop_last() =~= s.subrange(0, i));
        lemma_emit_error_stays(s, names, pcs, i + 1);
    }
}

/// Resolves the operand of an address instruction, allocating a new
/// variable when it names nothing known.
fn resolve_address(
    sym: &String,
    at: usize,
    names: &Vec<String>,
    pcs: &Vec<usize>,
    vars: &mut Vec<String>,
) -> (r: Result<u16, AssembleError>)
    requires
        names@.len() == pcs@.len(),
        old(vars)@.len() <= 16368,
    ensures
        match resolve(sym@, at as int, views(names@), nat_view(pcs@), views(old(vars)@)) {
            Ok((w, vars2)) => r == Ok::<u16, AssembleError>(w) && views(final(vars)@) == vars2,
            Err(e) => r == Err::<u16, AssembleError>(e),
        },
        final(vars)@.len() <= 16368,
{
    let s = sym.as_str();
    match numeral(s) {
        Some(v) => {
            if v < 32768 {
                return Ok(v as u16);
            } else {
                return Err(AssembleError::BadAddressLiteral(at));
            }
        },
        None => {},
    }
    let n = s.unicode_len();
    if n > 1 {
        let sign = s.get_char(0);
        if sign == '+' || sign == '-' {
            let digits = s.substring_char(1, n);
            assert(digits@ =~= sym@.drop_first());
            match numeral(digits) {
                Some(v) => {
                    if v < 32768 && (sign == '+' || v == 0) {
                        return Ok(v as u16);
                    } else {
                        return Err(AssembleError::BadAddressLiteral(at));
                    }
                },
                None => {},
            }
        }
    }
    match predefined_address(s) {
        Some(a) => {
            return Ok(a);
        },
        None => {},
    }
    match find_name(names, sym) {
        Some(k) => {
            assert(views(names@)[k as int] == names@[k as int]@);
            if pcs[k] < 32768 {
                return Ok(pcs[k] as u16);
            } else {
                return Err(AssembleError::BadAddressLiteral(at));
            }
        },
        None => {},
    }
    match find_name(vars, sym) {
        Some(k) => {
            return Ok((16 + k) as u16);
        },
        None => {},
    }
    let next = 16 + vars.len();
    if next >= 16384 {
        return Err(AssembleError::SymbolTableFull(at));
    }
    vars.push(sym.clone());
    assert(views(final(vars)@) =~= views(old(vars)@).push(sym@));
    Ok(next as u16)
}

impl Assembler {
    /// Assembles a sequence of instructions in two passes: the first binds
    /// each label to the number of words emitted before it, the second
    /// emits one word per address or compute instruction.
    pub fn assemble(instructions: &[Instruction]) -> (r: Result<Vec<u16>, AssembleError>)
        ensures
            match assembled(instructions@) {
                Ok(words) => r matches Ok(v) && v@ == words,
                Err(e) => r matches Err(e2) && e2 == e,
            },
    {
        let ghost s = instructions@;
        let n = instructions.len();
        let mut names: Vec<String> = Vec::new();
        let mut pcs: Vec<usize> = Vec::new();
        let mut pc: usize = 0;
        let mut i: usize = 0;
        assert(s.subrange(0, 0) =~= Seq::<Instruction>::empty());
        assert(views(names@) =~= Seq::<Seq<char>>::empty());
        assert(nat_view(pcs@) =~= Seq::<nat>::empty());
        while i < n
            invariant
                s == instructions@,
                n == s.len(),
                i <= n,
                pc == word_count(s.subrange(0, i as int)),
                pc <= i,
                names@.len() == pcs@.len(),
                bind_labels(s.subrange(0, i as int)) == Ok::<
                    (Seq<Seq<char>>, Seq<nat>),
                    AssembleError,
                >((views(names@), nat_view(pcs@))),
            decreases n - i,
        {
            let ghost pre = s.subrange(0, i as int);
            assert(s.subrange(0, i + 1).drop_last() =~= pre);
            assert(s.subrange(0, i + 1).last() == s[i as int]);
            proof {
                lemma_word_count_step(s, i as int);
            }
            match &instructions[i] {
                Instruction::Label(l) => {
                    if find_name(&names, l).is_some() {
                        proof {
                            lemma_bind_labels_error_stays(s, i + 1);
                        }
                        return Err(AssembleError::DuplicateLabel(i));
                    }
                    let ghost names0 = names@;
                    let ghost pcs0 = pcs@;
                    names.push(l.clone());
                    pcs.push(pc);
                    assert(views(names@) =~= views(names0).push(l@));
                    assert(nat_view(pcs@) =~= nat_view(pcs0).push(pc as nat));
                },
                _ => {
                    pc = pc + 1;
                },
            }
            i = i + 1;
        }
        assert(s.subrange(0, n as int) =~= s);
        let ghost label_names = views(names@);
        let ghost label_pcs = nat_view(pcs@);
        let mut words: Vec<u16> = Vec::new();
        let mut vars: Vec<String> = Vec::new();
        let mut i: usize = 0;
        assert(s.subrange(0, 0) =~= Seq::<Instruction>::empty());
        assert(views(vars@) =~= Seq::<Seq<char>>::empty());
        while i < n
            invariant
                s == instructions@,
                n == s.len(),
                i <= n,
                names@.len() == pcs@.len(),
                label_names == views(names@),
                label_pcs == nat_view(pcs@),
                bind_labels(s) == Ok::<(Seq<Seq<char>>, Seq<nat>), AssembleError>(
                    (label_names, label_pcs),
                ),
                vars@.len() <= 16368,
                emit(s.subrange(0, i as int), label_names, label_pcs) == Ok::<
                    (Seq<u16>, Seq<Seq<char>>),
                    AssembleError,
                >((words@, views(vars@))),
            decreases n - i,
        {
            let ghost pre = s.subrange(0, i as int);
            assert(s.subrange(0, i + 1).drop_last() =~= pre);
            assert(s.subrange(0, i + 1).last() == s[i as int]);
            match &instructions[i] {
                Instruction::Label(_) => {},
                Instruction::Address(sym) => {
                    match resolve_address(sym, i, &names, &pcs, &mut vars) {
                        Ok(w) => {
                            words.push(w);
                        },
                        Err(e) => {
                            proof {
                                lemma_emit_error_stays(s, label_names, label_pcs, i + 1);
                            }
                            return Err(e);
                        },
                    }
                },
                Instruction::Compute { dest, comp, jump } => {
                    match translate_compute_instruction(dest, comp, jump) {
                        Some(w) => {
                            words.push(w);
                        },
                        None => {
                            proof {
                                lemma_emit_error_stays(s, label_names, label_pcs, i + 1);
                            }
                            return Err(AssembleError::UnknownMnemonic(i));
                        },
                    }
                },
            }
            i = i + 1;
        }
        assert(s.subrange(0, n as int) =~= s);
        Ok(words)
    }
}

} // verus!
