use vstd::prelude::*;

use crate::assembler::{
    assembled, bind_labels, comp_code, comp_field, compute_word, dest_code, dest_field, emit,
    jump_code, literal_value, jump_field, label_of, lemma_bind_labels_error_stays,
    lemma_word_count_step, real_instructions, resolve, word_count, AssembleError,
};
use crate::parser::{
    comp_end, comp_ok, comp_start, dest_len, dest_ok, dest_text, jump_ok, jump_text, line_ok,
    token_text, Instruction, Token,
};
use crate::symbols::{find, lemma_find_bound, lemma_predefined_bound, predefined};

verus! {

/// Every compute word carries `111` in its top three bits.
pub proof fn lemma_compute_word_prefix(dest: Option<Token>, comp: Token, jump: Option<Token>)
    requires
        compute_word(dest, comp, jump) is Some,
    ensures
        compute_word(dest, comp, jump)->0 >> 13u16 == 7u16,
{
    let d = dest_field(dest)->0;
    let c = comp_field(comp)->0;
    let j = jump_field(jump)->0;
    assert(d < 8 && c < 128 && j < 8);
    let w = compute_word(dest, comp, jump)->0;
    assert(w == (0xE000u16 | ((c << 6u16) as u16) | ((d << 3u16) as u16) | j) as u16);
    assert(c < 128 && d < 8 && j < 8 ==> ((0xE000u16 | ((c << 6u16) as u16) | ((d << 3u16) as u16)
        | j) as u16) >> 13u16 == 7u16) by (bit_vector);
}

/// Every address word has bit 15 clear.
pub proof fn lemma_address_word_prefix(
    sym: Seq<char>,
    at: int,
    names: Seq<Seq<char>>,
    pcs: Seq<nat>,
    vars: Seq<Seq<char>>,
)
    requires
        vars.len() <= 16368,
        resolve(sym, at, names, pcs, vars) is Ok,
    ensures
        resolve(sym, at, names, pcs, vars)->Ok_0.0 >> 15u16 == 0u16,
        resolve(sym, at, names, pcs, vars)->Ok_0.1.len() <= 16368,
{
    lemma_find_bound(vars, sym);
    lemma_predefined_bound(sym);
    let w = resolve(sym, at, names, pcs, vars)->Ok_0.0;
    assert(w < 32768);
    assert(w < 32768 ==> w >> 15u16 == 0u16) by (bit_vector);
}

proof fn lemma_word_count_prefix(s: Seq<Instruction>, j: int)
    requires
        0 <= j <= s.len(),
    ensures
        word_count(s.subrange(0, j)) <= word_count(s),
    decreases s.len() - j,
{
    if j < s.len() {
        lemma_word_count_step(s, j);
        lemma_word_count_prefix(s, j + 1);
    } else {
        assert(s.subrange(0, j) =~= s);
    }
}

/// What the second pass emits: one word per address or compute
/// instruction; the word of the instruction at position `k` stands at the
/// number of words before it, with bit 15 clear for an address and `111`
/// on top for a compute instruction.
proof fn lemma_emit_words(s: Seq<Instruction>, names: Seq<Seq<char>>, pcs: Seq<nat>)
    requires
        emit(s, names, pcs) is Ok,
    ensures
        ({
            let words = emit(s, names, pcs)->Ok_0.0;
            &&& words.len() == word_count(s)
            &&& emit(s, names, pcs)->Ok_0.1.len() <= 16368
            &&& forall|k: int|
                0 <= k < s.len() ==> (#[trigger] s[k] is Address ==> words[word_count(
                    s.subrange(0, k),
                ) as int] >> 15u16 == 0u16) && (s[k] is Compute ==> words[word_count(
                    s.subrange(0, k),
                ) as int] >> 13u16 == 7u16)
        }),
    decreases s.len(),
{
    if s.len() > 0 {
        let pre = s.drop_last();
        lemma_emit_words(pre, names, pcs);
        lemma_word_count_step(s, s.len() - 1);
        assert(s.subrange(0, s.len() - 1) =~= pre);
        assert(s.subrange(0, s.len() as int) =~= s);
        let wp = emit(pre, names, pcs)->Ok_0.0;
        let vp = emit(pre, names, pcs)->Ok_0.1;
        let words = emit(s, names, pcs)->Ok_0.0;
        match s.last() {
            Instruction::Address(sym) => {
                lemma_address_word_prefix(sym@, s.len() - 1, names, pcs, vp);
            },
            Instruction::Compute { dest, comp, jump } => {
                lemma_compute_word_prefix(dest, comp, jump);
            },
            Instruction::Label(_) => {},
        }
        assert forall|k: int| 0 <= k < s.len() implies (#[trigger] s[k] is Address ==> words[word_count(
            s.subrange(0, k),
        ) as int] >> 15u16 == 0u16) && (s[k] is Compute ==> words[word_count(
            s.subrange(0, k),
        ) as int] >> 13u16 == 7u16) by {
            if k < s.len() - 1 {
                assert(s.subrange(0, k) =~= pre.subrange(0, k));
                assert(pre[k] == s[k]);
                lemma_word_count_step(pre, k);
                lemma_word_count_prefix(pre, k + 1);
            }
        }
    }
}

/// An assembled program holds one word per address or compute
/// instruction, in order: the words of the address instructions have bit
/// 15 clear and those of the compute instructions start with `111`.
pub proof fn lemma_assembled_words(s: Seq<Instruction>)
    requires
        assembled(s) is Ok,
    ensures
        assembled(s)->Ok_0.len() == real_instructions(s).len(),
        forall|k: int|
            0 <= k < s.len() && #[trigger] s[k] is Address ==> assembled(s)->Ok_0[word_count(
                s.subrange(0, k),
            ) as int] >> 15u16 == 0u16,
        forall|k: int|
            0 <= k < s.len() && #[trigger] s[k] is Compute ==> assembled(s)->Ok_0[word_count(
                s.subrange(0, k),
            ) as int] >> 13u16 == 7u16,
{
    let labels = bind_labels(s)->Ok_0;
    lemma_emit_words(s, labels.0, labels.1);
}

/// Without labels, a program assembles to exactly one word per instruction.
pub proof fn lemma_no_labels_one_word_each(s: Seq<Instruction>)
    requires
        assembled(s) is Ok,
        forall|k: int| 0 <= k < s.len() ==> !(#[trigger] s[k] is Label),
    ensures
        assembled(s)->Ok_0.len() == s.len(),
{
    lemma_assembled_words(s);
    lemma_no_labels_filter(s);
}

proof fn lemma_no_labels_filter(s: Seq<Instruction>)
    requires
        forall|k: int| 0 <= k < s.len() ==> !(#[trigger] s[k] is Label),
    ensures
        real_instructions(s) == s,
    decreases s.len(),
{
    reveal(Seq::filter);
    if s.len() > 0 {
        let pre = s.drop_last();
        assert forall|k: int| 0 <= k < pre.len() implies !(#[trigger] pre[k] is Label) by {
            assert(pre[k] == s[k]);
        }
        lemma_no_labels_filter(pre);
        assert(!(s[s.len() - 1] is Label));
        assert(pre.push(s.last()) =~= s);
    } else {
        assert(s.filter(|i: Instruction| !(i is Label)) =~= s);
    }
}

/// No mnemonic holds a separator or starts an address or a label.
proof fn lemma_mnemonic_chars(t: Seq<char>)
    requires
        dest_code(t) is Some || comp_code(t) is Some || jump_code(t) is Some,
    ensures
        1 <= t.len() <= 3,
        forall|k: int|
            0 <= k < t.len() ==> #[trigger] t[k] != '=' && t[k] != ';' && t[k] != '@' && t[k]
                != '(',
{
}

/// Where the parts of a well-formed compute instruction stand in its text.
proof fn lemma_compute_text_parts(dest: Option<Token>, comp: Token, jump: Option<Token>)
    requires
        dest_ok(dest),
        comp_ok(comp),
        jump_ok(jump),
    ensures
        ({
            let t = Instruction::Compute { dest, comp, jump }.text();
            &&& t.len() > 0 && t[0] != '@' && t[0] != '('
            &&& dest_len(t) == if dest is Some {
                token_text(dest->0).len() as int
            } else {
                0
            }
            &&& comp_start(t) == dest_text(dest).len()
            &&& comp_end(t) == dest_text(dest).len() + token_text(comp).len()
            &&& dest is Some ==> t.subrange(0, dest_len(t)) == token_text(dest->0)
            &&& t.subrange(comp_start(t), comp_end(t)) == token_text(comp)
            &&& jump is Some ==> t.subrange(comp_end(t) + 1, t.len() as int) == token_text(
                jump->0,
            )
            &&& jump is None ==> comp_end(t) == t.len()
        }),
{
    let t = Instruction::Compute { dest, comp, jump }.text();
    let dt = dest_text(dest);
    let c = token_text(comp);
    let jt = jump_text(jump);
    assert(t == dt + c + jt);
    lemma_mnemonic_chars(c);
    if dest is Some {
        lemma_mnemonic_chars(token_text(dest->0));
    }
    if jump is Some {
        lemma_mnemonic_chars(token_text(jump->0));
        assert(jt.len() == 4 && jt[0] == ';');
    }
    assert(forall|k: int| 0 <= k < dt.len() ==> #[trigger] t[k] == dt[k]);
    assert(forall|k: int| 0 <= k < c.len() ==> #[trigger] t[dt.len() + k] == c[k]);
    assert(forall|k: int| 0 <= k < jt.len() ==> #[trigger] t[dt.len() + c.len() + k] == jt[k]);
    assert(forall|k: int| 0 <= k < jt.len() ==> #[trigger] jt[k] != '=');
    assert(dest_len(t) == if dest is Some {
        token_text(dest->0).len() as int
    } else {
        0
    });
    assert(comp_end(t) == dt.len() + c.len());
    if dest is Some {
        assert(t.subrange(0, dest_len(t)) =~= token_text(dest->0));
    }
    assert(t.subrange(comp_start(t), comp_end(t)) =~= c);
    if jump is Some {
        assert(t.subrange(comp_end(t) + 1, t.len() as int) =~= token_text(jump->0));
    }
}

/// A well-formed compute instruction is a line of the grammar, and any
/// well-formed instruction spelled the same way, which is what the parser
/// gives back for that line, is a compute instruction with the same
/// tokens and so assembles to the same word.
pub proof fn lemma_compute_round_trip(i: Instruction, p: Instruction)
    requires
        i is Compute,
        i.well_formed(),
        p.well_formed(),
        p.text() == i.text(),
    ensures
        line_ok(i.text()),
        p is Compute,
        match (p, i) {
            (
                Instruction::Compute { dest: pd, comp: pc, jump: pj },
                Instruction::Compute { dest: id, comp: ic, jump: ij },
            ) => dest_text(pd) == dest_text(id) && token_text(pc) == token_text(ic) && jump_text(pj)
                == jump_text(ij) && compute_word(pd, pc, pj) == compute_word(id, ic, ij),
            _ => false,
        },
{
    let t = i.text();
    if let Instruction::Compute { dest: id, comp: ic, jump: ij } = i {
        lemma_compute_text_parts(id, ic, ij);
        match p {
            Instruction::Address(_) => {
                assert(p.text()[0] == '@');
            },
            Instruction::Label(_) => {
                assert(p.text()[0] == '(');
            },
            Instruction::Compute { dest: pd, comp: pc, jump: pj } => {
                lemma_compute_text_parts(pd, pc, pj);
                assert(pd is Some <==> id is Some);
                assert(pj is Some <==> ij is Some);
                assert(token_text(pc) == token_text(ic));
                if pd is Some {
                    assert(token_text(pd->0) == token_text(id->0));
                }
                if pj is Some {
                    assert(token_text(pj->0) == token_text(ij->0));
                }
                assert(dest_field(pd) == dest_field(id));
                assert(comp_field(pc) == comp_field(ic));
                assert(jump_field(pj) == jump_field(ij));
            },
        }
    }
}

/// The first variable that a program allocates lives at address 16.
pub proof fn lemma_first_variable_at_16(
    sym: Seq<char>,
    at: int,
    names: Seq<Seq<char>>,
    pcs: Seq<nat>,
)
    requires
        literal_value(sym) is None,
        predefined(sym) is None,
        label_of(names, pcs, sym) is None,
    ensures
        resolve(sym, at, names, pcs, Seq::empty()) == Ok::<(u16, Seq<Seq<char>>), AssembleError>(
            (16u16, seq![sym]),
        ),
{
    assert(Seq::<Seq<char>>::empty().push(sym) =~= seq![sym]);
}

proof fn lemma_bind_labels_lengths(s: Seq<Instruction>)
    requires
        bind_labels(s) is Ok,
    ensures
        bind_labels(s)->Ok_0.0.len() == bind_labels(s)->Ok_0.1.len(),
    decreases s.len(),
{
    if s.len() > 0 {
        lemma_bind_labels_lengths(s.drop_last());
    }
}

/// A binding made by the first pass over a prefix survives to the end.
proof fn lemma_label_binding_stays(s: Seq<Instruction>, j: int, name: Seq<char>, v: nat)
    requires
        0 <= j <= s.len(),
        bind_labels(s) is Ok,
        bind_labels(s.subrange(0, j)) is Ok,
        label_of(
            bind_labels(s.subrange(0, j))->Ok_0.0,
            bind_labels(s.subrange(0, j))->Ok_0.1,
            name,
        ) == Some(v),
    ensures
        label_of(bind_labels(s)->Ok_0.0, bind_labels(s)->Ok_0.1, name) == Some(v),
    decreases s.len() - j,
{
    if j == s.len() {
        assert(s.subrange(0, j) =~= s);
    } else {
        let next = s.subrange(0, j + 1);
        assert(next.drop_last() =~= s.subrange(0, j));
        assert(next.last() == s[j]);
        if bind_labels(next) is Err {
            lemma_bind_labels_error_stays(s, j + 1);
        }
        let (names, pcs) = bind_labels(s.subrange(0, j))->Ok_0;
        lemma_bind_labels_lengths(s.subrange(0, j));
        lemma_find_bound(names, name);
        if let Instruction::Label(l) = s[j] {
            assert(names.push(l@).drop_last() =~= names);
            assert(find(names.push(l@), name) == find(names, name));
        }
        lemma_label_binding_stays(s, j + 1, name, v);
    }
}

/// A label is bound to the number of words emitted before it, which is
/// the address of the next address or compute instruction.
pub proof fn lemma_label_binds_next_word(s: Seq<Instruction>, k: int)
    requires
        0 <= k < s.len(),
        s[k] is Label,
        bind_labels(s) is Ok,
    ensures
        label_of(bind_labels(s)->Ok_0.0, bind_labels(s)->Ok_0.1, s[k]->Label_0@) == Some(
            word_count(s.subrange(0, k)),
        ),
{
    let next = s.subrange(0, k + 1);
    assert(next.drop_last() =~= s.subrange(0, k));
    assert(next.last() == s[k]);
    if bind_labels(next) is Err {
        lemma_bind_labels_error_stays(s, k + 1);
    }
    let (names, pcs) = bind_labels(s.subrange(0, k))->Ok_0;
    let name = s[k]->Label_0@;
    lemma_bind_labels_lengths(s.subrange(0, k));
    assert(names.push(name).drop_last() =~= names);
    lemma_label_binding_stays(s, k + 1, name, word_count(s.subrange(0, k)));
}

/// A label at the start of a program is bound to address 0.
pub proof fn lemma_first_label_binds_zero(s: Seq<Instruction>)
    requires
        s.len() > 0,
        s[0] is Label,
        bind_labels(s) is Ok,
    ensures
        label_of(bind_labels(s)->Ok_0.0, bind_labels(s)->Ok_0.1, s[0]->Label_0@) == Some(0nat),
{
    lemma_label_binds_next_word(s, 0);
    reveal(Seq::filter);
    assert(s.subrange(0, 0).len() == 0);
}

/// Two labels in a row before a compute instruction are both bound to the
/// address of that instruction's word.
pub proof fn lemma_adjacent_labels_share_address(s: Seq<Instruction>, k: int)
    requires
        0 <= k,
        k + 2 < s.len(),
        s[k] is Label,
        s[k + 1] is Label,
        s[k + 2] is Compute,
        bind_labels(s) is Ok,
    ensures
        label_of(bind_labels(s)->Ok_0.0, bind_labels(s)->Ok_0.1, s[k]->Label_0@) == Some(
            word_count(s.subrange(0, k + 2)),
        ),
        label_of(bind_labels(s)->Ok_0.0, bind_labels(s)->Ok_0.1, s[k + 1]->Label_0@) == Some(
            word_count(s.subrange(0, k + 2)),
        ),
{
    lemma_label_binds_next_word(s, k);
    lemma_label_binds_next_word(s, k + 1);
    lemma_word_count_step(s, k);
    lemma_word_count_step(s, k + 1);
}

/// An operand that names something: neither a numeral, with or without a
/// sign, nor a predefined symbol.
pub open spec fn is_symbolic(sym: Seq<char>) -> bool {
    literal_value(sym) is None && predefined(sym) is None
}

spec fn emitted(r: Result<(Seq<u16>, Seq<Seq<char>>), AssembleError>) -> Option<
    (Seq<u16>, Seq<Seq<char>>),
> {
    match r {
        Ok(v) => Some(v),
        Err(_) => None,
    }
}

/// Leaving the labels out changes what the second pass emits only in the
/// positions its errors report.
proof fn lemma_emit_without_labels(s: Seq<Instruction>, names: Seq<Seq<char>>, pcs: Seq<nat>)
    ensures
        emitted(emit(s, names, pcs)) == emitted(emit(real_instructions(s), names, pcs)),
    decreases s.len(),
{
    reveal(Seq::filter);
    let r = real_instructions(s);
    if s.len() == 0 {
        assert(r.len() == 0);
    } else {
        let pre = s.drop_last();
        lemma_emit_without_labels(pre, names, pcs);
        if !(s.last() is Label) {
            assert(r.drop_last() =~= real_instructions(pre));
            assert(r.last() == s.last());
        } else {
            assert(r == real_instructions(pre));
        }
    }
}

/// The second pass reads the labels only through the operands that name
/// something.
proof fn lemma_emit_same_labels(
    t: Seq<Instruction>,
    names1: Seq<Seq<char>>,
    pcs1: Seq<nat>,
    names2: Seq<Seq<char>>,
    pcs2: Seq<nat>,
)
    requires
        forall|k: int|
            0 <= k < t.len() && #[trigger] t[k] is Address && is_symbolic(t[k]->Address_0@)
                ==> label_of(names1, pcs1, t[k]->Address_0@) == label_of(names2, pcs2, t[k]->Address_0@),
    ensures
        emit(t, names1, pcs1) == emit(t, names2, pcs2),
    decreases t.len(),
{
    if t.len() > 0 {
        let pre = t.drop_last();
        assert forall|k: int|
            0 <= k < pre.len() && #[trigger] pre[k] is Address && is_symbolic(pre[k]->Address_0@)
                implies label_of(names1, pcs1, pre[k]->Address_0@) == label_of(names2, pcs2, pre[k]->Address_0@) by {
            assert(pre[k] == t[k]);
        }
        lemma_emit_same_labels(pre, names1, pcs1, names2, pcs2);
        assert(t.last() == t[t.len() - 1]);
    }
}

/// Adding or removing label declarations leaves the assembled words as
/// they are, as long as every operand that names something still finds
/// the same label binding, or none in both.
pub proof fn lemma_labels_do_not_change_words(s1: Seq<Instruction>, s2: Seq<Instruction>)
    requires
        real_instructions(s1) == real_instructions(s2),
        bind_labels(s1) is Ok,
        bind_labels(s2) is Ok,
        forall|k: int|
            0 <= k < real_instructions(s1).len() && #[trigger] real_instructions(s1)[k] is Address
                && is_symbolic(real_instructions(s1)[k]->Address_0@) ==> label_of(
                bind_labels(s1)->Ok_0.0,
                bind_labels(s1)->Ok_0.1,
                real_instructions(s1)[k]->Address_0@,
            ) == label_of(
                bind_labels(s2)->Ok_0.0,
                bind_labels(s2)->Ok_0.1,
                real_instructions(s1)[k]->Address_0@,
            ),
    ensures
        assembled(s1) is Ok <==> assembled(s2) is Ok,
        assembled(s1) is Ok ==> assembled(s1) == assembled(s2),
{
    let (names1, pcs1) = bind_labels(s1)->Ok_0;
    let (names2, pcs2) = bind_labels(s2)->Ok_0;
    let t = real_instructions(s1);
    lemma_emit_without_labels(s1, names1, pcs1);
    lemma_emit_without_labels(s2, names2, pcs2);
    lemma_emit_same_labels(t, names1, pcs1, names2, pcs2);
}

/// The operands that get a variable, in order of first use: those that
/// name something and are not labels, each once.
pub open spec fn fresh_symbols(s: Seq<Instruction>, names: Seq<Seq<char>>, pcs: Seq<nat>) -> Seq<
    Seq<char>,
>
    decreases s.len(),
{
    if s.len() == 0 {
        Seq::empty()
    } else {
        let before = fresh_symbols(s.drop_last(), names, pcs);
        match s.last() {
            Instruction::Address(sym) => if is_symbolic(sym@) && label_of(names, pcs, sym@) is None
                && find(before, sym@) < 0 {
                before.push(sym@)
            } else {
                before
            },
            _ => before,
        }
    }
}

/// The variables the second pass allocates are the fresh symbols, and the
/// word of each operand that names a variable is 16 plus the variable's
/// place among them.
proof fn lemma_emit_variables(s: Seq<Instruction>, names: Seq<Seq<char>>, pcs: Seq<nat>)
    requires
        emit(s, names, pcs) is Ok,
    ensures
        ({
            let (words, vars) = emit(s, names, pcs)->Ok_0;
            &&& vars == fresh_symbols(s, names, pcs)
            &&& vars.no_duplicates()
            &&& words.len() == word_count(s)
            &&& forall|k: int|
                0 <= k < s.len() && #[trigger] s[k] is Address && is_symbolic(s[k]->Address_0@)
                    && label_of(names, pcs, s[k]->Address_0@) is None ==> {
                    &&& find(vars, s[k]->Address_0@) >= 0
                    &&& words[word_count(s.subrange(0, k)) as int] == 16 + find(
                        vars,
                        s[k]->Address_0@,
                    )
                }
        }),
    decreases s.len(),
{
    if s.len() > 0 {
        let pre = s.drop_last();
        lemma_emit_variables(pre, names, pcs);
        lemma_emit_words(pre, names, pcs);
        lemma_word_count_step(s, s.len() - 1);
        assert(s.subrange(0, s.len() - 1) =~= pre);
        assert(s.subrange(0, s.len() as int) =~= s);
        let (wp, vp) = emit(pre, names, pcs)->Ok_0;
        let (words, vars) = emit(s, names, pcs)->Ok_0;
        if let Instruction::Address(sym) = s.last() {
            lemma_find_bound(vp, sym@);
            assert(vp.push(sym@).drop_last() =~= vp);
            if find(vp, sym@) < 0 && is_symbolic(sym@) && label_of(names, pcs, sym@) is None {
                assert forall|i: int, j: int|
                    0 <= i < vars.len() && 0 <= j < vars.len() && i != j implies vars[i]
                    != vars[j] by {
                    if i < vp.len() && j < vp.len() {
                        assert(vp[i] != vp[j]);
                    }
                }
            }
        }
        assert forall|k: int|
            0 <= k < s.len() && #[trigger] s[k] is Address && is_symbolic(s[k]->Address_0@)
                && label_of(names, pcs, s[k]->Address_0@) is None implies {
            &&& find(vars, s[k]->Address_0@) >= 0
            &&& words[word_count(s.subrange(0, k)) as int] == 16 + find(vars, s[k]->Address_0@)
        } by {
            let name = s[k]->Address_0@;
            if k < s.len() - 1 {
                assert(s.subrange(0, k) =~= pre.subrange(0, k));
                assert(pre[k] == s[k]);
                lemma_word_count_step(pre, k);
                lemma_word_count_prefix(pre, k + 1);
                if let Instruction::Address(sym) = s.last() {
                    if vars != vp {
                        assert(vars == vp.push(sym@));
                        assert(find(vars, name) == find(vp, name));
                    }
                }
            }
        }
    }
}

/// Variables are allocated from 16 up in order of first use: an operand
/// that names neither a label nor a predefined symbol and is no numeral
/// loads 16 plus the number of distinct such operands first used before
/// it, and later uses of the same operand load the same address.
pub proof fn lemma_variables_in_order_of_first_use(s: Seq<Instruction>)
    requires
        assembled(s) is Ok,
    ensures
        ({
            let (names, pcs) = bind_labels(s)->Ok_0;
            let fresh = fresh_symbols(s, names, pcs);
            &&& fresh.no_duplicates()
            &&& forall|k: int|
                0 <= k < s.len() && #[trigger] s[k] is Address && is_symbolic(s[k]->Address_0@)
                    && label_of(names, pcs, s[k]->Address_0@) is None ==> {
                    &&& 0 <= find(fresh, s[k]->Address_0@) < fresh.len()
                    &&& fresh[find(fresh, s[k]->Address_0@)] == s[k]->Address_0@
                    &&& assembled(s)->Ok_0[word_count(s.subrange(0, k)) as int] == 16 + find(
                        fresh,
                        s[k]->Address_0@,
                    )
                }
        }),
{
    let (names, pcs) = bind_labels(s)->Ok_0;
    lemma_emit_variables(s, names, pcs);
    let fresh = fresh_symbols(s, names, pcs);
    assert forall|k: int|
        0 <= k < s.len() && #[trigger] s[k] is Address && is_symbolic(s[k]->Address_0@)
            && label_of(names, pcs, s[k]->Address_0@) is None implies 0 <= find(
        fresh,
        s[k]->Address_0@,
    ) < fresh.len() && fresh[find(fresh, s[k]->Address_0@)] == s[k]->Address_0@ by {
        lemma_find_bound(fresh, s[k]->Address_0@);
    }
}

} // verus!
