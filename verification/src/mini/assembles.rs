//! The assembly text that `compile` produces always assembles: every line is
//! an instruction the assembler reads or the definition of a label, no label
//! is defined twice, and every label a jump names is defined.

use vstd::prelude::*;

use super::codegen::{dec, digit_char, label_line, label_name, line1, line2, line3, reg};
use super::compiler::{
    alloc_var, assign_stmt, block, cond_head, emit, expect, ident, if_stmt, lemma_alloc_bound, lemma_slot_from_bound,
    let_stmt, op_name, program, slot_from, stmt, store_stmt, tok_at, use_var, var_reg, while_stmt, write_stmt, Gen,
};
use super::{compiled, ends_with_halt, lex, with_final_halt, TokV};
use crate::assembler::{
    all_digits, assembled, content, digits_value, first_pass, is_digit, is_ws, items, label_lookup, lemma_first_index,
    lemma_trim_start_skip, lemma_ws_index, line_args, line_instruction, lines_of, mnemonic_of, parse_bounded,
    reg_operand, second_pass, split_on, trim, trim_start, upper, upper_key, ws_index, AsmFault, LineFault, Mnemonic,
};
use crate::field::P;
use crate::vm::{Instruction, Opcode};

verus! {

/// The decimal numeral of `n` is a non-empty run of digits that reads back
/// as `n`.
proof fn lemma_dec(n: nat)
    ensures
        dec(n).len() >= 1,
        all_digits(dec(n)),
        digits_value(dec(n)) == n,
    decreases n,
{
    let c = digit_char(n % 10);
    assert(is_digit(c));
    assert(c as nat - '0' as nat == n % 10);
    if n >= 10 {
        lemma_dec(n / 10);
        let d = dec(n);
        assert(d.drop_last() =~= dec(n / 10));
        assert(d.last() == c);
        assert(forall|i: int| 0 <= i < d.len() - 1 ==> d[i] == dec(n / 10)[i]);
        assert((n / 10) * 10 + n % 10 == n) by (nonlinear_arith);
        assert(digits_value(d) == digits_value(d.drop_last()) * 10 + (d.last() as nat - '0' as nat) as nat);
        assert(digits_value(d.drop_last()) == n / 10);
    } else {
        let d = dec(n);
        assert(d.drop_last() =~= Seq::<char>::empty());
        assert(d.last() == c);
        assert(digits_value(d) == digits_value(d.drop_last()) * 10 + (d.last() as nat - '0' as nat) as nat);
        assert(digits_value(d.drop_last()) == 0);
    }
}

/// A decimal numeral parses back to its value.
proof fn lemma_parse_dec(n: nat, max: nat)
    requires
        n <= max,
    ensures
        parse_bounded(dec(n), max) == Some(n),
{
    lemma_dec(n);
    assert(is_digit(dec(n)[0]));
}

/// Trimming leaves alone a text that starts and ends with non-white space.
proof fn lemma_trim_id(s: Seq<char>)
    requires
        s.len() > 0,
        !is_ws(s[0]),
        !is_ws(s.last()),
    ensures
        trim(s) == s,
{
}

/// Trimming removes one leading space.
proof fn lemma_trim_space(s: Seq<char>)
    requires
        s.len() > 0,
        !is_ws(s[0]),
        !is_ws(s.last()),
    ensures
        trim(seq![' '] + s) == s,
{
    let t = seq![' '] + s;
    assert(t.drop_first() =~= s);
    assert(trim_start(t) == trim_start(s));
}

/// A register operand as the compiler writes it reads back as the register.
proof fn lemma_reg_operand(a: nat)
    requires
        a < 8,
    ensures
        reg_operand(reg(a)) == Ok::<u32, crate::assembler::LineFault>(a as u32),
        reg_operand(seq![' '] + reg(a)) == Ok::<u32, crate::assembler::LineFault>(a as u32),
{
    reveal_strlit("r");
    lemma_dec(a);
    let t = reg(a);
    assert(t[0] == 'r');
    assert(t.last() == dec(a).last());
    assert(is_digit(dec(a)[dec(a).len() - 1]));
    lemma_trim_id(t);
    lemma_trim_space(t);
    assert(t.drop_first() =~= dec(a));
    lemma_parse_dec(a, u32::MAX as nat);
}

/// Splitting at commas a text whose first piece has no comma.
proof fn lemma_split_comma(a: Seq<char>, rest: Seq<char>)
    requires
        forall|i: int| 0 <= i < a.len() ==> #[trigger] a[i] != ',',
    ensures
        split_on(a + seq![','] + rest, ',') == seq![a] + split_on(rest, ','),
{
    let s = a + seq![','] + rest;
    lemma_first_index(s, ',', a.len() as int);
    assert(s.take(a.len() as int) =~= a);
    assert(s.skip(a.len() as int + 1) =~= rest);
}

/// Splitting at commas a text with no comma.
proof fn lemma_split_none(a: Seq<char>)
    requires
        forall|i: int| 0 <= i < a.len() ==> #[trigger] a[i] != ',',
    ensures
        split_on(a, ',') == seq![a],
{
    lemma_first_index(a, ',', a.len() as int);
}

/// Upper-casing leaves upper-case ASCII letters alone.
proof fn lemma_upper_key_id(s: Seq<char>)
    requires
        forall|i: int| 0 <= i < s.len() ==> 'A' <= #[trigger] s[i] <= 'Z',
    ensures
        upper_key(s) == s,
    decreases s.len(),
{
    if s.len() > 0 {
        lemma_upper_key_id(s.drop_last());
        assert(upper(s.last()) == seq![s.last()]);
        assert(s.drop_last() + seq![s.last()] =~= s);
    }
}

/// The mnemonic texts the compiler writes name their mnemonics.
proof fn lemma_mnemonics()
    ensures
        mnemonic_of(upper_key("ADD"@)) == Some(Mnemonic::Add),
        mnemonic_of(upper_key("SUB"@)) == Some(Mnemonic::Sub),
        mnemonic_of(upper_key("MUL"@)) == Some(Mnemonic::Mul),
        mnemonic_of(upper_key("IMM"@)) == Some(Mnemonic::Imm),
        mnemonic_of(upper_key("LOAD"@)) == Some(Mnemonic::Load),
        mnemonic_of(upper_key("STORE"@)) == Some(Mnemonic::Store),
        mnemonic_of(upper_key("JMP"@)) == Some(Mnemonic::Jmp),
        mnemonic_of(upper_key("JZ"@)) == Some(Mnemonic::Jz),
        mnemonic_of(upper_key("READ"@)) == Some(Mnemonic::Read),
        mnemonic_of(upper_key("WRITE"@)) == Some(Mnemonic::Write),
        mnemonic_of(upper_key("HALT"@)) == Some(Mnemonic::Halt),
        mnemonic_of(upper_key("MOV"@)) == Some(Mnemonic::Mov),
{
    reveal_strlit("ADD");
    reveal_strlit("SUB");
    reveal_strlit("MUL");
    reveal_strlit("IMM");
    reveal_strlit("LOAD");
    reveal_strlit("STORE");
    reveal_strlit("JMP");
    reveal_strlit("JZ");
    reveal_strlit("READ");
    reveal_strlit("WRITE");
    reveal_strlit("HALT");
    reveal_strlit("MOV");
    lemma_upper_key_id("ADD"@);
    lemma_upper_key_id("SUB"@);
    lemma_upper_key_id("MUL"@);
    lemma_upper_key_id("IMM"@);
    lemma_upper_key_id("LOAD"@);
    lemma_upper_key_id("STORE"@);
    lemma_upper_key_id("JMP"@);
    lemma_upper_key_id("JZ"@);
    lemma_upper_key_id("READ"@);
    lemma_upper_key_id("WRITE"@);
    lemma_upper_key_id("HALT"@);
    lemma_upper_key_id("MOV"@);
    assert("ADD"@ =~= seq!['A', 'D', 'D']);
    assert("SUB"@ =~= seq!['S', 'U', 'B']);
    assert("MUL"@ =~= seq!['M', 'U', 'L']);
    assert("IMM"@ =~= seq!['I', 'M', 'M']);
    assert("LOAD"@ =~= seq!['L', 'O', 'A', 'D']);
    assert("STORE"@ =~= seq!['S', 'T', 'O', 'R', 'E']);
    assert("JMP"@ =~= seq!['J', 'M', 'P']);
    assert("JZ"@ =~= seq!['J', 'Z']);
    assert("READ"@ =~= seq!['R', 'E', 'A', 'D']);
    assert("WRITE"@ =~= seq!['W', 'R', 'I', 'T', 'E']);
    assert("HALT"@ =~= seq!['H', 'A', 'L', 'T']);
    assert("MOV"@ =~= seq!['M', 'O', 'V']);
}

/// A line `m operands`: the mnemonic is `m` and the operands are the
/// comma-separated pieces of `ops`.
proof fn lemma_line_split(m: Seq<char>, ops: Seq<char>)
    requires
        m.len() > 0,
        forall|i: int| 0 <= i < m.len() ==> !is_ws(#[trigger] m[i]),
        ops.len() > 0,
        !is_ws(ops[0]),
        !is_ws(ops.last()),
    ensures
        ({
            let line = m + seq![' '] + ops;
            &&& line.take(ws_index(line) as int) == m
            &&& line_args(line) == split_on(ops, ',')
        }),
{
    let line = m + seq![' '] + ops;
    lemma_ws_index(line, m.len() as int);
    assert(line.take(m.len() as int) =~= m);
    assert(line.skip(m.len() as int + 1) =~= ops);
    lemma_trim_id(ops);
}

/// A line of the assembly text the compiler writes.
pub enum AsmLine {
    /// `HALT`.
    Halt,
    /// `READ` or `WRITE` with one register.
    Reg1(Seq<char>, nat),
    /// `MOV`, `LOAD` or `STORE` with two registers.
    Reg2(Seq<char>, nat, nat),
    /// `ADD`, `SUB` or `MUL` with three registers.
    Reg3(Seq<char>, nat, nat, nat),
    /// `IMM` with a register and a value.
    Imm(nat, nat),
    /// `JZ` with a register and a label.
    Jz(nat, Seq<char>),
    /// `JMP` with a label.
    Jmp(Seq<char>),
    /// The definition of a label.
    Def(Seq<char>),
}

/// Two operand texts joined by a comma and a space.
pub open spec fn join2(x: Seq<char>, y: Seq<char>) -> Seq<char> {
    x + seq![','] + (seq![' '] + y)
}

/// The text of a line after its indentation: what the assembler reads.
pub open spec fn body_text(l: AsmLine) -> Seq<char> {
    match l {
        AsmLine::Halt => "HALT"@,
        AsmLine::Reg1(m, a) => m + seq![' '] + reg(a),
        AsmLine::Reg2(m, a, b) => m + seq![' '] + join2(reg(a), reg(b)),
        AsmLine::Reg3(m, a, b, c) => m + seq![' '] + join2(reg(a), join2(reg(b), reg(c))),
        AsmLine::Imm(a, v) => "IMM"@ + seq![' '] + join2(reg(a), dec(v)),
        AsmLine::Jz(a, t) => "JZ"@ + seq![' '] + join2(reg(a), t),
        AsmLine::Jmp(t) => "JMP"@ + seq![' '] + t,
        AsmLine::Def(name) => name + seq![':'],
    }
}

/// The text of a line: instructions are indented by four spaces.
pub open spec fn render(l: AsmLine) -> Seq<char> {
    match l {
        AsmLine::Def(_) => body_text(l),
        _ => seq![' ', ' ', ' ', ' '] + body_text(l),
    }
}

/// A label as the compiler names them: `_`, letters, then digits.
pub open spec fn label_text(t: Seq<char>) -> bool {
    &&& t.len() >= 2
    &&& t[0] == '_'
    &&& is_digit(t.last())
    &&& forall|i: int| 0 <= i < t.len() ==> ('a' <= #[trigger] t[i] <= 'z' || is_digit(t[i]) || t[i] == '_')
}

/// A line as the compiler writes it: known mnemonics, registers below 8,
/// values that fit in 64 bits, labels named as the compiler names them.
pub open spec fn line_ok(l: AsmLine) -> bool {
    match l {
        AsmLine::Halt => true,
        AsmLine::Reg1(m, a) => (m == "READ"@ || m == "WRITE"@) && a < 8,
        AsmLine::Reg2(m, a, b) => (m == "MOV"@ || m == "LOAD"@ || m == "STORE"@) && a < 8 && b < 8,
        AsmLine::Reg3(m, a, b, c) => (m == "ADD"@ || m == "SUB"@ || m == "MUL"@) && a < 8 && b < 8 && c < 8,
        AsmLine::Imm(a, v) => a < 8 && v <= u64::MAX,
        AsmLine::Jz(a, t) => a < 8 && label_text(t),
        AsmLine::Jmp(t) => label_text(t),
        AsmLine::Def(name) => label_text(name),
    }
}

/// Every label of `labels` is named as the compiler names labels.
pub open spec fn labels_named(labels: Seq<(Seq<char>, u32)>) -> bool {
    forall|i: int| 0 <= i < labels.len() ==> label_text(#[trigger] labels[i].0)
}

proof fn lemma_label_text_facts(t: Seq<char>)
    requires
        label_text(t),
    ensures
        !is_ws(t[0]),
        !is_ws(t.last()),
        forall|i: int| 0 <= i < t.len() ==> #[trigger] t[i] != ',' && !is_ws(t[i]),
{
}

proof fn lemma_lookup_number(labels: Seq<(Seq<char>, u32)>, v: nat)
    requires
        labels_named(labels),
    ensures
        label_lookup(labels, dec(v)) is None,
    decreases labels.len(),
{
    lemma_dec(v);
    if labels.len() > 0 {
        assert(label_text(labels.last().0));
        assert(labels.last().0 != dec(v)) by {
            assert(is_digit(dec(v)[0]));
        }
        assert(labels_named(labels.drop_last())) by {
            assert forall|i: int| 0 <= i < labels.drop_last().len() implies label_text(
                #[trigger] labels.drop_last()[i].0,
            ) by {
                assert(labels.drop_last()[i] == labels[i]);
            }
        }
        lemma_lookup_number(labels.drop_last(), v);
    }
}

proof fn lemma_reg_text_facts(a: nat)
    ensures
        reg(a).len() > 0,
        !is_ws(reg(a)[0]),
        !is_ws(reg(a).last()),
        forall|i: int| 0 <= i < reg(a).len() ==> #[trigger] reg(a)[i] != ',',
{
    reveal_strlit("r");
    lemma_dec(a);
    assert(reg(a).last() == dec(a).last());
    assert(is_digit(dec(a)[dec(a).len() - 1]));
    assert forall|i: int| 0 <= i < reg(a).len() implies #[trigger] reg(a)[i] != ',' by {
        if i > 0 {
            assert(reg(a)[i] == dec(a)[i - 1]);
        }
    }
}

proof fn lemma_no_comma_after_space(x: Seq<char>)
    requires
        forall|i: int| 0 <= i < x.len() ==> #[trigger] x[i] != ',',
    ensures
        forall|i: int| 0 <= i < (seq![' '] + x).len() ==> #[trigger] (seq![' '] + x)[i] != ',',
{
    assert forall|i: int| 0 <= i < (seq![' '] + x).len() implies #[trigger] (seq![' '] + x)[i] != ',' by {
        if i > 0 {
            assert((seq![' '] + x)[i] == x[i - 1]);
        }
    }
}

/// The opcode an instruction line's mnemonic stands for (`MOV` being
/// `ADD` with `r0` as the last operand).
pub open spec fn mnemonic_opcode(m: Seq<char>) -> Opcode {
    if m == seq!['A', 'D', 'D'] || m == seq!['M', 'O', 'V'] {
        Opcode::Add
    } else if m == seq!['S', 'U', 'B'] {
        Opcode::Sub
    } else if m == seq!['M', 'U', 'L'] {
        Opcode::Mul
    } else if m == seq!['L', 'O', 'A', 'D'] {
        Opcode::Load
    } else if m == seq!['S', 'T', 'O', 'R', 'E'] {
        Opcode::Store
    } else if m == seq!['R', 'E', 'A', 'D'] {
        Opcode::Read
    } else {
        Opcode::Write
    }
}

proof fn lemma_mnemonic_words()
    ensures
        "ADD"@ == seq!['A', 'D', 'D'],
        "SUB"@ == seq!['S', 'U', 'B'],
        "MUL"@ == seq!['M', 'U', 'L'],
        "MOV"@ == seq!['M', 'O', 'V'],
        "LOAD"@ == seq!['L', 'O', 'A', 'D'],
        "STORE"@ == seq!['S', 'T', 'O', 'R', 'E'],
        "READ"@ == seq!['R', 'E', 'A', 'D'],
        "WRITE"@ == seq!['W', 'R', 'I', 'T', 'E'],
{
    reveal_strlit("ADD");
    reveal_strlit("SUB");
    reveal_strlit("MUL");
    reveal_strlit("MOV");
    reveal_strlit("LOAD");
    reveal_strlit("STORE");
    reveal_strlit("READ");
    reveal_strlit("WRITE");
    assert("ADD"@ =~= seq!['A', 'D', 'D']);
    assert("SUB"@ =~= seq!['S', 'U', 'B']);
    assert("MUL"@ =~= seq!['M', 'U', 'L']);
    assert("MOV"@ =~= seq!['M', 'O', 'V']);
    assert("LOAD"@ =~= seq!['L', 'O', 'A', 'D']);
    assert("STORE"@ =~= seq!['S', 'T', 'O', 'R', 'E']);
    assert("READ"@ =~= seq!['R', 'E', 'A', 'D']);
    assert("WRITE"@ =~= seq!['W', 'R', 'I', 'T', 'E']);
}

proof fn lemma_halt_parses(labels: Seq<(Seq<char>, u32)>)
    ensures
        line_instruction(body_text(AsmLine::Halt), labels) == Ok::<Instruction, LineFault>(
            Instruction { op: Opcode::Halt, a: 0, b: 0, c: 0 },
        ),
{
    lemma_mnemonics();
    reveal_strlit("HALT");
    let c = body_text(AsmLine::Halt);
    lemma_ws_index(c, 4);
    assert(c.take(4) =~= c);
}

proof fn lemma_reg1_parses(m: Seq<char>, a: nat, labels: Seq<(Seq<char>, u32)>)
    requires
        line_ok(AsmLine::Reg1(m, a)),
    ensures
        line_instruction(body_text(AsmLine::Reg1(m, a)), labels) == Ok::<Instruction, LineFault>(
            Instruction { op: mnemonic_opcode(m), a: a as u32, b: 0, c: 0 },
        ),
{
    lemma_mnemonics();
    lemma_mnemonic_words();
    reveal_strlit("READ");
    reveal_strlit("WRITE");
    lemma_reg_text_facts(a);
    lemma_line_split(m, reg(a));
    lemma_split_none(reg(a));
    lemma_reg_operand(a);
}

#[verifier::spinoff_prover]
#[verifier::rlimit(40)]
proof fn lemma_reg2_parses(m: Seq<char>, a: nat, b: nat, labels: Seq<(Seq<char>, u32)>)
    requires
        line_ok(AsmLine::Reg2(m, a, b)),
    ensures
        line_instruction(body_text(AsmLine::Reg2(m, a, b)), labels) == Ok::<Instruction, LineFault>(
            Instruction { op: mnemonic_opcode(m), a: a as u32, b: b as u32, c: 0 },
        ),
{
    lemma_mnemonics();
    lemma_mnemonic_words();
    reveal_strlit("MOV");
    reveal_strlit("LOAD");
    reveal_strlit("STORE");
    lemma_reg_text_facts(a);
    lemma_reg_text_facts(b);
    lemma_line_split(m, join2(reg(a), reg(b)));
    lemma_split_comma(reg(a), seq![' '] + reg(b));
    lemma_no_comma_after_space(reg(b));
    lemma_split_none(seq![' '] + reg(b));
    lemma_reg_operand(a);
    lemma_reg_operand(b);
}

#[verifier::spinoff_prover]
#[verifier::rlimit(40)]
proof fn lemma_reg3_parses(m: Seq<char>, a: nat, b: nat, c: nat, labels: Seq<(Seq<char>, u32)>)
    requires
        line_ok(AsmLine::Reg3(m, a, b, c)),
    ensures
        line_instruction(body_text(AsmLine::Reg3(m, a, b, c)), labels) == Ok::<Instruction, LineFault>(
            Instruction { op: mnemonic_opcode(m), a: a as u32, b: b as u32, c: c as u32 },
        ),
{
    lemma_mnemonics();
    lemma_mnemonic_words();
    reveal_strlit("ADD");
    reveal_strlit("SUB");
    reveal_strlit("MUL");
    lemma_reg_text_facts(a);
    lemma_reg_text_facts(b);
    lemma_reg_text_facts(c);
    let tail = join2(reg(b), reg(c));
    lemma_line_split(m, join2(reg(a), tail));
    lemma_split_comma(reg(a), seq![' '] + tail);
    let sb = seq![' '] + reg(b);
    let sc = seq![' '] + reg(c);
    assert(seq![' '] + tail =~= sb + seq![','] + sc);
    lemma_no_comma_after_space(reg(b));
    lemma_no_comma_after_space(reg(c));
    lemma_split_comma(sb, sc);
    lemma_split_none(sc);
    lemma_reg_operand(a);
    lemma_reg_operand(b);
    lemma_reg_operand(c);
}

proof fn lemma_imm_parses(a: nat, v: nat, labels: Seq<(Seq<char>, u32)>)
    requires
        line_ok(AsmLine::Imm(a, v)),
        labels_named(labels),
    ensures
        line_instruction(body_text(AsmLine::Imm(a, v)), labels) == Ok::<Instruction, LineFault>(
            Instruction { op: Opcode::Imm, a: a as u32, b: (v % (P as nat)) as u32, c: 0 },
        ),
{
    lemma_mnemonics();
    reveal_strlit("IMM");
    lemma_reg_text_facts(a);
    lemma_dec(v);
    assert(is_digit(dec(v)[0]));
    assert(is_digit(dec(v)[dec(v).len() - 1]));
    assert forall|i: int| 0 <= i < dec(v).len() implies #[trigger] dec(v)[i] != ',' by {
        assert(is_digit(dec(v)[i]));
    }
    lemma_line_split("IMM"@, join2(reg(a), dec(v)));
    lemma_split_comma(reg(a), seq![' '] + dec(v));
    lemma_no_comma_after_space(dec(v));
    lemma_split_none(seq![' '] + dec(v));
    lemma_reg_operand(a);
    lemma_trim_space(dec(v));
    lemma_lookup_number(labels, v);
    lemma_parse_dec(v, u64::MAX as nat);
}

#[verifier::spinoff_prover]
proof fn lemma_jz_parses(a: nat, t: Seq<char>, labels: Seq<(Seq<char>, u32)>)
    requires
        line_ok(AsmLine::Jz(a, t)),
        label_lookup(labels, t) is Some,
    ensures
        line_instruction(body_text(AsmLine::Jz(a, t)), labels) is Ok,
{
    lemma_mnemonics();
    reveal_strlit("JZ");
    lemma_reg_text_facts(a);
    lemma_label_text_facts(t);
    lemma_line_split("JZ"@, join2(reg(a), t));
    lemma_split_comma(reg(a), seq![' '] + t);
    lemma_no_comma_after_space(t);
    lemma_split_none(seq![' '] + t);
    lemma_reg_operand(a);
    lemma_trim_space(t);
}

proof fn lemma_jmp_parses(t: Seq<char>, labels: Seq<(Seq<char>, u32)>)
    requires
        line_ok(AsmLine::Jmp(t)),
        label_lookup(labels, t) is Some,
    ensures
        line_instruction(body_text(AsmLine::Jmp(t)), labels) is Ok,
{
    lemma_mnemonics();
    reveal_strlit("JMP");
    lemma_label_text_facts(t);
    lemma_line_split("JMP"@, t);
    lemma_split_none(t);
    lemma_trim_id(t);
}

/// An instruction line the compiler writes assembles, given that the labels
/// it names are defined and every defined label is named as the compiler
/// names labels.
proof fn lemma_line_parses(l: AsmLine, labels: Seq<(Seq<char>, u32)>)
    requires
        line_ok(l),
        !(l is Def),
        labels_named(labels),
        l matches AsmLine::Jz(_, t) ==> label_lookup(labels, t) is Some,
        l matches AsmLine::Jmp(t) ==> label_lookup(labels, t) is Some,
    ensures
        line_instruction(body_text(l), labels) is Ok,
{
    match l {
        AsmLine::Halt => lemma_halt_parses(labels),
        AsmLine::Reg1(m, a) => lemma_reg1_parses(m, a, labels),
        AsmLine::Reg2(m, a, b) => lemma_reg2_parses(m, a, b, labels),
        AsmLine::Reg3(m, a, b, c) => lemma_reg3_parses(m, a, b, c, labels),
        AsmLine::Imm(a, v) => lemma_imm_parses(a, v, labels),
        AsmLine::Jz(a, t) => lemma_jz_parses(a, t, labels),
        AsmLine::Jmp(t) => lemma_jmp_parses(t, labels),
        AsmLine::Def(_) => {},
    }
}

/// Instruction lines as the compiler writes them read back as the
/// instruction they name, with the operands in textual order: `ADD`, `SUB`
/// or `MUL rA, rB, rC` as `(op, a, b, c)`; `LOAD` or `STORE rA, rB` as
/// `(op, a, b, 0)`; `MOV rA, rB` as `(ADD, a, b, 0)`, that is
/// `ADD rA, rB, r0`; `READ` or `WRITE rA` as `(op, a, 0, 0)`; `IMM rA, V` as
/// `(IMM, a, V mod P, 0)`; and `HALT` as `(HALT, 0, 0, 0)`.
pub proof fn lemma_instruction_lines(l: AsmLine, labels: Seq<(Seq<char>, u32)>)
    requires
        line_ok(l),
        labels_named(labels),
    ensures
        match l {
            AsmLine::Reg3(m, a, b, c) => line_instruction(body_text(l), labels) == Ok::<Instruction, LineFault>(
                Instruction { op: mnemonic_opcode(m), a: a as u32, b: b as u32, c: c as u32 },
            ),
            AsmLine::Reg2(m, a, b) => line_instruction(body_text(l), labels) == Ok::<Instruction, LineFault>(
                Instruction { op: mnemonic_opcode(m), a: a as u32, b: b as u32, c: 0 },
            ),
            AsmLine::Reg1(m, a) => line_instruction(body_text(l), labels) == Ok::<Instruction, LineFault>(
                Instruction { op: mnemonic_opcode(m), a: a as u32, b: 0, c: 0 },
            ),
            AsmLine::Imm(a, v) => line_instruction(body_text(l), labels) == Ok::<Instruction, LineFault>(
                Instruction { op: Opcode::Imm, a: a as u32, b: (v % (P as nat)) as u32, c: 0 },
            ),
            AsmLine::Halt => line_instruction(body_text(l), labels) == Ok::<Instruction, LineFault>(
                Instruction { op: Opcode::Halt, a: 0, b: 0, c: 0 },
            ),
            _ => true,
        },
{
    match l {
        AsmLine::Halt => lemma_halt_parses(labels),
        AsmLine::Reg1(m, a) => lemma_reg1_parses(m, a, labels),
        AsmLine::Reg2(m, a, b) => lemma_reg2_parses(m, a, b, labels),
        AsmLine::Reg3(m, a, b, c) => lemma_reg3_parses(m, a, b, c, labels),
        AsmLine::Imm(a, v) => lemma_imm_parses(a, v, labels),
        _ => {},
    }
}

/// The assembly text of a sequence of lines: each line and a newline.
pub open spec fn text_of(ls: Seq<AsmLine>) -> Seq<char>
    decreases ls.len(),
{
    if ls.len() == 0 {
        seq![]
    } else {
        text_of(ls.drop_last()) + render(ls.last()) + seq!['\n']
    }
}

/// The text of one line holds neither a newline nor a `;`, and what the
/// assembler reads of it starts and ends with non-white space, ends with
/// `:` exactly for a label definition, and is then the label and the `:`.
proof fn lemma_render_facts(l: AsmLine)
    requires
        line_ok(l),
    ensures
        forall|i: int| 0 <= i < render(l).len() ==> #[trigger] render(l)[i] != '\n' && render(l)[i] != ';',
        body_text(l).len() > 0,
        !is_ws(body_text(l)[0]),
        !is_ws(body_text(l).last()),
        (body_text(l).last() == ':') == (l is Def),
        l matches AsmLine::Def(name) ==> body_text(l).drop_last() == name,
{
    let b = body_text(l);
    let r = render(l);
    match l {
        AsmLine::Def(name) => {
            assert(b.drop_last() =~= name);
            assert forall|i: int| 0 <= i < r.len() implies #[trigger] r[i] != '\n' && r[i] != ';' by {
                if i < name.len() {
                    assert(r[i] == name[i]);
                }
            }
        },
        _ => {
            lemma_body_text_chars(l);
            assert forall|i: int| 0 <= i < r.len() implies #[trigger] r[i] != '\n' && r[i] != ';' by {
                if i >= 4 {
                    assert(r[i] == b[i - 4]);
                    assert(body_char(b[i - 4]));
                }
            }
        },
    }
}

/// A character that may stand in an instruction's text: a letter, a digit,
/// `_`, a space or a comma.
pub open spec fn body_char(c: char) -> bool {
    ('a' <= c <= 'z') || ('A' <= c <= 'Z') || is_digit(c) || c == '_' || c == ' ' || c == ','
}

/// Every character of `s` may stand in an instruction's text.
pub open spec fn all_body(s: Seq<char>) -> bool {
    forall|i: int| 0 <= i < s.len() ==> body_char(#[trigger] s[i])
}

proof fn lemma_all_body_concat(a: Seq<char>, b: Seq<char>)
    requires
        all_body(a),
        all_body(b),
    ensures
        all_body(a + b),
{
    assert forall|i: int| 0 <= i < (a + b).len() implies body_char(#[trigger] (a + b)[i]) by {
        if i < a.len() {
            assert((a + b)[i] == a[i]);
        } else {
            assert((a + b)[i] == b[i - a.len()]);
        }
    }
}

proof fn lemma_reg_body(a: nat)
    ensures
        all_body(reg(a)),
        is_digit(reg(a).last()),
{
    reveal_strlit("r");
    lemma_dec(a);
    assert forall|i: int| 0 <= i < reg(a).len() implies body_char(#[trigger] reg(a)[i]) by {
        if i > 0 {
            assert(reg(a)[i] == dec(a)[i - 1]);
        }
    }
    assert(reg(a).last() == dec(a)[dec(a).len() - 1]);
}

proof fn lemma_join2_body(x: Seq<char>, y: Seq<char>)
    requires
        all_body(x),
        all_body(y),
        y.len() > 0,
    ensures
        all_body(join2(x, y)),
        join2(x, y).last() == y.last(),
{
    assert(all_body(seq![',']));
    assert(all_body(seq![' ']));
    lemma_all_body_concat(x, seq![',']);
    lemma_all_body_concat(seq![' '], y);
    lemma_all_body_concat(x + seq![','], seq![' '] + y);
}

/// An uppercase mnemonic word the compiler writes.
pub open spec fn mnemonic_word(m: Seq<char>) -> bool {
    m.len() > 0 && forall|i: int| 0 <= i < m.len() ==> 'A' <= #[trigger] m[i] <= 'Z'
}

proof fn lemma_words()
    ensures
        mnemonic_word("ADD"@),
        mnemonic_word("SUB"@),
        mnemonic_word("MUL"@),
        mnemonic_word("IMM"@),
        mnemonic_word("LOAD"@),
        mnemonic_word("STORE"@),
        mnemonic_word("JMP"@),
        mnemonic_word("JZ"@),
        mnemonic_word("READ"@),
        mnemonic_word("WRITE"@),
        mnemonic_word("HALT"@),
        mnemonic_word("MOV"@),
{
    reveal_strlit("ADD");
    reveal_strlit("SUB");
    reveal_strlit("MUL");
    reveal_strlit("IMM");
    reveal_strlit("LOAD");
    reveal_strlit("STORE");
    reveal_strlit("JMP");
    reveal_strlit("JZ");
    reveal_strlit("READ");
    reveal_strlit("WRITE");
    reveal_strlit("HALT");
    reveal_strlit("MOV");
}

proof fn lemma_word_line_body(m: Seq<char>, ops: Seq<char>)
    requires
        mnemonic_word(m),
        all_body(ops),
        ops.len() > 0,
    ensures
        all_body(m + seq![' '] + ops),
        'A' <= (m + seq![' '] + ops)[0] <= 'Z',
        (m + seq![' '] + ops).last() == ops.last(),
{
    assert(all_body(m));
    assert(all_body(seq![' ']));
    lemma_all_body_concat(m, seq![' ']);
    lemma_all_body_concat(m + seq![' '], ops);
}

/// The text of an instruction: its characters may stand in an instruction,
/// it starts with an uppercase letter and ends with an uppercase letter or a
/// digit.
proof fn lemma_body_text_chars(l: AsmLine)
    requires
        line_ok(l),
        !(l is Def),
    ensures
        all_body(body_text(l)),
        body_text(l).len() > 0,
        'A' <= body_text(l)[0] <= 'Z',
        ('A' <= body_text(l).last() <= 'Z') || is_digit(body_text(l).last()),
{
    lemma_words();
    match l {
        AsmLine::Halt => {
            reveal_strlit("HALT");
        },
        AsmLine::Reg1(m, a) => {
            lemma_reg_body(a);
            lemma_word_line_body(m, reg(a));
        },
        AsmLine::Reg2(m, a, b) => {
            lemma_reg_body(a);
            lemma_reg_body(b);
            lemma_join2_body(reg(a), reg(b));
            lemma_word_line_body(m, join2(reg(a), reg(b)));
        },
        AsmLine::Reg3(m, a, b, c) => {
            lemma_reg_body(a);
            lemma_reg_body(b);
            lemma_reg_body(c);
            lemma_join2_body(reg(b), reg(c));
            lemma_join2_body(reg(a), join2(reg(b), reg(c)));
            lemma_word_line_body(m, join2(reg(a), join2(reg(b), reg(c))));
        },
        AsmLine::Imm(a, v) => {
            lemma_reg_body(a);
            lemma_dec(v);
            assert(all_body(dec(v))) by {
                assert forall|i: int| 0 <= i < dec(v).len() implies body_char(#[trigger] dec(v)[i]) by {
                    assert(is_digit(dec(v)[i]));
                }
            }
            assert(is_digit(dec(v)[dec(v).len() - 1]));
            lemma_join2_body(reg(a), dec(v));
            lemma_word_line_body("IMM"@, join2(reg(a), dec(v)));
        },
        AsmLine::Jz(a, t) => {
            lemma_reg_body(a);
            assert(all_body(t));
            lemma_join2_body(reg(a), t);
            lemma_word_line_body("JZ"@, join2(reg(a), t));
        },
        AsmLine::Jmp(t) => {
            assert(all_body(t));
            lemma_word_line_body("JMP"@, t);
        },
        AsmLine::Def(_) => {},
    }
}

/// The texts of the lines.
pub open spec fn renders(ls: Seq<AsmLine>) -> Seq<Seq<char>> {
    Seq::new(ls.len(), |i: int| render(ls[i]))
}

/// Every line is one the compiler writes.
pub open spec fn lines_ok(ls: Seq<AsmLine>) -> bool {
    forall|i: int| 0 <= i < ls.len() ==> line_ok(#[trigger] ls[i])
}

proof fn lemma_text_front(ls: Seq<AsmLine>)
    requires
        ls.len() > 0,
    ensures
        text_of(ls) == render(ls[0]) + seq!['\n'] + text_of(ls.drop_first()),
    decreases ls.len(),
{
    if ls.len() == 1 {
        assert(ls.drop_last() =~= Seq::<AsmLine>::empty());
        assert(ls.drop_first() =~= Seq::<AsmLine>::empty());
        assert(text_of(ls) =~= render(ls[0]) + seq!['\n'] + text_of(ls.drop_first()));
    } else {
        let init = ls.drop_last();
        lemma_text_front(init);
        assert(ls.drop_first().drop_last() =~= init.drop_first());
        assert(ls.drop_first().last() == ls.last());
        assert(init[0] == ls[0]);
        assert(text_of(ls) =~= render(ls[0]) + seq!['\n'] + text_of(ls.drop_first()));
    }
}

proof fn lemma_split_at(a: Seq<char>, c: char, rest: Seq<char>)
    requires
        forall|i: int| 0 <= i < a.len() ==> #[trigger] a[i] != c,
    ensures
        split_on(a + seq![c] + rest, c) == seq![a] + split_on(rest, c),
{
    let s = a + seq![c] + rest;
    lemma_first_index(s, c, a.len() as int);
    assert(s.take(a.len() as int) =~= a);
    assert(s.skip(a.len() as int + 1) =~= rest);
}

proof fn lemma_split_text(ls: Seq<AsmLine>)
    requires
        lines_ok(ls),
    ensures
        split_on(text_of(ls), '\n') == renders(ls).push(seq![]),
    decreases ls.len(),
{
    if ls.len() == 0 {
        lemma_first_index(Seq::<char>::empty(), '\n', 0);
        assert(renders(ls).push(seq![]) =~= seq![Seq::<char>::empty()]);
    } else {
        lemma_text_front(ls);
        assert(line_ok(ls[0]));
        lemma_render_facts(ls[0]);
        lemma_split_at(render(ls[0]), '\n', text_of(ls.drop_first()));
        assert(lines_ok(ls.drop_first())) by {
            assert forall|i: int| 0 <= i < ls.drop_first().len() implies line_ok(#[trigger] ls.drop_first()[i]) by {
                assert(ls.drop_first()[i] == ls[i + 1]);
            }
        }
        lemma_split_text(ls.drop_first());
        assert(renders(ls).push(seq![]) =~= seq![render(ls[0])] + renders(ls.drop_first()).push(seq![]));
    }
}

proof fn lemma_lines_of_text(ls: Seq<AsmLine>)
    requires
        lines_ok(ls),
    ensures
        lines_of(text_of(ls)) == renders(ls),
{
    lemma_split_text(ls);
    if ls.len() == 0 {
        assert(renders(ls) =~= Seq::<Seq<char>>::empty());
    } else {
        assert(text_of(ls).last() == '\n');
        assert(renders(ls).push(seq![]).drop_last() =~= renders(ls));
    }
}

proof fn lemma_content(l: AsmLine)
    requires
        line_ok(l),
    ensures
        content(render(l)) == body_text(l),
{
    let r = render(l);
    let b = body_text(l);
    lemma_render_facts(l);
    lemma_first_index(r, ';', r.len() as int);
    assert(r.take(r.len() as int) =~= r);
    if l is Def {
        lemma_trim_id(b);
    } else {
        assert forall|k: int| 0 <= k < 4 implies is_ws(#[trigger] r[k]) by {}
        lemma_trim_start_skip(r, 4);
        assert(r.skip(4) =~= b);
        lemma_trim_id(b);
    }
}

proof fn lemma_items_text(ls: Seq<AsmLine>)
    requires
        lines_ok(ls),
    ensures
        items(renders(ls)) == Seq::new(ls.len(), |i: int| ((i + 1) as nat, body_text(ls[i]))),
    decreases ls.len(),
{
    if ls.len() > 0 {
        let init = ls.drop_last();
        assert(lines_ok(init)) by {
            assert forall|i: int| 0 <= i < init.len() implies line_ok(#[trigger] init[i]) by {
                assert(init[i] == ls[i]);
            }
        }
        lemma_items_text(init);
        assert(renders(ls).drop_last() =~= renders(init));
        assert(line_ok(ls.last()));
        lemma_content(ls.last());
        lemma_render_facts(ls.last());
        assert(renders(ls).last() == render(ls.last()));
        assert(items(renders(ls)) =~= Seq::new(ls.len(), |i: int| ((i + 1) as nat, body_text(ls[i]))));
    } else {
        assert(items(renders(ls)) =~= Seq::new(ls.len(), |i: int| ((i + 1) as nat, body_text(ls[i]))));
    }
}

/// What the assembler's first pass makes of the lines: the labels with the
/// index of the instruction each precedes, and the instruction lines with
/// their line numbers.
pub open spec fn passes(ls: Seq<AsmLine>) -> (Seq<(Seq<char>, u32)>, Seq<(nat, Seq<char>)>)
    decreases ls.len(),
{
    if ls.len() == 0 {
        (seq![], seq![])
    } else {
        let (labels, body) = passes(ls.drop_last());
        match ls.last() {
            AsmLine::Def(name) => (labels.push((name, body.len() as u32)), body),
            l => (labels, body.push((ls.len(), body_text(l)))),
        }
    }
}

/// No label is defined twice.
pub open spec fn defs_distinct(ls: Seq<AsmLine>) -> bool {
    forall|i: int, j: int|
        0 <= i < j < ls.len() && (#[trigger] ls[i]) is Def && (#[trigger] ls[j]) is Def ==> ls[i]->Def_0
            != ls[j]->Def_0
}

/// Some line of `seg` defines label `t`.
pub open spec fn defines(seg: Seq<AsmLine>, t: Seq<char>) -> bool {
    exists|j: int| 0 <= j < seg.len() && seg[j] == AsmLine::Def(t)
}

/// Every label a jump of `seg` names is defined by a line of `all`.
pub open spec fn refs_in(seg: Seq<AsmLine>, all: Seq<AsmLine>) -> bool {
    forall|i: int|
        0 <= i < seg.len() ==> match #[trigger] seg[i] {
            AsmLine::Jz(_, t) => defines(all, t),
            AsmLine::Jmp(t) => defines(all, t),
            _ => true,
        }
}

/// Every label a jump names is defined by some line.
pub open spec fn targets_defined(ls: Seq<AsmLine>) -> bool {
    refs_in(ls, ls)
}

proof fn lemma_passes_labels(ls: Seq<AsmLine>, x: Seq<char>)
    ensures
        label_lookup(passes(ls).0, x) is Some <==> exists|j: int| 0 <= j < ls.len() && ls[j] == AsmLine::Def(x),
    decreases ls.len(),
{
    if ls.len() > 0 {
        let init = ls.drop_last();
        lemma_passes_labels(init, x);
        let lb = passes(init).0;
        if let AsmLine::Def(name) = ls.last() {
            let e = (name, passes(init).1.len() as u32);
            assert(passes(ls).0 == lb.push(e));
            assert(lb.push(e).drop_last() =~= lb);
            assert(lb.push(e).last() == e);
            if name == x {
                assert(ls[ls.len() - 1] == AsmLine::Def(x));
            }
        } else {
            assert(passes(ls).0 == lb);
            assert(ls[ls.len() - 1] != AsmLine::Def(x));
        }
        if exists|j: int| 0 <= j < init.len() && init[j] == AsmLine::Def(x) {
            let j = choose|j: int| 0 <= j < init.len() && init[j] == AsmLine::Def(x);
            assert(ls[j] == init[j]);
        }
        if exists|j: int| 0 <= j < ls.len() && ls[j] == AsmLine::Def(x) {
            let j = choose|j: int| 0 <= j < ls.len() && ls[j] == AsmLine::Def(x);
            if j < init.len() {
                assert(init[j] == ls[j]);
            }
        }
    }
}

proof fn lemma_passes_named(ls: Seq<AsmLine>)
    requires
        lines_ok(ls),
    ensures
        labels_named(passes(ls).0),
    decreases ls.len(),
{
    if ls.len() > 0 {
        let init = ls.drop_last();
        assert(lines_ok(init)) by {
            assert forall|i: int| 0 <= i < init.len() implies line_ok(#[trigger] init[i]) by {
                assert(init[i] == ls[i]);
            }
        }
        lemma_passes_named(init);
        assert(line_ok(ls.last()));
    }
}

proof fn lemma_first_pass_text(ls: Seq<AsmLine>)
    requires
        lines_ok(ls),
        defs_distinct(ls),
    ensures
        first_pass(Seq::new(ls.len(), |i: int| ((i + 1) as nat, body_text(ls[i])))) == Ok::<
            (Seq<(Seq<char>, u32)>, Seq<(nat, Seq<char>)>),
            AsmFault,
        >(passes(ls)),
    decreases ls.len(),
{
    let its = Seq::new(ls.len(), |i: int| ((i + 1) as nat, body_text(ls[i])));
    if ls.len() > 0 {
        let init = ls.drop_last();
        assert(lines_ok(init)) by {
            assert forall|i: int| 0 <= i < init.len() implies line_ok(#[trigger] init[i]) by {
                assert(init[i] == ls[i]);
            }
        }
        assert(defs_distinct(init)) by {
            assert forall|i: int, j: int|
                0 <= i < j < init.len() && (#[trigger] init[i]) is Def && (#[trigger] init[j]) is Def implies init[i]->Def_0
                != init[j]->Def_0 by {
                assert(init[i] == ls[i] && init[j] == ls[j]);
            }
        }
        lemma_first_pass_text(init);
        assert(its.drop_last() =~= Seq::new(init.len(), |i: int| ((i + 1) as nat, body_text(init[i]))));
        let l = ls.last();
        assert(line_ok(l));
        lemma_render_facts(l);
        if let AsmLine::Def(name) = l {
            lemma_trim_id(name);
            lemma_passes_labels(init, name);
            if exists|j: int| 0 <= j < init.len() && init[j] == AsmLine::Def(name) {
                let j = choose|j: int| 0 <= j < init.len() && init[j] == AsmLine::Def(name);
                assert(ls[j] == init[j]);
                assert(ls[ls.len() - 1] == l);
            }
        }
    }
}

proof fn lemma_second_pass_text(ls: Seq<AsmLine>, labels: Seq<(Seq<char>, u32)>)
    requires
        lines_ok(ls),
        labels_named(labels),
        forall|i: int|
            0 <= i < ls.len() ==> match #[trigger] ls[i] {
                AsmLine::Jz(_, t) => label_lookup(labels, t) is Some,
                AsmLine::Jmp(t) => label_lookup(labels, t) is Some,
                _ => true,
            },
    ensures
        second_pass(passes(ls).1, labels) is Ok,
    decreases ls.len(),
{
    if ls.len() > 0 {
        let init = ls.drop_last();
        assert(lines_ok(init)) by {
            assert forall|i: int| 0 <= i < init.len() implies line_ok(#[trigger] init[i]) by {
                assert(init[i] == ls[i]);
            }
        }
        assert forall|i: int| 0 <= i < init.len() implies match #[trigger] init[i] {
            AsmLine::Jz(_, t) => label_lookup(labels, t) is Some,
            AsmLine::Jmp(t) => label_lookup(labels, t) is Some,
            _ => true,
        } by {
            assert(init[i] == ls[i]);
        }
        lemma_second_pass_text(init, labels);
        let l = ls.last();
        assert(line_ok(l));
        assert(match ls[ls.len() - 1] {
            AsmLine::Jz(_, t) => label_lookup(labels, t) is Some,
            AsmLine::Jmp(t) => label_lookup(labels, t) is Some,
            _ => true,
        });
        if !(l is Def) {
            lemma_line_parses(l, labels);
            assert(passes(ls).1 == passes(init).1.push((ls.len(), body_text(l))));
            assert(passes(ls).1.drop_last() =~= passes(init).1);
        }
    }
}

/// Lines that the compiler writes, with no label defined twice and every
/// label a jump names defined, assemble.
proof fn lemma_text_assembles(ls: Seq<AsmLine>)
    requires
        lines_ok(ls),
        defs_distinct(ls),
        targets_defined(ls),
    ensures
        assembled(text_of(ls)) is Ok,
{
    lemma_lines_of_text(ls);
    lemma_items_text(ls);
    lemma_first_pass_text(ls);
    lemma_passes_named(ls);
    let labels = passes(ls).0;
    assert forall|i: int| 0 <= i < ls.len() implies match #[trigger] ls[i] {
        AsmLine::Jz(_, t) => label_lookup(labels, t) is Some,
        AsmLine::Jmp(t) => label_lookup(labels, t) is Some,
        _ => true,
    } by {
        match ls[i] {
            AsmLine::Jz(_, t) => lemma_passes_labels(ls, t),
            AsmLine::Jmp(t) => lemma_passes_labels(ls, t),
            _ => {},
        }
    }
    lemma_second_pass_text(ls, labels);
}

/// A label prefix: lowercase letters.
pub open spec fn prefix_word(p: Seq<char>) -> bool {
    p.len() > 0 && forall|i: int| 0 <= i < p.len() ==> 'a' <= #[trigger] p[i] <= 'z'
}

proof fn lemma_prefixes()
    ensures
        prefix_word("else"@),
        prefix_word("endif"@),
        prefix_word("then"@),
        prefix_word("loop"@),
        prefix_word("endloop"@),
        prefix_word("body"@),
{
    reveal_strlit("else");
    reveal_strlit("endif");
    reveal_strlit("then");
    reveal_strlit("loop");
    reveal_strlit("endloop");
    reveal_strlit("body");
}

/// A label the compiler makes is named as labels are.
proof fn lemma_label_name_text(p: Seq<char>, j: nat)
    requires
        prefix_word(p),
    ensures
        label_text(label_name(p, j)),
{
    reveal_strlit("_");
    lemma_dec(j);
    let t = label_name(p, j);
    let d = dec(j);
    assert(t =~= seq!['_'] + p + d);
    assert(t.last() == d[d.len() - 1]);
    assert forall|i: int| 0 <= i < t.len() implies ('a' <= #[trigger] t[i] <= 'z' || is_digit(t[i]) || t[i] == '_') by {
        if i == 0 {
        } else if i < 1 + p.len() {
            assert(t[i] == p[i - 1]);
        } else {
            assert(t[i] == d[i - 1 - p.len()]);
        }
    }
}

/// Different counters make different labels.
proof fn lemma_label_name_injective(p1: Seq<char>, j1: nat, p2: Seq<char>, j2: nat)
    requires
        prefix_word(p1),
        prefix_word(p2),
        label_name(p1, j1) == label_name(p2, j2),
    ensures
        j1 == j2,
{
    reveal_strlit("_");
    lemma_dec(j1);
    lemma_dec(j2);
    let d1 = dec(j1);
    let d2 = dec(j2);
    let s1 = seq!['_'] + p1 + d1;
    let s2 = seq!['_'] + p2 + d2;
    assert(s1 =~= label_name(p1, j1));
    assert(s2 =~= label_name(p2, j2));
    let n = s1.len();
    if d1.len() < d2.len() {
        let i = n - d1.len() - 1;
        assert(s1[i] == p1[p1.len() - 1]);
        assert(s2[i] == d2[d2.len() - d1.len() - 1]);
        assert(is_digit(d2[d2.len() - d1.len() - 1]));
        assert(false);
    } else if d2.len() < d1.len() {
        let i = n - d2.len() - 1;
        assert(s2[i] == p2[p2.len() - 1]);
        assert(s1[i] == d1[d1.len() - d2.len() - 1]);
        assert(is_digit(d1[d1.len() - d2.len() - 1]));
        assert(false);
    } else {
        assert(d1 =~= s1.skip(n - d1.len()));
        assert(d2 =~= s2.skip(n - d2.len()));
    }
}

/// Label `name` is one the compiler makes with a counter in `cs`.
pub open spec fn named_in(name: Seq<char>, cs: Set<nat>) -> bool {
    exists|p: Seq<char>, j: nat| prefix_word(p) && cs.contains(j) && name == label_name(p, j)
}

/// No label is defined twice in `seg`, and each is made with a counter in
/// `cs`.
pub open spec fn defs_within(seg: Seq<AsmLine>, cs: Set<nat>) -> bool {
    &&& defs_distinct(seg)
    &&& forall|i: int| 0 <= i < seg.len() ==> (#[trigger] seg[i] matches AsmLine::Def(name) ==> named_in(name, cs))
}

/// The counters `lo..hi`.
pub open spec fn counters(lo: nat, hi: nat) -> Set<nat> {
    Set::new(|j: nat| lo <= j < hi)
}

/// A stretch of assembly text as the compiler writes it for its statements:
/// known lines, labels made with counters `lo..hi` and defined once, every
/// jump's label defined within the stretch.
pub open spec fn segment(seg: Seq<AsmLine>, lo: nat, hi: nat) -> bool {
    &&& lines_ok(seg)
    &&& defs_within(seg, counters(lo, hi))
    &&& refs_in(seg, seg)
}

proof fn lemma_lines_ok_concat(a: Seq<AsmLine>, b: Seq<AsmLine>)
    requires
        lines_ok(a),
        lines_ok(b),
    ensures
        lines_ok(a + b),
{
    assert forall|i: int| 0 <= i < (a + b).len() implies line_ok(#[trigger] (a + b)[i]) by {
        if i < a.len() {
            assert((a + b)[i] == a[i]);
        } else {
            assert((a + b)[i] == b[i - a.len()]);
        }
    }
}

proof fn lemma_defs_within_concat(a: Seq<AsmLine>, b: Seq<AsmLine>, ca: Set<nat>, cb: Set<nat>)
    requires
        defs_within(a, ca),
        defs_within(b, cb),
        ca.disjoint(cb),
    ensures
        defs_within(a + b, ca.union(cb)),
{
    let ab = a + b;
    assert forall|i: int| 0 <= i < ab.len() implies (#[trigger] ab[i] matches AsmLine::Def(name) ==> named_in(
        name,
        ca.union(cb),
    )) by {
        if i < a.len() {
            assert(ab[i] == a[i]);
        } else {
            assert(ab[i] == b[i - a.len()]);
        }
        if let AsmLine::Def(name) = ab[i] {
            let cs = if i < a.len() { ca } else { cb };
            let (p, j) = choose|p: Seq<char>, j: nat| prefix_word(p) && cs.contains(j) && name == label_name(p, j);
            assert(ca.union(cb).contains(j));
        }
    }
    assert forall|i: int, j: int|
        0 <= i < j < ab.len() && (#[trigger] ab[i]) is Def && (#[trigger] ab[j]) is Def implies ab[i]->Def_0
        != ab[j]->Def_0 by {
        if j < a.len() {
            assert(ab[i] == a[i] && ab[j] == a[j]);
        } else if i >= a.len() {
            assert(ab[i] == b[i - a.len()] && ab[j] == b[j - a.len()]);
        } else {
            assert(ab[i] == a[i] && ab[j] == b[j - a.len()]);
            let n1 = ab[i]->Def_0;
            let n2 = ab[j]->Def_0;
            let (p1, j1) = choose|p: Seq<char>, k: nat| prefix_word(p) && ca.contains(k) && n1 == label_name(p, k);
            let (p2, j2) = choose|p: Seq<char>, k: nat| prefix_word(p) && cb.contains(k) && n2 == label_name(p, k);
            if n1 == n2 {
                lemma_label_name_injective(p1, j1, p2, j2);
                assert(ca.contains(j1) && cb.contains(j1));
            }
        }
    }
}

proof fn lemma_defs_within_grow(a: Seq<AsmLine>, ca: Set<nat>, cb: Set<nat>)
    requires
        defs_within(a, ca),
        ca.subset_of(cb),
    ensures
        defs_within(a, cb),
{
    assert forall|i: int| 0 <= i < a.len() implies (#[trigger] a[i] matches AsmLine::Def(name) ==> named_in(
        name,
        cb,
    )) by {
        if let AsmLine::Def(name) = a[i] {
            let (p, j) = choose|p: Seq<char>, j: nat| prefix_word(p) && ca.contains(j) && name == label_name(p, j);
            assert(cb.contains(j));
        }
    }
}

proof fn lemma_defines_concat(a: Seq<AsmLine>, b: Seq<AsmLine>, t: Seq<char>)
    ensures
        defines(a, t) ==> defines(a + b, t),
        defines(b, t) ==> defines(a + b, t),
{
    if defines(a, t) {
        let j = choose|j: int| 0 <= j < a.len() && a[j] == AsmLine::Def(t);
        assert((a + b)[j] == a[j]);
    }
    if defines(b, t) {
        let j = choose|j: int| 0 <= j < b.len() && b[j] == AsmLine::Def(t);
        assert((a + b)[a.len() + j] == b[j]);
    }
}

proof fn lemma_refs_concat(a: Seq<AsmLine>, b: Seq<AsmLine>, all: Seq<AsmLine>)
    requires
        refs_in(a, all),
        refs_in(b, all),
    ensures
        refs_in(a + b, all),
{
    assert forall|i: int| 0 <= i < (a + b).len() implies match #[trigger] (a + b)[i] {
        AsmLine::Jz(_, t) => defines(all, t),
        AsmLine::Jmp(t) => defines(all, t),
        _ => true,
    } by {
        if i < a.len() {
            assert((a + b)[i] == a[i]);
        } else {
            assert((a + b)[i] == b[i - a.len()]);
        }
    }
}

/// References defined in a part stay defined in a whole that contains it.
proof fn lemma_refs_widen(a: Seq<AsmLine>, x: Seq<AsmLine>, y: Seq<AsmLine>)
    requires
        refs_in(a, x),
        forall|t: Seq<char>| defines(x, t) ==> defines(y, t),
    ensures
        refs_in(a, y),
{
    assert forall|i: int| 0 <= i < a.len() implies match #[trigger] a[i] {
        AsmLine::Jz(_, t) => defines(y, t),
        AsmLine::Jmp(t) => defines(y, t),
        _ => true,
    } by {
        match a[i] {
            AsmLine::Jz(_, t) => assert(defines(x, t)),
            AsmLine::Jmp(t) => assert(defines(x, t)),
            _ => {},
        }
    }
}

proof fn lemma_text_concat(a: Seq<AsmLine>, b: Seq<AsmLine>)
    ensures
        text_of(a + b) == text_of(a) + text_of(b),
    decreases b.len(),
{
    if b.len() == 0 {
        assert(a + b =~= a);
        assert(text_of(a) + text_of(b) =~= text_of(a));
    } else {
        lemma_text_concat(a, b.drop_last());
        assert((a + b).drop_last() =~= a + b.drop_last());
        assert((a + b).last() == b.last());
        assert(text_of(a + b) =~= text_of(a) + text_of(b));
    }
}

/// Two adjacent stretches make one.
proof fn lemma_segment_concat(a: Seq<AsmLine>, b: Seq<AsmLine>, l0: nat, l1: nat, l2: nat)
    requires
        segment(a, l0, l1),
        segment(b, l1, l2),
        l0 <= l1 <= l2,
    ensures
        segment(a + b, l0, l2),
{
    lemma_lines_ok_concat(a, b);
    assert(counters(l0, l1).disjoint(counters(l1, l2)));
    lemma_defs_within_concat(a, b, counters(l0, l1), counters(l1, l2));
    assert(counters(l0, l1).union(counters(l1, l2)) =~= counters(l0, l2));
    assert forall|t: Seq<char>| defines(a, t) implies defines(a + b, t) by {
        lemma_defines_concat(a, b, t);
    }
    assert forall|t: Seq<char>| defines(b, t) implies defines(a + b, t) by {
        lemma_defines_concat(a, b, t);
    }
    lemma_refs_widen(a, a, a + b);
    lemma_refs_widen(b, b, a + b);
    lemma_refs_concat(a, b, a + b);
}

/// The lines the compiler emits, as texts.
proof fn lemma_line_texts(m: Seq<char>, a: nat, b: nat, c: nat, v: nat, t: Seq<char>)
    ensures
        line1(m, reg(a)) == render(AsmLine::Reg1(m, a)) + seq!['\n'],
        line2(m, reg(a), reg(b)) == render(AsmLine::Reg2(m, a, b)) + seq!['\n'],
        line3(m, reg(a), reg(b), reg(c)) == render(AsmLine::Reg3(m, a, b, c)) + seq!['\n'],
        line2("IMM"@, reg(a), dec(v)) == render(AsmLine::Imm(a, v)) + seq!['\n'],
        line2("JZ"@, reg(a), t) == render(AsmLine::Jz(a, t)) + seq!['\n'],
        line1("JMP"@, t) == render(AsmLine::Jmp(t)) + seq!['\n'],
        label_line(t) == render(AsmLine::Def(t)) + seq!['\n'],
        "    HALT\n"@ == render(AsmLine::Halt) + seq!['\n'],
{
    reveal_strlit("    ");
    reveal_strlit(" ");
    reveal_strlit(", ");
    reveal_strlit("\n");
    reveal_strlit(":\n");
    reveal_strlit("    HALT\n");
    reveal_strlit("HALT");
    assert(line1(m, reg(a)) =~= render(AsmLine::Reg1(m, a)) + seq!['\n']);
    assert(line2(m, reg(a), reg(b)) =~= render(AsmLine::Reg2(m, a, b)) + seq!['\n']);
    assert(line3(m, reg(a), reg(b), reg(c)) =~= render(AsmLine::Reg3(m, a, b, c)) + seq!['\n']);
    assert(line2("IMM"@, reg(a), dec(v)) =~= render(AsmLine::Imm(a, v)) + seq!['\n']);
    assert(line2("JZ"@, reg(a), t) =~= render(AsmLine::Jz(a, t)) + seq!['\n']);
    assert(line1("JMP"@, t) =~= render(AsmLine::Jmp(t)) + seq!['\n']);
    assert(label_line(t) =~= render(AsmLine::Def(t)) + seq!['\n']);
    assert("    HALT\n"@ =~= render(AsmLine::Halt) + seq!['\n']);
}

/// `g2` is `g` with a stretch of lines appended that is made with the label
/// counters from `g`'s to `g2`'s, and `g2` has at most seven variables.
pub open spec fn extends(g: Gen, g2: Gen) -> bool {
    &&& g.labels <= g2.labels
    &&& g2.vars.len() <= 7
    &&& exists|seg: Seq<AsmLine>| g2.code == g.code + text_of(seg) && segment(seg, g.labels, g2.labels)
}

proof fn lemma_extends_refl(g: Gen)
    requires
        g.vars.len() <= 7,
    ensures
        extends(g, g),
{
    let e = Seq::<AsmLine>::empty();
    assert(g.code + text_of(e) =~= g.code);
    assert(segment(e, g.labels, g.labels));
}

proof fn lemma_extends_trans(g1: Gen, g2: Gen, g3: Gen)
    requires
        extends(g1, g2),
        extends(g2, g3),
    ensures
        extends(g1, g3),
{
    let a = choose|seg: Seq<AsmLine>| g2.code == g1.code + text_of(seg) && segment(seg, g1.labels, g2.labels);
    let b = choose|seg: Seq<AsmLine>| g3.code == g2.code + text_of(seg) && segment(seg, g2.labels, g3.labels);
    lemma_text_concat(a, b);
    lemma_segment_concat(a, b, g1.labels, g2.labels, g3.labels);
    assert(g3.code =~= g1.code + text_of(a + b));
}

proof fn lemma_text_single(l: AsmLine)
    ensures
        text_of(seq![l]) == render(l) + seq!['\n'],
{
    let seg = seq![l];
    assert(seg.drop_last() =~= Seq::<AsmLine>::empty());
    assert(seg.last() == l);
    assert(text_of(seg.drop_last()) == Seq::<char>::empty());
    assert(text_of(seg) =~= render(l) + seq!['\n']);
}

/// Appending one line that neither defines nor names a label.
proof fn lemma_extends_line(g: Gen, g1: Gen, l: AsmLine)
    requires
        g1.code == g.code,
        g1.labels == g.labels,
        g1.vars.len() <= 7,
        line_ok(l),
        !(l is Def),
        !(l is Jz),
        !(l is Jmp),
    ensures
        extends(g, emit(g1, render(l) + seq!['\n'])),
{
    let seg = seq![l];
    lemma_text_single(l);
    let g2 = emit(g1, render(l) + seq!['\n']);
    assert(g2.code =~= g.code + text_of(seg));
    assert(lines_ok(seg));
    assert(defs_within(seg, counters(g.labels, g.labels)));
    assert(refs_in(seg, seg));
    assert(segment(seg, g.labels, g2.labels));
    assert(g2.code == g.code + text_of(seg) && segment(seg, g.labels, g2.labels));
}

proof fn lemma_var_reg_bound(vars: Seq<Seq<char>>, name: Seq<char>)
    requires
        vars.len() <= 7,
    ensures
        var_reg(vars, name) matches Ok(r) ==> 1 <= r <= 7,
{
    if slot_from(vars, name, 0) is Some {
        lemma_slot_from_bound(vars, name, 0);
    }
}

proof fn lemma_use_var_bound(toks: Seq<TokV>, pos: nat, vars: Seq<Seq<char>>)
    requires
        vars.len() <= 7,
    ensures
        use_var(toks, pos, vars) matches Ok((r, p)) ==> 1 <= r <= 7 && p == pos + 1 && p <= toks.len(),
{
    if let Ok((w, p)) = ident(toks, pos) {
        lemma_var_reg_bound(vars, w);
    }
}

proof fn lemma_op_name(t: Option<TokV>)
    ensures
        op_name(t) matches Some(m) ==> m == "ADD"@ || m == "SUB"@ || m == "MUL"@,
{
}

proof fn lemma_let_extends(toks: Seq<TokV>, pos: nat, g: Gen)
    requires
        g.vars.len() <= 7,
    ensures
        let_stmt(toks, pos, g) matches Ok((p, g2)) ==> extends(g, g2),
{
    if let Ok((name, p1)) = ident(toks, pos) {
        if let Ok(p2) = expect(toks, p1, '=') {
            lemma_alloc_bound(g.vars, name);
            if let Ok((r, vars)) = alloc_var(g.vars, name) {
                let g1 = Gen { code: g.code, vars: vars, labels: g.labels };
                if tok_at(toks, p2) == Some(TokV::Word("read"@)) {
                    lemma_line_texts("READ"@, r, 0, 0, 0, seq![]);
                    lemma_extends_line(g, g1, AsmLine::Reg1("READ"@, r));
                } else {
                    match tok_at(toks, p2) {
                        Some(TokV::Num(n)) => {
                            lemma_line_texts("IMM"@, r, 0, 0, n as nat, seq![]);
                            lemma_extends_line(g, g1, AsmLine::Imm(r, n as nat));
                        },
                        Some(TokV::Word(src)) => {
                            lemma_var_reg_bound(vars, src);
                            if let Ok(rs) = var_reg(vars, src) {
                                lemma_line_texts("MOV"@, r, rs, 0, 0, seq![]);
                                lemma_extends_line(g, g1, AsmLine::Reg2("MOV"@, r, rs));
                                lemma_op_name(tok_at(toks, p2 + 1));
                                lemma_use_var_bound(toks, p2 + 2, vars);
                                if let Some(m) = op_name(tok_at(toks, p2 + 1)) {
                                    if let Ok((rz, p3)) = use_var(toks, p2 + 2, vars) {
                                        lemma_line_texts(m, r, rs, rz, 0, seq![]);
                                        lemma_extends_line(g, g1, AsmLine::Reg3(m, r, rs, rz));
                                    }
                                }
                            }
                        },
                        _ => {},
                    }
                }
            }
        }
    }
}

proof fn lemma_write_extends(toks: Seq<TokV>, pos: nat, g: Gen)
    requires
        g.vars.len() <= 7,
    ensures
        write_stmt(toks, pos, g) matches Ok((p, g2)) ==> extends(g, g2),
{
    if let Ok(p1) = expect(toks, pos, '(') {
        lemma_use_var_bound(toks, p1, g.vars);
        if let Ok((r, p2)) = use_var(toks, p1, g.vars) {
            lemma_line_texts("WRITE"@, r, 0, 0, 0, seq![]);
            lemma_extends_line(g, g, AsmLine::Reg1("WRITE"@, r));
        }
    }
}

proof fn lemma_store_extends(toks: Seq<TokV>, pos: nat, g: Gen)
    requires
        g.vars.len() <= 7,
    ensures
        store_stmt(toks, pos, g) matches Ok((p, g2)) ==> extends(g, g2),
{
    if let Ok(p1) = expect(toks, pos, '[') {
        lemma_use_var_bound(toks, p1, g.vars);
        if let Ok((ry, p2)) = use_var(toks, p1, g.vars) {
            if let Ok(p3) = expect(toks, p2, ']') {
                if let Ok(p4) = expect(toks, p3, '=') {
                    lemma_use_var_bound(toks, p4, g.vars);
                    if let Ok((rx, p5)) = use_var(toks, p4, g.vars) {
                        lemma_line_texts("STORE"@, ry, rx, 0, 0, seq![]);
                        lemma_extends_line(g, g, AsmLine::Reg2("STORE"@, ry, rx));
                    }
                }
            }
        }
    }
}

proof fn lemma_assign_extends(toks: Seq<TokV>, pos: nat, g: Gen)
    requires
        g.vars.len() <= 7,
    ensures
        assign_stmt(toks, pos, g) matches Ok((p, g2)) ==> extends(g, g2),
{
    lemma_use_var_bound(toks, pos, g.vars);
    if let Ok((r, p1)) = use_var(toks, pos, g.vars) {
        if let Ok(p2) = expect(toks, p1, '=') {
            if tok_at(toks, p2) == Some(TokV::Word("mem"@)) {
                if let Ok(p3) = expect(toks, p2 + 1, '[') {
                    lemma_use_var_bound(toks, p3, g.vars);
                    if let Ok((ry, p4)) = use_var(toks, p3, g.vars) {
                        lemma_line_texts("LOAD"@, r, ry, 0, 0, seq![]);
                        lemma_extends_line(g, g, AsmLine::Reg2("LOAD"@, r, ry));
                    }
                }
            } else {
                lemma_use_var_bound(toks, p2, g.vars);
                if let Ok((ry, p3)) = use_var(toks, p2, g.vars) {
                    lemma_op_name(tok_at(toks, p3));
                    lemma_use_var_bound(toks, p3 + 1, g.vars);
                    if let Some(m) = op_name(tok_at(toks, p3)) {
                        if let Ok((rz, p4)) = use_var(toks, p3 + 1, g.vars) {
                            lemma_line_texts(m, r, ry, rz, 0, seq![]);
                            lemma_extends_line(g, g, AsmLine::Reg3(m, r, ry, rz));
                        }
                    }
                }
            }
        }
    }
}

proof fn lemma_defines_in_whole(
    pre: Seq<AsmLine>,
    b: Seq<AsmLine>,
    mid: Seq<AsmLine>,
    e: Seq<AsmLine>,
    post: Seq<AsmLine>,
    t: Seq<char>,
)
    ensures
        (defines(pre, t) || defines(b, t) || defines(mid, t) || defines(e, t) || defines(post, t)) ==> defines(
            pre + b + mid + e + post,
            t,
        ),
{
    lemma_defines_concat(pre, b, t);
    lemma_defines_concat(pre + b, mid, t);
    lemma_defines_concat(pre + b + mid, e, t);
    lemma_defines_concat(pre + b + mid + e, post, t);
}

/// Five stretches, the second and fourth closed, the others naming labels
/// defined in the whole, with pairwise disjoint counters, make one stretch.
proof fn lemma_whole(
    pre: Seq<AsmLine>,
    b: Seq<AsmLine>,
    mid: Seq<AsmLine>,
    e: Seq<AsmLine>,
    post: Seq<AsmLine>,
    sp: Set<nat>,
    sb: Set<nat>,
    sm: Set<nat>,
    se: Set<nat>,
    spo: Set<nat>,
    lo: nat,
    hi: nat,
)
    requires
        lines_ok(pre),
        lines_ok(b),
        lines_ok(mid),
        lines_ok(e),
        lines_ok(post),
        defs_within(pre, sp),
        defs_within(b, sb),
        defs_within(mid, sm),
        defs_within(e, se),
        defs_within(post, spo),
        sp.disjoint(sb),
        sp.union(sb).disjoint(sm),
        sp.union(sb).union(sm).disjoint(se),
        sp.union(sb).union(sm).union(se).disjoint(spo),
        sp.union(sb).union(sm).union(se).union(spo).subset_of(counters(lo, hi)),
        refs_in(b, b),
        refs_in(e, e),
        refs_in(pre, pre + b + mid + e + post),
        refs_in(mid, pre + b + mid + e + post),
        refs_in(post, pre + b + mid + e + post),
    ensures
        segment(pre + b + mid + e + post, lo, hi),
{
    let w = pre + b + mid + e + post;
    lemma_lines_ok_concat(pre, b);
    lemma_lines_ok_concat(pre + b, mid);
    lemma_lines_ok_concat(pre + b + mid, e);
    lemma_lines_ok_concat(pre + b + mid + e, post);
    lemma_defs_within_concat(pre, b, sp, sb);
    lemma_defs_within_concat(pre + b, mid, sp.union(sb), sm);
    lemma_defs_within_concat(pre + b + mid, e, sp.union(sb).union(sm), se);
    lemma_defs_within_concat(pre + b + mid + e, post, sp.union(sb).union(sm).union(se), spo);
    lemma_defs_within_grow(w, sp.union(sb).union(sm).union(se).union(spo), counters(lo, hi));
    assert forall|t: Seq<char>| defines(b, t) implies defines(w, t) by {
        lemma_defines_in_whole(pre, b, mid, e, post, t);
    }
    assert forall|t: Seq<char>| defines(e, t) implies defines(w, t) by {
        lemma_defines_in_whole(pre, b, mid, e, post, t);
    }
    lemma_refs_widen(b, b, w);
    lemma_refs_widen(e, e, w);
    lemma_refs_concat(pre, b, w);
    lemma_refs_concat(pre + b, mid, w);
    lemma_refs_concat(pre + b + mid, e, w);
    lemma_refs_concat(pre + b + mid + e, post, w);
}

proof fn lemma_text_pair(a: AsmLine, b: AsmLine)
    ensures
        text_of(seq![a, b]) == render(a) + seq!['\n'] + (render(b) + seq!['\n']),
{
    let s = seq![a, b];
    assert(s.drop_last() =~= seq![a]);
    lemma_text_single(a);
    assert(text_of(s) =~= render(a) + seq!['\n'] + (render(b) + seq!['\n']));
}

proof fn lemma_text_triple(a: AsmLine, b: AsmLine, c: AsmLine)
    ensures
        text_of(seq![a, b, c]) == render(a) + seq!['\n'] + (render(b) + seq!['\n']) + (render(c) + seq!['\n']),
{
    let s = seq![a, b, c];
    assert(s.drop_last() =~= seq![a, b]);
    lemma_text_pair(a, b);
    assert(text_of(s) =~= render(a) + seq!['\n'] + (render(b) + seq!['\n']) + (render(c) + seq!['\n']));
}

proof fn lemma_text_five(pre: Seq<AsmLine>, b: Seq<AsmLine>, mid: Seq<AsmLine>, e: Seq<AsmLine>, post: Seq<AsmLine>)
    ensures
        text_of(pre + b + mid + e + post) == text_of(pre) + text_of(b) + text_of(mid) + text_of(e) + text_of(post),
{
    lemma_text_concat(pre, b);
    lemma_text_concat(pre + b, mid);
    lemma_text_concat(pre + b + mid, e);
    lemma_text_concat(pre + b + mid + e, post);
}

proof fn lemma_cond_head_bounds(toks: Seq<TokV>, pos: nat, vars: Seq<Seq<char>>, in_while: bool)
    requires
        vars.len() <= 7,
    ensures
        cond_head(toks, pos, vars, in_while) matches Ok((r, e, p)) ==> 1 <= r <= 7 && pos < p <= toks.len(),
{
    lemma_use_var_bound(toks, pos, vars);
}

proof fn lemma_named_single(p: Seq<char>, j: nat)
    requires
        prefix_word(p),
    ensures
        named_in(label_name(p, j), set![j]),
{
    assert(set![j].contains(j));
}

/// The stretch an `if` appends, from the states around its parts.
#[verifier::spinoff_prover]
#[verifier::rlimit(40)]
proof fn lemma_if_pieces(g: Gen, r: nat, is_eq: bool, g1: Gen, g2: Gen, g3: Gen, g4: Gen)
    requires
        g.vars.len() <= 7,
        1 <= r <= 7,
        g1 == (if is_eq {
            Gen {
                code: g.code + line2("JZ"@, reg(r), label_name("then"@, g.labels + 2)) + line1(
                    "JMP"@,
                    label_name("else"@, g.labels),
                ) + label_line(label_name("then"@, g.labels + 2)),
                vars: g.vars,
                labels: g.labels + 3,
            }
        } else {
            Gen {
                code: g.code + line2("JZ"@, reg(r), label_name("else"@, g.labels)),
                vars: g.vars,
                labels: g.labels + 2,
            }
        }),
        extends(g1, g2),
        g3 == emit(emit(g2, line1("JMP"@, label_name("endif"@, g.labels + 1))), label_line(label_name("else"@, g.labels))),
        extends(g3, g4),
    ensures
        extends(g, emit(g4, label_line(label_name("endif"@, g.labels + 1)))),
{
    let c = g.labels;
    lemma_prefixes();
    let le = label_name("else"@, c);
    let lend = label_name("endif"@, c + 1);
    let lt = label_name("then"@, c + 2);
    lemma_label_name_text("else"@, c);
    lemma_label_name_text("endif"@, c + 1);
    lemma_label_name_text("then"@, c + 2);
    let fin = emit(g4, label_line(lend));
    let bseg = choose|seg: Seq<AsmLine>| g2.code == g1.code + text_of(seg) && segment(seg, g1.labels, g2.labels);
    let eseg = choose|seg: Seq<AsmLine>| g4.code == g3.code + text_of(seg) && segment(seg, g3.labels, g4.labels);
    let pre = if is_eq {
        seq![AsmLine::Jz(r, lt), AsmLine::Jmp(le), AsmLine::Def(lt)]
    } else {
        seq![AsmLine::Jz(r, le)]
    };
    let sp = if is_eq { set![c + 2] } else { Set::<nat>::empty() };
    let mid = seq![AsmLine::Jmp(lend), AsmLine::Def(le)];
    let post = seq![AsmLine::Def(lend)];
    lemma_line_texts("JZ"@, r, 0, 0, 0, lt);
    lemma_line_texts("JZ"@, r, 0, 0, 0, le);
    lemma_line_texts("JMP"@, 0, 0, 0, 0, le);
    lemma_line_texts("JMP"@, 0, 0, 0, 0, lend);
    lemma_line_texts("JMP"@, 0, 0, 0, 0, lt);
    lemma_text_single(AsmLine::Jz(r, le));
    lemma_text_triple(AsmLine::Jz(r, lt), AsmLine::Jmp(le), AsmLine::Def(lt));
    lemma_text_pair(AsmLine::Jmp(lend), AsmLine::Def(le));
    lemma_text_single(AsmLine::Def(lend));
    assert(g1.code =~= g.code + text_of(pre));
    assert(g3.code =~= g2.code + text_of(mid));
    assert(fin.code =~= g4.code + text_of(post));
    assert(lines_ok(pre));
    assert(lines_ok(mid));
    assert(lines_ok(post));
    lemma_named_single("then"@, c + 2);
    lemma_named_single("else"@, c);
    lemma_named_single("endif"@, c + 1);
    assert(defs_within(pre, sp));
    assert(defs_within(mid, set![c]));
    assert(defs_within(post, set![c + 1]));
    let sb = counters(g1.labels, g2.labels);
    let se = counters(g3.labels, g4.labels);
    let w = pre + bseg + mid + eseg + post;
    lemma_text_five(pre, bseg, mid, eseg, post);
    assert(fin.code =~= g.code + text_of(w));
    assert(w[pre.len() + bseg.len() + 1int] == AsmLine::Def(le));
    assert(w[(pre.len() + bseg.len() + mid.len() + eseg.len()) as int] == AsmLine::Def(lend));
    if is_eq {
        assert(w[2] == AsmLine::Def(lt));
    }
    assert(refs_in(pre, w));
    assert(refs_in(mid, w));
    assert(refs_in(post, w));
    assert(sp.union(sb).union(set![c]).union(se).union(set![c + 1]).subset_of(counters(c, fin.labels)));
    lemma_whole(pre, bseg, mid, eseg, post, sp, sb, set![c], se, set![c + 1], c, fin.labels);
    assert(fin.code == g.code + text_of(w) && segment(w, g.labels, fin.labels));
}

proof fn lemma_if_extends(toks: Seq<TokV>, pos: nat, g: Gen)
    requires
        g.vars.len() <= 7,
    ensures
        if_stmt(toks, pos, g) matches Ok((q, g5)) ==> extends(g, g5),
    decreases toks.len() - pos, 0nat,
{
    lemma_cond_head_bounds(toks, pos, g.vars, false);
    if let Ok((r, is_eq, p)) = cond_head(toks, pos, g.vars, false) {
        let c = g.labels;
        let le = label_name("else"@, c);
        let lend = label_name("endif"@, c + 1);
        let lt = label_name("then"@, c + 2);
        let g1 = if is_eq {
            Gen {
                code: g.code + line2("JZ"@, reg(r), lt) + line1("JMP"@, le) + label_line(lt),
                vars: g.vars,
                labels: c + 3,
            }
        } else {
            Gen { code: g.code + line2("JZ"@, reg(r), le), vars: g.vars, labels: c + 2 }
        };
        lemma_block_extends(toks, p, g1);
        if let Ok((p2, g2)) = block(toks, p, g1) {
            if p < p2 <= toks.len() {
                let g3 = emit(emit(g2, line1("JMP"@, lend)), label_line(le));
                if tok_at(toks, p2) == Some(TokV::Word("else"@)) {
                    if let Ok(p3) = expect(toks, p2 + 1, '{') {
                        lemma_block_extends(toks, p3, g3);
                        if let Ok((p4, g4)) = block(toks, p3, g3) {
                            lemma_if_pieces(g, r, is_eq, g1, g2, g3, g4);
                        }
                    }
                } else {
                    lemma_extends_refl(g3);
                    lemma_if_pieces(g, r, is_eq, g1, g2, g3, g3);
                }
            }
        }
    }
}

/// The stretch a `while` appends, from the states around its body.
#[verifier::spinoff_prover]
#[verifier::rlimit(40)]
proof fn lemma_while_pieces(g: Gen, r: nat, is_eq: bool, g1: Gen, g2: Gen)
    requires
        g.vars.len() <= 7,
        1 <= r <= 7,
        g1 == (if is_eq {
            Gen {
                code: g.code + label_line(label_name("loop"@, g.labels)) + line2(
                    "JZ"@,
                    reg(r),
                    label_name("body"@, g.labels + 2),
                ) + line1("JMP"@, label_name("endloop"@, g.labels + 1)) + label_line(label_name("body"@, g.labels + 2)),
                vars: g.vars,
                labels: g.labels + 3,
            }
        } else {
            Gen {
                code: g.code + label_line(label_name("loop"@, g.labels)) + line2(
                    "JZ"@,
                    reg(r),
                    label_name("endloop"@, g.labels + 1),
                ),
                vars: g.vars,
                labels: g.labels + 2,
            }
        }),
        extends(g1, g2),
    ensures
        extends(
            g,
            emit(emit(g2, line1("JMP"@, label_name("loop"@, g.labels))), label_line(label_name("endloop"@, g.labels + 1))),
        ),
{
    let c = g.labels;
    lemma_prefixes();
    let ltop = label_name("loop"@, c);
    let lend = label_name("endloop"@, c + 1);
    let lbody = label_name("body"@, c + 2);
    lemma_label_name_text("loop"@, c);
    lemma_label_name_text("endloop"@, c + 1);
    lemma_label_name_text("body"@, c + 2);
    let fin = emit(emit(g2, line1("JMP"@, ltop)), label_line(lend));
    let bseg = choose|seg: Seq<AsmLine>| g2.code == g1.code + text_of(seg) && segment(seg, g1.labels, g2.labels);
    let pre = if is_eq {
        seq![AsmLine::Def(ltop), AsmLine::Jz(r, lbody), AsmLine::Jmp(lend), AsmLine::Def(lbody)]
    } else {
        seq![AsmLine::Def(ltop), AsmLine::Jz(r, lend)]
    };
    let sp = if is_eq { set![c, c + 2] } else { set![c] };
    let mid = seq![AsmLine::Jmp(ltop), AsmLine::Def(lend)];
    let e = Seq::<AsmLine>::empty();
    let post = Seq::<AsmLine>::empty();
    lemma_line_texts("JZ"@, r, 0, 0, 0, lbody);
    lemma_line_texts("JZ"@, r, 0, 0, 0, lend);
    lemma_line_texts("JMP"@, 0, 0, 0, 0, lend);
    lemma_line_texts("JMP"@, 0, 0, 0, 0, ltop);
    lemma_line_texts("JMP"@, 0, 0, 0, 0, lbody);
    lemma_text_pair(AsmLine::Def(ltop), AsmLine::Jz(r, lend));
    lemma_text_pair(AsmLine::Jmp(ltop), AsmLine::Def(lend));
    lemma_text_pair(AsmLine::Jmp(lend), AsmLine::Def(lbody));
    lemma_text_pair(AsmLine::Def(ltop), AsmLine::Jz(r, lbody));
    let p1 = seq![AsmLine::Def(ltop), AsmLine::Jz(r, lbody)];
    let p2 = seq![AsmLine::Jmp(lend), AsmLine::Def(lbody)];
    lemma_text_concat(p1, p2);
    assert(p1 + p2 =~= seq![AsmLine::Def(ltop), AsmLine::Jz(r, lbody), AsmLine::Jmp(lend), AsmLine::Def(lbody)]);
    assert(g1.code =~= g.code + text_of(pre));
    assert(fin.code =~= g2.code + text_of(mid));
    assert(text_of(e) == Seq::<char>::empty());
    assert(lines_ok(pre));
    assert(lines_ok(mid));
    assert(lines_ok(e));
    lemma_named_single("endloop"@, c + 1);
    assert(named_in(ltop, sp)) by {
        assert(sp.contains(c));
    }
    if is_eq {
        assert(named_in(lbody, sp)) by {
            assert(sp.contains(c + 2));
        }
        if ltop == lbody {
            lemma_label_name_injective("loop"@, c, "body"@, c + 2);
        }
    }
    assert(defs_within(pre, sp));
    assert(defs_within(mid, set![c + 1]));
    assert(defs_within(e, Set::<nat>::empty()));
    let sb = counters(g1.labels, g2.labels);
    let w = pre + bseg + mid + e + post;
    lemma_text_five(pre, bseg, mid, e, post);
    assert(fin.code =~= g.code + text_of(w));
    assert(w[0] == AsmLine::Def(ltop));
    assert(w[pre.len() + bseg.len() + 1int] == AsmLine::Def(lend));
    if is_eq {
        assert(w[3] == AsmLine::Def(lbody));
    }
    assert(refs_in(pre, w));
    assert(refs_in(mid, w));
    assert(refs_in(post, w));
    assert(sp.union(sb).union(set![c + 1]).union(Set::<nat>::empty()).union(Set::<nat>::empty()).subset_of(
        counters(c, fin.labels),
    ));
    lemma_whole(pre, bseg, mid, e, post, sp, sb, set![c + 1], Set::<nat>::empty(), Set::<nat>::empty(), c, fin.labels);
    assert(fin.code == g.code + text_of(w) && segment(w, g.labels, fin.labels));
}

proof fn lemma_while_extends(toks: Seq<TokV>, pos: nat, g: Gen)
    requires
        g.vars.len() <= 7,
    ensures
        while_stmt(toks, pos, g) matches Ok((q, g5)) ==> extends(g, g5),
    decreases toks.len() - pos, 0nat,
{
    lemma_cond_head_bounds(toks, pos, g.vars, true);
    if let Ok((r, is_eq, p)) = cond_head(toks, pos, g.vars, true) {
        let c = g.labels;
        let ltop = label_name("loop"@, c);
        let lend = label_name("endloop"@, c + 1);
        let lbody = label_name("body"@, c + 2);
        let g1 = if is_eq {
            Gen {
                code: g.code + label_line(ltop) + line2("JZ"@, reg(r), lbody) + line1("JMP"@, lend) + label_line(lbody),
                vars: g.vars,
                labels: c + 3,
            }
        } else {
            Gen { code: g.code + label_line(ltop) + line2("JZ"@, reg(r), lend), vars: g.vars, labels: c + 2 }
        };
        lemma_block_extends(toks, p, g1);
        if let Ok((p2, g2)) = block(toks, p, g1) {
            lemma_while_pieces(g, r, is_eq, g1, g2);
        }
    }
}

proof fn lemma_stmt_extends(toks: Seq<TokV>, pos: nat, g: Gen)
    requires
        g.vars.len() <= 7,
    ensures
        stmt(toks, pos, g) matches Ok((q, g2)) ==> extends(g, g2),
    decreases toks.len() - pos, 0nat,
{
    if let Some(TokV::Word(w)) = tok_at(toks, pos) {
        if w == "let"@ {
            lemma_let_extends(toks, pos + 1, g);
        } else if w == "write"@ {
            lemma_write_extends(toks, pos + 1, g);
        } else if w == "if"@ {
            lemma_if_extends(toks, pos + 1, g);
        } else if w == "while"@ {
            lemma_while_extends(toks, pos + 1, g);
        } else if w == "halt"@ {
            lemma_line_texts(seq![], 0, 0, 0, 0, seq![]);
            lemma_extends_line(g, g, AsmLine::Halt);
        } else if w == "mem"@ {
            lemma_store_extends(toks, pos + 1, g);
        } else {
            lemma_assign_extends(toks, pos, g);
        }
    }
}

proof fn lemma_block_extends(toks: Seq<TokV>, pos: nat, g: Gen)
    requires
        g.vars.len() <= 7,
    ensures
        block(toks, pos, g) matches Ok((q, g2)) ==> extends(g, g2),
    decreases toks.len() - pos, 1nat,
{
    if tok_at(toks, pos) == Some(TokV::Punct('}')) {
        lemma_extends_refl(g);
    } else if pos < toks.len() {
        lemma_stmt_extends(toks, pos, g);
        if let Ok((p, g1)) = stmt(toks, pos, g) {
            if pos < p <= toks.len() {
                lemma_block_extends(toks, p, g1);
                if let Ok((q, g2)) = block(toks, p, g1) {
                    lemma_extends_trans(g, g1, g2);
                }
            }
        }
    }
}

proof fn lemma_program_extends(toks: Seq<TokV>, pos: nat, g: Gen)
    requires
        g.vars.len() <= 7,
    ensures
        program(toks, pos, g) matches Ok(g2) ==> extends(g, g2),
    decreases toks.len() - pos,
{
    if pos >= toks.len() {
        lemma_extends_refl(g);
    } else {
        lemma_stmt_extends(toks, pos, g);
        if let Ok((p, g1)) = stmt(toks, pos, g) {
            if pos < p <= toks.len() {
                lemma_program_extends(toks, p, g1);
                if let Ok(g2) = program(toks, p, g1) {
                    lemma_extends_trans(g, g1, g2);
                }
            }
        }
    }
}

/// What `compile` produces assembles: for every source that compiles, the
/// assembly text, closed by its final `HALT`, is accepted by `assemble` (its lines are instructions the
/// assembler reads and label definitions, no label is defined twice, and
/// every label a jump names is defined).
pub proof fn lemma_compiled_assembles(src: Seq<char>)
    ensures
        compiled(src) matches Ok(text) ==> assembled(text) is Ok,
{
    if let Ok(ts) = lex(src) {
        let g0 = Gen { code: seq![], vars: seq![], labels: 0 };
        lemma_program_extends(ts, 0, g0);
        if let Ok(g) = program(ts, 0, g0) {
            let seg = choose|seg: Seq<AsmLine>| g.code == g0.code + text_of(seg) && segment(seg, 0, g.labels);
            assert(g.code =~= text_of(seg));
            if ends_with_halt(g.code) {
                lemma_text_assembles(seg);
            } else {
                let h = seq![AsmLine::Halt];
                lemma_line_texts(seq![], 0, 0, 0, 0, seq![]);
                lemma_text_single(AsmLine::Halt);
                lemma_text_concat(seg, h);
                assert(lines_ok(h));
                assert(defs_within(h, counters(g.labels, g.labels)));
                assert(refs_in(h, h));
                lemma_segment_concat(seg, h, 0, g.labels, g.labels);
                assert(with_final_halt(g.code) == text_of(seg + h));
                lemma_text_assembles(seg + h);
            }
        }
    }
}

} // verus!
