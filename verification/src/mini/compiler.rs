//! The `mini` compiler proper: statements over the token sequence, with the
//! variables allocated so far and the label counter.

use vstd::prelude::*;

use super::codegen::{dec, label_line, label_name, line1, line2, line3, push_chars, push_dec, push_lit, reg};
use super::{toks_view, CompileError, MiniFault, Tok, TokV};
use crate::assembler::{chars_eq, chars_of};

verus! {

/// What the compiler has produced and allocated when it reaches a token.
#[verifier::ext_equal]
pub struct Gen {
    /// The assembly text emitted so far.
    pub code: Seq<char>,
    /// The variables, in order of allocation; variable `i` lives in `r(i+1)`.
    pub vars: Seq<Seq<char>>,
    /// How many labels have been made.
    pub labels: nat,
}

/// `g` with `text` appended to its assembly.
pub open spec fn emit(g: Gen, text: Seq<char>) -> Gen {
    Gen { code: g.code + text, vars: g.vars, labels: g.labels }
}

/// The token at `pos`, if any.
pub open spec fn tok_at(toks: Seq<TokV>, pos: nat) -> Option<TokV> {
    if pos < toks.len() {
        Some(toks[pos as int])
    } else {
        None
    }
}

/// The position after the punctuation `c` at `pos`.
pub open spec fn expect(toks: Seq<TokV>, pos: nat, c: char) -> Result<nat, MiniFault> {
    if tok_at(toks, pos) == Some(TokV::Punct(c)) {
        Ok(pos + 1)
    } else {
        Err(MiniFault::ExpectedPunct { expected: c, got: tok_at(toks, pos) })
    }
}

/// The identifier at `pos` and the position after it.
pub open spec fn ident(toks: Seq<TokV>, pos: nat) -> Result<(Seq<char>, nat), MiniFault> {
    match tok_at(toks, pos) {
        Some(TokV::Word(w)) => Ok((w, pos + 1)),
        other => Err(MiniFault::ExpectedIdentifier(other)),
    }
}

/// The first index from `i` on at which `vars` holds `name`.
pub open spec fn slot_from(vars: Seq<Seq<char>>, name: Seq<char>, i: nat) -> Option<nat>
    decreases vars.len() - i,
{
    if i >= vars.len() {
        None
    } else if vars[i as int] == name {
        Some(i)
    } else {
        slot_from(vars, name, i + 1)
    }
}

/// The register of variable `name`.
pub open spec fn var_reg(vars: Seq<Seq<char>>, name: Seq<char>) -> Result<nat, MiniFault> {
    match slot_from(vars, name, 0) {
        Some(i) => Ok(i + 1),
        None => Err(MiniFault::UndefinedVariable(name)),
    }
}

/// The register of the variable named at `pos`, and the position after it.
pub open spec fn use_var(toks: Seq<TokV>, pos: nat, vars: Seq<Seq<char>>) -> Result<(nat, nat), MiniFault> {
    match ident(toks, pos) {
        Err(e) => Err(e),
        Ok((w, p)) => match var_reg(vars, w) {
            Err(e) => Err(e),
            Ok(r) => Ok((r, p)),
        },
    }
}

/// The register for `name`, allocating the next one (at most seven) when it
/// is new, and the variables after.
pub open spec fn alloc_var(vars: Seq<Seq<char>>, name: Seq<char>) -> Result<(nat, Seq<Seq<char>>), MiniFault> {
    match slot_from(vars, name, 0) {
        Some(i) => Ok((i + 1, vars)),
        None => if vars.len() >= 7 {
            Err(MiniFault::TooManyVariables(name))
        } else {
            Ok((vars.len() + 1, vars.push(name)))
        },
    }
}

/// The mnemonic of an arithmetic operator token.
pub open spec fn op_name(t: Option<TokV>) -> Option<Seq<char>> {
    if t == Some(TokV::Punct('+')) {
        Some("ADD"@)
    } else if t == Some(TokV::Punct('-')) {
        Some("SUB"@)
    } else if t == Some(TokV::Punct('*')) {
        Some("MUL"@)
    } else {
        None
    }
}

/// `let` after the keyword.
pub open spec fn let_stmt(toks: Seq<TokV>, pos: nat, g: Gen) -> Result<(nat, Gen), MiniFault> {
    match ident(toks, pos) {
        Err(e) => Err(e),
        Ok((name, p1)) => match expect(toks, p1, '=') {
            Err(e) => Err(e),
            Ok(p2) => match alloc_var(g.vars, name) {
                Err(e) => Err(e),
                Ok((r, vars)) => {
                    let g1 = Gen { code: g.code, vars: vars, labels: g.labels };
                    if tok_at(toks, p2) == Some(TokV::Word("read"@)) {
                        match expect(toks, p2 + 1, '(') {
                            Err(e) => Err(e),
                            Ok(p3) => match expect(toks, p3, ')') {
                                Err(e) => Err(e),
                                Ok(p4) => match expect(toks, p4, ';') {
                                    Err(e) => Err(e),
                                    Ok(p5) => Ok((p5, emit(g1, line1("READ"@, reg(r))))),
                                },
                            },
                        }
                    } else {
                        match tok_at(toks, p2) {
                            Some(TokV::Num(n)) => match expect(toks, p2 + 1, ';') {
                                Err(e) => Err(e),
                                Ok(p3) => Ok((p3, emit(g1, line2("IMM"@, reg(r), dec(n as nat))))),
                            },
                            Some(TokV::Word(src)) => match var_reg(vars, src) {
                                Err(e) => Err(e),
                                Ok(rs) => if tok_at(toks, p2 + 1) == Some(TokV::Punct(';')) {
                                    Ok((p2 + 2, emit(g1, line2("MOV"@, reg(r), reg(rs)))))
                                } else {
                                    match op_name(tok_at(toks, p2 + 1)) {
                                        None => Err(MiniFault::LetExpectedOperator(tok_at(toks, p2 + 1))),
                                        Some(m) => match use_var(toks, p2 + 2, vars) {
                                            Err(e) => Err(e),
                                            Ok((rz, p3)) => match expect(toks, p3, ';') {
                                                Err(e) => Err(e),
                                                Ok(p4) => Ok((p4, emit(g1, line3(m, reg(r), reg(rs), reg(rz))))),
                                            },
                                        },
                                    }
                                },
                            },
                            other => Err(MiniFault::BadLetRhs(other)),
                        }
                    }
                },
            },
        },
    }
}

/// `write(x);` after the keyword.
pub open spec fn write_stmt(toks: Seq<TokV>, pos: nat, g: Gen) -> Result<(nat, Gen), MiniFault> {
    match expect(toks, pos, '(') {
        Err(e) => Err(e),
        Ok(p1) => match use_var(toks, p1, g.vars) {
            Err(e) => Err(e),
            Ok((r, p2)) => match expect(toks, p2, ')') {
                Err(e) => Err(e),
                Ok(p3) => match expect(toks, p3, ';') {
                    Err(e) => Err(e),
                    Ok(p4) => Ok((p4, emit(g, line1("WRITE"@, reg(r))))),
                },
            },
        },
    }
}

/// `mem[y] = x;` after the keyword.
pub open spec fn store_stmt(toks: Seq<TokV>, pos: nat, g: Gen) -> Result<(nat, Gen), MiniFault> {
    match expect(toks, pos, '[') {
        Err(e) => Err(e),
        Ok(p1) => match use_var(toks, p1, g.vars) {
            Err(e) => Err(e),
            Ok((ry, p2)) => match expect(toks, p2, ']') {
                Err(e) => Err(e),
                Ok(p3) => match expect(toks, p3, '=') {
                    Err(e) => Err(e),
                    Ok(p4) => match use_var(toks, p4, g.vars) {
                        Err(e) => Err(e),
                        Ok((rx, p5)) => match expect(toks, p5, ';') {
                            Err(e) => Err(e),
                            Ok(p6) => Ok((p6, emit(g, line2("STORE"@, reg(ry), reg(rx))))),
                        },
                    },
                },
            },
        },
    }
}

/// `x = mem[y];` or `x = y OP z;`, from the target's name.
pub open spec fn assign_stmt(toks: Seq<TokV>, pos: nat, g: Gen) -> Result<(nat, Gen), MiniFault> {
    match use_var(toks, pos, g.vars) {
        Err(e) => Err(e),
        Ok((r, p1)) => match expect(toks, p1, '=') {
            Err(e) => Err(e),
            Ok(p2) => if tok_at(toks, p2) == Some(TokV::Word("mem"@)) {
                match expect(toks, p2 + 1, '[') {
                    Err(e) => Err(e),
                    Ok(p3) => match use_var(toks, p3, g.vars) {
                        Err(e) => Err(e),
                        Ok((ry, p4)) => match expect(toks, p4, ']') {
                            Err(e) => Err(e),
                            Ok(p5) => match expect(toks, p5, ';') {
                                Err(e) => Err(e),
                                Ok(p6) => Ok((p6, emit(g, line2("LOAD"@, reg(r), reg(ry))))),
                            },
                        },
                    },
                }
            } else {
                match use_var(toks, p2, g.vars) {
                    Err(e) => Err(e),
                    Ok((ry, p3)) => match op_name(tok_at(toks, p3)) {
                        None => Err(MiniFault::ExpectedOperator(tok_at(toks, p3))),
                        Some(m) => match use_var(toks, p3 + 1, g.vars) {
                            Err(e) => Err(e),
                            Ok((rz, p4)) => match expect(toks, p4, ';') {
                                Err(e) => Err(e),
                                Ok(p5) => Ok((p5, emit(g, line3(m, reg(r), reg(ry), reg(rz))))),
                            },
                        },
                    },
                }
            },
        },
    }
}

/// The condition of `if` or `while` after the keyword, `x == 0 {` or
/// `x != 0 {`: the register, whether it was `==`, and the position after
/// the brace.
pub open spec fn cond_head(toks: Seq<TokV>, pos: nat, vars: Seq<Seq<char>>, in_while: bool) -> Result<
    (nat, bool, nat),
    MiniFault,
> {
    match use_var(toks, pos, vars) {
        Err(e) => Err(e),
        Ok((r, p1)) => {
            let cmp = tok_at(toks, p1);
            if cmp != Some(TokV::EqEq) && cmp != Some(TokV::NotEq) {
                Err(
                    if in_while {
                        MiniFault::WhileExpectedComparison(cmp)
                    } else {
                        MiniFault::IfExpectedComparison(cmp)
                    },
                )
            } else if tok_at(toks, p1 + 1) != Some(TokV::Num(0)) {
                Err(
                    if in_while {
                        MiniFault::WhileOnlyZero(tok_at(toks, p1 + 1))
                    } else {
                        MiniFault::IfOnlyZero(tok_at(toks, p1 + 1))
                    },
                )
            } else {
                match expect(toks, p1 + 2, '{') {
                    Err(e) => Err(e),
                    Ok(p) => Ok((r, cmp == Some(TokV::EqEq), p)),
                }
            }
        },
    }
}

/// `if x == 0 { .. }` (or `!= 0`), with an optional `else { .. }`, after the
/// keyword.
pub open spec fn if_stmt(toks: Seq<TokV>, pos: nat, g: Gen) -> Result<(nat, Gen), MiniFault>
    decreases toks.len() - pos, 0nat,
{
    match cond_head(toks, pos, g.vars, false) {
        Err(e) => Err(e),
        Ok((r, is_eq, p)) => {
            let l_else = label_name("else"@, g.labels);
            let l_end = label_name("endif"@, g.labels + 1);
            let l_then = label_name("then"@, g.labels + 2);
            let g1 = if is_eq {
                Gen {
                    code: g.code + line2("JZ"@, reg(r), l_then) + line1("JMP"@, l_else) + label_line(l_then),
                    vars: g.vars,
                    labels: g.labels + 3,
                }
            } else {
                Gen { code: g.code + line2("JZ"@, reg(r), l_else), vars: g.vars, labels: g.labels + 2 }
            };
            match block(toks, p, g1) {
                Err(e) => Err(e),
                Ok((p2, g2)) => if !(p < p2 <= toks.len()) {
                    Err(MiniFault::NoProgress)
                } else {
                    let g3 = emit(emit(g2, line1("JMP"@, l_end)), label_line(l_else));
                    if tok_at(toks, p2) == Some(TokV::Word("else"@)) {
                        match expect(toks, p2 + 1, '{') {
                            Err(e) => Err(e),
                            Ok(p3) => match block(toks, p3, g3) {
                                Err(e) => Err(e),
                                Ok((p4, g4)) => Ok((p4, emit(g4, label_line(l_end)))),
                            },
                        }
                    } else {
                        Ok((p2, emit(g3, label_line(l_end))))
                    }
                },
            }
        },
    }
}

/// `while x != 0 { .. }` (or `== 0`) after the keyword.
pub open spec fn while_stmt(toks: Seq<TokV>, pos: nat, g: Gen) -> Result<(nat, Gen), MiniFault>
    decreases toks.len() - pos, 0nat,
{
    match cond_head(toks, pos, g.vars, true) {
        Err(e) => Err(e),
        Ok((r, is_eq, p)) => {
            let l_top = label_name("loop"@, g.labels);
            let l_end = label_name("endloop"@, g.labels + 1);
            let l_body = label_name("body"@, g.labels + 2);
            let g1 = if is_eq {
                Gen {
                    code: g.code + label_line(l_top) + line2("JZ"@, reg(r), l_body) + line1("JMP"@, l_end)
                        + label_line(l_body),
                    vars: g.vars,
                    labels: g.labels + 3,
                }
            } else {
                Gen { code: g.code + label_line(l_top) + line2("JZ"@, reg(r), l_end), vars: g.vars, labels: g.labels + 2 }
            };
            match block(toks, p, g1) {
                Err(e) => Err(e),
                Ok((p2, g2)) => Ok((p2, emit(emit(g2, line1("JMP"@, l_top)), label_line(l_end)))),
            }
        },
    }
}

/// The statement at `pos`: the position after it and the state after it.
pub open spec fn stmt(toks: Seq<TokV>, pos: nat, g: Gen) -> Result<(nat, Gen), MiniFault>
    decreases toks.len() - pos, 0nat,
{
    match tok_at(toks, pos) {
        Some(TokV::Word(w)) => if w == "let"@ {
            let_stmt(toks, pos + 1, g)
        } else if w == "write"@ {
            write_stmt(toks, pos + 1, g)
        } else if w == "if"@ {
            if_stmt(toks, pos + 1, g)
        } else if w == "while"@ {
            while_stmt(toks, pos + 1, g)
        } else if w == "halt"@ {
            match expect(toks, pos + 1, ';') {
                Err(e) => Err(e),
                Ok(p) => Ok((p, emit(g, "    HALT\n"@))),
            }
        } else if w == "mem"@ {
            store_stmt(toks, pos + 1, g)
        } else {
            assign_stmt(toks, pos, g)
        },
        other => Err(MiniFault::UnexpectedStatement(other)),
    }
}

/// The statements of a block up to and including its `}`.
pub open spec fn block(toks: Seq<TokV>, pos: nat, g: Gen) -> Result<(nat, Gen), MiniFault>
    decreases toks.len() - pos, 1nat,
{
    if tok_at(toks, pos) == Some(TokV::Punct('}')) {
        Ok((pos + 1, g))
    } else if pos >= toks.len() {
        Err(MiniFault::UnterminatedBlock)
    } else {
        match stmt(toks, pos, g) {
            Err(e) => Err(e),
            Ok((p, g1)) => if !(pos < p <= toks.len()) {
                Err(MiniFault::NoProgress)
            } else {
                block(toks, p, g1)
            },
        }
    }
}

/// The statements from `pos` to the end.
pub open spec fn program(toks: Seq<TokV>, pos: nat, g: Gen) -> Result<Gen, MiniFault>
    decreases toks.len() - pos,
{
    if pos >= toks.len() {
        Ok(g)
    } else {
        match stmt(toks, pos, g) {
            Err(e) => Err(e),
            Ok((p, g1)) => if !(pos < p <= toks.len()) {
                Err(MiniFault::NoProgress)
            } else {
                program(toks, p, g1)
            },
        }
    }
}

/// A run of a parsing step that yields a position agrees with its meaning.
pub open spec fn agrees_pos(r: Result<usize, CompileError>, s: Result<nat, MiniFault>) -> bool {
    match s {
        Ok(p) => r matches Ok(q) && q == p,
        Err(e) => r matches Err(x) && x@ == e,
    }
}

/// The state of the compiler as it runs.
pub(crate) struct Emitter {
    pub(crate) text: Vec<char>,
    pub(crate) vars: Vec<Vec<char>>,
    pub(crate) labels: usize,
}

impl View for Emitter {
    type V = Gen;

    closed spec fn view(&self) -> Gen {
        Gen {
            code: self.text@,
            vars: Seq::new(self.vars@.len(), |i: int| self.vars@[i]@),
            labels: self.labels as nat,
        }
    }
}

/// A copy of the characters of `s`.
fn copy_chars(s: &[char]) -> (r: Vec<char>)
    ensures
        r@ == s@,
{
    let mut v: Vec<char> = Vec::new();
    push_chars(&mut v, s);
    assert(v@ =~= s@);
    v
}

/// A copy of the token at `pos`, if any.
fn tok_copy_at(toks: &[Tok], pos: usize) -> (r: Option<Tok>)
    ensures
        super::opt_tok(r) == tok_at(toks_view(toks@), pos as nat),
{
    if pos < toks.len() {
        let t = match &toks[pos] {
            Tok::Word(w) => Tok::Word(copy_chars(w.as_slice())),
            Tok::Num(n) => Tok::Num(*n),
            Tok::Punct(c) => Tok::Punct(*c),
            Tok::EqEq => Tok::EqEq,
            Tok::NotEq => Tok::NotEq,
        };
        Some(t)
    } else {
        None
    }
}

/// Whether the token at `pos` is the punctuation `c`.
fn punct_at(toks: &[Tok], pos: usize, c: char) -> (r: bool)
    ensures
        r == (tok_at(toks_view(toks@), pos as nat) == Some(TokV::Punct(c))),
        r ==> pos < toks.len(),
{
    if pos < toks.len() {
        match &toks[pos] {
            Tok::Punct(p) => *p == c,
            _ => false,
        }
    } else {
        false
    }
}

/// Whether the token at `pos` is the word `w`.
fn word_at(toks: &[Tok], pos: usize, w: &str) -> (r: bool)
    ensures
        r == (tok_at(toks_view(toks@), pos as nat) == Some(TokV::Word(w@))),
        r ==> pos < toks.len(),
{
    if pos < toks.len() {
        match &toks[pos] {
            Tok::Word(x) => {
                let k = chars_of(w);
                chars_eq(x.as_slice(), k.as_slice())
            },
            _ => false,
        }
    } else {
        false
    }
}

/// The position after the punctuation `c` at `pos`.
fn expect_punct(toks: &[Tok], pos: usize, c: char) -> (r: Result<usize, CompileError>)
    requires
        pos <= toks@.len(),
    ensures
        agrees_pos(r, expect(toks_view(toks@), pos as nat, c)),
{
    if punct_at(toks, pos, c) {
        Ok(pos + 1)
    } else {
        Err(CompileError::ExpectedPunct { expected: c, got: tok_copy_at(toks, pos) })
    }
}

/// The identifier at `pos` and the position after it.
fn parse_ident(toks: &[Tok], pos: usize) -> (r: Result<(Vec<char>, usize), CompileError>)
    ensures
        match ident(toks_view(toks@), pos as nat) {
            Ok((w, p)) => r matches Ok((v, q)) && v@ == w && q == p,
            Err(e) => r matches Err(x) && x@ == e,
        },
{
    if pos < toks.len() {
        if let Tok::Word(w) = &toks[pos] {
            return Ok((copy_chars(w.as_slice()), pos + 1));
        }
    }
    Err(CompileError::ExpectedIdentifier(tok_copy_at(toks, pos)))
}

/// The mnemonic of the arithmetic operator at `pos`.
fn op_at(toks: &[Tok], pos: usize) -> (r: Option<&'static str>)
    ensures
        match op_name(tok_at(toks_view(toks@), pos as nat)) {
            Some(m) => r matches Some(s) && s@ == m,
            None => r is None,
        },
        r is Some ==> pos < toks.len(),
{
    if punct_at(toks, pos, '+') {
        Some("ADD")
    } else if punct_at(toks, pos, '-') {
        Some("SUB")
    } else if punct_at(toks, pos, '*') {
        Some("MUL")
    } else {
        None
    }
}

/// The text of register `r`.
fn reg_text(r: u32) -> (v: Vec<char>)
    ensures
        v@ == reg(r as nat),
{
    let mut v: Vec<char> = Vec::new();
    push_lit(&mut v, "r");
    push_dec(&mut v, r as u64);
    v
}

impl Emitter {
    pub(crate) fn new() -> (e: Emitter)
        ensures
            e@ == (Gen { code: seq![], vars: seq![], labels: 0 }),
    {
        let e = Emitter { text: Vec::new(), vars: Vec::new(), labels: 0 };
        assert(e@.vars =~= Seq::<Seq<char>>::empty());
        e
    }

    /// The first slot holding `name`.
    fn slot(&self, name: &[char]) -> (r: Option<usize>)
        ensures
            match slot_from(self@.vars, name@, 0) {
                Some(i) => r matches Some(j) && j == i,
                None => r is None,
            },
            r matches Some(j) ==> j < self@.vars.len(),
    {
        let mut i: usize = 0;
        while i < self.vars.len()
            invariant
                i <= self.vars@.len(),
                slot_from(self@.vars, name@, 0) == slot_from(self@.vars, name@, i as nat),
            decreases self.vars@.len() - i,
        {
            if chars_eq(self.vars[i].as_slice(), name) {
                return Some(i);
            }
            i = i + 1;
        }
        None
    }

    /// The register of variable `name`.
    fn lookup(&self, name: &[char]) -> (r: Result<u32, CompileError>)
        requires
            self@.vars.len() <= 7,
        ensures
            match var_reg(self@.vars, name@) {
                Ok(k) => r matches Ok(q) && q == k,
                Err(e) => r matches Err(x) && x@ == e,
            },
    {
        match self.slot(name) {
            Some(i) => Ok((i + 1) as u32),
            None => Err(CompileError::UndefinedVariable(copy_chars(name))),
        }
    }

    /// The register of `name`, allocated if new.
    fn alloc_reg(&mut self, name: Vec<char>) -> (r: Result<u32, CompileError>)
        requires
            old(self)@.vars.len() <= 7,
        ensures
            match alloc_var(old(self)@.vars, name@) {
                Ok((k, vars)) => r matches Ok(q) && q == k && final(self)@ == (Gen { code: old(self)@.code, vars: vars, labels: old(self)@.labels }),
                Err(e) => r matches Err(x) && x@ == e,
            },
            final(self)@.vars.len() <= 7,
            final(self)@.code == old(self)@.code,
            final(self)@.labels == old(self)@.labels,
    {
        match self.slot(name.as_slice()) {
            Some(i) => Ok((i + 1) as u32),
            None => {
                if self.vars.len() >= 7 {
                    Err(CompileError::TooManyVariables(name))
                } else {
                    let ghost old_vars = self@.vars;
                    let ghost nm = name@;
                    self.vars.push(name);
                    assert(self@.vars =~= old_vars.push(nm));
                    Ok(self.vars.len() as u32)
                }
            },
        }
    }

    /// A fresh label with `prefix`.
    fn fresh_label(&mut self, prefix: &str) -> (l: Vec<char>)
        requires
            old(self)@.labels < usize::MAX,
        ensures
            l@ == label_name(prefix@, old(self)@.labels),
            final(self)@ == (Gen { code: old(self)@.code, vars: old(self)@.vars, labels: old(self)@.labels + 1 }),
    {
        let mut l: Vec<char> = Vec::new();
        push_lit(&mut l, "_");
        push_lit(&mut l, prefix);
        push_dec(&mut l, self.labels as u64);
        self.labels = self.labels + 1;
        l
    }

    /// Appends `s`.
    fn emit_lit(&mut self, s: &str)
        ensures
            final(self)@ == emit(old(self)@, s@),
    {
        push_lit(&mut self.text, s);
    }

    /// Appends a line with one operand.
    fn emit1(&mut self, m: &str, a: &[char])
        ensures
            final(self)@ == emit(old(self)@, line1(m@, a@)),
    {
        let ghost start = self.text@;
        push_lit(&mut self.text, "    ");
        push_lit(&mut self.text, m);
        push_lit(&mut self.text, " ");
        push_chars(&mut self.text, a);
        push_lit(&mut self.text, "\n");
        assert(self.text@ =~= start + line1(m@, a@));
    }

    /// Appends a line with two operands.
    fn emit2(&mut self, m: &str, a: &[char], b: &[char])
        ensures
            final(self)@ == emit(old(self)@, line2(m@, a@, b@)),
    {
        let ghost start = self.text@;
        push_lit(&mut self.text, "    ");
        push_lit(&mut self.text, m);
        push_lit(&mut self.text, " ");
        push_chars(&mut self.text, a);
        push_lit(&mut self.text, ", ");
        push_chars(&mut self.text, b);
        push_lit(&mut self.text, "\n");
        assert(self.text@ =~= start + line2(m@, a@, b@));
    }

    /// Appends a line with three operands.
    fn emit3(&mut self, m: &str, a: &[char], b: &[char], c: &[char])
        ensures
            final(self)@ == emit(old(self)@, line3(m@, a@, b@, c@)),
    {
        let ghost start = self.text@;
        push_lit(&mut self.text, "    ");
        push_lit(&mut self.text, m);
        push_lit(&mut self.text, " ");
        push_chars(&mut self.text, a);
        push_lit(&mut self.text, ", ");
        push_chars(&mut self.text, b);
        push_lit(&mut self.text, ", ");
        push_chars(&mut self.text, c);
        push_lit(&mut self.text, "\n");
        assert(self.text@ =~= start + line3(m@, a@, b@, c@));
    }

    /// Appends the definition of label `l`.
    fn emit_label(&mut self, l: &[char])
        ensures
            final(self)@ == emit(old(self)@, label_line(l@)),
    {
        let ghost start = self.text@;
        push_chars(&mut self.text, l);
        push_lit(&mut self.text, ":\n");
        assert(self.text@ =~= start + label_line(l@));
    }
}

/// A run of a statement agrees with its meaning, moves forward, and keeps
/// the compiler's bounds.
pub open spec fn agrees_stmt(r: Result<usize, CompileError>, s: Result<(nat, Gen), MiniFault>, after: Gen, pos: nat, len: nat) -> bool {
    match s {
        Ok((p, g)) => r matches Ok(q) && q == p && after == g && pos < p <= len && g.labels <= p && g.vars.len() <= 7,
        Err(e) => r matches Err(x) && x@ == e,
    }
}

/// Whether the token at `pos` is `==`.
fn eqeq_at(toks: &[Tok], pos: usize) -> (r: bool)
    ensures
        r == (tok_at(toks_view(toks@), pos as nat) == Some(TokV::EqEq)),
        r ==> pos < toks.len(),
{
    pos < toks.len() && matches!(toks[pos], Tok::EqEq)
}

/// Whether the token at `pos` is `!=`.
fn noteq_at(toks: &[Tok], pos: usize) -> (r: bool)
    ensures
        r == (tok_at(toks_view(toks@), pos as nat) == Some(TokV::NotEq)),
        r ==> pos < toks.len(),
{
    pos < toks.len() && matches!(toks[pos], Tok::NotEq)
}

/// Whether the token at `pos` is the number zero.
fn zero_at(toks: &[Tok], pos: usize) -> (r: bool)
    ensures
        r == (tok_at(toks_view(toks@), pos as nat) == Some(TokV::Num(0))),
        r ==> pos < toks.len(),
{
    if pos < toks.len() {
        match &toks[pos] {
            Tok::Num(n) => *n == 0,
            _ => false,
        }
    } else {
        false
    }
}

/// The register of the variable named at `pos`, and the position after it.
fn use_var_at(toks: &[Tok], pos: usize, e: &Emitter) -> (r: Result<(u32, usize), CompileError>)
    requires
        e@.vars.len() <= 7,
    ensures
        match use_var(toks_view(toks@), pos as nat, e@.vars) {
            Ok((k, p)) => r matches Ok((q, p2)) && q == k && p2 == p && pos < p <= toks@.len() && 1 <= k <= 7,
            Err(err) => r matches Err(x) && x@ == err,
        },
{
    let (w, p) = match parse_ident(toks, pos) {
        Ok(x) => x,
        Err(err) => return Err(err),
    };
    proof {
        let ghost vs = e@.vars;
        let ghost k = slot_from(vs, w@, 0);
        if k is Some {
            lemma_slot_from_bound(vs, w@, 0);
        }
    }
    match e.lookup(w.as_slice()) {
        Ok(r) => Ok((r, p)),
        Err(err) => Err(err),
    }
}

pub(crate) proof fn lemma_slot_from_bound(vars: Seq<Seq<char>>, name: Seq<char>, i: nat)
    requires
        slot_from(vars, name, i) is Some,
    ensures
        i <= slot_from(vars, name, i)->0 < vars.len(),
    decreases vars.len() - i,
{
    if i < vars.len() && vars[i as int] != name {
        lemma_slot_from_bound(vars, name, i + 1);
    }
}

/// `let` after the keyword.
fn let_exec(toks: &[Tok], pos: usize, e: &mut Emitter) -> (r: Result<usize, CompileError>)
    requires
        pos <= toks@.len(),
        old(e)@.vars.len() <= 7,
        old(e)@.labels <= pos,
    ensures
        agrees_stmt(r, let_stmt(toks_view(toks@), pos as nat, old(e)@), final(e)@, pos as nat, toks@.len()),
        final(e)@.vars.len() <= 7,
{
    let n = toks.len();
    let (name, p1) = match parse_ident(toks, pos) {
        Ok(x) => x,
        Err(err) => return Err(err),
    };
    let p2 = match expect_punct(toks, p1, '=') {
        Ok(x) => x,
        Err(err) => return Err(err),
    };
    let r = match e.alloc_reg(name) {
        Ok(x) => x,
        Err(err) => return Err(err),
    };
    proof {
        lemma_alloc_bound(old(e)@.vars, toks_view(toks@)[pos as int]->Word_0);
    }
    if word_at(toks, p2, "read") {
        let p3 = match expect_punct(toks, p2 + 1, '(') {
            Ok(x) => x,
            Err(err) => return Err(err),
        };
        let p4 = match expect_punct(toks, p3, ')') {
            Ok(x) => x,
            Err(err) => return Err(err),
        };
        let p5 = match expect_punct(toks, p4, ';') {
            Ok(x) => x,
            Err(err) => return Err(err),
        };
        e.emit1("READ", reg_text(r).as_slice());
        return Ok(p5);
    }
    if p2 < n {
        match &toks[p2] {
            Tok::Num(v) => {
                let p3 = match expect_punct(toks, p2 + 1, ';') {
                    Ok(x) => x,
                    Err(err) => return Err(err),
                };
                let mut d: Vec<char> = Vec::new();
                push_dec(&mut d, *v);
                e.emit2("IMM", reg_text(r).as_slice(), d.as_slice());
                return Ok(p3);
            },
            Tok::Word(src) => {
                let rs = match e.lookup(src.as_slice()) {
                    Ok(x) => x,
                    Err(err) => return Err(err),
                };
                if punct_at(toks, p2 + 1, ';') {
                    e.emit2("MOV", reg_text(r).as_slice(), reg_text(rs).as_slice());
                    return Ok(p2 + 2);
                }
                match op_at(toks, p2 + 1) {
                    None => return Err(CompileError::LetExpectedOperator(tok_copy_at(toks, p2 + 1))),
                    Some(m) => {
                        let (rz, p3) = match use_var_at(toks, p2 + 2, e) {
                            Ok(x) => x,
                            Err(err) => return Err(err),
                        };
                        let p4 = match expect_punct(toks, p3, ';') {
                            Ok(x) => x,
                            Err(err) => return Err(err),
                        };
                        e.emit3(m, reg_text(r).as_slice(), reg_text(rs).as_slice(), reg_text(rz).as_slice());
                        return Ok(p4);
                    },
                }
            },
            _ => {},
        }
    }
    Err(CompileError::BadLetRhs(tok_copy_at(toks, p2)))
}

pub(crate) proof fn lemma_alloc_bound(vars: Seq<Seq<char>>, name: Seq<char>)
    requires
        vars.len() <= 7,
    ensures
        alloc_var(vars, name) matches Ok((k, vs)) ==> 1 <= k <= 7 && vs.len() <= 7,
{
    if slot_from(vars, name, 0) is Some {
        lemma_slot_from_bound(vars, name, 0);
    }
}

/// `write(x);` after the keyword.
fn write_exec(toks: &[Tok], pos: usize, e: &mut Emitter) -> (r: Result<usize, CompileError>)
    requires
        pos <= toks@.len(),
        old(e)@.vars.len() <= 7,
        old(e)@.labels <= pos,
    ensures
        agrees_stmt(r, write_stmt(toks_view(toks@), pos as nat, old(e)@), final(e)@, pos as nat, toks@.len()),
        final(e)@.vars.len() <= 7,
{
    let p1 = match expect_punct(toks, pos, '(') {
        Ok(x) => x,
        Err(err) => return Err(err),
    };
    let (r, p2) = match use_var_at(toks, p1, e) {
        Ok(x) => x,
        Err(err) => return Err(err),
    };
    let p3 = match expect_punct(toks, p2, ')') {
        Ok(x) => x,
        Err(err) => return Err(err),
    };
    let p4 = match expect_punct(toks, p3, ';') {
        Ok(x) => x,
        Err(err) => return Err(err),
    };
    e.emit1("WRITE", reg_text(r).as_slice());
    Ok(p4)
}

/// `mem[y] = x;` after the keyword.
fn store_exec(toks: &[Tok], pos: usize, e: &mut Emitter) -> (r: Result<usize, CompileError>)
    requires
        pos <= toks@.len(),
        old(e)@.vars.len() <= 7,
        old(e)@.labels <= pos,
    ensures
        agrees_stmt(r, store_stmt(toks_view(toks@), pos as nat, old(e)@), final(e)@, pos as nat, toks@.len()),
        final(e)@.vars.len() <= 7,
{
    let p1 = match expect_punct(toks, pos, '[') {
        Ok(x) => x,
        Err(err) => return Err(err),
    };
    let (ry, p2) = match use_var_at(toks, p1, e) {
        Ok(x) => x,
        Err(err) => return Err(err),
    };
    let p3 = match expect_punct(toks, p2, ']') {
        Ok(x) => x,
        Err(err) => return Err(err),
    };
    let p4 = match expect_punct(toks, p3, '=') {
        Ok(x) => x,
        Err(err) => return Err(err),
    };
    let (rx, p5) = match use_var_at(toks, p4, e) {
        Ok(x) => x,
        Err(err) => return Err(err),
    };
    let p6 = match expect_punct(toks, p5, ';') {
        Ok(x) => x,
        Err(err) => return Err(err),
    };
    e.emit2("STORE", reg_text(ry).as_slice(), reg_text(rx).as_slice());
    Ok(p6)
}

/// `x = mem[y];` or `x = y OP z;`, from the target's name.
fn assign_exec(toks: &[Tok], pos: usize, e: &mut Emitter) -> (r: Result<usize, CompileError>)
    requires
        pos <= toks@.len(),
        old(e)@.vars.len() <= 7,
        old(e)@.labels <= pos,
    ensures
        agrees_stmt(r, assign_stmt(toks_view(toks@), pos as nat, old(e)@), final(e)@, pos as nat, toks@.len()),
        final(e)@.vars.len() <= 7,
{
    let (r, p1) = match use_var_at(toks, pos, e) {
        Ok(x) => x,
        Err(err) => return Err(err),
    };
    let p2 = match expect_punct(toks, p1, '=') {
        Ok(x) => x,
        Err(err) => return Err(err),
    };
    if word_at(toks, p2, "mem") {
        let p3 = match expect_punct(toks, p2 + 1, '[') {
            Ok(x) => x,
            Err(err) => return Err(err),
        };
        let (ry, p4) = match use_var_at(toks, p3, e) {
            Ok(x) => x,
            Err(err) => return Err(err),
        };
        let p5 = match expect_punct(toks, p4, ']') {
            Ok(x) => x,
            Err(err) => return Err(err),
        };
        let p6 = match expect_punct(toks, p5, ';') {
            Ok(x) => x,
            Err(err) => return Err(err),
        };
        e.emit2("LOAD", reg_text(r).as_slice(), reg_text(ry).as_slice());
        return Ok(p6);
    }
    let (ry, p3) = match use_var_at(toks, p2, e) {
        Ok(x) => x,
        Err(err) => return Err(err),
    };
    let m = match op_at(toks, p3) {
        Some(m) => m,
        None => return Err(CompileError::ExpectedOperator(tok_copy_at(toks, p3))),
    };
    let (rz, p4) = match use_var_at(toks, p3 + 1, e) {
        Ok(x) => x,
        Err(err) => return Err(err),
    };
    let p5 = match expect_punct(toks, p4, ';') {
        Ok(x) => x,
        Err(err) => return Err(err),
    };
    e.emit3(m, reg_text(r).as_slice(), reg_text(ry).as_slice(), reg_text(rz).as_slice());
    Ok(p5)
}

/// The condition of `if` or `while` after the keyword.
fn cond_exec(toks: &[Tok], pos: usize, e: &Emitter, in_while: bool) -> (r: Result<(u32, bool, usize), CompileError>)
    requires
        pos <= toks@.len(),
        e@.vars.len() <= 7,
    ensures
        match cond_head(toks_view(toks@), pos as nat, e@.vars, in_while) {
            Ok((k, is_eq, p)) => r matches Ok((q, b, p2)) && q == k && b == is_eq && p2 == p && pos + 4 <= p
                <= toks@.len() && 1 <= k <= 7,
            Err(err) => r matches Err(x) && x@ == err,
        },
{
    let (r, p1) = match use_var_at(toks, pos, e) {
        Ok(x) => x,
        Err(err) => return Err(err),
    };
    let is_eq = eqeq_at(toks, p1);
    if !is_eq && !noteq_at(toks, p1) {
        let t = tok_copy_at(toks, p1);
        return Err(
            if in_while {
                CompileError::WhileExpectedComparison(t)
            } else {
                CompileError::IfExpectedComparison(t)
            },
        );
    }
    if !zero_at(toks, p1 + 1) {
        let t = tok_copy_at(toks, p1 + 1);
        return Err(
            if in_while {
                CompileError::WhileOnlyZero(t)
            } else {
                CompileError::IfOnlyZero(t)
            },
        );
    }
    let p = match expect_punct(toks, p1 + 2, '{') {
        Ok(x) => x,
        Err(err) => return Err(err),
    };
    Ok((r, is_eq, p))
}

/// `if` after the keyword.
fn if_exec(toks: &[Tok], pos: usize, e: &mut Emitter) -> (r: Result<usize, CompileError>)
    requires
        pos <= toks@.len(),
        old(e)@.vars.len() <= 7,
        old(e)@.labels <= pos,
    ensures
        agrees_stmt(r, if_stmt(toks_view(toks@), pos as nat, old(e)@), final(e)@, pos as nat, toks@.len()),
        final(e)@.vars.len() <= 7,
    decreases toks@.len() - pos, 0nat,
{
    let (r, is_eq, p) = match cond_exec(toks, pos, e, false) {
        Ok(x) => x,
        Err(err) => return Err(err),
    };
    let l_else = e.fresh_label("else");
    let l_end = e.fresh_label("endif");
    if is_eq {
        let l_then = e.fresh_label("then");
        e.emit2("JZ", reg_text(r).as_slice(), l_then.as_slice());
        e.emit1("JMP", l_else.as_slice());
        e.emit_label(l_then.as_slice());
    } else {
        e.emit2("JZ", reg_text(r).as_slice(), l_else.as_slice());
    }
    let p2 = match block_exec(toks, p, e) {
        Ok(x) => x,
        Err(err) => return Err(err),
    };
    e.emit1("JMP", l_end.as_slice());
    e.emit_label(l_else.as_slice());
    if word_at(toks, p2, "else") {
        let p3 = match expect_punct(toks, p2 + 1, '{') {
            Ok(x) => x,
            Err(err) => return Err(err),
        };
        let p4 = match block_exec(toks, p3, e) {
            Ok(x) => x,
            Err(err) => return Err(err),
        };
        e.emit_label(l_end.as_slice());
        return Ok(p4);
    }
    e.emit_label(l_end.as_slice());
    Ok(p2)
}

/// `while` after the keyword.
fn while_exec(toks: &[Tok], pos: usize, e: &mut Emitter) -> (r: Result<usize, CompileError>)
    requires
        pos <= toks@.len(),
        old(e)@.vars.len() <= 7,
        old(e)@.labels <= pos,
    ensures
        agrees_stmt(r, while_stmt(toks_view(toks@), pos as nat, old(e)@), final(e)@, pos as nat, toks@.len()),
        final(e)@.vars.len() <= 7,
    decreases toks@.len() - pos, 0nat,
{
    let (r, is_eq, p) = match cond_exec(toks, pos, e, true) {
        Ok(x) => x,
        Err(err) => return Err(err),
    };
    let l_top = e.fresh_label("loop");
    let l_end = e.fresh_label("endloop");
    if is_eq {
        let l_body = e.fresh_label("body");
        e.emit_label(l_top.as_slice());
        e.emit2("JZ", reg_text(r).as_slice(), l_body.as_slice());
        e.emit1("JMP", l_end.as_slice());
        e.emit_label(l_body.as_slice());
    } else {
        e.emit_label(l_top.as_slice());
        e.emit2("JZ", reg_text(r).as_slice(), l_end.as_slice());
    }
    let p2 = match block_exec(toks, p, e) {
        Ok(x) => x,
        Err(err) => return Err(err),
    };
    e.emit1("JMP", l_top.as_slice());
    e.emit_label(l_end.as_slice());
    Ok(p2)
}

/// Whether the token at `pos` is a word.
fn is_word_tok(toks: &[Tok], pos: usize) -> (r: bool)
    ensures
        r == (tok_at(toks_view(toks@), pos as nat) matches Some(TokV::Word(_))),
        r ==> pos < toks.len(),
{
    pos < toks.len() && matches!(toks[pos], Tok::Word(_))
}

/// The statement at `pos`.
fn stmt_exec(toks: &[Tok], pos: usize, e: &mut Emitter) -> (r: Result<usize, CompileError>)
    requires
        pos <= toks@.len(),
        old(e)@.vars.len() <= 7,
        old(e)@.labels <= pos,
    ensures
        agrees_stmt(r, stmt(toks_view(toks@), pos as nat, old(e)@), final(e)@, pos as nat, toks@.len()),
        final(e)@.vars.len() <= 7,
    decreases toks@.len() - pos, 0nat,
{
    if !is_word_tok(toks, pos) {
        return Err(CompileError::UnexpectedStatement(tok_copy_at(toks, pos)));
    }
    if word_at(toks, pos, "let") {
        let_exec(toks, pos + 1, e)
    } else if word_at(toks, pos, "write") {
        write_exec(toks, pos + 1, e)
    } else if word_at(toks, pos, "if") {
        if_exec(toks, pos + 1, e)
    } else if word_at(toks, pos, "while") {
        while_exec(toks, pos + 1, e)
    } else if word_at(toks, pos, "halt") {
        let p = match expect_punct(toks, pos + 1, ';') {
            Ok(x) => x,
            Err(err) => return Err(err),
        };
        e.emit_lit("    HALT\n");
        Ok(p)
    } else if word_at(toks, pos, "mem") {
        store_exec(toks, pos + 1, e)
    } else {
        assign_exec(toks, pos, e)
    }
}

/// The statements of a block up to and including its `}`.
fn block_exec(toks: &[Tok], pos: usize, e: &mut Emitter) -> (r: Result<usize, CompileError>)
    requires
        pos <= toks@.len(),
        old(e)@.vars.len() <= 7,
        old(e)@.labels <= pos,
    ensures
        agrees_stmt(r, block(toks_view(toks@), pos as nat, old(e)@), final(e)@, pos as nat, toks@.len()),
        final(e)@.vars.len() <= 7,
    decreases toks@.len() - pos, 1nat,
{
    let ghost tv = toks_view(toks@);
    let ghost want = block(tv, pos as nat, e@);
    let mut cur: usize = pos;
    loop
        invariant
            pos <= cur <= toks@.len(),
            tv == toks_view(toks@),
            e@.vars.len() <= 7,
            e@.labels <= cur,
            want == block(tv, pos as nat, old(e)@),
            want == block(tv, cur as nat, e@),
        decreases toks@.len() - cur,
    {
        if punct_at(toks, cur, '}') {
            return Ok(cur + 1);
        }
        if cur >= toks.len() {
            return Err(CompileError::UnterminatedBlock);
        }
        cur = match stmt_exec(toks, cur, e) {
            Ok(x) => x,
            Err(err) => return Err(err),
        };
    }
}

/// The assembly text of the statements in `toks`.
pub(crate) fn compile_tokens(toks: &[Tok]) -> (r: Result<Vec<char>, CompileError>)
    ensures
        match program(toks_view(toks@), 0, Gen { code: seq![], vars: seq![], labels: 0 }) {
            Ok(g) => r matches Ok(v) && v@ == g.code,
            Err(err) => r matches Err(x) && x@ == err,
        },
{
    let ghost tv = toks_view(toks@);
    let mut e = Emitter::new();
    let mut pos: usize = 0;
    while pos < toks.len()
        invariant
            pos <= toks@.len(),
            tv == toks_view(toks@),
            e@.vars.len() <= 7,
            e@.labels <= pos,
            program(tv, 0, Gen { code: seq![], vars: seq![], labels: 0 }) == program(tv, pos as nat, e@),
        decreases toks@.len() - pos,
    {
        pos = match stmt_exec(toks, pos, &mut e) {
            Ok(x) => x,
            Err(err) => return Err(err),
        };
    }
    Ok(e.text)
}

/// `i` is the first position of `name` in `vars`.
pub open spec fn first_at(vars: Seq<Seq<char>>, name: Seq<char>, i: nat) -> bool {
    &&& i < vars.len()
    &&& vars[i as int] == name
    &&& forall|j: int| 0 <= j < i ==> vars[j] != name
}

proof fn lemma_slot_first(vars: Seq<Seq<char>>, name: Seq<char>, k: nat, i: nat)
    requires
        k <= i < vars.len(),
        vars[i as int] == name,
        forall|j: int| k <= j < i ==> vars[j] != name,
    ensures
        slot_from(vars, name, k) == Some(i),
    decreases i - k,
{
    if k < i {
        lemma_slot_first(vars, name, k + 1, i);
    }
}

proof fn lemma_slot_none(vars: Seq<Seq<char>>, name: Seq<char>, k: nat)
    requires
        forall|j: int| k <= j < vars.len() ==> vars[j] != name,
    ensures
        slot_from(vars, name, k) is None,
    decreases vars.len() - k,
{
    if k < vars.len() {
        lemma_slot_none(vars, name, k + 1);
    }
}

/// The mnemonic of the arithmetic operator `c`.
pub open spec fn op_mnemonic(c: char) -> Seq<char> {
    if c == '+' {
        seq!['A', 'D', 'D']
    } else if c == '-' {
        seq!['S', 'U', 'B']
    } else {
        seq!['M', 'U', 'L']
    }
}

proof fn lemma_line3_text(m: Seq<char>, a: nat, b: nat, c: nat)
    ensures
        line3(m, reg(a), reg(b), reg(c)) == seq![' ', ' ', ' ', ' '] + m + seq![' ', 'r'] + dec(a) + seq![
            ',',
            ' ',
            'r',
        ] + dec(b) + seq![',', ' ', 'r'] + dec(c) + seq!['\n'],
{
    reveal_strlit("    ");
    reveal_strlit(" ");
    reveal_strlit(", ");
    reveal_strlit("\n");
    reveal_strlit("r");
    assert(line3(m, reg(a), reg(b), reg(c)) =~= seq![' ', ' ', ' ', ' '] + m + seq![' ', 'r'] + dec(a) + seq![
        ',',
        ' ',
        'r',
    ] + dec(b) + seq![',', ' ', 'r'] + dec(c) + seq!['\n']);
}

/// `let x = y OP z;` with `y` and `z` defined compiles to the one line
/// `OP rX, rY, rZ`: the register of `x` (its own if it is defined, else the
/// next free one, at most seven variables), then that of `y`, then that of
/// `z`, in source order, with `ADD` for `+`, `SUB` for `-` and `MUL` for
/// `*`; the statement's seven tokens are consumed and `x` is defined after.
#[verifier::spinoff_prover]
pub proof fn lemma_let_binop(
    toks: Seq<TokV>,
    pos: nat,
    g: Gen,
    x: Seq<char>,
    y: Seq<char>,
    z: Seq<char>,
    op: char,
    ix: nat,
    iy: nat,
    iz: nat,
)
    requires
        pos + 7 <= toks.len(),
        toks[pos as int] == TokV::Word(seq!['l', 'e', 't']),
        toks[pos + 1int] == TokV::Word(x),
        toks[pos + 2int] == TokV::Punct('='),
        toks[pos + 3int] == TokV::Word(y),
        toks[pos + 4int] == TokV::Punct(op),
        toks[pos + 5int] == TokV::Word(z),
        toks[pos + 6int] == TokV::Punct(';'),
        op == '+' || op == '-' || op == '*',
        y != seq!['r', 'e', 'a', 'd'],
        first_at(g.vars, y, iy),
        first_at(g.vars, z, iz),
        first_at(g.vars, x, ix) || (ix == g.vars.len() && ix < 7 && forall|j: int|
            0 <= j < g.vars.len() ==> g.vars[j] != x),
    ensures
        stmt(toks, pos, g) == Ok::<(nat, Gen), MiniFault>(
            (
                pos + 7,
                Gen {
                    code: g.code + (seq![' ', ' ', ' ', ' '] + op_mnemonic(op) + seq![' ', 'r'] + dec(ix + 1)
                        + seq![',', ' ', 'r'] + dec(iy + 1) + seq![',', ' ', 'r'] + dec(iz + 1) + seq!['\n']),
                    vars: if ix < g.vars.len() {
                        g.vars
                    } else {
                        g.vars.push(x)
                    },
                    labels: g.labels,
                },
            ),
        ),
{
    reveal_strlit("let");
    reveal_strlit("read");
    assert("let"@ =~= seq!['l', 'e', 't']);
    assert("read"@ =~= seq!['r', 'e', 'a', 'd']);
    let vars = if ix < g.vars.len() { g.vars } else { g.vars.push(x) };
    if ix < g.vars.len() {
        lemma_slot_first(g.vars, x, 0, ix);
    } else {
        lemma_slot_none(g.vars, x, 0);
    }
    lemma_slot_first(vars, y, 0, iy);
    lemma_slot_first(vars, z, 0, iz);
    let m = op_mnemonic(op);
    assert(op_name(Some(TokV::Punct(op))) == Some(m)) by {
        reveal_strlit("ADD");
        reveal_strlit("SUB");
        reveal_strlit("MUL");
        assert("ADD"@ =~= seq!['A', 'D', 'D']);
        assert("SUB"@ =~= seq!['S', 'U', 'B']);
        assert("MUL"@ =~= seq!['M', 'U', 'L']);
    }
    assert(tok_at(toks, pos) == Some(TokV::Word("let"@)));
    assert(ident(toks, pos + 1) == Ok::<(Seq<char>, nat), MiniFault>((x, (pos + 2) as nat)));
    assert(expect(toks, pos + 2, '=') == Ok::<nat, MiniFault>((pos + 3) as nat));
    assert(alloc_var(g.vars, x) == Ok::<(nat, Seq<Seq<char>>), MiniFault>((ix + 1, vars)));
    assert(tok_at(toks, pos + 3) == Some(TokV::Word(y)));
    assert(var_reg(vars, y) == Ok::<nat, MiniFault>(iy + 1));
    assert(tok_at(toks, pos + 4) == Some(TokV::Punct(op)));
    assert(use_var(toks, pos + 5, vars) == Ok::<(nat, nat), MiniFault>((iz + 1, (pos + 6) as nat)));
    assert(expect(toks, pos + 6, ';') == Ok::<nat, MiniFault>((pos + 7) as nat));
    let g1 = Gen { code: g.code, vars: vars, labels: g.labels };
    assert(let_stmt(toks, pos + 1, g) == Ok::<(nat, Gen), MiniFault>(
        ((pos + 7) as nat, emit(g1, line3(m, reg(ix + 1), reg(iy + 1), reg(iz + 1)))),
    ));
    lemma_line3_text(m, ix + 1, iy + 1, iz + 1);
    assert(stmt(toks, pos, g) == let_stmt(toks, pos + 1, g));
}

/// `name` is none of the statement keywords.
pub open spec fn not_keyword(name: Seq<char>) -> bool {
    &&& name != seq!['l', 'e', 't']
    &&& name != seq!['w', 'r', 'i', 't', 'e']
    &&& name != seq!['i', 'f']
    &&& name != seq!['w', 'h', 'i', 'l', 'e']
    &&& name != seq!['h', 'a', 'l', 't']
    &&& name != seq!['m', 'e', 'm']
}

proof fn lemma_keywords()
    ensures
        "let"@ == seq!['l', 'e', 't'],
        "write"@ == seq!['w', 'r', 'i', 't', 'e'],
        "if"@ == seq!['i', 'f'],
        "while"@ == seq!['w', 'h', 'i', 'l', 'e'],
        "halt"@ == seq!['h', 'a', 'l', 't'],
        "mem"@ == seq!['m', 'e', 'm'],
        "read"@ == seq!['r', 'e', 'a', 'd'],
        "READ"@ == seq!['R', 'E', 'A', 'D'],
        "IMM"@ == seq!['I', 'M', 'M'],
        "MOV"@ == seq!['M', 'O', 'V'],
        "WRITE"@ == seq!['W', 'R', 'I', 'T', 'E'],
        "LOAD"@ == seq!['L', 'O', 'A', 'D'],
        "STORE"@ == seq!['S', 'T', 'O', 'R', 'E'],
{
    reveal_strlit("let");
    reveal_strlit("write");
    reveal_strlit("if");
    reveal_strlit("while");
    reveal_strlit("halt");
    reveal_strlit("mem");
    reveal_strlit("read");
    reveal_strlit("READ");
    reveal_strlit("IMM");
    reveal_strlit("MOV");
    reveal_strlit("WRITE");
    reveal_strlit("LOAD");
    reveal_strlit("STORE");
    assert("let"@ =~= seq!['l', 'e', 't']);
    assert("write"@ =~= seq!['w', 'r', 'i', 't', 'e']);
    assert("if"@ =~= seq!['i', 'f']);
    assert("while"@ =~= seq!['w', 'h', 'i', 'l', 'e']);
    assert("halt"@ =~= seq!['h', 'a', 'l', 't']);
    assert("mem"@ =~= seq!['m', 'e', 'm']);
    assert("read"@ =~= seq!['r', 'e', 'a', 'd']);
    assert("READ"@ =~= seq!['R', 'E', 'A', 'D']);
    assert("IMM"@ =~= seq!['I', 'M', 'M']);
    assert("MOV"@ =~= seq!['M', 'O', 'V']);
    assert("WRITE"@ =~= seq!['W', 'R', 'I', 'T', 'E']);
    assert("LOAD"@ =~= seq!['L', 'O', 'A', 'D']);
    assert("STORE"@ =~= seq!['S', 'T', 'O', 'R', 'E']);
}

proof fn lemma_line1_text(m: Seq<char>, a: nat)
    ensures
        line1(m, reg(a)) == seq![' ', ' ', ' ', ' '] + m + seq![' ', 'r'] + dec(a) + seq!['\n'],
{
    reveal_strlit("    ");
    reveal_strlit(" ");
    reveal_strlit("\n");
    reveal_strlit("r");
    assert(line1(m, reg(a)) =~= seq![' ', ' ', ' ', ' '] + m + seq![' ', 'r'] + dec(a) + seq!['\n']);
}

proof fn lemma_line2_text(m: Seq<char>, a: nat, b: Seq<char>)
    ensures
        line2(m, reg(a), b) == seq![' ', ' ', ' ', ' '] + m + seq![' ', 'r'] + dec(a) + seq![',', ' '] + b
            + seq!['\n'],
{
    reveal_strlit("    ");
    reveal_strlit(" ");
    reveal_strlit(", ");
    reveal_strlit("\n");
    reveal_strlit("r");
    assert(line2(m, reg(a), b) =~= seq![' ', ' ', ' ', ' '] + m + seq![' ', 'r'] + dec(a) + seq![',', ' '] + b
        + seq!['\n']);
}

/// The other `let` forms: `let x = K;` compiles to `IMM rX, K` (K in
/// decimal), `let x = read();` to `READ rX`, and `let x = y;` with `y`
/// defined to `MOV rX, rY`; `rX` is `x`'s register if it is defined, else
/// the next free one (at most seven variables).
#[verifier::spinoff_prover]
pub proof fn lemma_let_forms(toks: Seq<TokV>, pos: nat, g: Gen, x: Seq<char>, ix: nat)
    requires
        pos + 3 <= toks.len(),
        toks[pos as int] == TokV::Word(seq!['l', 'e', 't']),
        toks[pos + 1int] == TokV::Word(x),
        toks[pos + 2int] == TokV::Punct('='),
        first_at(g.vars, x, ix) || (ix == g.vars.len() && ix < 7 && forall|j: int|
            0 <= j < g.vars.len() ==> g.vars[j] != x),
    ensures
        ({
            let vars = if ix < g.vars.len() { g.vars } else { g.vars.push(x) };
            let out = |text: Seq<char>, next: nat|
                Ok::<(nat, Gen), MiniFault>((next, Gen { code: g.code + text, vars, labels: g.labels }));
            &&& forall|k: u64|
                pos + 4 < toks.len() && toks[pos + 3int] == TokV::Num(k) && toks[pos + 4int] == TokV::Punct(';')
                    ==> #[trigger] stmt(toks, pos, g) == out(
                    seq![' ', ' ', ' ', ' ', 'I', 'M', 'M', ' ', 'r'] + dec(ix + 1) + seq![',', ' '] + dec(k as nat)
                        + seq!['\n'],
                    pos + 5,
                )
            &&& pos + 6 < toks.len() && toks[pos + 3int] == TokV::Word(seq!['r', 'e', 'a', 'd'])
                && toks[pos + 4int] == TokV::Punct('(') && toks[pos + 5int] == TokV::Punct(')')
                && toks[pos + 6int] == TokV::Punct(';') ==> stmt(toks, pos, g) == out(
                seq![' ', ' ', ' ', ' ', 'R', 'E', 'A', 'D', ' ', 'r'] + dec(ix + 1) + seq!['\n'],
                pos + 7,
            )
            &&& forall|y: Seq<char>, iy: nat|
                pos + 4 < toks.len() && toks[pos + 3int] == TokV::Word(y) && y != seq!['r', 'e', 'a', 'd']
                    && toks[pos + 4int] == TokV::Punct(';') && #[trigger] first_at(vars, y, iy) ==> stmt(toks, pos, g)
                    == out(
                    seq![' ', ' ', ' ', ' ', 'M', 'O', 'V', ' ', 'r'] + dec(ix + 1) + seq![',', ' ', 'r'] + dec(
                        iy + 1,
                    ) + seq!['\n'],
                    pos + 5,
                )
        }),
{
    lemma_keywords();
    let vars = if ix < g.vars.len() { g.vars } else { g.vars.push(x) };
    if ix < g.vars.len() {
        lemma_slot_first(g.vars, x, 0, ix);
    } else {
        lemma_slot_none(g.vars, x, 0);
    }
    assert(alloc_var(g.vars, x) == Ok::<(nat, Seq<Seq<char>>), MiniFault>((ix + 1, vars)));
    assert(stmt(toks, pos, g) == let_stmt(toks, pos + 1, g));
    lemma_line2_text(seq!['I', 'M', 'M'], ix + 1, seq![]);
    lemma_line1_text(seq!['R', 'E', 'A', 'D'], ix + 1);
    assert forall|k: u64|
        pos + 4 < toks.len() && toks[pos + 3int] == TokV::Num(k) && toks[pos + 4int] == TokV::Punct(';') implies
        #[trigger] stmt(toks, pos, g) == Ok::<(nat, Gen), MiniFault>(
        (
            pos + 5,
            Gen {
                code: g.code + (seq![' ', ' ', ' ', ' ', 'I', 'M', 'M', ' ', 'r'] + dec(ix + 1) + seq![',', ' ']
                    + dec(k as nat) + seq!['\n']),
                vars,
                labels: g.labels,
            },
        ),
    ) by {
        lemma_line2_text(seq!['I', 'M', 'M'], ix + 1, dec(k as nat));
        assert(seq![' ', ' ', ' ', ' '] + seq!['I', 'M', 'M'] + seq![' ', 'r'] =~= seq![
            ' ',
            ' ',
            ' ',
            ' ',
            'I',
            'M',
            'M',
            ' ',
            'r',
        ]);
        assert(seq![' ', ' ', ' ', ' '] + seq!['I', 'M', 'M'] + seq![' ', 'r'] + dec(ix + 1) + seq![',', ' '] + dec(
            k as nat,
        ) + seq!['\n'] =~= seq![' ', ' ', ' ', ' ', 'I', 'M', 'M', ' ', 'r'] + dec(ix + 1) + seq![',', ' '] + dec(
            k as nat,
        ) + seq!['\n']);
    }
    assert(seq![' ', ' ', ' ', ' '] + seq!['R', 'E', 'A', 'D'] + seq![' ', 'r'] + dec(ix + 1) + seq!['\n'] =~= seq![
        ' ',
        ' ',
        ' ',
        ' ',
        'R',
        'E',
        'A',
        'D',
        ' ',
        'r',
    ] + dec(ix + 1) + seq!['\n']);
    assert forall|y: Seq<char>, iy: nat|
        pos + 4 < toks.len() && toks[pos + 3int] == TokV::Word(y) && y != seq!['r', 'e', 'a', 'd'] && toks[pos
            + 4int] == TokV::Punct(';') && #[trigger] first_at(vars, y, iy) implies stmt(toks, pos, g)
        == Ok::<(nat, Gen), MiniFault>(
        (
            pos + 5,
            Gen {
                code: g.code + (seq![' ', ' ', ' ', ' ', 'M', 'O', 'V', ' ', 'r'] + dec(ix + 1) + seq![',', ' ', 'r']
                    + dec(iy + 1) + seq!['\n']),
                vars,
                labels: g.labels,
            },
        ),
    ) by {
        lemma_slot_first(vars, y, 0, iy);
        lemma_line2_text(seq!['M', 'O', 'V'], ix + 1, seq!['r'] + dec(iy + 1));
        reveal_strlit("r");
        assert(reg(iy + 1) =~= seq!['r'] + dec(iy + 1));
        assert(seq![' ', ' ', ' ', ' '] + seq!['M', 'O', 'V'] + seq![' ', 'r'] + dec(ix + 1) + seq![',', ' '] + (seq![
            'r',
        ] + dec(iy + 1)) + seq!['\n'] =~= seq![' ', ' ', ' ', ' ', 'M', 'O', 'V', ' ', 'r'] + dec(ix + 1) + seq![
            ',',
            ' ',
            'r',
        ] + dec(iy + 1) + seq!['\n']);
    }
}

/// `write(x);` with `x` defined compiles to `WRITE rX`, and `mem[y] = x;`
/// with both defined to `STORE rY, rX` (address register first, value
/// register second); neither defines a variable.
#[verifier::spinoff_prover]
pub proof fn lemma_write_and_store(toks: Seq<TokV>, pos: nat, g: Gen, x: Seq<char>, ix: nat, y: Seq<char>, iy: nat)
    requires
        first_at(g.vars, x, ix),
        first_at(g.vars, y, iy),
    ensures
        pos + 5 <= toks.len() && toks[pos as int] == TokV::Word(seq!['w', 'r', 'i', 't', 'e']) && toks[pos + 1int]
            == TokV::Punct('(') && toks[pos + 2int] == TokV::Word(x) && toks[pos + 3int] == TokV::Punct(')')
            && toks[pos + 4int] == TokV::Punct(';') ==> stmt(toks, pos, g) == Ok::<(nat, Gen), MiniFault>(
            (
                pos + 5,
                Gen {
                    code: g.code + (seq![' ', ' ', ' ', ' ', 'W', 'R', 'I', 'T', 'E', ' ', 'r'] + dec(ix + 1) + seq![
                        '\n',
                    ]),
                    vars: g.vars,
                    labels: g.labels,
                },
            ),
        ),
        pos + 7 <= toks.len() && toks[pos as int] == TokV::Word(seq!['m', 'e', 'm']) && toks[pos + 1int]
            == TokV::Punct('[') && toks[pos + 2int] == TokV::Word(y) && toks[pos + 3int] == TokV::Punct(']')
            && toks[pos + 4int] == TokV::Punct('=') && toks[pos + 5int] == TokV::Word(x) && toks[pos + 6int]
            == TokV::Punct(';') ==> stmt(toks, pos, g) == Ok::<(nat, Gen), MiniFault>(
            (
                pos + 7,
                Gen {
                    code: g.code + (seq![' ', ' ', ' ', ' ', 'S', 'T', 'O', 'R', 'E', ' ', 'r'] + dec(iy + 1)
                        + seq![',', ' ', 'r'] + dec(ix + 1) + seq!['\n']),
                    vars: g.vars,
                    labels: g.labels,
                },
            ),
        ),
{
    lemma_keywords();
    lemma_slot_first(g.vars, x, 0, ix);
    lemma_slot_first(g.vars, y, 0, iy);
    lemma_line1_text(seq!['W', 'R', 'I', 'T', 'E'], ix + 1);
    lemma_line2_text(seq!['S', 'T', 'O', 'R', 'E'], iy + 1, seq!['r'] + dec(ix + 1));
    reveal_strlit("r");
    assert(reg(ix + 1) =~= seq!['r'] + dec(ix + 1));
    assert(seq![' ', ' ', ' ', ' '] + seq!['W', 'R', 'I', 'T', 'E'] + seq![' ', 'r'] + dec(ix + 1) + seq!['\n'] =~= seq![
        ' ',
        ' ',
        ' ',
        ' ',
        'W',
        'R',
        'I',
        'T',
        'E',
        ' ',
        'r',
    ] + dec(ix + 1) + seq!['\n']);
    assert(seq![' ', ' ', ' ', ' '] + seq!['S', 'T', 'O', 'R', 'E'] + seq![' ', 'r'] + dec(iy + 1) + seq![',', ' ']
        + (seq!['r'] + dec(ix + 1)) + seq!['\n'] =~= seq![' ', ' ', ' ', ' ', 'S', 'T', 'O', 'R', 'E', ' ', 'r']
        + dec(iy + 1) + seq![',', ' ', 'r'] + dec(ix + 1) + seq!['\n']);
}

/// Assignments to a defined variable `x` that is no keyword: `x = mem[y];`
/// compiles to `LOAD rX, rY`, and `x = y OP z;` (with `y` other than `mem`)
/// to `OP rX, rY, rZ` with the operands in source order, `ADD` for `+`,
/// `SUB` for `-`, `MUL` for `*`; neither defines a variable.
#[verifier::spinoff_prover]
pub proof fn lemma_assignments(
    toks: Seq<TokV>,
    pos: nat,
    g: Gen,
    x: Seq<char>,
    ix: nat,
    y: Seq<char>,
    iy: nat,
    z: Seq<char>,
    iz: nat,
    op: char,
)
    requires
        not_keyword(x),
        first_at(g.vars, x, ix),
        first_at(g.vars, y, iy),
        first_at(g.vars, z, iz),
        op == '+' || op == '-' || op == '*',
    ensures
        pos + 7 <= toks.len() && toks[pos as int] == TokV::Word(x) && toks[pos + 1int] == TokV::Punct('=')
            && toks[pos + 2int] == TokV::Word(seq!['m', 'e', 'm']) && toks[pos + 3int] == TokV::Punct('[')
            && toks[pos + 4int] == TokV::Word(y) && toks[pos + 5int] == TokV::Punct(']') && toks[pos + 6int]
            == TokV::Punct(';') ==> stmt(toks, pos, g) == Ok::<(nat, Gen), MiniFault>(
            (
                pos + 7,
                Gen {
                    code: g.code + (seq![' ', ' ', ' ', ' ', 'L', 'O', 'A', 'D', ' ', 'r'] + dec(ix + 1) + seq![
                        ',',
                        ' ',
                        'r',
                    ] + dec(iy + 1) + seq!['\n']),
                    vars: g.vars,
                    labels: g.labels,
                },
            ),
        ),
        pos + 6 <= toks.len() && toks[pos as int] == TokV::Word(x) && toks[pos + 1int] == TokV::Punct('=')
            && toks[pos + 2int] == TokV::Word(y) && y != seq!['m', 'e', 'm'] && toks[pos + 3int] == TokV::Punct(op)
            && toks[pos + 4int] == TokV::Word(z) && toks[pos + 5int] == TokV::Punct(';') ==> stmt(toks, pos, g)
            == Ok::<(nat, Gen), MiniFault>(
            (
                pos + 6,
                Gen {
                    code: g.code + (seq![' ', ' ', ' ', ' '] + op_mnemonic(op) + seq![' ', 'r'] + dec(ix + 1) + seq![
                        ',',
                        ' ',
                        'r',
                    ] + dec(iy + 1) + seq![',', ' ', 'r'] + dec(iz + 1) + seq!['\n']),
                    vars: g.vars,
                    labels: g.labels,
                },
            ),
        ),
{
    lemma_keywords();
    lemma_slot_first(g.vars, x, 0, ix);
    lemma_slot_first(g.vars, y, 0, iy);
    lemma_slot_first(g.vars, z, 0, iz);
    let m = op_mnemonic(op);
    assert(op_name(Some(TokV::Punct(op))) == Some(m)) by {
        reveal_strlit("ADD");
        reveal_strlit("SUB");
        reveal_strlit("MUL");
        assert("ADD"@ =~= seq!['A', 'D', 'D']);
        assert("SUB"@ =~= seq!['S', 'U', 'B']);
        assert("MUL"@ =~= seq!['M', 'U', 'L']);
    }
    lemma_line3_text(m, ix + 1, iy + 1, iz + 1);
    lemma_line2_text(seq!['L', 'O', 'A', 'D'], ix + 1, seq!['r'] + dec(iy + 1));
    reveal_strlit("r");
    assert(reg(iy + 1) =~= seq!['r'] + dec(iy + 1));
    assert(seq![' ', ' ', ' ', ' '] + seq!['L', 'O', 'A', 'D'] + seq![' ', 'r'] + dec(ix + 1) + seq![',', ' '] + (seq![
        'r',
    ] + dec(iy + 1)) + seq!['\n'] =~= seq![' ', ' ', ' ', ' ', 'L', 'O', 'A', 'D', ' ', 'r'] + dec(ix + 1) + seq![
        ',',
        ' ',
        'r',
    ] + dec(iy + 1) + seq!['\n']);
}

/// A label made from `prefix` and counter `n`: `_`, the prefix, the
/// decimal counter.
pub open spec fn label_of(prefix: Seq<char>, n: nat) -> Seq<char> {
    seq!['_'] + prefix + dec(n)
}

/// The code a `while` statement's header emits before the body when the
/// test is `x != 0` on register `r`, from label counter `n`: the loop label
/// `_loopN:` and `JZ rR, _endloopM` (M = N + 1), leaving the loop when the
/// register is zero.
pub open spec fn while_ne_head(r: nat, n: nat) -> Seq<char> {
    label_of(seq!['l', 'o', 'o', 'p'], n) + seq![':', '\n'] + seq![' ', ' ', ' ', ' ', 'J', 'Z', ' ', 'r'] + dec(r)
        + seq![',', ' '] + label_of(seq!['e', 'n', 'd', 'l', 'o', 'o', 'p'], n + 1) + seq!['\n']
}

/// The code a `while` statement emits after its body, from label counter
/// `n`: `JMP _loopN` back to the test, then the exit label `_endloopM:`.
pub open spec fn while_tail(n: nat) -> Seq<char> {
    seq![' ', ' ', ' ', ' ', 'J', 'M', 'P', ' '] + label_of(seq!['l', 'o', 'o', 'p'], n) + seq!['\n'] + label_of(
        seq!['e', 'n', 'd', 'l', 'o', 'o', 'p'],
        n + 1,
    ) + seq![':', '\n']
}

/// `while x != 0 { B }` with `x` defined compiles to `_loopN:`, then
/// `JZ rX, _endloopM` that leaves the loop when `x` is zero, then the body
/// `B` compiled with the label counter at N + 2, then `JMP _loopN` back to
/// the test, then `_endloopM:` — where N is the label counter before the
/// statement and M = N + 1.
#[verifier::spinoff_prover]
pub proof fn lemma_while_layout(toks: Seq<TokV>, pos: nat, g: Gen, x: Seq<char>, ix: nat, p2: nat, g2: Gen)
    requires
        pos + 5 <= toks.len(),
        toks[pos as int] == TokV::Word(seq!['w', 'h', 'i', 'l', 'e']),
        toks[pos + 1int] == TokV::Word(x),
        toks[pos + 2int] == TokV::NotEq,
        toks[pos + 3int] == TokV::Num(0),
        toks[pos + 4int] == TokV::Punct('{'),
        first_at(g.vars, x, ix),
        block(toks, pos + 5, Gen { code: g.code + while_ne_head(ix + 1, g.labels), vars: g.vars, labels: g.labels + 2 })
            == Ok::<(nat, Gen), MiniFault>((p2, g2)),
    ensures
        stmt(toks, pos, g) == Ok::<(nat, Gen), MiniFault>(
            (p2, Gen { code: g2.code + while_tail(g.labels), vars: g2.vars, labels: g2.labels }),
        ),
{
    lemma_keywords();
    lemma_slot_first(g.vars, x, 0, ix);
    lemma_label_words();
    let r = ix + 1;
    assert(use_var(toks, pos + 1, g.vars) == Ok::<(nat, nat), MiniFault>((r, (pos + 2) as nat)));
    assert(expect(toks, pos + 4, '{') == Ok::<nat, MiniFault>((pos + 5) as nat));
    assert(cond_head(toks, pos + 1, g.vars, true) == Ok::<(nat, bool, nat), MiniFault>((r, false, (pos + 5) as nat)));
    let l_top = label_name("loop"@, g.labels);
    let l_end = label_name("endloop"@, g.labels + 1);
    lemma_label_text(seq!['l', 'o', 'o', 'p'], g.labels);
    lemma_label_text(seq!['e', 'n', 'd', 'l', 'o', 'o', 'p'], g.labels + 1);
    lemma_jz_text(r, l_end);
    lemma_jmp_text(l_top);
    lemma_def_text(l_top);
    lemma_def_text(l_end);
    let g1 = Gen { code: g.code + label_line(l_top) + line2("JZ"@, reg(r), l_end), vars: g.vars, labels: g.labels + 2 };
    assert(g1.code =~= g.code + while_ne_head(r, g.labels));
    assert(g1 == Gen { code: g.code + while_ne_head(ix + 1, g.labels), vars: g.vars, labels: g.labels + 2 });
    assert(while_stmt(toks, pos + 1, g) == Ok::<(nat, Gen), MiniFault>(
        (p2, emit(emit(g2, line1("JMP"@, l_top)), label_line(l_end))),
    ));
    assert(emit(emit(g2, line1("JMP"@, l_top)), label_line(l_end)).code =~= g2.code + while_tail(g.labels));
    assert(stmt(toks, pos, g) == while_stmt(toks, pos + 1, g));
}

/// The code an `if` statement emits after its first block, from label
/// counter `n`: `JMP _endifM` over the else part and the label `_elseN:`
/// (M = N + 1).
pub open spec fn if_middle(n: nat) -> Seq<char> {
    seq![' ', ' ', ' ', ' ', 'J', 'M', 'P', ' '] + label_of(seq!['e', 'n', 'd', 'i', 'f'], n + 1) + seq!['\n']
        + label_of(seq!['e', 'l', 's', 'e'], n) + seq![':', '\n']
}

/// `if x != 0 { B }` with `x` defined and no `else` compiles to
/// `JZ rX, _elseN` that skips the block when `x` is zero, the block `B`
/// (label counter at N + 2), `JMP _endifM`, then `_elseN:` and `_endifM:`
/// — N being the label counter before the statement and M = N + 1.
#[verifier::spinoff_prover]
#[verifier::rlimit(50)]
pub proof fn lemma_if_layout(
    toks: Seq<TokV>,
    pos: nat,
    g: Gen,
    x: Seq<char>,
    ix: nat,
    p2: nat,
    g2: Gen,
)
    requires
        pos + 5 <= toks.len(),
        toks[pos as int] == TokV::Word(seq!['i', 'f']),
        toks[pos + 1int] == TokV::Word(x),
        toks[pos + 2int] == TokV::NotEq,
        toks[pos + 3int] == TokV::Num(0),
        toks[pos + 4int] == TokV::Punct('{'),
        first_at(g.vars, x, ix),
        block(
            toks,
            pos + 5,
            Gen {
                code: g.code + seq![' ', ' ', ' ', ' ', 'J', 'Z', ' ', 'r'] + dec(ix + 1) + seq![',', ' '] + label_of(
                    seq!['e', 'l', 's', 'e'],
                    g.labels,
                ) + seq!['\n'],
                vars: g.vars,
                labels: g.labels + 2,
            },
        ) == Ok::<(nat, Gen), MiniFault>((p2, g2)),
        pos + 5 < p2 <= toks.len(),
    ensures
        tok_at(toks, p2) != Some(TokV::Word(seq!['e', 'l', 's', 'e'])) ==> stmt(toks, pos, g) == Ok::<
            (nat, Gen),
            MiniFault,
        >(
            (
                p2,
                Gen {
                    code: g2.code + if_middle(g.labels) + label_of(seq!['e', 'n', 'd', 'i', 'f'], g.labels + 1)
                        + seq![':', '\n'],
                    vars: g2.vars,
                    labels: g2.labels,
                },
            ),
        ),
{
    lemma_keywords();
    lemma_slot_first(g.vars, x, 0, ix);
    lemma_label_words();
    let r = ix + 1;
    assert(use_var(toks, pos + 1, g.vars) == Ok::<(nat, nat), MiniFault>((r, (pos + 2) as nat)));
    assert(expect(toks, pos + 4, '{') == Ok::<nat, MiniFault>((pos + 5) as nat));
    assert(cond_head(toks, pos + 1, g.vars, false) == Ok::<(nat, bool, nat), MiniFault>((r, false, (pos + 5) as nat)));
    let l_else = label_name("else"@, g.labels);
    let l_end = label_name("endif"@, g.labels + 1);
    lemma_label_text(seq!['e', 'l', 's', 'e'], g.labels);
    lemma_label_text(seq!['e', 'n', 'd', 'i', 'f'], g.labels + 1);
    lemma_jz_text(r, l_else);
    lemma_jmp_text(l_end);
    lemma_def_text(l_else);
    lemma_def_text(l_end);
    let g1 = Gen { code: g.code + line2("JZ"@, reg(r), l_else), vars: g.vars, labels: g.labels + 2 };
    assert(g1.code =~= g.code + seq![' ', ' ', ' ', ' ', 'J', 'Z', ' ', 'r'] + dec(ix + 1) + seq![',', ' '] + label_of(
        seq!['e', 'l', 's', 'e'],
        g.labels,
    ) + seq!['\n']);
    assert(g1 == Gen {
        code: g.code + seq![' ', ' ', ' ', ' ', 'J', 'Z', ' ', 'r'] + dec(ix + 1) + seq![',', ' '] + label_of(
            seq!['e', 'l', 's', 'e'],
            g.labels,
        ) + seq!['\n'],
        vars: g.vars,
        labels: g.labels + 2,
    });
    assert(block(toks, pos + 5, g1) == Ok::<(nat, Gen), MiniFault>((p2, g2)));
    let g3 = emit(emit(g2, line1("JMP"@, l_end)), label_line(l_else));
    assert(g3.code =~= g2.code + if_middle(g.labels));
    assert(g3 == Gen { code: g2.code + if_middle(g.labels), vars: g2.vars, labels: g2.labels });
    assert(stmt(toks, pos, g) == if_stmt(toks, pos + 1, g));
    assert(emit(g3, label_line(l_end)).code =~= g2.code + if_middle(g.labels) + label_of(
        seq!['e', 'n', 'd', 'i', 'f'],
        g.labels + 1,
    ) + seq![':', '\n']);
}

/// `if x != 0 { B } else { C }` with `x` defined compiles to
/// `JZ rX, _elseN`, the block `B` (label counter at N + 2), `JMP _endifM`,
/// `_elseN:`, the block `C`, then `_endifM:` — N being the label counter
/// before the statement and M = N + 1.
#[verifier::spinoff_prover]
#[verifier::rlimit(50)]
pub proof fn lemma_if_else_layout(
    toks: Seq<TokV>,
    pos: nat,
    g: Gen,
    x: Seq<char>,
    ix: nat,
    p2: nat,
    g2: Gen,
    p4: nat,
    g4: Gen,
)
    requires
        pos + 5 <= toks.len(),
        toks[pos as int] == TokV::Word(seq!['i', 'f']),
        toks[pos + 1int] == TokV::Word(x),
        toks[pos + 2int] == TokV::NotEq,
        toks[pos + 3int] == TokV::Num(0),
        toks[pos + 4int] == TokV::Punct('{'),
        first_at(g.vars, x, ix),
        block(
            toks,
            pos + 5,
            Gen {
                code: g.code + seq![' ', ' ', ' ', ' ', 'J', 'Z', ' ', 'r'] + dec(ix + 1) + seq![',', ' '] + label_of(
                    seq!['e', 'l', 's', 'e'],
                    g.labels,
                ) + seq!['\n'],
                vars: g.vars,
                labels: g.labels + 2,
            },
        ) == Ok::<(nat, Gen), MiniFault>((p2, g2)),
        pos + 5 < p2 <= toks.len(),
        tok_at(toks, p2) == Some(TokV::Word(seq!['e', 'l', 's', 'e'])),
        tok_at(toks, p2 + 1) == Some(TokV::Punct('{')),
        block(toks, p2 + 2, Gen { code: g2.code + if_middle(g.labels), vars: g2.vars, labels: g2.labels }) == Ok::<
            (nat, Gen),
            MiniFault,
        >((p4, g4)),
    ensures
        stmt(toks, pos, g) == Ok::<(nat, Gen), MiniFault>(
            (
                p4,
                Gen {
                    code: g4.code + label_of(seq!['e', 'n', 'd', 'i', 'f'], g.labels + 1) + seq![':', '\n'],
                    vars: g4.vars,
                    labels: g4.labels,
                },
            ),
        ),
{
    lemma_keywords();
    lemma_slot_first(g.vars, x, 0, ix);
    lemma_label_words();
    let r = ix + 1;
    assert(use_var(toks, pos + 1, g.vars) == Ok::<(nat, nat), MiniFault>((r, (pos + 2) as nat)));
    assert(expect(toks, pos + 4, '{') == Ok::<nat, MiniFault>((pos + 5) as nat));
    assert(cond_head(toks, pos + 1, g.vars, false) == Ok::<(nat, bool, nat), MiniFault>((r, false, (pos + 5) as nat)));
    let l_else = label_name("else"@, g.labels);
    let l_end = label_name("endif"@, g.labels + 1);
    lemma_label_text(seq!['e', 'l', 's', 'e'], g.labels);
    lemma_label_text(seq!['e', 'n', 'd', 'i', 'f'], g.labels + 1);
    lemma_jz_text(r, l_else);
    lemma_jmp_text(l_end);
    lemma_def_text(l_else);
    lemma_def_text(l_end);
    let g1 = Gen { code: g.code + line2("JZ"@, reg(r), l_else), vars: g.vars, labels: g.labels + 2 };
    assert(g1.code =~= g.code + seq![' ', ' ', ' ', ' ', 'J', 'Z', ' ', 'r'] + dec(ix + 1) + seq![',', ' '] + label_of(
        seq!['e', 'l', 's', 'e'],
        g.labels,
    ) + seq!['\n']);
    assert(g1 == Gen {
        code: g.code + seq![' ', ' ', ' ', ' ', 'J', 'Z', ' ', 'r'] + dec(ix + 1) + seq![',', ' '] + label_of(
            seq!['e', 'l', 's', 'e'],
            g.labels,
        ) + seq!['\n'],
        vars: g.vars,
        labels: g.labels + 2,
    });
    assert(block(toks, pos + 5, g1) == Ok::<(nat, Gen), MiniFault>((p2, g2)));
    let g3 = emit(emit(g2, line1("JMP"@, l_end)), label_line(l_else));
    assert(g3.code =~= g2.code + if_middle(g.labels));
    assert(g3 == Gen { code: g2.code + if_middle(g.labels), vars: g2.vars, labels: g2.labels });
    assert(stmt(toks, pos, g) == if_stmt(toks, pos + 1, g));
    assert(emit(g3, label_line(l_end)).code =~= g2.code + if_middle(g.labels) + label_of(
        seq!['e', 'n', 'd', 'i', 'f'],
        g.labels + 1,
    ) + seq![':', '\n']);
    assert(expect(toks, p2 + 1, '{') == Ok::<nat, MiniFault>(p2 + 2));
    assert(emit(g4, label_line(l_end)).code =~= g4.code + label_of(seq!['e', 'n', 'd', 'i', 'f'], g.labels + 1)
        + seq![':', '\n']);
}

proof fn lemma_label_words()
    ensures
        "loop"@ == seq!['l', 'o', 'o', 'p'],
        "endloop"@ == seq!['e', 'n', 'd', 'l', 'o', 'o', 'p'],
        "body"@ == seq!['b', 'o', 'd', 'y'],
        "else"@ == seq!['e', 'l', 's', 'e'],
        "endif"@ == seq!['e', 'n', 'd', 'i', 'f'],
        "then"@ == seq!['t', 'h', 'e', 'n'],
        "JZ"@ == seq!['J', 'Z'],
        "JMP"@ == seq!['J', 'M', 'P'],
{
    reveal_strlit("loop");
    reveal_strlit("endloop");
    reveal_strlit("body");
    reveal_strlit("else");
    reveal_strlit("endif");
    reveal_strlit("then");
    reveal_strlit("JZ");
    reveal_strlit("JMP");
    assert("loop"@ =~= seq!['l', 'o', 'o', 'p']);
    assert("endloop"@ =~= seq!['e', 'n', 'd', 'l', 'o', 'o', 'p']);
    assert("body"@ =~= seq!['b', 'o', 'd', 'y']);
    assert("else"@ =~= seq!['e', 'l', 's', 'e']);
    assert("endif"@ =~= seq!['e', 'n', 'd', 'i', 'f']);
    assert("then"@ =~= seq!['t', 'h', 'e', 'n']);
    assert("JZ"@ =~= seq!['J', 'Z']);
    assert("JMP"@ =~= seq!['J', 'M', 'P']);
}

proof fn lemma_label_text(p: Seq<char>, n: nat)
    ensures
        label_name(p, n) == label_of(p, n),
{
    reveal_strlit("_");
    assert(label_name(p, n) =~= label_of(p, n));
}

proof fn lemma_jz_text(r: nat, l: Seq<char>)
    ensures
        line2("JZ"@, reg(r), l) == seq![' ', ' ', ' ', ' ', 'J', 'Z', ' ', 'r'] + dec(r) + seq![',', ' '] + l + seq![
            '\n',
        ],
{
    lemma_label_words();
    reveal_strlit("    ");
    reveal_strlit(" ");
    reveal_strlit(", ");
    reveal_strlit("\n");
    reveal_strlit("r");
    assert(line2("JZ"@, reg(r), l) =~= seq![' ', ' ', ' ', ' ', 'J', 'Z', ' ', 'r'] + dec(r) + seq![',', ' '] + l
        + seq!['\n']);
}

proof fn lemma_jmp_text(l: Seq<char>)
    ensures
        line1("JMP"@, l) == seq![' ', ' ', ' ', ' ', 'J', 'M', 'P', ' '] + l + seq!['\n'],
{
    lemma_label_words();
    reveal_strlit("    ");
    reveal_strlit(" ");
    reveal_strlit("\n");
    assert(line1("JMP"@, l) =~= seq![' ', ' ', ' ', ' ', 'J', 'M', 'P', ' '] + l + seq!['\n']);
}

proof fn lemma_def_text(l: Seq<char>)
    ensures
        label_line(l) == l + seq![':', '\n'],
{
    reveal_strlit(":\n");
    assert(label_line(l) =~= l + seq![':', '\n']);
}

} // verus!
