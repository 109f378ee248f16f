//! Compiler for `mini`, the very simple language on top of the assembly
//! language. Each statement compiles to one or a few assembly lines; there
//! are no nested expressions.
//!
//! ```text
//!   let x = 0;            constant assignment
//!   let x = y;            copy
//!   let x = y + z;        (also - and *)
//!   let x = read();
//!   x = y + z;            (also - and *)
//!   x = mem[y];
//!   mem[y] = x;
//!   write(x);
//!   if x == 0 { ... }     optional `else { ... }`; also `!= 0`
//!   while x != 0 { ... }  also `== 0`
//!   halt;
//! ```
//!
//! Comments run from `//` to the end of the line. Variables live in
//! registers `r1..r7`, in order of first `let`.

use vstd::prelude::*;

pub mod codegen;
pub mod compiler;
pub mod assembles;

use crate::assembler::{chars_of, digits_value, is_whitespace, is_ws, parse_number};
use self::codegen::push_chars;
use self::compiler::{compile_tokens, program, Gen};

verus! {

/// A token.
#[derive(Debug, PartialEq, Eq)]
pub enum Tok {
    Word(Vec<char>),
    Num(u64),
    Punct(char),
    EqEq,
    NotEq,
}

/// The meaning of a token.
pub enum TokV {
    Word(Seq<char>),
    Num(u64),
    Punct(char),
    EqEq,
    NotEq,
}

impl View for Tok {
    type V = TokV;

    open spec fn view(&self) -> TokV {
        match self {
            Tok::Word(w) => TokV::Word(w@),
            Tok::Num(n) => TokV::Num(*n),
            Tok::Punct(c) => TokV::Punct(*c),
            Tok::EqEq => TokV::EqEq,
            Tok::NotEq => TokV::NotEq,
        }
    }
}

/// Why a `mini` program did not compile.
#[derive(Debug, PartialEq, Eq)]
pub enum CompileError {
    /// A numeral does not fit in 64 bits.
    BadNumber(Vec<char>),
    /// A `!` not followed by `=`.
    ExpectedEqualsAfterBang,
    /// A character that starts no token.
    UnexpectedChar(char),
    /// The punctuation `expected` was required; `got` came instead.
    ExpectedPunct { expected: char, got: Option<Tok> },
    /// An identifier was required.
    ExpectedIdentifier(Option<Tok>),
    /// A token that starts no statement.
    UnexpectedStatement(Option<Tok>),
    /// An eighth variable.
    TooManyVariables(Vec<char>),
    /// A variable used before its `let`.
    UndefinedVariable(Vec<char>),
    /// After `let x = y`, neither `;` nor an operator.
    LetExpectedOperator(Option<Tok>),
    /// After `let x =`, neither `read`, a number nor an identifier.
    BadLetRhs(Option<Tok>),
    /// After `x = y`, no operator.
    ExpectedOperator(Option<Tok>),
    /// After `if x`, neither `==` nor `!=`.
    IfExpectedComparison(Option<Tok>),
    /// An `if` comparing with something other than `0`.
    IfOnlyZero(Option<Tok>),
    /// After `while x`, neither `!=` nor `==`.
    WhileExpectedComparison(Option<Tok>),
    /// A `while` comparing with something other than `0`.
    WhileOnlyZero(Option<Tok>),
    /// A block without its closing brace.
    UnterminatedBlock,
}

/// The meaning of a `CompileError`. `NoProgress` is never produced: a
/// statement always consumes tokens; it only lets the definitions terminate.
pub enum MiniFault {
    BadNumber(Seq<char>),
    ExpectedEqualsAfterBang,
    UnexpectedChar(char),
    ExpectedPunct { expected: char, got: Option<TokV> },
    ExpectedIdentifier(Option<TokV>),
    UnexpectedStatement(Option<TokV>),
    TooManyVariables(Seq<char>),
    UndefinedVariable(Seq<char>),
    LetExpectedOperator(Option<TokV>),
    BadLetRhs(Option<TokV>),
    ExpectedOperator(Option<TokV>),
    IfExpectedComparison(Option<TokV>),
    IfOnlyZero(Option<TokV>),
    WhileExpectedComparison(Option<TokV>),
    WhileOnlyZero(Option<TokV>),
    UnterminatedBlock,
    NoProgress,
}

/// The meaning of an optional token.
pub open spec fn opt_tok(t: Option<Tok>) -> Option<TokV> {
    match t {
        Some(x) => Some(x@),
        None => None,
    }
}

impl View for CompileError {
    type V = MiniFault;

    open spec fn view(&self) -> MiniFault {
        match self {
            CompileError::BadNumber(s) => MiniFault::BadNumber(s@),
            CompileError::ExpectedEqualsAfterBang => MiniFault::ExpectedEqualsAfterBang,
            CompileError::UnexpectedChar(c) => MiniFault::UnexpectedChar(*c),
            CompileError::ExpectedPunct { expected, got } => MiniFault::ExpectedPunct {
                expected: *expected,
                got: opt_tok(*got),
            },
            CompileError::ExpectedIdentifier(t) => MiniFault::ExpectedIdentifier(opt_tok(*t)),
            CompileError::UnexpectedStatement(t) => MiniFault::UnexpectedStatement(opt_tok(*t)),
            CompileError::TooManyVariables(s) => MiniFault::TooManyVariables(s@),
            CompileError::UndefinedVariable(s) => MiniFault::UndefinedVariable(s@),
            CompileError::LetExpectedOperator(t) => MiniFault::LetExpectedOperator(opt_tok(*t)),
            CompileError::BadLetRhs(t) => MiniFault::BadLetRhs(opt_tok(*t)),
            CompileError::ExpectedOperator(t) => MiniFault::ExpectedOperator(opt_tok(*t)),
            CompileError::IfExpectedComparison(t) => MiniFault::IfExpectedComparison(opt_tok(*t)),
            CompileError::IfOnlyZero(t) => MiniFault::IfOnlyZero(opt_tok(*t)),
            CompileError::WhileExpectedComparison(t) => MiniFault::WhileExpectedComparison(opt_tok(*t)),
            CompileError::WhileOnlyZero(t) => MiniFault::WhileOnlyZero(opt_tok(*t)),
            CompileError::UnterminatedBlock => MiniFault::UnterminatedBlock,
        }
    }
}

/// `c` is an ASCII letter.
pub open spec fn is_alpha(c: char) -> bool {
    ('a' <= c && c <= 'z') || ('A' <= c && c <= 'Z')
}

/// `c` is an ASCII decimal digit.
pub open spec fn is_dec(c: char) -> bool {
    '0' <= c && c <= '9'
}

/// `c` may continue a word.
pub open spec fn is_word_char(c: char) -> bool {
    is_alpha(c) || is_dec(c) || c == '_'
}

/// The length of the longest prefix of `s` whose characters satisfy `word`
/// (word characters when `word`, else digits).
pub open spec fn run_len(s: Seq<char>, word: bool) -> nat
    decreases s.len(),
{
    if s.len() > 0 && (if word {
        is_word_char(s[0])
    } else {
        is_dec(s[0])
    }) {
        1 + run_len(s.drop_first(), word)
    } else {
        0
    }
}

/// `c` is one of the single-character punctuation tokens.
pub open spec fn is_punct(c: char) -> bool {
    c == '+' || c == '-' || c == '*' || c == ';' || c == ',' || c == '(' || c == ')' || c == '{' || c
        == '}' || c == '[' || c == ']'
}

/// The index just past the first newline of `s`, or its length.
pub open spec fn past_newline(s: Seq<char>) -> nat
    decreases s.len(),
{
    if s.len() == 0 {
        0
    } else if s[0] == '\n' {
        1
    } else {
        1 + past_newline(s.drop_first())
    }
}

pub proof fn lemma_run_len_le(s: Seq<char>, word: bool)
    ensures
        run_len(s, word) <= s.len(),
    decreases s.len(),
{
    if s.len() > 0 {
        lemma_run_len_le(s.drop_first(), word);
    }
}

pub proof fn lemma_past_newline(s: Seq<char>)
    requires
        s.len() > 0,
    ensures
        1 <= past_newline(s) <= s.len(),
    decreases s.len(),
{
    if s.len() > 1 && s[0] != '\n' {
        lemma_past_newline(s.drop_first());
    } else if s[0] != '\n' {
        assert(past_newline(s.drop_first()) == 0);
    }
}

/// `t` in front of the tokens of `rest`, or the error of `rest`.
pub open spec fn cons_tok(t: TokV, rest: Result<Seq<TokV>, MiniFault>) -> Result<Seq<TokV>, MiniFault> {
    match rest {
        Ok(ts) => Ok(seq![t] + ts),
        Err(e) => Err(e),
    }
}

/// The tokens of `s`, or the first lexical error.
pub open spec fn lex(s: Seq<char>) -> Result<Seq<TokV>, MiniFault>
    decreases s.len(),
{
    if s.len() == 0 {
        Ok(seq![])
    } else {
        let c = s[0];
        if is_ws(c) {
            lex(s.drop_first())
        } else if c == '/' && s.len() > 1 && s[1] == '/' {
            proof {
                lemma_past_newline(s);
            }
            lex(s.skip(past_newline(s) as int))
        } else if is_alpha(c) || c == '_' {
            let k = run_len(s, true);
            proof {
                lemma_run_len_le(s, true);
            }
            cons_tok(TokV::Word(s.take(k as int)), lex(s.skip(k as int)))
        } else if is_dec(c) {
            let k = run_len(s, false);
            proof {
                lemma_run_len_le(s, false);
            }
            let v = digits_value(s.take(k as int));
            if v > u64::MAX {
                Err(MiniFault::BadNumber(s.take(k as int)))
            } else {
                cons_tok(TokV::Num(v as u64), lex(s.skip(k as int)))
            }
        } else if c == '=' {
            if s.len() > 1 && s[1] == '=' {
                cons_tok(TokV::EqEq, lex(s.skip(2)))
            } else {
                cons_tok(TokV::Punct('='), lex(s.drop_first()))
            }
        } else if c == '!' {
            if s.len() > 1 && s[1] == '=' {
                cons_tok(TokV::NotEq, lex(s.skip(2)))
            } else {
                Err(MiniFault::ExpectedEqualsAfterBang)
            }
        } else if is_punct(c) {
            cons_tok(TokV::Punct(c), lex(s.drop_first()))
        } else {
            Err(MiniFault::UnexpectedChar(c))
        }
    }
}


/// The meanings of a sequence of tokens.
pub open spec fn toks_view(v: Seq<Tok>) -> Seq<TokV> {
    Seq::new(v.len(), |i: int| v[i]@)
}

/// `prefix` in front of the tokens of `rest`, or the error of `rest`.
pub open spec fn after_toks(prefix: Seq<TokV>, rest: Result<Seq<TokV>, MiniFault>) -> Result<Seq<TokV>, MiniFault> {
    match rest {
        Ok(ts) => Ok(prefix + ts),
        Err(e) => Err(e),
    }
}

proof fn lemma_run_len(s: Seq<char>, word: bool, k: int)
    requires
        0 <= k <= s.len(),
        forall|j: int|
            0 <= j < k ==> (if word {
                is_word_char(#[trigger] s[j])
            } else {
                is_dec(s[j])
            }),
        k == s.len() || !(if word {
            is_word_char(s[k])
        } else {
            is_dec(s[k])
        }),
    ensures
        run_len(s, word) == k,
    decreases k,
{
    if k > 0 {
        assert(if word { is_word_char(s[0]) } else { is_dec(s[0]) });
        lemma_run_len(s.drop_first(), word, k - 1);
    }
}

proof fn lemma_past_newline_at(s: Seq<char>, k: int)
    requires
        0 <= k <= s.len(),
        forall|j: int| 0 <= j < k ==> #[trigger] s[j] != '\n',
        k < s.len() ==> s[k] == '\n',
    ensures
        past_newline(s) == if k < s.len() { k + 1 } else { k },
    decreases k,
{
    if k > 0 {
        lemma_past_newline_at(s.drop_first(), k - 1);
    }
}

proof fn lemma_run_len_prefix(s: Seq<char>, word: bool, k: int)
    requires
        0 <= k < run_len(s, word),
    ensures
        k < s.len(),
        if word {
            is_word_char(s[k])
        } else {
            is_dec(s[k])
        },
    decreases k,
{
    if k > 0 {
        lemma_run_len_prefix(s.drop_first(), word, k - 1);
    }
}

proof fn lemma_run_len_positive(s: Seq<char>, word: bool)
    requires
        s.len() > 0,
        if word {
            is_word_char(s[0])
        } else {
            is_dec(s[0])
        },
    ensures
        run_len(s, word) >= 1,
{
}

/// Whether `c` is a word character.
fn word_char(c: char) -> (r: bool)
    ensures
        r == is_word_char(c),
{
    ('a' <= c && c <= 'z') || ('A' <= c && c <= 'Z') || ('0' <= c && c <= '9') || c == '_'
}

/// Whether `c` continues a run: a word character when `word`, else a digit.
fn run_char(c: char, word: bool) -> (r: bool)
    ensures
        r == (if word {
            is_word_char(c)
        } else {
            is_dec(c)
        }),
{
    if word {
        word_char(c)
    } else {
        '0' <= c && c <= '9'
    }
}

/// The end of the run of word characters (or of digits) from `i` on.
fn run_end(s: &[char], i: usize, word: bool) -> (j: usize)
    requires
        i <= s@.len(),
    ensures
        i <= j <= s@.len(),
        j == i + run_len(s@.skip(i as int), word),
        forall|q: int| i <= q < j ==> #[trigger] s@[q] == s@[q],
{
    let n = s.len();
    let mut j: usize = i;
    while j < n && run_char(s[j], word)
        invariant
            n == s@.len(),
            i <= j <= n,
            forall|q: int|
                i <= q < j ==> (if word {
                    is_word_char(#[trigger] s@[q])
                } else {
                    is_dec(s@[q])
                }),
        decreases n - j,
    {
        j = j + 1;
    }
    proof {
        let t = s@.skip(i as int);
        assert forall|q: int| 0 <= q < j - i implies (if word {
            is_word_char(#[trigger] t[q])
        } else {
            is_dec(t[q])
        }) by {
            assert(t[q] == s@[q + i]);
        }
        if j < n {
            assert(t[j - i] == s@[j as int]);
        }
        lemma_run_len(t, word, j - i);
    }
    j
}

/// The tokens of a `mini` source.
pub fn tokenize(s: &[char]) -> (r: Result<Vec<Tok>, CompileError>)
    ensures
        match lex(s@) {
            Ok(ts) => r matches Ok(v) && toks_view(v@) == ts,
            Err(e) => r matches Err(x) && x@ == e,
        },
{
    let n = s.len();
    let mut out: Vec<Tok> = Vec::new();
    let mut i: usize = 0;
    assert(s@.skip(0) =~= s@);
    assert(toks_view(out@) =~= Seq::<TokV>::empty());
    assert(after_toks(Seq::<TokV>::empty(), lex(s@)) == lex(s@)) by {
        match lex(s@) {
            Ok(ts) => assert(Seq::<TokV>::empty() + ts =~= ts),
            Err(_) => {},
        }
    }
    while i < n
        invariant
            n == s@.len(),
            i <= n,
            lex(s@) == after_toks(toks_view(out@), lex(s@.skip(i as int))),
        decreases n - i,
    {
        let ghost t = s@.skip(i as int);
        let ghost before = toks_view(out@);
        let c = s[i];
        assert(t[0] == c);
        if is_whitespace(c) {
            assert(t.drop_first() =~= s@.skip(i + 1));
            i = i + 1;
        } else if c == '/' && i + 1 < n && s[i + 1] == '/' {
            assert(t[1] == s@[i + 1]);
            let mut j: usize = i;
            while j < n && s[j] != '\n'
                invariant
                    n == s@.len(),
                    i <= j <= n,
                    forall|q: int| i <= q < j ==> #[trigger] s@[q] != '\n',
                decreases n - j,
            {
                j = j + 1;
            }
            proof {
                assert forall|q: int| 0 <= q < j - i implies #[trigger] t[q] != '\n' by {
                    assert(t[q] == s@[q + i]);
                }
                if j < n {
                    assert(t[j - i] == s@[j as int]);
                }
                lemma_past_newline_at(t, j - i);
            }
            let next = if j < n {
                j + 1
            } else {
                j
            };
            assert(t.skip(past_newline(t) as int) =~= s@.skip(next as int));
            i = next;
        } else if ('a' <= c && c <= 'z') || ('A' <= c && c <= 'Z') || c == '_' {
            let j = run_end(s, i, true);
            let mut w: Vec<char> = Vec::new();
            let mut q: usize = i;
            while q < j
                invariant
                    i <= q <= j <= n == s@.len(),
                    w@ == s@.subrange(i as int, q as int),
                decreases j - q,
            {
                w.push(s[q]);
                q = q + 1;
                assert(w@ =~= s@.subrange(i as int, q as int));
            }
            assert(w@ =~= t.take(j - i));
            assert(t.skip(j - i) =~= s@.skip(j as int));
            out.push(Tok::Word(w));
            proof {
                assert(toks_view(out@) =~= before.push(TokV::Word(t.take(j - i))));
                match lex(s@.skip(j as int)) {
                    Ok(ts) => assert(before + (seq![TokV::Word(t.take(j - i))] + ts) =~= before.push(
                        TokV::Word(t.take(j - i)),
                    ) + ts),
                    Err(_) => {},
                }
            }
            i = j;
        } else if '0' <= c && c <= '9' {
            let j = run_end(s, i, false);
            let mut d: Vec<char> = Vec::new();
            let mut q: usize = i;
            while q < j
                invariant
                    i <= q <= j <= n == s@.len(),
                    d@ == s@.subrange(i as int, q as int),
                decreases j - q,
            {
                d.push(s[q]);
                q = q + 1;
                assert(d@ =~= s@.subrange(i as int, q as int));
            }
            assert(d@ =~= t.take(j - i));
            proof {
                assert forall|k: int| 0 <= k < d@.len() implies crate::assembler::is_digit(#[trigger] d@[k]) by {
                    lemma_run_len_prefix(t, false, k);
                }
                assert(d@.len() > 0) by {
                    lemma_run_len_positive(t, false);
                }
                assert(!(d@.len() > 0 && d@[0] == '+'));
            }
            match parse_number(d.as_slice(), u64::MAX) {
                None => {
                    return Err(CompileError::BadNumber(d));
                },
                Some(v) => {
                    assert(t.skip(j - i) =~= s@.skip(j as int));
                    out.push(Tok::Num(v));
                    proof {
                        assert(toks_view(out@) =~= before.push(TokV::Num(v)));
                        match lex(s@.skip(j as int)) {
                            Ok(ts) => assert(before + (seq![TokV::Num(v)] + ts) =~= before.push(TokV::Num(v)) + ts),
                            Err(_) => {},
                        }
                    }
                    i = j;
                },
            }
        } else if c == '=' {
            if i + 1 < n && s[i + 1] == '=' {
                assert(t[1] == s@[i + 1]);
                assert(t.skip(2) =~= s@.skip(i + 2));
                out.push(Tok::EqEq);
                proof {
                    assert(toks_view(out@) =~= before.push(TokV::EqEq));
                    match lex(s@.skip(i + 2)) {
                        Ok(ts) => assert(before + (seq![TokV::EqEq] + ts) =~= before.push(TokV::EqEq) + ts),
                        Err(_) => {},
                    }
                }
                i = i + 2;
            } else {
                assert(i + 1 < n ==> t[1] == s@[i + 1]);
                assert(t.drop_first() =~= s@.skip(i + 1));
                out.push(Tok::Punct('='));
                proof {
                    assert(toks_view(out@) =~= before.push(TokV::Punct('=')));
                    match lex(s@.skip(i + 1)) {
                        Ok(ts) => assert(before + (seq![TokV::Punct('=')] + ts) =~= before.push(TokV::Punct('='))
                            + ts),
                        Err(_) => {},
                    }
                }
                i = i + 1;
            }
        } else if c == '!' {
            if i + 1 < n && s[i + 1] == '=' {
                assert(t[1] == s@[i + 1]);
                assert(t.skip(2) =~= s@.skip(i + 2));
                out.push(Tok::NotEq);
                proof {
                    assert(toks_view(out@) =~= before.push(TokV::NotEq));
                    match lex(s@.skip(i + 2)) {
                        Ok(ts) => assert(before + (seq![TokV::NotEq] + ts) =~= before.push(TokV::NotEq) + ts),
                        Err(_) => {},
                    }
                }
                i = i + 2;
            } else {
                assert(i + 1 < n ==> t[1] == s@[i + 1]);
                return Err(CompileError::ExpectedEqualsAfterBang);
            }
        } else if c == '+' || c == '-' || c == '*' || c == ';' || c == ',' || c == '(' || c == ')' || c == '{'
            || c == '}' || c == '[' || c == ']' {
            assert(t.drop_first() =~= s@.skip(i + 1));
            out.push(Tok::Punct(c));
            proof {
                assert(toks_view(out@) =~= before.push(TokV::Punct(c)));
                match lex(s@.skip(i + 1)) {
                    Ok(ts) => assert(before + (seq![TokV::Punct(c)] + ts) =~= before.push(TokV::Punct(c)) + ts),
                    Err(_) => {},
                }
            }
            i = i + 1;
        } else {
            return Err(CompileError::UnexpectedChar(c));
        }
    }
    proof {
        assert(s@.skip(i as int) =~= Seq::<char>::empty());
        assert(toks_view(out@) + Seq::<TokV>::empty() =~= toks_view(out@));
    }
    Ok(out)
}

/// `code` ends with the line `HALT`.
pub open spec fn ends_with_halt(code: Seq<char>) -> bool {
    let h = "    HALT\n"@;
    code.len() >= h.len() && code.subrange(code.len() - h.len(), code.len() as int) == h
}

/// `code` closed by a `HALT`: a program halts at its end, so the line `HALT`
/// is appended unless the last line already is one.
pub open spec fn with_final_halt(code: Seq<char>) -> Seq<char> {
    if ends_with_halt(code) {
        code
    } else {
        code + "    HALT\n"@
    }
}

/// The assembly text of a `mini` source, or the first error. The text of the
/// statements is closed by the `HALT` that ends every program.
pub open spec fn compiled(src: Seq<char>) -> Result<Seq<char>, MiniFault> {
    match lex(src) {
        Err(e) => Err(e),
        Ok(ts) => match program(ts, 0, Gen { code: seq![], vars: seq![], labels: 0 }) {
            Ok(g) => Ok(with_final_halt(g.code)),
            Err(e) => Err(e),
        },
    }
}

/// Whether `v` ends with the characters of `h`.
fn ends_with_chars(v: &[char], h: &[char]) -> (r: bool)
    ensures
        r == (v@.len() >= h@.len() && v@.subrange(v@.len() - h@.len(), v@.len() as int) == h@),
{
    if v.len() < h.len() {
        return false;
    }
    let off = v.len() - h.len();
    let mut k: usize = 0;
    while k < h.len()
        invariant
            off + h@.len() == v@.len(),
            off + h.len() == v.len(),
            k <= h@.len(),
            forall|j: int| 0 <= j < k ==> v@[off + j] == h@[j],
        decreases h@.len() - k,
    {
        if v[off + k] != h[k] {
            assert(v@.subrange(off as int, v@.len() as int)[k as int] != h@[k as int]);
            return false;
        }
        k = k + 1;
    }
    assert(v@.subrange(off as int, v@.len() as int) =~= h@);
    true
}

/// Collects characters into a `String` through `String`'s
/// `FromIterator<&char>`; the contract claims the string holds exactly those
/// characters, in order.
#[verifier::external_body]
fn string_from_chars(cs: &[char]) -> (s: String)
    ensures
        s@ == cs@,
{
    String::from_iter(cs.iter())
}

/// Compiles a `mini` program to assembly text, closed by a final `HALT`
/// unless its last line already is one.
pub fn compile(src: &str) -> (r: Result<String, CompileError>)
    ensures
        match compiled(src@) {
            Ok(text) => r matches Ok(s) && s@ == text,
            Err(e) => r matches Err(x) && x@ == e,
        },
{
    let cs = chars_of(src);
    let toks = match tokenize(cs.as_slice()) {
        Ok(t) => t,
        Err(e) => return Err(e),
    };
    match compile_tokens(toks.as_slice()) {
        Ok(v) => {
            let mut v = v;
            let h = chars_of("    HALT\n");
            if !ends_with_chars(v.as_slice(), h.as_slice()) {
                push_chars(&mut v, h.as_slice());
            }
            Ok(string_from_chars(v.as_slice()))
        },
        Err(e) => Err(e),
    }
}

} // verus!
