//! Assembler for the field-native VM.
//!
//! Grammar (one instruction per line, comments start with `;`, labels end
//! with `:`):
//!
//! ```text
//!   ADD   rd, ra, rb
//!   SUB   rd, ra, rb
//!   MUL   rd, ra, rb
//!   IMM   rd, K          (K is a decimal field-element literal or a label)
//!   LOAD  rd, ra
//!   STORE ra, rb
//!   JMP   label
//!   JZ    ra, label
//!   READ  rd
//!   WRITE ra
//!   HALT
//!   MOV   rd, rs         (pseudo: ADD rd, rs, r0)
//! ```
//!
//! Mnemonics are case-insensitive. Source text is taken as characters;
//! whitespace is Unicode white space, as `char::is_whitespace` defines it.

use vstd::prelude::*;

use crate::field::P;
use crate::vm::{Instruction, Opcode};

verus! {

/// The characters of `s`, in order.
pub fn chars_of(s: &str) -> (v: Vec<char>)
    ensures
        v@ == s@,
{
    broadcast use vstd::string::group_string_axioms;

    let mut v: Vec<char> = Vec::new();
    for c in it: s.chars()
        invariant
            v@ == it.seq().take(it.index()),
    {
        v.push(c);
        assert(v@ =~= it.seq().take(it.index() + 1));
    }
    v
}

/// Unicode white space (the `White_Space` property).
pub open spec fn is_ws(c: char) -> bool {
    ('\u{9}' <= c && c <= '\u{d}') || c == ' ' || c == '\u{85}' || c == '\u{a0}' || c == '\u{1680}' || (
    '\u{2000}' <= c && c <= '\u{200a}') || c == '\u{2028}' || c == '\u{2029}' || c == '\u{202f}' || c
        == '\u{205f}' || c == '\u{3000}'
}

/// Whether `c` is Unicode white space.
pub fn is_whitespace(c: char) -> (r: bool)
    ensures
        r == is_ws(c),
{
    ('\u{9}' <= c && c <= '\u{d}') || c == ' ' || c == '\u{85}' || c == '\u{a0}' || c == '\u{1680}' || (
    '\u{2000}' <= c && c <= '\u{200a}') || c == '\u{2028}' || c == '\u{2029}' || c == '\u{202f}' || c
        == '\u{205f}' || c == '\u{3000}'
}

/// `s` without leading white space.
pub open spec fn trim_start(s: Seq<char>) -> Seq<char>
    decreases s.len(),
{
    if s.len() > 0 && is_ws(s[0]) {
        trim_start(s.drop_first())
    } else {
        s
    }
}

/// `s` without trailing white space.
pub open spec fn trim_end(s: Seq<char>) -> Seq<char>
    decreases s.len(),
{
    if s.len() > 0 && is_ws(s.last()) {
        trim_end(s.drop_last())
    } else {
        s
    }
}

/// `s` without leading and trailing white space.
pub open spec fn trim(s: Seq<char>) -> Seq<char> {
    trim_end(trim_start(s))
}

pub(crate) proof fn lemma_trim_start_skip(s: Seq<char>, i: int)
    requires
        0 <= i <= s.len(),
        forall|k: int| 0 <= k < i ==> is_ws(#[trigger] s[k]),
    ensures
        trim_start(s) == trim_start(s.skip(i)),
    decreases i,
{
    if i > 0 {
        assert(is_ws(s[0]));
        assert(s.drop_first().skip(i - 1) =~= s.skip(i));
        assert forall|k: int| 0 <= k < i - 1 implies is_ws(#[trigger] s.drop_first()[k]) by {
            assert(s.drop_first()[k] == s[k + 1]);
        }
        lemma_trim_start_skip(s.drop_first(), i - 1);
    } else {
        assert(s.skip(0) =~= s);
    }
}

pub(crate) proof fn lemma_trim_end_take(s: Seq<char>, j: int)
    requires
        0 <= j <= s.len(),
        forall|k: int| j <= k < s.len() ==> is_ws(#[trigger] s[k]),
    ensures
        trim_end(s) == trim_end(s.take(j)),
    decreases s.len() - j,
{
    if j < s.len() {
        assert(s.drop_last().take(j) =~= s.take(j));
        lemma_trim_end_take(s.drop_last(), j);
    } else {
        assert(s.take(j) =~= s);
    }
}

/// `s` without leading and trailing white space.
pub fn trim_chars(s: &[char]) -> (r: Vec<char>)
    ensures
        r@ == trim(s@),
{
    let n = s.len();
    let mut i: usize = 0;
    while i < n && is_whitespace(s[i])
        invariant
            n == s@.len(),
            i <= n,
            forall|k: int| 0 <= k < i ==> is_ws(#[trigger] s@[k]),
        decreases n - i,
    {
        i = i + 1;
    }
    proof {
        lemma_trim_start_skip(s@, i as int);
    }
    let ghost t = s@.skip(i as int);
    assert(trim_start(s@) == t);
    let mut j: usize = n;
    while j > i && is_whitespace(s[j - 1])
        invariant
            n == s@.len(),
            i <= j <= n,
            t == s@.skip(i as int),
            forall|k: int| j <= k < n ==> is_ws(#[trigger] s@[k]),
        decreases j,
    {
        j = j - 1;
    }
    proof {
        assert forall|k: int| j - i <= k < t.len() implies is_ws(#[trigger] t[k]) by {
            assert(t[k] == s@[k + i]);
        }
        lemma_trim_end_take(t, j - i);
    }
    let mut r: Vec<char> = Vec::new();
    let mut k: usize = i;
    while k < j
        invariant
            i <= k <= j <= n,
            n == s@.len(),
            r@ == s@.subrange(i as int, k as int),
        decreases j - k,
    {
        r.push(s[k]);
        k = k + 1;
        assert(r@ =~= s@.subrange(i as int, k as int));
    }
    assert(r@ =~= t.take(j - i));
    r
}

/// The index of the first `c` in `s`, or the length of `s` when there is none.
pub open spec fn first_index(s: Seq<char>, c: char) -> nat
    decreases s.len(),
{
    if s.len() == 0 {
        0
    } else if s[0] == c {
        0
    } else {
        1 + first_index(s.drop_first(), c)
    }
}

pub(crate) proof fn lemma_first_index(s: Seq<char>, c: char, k: int)
    requires
        0 <= k <= s.len(),
        forall|j: int| 0 <= j < k ==> #[trigger] s[j] != c,
        k == s.len() || s[k] == c,
    ensures
        first_index(s, c) == k,
    decreases k,
{
    if k > 0 {
        lemma_first_index(s.drop_first(), c, k - 1);
    }
}

/// The pieces of `s` between the occurrences of `c` (as `str::split`).
pub open spec fn split_on(s: Seq<char>, c: char) -> Seq<Seq<char>>
    decreases s.len(),
{
    let k = first_index(s, c);
    if k >= s.len() {
        seq![s]
    } else {
        seq![s.take(k as int)] + split_on(s.skip((k + 1) as int), c)
    }
}

/// The pieces of `s` between the occurrences of `c`.
pub fn split_chars(s: &[char], c: char) -> (r: Vec<Vec<char>>)
    ensures
        r@.len() == split_on(s@, c).len(),
        forall|i: int| 0 <= i < r@.len() ==> (#[trigger] r@[i])@ == split_on(s@, c)[i],
{
    let n = s.len();
    let mut done: Vec<Vec<char>> = Vec::new();
    let ghost mut done_v: Seq<Seq<char>> = seq![];
    let mut cur: Vec<char> = Vec::new();
    let mut k: usize = 0;
    assert(cur@ + s@.skip(0) =~= s@);
    assert(done_v + split_on(s@, c) =~= split_on(s@, c));
    while k < n
        invariant
            n == s@.len(),
            k <= n,
            done@.len() == done_v.len(),
            forall|i: int| 0 <= i < done@.len() ==> (#[trigger] done@[i])@ == done_v[i],
            forall|j: int| 0 <= j < cur@.len() ==> #[trigger] cur@[j] != c,
            split_on(s@, c) == done_v + split_on(cur@ + s@.skip(k as int), c),
        decreases n - k,
    {
        let ch = s[k];
        let ghost w = cur@ + s@.skip(k as int);
        if ch == c {
            proof {
                lemma_first_index(w, c, cur@.len() as int);
                assert(w.take(cur@.len() as int) =~= cur@);
                assert(w.skip((cur@.len() + 1) as int) =~= Seq::<char>::empty() + s@.skip(k + 1));
            }
            done.push(cur);
            proof {
                done_v = done_v.push(cur@);
            }
            cur = Vec::new();
        } else {
            cur.push(ch);
            assert(w =~= cur@ + s@.skip(k + 1));
        }
        k = k + 1;
    }
    proof {
        lemma_first_index(cur@, c, cur@.len() as int);
        assert(cur@ + s@.skip(k as int) =~= cur@);
    }
    done.push(cur);
    proof {
        done_v = done_v.push(cur@);
    }
    assert(done_v =~= split_on(s@, c));
    done
}


/// `c` is an ASCII decimal digit.
pub open spec fn is_digit(c: char) -> bool {
    '0' <= c && c <= '9'
}

/// Every character of `d` is a decimal digit.
pub open spec fn all_digits(d: Seq<char>) -> bool {
    forall|i: int| 0 <= i < d.len() ==> is_digit(#[trigger] d[i])
}

/// The value of the decimal digits `d`.
pub open spec fn digits_value(d: Seq<char>) -> nat
    decreases d.len(),
{
    if d.len() == 0 {
        0
    } else {
        digits_value(d.drop_last()) * 10 + (d.last() as nat - '0' as nat) as nat
    }
}

/// The value of a decimal literal as `str::parse` reads an unsigned integer:
/// an optional `+`, then one or more ASCII digits; `None` otherwise.
pub open spec fn parse_nat(s: Seq<char>) -> Option<nat> {
    let d = if s.len() > 0 && s[0] == '+' {
        s.drop_first()
    } else {
        s
    };
    if d.len() > 0 && all_digits(d) {
        Some(digits_value(d))
    } else {
        None
    }
}

/// The value of a decimal literal that fits in `max`, as `str::parse` of an
/// unsigned integer type with maximum `max` reads it.
pub open spec fn parse_bounded(s: Seq<char>, max: nat) -> Option<nat> {
    match parse_nat(s) {
        Some(v) => if v <= max {
            Some(v)
        } else {
            None
        },
        None => None,
    }
}

proof fn lemma_digits_value_grows(d: Seq<char>, i: int)
    requires
        0 <= i <= d.len(),
        forall|k: int| 0 <= k < d.len() ==> is_digit(#[trigger] d[k]),
    ensures
        digits_value(d.take(i)) <= digits_value(d),
    decreases d.len() - i,
{
    if i < d.len() {
        assert(d.drop_last().take(i) =~= d.take(i)) by {
            if i == d.len() {
            }
        }
        if i < d.len() {
            lemma_digits_value_grows(d.drop_last(), i);
        }
    } else {
        assert(d.take(i) =~= d);
    }
}

/// Read a decimal literal whose value is at most `max`.
pub(crate) fn parse_number(s: &[char], max: u64) -> (r: Option<u64>)
    ensures
        r matches Some(v) ==> parse_bounded(s@, max as nat) == Some(v as nat),
        r is None ==> parse_bounded(s@, max as nat) is None,
{
    let n = s.len();
    let start: usize = if n > 0 && s[0] == '+' {
        1
    } else {
        0
    };
    let ghost d = if s@.len() > 0 && s@[0] == '+' {
        s@.drop_first()
    } else {
        s@
    };
    assert(d =~= s@.skip(start as int));
    if start >= n {
        return None;
    }
    let mut v: u64 = 0;
    let mut i: usize = start;
    while i < n
        invariant
            start <= i <= n,
            n == s@.len(),
            d == s@.skip(start as int),
            d == (if s@.len() > 0 && s@[0] == '+' {
                s@.drop_first()
            } else {
                s@
            }),
            d.len() > 0,
            forall|k: int| 0 <= k < i - start ==> is_digit(#[trigger] d[k]),
            v == digits_value(d.take(i - start)),
            v <= max,
        decreases n - i,
    {
        let ch = s[i];
        assert(d[i - start] == ch);
        if !('0' <= ch && ch <= '9') {
            assert(!is_digit(d[i - start]));
            assert(!all_digits(d));
            return None;
        }
        let digit = (ch as u64) - ('0' as u64);
        proof {
            assert(d.take(i - start + 1).drop_last() =~= d.take(i - start));
            assert(d.take(i - start + 1).last() == ch);
            assert(digits_value(d.take(i - start + 1)) == v * 10 + digit);
        }
        if v > max / 10 {
            proof {
                assert(v * 10 + digit > max) by (nonlinear_arith)
                    requires
                        v > max / 10,
                ;
                if all_digits(d) {
                    lemma_digits_value_grows(d, i - start + 1);
                }
            }
            return None;
        }
        assert(v * 10 <= max) by (nonlinear_arith)
            requires
                v <= max / 10,
        ;
        let t = v * 10;
        if digit > max - t {
            proof {
                if all_digits(d) {
                    lemma_digits_value_grows(d, i - start + 1);
                }
            }
            return None;
        }
        v = t + digit;
        i = i + 1;
    }
    assert(d.take(n - start) =~= d);
    Some(v)
}


/// A mnemonic of the assembly language.
#[derive(Debug, Clone, Copy, PartialEq, Eq, Structural)]
pub enum Mnemonic {
    Add,
    Sub,
    Mul,
    Imm,
    Load,
    Store,
    Jmp,
    Jz,
    Read,
    Write,
    Halt,
    Mov,
}

/// Why a line did not assemble.
#[derive(Debug, PartialEq, Eq)]
pub enum LineError {
    /// An operand that should name a register does not start with `r`.
    ExpectedRegister(Vec<char>),
    /// The register number is not a decimal `u32`.
    BadRegister(Vec<char>),
    /// The register number is 8 or more.
    RegisterOutOfRange(u32),
    /// An operand is neither a known label nor a decimal `u64`.
    BadImmediate(Vec<char>),
    /// The mnemonic takes `expected` operands but `got` were given.
    ArgCount { mnemonic: Mnemonic, expected: usize, got: usize },
    /// The mnemonic (as written) is not one of the language.
    UnknownMnemonic(Vec<char>),
}

/// Why a program did not assemble.
#[derive(Debug, PartialEq, Eq)]
pub enum AsmError {
    /// A label is defined a second time on line `line` (the name as written).
    DuplicateLabel { line: usize, name: Vec<char> },
    /// Line `line` did not assemble.
    Line { line: usize, error: LineError },
}

/// The meaning of a `LineError`.
pub enum LineFault {
    ExpectedRegister(Seq<char>),
    BadRegister(Seq<char>),
    RegisterOutOfRange(u32),
    BadImmediate(Seq<char>),
    ArgCount { mnemonic: Mnemonic, expected: nat, got: nat },
    UnknownMnemonic(Seq<char>),
}

/// The meaning of an `AsmError`.
pub enum AsmFault {
    DuplicateLabel { line: nat, name: Seq<char> },
    Line { line: nat, error: LineFault },
}

impl View for LineError {
    type V = LineFault;

    open spec fn view(&self) -> LineFault {
        match self {
            LineError::ExpectedRegister(t) => LineFault::ExpectedRegister(t@),
            LineError::BadRegister(t) => LineFault::BadRegister(t@),
            LineError::RegisterOutOfRange(n) => LineFault::RegisterOutOfRange(*n),
            LineError::BadImmediate(t) => LineFault::BadImmediate(t@),
            LineError::ArgCount { mnemonic, expected, got } => LineFault::ArgCount {
                mnemonic: *mnemonic,
                expected: *expected as nat,
                got: *got as nat,
            },
            LineError::UnknownMnemonic(t) => LineFault::UnknownMnemonic(t@),
        }
    }
}

impl View for AsmError {
    type V = AsmFault;

    open spec fn view(&self) -> AsmFault {
        match self {
            AsmError::DuplicateLabel { line, name } => AsmFault::DuplicateLabel { line: *line as nat, name: name@ },
            AsmError::Line { line, error } => AsmFault::Line { line: *line as nat, error: error@ },
        }
    }
}

/// The upper case of `c` as far as mnemonics can tell: ASCII letters
/// upper-cased, the non-ASCII letters whose upper case is ASCII (dotless i,
/// long s, sharp s and the Latin ligatures) replaced by it, anything else
/// kept (no mnemonic can match it either way).
pub open spec fn upper(c: char) -> Seq<char> {
    if 'a' <= c && c <= 'z' {
        seq![((c as u8) - 32) as u8 as char]
    } else if c == '\u{131}' {
        seq!['I']
    } else if c == '\u{17f}' {
        seq!['S']
    } else if c == '\u{df}' {
        seq!['S', 'S']
    } else if c == '\u{fb00}' {
        seq!['F', 'F']
    } else if c == '\u{fb01}' {
        seq!['F', 'I']
    } else if c == '\u{fb02}' {
        seq!['F', 'L']
    } else if c == '\u{fb03}' {
        seq!['F', 'F', 'I']
    } else if c == '\u{fb04}' {
        seq!['F', 'F', 'L']
    } else if c == '\u{fb05}' || c == '\u{fb06}' {
        seq!['S', 'T']
    } else {
        seq![c]
    }
}

/// The upper-case form of `s` that mnemonics are matched against.
pub open spec fn upper_key(s: Seq<char>) -> Seq<char>
    decreases s.len(),
{
    if s.len() == 0 {
        seq![]
    } else {
        upper_key(s.drop_last()) + upper(s.last())
    }
}

/// The upper case of one character.
fn upper_of(c: char) -> (r: Vec<char>)
    ensures
        r@ == upper(c),
{
    let r: Vec<char> = if 'a' <= c && c <= 'z' {
        vec![((c as u8) - 32) as char]
    } else if c == '\u{131}' {
        vec!['I']
    } else if c == '\u{17f}' {
        vec!['S']
    } else if c == '\u{df}' {
        vec!['S', 'S']
    } else if c == '\u{fb00}' {
        vec!['F', 'F']
    } else if c == '\u{fb01}' {
        vec!['F', 'I']
    } else if c == '\u{fb02}' {
        vec!['F', 'L']
    } else if c == '\u{fb03}' {
        vec!['F', 'F', 'I']
    } else if c == '\u{fb04}' {
        vec!['F', 'F', 'L']
    } else if c == '\u{fb05}' || c == '\u{fb06}' {
        vec!['S', 'T']
    } else {
        vec![c]
    };
    assert(r@ =~= upper(c));
    r
}

/// The upper-case key of `s`.
fn upper_key_of(s: &[char]) -> (r: Vec<char>)
    ensures
        r@ == upper_key(s@),
{
    let mut r: Vec<char> = Vec::new();
    let mut k: usize = 0;
    while k < s.len()
        invariant
            k <= s@.len(),
            r@ == upper_key(s@.take(k as int)),
        decreases s@.len() - k,
    {
        let mut u = upper_of(s[k]);
        proof {
            assert(s@.take(k + 1).drop_last() =~= s@.take(k as int));
        }
        r.append(&mut u);
        k = k + 1;
    }
    assert(s@.take(k as int) =~= s@);
    r
}

/// `a` and `b` hold the same characters.
pub(crate) fn chars_eq(a: &[char], b: &[char]) -> (r: bool)
    ensures
        r == (a@ == b@),
{
    if a.len() != b.len() {
        return false;
    }
    let mut k: usize = 0;
    while k < a.len()
        invariant
            a@.len() == b@.len(),
            k <= a@.len(),
            forall|j: int| 0 <= j < k ==> a@[j] == b@[j],
        decreases a@.len() - k,
    {
        if a[k] != b[k] {
            return false;
        }
        k = k + 1;
    }
    assert(a@ =~= b@);
    true
}

/// The mnemonic an upper-case key names.
pub open spec fn mnemonic_of(key: Seq<char>) -> Option<Mnemonic> {
    if key == seq!['A', 'D', 'D'] {
        Some(Mnemonic::Add)
    } else if key == seq!['S', 'U', 'B'] {
        Some(Mnemonic::Sub)
    } else if key == seq!['M', 'U', 'L'] {
        Some(Mnemonic::Mul)
    } else if key == seq!['I', 'M', 'M'] {
        Some(Mnemonic::Imm)
    } else if key == seq!['L', 'O', 'A', 'D'] {
        Some(Mnemonic::Load)
    } else if key == seq!['S', 'T', 'O', 'R', 'E'] {
        Some(Mnemonic::Store)
    } else if key == seq!['J', 'M', 'P'] {
        Some(Mnemonic::Jmp)
    } else if key == seq!['J', 'Z'] {
        Some(Mnemonic::Jz)
    } else if key == seq!['R', 'E', 'A', 'D'] {
        Some(Mnemonic::Read)
    } else if key == seq!['W', 'R', 'I', 'T', 'E'] {
        Some(Mnemonic::Write)
    } else if key == seq!['H', 'A', 'L', 'T'] {
        Some(Mnemonic::Halt)
    } else if key == seq!['M', 'O', 'V'] {
        Some(Mnemonic::Mov)
    } else {
        None
    }
}

/// The mnemonic an upper-case key names.
fn mnemonic_from(key: &[char]) -> (r: Option<Mnemonic>)
    ensures
        r == mnemonic_of(key@),
{
    let add = ['A', 'D', 'D'];
    let sub = ['S', 'U', 'B'];
    let mul = ['M', 'U', 'L'];
    let imm = ['I', 'M', 'M'];
    let load = ['L', 'O', 'A', 'D'];
    let store = ['S', 'T', 'O', 'R', 'E'];
    let jmp = ['J', 'M', 'P'];
    let jz = ['J', 'Z'];
    let read = ['R', 'E', 'A', 'D'];
    let write = ['W', 'R', 'I', 'T', 'E'];
    let halt = ['H', 'A', 'L', 'T'];
    let mov = ['M', 'O', 'V'];
    assert(add@ =~= seq!['A', 'D', 'D']);
    assert(sub@ =~= seq!['S', 'U', 'B']);
    assert(mul@ =~= seq!['M', 'U', 'L']);
    assert(imm@ =~= seq!['I', 'M', 'M']);
    assert(load@ =~= seq!['L', 'O', 'A', 'D']);
    assert(store@ =~= seq!['S', 'T', 'O', 'R', 'E']);
    assert(jmp@ =~= seq!['J', 'M', 'P']);
    assert(jz@ =~= seq!['J', 'Z']);
    assert(read@ =~= seq!['R', 'E', 'A', 'D']);
    assert(write@ =~= seq!['W', 'R', 'I', 'T', 'E']);
    assert(halt@ =~= seq!['H', 'A', 'L', 'T']);
    assert(mov@ =~= seq!['M', 'O', 'V']);
    if chars_eq(key, &add) {
        Some(Mnemonic::Add)
    } else if chars_eq(key, &sub) {
        Some(Mnemonic::Sub)
    } else if chars_eq(key, &mul) {
        Some(Mnemonic::Mul)
    } else if chars_eq(key, &imm) {
        Some(Mnemonic::Imm)
    } else if chars_eq(key, &load) {
        Some(Mnemonic::Load)
    } else if chars_eq(key, &store) {
        Some(Mnemonic::Store)
    } else if chars_eq(key, &jmp) {
        Some(Mnemonic::Jmp)
    } else if chars_eq(key, &jz) {
        Some(Mnemonic::Jz)
    } else if chars_eq(key, &read) {
        Some(Mnemonic::Read)
    } else if chars_eq(key, &write) {
        Some(Mnemonic::Write)
    } else if chars_eq(key, &halt) {
        Some(Mnemonic::Halt)
    } else if chars_eq(key, &mov) {
        Some(Mnemonic::Mov)
    } else {
        None
    }
}


/// A register operand: `r` followed by a decimal number below 8 (after
/// trimming white space).
pub open spec fn reg_operand(s: Seq<char>) -> Result<u32, LineFault> {
    let t = trim(s);
    if t.len() == 0 || t[0] != 'r' {
        Err(LineFault::ExpectedRegister(t))
    } else {
        match parse_bounded(t.drop_first(), u32::MAX as nat) {
            None => Err(LineFault::BadRegister(t)),
            Some(n) => if n >= 8 {
                Err(LineFault::RegisterOutOfRange(n as u32))
            } else {
                Ok(n as u32)
            },
        }
    }
}

/// The address of label `name` in `labels`, if it is defined.
pub open spec fn label_lookup(labels: Seq<(Seq<char>, u32)>, name: Seq<char>) -> Option<u32>
    decreases labels.len(),
{
    if labels.len() == 0 {
        None
    } else if labels.last().0 == name {
        Some(labels.last().1)
    } else {
        label_lookup(labels.drop_last(), name)
    }
}

/// An immediate operand: a defined label's address, else a decimal `u64`
/// reduced into the field (after trimming white space).
pub open spec fn imm_operand(s: Seq<char>, labels: Seq<(Seq<char>, u32)>) -> Result<u32, LineFault> {
    let t = trim(s);
    match label_lookup(labels, t) {
        Some(p) => Ok(p),
        None => match parse_bounded(t, u64::MAX as nat) {
            Some(v) => Ok((v % (P as nat)) as u32),
            None => Err(LineFault::BadImmediate(t)),
        },
    }
}

/// The label table as plain values.
pub open spec fn labels_view(labels: Seq<(Vec<char>, u32)>) -> Seq<(Seq<char>, u32)> {
    Seq::new(labels.len(), |i: int| (labels[i].0@, labels[i].1))
}

/// Parse a register operand.
fn parse_reg(s: &[char]) -> (r: Result<u32, LineError>)
    ensures
        match reg_operand(s@) {
            Ok(n) => r == Ok::<u32, LineError>(n),
            Err(e) => r matches Err(x) && x@ == e,
        },
{
    let t = trim_chars(s);
    if t.len() == 0 || t[0] != 'r' {
        return Err(LineError::ExpectedRegister(t));
    }
    let mut digits: Vec<char> = Vec::new();
    let mut k: usize = 1;
    while k < t.len()
        invariant
            1 <= k <= t@.len(),
            digits@ == t@.subrange(1, k as int),
        decreases t@.len() - k,
    {
        digits.push(t[k]);
        k = k + 1;
        assert(digits@ =~= t@.subrange(1, k as int));
    }
    assert(digits@ =~= t@.drop_first());
    match parse_number(digits.as_slice(), 0xFFFF_FFFF) {
        None => Err(LineError::BadRegister(t)),
        Some(n) => if n >= 8 {
            Err(LineError::RegisterOutOfRange(n as u32))
        } else {
            Ok(n as u32)
        },
    }
}

/// Look a label up.
fn find_label(labels: &Vec<(Vec<char>, u32)>, name: &[char]) -> (r: Option<u32>)
    ensures
        r == label_lookup(labels_view(labels@), name@),
{
    let mut k: usize = labels.len();
    assert(labels@.take(k as int) =~= labels@);
    while k > 0
        invariant
            k <= labels@.len(),
            label_lookup(labels_view(labels@), name@) == label_lookup(labels_view(labels@.take(k as int)), name@),
        decreases k,
    {
        proof {
            assert(labels_view(labels@.take(k as int)).drop_last() =~= labels_view(labels@.take(k - 1)));
        }
        if chars_eq(labels[k - 1].0.as_slice(), name) {
            return Some(labels[k - 1].1);
        }
        k = k - 1;
    }
    None
}

/// Parse an immediate operand.
fn parse_imm_or_label(s: &[char], labels: &Vec<(Vec<char>, u32)>) -> (r: Result<u32, LineError>)
    ensures
        match imm_operand(s@, labels_view(labels@)) {
            Ok(n) => r == Ok::<u32, LineError>(n),
            Err(e) => r matches Err(x) && x@ == e,
        },
{
    let t = trim_chars(s);
    if let Some(p) = find_label(labels, t.as_slice()) {
        return Ok(p);
    }
    match parse_number(t.as_slice(), u64::MAX) {
        Some(v) => Ok((v % (P as u64)) as u32),
        None => Err(LineError::BadImmediate(t)),
    }
}


/// The index of the first white-space character of `s`, or its length.
pub open spec fn ws_index(s: Seq<char>) -> nat
    decreases s.len(),
{
    if s.len() == 0 {
        0
    } else if is_ws(s[0]) {
        0
    } else {
        1 + ws_index(s.drop_first())
    }
}

pub(crate) proof fn lemma_ws_index(s: Seq<char>, k: int)
    requires
        0 <= k <= s.len(),
        forall|j: int| 0 <= j < k ==> !is_ws(#[trigger] s[j]),
        k == s.len() || is_ws(s[k]),
    ensures
        ws_index(s) == k,
    decreases k,
{
    if k > 0 {
        lemma_ws_index(s.drop_first(), k - 1);
    }
}

/// The number of operands a mnemonic takes.
pub open spec fn arity(m: Mnemonic) -> nat {
    match m {
        Mnemonic::Add | Mnemonic::Sub | Mnemonic::Mul => 3,
        Mnemonic::Imm | Mnemonic::Load | Mnemonic::Store | Mnemonic::Jz | Mnemonic::Mov => 2,
        Mnemonic::Jmp | Mnemonic::Read | Mnemonic::Write => 1,
        Mnemonic::Halt => 0,
    }
}

/// Three register operands.
pub open spec fn three_regs(op: Opcode, args: Seq<Seq<char>>) -> Result<Instruction, LineFault> {
    match reg_operand(args[0]) {
        Err(e) => Err(e),
        Ok(a) => match reg_operand(args[1]) {
            Err(e) => Err(e),
            Ok(b) => match reg_operand(args[2]) {
                Err(e) => Err(e),
                Ok(c) => Ok(Instruction { op, a, b, c }),
            },
        },
    }
}

/// Two register operands.
pub open spec fn two_regs(op: Opcode, args: Seq<Seq<char>>) -> Result<Instruction, LineFault> {
    match reg_operand(args[0]) {
        Err(e) => Err(e),
        Ok(a) => match reg_operand(args[1]) {
            Err(e) => Err(e),
            Ok(b) => Ok(Instruction { op, a, b, c: 0 }),
        },
    }
}

/// A register operand and an immediate operand.
pub open spec fn reg_and_imm(op: Opcode, args: Seq<Seq<char>>, labels: Seq<(Seq<char>, u32)>) -> Result<
    Instruction,
    LineFault,
> {
    match reg_operand(args[0]) {
        Err(e) => Err(e),
        Ok(a) => match imm_operand(args[1], labels) {
            Err(e) => Err(e),
            Ok(b) => Ok(Instruction { op, a, b, c: 0 }),
        },
    }
}

/// One register operand.
pub open spec fn one_reg(op: Opcode, args: Seq<Seq<char>>) -> Result<Instruction, LineFault> {
    match reg_operand(args[0]) {
        Err(e) => Err(e),
        Ok(a) => Ok(Instruction { op, a, b: 0, c: 0 }),
    }
}

/// The instruction a mnemonic with the right number of operands makes.
pub open spec fn operands(m: Mnemonic, args: Seq<Seq<char>>, labels: Seq<(Seq<char>, u32)>) -> Result<
    Instruction,
    LineFault,
> {
    match m {
        Mnemonic::Add => three_regs(Opcode::Add, args),
        Mnemonic::Sub => three_regs(Opcode::Sub, args),
        Mnemonic::Mul => three_regs(Opcode::Mul, args),
        Mnemonic::Imm => reg_and_imm(Opcode::Imm, args, labels),
        Mnemonic::Load => two_regs(Opcode::Load, args),
        Mnemonic::Store => two_regs(Opcode::Store, args),
        Mnemonic::Jmp => match imm_operand(args[0], labels) {
            Err(e) => Err(e),
            Ok(a) => Ok(Instruction { op: Opcode::Jmp, a, b: 0, c: 0 }),
        },
        Mnemonic::Jz => reg_and_imm(Opcode::Jz, args, labels),
        Mnemonic::Read => one_reg(Opcode::Read, args),
        Mnemonic::Write => one_reg(Opcode::Write, args),
        Mnemonic::Halt => Ok(Instruction { op: Opcode::Halt, a: 0, b: 0, c: 0 }),
        Mnemonic::Mov => two_regs(Opcode::Add, args),
    }
}

/// The operand text of a line: what follows the first white-space
/// character, trimmed; the operands are its comma-separated pieces.
pub open spec fn line_args(line: Seq<char>) -> Seq<Seq<char>> {
    let k = ws_index(line);
    let rest = if k < line.len() {
        trim(line.skip((k + 1) as int))
    } else {
        seq![]
    };
    if rest.len() == 0 {
        seq![]
    } else {
        split_on(rest, ',')
    }
}

/// The instruction of a (trimmed, non-empty) line: the mnemonic is what
/// precedes the first white-space character.
pub open spec fn line_instruction(line: Seq<char>, labels: Seq<(Seq<char>, u32)>) -> Result<
    Instruction,
    LineFault,
> {
    let m = line.take(ws_index(line) as int);
    let args = line_args(line);
    match mnemonic_of(upper_key(m)) {
        None => Err(LineFault::UnknownMnemonic(m)),
        Some(mn) => if args.len() != arity(mn) {
            Err(LineFault::ArgCount { mnemonic: mn, expected: arity(mn), got: args.len() })
        } else {
            operands(mn, args, labels)
        },
    }
}

/// Parse one (trimmed, non-empty) line.
fn parse_line(line: &[char], labels: &Vec<(Vec<char>, u32)>) -> (r: Result<Instruction, LineError>)
    ensures
        match line_instruction(line@, labels_view(labels@)) {
            Ok(i) => r == Ok::<Instruction, LineError>(i),
            Err(e) => r matches Err(x) && x@ == e,
        },
{
    let n = line.len();
    let mut k: usize = 0;
    while k < n && !is_whitespace(line[k])
        invariant
            n == line@.len(),
            k <= n,
            forall|j: int| 0 <= j < k ==> !is_ws(#[trigger] line@[j]),
        decreases n - k,
    {
        k = k + 1;
    }
    proof {
        lemma_ws_index(line@, k as int);
    }
    let mut mn: Vec<char> = Vec::new();
    let mut j: usize = 0;
    while j < k
        invariant
            k <= n == line@.len(),
            j <= k,
            mn@ == line@.take(j as int),
        decreases k - j,
    {
        mn.push(line[j]);
        j = j + 1;
        assert(mn@ =~= line@.take(j as int));
    }
    let mut after: Vec<char> = Vec::new();
    if k < n {
        let mut j: usize = k + 1;
        while j < n
            invariant
                k < n == line@.len(),
                k + 1 <= j <= n,
                after@ == line@.subrange(k + 1, j as int),
            decreases n - j,
        {
            after.push(line[j]);
            j = j + 1;
            assert(after@ =~= line@.subrange(k + 1, j as int));
        }
        assert(after@ =~= line@.skip(k + 1));
    }
    let rest = trim_chars(after.as_slice());
    proof {
        if k >= n {
            assert(after@ =~= Seq::<char>::empty());
            assert(trim(after@) =~= Seq::<char>::empty());
        }
    }
    let args: Vec<Vec<char>> = if rest.len() == 0 {
        Vec::new()
    } else {
        split_chars(rest.as_slice(), ',')
    };
    let ghost args_v = line_args(line@);
    assert(args@.len() == args_v.len());
    assert(forall|i: int| 0 <= i < args@.len() ==> (#[trigger] args@[i])@ == args_v[i]);
    let key = upper_key_of(mn.as_slice());
    let m = match mnemonic_from(key.as_slice()) {
        Some(m) => m,
        None => {
            return Err(LineError::UnknownMnemonic(mn));
        },
    };
    let expected: usize = match m {
        Mnemonic::Add | Mnemonic::Sub | Mnemonic::Mul => 3,
        Mnemonic::Imm | Mnemonic::Load | Mnemonic::Store | Mnemonic::Jz | Mnemonic::Mov => 2,
        Mnemonic::Jmp | Mnemonic::Read | Mnemonic::Write => 1,
        Mnemonic::Halt => 0,
    };
    if args.len() != expected {
        return Err(LineError::ArgCount { mnemonic: m, expected, got: args.len() });
    }
    let ghost lv = labels_view(labels@);
    match m {
        Mnemonic::Add | Mnemonic::Sub | Mnemonic::Mul => {
            let op = match m {
                Mnemonic::Sub => Opcode::Sub,
                Mnemonic::Mul => Opcode::Mul,
                _ => Opcode::Add,
            };
            let a = parse_reg(args[0].as_slice())?;
            let b = parse_reg(args[1].as_slice())?;
            let c = parse_reg(args[2].as_slice())?;
            Ok(Instruction { op, a, b, c })
        },
        Mnemonic::Imm | Mnemonic::Jz => {
            let op = if m == Mnemonic::Imm {
                Opcode::Imm
            } else {
                Opcode::Jz
            };
            let a = parse_reg(args[0].as_slice())?;
            let b = parse_imm_or_label(args[1].as_slice(), labels)?;
            Ok(Instruction { op, a, b, c: 0 })
        },
        Mnemonic::Load | Mnemonic::Store | Mnemonic::Mov => {
            let op = match m {
                Mnemonic::Load => Opcode::Load,
                Mnemonic::Store => Opcode::Store,
                _ => Opcode::Add,
            };
            let a = parse_reg(args[0].as_slice())?;
            let b = parse_reg(args[1].as_slice())?;
            Ok(Instruction { op, a, b, c: 0 })
        },
        Mnemonic::Jmp => {
            let a = parse_imm_or_label(args[0].as_slice(), labels)?;
            Ok(Instruction { op: Opcode::Jmp, a, b: 0, c: 0 })
        },
        Mnemonic::Read | Mnemonic::Write => {
            let op = if m == Mnemonic::Read {
                Opcode::Read
            } else {
                Opcode::Write
            };
            let a = parse_reg(args[0].as_slice())?;
            Ok(Instruction { op, a, b: 0, c: 0 })
        },
        Mnemonic::Halt => Ok(Instruction { op: Opcode::Halt, a: 0, b: 0, c: 0 }),
    }
}


/// The lines of `s`: the pieces between newlines, without a final empty
/// piece after a trailing newline. (A carriage return before a newline
/// stays on its line; trimming removes it.)
pub open spec fn lines_of(s: Seq<char>) -> Seq<Seq<char>> {
    if s.len() == 0 {
        seq![]
    } else if s.last() == '\n' {
        split_on(s, '\n').drop_last()
    } else {
        split_on(s, '\n')
    }
}

/// The content of a line: what precedes its first `;`, trimmed.
pub open spec fn content(line: Seq<char>) -> Seq<char> {
    trim(line.take(first_index(line, ';') as int))
}

/// The non-empty contents of `ls`, each with its line number (from 1).
pub open spec fn items(ls: Seq<Seq<char>>) -> Seq<(nat, Seq<char>)>
    decreases ls.len(),
{
    if ls.len() == 0 {
        seq![]
    } else {
        let c = content(ls.last());
        items(ls.drop_last()) + if c.len() > 0 {
            seq![(ls.len(), c)]
        } else {
            seq![]
        }
    }
}

/// The first pass over the contents: a content ending in `:` defines the
/// label before it (trimmed) at the index of the next instruction line;
/// every other content is an instruction line. A label defined twice is an
/// error at its second definition.
pub open spec fn first_pass(items: Seq<(nat, Seq<char>)>) -> Result<
    (Seq<(Seq<char>, u32)>, Seq<(nat, Seq<char>)>),
    AsmFault,
>
    decreases items.len(),
{
    if items.len() == 0 {
        Ok((seq![], seq![]))
    } else {
        match first_pass(items.drop_last()) {
            Err(e) => Err(e),
            Ok((labels, body)) => {
                let (ln, c) = items.last();
                if c.len() > 0 && c.last() == ':' {
                    let name = c.drop_last();
                    if label_lookup(labels, trim(name)) is Some {
                        Err(AsmFault::DuplicateLabel { line: ln, name })
                    } else {
                        Ok((labels.push((trim(name), body.len() as u32)), body))
                    }
                } else {
                    Ok((labels, body.push((ln, c))))
                }
            },
        }
    }
}

/// The second pass: each instruction line in order, against the labels;
/// the first line that fails is the error.
pub open spec fn second_pass(body: Seq<(nat, Seq<char>)>, labels: Seq<(Seq<char>, u32)>) -> Result<
    Seq<Instruction>,
    AsmFault,
>
    decreases body.len(),
{
    if body.len() == 0 {
        Ok(seq![])
    } else {
        match second_pass(body.drop_last(), labels) {
            Err(e) => Err(e),
            Ok(prog) => match line_instruction(body.last().1, labels) {
                Err(le) => Err(AsmFault::Line { line: body.last().0, error: le }),
                Ok(ins) => Ok(prog.push(ins)),
            },
        }
    }
}

/// The program `src` assembles to, or why it does not.
pub open spec fn assembled(src: Seq<char>) -> Result<Seq<Instruction>, AsmFault> {
    match first_pass(items(lines_of(src))) {
        Err(e) => Err(e),
        Ok((labels, body)) => second_pass(body, labels),
    }
}

proof fn lemma_items_prefix(ls: Seq<Seq<char>>, j: int)
    requires
        0 <= j <= ls.len(),
    ensures
        items(ls.take(j)).len() <= items(ls).len(),
        items(ls).take(items(ls.take(j)).len() as int) == items(ls.take(j)),
    decreases ls.len() - j,
{
    if j == ls.len() {
        assert(ls.take(j) =~= ls);
        assert(items(ls).take(items(ls).len() as int) =~= items(ls));
    } else {
        lemma_items_prefix(ls.drop_last(), j);
        assert(ls.drop_last().take(j) =~= ls.take(j));
        assert(items(ls).take(items(ls.take(j)).len() as int) =~= items(ls.take(j)));
    }
}

proof fn lemma_first_pass_err(xs: Seq<(nat, Seq<char>)>, m: int)
    requires
        0 <= m <= xs.len(),
        first_pass(xs.take(m)) is Err,
    ensures
        first_pass(xs) == first_pass(xs.take(m)),
    decreases xs.len() - m,
{
    if m == xs.len() {
        assert(xs.take(m) =~= xs);
    } else {
        assert(xs.drop_last().take(m) =~= xs.take(m));
        lemma_first_pass_err(xs.drop_last(), m);
    }
}

proof fn lemma_second_pass_err(body: Seq<(nat, Seq<char>)>, labels: Seq<(Seq<char>, u32)>, m: int)
    requires
        0 <= m <= body.len(),
        second_pass(body.take(m), labels) is Err,
    ensures
        second_pass(body, labels) == second_pass(body.take(m), labels),
    decreases body.len() - m,
{
    if m == body.len() {
        assert(body.take(m) =~= body);
    } else {
        assert(body.drop_last().take(m) =~= body.take(m));
        lemma_second_pass_err(body.drop_last(), labels, m);
    }
}

/// The instruction lines as plain values.
pub open spec fn body_view(body: Seq<(usize, Vec<char>)>) -> Seq<(nat, Seq<char>)> {
    Seq::new(body.len(), |i: int| (body[i].0 as nat, body[i].1@))
}

/// The content of a line.
fn line_content(line: &[char]) -> (r: Vec<char>)
    ensures
        r@ == content(line@),
{
    let n = line.len();
    let mut k: usize = 0;
    while k < n && line[k] != ';'
        invariant
            n == line@.len(),
            k <= n,
            forall|j: int| 0 <= j < k ==> #[trigger] line@[j] != ';',
        decreases n - k,
    {
        k = k + 1;
    }
    proof {
        lemma_first_index(line@, ';', k as int);
    }
    let mut pre: Vec<char> = Vec::new();
    let mut j: usize = 0;
    while j < k
        invariant
            k <= n == line@.len(),
            j <= k,
            pre@ == line@.take(j as int),
        decreases k - j,
    {
        pre.push(line[j]);
        j = j + 1;
        assert(pre@ =~= line@.take(j as int));
    }
    trim_chars(pre.as_slice())
}

/// Assemble a program given as characters.
pub fn assemble_chars(src: &[char]) -> (r: Result<Vec<Instruction>, AsmError>)
    ensures
        match assembled(src@) {
            Ok(p) => r matches Ok(v) && v@ == p,
            Err(e) => r matches Err(x) && x@ == e,
        },
{
    let mut lines: Vec<Vec<char>> = if src.len() == 0 {
        Vec::new()
    } else {
        split_chars(src, '\n')
    };
    if src.len() > 0 && src[src.len() - 1] == '\n' {
        lines.pop();
    }
    let ghost ls = lines_of(src@);
    assert(lines@.len() == ls.len());
    assert(forall|i: int| 0 <= i < lines@.len() ==> (#[trigger] lines@[i])@ == ls[i]);
    // First pass: labels and instruction lines.
    let mut labels: Vec<(Vec<char>, u32)> = Vec::new();
    let mut body: Vec<(usize, Vec<char>)> = Vec::new();
    let mut i: usize = 0;
    assert(ls.take(0) =~= Seq::<Seq<char>>::empty());
    assert(labels_view(labels@) =~= Seq::<(Seq<char>, u32)>::empty());
    assert(body_view(body@) =~= Seq::<(nat, Seq<char>)>::empty());
    while i < lines.len()
        invariant
            ls == lines_of(src@),
            i <= lines@.len() == ls.len(),
            forall|q: int| 0 <= q < lines@.len() ==> (#[trigger] lines@[q])@ == ls[q],
            first_pass(items(ls.take(i as int))) == Ok::<_, AsmFault>(
                (labels_view(labels@), body_view(body@)),
            ),
        decreases lines@.len() - i,
    {
        let c = line_content(lines[i].as_slice());
        proof {
            assert(ls.take(i + 1).drop_last() =~= ls.take(i as int));
            assert(ls.take(i + 1).last() == ls[i as int]);
        }
        if c.len() > 0 {
            let ghost its = items(ls.take(i + 1));
            assert(its.last() == ((i + 1) as nat, c@));
            assert(its.drop_last() =~= items(ls.take(i as int)));
            if c[c.len() - 1] == ':' {
                let mut name: Vec<char> = Vec::new();
                let mut j: usize = 0;
                let last = c.len() - 1;
                while j < last
                    invariant
                        last + 1 == c@.len(),
                        j <= last,
                        name@ == c@.take(j as int),
                    decreases c@.len() - j,
                {
                    name.push(c[j]);
                    j = j + 1;
                    assert(name@ =~= c@.take(j as int));
                }
                assert(name@ =~= c@.drop_last());
                let key = trim_chars(name.as_slice());
                if find_label(&labels, key.as_slice()).is_some() {
                    proof {
                        assert(first_pass(its) == Err::<(Seq<(Seq<char>, u32)>, Seq<(nat, Seq<char>)>), AsmFault>(
                            AsmFault::DuplicateLabel { line: (i + 1) as nat, name: name@ },
                        ));
                        lemma_items_prefix(ls, i + 1);
                        lemma_first_pass_err(items(ls), items(ls.take(i + 1)).len() as int);
                    }
                    return Err(AsmError::DuplicateLabel { line: i + 1, name });
                }
                let pc = body.len() as u32;
                let ghost before = labels@;
                labels.push((key, pc));
                assert(labels_view(labels@) =~= labels_view(before).push((key@, pc)));
            } else {
                let ghost before = body@;
                body.push((i + 1, c));
                assert(body_view(body@) =~= body_view(before).push(((i + 1) as nat, c@)));
            }
        } else {
            assert(items(ls.take(i + 1)) =~= items(ls.take(i as int)));
        }
        i = i + 1;
    }
    assert(ls.take(i as int) =~= ls);
    // Second pass: the instructions.
    let mut out: Vec<Instruction> = Vec::new();
    let mut k: usize = 0;
    while k < body.len()
        invariant
            ls == lines_of(src@),
            first_pass(items(ls)) == Ok::<_, AsmFault>((labels_view(labels@), body_view(body@))),
            k <= body@.len(),
            second_pass(body_view(body@).take(k as int), labels_view(labels@)) == Ok::<_, AsmFault>(out@),
        decreases body@.len() - k,
    {
        proof {
            assert(body_view(body@).take(k + 1).drop_last() =~= body_view(body@).take(k as int));
        }
        match parse_line(body[k].1.as_slice(), &labels) {
            Ok(ins) => out.push(ins),
            Err(e) => {
                proof {
                    lemma_second_pass_err(body_view(body@), labels_view(labels@), k + 1);
                }
                return Err(AsmError::Line { line: body[k].0, error: e });
            },
        }
        k = k + 1;
    }
    assert(body_view(body@).take(k as int) =~= body_view(body@));
    Ok(out)
}


/// Assemble a program: two passes, the first collecting label addresses,
/// the second emitting one instruction per instruction line.
pub fn assemble(src: &str) -> (r: Result<Vec<Instruction>, AsmError>)
    ensures
        match assembled(src@) {
            Ok(p) => r matches Ok(v) && v@ == p,
            Err(e) => r matches Err(x) && x@ == e,
        },
{
    let chars = chars_of(src);
    assemble_chars(chars.as_slice())
}

} // verus!
