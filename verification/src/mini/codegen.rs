//! Assembly text produced by the `mini` compiler: decimal numerals, register
//! and label names, and the lines of each instruction form.

use vstd::prelude::*;

use crate::assembler::chars_of;

verus! {

/// The character of the decimal digit `d` (below ten).
pub open spec fn digit_char(d: nat) -> char {
    (d + 48) as char
}

/// `n` written in decimal, without leading zeros.
pub open spec fn dec(n: nat) -> Seq<char>
    decreases n,
{
    if n < 10 {
        seq![digit_char(n)]
    } else {
        dec(n / 10).push(digit_char(n % 10))
    }
}

/// The name of register `r`, as in `r3`.
pub open spec fn reg(r: nat) -> Seq<char> {
    "r"@ + dec(r)
}

/// A fresh label: `_`, its prefix, and the counter.
pub open spec fn label_name(prefix: Seq<char>, n: nat) -> Seq<char> {
    "_"@ + prefix + dec(n)
}

/// An instruction line with one operand.
pub open spec fn line1(m: Seq<char>, a: Seq<char>) -> Seq<char> {
    "    "@ + m + " "@ + a + "\n"@
}

/// An instruction line with two operands.
pub open spec fn line2(m: Seq<char>, a: Seq<char>, b: Seq<char>) -> Seq<char> {
    "    "@ + m + " "@ + a + ", "@ + b + "\n"@
}

/// An instruction line with three operands.
pub open spec fn line3(m: Seq<char>, a: Seq<char>, b: Seq<char>, c: Seq<char>) -> Seq<char> {
    "    "@ + m + " "@ + a + ", "@ + b + ", "@ + c + "\n"@
}

/// The line that defines label `l`.
pub open spec fn label_line(l: Seq<char>) -> Seq<char> {
    l + ":\n"@
}

/// Appends the characters of `s`.
pub(crate) fn push_lit(out: &mut Vec<char>, s: &str)
    ensures
        final(out)@ == old(out)@ + s@,
{
    let cs = chars_of(s);
    let ghost start = out@;
    let mut i: usize = 0;
    while i < cs.len()
        invariant
            i <= cs@.len(),
            cs@ == s@,
            out@ == start + cs@.take(i as int),
        decreases cs@.len() - i,
    {
        out.push(cs[i]);
        i = i + 1;
        assert(out@ =~= start + cs@.take(i as int));
    }
    assert(cs@.take(i as int) =~= cs@);
}

/// Appends the characters of `s`.
pub(crate) fn push_chars(out: &mut Vec<char>, s: &[char])
    ensures
        final(out)@ == old(out)@ + s@,
{
    let ghost start = out@;
    let mut i: usize = 0;
    while i < s.len()
        invariant
            i <= s@.len(),
            out@ == start + s@.take(i as int),
        decreases s@.len() - i,
    {
        out.push(s[i]);
        i = i + 1;
        assert(out@ =~= start + s@.take(i as int));
    }
    assert(s@.take(i as int) =~= s@);
}

/// Appends `n` in decimal.
pub(crate) fn push_dec(out: &mut Vec<char>, n: u64)
    ensures
        final(out)@ == old(out)@ + dec(n as nat),
    decreases n,
{
    let ghost start = out@;
    if n >= 10 {
        push_dec(out, n / 10);
    }
    let d: u8 = (n % 10) as u8;
    let c: char = (d + 48) as char;
    assert(c == digit_char((n % 10) as nat));
    out.push(c);
    assert(out@ =~= start + dec(n as nat));
}

} // verus!
