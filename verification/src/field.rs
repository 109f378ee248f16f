//! Arithmetic in the BabyBear prime field, `p = 2^31 - 2^27 + 1`.
//!
//! Field elements are carried as `u32` values; a value is canonical when it
//! is below `P`.

use vstd::prelude::*;

verus! {

/// The BabyBear modulus.
pub const P: u32 = 2_013_265_921;

/// A canonical field element is an integer in `[0, P)`.
pub open spec fn canonical(x: int) -> bool {
    0 <= x < P as int
}

/// Field addition on canonical representatives.
pub open spec fn fadd(a: int, b: int) -> int {
    (a + b) % (P as int)
}

/// Field subtraction on canonical representatives.
pub open spec fn fsub(a: int, b: int) -> int {
    (a - b) % (P as int)
}

/// Field multiplication on canonical representatives.
pub open spec fn fmul(a: int, b: int) -> int {
    (a * b) % (P as int)
}

/// `x` is a multiplicative inverse of `a` modulo `P`.
pub open spec fn is_inverse(a: int, x: int) -> bool {
    (a * x) % (P as int) == 1
}

/// `a` has a multiplicative inverse modulo `P`.
pub open spec fn invertible(a: int) -> bool {
    exists|x: int| 0 <= x < P as int && #[trigger] is_inverse(a, x)
}

/// The canonical inverse of `a` modulo `P`, or 0 when `a` has none.
pub open spec fn inv(a: int) -> int {
    if invertible(a) {
        choose|x: int| 0 <= x < P as int && #[trigger] is_inverse(a, x)
    } else {
        0
    }
}

/// Inverses are unique: two canonical inverses of `a` are equal.
pub proof fn lemma_inverse_unique(a: int, x: int, y: int)
    requires
        0 <= x < P as int,
        0 <= y < P as int,
        is_inverse(a, x),
        is_inverse(a, y),
    ensures
        x == y,
{
    let p = P as int;
    let ka = (a * x) / p;
    let kb = (a * y) / p;
    vstd::arithmetic::div_mod::lemma_fundamental_div_mod(a * x, p);
    vstd::arithmetic::div_mod::lemma_fundamental_div_mod(a * y, p);
    // x = x * (a * y) - x * kb * p and y = y * (a * x) - y * ka * p
    assert(x - y == p * (y * ka - x * kb)) by (nonlinear_arith)
        requires
            a * x == p * ka + 1,
            a * y == p * kb + 1,
    ;
    let k = y * ka - x * kb;
    if k >= 1 {
        assert(p * k >= p) by (nonlinear_arith)
            requires
                p > 0,
                k >= 1,
        ;
    } else if k <= -1 {
        assert(p * k <= -p) by (nonlinear_arith)
            requires
                p > 0,
                k <= -1,
        ;
    }
}

/// `bb_inv` returns exactly `inv(a)`.
pub proof fn lemma_inverse_is_inv(a: int, r: int)
    requires
        0 <= r < P as int,
        invertible(a) ==> is_inverse(a, r),
        !invertible(a) ==> r == 0,
    ensures
        r == inv(a),
{
    if invertible(a) {
        let x = choose|x: int| 0 <= x < P as int && #[trigger] is_inverse(a, x);
        lemma_inverse_unique(a, x, r);
    }
}

/// Subtraction undoes addition: for field elements `a` and `b`,
/// `(a + b) - b = a`.
pub proof fn lemma_sub_undoes_add(a: int, b: int)
    requires
        canonical(a),
        canonical(b),
    ensures
        fsub(fadd(a, b), b) == a,
{
    let p = P as int;
    if a + b < p {
        assert((a + b) % p == a + b) by {
            vstd::arithmetic::div_mod::lemma_small_mod((a + b) as nat, p as nat);
        }
        assert(a % p == a) by {
            vstd::arithmetic::div_mod::lemma_small_mod(a as nat, p as nat);
        }
    } else {
        assert((a + b) % p == a + b - p) by {
            vstd::arithmetic::div_mod::lemma_fundamental_div_mod(a + b, p);
            vstd::arithmetic::div_mod::lemma_mod_pos_bound(a + b, p);
            assert((a + b) / p == 1) by (nonlinear_arith)
                requires
                    a + b == p * ((a + b) / p) + (a + b) % p,
                    0 <= (a + b) % p < p,
                    p <= a + b < 2 * p,
            ;
        }
        assert((a - p) % p == a) by {
            vstd::arithmetic::div_mod::lemma_fundamental_div_mod(a - p, p);
            vstd::arithmetic::div_mod::lemma_mod_bound(a - p, p);
            assert((a - p) / p == -1) by (nonlinear_arith)
                requires
                    a - p == p * ((a - p) / p) + (a - p) % p,
                    0 <= (a - p) % p < p,
                    -p <= a - p < 0,
            ;
        }
    }
}

/// Addition undoes subtraction: for field elements `a` and `b`,
/// `(a - b) + b = a`.
pub proof fn lemma_add_undoes_sub(a: int, b: int)
    requires
        canonical(a),
        canonical(b),
    ensures
        fadd(fsub(a, b), b) == a,
{
    let p = P as int;
    if a >= b {
        assert((a - b) % p == a - b) by {
            vstd::arithmetic::div_mod::lemma_small_mod((a - b) as nat, p as nat);
        }
        assert(a % p == a) by {
            vstd::arithmetic::div_mod::lemma_small_mod(a as nat, p as nat);
        }
    } else {
        assert((a - b) % p == a - b + p) by {
            vstd::arithmetic::div_mod::lemma_fundamental_div_mod(a - b, p);
            vstd::arithmetic::div_mod::lemma_mod_bound(a - b, p);
            assert((a - b) / p == -1) by (nonlinear_arith)
                requires
                    a - b == p * ((a - b) / p) + (a - b) % p,
                    0 <= (a - b) % p < p,
                    -p <= a - b < 0,
            ;
        }
        assert((a + p) % p == a) by {
            vstd::arithmetic::div_mod::lemma_fundamental_div_mod(a + p, p);
            vstd::arithmetic::div_mod::lemma_mod_pos_bound(a + p, p);
            assert((a + p) / p == 1) by (nonlinear_arith)
                requires
                    a + p == p * ((a + p) / p) + (a + p) % p,
                    0 <= (a + p) % p < p,
                    p <= a + p < 2 * p,
            ;
        }
    }
}

/// Addition of two field elements.
///
/// On canonical inputs this is `(a + b) mod P`. On larger inputs the single
/// conditional subtraction of `P` is performed and the result truncated to
/// 32 bits.
pub fn bb_add(a: u32, b: u32) -> (r: u32)
    ensures
        r == (if a + b >= P { ((a + b - P) % 0x1_0000_0000) as u32 } else { (a + b) as u32 }),
        canonical(a as int) && canonical(b as int) ==> r == fadd(a as int, b as int),
{
    let s: u64 = a as u64 + b as u64;
    let p: u64 = P as u64;
    if s >= p {
        let d: u64 = s - p;
        assert(d < 0x2_0000_0000);
        (d % 0x1_0000_0000) as u32
    } else {
        s as u32
    }
}

/// Subtraction of two field elements: `a - b`, adding `P` once when `a < b`.
pub fn bb_sub(a: u32, b: u32) -> (r: u32)
    requires
        a >= b || (a + P <= u32::MAX && b <= a + P),
    ensures
        r == (if a >= b { a - b } else { a + P - b }),
        canonical(a as int) && canonical(b as int) ==> r == fsub(a as int, b as int),
{
    if a >= b {
        a - b
    } else {
        a + P - b
    }
}

/// Multiplication of two field elements, reduced modulo `P`.
pub fn bb_mul(a: u32, b: u32) -> (r: u32)
    ensures
        r == fmul(a as int, b as int),
{
    assert((a as u64) * (b as u64) <= u64::MAX) by (nonlinear_arith)
        requires
            a <= u32::MAX,
            b <= u32::MAX,
    ;
    let prod: u64 = a as u64 * b as u64;
    (prod % (P as u64)) as u32
}

/// Reduces an arbitrary `u32` into its canonical representative.
pub fn reduce(v: u32) -> (r: u32)
    ensures
        r == v % P,
        canonical(r as int),
{
    v % P
}


/// `d` divides `x`.
pub open spec fn divides(d: int, x: int) -> bool {
    x % d == 0
}

/// If `d` divides both `b` and `a % b`, it divides `a`.
proof fn lemma_divides_dividend(a: int, b: int, d: int)
    requires
        a >= 0,
        b > 0,
        d > 0,
        b % d == 0,
        (a % b) % d == 0,
    ensures
        a % d == 0,
{
    let q = a / b;
    let r = a % b;
    assert(a == q * b + r) by (nonlinear_arith)
        requires
            b > 0,
            q == a / b,
            r == a % b,
    ;
    let bq = b / d;
    let rq = r / d;
    assert(b == bq * d) by (nonlinear_arith)
        requires
            d > 0,
            b % d == 0,
            bq == b / d,
    ;
    assert(r == rq * d) by (nonlinear_arith)
        requires
            d > 0,
            r % d == 0,
            rq == r / d,
    ;
    assert(a == (q * bq + rq) * d) by (nonlinear_arith)
        requires
            a == q * b + r,
            b == bq * d,
            r == rq * d,
    ;
    vstd::arithmetic::div_mod::lemma_mod_multiples_basic(q * bq + rq, d);
}

/// One extended-Euclid step keeps `t * a ≡ r (mod P)`: from
/// `t0 * a ≡ r0` and `t1 * a ≡ r1`, `t2 ≡ t0 - q * t1` gives `t2 * a ≡ r0 - q * r1`.
proof fn lemma_euclid_step_congruence(a: int, t0: int, t1: int, r0: int, r1: int, q: int, t2: int)
    requires
        (t0 * a - r0) % (P as int) == 0,
        (t1 * a - r1) % (P as int) == 0,
        (t2 - (t0 - q * t1)) % (P as int) == 0,
    ensures
        (t2 * a - (r0 - q * r1)) % (P as int) == 0,
{
    let p = P as int;
    let k0 = (t0 * a - r0) / p;
    let k1 = (t1 * a - r1) / p;
    let k2 = (t2 - (t0 - q * t1)) / p;
    vstd::arithmetic::div_mod::lemma_fundamental_div_mod(t0 * a - r0, p);
    vstd::arithmetic::div_mod::lemma_fundamental_div_mod(t1 * a - r1, p);
    vstd::arithmetic::div_mod::lemma_fundamental_div_mod(t2 - (t0 - q * t1), p);
    assert(t2 * a - (r0 - q * r1) == p * (k2 * a + k0 - q * k1)) by (nonlinear_arith)
        requires
            t0 * a - r0 == p * k0,
            t1 * a - r1 == p * k1,
            t2 - (t0 - q * t1) == p * k2,
    ;
    vstd::arithmetic::div_mod::lemma_mod_multiples_basic(k2 * a + k0 - q * k1, p);
    assert(p * (k2 * a + k0 - q * k1) == (k2 * a + k0 - q * k1) * p) by (nonlinear_arith);
}

/// A common divisor greater than one of `a` and `P` rules out an inverse of `a`.
proof fn lemma_common_divisor_blocks_inverse(a: int, g: int, x: int)
    requires
        g > 1,
        (P as int) % g == 0,
        a % g == 0,
    ensures
        !is_inverse(a, x),
{
    let p = P as int;
    if !is_inverse(a, x) {
        return;
    }
    let m = (a * x) / p;
    vstd::arithmetic::div_mod::lemma_fundamental_div_mod(a * x, p);
    let s = a / g;
    let u = p / g;
    vstd::arithmetic::div_mod::lemma_fundamental_div_mod(a, g);
    vstd::arithmetic::div_mod::lemma_fundamental_div_mod(p, g);
    assert(g * (s * x - m * u) == 1) by (nonlinear_arith)
        requires
            a * x == p * m + 1,
            a == g * s,
            p == g * u,
    ;
    let k = s * x - m * u;
    if k >= 1 {
        assert(g * k >= 2) by (nonlinear_arith)
            requires
                g > 1,
                k >= 1,
        ;
    } else {
        assert(g * k <= 0) by (nonlinear_arith)
            requires
                g > 1,
                k <= 0,
        ;
    }
}

/// Multiplicative inverse modulo `P` of the field element represented by `a`.
///
/// Returns the canonical inverse when `a` is invertible, and `0` when it is
/// not (the element zero).
pub fn bb_inv(a: u32) -> (r: u32)
    ensures
        canonical(r as int),
        invertible(a as int) ==> is_inverse(a as int, r as int),
        !invertible(a as int) ==> r == 0,
        r == inv(a as int),
{
    let av: u64 = (a % P) as u64;
    let p: u64 = P as u64;
    let mut r0: u64 = p;
    let mut r1: u64 = av;
    let mut t0: u64 = 0;
    let mut t1: u64 = 1;
    proof {
        assert((0 * av - p) % (P as int) == 0) by {
            vstd::arithmetic::div_mod::lemma_mod_multiples_basic(-1, P as int);
        }
        assert((1 * av - av) % (P as int) == 0);
        assert forall|d: int| d > 0 && #[trigger] divides(d, r0 as int) && #[trigger] divides(d, r1 as int) implies
            (P as int) % d == 0 && (av as int) % d == 0 by {}
    }
    while r1 != 0
        invariant
            p == P,
            av < P,
            0 < r0 <= P,
            r1 < r0,
            t0 < P,
            t1 < P,
            (t0 * av - r0) % (P as int) == 0,
            (t1 * av - r1) % (P as int) == 0,
            forall|d: int| d > 0 && #[trigger] divides(d, r0 as int) && #[trigger] divides(d, r1 as int) ==> (P as int) % d == 0 && (av as int) % d == 0,
        decreases r1,
    {
        let q: u64 = r0 / r1;
        let r2: u64 = r0 % r1;
        let qm: u64 = q % p;
        assert(qm * t1 < p * p) by (nonlinear_arith)
            requires
                qm < p,
                t1 < p,
        ;
        let qt: u64 = (qm * t1) % p;
        let t2: u64 = (t0 + p - qt) % p;
        proof {
            assert(r2 == r0 - q * r1) by (nonlinear_arith)
                requires
                    r1 > 0,
                    q == r0 / r1,
                    r2 == r0 % r1,
            ;
            assert((t2 - (t0 - q * t1)) % (P as int) == 0) by {
                let pi = P as int;
                vstd::arithmetic::div_mod::lemma_fundamental_div_mod(q as int, pi);
                vstd::arithmetic::div_mod::lemma_fundamental_div_mod((qm * t1) as int, pi);
                vstd::arithmetic::div_mod::lemma_fundamental_div_mod((t0 + p - qt) as int, pi);
                let a1 = (q as int) / pi;
                let a2 = ((qm * t1) as int) / pi;
                let a3 = ((t0 + p - qt) as int) / pi;
                assert(t2 - (t0 - q * t1) == pi * (1 + a1 * t1 + a2 - a3)) by (nonlinear_arith)
                    requires
                        q == pi * a1 + qm,
                        qm * t1 == pi * a2 + qt,
                        t0 + pi - qt == pi * a3 + t2,
                ;
                vstd::arithmetic::div_mod::lemma_mod_multiples_basic(1 + a1 * t1 + a2 - a3, pi);
                assert(pi * (1 + a1 * t1 + a2 - a3) == (1 + a1 * t1 + a2 - a3) * pi) by (nonlinear_arith);
            }
            lemma_euclid_step_congruence(av as int, t0 as int, t1 as int, r0 as int, r1 as int, q as int, t2 as int);
            assert forall|d: int| d > 0 && #[trigger] divides(d, r1 as int) && #[trigger] divides(d, r2 as int) implies
                (P as int) % d == 0 && (av as int) % d == 0 by {
                lemma_divides_dividend(r0 as int, r1 as int, d);
                assert(divides(d, r0 as int));
            }
        }
        r0 = r1;
        r1 = r2;
        t0 = t1;
        t1 = t2;
    }
    proof {
        assert forall|x: int| #[trigger] is_inverse(a as int, x) <==> is_inverse(av as int, x) by {
            vstd::arithmetic::div_mod::lemma_mul_mod_noop_left(a as int, x, P as int);
        }
        assert(divides(r0 as int, r0 as int));
        assert(divides(r0 as int, r1 as int));
    }
    if r0 == 1 {
        proof {
            let pi = P as int;
            let k = (t0 * av - 1) / pi;
            vstd::arithmetic::div_mod::lemma_fundamental_div_mod(t0 * av - 1, pi);
            assert(av * t0 == k * pi + 1) by (nonlinear_arith)
                requires
                    t0 * av - 1 == pi * k,
            ;
            vstd::arithmetic::div_mod::lemma_mod_multiples_vanish(k, 1, pi);
            assert(is_inverse(av as int, t0 as int));
            assert(is_inverse(a as int, t0 as int));
            lemma_inverse_is_inv(a as int, t0 as int);
        }
        t0 as u32
    } else {
        proof {
            assert(!invertible(a as int)) by {
                if invertible(a as int) {
                    let x = choose|x: int| 0 <= x < P as int && #[trigger] is_inverse(a as int, x);
                    assert(is_inverse(av as int, x));
                    lemma_common_divisor_blocks_inverse(av as int, r0 as int, x);
                }
            }
            lemma_inverse_is_inv(a as int, 0);
        }
        0
    }
}

} // verus!
