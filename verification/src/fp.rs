//! Exact emulation of IEEE single-precision arithmetic on plain integers.
//!
//! A value is a nonnegative dyadic rational `m * 2^e` with a normalized
//! 24-bit significand, the same shape as a finite nonnegative `binary32`
//! number.  Every operation rounds to nearest, ties to even, so the results
//! of chained multiplications, divisions and display roundings are
//! reproducible bit for bit across runs and machines.

use vstd::prelude::*;
use vstd::arithmetic::power2::{pow2, lemma_pow2_adds, lemma_pow2_pos, lemma_pow2_strictly_increases, lemma2_to64, lemma2_to64_rest};
use vstd::arithmetic::div_mod::{lemma_div_denominator, lemma_fundamental_div_mod, lemma_div_pos_is_pos, lemma_mod_division_less_than_divisor, lemma_div_basics};
use vstd::arithmetic::mul::{lemma_mul_inequality, lemma_mul_strict_inequality, lemma_mul_inequality_converse};

verus! {

/// Smallest normalized significand: 2^23.
pub const MANT_LO: u64 = 0x80_0000;

/// One past the largest significand: 2^24.
pub const MANT_HI: u64 = 0x100_0000;

/// Exponent scale used to express values as integers in specifications:
/// `m * 2^(e + FP_SCALE)` is a natural number for every well-formed value.
pub const FP_SCALE: i32 = 1000;

/// A nonnegative binary floating-point value `m * 2^e`.
#[derive(Clone, Copy, PartialEq, Eq, Structural, Debug)]
pub struct Fp {
    /// Significand: zero, or normalized into `[2^23, 2^24)`.
    pub m: u64,
    /// Binary exponent of the lowest significand bit.
    pub e: i32,
}

/// Well-formed value: canonical zero, or a normalized significand with the
/// exponent in the range every operation of this module stays within.
pub open spec fn fp_wf(a: Fp) -> bool {
    (a.m == 0 && a.e == 0) || (MANT_LO <= a.m < MANT_HI && -1000 <= a.e <= 1000)
}

/// The value of `a` scaled by `2^FP_SCALE`, as a mathematical integer.
pub open spec fn sval(a: Fp) -> int {
    a.m * pow2((a.e + 1000) as nat)
}

/// Round `n / d` to the nearest integer, ties to even.
pub open spec fn rhe(n: int, d: int) -> int
    recommends
        n >= 0,
        d >= 1,
{
    let q = n / d;
    let r = n % d;
    if 2 * r > d || (2 * r == d && q % 2 == 1) {
        q + 1
    } else {
        q
    }
}

/// Number of halvings needed to bring `n` under 2^24.
pub open spec fn shift_down(n: int) -> nat
    recommends
        n >= 0,
    decreases n,
{
    if n < MANT_HI {
        0
    } else {
        1 + shift_down(n / 2)
    }
}

/// Number of doublings needed to bring `n` (at least 1) up to 2^23.
pub open spec fn shift_up(n: int) -> nat
    recommends
        1 <= n <= MANT_LO,
    decreases 2 * MANT_LO - n,
{
    if n >= MANT_LO || n < 1 {
        0
    } else {
        1 + shift_up(2 * n)
    }
}

/// Normalize a significand `m` in `[2^23, 2^25)` at exponent `e`: fold a
/// rounding carry to 2^24 back into the canonical range.
pub open spec fn norm_carry(m: int, e: int) -> Fp {
    if m >= MANT_HI {
        Fp { m: (m / 2) as u64, e: (e + 1) as i32 }
    } else {
        Fp { m: m as u64, e: e as i32 }
    }
}

/// The rounded result of an exact nonnegative rational `n / d` whose
/// integer part `n / d` lies in `[2^23, 2^25)`, placed at exponent `e`.
pub open spec fn round_at(n: int, d: int, e: int) -> Fp {
    norm_carry(rhe(n, d), e)
}

/// The `binary32`-rounded value of a 64-bit integer.
pub open spec fn spec_from_u64(n: u64) -> Fp {
    if n == 0 {
        Fp { m: 0, e: 0 }
    } else if n < MANT_LO {
        Fp { m: (n * pow2(shift_up(n as int))) as u64, e: (0 - shift_up(n as int)) as i32 }
    } else {
        let s = shift_down(n as int);
        round_at(n as int, pow2(s) as int, s as int)
    }
}

/// Exact power of two, as an executable 64-bit value.
pub fn pow2_u64(k: u32) -> (r: u64)
    requires
        k <= 63,
    ensures
        r == pow2(k as nat),
{
    proof {
        lemma2_to64();
        lemma2_to64_rest();
    }
    let mut r: u64 = 1;
    let mut i: u32 = 0;
    while i < k
        invariant
            i <= k <= 63,
            r == pow2(i as nat),
        decreases k - i,
    {
        proof {
            lemma_pow2_adds(i as nat, 1);
            lemma2_to64();
        lemma2_to64_rest();
            lemma_pow2_strictly_increases(i as nat + 1, 64);
        }
        r = r * 2;
        i = i + 1;
    }
    r
}

/// Exact power of two, as an executable 128-bit value.
pub fn pow2_u128(k: u32) -> (r: u128)
    requires
        k <= 120,
    ensures
        r == pow2(k as nat),
{
    proof {
        lemma2_to64();
        lemma2_to64_rest();
    }
    let mut r: u128 = 1;
    let mut i: u32 = 0;
    while i < k
        invariant
            i <= k <= 120,
            r == pow2(i as nat),
        decreases k - i,
    {
        proof {
            lemma_pow2_adds(i as nat, 1);
            lemma2_to64();
            lemma2_to64_rest();
            lemma_pow2_adds(60, 60);
            lemma_pow2_adds(120, 8);
            if i as nat + 1 < 120 {
                lemma_pow2_strictly_increases(i as nat + 1, 120);
            }
            assert((pow2(60) as int) * (pow2(60) as int) == pow2(120)) by (nonlinear_arith)
                requires pow2(60) * pow2(60) == pow2(120);
            assert(pow2(120) < pow2(128)) by {
                lemma_pow2_strictly_increases(120, 128);
                lemma_pow2_adds(64, 64);
                assert((pow2(64) as int) * (pow2(64) as int) == pow2(128)) by (nonlinear_arith)
                    requires pow2(64) * pow2(64) == pow2(128);
            }
        }
        r = r * 2;
        i = i + 1;
    }
    r
}

/// Round `n / d` to the nearest integer, ties to even (executable form).
fn rhe_u64(n: u64, d: u64) -> (r: u64)
    requires
        1 <= d <= 0x4000_0000_0000_0000,
    ensures
        r == rhe(n as int, d as int),
{
    let q = n / d;
    let r2 = n % d;
    proof {
        lemma_fundamental_div_mod(n as int, d as int);
        lemma_mod_division_less_than_divisor(n as int, d as int);
        if r2 >= 1 {
            lemma_mul_inequality(1, d as int, q as int);
            assert(d as int * q as int == q as int * d as int) by (nonlinear_arith);
            assert(q < u64::MAX);
        }
    }
    if 2 * r2 > d || (2 * r2 == d && q % 2 == 1) {
        q + 1
    } else {
        q
    }
}

/// The integer part of `n / pow2(shift_down(n))` is a normalized
/// significand, and the shift never discards more than `n / 2^23`.
proof fn lemma_shift_down(n: int)
    requires
        MANT_LO <= n,
    ensures
        MANT_LO <= n / (pow2(shift_down(n)) as int),
        n / (pow2(shift_down(n)) as int) < MANT_HI,
        MANT_LO * (pow2(shift_down(n)) as int) <= n,
    decreases n,
{
    lemma2_to64();
        lemma2_to64_rest();
    if n < MANT_HI {
        assert(shift_down(n) == 0);
        assert(pow2(0) == 1);
        lemma_div_basics(n);
        assert(n / (pow2(shift_down(n)) as int) == n);
    } else {
        lemma_shift_down(n / 2);
        let s1 = shift_down(n / 2);
        lemma_pow2_pos(s1);
        lemma_div_denominator(n, 2, pow2(s1) as int);
        lemma_pow2_adds(1, s1);
        assert(n / 2 / pow2(s1) as int == n / pow2(s1 + 1) as int);
        assert((pow2(s1) as int) * MANT_LO <= n / 2);
        assert((pow2(s1 + 1) as int) * MANT_LO == 2 * ((pow2(s1) as int) * MANT_LO));
        assert(2 * (n / 2) <= n);
    }
}

/// Bounds for round-half-to-even: `rhe(n, d)` is within half an ulp of
/// the exact quotient, and within one of the floored quotient.
proof fn lemma_rhe_bounds(n: int, d: int)
    requires
        n >= 0,
        d >= 1,
    ensures
        2 * n - d <= 2 * d * rhe(n, d) <= 2 * n + d,
        n / d <= rhe(n, d) <= n / d + 1,
        rhe(n, d) >= 0,
        n % d == 0 ==> rhe(n, d) == n / d,
{
    let q = n / d;
    let r = n % d;
    lemma_fundamental_div_mod(n, d);
    lemma_div_pos_is_pos(n, d);
    lemma_mod_division_less_than_divisor(n, d);
    if 2 * r > d || (2 * r == d && q % 2 == 1) {
        assert(rhe(n, d) == q + 1);
        assert(2 * d * (q + 1) == 2 * (q * d) + 2 * d) by (nonlinear_arith);
        assert(2 * (q * d) == 2 * n - 2 * r);
    } else {
        assert(rhe(n, d) == q);
        assert(2 * d * q == 2 * (q * d)) by (nonlinear_arith);
        assert(2 * r <= d);
    }
}

/// `spec_from_u64` rounds: the value is exact below 2^24 and within a
/// relative error of 2^-24 in general.
pub proof fn lemma_from_u64_value(n: u64)
    ensures
        n < MANT_HI ==> sval(spec_from_u64(n)) == n * pow2(1000),
        (pow2(24) as int) * sval(spec_from_u64(n)) <= (pow2(24) + 1) * (n * pow2(1000)),
        (pow2(24) - 1) * (n * pow2(1000)) <= (pow2(24) as int) * sval(spec_from_u64(n)),
        sval(spec_from_u64(n)) >= 0,
{
    lemma2_to64();
        lemma2_to64_rest();
    let r = spec_from_u64(n);
    let big = pow2(1000) as int;
    lemma_pow2_pos(1000);
    if n == 0 {
        assert(sval(r) == 0);
    } else if n < MANT_LO {
        let k = shift_up(n as int);
        lemma_shift_up_value(n as int);
        assert(sval(r) == (n * pow2(k)) * pow2((1000 - k) as nat)) by {
            assert(r.m == n * pow2(k));
            assert(r.e == 0 - k);
        }
        lemma_pow2_adds(k, (1000 - k) as nat);
        assert((n * pow2(k)) * pow2((1000 - k) as nat) == n * (pow2(k) * pow2((1000 - k) as nat)))
            by (nonlinear_arith);
        assert(sval(r) == n * big);
        assert((pow2(24) as int) * (n * big) <= (pow2(24) + 1) * (n * big)) by (nonlinear_arith)
            requires n >= 0 && big >= 1;
        assert((pow2(24) - 1) * (n * big) <= (pow2(24) as int) * (n * big)) by (nonlinear_arith)
            requires n >= 0 && big >= 1;
    } else {
        let s = shift_down(n as int);
        let dd = pow2(s) as int;
        lemma_shift_down(n as int);
        lemma_pow2_pos(s);
        let m0 = rhe(n as int, dd);
        lemma_rhe_bounds(n as int, dd);
        assert(s <= 40) by {
            if s > 40 {
                if s > 41 {
                    lemma_pow2_strictly_increases(41, s);
                }
                lemma_pow2_adds(23, 41);
                assert(MANT_LO * (pow2(s) as int) >= MANT_LO * (pow2(41) as int)) by (nonlinear_arith)
                    requires pow2(s) >= pow2(41) && MANT_LO >= 0;
                assert(MANT_LO * (pow2(41) as int) == pow2(64)) by (nonlinear_arith)
                    requires MANT_LO == pow2(23) && pow2(23) * pow2(41) == pow2(64);
                assert(false);
            }
        }
        // The rounded significand times its ulp is within d/2 of n.
        assert(2 * dd * m0 == 2 * (dd * m0)) by (nonlinear_arith);
        assert(2 * n - dd <= 2 * (dd * m0) <= 2 * n + dd);
        assert(MANT_LO <= m0 <= MANT_HI) by {
            assert(n as int / dd <= m0 <= n as int / dd + 1);
        }
        // sval(r) == m0 * pow2(s + 1000), with or without the carry fold.
        lemma_norm_carry_value(m0, s as int);
        assert(sval(r) == m0 * pow2((s + 1000) as nat)) by {
            assert(r == norm_carry(m0, s as int));
        }
        lemma_pow2_adds(s, 1000);
        assert(m0 * pow2((s + 1000) as nat) == (dd * m0) * big) by (nonlinear_arith)
            requires pow2((s + 1000) as nat) == dd * big && dd >= 0 && m0 >= 0 && big >= 0;
        // 2^24 * dd <= 2 n  since dd * 2^23 <= n.
        assert((pow2(24) as int) * dd == 2 * (dd * MANT_LO)) by (nonlinear_arith)
            requires pow2(24) == 2 * MANT_LO;
        assert(dd * MANT_LO == MANT_LO * dd) by (nonlinear_arith);
        assert(dd * MANT_LO <= n);
        // upper bound
        assert((pow2(24) as int) * (2 * (dd * m0)) <= (pow2(24) as int) * (2 * n + dd)) by (nonlinear_arith)
            requires 2 * (dd * m0) <= 2 * n + dd && pow2(24) as int >= 1;
        assert((pow2(24) as int) * (2 * n + dd) <= 2 * ((pow2(24) + 1) * n)) by (nonlinear_arith)
            requires (pow2(24) as int) * dd <= 2 * n;
        assert((pow2(24) as int) * (2 * (dd * m0)) == 2 * ((pow2(24) as int) * (dd * m0))) by (nonlinear_arith);
        // lower bound
        assert((pow2(24) as int) * (2 * n - dd) <= (pow2(24) as int) * (2 * (dd * m0))) by (nonlinear_arith)
            requires 2 * n - dd <= 2 * (dd * m0) && pow2(24) as int >= 1;
        assert(2 * ((pow2(24) - 1) * n) <= (pow2(24) as int) * (2 * n - dd)) by (nonlinear_arith)
            requires (pow2(24) as int) * dd <= 2 * n;
        assert((pow2(24) as int) * sval(r) == ((pow2(24) as int) * (dd * m0)) * big) by (nonlinear_arith)
            requires sval(r) == (dd * m0) * big;
        assert((pow2(24) + 1) * (n * big) == ((pow2(24) + 1) * n) * big) by (nonlinear_arith);
        assert(((pow2(24) - 1) * n) * big == (pow2(24) - 1) * (n * big)) by (nonlinear_arith);
        assert(((pow2(24) as int) * (dd * m0)) * big <= ((pow2(24) + 1) * n) * big) by (nonlinear_arith)
            requires (pow2(24) as int) * (dd * m0) <= (pow2(24) + 1) * n && big >= 0;
        assert(((pow2(24) - 1) * n) * big <= ((pow2(24) as int) * (dd * m0)) * big) by (nonlinear_arith)
            requires (pow2(24) - 1) * n <= (pow2(24) as int) * (dd * m0) && big >= 0;
        if n < MANT_HI {
            assert(s == 0);
            assert(dd == 1);
            assert(m0 == n) by {
                lemma_fundamental_div_mod(n as int, 1);
            }
            assert(sval(r) == n * big);
        }
    }
}

/// Doubling `n` by `shift_up(n)` lands exactly in the normalized range.
proof fn lemma_shift_up_value(n: int)
    requires
        1 <= n < MANT_HI,
    ensures
        n >= MANT_LO ==> shift_up(n) == 0,
        MANT_LO <= n * (pow2(shift_up(n)) as int),
        n * (pow2(shift_up(n)) as int) < MANT_HI,
        shift_up(n) <= 23,
    decreases 2 * MANT_LO - n,
{
    lemma2_to64();
        lemma2_to64_rest();
    if n >= MANT_LO {
        assert(shift_up(n) == 0);
        assert(pow2(0) == 1);
        assert(n * (pow2(0) as int) == n) by (nonlinear_arith)
            requires pow2(0) == 1;
    } else {
        lemma_shift_up_value(2 * n);
        let k1 = shift_up(2 * n);
        lemma_pow2_adds(k1, 1);
        assert(n * (pow2(k1 + 1) as int) == (2 * n) * (pow2(k1) as int)) by (nonlinear_arith)
            requires pow2(k1 + 1) == pow2(k1) * 2;
        assert(shift_up(n) == k1 + 1);
        if k1 + 1 > 23 {
            assert(k1 >= 23);
            lemma_pow2_strictly_increases(23, k1 + 1);
            assert(n * (pow2(k1 + 1) as int) >= pow2(k1 + 1) as int) by (nonlinear_arith)
                requires n >= 1 && pow2(k1 + 1) as int >= 0;
            assert(false);
        }
    }
}

/// Folding a carry keeps the represented value unchanged.
proof fn lemma_norm_carry_value(m: int, e: int)
    requires
        MANT_LO <= m <= MANT_HI,
        -1000 <= e <= 998,
    ensures
        fp_wf(norm_carry(m, e)),
        sval(norm_carry(m, e)) == m * pow2((e + 1000) as nat),
{
    lemma2_to64();
        lemma2_to64_rest();
    if m >= MANT_HI {
        assert(m == MANT_HI);
        assert(m / 2 == MANT_LO);
        lemma_pow2_adds((e + 1000) as nat, 1);
        assert(MANT_LO * pow2((e + 1001) as nat) == MANT_LO * (2 * pow2((e + 1000) as nat)));
        assert(MANT_LO * (2 * pow2((e + 1000) as nat)) == (MANT_HI as int) * pow2((e + 1000) as nat))
            by (nonlinear_arith)
            requires 2 * MANT_LO == MANT_HI;
    }
}

/// If `p` is below `MANT_LO * 2^k`, fewer than `k` halvings normalize it.
proof fn lemma_shift_down_upper(p: int, k: nat)
    requires
        MANT_LO <= p,
        p < MANT_LO * (pow2(k) as int),
    ensures
        shift_down(p) < k,
{
    let s = shift_down(p);
    lemma_shift_down(p);
    if s >= k {
        if s > k {
            lemma_pow2_strictly_increases(k, s);
        }
        lemma_mul_inequality(pow2(k) as int, pow2(s) as int, MANT_LO as int);
        assert(MANT_LO * (pow2(k) as int) == (pow2(k) as int) * MANT_LO) by (nonlinear_arith);
        assert(MANT_LO * (pow2(s) as int) == (pow2(s) as int) * MANT_LO) by (nonlinear_arith);
        assert(false);
    }
}

/// If `p` is at least `MANT_HI * 2^k`, more than `k` halvings are needed.
proof fn lemma_shift_down_lower(p: int, k: nat)
    requires
        (MANT_HI as int) * (pow2(k) as int) <= p,
    ensures
        shift_down(p) > k,
{
    let s = shift_down(p);
    lemma_pow2_pos(k);
    lemma_pow2_pos(shift_down(p));
    assert(p >= MANT_HI) by {
        assert((MANT_HI as int) * (pow2(k) as int) >= MANT_HI) by (nonlinear_arith)
            requires pow2(k) >= 1;
    }
    lemma_shift_down(p);
    let q = p / (pow2(s) as int);
    lemma_fundamental_div_mod(p, pow2(s) as int);
    lemma_mod_division_less_than_divisor(p, pow2(s) as int);
    assert(p < (q + 1) * (pow2(s) as int)) by (nonlinear_arith)
        requires p == q * (pow2(s) as int) + p % (pow2(s) as int) && p % (pow2(s) as int) < pow2(s) as int;
    assert(p < (MANT_HI as int) * (pow2(s) as int)) by (nonlinear_arith)
        requires p < (q + 1) * (pow2(s) as int) && q + 1 <= MANT_HI && pow2(s) as int >= 1;
    if s <= k {
        if s < k {
            lemma_pow2_strictly_increases(s, k);
        }
        lemma_mul_inequality(pow2(s) as int, pow2(k) as int, MANT_HI as int);
        assert((MANT_HI as int) * (pow2(s) as int) == (pow2(s) as int) * MANT_HI) by (nonlinear_arith);
        assert((MANT_HI as int) * (pow2(k) as int) == (pow2(k) as int) * MANT_HI) by (nonlinear_arith);
        assert(false);
    }
}

/// Normalize and round a significand `p` at base exponent `e0` to 24 bits.
fn norm_round(p: u64, e0: i32) -> (r: Fp)
    requires
        MANT_LO <= p,
        -950 <= e0,
        e0 <= 900,
    ensures
        r == round_at(p as int, pow2(shift_down(p as int)) as int, e0 + shift_down(p as int)),
        r.m != 0,
        MANT_LO <= r.m < MANT_HI,
        e0 + shift_down(p as int) <= r.e <= e0 + shift_down(p as int) + 1,
        shift_down(p as int) <= 40,
{
    proof {
        lemma2_to64();
        lemma2_to64_rest();
        lemma_pow2_adds(23, 41);
        assert(MANT_LO * (pow2(41) as int) == pow2(64)) by (nonlinear_arith)
            requires MANT_LO == pow2(23) && (pow2(23) as int) * (pow2(41) as int) == pow2(64);
        lemma_shift_down_upper(p as int, 41);
        lemma_shift_down(p as int);
    }
    let ghost sd = shift_down(p as int);
    let mut t: u64 = p;
    let mut s: u32 = 0;
    while t >= MANT_HI
        invariant
            MANT_LO <= p,
            MANT_LO <= t,
            t == p as int / (pow2(s as nat) as int),
            sd == s + shift_down(t as int),
            sd == shift_down(p as int),
            s <= sd <= 40,
        decreases t,
    {
        proof {
            lemma2_to64();
        lemma2_to64_rest();
            lemma_pow2_pos(s as nat);
            lemma_div_denominator(p as int, pow2(s as nat) as int, 2);
            lemma_pow2_adds(s as nat, 1);
            assert((pow2(s as nat) as int) * 2 == pow2(s as nat + 1)) by (nonlinear_arith)
                requires pow2(s as nat + 1) == pow2(s as nat) * pow2(1) && pow2(1) == 2;
            assert(t as int / 2 == p as int / (pow2(s as nat + 1) as int));
            assert(shift_down(t as int) == 1 + shift_down(t as int / 2));
        }
        t = t / 2;
        s = s + 1;
    }
    proof {
        assert(shift_down(t as int) == 0);
        assert(s == sd);
    }
    proof {
        lemma_pow2_pos(s as nat);
        lemma_pow2_strictly_increases(s as nat, 62);
    }
    let d = pow2_u64(s);
    let m0 = rhe_u64(p, d);
    proof {
        lemma_rhe_bounds(p as int, d as int);
        assert(MANT_LO <= m0 <= MANT_HI);
    }
    if m0 == MANT_HI {
        proof {
            assert(norm_carry(m0 as int, e0 + s) == Fp { m: MANT_LO, e: (e0 + s + 1) as i32 });
        }
        Fp { m: MANT_LO, e: e0 + s as i32 + 1 }
    } else {
        Fp { m: m0, e: e0 + s as i32 }
    }
}

/// The `binary32`-rounded value of a 64-bit integer (executable form).
pub fn fp_from_u64(n: u64) -> (r: Fp)
    ensures
        r == spec_from_u64(n),
        fp_wf(r),
        (r.m == 0) <==> (n == 0),
        n != 0 ==> -23 <= r.e <= 41,
{
    proof {
        lemma2_to64();
        lemma2_to64_rest();
    }
    if n == 0 {
        Fp { m: 0, e: 0 }
    } else if n < MANT_LO {
        proof {
            lemma_shift_up_value(n as int);
        }
        let mut m: u64 = n;
        let mut k: u32 = 0;
        while m < MANT_LO
            invariant
                1 <= n < MANT_LO,
                1 <= m < MANT_HI,
                k <= 23,
                m == n * (pow2(k as nat) as int),
                shift_up(n as int) == k + shift_up(m as int),
            decreases 2 * MANT_LO - m,
        {
            proof {
                lemma2_to64();
        lemma2_to64_rest();
                lemma_pow2_adds(k as nat, 1);
                assert(m * 2 == n * (pow2(k as nat + 1) as int)) by (nonlinear_arith)
                    requires m == n * (pow2(k as nat) as int) && pow2(k as nat + 1) == pow2(k as nat) * 2;
                assert(k < 23) by {
                    if k >= 23 {
                        lemma_pow2_strictly_increases(22, k as nat);
                        assert(n * (pow2(k as nat) as int) >= pow2(k as nat) as int) by (nonlinear_arith)
                            requires n >= 1 && pow2(k as nat) as int >= 0;
                        assert(false);
                    }
                }
                assert(shift_up(m as int) == 1 + shift_up(2 * m as int));
            }
            m = m * 2;
            k = k + 1;
        }
        proof {
            assert(shift_up(m as int) == 0);
            assert(k == shift_up(n as int));
            lemma_shift_up_value(n as int);
        }
        Fp { m, e: 0 - (k as i32) }
    } else {
        let r = norm_round(n, 0);
        proof {
            assert(r == spec_from_u64(n));
            assert(fp_wf(r));
        }
        r
    }
}

/// Significand product placed in `[2^46, 2^48)`; exponents add.
pub open spec fn spec_mul(a: Fp, b: Fp) -> Fp {
    if a.m == 0 || b.m == 0 {
        Fp { m: 0, e: 0 }
    } else {
        let p = a.m * b.m;
        let s = shift_down(p as int);
        round_at(p as int, pow2(s) as int, a.e + b.e + s)
    }
}

/// Product of two values, rounded to nearest even: `binary32` multiplication.
pub fn fp_mul(a: Fp, b: Fp) -> (r: Fp)
    requires
        fp_wf(a),
        fp_wf(b),
        -900 <= a.e + b.e,
        a.e + b.e <= 870,
    ensures
        r == spec_mul(a, b),
        fp_wf(r),
        (r.m == 0) <==> (a.m == 0 || b.m == 0),
        r.m != 0 ==> a.e + b.e + 23 <= r.e <= a.e + b.e + 25,
{
    proof {
        lemma2_to64();
        lemma2_to64_rest();
    }
    if a.m == 0 || b.m == 0 {
        return Fp { m: 0, e: 0 };
    }
    proof {
        lemma_mul_inequality(a.m as int, MANT_HI as int, b.m as int);
        lemma_mul_inequality(MANT_LO as int, a.m as int, b.m as int);
        lemma_pow2_adds(23, 23);
        lemma_pow2_adds(24, 24);
        assert((MANT_HI as int) * (b.m as int) <= (MANT_HI as int) * (MANT_HI as int)) by (nonlinear_arith)
            requires b.m <= MANT_HI;
        assert((MANT_HI as int) * (MANT_HI as int) == pow2(48)) by (nonlinear_arith)
            requires MANT_HI == pow2(24) && (pow2(24) as int) * (pow2(24) as int) == pow2(48);
        assert((MANT_LO as int) * (MANT_LO as int) == pow2(46)) by (nonlinear_arith)
            requires MANT_LO == pow2(23) && (pow2(23) as int) * (pow2(23) as int) == pow2(46);
        assert((MANT_LO as int) * (b.m as int) >= (MANT_LO as int) * (MANT_LO as int)) by (nonlinear_arith)
            requires b.m >= MANT_LO && MANT_LO >= 0;
        assert(pow2(46) <= a.m * b.m < pow2(48));
    }
    let p = a.m * b.m;
    let ghost s = shift_down(p as int);
    proof {
        lemma_pow2_adds(23, 25);
        lemma_pow2_adds(24, 22);
        assert(p < MANT_LO * (pow2(25) as int)) by (nonlinear_arith)
            requires p < pow2(48) && MANT_LO == pow2(23) && (pow2(23) as int) * (pow2(25) as int) == pow2(48);
        lemma_shift_down_upper(p as int, 25);
        assert((MANT_HI as int) * (pow2(22) as int) <= p) by (nonlinear_arith)
            requires pow2(46) <= p && MANT_HI == pow2(24) && (pow2(24) as int) * (pow2(22) as int) == pow2(46);
        lemma_shift_down_lower(p as int, 22);
        assert(23 <= s <= 24);
    }
    let r = norm_round(p, a.e + b.e);
    r
}

/// Scaled significand quotient; exponents subtract.
pub open spec fn spec_div(a: Fp, b: Fp) -> Fp
    recommends
        b.m != 0,
{
    if a.m == 0 {
        Fp { m: 0, e: 0 }
    } else {
        let nn = a.m * pow2(26);
        let q0 = nn as int / b.m as int;
        let s = shift_down(q0);
        round_at(nn as int, b.m * (pow2(s) as int), a.e - b.e - 26 + s)
    }
}

/// Quotient of two values, rounded to nearest even: `binary32` division.
pub fn fp_div(a: Fp, b: Fp) -> (r: Fp)
    requires
        fp_wf(a),
        fp_wf(b),
        b.m != 0,
        -870 <= a.e - b.e,
        a.e - b.e <= 900,
    ensures
        r == spec_div(a, b),
        fp_wf(r),
        (r.m == 0) <==> (a.m == 0),
        r.m != 0 ==> a.e - b.e - 24 <= r.e <= a.e - b.e - 22,
{
    proof {
        lemma2_to64();
        lemma2_to64_rest();
    }
    if a.m == 0 {
        return Fp { m: 0, e: 0 };
    }
    let w = pow2_u64(26);
    proof {
        lemma_pow2_adds(23, 26);
        lemma_pow2_adds(24, 26);
        assert((MANT_LO as int) * (pow2(26) as int) == pow2(49)) by (nonlinear_arith)
            requires MANT_LO == pow2(23) && (pow2(23) as int) * (pow2(26) as int) == pow2(49);
        assert((MANT_HI as int) * (pow2(26) as int) == pow2(50)) by (nonlinear_arith)
            requires MANT_HI == pow2(24) && (pow2(24) as int) * (pow2(26) as int) == pow2(50);
        assert(a.m * (pow2(26) as int) >= pow2(49)) by (nonlinear_arith)
            requires a.m >= MANT_LO && pow2(26) as int >= 0 && (MANT_LO as int) * (pow2(26) as int) == pow2(49);
        assert(a.m * (pow2(26) as int) < pow2(50)) by (nonlinear_arith)
            requires a.m < MANT_HI && pow2(26) as int >= 1 && (MANT_HI as int) * (pow2(26) as int) == pow2(50);
    }
    let nn = a.m * w;
    let q0 = nn / b.m;
    proof {
        // q0 is in [2^25, 2^27).
        lemma_pow2_adds(24, 25);
        lemma_pow2_adds(23, 27);
        lemma_fundamental_div_mod(nn as int, b.m as int);
        lemma_mod_division_less_than_divisor(nn as int, b.m as int);
        assert(q0 >= pow2(25)) by {
            assert(nn < (q0 + 1) * b.m) by (nonlinear_arith)
                requires nn == q0 * b.m + (nn as int) % (b.m as int) && (nn as int) % (b.m as int) < b.m;
            if q0 < pow2(25) {
                assert((q0 + 1) * b.m <= (pow2(25) as int) * (MANT_HI as int)) by (nonlinear_arith)
                    requires q0 + 1 <= pow2(25) && b.m <= MANT_HI && b.m >= 0 && pow2(25) as int >= 0;
                assert((pow2(25) as int) * (MANT_HI as int) == pow2(49)) by (nonlinear_arith)
                    requires MANT_HI == pow2(24) && (pow2(24) as int) * (pow2(25) as int) == pow2(49);
                assert(false);
            }
        }
        assert(q0 < pow2(27)) by {
            assert(q0 * b.m <= nn);
            if q0 >= pow2(27) {
                assert(q0 * b.m >= (pow2(27) as int) * (MANT_LO as int)) by (nonlinear_arith)
                    requires q0 >= pow2(27) && b.m >= MANT_LO && MANT_LO >= 0 && pow2(27) as int >= 0;
                assert((pow2(27) as int) * (MANT_LO as int) == pow2(50)) by (nonlinear_arith)
                    requires MANT_LO == pow2(23) && (pow2(23) as int) * (pow2(27) as int) == pow2(50);
                assert(false);
            }
        }
    }
    let s: u32 = if q0 >= 0x400_0000 { 3 } else { 2 };
    proof {
        // shift_down(q0) unfolds to exactly s.
        lemma2_to64();
        lemma2_to64_rest();
        assert(pow2(25) == 0x200_0000 && pow2(26) == 0x400_0000 && pow2(27) == 0x800_0000);
        if q0 >= 0x400_0000 {
            assert(shift_down(q0 as int) == 1 + shift_down(q0 as int / 2));
            assert(0x200_0000 <= q0 as int / 2 < 0x400_0000);
            assert(shift_down(q0 as int / 2) == 1 + shift_down(q0 as int / 2 / 2));
            assert(0x100_0000 <= q0 as int / 2 / 2 < 0x200_0000);
            assert(shift_down(q0 as int / 2 / 2) == 1 + shift_down(q0 as int / 2 / 2 / 2));
            assert(0x80_0000 <= q0 as int / 2 / 2 / 2 < 0x100_0000);
            assert(shift_down(q0 as int / 2 / 2 / 2) == 0);
        } else {
            assert(shift_down(q0 as int) == 1 + shift_down(q0 as int / 2));
            assert(0x100_0000 <= q0 as int / 2 < 0x200_0000);
            assert(shift_down(q0 as int / 2) == 1 + shift_down(q0 as int / 2 / 2));
            assert(0x80_0000 <= q0 as int / 2 / 2 < 0x100_0000);
            assert(shift_down(q0 as int / 2 / 2) == 0);
        }
        assert(s == shift_down(q0 as int));
    }
    let ds = pow2_u64(s);
    let d = b.m * ds;
    let m0 = rhe_u64(nn, d);
    proof {
        lemma_rhe_bounds(nn as int, d as int);
        lemma_pow2_pos(s as nat);
        lemma_div_denominator(nn as int, b.m as int, pow2(s as nat) as int);
        assert(nn as int / (d as int) == q0 as int / (pow2(s as nat) as int)) by {
            assert(b.m * (pow2(s as nat) as int) == d);
        }
        assert(MANT_LO <= q0 as int / (pow2(s as nat) as int)) by {
            if s == 2 {
                assert(q0 as int / 4 >= 0x200_0000int / 4);
            } else {
                assert(q0 as int / 8 >= 0x400_0000int / 8);
            }
        }
        assert(q0 as int / (pow2(s as nat) as int) < MANT_HI);
        assert(MANT_LO <= m0 <= MANT_HI);
    }
    let e0 = a.e - b.e - 26 + s as i32;
    if m0 == MANT_HI {
        proof {
            assert(norm_carry(m0 as int, e0 as int) == Fp { m: MANT_LO, e: (e0 + 1) as i32 });
        }
        Fp { m: MANT_LO, e: e0 + 1 }
    } else {
        Fp { m: m0, e: e0 }
    }
}


/// The canonical zero value.
pub open spec fn fp_zero() -> Fp {
    Fp { m: 0, e: 0 }
}

/// A well-formed value is nonnegative, and positive exactly when `m != 0`.
pub proof fn lemma_sval_sign(a: Fp)
    requires
        fp_wf(a),
    ensures
        a.m == 0 ==> sval(a) == 0,
        a.m != 0 ==> sval(a) >= pow2((a.e + 1000) as nat),
        sval(a) >= 0,
{
    lemma_pow2_pos((a.e + 1000) as nat);
    if a.m == 0 {
        assert(sval(a) == 0) by (nonlinear_arith)
            requires sval(a) == a.m * pow2((a.e + 1000) as nat) && a.m == 0;
    } else {
        assert(a.m * pow2((a.e + 1000) as nat) >= pow2((a.e + 1000) as nat)) by (nonlinear_arith)
            requires a.m >= 1 && pow2((a.e + 1000) as nat) >= 0;
    }
}

/// Compare two values: `a <= b` on the exact rationals they denote.
pub fn fp_le(a: Fp, b: Fp) -> (r: bool)
    requires
        fp_wf(a),
        fp_wf(b),
    ensures
        r == (sval(a) <= sval(b)),
{
    proof {
        lemma2_to64();
        lemma2_to64_rest();
        lemma_sval_sign(a);
        lemma_sval_sign(b);
    }
    if a.m == 0 {
        true
    } else if b.m == 0 {
        proof {
            lemma_pow2_pos((a.e + 1000) as nat);
        }
        false
    } else if a.e == b.e {
        proof {
            let z = pow2((a.e + 1000) as nat) as int;
            lemma_pow2_pos((a.e + 1000) as nat);
            if a.m <= b.m {
                lemma_mul_inequality(a.m as int, b.m as int, z);
            } else {
                lemma_mul_strict_inequality(b.m as int, a.m as int, z);
            }
        }
        a.m <= b.m
    } else if a.e < b.e {
        let d = b.e - a.e;
        proof {
            let z = pow2((a.e + 1000) as nat) as int;
            lemma_pow2_pos((a.e + 1000) as nat);
            lemma_pow2_adds(d as nat, (a.e + 1000) as nat);
            assert(sval(b) == (b.m * (pow2(d as nat) as int)) * z) by (nonlinear_arith)
                requires
                    sval(b) == b.m * pow2((b.e + 1000) as nat),
                    pow2((b.e + 1000) as nat) == pow2(d as nat) * pow2((a.e + 1000) as nat),
                    z == pow2((a.e + 1000) as nat);
        }
        if d >= 41 {
            proof {
                let z = pow2((a.e + 1000) as nat) as int;
                if d > 41 {
                    lemma_pow2_strictly_increases(41, d as nat);
                }
                assert(b.m * (pow2(d as nat) as int) >= MANT_LO * (pow2(41) as int)) by (nonlinear_arith)
                    requires b.m >= MANT_LO && pow2(d as nat) >= pow2(41) && MANT_LO >= 0 && pow2(41) >= 0;
                lemma_pow2_adds(23, 41);
                assert(MANT_LO * (pow2(41) as int) == pow2(64)) by (nonlinear_arith)
                    requires MANT_LO == pow2(23) && (pow2(23) as int) * (pow2(41) as int) == pow2(64);
                assert(a.m <= b.m * (pow2(d as nat) as int));
                lemma_mul_inequality(a.m as int, b.m * (pow2(d as nat) as int), z);
            }
            true
        } else {
            proof {
                lemma_pow2_pos(d as nat);
                if d < 40 {
                    lemma_pow2_strictly_increases(d as nat, 40);
                }
                lemma_pow2_adds(24, 40);
                assert(b.m * (pow2(d as nat) as int) < pow2(64)) by (nonlinear_arith)
                    requires
                        0 <= b.m < MANT_HI,
                        1 <= pow2(d as nat) <= pow2(40),
                        MANT_HI == pow2(24),
                        (pow2(24) as int) * (pow2(40) as int) == pow2(64);
            }
            let bd = b.m * pow2_u64(d as u32);
            proof {
                let z = pow2((a.e + 1000) as nat) as int;
                if a.m <= bd {
                    lemma_mul_inequality(a.m as int, bd as int, z);
                } else {
                    lemma_mul_strict_inequality(bd as int, a.m as int, z);
                }
            }
            a.m <= bd
        }
    } else {
        let d = a.e - b.e;
        proof {
            let z = pow2((b.e + 1000) as nat) as int;
            lemma_pow2_pos((b.e + 1000) as nat);
            lemma_pow2_adds(d as nat, (b.e + 1000) as nat);
            assert(sval(a) == (a.m * (pow2(d as nat) as int)) * z) by (nonlinear_arith)
                requires
                    sval(a) == a.m * pow2((a.e + 1000) as nat),
                    pow2((a.e + 1000) as nat) == pow2(d as nat) * pow2((b.e + 1000) as nat),
                    z == pow2((b.e + 1000) as nat);
        }
        if d >= 41 {
            proof {
                let z = pow2((b.e + 1000) as nat) as int;
                if d > 41 {
                    lemma_pow2_strictly_increases(41, d as nat);
                }
                assert(a.m * (pow2(d as nat) as int) >= MANT_LO * (pow2(41) as int)) by (nonlinear_arith)
                    requires a.m >= MANT_LO && pow2(d as nat) >= pow2(41) && MANT_LO >= 0 && pow2(41) >= 0;
                lemma_pow2_adds(23, 41);
                assert(MANT_LO * (pow2(41) as int) == pow2(64)) by (nonlinear_arith)
                    requires MANT_LO == pow2(23) && (pow2(23) as int) * (pow2(41) as int) == pow2(64);
                assert(b.m < a.m * (pow2(d as nat) as int));
                lemma_mul_strict_inequality(b.m as int, a.m * (pow2(d as nat) as int), z);
            }
            false
        } else {
            proof {
                lemma_pow2_pos(d as nat);
                if d < 40 {
                    lemma_pow2_strictly_increases(d as nat, 40);
                }
                lemma_pow2_adds(24, 40);
                assert(a.m * (pow2(d as nat) as int) < pow2(64)) by (nonlinear_arith)
                    requires
                        0 <= a.m < MANT_HI,
                        1 <= pow2(d as nat) <= pow2(40),
                        MANT_HI == pow2(24),
                        (pow2(24) as int) * (pow2(40) as int) == pow2(64);
            }
            let ad = a.m * pow2_u64(d as u32);
            proof {
                let z = pow2((b.e + 1000) as nat) as int;
                if ad <= b.m {
                    lemma_mul_inequality(ad as int, b.m as int, z);
                } else {
                    lemma_mul_strict_inequality(b.m as int, ad as int, z);
                }
            }
            ad <= b.m
        }
    }
}

/// Mathematical floor of a well-formed value.
pub open spec fn spec_trunc(a: Fp) -> int {
    if a.e >= 0 {
        a.m * (pow2(a.e as nat) as int)
    } else {
        a.m as int / (pow2((0 - a.e) as nat) as int)
    }
}

/// The floor brackets the value to within one unit.
pub proof fn lemma_trunc_bounds(a: Fp)
    requires
        fp_wf(a),
    ensures
        spec_trunc(a) >= 0,
        spec_trunc(a) * pow2(1000) <= sval(a),
        sval(a) < (spec_trunc(a) + 1) * pow2(1000),
{
    lemma_pow2_pos(1000);
    let big = pow2(1000) as int;
    if a.e >= 0 {
        lemma_pow2_pos(a.e as nat);
        lemma_pow2_adds(a.e as nat, 1000);
        assert(spec_trunc(a) >= 0) by (nonlinear_arith)
            requires spec_trunc(a) == a.m * (pow2(a.e as nat) as int) && a.m >= 0 && pow2(a.e as nat) as int >= 0;
        assert((a.m * (pow2(a.e as nat) as int)) * big == a.m * pow2((a.e + 1000) as nat)) by (nonlinear_arith)
            requires pow2((a.e + 1000) as nat) == pow2(a.e as nat) * pow2(1000) && big == pow2(1000);
        assert(sval(a) < (spec_trunc(a) + 1) * big) by (nonlinear_arith)
            requires sval(a) == spec_trunc(a) * big && big >= 1;
    } else {
        let d = (0 - a.e) as nat;
        lemma_pow2_pos(d);
        let dd = pow2(d) as int;
        let q = a.m as int / dd;
        lemma_fundamental_div_mod(a.m as int, dd);
        lemma_mod_division_less_than_divisor(a.m as int, dd);
        lemma_div_pos_is_pos(a.m as int, dd);
        lemma_pow2_pos((a.e + 1000) as nat);
        lemma_pow2_adds((a.e + 1000) as nat, d);
        assert(dd * pow2((a.e + 1000) as nat) == pow2(1000)) by (nonlinear_arith)
            requires pow2((a.e + 1000) as nat) * pow2(d) == pow2(1000) && dd == pow2(d);
        let z = pow2((a.e + 1000) as nat) as int;
        assert(sval(a) == (q * dd + a.m as int % dd) * z) by (nonlinear_arith)
            requires sval(a) == a.m * z && a.m == q * dd + a.m as int % dd;
        assert((q * dd + a.m as int % dd) * z == q * (dd * z) + (a.m as int % dd) * z) by (nonlinear_arith);
        assert((a.m as int % dd) * z >= 0) by (nonlinear_arith)
            requires a.m as int % dd >= 0 && z >= 0;
        assert((a.m as int % dd) * z < dd * z) by (nonlinear_arith)
            requires a.m as int % dd < dd && z >= 1;
        assert(q * (dd * z) == q * big) by {
            assert(dd * z == big);
        }
        assert(sval(a) < (q + 1) * big) by (nonlinear_arith)
            requires sval(a) == q * big + (a.m as int % dd) * z && (a.m as int % dd) * z < big;
    }
}

/// Truncate a value toward zero into a 64-bit integer.
pub fn fp_trunc(a: Fp) -> (r: u64)
    requires
        fp_wf(a),
        a.e <= 39,
    ensures
        r == spec_trunc(a),
{
    proof {
        lemma2_to64();
        lemma2_to64_rest();
    }
    if a.m == 0 {
        proof {
            if a.e >= 0 {
                assert(spec_trunc(a) == 0) by (nonlinear_arith)
                    requires spec_trunc(a) == a.m * (pow2(a.e as nat) as int) && a.m == 0;
            } else {
                lemma_pow2_pos((0 - a.e) as nat);
                lemma_div_basics(pow2((0 - a.e) as nat) as int);
            }
        }
        0
    } else if a.e >= 0 {
        proof {
            lemma_pow2_adds(24, 39);
            lemma_pow2_pos(a.e as nat);
            if a.e < 39 {
                lemma_pow2_strictly_increases(a.e as nat, 39);
            }
            assert(a.m * (pow2(a.e as nat) as int) < pow2(63)) by (nonlinear_arith)
                requires
                    0 <= a.m < MANT_HI,
                    1 <= pow2(a.e as nat) <= pow2(39),
                    MANT_HI == pow2(24),
                    (pow2(24) as int) * (pow2(39) as int) == pow2(63);
        }
        let p2 = pow2_u64(a.e as u32);
        proof {
            assert(p2 == pow2(a.e as nat));
            assert((a.m as int) * (p2 as int) < pow2(63)) by (nonlinear_arith)
                requires p2 == pow2(a.e as nat) && a.m * (pow2(a.e as nat) as int) < pow2(63);
            lemma2_to64();
        lemma2_to64_rest();
        }
        a.m * p2
    } else {
        let d = 0 - a.e;
        if d >= 24 {
            proof {
                let dn = (0 - a.e) as nat;
                if d > 24 {
                    lemma_pow2_strictly_increases(24, dn);
                }
                lemma_pow2_pos(dn);
                assert(a.m < pow2(dn));
                assert(a.m as int / (pow2(dn) as int) == 0) by {
                    vstd::arithmetic::div_mod::lemma_basic_div(a.m as int, pow2(dn) as int);
                }
            }
            0
        } else {
            proof {
                lemma_pow2_pos((0 - a.e) as nat);
                lemma_pow2_strictly_increases((0 - a.e) as nat, 24);
            }
            a.m / pow2_u64(d as u32)
        }
    }
}

/// Exact clamped subtraction of an integer, for fractional remainders:
/// `max(0, a - n)` where the difference is below one, so no rounding occurs
/// (the same exactness `binary32` subtraction has in this range).
pub fn fp_sub_floor(a: Fp, n: u64) -> (r: Fp)
    requires
        fp_wf(a),
        a.m != 0 ==> -900 <= a.e < 0,
        n <= 0x1_0000_0000,
        sval(a) < (n + 1) * pow2(1000),
    ensures
        fp_wf(r),
        sval(a) <= n * pow2(1000) ==> sval(r) == 0,
        sval(a) > n * pow2(1000) ==> sval(r) == sval(a) - n * pow2(1000),
{
    proof {
        lemma2_to64();
        lemma2_to64_rest();
        lemma_pow2_pos(1000);
        lemma_sval_sign(a);
    }
    if a.m == 0 {
        proof {
            assert(n * pow2(1000) >= 0) by (nonlinear_arith)
                requires n >= 0 && pow2(1000) as int >= 0;
        }
        return Fp { m: 0, e: 0 };
    }
    let d = 0 - a.e;
    if d >= 24 {
        // The value is below one.
        proof {
            let dn = (0 - a.e) as nat;
            if d > 24 {
                lemma_pow2_strictly_increases(24, dn);
            }
            lemma_pow2_adds(dn, (a.e + 1000) as nat);
            assert(sval(a) < pow2(1000)) by (nonlinear_arith)
                requires
                    sval(a) == a.m * pow2((a.e + 1000) as nat),
                    a.m < pow2(dn),
                    pow2((a.e + 1000) as nat) >= 1,
                    pow2(dn) * pow2((a.e + 1000) as nat) == pow2(1000);
        }
        if n >= 1 {
            proof {
                assert(n * pow2(1000) >= pow2(1000)) by (nonlinear_arith)
                    requires n >= 1 && pow2(1000) as int >= 0;
            }
            Fp { m: 0, e: 0 }
        } else {
            proof {
                assert(n * pow2(1000) == 0) by (nonlinear_arith)
                    requires n == 0;
            }
            a
        }
    } else {
        let dd = pow2_u64(d as u32);
        proof {
            lemma_pow2_strictly_increases((0 - a.e) as nat, 24);
            assert(n * dd <= 0x1_0000_0000u64 * 0x100_0000u64) by (nonlinear_arith)
                requires n <= 0x1_0000_0000u64 && dd <= 0x100_0000u64 && n >= 0 && dd >= 0;
        }
        let nd = n * dd;
        let ghost z = pow2((a.e + 1000) as nat) as int;
        proof {
            lemma_pow2_pos((a.e + 1000) as nat);
            lemma_pow2_adds((0 - a.e) as nat, (a.e + 1000) as nat);
            assert((nd as int) * z == n * pow2(1000)) by (nonlinear_arith)
                requires
                    nd == n * dd,
                    dd == pow2((0 - a.e) as nat),
                    pow2((0 - a.e) as nat) * pow2((a.e + 1000) as nat) == pow2(1000),
                    z == pow2((a.e + 1000) as nat);
        }
        if a.m <= nd {
            proof {
                lemma_mul_inequality(a.m as int, nd as int, z);
            }
            Fp { m: 0, e: 0 }
        } else {
            proof {
                lemma_mul_strict_inequality(nd as int, a.m as int, z);
                // a.m < (n + 1) * dd, else sval(a) >= (n+1) * 2^1000.
                assert(a.m < (n + 1) * (dd as int)) by {
                    if a.m >= (n + 1) * (dd as int) {
                        assert(((n + 1) * (dd as int)) * z == (n + 1) * pow2(1000)) by (nonlinear_arith)
                            requires (dd as int) * z == pow2(1000);
                        lemma_mul_inequality((n + 1) * (dd as int), a.m as int, z);
                        assert(false);
                    }
                }
                assert((n + 1) * (dd as int) == nd + dd) by (nonlinear_arith)
                    requires nd == n * dd;
            }
            let diff = a.m - nd;
            // diff is in (0, 2^d) with d <= 23: normalize it exactly.
            proof {
                lemma_pow2_strictly_increases((0 - a.e) as nat, 24);
                lemma_shift_up_value(diff as int);
            }
            let ghost k = shift_up(diff as int);
            let mut m: u64 = diff;
            let mut j: u32 = 0;
            while m < MANT_LO
                invariant
                    1 <= diff < MANT_HI,
                    1 <= m < MANT_HI,
                    j <= 23,
                    m == diff * (pow2(j as nat) as int),
                    shift_up(diff as int) == j + shift_up(m as int),
                decreases 2 * MANT_LO - m,
            {
                proof {
                    lemma2_to64();
        lemma2_to64_rest();
                    lemma_pow2_adds(j as nat, 1);
                    assert(m * 2 == diff * (pow2(j as nat + 1) as int)) by (nonlinear_arith)
                        requires m == diff * (pow2(j as nat) as int) && pow2(j as nat + 1) == pow2(j as nat) * 2;
                    assert(j < 23) by {
                        if j >= 23 {
                            lemma_pow2_strictly_increases(22, j as nat);
                            assert(diff * (pow2(j as nat) as int) >= pow2(j as nat) as int) by (nonlinear_arith)
                                requires diff >= 1 && pow2(j as nat) as int >= 0;
                            assert(false);
                        }
                    }
                    assert(shift_up(m as int) == 1 + shift_up(2 * m as int));
                }
                m = m * 2;
                j = j + 1;
            }
            proof {
                assert(shift_up(m as int) == 0);
                assert(j == k);
                lemma_pow2_adds(j as nat, (a.e - j + 1000) as nat);
                assert(sval(Fp { m: m, e: (a.e - j) as i32 }) == (diff as int) * z) by (nonlinear_arith)
                    requires
                        m == diff * (pow2(j as nat) as int),
                        pow2(j as nat) * pow2((a.e - j + 1000) as nat) == pow2((a.e + 1000) as nat),
                        z == pow2((a.e + 1000) as nat),
                        sval(Fp { m: m, e: (a.e - j) as i32 }) == m * pow2((a.e - j + 1000) as nat);
                assert((diff as int) * z == a.m * z - (nd as int) * z) by (nonlinear_arith)
                    requires diff == a.m - nd;
            }
            Fp { m, e: a.e - j as i32 }
        }
    }
}

/// The value times ten, rounded to the nearest integer, ties to even:
/// the digit stream that one-decimal display formatting prints.
pub open spec fn spec_tenths(a: Fp) -> int {
    if a.m == 0 {
        0
    } else if a.e >= 0 {
        10 * a.m * (pow2(a.e as nat) as int)
    } else {
        rhe(10 * a.m, pow2((0 - a.e) as nat) as int)
    }
}

/// Executable tenths rounding.
pub fn fp_tenths(a: Fp) -> (t: u128)
    requires
        fp_wf(a),
        a.e <= 90,
    ensures
        t == spec_tenths(a),
{
    proof {
        lemma2_to64();
        lemma2_to64_rest();
    }
    if a.m == 0 {
        0
    } else if a.e >= 0 {
        proof {
            lemma_pow2_adds(24, 90);
            lemma_pow2_adds(58, 56);
            lemma_pow2_pos(a.e as nat);
            if a.e < 90 {
                lemma_pow2_strictly_increases(a.e as nat, 90);
            }
            assert(pow2(a.e as nat) <= pow2(90));
            assert((pow2(24) as int) * (pow2(90) as int) == pow2(114)) by {
                lemma_pow2_adds(24, 90);
            }
            assert(a.m * (pow2(a.e as nat) as int) < pow2(114)) by (nonlinear_arith)
                requires
                    0 <= a.m < MANT_HI,
                    1 <= pow2(a.e as nat) <= pow2(90),
                    MANT_HI == pow2(24),
                    (pow2(24) as int) * (pow2(90) as int) == pow2(114);
            assert(pow2(114) * 16 == pow2(118)) by {
                lemma_pow2_adds(114, 4);
                lemma2_to64();
            }
            assert(pow2(118) < pow2(128)) by {
                lemma_pow2_strictly_increases(118, 128);
            }
            assert(pow2(128) == (pow2(64) as int) * (pow2(64) as int)) by {
                lemma_pow2_adds(64, 64);
            }
            assert(10 * (a.m as int * (pow2(a.e as nat) as int)) == 10 * a.m * (pow2(a.e as nat) as int))
                by (nonlinear_arith);
        }
        10 * ((a.m as u128) * pow2_u128(a.e as u32))
    } else {
        let d = 0 - a.e;
        if d >= 29 {
            proof {
                let dn = (0 - a.e) as nat;
                if d > 29 {
                    lemma_pow2_strictly_increases(29, dn);
                }
                lemma_pow2_pos(dn);
                assert(10 * a.m < pow2(28));
                let q = (10 * a.m) as int / (pow2(dn) as int);
                let r2 = (10 * a.m) as int % (pow2(dn) as int);
                vstd::arithmetic::div_mod::lemma_basic_div((10 * a.m) as int, pow2(dn) as int);
                lemma_fundamental_div_mod((10 * a.m) as int, pow2(dn) as int);
                assert(q == 0);
                assert(2 * r2 < pow2(dn));
                assert(spec_tenths(a) == 0);
            }
            0
        } else {
            proof {
                lemma_pow2_strictly_increases((0 - a.e) as nat, 62);
                lemma_pow2_pos((0 - a.e) as nat);
            }
            rhe_u64(10 * a.m, pow2_u64(d as u32)) as u128
        }
    }
}


/// Shared rounding relation: normalizing and rounding `p` keeps the value
/// within a relative error of 2^-24.
proof fn lemma_round_rel(p: int)
    requires
        MANT_LO <= p,
    ensures
        MANT_LO <= rhe(p, pow2(shift_down(p)) as int) <= MANT_HI,
        (pow2(24) as int) * ((pow2(shift_down(p)) as int) * rhe(p, pow2(shift_down(p)) as int))
            <= (pow2(24) + 1) * p,
        (pow2(24) - 1) * p
            <= (pow2(24) as int) * ((pow2(shift_down(p)) as int) * rhe(p, pow2(shift_down(p)) as int)),
{
    lemma2_to64();
    lemma2_to64_rest();
    let s = shift_down(p);
    let dd = pow2(s) as int;
    lemma_shift_down(p);
    lemma_pow2_pos(s);
    let m0 = rhe(p, dd);
    lemma_rhe_bounds(p, dd);
    assert(2 * dd * m0 == 2 * (dd * m0)) by (nonlinear_arith);
    assert(MANT_LO <= m0 <= MANT_HI) by {
        assert(p / dd <= m0 <= p / dd + 1);
    }
    assert((pow2(24) as int) * dd == 2 * (dd * MANT_LO)) by (nonlinear_arith)
        requires pow2(24) == 2 * MANT_LO;
    assert(dd * MANT_LO == MANT_LO * dd) by (nonlinear_arith);
    assert(MANT_LO * dd <= p);
    // upper
    assert((pow2(24) as int) * (2 * (dd * m0)) <= (pow2(24) as int) * (2 * p + dd)) by (nonlinear_arith)
        requires 2 * (dd * m0) <= 2 * p + dd && pow2(24) as int >= 1;
    assert((pow2(24) as int) * (2 * p + dd) <= 2 * ((pow2(24) + 1) * p)) by (nonlinear_arith)
        requires (pow2(24) as int) * dd <= 2 * p;
    assert((pow2(24) as int) * (2 * (dd * m0)) == 2 * ((pow2(24) as int) * (dd * m0))) by (nonlinear_arith);
    // lower
    assert((pow2(24) as int) * (2 * p - dd) <= (pow2(24) as int) * (2 * (dd * m0))) by (nonlinear_arith)
        requires 2 * p - dd <= 2 * (dd * m0) && pow2(24) as int >= 1;
    assert(2 * ((pow2(24) - 1) * p) <= (pow2(24) as int) * (2 * p - dd)) by (nonlinear_arith)
        requires (pow2(24) as int) * dd <= 2 * p;
}

/// `binary32` multiplication is within a relative error of 2^-24 of the
/// exact product.
pub proof fn lemma_mul_value(a: Fp, b: Fp)
    requires
        fp_wf(a),
        fp_wf(b),
        -900 <= a.e + b.e,
        a.e + b.e <= 870,
    ensures
        (pow2(24) as int) * (sval(spec_mul(a, b)) * (pow2(1000) as int))
            <= (pow2(24) + 1) * (sval(a) * sval(b)),
        (pow2(24) - 1) * (sval(a) * sval(b))
            <= (pow2(24) as int) * (sval(spec_mul(a, b)) * (pow2(1000) as int)),
        sval(spec_mul(a, b)) >= 0,
{
    lemma2_to64();
    lemma2_to64_rest();
    lemma_pow2_pos(1000);
    lemma_sval_sign(a);
    lemma_sval_sign(b);
    let r = spec_mul(a, b);
    if a.m == 0 || b.m == 0 {
        assert(sval(r) == 0) by {
            lemma_sval_sign(r);
        }
        assert(sval(a) * sval(b) == 0) by (nonlinear_arith)
            requires sval(a) == 0 || sval(b) == 0;
        assert(sval(r) * (pow2(1000) as int) == 0) by (nonlinear_arith)
            requires sval(r) == 0;
    } else {
        let p = a.m * b.m;
        lemma_pow2_adds(24, 24);
        assert(MANT_LO <= p < pow2(48)) by (nonlinear_arith)
            requires
                p == a.m * b.m,
                MANT_LO <= a.m < MANT_HI,
                MANT_LO <= b.m < MANT_HI,
                MANT_HI == pow2(24),
                (pow2(24) as int) * (pow2(24) as int) == pow2(48);
        let s = shift_down(p);
        let dd = pow2(s) as int;
        let m0 = rhe(p, dd);
        lemma_round_rel(p);
        assert(s <= 40) by {
            lemma_pow2_adds(23, 41);
            assert(p < MANT_LO * (pow2(41) as int)) by (nonlinear_arith)
                requires
                    p < pow2(48),
                    pow2(48) <= pow2(64),
                    MANT_LO == pow2(23),
                    (pow2(23) as int) * (pow2(41) as int) == pow2(64);
            lemma_shift_down_upper(p, 41);
            lemma_pow2_strictly_increases(48, 64);
        }
        let e0 = a.e + b.e;
        lemma_norm_carry_value(m0, e0 + s);
        assert(r == norm_carry(m0, e0 + s));
        assert(sval(r) == m0 * pow2((e0 + s + 1000) as nat));
        // Relate the exponent stacks.
        let za = (a.e + 1000) as nat;
        let zb = (b.e + 1000) as nat;
        lemma_pow2_adds(za, zb);
        assert(sval(a) * sval(b) == p * (pow2((za + zb) as nat) as int)) by (nonlinear_arith)
            requires
                sval(a) == a.m * pow2(za),
                sval(b) == b.m * pow2(zb),
                p == a.m * b.m,
                pow2(za) * pow2(zb) == pow2((za + zb) as nat);
        lemma_pow2_adds((e0 + s + 1000) as nat, 1000);
        lemma_pow2_adds(s, (e0 + 2000) as nat);
        assert(za + zb == e0 + 2000);
        assert(sval(r) * (pow2(1000) as int) == m0 * pow2((e0 + s + 2000) as nat)) by (nonlinear_arith)
            requires
                sval(r) == m0 * pow2((e0 + s + 1000) as nat),
                pow2((e0 + s + 1000) as nat) * pow2(1000) == pow2((e0 + s + 2000) as nat);
        assert(sval(r) * (pow2(1000) as int) == (dd * m0) * (pow2((e0 + 2000) as nat) as int)) by (nonlinear_arith)
            requires
                sval(r) * (pow2(1000) as int) == m0 * pow2((e0 + s + 2000) as nat),
                pow2(s) * pow2((e0 + 2000) as nat) == pow2((e0 + s + 2000) as nat),
                dd == pow2(s);
        let zz = pow2((e0 + 2000) as nat) as int;
        lemma_pow2_pos((e0 + 2000) as nat);
        // Multiply the rounding relation through by zz >= 0.
        assert((pow2(24) as int) * (sval(r) * (pow2(1000) as int)) <= (pow2(24) + 1) * (sval(a) * sval(b)))
            by (nonlinear_arith)
            requires
                sval(r) * (pow2(1000) as int) == (dd * m0) * zz,
                sval(a) * sval(b) == p * zz,
                zz >= 0,
                (pow2(24) as int) * (dd * m0) <= (pow2(24) + 1) * p;
        assert((pow2(24) - 1) * (sval(a) * sval(b)) <= (pow2(24) as int) * (sval(r) * (pow2(1000) as int)))
            by (nonlinear_arith)
            requires
                sval(r) * (pow2(1000) as int) == (dd * m0) * zz,
                sval(a) * sval(b) == p * zz,
                zz >= 0,
                (pow2(24) - 1) * p <= (pow2(24) as int) * (dd * m0);
        lemma_sval_sign(r);
    }
}

/// The scaled significand quotient of a division lies in `[2^25, 2^27)`.
proof fn lemma_q0_bounds(a: Fp, b: Fp)
    requires
        fp_wf(a),
        fp_wf(b),
        a.m != 0,
        b.m != 0,
    ensures
        pow2(25) <= ((a.m * pow2(26)) as int) / (b.m as int),
        ((a.m * pow2(26)) as int) / (b.m as int) < pow2(27),
{
    lemma2_to64();
    lemma2_to64_rest();
    lemma_pow2_adds(23, 26);
    lemma_pow2_adds(24, 26);
    lemma_pow2_adds(24, 25);
    lemma_pow2_adds(23, 27);
    let nn = (a.m * pow2(26)) as int;
    let q0 = nn / b.m as int;
    assert(nn >= pow2(49)) by (nonlinear_arith)
        requires
            a.m >= MANT_LO,
            nn == a.m * pow2(26),
            pow2(26) as int >= 0,
            MANT_LO == pow2(23),
            (pow2(23) as int) * (pow2(26) as int) == pow2(49);
    assert(nn < pow2(50)) by (nonlinear_arith)
        requires
            a.m < MANT_HI,
            nn == a.m * pow2(26),
            pow2(26) as int >= 1,
            MANT_HI == pow2(24),
            (pow2(24) as int) * (pow2(26) as int) == pow2(50);
    lemma_fundamental_div_mod(nn, b.m as int);
    lemma_mod_division_less_than_divisor(nn, b.m as int);
    lemma_div_pos_is_pos(nn, b.m as int);
    assert(q0 >= pow2(25)) by {
        assert(nn < (q0 + 1) * b.m) by (nonlinear_arith)
            requires nn == q0 * b.m + nn % (b.m as int) && nn % (b.m as int) < b.m;
        if q0 < pow2(25) {
            assert((q0 + 1) * b.m <= (pow2(25) as int) * (MANT_HI as int)) by (nonlinear_arith)
                requires q0 + 1 <= pow2(25) && b.m <= MANT_HI && b.m >= 0 && pow2(25) as int >= 0;
            assert((pow2(25) as int) * (MANT_HI as int) == pow2(49)) by (nonlinear_arith)
                requires MANT_HI == pow2(24) && (pow2(24) as int) * (pow2(25) as int) == pow2(49);
            assert(false);
        }
    }
    assert(q0 < pow2(27)) by {
        assert(q0 * b.m <= nn);
        if q0 >= pow2(27) {
            assert(q0 * b.m >= (pow2(27) as int) * (MANT_LO as int)) by (nonlinear_arith)
                requires q0 >= pow2(27) && b.m >= MANT_LO && MANT_LO >= 0 && pow2(27) as int >= 0;
            assert((pow2(27) as int) * (MANT_LO as int) == pow2(50)) by (nonlinear_arith)
                requires MANT_LO == pow2(23) && (pow2(23) as int) * (pow2(27) as int) == pow2(50);
            assert(false);
        }
    }
}

/// `binary32` division is within a relative error of 2^-24 of the exact
/// quotient.
pub proof fn lemma_div_value(a: Fp, b: Fp)
    requires
        fp_wf(a),
        fp_wf(b),
        b.m != 0,
        -870 <= a.e - b.e,
        a.e - b.e <= 900,
    ensures
        (pow2(24) as int) * (sval(spec_div(a, b)) * sval(b))
            <= (pow2(24) + 1) * (sval(a) * (pow2(1000) as int)),
        (pow2(24) - 1) * (sval(a) * (pow2(1000) as int))
            <= (pow2(24) as int) * (sval(spec_div(a, b)) * sval(b)),
        sval(spec_div(a, b)) >= 0,
{
    lemma2_to64();
    lemma2_to64_rest();
    lemma_pow2_pos(1000);
    lemma_sval_sign(a);
    lemma_sval_sign(b);
    let r = spec_div(a, b);
    if a.m == 0 {
        assert(sval(r) == 0) by {
            lemma_sval_sign(r);
        }
        assert(sval(r) * sval(b) == 0) by (nonlinear_arith)
            requires sval(r) == 0;
        assert(sval(a) * (pow2(1000) as int) == 0) by (nonlinear_arith)
            requires sval(a) == 0;
    } else {
        let nn = (a.m * pow2(26)) as int;
        let q0 = nn / b.m as int;
        lemma_q0_bounds(a, b);
        let s = shift_down(q0);
        assert(1 < s < 4) by {
            assert((MANT_HI as int) * (pow2(1) as int) <= q0) by (nonlinear_arith)
                requires q0 >= pow2(25) && MANT_HI == pow2(24) && (pow2(24) as int) * (pow2(1) as int) == pow2(25);
            lemma_shift_down_lower(q0, 1);
            assert(q0 < MANT_LO * (pow2(4) as int)) by (nonlinear_arith)
                requires q0 < pow2(27) && MANT_LO == pow2(23) && (pow2(23) as int) * (pow2(4) as int) == pow2(27);
            lemma_shift_down_upper(q0, 4);
            lemma_pow2_adds(24, 1);
            lemma_pow2_adds(23, 4);
        }
        let dd = (b.m * (pow2(s) as int)) as int;
        let m0 = rhe(nn, dd);
        lemma_pow2_pos(s);
        assert(dd >= 1) by (nonlinear_arith)
            requires b.m >= 1 && pow2(s) as int >= 1 && dd == b.m * (pow2(s) as int);
        lemma_rhe_bounds(nn, dd);
        // nn / dd is the normalized quotient q0 / 2^s.
        lemma_div_denominator(nn, b.m as int, pow2(s) as int);
        assert(nn / dd == q0 / (pow2(s) as int));
        lemma_shift_down(q0);
        assert(MANT_LO <= nn / dd < MANT_HI);
        assert(MANT_LO <= m0 <= MANT_HI) by {
            assert(nn / dd <= m0 <= nn / dd + 1);
        }
        // P * dd <= 2 * nn.
        lemma_fundamental_div_mod(nn, dd);
        lemma_mod_division_less_than_divisor(nn, dd);
        assert((pow2(24) as int) * dd <= 2 * nn) by (nonlinear_arith)
            requires
                nn == (nn / dd) * dd + nn % dd,
                nn % dd >= 0,
                nn / dd >= MANT_LO,
                dd >= 1,
                pow2(24) == 2 * MANT_LO;
        // Rounding relation on (nn, dd).
        assert(2 * dd * m0 == 2 * (dd * m0)) by (nonlinear_arith);
        assert((pow2(24) as int) * (2 * (dd * m0)) <= (pow2(24) as int) * (2 * nn + dd)) by (nonlinear_arith)
            requires 2 * (dd * m0) <= 2 * nn + dd && pow2(24) as int >= 1;
        assert((pow2(24) as int) * (2 * nn + dd) <= 2 * ((pow2(24) + 1) * nn)) by (nonlinear_arith)
            requires (pow2(24) as int) * dd <= 2 * nn;
        assert((pow2(24) as int) * (2 * (dd * m0)) == 2 * ((pow2(24) as int) * (dd * m0))) by (nonlinear_arith);
        assert((pow2(24) as int) * (2 * nn - dd) <= (pow2(24) as int) * (2 * (dd * m0))) by (nonlinear_arith)
            requires 2 * nn - dd <= 2 * (dd * m0) && pow2(24) as int >= 1;
        assert(2 * ((pow2(24) - 1) * nn) <= (pow2(24) as int) * (2 * nn - dd)) by (nonlinear_arith)
            requires (pow2(24) as int) * dd <= 2 * nn;
        // Place the exponents.
        let e0 = a.e - b.e - 26 + s;
        lemma_norm_carry_value(m0, e0);
        assert(r == norm_carry(m0, e0));
        assert(sval(r) == m0 * pow2((e0 + 1000) as nat));
        let zz = pow2((a.e + 1974) as nat) as int;
        lemma_pow2_pos((a.e + 1974) as nat);
        // sval(r) * sval(b) == (dd * m0) * zz.
        lemma_pow2_adds((e0 + 1000) as nat, (b.e + 1000) as nat);
        lemma_pow2_adds(s, (a.e + 1974) as nat);
        assert(sval(r) * sval(b) == (dd * m0) * zz) by (nonlinear_arith)
            requires
                sval(r) == m0 * pow2((e0 + 1000) as nat),
                sval(b) == b.m * pow2((b.e + 1000) as nat),
                pow2((e0 + 1000) as nat) * pow2((b.e + 1000) as nat) == pow2((s + a.e + 1974) as nat),
                pow2(s) * pow2((a.e + 1974) as nat) == pow2((s + a.e + 1974) as nat),
                dd == b.m * (pow2(s) as int),
                zz == pow2((a.e + 1974) as nat);
        // sval(a) * pow2(1000) == nn * zz.
        lemma_pow2_adds((a.e + 1000) as nat, 1000);
        lemma_pow2_adds(26, (a.e + 1974) as nat);
        assert(sval(a) * (pow2(1000) as int) == nn * zz) by (nonlinear_arith)
            requires
                sval(a) == a.m * pow2((a.e + 1000) as nat),
                pow2((a.e + 1000) as nat) * pow2(1000) == pow2((a.e + 2000) as nat),
                pow2(26) * pow2((a.e + 1974) as nat) == pow2((a.e + 2000) as nat),
                nn == a.m * pow2(26),
                zz == pow2((a.e + 1974) as nat);
        assert((pow2(24) as int) * (sval(r) * sval(b)) <= (pow2(24) + 1) * (sval(a) * (pow2(1000) as int)))
            by (nonlinear_arith)
            requires
                sval(r) * sval(b) == (dd * m0) * zz,
                sval(a) * (pow2(1000) as int) == nn * zz,
                zz >= 0,
                (pow2(24) as int) * (dd * m0) <= (pow2(24) + 1) * nn;
        assert((pow2(24) - 1) * (sval(a) * (pow2(1000) as int)) <= (pow2(24) as int) * (sval(r) * sval(b)))
            by (nonlinear_arith)
            requires
                sval(r) * sval(b) == (dd * m0) * zz,
                sval(a) * (pow2(1000) as int) == nn * zz,
                zz >= 0,
                (pow2(24) - 1) * nn <= (pow2(24) as int) * (dd * m0);
        lemma_sval_sign(r);
    }
}


/// The rounded quotient of well-formed values is well formed, with the
/// exponents subtracting (to within the scaling and normalization shifts).
pub proof fn lemma_div_wf(a: Fp, b: Fp)
    requires
        fp_wf(a),
        fp_wf(b),
        b.m != 0,
        -870 <= a.e - b.e,
        a.e - b.e <= 900,
    ensures
        fp_wf(spec_div(a, b)),
        (spec_div(a, b).m == 0) == (a.m == 0),
        spec_div(a, b).m != 0 ==> a.e - b.e - 24 <= spec_div(a, b).e <= a.e - b.e - 22,
{
    lemma2_to64();
    lemma2_to64_rest();
    if a.m == 0 {
    } else {
        let nn = (a.m * pow2(26)) as int;
        let q0 = nn / b.m as int;
        lemma_q0_bounds(a, b);
        let s = shift_down(q0);
        assert(1 < s < 4) by {
            assert((MANT_HI as int) * (pow2(1) as int) <= q0) by (nonlinear_arith)
                requires q0 >= pow2(25) && MANT_HI == pow2(24) && (pow2(24) as int) * (pow2(1) as int) == pow2(25);
            lemma_shift_down_lower(q0, 1);
            assert(q0 < MANT_LO * (pow2(4) as int)) by (nonlinear_arith)
                requires q0 < pow2(27) && MANT_LO == pow2(23) && (pow2(23) as int) * (pow2(4) as int) == pow2(27);
            lemma_shift_down_upper(q0, 4);
            lemma_pow2_adds(24, 1);
            lemma_pow2_adds(23, 4);
        }
        let dd = (b.m * (pow2(s) as int)) as int;
        lemma_pow2_pos(s);
        assert(dd >= 1) by (nonlinear_arith)
            requires b.m >= 1 && pow2(s) as int >= 1 && dd == b.m * (pow2(s) as int);
        lemma_rhe_bounds(nn, dd);
        lemma_div_denominator(nn, b.m as int, pow2(s) as int);
        assert(nn / dd == q0 / (pow2(s) as int));
        lemma_shift_down(q0);
        let m0 = rhe(nn, dd);
        assert(MANT_LO <= m0 <= MANT_HI) by {
            assert(nn / dd <= m0 <= nn / dd + 1);
        }
        lemma_norm_carry_value(m0, a.e - b.e - 26 + s);
    }
}

/// Exact division by a power of two: an exponent shift, the same exactness
/// `binary32` division by a representable power of two has.
pub fn fp_div_pow2(a: Fp, k: u32) -> (r: Fp)
    requires
        fp_wf(a),
        k <= 100,
        a.m != 0 ==> a.e - k >= -1000,
    ensures
        fp_wf(r),
        r == spec_div_pow2(a, k as int),
        r.m == a.m,
        a.m != 0 ==> r.e == a.e - k,
        a.m == 0 ==> r == a,
        sval(r) * (pow2(k as nat) as int) == sval(a),
{
    proof {
        lemma_pow2_pos(k as nat);
        if a.m == 0 {
            assert(sval(a) == 0) by (nonlinear_arith)
                requires a.m == 0 && sval(a) == a.m * pow2((a.e + 1000) as nat);
            assert(sval(a) * (pow2(k as nat) as int) == 0) by (nonlinear_arith)
                requires sval(a) == 0;
        } else {
            lemma_pow2_adds((a.e - k + 1000) as nat, k as nat);
            assert((a.m * pow2((a.e - k + 1000) as nat)) * (pow2(k as nat) as int)
                == a.m * pow2((a.e + 1000) as nat)) by (nonlinear_arith)
                requires pow2((a.e - k + 1000) as nat) * pow2(k as nat) == pow2((a.e + 1000) as nat);
        }
    }
    if a.m == 0 {
        a
    } else {
        Fp { m: a.m, e: a.e - k as i32 }
    }
}

/// Reconstruct a value from the bit pattern of a nonnegative, finite,
/// normal `binary32` number: sign bit clear, biased exponent in `[1, 254]`.
pub fn fp_from_bits(bits: u32) -> (r: Fp)
    requires
        bits < 0x8000_0000,
        0x80_0000 <= bits % 0x8000_0000,
        bits / 0x80_0000 <= 254,
    ensures
        fp_wf(r),
        r.m == 0x80_0000 + bits % 0x80_0000,
        r.e == bits as int / 0x80_0000 - 150,
        r.m != 0,
{
    let mant = bits % 0x80_0000;
    let exp_field = bits / 0x80_0000;
    proof {
        assert(exp_field >= 1);
    }
    Fp { m: (MANT_LO + mant as u64), e: exp_field as i32 - 150 }
}



/// The rounded value of a 64-bit integer is well formed, with the
/// exponent range the magnitude dictates.
pub proof fn lemma_from_u64_wf(n: u64)
    ensures
        fp_wf(spec_from_u64(n)),
        (spec_from_u64(n).m == 0) == (n == 0),
        n != 0 ==> -23 <= spec_from_u64(n).e <= 41,
{
    lemma2_to64();
    lemma2_to64_rest();
    let r = spec_from_u64(n);
    if n == 0 {
    } else if n < MANT_LO {
        lemma_shift_up_value(n as int);
    } else {
        let s = shift_down(n as int);
        lemma_shift_down(n as int);
        lemma_pow2_pos(s);
        lemma_rhe_bounds(n as int, pow2(s) as int);
        assert(s <= 40) by {
            if s > 40 {
                if s > 41 {
                    lemma_pow2_strictly_increases(41, s);
                }
                lemma_pow2_adds(23, 41);
                assert(MANT_LO * (pow2(s) as int) >= MANT_LO * (pow2(41) as int)) by (nonlinear_arith)
                    requires pow2(s) >= pow2(41) && MANT_LO >= 0;
                assert(MANT_LO * (pow2(41) as int) == pow2(64)) by (nonlinear_arith)
                    requires MANT_LO == pow2(23) && (pow2(23) as int) * (pow2(41) as int) == pow2(64);
                assert(false);
            }
        }
        let m0 = rhe(n as int, pow2(s) as int);
        assert(MANT_LO <= m0 <= MANT_HI) by {
            assert(n as int / (pow2(s) as int) <= m0 <= n as int / (pow2(s) as int) + 1);
        }
        lemma_norm_carry_value(m0, s as int);
    }
}

/// The rounded product of well-formed values is well formed, with the
/// exponents adding up (to within the normalization shift).
pub proof fn lemma_mul_wf(a: Fp, b: Fp)
    requires
        fp_wf(a),
        fp_wf(b),
        -900 <= a.e + b.e,
        a.e + b.e <= 870,
    ensures
        fp_wf(spec_mul(a, b)),
        (spec_mul(a, b).m == 0) == (a.m == 0 || b.m == 0),
        spec_mul(a, b).m != 0 ==> a.e + b.e + 23 <= spec_mul(a, b).e <= a.e + b.e + 25,
{
    lemma2_to64();
    lemma2_to64_rest();
    if a.m == 0 || b.m == 0 {
    } else {
        let p = a.m * b.m;
        lemma_pow2_adds(24, 24);
        assert(MANT_LO <= p < pow2(48)) by (nonlinear_arith)
            requires
                p == a.m * b.m,
                MANT_LO <= a.m < MANT_HI,
                MANT_LO <= b.m < MANT_HI,
                MANT_HI == pow2(24),
                (pow2(24) as int) * (pow2(24) as int) == pow2(48);
        let s = shift_down(p as int);
        lemma_pow2_adds(23, 25);
        lemma_pow2_adds(24, 22);
        assert(p < MANT_LO * (pow2(25) as int)) by (nonlinear_arith)
            requires p < pow2(48) && MANT_LO == pow2(23) && (pow2(23) as int) * (pow2(25) as int) == pow2(48);
        lemma_shift_down_upper(p as int, 25);
        assert(pow2(46) <= p) by {
            lemma_pow2_adds(23, 23);
            assert(MANT_LO * (MANT_LO as int) == pow2(46)) by (nonlinear_arith)
                requires MANT_LO == pow2(23) && (pow2(23) as int) * (pow2(23) as int) == pow2(46);
            assert(p >= MANT_LO * (MANT_LO as int)) by (nonlinear_arith)
                requires p == a.m * b.m && a.m >= MANT_LO && b.m >= MANT_LO && MANT_LO >= 0;
        }
        assert((MANT_HI as int) * (pow2(22) as int) <= p) by (nonlinear_arith)
            requires pow2(46) <= p && MANT_HI == pow2(24) && (pow2(24) as int) * (pow2(22) as int) == pow2(46);
        lemma_shift_down_lower(p as int, 22);
        lemma_shift_down(p as int);
        lemma_pow2_pos(s);
        lemma_rhe_bounds(p as int, pow2(s) as int);
        let m0 = rhe(p as int, pow2(s) as int);
        assert(MANT_LO <= m0 <= MANT_HI) by {
            assert(p as int / (pow2(s) as int) <= m0 <= p as int / (pow2(s) as int) + 1);
        }
        lemma_norm_carry_value(m0, a.e + b.e + s);
    }
}

/// Exponent shift as a specification value.
pub open spec fn spec_div_pow2(a: Fp, k: int) -> Fp {
    if a.m == 0 {
        a
    } else {
        Fp { m: a.m, e: (a.e - k) as i32 }
    }
}

/// A value below `2^j` has an exponent at most `j - 24`.
pub proof fn lemma_e_upper(a: Fp, j: int)
    requires
        fp_wf(a),
        a.m != 0,
        0 <= j + 1000,
        sval(a) < pow2((j + 1000) as nat),
    ensures
        a.e <= j - 24,
{
    lemma2_to64();
    lemma2_to64_rest();
    lemma_pow2_adds(23, (a.e + 1000) as nat);
    assert(pow2((a.e + 1023) as nat) <= sval(a)) by (nonlinear_arith)
        requires
            sval(a) == a.m * pow2((a.e + 1000) as nat),
            a.m >= MANT_LO,
            MANT_LO == pow2(23),
            pow2((a.e + 1023) as nat) == (pow2(23) as int) * (pow2((a.e + 1000) as nat) as int),
            pow2((a.e + 1000) as nat) >= 0,
    ;
    assert(MANT_LO == pow2(23)) by {
        lemma2_to64();
        lemma2_to64_rest();
    }
    lemma_pow2_pos((a.e + 1000) as nat);
    if a.e + 1023 >= j + 1000 {
        if a.e + 1023 > j + 1000 {
            lemma_pow2_strictly_increases((j + 1000) as nat, (a.e + 1023) as nat);
        }
        assert(false);
    }
}


/// A value of at least `2^j` has an exponent of at least `j - 23`.
pub proof fn lemma_e_lower(a: Fp, j: int)
    requires
        fp_wf(a),
        a.m != 0,
        0 <= j + 1000,
        pow2((j + 1000) as nat) <= sval(a),
    ensures
        a.e >= j - 23,
{
    lemma2_to64();
    lemma2_to64_rest();
    lemma_pow2_adds(24, (a.e + 1000) as nat);
    lemma_pow2_pos((a.e + 1000) as nat);
    assert(sval(a) < pow2((a.e + 1024) as nat)) by (nonlinear_arith)
        requires
            sval(a) == a.m * pow2((a.e + 1000) as nat),
            a.m < MANT_HI,
            MANT_HI == pow2(24),
            pow2((a.e + 1024) as nat) == (pow2(24) as int) * (pow2((a.e + 1000) as nat) as int),
            pow2((a.e + 1000) as nat) >= 1,
    ;
    if a.e + 1024 <= j + 1000 {
        if a.e + 1024 < j + 1000 {
            lemma_pow2_strictly_increases((a.e + 1024) as nat, (j + 1000) as nat);
        }
        assert(false);
    }
}

/// If `a` is at most `c` times `b`, the rounded quotient is at most a
/// whisker above `c`.
pub proof fn lemma_div_ratio(a: Fp, b: Fp, c: int)
    requires
        fp_wf(a),
        fp_wf(b),
        b.m != 0,
        -870 <= a.e - b.e,
        a.e - b.e <= 900,
        c >= 1,
        sval(a) <= c * sval(b),
    ensures
        (pow2(24) as int) * sval(spec_div(a, b)) <= (pow2(24) + 1) * (c * (pow2(1000) as int)),
{
    lemma2_to64();
    lemma2_to64_rest();
    lemma_div_value(a, b);
    lemma_sval_sign(b);
    lemma_pow2_pos((b.e + 1000) as nat);
    lemma_pow2_pos(1000);
    lemma_pow2_pos(24);
    let p24 = pow2(24) as int;
    let big = pow2(1000) as int;
    let qq = sval(spec_div(a, b));
    let bb = sval(b);
    assert(bb >= 1);
    // p24 * (qq * bb) <= (p24 + 1) * (sval(a) * big) <= (p24 + 1) * ((c * bb) * big)
    assert((pow2(24) + 1) * (sval(a) * big) <= (pow2(24) + 1) * ((c * bb) * big)) by (nonlinear_arith)
        requires sval(a) <= c * bb && big >= 0 && pow2(24) as int >= 1;
    assert((p24 * qq) * bb <= ((pow2(24) + 1) * (c * big)) * bb) by (nonlinear_arith)
        requires
            p24 * (qq * bb) <= (pow2(24) + 1) * ((c * bb) * big),
            p24 == pow2(24),
            bb >= 1;
    lemma_mul_inequality_converse(p24 * qq, (pow2(24) + 1) * (c * big), bb);
}


} // verus!
