//! Human-readable magnitude formatting with binary or SI decimal prefixes.
//!
//! The displayed quotients reproduce single-precision arithmetic exactly
//! (see `fp`), so boundary values may show as slightly exceeding the next
//! threshold; that is accepted display behavior.

use vstd::prelude::*;
use vstd::string::StringExecFns;
use crate::fp::{Fp, fp_wf, sval, spec_from_u64, fp_from_u64, spec_div, fp_div, spec_div_pow2, fp_div_pow2, spec_tenths, fp_tenths, lemma_from_u64_value, lemma_div_ratio, lemma_e_upper};
use crate::text::{dec_digits, digit_char, u64_to_dec, u128_to_dec};
use vstd::arithmetic::power2::{pow2, lemma_pow2_pos, lemma2_to64, lemma2_to64_rest, lemma_pow2_adds};

verus! {

/// One binary kilo: 2^10.
pub const KIB: u64 = 0x400;

/// One binary mega: 2^20.
pub const MIB: u64 = 0x10_0000;

/// One binary giga: 2^30.
pub const GIB: u64 = 0x4000_0000;

/// One binary tera: 2^40.
pub const TIB: u64 = 0x100_0000_0000;

/// One decimal kilo.
pub const KSI: u64 = 1000;

/// One decimal mega.
pub const MSI: u64 = 1000_000;

/// One decimal giga.
pub const GSI: u64 = 1000_000_000;

/// One decimal tera.
pub const TSI: u64 = 1000_000_000_000;

/// A value rendered with one decimal place: integer digits, a point, and
/// the rounded tenths digit.
pub open spec fn spec_fmt_tenths(v: Fp) -> Seq<char> {
    let t = spec_tenths(v);
    dec_digits(t / 10) + seq!['.', digit_char(t % 10)]
}

/// A count formatted with binary prefixes: the largest of T/G/M/K whose
/// factor the value reaches, one decimal place, a space and the unit;
/// below 1024 the plain integer.
pub open spec fn spec_format_kmgt(val: u64, unit: Seq<char>) -> Seq<char> {
    let v = spec_from_u64(val);
    if val >= TIB {
        spec_fmt_tenths(spec_div_pow2(v, 40)) + seq![' ', 'T'] + unit
    } else if val >= GIB {
        spec_fmt_tenths(spec_div_pow2(v, 30)) + seq![' ', 'G'] + unit
    } else if val >= MIB {
        spec_fmt_tenths(spec_div_pow2(v, 20)) + seq![' ', 'M'] + unit
    } else if val >= KIB {
        spec_fmt_tenths(spec_div_pow2(v, 10)) + seq![' ', 'K'] + unit
    } else {
        dec_digits(val as int) + seq![' '] + unit
    }
}

/// A count formatted with SI decimal prefixes: T/G/M and lowercase k,
/// one decimal place; below 1000 the plain integer.
pub open spec fn spec_format_kmgt_si(val: u64, unit: Seq<char>) -> Seq<char> {
    let v = spec_from_u64(val);
    if val >= TSI {
        spec_fmt_tenths(spec_div(v, spec_from_u64(TSI))) + seq![' ', 'T'] + unit
    } else if val >= GSI {
        spec_fmt_tenths(spec_div(v, spec_from_u64(GSI))) + seq![' ', 'G'] + unit
    } else if val >= MSI {
        spec_fmt_tenths(spec_div(v, spec_from_u64(MSI))) + seq![' ', 'M'] + unit
    } else if val >= KSI {
        spec_fmt_tenths(spec_div(v, spec_from_u64(KSI))) + seq![' ', 'k'] + unit
    } else {
        dec_digits(val as int) + seq![' '] + unit
    }
}

/// Render a value with one decimal place.
pub fn fmt_tenths(v: Fp) -> (s: String)
    requires
        fp_wf(v),
        v.e <= 90,
    ensures
        s@ == spec_fmt_tenths(v),
{
    let t = fp_tenths(v);
    let mut s = u128_to_dec(t / 10);
    s.append(".");
    let d = u128_to_dec((t % 10) as u128);
    s.append(d.as_str());
    proof {
        reveal_strlit(".");
        assert(dec_digits((t % 10) as int) =~= seq![digit_char((t % 10) as int)]);
        assert(s@ =~= spec_fmt_tenths(v));
    }
    s
}

/// The quotient of a value by an SI divisor of at least 1000 keeps its
/// exponent small enough for tenths formatting.
proof fn lemma_si_quot_exp(v: Fp, b: Fp, q: Fp, val: u64, den: u64)
    requires
        v == spec_from_u64(val),
        b == spec_from_u64(den),
        q == spec_div(v, b),
        fp_wf(v),
        fp_wf(b),
        fp_wf(q),
        -23 <= v.e <= 41,
        -23 <= b.e <= 41,
        den >= 1000,
    ensures
        q.e <= 34,
{
    lemma2_to64();
    lemma2_to64_rest();
    lemma_pow2_pos(1000);
    let p24 = pow2(24) as int;
    let big = pow2(1000) as int;
    if q.m == 0 {
        assert(q.e == 0);
    } else {
        lemma_from_u64_value(val);
        lemma_from_u64_value(den);
        // sval(v) <= 2^65 * big
        assert(p24 * sval(v) <= (p24 + 1) * (val * big));
        assert((p24 + 1) * (val * big) <= p24 * (2 * ((pow2(64) as int) * big))) by (nonlinear_arith)
            requires val < pow2(64) && big >= 1 && p24 >= 2 && val >= 0;
        assert(sval(v) <= 2 * ((pow2(64) as int) * big));
        // sval(b) >= 2^8 * big
        assert((p24 - 1) * (den * big) <= p24 * sval(b));
        assert(p24 * ((pow2(8) as int) * big) <= (p24 - 1) * (den * big)) by (nonlinear_arith)
            requires den >= 1000 && big >= 1 && p24 >= 1000 && pow2(8) == 256;
        assert(sval(b) >= (pow2(8) as int) * big);
        // so sval(v) <= 2^57 * sval(b)
        lemma_pow2_adds(57, 8);
        assert(sval(v) <= (pow2(57) as int) * sval(b)) by (nonlinear_arith)
            requires
                sval(v) <= 2 * ((pow2(64) as int) * big),
                sval(b) >= (pow2(8) as int) * big,
                (pow2(57) as int) * (pow2(8) as int) == pow2(65),
                pow2(65) == 2 * pow2(64),
                big >= 1,
                pow2(57) as int >= 1;
        lemma_div_ratio(v, b, pow2(57) as int);
        // sval(q) < 2^58 * big
        lemma_pow2_adds(58, 1000);
        assert(sval(q) < pow2(1058)) by (nonlinear_arith)
            requires
                p24 * sval(q) <= (p24 + 1) * ((pow2(57) as int) * big),
                p24 >= 2,
                big >= 1,
                pow2(57) as int >= 1,
                pow2(1058) == (pow2(58) as int) * big,
                pow2(58) == 2 * pow2(57);
        lemma_e_upper(q, 58);
    }
}

/// Prefix monotonicity at the factor boundaries: a count below a prefix
/// factor keeps the smaller prefix, and from the factor on the larger one
/// starts — with uppercase K for the binary kilo and lowercase k for the
/// SI kilo.
pub proof fn lemma_format_boundaries(val: u64, unit: Seq<char>)
    ensures
        val < KIB ==> spec_format_kmgt(val, unit) == dec_digits(val as int) + seq![' '] + unit,
        KIB <= val < MIB ==> spec_format_kmgt(val, unit) == spec_fmt_tenths(
            spec_div_pow2(spec_from_u64(val), 10),
        ) + seq![' ', 'K'] + unit,
        MIB <= val < GIB ==> spec_format_kmgt(val, unit) == spec_fmt_tenths(
            spec_div_pow2(spec_from_u64(val), 20),
        ) + seq![' ', 'M'] + unit,
        GIB <= val < TIB ==> spec_format_kmgt(val, unit) == spec_fmt_tenths(
            spec_div_pow2(spec_from_u64(val), 30),
        ) + seq![' ', 'G'] + unit,
        TIB <= val ==> spec_format_kmgt(val, unit) == spec_fmt_tenths(
            spec_div_pow2(spec_from_u64(val), 40),
        ) + seq![' ', 'T'] + unit,
        val < KSI ==> spec_format_kmgt_si(val, unit) == dec_digits(val as int) + seq![' '] + unit,
        KSI <= val < MSI ==> spec_format_kmgt_si(val, unit) == spec_fmt_tenths(
            spec_div(spec_from_u64(val), spec_from_u64(KSI)),
        ) + seq![' ', 'k'] + unit,
{
}

/// Format a count with binary prefixes and the given unit.
pub fn format_kmgt(val: u64, unit: &str) -> (r: String)
    ensures
        r@ == spec_format_kmgt(val, unit@),
{
    let v = fp_from_u64(val);
    proof {
        reveal_strlit(" T");
        reveal_strlit(" G");
        reveal_strlit(" M");
        reveal_strlit(" K");
        reveal_strlit(" ");
    }
    if val >= TIB {
        let mut s = fmt_tenths(fp_div_pow2(v, 40));
        s.append(" T");
        s.append(unit);
        proof {
            assert(" T"@ =~= seq![' ', 'T']);
        }
        s
    } else if val >= GIB {
        let mut s = fmt_tenths(fp_div_pow2(v, 30));
        s.append(" G");
        s.append(unit);
        proof {
            assert(" G"@ =~= seq![' ', 'G']);
        }
        s
    } else if val >= MIB {
        let mut s = fmt_tenths(fp_div_pow2(v, 20));
        s.append(" M");
        s.append(unit);
        proof {
            assert(" M"@ =~= seq![' ', 'M']);
        }
        s
    } else if val >= KIB {
        let mut s = fmt_tenths(fp_div_pow2(v, 10));
        s.append(" K");
        s.append(unit);
        proof {
            assert(" K"@ =~= seq![' ', 'K']);
        }
        s
    } else {
        let mut s = u64_to_dec(val);
        s.append(" ");
        s.append(unit);
        proof {
            assert(" "@ =~= seq![' ']);
        }
        s
    }
}

/// Format a count with SI decimal prefixes and the given unit.
pub fn format_kmgt_si(val: u64, unit: &str) -> (r: String)
    ensures
        r@ == spec_format_kmgt_si(val, unit@),
{
    let v = fp_from_u64(val);
    proof {
        reveal_strlit(" T");
        reveal_strlit(" G");
        reveal_strlit(" M");
        reveal_strlit(" k");
        reveal_strlit(" ");
    }
    if val >= TSI {
        let b = fp_from_u64(TSI);
        let q = fp_div(v, b);
        proof {
            lemma_si_quot_exp(v, b, q, val, TSI);
        }
        let mut s = fmt_tenths(q);
        s.append(" T");
        s.append(unit);
        proof {
            assert(" T"@ =~= seq![' ', 'T']);
        }
        s
    } else if val >= GSI {
        let b = fp_from_u64(GSI);
        let q = fp_div(v, b);
        proof {
            lemma_si_quot_exp(v, b, q, val, GSI);
        }
        let mut s = fmt_tenths(q);
        s.append(" G");
        s.append(unit);
        proof {
            assert(" G"@ =~= seq![' ', 'G']);
        }
        s
    } else if val >= MSI {
        let b = fp_from_u64(MSI);
        let q = fp_div(v, b);
        proof {
            lemma_si_quot_exp(v, b, q, val, MSI);
        }
        let mut s = fmt_tenths(q);
        s.append(" M");
        s.append(unit);
        proof {
            assert(" M"@ =~= seq![' ', 'M']);
        }
        s
    } else if val >= KSI {
        let b = fp_from_u64(KSI);
        let q = fp_div(v, b);
        proof {
            lemma_si_quot_exp(v, b, q, val, KSI);
        }
        let mut s = fmt_tenths(q);
        s.append(" k");
        s.append(unit);
        proof {
            assert(" k"@ =~= seq![' ', 'k']);
        }
        s
    } else {
        let mut s = u64_to_dec(val);
        s.append(" ");
        s.append(unit);
        proof {
            assert(" "@ =~= seq![' ']);
        }
        s
    }
}

} // verus!
