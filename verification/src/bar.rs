//! Proportional text bars: largest-remainder width allocation, greedy
//! label fitting with centered padding, and styled assembly between
//! border glyphs.

use vstd::prelude::*;
use vstd::string::StrSliceExecFns;
use vstd::string::StringExecFns;
use crate::fp::{Fp, fp_wf, sval, spec_from_u64, fp_from_u64, spec_mul, fp_mul, spec_div, fp_div, spec_trunc, fp_trunc, fp_sub_floor, fp_le, lemma_trunc_bounds, lemma_e_upper, lemma_e_lower, lemma_from_u64_value, lemma_sval_sign, lemma_mul_value, lemma_div_value, lemma_div_ratio, lemma_from_u64_wf, lemma_mul_wf, lemma_div_wf};
use crate::style::{Style, spec_paint, paint};
use crate::text::{char_run, repeat_char};
use vstd::arithmetic::power2::{pow2, lemma_pow2_pos, lemma2_to64, lemma2_to64_rest, lemma_pow2_adds};
use vstd::arithmetic::mul::{lemma_mul_inequality, lemma_mul_inequality_converse};

verus! {

/// One weighted, labeled segment of a proportional bar.
pub struct BarPart {
    /// Label pieces from shortest to most detailed; the rendered label is
    /// the longest prefix concatenation that fits the allotted width.
    pub labels: Vec<String>,
    /// Percentage of the bar interior this part should occupy (0 to 100).
    pub share: Fp,
    /// Character used to pad around the centered label.
    pub fill_glyph: char,
    /// Style applied to the label text.
    pub text_style: Style,
    /// Style applied to the fill padding.
    pub fill_style: Style,
}

/// The mathematical content of a bar part.
pub ghost struct BarPartView {
    /// Label pieces as character sequences.
    pub labels: Seq<Seq<char>>,
    /// The part's share of the bar interior.
    pub share: Fp,
    /// Padding character.
    pub fill_glyph: char,
    /// Label style.
    pub text_style: Style,
    /// Padding style.
    pub fill_style: Style,
}

impl View for BarPart {
    type V = BarPartView;

    open spec fn view(&self) -> BarPartView {
        BarPartView {
            labels: self.labels.deep_view(),
            share: self.share,
            fill_glyph: self.fill_glyph,
            text_style: self.text_style,
            fill_style: self.fill_style,
        }
    }
}

impl DeepView for BarPart {
    type V = BarPartView;

    open spec fn deep_view(&self) -> BarPartView {
        self.view()
    }
}

/// A well-formed share: a value of at most roughly 100 (so its exponent
/// is at most -17), no smaller than normal `binary32` values allow.
pub open spec fn share_wf(s: Fp) -> bool {
    fp_wf(s) && (s.m == 0 || (-150 <= s.e && s.e <= -17))
}

/// The ideal (fractional) width of one share out of `cells` cells, as the
/// emulated single-precision value `cells * share / 100`.
pub open spec fn spec_ideal(share: Fp, cells: u64) -> Fp {
    spec_div(spec_mul(spec_from_u64(cells), share), spec_from_u64(100))
}

/// Sum of a sequence of integers.
pub open spec fn seq_sum(s: Seq<int>) -> int
    decreases s.len(),
{
    if s.len() == 0 {
        0
    } else {
        seq_sum(s.drop_last()) + s.last()
    }
}

/// Incrementing one element increments the sum.
pub proof fn lemma_seq_sum_update(s: Seq<int>, j: int, d: int)
    requires
        0 <= j < s.len(),
    ensures
        seq_sum(s.update(j, s[j] + d)) == seq_sum(s) + d,
    decreases s.len(),
{
    let t = s.update(j, s[j] + d);
    if j == s.len() - 1 {
        assert(t.drop_last() =~= s.drop_last());
        assert(t.last() == s.last() + d);
    } else {
        assert(t.drop_last() =~= s.drop_last().update(j, s[j] + d));
        assert(t.last() == s.last());
        lemma_seq_sum_update(s.drop_last(), j, d);
    }
}

/// A nonnegative sequence has a nonnegative sum, at most its length times
/// any common bound.
pub proof fn lemma_seq_sum_bounds(s: Seq<int>, b: int)
    requires
        forall|i: int| 0 <= i < s.len() ==> 0 <= #[trigger] s[i] <= b,
    ensures
        0 <= seq_sum(s),
        seq_sum(s) <= s.len() * b,
    decreases s.len(),
{
    if s.len() == 0 {
    } else {
        lemma_seq_sum_bounds(s.drop_last(), b);
        assert((s.len() - 1) * b + b == s.len() as int * b) by (nonlinear_arith);
    }
}

/// The remainder a part still deserves: its ideal width minus its current
/// integer width, clamped at zero (scaled by `2^FP_SCALE`).
pub open spec fn spec_frac(ideal: Fp, len: int) -> int {
    if sval(ideal) <= len * pow2(1000) {
        0
    } else {
        sval(ideal) - len * pow2(1000)
    }
}

/// Index of the first maximum of a nonempty sequence.
pub open spec fn first_max(s: Seq<int>) -> int
    recommends
        s.len() > 0,
    decreases s.len(),
{
    if s.len() <= 1 {
        0
    } else {
        let j = first_max(s.drop_last());
        if s.last() > s[j] {
            s.len() - 1
        } else {
            j
        }
    }
}

/// `first_max` names the earliest index attaining the maximum.
pub proof fn lemma_first_max(s: Seq<int>)
    requires
        s.len() > 0,
    ensures
        0 <= first_max(s) < s.len(),
        forall|i: int| 0 <= i < s.len() ==> #[trigger] s[i] <= s[first_max(s)],
        forall|i: int| 0 <= i < first_max(s) ==> #[trigger] s[i] < s[first_max(s)],
    decreases s.len(),
{
    if s.len() > 1 {
        lemma_first_max(s.drop_last());
        assert(forall|i: int| 0 <= i < s.len() - 1 ==> s.drop_last()[i] == #[trigger] s[i]);
    }
}

/// Hand out `steps` single cells, each to the part with the largest
/// remainder, the earliest such part on ties.
pub open spec fn spec_fill_n(ideals: Seq<Fp>, lens: Seq<int>, steps: nat) -> Seq<int>
    recommends
        ideals.len() == lens.len(),
        lens.len() > 0,
    decreases steps,
{
    if steps == 0 || lens.len() == 0 {
        lens
    } else {
        let fracs = Seq::new(lens.len(), |i: int| spec_frac(ideals[i], lens[i]));
        let j = first_max(fracs);
        spec_fill_n(ideals, lens.update(j, lens[j] + 1), (steps - 1) as nat)
    }
}

/// Filling `steps` cells grows the total width by exactly `steps`.
pub proof fn lemma_fill_n_sum(ideals: Seq<Fp>, lens: Seq<int>, steps: nat)
    requires
        ideals.len() == lens.len(),
        lens.len() > 0,
    ensures
        seq_sum(spec_fill_n(ideals, lens, steps)) == seq_sum(lens) + steps,
    decreases steps,
{
    if steps > 0 {
        let fracs = Seq::new(lens.len(), |i: int| spec_frac(ideals[i], lens[i]));
        let j = first_max(fracs);
        lemma_first_max(fracs);
        lemma_seq_sum_update(lens, j, 1);
        lemma_fill_n_sum(ideals, lens.update(j, lens[j] + 1), (steps - 1) as nat);
    }
}

/// The ideal widths of all shares.
pub open spec fn spec_ideals(shares: Seq<Fp>, cells: u64) -> Seq<Fp> {
    Seq::new(shares.len(), |i: int| spec_ideal(shares[i], cells))
}

/// The floored provisional widths of all shares.
pub open spec fn spec_floors(shares: Seq<Fp>, cells: u64) -> Seq<int> {
    Seq::new(shares.len(), |i: int| spec_trunc(spec_ideal(shares[i], cells)))
}

/// Largest-remainder apportionment: floor every ideal width, then hand the
/// missing cells one by one to the part with the largest remainder, the
/// earliest part winning ties.
pub open spec fn spec_allocate(shares: Seq<Fp>, cells: u64) -> Seq<int> {
    let ideals = spec_ideals(shares, cells);
    let floors = spec_floors(shares, cells);
    let deficit = cells - seq_sum(floors);
    if deficit > 0 && shares.len() > 0 {
        spec_fill_n(ideals, floors, deficit as nat)
    } else {
        floors
    }
}

/// Widths as mathematical integers.
pub open spec fn lens_view(s: Seq<usize>) -> Seq<int> {
    Seq::new(s.len(), |i: int| s[i] as int)
}

/// Width conservation: whenever the floored ideals do not already overrun
/// the target (shares summing to at most 100 guarantee that), the
/// allocated widths sum to exactly the target.
pub proof fn lemma_allocate_width_conservation(shares: Seq<Fp>, cells: u64)
    requires
        shares.len() > 0,
        cells >= shares.len(),
        seq_sum(spec_floors(shares, cells)) <= cells,
    ensures
        seq_sum(spec_allocate(shares, cells)) == cells,
{
    let floors = spec_floors(shares, cells);
    let deficit = cells - seq_sum(floors);
    if deficit > 0 {
        lemma_fill_n_sum(spec_ideals(shares, cells), floors, deficit as nat);
    }
}

/// Compute the ideal width of one share.
fn ideal_width(share: Fp, cells: u64, cfp: Fp, hfp: Fp) -> (r: Fp)
    requires
        share_wf(share),
        cells <= 0x1_0000,
        cfp == spec_from_u64(cells),
        hfp == spec_from_u64(100),
        fp_wf(cfp),
        fp_wf(hfp),
        -23 <= cfp.e <= 41,
        -23 <= hfp.e <= 41,
    ensures
        r == spec_ideal(share, cells),
        fp_wf(r),
        r.m != 0 ==> -900 <= r.e <= -3,
{
    proof {
        lemma2_to64();
        lemma2_to64_rest();
        lemma_pow2_pos(1000);
        lemma_from_u64_value(cells);
        lemma_from_u64_value(100);
        // cells is at most 2^16, so its exponent is at most -6.
        if cfp.m != 0 {
            lemma_pow2_adds(18, 1000);
            assert(sval(cfp) < pow2(1018)) by (nonlinear_arith)
                requires
                    (pow2(24) as int) * sval(cfp) <= (pow2(24) + 1) * ((cells as int) * (pow2(1000) as int)),
                    cells <= 0x1_0000,
                    pow2(24) as int >= 2,
                    pow2(1000) as int >= 1,
                    pow2(1018) == 0x4_0000 * (pow2(1000) as int);
            lemma_e_upper(cfp, 18);
        }
        // 100 sits exactly at exponent -17.
        assert(sval(hfp) == 100 * (pow2(1000) as int));
        lemma_pow2_adds(7, 1000);
        assert(sval(hfp) < pow2(1007)) by (nonlinear_arith)
            requires
                sval(hfp) == 100 * (pow2(1000) as int),
                pow2(1000) as int >= 1,
                pow2(1007) == 128 * (pow2(1000) as int);
        lemma_e_upper(hfp, 7);
        assert(hfp.m != 0);
        lemma_pow2_adds(6, 1000);
        assert(pow2(1006) <= sval(hfp)) by (nonlinear_arith)
            requires
                sval(hfp) == 100 * (pow2(1000) as int),
                pow2(1000) as int >= 1,
                pow2(1006) == 64 * (pow2(1000) as int);
        lemma_e_lower(hfp, 6);
    }
    let m = fp_mul(cfp, share);
    let r = fp_div(m, hfp);
    r
}

/// Allocate integer widths to weighted parts so they exactly fill the
/// available cells: floors of the ideal widths, then largest remainders,
/// earliest part first on ties.
pub fn allocate(shares: &Vec<Fp>, cells: usize) -> (r: Vec<usize>)
    requires
        cells <= 0x1_0000,
        forall|i: int| 0 <= i < shares@.len() ==> share_wf(#[trigger] shares@[i]),
    ensures
        r@.len() == shares@.len(),
        lens_view(r@) == spec_allocate(shares@, cells as u64),
        forall|i: int| 0 <= i < r@.len() ==> #[trigger] r@[i] < 0x40_0000,
        shares@.len() > 0 && seq_sum(spec_floors(shares@, cells as u64)) <= cells
            ==> seq_sum(lens_view(r@)) == cells,
{
    let ghost cells64 = cells as u64;
    let n = shares.len();
    if n == 0 {
        let r: Vec<usize> = Vec::new();
        proof {
            assert(lens_view(r@) =~= spec_allocate(shares@, cells as u64));
        }
        return r;
    }
    let cfp = fp_from_u64(cells as u64);
    let hfp = fp_from_u64(100);
    let mut ideals: Vec<Fp> = Vec::new();
    let mut i: usize = 0;
    while i < n
        invariant
            n == shares@.len(),
            cells <= 0x1_0000,
            forall|k: int| 0 <= k < n ==> share_wf(#[trigger] shares@[k]),
            cfp == spec_from_u64(cells64),
            hfp == spec_from_u64(100),
            cells64 == cells as u64,
            fp_wf(cfp),
            fp_wf(hfp),
            -23 <= cfp.e <= 41,
            -23 <= hfp.e <= 41,
            i <= n,
            ideals@.len() == i,
            forall|k: int| 0 <= k < i ==> #[trigger] ideals@[k] == spec_ideal(shares@[k], cells64),
            forall|k: int| 0 <= k < i ==> fp_wf(#[trigger] ideals@[k]),
            forall|k: int| 0 <= k < i ==> (#[trigger] ideals@[k]).m != 0 ==> -900 <= ideals@[k].e <= -3,
        decreases n - i,
    {
        let w = ideal_width(shares[i], cells as u64, cfp, hfp);
        ideals.push(w);
        i = i + 1;
    }
    // Floored provisional widths.
    let mut lens: Vec<usize> = Vec::new();
    let mut sum: u128 = 0;
    let mut i2: usize = 0;
    while i2 < n
        invariant
            n == shares@.len(),
            cells <= 0x1_0000,
            cells64 == cells as u64,
            ideals@.len() == n,
            forall|k: int| 0 <= k < n ==> #[trigger] ideals@[k] == spec_ideal(shares@[k], cells64),
            forall|k: int| 0 <= k < n ==> fp_wf(#[trigger] ideals@[k]),
            forall|k: int| 0 <= k < n ==> (#[trigger] ideals@[k]).m != 0 ==> -900 <= ideals@[k].e <= -3,
            i2 <= n,
            lens@.len() == i2,
            forall|k: int| 0 <= k < i2 ==> #[trigger] lens@[k] as int == spec_trunc(ideals@[k]),
            forall|k: int| 0 <= k < i2 ==> #[trigger] lens@[k] < 0x20_0000,
            sum == seq_sum(lens_view(lens@)),
            sum <= i2 * 0x20_0000,
        decreases n - i2,
    {
        let f = fp_trunc(ideals[i2]);
        proof {
            lemma2_to64();
            lemma2_to64_rest();
            lemma_trunc_bounds(ideals[i2 as int]);
            lemma_pow2_pos(1000);
            // The ideal is below 2^21, so its floor fits comfortably.
            let a = ideals[i2 as int];
            if a.m != 0 {
                lemma_pow2_adds(21, 1000);
                lemma_pow2_adds(24, 997);
                assert(pow2((a.e + 1000) as nat) <= pow2(997)) by {
                    if a.e < -3 {
                        vstd::arithmetic::power2::lemma_pow2_strictly_increases(
                            (a.e + 1000) as nat, 997);
                    }
                };
                assert(pow2((a.e + 1000) as nat) >= 1) by {
                    lemma_pow2_pos((a.e + 1000) as nat);
                };
                assert(sval(a) < pow2(1021)) by (nonlinear_arith)
                    requires
                        sval(a) == a.m * pow2((a.e + 1000) as nat),
                        0 <= a.m < 0x100_0000,
                        1 <= pow2((a.e + 1000) as nat) <= pow2(997),
                        pow2(1021) == 0x100_0000 * (pow2(997) as int),
                        0x100_0000 == pow2(24),
                        (pow2(24) as int) * (pow2(997) as int) == pow2(1021);
                assert(spec_trunc(a) * (pow2(1000) as int) < pow2(1021)) by {
                    lemma_trunc_bounds(a);
                    lemma_pow2_pos(1000);
                    assert(spec_trunc(a) * (pow2(1000) as int) <= sval(a));
                };
                assert(spec_trunc(a) < pow2(21)) by (nonlinear_arith)
                    requires
                        spec_trunc(a) * (pow2(1000) as int) < pow2(1021),
                        pow2(1021) == (pow2(21) as int) * (pow2(1000) as int),
                        pow2(1000) as int >= 1;
            } else {
                assert(spec_trunc(a) == 0) by {
                    if a.e >= 0 {
                        assert(spec_trunc(a) == a.m * (pow2(a.e as nat) as int));
                        assert(a.m * (pow2(a.e as nat) as int) == 0) by (nonlinear_arith)
                            requires a.m == 0;
                    } else {
                        lemma_pow2_pos((0 - a.e) as nat);
                        vstd::arithmetic::div_mod::lemma_div_basics(pow2((0 - a.e) as nat) as int);
                    }
                };
            }
            assert(lens_view(lens@.push(f as usize)).drop_last() =~= lens_view(lens@));
        }
        lens.push(f as usize);
        sum = sum + f as u128;
        i2 = i2 + 1;
        proof {
            assert((i2 - 1) * 0x20_0000 + 0x20_0000 == i2 * 0x20_0000) by (nonlinear_arith);
        }
    }
    proof {
        assert(lens_view(lens@) =~= spec_floors(shares@, cells64));
    }
    let ghost target = spec_allocate(shares@, cells64);
    proof {
        assert(ideals@ =~= spec_ideals(shares@, cells64));
        if sum < cells64 {
            assert(target == spec_fill_n(ideals@, lens_view(lens@), (cells64 - sum) as nat));
        } else {
            assert(target == lens_view(lens@));
        }
    }
    let ghost init_sum = sum as int;
    // Hand out missing cells one by one, largest remainder first.
    while sum < cells as u128
        invariant
            n == shares@.len() > 0,
            cells <= 0x1_0000,
            cells64 == cells as u64,
            ideals@.len() == n,
            forall|k: int| 0 <= k < n ==> fp_wf(#[trigger] ideals@[k]),
            forall|k: int| 0 <= k < n ==> (#[trigger] ideals@[k]).m != 0 ==> -900 <= ideals@[k].e <= -3,
            lens@.len() == n,
            forall|k: int| 0 <= k < n ==> #[trigger] lens@[k] as int >= spec_trunc(ideals@[k]),
            forall|k: int| 0 <= k < n ==> #[trigger] lens@[k] as int <= 0x20_0000 + (sum - init_sum),
            0 <= init_sum <= sum,
            sum == init_sum || sum <= cells64,
            sum == seq_sum(lens_view(lens@)),
            if sum < cells64 {
                target == spec_fill_n(ideals@, lens_view(lens@), (cells64 - sum) as nat)
            } else {
                target == lens_view(lens@)
            },
        decreases cells as u128 - sum,
    {
        proof {
            assert(forall|k: int| 0 <= k < n ==> #[trigger] lens@[k] < 0x40_0000);
        }
        let ghost fracs_s = Seq::new(lens@.len(), |i: int| spec_frac(ideals@[i], lens@[i] as int));
        // Remainders of every part at its current width.
        let mut fracs: Vec<Fp> = Vec::new();
        let mut k: usize = 0;
        while k < n
            invariant
                n == shares@.len(),
                ideals@.len() == n,
                lens@.len() == n,
                forall|j: int| 0 <= j < n ==> fp_wf(#[trigger] ideals@[j]),
                forall|j: int| 0 <= j < n ==> (#[trigger] ideals@[j]).m != 0 ==> -900 <= ideals@[j].e <= -3,
                forall|j: int| 0 <= j < n ==> #[trigger] lens@[j] as int >= spec_trunc(ideals@[j]),
                forall|j: int| 0 <= j < n ==> #[trigger] lens@[j] < 0x40_0000,
                cells <= 0x1_0000,
                fracs_s == Seq::new(lens@.len(), |i: int| spec_frac(ideals@[i], lens@[i] as int)),
                k <= n,
                fracs@.len() == k,
                forall|j: int| 0 <= j < k ==> fp_wf(#[trigger] fracs@[j]),
                forall|j: int| 0 <= j < k ==> sval(#[trigger] fracs@[j]) == fracs_s[j],
            decreases n - k,
        {
            proof {
                lemma_trunc_bounds(ideals@[k as int]);
                lemma_pow2_pos(1000);
                lemma_mul_inequality(
                    spec_trunc(ideals@[k as int]) + 1,
                    lens@[k as int] as int + 1,
                    pow2(1000) as int,
                );
            }
            let fr = fp_sub_floor(ideals[k], lens[k] as u64);
            fracs.push(fr);
            k = k + 1;
        }
        // Earliest part with the largest remainder.
        let mut best: usize = 0;
        let mut k2: usize = 1;
        proof {
            assert(fracs_s.take(1).drop_last() =~= Seq::<int>::empty());
            assert(first_max(fracs_s.take(1)) == 0);
        }
        while k2 < n
            invariant
                n == shares@.len(),
                fracs@.len() == n,
                fracs_s.len() == n,
                forall|j: int| 0 <= j < n ==> fp_wf(#[trigger] fracs@[j]),
                forall|j: int| 0 <= j < n ==> sval(#[trigger] fracs@[j]) == fracs_s[j],
                1 <= k2 <= n,
                best < k2,
                best as int == first_max(fracs_s.take(k2 as int)),
            decreases n - k2,
        {
            let better = !fp_le(fracs[k2], fracs[best]);
            proof {
                let t = fracs_s.take(k2 + 1);
                assert(t.drop_last() =~= fracs_s.take(k2 as int));
                assert(t.last() == fracs_s[k2 as int]);
            }
            if better {
                best = k2;
            }
            k2 = k2 + 1;
        }
        proof {
            assert(fracs_s.take(n as int) =~= fracs_s);
            lemma_first_max(fracs_s);
            assert(best as int == first_max(fracs_s));
        }
        let ghost old_lens = lens@;
        let bw = lens[best];
        lens.set(best, bw + 1);
        sum = sum + 1;
        proof {
            let old_view = lens_view(old_lens);
            let new_view = lens_view(lens@);
            assert(new_view =~= old_view.update(best as int, old_view[best as int] + 1));
            lemma_seq_sum_update(old_view, best as int, 1);
            // One unfolding of the remaining spec-level fill.
            assert(fracs_s =~= Seq::new(old_view.len(), |i: int| spec_frac(ideals@[i], old_view[i])));
            assert(spec_fill_n(ideals@, old_view, (cells64 - (sum - 1)) as nat)
                == spec_fill_n(ideals@, new_view, (cells64 - sum) as nat));
        }
    }
    proof {
        assert(target == lens_view(lens@));
        assert(forall|k: int| 0 <= k < n ==> #[trigger] lens@[k] < 0x40_0000);
        if shares@.len() > 0 && seq_sum(spec_floors(shares@, cells64)) <= cells64 {
            lemma_fill_n_sum(
                spec_ideals(shares@, cells64),
                spec_floors(shares@, cells64),
                (cells64 - seq_sum(spec_floors(shares@, cells64))) as nat,
            );
        }
    }
    lens
}

/// The longest prefix concatenation of the label pieces whose length stays
/// within the budget; assembly stops at the first piece that would
/// overflow.
pub open spec fn spec_fit_label(labels: Seq<Seq<char>>, budget: int) -> Seq<char>
    decreases labels.len(),
{
    if labels.len() == 0 {
        Seq::empty()
    } else if labels[0].len() > budget {
        Seq::empty()
    } else {
        labels[0] + spec_fit_label(labels.drop_first(), budget - labels[0].len())
    }
}

/// Greedily concatenate label pieces while they fit the width budget.
pub fn fit_label(labels: &Vec<String>, budget: usize) -> (r: String)
    ensures
        r@ == spec_fit_label(labels.deep_view(), budget as int),
        r@.len() <= budget,
{
    let ghost dv = labels.deep_view();
    let mut acc = String::new();
    let mut used: usize = 0;
    let mut i: usize = 0;
    let n = labels.len();
    proof {
        assert(dv.len() == labels@.len());
        assert(dv.skip(0) =~= dv);
        assert(acc@ + spec_fit_label(dv, budget as int) =~= spec_fit_label(dv, budget as int));
    }
    while i < n
        invariant_except_break
            n == labels@.len(),
            dv == labels.deep_view(),
            dv.len() == n,
            i <= n,
            used == acc@.len(),
            used <= budget,
            spec_fit_label(dv, budget as int) == acc@ + spec_fit_label(
                dv.skip(i as int),
                budget - used,
            ),
        ensures
            acc@ == spec_fit_label(dv, budget as int),
            acc@.len() <= budget,
        decreases n - i,
    {
        proof {
            assert(dv[i as int] == labels@[i as int]@);
            assert(dv.skip(i as int)[0] == dv[i as int]);
            assert(dv.skip(i as int).drop_first() =~= dv.skip(i + 1));
        }
        let li_len = labels[i].as_str().unicode_len();
        if li_len <= budget - used {
            acc.append(labels[i].as_str());
            used = used + li_len;
            i = i + 1;
            proof {
                assert(spec_fit_label(dv, budget as int) == acc@ + spec_fit_label(
                    dv.skip(i as int),
                    budget - used,
                ));
            }
        } else {
            proof {
                assert(spec_fit_label(dv.skip(i as int), budget - used) =~= Seq::<char>::empty());
                assert(acc@ + Seq::<char>::empty() =~= acc@);
            }
            break;
        }
    }
    proof {
        if i == n && acc@.len() <= budget {
            assert(dv.skip(n as int) =~= Seq::<Seq<char>>::empty());
            assert(acc@ + Seq::<char>::empty() =~= acc@);
        }
    }
    acc
}

/// Center a label of `label_len` characters in `width` cells: the left pad
/// takes the floored half of the slack and the right pad absorbs the
/// remainder, so the three always add up to the width and the pads differ
/// by at most one.
pub fn center_pads(width: usize, label_len: usize) -> (p: (usize, usize))
    requires
        label_len <= width,
    ensures
        p.0 == (width - label_len) / 2,
        p.0 + label_len + p.1 == width,
        p.0 <= p.1,
        p.1 <= p.0 + 1,
{
    let before = (width - label_len) / 2;
    let after = width - label_len - before;
    (before, after)
}

/// One rendered part: fill-styled left pad, text-styled fitted label,
/// fill-styled right pad.
pub open spec fn spec_render_part(
    labels: Seq<Seq<char>>,
    fill: char,
    ts: Style,
    fs: Style,
    width: int,
) -> Seq<char> {
    let label = spec_fit_label(labels, width);
    let before = (width - label.len()) / 2;
    let after = width - label.len() - before;
    spec_paint(fs, char_run(fill, before)) + spec_paint(ts, label) + spec_paint(
        fs,
        char_run(fill, after),
    )
}

/// Render one part into its allotted width.
pub fn render_part(part: &BarPart, width: usize) -> (r: String)
    ensures
        r@ == spec_render_part(
            part.labels.deep_view(),
            part.fill_glyph,
            part.text_style,
            part.fill_style,
            width as int,
        ),
{
    let label = fit_label(&part.labels, width);
    let label_len = label.as_str().unicode_len();
    let pads = center_pads(width, label_len);
    let left = repeat_char(part.fill_glyph, pads.0);
    let right = repeat_char(part.fill_glyph, pads.1);
    let mut out = paint(part.fill_style, left.as_str());
    let mid = paint(part.text_style, label.as_str());
    out.append(mid.as_str());
    let tail = paint(part.fill_style, right.as_str());
    out.append(tail.as_str());
    out
}

/// The shares of a part list.
pub open spec fn spec_parts_shares(parts: Seq<BarPartView>) -> Seq<Fp> {
    Seq::new(parts.len(), |i: int| parts[i].share)
}

/// The first `n` rendered parts, concatenated in order.
pub open spec fn spec_bar_body(parts: Seq<BarPartView>, lens: Seq<int>, n: int) -> Seq<char>
    decreases n,
{
    if n <= 0 {
        Seq::empty()
    } else {
        spec_bar_body(parts, lens, n - 1) + spec_render_part(
            parts[n - 1].labels,
            parts[n - 1].fill_glyph,
            parts[n - 1].text_style,
            parts[n - 1].fill_style,
            lens[n - 1],
        )
    }
}

/// A full bar line: left border, every part at its allocated width, right
/// border, newline.
pub open spec fn spec_display_bar(parts: Seq<BarPartView>, term_columns: u64) -> Seq<char> {
    let lens = spec_allocate(spec_parts_shares(parts), (term_columns - 2) as u64);
    seq!['\u{2595}'] + spec_bar_body(parts, lens, parts.len() as int) + seq!['\u{258f}', '\n']
}

/// Render a proportional bar across the terminal width: two border cells
/// plus interior cells allocated to the parts by largest remainder.
pub fn display_bar(parts: &Vec<BarPart>, term_columns: usize) -> (r: String)
    requires
        2 <= term_columns,
        term_columns <= 0x1_0002,
        forall|i: int| 0 <= i < parts@.len() ==> share_wf((#[trigger] parts@[i])@.share),
    ensures
        r@ == spec_display_bar(parts.deep_view(), term_columns as u64),
{
    let ghost pv = parts.deep_view();
    proof {
        assert(pv.len() == parts@.len());
        assert(forall|i: int| 0 <= i < parts@.len() ==> #[trigger] pv[i] == parts@[i]@);
    }
    let cells = term_columns - 2;
    let n = parts.len();
    let mut shares: Vec<Fp> = Vec::new();
    let mut i: usize = 0;
    while i < n
        invariant
            n == parts@.len(),
            pv == parts.deep_view(),
            pv.len() == n,
            forall|k: int| 0 <= k < n ==> #[trigger] pv[k] == parts@[k]@,
            i <= n,
            shares@.len() == i,
            forall|k: int| 0 <= k < n ==> share_wf((#[trigger] parts@[k])@.share),
            forall|k: int| 0 <= k < i ==> #[trigger] shares@[k] == parts@[k].share,
        decreases n - i,
    {
        shares.push(parts[i].share);
        i = i + 1;
    }
    proof {
        assert(shares@ =~= spec_parts_shares(pv));
    }
    let lens = allocate(&shares, cells);
    let ghost lens_s = spec_allocate(spec_parts_shares(pv), cells as u64);
    let mut out = String::from_str("\u{2595}");
    proof {
        reveal_strlit("\u{2595}");
        assert(out@ =~= seq!['\u{2595}'] + spec_bar_body(pv, lens_s, 0));
    }
    let mut j: usize = 0;
    while j < n
        invariant
            n == parts@.len(),
            pv == parts.deep_view(),
            pv.len() == n,
            forall|k: int| 0 <= k < n ==> #[trigger] pv[k] == parts@[k]@,
            j <= n,
            lens@.len() == n,
            lens_view(lens@) == lens_s,
            out@ == seq!['\u{2595}'] + spec_bar_body(pv, lens_s, j as int),
        decreases n - j,
    {
        let piece = render_part(&parts[j], lens[j]);
        out.append(piece.as_str());
        j = j + 1;
        proof {
            assert(lens_s[j - 1] == lens@[j - 1] as int);
        }
    }
    out.append("\u{258f}\n");
    proof {
        reveal_strlit("\u{258f}\n");
        assert("\u{258f}\n"@ =~= seq!['\u{258f}', '\n']);
        assert(out@ =~= spec_display_bar(pv, term_columns as u64));
    }
    out
}



/// Sum of the scaled values of a share list.
pub open spec fn svals_sum(s: Seq<Fp>) -> int
    decreases s.len(),
{
    if s.len() == 0 {
        0
    } else {
        svals_sum(s.drop_last()) + sval(s.last())
    }
}

/// One share's ideal width stays within a whisker of its exact
/// proportional width: `p^3 * 100 * ideal <= (p+1)^3 * cells * share`
/// with `p = 2^24`.
proof fn lemma_ideal_bound(share: Fp, cells: u64)
    requires
        share_wf(share),
        cells <= 0x1_0000,
    ensures
        sval(spec_ideal(share, cells)) >= 0,
        ((pow2(24) as int) * (pow2(24) as int) * (pow2(24) as int)) * (100 * sval(
            spec_ideal(share, cells),
        )) <= (((pow2(24) + 1) * (pow2(24) + 1)) * (pow2(24) + 1)) * ((cells as int) * sval(share)),
{
    lemma2_to64();
    lemma2_to64_rest();
    lemma_pow2_pos(1000);
    let p: int = pow2(24) as int;
    let big: int = pow2(1000) as int;
    let cfp = spec_from_u64(cells);
    let hfp = spec_from_u64(100);
    lemma_from_u64_wf(cells);
    lemma_from_u64_wf(100);
    lemma_from_u64_value(cells);
    lemma_from_u64_value(100);
    assert(sval(hfp) == 100 * big);
    lemma_mul_wf(cfp, share);
    let m = spec_mul(cfp, share);
    lemma_mul_value(cfp, share);
    lemma_div_wf(m, hfp);
    let q = spec_ideal(share, cells);
    assert(q == spec_div(m, hfp));
    lemma_div_value(m, hfp);
    lemma_sval_sign(share);
    lemma_sval_sign(cfp);
    lemma_sval_sign(m);
    lemma_sval_sign(q);
    let ss = sval(share);
    let cc = sval(cfp);
    let mm = sval(m);
    let qq = sval(q);
    // p * (100 * qq) <= (p + 1) * mm
    assert(p * (qq * sval(hfp)) <= (p + 1) * (mm * big));
    assert(p * (qq * (100 * big)) == (p * (100 * qq)) * big) by (nonlinear_arith);
    assert((p + 1) * (mm * big) == ((p + 1) * mm) * big) by (nonlinear_arith);
    assert(p * (100 * qq) <= (p + 1) * mm) by {
        lemma_mul_inequality_converse(p * (100 * qq), (p + 1) * mm, big);
    }
    // p * mm <= (p + 1) * (cc * ss) / big  (kept multiplied through by big)
    assert(p * (mm * big) <= (p + 1) * (cc * ss));
    // p * cc <= (p + 1) * (cells * big)
    assert(p * cc <= (p + 1) * ((cells as int) * big));
    // chain the three, cancelling big at the end
    assert((p * p) * (100 * qq) * big <= ((p + 1) * (p + 1)) * (cc * ss)) by (nonlinear_arith)
        requires
            p * (100 * qq) <= (p + 1) * mm,
            p * (mm * big) <= (p + 1) * (cc * ss),
            p >= 1,
            big >= 1,
            100 * qq >= 0,
            mm >= 0;
    assert((p * p * p) * (100 * qq) * big <= (((p + 1) * (p + 1)) * (p + 1)) * ((cells as int) * ss * big))
        by (nonlinear_arith)
        requires
            (p * p) * (100 * qq) * big <= ((p + 1) * (p + 1)) * (cc * ss),
            p * cc <= (p + 1) * ((cells as int) * big),
            p >= 1,
            big >= 1,
            ss >= 0,
            cc >= 0,
            100 * qq >= 0;
    assert((p * p * p) * (100 * qq) <= (((p + 1) * (p + 1)) * (p + 1)) * ((cells as int) * ss)) by {
        assert((p * p * p) * (100 * qq) * big == ((p * p * p) * (100 * qq)) * big) by (nonlinear_arith);
        assert((((p + 1) * (p + 1)) * (p + 1)) * ((cells as int) * ss * big) == ((((p + 1) * (p + 1))
            * (p + 1)) * ((cells as int) * ss)) * big) by (nonlinear_arith);
        lemma_mul_inequality_converse(
            (p * p * p) * (100 * qq),
            (((p + 1) * (p + 1)) * (p + 1)) * ((cells as int) * ss),
            big,
        );
    }
    assert((p * p * p) * (100 * qq) == ((p * p * p) as int) * (100 * qq)) by (nonlinear_arith);
}

/// The floored ideal widths of percentage shares cannot overrun the
/// target: shares summing to at most 100 leave the floor sum at or below
/// the cell count.
pub proof fn lemma_floors_fit(shares: Seq<Fp>, cells: u64)
    requires
        cells <= 0x1_0000,
        forall|i: int| 0 <= i < shares.len() ==> share_wf(#[trigger] shares[i]),
        svals_sum(shares) <= 100 * pow2(1000),
    ensures
        seq_sum(spec_floors(shares, cells)) <= cells,
{
    lemma2_to64();
    lemma2_to64_rest();
    lemma_pow2_pos(1000);
    let p: int = pow2(24) as int;
    let big: int = pow2(1000) as int;
    lemma_floor_ideal_sums(shares, cells);
    let fsum = seq_sum(spec_floors(shares, cells));
    let qsum = svals_sum(spec_ideals(shares, cells));
    let ssum = svals_sum(shares);
    // p^3 * 100 * qsum <= (p+1)^3 * cells * ssum <= (p+1)^3 * cells * 100 * big
    assert((p * p * p) * (100 * qsum) <= (((p + 1) * (p + 1)) * (p + 1)) * ((cells as int) * (100
        * big))) by (nonlinear_arith)
        requires
            (p * p * p) * (100 * qsum) <= (((p + 1) * (p + 1)) * (p + 1)) * ((cells as int) * ssum),
            ssum <= 100 * big,
            cells >= 0,
            p >= 1;
    // fsum * big <= qsum
    assert((p * p * p) * (100 * (fsum * big)) <= (((p + 1) * (p + 1)) * (p + 1)) * ((cells as int)
        * (100 * big))) by (nonlinear_arith)
        requires
            fsum * big <= qsum,
            (p * p * p) * (100 * qsum) <= (((p + 1) * (p + 1)) * (p + 1)) * ((cells as int) * (100 * big)),
            p >= 1;
    // cancel 100 * big and compare the integers
    assert(fsum <= cells) by (nonlinear_arith)
        requires
            (p * p * p) * (100 * (fsum * big)) <= (((p + 1) * (p + 1)) * (p + 1)) * ((cells as int) * (100 * big)),
            p == 0x100_0000,
            big >= 1,
            0 <= cells <= 0x1_0000;
}

/// Summed forms of the per-share bound: the floors stay below the ideals,
/// and the ideals stay a whisker below the exact proportions.
#[verifier::rlimit(100)]
proof fn lemma_floor_ideal_sums(shares: Seq<Fp>, cells: u64)
    requires
        cells <= 0x1_0000,
        forall|i: int| 0 <= i < shares.len() ==> share_wf(#[trigger] shares[i]),
    ensures
        seq_sum(spec_floors(shares, cells)) * (pow2(1000) as int) <= svals_sum(
            spec_ideals(shares, cells),
        ),
        svals_sum(spec_ideals(shares, cells)) >= 0,
        ((pow2(24) as int) * (pow2(24) as int) * (pow2(24) as int)) * (100 * svals_sum(
            spec_ideals(shares, cells),
        )) <= (((pow2(24) + 1) * (pow2(24) + 1)) * (pow2(24) + 1)) * ((cells as int) * svals_sum(
            shares,
        )),
    decreases shares.len(),
{
    lemma2_to64();
    lemma2_to64_rest();
    lemma_pow2_pos(1000);
    let p: int = pow2(24) as int;
    let big: int = pow2(1000) as int;
    if shares.len() == 0 {
        assert(spec_floors(shares, cells) =~= Seq::<int>::empty());
        assert(spec_ideals(shares, cells) =~= Seq::<Fp>::empty());
        assert(seq_sum(spec_floors(shares, cells)) == 0);
        assert(svals_sum(spec_ideals(shares, cells)) == 0);
        assert((p * p * p) * (100 * 0int) == 0) by (nonlinear_arith);
        assert((((p + 1) * (p + 1)) * (p + 1)) * ((cells as int) * svals_sum(shares)) == 0)
            by (nonlinear_arith)
            requires svals_sum(shares) == 0;
        assert(0int * (pow2(1000) as int) == 0) by (nonlinear_arith);
    } else {
        let rest = shares.drop_last();
        assert(forall|i: int| 0 <= i < rest.len() ==> #[trigger] rest[i] == shares[i]);
        lemma_floor_ideal_sums(rest, cells);
        assert(spec_floors(shares, cells).drop_last() =~= spec_floors(rest, cells));
        assert(spec_ideals(shares, cells).drop_last() =~= spec_ideals(rest, cells));
        let last_share = shares.last();
        let last_ideal = spec_ideal(last_share, cells);
        assert(spec_ideals(shares, cells).last() == last_ideal);
        assert(spec_floors(shares, cells).last() == spec_trunc(last_ideal));
        lemma_ideal_bound(last_share, cells);
        // wf of the ideal for the floor bracket
        lemma_from_u64_wf(cells);
        lemma_from_u64_wf(100);
        lemma_mul_wf(spec_from_u64(cells), last_share);
        lemma_div_wf(spec_mul(spec_from_u64(cells), last_share), spec_from_u64(100));
        lemma_trunc_bounds(last_ideal);
        // floors: (fsum_rest + trunc_last) * big <= qsum_rest + q_last
        let fr = seq_sum(spec_floors(rest, cells));
        let tl = spec_trunc(last_ideal);
        let qr = svals_sum(spec_ideals(rest, cells));
        let ql = sval(last_ideal);
        let sr = svals_sum(rest);
        let sl = sval(last_share);
        lemma_sval_sign(last_ideal);
        assert(seq_sum(spec_floors(shares, cells)) == fr + tl);
        assert(svals_sum(spec_ideals(shares, cells)) == qr + ql);
        assert(svals_sum(shares) == sr + sl);
        assert(tl * big <= ql);
        assert((fr + tl) * big == fr * big + tl * big) by (nonlinear_arith);
        assert((fr + tl) * big <= qr + ql);
        assert((p * p * p) * (100 * (qr + ql)) <= (((p + 1) * (p + 1)) * (p + 1)) * ((cells as int)
            * (sr + sl))) by (nonlinear_arith)
            requires
                (p * p * p) * (100 * qr) <= (((p + 1) * (p + 1)) * (p + 1)) * ((cells as int) * sr),
                (p * p * p) * (100 * ql) <= (((p + 1) * (p + 1)) * (p + 1)) * ((cells as int) * sl);
    }
}

/// Width conservation from the data model alone: percentage shares that
/// sum to at most 100 always fill the target exactly.
pub proof fn lemma_width_conservation_percent(shares: Seq<Fp>, cells: u64)
    requires
        shares.len() >= 1,
        shares.len() <= cells,
        cells <= 0x1_0000,
        forall|i: int| 0 <= i < shares.len() ==> share_wf(#[trigger] shares[i]),
        svals_sum(shares) <= 100 * pow2(1000),
    ensures
        seq_sum(spec_allocate(shares, cells)) == cells,
{
    lemma_floors_fit(shares, cells);
    lemma_allocate_width_conservation(shares, cells);
}

/// The displayed percentage `100 * x / t`, as emulated single precision.
pub open spec fn spec_percent(x: u64, t: u64) -> Fp {
    spec_div(spec_mul(spec_from_u64(100), spec_from_u64(x)), spec_from_u64(t))
}

/// Compute the percentage `100 * x / t`; when `x` is no more than `t` the
/// result is a well-formed bar share (at most a whisker above 100).
pub fn percent_fp(x: u64, t: u64) -> (r: Fp)
    requires
        t >= 1,
    ensures
        r == spec_percent(x, t),
        fp_wf(r),
        r.e <= 90,
        x <= t ==> share_wf(r),
{
    proof {
        lemma2_to64();
        lemma2_to64_rest();
        lemma_pow2_pos(1000);
    }
    let h = fp_from_u64(100);
    let fx = fp_from_u64(x);
    let ft = fp_from_u64(t);
    proof {
        lemma_from_u64_value(100);
        assert(sval(h) == 100 * (pow2(1000) as int));
        lemma_pow2_adds(7, 1000);
        assert(sval(h) < pow2(1007)) by (nonlinear_arith)
            requires
                sval(h) == 100 * (pow2(1000) as int),
                pow2(1000) as int >= 1,
                pow2(1007) == 128 * (pow2(1000) as int);
        lemma_e_upper(h, 7);
        lemma_pow2_adds(6, 1000);
        assert(pow2(1006) <= sval(h)) by (nonlinear_arith)
            requires
                sval(h) == 100 * (pow2(1000) as int),
                pow2(1000) as int >= 1,
                pow2(1006) == 64 * (pow2(1000) as int);
        lemma_e_lower(h, 6);
        assert(h.e == -17);
    }
    let m = fp_mul(h, fx);
    let r = fp_div(m, ft);
    proof {
        if x <= t && r.m != 0 {
            let p: int = pow2(24) as int;
            let big: int = pow2(1000) as int;
            lemma_mul_value(h, fx);
            lemma_from_u64_value(x);
            lemma_from_u64_value(t);
            lemma_sval_sign(ft);
            lemma_sval_sign(fx);
            lemma_sval_sign(m);
            let aa = sval(m);
            let bb = sval(ft);
            let xx = sval(fx);
            assert(p == 0x100_0000);
            assert(bb >= 1) by {
                lemma_pow2_pos((ft.e + 1000) as nat);
            }
            // p * aa <= (p + 1) * 100 * xx
            assert(p * (aa * big) <= (p + 1) * (sval(h) * xx));
            assert((p + 1) * (sval(h) * xx) == (((p + 1) * 100) * xx) * big) by (nonlinear_arith)
                requires sval(h) == 100 * big;
            assert(p * (aa * big) == (p * aa) * big) by (nonlinear_arith);
            assert(p * aa <= ((p + 1) * 100) * xx) by {
                lemma_mul_inequality_converse(p * aa, ((p + 1) * 100) * xx, big);
            }
            // p * xx <= (p + 1) * (t * big)
            assert(p * xx <= (p + 1) * (x * big));
            assert((p + 1) * (x * big) <= (p + 1) * (t * big)) by (nonlinear_arith)
                requires x <= t && big >= 1 && p >= 1;
            // p * p * aa <= (p+1)^2 * 100 * t * big
            assert((p * p) * aa <= (((p + 1) * (p + 1)) * 100) * (t * big)) by (nonlinear_arith)
                requires
                    p * aa <= ((p + 1) * 100) * xx,
                    p * xx <= (p + 1) * (t * big),
                    p >= 1,
                    aa >= 0,
                    xx >= 0;
            // (p-1) * (t * big) <= p * bb
            assert((p - 1) * (t * big) <= p * bb);
            // multiply through and compare against 101 * bb
            assert(((p - 1) * (p * p)) * aa <= ((101 * (p - 1)) * (p * p)) * bb) by (nonlinear_arith)
                requires
                    (p * p) * aa <= (((p + 1) * (p + 1)) * 100) * (t * big),
                    (p - 1) * (t * big) <= p * bb,
                    ((p + 1) * (p + 1)) * 100 * p <= (101 * (p - 1)) * (p * p),
                    p == 0x100_0000,
                    aa >= 0,
                    bb >= 1,
                    t * big >= 1;
            assert(aa <= 101 * bb) by {
                lemma_mul_inequality_converse(aa, 101 * bb, (p - 1) * (p * p));
                assert(((p - 1) * (p * p)) * aa == aa * ((p - 1) * (p * p))) by (nonlinear_arith);
                assert(((101 * (p - 1)) * (p * p)) * bb == (101 * bb) * ((p - 1) * (p * p))) by (nonlinear_arith);
            }
            lemma_div_ratio(m, ft, 101);
            // sval(r) < 2^7 * big, so the exponent is at most -17
            lemma_pow2_adds(7, 1000);
            assert(sval(r) < pow2(1007)) by (nonlinear_arith)
                requires
                    p * sval(r) <= (p + 1) * (101 * big),
                    p == 0x100_0000,
                    big >= 1,
                    pow2(1007) == 128 * big;
            lemma_e_upper(r, 7);
        }
        assert(t * (pow2(1000) as int) >= 1) by (nonlinear_arith)
            requires t >= 1 && pow2(1000) as int >= 1;
    }
    r
}


} // verus!
