//! Filesystem usage reporting: one line per mount with a shortened mount
//! path and a usage bar whose filled cells overlap a centered caption.

use vstd::prelude::*;
use vstd::string::StrSliceExecFns;
use vstd::string::StringExecFns;
use crate::fp::{fp_from_u64, fp_div, fp_le, sval, spec_from_u64, spec_div};
use crate::fmt::{spec_format_kmgt, format_kmgt, spec_fmt_tenths, fmt_tenths};
use crate::bar::{spec_percent, percent_fp};
use crate::style::{Style, Color, spec_paint, paint};
use crate::text::{char_run, repeat_char, spaces, spec_ellipsis, ellipsis};
use vstd::arithmetic::div_mod::{lemma_fundamental_div_mod, lemma_div_is_ordered, lemma_div_multiples_vanish, lemma_div_pos_is_pos};
use vstd::arithmetic::mul::lemma_mul_inequality;

verus! {

/// Narrowest terminal a filesystem bar is drawn at.
pub const MIN_FS_BAR_LEN: usize = 30;

/// Usage figures of one mounted filesystem.
pub struct FsMountInfo {
    /// Mount point path.
    pub mount_path: String,
    /// Bytes in use.
    pub used_bytes: u64,
    /// Filesystem size in bytes.
    pub total_bytes: u64,
}

/// The mathematical content of one mount entry.
pub ghost struct FsMountView {
    /// Mount point path.
    pub path: Seq<char>,
    /// Bytes in use.
    pub used: u64,
    /// Filesystem size in bytes.
    pub total: u64,
}

impl View for FsMountInfo {
    type V = FsMountView;

    open spec fn view(&self) -> FsMountView {
        FsMountView { path: self.mount_path@, used: self.used_bytes, total: self.total_bytes }
    }
}

impl DeepView for FsMountInfo {
    type V = FsMountView;

    open spec fn deep_view(&self) -> FsMountView {
        self.view()
    }
}

/// Usage figures of all mounted filesystems, in display order.
pub struct FsInfo {
    mounts: Vec<FsMountInfo>,
}

impl View for FsInfo {
    type V = Seq<FsMountView>;

    closed spec fn view(&self) -> Seq<FsMountView> {
        self.mounts.deep_view()
    }
}

/// The caption of a usage bar: used and total sizes and the percentage.
pub open spec fn spec_fs_bar_text(used: u64, total: u64) -> Seq<char> {
    spec_format_kmgt(used, "B"@) + seq![' ', '/', ' '] + spec_format_kmgt(total, "B"@) + seq![
        ' ',
        '(',
    ] + spec_fmt_tenths(spec_percent(used, total)) + seq!['%', ')']
}

/// The usage bar of one mount: the caption centered between fill cells,
/// with the first `(length - 2) * used / total` interior cells drawn
/// solid, reverse video where the solid run crosses the caption.
pub open spec fn spec_fs_bar(used: u64, total: u64, length: int, style: Style) -> Seq<char>
    recommends
        total >= 1,
        spec_fs_bar_text(used, total).len() <= length - 2,
{
    let text = spec_fs_bar_text(used, total);
    let btl = text.len() as int;
    let fcb = (length - 2 - btl) / 2;
    let cu = (length - 2) * used / (total as int);
    let pos1 = if cu < fcb { cu } else { fcb };
    let pos3a = if cu < fcb + btl { cu } else { fcb + btl };
    let pos3 = if fcb > pos3a { fcb } else { pos3a };
    let pos4 = fcb + btl;
    let pos5 = if cu > pos4 { cu } else { pos4 };
    spec_paint(style, seq!['\u{2595}']) + spec_paint(style, char_run('\u{2588}', pos1))
        + spec_paint(style, char_run(' ', fcb - pos1)) + spec_paint(
        Style { reverse: true, ..style },
        text.take(pos3 - fcb),
    ) + spec_paint(style, text.skip(pos3 - fcb)) + spec_paint(
        style,
        char_run('\u{2588}', pos5 - pos4),
    ) + spec_paint(style, char_run(' ', length - 2 - pos5)) + spec_paint(style, seq!['\u{258f}'])
}

/// Render the usage bar of one mount.
#[verifier::rlimit(100)]
pub fn get_fs_bar(mount_info: &FsMountInfo, length: usize, style: Style) -> (r: String)
    requires
        MIN_FS_BAR_LEN <= length,
        length <= 0x1_0002,
        mount_info.total_bytes >= 1,
        mount_info.used_bytes <= mount_info.total_bytes,
        mount_info.used_bytes <= 0xFFFF_FFFF_FFFF,
        spec_fs_bar_text(mount_info@.used, mount_info@.total).len() <= length - 2,
    ensures
        r@ == spec_fs_bar(mount_info@.used, mount_info@.total, length as int, style),
{
    let used = mount_info.used_bytes;
    let total = mount_info.total_bytes;
    let mut bar_text = format_kmgt(used, "B");
    bar_text.append(" / ");
    let t2 = format_kmgt(total, "B");
    bar_text.append(t2.as_str());
    bar_text.append(" (");
    let p = percent_fp(used, total);
    let ps = fmt_tenths(p);
    bar_text.append(ps.as_str());
    bar_text.append("%)");
    proof {
        reveal_strlit(" / ");
        reveal_strlit(" (");
        reveal_strlit("%)");
        assert(" / "@ =~= seq![' ', '/', ' ']);
        assert(" ("@ =~= seq![' ', '(']);
        assert("%)"@ =~= seq!['%', ')']);
        assert(bar_text@ =~= spec_fs_bar_text(used, total));
    }
    let btl = bar_text.as_str().unicode_len();
    let fcb = (length - 2 - btl) / 2;
    let interior = (length - 2) as u64;
    proof {
        // The solid run never exceeds the interior width.
        lemma_fundamental_div_mod(interior as int * total as int, total as int);
        lemma_div_multiples_vanish(interior as int, total as int);
        lemma_mul_inequality(used as int, total as int, interior as int);
        assert(used as int * interior as int == interior as int * used as int) by (nonlinear_arith);
        assert(total as int * interior as int == interior as int * total as int) by (nonlinear_arith);
        lemma_div_is_ordered(interior as int * used as int, interior as int * total as int, total as int);
        lemma_div_pos_is_pos(interior as int * used as int, total as int);
        assert(interior as int * used as int <= 0x1_0000 * 0xFFFF_FFFF_FFFF) by (nonlinear_arith)
            requires interior <= 0x1_0000 && used <= 0xFFFF_FFFF_FFFF;
    }
    let chars_used = (interior * used / total) as usize;
    let pos1 = if chars_used < fcb {
        chars_used
    } else {
        fcb
    };
    let pos3a = if chars_used < fcb + btl {
        chars_used
    } else {
        fcb + btl
    };
    let pos3 = if fcb > pos3a {
        fcb
    } else {
        pos3a
    };
    let pos4 = fcb + btl;
    let pos5 = if chars_used > pos4 {
        chars_used
    } else {
        pos4
    };
    let head = bar_text.as_str().substring_char(0, pos3 - fcb);
    let tail = bar_text.as_str().substring_char(pos3 - fcb, btl);
    let mut out = paint(style, "\u{2595}");
    let fill1 = repeat_char('\u{2588}', pos1);
    let seg = paint(style, fill1.as_str());
    out.append(seg.as_str());
    let gap1 = spaces(fcb - pos1);
    let seg2 = paint(style, gap1.as_str());
    out.append(seg2.as_str());
    let seg3 = paint(style.reverse(), head);
    out.append(seg3.as_str());
    let seg4 = paint(style, tail);
    out.append(seg4.as_str());
    let fill2 = repeat_char('\u{2588}', pos5 - pos4);
    let seg5 = paint(style, fill2.as_str());
    out.append(seg5.as_str());
    let gap2 = spaces(length - 2 - pos5);
    let seg6 = paint(style, gap2.as_str());
    out.append(seg6.as_str());
    let seg7 = paint(style, "\u{258f}");
    out.append(seg7.as_str());
    proof {
        reveal_strlit("\u{2595}");
        reveal_strlit("\u{258f}");
        assert("\u{2595}"@ =~= seq!['\u{2595}']);
        assert("\u{258f}"@ =~= seq!['\u{258f}']);
        assert(tail@ =~= bar_text@.skip(pos3 - fcb));
        assert(out@ =~= spec_fs_bar(used, total, length as int, style));
    }
    out
}

/// The style a mount line is drawn in: red at 95 percent usage or above,
/// yellow at 85, plain below (thresholds are the nearest `binary32`
/// values of 0.95 and 0.85).
pub open spec fn spec_fs_style(used: u64, total: u64) -> Style {
    let usage = spec_div(spec_from_u64(used), spec_from_u64(total));
    if sval(fp95()) <= sval(usage) {
        Style { fg: Some(Color::Red), ..spec_plain_style() }
    } else if sval(fp85()) <= sval(usage) {
        Style { fg: Some(Color::Yellow), ..spec_plain_style() }
    } else {
        spec_plain_style()
    }
}

/// The plain style as a specification value.
pub open spec fn spec_plain_style() -> Style {
    Style {
        bold: false,
        dimmed: false,
        italic: false,
        underline: false,
        blink: false,
        reverse: false,
        fg: None,
    }
}

/// The nearest `binary32` value of 0.95.
pub open spec fn fp95() -> crate::fp::Fp {
    crate::fp::Fp { m: 15938355u64, e: (-24) as i32 }
}

/// The nearest `binary32` value of 0.85.
pub open spec fn fp85() -> crate::fp::Fp {
    crate::fp::Fp { m: 14260634u64, e: (-24) as i32 }
}

/// Pick the warning style of one mount from its usage ratio.
fn fs_style(used: u64, total: u64) -> (r: Style)
    requires
        total >= 1,
    ensures
        r == spec_fs_style(used, total),
{
    let uf = fp_from_u64(used);
    let tf = fp_from_u64(total);
    let usage = fp_div(uf, tf);
    let c95 = crate::fp::Fp { m: 15938355, e: -24 };
    let c85 = crate::fp::Fp { m: 14260634, e: -24 };
    if fp_le(c95, usage) {
        Style::colored(Color::Red)
    } else if fp_le(c85, usage) {
        Style::colored(Color::Yellow)
    } else {
        Style::plain()
    }
}

/// Longest shortened path, in characters.
pub open spec fn max_path_len(mounts: Seq<FsMountView>, budget: int) -> int
    decreases mounts.len(),
{
    if mounts.len() == 0 {
        0
    } else {
        let m = max_path_len(mounts.drop_last(), budget);
        let l = spec_ellipsis(mounts.last().path, budget).len() as int;
        if l > m {
            l
        } else {
            m
        }
    }
}

/// Every shortened path is no longer than the longest, and none exceeds
/// the budget.
proof fn lemma_max_path_len(mounts: Seq<FsMountView>, budget: int)
    requires
        budget >= 1,
    ensures
        forall|i: int|
            0 <= i < mounts.len() ==> spec_ellipsis(
                (#[trigger] mounts[i]).path,
                budget,
            ).len() <= max_path_len(mounts, budget),
        max_path_len(mounts, budget) <= budget || max_path_len(mounts, budget) == 0,
        0 <= max_path_len(mounts, budget),
        mounts.len() > 0 ==> max_path_len(mounts, budget) <= budget,
    decreases mounts.len(),
{
    if mounts.len() > 0 {
        lemma_max_path_len(mounts.drop_last(), budget);
        assert(forall|i: int|
            0 <= i < mounts.len() - 1 ==> #[trigger] mounts[i] == mounts.drop_last()[i]);
        let last = spec_ellipsis(mounts.last().path, budget);
        assert(last.len() <= budget) by {
            if mounts.last().path.len() > budget {
                assert(last.len() == budget);
            }
        }
    }
}

/// One mount line: styled shortened path, styled alignment spacing, a
/// space, then the usage bar, then a newline.
pub open spec fn spec_fs_line(m: FsMountView, mpl: int, width: int) -> Seq<char> {
    let st = spec_fs_style(m.used, m.total);
    let pretty = spec_ellipsis(m.path, width - 1 - MIN_FS_BAR_LEN);
    let bar_len = if width - mpl - 1 > MIN_FS_BAR_LEN {
        width - mpl - 1
    } else {
        MIN_FS_BAR_LEN as int
    };
    spec_paint(st, pretty) + spec_paint(st, char_run(' ', mpl - pretty.len())) + seq![' ']
        + spec_fs_bar(m.used, m.total, bar_len, st) + seq!['\n']
}

/// The first `n` mount lines.
pub open spec fn spec_fs_lines(mounts: Seq<FsMountView>, mpl: int, width: int, n: int) -> Seq<char>
    decreases n,
{
    if n <= 0 {
        Seq::empty()
    } else {
        spec_fs_lines(mounts, mpl, width, n - 1) + spec_fs_line(mounts[n - 1], mpl, width)
    }
}

/// The whole filesystem section at a terminal width: the width is floored
/// at the minimum bar width plus path room, and every mount gets one line.
pub open spec fn spec_render_fs(mounts: Seq<FsMountView>, term_columns: int) -> Seq<char> {
    let width = if term_columns > MIN_FS_BAR_LEN + 3 {
        term_columns
    } else {
        MIN_FS_BAR_LEN + 3
    };
    let mpl = max_path_len(mounts, width - 1 - MIN_FS_BAR_LEN);
    spec_fs_lines(mounts, mpl, width, mounts.len() as int)
}

/// Well-formed mount figures: at least one mount, each sized, not
/// overfull, and small enough that the solid-cell product fits.
pub open spec fn fs_wf(mounts: Seq<FsMountView>) -> bool {
    &&& mounts.len() >= 1
    &&& forall|i: int| 0 <= i < mounts.len() ==> (#[trigger] mounts[i]).total >= 1
    &&& forall|i: int| 0 <= i < mounts.len() ==> (#[trigger] mounts[i]).used <= mounts[i].total
    &&& forall|i: int| 0 <= i < mounts.len() ==> (#[trigger] mounts[i]).used <= 0xFFFF_FFFF_FFFF
}

/// The effective section width: the terminal, floored at the minimum bar
/// width plus room for a shortened path.
pub open spec fn fs_eff_width(term_columns: int) -> int {
    if term_columns > MIN_FS_BAR_LEN + 3 {
        term_columns
    } else {
        MIN_FS_BAR_LEN + 3
    }
}

/// The bar width every mount line gets at an effective width.
pub open spec fn fs_bar_len(mounts: Seq<FsMountView>, width: int) -> int {
    let mpl = max_path_len(mounts, width - 1 - MIN_FS_BAR_LEN);
    if width - mpl - 1 > MIN_FS_BAR_LEN {
        width - mpl - 1
    } else {
        MIN_FS_BAR_LEN as int
    }
}

/// Every caption fits the bar interior the terminal width leaves for it.
pub open spec fn fs_captions_fit(mounts: Seq<FsMountView>, term_columns: int) -> bool {
    forall|i: int|
        0 <= i < mounts.len() ==> spec_fs_bar_text(
            (#[trigger] mounts[i]).used,
            mounts[i].total,
        ).len() <= fs_bar_len(mounts, fs_eff_width(term_columns)) - 2
}

impl FsInfo {
    /// Wrap mount entries.
    pub fn new(mounts: Vec<FsMountInfo>) -> (r: FsInfo)
        ensures
            r@ == mounts.deep_view(),
    {
        FsInfo { mounts }
    }

    /// Render the filesystem section at the given terminal width.
    #[verifier::rlimit(100)]
    pub fn render(&self, term_columns: usize) -> (r: String)
        requires
            fs_wf(self@),
            fs_captions_fit(self@, term_columns as int),
            term_columns <= 0x1_0000,
        ensures
            r@ == spec_render_fs(self@, term_columns as int),
    {
        let width = if term_columns > MIN_FS_BAR_LEN + 3 {
            term_columns
        } else {
            MIN_FS_BAR_LEN + 3
        };
        let budget = width - 1 - MIN_FS_BAR_LEN;
        let n = self.mounts.len();
        proof {
            lemma_max_path_len(self@, budget as int);
        }
        // Longest shortened path.
        let mut mpl: usize = 0;
        let mut i: usize = 0;
        while i < n
            invariant
                n == self@.len(),
                self@ == self.mounts.deep_view(),
                forall|k: int| 0 <= k < n ==> #[trigger] self@[k] == self.mounts@[k]@,
                budget >= 2,
                i <= n,
                mpl == max_path_len(self@.take(i as int), budget as int),
                mpl <= budget,
            decreases n - i,
        {
            let p = ellipsis(self.mounts[i].mount_path.as_str(), budget);
            let pl = p.as_str().unicode_len();
            proof {
                assert(self@.take(i + 1).drop_last() =~= self@.take(i as int));
                assert(self@.take(i + 1).last() == self@[i as int]);
                if self@[i as int].path.len() > budget {
                    assert(p@.len() == budget);
                }
            }
            if pl > mpl {
                mpl = pl;
            }
            i = i + 1;
        }
        proof {
            assert(self@.take(n as int) =~= self@);
        }
        let ghost blen_s = fs_bar_len(self@, fs_eff_width(term_columns as int));
        let mut out = String::new();
        let mut j: usize = 0;
        while j < n
            invariant
                n == self@.len(),
                self@ == self.mounts.deep_view(),
                forall|k: int| 0 <= k < n ==> #[trigger] self@[k] == self.mounts@[k]@,
                fs_wf(self@),
                forall|k: int|
                    0 <= k < n ==> spec_fs_bar_text(
                        (#[trigger] self@[k]).used,
                        self@[k].total,
                    ).len() <= blen_s - 2,
                budget >= 2,
                budget == width - 1 - MIN_FS_BAR_LEN,
                MIN_FS_BAR_LEN + 3 <= width,
                width <= 0x1_0002,
                mpl == max_path_len(self@, budget as int),
                mpl <= budget,
                blen_s == if width - mpl - 1 > MIN_FS_BAR_LEN {
                    width - mpl - 1
                } else {
                    MIN_FS_BAR_LEN as int
                },
                j <= n,
                out@ == spec_fs_lines(self@, mpl as int, width as int, j as int),
            decreases n - j,
        {
            let m = &self.mounts[j];
            proof {
                lemma_max_path_len(self@, budget as int);
                assert(self@[j as int].total >= 1);
                assert(self@[j as int].used <= self@[j as int].total);
                assert(self@[j as int].used <= 0xFFFF_FFFF_FFFF);
                assert(spec_fs_bar_text(self@[j as int].used, self@[j as int].total).len()
                    <= blen_s - 2);
            }
            let st = fs_style(m.used_bytes, m.total_bytes);
            let pretty = ellipsis(m.mount_path.as_str(), budget);
            let plen = pretty.as_str().unicode_len();
            proof {
                assert(spec_ellipsis(self@[j as int].path, budget as int).len() <= mpl);
            }
            let bar_len = if width - mpl - 1 > MIN_FS_BAR_LEN {
                width - mpl - 1
            } else {
                MIN_FS_BAR_LEN
            };
            let seg1 = paint(st, pretty.as_str());
            out.append(seg1.as_str());
            let pad = spaces(mpl - plen);
            let seg2 = paint(st, pad.as_str());
            out.append(seg2.as_str());
            out.append(" ");
            let bar = get_fs_bar(m, bar_len, st);
            out.append(bar.as_str());
            out.append("\n");
            j = j + 1;
            proof {
                reveal_strlit(" ");
                reveal_strlit("\n");
                assert(" "@ =~= seq![' ']);
                assert("\n"@ =~= seq!['\n']);
                assert(out@ =~= spec_fs_lines(self@, mpl as int, width as int, j as int));
            }
        }
        out
    }
}

} // verus!
