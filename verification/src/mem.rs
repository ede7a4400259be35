//! Memory and swap reporting: stat lines with aligned sizes and
//! percentages, and a proportional used/cached/free bar.

use vstd::prelude::*;
use vstd::string::StrSliceExecFns;
use vstd::string::StringExecFns;
use crate::fp::{fp_from_u64, fp_div_pow2, spec_from_u64, spec_div_pow2};
use crate::fmt::{spec_format_kmgt, format_kmgt, spec_fmt_tenths, fmt_tenths};
use crate::bar::{BarPart, BarPartView, spec_percent, percent_fp, spec_display_bar, display_bar};
use crate::style::Style;
use crate::text::{char_run, spaces, str_eq, find_index, find_char, lemma_find_index, spec_trim_start, trim_start, all_digits, digits_val, parse_u64};

verus! {

/// Largest kilobyte figure whose byte count still fits in 64 bits.
pub const MAX_KB: u64 = 0x3F_FFFF_FFFF_FFFF;

/// Memory usage figures, keyed by stat name in file order; values are in
/// kilobytes (or plain counts for page-counter stats).
pub struct MemInfo {
    vals: Vec<(String, u64)>,
}

/// Swap usage view over the same figures.
pub struct SwapInfo {
    mem: MemInfo,
}

/// First value stored under a key.
pub open spec fn spec_get(vals: Seq<(String, u64)>, key: Seq<char>) -> Option<u64>
    decreases vals.len(),
{
    if vals.len() == 0 {
        None
    } else if vals[0].0@ == key {
        Some(vals[0].1)
    } else {
        spec_get(vals.drop_first(), key)
    }
}

/// The value stored under a key, zero when absent.
pub open spec fn spec_getv(vals: Seq<(String, u64)>, key: Seq<char>) -> u64 {
    match spec_get(vals, key) {
        Some(v) => v,
        None => 0,
    }
}

impl View for MemInfo {
    type V = Seq<(String, u64)>;

    closed spec fn view(&self) -> Seq<(String, u64)> {
        self.vals@
    }
}

impl MemInfo {
    /// Wrap parsed stat pairs.
    pub fn new(vals: Vec<(String, u64)>) -> (r: MemInfo)
        ensures
            r@ == vals@,
    {
        MemInfo { vals }
    }

    /// Look up a stat by name (first match wins).
    pub fn get(&self, key: &str) -> (r: Option<u64>)
        ensures
            r == spec_get(self@, key@),
    {
        let n = self.vals.len();
        let mut i: usize = 0;
        proof {
            assert(self@.skip(0) =~= self@);
        }
        while i < n
            invariant
                n == self@.len(),
                i <= n,
                spec_get(self@, key@) == spec_get(self@.skip(i as int), key@),
            decreases n - i,
        {
            proof {
                assert(self@.skip(i as int)[0] == self@[i as int]);
                assert(self@.skip(i as int).drop_first() =~= self@.skip(i + 1));
            }
            if str_eq(self.vals[i].0.as_str(), key) {
                return Some(self.vals[i].1);
            }
            i = i + 1;
        }
        proof {
            assert(self@.skip(n as int) =~= Seq::<(String, u64)>::empty());
        }
        None
    }
}

/// The size string of a kilobyte figure: its byte count with binary
/// prefixes and the byte unit.
pub open spec fn spec_size_str(v: u64) -> Seq<char>
    recommends
        v <= MAX_KB,
{
    spec_format_kmgt((v * 1024) as u64, "B"@)
}

/// Longest key, in characters.
pub open spec fn max_key_len(keys: Seq<Seq<char>>) -> int
    decreases keys.len(),
{
    if keys.len() == 0 {
        0
    } else {
        let m = max_key_len(keys.drop_last());
        if keys.last().len() > m {
            keys.last().len() as int
        } else {
            m
        }
    }
}

/// Every key is no longer than the longest.
proof fn lemma_max_key_len(keys: Seq<Seq<char>>)
    ensures
        forall|i: int| 0 <= i < keys.len() ==> (#[trigger] keys[i]).len() <= max_key_len(keys),
        max_key_len(keys) >= 0,
    decreases keys.len(),
{
    if keys.len() > 0 {
        lemma_max_key_len(keys.drop_last());
        assert(forall|i: int|
            0 <= i < keys.len() - 1 ==> #[trigger] keys[i] == keys.drop_last()[i]);
    }
}

/// Longest size string over the listed keys, in characters.
pub open spec fn max_size_len(vals: Seq<(String, u64)>, keys: Seq<Seq<char>>) -> int
    decreases keys.len(),
{
    if keys.len() == 0 {
        0
    } else {
        let m = max_size_len(vals, keys.drop_last());
        let l = spec_size_str(spec_getv(vals, keys.last())).len() as int;
        if l > m {
            l
        } else {
            m
        }
    }
}

/// Every size string is no longer than the longest.
proof fn lemma_max_size_len(vals: Seq<(String, u64)>, keys: Seq<Seq<char>>)
    ensures
        forall|i: int|
            0 <= i < keys.len() ==> spec_size_str(
                spec_getv(vals, #[trigger] keys[i]),
            ).len() <= max_size_len(vals, keys),
        max_size_len(vals, keys) >= 0,
    decreases keys.len(),
{
    if keys.len() > 0 {
        lemma_max_size_len(vals, keys.drop_last());
        assert(forall|i: int|
            0 <= i < keys.len() - 1 ==> #[trigger] keys[i] == keys.drop_last()[i]);
    }
}

/// A percentage with one decimal place, right-aligned to four characters.
pub open spec fn spec_pct4(x: u64, t: u64) -> Seq<char> {
    let s = spec_fmt_tenths(spec_percent(x, t));
    if s.len() >= 4 {
        s
    } else {
        char_run(' ', 4 - s.len()) + s
    }
}

/// One stat line: the key, alignment spacing, the size, and — except for
/// the total itself — the share of the total.
pub open spec fn spec_stats_line(
    vals: Seq<(String, u64)>,
    key: Seq<char>,
    total_key: Seq<char>,
    kmax: int,
    smax: int,
) -> Seq<char> {
    let v = spec_getv(vals, key);
    let size = spec_size_str(v);
    let head = key + seq![':', ' '] + char_run(' ', kmax - key.len() + smax - size.len()) + size;
    let tail = if key == total_key {
        Seq::<char>::empty()
    } else {
        seq![' ', '('] + spec_pct4(v, spec_getv(vals, total_key)) + seq!['%', ')']
    };
    head + tail + seq!['\n']
}

/// The first `n` stat lines, concatenated.
pub open spec fn spec_stats_lines(
    vals: Seq<(String, u64)>,
    keys: Seq<Seq<char>>,
    total_key: Seq<char>,
    kmax: int,
    smax: int,
    n: int,
) -> Seq<char>
    decreases n,
{
    if n <= 0 {
        Seq::empty()
    } else {
        spec_stats_lines(vals, keys, total_key, kmax, smax, n - 1) + spec_stats_line(
            vals,
            keys[n - 1],
            total_key,
            kmax,
            smax,
        )
    }
}

/// All stat lines for the listed keys, sizes and keys aligned in columns.
pub open spec fn spec_display_stats(
    vals: Seq<(String, u64)>,
    keys: Seq<Seq<char>>,
    total_key: Seq<char>,
) -> Seq<char> {
    spec_stats_lines(
        vals,
        keys,
        total_key,
        max_key_len(keys),
        max_size_len(vals, keys),
        keys.len() as int,
    )
}

/// Render a percentage right-aligned to four characters.
fn pct4(x: u64, t: u64) -> (r: String)
    requires
        t >= 1,
    ensures
        r@ == spec_pct4(x, t),
{
    let p = percent_fp(x, t);
    let s = fmt_tenths(p);
    let sl = s.as_str().unicode_len();
    if sl >= 4 {
        s
    } else {
        let mut r = spaces(4 - sl);
        r.append(s.as_str());
        r
    }
}

impl MemInfo {
    /// Print one aligned line per listed stat: its size in bytes and its
    /// share of the total stat.
    pub fn display_stats(&self, keys: Vec<&str>, total_key: &str) -> (r: String)
        requires
            forall|i: int| 0 <= i < keys@.len() ==> spec_get(self@, (#[trigger] keys@[i])@) is Some,
            forall|i: int|
                0 <= i < keys@.len() ==> spec_getv(self@, (#[trigger] keys@[i])@) <= MAX_KB,
            spec_get(self@, total_key@) is Some,
            spec_getv(self@, total_key@) >= 1,
        ensures
            r@ == spec_display_stats(self@, keys.deep_view(), total_key@),
    {
        let ghost dv = keys.deep_view();
        proof {
            assert(dv.len() == keys@.len());
            assert(forall|i: int| 0 <= i < keys@.len() ==> #[trigger] dv[i] == keys@[i]@);
            lemma_max_key_len(dv);
            lemma_max_size_len(self@, dv);
        }
        let n = keys.len();
        // Longest key.
        let mut kmax: usize = 0;
        let mut i: usize = 0;
        while i < n
            invariant
                n == keys@.len(),
                dv == keys.deep_view(),
                dv.len() == n,
                forall|k: int| 0 <= k < n ==> #[trigger] dv[k] == keys@[k]@,
                i <= n,
                kmax == max_key_len(dv.take(i as int)),
                kmax <= usize::MAX,
            decreases n - i,
        {
            let kl = keys[i].unicode_len();
            proof {
                assert(dv.take(i + 1).drop_last() =~= dv.take(i as int));
                assert(dv.take(i + 1).last() == dv[i as int]);
            }
            if kl > kmax {
                kmax = kl;
            }
            i = i + 1;
        }
        proof {
            assert(dv.take(n as int) =~= dv);
        }
        // Longest size string.
        let mut smax: usize = 0;
        let mut i2: usize = 0;
        while i2 < n
            invariant
                n == keys@.len(),
                dv == keys.deep_view(),
                dv.len() == n,
                forall|k: int| 0 <= k < n ==> #[trigger] dv[k] == keys@[k]@,
                forall|k: int| 0 <= k < n ==> spec_get(self@, (#[trigger] keys@[k])@) is Some,
                forall|k: int| 0 <= k < n ==> spec_getv(self@, (#[trigger] keys@[k])@) <= MAX_KB,
                i2 <= n,
                smax == max_size_len(self@, dv.take(i2 as int)),
                smax <= usize::MAX,
            decreases n - i2,
        {
            let v = self.get(keys[i2]).unwrap();
            let s = format_kmgt(v * 1024, "B");
            let sl = s.as_str().unicode_len();
            proof {
                assert(dv.take(i2 + 1).drop_last() =~= dv.take(i2 as int));
                assert(dv.take(i2 + 1).last() == dv[i2 as int]);
            }
            if sl > smax {
                smax = sl;
            }
            i2 = i2 + 1;
        }
        proof {
            assert(dv.take(n as int) =~= dv);
        }
        // Assemble the lines.
        let ghost kmax_s = max_key_len(dv);
        let ghost smax_s = max_size_len(self@, dv);
        let mut out = String::new();
        let mut j: usize = 0;
        while j < n
            invariant
                n == keys@.len(),
                dv == keys.deep_view(),
                dv.len() == n,
                forall|k: int| 0 <= k < n ==> #[trigger] dv[k] == keys@[k]@,
                forall|k: int| 0 <= k < n ==> spec_get(self@, (#[trigger] keys@[k])@) is Some,
                forall|k: int| 0 <= k < n ==> spec_getv(self@, (#[trigger] keys@[k])@) <= MAX_KB,
                spec_get(self@, total_key@) is Some,
                spec_getv(self@, total_key@) >= 1,
                kmax == kmax_s,
                smax == smax_s,
                forall|k: int| 0 <= k < n ==> (#[trigger] dv[k]).len() <= kmax_s,
                forall|k: int|
                    0 <= k < n ==> spec_size_str(
                        spec_getv(self@, #[trigger] dv[k]),
                    ).len() <= smax_s,
                j <= n,
                out@ == spec_stats_lines(self@, dv, total_key@, kmax_s, smax_s, j as int),
            decreases n - j,
        {
            let v = self.get(keys[j]).unwrap();
            let size = format_kmgt(v * 1024, "B");
            let klen = keys[j].unicode_len();
            let slen = size.as_str().unicode_len();
            proof {
                assert(dv[j as int].len() <= kmax_s);
                assert(spec_size_str(spec_getv(self@, dv[j as int])).len() <= smax_s);
                assert(size@ == spec_size_str(spec_getv(self@, dv[j as int])));
            }
            let mut line = keys[j].to_owned();
            line.append(": ");
            let pad1 = spaces(kmax - klen);
            let pad2 = spaces(smax - slen);
            line.append(pad1.as_str());
            line.append(pad2.as_str());
            proof {
                assert(pad1@ + pad2@ =~= char_run(
                    ' ',
                    kmax_s - dv[j as int].len() + (smax_s - spec_size_str(
                        spec_getv(self@, dv[j as int]),
                    ).len()),
                ));
            }
            line.append(size.as_str());
            if !str_eq(keys[j], total_key) {
                let t = self.get(total_key).unwrap();
                line.append(" (");
                let p = pct4(v, t);
                line.append(p.as_str());
                line.append("%)");
            }
            line.append("\n");
            out.append(line.as_str());
            j = j + 1;
            proof {
                reveal_strlit(": ");
                reveal_strlit(" (");
                reveal_strlit("%)");
                reveal_strlit("\n");
                assert(": "@ =~= seq![':', ' ']);
                assert(" ("@ =~= seq![' ', '(']);
                assert("%)"@ =~= seq!['%', ')']);
                assert("\n"@ =~= seq!['\n']);
                assert(out@ =~= spec_stats_lines(self@, dv, total_key@, kmax_s, smax_s, j as int));
            }
        }
        out
    }
}

/// The gigabyte label piece of a bar part: a space, the mebibyte figure
/// divided by 1024 with one decimal place, and the GB suffix.
pub open spec fn spec_gb_label(mb: u64) -> Seq<char> {
    seq![' '] + spec_fmt_tenths(spec_div_pow2(spec_from_u64(mb), 10)) + seq!['G', 'B']
}

/// The percent label piece of a bar part.
pub open spec fn spec_pct_label(x: u64, t: u64) -> Seq<char> {
    seq![' ', '('] + spec_fmt_tenths(spec_percent(x, t)) + seq!['%', ')']
}

fn gb_label(mb: u64) -> (r: String)
    ensures
        r@ == spec_gb_label(mb),
{
    let v = fp_div_pow2(fp_from_u64(mb), 10);
    let mut r = String::from_str(" ");
    let t = fmt_tenths(v);
    r.append(t.as_str());
    r.append("GB");
    proof {
        reveal_strlit(" ");
        reveal_strlit("GB");
        assert(" "@ =~= seq![' ']);
        assert("GB"@ =~= seq!['G', 'B']);
        assert(r@ =~= spec_gb_label(mb));
    }
    r
}

fn pct_label(x: u64, t: u64) -> (r: String)
    requires
        t >= 1,
    ensures
        r@ == spec_pct_label(x, t),
{
    let p = percent_fp(x, t);
    let mut r = String::from_str(" (");
    let s = fmt_tenths(p);
    r.append(s.as_str());
    r.append("%)");
    proof {
        reveal_strlit(" (");
        reveal_strlit("%)");
        assert(" ("@ =~= seq![' ', '(']);
        assert("%)"@ =~= seq!['%', ')']);
        assert(r@ =~= spec_pct_label(x, t));
    }
    r
}

/// The plain style, as a specification value.
pub open spec fn spec_plain() -> Style {
    Style {
        bold: false,
        dimmed: false,
        italic: false,
        underline: false,
        blink: false,
        reverse: false,
        fg: None,
    }
}

/// The three segments of the memory bar: used (reversed label over solid
/// fill), cached plus buffers (dimmed), and free (blank fill).
pub open spec fn spec_mem_bar_parts(total_mb: u64, used_mb: u64, cached_mb: u64, free_mb: u64)
    -> Seq<BarPartView> {
    seq![
        BarPartView {
            labels: seq!["Used"@, spec_gb_label(used_mb), spec_pct_label(used_mb, total_mb)],
            share: spec_percent(used_mb, total_mb),
            fill_glyph: '\u{2588}',
            text_style: Style { reverse: true, ..spec_plain() },
            fill_style: spec_plain(),
        },
        BarPartView {
            labels: seq!["Cached"@, spec_gb_label(cached_mb), spec_pct_label(cached_mb, total_mb)],
            share: spec_percent(cached_mb, total_mb),
            fill_glyph: '\u{2588}',
            text_style: Style { dimmed: true, reverse: true, ..spec_plain() },
            fill_style: Style { dimmed: true, ..spec_plain() },
        },
        BarPartView {
            labels: seq!["Free"@, spec_gb_label(free_mb), spec_pct_label(free_mb, total_mb)],
            share: spec_percent(free_mb, total_mb),
            fill_glyph: ' ',
            text_style: spec_plain(),
            fill_style: spec_plain(),
        },
    ]
}

/// The stat names of the memory section.
pub open spec fn spec_mem_keys() -> Seq<Seq<char>> {
    seq!["MemTotal"@, "MemFree"@, "Dirty"@, "Cached"@, "Buffers"@]
}

/// Well-formed memory figures: the five reported stats are present, small
/// enough to count in bytes, and consistent (the total covers cache,
/// buffers and free memory, and is at least one mebibyte).
pub open spec fn mem_wf(vals: Seq<(String, u64)>) -> bool {
    &&& spec_get(vals, "MemTotal"@) is Some
    &&& spec_get(vals, "MemFree"@) is Some
    &&& spec_get(vals, "Dirty"@) is Some
    &&& spec_get(vals, "Cached"@) is Some
    &&& spec_get(vals, "Buffers"@) is Some
    &&& spec_getv(vals, "MemTotal"@) <= MAX_KB
    &&& spec_getv(vals, "MemFree"@) <= MAX_KB
    &&& spec_getv(vals, "Dirty"@) <= MAX_KB
    &&& spec_getv(vals, "Cached"@) <= MAX_KB
    &&& spec_getv(vals, "Buffers"@) <= MAX_KB
    &&& spec_getv(vals, "MemTotal"@) / 1024 >= 1
    &&& spec_getv(vals, "MemTotal"@) / 1024 >= spec_getv(vals, "Cached"@) / 1024 + spec_getv(
        vals,
        "Buffers"@,
    ) / 1024 + spec_getv(vals, "MemFree"@) / 1024
}

/// The whole memory section: the five stat lines, then the bar.
pub open spec fn spec_render_mem(vals: Seq<(String, u64)>, cols: u64) -> Seq<char> {
    let total_mb = spec_getv(vals, "MemTotal"@) / 1024;
    let cached_mb = (spec_getv(vals, "Cached"@) / 1024 + spec_getv(vals, "Buffers"@) / 1024) as u64;
    let free_mb = spec_getv(vals, "MemFree"@) / 1024;
    let used_mb = (total_mb - cached_mb - free_mb) as u64;
    spec_display_stats(vals, spec_mem_keys(), "MemTotal"@) + spec_display_bar(
        spec_mem_bar_parts(total_mb, used_mb, cached_mb, free_mb),
        cols,
    )
}

impl MemInfo {
    /// Render the memory section at the given terminal width.
    pub fn render(&self, term_columns: usize) -> (r: String)
        requires
            mem_wf(self@),
            2 <= term_columns,
            term_columns <= 0x1_0002,
        ensures
            r@ == spec_render_mem(self@, term_columns as u64),
    {
        let keys = vec!["MemTotal", "MemFree", "Dirty", "Cached", "Buffers"];
        proof {
            assert(keys@[0]@ == "MemTotal"@);
            assert(keys@[1]@ == "MemFree"@);
            assert(keys@[2]@ == "Dirty"@);
            assert(keys@[3]@ == "Cached"@);
            assert(keys@[4]@ == "Buffers"@);
            assert(keys.deep_view() =~= spec_mem_keys());
            assert(forall|i: int|
                0 <= i < keys@.len() ==> spec_get(self@, (#[trigger] keys@[i])@) is Some) by {
                assert(keys@.len() == 5);
            }
        }
        let mut out = self.display_stats(keys, "MemTotal");
        let total_mb = self.get("MemTotal").unwrap() / 1024;
        let cached_mb = self.get("Cached").unwrap() / 1024 + self.get("Buffers").unwrap() / 1024;
        let free_mb = self.get("MemFree").unwrap() / 1024;
        let used_mb = total_mb - cached_mb - free_mb;
        let used_share = percent_fp(used_mb, total_mb);
        let cached_share = percent_fp(cached_mb, total_mb);
        let free_share = percent_fp(free_mb, total_mb);

        let mut labels1: Vec<String> = Vec::new();
        labels1.push(String::from_str("Used"));
        labels1.push(gb_label(used_mb));
        labels1.push(pct_label(used_mb, total_mb));
        let p1 = BarPart {
            labels: labels1,
            share: used_share,
            fill_glyph: '\u{2588}',
            text_style: Style::plain().reverse(),
            fill_style: Style::plain(),
        };
        let mut labels2: Vec<String> = Vec::new();
        labels2.push(String::from_str("Cached"));
        labels2.push(gb_label(cached_mb));
        labels2.push(pct_label(cached_mb, total_mb));
        let p2 = BarPart {
            labels: labels2,
            share: cached_share,
            fill_glyph: '\u{2588}',
            text_style: Style::plain().dimmed().reverse(),
            fill_style: Style::plain().dimmed(),
        };
        let mut labels3: Vec<String> = Vec::new();
        labels3.push(String::from_str("Free"));
        labels3.push(gb_label(free_mb));
        labels3.push(pct_label(free_mb, total_mb));
        let p3 = BarPart {
            labels: labels3,
            share: free_share,
            fill_glyph: ' ',
            text_style: Style::plain(),
            fill_style: Style::plain(),
        };
        let mut parts: Vec<BarPart> = Vec::new();
        parts.push(p1);
        parts.push(p2);
        parts.push(p3);
        proof {
            assert(parts.deep_view() =~= spec_mem_bar_parts(
                total_mb,
                used_mb,
                cached_mb,
                free_mb,
            )) by {
                assert(parts@[0]@.labels =~= seq![
                    "Used"@,
                    spec_gb_label(used_mb),
                    spec_pct_label(used_mb, total_mb),
                ]);
                assert(parts@[1]@.labels =~= seq![
                    "Cached"@,
                    spec_gb_label(cached_mb),
                    spec_pct_label(cached_mb, total_mb),
                ]);
                assert(parts@[2]@.labels =~= seq![
                    "Free"@,
                    spec_gb_label(free_mb),
                    spec_pct_label(free_mb, total_mb),
                ]);
            }
        }
        let bar = display_bar(&parts, term_columns);
        out.append(bar.as_str());
        proof {
            assert(out@ =~= spec_render_mem(self@, term_columns as u64));
        }
        out
    }
}

impl From<MemInfo> for SwapInfo {
    /// Wrap memory figures for the swap view.
    fn from(mi: MemInfo) -> (r: SwapInfo) {
        SwapInfo { mem: mi }
    }
}

impl vstd::std_specs::convert::FromSpecImpl<MemInfo> for SwapInfo {
    open spec fn obeys_from_spec() -> bool {
        true
    }

    closed spec fn from_spec(mi: MemInfo) -> SwapInfo {
        SwapInfo { mem: mi }
    }
}

impl View for SwapInfo {
    type V = Seq<(String, u64)>;

    closed spec fn view(&self) -> Seq<(String, u64)> {
        self.mem@
    }
}

/// The two segments of the swap bar.
pub open spec fn spec_swap_bar_parts(total_mb: u64, used_mb: u64, free_mb: u64)
    -> Seq<BarPartView> {
    seq![
        BarPartView {
            labels: seq!["Used"@, spec_gb_label(used_mb), spec_pct_label(used_mb, total_mb)],
            share: spec_percent(used_mb, total_mb),
            fill_glyph: '\u{2588}',
            text_style: Style { reverse: true, ..spec_plain() },
            fill_style: spec_plain(),
        },
        BarPartView {
            labels: seq!["Swap free"@, spec_gb_label(free_mb), spec_pct_label(free_mb, total_mb)],
            share: spec_percent(free_mb, total_mb),
            fill_glyph: ' ',
            text_style: spec_plain(),
            fill_style: spec_plain(),
        },
    ]
}

/// Well-formed swap figures: both stats are present; when any swap is
/// configured it amounts to at least one mebibyte and covers the free
/// figure.
pub open spec fn swap_wf(vals: Seq<(String, u64)>) -> bool {
    &&& spec_get(vals, "SwapTotal"@) is Some
    &&& spec_get(vals, "SwapFree"@) is Some
    &&& spec_getv(vals, "SwapTotal"@) <= MAX_KB
    &&& spec_getv(vals, "SwapFree"@) <= MAX_KB
    &&& (spec_getv(vals, "SwapTotal"@) > 0 ==> {
        &&& spec_getv(vals, "SwapTotal"@) / 1024 >= 1
        &&& spec_getv(vals, "SwapTotal"@) / 1024 >= spec_getv(vals, "SwapFree"@) / 1024
    })
}

/// The whole swap section: empty when no swap is configured (the section
/// is then suppressed entirely), else the stat lines and the bar.
pub open spec fn spec_render_swap(vals: Seq<(String, u64)>, cols: u64) -> Seq<char> {
    if spec_getv(vals, "SwapTotal"@) == 0 {
        Seq::empty()
    } else {
        let total_mb = spec_getv(vals, "SwapTotal"@) / 1024;
        let free_mb = spec_getv(vals, "SwapFree"@) / 1024;
        let used_mb = (total_mb - free_mb) as u64;
        spec_display_stats(vals, seq!["SwapTotal"@, "SwapFree"@], "SwapTotal"@)
            + spec_display_bar(spec_swap_bar_parts(total_mb, used_mb, free_mb), cols)
    }
}

impl SwapInfo {
    /// Render the swap section at the given terminal width; empty output
    /// when no swap is configured.
    pub fn render(&self, term_columns: usize) -> (r: String)
        requires
            swap_wf(self@),
            2 <= term_columns,
            term_columns <= 0x1_0002,
        ensures
            r@ == spec_render_swap(self@, term_columns as u64),
    {
        let total_kb = self.mem.get("SwapTotal").unwrap();
        if total_kb == 0 {
            let r = String::new();
            return r;
        }
        let keys = vec!["SwapTotal", "SwapFree"];
        proof {
            assert(keys@[0]@ == "SwapTotal"@);
            assert(keys@[1]@ == "SwapFree"@);
            assert(keys.deep_view() =~= seq!["SwapTotal"@, "SwapFree"@]);
            assert(keys@.len() == 2);
        }
        let mut out = self.mem.display_stats(keys, "SwapTotal");
        let total_mb = total_kb / 1024;
        let free_mb = self.mem.get("SwapFree").unwrap() / 1024;
        let used_mb = total_mb - free_mb;
        let used_share = percent_fp(used_mb, total_mb);
        let free_share = percent_fp(free_mb, total_mb);
        let mut labels1: Vec<String> = Vec::new();
        labels1.push(String::from_str("Used"));
        labels1.push(gb_label(used_mb));
        labels1.push(pct_label(used_mb, total_mb));
        let p1 = BarPart {
            labels: labels1,
            share: used_share,
            fill_glyph: '\u{2588}',
            text_style: Style::plain().reverse(),
            fill_style: Style::plain(),
        };
        let mut labels2: Vec<String> = Vec::new();
        labels2.push(String::from_str("Swap free"));
        labels2.push(gb_label(free_mb));
        labels2.push(pct_label(free_mb, total_mb));
        let p2 = BarPart {
            labels: labels2,
            share: free_share,
            fill_glyph: ' ',
            text_style: Style::plain(),
            fill_style: Style::plain(),
        };
        let mut parts: Vec<BarPart> = Vec::new();
        parts.push(p1);
        parts.push(p2);
        proof {
            assert(parts.deep_view() =~= spec_swap_bar_parts(total_mb, used_mb, free_mb)) by {
                assert(parts@[0]@.labels =~= seq![
                    "Used"@,
                    spec_gb_label(used_mb),
                    spec_pct_label(used_mb, total_mb),
                ]);
                assert(parts@[1]@.labels =~= seq![
                    "Swap free"@,
                    spec_gb_label(free_mb),
                    spec_pct_label(free_mb, total_mb),
                ]);
            }
        }
        let bar = display_bar(&parts, term_columns);
        out.append(bar.as_str());
        proof {
            assert(out@ =~= spec_render_swap(self@, term_columns as u64));
        }
        out
    }
}

/// The stat pair on one kernel memory-info line: the key before the
/// colon, and the number in the first token of the trimmed value part.
pub open spec fn spec_meminfo_line(line: Seq<char>) -> Option<(Seq<char>, u64)> {
    match find_index(line, ':') {
        Some(i) => {
            let key = line.take(i);
            let rest = spec_trim_start(line.skip(i + 1));
            let tok = match find_index(rest, ' ') {
                Some(j) => rest.take(j),
                None => rest,
            };
            if tok.len() >= 1 && all_digits(tok) && digits_val(tok) <= u64::MAX {
                Some((key, digits_val(tok) as u64))
            } else {
                None
            }
        },
        None => None,
    }
}

/// Parse one kernel memory-info line into a stat pair.
pub fn parse_meminfo_line(line: &str) -> (r: Option<(String, u64)>)
    ensures
        match r {
            Some(p) => spec_meminfo_line(line@) == Some((p.0@, p.1)),
            None => spec_meminfo_line(line@) is None,
        },
{
    proof {
        lemma_find_index(line@, ':');
    }
    let n = line.unicode_len();
    let i = match find_char(line, ':') {
        Some(i) => i,
        None => {
            return None;
        },
    };
    let key = line.substring_char(0, i).to_owned();
    let sub = line.substring_char(i + 1, n);
    let rest = trim_start(sub);
    proof {
        assert(sub@ =~= line@.skip(i + 1));
    }
    proof {
        lemma_find_index(rest@, ' ');
    }
    let tok = match find_char(rest.as_str(), ' ') {
        Some(j) => rest.as_str().substring_char(0, j),
        None => rest.as_str(),
    };
    match parse_u64(tok) {
        Some(v) => Some((key, v)),
        None => None,
    }
}

} // verus!
