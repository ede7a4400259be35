//! Load average reporting: the three averages colored against the
//! processor count, the task count, and the load file parser.

use vstd::prelude::*;
use vstd::string::StrSliceExecFns;
use vstd::string::StringExecFns;
use crate::style::{Style, Color, spec_paint, paint};
use crate::text::{dec_digits, digit_char, u64_to_dec, find_index, find_char, lemma_find_index, all_digits, digits_val, parse_u64};

verus! {

/// System load figures; averages are in hundredths, the resolution the
/// kernel reports them at.
pub struct LoadInfo {
    /// One-minute load average, hundredths.
    pub load_avg_1m: u32,
    /// Five-minute load average, hundredths.
    pub load_avg_5m: u32,
    /// Fifteen-minute load average, hundredths.
    pub load_avg_15m: u32,
    /// Total task count.
    pub task_count: u32,
}

/// A load average in hundredths, shown the shortest way that loses
/// nothing: no decimals for whole numbers, one when the hundredth is
/// zero, two otherwise.
pub open spec fn spec_load_str(h: u32) -> Seq<char> {
    if h % 100 == 0 {
        dec_digits(h as int / 100)
    } else if h % 10 == 0 {
        dec_digits(h as int / 100) + seq!['.', digit_char((h as int / 10) % 10)]
    } else {
        dec_digits(h as int / 100) + seq!['.', digit_char((h as int / 10) % 10), digit_char(
            h as int % 10,
        )]
    }
}

/// Render a load average.
pub fn load_str(h: u32) -> (r: String)
    ensures
        r@ == spec_load_str(h),
{
    let mut r = u64_to_dec((h / 100) as u64);
    if h % 100 == 0 {
        return r;
    }
    r.append(".");
    let d1 = u64_to_dec(((h / 10) % 10) as u64);
    r.append(d1.as_str());
    if h % 10 == 0 {
        proof {
            reveal_strlit(".");
            assert("."@ =~= seq!['.']);
            assert(dec_digits(((h / 10) % 10) as int) =~= seq![digit_char((h as int / 10) % 10)]);
            assert(r@ =~= spec_load_str(h));
        }
        return r;
    }
    let d2 = u64_to_dec((h % 10) as u64);
    r.append(d2.as_str());
    proof {
        reveal_strlit(".");
        assert("."@ =~= seq!['.']);
        assert(dec_digits(((h / 10) % 10) as int) =~= seq![digit_char((h as int / 10) % 10)]);
        assert(dec_digits((h % 10) as int) =~= seq![digit_char(h as int % 10)]);
        assert(r@ =~= spec_load_str(h));
    }
    r
}

/// The plain style as a specification value.
pub open spec fn load_plain() -> Style {
    Style {
        bold: false,
        dimmed: false,
        italic: false,
        underline: false,
        blink: false,
        reverse: false,
        fg: None,
    }
}

/// A load average colored against the processor count: red at or above
/// the whole count, yellow at or above eight tenths of it.
pub open spec fn spec_colorize_load(h: u32, cpu_count: int) -> Seq<char> {
    let s = spec_load_str(h);
    if h >= cpu_count * 100 {
        spec_paint(Style { fg: Some(Color::Red), ..load_plain() }, s)
    } else if h >= cpu_count * 80 {
        spec_paint(Style { fg: Some(Color::Yellow), ..load_plain() }, s)
    } else {
        s
    }
}

/// Color a load average against the processor count.
pub fn colorize_load(load_hundredths: u32, cpu_count: usize) -> (r: String)
    requires
        cpu_count <= 0x100_0000,
    ensures
        r@ == spec_colorize_load(load_hundredths, cpu_count as int),
{
    let s = load_str(load_hundredths);
    let c = cpu_count as u64;
    if load_hundredths as u64 >= c * 100 {
        paint(Style::colored(Color::Red), s.as_str())
    } else if load_hundredths as u64 >= c * 80 {
        paint(Style::colored(Color::Yellow), s.as_str())
    } else {
        s
    }
}

/// The whole load section: the three colored averages, then the task
/// count.
pub open spec fn spec_render_load(l: LoadInfo, cpu_count: int) -> Seq<char> {
    "Load avg 1min: "@ + spec_colorize_load(l.load_avg_1m, cpu_count) + ", 5 min: "@
        + spec_colorize_load(l.load_avg_5m, cpu_count) + ", 15 min: "@ + spec_colorize_load(
        l.load_avg_15m,
        cpu_count,
    ) + seq!['\n'] + "Tasks: "@ + dec_digits(l.task_count as int) + seq!['\n']
}

impl LoadInfo {
    /// Render the load section.
    pub fn render(&self, cpu_count: usize) -> (r: String)
        requires
            cpu_count <= 0x100_0000,
        ensures
            r@ == spec_render_load(*self, cpu_count as int),
    {
        let mut out = String::from_str("Load avg 1min: ");
        let c1 = colorize_load(self.load_avg_1m, cpu_count);
        out.append(c1.as_str());
        out.append(", 5 min: ");
        let c5 = colorize_load(self.load_avg_5m, cpu_count);
        out.append(c5.as_str());
        out.append(", 15 min: ");
        let c15 = colorize_load(self.load_avg_15m, cpu_count);
        out.append(c15.as_str());
        out.append("\n");
        out.append("Tasks: ");
        let t = u64_to_dec(self.task_count as u64);
        out.append(t.as_str());
        out.append("\n");
        proof {
            reveal_strlit("\n");
            assert("\n"@ =~= seq!['\n']);
            assert(out@ =~= spec_render_load(*self, cpu_count as int));
        }
        out
    }
}

/// The hundredths a kernel load token denotes: the kernel prints loads
/// as a whole part and exactly two decimals, so `Some` exactly on
/// `digits '.' digit digit` with a value below 2^32 hundredths.
pub open spec fn spec_load_hundredths(t: Seq<char>) -> Option<u32> {
    match find_index(t, '.') {
        Some(i) => {
            let whole = t.take(i);
            let frac = t.skip(i + 1);
            if whole.len() >= 1 && all_digits(whole) && frac.len() == 2 && all_digits(frac)
                && digits_val(whole) * 100 + digits_val(frac) <= u32::MAX {
                Some((digits_val(whole) * 100 + digits_val(frac)) as u32)
            } else {
                None
            }
        },
        None => None,
    }
}

/// Parse one load token into hundredths.
pub fn parse_load_token(t: &str) -> (r: Option<u32>)
    ensures
        r == spec_load_hundredths(t@),
{
    proof {
        lemma_find_index(t@, '.');
    }
    let n = t.unicode_len();
    match find_char(t, '.') {
        Some(i) => {
            let whole = t.substring_char(0, i);
            let frac = t.substring_char(i + 1, n);
            proof {
                assert(whole@ =~= t@.take(i as int));
                assert(frac@ =~= t@.skip(i + 1));
            }
            if frac.unicode_len() != 2 {
                return None;
            }
            let w = match parse_u64(whole) {
                Some(w) => w,
                None => {
                    proof {
                        let ws = t@.take(i as int);
                        let fs = t@.skip(i + 1);
                        if ws.len() >= 1 && all_digits(ws) && fs.len() == 2 && all_digits(fs) {
                            // The whole part overflows 64 bits, so the
                            // hundredths certainly overflow 32 bits.
                            assert(digits_val(ws) > u64::MAX);
                            lemma_load_digits_nonneg(fs);
                            assert(digits_val(ws) * 100 >= digits_val(ws)) by (nonlinear_arith)
                                requires digits_val(ws) >= 0;
                        }
                    }
                    return None;
                },
            };
            let f = match parse_u64(frac) {
                Some(f) => f,
                None => {
                    return None;
                },
            };
            proof {
                let fs = t@.skip(i + 1);
                if fs.len() == 2 && all_digits(fs) {
                    assert(digits_val(fs) <= 99) by {
                        let d0 = fs.drop_last();
                        assert(d0.len() == 1);
                        assert(d0.drop_last().len() == 0);
                        assert(digits_val(d0) == digits_val(d0.drop_last()) * 10 + (d0.last() as int
                            - 48));
                        assert(digits_val(d0.drop_last()) == 0);
                        assert(48 <= d0.last() as int <= 57) by {
                            assert(d0[0] == fs[0]);
                        }
                        assert(48 <= fs.last() as int <= 57);
                    }
                }
            }
            if w <= 42949672 && w * 100 + f <= 0xFFFF_FFFF {
                Some((w * 100 + f) as u32)
            } else {
                proof {
                    let ws = t@.take(i as int);
                    let fs = t@.skip(i + 1);
                    if w > 42949672 {
                        lemma_load_digits_nonneg(fs);
                        assert(w * 100 > 0xFFFF_FFFF) by (nonlinear_arith)
                            requires w >= 42949673;
                    }
                }
                None
            }
        },
        None => None,
    }
}

/// Digit strings denote nonnegative numbers.
pub proof fn lemma_load_digits_nonneg(s: Seq<char>)
    requires
        all_digits(s),
    ensures
        digits_val(s) >= 0,
    decreases s.len(),
{
    if s.len() > 0 {
        assert(all_digits(s.drop_last()));
        lemma_load_digits_nonneg(s.drop_last());
        assert(digits_val(s.drop_last()) * 10 >= 0) by (nonlinear_arith)
            requires digits_val(s.drop_last()) >= 0;
    }
}

/// The task count on a load line: the total after the slash in the
/// running/total field.
pub open spec fn spec_task_count(t: Seq<char>) -> Option<u32> {
    match find_index(t, '/') {
        Some(i) => {
            let rest = t.skip(i + 1);
            if rest.len() >= 1 && all_digits(rest) && digits_val(rest) <= u32::MAX {
                Some(digits_val(rest) as u32)
            } else {
                None
            }
        },
        None => None,
    }
}

/// Parse the running/total task field into the total count.
pub fn parse_task_count(t: &str) -> (r: Option<u32>)
    ensures
        r == spec_task_count(t@),
{
    proof {
        lemma_find_index(t@, '/');
    }
    let n = t.unicode_len();
    match find_char(t, '/') {
        Some(i) => {
            let total = t.substring_char(i + 1, n);
            proof {
                assert(total@ =~= t@.skip(i + 1));
            }
            match parse_u64(total) {
                Some(v) => {
                    if v <= 0xFFFF_FFFF {
                        Some(v as u32)
                    } else {
                        None
                    }
                },
                None => None,
            }
        },
        None => None,
    }
}

} // verus!
