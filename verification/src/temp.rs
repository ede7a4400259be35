//! Hardware temperature reporting: one aligned line per sensor, colored
//! by warning and critical thresholds, plus the threshold heuristics and
//! the sysfs value parser.

use vstd::prelude::*;
use vstd::string::StrSliceExecFns;
use vstd::string::StringExecFns;
use crate::style::{Style, Color, spec_paint, paint};
use crate::text::{char_run, spaces, dec_digits, u64_to_dec, all_digits, digits_val, parse_u64, spec_trim_end, trim_end};

verus! {

/// Kind of a temperature sensor.
#[derive(Clone, Copy, Debug, PartialEq, Eq, Structural)]
pub enum SensorType {
    /// Processor sensor.
    Cpu,
    /// Hard drive or solid-state drive sensor.
    Drive,
    /// Anything else, or unknown.
    OtherOrUnknown,
}

/// One sensor reading with its alert thresholds, in degrees Celsius.
pub struct SensorTemp {
    /// Sensor name.
    pub name: String,
    /// Kind of sensor.
    pub sensor_type: SensorType,
    /// Current temperature.
    pub temp: u32,
    /// Temperature above which the component runs abnormally hot.
    pub temp_warning: u32,
    /// Temperature above which the component runs critically hot.
    pub temp_critical: u32,
}

/// The mathematical content of one sensor entry.
pub ghost struct SensorView {
    /// Sensor name.
    pub name: Seq<char>,
    /// Current temperature.
    pub temp: u32,
    /// Warning threshold.
    pub warning: u32,
    /// Critical threshold.
    pub critical: u32,
}

impl View for SensorTemp {
    type V = SensorView;

    open spec fn view(&self) -> SensorView {
        SensorView {
            name: self.name@,
            temp: self.temp,
            warning: self.temp_warning,
            critical: self.temp_critical,
        }
    }
}

impl DeepView for SensorTemp {
    type V = SensorView;

    open spec fn deep_view(&self) -> SensorView {
        self.view()
    }
}

/// All sensor readings, in display order.
pub struct HardwareTemps {
    temps: Vec<SensorTemp>,
}

impl View for HardwareTemps {
    type V = Seq<SensorView>;

    closed spec fn view(&self) -> Seq<SensorView> {
        self.temps.deep_view()
    }
}

/// The plain style as a specification value.
pub open spec fn temp_plain() -> Style {
    Style {
        bold: false,
        dimmed: false,
        italic: false,
        underline: false,
        blink: false,
        reverse: false,
        fg: None,
    }
}

/// A line colored by temperature level: red at or above the critical
/// threshold, yellow at or above the warning threshold, plain below.
pub open spec fn spec_colorize_from_temp(
    s: Seq<char>,
    temp: u32,
    warning: u32,
    critical: u32,
) -> Seq<char> {
    if temp >= critical {
        spec_paint(Style { fg: Some(Color::Red), ..temp_plain() }, s)
    } else if temp >= warning {
        spec_paint(Style { fg: Some(Color::Yellow), ..temp_plain() }, s)
    } else {
        s
    }
}

/// Color a line by its temperature level.
pub fn colorize_from_temp(string: String, temp: u32, temp_warning: u32, temp_critical: u32) -> (r:
    String)
    ensures
        r@ == spec_colorize_from_temp(string@, temp, temp_warning, temp_critical),
{
    if temp >= temp_critical {
        paint(Style::colored(Color::Red), string.as_str())
    } else if temp >= temp_warning {
        paint(Style::colored(Color::Yellow), string.as_str())
    } else {
        string
    }
}

/// Longest sensor name.
pub open spec fn max_sensor_name_len(temps: Seq<SensorView>) -> int
    decreases temps.len(),
{
    if temps.len() == 0 {
        0
    } else {
        let m = max_sensor_name_len(temps.drop_last());
        if temps.last().name.len() > m {
            temps.last().name.len() as int
        } else {
            m
        }
    }
}

proof fn lemma_max_sensor_name_len(temps: Seq<SensorView>)
    ensures
        forall|i: int|
            0 <= i < temps.len() ==> (#[trigger] temps[i]).name.len() <= max_sensor_name_len(temps),
        max_sensor_name_len(temps) >= 0,
    decreases temps.len(),
{
    if temps.len() > 0 {
        lemma_max_sensor_name_len(temps.drop_last());
        assert(forall|i: int|
            0 <= i < temps.len() - 1 ==> #[trigger] temps[i] == temps.drop_last()[i]);
    }
}

/// One sensor line before coloring: name, alignment, the reading and the
/// degree unit.
pub open spec fn spec_temp_line(v: SensorView, nmax: int) -> Seq<char> {
    v.name + seq![':', ' '] + char_run(' ', nmax - v.name.len()) + dec_digits(v.temp as int)
        + seq![' ', '\u{c9f8}', 'C']
}

/// The first `n` colored sensor lines.
pub open spec fn spec_temp_lines(temps: Seq<SensorView>, nmax: int, n: int) -> Seq<char>
    decreases n,
{
    if n <= 0 {
        Seq::empty()
    } else {
        let v = temps[n - 1];
        spec_temp_lines(temps, nmax, n - 1) + spec_colorize_from_temp(
            spec_temp_line(v, nmax),
            v.temp,
            v.warning,
            v.critical,
        ) + seq!['\n']
    }
}

/// The whole temperature section; empty when no sensor was found.
pub open spec fn spec_render_temps(temps: Seq<SensorView>) -> Seq<char> {
    spec_temp_lines(temps, max_sensor_name_len(temps), temps.len() as int)
}

impl HardwareTemps {
    /// Wrap sensor readings.
    pub fn new(temps: Vec<SensorTemp>) -> (r: HardwareTemps)
        ensures
            r@ == temps.deep_view(),
    {
        HardwareTemps { temps }
    }

    /// Render the temperature section.
    pub fn render(&self) -> (r: String)
        ensures
            r@ == spec_render_temps(self@),
    {
        let n = self.temps.len();
        let mut nmax: usize = 0;
        let mut i: usize = 0;
        while i < n
            invariant
                n == self@.len(),
                self@ == self.temps.deep_view(),
                forall|k: int| 0 <= k < n ==> #[trigger] self@[k] == self.temps@[k]@,
                i <= n,
                nmax == max_sensor_name_len(self@.take(i as int)),
            decreases n - i,
        {
            proof {
                assert(self@.take(i + 1).drop_last() =~= self@.take(i as int));
                assert(self@.take(i + 1).last() == self@[i as int]);
            }
            let nl = self.temps[i].name.as_str().unicode_len();
            if nl > nmax {
                nmax = nl;
            }
            i = i + 1;
        }
        proof {
            assert(self@.take(n as int) =~= self@);
        }
        let ghost nmax_s = max_sensor_name_len(self@);
        let mut out = String::new();
        let mut j: usize = 0;
        while j < n
            invariant
                n == self@.len(),
                self@ == self.temps.deep_view(),
                forall|k: int| 0 <= k < n ==> #[trigger] self@[k] == self.temps@[k]@,
                nmax == nmax_s,
                nmax_s == max_sensor_name_len(self@),
                j <= n,
                out@ == spec_temp_lines(self@, nmax_s, j as int),
            decreases n - j,
        {
            proof {
                lemma_max_sensor_name_len(self@);
                assert(self@[j as int].name.len() <= nmax_s);
            }
            let st = &self.temps[j];
            let nl = st.name.as_str().unicode_len();
            let mut line = st.name.as_str().to_owned();
            line.append(": ");
            let pad = spaces(nmax - nl);
            line.append(pad.as_str());
            let td = u64_to_dec(st.temp as u64);
            line.append(td.as_str());
            line.append(" \u{c9f8}C");
            let colored = colorize_from_temp(line, st.temp, st.temp_warning, st.temp_critical);
            out.append(colored.as_str());
            out.append("\n");
            j = j + 1;
            proof {
                reveal_strlit(": ");
                reveal_strlit(" \u{c9f8}C");
                reveal_strlit("\n");
                assert(": "@ =~= seq![':', ' ']);
                assert(" \u{c9f8}C"@ =~= seq![' ', '\u{c9f8}', 'C']);
                assert("\n"@ =~= seq!['\n']);
                assert(out@ =~= spec_temp_lines(self@, nmax_s, j as int));
            }
        }
        out
    }
}

/// The alert thresholds deduced from a sensor's kind and its reported
/// maximum and critical temperatures: `(warning, critical)`, computed over
/// the mathematical integers.
pub open spec fn spec_thresholds(st: SensorType, max_t: Option<u32>, crit_t: Option<u32>) -> (
    int,
    int,
) {
    if max_t is Some && crit_t is Some {
        let lo0 = if max_t.unwrap() <= crit_t.unwrap() {
            max_t.unwrap() as int
        } else {
            crit_t.unwrap() as int
        };
        let hi = if max_t.unwrap() <= crit_t.unwrap() {
            crit_t.unwrap() as int
        } else {
            max_t.unwrap() as int
        };
        let lo = if st is OtherOrUnknown && hi - lo0 > 20 {
            hi - 20
        } else {
            lo0
        };
        let delta = if st is Cpu {
            (hi - lo0) / 2
        } else {
            5
        };
        (lo - delta, lo)
    } else if max_t is Some {
        let delta: int = if st is Cpu {
            10
        } else {
            5
        };
        (max_t.unwrap() - delta, max_t.unwrap() as int)
    } else {
        if st is Cpu {
            (60, 75)
        } else {
            (50, 60)
        }
    }
}

/// Deduce the warning and critical thresholds of a sensor.
pub fn compute_thresholds(st: SensorType, max_t: Option<u32>, crit_t: Option<u32>) -> (r: (
    u32,
    u32,
))
    requires
        spec_thresholds(st, max_t, crit_t).0 >= 0,
    ensures
        r.0 == spec_thresholds(st, max_t, crit_t).0,
        r.1 == spec_thresholds(st, max_t, crit_t).1,
{
    match (max_t, crit_t) {
        (Some(mt), Some(ct)) => {
            let lo0 = if mt <= ct {
                mt
            } else {
                ct
            };
            let hi = if mt <= ct {
                ct
            } else {
                mt
            };
            let lo = if matches!(st, SensorType::OtherOrUnknown) && hi - lo0 > 20 {
                hi - 20
            } else {
                lo0
            };
            let delta = if matches!(st, SensorType::Cpu) {
                (hi - lo0) / 2
            } else {
                5
            };
            (lo - delta, lo)
        },
        (Some(mt), None) => {
            let delta: u32 = if matches!(st, SensorType::Cpu) {
                10
            } else {
                5
            };
            (mt - delta, mt)
        },
        _ => {
            if matches!(st, SensorType::Cpu) {
                (60, 75)
            } else {
                (50, 60)
            }
        },
    }
}

/// The value a millidegree sysfs reading denotes: degrees Celsius, `Some`
/// exactly when the trimmed text is a decimal that fits an unsigned
/// 32-bit count and lands at one degree or more.
pub open spec fn spec_sysfs_temp(s: Seq<char>) -> Option<u32> {
    let t = spec_trim_end(s);
    if t.len() >= 1 && all_digits(t) && digits_val(t) <= u32::MAX && digits_val(t) / 1000 >= 1 {
        Some((digits_val(t) / 1000) as u32)
    } else {
        None
    }
}

/// Parse a millidegree sysfs reading into degrees Celsius.
pub fn parse_sysfs_temp_value(s: &str) -> (r: Option<u32>)
    ensures
        r == spec_sysfs_temp(s@),
{
    let t = trim_end(s);
    match parse_u64(t.as_str()) {
        Some(v) => {
            if v <= 0xFFFF_FFFF && v / 1000 >= 1 {
                Some((v / 1000) as u32)
            } else {
                None
            }
        },
        None => {
            proof {
                if spec_trim_end(s@).len() >= 1 && all_digits(spec_trim_end(s@)) {
                    if digits_val(spec_trim_end(s@)) <= u32::MAX {
                        assert(false);
                    }
                }
            }
            None
        },
    }
}

} // verus!
