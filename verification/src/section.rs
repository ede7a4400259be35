//! Section bookkeeping and the pure decision logic of the run: the
//! section registry, argument post-processing (letters, de-duplication,
//! terminal width resolution), section titles, and the output sequencer
//! that turns collected results into ordered stdout and stderr text.

use vstd::prelude::*;
use vstd::string::StrSliceExecFns;
use vstd::string::StringExecFns;
use crate::style::{Style, Color, spec_paint, paint};
use crate::text::{char_run, repeat_char, spaces, str_eq, all_digits, digits_val, parse_u64};

verus! {

/// One dashboard section.
#[derive(Clone, Copy, Debug, PartialEq, Eq, Hash, Structural)]
pub enum Section {
    /// System load.
    Load,
    /// Memory usage.
    Mem,
    /// Swap usage.
    Swap,
    /// Filesystem usage.
    FS,
    /// Hardware temperatures.
    Temps,
    /// Network throughput.
    Network,
    /// Failed service units.
    SDFailedUnits,
}

/// The selection letter of a section.
pub open spec fn spec_section_letter(s: Section) -> Seq<char> {
    match s {
        Section::Load => "l"@,
        Section::Mem => "m"@,
        Section::Swap => "s"@,
        Section::FS => "f"@,
        Section::Temps => "t"@,
        Section::Network => "n"@,
        Section::SDFailedUnits => "u"@,
    }
}

/// Get the selection letter of a section.
pub fn section_to_letter(section: Section) -> (r: &'static str)
    ensures
        r@ == spec_section_letter(section),
{
    match section {
        Section::Load => "l",
        Section::Mem => "m",
        Section::Swap => "s",
        Section::FS => "f",
        Section::Temps => "t",
        Section::Network => "n",
        Section::SDFailedUnits => "u",
    }
}

/// The display title of a section.
pub open spec fn spec_section_name(s: Section) -> Seq<char> {
    match s {
        Section::Load => "Load"@,
        Section::Mem => "Memory usage"@,
        Section::Swap => "Swap usage"@,
        Section::FS => "Filesystem usage"@,
        Section::Temps => "Hardware temperatures"@,
        Section::Network => "Network"@,
        Section::SDFailedUnits => "Systemd failed units"@,
    }
}

/// Get the display title of a section.
pub fn pretty_section_name(section: &Section) -> (r: &'static str)
    ensures
        r@ == spec_section_name(*section),
{
    match section {
        Section::Load => "Load",
        Section::Mem => "Memory usage",
        Section::Swap => "Swap usage",
        Section::FS => "Filesystem usage",
        Section::Temps => "Hardware temperatures",
        Section::Network => "Network",
        Section::SDFailedUnits => "Systemd failed units",
    }
}

/// Whether the string is a valid selection letter.
pub open spec fn is_section_letter(s: Seq<char>) -> bool {
    s == "l"@ || s == "m"@ || s == "s"@ || s == "f"@ || s == "t"@ || s == "n"@ || s == "u"@
}

/// Get the section named by a selection letter, which the argument
/// validator has already vetted.
pub fn letter_to_section(letter: &str) -> (r: Section)
    requires
        is_section_letter(letter@),
    ensures
        spec_section_letter(r) == letter@,
{
    if str_eq(letter, "l") {
        Section::Load
    } else if str_eq(letter, "m") {
        Section::Mem
    } else if str_eq(letter, "s") {
        Section::Swap
    } else if str_eq(letter, "f") {
        Section::FS
    } else if str_eq(letter, "t") {
        Section::Temps
    } else if str_eq(letter, "n") {
        Section::Network
    } else {
        Section::SDFailedUnits
    }
}

/// The requested sections with later repeats dropped: each section keeps
/// its first position.
pub open spec fn spec_dedup(s: Seq<Section>) -> Seq<Section>
    decreases s.len(),
{
    if s.len() == 0 {
        s
    } else {
        let d = spec_dedup(s.drop_last());
        if s.take(s.len() - 1).contains(s.last()) {
            d
        } else {
            d.push(s.last())
        }
    }
}

fn sections_contain(v: &Vec<Section>, x: Section) -> (r: bool)
    ensures
        r == v@.contains(x),
{
    let n = v.len();
    let mut i: usize = 0;
    while i < n
        invariant
            n == v@.len(),
            i <= n,
            forall|j: int| 0 <= j < i ==> v@[j] != x,
        decreases n - i,
    {
        if v[i] == x {
            proof {
                assert(v@.contains(x));
            }
            return true;
        }
        i = i + 1;
    }
    proof {
        assert(!v@.contains(x));
    }
    false
}

/// Drop repeated sections, keeping the first occurrence of each.
pub fn dedup_sections(sections: &Vec<Section>) -> (r: Vec<Section>)
    ensures
        r@ == spec_dedup(sections@),
{
    let n = sections.len();
    let mut out: Vec<Section> = Vec::new();
    let mut i: usize = 0;
    proof {
        assert(sections@.take(0) =~= Seq::<Section>::empty());
    }
    while i < n
        invariant
            n == sections@.len(),
            i <= n,
            out@ == spec_dedup(sections@.take(i as int)),
            forall|x: Section| out@.contains(x) <==> sections@.take(i as int).contains(x),
        decreases n - i,
    {
        let s = sections[i];
        let seen = sections_contain(&out, s);
        proof {
            assert(sections@.take(i + 1).drop_last() =~= sections@.take(i as int));
            assert(sections@.take(i + 1).last() == sections@[i as int]);
            assert(sections@.take(i + 1).take(i as int) =~= sections@.take(i as int));
        }
        if !seen {
            let ghost old_out = out@;
            out.push(s);
            proof {
                assert(out@ == old_out.push(s));
                assert forall|x: Section|
                    out@.contains(x) <==> sections@.take(i + 1).contains(x) by {
                    if out@.contains(x) {
                        let w = choose|j: int| 0 <= j < out@.len() && #[trigger] out@[j] == x;
                        if w < old_out.len() {
                            assert(old_out[w] == x);
                            assert(old_out.contains(x));
                            assert(sections@.take(i as int).contains(x));
                            let w2 = choose|j: int|
                                0 <= j < i && #[trigger] sections@.take(i as int)[j] == x;
                            assert(sections@.take(i + 1)[w2] == x);
                            assert(sections@.take(i + 1).contains(x));
                        } else {
                            assert(x == s);
                            assert(sections@.take(i + 1)[i as int] == x);
                            assert(sections@.take(i + 1).contains(x));
                        }
                    }
                    if sections@.take(i + 1).contains(x) {
                        let w = choose|j: int|
                            0 <= j < i + 1 && #[trigger] sections@.take(i + 1)[j] == x;
                        if w < i {
                            assert(sections@.take(i as int)[w] == x);
                            assert(sections@.take(i as int).contains(x));
                            assert(old_out.contains(x));
                            let w2 = choose|j: int|
                                0 <= j < old_out.len() && #[trigger] old_out[j] == x;
                            assert(out@[w2] == x);
                            assert(out@.contains(x));
                        } else {
                            assert(x == s);
                            assert(out@[out@.len() - 1] == x);
                            assert(out@.contains(x));
                        }
                    }
                }
            }
        } else {
            proof {
                assert forall|x: Section|
                    out@.contains(x) <==> sections@.take(i + 1).contains(x) by {
                    if sections@.take(i + 1).contains(x) {
                        let w = choose|j: int|
                            0 <= j < i + 1 && #[trigger] sections@.take(i + 1)[j] == x;
                        if w < i {
                            assert(sections@.take(i as int)[w] == x);
                            assert(sections@.take(i as int).contains(x));
                        }
                    }
                    if sections@.take(i as int).contains(x) {
                        let w = choose|j: int|
                            0 <= j < i && #[trigger] sections@.take(i as int)[j] == x;
                        assert(sections@.take(i + 1)[w] == x);
                        assert(sections@.take(i + 1).contains(x));
                    }
                    if out@.contains(x) {
                        assert(sections@.take(i as int).contains(x));
                    }
                }
            }
        }
        i = i + 1;
    }
    proof {
        assert(sections@.take(n as int) =~= sections@);
    }
    out
}

/// The signed number a decimal string denotes, within the machine's
/// pointer-sized integer range: an optional sign, then digits.
pub open spec fn spec_parse_isize(s: Seq<char>) -> Option<int> {
    if s.len() == 0 {
        None
    } else {
        let signed = s[0] == '-' || s[0] == '+';
        let digits = if signed {
            s.drop_first()
        } else {
            s
        };
        if digits.len() >= 1 && all_digits(digits) {
            let v = if s[0] == '-' {
                -digits_val(digits)
            } else {
                digits_val(digits)
            };
            if isize::MIN <= v <= isize::MAX {
                Some(v)
            } else {
                None
            }
        } else {
            None
        }
    }
}

/// Parse a signed pointer-sized integer.
pub fn parse_isize(s: &str) -> (r: Option<isize>)
    ensures
        match r {
            Some(v) => spec_parse_isize(s@) == Some(v as int),
            None => spec_parse_isize(s@) is None,
        },
{
    let n = s.unicode_len();
    if n == 0 {
        return None;
    }
    let c0 = s.get_char(0);
    let signed = c0 == '-' || c0 == '+';
    let start: usize = if signed {
        1
    } else {
        0
    };
    let digits = s.substring_char(start, n);
    proof {
        if signed {
            assert(digits@ =~= s@.drop_first());
        } else {
            assert(digits@ =~= s@);
        }
    }
    match parse_u64(digits) {
        Some(v) => {
            if c0 == '-' {
                if v <= isize::MAX as u64 {
                    Some(-(v as isize))
                } else if v == isize::MAX as u64 + 1 {
                    Some(isize::MIN)
                } else {
                    None
                }
            } else {
                if v <= isize::MAX as u64 {
                    Some(v as isize)
                } else {
                    None
                }
            }
        },
        None => {
            proof {
                let digits_s = if signed {
                    s@.drop_first()
                } else {
                    s@
                };
                if digits_s.len() >= 1 && all_digits(digits_s) {
                    assert(digits_val(digits_s) > u64::MAX);
                }
            }
            None
        },
    }
}

/// Check a command-line value for being a signed integer.
pub fn validator_isize(s: &str) -> (r: Result<(), String>)
    ensures
        r is Ok <==> spec_parse_isize(s@) is Some,
        match r {
            Ok(_) => true,
            Err(m) => m@ == "Not a valid integer value"@,
        },
{
    match parse_isize(s) {
        Some(_) => Ok(()),
        None => Err(String::from_str("Not a valid integer value")),
    }
}

/// The effective terminal width: the requested column count when positive,
/// the detected width (or the fallback of 80 columns) when zero, and the
/// smaller of the two when negative.
pub open spec fn spec_resolve_columns(requested: int, detected: Option<u16>) -> int {
    let det: int = match detected {
        Some(c) => c as int,
        None => 80,
    };
    if requested == 0 {
        det
    } else if requested < 0 {
        if -requested < det {
            -requested
        } else {
            det
        }
    } else {
        requested
    }
}

/// Resolve the terminal width from the request and the detected size.
pub fn resolve_columns(requested: isize, detected: Option<u16>) -> (r: usize)
    requires
        requested > isize::MIN,
    ensures
        r == spec_resolve_columns(requested as int, detected),
{
    let det: usize = match detected {
        Some(c) => c as usize,
        None => 80,
    };
    if requested == 0 {
        det
    } else if requested < 0 {
        let want = (-requested) as usize;
        if want < det {
            want
        } else {
            det
        }
    } else {
        requested as usize
    }
}

/// A section title centered in a rule across the terminal: the title
/// between single spaces, the slack split with the extra cell on the
/// right.
pub open spec fn spec_output_title(title: Seq<char>, columns: int) -> Seq<char> {
    let text = seq![' '] + title + seq![' '];
    if text.len() >= columns {
        text + seq!['\n']
    } else {
        let slack = columns - text.len();
        char_run('\u{2500}', slack / 2) + text + char_run('\u{2500}', slack - slack / 2) + seq![
            '\n',
        ]
    }
}

/// Render a centered, rule-decorated section title line.
pub fn output_title(title: &str, columns: usize) -> (r: String)
    ensures
        r@ == spec_output_title(title@, columns as int),
{
    let tl = title.unicode_len();
    let mut text = String::from_str(" ");
    text.append(title);
    text.append(" ");
    proof {
        reveal_strlit(" ");
        assert(" "@ =~= seq![' ']);
    }
    if tl >= usize::MAX - 2 || tl + 2 >= columns {
        text.append("\n");
        proof {
            reveal_strlit("\n");
            assert("\n"@ =~= seq!['\n']);
            assert(text@ =~= spec_output_title(title@, columns as int));
        }
        text
    } else {
        let slack = columns - (tl + 2);
        let left = repeat_char('\u{2500}', slack / 2);
        let right = repeat_char('\u{2500}', slack - slack / 2);
        let mut out = left;
        out.append(text.as_str());
        out.append(right.as_str());
        out.append("\n");
        proof {
            reveal_strlit("\n");
            assert("\n"@ =~= seq!['\n']);
            assert(out@ =~= spec_output_title(title@, columns as int));
        }
        out
    }
}

/// The transient status text shown while a section is still loading.
pub fn loading_message() -> (r: &'static str)
    ensures
        r@ == "Loading\u{2026}"@,
{
    "Loading\u{2026}"
}

/// The text that clears the loading message: carriage return, one space
/// per byte of the message, carriage return.
pub open spec fn spec_loading_clear() -> Seq<char> {
    seq!['\r'] + char_run(' ', 10) + seq!['\r']
}

/// Render the loading-message clear text.
pub fn loading_clear() -> (r: String)
    ensures
        r@ == spec_loading_clear(),
{
    let mut out = String::from_str("\r");
    let pad = spaces(10);
    out.append(pad.as_str());
    out.append("\r");
    proof {
        reveal_strlit("\r");
        assert("\r"@ =~= seq!['\r']);
        assert(out@ =~= spec_loading_clear());
    }
    out
}

/// The plain style as a specification value.
pub open spec fn section_plain() -> Style {
    Style {
        bold: false,
        dimmed: false,
        italic: false,
        underline: false,
        blink: false,
        reverse: false,
        fg: None,
    }
}

/// What one section contributes to standard output: nothing when its
/// collector failed or returned empty content (the section is then
/// suppressed entirely); otherwise its title line when titles are shown —
/// or, when they are not, a separating blank line except before the very
/// first section — followed by the body.
pub open spec fn spec_section_stdout(
    title: Seq<char>,
    result: Result<Seq<char>, Seq<char>>,
    show_title: bool,
    is_first: bool,
    columns: int,
) -> Seq<char> {
    match result {
        Ok(body) => {
            if body.len() == 0 {
                Seq::empty()
            } else {
                let head = if show_title {
                    spec_output_title(title, columns)
                } else if is_first {
                    Seq::empty()
                } else {
                    seq!['\n']
                };
                head + body
            }
        },
        Err(_) => Seq::empty(),
    }
}

/// What one section contributes to the diagnostic stream: the clear text
/// when a loading message had been shown, and a red one-line failure
/// notice naming the section when its collector failed.
pub open spec fn spec_section_stderr(
    title: Seq<char>,
    result: Result<Seq<char>, Seq<char>>,
    delayed: bool,
) -> Seq<char> {
    let clear = if delayed {
        spec_loading_clear()
    } else {
        Seq::<char>::empty()
    };
    match result {
        Ok(_) => clear,
        Err(e) => clear + spec_paint(
            Style { fg: Some(Color::Red), ..section_plain() },
            "Failed to get data for '"@ + title + "' section: "@ + e,
        ) + seq!['\n'],
    }
}

/// The view of a section result.
pub open spec fn res_view(r: &Result<String, String>) -> Result<Seq<char>, Seq<char>> {
    match r {
        Ok(s) => Ok(s@),
        Err(e) => Err(e@),
    }
}

/// Compose one section's stdout and stderr text.
pub fn output_section(
    title: &str,
    lines: &Result<String, String>,
    show_title: bool,
    delayed: bool,
    is_first: bool,
    columns: usize,
) -> (r: (String, String))
    ensures
        r.0@ == spec_section_stdout(title@, res_view(lines), show_title, is_first, columns as int),
        r.1@ == spec_section_stderr(title@, res_view(lines), delayed),
{
    let mut err = if delayed {
        loading_clear()
    } else {
        String::new()
    };
    let mut out = String::new();
    match lines {
        Ok(body) => {
            if body.as_str().unicode_len() > 0 {
                if show_title {
                    let t = output_title(title, columns);
                    out.append(t.as_str());
                } else if !is_first {
                    out.append("\n");
                }
                out.append(body.as_str());
            }
        },
        Err(e) => {
            let mut msg = String::from_str("Failed to get data for '");
            msg.append(title);
            msg.append("' section: ");
            msg.append(e.as_str());
            let painted = paint(Style::colored(Color::Red), msg.as_str());
            err.append(painted.as_str());
            err.append("\n");
        },
    }
    proof {
        reveal_strlit("\n");
        assert("\n"@ =~= seq!['\n']);
        assert(out@ =~= spec_section_stdout(
            title@,
            res_view(lines),
            show_title,
            is_first,
            columns as int,
        ));
        assert(err@ =~= spec_section_stderr(title@, res_view(lines), delayed));
    }
    (out, err)
}

/// One collected section, ready to sequence: its display title, whether a
/// loading indicator was shown while waiting for it, and what its
/// collector produced.
pub struct SectionReport {
    /// Display title.
    pub title: String,
    /// Whether the join had to wait and a loading indicator was shown.
    pub delayed: bool,
    /// Rendered content, or the collector's failure message.
    pub result: Result<String, String>,
}

/// The mathematical content of one report.
pub ghost struct SectionReportView {
    /// Display title.
    pub title: Seq<char>,
    /// Whether a loading indicator was shown.
    pub delayed: bool,
    /// Rendered content or failure message.
    pub result: Result<Seq<char>, Seq<char>>,
}

impl View for SectionReport {
    type V = SectionReportView;

    open spec fn view(&self) -> SectionReportView {
        SectionReportView {
            title: self.title@,
            delayed: self.delayed,
            result: match self.result {
                Ok(ref s) => Ok(s@),
                Err(ref e) => Err(e@),
            },
        }
    }
}

impl DeepView for SectionReport {
    type V = SectionReportView;

    open spec fn deep_view(&self) -> SectionReportView {
        self.view()
    }
}

/// Standard output of the first `n` sections, in requested order.
pub open spec fn spec_run_stdout(
    reports: Seq<SectionReportView>,
    show_titles: bool,
    columns: int,
    n: int,
) -> Seq<char>
    decreases n,
{
    if n <= 0 {
        Seq::empty()
    } else {
        spec_run_stdout(reports, show_titles, columns, n - 1) + spec_section_stdout(
            reports[n - 1].title,
            reports[n - 1].result,
            show_titles,
            n - 1 == 0,
            columns,
        )
    }
}

/// Diagnostic output of the first `n` sections, in requested order.
pub open spec fn spec_run_stderr(reports: Seq<SectionReportView>, n: int) -> Seq<char>
    decreases n,
{
    if n <= 0 {
        Seq::empty()
    } else {
        spec_run_stderr(reports, n - 1) + spec_section_stderr(
            reports[n - 1].title,
            reports[n - 1].result,
            reports[n - 1].delayed,
        )
    }
}

/// Sequence collected sections into the two output streams, in the
/// requested order regardless of which collector finished first.
pub fn run_sections(reports: &Vec<SectionReport>, show_titles: bool, columns: usize) -> (r: (
    String,
    String,
))
    ensures
        r.0@ == spec_run_stdout(
            reports.deep_view(),
            show_titles,
            columns as int,
            reports@.len() as int,
        ),
        r.1@ == spec_run_stderr(reports.deep_view(), reports@.len() as int),
{
    let ghost dv = reports.deep_view();
    proof {
        assert(dv.len() == reports@.len());
        assert(forall|k: int| 0 <= k < reports@.len() ==> #[trigger] dv[k] == reports@[k]@);
    }
    let n = reports.len();
    let mut out = String::new();
    let mut err = String::new();
    let mut i: usize = 0;
    while i < n
        invariant
            n == reports@.len(),
            dv == reports.deep_view(),
            dv.len() == n,
            forall|k: int| 0 <= k < n ==> #[trigger] dv[k] == reports@[k]@,
            i <= n,
            out@ == spec_run_stdout(dv, show_titles, columns as int, i as int),
            err@ == spec_run_stderr(dv, i as int),
        decreases n - i,
    {
        let rep = &reports[i];
        let piece = output_section(
            rep.title.as_str(),
            &rep.result,
            show_titles,
            rep.delayed,
            i == 0,
            columns,
        );
        out.append(piece.0.as_str());
        err.append(piece.1.as_str());
        i = i + 1;
        proof {
            assert(res_view(&rep.result) == dv[i - 1].result);
            assert(out@ =~= spec_run_stdout(dv, show_titles, columns as int, i as int));
            assert(err@ =~= spec_run_stderr(dv, i as int));
        }
    }
    (out, err)
}

/// Sections print strictly in requested order: the streams of a run are
/// the in-order concatenations of the per-section contributions, however
/// early or late each collector finished, and one section's failure
/// leaves every other section's output untouched.
pub proof fn lemma_sequencer_order(
    reports: Seq<SectionReportView>,
    show_titles: bool,
    columns: int,
    i: int,
)
    requires
        0 <= i < reports.len(),
    ensures
        spec_run_stdout(reports, show_titles, columns, i + 1) == spec_run_stdout(
            reports,
            show_titles,
            columns,
            i,
        ) + spec_section_stdout(
            reports[i].title,
            reports[i].result,
            show_titles,
            i == 0,
            columns,
        ),
        spec_run_stderr(reports, i + 1) == spec_run_stderr(reports, i) + spec_section_stderr(
            reports[i].title,
            reports[i].result,
            reports[i].delayed,
        ),
        reports[i].result is Err ==> spec_section_stdout(
            reports[i].title,
            reports[i].result,
            show_titles,
            i == 0,
            columns,
        ) == Seq::<char>::empty(),
{
}

/// A section whose collector returned empty content is suppressed
/// entirely: no title, no body, no blank line.
pub proof fn lemma_empty_section_suppressed(
    title: Seq<char>,
    show_title: bool,
    is_first: bool,
    columns: int,
)
    ensures
        spec_section_stdout(title, Ok(Seq::<char>::empty()), show_title, is_first, columns)
            == Seq::<char>::empty(),
{
}

} // verus!
