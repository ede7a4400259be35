//! Failed service unit reporting: the unit names under a system and a
//! user heading, each name in red, and the unit-name parser for the
//! service manager's plain listing output.

use vstd::prelude::*;
use vstd::string::StrSliceExecFns;
use vstd::string::StringExecFns;
use crate::style::{Style, Color, spec_paint, paint};
use crate::text::{find_index, find_char, lemma_find_index, spec_trim_start, trim_start};

verus! {

/// Names of failed service units, split by manager instance.
pub struct FailedUnits {
    system: Vec<String>,
    user: Vec<String>,
}

/// The mathematical content: the two name lists.
pub ghost struct FailedUnitsView {
    /// Units of the system instance.
    pub system: Seq<Seq<char>>,
    /// Units of the user instance.
    pub user: Seq<Seq<char>>,
}

impl View for FailedUnits {
    type V = FailedUnitsView;

    closed spec fn view(&self) -> FailedUnitsView {
        FailedUnitsView { system: self.system.deep_view(), user: self.user.deep_view() }
    }
}

/// The plain style as a specification value.
pub open spec fn unit_plain() -> Style {
    Style {
        bold: false,
        dimmed: false,
        italic: false,
        underline: false,
        blink: false,
        reverse: false,
        fg: None,
    }
}

/// The first `n` unit names, each painted red on its own line.
pub open spec fn spec_unit_lines(units: Seq<Seq<char>>, n: int) -> Seq<char>
    decreases n,
{
    if n <= 0 {
        Seq::empty()
    } else {
        spec_unit_lines(units, n - 1) + spec_paint(
            Style { fg: Some(Color::Red), ..unit_plain() },
            units[n - 1],
        ) + seq!['\n']
    }
}

/// One block: a heading when the list is nonempty, then the names.
pub open spec fn spec_unit_block(heading: Seq<char>, units: Seq<Seq<char>>) -> Seq<char> {
    if units.len() == 0 {
        Seq::empty()
    } else {
        heading + seq!['\n'] + spec_unit_lines(units, units.len() as int)
    }
}

/// The whole section: the system block, then the user block; empty when
/// no unit failed anywhere.
pub open spec fn spec_render_units(v: FailedUnitsView) -> Seq<char> {
    spec_unit_block("System:"@, v.system) + spec_unit_block("User:"@, v.user)
}

fn unit_lines(units: &Vec<String>) -> (r: String)
    ensures
        r@ == spec_unit_lines(units.deep_view(), units.deep_view().len() as int),
{
    let ghost dv = units.deep_view();
    proof {
        assert(forall|k: int| 0 <= k < units@.len() ==> #[trigger] dv[k] == units@[k]@);
    }
    let n = units.len();
    let mut out = String::new();
    let mut i: usize = 0;
    while i < n
        invariant
            n == units@.len(),
            dv == units.deep_view(),
            dv.len() == n,
            forall|k: int| 0 <= k < n ==> #[trigger] dv[k] == units@[k]@,
            i <= n,
            out@ == spec_unit_lines(dv, i as int),
        decreases n - i,
    {
        let seg = paint(Style::colored(Color::Red), units[i].as_str());
        out.append(seg.as_str());
        out.append("\n");
        i = i + 1;
        proof {
            reveal_strlit("\n");
            assert("\n"@ =~= seq!['\n']);
            assert(out@ =~= spec_unit_lines(dv, i as int));
        }
    }
    out
}

impl FailedUnits {
    /// Wrap the two unit-name lists.
    pub fn new(system: Vec<String>, user: Vec<String>) -> (r: FailedUnits)
        ensures
            r@ == (FailedUnitsView { system: system.deep_view(), user: user.deep_view() }),
    {
        FailedUnits { system, user }
    }

    /// Render the failed-unit section; empty when nothing failed.
    pub fn render(&self) -> (r: String)
        ensures
            r@ == spec_render_units(self@),
    {
        let mut out = String::new();
        if self.system.len() > 0 {
            out.append("System:\n");
            let lines = unit_lines(&self.system);
            out.append(lines.as_str());
        }
        if self.user.len() > 0 {
            out.append("User:\n");
            let lines = unit_lines(&self.user);
            out.append(lines.as_str());
        }
        proof {
            reveal_strlit("System:\n");
            reveal_strlit("System:");
            reveal_strlit("User:\n");
            reveal_strlit("User:");
            assert("System:\n"@ =~= "System:"@ + seq!['\n']);
            assert("User:\n"@ =~= "User:"@ + seq!['\n']);
            assert(self@.system.len() == self.system@.len());
            assert(self@.user.len() == self.user@.len());
            assert(out@ =~= spec_render_units(self@));
        }
        out
    }
}

/// The unit name on one listing line: the first space-separated token
/// after leading whitespace (empty for an empty line).
pub open spec fn spec_unit_name(line: Seq<char>) -> Seq<char> {
    let t = spec_trim_start(line);
    match find_index(t, ' ') {
        Some(i) => t.take(i),
        None => t,
    }
}

/// Extract the unit name from one listing line.
pub fn parse_unit_name(line: &str) -> (r: String)
    ensures
        r@ == spec_unit_name(line@),
{
    let t = trim_start(line);
    match find_char(t.as_str(), ' ') {
        Some(i) => {
            proof {
                lemma_find_index(t@, ' ');
            }
            t.as_str().substring_char(0, i).to_owned()
        },
        None => t,
    }
}

} // verus!
