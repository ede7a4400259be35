//! Network throughput reporting: one aligned line per interface with
//! SI-formatted receive and transmit rates, colored near line rate.

use vstd::prelude::*;
use vstd::string::StrSliceExecFns;
use vstd::string::StringExecFns;
use crate::fmt::{spec_format_kmgt_si, format_kmgt_si};
use crate::style::{Style, Color, spec_paint, paint};
use crate::text::{char_run, spaces};

verus! {

/// Throughput figures of one interface.
pub struct InterfaceStats {
    /// Receive rate, bits per second.
    pub rx_bps: u64,
    /// Transmit rate, bits per second.
    pub tx_bps: u64,
    /// Nominal line rate, bits per second, when the driver reports one.
    pub line_bps: Option<u64>,
}

/// The mathematical content of one interface entry.
pub ghost struct InterfaceView {
    /// Interface name.
    pub name: Seq<char>,
    /// Receive rate.
    pub rx_bps: u64,
    /// Transmit rate.
    pub tx_bps: u64,
    /// Nominal line rate.
    pub line_bps: Option<u64>,
}

/// Throughput figures of all interfaces, in display order.
pub struct NetworkStats {
    interfaces: Vec<(String, InterfaceStats)>,
}

impl View for NetworkStats {
    type V = Seq<InterfaceView>;

    closed spec fn view(&self) -> Seq<InterfaceView> {
        Seq::new(
            self.interfaces@.len(),
            |i: int|
                InterfaceView {
                    name: self.interfaces@[i].0@,
                    rx_bps: self.interfaces@[i].1.rx_bps,
                    tx_bps: self.interfaces@[i].1.tx_bps,
                    line_bps: self.interfaces@[i].1.line_bps,
                },
        )
    }
}

/// The plain style as a specification value.
pub open spec fn net_plain() -> Style {
    Style {
        bold: false,
        dimmed: false,
        italic: false,
        underline: false,
        blink: false,
        reverse: false,
        fg: None,
    }
}

/// A rate string colored by how close the rate is to the line rate: red
/// from 90 percent, yellow from 80, plain otherwise or when the line rate
/// is unknown.
pub open spec fn spec_colorize_speed(val: u64, line_rate: Option<u64>, s: Seq<char>) -> Seq<char> {
    match line_rate {
        Some(lr) => {
            if val >= lr * 90 / 100 {
                spec_paint(Style { fg: Some(Color::Red), ..net_plain() }, s)
            } else if val >= lr * 80 / 100 {
                spec_paint(Style { fg: Some(Color::Yellow), ..net_plain() }, s)
            } else {
                s
            }
        },
        None => s,
    }
}

/// Color a rate string by its share of the line rate.
pub fn colorize_speed(val: u64, line_rate: Option<u64>, s: String) -> (r: String)
    requires
        line_rate is Some ==> line_rate.unwrap() <= 0x28F5C28F5C28F5,
    ensures
        r@ == spec_colorize_speed(val, line_rate, s@),
{
    match line_rate {
        Some(lr) => {
            if val >= lr * 90 / 100 {
                paint(Style::colored(Color::Red), s.as_str())
            } else if val >= lr * 80 / 100 {
                paint(Style::colored(Color::Yellow), s.as_str())
            } else {
                s
            }
        },
        None => s,
    }
}

/// The rate over an interval: `1000 * (cur - prev) * 8 / ms` bits per
/// second from byte counters sampled `ms` milliseconds apart.
pub open spec fn spec_rate_bps(prev: u64, cur: u64, ms: u64) -> int {
    1000 * (cur - prev) * 8 / (ms as int)
}

/// Convert two byte-counter samples into a bit rate.
pub fn rate_bps(prev: u64, cur: u64, ms: u64) -> (r: u64)
    requires
        prev <= cur,
        ms >= 1,
        cur - prev <= 0x8_0000_0000_0000,
    ensures
        r == spec_rate_bps(prev, cur, ms),
{
    proof {
        assert(1000 * (cur - prev) * 8 <= 0xFA00_0000_0000_0000) by (nonlinear_arith)
            requires cur - prev <= 0x8_0000_0000_0000 && prev <= cur;
        vstd::arithmetic::div_mod::lemma_div_pos_is_pos(1000 * (cur - prev) * 8, ms as int);
    }
    1000 * (cur - prev) * 8 / ms
}

/// Longest interface name.
pub open spec fn max_name_len(itfs: Seq<InterfaceView>) -> int
    decreases itfs.len(),
{
    if itfs.len() == 0 {
        0
    } else {
        let m = max_name_len(itfs.drop_last());
        if itfs.last().name.len() > m {
            itfs.last().name.len() as int
        } else {
            m
        }
    }
}

/// Longest receive rate string.
pub open spec fn max_rx_len(itfs: Seq<InterfaceView>) -> int
    decreases itfs.len(),
{
    if itfs.len() == 0 {
        0
    } else {
        let m = max_rx_len(itfs.drop_last());
        let l = spec_format_kmgt_si(itfs.last().rx_bps, "b/s"@).len() as int;
        if l > m {
            l
        } else {
            m
        }
    }
}

/// Longest transmit rate string.
pub open spec fn max_tx_len(itfs: Seq<InterfaceView>) -> int
    decreases itfs.len(),
{
    if itfs.len() == 0 {
        0
    } else {
        let m = max_tx_len(itfs.drop_last());
        let l = spec_format_kmgt_si(itfs.last().tx_bps, "b/s"@).len() as int;
        if l > m {
            l
        } else {
            m
        }
    }
}

proof fn lemma_net_maxes(itfs: Seq<InterfaceView>)
    ensures
        forall|i: int|
            0 <= i < itfs.len() ==> (#[trigger] itfs[i]).name.len() <= max_name_len(itfs),
        forall|i: int|
            0 <= i < itfs.len() ==> spec_format_kmgt_si(
                (#[trigger] itfs[i]).rx_bps,
                "b/s"@,
            ).len() <= max_rx_len(itfs),
        forall|i: int|
            0 <= i < itfs.len() ==> spec_format_kmgt_si(
                (#[trigger] itfs[i]).tx_bps,
                "b/s"@,
            ).len() <= max_tx_len(itfs),
        max_name_len(itfs) >= 0,
        max_rx_len(itfs) >= 0,
        max_tx_len(itfs) >= 0,
    decreases itfs.len(),
{
    if itfs.len() > 0 {
        lemma_net_maxes(itfs.drop_last());
        assert(forall|i: int|
            0 <= i < itfs.len() - 1 ==> #[trigger] itfs[i] == itfs.drop_last()[i]);
    }
}

/// One interface line: name, alignment, down arrow, aligned colored
/// receive rate, up arrow, aligned colored transmit rate.
pub open spec fn spec_net_line(v: InterfaceView, nmax: int, rmax: int, tmax: int) -> Seq<char> {
    let rx = spec_format_kmgt_si(v.rx_bps, "b/s"@);
    let tx = spec_format_kmgt_si(v.tx_bps, "b/s"@);
    v.name + seq![':'] + char_run(' ', nmax - v.name.len()) + seq![' ', '\u{2193}', ' ']
        + char_run(' ', rmax - rx.len()) + spec_colorize_speed(v.rx_bps, v.line_bps, rx) + seq![
        ' ',
        ' ',
        '\u{2191}',
        ' ',
    ] + char_run(' ', tmax - tx.len()) + spec_colorize_speed(v.tx_bps, v.line_bps, tx) + seq!['\n']
}

/// The first `n` interface lines.
pub open spec fn spec_net_lines(itfs: Seq<InterfaceView>, nmax: int, rmax: int, tmax: int, n: int)
    -> Seq<char>
    decreases n,
{
    if n <= 0 {
        Seq::empty()
    } else {
        spec_net_lines(itfs, nmax, rmax, tmax, n - 1) + spec_net_line(itfs[n - 1], nmax, rmax, tmax)
    }
}

/// The whole network section; empty when no interface was found.
pub open spec fn spec_render_net(itfs: Seq<InterfaceView>) -> Seq<char> {
    spec_net_lines(itfs, max_name_len(itfs), max_rx_len(itfs), max_tx_len(itfs), itfs.len() as int)
}

/// Well-formed figures: a reported line rate is small enough that its 90
/// percent threshold can be computed in 64 bits.
pub open spec fn net_wf(itfs: Seq<InterfaceView>) -> bool {
    forall|i: int|
        0 <= i < itfs.len() ==> ((#[trigger] itfs[i]).line_bps is Some
            ==> itfs[i].line_bps.unwrap() <= 0x28F5C28F5C28F5)
}

impl NetworkStats {
    /// Wrap per-interface figures, one entry per name, in display order.
    pub fn new(interfaces: Vec<(String, InterfaceStats)>) -> (r: NetworkStats)
        ensures
            r@.len() == interfaces@.len(),
            forall|i: int|
                0 <= i < interfaces@.len() ==> #[trigger] r@[i] == (InterfaceView {
                    name: interfaces@[i].0@,
                    rx_bps: interfaces@[i].1.rx_bps,
                    tx_bps: interfaces@[i].1.tx_bps,
                    line_bps: interfaces@[i].1.line_bps,
                }),
    {
        NetworkStats { interfaces }
    }

    /// Render the network section.
    #[verifier::rlimit(100)]
    pub fn render(&self) -> (r: String)
        requires
            net_wf(self@),
        ensures
            r@ == spec_render_net(self@),
    {
        let n = self.interfaces.len();
        proof {
            assert(self@.len() == n);
        }
        if n == 0 {
            let r = String::new();
            proof {
                assert(r@ =~= spec_render_net(self@));
            }
            return r;
        }
        // Column widths.
        let mut nmax: usize = 0;
        let mut rmax: usize = 0;
        let mut tmax: usize = 0;
        let mut i: usize = 0;
        while i < n
            invariant
                n == self.interfaces@.len(),
                self@.len() == n,
                forall|k: int| 0 <= k < n ==> (#[trigger] self@[k]).name == self.interfaces@[k].0@,
                forall|k: int|
                    0 <= k < n ==> (#[trigger] self@[k]).rx_bps == self.interfaces@[k].1.rx_bps,
                forall|k: int|
                    0 <= k < n ==> (#[trigger] self@[k]).tx_bps == self.interfaces@[k].1.tx_bps,
                i <= n,
                nmax == max_name_len(self@.take(i as int)),
                rmax == max_rx_len(self@.take(i as int)),
                tmax == max_tx_len(self@.take(i as int)),
            decreases n - i,
        {
            proof {
                assert(self@.take(i + 1).drop_last() =~= self@.take(i as int));
                assert(self@.take(i + 1).last() == self@[i as int]);
            }
            let nl = self.interfaces[i].0.as_str().unicode_len();
            if nl > nmax {
                nmax = nl;
            }
            let rx = format_kmgt_si(self.interfaces[i].1.rx_bps, "b/s");
            let rl = rx.as_str().unicode_len();
            if rl > rmax {
                rmax = rl;
            }
            let tx = format_kmgt_si(self.interfaces[i].1.tx_bps, "b/s");
            let tl = tx.as_str().unicode_len();
            if tl > tmax {
                tmax = tl;
            }
            i = i + 1;
        }
        proof {
            assert(self@.take(n as int) =~= self@);
        }
        let ghost nmax_s = max_name_len(self@);
        let ghost rmax_s = max_rx_len(self@);
        let ghost tmax_s = max_tx_len(self@);
        let mut out = String::new();
        let mut j: usize = 0;
        while j < n
            invariant
                n == self.interfaces@.len(),
                self@.len() == n,
                net_wf(self@),
                forall|k: int| 0 <= k < n ==> (#[trigger] self@[k]).name == self.interfaces@[k].0@,
                forall|k: int|
                    0 <= k < n ==> (#[trigger] self@[k]).rx_bps == self.interfaces@[k].1.rx_bps,
                forall|k: int|
                    0 <= k < n ==> (#[trigger] self@[k]).tx_bps == self.interfaces@[k].1.tx_bps,
                forall|k: int|
                    0 <= k < n ==> (#[trigger] self@[k]).line_bps == self.interfaces@[k].1.line_bps,
                nmax == nmax_s,
                rmax == rmax_s,
                tmax == tmax_s,
                nmax_s == max_name_len(self@),
                rmax_s == max_rx_len(self@),
                tmax_s == max_tx_len(self@),
                j <= n,
                out@ == spec_net_lines(self@, nmax_s, rmax_s, tmax_s, j as int),
            decreases n - j,
        {
            proof {
                lemma_net_maxes(self@);
                assert(self@[j as int].name.len() <= nmax_s);
                assert(spec_format_kmgt_si(self@[j as int].rx_bps, "b/s"@).len() <= rmax_s);
                assert(spec_format_kmgt_si(self@[j as int].tx_bps, "b/s"@).len() <= tmax_s);
                assert(self@[j as int].line_bps is Some ==> self@[j as int].line_bps.unwrap()
                    <= 0x28F5C28F5C28F5);
            }
            let name = &self.interfaces[j].0;
            let st = &self.interfaces[j].1;
            let nl = name.as_str().unicode_len();
            let rx = format_kmgt_si(st.rx_bps, "b/s");
            let rl = rx.as_str().unicode_len();
            let tx = format_kmgt_si(st.tx_bps, "b/s");
            let tl = tx.as_str().unicode_len();
            let mut line = name.as_str().to_owned();
            line.append(":");
            let pad1 = spaces(nmax - nl);
            line.append(pad1.as_str());
            line.append(" \u{2193} ");
            let pad2 = spaces(rmax - rl);
            line.append(pad2.as_str());
            let crx = colorize_speed(st.rx_bps, st.line_bps, rx);
            line.append(crx.as_str());
            line.append("  \u{2191} ");
            let pad3 = spaces(tmax - tl);
            line.append(pad3.as_str());
            let ctx = colorize_speed(st.tx_bps, st.line_bps, tx);
            line.append(ctx.as_str());
            line.append("\n");
            out.append(line.as_str());
            j = j + 1;
            proof {
                reveal_strlit(":");
                reveal_strlit(" \u{2193} ");
                reveal_strlit("  \u{2191} ");
                reveal_strlit("\n");
                assert(":"@ =~= seq![':']);
                assert(" \u{2193} "@ =~= seq![' ', '\u{2193}', ' ']);
                assert("  \u{2191} "@ =~= seq![' ', ' ', '\u{2191}', ' ']);
                assert("\n"@ =~= seq!['\n']);
                assert(out@ =~= spec_net_lines(self@, nmax_s, rmax_s, tmax_s, j as int));
            }
        }
        out
    }
}

} // verus!
