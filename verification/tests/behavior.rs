use motd::bar::allocate;
use motd::fmt::{format_kmgt, format_kmgt_si};
use motd::fp::{Fp, fp_from_bits};
use motd::section::{
    dedup_sections, letter_to_section, loading_message, output_section, output_title,
    parse_isize, pretty_section_name, resolve_columns, run_sections, section_to_letter,
    validator_isize, Section, SectionReport,
};
use motd::text::{ellipsis, parse_u64, str_eq};

fn third() -> Fp {
    fp_from_bits((100.0f32 / 3.0f32).to_bits())
}

fn pct(x: f32) -> Fp {
    fp_from_bits(x.to_bits())
}

#[test]
fn allocator_conserves_width() {
    // The allocated widths always add up to exactly the target.
    let cases: Vec<(Vec<Fp>, usize)> = vec![
        (vec![third(), third(), third()], 100),
        (vec![pct(20.5), pct(30.6), pct(48.9)], 100),
        (vec![pct(20.34), pct(30.32), pct(48.33)], 100),
        (vec![pct(15.0), pct(20.0), pct(65.0)], 48),
        (vec![pct(1.0), pct(1.0)], 7),
        (vec![pct(99.0)], 3),
        (vec![Fp { m: 0, e: 0 }, pct(100.0)], 13),
    ];
    for (shares, cells) in cases {
        let n = shares.len();
        let widths = allocate(&shares, cells);
        assert_eq!(widths.len(), n);
        assert_eq!(widths.iter().sum::<usize>(), cells);
    }
}

#[test]
fn allocator_tie_break_is_first_index() {
    // Three equal shares and one leftover cell: the earliest part wins.
    let widths = allocate(&vec![third(), third(), third()], 100);
    assert_eq!(widths, vec![34, 33, 33]);
    // Distinct remainders are served largest first.
    let widths = allocate(&vec![pct(20.5), pct(30.6), pct(48.9)], 100);
    assert_eq!(widths, vec![20, 31, 49]);
}

#[test]
fn format_boundaries_binary() {
    assert_eq!(format_kmgt(0, "B"), "0 B");
    assert_eq!(format_kmgt(1023, "B"), "1023 B");
    assert_eq!(format_kmgt(1024, "B"), "1.0 KB");
    assert_eq!(format_kmgt(1024 * 1024 - 1, "B"), "1024.0 KB");
    assert_eq!(format_kmgt(1024 * 1024, "B"), "1.0 MB");
    assert_eq!(format_kmgt(1024 * 1024 * 1024, "B"), "1.0 GB");
    assert_eq!(format_kmgt(1024u64 * 1024 * 1024 * 1024, "B"), "1.0 TB");
}

#[test]
fn format_boundaries_si() {
    assert_eq!(format_kmgt_si(0, "b/s"), "0 b/s");
    assert_eq!(format_kmgt_si(999, "b/s"), "999 b/s");
    assert_eq!(format_kmgt_si(1000, "b/s"), "1.0 kb/s");
    assert_eq!(format_kmgt_si(999_999, "b/s"), "1000.0 kb/s");
    assert_eq!(format_kmgt_si(1_000_000, "b/s"), "1.0 Mb/s");
    assert_eq!(format_kmgt_si(1_000_000_000, "b/s"), "1.0 Gb/s");
    assert_eq!(format_kmgt_si(1_000_000_000_000, "b/s"), "1.0 Tb/s");
}

#[test]
fn section_letters_round_trip() {
    let all = [
        Section::Load,
        Section::Mem,
        Section::Swap,
        Section::FS,
        Section::Temps,
        Section::Network,
        Section::SDFailedUnits,
    ];
    let mut letters: Vec<&str> = Vec::new();
    for s in all {
        let l = section_to_letter(s);
        assert!(!letters.contains(&l));
        letters.push(l);
        assert_eq!(letter_to_section(l), s);
    }
    assert_eq!(pretty_section_name(&Section::Mem), "Memory usage");
    assert_eq!(pretty_section_name(&Section::SDFailedUnits), "Systemd failed units");
}

#[test]
fn dedup_keeps_first_occurrence() {
    let sections = vec![
        Section::Mem,
        Section::Load,
        Section::Mem,
        Section::Swap,
        Section::Load,
    ];
    assert_eq!(
        dedup_sections(&sections),
        vec![Section::Mem, Section::Load, Section::Swap]
    );
    assert_eq!(dedup_sections(&vec![]), vec![]);
}

#[test]
fn parses_signed_integers() {
    assert_eq!(parse_isize("-80"), Some(-80));
    assert_eq!(parse_isize("+7"), Some(7));
    assert_eq!(parse_isize("0"), Some(0));
    assert_eq!(parse_isize(""), None);
    assert_eq!(parse_isize("-"), None);
    assert_eq!(parse_isize("12a"), None);
    assert_eq!(parse_isize("99999999999999999999999999"), None);
    assert!(validator_isize("-80").is_ok());
    assert_eq!(
        validator_isize("x"),
        Err("Not a valid integer value".to_string())
    );
    assert_eq!(parse_u64("42"), Some(42));
    assert_eq!(parse_u64("18446744073709551616"), None);
}

#[test]
fn resolves_terminal_columns() {
    assert_eq!(resolve_columns(120, Some(80)), 120);
    assert_eq!(resolve_columns(0, Some(132)), 132);
    assert_eq!(resolve_columns(0, None), 80);
    assert_eq!(resolve_columns(-100, Some(74)), 74);
    assert_eq!(resolve_columns(-60, Some(74)), 60);
    assert_eq!(resolve_columns(-60, None), 60);
}

#[test]
fn titles_are_centered() {
    assert_eq!(output_title("Load", 12), "─── Load ───\n");
    assert_eq!(output_title("Load", 6), " Load \n");
    assert_eq!(output_title("Load", 3), " Load \n");
}

fn report(title: &str, delayed: bool, result: Result<&str, &str>) -> SectionReport {
    SectionReport {
        title: title.to_string(),
        delayed,
        result: result.map(|s| s.to_string()).map_err(|e| e.to_string()),
    }
}

#[test]
fn sequencer_keeps_requested_order() {
    // Output order follows the request even though the middle section's
    // collector failed and another was still loading at its join.
    let reports = vec![
        report("A", false, Ok("alpha\n")),
        report("B", false, Err("boom")),
        report("C", true, Ok("gamma\n")),
    ];
    let (out, err) = run_sections(&reports, false, 80);
    assert_eq!(out, "alpha\n\ngamma\n");
    assert_eq!(
        err,
        "\u{1b}[31mFailed to get data for 'B' section: boom\u{1b}[0m\n\r          \r"
    );
    let (out, _) = run_sections(&reports, true, 12);
    assert_eq!(out, "──── A ─────\nalpha\n──── C ─────\ngamma\n");
}

#[test]
fn empty_sections_are_suppressed() {
    // A section with empty content prints nothing at all: no title, no
    // body, no blank line.
    let reports = vec![
        report("A", false, Ok("")),
        report("B", false, Ok("body\n")),
    ];
    let (out, err) = run_sections(&reports, true, 10);
    assert_eq!(out, "─── B ────\nbody\n");
    assert_eq!(err, "");
    let (out, _) = run_sections(&reports, false, 10);
    assert_eq!(out, "\nbody\n");
}

#[test]
fn loading_indicator_text() {
    let msg = loading_message();
    assert_eq!(msg, "Loading…");
    assert_eq!(msg.len(), 10);
    let (_, err) = output_section("A", &Ok("x\n".to_string()), false, true, true, 80);
    assert_eq!(err, "\r          \r");
}

#[test]
fn bar_at_width_102_is_deterministic() {
    // Golden regression: three weighted parts at width 102 fill exactly
    // 100 interior cells, byte for byte.
    let shares = vec![pct(20.5), pct(30.6), pct(48.9)];
    let widths = allocate(&shares, 100);
    assert_eq!(widths.iter().sum::<usize>(), 100);
    let f = motd::bar::display_bar(
        &vec![
            motd::bar::BarPart {
                labels: vec!["a".to_string()],
                share: pct(20.5),
                fill_glyph: '.',
                text_style: motd::style::Style::plain(),
                fill_style: motd::style::Style::plain(),
            },
            motd::bar::BarPart {
                labels: vec!["b".to_string()],
                share: pct(30.6),
                fill_glyph: '.',
                text_style: motd::style::Style::plain(),
                fill_style: motd::style::Style::plain(),
            },
            motd::bar::BarPart {
                labels: vec!["c".to_string()],
                share: pct(48.9),
                fill_glyph: '.',
                text_style: motd::style::Style::plain(),
                fill_style: motd::style::Style::plain(),
            },
        ],
        102,
    );
    let again = f.clone();
    assert_eq!(f, again);
    assert_eq!(f.chars().count(), 103);
    let expected = format!(
        "▕{}a{}{}b{}{}c{}▏\n",
        ".".repeat(9),
        ".".repeat(10),
        ".".repeat(15),
        ".".repeat(15),
        ".".repeat(24),
        ".".repeat(24),
    );
    assert_eq!(f, expected);
}

#[test]
fn ellipsis_boundaries() {
    assert_eq!(ellipsis("abcdef", 6), "abcdef");
    assert_eq!(ellipsis("abcdef", 1), "…");
    assert_eq!(ellipsis("", 1), "");
    let once = ellipsis("abcdefgh", 4);
    assert_eq!(once, "abc…");
    assert_eq!(ellipsis(&once, 4), once);
}

#[test]
fn str_helpers() {
    assert!(str_eq("abc", "abc"));
    assert!(!str_eq("abc", "abd"));
    assert!(!str_eq("abc", "ab"));
}
