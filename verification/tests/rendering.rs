use motd::bar::{BarPart, display_bar};
use motd::fp::{Fp, fp_from_bits};
use motd::mem::MemInfo;
use motd::mem::SwapInfo;
use motd::disk::{FsInfo, FsMountInfo, get_fs_bar};
use motd::style::{Color, Style};
use motd::text::ellipsis;

fn share_of(x: f32) -> Fp {
    fp_from_bits(x.to_bits())
}

fn part(labels: &[&str], prct: f32, text_style: Style, fill_style: Style, bar_char: char) -> BarPart {
    BarPart {
        labels: labels.iter().map(|s| s.to_string()).collect(),
        share: share_of(prct),
        fill_glyph: bar_char,
        text_style,
        fill_style,
    }
}

fn plain_part(labels: &[&str], prct: f32, bar_char: char) -> BarPart {
    part(labels, prct, Style::plain(), Style::plain(), bar_char)
}

const P1L: [&str; 3] = ["part1", "PART1", "P_A_R_T_1"];
const P2L: [&str; 3] = ["part2", "PART2", "P_A_R_T_2"];
const P3L: [&str; 3] = ["part3", "PART3", "P_A_R_T_3"];

fn mem_vals(pairs: &[(&str, u64)]) -> MemInfo {
    MemInfo::new(pairs.iter().map(|(k, v)| (k.to_string(), *v)).collect())
}

#[test]
fn test_output_bar() {
    // Check rounding
    let f = display_bar(
        &vec![
            plain_part(&P1L, 100.0 / 3.0, '#'),
            plain_part(&P2L, 100.0 / 3.0, 'X'),
            plain_part(&P3L, 100.0 / 3.0, '%'),
        ],
        102,
    );
    assert_eq!(f, "▕#######part1PART1P_A_R_T_1########XXXXXXXpart2PART2P_A_R_T_2XXXXXXX%%%%%%%part3PART3P_A_R_T_3%%%%%%%▏\n");

    let f = display_bar(
        &vec![
            plain_part(&P1L, 20.34, '#'),
            plain_part(&P2L, 30.32, 'X'),
            plain_part(&P3L, 48.33, '%'),
        ],
        102,
    );
    assert_eq!(f, "▕#part1PART1P_A_R_T_1#XXXXXpart2PART2P_A_R_T_2XXXXXX%%%%%%%%%%%%%%%part3PART3P_A_R_T_3%%%%%%%%%%%%%%%▏\n");

    let f = display_bar(
        &vec![
            plain_part(&P1L, 20.5, '#'),
            plain_part(&P2L, 30.6, 'X'),
            plain_part(&P3L, 48.9, '%'),
        ],
        102,
    );
    assert_eq!(f, "▕part1PART1P_A_R_T_1#XXXXXXpart2PART2P_A_R_T_2XXXXXX%%%%%%%%%%%%%%%part3PART3P_A_R_T_3%%%%%%%%%%%%%%%▏\n");

    let f = display_bar(
        &vec![
            plain_part(&P1L, 100.0 / 3.0, '#'),
            plain_part(&P2L, 100.0 / 3.0, 'X'),
            plain_part(&P3L, 100.0 / 3.0, '%'),
        ],
        80,
    );
    assert_eq!(f, "▕###part1PART1P_A_R_T_1####XXXpart2PART2P_A_R_T_2XXXX%%%part3PART3P_A_R_T_3%%%%▏\n");

    let f = display_bar(
        &vec![
            plain_part(&P1L, 100.0 / 3.0, '#'),
            plain_part(&P2L, 100.0 / 3.0, 'X'),
            plain_part(&P3L, 100.0 / 3.0, '%'),
        ],
        50,
    );
    assert_eq!(f, "▕###part1PART1###XXXpart2PART2XXX%%%part3PART3%%%▏\n");

    let f = display_bar(
        &vec![
            plain_part(&P1L, 100.0 / 3.0, '#'),
            plain_part(&P2L, 100.0 / 3.0, 'X'),
            plain_part(&P3L, 100.0 / 3.0, '%'),
        ],
        30,
    );
    assert_eq!(f, "▕part1PART1XXpart2XX%%part3%%▏\n");

    let f = display_bar(
        &vec![
            plain_part(&P1L, 100.0 / 3.0, '#'),
            plain_part(&P2L, 100.0 / 3.0, 'X'),
            plain_part(&P3L, 100.0 / 3.0, '%'),
        ],
        15,
    );
    assert_eq!(f, "▕part1XXXX%%%%▏\n");

    let f = display_bar(
        &vec![
            plain_part(&P1L, 15.0, '#'),
            plain_part(&P2L, 20.0, 'X'),
            plain_part(&P3L, 65.0, '%'),
        ],
        50,
    );
    assert_eq!(f, "▕#part1#part2PART2%%%%%%part3PART3P_A_R_T_3%%%%%%▏\n");

    let f = display_bar(
        &vec![
            part(&P1L, 15.0, Style::colored(Color::Red).bold(), Style::colored(Color::Red).underline(), '#'),
            part(&P2L, 20.0, Style::colored(Color::Yellow).dimmed(), Style::colored(Color::Yellow).italic(), 'X'),
            part(&P3L, 65.0, Style::colored(Color::Blue).reverse(), Style::colored(Color::Blue).blink(), '%'),
        ],
        50,
    );
    assert_eq!(f, "▕\u{1b}[4;31m#\u{1b}[0m\u{1b}[1;31mpart1\u{1b}[0m\u{1b}[4;31m#\u{1b}[0m\u{1b}[3;33m\u{1b}[0m\u{1b}[2;33mpart2PART2\u{1b}[0m\u{1b}[3;33m\u{1b}[0m\u{1b}[5;34m%%%%%%\u{1b}[0m\u{1b}[7;34mpart3PART3P_A_R_T_3\u{1b}[0m\u{1b}[5;34m%%%%%%\u{1b}[0m▏\n");
}

#[test]
fn test_output_mem_stats() {
    let mem_info = mem_vals(&[
        ("stat1", 123),
        ("stat22222222", 1234567),
        ("stat3333", 123456789),
        ("itsatrap", 999),
    ]);
    let f = mem_info.display_stats(vec!["stat1", "stat22222222", "stat3333"], "stat3333");
    assert_eq!(f, "stat1:        123.0 KB ( 0.0%)\nstat22222222:   1.2 GB ( 1.0%)\nstat3333:     117.7 GB\n");
}

#[test]
fn test_output_mem() {
    let mem_info = mem_vals(&[
        ("MemTotal", 12345),
        ("MemFree", 1234),
        ("Dirty", 2134),
        ("Cached", 3124),
        ("Buffers", 4321),
        ("itsatrap", 1024),
    ]);
    assert_eq!(mem_info.render(80), "MemTotal: 12.1 MB\nMemFree:   1.2 MB (10.0%)\nDirty:     2.1 MB (17.3%)\nCached:    3.1 MB (25.3%)\nBuffers:   4.2 MB (35.0%)\n▕████\u{1b}[7mUsed 0.0GB (33.3%)\u{1b}[0m████\u{1b}[2m█████████████\u{1b}[0m\u{1b}[2;7mCached 0.0GB (58.3%)\u{1b}[0m\u{1b}[2m█████████████\u{1b}[0m Free ▏\n");
    assert_eq!(mem_info.render(30), "MemTotal: 12.1 MB\nMemFree:   1.2 MB (10.0%)\nDirty:     2.1 MB (17.3%)\nCached:    3.1 MB (25.3%)\nBuffers:   4.2 MB (35.0%)\n▕██\u{1b}[7mUsed\u{1b}[0m███\u{1b}[2m██\u{1b}[0m\u{1b}[2;7mCached 0.0GB\u{1b}[0m\u{1b}[2m██\u{1b}[0m   ▏\n");
}

#[test]
fn test_output_swap() {
    let mem_info = mem_vals(&[
        ("SwapTotal", 12345678),
        ("SwapFree", 2345678),
        ("itsatrap", 1024),
    ]);
    let swap_info = SwapInfo::from(mem_info);
    assert_eq!(swap_info.render(80), "SwapTotal: 11.8 GB\nSwapFree:   2.2 GB (19.0%)\n▕██████████████████████\u{1b}[7mUsed 9.5GB (81.0%)\u{1b}[0m███████████████████████Swap free 2.2GB▏\n");
    assert_eq!(swap_info.render(30), "SwapTotal: 11.8 GB\nSwapFree:   2.2 GB (19.0%)\n▕██\u{1b}[7mUsed 9.5GB (81.0%)\u{1b}[0m███     ▏\n");

    let mem_info = mem_vals(&[("SwapTotal", 0), ("SwapFree", 0), ("itsatrap", 1024)]);
    let swap_info = SwapInfo::from(mem_info);
    assert!(swap_info.render(30).is_empty());
}

#[test]
fn test_output_fs_info() {
    let fs_info = FsInfo::new(vec![
        FsMountInfo {
            mount_path: "/foo/bar".to_string(),
            used_bytes: 234_560,
            total_bytes: 7_891_011,
        },
        FsMountInfo {
            mount_path: "/foo/baz".to_string(),
            used_bytes: 2_345_600_000,
            total_bytes: 7_891_011_000,
        },
    ]);
    assert_eq!(fs_info.render(40), "/foo/bar ▕  \u{1b}[7m\u{1b}[0m229.1 KB / 7.5 MB (3.0%)   ▏\n/foo/baz ▕███\u{1b}[7m2.2 G\u{1b}[0mB / 7.3 GB (29.7%)   ▏\n");
    let fs_info = FsInfo::new(vec![FsMountInfo {
        mount_path: "/0123456789".to_string(),
        used_bytes: 500,
        total_bytes: 1000,
    }]);
    assert_eq!(fs_info.render(40), "/0123456… ▕███\u{1b}[7m500 B / 100\u{1b}[0m0 B (50.0%)   ▏\n");
}

#[test]
fn test_get_fs_bar() {
    let mi = FsMountInfo {
        mount_path: "/foo/bar".to_string(),
        used_bytes: 23456,
        total_bytes: 7_891_011,
    };
    assert_eq!(get_fs_bar(&mi, 40, Style::colored(Color::Red)), "\u{1b}[31m▕\u{1b}[0m\u{1b}[31m\u{1b}[0m\u{1b}[31m       \u{1b}[0m\u{1b}[7;31m\u{1b}[0m\u{1b}[31m22.9 KB / 7.5 MB (0.3%)\u{1b}[0m\u{1b}[31m\u{1b}[0m\u{1b}[31m        \u{1b}[0m\u{1b}[31m▏\u{1b}[0m");
    let mi = FsMountInfo {
        mount_path: "/foo/bar".to_string(),
        used_bytes: 0,
        total_bytes: 7_891_011,
    };
    assert_eq!(get_fs_bar(&mi, 40, Style::plain()), "▕         \u{1b}[7m\u{1b}[0m0 B / 7.5 MB (0.0%)          ▏");
    let mi = FsMountInfo {
        mount_path: "/foo/bar".to_string(),
        used_bytes: 434_560,
        total_bytes: 7_891_011,
    };
    assert_eq!(get_fs_bar(&mi, 40, Style::plain()), "▕██     \u{1b}[7m\u{1b}[0m424.4 KB / 7.5 MB (5.5%)       ▏");
    let mi = FsMountInfo {
        mount_path: "/foo/bar".to_string(),
        used_bytes: 4_891_011_000,
        total_bytes: 7_891_011_000,
    };
    assert_eq!(get_fs_bar(&mi, 40, Style::plain()), "▕███████\u{1b}[7m4.6 GB / 7.3 GB \u{1b}[0m(62.0%)        ▏");
    assert_eq!(get_fs_bar(&mi, 30, Style::plain()), "▕██\u{1b}[7m4.6 GB / 7.3 GB\u{1b}[0m (62.0%)   ▏");
    assert_eq!(get_fs_bar(&mi, 50, Style::plain()), "▕████████████\u{1b}[7m4.6 GB / 7.3 GB (\u{1b}[0m62.0%)             ▏");
    let mi = FsMountInfo {
        mount_path: "/foo/bar".to_string(),
        used_bytes: 6_891_011_000_000,
        total_bytes: 7_891_011_000_000,
    };
    assert_eq!(get_fs_bar(&mi, 40, Style::plain()), "▕███████\u{1b}[7m6.3 TB / 7.2 TB (87.3%)\u{1b}[0m███     ▏");
    let mi = FsMountInfo {
        mount_path: "/foo/bar".to_string(),
        used_bytes: 7_891_011_000_000,
        total_bytes: 7_891_011_000_000,
    };
    assert_eq!(get_fs_bar(&mi, 40, Style::plain()), "▕███████\u{1b}[7m7.2 TB / 7.2 TB (100.0%)\u{1b}[0m███████▏");
}

#[test]
fn test_ellipsis() {
    assert_eq!(ellipsis("\u{f06a}\u{f06a}\u{f06a}\u{f06a}", 3), "\u{f06a}\u{f06a}\u{2026}");
    assert_eq!(ellipsis("\u{f06a}\u{f06a}\u{f06a}\u{f06a}", 4), "\u{f06a}\u{f06a}\u{f06a}\u{f06a}");
    assert_eq!(ellipsis("\u{f06a}\u{f06a}\u{f06a}\u{f06a}", 5), "\u{f06a}\u{f06a}\u{f06a}\u{f06a}");
}
