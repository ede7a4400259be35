use motd::net::{InterfaceStats, NetworkStats};
use motd::systemd::FailedUnits;
use motd::temp::{HardwareTemps, SensorTemp, SensorType, colorize_from_temp, compute_thresholds, parse_sysfs_temp_value};
use motd::load::{LoadInfo, colorize_load, parse_load_token, parse_task_count};

fn itf(name: &str, rx_bps: u64, tx_bps: u64, line_bps: Option<u64>) -> (String, InterfaceStats) {
    (name.to_string(), InterfaceStats { rx_bps, tx_bps, line_bps })
}

#[test]
fn test_output_network_stats() {
    let stats = NetworkStats::new(vec![
        itf("i1", 1, 1_234_567, None),
        itf("interface2", 1_234_567_890, 1_234, None),
        itf("itf3", 799_999, 800_000, Some(1_000_000)),
        itf("itf4", 900_000, 899_999, Some(1_000_000)),
        itf("itf5", 900_000_001, 800_000_001, Some(1_000_000_000)),
    ]);
    assert_eq!(stats.render(), "i1:         ↓      1 b/s  ↑   1.2 Mb/s\ninterface2: ↓   1.2 Gb/s  ↑   1.2 kb/s\nitf3:       ↓ 800.0 kb/s  ↑ \u{1b}[33m800.0 kb/s\u{1b}[0m\nitf4:       ↓ \u{1b}[31m900.0 kb/s\u{1b}[0m  ↑ \u{1b}[33m900.0 kb/s\u{1b}[0m\nitf5:       ↓ \u{1b}[31m900.0 Mb/s\u{1b}[0m  ↑ \u{1b}[33m800.0 Mb/s\u{1b}[0m\n");
}

#[test]
fn test_output_failed_units() {
    let f = FailedUnits::new(
        vec!["foo.service".to_string(), "bar.timer".to_string()],
        vec![],
    );
    assert_eq!(f.render(), "System:\n\u{1b}[31mfoo.service\u{1b}[0m\n\u{1b}[31mbar.timer\u{1b}[0m\n");
    let f = FailedUnits::new(
        vec![],
        vec!["foo.service".to_string(), "bar.timer".to_string()],
    );
    assert_eq!(f.render(), "User:\n\u{1b}[31mfoo.service\u{1b}[0m\n\u{1b}[31mbar.timer\u{1b}[0m\n");
    let f = FailedUnits::new(
        vec!["foo.service".to_string(), "bar.timer".to_string()],
        vec!["foo2.service".to_string()],
    );
    assert_eq!(f.render(), "System:\n\u{1b}[31mfoo.service\u{1b}[0m\n\u{1b}[31mbar.timer\u{1b}[0m\nUser:\n\u{1b}[31mfoo2.service\u{1b}[0m\n");
    let f = FailedUnits::new(vec![], vec![]);
    assert_eq!(f.render(), "");
}

#[test]
fn test_output_temps() {
    let temps = HardwareTemps::new(vec![
        SensorTemp {
            name: "sensor1".to_string(),
            sensor_type: SensorType::Cpu,
            temp: 95,
            temp_warning: 70,
            temp_critical: 80,
        },
        SensorTemp {
            name: "sensor222222222".to_string(),
            sensor_type: SensorType::Drive,
            temp: 40,
            temp_warning: 70,
            temp_critical: 80,
        },
        SensorTemp {
            name: "sensor333".to_string(),
            sensor_type: SensorType::OtherOrUnknown,
            temp: 50,
            temp_warning: 45,
            temp_critical: 60,
        },
    ]);
    assert_eq!(temps.render(), "\u{1b}[31msensor1:         95 째C\u{1b}[0m\nsensor222222222: 40 째C\n\u{1b}[33msensor333:       50 째C\u{1b}[0m\n");
}

#[test]
fn test_colorize_from_temp() {
    assert_eq!(colorize_from_temp("hey".to_string(), 59, 60, 75), "hey");
    assert_eq!(
        colorize_from_temp("hey".to_string(), 60, 60, 75),
        "\u{1b}[33mhey\u{1b}[0m"
    );
    assert_eq!(
        colorize_from_temp("hey".to_string(), 60, 60, 75),
        "\u{1b}[33mhey\u{1b}[0m"
    );
    assert_eq!(
        colorize_from_temp("hey".to_string(), 74, 60, 75),
        "\u{1b}[33mhey\u{1b}[0m"
    );
    assert_eq!(
        colorize_from_temp("hey".to_string(), 75, 60, 75),
        "\u{1b}[31mhey\u{1b}[0m"
    );
    assert_eq!(
        colorize_from_temp("hey".to_string(), 76, 60, 75),
        "\u{1b}[31mhey\u{1b}[0m"
    );
}

#[test]
fn test_output_load_info() {
    let li = LoadInfo {
        load_avg_1m: 110,
        load_avg_5m: 290,
        load_avg_15m: 310,
        task_count: 12345,
    };
    assert_eq!(li.render(3), "Load avg 1min: 1.1, 5 min: \u{1b}[33m2.9\u{1b}[0m, 15 min: \u{1b}[31m3.1\u{1b}[0m\nTasks: 12345\n");
}

#[test]
fn test_colorize_load() {
    assert_eq!(colorize_load(790, 10), "7.9");
    assert_eq!(colorize_load(800, 10), "\u{1b}[33m8\u{1b}[0m");
    assert_eq!(colorize_load(810, 10), "\u{1b}[33m8.1\u{1b}[0m");
    assert_eq!(colorize_load(990, 10), "\u{1b}[33m9.9\u{1b}[0m");
    assert_eq!(colorize_load(1000, 10), "\u{1b}[31m10\u{1b}[0m");
    assert_eq!(colorize_load(1010, 10), "\u{1b}[31m10.1\u{1b}[0m");
}

#[test]
fn parses_load_tokens() {
    assert_eq!(parse_load_token("0.52"), Some(52));
    assert_eq!(parse_load_token("12.05"), Some(1205));
    assert_eq!(parse_load_token("3"), None);
    assert_eq!(parse_load_token("1.5"), None);
    assert_eq!(parse_load_token("a.bc"), None);
    assert_eq!(parse_task_count("2/1234"), Some(1234));
    assert_eq!(parse_task_count("1234"), None);
}

#[test]
fn deduces_thresholds() {
    assert_eq!(compute_thresholds(SensorType::Cpu, Some(80), Some(100)), (70, 80));
    assert_eq!(compute_thresholds(SensorType::Drive, Some(60), Some(70)), (55, 60));
    assert_eq!(compute_thresholds(SensorType::OtherOrUnknown, Some(40), Some(90)), (65, 70));
    assert_eq!(compute_thresholds(SensorType::Cpu, Some(80), None), (70, 80));
    assert_eq!(compute_thresholds(SensorType::Drive, None, None), (50, 60));
    assert_eq!(compute_thresholds(SensorType::Cpu, None, None), (60, 75));
}

#[test]
fn parses_sysfs_temps() {
    assert_eq!(parse_sysfs_temp_value("45000\n"), Some(45));
    assert_eq!(parse_sysfs_temp_value("999"), None);
    assert_eq!(parse_sysfs_temp_value("abc"), None);
    assert_eq!(parse_sysfs_temp_value(""), None);
}
