use ghermez::status::{
    convertDownloadInformation, format_eta, format_percent, parent_dir, parse_count, rename_status,
    EngineStatus, RawStatus, StatusError, ValuesToString,
};
use ghermez::units::{convertToByte, humanReadableSize};

fn text(s: &str) -> Option<String> {
    Some(s.to_string())
}

#[test]
fn sizes_below_one_kibibyte_are_bytes() {
    assert_eq!(humanReadableSize(0, "file_size"), "0 B");
    assert_eq!(humanReadableSize(1023, "file_size"), "1023 B");
}

#[test]
fn sizes_pick_the_largest_unit() {
    assert_eq!(humanReadableSize(1024, "file_size"), "1 KiB");
    assert_eq!(humanReadableSize(1_048_576, "file_size"), "1 MiB");
    assert_eq!(humanReadableSize(1_073_741_824, "file_size"), "1 GiB");
    assert_eq!(humanReadableSize(1_099_511_627_776, "file_size"), "1 TiB");
    assert_eq!(humanReadableSize(2048 * 1_099_511_627_776, "file_size"), "2048 TiB");
}

#[test]
fn small_units_keep_every_decimal() {
    assert_eq!(humanReadableSize(1536, "file_size"), "1.5 KiB");
    assert_eq!(humanReadableSize(1100, "file_size"), "1.07421875 KiB");
    assert_eq!(humanReadableSize(1100, "speed"), "1.07421875 KiB");
}

#[test]
fn large_units_round_to_two_decimals() {
    assert_eq!(humanReadableSize(1_234_567_890, "file_size"), "1.15 GiB");
    assert_eq!(humanReadableSize(1_500_000, "speed"), "1.43 MiB");
    assert_eq!(humanReadableSize(1_572_864, "speed"), "1.5 MiB");
}

#[test]
fn size_text_reads_back() {
    for n in [0u64, 1023, 1024, 1_048_576, 1_073_741_824, 1536, 1100, 1_234_567, 999_999_999] {
        let shown = humanReadableSize(n, "file_size");
        assert_eq!(convertToByte(&shown), Some(n), "{}", shown);
    }
    for n in [1_234_567_890u64, 5_000_000_000_000, 3_333_333_333] {
        let shown = humanReadableSize(n, "file_size");
        let back = convertToByte(&shown).unwrap() as f64;
        assert!((back - n as f64).abs() <= 0.005 * n as f64 + 0.5, "{} -> {}", n, shown);
    }
}

#[test]
fn rates_start_at_kibibytes() {
    assert_eq!(humanReadableSize(512, "speed"), "0.5 KiB");
    assert_eq!(humanReadableSize(0, "speed"), "0 KiB");
    assert_eq!(humanReadableSize(1024, "speed"), "1 KiB");
    assert_eq!(humanReadableSize(512, "file_size"), "512 B");
}

#[test]
fn size_parser_rounds_as_documented() {
    assert_eq!(convertToByte("1.5 KiB"), Some(1536));
    assert_eq!(convertToByte("1.4 KiB"), Some(1434));
    assert_eq!(convertToByte("0.5 B"), Some(1));
    assert_eq!(convertToByte("1.5 GiB"), Some(1_610_612_736));
    assert_eq!(convertToByte("2 MiB"), Some(2_097_152));
    assert_eq!(convertToByte("12 B"), Some(12));
}

#[test]
fn size_parser_rejects_other_text() {
    assert_eq!(convertToByte("abc"), None);
    assert_eq!(convertToByte("12 XB"), None);
    assert_eq!(convertToByte("1.2.3 KiB"), None);
    assert_eq!(convertToByte(" KiB"), None);
    assert_eq!(convertToByte("99999999999 TiB"), None);
}

#[test]
fn eta_is_split_into_components() {
    assert_eq!(format_eta(45), "45s");
    assert_eq!(format_eta(125), "2m5s");
    assert_eq!(format_eta(3725), "1h2m5s");
    assert_eq!(format_eta(0), "0s");
    assert_eq!(format_eta(3600), "1h0m0s");
}

#[test]
fn percent_keeps_six_decimals() {
    assert_eq!(format_percent(1, 2), "50%");
    assert_eq!(format_percent(1, 3), "33.333333%");
    assert_eq!(format_percent(2, 3), "66.666667%");
    assert_eq!(format_percent(0, 7), "0%");
    assert_eq!(format_percent(1, 8), "12.5%");
    assert_eq!(format_percent(1, 32), "3.125%");
    assert_eq!(format_percent(1, 300), "0.333333%");
    assert_eq!(format_percent(7, 7), "100%");
}

#[test]
fn percent_text_reads_back_within_rounding() {
    for (c, t) in [(1u64, 3u64), (7, 9), (5, 1000), (999, 1000), (123456, 654321), (1, 32), (1, 300), (1, 1_000_000_007)] {
        let shown = format_percent(c, t);
        let value: f64 = shown.trim_end_matches('%').parse().unwrap();
        let exact = c as f64 * 100.0 / t as f64;
        assert!((value - exact).abs() <= 1e-4 * exact.max(1.0), "{} vs {}", shown, exact);
    }
}

#[test]
fn statuses_are_renamed() {
    assert_eq!(rename_status("active"), "downloading");
    assert_eq!(rename_status("removed"), "stopped");
    assert_eq!(rename_status("complete"), "complete");
    assert_eq!(rename_status("paused"), "paused");
    assert_eq!(rename_status("whatever"), "whatever");
}

#[test]
fn engine_status_names() {
    assert_eq!(ValuesToString::to_string(&EngineStatus::Active), "active");
    assert_eq!(ValuesToString::to_string(&EngineStatus::Removed), "removed");
    assert_eq!(ValuesToString::to_string(&EngineStatus::Waiting), "waiting");
}

#[test]
fn counts_parse_or_fail() {
    assert_eq!(parse_count("0"), Some(0));
    assert_eq!(parse_count("18446744073709551615"), Some(u64::MAX));
    assert_eq!(parse_count("18446744073709551616"), None);
    assert_eq!(parse_count(""), None);
    assert_eq!(parse_count("12a"), None);
}

#[test]
fn parent_directories() {
    assert_eq!(parent_dir("/home/u/Downloads/file.zip"), "/home/u/Downloads");
    assert_eq!(parent_dir("/file.zip"), "/");
    assert_eq!(parent_dir("file.zip"), "");
}

fn raw(status: &str, total: &str, completed: &str, speed: &str) -> RawStatus {
    RawStatus {
        gid: text("2089b05ecca3d829"),
        status: text(status),
        total_length: text(total),
        completed_length: text(completed),
        download_speed: text(speed),
        connections: text("4"),
        file_path: text("/home/u/Downloads/file.zip"),
        file_uri: text("http://example.com/file.zip"),
    }
}

#[test]
fn active_record_is_normalised() {
    let info = convertDownloadInformation(&raw("active", "2048", "1024", "512")).unwrap();
    assert_eq!(info.gid, text("2089b05ecca3d829"));
    assert_eq!(info.status, text("downloading"));
    assert_eq!(info.file_name, text("/home/u/Downloads"));
    assert_eq!(info.size, text("2 KiB"));
    assert_eq!(info.downloaded_size, text("1 KiB"));
    assert_eq!(info.percent, text("50%"));
    assert_eq!(info.connections, text("4"));
    assert_eq!(info.rate, text("0.5 KiB/s"));
    assert_eq!(info.estimate_time_left, text("2s"));
    assert_eq!(info.link, text("http://example.com/file.zip"));
}

#[test]
fn complete_record_has_zero_eta() {
    let info = convertDownloadInformation(&raw("complete", "2048", "2048", "0")).unwrap();
    assert_eq!(info.status, text("complete"));
    assert_eq!(info.estimate_time_left, text("0s"));
    assert_eq!(info.rate, text("0"));
}

#[test]
fn removed_record_is_stopped() {
    let info = convertDownloadInformation(&raw("removed", "4096", "1024", "0")).unwrap();
    assert_eq!(info.status, text("stopped"));
    assert_eq!(info.estimate_time_left, None);
    assert_eq!(info.percent, text("25%"));
}

#[test]
fn unknown_total_leaves_sizes_absent() {
    let info = convertDownloadInformation(&raw("waiting", "0", "0", "0")).unwrap();
    assert_eq!(info.size, None);
    assert_eq!(info.downloaded_size, None);
    assert_eq!(info.percent, None);
    let mut r = raw("waiting", "0", "0", "0");
    r.total_length = None;
    r.file_path = None;
    r.file_uri = None;
    let info = convertDownloadInformation(&r).unwrap();
    assert_eq!(info.size, None);
    assert_eq!(info.file_name, None);
    assert_eq!(info.link, None);
}

#[test]
fn malformed_numbers_are_reported() {
    assert_eq!(convertDownloadInformation(&raw("active", "x", "1", "1")).err(), Some(StatusError::TotalLength));
    assert_eq!(convertDownloadInformation(&raw("active", "1", "-1", "1")).err(), Some(StatusError::CompletedLength));
    assert_eq!(convertDownloadInformation(&raw("active", "1", "1", "1.5")).err(), Some(StatusError::DownloadSpeed));
}

#[test]
fn long_eta_and_fast_rate() {
    let info = convertDownloadInformation(&raw("active", "1073741824", "0", "1048576")).unwrap();
    assert_eq!(info.rate, text("1 MiB/s"));
    assert_eq!(info.estimate_time_left, text("17m4s"));
}

#[test]
fn file_name_needs_path_and_link() {
    let mut r = raw("active", "2048", "1024", "512");
    r.file_uri = None;
    let info = convertDownloadInformation(&r).unwrap();
    assert_eq!(info.file_name, None);
    assert_eq!(info.link, None);
    let mut r = raw("active", "2048", "1024", "512");
    r.file_path = None;
    let info = convertDownloadInformation(&r).unwrap();
    assert_eq!(info.file_name, None);
    assert_eq!(info.link, None);
}
