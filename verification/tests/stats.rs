//! Counters and their rendering.

use searchlight::duration::Duration;
use searchlight::stats::{format_bytes, format_duration, separate_thousands, Counter, Stats};

#[test]
fn bump_helper_adds_deltas() {
    let mut stats = Stats::new();
    stats.bump(Counter::FilesFound, 5);
    stats.bump(Counter::FilesFound, 2);
    assert_eq!(stats.files_found, 7);
    assert!(!stats.any_errors());
    stats.bump(Counter::Errors, 1);
    assert!(stats.any_errors());
    assert_eq!(stats.total_match_lines(), 0);
    stats.bump(Counter::MatchLines, 12);
    assert_eq!(stats.total_match_lines(), 12);
}

#[test]
fn snapshot_copies_every_field() {
    let mut stats = Stats::new();
    stats.bump(Counter::FilesFound, 10);
    stats.bump(Counter::FilesSearched, 9);
    stats.bump(Counter::FilesBinary, 1);
    stats.bump(Counter::FilesMatched, 4);
    stats.bump(Counter::MatchLines, 40);
    stats.record_walk_time(Duration::from_millis(2));
    stats.record_search_time(Duration::from_millis(7));

    let snapshot = stats.snapshot();
    assert_eq!(snapshot.files_found, 10);
    assert_eq!(snapshot.files_searched, 9);
    assert_eq!(snapshot.files_binary, 1);
    assert_eq!(snapshot.files_matched, 4);
    assert_eq!(snapshot.match_lines, 40);
    assert_eq!(snapshot.walk, Duration::from_millis(2));
    assert_eq!(snapshot.search, Duration::from_millis(7));
    assert_eq!(snapshot.errors, 0);
}

#[test]
fn thousands_separator_groups_digits() {
    assert_eq!(separate_thousands(0), "0");
    assert_eq!(separate_thousands(7), "7");
    assert_eq!(separate_thousands(999), "999");
    assert_eq!(separate_thousands(1_000), "1,000");
    assert_eq!(separate_thousands(12_345), "12,345");
    assert_eq!(separate_thousands(1_234_567), "1,234,567");
    assert_eq!(separate_thousands(1_000_000_000), "1,000,000,000");
}

#[test]
fn byte_formatting_uses_binary_units() {
    assert_eq!(format_bytes(0), "0 B");
    assert_eq!(format_bytes(1), "1 B");
    assert_eq!(format_bytes(1023), "1023 B");
    assert_eq!(format_bytes(1024), "1.0 KiB");
    assert_eq!(format_bytes(1536), "1.5 KiB");
    assert_eq!(format_bytes(1024 * 1024), "1.0 MiB");
    assert_eq!(format_bytes(5 * 1024 * 1024), "5.0 MiB");
    assert_eq!(format_bytes(3 * 1024 * 1024 * 1024), "3.0 GiB");
    assert_eq!(format_bytes(2 * 1024_u64.pow(4)), "2.0 TiB");
}

#[test]
fn duration_formatting_scales_units() {
    assert_eq!(format_duration(Duration::from_micros(1)), "1 µs");
    assert_eq!(format_duration(Duration::from_micros(999)), "999 µs");
    assert_eq!(format_duration(Duration::from_millis(1)), "1.0 ms");
    assert_eq!(format_duration(Duration::from_millis(999)), "999.0 ms");
    assert_eq!(format_duration(Duration::from_millis(1_500)), "1.50 s");
    assert_eq!(format_duration(Duration::from_secs(1)), "1.00 s");
    assert_eq!(format_duration(Duration::from_secs(90)), "90.00 s");
}

#[test]
fn throughput_is_bytes_over_search_time() {
    let mut stats = Stats::new();
    stats.bump(Counter::BytesScanned, 2_000_000);
    stats.record_search_time(Duration::from_secs(2));
    let snapshot = stats.snapshot();
    assert_eq!(snapshot.bytes_per_second(), 1_000_000);

    // Zero search time yields a zero throughput rather than a division
    // by zero.
    let empty = Stats::new().snapshot();
    assert_eq!(empty.bytes_per_second(), 0);
}

#[test]
fn stats_display_renders_an_aligned_table() {
    let mut stats = Stats::new();
    stats.bump(Counter::FilesFound, 1_234);
    stats.bump(Counter::MatchLines, 56);
    stats.record_search_time(Duration::from_millis(12));
    let table = stats.snapshot().to_string();

    assert!(table.starts_with("searchlight statistics"));
    assert!(table.contains("files found"), "label present: {}", table);
    assert!(table.contains("1,234"));
    assert!(table.contains("matching lines"));
    assert!(table.contains("56"));
    assert!(table.contains("12.0 ms"));
    assert!(!table.contains("i/o errors"), "no error row when clean");

    stats.bump(Counter::Errors, 3);
    let table = stats.snapshot().to_string();
    assert!(table.contains("i/o errors"));
    assert!(table.contains("3"));
}

#[test]
fn counters_wrap_like_machine_words() {
    let mut stats = Stats::new();
    stats.bump(Counter::LinesScanned, u64::MAX);
    stats.bump(Counter::LinesScanned, 3);
    assert_eq!(stats.lines_scanned, 2);
}

#[test]
fn statistics_table_lines_up_on_the_right() {
    let mut stats = Stats::new();
    stats.bump(Counter::FilesFound, 1_204);
    stats.bump(Counter::FilesSearched, 1_200);
    stats.bump(Counter::FilesMatched, 17);
    stats.bump(Counter::FilesBinary, 4);
    stats.bump(Counter::MatchLines, 42);
    stats.bump(Counter::LinesScanned, 89_551);
    stats.bump(Counter::BytesScanned, 3_250_586);
    stats.record_walk_time(Duration::from_micros(4_100));
    stats.record_search_time(Duration::from_micros(38_900));
    let clean = "searchlight statistics\n\
         \x20 files found          1,204\n\
         \x20 files searched       1,200\n\
         \x20 files with matches      17\n\
         \x20 binary files skipped     4\n\
         \x20 matching lines          42\n\
         \x20 lines scanned       89,551\n\
         \x20 bytes scanned       3.1 MiB\n\
         \x20 walk time            4.1 ms\n\
         \x20 search time         38.9 ms\n\
         \x20 search throughput   79.7 MiB /s\n";
    assert_eq!(stats.snapshot().to_string(), clean);
    stats.bump(Counter::Errors, 1);
    assert_eq!(
        stats.snapshot().to_string(),
        format!("{}  i/o errors               1\n", clean)
    );
    stats.bump(Counter::FilesBinary, 123_452);
    assert!(stats.snapshot().to_string().contains("  binary files skipped 123,456\n"));
}

#[test]
fn durations_are_rounded_as_floating_point_rounds() {
    for micros in [0u64, 1, 999, 1_000, 1_049, 1_050, 1_051, 12_345, 999_949, 999_950, 999_999] {
        let expected = if micros < 1_000 {
            format!("{} µs", micros)
        } else {
            format!("{:.1} ms", micros as f64 / 1_000.0)
        };
        assert_eq!(format_duration(Duration::from_micros(micros)), expected);
    }
    for nanos in [1_000_000_000u64, 1_004_999_999, 1_005_000_000, 1_015_000_000, 90_125_000_000] {
        let real = std::time::Duration::from_nanos(nanos).as_secs_f64();
        assert_eq!(format_duration(Duration::from_nanos(nanos)), format!("{:.2} s", real));
    }
}

#[test]
fn byte_counts_are_rounded_as_floating_point_rounds() {
    let mut n: u64 = 1_024;
    while n < u64::MAX / 3 {
        for bytes in [n - 1, n, n + n / 20, n + n / 20 + 1, n + n / 3] {
            let mut value = bytes as f64;
            let mut unit = 0;
            if bytes >= 1_024 {
                value /= 1_024.0;
                unit = 1;
                while value >= 1_024.0 && unit < 4 {
                    value /= 1_024.0;
                    unit += 1;
                }
            }
            let expected = if unit == 0 {
                format!("{} B", bytes)
            } else {
                format!("{:.1} {}", value, ["B", "KiB", "MiB", "GiB", "TiB"][unit])
            };
            assert_eq!(format_bytes(bytes), expected);
        }
        n = n * 3 + 1;
    }
}
