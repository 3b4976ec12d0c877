//! Sizes and rates.

use searchlight::args::parse_size;
use searchlight::duration::Duration;
use searchlight::sizes::{
    describe_bounds, format_decimal, format_human, format_rate, parse_flexible, SizeUnit,
    SIZE_EXAMPLES,
};

#[test]
fn unit_factors_are_powers_of_two() {
    assert_eq!(SizeUnit::Byte.factor(), 1);
    assert_eq!(SizeUnit::Kib.factor(), 1024);
    assert_eq!(SizeUnit::Mib.factor(), 1024 * 1024);
    assert_eq!(SizeUnit::Gib.factor(), 1024 * 1024 * 1024);
    assert_eq!(SizeUnit::Tib.factor(), 1_099_511_627_776);
}

#[test]
fn best_unit_grows_with_the_value() {
    assert_eq!(SizeUnit::best_for(0), SizeUnit::Byte);
    assert_eq!(SizeUnit::best_for(1023), SizeUnit::Byte);
    assert_eq!(SizeUnit::best_for(1024), SizeUnit::Kib);
    assert_eq!(SizeUnit::best_for(5 * 1024 * 1024), SizeUnit::Mib);
    assert_eq!(SizeUnit::best_for(u64::MAX), SizeUnit::Tib);
    assert_eq!(SizeUnit::Mib.label(), "MiB");
}

#[test]
fn human_format_uses_binary_units() {
    assert_eq!(format_human(0), "0 B");
    assert_eq!(format_human(999), "999 B");
    assert_eq!(format_human(1024), "1.0 KiB");
    assert_eq!(format_human(1536), "1.5 KiB");
    assert_eq!(format_human(5 * 1024 * 1024), "5.0 MiB");
    assert_eq!(format_human(3 * 1024 * 1024 * 1024), "3.0 GiB");
}

#[test]
fn decimal_format_uses_si_units() {
    assert_eq!(format_decimal(0), "0 B");
    assert_eq!(format_decimal(999), "999 B");
    assert_eq!(format_decimal(1_500), "1.5 kB");
    assert_eq!(format_decimal(1_500_000), "1.5 MB");
    assert_eq!(format_decimal(2_000_000_000), "2.0 GB");
    assert_eq!(format_decimal(1_000_000_000_000), "1.0 TB");
}

#[test]
fn flexible_parser_accepts_documented_forms() {
    assert_eq!(parse_flexible("512"), Some(512));
    assert_eq!(parse_flexible("10k"), Some(10_240));
    assert_eq!(parse_flexible("10kb"), Some(10_240));
    assert_eq!(parse_flexible("10 KiB"), Some(10_240));
    assert_eq!(parse_flexible("1.5m"), Some(1_572_864));
    assert_eq!(parse_flexible("2GIB"), Some(2 * 1024 * 1024 * 1024));
    assert_eq!(parse_flexible("512bytes"), Some(512));
    assert_eq!(parse_flexible("  1 tb "), Some(1_099_511_627_776));
    assert_eq!(parse_flexible("0.5g"), Some(512 * 1024 * 1024));
    assert_eq!(parse_flexible("512B"), Some(512));
}

#[test]
fn flexible_parser_rejects_malformed_input() {
    assert_eq!(parse_flexible(""), None);
    assert_eq!(parse_flexible("   "), None);
    assert_eq!(parse_flexible("k"), None);
    assert_eq!(parse_flexible("12x"), None);
    assert_eq!(parse_flexible("-5"), None);
    assert_eq!(parse_flexible("1.2.3"), None);
    assert_eq!(parse_flexible("nan"), None);
    assert_eq!(parse_flexible("1e3"), None);
    assert_eq!(parse_flexible("999999999999t"), None, "overflows u64");
}

#[test]
fn bounds_phrases_cover_every_combination() {
    assert_eq!(describe_bounds(None, None), "any size");
    assert_eq!(describe_bounds(Some(10_240), None), ">= 10.0 KiB");
    assert_eq!(describe_bounds(None, Some(5 * 1024 * 1024)), "<= 5.0 MiB");
    assert_eq!(
        describe_bounds(Some(1024), Some(2048)),
        "1.0 KiB - 2.0 KiB"
    );
}

#[test]
fn size_examples_themselves_parse() {
    for example in SIZE_EXAMPLES.split(", ") {
        assert!(
            parse_flexible(example).is_some(),
            "example '{}' must parse",
            example
        );
    }
}

#[test]
fn rates_divide_by_seconds() {
    let two_seconds = Duration::from_secs(2);
    assert_eq!(format_rate(2_000_000, two_seconds), "1.0 MB/s");
    assert_eq!(format_rate(1, two_seconds), "0 B/s");
    assert_eq!(format_rate(1_000, Duration::zero()), "0 B/s");
}

#[test]
fn decimal_sizes_are_rounded_as_floating_point_rounds() {
    let mut n: u64 = 1_000;
    while n < u64::MAX / 7 {
        for bytes in [n - 1, n, n + n / 20, n + n / 3] {
            let mut value = bytes as f64;
            let mut unit = 0;
            while value >= 1_000.0 && unit < 4 {
                value /= 1_000.0;
                unit += 1;
            }
            let expected = if unit == 0 {
                format!("{} B", bytes)
            } else {
                format!("{:.1} {}", value, ["B", "kB", "MB", "GB", "TB"][unit])
            };
            assert_eq!(format_decimal(bytes), expected);
        }
        n = n * 7 + 3;
    }
}

#[test]
fn fractions_are_read_as_floating_point_reads() {
    for number in ["0.1", "1.1", "2.675", "0.3333333333333333333333", "1234567.890625", "007.5"] {
        let value: f64 = number.parse().expect("a number");
        assert_eq!(parse_flexible(number), Some(value as u64), "{}", number);
        let scaled = value * 1_048_576.0;
        assert_eq!(parse_flexible(&format!("{}m", number)), Some(scaled as u64), "{}", number);
    }
}

#[test]
fn renderings_of_whole_sizes_read_back() {
    for n in [0u64, 1, 10, 512, 1023] {
        assert_eq!(parse_flexible(&format_human(n)), Some(n));
    }
    for unit in [SizeUnit::Kib, SizeUnit::Mib, SizeUnit::Gib, SizeUnit::Tib] {
        for n in [1u64, 3, 10, 1000, 1023] {
            let size = n * unit.factor();
            assert_eq!(parse_flexible(&format_human(size)), Some(size));
        }
    }
    assert_eq!(format_human(10_240), "10.0 KiB");
    assert_eq!(parse_flexible("10.0 KiB"), Some(10_240));
}

#[test]
fn strict_sizes_are_read_alike() {
    for text in [
        "0", "512", "007", " 16 ", "64b", "64B", "10k", "5M", "2g", "8191t", "9007199254740992",
        "8796093022208K", "00000000000000000000000001t",
    ] {
        let strict = parse_size(text).expect("a strict size");
        assert!(strict <= 1 << 53, "{}", text);
        assert_eq!(parse_flexible(text), Some(strict), "{}", text);
    }
}
