//! Command-line parsing.

use searchlight::args::{parse_short_cluster, parse_size, ColorChoice, Config, ParseOutcome};

/// How many workers the configurations in this file start from.
const THREADS: usize = 3;

fn args(items: &[&str]) -> Vec<String> {
    items.iter().map(|s| s.to_string()).collect()
}

fn config_of(items: &[&str]) -> Config {
    match Config::parse_from(args(items), THREADS).expect("parse should succeed") {
        ParseOutcome::Config(config) => config,
        other => panic!("expected Config, got {:?}", other),
    }
}

fn error_of(items: &[&str]) -> String {
    Config::parse_from(args(items), THREADS)
        .expect_err("parse should fail")
        .to_string()
}

#[test]
fn minimal_invocation_sets_pattern_and_defaults() {
    let config = config_of(&["needle"]);
    assert_eq!(config.pattern, "needle");
    assert!(config.paths.is_empty(), "no path means cwd later");
    assert_eq!(config.threads, THREADS);
    assert_eq!(config.color, ColorChoice::Auto);
    assert_eq!(config.before_context, 0);
}

#[test]
fn pattern_and_paths_are_split_positionally() {
    let config = config_of(&["foo", "src", "docs"]);
    assert_eq!(config.pattern, "foo");
    assert_eq!(
        config.paths,
        vec!["src".to_string(), "docs".to_string()]
    );
}

#[test]
fn boolean_short_flags_cluster() {
    let config = config_of(&["-invqw", "x"]);
    assert!(config.ignore_case);
    assert!(config.line_numbers);
    assert!(config.invert_match);
    assert!(config.quiet);
    assert!(config.word_regexp);
    assert!(!config.count_only);
}

#[test]
fn context_flags_accept_attached_and_separate_values() {
    let config = config_of(&["-C2", "x"]);
    assert_eq!(config.before_context, 2);
    assert_eq!(config.after_context, 2);

    let config = config_of(&["-B", "3", "-A1", "x"]);
    assert_eq!(config.before_context, 3);
    assert_eq!(config.after_context, 1);

    // -C applied first, then -B overrides only the before side.
    let config = config_of(&["-C", "4", "-B", "1", "x"]);
    assert_eq!(config.before_context, 1);
    assert_eq!(config.after_context, 4);
}

#[test]
fn long_options_support_both_value_forms() {
    let config = config_of(&["--color=always", "--max-depth", "3", "x"]);
    assert_eq!(config.color, ColorChoice::Always);
    assert_eq!(config.max_depth, Some(3));

    let config = config_of(&["--color", "never", "--max-depth=2", "x"]);
    assert_eq!(config.color, ColorChoice::Never);
    assert_eq!(config.max_depth, Some(2));
}

#[test]
fn repeatable_globs_and_sizes_accumulate() {
    let config = config_of(&[
        "--glob",
        "*.rs",
        "--glob",
        "*.toml",
        "--exclude-glob",
        "target/*",
        "--min-size",
        "512",
        "--max-size",
        "10m",
        "-m5",
        "-j8",
        "x",
    ]);
    assert_eq!(config.include_globs, vec!["*.rs", "*.toml"]);
    assert_eq!(config.exclude_globs, vec!["target/*"]);
    assert_eq!(config.min_size, Some(512));
    assert_eq!(config.max_size, Some(10 * 1024 * 1024));
    assert_eq!(config.max_count, Some(5));
    assert_eq!(config.threads, 8);
}

#[test]
fn parse_size_forms() {
    assert_eq!(parse_size("512"), Some(512));
    assert_eq!(parse_size("10k"), Some(10_240));
    assert_eq!(parse_size("5M"), Some(5 * 1024 * 1024));
    assert_eq!(parse_size("2g"), Some(2 * 1024 * 1024 * 1024));
    assert_eq!(parse_size("1t"), Some(1_099_511_627_776));
    assert_eq!(parse_size("64b"), Some(64));
    assert_eq!(parse_size(" 16 "), Some(16));
    assert_eq!(parse_size(""), None);
    assert_eq!(parse_size("k"), None);
    assert_eq!(parse_size("12x"), None);
    assert_eq!(parse_size("-5"), None);
    assert_eq!(parse_size("99999999999999999999999g"), None);
}

#[test]
fn double_dash_makes_everything_positional() {
    let config = config_of(&["--", "-weird-pattern", "-file"]);
    assert_eq!(config.pattern, "-weird-pattern");
    assert_eq!(config.paths, vec!["-file".to_string()]);
}

#[test]
fn help_and_version_short_circuit() {
    assert!(matches!(
        Config::parse_from(args(&["--help"]), THREADS),
        Ok(ParseOutcome::Help)
    ));
    assert!(matches!(
        Config::parse_from(args(&["-h"]), THREADS),
        Ok(ParseOutcome::Help)
    ));
    assert!(matches!(
        Config::parse_from(args(&["--version"]), THREADS),
        Ok(ParseOutcome::Version)
    ));
    assert!(matches!(
        Config::parse_from(args(&["-V"]), THREADS),
        Ok(ParseOutcome::Version)
    ));
}

#[test]
fn invalid_command_lines_are_rejected() {
    assert!(error_of(&["src/"]).contains("missing PATTERN"));
    assert!(error_of(&["--nope", "x"]).contains("--nope"));
    assert!(error_of(&["-Z", "x"]).contains("-Z"));
    assert!(error_of(&["--max-depth"]).contains("requires a value"));
    assert!(error_of(&["--json=1", "x"]).contains("does not take a value"));
    assert!(error_of(&["--max-depth", "-1", "x"]).contains("non-negative"));
    assert!(error_of(&["--max-depth", "abc", "x"]).contains("non-negative"));
    assert!(error_of(&["-j", "0", "x"]).contains("at least 1"));
    assert!(error_of(&["-j4096", "x"]).contains("at most"));
    assert!(error_of(&["-m", "0", "x"]).contains("at least 1"));
    assert!(error_of(&["--color", "sometimes", "x"]).contains("--color"));
    assert!(error_of(&["--max-size", "10x", "x"]).contains("size like"));
}

#[test]
fn validate_catches_contradictory_sizes() {
    let mut config = Config::with_defaults(THREADS);
    config.pattern = "x".to_string();
    config.min_size = Some(200);
    config.max_size = Some(100);
    assert!(config.validate().is_err());

    config.max_size = Some(300);
    assert!(config.validate().is_ok());
}

#[test]
fn diagnostic_flags_map_onto_fields() {
    let config = config_of(&[
        "-qsnbo",
        "--stats",
        "--json",
        "--no-ignore",
        "--hidden",
        "--follow",
        "x",
    ]);
    assert!(config.quiet);
    assert!(config.no_messages);
    assert!(config.line_numbers);
    assert!(config.byte_offset);
    assert!(config.only_matching);
    assert!(config.stats);
    assert!(config.json);
    assert!(config.no_ignore);
    assert!(config.hidden);
    assert!(config.follow_symlinks);
}

#[test]
fn sizes_take_fractions_too() {
    let config = config_of(&["--min-size", "1.5m", "--max-size=2gib", "x"]);
    assert_eq!(config.min_size, Some(1_572_864));
    assert_eq!(config.max_size, Some(2 * 1024 * 1024 * 1024));
    assert!(error_of(&["--min-size", "2k", "--max-size", "1k", "x"]).contains("exceeds"));
}

#[test]
fn clusters_end_with_a_value_flag() {
    let config = config_of(&["-inC3", "x"]);
    assert!(config.ignore_case && config.line_numbers);
    assert_eq!(config.before_context, 3);
    let config = config_of(&["-vm", "7", "x"]);
    assert!(config.invert_match);
    assert_eq!(config.max_count, Some(7));
    let separate = config_of(&["-i", "-n", "-C", "3", "x"]);
    assert_eq!(separate.before_context, 3);
    assert!(separate.ignore_case && separate.line_numbers);
}

#[test]
fn the_sources_alone_are_no_pattern() {
    assert_eq!(
        error_of(&["src/"]),
        "argument error: missing PATTERN (try 'searchlight --help')"
    );
    assert!(error_of(&[]).contains("missing PATTERN"));
    let config = config_of(&["src/", "docs"]);
    assert_eq!(config.pattern, "src/");
    assert_eq!(config_of(&["--", "src/"]).pattern, "src/");
    assert_eq!(config_of(&["-n", "src/"]).pattern, "src/");
    // Everything else is a pattern.
    for pattern in ["docs/", "../", "a/b/", "http://", "//", "/", "src", "src//", "^src/"] {
        assert_eq!(config_of(&[pattern]).pattern, pattern);
    }
}

#[test]
fn attached_and_separate_values_leave_the_same_settings() {
    for flag in ['A', 'B', 'C', 'j', 'm'] {
        for digits in ["3", "007", "0", "99999999999999999999999"] {
            let attached = args(&[&format!("-{}{}", flag, digits), "x"]);
            let separate = args(&[&format!("-{}", flag), digits, "x"]);
            let (mut a, mut b) = (Config::with_defaults(THREADS), Config::with_defaults(THREADS));
            let one: Vec<char> = attached[0].chars().collect();
            let two: Vec<char> = separate[0].chars().collect();
            let first = parse_short_cluster(&one, &attached, 0, &mut a);
            let second = parse_short_cluster(&two, &separate, 0, &mut b);
            assert_eq!(format!("{:?}", a), format!("{:?}", b));
            match (first, second) {
                (Ok(next), Ok(after)) => assert_eq!((next, after), (1, 2)),
                (Err(left), Err(right)) => assert_eq!(left.to_string(), right.to_string()),
                (left, right) => panic!("{:?} and {:?}", left, right),
            }
        }
    }
}

#[test]
fn flags_in_front_of_a_refused_one_stay_set() {
    let mut config = Config::with_defaults(THREADS);
    let tokens = args(&["-inZv"]);
    let chars: Vec<char> = tokens[0].chars().collect();
    assert!(parse_short_cluster(&chars, &tokens, 0, &mut config).is_err());
    assert!(config.ignore_case && config.line_numbers && !config.invert_match);
}

#[test]
fn colors_are_chosen_by_name() {
    assert!(matches!(ColorChoice::parse("auto"), Ok(ColorChoice::Auto)));
    assert!(matches!(ColorChoice::parse("always"), Ok(ColorChoice::Always)));
    assert!(matches!(ColorChoice::parse("never"), Ok(ColorChoice::Never)));
    assert!(ColorChoice::parse("Auto").is_err());
}

#[test]
fn defaults_are_quiet_about_nothing() {
    let config = Config::with_defaults(THREADS);
    assert_eq!(config.threads, THREADS);
    assert!(!config.quiet && !config.json && !config.stats && !config.hidden);
    assert_eq!(config.max_depth, None);
}
