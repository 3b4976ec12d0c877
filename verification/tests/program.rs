//! The decisions of the program.

use searchlight::args::{ColorChoice, Config};
use searchlight::duration::Duration;
use searchlight::error::{IoError, IoErrorKind};
use searchlight::output::{RenderOptions, Renderer};
use searchlight::pattern::Pattern;
use searchlight::program::{
    default_threads, deliver, exit_code, found_anything, help_text, note_failures, record_phases,
    refuse_root, resolve_color, search_roots, start, stats_text, version_text, with_filename,
    write_complaint,
    Startup,
};
use searchlight::search::{search_file, FileOutcome, SearchOptions};
use searchlight::stats::Stats;
use searchlight::timer::Timeline;
use searchlight::walk::{WalkError, WalkOptions};
use searchlight::{TAGLINE, VERSION};

#[test]
fn help_names_the_program_and_its_flags() {
    let help = help_text();
    assert!(help.starts_with("searchlight 1.0.0\nFast, parallel content search for the terminal\n\nUSAGE:\n"));
    for flag in ["--ignore-case", "--max-count N", "-B N", "--min-size S", "--follow", "--stats"] {
        assert!(help.contains(flag), "{}", flag);
    }
    assert!(help.contains("Sizes S accept suffixes such as: 512, 10k, 1.5m, 2gib.\n"));
    assert!(help.ends_with("    2    an error occurred (bad arguments, unreadable path, ...)\n"));
    assert_eq!(version_text(), format!("searchlight {}", VERSION));
    assert!(help.contains(TAGLINE));
}

#[test]
fn color_follows_the_environment_only_when_asked() {
    assert!(resolve_color(ColorChoice::Always, true, false));
    assert!(!resolve_color(ColorChoice::Never, false, true));
    assert!(resolve_color(ColorChoice::Auto, false, true));
    assert!(!resolve_color(ColorChoice::Auto, true, true));
    assert!(!resolve_color(ColorChoice::Auto, false, false));
}

#[test]
fn file_names_are_left_out_for_a_single_file() {
    assert!(with_filename(0, false));
    assert!(!with_filename(1, false));
    assert!(with_filename(1, true));
    assert!(with_filename(2, false));
}

#[test]
fn the_current_directory_is_the_default_root() {
    let mut config = Config::with_defaults(2);
    assert_eq!(search_roots(&config), vec!["."]);
    config.paths = vec!["src".to_string(), "docs".to_string()];
    assert_eq!(search_roots(&config), vec!["src", "docs"]);
    assert_eq!(default_threads(Some(12)), 12);
    assert_eq!(default_threads(None), 4);
}

#[test]
fn options_come_from_the_configuration() {
    let mut config = Config::with_defaults(5);
    config.max_depth = Some(2);
    config.follow_symlinks = true;
    config.after_context = 7;
    config.invert_match = true;
    let walk = WalkOptions::from_config(&config);
    assert_eq!((walk.max_depth, walk.follow, walk.hidden, walk.threads), (Some(2), true, false, 5));
    let search = SearchOptions::from_config(&config);
    assert_eq!((search.max_count, search.invert, search.before, search.after), (None, true, 0, 7));
}

#[test]
fn exit_codes_tell_what_happened() {
    assert_eq!(exit_code(true, None), 0);
    assert_eq!(exit_code(false, None), 1);
    assert_eq!(exit_code(false, Some(IoErrorKind::BrokenPipe)), 0);
    assert_eq!(exit_code(true, Some(IoErrorKind::Other)), 2);
}

fn outcomes() -> Vec<FileOutcome> {
    let pattern = Pattern::new("a", false, false).expect("valid");
    let options = SearchOptions { max_count: None, invert: false, before: 0, after: 0 };
    vec![
        search_file("x", Ok(b"a\nb\n".to_vec()), &pattern, &options),
        search_file("y", Ok(vec![0]), &pattern, &options),
        search_file("z", Err(IoError::of_kind(IoErrorKind::PermissionDenied)), &pattern, &options),
    ]
}

fn delivered(config: &Config) -> (String, Vec<Option<String>>) {
    let mut renderer = Renderer::new(RenderOptions::from_config(config, false, true));
    let mut messages = Vec::new();
    for outcome in &outcomes() {
        messages.push(deliver(outcome, config, &mut renderer));
    }
    (renderer.flush(), messages)
}

#[test]
fn results_go_out_and_failures_are_told() {
    let mut config = Config::with_defaults(2);
    let (text, messages) = delivered(&config);
    assert_eq!(text, "x:a\n");
    assert_eq!(messages[0], None);
    assert_eq!(messages[1].as_deref(), Some("searchlight: y: binary file skipped"));
    assert_eq!(messages[2].as_deref(), Some("searchlight: z: permission denied"));

    config.quiet = true;
    config.no_messages = true;
    let (text, messages) = delivered(&config);
    assert_eq!(text, "");
    assert!(messages.iter().all(|message| message.is_none()));

    assert!(found_anything(&outcomes()));
    assert!(!found_anything(&Vec::new()));
}

#[test]
fn walk_failures_are_counted_and_told() {
    let errors = vec![WalkError { path: "p".to_string(), message: "odd".to_string() }];
    let mut config = Config::with_defaults(2);
    let mut stats = Stats::new();
    assert_eq!(note_failures(&errors, &config, &mut stats), vec!["searchlight: p: odd"]);
    config.no_messages = true;
    assert!(note_failures(&errors, &config, &mut stats).is_empty());
    assert_eq!(stats.errors, 2);
}

#[test]
fn statistics_hold_the_phases_and_the_limits() {
    let mut config = Config::with_defaults(2);
    config.min_size = Some(1024);
    let mut stats = Stats::new();
    let timeline = Timeline::from_micros(&[("walk", 2_000), ("search", 38_900)]);
    record_phases(&timeline, &mut stats);
    assert_eq!(stats.snapshot().walk, Duration::from_millis(2));
    assert_eq!(stats.snapshot().search, Duration::from_micros(38_900));
    let text = stats_text(&stats.snapshot(), &timeline, &config);
    assert!(text.starts_with("searchlight statistics\n"));
    assert!(text.contains("\n  walk time            2.0 ms\n  search time         38.9 ms\n"));
    assert!(text.ends_with("\ntotal wall time    40.9 ms\nsize limits        >= 1.0 KiB\n"));
}

fn started(items: &[&str]) -> Startup {
    start(items.iter().map(|item| item.to_string()).collect(), 2)
}

fn refused(items: &[&str]) -> Vec<String> {
    match started(items) {
        Startup::Refuse(lines, 2) => lines,
        other => panic!("expected a refusal, got {:?}", other),
    }
}

#[test]
fn bad_starts_are_refused() {
    assert_eq!(
        refused(&["--nope", "x"]),
        vec![
            "searchlight: argument error: unrecognized option '--nope'",
            "Try 'searchlight --help' for more information.",
        ]
    );
    assert_eq!(refused(&["(x"]), vec!["searchlight: pattern error: missing closing ')'"]);
    assert_eq!(
        refused(&["--glob", "", "x"]),
        vec!["searchlight: argument error: glob patterns must not be empty"]
    );
    assert_eq!(
        refused(&["--glob", "[", "x"]),
        vec!["searchlight: pattern error: unclosed character class"]
    );
}

#[test]
fn good_starts_print_or_search() {
    assert!(matches!(started(&["--help"]), Startup::Print(text) if text == help_text()));
    assert!(matches!(started(&["-V"]), Startup::Print(text) if text == version_text()));
    match started(&["-iw", "Cat", "src"]) {
        Startup::Search(plan) => {
            assert_eq!(plan.config.paths, vec!["src"]);
            assert!(plan.pattern.is_match("a CAT"));
            assert!(!plan.pattern.is_match("cats"));
            assert!(plan.filter.is_noop());
        }
        other => panic!("expected a search, got {:?}", other),
    }
}

#[test]
fn broken_pipes_are_no_complaint() {
    assert_eq!(write_complaint(&IoError::of_kind(IoErrorKind::BrokenPipe)), None);
    assert_eq!(
        write_complaint(&IoError::new(IoErrorKind::Other, "disk on fire")).as_deref(),
        Some("searchlight: i/o error: disk on fire")
    );
}

#[test]
fn roots_that_cannot_be_inspected_end_the_run() {
    let (message, code) = refuse_root("no/such", &IoError::of_kind(IoErrorKind::NotFound));
    assert_eq!(message, "searchlight: no/such: no such file or directory");
    assert_eq!(code, 2);
    let (message, code) = refuse_root("x", &IoError::of_kind(IoErrorKind::PermissionDenied));
    assert_eq!(message, "searchlight: x: permission denied");
    assert_eq!(code, 2);
}

#[test]
fn help_says_how_to_search_for_the_sources() {
    assert!(help_text().contains("With src/ and nothing else, the PATTERN is missing"));
}
