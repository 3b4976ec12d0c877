//! Globs, size limits, ignore rules and the binary sniff.

use searchlight::args::Config;
use searchlight::filters::{
    base_name, looks_binary, FileFilter, GlobRule, IgnoreSet, BINARY_SNIFF_BYTES,
};

fn filter(
    wanted: &[&str],
    unwanted: &[&str],
    min: Option<u64>,
    max: Option<u64>,
) -> FileFilter {
    let wanted: Vec<String> = wanted.iter().map(|s| s.to_string()).collect();
    let unwanted: Vec<String> = unwanted.iter().map(|s| s.to_string()).collect();
    FileFilter::new(&wanted, &unwanted, min, max).expect("valid globs")
}

#[test]
fn noop_filter_accepts_everything() {
    let f = filter(&[], &[], None, None);
    assert!(f.is_noop());
    assert!(f.accepts("anything/at/all.txt", 0));
    assert!(f.accepts("main.rs", 999_999));
}

#[test]
fn include_globs_restrict_by_file_name() {
    let f = filter(&["*.rs"], &[], None, None);
    assert!(f.accepts("src/main.rs", 10));
    assert!(f.accepts("main.rs", 10));
    assert!(!f.accepts("src/main.c", 10));
    assert!(!f.accepts("docs/readme.md", 10));
}

#[test]
fn include_globs_with_slash_match_the_relative_path() {
    let f = filter(&["src/*.rs"], &[], None, None);
    assert!(f.accepts("src/main.rs", 1));
    // `*` never crosses a separator, so nested files are out.
    assert!(!f.accepts("src/sub/main.rs", 1));
    assert!(!f.accepts("tests/main.rs", 1));
}

#[test]
fn exclude_globs_win_over_includes() {
    let f = filter(&["*.rs"], &["generated_*"], None, None);
    assert!(f.accepts("src/hand.rs", 1));
    assert!(!f.accepts("src/generated_api.rs", 1));
}

#[test]
fn size_bounds_are_inclusive() {
    let f = filter(&[], &[], Some(100), Some(200));
    assert!(!f.accepts("tiny", 99));
    assert!(f.accepts("low", 100));
    assert!(f.accepts("high", 200));
    assert!(!f.accepts("big", 201));

    let min_only = filter(&[], &[], Some(5), None);
    assert!(min_only.accepts("x", u64::MAX));

    let max_only = filter(&[], &[], None, Some(5));
    assert!(max_only.accepts("x", 0));
}

#[test]
fn contradictory_sizes_are_rejected() {
    let err = FileFilter::new(&[], &[], Some(300), Some(100)).expect_err("must fail");
    assert!(err.to_string().contains("exceeds"));
}

#[test]
fn malformed_globs_fail_compilation() {
    let mut globs = Vec::new();
    globs.push("[unclosed".to_string());
    assert!(FileFilter::new(&globs, &[], None, None).is_err());
    assert!(GlobRule::compile("").is_err());
}

#[test]
fn looks_binary_sniffs_nul_bytes() {
    assert!(!looks_binary(b"plain text\nwith lines\r\n"));
    assert!(!looks_binary(b""));
    assert!(!looks_binary("ünïcode ✓".as_bytes()));
    assert!(looks_binary(&[b'a', 0, b'b']));
    let mut big = vec![b'x'; BINARY_SNIFF_BYTES];
    big.push(0);
    assert!(looks_binary(&big), "NUL just past the window is still seen");
    let mut after_window = vec![b'x'; BINARY_SNIFF_BYTES + 64];
    after_window[BINARY_SNIFF_BYTES + 32] = 0;
    assert!(
        !looks_binary(&after_window),
        "NUL far beyond the sniff window is ignored"
    );
}

#[test]
fn ignore_sets_parse_comments_and_blanks() {
    let set = IgnoreSet::from_text("# a comment\n\n   \n*.log\n");
    assert_eq!(set.rules_len(), 1);
    assert!(set.matches("debug.log", false));
    assert!(!set.matches("debug.txt", false));
}

#[test]
fn ignore_negation_lets_the_last_rule_win() {
    let set = IgnoreSet::from_text("*.log\n!important.log\n");
    assert!(set.matches("app.log", false));
    assert!(!set.matches("important.log", false), "negation rescues it");
}

#[test]
fn ignore_dir_only_rules_apply_only_to_directories() {
    let set = IgnoreSet::from_text("build/\n");
    assert!(set.matches("build", true));
    assert!(!set.matches("build", false));
    // A file named build.txt is untouched by `build/`.
    assert!(!set.matches("build.txt", false));
}

#[test]
fn ignore_patterns_with_slash_are_path_anchored() {
    let set = IgnoreSet::from_text("docs/*.tmp\n/rooted\n");
    assert!(set.matches("docs/notes.tmp", false));
    assert!(!set.matches("sub/docs/notes.tmp", false));
    assert!(set.matches("rooted", false));
    assert!(!set.matches("deep/rooted", false));
}

#[test]
fn ignore_set_can_be_extended_across_files() {
    let mut set = IgnoreSet::empty();
    assert!(set.is_empty());
    set.extend("*.log\n");
    set.extend("!keep.log\n");
    assert_eq!(set.rules_len(), 2);
    assert!(set.matches("a.log", false));
    assert!(!set.matches("keep.log", false));
}

#[test]
fn base_name_extraction() {
    assert_eq!(base_name("a/b/c.txt"), "c.txt");
    assert_eq!(base_name("solo"), "solo");
    assert_eq!(base_name("a/"), "");
}

#[test]
fn filter_built_from_config_wires_all_layers() {
    let mut config = Config::with_defaults(2);
    config.pattern = "x".into();
    config.include_globs = vec!["*.txt".to_string()];
    config.exclude_globs = vec!["skip*".to_string()];
    config.min_size = Some(2);
    let filter = FileFilter::from_config(&config).expect("valid");
    assert!(filter.accepts("keep.txt", 5));
    assert!(!filter.accepts("skipme.txt", 5));
    assert!(!filter.accepts("keep.txt", 1));
}

#[test]
fn rules_tell_where_they_come_from() {
    let rule = GlobRule::compile("src/*.rs").expect("valid");
    assert_eq!(rule.source(), "src/*.rs");
    assert!(rule.matches("src/main.rs", "main.rs"));
    assert!(!rule.matches("main.rs", "main.rs"));
    let err = GlobRule::compile("").expect_err("empty");
    assert_eq!(err.to_string(), "argument error: glob patterns must not be empty");
}

#[test]
fn last_rule_wins_in_long_lists() {
    let set = IgnoreSet::from_text("*\n!*.txt\nsecret.txt\n!/docs/secret.txt\n");
    assert!(set.matches("a.rs", false));
    assert!(!set.matches("a.txt", false));
    assert!(set.matches("secret.txt", false));
    assert!(!set.matches("docs/secret.txt", false));
    assert!(!IgnoreSet::empty().matches("anything", true));
}

#[test]
fn ignore_files_can_be_joined() {
    let texts = ["*.log", "*.log\n", "build/\r", "# only a comment", "", "\n\n", "!a.log\n[bad\nx"];
    for a in texts {
        for b in texts {
            let mut one = IgnoreSet::from_text("*.tmp");
            one.extend(a);
            one.extend(b);
            let mut other = IgnoreSet::from_text("*.tmp");
            other.extend(&format!("{}\n{}", a, b));
            assert_eq!(one.rules_len(), other.rules_len(), "{:?} {:?}", a, b);
            for path in ["a.log", "b.log", "build", "x", "t.tmp", "[bad"] {
                for is_dir in [false, true] {
                    assert_eq!(one.matches(path, is_dir), other.matches(path, is_dir));
                }
            }
        }
    }
}

#[test]
fn unusable_lines_are_passed_over() {
    for line in ["", "   ", "# note", "  # note", "[open", "!", "/"] {
        let set = IgnoreSet::from_text(&format!("*.log\n{}\n*.tmp", line));
        assert_eq!(set.rules_len(), 2, "{:?}", line);
        assert!(set.matches("a.log", false) && set.matches("a.tmp", false));
    }
}
