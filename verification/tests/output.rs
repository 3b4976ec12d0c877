//! Rendering of results.

use searchlight::args::Config;
use searchlight::highlight::strip_ansi;
use searchlight::output::{RenderOptions, Renderer};
use searchlight::pattern::Pattern;
use searchlight::search::{search_text, ContextLine, FileResult, MatchLine, SearchOptions};

fn opts() -> RenderOptions {
    RenderOptions {
        color: false,
        line_numbers: false,
        byte_offset: false,
        only_matching: false,
        with_filename: false,
        count_only: false,
        files_with_matches: false,
        json: false,
    }
}

fn result_of(matches: Vec<MatchLine>) -> FileResult {
    FileResult {
        path: "sample.txt".to_string(),
        matches,
        lines_scanned: 6,
        bytes_scanned: 64,
    }
}

fn line(number: u64, text: &str) -> MatchLine {
    MatchLine {
        number,
        offset: 0,
        text: text.to_string(),
        spans: Vec::new(),
        before: Vec::new(),
        after: Vec::new(),
    }
}

fn context(number: u64, text: &str) -> ContextLine {
    ContextLine {
        number,
        offset: 0,
        text: text.to_string(),
    }
}

fn render(options: RenderOptions, result: &FileResult) -> String {
    let mut renderer = Renderer::new(options);
    renderer.write_result(result);
    renderer.flush()
}

#[test]
fn matches_render_with_line_numbers_and_separator() {
    let mut options = opts();
    options.line_numbers = true;
    let result = result_of(vec![line(1, "alpha"), line(3, "gamma")]);
    assert_eq!(render(options, &result), "1:alpha\n--\n3:gamma\n");
}

#[test]
fn context_lines_use_a_dash_marker() {
    let mut options = opts();
    options.line_numbers = true;
    let mut entry = line(2, "beta");
    entry.before = vec![context(1, "alpha")];
    let result = result_of(vec![entry]);
    assert_eq!(render(options, &result), "1-alpha\n2:beta\n");
}

#[test]
fn highlighting_applies_only_when_color_is_on() {
    let mut options = opts();
    options.line_numbers = true;
    options.color = true;
    let mut entry = line(1, "hello");
    entry.spans = vec![(0, 2)];
    let result = result_of(vec![entry]);
    let text = render(options, &result);
    assert!(text.contains("\x1b[1;32m1\x1b[0m:"), "colored prefix: {}", text);
    assert!(text.contains("\x1b[1;31mhe\x1b[0mllo"), "colored match: {}", text);
    assert!(strip_ansi(&text).contains("1:hello"));
}

#[test]
fn colorless_output_has_no_escapes() {
    let mut options = opts();
    options.color = false;
    options.line_numbers = true;
    let mut entry = line(1, "hello");
    entry.spans = vec![(0, 2)];
    let text = render(options, &result_of(vec![entry]));
    assert_eq!(text, "1:hello\n");
}

#[test]
fn count_mode_prints_counts_with_optional_filename() {
    let mut options = opts();
    options.count_only = true;
    let result = result_of(vec![line(1, "a"), line(2, "b")]);
    assert_eq!(render(options.clone(), &result), "2\n");

    options.with_filename = true;
    assert_eq!(render(options, &result), "sample.txt:2\n");
}

#[test]
fn files_with_matches_mode_prints_only_hit_paths() {
    let mut options = opts();
    options.files_with_matches = true;
    options.with_filename = true;

    let hit = result_of(vec![line(1, "a")]);
    assert_eq!(render(options.clone(), &hit), "sample.txt\n");

    let miss = result_of(vec![]);
    assert_eq!(render(options, &miss), "");
}

#[test]
fn only_matching_prints_one_row_per_span() {
    let mut options = opts();
    options.only_matching = true;
    options.with_filename = true;
    options.line_numbers = true;
    options.byte_offset = true;

    let mut entry = line(1, "ab");
    entry.spans = vec![(0, 1), (1, 2)];
    let result = result_of(vec![entry]);
    assert_eq!(
        render(options, &result),
        "sample.txt:0:1:a\nsample.txt:1:1:b\n"
    );
}

#[test]
fn json_mode_emits_spans_with_byte_offsets() {
    let mut options = opts();
    options.json = true;
    options.with_filename = true;
    let mut entry = MatchLine {
        number: 2,
        offset: 6,
        text: "beta".to_string(),
        spans: vec![(0, 2)],
        before: Vec::new(),
        after: Vec::new(),
    };
    entry.before = vec![context(1, "alpha")];
    let result = result_of(vec![entry]);
    assert_eq!(
        render(options, &result),
        "{\"path\":\"sample.txt\",\"line\":2,\"offset\":6,\"text\":\"beta\",\
         \"matches\":[{\"start\":0,\"end\":2,\"offset\":6,\"text\":\"be\"}]}\n"
    );
}

#[test]
fn json_count_and_files_modes() {
    let mut options = opts();
    options.json = true;
    options.count_only = true;
    options.with_filename = true;
    let result = result_of(vec![line(1, "a"), line(2, "b")]);
    assert_eq!(render(options.clone(), &result), "{\"path\":\"sample.txt\",\"matches\":2}\n");

    options.count_only = false;
    options.files_with_matches = true;
    assert_eq!(render(options, &result), "{\"path\":\"sample.txt\"}\n");
}

#[test]
fn json_files_mode_silently_skips_empty_files() {
    let mut options = opts();
    options.json = true;
    options.files_with_matches = true;
    let miss = result_of(vec![]);
    assert_eq!(render(options, &miss), "");
}

#[test]
fn json_spans_skip_zero_width_matches() {
    let mut options = opts();
    options.json = true;
    let mut entry = line(1, "ab");
    entry.spans = vec![(0, 0), (1, 2)];
    let text = render(options, &result_of(vec![entry]));
    assert!(text.contains("\"start\":1,\"end\":2"), "got: {}", text);
    assert!(!text.contains("\"start\":0,\"end\":0"));
}

#[test]
fn from_config_applies_grep_mode_precedence() {
    let mut config = Config::with_defaults(2);
    config.pattern = "x".to_string();
    config.count_only = true;
    config.files_with_matches = true;
    config.only_matching = true;
    let options = RenderOptions::from_config(&config, false, true);
    assert!(options.files_with_matches);
    assert!(!options.count_only, "-l wins over -c");
    assert!(!options.only_matching, "-l wins over -o");

    let mut config = Config::with_defaults(2);
    config.pattern = "x".to_string();
    config.count_only = true;
    config.only_matching = true;
    let options = RenderOptions::from_config(&config, false, true);
    assert!(options.count_only);
    assert!(!options.only_matching, "-c wins over -o");
}

#[test]
fn prefix_order_is_path_offset_number() {
    let mut options = opts();
    options.with_filename = true;
    options.byte_offset = true;
    options.line_numbers = true;
    let mut entry = line(7, "text");
    entry.offset = 42;
    let text = render(options, &result_of(vec![entry]));
    assert_eq!(text, "sample.txt:42:7:text\n");
}

#[test]
fn renderer_palette_follows_the_color_flag() {
    let renderer = Renderer::new(opts());
    assert!(!renderer.palette().is_colored());

    let mut color = opts();
    color.color = true;
    let renderer = Renderer::new(color);
    assert!(renderer.palette().is_colored());
}

#[test]
fn touching_windows_merge() {
    let mut options = opts();
    options.line_numbers = true;

    let mut first = line(2, "beta");
    first.before = vec![context(1, "alpha")];
    first.after = vec![context(3, "gamma")];

    let mut second = line(5, "epsilon");
    second.before = vec![context(4, "delta")];
    second.after = vec![context(6, "zeta")];

    let result = result_of(vec![first, second]);
    assert_eq!(
        render(options, &result),
        "1-alpha\n2:beta\n3-gamma\n4-delta\n5:epsilon\n6-zeta\n"
    );
}

#[test]
fn separate_windows_are_divided_once() {
    let mut options = opts();
    options.line_numbers = true;

    let mut first = line(2, "beta");
    first.before = vec![context(1, "alpha")];
    first.after = vec![context(3, "gamma")];

    let mut second = line(6, "zeta");
    second.before = vec![context(5, "epsilon")];
    second.after = vec![context(7, "eta")];

    let result = result_of(vec![first, second]);
    assert_eq!(
        render(options, &result),
        "1-alpha\n2:beta\n3-gamma\n--\n5-epsilon\n6:zeta\n7-eta\n"
    );
}

#[test]
fn matches_inside_a_window_show_as_matches() {
    let mut options = opts();
    options.line_numbers = true;

    let mut first = line(2, "beta");
    first.after = vec![context(3, "gamma"), context(4, "delta")];

    let mut second = line(3, "gamma");
    second.after = vec![context(4, "delta"), context(5, "epsilon")];

    let result = result_of(vec![first, second]);
    assert_eq!(render(options, &result), "2:beta\n3:gamma\n4-delta\n5-epsilon\n");
}

#[test]
fn searched_windows_print_like_grep() {
    let text = "a1\nb\na2\nc\nd\ne\nf\na3\ng\n";
    let pattern = Pattern::new("a", false, false).expect("valid");
    let search = SearchOptions { max_count: None, invert: false, before: 1, after: 2 };
    let result = search_text("sample.txt", text, &pattern, &search);
    let mut options = opts();
    options.line_numbers = true;
    options.with_filename = true;
    assert_eq!(
        render(options, &result),
        "sample.txt:1:a1\nsample.txt:2-b\nsample.txt:3:a2\nsample.txt:4-c\nsample.txt:5-d\n--\n\
         sample.txt:7-f\nsample.txt:8:a3\nsample.txt:9-g\n"
    );
}

#[test]
fn flushing_empties_the_renderer() {
    let mut renderer = Renderer::new(opts());
    renderer.write_result(&result_of(vec![line(1, "a")]));
    renderer.write_result(&result_of(vec![line(2, "b")]));
    assert_eq!(renderer.flush(), "a\nb\n");
    assert_eq!(renderer.flush(), "");
}

#[test]
fn spans_are_spelled_out_in_bytes() {
    let mut options = opts();
    options.only_matching = true;
    options.byte_offset = true;
    let mut entry = line(1, "é✓x");
    entry.offset = 10;
    entry.spans = vec![(1, 2), (2, 99)];
    let result = result_of(vec![entry]);
    assert_eq!(render(options, &result), "12:✓\n15:x\n");
    options.only_matching = false;
    options.json = true;
    let text = render(options, &result);
    assert!(text.contains("{\"start\":2,\"end\":5,\"offset\":12,\"text\":\"✓\"}"), "{}", text);
}

#[test]
fn colors_only_add_escapes() {
    let text = "one\ntwo one\nthree\nfour\none\n";
    let pattern = Pattern::new("one", false, false).expect("valid");
    let search = SearchOptions { max_count: None, invert: false, before: 0, after: 0 };
    let result = search_text("sample.txt", text, &pattern, &search);
    let mut options = opts();
    options.line_numbers = true;
    options.byte_offset = true;
    options.with_filename = true;
    let plain = render(options, &result);
    options.color = true;
    let colored = render(options, &result);
    assert_ne!(plain, colored);
    assert_eq!(strip_ansi(&colored), plain);
}

#[test]
fn only_whole_lines_show_their_context() {
    let mut with = line(2, "beta");
    with.spans = vec![(0, 2)];
    let mut without = line(2, "beta");
    without.spans = vec![(0, 2)];
    with.before = vec![context(1, "alpha")];
    with.after = vec![context(3, "gamma")];
    let (with, without) = (result_of(vec![with]), result_of(vec![without]));
    assert_eq!(render(opts(), &with), "alpha\nbeta\ngamma\n");
    assert_eq!(render(opts(), &without), "beta\n");
    let mut only = opts();
    only.only_matching = true;
    assert_eq!(render(only, &with), "be\n");
    let mut modes = vec![only, opts(), opts(), opts()];
    modes[1].json = true;
    modes[2].count_only = true;
    modes[3].files_with_matches = true;
    for options in modes {
        assert_eq!(render(options, &with), render(options, &without));
    }
}

#[test]
fn json_lines_are_one_object_each() {
    let mut options = opts();
    options.json = true;
    let result = result_of(vec![line(1, "a\"b"), line(2, "c\td"), line(9, "{")]);
    let text = render(options, &result);
    assert!(text.ends_with('\n'));
    let rows: Vec<&str> = text.lines().collect();
    assert_eq!(rows.len(), 3);
    for row in rows {
        assert!(row.starts_with("{\"path\":\"sample.txt\",\"line\":"), "{}", row);
        assert!(row.ends_with('}'), "{}", row);
    }
}
