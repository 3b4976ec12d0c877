//! Painting and stripping.

use searchlight::highlight::{highlight_line, merge_spans, strip_ansi, Palette};

#[test]
fn colorless_palette_paints_nothing() {
    let palette = Palette::colorless();
    assert!(!palette.is_colored());
    assert_eq!(palette.paint(palette.matched, "hello"), "hello");
    assert_eq!(palette.paint(palette.path, "x.txt"), "x.txt");
}

#[test]
fn classic_palette_wraps_with_reset() {
    let palette = Palette::classic();
    assert!(palette.is_colored());
    assert_eq!(
        palette.paint(palette.matched, "he"),
        "\x1b[1;31mhe\x1b[0m"
    );
    // An empty code paints nothing even when coloring is enabled.
    assert_eq!(palette.paint("", "plain"), "plain");
}

#[test]
fn merge_spans_unions_touching_ranges() {
    assert_eq!(merge_spans(&[]), Vec::new());
    assert_eq!(merge_spans(&[(0, 1)]), vec![(0, 1)]);
    assert_eq!(merge_spans(&[(0, 1), (1, 3)]), vec![(0, 3)]);
    assert_eq!(merge_spans(&[(0, 5), (2, 3)]), vec![(0, 5)]);
    assert_eq!(merge_spans(&[(5, 6), (0, 1)]), vec![(0, 1), (5, 6)]);
    // Zero-width spans disappear.
    assert_eq!(merge_spans(&[(2, 2), (3, 5)]), vec![(3, 5)]);
    assert_eq!(merge_spans(&[(4, 4)]), Vec::new());
}

#[test]
fn highlight_paints_exactly_the_match() {
    let palette = Palette::classic();
    assert_eq!(
        highlight_line("hello world", &[(6, 11)], &palette),
        "hello \x1b[1;31mworld\x1b[0m"
    );
    // A match running to the end of the line still gets its reset.
    assert_eq!(
        highlight_line("abc", &[(1, 3)], &palette),
        "a\x1b[1;31mbc\x1b[0m"
    );
}

#[test]
fn highlight_is_unicode_safe() {
    let palette = Palette::classic();
    // 'é' is one char (two bytes); the span must color only that char.
    assert_eq!(
        highlight_line("héllo", &[(1, 2)], &palette),
        "h\x1b[1;31mé\x1b[0mllo"
    );
    let wide = "a✓b✓c";
    assert_eq!(
        highlight_line(wide, &[(1, 2), (3, 4)], &palette),
        "a\x1b[1;31m✓\x1b[0mb\x1b[1;31m✓\x1b[0mc"
    );
}

#[test]
fn adjacent_spans_render_as_one_block() {
    let palette = Palette::classic();
    assert_eq!(
        highlight_line("abcd", &[(0, 1), (1, 3)], &palette),
        "\x1b[1;31mabc\x1b[0md"
    );
}

#[test]
fn empty_and_zero_width_spans_change_nothing() {
    let palette = Palette::classic();
    assert_eq!(highlight_line("abc", &[], &palette), "abc");
    assert_eq!(highlight_line("abc", &[(1, 1)], &palette), "abc");
    // A colorless palette short-circuits even with real spans.
    assert_eq!(
        highlight_line("abc", &[(0, 3)], &Palette::colorless()),
        "abc"
    );
}

#[test]
fn strip_removes_all_escape_forms() {
    assert_eq!(strip_ansi("\x1b[1;31mred\x1b[0m"), "red");
    assert_eq!(strip_ansi("a\x1b[36m--\x1b[0mb"), "a--b");
    assert_eq!(strip_ansi("\x1b[1m\x1b[32mx\x1b[0m"), "x");
    assert_eq!(strip_ansi("\x1bM"), "", "two-char escape swallowed");
    assert_eq!(strip_ansi("plain text ✓"), "plain text ✓");
}

#[test]
fn highlight_then_strip_round_trips() {
    let palette = Palette::classic();
    let line = "gr(e|a)y héllo";
    let highlighted = highlight_line(line, &[(0, 4), (5, 10)], &palette);
    assert_eq!(strip_ansi(&highlighted), line);
}

#[test]
fn merging_is_settled_after_one_round() {
    let spans = [(7, 9), (1, 4), (3, 5), (9, 9), (5, 6), (12, 11)];
    let merged = merge_spans(&spans);
    assert_eq!(merged, vec![(1, 6), (7, 9)]);
    assert_eq!(merge_spans(&merged), merged);
    assert_eq!(merge_spans(&[(0, 1), (1, 3), (5, 5)]), vec![(0, 3)]);
}

#[test]
fn spans_beyond_the_line_paint_what_is_there() {
    let palette = Palette::classic();
    assert_eq!(highlight_line("ab", &[(1, 9)], &palette), "a\x1b[1;31mb\x1b[0m");
    assert_eq!(highlight_line("ab", &[(5, 9)], &palette), "ab");
    assert_eq!(highlight_line("", &[(0, 1)], &palette), "");
}

#[test]
fn unfinished_escapes_are_swallowed() {
    assert_eq!(strip_ansi("a\x1b"), "a");
    assert_eq!(strip_ansi("a\x1b["), "a");
    assert_eq!(strip_ansi("a\x1b[1;3"), "a");
}
