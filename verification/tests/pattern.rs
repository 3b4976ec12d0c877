//! The pattern engine and its globs.

use searchlight::pattern::Pattern;

fn find(pattern: &str, line: &str) -> Option<(usize, usize)> {
    Pattern::new(pattern, false, false)
        .expect("test pattern should compile")
        .find(line)
}

#[test]
fn plain_literal_matches() {
    assert_eq!(find("abc", "xxabcyy"), Some((2, 5)));
    assert_eq!(find("abc", "abcdef"), Some((0, 3)));
    assert_eq!(find("abc", "abx"), None);
}

#[test]
fn leftmost_longest_match_is_returned() {
    // The star prefers the longest run at the leftmost start.
    assert_eq!(find("a*", "aaa"), Some((0, 3)));
    // Alternation prefers the longest overall match (documented POSIX
    // style, unlike leftmost-first engines).
    assert_eq!(find("a|ab", "ab"), Some((0, 2)));
}

#[test]
fn case_insensitive_folding() {
    let ci = Pattern::new("hello", true, false).unwrap();
    assert!(ci.is_match("say HeLLo!"));
    let cs = Pattern::new("hello", false, false).unwrap();
    assert!(!cs.is_match("say HeLLo!"));
    // Classes also fold.
    let class = Pattern::new("[a-z]+", true, false).unwrap();
    assert_eq!(class.find("ABC"), Some((0, 3)));
}

#[test]
fn dot_matches_anything_but_newline() {
    assert_eq!(find("a.c", "abc"), Some((0, 3)));
    assert_eq!(find("a.c", "a\nc"), None);
}

#[test]
fn star_plus_optional_quantifiers() {
    assert_eq!(find("a*b", "aaab"), Some((0, 4)));
    assert_eq!(find("a*b", "b"), Some((0, 1)));
    assert_eq!(find("a+b", "b"), None);
    assert_eq!(find("a+b", "aab"), Some((0, 3)));
    assert_eq!(find("colou?r", "color"), Some((0, 5)));
    assert_eq!(find("colou?r", "colour"), Some((0, 6)));
}

#[test]
fn character_classes() {
    assert_eq!(find("[a-c]x", "bx"), Some((0, 2)));
    assert_eq!(find("[a-c]x", "dx"), None);
    assert_eq!(find("[^a-c]x", "ax"), None);
    assert_eq!(find("[a-]b", "a-b"), Some((1, 3)));
    assert_eq!(find("[]]x", "]x"), Some((0, 2)));
}

#[test]
fn anchors_pin_the_match() {
    assert_eq!(find("^ab$", "ab"), Some((0, 2)));
    assert_eq!(find("^ab$", "abc"), None);
    assert_eq!(find("^b", "ab"), None);
    assert_eq!(find("c$", "abc"), Some((2, 3)));
    assert_eq!(find("^$", ""), Some((0, 0)));
    assert_eq!(find("^$", "a"), None);
}

#[test]
fn alternation_and_groups() {
    assert_eq!(find("cat|dog", "hotdog"), Some((3, 6)));
    assert_eq!(find("(ab)+", "ababab"), Some((0, 6)));
    assert_eq!(find("(a|b)*c", "abbac"), Some((0, 5)));
    assert_eq!(find("gr(e|a)y", "grey"), Some((0, 4)));
}

#[test]
fn bounded_repetition_expands_correctly() {
    assert_eq!(find("a{2}", "a"), None);
    assert_eq!(find("a{2}", "aa"), Some((0, 2)));
    assert_eq!(find("a{2,3}", "aaaa"), Some((0, 3)));
    assert_eq!(find("a{2,}", "a"), None);
    assert_eq!(find("a{2,}", "aaaaa"), Some((0, 5)));
    // A malformed brace group is a literal, matching grep leniency.
    assert_eq!(find("a{,2}", "a{,2}"), Some((0, 5)));
}

#[test]
fn escape_sequences() {
    assert_eq!(find(r"\d+", "abc123"), Some((3, 6)));
    assert_eq!(find(r"\w+", "  hello_world!"), Some((2, 13)));
    assert_eq!(find(r"\s", "a b"), Some((1, 2)));
    assert_eq!(find(r"\D+", "123abc456"), Some((3, 6)));
    assert_eq!(find(r"a\.b", "a.b"), Some((0, 3)));
    assert_eq!(find(r"a\.b", "axb"), None);
    assert_eq!(find(r"a\\b", "a\\b"), Some((0, 3)));
}

#[test]
fn word_boundaries_via_flag() {
    let word = Pattern::new("cat", false, true).unwrap();
    assert!(word.is_match("a cat naps"));
    assert!(!word.is_match("category"));
    assert!(!word.is_match("tomcat"));
    assert!(word.is_match("cat"));
    // Explicit \b inside the pattern works too.
    let explicit = Pattern::new(r"\bcat\b", false, false).unwrap();
    assert!(explicit.is_match("a cat naps"));
    assert!(!explicit.is_match("concatenate"));
}

#[test]
fn globs_are_fully_anchored() {
    let rs = Pattern::from_glob("*.rs", false).unwrap();
    assert!(rs.is_match("main.rs"));
    assert!(rs.is_match(".rs"));
    assert!(!rs.is_match("main.rs.txt"));
    assert!(!rs.is_match("src/main.rs"), "unanchored '*' must not match basename-only globs against full paths");

    let nested = Pattern::from_glob("src/*.rs", false).unwrap();
    assert!(nested.is_match("src/main.rs"));
    assert!(!nested.is_match("src/sub/main.rs"), "'*' must not cross '/'");
    assert!(!nested.is_match("other/main.rs"));

    let q = Pattern::from_glob("fo?", false).unwrap();
    assert!(q.is_match("foo"));
    assert!(!q.is_match("fo"));
    assert!(!q.is_match("fooo"));
}

#[test]
fn find_all_is_non_overlapping() {
    let pat = Pattern::new("aa", false, false).unwrap();
    assert_eq!(pat.find_all("aaaa"), vec![(0, 2), (2, 4)]);
    assert_eq!(pat.find_all("aaa"), vec![(0, 2)]);
    let single = Pattern::new("a", false, false).unwrap();
    assert_eq!(single.find_all("aba"), vec![(0, 1), (2, 3)]);
    // Zero-width matches advance by one to guarantee termination.
    let empty = Pattern::new("", false, false).unwrap();
    assert_eq!(empty.find_all("ab").len(), 3);
}

#[test]
fn multibyte_lines_use_char_indices() {
    let pat = Pattern::new("é", false, false).unwrap();
    // "héllo" — char indices, not byte offsets.
    assert_eq!(pat.find("héllo"), Some((1, 2)));
}

#[test]
fn invalid_patterns_are_rejected() {
    assert!(Pattern::new("[abc", false, false).is_err());
    assert!(Pattern::new("(ab", false, false).is_err());
    assert!(Pattern::new("ab)", false, false).is_err());
    assert!(Pattern::new("[z-a]", false, false).is_err());
    assert!(Pattern::new(r"\", false, false).is_err());
    assert!(Pattern::new("a{4,2}", false, false).is_err());
    assert!(Pattern::new("((((((((((((((((((((((((((((((((((((((((((((((((a))))))))))))))))))))))))))))))))))))))))))))))))", false, false).is_err());
}

#[test]
fn empty_pattern_matches_every_line() {
    let pat = Pattern::new("", false, false).unwrap();
    assert!(pat.is_match("anything"));
    assert!(pat.is_match(""));
}


fn fails(pattern: &str) -> String {
    Pattern::new(pattern, false, false).expect_err("must fail").to_string()
}

#[test]
fn patterns_report_what_is_wrong() {
    assert!(fails("[abc").starts_with("pattern error: "));
    assert!(fails("(ab").starts_with("pattern error: "));
    assert!(fails("a{4,2}").starts_with("pattern error: "));
    assert!(fails("a{5000}").starts_with("pattern error: "));
    assert_ne!(fails("[abc"), fails("(ab"));
}

#[test]
fn nesting_is_bounded() {
    let nested = |depth: usize| {
        let text = format!("{}a{}", "(".repeat(depth), ")".repeat(depth));
        Pattern::new(&text, false, false).is_ok()
    };
    assert!(nested(47));
    assert!(!nested(48));
}

#[test]
fn quantified_empty_matches_terminate() {
    assert_eq!(find("(a?)*", "aab"), Some((0, 2)));
    assert_eq!(find("(a*)*b", "aaab"), Some((0, 4)));
    assert_eq!(find("()+x", "x"), Some((0, 1)));
}

#[test]
fn folding_takes_the_first_lowercase_char() {
    let pattern = Pattern::new("straße", true, false).unwrap();
    assert!(pattern.is_match("STRAßE"));
    let greek = Pattern::new("ΣΑΣ", true, false).unwrap();
    assert!(greek.is_match("σασ"));
    let upper = Pattern::new("É", true, false).unwrap();
    assert!(upper.is_match("é"));
    assert!(!upper.is_match("E"));
}

#[test]
fn word_boundaries_know_unicode() {
    assert_eq!(find(r"\w+", "-hllo9_-"), Some((1, 7)));
    let word = Pattern::new("llo", false, true).unwrap();
    assert!(!word.is_match("héllo"));
    assert!(word.is_match("é llo"));
}

#[test]
fn matches_are_found_from_left_to_right() {
    let pattern = Pattern::new("a|aa|b", false, false).unwrap();
    assert_eq!(pattern.find_all("aaab"), vec![(0, 2), (2, 3), (3, 4)]);
    assert_eq!(pattern.source(), "a|aa|b");
    assert!(!pattern.is_case_insensitive());
    let folded = Pattern::new("x", true, false).unwrap();
    assert!(folded.is_case_insensitive());
}

#[test]
fn glob_classes_and_separators() {
    let class = Pattern::from_glob("[^a-c]?.txt", false).unwrap();
    assert!(class.is_match("dx.txt"));
    assert!(!class.is_match("ax.txt"));
    assert!(!class.is_match("d/.txt"));
    let folded = Pattern::from_glob("*.RS", true).unwrap();
    assert!(folded.is_match("main.rs"));
    assert!(Pattern::from_glob("[x", false).is_err());
}

#[test]
fn counts_beyond_the_limit_are_refused() {
    let refused = |pattern: &str| {
        Pattern::new(pattern, false, false).expect_err("too large").to_string()
    };
    assert_eq!(
        refused("a{4097}"),
        "pattern error: repetition count 4097 too large (max 4096)"
    );
    // However many digits there are, and whichever bound they spell.
    assert_eq!(
        refused("a{2,123456789012345678901234567890}"),
        "pattern error: repetition count 123456789012345678901234567890 too large (max 4096)"
    );
    assert_eq!(
        refused("a{000123456789012345678901234567890,}"),
        "pattern error: repetition count 123456789012345678901234567890 too large (max 4096)"
    );
    assert_eq!(find("a{0002}", "aaa"), Some((0, 2)));
}

#[test]
fn globs_cut_the_text_into_pieces() {
    let matches = |glob: &str, text: &str| {
        Pattern::from_glob(glob, false).expect("valid glob").is_match(text)
    };
    assert!(matches("a*.r?", "a.main.rs"));
    assert!(!matches("a*.r?", "a/main.rs"));
    assert!(matches("+^\\.$", "+^\\.$"), "no other character is special");
    for text in ["ab", "axb", "axxb", "a/b", "b", "axbx"] {
        assert_eq!(matches("a**b", text), matches("a*b", text), "{}", text);
    }
    assert!(!matches("a**b", "a/b") && matches("a**b", "ab"));
    assert!(Pattern::from_glob("SRC/*.R?", true).expect("valid glob").is_match("src/lib.rs"));
}
