//! Searching texts and files.

use searchlight::error::{IoError, IoErrorKind};
use searchlight::pattern::Pattern;
use searchlight::search::{
    outcome_path, search_file, search_files, search_text, worker_count, FileOutcome, SearchOptions,
};
use searchlight::stats::Stats;

fn options() -> SearchOptions {
    SearchOptions {
        max_count: None,
        invert: false,
        before: 0,
        after: 0,
    }
}

fn pattern_of(source: &str) -> Pattern {
    Pattern::new(source, false, false).expect("test pattern compiles")
}

#[test]
fn literal_search_finds_lines_and_spans() {
    let pattern = pattern_of("alpha");
    let result = search_text(
        "sample.txt",
        "alpha\nbeta gamma\nalphabet\n",
        &pattern,
        &options(),
    );
    assert_eq!(result.matches.len(), 2);
    assert_eq!(result.matches[0].number, 1);
    assert_eq!(result.matches[0].offset, 0);
    assert_eq!(result.matches[0].spans, vec![(0, 5)]);
    assert_eq!(result.matches[1].number, 3);
    assert_eq!(result.matches[1].offset, 17, "byte offset of line 3");
    assert_eq!(result.matches[1].spans, vec![(0, 5)]);
    assert_eq!(result.lines_scanned, 3);
    assert_eq!(result.bytes_scanned, 26);
}

#[test]
fn one_line_can_hold_several_spans() {
    let pattern = pattern_of("a");
    let result = search_text("x", "axaya", &pattern, &options());
    assert_eq!(result.matches[0].spans, vec![(0, 1), (2, 3), (4, 5)]);
}

#[test]
fn context_windows_clip_at_file_edges() {
    let pattern = pattern_of("3");
    let mut opts = options();
    opts.before = 2;
    opts.after = 2;
    let result = search_text("x", "1\n2\n3\n4\n5\n", &pattern, &opts);
    let entry = &result.matches[0];
    assert_eq!(entry.before.iter().map(|l| l.number).collect::<Vec<_>>(), vec![1, 2]);
    assert_eq!(entry.after.iter().map(|l| l.number).collect::<Vec<_>>(), vec![4, 5]);
    assert_eq!(entry.before[0].text, "1");
    assert_eq!(entry.after[1].text, "5");
}

#[test]
fn max_count_stops_the_scan_early() {
    let pattern = pattern_of("a");
    let mut opts = options();
    opts.max_count = Some(2);
    let result = search_text("x", "a\na\na\n", &pattern, &opts);
    assert_eq!(result.matches.len(), 2);
    assert_eq!(result.lines_scanned, 2, "line 3 was never examined");
}

#[test]
fn invert_selects_non_matching_lines() {
    let pattern = pattern_of("a");
    let mut opts = options();
    opts.invert = true;
    let result = search_text("x", "a\nb\nc\n", &pattern, &opts);
    assert_eq!(result.matches.len(), 2);
    assert_eq!(result.matches[0].number, 2);
    assert_eq!(result.matches[1].number, 3);
    assert!(result.matches.iter().all(|entry| entry.spans.is_empty()));
}

#[test]
fn empty_files_yield_no_matches() {
    let pattern = pattern_of("anything");
    let result = search_text("empty.txt", "", &pattern, &options());
    assert!(result.matches.is_empty());
    assert_eq!(result.lines_scanned, 0);
    assert_eq!(result.bytes_scanned, 0);
}

#[test]
fn binary_files_are_skipped() {
    let contents = Ok(b"ok\x00binary".to_vec());
    let outcome = search_file("blob.bin", contents, &pattern_of("ok"), &options());
    assert!(matches!(outcome, FileOutcome::Binary(_)));
}

#[test]
fn non_utf8_files_are_skipped() {
    // No NUL bytes, but not valid UTF-8 either.
    let contents = Ok(vec![0xff_u8, 0xfe, 0xfd]);
    let outcome = search_file("latin.txt", contents, &pattern_of("x"), &options());
    assert!(matches!(outcome, FileOutcome::Binary(_)));
}

#[test]
fn unreadable_files_report_errors() {
    let missing = "searchlight-missing-file-xyz";
    let contents = Err(IoError::of_kind(IoErrorKind::NotFound));
    let outcome = search_file(missing, contents, &pattern_of("x"), &options());
    match outcome {
        FileOutcome::Failed(error) => {
            assert_eq!(error.path, missing);
            assert_eq!(error.message, "no such file or directory");
        }
        other => panic!("expected Failed, got {:?}", other),
    }
}

#[test]
fn parallel_search_is_deterministic_and_counted() {
    let pattern = pattern_of("needle");
    let mut finished: Vec<FileOutcome> = Vec::new();
    // The files finish in an order of their own: 0, 5, 10, 3, 8, ...
    for step in 0..12 {
        let index = (step * 5) % 12;
        let text = if index % 2 == 0 {
            "needle here\nother line\n"
        } else {
            "nothing to see\n"
        };
        let path = format!("root/file{:02}.txt", index);
        let contents = Ok(text.as_bytes().to_vec());
        finished.push(search_file(&path, contents, &pattern, &options()));
    }

    let mut stats = Stats::new();
    let outcomes = search_files(finished, &mut stats);

    assert_eq!(outcomes.len(), 12);
    let mut scanned = 0usize;
    let mut total_matches = 0usize;
    for outcome in &outcomes {
        if let FileOutcome::Scanned(result) = outcome {
            scanned += 1;
            total_matches += result.matches.len();
        }
    }
    assert_eq!(scanned, 12);
    assert_eq!(total_matches, 6, "one match per even-numbered file");
    assert_eq!(stats.snapshot().files_matched, 6);
    assert_eq!(stats.snapshot().match_lines, 6);
    assert_eq!(stats.snapshot().files_binary, 0);
    assert_eq!(stats.snapshot().errors, 0);

    let paths: Vec<&str> = outcomes.iter().map(outcome_path).collect();
    assert!(paths.as_slice().is_sorted(), "outcomes sorted by path");
}

#[test]
fn search_files_on_an_empty_list_is_empty() {
    let mut stats = Stats::new();
    let outcomes = search_files(Vec::new(), &mut stats);
    assert!(outcomes.is_empty());
    assert_eq!(stats.snapshot().files_searched, 0);
}

#[test]
fn search_text_agrees_with_search_file_for_utf8() {
    let path = "same.txt";
    let text = "needle\nplain\n";
    let pattern = pattern_of("needle");
    let contents = Ok(text.as_bytes().to_vec());
    let via_file = match search_file(path, contents, &pattern, &options()) {
        FileOutcome::Scanned(result) => result,
        other => panic!("expected Scanned, got {:?}", other),
    };
    let via_text = search_text(path, text, &pattern, &options());
    assert_eq!(via_file.matches.len(), via_text.matches.len());
    assert_eq!(via_file.matches[0].spans, via_text.matches[0].spans);
    assert_eq!(via_file.matches[0].number, via_text.matches[0].number);
}

#[test]
fn inverted_searches_share_the_lines() {
    let text = "a\nb\nab\n\nc";
    let mut inverted = options();
    inverted.invert = true;
    let pattern = pattern_of("a");
    let some = search_text("x", text, &pattern, &options());
    let rest = search_text("x", text, &pattern, &inverted);
    assert_eq!(some.matches.len() + rest.matches.len(), 5);
    assert_eq!(some.bytes_scanned, text.len() as u64);
}

#[test]
fn nothing_is_read_with_a_limit_of_zero() {
    let mut none = options();
    none.max_count = Some(0);
    let result = search_text("x", "a\na\n", &pattern_of("a"), &none);
    assert!(result.matches.is_empty());
    assert_eq!(result.lines_scanned, 0);
}

#[test]
fn every_outcome_counts_once() {
    let pattern = pattern_of("a");
    let outcomes = vec![
        search_file("c", Ok(b"a\nb".to_vec()), &pattern, &options()),
        search_file("b", Ok(vec![0]), &pattern, &options()),
        search_file("a", Err(IoError::new(IoErrorKind::Other, "odd")), &pattern, &options()),
    ];
    let mut stats = Stats::new();
    let sorted = search_files(outcomes, &mut stats);
    let paths: Vec<&str> = sorted.iter().map(outcome_path).collect();
    assert_eq!(paths, vec!["a", "b", "c"]);
    assert_eq!(stats.files_searched, 1);
    assert_eq!(stats.files_binary, 1);
    assert_eq!(stats.errors, 1);
    assert_eq!(stats.files_matched, 1);
    assert_eq!(stats.match_lines, 1);
    assert_eq!(stats.lines_scanned, 2);
    assert_eq!(stats.bytes_scanned, 3);
}

#[test]
fn workers_share_the_files() {
    assert_eq!(worker_count(0, 5), 1);
    assert_eq!(worker_count(3, 5), 3);
    assert_eq!(worker_count(9, 5), 5);
}

#[test]
fn the_order_of_delivery_does_not_show() {
    let pattern = pattern_of("needle");
    let files: [(&str, Result<&[u8], IoErrorKind>); 5] = [
        ("b/x.txt", Ok(b"needle\nneedle\nplain\n")),
        ("a.txt", Ok(b"plain\n")),
        ("a.txt", Ok(b"plain\n")),
        ("c.bin", Ok(b"needle\0")),
        ("b/y.txt", Err(IoErrorKind::PermissionDenied)),
    ];
    let mut seen: Vec<(String, Stats)> = Vec::new();
    for shift in 0..5 {
        for backwards in [false, true] {
            let mut delivered = Vec::new();
            for step in 0..5 {
                let index = if backwards { 4 - step } else { step };
                let (path, contents) = &files[(index + shift) % 5];
                let contents = match contents {
                    Ok(bytes) => Ok(bytes.to_vec()),
                    Err(kind) => Err(IoError::of_kind(*kind)),
                };
                delivered.push(search_file(path, contents, &pattern, &options()));
            }
            let mut stats = Stats::new();
            let outcomes = search_files(delivered, &mut stats);
            seen.push((format!("{:?}", outcomes), stats));
        }
    }
    assert!(seen.iter().all(|one| *one == seen[0]));
    let stats = seen[0].1;
    assert_eq!((stats.files_searched, stats.files_matched, stats.match_lines), (3, 1, 2));
    assert_eq!((stats.files_binary, stats.errors), (1, 1));
    assert_eq!((stats.lines_scanned, stats.bytes_scanned), (5, 32));
}
