//! Line splitting.

use searchlight::lines::{byte_index_of_char, count_lines, iter_line_slices, iter_lines};

#[test]
fn splits_unix_lines() {
    let lines = iter_lines("alpha\nbeta\ngamma\n");
    assert_eq!(lines.len(), 3);
    assert_eq!(lines[0].number, 1);
    assert_eq!(lines[0].text, "alpha");
    assert_eq!(lines[2].number, 3);
    assert_eq!(lines[2].text, "gamma");
}

#[test]
fn trailing_newline_does_not_create_empty_line() {
    let lines = iter_lines("one\n");
    assert_eq!(lines.len(), 1);
    assert_eq!(lines[0].text, "one");
}

#[test]
fn missing_trailing_newline_is_preserved() {
    let lines = iter_lines("one\ntwo");
    assert_eq!(lines.len(), 2);
    assert_eq!(lines[1].text, "two");
    assert_eq!(lines[1].number, 2);
}

#[test]
fn windows_line_endings_are_trimmed() {
    let lines = iter_lines("one\r\ntwo\r\n");
    assert_eq!(lines.len(), 2);
    assert_eq!(lines[0].text, "one");
    assert_eq!(lines[1].text, "two");
}

#[test]
fn empty_input_has_no_lines() {
    assert!(iter_lines("").is_empty());
}

#[test]
fn blank_lines_are_kept() {
    let lines = iter_lines("\n\nx\n");
    assert_eq!(lines.len(), 3);
    assert_eq!(lines[0].text, "");
    assert_eq!(lines[1].text, "");
    assert_eq!(lines[2].text, "x");
}

#[test]
fn multibyte_characters_survive_splitting() {
    let lines = iter_lines("héllo\nwörld✓\n");
    assert_eq!(lines.len(), 2);
    assert_eq!(lines[1].text, "wörld✓");
    assert_eq!(lines[1].number, 2);
}

#[test]
fn count_lines_matches_iter_lines() {
    let samples = ["", "\n", "a", "a\n", "a\nb\n\n", "\r\nx\r\n"];
    for sample in samples {
        assert_eq!(count_lines(sample), iter_lines(sample).len() as u64);
    }
}

#[test]
fn slices_carry_correct_byte_offsets() {
    //            0123456 7        89012345678
    let text = "alpha\nbeta\ngamma";
    let slices = iter_line_slices(text);
    assert_eq!(slices.len(), 3);

    assert_eq!(slices[0].number, 1);
    assert_eq!(slices[0].start, 0);
    assert_eq!(slices[0].end, 5);
    assert_eq!(slices[0].text, "alpha");

    assert_eq!(slices[1].number, 2);
    assert_eq!(slices[1].start, 6);
    assert_eq!(slices[1].end, 10);
    assert_eq!(slices[1].text, "beta");

    assert_eq!(slices[2].number, 3);
    assert_eq!(slices[2].start, 11);
    assert_eq!(slices[2].end, 16);
    assert_eq!(slices[2].text, "gamma");

    // Slices always describe the original text exactly.
    for slice in &slices {
        assert_eq!(&text[slice.start..slice.end], slice.text);
    }
}

#[test]
fn slices_exclude_crlf_terminators() {
    let text = "one\r\ntwo\r\n";
    let slices = iter_line_slices(text);
    assert_eq!(slices.len(), 2);
    assert_eq!(slices[0].start, 0);
    assert_eq!(slices[0].end, 3, "the \\r must not be part of the line");
    assert_eq!(slices[1].start, 5);
    assert_eq!(slices[1].end, 8);
}

#[test]
fn slices_agree_with_iter_lines() {
    let text = "x\n\nmulti byte ✓ line\nlast";
    let plain = iter_lines(text);
    let slices = iter_line_slices(text);
    assert_eq!(plain.len(), slices.len());
    for (line, slice) in plain.iter().zip(slices.iter()) {
        assert_eq!(line.number, slice.number);
        assert_eq!(line.text, slice.text);
    }
}

#[test]
fn slices_of_empty_input_are_empty() {
    assert!(iter_line_slices("").is_empty());
}


#[test]
fn byte_indices_count_the_bytes_in_front() {
    let line = "héllo wörld";
    assert_eq!(byte_index_of_char(line, 0), 0);
    // 'é' is two bytes wide, so char index 1 starts at byte 1 and
    // char index 2 starts at byte 3.
    assert_eq!(byte_index_of_char(line, 1), 1);
    assert_eq!(byte_index_of_char(line, 2), 3);
    assert_eq!(byte_index_of_char(line, line.chars().count()), line.len());
    assert_eq!(byte_index_of_char(line, 99), line.len());
}

#[test]
fn multibyte_slices_hold_their_line() {
    let text = "héllo ✓\nnext\n";
    let slices = iter_line_slices(text);
    assert_eq!(slices[0].start, 0);
    assert_eq!(&text[slices[0].start..slices[0].end], "héllo ✓");
    assert_eq!(&text[slices[1].start..slices[1].end], "next");
}

#[test]
fn lone_carriage_returns_stay() {
    let lines = iter_lines("a\rb\r\r\n\r");
    assert_eq!(lines.len(), 2);
    assert_eq!(lines[0].text, "a\rb\r");
    assert_eq!(lines[1].text, "\r");
}

#[test]
fn lines_are_numbered_from_one() {
    let lines = iter_lines("a\nbb\n");
    assert_eq!(lines.len(), 2);
    assert_eq!(lines[1].number, 2);
    assert_eq!(lines[1].text, "bb");
    assert_eq!(lines[1].clone(), lines[1]);
}
