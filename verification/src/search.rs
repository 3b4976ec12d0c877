//! Content search over the files discovered by the walker.
//!
//! The module has three layers:
//!
//! 1. [`search_text`] takes an in-memory string, splits it into numbered
//!    lines (see [`crate::lines`]) and runs the pattern engine over every
//!    line, collecting [`MatchLine`] records that carry the match spans (char
//!    ranges) plus any requested context window.
//! 2. [`search_file`] takes what reading one file gave. It applies the
//!    NUL-byte binary sniff (binary files are always skipped, there is no
//!    `-a` flag) and treats invalid UTF-8 the same way.
//! 3. [`search_files`] takes the outcomes of all files, in whatever order the
//!    workers finished, sorts them by path so rendering is deterministic, and
//!    counts them.

use vstd::prelude::*;
use vstd::utf8::*;

use crate::args::Config;
use crate::error;
use crate::error::IoError;
use crate::filters;
use crate::lines;
use crate::lines::{LineSlice, SliceView};
use crate::paths;
use crate::pattern::semantics;
use crate::pattern::{Compiled, Pattern};
use crate::sorting;
use crate::sorting::Placed;
use crate::stats;
use crate::stats::{Counter, Stats};
use crate::text;

pub mod laws;

verus! {

/// Per-file search settings derived from the CLI configuration.
#[derive(Debug, Clone, Copy)]
pub struct SearchOptions {
    /// Stop after this many matching lines per file (`-m/--max-count`).
    pub max_count: Option<usize>,
    /// Select lines that do **not** match (`-v/--invert-match`). Match
    /// spans are left empty because there is nothing to highlight.
    pub invert: bool,
    /// Lines of context before each match (`-B`, `-C`).
    pub before: usize,
    /// Lines of context after each match (`-A`, `-C`).
    pub after: usize,
}

impl SearchOptions {
    /// Derive the search options from a parsed [`Config`].
    pub fn from_config(config: &Config) -> (out: SearchOptions)
        ensures
            out == (SearchOptions {
                max_count: config.max_count,
                invert: config.invert_match,
                before: config.before_context,
                after: config.after_context,
            }),
    {
        SearchOptions {
            max_count: config.max_count,
            invert: config.invert_match,
            before: config.before_context,
            after: config.after_context,
        }
    }
}

/// A non-matching line kept as context around a [`MatchLine`].
#[derive(Debug, PartialEq, Eq)]
pub struct ContextLine {
    /// 1-based line number.
    pub number: u64,
    /// Byte offset of the line start inside the file.
    pub offset: usize,
    /// Line contents with the terminator removed.
    pub text: String,
}

/// One matching line (or, with `-v`, one selected non-matching line).
#[derive(Debug, PartialEq, Eq)]
pub struct MatchLine {
    /// 1-based line number.
    pub number: u64,
    /// Byte offset of the line start inside the file.
    pub offset: usize,
    /// Line contents with the terminator removed.
    pub text: String,
    /// Char ranges of each match within `text` (start inclusive, end
    /// exclusive); empty for `-v` selections.
    pub spans: Vec<(usize, usize)>,
    /// Context lines immediately before the match, in ascending order.
    pub before: Vec<ContextLine>,
    /// Context lines immediately after the match, in ascending order.
    pub after: Vec<ContextLine>,
}

/// The full result of scanning one text file.
#[derive(Debug)]
pub struct FileResult {
    /// Path the result belongs to.
    pub path: String,
    /// Selected lines, in file order.
    pub matches: Vec<MatchLine>,
    /// Logical lines actually examined (fewer than the file's total when
    /// `-m` stopped the scan early).
    pub lines_scanned: u64,
    /// UTF-8 bytes examined.
    pub bytes_scanned: u64,
}

/// A per-file failure (unreadable path, I/O error, ...).
#[derive(Debug)]
pub struct FileError {
    /// The path that failed.
    pub path: String,
    /// Short human-readable message (no trailing newline).
    pub message: String,
}

/// What a worker produced for one candidate file.
#[derive(Debug)]
pub enum FileOutcome {
    /// The file was read and scanned; matches may be empty.
    Scanned(FileResult),
    /// The file looked binary or was not valid UTF-8 and was skipped.
    Binary(String),
    /// The file could not be read at all.
    Failed(FileError),
}

// ---------------------------------------------------------------------------
// Model
// ---------------------------------------------------------------------------

/// A line of context as a mathematical value.
pub struct Context {
    pub number: nat,
    pub offset: nat,
    pub text: Seq<char>,
}

/// A selected line as a mathematical value.
#[verifier::ext_equal]
pub struct Selected {
    pub number: nat,
    pub offset: nat,
    pub text: Seq<char>,
    pub spans: Seq<(int, int)>,
    pub before: Seq<Context>,
    pub after: Seq<Context>,
}

/// The result of scanning one file as a mathematical value.
#[verifier::ext_equal]
pub struct Scan {
    pub path: Seq<char>,
    pub matches: Seq<Selected>,
    pub lines_scanned: nat,
    pub bytes_scanned: nat,
}

/// What became of one file as a mathematical value.
pub enum Outcome {
    Scanned(Scan),
    Binary(Seq<char>),
    Failed(Seq<char>, Seq<char>),
}

impl View for ContextLine {
    type V = Context;

    open spec fn view(&self) -> Context {
        Context { number: self.number as nat, offset: self.offset as nat, text: self.text@ }
    }
}

impl Clone for ContextLine {
    fn clone(&self) -> (out: ContextLine)
        ensures
            out@ == self@,
    {
        ContextLine { number: self.number, offset: self.offset, text: self.text.clone() }
    }
}

/// The views of some lines of context.
pub open spec fn contexts(list: Seq<ContextLine>) -> Seq<Context> {
    list.map_values(|line: ContextLine| line@)
}

impl View for MatchLine {
    type V = Selected;

    open spec fn view(&self) -> Selected {
        Selected {
            number: self.number as nat,
            offset: self.offset as nat,
            text: self.text@,
            spans: semantics::spans(self.spans@),
            before: contexts(self.before@),
            after: contexts(self.after@),
        }
    }
}

/// Copies some lines of context.
fn copy_contexts(list: &Vec<ContextLine>) -> (out: Vec<ContextLine>)
    ensures
        contexts(out@) == contexts(list@),
{
    let mut out: Vec<ContextLine> = Vec::new();
    let mut i: usize = 0;
    while i < list.len()
        invariant
            i <= list@.len(),
            out@.len() == i,
            forall|k: int| 0 <= k < i ==> (#[trigger] out@[k])@ == list@[k]@,
        decreases list@.len() - i,
    {
        out.push(list[i].clone());
        i += 1;
    }
    assert(contexts(out@) =~= contexts(list@));
    out
}

/// Copies some spans.
fn copy_spans(list: &Vec<(usize, usize)>) -> (out: Vec<(usize, usize)>)
    ensures
        out@ == list@,
{
    let mut out: Vec<(usize, usize)> = Vec::new();
    let mut i: usize = 0;
    while i < list.len()
        invariant
            i <= list@.len(),
            out@ == list@.take(i as int),
        decreases list@.len() - i,
    {
        out.push(list[i]);
        i += 1;
    }
    out
}

impl Clone for MatchLine {
    fn clone(&self) -> (out: MatchLine)
        ensures
            out@ == self@,
    {
        MatchLine {
            number: self.number,
            offset: self.offset,
            text: self.text.clone(),
            spans: copy_spans(&self.spans),
            before: copy_contexts(&self.before),
            after: copy_contexts(&self.after),
        }
    }
}

/// The views of some selected lines.
pub open spec fn selections(list: Seq<MatchLine>) -> Seq<Selected> {
    list.map_values(|line: MatchLine| line@)
}

impl View for FileResult {
    type V = Scan;

    open spec fn view(&self) -> Scan {
        Scan {
            path: self.path@,
            matches: selections(self.matches@),
            lines_scanned: self.lines_scanned as nat,
            bytes_scanned: self.bytes_scanned as nat,
        }
    }
}

impl View for FileOutcome {
    type V = Outcome;

    open spec fn view(&self) -> Outcome {
        match self {
            FileOutcome::Scanned(result) => Outcome::Scanned(result@),
            FileOutcome::Binary(path) => Outcome::Binary(path@),
            FileOutcome::Failed(error) => Outcome::Failed(error.path@, error.message@),
        }
    }
}

/// The line is selected: it matches, or does not where the search is
/// inverted.
pub open spec fn selects(c: Compiled, options: SearchOptions, line: Seq<char>) -> bool {
    c.occurs(line) != options.invert
}

/// A line as context.
pub open spec fn as_context(slice: SliceView) -> Context {
    Context { number: slice.number, offset: slice.start, text: slice.text }
}

/// The lines `from..to` as context, cut off at the ends of the file.
pub open spec fn window(slices: Seq<SliceView>, from: int, to: int) -> Seq<Context> {
    let low = if from < 0 {
        0
    } else {
        from
    };
    let high = if to > slices.len() {
        slices.len() as int
    } else {
        to
    };
    slices.subrange(low, high).map_values(|slice: SliceView| as_context(slice))
}

/// The line at `index`, selected, with its spans and its context windows.
pub open spec fn selected_at(
    slices: Seq<SliceView>,
    index: int,
    c: Compiled,
    options: SearchOptions,
) -> Selected {
    Selected {
        number: slices[index].number,
        offset: slices[index].start,
        text: slices[index].text,
        spans: if options.invert {
            Seq::empty()
        } else {
            c.all(slices[index].text)
        },
        before: window(slices, index - options.before, index),
        after: window(slices, index + 1, index + 1 + options.after),
    }
}

/// The selected lines among the first `k`, in file order.
pub open spec fn selected_upto(
    slices: Seq<SliceView>,
    k: int,
    c: Compiled,
    options: SearchOptions,
) -> Seq<Selected>
    decreases k,
{
    if k <= 0 {
        Seq::empty()
    } else {
        let earlier = selected_upto(slices, k - 1, c, options);
        if selects(c, options, slices[k - 1].text) {
            earlier.push(selected_at(slices, k - 1, c, options))
        } else {
            earlier
        }
    }
}

/// How many lines are examined, `k` of them already: all of them, unless as
/// many are selected as the limit allows.
pub open spec fn examined(
    slices: Seq<SliceView>,
    k: int,
    c: Compiled,
    options: SearchOptions,
) -> int
    decreases slices.len() - k,
{
    if k >= slices.len() {
        slices.len() as int
    } else if options.max_count matches Some(limit) && selected_upto(slices, k, c, options).len()
        >= limit {
        k
    } else {
        examined(slices, k + 1, c, options)
    }
}

/// The result of searching a text.
pub open spec fn scan(
    path: Seq<char>,
    text: Seq<char>,
    c: Compiled,
    options: SearchOptions,
) -> Scan {
    let slices = lines::slices(text);
    let seen = examined(slices, 0, c, options);
    Scan {
        path,
        matches: selected_upto(slices, seen, c, options),
        lines_scanned: seen as nat,
        bytes_scanned: text::byte_len(text),
    }
}

// ---------------------------------------------------------------------------
// One text
// ---------------------------------------------------------------------------

/// Copies the lines `from..to` as context.
fn copy_window(slices: &Vec<LineSlice>, from: usize, to: usize) -> (out: Vec<ContextLine>)
    requires
        from <= to <= slices@.len(),
    ensures
        contexts(out@) == window(lines::slice_views(slices@), from as int, to as int),
{
    let ghost views = lines::slice_views(slices@);
    let mut out: Vec<ContextLine> = Vec::new();
    let mut i: usize = from;
    while i < to
        invariant
            from <= i <= to <= slices@.len(),
            views == lines::slice_views(slices@),
            out@.len() == i - from,
            forall|k: int|
                0 <= k < out@.len() ==> (#[trigger] out@[k])@ == as_context(views[from + k]),
        decreases to - i,
    {
        let slice = &slices[i];
        assert(views[i as int] == slices@[i as int]@);
        out.push(
            ContextLine { number: slice.number, offset: slice.start, text: slice.text.clone() },
        );
        i += 1;
    }
    assert(contexts(out@) =~= window(views, from as int, to as int));
    out
}

/// Assemble one [`MatchLine`] with its context window.
fn build_match(
    slices: &Vec<LineSlice>,
    index: usize,
    spans: Vec<(usize, usize)>,
    options: &SearchOptions,
) -> (out: MatchLine)
    requires
        index < slices@.len(),
    ensures
        ({
            let views = lines::slice_views(slices@);
            out@ == (Selected {
                number: views[index as int].number,
                offset: views[index as int].start,
                text: views[index as int].text,
                spans: semantics::spans(spans@),
                before: window(views, index - options.before, index as int),
                after: window(views, index + 1, index + 1 + options.after),
            })
        }),
{
    let ghost views = lines::slice_views(slices@);
    assert(views[index as int] == slices@[index as int]@);
    assert(views.len() == slices@.len());
    let size: usize = slices.len();
    let low: usize = if index > options.before {
        index - options.before
    } else {
        0
    };
    let room: usize = size - index - 1;
    let high: usize = if options.after < room {
        index + 1 + options.after
    } else {
        size
    };
    let before = copy_window(slices, low, index);
    let after = copy_window(slices, index + 1, high);
    let slice = &slices[index];
    MatchLine {
        number: slice.number,
        offset: slice.start,
        text: slice.text.clone(),
        spans,
        before,
        after,
    }
}

/// Search one in-memory text, the pure heart of the module.
///
/// The routine walks the line slices once; for every line it asks the
/// pattern engine for a match (or, with `invert`, for the absence of one)
/// and records the exact match spans for highlighting. `max_count` stops
/// the scan after the given number of selected lines, mirroring
/// `grep -m N`.
pub fn search_text(path: &str, text: &str, pattern: &Pattern, options: &SearchOptions) -> (out:
    FileResult)
    ensures
        out@ == scan(path@, text@, pattern@, *options),
{
    let slices = lines::iter_line_slices(text);
    let ghost views = lines::slices(text@);
    let ghost c = pattern@;
    assert(lines::slice_views(slices@).len() == slices@.len());
    let mut matches: Vec<MatchLine> = Vec::new();
    let mut index: usize = 0;
    let mut stopped = false;
    assert(selections(matches@) =~= Seq::<Selected>::empty());
    while index < slices.len() && !stopped
        invariant
            index <= slices@.len(),
            views == lines::slice_views(slices@),
            views.len() == slices@.len(),
            c == pattern@,
            selections(matches@) == selected_upto(views, index as int, c, *options),
            examined(views, 0, c, *options) == (if stopped {
                index as int
            } else {
                examined(views, index as int, c, *options)
            }),
        decreases slices@.len() - index, (if stopped {
            0int
        } else {
            1int
        }),
    {
        assert(selections(matches@).len() == matches@.len());
        assert(views[index as int] == slices@[index as int]@);
        let full = match options.max_count {
            Some(limit) => matches.len() >= limit,
            None => false,
        };
        if full {
            stopped = true;
        } else {
            let hit = pattern.is_match(slices[index].text.as_str());
            if hit != options.invert {
                let spans = if options.invert {
                    Vec::new()
                } else {
                    pattern.find_all(slices[index].text.as_str())
                };
                assert(options.invert ==> semantics::spans(spans@) =~= Seq::<(int, int)>::empty());
                let entry = build_match(&slices, index, spans, options);
                proof {
                    assert(entry@ == selected_at(views, index as int, c, *options));
                    assert(selections(matches@.push(entry)) =~= selections(matches@).push(entry@));
                }
                matches.push(entry);
            }
            index += 1;
        }
    }
    FileResult {
        path: path.to_owned(),
        matches,
        lines_scanned: index as u64,
        bytes_scanned: text::byte_count(text) as u64,
    }
}

// ---------------------------------------------------------------------------
// One file
// ---------------------------------------------------------------------------

/// `String::from_utf8` gives the text whose UTF-8 encoding the bytes are;
/// where there is no such text it fails.
#[verifier::external_body]
fn utf8_text(bytes: Vec<u8>) -> (out: Option<String>)
    ensures
        match out {
            Some(text) => encode_utf8(text@) == bytes@,
            None => forall|text: Seq<char>| #[trigger] encode_utf8(text) != bytes@,
        },
{
    String::from_utf8(bytes).ok()
}

/// What the contents of a file come to: binary where they look so or are no
/// UTF-8, and else the result of searching the text.
pub open spec fn contents_outcome(
    path: Seq<char>,
    bytes: Seq<u8>,
    c: Compiled,
    options: SearchOptions,
) -> Outcome {
    if filters::binary(bytes) || !valid_utf8(bytes) {
        Outcome::Binary(path)
    } else {
        Outcome::Scanned(scan(path, decode_utf8(bytes), c, options))
    }
}

/// Search one file, given what reading it came to, applying the binary/UTF-8
/// sniff.
pub fn search_file(
    path: &str,
    contents: Result<Vec<u8>, IoError>,
    pattern: &Pattern,
    options: &SearchOptions,
) -> (out: FileOutcome)
    ensures
        match contents {
            Ok(bytes) => out@ == contents_outcome(path@, bytes@, pattern@, *options),
            Err(err) => out@ == Outcome::Failed(
                path@,
                error::io_phrase(err.kind, err.message@),
            ),
        },
{
    let bytes = match contents {
        Ok(bytes) => bytes,
        Err(err) => {
            return FileOutcome::Failed(
                FileError { path: path.to_owned(), message: error::io_message(&err) },
            );
        },
    };
    if filters::looks_binary(bytes.as_slice()) {
        return FileOutcome::Binary(path.to_owned());
    }
    let ghost raw = bytes@;
    match utf8_text(bytes) {
        Some(text) => {
            proof {
                encode_utf8_valid_utf8(text@);
                encode_utf8_decode_utf8(text@);
            }
            FileOutcome::Scanned(search_text(path, text.as_str(), pattern, options))
        },
        None => {
            proof {
                if valid_utf8(raw) {
                    decode_utf8_encode_utf8(raw);
                    assert(encode_utf8(decode_utf8(raw)) == raw);
                }
            }
            FileOutcome::Binary(path.to_owned())
        },
    }
}

// ---------------------------------------------------------------------------
// All files
// ---------------------------------------------------------------------------

/// The path an outcome belongs to.
pub open spec fn path_of(outcome: Outcome) -> Seq<char> {
    match outcome {
        Outcome::Scanned(result) => result.path,
        Outcome::Binary(path) => path,
        Outcome::Failed(path, _) => path,
    }
}

/// The path an outcome belongs to, used for deterministic ordering.
pub fn outcome_path(outcome: &FileOutcome) -> (path: &str)
    ensures
        path@ == path_of(outcome@),
{
    match outcome {
        FileOutcome::Scanned(result) => result.path.as_str(),
        FileOutcome::Binary(path) => path.as_str(),
        FileOutcome::Failed(error) => error.path.as_str(),
    }
}

impl Placed for FileOutcome {
    open spec fn key(&self) -> Seq<int> {
        paths::path_key(path_of(self@))
    }

    fn precedes(&self, other: &Self) -> (yes: bool) {
        paths::precedes(outcome_path(self), outcome_path(other))
    }
}

/// `stats` with one more outcome counted.
pub open spec fn counted(stats: Stats, outcome: Outcome) -> Stats {
    match outcome {
        Outcome::Scanned(result) => {
            let n = result.matches.len() as int;
            let one = stats::bumped(stats, Counter::FilesSearched, 1);
            let two = stats::bumped(one, Counter::LinesScanned, result.lines_scanned as int);
            let three = stats::bumped(two, Counter::BytesScanned, result.bytes_scanned as int);
            let four = stats::bumped(three, Counter::MatchLines, n);
            if n > 0 {
                stats::bumped(four, Counter::FilesMatched, 1)
            } else {
                four
            }
        },
        Outcome::Binary(_) => stats::bumped(stats, Counter::FilesBinary, 1),
        Outcome::Failed(_, _) => stats::bumped(stats, Counter::Errors, 1),
    }
}

/// `stats` with the first `k` outcomes counted.
pub open spec fn tallied(stats: Stats, outcomes: Seq<FileOutcome>, k: int) -> Stats
    decreases k,
{
    if k <= 0 {
        stats
    } else {
        counted(tallied(stats, outcomes, k - 1), outcomes[k - 1]@)
    }
}

/// Counts one outcome.
fn count_outcome(stats: &mut Stats, outcome: &FileOutcome)
    ensures
        *final(stats) == counted(*old(stats), outcome@),
{
    match outcome {
        FileOutcome::Scanned(result) => {
            assert(selections(result.matches@).len() == result.matches@.len());
            stats.bump(Counter::FilesSearched, 1);
            stats.bump(Counter::LinesScanned, result.lines_scanned);
            stats.bump(Counter::BytesScanned, result.bytes_scanned);
            stats.bump(Counter::MatchLines, result.matches.len() as u64);
            if result.matches.len() > 0 {
                stats.bump(Counter::FilesMatched, 1);
            }
        },
        FileOutcome::Binary(_) => {
            stats.bump(Counter::FilesBinary, 1);
        },
        FileOutcome::Failed(_) => {
            stats.bump(Counter::Errors, 1);
        },
    }
}

/// How many workers share the files: as many as asked for, but at least one,
/// and no more than there are files.
pub fn worker_count(threads: usize, files: usize) -> (workers: usize)
    requires
        files > 0,
    ensures
        1 <= workers <= files,
        threads >= 1 ==> workers == (if threads <= files {
            threads
        } else {
            files
        }),
        threads == 0 ==> workers == 1,
{
    let wanted: usize = if threads == 0 {
        1
    } else {
        threads
    };
    if wanted <= files {
        wanted
    } else {
        files
    }
}

/// Sort and count the outcomes of all searched files.
///
/// The returned outcomes are sorted by path, in whatever order the workers
/// delivered them; counters in `stats` are updated once.
pub fn search_files(outcomes: Vec<FileOutcome>, stats: &mut Stats) -> (out: Vec<FileOutcome>)
    ensures
        sorting::in_order(out@),
        out@.to_multiset() == outcomes@.to_multiset(),
        *final(stats) == tallied(*old(stats), out@, out@.len() as int),
{
    let out = sorting::sort(outcomes);
    let ghost start = *stats;
    let mut i: usize = 0;
    while i < out.len()
        invariant
            i <= out@.len(),
            *stats == tallied(start, out@, i as int),
        decreases out@.len() - i,
    {
        count_outcome(stats, &out[i]);
        i += 1;
    }
    out
}

} // verus!
