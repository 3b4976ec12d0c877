//! Counters and timings for the search pipeline.
//!
//! The coordinating thread owns the counters and tallies what the workers
//! hand back; durations are recorded per phase (walk and search). The
//! `--stats` table is rendered from a [`StatsSnapshot`], a copy, so the
//! numbers printed can never change while they are formatted.

use vstd::prelude::*;

use crate::double;
use crate::double::Double;
use crate::duration::Duration;
use crate::sizes;
use crate::text;

verus! {

/// One of the counters of a search run.
#[derive(Debug, Clone, Copy, PartialEq, Eq, Structural)]
pub enum Counter {
    /// Candidate files discovered (after glob/size/ignore filtering).
    FilesFound,
    /// Text files actually scanned by the search layer.
    FilesSearched,
    /// Files skipped because they looked binary or were not valid UTF-8.
    FilesBinary,
    /// Files containing at least one matching line.
    FilesMatched,
    /// Logical lines examined (matching or not).
    LinesScanned,
    /// Total UTF-8 bytes of scanned content.
    BytesScanned,
    /// Matching lines reported across all files.
    MatchLines,
    /// Per-file failures (unreadable paths and similar).
    Errors,
}

/// Counters for one search run.
#[derive(Debug, Clone, Copy, PartialEq, Eq)]
pub struct Stats {
    /// Candidate files discovered (after glob/size/ignore filtering).
    pub files_found: u64,
    /// Text files actually scanned by the search layer.
    pub files_searched: u64,
    /// Files skipped because they looked binary or were not valid UTF-8.
    pub files_binary: u64,
    /// Files containing at least one matching line.
    pub files_matched: u64,
    /// Logical lines examined (matching or not).
    pub lines_scanned: u64,
    /// Total UTF-8 bytes of scanned content.
    pub bytes_scanned: u64,
    /// Matching lines reported across all files.
    pub match_lines: u64,
    /// Per-file failures (unreadable paths and similar).
    pub errors: u64,
    /// Wall time spent walking the directory tree (microseconds).
    pub walk_micros: u64,
    /// Wall time spent searching file contents (microseconds).
    pub search_micros: u64,
}

/// Addition on a counter, which wraps around at its capacity.
#[verifier::opaque]
pub open spec fn advanced(value: u64, delta: int) -> u64 {
    ((value + delta) % 0x1_0000_0000_0000_0000) as u64
}

fn advance(value: u64, delta: u64) -> (out: u64)
    ensures
        out == advanced(value, delta as int),
{
    proof {
        reveal(advanced);
    }
    value.wrapping_add(delta)
}

/// A counter that has room left counts one more.
pub proof fn lemma_advanced_by_one(value: u64)
    requires
        value < u64::MAX,
    ensures
        advanced(value, 1) == value + 1,
{
    reveal(advanced);
}

/// `stats` with `delta` more on one counter.
pub open spec fn bumped(stats: Stats, counter: Counter, delta: int) -> Stats {
    match counter {
        Counter::FilesFound => Stats { files_found: advanced(stats.files_found, delta), ..stats },
        Counter::FilesSearched => Stats {
            files_searched: advanced(stats.files_searched, delta),
            ..stats
        },
        Counter::FilesBinary => Stats {
            files_binary: advanced(stats.files_binary, delta),
            ..stats
        },
        Counter::FilesMatched => Stats {
            files_matched: advanced(stats.files_matched, delta),
            ..stats
        },
        Counter::LinesScanned => Stats {
            lines_scanned: advanced(stats.lines_scanned, delta),
            ..stats
        },
        Counter::BytesScanned => Stats {
            bytes_scanned: advanced(stats.bytes_scanned, delta),
            ..stats
        },
        Counter::MatchLines => Stats { match_lines: advanced(stats.match_lines, delta), ..stats },
        Counter::Errors => Stats { errors: advanced(stats.errors, delta), ..stats },
    }
}

/// Addition on counters is addition: nothing added changes nothing, and two
/// additions are one.
pub proof fn lemma_advanced()
    ensures
        forall|value: u64| #[trigger] advanced(value, 0) == value,
        forall|value: u64, a: int, b: int|
            #[trigger] advanced(advanced(value, a), b) == advanced(value, a + b),
{
    reveal(advanced);
}

/// Counting nothing changes nothing.
pub proof fn lemma_bumped_by_nothing(stats: Stats, counter: Counter)
    ensures
        bumped(stats, counter, 0) == stats,
{
    lemma_advanced();
}

/// Counting twice is counting both at once.
pub proof fn lemma_bumped_twice(stats: Stats, counter: Counter, a: int, b: int)
    ensures
        bumped(bumped(stats, counter, a), counter, b) == bumped(stats, counter, a + b),
{
    lemma_advanced();
}

/// All counters zeroed.
pub open spec fn zeroed() -> Stats {
    Stats {
        files_found: 0,
        files_searched: 0,
        files_binary: 0,
        files_matched: 0,
        lines_scanned: 0,
        bytes_scanned: 0,
        match_lines: 0,
        errors: 0,
        walk_micros: 0,
        search_micros: 0,
    }
}

/// A duration in microseconds, as far as 64 bits hold it.
pub open spec fn micros(nanos: nat) -> u64 {
    ((nanos / 1_000) % 0x1_0000_0000_0000_0000) as u64
}

fn whole_micros(span: Duration) -> (out: u64)
    ensures
        out == micros(span@),
{
    (span.as_micros() % 0x1_0000_0000_0000_0000) as u64
}

impl Default for Stats {
    fn default() -> (out: Stats)
        ensures
            out == zeroed(),
    {
        Stats::new()
    }
}

impl Stats {
    /// All counters zeroed.
    pub fn new() -> (out: Stats)
        ensures
            out == zeroed(),
    {
        Stats {
            files_found: 0,
            files_searched: 0,
            files_binary: 0,
            files_matched: 0,
            lines_scanned: 0,
            bytes_scanned: 0,
            match_lines: 0,
            errors: 0,
            walk_micros: 0,
            search_micros: 0,
        }
    }

    /// Add `delta` to a counter.
    pub fn bump(&mut self, counter: Counter, delta: u64)
        ensures
            *final(self) == bumped(*old(self), counter, delta as int),
    {
        match counter {
            Counter::FilesFound => {
                self.files_found = advance(self.files_found, delta);
            },
            Counter::FilesSearched => {
                self.files_searched = advance(self.files_searched, delta);
            },
            Counter::FilesBinary => {
                self.files_binary = advance(self.files_binary, delta);
            },
            Counter::FilesMatched => {
                self.files_matched = advance(self.files_matched, delta);
            },
            Counter::LinesScanned => {
                self.lines_scanned = advance(self.lines_scanned, delta);
            },
            Counter::BytesScanned => {
                self.bytes_scanned = advance(self.bytes_scanned, delta);
            },
            Counter::MatchLines => {
                self.match_lines = advance(self.match_lines, delta);
            },
            Counter::Errors => {
                self.errors = advance(self.errors, delta);
            },
        }
    }

    /// Record the elapsed directory-walk time.
    pub fn record_walk_time(&mut self, elapsed: Duration)
        ensures
            *final(self) == (Stats { walk_micros: micros(elapsed@), ..*old(self) }),
    {
        self.walk_micros = whole_micros(elapsed);
    }

    /// Record the elapsed content-search time.
    pub fn record_search_time(&mut self, elapsed: Duration)
        ensures
            *final(self) == (Stats { search_micros: micros(elapsed@), ..*old(self) }),
    {
        self.search_micros = whole_micros(elapsed);
    }

    /// Total matching lines reported so far.
    pub fn total_match_lines(&self) -> (total: u64)
        ensures
            total == self.match_lines,
    {
        self.match_lines
    }

    /// `true` when any per-file error was recorded.
    pub fn any_errors(&self) -> (any: bool)
        ensures
            any == (self.errors > 0),
    {
        self.errors > 0
    }

    /// Immutable copy of every counter plus both phase durations.
    pub fn snapshot(&self) -> (out: StatsSnapshot)
        ensures
            snapshot_of(out, *self),
    {
        StatsSnapshot {
            files_found: self.files_found,
            files_searched: self.files_searched,
            files_binary: self.files_binary,
            files_matched: self.files_matched,
            lines_scanned: self.lines_scanned,
            bytes_scanned: self.bytes_scanned,
            match_lines: self.match_lines,
            errors: self.errors,
            walk: Duration::from_micros(self.walk_micros),
            search: Duration::from_micros(self.search_micros),
        }
    }
}

/// An immutable view of [`Stats`] at one instant, used for rendering.
#[derive(Debug, Clone, Copy, PartialEq, Eq)]
pub struct StatsSnapshot {
    /// Candidate files discovered by the walker.
    pub files_found: u64,
    /// Text files scanned by the search layer.
    pub files_searched: u64,
    /// Files skipped as binary / non-UTF-8.
    pub files_binary: u64,
    /// Files with at least one match.
    pub files_matched: u64,
    /// Lines examined in total.
    pub lines_scanned: u64,
    /// UTF-8 bytes examined in total.
    pub bytes_scanned: u64,
    /// Matching lines reported.
    pub match_lines: u64,
    /// Per-file failures.
    pub errors: u64,
    /// Directory-walk duration.
    pub walk: Duration,
    /// Content-search duration.
    pub search: Duration,
}

/// `snap` is a copy of `stats`.
pub open spec fn snapshot_of(snap: StatsSnapshot, stats: Stats) -> bool {
    &&& snap.files_found == stats.files_found
    &&& snap.files_searched == stats.files_searched
    &&& snap.files_binary == stats.files_binary
    &&& snap.files_matched == stats.files_matched
    &&& snap.lines_scanned == stats.lines_scanned
    &&& snap.bytes_scanned == stats.bytes_scanned
    &&& snap.match_lines == stats.match_lines
    &&& snap.errors == stats.errors
    &&& snap.walk@ == stats.walk_micros * 1_000
    &&& snap.search@ == stats.search_micros * 1_000
}

impl StatsSnapshot {
    /// Content throughput in bytes per second (0 when no time was recorded).
    pub fn bytes_per_second(&self) -> (out: u64)
        ensures
            out == sizes::rate(self.bytes_scanned as nat, self.search@),
    {
        sizes::bytes_per_second(self.bytes_scanned, self.search)
    }

    /// Render the aligned `--stats` table. Values are human formatted (see
    /// [`format_bytes`] and [`format_duration`]) and right-aligned behind a
    /// fixed label column so the block reads like classic `time` output:
    ///
    /// ```text
    ///   files found          1,204
    ///   bytes scanned       3.1 MiB
    ///   walk time            4.1 ms
    /// ```
    pub fn to_string(&self) -> (out: String)
        ensures
            out@ == table(*self),
    {
        let mut out = String::new();
        out.push_str("searchlight statistics\n");
        push_count(&mut out, "files found", self.files_found);
        push_count(&mut out, "files searched", self.files_searched);
        push_count(&mut out, "files with matches", self.files_matched);
        push_count(&mut out, "binary files skipped", self.files_binary);
        push_count(&mut out, "matching lines", self.match_lines);
        push_count(&mut out, "lines scanned", self.lines_scanned);
        push_measure(&mut out, "bytes scanned", format_bytes(self.bytes_scanned).as_str());
        push_measure(&mut out, "walk time", format_duration(self.walk).as_str());
        push_measure(&mut out, "search time", format_duration(self.search).as_str());
        let mut throughput = format_bytes(self.bytes_per_second());
        throughput.push_str(" /s");
        push_measure(&mut out, "search throughput", throughput.as_str());
        if self.errors > 0 {
            push_count(&mut out, "i/o errors", self.errors);
        }
        assert(out@ =~= table(*self));
        out
    }
}

/// One line of the table: the label, and the value right-aligned behind the
/// label column, with a space between them at least.
pub open spec fn row(label: Seq<char>, value: Seq<char>, width: nat) -> Seq<char> {
    let gap = if label.len() >= 20 && value.len() >= width {
        " "@
    } else {
        Seq::empty()
    };
    "  "@ + text::padded(label, 20) + gap + text::indented(value, width) + "\n"@
}

/// The line of a counter.
pub open spec fn count_row(label: Seq<char>, count: nat) -> Seq<char> {
    row(label, grouped_number(count), 6)
}

/// The line of a size, a duration or a rate.
pub open spec fn measure_row(label: Seq<char>, value: Seq<char>) -> Seq<char> {
    row(label, value, 7)
}

fn push_row(out: &mut String, label: &str, value: &str, width: usize)
    ensures
        final(out)@ == old(out)@ + row(label@, value@, width as nat),
{
    out.push_str("  ");
    text::push_padded(out, label, 20);
    if text::char_count(label) >= 20 && text::char_count(value) >= width {
        out.push_str(" ");
    }
    text::push_indented(out, value, width);
    out.push_str("\n");
    assert(out@ =~= old(out)@ + row(label@, value@, width as nat));
}

fn push_count(out: &mut String, label: &str, count: u64)
    ensures
        final(out)@ == old(out)@ + count_row(label@, count as nat),
{
    push_row(out, label, separate_thousands(count).as_str(), 6);
}

fn push_measure(out: &mut String, label: &str, value: &str)
    ensures
        final(out)@ == old(out)@ + measure_row(label@, value@),
{
    push_row(out, label, value, 7);
}

/// The whole table: the counters, the timings and the throughput; errors only
/// where there are any.
pub open spec fn table(snap: StatsSnapshot) -> Seq<char> {
    "searchlight statistics\n"@ + count_row("files found"@, snap.files_found as nat) + count_row(
        "files searched"@,
        snap.files_searched as nat,
    ) + count_row("files with matches"@, snap.files_matched as nat) + count_row(
        "binary files skipped"@,
        snap.files_binary as nat,
    ) + count_row("matching lines"@, snap.match_lines as nat) + count_row(
        "lines scanned"@,
        snap.lines_scanned as nat,
    ) + measure_row("bytes scanned"@, sizes::human(snap.bytes_scanned as nat)) + measure_row(
        "walk time"@,
        duration_text(snap.walk@),
    ) + measure_row("search time"@, duration_text(snap.search@)) + measure_row(
        "search throughput"@,
        sizes::human(sizes::rate(snap.bytes_scanned as nat, snap.search@)) + " /s"@,
    ) + (if snap.errors > 0 {
        count_row("i/o errors"@, snap.errors as nat)
    } else {
        Seq::<char>::empty()
    })
}

/// Digits with a comma before every group of three but the first.
pub open spec fn grouped(digits: Seq<char>) -> Seq<char>
    decreases digits.len(),
{
    if digits.len() <= 3 {
        digits
    } else {
        grouped(digits.take(digits.len() - 3)) + ","@ + digits.skip(digits.len() - 3)
    }
}

/// A number with grouped digits.
pub open spec fn grouped_number(n: nat) -> Seq<char> {
    grouped(text::decimal(n))
}

fn push_grouped(out: &mut String, digits: &[char], end: usize)
    requires
        end <= digits@.len(),
    ensures
        final(out)@ == old(out)@ + grouped(digits@.take(end as int)),
    decreases end,
{
    let ghost before = out@;
    let ghost all = digits@.take(end as int);
    if end <= 3 {
        out.push_str(text::string_of(digits, 0, end).as_str());
        assert(out@ =~= before + all);
    } else {
        push_grouped(out, digits, end - 3);
        out.push_str(",");
        out.push_str(text::string_of(digits, end - 3, end).as_str());
        proof {
            assert(all.take(all.len() - 3) =~= digits@.take(end - 3));
            assert(all.skip(all.len() - 3) =~= digits@.subrange(end - 3, end as int));
            assert(out@ =~= before + grouped(all));
        }
    }
}

/// Group digits with `,` every three positions: `1234567` → `1,234,567`.
pub fn separate_thousands(value: u64) -> (out: String)
    ensures
        out@ == grouped_number(value as nat),
{
    let digits = text::chars_of(text::decimal_string(value as u128).as_str());
    let mut out = String::new();
    push_grouped(&mut out, digits.as_slice(), digits.len());
    proof {
        assert(digits@.take(digits@.len() as int) =~= digits@);
        assert(out@ =~= grouped(digits@));
    }
    out
}

/// Human-readable byte count using binary units.
///
/// 0–1023 bytes are shown verbatim with a `B` suffix; larger values use
/// KiB/MiB/GiB/TiB with one decimal digit.
pub fn format_bytes(bytes: u64) -> (out: String)
    ensures
        out@ == sizes::human(bytes as nat),
{
    sizes::format_human(bytes)
}

/// A span of nanoseconds for readers: microseconds below 1 ms, milliseconds
/// below 1 s with one decimal digit, seconds otherwise with two.
pub open spec fn duration_text(nanos: nat) -> Seq<char> {
    let micros = nanos / 1_000;
    if micros < 1_000 {
        text::decimal(micros) + " µs"@
    } else if micros < 1_000_000 {
        double::one_decimal(double::quotient(micros, 1_000)) + " ms"@
    } else {
        double::two_decimals(double::seconds(nanos)) + " s"@
    }
}

/// Human-readable duration: microseconds below 1 ms, milliseconds below
/// 1 s, seconds otherwise (two decimals).
pub fn format_duration(duration: Duration) -> (out: String)
    ensures
        out@ == duration_text(duration@),
{
    let micros: u128 = duration.as_micros();
    let mut out = String::new();
    if micros < 1_000 {
        text::push_decimal(&mut out, micros);
        out.push_str(" µs");
    } else if micros < 1_000_000 {
        double::push_one_decimal(&mut out, Double::quotient(micros as u64, 1_000));
        out.push_str(" ms");
    } else {
        double::push_two_decimals(&mut out, Double::seconds(duration));
        out.push_str(" s");
    }
    assert(out@ =~= duration_text(duration@));
    out
}

// ---------------------------------------------------------------------------
// Laws
// ---------------------------------------------------------------------------

/// `s` without its commas.
pub open spec fn without_commas(s: Seq<char>) -> Seq<char>
    decreases s.len(),
{
    if s.len() == 0 {
        s
    } else if s.last() == ',' {
        without_commas(s.drop_last())
    } else {
        without_commas(s.drop_last()).push(s.last())
    }
}

proof fn lemma_plain_tail(a: Seq<char>, b: Seq<char>)
    requires
        text::all_digits(b),
    ensures
        without_commas(a + b) == without_commas(a) + b,
    decreases b.len(),
{
    if b.len() == 0 {
        assert(a + b =~= a);
        assert(without_commas(a) + b =~= without_commas(a));
    } else {
        let less = b.drop_last();
        assert forall|k: int| 0 <= k < less.len() implies text::is_digit(#[trigger] less[k]) by {
            assert(text::is_digit(b[k]));
        }
        lemma_plain_tail(a, less);
        assert((a + b).drop_last() =~= a + less);
        assert(text::is_digit(b[b.len() - 1]));
        assert(without_commas(a + b) =~= without_commas(a) + b);
    }
}

proof fn lemma_grouped(digits: Seq<char>)
    requires
        text::all_digits(digits),
    ensures
        without_commas(grouped(digits)) == digits,
    decreases digits.len(),
{
    if digits.len() <= 3 {
        lemma_plain_tail(Seq::empty(), digits);
        assert(Seq::<char>::empty() + digits =~= digits);
        assert(without_commas(Seq::<char>::empty()) + digits =~= digits);
    } else {
        let cut = digits.len() - 3;
        let (high, low) = (digits.take(cut), digits.skip(cut));
        assert forall|k: int| 0 <= k < high.len() implies text::is_digit(#[trigger] high[k]) by {
            assert(text::is_digit(digits[k]));
        }
        assert forall|k: int| 0 <= k < low.len() implies text::is_digit(#[trigger] low[k]) by {
            assert(text::is_digit(digits[cut + k]));
        }
        lemma_grouped(high);
        reveal_strlit(",");
        let left = grouped(high) + ","@;
        assert(left.drop_last() =~= grouped(high));
        lemma_plain_tail(left, low);
        assert(high + low =~= digits);
    }
}

/// Grouping only inserts commas: without them the plain number is left.
pub proof fn law_grouping_keeps_the_digits(n: nat)
    ensures
        without_commas(grouped_number(n)) == text::decimal(n),
{
    text::lemma_decimal_round_trip(n);
    lemma_grouped(text::decimal(n));
}

/// A counter that has room grows by what is counted, and no other changes.
pub proof fn law_counters_count(stats: Stats, counter: Counter, delta: nat)
    requires
        delta <= u64::MAX,
    ensures
        ({
            let after = bumped(stats, counter, delta as int);
            let grows = |value: u64, next: u64, mine: bool|
                if mine {
                    value + delta <= u64::MAX ==> next == value + delta
                } else {
                    next == value
                };
            &&& grows(stats.files_found, after.files_found, counter is FilesFound)
            &&& grows(stats.files_searched, after.files_searched, counter is FilesSearched)
            &&& grows(stats.files_binary, after.files_binary, counter is FilesBinary)
            &&& grows(stats.files_matched, after.files_matched, counter is FilesMatched)
            &&& grows(stats.lines_scanned, after.lines_scanned, counter is LinesScanned)
            &&& grows(stats.bytes_scanned, after.bytes_scanned, counter is BytesScanned)
            &&& grows(stats.match_lines, after.match_lines, counter is MatchLines)
            &&& grows(stats.errors, after.errors, counter is Errors)
            &&& after.walk_micros == stats.walk_micros
            &&& after.search_micros == stats.search_micros
        }),
{
    reveal(advanced);
}

/// Digits are grouped by three from the right, and the first group is not
/// empty.
pub proof fn law_digits_are_grouped_by_three(high: Seq<char>, low: Seq<char>)
    requires
        low.len() == 3,
    ensures
        high.len() <= 3 ==> grouped(high) == high,
        high.len() > 0 ==> grouped(high + low) == grouped(high) + seq![','] + low,
{
    let all = high + low;
    reveal_strlit(",");
    assert(","@ =~= seq![',']);
    assert(all.take(all.len() - 3) =~= high);
    assert(all.skip(all.len() - 3) =~= low);
}

/// Durations are shown in microseconds below a millisecond, in milliseconds to
/// the nearest tenth below a second, and whole seconds with two decimals.
pub proof fn law_durations_are_shown_in_fitting_units(nanos: nat, seconds: nat)
    requires
        0 < seconds < 0x20_0000_0000_0000,
    ensures
        nanos < 1_000_000 ==> duration_text(nanos) == text::decimal(nanos / 1_000) + " µs"@,
        1_000_000 <= nanos < 1_000_000_000 ==> exists|tenths: nat| #[trigger]
            sizes::laws::nearest_tenths(nanos / 1_000, 1_000, tenths) && duration_text(nanos)
                == text::decimal(tenths / 10) + "."@ + text::decimal(tenths % 10) + " ms"@,
        duration_text(seconds * 1_000_000_000) == text::decimal(seconds) + ".00"@ + " s"@,
{
    let micros = nanos / 1_000;
    if 1_000_000 <= nanos < 1_000_000_000 {
        sizes::laws::lemma_quotient_tenths(micros, 1_000);
        let tenths = double::units(double::quotient(micros, 1_000), 10);
        assert(sizes::laws::nearest_tenths(micros, 1_000, tenths));
    }
    sizes::laws::lemma_whole_seconds(seconds);
}

/// A line of the table: the label in a column of 20, the value right-aligned
/// behind it, and at least one space between them.
pub proof fn law_rows_of_the_table(label: Seq<char>, value: Seq<char>, width: nat)
    ensures
        label.len() < 20 || value.len() < width ==> row(label, value, width) == seq![' ', ' ']
            + text::padded(label, 20) + text::indented(value, width) + seq!['\n'],
        label.len() >= 20 && value.len() >= width ==> row(label, value, width) == seq![' ', ' ']
            + label + seq![' '] + value + seq!['\n'],
{
    reveal_strlit("  ");
    reveal_strlit(" ");
    reveal_strlit("\n");
    assert("  "@ =~= seq![' ', ' ']);
    assert(" "@ =~= seq![' ']);
    assert("\n"@ =~= seq!['\n']);
    text::law_columns_are_filled_with_spaces(label, 20, 0);
    text::law_columns_are_filled_with_spaces(value, width, 0);
    let front = "  "@ + text::padded(label, 20);
    assert(front + Seq::<char>::empty() =~= front);
}

/// The table shows every counter under its label, sizes and durations for
/// readers, the throughput, and errors only where there are any.
pub proof fn law_table_shows_every_counter(snap: StatsSnapshot)
    ensures
        ({
            let count = |label: Seq<char>, n: u64| row(label, grouped(text::decimal(n as nat)), 6);
            let shown = "searchlight statistics\n"@ + count("files found"@, snap.files_found)
                + count("files searched"@, snap.files_searched) + count(
                "files with matches"@,
                snap.files_matched,
            ) + count("binary files skipped"@, snap.files_binary) + count(
                "matching lines"@,
                snap.match_lines,
            ) + count("lines scanned"@, snap.lines_scanned) + row(
                "bytes scanned"@,
                sizes::human(snap.bytes_scanned as nat),
                7,
            ) + row("walk time"@, duration_text(snap.walk@), 7) + row(
                "search time"@,
                duration_text(snap.search@),
                7,
            ) + row(
                "search throughput"@,
                sizes::human(sizes::rate(snap.bytes_scanned as nat, snap.search@)) + " /s"@,
                7,
            );
            &&& snap.errors == 0 ==> table(snap) == shown
            &&& snap.errors > 0 ==> table(snap) == shown + count("i/o errors"@, snap.errors)
        }),
{
    if snap.errors == 0 {
        let count = |label: Seq<char>, n: u64| row(label, grouped(text::decimal(n as nat)), 6);
        let shown = "searchlight statistics\n"@ + count("files found"@, snap.files_found) + count(
            "files searched"@,
            snap.files_searched,
        ) + count("files with matches"@, snap.files_matched) + count(
            "binary files skipped"@,
            snap.files_binary,
        ) + count("matching lines"@, snap.match_lines) + count(
            "lines scanned"@,
            snap.lines_scanned,
        ) + row("bytes scanned"@, sizes::human(snap.bytes_scanned as nat), 7) + row(
            "walk time"@,
            duration_text(snap.walk@),
            7,
        ) + row("search time"@, duration_text(snap.search@), 7) + row(
            "search throughput"@,
            sizes::human(sizes::rate(snap.bytes_scanned as nat, snap.search@)) + " /s"@,
            7,
        );
        assert(shown + Seq::<char>::empty() =~= shown);
    }
}

} // verus!
