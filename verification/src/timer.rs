//! Wall-clock timing for the search pipeline.
//!
//! The program measures two phases, the parallel directory walk and the
//! content search, with a [`Timer`]; `--stats` prints the resulting
//! [`Timeline`] next to the counters from [`crate::stats`]. The timer is a
//! plain value type: no threads, no shared state. Worker threads never touch
//! it, so the coordinating thread is the single writer and needs no
//! synchronization.
//!
//! Durations are *recorded*, not averaged; each phase appears at most once
//! in the timeline and phases keep the order in which they ran.

use std::time::Instant;

use vstd::prelude::*;

use crate::duration::{Duration, MAX_NANOS};
use crate::stats;
use crate::text;

verus! {

// ---------------------------------------------------------------------------
// Clock
// ---------------------------------------------------------------------------

/// [`std::time::Instant`], a reading of the monotonic clock. Nothing is known
/// of what it holds.
#[verifier::external_type_specification]
#[verifier::external_body]
pub struct ExInstant(std::time::Instant);

/// Calls [`std::time::Instant::now`]. What the clock shows is left open.
#[verifier::external_body]
fn now() -> Instant {
    Instant::now()
}

/// Calls [`std::time::Instant::elapsed`] and splits the result into whole
/// seconds and the nanoseconds of a started second, of which there are less
/// than a billion. How much time has passed is left open.
#[verifier::external_body]
fn passed(since: &Instant) -> (out: (u64, u32))
    ensures
        out.1 < 1_000_000_000,
{
    let elapsed = since.elapsed();
    (elapsed.as_secs(), elapsed.subsec_nanos())
}

/// The time since a reading of the clock.
fn time_since(since: &Instant) -> (out: Duration)
    ensures
        out@ <= MAX_NANOS,
{
    let (secs, nanos) = passed(since);
    Duration::new(secs, nanos)
}

// ---------------------------------------------------------------------------
// Phases
// ---------------------------------------------------------------------------

/// One completed, named phase.
#[derive(Debug, PartialEq, Eq)]
pub struct Phase {
    /// Phase label, e.g. `"walk"`.
    pub label: String,
    /// Wall duration of the phase.
    pub duration: Duration,
}

/// A phase as a mathematical value: its label, and how long it took in
/// nanoseconds.
pub struct Lap {
    pub label: Seq<char>,
    pub nanos: nat,
}

impl View for Phase {
    type V = Lap;

    open spec fn view(&self) -> Lap {
        Lap { label: self.label@, nanos: self.duration@ }
    }
}

impl Clone for Phase {
    fn clone(&self) -> (out: Phase)
        ensures
            out@ == self@,
    {
        Phase { label: self.label.clone(), duration: self.duration }
    }
}

/// The views of some phases.
pub open spec fn laps(phases: Seq<Phase>) -> Seq<Lap> {
    phases.map_values(|phase: Phase| phase@)
}

/// The first `k` phases together.
pub open spec fn sum(list: Seq<Lap>, k: int) -> nat
    decreases k,
{
    if k <= 0 {
        0
    } else {
        sum(list, k - 1) + list[k - 1].nanos
    }
}

/// All phases together, as far as a duration holds them.
pub open spec fn phases_sum(list: Seq<Lap>) -> nat {
    if sum(list, list.len() as int) <= MAX_NANOS {
        sum(list, list.len() as int)
    } else {
        MAX_NANOS as nat
    }
}

// ---------------------------------------------------------------------------
// Timer
// ---------------------------------------------------------------------------

/// Sequential stopwatch for named phases.
///
/// Phases are expected to run one after another (`begin`, `end`, `begin`,
/// ...). Forgetting an `end` is tolerated: the next `begin` (or `finish`)
/// closes the still-open phase automatically, so a small bookkeeping
/// mistake can shorten a phase but never corrupts the report.
#[derive(Debug)]
pub struct Timer {
    started: Instant,
    phases: Vec<Phase>,
    open: Option<(String, Instant)>,
}

/// A stopwatch as a mathematical value: the completed phases and the label of
/// the open one.
#[verifier::ext_equal]
pub struct Stopwatch {
    pub laps: Seq<Lap>,
    pub open: Option<Seq<char>>,
}

impl Stopwatch {
    /// Without an open phase: it took `nanos`.
    pub open spec fn closed(self, nanos: nat) -> Stopwatch {
        match self.open {
            Some(label) => Stopwatch { laps: self.laps.push(Lap { label, nanos }), open: None },
            None => self,
        }
    }
}

impl View for Timer {
    type V = Stopwatch;

    closed spec fn view(&self) -> Stopwatch {
        Stopwatch {
            laps: laps(self.phases@),
            open: match self.open {
                Some((label, _)) => Some(label@),
                None => None,
            },
        }
    }
}

impl Timer {
    /// Start a new stopwatch with no recorded phases.
    pub fn start() -> (out: Timer)
        ensures
            out@ == (Stopwatch { laps: Seq::empty(), open: None }),
    {
        let out = Timer { started: now(), phases: Vec::new(), open: None };
        assert(out@.laps =~= Seq::<Lap>::empty());
        out
    }

    /// Begin timing `label`. A phase left open by a missing [`Timer::end`]
    /// call is closed first.
    pub fn begin(&mut self, label: &str)
        ensures
            exists|nanos: nat|
                final(self)@ == (Stopwatch {
                    open: Some(label@),
                    ..#[trigger] old(self)@.closed(nanos)
                }),
    {
        self.close_open();
        self.open = Some((label.to_owned(), now()));
    }

    /// Close the open phase, if any. Calling `end` twice is harmless.
    pub fn end(&mut self)
        ensures
            exists|nanos: nat| final(self)@ == #[trigger] old(self)@.closed(nanos),
    {
        self.close_open();
    }

    /// Close the open phase, if any, with the time that the clock gives.
    fn close_open(&mut self)
        ensures
            exists|nanos: nat| final(self)@ == #[trigger] old(self)@.closed(nanos),
    {
        let ghost before = self@;
        let elapsed = match &self.open {
            Some((_, started)) => Some(time_since(started)),
            None => None,
        };
        if let Some(duration) = elapsed {
            self.close_after(duration);
            assert(self@ == before.closed(duration@));
        } else {
            assert(self@ == before.closed(0));
        }
    }

    /// Close the open phase, if any: it took `duration`.
    pub fn close_after(&mut self, duration: Duration)
        ensures
            final(self)@ == old(self)@.closed(duration@),
    {
        let ghost before = self@;
        if let Some((label, _)) = self.open.take() {
            self.phases.push(Phase { label, duration });
            assert(self@ =~= before.closed(duration@));
        }
    }

    /// Record a measured duration directly.
    ///
    /// Useful for callers that time a phase elsewhere and only want it to
    /// appear in the report, and for building sample output in tests.
    pub fn record(&mut self, label: &str, duration: Duration)
        ensures
            final(self)@ == (Stopwatch {
                laps: old(self)@.laps.push(Lap { label: label@, nanos: duration@ }),
                ..old(self)@
            }),
    {
        let ghost before = self@;
        self.phases.push(Phase { label: label.to_owned(), duration });
        assert(self@.laps =~= before.laps.push(Lap { label: label@, nanos: duration@ }));
    }

    /// Total wall time since [`Timer::start`], open phase included. How much
    /// that is, the clock decides.
    pub fn elapsed(&self) -> (out: Duration)
        ensures
            out@ <= MAX_NANOS,
    {
        time_since(&self.started)
    }

    /// Sum of all recorded phase durations (saturating).
    pub fn phases_total(&self) -> (total: Duration)
        ensures
            total@ == phases_sum(self@.laps),
    {
        let ghost list = self@.laps;
        let mut total = Duration::zero();
        let mut i: usize = 0;
        while i < self.phases.len()
            invariant
                list == self@.laps,
                list == laps(self.phases@),
                i <= self.phases@.len(),
                total@ == (if sum(list, i as int) <= MAX_NANOS {
                    sum(list, i as int)
                } else {
                    MAX_NANOS as nat
                }),
            decreases self.phases@.len() - i,
        {
            assert(list[i as int] == self.phases@[i as int]@);
            total = total.saturating_add(self.phases[i].duration);
            i += 1;
        }
        total
    }

    /// Close any open phase and freeze the run into a [`Timeline`], whose
    /// total is at least the sum of the phases.
    pub fn finish(self) -> (out: Timeline)
        ensures
            exists|nanos: nat| out@.laps == (#[trigger] self@.closed(nanos)).laps,
            out@.total >= sum(out@.laps, out@.laps.len() as int) || out@.total >= MAX_NANOS,
            out@.total <= MAX_NANOS,
    {
        let mut timer = self;
        timer.close_open();
        let elapsed = time_since(&timer.started);
        timer.into_timeline(elapsed)
    }

    /// Freeze the run, which took `elapsed` by the clock, into a [`Timeline`].
    /// A phase that is still open is left out. Where phases that were measured
    /// elsewhere exceed the time on the clock, the total is their sum.
    pub fn into_timeline(self, elapsed: Duration) -> (out: Timeline)
        ensures
            out@ == (Report {
                laps: self@.laps,
                total: if elapsed@ >= phases_sum(self@.laps) {
                    elapsed@
                } else {
                    phases_sum(self@.laps)
                },
            }),
    {
        let total = elapsed.longer(self.phases_total());
        Timeline { phases: self.phases, total }
    }
}

// ---------------------------------------------------------------------------
// Timeline
// ---------------------------------------------------------------------------

/// Immutable report of one timed run.
#[derive(Debug, PartialEq, Eq)]
pub struct Timeline {
    /// Completed phases in recording order.
    pub phases: Vec<Phase>,
    /// Total wall time of the run (at least the sum of the phases).
    pub total: Duration,
}

/// A timeline as a mathematical value.
#[verifier::ext_equal]
pub struct Report {
    pub laps: Seq<Lap>,
    pub total: nat,
}

impl View for Timeline {
    type V = Report;

    open spec fn view(&self) -> Report {
        Report { laps: laps(self.phases@), total: self.total@ }
    }
}

impl Clone for Timeline {
    fn clone(&self) -> (out: Timeline)
        ensures
            out@ == self@,
    {
        let mut phases: Vec<Phase> = Vec::new();
        let mut i: usize = 0;
        while i < self.phases.len()
            invariant
                i <= self.phases@.len(),
                phases@.len() == i,
                forall|k: int| 0 <= k < i ==> (#[trigger] phases@[k])@ == self.phases@[k]@,
            decreases self.phases@.len() - i,
        {
            phases.push(self.phases[i].clone());
            i += 1;
        }
        assert(laps(phases@) =~= laps(self.phases@));
        Timeline { phases, total: self.total }
    }
}

/// The first `k` numbers of microseconds together.
pub open spec fn micros_sum(pairs: Seq<(&str, u64)>, k: int) -> nat
    decreases k,
{
    if k <= 0 {
        0
    } else {
        micros_sum(pairs, k - 1) + pairs[k - 1].1 as nat
    }
}

/// The first of some phases with this label.
pub open spec fn first_lap(list: Seq<Lap>, label: Seq<char>, from: int) -> Option<nat>
    decreases list.len() - from,
{
    if from < 0 || from >= list.len() {
        None
    } else if list[from].label == label {
        Some(list[from].nanos)
    } else {
        first_lap(list, label, from + 1)
    }
}

/// The width of the label column: the longest label in bytes, at least as wide
/// as `total`.
pub open spec fn label_width(list: Seq<Lap>, k: int) -> nat
    decreases k,
{
    if k <= 0 {
        5
    } else {
        let width = label_width(list, k - 1);
        let size = text::byte_len(list[k - 1].label);
        if size > width {
            size
        } else {
            width
        }
    }
}

/// The width of the duration column: the longest spelling of a duration.
pub open spec fn time_width(report: Report, k: int) -> nat
    decreases k,
{
    if k <= 0 {
        stats::duration_text(report.total).len()
    } else {
        let width = time_width(report, k - 1);
        let size = stats::duration_text(report.laps[k - 1].nanos).len();
        if size > width {
            size
        } else {
            width
        }
    }
}

/// The widths of the two columns.
pub struct Columns {
    pub label: nat,
    pub time: nat,
}

/// One row of the table: the label on the left, the duration on the right.
pub open spec fn table_row(label: Seq<char>, nanos: nat, columns: Columns) -> Seq<char> {
    text::padded(label, columns.label) + "  "@ + text::indented(
        stats::duration_text(nanos),
        columns.time,
    ) + seq!['\n']
}

/// The rows of the first `k` phases.
pub open spec fn table_rows(list: Seq<Lap>, k: int, columns: Columns) -> Seq<char>
    decreases k,
{
    if k <= 0 {
        Seq::empty()
    } else {
        table_rows(list, k - 1, columns) + table_row(
            list[k - 1].label,
            list[k - 1].nanos,
            columns,
        )
    }
}

/// The table of a timeline: its phases and the total.
pub open spec fn table(report: Report) -> Seq<char> {
    let n = report.laps.len() as int;
    let columns = Columns { label: label_width(report.laps, n), time: time_width(report, n) };
    table_rows(report.laps, n, columns) + table_row("total"@, report.total, columns)
}

/// Appends one row of the table.
fn push_row(out: &mut String, label: &str, duration: Duration, width: usize, time: usize)
    ensures
        final(out)@ == old(out)@ + table_row(
            label@,
            duration@,
            Columns { label: width as nat, time: time as nat },
        ),
{
    let ghost before = out@;
    let ghost columns = Columns { label: width as nat, time: time as nat };
    text::push_padded(out, label, width);
    out.push_str("  ");
    text::push_indented(out, stats::format_duration(duration).as_str(), time);
    out.push('\n');
    assert(out@ =~= before + table_row(label@, duration@, columns));
}

impl Timeline {
    /// Build a timeline from `(label, micros)` pairs, handy for tests and
    /// for rendering sample output deterministically.
    pub fn from_micros(pairs: &[(&str, u64)]) -> (out: Timeline)
        requires
            micros_sum(pairs@, pairs@.len() as int) <= u64::MAX,
        ensures
            out@.laps.len() == pairs@.len(),
            forall|k: int|
                0 <= k < pairs@.len() ==> #[trigger] out@.laps[k] == (Lap {
                    label: pairs@[k].0@,
                    nanos: (pairs@[k].1 * 1_000) as nat,
                }),
            out@.total == micros_sum(pairs@, pairs@.len() as int) * 1_000,
    {
        let mut phases: Vec<Phase> = Vec::new();
        let mut total: u64 = 0;
        let mut i: usize = 0;
        while i < pairs.len()
            invariant
                i <= pairs@.len(),
                micros_sum(pairs@, pairs@.len() as int) <= u64::MAX,
                total == micros_sum(pairs@, i as int),
                phases@.len() == i,
                forall|k: int|
                    0 <= k < i ==> (#[trigger] phases@[k])@ == (Lap {
                        label: pairs@[k].0@,
                        nanos: (pairs@[k].1 * 1_000) as nat,
                    }),
            decreases pairs@.len() - i,
        {
            let (label, micros) = pairs[i];
            proof {
                lemma_micros_sum(pairs@, i + 1);
            }
            phases.push(Phase { label: label.to_owned(), duration: Duration::from_micros(micros) });
            total += micros;
            i += 1;
        }
        Timeline { phases, total: Duration::from_micros(total) }
    }

    /// Duration recorded for `label`, if the phase ran.
    pub fn phase(&self, label: &str) -> (out: Option<Duration>)
        ensures
            match out {
                Some(duration) => first_lap(self@.laps, label@, 0) == Some(duration@),
                None => first_lap(self@.laps, label@, 0) is None,
            },
    {
        let ghost list = self@.laps;
        let mut i: usize = 0;
        while i < self.phases.len()
            invariant
                list == laps(self.phases@),
                list == self@.laps,
                i <= self.phases@.len(),
                first_lap(list, label@, 0) == first_lap(list, label@, i as int),
            decreases self.phases@.len() - i,
        {
            assert(list[i as int] == self.phases@[i as int]@);
            if text::str_eq(self.phases[i].label.as_str(), label) {
                return Some(self.phases[i].duration);
            }
            i += 1;
        }
        None
    }

    /// Render an aligned phase table:
    ///
    /// ```text
    /// walk     1.2 ms
    /// search   8.9 ms
    /// total   10.1 ms
    /// ```
    pub fn to_string(&self) -> (out: String)
        ensures
            out@ == table(self@),
    {
        let ghost list = self@.laps;
        let mut width: usize = 5;
        let mut time: usize = text::char_count(stats::format_duration(self.total).as_str());
        let mut i: usize = 0;
        while i < self.phases.len()
            invariant
                list == laps(self.phases@),
                list == self@.laps,
                i <= self.phases@.len(),
                width == label_width(list, i as int),
                time == time_width(self@, i as int),
            decreases self.phases@.len() - i,
        {
            assert(list[i as int] == self.phases@[i as int]@);
            let size: usize = text::byte_count(self.phases[i].label.as_str());
            if size > width {
                width = size;
            }
            let size: usize = text::char_count(
                stats::format_duration(self.phases[i].duration).as_str(),
            );
            if size > time {
                time = size;
            }
            i += 1;
        }
        let ghost columns = Columns { label: width as nat, time: time as nat };
        let mut out = String::new();
        let mut i: usize = 0;
        while i < self.phases.len()
            invariant
                list == laps(self.phases@),
                i <= self.phases@.len(),
                columns == (Columns { label: width as nat, time: time as nat }),
                out@ == table_rows(list, i as int, columns),
            decreases self.phases@.len() - i,
        {
            assert(list[i as int] == self.phases@[i as int]@);
            push_row(
                &mut out,
                self.phases[i].label.as_str(),
                self.phases[i].duration,
                width,
                time,
            );
            i += 1;
        }
        push_row(&mut out, "total", self.total, width, time);
        out
    }
}

/// Fewer pairs, a smaller sum.
proof fn lemma_micros_sum(pairs: Seq<(&str, u64)>, k: int)
    requires
        0 <= k <= pairs.len(),
    ensures
        micros_sum(pairs, k) <= micros_sum(pairs, pairs.len() as int),
    decreases pairs.len() - k,
{
    if k < pairs.len() {
        lemma_micros_sum(pairs, k + 1);
    }
}

// ---------------------------------------------------------------------------
// Laws
// ---------------------------------------------------------------------------

/// A second `end` changes nothing, nor does an `end` without a `begin`.
pub proof fn law_closing_twice_is_harmless(watch: Stopwatch, first: nat, second: nat)
    ensures
        watch.closed(first).closed(second) == watch.closed(first),
{
}

/// A phase left open is closed by the next one: two `begin`s and an `end`
/// record both phases, in the order in which they ran.
pub proof fn law_forgotten_phases_are_recorded(
    watch: Stopwatch,
    a: Seq<char>,
    b: Seq<char>,
    first: nat,
    second: nat,
)
    requires
        watch.open is None,
    ensures
        ({
            let one = Stopwatch { open: Some(a), ..watch };
            let two = Stopwatch { open: Some(b), ..one.closed(first) };
            two.closed(second) == Stopwatch {
                laps: watch.laps + seq![
                    Lap { label: a, nanos: first },
                    Lap { label: b, nanos: second },
                ],
                open: None,
            }
        }),
{
    let one = Stopwatch { open: Some(a), ..watch };
    let two = Stopwatch { open: Some(b), ..one.closed(first) };
    assert(two.closed(second).laps =~= watch.laps + seq![
        Lap { label: a, nanos: first },
        Lap { label: b, nanos: second },
    ]);
}

/// The time of a label is that of the first phase with it, and there is one if
/// and only if some phase has the label.
pub proof fn law_phases_are_found_by_label(list: Seq<Lap>, label: Seq<char>)
    ensures
        first_lap(list, label, 0) is None <==> forall|k: int|
            0 <= k < list.len() ==> (#[trigger] list[k]).label != label,
        forall|k: int|
            0 <= k < list.len() && (#[trigger] list[k]).label == label && (forall|i: int|
                0 <= i < k ==> (#[trigger] list[i]).label != label) ==> first_lap(list, label, 0)
                == Some(list[k].nanos),
{
    lemma_first_lap(list, label, 0);
}

proof fn lemma_first_lap(list: Seq<Lap>, label: Seq<char>, from: int)
    requires
        0 <= from <= list.len(),
    ensures
        first_lap(list, label, from) is None <==> forall|k: int|
            from <= k < list.len() ==> (#[trigger] list[k]).label != label,
        forall|k: int|
            from <= k < list.len() && (#[trigger] list[k]).label == label && (forall|i: int|
                from <= i < k ==> (#[trigger] list[i]).label != label) ==> first_lap(
                list,
                label,
                from,
            ) == Some(list[k].nanos),
    decreases list.len() - from,
{
    if from < list.len() {
        lemma_first_lap(list, label, from + 1);
        if list[from].label != label {
            assert forall|k: int|
                from <= k < list.len() && (#[trigger] list[k]).label == label && (forall|i: int|
                    from <= i < k ==> (#[trigger] list[i]).label != label) implies first_lap(
                list,
                label,
                from,
            ) == Some(list[k].nanos) by {
                assert(forall|i: int| from + 1 <= i < k ==> (#[trigger] list[i]).label != label);
            }
        }
    }
}

proof fn lemma_sum_prefix(a: Seq<Lap>, b: Seq<Lap>, k: int)
    requires
        0 <= k <= a.len(),
    ensures
        sum(a + b, k) == sum(a, k),
    decreases k,
{
    if k > 0 {
        lemma_sum_prefix(a, b, k - 1);
        assert((a + b)[k - 1] == a[k - 1]);
    }
}

proof fn lemma_sum_parts(a: Seq<Lap>, b: Seq<Lap>, k: int)
    requires
        0 <= k <= b.len(),
    ensures
        sum(a + b, a.len() + k) == sum(a, a.len() as int) + sum(b, k),
    decreases k,
{
    if k == 0 {
        lemma_sum_prefix(a, b, a.len() as int);
    } else {
        lemma_sum_parts(a, b, k - 1);
        assert((a + b)[a.len() + k - 1] == b[k - 1]);
    }
}

/// All phases count for their total, as far as a duration holds them.
pub proof fn law_phases_add_up(a: Seq<Lap>, b: Seq<Lap>, one: Lap)
    ensures
        phases_sum(Seq::empty()) == 0,
        one.nanos <= MAX_NANOS ==> phases_sum(seq![one]) == one.nanos,
        phases_sum(a) + phases_sum(b) <= MAX_NANOS ==> phases_sum(a + b) == phases_sum(a)
            + phases_sum(b),
        phases_sum(a + b) <= MAX_NANOS,
{
    lemma_sum_parts(a, b, b.len() as int);
    assert(seq![one][0] == one);
    assert(sum(seq![one], 0) == 0);
    assert(sum(seq![one], 1) == one.nanos);
}

/// The columns of the table are as wide as their widest cell: the labels and
/// `total`, the durations and their total.
pub proof fn law_columns_fit_their_cells(report: Report, k: int)
    requires
        0 <= k < report.laps.len(),
    ensures
        ({
            let n = report.laps.len() as int;
            &&& label_width(report.laps, n) >= 5
            &&& label_width(report.laps, n) >= text::byte_len(report.laps[k].label)
            &&& label_width(report.laps, n) == 5 || exists|i: int|
                0 <= i < n && label_width(report.laps, n) == text::byte_len(
                    (#[trigger] report.laps[i]).label,
                )
            &&& time_width(report, n) >= stats::duration_text(report.total).len()
            &&& time_width(report, n) >= stats::duration_text(report.laps[k].nanos).len()
            &&& time_width(report, n) == stats::duration_text(report.total).len() || exists|i: int|
                0 <= i < n && time_width(report, n) == stats::duration_text(
                    (#[trigger] report.laps[i]).nanos,
                ).len()
        }),
{
    lemma_widths(report, report.laps.len() as int, k);
}

proof fn lemma_widths(report: Report, n: int, k: int)
    requires
        0 <= k < n <= report.laps.len(),
    ensures
        label_width(report.laps, n) >= 5,
        label_width(report.laps, n) >= text::byte_len(report.laps[k].label),
        label_width(report.laps, n) == 5 || exists|i: int|
            0 <= i < n && label_width(report.laps, n) == text::byte_len(
                (#[trigger] report.laps[i]).label,
            ),
        time_width(report, n) >= stats::duration_text(report.total).len(),
        time_width(report, n) >= stats::duration_text(report.laps[k].nanos).len(),
        time_width(report, n) == stats::duration_text(report.total).len() || exists|i: int|
            0 <= i < n && time_width(report, n) == stats::duration_text(
                (#[trigger] report.laps[i]).nanos,
            ).len(),
    decreases n,
{
    let last = report.laps[n - 1];
    if n > 1 {
        lemma_widths(
            report,
            n - 1,
            if k < n - 1 {
                k
            } else {
                0
            },
        );
    } else {
        assert(label_width(report.laps, 0) == 5);
        assert(time_width(report, 0) == stats::duration_text(report.total).len());
    }
    assert(last == report.laps[n - 1]);
}

proof fn lemma_rows_joined(a: Seq<Lap>, b: Seq<Lap>, k: int, columns: Columns)
    requires
        0 <= k <= b.len(),
    ensures
        table_rows(a + b, a.len() + k, columns) == table_rows(a, a.len() as int, columns)
            + table_rows(b, k, columns),
    decreases k,
{
    let front = table_rows(a, a.len() as int, columns);
    if k == 0 {
        lemma_rows_prefix(a, b, a.len() as int, columns);
        assert(front + Seq::<char>::empty() =~= front);
    } else {
        lemma_rows_joined(a, b, k - 1, columns);
        assert((a + b)[a.len() + k - 1] == b[k - 1]);
        let last = table_row(b[k - 1].label, b[k - 1].nanos, columns);
        assert(front + table_rows(b, k - 1, columns) + last =~= front + (table_rows(
            b,
            k - 1,
            columns,
        ) + last));
    }
}

proof fn lemma_rows_prefix(a: Seq<Lap>, b: Seq<Lap>, k: int, columns: Columns)
    requires
        0 <= k <= a.len(),
    ensures
        table_rows(a + b, k, columns) == table_rows(a, k, columns),
    decreases k,
{
    if k > 0 {
        lemma_rows_prefix(a, b, k - 1, columns);
        assert((a + b)[k - 1] == a[k - 1]);
    }
}

/// The table has a row for each phase, in order, with its label on the left and
/// its time on the right, and the total as the last row.
pub proof fn law_every_phase_has_a_row(
    report: Report,
    a: Seq<Lap>,
    b: Seq<Lap>,
    one: Lap,
    columns: Columns,
)
    ensures
        table_rows(Seq::empty(), 0, columns).len() == 0,
        table_rows(seq![one], 1, columns) == text::padded(one.label, columns.label) + seq![' ', ' ']
            + text::indented(stats::duration_text(one.nanos), columns.time) + seq!['\n'],
        table_rows(a + b, (a + b).len() as int, columns) == table_rows(a, a.len() as int, columns)
            + table_rows(b, b.len() as int, columns),
        ({
            let n = report.laps.len() as int;
            let widths = Columns {
                label: label_width(report.laps, n),
                time: time_width(report, n),
            };
            let total = Lap { label: "total"@, nanos: report.total };
            table(report) == table_rows(report.laps.push(total), n + 1, widths)
        }),
{
    reveal_strlit("  ");
    assert("  "@ =~= seq![' ', ' ']);
    assert(seq![one][0] == one);
    assert(table_rows(seq![one], 0, columns) =~= Seq::<char>::empty());
    let row = table_row(one.label, one.nanos, columns);
    assert(Seq::<char>::empty() + row =~= row);
    lemma_rows_joined(a, b, b.len() as int, columns);
    let n = report.laps.len() as int;
    let widths = Columns { label: label_width(report.laps, n), time: time_width(report, n) };
    let total = Lap { label: "total"@, nanos: report.total };
    let all = report.laps.push(total);
    assert(all =~= report.laps + seq![total]);
    lemma_rows_prefix(report.laps, seq![total], n, widths);
    assert(all[n] == total);
}

} // verus!
