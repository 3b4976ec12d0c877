//! What holds of every rendered result.

use vstd::prelude::*;

use crate::highlight;
use crate::highlight::Colors;
use crate::json;
use crate::lines;
use crate::lines::SliceView;
use crate::output;
use crate::output::{Layout, RenderOptions, Row};
use crate::pattern::Compiled;
use crate::search;
use crate::search::{Context, SearchOptions, Selected};
use crate::text;

verus! {

// ---------------------------------------------------------------------------
// Rows and separators
// ---------------------------------------------------------------------------

/// `done`, and of the rows in `list` those that go beyond what is there.
pub open spec fn kept(done: Seq<Row>, list: Seq<Row>) -> Seq<Row>
    decreases list.len(),
{
    if list.len() == 0 {
        done
    } else {
        let earlier = kept(done, list.drop_last());
        if earlier.len() == 0 || list.last().number > earlier.last().number {
            earlier.push(list.last())
        } else {
            earlier
        }
    }
}

/// Some rows, with a separator wherever line numbers are skipped.
pub open spec fn grouped(list: Seq<Row>, colors: Colors) -> Seq<char>
    decreases list.len(),
{
    if list.len() == 0 {
        Seq::empty()
    } else {
        let gap = list.len() > 1 && list.last().number > list[list.len() - 2].number + 1;
        grouped(list.drop_last(), colors) + (if gap {
            output::separator(colors)
        } else {
            Seq::empty()
        }) + list.last().text
    }
}

/// The line numbers rise from row to row.
pub open spec fn ascending(list: Seq<Row>) -> bool {
    forall|k: int, l: int|
        0 <= k < l < list.len() ==> (#[trigger] list[k]).number < (#[trigger] list[l]).number
}

proof fn lemma_page_is_grouped(list: Seq<Row>, colors: Colors)
    ensures
        ({
            let page = output::filled(output::blank(), list, colors);
            let shown = kept(Seq::empty(), list);
            &&& page.text == grouped(shown, colors)
            &&& page.last == (if shown.len() == 0 {
                None
            } else {
                Some(shown.last().number)
            })
            &&& ascending(shown)
        }),
    decreases list.len(),
{
    if list.len() > 0 {
        lemma_page_is_grouped(list.drop_last(), colors);
        let earlier = kept(Seq::empty(), list.drop_last());
        let shown = kept(Seq::empty(), list);
        if shown.len() > earlier.len() {
            assert(shown.drop_last() =~= earlier);
            assert(output::filled(output::blank(), list, colors).text =~= grouped(shown, colors));
        }
    }
}

/// However the windows of the selected lines overlap, every line is printed at
/// most once and in ascending order, and separators stand exactly where line
/// numbers are skipped.
pub proof fn law_lines_are_printed_once_in_order(layout: Layout, matches: Seq<Selected>)
    ensures
        ({
            let shown = kept(
                Seq::empty(),
                output::rows(layout, matches, matches.len() as int),
            );
            &&& ascending(shown)
            &&& output::lines_text(layout, matches) == grouped(shown, layout.colors)
        }),
{
    lemma_page_is_grouped(
        output::rows(layout, matches, matches.len() as int),
        layout.colors,
    );
}

// ---------------------------------------------------------------------------
// Windows
// ---------------------------------------------------------------------------

/// How the line at `i` shows: as a match where it is selected among the first
/// `seen` lines, else as context.
pub open spec fn line_row(
    layout: Layout,
    slices: Seq<SliceView>,
    c: Compiled,
    options: SearchOptions,
    seen: int,
    i: int,
) -> Row {
    if i < seen && search::selects(c, options, slices[i].text) {
        output::match_row(layout, search::selected_at(slices, i, c, options))
    } else {
        output::context_row(layout, search::as_context(slices[i]))
    }
}

/// The line at `i` stands in the window of a selected line.
pub open spec fn in_a_window(
    slices: Seq<SliceView>,
    c: Compiled,
    options: SearchOptions,
    seen: int,
    i: int,
) -> bool {
    exists|j: int|
        0 <= j < seen && search::selects(c, options, (#[trigger] slices[j]).text) && j
            - options.before <= i <= j + options.after
}

/// The rows of the lines before `k` that `wanted` picks.
pub open spec fn picked(wanted: spec_fn(int) -> bool, row: spec_fn(int) -> Row, k: int) -> Seq<Row>
    decreases k,
{
    if k <= 0 {
        Seq::empty()
    } else if wanted(k - 1) {
        picked(wanted, row, k - 1).push(row(k - 1))
    } else {
        picked(wanted, row, k - 1)
    }
}

/// The rows of the lines `from..to`.
spec fn run(row: spec_fn(int) -> Row, from: int, to: int) -> Seq<Row> {
    Seq::new(
        (if from <= to {
            to - from
        } else {
            0
        }) as nat,
        |k: int| row(from + k),
    )
}

/// The index of the last line in some rows.
spec fn top(done: Seq<Row>) -> int {
    if done.len() == 0 {
        -1
    } else {
        done.last().number - 1
    }
}

spec fn larger(a: int, b: int) -> int {
    if a >= b {
        a
    } else {
        b
    }
}

proof fn lemma_kept_twice(done: Seq<Row>, a: Seq<Row>, b: Seq<Row>)
    ensures
        kept(done, a + b) == kept(kept(done, a), b),
    decreases b.len(),
{
    if b.len() == 0 {
        assert(a + b =~= a);
    } else {
        lemma_kept_twice(done, a, b.drop_last());
        assert((a + b).drop_last() =~= a + b.drop_last());
    }
}

/// Of a window, the rows behind those already there are kept.
proof fn lemma_kept_window(done: Seq<Row>, list: Seq<Row>, low: int, row: spec_fn(int) -> Row)
    requires
        0 <= low,
        forall|k: int| 0 <= k < list.len() ==> (#[trigger] list[k]).number == low + k + 1,
        forall|k: int|
            0 <= k < list.len() && low + k > top(done) ==> #[trigger] list[k] == row(low + k),
    ensures
        kept(done, list) == done + run(row, larger(low, top(done) + 1), low + list.len()),
    decreases list.len(),
{
    let from = larger(low, top(done) + 1);
    if list.len() == 0 {
        assert(done + run(row, from, low + 0) =~= done);
    } else {
        let n = list.len() as int;
        let shorter = list.drop_last();
        assert(forall|k: int| 0 <= k < shorter.len() ==> shorter[k] == list[k]);
        lemma_kept_window(done, shorter, low, row);
        let earlier = kept(done, shorter);
        let tail = run(row, from, low + n - 1);
        assert(earlier == done + tail);
        if tail.len() > 0 {
            assert(earlier.last() == row(low + n - 2));
            assert(list[n - 2] == row(low + n - 2));
        } else {
            assert(earlier =~= done);
        }
        assert(list.last() == list[n - 1]);
        assert(kept(done, list) =~= done + run(row, from, low + n));
    }
}

/// The last row picked is that of the last line wanted.
proof fn lemma_picked_top(
    wanted: spec_fn(int) -> bool,
    row: spec_fn(int) -> Row,
    k: int,
    last: int,
)
    requires
        0 <= last < k,
        wanted(last),
        forall|i: int| i > last ==> !#[trigger] wanted(i),
    ensures
        picked(wanted, row, k).len() > 0,
        picked(wanted, row, k).last() == row(last),
    decreases k,
{
    if k - 1 > last {
        assert(!wanted(k - 1));
        lemma_picked_top(wanted, row, k - 1, last);
    }
}

proof fn lemma_picked_none(wanted: spec_fn(int) -> bool, row: spec_fn(int) -> Row, k: int)
    requires
        forall|i: int| !#[trigger] wanted(i),
    ensures
        picked(wanted, row, k) == Seq::<Row>::empty(),
    decreases k,
{
    if k > 0 {
        lemma_picked_none(wanted, row, k - 1);
    }
}

/// One more window adds the lines behind the last one wanted before.
proof fn lemma_picked_window(
    before: spec_fn(int) -> bool,
    after: spec_fn(int) -> bool,
    row: spec_fn(int) -> Row,
    low: int,
    high: int,
    last: int,
    k: int,
)
    requires
        0 <= low,
        last >= -1,
        forall|i: int| #[trigger] after(i) <==> before(i) || low <= i < high,
        forall|i: int| #[trigger] before(i) ==> i <= last,
        forall|i: int| low <= i < high && i <= last ==> #[trigger] before(i),
    ensures
        picked(after, row, k) == picked(before, row, k) + run(
            row,
            larger(low, last + 1),
            if k <= high {
                k
            } else {
                high
            },
        ),
    decreases k,
{
    let from = larger(low, last + 1);
    if k <= 0 {
        assert(picked(after, row, k) =~= picked(before, row, k) + run(row, from, k));
    } else {
        lemma_picked_window(before, after, row, low, high, last, k - 1);
        assert(after(k - 1) <==> before(k - 1) || low <= k - 1 < high);
        let end = if k <= high {
            k
        } else {
            high
        };
        if k - 1 < from {
            assert(run(row, from, end) =~= Seq::<Row>::empty());
            assert(run(
                row,
                from,
                if k - 1 <= high {
                    k - 1
                } else {
                    high
                },
            ) =~= Seq::<Row>::empty());
        } else {
            assert(!before(k - 1));
        }
        assert(picked(after, row, k) =~= picked(before, row, k) + run(row, from, end));
    }
}

/// The selected lines are those among the first `seen`, in order.
#[verifier::opaque]
spec fn selection(
    slices: Seq<SliceView>,
    c: Compiled,
    options: SearchOptions,
    seen: int,
    matches: Seq<Selected>,
) -> bool {
    &&& 0 <= seen <= slices.len()
    &&& forall|i: int| 0 <= i < slices.len() ==> (#[trigger] slices[i]).number == i + 1
    &&& forall|m: int|
        0 <= m < matches.len() ==> {
            let index = (#[trigger] matches[m]).number - 1;
            &&& 0 <= index < seen
            &&& matches[m] == search::selected_at(slices, index, c, options)
            &&& search::selects(c, options, slices[index].text)
        }
    &&& forall|m: int, n: int|
        0 <= m < n < matches.len() ==> (#[trigger] matches[m]).number < (
        #[trigger] matches[n]).number
    &&& forall|i: int|
        0 <= i < seen && search::selects(c, options, (#[trigger] slices[i]).text)
            ==> matches.contains(search::selected_at(slices, i, c, options))
}

/// The line at `i` stands in the window of one of the first `m` selected
/// lines.
spec fn covered(
    slices: Seq<SliceView>,
    options: SearchOptions,
    matches: Seq<Selected>,
    m: int,
    i: int,
) -> bool {
    0 <= i < slices.len() && exists|t: int|
        0 <= t < m && (#[trigger] matches[t]).number - 1 - options.before <= i
            <= matches[t].number - 1 + options.after
}

/// Where a line is selected, it is found among the selected lines ahead.
proof fn lemma_upcoming(matches: Seq<Selected>, from: int, t: int)
    requires
        0 <= from <= t < matches.len(),
        forall|m: int, n: int|
            0 <= m < n < matches.len() ==> (#[trigger] matches[m]).number < (
            #[trigger] matches[n]).number,
    ensures
        output::upcoming(matches, from, matches[t].number) == Some(t),
    decreases t - from,
{
    if from < t {
        lemma_upcoming(matches, from + 1, t);
    }
}

/// What is found ahead has the number asked for.
proof fn lemma_upcoming_found(matches: Seq<Selected>, from: int, number: nat)
    ensures
        output::upcoming(matches, from, number) matches Some(t) ==> from <= t < matches.len()
            && matches[t].number == number,
    decreases matches.len() - from,
{
    if 0 <= from < matches.len() && matches[from].number < number {
        lemma_upcoming_found(matches, from + 1, number);
    }
}

/// The index of the first line in the window of the selected line at `m`.
spec fn window_start(options: SearchOptions, matches: Seq<Selected>, m: int) -> int {
    larger(0, matches[m].number - 1 - options.before)
}

/// The index behind the last line in the window of the selected line at `m`.
spec fn window_end(
    slices: Seq<SliceView>,
    options: SearchOptions,
    matches: Seq<Selected>,
    m: int,
) -> int {
    if matches[m].number + options.after <= slices.len() {
        matches[m].number + options.after
    } else {
        slices.len() as int
    }
}

/// The index behind the last line in the windows of the first `m` selected
/// lines.
spec fn covered_end(
    slices: Seq<SliceView>,
    options: SearchOptions,
    matches: Seq<Selected>,
    m: int,
) -> int {
    if m == 0 {
        0
    } else {
        window_end(slices, options, matches, m - 1)
    }
}

/// The window of the selected line at `m`, as rows.
spec fn window_rows(layout: Layout, matches: Seq<Selected>, m: int) -> Seq<Row> {
    output::before_rows(layout, matches, m) + seq![output::match_row(layout, matches[m])]
        + output::after_rows(layout, matches, m)
}

/// The rows of a window are those of its lines, but for lines that an earlier
/// window holds.
proof fn lemma_window_rows(
    layout: Layout,
    slices: Seq<SliceView>,
    c: Compiled,
    options: SearchOptions,
    seen: int,
    matches: Seq<Selected>,
    m: int,
)
    requires
        selection(slices, c, options, seen, matches),
        0 <= m < matches.len(),
    ensures
        ({
            let low = window_start(options, matches, m);
            let high = window_end(slices, options, matches, m);
            let list = window_rows(layout, matches, m);
            &&& list.len() == high - low
            &&& forall|k: int| 0 <= k < list.len() ==> (#[trigger] list[k]).number == low + k + 1
            &&& forall|k: int|
                0 <= k < list.len() && (m == 0 || low + k >= matches[m - 1].number)
                    ==> #[trigger] list[k] == line_row(layout, slices, c, options, seen, low + k)
        }),
{
    reveal(selection);
    let here = matches[m].number - 1;
    let entry = matches[m];
    let low = window_start(options, matches, m);
    let list = window_rows(layout, matches, m);
    let b = entry.before.len() as int;
    assert(entry == search::selected_at(slices, here, c, options));
    assert(b == here - low);
    assert forall|k: int| 0 <= k < list.len() implies {
        &&& (#[trigger] list[k]).number == low + k + 1
        &&& (m == 0 || low + k >= matches[m - 1].number) ==> list[k] == line_row(
            layout,
            slices,
            c,
            options,
            seen,
            low + k,
        )
    } by {
        let i = low + k;
        if k < b {
            assert(list[k] == output::context_row(layout, entry.before[k]));
            assert(entry.before[k] == search::as_context(slices[i]));
            if m == 0 || i >= matches[m - 1].number {
                if i < seen && search::selects(c, options, slices[i].text) {
                    let there = search::selected_at(slices, i, c, options);
                    let t = choose|t: int| 0 <= t < matches.len() && matches[t] == there;
                    assert(matches[t].number == i + 1);
                    if t > m {
                        assert(matches[m].number < matches[t].number);
                    } else if t < m - 1 {
                        assert(matches[t].number < matches[m - 1].number);
                    }
                }
            }
        } else if k == b {
            assert(list[k] == output::match_row(layout, entry));
        } else {
            let line = entry.after[k - b - 1];
            assert(list[k] == output::after_row(layout, matches, m, line));
            assert(line == search::as_context(slices[i]));
            lemma_upcoming_found(matches, m + 1, line.number);
            if i < seen && search::selects(c, options, slices[i].text) {
                let there = search::selected_at(slices, i, c, options);
                let t = choose|t: int| 0 <= t < matches.len() && matches[t] == there;
                assert(matches[t].number == i + 1);
                if t < m {
                    assert(matches[t].number < matches[m].number);
                }
                lemma_upcoming(matches, m + 1, t);
            }
        }
    }
}

/// How the windows of the first `m` selected lines grow from those of the
/// first `m - 1`.
proof fn lemma_cover(
    slices: Seq<SliceView>,
    c: Compiled,
    options: SearchOptions,
    seen: int,
    matches: Seq<Selected>,
    m: int,
)
    requires
        selection(slices, c, options, seen, matches),
        0 < m <= matches.len(),
    ensures
        ({
            let low = window_start(options, matches, m - 1);
            let high = window_end(slices, options, matches, m - 1);
            let last = covered_end(slices, options, matches, m - 1) - 1;
            &&& 0 <= low < high <= slices.len()
            &&& m > 1 ==> matches[m - 2].number <= last + 1 <= slices.len() && covered(
                slices,
                options,
                matches,
                m - 1,
                last,
            )
            &&& forall|i: int|
                #[trigger] covered(slices, options, matches, m - 1, i) ==> i <= last
            &&& forall|i: int|
                low <= i < high && i <= last ==> #[trigger] covered(
                    slices,
                    options,
                    matches,
                    m - 1,
                    i,
                )
            &&& forall|i: int|
                #[trigger] covered(slices, options, matches, m, i) <==> covered(
                    slices,
                    options,
                    matches,
                    m - 1,
                    i,
                ) || low <= i < high
        }),
{
    reveal(selection);
    let low = window_start(options, matches, m - 1);
    let high = window_end(slices, options, matches, m - 1);
    let last = covered_end(slices, options, matches, m - 1) - 1;
    assert(matches[m - 1].number <= seen);
    if m > 1 {
        assert(matches[m - 2].number < matches[m - 1].number);
        assert(covered(slices, options, matches, m - 1, last));
    }
    assert forall|i: int| #[trigger] covered(slices, options, matches, m - 1, i) implies i
        <= last by {
        let t = choose|t: int|
            0 <= t < m - 1 && (#[trigger] matches[t]).number - 1 - options.before <= i
                <= matches[t].number - 1 + options.after;
        if t < m - 2 {
            assert(matches[t].number < matches[m - 2].number);
        }
    }
    assert forall|i: int| #[trigger] covered(slices, options, matches, m, i) <==> covered(
        slices,
        options,
        matches,
        m - 1,
        i,
    ) || low <= i < high by {
        if covered(slices, options, matches, m, i) {
            let t = choose|t: int|
                0 <= t < m && (#[trigger] matches[t]).number - 1 - options.before <= i
                    <= matches[t].number - 1 + options.after;
            assert(t < m - 1 || t == m - 1);
        }
    }
}

proof fn lemma_shown(
    layout: Layout,
    slices: Seq<SliceView>,
    c: Compiled,
    options: SearchOptions,
    seen: int,
    matches: Seq<Selected>,
    m: int,
)
    requires
        selection(slices, c, options, seen, matches),
        0 <= m <= matches.len(),
    ensures
        kept(Seq::empty(), output::rows(layout, matches, m)) == picked(
            |i: int| covered(slices, options, matches, m, i),
            |i: int| line_row(layout, slices, c, options, seen, i),
            slices.len() as int,
        ),
    decreases m,
{
    let total = slices.len() as int;
    let row = |i: int| line_row(layout, slices, c, options, seen, i);
    let wanted = |i: int| covered(slices, options, matches, m, i);
    if m == 0 {
        lemma_picked_none(wanted, row, total);
    } else {
        lemma_shown(layout, slices, c, options, seen, matches, m - 1);
        let earlier = |i: int| covered(slices, options, matches, m - 1, i);
        let done = picked(earlier, row, total);
        let low = window_start(options, matches, m - 1);
        let high = window_end(slices, options, matches, m - 1);
        let list = window_rows(layout, matches, m - 1);
        let last = covered_end(slices, options, matches, m - 1) - 1;
        lemma_cover(slices, c, options, seen, matches, m);
        if m == 1 {
            lemma_picked_none(earlier, row, total);
        } else {
            lemma_picked_top(earlier, row, total, last);
            lemma_line_row_number(layout, slices, c, options, seen, matches, last);
        }
        assert(top(done) == last);
        lemma_window_rows(layout, slices, c, options, seen, matches, m - 1);
        lemma_kept_window(done, list, low, row);
        lemma_picked_window(earlier, wanted, row, low, high, last, total);
        lemma_kept_twice(Seq::empty(), output::rows(layout, matches, m - 1), list);
        assert(output::rows(layout, matches, m) =~= output::rows(layout, matches, m - 1) + list);
    }
}

proof fn lemma_line_row_number(
    layout: Layout,
    slices: Seq<SliceView>,
    c: Compiled,
    options: SearchOptions,
    seen: int,
    matches: Seq<Selected>,
    i: int,
)
    requires
        selection(slices, c, options, seen, matches),
        0 <= i < slices.len(),
    ensures
        line_row(layout, slices, c, options, seen, i).number == i + 1,
{
    reveal(selection);
}

/// A search result is rendered as `grep -C` does it: printed are the lines in
/// the window of some selected line, each once and in the order of the file;
/// the selected ones show as matches, the others as context; separators stand
/// exactly where lines are skipped.
pub proof fn law_context_windows_merge(
    layout: Layout,
    text: Seq<char>,
    c: Compiled,
    options: SearchOptions,
)
    ensures
        ({
            let result = search::scan(layout.path, text, c, options);
            let slices = lines::slices(text);
            let seen = result.lines_scanned as int;
            output::lines_text(layout, result.matches) == grouped(
                picked(
                    |i: int| in_a_window(slices, c, options, seen, i),
                    |i: int| line_row(layout, slices, c, options, seen, i),
                    slices.len() as int,
                ),
                layout.colors,
            )
        }),
{
    let result = search::scan(layout.path, text, c, options);
    let matches = result.matches;
    let slices = lines::slices(text);
    let seen = result.lines_scanned as int;
    search::laws::law_selected_lines_are_exactly_the_matching_ones(layout.path, text, c, options);
    search::laws::law_limit_stops_the_scan(layout.path, text, c, options);
    lemma_page_is_grouped(output::rows(layout, matches, matches.len() as int), layout.colors);
    assert(selection(slices, c, options, seen, matches)) by {
        reveal(selection);
    }
    lemma_shown(layout, slices, c, options, seen, matches, matches.len() as int);
    let row = |i: int| line_row(layout, slices, c, options, seen, i);
    let wanted = |i: int| in_a_window(slices, c, options, seen, i);
    let held = |i: int| covered(slices, options, matches, matches.len() as int, i);
    lemma_windows_cover(layout.path, text, c, options);
    lemma_picked_same(wanted, held, row, slices.len() as int);
}

/// The windows of the lines that should be selected are those of the selected
/// ones.
proof fn lemma_windows_cover(
    path: Seq<char>,
    text: Seq<char>,
    c: Compiled,
    options: SearchOptions,
)
    ensures
        ({
            let result = search::scan(path, text, c, options);
            let (slices, matches) = (lines::slices(text), result.matches);
            let wanted = |i: int| in_a_window(slices, c, options, result.lines_scanned as int, i);
            let held = |i: int| covered(slices, options, matches, matches.len() as int, i);
            forall|i: int| 0 <= i < slices.len() ==> #[trigger] wanted(i) == held(i)
        }),
{
    let result = search::scan(path, text, c, options);
    let (slices, matches) = (lines::slices(text), result.matches);
    let seen = result.lines_scanned as int;
    let wanted = |i: int| in_a_window(slices, c, options, seen, i);
    let held = |i: int| covered(slices, options, matches, matches.len() as int, i);
    search::laws::law_selected_lines_are_exactly_the_matching_ones(path, text, c, options);
    search::laws::law_limit_stops_the_scan(path, text, c, options);
    assert forall|i: int| 0 <= i < slices.len() implies #[trigger] wanted(i) == held(i) by {
        if wanted(i) {
            let j = choose|j: int|
                0 <= j < seen && search::selects(c, options, (#[trigger] slices[j]).text) && j
                    - options.before <= i <= j + options.after;
            let there = search::selected_at(slices, j, c, options);
            let t = choose|t: int| 0 <= t < matches.len() && matches[t] == there;
            assert(matches[t].number == j + 1);
        }
        if held(i) {
            let t = choose|t: int|
                0 <= t < matches.len() && (#[trigger] matches[t]).number - 1 - options.before <= i
                    <= matches[t].number - 1 + options.after;
            assert(search::selects(c, options, slices[matches[t].number - 1].text));
        }
    }
}

/// Some row has the number `n`.
pub open spec fn shows_line(list: Seq<Row>, n: int) -> bool {
    exists|k: int| 0 <= k < list.len() && (#[trigger] list[k]).number == n
}

/// The line with the number `n` is selected.
pub open spec fn selects_line(matches: Seq<Selected>, n: int) -> bool {
    exists|t: int| 0 <= t < matches.len() && (#[trigger] matches[t]).number == n
}

/// The line with the number `n` stands among some lines of context.
pub open spec fn among(list: Seq<Context>, n: int) -> bool {
    exists|k: int| 0 <= k < list.len() && (#[trigger] list[k]).number == n
}

/// The line with the number `n` is selected, or it stands before or behind a
/// selected line as its context.
pub open spec fn concerns_line(matches: Seq<Selected>, n: int) -> bool {
    exists|t: int|
        0 <= t < matches.len() && ((#[trigger] matches[t]).number == n || among(
            matches[t].before,
            n,
        ) || among(matches[t].after, n))
}

proof fn lemma_picked_numbers(
    wanted: spec_fn(int) -> bool,
    row: spec_fn(int) -> Row,
    k: int,
    n: int,
)
    requires
        0 <= k,
        forall|i: int| 0 <= i < k ==> (#[trigger] row(i)).number == i + 1,
    ensures
        shows_line(picked(wanted, row, k), n) <==> 1 <= n <= k && wanted(n - 1),
    decreases k,
{
    if k > 0 {
        lemma_picked_numbers(wanted, row, k - 1, n);
        let earlier = picked(wanted, row, k - 1);
        let all = picked(wanted, row, k);
        if shows_line(all, n) {
            let t = choose|t: int| 0 <= t < all.len() && (#[trigger] all[t]).number == n;
            if t < earlier.len() {
                assert(earlier[t] == all[t]);
            } else {
                assert(all[t] == row(k - 1));
            }
        }
        if shows_line(earlier, n) {
            let t = choose|t: int| 0 <= t < earlier.len() && (#[trigger] earlier[t]).number == n;
            assert(all[t] == earlier[t]);
        }
        if n == k && wanted(k - 1) {
            assert(all[all.len() - 1] == row(k - 1));
        }
    }
}

/// The windows of the selected lines are their context.
proof fn lemma_concerned(
    path: Seq<char>,
    text: Seq<char>,
    c: Compiled,
    options: SearchOptions,
    n: int,
)
    ensures
        ({
            let result = search::scan(path, text, c, options);
            let slices = lines::slices(text);
            concerns_line(result.matches, n) <==> 1 <= n <= slices.len() && in_a_window(
                slices,
                c,
                options,
                result.lines_scanned as int,
                n - 1,
            )
        }),
{
    let result = search::scan(path, text, c, options);
    let matches = result.matches;
    let slices = lines::slices(text);
    let seen = result.lines_scanned as int;
    let i = n - 1;
    search::laws::law_selected_lines_are_exactly_the_matching_ones(path, text, c, options);
    search::laws::law_limit_stops_the_scan(path, text, c, options);
    if concerns_line(matches, n) {
        let t = choose|t: int|
            0 <= t < matches.len() && ((#[trigger] matches[t]).number == n || among(
                matches[t].before,
                n,
            ) || among(matches[t].after, n));
        let j = matches[t].number - 1;
        search::laws::law_context_surrounds_the_line(slices, j, c, options);
        assert(search::selects(c, options, slices[j].text));
        assert(0 <= i < slices.len() && j - options.before <= i <= j + options.after);
    }
    if 0 <= i < slices.len() && in_a_window(slices, c, options, seen, i) {
        let j = choose|j: int|
            0 <= j < seen && search::selects(c, options, (#[trigger] slices[j]).text) && j
                - options.before <= i <= j + options.after;
        search::laws::law_context_surrounds_the_line(slices, j, c, options);
        let there = search::selected_at(slices, j, c, options);
        assert(matches.contains(there));
        let t = choose|t: int| 0 <= t < matches.len() && matches[t] == there;
        if i < j {
            let k = i - (j - there.before.len());
            assert(there.before[k].number == n);
        } else if i > j {
            assert(there.after[i - j - 1].number == n);
        }
        assert(matches[t].number == n || among(matches[t].before, n) || among(
            matches[t].after,
            n,
        ));
    }
}

/// What is printed of a search result in whole lines: the numbers rise from
/// row to row, they are exactly those of the selected lines and of their
/// context, and a separator stands between two rows exactly where lines are
/// skipped, never first and never last.
pub proof fn law_printed_lines_are_those_of_the_windows(
    layout: Layout,
    text: Seq<char>,
    c: Compiled,
    options: SearchOptions,
)
    requires
        !layout.options.json,
        !layout.options.files_with_matches,
        !layout.options.count_only,
        !layout.options.only_matching,
    ensures
        ({
            let matches = search::scan(layout.path, text, c, options).matches;
            let shown = kept(
                Seq::empty(),
                output::rows(layout, matches, matches.len() as int),
            );
            &&& output::rendering(layout, matches) == grouped(shown, layout.colors)
            &&& ascending(shown)
            &&& forall|n: int| #[trigger] shows_line(shown, n) <==> concerns_line(matches, n)
            &&& forall|n: int| #[trigger] selects_line(matches, n) ==> shows_line(shown, n)
        }),
{
    let result = search::scan(layout.path, text, c, options);
    let matches = result.matches;
    let slices = lines::slices(text);
    let seen = result.lines_scanned as int;
    let total = slices.len() as int;
    lemma_page_is_grouped(output::rows(layout, matches, matches.len() as int), layout.colors);
    search::laws::law_selected_lines_are_exactly_the_matching_ones(layout.path, text, c, options);
    search::laws::law_limit_stops_the_scan(layout.path, text, c, options);
    assert(selection(slices, c, options, seen, matches)) by {
        reveal(selection);
    }
    lemma_shown(layout, slices, c, options, seen, matches, matches.len() as int);
    let row = |i: int| line_row(layout, slices, c, options, seen, i);
    let wanted = |i: int| in_a_window(slices, c, options, seen, i);
    let held = |i: int| covered(slices, options, matches, matches.len() as int, i);
    lemma_windows_cover(layout.path, text, c, options);
    lemma_picked_same(wanted, held, row, total);
    assert forall|i: int| 0 <= i < total implies (#[trigger] row(i)).number == i + 1 by {
        lemma_line_row_number(layout, slices, c, options, seen, matches, i);
    }
    let shown = picked(wanted, row, total);
    assert forall|n: int| #[trigger] shows_line(shown, n) <==> concerns_line(matches, n) by {
        lemma_picked_numbers(wanted, row, total, n);
        lemma_concerned(layout.path, text, c, options, n);
    }
    assert forall|n: int| #[trigger] selects_line(matches, n) implies shows_line(shown, n) by {
        assert(concerns_line(matches, n));
        assert(shows_line(shown, n) <==> concerns_line(matches, n));
    }
}

proof fn lemma_picked_same(
    a: spec_fn(int) -> bool,
    b: spec_fn(int) -> bool,
    row: spec_fn(int) -> Row,
    k: int,
)
    requires
        forall|i: int| 0 <= i < k ==> #[trigger] a(i) == b(i),
    ensures
        picked(a, row, k) == picked(b, row, k),
    decreases k,
{
    if k > 0 {
        assert(a(k - 1) == b(k - 1));
        lemma_picked_same(a, b, row, k - 1);
    }
}

// ---------------------------------------------------------------------------
// JSON
// ---------------------------------------------------------------------------

/// How many line breaks a text holds.
pub open spec fn line_breaks(s: Seq<char>) -> nat
    decreases s.len(),
{
    if s.len() == 0 {
        0
    } else {
        line_breaks(s.drop_last()) + (if s.last() == '\n' {
            1nat
        } else {
            0
        })
    }
}

proof fn lemma_line_breaks(a: Seq<char>, b: Seq<char>)
    requires
        json::one_line(b),
    ensures
        line_breaks(a + b) == line_breaks(a),
    decreases b.len(),
{
    if b.len() == 0 {
        assert(a + b =~= a);
    } else {
        assert((a + b).drop_last() =~= a + b.drop_last());
        assert(!json::control(b[b.len() - 1]));
        assert forall|k: int| 0 <= k < b.drop_last().len() implies !json::control(
            #[trigger] b.drop_last()[k],
        ) by {
            assert(!json::control(b[k]));
        }
        lemma_line_breaks(a, b.drop_last());
    }
}

proof fn lemma_object_one_line(members: Seq<Seq<char>>)
    requires
        forall|i: int| 0 <= i < members.len() ==> json::one_line(#[trigger] members[i]),
    ensures
        json::one_line(json::object_text(members)),
{
    json::lemma_joined_one_line(members, members.len() as int);
}

proof fn lemma_member_one_line(key: Seq<char>, value: Seq<char>)
    requires
        json::one_line(value),
    ensures
        json::one_line(json::member_text(key, value)),
{
    json::lemma_escaped_one_line(key);
}

proof fn lemma_range_one_line(entry: Selected, span: (int, int))
    ensures
        json::one_line(output::range_text(entry, span)),
{
    let (start, end) = (
        output::byte_at(entry.text, span.0),
        output::byte_at(entry.text, span.1),
    );
    let matched = json::quoted(output::part(entry.text, span));
    json::lemma_decimal_one_line(start);
    json::lemma_decimal_one_line(end);
    json::lemma_decimal_one_line(entry.offset + start);
    json::lemma_escaped_one_line(output::part(entry.text, span));
    lemma_member_one_line("start"@, text::decimal(start));
    lemma_member_one_line("end"@, text::decimal(end));
    lemma_member_one_line("offset"@, text::decimal(entry.offset + start));
    lemma_member_one_line("text"@, matched);
    lemma_object_one_line(
        seq![
            json::member_text("start"@, text::decimal(start)),
            json::member_text("end"@, text::decimal(end)),
            json::member_text("offset"@, text::decimal(entry.offset + start)),
            json::member_text("text"@, matched),
        ],
    );
}

proof fn lemma_ranges_one_line(entry: Selected, k: int)
    requires
        0 <= k <= entry.spans.len(),
    ensures
        forall|i: int|
            0 <= i < output::range_texts(entry, k).len() ==> json::one_line(
                #[trigger] output::range_texts(entry, k)[i],
            ),
    decreases k,
{
    if k > 0 {
        lemma_ranges_one_line(entry, k - 1);
        lemma_range_one_line(entry, entry.spans[k - 1]);
        let earlier = output::range_texts(entry, k - 1);
        let now = output::range_texts(entry, k);
        assert forall|i: int| 0 <= i < now.len() implies json::one_line(#[trigger] now[i]) by {
            if i < earlier.len() {
                assert(now[i] == earlier[i]);
                assert(json::one_line(earlier[i]));
            }
        }
    }
}

proof fn lemma_entry_one_line(path: Seq<char>, entry: Selected)
    ensures
        json::one_line(output::entry_text(path, entry)),
{
    let ranges = output::range_texts(entry, entry.spans.len() as int);
    lemma_ranges_one_line(entry, entry.spans.len() as int);
    json::lemma_joined_one_line(ranges, ranges.len() as int);
    json::lemma_decimal_one_line(entry.number);
    json::lemma_decimal_one_line(entry.offset);
    json::lemma_escaped_one_line(path);
    json::lemma_escaped_one_line(entry.text);
    lemma_member_one_line("path"@, json::quoted(path));
    lemma_member_one_line("line"@, text::decimal(entry.number));
    lemma_member_one_line("offset"@, text::decimal(entry.offset));
    lemma_member_one_line("text"@, json::quoted(entry.text));
    lemma_member_one_line("matches"@, json::array_text(ranges));
    lemma_object_one_line(
        seq![
            json::member_text("path"@, json::quoted(path)),
            json::member_text("line"@, text::decimal(entry.number)),
            json::member_text("offset"@, text::decimal(entry.offset)),
            json::member_text("text"@, json::quoted(entry.text)),
            json::member_text("matches"@, json::array_text(ranges)),
        ],
    );
}

/// JSON output is one object per line and one line per selected line, whatever
/// the path and the lines hold.
pub proof fn law_json_is_one_object_per_line(path: Seq<char>, matches: Seq<Selected>, k: int)
    requires
        0 <= k <= matches.len(),
    ensures
        line_breaks(output::entries_text(path, matches, k)) == k,
        forall|i: int|
            0 <= i < matches.len() ==> json::one_line(
                output::entry_text(path, #[trigger] matches[i]),
            ),
    decreases k,
{
    assert forall|i: int| 0 <= i < matches.len() implies json::one_line(
        output::entry_text(path, #[trigger] matches[i]),
    ) by {
        lemma_entry_one_line(path, matches[i]);
    }
    if k > 0 {
        let earlier = output::entries_text(path, matches, k - 1);
        let here = output::entry_text(path, matches[k - 1]);
        law_json_is_one_object_per_line(path, matches, k - 1);
        lemma_line_breaks(earlier, here);
        assert((earlier + here + seq!['\n']).drop_last() =~= earlier + here);
    }
}

// ---------------------------------------------------------------------------
// Spans
// ---------------------------------------------------------------------------

/// What a search finds in a text of representable size can be rendered in
/// every mode.
pub proof fn law_search_results_can_be_rendered(
    path: Seq<char>,
    text: Seq<char>,
    c: Compiled,
    search_options: SearchOptions,
    options: RenderOptions,
)
    requires
        text::byte_len(text) <= usize::MAX,
    ensures
        output::renderable(options, search::scan(path, text, c, search_options).matches),
{
    let matches = search::scan(path, text, c, search_options).matches;
    let slices = lines::slices(text);
    search::laws::law_selected_lines_are_exactly_the_matching_ones(
        path,
        text,
        c,
        search_options,
    );
    search::laws::law_limit_stops_the_scan(path, text, c, search_options);
    assert forall|m: int| 0 <= m < matches.len() implies output::sound_entry(
        options,
        #[trigger] matches[m],
    ) by {
        let index = matches[m].number - 1;
        let entry = matches[m];
        assert(entry == search::selected_at(slices, index, c, search_options));
        lines::law_byte_ranges_hold_the_line(text, index);
        if !search_options.invert {
            search::laws::law_spans_lie_in_the_line(slices, index, c, search_options);
            assert forall|k: int| 0 <= k < entry.spans.len() implies output::sound(
                options,
                entry,
                #[trigger] entry.spans[k],
            ) by {
                text::lemma_byte_len_split(entry.text, entry.spans[k].0);
            }
        }
    }
}

// ---------------------------------------------------------------------------
// Context
// ---------------------------------------------------------------------------

/// A selected line without its context windows.
pub open spec fn bare(entry: Selected) -> Selected {
    Selected { before: Seq::empty(), after: Seq::empty(), ..entry }
}

/// Two scans select the same lines, perhaps with different windows.
pub open spec fn same_lines(a: Seq<Selected>, b: Seq<Selected>) -> bool {
    &&& a.len() == b.len()
    &&& forall|k: int| 0 <= k < a.len() ==> bare(#[trigger] a[k]) == bare(b[k])
}

proof fn lemma_bare_parts(layout: Layout, a: Selected, b: Selected, k: int)
    requires
        bare(a) == bare(b),
        k <= a.spans.len(),
    ensures
        output::span_rows(layout, a, k) == output::span_rows(layout, b, k),
        output::range_texts(a, k) == output::range_texts(b, k),
    decreases k,
{
    assert(bare(a).number == bare(b).number && bare(a).offset == bare(b).offset);
    assert(bare(a).text == bare(b).text && bare(a).spans == bare(b).spans);
    if k > 0 {
        lemma_bare_parts(layout, a, b, k - 1);
    }
}

proof fn lemma_same_lines(layout: Layout, a: Seq<Selected>, b: Seq<Selected>, k: int)
    requires
        same_lines(a, b),
        k <= a.len(),
    ensures
        output::parts_text(layout, a, k) == output::parts_text(layout, b, k),
        output::entries_text(layout.path, a, k) == output::entries_text(layout.path, b, k),
    decreases k,
{
    if k > 0 {
        lemma_same_lines(layout, a, b, k - 1);
        let (one, other) = (a[k - 1], b[k - 1]);
        assert(bare(one) == bare(other));
        assert(bare(one).number == bare(other).number && bare(one).offset == bare(other).offset);
        assert(bare(one).text == bare(other).text && bare(one).spans == bare(other).spans);
        lemma_bare_parts(layout, one, other, one.spans.len() as int);
        assert(output::entry_text(layout.path, one) == output::entry_text(layout.path, other));
    }
}

/// Context shows with whole lines of text only: matched parts, counts, file
/// lists and JSON lines ignore the context windows.
pub proof fn law_context_shows_with_whole_lines_only(
    layout: Layout,
    a: Seq<Selected>,
    b: Seq<Selected>,
)
    requires
        same_lines(a, b),
        layout.options.json || layout.options.files_with_matches || layout.options.count_only
            || layout.options.only_matching,
    ensures
        output::rendering(layout, a) == output::rendering(layout, b),
{
    lemma_same_lines(layout, a, b, a.len() as int);
}

// ---------------------------------------------------------------------------
// Matched parts
// ---------------------------------------------------------------------------

/// The flags ask for plain text of the matched parts.
pub open spec fn shows_parts(options: RenderOptions) -> bool {
    options.only_matching && !options.json && !options.files_with_matches && !options.count_only
}

proof fn lemma_parts_joined(layout: Layout, a: Seq<Selected>, b: Seq<Selected>, k: int)
    requires
        0 <= k <= b.len(),
    ensures
        output::parts_text(layout, a + b, a.len() + k) == output::parts_text(
            layout,
            a,
            a.len() as int,
        ) + output::parts_text(layout, b, k),
    decreases k,
{
    let both = a + b;
    let front = output::parts_text(layout, a, a.len() as int);
    if k == 0 {
        lemma_parts_prefix(layout, a, b, a.len() as int);
        assert(front + Seq::<char>::empty() =~= front);
    } else {
        lemma_parts_joined(layout, a, b, k - 1);
        assert(both[a.len() + k - 1] == b[k - 1]);
        let rows = output::span_rows(layout, b[k - 1], b[k - 1].spans.len() as int);
        assert(front + output::parts_text(layout, b, k - 1) + rows =~= front + (
        output::parts_text(layout, b, k - 1) + rows));
    }
}

proof fn lemma_parts_prefix(layout: Layout, a: Seq<Selected>, b: Seq<Selected>, k: int)
    requires
        0 <= k <= a.len(),
    ensures
        output::parts_text(layout, a + b, k) == output::parts_text(layout, a, k),
    decreases k,
{
    if k > 0 {
        lemma_parts_prefix(layout, a, b, k - 1);
        assert((a + b)[k - 1] == a[k - 1]);
    }
}

/// With the matched parts alone, no line bears on another: what is printed of
/// some lines and then some more is what is printed of the first, followed by
/// what is printed of the others.
pub proof fn law_matched_parts_are_printed_line_by_line(
    layout: Layout,
    a: Seq<Selected>,
    b: Seq<Selected>,
)
    requires
        shows_parts(layout.options),
    ensures
        output::rendering(layout, a + b) == output::rendering(layout, a) + output::rendering(
            layout,
            b,
        ),
        output::rendering(layout, Seq::empty()).len() == 0,
{
    lemma_parts_joined(layout, a, b, b.len() as int);
}

/// `rows` one after the other, each with a line break behind it.
pub open spec fn stacked(rows: Seq<Seq<char>>) -> Seq<char>
    decreases rows.len(),
{
    if rows.len() == 0 {
        Seq::empty()
    } else {
        stacked(rows.drop_last()) + rows.last() + seq!['\n']
    }
}

/// The rows of the matched parts of one line.
spec fn part_rows(layout: Layout, entry: Selected, k: int) -> Seq<Seq<char>> {
    Seq::new(
        k as nat,
        |i: int|
            output::prefix(
                layout,
                entry.offset + output::byte_at(entry.text, entry.spans[i].0),
                entry.number,
                ':',
            ) + layout.colors.painted(
                layout.colors.matched,
                output::part(entry.text, entry.spans[i]),
            ),
    )
}

proof fn lemma_part_rows(layout: Layout, entry: Selected, k: int)
    requires
        0 <= k <= entry.spans.len(),
    ensures
        output::span_rows(layout, entry, k) == stacked(part_rows(layout, entry, k)),
    decreases k,
{
    if k > 0 {
        lemma_part_rows(layout, entry, k - 1);
        let rows = part_rows(layout, entry, k);
        assert(rows.drop_last() =~= part_rows(layout, entry, k - 1));
        assert(output::span_rows(layout, entry, k) =~= stacked(rows.drop_last()) + rows.last()
            + seq!['\n']);
    }
}

/// A text in a color, where color is asked for.
pub open spec fn tinted(options: RenderOptions, code: Seq<char>, s: Seq<char>) -> Seq<char> {
    if options.color {
        code + s + "\x1b[0m"@
    } else {
        s
    }
}

/// What stands in front of a line: the path, the offset in the file and the
/// number of the line, in this order, each where it is asked for.
pub open spec fn front(
    options: RenderOptions,
    path: Seq<char>,
    offset: nat,
    number: nat,
    marker: char,
) -> Seq<char> {
    (if options.with_filename {
        tinted(options, "\x1b[1;35m"@, path) + seq![':']
    } else {
        Seq::empty()
    }) + (if options.byte_offset {
        tinted(options, "\x1b[1;32m"@, text::decimal(offset)) + seq![marker]
    } else {
        Seq::empty()
    }) + (if options.line_numbers {
        tinted(options, "\x1b[1;32m"@, text::decimal(number)) + seq![marker]
    } else {
        Seq::empty()
    })
}

/// The layout that the flags ask for.
pub open spec fn laid_out(options: RenderOptions, path: Seq<char>) -> Layout {
    Layout { options, colors: output::colors_of(options.color), path }
}

proof fn lemma_tinted(options: RenderOptions, s: Seq<char>)
    ensures
        ({
            let colors = output::colors_of(options.color);
            &&& colors.painted(colors.path, s) == tinted(options, "\x1b[1;35m"@, s)
            &&& colors.painted(colors.line_number, s) == tinted(options, "\x1b[1;32m"@, s)
            &&& colors.painted(colors.separator, s) == tinted(options, "\x1b[36m"@, s)
            &&& colors.painted(colors.matched, s) == tinted(options, "\x1b[1;31m"@, s)
        }),
{
    reveal_strlit("");
    reveal_strlit("\x1b[1;35m");
    reveal_strlit("\x1b[1;32m");
    reveal_strlit("\x1b[1;31m");
    reveal_strlit("\x1b[36m");
    reveal_strlit("\x1b[0m");
}

proof fn lemma_front(
    options: RenderOptions,
    path: Seq<char>,
    offset: nat,
    number: nat,
    marker: char,
)
    ensures
        output::prefix(laid_out(options, path), offset, number, marker) == front(
            options,
            path,
            offset,
            number,
            marker,
        ),
{
    lemma_tinted(options, path);
    lemma_tinted(options, text::decimal(offset));
    lemma_tinted(options, text::decimal(number));
}

/// With the matched parts alone, a line gives as many rows as it has spans, and
/// row `k` ends in the text of span `k`: in front of it stand the path, the
/// offset of the span in the file and the number of the line, each where it is
/// asked for, and nothing else.
pub proof fn law_matched_parts_are_one_row_per_span(
    options: RenderOptions,
    path: Seq<char>,
    entry: Selected,
)
    requires
        shows_parts(options),
        forall|k: int|
            0 <= k < entry.spans.len() ==> 0 <= (#[trigger] entry.spans[k]).0 <= entry.spans[k].1
                <= entry.text.len(),
    ensures
        exists|rows: Seq<Seq<char>>|
            {
                &&& output::rendering(laid_out(options, path), seq![entry]) == #[trigger] stacked(
                    rows,
                )
                &&& rows.len() == entry.spans.len()
                &&& forall|k: int|
                    0 <= k < rows.len() ==> #[trigger] rows[k] == front(
                        options,
                        path,
                        entry.offset + text::byte_len(entry.text.take(entry.spans[k].0)),
                        entry.number,
                        ':',
                    ) + tinted(
                        options,
                        "\x1b[1;31m"@,
                        entry.text.subrange(entry.spans[k].0, entry.spans[k].1),
                    )
            },
{
    let layout = laid_out(options, path);
    let n = entry.spans.len() as int;
    let rows = part_rows(layout, entry, n);
    lemma_part_rows(layout, entry, n);
    let all = seq![entry];
    assert(output::parts_text(layout, all, 0) =~= Seq::<char>::empty());
    assert(all[0] == entry);
    assert(output::parts_text(layout, all, 1) =~= output::span_rows(layout, entry, n));
    assert forall|k: int| 0 <= k < rows.len() implies #[trigger] rows[k] == front(
        options,
        path,
        entry.offset + text::byte_len(entry.text.take(entry.spans[k].0)),
        entry.number,
        ':',
    ) + tinted(
        options,
        "\x1b[1;31m"@,
        entry.text.subrange(entry.spans[k].0, entry.spans[k].1),
    ) by {
        let span = entry.spans[k];
        lemma_front(
            options,
            path,
            entry.offset + text::byte_len(entry.text.take(span.0)),
            entry.number,
            ':',
        );
        lemma_tinted(options, entry.text.subrange(span.0, span.1));
    }
    assert(output::rendering(layout, seq![entry]) == stacked(rows));
}

// ---------------------------------------------------------------------------
// Whole lines, counts and names
// ---------------------------------------------------------------------------

/// A selected line is shown behind its path, offset and number, with `:`
/// behind the numbers; a line of context likewise, with `-` behind them. The
/// two groups of lines around a gap are kept apart by `--`.
pub proof fn law_rows_show_path_offset_and_number(
    options: RenderOptions,
    path: Seq<char>,
    entry: Selected,
    line: Context,
)
    ensures
        ({
            let layout = laid_out(options, path);
            &&& output::match_row(layout, entry).number == entry.number
            &&& output::match_row(layout, entry).text == front(
                options,
                path,
                entry.offset,
                entry.number,
                ':',
            ) + highlight::highlighted(entry.text, entry.spans, layout.colors) + seq!['\n']
            &&& output::context_row(layout, line).number == line.number
            &&& output::context_row(layout, line).text == front(
                options,
                path,
                line.offset,
                line.number,
                '-',
            ) + line.text + seq!['\n']
            &&& output::separator(layout.colors) == tinted(options, "\x1b[36m"@, "--"@)
                + seq!['\n']
        }),
{
    lemma_front(options, path, entry.offset, entry.number, ':');
    lemma_front(options, path, line.offset, line.number, '-');
    lemma_tinted(options, "--"@);
}

/// The modes beat one another: names of files, then counts, then matched
/// parts, then whole lines. In text and in JSON, names show files with a
/// selected line alone, and counts show every file with the number of its
/// selected lines.
pub proof fn law_names_and_counts(options: RenderOptions, path: Seq<char>, matches: Seq<Selected>)
    ensures
        ({
            let shown = output::rendering(laid_out(options, path), matches);
            &&& options.files_with_matches && matches.len() == 0 ==> shown.len() == 0
            &&& options.files_with_matches && matches.len() > 0 ==> shown == (if options.json {
                "{\"path\":"@ + json::quoted(path) + "}"@
            } else {
                tinted(options, "\x1b[1;35m"@, path)
            }) + seq!['\n']
            &&& !options.files_with_matches && options.count_only ==> shown == (if options.json {
                "{\"path\":"@ + json::quoted(path) + ",\"matches\":"@ + text::decimal(
                    matches.len(),
                ) + "}"@
            } else if options.with_filename {
                tinted(options, "\x1b[1;35m"@, path) + seq![':'] + text::decimal(matches.len())
            } else {
                text::decimal(matches.len())
            }) + seq!['\n']
        }),
{
    lemma_tinted(options, path);
    reveal_strlit("path");
    reveal_strlit("matches");
    reveal_strlit("{\"path\":");
    reveal_strlit(",\"matches\":");
    reveal_strlit("}");
    json::lemma_plain("path"@);
    json::lemma_plain("matches"@);
    let first = json::member_text("path"@, json::quoted(path));
    let second = json::member_text("matches"@, text::decimal(matches.len()));
    assert(json::quoted("path"@) =~= seq!['"', 'p', 'a', 't', 'h', '"']);
    assert(json::quoted("matches"@) =~= seq!['"', 'm', 'a', 't', 'c', 'h', 'e', 's', '"']);
    let one = seq![first];
    let two = seq![first, second];
    assert(json::joined(one, 1) == first);
    assert(json::joined(two, 1) == first);
    assert(json::joined(two, 2) == first + seq![','] + second);
    assert(output::path_text(path) =~= "{\"path\":"@ + json::quoted(path) + "}"@);
    assert(output::count_text(path, matches.len()) =~= "{\"path\":"@ + json::quoted(path)
        + ",\"matches\":"@ + text::decimal(matches.len()) + "}"@);
}

// ---------------------------------------------------------------------------
// JSON objects
// ---------------------------------------------------------------------------

/// The flags ask for one JSON object per selected line.
pub open spec fn shows_objects(options: RenderOptions) -> bool {
    options.json && !options.files_with_matches && !options.count_only
}

proof fn lemma_entries_prefix(path: Seq<char>, a: Seq<Selected>, b: Seq<Selected>, k: int)
    requires
        0 <= k <= a.len(),
    ensures
        output::entries_text(path, a + b, k) == output::entries_text(path, a, k),
    decreases k,
{
    if k > 0 {
        lemma_entries_prefix(path, a, b, k - 1);
        assert((a + b)[k - 1] == a[k - 1]);
    }
}

proof fn lemma_entries_joined(path: Seq<char>, a: Seq<Selected>, b: Seq<Selected>, k: int)
    requires
        0 <= k <= b.len(),
    ensures
        output::entries_text(path, a + b, a.len() + k) == output::entries_text(
            path,
            a,
            a.len() as int,
        ) + output::entries_text(path, b, k),
    decreases k,
{
    let front = output::entries_text(path, a, a.len() as int);
    if k == 0 {
        lemma_entries_prefix(path, a, b, a.len() as int);
        assert(front + Seq::<char>::empty() =~= front);
    } else {
        lemma_entries_joined(path, a, b, k - 1);
        assert((a + b)[a.len() + k - 1] == b[k - 1]);
        let less = output::entries_text(path, b, k - 1);
        let last = output::entry_text(path, b[k - 1]);
        assert(front + less + last + seq!['\n'] =~= front + (less + last + seq!['\n']));
    }
}

/// JSON shows every selected line on its own: what is printed of some lines and
/// then some more is what is printed of the first, followed by what is printed
/// of the others.
pub proof fn law_objects_are_printed_line_by_line(
    layout: Layout,
    a: Seq<Selected>,
    b: Seq<Selected>,
)
    requires
        shows_objects(layout.options),
    ensures
        output::rendering(layout, a + b) == output::rendering(layout, a) + output::rendering(
            layout,
            b,
        ),
        output::rendering(layout, Seq::empty()).len() == 0,
{
    lemma_entries_joined(layout.path, a, b, b.len() as int);
}

/// The object of one span: where it starts and ends in the bytes of its line,
/// where it starts in the file, and its text.
pub open spec fn span_object(entry: Selected, span: (int, int)) -> Seq<char> {
    let start = text::byte_len(entry.text.take(span.0));
    let end = text::byte_len(entry.text.take(span.1));
    "{\"start\":"@ + text::decimal(start) + ",\"end\":"@ + text::decimal(end) + ",\"offset\":"@
        + text::decimal(entry.offset + start) + ",\"text\":"@ + json::quoted(
        entry.text.subrange(span.0, span.1),
    ) + "}"@
}

/// The spans that hold a character.
pub open spec fn full_spans(spans: Seq<(int, int)>) -> Seq<(int, int)> {
    spans.filter(|span: (int, int)| span.0 < span.1)
}

proof fn lemma_four_members(a: Seq<char>, b: Seq<char>, c: Seq<char>, d: Seq<char>)
    ensures
        json::object_text(seq![a, b, c, d]) == seq!['{'] + a + seq![','] + b + seq![','] + c
            + seq![','] + d + seq!['}'],
{
    let parts = seq![a, b, c, d];
    assert(json::joined(parts, 1) == a);
    assert(json::joined(parts, 2) == a + seq![','] + b);
    assert(json::joined(parts, 3) == a + seq![','] + b + seq![','] + c);
    assert(json::joined(parts, 4) == a + seq![','] + b + seq![','] + c + seq![','] + d);
    assert(json::object_text(parts) =~= seq!['{'] + a + seq![','] + b + seq![','] + c + seq![',']
        + d + seq!['}']);
}

proof fn lemma_keys()
    ensures
        json::quoted("start"@) == "\"start\""@,
        json::quoted("end"@) == "\"end\""@,
        json::quoted("offset"@) == "\"offset\""@,
        json::quoted("text"@) == "\"text\""@,
        json::quoted("path"@) == "\"path\""@,
        json::quoted("line"@) == "\"line\""@,
        json::quoted("matches"@) == "\"matches\""@,
{
    reveal_strlit("start");
    reveal_strlit("\"start\"");
    json::lemma_plain("start"@);
    assert(json::quoted("start"@) =~= "\"start\""@);
    reveal_strlit("end");
    reveal_strlit("\"end\"");
    json::lemma_plain("end"@);
    assert(json::quoted("end"@) =~= "\"end\""@);
    reveal_strlit("offset");
    reveal_strlit("\"offset\"");
    json::lemma_plain("offset"@);
    assert(json::quoted("offset"@) =~= "\"offset\""@);
    reveal_strlit("text");
    reveal_strlit("\"text\"");
    json::lemma_plain("text"@);
    assert(json::quoted("text"@) =~= "\"text\""@);
    reveal_strlit("path");
    reveal_strlit("\"path\"");
    json::lemma_plain("path"@);
    assert(json::quoted("path"@) =~= "\"path\""@);
    reveal_strlit("line");
    reveal_strlit("\"line\"");
    json::lemma_plain("line"@);
    assert(json::quoted("line"@) =~= "\"line\""@);
    reveal_strlit("matches");
    reveal_strlit("\"matches\"");
    json::lemma_plain("matches"@);
    assert(json::quoted("matches"@) =~= "\"matches\""@);
}

proof fn lemma_span_object(entry: Selected, span: (int, int))
    requires
        0 <= span.0 <= span.1 <= entry.text.len(),
    ensures
        output::range_text(entry, span) == span_object(entry, span),
{
    lemma_keys();
    let start = text::decimal(text::byte_len(entry.text.take(span.0)));
    let end = text::decimal(text::byte_len(entry.text.take(span.1)));
    let offset = text::decimal(entry.offset + text::byte_len(entry.text.take(span.0)));
    let part = json::quoted(entry.text.subrange(span.0, span.1));
    lemma_four_members(
        json::member_text("start"@, start),
        json::member_text("end"@, end),
        json::member_text("offset"@, offset),
        json::member_text("text"@, part),
    );
    reveal_strlit("\"start\"");
    reveal_strlit("\"end\"");
    reveal_strlit("\"offset\"");
    reveal_strlit("\"text\"");
    reveal_strlit("{\"start\":");
    reveal_strlit(",\"end\":");
    reveal_strlit(",\"offset\":");
    reveal_strlit(",\"text\":");
    reveal_strlit("}");
    assert("{\"start\":"@ =~= seq!['{'] + "\"start\""@ + seq![':']);
    assert(",\"end\":"@ =~= seq![','] + "\"end\""@ + seq![':']);
    assert(",\"offset\":"@ =~= seq![','] + "\"offset\""@ + seq![':']);
    assert(",\"text\":"@ =~= seq![','] + "\"text\""@ + seq![':']);
    assert("}"@ =~= seq!['}']);
    assert(output::range_text(entry, span) =~= span_object(entry, span));
}

proof fn lemma_span_objects(entry: Selected, k: int)
    requires
        0 <= k <= entry.spans.len(),
        forall|i: int|
            0 <= i < entry.spans.len() ==> 0 <= (#[trigger] entry.spans[i]).0 <= entry.text.len()
                && 0 <= entry.spans[i].1 <= entry.text.len(),
    ensures
        output::range_texts(entry, k) == full_spans(entry.spans.take(k)).map_values(
            |span: (int, int)| span_object(entry, span),
        ),
    decreases k,
{
    reveal(Seq::filter);
    let object = |span: (int, int)| span_object(entry, span);
    if k > 0 {
        lemma_span_objects(entry, k - 1);
        let some = entry.spans.take(k);
        let less = entry.spans.take(k - 1);
        assert(some.drop_last() =~= less);
        assert(some.last() == entry.spans[k - 1]);
        if entry.spans[k - 1].0 < entry.spans[k - 1].1 {
            lemma_span_object(entry, entry.spans[k - 1]);
            assert(full_spans(some) == full_spans(less).push(entry.spans[k - 1]));
            assert(full_spans(some).map_values(object) =~= full_spans(less).map_values(object).push(
                span_object(entry, entry.spans[k - 1]),
            ));
        } else {
            assert(full_spans(some) == full_spans(less));
        }
    } else {
        assert(entry.spans.take(0) =~= Seq::<(int, int)>::empty());
        assert(output::range_texts(entry, 0) =~= full_spans(entry.spans.take(0)).map_values(
            object,
        ));
    }
}

proof fn lemma_openings()
    ensures
        "{\"path\":"@ == seq!['{'] + "\"path\""@ + seq![':'],
        ",\"line\":"@ == seq![','] + "\"line\""@ + seq![':'],
        ",\"offset\":"@ == seq![','] + "\"offset\""@ + seq![':'],
        ",\"text\":"@ == seq![','] + "\"text\""@ + seq![':'],
        ",\"matches\":"@ == seq![','] + "\"matches\""@ + seq![':'],
        "}\n"@ == seq!['}', '\n'],
{
    reveal_strlit("\"path\"");
    reveal_strlit("{\"path\":");
    assert("{\"path\":"@ =~= seq!['{'] + "\"path\""@ + seq![':']);
    reveal_strlit("\"line\"");
    reveal_strlit(",\"line\":");
    assert(",\"line\":"@ =~= seq![','] + "\"line\""@ + seq![':']);
    reveal_strlit("\"offset\"");
    reveal_strlit(",\"offset\":");
    assert(",\"offset\":"@ =~= seq![','] + "\"offset\""@ + seq![':']);
    reveal_strlit("\"text\"");
    reveal_strlit(",\"text\":");
    assert(",\"text\":"@ =~= seq![','] + "\"text\""@ + seq![':']);
    reveal_strlit("\"matches\"");
    reveal_strlit(",\"matches\":");
    assert(",\"matches\":"@ =~= seq![','] + "\"matches\""@ + seq![':']);
    reveal_strlit("}\n");
    assert("}\n"@ =~= seq!['}', '\n']);
}

/// Five members in an object, with the key, the colon and what stands in front
/// of them pulled together.
proof fn lemma_five_members(keys: Seq<Seq<char>>, values: Seq<Seq<char>>)
    requires
        keys.len() == 5 && values.len() == 5,
    ensures
        ({
            let parts = Seq::new(5, |k: int| keys[k] + seq![':'] + values[k]);
            json::object_text(parts) + seq!['\n'] == (seq!['{'] + keys[0] + seq![':']) + values[0]
                + (seq![','] + keys[1] + seq![':']) + values[1] + (seq![','] + keys[2] + seq![':'])
                + values[2] + (seq![','] + keys[3] + seq![':']) + values[3] + (seq![','] + keys[4]
                + seq![':']) + values[4] + seq!['}', '\n']
        }),
{
    let parts = Seq::new(5, |k: int| keys[k] + seq![':'] + values[k]);
    let one = (seq!['{'] + keys[0] + seq![':']) + values[0];
    let two = one + (seq![','] + keys[1] + seq![':']) + values[1];
    let three = two + (seq![','] + keys[2] + seq![':']) + values[2];
    let four = three + (seq![','] + keys[3] + seq![':']) + values[3];
    let five = four + (seq![','] + keys[4] + seq![':']) + values[4];
    assert(json::joined(parts, 1) == parts[0]);
    assert(seq!['{'] + json::joined(parts, 1) =~= one);
    assert(seq!['{'] + json::joined(parts, 2) =~= (seq!['{'] + json::joined(parts, 1)) + seq![',']
        + parts[1]);
    assert(one + seq![','] + parts[1] =~= two);
    assert(seq!['{'] + json::joined(parts, 3) =~= (seq!['{'] + json::joined(parts, 2)) + seq![',']
        + parts[2]);
    assert(two + seq![','] + parts[2] =~= three);
    assert(seq!['{'] + json::joined(parts, 4) =~= (seq!['{'] + json::joined(parts, 3)) + seq![',']
        + parts[3]);
    assert(three + seq![','] + parts[3] =~= four);
    assert(seq!['{'] + json::joined(parts, 5) =~= (seq!['{'] + json::joined(parts, 4)) + seq![',']
        + parts[4]);
    assert(four + seq![','] + parts[4] =~= five);
    assert(five + seq!['}'] + seq!['\n'] =~= five + seq!['}', '\n']);
}

/// The object of a selected line: the path, its number, its offset in the file,
/// its text, and an object for each of its spans that holds a character, in
/// order.
pub proof fn law_objects_show_the_line_and_its_spans(
    options: RenderOptions,
    path: Seq<char>,
    entry: Selected,
)
    requires
        shows_objects(options),
        forall|i: int|
            0 <= i < entry.spans.len() ==> 0 <= (#[trigger] entry.spans[i]).0 <= entry.text.len()
                && 0 <= entry.spans[i].1 <= entry.text.len(),
    ensures
        output::rendering(laid_out(options, path), seq![entry]) == "{\"path\":"@ + json::quoted(
            path,
        ) + ",\"line\":"@ + text::decimal(entry.number) + ",\"offset\":"@ + text::decimal(
            entry.offset,
        ) + ",\"text\":"@ + json::quoted(entry.text) + ",\"matches\":"@ + json::array_text(
            full_spans(entry.spans).map_values(|span: (int, int)| span_object(entry, span)),
        ) + "}\n"@,
{
    let n = entry.spans.len() as int;
    lemma_span_objects(entry, n);
    assert(entry.spans.take(n) =~= entry.spans);
    let all = seq![entry];
    assert(all[0] == entry);
    assert(output::entries_text(path, all, 0) =~= Seq::<char>::empty());
    assert(output::entries_text(path, all, 1) =~= output::entry_text(path, entry) + seq!['\n']);
    lemma_keys();
    lemma_openings();
    let keys = seq![
        "\"path\""@,
        "\"line\""@,
        "\"offset\""@,
        "\"text\""@,
        "\"matches\""@,
    ];
    let values = seq![
        json::quoted(path),
        text::decimal(entry.number),
        text::decimal(entry.offset),
        json::quoted(entry.text),
        json::array_text(output::range_texts(entry, n)),
    ];
    lemma_five_members(keys, values);
    let parts = Seq::new(5, |k: int| keys[k] + seq![':'] + values[k]);
    assert(parts =~= seq![
        json::member_text("path"@, values[0]),
        json::member_text("line"@, values[1]),
        json::member_text("offset"@, values[2]),
        json::member_text("text"@, values[3]),
        json::member_text("matches"@, values[4]),
    ]);
}

} // verus!
