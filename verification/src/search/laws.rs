//! What holds of every search.

use vstd::prelude::*;
use vstd::seq_lib::*;
use vstd::utf8::*;

use crate::filters;
use crate::lines;
use crate::lines::SliceView;
use crate::paths;
use crate::pattern;
use crate::pattern::Compiled;
use crate::search;
use crate::search::{FileOutcome, Outcome, SearchOptions, Selected};
use crate::sorting;
use crate::sorting::Placed;
use crate::stats;
use crate::stats::{Counter, Stats};

verus! {

/// The options with the selection turned around.
pub open spec fn inverted(options: SearchOptions) -> SearchOptions {
    SearchOptions { invert: !options.invert, ..options }
}

proof fn lemma_partition(
    slices: Seq<SliceView>,
    k: int,
    c: Compiled,
    options: SearchOptions,
)
    requires
        0 <= k <= slices.len(),
    ensures
        search::selected_upto(slices, k, c, options).len() + search::selected_upto(
            slices,
            k,
            c,
            inverted(options),
        ).len() == k,
    decreases k,
{
    if k > 0 {
        lemma_partition(slices, k - 1, c, options);
    }
}

proof fn lemma_examined(slices: Seq<SliceView>, k: int, c: Compiled, options: SearchOptions)
    requires
        0 <= k <= slices.len(),
        options.max_count matches Some(limit) ==> search::selected_upto(
            slices,
            k,
            c,
            options,
        ).len() <= limit,
    ensures
        ({
            let seen = search::examined(slices, k, c, options);
            let found = search::selected_upto(slices, seen, c, options).len();
            &&& k <= seen <= slices.len()
            &&& options.max_count matches Some(limit) ==> {
                &&& found <= limit
                &&& found < limit ==> seen == slices.len()
            }
            &&& options.max_count is None ==> seen == slices.len()
        }),
    decreases slices.len() - k,
{
    if k < slices.len() {
        let stop = options.max_count matches Some(limit) && search::selected_upto(
            slices,
            k,
            c,
            options,
        ).len() >= limit;
        if !stop {
            lemma_examined(slices, k + 1, c, options);
        }
    }
}

/// Without a limit, a search and the inverted search select every line of the
/// text between them, and none of them both.
pub proof fn law_invert_selects_the_rest(
    path: Seq<char>,
    text: Seq<char>,
    c: Compiled,
    options: SearchOptions,
)
    requires
        options.max_count is None,
    ensures
        search::scan(path, text, c, options).matches.len() + search::scan(
            path,
            text,
            c,
            inverted(options),
        ).matches.len() == lines::lines(text).len(),
        forall|line: Seq<char>|
            #![trigger search::selects(c, options, line)]
            search::selects(c, options, line) != search::selects(c, inverted(options), line),
{
    let slices = lines::slices(text);
    lemma_examined(slices, 0, c, options);
    lemma_examined(slices, 0, c, inverted(options));
    lemma_partition(slices, slices.len() as int, c, options);
}

/// A search with a limit selects no more lines than the limit, and reads all
/// lines where it selects fewer; without a limit it reads all lines.
pub proof fn law_limit_stops_the_scan(
    path: Seq<char>,
    text: Seq<char>,
    c: Compiled,
    options: SearchOptions,
)
    ensures
        ({
            let result = search::scan(path, text, c, options);
            let total = lines::lines(text).len();
            &&& result.lines_scanned <= total
            &&& options.max_count matches Some(limit) ==> {
                &&& result.matches.len() <= limit
                &&& result.matches.len() < limit ==> result.lines_scanned == total
            }
            &&& options.max_count is None ==> result.lines_scanned == total
        }),
{
    lemma_examined(lines::slices(text), 0, c, options);
}

/// The selected lines are lines of the text: each is where its number says.
proof fn lemma_selected(
    slices: Seq<SliceView>,
    k: int,
    c: Compiled,
    options: SearchOptions,
)
    requires
        0 <= k <= slices.len(),
        forall|i: int| 0 <= i < slices.len() ==> (#[trigger] slices[i]).number == i + 1,
    ensures
        ({
            let found = search::selected_upto(slices, k, c, options);
            &&& forall|m: int|
                0 <= m < found.len() ==> {
                    let index = (#[trigger] found[m]).number - 1;
                    &&& 0 <= index < k
                    &&& found[m] == search::selected_at(slices, index, c, options)
                    &&& search::selects(c, options, slices[index].text)
                }
            &&& forall|m: int, n: int|
                0 <= m < n < found.len() ==> (#[trigger] found[m]).number < (
                #[trigger] found[n]).number
            &&& forall|i: int|
                0 <= i < k && search::selects(c, options, (#[trigger] slices[i]).text)
                    ==> found.contains(search::selected_at(slices, i, c, options))
        }),
    decreases k,
{
    if k > 0 {
        lemma_selected(slices, k - 1, c, options);
        let earlier = search::selected_upto(slices, k - 1, c, options);
        let found = search::selected_upto(slices, k, c, options);
        let here = search::selected_at(slices, k - 1, c, options);
        if search::selects(c, options, slices[k - 1].text) {
            assert(found == earlier.push(here));
            assert(found[found.len() - 1] == here);
            assert forall|i: int|
                0 <= i < k && search::selects(
                    c,
                    options,
                    (#[trigger] slices[i]).text,
                ) implies found.contains(search::selected_at(slices, i, c, options)) by {
                if i < k - 1 {
                    let m = choose|m: int|
                        0 <= m < earlier.len() && earlier[m] == search::selected_at(
                            slices,
                            i,
                            c,
                            options,
                        );
                    assert(found[m] == earlier[m]);
                }
            }
            assert forall|m: int, n: int| 0 <= m < n < found.len() implies (
            #[trigger] found[m]).number < (#[trigger] found[n]).number by {
                if n < earlier.len() {
                    assert(found[m] == earlier[m] && found[n] == earlier[n]);
                } else {
                    assert(found[m] == earlier[m]);
                }
            }
        }
    }
}

/// A search selects exactly the lines that it should among those it reads,
/// once each, in the order of the file.
pub proof fn law_selected_lines_are_exactly_the_matching_ones(
    path: Seq<char>,
    text: Seq<char>,
    c: Compiled,
    options: SearchOptions,
)
    ensures
        ({
            let result = search::scan(path, text, c, options);
            let slices = lines::slices(text);
            &&& forall|m: int|
                0 <= m < result.matches.len() ==> {
                    let index = (#[trigger] result.matches[m]).number - 1;
                    &&& 0 <= index < result.lines_scanned
                    &&& result.matches[m] == search::selected_at(slices, index, c, options)
                    &&& search::selects(c, options, slices[index].text)
                }
            &&& forall|m: int, n: int|
                0 <= m < n < result.matches.len() ==> (#[trigger] result.matches[m]).number < (
                #[trigger] result.matches[n]).number
            &&& forall|i: int|
                0 <= i < result.lines_scanned && search::selects(
                    c,
                    options,
                    (#[trigger] slices[i]).text,
                ) ==> result.matches.contains(search::selected_at(slices, i, c, options))
        }),
{
    let slices = lines::slices(text);
    lemma_examined(slices, 0, c, options);
    lemma_selected(slices, search::examined(slices, 0, c, options), c, options);
}

/// Where a search is not inverted, every selected line has at least one span;
/// the spans lie in the line, in order, and do not overlap.
pub proof fn law_spans_lie_in_the_line(
    slices: Seq<SliceView>,
    index: int,
    c: Compiled,
    options: SearchOptions,
)
    requires
        0 <= index < slices.len(),
        !options.invert,
        search::selects(c, options, slices[index].text),
    ensures
        ({
            let line = search::selected_at(slices, index, c, options);
            &&& line.spans.len() > 0
            &&& forall|k: int|
                0 <= k < line.spans.len() ==> 0 <= (#[trigger] line.spans[k]).0
                    <= line.spans[k].1 <= line.text.len()
            &&& forall|k: int, l: int|
                0 <= k < l < line.spans.len() ==> (#[trigger] line.spans[k]).1 <= (
                #[trigger] line.spans[l]).0
        }),
{
    pattern::laws::law_all_in_order_without_overlap(c, slices[index].text);
}

/// The context of a selected line is the lines right before and right behind
/// it, as many as asked for or as there are.
pub proof fn law_context_surrounds_the_line(
    slices: Seq<SliceView>,
    index: int,
    c: Compiled,
    options: SearchOptions,
)
    requires
        0 <= index < slices.len(),
        forall|i: int| 0 <= i < slices.len() ==> (#[trigger] slices[i]).number == i + 1,
    ensures
        ({
            let line = search::selected_at(slices, index, c, options);
            let (b, a) = (line.before.len(), line.after.len());
            &&& b == (if options.before <= index {
                options.before as int
            } else {
                index
            })
            &&& a == (if options.after < slices.len() - index {
                options.after as int
            } else {
                slices.len() - index - 1
            })
            &&& forall|k: int|
                0 <= k < b ==> (#[trigger] line.before[k]).number == line.number - b + k
            &&& forall|k: int|
                0 <= k < a ==> (#[trigger] line.after[k]).number == line.number + 1 + k
        }),
{
    let line = search::selected_at(slices, index, c, options);
    let low = if options.before <= index {
        index - options.before
    } else {
        0
    };
    assert forall|k: int| 0 <= k < line.before.len() implies (#[trigger] line.before[k]).number
        == line.number - line.before.len() + k by {
        assert(line.before[k] == search::as_context(slices[low + k]));
    }
    assert forall|k: int| 0 <= k < line.after.len() implies (#[trigger] line.after[k]).number
        == line.number + 1 + k by {
        assert(line.after[k] == search::as_context(slices[index + 1 + k]));
    }
}

/// A file that holds the UTF-8 encoding of a text and does not look binary is
/// searched exactly as the text is.
pub proof fn law_files_are_searched_as_texts(
    path: Seq<char>,
    text: Seq<char>,
    c: Compiled,
    options: SearchOptions,
)
    requires
        !filters::binary(encode_utf8(text)),
    ensures
        search::contents_outcome(path, encode_utf8(text), c, options) == Outcome::Scanned(
            search::scan(path, text, c, options),
        ),
{
    encode_utf8_valid_utf8(text);
    encode_utf8_decode_utf8(text);
}

/// Every outcome is counted once: as searched, as binary or as an error; and
/// no more files match than are searched.
pub proof fn law_every_outcome_is_counted(outcomes: Seq<FileOutcome>, k: int)
    requires
        0 <= k <= outcomes.len(),
        k <= u64::MAX,
    ensures
        ({
            let total = search::tallied(stats::zeroed(), outcomes, k);
            &&& total.files_searched + total.files_binary + total.errors == k
            &&& total.files_matched <= total.files_searched
        }),
    decreases k,
{
    if k > 0 {
        law_every_outcome_is_counted(outcomes, k - 1);
        let before = search::tallied(stats::zeroed(), outcomes, k - 1);
        stats::lemma_advanced_by_one(before.files_searched);
        stats::lemma_advanced_by_one(before.files_binary);
        stats::lemma_advanced_by_one(before.errors);
        stats::lemma_advanced_by_one(before.files_matched);
    }
}

// ---------------------------------------------------------------------------
// All files
// ---------------------------------------------------------------------------

/// The views of some outcomes.
pub open spec fn views(list: Seq<FileOutcome>) -> Seq<Outcome> {
    list.map_values(|outcome: FileOutcome| outcome@)
}

/// How much an outcome adds to a counter.
pub open spec fn share(counter: Counter, outcome: Outcome) -> int {
    match (counter, outcome) {
        (Counter::FilesSearched, Outcome::Scanned(_)) => 1,
        (Counter::LinesScanned, Outcome::Scanned(result)) => result.lines_scanned as int,
        (Counter::BytesScanned, Outcome::Scanned(result)) => result.bytes_scanned as int,
        (Counter::MatchLines, Outcome::Scanned(result)) => result.matches.len() as int,
        (Counter::FilesMatched, Outcome::Scanned(result)) => if result.matches.len() > 0 {
            1
        } else {
            0
        },
        (Counter::FilesBinary, Outcome::Binary(_)) => 1,
        (Counter::Errors, Outcome::Failed(_, _)) => 1,
        _ => 0,
    }
}

/// How much some outcomes add to a counter together.
pub open spec fn shares(counter: Counter, list: Seq<Outcome>) -> int
    decreases list.len(),
{
    if list.len() == 0 {
        0
    } else {
        shares(counter, list.drop_last()) + share(counter, list.last())
    }
}

/// `stats` with what some outcomes add to each counter.
pub open spec fn totals(stats: Stats, list: Seq<Outcome>) -> Stats {
    Stats {
        files_searched: stats::advanced(
            stats.files_searched,
            shares(Counter::FilesSearched, list),
        ),
        files_binary: stats::advanced(stats.files_binary, shares(Counter::FilesBinary, list)),
        files_matched: stats::advanced(stats.files_matched, shares(Counter::FilesMatched, list)),
        lines_scanned: stats::advanced(stats.lines_scanned, shares(Counter::LinesScanned, list)),
        bytes_scanned: stats::advanced(stats.bytes_scanned, shares(Counter::BytesScanned, list)),
        match_lines: stats::advanced(stats.match_lines, shares(Counter::MatchLines, list)),
        errors: stats::advanced(stats.errors, shares(Counter::Errors, list)),
        ..stats
    }
}

/// The counters grow by the searched, the binary and the failed files, by the
/// files with a match, and by the lines, bytes and matching lines of all
/// searched files together. No file at all changes no counter.
pub proof fn law_counters_are_totals(stats: Stats, outcomes: Seq<FileOutcome>)
    ensures
        search::tallied(stats, outcomes, outcomes.len() as int) == totals(stats, views(outcomes)),
        outcomes.len() == 0 ==> totals(stats, views(outcomes)) == stats,
{
    stats::lemma_advanced();
    lemma_totals(stats, outcomes, outcomes.len() as int);
    assert(views(outcomes).take(outcomes.len() as int) =~= views(outcomes));
}

proof fn lemma_totals(stats: Stats, outcomes: Seq<FileOutcome>, k: int)
    requires
        0 <= k <= outcomes.len(),
    ensures
        search::tallied(stats, outcomes, k) == totals(stats, views(outcomes).take(k)),
    decreases k,
{
    stats::lemma_advanced();
    if k > 0 {
        lemma_totals(stats, outcomes, k - 1);
        let list = views(outcomes).take(k);
        assert(list.drop_last() =~= views(outcomes).take(k - 1));
        assert(list.last() == outcomes[k - 1]@);
    }
}

proof fn lemma_shares_remove(counter: Counter, list: Seq<Outcome>, i: int)
    requires
        0 <= i < list.len(),
    ensures
        shares(counter, list) == shares(counter, list.remove(i)) + share(counter, list[i]),
    decreases list.len(),
{
    if i == list.len() - 1 {
        assert(list.remove(i) =~= list.drop_last());
    } else {
        lemma_shares_remove(counter, list.drop_last(), i);
        assert(list.remove(i).drop_last() =~= list.drop_last().remove(i));
        assert(list.remove(i).last() == list.last());
    }
}

proof fn lemma_shares_permuted(counter: Counter, a: Seq<Outcome>, b: Seq<Outcome>)
    requires
        a.to_multiset() == b.to_multiset(),
    ensures
        shares(counter, a) == shares(counter, b),
    decreases a.len(),
{
    broadcast use group_to_multiset_ensures;

    assert(a.len() == a.to_multiset().len() && b.len() == b.to_multiset().len());
    if a.len() > 0 {
        let last = a.last();
        assert(a.to_multiset().contains(last));
        assert(b.contains(last));
        let k = choose|k: int| 0 <= k < b.len() && b[k] == last;
        assert(a.drop_last().push(last) =~= a);
        assert(a.to_multiset() =~= a.drop_last().to_multiset().insert(last));
        assert(a.drop_last().to_multiset() =~= b.remove(k).to_multiset());
        lemma_shares_permuted(counter, a.drop_last(), b.remove(k));
        lemma_shares_remove(counter, b, k);
    }
}

/// The same outcomes have the same views.
proof fn lemma_views_multiset(a: Seq<FileOutcome>, b: Seq<FileOutcome>)
    requires
        a.to_multiset() == b.to_multiset(),
    ensures
        views(a).to_multiset() == views(b).to_multiset(),
    decreases a.len(),
{
    broadcast use group_to_multiset_ensures;

    assert(a.len() == a.to_multiset().len() && b.len() == b.to_multiset().len());
    if a.len() == 0 {
        assert(views(a) =~= views(b));
    } else {
        let last = a.last();
        assert(a.to_multiset().contains(last));
        assert(b.contains(last));
        let k = choose|k: int| 0 <= k < b.len() && b[k] == last;
        assert(a.drop_last().push(last) =~= a);
        assert(a.to_multiset() =~= a.drop_last().to_multiset().insert(last));
        assert(a.drop_last().to_multiset() =~= b.remove(k).to_multiset());
        lemma_views_multiset(a.drop_last(), b.remove(k));
        assert(views(a) =~= views(a.drop_last()).push(last@));
        assert(views(b).remove(k) =~= views(b.remove(k)));
        assert(views(b)[k] == last@);
        assert(views(b).to_multiset() =~= views(b).remove(k).to_multiset().insert(last@));
    }
}

/// The place of an outcome among others.
pub open spec fn place(outcome: Outcome) -> Seq<int> {
    paths::path_key(search::path_of(outcome))
}

/// The places of some outcomes.
spec fn places(list: Seq<Outcome>) -> Seq<Seq<int>> {
    list.map_values(|outcome: Outcome| place(outcome))
}

proof fn lemma_places_multiset(a: Seq<Outcome>, b: Seq<Outcome>)
    requires
        a.to_multiset() == b.to_multiset(),
    ensures
        places(a).to_multiset() == places(b).to_multiset(),
    decreases a.len(),
{
    broadcast use group_to_multiset_ensures;

    assert(a.len() == a.to_multiset().len() && b.len() == b.to_multiset().len());
    if a.len() == 0 {
        assert(places(a) =~= places(b));
    } else {
        let last = a.last();
        assert(a.to_multiset().contains(last));
        assert(b.contains(last));
        let k = choose|k: int| 0 <= k < b.len() && b[k] == last;
        assert(a.drop_last().push(last) =~= a);
        assert(a.to_multiset() =~= a.drop_last().to_multiset().insert(last));
        assert(a.drop_last().to_multiset() =~= b.remove(k).to_multiset());
        lemma_places_multiset(a.drop_last(), b.remove(k));
        assert(places(a) =~= places(a.drop_last()).push(place(last)));
        assert(places(b).remove(k) =~= places(b.remove(k)));
        assert(places(b)[k] == place(last));
        assert(places(b).to_multiset() =~= places(b).remove(k).to_multiset().insert(
            place(last),
        ));
    }
}

/// Outcomes in the same place are the same: every path is spelled in one way.
pub open spec fn spelled_once(list: Seq<Outcome>) -> bool {
    forall|i: int, j: int|
        #![trigger list[i], list[j]]
        0 <= i < list.len() && 0 <= j < list.len() && place(list[i]) == place(list[j])
            ==> list[i] == list[j]
}

proof fn lemma_in_place(list: Seq<FileOutcome>)
    requires
        sorting::in_order(list),
    ensures
        sorting::sorted(places(views(list))),
{
    let keys = places(views(list));
    assert forall|i: int, j: int| 0 <= i <= j < keys.len() implies #[trigger] sorting::le(
        keys[i],
        keys[j],
    ) by {
        assert(sorting::le(list[i].key(), list[j].key()));
    }
}

/// The number of workers does not show in what is found. `wanted` holds what
/// searching each file gives, `first` and `second` the same outcomes in the
/// orders in which two pools of workers delivered them, and `a` and `b` what
/// [`search::search_files`] makes of these: the counters are the same, and so
/// is the list where every path is spelled in one way.
pub proof fn law_worker_count_does_not_show(
    wanted: Seq<Outcome>,
    first: Seq<FileOutcome>,
    second: Seq<FileOutcome>,
    a: Seq<FileOutcome>,
    b: Seq<FileOutcome>,
    stats: Stats,
)
    requires
        views(first).to_multiset() == wanted.to_multiset(),
        views(second).to_multiset() == wanted.to_multiset(),
        sorting::in_order(a),
        a.to_multiset() == first.to_multiset(),
        sorting::in_order(b),
        b.to_multiset() == second.to_multiset(),
    ensures
        views(a).to_multiset() == wanted.to_multiset(),
        search::tallied(stats, a, a.len() as int) == totals(stats, wanted),
        search::tallied(stats, b, b.len() as int) == totals(stats, wanted),
        spelled_once(wanted) ==> views(a) == views(b),
{
    broadcast use group_to_multiset_ensures;

    lemma_views_multiset(a, first);
    lemma_views_multiset(b, second);
    law_counters_are_totals(stats, a);
    law_counters_are_totals(stats, b);
    assert forall|counter: Counter|
        shares(counter, views(a)) == #[trigger] shares(counter, wanted) && shares(
            counter,
            views(b),
        ) == shares(counter, wanted) by {
        lemma_shares_permuted(counter, views(a), wanted);
        lemma_shares_permuted(counter, views(b), wanted);
    }
    if spelled_once(wanted) {
        let (va, vb) = (views(a), views(b));
        lemma_places_multiset(va, vb);
        lemma_in_place(a);
        lemma_in_place(b);
        sorting::law_sorted_keys_are_unique(places(va), places(vb));
        assert(places(va).len() == va.len() && places(vb).len() == vb.len());
        assert forall|i: int| 0 <= i < va.len() implies va[i] == vb[i] by {
            assert(va.to_multiset().contains(va[i]) && vb.to_multiset().contains(vb[i]));
            assert(wanted.contains(va[i]) && wanted.contains(vb[i]));
            let x = choose|x: int| 0 <= x < wanted.len() && wanted[x] == va[i];
            let y = choose|y: int| 0 <= y < wanted.len() && wanted[y] == vb[i];
            assert(places(va)[i] == places(vb)[i]);
            assert(place(wanted[x]) == place(wanted[y]));
        }
        assert(va =~= vb);
    }
}

// ---------------------------------------------------------------------------
// What a result holds
// ---------------------------------------------------------------------------

/// `entry` is line `i` of a text as a result shows it: its number, its offset
/// and its text, all matches in it unless the search is inverted, and the lines
/// around it.
pub open spec fn shows_line(
    entry: Selected,
    slices: Seq<SliceView>,
    i: int,
    c: Compiled,
    options: SearchOptions,
) -> bool {
    &&& entry.number == i + 1
    &&& entry.offset == slices[i].start
    &&& entry.text == slices[i].text
    &&& options.invert ==> entry.spans.len() == 0
    &&& !options.invert ==> entry.spans == c.all(slices[i].text)
    &&& entry.before.len() == if i < options.before {
        i
    } else {
        options.before as int
    }
    &&& forall|k: int|
        0 <= k < entry.before.len() ==> {
            let j = i - entry.before.len() + k;
            &&& (#[trigger] entry.before[k]).number == j + 1
            &&& entry.before[k].offset == slices[j].start
            &&& entry.before[k].text == slices[j].text
        }
    &&& entry.after.len() == if slices.len() - i - 1 < options.after {
        slices.len() - i - 1
    } else {
        options.after as int
    }
    &&& forall|k: int|
        0 <= k < entry.after.len() ==> {
            let j = i + 1 + k;
            &&& (#[trigger] entry.after[k]).number == j + 1
            &&& entry.after[k].offset == slices[j].start
            &&& entry.after[k].text == slices[j].text
        }
}

proof fn lemma_shows_line(
    slices: Seq<SliceView>,
    i: int,
    c: Compiled,
    options: SearchOptions,
)
    requires
        0 <= i < slices.len(),
        forall|k: int| 0 <= k < slices.len() ==> (#[trigger] slices[k]).number == k + 1,
    ensures
        shows_line(search::selected_at(slices, i, c, options), slices, i, c, options),
{
    let entry = search::selected_at(slices, i, c, options);
    let low = if options.before <= i {
        i - options.before
    } else {
        0
    };
    assert forall|k: int| 0 <= k < entry.before.len() implies {
        let j = i - entry.before.len() + k;
        &&& (#[trigger] entry.before[k]).number == j + 1
        &&& entry.before[k].offset == slices[j].start
        &&& entry.before[k].text == slices[j].text
    } by {
        assert(entry.before[k] == search::as_context(slices[low + k]));
    }
    assert forall|k: int| 0 <= k < entry.after.len() implies {
        let j = i + 1 + k;
        &&& (#[trigger] entry.after[k]).number == j + 1
        &&& entry.after[k].offset == slices[j].start
        &&& entry.after[k].text == slices[j].text
    } by {
        assert(entry.after[k] == search::as_context(slices[i + 1 + k]));
    }
}

/// A result holds exactly the lines of the text that match, or those that do
/// not where the search is inverted, in order, each with its matches and the
/// lines around it; with a limit, the first that many. It says how much was
/// read: all bytes, and the lines up to the one that reached the limit.
pub proof fn law_results_hold_the_matching_lines(
    path: Seq<char>,
    text: Seq<char>,
    c: Compiled,
    options: SearchOptions,
)
    ensures
        ({
            let result = search::scan(path, text, c, options);
            let slices = lines::slices(text);
            &&& result.path == path
            &&& result.bytes_scanned == encode_utf8(text).len()
            &&& result.lines_scanned <= slices.len()
            &&& forall|m: int|
                0 <= m < result.matches.len() ==> {
                    let i = (#[trigger] result.matches[m]).number - 1;
                    &&& 0 <= i < result.lines_scanned
                    &&& c.occurs(slices[i].text) != options.invert
                    &&& shows_line(result.matches[m], slices, i, c, options)
                }
            &&& forall|m: int, n: int|
                0 <= m < n < result.matches.len() ==> (#[trigger] result.matches[m]).number < (
                #[trigger] result.matches[n]).number
            &&& forall|i: int|
                0 <= i < result.lines_scanned && c.occurs((#[trigger] slices[i]).text)
                    != options.invert ==> exists|m: int|
                    0 <= m < result.matches.len() && (#[trigger] result.matches[m]).number == i + 1
            &&& options.max_count is None ==> result.lines_scanned == slices.len()
            &&& options.max_count matches Some(limit) ==> {
                &&& result.matches.len() <= limit
                &&& result.lines_scanned < slices.len() ==> result.matches.len() == limit
                &&& result.matches.len() == limit && limit > 0 && result.lines_scanned
                    < slices.len() ==> result.matches.last().number == result.lines_scanned
                &&& limit == 0 ==> result.lines_scanned == 0
            }
        }),
{
    let slices = lines::slices(text);
    let result = search::scan(path, text, c, options);
    law_selected_lines_are_exactly_the_matching_ones(path, text, c, options);
    law_limit_stops_the_scan(path, text, c, options);
    lines::law_slices_agree_with_lines(text);
    assert forall|m: int| 0 <= m < result.matches.len() implies {
        let i = (#[trigger] result.matches[m]).number - 1;
        &&& 0 <= i < result.lines_scanned
        &&& c.occurs(slices[i].text) != options.invert
        &&& shows_line(result.matches[m], slices, i, c, options)
    } by {
        let i = result.matches[m].number - 1;
        lemma_shows_line(slices, i, c, options);
    }
    assert forall|i: int|
        0 <= i < result.lines_scanned && c.occurs((#[trigger] slices[i]).text)
            != options.invert implies exists|m: int|
        0 <= m < result.matches.len() && (#[trigger] result.matches[m]).number == i + 1 by {
        assert(search::selects(c, options, slices[i].text));
        let entry = search::selected_at(slices, i, c, options);
        let m = choose|m: int| 0 <= m < result.matches.len() && result.matches[m] == entry;
        assert(result.matches[m].number == i + 1);
    }
    lemma_stops_at_the_limit(slices, 0, c, options);
}

proof fn lemma_stops_at_the_limit(
    slices: Seq<SliceView>,
    k: int,
    c: Compiled,
    options: SearchOptions,
)
    requires
        0 <= k <= slices.len(),
        forall|i: int| 0 <= i < slices.len() ==> (#[trigger] slices[i]).number == i + 1,
        k > 0 && options.max_count is Some ==> {
            let found = search::selected_upto(slices, k, c, options);
            &&& options.max_count->0 > 0
            &&& found.len() <= options.max_count->0
            &&& found.len() == options.max_count->0 ==> found.last().number == k
        },
    ensures
        ({
            let seen = search::examined(slices, k, c, options);
            let found = search::selected_upto(slices, seen, c, options);
            options.max_count matches Some(limit) ==> {
                &&& limit > 0 && seen < slices.len() ==> found.len() == limit && found.last().number
                    == seen
                &&& limit == 0 ==> seen == 0 || slices.len() == 0
            }
        }),
    decreases slices.len() - k,
{
    if k < slices.len() {
        let found = search::selected_upto(slices, k, c, options);
        let stop = options.max_count matches Some(limit) && found.len() >= limit;
        if !stop {
            let next = search::selected_upto(slices, k + 1, c, options);
            if search::selects(c, options, slices[k].text) {
                assert(next.last() == search::selected_at(slices, k, c, options));
            }
            lemma_stops_at_the_limit(slices, k + 1, c, options);
        }
    }
}

/// A file is binary where a NUL byte is among its first bytes or where its
/// bytes are no text in UTF-8; every other file is searched.
pub proof fn law_binary_files_are_not_searched(
    path: Seq<char>,
    bytes: Seq<u8>,
    c: Compiled,
    options: SearchOptions,
)
    ensures
        ({
            let early = exists|k: int|
                0 <= k <= 8192 && k < bytes.len() && #[trigger] bytes[k] == 0;
            let outcome = search::contents_outcome(path, bytes, c, options);
            &&& early || (forall|text: Seq<char>| #[trigger] encode_utf8(text) != bytes) ==> outcome
                == Outcome::Binary(path)
            &&& forall|text: Seq<char>|
                !early && #[trigger] encode_utf8(text) == bytes ==> outcome == Outcome::Scanned(
                    search::scan(path, text, c, options),
                )
        }),
{
    let early = exists|k: int| 0 <= k <= 8192 && k < bytes.len() && #[trigger] bytes[k] == 0;
    if valid_utf8(bytes) {
        decode_utf8_encode_utf8(bytes);
        assert(encode_utf8(decode_utf8(bytes)) == bytes);
    }
    assert forall|text: Seq<char>| !early && #[trigger] encode_utf8(text)
        == bytes implies search::contents_outcome(path, bytes, c, options) == Outcome::Scanned(
        search::scan(path, text, c, options),
    ) by {
        law_files_are_searched_as_texts(path, text, c, options);
    }
}

} // verus!
