//! What holds of every walk.

use vstd::multiset::*;
use vstd::prelude::*;
use vstd::seq_lib::*;

use crate::error;
use crate::error::IoError;
use crate::filters;
use crate::filters::{Ignore, Selection};
use crate::paths;
use crate::sorting;
use crate::sorting::Placed;
use crate::stats;
use crate::stats::{Counter, Stats};
use crate::walk;
use crate::walk::{
    EntryInfo, EntryKind, Found, Ground, Hit, Job, Problem, Report, Root, RootStatus, Survey,
    Target, WalkOptions, Work, MAX_WALK_DEPTH,
};

verus! {

// ---------------------------------------------------------------------------
// Entries
// ---------------------------------------------------------------------------

/// Hidden entries leave no trace unless they are asked for.
pub proof fn law_hidden_entries_are_skipped(
    ground: Ground,
    job: Job,
    report: Report,
    entry: EntryInfo,
)
    requires
        !ground.options.hidden,
        walk::hidden_name(entry.name@),
    ensures
        walk::reported(ground, job, report, entry) == report,
{
}

/// Symbolic links leave no trace unless they are followed, whatever they lead
/// to.
pub proof fn law_links_are_skipped_unless_followed(
    ground: Ground,
    job: Job,
    report: Report,
    entry: EntryInfo,
)
    requires
        !ground.options.follow,
        entry.kind == EntryKind::Symlink,
    ensures
        walk::reported(ground, job, report, entry) == report,
{
}

/// The directories on the built-in skip list are never descended into,
/// whatever the options and the ignore files say.
pub proof fn law_skip_list_always_holds(
    ground: Ground,
    job: Job,
    report: Report,
    entry: EntryInfo,
)
    requires
        filters::skipped_dir(entry.name@),
    ensures
        walk::reported(ground, job, report, entry).jobs == report.jobs,
{
}

/// What a directory adds lies in it: its files are accepted only within the
/// depth limit, and its directories are one level deeper, belong to the same
/// root and are within both limits.
pub proof fn law_depth_is_bounded(
    ground: Ground,
    job: Job,
    report: Report,
    entries: Seq<EntryInfo>,
)
    ensures
        ({
            let after = walk::reported_all(ground, job, report, entries);
            &&& report.files.len() <= after.files.len()
            &&& report.jobs.len() <= after.jobs.len()
            &&& after.files.take(report.files.len() as int) == report.files
            &&& after.jobs.take(report.jobs.len() as int) == report.jobs
            &&& ground.options.max_depth matches Some(max) ==> job.depth + 1 > max
                ==> after.files == report.files
            &&& forall|k: int|
                report.jobs.len() <= k < after.jobs.len() ==> {
                    &&& (#[trigger] after.jobs[k]).root == job.root
                    &&& after.jobs[k].depth == job.depth + 1
                    &&& after.jobs[k].depth <= MAX_WALK_DEPTH
                    &&& ground.options.max_depth matches Some(max) ==> after.jobs[k].depth < max
                }
        }),
    decreases entries.len(),
{
    if entries.len() == 0 {
        assert(report.files.take(report.files.len() as int) =~= report.files);
        assert(report.jobs.take(report.jobs.len() as int) =~= report.jobs);
    } else {
        law_depth_is_bounded(ground, job, report, entries.drop_last());
        let before = walk::reported_all(ground, job, report, entries.drop_last());
        let after = walk::reported_all(ground, job, report, entries);
        assert(after == walk::reported(ground, job, before, entries.last()));
        assert(after.files.take(report.files.len() as int) =~= before.files.take(
            report.files.len() as int,
        ));
        assert(after.jobs.take(report.jobs.len() as int) =~= before.jobs.take(
            report.jobs.len() as int,
        ));
        assert forall|k: int| report.jobs.len() <= k < after.jobs.len() implies {
            &&& (#[trigger] after.jobs[k]).root == job.root
            &&& after.jobs[k].depth == job.depth + 1
            &&& after.jobs[k].depth <= MAX_WALK_DEPTH
            &&& ground.options.max_depth matches Some(max) ==> after.jobs[k].depth < max
        } by {
            if k < before.jobs.len() {
                assert(after.jobs[k] == before.jobs[k]);
            }
        }
    }
}

// ---------------------------------------------------------------------------
// Order of work
// ---------------------------------------------------------------------------

/// Scanning a directory leads one level deeper, within the ceiling.
pub open spec fn descends(expand: spec_fn(Job) -> Report) -> bool {
    forall|job: Job, k: int|
        0 <= k < expand(job).jobs.len() ==> (#[trigger] expand(job).jobs[k]).depth == job.depth + 1
            <= MAX_WALK_DEPTH
}

/// What scanning a directory gives, where a file system holds these entries
/// and fails in these ways.
pub open spec fn scanning(
    ground: Ground,
    entries: spec_fn(Job) -> Seq<EntryInfo>,
    failures: spec_fn(Job) -> Seq<IoError>,
) -> spec_fn(Job) -> Report {
    |job: Job|
        walk::reported_all(ground, job, walk::failed(job.dir, failures(job)), entries(job))
}

/// Whatever the directories of a file system hold, scanning them leads one
/// level deeper each time, within the ceiling: a walk ends, even among links
/// that lead in a circle.
pub proof fn law_scanning_descends(
    ground: Ground,
    entries: spec_fn(Job) -> Seq<EntryInfo>,
    failures: spec_fn(Job) -> Seq<IoError>,
)
    ensures
        descends(scanning(ground, entries, failures)),
{
    let expand = scanning(ground, entries, failures);
    assert forall|job: Job, k: int| 0 <= k < expand(job).jobs.len() implies (
    #[trigger] expand(job).jobs[k]).depth == job.depth + 1 <= MAX_WALK_DEPTH by {
        let start = walk::failed(job.dir, failures(job));
        let after = walk::reported_all(ground, job, start, entries(job));
        law_depth_is_bounded(ground, job, start, entries(job));
        assert(expand(job) == after);
        assert(after.jobs[k].depth == job.depth + 1);
    }
}

/// The files in a directory and everything below it.
pub open spec fn harvest(expand: spec_fn(Job) -> Report, job: Job) -> Multiset<Hit>
    decreases MAX_WALK_DEPTH - job.depth + 1, expand(job).jobs.len() + 1,
{
    expand(job).files.to_multiset().add(
        harvest_below(expand, expand(job).jobs, expand(job).jobs.len() as int, job.depth),
    )
}

/// The files in and below the first `k` of some directories deeper than
/// `depth`.
pub open spec fn harvest_below(
    expand: spec_fn(Job) -> Report,
    list: Seq<Job>,
    k: int,
    depth: int,
) -> Multiset<Hit>
    decreases MAX_WALK_DEPTH - depth + 1, k,
{
    if k <= 0 || k > list.len() {
        Multiset::empty()
    } else {
        harvest_below(expand, list, k - 1, depth).add(
            if depth < list[k - 1].depth <= MAX_WALK_DEPTH {
                harvest(expand, list[k - 1])
            } else {
                Multiset::empty()
            },
        )
    }
}

/// The files in and below some directories.
pub open spec fn harvest_all(expand: spec_fn(Job) -> Report, list: Seq<Job>) -> Multiset<Hit>
    decreases list.len(),
{
    if list.len() == 0 {
        Multiset::empty()
    } else {
        harvest_all(expand, list.drop_last()).add(harvest(expand, list.last()))
    }
}

/// Directories left to scan and files found so far.
pub struct Stage {
    pub left: Seq<Job>,
    pub found: Multiset<Hit>,
}

/// The stage after one more directory, any one, is scanned.
pub open spec fn advanced(expand: spec_fn(Job) -> Report, stage: Stage, pick: int) -> Stage {
    let report = expand(stage.left[pick]);
    Stage {
        left: stage.left.remove(pick) + report.jobs,
        found: stage.found.add(report.files.to_multiset()),
    }
}

/// The stage after some directories are scanned, picked in any order.
pub open spec fn worked(expand: spec_fn(Job) -> Report, stage: Stage, picks: Seq<int>) -> Stage
    decreases picks.len(),
{
    if picks.len() == 0 {
        stage
    } else {
        let before = worked(expand, stage, picks.drop_last());
        if 0 <= picks.last() < before.left.len() {
            advanced(expand, before, picks.last())
        } else {
            before
        }
    }
}

proof fn lemma_harvest_remove(expand: spec_fn(Job) -> Report, list: Seq<Job>, i: int)
    requires
        0 <= i < list.len(),
    ensures
        harvest_all(expand, list) == harvest_all(expand, list.remove(i)).add(
            harvest(expand, list[i]),
        ),
    decreases list.len(),
{
    if i == list.len() - 1 {
        assert(list.remove(i) =~= list.drop_last());
    } else {
        lemma_harvest_remove(expand, list.drop_last(), i);
        assert(list.remove(i).drop_last() =~= list.drop_last().remove(i));
        assert(list.remove(i).last() == list.last());
        assert(harvest_all(expand, list) =~= harvest_all(expand, list.remove(i)).add(
            harvest(expand, list[i]),
        ));
    }
}

proof fn lemma_harvest_concat(expand: spec_fn(Job) -> Report, a: Seq<Job>, b: Seq<Job>)
    ensures
        harvest_all(expand, a + b) == harvest_all(expand, a).add(harvest_all(expand, b)),
    decreases b.len(),
{
    if b.len() == 0 {
        assert(a + b =~= a);
        assert(harvest_all(expand, a).add(Multiset::empty()) =~= harvest_all(expand, a));
    } else {
        lemma_harvest_concat(expand, a, b.drop_last());
        assert((a + b).drop_last() =~= a + b.drop_last());
        assert(harvest_all(expand, a + b) =~= harvest_all(expand, a).add(
            harvest_all(expand, b),
        ));
    }
}

proof fn lemma_harvest_below(
    expand: spec_fn(Job) -> Report,
    list: Seq<Job>,
    k: int,
    depth: int,
)
    requires
        0 <= k <= list.len(),
        forall|i: int| 0 <= i < list.len() ==> depth < (#[trigger] list[i]).depth <= MAX_WALK_DEPTH,
    ensures
        harvest_below(expand, list, k, depth) == harvest_all(expand, list.take(k)),
    decreases k,
{
    if k > 0 {
        lemma_harvest_below(expand, list, k - 1, depth);
        assert(list.take(k).drop_last() =~= list.take(k - 1));
        assert(list.take(k).last() == list[k - 1]);
    }
}

/// Scanning a directory moves files from what is to be found to what is found.
proof fn lemma_advance(expand: spec_fn(Job) -> Report, stage: Stage, pick: int)
    requires
        descends(expand),
        0 <= pick < stage.left.len(),
    ensures
        ({
            let after = advanced(expand, stage, pick);
            after.found.add(harvest_all(expand, after.left)) == stage.found.add(
                harvest_all(expand, stage.left),
            )
        }),
{
    let job = stage.left[pick];
    let report = expand(job);
    let n = report.jobs.len() as int;
    lemma_harvest_remove(expand, stage.left, pick);
    lemma_harvest_concat(expand, stage.left.remove(pick), report.jobs);
    assert forall|i: int| 0 <= i < n implies job.depth < (#[trigger] report.jobs[i]).depth
        <= MAX_WALK_DEPTH by {
        assert(expand(job).jobs[i].depth == job.depth + 1);
    }
    lemma_harvest_below(expand, report.jobs, n, job.depth);
    assert(report.jobs.take(n) =~= report.jobs);
    let after = advanced(expand, stage, pick);
    assert(after.found.add(harvest_all(expand, after.left)) =~= stage.found.add(
        harvest_all(expand, stage.left),
    ));
}

/// However many workers share the directories and in whatever order they scan
/// them, a walk that has nothing left has found the same files: those in and
/// below the directories that it started with.
pub proof fn law_order_of_work_does_not_matter(
    expand: spec_fn(Job) -> Report,
    stage: Stage,
    picks: Seq<int>,
)
    requires
        descends(expand),
    ensures
        ({
            let end = worked(expand, stage, picks);
            &&& end.found.add(harvest_all(expand, end.left)) == stage.found.add(
                harvest_all(expand, stage.left),
            )
            &&& end.left.len() == 0 ==> end.found == stage.found.add(
                harvest_all(expand, stage.left),
            )
        }),
    decreases picks.len(),
{
    let end = worked(expand, stage, picks);
    if picks.len() > 0 {
        law_order_of_work_does_not_matter(expand, stage, picks.drop_last());
        let before = worked(expand, stage, picks.drop_last());
        if 0 <= picks.last() < before.left.len() {
            lemma_advance(expand, before, picks.last());
        }
    }
    if end.left.len() == 0 {
        assert(end.found.add(Multiset::empty()) =~= end.found);
    }
}

// ---------------------------------------------------------------------------
// Handles
// ---------------------------------------------------------------------------

/// A directory without the handle by which the caller finds it again.
pub open spec fn nameless(job: Job) -> Job {
    Job { id: 0, ..job }
}

/// Some directories without their handles.
pub open spec fn nameless_jobs(list: Seq<Job>) -> Seq<Job> {
    list.map_values(|job: Job| nameless(job))
}

/// Some files without their handles.
pub open spec fn nameless_files(list: Seq<Hit>) -> Seq<Hit> {
    list.map_values(|hit: Hit| Hit { id: 0, ..hit })
}

/// A report without handles.
pub open spec fn nameless_report(report: Report) -> Report {
    Report { files: nameless_files(report.files), jobs: nameless_jobs(report.jobs), ..report }
}

/// Two entries that differ in their handles at most.
pub open spec fn same_entry(a: EntryInfo, b: EntryInfo) -> bool {
    a.name@ == b.name@ && a.kind == b.kind && a.size == b.size && a.target == b.target
}

/// What scanning a directory gives depends on handles in nothing but the
/// handles.
pub proof fn law_handles_do_not_matter(
    ground: Ground,
    one: Job,
    other: Job,
    before: Report,
    also: Report,
    a: Seq<EntryInfo>,
    b: Seq<EntryInfo>,
)
    requires
        nameless(one) == nameless(other),
        nameless_report(before) == nameless_report(also),
        a.len() == b.len(),
        forall|k: int| 0 <= k < a.len() ==> same_entry(#[trigger] a[k], b[k]),
    ensures
        nameless_report(walk::reported_all(ground, one, before, a)) == nameless_report(
            walk::reported_all(ground, other, also, b),
        ),
    decreases a.len(),
{
    if a.len() > 0 {
        let (left, right) = (a.drop_last(), b.drop_last());
        assert forall|k: int| 0 <= k < left.len() implies same_entry(
            #[trigger] left[k],
            right[k],
        ) by {
            assert(same_entry(a[k], b[k]));
        }
        law_handles_do_not_matter(ground, one, other, before, also, left, right);
        assert(same_entry(a[a.len() - 1], b[a.len() - 1]));
        lemma_handles_of_one(
            ground,
            one,
            other,
            walk::reported_all(ground, one, before, left),
            walk::reported_all(ground, other, also, right),
            a.last(),
            b.last(),
        );
    }
}

proof fn lemma_handles_of_one(
    ground: Ground,
    one: Job,
    other: Job,
    before: Report,
    also: Report,
    a: EntryInfo,
    b: EntryInfo,
)
    requires
        nameless(one) == nameless(other),
        nameless_report(before) == nameless_report(also),
        same_entry(a, b),
    ensures
        nameless_report(walk::reported(ground, one, before, a)) == nameless_report(
            walk::reported(ground, other, also, b),
        ),
{
    let (x, y) = (nameless(one), nameless(other));
    assert(x.root == y.root && x.dir == y.dir && x.relative == y.relative && x.depth == y.depth);
    let (after, then_too) = (
        walk::reported(ground, one, before, a),
        walk::reported(ground, other, also, b),
    );
    let (p, q) = (nameless_report(before), nameless_report(also));
    assert(p.files == q.files && p.jobs == q.jobs && p.errors == q.errors);
    assert(walk::thing(ground.options, a) == walk::thing(ground.options, b));
    lemma_nameless_push(before);
    lemma_nameless_push(also);
    assert(nameless_report(after) =~= nameless_report(then_too));
}

proof fn lemma_nameless_push(report: Report)
    ensures
        forall|hit: Hit|
            nameless_files(#[trigger] report.files.push(hit)) == nameless_files(report.files).push(
                Hit { id: 0, ..hit },
            ),
        forall|job: Job|
            nameless_jobs(#[trigger] report.jobs.push(job)) == nameless_jobs(report.jobs).push(
                nameless(job),
            ),
{
    assert forall|hit: Hit|
        nameless_files(#[trigger] report.files.push(hit)) == nameless_files(report.files).push(
            Hit { id: 0, ..hit },
        ) by {
        assert(nameless_files(report.files.push(hit)) =~= nameless_files(report.files).push(
            Hit { id: 0, ..hit },
        ));
    }
    assert forall|job: Job|
        nameless_jobs(#[trigger] report.jobs.push(job)) == nameless_jobs(report.jobs).push(
            nameless(job),
        ) by {
        assert(nameless_jobs(report.jobs.push(job)) =~= nameless_jobs(report.jobs).push(
            nameless(job),
        ));
    }
}

// ---------------------------------------------------------------------------
// Shared walks
// ---------------------------------------------------------------------------

/// What one worker does to a shared walk: it takes a directory, as
/// [`walk::Progress::next`] hands it out, or it hands in what scanning gave,
/// as [`walk::Progress::complete`] takes it in, for one of the directories that
/// are handed out.
pub enum Event {
    Take,
    HandIn(int),
}

/// A walk, the directories that its workers hold, and the counters.
#[verifier::ext_equal]
pub struct Shift {
    pub work: Work,
    pub held: Seq<Job>,
    pub stats: Stats,
}

/// A walk that no worker has begun.
pub open spec fn fresh(work: Work, stats: Stats) -> Shift {
    Shift { work, held: Seq::empty(), stats }
}

/// A shared walk after one more event. An event that cannot happen changes
/// nothing.
pub open spec fn stepped(expand: spec_fn(Job) -> Report, shift: Shift, event: Event) -> Shift {
    match event {
        Event::Take => if shift.work.queue.len() > 0 {
            Shift {
                work: walk::handed_out(shift.work),
                held: shift.held.push(shift.work.queue[0]),
                ..shift
            }
        } else {
            shift
        },
        Event::HandIn(k) => if 0 <= k < shift.held.len() {
            let report = expand(shift.held[k]);
            Shift {
                work: walk::absorbed(shift.work, report),
                held: shift.held.remove(k),
                stats: stats::bumped(
                    shift.stats,
                    Counter::FilesFound,
                    report.files.len() as int,
                ),
            }
        } else {
            shift
        },
    }
}

/// A shared walk after some events, of any number of workers in any order.
pub open spec fn run(expand: spec_fn(Job) -> Report, shift: Shift, events: Seq<Event>) -> Shift
    decreases events.len(),
{
    if events.len() == 0 {
        shift
    } else {
        stepped(expand, run(expand, shift, events.drop_last()), events.last())
    }
}

/// Scanning shows a tree of files and directories, up to handles.
pub open spec fn shows(expand: spec_fn(Job) -> Report, tree: spec_fn(Job) -> Report) -> bool {
    forall|job: Job| nameless_report(#[trigger] expand(job)) == tree(nameless(job))
}

/// The tree that scanning shows.
pub open spec fn shown_by(expand: spec_fn(Job) -> Report) -> spec_fn(Job) -> Report {
    |job: Job| nameless_report(expand(nameless(job)))
}

/// Two file systems hold the same entries, up to handles.
pub open spec fn same_entries(
    a: spec_fn(Job) -> Seq<EntryInfo>,
    b: spec_fn(Job) -> Seq<EntryInfo>,
) -> bool {
    &&& forall|job: Job| #[trigger] a(job).len() == b(nameless(job)).len()
    &&& forall|job: Job, k: int|
        0 <= k < a(job).len() ==> same_entry(#[trigger] a(job)[k], b(nameless(job))[k])
}

/// A file system fails in the same ways, whatever the handles.
pub open spec fn same_failures(failures: spec_fn(Job) -> Seq<IoError>) -> bool {
    forall|job: Job| #[trigger] failures(job) == failures(nameless(job))
}

/// A file system whose directories hold the same entries under whatever
/// handles shows a tree, and scanning it leads deeper each time.
pub proof fn law_scanning_shows_a_tree(
    ground: Ground,
    entries: spec_fn(Job) -> Seq<EntryInfo>,
    failures: spec_fn(Job) -> Seq<IoError>,
)
    requires
        same_entries(entries, entries),
        same_failures(failures),
    ensures
        ({
            let expand = scanning(ground, entries, failures);
            shows(expand, shown_by(expand)) && descends(shown_by(expand))
        }),
{
    let expand = scanning(ground, entries, failures);
    let tree = shown_by(expand);
    assert forall|job: Job| nameless_report(#[trigger] expand(job)) == tree(nameless(job)) by {
        let plain = nameless(job);
        assert(nameless(plain) == plain);
        assert(entries(job).len() == entries(plain).len());
        assert(failures(job) == failures(plain));
        let before = walk::failed(job.dir, failures(job));
        law_handles_do_not_matter(
            ground,
            job,
            plain,
            before,
            before,
            entries(job),
            entries(plain),
        );
    }
    law_scanning_descends(ground, entries, failures);
    assert forall|job: Job, k: int| 0 <= k < tree(job).jobs.len() implies (
    #[trigger] tree(job).jobs[k]).depth == job.depth + 1 <= MAX_WALK_DEPTH by {
        let plain = nameless(job);
        assert(tree(job).jobs[k].depth == expand(plain).jobs[k].depth);
    }
}

/// The files that a shared walk has found, and those that it is to find still.
pub open spec fn prospect(tree: spec_fn(Job) -> Report, shift: Shift) -> Multiset<Hit> {
    nameless_files(shift.work.files).to_multiset().add(
        harvest_all(tree, nameless_jobs(shift.work.queue + shift.held)),
    )
}

proof fn lemma_nameless_split(list: Seq<Job>, more: Seq<Job>)
    ensures
        nameless_jobs(list + more) == nameless_jobs(list) + nameless_jobs(more),
{
    assert(nameless_jobs(list + more) =~= nameless_jobs(list) + nameless_jobs(more));
}

proof fn lemma_take(tree: spec_fn(Job) -> Report, shift: Shift)
    requires
        shift.work.queue.len() > 0,
    ensures
        prospect(tree, stepped(tree, shift, Event::Take)) == prospect(tree, shift),
{
    let (queue, held) = (shift.work.queue, shift.held);
    let before = nameless_jobs(queue + held);
    let after = nameless_jobs(queue.drop_first() + held.push(queue[0]));
    lemma_harvest_remove(tree, before, 0);
    assert(after.drop_last() =~= before.remove(0));
    assert(after.last() == before[0]);
}

proof fn lemma_hand_in(
    expand: spec_fn(Job) -> Report,
    tree: spec_fn(Job) -> Report,
    shift: Shift,
    k: int,
)
    requires
        descends(tree),
        shows(expand, tree),
        0 <= k < shift.held.len(),
    ensures
        prospect(tree, stepped(expand, shift, Event::HandIn(k))) == prospect(tree, shift),
{
    broadcast use group_to_multiset_ensures;

    let (queue, held) = (shift.work.queue, shift.held);
    let report = expand(held[k]);
    assert(nameless_report(report) == tree(nameless(held[k])));
    let stage = Stage {
        left: nameless_jobs(queue + held),
        found: nameless_files(shift.work.files).to_multiset(),
    };
    let pick = queue.len() + k;
    assert(stage.left[pick] == nameless(held[k]));
    lemma_advance(tree, stage, pick);
    let after = advanced(tree, stage, pick);
    // The new directories stand behind the queue, not behind those held.
    let rest = held.remove(k);
    assert(stage.left.remove(pick) =~= nameless_jobs(queue) + nameless_jobs(rest));
    let (a, b, c) = (nameless_jobs(queue), nameless_jobs(rest), nameless_jobs(report.jobs));
    lemma_harvest_concat(tree, a + b, c);
    lemma_harvest_concat(tree, a, b);
    lemma_harvest_concat(tree, a + c, b);
    lemma_harvest_concat(tree, a, c);
    assert(harvest_all(tree, a + b + c) =~= harvest_all(tree, a + c + b));
    lemma_nameless_split(queue + report.jobs, rest);
    lemma_nameless_split(queue, report.jobs);
    assert(nameless_files(shift.work.files + report.files) =~= nameless_files(shift.work.files)
        + nameless_files(report.files));
    vstd::seq_lib::lemma_multiset_commutative(
        nameless_files(shift.work.files),
        nameless_files(report.files),
    );
}

proof fn lemma_step(
    expand: spec_fn(Job) -> Report,
    tree: spec_fn(Job) -> Report,
    shift: Shift,
    event: Event,
)
    requires
        descends(tree),
        shows(expand, tree),
        shift.work.running == shift.held.len(),
    ensures
        ({
            let after = stepped(expand, shift, event);
            &&& after.work.running == after.held.len()
            &&& prospect(tree, after) == prospect(tree, shift)
            &&& after.work.files.len() >= shift.work.files.len()
            &&& after.stats == stats::bumped(
                shift.stats,
                Counter::FilesFound,
                after.work.files.len() - shift.work.files.len(),
            )
        }),
{
    stats::lemma_bumped_by_nothing(shift.stats, Counter::FilesFound);
    match event {
        Event::Take => {
            if shift.work.queue.len() > 0 {
                lemma_take(tree, shift);
            }
        },
        Event::HandIn(k) => {
            if 0 <= k < shift.held.len() {
                lemma_hand_in(expand, tree, shift, k);
            }
        },
    }
}

/// A walk that has nothing pending has found the files in and below the
/// directories that it started with, and counted each of them, however many
/// workers shared it and in whatever order they took directories and handed in
/// what they found.
pub proof fn law_shared_walks_find_every_file(
    expand: spec_fn(Job) -> Report,
    tree: spec_fn(Job) -> Report,
    work: Work,
    stats: Stats,
    events: Seq<Event>,
)
    requires
        descends(tree),
        shows(expand, tree),
        work.running == 0,
    ensures
        ({
            let end = run(expand, fresh(work, stats), events);
            &&& end.work.running == end.held.len()
            &&& prospect(tree, end) == prospect(tree, fresh(work, stats))
            &&& end.work.files.len() >= work.files.len()
            &&& end.stats == stats::bumped(
                stats,
                Counter::FilesFound,
                end.work.files.len() - work.files.len(),
            )
            &&& end.work.pending() == 0 ==> nameless_files(end.work.files).to_multiset()
                == nameless_files(work.files).to_multiset().add(
                harvest_all(tree, nameless_jobs(work.queue)),
            )
        }),
    decreases events.len(),
{
    let start = fresh(work, stats);
    let end = run(expand, start, events);
    if events.len() == 0 {
        stats::lemma_bumped_by_nothing(stats, Counter::FilesFound);
    } else {
        law_shared_walks_find_every_file(expand, tree, work, stats, events.drop_last());
        let before = run(expand, start, events.drop_last());
        lemma_step(expand, tree, before, events.last());
        stats::lemma_bumped_twice(
            stats,
            Counter::FilesFound,
            before.work.files.len() - work.files.len(),
            end.work.files.len() - before.work.files.len(),
        );
    }
    if end.work.pending() == 0 {
        assert(nameless_jobs(end.work.queue + end.held) =~= Seq::<Job>::empty());
        assert(prospect(tree, end) =~= nameless_files(end.work.files).to_multiset());
        assert(work.queue + Seq::<Job>::empty() =~= work.queue);
    }
}

// ---------------------------------------------------------------------------
// Order of files
// ---------------------------------------------------------------------------

proof fn lemma_path_keys(a: Seq<Found>, b: Seq<Found>)
    requires
        walk::hits(a).to_multiset() == walk::hits(b).to_multiset(),
    ensures
        sorting::keys(a).to_multiset() == sorting::keys(b).to_multiset(),
    decreases a.len(),
{
    broadcast use group_to_multiset_ensures;

    let (ha, hb) = (walk::hits(a), walk::hits(b));
    assert(ha.len() == ha.to_multiset().len() && hb.len() == hb.to_multiset().len());
    if a.len() == 0 {
        assert(sorting::keys(a) =~= sorting::keys(b));
    } else {
        let last = ha.last();
        assert(ha.to_multiset().contains(last));
        assert(hb.contains(last));
        let k = choose|k: int| 0 <= k < hb.len() && hb[k] == last;
        let rest = b.remove(k);
        assert(ha.drop_last().push(last) =~= ha);
        assert(ha.to_multiset() =~= ha.drop_last().to_multiset().insert(last));
        assert(walk::hits(a.drop_last()) =~= ha.drop_last());
        assert(walk::hits(rest) =~= hb.remove(k));
        assert(ha.drop_last().to_multiset() =~= hb.remove(k).to_multiset());
        lemma_path_keys(a.drop_last(), rest);
        let (ka, kb) = (sorting::keys(a), sorting::keys(b));
        assert(b[k]@.path == a.last()@.path);
        assert(ka =~= sorting::keys(a.drop_last()).push(a.last().key()));
        assert(kb.remove(k) =~= sorting::keys(rest));
        assert(kb[k] == a.last().key());
        assert(kb.to_multiset() =~= kb.remove(k).to_multiset().insert(kb[k]));
    }
}

/// Two walks that found the same files list them in the same order.
pub proof fn law_file_order_is_fixed(a: Seq<Found>, b: Seq<Found>)
    requires
        sorting::in_order(a),
        sorting::in_order(b),
        walk::hits(a).to_multiset() == walk::hits(b).to_multiset(),
    ensures
        sorting::keys(a) == sorting::keys(b),
{
    lemma_path_keys(a, b);
    let (ka, kb) = (sorting::keys(a), sorting::keys(b));
    assert forall|i: int, j: int| 0 <= i <= j < ka.len() implies #[trigger] sorting::le(
        ka[i],
        ka[j],
    ) by {
        assert(sorting::le(a[i].key(), a[j].key()));
    }
    assert forall|i: int, j: int| 0 <= i <= j < kb.len() implies #[trigger] sorting::le(
        kb[i],
        kb[j],
    ) by {
        assert(sorting::le(b[i].key(), b[j].key()));
    }
    sorting::law_sorted_keys_are_unique(ka, kb);
}

/// The same files are the same without their handles.
proof fn lemma_nameless_multiset(a: Seq<Hit>, b: Seq<Hit>)
    requires
        a.to_multiset() == b.to_multiset(),
    ensures
        nameless_files(a).to_multiset() == nameless_files(b).to_multiset(),
    decreases a.len(),
{
    broadcast use group_to_multiset_ensures;

    assert(a.len() == a.to_multiset().len() && b.len() == b.to_multiset().len());
    if a.len() == 0 {
        assert(nameless_files(a) =~= nameless_files(b));
    } else {
        let last = a.last();
        assert(a.to_multiset().contains(last));
        assert(b.contains(last));
        let k = choose|k: int| 0 <= k < b.len() && b[k] == last;
        let rest = b.remove(k);
        assert(a.drop_last().push(last) =~= a);
        assert(a.to_multiset() =~= a.drop_last().to_multiset().insert(last));
        assert(a.drop_last().to_multiset() =~= rest.to_multiset());
        lemma_nameless_multiset(a.drop_last(), rest);
        let plain = Hit { id: 0, ..last };
        assert(nameless_files(a) =~= nameless_files(a.drop_last()).push(plain));
        assert(nameless_files(b).remove(k) =~= nameless_files(rest));
        assert(nameless_files(b)[k] == plain);
        assert(nameless_files(b).to_multiset() =~= nameless_files(rest).to_multiset().insert(
            plain,
        ));
    }
}

proof fn lemma_nameless_hits(a: Seq<Found>) -> (b: Seq<Found>)
    requires
        sorting::in_order(a),
    ensures
        walk::hits(b) == nameless_files(walk::hits(a)),
        sorting::keys(b) == sorting::keys(a),
        sorting::in_order(b),
{
    let b = a.map_values(|found: Found| Found { id: 0, ..found });
    assert(walk::hits(b) =~= nameless_files(walk::hits(a)));
    assert(sorting::keys(b) =~= sorting::keys(a));
    assert forall|i: int, j: int| 0 <= i <= j < b.len() implies #[trigger] sorting::le(
        b[i].key(),
        b[j].key(),
    ) by {
        assert(sorting::le(a[i].key(), a[j].key()));
    }
    b
}

/// Two walks over the same tree that end, started with the same roots, list
/// the same paths in the same order, whatever their workers did when: `a` and
/// `b` are the lists that [`walk::Progress::finish`] makes of them.
pub proof fn law_walks_agree(
    tree: spec_fn(Job) -> Report,
    one: spec_fn(Job) -> Report,
    other: spec_fn(Job) -> Report,
    work: Work,
    also: Work,
    stats: Stats,
    first: Seq<Event>,
    second: Seq<Event>,
    a: Seq<Found>,
    b: Seq<Found>,
)
    requires
        descends(tree),
        shows(one, tree),
        shows(other, tree),
        work.running == 0 && also.running == 0,
        nameless_files(work.files) == nameless_files(also.files),
        nameless_jobs(work.queue) == nameless_jobs(also.queue),
        ({
            let end = run(one, fresh(work, stats), first).work;
            &&& end.pending() == 0
            &&& walk::hits(a).to_multiset() == end.files.to_multiset()
        }),
        ({
            let end = run(other, fresh(also, stats), second).work;
            &&& end.pending() == 0
            &&& walk::hits(b).to_multiset() == end.files.to_multiset()
        }),
        sorting::in_order(a),
        sorting::in_order(b),
    ensures
        sorting::keys(a) == sorting::keys(b),
{
    law_shared_walks_find_every_file(one, tree, work, stats, first);
    law_shared_walks_find_every_file(other, tree, also, stats, second);
    let end = run(one, fresh(work, stats), first).work.files;
    let then_too = run(other, fresh(also, stats), second).work.files;
    lemma_nameless_multiset(walk::hits(a), end);
    lemma_nameless_multiset(walk::hits(b), then_too);
    let x = lemma_nameless_hits(a);
    let y = lemma_nameless_hits(b);
    law_file_order_is_fixed(x, y);
}

// ---------------------------------------------------------------------------
// Whole walks
// ---------------------------------------------------------------------------

/// The roots that are files and pass the filter, hidden or not.
pub open spec fn root_files(roots: Seq<Root>, filter: Selection) -> Seq<Hit>
    decreases roots.len(),
{
    if roots.len() == 0 {
        Seq::empty()
    } else {
        let before = root_files(roots.drop_last(), filter);
        let root = roots.last();
        match root.status {
            RootStatus::File(size) => if filter.accepts(
                paths::explicit_name(root.path@),
                size as nat,
            ) {
                before.push(Hit { path: root.path@, id: root.id as int })
            } else {
                before
            },
            _ => before,
        }
    }
}

/// The roots that cannot be inspected, each with the message about it.
pub open spec fn root_errors(roots: Seq<Root>) -> Seq<Problem>
    decreases roots.len(),
{
    if roots.len() == 0 {
        Seq::empty()
    } else {
        let before = root_errors(roots.drop_last());
        match roots.last().status {
            RootStatus::Failed(err) => before.push(
                Problem {
                    path: roots.last().path@,
                    message: error::io_phrase(err.kind, err.message@),
                },
            ),
            _ => before,
        }
    }
}

/// The directories among the roots, in order.
pub open spec fn root_dirs(roots: Seq<Root>) -> Seq<Seq<char>>
    decreases roots.len(),
{
    if roots.len() == 0 {
        Seq::empty()
    } else {
        let before = root_dirs(roots.drop_last());
        match roots.last().status {
            RootStatus::Directory => before.push(roots.last().path@),
            _ => before,
        }
    }
}

/// What [`walk::walk`] makes of some roots.
pub open spec fn outset(
    roots: Seq<Root>,
    options: WalkOptions,
    filter: Selection,
    stats: Stats,
) -> Survey {
    walk::surveyed_all(
        Survey { ignore: Seq::empty(), work: walk::idle(), stats },
        roots,
        options,
        filter,
    )
}

/// Every root is dealt with, whatever became of the others: a file is accepted
/// where it passes the filter, hidden or not; a root that cannot be inspected
/// is reported once; a directory is to be walked. The accepted files are
/// counted.
pub proof fn law_every_root_is_dealt_with(
    roots: Seq<Root>,
    options: WalkOptions,
    filter: Selection,
    stats: Stats,
)
    ensures
        ({
            let survey = outset(roots, options, filter, stats);
            &&& survey.work.files == root_files(roots, filter)
            &&& survey.work.errors == root_errors(roots)
            &&& survey.work.queue.map_values(|job: Job| job.dir) == root_dirs(roots)
            &&& survey.work.running == 0
            &&& survey.stats == stats::bumped(
                stats,
                Counter::FilesFound,
                root_files(roots, filter).len() as int,
            )
        }),
    decreases roots.len(),
{
    let survey = outset(roots, options, filter, stats);
    if roots.len() == 0 {
        stats::lemma_bumped_by_nothing(stats, Counter::FilesFound);
        assert(survey.work.queue.map_values(|job: Job| job.dir) =~= root_dirs(roots));
    } else {
        law_every_root_is_dealt_with(roots.drop_last(), options, filter, stats);
        let before = outset(roots.drop_last(), options, filter, stats);
        stats::lemma_bumped_twice(
            stats,
            Counter::FilesFound,
            before.work.files.len() as int,
            1,
        );
        assert(survey.work.queue.map_values(|job: Job| job.dir) =~= root_dirs(roots));
    }
}

proof fn lemma_outset_threads(
    roots: Seq<Root>,
    options: WalkOptions,
    threads: usize,
    filter: Selection,
    stats: Stats,
)
    ensures
        outset(roots, WalkOptions { threads, ..options }, filter, stats) == outset(
            roots,
            options,
            filter,
            stats,
        ),
    decreases roots.len(),
{
    if roots.len() > 0 {
        lemma_outset_threads(roots.drop_last(), options, threads, filter, stats);
    }
}

proof fn lemma_scan_threads(
    ground: Ground,
    threads: usize,
    job: Job,
    report: Report,
    entries: Seq<EntryInfo>,
)
    ensures
        walk::reported_all(
            Ground { options: WalkOptions { threads, ..ground.options }, ..ground },
            job,
            report,
            entries,
        ) == walk::reported_all(ground, job, report, entries),
    decreases entries.len(),
{
    if entries.len() > 0 {
        lemma_scan_threads(ground, threads, job, report, entries.drop_last());
    }
}

proof fn lemma_errors_stay(expand: spec_fn(Job) -> Report, shift: Shift, events: Seq<Event>)
    ensures
        ({
            let end = run(expand, shift, events);
            &&& end.work.errors.len() >= shift.work.errors.len()
            &&& end.work.errors.take(shift.work.errors.len() as int) == shift.work.errors
        }),
    decreases events.len(),
{
    let n = shift.work.errors.len() as int;
    let end = run(expand, shift, events);
    if events.len() == 0 {
        assert(shift.work.errors.take(n) =~= shift.work.errors);
    } else {
        lemma_errors_stay(expand, shift, events.drop_last());
        let before = run(expand, shift, events.drop_last());
        assert(end.work.errors.take(n) =~= before.work.errors.take(n));
    }
}

/// A walk as a whole does not depend on the number of threads. Two walks of the
/// same roots over a file system that holds still, with the same options but
/// any numbers of threads, whose workers took and handed in directories in any
/// order until nothing was pending: the files that they list, sorted by path,
/// have the same paths in the same order; each root that cannot be inspected is
/// reported; and the files found are counted.
pub proof fn law_walks_do_not_depend_on_threads(
    roots: Seq<Root>,
    options: WalkOptions,
    threads: usize,
    filter: Selection,
    stats: Stats,
    entries: spec_fn(Job) -> Seq<EntryInfo>,
    again: spec_fn(Job) -> Seq<EntryInfo>,
    failures: spec_fn(Job) -> Seq<IoError>,
    first: Seq<Event>,
    second: Seq<Event>,
    a: Seq<Found>,
    b: Seq<Found>,
)
    requires
        same_entries(entries, entries),
        same_entries(again, entries),
        same_failures(failures),
        ({
            let survey = outset(roots, options, filter, stats);
            let ground = Ground { options, filter, ignore: survey.ignore };
            let end = run(
                scanning(ground, entries, failures),
                fresh(survey.work, survey.stats),
                first,
            );
            &&& end.work.pending() == 0
            &&& walk::hits(a).to_multiset() == end.work.files.to_multiset()
        }),
        ({
            let others = WalkOptions { threads, ..options };
            let survey = outset(roots, others, filter, stats);
            let ground = Ground { options: others, filter, ignore: survey.ignore };
            let end = run(
                scanning(ground, again, failures),
                fresh(survey.work, survey.stats),
                second,
            );
            &&& end.work.pending() == 0
            &&& walk::hits(b).to_multiset() == end.work.files.to_multiset()
        }),
        sorting::in_order(a),
        sorting::in_order(b),
    ensures
        sorting::keys(a) == sorting::keys(b),
        ({
            let survey = outset(roots, options, filter, stats);
            let ground = Ground { options, filter, ignore: survey.ignore };
            let end = run(
                scanning(ground, entries, failures),
                fresh(survey.work, survey.stats),
                first,
            );
            let failed = root_errors(roots);
            &&& end.stats == stats::bumped(stats, Counter::FilesFound, a.len() as int)
            &&& end.work.errors.len() >= failed.len()
            &&& end.work.errors.take(failed.len() as int) == failed
        }),
{
    broadcast use group_to_multiset_ensures;

    let others = WalkOptions { threads, ..options };
    let survey = outset(roots, options, filter, stats);
    lemma_outset_threads(roots, options, threads, filter, stats);
    law_every_root_is_dealt_with(roots, options, filter, stats);
    let ground = Ground { options, filter, ignore: survey.ignore };
    let one = scanning(ground, entries, failures);
    let other = scanning(Ground { options: others, ..ground }, again, failures);
    let tree = shown_by(one);
    law_scanning_shows_a_tree(ground, entries, failures);
    assert forall|job: Job| nameless_report(#[trigger] other(job)) == tree(nameless(job)) by {
        let plain = nameless(job);
        assert(nameless(plain) == plain);
        assert(again(job).len() == entries(plain).len());
        assert(failures(job) == failures(plain));
        let before = walk::failed(job.dir, failures(job));
        lemma_scan_threads(ground, threads, job, before, again(job));
        law_handles_do_not_matter(
            ground,
            job,
            plain,
            before,
            before,
            again(job),
            entries(plain),
        );
    }
    law_walks_agree(
        tree,
        one,
        other,
        survey.work,
        survey.work,
        survey.stats,
        first,
        second,
        a,
        b,
    );
    law_shared_walks_find_every_file(one, tree, survey.work, survey.stats, first);
    let end = run(one, fresh(survey.work, survey.stats), first);
    assert(walk::hits(a).len() == walk::hits(a).to_multiset().len());
    assert(end.work.files.len() == end.work.files.to_multiset().len());
    stats::lemma_bumped_twice(
        stats,
        Counter::FilesFound,
        survey.work.files.len() as int,
        end.work.files.len() - survey.work.files.len(),
    );
    lemma_errors_stay(one, fresh(survey.work, survey.stats), first);
}

// ---------------------------------------------------------------------------
// What becomes of an entry
// ---------------------------------------------------------------------------

/// The entry is a file, or a link that is followed to one; its size.
pub open spec fn leads_to_file(options: WalkOptions, entry: EntryInfo) -> Option<nat> {
    if entry.kind == EntryKind::File {
        Some(entry.size as nat)
    } else if entry.kind == EntryKind::Symlink && options.follow {
        match entry.target {
            Target::File(size) => Some(size as nat),
            _ => None,
        }
    } else {
        None
    }
}

/// The entry is a directory, or a link that is followed to one.
pub open spec fn leads_to_dir(options: WalkOptions, entry: EntryInfo) -> bool {
    entry.kind == EntryKind::Dir || entry.kind == EntryKind::Symlink && options.follow
        && entry.target is Dir
}

/// The entry is a link that is followed and cannot be; the failure.
pub open spec fn leads_astray(options: WalkOptions, entry: EntryInfo) -> Option<IoError> {
    if entry.kind == EntryKind::Symlink && options.follow {
        match entry.target {
            Target::Failed(err) => Some(err),
            _ => None,
        }
    } else {
        None
    }
}

/// What becomes of an entry whose name does not hide it. A file is found where
/// it is not too deep, not ignored and accepted by the filter. A directory is
/// to be scanned where its name is not on the skip list, it is not ignored and
/// could hold files that are not too deep; beyond 256 levels it is reported
/// instead. A link that leads nowhere is reported. Nothing else leaves a trace,
/// nor do hidden entries that are not asked for.
pub proof fn law_what_becomes_of_an_entry(
    ground: Ground,
    job: Job,
    report: Report,
    entry: EntryInfo,
)
    ensures
        ({
            let after = walk::reported(ground, job, report, entry);
            let options = ground.options;
            let name = entry.name@;
            let path = paths::child(job.dir, name);
            let relative = paths::child(job.relative, name);
            let seen = options.hidden || name.len() == 0 || name[0] != '.';
            let found = seen && leads_to_file(options, entry) is Some && (options.max_depth is Some
                ==> job.depth + 1 <= options.max_depth->0) && !filters::ignored(
                ground.ignore[job.root],
                paths::slashed(relative),
                false,
            ) && ground.filter.accepts(
                paths::slashed(relative),
                leads_to_file(options, entry)->0,
            );
            let entered = seen && leads_to_dir(options, entry) && (options.max_depth is Some
                ==> job.depth + 1 < options.max_depth->0) && !filters::ignored(
                ground.ignore[job.root],
                paths::slashed(relative),
                true,
            ) && !filters::skipped_dir(name);
            &&& after.files == if found {
                report.files.push(Hit { path, id: entry.id as int })
            } else {
                report.files
            }
            &&& after.jobs == if entered && job.depth < 256 {
                report.jobs.push(
                    Job {
                        root: job.root,
                        id: entry.id as int,
                        dir: path,
                        relative,
                        depth: job.depth + 1,
                    },
                )
            } else {
                report.jobs
            }
            &&& after.errors == if entered && job.depth >= 256 {
                report.errors.push(
                    Problem {
                        path,
                        message: "maximum walk depth (256) exceeded; refusing to descend"@,
                    },
                )
            } else if seen && leads_astray(options, entry) is Some {
                let err = leads_astray(options, entry)->0;
                report.errors.push(
                    Problem { path, message: error::io_phrase(err.kind, err.message@) },
                )
            } else {
                report.errors
            }
        }),
{
}

/// The entries of a directory are dealt with one by one, in order, and none is
/// left out.
pub proof fn law_every_entry_is_dealt_with(
    ground: Ground,
    job: Job,
    report: Report,
    a: Seq<EntryInfo>,
    b: Seq<EntryInfo>,
    entry: EntryInfo,
)
    ensures
        walk::reported_all(ground, job, report, Seq::empty()) == report,
        walk::reported_all(ground, job, report, seq![entry]) == walk::reported(
            ground,
            job,
            report,
            entry,
        ),
        walk::reported_all(ground, job, report, a + b) == walk::reported_all(
            ground,
            job,
            walk::reported_all(ground, job, report, a),
            b,
        ),
    decreases b.len(),
{
    assert(seq![entry].drop_last() =~= Seq::<EntryInfo>::empty());
    if b.len() == 0 {
        assert(a + b =~= a);
    } else {
        law_every_entry_is_dealt_with(ground, job, report, a, b.drop_last(), entry);
        assert((a + b).drop_last() =~= a + b.drop_last());
        assert((a + b).last() == b.last());
    }
}

/// Every failure while reading a directory is reported, in order, as one of
/// that directory; nothing is found by it.
pub proof fn law_every_failure_is_reported(dir: Seq<char>, failures: Seq<IoError>, k: int)
    ensures
        ({
            let report = walk::failed(dir, failures);
            &&& report.files.len() == 0 && report.jobs.len() == 0
            &&& report.errors.len() == failures.len()
            &&& 0 <= k < failures.len() ==> report.errors[k].path == dir && report.errors[k].message
                == error::io_phrase(failures[k].kind, failures[k].message@)
        }),
{
}

/// A worker gets the directory that waits longest. What it hands in is taken in
/// whole: files and failures behind those that are known, directories behind
/// those that wait.
pub proof fn law_reports_are_taken_in_whole(work: Work, report: Report)
    requires
        work.queue.len() > 0,
        work.running > 0,
    ensures
        ({
            let out = walk::handed_out(work);
            &&& seq![work.queue[0]] + out.queue == work.queue
            &&& out.running == work.running + 1
            &&& out.files == work.files && out.errors == work.errors
        }),
        ({
            let back = walk::absorbed(work, report);
            &&& back.queue == work.queue + report.jobs
            &&& back.files == work.files + report.files
            &&& back.errors == work.errors + report.errors
            &&& back.running == work.running - 1
        }),
        work.pending() == work.queue.len() + work.running,
{
    assert(seq![work.queue[0]] + work.queue.drop_first() =~= work.queue);
}

/// Each directory among the roots is scanned from its top, under the rules of
/// its own ignore files, or under none where they are not to be read.
pub proof fn law_directories_have_their_own_rules(
    roots: Seq<Root>,
    options: WalkOptions,
    filter: Selection,
    stats: Stats,
    k: int,
)
    requires
        0 <= k < roots.len(),
        roots[k].status is Directory,
    ensures
        ({
            let survey = outset(roots, options, filter, stats);
            exists|j: int|
                {
                    &&& 0 <= j < survey.work.queue.len()
                    &&& survey.ignore.len() == survey.work.queue.len()
                    &&& (#[trigger] survey.work.queue[j]).root == j
                    &&& survey.work.queue[j].id == roots[k].id
                    &&& survey.work.queue[j].dir == roots[k].path@
                    &&& survey.work.queue[j].relative.len() == 0
                    &&& survey.work.queue[j].depth == 0
                    &&& options.no_ignore ==> survey.ignore[j].len() == 0
                    &&& !options.no_ignore ==> survey.ignore[j] == walk::combined_rules(
                        roots[k].ignore@,
                    )
                }
        }),
    decreases roots.len(),
{
    let survey = outset(roots, options, filter, stats);
    let before = outset(roots.drop_last(), options, filter, stats);
    lemma_as_many_rules(roots, options, filter, stats);
    lemma_as_many_rules(roots.drop_last(), options, filter, stats);
    if k == roots.len() - 1 {
        let j = before.work.queue.len() as int;
        assert(survey.work.queue[j].root == j);
    } else {
        let less = roots.drop_last();
        assert(less[k] == roots[k]);
        law_directories_have_their_own_rules(less, options, filter, stats, k);
        let j = choose|j: int|
            {
                &&& 0 <= j < before.work.queue.len()
                &&& before.ignore.len() == before.work.queue.len()
                &&& (#[trigger] before.work.queue[j]).root == j
                &&& before.work.queue[j].id == roots[k].id
                &&& before.work.queue[j].dir == roots[k].path@
                &&& before.work.queue[j].relative.len() == 0
                &&& before.work.queue[j].depth == 0
                &&& options.no_ignore ==> before.ignore[j].len() == 0
                &&& !options.no_ignore ==> before.ignore[j] == walk::combined_rules(
                    roots[k].ignore@,
                )
            };
        assert(survey.work.queue[j] == before.work.queue[j]);
        assert(survey.ignore[j] == before.ignore[j]);
    }
}

proof fn lemma_as_many_rules(
    roots: Seq<Root>,
    options: WalkOptions,
    filter: Selection,
    stats: Stats,
)
    ensures
        ({
            let survey = outset(roots, options, filter, stats);
            survey.ignore.len() == survey.work.queue.len()
        }),
    decreases roots.len(),
{
    if roots.len() > 0 {
        lemma_as_many_rules(roots.drop_last(), options, filter, stats);
    }
}

/// The rules of some ignore files are those of each of them, in order.
pub proof fn law_rules_of_all_ignore_files(a: Seq<String>, b: Seq<String>, file: String)
    ensures
        walk::combined_rules(Seq::empty()).len() == 0,
        walk::combined_rules(seq![file]) == filters::ignore_rules(file@),
        walk::combined_rules(a + b) == walk::combined_rules(a) + walk::combined_rules(b),
    decreases b.len(),
{
    assert(seq![file].drop_last() =~= Seq::<String>::empty());
    assert(walk::combined_rules(seq![file].drop_last()) =~= Seq::<Ignore>::empty());
    assert(seq![file].last() == file);
    assert(Seq::<Ignore>::empty() + filters::ignore_rules(file@) =~= filters::ignore_rules(file@));
    if b.len() == 0 {
        assert(a + b =~= a);
        assert(walk::combined_rules(a) + walk::combined_rules(b) =~= walk::combined_rules(a));
    } else {
        law_rules_of_all_ignore_files(a, b.drop_last(), file);
        assert((a + b).drop_last() =~= a + b.drop_last());
        assert((a + b).last() == b.last());
        let last = filters::ignore_rules(b.last()@);
        assert(walk::combined_rules(a) + walk::combined_rules(b.drop_last()) + last
            =~= walk::combined_rules(a) + (walk::combined_rules(b.drop_last()) + last));
    }
}

} // verus!
