//! Directory walking.
//!
//! Reading directories is the caller's work; what to do with what is found is
//! decided here, so that any number of worker threads can share one walk:
//!
//! 1. [`walk`] classifies the user-supplied roots: plain files are filtered
//!    and accepted immediately; directories become seed jobs.
//! 2. The workers share one [`Progress`] behind a lock. A worker asks it for
//!    the [`Next`] step. It is told to scan a directory, to wait while the
//!    queue is empty but other workers may still add to it, or that the walk
//!    is done.
//! 3. Outside the lock the worker reads the directory and hands the listing to
//!    [`Scope::process_dir`], which sorts out what to accept, where to descend
//!    and what to report.
//! 4. [`Progress::complete`] takes the [`DirReport`] in and says whether the
//!    walk ended with it, so that waiting workers can be woken.
//! 5. [`Progress::finish`] sorts the file list so output is deterministic no
//!    matter which worker found what first.
//!
//! Depth semantics mirror ripgrep: files at depth `d` (root children are at
//! depth 1) are accepted when `d <= max_depth`; directories are only
//! descended into when doing so could still yield acceptable files.
//!
//! Symlinks are skipped unless `follow` is set. A hard ceiling
//! ([`MAX_WALK_DEPTH`]) bounds recursion even with `--follow`, so symlink
//! loops terminate instead of hanging the tool.

use std::collections::VecDeque;

use vstd::prelude::*;
use vstd::seq_lib::*;

use crate::args::Config;
use crate::error;
use crate::error::IoError;
use crate::filters;
use crate::filters::{FileFilter, Ignore, IgnoreSet, Selection};
use crate::paths;
use crate::sorting;
use crate::sorting::Placed;
use crate::stats;
use crate::stats::{Counter, Stats};
use crate::text;

pub mod laws;

verus! {

/// Absolute recursion ceiling, protecting against symlink loops with
/// `--follow`. Normal trees never come close.
pub const MAX_WALK_DEPTH: usize = 256;

/// Worker-thread cap for the walker: the scan is I/O bound and extra
/// threads beyond this add contention, not throughput.
pub const MAX_WALK_WORKERS: usize = 64;

/// The ignore files that are read from a directory root, in this order.
pub const IGNORE_FILES: [&'static str; 2] = [".ignore", ".gitignore"];

// ---------------------------------------------------------------------------
// Types
// ---------------------------------------------------------------------------

/// Options controlling a single walk.
#[derive(Debug, Clone, Copy)]
pub struct WalkOptions {
    /// Maximum recursion depth (`None` = unlimited; 1 = top level only).
    pub max_depth: Option<usize>,
    /// Traverse symlinks to directories and files.
    pub follow: bool,
    /// Include hidden entries (dot files/directories).
    pub hidden: bool,
    /// Skip loading `.ignore`/`.gitignore` files from the search roots.
    pub no_ignore: bool,
    /// Number of worker threads to run.
    pub threads: usize,
}

impl WalkOptions {
    /// Derive the walk options from a parsed [`Config`].
    pub fn from_config(config: &Config) -> (out: WalkOptions)
        ensures
            out == (WalkOptions {
                max_depth: config.max_depth,
                follow: config.follow_symlinks,
                hidden: config.hidden,
                no_ignore: config.no_ignore,
                threads: config.threads,
            }),
    {
        WalkOptions {
            max_depth: config.max_depth,
            follow: config.follow_symlinks,
            hidden: config.hidden,
            no_ignore: config.no_ignore,
            threads: config.threads,
        }
    }

    /// How many workers share a walk: as many as asked for, but at least one
    /// and at most [`MAX_WALK_WORKERS`].
    pub fn workers(&self) -> (n: usize)
        ensures
            n == (if self.threads < 1 {
                1
            } else if self.threads > MAX_WALK_WORKERS {
                MAX_WALK_WORKERS
            } else {
                self.threads
            }),
    {
        if self.threads < 1 {
            1
        } else if self.threads > MAX_WALK_WORKERS {
            MAX_WALK_WORKERS
        } else {
            self.threads
        }
    }
}

/// A per-file failure discovered while walking.
#[derive(Debug)]
pub struct WalkError {
    /// The path that could not be processed.
    pub path: String,
    /// Short human-readable explanation (no trailing newline).
    pub message: String,
}

/// A failure as a mathematical value.
pub struct Problem {
    pub path: Seq<char>,
    pub message: Seq<char>,
}

impl View for WalkError {
    type V = Problem;

    open spec fn view(&self) -> Problem {
        Problem { path: self.path@, message: self.message@ }
    }
}

impl Clone for WalkError {
    fn clone(&self) -> (out: WalkError)
        ensures
            out@ == self@,
    {
        WalkError { path: self.path.clone(), message: self.message.clone() }
    }
}

/// An accepted file.
#[derive(Debug)]
pub struct Found {
    /// The path of the file, for display and for sorting.
    pub path: String,
    /// The handle by which the caller finds the file again.
    pub id: usize,
}

/// An accepted file as a mathematical value.
pub struct Hit {
    pub path: Seq<char>,
    pub id: int,
}

impl View for Found {
    type V = Hit;

    open spec fn view(&self) -> Hit {
        Hit { path: self.path@, id: self.id as int }
    }
}

/// Everything a walk produced.
#[derive(Debug)]
pub struct WalkOutcome {
    /// Accepted files, sorted by path for deterministic output.
    pub files: Vec<Found>,
    /// Non-fatal failures; the tool keeps searching after each one.
    pub errors: Vec<WalkError>,
}

/// A directory waiting to be scanned.
#[derive(Debug)]
pub struct DirJob {
    /// Index of the root that the directory belongs to; used to pick the
    /// right ignore set.
    pub root: usize,
    /// The handle by which the caller finds the directory again.
    pub id: usize,
    /// The path of the directory.
    pub dir: String,
    /// Its path relative to the root, empty for the root itself.
    pub relative: String,
    /// Depth of `dir` itself (the root directory has depth 0).
    pub depth: usize,
}

/// A directory to scan as a mathematical value.
pub struct Job {
    pub root: int,
    pub id: int,
    pub dir: Seq<char>,
    pub relative: Seq<char>,
    pub depth: int,
}

impl View for DirJob {
    type V = Job;

    open spec fn view(&self) -> Job {
        Job {
            root: self.root as int,
            id: self.id as int,
            dir: self.dir@,
            relative: self.relative@,
            depth: self.depth as int,
        }
    }
}

/// What kind of filesystem entry an [`EntryInfo`] describes.
#[derive(Debug, Clone, Copy, PartialEq, Eq, Structural)]
pub enum EntryKind {
    /// A directory.
    Dir,
    /// A regular file.
    File,
    /// A symbolic link.
    Symlink,
    /// Anything else: sockets, FIFOs, devices.
    Other,
}

/// What a symbolic link leads to.
#[derive(Debug)]
pub enum Target {
    /// Nobody looked.
    Unknown,
    /// A directory.
    Dir,
    /// A regular file of this size.
    File(u64),
    /// Anything else.
    Other,
    /// The target cannot be inspected.
    Failed(IoError),
}

/// One directory entry, pre-resolved enough for filtering decisions.
#[derive(Debug)]
pub struct EntryInfo {
    /// The handle by which the caller finds the entry again.
    pub id: usize,
    /// The name of the entry in its directory.
    pub name: String,
    /// What kind of entry it is.
    pub kind: EntryKind,
    /// File length in bytes (0 for non-files).
    pub size: u64,
    /// Where a symbolic link leads, looked up where [`needs_target`] asks for
    /// it.
    pub target: Target,
}

/// What reading a directory gave.
#[derive(Debug)]
pub struct Listing {
    /// The entries, in whatever order the system lists them.
    pub entries: Vec<EntryInfo>,
    /// Failures on the way, one per entry that could not be read.
    pub failures: Vec<IoError>,
}

// ---------------------------------------------------------------------------
// Entries
// ---------------------------------------------------------------------------

/// A name that starts with a dot.
pub open spec fn hidden_name(name: Seq<char>) -> bool {
    name.len() > 0 && name[0] == '.'
}

/// `true` for names starting with a dot.
pub fn is_hidden_name(name: &str) -> (yes: bool)
    ensures
        yes == hidden_name(name@),
{
    let chars = text::chars_of(name);
    chars.len() > 0 && chars[0] == '.'
}

/// Whether the walk depends on where the entry leads: it is a symbolic link,
/// links are followed, and it is not left out for its name.
pub fn needs_target(options: &WalkOptions, name: &str, kind: EntryKind) -> (yes: bool)
    ensures
        yes == (kind == EntryKind::Symlink && options.follow && (options.hidden || !hidden_name(
            name@,
        ))),
{
    kind == EntryKind::Symlink && options.follow && (options.hidden || !is_hidden_name(name))
}

impl Placed for EntryInfo {
    open spec fn key(&self) -> Seq<int> {
        paths::name_key(self.name@)
    }

    fn precedes(&self, other: &Self) -> (yes: bool) {
        paths::name_precedes(self.name.as_str(), other.name.as_str())
    }
}

impl Placed for Found {
    open spec fn key(&self) -> Seq<int> {
        paths::path_key(self.path@)
    }

    fn precedes(&self, other: &Self) -> (yes: bool) {
        paths::precedes(self.path.as_str(), other.path.as_str())
    }
}

/// What holds for a whole walk: the options, the file filter and the ignore
/// rules of each directory root.
pub struct Ground {
    pub options: WalkOptions,
    pub filter: Selection,
    pub ignore: Seq<Seq<Ignore>>,
}

/// What an entry leads to, links followed where they are.
pub enum Thing {
    Dir,
    File(nat),
    Nothing,
    Broken(Seq<char>),
}

/// What an entry leads to.
pub open spec fn thing(options: WalkOptions, entry: EntryInfo) -> Thing {
    match entry.kind {
        EntryKind::Dir => Thing::Dir,
        EntryKind::File => Thing::File(entry.size as nat),
        EntryKind::Other => Thing::Nothing,
        EntryKind::Symlink => if !options.follow {
            Thing::Nothing
        } else {
            match entry.target {
                Target::Dir => Thing::Dir,
                Target::File(size) => Thing::File(size as nat),
                Target::Failed(err) => Thing::Broken(
                    error::io_phrase(err.kind, err.message@),
                ),
                _ => Thing::Nothing,
            }
        },
    }
}

/// The path of an entry relative to the root of its directory.
pub open spec fn relative_path(job: Job, name: Seq<char>) -> Seq<char> {
    paths::child(job.relative, name)
}

/// A directory is descended into: it is not on the built-in skip list, not
/// ignored, and could still hold acceptable files.
pub open spec fn enters(ground: Ground, job: Job, name: Seq<char>) -> bool {
    &&& !filters::skipped_dir(name)
    &&& !filters::ignored(
        ground.ignore[job.root],
        paths::slashed(relative_path(job, name)),
        true,
    )
    &&& ground.options.max_depth matches Some(max) ==> job.depth + 1 < max
}

/// A file is accepted: it is not too deep, not ignored, and passes the filter.
pub open spec fn accepts(ground: Ground, job: Job, name: Seq<char>, size: nat) -> bool {
    let relative = paths::slashed(relative_path(job, name));
    &&& ground.options.max_depth matches Some(max) ==> job.depth + 1 <= max
    &&& !filters::ignored(ground.ignore[job.root], relative, false)
    &&& ground.filter.accepts(relative, size)
}

/// What is reported of a directory that lies too deep.
pub open spec fn too_deep() -> Seq<char> {
    "maximum walk depth (256) exceeded; refusing to descend"@
}

/// What scanning a directory gave: files, directories to scan, failures.
#[verifier::ext_equal]
pub struct Report {
    pub files: Seq<Hit>,
    pub jobs: Seq<Job>,
    pub errors: Seq<Problem>,
}

/// Nothing to report.
pub open spec fn nothing() -> Report {
    Report { files: Seq::empty(), jobs: Seq::empty(), errors: Seq::empty() }
}

impl Report {
    /// With one more file.
    pub open spec fn file(self, hit: Hit) -> Report {
        Report { files: self.files.push(hit), ..self }
    }

    /// With one more directory to scan.
    pub open spec fn job(self, job: Job) -> Report {
        Report { jobs: self.jobs.push(job), ..self }
    }

    /// With one more failure.
    pub open spec fn error(self, problem: Problem) -> Report {
        Report { errors: self.errors.push(problem), ..self }
    }
}

/// A report with one more entry of the directory dealt with.
pub open spec fn reported(ground: Ground, job: Job, report: Report, entry: EntryInfo) -> Report {
    let name = entry.name@;
    let path = paths::child(job.dir, name);
    if !ground.options.hidden && hidden_name(name) {
        report
    } else {
        match thing(ground.options, entry) {
            Thing::Nothing => report,
            Thing::Broken(message) => report.error(Problem { path, message }),
            Thing::Dir => if !enters(ground, job, name) {
                report
            } else if job.depth + 1 > MAX_WALK_DEPTH {
                report.error(Problem { path, message: too_deep() })
            } else {
                report.job(
                    Job {
                        root: job.root,
                        id: entry.id as int,
                        dir: path,
                        relative: relative_path(job, name),
                        depth: job.depth + 1,
                    },
                )
            },
            Thing::File(size) => if accepts(ground, job, name, size) {
                report.file(Hit { path, id: entry.id as int })
            } else {
                report
            },
        }
    }
}

/// A report with some more entries of the directory dealt with.
pub open spec fn reported_all(
    ground: Ground,
    job: Job,
    report: Report,
    entries: Seq<EntryInfo>,
) -> Report
    decreases entries.len(),
{
    if entries.len() == 0 {
        report
    } else {
        reported(
            ground,
            job,
            reported_all(ground, job, report, entries.drop_last()),
            entries.last(),
        )
    }
}

/// The failures while reading a directory.
pub open spec fn failed(dir: Seq<char>, failures: Seq<IoError>) -> Report {
    Report {
        errors: failures.map_values(
            |err: IoError| Problem { path: dir, message: error::io_phrase(err.kind, err.message@) },
        ),
        ..nothing()
    }
}

/// What scanning a directory gave.
#[derive(Debug)]
pub struct DirReport {
    /// The accepted files.
    pub files: Vec<Found>,
    /// The directories to descend into.
    pub jobs: Vec<DirJob>,
    /// The failures.
    pub errors: Vec<WalkError>,
}

/// The views of some files.
pub open spec fn hits(list: Seq<Found>) -> Seq<Hit> {
    list.map_values(|found: Found| found@)
}

/// The views of some jobs.
pub open spec fn jobs(list: Seq<DirJob>) -> Seq<Job> {
    list.map_values(|job: DirJob| job@)
}

/// The views of some failures.
pub open spec fn problems(list: Seq<WalkError>) -> Seq<Problem> {
    list.map_values(|err: WalkError| err@)
}

impl View for DirReport {
    type V = Report;

    open spec fn view(&self) -> Report {
        Report { files: hits(self.files@), jobs: jobs(self.jobs@), errors: problems(self.errors@) }
    }
}

impl DirReport {
    /// Nothing to report.
    fn new() -> (out: DirReport)
        ensures
            out@ == nothing(),
    {
        let out = DirReport { files: Vec::new(), jobs: Vec::new(), errors: Vec::new() };
        assert(out@ =~= nothing());
        out
    }

    /// Report a failure.
    fn fail(&mut self, path: String, message: String)
        ensures
            final(self)@ == old(self)@.error(Problem { path: path@, message: message@ }),
    {
        let ghost before = self@;
        self.errors.push(WalkError { path, message });
        assert(self@ =~= before.error(Problem { path: path@, message: message@ }));
    }

    /// Report a file.
    fn file(&mut self, found: Found)
        ensures
            final(self)@ == old(self)@.file(found@),
    {
        let ghost before = self@;
        self.files.push(found);
        assert(self@ =~= before.file(found@));
    }

    /// Report a directory to scan.
    fn job(&mut self, job: DirJob)
        ensures
            final(self)@ == old(self)@.job(job@),
    {
        let ghost before = self@;
        self.jobs.push(job);
        assert(self@ =~= before.job(job@));
    }
}

/// Everything the workers share read-only.
#[derive(Debug)]
pub struct Scope {
    /// The options of the walk.
    pub options: WalkOptions,
    /// The file filter.
    pub filter: FileFilter,
    /// The ignore rules of each directory root.
    pub ignore: Vec<IgnoreSet>,
}

/// The views of some ignore sets.
pub open spec fn ignore_views(list: Seq<IgnoreSet>) -> Seq<Seq<Ignore>> {
    list.map_values(|set: IgnoreSet| set@)
}

impl View for Scope {
    type V = Ground;

    open spec fn view(&self) -> Ground {
        Ground {
            options: self.options,
            filter: self.filter@,
            ignore: ignore_views(self.ignore@),
        }
    }
}

impl Scope {
    /// Whether to descend into a directory.
    fn enters(&self, job: &DirJob, name: &str) -> (yes: bool)
        requires
            job.root < self.ignore@.len(),
            job.depth <= MAX_WALK_DEPTH,
        ensures
            yes == enters(self@, job@, name@),
    {
        if filters::is_skipped_dir(name) {
            return false;
        }
        let relative = paths::with_slashes(
            paths::child_path(job.relative.as_str(), name).as_str(),
        );
        assert(self@.ignore[job.root as int] == self.ignore@[job.root as int]@);
        if self.ignore[job.root].matches(relative.as_str(), true) {
            return false;
        }
        match self.options.max_depth {
            Some(max) => job.depth + 1 < max,
            None => true,
        }
    }

    /// Whether to accept a file.
    fn accepts(&self, job: &DirJob, name: &str, size: u64) -> (yes: bool)
        requires
            job.root < self.ignore@.len(),
            job.depth <= MAX_WALK_DEPTH,
        ensures
            yes == accepts(self@, job@, name@, size as nat),
    {
        if let Some(max) = self.options.max_depth {
            if job.depth + 1 > max {
                return false;
            }
        }
        let relative = paths::with_slashes(
            paths::child_path(job.relative.as_str(), name).as_str(),
        );
        assert(self@.ignore[job.root as int] == self.ignore@[job.root as int]@);
        if self.ignore[job.root].matches(relative.as_str(), false) {
            return false;
        }
        self.filter.accepts(relative.as_str(), size)
    }

    /// Deal with a directory among the entries.
    fn dispatch_dir(&self, job: &DirJob, entry: &EntryInfo, report: &mut DirReport)
        requires
            job.root < self.ignore@.len(),
            job.depth <= MAX_WALK_DEPTH,
            self@.options.hidden || !hidden_name(entry.name@),
            thing(self@.options, *entry) is Dir,
        ensures
            final(report)@ == reported(self@, job@, old(report)@, *entry),
    {
        let name = entry.name.as_str();
        if !self.enters(job, name) {
            return ;
        }
        let path = paths::child_path(job.dir.as_str(), name);
        let depth: usize = job.depth + 1;
        if depth > MAX_WALK_DEPTH {
            report.fail(path, "maximum walk depth (256) exceeded; refusing to descend".to_owned());
            return ;
        }
        report.job(
            DirJob {
                root: job.root,
                id: entry.id,
                dir: path,
                relative: paths::child_path(job.relative.as_str(), name),
                depth,
            },
        );
    }

    /// Deal with a file among the entries.
    fn dispatch_file(&self, job: &DirJob, entry: &EntryInfo, size: u64, report: &mut DirReport)
        requires
            job.root < self.ignore@.len(),
            job.depth <= MAX_WALK_DEPTH,
            self@.options.hidden || !hidden_name(entry.name@),
            thing(self@.options, *entry) == Thing::File(size as nat),
        ensures
            final(report)@ == reported(self@, job@, old(report)@, *entry),
    {
        if self.accepts(job, entry.name.as_str(), size) {
            report.file(
                Found {
                    path: paths::child_path(job.dir.as_str(), entry.name.as_str()),
                    id: entry.id,
                },
            );
        }
    }

    /// Deal with one entry of a directory.
    fn dispatch(&self, job: &DirJob, entry: &EntryInfo, report: &mut DirReport)
        requires
            job.root < self.ignore@.len(),
            job.depth <= MAX_WALK_DEPTH,
        ensures
            final(report)@ == reported(self@, job@, old(report)@, *entry),
    {
        // Hidden entries are filtered before anything else.
        if !self.options.hidden && is_hidden_name(entry.name.as_str()) {
            return ;
        }
        match entry.kind {
            EntryKind::Dir => self.dispatch_dir(job, entry, report),
            EntryKind::File => self.dispatch_file(job, entry, entry.size, report),
            // Sockets, FIFOs and devices are never interesting for a content
            // search.
            EntryKind::Other => {},
            EntryKind::Symlink => {
                if self.options.follow {
                    match &entry.target {
                        Target::Dir => self.dispatch_dir(job, entry, report),
                        Target::File(size) => self.dispatch_file(job, entry, *size, report),
                        Target::Failed(err) => report.fail(
                            paths::child_path(job.dir.as_str(), entry.name.as_str()),
                            error::io_message(err),
                        ),
                        _ => {},
                    }
                }
            },
        }
    }

    /// Sort out one directory: what to accept, where to descend and what to
    /// report.
    pub fn process_dir(&self, job: &DirJob, listing: Result<Listing, IoError>) -> (out: DirReport)
        requires
            job.root < self.ignore@.len(),
            job.depth <= MAX_WALK_DEPTH,
        ensures
            match listing {
                Err(err) => out@ == nothing().error(
                    Problem { path: job.dir@, message: error::io_phrase(err.kind, err.message@) },
                ),
                Ok(found) => exists|entries: Seq<EntryInfo>| #[trigger]
                    sorting::in_order(entries) && entries.to_multiset()
                        == found.entries@.to_multiset() && out@ == reported_all(
                        self@,
                        job@,
                        failed(job.dir@, found.failures@),
                        entries,
                    ),
            },
    {
        let mut report = DirReport::new();
        let found = match listing {
            Ok(found) => found,
            Err(err) => {
                report.fail(job.dir.clone(), error::io_message(&err));
                return report;
            },
        };
        let ghost failures = found.failures@;
        let mut i: usize = 0;
        assert(report@ =~= failed(job.dir@, failures.take(0)));
        while i < found.failures.len()
            invariant
                failures == found.failures@,
                i <= failures.len(),
                report@ == failed(job.dir@, failures.take(i as int)),
            decreases failures.len() - i,
        {
            let ghost before = report@;
            report.fail(job.dir.clone(), error::io_message(&found.failures[i]));
            assert(report@ =~= failed(job.dir@, failures.take(i + 1)));
            i += 1;
        }
        assert(failures.take(i as int) =~= failures);
        let ghost start = report@;
        // Deterministic traversal order regardless of filesystem layout.
        let entries = sorting::sort(found.entries);
        let mut i: usize = 0;
        assert(entries@.take(0) =~= Seq::<EntryInfo>::empty());
        while i < entries.len()
            invariant
                job.root < self.ignore@.len(),
                job.depth <= MAX_WALK_DEPTH,
                i <= entries@.len(),
                report@ == reported_all(self@, job@, start, entries@.take(i as int)),
            decreases entries@.len() - i,
        {
            self.dispatch(job, &entries[i], &mut report);
            assert(entries@.take(i + 1).drop_last() =~= entries@.take(i as int));
            i += 1;
        }
        assert(entries@.take(i as int) =~= entries@);
        report
    }
}

// ---------------------------------------------------------------------------
// Progress
// ---------------------------------------------------------------------------

/// The mutable state of a walk, shared by the workers behind a lock.
#[derive(Debug)]
pub struct Progress {
    /// Directories waiting to be scanned.
    queue: VecDeque<DirJob>,
    /// Directories handed out but not fully processed.
    running: usize,
    files: Vec<Found>,
    errors: Vec<WalkError>,
}

/// The state of a walk as a mathematical value.
#[verifier::ext_equal]
pub struct Work {
    pub queue: Seq<Job>,
    pub running: nat,
    pub files: Seq<Hit>,
    pub errors: Seq<Problem>,
}

impl Work {
    /// How many directories are not fully processed.
    pub open spec fn pending(self) -> nat {
        self.queue.len() + self.running
    }
}

/// The state before anything happened.
pub open spec fn idle() -> Work {
    Work { queue: Seq::empty(), running: 0, files: Seq::empty(), errors: Seq::empty() }
}

impl View for Progress {
    type V = Work;

    closed spec fn view(&self) -> Work {
        Work {
            queue: jobs(self.queue@),
            running: self.running as nat,
            files: hits(self.files@),
            errors: problems(self.errors@),
        }
    }
}

/// What a worker is to do.
#[derive(Debug)]
pub enum Next {
    /// Scan this directory.
    Scan(DirJob),
    /// Wait: other workers may still find directories.
    Wait,
    /// The walk is done.
    Done,
}

/// A walk that handed out the directory that waits longest.
pub open spec fn handed_out(work: Work) -> Work {
    Work { queue: work.queue.drop_first(), running: work.running + 1, ..work }
}

/// A walk that took a report in.
pub open spec fn absorbed(work: Work, report: Report) -> Work {
    Work {
        queue: work.queue + report.jobs,
        running: (work.running - 1) as nat,
        files: work.files + report.files,
        errors: work.errors + report.errors,
    }
}

impl Progress {
    /// A walk before anything happened.
    fn new() -> (out: Progress)
        ensures
            out@ == idle(),
    {
        let out = Progress {
            queue: VecDeque::new(),
            running: 0,
            files: Vec::new(),
            errors: Vec::new(),
        };
        assert(out@ =~= idle());
        out
    }

    /// The next step for a worker: the directory that waits longest, or
    /// waiting while other workers are busy, or the end.
    pub fn next(&mut self) -> (step: Next)
        requires
            old(self)@.running < usize::MAX,
        ensures
            match step {
                Next::Scan(job) => {
                    &&& old(self)@.queue.len() > 0
                    &&& job@ == old(self)@.queue[0]
                    &&& final(self)@ == handed_out(old(self)@)
                },
                Next::Wait => {
                    &&& old(self)@.queue.len() == 0
                    &&& old(self)@.running > 0
                    &&& final(self)@ == old(self)@
                },
                Next::Done => old(self)@.pending() == 0 && final(self)@ == old(self)@,
            },
    {
        let ghost before = self@;
        match self.queue.pop_front() {
            Some(job) => {
                self.running = self.running + 1;
                assert(self@.queue =~= before.queue.drop_first());
                Next::Scan(job)
            },
            None => {
                assert(self@ =~= before);
                if self.running > 0 {
                    Next::Wait
                } else {
                    Next::Done
                }
            },
        }
    }

    /// Take in what scanning a directory gave; `true` where the walk ended
    /// with it.
    pub fn complete(&mut self, report: DirReport, stats: &mut Stats) -> (finished: bool)
        requires
            old(self)@.running > 0,
        ensures
            final(self)@ == absorbed(old(self)@, report@),
            finished == (final(self)@.pending() == 0),
            *final(stats) == stats::bumped(
                *old(stats),
                Counter::FilesFound,
                report.files@.len() as int,
            ),
    {
        let ghost before = self@;
        let mut report = report;
        let ghost all = report@;
        let count: usize = report.files.len();
        stats.bump(Counter::FilesFound, count as u64);
        self.files.append(&mut report.files);
        self.errors.append(&mut report.errors);
        let mut found: VecDeque<DirJob> = VecDeque::new();
        while report.jobs.len() > 0
            invariant
                jobs(report.jobs@) + jobs(found@) == all.jobs,
            decreases report.jobs@.len(),
        {
            let ghost front = report.jobs@;
            let ghost back = found@;
            if let Some(job) = report.jobs.pop() {
                found.push_front(job);
                assert(jobs(front) =~= jobs(report.jobs@).push(job@));
                assert(jobs(found@) =~= seq![job@] + jobs(back));
                assert(jobs(report.jobs@) + jobs(found@) =~= jobs(front) + jobs(back));
            }
        }
        assert(jobs(found@) =~= all.jobs);
        self.queue.append(&mut found);
        self.running = self.running - 1;
        assert(self@ =~= absorbed(before, all));
        self.running == 0 && self.queue.len() == 0
    }

    /// Freeze the walk into its outcome.
    pub fn finish(self) -> (out: WalkOutcome)
        ensures
            sorting::in_order(out.files@),
            hits(out.files@).to_multiset() == self@.files.to_multiset(),
            problems(out.errors@) == self@.errors,
    {
        let ghost found = self.files@;
        let files = sorting::sort(self.files);
        proof {
            lemma_hits_multiset(files@, found);
        }
        WalkOutcome { files, errors: self.errors }
    }
}

/// The same files have the same views.
proof fn lemma_hits_multiset(a: Seq<Found>, b: Seq<Found>)
    requires
        a.to_multiset() == b.to_multiset(),
    ensures
        hits(a).to_multiset() == hits(b).to_multiset(),
    decreases a.len(),
{
    broadcast use group_to_multiset_ensures;

    if a.len() == 0 {
        assert(b.len() == b.to_multiset().len() && a.len() == a.to_multiset().len());
        assert(hits(a) =~= hits(b));
    } else {
        let last = a.last();
        assert(a.to_multiset().contains(last));
        assert(b.contains(last));
        let k = choose|k: int| 0 <= k < b.len() && b[k] == last;
        let rest = b.remove(k);
        assert(a.drop_last().push(last) =~= a);
        assert(a.to_multiset() =~= a.drop_last().to_multiset().insert(last));
        assert(a.drop_last().to_multiset() =~= rest.to_multiset());
        lemma_hits_multiset(a.drop_last(), rest);
        assert(hits(a) =~= hits(a.drop_last()).push(last@));
        assert(hits(b).remove(k) =~= hits(rest));
        assert(hits(b)[k] == last@);
        assert(hits(b).to_multiset() =~= hits(rest).to_multiset().insert(last@));
    }
}

// ---------------------------------------------------------------------------
// Roots
// ---------------------------------------------------------------------------

/// What inspecting a root gave.
#[derive(Debug)]
pub enum RootStatus {
    /// A directory.
    Directory,
    /// Anything else, of this size.
    File(u64),
    /// The root cannot be inspected.
    Failed(IoError),
}

/// A user-supplied root.
#[derive(Debug)]
pub struct Root {
    /// The handle by which the caller finds the root again.
    pub id: usize,
    /// The path as given.
    pub path: String,
    /// What inspecting the path gave.
    pub status: RootStatus,
    /// For a directory, the contents of those of its [`IGNORE_FILES`] that
    /// could be read, in that order.
    pub ignore: Vec<String>,
}

/// The rules of some ignore files, one after the other.
pub open spec fn combined_rules(files: Seq<String>) -> Seq<Ignore>
    decreases files.len(),
{
    if files.len() == 0 {
        Seq::empty()
    } else {
        combined_rules(files.drop_last()) + filters::ignore_rules(files.last()@)
    }
}

/// Load some ignore files into one combined set.
pub fn load_ignore_sets(files: &Vec<String>) -> (out: IgnoreSet)
    ensures
        out@ == combined_rules(files@),
{
    let mut set = IgnoreSet::empty();
    let mut i: usize = 0;
    assert(files@.take(0) =~= Seq::<String>::empty());
    while i < files.len()
        invariant
            i <= files@.len(),
            set@ == combined_rules(files@.take(i as int)),
        decreases files@.len() - i,
    {
        set.extend(files[i].as_str());
        assert(files@.take(i + 1).drop_last() =~= files@.take(i as int));
        i += 1;
    }
    assert(files@.take(i as int) =~= files@);
    set
}

/// What is known after some roots: the ignore rules of the directories, the
/// state of the walk and the counters.
#[verifier::ext_equal]
pub struct Survey {
    pub ignore: Seq<Seq<Ignore>>,
    pub work: Work,
    pub stats: Stats,
}

/// A survey with one more root: a directory is to be scanned, a file that
/// passes the filter is accepted, even when it is hidden.
pub open spec fn surveyed(
    survey: Survey,
    root: Root,
    options: WalkOptions,
    filter: Selection,
) -> Survey {
    match root.status {
        RootStatus::Directory => Survey {
            ignore: survey.ignore.push(
                if options.no_ignore {
                    Seq::empty()
                } else {
                    combined_rules(root.ignore@)
                },
            ),
            work: Work {
                queue: survey.work.queue.push(
                    Job {
                        root: survey.ignore.len() as int,
                        id: root.id as int,
                        dir: root.path@,
                        relative: Seq::empty(),
                        depth: 0,
                    },
                ),
                ..survey.work
            },
            ..survey
        },
        RootStatus::File(size) => if filter.accepts(
            paths::explicit_name(root.path@),
            size as nat,
        ) {
            Survey {
                work: Work {
                    files: survey.work.files.push(
                        Hit { path: root.path@, id: root.id as int },
                    ),
                    ..survey.work
                },
                stats: stats::bumped(survey.stats, Counter::FilesFound, 1),
                ..survey
            }
        } else {
            survey
        },
        RootStatus::Failed(err) => Survey {
            work: Work {
                errors: survey.work.errors.push(
                    Problem {
                        path: root.path@,
                        message: error::io_phrase(err.kind, err.message@),
                    },
                ),
                ..survey.work
            },
            ..survey
        },
    }
}

/// A survey with some more roots.
pub open spec fn surveyed_all(
    survey: Survey,
    roots: Seq<Root>,
    options: WalkOptions,
    filter: Selection,
) -> Survey
    decreases roots.len(),
{
    if roots.len() == 0 {
        survey
    } else {
        surveyed(
            surveyed_all(survey, roots.drop_last(), options, filter),
            roots.last(),
            options,
            filter,
        )
    }
}

/// Deal with one root.
fn add_root(scope: &mut Scope, progress: &mut Progress, stats: &mut Stats, root: &Root)
    ensures
        final(scope).options == old(scope).options,
        final(scope).filter == old(scope).filter,
        (Survey {
            ignore: final(scope)@.ignore,
            work: final(progress)@,
            stats: *final(stats),
        }) == surveyed(
            Survey { ignore: old(scope)@.ignore, work: old(progress)@, stats: *old(stats) },
            *root,
            old(scope).options,
            old(scope).filter@,
        ),
{
    let ghost start = Survey { ignore: scope@.ignore, work: progress@, stats: *stats };
    let ghost end = surveyed(start, *root, scope.options, scope.filter@);
    match &root.status {
        RootStatus::Directory => {
            let index: usize = scope.ignore.len();
            let set = if scope.options.no_ignore {
                IgnoreSet::empty()
            } else {
                load_ignore_sets(&root.ignore)
            };
            scope.ignore.push(set);
            progress.queue.push_back(
                DirJob {
                    root: index,
                    id: root.id,
                    dir: root.path.clone(),
                    relative: String::new(),
                    depth: 0,
                },
            );
            assert(scope@.ignore =~= end.ignore);
            assert(progress@.queue =~= end.work.queue);
        },
        RootStatus::File(size) => {
            let name = paths::explicit_file_name(root.path.as_str());
            if scope.filter.accepts(name.as_str(), *size) {
                stats.bump(Counter::FilesFound, 1);
                progress.files.push(Found { path: root.path.clone(), id: root.id });
                assert(progress@.files =~= end.work.files);
            }
        },
        RootStatus::Failed(err) => {
            progress.errors.push(
                WalkError { path: root.path.clone(), message: error::io_message(err) },
            );
            assert(progress@.errors =~= end.work.errors);
        },
    }
}

/// Begin to walk `roots`.
///
/// Plain-file roots bypass the queue entirely: they are filtered here
/// (explicitly passed files are honored even when hidden) and appended to
/// the result. Directory roots are seeded into the queue, to be scanned by the
/// workers.
pub fn walk(
    roots: &Vec<Root>,
    options: WalkOptions,
    filter: &FileFilter,
    stats: &mut Stats,
) -> (out: (Scope, Progress))
    ensures
        out.0@.options == options,
        out.0@.filter == filter@,
        (Survey { ignore: out.0@.ignore, work: out.1@, stats: *final(stats) }) == surveyed_all(
            Survey { ignore: Seq::empty(), work: idle(), stats: *old(stats) },
            roots@,
            options,
            filter@,
        ),
        forall|k: int|
            0 <= k < out.1@.queue.len() ==> 0 <= (#[trigger] out.1@.queue[k]).root
                < out.0.ignore@.len() && out.1@.queue[k].depth == 0,
        out.1@.running == 0,
{
    let ghost start = Survey { ignore: Seq::empty(), work: idle(), stats: *stats };
    let mut scope = Scope { options, filter: filter.clone(), ignore: Vec::new() };
    let mut progress = Progress::new();
    let mut i: usize = 0;
    assert(roots@.take(0) =~= Seq::<Root>::empty());
    assert(scope@.ignore =~= start.ignore);
    while i < roots.len()
        invariant
            i <= roots@.len(),
            scope.options == options,
            scope.filter@ == filter@,
            progress@.running == 0,
            (Survey { ignore: scope@.ignore, work: progress@, stats: *stats }) == surveyed_all(
                start,
                roots@.take(i as int),
                options,
                filter@,
            ),
            forall|k: int|
                0 <= k < progress@.queue.len() ==> 0 <= (#[trigger] progress@.queue[k]).root
                    < scope.ignore@.len() && progress@.queue[k].depth == 0,
        decreases roots@.len() - i,
    {
        let ghost earlier = progress@.queue;
        let ghost known = scope@.ignore.len();
        add_root(&mut scope, &mut progress, stats, &roots[i]);
        proof {
            assert(roots@.take(i + 1).drop_last() =~= roots@.take(i as int));
            assert(scope@.ignore.len() == scope.ignore@.len());
            assert(scope@.ignore.len() >= known);
            assert forall|k: int| 0 <= k < progress@.queue.len() implies 0 <= (
            #[trigger] progress@.queue[k]).root < scope.ignore@.len() && progress@.queue[k].depth
                == 0 by {
                if k < earlier.len() {
                    assert(progress@.queue[k] == earlier[k]);
                }
            }
        }
        i += 1;
    }
    assert(roots@.take(i as int) =~= roots@);
    (scope, progress)
}

} // verus!
