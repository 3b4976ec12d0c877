//! The decisions of the program around the library: how its environment is
//! taken into account, what is said where, and how it exits.

use vstd::prelude::*;

use crate::args;
use crate::args::grammar;
use crate::args::grammar::{Request, Switch};
use crate::args::{ColorChoice, Config, ParseOutcome, Settings};
use crate::error;
use crate::error::{Failure, IoError, IoErrorKind, SearchError};
use crate::filters;
use crate::filters::{FileFilter, Selection};
use crate::output;
use crate::output::{Drawing, Renderer};
use crate::pattern;
use crate::pattern::{Compiled, Pattern};
use crate::search::{FileOutcome, Outcome, Scan};
use crate::sizes;
use crate::stats;
use crate::stats::{Counter, Stats, StatsSnapshot};
use crate::timer;
use crate::timer::Timeline;
use crate::walk;
use crate::walk::{Problem, WalkError};
use crate::{TAGLINE, VERSION};

verus! {

/// The help text behind the tagline, up to the size examples.
pub const HELP_BODY: &'static str = "

USAGE:
    searchlight [OPTIONS] PATTERN [PATH]...

ARGS:
    PATTERN    Pattern in searchlight mini-regex syntax (see the README).
    PATH...    Files or directories to search; defaults to the current directory.
               With src/ and nothing else, the PATTERN is missing; put -- in
               front to search for src/.

MATCHING:
    -i, --ignore-case       Fold ASCII/Unicode case while matching
    -w, --word-regexp       Require the pattern to match whole words
    -v, --invert-match      Select lines that do not match
    -m, --max-count N       Stop after N matching lines per file

OUTPUT:
    -n, --line-number       Prefix matches with 1-based line numbers
    -b, --byte-offset       Prefix matches with byte offsets
    -o, --only-matching     Print only the matched part of each line
    -c, --count             Print per-file match counts
    -l, --files-with-matches
                            Print only the names of matching files
    -B N                    N lines of context before each match
    -A N                    N lines of context after each match
    -C N                    N lines of context before and after
    --color WHEN            Colorize: auto, always or never [default: auto]
    --json                  Emit JSON Lines instead of human text
    -q, --quiet             Print nothing; exit codes carry the result
    -s, --no-messages       Suppress error messages on stderr

FILTERING:
    --glob PATTERN          Search only files matching PATTERN (repeatable)
    --exclude-glob PATTERN  Skip files matching PATTERN (repeatable)
    --max-depth N           Limit directory recursion depth (1 = top level)
    --min-size S            Skip files smaller than S
    --max-size S            Skip files larger than S
    --hidden                Also search hidden files and directories
    --no-ignore             Do not honor .gitignore and .ignore rules
    --follow                Follow symbolic links

PERFORMANCE:
    -j, --threads N         Worker threads [default: available CPUs]
    --stats                 Print counters and timings to stderr

OTHER:
    -h, --help              Print this help text
    -V, --version           Print version information

Sizes S accept suffixes such as: ";

/// The help text behind the size examples.
pub const HELP_TAIL: &'static str = ".

Exit status:
    0    at least one match was found
    1    no matches were found
    2    an error occurred (bad arguments, unreadable path, ...)
";

// ---------------------------------------------------------------------------
// Texts
// ---------------------------------------------------------------------------

/// The name and the version of the program.
pub open spec fn version_line() -> Seq<char> {
    "searchlight "@ + VERSION@
}

/// The name and the version of the program.
pub fn version_text() -> (out: String)
    ensures
        out@ == version_line(),
{
    let mut out = "searchlight ".to_owned();
    out.push_str(VERSION);
    out
}

/// The full help text.
pub open spec fn help() -> Seq<char> {
    version_line() + "\n"@ + TAGLINE@ + HELP_BODY@ + sizes::SIZE_EXAMPLES@ + HELP_TAIL@
}

/// The full `--help` text. Kept in sync with [`Config::parse_from`] by hand.
pub fn help_text() -> (out: String)
    ensures
        out@ == help(),
{
    let mut out = version_text();
    out.push_str("\n");
    out.push_str(TAGLINE);
    out.push_str(HELP_BODY);
    out.push_str(sizes::SIZE_EXAMPLES);
    out.push_str(HELP_TAIL);
    out
}

/// What the program says of a path.
pub open spec fn complaint(path: Seq<char>, message: Seq<char>) -> Seq<char> {
    "searchlight: "@ + path + ": "@ + message
}

/// What the program says of a path.
pub fn complaint_text(path: &str, message: &str) -> (out: String)
    ensures
        out@ == complaint(path@, message@),
{
    let mut out = "searchlight: ".to_owned();
    out.push_str(path);
    out.push_str(": ");
    out.push_str(message);
    out
}

/// What the program says of a root that cannot be inspected, and how it exits:
/// a mistyped path must not look like a search without matches.
pub fn refuse_root(path: &str, err: &IoError) -> (out: (String, i32))
    ensures
        out.0@ == complaint(path@, error::io_phrase(err.kind, err.message@)),
        out.1 == 2,
{
    (complaint_text(path, error::io_message(err).as_str()), 2)
}

/// The `--stats` report: the counters and the times of the phases, the total
/// and the size limits.
pub open spec fn stats_report(
    snapshot: StatsSnapshot,
    total: nat,
    min_size: Option<u64>,
    max_size: Option<u64>,
) -> Seq<char> {
    stats::table(snapshot) + "total wall time    "@ + stats::duration_text(total)
        + "\nsize limits        "@ + sizes::bounds_phrase(min_size, max_size) + "\n"@
}

/// The `--stats` report.
pub fn stats_text(snapshot: &StatsSnapshot, timeline: &Timeline, config: &Config) -> (out: String)
    ensures
        out@ == stats_report(*snapshot, timeline@.total, config.min_size, config.max_size),
{
    let mut out = snapshot.to_string();
    out.push_str("total wall time    ");
    out.push_str(stats::format_duration(timeline.total).as_str());
    out.push_str("\nsize limits        ");
    out.push_str(sizes::describe_bounds(config.min_size, config.max_size).as_str());
    out.push_str("\n");
    out
}

// ---------------------------------------------------------------------------
// Start
// ---------------------------------------------------------------------------

/// Everything a search needs.
#[derive(Debug)]
pub struct Plan {
    /// The configuration.
    pub config: Config,
    /// The compiled pattern.
    pub pattern: Pattern,
    /// The file filter.
    pub filter: FileFilter,
}

/// How the program starts.
#[derive(Debug)]
pub enum Startup {
    /// Print this and exit with `0`.
    Print(String),
    /// Print these lines on stderr and exit with this code.
    Refuse(Vec<String>, i32),
    /// Search.
    Search(Plan),
}

/// How the program starts, as a mathematical value.
#[verifier::ext_equal]
pub enum Opening {
    Print(Seq<char>),
    Refuse(Seq<Seq<char>>, int),
    Search(Settings, Compiled, Selection),
}

/// What the program says of a failure.
pub open spec fn failure_line(failure: Failure) -> Seq<char> {
    "searchlight: "@ + error::display(failure)
}

/// How the program starts with a command line: `--help` and `--version` are
/// answered; a bad command line, then a bad pattern, then a bad filter is
/// refused; else there is something to search for.
pub open spec fn opening(tokens: Seq<Seq<char>>, threads: nat) -> Opening {
    match grammar::command_line(tokens, threads) {
        Request::Help => Opening::Print(help()),
        Request::Version => Opening::Print(version_line()),
        Request::Refused(message) => Opening::Refuse(
            seq![
                failure_line(Failure::Arg(message)),
                "Try 'searchlight --help' for more information."@,
            ],
            2,
        ),
        Request::Search(settings) => match pattern::compiled(
            settings.pattern,
            settings.switches.contains(Switch::IgnoreCase),
            settings.switches.contains(Switch::WordRegexp),
        ) {
            Err(message) => Opening::Refuse(seq![failure_line(Failure::Pattern(message))], 2),
            Ok(compiled) => match filters::selection(
                settings.include_globs,
                settings.exclude_globs,
                settings.min_size,
                settings.max_size,
            ) {
                Err(failure) => Opening::Refuse(seq![failure_line(failure)], 2),
                Ok(selection) => Opening::Search(settings, compiled, selection),
            },
        },
    }
}

impl View for Startup {
    type V = Opening;

    open spec fn view(&self) -> Opening {
        match self {
            Startup::Print(text) => Opening::Print(text@),
            Startup::Refuse(lines, code) => Opening::Refuse(messages(lines@), *code as int),
            Startup::Search(plan) => Opening::Search(
                plan.config@,
                plan.pattern@,
                plan.filter@,
            ),
        }
    }
}

/// Refuse to search for a reason.
fn refuse(err: &SearchError) -> (out: Startup)
    ensures
        out@ == Opening::Refuse(seq![failure_line(err@)], 2),
{
    let mut line = "searchlight: ".to_owned();
    line.push_str(err.to_string().as_str());
    let mut lines: Vec<String> = Vec::new();
    lines.push(line);
    assert(messages(lines@) =~= seq![failure_line(err@)]);
    Startup::Refuse(lines, err.exit_code())
}

/// Start the program with a command line (argv without the program name), where
/// `threads` is the default number of worker threads.
pub fn start(tokens: Vec<String>, threads: usize) -> (out: Startup)
    ensures
        out@ == opening(args::words(tokens@), threads as nat),
{
    let config = match Config::parse_from(tokens, threads) {
        Ok(ParseOutcome::Config(config)) => config,
        Ok(ParseOutcome::Help) => {
            return Startup::Print(help_text());
        },
        Ok(ParseOutcome::Version) => {
            return Startup::Print(version_text());
        },
        Err(err) => {
            let refused = refuse(&err);
            if let Startup::Refuse(mut lines, code) = refused {
                let ghost before = lines@;
                let hint = "Try 'searchlight --help' for more information.".to_owned();
                lines.push(hint);
                assert(messages(lines@) =~= messages(before).push(hint@));
                assert(messages(lines@) =~= seq![failure_line(err@), hint@]);
                return Startup::Refuse(lines, code);
            }
            return refused;
        },
    };
    assert(config@.switches.contains(Switch::IgnoreCase) == config.ignore_case);
    assert(config@.switches.contains(Switch::WordRegexp) == config.word_regexp);
    let pattern = match Pattern::new(
        config.pattern.as_str(),
        config.ignore_case,
        config.word_regexp,
    ) {
        Ok(pattern) => pattern,
        Err(err) => {
            return refuse(&err);
        },
    };
    match FileFilter::from_config(&config) {
        Ok(filter) => Startup::Search(Plan { config, pattern, filter }),
        Err(err) => refuse(&err),
    }
}

// ---------------------------------------------------------------------------
// Environment
// ---------------------------------------------------------------------------

/// Resolve `--color` against the environment: `auto` colors only when
/// stdout is a terminal and `NO_COLOR` is unset (the no-color.org rule).
pub fn resolve_color(choice: ColorChoice, no_color: bool, terminal: bool) -> (color: bool)
    ensures
        color == (choice == ColorChoice::Always || choice == ColorChoice::Auto && !no_color
            && terminal),
{
    match choice {
        ColorChoice::Always => true,
        ColorChoice::Never => false,
        ColorChoice::Auto => !no_color && terminal,
    }
}

/// Classic grep rule for file-name prefixes: directories and multi-root
/// searches get prefixes, a single explicit file does not. The default
/// (no PATH) searches the current directory and therefore behaves like a
/// directory scan.
pub fn with_filename(paths: usize, first_is_dir: bool) -> (yes: bool)
    ensures
        yes == (paths != 1 || first_is_dir),
{
    if paths > 1 {
        return true;
    }
    if paths == 1 {
        first_is_dir
    } else {
        true
    }
}

/// The default number of worker threads: that of the available processors, or
/// a reasonable fallback when their number cannot be determined.
pub fn default_threads(available: Option<usize>) -> (threads: usize)
    ensures
        threads == (match available {
            Some(count) => count,
            None => 4,
        }),
{
    match available {
        Some(count) => count,
        None => 4,
    }
}

/// The roots to search: the paths given, or the current directory where there
/// are none.
pub fn search_roots(config: &Config) -> (roots: Vec<String>)
    ensures
        config.paths@.len() == 0 ==> roots@.len() == 1 && roots@[0]@ == "."@,
        config.paths@.len() > 0 ==> roots@.len() == config.paths@.len(),
        config.paths@.len() > 0 ==> forall|k: int|
            0 <= k < roots@.len() ==> (#[trigger] roots@[k])@ == config.paths@[k]@,
{
    let mut roots: Vec<String> = Vec::new();
    let mut i: usize = 0;
    while i < config.paths.len()
        invariant
            i <= config.paths@.len(),
            roots@.len() == i,
            forall|k: int| 0 <= k < i ==> (#[trigger] roots@[k])@ == config.paths@[k]@,
        decreases config.paths@.len() - i,
    {
        roots.push(config.paths[i].clone());
        i += 1;
    }
    if roots.len() == 0 {
        roots.push(".".to_owned());
    }
    roots
}

// ---------------------------------------------------------------------------
// Results
// ---------------------------------------------------------------------------

/// The first `k` failures of a walk, as the program tells of them.
pub open spec fn complaints(list: Seq<Problem>, k: int) -> Seq<Seq<char>>
    decreases k,
{
    if k <= 0 {
        Seq::empty()
    } else {
        complaints(list, k - 1).push(complaint(list[k - 1].path, list[k - 1].message))
    }
}

/// The views of some messages.
pub open spec fn messages(list: Seq<String>) -> Seq<Seq<char>> {
    list.map_values(|message: String| message@)
}

/// Record the times of the phases `walk` and `search` where they ran.
pub fn record_phases(timeline: &Timeline, stats: &mut Stats)
    ensures
        *final(stats) == (Stats {
            walk_micros: match timer::first_lap(timeline@.laps, "walk"@, 0) {
                Some(nanos) => stats::micros(nanos),
                None => old(stats).walk_micros,
            },
            search_micros: match timer::first_lap(timeline@.laps, "search"@, 0) {
                Some(nanos) => stats::micros(nanos),
                None => old(stats).search_micros,
            },
            ..*old(stats)
        }),
{
    if let Some(walk) = timeline.phase("walk") {
        stats.record_walk_time(walk);
    }
    if let Some(search) = timeline.phase("search") {
        stats.record_search_time(search);
    }
}

/// Count the failures of a walk and say what is to be told of them: nothing
/// with `--no-messages`.
pub fn note_failures(errors: &Vec<WalkError>, config: &Config, stats: &mut Stats) -> (out: Vec<
    String,
>)
    ensures
        messages(out@) == (if config.no_messages {
            Seq::empty()
        } else {
            complaints(walk::problems(errors@), errors@.len() as int)
        }),
        *final(stats) == stats::bumped(*old(stats), Counter::Errors, errors@.len() as int),
{
    let size: usize = errors.len();
    stats.bump(Counter::Errors, size as u64);
    let ghost list = walk::problems(errors@);
    let mut out: Vec<String> = Vec::new();
    assert(messages(out@) =~= Seq::<Seq<char>>::empty());
    if config.no_messages {
        return out;
    }
    let mut i: usize = 0;
    while i < size
        invariant
            i <= size,
            size == errors@.len(),
            list == walk::problems(errors@),
            messages(out@) == complaints(list, i as int),
        decreases size - i,
    {
        let ghost before = out@;
        let message = complaint_text(errors[i].path.as_str(), errors[i].message.as_str());
        out.push(message);
        proof {
            assert(list[i as int] == errors@[i as int]@);
            assert(messages(out@) =~= messages(before).push(message@));
        }
        i += 1;
    }
    out
}

/// What is told of a file that was not searched.
pub open spec fn remark(outcome: Outcome) -> Option<Seq<char>> {
    match outcome {
        Outcome::Scanned(_) => None,
        Outcome::Binary(path) => Some(complaint(path, "binary file skipped"@)),
        Outcome::Failed(path, message) => Some(complaint(path, message)),
    }
}

/// Render what became of one file, unless the program is to be quiet, and say
/// what is to be told of it.
pub fn deliver(outcome: &FileOutcome, config: &Config, renderer: &mut Renderer) -> (out: Option<
    String,
>)
    requires
        outcome matches FileOutcome::Scanned(result) ==> config.quiet || output::renderable(
            old(renderer)@.options,
            result@.matches,
        ),
    ensures
        final(renderer)@ == (match outcome@ {
            Outcome::Scanned(result) => if config.quiet {
                old(renderer)@
            } else {
                Drawing {
                    text: old(renderer)@.text + output::rendering(
                        old(renderer)@.layout(result.path),
                        result.matches,
                    ),
                    ..old(renderer)@
                }
            },
            _ => old(renderer)@,
        }),
        match out {
            Some(message) => !config.no_messages && remark(outcome@) == Some(message@),
            None => config.no_messages || remark(outcome@) is None,
        },
{
    match outcome {
        FileOutcome::Scanned(result) => {
            if !config.quiet {
                renderer.write_result(result);
            }
            None
        },
        FileOutcome::Binary(path) => {
            if config.no_messages {
                None
            } else {
                Some(complaint_text(path.as_str(), "binary file skipped"))
            }
        },
        FileOutcome::Failed(error) => {
            if config.no_messages {
                None
            } else {
                Some(complaint_text(error.path.as_str(), error.message.as_str()))
            }
        },
    }
}

/// A line was selected somewhere.
pub open spec fn anything_found(outcomes: Seq<FileOutcome>) -> bool {
    exists|k: int|
        0 <= k < outcomes.len() && ((#[trigger] outcomes[k])@ matches Outcome::Scanned(result)
            && result.matches.len() > 0)
}

/// Whether a line was selected somewhere.
pub fn found_anything(outcomes: &Vec<FileOutcome>) -> (yes: bool)
    ensures
        yes == anything_found(outcomes@),
{
    let mut i: usize = 0;
    while i < outcomes.len()
        invariant
            i <= outcomes@.len(),
            forall|k: int|
                0 <= k < i ==> !((#[trigger] outcomes@[k])@ matches Outcome::Scanned(result)
                    && result.matches.len() > 0),
        decreases outcomes@.len() - i,
    {
        if let FileOutcome::Scanned(result) = &outcomes[i] {
            if result.matches.len() > 0 {
                assert(outcomes@[i as int]@ == Outcome::Scanned(result@));
                return true;
            }
            assert(outcomes@[i as int]@ == Outcome::Scanned(result@));
        }
        i += 1;
    }
    false
}

/// What is told of output that could not be written: nothing where its reader
/// went away.
pub fn write_complaint(err: &IoError) -> (out: Option<String>)
    ensures
        match out {
            Some(message) => err.kind != IoErrorKind::BrokenPipe && message@ == failure_line(
                Failure::Io(err.kind, err.message@),
            ),
            None => err.kind == IoErrorKind::BrokenPipe,
        },
{
    if err.kind == IoErrorKind::BrokenPipe {
        return None;
    }
    let mut out = "searchlight: ".to_owned();
    out.push_str("i/o error: ");
    out.push_str(err.message.as_str());
    assert(out@ =~= failure_line(Failure::Io(err.kind, err.message@)));
    Some(out)
}

/// How the program exits after a search: `0` where something was found or the
/// reader of the output went away, `2` where the output could not be written
/// for another reason, else `1`.
pub fn exit_code(found: bool, write_error: Option<IoErrorKind>) -> (code: i32)
    ensures
        code == (match write_error {
            Some(kind) => if kind == IoErrorKind::BrokenPipe {
                0int
            } else {
                2
            },
            None => if found {
                0
            } else {
                1
            },
        }),
{
    match write_error {
        // Closing the pipe early is a normal way to use the tool, not a
        // failure.
        Some(kind) => if kind == IoErrorKind::BrokenPipe {
            0
        } else {
            2
        },
        None => if found {
            0
        } else {
            1
        },
    }
}

// ---------------------------------------------------------------------------
// Laws
// ---------------------------------------------------------------------------

/// A search starts with the settings of the command line, the pattern compiled
/// with its flags and a filter of its globs and sizes, where all of them are
/// good. Else the program exits with 2 and says why: of the command line first,
/// then of the pattern, then of the filter. Help and version are printed.
pub proof fn law_searches_start_as_asked(tokens: Seq<Seq<char>>, threads: nat)
    ensures
        ({
            let opened = opening(tokens, threads);
            match grammar::command_line(tokens, threads) {
                Request::Help => opened is Print && opened->Print_0 == help(),
                Request::Version => opened is Print && opened->Print_0 == version_line(),
                Request::Refused(message) => opened == Opening::Refuse(
                    seq![
                        "searchlight: "@ + ("argument error: "@ + message),
                        "Try 'searchlight --help' for more information."@,
                    ],
                    2,
                ),
                Request::Search(settings) => {
                    let compiled = pattern::compiled(
                        settings.pattern,
                        settings.switches.contains(Switch::IgnoreCase),
                        settings.switches.contains(Switch::WordRegexp),
                    );
                    let filter = filters::selection(
                        settings.include_globs,
                        settings.exclude_globs,
                        settings.min_size,
                        settings.max_size,
                    );
                    &&& compiled is Err ==> opened == Opening::Refuse(
                        seq!["searchlight: "@ + ("pattern error: "@ + compiled->Err_0)],
                        2,
                    )
                    &&& compiled is Ok && filter is Err ==> opened == Opening::Refuse(
                        seq!["searchlight: "@ + error::display(filter->Err_0)],
                        2,
                    )
                    &&& compiled is Ok && filter is Ok ==> opened == Opening::Search(
                        settings,
                        compiled->Ok_0,
                        filter->Ok_0,
                    )
                },
            }
        }),
{
}

/// What is told of a path names it; a file that is searched is not told of, a
/// binary one is said to be skipped, and of one that failed the reason is told.
pub proof fn law_paths_are_named_in_complaints(
    path: Seq<char>,
    message: Seq<char>,
    result: Scan,
    list: Seq<Problem>,
    k: int,
)
    requires
        0 <= k < list.len(),
    ensures
        complaint(path, message) == "searchlight: "@ + path + ": "@ + message,
        remark(Outcome::Scanned(result)) is None,
        remark(Outcome::Binary(path)) == Some(
            "searchlight: "@ + path + ": "@ + "binary file skipped"@,
        ),
        remark(Outcome::Failed(path, message)) == Some("searchlight: "@ + path + ": "@ + message),
        complaints(list, list.len() as int).len() == list.len(),
        complaints(list, list.len() as int)[k] == "searchlight: "@ + list[k].path + ": "@
            + list[k].message,
{
    lemma_complaints(list, list.len() as int, k);
}

proof fn lemma_complaints(list: Seq<Problem>, n: int, k: int)
    requires
        0 <= n <= list.len(),
    ensures
        complaints(list, n).len() == n,
        0 <= k < n ==> complaints(list, n)[k] == complaint(list[k].path, list[k].message),
    decreases n,
{
    if n > 0 {
        lemma_complaints(list, n - 1, k);
    }
}

/// Something is found if and only if a searched file has a selected line, in
/// whatever file that is.
pub proof fn law_a_match_anywhere_is_a_find(outcomes: Seq<FileOutcome>)
    ensures
        anything_found(outcomes) <==> exists|k: int|
            0 <= k < outcomes.len() && (#[trigger] outcomes[k])@ is Scanned
                && outcomes[k]@->Scanned_0.matches.len() > 0,
{
    if anything_found(outcomes) {
        let k = choose|k: int|
            0 <= k < outcomes.len() && ((#[trigger] outcomes[k])@ matches Outcome::Scanned(result)
                && result.matches.len() > 0);
        assert(outcomes[k]@ is Scanned);
    }
    if exists|k: int|
        0 <= k < outcomes.len() && (#[trigger] outcomes[k])@ is Scanned
            && outcomes[k]@->Scanned_0.matches.len() > 0 {
        let k = choose|k: int|
            0 <= k < outcomes.len() && (#[trigger] outcomes[k])@ is Scanned
                && outcomes[k]@->Scanned_0.matches.len() > 0;
        assert(outcomes[k]@ matches Outcome::Scanned(result) && result.matches.len() > 0);
    }
}

/// The report is the table of the counters, the time that all took and the size
/// window.
pub proof fn law_report_shows_table_time_and_sizes(
    snapshot: StatsSnapshot,
    total: nat,
    min_size: Option<u64>,
    max_size: Option<u64>,
)
    ensures
        stats_report(snapshot, total, min_size, max_size) == stats::table(snapshot)
            + "total wall time    "@ + stats::duration_text(total) + "\nsize limits        "@
            + sizes::bounds_phrase(min_size, max_size) + "\n"@,
{
}

} // verus!
