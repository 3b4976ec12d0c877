//! What the functions of the library give back, over what they are given.
//!
//! Each law speaks of the results of calls: `call_ensures` says that a function
//! may return a value for some arguments.

use vstd::prelude::*;
use vstd::utf8::*;

use crate::args;
use crate::args::flags;
use crate::args::grammar;
use crate::args::grammar::{Request, Switch};
use crate::args::{ColorChoice, Config, ParseOutcome, MAX_THREADS};
use crate::duration::Duration;
use crate::error::{IoError, IoErrorKind, SearchError};
use crate::filters;
use crate::filters::{FileFilter, Ignore, IgnoreSet};
use crate::highlight;
use crate::highlight::Palette;
use crate::json;
use crate::json::Json;
use crate::lines;
use crate::lines::Line;
use crate::output::RenderOptions;
use crate::pattern;
use crate::pattern::semantics;
use crate::pattern::Pattern;
use crate::program;
use crate::search;
use crate::search::{FileOutcome, FileResult, Outcome, SearchOptions};
use crate::sizes;
use crate::stats;
use crate::stats::{Stats, StatsSnapshot};
use crate::text;
use crate::timer;
use crate::timer::{Timeline, Timer};
use crate::walk;
use crate::walk::{EntryKind, WalkOptions, MAX_WALK_WORKERS};

verus! {

// ---------------------------------------------------------------------------
// Decisions of the program
// ---------------------------------------------------------------------------

/// However a search ends, the exit code tells: 0 where something was found or
/// nobody reads on, 1 where nothing was found, 2 where the output failed.
pub proof fn law_exit_codes(found: bool, write_error: Option<IoErrorKind>, code: i32)
    requires
        call_ensures(program::exit_code, (found, write_error), code),
    ensures
        write_error is None && found ==> code == 0,
        write_error is None && !found ==> code == 1,
        write_error == Some(IoErrorKind::BrokenPipe) ==> code == 0,
        write_error is Some && write_error != Some(IoErrorKind::BrokenPipe) ==> code == 2,
{
}

/// Color is used as asked; where that is left open, on terminals that do not
/// refuse it.
pub proof fn law_color_decision(choice: ColorChoice, no_color: bool, terminal: bool, color: bool)
    requires
        call_ensures(program::resolve_color, (choice, no_color, terminal), color),
    ensures
        choice == ColorChoice::Always ==> color,
        choice == ColorChoice::Never ==> !color,
        choice == ColorChoice::Auto ==> color == (terminal && !no_color),
{
}

/// Names of files show unless one file is searched alone; there are as many
/// workers as asked for, at least one, and no more than there is work for.
pub proof fn law_names_and_workers(
    paths: usize,
    first_is_dir: bool,
    yes: bool,
    available: Option<usize>,
    threads: usize,
    files: usize,
    workers: usize,
)
    requires
        files > 0,
        call_ensures(program::with_filename, (paths, first_is_dir), yes),
        call_ensures(program::default_threads, (available,), threads),
        call_ensures(search::worker_count, (threads, files), workers),
    ensures
        yes == !(paths == 1 && !first_is_dir),
        available is Some ==> threads == available->0,
        available is None ==> threads == 4,
        threads > 0 && threads <= files ==> workers == threads,
        threads > files ==> workers == files,
        threads == 0 ==> workers == 1,
{
}

/// The options of each layer are those of the configuration; names of files
/// beat counts, and counts beat matched parts.
pub proof fn law_options_come_from_the_configuration(
    config: &Config,
    color: bool,
    names: bool,
    shown: RenderOptions,
    searched: SearchOptions,
    walked: WalkOptions,
)
    requires
        call_ensures(RenderOptions::from_config, (config, color, names), shown),
        call_ensures(SearchOptions::from_config, (config,), searched),
        call_ensures(WalkOptions::from_config, (config,), walked),
    ensures
        shown.color == color && shown.with_filename == names,
        shown.line_numbers == config.line_numbers,
        shown.byte_offset == config.byte_offset,
        shown.json == config.json,
        shown.files_with_matches == config.files_with_matches,
        config.files_with_matches ==> !shown.count_only && !shown.only_matching,
        !config.files_with_matches ==> shown.count_only == config.count_only,
        !config.files_with_matches && config.count_only ==> !shown.only_matching,
        !config.files_with_matches && !config.count_only ==> shown.only_matching
            == config.only_matching,
        searched.max_count == config.max_count,
        searched.invert == config.invert_match,
        searched.before == config.before_context,
        searched.after == config.after_context,
        walked.max_depth == config.max_depth,
        walked.follow == config.follow_symlinks,
        walked.hidden == config.hidden,
        walked.no_ignore == config.no_ignore,
        walked.threads == config.threads,
{
}

/// The roots of a search are the paths given, in order, or the current
/// directory.
pub proof fn law_roots_are_the_paths_given(config: &Config, roots: Vec<String>, k: int)
    requires
        call_ensures(program::search_roots, (config,), roots),
    ensures
        config.paths@.len() == 0 ==> roots@.len() == 1 && roots@[0]@ == "."@,
        config.paths@.len() > 0 ==> roots@.len() == config.paths@.len(),
        0 <= k < config.paths@.len() ==> roots@[k]@ == config.paths@[k]@,
{
}

/// Errors say what class they are of, and all of them exit with 2.
pub proof fn law_errors_tell_their_class(
    err: &SearchError,
    code: i32,
    label: &'static str,
    shown: String,
    broken: bool,
    missing: bool,
)
    requires
        call_ensures(SearchError::exit_code, (err,), code),
        call_ensures(SearchError::kind_label, (err,), label),
        call_ensures(SearchError::to_string, (err,), shown),
        call_ensures(SearchError::is_broken_pipe, (err,), broken),
        call_ensures(SearchError::is_not_found, (err,), missing),
    ensures
        code == 2,
        err matches SearchError::Io(io) ==> label@ == "i/o"@ && shown@ == "i/o error: "@
            + io.message@ && broken == (io.kind == IoErrorKind::BrokenPipe) && missing == (io.kind
            == IoErrorKind::NotFound),
        err matches SearchError::Arg(message) ==> label@ == "argument"@ && shown@
            == "argument error: "@ + message@ && !broken && !missing,
        err matches SearchError::Pattern(message) ==> label@ == "pattern"@ && shown@
            == "pattern error: "@ + message@ && !broken && !missing,
        err matches SearchError::Runtime(message) ==> label@ == "runtime"@ && shown@
            == "runtime error: "@ + message@ && !broken && !missing,
{
}

// ---------------------------------------------------------------------------
// Command lines
// ---------------------------------------------------------------------------

/// What is parsed of a flag without a value and a pattern: a configuration in
/// which that one flag is set, however it is spelled.
pub proof fn law_parsed_flags_are_set(
    tokens: Vec<String>,
    threads: usize,
    out: Result<ParseOutcome, SearchError>,
    switch: Switch,
)
    requires
        call_ensures(Config::parse_from, (tokens, threads), out),
        tokens@.len() == 2,
        flags::spells(tokens@[0]@, switch),
        tokens@[1]@.len() == 0 || tokens@[1]@[0] != '-',
        1 <= threads <= MAX_THREADS,
    ensures
        out matches Ok(ParseOutcome::Config(config)) && {
            let token = tokens@[0]@;
            &&& config.pattern@ == tokens@[1]@
            &&& config.ignore_case == (token == "-i"@ || token == "--ignore-case"@)
            &&& config.word_regexp == (token == "-w"@ || token == "--word-regexp"@)
            &&& config.invert_match == (token == "-v"@ || token == "--invert-match"@)
            &&& config.line_numbers == (token == "-n"@ || token == "--line-number"@)
            &&& config.count_only == (token == "-c"@ || token == "--count"@)
            &&& config.files_with_matches == (token == "-l"@ || token == "--files-with-matches"@)
            &&& config.byte_offset == (token == "-b"@ || token == "--byte-offset"@)
            &&& config.only_matching == (token == "-o"@ || token == "--only-matching"@)
            &&& config.quiet == (token == "-q"@ || token == "--quiet"@)
            &&& config.no_messages == (token == "-s"@ || token == "--no-messages"@)
        },
{
    let words = args::words(tokens@);
    let pair = seq![tokens@[0]@, tokens@[1]@];
    assert(words =~= pair);
    flags::law_switches_are_accepted(tokens@[0]@, tokens@[1]@, threads as nat, switch);
    assert(args::answers(out, grammar::command_line(words, threads as nat)));
    if let Ok(ParseOutcome::Config(config)) = out {
        assert(grammar::command_line(pair, threads as nat) == Request::Search(config@));
        flags::law_switches_set_their_field(
            tokens@[0]@,
            tokens@[1]@,
            threads as nat,
            switch,
            config,
        );
    }
}

// ---------------------------------------------------------------------------
// Patterns
// ---------------------------------------------------------------------------

/// What a compiled pattern finds in a line: whether it matches somewhere, the
/// leftmost match and the longest of those, and all matches, one after the
/// other, such that no match that holds a character lies clear of them.
pub proof fn law_patterns_find_their_matches(
    source: &str,
    fold: bool,
    word: bool,
    pattern: Pattern,
    line: &str,
    yes: bool,
    found: Option<(usize, usize)>,
    list: Vec<(usize, usize)>,
)
    requires
        call_ensures(Pattern::new, (source, fold, word), Ok(pattern)),
        call_ensures(Pattern::is_match, (&pattern, line), yes),
        call_ensures(Pattern::find, (&pattern, line), found),
        call_ensures(Pattern::find_all, (&pattern, line), list),
    ensures
        pattern::compiled(source@, fold, word) is Ok,
        ({
            let c = pattern::compiled(source@, fold, word)->Ok_0;
            let s = line@;
            &&& yes <==> exists|i: int, j: int|
                0 <= i <= j <= s.len() && #[trigger] c.matches(s, i, j)
            &&& found is Some <==> yes
            &&& found matches Some((a, b)) ==> a <= b <= s.len() && c.matches(s, a as int, b as int)
                && forall|i: int, j: int|
                0 <= i <= j <= s.len() && #[trigger] c.matches(s, i, j) ==> a < i || a == i && j
                    <= b
            &&& forall|k: int|
                0 <= k < list@.len() ==> (#[trigger] list@[k]).0 <= list@[k].1 <= s.len()
                    && c.matches(s, list@[k].0 as int, list@[k].1 as int)
            &&& forall|i: int, j: int|
                0 <= i < j <= s.len() && #[trigger] c.matches(s, i, j) ==> exists|k: int|
                    0 <= k < list@.len() && (#[trigger] list@[k]).0 < j && i < list@[k].1
        }),
{
    let c = pattern@;
    let s = line@;
    let spans = semantics::spans(list@);
    assert(spans.len() == list@.len());
    pattern::laws::law_occurring_is_matching_somewhere(c, s);
    pattern::laws::law_first_is_leftmost_longest(c, s);
    pattern::laws::law_all_in_order_without_overlap(c, s);
    pattern::laws::law_all_leaves_no_match_out(c, s);
    assert(spans == c.all(s));
    assert forall|k: int| 0 <= k < list@.len() implies (#[trigger] list@[k]).0 <= list@[k].1
        <= s.len() && c.matches(s, list@[k].0 as int, list@[k].1 as int) by {
        assert(spans[k] == (list@[k].0 as int, list@[k].1 as int));
        assert(c.all(s)[k] == spans[k]);
    }
    assert forall|i: int, j: int|
        0 <= i < j <= s.len() && #[trigger] c.matches(s, i, j) implies exists|k: int|
        0 <= k < list@.len() && (#[trigger] list@[k]).0 < j && i < list@[k].1 by {
        let k = choose|k: int|
            0 <= k < c.all(s).len() && (#[trigger] c.all(s)[k]).0 < j && i < c.all(s)[k].1;
        assert(spans[k] == (list@[k].0 as int, list@[k].1 as int));
        assert(list@[k].0 < j);
    }
}

// ---------------------------------------------------------------------------
// Filters
// ---------------------------------------------------------------------------

/// What a filter accepts: the sizes within its limits, of the paths that some
/// include glob matches, if there are any, and no exclude glob.
pub proof fn law_filters_accept_as_built(
    include_globs: &[String],
    exclude_globs: &[String],
    min_size: Option<u64>,
    max_size: Option<u64>,
    filter: FileFilter,
    path: &str,
    size: u64,
    yes: bool,
)
    requires
        call_ensures(
            FileFilter::new,
            (include_globs, exclude_globs, min_size, max_size),
            Ok(filter),
        ),
        call_ensures(FileFilter::accepts, (&filter, path, size), yes),
    ensures
        yes <==> {
            &&& min_size is Some ==> min_size->0 <= size
            &&& max_size is Some ==> size <= max_size->0
            &&& include_globs@.len() == 0 || exists|k: int|
                0 <= k < include_globs@.len() && filters::laws::meets(
                    (#[trigger] include_globs@[k])@,
                    path@,
                )
            &&& forall|k: int|
                0 <= k < exclude_globs@.len() ==> !filters::laws::meets(
                    (#[trigger] exclude_globs@[k])@,
                    path@,
                )
        },
{
    let includes = args::words(include_globs@);
    let excludes = args::words(exclude_globs@);
    filters::laws::law_files_meet_some_include_and_no_exclude(
        includes,
        excludes,
        args::size_option(min_size),
        args::size_option(max_size),
        path@,
        size as nat,
    );
    assert(forall|k: int|
        0 <= k < includes.len() ==> includes[k] == (#[trigger] include_globs@[k])@);
    assert(forall|k: int|
        0 <= k < excludes.len() ==> excludes[k] == (#[trigger] exclude_globs@[k])@);
    if exists|k: int|
        0 <= k < includes.len() && filters::laws::meets(#[trigger] includes[k], path@) {
        let k = choose|k: int|
            0 <= k < includes.len() && filters::laws::meets(#[trigger] includes[k], path@);
        assert(filters::laws::meets(include_globs@[k]@, path@));
    }
    if exists|k: int|
        0 <= k < include_globs@.len() && filters::laws::meets(
            (#[trigger] include_globs@[k])@,
            path@,
        ) {
        let k = choose|k: int|
            0 <= k < include_globs@.len() && filters::laws::meets(
                (#[trigger] include_globs@[k])@,
                path@,
            );
        assert(filters::laws::meets(includes[k], path@));
    }
    if forall|k: int|
        0 <= k < exclude_globs@.len() ==> !filters::laws::meets(
            (#[trigger] exclude_globs@[k])@,
            path@,
        ) {
        assert forall|k: int| 0 <= k < excludes.len() implies !filters::laws::meets(
            #[trigger] excludes[k],
            path@,
        ) by {
            assert(!filters::laws::meets(exclude_globs@[k]@, path@));
        }
    }
    if forall|k: int|
        0 <= k < excludes.len() ==> !filters::laws::meets(#[trigger] excludes[k], path@) {
        assert forall|k: int| 0 <= k < exclude_globs@.len() implies !filters::laws::meets(
            (#[trigger] exclude_globs@[k])@,
            path@,
        ) by {
            assert(!filters::laws::meets(excludes[k], path@));
        }
    }
}

/// What a set of ignore rules says of a path: a file of one line ignores what
/// its glob matches.
pub proof fn law_ignore_sets_ignore_their_globs(
    file: &str,
    set: IgnoreSet,
    path: &str,
    is_dir: bool,
    yes: bool,
    rooted: bool,
    glob: Seq<char>,
    dir_only: bool,
)
    requires
        call_ensures(IgnoreSet::from_text, (file,), set),
        call_ensures(IgnoreSet::matches, (&set, path, is_dir), yes),
        filters::laws::plain_glob(glob),
        file@ == filters::laws::ignore_line(false, rooted, glob, dir_only),
    ensures
        yes == ((dir_only ==> is_dir) && (if rooted {
            pattern::compiled_glob(glob, false)->Ok_0.occurs(path@)
        } else {
            filters::laws::meets(glob, path@)
        })),
{
    let none = Seq::<Ignore>::empty();
    filters::laws::law_ignore_lines(none, false, rooted, glob, dir_only, path@, is_dir);
    assert(none + filters::ignore_rules(file@) =~= filters::ignore_rules(file@));
}

/// Which directories and entries are passed over for their names, which bytes
/// are taken for binary, and what the name in a path is.
pub proof fn law_names_and_bytes(
    dir: &str,
    skipped: bool,
    hidden: bool,
    bytes: &[u8],
    binary: bool,
    options: &WalkOptions,
    kind: EntryKind,
    needed: bool,
    workers: usize,
)
    requires
        call_ensures(filters::is_skipped_dir, (dir,), skipped),
        call_ensures(walk::is_hidden_name, (dir,), hidden),
        call_ensures(filters::looks_binary, (bytes,), binary),
        call_ensures(walk::needs_target, (options, dir, kind), needed),
        call_ensures(WalkOptions::workers, (options,), workers),
    ensures
        skipped == (dir@ == ".git"@ || dir@ == ".hg"@ || dir@ == ".svn"@ || dir@ == ".bzr"@ || dir@
            == "node_modules"@ || dir@ == "__pycache__"@ || dir@ == ".mypy_cache"@ || dir@
            == ".pytest_cache"@ || dir@ == "target"@ || dir@ == "vendor"@),
        hidden == (dir@.len() > 0 && dir@[0] == '.'),
        binary <==> exists|k: int| 0 <= k <= 8192 && k < bytes@.len() && #[trigger] bytes@[k] == 0,
        needed == (kind == EntryKind::Symlink && options.follow && (options.hidden || !hidden)),
        options.threads == 0 ==> workers == 1,
        1 <= options.threads <= MAX_WALK_WORKERS ==> workers == options.threads,
        options.threads > MAX_WALK_WORKERS ==> workers == MAX_WALK_WORKERS,
{
    filters::laws::law_skipped_directories(dir@);
}

// ---------------------------------------------------------------------------
// Texts
// ---------------------------------------------------------------------------

/// A text is cut into lines at its newlines, which with a carriage return in
/// front of them belong to no line.
pub proof fn law_texts_are_cut_into_lines(
    whole: &str,
    all: Vec<Line>,
    count: u64,
    rest: &str,
    others: Vec<Line>,
    first: Seq<char>,
    terminator: Seq<char>,
)
    requires
        call_ensures(lines::iter_lines, (whole,), all),
        call_ensures(lines::count_lines, (whole,), count),
        call_ensures(lines::iter_lines, (rest,), others),
        whole@ == first + terminator + rest@,
        forall|k: int| 0 <= k < first.len() ==> #[trigger] first[k] != '\n',
        terminator == seq!['\r', '\n'] || terminator == seq!['\n'] && (first.len() > 0
            ==> first.last() != '\r'),
    ensures
        count == all@.len(),
        all@.len() == 1 + others@.len(),
        all@[0].text@ == first,
        forall|k: int| 0 <= k < all@.len() ==> (#[trigger] all@[k]).number == k + 1,
        forall|k: int| 1 <= k < all@.len() ==> (#[trigger] all@[k]).text@ == others@[k - 1].text@,
{
    lines::law_lines_are_cut_at_terminators(first, terminator, rest@);
    let (a, b) = (lines::line_views(all@), lines::line_views(others@));
    assert(a == lines::lines(whole@) && b == lines::lines(rest@));
    assert(a.len() == all@.len() && b.len() == others@.len());
    assert(a[0] == all@[0]@);
    assert forall|k: int| 0 <= k < all@.len() implies (#[trigger] all@[k]).number == k + 1 by {
        assert(a[k] == all@[k]@);
        assert(lines::lines(whole@)[k].number == k + 1);
    }
    assert forall|k: int| 1 <= k < all@.len() implies (#[trigger] all@[k]).text@ == others@[k
        - 1].text@ by {
        assert(a[k] == all@[k]@);
        assert(b[k - 1] == others@[k - 1]@);
        assert(lines::lines(whole@)[k].text == lines::lines(rest@)[k - 1].text);
    }
}

/// A search reports each line that matches, or each that does not where it is
/// inverted, and without a limit no line is left out.
pub proof fn law_searches_report_matching_lines(
    path: &str,
    whole: &str,
    pattern: &Pattern,
    options: &SearchOptions,
    result: FileResult,
)
    requires
        call_ensures(search::search_text, (path, whole, pattern, options), result),
    ensures
        ({
            let slices = lines::slices(whole@);
            &&& result.path@ == path@
            &&& result.bytes_scanned == encode_utf8(whole@).len()
            &&& result.lines_scanned <= slices.len()
            &&& options.max_count is None ==> result.lines_scanned == slices.len()
            &&& options.max_count is Some ==> result.matches@.len() <= options.max_count->0
            &&& forall|m: int|
                0 <= m < result.matches@.len() ==> {
                    let i = (#[trigger] result.matches@[m]).number - 1;
                    &&& 0 <= i < result.lines_scanned
                    &&& result.matches@[m].text@ == slices[i].text
                    &&& result.matches@[m].offset == slices[i].start
                    &&& pattern@.occurs(slices[i].text) != options.invert
                }
            &&& forall|i: int|
                0 <= i < result.lines_scanned && pattern@.occurs((#[trigger] slices[i]).text)
                    != options.invert ==> exists|m: int|
                    0 <= m < result.matches@.len() && (#[trigger] result.matches@[m]).number == i
                        + 1
        }),
{
    search::laws::law_results_hold_the_matching_lines(path@, whole@, pattern@, *options);
    let scan = search::scan(path@, whole@, pattern@, *options);
    let slices = lines::slices(whole@);
    assert(result@ == scan);
    assert(scan.matches.len() == result.matches@.len());
    assert forall|m: int| 0 <= m < result.matches@.len() implies {
        let i = (#[trigger] result.matches@[m]).number - 1;
        &&& 0 <= i < result.lines_scanned
        &&& result.matches@[m].text@ == slices[i].text
        &&& result.matches@[m].offset == slices[i].start
        &&& pattern@.occurs(slices[i].text) != options.invert
    } by {
        assert(scan.matches[m] == result.matches@[m]@);
    }
    assert forall|i: int|
        0 <= i < result.lines_scanned && pattern@.occurs((#[trigger] slices[i]).text)
            != options.invert implies exists|m: int|
        0 <= m < result.matches@.len() && (#[trigger] result.matches@[m]).number == i + 1 by {
        let m = choose|m: int|
            0 <= m < scan.matches.len() && (#[trigger] scan.matches[m]).number == i + 1;
        assert(scan.matches[m] == result.matches@[m]@);
    }
}

/// A file that cannot be read failed, in the words for that; one that is binary
/// is not searched.
pub proof fn law_files_that_are_not_searched(
    path: &str,
    contents: Result<Vec<u8>, IoError>,
    pattern: &Pattern,
    options: &SearchOptions,
    outcome: FileOutcome,
)
    requires
        call_ensures(search::search_file, (path, contents, pattern, options), outcome),
    ensures
        contents matches Err(err) ==> outcome@ == Outcome::Failed(
            path@,
            if err.kind == IoErrorKind::NotFound {
                "no such file or directory"@
            } else if err.kind == IoErrorKind::PermissionDenied {
                "permission denied"@
            } else if err.kind == IoErrorKind::BrokenPipe {
                "broken pipe"@
            } else {
                err.message@
            },
        ),
        contents matches Ok(bytes) ==> ((exists|k: int|
            0 <= k <= 8192 && k < bytes@.len() && #[trigger] bytes@[k] == 0) || (forall|
            s: Seq<char>,
        | #[trigger] encode_utf8(s) != bytes@) <==> outcome@ == Outcome::Binary(path@)),
{
    if let Ok(bytes) = contents {
        search::laws::law_binary_files_are_not_searched(path@, bytes@, pattern@, *options);
        if valid_utf8(bytes@) {
            decode_utf8_encode_utf8(bytes@);
            assert(encode_utf8(decode_utf8(bytes@)) == bytes@);
        }
    }
}

/// Highlighting puts the match color in front of a span and the reset behind
/// it; without color it leaves the line as it is. Stripping a colored line gives
/// its text back where that holds no escape.
pub proof fn law_lines_are_highlighted(
    line: &str,
    spans: &[(usize, usize)],
    palette: Palette,
    out: String,
    plain: Palette,
    same: String,
)
    requires
        call_ensures(Palette::classic, (), palette),
        call_ensures(Palette::colorless, (), plain),
        call_ensures(highlight::highlight_line, (line, spans, &palette), out),
        call_ensures(highlight::highlight_line, (line, spans, &plain), same),
        spans@.len() == 1,
        spans@[0].0 < spans@[0].1 <= line@.len(),
    ensures
        same@ == line@,
        out@ == line@.take(spans@[0].0 as int) + "\x1b[1;31m"@ + line@.subrange(
            spans@[0].0 as int,
            spans@[0].1 as int,
        ) + "\x1b[0m"@ + line@.skip(spans@[0].1 as int),
{
    let (i, j) = (spans@[0].0 as int, spans@[0].1 as int);
    let none = Seq::<(int, int)>::empty();
    let views = semantics::spans(spans@);
    assert(views =~= none.push((i, j)));
    reveal_strlit("\x1b[0m");
    highlight::laws::law_every_span_is_painted(line@, none, i, j, palette@);
    highlight::laws::law_empty_spans_change_nothing(line@.take(i), none, palette@);
    highlight::laws::law_colorless_highlighting_changes_nothing(line@, views);
}

// ---------------------------------------------------------------------------
// Values
// ---------------------------------------------------------------------------

/// JSON texts are quoted with their quotes and backslashes escaped, and plain
/// texts stay what they are between the quotes.
pub proof fn law_json_texts(value: &str, item: Json, out: String, escaped: String)
    requires
        call_ensures(Json::string, (value,), item),
        call_ensures(Json::to_json_string, (&item,), out),
        call_ensures(json::escape_json, (value,), escaped),
    ensures
        out@ == seq!['"'] + escaped@ + seq!['"'],
        json::unescaped(escaped@) == Some(value@),
        (forall|k: int|
            0 <= k < value@.len() ==> #[trigger] value@[k] != '"' && value@[k] != '\\' && value@[k]
                as nat >= 0x20) ==> escaped@ == value@,
{
    json::law_escaping_can_be_undone(value@);
    if forall|k: int|
        0 <= k < value@.len() ==> #[trigger] value@[k] != '"' && value@[k] != '\\' && value@[k]
            as nat >= 0x20 {
        json::lemma_plain(value@);
    }
}

/// Numbers are grouped by thousands, and sizes and durations are shown in the
/// unit that fits, the smallest of them as whole numbers.
pub proof fn law_small_quantities_are_shown_whole(
    n: u64,
    grouped: String,
    size: String,
    decimal: String,
    span: Duration,
    time: String,
)
    requires
        call_ensures(stats::separate_thousands, (n,), grouped),
        call_ensures(sizes::format_human, (n,), size),
        call_ensures(sizes::format_decimal, (n,), decimal),
        call_ensures(stats::format_duration, (span,), time),
    ensures
        n < 1_000 ==> grouped@ == text::decimal(n as nat),
        n < 1_024 ==> size@ == text::decimal(n as nat) + " "@ + "B"@,
        n < 1_000 ==> decimal@ == text::decimal(n as nat) + " B"@,
        span@ < 1_000_000 ==> time@ == text::decimal(span@ / 1_000) + " µs"@,
        stats::without_commas(grouped@) == text::decimal(n as nat),
{
    stats::law_grouping_keeps_the_digits(n as nat);
    if n < 1_000 {
        lemma_three_digits(n as nat);
    }
}

proof fn lemma_three_digits(n: nat)
    requires
        n < 1_000,
    ensures
        text::decimal(n).len() <= 3,
{
    reveal_with_fuel(text::decimal, 4);
}

/// Sizes are read as digits and a unit, and colors by their three names.
pub proof fn law_values_are_read(
    size: &str,
    strict: Option<u64>,
    relaxed: Option<u64>,
    name: &str,
    color: Result<ColorChoice, SearchError>,
    digits: Seq<char>,
)
    requires
        call_ensures(args::parse_size, (size,), strict),
        call_ensures(sizes::parse_flexible, (size,), relaxed),
        call_ensures(ColorChoice::parse, (name,), color),
        digits.len() > 0,
        text::all_digits(digits),
        text::value_of(digits) * 1024 <= 0x20_0000_0000_0000,
        size@ == digits + "k"@,
    ensures
        strict is Some && strict->0 == text::value_of(digits) * 1024,
        relaxed is Some && relaxed->0 == text::value_of(digits) * 1024,
        color matches Ok(choice) ==> (choice == ColorChoice::Auto) == (name@ == "auto"@) && (choice
            == ColorChoice::Always) == (name@ == "always"@) && (choice == ColorChoice::Never) == (
        name@ == "never"@),
        color is Ok <==> name@ == "auto"@ || name@ == "always"@ || name@ == "never"@,
{
    let none = Seq::<char>::empty();
    sizes::laws::law_relaxed_suffixes(digits, "k"@, 1024);
    reveal_strlit("k");
    flags::law_strict_sizes(none, digits, "k"@, none);
    assert(none + (digits + "k"@) + none =~= size@);
    reveal_strlit("auto");
    reveal_strlit("always");
    reveal_strlit("never");
    assert("auto"@.len() == 4 && "always"@.len() == 6 && "never"@.len() == 5);
}

/// A snapshot holds every counter as it is, and the times in microseconds.
pub proof fn law_snapshots_are_copies(counters: &Stats, snap: StatsSnapshot, nanos: nat)
    requires
        call_ensures(Stats::snapshot, (counters,), snap),
        nanos / 1_000 <= u64::MAX,
    ensures
        snap.files_found == counters.files_found,
        snap.files_searched == counters.files_searched,
        snap.files_binary == counters.files_binary,
        snap.files_matched == counters.files_matched,
        snap.lines_scanned == counters.lines_scanned,
        snap.bytes_scanned == counters.bytes_scanned,
        snap.match_lines == counters.match_lines,
        snap.errors == counters.errors,
        snap.walk@ == 1_000 * counters.walk_micros,
        snap.search@ == 1_000 * counters.search_micros,
        stats::micros(nanos) == nanos / 1_000,
{
}

/// A timeline keeps its phases; its total is the time that passed, and never
/// less than its phases took. The time of a phase is found by its label.
pub proof fn law_timelines_keep_their_phases(
    timer: Timer,
    elapsed: Duration,
    timeline: Timeline,
    label: &str,
    found: Option<Duration>,
    k: int,
)
    requires
        call_ensures(Timer::into_timeline, (timer, elapsed), timeline),
        call_ensures(Timeline::phase, (&timeline, label), found),
        0 <= k < timer@.laps.len(),
        forall|i: int| 0 <= i < k ==> (#[trigger] timer@.laps[i]).label != label@,
        timer@.laps[k].label == label@,
    ensures
        timeline@.laps == timer@.laps,
        timeline@.total >= elapsed@,
        timeline@.total >= timer::phases_sum(timer@.laps),
        timeline@.total == elapsed@ || timeline@.total == timer::phases_sum(timer@.laps),
        found is Some && found->0@ == timer@.laps[k].nanos,
{
    timer::law_phases_are_found_by_label(timer@.laps, label@);
}

} // verus!
