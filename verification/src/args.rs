//! Command line parsing.
//!
//! The parser supports what users expect from a POSIX-flavored CLI:
//!
//! * long options with `--flag value` **and** `--flag=value` forms,
//! * clustered short flags (`-inv`, `-wvn`),
//! * attached numeric values (`-C3`, `-j8`, `-m100`),
//! * `--` to stop option parsing (needed when the pattern starts with `-`),
//! * `-h/--help` and `-V/--version` short-circuits.
//!
//! Parsing never touches the environment or the filesystem; [`Config`] is a
//! pure value. Cross-flag invariants (thread bounds, size ranges) are checked
//! in [`Config::validate`].

use vstd::prelude::*;

use crate::args::grammar::{Switch, Token, Valued};
use crate::error::{Failure, SearchError, SearchResult};
use crate::sizes;
use crate::text;

pub mod flags;
pub mod grammar;
pub mod laws;

verus! {

/// Upper bound for `-j`, keeping thread stacks from exhausting the process.
pub const MAX_THREADS: usize = 1024;

/// The usual source directory. Alone on a command line it is a path whose
/// pattern was forgotten.
pub const SOURCES: &'static str = "src/";

/// How the renderer should decide whether to emit ANSI color escapes.
#[derive(Debug, Clone, Copy, PartialEq, Eq, Structural)]
pub enum ColorChoice {
    /// Color when stdout is a terminal and `NO_COLOR` is unset (default).
    Auto,
    /// Always emit ANSI escapes, even when piping.
    Always,
    /// Never emit ANSI escapes.
    Never,
}

/// What [`Config::parse_from`] produced.
#[derive(Debug)]
pub enum ParseOutcome {
    /// A fully validated configuration, ready for the search pipeline.
    Config(Config),
    /// `-h`/`--help` was requested; print help and exit 0.
    Help,
    /// `-V`/`--version` was requested; print the version and exit 0.
    Version,
}

/// Everything the search pipeline needs, fully parsed and validated.
#[derive(Debug)]
pub struct Config {
    /// The PATTERN positional argument (compiled later by the pattern engine).
    pub pattern: String,
    /// Paths to search; an empty list means "the current directory".
    pub paths: Vec<String>,
    /// `-i` / `--ignore-case`: fold case while matching.
    pub ignore_case: bool,
    /// `-w` / `--word-regexp`: require the pattern to match whole words.
    pub word_regexp: bool,
    /// `-v` / `--invert-match`: select lines that do NOT match.
    pub invert_match: bool,
    /// `-n` / `--line-number`: prefix output with 1-based line numbers.
    pub line_numbers: bool,
    /// `-c` / `--count`: print per-file match counts instead of lines.
    pub count_only: bool,
    /// `-l` / `--files-with-matches`: print only matching file paths.
    pub files_with_matches: bool,
    /// `-B N`: lines of context printed before each match.
    pub before_context: usize,
    /// `-A N`: lines of context printed after each match.
    pub after_context: usize,
    /// `--glob PATTERN` (repeatable): only search files matching any glob.
    pub include_globs: Vec<String>,
    /// `--exclude-glob PATTERN` (repeatable): skip files matching any glob.
    pub exclude_globs: Vec<String>,
    /// `--max-depth N`: limit directory recursion depth (1 = top level only).
    pub max_depth: Option<usize>,
    /// `--min-size S`: skip files smaller than S bytes.
    pub min_size: Option<u64>,
    /// `--max-size S`: skip files larger than S bytes.
    pub max_size: Option<u64>,
    /// `-j N` / `--threads N`: number of worker threads (default: CPUs).
    pub threads: usize,
    /// `--no-ignore`: do not honor ignore files.
    pub no_ignore: bool,
    /// `--hidden`: also search hidden files and directories.
    pub hidden: bool,
    /// `--follow`: traverse symbolic links to directories.
    pub follow_symlinks: bool,
    /// `--color WHEN`: ANSI color control.
    pub color: ColorChoice,
    /// `--stats`: print a timing/counter summary to stderr.
    pub stats: bool,
    /// `--json`: emit JSON-Lines output instead of human text.
    pub json: bool,
    /// `-s` / `--no-messages`: suppress per-file error messages on stderr.
    pub no_messages: bool,
    /// `-m N` / `--max-count N`: stop after N matching lines per file.
    pub max_count: Option<usize>,
    /// `-b` / `--byte-offset`: prefix output with each line's byte offset.
    pub byte_offset: bool,
    /// `-o` / `--only-matching`: print only the matched part of each line.
    pub only_matching: bool,
    /// `-q` / `--quiet`: suppress all output; exit codes carry the result.
    pub quiet: bool,
}

/// A configuration as a mathematical value: the switches that are on, and the
/// values of the other fields of [`Config`].
#[verifier::ext_equal]
pub struct Settings {
    pub pattern: Seq<char>,
    pub paths: Seq<Seq<char>>,
    pub switches: Set<Switch>,
    pub before_context: nat,
    pub after_context: nat,
    pub include_globs: Seq<Seq<char>>,
    pub exclude_globs: Seq<Seq<char>>,
    pub max_depth: Option<nat>,
    pub min_size: Option<nat>,
    pub max_size: Option<nat>,
    pub threads: nat,
    pub color: ColorChoice,
    pub max_count: Option<nat>,
}

/// The contents of some strings.
pub open spec fn words(list: Seq<String>) -> Seq<Seq<char>> {
    list.map_values(|word: String| word@)
}

/// A count, where there is one.
pub open spec fn count_option(value: Option<usize>) -> Option<nat> {
    match value {
        Some(n) => Some(n as nat),
        None => None,
    }
}

/// A size, where there is one.
pub open spec fn size_option(value: Option<u64>) -> Option<nat> {
    match value {
        Some(n) => Some(n as nat),
        None => None,
    }
}

impl Config {
    /// The field of a switch.
    pub open spec fn is_on(&self, switch: Switch) -> bool {
        match switch {
            Switch::IgnoreCase => self.ignore_case,
            Switch::WordRegexp => self.word_regexp,
            Switch::InvertMatch => self.invert_match,
            Switch::LineNumbers => self.line_numbers,
            Switch::CountOnly => self.count_only,
            Switch::FilesWithMatches => self.files_with_matches,
            Switch::Json => self.json,
            Switch::Quiet => self.quiet,
            Switch::Stats => self.stats,
            Switch::NoMessages => self.no_messages,
            Switch::NoIgnore => self.no_ignore,
            Switch::Hidden => self.hidden,
            Switch::FollowSymlinks => self.follow_symlinks,
            Switch::ByteOffset => self.byte_offset,
            Switch::OnlyMatching => self.only_matching,
        }
    }
}

impl View for Config {
    type V = Settings;

    open spec fn view(&self) -> Settings {
        Settings {
            pattern: self.pattern@,
            paths: words(self.paths@),
            switches: Set::new(|switch: Switch| self.is_on(switch)),
            before_context: self.before_context as nat,
            after_context: self.after_context as nat,
            include_globs: words(self.include_globs@),
            exclude_globs: words(self.exclude_globs@),
            max_depth: count_option(self.max_depth),
            min_size: size_option(self.min_size),
            max_size: size_option(self.max_size),
            threads: self.threads as nat,
            color: self.color,
            max_count: count_option(self.max_count),
        }
    }
}

proof fn lemma_words_push(list: Seq<String>, word: String)
    ensures
        words(list.push(word)) == words(list).push(word@),
{
    assert(words(list.push(word)) =~= words(list).push(word@));
}

/// A value read from the command line is the expected one, or the error has
/// the expected message.
pub open spec fn reads<A>(got: SearchResult<A>, want: Result<A, Seq<char>>) -> bool {
    match got {
        Ok(value) => want == Ok::<A, Seq<char>>(value),
        Err(err) => want is Err && err@ == Failure::Arg(want->Err_0),
    }
}

/// [`reads`] for counts.
pub open spec fn reads_count(got: SearchResult<usize>, want: Result<nat, Seq<char>>) -> bool {
    match got {
        Ok(value) => want == Ok::<nat, Seq<char>>(value as nat),
        Err(err) => want is Err && err@ == Failure::Arg(want->Err_0),
    }
}

/// [`reads`] for sizes.
pub open spec fn reads_size(got: SearchResult<u64>, want: Result<nat, Seq<char>>) -> bool {
    match got {
        Ok(value) => want == Ok::<nat, Seq<char>>(value as nat),
        Err(err) => want is Err && err@ == Failure::Arg(want->Err_0),
    }
}

// ---------------------------------------------------------------------------
// Values
// ---------------------------------------------------------------------------

/// An error whose message quotes two texts: `a`, `first`, `b`, `second` and a
/// closing quote.
fn quoting(a: &str, first: &str, b: &str, second: &str) -> (err: SearchError)
    ensures
        err@ == Failure::Arg(a@ + first@ + b@ + second@ + "'"@),
{
    let mut message = String::new();
    message.push_str(a);
    message.push_str(first);
    message.push_str(b);
    message.push_str(second);
    message.push_str("'");
    assert(message@ =~= a@ + first@ + b@ + second@ + "'"@);
    SearchError::arg(message.as_str())
}

/// Parse a non-negative integer, with the flag name embedded in the error.
fn parse_usize(value: &str, flag: &str) -> (out: SearchResult<usize>)
    ensures
        reads_count(out, grammar::count(value@, flag@)),
{
    let chars = text::chars_of(value);
    match text::read_number(chars.as_slice(), usize::MAX as u64) {
        Some(n) => Ok(n as usize),
        None => Err(
            quoting("option '", flag, "' expects a non-negative integer, got '", value),
        ),
    }
}

/// Parse and bound-check a thread count.
fn parse_threads(value: &str, flag: &str) -> (out: SearchResult<usize>)
    ensures
        reads_count(out, grammar::thread_count(value@, flag@)),
{
    let parsed: usize = match parse_usize(value, flag) {
        Ok(n) => n,
        Err(err) => {
            return Err(err);
        },
    };
    if parsed == 0 {
        let mut message = String::new();
        message.push_str(flag);
        message.push_str(" must be at least 1");
        assert(message@ =~= flag@ + " must be at least 1"@);
        return Err(SearchError::arg(message.as_str()));
    }
    if parsed > MAX_THREADS {
        let mut message = String::new();
        message.push_str(flag);
        message.push_str(" must be at most ");
        text::push_decimal(&mut message, MAX_THREADS as u128);
        assert(message@ =~= flag@ + " must be at most "@ + text::decimal(MAX_THREADS as nat));
        return Err(SearchError::arg(message.as_str()));
    }
    Ok(parsed)
}

/// Parse a limit on matching lines.
fn parse_limit(value: &str, flag: &str) -> (out: SearchResult<usize>)
    ensures
        reads_count(out, grammar::match_limit(value@, flag@)),
{
    match parse_usize(value, flag) {
        Ok(n) => {
            if n == 0 {
                Err(SearchError::arg("-m/--max-count must be at least 1"))
            } else {
                Ok(n)
            }
        },
        Err(err) => Err(err),
    }
}

/// Parse a human size such as `512`, `10k`, `5m` or `1g` into bytes.
///
/// Multipliers are binary (k = 1024, m = 1024², g = 1024³, t = 1024⁴), the
/// suffix is case-insensitive and a bare `b` is a no-op. Returns `None` for
/// anything malformed or too large.
pub fn parse_size(text: &str) -> (out: Option<u64>)
    ensures
        size_option(out) == grammar::strict_size(text@),
{
    let chars = text::chars_of(text);
    let (lo, hi) = text::trim_bounds(chars.as_slice(), 0, chars.len());
    let ghost trimmed = text::trim(text@);
    proof {
        assert(chars@.subrange(0, chars@.len() as int) =~= chars@);
        assert(chars@.subrange(lo as int, hi as int) =~= trimmed);
    }
    let body = text::chars_of(text::string_of(chars.as_slice(), lo, hi).as_str());
    assert(body@ =~= trimmed);
    let end = text::scan_digits(body.as_slice(), 0);
    proof {
        text::lemma_digits_end(trimmed, 0);
        assert(trimmed.subrange(0, end as int) =~= trimmed.take(end as int));
    }
    if end == 0 {
        return None;
    }
    let rest: usize = body.len() - end;
    if rest > 1 {
        return None;
    }
    let factor: u64 = if rest == 0 {
        1
    } else {
        let letter = text::lower(body[end]);
        assert(trimmed.skip(end as int)[0] == body@[end as int]);
        if letter == 'b' {
            1
        } else if letter == 'k' {
            0x400
        } else if letter == 'm' {
            0x10_0000
        } else if letter == 'g' {
            0x4000_0000
        } else if letter == 't' {
            0x100_0000_0000
        } else {
            return None;
        }
    };
    match text::read_digits(body.as_slice(), 0, end, u64::MAX) {
        Some(n) => {
            assert(grammar::multiplier(trimmed.skip(end as int)) == Some(factor as nat));
            n.checked_mul(factor)
        },
        None => {
            proof {
                let value = text::value_of(trimmed.take(end as int));
                assert(value * factor > u64::MAX) by (nonlinear_arith)
                    requires
                        value > u64::MAX,
                        factor >= 1,
                ;
            }
            None
        },
    }
}

/// The size that a flag gives, with the flag name folded into the error
/// message.
fn parse_size_or_fail(value: &str, flag: &str) -> (out: SearchResult<u64>)
    ensures
        reads_size(out, grammar::flag_size(value@, flag@)),
{
    if let Some(n) = parse_size(value) {
        return Ok(n);
    }
    match sizes::parse_flexible(value) {
        Some(n) => Ok(n),
        None => Err(
            quoting("option '", flag, "' expects a size like 512, 10k, 2m or 1g, got '", value),
        ),
    }
}

impl ColorChoice {
    /// Parse the `--color` value: exactly `auto`, `always` or `never`.
    pub fn parse(text: &str) -> (out: SearchResult<ColorChoice>)
        ensures
            reads(out, grammar::color_choice(text@)),
    {
        if text::str_eq(text, "auto") {
            Ok(ColorChoice::Auto)
        } else if text::str_eq(text, "always") {
            Ok(ColorChoice::Always)
        } else if text::str_eq(text, "never") {
            Ok(ColorChoice::Never)
        } else {
            let mut message = String::new();
            message.push_str("--color expects 'auto', 'always' or 'never', got '");
            message.push_str(text);
            message.push_str("'");
            assert(message@ =~= "--color expects 'auto', 'always' or 'never', got '"@ + text@
                + "'"@);
            Err(SearchError::arg(message.as_str()))
        }
    }
}

// ---------------------------------------------------------------------------
// Options
// ---------------------------------------------------------------------------

/// The long switches.
fn long_switch(name: &str) -> (out: Option<Switch>)
    ensures
        out == grammar::long_switch(name@),
{
    if text::str_eq(name, "ignore-case") {
        return Some(Switch::IgnoreCase);
    }
    if text::str_eq(name, "word-regexp") {
        return Some(Switch::WordRegexp);
    }
    if text::str_eq(name, "invert-match") {
        return Some(Switch::InvertMatch);
    }
    if text::str_eq(name, "line-number") {
        return Some(Switch::LineNumbers);
    }
    if text::str_eq(name, "count") {
        return Some(Switch::CountOnly);
    }
    if text::str_eq(name, "files-with-matches") {
        return Some(Switch::FilesWithMatches);
    }
    if text::str_eq(name, "json") {
        return Some(Switch::Json);
    }
    if text::str_eq(name, "quiet") {
        return Some(Switch::Quiet);
    }
    if text::str_eq(name, "stats") {
        return Some(Switch::Stats);
    }
    if text::str_eq(name, "no-messages") {
        return Some(Switch::NoMessages);
    }
    if text::str_eq(name, "no-ignore") {
        return Some(Switch::NoIgnore);
    }
    if text::str_eq(name, "hidden") {
        return Some(Switch::Hidden);
    }
    if text::str_eq(name, "follow") {
        return Some(Switch::FollowSymlinks);
    }
    if text::str_eq(name, "byte-offset") {
        return Some(Switch::ByteOffset);
    }
    if text::str_eq(name, "only-matching") {
        return Some(Switch::OnlyMatching);
    }
    None
}

/// The short switches.
fn short_switch(flag: char) -> (out: Option<Switch>)
    ensures
        out == grammar::short_switch(flag),
{
    match flag {
        'i' => Some(Switch::IgnoreCase),
        'w' => Some(Switch::WordRegexp),
        'n' => Some(Switch::LineNumbers),
        'v' => Some(Switch::InvertMatch),
        'c' => Some(Switch::CountOnly),
        'l' => Some(Switch::FilesWithMatches),
        'b' => Some(Switch::ByteOffset),
        'o' => Some(Switch::OnlyMatching),
        'q' => Some(Switch::Quiet),
        's' => Some(Switch::NoMessages),
        _ => None,
    }
}

/// The long options with values.
fn long_valued(name: &str) -> (out: Option<Valued>)
    ensures
        out == grammar::long_valued(name@),
{
    if text::str_eq(name, "glob") {
        return Some(Valued::Glob);
    }
    if text::str_eq(name, "exclude-glob") {
        return Some(Valued::ExcludeGlob);
    }
    if text::str_eq(name, "max-depth") {
        return Some(Valued::MaxDepth);
    }
    if text::str_eq(name, "min-size") {
        return Some(Valued::MinSize);
    }
    if text::str_eq(name, "max-size") {
        return Some(Valued::MaxSize);
    }
    if text::str_eq(name, "threads") {
        return Some(Valued::Threads);
    }
    if text::str_eq(name, "max-count") {
        return Some(Valued::MaxCount);
    }
    if text::str_eq(name, "color") {
        return Some(Valued::Color);
    }
    None
}

/// The short options with values.
fn short_valued(flag: char) -> (out: Option<Valued>)
    ensures
        out == grammar::short_valued(flag),
{
    match flag {
        'B' => Some(Valued::Before),
        'A' => Some(Valued::After),
        'C' => Some(Valued::Context),
        'j' => Some(Valued::Threads),
        'm' => Some(Valued::MaxCount),
        _ => None,
    }
}

/// The setters of the single fields.
impl Config {
    fn set_ignore_case(&mut self)
        ensures
            final(self)@ == grammar::switched(old(self)@, Switch::IgnoreCase),
    {
        self.ignore_case = true;
    }

    fn set_word_regexp(&mut self)
        ensures
            final(self)@ == grammar::switched(old(self)@, Switch::WordRegexp),
    {
        self.word_regexp = true;
    }

    fn set_invert_match(&mut self)
        ensures
            final(self)@ == grammar::switched(old(self)@, Switch::InvertMatch),
    {
        self.invert_match = true;
    }

    fn set_line_numbers(&mut self)
        ensures
            final(self)@ == grammar::switched(old(self)@, Switch::LineNumbers),
    {
        self.line_numbers = true;
    }

    fn set_count_only(&mut self)
        ensures
            final(self)@ == grammar::switched(old(self)@, Switch::CountOnly),
    {
        self.count_only = true;
    }

    fn set_files_with_matches(&mut self)
        ensures
            final(self)@ == grammar::switched(old(self)@, Switch::FilesWithMatches),
    {
        self.files_with_matches = true;
    }

    fn set_json(&mut self)
        ensures
            final(self)@ == grammar::switched(old(self)@, Switch::Json),
    {
        self.json = true;
    }

    fn set_quiet(&mut self)
        ensures
            final(self)@ == grammar::switched(old(self)@, Switch::Quiet),
    {
        self.quiet = true;
    }

    fn set_stats(&mut self)
        ensures
            final(self)@ == grammar::switched(old(self)@, Switch::Stats),
    {
        self.stats = true;
    }

    fn set_no_messages(&mut self)
        ensures
            final(self)@ == grammar::switched(old(self)@, Switch::NoMessages),
    {
        self.no_messages = true;
    }

    fn set_no_ignore(&mut self)
        ensures
            final(self)@ == grammar::switched(old(self)@, Switch::NoIgnore),
    {
        self.no_ignore = true;
    }

    fn set_hidden(&mut self)
        ensures
            final(self)@ == grammar::switched(old(self)@, Switch::Hidden),
    {
        self.hidden = true;
    }

    fn set_follow_symlinks(&mut self)
        ensures
            final(self)@ == grammar::switched(old(self)@, Switch::FollowSymlinks),
    {
        self.follow_symlinks = true;
    }

    fn set_byte_offset(&mut self)
        ensures
            final(self)@ == grammar::switched(old(self)@, Switch::ByteOffset),
    {
        self.byte_offset = true;
    }

    fn set_only_matching(&mut self)
        ensures
            final(self)@ == grammar::switched(old(self)@, Switch::OnlyMatching),
    {
        self.only_matching = true;
    }

    fn set_max_depth(&mut self, n: usize)
        ensures
            final(self)@ == (Settings { max_depth: Some(n as nat), ..old(self)@ }),
    {
        self.max_depth = Some(n);
    }

    fn set_before_context(&mut self, n: usize)
        ensures
            final(self)@ == (Settings { before_context: n as nat, ..old(self)@ }),
    {
        self.before_context = n;
    }

    fn set_after_context(&mut self, n: usize)
        ensures
            final(self)@ == (Settings { after_context: n as nat, ..old(self)@ }),
    {
        self.after_context = n;
    }

    fn set_threads(&mut self, n: usize)
        ensures
            final(self)@ == (Settings { threads: n as nat, ..old(self)@ }),
    {
        self.threads = n;
    }

    fn set_max_count(&mut self, n: usize)
        ensures
            final(self)@ == (Settings { max_count: Some(n as nat), ..old(self)@ }),
    {
        self.max_count = Some(n);
    }

    fn set_min_size(&mut self, n: u64)
        ensures
            final(self)@ == (Settings { min_size: Some(n as nat), ..old(self)@ }),
    {
        self.min_size = Some(n);
    }

    fn set_max_size(&mut self, n: u64)
        ensures
            final(self)@ == (Settings { max_size: Some(n as nat), ..old(self)@ }),
    {
        self.max_size = Some(n);
    }

    fn set_color(&mut self, color: ColorChoice)
        ensures
            final(self)@ == (Settings { color: color, ..old(self)@ }),
    {
        self.color = color;
    }

    fn add_include_glob(&mut self, glob: &str)
        ensures
            final(self)@ == (Settings {
                include_globs: old(self)@.include_globs.push(glob@),
                ..old(self)@
            }),
    {
        let word = glob.to_owned();
        proof {
            lemma_words_push(self.include_globs@, word);
        }
        self.include_globs.push(word);
    }

    fn add_exclude_glob(&mut self, glob: &str)
        ensures
            final(self)@ == (Settings {
                exclude_globs: old(self)@.exclude_globs.push(glob@),
                ..old(self)@
            }),
    {
        let word = glob.to_owned();
        proof {
            lemma_words_push(self.exclude_globs@, word);
        }
        self.exclude_globs.push(word);
    }
}

/// Sets a switch.
fn set_switch(config: &mut Config, switch: Switch)
    ensures
        final(config)@ == grammar::switched(old(config)@, switch),
{
    match switch {
        Switch::IgnoreCase => config.set_ignore_case(),
        Switch::WordRegexp => config.set_word_regexp(),
        Switch::InvertMatch => config.set_invert_match(),
        Switch::LineNumbers => config.set_line_numbers(),
        Switch::CountOnly => config.set_count_only(),
        Switch::FilesWithMatches => config.set_files_with_matches(),
        Switch::Json => config.set_json(),
        Switch::Quiet => config.set_quiet(),
        Switch::Stats => config.set_stats(),
        Switch::NoMessages => config.set_no_messages(),
        Switch::NoIgnore => config.set_no_ignore(),
        Switch::Hidden => config.set_hidden(),
        Switch::FollowSymlinks => config.set_follow_symlinks(),
        Switch::ByteOffset => config.set_byte_offset(),
        Switch::OnlyMatching => config.set_only_matching(),
    }
}

/// A setting took place as the grammar says; where it is refused, nothing
/// changed.
pub open spec fn applies(
    got: SearchResult<()>,
    before: Settings,
    after: Settings,
    want: Result<Settings, Seq<char>>,
) -> bool {
    match got {
        Ok(_) => want == Ok::<Settings, Seq<char>>(after),
        Err(err) => want is Err && err@ == Failure::Arg(want->Err_0) && after == before,
    }
}

/// Sets an option to a value; `flag` is what the user wrote.
fn apply_value_flag(config: &mut Config, option: Valued, flag: &str, value: &str) -> (out:
    SearchResult<()>)
    ensures
        applies(
            out,
            old(config)@,
            final(config)@,
            grammar::assigned(old(config)@, option, flag@, value@),
        ),
{
    match option {
        Valued::Glob => config.add_include_glob(value),
        Valued::ExcludeGlob => config.add_exclude_glob(value),
        Valued::MaxDepth => match parse_usize(value, flag) {
            Ok(found) => config.set_max_depth(found),
            Err(err) => {
                return Err(err);
            },
        },
        Valued::MinSize => match parse_size_or_fail(value, flag) {
            Ok(found) => config.set_min_size(found),
            Err(err) => {
                return Err(err);
            },
        },
        Valued::MaxSize => match parse_size_or_fail(value, flag) {
            Ok(found) => config.set_max_size(found),
            Err(err) => {
                return Err(err);
            },
        },
        Valued::Threads => match parse_threads(value, flag) {
            Ok(found) => config.set_threads(found),
            Err(err) => {
                return Err(err);
            },
        },
        Valued::MaxCount => match parse_limit(value, flag) {
            Ok(found) => config.set_max_count(found),
            Err(err) => {
                return Err(err);
            },
        },
        Valued::Color => match ColorChoice::parse(value) {
            Ok(found) => config.set_color(found),
            Err(err) => {
                return Err(err);
            },
        },
        Valued::Before => match parse_usize(value, flag) {
            Ok(found) => config.set_before_context(found),
            Err(err) => {
                return Err(err);
            },
        },
        Valued::After => match parse_usize(value, flag) {
            Ok(found) => config.set_after_context(found),
            Err(err) => {
                return Err(err);
            },
        },
        Valued::Context => match parse_usize(value, flag) {
            Ok(found) => {
                config.set_before_context(found);
                config.set_after_context(found);
            },
            Err(err) => {
                return Err(err);
            },
        },
    }
    Ok(())
}

/// An option took place as the grammar says, and left the tokens from the
/// given one on.
pub open spec fn advances(
    got: SearchResult<usize>,
    after: Settings,
    want: Result<(Settings, int), Seq<char>>,
) -> bool {
    match got {
        Ok(next) => want == Ok::<(Settings, int), Seq<char>>((after, next as int)),
        Err(err) => want is Err && err@ == Failure::Arg(want->Err_0),
    }
}

/// An error whose message quotes one text.
fn quoting_one(a: &str, quoted: &str, b: &str) -> (err: SearchError)
    ensures
        err@ == Failure::Arg(a@ + quoted@ + b@),
{
    let mut message = String::new();
    message.push_str(a);
    message.push_str(quoted);
    message.push_str(b);
    assert(message@ =~= a@ + quoted@ + b@);
    SearchError::arg(message.as_str())
}

/// Parse one long option. `rest` excludes the leading `--`. Returns the index
/// of the next unconsumed token; an option that is refused changes nothing.
fn parse_long(rest: &[char], tokens: &Vec<String>, index: usize, config: &mut Config) -> (out:
    SearchResult<usize>)
    requires
        index < tokens@.len(),
    ensures
        advances(
            out,
            final(config)@,
            grammar::long_option(rest@, words(tokens@), index as int, old(config)@),
        ),
        out is Ok ==> index < out->Ok_0 <= tokens@.len(),
        out is Err ==> final(config)@ == old(config)@,
{
    let ghost all = words(tokens@);
    let size: usize = tokens.len();
    let mut cut: usize = 0;
    while cut < rest.len() && rest[cut] != '='
        invariant
            cut <= rest@.len(),
            grammar::equals_sign(rest@, 0) == grammar::equals_sign(rest@, cut as int),
        decreases rest@.len() - cut,
    {
        cut += 1;
    }
    let name = text::string_of(rest, 0, cut);
    assert(name@ =~= rest@.take(cut as int));
    let mut flag = String::new();
    flag.push_str("--");
    flag.push_str(name.as_str());
    assert(flag@ =~= "--"@ + name@);
    let attached = cut < rest.len();
    if let Some(switch) = long_switch(name.as_str()) {
        if attached {
            return Err(quoting_one("option '", flag.as_str(), "' does not take a value"));
        }
        set_switch(config, switch);
        return Ok(index + 1);
    }
    let option = match long_valued(name.as_str()) {
        Some(option) => option,
        None => {
            return Err(quoting_one("unrecognized option '", flag.as_str(), "'"));
        },
    };
    if attached {
        let value = text::string_of(rest, cut + 1, rest.len());
        assert(value@ =~= rest@.skip(cut + 1));
        return match apply_value_flag(config, option, flag.as_str(), value.as_str()) {
            Ok(_) => Ok(index + 1),
            Err(err) => Err(err),
        };
    }
    if size - index > 1 {
        assert(all[index + 1] == tokens@[index + 1]@);
        return match apply_value_flag(config, option, flag.as_str(), tokens[index + 1].as_str()) {
            Ok(_) => Ok(index + 2),
            Err(err) => Err(err),
        };
    }
    Err(quoting_one("option '", flag.as_str(), "' requires a value"))
}

/// Parse a cluster of short flags such as `-inv` or `-C3`. Returns the index
/// of the next unconsumed token. The flags in front of one that is refused stay
/// set.
pub fn parse_short_cluster(
    token: &[char],
    tokens: &Vec<String>,
    index: usize,
    config: &mut Config,
) -> (out: SearchResult<usize>)
    requires
        index < tokens@.len(),
        token@.len() >= 1,
    ensures
        advances(
            out,
            final(config)@,
            grammar::cluster(token@, 1, words(tokens@), index + 1, old(config)@),
        ),
        final(config)@ == grammar::cluster_settings(
            token@,
            1,
            words(tokens@),
            index + 1,
            old(config)@,
        ),
        out is Ok ==> index < out->Ok_0 <= tokens@.len(),
{
    let ghost all = words(tokens@);
    let ghost want = grammar::cluster(token@, 1, all, index + 1, config@);
    let ghost set = grammar::cluster_settings(token@, 1, all, index + 1, config@);
    let size: usize = tokens.len();
    let next: usize = index + 1;
    let mut cursor: usize = 1;
    while cursor < token.len()
        invariant
            1 <= cursor <= token@.len(),
            next == index + 1,
            next <= size == tokens@.len(),
            all == words(tokens@),
            want == grammar::cluster(token@, cursor as int, all, next as int, config@),
            want == grammar::cluster(token@, 1, all, index + 1, old(config)@),
            set == grammar::cluster_settings(token@, cursor as int, all, next as int, config@),
            set == grammar::cluster_settings(token@, 1, all, index + 1, old(config)@),
        decreases token@.len() - cursor,
    {
        let letter = token[cursor];
        if let Some(switch) = short_switch(letter) {
            set_switch(config, switch);
            cursor += 1;
        } else {
            let mut flag = String::new();
            flag.push_str("-");
            flag.push(letter);
            assert(flag@ =~= "-"@ + seq![letter]);
            let option = match short_valued(letter) {
                Some(option) => option,
                None => {
                    return Err(quoting_one("unrecognized option '", flag.as_str(), "'"));
                },
            };
            let end = text::scan_digits(token, cursor + 1);
            if end > cursor + 1 {
                let value = text::string_of(token, cursor + 1, end);
                match apply_value_flag(config, option, flag.as_str(), value.as_str()) {
                    Ok(_) => {
                        cursor = end;
                    },
                    Err(err) => {
                        return Err(err);
                    },
                }
            } else if next < size {
                assert(all[next as int] == tokens@[next as int]@);
                return match apply_value_flag(
                    config,
                    option,
                    flag.as_str(),
                    tokens[next].as_str(),
                ) {
                    Ok(_) => Ok(next + 1),
                    Err(err) => Err(err),
                };
            } else {
                return Err(quoting_one("option '", flag.as_str(), "' requires a value"));
            }
        }
    }
    Ok(next)
}

// ---------------------------------------------------------------------------
// Command lines
// ---------------------------------------------------------------------------

/// What a token is, as long as options may come.
fn classify(chars: &[char], token: &str) -> (kind: Token)
    requires
        chars@ == token@,
    ensures
        kind == grammar::token_kind(token@),
        kind == Token::Long || kind == Token::Short ==> token@.len() >= 2,
{
    if text::str_eq(token, "--") {
        return Token::End;
    }
    if text::str_eq(token, "-h") || text::str_eq(token, "--help") {
        return Token::Help;
    }
    if text::str_eq(token, "-V") || text::str_eq(token, "--version") {
        return Token::Version;
    }
    if chars.len() >= 2 && chars[0] == '-' {
        if chars[1] == '-' {
            Token::Long
        } else {
            Token::Short
        }
    } else {
        Token::Positional
    }
}

/// Parse an option, long or short. Returns the index of the next unconsumed
/// token.
fn parse_option(
    token: &[char],
    kind: Token,
    tokens: &Vec<String>,
    index: usize,
    config: &mut Config,
) -> (out: SearchResult<usize>)
    requires
        index < tokens@.len(),
        token@ == words(tokens@)[index as int],
        token@.len() >= 2,
        kind == Token::Long || kind == Token::Short,
    ensures
        advances(
            out,
            final(config)@,
            grammar::option(words(tokens@), index as int, kind, old(config)@),
        ),
        out is Ok ==> index < out->Ok_0 <= tokens@.len(),
{
    if kind == Token::Long {
        let rest = text::chars_of(text::string_of(token, 2, token.len()).as_str());
        assert(rest@ =~= token@.skip(2));
        parse_long(rest.as_slice(), tokens, index, config)
    } else {
        parse_short_cluster(token, tokens, index, config)
    }
}

/// Store a positional argument: the first is the pattern, the rest are paths.
fn record_positional(config: &mut Config, pattern_seen: bool, token: &str)
    ensures
        final(config)@ == grammar::positional(old(config)@, pattern_seen, token@),
{
    let word = token.to_owned();
    if pattern_seen {
        proof {
            lemma_words_push(config.paths@, word);
        }
        config.paths.push(word);
    } else {
        config.pattern = word;
    }
}

/// The message about a size window without sizes in it.
pub fn size_conflict(min: u64, max: u64) -> (err: SearchError)
    ensures
        err@ == Failure::Arg(grammar::size_conflict(min as nat, max as nat)),
{
    let mut message = String::new();
    message.push_str("--min-size (");
    text::push_decimal(&mut message, min as u128);
    message.push_str(") exceeds --max-size (");
    text::push_decimal(&mut message, max as u128);
    message.push_str(")");
    assert(message@ =~= grammar::size_conflict(min as nat, max as nat));
    SearchError::arg(message.as_str())
}

/// A parse ended as the command line asks.
pub open spec fn answers(got: SearchResult<ParseOutcome>, want: grammar::Request) -> bool {
    match got {
        Ok(ParseOutcome::Config(config)) => want == grammar::Request::Search(config@),
        Ok(ParseOutcome::Help) => want == grammar::Request::Help,
        Ok(ParseOutcome::Version) => want == grammar::Request::Version,
        Err(err) => want is Refused && err@ == Failure::Arg(want->Refused_0),
    }
}

impl Config {
    /// A configuration with every option at its documented default, where
    /// `threads` is the number of worker threads to use.
    pub fn with_defaults(threads: usize) -> (out: Config)
        ensures
            out@ == grammar::defaults(threads as nat),
    {
        let out = Config {
            pattern: String::new(),
            paths: Vec::new(),
            ignore_case: false,
            word_regexp: false,
            invert_match: false,
            line_numbers: false,
            count_only: false,
            files_with_matches: false,
            before_context: 0,
            after_context: 0,
            include_globs: Vec::new(),
            exclude_globs: Vec::new(),
            max_depth: None,
            min_size: None,
            max_size: None,
            threads,
            no_ignore: false,
            hidden: false,
            follow_symlinks: false,
            color: ColorChoice::Auto,
            stats: false,
            json: false,
            no_messages: false,
            max_count: None,
            byte_offset: false,
            only_matching: false,
            quiet: false,
        };
        proof {
            assert(out@.pattern =~= Seq::<char>::empty());
            assert(out@.paths =~= Seq::<Seq<char>>::empty());
            assert(out@.switches =~= Set::<Switch>::empty());
        }
        out
    }

    /// Parse a command line (argv without the program name), where `threads`
    /// is the default number of worker threads.
    ///
    /// The first positional argument is the pattern. Where `src/` is all there
    /// is, it names the sources and the pattern counts as missing; behind `--`
    /// it is a pattern all the same.
    pub fn parse_from(tokens: Vec<String>, threads: usize) -> (out: SearchResult<ParseOutcome>)
        ensures
            answers(out, grammar::command_line(words(tokens@), threads as nat)),
    {
        let ghost all = words(tokens@);
        let ghost want = grammar::command_line(all, threads as nat);
        if tokens.len() == 1 {
            assert(all[0] == tokens@[0]@);
            if text::str_eq(tokens[0].as_str(), SOURCES) {
                return Err(SearchError::arg("missing PATTERN (try 'searchlight --help')"));
            }
        }
        let mut config = Config::with_defaults(threads);
        let mut pattern_seen = false;
        let mut only_paths = false;
        let mut index: usize = 0;
        while index < tokens.len()
            invariant
                index <= tokens@.len(),
                all == words(tokens@),
                want == grammar::command_line(all, threads as nat),
                want == grammar::request(all, index as int, pattern_seen, only_paths, config@),
            decreases tokens@.len() - index,
        {
            let token = tokens[index].as_str();
            assert(all[index as int] == token@);
            let chars = text::chars_of(token);
            let kind = if only_paths {
                Token::Positional
            } else {
                classify(chars.as_slice(), token)
            };
            match kind {
                Token::End => {
                    only_paths = true;
                    index += 1;
                },
                Token::Help => {
                    return Ok(ParseOutcome::Help);
                },
                Token::Version => {
                    return Ok(ParseOutcome::Version);
                },
                Token::Positional => {
                    record_positional(&mut config, pattern_seen, token);
                    pattern_seen = true;
                    index += 1;
                },
                Token::Long | Token::Short => {
                    match parse_option(chars.as_slice(), kind, &tokens, index, &mut config) {
                        Ok(next) => {
                            index = next;
                        },
                        Err(err) => {
                            return Err(err);
                        },
                    }
                },
            }
        }
        if !pattern_seen {
            return Err(SearchError::arg("missing PATTERN (try 'searchlight --help')"));
        }
        match config.validate() {
            Ok(_) => Ok(ParseOutcome::Config(config)),
            Err(err) => Err(err),
        }
    }

    /// Check cross-flag invariants that no single flag can validate alone.
    pub fn validate(&self) -> (out: SearchResult<()>)
        ensures
            match out {
                Ok(_) => grammar::contradiction(self@) is None,
                Err(err) => grammar::contradiction(self@) is Some && err@ == Failure::Arg(
                    grammar::contradiction(self@)->0,
                ),
            },
    {
        if self.threads == 0 {
            return Err(SearchError::arg("-j/--threads must be at least 1"));
        }
        if self.threads > MAX_THREADS {
            let mut message = String::new();
            message.push_str("-j/--threads must be at most ");
            text::push_decimal(&mut message, MAX_THREADS as u128);
            assert(message@ =~= "-j/--threads must be at most "@ + text::decimal(
                MAX_THREADS as nat,
            ));
            return Err(SearchError::arg(message.as_str()));
        }
        if let (Some(min), Some(max)) = (self.min_size, self.max_size) {
            if min > max {
                return Err(size_conflict(min, max));
            }
        }
        Ok(())
    }
}

} // verus!
