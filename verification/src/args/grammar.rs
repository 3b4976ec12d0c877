//! What a command line stands for.

use vstd::prelude::*;

use crate::args::{ColorChoice, Settings, MAX_THREADS, SOURCES};
use crate::sizes;
use crate::text;

verus! {

/// What a command line asks for.
pub enum Request {
    /// A search.
    Search(Settings),
    /// The help text.
    Help,
    /// The version.
    Version,
    /// Nothing that makes sense, for the reason given.
    Refused(Seq<char>),
}

/// Every option at its default.
pub open spec fn defaults(threads: nat) -> Settings {
    Settings {
        pattern: Seq::empty(),
        paths: Seq::empty(),
        switches: Set::empty(),
        before_context: 0,
        after_context: 0,
        include_globs: Seq::empty(),
        exclude_globs: Seq::empty(),
        max_depth: None,
        min_size: None,
        max_size: None,
        threads,
        color: ColorChoice::Auto,
        max_count: None,
    }
}

// ---------------------------------------------------------------------------
// Values
// ---------------------------------------------------------------------------

/// The message about a value that is no count.
pub open spec fn not_a_count(value: Seq<char>, flag: Seq<char>) -> Seq<char> {
    "option '"@ + flag + "' expects a non-negative integer, got '"@ + value + "'"@
}

/// A count.
pub open spec fn count(value: Seq<char>, flag: Seq<char>) -> Result<nat, Seq<char>> {
    match text::number_upto(value, usize::MAX as nat) {
        Some(n) => Ok(n),
        None => Err(not_a_count(value, flag)),
    }
}

/// A number of threads.
pub open spec fn thread_count(value: Seq<char>, flag: Seq<char>) -> Result<nat, Seq<char>> {
    match count(value, flag) {
        Ok(n) => if n == 0 {
            Err(flag + " must be at least 1"@)
        } else if n > MAX_THREADS {
            Err(flag + " must be at most "@ + text::decimal(MAX_THREADS as nat))
        } else {
            Ok(n)
        },
        Err(message) => Err(message),
    }
}

/// A limit on matching lines.
pub open spec fn match_limit(value: Seq<char>, flag: Seq<char>) -> Result<nat, Seq<char>> {
    match count(value, flag) {
        Ok(n) => if n == 0 {
            Err("-m/--max-count must be at least 1"@)
        } else {
            Ok(n)
        },
        Err(message) => Err(message),
    }
}

/// What a suffix of one letter, or none, multiplies with.
pub open spec fn multiplier(suffix: Seq<char>) -> Option<nat> {
    if suffix.len() == 0 {
        Some(1nat)
    } else if suffix.len() > 1 {
        None
    } else {
        let letter = text::ascii_lower(suffix[0]);
        if letter == 'b' {
            Some(1nat)
        } else if letter == 'k' {
            Some(0x400nat)
        } else if letter == 'm' {
            Some(0x10_0000nat)
        } else if letter == 'g' {
            Some(0x4000_0000nat)
        } else if letter == 't' {
            Some(0x100_0000_0000nat)
        } else {
            None
        }
    }
}

/// A size in the strict grammar: digits and a suffix, white space around them.
pub open spec fn strict_size(value: Seq<char>) -> Option<nat> {
    let trimmed = text::trim(value);
    let end = text::digits_end(trimmed, 0);
    match multiplier(trimmed.skip(end)) {
        Some(factor) => {
            let size = text::value_of(trimmed.take(end)) * factor;
            if end > 0 && size <= u64::MAX {
                Some(size)
            } else {
                None
            }
        },
        None => None,
    }
}

/// The message about a value that is no size.
pub open spec fn not_a_size(value: Seq<char>, flag: Seq<char>) -> Seq<char> {
    "option '"@ + flag + "' expects a size like 512, 10k, 2m or 1g, got '"@ + value + "'"@
}

/// The size that a flag gives: in the strict grammar, or else in the relaxed
/// one.
pub open spec fn flag_size(value: Seq<char>, flag: Seq<char>) -> Result<nat, Seq<char>> {
    match strict_size(value) {
        Some(n) => Ok(n),
        None => match sizes::flexible(value) {
            Some(n) => Ok(n),
            None => Err(not_a_size(value, flag)),
        },
    }
}

/// When to use color.
pub open spec fn color_choice(value: Seq<char>) -> Result<ColorChoice, Seq<char>> {
    if value == "auto"@ {
        Ok(ColorChoice::Auto)
    } else if value == "always"@ {
        Ok(ColorChoice::Always)
    } else if value == "never"@ {
        Ok(ColorChoice::Never)
    } else {
        Err("--color expects 'auto', 'always' or 'never', got '"@ + value + "'"@)
    }
}

// ---------------------------------------------------------------------------
// Options
// ---------------------------------------------------------------------------

/// An option without a value.
#[derive(Debug, Clone, Copy, PartialEq, Eq, Structural)]
pub enum Switch {
    IgnoreCase,
    WordRegexp,
    InvertMatch,
    LineNumbers,
    CountOnly,
    FilesWithMatches,
    Json,
    Quiet,
    Stats,
    NoMessages,
    NoIgnore,
    Hidden,
    FollowSymlinks,
    ByteOffset,
    OnlyMatching,
}

/// An option with a value.
#[derive(Debug, Clone, Copy, PartialEq, Eq, Structural)]
pub enum Valued {
    Glob,
    ExcludeGlob,
    MaxDepth,
    MinSize,
    MaxSize,
    Threads,
    MaxCount,
    Color,
    Before,
    After,
    Context,
}

/// The long switches.
pub open spec fn long_switch(name: Seq<char>) -> Option<Switch> {
    if name == "ignore-case"@ {
        Some(Switch::IgnoreCase)
    } else if name == "word-regexp"@ {
        Some(Switch::WordRegexp)
    } else if name == "invert-match"@ {
        Some(Switch::InvertMatch)
    } else if name == "line-number"@ {
        Some(Switch::LineNumbers)
    } else if name == "count"@ {
        Some(Switch::CountOnly)
    } else if name == "files-with-matches"@ {
        Some(Switch::FilesWithMatches)
    } else if name == "json"@ {
        Some(Switch::Json)
    } else if name == "quiet"@ {
        Some(Switch::Quiet)
    } else if name == "stats"@ {
        Some(Switch::Stats)
    } else if name == "no-messages"@ {
        Some(Switch::NoMessages)
    } else if name == "no-ignore"@ {
        Some(Switch::NoIgnore)
    } else if name == "hidden"@ {
        Some(Switch::Hidden)
    } else if name == "follow"@ {
        Some(Switch::FollowSymlinks)
    } else if name == "byte-offset"@ {
        Some(Switch::ByteOffset)
    } else if name == "only-matching"@ {
        Some(Switch::OnlyMatching)
    } else {
        None
    }
}

/// The short switches.
pub open spec fn short_switch(flag: char) -> Option<Switch> {
    if flag == 'i' {
        Some(Switch::IgnoreCase)
    } else if flag == 'w' {
        Some(Switch::WordRegexp)
    } else if flag == 'n' {
        Some(Switch::LineNumbers)
    } else if flag == 'v' {
        Some(Switch::InvertMatch)
    } else if flag == 'c' {
        Some(Switch::CountOnly)
    } else if flag == 'l' {
        Some(Switch::FilesWithMatches)
    } else if flag == 'b' {
        Some(Switch::ByteOffset)
    } else if flag == 'o' {
        Some(Switch::OnlyMatching)
    } else if flag == 'q' {
        Some(Switch::Quiet)
    } else if flag == 's' {
        Some(Switch::NoMessages)
    } else {
        None
    }
}

/// The long options with values.
pub open spec fn long_valued(name: Seq<char>) -> Option<Valued> {
    if name == "glob"@ {
        Some(Valued::Glob)
    } else if name == "exclude-glob"@ {
        Some(Valued::ExcludeGlob)
    } else if name == "max-depth"@ {
        Some(Valued::MaxDepth)
    } else if name == "min-size"@ {
        Some(Valued::MinSize)
    } else if name == "max-size"@ {
        Some(Valued::MaxSize)
    } else if name == "threads"@ {
        Some(Valued::Threads)
    } else if name == "max-count"@ {
        Some(Valued::MaxCount)
    } else if name == "color"@ {
        Some(Valued::Color)
    } else {
        None
    }
}

/// The short options with values.
pub open spec fn short_valued(flag: char) -> Option<Valued> {
    if flag == 'B' {
        Some(Valued::Before)
    } else if flag == 'A' {
        Some(Valued::After)
    } else if flag == 'C' {
        Some(Valued::Context)
    } else if flag == 'j' {
        Some(Valued::Threads)
    } else if flag == 'm' {
        Some(Valued::MaxCount)
    } else {
        None
    }
}

/// `c` with a switch set.
pub open spec fn switched(c: Settings, switch: Switch) -> Settings {
    Settings { switches: c.switches.insert(switch), ..c }
}

/// `c` with an option set to a value; `flag` is what the user wrote.
pub open spec fn assigned(
    c: Settings,
    option: Valued,
    flag: Seq<char>,
    value: Seq<char>,
) -> Result<Settings, Seq<char>> {
    match option {
        Valued::Glob => Ok(Settings { include_globs: c.include_globs.push(value), ..c }),
        Valued::ExcludeGlob => Ok(Settings { exclude_globs: c.exclude_globs.push(value), ..c }),
        Valued::MaxDepth => match count(value, flag) {
            Ok(n) => Ok(Settings { max_depth: Some(n), ..c }),
            Err(message) => Err(message),
        },
        Valued::MinSize => match flag_size(value, flag) {
            Ok(n) => Ok(Settings { min_size: Some(n), ..c }),
            Err(message) => Err(message),
        },
        Valued::MaxSize => match flag_size(value, flag) {
            Ok(n) => Ok(Settings { max_size: Some(n), ..c }),
            Err(message) => Err(message),
        },
        Valued::Threads => match thread_count(value, flag) {
            Ok(n) => Ok(Settings { threads: n, ..c }),
            Err(message) => Err(message),
        },
        Valued::MaxCount => match match_limit(value, flag) {
            Ok(n) => Ok(Settings { max_count: Some(n), ..c }),
            Err(message) => Err(message),
        },
        Valued::Color => match color_choice(value) {
            Ok(color) => Ok(Settings { color, ..c }),
            Err(message) => Err(message),
        },
        Valued::Before => match count(value, flag) {
            Ok(n) => Ok(Settings { before_context: n, ..c }),
            Err(message) => Err(message),
        },
        Valued::After => match count(value, flag) {
            Ok(n) => Ok(Settings { after_context: n, ..c }),
            Err(message) => Err(message),
        },
        Valued::Context => match count(value, flag) {
            Ok(n) => Ok(Settings { before_context: n, after_context: n, ..c }),
            Err(message) => Err(message),
        },
    }
}

/// The position of the first `=`, or the end.
pub open spec fn equals_sign(s: Seq<char>, from: int) -> int
    decreases s.len() - from,
{
    if 0 <= from < s.len() && s[from] != '=' {
        equals_sign(s, from + 1)
    } else {
        from
    }
}

/// The message about a value that is missing.
pub open spec fn value_missing(flag: Seq<char>) -> Seq<char> {
    "option '"@ + flag + "' requires a value"@
}

/// The long option `--rest`, whose own token is `tokens[i]`: what it makes of
/// `c`, and the first token that it leaves.
pub open spec fn long_option(
    rest: Seq<char>,
    tokens: Seq<Seq<char>>,
    i: int,
    c: Settings,
) -> Result<(Settings, int), Seq<char>> {
    let cut = equals_sign(rest, 0);
    let name = rest.take(cut);
    let flag = "--"@ + name;
    let attached = cut < rest.len();
    match (long_switch(name), long_valued(name)) {
        (Some(switch), _) => if attached {
            Err("option '"@ + flag + "' does not take a value"@)
        } else {
            Ok((switched(c, switch), i + 1))
        },
        (None, Some(option)) => if attached {
            match assigned(c, option, flag, rest.skip(cut + 1)) {
                Ok(set) => Ok((set, i + 1)),
                Err(message) => Err(message),
            }
        } else if i + 1 < tokens.len() {
            match assigned(c, option, flag, tokens[i + 1]) {
                Ok(set) => Ok((set, i + 2)),
                Err(message) => Err(message),
            }
        } else {
            Err(value_missing(flag))
        },
        (None, None) => Err("unrecognized option '"@ + flag + "'"@),
    }
}

/// The short options of `token` from `at` on, where `next` is the token behind
/// it: what they make of `c`, and the first token that they leave. A value
/// flag takes the digits behind it or, where there are none, the next token;
/// in that case it ends the cluster.
pub open spec fn cluster(
    token: Seq<char>,
    at: int,
    tokens: Seq<Seq<char>>,
    next: int,
    c: Settings,
) -> Result<(Settings, int), Seq<char>>
    decreases token.len() - at,
{
    if at < 0 || at >= token.len() {
        Ok((c, next))
    } else {
        let flag = "-"@ + seq![token[at]];
        match (short_switch(token[at]), short_valued(token[at])) {
            (Some(switch), _) => cluster(token, at + 1, tokens, next, switched(c, switch)),
            (None, Some(option)) => {
                let end = text::digits_end(token, at + 1);
                if at + 1 < end <= token.len() {
                    match assigned(c, option, flag, token.subrange(at + 1, end)) {
                        Ok(set) => cluster(token, end, tokens, next, set),
                        Err(message) => Err(message),
                    }
                } else if next < tokens.len() {
                    match assigned(c, option, flag, tokens[next]) {
                        Ok(set) => Ok((set, next + 1)),
                        Err(message) => Err(message),
                    }
                } else {
                    Err(value_missing(flag))
                }
            },
            (None, None) => Err("unrecognized option '"@ + flag + "'"@),
        }
    }
}

/// What the short options of `token` from `at` on make of `c`, up to the first
/// one that is refused.
pub open spec fn cluster_settings(
    token: Seq<char>,
    at: int,
    tokens: Seq<Seq<char>>,
    next: int,
    c: Settings,
) -> Settings
    decreases token.len() - at,
{
    if at < 0 || at >= token.len() {
        c
    } else {
        let flag = "-"@ + seq![token[at]];
        match (short_switch(token[at]), short_valued(token[at])) {
            (Some(switch), _) => cluster_settings(
                token,
                at + 1,
                tokens,
                next,
                switched(c, switch),
            ),
            (None, Some(option)) => {
                let end = text::digits_end(token, at + 1);
                if at + 1 < end <= token.len() {
                    match assigned(c, option, flag, token.subrange(at + 1, end)) {
                        Ok(set) => cluster_settings(token, end, tokens, next, set),
                        Err(_) => c,
                    }
                } else if next < tokens.len() {
                    match assigned(c, option, flag, tokens[next]) {
                        Ok(set) => set,
                        Err(_) => c,
                    }
                } else {
                    c
                }
            },
            (None, None) => c,
        }
    }
}

// ---------------------------------------------------------------------------
// Command lines
// ---------------------------------------------------------------------------

/// `c` with a positional argument: the first is the pattern, the rest are
/// paths.
pub open spec fn positional(c: Settings, pattern_seen: bool, token: Seq<char>) -> Settings {
    if pattern_seen {
        Settings { paths: c.paths.push(token), ..c }
    } else {
        Settings { pattern: token, ..c }
    }
}

/// What contradicts itself in `c`, if anything.
pub open spec fn contradiction(c: Settings) -> Option<Seq<char>> {
    if c.threads == 0 {
        Some("-j/--threads must be at least 1"@)
    } else if c.threads > MAX_THREADS {
        Some("-j/--threads must be at most "@ + text::decimal(MAX_THREADS as nat))
    } else {
        match (c.min_size, c.max_size) {
            (Some(min), Some(max)) => if min > max {
                Some(size_conflict(min, max))
            } else {
                None
            },
            _ => None,
        }
    }
}

/// The message about a size window without sizes in it.
pub open spec fn size_conflict(min: nat, max: nat) -> Seq<char> {
    "--min-size ("@ + text::decimal(min) + ") exceeds --max-size ("@ + text::decimal(max) + ")"@
}

/// The message about a missing pattern.
pub open spec fn pattern_missing() -> Seq<char> {
    "missing PATTERN (try 'searchlight --help')"@
}

/// A command line of nothing but the usual source directory: a path whose
/// pattern was forgotten.
pub open spec fn sources_alone(tokens: Seq<Seq<char>>) -> bool {
    tokens.len() == 1 && tokens[0] == SOURCES@
}

/// What is asked for when all tokens are read.
pub open spec fn conclusion(c: Settings, pattern_seen: bool) -> Request {
    if !pattern_seen {
        Request::Refused(pattern_missing())
    } else {
        match contradiction(c) {
            Some(message) => Request::Refused(message),
            None => Request::Search(c),
        }
    }
}

/// What a token is, as long as options may come.
#[derive(Debug, Clone, Copy, PartialEq, Eq, Structural)]
pub enum Token {
    /// `--`, which ends the options.
    End,
    /// A request for help.
    Help,
    /// A request for the version.
    Version,
    /// A long option.
    Long,
    /// A cluster of short options.
    Short,
    /// A positional argument.
    Positional,
}

/// What a token is.
pub open spec fn token_kind(token: Seq<char>) -> Token {
    if token == "--"@ {
        Token::End
    } else if token == "-h"@ || token == "--help"@ {
        Token::Help
    } else if token == "-V"@ || token == "--version"@ {
        Token::Version
    } else if token.len() >= 2 && token[0] == '-' {
        if token[1] == '-' {
            Token::Long
        } else {
            Token::Short
        }
    } else {
        Token::Positional
    }
}

/// What the tokens from `i` on ask for, on top of `c`. Behind `--` all tokens
/// are positional.
pub open spec fn request(
    tokens: Seq<Seq<char>>,
    i: int,
    pattern_seen: bool,
    only_paths: bool,
    c: Settings,
) -> Request
    decreases tokens.len() - i,
{
    if i < 0 || i >= tokens.len() {
        conclusion(c, pattern_seen)
    } else {
        let token = tokens[i];
        let kind = if only_paths {
            Token::Positional
        } else {
            token_kind(token)
        };
        match kind {
            Token::End => request(tokens, i + 1, pattern_seen, true, c),
            Token::Help => Request::Help,
            Token::Version => Request::Version,
            Token::Positional => request(
                tokens,
                i + 1,
                true,
                only_paths,
                positional(c, pattern_seen, token),
            ),
            _ => match option(tokens, i, kind, c) {
                Ok((set, next)) => if i < next <= tokens.len() {
                    request(tokens, next, pattern_seen, only_paths, set)
                } else {
                    Request::Refused(Seq::empty())
                },
                Err(message) => Request::Refused(message),
            },
        }
    }
}

/// The option at `i`, long or short.
pub open spec fn option(tokens: Seq<Seq<char>>, i: int, kind: Token, c: Settings) -> Result<
    (Settings, int),
    Seq<char>,
> {
    if kind == Token::Long {
        long_option(tokens[i].skip(2), tokens, i, c)
    } else {
        cluster(tokens[i], 1, tokens, i + 1, c)
    }
}

/// What a command line asks for, where `threads` is the default number of
/// threads.
pub open spec fn command_line(tokens: Seq<Seq<char>>, threads: nat) -> Request {
    if sources_alone(tokens) {
        Request::Refused(pattern_missing())
    } else {
        request(tokens, 0, false, false, defaults(threads))
    }
}

} // verus!
