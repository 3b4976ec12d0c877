//! What the flags of the command line are for.

use vstd::prelude::*;

use crate::args::grammar;
use crate::args::grammar::{Request, Switch, Token, Valued};
use crate::args::{ColorChoice, Config, Settings, MAX_THREADS};
use crate::text;

verus! {

// ---------------------------------------------------------------------------
// Spellings
// ---------------------------------------------------------------------------

/// The names of the long flags differ.
proof fn lemma_names()
    ensures
        grammar::long_switch("ignore-case"@) == Some(Switch::IgnoreCase),
        grammar::long_switch("word-regexp"@) == Some(Switch::WordRegexp),
        grammar::long_switch("invert-match"@) == Some(Switch::InvertMatch),
        grammar::long_switch("line-number"@) == Some(Switch::LineNumbers),
        grammar::long_switch("count"@) == Some(Switch::CountOnly),
        grammar::long_switch("files-with-matches"@) == Some(Switch::FilesWithMatches),
        grammar::long_switch("json"@) == Some(Switch::Json),
        grammar::long_switch("quiet"@) == Some(Switch::Quiet),
        grammar::long_switch("stats"@) == Some(Switch::Stats),
        grammar::long_switch("no-messages"@) == Some(Switch::NoMessages),
        grammar::long_switch("no-ignore"@) == Some(Switch::NoIgnore),
        grammar::long_switch("hidden"@) == Some(Switch::Hidden),
        grammar::long_switch("follow"@) == Some(Switch::FollowSymlinks),
        grammar::long_switch("byte-offset"@) == Some(Switch::ByteOffset),
        grammar::long_switch("only-matching"@) == Some(Switch::OnlyMatching),
        grammar::long_switch("glob"@) is None,
        grammar::long_valued("glob"@) == Some(Valued::Glob),
        grammar::long_switch("exclude-glob"@) is None,
        grammar::long_valued("exclude-glob"@) == Some(Valued::ExcludeGlob),
        grammar::long_switch("max-depth"@) is None,
        grammar::long_valued("max-depth"@) == Some(Valued::MaxDepth),
        grammar::long_switch("min-size"@) is None,
        grammar::long_valued("min-size"@) == Some(Valued::MinSize),
        grammar::long_switch("max-size"@) is None,
        grammar::long_valued("max-size"@) == Some(Valued::MaxSize),
        grammar::long_switch("threads"@) is None,
        grammar::long_valued("threads"@) == Some(Valued::Threads),
        grammar::long_switch("max-count"@) is None,
        grammar::long_valued("max-count"@) == Some(Valued::MaxCount),
        grammar::long_switch("color"@) is None,
        grammar::long_valued("color"@) == Some(Valued::Color),
{
    reveal_strlit("ignore-case");
    reveal_strlit("word-regexp");
    reveal_strlit("invert-match");
    reveal_strlit("line-number");
    reveal_strlit("count");
    reveal_strlit("files-with-matches");
    reveal_strlit("json");
    reveal_strlit("quiet");
    reveal_strlit("stats");
    reveal_strlit("no-messages");
    reveal_strlit("no-ignore");
    reveal_strlit("hidden");
    reveal_strlit("follow");
    reveal_strlit("byte-offset");
    reveal_strlit("only-matching");
    reveal_strlit("glob");
    reveal_strlit("exclude-glob");
    reveal_strlit("max-depth");
    reveal_strlit("min-size");
    reveal_strlit("max-size");
    reveal_strlit("threads");
    reveal_strlit("max-count");
    reveal_strlit("color");
    assert("ignore-case"@.len() == 11 && "ignore-case"@[0] == 'i');
    assert("word-regexp"@.len() == 11 && "word-regexp"@[0] == 'w');
    assert("invert-match"@.len() == 12 && "invert-match"@[0] == 'i');
    assert("line-number"@.len() == 11 && "line-number"@[0] == 'l');
    assert("count"@.len() == 5 && "count"@[0] == 'c' && "count"@[2] == 'u');
    assert("files-with-matches"@.len() == 18 && "files-with-matches"@[0] == 'f');
    assert("json"@.len() == 4 && "json"@[0] == 'j');
    assert("quiet"@.len() == 5 && "quiet"@[0] == 'q');
    assert("stats"@.len() == 5 && "stats"@[0] == 's');
    assert("no-messages"@.len() == 11 && "no-messages"@[0] == 'n');
    assert("no-ignore"@.len() == 9 && "no-ignore"@[0] == 'n');
    assert("hidden"@.len() == 6 && "hidden"@[0] == 'h');
    assert("follow"@.len() == 6 && "follow"@[0] == 'f');
    assert("byte-offset"@.len() == 11 && "byte-offset"@[0] == 'b');
    assert("only-matching"@.len() == 13 && "only-matching"@[0] == 'o');
    assert("glob"@.len() == 4 && "glob"@[0] == 'g');
    assert("exclude-glob"@.len() == 12 && "exclude-glob"@[0] == 'e');
    assert("max-depth"@.len() == 9 && "max-depth"@[0] == 'm' && "max-depth"@[4] == 'd');
    assert("min-size"@.len() == 8 && "min-size"@[0] == 'm' && "min-size"@[1] == 'i');
    assert("max-size"@.len() == 8 && "max-size"@[0] == 'm' && "max-size"@[1] == 'a');
    assert("threads"@.len() == 7 && "threads"@[0] == 't');
    assert("max-count"@.len() == 9 && "max-count"@[0] == 'm' && "max-count"@[4] == 'c');
    assert("color"@.len() == 5 && "color"@[0] == 'c' && "color"@[2] == 'l');
}

/// A long flag is told by its two dashes.
proof fn lemma_long_token(token: Seq<char>, name: Seq<char>)
    requires
        token == seq!['-', '-'] + name,
        name.len() > 0,
        name != "help"@,
        name != "version"@,
        forall|k: int| 0 <= k < name.len() ==> #[trigger] name[k] != '=',
    ensures
        grammar::token_kind(token) == Token::Long,
        token.skip(2) == name,
        grammar::equals_sign(name, 0) == name.len(),
{
    reveal_strlit("--");
    reveal_strlit("-h");
    reveal_strlit("-V");
    reveal_strlit("--help");
    reveal_strlit("--version");
    reveal_strlit("help");
    reveal_strlit("version");
    assert(token.skip(2) =~= name);
    assert("--help"@.skip(2) =~= "help"@);
    assert("--version"@.skip(2) =~= "version"@);
    lemma_no_equals(name, 0);
}

proof fn lemma_no_equals(s: Seq<char>, from: int)
    requires
        0 <= from <= s.len(),
        forall|k: int| from <= k < s.len() ==> #[trigger] s[k] != '=',
    ensures
        grammar::equals_sign(s, from) == s.len(),
    decreases s.len() - from,
{
    if from < s.len() {
        lemma_no_equals(s, from + 1);
    }
}

/// A short flag alone is told by its one dash.
proof fn lemma_short_token(letter: char)
    requires
        letter != '-' && letter != 'h' && letter != 'V',
    ensures
        grammar::token_kind(seq!['-', letter]) == Token::Short,
{
    reveal_strlit("--");
    reveal_strlit("-h");
    reveal_strlit("-V");
    reveal_strlit("--help");
    reveal_strlit("--version");
    let token = seq!['-', letter];
    assert("--"@[1] == '-' && "-h"@[1] == 'h' && "-V"@[1] == 'V');
    assert("--help"@.len() == 6 && "--version"@.len() == 9);
    assert(token[1] == letter && token.len() == 2);
}

/// The spellings of a flag without a value: a long one, and for most a short
/// one.
pub open spec fn spells(token: Seq<char>, switch: Switch) -> bool {
    match switch {
        Switch::IgnoreCase => token == "-i"@ || token == "--ignore-case"@,
        Switch::WordRegexp => token == "-w"@ || token == "--word-regexp"@,
        Switch::InvertMatch => token == "-v"@ || token == "--invert-match"@,
        Switch::LineNumbers => token == "-n"@ || token == "--line-number"@,
        Switch::CountOnly => token == "-c"@ || token == "--count"@,
        Switch::FilesWithMatches => token == "-l"@ || token == "--files-with-matches"@,
        Switch::Json => token == "--json"@,
        Switch::Quiet => token == "-q"@ || token == "--quiet"@,
        Switch::Stats => token == "--stats"@,
        Switch::NoMessages => token == "-s"@ || token == "--no-messages"@,
        Switch::NoIgnore => token == "--no-ignore"@,
        Switch::Hidden => token == "--hidden"@,
        Switch::FollowSymlinks => token == "--follow"@,
        Switch::ByteOffset => token == "-b"@ || token == "--byte-offset"@,
        Switch::OnlyMatching => token == "-o"@ || token == "--only-matching"@,
    }
}

/// The spellings of a flag with a value.
pub open spec fn spells_valued(token: Seq<char>, option: Valued) -> bool {
    match option {
        Valued::Glob => token == "--glob"@,
        Valued::ExcludeGlob => token == "--exclude-glob"@,
        Valued::MaxDepth => token == "--max-depth"@,
        Valued::MinSize => token == "--min-size"@,
        Valued::MaxSize => token == "--max-size"@,
        Valued::Threads => token == "-j"@ || token == "--threads"@,
        Valued::MaxCount => token == "-m"@ || token == "--max-count"@,
        Valued::Color => token == "--color"@,
        Valued::Before => token == "-B"@,
        Valued::After => token == "-A"@,
        Valued::Context => token == "-C"@,
    }
}

/// The texts of the long flags.
proof fn lemma_long_texts()
    ensures
        "--ignore-case"@ == seq!['-', '-'] + "ignore-case"@,
        forall|k: int| 0 <= k < "ignore-case"@.len() ==> #[trigger] "ignore-case"@[k] != '=',
        "ignore-case"@.len() > 0 && "ignore-case"@ != "help"@ && "ignore-case"@ != "version"@,
        "--word-regexp"@ == seq!['-', '-'] + "word-regexp"@,
        forall|k: int| 0 <= k < "word-regexp"@.len() ==> #[trigger] "word-regexp"@[k] != '=',
        "word-regexp"@.len() > 0 && "word-regexp"@ != "help"@ && "word-regexp"@ != "version"@,
        "--invert-match"@ == seq!['-', '-'] + "invert-match"@,
        forall|k: int| 0 <= k < "invert-match"@.len() ==> #[trigger] "invert-match"@[k] != '=',
        "invert-match"@.len() > 0 && "invert-match"@ != "help"@ && "invert-match"@ != "version"@,
        "--line-number"@ == seq!['-', '-'] + "line-number"@,
        forall|k: int| 0 <= k < "line-number"@.len() ==> #[trigger] "line-number"@[k] != '=',
        "line-number"@.len() > 0 && "line-number"@ != "help"@ && "line-number"@ != "version"@,
        "--count"@ == seq!['-', '-'] + "count"@,
        forall|k: int| 0 <= k < "count"@.len() ==> #[trigger] "count"@[k] != '=',
        "count"@.len() > 0 && "count"@ != "help"@ && "count"@ != "version"@,
        "--files-with-matches"@ == seq!['-', '-'] + "files-with-matches"@,
        forall|k: int|
            0 <= k < "files-with-matches"@.len() ==> #[trigger] "files-with-matches"@[k] != '=',
        "files-with-matches"@.len() > 0 && "files-with-matches"@ != "help"@,
        "files-with-matches"@ != "version"@,
        "--json"@ == seq!['-', '-'] + "json"@,
        forall|k: int| 0 <= k < "json"@.len() ==> #[trigger] "json"@[k] != '=',
        "json"@.len() > 0 && "json"@ != "help"@ && "json"@ != "version"@,
        "--quiet"@ == seq!['-', '-'] + "quiet"@,
        forall|k: int| 0 <= k < "quiet"@.len() ==> #[trigger] "quiet"@[k] != '=',
        "quiet"@.len() > 0 && "quiet"@ != "help"@ && "quiet"@ != "version"@,
        "--stats"@ == seq!['-', '-'] + "stats"@,
        forall|k: int| 0 <= k < "stats"@.len() ==> #[trigger] "stats"@[k] != '=',
        "stats"@.len() > 0 && "stats"@ != "help"@ && "stats"@ != "version"@,
        "--no-messages"@ == seq!['-', '-'] + "no-messages"@,
        forall|k: int| 0 <= k < "no-messages"@.len() ==> #[trigger] "no-messages"@[k] != '=',
        "no-messages"@.len() > 0 && "no-messages"@ != "help"@ && "no-messages"@ != "version"@,
        "--no-ignore"@ == seq!['-', '-'] + "no-ignore"@,
        forall|k: int| 0 <= k < "no-ignore"@.len() ==> #[trigger] "no-ignore"@[k] != '=',
        "no-ignore"@.len() > 0 && "no-ignore"@ != "help"@ && "no-ignore"@ != "version"@,
        "--hidden"@ == seq!['-', '-'] + "hidden"@,
        forall|k: int| 0 <= k < "hidden"@.len() ==> #[trigger] "hidden"@[k] != '=',
        "hidden"@.len() > 0 && "hidden"@ != "help"@ && "hidden"@ != "version"@,
        "--follow"@ == seq!['-', '-'] + "follow"@,
        forall|k: int| 0 <= k < "follow"@.len() ==> #[trigger] "follow"@[k] != '=',
        "follow"@.len() > 0 && "follow"@ != "help"@ && "follow"@ != "version"@,
        "--byte-offset"@ == seq!['-', '-'] + "byte-offset"@,
        forall|k: int| 0 <= k < "byte-offset"@.len() ==> #[trigger] "byte-offset"@[k] != '=',
        "byte-offset"@.len() > 0 && "byte-offset"@ != "help"@ && "byte-offset"@ != "version"@,
        "--only-matching"@ == seq!['-', '-'] + "only-matching"@,
        forall|k: int| 0 <= k < "only-matching"@.len() ==> #[trigger] "only-matching"@[k] != '=',
        "only-matching"@.len() > 0 && "only-matching"@ != "help"@ && "only-matching"@ != "version"@,
        "--glob"@ == seq!['-', '-'] + "glob"@,
        forall|k: int| 0 <= k < "glob"@.len() ==> #[trigger] "glob"@[k] != '=',
        "glob"@.len() > 0 && "glob"@ != "help"@ && "glob"@ != "version"@,
        "--exclude-glob"@ == seq!['-', '-'] + "exclude-glob"@,
        forall|k: int| 0 <= k < "exclude-glob"@.len() ==> #[trigger] "exclude-glob"@[k] != '=',
        "exclude-glob"@.len() > 0 && "exclude-glob"@ != "help"@ && "exclude-glob"@ != "version"@,
        "--max-depth"@ == seq!['-', '-'] + "max-depth"@,
        forall|k: int| 0 <= k < "max-depth"@.len() ==> #[trigger] "max-depth"@[k] != '=',
        "max-depth"@.len() > 0 && "max-depth"@ != "help"@ && "max-depth"@ != "version"@,
        "--min-size"@ == seq!['-', '-'] + "min-size"@,
        forall|k: int| 0 <= k < "min-size"@.len() ==> #[trigger] "min-size"@[k] != '=',
        "min-size"@.len() > 0 && "min-size"@ != "help"@ && "min-size"@ != "version"@,
        "--max-size"@ == seq!['-', '-'] + "max-size"@,
        forall|k: int| 0 <= k < "max-size"@.len() ==> #[trigger] "max-size"@[k] != '=',
        "max-size"@.len() > 0 && "max-size"@ != "help"@ && "max-size"@ != "version"@,
        "--threads"@ == seq!['-', '-'] + "threads"@,
        forall|k: int| 0 <= k < "threads"@.len() ==> #[trigger] "threads"@[k] != '=',
        "threads"@.len() > 0 && "threads"@ != "help"@ && "threads"@ != "version"@,
        "--max-count"@ == seq!['-', '-'] + "max-count"@,
        forall|k: int| 0 <= k < "max-count"@.len() ==> #[trigger] "max-count"@[k] != '=',
        "max-count"@.len() > 0 && "max-count"@ != "help"@ && "max-count"@ != "version"@,
        "--color"@ == seq!['-', '-'] + "color"@,
        forall|k: int| 0 <= k < "color"@.len() ==> #[trigger] "color"@[k] != '=',
        "color"@.len() > 0 && "color"@ != "help"@ && "color"@ != "version"@,
{
    reveal_strlit("help");
    reveal_strlit("version");
    assert("help"@.len() == 4 && "help"@[0] == 'h');
    assert("version"@.len() == 7 && "version"@[0] == 'v');
    reveal_strlit("ignore-case");
    reveal_strlit("--ignore-case");
    assert("ignore-case"@[0] == 'i');
    assert("--ignore-case"@ =~= seq!['-', '-'] + "ignore-case"@);
    reveal_strlit("word-regexp");
    reveal_strlit("--word-regexp");
    assert("word-regexp"@[0] == 'w');
    assert("--word-regexp"@ =~= seq!['-', '-'] + "word-regexp"@);
    reveal_strlit("invert-match");
    reveal_strlit("--invert-match");
    assert("invert-match"@[0] == 'i');
    assert("--invert-match"@ =~= seq!['-', '-'] + "invert-match"@);
    reveal_strlit("line-number");
    reveal_strlit("--line-number");
    assert("line-number"@[0] == 'l');
    assert("--line-number"@ =~= seq!['-', '-'] + "line-number"@);
    reveal_strlit("count");
    reveal_strlit("--count");
    assert("count"@[0] == 'c');
    assert("--count"@ =~= seq!['-', '-'] + "count"@);
    reveal_strlit("files-with-matches");
    reveal_strlit("--files-with-matches");
    assert("files-with-matches"@[0] == 'f');
    assert("--files-with-matches"@ =~= seq!['-', '-'] + "files-with-matches"@);
    reveal_strlit("json");
    reveal_strlit("--json");
    assert("json"@[0] == 'j');
    assert("--json"@ =~= seq!['-', '-'] + "json"@);
    reveal_strlit("quiet");
    reveal_strlit("--quiet");
    assert("quiet"@[0] == 'q');
    assert("--quiet"@ =~= seq!['-', '-'] + "quiet"@);
    reveal_strlit("stats");
    reveal_strlit("--stats");
    assert("stats"@[0] == 's');
    assert("--stats"@ =~= seq!['-', '-'] + "stats"@);
    reveal_strlit("no-messages");
    reveal_strlit("--no-messages");
    assert("no-messages"@[0] == 'n');
    assert("--no-messages"@ =~= seq!['-', '-'] + "no-messages"@);
    reveal_strlit("no-ignore");
    reveal_strlit("--no-ignore");
    assert("no-ignore"@[0] == 'n');
    assert("--no-ignore"@ =~= seq!['-', '-'] + "no-ignore"@);
    reveal_strlit("hidden");
    reveal_strlit("--hidden");
    assert("hidden"@[0] == 'h');
    assert("--hidden"@ =~= seq!['-', '-'] + "hidden"@);
    reveal_strlit("follow");
    reveal_strlit("--follow");
    assert("follow"@[0] == 'f');
    assert("--follow"@ =~= seq!['-', '-'] + "follow"@);
    reveal_strlit("byte-offset");
    reveal_strlit("--byte-offset");
    assert("byte-offset"@[0] == 'b');
    assert("--byte-offset"@ =~= seq!['-', '-'] + "byte-offset"@);
    reveal_strlit("only-matching");
    reveal_strlit("--only-matching");
    assert("only-matching"@[0] == 'o');
    assert("--only-matching"@ =~= seq!['-', '-'] + "only-matching"@);
    reveal_strlit("glob");
    reveal_strlit("--glob");
    assert("glob"@[0] == 'g');
    assert("--glob"@ =~= seq!['-', '-'] + "glob"@);
    reveal_strlit("exclude-glob");
    reveal_strlit("--exclude-glob");
    assert("exclude-glob"@[0] == 'e');
    assert("--exclude-glob"@ =~= seq!['-', '-'] + "exclude-glob"@);
    reveal_strlit("max-depth");
    reveal_strlit("--max-depth");
    assert("max-depth"@[0] == 'm');
    assert("--max-depth"@ =~= seq!['-', '-'] + "max-depth"@);
    reveal_strlit("min-size");
    reveal_strlit("--min-size");
    assert("min-size"@[0] == 'm');
    assert("--min-size"@ =~= seq!['-', '-'] + "min-size"@);
    reveal_strlit("max-size");
    reveal_strlit("--max-size");
    assert("max-size"@[0] == 'm');
    assert("--max-size"@ =~= seq!['-', '-'] + "max-size"@);
    reveal_strlit("threads");
    reveal_strlit("--threads");
    assert("threads"@[0] == 't');
    assert("--threads"@ =~= seq!['-', '-'] + "threads"@);
    reveal_strlit("max-count");
    reveal_strlit("--max-count");
    assert("max-count"@[0] == 'm');
    assert("--max-count"@ =~= seq!['-', '-'] + "max-count"@);
    reveal_strlit("color");
    reveal_strlit("--color");
    assert("color"@[0] == 'c');
    assert("--color"@ =~= seq!['-', '-'] + "color"@);
}

/// The texts of the short flags.
proof fn lemma_short_texts()
    ensures
        "-i"@ == seq!['-', 'i'],
        "-w"@ == seq!['-', 'w'],
        "-v"@ == seq!['-', 'v'],
        "-n"@ == seq!['-', 'n'],
        "-c"@ == seq!['-', 'c'],
        "-l"@ == seq!['-', 'l'],
        "-q"@ == seq!['-', 'q'],
        "-s"@ == seq!['-', 's'],
        "-b"@ == seq!['-', 'b'],
        "-o"@ == seq!['-', 'o'],
        "-B"@ == seq!['-', 'B'],
        "-A"@ == seq!['-', 'A'],
        "-C"@ == seq!['-', 'C'],
        "-j"@ == seq!['-', 'j'],
        "-m"@ == seq!['-', 'm'],
{
    reveal_strlit("-i");
    assert("-i"@ =~= seq!['-', 'i']);
    reveal_strlit("-w");
    assert("-w"@ =~= seq!['-', 'w']);
    reveal_strlit("-v");
    assert("-v"@ =~= seq!['-', 'v']);
    reveal_strlit("-n");
    assert("-n"@ =~= seq!['-', 'n']);
    reveal_strlit("-c");
    assert("-c"@ =~= seq!['-', 'c']);
    reveal_strlit("-l");
    assert("-l"@ =~= seq!['-', 'l']);
    reveal_strlit("-q");
    assert("-q"@ =~= seq!['-', 'q']);
    reveal_strlit("-s");
    assert("-s"@ =~= seq!['-', 's']);
    reveal_strlit("-b");
    assert("-b"@ =~= seq!['-', 'b']);
    reveal_strlit("-o");
    assert("-o"@ =~= seq!['-', 'o']);
    reveal_strlit("-B");
    assert("-B"@ =~= seq!['-', 'B']);
    reveal_strlit("-A");
    assert("-A"@ =~= seq!['-', 'A']);
    reveal_strlit("-C");
    assert("-C"@ =~= seq!['-', 'C']);
    reveal_strlit("-j");
    assert("-j"@ =~= seq!['-', 'j']);
    reveal_strlit("-m");
    assert("-m"@ =~= seq!['-', 'm']);
}

// ---------------------------------------------------------------------------
// Switches
// ---------------------------------------------------------------------------

/// What a flag without a value does, wherever it stands among the options: the
/// command line goes on behind it with that one switch set. The long and the
/// short spelling do the same.
pub proof fn law_long_and_short_switches_are_synonyms(
    switch: Switch,
    tokens: Seq<Seq<char>>,
    i: int,
    pattern_seen: bool,
    c: Settings,
)
    requires
        0 <= i < tokens.len(),
        spells(tokens[i], switch),
    ensures
        grammar::request(tokens, i, pattern_seen, false, c) == grammar::request(
            tokens,
            i + 1,
            pattern_seen,
            false,
            (Settings { switches: c.switches.insert(switch), ..c }),
        ),
{
    lemma_short_texts();
    let token = tokens[i];
    if token.len() == 2 {
        lemma_short_switch(switch, token, tokens, i + 1, c);
    } else {
        lemma_long_switch(switch, token, tokens, i, c);
    }
}

proof fn lemma_short_switch(
    switch: Switch,
    token: Seq<char>,
    tokens: Seq<Seq<char>>,
    next: int,
    c: Settings,
)
    requires
        spells(token, switch),
        token.len() == 2,
    ensures
        grammar::token_kind(token) == Token::Short,
        grammar::cluster(token, 1, tokens, next, c) == Ok::<(Settings, int), Seq<char>>(
            (grammar::switched(c, switch), next),
        ),
{
    lemma_short_texts();
    lemma_long_lengths();
    lemma_short_token(token[1]);
    assert(token =~= seq!['-', token[1]]);
    let set = grammar::switched(c, switch);
    assert(grammar::short_switch(token[1]) == Some(switch));
    assert(grammar::cluster(token, 2, tokens, next, set) == Ok::<(Settings, int), Seq<char>>(
        (set, next),
    ));
}

/// The long flags are longer than the short ones.
proof fn lemma_long_lengths()
    ensures
        "--ignore-case"@.len() > 2,
        "--word-regexp"@.len() > 2,
        "--invert-match"@.len() > 2,
        "--line-number"@.len() > 2,
        "--count"@.len() > 2,
        "--files-with-matches"@.len() > 2,
        "--json"@.len() > 2,
        "--quiet"@.len() > 2,
        "--stats"@.len() > 2,
        "--no-messages"@.len() > 2,
        "--no-ignore"@.len() > 2,
        "--hidden"@.len() > 2,
        "--follow"@.len() > 2,
        "--byte-offset"@.len() > 2,
        "--only-matching"@.len() > 2,
        "--glob"@.len() > 2,
        "--exclude-glob"@.len() > 2,
        "--max-depth"@.len() > 2,
        "--min-size"@.len() > 2,
        "--max-size"@.len() > 2,
        "--threads"@.len() > 2,
        "--max-count"@.len() > 2,
        "--color"@.len() > 2,
{
    reveal_strlit("--ignore-case");
    reveal_strlit("--word-regexp");
    reveal_strlit("--invert-match");
    reveal_strlit("--line-number");
    reveal_strlit("--count");
    reveal_strlit("--files-with-matches");
    reveal_strlit("--json");
    reveal_strlit("--quiet");
    reveal_strlit("--stats");
    reveal_strlit("--no-messages");
    reveal_strlit("--no-ignore");
    reveal_strlit("--hidden");
    reveal_strlit("--follow");
    reveal_strlit("--byte-offset");
    reveal_strlit("--only-matching");
    reveal_strlit("--glob");
    reveal_strlit("--exclude-glob");
    reveal_strlit("--max-depth");
    reveal_strlit("--min-size");
    reveal_strlit("--max-size");
    reveal_strlit("--threads");
    reveal_strlit("--max-count");
    reveal_strlit("--color");
}

proof fn lemma_long_switch(
    switch: Switch,
    token: Seq<char>,
    tokens: Seq<Seq<char>>,
    i: int,
    c: Settings,
)
    requires
        0 <= i < tokens.len(),
        tokens[i] == token,
        spells(token, switch),
        token.len() != 2,
    ensures
        grammar::token_kind(token) == Token::Long,
        grammar::long_option(token.skip(2), tokens, i, c) == Ok::<(Settings, int), Seq<char>>(
            (grammar::switched(c, switch), i + 1),
        ),
{
    lemma_short_texts();
    lemma_names();
    lemma_long_texts();
    let name = match switch {
        Switch::IgnoreCase => "ignore-case"@,
        Switch::WordRegexp => "word-regexp"@,
        Switch::InvertMatch => "invert-match"@,
        Switch::LineNumbers => "line-number"@,
        Switch::CountOnly => "count"@,
        Switch::FilesWithMatches => "files-with-matches"@,
        Switch::Json => "json"@,
        Switch::Quiet => "quiet"@,
        Switch::Stats => "stats"@,
        Switch::NoMessages => "no-messages"@,
        Switch::NoIgnore => "no-ignore"@,
        Switch::Hidden => "hidden"@,
        Switch::FollowSymlinks => "follow"@,
        Switch::ByteOffset => "byte-offset"@,
        Switch::OnlyMatching => "only-matching"@,
    };
    assert(token == seq!['-', '-'] + name);
    lemma_long_token(token, name);
    assert(name.take(name.len() as int) =~= name);
}

/// Each flag sets the field of the configuration that it is for, and leaves
/// every other field at its default: `config` is what a flag and a pattern give.
#[verifier::spinoff_prover]
#[verifier::rlimit(60)]
pub proof fn law_switches_set_their_field(
    token: Seq<char>,
    pattern: Seq<char>,
    threads: nat,
    switch: Switch,
    config: Config,
)
    requires
        spells(token, switch),
        pattern.len() == 0 || pattern[0] != '-',
        1 <= threads <= MAX_THREADS,
        grammar::command_line(seq![token, pattern], threads) == Request::Search(config@),
    ensures
        config.ignore_case == (token == "-i"@ || token == "--ignore-case"@),
        config.word_regexp == (token == "-w"@ || token == "--word-regexp"@),
        config.invert_match == (token == "-v"@ || token == "--invert-match"@),
        config.line_numbers == (token == "-n"@ || token == "--line-number"@),
        config.count_only == (token == "-c"@ || token == "--count"@),
        config.files_with_matches == (token == "-l"@ || token == "--files-with-matches"@),
        config.json == (token == "--json"@),
        config.quiet == (token == "-q"@ || token == "--quiet"@),
        config.stats == (token == "--stats"@),
        config.no_messages == (token == "-s"@ || token == "--no-messages"@),
        config.no_ignore == (token == "--no-ignore"@),
        config.hidden == (token == "--hidden"@),
        config.follow_symlinks == (token == "--follow"@),
        config.byte_offset == (token == "-b"@ || token == "--byte-offset"@),
        config.only_matching == (token == "-o"@ || token == "--only-matching"@),
        config.pattern@ == pattern,
        config.paths@.len() == 0,
        config.before_context == 0 && config.after_context == 0,
        config.include_globs@.len() == 0 && config.exclude_globs@.len() == 0,
        config.max_depth is None && config.max_count is None,
        config.min_size is None && config.max_size is None,
        config.threads == threads,
        config.color == ColorChoice::Auto,
{
    lemma_flag_and_pattern(token, pattern, threads, switch, config);
    assert(config.is_on(Switch::IgnoreCase) == spells(token, Switch::IgnoreCase));
    assert(config.is_on(Switch::WordRegexp) == spells(token, Switch::WordRegexp));
    assert(config.is_on(Switch::InvertMatch) == spells(token, Switch::InvertMatch));
    assert(config.is_on(Switch::LineNumbers) == spells(token, Switch::LineNumbers));
    assert(config.is_on(Switch::CountOnly) == spells(token, Switch::CountOnly));
    assert(config.is_on(Switch::FilesWithMatches) == spells(token, Switch::FilesWithMatches));
    assert(config.is_on(Switch::Json) == spells(token, Switch::Json));
    assert(config.is_on(Switch::Quiet) == spells(token, Switch::Quiet));
    assert(config.is_on(Switch::Stats) == spells(token, Switch::Stats));
    assert(config.is_on(Switch::NoMessages) == spells(token, Switch::NoMessages));
    assert(config.is_on(Switch::NoIgnore) == spells(token, Switch::NoIgnore));
    assert(config.is_on(Switch::Hidden) == spells(token, Switch::Hidden));
    assert(config.is_on(Switch::FollowSymlinks) == spells(token, Switch::FollowSymlinks));
    assert(config.is_on(Switch::ByteOffset) == spells(token, Switch::ByteOffset));
    assert(config.is_on(Switch::OnlyMatching) == spells(token, Switch::OnlyMatching));
}

proof fn lemma_flag_and_pattern(
    token: Seq<char>,
    pattern: Seq<char>,
    threads: nat,
    switch: Switch,
    config: Config,
)
    requires
        spells(token, switch),
        pattern.len() == 0 || pattern[0] != '-',
        1 <= threads <= MAX_THREADS,
        grammar::command_line(seq![token, pattern], threads) == Request::Search(config@),
    ensures
        forall|other: Switch| #[trigger] config.is_on(other) == spells(token, other),
        config.pattern@ == pattern,
        config.paths@.len() == 0,
        config.before_context == 0 && config.after_context == 0,
        config.include_globs@.len() == 0 && config.exclude_globs@.len() == 0,
        config.max_depth is None && config.max_count is None,
        config.min_size is None && config.max_size is None,
        config.threads == threads,
        config.color == ColorChoice::Auto,
{
    let tokens = seq![token, pattern];
    let c = grammar::defaults(threads);
    law_long_and_short_switches_are_synonyms(switch, tokens, 0, false, c);
    let set = Settings { switches: c.switches.insert(switch), ..c };
    lemma_last_positional(tokens, 1, set);
    assert(config@ == (Settings { pattern, ..set }));
    assert(config.paths@.len() == config@.paths.len());
    assert(config.include_globs@.len() == config@.include_globs.len());
    assert(config.exclude_globs@.len() == config@.exclude_globs.len());
    lemma_spellings_differ(token, switch);
    assert forall|other: Switch| #[trigger] config.is_on(other) == spells(token, other) by {
        assert(config@.switches.contains(other) == config.is_on(other));
        assert(config@.switches.contains(other) == (other == switch));
    }
}

/// A flag and a pattern are accepted.
pub proof fn law_switches_are_accepted(
    token: Seq<char>,
    pattern: Seq<char>,
    threads: nat,
    switch: Switch,
)
    requires
        spells(token, switch),
        pattern.len() == 0 || pattern[0] != '-',
        1 <= threads <= MAX_THREADS,
    ensures
        grammar::command_line(seq![token, pattern], threads) is Search,
{
    let tokens = seq![token, pattern];
    let c = grammar::defaults(threads);
    law_long_and_short_switches_are_synonyms(switch, tokens, 0, false, c);
    let set = Settings { switches: c.switches.insert(switch), ..c };
    lemma_last_positional(tokens, 1, set);
}

/// A pattern at the end of the command line.
proof fn lemma_last_positional(tokens: Seq<Seq<char>>, i: int, c: Settings)
    requires
        0 <= i,
        tokens.len() == i + 1,
        tokens[i].len() == 0 || tokens[i][0] != '-',
        1 <= c.threads <= MAX_THREADS,
        c.min_size is None && c.max_size is None,
    ensures
        grammar::request(tokens, i, false, false, c) == Request::Search(
            (Settings { pattern: tokens[i], ..c }),
        ),
{
    reveal_strlit("--");
    reveal_strlit("-h");
    reveal_strlit("-V");
    reveal_strlit("--help");
    reveal_strlit("--version");
    assert("--"@[0] == '-' && "-h"@[0] == '-' && "-V"@[0] == '-');
    assert("--help"@[0] == '-' && "--version"@[0] == '-');
    assert(grammar::token_kind(tokens[i]) == Token::Positional);
    let set = grammar::positional(c, false, tokens[i]);
    assert(grammar::request(tokens, i + 1, true, false, set) == grammar::conclusion(set, true));
}

/// No spelling belongs to two flags.
proof fn lemma_spellings_differ(token: Seq<char>, switch: Switch)
    requires
        spells(token, switch),
    ensures
        forall|other: Switch| #[trigger] spells(token, other) ==> other == switch,
{
    assert forall|other: Switch| #[trigger] spells(token, other) implies other == switch by {
        lemma_short_texts();
        lemma_long_lengths();
        lemma_names();
        lemma_long_texts();
        if token.len() == 2 {
            lemma_short_switch(switch, token, seq![token], 1, grammar::defaults(1));
            lemma_short_switch(other, token, seq![token], 1, grammar::defaults(1));
            assert(grammar::short_switch(token[1]) == Some(switch));
        } else {
            lemma_switch_name(switch, token);
            lemma_switch_name(other, token);
        }
    }
}

proof fn lemma_switch_name(switch: Switch, token: Seq<char>)
    requires
        spells(token, switch),
        token.len() != 2,
    ensures
        grammar::long_switch(token.skip(2)) == Some(switch),
{
    lemma_short_texts();
    lemma_names();
    lemma_long_texts();
    let name = match switch {
        Switch::IgnoreCase => "ignore-case"@,
        Switch::WordRegexp => "word-regexp"@,
        Switch::InvertMatch => "invert-match"@,
        Switch::LineNumbers => "line-number"@,
        Switch::CountOnly => "count"@,
        Switch::FilesWithMatches => "files-with-matches"@,
        Switch::Json => "json"@,
        Switch::Quiet => "quiet"@,
        Switch::Stats => "stats"@,
        Switch::NoMessages => "no-messages"@,
        Switch::NoIgnore => "no-ignore"@,
        Switch::Hidden => "hidden"@,
        Switch::FollowSymlinks => "follow"@,
        Switch::ByteOffset => "byte-offset"@,
        Switch::OnlyMatching => "only-matching"@,
    };
    assert(token == seq!['-', '-'] + name);
    lemma_long_token(token, name);
}

// ---------------------------------------------------------------------------
// Clusters
// ---------------------------------------------------------------------------

/// A letter behind one dash.
pub open spec fn short_form(letter: char) -> Seq<char> {
    seq!['-', letter]
}

/// A name behind two dashes.
pub open spec fn long_form(name: Seq<char>) -> Seq<char> {
    seq!['-', '-'] + name
}

/// A letter that stands for a switch.
pub open spec fn switch_letter(letter: char) -> bool {
    exists|switch: Switch| spells(short_form(letter), switch)
}

/// The switches that some letters stand for.
pub open spec fn switches_of(letters: Seq<char>) -> Set<Switch> {
    Set::new(
        |switch: Switch|
            exists|k: int|
                0 <= k < letters.len() && spells(#[trigger] short_form(letters[k]), switch),
    )
}

proof fn lemma_switch_letter(letter: char)
    requires
        switch_letter(letter),
    ensures
        grammar::short_switch(letter) is Some,
        spells(short_form(letter), grammar::short_switch(letter)->0),
        forall|switch: Switch| #[trigger] spells(short_form(letter), switch) ==> Some(switch)
            == grammar::short_switch(letter),
        letter != '-' && letter != 'h' && letter != 'V',
        !text::is_digit(letter),
{
    let token = short_form(letter);
    let switch = choose|switch: Switch| spells(token, switch);
    lemma_short_texts();
    lemma_long_lengths();
    assert(token[1] == letter);
    lemma_short_switch(switch, token, seq![token], 1, grammar::defaults(1));
    assert(grammar::short_switch(letter) == Some(switch));
    lemma_spellings_differ(token, switch);
}

proof fn lemma_switch_cluster(
    token: Seq<char>,
    at: int,
    tokens: Seq<Seq<char>>,
    next: int,
    c: Settings,
)
    requires
        1 <= at <= token.len(),
        forall|k: int| at <= k < token.len() ==> switch_letter(#[trigger] token[k]),
    ensures
        grammar::cluster(token, at, tokens, next, c) == Ok::<(Settings, int), Seq<char>>(
            (
                Settings {
                    switches: c.switches.union(switches_of(token.skip(at))),
                    ..c
                },
                next,
            ),
        ),
    decreases token.len() - at,
{
    let rest = token.skip(at);
    if at < token.len() {
        let letter = token[at];
        lemma_switch_letter(letter);
        let switch = grammar::short_switch(letter)->0;
        let set = grammar::switched(c, switch);
        lemma_switch_cluster(token, at + 1, tokens, next, set);
        let less = token.skip(at + 1);
        assert(rest[0] == letter);
        assert forall|other: Switch| #[trigger]
            switches_of(rest).contains(other) == (other == switch || switches_of(less).contains(
                other,
            )) by {
            if switches_of(less).contains(other) {
                let k = choose|k: int|
                    0 <= k < less.len() && spells(#[trigger] short_form(less[k]), other);
                assert(rest[k + 1] == less[k]);
                assert(spells(short_form(rest[k + 1]), other));
            }
            if other == switch {
                assert(spells(short_form(rest[0]), other));
            }
            if switches_of(rest).contains(other) {
                let k = choose|k: int|
                    0 <= k < rest.len() && spells(#[trigger] short_form(rest[k]), other);
                if k > 0 {
                    assert(less[k - 1] == rest[k]);
                    assert(spells(short_form(less[k - 1]), other));
                }
            }
        }
        assert(set.switches.union(switches_of(less)) =~= c.switches.union(switches_of(rest)));
    } else {
        assert(switches_of(rest) =~= Set::<Switch>::empty());
        assert(c.switches.union(switches_of(rest)) =~= c.switches);
    }
}

/// Letters behind one dash set the switches of all of them.
pub proof fn law_clusters_set_every_switch(
    letters: Seq<char>,
    tokens: Seq<Seq<char>>,
    i: int,
    pattern_seen: bool,
    c: Settings,
)
    requires
        0 <= i < tokens.len(),
        tokens[i] == seq!['-'] + letters,
        letters.len() > 0,
        forall|k: int| 0 <= k < letters.len() ==> switch_letter(#[trigger] letters[k]),
    ensures
        grammar::request(tokens, i, pattern_seen, false, c) == grammar::request(
            tokens,
            i + 1,
            pattern_seen,
            false,
            (Settings { switches: c.switches.union(switches_of(letters)), ..c }),
        ),
{
    let token = tokens[i];
    assert forall|k: int| 1 <= k < token.len() implies switch_letter(#[trigger] token[k]) by {
        assert(token[k] == letters[k - 1]);
    }
    assert(token.skip(1) =~= letters);
    lemma_switch_cluster(token, 1, tokens, i + 1, c);
    lemma_switch_letter(letters[0]);
    lemma_short_kind(token);
}

/// A dash and a letter that asks for no help start a cluster.
proof fn lemma_short_kind(token: Seq<char>)
    requires
        token.len() >= 2,
        token[0] == '-',
        token[1] != '-' && token[1] != 'h' && token[1] != 'V',
    ensures
        grammar::token_kind(token) == Token::Short,
{
    reveal_strlit("--");
    reveal_strlit("-h");
    reveal_strlit("-V");
    reveal_strlit("--help");
    reveal_strlit("--version");
    assert("--"@[1] == '-' && "-h"@[1] == 'h' && "-V"@[1] == 'V');
    assert("--help"@[1] == '-' && "--version"@[1] == '-');
}

// ---------------------------------------------------------------------------
// Values
// ---------------------------------------------------------------------------

proof fn lemma_short_valued(option: Valued, token: Seq<char>)
    requires
        spells_valued(token, option),
        token.len() == 2,
    ensures
        token[0] == '-',
        grammar::short_switch(token[1]) is None,
        grammar::short_valued(token[1]) == Some(option),
        grammar::token_kind(token) == Token::Short,
        "-"@ + seq![token[1]] == token,
{
    lemma_short_texts();
    lemma_long_lengths();
    lemma_short_kind(token);
    reveal_strlit("-");
    assert("-"@ + seq![token[1]] =~= token);
}

proof fn lemma_long_valued(option: Valued, token: Seq<char>)
    requires
        spells_valued(token, option),
        token.len() != 2,
    ensures
        grammar::long_switch(token.skip(2)) is None,
        grammar::long_valued(token.skip(2)) == Some(option),
        grammar::token_kind(token) == Token::Long,
        grammar::equals_sign(token.skip(2), 0) == token.skip(2).len(),
        "--"@ + token.skip(2) == token,
{
    lemma_short_texts();
    lemma_names();
    lemma_long_texts();
    let name = match option {
        Valued::Glob => "glob"@,
        Valued::ExcludeGlob => "exclude-glob"@,
        Valued::MaxDepth => "max-depth"@,
        Valued::MinSize => "min-size"@,
        Valued::MaxSize => "max-size"@,
        Valued::Threads => "threads"@,
        Valued::MaxCount => "max-count"@,
        _ => "color"@,
    };
    assert(token == long_form(name));
    lemma_long_token(token, name);
    reveal_strlit("--");
    assert("--"@ + token.skip(2) =~= token);
}

/// A flag with a value hands on the token behind it.
proof fn lemma_valued(
    option: Valued,
    tokens: Seq<Seq<char>>,
    i: int,
    pattern_seen: bool,
    c: Settings,
)
    requires
        0 <= i < tokens.len(),
        spells_valued(tokens[i], option),
    ensures
        grammar::request(tokens, i, pattern_seen, false, c) == (if i + 1 < tokens.len() {
            match grammar::assigned(c, option, tokens[i], tokens[i + 1]) {
                Ok(set) => grammar::request(tokens, i + 2, pattern_seen, false, set),
                Err(message) => Request::Refused(message),
            }
        } else {
            Request::Refused("option '"@ + tokens[i] + "' requires a value"@)
        }),
{
    let token = tokens[i];
    if token.len() == 2 {
        lemma_short_valued(option, token);
        assert(text::digits_end(token, 2) == 2);
    } else {
        lemma_long_valued(option, token);
        let name = token.skip(2);
        assert(name.take(name.len() as int) =~= name);
    }
}

/// The settings with a number that a flag gives.
pub open spec fn with_number(c: Settings, option: Valued, n: nat) -> Settings {
    match option {
        Valued::MaxDepth => Settings { max_depth: Some(n), ..c },
        Valued::Threads => Settings { threads: n, ..c },
        Valued::MaxCount => Settings { max_count: Some(n), ..c },
        Valued::Before => Settings { before_context: n, ..c },
        Valued::After => Settings { after_context: n, ..c },
        Valued::Context => Settings { before_context: n, after_context: n, ..c },
        _ => c,
    }
}

/// The flags that take a number.
pub open spec fn takes_number(option: Valued) -> bool {
    match option {
        Valued::MaxDepth | Valued::Threads | Valued::MaxCount | Valued::Before | Valued::After
        | Valued::Context => true,
        _ => false,
    }
}

/// A number is taken where it can be held, where threads are between one and
/// 1024, and where a limit on matching lines is not zero. Every other value is
/// refused.
pub proof fn law_flags_with_numbers(
    option: Valued,
    tokens: Seq<Seq<char>>,
    i: int,
    pattern_seen: bool,
    c: Settings,
)
    requires
        0 <= i,
        i + 1 < tokens.len(),
        takes_number(option),
        spells_valued(tokens[i], option),
    ensures
        ({
            let value = tokens[i + 1];
            let digits = forall|k: int| 0 <= k < value.len() ==> '0' <= #[trigger] value[k] <= '9';
            let n = text::value_of(value);
            let asked = grammar::request(tokens, i, pattern_seen, false, c);
            &&& value.len() > 0 && digits && n <= usize::MAX && (option is Threads ==> 1 <= n
                <= 1024) && (option is MaxCount ==> 1 <= n) ==> asked == grammar::request(
                tokens,
                i + 2,
                pattern_seen,
                false,
                with_number(c, option, n),
            )
            &&& digits && n > usize::MAX ==> asked is Refused
            &&& digits && option is Threads && (n == 0 || n > 1024) ==> asked is Refused
            &&& digits && option is MaxCount && n == 0 ==> asked is Refused
            &&& !digits && value[0] != '+' ==> asked == Request::Refused(
                "option '"@ + tokens[i] + "' expects a non-negative integer, got '"@ + value + "'"@,
            )
        }),
{
    lemma_valued(option, tokens, i, pattern_seen, c);
    let value = tokens[i + 1];
    let digits = forall|k: int| 0 <= k < value.len() ==> '0' <= #[trigger] value[k] <= '9';
    if digits {
        assert forall|k: int| 0 <= k < value.len() implies text::is_digit(#[trigger] value[k]) by {
            assert('0' <= value[k] <= '9');
        }
    } else {
        let k = choose|k: int| 0 <= k < value.len() && !('0' <= #[trigger] value[k] <= '9');
        assert(!text::is_digit(value[k]));
    }
}

/// Globs are kept as they are, in the order in which they come.
pub proof fn law_flags_with_globs(
    tokens: Seq<Seq<char>>,
    i: int,
    pattern_seen: bool,
    c: Settings,
)
    requires
        0 <= i,
        i + 1 < tokens.len(),
    ensures
        tokens[i] == "--glob"@ ==> grammar::request(tokens, i, pattern_seen, false, c)
            == grammar::request(
            tokens,
            i + 2,
            pattern_seen,
            false,
            (Settings { include_globs: c.include_globs.push(tokens[i + 1]), ..c }),
        ),
        tokens[i] == "--exclude-glob"@ ==> grammar::request(tokens, i, pattern_seen, false, c)
            == grammar::request(
            tokens,
            i + 2,
            pattern_seen,
            false,
            (Settings { exclude_globs: c.exclude_globs.push(tokens[i + 1]), ..c }),
        ),
{
    if tokens[i] == "--glob"@ {
        lemma_valued(Valued::Glob, tokens, i, pattern_seen, c);
    }
    if tokens[i] == "--exclude-glob"@ {
        lemma_valued(Valued::ExcludeGlob, tokens, i, pattern_seen, c);
    }
}

/// Color is used always, never or where the output is a terminal, as asked;
/// no other value is taken.
pub proof fn law_color_flag(tokens: Seq<Seq<char>>, i: int, pattern_seen: bool, c: Settings)
    requires
        0 <= i,
        i + 1 < tokens.len(),
        tokens[i] == "--color"@,
    ensures
        ({
            let value = tokens[i + 1];
            let asked = grammar::request(tokens, i, pattern_seen, false, c);
            let next = |color: ColorChoice|
                grammar::request(tokens, i + 2, pattern_seen, false, (Settings { color, ..c }));
            &&& value == "auto"@ ==> asked == next(ColorChoice::Auto)
            &&& value == "always"@ ==> asked == next(ColorChoice::Always)
            &&& value == "never"@ ==> asked == next(ColorChoice::Never)
            &&& value != "auto"@ && value != "always"@ && value != "never"@ ==> asked is Refused
        }),
{
    lemma_valued(Valued::Color, tokens, i, pattern_seen, c);
    reveal_strlit("auto");
    reveal_strlit("always");
    reveal_strlit("never");
    assert("auto"@.len() == 4 && "always"@.len() == 6 && "never"@.len() == 5);
}

/// What a letter behind a size multiplies it with.
pub open spec fn factor(letter: char) -> nat {
    if letter == 'k' || letter == 'K' {
        1024
    } else if letter == 'm' || letter == 'M' {
        1024 * 1024
    } else if letter == 'g' || letter == 'G' {
        1024 * 1024 * 1024
    } else if letter == 't' || letter == 'T' {
        1024 * 1024 * 1024 * 1024
    } else if letter == 'b' || letter == 'B' {
        1
    } else {
        0
    }
}

/// Sizes are bytes, or with a letter behind them multiples of powers of 1024.
pub proof fn law_size_flags(
    digits: Seq<char>,
    suffix: Seq<char>,
    tokens: Seq<Seq<char>>,
    i: int,
    pattern_seen: bool,
    c: Settings,
)
    requires
        0 <= i,
        i + 1 < tokens.len(),
        tokens[i + 1] == digits + suffix,
        digits.len() > 0,
        text::all_digits(digits),
        suffix.len() == 0 || suffix.len() == 1 && factor(suffix[0]) > 0,
        text::value_of(digits) * (if suffix.len() == 0 {
            1
        } else {
            factor(suffix[0])
        }) <= u64::MAX,
    ensures
        ({
            let size = text::value_of(digits) * (if suffix.len() == 0 {
                1
            } else {
                factor(suffix[0])
            });
            &&& tokens[i] == "--min-size"@ ==> grammar::request(tokens, i, pattern_seen, false, c)
                == grammar::request(
                tokens,
                i + 2,
                pattern_seen,
                false,
                (Settings { min_size: Some(size), ..c }),
            )
            &&& tokens[i] == "--max-size"@ ==> grammar::request(tokens, i, pattern_seen, false, c)
                == grammar::request(
                tokens,
                i + 2,
                pattern_seen,
                false,
                (Settings { max_size: Some(size), ..c }),
            )
        }),
{
    let value = tokens[i + 1];
    let n = digits.len() as int;
    if tokens[i] == "--min-size"@ {
        lemma_valued(Valued::MinSize, tokens, i, pattern_seen, c);
    }
    if tokens[i] == "--max-size"@ {
        lemma_valued(Valued::MaxSize, tokens, i, pattern_seen, c);
    }
    assert(text::is_digit(digits[0]) && text::is_digit(digits.last()));
    assert(value[0] == digits[0]);
    assert(value.last() == if suffix.len() == 0 {
        digits.last()
    } else {
        suffix[0]
    });
    assert(text::trim(value) == value);
    lemma_digits(value, 0, n);
    assert(value.take(n) =~= digits);
    assert(value.skip(n) =~= suffix);
}

proof fn lemma_digits(s: Seq<char>, from: int, n: int)
    requires
        0 <= from <= n <= s.len(),
        forall|k: int| from <= k < n ==> text::is_digit(#[trigger] s[k]),
        n < s.len() ==> !text::is_digit(s[n]),
    ensures
        text::digits_end(s, from) == n,
    decreases n - from,
{
    if from < n {
        lemma_digits(s, from + 1, n);
    }
}

/// A flag with a value that stands last is refused.
pub proof fn law_values_must_follow(
    option: Valued,
    tokens: Seq<Seq<char>>,
    i: int,
    pattern_seen: bool,
    c: Settings,
)
    requires
        0 <= i,
        i + 1 == tokens.len(),
        spells_valued(tokens[i], option),
    ensures
        grammar::request(tokens, i, pattern_seen, false, c) == Request::Refused(
            "option '"@ + tokens[i] + "' requires a value"@,
        ),
{
    lemma_valued(option, tokens, i, pattern_seen, c);
}

// ---------------------------------------------------------------------------
// Everything else
// ---------------------------------------------------------------------------

/// The first token that is no option is the pattern, every further one a path;
/// behind `--` that holds of all tokens.
pub proof fn law_pattern_and_paths(
    tokens: Seq<Seq<char>>,
    i: int,
    pattern_seen: bool,
    only_paths: bool,
    c: Settings,
)
    requires
        0 <= i < tokens.len(),
        only_paths || tokens[i].len() < 2 || tokens[i][0] != '-',
    ensures
        grammar::request(tokens, i, pattern_seen, only_paths, c) == grammar::request(
            tokens,
            i + 1,
            true,
            only_paths,
            (if pattern_seen {
                Settings { paths: c.paths.push(tokens[i]), ..c }
            } else {
                Settings { pattern: tokens[i], ..c }
            }),
        ),
{
    reveal_strlit("--");
    reveal_strlit("-h");
    reveal_strlit("-V");
    reveal_strlit("--help");
    reveal_strlit("--version");
    assert("--"@.len() == 2 && "-h"@.len() == 2 && "-V"@.len() == 2);
    assert("--"@[0] == '-' && "-h"@[0] == '-' && "-V"@[0] == '-');
    assert("--help"@[0] == '-' && "--version"@[0] == '-');
}

/// Requests for help and for the version win over all that follows, and `--`
/// ends the options.
pub proof fn law_help_version_and_double_dash(
    tokens: Seq<Seq<char>>,
    i: int,
    pattern_seen: bool,
    c: Settings,
)
    requires
        0 <= i < tokens.len(),
    ensures
        tokens[i] == "-h"@ || tokens[i] == "--help"@ ==> grammar::request(
            tokens,
            i,
            pattern_seen,
            false,
            c,
        ) == Request::Help,
        tokens[i] == "-V"@ || tokens[i] == "--version"@ ==> grammar::request(
            tokens,
            i,
            pattern_seen,
            false,
            c,
        ) == Request::Version,
        tokens[i] == "--"@ ==> grammar::request(tokens, i, pattern_seen, false, c)
            == grammar::request(tokens, i + 1, pattern_seen, true, c),
{
    reveal_strlit("--");
    reveal_strlit("-h");
    reveal_strlit("-V");
    reveal_strlit("--help");
    reveal_strlit("--version");
    assert("--"@.len() == 2 && "--help"@.len() == 6 && "--version"@.len() == 9);
    assert("--"@[1] == '-' && "-h"@[1] == 'h' && "-V"@[1] == 'V');
}

/// At the end of the tokens a search is asked for, with all that was set, where
/// there is a pattern, a number of threads from one to 1024 and a size window
/// that is not upside down; else the command line is refused.
pub proof fn law_complete_command_lines(
    tokens: Seq<Seq<char>>,
    pattern_seen: bool,
    only_paths: bool,
    c: Settings,
)
    ensures
        ({
            let asked = grammar::request(
                tokens,
                tokens.len() as int,
                pattern_seen,
                only_paths,
                c,
            );
            let sound = 1 <= c.threads <= 1024 && (c.min_size is Some && c.max_size is Some
                ==> c.min_size->0 <= c.max_size->0);
            &&& pattern_seen && sound ==> asked == Request::Search(c)
            &&& pattern_seen && !sound ==> asked is Refused
            &&& !pattern_seen ==> asked == Request::Refused(
                "missing PATTERN (try 'searchlight --help')"@,
            )
        }),
{
}

/// A command line starts from the defaults: nothing is switched on, there is
/// no context, no glob and no limit, and color is used on terminals.
pub proof fn law_command_lines_start_from_the_defaults(tokens: Seq<Seq<char>>, threads: nat)
    requires
        tokens != seq!["src/"@],
    ensures
        grammar::command_line(tokens, threads) == grammar::request(
            tokens,
            0,
            false,
            false,
            (Settings {
                pattern: Seq::empty(),
                paths: Seq::empty(),
                switches: Set::empty(),
                before_context: 0,
                after_context: 0,
                include_globs: Seq::empty(),
                exclude_globs: Seq::empty(),
                max_depth: None,
                min_size: None,
                max_size: None,
                threads,
                color: ColorChoice::Auto,
                max_count: None,
            }),
        ),
{
    if tokens.len() == 1 && tokens[0] == "src/"@ {
        assert(tokens =~= seq!["src/"@]);
    }
}

/// The configuration holds in its fields what the command line asks for.
pub proof fn law_configurations_hold_the_settings(config: Config, k: int)
    ensures
        config@.pattern == config.pattern@,
        config@.paths.len() == config.paths@.len(),
        0 <= k < config.paths@.len() ==> config@.paths[k] == config.paths@[k]@,
        config@.include_globs.len() == config.include_globs@.len(),
        0 <= k < config.include_globs@.len() ==> config@.include_globs[k]
            == config.include_globs@[k]@,
        config@.exclude_globs.len() == config.exclude_globs@.len(),
        0 <= k < config.exclude_globs@.len() ==> config@.exclude_globs[k]
            == config.exclude_globs@[k]@,
        config@.before_context == config.before_context,
        config@.after_context == config.after_context,
        config@.max_depth is Some <==> config.max_depth is Some,
        config.max_depth is Some ==> config@.max_depth->0 == config.max_depth->0,
        config@.max_count is Some <==> config.max_count is Some,
        config.max_count is Some ==> config@.max_count->0 == config.max_count->0,
        config@.min_size is Some <==> config.min_size is Some,
        config.min_size is Some ==> config@.min_size->0 == config.min_size->0,
        config@.max_size is Some <==> config.max_size is Some,
        config.max_size is Some ==> config@.max_size->0 == config.max_size->0,
        config@.threads == config.threads,
        config@.color == config.color,
{
}

/// A command line of the source directory alone lacks its pattern.
pub proof fn law_sources_alone_lack_a_pattern(threads: nat)
    ensures
        grammar::command_line(seq!["src/"@], threads) == Request::Refused(
            "missing PATTERN (try 'searchlight --help')"@,
        ),
{
}

/// The name of a long option: what stands in front of the first `=`.
pub open spec fn unknown_long(name: Seq<char>) -> bool {
    &&& forall|switch: Switch| !#[trigger] spells(long_form(name), switch)
    &&& forall|option: Valued| !#[trigger] spells_valued(long_form(name), option)
}

/// Options that there are not are refused, long and short, and so is a value
/// for a flag that takes none.
pub proof fn law_unknown_options_are_refused(
    name: Seq<char>,
    value: Seq<char>,
    letter: char,
    rest: Seq<char>,
    tokens: Seq<Seq<char>>,
    i: int,
    pattern_seen: bool,
    c: Settings,
)
    requires
        0 <= i < tokens.len(),
        forall|k: int| 0 <= k < name.len() ==> #[trigger] name[k] != '=',
    ensures
        unknown_long(name) && tokens[i] == long_form(name) + seq!['='] + value
            ==> grammar::request(tokens, i, pattern_seen, false, c) == Request::Refused(
            "unrecognized option '"@ + long_form(name) + "'"@,
        ),
        unknown_long(name) && name.len() > 0 && name != "help"@ && name != "version"@ && tokens[i]
            == long_form(name) ==> grammar::request(tokens, i, pattern_seen, false, c)
            == Request::Refused("unrecognized option '"@ + long_form(name) + "'"@),
        (exists|switch: Switch| spells(long_form(name), switch)) && tokens[i] == long_form(name)
            + seq!['='] + value ==> grammar::request(tokens, i, pattern_seen, false, c)
            == Request::Refused("option '"@ + long_form(name) + "' does not take a value"@),
        letter != '-' && letter != 'h' && letter != 'V' && !switch_letter(letter) && (
        forall|option: Valued| !#[trigger] spells_valued(short_form(letter), option)) && tokens[i]
            == short_form(letter) + rest ==> grammar::request(tokens, i, pattern_seen, false, c)
            == Request::Refused("unrecognized option '"@ + short_form(letter) + "'"@),
{
    let token = tokens[i];
    let spelled = long_form(name);
    let attached = spelled + seq!['='] + value;
    reveal_strlit("--");
    reveal_strlit("-");
    assert("--"@ + name =~= spelled);
    if token == attached {
        lemma_attached_kind(name, value);
        lemma_known_names(name);
    }
    if token == spelled && name.len() > 0 && name != "help"@ && name != "version"@ {
        lemma_long_token(token, name);
        assert(name.take(name.len() as int) =~= name);
        lemma_known_names(name);
    }
    if token == short_form(letter) + rest && letter != '-' && letter != 'h' && letter != 'V' {
        lemma_short_kind(token);
        assert("-"@ + seq![letter] =~= short_form(letter));
        lemma_known_letters(letter);
    }
}

proof fn lemma_attached_kind(name: Seq<char>, value: Seq<char>)
    requires
        forall|k: int| 0 <= k < name.len() ==> #[trigger] name[k] != '=',
    ensures
        ({
            let token = long_form(name) + seq!['='] + value;
            &&& grammar::token_kind(token) == Token::Long
            &&& grammar::equals_sign(token.skip(2), 0) == name.len()
            &&& token.skip(2).take(name.len() as int) == name
            &&& name.len() < token.skip(2).len()
        }),
{
    let token = long_form(name) + seq!['='] + value;
    let n = name.len() as int;
    let behind = token.skip(2);
    assert(behind =~= name + seq!['='] + value);
    assert(behind.take(n) =~= name);
    assert forall|k: int| 0 <= k < n implies #[trigger] behind[k] != '=' by {
        assert(behind[k] == name[k]);
    }
    assert(behind[n] == '=');
    lemma_equals_at(behind, 0, n);
    assert(token[2 + n] == '=');
    reveal_strlit("--");
    reveal_strlit("-h");
    reveal_strlit("-V");
    reveal_strlit("--help");
    reveal_strlit("--version");
    assert(forall|k: int| 0 <= k < "--help"@.len() ==> #[trigger] "--help"@[k] != '=');
    assert(forall|k: int| 0 <= k < "--version"@.len() ==> #[trigger] "--version"@[k] != '=');
    assert(token.len() > 2);
    if token == "--help"@ {
        assert("--help"@[2 + n] != '=');
    }
    if token == "--version"@ {
        assert("--version"@[2 + n] != '=');
    }
}

proof fn lemma_equals_at(s: Seq<char>, from: int, cut: int)
    requires
        0 <= from <= cut < s.len(),
        forall|k: int| from <= k < cut ==> #[trigger] s[k] != '=',
        s[cut] == '=',
    ensures
        grammar::equals_sign(s, from) == cut,
    decreases cut - from,
{
    if from < cut {
        lemma_equals_at(s, from + 1, cut);
    }
}

/// The long options that are known are those that are spelled.
proof fn lemma_known_names(name: Seq<char>)
    ensures
        grammar::long_switch(name) matches Some(switch) ==> spells(long_form(name), switch),
        grammar::long_switch(name) is None ==> (grammar::long_valued(name) matches Some(option)
            ==> spells_valued(long_form(name), option)),
        (exists|switch: Switch| spells(long_form(name), switch)) ==> grammar::long_switch(
            name,
        ) is Some,
{
    lemma_long_texts();
    let token = long_form(name);
    if exists|switch: Switch| spells(token, switch) {
        let switch = choose|switch: Switch| spells(token, switch);
        lemma_short_texts();
        if token.len() == 2 {
            assert(token[1] == '-');
            lemma_long_lengths();
            assert(false);
        }
        lemma_switch_name(switch, token);
        assert(token.skip(2) =~= name);
    }
}

/// The letters that are known are those that are spelled.
proof fn lemma_known_letters(letter: char)
    ensures
        grammar::short_switch(letter) matches Some(switch) ==> spells(short_form(letter), switch),
        grammar::short_valued(letter) matches Some(option) ==> spells_valued(
            short_form(letter),
            option,
        ),
{
    lemma_short_texts();
}

/// The strict grammar of sizes: digits, then nothing or one letter for bytes or
/// a power of 1024, with white space around it or not, and no more than 64
/// bits. Nothing else is a size there.
pub proof fn law_strict_sizes(
    front: Seq<char>,
    digits: Seq<char>,
    suffix: Seq<char>,
    back: Seq<char>,
)
    requires
        forall|k: int| 0 <= k < front.len() ==> text::is_white(#[trigger] front[k]),
        forall|k: int| 0 <= k < back.len() ==> text::is_white(#[trigger] back[k]),
        text::all_digits(digits),
        suffix.len() > 0 ==> !text::is_digit(suffix[0]) && !text::is_white(suffix[0])
            && !text::is_white(suffix.last()),
    ensures
        ({
            let times = if suffix.len() == 0 {
                1
            } else if suffix.len() == 1 {
                factor(suffix[0])
            } else {
                0
            };
            let size = text::value_of(digits) * times;
            grammar::strict_size(front + (digits + suffix) + back) == (if digits.len() > 0 && times
                > 0 && size <= u64::MAX {
                Some(size)
            } else {
                None
            })
        }),
{
    let value = digits + suffix;
    let n = digits.len() as int;
    if digits.len() > 0 {
        assert(text::is_digit(digits[0]) && text::is_digit(digits[n - 1]));
        assert(value[0] == digits[0]);
    }
    if value.len() > 0 {
        assert(value.last() == if suffix.len() == 0 {
            digits.last()
        } else {
            suffix.last()
        });
    }
    text::law_trimming_takes_white_space_off(front, value, back);
    assert forall|k: int| 0 <= k < n implies text::is_digit(#[trigger] value[k]) by {
        assert(value[k] == digits[k]);
    }
    if suffix.len() > 0 {
        assert(value[n] == suffix[0]);
    }
    lemma_digits(value, 0, n);
    assert(value.take(n) =~= digits);
    assert(value.skip(n) =~= suffix);
}

} // verus!
