//! What holds of every command line.

use vstd::prelude::*;

use crate::args::grammar;
use crate::args::grammar::{Request, Token};
use crate::args::{Settings, MAX_THREADS};
use crate::text;

verus! {

/// `c` with the switches of some letters set, one after the other.
pub open spec fn all_switched(c: Settings, letters: Seq<char>) -> Settings
    decreases letters.len(),
{
    if letters.len() == 0 {
        c
    } else {
        match grammar::short_switch(letters.last()) {
            Some(switch) => grammar::switched(all_switched(c, letters.drop_last()), switch),
            None => c,
        }
    }
}

proof fn lemma_cluster_from(
    letters: Seq<char>,
    k: int,
    tokens: Seq<Seq<char>>,
    next: int,
    c: Settings,
)
    requires
        0 <= k <= letters.len(),
        forall|j: int|
            0 <= j < letters.len() ==> grammar::short_switch(#[trigger] letters[j]) is Some,
    ensures
        grammar::cluster(
            seq!['-'] + letters,
            k + 1,
            tokens,
            next,
            all_switched(c, letters.take(k)),
        ) == Ok::<(Settings, int), Seq<char>>((all_switched(c, letters), next)),
    decreases letters.len() - k,
{
    let token = seq!['-'] + letters;
    if k < letters.len() {
        assert(token[k + 1] == letters[k]);
        lemma_cluster_from(letters, k + 1, tokens, next, c);
        assert(letters.take(k + 1).drop_last() =~= letters.take(k));
        assert(letters.take(k + 1).last() == letters[k]);
    } else {
        assert(letters.take(k) =~= letters);
    }
}

/// A cluster of short switches sets what the switches set one by one, and
/// takes no further token.
pub proof fn law_clustered_switches_are_separate_switches(
    letters: Seq<char>,
    tokens: Seq<Seq<char>>,
    next: int,
    c: Settings,
)
    requires
        forall|j: int|
            0 <= j < letters.len() ==> grammar::short_switch(#[trigger] letters[j]) is Some,
    ensures
        grammar::cluster(seq!['-'] + letters, 1, tokens, next, c) == Ok::<
            (Settings, int),
            Seq<char>,
        >((all_switched(c, letters), next)),
{
    lemma_cluster_from(letters, 0, tokens, next, c);
    assert(letters.take(0) =~= Seq::<char>::empty());
}

proof fn lemma_equals_sign(s: Seq<char>, from: int, cut: int)
    requires
        0 <= from <= cut <= s.len(),
        forall|k: int| from <= k < cut ==> #[trigger] s[k] != '=',
        cut < s.len() ==> s[cut] == '=',
    ensures
        grammar::equals_sign(s, from) == cut,
    decreases cut - from,
{
    if from < cut {
        lemma_equals_sign(s, from + 1, cut);
    }
}

/// `--name=value` does what `--name value` does, and takes one token less.
pub proof fn law_long_values_attached_or_not(
    name: Seq<char>,
    value: Seq<char>,
    tokens: Seq<Seq<char>>,
    i: int,
    c: Settings,
)
    requires
        grammar::long_switch(name) is None,
        grammar::long_valued(name) is Some,
        forall|k: int| 0 <= k < name.len() ==> #[trigger] name[k] != '=',
        0 <= i,
        i + 1 < tokens.len(),
        tokens[i + 1] == value,
    ensures
        match grammar::long_option(name + seq!['='] + value, tokens, i, c) {
            Ok((set, next)) => next == i + 1 && grammar::long_option(name, tokens, i, c) == Ok::<
                (Settings, int),
                Seq<char>,
            >((set, i + 2)),
            Err(message) => grammar::long_option(name, tokens, i, c) == Err::<
                (Settings, int),
                Seq<char>,
            >(message),
        },
{
    let whole = name + seq!['='] + value;
    let cut = name.len() as int;
    lemma_equals_sign(whole, 0, cut);
    lemma_equals_sign(name, 0, cut);
    assert(whole.take(cut) =~= name);
    assert(whole.skip(cut + 1) =~= value);
    assert(name.take(cut) =~= name);
}

proof fn lemma_digits_to_end(s: Seq<char>, from: int)
    requires
        0 <= from <= s.len(),
        forall|k: int| from <= k < s.len() ==> text::is_digit(#[trigger] s[k]),
    ensures
        text::digits_end(s, from) == s.len(),
    decreases s.len() - from,
{
    if from < s.len() {
        lemma_digits_to_end(s, from + 1);
    }
}

/// `-C3` does what `-C 3` does, and takes one token less: both are refused with
/// the same message, or both are accepted; either way the settings are the same
/// afterwards.
pub proof fn law_short_values_attached_or_not(
    flag: char,
    digits: Seq<char>,
    attached: Seq<Seq<char>>,
    separate: Seq<Seq<char>>,
    i: int,
    c: Settings,
)
    requires
        grammar::short_switch(flag) is None,
        grammar::short_valued(flag) is Some,
        digits.len() > 0,
        text::all_digits(digits),
        0 <= i < attached.len(),
        i + 1 < separate.len(),
        attached[i] == seq!['-', flag] + digits,
        separate[i] == seq!['-', flag],
        separate[i + 1] == digits,
    ensures
        match grammar::cluster(attached[i], 1, attached, i + 1, c) {
            Ok((set, after)) => after == i + 1 && grammar::cluster(
                separate[i],
                1,
                separate,
                i + 1,
                c,
            ) == Ok::<(Settings, int), Seq<char>>((set, i + 2)),
            Err(message) => grammar::cluster(separate[i], 1, separate, i + 1, c) == Err::<
                (Settings, int),
                Seq<char>,
            >(message),
        },
        grammar::cluster_settings(attached[i], 1, attached, i + 1, c)
            == grammar::cluster_settings(separate[i], 1, separate, i + 1, c),
{
    let joined = attached[i];
    let alone = separate[i];
    assert forall|k: int| 2 <= k < joined.len() implies text::is_digit(#[trigger] joined[k]) by {
        assert(joined[k] == digits[k - 2]);
        assert(text::is_digit(digits[k - 2]));
    }
    lemma_digits_to_end(joined, 2);
    assert(joined.subrange(2, joined.len() as int) =~= digits);
    assert(text::digits_end(alone, 2) == 2);
    let size = joined.len() as int;
    let option = grammar::short_valued(flag)->0;
    let name = "-"@ + seq![flag];
    match grammar::assigned(c, option, name, digits) {
        Ok(set) => {
            assert(grammar::cluster(joined, size, attached, i + 1, set) == Ok::<
                (Settings, int),
                Seq<char>,
            >((set, i + 1)));
            assert(grammar::cluster_settings(joined, size, attached, i + 1, set) == set);
        },
        Err(_) => {},
    }
}

/// A limit on matching lines, where there is one, lets at least one through.
pub open spec fn lets_matches_through(c: Settings) -> bool {
    c.max_count != Some(0nat)
}

proof fn lemma_cluster_limit(
    token: Seq<char>,
    at: int,
    tokens: Seq<Seq<char>>,
    next: int,
    c: Settings,
)
    requires
        lets_matches_through(c),
    ensures
        grammar::cluster(token, at, tokens, next, c) matches Ok((set, _))
            ==> lets_matches_through(set),
    decreases token.len() - at,
{
    if 0 <= at < token.len() {
        let flag = "-"@ + seq![token[at]];
        match (grammar::short_switch(token[at]), grammar::short_valued(token[at])) {
            (Some(switch), _) => {
                lemma_cluster_limit(token, at + 1, tokens, next, grammar::switched(c, switch));
            },
            (None, Some(option)) => {
                let end = text::digits_end(token, at + 1);
                if at + 1 < end <= token.len() {
                    match grammar::assigned(c, option, flag, token.subrange(at + 1, end)) {
                        Ok(set) => {
                            lemma_cluster_limit(token, end, tokens, next, set);
                        },
                        Err(_) => {},
                    }
                }
            },
            (None, None) => {},
        }
    }
}

proof fn lemma_request(
    tokens: Seq<Seq<char>>,
    i: int,
    pattern_seen: bool,
    only_paths: bool,
    c: Settings,
)
    requires
        lets_matches_through(c),
    ensures
        grammar::request(tokens, i, pattern_seen, only_paths, c) matches Request::Search(set) ==> {
            &&& grammar::contradiction(set) is None
            &&& lets_matches_through(set)
        },
    decreases tokens.len() - i,
{
    if 0 <= i < tokens.len() {
        let token = tokens[i];
        let kind = if only_paths {
            Token::Positional
        } else {
            grammar::token_kind(token)
        };
        match kind {
            Token::End => {
                lemma_request(tokens, i + 1, pattern_seen, true, c);
            },
            Token::Positional => {
                let set = grammar::positional(c, pattern_seen, token);
                lemma_request(tokens, i + 1, true, only_paths, set);
            },
            Token::Long | Token::Short => {
                lemma_cluster_limit(token, 1, tokens, i + 1, c);
                if let Ok((set, next)) = grammar::option(tokens, i, kind, c) {
                    assert(lets_matches_through(set));
                    if i < next <= tokens.len() {
                        lemma_request(tokens, next, pattern_seen, only_paths, set);
                    }
                }
            },
            _ => {},
        }
    }
}

/// Whatever the command line, an accepted configuration has between one and
/// the maximum of threads, a size window that is not upside down, and no limit
/// that keeps all matches out.
pub proof fn law_accepted_configurations_are_sound(tokens: Seq<Seq<char>>, threads: nat)
    ensures
        grammar::command_line(tokens, threads) matches Request::Search(set) ==> {
            &&& 1 <= set.threads <= MAX_THREADS
            &&& set.min_size is Some && set.max_size is Some ==> set.min_size->0 <= set.max_size->0
            &&& set.max_count != Some(0nat)
        },
{
    lemma_request(tokens, 0, false, false, grammar::defaults(threads));
}

/// `c` with all tokens from `i` on taken as positional arguments.
pub open spec fn all_positional(
    tokens: Seq<Seq<char>>,
    i: int,
    pattern_seen: bool,
    c: Settings,
) -> Settings
    decreases tokens.len() - i,
{
    if 0 <= i < tokens.len() {
        all_positional(tokens, i + 1, true, grammar::positional(c, pattern_seen, tokens[i]))
    } else {
        c
    }
}

/// Behind `--`, every token is a positional argument, whatever it looks like.
pub proof fn law_double_dash_ends_the_options(
    tokens: Seq<Seq<char>>,
    i: int,
    pattern_seen: bool,
    c: Settings,
)
    requires
        0 <= i <= tokens.len(),
    ensures
        grammar::request(tokens, i, pattern_seen, true, c) == grammar::conclusion(
            all_positional(tokens, i, pattern_seen, c),
            pattern_seen || i < tokens.len(),
        ),
    decreases tokens.len() - i,
{
    if i < tokens.len() {
        law_double_dash_ends_the_options(
            tokens,
            i + 1,
            true,
            grammar::positional(c, pattern_seen, tokens[i]),
        );
    }
}

} // verus!
