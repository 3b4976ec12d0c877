//! The grammar of patterns and globs: which texts are well formed, and what
//! they stand for.

use vstd::prelude::*;

use crate::pattern::tree;
use crate::pattern::tree::{CharSet, Re};
use crate::text;

verus! {

/// Maximum nesting depth accepted by the parser, where the pattern as a whole
/// is the first level and each `(...)` opens another.
pub const MAX_PATTERN_DEPTH: usize = 48;

/// Maximum expansion size for `{m,n}` repetitions.
pub const MAX_REPEAT_EXPANSION: usize = 4096;

/// `more` behind `list`, unless `more` is an error.
pub open spec fn prepend<A>(
    list: Seq<A>,
    more: Result<(Seq<A>, int), Seq<char>>,
) -> Result<(Seq<A>, int), Seq<char>> {
    match more {
        Ok((rest, end)) => Ok((list + rest, end)),
        Err(message) => Err(message),
    }
}

/// Prepending twice is prepending once.
pub proof fn lemma_prepend<A>(
    list: Seq<A>,
    item: A,
    more: Result<(Seq<A>, int), Seq<char>>,
)
    ensures
        prepend(list, prepend(seq![item], more)) == prepend(list.push(item), more),
{
    if more is Ok {
        let rest = more->Ok_0.0;
        assert(list + (seq![item] + rest) =~= list.push(item) + rest);
    }
}

/// [`lemma_prepend`] for several items.
pub proof fn lemma_prepend_all<A>(
    list: Seq<A>,
    items: Seq<A>,
    more: Result<(Seq<A>, int), Seq<char>>,
)
    ensures
        prepend(list, prepend(items, more)) == prepend(list + items, more),
{
    if more is Ok {
        let rest = more->Ok_0.0;
        assert(list + (items + rest) =~= (list + items) + rest);
    }
}

/// A sequence of items as one expression.
pub open spec fn in_sequence(items: Seq<Re>) -> Re {
    if items.len() == 0 {
        Re::Empty
    } else if items.len() == 1 {
        items[0]
    } else {
        Re::Concat(items)
    }
}

// ---------------------------------------------------------------------------
// Classes and escapes
// ---------------------------------------------------------------------------

/// The ranges that an escape adds to a class.
pub open spec fn class_escape(ch: char) -> Seq<(char, char)> {
    if ch == 'n' {
        seq![('\n', '\n')]
    } else if ch == 't' {
        seq![('\t', '\t')]
    } else if ch == 'r' {
        seq![('\r', '\r')]
    } else if ch == 'd' {
        tree::digit_ranges()
    } else if ch == 'w' {
        tree::word_ranges()
    } else if ch == 's' {
        tree::space_ranges()
    } else {
        seq![(ch, ch)]
    }
}

/// The message about a range that runs backwards.
pub open spec fn bad_range(lo: char, hi: char) -> Seq<char> {
    "invalid character range '"@ + seq![lo] + "-"@ + seq![hi] + "'"@
}

/// `p[i..]` starts with a range such as `a-z`. A `-` before the closing
/// bracket is a member, no range.
pub open spec fn range_at(p: Seq<char>, i: int) -> bool {
    i + 2 < p.len() && p[i + 1] == '-' && p[i + 2] != ']'
}

/// The members of a class from `i` to its closing bracket, and the position
/// behind that. A closing bracket in the first place is a member.
pub open spec fn members(p: Seq<char>, i: int, first: bool) -> Result<
    (Seq<(char, char)>, int),
    Seq<char>,
>
    decreases p.len() - i,
{
    if i >= p.len() {
        Err("unclosed character class"@)
    } else if p[i] == ']' && !first {
        Ok((Seq::empty(), i + 1))
    } else if p[i] == '\\' {
        if i + 1 >= p.len() {
            Err("dangling escape in class"@)
        } else {
            prepend(class_escape(p[i + 1]), members(p, i + 2, false))
        }
    } else if range_at(p, i) {
        if p[i + 2] < p[i] {
            Err(bad_range(p[i], p[i + 2]))
        } else {
            prepend(seq![(p[i], p[i + 2])], members(p, i + 3, false))
        }
    } else {
        prepend(seq![(p[i], p[i])], members(p, i + 1, false))
    }
}

/// The class whose opening bracket stands before `i`, and the position behind
/// its closing bracket.
pub open spec fn class(p: Seq<char>, i: int) -> Result<(Re, int), Seq<char>> {
    let negated = 0 <= i < p.len() && p[i] == '^';
    let from = if negated {
        i + 1
    } else {
        i
    };
    match members(p, from, true) {
        Ok((ranges, end)) => Ok((Re::Class(CharSet { negated, ranges }), end)),
        Err(message) => Err(message),
    }
}

/// What a backslash and `ch` stand for outside a class.
pub open spec fn escape(ch: char) -> Re {
    if ch == 'n' {
        Re::Literal('\n')
    } else if ch == 't' {
        Re::Literal('\t')
    } else if ch == 'r' {
        Re::Literal('\r')
    } else if ch == '0' {
        Re::Literal('\0')
    } else if ch == 'b' {
        Re::WordBoundary
    } else if ch == 'd' || ch == 'D' {
        Re::Class(CharSet { negated: ch == 'D', ranges: tree::digit_ranges() })
    } else if ch == 'w' || ch == 'W' {
        Re::Class(CharSet { negated: ch == 'W', ranges: tree::word_ranges() })
    } else if ch == 's' || ch == 'S' {
        Re::Class(CharSet { negated: ch == 'S', ranges: tree::space_ranges() })
    } else {
        Re::Literal(ch)
    }
}

// ---------------------------------------------------------------------------
// Repetitions
// ---------------------------------------------------------------------------

/// The number spelled by the digits from `i` on, where there are any.
pub open spec fn count_at(p: Seq<char>, i: int) -> Option<nat> {
    let end = text::digits_end(p, i);
    if i < end {
        Some(text::value_of(p.subrange(i, end)))
    } else {
        None
    }
}

/// The message about a repetition count above the limit.
pub open spec fn too_many(n: nat) -> Seq<char> {
    "repetition count "@ + text::decimal(n) + " too large (max "@ + text::decimal(
        MAX_REPEAT_EXPANSION as nat,
    ) + ")"@
}

/// The message about a maximum below the minimum.
pub open spec fn upside_down(min: nat, max: nat) -> Seq<char> {
    "repetition maximum "@ + text::decimal(max) + " smaller than minimum "@ + text::decimal(min)
}

/// `{m}`, `{m,}` or `{m,n}` at `i`: its minimum, its maximum and the position
/// behind it. `Ok(None)` where the braces form no repetition.
pub open spec fn repetition(p: Seq<char>, i: int) -> Result<
    Option<(nat, Option<nat>, int)>,
    Seq<char>,
> {
    match count_at(p, i + 1) {
        None => Ok(None),
        Some(min) => {
            let comma = text::digits_end(p, i + 1);
            let open_ended = comma < p.len() && p[comma] == ',';
            let max = if open_ended {
                count_at(p, comma + 1)
            } else {
                Some(min)
            };
            let end = if open_ended {
                text::digits_end(p, comma + 1)
            } else {
                comma
            };
            if end >= p.len() || p[end] != '}' {
                Ok(None)
            } else if min > MAX_REPEAT_EXPANSION {
                Err(too_many(min))
            } else {
                match max {
                    None => Ok(Some((min, None, end + 1))),
                    Some(most) => if most > MAX_REPEAT_EXPANSION {
                        Err(too_many(most))
                    } else if most < min {
                        Err(upside_down(min, most))
                    } else {
                        Ok(Some((min, Some(most), end + 1)))
                    },
                }
            }
        },
    }
}

/// The items that a repetition of `re` stands for: `a{2,4}` is `a a a? a?`
/// and `a{2,}` is `a a a*`.
pub open spec fn expansion(re: Re, min: nat, max: Option<nat>) -> Seq<Re> {
    Seq::new(min, |k: int| re) + match max {
        None => seq![Re::Star(Box::new(re))],
        Some(most) => Seq::new((most - min) as nat, |k: int| Re::Optional(Box::new(re))),
    }
}

/// `re` with the run of quantifiers from `i` on, and the position behind
/// them. A `{` that opens no repetition ends the run.
pub open spec fn quantifiers(p: Seq<char>, i: int, re: Re) -> Result<(Re, int), Seq<char>>
    decreases p.len() - i,
{
    if i >= p.len() {
        Ok((re, i))
    } else if p[i] == '*' {
        quantifiers(p, i + 1, Re::Star(Box::new(re)))
    } else if p[i] == '+' {
        quantifiers(p, i + 1, Re::Plus(Box::new(re)))
    } else if p[i] == '?' {
        quantifiers(p, i + 1, Re::Optional(Box::new(re)))
    } else if p[i] == '{' {
        match repetition(p, i) {
            Err(message) => Err(message),
            Ok(None) => Ok((re, i)),
            Ok(Some((min, max, end))) => if i < end {
                quantifiers(p, end, in_sequence(expansion(re, min, max)))
            } else {
                Ok((re, i))
            },
        }
    } else {
        Ok((re, i))
    }
}

// ---------------------------------------------------------------------------
// Patterns
// ---------------------------------------------------------------------------

/// A position at which a sequence of atoms ends.
pub open spec fn stops(p: Seq<char>, i: int) -> bool {
    i >= p.len() || p[i] == '|' || p[i] == ')'
}

/// The atom at `i`, and the position behind it.
pub open spec fn atom(p: Seq<char>, i: int, depth: nat) -> Result<(Re, int), Seq<char>>
    decreases p.len() - i, 0nat,
{
    if i >= p.len() {
        Ok((Re::Empty, i))
    } else if p[i] == '(' {
        if depth + 1 >= MAX_PATTERN_DEPTH {
            Err("pattern nesting too deep (possible catastrophic form)"@)
        } else {
            match alternation(p, i + 1, depth + 1) {
                Ok((re, end)) => if end < p.len() && p[end] == ')' {
                    Ok((re, end + 1))
                } else {
                    Err("missing closing ')'"@)
                },
                Err(message) => Err(message),
            }
        }
    } else if p[i] == '[' {
        class(p, i + 1)
    } else if p[i] == '.' {
        Ok((Re::AnyChar, i + 1))
    } else if p[i] == '^' {
        Ok((Re::StartAnchor, i + 1))
    } else if p[i] == '$' {
        Ok((Re::EndAnchor, i + 1))
    } else if p[i] == '\\' {
        if i + 1 >= p.len() {
            Err("dangling escape at end of pattern"@)
        } else {
            Ok((escape(p[i + 1]), i + 2))
        }
    } else {
        Ok((Re::Literal(p[i]), i + 1))
    }
}

/// The atom at `i` with its quantifiers, and the position behind them.
pub open spec fn quantified(p: Seq<char>, i: int, depth: nat) -> Result<(Re, int), Seq<char>>
    decreases p.len() - i, 1nat,
{
    match atom(p, i, depth) {
        Ok((re, end)) => quantifiers(p, end, re),
        Err(message) => Err(message),
    }
}

/// The quantified atoms from `i` on, and the position at which they end.
pub open spec fn atoms(p: Seq<char>, i: int, depth: nat) -> Result<(Seq<Re>, int), Seq<char>>
    decreases p.len() - i, 2nat,
{
    if stops(p, i) {
        Ok((Seq::empty(), i))
    } else {
        match quantified(p, i, depth) {
            Ok((re, end)) => if i < end <= p.len() {
                prepend(seq![re], atoms(p, end, depth))
            } else {
                Ok((seq![re], end))
            },
            Err(message) => Err(message),
        }
    }
}

/// The branch at `i`, and the position at which it ends.
pub open spec fn concatenation(p: Seq<char>, i: int, depth: nat) -> Result<(Re, int), Seq<char>>
    decreases p.len() - i, 3nat,
{
    match atoms(p, i, depth) {
        Ok((items, end)) => Ok((in_sequence(items), end)),
        Err(message) => Err(message),
    }
}

/// The branches from `i` on, and the position at which they end.
pub open spec fn branches(p: Seq<char>, i: int, depth: nat) -> Result<(Seq<Re>, int), Seq<char>>
    decreases p.len() - i, 4nat,
{
    match concatenation(p, i, depth) {
        Ok((re, end)) => if i <= end < p.len() && p[end] == '|' {
            prepend(seq![re], branches(p, end + 1, depth))
        } else {
            Ok((seq![re], end))
        },
        Err(message) => Err(message),
    }
}

/// The alternation at `i`, and the position at which it ends.
pub open spec fn alternation(p: Seq<char>, i: int, depth: nat) -> Result<(Re, int), Seq<char>>
    decreases p.len() - i, 5nat,
{
    match branches(p, i, depth) {
        Ok((list, end)) => Ok(
            (
                if list.len() == 1 {
                    list[0]
                } else {
                    Re::Alternate(list)
                },
                end,
            ),
        ),
        Err(message) => Err(message),
    }
}

/// The message about what is left over behind a pattern.
pub open spec fn left_over(p: Seq<char>, end: int) -> Seq<char> {
    "unexpected '"@ + seq![p[end]] + "' at position "@ + text::decimal(end as nat)
}

/// What a pattern stands for, or what is wrong with it.
pub open spec fn meaning(p: Seq<char>) -> Result<Re, Seq<char>> {
    match alternation(p, 0, 0) {
        Ok((re, end)) => if end < p.len() {
            Err(left_over(p, end))
        } else {
            Ok(re)
        },
        Err(message) => Err(message),
    }
}

/// `re` between word boundaries.
pub open spec fn whole_words(re: Re) -> Re {
    Re::Concat(seq![Re::WordBoundary, re, Re::WordBoundary])
}

/// `re`, to match the whole line.
pub open spec fn whole_line(re: Re) -> Re {
    Re::Concat(seq![Re::StartAnchor, re, Re::EndAnchor])
}

// ---------------------------------------------------------------------------
// Globs
// ---------------------------------------------------------------------------

/// The items of a glob from `i` on. A run of stars is one star.
pub open spec fn glob_items(g: Seq<char>, i: int) -> Result<(Seq<Re>, int), Seq<char>>
    decreases g.len() - i,
{
    let wild = Re::Class(tree::not_slash_set());
    if i >= g.len() {
        Ok((Seq::empty(), i))
    } else if g[i] == '*' {
        if i + 1 < g.len() && g[i + 1] == '*' {
            glob_items(g, i + 1)
        } else {
            prepend(seq![Re::Star(Box::new(wild))], glob_items(g, i + 1))
        }
    } else if g[i] == '?' {
        prepend(seq![wild], glob_items(g, i + 1))
    } else if g[i] == '[' {
        match class(g, i + 1) {
            Ok((re, end)) => if i < end <= g.len() {
                prepend(seq![re], glob_items(g, end))
            } else {
                Ok((seq![re], end))
            },
            Err(message) => Err(message),
        }
    } else {
        prepend(seq![Re::Literal(g[i])], glob_items(g, i + 1))
    }
}

/// What a glob stands for, or what is wrong with it.
pub open spec fn glob_meaning(g: Seq<char>) -> Result<Re, Seq<char>> {
    match glob_items(g, 0) {
        Ok((items, _)) => Ok(in_sequence(items)),
        Err(message) => Err(message),
    }
}

} // verus!
