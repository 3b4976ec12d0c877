//! Which patterns are refused, and why.

use vstd::prelude::*;

use crate::pattern;
use crate::pattern::grammar;
use crate::pattern::laws::special;
use crate::pattern::tree::Re;
use crate::text;

verus! {

/// A text in which no character has a meaning of its own.
pub open spec fn plain(p: Seq<char>) -> bool {
    forall|k: int| 0 <= k < p.len() ==> !special(#[trigger] p[k])
}

/// A run of plain characters is read one by one.
proof fn lemma_plain_run(t: Seq<char>, from: int, end: int, depth: nat)
    requires
        0 <= from <= end <= t.len(),
        forall|k: int| from <= k < end ==> !special(#[trigger] t[k]),
        end < t.len() ==> t[end] != '*' && t[end] != '+' && t[end] != '?' && t[end] != '{',
    ensures
        grammar::stops(t, end) ==> grammar::atoms(t, from, depth) is Ok && grammar::atoms(
            t,
            from,
            depth,
        )->Ok_0.1 == end,
        !grammar::stops(t, end) && grammar::quantified(t, end, depth) is Err ==> grammar::atoms(
            t,
            from,
            depth,
        ) == Err::<(Seq<Re>, int), Seq<char>>(grammar::quantified(t, end, depth)->Err_0),
    decreases end - from,
{
    if from < end {
        let re = Re::Literal(t[from]);
        assert(!special(t[from]));
        if from + 1 < end {
            assert(!special(t[from + 1]));
        } else if end < t.len() {
            assert(t[from + 1] == t[end]);
        }
        assert(grammar::atom(t, from, depth) == Ok::<(Re, int), Seq<char>>((re, from + 1)));
        assert(grammar::quantifiers(t, from + 1, re) == Ok::<(Re, int), Seq<char>>(
            (re, from + 1),
        ));
        assert(grammar::quantified(t, from, depth) == Ok::<(Re, int), Seq<char>>((re, from + 1)));
        lemma_plain_run(t, from + 1, end, depth);
    }
}

/// What is read of a pattern whose first run of atoms is refused, or ends in
/// front of something that is no further branch.
proof fn lemma_outcome(t: Seq<char>, from: int, depth: nat)
    requires
        0 <= from <= t.len(),
    ensures
        grammar::atoms(t, from, depth) matches Err(message) ==> grammar::alternation(
            t,
            from,
            depth,
        ) == Err::<(Re, int), Seq<char>>(message),
        grammar::atoms(t, from, depth) matches Ok((_, end)) ==> (end >= t.len() || t[end] != '|'
            ==> grammar::alternation(t, from, depth) is Ok && grammar::alternation(
            t,
            from,
            depth,
        )->Ok_0.1 == end),
{
}

/// A closing parenthesis that nothing opens is refused, and its place is told.
pub proof fn law_lone_closing_parentheses_are_refused(
    p: Seq<char>,
    rest: Seq<char>,
    fold: bool,
    word: bool,
)
    requires
        plain(p),
    ensures
        pattern::compiled(p + seq![')'] + rest, fold, word) is Err,
        pattern::compiled(p + seq![')'] + rest, fold, word)->Err_0 == "unexpected '"@ + seq![')']
            + "' at position "@ + text::decimal(p.len()),
{
    let t = p + seq![')'] + rest;
    let end = p.len() as int;
    assert forall|k: int| 0 <= k < end implies !special(#[trigger] t[k]) by {
        assert(t[k] == p[k]);
    }
    assert(t[end] == ')');
    lemma_plain_run(t, 0, end, 0);
    lemma_outcome(t, 0, 0);
}

/// A parenthesis that is not closed is refused.
pub proof fn law_open_groups_are_refused(p: Seq<char>, fold: bool, word: bool)
    requires
        plain(p),
    ensures
        pattern::compiled(seq!['('] + p, fold, word) is Err,
        pattern::compiled(seq!['('] + p, fold, word)->Err_0 == "missing closing ')'"@,
{
    let t = seq!['('] + p;
    let end = t.len() as int;
    assert forall|k: int| 1 <= k < end implies !special(#[trigger] t[k]) by {
        assert(t[k] == p[k - 1]);
    }
    lemma_plain_run(t, 1, end, 1);
    lemma_outcome(t, 1, 1);
    lemma_outcome(t, 0, 0);
}

/// A backslash at the end of a pattern is refused.
pub proof fn law_dangling_escapes_are_refused(p: Seq<char>, fold: bool, word: bool)
    requires
        plain(p),
    ensures
        pattern::compiled(p + seq!['\\'], fold, word) is Err,
        pattern::compiled(p + seq!['\\'], fold, word)->Err_0
            == "dangling escape at end of pattern"@,
{
    let t = p + seq!['\\'];
    let end = p.len() as int;
    assert forall|k: int| 0 <= k < end implies !special(#[trigger] t[k]) by {
        assert(t[k] == p[k]);
    }
    assert(t[end] == '\\');
    lemma_plain_run(t, 0, end, 0);
    lemma_outcome(t, 0, 0);
}

/// A character that only stands for itself in a class.
pub open spec fn plain_member(ch: char) -> bool {
    ch != ']' && ch != '\\' && ch != '-' && ch != '^'
}

proof fn lemma_open_class(t: Seq<char>, from: int, first: bool)
    requires
        0 <= from <= t.len(),
        forall|k: int| from <= k < t.len() ==> plain_member(#[trigger] t[k]),
    ensures
        grammar::members(t, from, first) == Err::<(Seq<(char, char)>, int), Seq<char>>(
            "unclosed character class"@,
        ),
    decreases t.len() - from,
{
    if from < t.len() {
        assert(plain_member(t[from]));
        assert(from + 1 < t.len() ==> plain_member(t[from + 1]));
        lemma_open_class(t, from + 1, false);
    }
}

/// A class that is not closed is refused, in a pattern and in a glob, and so is
/// a range in it that runs backwards.
pub proof fn law_malformed_classes_are_refused(
    p: Seq<char>,
    lo: char,
    hi: char,
    rest: Seq<char>,
    fold: bool,
    word: bool,
)
    requires
        forall|k: int| 0 <= k < p.len() ==> plain_member(#[trigger] p[k]),
        plain_member(lo) && plain_member(hi),
        hi < lo,
    ensures
        pattern::compiled(seq!['['] + p, fold, word) is Err,
        pattern::compiled(seq!['['] + p, fold, word)->Err_0 == "unclosed character class"@,
        pattern::compiled_glob(seq!['['] + p, fold) is Err,
        pattern::compiled_glob(seq!['['] + p, fold)->Err_0 == "unclosed character class"@,
        pattern::compiled(seq!['[', lo, '-', hi] + rest, fold, word) is Err,
        pattern::compiled(seq!['[', lo, '-', hi] + rest, fold, word)->Err_0
            == "invalid character range '"@ + seq![lo] + "-"@ + seq![hi] + "'"@,
        pattern::compiled_glob(seq!['[', lo, '-', hi] + rest, fold) is Err,
{
    let t = seq!['['] + p;
    assert forall|k: int| 1 <= k < t.len() implies plain_member(#[trigger] t[k]) by {
        assert(t[k] == p[k - 1]);
    }
    assert(t.len() > 1 ==> plain_member(t[1]));
    lemma_open_class(t, 1, true);
    lemma_plain_run(t, 0, 0, 0);
    lemma_outcome(t, 0, 0);
    let u = seq!['[', lo, '-', hi] + rest;
    assert(u[0] == '[' && u[1] == lo && u[2] == '-' && u[3] == hi);
    lemma_plain_run(u, 0, 0, 0);
    lemma_outcome(u, 0, 0);
}

/// A quantifier with nothing in front of it stands for itself.
pub proof fn law_leading_quantifiers_are_literal(ch: char, s: Seq<char>, i: int, j: int)
    requires
        ch == '*' || ch == '+' || ch == '?' || ch == '{',
        0 <= i <= s.len(),
    ensures
        pattern::compiled(seq![ch], false, false) is Ok,
        pattern::compiled(seq![ch], false, false)->Ok_0.matches(s, i, j) <==> {
            &&& j == i + 1
            &&& j <= s.len()
            &&& s[i] == ch
        },
{
    let p = seq![ch];
    let re = Re::Literal(ch);
    assert(p[0] == ch);
    assert(grammar::atom(p, 0, 0) == Ok::<(Re, int), Seq<char>>((re, 1)));
    assert(grammar::quantifiers(p, 1, re) == Ok::<(Re, int), Seq<char>>((re, 1)));
    assert(grammar::atoms(p, 1, 0) == Ok::<(Seq<Re>, int), Seq<char>>((Seq::empty(), 1)));
    assert(seq![re] + Seq::<Re>::empty() =~= seq![re]);
    assert(grammar::atoms(p, 0, 0) == Ok::<(Seq<Re>, int), Seq<char>>((seq![re], 1)));
}

} // verus!
