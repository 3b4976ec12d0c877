//! What the syntax of patterns means, piece by piece.
//!
//! A pattern is put together from smaller ones. The laws in this module say
//! what the smallest pieces match and how the parts of a pattern make up the
//! whole, over the texts that users write.

use vstd::prelude::*;

use crate::pattern;
use crate::pattern::grammar;
use crate::pattern::grammar::MAX_REPEAT_EXPANSION;
use crate::pattern::laws;
use crate::pattern::semantics;
use crate::pattern::tree;
use crate::pattern::tree::{CharSet, Re};
use crate::pattern::Compiled;
use crate::text;

verus! {

// ---------------------------------------------------------------------------
// Parts of a pattern
// ---------------------------------------------------------------------------

/// A character that repeats what stands in front of it, or begins to.
pub open spec fn repeats(ch: char) -> bool {
    ch == '*' || ch == '+' || ch == '?' || ch == '{'
}

/// A text without the character `ch`.
pub open spec fn lacks(p: Seq<char>, ch: char) -> bool {
    forall|k: int| 0 <= k < p.len() ==> #[trigger] p[k] != ch
}

/// `p` stands in `s` at `a`.
#[verifier::opaque]
spec fn inside(p: Seq<char>, s: Seq<char>, a: int) -> bool {
    &&& 0 <= a
    &&& a + p.len() <= s.len()
    &&& forall|k: int| 0 <= k < p.len() ==> s[a + k] == #[trigger] p[k]
}

proof fn lemma_inside(p: Seq<char>, s: Seq<char>, a: int)
    requires
        embedded(p, s, a),
    ensures
        inside(p, s, a),
{
    reveal(embedded);
    reveal(inside);
}

proof fn lemma_inside_at(p: Seq<char>, s: Seq<char>, a: int, k: int)
    requires
        inside(p, s, a),
        0 <= k < p.len(),
    ensures
        0 <= a,
        a + p.len() <= s.len(),
        s[a + k] == p[k],
{
    reveal(inside);
}

/// `p` stands in `s` at `a`, and what follows it there does not change how it
/// is read.
#[verifier::opaque]
spec fn embedded(p: Seq<char>, s: Seq<char>, a: int) -> bool {
    &&& 0 <= a
    &&& a + p.len() <= s.len()
    &&& forall|k: int| 0 <= k < p.len() ==> s[a + k] == #[trigger] p[k]
    &&& a + p.len() < s.len() ==> {
        let next = s[a + p.len()];
        next == ')' || next == '|' || (!repeats(next) && lacks(p, '{'))
    }
}

proof fn lemma_at(p: Seq<char>, s: Seq<char>, a: int, k: int)
    requires
        embedded(p, s, a),
        0 <= k < p.len(),
    ensures
        0 <= a,
        a + p.len() <= s.len(),
        s[a + k] == p[k],
{
    reveal(embedded);
}

proof fn lemma_next(p: Seq<char>, s: Seq<char>, a: int)
    requires
        embedded(p, s, a),
    ensures
        0 <= a,
        a + p.len() <= s.len(),
        a + p.len() < s.len() ==> {
            let next = s[a + p.len()];
            next == ')' || next == '|' || (!repeats(next) && lacks(p, '{'))
        },
{
    reveal(embedded);
}

proof fn lemma_itself(p: Seq<char>)
    ensures
        embedded(p, p, 0),
{
    reveal(embedded);
}

proof fn lemma_part(p: Seq<char>, s: Seq<char>, a: int, i: int, j: int)
    requires
        embedded(p, s, a),
        0 <= i <= j <= p.len(),
    ensures
        s.subrange(a + i, a + j) == p.subrange(i, j),
{
    reveal(embedded);
    assert(s.subrange(a + i, a + j) =~= p.subrange(i, j));
}

proof fn lemma_digits_embedded(p: Seq<char>, s: Seq<char>, a: int, i: int)
    requires
        embedded(p, s, a),
        a + p.len() < s.len() ==> s[a + p.len()] == ')' || s[a + p.len()] == '|',
        0 <= i <= p.len(),
    ensures
        text::digits_end(s, a + i) == a + text::digits_end(p, i),
        i <= text::digits_end(p, i) <= p.len(),
        grammar::count_at(s, a + i) == grammar::count_at(p, i),
    decreases p.len() - i,
{
    lemma_next(p, s, a);
    text::lemma_digits_end(p, i);
    if i < p.len() {
        lemma_at(p, s, a, i);
        if text::is_digit(p[i]) {
            lemma_digits_embedded(p, s, a, i + 1);
        }
    }
    let end = text::digits_end(p, i);
    lemma_part(p, s, a, i, end);
}

proof fn lemma_repetition_embedded(p: Seq<char>, s: Seq<char>, a: int, i: int)
    requires
        embedded(p, s, a),
        0 <= i < p.len(),
        p[i] == '{',
    ensures
        match grammar::repetition(p, i) {
            Ok(Some((min, max, end))) => i < end <= p.len() && grammar::repetition(s, a + i)
                == Ok::<Option<(nat, Option<nat>, int)>, Seq<char>>(Some((min, max, a + end))),
            Ok(None) => grammar::repetition(s, a + i) == Ok::<
                Option<(nat, Option<nat>, int)>,
                Seq<char>,
            >(None),
            Err(message) => grammar::repetition(s, a + i) == Err::<
                Option<(nat, Option<nat>, int)>,
                Seq<char>,
            >(message),
        },
{
    lemma_next(p, s, a);
    lemma_digits_embedded(p, s, a, i + 1);
    let comma = text::digits_end(p, i + 1);
    if comma < p.len() {
        lemma_at(p, s, a, comma);
        lemma_digits_embedded(p, s, a, comma + 1);
        let end = text::digits_end(p, comma + 1);
        if end < p.len() {
            lemma_at(p, s, a, end);
        }
    }
}

proof fn lemma_quantifiers_embedded(p: Seq<char>, s: Seq<char>, a: int, i: int, re: Re)
    requires
        embedded(p, s, a),
        0 <= i <= p.len(),
        grammar::quantifiers(p, i, re) is Ok,
    ensures
        ({
            let (out, end) = grammar::quantifiers(p, i, re)->Ok_0;
            i <= end <= p.len() && grammar::quantifiers(s, a + i, re) == Ok::<
                (Re, int),
                Seq<char>,
            >((out, a + end))
        }),
    decreases p.len() - i,
{
    lemma_next(p, s, a);
    if i < p.len() {
        lemma_at(p, s, a, i);
        if p[i] == '*' {
            lemma_quantifiers_embedded(p, s, a, i + 1, Re::Star(Box::new(re)));
        } else if p[i] == '+' {
            lemma_quantifiers_embedded(p, s, a, i + 1, Re::Plus(Box::new(re)));
        } else if p[i] == '?' {
            lemma_quantifiers_embedded(p, s, a, i + 1, Re::Optional(Box::new(re)));
        } else if p[i] == '{' {
            lemma_repetition_embedded(p, s, a, i);
            match grammar::repetition(p, i) {
                Ok(Some((min, max, end))) => {
                    let many = grammar::in_sequence(grammar::expansion(re, min, max));
                    lemma_quantifiers_embedded(p, s, a, end, many);
                },
                _ => {},
            }
        }
    }
}

proof fn lemma_members_embedded(p: Seq<char>, s: Seq<char>, a: int, i: int, first: bool)
    requires
        inside(p, s, a),
        0 <= i <= p.len(),
        grammar::members(p, i, first) is Ok,
    ensures
        ({
            let (out, end) = grammar::members(p, i, first)->Ok_0;
            i < end <= p.len() && p[end - 1] == ']' && grammar::members(s, a + i, first) == Ok::<
                (Seq<(char, char)>, int),
                Seq<char>,
            >((out, a + end))
        }),
    decreases p.len() - i,
{
    lemma_inside_at(p, s, a, i);
    if p[i] == ']' && !first {
    } else if p[i] == '\\' {
        lemma_inside_at(p, s, a, i + 1);
        lemma_members_embedded(p, s, a, i + 2, false);
    } else {
        if i + 1 < p.len() {
            lemma_inside_at(p, s, a, i + 1);
        }
        if i + 2 < p.len() {
            lemma_inside_at(p, s, a, i + 2);
        }
        if grammar::range_at(p, i) {
            lemma_members_embedded(p, s, a, i + 3, false);
        } else {
            lemma_members_embedded(p, s, a, i + 1, false);
            if i + 2 >= p.len() {
                assert(grammar::members(p, i + 2, false) is Err);
                assert(p[i + 1] == ']');
            }
        }
    }
}

proof fn lemma_class_embedded(p: Seq<char>, s: Seq<char>, a: int, i: int)
    requires
        inside(p, s, a),
        0 <= i <= p.len(),
        grammar::class(p, i) is Ok,
    ensures
        ({
            let (out, end) = grammar::class(p, i)->Ok_0;
            i < end <= p.len() && p[end - 1] == ']' && grammar::class(s, a + i) == Ok::<
                (Re, int),
                Seq<char>,
            >((out, a + end))
        }),
{
    if i < p.len() {
        lemma_inside_at(p, s, a, i);
        let from = if p[i] == '^' {
            i + 1
        } else {
            i
        };
        lemma_members_embedded(p, s, a, from, true);
    }
}

/// What a part of a pattern gives where it stands in a larger one: the same, or
/// the complaint that groups are nested too deeply.
spec fn agrees<A>(
    got: Result<(A, int), Seq<char>>,
    want: Result<(A, int), Seq<char>>,
    a: int,
    depth: nat,
    there: nat,
) -> bool {
    &&& got is Ok ==> got == Ok::<(A, int), Seq<char>>((want->Ok_0.0, a + want->Ok_0.1))
    &&& there <= depth ==> got is Ok
}

/// What an atom that opens with a bracket is.
proof fn lemma_group(p: Seq<char>, i: int, depth: nat)
    requires
        0 <= i < p.len(),
        p[i] == '(',
    ensures
        grammar::atom(p, i, depth) is Ok ==> depth + 1 < grammar::MAX_PATTERN_DEPTH,
        depth + 1 < grammar::MAX_PATTERN_DEPTH ==> ({
            let inner = grammar::alternation(p, i + 1, depth + 1);
            let closed = inner is Ok && inner->Ok_0.1 < p.len() && p[inner->Ok_0.1] == ')';
            &&& grammar::atom(p, i, depth) is Ok <==> closed
            &&& closed ==> grammar::atom(p, i, depth) == Ok::<(Re, int), Seq<char>>(
                (inner->Ok_0.0, inner->Ok_0.1 + 1),
            )
        }),
{
}

#[verifier::spinoff_prover]
proof fn lemma_group_embedded(
    p: Seq<char>,
    s: Seq<char>,
    a: int,
    i: int,
    depth: nat,
    there: nat,
)
    requires
        embedded(p, s, a),
        0 <= i < p.len(),
        p[i] == '(',
        grammar::atom(p, i, depth) is Ok,
    ensures
        i < grammar::atom(p, i, depth)->Ok_0.1 <= p.len(),
        agrees(
            grammar::atom(s, a + i, there),
            grammar::atom(p, i, depth),
            a,
            depth,
            there,
        ),
    decreases p.len() - i, 0nat,
{
    lemma_at(p, s, a, i);
    lemma_group(p, i, depth);
    lemma_group(s, a + i, there);
    let (re, end) = grammar::alternation(p, i + 1, depth + 1)->Ok_0;
    lemma_alternation_bounds(p, i + 1, depth + 1);
    lemma_at(p, s, a, end);
    lemma_alternation_embedded(p, s, a, i + 1, depth + 1, there + 1);
    assert(a + i + 1 == a + (i + 1));
}

#[verifier::spinoff_prover]
proof fn lemma_atom_embedded(
    p: Seq<char>,
    s: Seq<char>,
    a: int,
    i: int,
    depth: nat,
    there: nat,
)
    requires
        embedded(p, s, a),
        0 <= i < p.len(),
        grammar::atom(p, i, depth) is Ok,
    ensures
        i < grammar::atom(p, i, depth)->Ok_0.1 <= p.len(),
        agrees(
            grammar::atom(s, a + i, there),
            grammar::atom(p, i, depth),
            a,
            depth,
            there,
        ),
    decreases p.len() - i, 1nat,
{
    lemma_at(p, s, a, i);
    if p[i] == '(' {
        lemma_group_embedded(p, s, a, i, depth, there);
    } else if p[i] == '[' {
        lemma_inside(p, s, a);
        lemma_class_embedded(p, s, a, i + 1);
        assert(a + i + 1 == a + (i + 1));
    } else if p[i] == '\\' {
        lemma_at(p, s, a, i + 1);
    }
}

proof fn lemma_quantified_embedded(
    p: Seq<char>,
    s: Seq<char>,
    a: int,
    i: int,
    depth: nat,
    there: nat,
)
    requires
        embedded(p, s, a),
        0 <= i < p.len(),
        grammar::quantified(p, i, depth) is Ok,
    ensures
        i < grammar::quantified(p, i, depth)->Ok_0.1 <= p.len(),
        agrees(
            grammar::quantified(s, a + i, there),
            grammar::quantified(p, i, depth),
            a,
            depth,
            there,
        ),
    decreases p.len() - i, 2nat,
{
    lemma_atom_embedded(p, s, a, i, depth, there);
    let (re, end) = grammar::atom(p, i, depth)->Ok_0;
    lemma_quantifiers_embedded(p, s, a, end, re);
}

/// The end of a part lies in the part.
proof fn lemma_alternation_bounds(p: Seq<char>, i: int, depth: nat)
    requires
        0 <= i <= p.len(),
        grammar::alternation(p, i, depth) is Ok,
    ensures
        i <= grammar::alternation(p, i, depth)->Ok_0.1 <= p.len(),
    decreases p.len() - i, 5nat,
{
    lemma_branches_bounds(p, i, depth);
}

proof fn lemma_branches_bounds(p: Seq<char>, i: int, depth: nat)
    requires
        0 <= i <= p.len(),
        grammar::branches(p, i, depth) is Ok,
    ensures
        i <= grammar::branches(p, i, depth)->Ok_0.1 <= p.len(),
        grammar::branches(p, i, depth)->Ok_0.0.len() >= 1,
    decreases p.len() - i, 4nat,
{
    lemma_atoms_bounds(p, i, depth);
    let (re, end) = grammar::concatenation(p, i, depth)->Ok_0;
    if end < p.len() && p[end] == '|' {
        lemma_branches_bounds(p, end + 1, depth);
    }
}

proof fn lemma_atoms_bounds(p: Seq<char>, i: int, depth: nat)
    requires
        0 <= i <= p.len(),
        grammar::atoms(p, i, depth) is Ok,
    ensures
        i <= grammar::atoms(p, i, depth)->Ok_0.1 <= p.len(),
        grammar::stops(p, grammar::atoms(p, i, depth)->Ok_0.1),
    decreases p.len() - i, 2nat,
{
    if !grammar::stops(p, i) {
        lemma_atom_bounds(p, i, depth);
        let (atom, mid) = grammar::atom(p, i, depth)->Ok_0;
        lemma_quantifiers_bounds(p, mid, atom);
        let (re, end) = grammar::quantified(p, i, depth)->Ok_0;
        lemma_atoms_bounds(p, end, depth);
    }
}

proof fn lemma_atom_bounds(p: Seq<char>, i: int, depth: nat)
    requires
        0 <= i < p.len(),
        grammar::atom(p, i, depth) is Ok,
    ensures
        i < grammar::atom(p, i, depth)->Ok_0.1 <= p.len(),
    decreases p.len() - i, 0nat,
{
    if p[i] == '(' {
        lemma_alternation_bounds(p, i + 1, depth + 1);
    } else if p[i] == '[' {
        lemma_itself(p);
        lemma_inside(p, p, 0);
        lemma_class_embedded(p, p, 0, i + 1);
    }
}

proof fn lemma_quantifiers_bounds(p: Seq<char>, i: int, re: Re)
    requires
        0 <= i <= p.len(),
        grammar::quantifiers(p, i, re) is Ok,
    ensures
        i <= grammar::quantifiers(p, i, re)->Ok_0.1 <= p.len(),
{
    lemma_itself(p);
    lemma_quantifiers_embedded(p, p, 0, i, re);
}

proof fn lemma_atoms_embedded(
    p: Seq<char>,
    s: Seq<char>,
    a: int,
    i: int,
    depth: nat,
    there: nat,
)
    requires
        embedded(p, s, a),
        0 <= i <= p.len(),
        grammar::atoms(p, i, depth) is Ok,
        grammar::atoms(p, i, depth)->Ok_0.1 < p.len() || grammar::stops(s, a + p.len()),
    ensures
        agrees(
            grammar::atoms(s, a + i, there),
            grammar::atoms(p, i, depth),
            a,
            depth,
            there,
        ),
    decreases p.len() - i, 3nat,
{
    lemma_next(p, s, a);
    if i < p.len() {
        lemma_at(p, s, a, i);
    }
    if !grammar::stops(p, i) {
        lemma_quantified_embedded(p, s, a, i, depth, there);
        let (re, end) = grammar::quantified(p, i, depth)->Ok_0;
        lemma_atoms_embedded(p, s, a, end, depth, there);
    }
}

proof fn lemma_concatenation_embedded(
    p: Seq<char>,
    s: Seq<char>,
    a: int,
    i: int,
    depth: nat,
    there: nat,
)
    requires
        embedded(p, s, a),
        0 <= i <= p.len(),
        grammar::concatenation(p, i, depth) is Ok,
        grammar::concatenation(p, i, depth)->Ok_0.1 < p.len() || grammar::stops(s, a + p.len()),
    ensures
        i <= grammar::concatenation(p, i, depth)->Ok_0.1 <= p.len(),
        agrees(
            grammar::concatenation(s, a + i, there),
            grammar::concatenation(p, i, depth),
            a,
            depth,
            there,
        ),
    decreases p.len() - i, 4nat,
{
    lemma_atoms_bounds(p, i, depth);
    lemma_atoms_embedded(p, s, a, i, depth, there);
}

/// The branches behind the first one.
proof fn lemma_more_branches(p: Seq<char>, i: int, depth: nat)
    requires
        0 <= i <= p.len(),
        grammar::branches(p, i, depth) is Ok,
    ensures
        grammar::concatenation(p, i, depth) is Ok,
        ({
            let (re, end) = grammar::concatenation(p, i, depth)->Ok_0;
            let all = grammar::branches(p, i, depth)->Ok_0;
            if i <= end < p.len() && p[end] == '|' {
                let rest = grammar::branches(p, end + 1, depth);
                rest is Ok && all == (seq![re] + rest->Ok_0.0, rest->Ok_0.1)
            } else {
                all == (seq![re], end)
            }
        }),
{
}

#[verifier::spinoff_prover]
proof fn lemma_branches_embedded(
    p: Seq<char>,
    s: Seq<char>,
    a: int,
    i: int,
    depth: nat,
    there: nat,
)
    requires
        embedded(p, s, a),
        0 <= i <= p.len(),
        grammar::branches(p, i, depth) is Ok,
        grammar::branches(p, i, depth)->Ok_0.1 < p.len() || (a + p.len() < s.len()
            ==> s[a + p.len()] == ')'),
    ensures
        agrees(
            grammar::branches(s, a + i, there),
            grammar::branches(p, i, depth),
            a,
            depth,
            there,
        ),
    decreases p.len() - i, 5nat,
{
    lemma_next(p, s, a);
    lemma_more_branches(p, i, depth);
    let (re, end) = grammar::concatenation(p, i, depth)->Ok_0;
    lemma_atoms_bounds(p, i, depth);
    if end < p.len() && p[end] == '|' {
        lemma_at(p, s, a, end);
        lemma_concatenation_embedded(p, s, a, i, depth, there);
        lemma_branches_embedded(p, s, a, end + 1, depth, there);
        assert(a + end + 1 == a + (end + 1));
    } else {
        if end < p.len() {
            lemma_at(p, s, a, end);
        }
        lemma_concatenation_embedded(p, s, a, i, depth, there);
    }
}

proof fn lemma_alternation_embedded(
    p: Seq<char>,
    s: Seq<char>,
    a: int,
    i: int,
    depth: nat,
    there: nat,
)
    requires
        embedded(p, s, a),
        0 <= i <= p.len(),
        grammar::alternation(p, i, depth) is Ok,
        grammar::alternation(p, i, depth)->Ok_0.1 < p.len() || (a + p.len() < s.len()
            ==> s[a + p.len()] == ')'),
    ensures
        agrees(
            grammar::alternation(s, a + i, there),
            grammar::alternation(p, i, depth),
            a,
            depth,
            there,
        ),
    decreases p.len() - i, 6nat,
{
    lemma_branches_embedded(p, s, a, i, depth, there);
}

/// A pattern of a single item.
proof fn lemma_single(p: Seq<char>, re: Re)
    requires
        p.len() > 0,
        !grammar::stops(p, 0),
        grammar::quantified(p, 0, 0) == Ok::<(Re, int), Seq<char>>((re, p.len() as int)),
    ensures
        grammar::meaning(p) == Ok::<Re, Seq<char>>(re),
{
    let end = p.len() as int;
    assert(grammar::atoms(p, end, 0) == Ok::<(Seq<Re>, int), Seq<char>>((Seq::empty(), end)));
    assert(seq![re] + Seq::<Re>::empty() =~= seq![re]);
    assert(grammar::atoms(p, 0, 0) == Ok::<(Seq<Re>, int), Seq<char>>((seq![re], end)));
    assert(grammar::concatenation(p, 0, 0) == Ok::<(Re, int), Seq<char>>((re, end)));
    assert(grammar::branches(p, 0, 0) == Ok::<(Seq<Re>, int), Seq<char>>((seq![re], end)));
    assert(grammar::alternation(p, 0, 0) == Ok::<(Re, int), Seq<char>>((re, end)));
}

/// A pattern of a single atom.
proof fn lemma_single_atom(p: Seq<char>, re: Re)
    requires
        p.len() > 0,
        !grammar::stops(p, 0),
        grammar::atom(p, 0, 0) == Ok::<(Re, int), Seq<char>>((re, p.len() as int)),
    ensures
        grammar::meaning(p) == Ok::<Re, Seq<char>>(re),
{
    let end = p.len() as int;
    assert(grammar::quantifiers(p, end, re) == Ok::<(Re, int), Seq<char>>((re, end)));
    lemma_single(p, re);
}

// ---------------------------------------------------------------------------
// Characters
// ---------------------------------------------------------------------------

/// `.` matches one character, whichever it is, unless it is a line break.
pub proof fn law_dot_matches_any_character(fold: bool, s: Seq<char>, i: int, j: int)
    requires
        0 <= i <= s.len(),
    ensures
        pattern::compiled(seq!['.'], fold, false) is Ok,
        pattern::compiled(seq!['.'], fold, false)->Ok_0.matches(s, i, j) <==> {
            &&& j == i + 1
            &&& j <= s.len()
            &&& s[i] != '\n'
        },
{
    lemma_single_atom(seq!['.'], Re::AnyChar);
}

/// `^` matches the empty stretch at the start of the line and nothing else, `$`
/// the one at its end, and `\b` the one between a word character, which is
/// alphanumeric or an underscore, and something else, the ends of the line
/// included.
pub proof fn law_anchors_and_boundaries(fold: bool, s: Seq<char>, i: int, j: int)
    requires
        0 <= i <= s.len(),
    ensures
        pattern::compiled(seq!['^'], fold, false) is Ok,
        pattern::compiled(seq!['^'], fold, false)->Ok_0.matches(s, i, j) <==> i == 0 && j == 0,
        pattern::compiled(seq!['$'], fold, false) is Ok,
        pattern::compiled(seq!['$'], fold, false)->Ok_0.matches(s, i, j) <==> {
            &&& i == s.len()
            &&& j == s.len()
        },
        pattern::compiled(seq!['\\', 'b'], fold, false) is Ok,
        pattern::compiled(seq!['\\', 'b'], fold, false)->Ok_0.matches(s, i, j) <==> {
            let before = i > 0 && (tree::alphanumeric(s[i - 1]) || s[i - 1] == '_');
            let behind = i < s.len() && (tree::alphanumeric(s[i]) || s[i] == '_');
            i == j && before != behind
        },
{
    lemma_single_atom(seq!['^'], Re::StartAnchor);
    lemma_single_atom(seq!['$'], Re::EndAnchor);
    lemma_single_atom(seq!['\\', 'b'], Re::WordBoundary);
}

/// What a backslash in front of a small letter stands for, where it is a class.
pub open spec fn in_class(letter: char, ch: char) -> bool {
    if letter == 'd' {
        '0' <= ch && ch <= '9'
    } else if letter == 'w' {
        ('0' <= ch && ch <= '9') || ('a' <= ch && ch <= 'z') || ('A' <= ch && ch <= 'Z') || ch
            == '_'
    } else {
        ch == ' ' || ch == '\t' || ch == '\r' || ch == '\n'
    }
}

proof fn lemma_class_ranges(ch: char)
    ensures
        tree::in_ranges(tree::digit_ranges(), ch) <==> in_class('d', ch),
        tree::in_ranges(tree::word_ranges(), ch) <==> in_class('w', ch),
        tree::in_ranges(tree::space_ranges(), ch) <==> in_class('s', ch),
{
    let d = tree::digit_ranges();
    assert(d[0] == ('0', '9'));
    let w = tree::word_ranges();
    assert(w[0] == ('a', 'z') && w[1] == ('A', 'Z') && w[2] == ('0', '9') && w[3] == ('_', '_'));
    let b = tree::space_ranges();
    assert(b[0] == (' ', ' ') && b[1] == ('\t', '\t') && b[2] == ('\r', '\r'));
    assert(b[3] == ('\n', '\n'));
}

/// `\d`, `\w` and `\s` match exactly one ASCII digit, one ASCII letter, digit or
/// underscore, and one blank, tab, carriage return or line break. Where case is
/// folded, a character whose folded form is one of these counts as well.
pub proof fn law_small_classes(letter: char, fold: bool, ch: char)
    requires
        letter == 'd' || letter == 'w' || letter == 's',
    ensures
        pattern::compiled(seq!['\\', letter], fold, false) is Ok,
        pattern::compiled(seq!['\\', letter], fold, false)->Ok_0.matches(seq![ch], 0, 1) <==> {
            ||| in_class(letter, ch)
            ||| fold && in_class(letter, tree::folded(ch))
        },
{
    let p = seq!['\\', letter];
    lemma_single_atom(p, grammar::escape(letter));
    lemma_class_ranges(ch);
    lemma_class_ranges(tree::folded(ch));
}

/// A class letter in upper case is the opposite of the one in lower case: `\D`
/// matches a character exactly where `\d` does not, `\W` where `\w` does not and
/// `\S` where `\s` does not.
pub proof fn law_capital_classes_are_opposites(
    small: char,
    capital: char,
    fold: bool,
    s: Seq<char>,
    i: int,
    j: int,
)
    requires
        (small == 'd' && capital == 'D') || (small == 'w' && capital == 'W') || (small == 's'
            && capital == 'S'),
        0 <= i <= s.len(),
    ensures
        pattern::compiled(seq!['\\', small], fold, false) is Ok,
        pattern::compiled(seq!['\\', capital], fold, false) is Ok,
        pattern::compiled(seq!['\\', capital], fold, false)->Ok_0.matches(s, i, j) <==> {
            &&& j == i + 1
            &&& j <= s.len()
            &&& !pattern::compiled(seq!['\\', small], fold, false)->Ok_0.matches(s, i, j)
        },
        pattern::compiled(seq!['\\', small], fold, false)->Ok_0.matches(s, i, j) ==> {
            &&& j == i + 1
            &&& j <= s.len()
            &&& pattern::compiled(seq!['\\', small], fold, false)->Ok_0.matches(
                seq![s[i]],
                0,
                1,
            )
        },
{
    lemma_single_atom(seq!['\\', small], grammar::escape(small));
    lemma_single_atom(seq!['\\', capital], grammar::escape(capital));
}

/// Every other escaped character matches itself, metacharacters among them; but
/// `n`, `t`, `r` and `0` stand for a line break, a tab, a carriage return and a
/// null character. Case is folded as everywhere.
pub proof fn law_escapes(ch: char, fold: bool, s: Seq<char>, i: int, j: int)
    requires
        ch != 'b' && ch != 'd' && ch != 'D' && ch != 'w' && ch != 'W' && ch != 's' && ch != 'S',
        0 <= i <= s.len(),
    ensures
        pattern::compiled(seq!['\\', ch], fold, false) is Ok,
        pattern::compiled(seq!['\\', ch], fold, false)->Ok_0.matches(s, i, j) <==> {
            let meant = if ch == 'n' {
                '\n'
            } else if ch == 't' {
                '\t'
            } else if ch == 'r' {
                '\r'
            } else if ch == '0' {
                '\0'
            } else {
                ch
            };
            &&& j == i + 1
            &&& j <= s.len()
            &&& s[i] == meant || (fold && tree::folded(s[i]) == tree::folded(meant))
        },
{
    lemma_single_atom(seq!['\\', ch], grammar::escape(ch));
}

// ---------------------------------------------------------------------------
// Alternatives, groups and sequences
// ---------------------------------------------------------------------------

/// A well-formed pattern is read to its end.
proof fn lemma_meaning(p: Seq<char>)
    requires
        grammar::meaning(p) is Ok,
    ensures
        grammar::alternation(p, 0, 0) == Ok::<(Re, int), Seq<char>>(
            (grammar::meaning(p)->Ok_0, p.len() as int),
        ),
        grammar::branches(p, 0, 0) is Ok,
        grammar::branches(p, 0, 0)->Ok_0.1 == p.len(),
        grammar::branches(p, 0, 0)->Ok_0.0.len() >= 1,
{
    lemma_alternation_bounds(p, 0, 0);
    lemma_branches_bounds(p, 0, 0);
}

/// The expression of some branches.
spec fn either(list: Seq<Re>) -> Re {
    if list.len() == 1 {
        list[0]
    } else {
        Re::Alternate(list)
    }
}

proof fn lemma_either(list: Seq<Re>, fold: bool, s: Seq<char>, i: int, j: int)
    ensures
        list.len() >= 1 ==> (semantics::matches(either(list), fold, s, i, j) <==> exists|b: int|
            0 <= b < list.len() && semantics::matches(#[trigger] list[b], fold, s, i, j)),
{
    if list.len() == 1 {
        if semantics::matches(list[0], fold, s, i, j) {
            assert(0 <= 0 < list.len() && semantics::matches(list[0], fold, s, i, j));
        }
    } else if list.len() > 1 {
        if exists|b: int|
            0 <= b < list.len() && semantics::matches(#[trigger] list[b], fold, s, i, j) {
            let b = choose|b: int|
                0 <= b < list.len() && semantics::matches(#[trigger] list[b], fold, s, i, j);
            semantics::lemma_branch(list, b, fold, s, i, j);
        }
        if semantics::matches(Re::Alternate(list), fold, s, i, j) {
            let re = Re::Alternate(list);
            let b = choose|b: int|
                0 <= b < re->Alternate_0.len() && semantics::matches(
                    #[trigger] re->Alternate_0[b],
                    fold,
                    s,
                    i,
                    j,
                );
            assert(semantics::matches(list[b], fold, s, i, j));
        }
    }
}

/// The branches of `p|q` from `i` on are those of `p` from there and those of
/// `q`.
#[verifier::spinoff_prover]
#[verifier::rlimit(40)]
proof fn lemma_branches_joined(p: Seq<char>, q: Seq<char>, i: int)
    requires
        0 <= i <= p.len(),
        grammar::branches(p, i, 0) is Ok,
        grammar::branches(p, i, 0)->Ok_0.1 == p.len(),
        grammar::branches(q, 0, 0) is Ok,
        grammar::branches(q, 0, 0)->Ok_0.1 == q.len(),
    ensures
        ({
            let s = p + seq!['|'] + q;
            grammar::branches(s, i, 0) == Ok::<(Seq<Re>, int), Seq<char>>(
                (
                    grammar::branches(p, i, 0)->Ok_0.0 + grammar::branches(q, 0, 0)->Ok_0.0,
                    s.len() as int,
                ),
            )
        }),
    decreases p.len() - i,
{
    let s = p + seq!['|'] + q;
    let cut = p.len() as int;
    assert(embedded(p, s, 0)) by {
        reveal(embedded);
    }
    assert(embedded(q, s, cut + 1)) by {
        reveal(embedded);
    }
    assert(s[cut] == '|');
    lemma_more_branches(p, i, 0);
    let (re, end) = grammar::concatenation(p, i, 0)->Ok_0;
    lemma_atoms_bounds(p, i, 0);
    lemma_branches_embedded(q, s, cut + 1, 0, 0, 0);
    let more = grammar::branches(q, 0, 0)->Ok_0.0;
    if end < p.len() {
        lemma_at(p, s, 0, end);
    }
    lemma_concatenation_embedded(p, s, 0, i, 0, 0);
    assert(grammar::concatenation(s, i, 0) == Ok::<(Re, int), Seq<char>>((re, end)));
    if end < p.len() && p[end] == '|' {
        lemma_branches_joined(p, q, end + 1);
        let rest = grammar::branches(p, end + 1, 0)->Ok_0.0;
        assert(seq![re] + (rest + more) =~= seq![re] + rest + more);
    } else {
        assert(end == cut);
        assert(grammar::branches(s, cut + 1, 0) == Ok::<(Seq<Re>, int), Seq<char>>(
            (more, s.len() as int),
        ));
    }
}

/// `p|q` matches what `p` matches and what `q` matches, and nothing else.
pub proof fn law_alternatives_match_what_either_matches(
    p: Seq<char>,
    q: Seq<char>,
    fold: bool,
    s: Seq<char>,
    i: int,
    j: int,
)
    requires
        pattern::compiled(p, fold, false) is Ok,
        pattern::compiled(q, fold, false) is Ok,
    ensures
        pattern::compiled(p + seq!['|'] + q, fold, false) is Ok,
        pattern::compiled(p + seq!['|'] + q, fold, false)->Ok_0.matches(s, i, j) <==> {
            ||| pattern::compiled(p, fold, false)->Ok_0.matches(s, i, j)
            ||| pattern::compiled(q, fold, false)->Ok_0.matches(s, i, j)
        },
{
    let t = p + seq!['|'] + q;
    lemma_meaning(p);
    lemma_meaning(q);
    lemma_branches_joined(p, q, 0);
    let (a, b) = (grammar::branches(p, 0, 0)->Ok_0.0, grammar::branches(q, 0, 0)->Ok_0.0);
    let all = a + b;
    assert(grammar::meaning(t) == Ok::<Re, Seq<char>>(either(all)));
    lemma_either(a, fold, s, i, j);
    lemma_either(b, fold, s, i, j);
    lemma_either(all, fold, s, i, j);
    if semantics::matches(either(all), fold, s, i, j) {
        let k = choose|k: int|
            0 <= k < all.len() && semantics::matches(#[trigger] all[k], fold, s, i, j);
        if k < a.len() {
            assert(semantics::matches(a[k], fold, s, i, j));
        } else {
            assert(semantics::matches(b[k - a.len()], fold, s, i, j));
        }
    }
    if semantics::matches(either(a), fold, s, i, j) {
        let k = choose|k: int|
            0 <= k < a.len() && semantics::matches(#[trigger] a[k], fold, s, i, j);
        assert(semantics::matches(all[k], fold, s, i, j));
    }
    if semantics::matches(either(b), fold, s, i, j) {
        let k = choose|k: int|
            0 <= k < b.len() && semantics::matches(#[trigger] b[k], fold, s, i, j);
        assert(semantics::matches(all[a.len() + k], fold, s, i, j));
    }
}

/// `p` in round brackets.
pub open spec fn group(p: Seq<char>) -> Seq<char> {
    seq!['('] + p + seq![')']
}

/// A group is an atom that means what stands in the brackets.
#[verifier::spinoff_prover]
#[verifier::rlimit(40)]
proof fn lemma_group_atom(p: Seq<char>, s: Seq<char>, a: int, depth: nat)
    requires
        grammar::meaning(p) is Ok,
        0 <= a,
        a + p.len() + 2 <= s.len(),
        s.subrange(a, a + p.len() + 2) == group(p),
    ensures
        grammar::atom(s, a, depth) is Ok ==> grammar::atom(s, a, depth) == Ok::<
            (Re, int),
            Seq<char>,
        >((grammar::meaning(p)->Ok_0, a + p.len() + 2)),
{
    let part = s.subrange(a, a + p.len() + 2);
    assert(part[0] == s[a] && part[0] == '(');
    let n = p.len() as int;
    assert(part[n + 1] == s[a + n + 1] && part[n + 1] == ')');
    assert(embedded(p, s, a + 1)) by {
        reveal(embedded);
        assert forall|k: int| 0 <= k < p.len() implies s[a + 1 + k] == #[trigger] p[k] by {
            assert(part[k + 1] == s[a + 1 + k]);
            assert(group(p)[k + 1] == p[k]);
        }
    }
    lemma_meaning(p);
    lemma_group(s, a, depth);
    lemma_alternation_embedded(p, s, a + 1, 0, 0, depth + 1);
}

/// Brackets group and do nothing else: `(p)` matches what `p` matches, unless
/// it is refused for nesting groups too deeply.
pub proof fn law_groups_match_what_they_hold(
    p: Seq<char>,
    fold: bool,
    s: Seq<char>,
    i: int,
    j: int,
)
    requires
        pattern::compiled(p, fold, false) is Ok,
        pattern::compiled(group(p), fold, false) is Ok,
    ensures
        pattern::compiled(group(p), fold, false)->Ok_0.matches(s, i, j) <==> pattern::compiled(
            p,
            fold,
            false,
        )->Ok_0.matches(s, i, j),
{
    let t = group(p);
    let re = grammar::meaning(p)->Ok_0;
    assert(t.subrange(0, 0int + p.len() + 2) =~= t);
    lemma_group_atom(p, t, 0, 0);
    lemma_meaning(t);
    assert(grammar::concatenation(t, 0, 0) is Ok) by {
        lemma_more_branches(t, 0, 0);
    }
    assert(grammar::atom(t, 0, 0) is Ok);
    lemma_single_atom(t, re);
}

/// The atoms of `p` and `q`, written one after the other.
proof fn lemma_atoms_joined(p: Seq<char>, q: Seq<char>, i: int)
    requires
        0 <= i <= p.len(),
        grammar::atoms(p, i, 0) is Ok,
        grammar::atoms(p, i, 0)->Ok_0.1 == p.len(),
        lacks(p, '{'),
        q.len() > 0 ==> !repeats(q[0]),
    ensures
        grammar::atoms(p + q, i, 0) == grammar::prepend(
            grammar::atoms(p, i, 0)->Ok_0.0,
            grammar::atoms(p + q, p.len() as int, 0),
        ),
    decreases p.len() - i,
{
    let s = p + q;
    let cut = p.len() as int;
    let more = grammar::atoms(s, cut, 0);
    assert(embedded(p, s, 0)) by {
        reveal(embedded);
    }
    if i < p.len() {
        lemma_at(p, s, 0, i);
        if grammar::stops(p, i) {
        } else {
            lemma_quantified_embedded(p, s, 0, i, 0, 0);
            let (re, end) = grammar::quantified(p, i, 0)->Ok_0;
            lemma_atoms_joined(p, q, end);
            let rest = grammar::atoms(p, end, 0)->Ok_0.0;
            if more is Ok {
                assert(seq![re] + (rest + more->Ok_0.0) =~= seq![re] + rest + more->Ok_0.0);
            }
        }
    } else {
        if more is Ok {
            assert(Seq::<Re>::empty() + more->Ok_0.0 =~= more->Ok_0.0);
        }
    }
}

/// A pattern without `|` is one sequence of atoms.
proof fn lemma_one_branch(p: Seq<char>)
    requires
        grammar::meaning(p) is Ok,
        lacks(p, '|'),
    ensures
        grammar::atoms(p, 0, 0) is Ok,
        grammar::atoms(p, 0, 0)->Ok_0.1 == p.len(),
        grammar::meaning(p)->Ok_0 == grammar::in_sequence(grammar::atoms(p, 0, 0)->Ok_0.0),
{
    lemma_meaning(p);
    lemma_more_branches(p, 0, 0);
    lemma_atoms_bounds(p, 0, 0);
}

proof fn lemma_sequence_append(
    a: Seq<Re>,
    b: Seq<Re>,
    from: int,
    fold: bool,
    s: Seq<char>,
    i: int,
    j: int,
)
    requires
        0 <= from <= a.len(),
        0 <= i <= s.len(),
    ensures
        semantics::sequence(a + b, from, fold, s, i, j) <==> exists|k: int| #[trigger]
            semantics::position(s, k) && semantics::sequence(a, from, fold, s, i, k)
                && semantics::sequence(b, 0, fold, s, k, j),
    decreases a.len() - from,
{
    let all = a + b;
    if from == a.len() {
        lemma_sequence_behind(a, b, 0, fold, s, i, j);
        if semantics::sequence(all, from, fold, s, i, j) {
            assert(semantics::position(s, i) && semantics::sequence(a, from, fold, s, i, i));
        }
    } else {
        assert(all[from] == a[from]);
        if semantics::sequence(all, from, fold, s, i, j) {
            let m = semantics::lemma_sequence_split(all, from, fold, s, i, j);
            lemma_sequence_append(a, b, from + 1, fold, s, m, j);
            let k = choose|k: int| #[trigger]
                semantics::position(s, k) && semantics::sequence(a, from + 1, fold, s, m, k)
                    && semantics::sequence(b, 0, fold, s, k, j);
            semantics::lemma_sequence_step(a, from, fold, s, i, m, k);
            assert(semantics::position(s, k));
        }
        if exists|k: int| #[trigger]
            semantics::position(s, k) && semantics::sequence(a, from, fold, s, i, k)
                && semantics::sequence(b, 0, fold, s, k, j) {
            let k = choose|k: int| #[trigger]
                semantics::position(s, k) && semantics::sequence(a, from, fold, s, i, k)
                    && semantics::sequence(b, 0, fold, s, k, j);
            let m = semantics::lemma_sequence_split(a, from, fold, s, i, k);
            lemma_sequence_append(a, b, from + 1, fold, s, m, j);
            assert(semantics::position(s, k));
            semantics::lemma_sequence_step(all, from, fold, s, i, m, j);
        }
    }
}

proof fn lemma_sequence_behind(
    a: Seq<Re>,
    b: Seq<Re>,
    n: int,
    fold: bool,
    s: Seq<char>,
    i: int,
    j: int,
)
    requires
        0 <= n <= b.len(),
    ensures
        semantics::sequence(a + b, a.len() + n, fold, s, i, j) <==> semantics::sequence(
            b,
            n,
            fold,
            s,
            i,
            j,
        ),
    decreases b.len() - n,
{
    let all = a + b;
    let at = a.len() + n;
    if n < b.len() {
        assert(all[at] == b[n]);
        if semantics::sequence(all, at, fold, s, i, j) {
            let k = semantics::lemma_sequence_split(all, at, fold, s, i, j);
            lemma_sequence_behind(a, b, n + 1, fold, s, k, j);
            assert(semantics::position(s, k));
        }
        if semantics::sequence(b, n, fold, s, i, j) {
            let k = semantics::lemma_sequence_split(b, n, fold, s, i, j);
            lemma_sequence_behind(a, b, n + 1, fold, s, k, j);
            assert(semantics::position(s, k));
        }
    }
}

/// Patterns one after the other match stretches one after the other: `pq`
/// matches what can be cut in two so that `p` matches the first part and `q` the
/// second. Neither may hold a `|`, which would reach over both; no brace of `p`
/// may find its other half in `q`, and `q` may not begin by repeating what `p`
/// ends with.
pub proof fn law_sequences_match_in_turn(
    p: Seq<char>,
    q: Seq<char>,
    fold: bool,
    s: Seq<char>,
    i: int,
    j: int,
)
    requires
        pattern::compiled(p, fold, false) is Ok,
        pattern::compiled(q, fold, false) is Ok,
        lacks(p, '|') && lacks(q, '|') && lacks(p, '{'),
        q.len() > 0 ==> !repeats(q[0]),
        0 <= i <= s.len(),
    ensures
        pattern::compiled(p + q, fold, false) is Ok,
        pattern::compiled(p + q, fold, false)->Ok_0.matches(s, i, j) <==> exists|k: int|
            i <= k <= j && #[trigger] pattern::compiled(p, fold, false)->Ok_0.matches(s, i, k)
                && pattern::compiled(q, fold, false)->Ok_0.matches(s, k, j),
{
    let t = p + q;
    let cut = p.len() as int;
    let end = t.len() as int;
    lemma_one_branch(p);
    lemma_one_branch(q);
    let (a, b) = (grammar::atoms(p, 0, 0)->Ok_0.0, grammar::atoms(q, 0, 0)->Ok_0.0);
    lemma_atoms_joined(p, q, 0);
    assert(embedded(q, t, cut)) by {
        reveal(embedded);
    }
    lemma_atoms_embedded(q, t, cut, 0, 0, 0);
    assert(grammar::atoms(t, cut, 0) == Ok::<(Seq<Re>, int), Seq<char>>((b, end)));
    let re = grammar::in_sequence(a + b);
    assert(grammar::concatenation(t, 0, 0) == Ok::<(Re, int), Seq<char>>((re, end)));
    assert(grammar::branches(t, 0, 0) == Ok::<(Seq<Re>, int), Seq<char>>((seq![re], end)));
    assert(grammar::alternation(t, 0, 0) == Ok::<(Re, int), Seq<char>>((re, end)));
    laws::lemma_in_sequence(a + b, fold, s, i, j);
    lemma_sequence_append(a, b, 0, fold, s, i, j);
    let (cp, cq) = (
        pattern::compiled(p, fold, false)->Ok_0,
        pattern::compiled(q, fold, false)->Ok_0,
    );
    if semantics::sequence(a + b, 0, fold, s, i, j) {
        let k = choose|k: int| #[trigger]
            semantics::position(s, k) && semantics::sequence(a, 0, fold, s, i, k)
                && semantics::sequence(b, 0, fold, s, k, j);
        laws::lemma_in_sequence(a, fold, s, i, k);
        laws::lemma_in_sequence(b, fold, s, k, j);
        semantics::lemma_sequence_bounds(a, 0, fold, s, i, k);
        semantics::lemma_sequence_bounds(b, 0, fold, s, k, j);
        assert(cp.matches(s, i, k) && cq.matches(s, k, j));
    }
    if exists|k: int| i <= k <= j && #[trigger] cp.matches(s, i, k) && cq.matches(s, k, j) {
        let k = choose|k: int|
            i <= k <= j && #[trigger] cp.matches(s, i, k) && cq.matches(s, k, j);
        semantics::lemma_bounds(cp.re, fold, s, i, k);
        laws::lemma_in_sequence(a, fold, s, i, k);
        laws::lemma_in_sequence(b, fold, s, k, j);
        assert(semantics::position(s, k));
    }
}

// ---------------------------------------------------------------------------
// Repetition
// ---------------------------------------------------------------------------

/// A text that a quantifier behind it repeats as a whole: a character, an
/// escape, a class or a group.
pub open spec fn stands_alone(p: Seq<char>) -> bool {
    ||| p.len() == 1 && p[0] != '(' && p[0] != ')' && p[0] != '|' && p[0] != '[' && p[0] != '\\'
    ||| p.len() == 2 && p[0] == '\\'
    ||| p.len() >= 3 && p[0] == '[' && p.last() == ']' && forall|k: int|
        0 <= k < p.len() - 1 ==> #[trigger] p[k] != ']'
    ||| p.len() >= 2 && p == group(p.subrange(1, p.len() - 1)) && pattern::compiled(
        p.subrange(1, p.len() - 1),
        false,
        false,
    ) is Ok
}

/// Such a text is read the same with something behind it.
#[verifier::spinoff_prover]
proof fn lemma_alone(p: Seq<char>, t: Seq<char>)
    requires
        stands_alone(p),
        grammar::meaning(p) is Ok,
        grammar::meaning(t) is Ok,
        p.len() <= t.len(),
        t.take(p.len() as int) == p,
    ensures
        !grammar::stops(t, 0),
        grammar::atom(t, 0, 0) == Ok::<(Re, int), Seq<char>>(
            (grammar::meaning(p)->Ok_0, p.len() as int),
        ),
{
    let n = p.len() as int;
    assert(inside(p, t, 0)) by {
        reveal(inside);
        assert forall|k: int| 0 <= k < p.len() implies t[0 + k] == #[trigger] p[k] by {
            assert(t.take(n)[k] == t[k]);
        }
    }
    lemma_inside_at(p, t, 0, 0);
    if n > 1 {
        lemma_inside_at(p, t, 0, 1);
    }
    if n == 1 && p[0] != '(' && p[0] != ')' && p[0] != '|' && p[0] != '[' && p[0] != '\\' {
        let re = grammar::atom(p, 0, 0)->Ok_0.0;
        lemma_single_atom(p, re);
    } else if n == 2 && p[0] == '\\' {
        lemma_single_atom(p, grammar::escape(p[1]));
    } else if p[0] == '[' {
        lemma_class_alone(p, t);
    } else {
        lemma_group_alone(p, t);
    }
}

#[verifier::spinoff_prover]
proof fn lemma_class_alone(p: Seq<char>, t: Seq<char>)
    requires
        p.len() >= 3,
        p[0] == '[' && p.last() == ']',
        forall|k: int| 0 <= k < p.len() - 1 ==> #[trigger] p[k] != ']',
        grammar::meaning(p) is Ok,
        grammar::meaning(t) is Ok,
        inside(p, t, 0),
        t[0] == '[',
        p.len() <= t.len(),
    ensures
        !grammar::stops(t, 0),
        grammar::atom(t, 0, 0) == Ok::<(Re, int), Seq<char>>(
            (grammar::meaning(p)->Ok_0, p.len() as int),
        ),
{
    lemma_first_atom(p);
    lemma_first_atom(t);
    lemma_class_embedded(p, t, 0, 1);
    let (re, end) = grammar::class(p, 1)->Ok_0;
    assert(end == p.len());
    lemma_single_atom(p, re);
}

#[verifier::spinoff_prover]
proof fn lemma_group_alone(p: Seq<char>, t: Seq<char>)
    requires
        p.len() >= 2,
        p == group(p.subrange(1, p.len() - 1)),
        pattern::compiled(p.subrange(1, p.len() - 1), false, false) is Ok,
        grammar::meaning(p) is Ok,
        grammar::meaning(t) is Ok,
        p.len() <= t.len(),
        t.take(p.len() as int) == p,
        t[0] == p[0],
    ensures
        !grammar::stops(t, 0),
        grammar::atom(t, 0, 0) == Ok::<(Re, int), Seq<char>>(
            (grammar::meaning(p)->Ok_0, p.len() as int),
        ),
{
    let body = p.subrange(1, p.len() - 1);
    assert(p[0] == '(');
    lemma_first_atom(p);
    lemma_first_atom(t);
    assert(p.subrange(0, 0int + body.len() + 2) =~= p);
    assert(t.subrange(0, 0int + body.len() + 2) =~= t.take(p.len() as int));
    lemma_group_atom(body, p, 0, 0);
    lemma_group_atom(body, t, 0, 0);
    lemma_single_atom(p, grammar::meaning(body)->Ok_0);
}

/// A well-formed pattern begins with a well-formed atom.
proof fn lemma_first_atom(p: Seq<char>)
    requires
        grammar::meaning(p) is Ok,
        !grammar::stops(p, 0),
    ensures
        grammar::atom(p, 0, 0) is Ok,
{
    lemma_meaning(p);
    lemma_more_branches(p, 0, 0);
    assert(grammar::atoms(p, 0, 0) is Ok);
    assert(grammar::quantified(p, 0, 0) is Ok);
}

/// The `k`-th piece between some cuts is a match.
pub open spec fn link(c: Compiled, s: Seq<char>, cuts: Seq<int>, k: int) -> bool {
    c.matches(s, cuts[k], cuts[k + 1])
}

/// `cuts` cuts `s[i..j]` into consecutive pieces, each of which is a match.
pub open spec fn chain(c: Compiled, s: Seq<char>, i: int, j: int, cuts: Seq<int>) -> bool {
    &&& cuts.len() >= 1
    &&& cuts[0] == i
    &&& cuts[cuts.len() - 1] == j
    &&& forall|k: int| 0 <= k < cuts.len() - 1 ==> #[trigger] link(c, s, cuts, k)
}

proof fn lemma_times_chain(c: Compiled, n: nat, s: Seq<char>, i: int, j: int) -> (cuts: Seq<int>)
    requires
        0 <= i <= s.len(),
        semantics::times(c.re, n, c.fold, s, i, j),
    ensures
        cuts.len() == n + 1,
        chain(c, s, i, j, cuts),
    decreases n,
{
    if n == 0 {
        seq![i]
    } else {
        let m = (n - 1) as nat;
        let k = choose|k: int| #[trigger]
            semantics::position(s, k) && semantics::times(c.re, m, c.fold, s, i, k)
                && semantics::matches(c.re, c.fold, s, k, j);
        let front = lemma_times_chain(c, m, s, i, k);
        let cuts = front.push(j);
        assert forall|x: int| 0 <= x < cuts.len() - 1 implies #[trigger] link(c, s, cuts, x) by {
            if x < front.len() - 1 {
                assert(link(c, s, front, x));
            }
        }
        cuts
    }
}

proof fn lemma_chain_times(c: Compiled, s: Seq<char>, i: int, j: int, cuts: Seq<int>)
    requires
        0 <= i <= s.len(),
        chain(c, s, i, j, cuts),
    ensures
        semantics::times(c.re, (cuts.len() - 1) as nat, c.fold, s, i, j),
        semantics::position(s, j),
    decreases cuts.len(),
{
    if cuts.len() > 1 {
        let front = cuts.drop_last();
        let k = front[front.len() - 1];
        assert forall|x: int| 0 <= x < front.len() - 1 implies #[trigger] link(c, s, front, x) by {
            assert(link(c, s, cuts, x));
        }
        lemma_chain_times(c, s, i, k, front);
        assert(link(c, s, cuts, cuts.len() - 2));
        semantics::lemma_times_step(
            c.re,
            (front.len() - 1) as nat,
            c.fold,
            s,
            i,
            k,
            j,
        );
        semantics::lemma_bounds(c.re, c.fold, s, k, j);
    }
}

/// A character, escape, class or group with a quantifier behind it matches what
/// can be cut into consecutive matches of it: `*` any number of them, `+` one or
/// more, `?` one or none.
pub proof fn law_quantifiers_repeat(
    p: Seq<char>,
    sign: char,
    fold: bool,
    s: Seq<char>,
    i: int,
    j: int,
)
    requires
        stands_alone(p),
        sign == '*' || sign == '+' || sign == '?',
        pattern::compiled(p, fold, false) is Ok,
        pattern::compiled(p.push(sign), fold, false) is Ok,
        0 <= i <= s.len(),
    ensures
        pattern::compiled(p.push(sign), fold, false)->Ok_0.matches(s, i, j) <==> exists|
            cuts: Seq<int>,
        | #[trigger]
            chain(pattern::compiled(p, fold, false)->Ok_0, s, i, j, cuts) && (sign == '+'
                ==> cuts.len() >= 2) && (sign == '?' ==> cuts.len() <= 2),
{
    let t = p.push(sign);
    let n = p.len() as int;
    assert(t.take(n) =~= p);
    lemma_alone(p, t);
    let c = pattern::compiled(p, fold, false)->Ok_0;
    let re = c.re;
    let many = if sign == '*' {
        Re::Star(Box::new(re))
    } else if sign == '+' {
        Re::Plus(Box::new(re))
    } else {
        Re::Optional(Box::new(re))
    };
    assert(grammar::quantifiers(t, n + 1, many) == Ok::<(Re, int), Seq<char>>((many, n + 1)));
    assert(grammar::quantifiers(t, n, re) == Ok::<(Re, int), Seq<char>>((many, n + 1)));
    lemma_single(t, many);
    if semantics::matches(many, fold, s, i, j) {
        let count: nat = if sign == '*' {
            choose|m: nat| #[trigger]
                semantics::repetitions(m) && semantics::times(re, m, fold, s, i, j)
        } else if sign == '+' {
            choose|m: nat| #[trigger]
                semantics::repetitions(m) && m >= 1 && semantics::times(re, m, fold, s, i, j)
        } else if i == j {
            0
        } else {
            assert(semantics::times(re, 0, fold, s, i, i));
            semantics::lemma_times_step(re, 0, fold, s, i, i, j);
            1
        };
        let cuts = lemma_times_chain(c, count, s, i, j);
        assert(chain(c, s, i, j, cuts));
    }
    if exists|cuts: Seq<int>| #[trigger]
        chain(c, s, i, j, cuts) && (sign == '+' ==> cuts.len() >= 2) && (sign == '?' ==> cuts.len()
            <= 2) {
        let cuts = choose|cuts: Seq<int>| #[trigger]
            chain(c, s, i, j, cuts) && (sign == '+' ==> cuts.len() >= 2) && (sign == '?'
                ==> cuts.len() <= 2);
        lemma_chain_times(c, s, i, j, cuts);
        assert(semantics::repetitions((cuts.len() - 1) as nat));
        if sign == '?' && cuts.len() == 2 {
            assert(link(c, s, cuts, 0));
        }
    }
}

proof fn lemma_counted(
    p: Seq<char>,
    t: Seq<char>,
    min: nat,
    max: Option<nat>,
    fold: bool,
    s: Seq<char>,
    i: int,
    j: int,
)
    requires
        stands_alone(p),
        pattern::compiled(p, fold, false) is Ok,
        pattern::compiled(t, fold, false) is Ok,
        p.len() < t.len(),
        t.take(p.len() as int) == p,
        t[p.len() as int] == '{',
        grammar::repetition(t, p.len() as int) == Ok::<
            Option<(nat, Option<nat>, int)>,
            Seq<char>,
        >(Some((min, max, t.len() as int))),
        max is Some ==> min <= max->0,
        0 <= i <= s.len(),
    ensures
        pattern::compiled(t, fold, false)->Ok_0.matches(s, i, j) <==> exists|cuts: Seq<int>|
            #[trigger]
            chain(pattern::compiled(p, fold, false)->Ok_0, s, i, j, cuts) && cuts.len() >= min + 1
                && (max is Some ==> cuts.len() <= max->0 + 1),
{
    let n = p.len() as int;
    let end = t.len() as int;
    lemma_alone(p, t);
    let c = pattern::compiled(p, fold, false)->Ok_0;
    let re = c.re;
    let many = grammar::in_sequence(grammar::expansion(re, min, max));
    assert(grammar::quantifiers(t, end, many) == Ok::<(Re, int), Seq<char>>((many, end)));
    assert(grammar::quantifiers(t, n, re) == Ok::<(Re, int), Seq<char>>((many, end)));
    lemma_single(t, many);
    laws::law_counts_bound_repetitions(re, min, max, fold, s, i, j);
    if semantics::matches(many, fold, s, i, j) {
        let count = choose|m: nat| #[trigger]
            semantics::repetitions(m) && laws::within(min, max, m) && semantics::times(
                re,
                m,
                fold,
                s,
                i,
                j,
            );
        let cuts = lemma_times_chain(c, count, s, i, j);
        assert(chain(c, s, i, j, cuts));
    }
    if exists|cuts: Seq<int>| #[trigger]
        chain(c, s, i, j, cuts) && cuts.len() >= min + 1 && (max is Some ==> cuts.len() <= max->0
            + 1) {
        let cuts = choose|cuts: Seq<int>| #[trigger]
            chain(c, s, i, j, cuts) && cuts.len() >= min + 1 && (max is Some ==> cuts.len()
                <= max->0 + 1);
        lemma_chain_times(c, s, i, j, cuts);
        let m = (cuts.len() - 1) as nat;
        assert(semantics::repetitions(m) && laws::within(min, max, m));
    }
}

proof fn lemma_run(t: Seq<char>, from: int, digits: Seq<char>)
    requires
        0 <= from,
        from + digits.len() < t.len(),
        t.subrange(from, from + digits.len()) == digits,
        text::all_digits(digits),
        !text::is_digit(t[from + digits.len()]),
    ensures
        text::digits_end(t, from) == from + digits.len(),
        digits.len() > 0 ==> grammar::count_at(t, from) == Some(text::value_of(digits)),
    decreases digits.len(),
{
    if digits.len() > 0 {
        assert(text::is_digit(digits[0]));
        assert(t.subrange(from, from + digits.len())[0] == t[from]);
        let rest = digits.drop_first();
        assert(t.subrange(from + 1, from + 1 + rest.len()) =~= rest) by {
            assert forall|k: int| 0 <= k < rest.len() implies t[from + 1 + k] == rest[k] by {
                assert(t.subrange(from, from + digits.len())[k + 1] == t[from + 1 + k]);
            }
        }
        assert forall|k: int| 0 <= k < rest.len() implies text::is_digit(#[trigger] rest[k]) by {
            assert(text::is_digit(digits[k + 1]));
        }
        lemma_run(t, from + 1, rest);
    }
}

/// What a brace with digits behind it opens.
proof fn lemma_braces(p: Seq<char>, m: Seq<char>, tail: Seq<char>)
    requires
        m.len() > 0,
        text::all_digits(m),
        tail.len() > 0,
        !text::is_digit(tail[0]),
    ensures
        ({
            let t = p + seq!['{'] + m + tail;
            let at = p.len() as int;
            let comma = at + 1 + m.len();
            &&& t.take(at) == p
            &&& t[at] == '{'
            &&& text::digits_end(t, at + 1) == comma
            &&& grammar::count_at(t, at + 1) == Some(text::value_of(m))
            &&& t[comma] == tail[0]
            &&& t.len() == comma + tail.len()
            &&& t.skip(comma) == tail
        }),
{
    let t = p + seq!['{'] + m + tail;
    let at = p.len() as int;
    let comma = at + 1 + m.len();
    assert(t.take(at) =~= p);
    assert(t.subrange(at + 1, comma) =~= m);
    assert(t[comma] == tail[0]);
    lemma_run(t, at + 1, m);
    assert(t.skip(comma) =~= tail);
}

/// `{m}` asks for exactly `m` consecutive matches.
#[verifier::spinoff_prover]
pub proof fn law_braces_count_exactly(
    p: Seq<char>,
    m: Seq<char>,
    fold: bool,
    s: Seq<char>,
    i: int,
    j: int,
)
    requires
        stands_alone(p),
        m.len() > 0 && text::all_digits(m) && text::value_of(m) <= MAX_REPEAT_EXPANSION,
        pattern::compiled(p, fold, false) is Ok,
        pattern::compiled(p + seq!['{'] + m + seq!['}'], fold, false) is Ok,
        0 <= i <= s.len(),
    ensures
        pattern::compiled(p + seq!['{'] + m + seq!['}'], fold, false)->Ok_0.matches(
            s,
            i,
            j,
        ) <==> exists|cuts: Seq<int>| #[trigger]
            chain(pattern::compiled(p, fold, false)->Ok_0, s, i, j, cuts) && cuts.len()
                == text::value_of(m) + 1,
{
    let at = p.len() as int;
    let t = p + seq!['{'] + m + seq!['}'];
    let lo = text::value_of(m);
    lemma_braces(p, m, seq!['}']);
    lemma_counted(p, t, lo, Some(lo), fold, s, i, j);
    let c = pattern::compiled(p, fold, false)->Ok_0;
    if exists|cuts: Seq<int>| #[trigger] chain(c, s, i, j, cuts) && cuts.len() == lo + 1 {
        let cuts = choose|cuts: Seq<int>| #[trigger]
            chain(c, s, i, j, cuts) && cuts.len() == lo + 1;
        assert(chain(c, s, i, j, cuts) && cuts.len() >= lo + 1);
    }
}

/// `{m,}` asks for `m` consecutive matches or more.
#[verifier::spinoff_prover]
pub proof fn law_braces_count_from(
    p: Seq<char>,
    m: Seq<char>,
    fold: bool,
    s: Seq<char>,
    i: int,
    j: int,
)
    requires
        stands_alone(p),
        m.len() > 0 && text::all_digits(m) && text::value_of(m) <= MAX_REPEAT_EXPANSION,
        pattern::compiled(p, fold, false) is Ok,
        pattern::compiled(p + seq!['{'] + m + seq![',', '}'], fold, false) is Ok,
        0 <= i <= s.len(),
    ensures
        pattern::compiled(p + seq!['{'] + m + seq![',', '}'], fold, false)->Ok_0.matches(
            s,
            i,
            j,
        ) <==> exists|cuts: Seq<int>| #[trigger]
            chain(pattern::compiled(p, fold, false)->Ok_0, s, i, j, cuts) && cuts.len()
                >= text::value_of(m) + 1,
{
    let at = p.len() as int;
    let t = p + seq!['{'] + m + seq![',', '}'];
    let lo = text::value_of(m);
    let comma = at + 1 + m.len();
    let tail = seq![',', '}'];
    lemma_braces(p, m, tail);
    assert(t.skip(comma)[1] == t[comma + 1]);
    assert(text::digits_end(t, comma + 1) == comma + 1);
    lemma_counted(p, t, lo, None, fold, s, i, j);
}

/// `{m,n}` asks for `m` to `n` consecutive matches.
#[verifier::spinoff_prover]
pub proof fn law_braces_count_between(
    p: Seq<char>,
    m: Seq<char>,
    n: Seq<char>,
    fold: bool,
    s: Seq<char>,
    i: int,
    j: int,
)
    requires
        stands_alone(p),
        m.len() > 0 && text::all_digits(m) && text::value_of(m) <= MAX_REPEAT_EXPANSION,
        n.len() > 0 && text::all_digits(n) && text::value_of(n) <= MAX_REPEAT_EXPANSION,
        text::value_of(m) <= text::value_of(n),
        pattern::compiled(p, fold, false) is Ok,
        pattern::compiled(p + seq!['{'] + m + seq![','] + n + seq!['}'], fold, false) is Ok,
        0 <= i <= s.len(),
    ensures
        pattern::compiled(p + seq!['{'] + m + seq![','] + n + seq!['}'], fold, false)->Ok_0.matches(
            s,
            i,
            j,
        ) <==> exists|cuts: Seq<int>| #[trigger]
            chain(pattern::compiled(p, fold, false)->Ok_0, s, i, j, cuts) && text::value_of(m) + 1
                <= cuts.len() <= text::value_of(n) + 1,
{
    let at = p.len() as int;
    let t = p + seq!['{'] + m + seq![','] + n + seq!['}'];
    let lo = text::value_of(m);
    let comma = at + 1 + m.len();
    let tail = seq![','] + n + seq!['}'];
    assert(t =~= p + seq!['{'] + m + tail);
    lemma_braces(p, m, tail);
    let hi = text::value_of(n);
    assert(t.skip(comma)[n.len() as int + 1] == t[comma + 1 + n.len()]);
    assert(t.subrange(comma + 1, comma + 1 + n.len()) =~= n) by {
        assert forall|k: int| 0 <= k < n.len() implies t[comma + 1 + k] == n[k] by {
            assert(t.skip(comma)[k + 1] == tail[k + 1]);
        }
    }
    lemma_run(t, comma + 1, n);
    lemma_counted(p, t, lo, Some(hi), fold, s, i, j);
    let c = pattern::compiled(p, fold, false)->Ok_0;
    if exists|cuts: Seq<int>| #[trigger]
        chain(c, s, i, j, cuts) && lo + 1 <= cuts.len() <= hi + 1 {
        let cuts = choose|cuts: Seq<int>| #[trigger]
            chain(c, s, i, j, cuts) && lo + 1 <= cuts.len() <= hi + 1;
        assert(chain(c, s, i, j, cuts) && cuts.len() >= lo + 1);
    }
}

/// Counts up to 4096 are taken, with the maximum not below the minimum; others
/// are refused, and it is told why.
#[verifier::spinoff_prover]
pub proof fn law_counts_are_limited(
    ch: char,
    m: Seq<char>,
    n: Seq<char>,
    fold: bool,
    word: bool,
)
    requires
        !laws::special(ch),
        m.len() > 0 && text::all_digits(m),
        n.len() > 0 && text::all_digits(n),
    ensures
        ({
            let (lo, hi) = (text::value_of(m), text::value_of(n));
            let exactly = pattern::compiled(seq![ch] + seq!['{'] + m + seq!['}'], fold, word);
            let between = pattern::compiled(
                seq![ch] + seq!['{'] + m + seq![','] + n + seq!['}'],
                fold,
                word,
            );
            &&& exactly is Ok <==> lo <= 4096
            &&& lo > 4096 ==> exactly->Err_0 == "repetition count "@ + text::decimal(lo)
                + " too large (max "@ + text::decimal(4096) + ")"@
            &&& between is Ok <==> lo <= hi && hi <= 4096
            &&& hi < lo && lo <= 4096 ==> between->Err_0 == "repetition maximum "@ + text::decimal(
                hi,
            ) + " smaller than minimum "@ + text::decimal(lo)
        }),
{
    let p = seq![ch];
    let re = Re::Literal(ch);
    let (lo, hi) = (text::value_of(m), text::value_of(n));
    let t = p + seq!['{'] + m + seq!['}'];
    lemma_braces(p, m, seq!['}']);
    assert(t[0] == ch);
    assert(grammar::atom(t, 0, 0) == Ok::<(Re, int), Seq<char>>((re, 1)));
    lemma_counted_literal(t, re);
    let u = p + seq!['{'] + m + seq![','] + n + seq!['}'];
    let tail = seq![','] + n + seq!['}'];
    let comma = 2 + m.len() as int;
    assert(u =~= p + seq!['{'] + m + tail);
    lemma_braces(p, m, tail);
    assert(u[0] == ch);
    assert(u.skip(comma)[n.len() as int + 1] == u[comma + 1 + n.len()]);
    assert(u.subrange(comma + 1, comma + 1 + n.len()) =~= n) by {
        assert forall|k: int| 0 <= k < n.len() implies u[comma + 1 + k] == n[k] by {
            assert(u.skip(comma)[k + 1] == tail[k + 1]);
        }
    }
    lemma_run(u, comma + 1, n);
    assert(grammar::atom(u, 0, 0) == Ok::<(Re, int), Seq<char>>((re, 1)));
    lemma_counted_literal(u, re);
}

/// A character and a count that takes all of the rest.
proof fn lemma_counted_literal(t: Seq<char>, re: Re)
    requires
        t.len() > 1,
        t[1] == '{',
        !grammar::stops(t, 0),
        grammar::atom(t, 0, 0) == Ok::<(Re, int), Seq<char>>((re, 1)),
        match grammar::repetition(t, 1) {
            Ok(Some((_, _, end))) => end == t.len(),
            Ok(None) => false,
            Err(_) => true,
        },
    ensures
        match grammar::repetition(t, 1) {
            Ok(_) => grammar::meaning(t) is Ok,
            Err(message) => grammar::meaning(t) == Err::<Re, Seq<char>>(message),
        },
{
    let end = t.len() as int;
    match grammar::repetition(t, 1) {
        Ok(Some((min, max, _))) => {
            let all = grammar::in_sequence(grammar::expansion(re, min, max));
            assert(grammar::quantifiers(t, end, all) == Ok::<(Re, int), Seq<char>>((all, end)));
            assert(grammar::quantified(t, 0, 0) == Ok::<(Re, int), Seq<char>>((all, end)));
            assert(grammar::atoms(t, end, 0) is Ok && grammar::atoms(t, end, 0)->Ok_0.1 == end);
        },
        _ => {},
    }
}

// ---------------------------------------------------------------------------
// Character classes
// ---------------------------------------------------------------------------

/// A piece of a character class: a character, a range of characters, or an
/// escape.
pub enum Piece {
    One(char),
    Range(char, char),
    Escape(char),
}

/// A character that means itself wherever it stands in a class.
pub open spec fn ordinary(ch: char) -> bool {
    ch != ']' && ch != '\\' && ch != '-' && ch != '^'
}

/// A piece of ordinary characters; a range does not run backwards.
pub open spec fn proper(piece: Piece) -> bool {
    match piece {
        Piece::One(ch) => ordinary(ch),
        Piece::Range(lo, hi) => ordinary(lo) && ordinary(hi) && lo <= hi,
        Piece::Escape(_) => true,
    }
}

/// How a piece is written.
pub open spec fn piece_text(piece: Piece) -> Seq<char> {
    match piece {
        Piece::One(ch) => seq![ch],
        Piece::Range(lo, hi) => seq![lo, '-', hi],
        Piece::Escape(ch) => seq!['\\', ch],
    }
}

/// Some pieces, one after the other.
pub open spec fn pieces_text(pieces: Seq<Piece>) -> Seq<char>
    decreases pieces.len(),
{
    if pieces.len() == 0 {
        Seq::empty()
    } else {
        piece_text(pieces[0]) + pieces_text(pieces.drop_first())
    }
}

/// The characters that a piece lists. `\d`, `\w` and `\s` list what they match
/// outside a class, `\n`, `\t` and `\r` control characters, and every other
/// escaped character lists itself.
pub open spec fn lists(piece: Piece, ch: char) -> bool {
    match piece {
        Piece::One(one) => ch == one,
        Piece::Range(lo, hi) => lo <= ch && ch <= hi,
        Piece::Escape(e) => if e == 'd' || e == 'w' || e == 's' {
            in_class(e, ch)
        } else if e == 'n' {
            ch == '\n'
        } else if e == 't' {
            ch == '\t'
        } else if e == 'r' {
            ch == '\r'
        } else {
            ch == e
        },
    }
}

/// Some piece lists the character.
pub open spec fn listed(pieces: Seq<Piece>, ch: char) -> bool {
    exists|k: int| 0 <= k < pieces.len() && lists(#[trigger] pieces[k], ch)
}

/// The ranges of a piece.
spec fn piece_ranges(piece: Piece) -> Seq<(char, char)> {
    match piece {
        Piece::One(ch) => seq![(ch, ch)],
        Piece::Range(lo, hi) => seq![(lo, hi)],
        Piece::Escape(ch) => grammar::class_escape(ch),
    }
}

spec fn pieces_ranges(pieces: Seq<Piece>) -> Seq<(char, char)>
    decreases pieces.len(),
{
    if pieces.len() == 0 {
        Seq::empty()
    } else {
        piece_ranges(pieces[0]) + pieces_ranges(pieces.drop_first())
    }
}

proof fn lemma_piece_ranges(piece: Piece, ch: char)
    ensures
        tree::in_ranges(piece_ranges(piece), ch) <==> lists(piece, ch),
{
    lemma_class_ranges(ch);
    let ranges = piece_ranges(piece);
    if ranges.len() == 1 {
        if ranges[0].0 <= ch && ch <= ranges[0].1 {
            assert(tree::in_ranges(ranges, ch));
        }
    }
}

proof fn lemma_pieces_ranges(pieces: Seq<Piece>, ch: char)
    ensures
        tree::in_ranges(pieces_ranges(pieces), ch) <==> listed(pieces, ch),
    decreases pieces.len(),
{
    let all = pieces_ranges(pieces);
    if pieces.len() > 0 {
        let rest = pieces.drop_first();
        let (a, b) = (piece_ranges(pieces[0]), pieces_ranges(rest));
        lemma_piece_ranges(pieces[0], ch);
        lemma_pieces_ranges(rest, ch);
        if tree::in_ranges(all, ch) {
            let k = choose|k: int|
                0 <= k < all.len() && (#[trigger] all[k]).0 <= ch && ch <= all[k].1;
            if k < a.len() {
                assert(a[k] == all[k]);
                assert(lists(pieces[0], ch));
            } else {
                assert(b[k - a.len()] == all[k]);
                let x = choose|x: int| 0 <= x < rest.len() && lists(#[trigger] rest[x], ch);
                assert(lists(pieces[x + 1], ch));
            }
        }
        if listed(pieces, ch) {
            let x = choose|x: int| 0 <= x < pieces.len() && lists(#[trigger] pieces[x], ch);
            if x == 0 {
                let k = choose|k: int|
                    0 <= k < a.len() && (#[trigger] a[k]).0 <= ch && ch <= a[k].1;
                assert(all[k] == a[k]);
            } else {
                assert(lists(rest[x - 1], ch));
                let k = choose|k: int|
                    0 <= k < b.len() && (#[trigger] b[k]).0 <= ch && ch <= b[k].1;
                assert(all[a.len() + k] == b[k]);
            }
        }
    }
}

proof fn lemma_pieces_members(t: Seq<char>, i: int, pieces: Seq<Piece>, first: bool)
    requires
        0 <= i,
        i + pieces_text(pieces).len() + 1 <= t.len(),
        t.subrange(i, i + pieces_text(pieces).len()) == pieces_text(pieces),
        t[i + pieces_text(pieces).len()] == ']',
        forall|k: int| 0 <= k < pieces.len() ==> proper(#[trigger] pieces[k]),
        first ==> pieces.len() > 0,
    ensures
        grammar::members(t, i, first) == Ok::<(Seq<(char, char)>, int), Seq<char>>(
            (pieces_ranges(pieces), i + pieces_text(pieces).len() + 1),
        ),
    decreases pieces.len(),
{
    let body = pieces_text(pieces);
    if pieces.len() > 0 {
        let here = piece_text(pieces[0]);
        let rest = pieces.drop_first();
        let more = pieces_text(rest);
        let n = here.len() as int;
        let part = t.subrange(i, i + body.len());
        assert(proper(pieces[0]));
        assert forall|k: int| 0 <= k < rest.len() implies proper(#[trigger] rest[k]) by {
            assert(proper(pieces[k + 1]));
        }
        assert forall|k: int| 0 <= k < body.len() implies t[i + k] == #[trigger] body[k] by {
            assert(part[k] == t[i + k]);
        }
        assert(t.subrange(i + n, i + n + more.len()) =~= more) by {
            assert forall|k: int| 0 <= k < more.len() implies t[i + n + k] == more[k] by {
                assert(body[n + k] == more[k]);
            }
        }
        lemma_pieces_members(t, i + n, rest, false);
        assert(t[i] == body[0] && body[0] == here[0]);
        match pieces[0] {
            Piece::One(ch) => {
                // What follows is no dash.
                if rest.len() > 0 {
                    assert(proper(rest[0]));
                    assert(more[0] == piece_text(rest[0])[0]);
                    assert(body[1] == more[0]);
                    assert(t[i + 1] != '-');
                } else {
                    assert(t[i + 1] == ']');
                }
                assert(!grammar::range_at(t, i));
            },
            Piece::Range(lo, hi) => {
                assert(body[1] == here[1] && body[2] == here[2]);
                assert(grammar::range_at(t, i));
            },
            Piece::Escape(ch) => {
                assert(body[1] == here[1]);
            },
        }
    }
}

/// A class of some pieces.
pub open spec fn class_text(negated: bool, pieces: Seq<Piece>) -> Seq<char> {
    (if negated {
        seq!['[', '^']
    } else {
        seq!['[']
    }) + pieces_text(pieces) + seq![']']
}

/// A class is an atom: the ranges that it lists, or all others.
proof fn lemma_class_text(negated: bool, pieces: Seq<Piece>)
    requires
        pieces.len() > 0,
        forall|k: int| 0 <= k < pieces.len() ==> proper(#[trigger] pieces[k]),
    ensures
        grammar::class(class_text(negated, pieces), 1) == Ok::<(Re, int), Seq<char>>(
            (
                Re::Class(CharSet { negated, ranges: pieces_ranges(pieces) }),
                class_text(negated, pieces).len() as int,
            ),
        ),
{
    let t = class_text(negated, pieces);
    let body = pieces_text(pieces);
    let from: int = if negated {
        2
    } else {
        1
    };
    assert(t.subrange(from, from + body.len()) =~= body);
    lemma_pieces_members(t, from, pieces, true);
    assert(proper(pieces[0]));
    let here = piece_text(pieces[0]);
    assert(body[0] == here[0]);
    if !negated {
        assert(t[1] == body[0]);
    }
}

/// `[...]` matches one character that some piece of it lists, `[^...]` one that
/// no piece lists. Where case is folded, a character counts as listed as well
/// where its folded form is.
pub proof fn law_classes_match_what_they_list(
    negated: bool,
    pieces: Seq<Piece>,
    fold: bool,
    s: Seq<char>,
    i: int,
    j: int,
)
    requires
        pieces.len() > 0,
        forall|k: int| 0 <= k < pieces.len() ==> proper(#[trigger] pieces[k]),
        0 <= i <= s.len(),
    ensures
        pattern::compiled(class_text(negated, pieces), fold, false) is Ok,
        pattern::compiled(class_text(negated, pieces), fold, false)->Ok_0.matches(s, i, j) <==> {
            &&& j == i + 1
            &&& j <= s.len()
            &&& (listed(pieces, s[i]) || (fold && listed(pieces, tree::folded(s[i])))) != negated
        },
{
    let t = class_text(negated, pieces);
    let set = CharSet { negated, ranges: pieces_ranges(pieces) };
    lemma_class_text(negated, pieces);
    assert(t[0] == '[');
    lemma_single_atom(t, Re::Class(set));
    if i < s.len() {
        lemma_pieces_ranges(pieces, s[i]);
        lemma_pieces_ranges(pieces, tree::folded(s[i]));
    }
}

/// A class in a glob means what it means in a pattern: the glob matches the
/// texts of one character that the class matches.
pub proof fn law_glob_classes_match_what_they_list(
    negated: bool,
    pieces: Seq<Piece>,
    fold: bool,
    s: Seq<char>,
)
    requires
        pieces.len() > 0,
        forall|k: int| 0 <= k < pieces.len() ==> proper(#[trigger] pieces[k]),
    ensures
        pattern::compiled_glob(class_text(negated, pieces), fold) is Ok,
        pattern::compiled_glob(class_text(negated, pieces), fold)->Ok_0.occurs(s) <==> {
            &&& s.len() == 1
            &&& (listed(pieces, s[0]) || (fold && listed(pieces, tree::folded(s[0])))) != negated
        },
{
    let t = class_text(negated, pieces);
    let re = Re::Class(CharSet { negated, ranges: pieces_ranges(pieces) });
    let end = t.len() as int;
    lemma_class_text(negated, pieces);
    assert(t[0] == '[');
    assert(grammar::glob_items(t, end) == Ok::<(Seq<Re>, int), Seq<char>>((Seq::empty(), end)));
    assert(seq![re] + Seq::<Re>::empty() =~= seq![re]);
    assert(grammar::glob_items(t, 0) == Ok::<(Seq<Re>, int), Seq<char>>((seq![re], end)));
    assert(grammar::glob_meaning(t) == Ok::<Re, Seq<char>>(re));
    let c = pattern::compiled_glob(t, fold)->Ok_0;
    laws::law_globs_match_whole_texts(t, fold, s, 0, s.len() as int);
    if s.len() > 0 {
        lemma_pieces_ranges(pieces, s[0]);
        lemma_pieces_ranges(pieces, tree::folded(s[0]));
    }
    if c.occurs(s) {
        let (i, j) = choose|i: int, j: int|
            0 <= i <= j <= s.len() && #[trigger] c.matches(s, i, j);
        laws::law_globs_match_whole_texts(t, fold, s, i, j);
    }
    if semantics::matches(re, fold, s, 0, s.len() as int) {
        assert(c.matches(s, 0, s.len() as int));
    }
}

/// A class is read the same with something behind it.
pub proof fn lemma_class_followed(
    negated: bool,
    pieces: Seq<Piece>,
    rest: Seq<char>,
) -> (set: CharSet)
    requires
        pieces.len() > 0,
        forall|k: int| 0 <= k < pieces.len() ==> proper(#[trigger] pieces[k]),
    ensures
        grammar::class(class_text(negated, pieces) + rest, 1) == Ok::<(Re, int), Seq<char>>(
            (Re::Class(set), class_text(negated, pieces).len() as int),
        ),
        class_text(negated, pieces).len() >= 1,
        class_text(negated, pieces)[0] == '[',
        forall|ch: char, fold: bool| #[trigger]
            set.holds(ch, fold) <==> (listed(pieces, ch) || (fold && listed(
                pieces,
                tree::folded(ch),
            ))) != negated,
{
    let t = class_text(negated, pieces);
    let set = CharSet { negated, ranges: pieces_ranges(pieces) };
    lemma_class_text(negated, pieces);
    assert(inside(t, t + rest, 0)) by {
        reveal(inside);
    }
    lemma_class_embedded(t, t + rest, 0, 1);
    assert forall|ch: char, fold: bool| #[trigger] set.holds(ch, fold) <==> (listed(pieces, ch) || (
    fold && listed(pieces, tree::folded(ch)))) != negated by {
        lemma_pieces_ranges(pieces, ch);
        lemma_pieces_ranges(pieces, tree::folded(ch));
    }
    set
}

} // verus!
