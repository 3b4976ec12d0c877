//! What holds of every pattern and every line.

use vstd::prelude::*;

use crate::pattern;
use crate::pattern::grammar;
use crate::pattern::semantics;
use crate::pattern::tree;
use crate::pattern::tree::Re;
use crate::pattern::Compiled;

verus! {

// ---------------------------------------------------------------------------
// Searching
// ---------------------------------------------------------------------------

/// The first match is a match; no match starts to its left, no match from the
/// same start is longer; and there is none exactly where the pattern does not
/// occur.
pub proof fn law_first_is_leftmost_longest(c: Compiled, s: Seq<char>)
    ensures
        c.first(s) is Some <==> c.occurs(s),
        c.first(s) matches Some((a, b)) ==> {
            &&& 0 <= a <= b <= s.len()
            &&& c.matches(s, a, b)
            &&& forall|i: int, j: int| 0 <= i < a ==> !#[trigger] c.matches(s, i, j)
            &&& forall|j: int| #[trigger] c.matches(s, a, j) ==> j <= b
        },
{
    semantics::lemma_first_match(c.re, c.fold, s, 0);
    if let Some((a, b)) = c.first(s) {
        assert(c.matches(s, a, b));
    }
    if c.occurs(s) {
        let (i, j) = choose|i: int, j: int|
            0 <= i <= j <= s.len() && #[trigger] c.matches(s, i, j);
        assert(semantics::matches(c.re, c.fold, s, i, j));
    }
}

proof fn lemma_all_matches(re: Re, fold: bool, s: Seq<char>, from: int)
    requires
        0 <= from,
    ensures
        ({
            let found = semantics::all_matches(re, fold, s, from);
            &&& forall|k: int|
                0 <= k < found.len() ==> {
                    let (a, b) = #[trigger] found[k];
                    from <= a <= b <= s.len() && semantics::matches(re, fold, s, a, b)
                }
            &&& forall|k: int, l: int|
                0 <= k < l < found.len() ==> (#[trigger] found[k]).0 < (#[trigger] found[l]).0
                    && found[k].1 <= found[l].0
        }),
    decreases s.len() + 1 - from,
{
    semantics::lemma_first_match(re, fold, s, from);
    let found = semantics::all_matches(re, fold, s, from);
    if let Some((a, b)) = semantics::first_match(re, fold, s, from) {
        let next = if b > a {
            b
        } else {
            a + 1
        };
        if from < next <= s.len() {
            lemma_all_matches(re, fold, s, next);
            let rest = semantics::all_matches(re, fold, s, next);
            assert(found =~= seq![(a, b)] + rest);
            assert forall|k: int| 0 <= k < found.len() implies {
                let (x, y) = #[trigger] found[k];
                from <= x <= y <= s.len() && semantics::matches(re, fold, s, x, y)
            } by {
                if k > 0 {
                    assert(found[k] == rest[k - 1]);
                }
            }
            assert forall|k: int, l: int| 0 <= k < l < found.len() implies (
            #[trigger] found[k]).0 < (#[trigger] found[l]).0 && found[k].1 <= found[l].0 by {
                assert(found[l] == rest[l - 1]);
                if k > 0 {
                    assert(found[k] == rest[k - 1]);
                }
            }
        }
    }
}

/// All matches are matches, in order from left to right, and no two overlap;
/// the first of them is the first match; and there is none exactly where the
/// pattern does not occur.
pub proof fn law_all_in_order_without_overlap(c: Compiled, s: Seq<char>)
    ensures
        forall|k: int|
            0 <= k < c.all(s).len() ==> {
                let (a, b) = #[trigger] c.all(s)[k];
                0 <= a <= b <= s.len() && c.matches(s, a, b)
            },
        forall|k: int, l: int|
            0 <= k < l < c.all(s).len() ==> (#[trigger] c.all(s)[k]).1 <= (
            #[trigger] c.all(s)[l]).0 && c.all(s)[k].0 < c.all(s)[l].0,
        c.all(s).len() > 0 <==> c.occurs(s),
        c.all(s).len() > 0 ==> Some(c.all(s)[0]) == c.first(s),
{
    lemma_all_matches(c.re, c.fold, s, 0);
    law_first_is_leftmost_longest(c, s);
}

/// The spans that are reported at or behind `from` leave no match out.
proof fn lemma_all_complete(re: Re, fold: bool, s: Seq<char>, from: int, i: int, j: int)
    requires
        0 <= from <= i < j <= s.len(),
        semantics::matches(re, fold, s, i, j),
    ensures
        ({
            let found = semantics::all_matches(re, fold, s, from);
            exists|k: int|
                0 <= k < found.len() && (#[trigger] found[k]).0 < j && i < found[k].1
        }),
    decreases s.len() + 1 - from,
{
    let found = semantics::all_matches(re, fold, s, from);
    semantics::lemma_first_match(re, fold, s, from);
    let (a, b) = semantics::first_match(re, fold, s, from)->0;
    assert(found[0] == (a, b));
    assert(a <= i);
    if a == i {
        assert(j <= b);
        assert(found[0].0 < j && i < found[0].1);
    } else if i < b {
        assert(found[0].0 < j && i < found[0].1);
    } else {
        let next = if b > a {
            b
        } else {
            a + 1
        };
        lemma_all_complete(re, fold, s, next, i, j);
        let rest = semantics::all_matches(re, fold, s, next);
        let k = choose|k: int|
            0 <= k < rest.len() && (#[trigger] rest[k]).0 < j && i < rest[k].1;
        assert(found == seq![(a, b)] + rest);
        assert(found[k + 1] == rest[k]);
    }
}

proof fn lemma_all_longest(re: Re, fold: bool, s: Seq<char>, from: int, k: int, j: int)
    requires
        0 <= from,
        0 <= k < semantics::all_matches(re, fold, s, from).len(),
        semantics::matches(re, fold, s, semantics::all_matches(re, fold, s, from)[k].0, j),
    ensures
        j <= semantics::all_matches(re, fold, s, from)[k].1,
    decreases s.len() + 1 - from,
{
    let found = semantics::all_matches(re, fold, s, from);
    semantics::lemma_first_match(re, fold, s, from);
    let (a, b) = semantics::first_match(re, fold, s, from)->0;
    if k > 0 {
        let next = if b > a {
            b
        } else {
            a + 1
        };
        let rest = semantics::all_matches(re, fold, s, next);
        assert(found == seq![(a, b)] + rest);
        assert(found[k] == rest[k - 1]);
        lemma_all_longest(re, fold, s, next, k - 1, j);
    }
}

/// No match is left out: every stretch of the line that is not empty and that
/// the pattern matches overlaps a reported span, and every reported span is the
/// longest match from its start.
pub proof fn law_all_leaves_no_match_out(c: Compiled, s: Seq<char>)
    ensures
        forall|i: int, j: int|
            0 <= i < j <= s.len() && #[trigger] c.matches(s, i, j) ==> exists|k: int|
                0 <= k < c.all(s).len() && (#[trigger] c.all(s)[k]).0 < j && i < c.all(s)[k].1,
        forall|k: int, j: int|
            0 <= k < c.all(s).len() && #[trigger] c.matches(s, (#[trigger] c.all(s)[k]).0, j)
                ==> j <= c.all(s)[k].1,
{
    assert forall|i: int, j: int|
        0 <= i < j <= s.len() && #[trigger] c.matches(s, i, j) implies exists|k: int|
        0 <= k < c.all(s).len() && (#[trigger] c.all(s)[k]).0 < j && i < c.all(s)[k].1 by {
        lemma_all_complete(c.re, c.fold, s, 0, i, j);
        let found = semantics::all_matches(c.re, c.fold, s, 0);
        let k = choose|k: int|
            0 <= k < found.len() && (#[trigger] found[k]).0 < j && i < found[k].1;
        assert(c.all(s)[k].0 < j && i < c.all(s)[k].1);
    }
    assert forall|k: int, j: int|
        0 <= k < c.all(s).len() && #[trigger] c.matches(
            s,
            (#[trigger] c.all(s)[k]).0,
            j,
        ) implies j <= c.all(s)[k].1 by {
        lemma_all_longest(c.re, c.fold, s, 0, k, j);
    }
}

/// A position at which the pattern matches nothing but the empty stretch is
/// reported too, unless a reported span covers it or ends there.
pub proof fn law_empty_matches_are_reported(c: Compiled, s: Seq<char>, i: int)
    requires
        0 <= i <= s.len(),
        c.matches(s, i, i),
    ensures
        exists|k: int|
            0 <= k < c.all(s).len() && (#[trigger] c.all(s)[k]).0 <= i && i <= c.all(s)[k].1,
{
    lemma_empty_reported(c.re, c.fold, s, 0, i);
    let found = semantics::all_matches(c.re, c.fold, s, 0);
    let k = choose|k: int| 0 <= k < found.len() && (#[trigger] found[k]).0 <= i && i <= found[k].1;
    assert(c.all(s)[k].0 <= i && i <= c.all(s)[k].1);
}

proof fn lemma_empty_reported(re: Re, fold: bool, s: Seq<char>, from: int, i: int)
    requires
        0 <= from <= i <= s.len(),
        semantics::matches(re, fold, s, i, i),
    ensures
        ({
            let found = semantics::all_matches(re, fold, s, from);
            exists|k: int|
                0 <= k < found.len() && (#[trigger] found[k]).0 <= i && i <= found[k].1
        }),
    decreases s.len() + 1 - from,
{
    let found = semantics::all_matches(re, fold, s, from);
    semantics::lemma_first_match(re, fold, s, from);
    let (a, b) = semantics::first_match(re, fold, s, from)->0;
    assert(found[0] == (a, b));
    assert(a <= i);
    if i <= b {
        assert(found[0].0 <= i && i <= found[0].1);
    } else {
        let next = if b > a {
            b
        } else {
            a + 1
        };
        lemma_empty_reported(re, fold, s, next, i);
        let rest = semantics::all_matches(re, fold, s, next);
        let k = choose|k: int|
            0 <= k < rest.len() && (#[trigger] rest[k]).0 <= i && i <= rest[k].1;
        assert(found == seq![(a, b)] + rest);
        assert(found[k + 1] == rest[k]);
    }
}

/// A pattern occurs in a line where it matches some stretch of it.
pub proof fn law_occurring_is_matching_somewhere(c: Compiled, s: Seq<char>)
    ensures
        c.occurs(s) <==> exists|i: int, j: int|
            0 <= i <= j <= s.len() && #[trigger] c.matches(s, i, j),
{
}

// ---------------------------------------------------------------------------
// Meanings
// ---------------------------------------------------------------------------

/// The empty pattern is well formed and occurs in every line.
pub proof fn law_empty_pattern_occurs_everywhere(s: Seq<char>, fold: bool)
    ensures
        pattern::compiled(Seq::empty(), fold, false) is Ok,
        pattern::compiled(Seq::empty(), fold, false)->Ok_0.occurs(s),
{
    let p = Seq::<char>::empty();
    assert(grammar::atoms(p, 0, 0) == Ok::<(Seq<Re>, int), Seq<char>>((Seq::empty(), 0)));
    assert(grammar::concatenation(p, 0, 0) == Ok::<(Re, int), Seq<char>>((Re::Empty, 0)));
    assert(grammar::branches(p, 0, 0) == Ok::<(Seq<Re>, int), Seq<char>>((seq![Re::Empty], 0)));
    assert(grammar::alternation(p, 0, 0) == Ok::<(Re, int), Seq<char>>((Re::Empty, 0)));
    let c = pattern::compiled(p, fold, false)->Ok_0;
    assert(c.matches(s, 0, 0));
}

/// A sequence of three parts of which the first and the last are empty.
proof fn lemma_between(
    left: Re,
    re: Re,
    right: Re,
    fold: bool,
    s: Seq<char>,
    i: int,
    j: int,
)
    requires
        0 <= i <= s.len(),
        forall|a: int, b: int| #[trigger] semantics::matches(left, fold, s, a, b) ==> a == b,
        forall|a: int, b: int| #[trigger] semantics::matches(right, fold, s, a, b) ==> a == b,
    ensures
        semantics::matches(Re::Concat(seq![left, re, right]), fold, s, i, j) <==> {
            &&& semantics::matches(left, fold, s, i, i)
            &&& semantics::matches(re, fold, s, i, j)
            &&& semantics::matches(right, fold, s, j, j)
        },
{
    let items = seq![left, re, right];
    if semantics::sequence(items, 0, fold, s, i, j) {
        let k = semantics::lemma_sequence_split(items, 0, fold, s, i, j);
        let l = semantics::lemma_sequence_split(items, 1, fold, s, k, j);
        let m = semantics::lemma_sequence_split(items, 2, fold, s, l, j);
        assert(semantics::sequence(items, 3, fold, s, m, j));
    }
    if semantics::matches(left, fold, s, i, i) && semantics::matches(re, fold, s, i, j)
        && semantics::matches(right, fold, s, j, j) {
        semantics::lemma_bounds(re, fold, s, i, j);
        assert(semantics::sequence(items, 3, fold, s, j, j));
        semantics::lemma_sequence_step(items, 2, fold, s, j, j, j);
        semantics::lemma_sequence_step(items, 1, fold, s, i, j, j);
        semantics::lemma_sequence_step(items, 0, fold, s, i, i, j);
    }
}

/// With the word flag, a match is a match of the pattern that has a word
/// boundary at both of its ends: a word character, which is alphanumeric or an
/// underscore, on one side and none on the other. The flags make no pattern
/// malformed and none well formed.
pub proof fn law_word_flag_asks_for_boundaries(
    p: Seq<char>,
    fold: bool,
    s: Seq<char>,
    i: int,
    j: int,
)
    requires
        0 <= i <= s.len(),
    ensures
        pattern::compiled(p, fold, true) is Ok <==> pattern::compiled(p, fold, false) is Ok,
        pattern::compiled(p, true, false) is Ok <==> pattern::compiled(p, false, false) is Ok,
        pattern::compiled(p, fold, true) is Ok ==> (pattern::compiled(p, fold, true)->Ok_0.matches(
            s,
            i,
            j,
        ) <==> {
            let word = |k: int| 0 <= k < s.len() && (tree::alphanumeric(s[k]) || s[k] == '_');
            &&& pattern::compiled(p, fold, false)->Ok_0.matches(s, i, j)
            &&& word(i - 1) != word(i)
            &&& word(j - 1) != word(j)
        }),
{
    if pattern::compiled(p, fold, true) is Ok {
        let re = grammar::meaning(p)->Ok_0;
        lemma_between(Re::WordBoundary, re, Re::WordBoundary, fold, s, i, j);
        if semantics::matches(re, fold, s, i, j) {
            semantics::lemma_bounds(re, fold, s, i, j);
        }
    }
}

/// A glob matches all of the text or nothing.
pub proof fn law_globs_match_whole_texts(g: Seq<char>, fold: bool, s: Seq<char>, i: int, j: int)
    requires
        pattern::compiled_glob(g, fold) is Ok,
        0 <= i <= s.len(),
    ensures
        pattern::compiled_glob(g, fold)->Ok_0.matches(s, i, j) <==> {
            &&& i == 0
            &&& j == s.len()
            &&& semantics::matches(grammar::glob_meaning(g)->Ok_0, fold, s, 0, s.len() as int)
        },
{
    let re = grammar::glob_meaning(g)->Ok_0;
    lemma_between(Re::StartAnchor, re, Re::EndAnchor, fold, s, i, j);
}

/// The wildcards of a glob match no path separator; without case folding they
/// match every other character.
pub proof fn law_wildcards_stop_at_separators(ch: char, fold: bool)
    ensures
        tree::not_slash_set().holds(ch, fold) ==> ch != '/',
        !fold ==> (tree::not_slash_set().holds(ch, fold) <==> ch != '/'),
{
    lemma_wildcard(ch, fold);
}

/// The star of a glob matches no text with a path separator in it; without
/// case folding it matches every other text.
pub proof fn law_glob_star_stays_in_one_segment(fold: bool, s: Seq<char>, i: int, j: int)
    requires
        0 <= i <= s.len(),
    ensures
        ({
            let star = Re::Star(Box::new(Re::Class(tree::not_slash_set())));
            let plain = i <= j <= s.len() && forall|k: int| i <= k < j ==> #[trigger] s[k] != '/';
            &&& semantics::matches(star, fold, s, i, j) ==> plain
            &&& !fold ==> (semantics::matches(star, fold, s, i, j) <==> plain)
        }),
{
    lemma_star(fold, s, i, j);
    if takes('*', fold, s, i, j) {
        assert forall|k: int| i <= k < j implies #[trigger] s[k] != '/' by {
            assert(wild(s[k], fold));
        }
    }
}

/// Items as one expression match what they match one after the other.
pub proof fn lemma_in_sequence(items: Seq<Re>, fold: bool, s: Seq<char>, i: int, j: int)
    requires
        0 <= i <= s.len(),
    ensures
        semantics::matches(grammar::in_sequence(items), fold, s, i, j) <==> semantics::sequence(
            items,
            0,
            fold,
            s,
            i,
            j,
        ),
{
    if items.len() == 1 {
        if semantics::matches(items[0], fold, s, i, j) {
            assert(semantics::sequence(items, 1, fold, s, j, j));
            semantics::lemma_sequence_step(items, 0, fold, s, i, j, j);
        }
        if semantics::sequence(items, 0, fold, s, i, j) {
            let k = semantics::lemma_sequence_split(items, 0, fold, s, i, j);
            assert(semantics::sequence(items, 1, fold, s, k, j));
        }
    }
}

// ---------------------------------------------------------------------------
// Globs
// ---------------------------------------------------------------------------

/// A character that a wildcard of a glob takes: not `/` and, where case is
/// folded, not one that folds to `/`.
pub open spec fn wild(ch: char, fold: bool) -> bool {
    ch != '/' && (fold ==> tree::folded(ch) != '/')
}

/// No character but `/` has `/` for its folded form.
pub open spec fn only_slashes_fold_to_slashes() -> bool {
    forall|ch: char| #[trigger] tree::folded(ch) == '/' ==> ch == '/'
}

/// The character `g` of a glob takes `s[i..j]`: `*` any run of wild characters,
/// `?` one of them, every other character itself.
pub open spec fn takes(g: char, fold: bool, s: Seq<char>, i: int, j: int) -> bool {
    if g == '*' {
        i <= j && forall|k: int| i <= k < j ==> wild(#[trigger] s[k], fold)
    } else if g == '?' {
        j == i + 1 && wild(s[i], fold)
    } else {
        j == i + 1 && tree::same_char(g, s[i], fold)
    }
}

/// `cuts` cuts `s` from its first entry to its end into consecutive pieces, one
/// for each character of `g` from `from` on.
pub open spec fn cut_from(
    g: Seq<char>,
    from: int,
    fold: bool,
    s: Seq<char>,
    cuts: Seq<int>,
) -> bool {
    &&& cuts.len() == g.len() - from + 1
    &&& forall|k: int| 0 <= k < cuts.len() ==> 0 <= #[trigger] cuts[k] <= s.len()
    &&& cuts.last() == s.len()
    &&& forall|k: int|
        from <= k < g.len() ==> takes(#[trigger] g[k], fold, s, cuts[k - from], cuts[k - from + 1])
}

/// `cuts` cuts the whole of `s` into one piece for each character of `g`.
pub open spec fn cut_into_pieces(g: Seq<char>, fold: bool, s: Seq<char>, cuts: Seq<int>) -> bool {
    cuts.len() > 0 && cuts[0] == 0 && cut_from(g, 0, fold, s, cuts)
}

/// A glob without character classes.
pub open spec fn without_classes(g: Seq<char>) -> bool {
    forall|k: int| 0 <= k < g.len() ==> #[trigger] g[k] != '['
}

/// The expression of a wildcard.
spec fn wildcard() -> Re {
    Re::Class(tree::not_slash_set())
}

/// The expression of a star.
spec fn star() -> Re {
    Re::Star(Box::new(wildcard()))
}

/// The items of a glob without classes.
spec fn items_from(g: Seq<char>, i: int) -> Seq<Re> {
    grammar::glob_items(g, i)->Ok_0.0
}

proof fn lemma_wildcard(ch: char, fold: bool)
    ensures
        tree::not_slash_set().holds(ch, fold) <==> wild(ch, fold),
{
    lemma_slash_range(ch);
    lemma_slash_range(tree::folded(ch));
}

proof fn lemma_slash_range(ch: char)
    ensures
        tree::in_ranges(tree::not_slash_set().ranges, ch) <==> ch == '/',
{
    let ranges = tree::not_slash_set().ranges;
    assert(ranges[0] == ('/', '/'));
    if tree::in_ranges(ranges, ch) {
        let k = choose|k: int|
            0 <= k < ranges.len() && (#[trigger] ranges[k]).0 <= ch && ch <= ranges[k].1;
        assert(ranges[k] == ('/', '/'));
    }
}

proof fn lemma_star_times(n: nat, fold: bool, s: Seq<char>, i: int, j: int)
    requires
        0 <= i <= s.len(),
        semantics::times(wildcard(), n, fold, s, i, j),
    ensures
        i <= j <= s.len(),
        forall|k: int| i <= k < j ==> wild(#[trigger] s[k], fold),
    decreases n,
{
    if n > 0 {
        let m = (n - 1) as nat;
        let k = choose|k: int| #[trigger]
            semantics::position(s, k) && semantics::times(wildcard(), m, fold, s, i, k)
                && semantics::matches(wildcard(), fold, s, k, j);
        lemma_star_times(m, fold, s, i, k);
        lemma_wildcard(s[k], fold);
    }
}

proof fn lemma_star_run(fold: bool, s: Seq<char>, i: int, j: int)
    requires
        0 <= i <= j <= s.len(),
        forall|k: int| i <= k < j ==> wild(#[trigger] s[k], fold),
    ensures
        semantics::times(wildcard(), (j - i) as nat, fold, s, i, j),
    decreases j - i,
{
    if i < j {
        lemma_star_run(fold, s, i, j - 1);
        assert(wild(s[j - 1], fold));
        lemma_wildcard(s[j - 1], fold);
        semantics::lemma_times_step(wildcard(), (j - 1 - i) as nat, fold, s, i, j - 1, j);
    }
}

/// A star takes the runs of wild characters.
proof fn lemma_star(fold: bool, s: Seq<char>, i: int, j: int)
    requires
        0 <= i <= s.len(),
    ensures
        semantics::matches(star(), fold, s, i, j) <==> {
            &&& j <= s.len()
            &&& takes('*', fold, s, i, j)
        },
{
    if semantics::matches(star(), fold, s, i, j) {
        let n = choose|n: nat| #[trigger]
            semantics::repetitions(n) && semantics::times(wildcard(), n, fold, s, i, j);
        lemma_star_times(n, fold, s, i, j);
    }
    if j <= s.len() && takes('*', fold, s, i, j) {
        lemma_star_run(fold, s, i, j);
        assert(semantics::repetitions((j - i) as nat));
    }
}

/// The expression of one character of a glob.
spec fn item(g: char) -> Re {
    if g == '*' {
        star()
    } else if g == '?' {
        wildcard()
    } else {
        Re::Literal(g)
    }
}

proof fn lemma_item(g: char, fold: bool, s: Seq<char>, i: int, j: int)
    requires
        0 <= i <= s.len(),
    ensures
        semantics::matches(item(g), fold, s, i, j) <==> {
            &&& j <= s.len()
            &&& takes(g, fold, s, i, j)
        },
{
    if g == '*' {
        lemma_star(fold, s, i, j);
    } else if g == '?' && i < s.len() {
        lemma_wildcard(s[i], fold);
    }
}

/// A glob without classes is well formed; its items are those of its
/// characters, where a star in front of a star is left out.
proof fn lemma_items(g: Seq<char>, i: int)
    requires
        without_classes(g),
        0 <= i <= g.len(),
    ensures
        grammar::glob_items(g, i) is Ok,
        i == g.len() ==> items_from(g, i) == Seq::<Re>::empty(),
        i < g.len() ==> items_from(g, i) == (if g[i] == '*' && i + 1 < g.len() && g[i + 1] == '*' {
            items_from(g, i + 1)
        } else {
            seq![item(g[i])] + items_from(g, i + 1)
        }),
        i < g.len() && g[i] == '*' ==> items_from(g, i).len() > 0 && items_from(g, i)[0] == star(),
    decreases g.len() - i,
{
    if i < g.len() {
        assert(g[i] != '[');
        lemma_items(g, i + 1);
    }
}

/// A sequence behind its first item is the sequence of the others.
pub proof fn lemma_sequence_tail(
    first: Re,
    rest: Seq<Re>,
    n: int,
    fold: bool,
    s: Seq<char>,
    i: int,
    j: int,
)
    requires
        0 <= n <= rest.len(),
    ensures
        semantics::sequence(seq![first] + rest, n + 1, fold, s, i, j) <==> semantics::sequence(
            rest,
            n,
            fold,
            s,
            i,
            j,
        ),
    decreases rest.len() - n,
{
    let all = seq![first] + rest;
    if n < rest.len() {
        assert(all[n + 1] == rest[n]);
        if semantics::sequence(all, n + 1, fold, s, i, j) {
            let k = semantics::lemma_sequence_split(all, n + 1, fold, s, i, j);
            lemma_sequence_tail(first, rest, n + 1, fold, s, k, j);
            assert(semantics::position(s, k));
        }
        if semantics::sequence(rest, n, fold, s, i, j) {
            let k = semantics::lemma_sequence_split(rest, n, fold, s, i, j);
            lemma_sequence_tail(first, rest, n + 1, fold, s, k, j);
            assert(semantics::position(s, k));
        }
    }
}

proof fn lemma_cut_front(
    g: Seq<char>,
    from: int,
    fold: bool,
    s: Seq<char>,
    i: int,
    rest: Seq<int>,
)
    requires
        0 <= from < g.len(),
        0 <= i <= s.len(),
        rest.len() > 0,
        cut_from(g, from + 1, fold, s, rest),
        takes(g[from], fold, s, i, rest[0]),
    ensures
        cut_from(g, from, fold, s, seq![i] + rest),
{
    let cuts = seq![i] + rest;
    assert forall|k: int| 0 <= k < cuts.len() implies 0 <= #[trigger] cuts[k] <= s.len() by {
        if k > 0 {
            assert(cuts[k] == rest[k - 1]);
        }
    }
    assert forall|k: int| from <= k < g.len() implies takes(
        #[trigger] g[k],
        fold,
        s,
        cuts[k - from],
        cuts[k - from + 1],
    ) by {
        if k > from {
            assert(cuts[k - from] == rest[k - from - 1]);
            assert(cuts[k - from + 1] == rest[k - from]);
        } else {
            assert(cuts[1] == rest[0]);
        }
    }
}

/// Where the items of a glob match, the text can be cut.
proof fn lemma_match_is_cut(g: Seq<char>, from: int, fold: bool, s: Seq<char>, i: int) -> (cuts:
    Seq<int>)
    requires
        without_classes(g),
        0 <= from <= g.len(),
        0 <= i <= s.len(),
        semantics::sequence(items_from(g, from), 0, fold, s, i, s.len() as int),
    ensures
        cuts.len() > 0,
        cuts[0] == i,
        cut_from(g, from, fold, s, cuts),
    decreases g.len() - from,
{
    lemma_items(g, from);
    let end = s.len() as int;
    if from == g.len() {
        seq![i]
    } else if g[from] == '*' && from + 1 < g.len() && g[from + 1] == '*' {
        let rest = lemma_match_is_cut(g, from + 1, fold, s, i);
        lemma_cut_front(g, from, fold, s, i, rest);
        seq![i] + rest
    } else {
        let others = items_from(g, from + 1);
        let items = seq![item(g[from])] + others;
        let k = semantics::lemma_sequence_split(items, 0, fold, s, i, end);
        lemma_sequence_tail(item(g[from]), others, 0, fold, s, k, end);
        lemma_item(g[from], fold, s, i, k);
        let rest = lemma_match_is_cut(g, from + 1, fold, s, k);
        lemma_cut_front(g, from, fold, s, i, rest);
        seq![i] + rest
    }
}

/// Where the text can be cut, the items of a glob match.
proof fn lemma_cut_is_match(g: Seq<char>, from: int, fold: bool, s: Seq<char>, cuts: Seq<int>)
    requires
        without_classes(g),
        0 <= from <= g.len(),
        cut_from(g, from, fold, s, cuts),
    ensures
        semantics::sequence(items_from(g, from), 0, fold, s, cuts[0], s.len() as int),
    decreases g.len() - from,
{
    lemma_items(g, from);
    let end = s.len() as int;
    if from < g.len() {
        let i = cuts[0];
        let k = cuts[1];
        let rest = cuts.drop_first();
        assert(takes(g[from], fold, s, cuts[from - from], cuts[from - from + 1]));
        assert forall|m: int| from + 1 <= m < g.len() implies takes(
            #[trigger] g[m],
            fold,
            s,
            rest[m - (from + 1)],
            rest[m - (from + 1) + 1],
        ) by {
            assert(takes(g[m], fold, s, cuts[m - from], cuts[m - from + 1]));
        }
        lemma_cut_is_match(g, from + 1, fold, s, rest);
        let others = items_from(g, from + 1);
        if g[from] == '*' && from + 1 < g.len() && g[from + 1] == '*' {
            // The two runs together are one run.
            lemma_items(g, from + 1);
            let m = semantics::lemma_sequence_split(others, 0, fold, s, k, end);
            lemma_star(fold, s, k, m);
            assert forall|x: int| i <= x < m implies wild(#[trigger] s[x], fold) by {}
            lemma_star(fold, s, i, m);
            semantics::lemma_sequence_step(others, 0, fold, s, i, m, end);
        } else {
            let items = seq![item(g[from])] + others;
            lemma_item(g[from], fold, s, i, k);
            lemma_sequence_tail(item(g[from]), others, 0, fold, s, k, end);
            semantics::lemma_sequence_step(items, 0, fold, s, i, k, end);
        }
    }
}

/// A glob without classes is well formed, and matches exactly the texts that
/// can be cut into consecutive pieces, one for each of its characters: a star
/// takes any run of wild characters, a question mark one of them, and every
/// other character itself, up to case where case is folded. The wild characters
/// are all but `/`; where case is folded, that is so as far as the lowercase
/// mapping sends nothing but `/` to `/`.
pub proof fn law_globs_cut_the_text_into_pieces(g: Seq<char>, fold: bool, s: Seq<char>)
    requires
        without_classes(g),
    ensures
        pattern::compiled_glob(g, fold) is Ok,
        pattern::compiled_glob(g, fold)->Ok_0.occurs(s) <==> exists|cuts: Seq<int>| #[trigger]
            cut_into_pieces(g, fold, s, cuts),
        !fold || only_slashes_fold_to_slashes() ==> forall|ch: char| #[trigger]
            wild(ch, fold) <==> ch != '/',
{
    lemma_items(g, 0);
    let c = pattern::compiled_glob(g, fold)->Ok_0;
    let end = s.len() as int;
    law_globs_match_whole_texts(g, fold, s, 0, end);
    lemma_in_sequence(items_from(g, 0), fold, s, 0, end);
    if c.occurs(s) {
        let (i, j) = choose|i: int, j: int|
            0 <= i <= j <= s.len() && #[trigger] c.matches(s, i, j);
        law_globs_match_whole_texts(g, fold, s, i, j);
        let cuts = lemma_match_is_cut(g, 0, fold, s, 0);
        assert(cut_into_pieces(g, fold, s, cuts));
    }
    if exists|cuts: Seq<int>| #[trigger] cut_into_pieces(g, fold, s, cuts) {
        let cuts = choose|cuts: Seq<int>| #[trigger] cut_into_pieces(g, fold, s, cuts);
        lemma_cut_is_match(g, 0, fold, s, cuts);
        assert(c.matches(s, 0, end));
    }
}

proof fn lemma_items_of_tail(g: Seq<char>, h: Seq<char>, i: int, j: int)
    requires
        without_classes(g),
        without_classes(h),
        0 <= i <= g.len(),
        0 <= j <= h.len(),
        g.skip(i) == h.skip(j),
    ensures
        items_from(g, i) == items_from(h, j),
    decreases g.len() - i,
{
    lemma_items(g, i);
    lemma_items(h, j);
    assert(g.skip(i).len() == g.len() - i && h.skip(j).len() == h.len() - j);
    if i < g.len() {
        assert(g.skip(i)[0] == g[i] && h.skip(j)[0] == h[j]);
        if i + 1 < g.len() {
            assert(g.skip(i)[1] == g[i + 1] && h.skip(j)[1] == h[j + 1]);
        }
        assert(g.skip(i + 1) =~= g.skip(i).skip(1));
        assert(h.skip(j + 1) =~= h.skip(j).skip(1));
        lemma_items_of_tail(g, h, i + 1, j + 1);
    }
}

proof fn lemma_double_star(a: Seq<char>, b: Seq<char>, i: int)
    requires
        without_classes(a),
        without_classes(b),
        0 <= i <= a.len(),
    ensures
        items_from(a + seq!['*', '*'] + b, i) == items_from(a + seq!['*'] + b, i),
    decreases a.len() - i,
{
    let g = a + seq!['*', '*'] + b;
    let h = a + seq!['*'] + b;
    let cut = a.len() as int;
    assert(without_classes(g)) by {
        assert forall|k: int| 0 <= k < g.len() implies #[trigger] g[k] != '[' by {
            if k < cut {
                assert(g[k] == a[k]);
            } else if k >= cut + 2 {
                assert(g[k] == b[k - cut - 2]);
            }
        }
    }
    assert(without_classes(h)) by {
        assert forall|k: int| 0 <= k < h.len() implies #[trigger] h[k] != '[' by {
            if k < cut {
                assert(h[k] == a[k]);
            } else if k >= cut + 1 {
                assert(h[k] == b[k - cut - 1]);
            }
        }
    }
    lemma_items(g, i);
    lemma_items(h, i);
    if i < cut {
        assert(g[i] == a[i] && h[i] == a[i]);
        assert(g[i + 1] == h[i + 1]);
        lemma_double_star(a, b, i + 1);
    } else {
        assert(g.skip(cut + 1) =~= h.skip(cut));
        lemma_items_of_tail(g, h, cut + 1, cut);
    }
}

/// Consecutive stars collapse: `a**b` matches what `a*b` matches.
pub proof fn law_consecutive_stars_are_one(
    a: Seq<char>,
    b: Seq<char>,
    fold: bool,
    s: Seq<char>,
)
    requires
        without_classes(a),
        without_classes(b),
    ensures
        ({
            let double = pattern::compiled_glob(a + seq!['*', '*'] + b, fold);
            let single = pattern::compiled_glob(a + seq!['*'] + b, fold);
            &&& double is Ok
            &&& single is Ok
            &&& double->Ok_0.re == single->Ok_0.re
            &&& double->Ok_0.occurs(s) == single->Ok_0.occurs(s)
        }),
{
    let g = a + seq!['*', '*'] + b;
    let h = a + seq!['*'] + b;
    let cut = a.len() as int;
    assert forall|k: int| 0 <= k < g.len() implies #[trigger] g[k] != '[' by {
        if k < cut {
            assert(g[k] == a[k]);
        } else if k >= cut + 2 {
            assert(g[k] == b[k - cut - 2]);
        }
    }
    assert forall|k: int| 0 <= k < h.len() implies #[trigger] h[k] != '[' by {
        if k < cut {
            assert(h[k] == a[k]);
        } else if k >= cut + 1 {
            assert(h[k] == b[k - cut - 1]);
        }
    }
    lemma_items(g, 0);
    lemma_items(h, 0);
    lemma_double_star(a, b, 0);
    let (double, single) = (
        pattern::compiled_glob(g, fold)->Ok_0,
        pattern::compiled_glob(h, fold)->Ok_0,
    );
    if double.occurs(s) {
        let (i, j) = choose|i: int, j: int|
            0 <= i <= j <= s.len() && #[trigger] double.matches(s, i, j);
        assert(single.matches(s, i, j));
    }
    if single.occurs(s) {
        let (i, j) = choose|i: int, j: int|
            0 <= i <= j <= s.len() && #[trigger] single.matches(s, i, j);
        assert(double.matches(s, i, j));
    }
}

// ---------------------------------------------------------------------------
// Literal patterns
// ---------------------------------------------------------------------------

/// A character that the pattern syntax gives a meaning of its own.
pub open spec fn special(ch: char) -> bool {
    ||| ch == '.'
    ||| ch == '*'
    ||| ch == '+'
    ||| ch == '?'
    ||| ch == '{'
    ||| ch == '['
    ||| ch == '('
    ||| ch == ')'
    ||| ch == '|'
    ||| ch == '^'
    ||| ch == '$'
    ||| ch == '\\'
}

/// The expression for one character.
pub open spec fn literal(ch: char) -> Re {
    Re::Literal(ch)
}

/// The literals of `p[from..]`.
pub open spec fn literals(p: Seq<char>, from: int) -> Seq<Re> {
    Seq::new((p.len() - from) as nat, |k: int| literal(p[from + k]))
}

proof fn lemma_plain_atoms(p: Seq<char>, from: int)
    requires
        0 <= from <= p.len(),
        forall|k: int| 0 <= k < p.len() ==> !special(#[trigger] p[k]),
    ensures
        grammar::atoms(p, from, 0) == Ok::<(Seq<Re>, int), Seq<char>>(
            (literals(p, from), p.len() as int),
        ),
    decreases p.len() - from,
{
    if from < p.len() {
        assert(!special(p[from]));
        assert(grammar::atom(p, from, 0) == Ok::<(Re, int), Seq<char>>(
            (Re::Literal(p[from]), from + 1),
        ));
        if from + 1 < p.len() {
            assert(!special(p[from + 1]));
        }
        assert(grammar::quantifiers(p, from + 1, Re::Literal(p[from])) == Ok::<
            (Re, int),
            Seq<char>,
        >((Re::Literal(p[from]), from + 1)));
        assert(grammar::quantified(p, from, 0) == Ok::<(Re, int), Seq<char>>(
            (Re::Literal(p[from]), from + 1),
        ));
        lemma_plain_atoms(p, from + 1);
        assert(seq![Re::Literal(p[from])] + literals(p, from + 1) =~= literals(p, from));
    } else {
        assert(literals(p, from) =~= Seq::<Re>::empty());
    }
}

proof fn lemma_plain_sequence(
    p: Seq<char>,
    from: int,
    fold: bool,
    s: Seq<char>,
    i: int,
    j: int,
)
    requires
        0 <= from <= p.len(),
        0 <= i <= s.len(),
    ensures
        semantics::sequence(literals(p, 0), from, fold, s, i, j) <==> {
            &&& j == i + p.len() - from
            &&& j <= s.len()
            &&& forall|k: int|
                from <= k < p.len() ==> tree::same_char(#[trigger] p[k], s[i + k - from], fold)
        },
    decreases p.len() - from,
{
    let items = literals(p, 0);
    if from < p.len() {
        if semantics::sequence(items, from, fold, s, i, j) {
            let k = semantics::lemma_sequence_split(items, from, fold, s, i, j);
            lemma_plain_sequence(p, from + 1, fold, s, k, j);
        }
        if j == i + p.len() - from && j <= s.len() && (forall|k: int|
            from <= k < p.len() ==> tree::same_char(#[trigger] p[k], s[i + k - from], fold)) {
            lemma_plain_sequence(p, from + 1, fold, s, i + 1, j);
            assert(tree::same_char(p[from], s[i + from - from], fold));
            assert forall|k: int| from + 1 <= k < p.len() implies tree::same_char(
                #[trigger] p[k],
                s[i + 1 + k - (from + 1)],
                fold,
            ) by {
                assert(i + 1 + k - (from + 1) == i + k - from);
            }
            semantics::lemma_sequence_step(items, from, fold, s, i, i + 1, j);
        }
    }
}

/// A pattern without special characters is well formed and matches a stretch
/// of the line exactly where that spells the pattern, up to case where case is
/// folded.
pub proof fn law_plain_patterns_match_themselves(
    p: Seq<char>,
    fold: bool,
    s: Seq<char>,
    i: int,
    j: int,
)
    requires
        forall|k: int| 0 <= k < p.len() ==> !special(#[trigger] p[k]),
        0 <= i <= s.len(),
    ensures
        pattern::compiled(p, fold, false) is Ok,
        pattern::compiled(p, fold, false)->Ok_0.matches(s, i, j) <==> {
            &&& j == i + p.len()
            &&& j <= s.len()
            &&& forall|k: int|
                0 <= k < p.len() ==> tree::same_char(#[trigger] p[k], s[i + k], fold)
        },
{
    let items = literals(p, 0);
    let re = grammar::in_sequence(items);
    let end = p.len() as int;
    lemma_plain_atoms(p, 0);
    assert(grammar::concatenation(p, 0, 0) == Ok::<(Re, int), Seq<char>>((re, end)));
    assert(grammar::branches(p, 0, 0) == Ok::<(Seq<Re>, int), Seq<char>>((seq![re], end)));
    assert(grammar::alternation(p, 0, 0) == Ok::<(Re, int), Seq<char>>((re, end)));
    lemma_in_sequence(items, fold, s, i, j);
    lemma_plain_sequence(p, 0, fold, s, i, j);
}

// ---------------------------------------------------------------------------
// Counted repetition
// ---------------------------------------------------------------------------

/// A number of repetitions between the bounds.
pub open spec fn within(min: nat, max: Option<nat>, n: nat) -> bool {
    min <= n && (max matches Some(most) ==> n <= most)
}

/// What follows the mandatory copies.
proof fn lemma_expansion_tail(
    re: Re,
    min: nat,
    max: Option<nat>,
    from: int,
    fold: bool,
    s: Seq<char>,
    i: int,
    j: int,
)
    requires
        max is Some ==> min <= max->0,
        min <= from <= grammar::expansion(re, min, max).len(),
        max is None ==> from == min,
        0 <= i <= s.len(),
    ensures
        semantics::sequence(grammar::expansion(re, min, max), from, fold, s, i, j) <==> exists|
            n: nat,
        | #[trigger]
            semantics::repetitions(n) && (max matches Some(most) ==> n <= most - from)
                && semantics::times(re, n, fold, s, i, j),
    decreases grammar::expansion(re, min, max).len() - from,
{
    let items = grammar::expansion(re, min, max);
    match max {
        None => {
            let star = Re::Star(Box::new(re));
            assert(items[from] == star);
            if semantics::sequence(items, from, fold, s, i, j) {
                let k = semantics::lemma_sequence_split(items, from, fold, s, i, j);
                assert(semantics::sequence(items, from + 1, fold, s, k, j));
                let n = choose|n: nat| #[trigger]
                    semantics::repetitions(n) && semantics::times(re, n, fold, s, i, j);
                assert(semantics::repetitions(n));
            }
            if exists|n: nat| #[trigger]
                semantics::repetitions(n) && semantics::times(re, n, fold, s, i, j) {
                let n = choose|n: nat| #[trigger]
                    semantics::repetitions(n) && semantics::times(re, n, fold, s, i, j);
                assert(semantics::repetitions(n));
                assert(semantics::matches(star, fold, s, i, j));
                assert(semantics::sequence(items, from + 1, fold, s, j, j));
                semantics::lemma_sequence_step(items, from, fold, s, i, j, j);
            }
        },
        Some(most) => {
            if from == most {
                if i == j {
                    assert(semantics::repetitions(0) && semantics::times(re, 0, fold, s, i, j));
                }
            } else {
                let optional = Re::Optional(Box::new(re));
                assert(items[from] == optional);
                if semantics::sequence(items, from, fold, s, i, j) {
                    let k = semantics::lemma_sequence_split(items, from, fold, s, i, j);
                    lemma_expansion_tail(re, min, max, from + 1, fold, s, k, j);
                    let n = choose|n: nat| #[trigger]
                        semantics::repetitions(n) && n <= most - (from + 1) && semantics::times(
                            re,
                            n,
                            fold,
                            s,
                            k,
                            j,
                        );
                    if i == k {
                        assert(semantics::repetitions(n));
                    } else {
                        semantics::lemma_times_front(re, n, fold, s, i, k, j);
                        assert(semantics::repetitions(n + 1));
                    }
                }
                if exists|n: nat| #[trigger]
                    semantics::repetitions(n) && n <= most - from && semantics::times(
                        re,
                        n,
                        fold,
                        s,
                        i,
                        j,
                    ) {
                    let n = choose|n: nat| #[trigger]
                        semantics::repetitions(n) && n <= most - from && semantics::times(
                            re,
                            n,
                            fold,
                            s,
                            i,
                            j,
                        );
                    let k = if n == 0 {
                        assert(semantics::repetitions(0));
                        i
                    } else {
                        let less = (n - 1) as nat;
                        assert(less + 1 == n);
                        assert(semantics::repetitions(less));
                        semantics::lemma_times_split(re, less, fold, s, i, j)
                    };
                    lemma_expansion_tail(re, min, max, from + 1, fold, s, k, j);
                    assert(semantics::matches(optional, fold, s, i, k));
                    semantics::lemma_sequence_step(items, from, fold, s, i, k, j);
                }
            }
        },
    }
}

/// The mandatory copies and what follows them.
proof fn lemma_expansion_copies(
    re: Re,
    min: nat,
    max: Option<nat>,
    from: int,
    fold: bool,
    s: Seq<char>,
    i: int,
    j: int,
)
    requires
        max is Some ==> min <= max->0,
        0 <= from <= min,
        0 <= i <= s.len(),
    ensures
        semantics::sequence(grammar::expansion(re, min, max), from, fold, s, i, j) <==> exists|
            n: nat,
        | #[trigger]
            semantics::repetitions(n) && min - from <= n && (max matches Some(most) ==> n <= most
                - from) && semantics::times(re, n, fold, s, i, j),
    decreases min - from,
{
    let items = grammar::expansion(re, min, max);
    if from == min {
        lemma_expansion_tail(re, min, max, from, fold, s, i, j);
    } else {
        assert(items[from] == re);
        if semantics::sequence(items, from, fold, s, i, j) {
            let k = semantics::lemma_sequence_split(items, from, fold, s, i, j);
            lemma_expansion_copies(re, min, max, from + 1, fold, s, k, j);
            let n = choose|n: nat| #[trigger]
                semantics::repetitions(n) && min - (from + 1) <= n && (max matches Some(most)
                    ==> n <= most - (from + 1)) && semantics::times(re, n, fold, s, k, j);
            semantics::lemma_times_front(re, n, fold, s, i, k, j);
            assert(semantics::repetitions(n + 1));
        }
        if exists|n: nat| #[trigger]
            semantics::repetitions(n) && min - from <= n && (max matches Some(most) ==> n <= most
                - from) && semantics::times(re, n, fold, s, i, j) {
            let n = choose|n: nat| #[trigger]
                semantics::repetitions(n) && min - from <= n && (max matches Some(most) ==> n
                    <= most - from) && semantics::times(re, n, fold, s, i, j);
            let less = (n - 1) as nat;
            assert(less + 1 == n);
            let k = semantics::lemma_times_split(re, less, fold, s, i, j);
            assert(semantics::repetitions(less));
            lemma_expansion_copies(re, min, max, from + 1, fold, s, k, j);
            semantics::lemma_sequence_step(items, from, fold, s, i, k, j);
        }
    }
}

/// A counted repetition matches what the right numbers of repetitions match:
/// `{m}` those of `m`, `{m,n}` those of `m` to `n`, `{m,}` those of `m` or
/// more.
pub proof fn law_counts_bound_repetitions(
    re: Re,
    min: nat,
    max: Option<nat>,
    fold: bool,
    s: Seq<char>,
    i: int,
    j: int,
)
    requires
        max is Some ==> min <= max->0,
        0 <= i <= s.len(),
    ensures
        semantics::matches(
            grammar::in_sequence(grammar::expansion(re, min, max)),
            fold,
            s,
            i,
            j,
        ) <==> exists|n: nat| #[trigger]
            semantics::repetitions(n) && within(min, max, n) && semantics::times(
                re,
                n,
                fold,
                s,
                i,
                j,
            ),
{
    lemma_in_sequence(grammar::expansion(re, min, max), fold, s, i, j);
    lemma_expansion_copies(re, min, max, 0, fold, s, i, j);
    if exists|n: nat| #[trigger]
        semantics::repetitions(n) && min - 0 <= n && (max matches Some(most) ==> n <= most - 0)
            && semantics::times(re, n, fold, s, i, j) {
        let n = choose|n: nat| #[trigger]
            semantics::repetitions(n) && min - 0 <= n && (max matches Some(most) ==> n <= most - 0)
                && semantics::times(re, n, fold, s, i, j);
        assert(semantics::repetitions(n) && within(min, max, n));
    }
    if exists|n: nat| #[trigger]
        semantics::repetitions(n) && within(min, max, n) && semantics::times(re, n, fold, s, i, j) {
        let n = choose|n: nat| #[trigger]
            semantics::repetitions(n) && within(min, max, n) && semantics::times(
                re,
                n,
                fold,
                s,
                i,
                j,
            );
        assert(semantics::repetitions(n) && min - 0 <= n);
    }
}

} // verus!
