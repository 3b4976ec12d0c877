//! What globs match, read from the left.

use vstd::prelude::*;

use crate::pattern;
use crate::pattern::grammar;
use crate::pattern::laws;
use crate::pattern::semantics;
use crate::pattern::syntax;
use crate::pattern::syntax::Piece;
use crate::pattern::tree;
use crate::pattern::tree::{CharSet, Re};

verus! {

// ---------------------------------------------------------------------------
// Reading on
// ---------------------------------------------------------------------------

/// What was read of a text, as it is read behind `n` other characters.
spec fn further<A>(read: Result<(A, int), Seq<char>>, n: int) -> Result<(A, int), Seq<char>> {
    match read {
        Ok((out, end)) => Ok((out, end + n)),
        Err(message) => Err(message),
    }
}

proof fn lemma_members_further(a: Seq<char>, h: Seq<char>, i: int, first: bool)
    requires
        0 <= i <= h.len(),
    ensures
        grammar::members(a + h, a.len() + i, first) == further(
            grammar::members(h, i, first),
            a.len() as int,
        ),
    decreases h.len() - i,
{
    let t = a + h;
    let n = a.len() as int;
    if i < h.len() {
        assert(t[n + i] == h[i]);
        assert(i + 1 < h.len() ==> t[n + i + 1] == h[i + 1]);
        assert(i + 2 < h.len() ==> t[n + i + 2] == h[i + 2]);
        if h[i] == ']' && !first {
        } else if h[i] == '\\' {
            if i + 1 < h.len() {
                lemma_members_further(a, h, i + 2, false);
            }
        } else if grammar::range_at(h, i) {
            lemma_members_further(a, h, i + 3, false);
        } else {
            lemma_members_further(a, h, i + 1, false);
        }
    }
}

proof fn lemma_class_further(a: Seq<char>, h: Seq<char>, i: int)
    requires
        0 <= i <= h.len(),
    ensures
        grammar::class(a + h, a.len() + i) == further(grammar::class(h, i), a.len() as int),
{
    if i < h.len() {
        assert((a + h)[a.len() + i] == h[i]);
    }
    lemma_members_further(a, h, i, true);
    if i < h.len() {
        lemma_members_further(a, h, i + 1, true);
    }
}

proof fn lemma_items_further(a: Seq<char>, h: Seq<char>, i: int)
    requires
        0 <= i <= h.len(),
    ensures
        grammar::glob_items(a + h, a.len() + i) == further(
            grammar::glob_items(h, i),
            a.len() as int,
        ),
    decreases h.len() - i,
{
    let t = a + h;
    let n = a.len() as int;
    if i < h.len() {
        assert(t[n + i] == h[i]);
        assert(i + 1 < h.len() ==> t[n + i + 1] == h[i + 1]);
        lemma_items_further(a, h, i + 1);
        if h[i] == '[' {
            lemma_class_further(a, h, i + 1);
            if let Ok((re, end)) = grammar::class(h, i + 1) {
                if i < end <= h.len() {
                    lemma_items_further(a, h, end);
                }
            }
        }
    }
}

// ---------------------------------------------------------------------------
// Matching on
// ---------------------------------------------------------------------------

/// An item of a glob: a character, a class, or any run of a class.
spec fn loose(re: Re) -> bool {
    match re {
        Re::Literal(_) => true,
        Re::Class(_) => true,
        Re::Star(inner) => *inner is Class,
        _ => false,
    }
}

spec fn all_loose(items: Seq<Re>) -> bool {
    forall|k: int| 0 <= k < items.len() ==> loose(#[trigger] items[k])
}

proof fn lemma_loose(g: Seq<char>, i: int)
    ensures
        grammar::glob_items(g, i) matches Ok((items, _)) ==> all_loose(items),
    decreases g.len() - i,
{
    if i < g.len() {
        lemma_loose(g, i + 1);
        let wild = Re::Class(tree::not_slash_set());
        lemma_loose_first(wild, grammar::glob_items(g, i + 1));
        lemma_loose_first(Re::Star(Box::new(wild)), grammar::glob_items(g, i + 1));
        lemma_loose_first(Re::Literal(g[i]), grammar::glob_items(g, i + 1));
        if let Ok((re, end)) = grammar::class(g, i + 1) {
            assert(loose(re));
            assert(all_loose(seq![re]));
            if i < end <= g.len() {
                lemma_loose(g, end);
                lemma_loose_first(re, grammar::glob_items(g, end));
            }
        }
    }
}

proof fn lemma_loose_first(re: Re, more: Result<(Seq<Re>, int), Seq<char>>)
    requires
        loose(re),
        more matches Ok((items, _)) ==> all_loose(items),
    ensures
        grammar::prepend(seq![re], more) matches Ok((items, _)) ==> all_loose(items),
{
    if let Ok((items, _)) = more {
        let all = seq![re] + items;
        assert forall|k: int| 0 <= k < all.len() implies loose(#[trigger] all[k]) by {
            if k > 0 {
                assert(all[k] == items[k - 1]);
            }
        }
    }
}

/// A run of characters of a class.
proof fn lemma_class_run(set: CharSet, n: nat, fold: bool, s: Seq<char>, i: int, j: int)
    requires
        0 <= i <= s.len(),
    ensures
        semantics::times(Re::Class(set), n, fold, s, i, j) <==> {
            &&& j == i + n
            &&& j <= s.len()
            &&& forall|m: int| i <= m < j ==> set.holds(#[trigger] s[m], fold)
        },
    decreases n,
{
    let re = Re::Class(set);
    if n > 0 {
        if semantics::times(re, n, fold, s, i, j) {
            let k = choose|k: int| #[trigger]
                semantics::position(s, k) && semantics::times(re, (n - 1) as nat, fold, s, i, k)
                    && semantics::matches(re, fold, s, k, j);
            lemma_class_run(set, (n - 1) as nat, fold, s, i, k);
            assert(j == k + 1 && set.holds(s[k], fold));
        }
        if j == i + n && j <= s.len() && (forall|m: int|
            i <= m < j ==> set.holds(#[trigger] s[m], fold)) {
            lemma_class_run(set, (n - 1) as nat, fold, s, i, j - 1);
            assert(set.holds(s[j - 1], fold));
            assert(semantics::times(re, (n - 1) as nat, fold, s, i, j - 1));
            assert(semantics::matches(re, fold, s, j - 1, j));
            assert(semantics::position(s, j - 1));
        }
    }
}

proof fn lemma_class_star(set: CharSet, fold: bool, s: Seq<char>, i: int, j: int)
    requires
        0 <= i <= s.len(),
    ensures
        semantics::matches(Re::Star(Box::new(Re::Class(set))), fold, s, i, j) <==> {
            &&& i <= j <= s.len()
            &&& forall|m: int| i <= m < j ==> set.holds(#[trigger] s[m], fold)
        },
{
    let star = Re::Star(Box::new(Re::Class(set)));
    if semantics::matches(star, fold, s, i, j) {
        let n = choose|n: nat| #[trigger]
            semantics::repetitions(n) && semantics::times(Re::Class(set), n, fold, s, i, j);
        lemma_class_run(set, n, fold, s, i, j);
    }
    if i <= j <= s.len() && (forall|m: int| i <= m < j ==> set.holds(#[trigger] s[m], fold)) {
        let n = (j - i) as nat;
        lemma_class_run(set, n, fold, s, i, j);
        assert(semantics::repetitions(n));
    }
}

/// An item of a glob matches wherever the characters stand.
proof fn lemma_item_moved(re: Re, fold: bool, s: Seq<char>, k: int, i: int, j: int)
    requires
        loose(re),
        0 <= k,
        0 <= i <= s.len() - k,
    ensures
        semantics::matches(re, fold, s, k + i, k + j) <==> semantics::matches(
            re,
            fold,
            s.skip(k),
            i,
            j,
        ),
{
    let rest = s.skip(k);
    if i < rest.len() {
        assert(rest[i] == s[k + i]);
    }
    if let Re::Star(inner) = re {
        if let Re::Class(set) = *inner {
            assert(re == Re::Star(Box::new(Re::Class(set))));
            lemma_class_star(set, fold, s, k + i, k + j);
            lemma_class_star(set, fold, rest, i, j);
            if forall|m: int| k + i <= m < k + j ==> set.holds(#[trigger] s[m], fold) {
                assert forall|m: int| i <= m < j && j <= rest.len() implies set.holds(
                    #[trigger] rest[m],
                    fold,
                ) by {
                    assert(rest[m] == s[k + m]);
                }
            }
            if j <= rest.len() && (forall|m: int|
                i <= m < j ==> set.holds(#[trigger] rest[m], fold)) {
                assert forall|m: int| k + i <= m < k + j implies set.holds(
                    #[trigger] s[m],
                    fold,
                ) by {
                    assert(rest[m - k] == s[m]);
                }
            }
        }
    }
}

proof fn lemma_sequence_moved(
    items: Seq<Re>,
    from: int,
    fold: bool,
    s: Seq<char>,
    k: int,
    i: int,
    j: int,
)
    requires
        all_loose(items),
        0 <= from <= items.len(),
        0 <= k,
        0 <= i <= s.len() - k,
    ensures
        semantics::sequence(items, from, fold, s, k + i, k + j) <==> semantics::sequence(
            items,
            from,
            fold,
            s.skip(k),
            i,
            j,
        ),
    decreases items.len() - from,
{
    let rest = s.skip(k);
    if from < items.len() {
        assert(loose(items[from]));
        if semantics::sequence(items, from, fold, s, k + i, k + j) {
            let m = semantics::lemma_sequence_split(items, from, fold, s, k + i, k + j);
            semantics::lemma_bounds(items[from], fold, s, k + i, m);
            lemma_item_moved(items[from], fold, s, k, i, m - k);
            lemma_sequence_moved(items, from + 1, fold, s, k, m - k, j);
            semantics::lemma_sequence_step(items, from, fold, rest, i, m - k, j);
        }
        if semantics::sequence(items, from, fold, rest, i, j) {
            let m = semantics::lemma_sequence_split(items, from, fold, rest, i, j);
            semantics::lemma_bounds(items[from], fold, rest, i, m);
            lemma_item_moved(items[from], fold, s, k, i, m);
            lemma_sequence_moved(items, from + 1, fold, s, k, m, j);
            semantics::lemma_sequence_step(items, from, fold, s, k + i, k + m, k + j);
        }
    }
}

/// A glob occurs in a text where it matches all of it.
proof fn lemma_occurs(g: Seq<char>, fold: bool, s: Seq<char>)
    requires
        grammar::glob_items(g, 0) is Ok,
    ensures
        pattern::compiled_glob(g, fold) is Ok,
        pattern::compiled_glob(g, fold)->Ok_0.occurs(s) <==> semantics::sequence(
            grammar::glob_items(g, 0)->Ok_0.0,
            0,
            fold,
            s,
            0,
            s.len() as int,
        ),
{
    let items = grammar::glob_items(g, 0)->Ok_0.0;
    let c = pattern::compiled_glob(g, fold)->Ok_0;
    let end = s.len() as int;
    laws::law_globs_match_whole_texts(g, fold, s, 0, end);
    laws::lemma_in_sequence(items, fold, s, 0, end);
    if c.occurs(s) {
        let (i, j) = choose|i: int, j: int|
            0 <= i <= j <= s.len() && #[trigger] c.matches(s, i, j);
        laws::law_globs_match_whole_texts(g, fold, s, i, j);
    }
    if semantics::sequence(items, 0, fold, s, 0, end) {
        assert(c.matches(s, 0, end));
    }
}

/// The first `k` characters of `s` match `re`, and the rest matches the glob.
spec fn starts_with(re: Re, h: Seq<char>, fold: bool, s: Seq<char>, k: int) -> bool {
    &&& 0 <= k <= s.len()
    &&& semantics::matches(re, fold, s, 0, k)
    &&& pattern::compiled_glob(h, fold)->Ok_0.occurs(s.skip(k))
}

/// A glob of an item and more matches what the item matches, followed by what
/// the rest matches.
proof fn lemma_first_item(front: Seq<char>, re: Re, h: Seq<char>, fold: bool, s: Seq<char>)
    requires
        loose(re),
        grammar::glob_items(front + h, 0) == grammar::prepend(
            seq![re],
            grammar::glob_items(front + h, front.len() as int),
        ),
    ensures
        pattern::compiled_glob(front + h, fold) is Ok <==> pattern::compiled_glob(h, fold) is Ok,
        pattern::compiled_glob(h, fold) is Ok ==> (pattern::compiled_glob(
            front + h,
            fold,
        )->Ok_0.occurs(s) <==> exists|k: int| #[trigger] starts_with(re, h, fold, s, k)),
{
    lemma_items_further(front, h, 0);
    if grammar::glob_items(h, 0) is Ok {
        let items = grammar::glob_items(h, 0)->Ok_0.0;
        let all = seq![re] + items;
        let end = s.len() as int;
        lemma_loose(h, 0);
        lemma_occurs(front + h, fold, s);
        if semantics::sequence(all, 0, fold, s, 0, end) {
            let k = semantics::lemma_sequence_split(all, 0, fold, s, 0, end);
            assert(all[0] == re);
            semantics::lemma_bounds(re, fold, s, 0, k);
            laws::lemma_sequence_tail(re, items, 0, fold, s, k, end);
            lemma_sequence_moved(items, 0, fold, s, k, 0, end - k);
            lemma_occurs(h, fold, s.skip(k));
            assert(starts_with(re, h, fold, s, k));
        }
        if exists|k: int| #[trigger] starts_with(re, h, fold, s, k) {
            let k = choose|k: int| #[trigger] starts_with(re, h, fold, s, k);
            lemma_occurs(h, fold, s.skip(k));
            lemma_sequence_moved(items, 0, fold, s, k, 0, end - k);
            laws::lemma_sequence_tail(re, items, 0, fold, s, k, end);
            assert(all[0] == re);
            semantics::lemma_sequence_step(all, 0, fold, s, 0, k, end);
        }
    }
}

// ---------------------------------------------------------------------------
// Laws
// ---------------------------------------------------------------------------

/// The empty glob matches the empty text alone, and a character in front of a
/// glob asks for that character in front of what the glob matches.
pub proof fn law_glob_characters_match_themselves(
    ch: char,
    h: Seq<char>,
    fold: bool,
    s: Seq<char>,
)
    requires
        ch != '*' && ch != '?' && ch != '[',
    ensures
        pattern::compiled_glob(Seq::empty(), fold) is Ok,
        pattern::compiled_glob(Seq::empty(), fold)->Ok_0.occurs(s) <==> s.len() == 0,
        pattern::compiled_glob(seq![ch] + h, fold) is Ok <==> pattern::compiled_glob(h, fold) is Ok,
        pattern::compiled_glob(h, fold) is Ok ==> (pattern::compiled_glob(
            seq![ch] + h,
            fold,
        )->Ok_0.occurs(s) <==> {
            &&& s.len() > 0
            &&& s[0] == ch || fold && tree::folded(s[0]) == tree::folded(ch)
            &&& pattern::compiled_glob(h, fold)->Ok_0.occurs(s.skip(1))
        }),
{
    lemma_occurs(Seq::empty(), fold, s);
    let re = Re::Literal(ch);
    assert((seq![ch] + h)[0] == ch);
    lemma_first_item(seq![ch], re, h, fold, s);
    if pattern::compiled_glob(h, fold) is Ok && s.len() > 0 && semantics::matches(re, fold, s, 0, 1)
        && pattern::compiled_glob(h, fold)->Ok_0.occurs(s.skip(1)) {
        assert(starts_with(re, h, fold, s, 1));
    }
}

/// A question mark in front of a glob asks for one character that is no `/`, and
/// a star for any number of them, up to another star.
pub proof fn law_glob_wildcards_stay_in_a_segment(h: Seq<char>, s: Seq<char>)
    ensures
        pattern::compiled_glob(seq!['?'] + h, false) is Ok <==> pattern::compiled_glob(
            h,
            false,
        ) is Ok,
        pattern::compiled_glob(h, false) is Ok ==> (pattern::compiled_glob(
            seq!['?'] + h,
            false,
        )->Ok_0.occurs(s) <==> {
            &&& s.len() > 0
            &&& s[0] != '/'
            &&& pattern::compiled_glob(h, false)->Ok_0.occurs(s.skip(1))
        }),
        h.len() == 0 || h[0] != '*' ==> {
            &&& pattern::compiled_glob(seq!['*'] + h, false) is Ok <==> pattern::compiled_glob(
                h,
                false,
            ) is Ok
            &&& pattern::compiled_glob(h, false) is Ok ==> (pattern::compiled_glob(
                seq!['*'] + h,
                false,
            )->Ok_0.occurs(s) <==> exists|k: int|
                {
                    &&& 0 <= k <= s.len()
                    &&& forall|m: int| 0 <= m < k ==> #[trigger] s[m] != '/'
                    &&& pattern::compiled_glob(h, false)->Ok_0.occurs(#[trigger] s.skip(k))
                })
        },
{
    let set = tree::not_slash_set();
    let one = Re::Class(set);
    let star = Re::Star(Box::new(one));
    assert forall|ch: char| #[trigger] set.holds(ch, false) <==> ch != '/' by {
        laws::law_wildcards_stop_at_separators(ch, false);
    }
    assert((seq!['?'] + h)[0] == '?');
    lemma_first_item(seq!['?'], one, h, false, s);
    if pattern::compiled_glob(h, false) is Ok && s.len() > 0 && s[0] != '/'
        && pattern::compiled_glob(h, false)->Ok_0.occurs(s.skip(1)) {
        assert(starts_with(one, h, false, s, 1));
    }
    if h.len() == 0 || h[0] != '*' {
        let t = seq!['*'] + h;
        assert(t[0] == '*');
        assert(h.len() > 0 ==> t[1] == h[0]);
        lemma_first_item(seq!['*'], star, h, false, s);
        if pattern::compiled_glob(h, false) is Ok {
            if exists|k: int| #[trigger] starts_with(star, h, false, s, k) {
                let k = choose|k: int| #[trigger] starts_with(star, h, false, s, k);
                lemma_class_star(set, false, s, 0, k);
                assert forall|m: int| 0 <= m < k implies #[trigger] s[m] != '/' by {
                    assert(set.holds(s[m], false));
                }
                assert(pattern::compiled_glob(h, false)->Ok_0.occurs(s.skip(k)));
            }
            if exists|k: int|
                {
                    &&& 0 <= k <= s.len()
                    &&& forall|m: int| 0 <= m < k ==> #[trigger] s[m] != '/'
                    &&& pattern::compiled_glob(h, false)->Ok_0.occurs(#[trigger] s.skip(k))
                } {
                let k = choose|k: int|
                    {
                        &&& 0 <= k <= s.len()
                        &&& forall|m: int| 0 <= m < k ==> #[trigger] s[m] != '/'
                        &&& pattern::compiled_glob(h, false)->Ok_0.occurs(#[trigger] s.skip(k))
                    };
                lemma_class_star(set, false, s, 0, k);
                assert(starts_with(star, h, false, s, k));
            }
        }
    }
}

/// A class in front of a glob asks for one character that it lists, or does not
/// list where it is negated.
pub proof fn law_glob_classes_stand_for_one_character(
    negated: bool,
    pieces: Seq<Piece>,
    h: Seq<char>,
    fold: bool,
    s: Seq<char>,
)
    requires
        pieces.len() > 0,
        forall|k: int| 0 <= k < pieces.len() ==> syntax::proper(#[trigger] pieces[k]),
    ensures
        ({
            let t = syntax::class_text(negated, pieces) + h;
            &&& pattern::compiled_glob(t, fold) is Ok <==> pattern::compiled_glob(h, fold) is Ok
            &&& pattern::compiled_glob(h, fold) is Ok ==> (pattern::compiled_glob(
                t,
                fold,
            )->Ok_0.occurs(s) <==> {
                &&& s.len() > 0
                &&& (syntax::listed(pieces, s[0]) || (fold && syntax::listed(
                    pieces,
                    tree::folded(s[0]),
                ))) != negated
                &&& pattern::compiled_glob(h, fold)->Ok_0.occurs(s.skip(1))
            })
        }),
{
    let front = syntax::class_text(negated, pieces);
    let set = syntax::lemma_class_followed(negated, pieces, h);
    let re = Re::Class(set);
    assert((front + h)[0] == '[');
    lemma_first_item(front, re, h, fold, s);
    if s.len() > 0 {
        assert(set.holds(s[0], fold) <==> (syntax::listed(pieces, s[0]) || (fold && syntax::listed(
            pieces,
            tree::folded(s[0]),
        ))) != negated);
    }
    if pattern::compiled_glob(h, fold) is Ok && s.len() > 0 && set.holds(s[0], fold)
        && pattern::compiled_glob(h, fold)->Ok_0.occurs(s.skip(1)) {
        assert(starts_with(re, h, fold, s, 1));
    }
}

} // verus!
