//! What it means for a pattern to match.

use vstd::prelude::*;

use crate::pattern::tree;
use crate::pattern::tree::Re;

verus! {

/// A word boundary at `pos`: exactly one side of the position is a word
/// character, and the edges of the line count as non-word.
pub open spec fn boundary(s: Seq<char>, pos: int) -> bool {
    let before = 0 < pos <= s.len() && tree::word_char(s[pos - 1]);
    let after = 0 <= pos < s.len() && tree::word_char(s[pos]);
    before != after
}

/// `k` is a position of the line: before, between or after its characters.
pub open spec fn position(s: Seq<char>, k: int) -> bool {
    0 <= k <= s.len()
}

/// Every natural number is a number of repetitions; a quantifier over such
/// numbers is instantiated where one is named.
pub open spec fn repetitions(n: nat) -> bool {
    true
}

/// `re` matches `s[i..j]`.
pub open spec fn matches(re: Re, fold: bool, s: Seq<char>, i: int, j: int) -> bool
    decreases re, 0nat,
{
    match re {
        Re::Empty => i == j,
        Re::Literal(ch) => j == i + 1 && 0 <= i < s.len() && tree::same_char(ch, s[i], fold),
        Re::AnyChar => j == i + 1 && 0 <= i < s.len() && s[i] != '\n',
        Re::Class(set) => j == i + 1 && 0 <= i < s.len() && set.holds(s[i], fold),
        Re::StartAnchor => i == j && i == 0,
        Re::EndAnchor => i == j && i == s.len(),
        Re::WordBoundary => i == j && boundary(s, i),
        Re::Star(inner) => exists|n: nat| #[trigger]
            repetitions(n) && times(*inner, n, fold, s, i, j),
        Re::Plus(inner) => exists|n: nat| #[trigger]
            repetitions(n) && n >= 1 && times(*inner, n, fold, s, i, j),
        Re::Optional(inner) => i == j || matches(*inner, fold, s, i, j),
        Re::Concat(items) => sequence(items, 0, fold, s, i, j),
        Re::Alternate(branches) => exists|b: int|
            0 <= b < branches.len() && matches(#[trigger] branches[b], fold, s, i, j),
    }
}

/// `s[i..j]` is `n` consecutive matches of `re`.
pub open spec fn times(re: Re, n: nat, fold: bool, s: Seq<char>, i: int, j: int) -> bool
    decreases re, n,
{
    if n == 0 {
        i == j
    } else {
        exists|k: int| #[trigger]
            position(s, k) && times(re, (n - 1) as nat, fold, s, i, k) && matches(
                re,
                fold,
                s,
                k,
                j,
            )
    }
}

/// `s[i..j]` is a match of `items[from]`, then one of the next item, and so
/// on to the last.
pub open spec fn sequence(
    items: Seq<Re>,
    from: int,
    fold: bool,
    s: Seq<char>,
    i: int,
    j: int,
) -> bool
    decreases items, items.len() - from,
{
    if from < 0 || from >= items.len() {
        i == j
    } else {
        exists|k: int| #[trigger]
            position(s, k) && matches(items[from], fold, s, i, k) && sequence(
                items,
                from + 1,
                fold,
                s,
                k,
                j,
            )
    }
}

/// Matches never run backwards and never leave the line.
pub proof fn lemma_bounds(re: Re, fold: bool, s: Seq<char>, i: int, j: int)
    requires
        position(s, i),
        matches(re, fold, s, i, j),
    ensures
        i <= j,
        position(s, j),
    decreases re, 0nat,
{
    match re {
        Re::Star(inner) => {
            let n = choose|n: nat| #[trigger]
                repetitions(n) && times(*inner, n, fold, s, i, j);
            lemma_times_bounds(*inner, n, fold, s, i, j);
        },
        Re::Plus(inner) => {
            let n = choose|n: nat| #[trigger]
                repetitions(n) && n >= 1 && times(*inner, n, fold, s, i, j);
            lemma_times_bounds(*inner, n, fold, s, i, j);
        },
        Re::Optional(inner) => {
            if i != j {
                lemma_bounds(*inner, fold, s, i, j);
            }
        },
        Re::Concat(items) => {
            lemma_sequence_bounds(items, 0, fold, s, i, j);
        },
        Re::Alternate(branches) => {
            let b = choose|b: int|
                0 <= b < branches.len() && matches(#[trigger] branches[b], fold, s, i, j);
            lemma_bounds(branches[b], fold, s, i, j);
        },
        _ => {},
    }
}

/// [`lemma_bounds`] for repetitions.
pub proof fn lemma_times_bounds(re: Re, n: nat, fold: bool, s: Seq<char>, i: int, j: int)
    requires
        position(s, i),
        times(re, n, fold, s, i, j),
    ensures
        i <= j,
        position(s, j),
    decreases re, n,
{
    if n > 0 {
        let m = (n - 1) as nat;
        let k = choose|k: int| #[trigger]
            position(s, k) && times(re, m, fold, s, i, k) && matches(re, fold, s, k, j);
        lemma_times_bounds(re, m, fold, s, i, k);
        lemma_bounds(re, fold, s, k, j);
    }
}

/// [`lemma_bounds`] for sequences.
pub proof fn lemma_sequence_bounds(
    items: Seq<Re>,
    from: int,
    fold: bool,
    s: Seq<char>,
    i: int,
    j: int,
)
    requires
        position(s, i),
        sequence(items, from, fold, s, i, j),
    ensures
        i <= j,
        position(s, j),
    decreases items, items.len() - from,
{
    if 0 <= from < items.len() {
        let k = choose|k: int| #[trigger]
            position(s, k) && matches(items[from], fold, s, i, k) && sequence(
                items,
                from + 1,
                fold,
                s,
                k,
                j,
            );
        lemma_bounds(items[from], fold, s, i, k);
        lemma_sequence_bounds(items, from + 1, fold, s, k, j);
    }
}

/// A match of an item, followed by the rest of the sequence.
pub proof fn lemma_sequence_step(
    items: Seq<Re>,
    from: int,
    fold: bool,
    s: Seq<char>,
    i: int,
    k: int,
    j: int,
)
    requires
        0 <= from < items.len(),
        position(s, i),
        matches(items[from], fold, s, i, k),
        sequence(items, from + 1, fold, s, k, j),
    ensures
        sequence(items, from, fold, s, i, j),
{
    lemma_bounds(items[from], fold, s, i, k);
    assert(position(s, k));
}

/// Where the first item of a sequence ends.
pub proof fn lemma_sequence_split(
    items: Seq<Re>,
    from: int,
    fold: bool,
    s: Seq<char>,
    i: int,
    j: int,
) -> (k: int)
    requires
        0 <= from < items.len(),
        sequence(items, from, fold, s, i, j),
    ensures
        position(s, k),
        matches(items[from], fold, s, i, k),
        sequence(items, from + 1, fold, s, k, j),
{
    choose|k: int| #[trigger]
        position(s, k) && matches(items[from], fold, s, i, k) && sequence(
            items,
            from + 1,
            fold,
            s,
            k,
            j,
        )
}

/// Repetitions, followed by one more match.
pub proof fn lemma_times_step(
    re: Re,
    n: nat,
    fold: bool,
    s: Seq<char>,
    i: int,
    k: int,
    j: int,
)
    requires
        position(s, k),
        times(re, n, fold, s, i, k),
        matches(re, fold, s, k, j),
    ensures
        times(re, n + 1, fold, s, i, j),
{
    assert(position(s, k) && times(re, (n + 1 - 1) as nat, fold, s, i, k));
}

/// A match of a branch is a match of the alternation.
pub proof fn lemma_branch(
    branches: Seq<Re>,
    b: int,
    fold: bool,
    s: Seq<char>,
    i: int,
    j: int,
)
    requires
        0 <= b < branches.len(),
        matches(branches[b], fold, s, i, j),
    ensures
        matches(Re::Alternate(branches), fold, s, i, j),
{
    let re = Re::Alternate(branches);
    assert(re->Alternate_0 == branches);
    assert(re->Alternate_0[b] == branches[b]);
}

/// A match followed by `n` repetitions is `n + 1` repetitions.
pub proof fn lemma_times_front(
    re: Re,
    n: nat,
    fold: bool,
    s: Seq<char>,
    i: int,
    k: int,
    j: int,
)
    requires
        position(s, i),
        matches(re, fold, s, i, k),
        times(re, n, fold, s, k, j),
    ensures
        times(re, n + 1, fold, s, i, j),
    decreases n,
{
    lemma_bounds(re, fold, s, i, k);
    if n == 0 {
        assert(times(re, 0, fold, s, i, i));
        assert(position(s, i) && times(re, (n + 1 - 1) as nat, fold, s, i, i));
    } else {
        let m = (n - 1) as nat;
        let last = choose|last: int| #[trigger]
            position(s, last) && times(re, m, fold, s, k, last) && matches(re, fold, s, last, j);
        lemma_times_front(re, m, fold, s, i, k, last);
        assert(position(s, last) && times(re, (n + 1 - 1) as nat, fold, s, i, last));
    }
}

/// `n + 1` repetitions start with one match, and `n` repetitions follow it.
pub proof fn lemma_times_split(re: Re, n: nat, fold: bool, s: Seq<char>, i: int, j: int) -> (k: int)
    requires
        position(s, i),
        times(re, n + 1, fold, s, i, j),
    ensures
        position(s, k),
        matches(re, fold, s, i, k),
        times(re, n, fold, s, k, j),
    decreases n,
{
    let last = choose|last: int| #[trigger]
        position(s, last) && times(re, (n + 1 - 1) as nat, fold, s, i, last) && matches(
            re,
            fold,
            s,
            last,
            j,
        );
    if n == 0 {
        assert(times(re, 0, fold, s, i, last));
        lemma_bounds(re, fold, s, i, j);
        j
    } else {
        let m = (n - 1) as nat;
        let k = lemma_times_split(re, m, fold, s, i, last);
        assert(position(s, last) && times(re, m, fold, s, k, last));
        k
    }
}

/// Some match starts at `i`.
pub open spec fn starts_at(re: Re, fold: bool, s: Seq<char>, i: int) -> bool {
    exists|j: int| matches(re, fold, s, i, j)
}

/// The end of the longest match that starts at `i`.
pub open spec fn longest_end(re: Re, fold: bool, s: Seq<char>, i: int) -> int {
    choose|j: int|
        matches(re, fold, s, i, j) && forall|k: int|
            #[trigger] matches(re, fold, s, i, k) ==> k <= j
}

/// The leftmost match at or behind `from`, and the longest of those.
pub open spec fn first_match(re: Re, fold: bool, s: Seq<char>, from: int) -> Option<(int, int)>
    decreases s.len() + 1 - from,
{
    if from > s.len() {
        None
    } else if starts_at(re, fold, s, from) {
        Some((from, longest_end(re, fold, s, from)))
    } else {
        first_match(re, fold, s, from + 1)
    }
}

/// All non-overlapping matches at or behind `from`, from left to right. Behind
/// an empty match, one character is passed over.
pub open spec fn all_matches(re: Re, fold: bool, s: Seq<char>, from: int) -> Seq<(int, int)>
    decreases s.len() + 1 - from,
{
    match first_match(re, fold, s, from) {
        Some((a, b)) => {
            let next = if b > a {
                b
            } else {
                a + 1
            };
            if from < next <= s.len() {
                seq![(a, b)] + all_matches(re, fold, s, next)
            } else {
                seq![(a, b)]
            }
        },
        None => Seq::empty(),
    }
}

/// A pair of indices as numbers.
pub open spec fn span(pair: (usize, usize)) -> (int, int) {
    (pair.0 as int, pair.1 as int)
}

/// [`span`] of what is there.
pub open spec fn span_option(pair: Option<(usize, usize)>) -> Option<(int, int)> {
    match pair {
        Some(found) => Some(span(found)),
        None => None,
    }
}

/// [`span`], element by element.
pub open spec fn spans(pairs: Seq<(usize, usize)>) -> Seq<(int, int)> {
    pairs.map_values(|pair: (usize, usize)| span(pair))
}

/// A match that no match from the same start outruns is the longest.
pub proof fn lemma_longest(re: Re, fold: bool, s: Seq<char>, i: int, j: int)
    requires
        matches(re, fold, s, i, j),
        forall|k: int| #[trigger] matches(re, fold, s, i, k) ==> k <= j,
    ensures
        starts_at(re, fold, s, i),
        longest_end(re, fold, s, i) == j,
{
    let best = longest_end(re, fold, s, i);
    assert(matches(re, fold, s, i, best) && forall|k: int| #[trigger]
        matches(re, fold, s, i, k) ==> k <= best);
}

/// Where a match starts, there is a longest one.
pub proof fn lemma_longest_exists(re: Re, fold: bool, s: Seq<char>, i: int)
    requires
        position(s, i),
        starts_at(re, fold, s, i),
    ensures
        matches(re, fold, s, i, longest_end(re, fold, s, i)),
        i <= longest_end(re, fold, s, i) <= s.len(),
        forall|k: int| #[trigger] matches(re, fold, s, i, k) ==> k <= longest_end(re, fold, s, i),
{
    let j = choose|j: int| matches(re, fold, s, i, j);
    lemma_bounds(re, fold, s, i, j);
    let best = lemma_climb(re, fold, s, i, j);
    lemma_longest(re, fold, s, i, best);
    lemma_bounds(re, fold, s, i, best);
}

proof fn lemma_climb(re: Re, fold: bool, s: Seq<char>, i: int, j: int) -> (best: int)
    requires
        position(s, i),
        matches(re, fold, s, i, j),
        j <= s.len(),
    ensures
        matches(re, fold, s, i, best),
        forall|k: int| #[trigger] matches(re, fold, s, i, k) ==> k <= best,
    decreases s.len() - j,
{
    if exists|k: int| #[trigger] matches(re, fold, s, i, k) && k > j {
        let k = choose|k: int| #[trigger] matches(re, fold, s, i, k) && k > j;
        lemma_bounds(re, fold, s, i, k);
        lemma_climb(re, fold, s, i, k)
    } else {
        j
    }
}

/// The leftmost match at or behind `from` is a match; none starts before it,
/// none that starts with it is longer; and where there is none, no match
/// starts at or behind `from`.
pub proof fn lemma_first_match(re: Re, fold: bool, s: Seq<char>, from: int)
    requires
        0 <= from,
    ensures
        match first_match(re, fold, s, from) {
            Some((a, b)) => {
                &&& from <= a <= b <= s.len()
                &&& matches(re, fold, s, a, b)
                &&& forall|i: int, j: int|
                    from <= i < a ==> !#[trigger] matches(re, fold, s, i, j)
                &&& forall|j: int| #[trigger] matches(re, fold, s, a, j) ==> j <= b
            },
            None => forall|i: int, j: int|
                from <= i <= s.len() ==> !#[trigger] matches(re, fold, s, i, j),
        },
    decreases s.len() + 1 - from,
{
    if from <= s.len() {
        if starts_at(re, fold, s, from) {
            lemma_longest_exists(re, fold, s, from);
        } else {
            lemma_first_match(re, fold, s, from + 1);
        }
    }
}

} // verus!
