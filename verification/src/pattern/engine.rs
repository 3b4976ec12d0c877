//! Matching: the set of positions at which a match can end.

use vstd::prelude::*;

use crate::pattern::semantics;
use crate::pattern::tree;
use crate::pattern::tree::{Node, Re};

verus! {

/// `j` is one of `ends`.
pub open spec fn among(ends: Seq<usize>, j: int) -> bool {
    exists|t: int| 0 <= t < ends.len() && #[trigger] ends[t] == j
}

/// `ends` holds positions of the line only.
pub open spec fn positions(ends: Seq<usize>, s: Seq<char>) -> bool {
    forall|t: int| 0 <= t < ends.len() ==> #[trigger] ends[t] <= s.len()
}

/// `j` is reached from one of `seeds` by any number of repetitions of `re`.
pub open spec fn repeats_from(re: Re, fold: bool, s: Seq<char>, seeds: Seq<usize>, j: int) -> bool {
    exists|t: int, n: nat|
        0 <= t < seeds.len() && semantics::times(re, n, fold, s, #[trigger] seeds[t] as int, j)
            && #[trigger] semantics::repetitions(n)
}

/// `j` is reached from one of `starts` by one match of `re`.
pub open spec fn one_from(re: Re, fold: bool, s: Seq<char>, starts: Seq<usize>, j: int) -> bool {
    exists|t: int|
        0 <= t < starts.len() && semantics::matches(re, fold, s, #[trigger] starts[t] as int, j)
}

/// How many of the first `n` flags are down.
pub open spec fn unseen(seen: Seq<bool>, n: int) -> nat
    decreases n,
{
    if n <= 0 {
        0
    } else {
        unseen(seen, n - 1) + (if seen[n - 1] {
            0nat
        } else {
            1nat
        })
    }
}

proof fn lemma_unseen_update(seen: Seq<bool>, q: int, n: int)
    requires
        0 <= q < seen.len(),
        n <= seen.len(),
        !seen[q],
    ensures
        unseen(seen.update(q, true), n) + (if q < n {
            1nat
        } else {
            0nat
        }) == unseen(seen, n),
    decreases n,
{
    if n > 0 {
        lemma_unseen_update(seen, q, n - 1);
    }
}

/// `j` is reached from one of `starts` by matching `items[from]` and all that
/// follows it.
pub open spec fn follows(
    items: Seq<Re>,
    from: int,
    fold: bool,
    s: Seq<char>,
    starts: Seq<usize>,
    j: int,
) -> bool {
    exists|t: int|
        0 <= t < starts.len() && semantics::sequence(
            items,
            from,
            fold,
            s,
            #[trigger] starts[t] as int,
            j,
        )
}

proof fn lemma_follows_end(items: Seq<Re>, fold: bool, s: Seq<char>, starts: Seq<usize>, j: int)
    ensures
        follows(items, items.len() as int, fold, s, starts, j) <==> among(starts, j),
{
    if among(starts, j) {
        let t = choose|t: int| 0 <= t < starts.len() && #[trigger] starts[t] == j;
        assert(semantics::sequence(items, items.len() as int, fold, s, starts[t] as int, j));
    }
}

proof fn lemma_follows_step(
    items: Seq<Re>,
    from: int,
    fold: bool,
    s: Seq<char>,
    starts: Seq<usize>,
    next: Seq<usize>,
)
    requires
        0 <= from < items.len(),
        positions(starts, s),
        positions(next, s),
        forall|j: int| #[trigger] among(next, j) <==> one_from(items[from], fold, s, starts, j),
    ensures
        forall|j: int|
            follows(items, from, fold, s, starts, j) <==> #[trigger] follows(
                items,
                from + 1,
                fold,
                s,
                next,
                j,
            ),
{
    assert forall|j: int|
        follows(items, from, fold, s, starts, j) <==> #[trigger] follows(
            items,
            from + 1,
            fold,
            s,
            next,
            j,
        ) by {
        if follows(items, from, fold, s, starts, j) {
            let t = choose|t: int|
                0 <= t < starts.len() && semantics::sequence(
                    items,
                    from,
                    fold,
                    s,
                    #[trigger] starts[t] as int,
                    j,
                );
            let k = choose|k: int| #[trigger]
                semantics::position(s, k) && semantics::matches(
                    items[from],
                    fold,
                    s,
                    starts[t] as int,
                    k,
                ) && semantics::sequence(items, from + 1, fold, s, k, j);
            assert(one_from(items[from], fold, s, starts, k));
            assert(among(next, k));
            let u = choose|u: int| 0 <= u < next.len() && #[trigger] next[u] == k;
            assert(semantics::sequence(items, from + 1, fold, s, next[u] as int, j));
        }
        if follows(items, from + 1, fold, s, next, j) {
            let u = choose|u: int|
                0 <= u < next.len() && semantics::sequence(
                    items,
                    from + 1,
                    fold,
                    s,
                    #[trigger] next[u] as int,
                    j,
                );
            let k = next[u] as int;
            assert(among(next, k));
            let t = choose|t: int|
                0 <= t < starts.len() && semantics::matches(
                    items[from],
                    fold,
                    s,
                    #[trigger] starts[t] as int,
                    k,
                );
            assert(semantics::position(s, k));
            assert(semantics::sequence(items, from, fold, s, starts[t] as int, j));
        }
    }
}

/// True when there is a word boundary at `pos`: exactly one side of the
/// position is a word character. Line edges count as non-word.
fn at_boundary(chars: &[char], pos: usize) -> (yes: bool)
    requires
        pos <= chars@.len(),
    ensures
        yes == semantics::boundary(chars@, pos as int),
{
    let before = pos > 0 && tree::is_word_char(chars[pos - 1]);
    let after = pos < chars.len() && tree::is_word_char(chars[pos]);
    before != after
}

/// Case-aware character equality.
fn chars_eq(a: char, b: char, fold: bool) -> (yes: bool)
    ensures
        yes == tree::same_char(a, b, fold),
{
    if fold {
        tree::fold_char(a) == tree::fold_char(b)
    } else {
        a == b
    }
}

proof fn lemma_among_push(ends: Seq<usize>, q: usize)
    ensures
        forall|j: int| #[trigger] among(ends.push(q), j) <==> among(ends, j) || j == q,
{
    let more = ends.push(q);
    assert forall|j: int| #[trigger] among(more, j) <==> among(ends, j) || j == q by {
        if among(ends, j) {
            let t = choose|t: int| 0 <= t < ends.len() && #[trigger] ends[t] == j;
            assert(more[t] == j);
        }
        if j == q {
            assert(more[ends.len() as int] == j);
        }
        if among(more, j) && j != q {
            let t = choose|t: int| 0 <= t < more.len() && #[trigger] more[t] == j;
            assert(ends[t] == j);
        }
    }
}

proof fn lemma_among_append(a: Seq<usize>, b: Seq<usize>)
    ensures
        forall|j: int| #[trigger] among(a + b, j) <==> among(a, j) || among(b, j),
{
    assert forall|j: int| #[trigger] among(a + b, j) <==> among(a, j) || among(b, j) by {
        if among(a, j) {
            let t = choose|t: int| 0 <= t < a.len() && #[trigger] a[t] == j;
            assert((a + b)[t] == j);
        }
        if among(b, j) {
            let t = choose|t: int| 0 <= t < b.len() && #[trigger] b[t] == j;
            assert((a + b)[a.len() + t] == j);
        }
        if among(a + b, j) {
            let t = choose|t: int| 0 <= t < (a + b).len() && #[trigger] (a + b)[t] == j;
            if t < a.len() {
                assert(a[t] == j);
            } else {
                assert(b[t - a.len()] == j);
            }
        }
    }
}

/// What one match reaches, repeated any number of times, is what one or more
/// repetitions reach.
proof fn lemma_plus(re: Re, fold: bool, s: Seq<char>, i: int, first: Seq<usize>)
    requires
        semantics::position(s, i),
        forall|j: int| #[trigger] among(first, j) <==> semantics::matches(re, fold, s, i, j),
    ensures
        forall|j: int|
            semantics::matches(Re::Plus(Box::new(re)), fold, s, i, j) <==> #[trigger] repeats_from(
                re,
                fold,
                s,
                first,
                j,
            ),
{
    assert forall|j: int|
        semantics::matches(Re::Plus(Box::new(re)), fold, s, i, j) <==> #[trigger] repeats_from(
            re,
            fold,
            s,
            first,
            j,
        ) by {
        if semantics::matches(Re::Plus(Box::new(re)), fold, s, i, j) {
            let n = choose|n: nat| #[trigger]
                semantics::repetitions(n) && n >= 1 && semantics::times(re, n, fold, s, i, j);
            let m = (n - 1) as nat;
            let k = semantics::lemma_times_split(re, m, fold, s, i, j);
            assert(among(first, k));
            let t = choose|t: int| 0 <= t < first.len() && #[trigger] first[t] == k;
            assert(semantics::times(re, m, fold, s, first[t] as int, j));
            assert(semantics::repetitions(m));
        }
        if repeats_from(re, fold, s, first, j) {
            let (t, n) = choose|t: int, n: nat|
                0 <= t < first.len() && semantics::times(
                    re,
                    n,
                    fold,
                    s,
                    #[trigger] first[t] as int,
                    j,
                ) && #[trigger] semantics::repetitions(n);
            assert(among(first, first[t] as int));
            semantics::lemma_times_front(re, n, fold, s, i, first[t] as int, j);
            assert(semantics::repetitions(n + 1));
        }
    }
}

/// A set that every match leads back into holds what repetitions reach.
proof fn lemma_closed(
    re: Re,
    n: nat,
    fold: bool,
    s: Seq<char>,
    set: Seq<usize>,
    i: int,
    j: int,
)
    requires
        among(set, i),
        semantics::times(re, n, fold, s, i, j),
        forall|p: int, q: int|
            among(set, p) && #[trigger] semantics::matches(re, fold, s, p, q) ==> among(set, q),
    ensures
        among(set, j),
    decreases n,
{
    if n > 0 {
        let m = (n - 1) as nat;
        let k = choose|k: int| #[trigger]
            semantics::position(s, k) && semantics::times(re, m, fold, s, i, k)
                && semantics::matches(re, fold, s, k, j);
        lemma_closed(re, m, fold, s, set, i, k);
    }
}

/// A flag for every position of a line, the one behind the last character
/// included.
struct Flags {
    inner: Vec<bool>,
    last: bool,
}

impl View for Flags {
    type V = Seq<bool>;

    closed spec fn view(&self) -> Seq<bool> {
        self.inner@.push(self.last)
    }
}

impl Flags {
    /// The flags of a line, all down.
    fn new(chars: &[char]) -> (out: Flags)
        ensures
            out@.len() == chars@.len() + 1,
            forall|q: int| 0 <= q < out@.len() ==> !#[trigger] out@[q],
    {
        let mut inner: Vec<bool> = Vec::new();
        let mut i: usize = 0;
        while i < chars.len()
            invariant
                i <= chars@.len(),
                inner@.len() == i,
                forall|q: int| 0 <= q < i ==> !#[trigger] inner@[q],
            decreases chars@.len() - i,
        {
            inner.push(false);
            i += 1;
        }
        Flags { inner, last: false }
    }

    fn get(&self, pos: usize) -> (up: bool)
        requires
            pos < self@.len(),
        ensures
            up == self@[pos as int],
    {
        if pos < self.inner.len() {
            self.inner[pos]
        } else {
            self.last
        }
    }

    fn raise(&mut self, pos: usize)
        requires
            pos < old(self)@.len(),
        ensures
            final(self)@ == old(self)@.update(pos as int, true),
    {
        if pos < self.inner.len() {
            self.inner.set(pos, true);
        } else {
            self.last = true;
        }
        assert(self@ =~= old(self)@.update(pos as int, true));
    }
}

/// A set of positions: a list without repetitions and a flag for each.
struct Reached {
    list: Vec<usize>,
    flags: Flags,
}

impl Reached {
    spec fn fits(&self, s: Seq<char>) -> bool {
        &&& positions(self.list@, s)
        &&& self.flags@.len() == s.len() + 1
        &&& forall|q: int|
            0 <= q < self.flags@.len() ==> (#[trigger] self.flags@[q] <==> among(self.list@, q))
    }

    /// How many positions are missing.
    spec fn room(&self) -> nat {
        unseen(self.flags@, self.flags@.len() as int)
    }

    fn new(chars: &[char]) -> (out: Reached)
        ensures
            out.fits(chars@),
            out.list@.len() == 0,
    {
        Reached { list: Vec::new(), flags: Flags::new(chars) }
    }

    /// Adds a position, and says whether it was missing.
    fn insert(&mut self, pos: usize, Ghost(s): Ghost<Seq<char>>) -> (added: bool)
        requires
            old(self).fits(s),
            pos <= s.len(),
        ensures
            final(self).fits(s),
            added == !among(old(self).list@, pos as int),
            added ==> final(self).list@ == old(self).list@.push(pos),
            !added ==> final(self).list@ == old(self).list@,
            forall|j: int|
                #[trigger] among(final(self).list@, j) <==> among(old(self).list@, j) || j == pos,
            final(self).room() + (if added {
                1nat
            } else {
                0nat
            }) == old(self).room(),
    {
        if self.flags.get(pos) {
            return false;
        }
        proof {
            lemma_unseen_update(self.flags@, pos as int, self.flags@.len() as int);
            lemma_among_push(self.list@, pos);
        }
        self.flags.raise(pos);
        self.list.push(pos);
        true
    }
}

/// Every position at which a match of `node` that starts at `pos` can end.
///
/// Quantifiers collect reachable positions transitively, and concatenation
/// folds the set of positions through each item in turn.
pub fn collect_ends(node: &Node, fold: bool, chars: &[char], pos: usize) -> (ends: Vec<usize>)
    requires
        pos <= chars@.len(),
    ensures
        positions(ends@, chars@),
        forall|j: int|
            #[trigger] among(ends@, j) <==> semantics::matches(
                node@,
                fold,
                chars@,
                pos as int,
                j,
            ),
    decreases node, 0nat,
{
    let ghost s = chars@;
    let mut out: Vec<usize> = Vec::new();
    match node {
        Node::Empty => {
            out.push(pos);
            proof {
                lemma_among_push(Seq::empty(), pos);
            }
        },
        Node::Literal(expected) => {
            if pos < chars.len() && chars_eq(*expected, chars[pos], fold) {
                out.push(pos + 1);
                proof {
                    lemma_among_push(Seq::empty(), (pos + 1) as usize);
                }
            }
        },
        Node::AnyChar => {
            if pos < chars.len() && chars[pos] != '\n' {
                out.push(pos + 1);
                proof {
                    lemma_among_push(Seq::empty(), (pos + 1) as usize);
                }
            }
        },
        Node::Class(class) => {
            if pos < chars.len() && class.matches(chars[pos], fold) {
                out.push(pos + 1);
                proof {
                    lemma_among_push(Seq::empty(), (pos + 1) as usize);
                }
            }
        },
        Node::StartAnchor => {
            if pos == 0 {
                out.push(pos);
                proof {
                    lemma_among_push(Seq::empty(), pos);
                }
            }
        },
        Node::EndAnchor => {
            if pos == chars.len() {
                out.push(pos);
                proof {
                    lemma_among_push(Seq::empty(), pos);
                }
            }
        },
        Node::WordBoundary => {
            if at_boundary(chars, pos) {
                out.push(pos);
                proof {
                    lemma_among_push(Seq::empty(), pos);
                }
            }
        },
        Node::Star(inner) => {
            let mut seeds: Vec<usize> = Vec::new();
            seeds.push(pos);
            out = repeat_ends(inner, fold, chars, &seeds);
            proof {
                assert forall|j: int| #[trigger] among(out@, j) <==> semantics::matches(
                    node@,
                    fold,
                    s,
                    pos as int,
                    j,
                ) by {
                    if repeats_from(inner@, fold, s, seeds@, j) {
                        let (t, n) = choose|t: int, n: nat|
                            0 <= t < seeds@.len() && semantics::times(
                                inner@,
                                n,
                                fold,
                                s,
                                #[trigger] seeds@[t] as int,
                                j,
                            ) && #[trigger] semantics::repetitions(n);
                        assert(semantics::repetitions(n));
                    }
                    if semantics::matches(node@, fold, s, pos as int, j) {
                        let n = choose|n: nat| #[trigger]
                            semantics::repetitions(n) && semantics::times(
                                inner@,
                                n,
                                fold,
                                s,
                                pos as int,
                                j,
                            );
                        assert(seeds@[0] == pos && semantics::repetitions(n));
                    }
                }
            }
        },
        Node::Plus(inner) => {
            // One mandatory application seeds the set; the rest behave
            // exactly like the star.
            let first = collect_ends(inner, fold, chars, pos);
            out = repeat_ends(inner, fold, chars, &first);
            proof {
                lemma_plus(inner@, fold, s, pos as int, first@);
                assert(node@ == Re::Plus(Box::new(inner@)));
            }
        },
        Node::Optional(inner) => {
            out = collect_ends(inner, fold, chars, pos);
            proof {
                lemma_among_push(out@, pos);
            }
            out.push(pos);
        },
        Node::Concat(items) => {
            out.push(pos);
            proof {
                lemma_among_push(Seq::empty(), pos);
            }
            let mut i: usize = 0;
            let ghost res = tree::trees(items@);
            assert forall|j: int|
                semantics::sequence(res, 0, fold, s, pos as int, j) <==> #[trigger] follows(
                    res,
                    0,
                    fold,
                    s,
                    out@,
                    j,
                ) by {
                assert(out@[0] == pos);
            }
            while i < items.len()
                invariant
                    i <= items@.len(),
                    node == Node::Concat(*items),
                    res == tree::trees(items@),
                    s == chars@,
                    positions(out@, s),
                    forall|j: int|
                        semantics::sequence(res, 0, fold, s, pos as int, j) <==> #[trigger] follows(
                            res,
                            i as int,
                            fold,
                            s,
                            out@,
                            j,
                        ),
                decreases items@.len() - i,
            {
                assert(decreases_to!(*node => node->Concat_0@[i as int]));
                let next = step_ends(&items[i], fold, chars, &out);
                proof {
                    assert(items@[i as int]@ == res[i as int]);
                    lemma_follows_step(res, i as int, fold, s, out@, next@);
                }
                out = next;
                i += 1;
            }
            proof {
                assert(node@ == Re::Concat(res));
                assert forall|j: int| #[trigger] among(out@, j) <==> semantics::matches(
                    node@,
                    fold,
                    s,
                    pos as int,
                    j,
                ) by {
                    assert(follows(res, i as int, fold, s, out@, j) <==> among(out@, j)) by {
                        lemma_follows_end(res, fold, s, out@, j);
                    }
                }
            }
        },
        Node::Alternate(branches) => {
            let mut i: usize = 0;
            let ghost res = tree::trees(branches@);
            while i < branches.len()
                invariant
                    i <= branches@.len(),
                    node == Node::Alternate(*branches),
                    res == tree::trees(branches@),
                    s == chars@,
                    pos <= s.len(),
                    positions(out@, s),
                    forall|j: int|
                        #[trigger] among(out@, j) <==> exists|b: int|
                            0 <= b < i && semantics::matches(
                                #[trigger] res[b],
                                fold,
                                s,
                                pos as int,
                                j,
                            ),
                decreases branches@.len() - i,
            {
                assert(decreases_to!(*node => node->Alternate_0@[i as int]));
                let mut more = collect_ends(&branches[i], fold, chars, pos);
                proof {
                    lemma_among_append(out@, more@);
                    assert(branches@[i as int]@ == res[i as int]);
                }
                out.append(&mut more);
                i += 1;
            }
            proof {
                assert(node@ == Re::Alternate(res));
                assert(res.len() == i);
                assert forall|j: int| #[trigger] among(out@, j) <==> semantics::matches(
                    node@,
                    fold,
                    s,
                    pos as int,
                    j,
                ) by {
                    if among(out@, j) {
                        let b = choose|b: int|
                            0 <= b < i && semantics::matches(
                                #[trigger] res[b],
                                fold,
                                s,
                                pos as int,
                                j,
                            );
                        assert(semantics::matches(res[b], fold, s, pos as int, j));
                        semantics::lemma_branch(res, b, fold, s, pos as int, j);
                    }
                    if semantics::matches(node@, fold, s, pos as int, j) {
                        let b = choose|b: int|
                            0 <= b < res.len() && semantics::matches(
                                #[trigger] res[b],
                                fold,
                                s,
                                pos as int,
                                j,
                            );
                        assert(semantics::matches(res[b], fold, s, pos as int, j));
                    }
                }
            }
        },
    }
    out
}

/// Every position that any number of matches of `node`, one after the other,
/// reach from one of `seeds`.
fn repeat_ends(node: &Node, fold: bool, chars: &[char], seeds: &Vec<usize>) -> (ends: Vec<usize>)
    requires
        positions(seeds@, chars@),
    ensures
        positions(ends@, chars@),
        forall|j: int| #[trigger] among(ends@, j) <==> repeats_from(node@, fold, chars@, seeds@, j),
    decreases node, 1nat,
{
    let ghost s = chars@;
    let ghost re = node@;
    let mut reached = Reached::new(chars);
    let mut frontier: Vec<usize> = Vec::new();
    let mut i: usize = 0;
    while i < seeds.len()
        invariant
            i <= seeds@.len(),
            s == chars@,
            positions(seeds@, s),
            reached.fits(s),
            frontier@ == reached.list@,
            forall|j: int| #[trigger] among(reached.list@, j) <==> among(seeds@.take(i as int), j),
        decreases seeds@.len() - i,
    {
        let seed = seeds[i];
        if reached.insert(seed, Ghost(s)) {
            frontier.push(seed);
        }
        proof {
            assert(seeds@.take(i + 1) =~= seeds@.take(i as int).push(seed));
            lemma_among_push(seeds@.take(i as int), seed);
        }
        i += 1;
    }
    proof {
        assert(seeds@.take(i as int) =~= seeds@);
        assert forall|j: int| #[trigger] among(reached.list@, j) implies repeats_from(
            re,
            fold,
            s,
            seeds@,
            j,
        ) by {
            assert(among(seeds@, j));
            let t = choose|t: int| 0 <= t < seeds@.len() && #[trigger] seeds@[t] == j;
            assert(semantics::times(re, 0, fold, s, seeds@[t] as int, j));
            assert(semantics::repetitions(0));
        }
    }
    while frontier.len() > 0
        invariant
            s == chars@,
            re == node@,
            positions(seeds@, s),
            positions(frontier@, s),
            reached.fits(s),
            forall|j: int| #[trigger] among(seeds@, j) ==> among(reached.list@, j),
            forall|j: int| #[trigger] among(frontier@, j) ==> among(reached.list@, j),
            forall|j: int|
                #[trigger] among(reached.list@, j) ==> repeats_from(re, fold, s, seeds@, j),
            forall|p: int, q: int|
                among(reached.list@, p) && !among(frontier@, p) && #[trigger] semantics::matches(
                    re,
                    fold,
                    s,
                    p,
                    q,
                ) ==> among(reached.list@, q),
        decreases reached.room() + frontier@.len(),
    {
        let ghost all = frontier@;
        let ghost rest = all.drop_last();
        let ghost before = reached.list@;
        let p = match frontier.pop() {
            Some(p) => p,
            None => 0,
        };
        let ghost room = reached.room() + frontier@.len();
        proof {
            assert(all =~= rest.push(p));
            lemma_among_push(rest, p);
            assert(among(all, p as int));
            assert forall|j: int| #[trigger] among(rest, j) implies among(before, j) by {
                assert(among(all, j));
            }
        }
        let next = collect_ends(node, fold, chars, p);
        let mut k: usize = 0;
        while k < next.len()
            invariant
                k <= next@.len(),
                s == chars@,
                positions(next@, s),
                positions(frontier@, s),
                reached.fits(s),
                reached.room() + frontier@.len() == room,
                forall|j: int|
                    #[trigger] among(reached.list@, j) <==> among(before, j) || among(
                        next@.take(k as int),
                        j,
                    ),
                forall|j: int|
                    #[trigger] among(frontier@, j) <==> among(rest, j) || (among(
                        reached.list@,
                        j,
                    ) && !among(before, j)),
            decreases next@.len() - k,
        {
            let q = next[k];
            let ghost f = frontier@;
            if reached.insert(q, Ghost(s)) {
                frontier.push(q);
                proof {
                    lemma_among_push(f, q);
                }
            }
            proof {
                assert(next@.take(k + 1) =~= next@.take(k as int).push(q));
                lemma_among_push(next@.take(k as int), q);
            }
            k += 1;
        }
        proof {
            assert(next@.take(k as int) =~= next@);
            assert forall|j: int| #[trigger] among(reached.list@, j) implies repeats_from(
                re,
                fold,
                s,
                seeds@,
                j,
            ) by {
                if !among(before, j) {
                    let (t, n) = choose|t: int, n: nat|
                        0 <= t < seeds@.len() && semantics::times(
                            re,
                            n,
                            fold,
                            s,
                            #[trigger] seeds@[t] as int,
                            p as int,
                        ) && #[trigger] semantics::repetitions(n);
                    assert(semantics::position(s, p as int));
                    assert(semantics::times(
                        re,
                        (n + 1 - 1) as nat,
                        fold,
                        s,
                        seeds@[t] as int,
                        p as int,
                    ));
                    assert(semantics::times(re, n + 1, fold, s, seeds@[t] as int, j));
                    assert(semantics::repetitions(n + 1));
                }
            }
        }
    }
    proof {
        assert forall|j: int| repeats_from(re, fold, s, seeds@, j) implies #[trigger] among(
            reached.list@,
            j,
        ) by {
            let (t, n) = choose|t: int, n: nat|
                0 <= t < seeds@.len() && semantics::times(
                    re,
                    n,
                    fold,
                    s,
                    #[trigger] seeds@[t] as int,
                    j,
                ) && #[trigger] semantics::repetitions(n);
            assert(among(seeds@, seeds@[t] as int));
            lemma_closed(re, n, fold, s, reached.list@, seeds@[t] as int, j);
        }
    }
    reached.list
}

/// Every position that one match of `node` reaches from one of `starts`.
fn step_ends(node: &Node, fold: bool, chars: &[char], starts: &Vec<usize>) -> (ends: Vec<usize>)
    requires
        positions(starts@, chars@),
    ensures
        positions(ends@, chars@),
        forall|j: int| #[trigger] among(ends@, j) <==> one_from(node@, fold, chars@, starts@, j),
    decreases node, 1nat,
{
    let ghost s = chars@;
    let mut reached = Reached::new(chars);
    let mut i: usize = 0;
    while i < starts.len()
        invariant
            i <= starts@.len(),
            s == chars@,
            positions(starts@, s),
            reached.fits(s),
            forall|j: int|
                #[trigger] among(reached.list@, j) <==> one_from(
                    node@,
                    fold,
                    s,
                    starts@.take(i as int),
                    j,
                ),
        decreases starts@.len() - i,
    {
        let more = collect_ends(node, fold, chars, starts[i]);
        let ghost before = reached.list@;
        let mut k: usize = 0;
        while k < more.len()
            invariant
                k <= more@.len(),
                s == chars@,
                positions(more@, s),
                reached.fits(s),
                forall|j: int|
                    #[trigger] among(reached.list@, j) <==> among(before, j) || among(
                        more@.take(k as int),
                        j,
                    ),
            decreases more@.len() - k,
        {
            reached.insert(more[k], Ghost(s));
            proof {
                assert(more@.take(k + 1) =~= more@.take(k as int).push(more@[k as int]));
                lemma_among_push(more@.take(k as int), more@[k as int]);
            }
            k += 1;
        }
        proof {
            assert(more@.take(k as int) =~= more@);
            let old_part = starts@.take(i as int);
            let new_part = starts@.take(i + 1);
            assert forall|j: int| #[trigger] among(reached.list@, j) <==> one_from(
                node@,
                fold,
                s,
                new_part,
                j,
            ) by {
                assert(new_part[i as int] == starts@[i as int]);
                if one_from(node@, fold, s, old_part, j) {
                    let t = choose|t: int|
                        0 <= t < old_part.len() && semantics::matches(
                            node@,
                            fold,
                            s,
                            #[trigger] old_part[t] as int,
                            j,
                        );
                    assert(new_part[t] == old_part[t]);
                }
                if one_from(node@, fold, s, new_part, j) && !among(more@, j) {
                    let t = choose|t: int|
                        0 <= t < new_part.len() && semantics::matches(
                            node@,
                            fold,
                            s,
                            #[trigger] new_part[t] as int,
                            j,
                        );
                    assert(t < i);
                    assert(new_part[t] == old_part[t]);
                }
            }
        }
        i += 1;
    }
    assert(starts@.take(i as int) =~= starts@);
    reached.list
}

} // verus!
