//! Sorting by keys.
//!
//! Everything searchlight prints has a fixed order, whatever order threads and
//! file systems deliver it in. Items are ordered by a key, a sequence of
//! numbers, and keys are ordered as dictionaries order words.

use vstd::multiset::*;
use vstd::prelude::*;
use vstd::relations::*;
use vstd::seq_lib::*;

verus! {

/// `a` comes before `b`, or they are the same.
pub open spec fn le(a: Seq<int>, b: Seq<int>) -> bool
    decreases a.len(),
{
    if a.len() == 0 {
        true
    } else if b.len() == 0 {
        false
    } else if a[0] != b[0] {
        a[0] < b[0]
    } else {
        le(a.drop_first(), b.drop_first())
    }
}

/// Every item comes before or with every later one.
pub open spec fn sorted(keys: Seq<Seq<int>>) -> bool {
    forall|i: int, j: int| 0 <= i <= j < keys.len() ==> #[trigger] le(keys[i], keys[j])
}

proof fn lemma_le_reflexive(a: Seq<int>)
    ensures
        le(a, a),
    decreases a.len(),
{
    if a.len() > 0 {
        lemma_le_reflexive(a.drop_first());
    }
}

proof fn lemma_le_total(a: Seq<int>, b: Seq<int>)
    ensures
        le(a, b) || le(b, a),
    decreases a.len(),
{
    if a.len() > 0 && b.len() > 0 && a[0] == b[0] {
        lemma_le_total(a.drop_first(), b.drop_first());
    }
}

proof fn lemma_le_transitive(a: Seq<int>, b: Seq<int>, c: Seq<int>)
    requires
        le(a, b),
        le(b, c),
    ensures
        le(a, c),
    decreases a.len(),
{
    if a.len() > 0 && b.len() > 0 && c.len() > 0 && a[0] == b[0] && b[0] == c[0] {
        lemma_le_transitive(a.drop_first(), b.drop_first(), c.drop_first());
    }
}

proof fn lemma_le_antisymmetric(a: Seq<int>, b: Seq<int>)
    requires
        le(a, b),
        le(b, a),
    ensures
        a == b,
    decreases a.len(),
{
    if a.len() > 0 {
        lemma_le_antisymmetric(a.drop_first(), b.drop_first());
        assert(a =~= seq![a[0]] + a.drop_first());
        assert(b =~= seq![b[0]] + b.drop_first());
    } else {
        assert(b.len() == 0);
        assert(a =~= b);
    }
}

/// The order of the keys is total.
pub proof fn lemma_le_is_a_total_order()
    ensures
        total_ordering(|a: Seq<int>, b: Seq<int>| le(a, b)),
{
    let order = |a: Seq<int>, b: Seq<int>| le(a, b);
    assert forall|a: Seq<int>| #[trigger] order(a, a) by {
        lemma_le_reflexive(a);
    }
    assert forall|a: Seq<int>, b: Seq<int>| #[trigger] order(a, b) && #[trigger] order(b, a)
        implies a == b by {
        lemma_le_antisymmetric(a, b);
    }
    assert forall|a: Seq<int>, b: Seq<int>, c: Seq<int>| #[trigger]
        order(a, b) && #[trigger] order(b, c) implies order(a, c) by {
        lemma_le_transitive(a, b, c);
    }
    assert forall|a: Seq<int>, b: Seq<int>| #[trigger] order(a, b) || #[trigger] order(b, a) by {
        lemma_le_total(a, b);
    }
}

/// Something with a place in an order.
pub trait Placed: Sized {
    /// The key by which the item is ordered.
    spec fn key(&self) -> Seq<int>;

    /// Whether this item comes before the other one, or with it.
    fn precedes(&self, other: &Self) -> (yes: bool)
        ensures
            yes == le(self.key(), other.key()),
    ;
}

/// The keys of some items.
pub open spec fn keys<T: Placed>(items: Seq<T>) -> Seq<Seq<int>> {
    items.map_values(|item: T| item.key())
}

/// Items in order.
pub open spec fn in_order<T: Placed>(items: Seq<T>) -> bool {
    forall|i: int, j: int|
        0 <= i <= j < items.len() ==> #[trigger] le(items[i].key(), items[j].key())
}

/// Every item of `low` comes before or with every item of `high`.
spec fn below<T: Placed>(low: Seq<T>, high: Seq<T>) -> bool {
    forall|i: int, j: int|
        0 <= i < low.len() && 0 <= j < high.len() ==> #[trigger] le(low[i].key(), high[j].key())
}

/// Items in order, the last one first.
spec fn in_reverse<T: Placed>(items: Seq<T>) -> bool {
    forall|i: int, j: int|
        0 <= i <= j < items.len() ==> #[trigger] le(items[j].key(), items[i].key())
}

/// Moving the last item of `from` to the end of `to`.
proof fn lemma_move<T>(from: Seq<T>, other: Seq<T>, to: Seq<T>)
    requires
        from.len() > 0,
    ensures
        from.drop_last().to_multiset().add(other.to_multiset()).add(
            to.push(from.last()).to_multiset(),
        ) == from.to_multiset().add(other.to_multiset()).add(to.to_multiset()),
{
    broadcast use group_to_multiset_ensures;
    broadcast use vstd::multiset::group_multiset_axioms;

    assert(from =~= from.drop_last().push(from.last()));
    to_multiset_build(from.drop_last(), from.last());
    to_multiset_build(to, from.last());
    assert(from.drop_last().to_multiset().add(other.to_multiset()).add(
        to.push(from.last()).to_multiset(),
    ) =~= from.to_multiset().add(other.to_multiset()).add(to.to_multiset()));
}

/// Merges two ordered lists.
fn merge<T: Placed>(left: Vec<T>, right: Vec<T>) -> (out: Vec<T>)
    requires
        in_order(left@),
        in_order(right@),
    ensures
        in_order(out@),
        out@.to_multiset() == left@.to_multiset().add(right@.to_multiset()),
{
    let ghost all = left@.to_multiset().add(right@.to_multiset());
    let mut a = left;
    let mut b = right;
    let mut high: Vec<T> = Vec::new();
    proof {
        broadcast use group_to_multiset_ensures;

        assert(high@ =~= Seq::<T>::empty());
        assert(all.add(high@.to_multiset()) =~= all);
    }
    while a.len() > 0 || b.len() > 0
        invariant
            in_order(a@),
            in_order(b@),
            in_reverse(high@),
            below(a@, high@),
            below(b@, high@),
            a@.to_multiset().add(b@.to_multiset()).add(high@.to_multiset()) == all,
        decreases a@.len() + b@.len(),
    {
        let from_left = if a.len() == 0 {
            false
        } else if b.len() == 0 {
            true
        } else {
            !a[a.len() - 1].precedes(&b[b.len() - 1])
        };
        let ghost (old_a, old_b, old_high) = (a@, b@, high@);
        if from_left {
            proof {
                if old_b.len() > 0 {
                    lemma_le_total(old_a.last().key(), old_b.last().key());
                }
                lemma_move(old_a, old_b, old_high);
            }
            if let Some(item) = a.pop() {
                high.push(item);
            }
            proof {
                lemma_taken(old_a, old_b, old_high);
            }
        } else {
            proof {
                lemma_move(old_b, old_a, old_high);
                assert(old_a.to_multiset().add(old_b.to_multiset()) =~= old_b.to_multiset().add(
                    old_a.to_multiset(),
                ));
                assert(b@.drop_last().to_multiset().add(old_a.to_multiset())
                    =~= old_a.to_multiset().add(b@.drop_last().to_multiset()));
            }
            if let Some(item) = b.pop() {
                high.push(item);
            }
            proof {
                lemma_taken(old_b, old_a, old_high);
            }
        }
    }
    let ghost done = high@;
    proof {
        broadcast use group_to_multiset_ensures;

        assert(a@ =~= Seq::<T>::empty());
        assert(b@ =~= Seq::<T>::empty());
        assert(high@.to_multiset() =~= all);
    }
    let mut out: Vec<T> = Vec::new();
    while high.len() > 0
        invariant
            high@ == done.take(high@.len() as int),
            out@ == done.skip(high@.len() as int).reverse(),
            high@.len() <= done.len(),
        decreases high@.len(),
    {
        let ghost n = high@.len() as int;
        if let Some(item) = high.pop() {
            out.push(item);
        }
        proof {
            assert(high@ =~= done.take(n - 1));
            assert(out@ =~= done.skip(n - 1).reverse());
        }
    }
    proof {
        assert(done.skip(0) =~= done);
        done.lemma_reverse_to_multiset();
        assert forall|i: int, j: int| 0 <= i <= j < out@.len() implies #[trigger] le(
            out@[i].key(),
            out@[j].key(),
        ) by {
            assert(out@[i] == done[done.len() - 1 - i]);
            assert(out@[j] == done[done.len() - 1 - j]);
        }
    }
    out
}

/// The last item of one list, taken because it is not below the last item of
/// the other.
proof fn lemma_taken<T: Placed>(from: Seq<T>, other: Seq<T>, high: Seq<T>)
    requires
        from.len() > 0,
        in_order(from),
        in_order(other),
        in_reverse(high),
        below(from, high),
        below(other, high),
        other.len() > 0 ==> le(other.last().key(), from.last().key()),
    ensures
        in_order(from.drop_last()),
        in_reverse(high.push(from.last())),
        below(from.drop_last(), high.push(from.last())),
        below(other, high.push(from.last())),
{
    let (rest, item, more) = (from.drop_last(), from.last(), high.push(from.last()));
    assert forall|i: int, j: int| 0 <= i <= j < rest.len() implies #[trigger] le(
        rest[i].key(),
        rest[j].key(),
    ) by {
        assert(le(from[i].key(), from[j].key()));
    }
    assert forall|i: int, j: int| 0 <= i <= j < more.len() implies #[trigger] le(
        more[j].key(),
        more[i].key(),
    ) by {
        if j < high.len() {
            assert(le(high[j].key(), high[i].key()));
        } else if i < high.len() {
            assert(le(from[from.len() - 1].key(), high[i].key()));
        } else {
            lemma_le_reflexive(item.key());
        }
    }
    assert forall|i: int, j: int| 0 <= i < rest.len() && 0 <= j < more.len() implies #[trigger] le(
        rest[i].key(),
        more[j].key(),
    ) by {
        if j < high.len() {
            assert(le(from[i].key(), high[j].key()));
        } else {
            assert(le(from[i].key(), from[from.len() - 1].key()));
        }
    }
    assert forall|i: int, j: int| 0 <= i < other.len() && 0 <= j < more.len() implies #[trigger] le(
        other[i].key(),
        more[j].key(),
    ) by {
        if j < high.len() {
            assert(le(other[i].key(), high[j].key()));
        } else {
            assert(le(other[i].key(), other[other.len() - 1].key()));
            lemma_le_transitive(other[i].key(), other.last().key(), item.key());
        }
    }
}

/// Sorts items by their keys.
pub fn sort<T: Placed>(items: Vec<T>) -> (out: Vec<T>)
    ensures
        in_order(out@),
        out@.to_multiset() == items@.to_multiset(),
    decreases items@.len(),
{
    let size: usize = items.len();
    if size <= 1 {
        proof {
            if size == 1 {
                lemma_le_reflexive(items@[0].key());
            }
        }
        return items;
    }
    let ghost whole = items@;
    let mut left = items;
    let right = left.split_off(size / 2);
    proof {
        broadcast use group_to_multiset_ensures;

        assert(left@ + right@ =~= whole);
        lemma_multiset_commutative(left@, right@);
    }
    let low = sort(left);
    let high = sort(right);
    merge(low, high)
}

/// The order of the keys does not depend on the order in which the items
/// came: two lists of the same keys, both sorted, are the same.
pub proof fn law_sorted_keys_are_unique(a: Seq<Seq<int>>, b: Seq<Seq<int>>)
    requires
        sorted(a),
        sorted(b),
        a.to_multiset() == b.to_multiset(),
    ensures
        a == b,
{
    let order = |x: Seq<int>, y: Seq<int>| le(x, y);
    lemma_le_is_a_total_order();
    assert(sorted_by(a, order));
    assert(sorted_by(b, order));
    lemma_sorted_unique(a, b, order);
}

/// The same items have the same keys.
proof fn lemma_keys_multiset<T: Placed>(a: Seq<T>, b: Seq<T>)
    requires
        a.to_multiset() == b.to_multiset(),
    ensures
        keys(a).to_multiset() == keys(b).to_multiset(),
    decreases a.len(),
{
    broadcast use group_to_multiset_ensures;

    assert(a.len() == a.to_multiset().len() && b.len() == b.to_multiset().len());
    if a.len() == 0 {
        assert(keys(a) =~= keys(b));
    } else {
        let last = a.last();
        assert(a.to_multiset().contains(last));
        assert(b.contains(last));
        let k = choose|k: int| 0 <= k < b.len() && b[k] == last;
        assert(a.drop_last().push(last) =~= a);
        assert(a.to_multiset() =~= a.drop_last().to_multiset().insert(last));
        assert(a.drop_last().to_multiset() =~= b.remove(k).to_multiset());
        lemma_keys_multiset(a.drop_last(), b.remove(k));
        assert(keys(a) =~= keys(a.drop_last()).push(last.key()));
        assert(keys(b).remove(k) =~= keys(b.remove(k)));
        assert(keys(b)[k] == last.key());
        assert(keys(b).to_multiset() =~= keys(b).remove(k).to_multiset().insert(last.key()));
    }
}

/// Items with distinct keys have one order: sorting them gives the same list,
/// whatever order they came in.
pub proof fn law_sorting_is_deterministic<T: Placed>(a: Seq<T>, b: Seq<T>)
    requires
        in_order(a),
        in_order(b),
        a.to_multiset() == b.to_multiset(),
        forall|i: int, j: int|
            0 <= i < j < a.len() ==> (#[trigger] a[i]).key() != (#[trigger] a[j]).key(),
    ensures
        a == b,
{
    broadcast use group_to_multiset_ensures;

    let (ka, kb) = (keys(a), keys(b));
    lemma_keys_multiset(a, b);
    assert forall|i: int, j: int| 0 <= i <= j < ka.len() implies #[trigger] le(
        ka[i],
        ka[j],
    ) by {
        assert(le(a[i].key(), a[j].key()));
    }
    assert forall|i: int, j: int| 0 <= i <= j < kb.len() implies #[trigger] le(
        kb[i],
        kb[j],
    ) by {
        assert(le(b[i].key(), b[j].key()));
    }
    law_sorted_keys_are_unique(ka, kb);
    assert(a.len() == ka.len() && b.len() == kb.len());
    assert forall|i: int| 0 <= i < a.len() implies a[i] == b[i] by {
        assert(a.to_multiset().contains(a[i]));
        assert(b.contains(a[i]));
        let j = choose|j: int| 0 <= j < b.len() && b[j] == a[i];
        assert(ka[i] == kb[j] && ka[j] == kb[j]);
        assert(a[i].key() == a[j].key());
        assert(i == j) by {
            if i < j {
                assert(a[i].key() != a[j].key());
            } else if j < i {
                assert(a[j].key() != a[i].key());
            }
        }
    }
    assert(a =~= b);
}

/// Numbers, compared as keys.
pub fn numbers_precede(a: &Vec<u32>, b: &Vec<u32>) -> (yes: bool)
    ensures
        yes == le(numbers(a@), numbers(b@)),
{
    let mut i: usize = 0;
    proof {
        assert(numbers(a@).skip(0) =~= numbers(a@));
        assert(numbers(b@).skip(0) =~= numbers(b@));
    }
    while i < a.len() && i < b.len() && a[i] == b[i]
        invariant
            i <= a@.len(),
            i <= b@.len(),
            le(numbers(a@), numbers(b@)) == le(
                numbers(a@).skip(i as int),
                numbers(b@).skip(i as int),
            ),
        decreases a@.len() - i,
    {
        proof {
            assert(numbers(a@).skip(i as int).drop_first() =~= numbers(a@).skip(i + 1));
            assert(numbers(b@).skip(i as int).drop_first() =~= numbers(b@).skip(i + 1));
        }
        i += 1;
    }
    if i == a.len() {
        true
    } else if i == b.len() {
        false
    } else {
        a[i] < b[i]
    }
}

/// A list of machine numbers as numbers.
pub open spec fn numbers(list: Seq<u32>) -> Seq<int> {
    list.map_values(|n: u32| n as int)
}

/// Keys are ordered as words are: the first number that differs decides, and a
/// key comes before all that it only starts.
pub proof fn law_keys_are_ordered_as_words(a: Seq<int>, b: Seq<int>, rest: Seq<int>, x: int, y: int)
    ensures
        le(a, a + rest),
        rest.len() > 0 ==> !le(a + rest, a),
        le(a + seq![x] + b, a + seq![y] + rest) <==> (x < y || x == y && le(b, rest)),
    decreases a.len(),
{
    let (left, right) = (a + seq![x] + b, a + seq![y] + rest);
    if a.len() > 0 {
        let less = a.drop_first();
        law_keys_are_ordered_as_words(less, b, rest, x, y);
        assert((a + rest).drop_first() =~= less + rest);
        assert(left.drop_first() =~= less + seq![x] + b);
        assert(right.drop_first() =~= less + seq![y] + rest);
        assert((a + rest)[0] == a[0] && left[0] == a[0] && right[0] == a[0]);
    } else {
        assert(a + rest =~= rest);
        assert(left.drop_first() =~= b);
        assert(right.drop_first() =~= rest);
        assert(left[0] == x && right[0] == y);
    }
}

} // verus!
