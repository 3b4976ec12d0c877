//! Paths as texts: their order, their names, and how they are put together.
//!
//! Paths are ordered component by component, so that a directory comes before
//! everything behind it: `a/b` before `a.b`. The root comes first, then a
//! leading `.`, then `..`, then names. Repeated and trailing separators count
//! for nothing, nor does a `.` that does not lead.

use vstd::prelude::*;

use crate::filters;
use crate::sorting;
use crate::text;

verus! {

/// The position of the first `/` at or behind `from`, or the end.
pub open spec fn slash(path: Seq<char>, from: int) -> int
    decreases path.len() - from,
{
    if 0 <= from < path.len() && path[from] != '/' {
        slash(path, from + 1)
    } else {
        from
    }
}

/// The rank of a character among characters; nothing ranks below all of them.
pub open spec fn char_rank(ch: char) -> int {
    ch as int + 1
}

fn rank(ch: char) -> (out: u32)
    ensures
        out == char_rank(ch),
{
    ch as u32 + 1
}

/// The key of a name: a mark that ranks above the special components, the
/// characters, and a stop that ranks below all characters.
pub open spec fn name_key(name: Seq<char>) -> Seq<int> {
    seq![4int] + name.map_values(|ch: char| char_rank(ch)) + seq![0int]
}

/// The key of what stands between two separators of a path.
pub open spec fn component_key(part: Seq<char>, leads: bool, absolute: bool) -> Seq<int> {
    if part.len() == 0 {
        if absolute {
            seq![1int]
        } else {
            Seq::empty()
        }
    } else if part == "."@ {
        if leads {
            seq![2int]
        } else {
            Seq::empty()
        }
    } else if part == ".."@ {
        seq![3int]
    } else {
        name_key(part)
    }
}

/// The key of a path from `from` on, where a component starts.
pub open spec fn key_from(path: Seq<char>, from: int) -> Seq<int>
    decreases path.len() - from,
{
    let end = slash(path, from);
    let part = path.subrange(from, end);
    let head = component_key(part, from == 0, from == 0 && end < path.len());
    if from <= end < path.len() {
        head + key_from(path, end + 1)
    } else {
        head
    }
}

/// The key of a path.
pub open spec fn path_key(path: Seq<char>) -> Seq<int> {
    key_from(path, 0)
}

/// Appends the key of a name.
fn push_name(key: &mut Vec<u32>, chars: &[char], from: usize, end: usize)
    requires
        from <= end <= chars@.len(),
    ensures
        sorting::numbers(final(key)@) == sorting::numbers(old(key)@) + name_key(
            chars@.subrange(from as int, end as int),
        ),
{
    let ghost part = chars@.subrange(from as int, end as int);
    let ghost start = key@;
    key.push(4);
    let mut i: usize = from;
    assert(sorting::numbers(key@) =~= sorting::numbers(start) + (seq![4int]
        + part.take(0).map_values(|ch: char| char_rank(ch))));
    while i < end
        invariant
            from <= i <= end <= chars@.len(),
            part == chars@.subrange(from as int, end as int),
            sorting::numbers(key@) == sorting::numbers(start) + (seq![4int] + part.take(
                i - from,
            ).map_values(|ch: char| char_rank(ch))),
        decreases end - i,
    {
        let ghost before = key@;
        let ch = chars[i];
        key.push(rank(ch));
        proof {
            assert(part.take(i + 1 - from) =~= part.take(i - from).push(ch));
            assert(sorting::numbers(key@) =~= sorting::numbers(before).push(char_rank(ch)));
            assert(sorting::numbers(key@) =~= sorting::numbers(start) + (seq![4int]
                + part.take(i + 1 - from).map_values(|ch: char| char_rank(ch))));
        }
        i += 1;
    }
    assert(part.take(end - from) =~= part);
    let ghost before = key@;
    key.push(0);
    proof {
        assert(sorting::numbers(key@) =~= sorting::numbers(before).push(0));
        assert(sorting::numbers(key@) =~= sorting::numbers(start) + name_key(part));
    }
}

/// Appends the key of a component.
fn push_component(
    key: &mut Vec<u32>,
    chars: &[char],
    from: usize,
    end: usize,
    leads: bool,
    absolute: bool,
)
    requires
        from <= end <= chars@.len(),
    ensures
        sorting::numbers(final(key)@) == sorting::numbers(old(key)@) + component_key(
            chars@.subrange(from as int, end as int),
            leads,
            absolute,
        ),
{
    let ghost part = chars@.subrange(from as int, end as int);
    let ghost start = key@;
    if from == end {
        if absolute {
            key.push(1);
        }
        assert(sorting::numbers(key@) =~= sorting::numbers(start) + component_key(
            part,
            leads,
            absolute,
        ));
        return ;
    }
    let name = text::string_of(chars, from, end);
    if text::str_eq(name.as_str(), ".") {
        if leads {
            key.push(2);
        }
    } else if text::str_eq(name.as_str(), "..") {
        key.push(3);
    } else {
        push_name(key, chars, from, end);
        return ;
    }
    assert(sorting::numbers(key@) =~= sorting::numbers(start) + component_key(
        part,
        leads,
        absolute,
    ));
}

/// The key of a path.
pub fn key_of(path: &str) -> (key: Vec<u32>)
    ensures
        sorting::numbers(key@) == path_key(path@),
{
    let chars = text::chars_of(path);
    let ghost s = chars@;
    let mut key: Vec<u32> = Vec::new();
    let mut from: usize = 0;
    let mut done = false;
    assert(sorting::numbers(key@) + key_from(s, 0) =~= key_from(s, 0));
    while !done
        invariant
            s == chars@,
            !done ==> from <= s.len(),
            path_key(s) == sorting::numbers(key@) + (if done {
                Seq::<int>::empty()
            } else {
                key_from(s, from as int)
            }),
        decreases (if done {
            0int
        } else {
            s.len() + 1 - from
        }),
    {
        let mut end: usize = from;
        while end < chars.len() && chars[end] != '/'
            invariant
                s == chars@,
                from <= end <= s.len(),
                slash(s, from as int) == slash(s, end as int),
            decreases s.len() - end,
        {
            end += 1;
        }
        let ghost before = sorting::numbers(key@);
        let absolute = from == 0 && end < chars.len();
        push_component(&mut key, chars.as_slice(), from, end, from == 0, absolute);
        proof {
            if end < s.len() {
                let head = component_key(s.subrange(from as int, end as int), from == 0, absolute);
                assert(before + (head + key_from(s, end + 1)) =~= sorting::numbers(key@)
                    + key_from(s, end + 1));
            } else {
                assert(sorting::numbers(key@) + Seq::<int>::empty() =~= sorting::numbers(key@));
            }
        }
        if end < chars.len() {
            from = end + 1;
        } else {
            done = true;
        }
    }
    assert(sorting::numbers(key@) + Seq::<int>::empty() =~= sorting::numbers(key@));
    key
}

/// Whether `a` comes before `b` in the order of paths, or with it.
pub fn precedes(a: &str, b: &str) -> (yes: bool)
    ensures
        yes == sorting::le(path_key(a@), path_key(b@)),
{
    sorting::numbers_precede(&key_of(a), &key_of(b))
}

/// The key of a name.
fn name_key_of(name: &str) -> (key: Vec<u32>)
    ensures
        sorting::numbers(key@) == name_key(name@),
{
    let chars = text::chars_of(name);
    let mut key: Vec<u32> = Vec::new();
    push_name(&mut key, chars.as_slice(), 0, chars.len());
    assert(chars@.subrange(0, chars@.len() as int) =~= name@);
    assert(sorting::numbers(key@) =~= name_key(name@));
    key
}

/// Whether the name `a` comes before the name `b` in the order of names, or
/// with it.
pub fn name_precedes(a: &str, b: &str) -> (yes: bool)
    ensures
        yes == sorting::le(name_key(a@), name_key(b@)),
{
    sorting::numbers_precede(&name_key_of(a), &name_key_of(b))
}

// ---------------------------------------------------------------------------
// Names
// ---------------------------------------------------------------------------

/// The name of what a path leads to: its last component, unless that is the
/// root, a leading `.` or a `..`.
pub open spec fn final_name(path: Seq<char>) -> Option<Seq<char>>
    decreases path.len(),
{
    if path.len() == 0 {
        None
    } else if path.last() == '/' {
        final_name(path.drop_last())
    } else {
        let name = filters::name_of(path);
        if name == "."@ {
            if path.len() == 1 {
                None
            } else {
                final_name(path.drop_last())
            }
        } else if name == ".."@ {
            None
        } else {
            Some(name)
        }
    }
}

/// The name by which a file passed explicitly is filtered: its name, or the
/// whole path where there is none.
pub open spec fn explicit_name(path: Seq<char>) -> Seq<char> {
    match final_name(path) {
        Some(name) => name,
        None => path,
    }
}

/// The name by which a file passed explicitly is filtered.
pub fn explicit_file_name(path: &str) -> (name: String)
    ensures
        name@ == explicit_name(path@),
{
    let chars = text::chars_of(path);
    let ghost s = chars@;
    let mut end: usize = chars.len();
    assert(s.take(end as int) =~= s);
    while end > 0
        invariant
            s == chars@,
            s == path@,
            end <= s.len(),
            final_name(s.take(end as int)) == final_name(s),
        decreases end,
    {
        let ghost here = s.take(end as int);
        assert(here.drop_last() =~= s.take(end - 1));
        assert(here.last() == s[end - 1]);
        if chars[end - 1] == '/' {
            end -= 1;
        } else {
            let front = text::string_of(chars.as_slice(), 0, end);
            assert(front@ =~= here);
            let name = filters::base_name(front.as_str());
            if text::str_eq(name.as_str(), ".") {
                if end == 1 {
                    return path.to_owned();
                }
                end -= 1;
            } else if text::str_eq(name.as_str(), "..") {
                return path.to_owned();
            } else {
                return name;
            }
        }
    }
    path.to_owned()
}

// ---------------------------------------------------------------------------
// Joining
// ---------------------------------------------------------------------------

/// The path of an entry of a directory.
pub open spec fn child(dir: Seq<char>, name: Seq<char>) -> Seq<char> {
    if dir.len() == 0 || dir.last() == '/' {
        dir + name
    } else {
        dir + seq!['/'] + name
    }
}

/// The path of an entry of a directory.
pub fn child_path(dir: &str, name: &str) -> (path: String)
    ensures
        path@ == child(dir@, name@),
{
    let chars = text::chars_of(dir);
    let mut path = dir.to_owned();
    if chars.len() > 0 && chars[chars.len() - 1] != '/' {
        path.push('/');
    }
    path.push_str(name);
    assert(path@ =~= child(dir@, name@));
    path
}

/// A character of a path, with `/` for every separator.
pub open spec fn slashed_char(ch: char) -> char {
    if ch == '\\' {
        '/'
    } else {
        ch
    }
}

/// A path with `/` for every separator.
pub open spec fn slashed(path: Seq<char>) -> Seq<char> {
    path.map_values(|ch: char| slashed_char(ch))
}

/// A path with `/` for every separator.
pub fn with_slashes(path: &str) -> (out: String)
    ensures
        out@ == slashed(path@),
{
    let chars = text::chars_of(path);
    let ghost s = chars@;
    let mut out = String::new();
    let mut i: usize = 0;
    assert(out@ =~= slashed(s.take(0)));
    while i < chars.len()
        invariant
            s == chars@,
            i <= s.len(),
            out@ == slashed(s.take(i as int)),
        decreases s.len() - i,
    {
        let ghost before = out@;
        let ch = chars[i];
        out.push(
            if ch == '\\' {
                '/'
            } else {
                ch
            },
        );
        proof {
            assert(s.take(i + 1) =~= s.take(i as int).push(ch));
            assert(out@ =~= slashed(s.take(i + 1)));
        }
        i += 1;
    }
    assert(s.take(i as int) =~= s);
    out
}

// ---------------------------------------------------------------------------
// Laws
// ---------------------------------------------------------------------------

/// A name as files have it: not empty, no separator, neither `.` nor `..`.
pub open spec fn plain_name(name: Seq<char>) -> bool {
    &&& name.len() > 0
    &&& name != "."@ && name != ".."@
    &&& forall|k: int| 0 <= k < name.len() ==> #[trigger] name[k] != '/'
}

/// `a` comes before `b` in the order of paths, or with it.
pub open spec fn in_front(a: Seq<char>, b: Seq<char>) -> bool {
    sorting::le(path_key(a), path_key(b))
}

/// `a` comes before `b` as words do in a dictionary, or they are the same.
pub open spec fn dictionary(a: Seq<char>, b: Seq<char>) -> bool {
    exists|k: int| first_difference(a, b, k)
}

/// `a` and `b` agree up to `k`, and there `a` ends or has the smaller character.
pub open spec fn first_difference(a: Seq<char>, b: Seq<char>, k: int) -> bool {
    &&& 0 <= k <= a.len() && k <= b.len()
    &&& forall|i: int| 0 <= i < k ==> #[trigger] a[i] == b[i]
    &&& k == a.len() || k < b.len() && a[k] < b[k]
}

proof fn lemma_slash_at(path: Seq<char>, from: int, end: int)
    requires
        0 <= from <= end <= path.len(),
        forall|k: int| from <= k < end ==> #[trigger] path[k] != '/',
        end < path.len() ==> path[end] == '/',
    ensures
        slash(path, from) == end,
    decreases end - from,
{
    if from < end {
        lemma_slash_at(path, from + 1, end);
    }
}

proof fn lemma_plain_key(name: Seq<char>)
    requires
        plain_name(name),
    ensures
        path_key(name) == name_key(name),
{
    lemma_slash_at(name, 0, name.len() as int);
    assert(name.subrange(0, name.len() as int) =~= name);
}

spec fn ranks(s: Seq<char>) -> Seq<int> {
    s.map_values(|ch: char| char_rank(ch))
}

proof fn lemma_rank(ch: char)
    ensures
        char_rank(ch) >= 1,
{
}

/// The keys of characters order as the characters do.
proof fn lemma_keys_order(a: Seq<char>, b: Seq<char>, x: Seq<int>, y: Seq<int>)
    ensures
        ({
            let (ka, kb) = (
                ranks(a) + seq![0int] + x,
                ranks(b) + seq![0int] + y,
            );
            sorting::le(ka, kb) == if a == b {
                sorting::le(x, y)
            } else {
                dictionary(a, b)
            }
        }),
    decreases a.len(),
{
    let ka = ranks(a) + seq![0int] + x;
    let kb = ranks(b) + seq![0int] + y;
    if a.len() > 0 && b.len() > 0 && a[0] == b[0] {
        let (p, q) = (a.drop_first(), b.drop_first());
        lemma_keys_order(p, q, x, y);
        assert(ka.drop_first() =~= ranks(p) + seq![0int] + x);
        assert(kb.drop_first() =~= ranks(q) + seq![0int] + y);
        assert(ka[0] == kb[0]);
        assert(a =~= seq![a[0]] + p);
        assert(b =~= seq![b[0]] + q);
        if dictionary(a, b) && a != b {
            let k = choose|k: int| first_difference(a, b, k);
            if k == 0 {
                assert(false);
            }
            assert(first_difference(p, q, k - 1)) by {
                assert forall|i: int| 0 <= i < k - 1 implies #[trigger] p[i] == q[i] by {
                    assert(a[i + 1] == b[i + 1]);
                }
            }
        }
        if dictionary(p, q) {
            let k = choose|k: int| first_difference(p, q, k);
            assert(first_difference(a, b, k + 1)) by {
                assert forall|i: int| 0 <= i < k + 1 implies #[trigger] a[i] == b[i] by {
                    if i > 0 {
                        assert(p[i - 1] == q[i - 1]);
                    }
                }
            }
        }
        assert(p == q ==> a == b);
        assert(a == b ==> p == q);
        assert(sorting::le(ka, kb) == sorting::le(ka.drop_first(), kb.drop_first()));
        assert(a != b ==> dictionary(a, b) == dictionary(p, q));
    } else if a.len() == 0 {
        assert(ka[0] == 0);
        assert(ka.len() > 0 && kb.len() > 0);
        assert(first_difference(a, b, 0));
        if b.len() == 0 {
            assert(a =~= b);
            assert(kb[0] == 0);
            assert(ka.drop_first() =~= x);
            assert(kb.drop_first() =~= y);
        } else {
            assert(kb[0] == char_rank(b[0]));
            lemma_rank(b[0]);
        }
    } else {
        assert(ka[0] == char_rank(a[0]));
        if b.len() == 0 {
            assert(kb[0] == 0);
        } else {
            assert(kb[0] == char_rank(b[0]));
            if a[0] < b[0] {
                assert(first_difference(a, b, 0));
            }
        }
        if dictionary(a, b) {
            let k = choose|k: int| first_difference(a, b, k);
            if k > 0 {
                assert(a[0] == b[0]);
            }
        }
        assert(a != b);
        assert(ka.len() > 0 && kb.len() > 0);
        if b.len() == 0 {
            lemma_rank(a[0]);
            assert(kb[0] == 0 && ka[0] > kb[0]);
            assert(!sorting::le(ka, kb));
            assert(!dictionary(a, b));
        } else {
            assert(sorting::le(ka, kb) == (a[0] < b[0]));
            assert(dictionary(a, b) == (a[0] < b[0]));
        }
    }
}

proof fn lemma_key_shifted(path: Seq<char>, rest: Seq<char>, shift: int, from: int)
    requires
        0 < shift <= path.len(),
        rest == path.skip(shift),
        0 < from <= rest.len(),
    ensures
        key_from(path, shift + from) == key_from(rest, from),
    decreases rest.len() - from,
{
    lemma_slash_shifted(path, rest, shift, from);
    let end = slash(rest, from);
    let part = rest.subrange(from, end);
    assert(path.subrange(shift + from, shift + end) =~= part);
    if end < rest.len() {
        lemma_key_shifted(path, rest, shift, end + 1);
    }
}

proof fn lemma_slash_shifted(path: Seq<char>, rest: Seq<char>, shift: int, from: int)
    requires
        0 <= shift <= path.len(),
        rest == path.skip(shift),
        0 <= from <= rest.len(),
    ensures
        from <= slash(rest, from) <= rest.len(),
        slash(path, shift + from) == shift + slash(rest, from),
    decreases rest.len() - from,
{
    if from < rest.len() {
        assert(path[shift + from] == rest[from]);
        if rest[from] != '/' {
            lemma_slash_shifted(path, rest, shift, from + 1);
        }
    }
}

/// A path that starts with neither a separator nor a `.` of its own.
pub open spec fn plain_start(path: Seq<char>) -> bool {
    &&& path.len() > 0
    &&& path[0] != '/'
    &&& path != "."@
    &&& path.len() >= 2 ==> path.take(2) != "./"@
}

proof fn lemma_plain_start(path: Seq<char>)
    requires
        plain_start(path),
    ensures
        ({
            let part = path.subrange(0, slash(path, 0));
            part.len() > 0 && part != "."@
        }),
{
    lemma_slash_shifted(path, path.skip(0), 0, 0);
    assert(path.skip(0) =~= path);
    let end = slash(path, 0);
    let part = path.subrange(0, end);
    assert(slash(path, 0) >= 1) by {
        lemma_slash_shifted(path, path.skip(1), 1, 0);
    }
    reveal_strlit(".");
    reveal_strlit("./");
    if part == "."@ {
        assert(part.len() == 1 && path[0] == part[0]);
        if path.len() == 1 {
            assert(path =~= "."@);
        } else {
            lemma_slash_hit(path, 0);
            assert(path.take(2) =~= "./"@);
        }
    }
}

proof fn lemma_slash_hit(path: Seq<char>, from: int)
    requires
        0 <= from <= path.len(),
    ensures
        slash(path, from) < path.len() ==> path[slash(path, from)] == '/',
    decreases path.len() - from,
{
    if from < path.len() && path[from] != '/' {
        lemma_slash_hit(path, from + 1);
    }
}

proof fn lemma_key_of_start(name: Seq<char>, rest: Seq<char>)
    requires
        plain_name(name),
        plain_start(rest),
    ensures
        path_key(name + seq!['/'] + rest) == name_key(name) + path_key(rest),
{
    let path = name + seq!['/'] + rest;
    let n = name.len() as int;
    assert forall|k: int| 0 <= k < n implies #[trigger] path[k] != '/' by {
        assert(path[k] == name[k]);
    }
    lemma_slash_at(path, 0, n);
    assert(path.subrange(0, n) =~= name);
    assert(path.skip(n + 1) =~= rest);
    lemma_plain_start(rest);
    lemma_key_shifted_start(path, rest, n + 1);
}

proof fn lemma_key_shifted_start(path: Seq<char>, rest: Seq<char>, shift: int)
    requires
        0 < shift <= path.len(),
        rest == path.skip(shift),
        plain_start(rest),
    ensures
        key_from(path, shift) == key_from(rest, 0),
{
    lemma_plain_start(rest);
    lemma_slash_shifted(path, rest, shift, 0);
    let end = slash(rest, 0);
    assert(path.subrange(shift, shift + end) =~= rest.subrange(0, end));
    if end < rest.len() {
        lemma_key_shifted(path, rest, shift, end + 1);
    }
}

/// Paths are ordered by their components: names as words are, and where the
/// first names of two paths are the same, the rest decides. So a directory and
/// all that is in it comes before everything whose name only starts likewise.
pub proof fn law_paths_are_ordered_by_component(
    a: Seq<char>,
    b: Seq<char>,
    rest: Seq<char>,
    other: Seq<char>,
)
    requires
        plain_name(a),
        plain_name(b),
        plain_start(rest),
        plain_start(other),
    ensures
        in_front(a, b) == dictionary(a, b),
        sorting::le(name_key(a), name_key(b)) == dictionary(a, b),
        in_front(a + seq!['/'] + rest, b + seq!['/'] + other) == if a == b {
            in_front(rest, other)
        } else {
            dictionary(a, b)
        },
        in_front(a, b + seq!['/'] + other) == (a == b || dictionary(a, b)),
        in_front(a + seq!['/'] + rest, b) == (a != b && dictionary(a, b)),
{
    let none = Seq::<int>::empty();
    lemma_plain_key(a);
    lemma_plain_key(b);
    lemma_key_of_start(a, rest);
    lemma_key_of_start(b, other);
    let (x, y) = (path_key(rest), path_key(other));
    lemma_nonempty_key(rest);
    lemma_nonempty_key(other);
    lemma_keys_order(a, b, none, none);
    lemma_keys_order(a, b, x, y);
    lemma_keys_order(a, b, none, y);
    lemma_keys_order(a, b, x, none);
    lemma_first_mark(a, none);
    lemma_first_mark(b, none);
    lemma_first_mark(a, x);
    lemma_first_mark(b, y);
    assert(name_key(a) + none =~= name_key(a));
    assert(name_key(b) + none =~= name_key(b));
    if a == b {
        assert(first_difference(a, b, a.len() as int));
    }
}

proof fn lemma_first_mark(name: Seq<char>, tail: Seq<int>)
    ensures
        (name_key(name) + tail)[0] == 4,
        (name_key(name) + tail).drop_first() == ranks(name) + seq![0int] + tail,
{
    assert((name_key(name) + tail).drop_first() =~= ranks(name) + seq![0int] + tail);
}

proof fn lemma_nonempty_key(path: Seq<char>)
    requires
        plain_start(path),
    ensures
        path_key(path).len() > 0,
{
    lemma_plain_start(path);
    lemma_slash_shifted(path, path.skip(0), 0, 0);
    assert(path.skip(0) =~= path);
}

/// The name of what a path leads to is its last component; separators behind
/// it do not count. A path that ends in `..` is its own name.
pub proof fn law_explicit_names(dir: Seq<char>, name: Seq<char>)
    requires
        plain_name(name),
    ensures
        explicit_name(name) == name,
        explicit_name(name + seq!['/']) == name,
        explicit_name(dir + seq!['/'] + name) == name,
        explicit_name(dir + seq!['/'] + name + seq!['/']) == name,
        explicit_name(dir + "/.."@) == dir + "/.."@,
{
    filters::laws::law_names_stand_behind_the_last_slash(dir, name);
    assert(name.last() != '/');
    let path = dir + seq!['/'] + name;
    assert(path.last() == name.last());
    assert(final_name(name) == Some(name));
    assert((name + seq!['/']).drop_last() =~= name);
    assert((name + seq!['/']).last() == '/');
    assert(final_name(path) == Some(name));
    assert((path + seq!['/']).drop_last() =~= path);
    assert((path + seq!['/']).last() == '/');
    reveal_strlit("..");
    reveal_strlit(".");
    reveal_strlit("/..");
    let up = dir + "/.."@;
    assert(up =~= dir + seq!['/'] + ".."@);
    filters::laws::law_names_stand_behind_the_last_slash(dir, ".."@);
    assert(up.last() == '.');
    assert(".."@.len() != "."@.len());
}

/// An entry of a directory has one separator between the two, and slashes stand
/// for backslashes where paths are matched.
pub proof fn law_joined_paths(dir: Seq<char>, name: Seq<char>, path: Seq<char>, k: int)
    requires
        dir.len() > 0 ==> dir.last() != '/',
    ensures
        child(Seq::empty(), name) == name,
        dir.len() > 0 ==> child(dir, name) == dir + seq!['/'] + name,
        child(dir + seq!['/'], name) == dir + seq!['/'] + name,
        slashed(path).len() == path.len(),
        0 <= k < path.len() && path[k] == '\\' ==> slashed(path)[k] == '/',
        0 <= k < path.len() && path[k] != '\\' ==> slashed(path)[k] == path[k],
{
    assert(Seq::<char>::empty() + name =~= name);
    assert((dir + seq!['/']).last() == '/');
}

/// Absolute paths come first, then those that start at `.`, then those that
/// start with `..`, then names; and separators or a `.` further on make no
/// difference.
pub proof fn law_special_components_come_first(
    rest: Seq<char>,
    other: Seq<char>,
    up: Seq<char>,
    name: Seq<char>,
)
    requires
        plain_name(name),
        plain_start(other),
        plain_start(up),
    ensures
        in_front(seq!['/'] + rest, seq!['.', '/'] + other),
        !in_front(seq!['.', '/'] + other, seq!['/'] + rest),
        in_front(seq!['.', '/'] + other, seq!['.', '.', '/'] + up),
        !in_front(seq!['.', '.', '/'] + up, seq!['.', '/'] + other),
        in_front(seq!['.', '.', '/'] + up, name),
        !in_front(name, seq!['.', '.', '/'] + up),
        path_key(name + seq!['/']) == path_key(name),
        path_key(name + seq!['/', '/'] + other) == path_key(name + seq!['/'] + other),
        path_key(name + seq!['/', '.', '/'] + other) == path_key(name + seq!['/'] + other),
{
    reveal_strlit(".");
    reveal_strlit("..");
    let root = seq!['/'] + rest;
    lemma_slash_at(root, 0, 0);
    assert(root.subrange(0, 0) =~= Seq::<char>::empty());
    assert(path_key(root)[0] == 1);
    let here = seq!['.', '/'] + other;
    lemma_slash_at(here, 0, 1);
    assert(here.subrange(0, 1) =~= "."@);
    assert(path_key(here)[0] == 2);
    let above = seq!['.', '.', '/'] + up;
    lemma_slash_at(above, 0, 2);
    assert(above.subrange(0, 2) =~= ".."@);
    assert(".."@.len() != "."@.len());
    assert(path_key(above)[0] == 3);
    lemma_plain_key(name);
    assert(path_key(name)[0] == 4);
    let n = name.len() as int;
    lemma_key_of_start(name, other);
    lemma_front_key(name, seq!['/']);
    let tail = name + seq!['/'];
    lemma_slash_at(tail, n + 1, n + 1);
    assert(tail.subrange(n + 1, n + 1) =~= Seq::<char>::empty());
    assert(name_key(name) + Seq::<int>::empty() =~= name_key(name));
    let twice = name + seq!['/', '/'] + other;
    assert(twice =~= name + (seq!['/', '/'] + other));
    lemma_front_key(name, seq!['/', '/'] + other);
    lemma_slash_at(twice, n + 1, n + 1);
    assert(twice.subrange(n + 1, n + 1) =~= Seq::<char>::empty());
    assert(twice.skip(n + 2) =~= other);
    lemma_key_shifted_start(twice, other, n + 2);
    assert(Seq::<int>::empty() + path_key(other) =~= path_key(other));
    let dotted = name + seq!['/', '.', '/'] + other;
    assert(dotted =~= name + (seq!['/', '.', '/'] + other));
    lemma_front_key(name, seq!['/', '.', '/'] + other);
    lemma_slash_at(dotted, n + 1, n + 2);
    assert(dotted.subrange(n + 1, n + 2) =~= "."@);
    assert(dotted.skip(n + 3) =~= other);
    lemma_key_shifted_start(dotted, other, n + 3);
}

proof fn lemma_front_key(name: Seq<char>, tail: Seq<char>)
    requires
        plain_name(name),
        tail.len() > 0 && tail[0] == '/',
    ensures
        path_key(name + tail) == name_key(name) + key_from(name + tail, name.len() as int + 1),
{
    let path = name + tail;
    let n = name.len() as int;
    assert forall|k: int| 0 <= k < n implies #[trigger] path[k] != '/' by {
        assert(path[k] == name[k]);
    }
    lemma_slash_at(path, 0, n);
    assert(path.subrange(0, n) =~= name);
}

} // verus!
