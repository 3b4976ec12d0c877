//! What holds of every filter and of every ignore file.

use vstd::prelude::*;

use crate::filters;
use crate::filters::Ignore;
use crate::lines;
use crate::pattern;
use crate::text;

verus! {

/// The rule of one line, if it states one, as a list.
spec fn one_rule(line: Seq<char>) -> Seq<Ignore> {
    match filters::ignore_rule(line) {
        Some(rule) => seq![rule],
        None => Seq::empty(),
    }
}

/// The rules of the lines of `s` from position `from` on.
spec fn rules_from(s: Seq<char>, from: int) -> Seq<Ignore>
    decreases s.len() - from,
{
    if 0 <= from < s.len() {
        let stop = lines::newline(s, from);
        let here = one_rule(s.subrange(from, lines::line_end(s, from, stop)));
        if from <= stop < s.len() {
            here + rules_from(s, stop + 1)
        } else {
            here
        }
    } else {
        Seq::empty()
    }
}

/// The rules of the first `k` lines and those of the rest, which starts at
/// `from`, are all the rules.
proof fn lemma_rules_from(s: Seq<char>, k: int, from: int)
    requires
        0 <= from <= s.len(),
        0 <= k <= lines::line_bounds(s, 0).len(),
        lines::line_bounds(s, 0).skip(k) == lines::line_bounds(s, from),
    ensures
        filters::ignore_rules(s) == filters::first_rules(s, k) + rules_from(s, from),
    decreases s.len() - from,
{
    let bounds = lines::line_bounds(s, 0);
    let rest = lines::line_bounds(s, from);
    assert(lines::lines(s).len() == bounds.len());
    if from < s.len() {
        lines::lemma_newline(s, from);
        let stop = lines::newline(s, from);
        let here = (from, lines::line_end(s, from, stop));
        assert(rest[0] == here);
        assert(rest.len() >= 1 && bounds.skip(k).len() == bounds.len() - k);
        assert(bounds[k] == bounds.skip(k)[0]);
        let line = s.subrange(here.0, here.1);
        assert(lines::lines(s)[k].text == line);
        let before = filters::first_rules(s, k);
        assert(filters::first_rules(s, k + 1) =~= before + one_rule(line));
        if stop < s.len() {
            let more = lines::line_bounds(s, stop + 1);
            assert(rest == seq![here] + more);
            assert(bounds.skip(k + 1) =~= bounds.skip(k).skip(1));
            assert((seq![here] + more).skip(1) =~= more);
            lemma_rules_from(s, k + 1, stop + 1);
            let after = rules_from(s, stop + 1);
            assert(before + one_rule(line) + after =~= before + (one_rule(line) + after));
        } else {
            assert(rest == seq![here]);
            assert(bounds.len() == k + 1);
        }
    } else {
        assert(bounds.skip(k).len() == bounds.len() - k);
        assert(filters::first_rules(s, k) + Seq::<Ignore>::empty() =~= filters::first_rules(s, k));
    }
}

/// The first newline is where no newline stands before it.
proof fn lemma_newline_at(s: Seq<char>, from: int, stop: int)
    requires
        0 <= from <= stop <= s.len(),
        forall|k: int| from <= k < stop ==> #[trigger] s[k] != '\n',
        stop < s.len() ==> s[stop] == '\n',
    ensures
        lines::newline(s, from) == stop,
    decreases stop - from,
{
    if from < stop {
        assert(s[from] != '\n');
        lemma_newline_at(s, from + 1, stop);
    }
}

/// The lines of the end of a text are those of that end.
proof fn lemma_rules_shifted(s: Seq<char>, tail: Seq<char>, shift: int, i: int)
    requires
        0 <= shift,
        s.len() == shift + tail.len(),
        forall|k: int| 0 <= k < tail.len() ==> s[shift + k] == #[trigger] tail[k],
        0 <= i <= tail.len(),
    ensures
        rules_from(s, shift + i) == rules_from(tail, i),
    decreases tail.len() - i,
{
    if i < tail.len() {
        lines::lemma_newline(tail, i);
        let stop = lines::newline(tail, i);
        assert forall|k: int| shift + i <= k < shift + stop implies #[trigger] s[k] != '\n' by {
            assert(s[shift + (k - shift)] == tail[k - shift]);
        }
        if stop < tail.len() {
            assert(s[shift + stop] == tail[stop]);
        }
        lemma_newline_at(s, shift + i, shift + stop);
        if i < stop {
            assert(s[shift + (stop - 1)] == tail[stop - 1]);
        }
        let end = lines::line_end(tail, i, stop);
        assert(lines::line_end(s, shift + i, shift + stop) == shift + end);
        assert(s.subrange(shift + i, shift + end) =~= tail.subrange(i, end));
        if stop < tail.len() {
            lemma_rules_shifted(s, tail, shift, stop + 1);
        }
    }
}

/// White space at the end of a line makes no difference.
proof fn lemma_trim_end(s: Seq<char>)
    requires
        s.len() > 0,
        text::is_white(s.last()),
    ensures
        text::trim(s) == text::trim(s.drop_last()),
    decreases s.len(),
{
    let less = s.drop_last();
    if text::is_white(s[0]) {
        if s.len() == 1 {
            assert(s.drop_first() =~= Seq::<char>::empty());
            assert(less =~= Seq::<char>::empty());
        } else {
            assert(s.drop_first().drop_last() =~= less.drop_first());
            lemma_trim_end(s.drop_first());
        }
    } else {
        assert(s.len() >= 2);
        assert(less[0] == s[0]);
    }
}

proof fn lemma_joined(a: Seq<char>, b: Seq<char>, from: int)
    requires
        0 <= from <= a.len(),
    ensures
        rules_from(a + seq!['\n'] + b, from) == rules_from(a, from) + rules_from(b, 0),
    decreases a.len() - from,
{
    let s = a + seq!['\n'] + b;
    let cut = a.len() as int;
    lemma_rules_shifted(s, b, cut + 1, 0);
    lines::lemma_newline(a, from);
    let stop = lines::newline(a, from);
    assert forall|k: int| from <= k < stop implies #[trigger] s[k] != '\n' by {
        assert(s[k] == a[k]);
    }
    assert(stop < cut ==> s[stop] == a[stop]);
    lemma_newline_at(s, from, stop);
    let end = lines::line_end(s, from, stop);
    let line = s.subrange(from, end);
    if stop < cut {
        assert(from < stop ==> s[stop - 1] == a[stop - 1]);
        assert(line =~= a.subrange(from, lines::line_end(a, from, stop)));
        lemma_joined(a, b, stop + 1);
        assert(one_rule(line) + (rules_from(a, stop + 1) + rules_from(b, 0)) =~= one_rule(line)
            + rules_from(a, stop + 1) + rules_from(b, 0));
    } else if from < cut {
        let whole = a.subrange(from, cut);
        if end < stop {
            assert(whole.last() == '\r');
            assert(whole.drop_last() =~= line);
            lemma_trim_end(whole);
        } else {
            assert(line =~= whole);
        }
        assert(one_rule(line) == one_rule(whole));
    } else {
        assert(line =~= Seq::<char>::empty());
        assert(text::trim(line) == line);
        assert(one_rule(line) =~= Seq::<Ignore>::empty());
        assert(rules_from(s, from) =~= rules_from(b, 0));
        assert(rules_from(a, from) + rules_from(b, 0) =~= rules_from(b, 0));
    }
}

/// Reading two ignore files one after the other is reading them joined by a
/// line break: a set that is extended by one and then by the other gives the
/// same verdicts as one that is extended by both at once.
pub proof fn law_ignore_files_can_be_joined(
    set: Seq<Ignore>,
    a: Seq<char>,
    b: Seq<char>,
    path: Seq<char>,
    is_dir: bool,
)
    ensures
        ({
            let joined = a + seq!['\n'] + b;
            &&& set + filters::ignore_rules(a) + filters::ignore_rules(b) == set
                + filters::ignore_rules(joined)
            &&& filters::ignored(
                set + filters::ignore_rules(a) + filters::ignore_rules(b),
                path,
                is_dir,
            ) == filters::ignored(set + filters::ignore_rules(joined), path, is_dir)
        }),
{
    let joined = a + seq!['\n'] + b;
    lemma_all_rules(a);
    lemma_all_rules(b);
    lemma_all_rules(joined);
    lemma_joined(a, b, 0);
    assert(set + filters::ignore_rules(a) + filters::ignore_rules(b) =~= set
        + filters::ignore_rules(joined));
}

proof fn lemma_all_rules(s: Seq<char>)
    ensures
        filters::ignore_rules(s) == rules_from(s, 0),
{
    assert(lines::line_bounds(s, 0).skip(0) =~= lines::line_bounds(s, 0));
    lemma_rules_from(s, 0, 0);
    assert(Seq::<Ignore>::empty() + rules_from(s, 0) =~= rules_from(s, 0));
}

/// Blank lines, comments and lines whose glob is malformed state no rule, and
/// keep no other line from being read: the rules of the lines in front and
/// behind stay what they are.
pub proof fn law_unusable_lines_are_passed_over(a: Seq<char>, line: Seq<char>, b: Seq<char>)
    requires
        forall|k: int| 0 <= k < line.len() ==> #[trigger] line[k] != '\n',
        ({
            let bare = text::trim(line);
            let glob = filters::strip_front(
                filters::strip_back(filters::strip_front(bare, '!'), '/'),
                '/',
            );
            bare.len() == 0 || bare[0] == '#' || pattern::compiled_glob(glob, false) is Err
        }),
    ensures
        filters::ignore_rules(a + seq!['\n'] + (line + seq!['\n'] + b)) == filters::ignore_rules(
            a + seq!['\n'] + b,
        ),
{
    lemma_all_rules(a + seq!['\n'] + (line + seq!['\n'] + b));
    lemma_all_rules(a + seq!['\n'] + b);
    lemma_joined(a, line + seq!['\n'] + b, 0);
    lemma_joined(a, b, 0);
    lemma_joined(line, b, 0);
    lemma_newline_at(line, 0, line.len() as int);
    assert(line.subrange(0, line.len() as int) =~= line);
    assert(rules_from(line, 0) =~= Seq::<Ignore>::empty());
    assert(Seq::<Ignore>::empty() + rules_from(b, 0) =~= rules_from(b, 0));
}

// ---------------------------------------------------------------------------
// Names and globs
// ---------------------------------------------------------------------------

/// The name of a file is what stands behind the last `/` of its path; a path
/// without one is a name.
pub proof fn law_names_stand_behind_the_last_slash(dir: Seq<char>, name: Seq<char>)
    requires
        forall|k: int| 0 <= k < name.len() ==> #[trigger] name[k] != '/',
    ensures
        filters::name_of(name) == name,
        filters::name_of(dir + seq!['/'] + name) == name,
    decreases name.len(),
{
    let path = dir + seq!['/'] + name;
    if name.len() > 0 {
        law_names_stand_behind_the_last_slash(dir, name.drop_last());
        assert(path.drop_last() =~= dir + seq!['/'] + name.drop_last());
        assert(path.last() == name.last());
        assert(name.drop_last().push(name.last()) =~= name);
    } else {
        assert(path.last() == '/');
        assert(name =~= Seq::<char>::empty());
    }
}

/// `name` stands in `path` behind the last `/`.
pub open spec fn names(path: Seq<char>, name: Seq<char>) -> bool {
    &&& forall|k: int| 0 <= k < name.len() ==> #[trigger] name[k] != '/'
    &&& path == name || exists|dir: Seq<char>| path == #[trigger] (dir + seq!['/'] + name)
}

/// A glob matches a file: the whole path where the glob holds a `/`, else the
/// name of the file.
pub open spec fn meets(glob: Seq<char>, path: Seq<char>) -> bool {
    let compiled = pattern::compiled_glob(glob, false)->Ok_0;
    if exists|k: int| 0 <= k < glob.len() && glob[k] == '/' {
        compiled.occurs(path)
    } else {
        exists|name: Seq<char>| names(path, name) && #[trigger] compiled.occurs(name)
    }
}

/// Every path has a name.
proof fn lemma_name(path: Seq<char>)
    ensures
        names(path, filters::name_of(path)),
    decreases path.len(),
{
    let name = filters::name_of(path);
    if path.len() == 0 || path.last() == '/' {
        assert(path.len() > 0 ==> path =~= path.drop_last() + seq!['/'] + name);
        assert(path.len() == 0 ==> path =~= name);
    } else {
        let less = path.drop_last();
        let start = filters::name_of(less);
        lemma_name(less);
        assert(path =~= less.push(path.last()));
        if less == start {
            assert(path =~= name);
        } else {
            let dir = choose|dir: Seq<char>| less == #[trigger] (dir + seq!['/'] + start);
            assert(path =~= dir + seq!['/'] + name);
        }
    }
}

proof fn lemma_only_name(path: Seq<char>, name: Seq<char>)
    requires
        names(path, name),
    ensures
        name == filters::name_of(path),
{
    if path == name {
        law_names_stand_behind_the_last_slash(Seq::empty(), name);
    } else {
        let dir = choose|dir: Seq<char>| path == #[trigger] (dir + seq!['/'] + name);
        law_names_stand_behind_the_last_slash(dir, name);
    }
}

proof fn lemma_meets(glob: Seq<char>, path: Seq<char>)
    ensures
        meets(glob, path) == pattern::compiled_glob(glob, false)->Ok_0.occurs(
            if text::has_char(glob, '/') {
                path
            } else {
                filters::name_of(path)
            },
        ),
{
    lemma_name(path);
    let compiled = pattern::compiled_glob(glob, false)->Ok_0;
    if !text::has_char(glob, '/') {
        if meets(glob, path) {
            let name = choose|name: Seq<char>|
                names(path, name) && #[trigger] compiled.occurs(name);
            lemma_only_name(path, name);
        }
        if compiled.occurs(filters::name_of(path)) {
            assert(names(path, filters::name_of(path)));
        }
    }
}

/// A usable glob: not empty, and not malformed.
pub open spec fn usable(glob: Seq<char>) -> bool {
    glob.len() > 0 && pattern::compiled_glob(glob, false) is Ok
}

proof fn lemma_rules(globs: Seq<Seq<char>>)
    ensures
        filters::all_rules(globs) is Ok <==> forall|k: int|
            0 <= k < globs.len() ==> usable(#[trigger] globs[k]),
        filters::all_rules(globs) matches Ok(list) ==> list.len() == globs.len() && forall|k: int|
            0 <= k < globs.len() ==> #[trigger] list[k] == filters::rule(globs[k])->Ok_0,
    decreases globs.len(),
{
    if globs.len() > 0 {
        let less = globs.drop_last();
        lemma_rules(less);
        assert(globs.last() == globs[globs.len() - 1]);
        assert forall|k: int| 0 <= k < less.len() implies #[trigger] less[k] == globs[k] by {}
        if filters::all_rules(less) is Err {
            let bad = choose|k: int| 0 <= k < less.len() && !usable(#[trigger] less[k]);
            assert(!usable(globs[bad]));
        }
        if filters::all_rules(globs) is Ok {
            assert forall|k: int| 0 <= k < globs.len() implies usable(#[trigger] globs[k]) by {
                if k < less.len() {
                    assert(usable(less[k]));
                }
            }
        }
    }
}

proof fn lemma_any(globs: Seq<Seq<char>>, path: Seq<char>)
    requires
        filters::all_rules(globs) is Ok,
    ensures
        filters::any_matches(filters::all_rules(globs)->Ok_0, path, filters::name_of(path))
            <==> exists|k: int| 0 <= k < globs.len() && meets(#[trigger] globs[k], path),
{
    lemma_rules(globs);
    let list = filters::all_rules(globs)->Ok_0;
    let name = filters::name_of(path);
    assert forall|k: int| 0 <= k < globs.len() implies (#[trigger] list[k]).matches(path, name)
        == meets(globs[k], path) by {
        assert(usable(globs[k]));
        lemma_meets(globs[k], path);
    }
    if filters::any_matches(list, path, name) {
        let k = choose|k: int| 0 <= k < list.len() && (#[trigger] list[k]).matches(path, name);
        assert(meets(globs[k], path));
    }
    if exists|k: int| 0 <= k < globs.len() && meets(#[trigger] globs[k], path) {
        let k = choose|k: int| 0 <= k < globs.len() && meets(#[trigger] globs[k], path);
        assert(list[k].matches(path, name));
    }
}

/// A filter can be built from usable globs and a size window that is not
/// empty, and from nothing else.
pub proof fn law_filters_need_usable_globs_and_a_size_window(
    include_globs: Seq<Seq<char>>,
    exclude_globs: Seq<Seq<char>>,
    min_size: Option<nat>,
    max_size: Option<nat>,
)
    ensures
        filters::selection(include_globs, exclude_globs, min_size, max_size) is Ok <==> {
            &&& forall|k: int| 0 <= k < include_globs.len() ==> usable(#[trigger] include_globs[k])
            &&& forall|k: int| 0 <= k < exclude_globs.len() ==> usable(#[trigger] exclude_globs[k])
            &&& min_size is Some && max_size is Some ==> min_size->0 <= max_size->0
        },
{
    lemma_rules(include_globs);
    lemma_rules(exclude_globs);
}

/// A file is accepted if and only if its size is within the limits, some
/// include glob matches it or there is none, and no exclude glob matches it.
pub proof fn law_files_meet_some_include_and_no_exclude(
    include_globs: Seq<Seq<char>>,
    exclude_globs: Seq<Seq<char>>,
    min_size: Option<nat>,
    max_size: Option<nat>,
    path: Seq<char>,
    size: nat,
)
    requires
        filters::selection(include_globs, exclude_globs, min_size, max_size) is Ok,
    ensures
        filters::selection(include_globs, exclude_globs, min_size, max_size)->Ok_0.accepts(
            path,
            size,
        ) <==> {
            &&& min_size is Some ==> min_size->0 <= size
            &&& max_size is Some ==> size <= max_size->0
            &&& include_globs.len() == 0 || exists|k: int|
                0 <= k < include_globs.len() && meets(#[trigger] include_globs[k], path)
            &&& forall|k: int|
                0 <= k < exclude_globs.len() ==> !meets(#[trigger] exclude_globs[k], path)
        },
{
    lemma_any(include_globs, path);
    lemma_any(exclude_globs, path);
    lemma_rules(include_globs);
}

// ---------------------------------------------------------------------------
// Lines of an ignore file
// ---------------------------------------------------------------------------

/// The line of an ignore file with a glob in it: `!` revokes, `/` in front
/// ties it to the whole path, `/` behind it to directories.
pub open spec fn ignore_line(
    negated: bool,
    rooted: bool,
    glob: Seq<char>,
    dir_only: bool,
) -> Seq<char> {
    (if negated {
        seq!['!']
    } else {
        Seq::empty()
    }) + (if rooted {
        seq!['/']
    } else {
        Seq::empty()
    }) + glob + (if dir_only {
        seq!['/']
    } else {
        Seq::empty()
    })
}

/// A glob that can stand in an ignore file as it is.
pub open spec fn plain_glob(glob: Seq<char>) -> bool {
    &&& usable(glob)
    &&& forall|k: int| 0 <= k < glob.len() ==> #[trigger] glob[k] != '\n'
    &&& !text::is_white(glob[0]) && !text::is_white(glob.last())
    &&& glob[0] != '#' && glob[0] != '!' && glob[0] != '/' && glob.last() != '/'
}

/// What a line of an ignore file does: a path that its glob matches is ignored
/// from there on, or with `!` in front kept; on every other path it does
/// nothing. With `/` behind it the line speaks of directories alone, and with
/// `/` in front its glob matches against the whole path.
pub proof fn law_ignore_lines(
    set: Seq<Ignore>,
    negated: bool,
    rooted: bool,
    glob: Seq<char>,
    dir_only: bool,
    path: Seq<char>,
    is_dir: bool,
)
    requires
        plain_glob(glob),
    ensures
        filters::ignored(
            set + filters::ignore_rules(ignore_line(negated, rooted, glob, dir_only)),
            path,
            is_dir,
        ) == (if (dir_only ==> is_dir) && (if rooted {
            pattern::compiled_glob(glob, false)->Ok_0.occurs(path)
        } else {
            meets(glob, path)
        }) {
            !negated
        } else {
            filters::ignored(set, path, is_dir)
        }),
{
    let line = ignore_line(negated, rooted, glob, dir_only);
    lemma_all_rules(line);
    assert forall|k: int| 0 <= k < line.len() implies #[trigger] line[k] != '\n' by {
        let front: int = (if negated { 1int } else { 0 }) + (if rooted { 1int } else { 0 });
        if front <= k < front + glob.len() {
            assert(line[k] == glob[k - front]);
        }
    }
    lemma_newline_at(line, 0, line.len() as int);
    assert(line.subrange(0, line.len() as int) =~= line);
    assert(line[0] == '!' || line[0] == '/' || line[0] == glob[0]);
    assert(line.last() == '/' || line.last() == glob.last());
    assert(text::trim(line) == line);
    let positive = ignore_line(false, rooted, glob, dir_only);
    let bare = ignore_line(false, rooted, glob, false);
    assert(negated ==> line.skip(1) =~= positive);
    assert(!negated ==> line =~= positive);
    assert(positive[0] == '/' || positive[0] == glob[0]);
    assert(filters::strip_front(line, '!') == positive);
    assert(dir_only ==> positive.drop_last() =~= bare);
    assert(!dir_only ==> positive =~= bare);
    assert(bare.last() == glob.last());
    assert(filters::strip_back(positive, '/') == bare);
    assert(rooted ==> bare.skip(1) =~= glob);
    assert(!rooted ==> bare =~= glob);
    assert(filters::strip_front(bare, '/') == glob);
    assert(negated ==> positive.len() != line.len());
    assert(dir_only ==> bare.len() != positive.len());
    assert(rooted ==> glob.len() != bare.len());
    let rule = filters::ignore_rule(line)->0;
    assert(filters::ignore_rules(line) =~= seq![rule]);
    assert(set + seq![rule] =~= set.push(rule));
    filters::law_last_matching_rule_wins(set, rule, path, is_dir);
    lemma_meets(glob, path);
}

// ---------------------------------------------------------------------------
// Directories and binary files
// ---------------------------------------------------------------------------

/// The directories that are never entered are those of these names.
pub proof fn law_skipped_directories(name: Seq<char>)
    ensures
        filters::skipped_dir(name) <==> (name == ".git"@ || name == ".hg"@ || name == ".svn"@
            || name == ".bzr"@ || name == "node_modules"@ || name == "__pycache__"@ || name
            == ".mypy_cache"@ || name == ".pytest_cache"@ || name == "target"@ || name
            == "vendor"@),
{
    let list = filters::SKIP_DIRS@;
    assert(list[0]@ == ".git"@ && list[1]@ == ".hg"@ && list[2]@ == ".svn"@);
    assert(list[3]@ == ".bzr"@ && list[4]@ == "node_modules"@ && list[5]@ == "__pycache__"@);
    assert(list[6]@ == ".mypy_cache"@ && list[7]@ == ".pytest_cache"@);
    assert(list[8]@ == "target"@ && list[9]@ == "vendor"@);
}

/// A file is binary if and only if a NUL byte is among its first bytes: those
/// of the window of 8 KiB and the one behind it.
pub proof fn law_binary_files_hold_an_early_nul(bytes: Seq<u8>)
    ensures
        filters::binary(bytes) <==> exists|k: int|
            0 <= k <= 8192 && k < bytes.len() && #[trigger] bytes[k] == 0,
{
}

} // verus!
