//! File selection rules: globs, size limits, ignore sets and binary sniffing.
//!
//! The walker consults three layers before a file reaches the search stage:
//!
//! 1. **Glob filters**: the user-facing `--glob` / `--exclude-glob` flags.
//!    Globs without a `/` match the *file name* anywhere in the tree; globs
//!    containing a `/` match the path *relative to the search root*. `*` and
//!    `?` never cross directory separators.
//! 2. **Size limits**: `--min-size` / `--max-size` in bytes.
//! 3. **Ignore sets**: `.gitignore`/`.ignore` files found in the search
//!    roots, parsed with a pragmatic subset of gitignore semantics: comments
//!    (`#`), negation (`!`), directory-only patterns (trailing `/`) and path
//!    anchoring (a leading `/` or any inner `/`). The *last* matching rule
//!    wins, exactly like git.
//!
//! Well-known VCS and build directories (`.git`, `node_modules`, `target`,
//! `__pycache__`, ...) are skipped by the walker itself via [`SKIP_DIRS`];
//! `--no-ignore` disables the ignore-file layer but not that built-in list.
//!
//! This module also owns [`looks_binary`], the NUL-byte heuristic used by the
//! search layer to skip binary files.

use vstd::prelude::*;

use crate::args;
use crate::args::grammar;
use crate::args::Config;
use crate::error::{Failure, SearchError, SearchResult};
use crate::lines;
use crate::pattern;
use crate::pattern::{Compiled, Pattern};
use crate::text;

pub mod laws;

verus! {

/// Size of the window inspected by [`looks_binary`].
pub const BINARY_SNIFF_BYTES: usize = 8192;

/// Directories the walker never descends into.
///
/// These names are overwhelmingly generated artifacts or VCS internals, and
/// skipping them keeps a search of the current directory fast in typical
/// repositories. `--no-ignore` does **not** disable this list; pass explicit
/// paths to search inside one of these directories.
pub const SKIP_DIRS: [&'static str; 10] = [
    ".git",
    ".hg",
    ".svn",
    ".bzr",
    "node_modules",
    "__pycache__",
    ".mypy_cache",
    ".pytest_cache",
    "target",
    "vendor",
];

/// `name` is one of [`SKIP_DIRS`].
pub open spec fn skipped_dir(name: Seq<char>) -> bool {
    exists|k: int| 0 <= k < 10 && (#[trigger] SKIP_DIRS@[k])@ == name
}

/// Whether the walker never descends into directories of this name.
pub fn is_skipped_dir(name: &str) -> (yes: bool)
    ensures
        yes == skipped_dir(name@),
{
    let mut i: usize = 0;
    while i < 10
        invariant
            i <= 10,
            forall|k: int| 0 <= k < i ==> (#[trigger] SKIP_DIRS@[k])@ != name@,
        decreases 10 - i,
    {
        let dir: &str = SKIP_DIRS[i];
        if text::str_eq(dir, name) {
            return true;
        }
        i += 1;
    }
    false
}

// ---------------------------------------------------------------------------
// Globs
// ---------------------------------------------------------------------------

/// A glob rule as a mathematical value.
pub struct Rule {
    /// The compiled glob.
    pub glob: Compiled,
    /// The glob is matched against the path relative to the search root, not
    /// against the bare file name.
    pub full_path: bool,
}

impl Rule {
    /// The rule matches a path with the given file name.
    pub open spec fn matches(self, rel_path: Seq<char>, file_name: Seq<char>) -> bool {
        self.glob.occurs(
            if self.full_path {
                rel_path
            } else {
                file_name
            },
        )
    }
}

/// What compiling a glob rule gives.
pub open spec fn rule(glob: Seq<char>) -> Result<Rule, Failure> {
    if glob.len() == 0 {
        Err(Failure::Arg("glob patterns must not be empty"@))
    } else {
        match pattern::compiled_glob(glob, false) {
            Ok(compiled) => Ok(
                Rule { glob: compiled, full_path: text::has_char(glob, '/') },
            ),
            Err(message) => Err(Failure::Pattern(message)),
        }
    }
}

/// A compiled glob plus the rule for where it applies.
#[derive(Debug)]
pub struct GlobRule {
    pattern: Pattern,
    full_path: bool,
}

impl View for GlobRule {
    type V = Rule;

    closed spec fn view(&self) -> Rule {
        Rule { glob: self.pattern@, full_path: self.full_path }
    }
}

impl Clone for GlobRule {
    fn clone(&self) -> (out: GlobRule)
        ensures
            out@ == self@,
    {
        GlobRule { pattern: self.pattern.clone(), full_path: self.full_path }
    }
}

impl GlobRule {
    /// Compile a glob string. Fails when the glob is empty or contains
    /// malformed character classes (e.g. a dangling `[`).
    pub fn compile(glob: &str) -> (out: SearchResult<GlobRule>)
        ensures
            match out {
                Ok(compiled) => rule(glob@) == Ok::<Rule, Failure>(compiled@),
                Err(err) => rule(glob@) == Err::<Rule, Failure>(err@),
            },
    {
        let chars = text::chars_of(glob);
        if chars.len() == 0 {
            return Err(SearchError::arg("glob patterns must not be empty"));
        }
        let full_path = text::contains_char(chars.as_slice(), '/');
        match Pattern::from_glob(glob, false) {
            Ok(pattern) => Ok(GlobRule { pattern, full_path }),
            Err(err) => Err(err),
        }
    }

    /// Test this rule against a path. `rel_path` must use `/` separators.
    pub fn matches(&self, rel_path: &str, file_name: &str) -> (yes: bool)
        ensures
            yes == self@.matches(rel_path@, file_name@),
    {
        if self.full_path {
            self.pattern.is_match(rel_path)
        } else {
            self.pattern.is_match(file_name)
        }
    }

    /// The original glob text (for diagnostics).
    pub fn source(&self) -> (text: &str)
        ensures
            text@ == self@.glob.source,
    {
        self.pattern.source()
    }
}

/// The views of some rules.
pub open spec fn rules(list: Seq<GlobRule>) -> Seq<Rule> {
    list.map_values(|rule: GlobRule| rule@)
}

/// Some rule matches.
pub open spec fn any_matches(list: Seq<Rule>, rel_path: Seq<char>, file_name: Seq<char>) -> bool {
    exists|k: int| 0 <= k < list.len() && (#[trigger] list[k]).matches(rel_path, file_name)
}

/// What compiling some globs gives: all the rules, or the first failure.
pub open spec fn all_rules(globs: Seq<Seq<char>>) -> Result<Seq<Rule>, Failure>
    decreases globs.len(),
{
    if globs.len() == 0 {
        Ok(Seq::empty())
    } else {
        match all_rules(globs.drop_last()) {
            Ok(list) => match rule(globs.last()) {
                Ok(last) => Ok(list.push(last)),
                Err(failure) => Err(failure),
            },
            Err(failure) => Err(failure),
        }
    }
}

/// A failure among the first globs is the failure of all of them.
proof fn lemma_first_failure(globs: Seq<Seq<char>>, k: int)
    requires
        0 <= k <= globs.len(),
        all_rules(globs.take(k)) is Err,
    ensures
        all_rules(globs) == all_rules(globs.take(k)),
    decreases globs.len() - k,
{
    if k < globs.len() {
        assert(globs.take(k + 1).drop_last() =~= globs.take(k));
        lemma_first_failure(globs, k + 1);
    } else {
        assert(globs.take(k) =~= globs);
    }
}

fn compile_all(globs: &[String]) -> (out: SearchResult<Vec<GlobRule>>)
    ensures
        match out {
            Ok(list) => all_rules(args::words(globs@)) == Ok::<Seq<Rule>, Failure>(rules(list@)),
            Err(err) => all_rules(args::words(globs@)) == Err::<Seq<Rule>, Failure>(err@),
        },
{
    let ghost all = args::words(globs@);
    let mut list: Vec<GlobRule> = Vec::new();
    let mut i: usize = 0;
    proof {
        assert(all.take(0) =~= Seq::<Seq<char>>::empty());
        assert(rules(list@) =~= Seq::<Rule>::empty());
    }
    while i < globs.len()
        invariant
            i <= globs@.len(),
            all == args::words(globs@),
            all_rules(all.take(i as int)) == Ok::<Seq<Rule>, Failure>(rules(list@)),
        decreases globs@.len() - i,
    {
        proof {
            assert(all.take(i + 1).drop_last() =~= all.take(i as int));
            assert(all.take(i + 1).last() == globs@[i as int]@);
        }
        match GlobRule::compile(globs[i].as_str()) {
            Ok(compiled) => {
                proof {
                    assert(rules(list@.push(compiled)) =~= rules(list@).push(compiled@));
                }
                list.push(compiled);
            },
            Err(err) => {
                proof {
                    lemma_first_failure(all, i + 1);
                }
                return Err(err);
            },
        }
        i += 1;
    }
    assert(all.take(i as int) =~= all);
    Ok(list)
}

fn matches_any(list: &Vec<GlobRule>, rel_path: &str, file_name: &str) -> (yes: bool)
    ensures
        yes == any_matches(rules(list@), rel_path@, file_name@),
{
    let mut i: usize = 0;
    while i < list.len()
        invariant
            i <= list@.len(),
            forall|k: int|
                0 <= k < i ==> !(#[trigger] rules(list@)[k]).matches(rel_path@, file_name@),
        decreases list@.len() - i,
    {
        assert(rules(list@)[i as int] == list@[i as int]@);
        if list[i].matches(rel_path, file_name) {
            return true;
        }
        i += 1;
    }
    assert(rules(list@).len() == list@.len());
    false
}

fn copy_rules(list: &Vec<GlobRule>) -> (out: Vec<GlobRule>)
    ensures
        rules(out@) == rules(list@),
{
    let mut out: Vec<GlobRule> = Vec::new();
    let mut i: usize = 0;
    while i < list.len()
        invariant
            i <= list@.len(),
            out@.len() == i,
            forall|k: int| 0 <= k < i ==> (#[trigger] out@[k])@ == list@[k]@,
        decreases list@.len() - i,
    {
        out.push(list[i].clone());
        i += 1;
    }
    assert(rules(out@) =~= rules(list@));
    out
}

// ---------------------------------------------------------------------------
// File filter
// ---------------------------------------------------------------------------

/// A file filter as a mathematical value.
#[verifier::ext_equal]
pub struct Selection {
    /// One of these must match, where there are any.
    pub includes: Seq<Rule>,
    /// None of these may match.
    pub excludes: Seq<Rule>,
    /// The smallest size accepted.
    pub min_size: Option<nat>,
    /// The largest size accepted.
    pub max_size: Option<nat>,
}

impl Selection {
    /// A size within the bounds.
    pub open spec fn size_fits(self, size: nat) -> bool {
        &&& self.min_size matches Some(min) ==> min <= size
        &&& self.max_size matches Some(max) ==> size <= max
    }

    /// A file of this path and size passes every layer.
    pub open spec fn accepts(self, rel_path: Seq<char>, size: nat) -> bool {
        &&& self.size_fits(size)
        &&& self.includes.len() == 0 || any_matches(
            self.includes,
            rel_path,
            name_of(rel_path),
        )
        &&& !any_matches(self.excludes, rel_path, name_of(rel_path))
    }

    /// No restriction at all.
    pub open spec fn is_noop(self) -> bool {
        self.includes.len() == 0 && self.excludes.len() == 0 && self.min_size is None
            && self.max_size is None
    }
}

/// What building a filter gives.
pub open spec fn selection(
    include_globs: Seq<Seq<char>>,
    exclude_globs: Seq<Seq<char>>,
    min_size: Option<nat>,
    max_size: Option<nat>,
) -> Result<Selection, Failure> {
    match all_rules(include_globs) {
        Err(failure) => Err(failure),
        Ok(includes) => match all_rules(exclude_globs) {
            Err(failure) => Err(failure),
            Ok(excludes) => if min_size is Some && max_size is Some && min_size->0 > max_size->0 {
                Err(Failure::Arg(grammar::size_conflict(min_size->0, max_size->0)))
            } else {
                Ok(Selection { includes, excludes, min_size, max_size })
            },
        },
    }
}

/// The complete file-acceptance decision for one candidate file.
#[derive(Debug)]
pub struct FileFilter {
    includes: Vec<GlobRule>,
    excludes: Vec<GlobRule>,
    min_size: Option<u64>,
    max_size: Option<u64>,
}

impl View for FileFilter {
    type V = Selection;

    closed spec fn view(&self) -> Selection {
        Selection {
            includes: rules(self.includes@),
            excludes: rules(self.excludes@),
            min_size: args::size_option(self.min_size),
            max_size: args::size_option(self.max_size),
        }
    }
}

impl Clone for FileFilter {
    fn clone(&self) -> (out: FileFilter)
        ensures
            out@ == self@,
    {
        FileFilter {
            includes: copy_rules(&self.includes),
            excludes: copy_rules(&self.excludes),
            min_size: self.min_size,
            max_size: self.max_size,
        }
    }
}

impl FileFilter {
    /// A filter that accepts every file (no globs, no size limits).
    pub fn empty() -> (out: FileFilter)
        ensures
            out@ == (Selection {
                includes: Seq::empty(),
                excludes: Seq::empty(),
                min_size: None,
                max_size: None,
            }),
    {
        FileFilter { includes: Vec::new(), excludes: Vec::new(), min_size: None, max_size: None }
    }

    /// Build a filter from raw glob strings and byte limits.
    ///
    /// Errors surface from glob compilation; the size pair is validated here
    /// so a contradictory `--min-size`/`--max-size` fails fast at startup.
    pub fn new(
        include_globs: &[String],
        exclude_globs: &[String],
        min_size: Option<u64>,
        max_size: Option<u64>,
    ) -> (out: SearchResult<FileFilter>)
        ensures
            ({
                let want = selection(
                    args::words(include_globs@),
                    args::words(exclude_globs@),
                    args::size_option(min_size),
                    args::size_option(max_size),
                );
                match out {
                    Ok(filter) => want == Ok::<Selection, Failure>(filter@),
                    Err(err) => want == Err::<Selection, Failure>(err@),
                }
            }),
    {
        let includes = match compile_all(include_globs) {
            Ok(list) => list,
            Err(err) => {
                return Err(err);
            },
        };
        let excludes = match compile_all(exclude_globs) {
            Ok(list) => list,
            Err(err) => {
                return Err(err);
            },
        };
        if let (Some(min), Some(max)) = (min_size, max_size) {
            if min > max {
                return Err(args::size_conflict(min, max));
            }
        }
        Ok(FileFilter { includes, excludes, min_size, max_size })
    }

    /// Build the filter from a parsed [`Config`].
    pub fn from_config(config: &Config) -> (out: SearchResult<FileFilter>)
        ensures
            ({
                let c = config@;
                let want = selection(c.include_globs, c.exclude_globs, c.min_size, c.max_size);
                match out {
                    Ok(filter) => want == Ok::<Selection, Failure>(filter@),
                    Err(err) => want == Err::<Selection, Failure>(err@),
                }
            }),
    {
        FileFilter::new(
            config.include_globs.as_slice(),
            config.exclude_globs.as_slice(),
            config.min_size,
            config.max_size,
        )
    }

    /// `true` when the filter imposes no restriction at all.
    pub fn is_noop(&self) -> (yes: bool)
        ensures
            yes == self@.is_noop(),
    {
        assert(rules(self.includes@).len() == self.includes@.len());
        assert(rules(self.excludes@).len() == self.excludes@.len());
        self.includes.len() == 0 && self.excludes.len() == 0 && self.min_size.is_none()
            && self.max_size.is_none()
    }

    /// Decide whether a file passes every layer of the filter.
    ///
    /// `rel_path` is the path relative to the search root with `/`
    /// separators (for a file passed explicitly, the file name is used).
    /// `size` is the file length in bytes. Order of checks: size bounds,
    /// include globs (any match required when present), exclude globs (any
    /// match rejects).
    pub fn accepts(&self, rel_path: &str, size: u64) -> (yes: bool)
        ensures
            yes == self@.accepts(rel_path@, size as nat),
    {
        if let Some(min) = self.min_size {
            if size < min {
                return false;
            }
        }
        if let Some(max) = self.max_size {
            if size > max {
                return false;
            }
        }
        let file_name = base_name(rel_path);
        assert(rules(self.includes@).len() == self.includes@.len());
        if self.includes.len() > 0 && !matches_any(
            &self.includes,
            rel_path,
            file_name.as_str(),
        ) {
            return false;
        }
        !matches_any(&self.excludes, rel_path, file_name.as_str())
    }
}

/// The portion of a path behind its last `/`, or all of it.
pub open spec fn name_of(path: Seq<char>) -> Seq<char>
    decreases path.len(),
{
    if path.len() == 0 || path.last() == '/' {
        Seq::empty()
    } else {
        name_of(path.drop_last()).push(path.last())
    }
}

/// The portion of `path` after the last `/` (the whole string if none).
pub fn base_name(path: &str) -> (name: String)
    ensures
        name@ == name_of(path@),
{
    let chars = text::chars_of(path);
    let mut start: usize = chars.len();
    proof {
        assert(chars@.take(start as int) =~= chars@);
        assert(name_of(chars@) + chars@.skip(start as int) =~= name_of(chars@));
    }
    while start > 0 && chars[start - 1] != '/'
        invariant
            start <= chars@.len(),
            name_of(chars@) == name_of(chars@.take(start as int)) + chars@.skip(start as int),
        decreases start,
    {
        proof {
            let head = chars@.take(start as int);
            assert(head.drop_last() =~= chars@.take(start - 1));
            assert(seq![chars@[start - 1]] + chars@.skip(start as int) =~= chars@.skip(start - 1));
            assert(name_of(chars@) =~= name_of(chars@.take(start - 1)) + chars@.skip(start - 1));
        }
        start -= 1;
    }
    proof {
        assert(name_of(chars@.take(start as int)) =~= Seq::<char>::empty());
        assert(chars@.subrange(start as int, chars@.len() as int) =~= chars@.skip(start as int));
        assert(name_of(chars@) =~= chars@.skip(start as int));
    }
    text::string_of(chars.as_slice(), start, chars.len())
}

// ---------------------------------------------------------------------------
// Ignore sets
// ---------------------------------------------------------------------------

/// A rule of an ignore file as a mathematical value.
pub struct Ignore {
    /// A previous match is revoked when this rule matches.
    pub negated: bool,
    /// The rule only applies to directories.
    pub dir_only: bool,
    /// The rule matches against the whole relative path.
    pub full_path: bool,
    /// The compiled glob.
    pub glob: Compiled,
}

impl Ignore {
    /// The rule speaks of this path.
    pub open spec fn matches(self, rel_path: Seq<char>, is_dir: bool) -> bool {
        &&& self.dir_only ==> is_dir
        &&& self.glob.occurs(
            if self.full_path {
                rel_path
            } else {
                name_of(rel_path)
            },
        )
    }
}

/// `s` without the character `ch` in front, where it stands there.
pub open spec fn strip_front(s: Seq<char>, ch: char) -> Seq<char> {
    if s.len() > 0 && s[0] == ch {
        s.skip(1)
    } else {
        s
    }
}

/// `s` without the character `ch` at its end, where it stands there.
pub open spec fn strip_back(s: Seq<char>, ch: char) -> Seq<char> {
    if s.len() > 0 && s.last() == ch {
        s.drop_last()
    } else {
        s
    }
}

/// The rule that a line of an ignore file states, if any: no blank line, no
/// comment and no malformed glob states one.
pub open spec fn ignore_rule(raw: Seq<char>) -> Option<Ignore> {
    let line = text::trim(raw);
    let positive = strip_front(line, '!');
    let bare = strip_back(positive, '/');
    let glob = strip_front(bare, '/');
    if line.len() == 0 || line[0] == '#' || glob.len() == 0 {
        None
    } else {
        match pattern::compiled_glob(glob, false) {
            Ok(compiled) => Some(
                Ignore {
                    negated: positive != line,
                    dir_only: bare != positive,
                    full_path: glob != bare || text::has_char(glob, '/'),
                    glob: compiled,
                },
            ),
            Err(_) => None,
        }
    }
}

/// The rules of the first `k` lines of an ignore file, in order.
pub open spec fn first_rules(file: Seq<char>, k: int) -> Seq<Ignore>
    decreases k,
{
    if k <= 0 {
        Seq::empty()
    } else {
        let before = first_rules(file, k - 1);
        match ignore_rule(lines::lines(file)[k - 1].text) {
            Some(rule) => before.push(rule),
            None => before,
        }
    }
}

/// The rules of an ignore file, in order.
pub open spec fn ignore_rules(file: Seq<char>) -> Seq<Ignore> {
    first_rules(file, lines::lines(file).len() as int)
}

/// The verdict of some rules: the last rule that matches decides.
pub open spec fn ignored(rules: Seq<Ignore>, rel_path: Seq<char>, is_dir: bool) -> bool
    decreases rules.len(),
{
    if rules.len() == 0 {
        false
    } else if rules.last().matches(rel_path, is_dir) {
        !rules.last().negated
    } else {
        ignored(rules.drop_last(), rel_path, is_dir)
    }
}

/// One parsed line of an ignore file.
#[derive(Debug)]
struct IgnoreRule {
    /// `!pattern`: a previous match is revoked when this rule matches.
    negated: bool,
    /// `pattern/`: only applies to directories.
    dir_only: bool,
    /// The pattern contains a `/`, so it matches against the whole relative
    /// path instead of the file name alone.
    full_path: bool,
    pattern: Pattern,
}

impl View for IgnoreRule {
    type V = Ignore;

    closed spec fn view(&self) -> Ignore {
        Ignore {
            negated: self.negated,
            dir_only: self.dir_only,
            full_path: self.full_path,
            glob: self.pattern@,
        }
    }
}

/// A set of ignore rules parsed from `.ignore` / `.gitignore` content.
#[derive(Debug)]
pub struct IgnoreSet {
    rules: Vec<IgnoreRule>,
}

impl View for IgnoreSet {
    type V = Seq<Ignore>;

    closed spec fn view(&self) -> Seq<Ignore> {
        self.rules@.map_values(|rule: IgnoreRule| rule@)
    }
}

impl Default for IgnoreSet {
    fn default() -> (out: IgnoreSet)
        ensures
            out@ == Seq::<Ignore>::empty(),
    {
        IgnoreSet::empty()
    }
}

impl Clone for IgnoreSet {
    fn clone(&self) -> (out: IgnoreSet)
        ensures
            out@ == self@,
    {
        let mut rules: Vec<IgnoreRule> = Vec::new();
        let mut i: usize = 0;
        while i < self.rules.len()
            invariant
                i <= self.rules@.len(),
                rules@.len() == i,
                forall|k: int| 0 <= k < i ==> (#[trigger] rules@[k])@ == self.rules@[k]@,
            decreases self.rules@.len() - i,
        {
            let rule = &self.rules[i];
            rules.push(
                IgnoreRule {
                    negated: rule.negated,
                    dir_only: rule.dir_only,
                    full_path: rule.full_path,
                    pattern: rule.pattern.clone(),
                },
            );
            i += 1;
        }
        let out = IgnoreSet { rules };
        assert(out@ =~= self@);
        out
    }
}

/// Parses one line of an ignore file.
fn parse_ignore_line(raw: &str) -> (out: Option<IgnoreRule>)
    ensures
        match out {
            Some(rule) => ignore_rule(raw@) == Some(rule@),
            None => ignore_rule(raw@) is None,
        },
{
    let chars = text::chars_of(raw);
    let (lo, hi) = text::trim_bounds(chars.as_slice(), 0, chars.len());
    let ghost line = text::trim(raw@);
    proof {
        assert(chars@.subrange(0, chars@.len() as int) =~= chars@);
        assert(line =~= chars@.subrange(lo as int, hi as int));
    }
    if lo == hi || chars[lo] == '#' {
        return None;
    }
    let negated = chars[lo] == '!';
    let from: usize = if negated {
        lo + 1
    } else {
        lo
    };
    let ghost positive = strip_front(line, '!');
    assert(positive =~= chars@.subrange(from as int, hi as int));
    let dir_only = from < hi && chars[hi - 1] == '/';
    let to: usize = if dir_only {
        hi - 1
    } else {
        hi
    };
    let ghost bare = strip_back(positive, '/');
    assert(bare =~= chars@.subrange(from as int, to as int));
    let anchored = from < to && chars[from] == '/';
    let start: usize = if anchored {
        from + 1
    } else {
        from
    };
    let ghost want = strip_front(bare, '/');
    assert(want =~= chars@.subrange(start as int, to as int));
    if start == to {
        return None;
    }
    let glob = text::string_of(chars.as_slice(), start, to);
    let glob_chars = text::chars_of(glob.as_str());
    let full_path = anchored || text::contains_char(glob_chars.as_slice(), '/');
    proof {
        assert(positive != line <==> negated) by {
            if negated {
                assert(positive.len() != line.len());
            }
        }
        assert(bare != positive <==> dir_only) by {
            if dir_only {
                assert(bare.len() != positive.len());
            }
        }
        assert(want != bare <==> anchored) by {
            if anchored {
                assert(want.len() != bare.len());
            }
        }
    }
    match Pattern::from_glob(glob.as_str(), false) {
        Ok(pattern) => Some(IgnoreRule { negated, dir_only, full_path, pattern }),
        Err(_) => None,
    }
}

impl IgnoreSet {
    /// An empty set that ignores nothing.
    pub fn empty() -> (out: IgnoreSet)
        ensures
            out@ == Seq::<Ignore>::empty(),
    {
        let out = IgnoreSet { rules: Vec::new() };
        assert(out@ =~= Seq::<Ignore>::empty());
        out
    }

    /// Parse ignore-file `text` and append its rules to this set.
    ///
    /// Malformed lines (glob syntax errors) are skipped silently: ignore
    /// files are advisory, and one bad line should not abort a search.
    pub fn extend(&mut self, text: &str)
        ensures
            final(self)@ == old(self)@ + ignore_rules(text@),
    {
        let found = lines::iter_lines(text);
        let ghost start = self@;
        let mut i: usize = 0;
        proof {
            assert(self@ =~= start + first_rules(text@, 0));
        }
        while i < found.len()
            invariant
                i <= found@.len(),
                lines::line_views(found@) == lines::lines(text@),
                self@ == start + first_rules(text@, i as int),
            decreases found@.len() - i,
        {
            proof {
                assert(lines::line_views(found@).len() == found@.len());
                assert(lines::line_views(found@)[i as int] == found@[i as int]@);
            }
            if let Some(rule) = parse_ignore_line(found[i].text.as_str()) {
                let ghost before = self.rules@;
                self.rules.push(rule);
                proof {
                    assert(self@ =~= before.map_values(|rule: IgnoreRule| rule@).push(rule@));
                    assert(self@ =~= start + first_rules(text@, i + 1));
                }
            }
            i += 1;
        }
        assert(lines::line_views(found@).len() == found@.len());
    }

    /// Parse a complete ignore file in one call.
    pub fn from_text(text: &str) -> (out: IgnoreSet)
        ensures
            out@ == ignore_rules(text@),
    {
        let mut set = IgnoreSet::empty();
        set.extend(text);
        assert(set@ =~= ignore_rules(text@));
        set
    }

    /// `true` when no rules were parsed.
    pub fn is_empty(&self) -> (yes: bool)
        ensures
            yes == (self@.len() == 0),
    {
        self.rules.len() == 0
    }

    /// The number of parsed rules.
    pub fn rules_len(&self) -> (n: usize)
        ensures
            n == self@.len(),
    {
        self.rules.len()
    }

    /// Evaluate the set for a path relative to the ignore file's directory.
    ///
    /// Git semantics: the last matching rule decides, so negations can rescue
    /// paths caught by earlier rules. Directory-only rules are skipped for
    /// files.
    pub fn matches(&self, rel_path: &str, is_dir: bool) -> (yes: bool)
        ensures
            yes == ignored(self@, rel_path@, is_dir),
    {
        let file_name = base_name(rel_path);
        let mut verdict = false;
        let mut i: usize = 0;
        assert(self@.take(0) =~= Seq::<Ignore>::empty());
        while i < self.rules.len()
            invariant
                i <= self.rules@.len(),
                self@.len() == self.rules@.len(),
                file_name@ == name_of(rel_path@),
                verdict == ignored(self@.take(i as int), rel_path@, is_dir),
            decreases self.rules@.len() - i,
        {
            proof {
                assert(self@.take(i + 1).drop_last() =~= self@.take(i as int));
                assert(self@.take(i + 1).last() == self.rules@[i as int]@);
            }
            let rule = &self.rules[i];
            if is_dir || !rule.dir_only {
                let target = if rule.full_path {
                    rel_path
                } else {
                    file_name.as_str()
                };
                if rule.pattern.is_match(target) {
                    verdict = !rule.negated;
                }
            }
            i += 1;
        }
        assert(self@.take(i as int) =~= self@);
        verdict
    }
}

// ---------------------------------------------------------------------------
// Binary files
// ---------------------------------------------------------------------------

/// A NUL byte stands in the inspected window or just behind it.
pub open spec fn binary(bytes: Seq<u8>) -> bool {
    exists|k: int|
        0 <= k < bytes.len() && k <= BINARY_SNIFF_BYTES && #[trigger] bytes[k] == 0
}

/// Heuristically decide whether `bytes` is a binary file.
///
/// A NUL byte anywhere in the first [`BINARY_SNIFF_BYTES`] bytes, or just
/// behind them, marks the file as binary; a NUL byte further on is not seen.
/// Text in any encoding passes; invalid UTF-8 without NUL bytes is rejected
/// later by the UTF-8 conversion in the search layer.
pub fn looks_binary(bytes: &[u8]) -> (yes: bool)
    ensures
        yes == binary(bytes@),
{
    let mut i: usize = 0;
    while i < bytes.len() && i <= BINARY_SNIFF_BYTES
        invariant
            i <= bytes@.len(),
            i <= BINARY_SNIFF_BYTES + 1,
            forall|k: int| 0 <= k < i ==> #[trigger] bytes@[k] != 0,
        decreases bytes@.len() - i,
    {
        if bytes[i] == 0 {
            return true;
        }
        i += 1;
    }
    false
}

// ---------------------------------------------------------------------------
// Laws
// ---------------------------------------------------------------------------

/// A filter without restrictions accepts every file.
pub proof fn law_noop_filter_accepts_everything(filter: Selection, path: Seq<char>, size: nat)
    requires
        filter.is_noop(),
    ensures
        filter.accepts(path, size),
{
}

/// An excluded file is rejected, whatever the other layers say.
pub proof fn law_excludes_win(filter: Selection, path: Seq<char>, size: nat)
    requires
        any_matches(filter.excludes, path, name_of(path)),
    ensures
        !filter.accepts(path, size),
{
}

/// A rule added behind others decides on every path it matches, and leaves
/// the verdict on every other path as it was.
pub proof fn law_last_matching_rule_wins(
    rules: Seq<Ignore>,
    last: Ignore,
    path: Seq<char>,
    is_dir: bool,
)
    ensures
        last.matches(path, is_dir) ==> ignored(rules.push(last), path, is_dir) == !last.negated,
        !last.matches(path, is_dir) ==> ignored(rules.push(last), path, is_dir) == ignored(
            rules,
            path,
            is_dir,
        ),
{
    assert(rules.push(last).drop_last() =~= rules);
}

/// Nothing is ignored that no rule matches.
pub proof fn law_unmatched_paths_are_kept(rules: Seq<Ignore>, path: Seq<char>, is_dir: bool)
    requires
        forall|k: int| 0 <= k < rules.len() ==> !(#[trigger] rules[k]).matches(path, is_dir),
    ensures
        !ignored(rules, path, is_dir),
    decreases rules.len(),
{
    if rules.len() > 0 {
        let less = rules.drop_last();
        assert forall|k: int| 0 <= k < less.len() implies !(#[trigger] less[k]).matches(
            path,
            is_dir,
        ) by {
            assert(!rules[k].matches(path, is_dir));
        }
        law_unmatched_paths_are_kept(less, path, is_dir);
    }
}

} // verus!
