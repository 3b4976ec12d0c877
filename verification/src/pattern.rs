//! The pattern engine.
//!
//! A small, well-specified matcher used both for content patterns and for
//! glob filters. Supported syntax:
//!
//! | Syntax        | Meaning                                          |
//! |---------------|--------------------------------------------------|
//! | `abc`         | literal characters                               |
//! | `.`           | any character except newline                     |
//! | `*` `+` `?`   | zero-or-more, one-or-more, zero-or-one (greedy)  |
//! | `{m}` `{m,}` `{m,n}` | bounded repetition (expanded at parse time) |
//! | `[abc]`       | character class, ranges like `[a-z]` allowed     |
//! | `[^abc]`      | negated character class                          |
//! | `^` `$`       | start-of-line / end-of-line anchors              |
//! | `a\|b`        | alternation (the longest overall match wins)     |
//! | `(...)`       | grouping                                         |
//! | `\b`          | word boundary                                    |
//! | `\d \w \s`    | digit / word / whitespace classes (`\D \W \S` negated) |
//! | `\n \t \r \0` | control character escapes                        |
//! | `\.` `\*` ... | escape any metacharacter                         |
//!
//! Matching semantics, precisely:
//!
//! * Input is treated as a sequence of `char` values (not bytes), so matches
//!   are always on UTF-8 character boundaries.
//! * The engine finds the **leftmost** match; among the candidate end
//!   positions of a leftmost match it prefers the **longest** (POSIX-style).
//! * With `case_insensitive` set, case folding is applied to literals and
//!   classes. Folding uses the first character of the lowercase mapping.
//! * With `word` set, the whole pattern is wrapped in `\b ... \b` boundaries,
//!   mirroring `grep -w`.
//! * Glob patterns (see [`Pattern::from_glob`]) are anchored at both ends and
//!   `*`/`?` never match the path separator `/`.
//!
//! [`grammar`] says which texts are patterns and what they stand for,
//! [`semantics`] what it means to match, [`parser`] and [`engine`] do the
//! work, and [`laws`] holds what follows.

use vstd::prelude::*;

use crate::error::{Failure, SearchResult};
use crate::pattern::tree::Re;
use crate::text;

pub mod engine;
pub mod globs;
pub mod grammar;
pub mod laws;
pub mod malformed;
pub mod parser;
pub mod semantics;
pub mod syntax;
pub mod tree;

pub use grammar::{MAX_PATTERN_DEPTH, MAX_REPEAT_EXPANSION};
pub use tree::{fold_char, is_word_char, CharClass, Node};

verus! {

/// What a compiled pattern stands for.
pub struct Compiled {
    /// The regular expression.
    pub re: Re,
    /// Whether case is folded.
    pub fold: bool,
    /// The text that the pattern was compiled from.
    pub source: Seq<char>,
}

impl Compiled {
    /// The pattern matches `s[i..j]`.
    pub open spec fn matches(self, s: Seq<char>, i: int, j: int) -> bool {
        semantics::matches(self.re, self.fold, s, i, j)
    }

    /// The pattern matches somewhere in `s`.
    pub open spec fn occurs(self, s: Seq<char>) -> bool {
        exists|i: int, j: int| 0 <= i <= j <= s.len() && #[trigger] self.matches(s, i, j)
    }

    /// The leftmost match, and the longest of those.
    pub open spec fn first(self, s: Seq<char>) -> Option<(int, int)> {
        semantics::first_match(self.re, self.fold, s, 0)
    }

    /// All non-overlapping matches, from left to right.
    pub open spec fn all(self, s: Seq<char>) -> Seq<(int, int)> {
        semantics::all_matches(self.re, self.fold, s, 0)
    }
}

/// A compiled pattern ready to be matched against lines.
#[derive(Debug)]
pub struct Pattern {
    root: Node,
    case_insensitive: bool,
    source: String,
}

impl View for Pattern {
    type V = Compiled;

    closed spec fn view(&self) -> Compiled {
        Compiled { re: self.root@, fold: self.case_insensitive, source: self.source@ }
    }
}

impl Clone for Pattern {
    fn clone(&self) -> (out: Pattern)
        ensures
            out@ == self@,
    {
        Pattern {
            root: self.root.clone(),
            case_insensitive: self.case_insensitive,
            source: self.source.clone(),
        }
    }
}

/// What compiling a pattern gives: the meaning of the pattern, between word
/// boundaries where `word` is set, or the message about what is wrong.
pub open spec fn compiled(p: Seq<char>, fold: bool, word: bool) -> Result<Compiled, Seq<char>> {
    match grammar::meaning(p) {
        Ok(re) => Ok(
            Compiled {
                re: if word {
                    grammar::whole_words(re)
                } else {
                    re
                },
                fold,
                source: p,
            },
        ),
        Err(message) => Err(message),
    }
}

/// What compiling a glob gives.
pub open spec fn compiled_glob(g: Seq<char>, fold: bool) -> Result<Compiled, Seq<char>> {
    match grammar::glob_meaning(g) {
        Ok(re) => Ok(Compiled { re: grammar::whole_line(re), fold, source: g }),
        Err(message) => Err(message),
    }
}

/// A result of compilation is what it should be.
pub open spec fn compiles_to(
    got: SearchResult<Pattern>,
    want: Result<Compiled, Seq<char>>,
) -> bool {
    match got {
        Ok(pattern) => want == Ok::<Compiled, Seq<char>>(pattern@),
        Err(err) => want is Err && err@ == Failure::Pattern(want->Err_0),
    }
}

impl Pattern {
    /// Compile a content pattern.
    ///
    /// `case_insensitive` enables case folding; `word` wraps the pattern in
    /// word boundaries (the `-w` flag). Compilation fails with
    /// [`SearchError::Pattern`] on syntax errors such as unbalanced brackets.
    pub fn new(pattern: &str, case_insensitive: bool, word: bool) -> (out: SearchResult<Pattern>)
        ensures
            compiles_to(out, compiled(pattern@, case_insensitive, word)),
    {
        let src = text::chars_of(pattern);
        match parser::parse_pattern(src.as_slice()) {
            Ok(body) => {
                let root = if word {
                    parser::between(Node::WordBoundary, body, Node::WordBoundary)
                } else {
                    body
                };
                Ok(Pattern { root, case_insensitive, source: pattern.to_owned() })
            },
            Err(err) => Err(err),
        }
    }

    /// Compile a glob pattern (used by file filters and ignore rules).
    ///
    /// Globs are **fully anchored** (`^...$`). `*` and `?` match any run of
    /// characters *except* the path separator `/`, so `src/*.rs` matches
    /// `src/main.rs` but not `src/deep/x.rs`. Consecutive stars collapse to a
    /// single star. Character classes share the pattern syntax.
    pub fn from_glob(glob: &str, case_insensitive: bool) -> (out: SearchResult<Pattern>)
        ensures
            compiles_to(out, compiled_glob(glob@, case_insensitive)),
    {
        let src = text::chars_of(glob);
        match parser::parse_glob(src.as_slice()) {
            Ok(body) => {
                let root = parser::between(Node::StartAnchor, body, Node::EndAnchor);
                Ok(Pattern { root, case_insensitive, source: glob.to_owned() })
            },
            Err(err) => Err(err),
        }
    }

    /// The original source text of the pattern.
    pub fn source(&self) -> (text: &str)
        ensures
            text@ == self@.source,
    {
        self.source.as_str()
    }

    /// Whether this pattern was compiled with case folding enabled.
    pub fn is_case_insensitive(&self) -> (yes: bool)
        ensures
            yes == self@.fold,
    {
        self.case_insensitive
    }

    /// Returns `true` when the pattern matches anywhere in `line`.
    pub fn is_match(&self, line: &str) -> (yes: bool)
        ensures
            yes == self@.occurs(line@),
    {
        let found = self.find(line);
        proof {
            semantics::lemma_first_match(self@.re, self@.fold, line@, 0);
            if self@.occurs(line@) {
                let (i, j) = choose|i: int, j: int|
                    0 <= i <= j <= line@.len() && #[trigger] self@.matches(line@, i, j);
                assert(semantics::matches(self@.re, self@.fold, line@, i, j));
            }
            if found is Some {
                let (a, b) = semantics::span(found->0);
                assert(self@.matches(line@, a, b));
            }
        }
        found.is_some()
    }

    /// Find the leftmost match, returning its `(start, end)` char indices
    /// (`end` exclusive). Returns `None` when there is no match.
    pub fn find(&self, line: &str) -> (found: Option<(usize, usize)>)
        ensures
            semantics::span_option(found) == self@.first(line@),
    {
        let chars = text::chars_of(line);
        self.find_from(chars.as_slice(), 0)
    }

    /// Find all non-overlapping matches in `line`.
    ///
    /// After an empty match the cursor advances by one character to guarantee
    /// termination; this mirrors the behavior of classic search tools.
    pub fn find_all(&self, line: &str) -> (found: Vec<(usize, usize)>)
        ensures
            semantics::spans(found@) == self@.all(line@),
    {
        let chars = text::chars_of(line);
        let mut out: Vec<(usize, usize)> = Vec::new();
        let mut cursor: usize = 0;
        let mut done = false;
        let ghost (re, fold, s) = (self@.re, self@.fold, chars@);
        while !done
            invariant
                s == chars@,
                re == self@.re,
                fold == self@.fold,
                !done ==> cursor <= s.len(),
                semantics::all_matches(re, fold, s, 0) == semantics::spans(out@) + (if done {
                    Seq::<(int, int)>::empty()
                } else {
                    semantics::all_matches(re, fold, s, cursor as int)
                }),
            decreases (if done { 0int } else { s.len() + 1 - cursor }),
        {
            match self.find_from(chars.as_slice(), cursor) {
                Some((start, end)) => {
                    let ghost before = out@;
                    proof {
                        semantics::lemma_first_match(re, fold, s, cursor as int);
                    }
                    out.push((start, end));
                    if end > start {
                        cursor = end;
                    } else if start < chars.len() {
                        cursor = start + 1;
                    } else {
                        done = true;
                    }
                    proof {
                        assert(semantics::spans(out@) =~= semantics::spans(before).push(
                            (start as int, end as int),
                        ));
                        assert(semantics::all_matches(re, fold, s, 0) =~= semantics::spans(out@)
                            + (if done {
                            Seq::<(int, int)>::empty()
                        } else {
                            semantics::all_matches(re, fold, s, cursor as int)
                        }));
                    }
                },
                None => {
                    done = true;
                },
            }
        }
        out
    }

    /// The leftmost match that starts at `from` or behind it: the first start
    /// position from which any end is reached, with the last of those ends.
    fn find_from(&self, chars: &[char], from: usize) -> (found: Option<(usize, usize)>)
        requires
            from <= chars@.len(),
        ensures
            semantics::span_option(found) == semantics::first_match(
                self@.re,
                self@.fold,
                chars@,
                from as int,
            ),
    {
        let ghost (re, fold, s) = (self@.re, self@.fold, chars@);
        let mut start = from;
        loop
            invariant
                s == chars@,
                re == self@.re,
                fold == self@.fold,
                start <= s.len(),
                semantics::first_match(re, fold, s, from as int) == semantics::first_match(
                    re,
                    fold,
                    s,
                    start as int,
                ),
            decreases s.len() - start,
        {
            let ends = engine::collect_ends(&self.root, self.case_insensitive, chars, start);
            if ends.len() > 0 {
                let best = largest(&ends);
                proof {
                    assert(engine::among(ends@, best as int));
                    assert forall|k: int| #[trigger]
                        semantics::matches(re, fold, s, start as int, k) implies k <= best by {
                        assert(engine::among(ends@, k));
                    }
                    semantics::lemma_longest(re, fold, s, start as int, best as int);
                }
                return Some((start, best));
            }
            assert forall|j: int| !#[trigger] semantics::matches(re, fold, s, start as int, j) by {
                assert(!engine::among(ends@, j));
            }
            assert(semantics::first_match(re, fold, s, s.len() as int + 1) is None);
            if start == chars.len() {
                return None;
            }
            start += 1;
        }
    }
}

/// The largest of some numbers.
fn largest(items: &Vec<usize>) -> (best: usize)
    requires
        items@.len() > 0,
    ensures
        engine::among(items@, best as int),
        forall|j: int| #[trigger] engine::among(items@, j) ==> j <= best,
{
    let mut best = items[0];
    let mut at: usize = 0;
    let mut i: usize = 1;
    while i < items.len()
        invariant
            1 <= i <= items@.len(),
            at < items@.len(),
            items@[at as int] == best,
            forall|t: int| 0 <= t < i ==> #[trigger] items@[t] <= best,
        decreases items@.len() - i,
    {
        if items[i] > best {
            best = items[i];
            at = i;
        }
        i += 1;
    }
    best
}

} // verus!
