//! Pattern trees and the character tests at their leaves.

use vstd::prelude::*;

use crate::text;

verus! {

// ---------------------------------------------------------------------------
// Characters
// ---------------------------------------------------------------------------

/// The first character of the full Unicode lowercase mapping of `ch`.
pub uninterp spec fn lowercase_head(ch: char) -> Option<char>;

/// Whether Unicode counts `ch` as alphanumeric (alphabetic or numeric).
pub uninterp spec fn alphanumeric(ch: char) -> bool;

/// An ASCII letter or digit.
pub open spec fn ascii_alphanumeric(ch: char) -> bool {
    ||| '0' <= ch && ch <= '9'
    ||| 'A' <= ch && ch <= 'Z'
    ||| 'a' <= ch && ch <= 'z'
}

/// `char::to_lowercase` yields the characters of the Unicode lowercase
/// mapping; this is the first of them. On ASCII that mapping is the familiar
/// one; elsewhere it is the Unicode table, which the name stands for.
#[verifier::external_body]
fn first_lowercase(ch: char) -> (head: Option<char>)
    ensures
        head == lowercase_head(ch),
        (ch as u32) < 128 ==> head == Some(text::ascii_lower(ch)),
{
    ch.to_lowercase().next()
}

/// `char::is_alphanumeric` tests the Unicode properties Alphabetic and
/// Numeric. On ASCII these are the letters and digits; elsewhere they are the
/// Unicode tables, which the name stands for.
#[verifier::external_body]
fn unicode_alphanumeric(ch: char) -> (yes: bool)
    ensures
        yes == alphanumeric(ch),
        (ch as u32) < 128 ==> yes == ascii_alphanumeric(ch),
{
    ch.is_alphanumeric()
}

/// The folded form of `ch`: the head of its lowercase mapping, or `ch` itself
/// where the mapping is empty.
pub open spec fn folded(ch: char) -> char {
    match lowercase_head(ch) {
        Some(first) => first,
        None => ch,
    }
}

/// Fold a character for case-insensitive comparison.
///
/// Uses the first character of the full lowercase mapping. This is exact for
/// ASCII; multi-character mappings are approximated by their first character.
pub fn fold_char(ch: char) -> (out: char)
    ensures
        out == folded(ch),
        (ch as u32) < 128 ==> out == text::ascii_lower(ch),
{
    match first_lowercase(ch) {
        Some(first) => first,
        None => ch,
    }
}

/// A word character: alphanumeric or underscore.
pub open spec fn word_char(ch: char) -> bool {
    alphanumeric(ch) || ch == '_'
}

/// Returns `true` when `ch` is considered a word character (alphanumeric or
/// underscore).
pub fn is_word_char(ch: char) -> (yes: bool)
    ensures
        yes == word_char(ch),
        (ch as u32) < 128 ==> yes == (ascii_alphanumeric(ch) || ch == '_'),
{
    unicode_alphanumeric(ch) || ch == '_'
}

/// Two characters are the same, up to case where `fold` is set.
pub open spec fn same_char(a: char, b: char, fold: bool) -> bool {
    if fold {
        folded(a) == folded(b)
    } else {
        a == b
    }
}

// ---------------------------------------------------------------------------
// Character classes
// ---------------------------------------------------------------------------

/// A character class as a mathematical value.
#[verifier::ext_equal]
pub struct CharSet {
    /// The class matches what is not listed.
    pub negated: bool,
    /// Inclusive ranges.
    pub ranges: Seq<(char, char)>,
}

/// Some range of `ranges` holds `ch`.
pub open spec fn in_ranges(ranges: Seq<(char, char)>, ch: char) -> bool {
    exists|k: int| 0 <= k < ranges.len() && (#[trigger] ranges[k]).0 <= ch && ch <= ranges[k].1
}

impl CharSet {
    /// Membership: the character or, under case folding, its folded form is
    /// listed; a negated class turns the answer around.
    pub open spec fn holds(self, ch: char, fold: bool) -> bool {
        (in_ranges(self.ranges, ch) || (fold && in_ranges(self.ranges, folded(ch)))) != self.negated
    }
}

/// Everything but `/`, the class behind the glob wildcards.
pub open spec fn not_slash_set() -> CharSet {
    CharSet { negated: true, ranges: seq![('/', '/')] }
}

/// The ranges of `\d`.
pub open spec fn digit_ranges() -> Seq<(char, char)> {
    seq![('0', '9')]
}

/// The ranges of `\w`.
pub open spec fn word_ranges() -> Seq<(char, char)> {
    seq![('a', 'z'), ('A', 'Z'), ('0', '9'), ('_', '_')]
}

/// The ranges of `\s`.
pub open spec fn space_ranges() -> Seq<(char, char)> {
    seq![(' ', ' '), ('\t', '\t'), ('\r', '\r'), ('\n', '\n')]
}

/// A character class: a (possibly negated) set of inclusive char ranges.
#[derive(Debug, PartialEq, Eq)]
pub struct CharClass {
    /// When `true`, the class matches anything **not** listed.
    pub negated: bool,
    /// Inclusive ranges; a single character is a range `(c, c)`.
    pub ranges: Vec<(char, char)>,
}

impl View for CharClass {
    type V = CharSet;

    open spec fn view(&self) -> CharSet {
        CharSet { negated: self.negated, ranges: self.ranges@ }
    }
}

impl Clone for CharClass {
    fn clone(&self) -> (out: CharClass)
        ensures
            out@ == self@,
    {
        let mut ranges: Vec<(char, char)> = Vec::new();
        let mut i: usize = 0;
        while i < self.ranges.len()
            invariant
                i <= self.ranges@.len(),
                ranges@ == self.ranges@.take(i as int),
            decreases self.ranges@.len() - i,
        {
            ranges.push(self.ranges[i]);
            i += 1;
        }
        CharClass { negated: self.negated, ranges }
    }
}

impl CharClass {
    /// Whether some range holds `ch`.
    fn listed(&self, ch: char) -> (yes: bool)
        ensures
            yes == in_ranges(self.ranges@, ch),
    {
        let mut i: usize = 0;
        while i < self.ranges.len()
            invariant
                i <= self.ranges@.len(),
                forall|k: int|
                    0 <= k < i ==> !((#[trigger] self.ranges@[k]).0 <= ch && ch
                        <= self.ranges@[k].1),
            decreases self.ranges@.len() - i,
        {
            let range = self.ranges[i];
            if range.0 <= ch && ch <= range.1 {
                return true;
            }
            i += 1;
        }
        false
    }

    /// Test membership. With `case_insensitive`, both the raw character and
    /// its case-folded form are tested.
    pub fn matches(&self, ch: char, case_insensitive: bool) -> (yes: bool)
        ensures
            yes == self@.holds(ch, case_insensitive),
    {
        let direct = self.listed(ch);
        let hit = if case_insensitive {
            direct || self.listed(fold_char(ch))
        } else {
            direct
        };
        hit != self.negated
    }

    /// The class used for glob `*` and `?`: any character except `/`.
    pub fn not_slash() -> (out: CharClass)
        ensures
            out@ == not_slash_set(),
    {
        CharClass { negated: true, ranges: vec![('/', '/')] }
    }

    /// `\d`: ASCII digits.
    pub fn digit() -> (out: CharClass)
        ensures
            out@ == (CharSet { negated: false, ranges: digit_ranges() }),
    {
        CharClass { negated: false, ranges: vec![('0', '9')] }
    }

    /// `\w`: word characters.
    pub fn word() -> (out: CharClass)
        ensures
            out@ == (CharSet { negated: false, ranges: word_ranges() }),
    {
        CharClass { negated: false, ranges: vec![('a', 'z'), ('A', 'Z'), ('0', '9'), ('_', '_')] }
    }

    /// `\s`: the usual whitespace set.
    pub fn space() -> (out: CharClass)
        ensures
            out@ == (CharSet { negated: false, ranges: space_ranges() }),
    {
        CharClass {
            negated: false,
            ranges: vec![(' ', ' '), ('\t', '\t'), ('\r', '\r'), ('\n', '\n')],
        }
    }
}

// ---------------------------------------------------------------------------
// Trees
// ---------------------------------------------------------------------------

/// A pattern as a mathematical value: a regular expression over characters.
pub enum Re {
    /// The empty string.
    Empty,
    /// One given character.
    Literal(char),
    /// Any character except a newline.
    AnyChar,
    /// A character of a class.
    Class(CharSet),
    /// The start of the line.
    StartAnchor,
    /// The end of the line.
    EndAnchor,
    /// A word boundary.
    WordBoundary,
    /// Any number of repetitions.
    Star(Box<Re>),
    /// One or more repetitions.
    Plus(Box<Re>),
    /// At most one repetition.
    Optional(Box<Re>),
    /// One after the other.
    Concat(Seq<Re>),
    /// Any one of them.
    Alternate(Seq<Re>),
}

/// The parsed pattern tree.
#[derive(Debug)]
pub enum Node {
    /// Matches the empty string.
    Empty,
    /// A single literal character.
    Literal(char),
    /// `.`: any character except `\n`.
    AnyChar,
    /// A character class.
    Class(CharClass),
    /// `^`: matches only at position 0.
    StartAnchor,
    /// `$`: matches only at end of input.
    EndAnchor,
    /// `\b`: word boundary.
    WordBoundary,
    /// `*`: zero or more.
    Star(Box<Node>),
    /// `+`: one or more.
    Plus(Box<Node>),
    /// `?`: zero or one.
    Optional(Box<Node>),
    /// A sequence matched left to right.
    Concat(Vec<Node>),
    /// Alternation; all branches are explored.
    Alternate(Vec<Node>),
}

/// The regular expression that a tree stands for.
pub open spec fn tree(node: Node) -> Re
    decreases node,
{
    match node {
        Node::Empty => Re::Empty,
        Node::Literal(ch) => Re::Literal(ch),
        Node::AnyChar => Re::AnyChar,
        Node::Class(class) => Re::Class(class@),
        Node::StartAnchor => Re::StartAnchor,
        Node::EndAnchor => Re::EndAnchor,
        Node::WordBoundary => Re::WordBoundary,
        Node::Star(inner) => Re::Star(Box::new(tree(*inner))),
        Node::Plus(inner) => Re::Plus(Box::new(tree(*inner))),
        Node::Optional(inner) => Re::Optional(Box::new(tree(*inner))),
        Node::Concat(items) => Re::Concat(trees(items@)),
        Node::Alternate(branches) => Re::Alternate(trees(branches@)),
    }
}

/// [`tree`], element by element.
pub open spec fn trees(nodes: Seq<Node>) -> Seq<Re>
    decreases nodes,
{
    Seq::new(
        nodes.len(),
        |k: int|
            if 0 <= k < nodes.len() {
                tree(nodes[k])
            } else {
                Re::Empty
            },
    )
}

impl View for Node {
    type V = Re;

    open spec fn view(&self) -> Re {
        tree(*self)
    }
}

impl Clone for Node {
    fn clone(&self) -> (out: Node)
        ensures
            out@ == self@,
        decreases self,
    {
        match self {
            Node::Empty => Node::Empty,
            Node::Literal(ch) => Node::Literal(*ch),
            Node::AnyChar => Node::AnyChar,
            Node::Class(class) => Node::Class(class.clone()),
            Node::StartAnchor => Node::StartAnchor,
            Node::EndAnchor => Node::EndAnchor,
            Node::WordBoundary => Node::WordBoundary,
            Node::Star(inner) => Node::Star(Box::new((**inner).clone())),
            Node::Plus(inner) => Node::Plus(Box::new((**inner).clone())),
            Node::Optional(inner) => Node::Optional(Box::new((**inner).clone())),
            Node::Concat(items) => {
                let mut out: Vec<Node> = Vec::new();
                let mut i: usize = 0;
                while i < items.len()
                    invariant
                        i <= items@.len(),
                        self == Node::Concat(*items),
                        out@.len() == i,
                        forall|k: int| 0 <= k < i ==> tree(out@[k]) == tree(#[trigger] items@[k]),
                    decreases items@.len() - i,
                {
                    assert(decreases_to!(*self => self->Concat_0@[i as int]));
                    let item = items[i].clone();
                    out.push(item);
                    i += 1;
                }
                assert(trees(out@) =~= trees(items@));
                Node::Concat(out)
            },
            Node::Alternate(branches) => {
                let mut out: Vec<Node> = Vec::new();
                let mut i: usize = 0;
                while i < branches.len()
                    invariant
                        i <= branches@.len(),
                        self == Node::Alternate(*branches),
                        out@.len() == i,
                        forall|k: int|
                            0 <= k < i ==> tree(out@[k]) == tree(#[trigger] branches@[k]),
                    decreases branches@.len() - i,
                {
                    assert(decreases_to!(*self => self->Alternate_0@[i as int]));
                    let branch = branches[i].clone();
                    out.push(branch);
                    i += 1;
                }
                assert(trees(out@) =~= trees(branches@));
                Node::Alternate(out)
            },
        }
    }
}

} // verus!
