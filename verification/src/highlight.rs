//! ANSI highlighting for match spans.
//!
//! The pattern engine reports matches as **char-index ranges** over a line.
//! This module turns those ranges into terminal color: it owns the palette
//! (one SGR escape sequence per output role) and knows how to paint a line
//! so that exactly the matched characters get the match color, regardless
//! of multi-byte UTF-8 content.
//!
//! Rules that keep the output sane:
//!
//! * Spans are merged first: touching or overlapping ranges never produce
//!   nested resets.
//! * Zero-width spans (empty patterns) are skipped: there is nothing to
//!   color.
//! * A colorless palette short-circuits to the plain line, so
//!   `--color never` output is byte-identical to text without matches.
//!
//! [`strip_ansi`] is the inverse for plain-text comparisons.

use vstd::prelude::*;
use vstd::seq_lib::*;

use crate::pattern::semantics;
use crate::sorting;
use crate::sorting::Placed;
use crate::text;

pub mod laws;

verus! {

/// The reset sequence that closes any SGR color.
pub const RESET: &'static str = "\x1b[0m";

// ---------------------------------------------------------------------------
// Palette
// ---------------------------------------------------------------------------

/// One ANSI color assignment per output role.
///
/// The default palette follows the classic grep conventions: bold magenta
/// file names, bold green line numbers, cyan separators and bold red
/// matches. Every field holds a full escape sequence (or the empty string
/// for a colorless palette).
#[derive(Debug, Clone, Copy, PartialEq, Eq)]
pub struct Palette {
    /// File-name prefix.
    pub path: &'static str,
    /// Line-number / byte-offset prefix.
    pub line_number: &'static str,
    /// The `--` group separator.
    pub separator: &'static str,
    /// Matched characters inside a line.
    pub matched: &'static str,
    /// Sequence that closes any open color (usually [`RESET`]).
    pub reset: &'static str,
}

/// A palette as a mathematical value.
pub struct Colors {
    pub path: Seq<char>,
    pub line_number: Seq<char>,
    pub separator: Seq<char>,
    pub matched: Seq<char>,
    pub reset: Seq<char>,
}

impl Colors {
    /// The palette emits escape codes.
    pub open spec fn colored(self) -> bool {
        self.reset.len() > 0
    }

    /// `text` in the color of `code`.
    pub open spec fn painted(self, code: Seq<char>, text: Seq<char>) -> Seq<char> {
        if !self.colored() || code.len() == 0 {
            text
        } else {
            code + text + self.reset
        }
    }
}

/// No colors.
pub open spec fn no_colors() -> Colors {
    Colors { path: ""@, line_number: ""@, separator: ""@, matched: ""@, reset: ""@ }
}

/// The classic colors.
pub open spec fn classic_colors() -> Colors {
    Colors {
        path: "\x1b[1;35m"@,
        line_number: "\x1b[1;32m"@,
        separator: "\x1b[36m"@,
        matched: "\x1b[1;31m"@,
        reset: "\x1b[0m"@,
    }
}

impl View for Palette {
    type V = Colors;

    open spec fn view(&self) -> Colors {
        Colors {
            path: self.path@,
            line_number: self.line_number@,
            separator: self.separator@,
            matched: self.matched@,
            reset: self.reset@,
        }
    }
}

impl Palette {
    /// A palette that emits no escape sequences at all.
    pub fn colorless() -> (out: Palette)
        ensures
            out@ == no_colors(),
            !out@.colored(),
    {
        proof {
            reveal_strlit("");
        }
        Palette { path: "", line_number: "", separator: "", matched: "", reset: "" }
    }

    /// The classic grep-like color assignment.
    pub fn classic() -> (out: Palette)
        ensures
            out@ == classic_colors(),
            out@.colored(),
    {
        proof {
            reveal_strlit("\x1b[0m");
        }
        Palette {
            path: "\x1b[1;35m",
            line_number: "\x1b[1;32m",
            separator: "\x1b[36m",
            matched: "\x1b[1;31m",
            reset: "\x1b[0m",
        }
    }

    /// `true` when this palette emits escape codes.
    pub fn is_colored(&self) -> (yes: bool)
        ensures
            yes == self@.colored(),
    {
        text::chars_of(self.reset).len() > 0
    }

    /// Wrap `text` between `code` and the palette reset.
    ///
    /// Returns `text` unchanged for a colorless palette or an empty code,
    /// so call sites never need to branch on the color decision.
    pub fn paint(&self, code: &str, text: &str) -> (out: String)
        ensures
            out@ == self@.painted(code@, text@),
    {
        if !self.is_colored() || text::chars_of(code).len() == 0 {
            return text.to_owned();
        }
        let mut out = String::new();
        out.push_str(code);
        out.push_str(text);
        out.push_str(self.reset);
        assert(out@ =~= code@ + text@ + self.reset@);
        out
    }
}

// ---------------------------------------------------------------------------
// Spans
// ---------------------------------------------------------------------------

/// Some span holds the position `x`.
pub open spec fn covered(spans: Seq<(int, int)>, x: int) -> bool {
    exists|k: int| 0 <= k < spans.len() && (#[trigger] spans[k]).0 <= x < spans[k].1
}

/// Spans that are not empty, in order, with a gap between any two.
pub open spec fn separate(spans: Seq<(int, int)>) -> bool {
    &&& forall|k: int| 0 <= k < spans.len() ==> (#[trigger] spans[k]).0 < spans[k].1
    &&& forall|k: int, l: int|
        0 <= k < l < spans.len() ==> (#[trigger] spans[k]).1 < (#[trigger] spans[l]).0
}

impl Placed for (usize, usize) {
    open spec fn key(&self) -> Seq<int> {
        seq![self.0 as int, self.1 as int]
    }

    fn precedes(&self, other: &Self) -> (yes: bool) {
        proof {
            let (a, b) = (self.key(), other.key());
            assert(a.drop_first() =~= seq![self.1 as int]);
            assert(b.drop_first() =~= seq![other.1 as int]);
            assert(a.drop_first().drop_first() =~= Seq::<int>::empty());
            assert(sorting::le(a.drop_first(), b.drop_first()) <==> self.1 <= other.1) by {
                if self.1 == other.1 {
                    assert(sorting::le(
                        a.drop_first().drop_first(),
                        b.drop_first().drop_first(),
                    ));
                }
            }
        }
        self.0 < other.0 || (self.0 == other.0 && self.1 <= other.1)
    }
}

proof fn lemma_starts_in_order(spans: Seq<(usize, usize)>)
    requires
        sorting::in_order(spans),
    ensures
        forall|i: int, j: int|
            0 <= i <= j < spans.len() ==> (#[trigger] spans[i]).0 <= (#[trigger] spans[j]).0,
{
    assert forall|i: int, j: int| 0 <= i <= j < spans.len() implies (#[trigger] spans[i]).0 <= (
    #[trigger] spans[j]).0 by {
        assert(sorting::le(spans[i].key(), spans[j].key()));
    }
}

/// Rearranging spans does not change what they cover.
proof fn lemma_same_cover(a: Seq<(usize, usize)>, b: Seq<(usize, usize)>, x: int)
    requires
        a.to_multiset() == b.to_multiset(),
    ensures
        covered(semantics::spans(a), x) == covered(semantics::spans(b), x),
{
    if covered(semantics::spans(a), x) {
        lemma_cover_moves(a, b, x);
    }
    if covered(semantics::spans(b), x) {
        lemma_cover_moves(b, a, x);
    }
}

proof fn lemma_cover_moves(a: Seq<(usize, usize)>, b: Seq<(usize, usize)>, x: int)
    requires
        a.to_multiset() == b.to_multiset(),
        covered(semantics::spans(a), x),
    ensures
        covered(semantics::spans(b), x),
{
    broadcast use group_to_multiset_ensures;

    let sa = semantics::spans(a);
    let k = choose|k: int| 0 <= k < sa.len() && (#[trigger] sa[k]).0 <= x < sa[k].1;
    assert(a.contains(a[k]));
    assert(a.to_multiset().count(a[k]) > 0);
    assert(b.contains(a[k]));
    let l = choose|l: int| 0 <= l < b.len() && b[l] == a[k];
    assert(semantics::spans(b)[l] == sa[k]);
}

/// Merge overlapping or touching `(start, end)` char ranges, dropping
/// zero-width spans, so highlighting never nests or empties.
///
/// ```text
/// merge_spans(&[(0, 1), (1, 3), (5, 5)]) == [(0, 3)]
/// ```
pub fn merge_spans(spans: &[(usize, usize)]) -> (out: Vec<(usize, usize)>)
    ensures
        separate(semantics::spans(out@)),
        forall|x: int|
            #[trigger] covered(semantics::spans(out@), x) <==> covered(
                semantics::spans(spans@),
                x,
            ),
{
    let kept = nonempty(spans);
    let sorted = sorting::sort(kept);
    let ghost all = semantics::spans(sorted@);
    proof {
        lemma_starts_in_order(sorted@);
        assert forall|x: int| #[trigger] covered(all, x) <==> covered(
            semantics::spans(spans@),
            x,
        ) by {
            lemma_same_cover(sorted@, kept@, x);
        }
        lemma_members(sorted@, kept@);
    }
    let mut merged: Vec<(usize, usize)> = Vec::new();
    let mut i: usize = 0;
    while i < sorted.len()
        invariant
            i <= sorted@.len(),
            all == semantics::spans(sorted@),
            forall|k: int| 0 <= k < sorted@.len() ==> (#[trigger] sorted@[k]).0 < sorted@[k].1,
            forall|k: int, l: int|
                0 <= k <= l < sorted@.len() ==> (#[trigger] sorted@[k]).0 <= (
                #[trigger] sorted@[l]).0,
            separate(semantics::spans(merged@)),
            forall|k: int, l: int|
                0 <= k < merged@.len() && i <= l < sorted@.len() ==> (#[trigger] merged@[k]).0 <= (
                #[trigger] sorted@[l]).0,
            forall|x: int|
                #[trigger] covered(semantics::spans(merged@), x) <==> covered(
                    all.take(i as int),
                    x,
                ),
        decreases sorted@.len() - i,
    {
        let (start, end) = sorted[i];
        let n: usize = merged.len();
        let ghost before = merged@;
        if n > 0 && start <= merged[n - 1].1 {
            let last = merged[n - 1];
            if end > last.1 {
                merged.set(n - 1, (last.0, end));
                proof {
                    lemma_stretch(before, (start, end));
                }
            } else {
                proof {
                    lemma_inside(before, (start, end));
                }
            }
        } else {
            merged.push((start, end));
            proof {
                lemma_append(before, (start, end));
            }
        }
        proof {
            lemma_take_cover(all, i as int);
        }
        i += 1;
    }
    assert(all.take(i as int) =~= all);
    merged
}

/// The spans that are not empty.
fn nonempty(spans: &[(usize, usize)]) -> (kept: Vec<(usize, usize)>)
    ensures
        forall|k: int| 0 <= k < kept@.len() ==> (#[trigger] kept@[k]).0 < kept@[k].1,
        forall|x: int|
            #[trigger] covered(semantics::spans(kept@), x) <==> covered(
                semantics::spans(spans@),
                x,
            ),
{
    let ghost all = semantics::spans(spans@);
    let mut kept: Vec<(usize, usize)> = Vec::new();
    let mut i: usize = 0;
    while i < spans.len()
        invariant
            i <= spans@.len(),
            all == semantics::spans(spans@),
            forall|k: int| 0 <= k < kept@.len() ==> (#[trigger] kept@[k]).0 < kept@[k].1,
            forall|x: int|
                #[trigger] covered(semantics::spans(kept@), x) <==> covered(
                    all.take(i as int),
                    x,
                ),
        decreases spans@.len() - i,
    {
        let (start, end) = spans[i];
        let ghost before = kept@;
        proof {
            lemma_take_cover(all, i as int);
        }
        if end > start {
            kept.push((start, end));
            proof {
                lemma_push_cover(before, (start, end));
            }
        }
        i += 1;
    }
    assert(all.take(i as int) =~= all);
    kept
}

proof fn lemma_take_cover(all: Seq<(int, int)>, i: int)
    requires
        0 <= i < all.len(),
    ensures
        forall|x: int|
            #[trigger] covered(all.take(i + 1), x) <==> covered(all.take(i), x) || all[i].0 <= x
                < all[i].1,
{
    let (old_part, new_part) = (all.take(i), all.take(i + 1));
    assert forall|x: int| #[trigger] covered(new_part, x) <==> covered(old_part, x) || all[i].0
        <= x < all[i].1 by {
        if covered(old_part, x) {
            let k = choose|k: int|
                0 <= k < old_part.len() && (#[trigger] old_part[k]).0 <= x < old_part[k].1;
            assert(new_part[k] == old_part[k]);
        }
        if all[i].0 <= x < all[i].1 {
            assert(new_part[i] == all[i]);
        }
        if covered(new_part, x) && !(all[i].0 <= x < all[i].1) {
            let k = choose|k: int|
                0 <= k < new_part.len() && (#[trigger] new_part[k]).0 <= x < new_part[k].1;
            assert(old_part[k] == new_part[k]);
        }
    }
}

proof fn lemma_push_cover(spans: Seq<(usize, usize)>, span: (usize, usize))
    ensures
        forall|x: int|
            #[trigger] covered(semantics::spans(spans.push(span)), x) <==> covered(
                semantics::spans(spans),
                x,
            ) || span.0 <= x < span.1,
{
    let all = semantics::spans(spans.push(span));
    let n = spans.len() as int;
    assert(all.take(n) =~= semantics::spans(spans));
    assert(all.take(n + 1) =~= all);
    lemma_take_cover(all, n);
}

/// A span behind all others, with a gap.
proof fn lemma_append(spans: Seq<(usize, usize)>, span: (usize, usize))
    requires
        separate(semantics::spans(spans)),
        span.0 < span.1,
        spans.len() > 0 ==> spans.last().1 < span.0,
    ensures
        separate(semantics::spans(spans.push(span))),
        forall|x: int|
            #[trigger] covered(semantics::spans(spans.push(span)), x) <==> covered(
                semantics::spans(spans),
                x,
            ) || span.0 <= x < span.1,
{
    lemma_push_cover(spans, span);
    let (a, b) = (semantics::spans(spans), semantics::spans(spans.push(span)));
    assert forall|k: int, l: int| 0 <= k < l < b.len() implies (#[trigger] b[k]).1 < (
    #[trigger] b[l]).0 by {
        assert(b[k] == a[k]);
        if l < a.len() {
            assert(b[l] == a[l]);
        } else if k < a.len() - 1 {
            assert(a[k].1 < a[a.len() - 1].0);
            assert(a[a.len() - 1].0 < a[a.len() - 1].1);
        }
    }
    assert forall|k: int| 0 <= k < b.len() implies (#[trigger] b[k]).0 < b[k].1 by {
        if k < a.len() {
            assert(b[k] == a[k]);
        }
    }
}

/// A span that starts within the last one or right behind it, and ends behind
/// it.
proof fn lemma_stretch(spans: Seq<(usize, usize)>, span: (usize, usize))
    requires
        separate(semantics::spans(spans)),
        spans.len() > 0,
        spans.last().0 <= span.0 <= spans.last().1 < span.1,
    ensures
        ({
            let longer = spans.update(spans.len() - 1, (spans.last().0, span.1));
            &&& separate(semantics::spans(longer))
            &&& forall|x: int|
                #[trigger] covered(semantics::spans(longer), x) <==> covered(
                    semantics::spans(spans),
                    x,
                ) || span.0 <= x < span.1
        }),
{
    let n = spans.len() - 1;
    let (rest, last) = (spans.take(n), spans.last());
    let longer = spans.update(n, (last.0, span.1));
    assert(longer =~= rest.push((last.0, span.1)));
    assert(spans =~= rest.push(last));
    let (a, r) = (semantics::spans(spans), semantics::spans(rest));
    assert forall|k: int, l: int| 0 <= k < l < r.len() implies (#[trigger] r[k]).1 < (
    #[trigger] r[l]).0 by {
        assert(r[k] == a[k] && r[l] == a[l]);
    }
    assert forall|k: int| 0 <= k < r.len() implies (#[trigger] r[k]).0 < r[k].1 by {
        assert(r[k] == a[k]);
    }
    if rest.len() > 0 {
        assert(a[n - 1].1 < a[n].0);
    }
    lemma_append(rest, (last.0, span.1));
    lemma_push_cover(rest, last);
}

/// A span within the last one.
proof fn lemma_inside(spans: Seq<(usize, usize)>, span: (usize, usize))
    requires
        spans.len() > 0,
        spans.last().0 <= span.0,
        span.1 <= spans.last().1,
    ensures
        forall|x: int|
            #[trigger] covered(semantics::spans(spans), x) <==> covered(
                semantics::spans(spans),
                x,
            ) || span.0 <= x < span.1,
{
    let a = semantics::spans(spans);
    assert forall|x: int| #[trigger] covered(a, x) <==> covered(a, x) || span.0 <= x
        < span.1 by {
        if span.0 <= x < span.1 {
            assert(a[a.len() - 1].0 <= x < a[a.len() - 1].1);
        }
    }
}

/// What holds of every item holds of every item of a rearrangement.
proof fn lemma_members(a: Seq<(usize, usize)>, b: Seq<(usize, usize)>)
    requires
        a.to_multiset() == b.to_multiset(),
        forall|k: int| 0 <= k < b.len() ==> (#[trigger] b[k]).0 < b[k].1,
    ensures
        forall|k: int| 0 <= k < a.len() ==> (#[trigger] a[k]).0 < a[k].1,
{
    broadcast use group_to_multiset_ensures;

    assert forall|k: int| 0 <= k < a.len() implies (#[trigger] a[k]).0 < a[k].1 by {
        assert(a.contains(a[k]));
        assert(a.to_multiset().count(a[k]) > 0);
        assert(b.contains(a[k]));
        let l = choose|l: int| 0 <= l < b.len() && b[l] == a[k];
        assert(b[l].0 < b[l].1);
    }
}

// ---------------------------------------------------------------------------
// Painting
// ---------------------------------------------------------------------------

/// The character at `x` is to be painted.
pub open spec fn painted_at(line: Seq<char>, spans: Seq<(int, int)>, x: int) -> bool {
    0 <= x < line.len() && covered(spans, x)
}

/// What stands before the character at `x`, or at the end of the line: the
/// match color where paint begins, the reset where it ends.
pub open spec fn mark(
    line: Seq<char>,
    spans: Seq<(int, int)>,
    colors: Colors,
    x: int,
) -> Seq<char> {
    let before = painted_at(line, spans, x - 1);
    let here = painted_at(line, spans, x);
    if here && !before {
        colors.matched
    } else if before && !here {
        colors.reset
    } else {
        Seq::empty()
    }
}

/// The first `k` characters, each behind its mark.
pub open spec fn painted_upto(
    line: Seq<char>,
    spans: Seq<(int, int)>,
    colors: Colors,
    k: int,
) -> Seq<char>
    decreases k,
{
    if k <= 0 {
        Seq::empty()
    } else {
        painted_upto(line, spans, colors, k - 1) + mark(line, spans, colors, k - 1) + seq![
            line[k - 1],
        ]
    }
}

/// The line with the characters inside the spans painted.
pub open spec fn highlighted(
    line: Seq<char>,
    spans: Seq<(int, int)>,
    colors: Colors,
) -> Seq<char> {
    if colors.colored() {
        painted_upto(line, spans, colors, line.len() as int) + mark(
            line,
            spans,
            colors,
            line.len() as int,
        )
    } else {
        line
    }
}

/// Render `line` with every span highlighted by `palette.matched`.
///
/// The spans are char indices (as produced by
/// [`crate::pattern::Pattern::find_all`]); they are merged first, so the
/// caller may pass arbitrary non-overlapping or overlapping ranges.
pub fn highlight_line(line: &str, spans: &[(usize, usize)], palette: &Palette) -> (out: String)
    ensures
        out@ == highlighted(line@, semantics::spans(spans@), palette@),
{
    if !palette.is_colored() {
        return line.to_owned();
    }
    let merged = merge_spans(spans);
    let chars = text::chars_of(line);
    let ghost all = semantics::spans(spans@);
    let ghost m = semantics::spans(merged@);
    let ghost colors = palette@;
    let mut out = String::new();
    let mut next: usize = 0;
    let mut open = false;
    let mut i: usize = 0;
    while i < chars.len()
        invariant
            i <= chars@.len(),
            chars@ == line@,
            all == semantics::spans(spans@),
            m == semantics::spans(merged@),
            colors == palette@,
            separate(m),
            forall|x: int| #[trigger] covered(m, x) <==> covered(all, x),
            next <= merged@.len(),
            forall|k: int| 0 <= k < next ==> (#[trigger] m[k]).1 <= i,
            open == painted_at(line@, all, i - 1),
            out@ == painted_upto(line@, all, colors, i as int),
        decreases chars@.len() - i,
    {
        while next < merged.len() && merged[next].1 <= i
            invariant
                m == semantics::spans(merged@),
                next <= merged@.len(),
                forall|k: int| 0 <= k < next ==> (#[trigger] m[k]).1 <= i,
            decreases merged@.len() - next,
        {
            assert(m[next as int] == semantics::span(merged@[next as int]));
            next += 1;
        }
        let inside = next < merged.len() && merged[next].0 <= i;
        proof {
            assert(inside == covered(m, i as int)) by {
                if inside {
                    assert(m[next as int].0 <= i < m[next as int].1);
                }
                if covered(m, i as int) {
                    let k = choose|k: int|
                        0 <= k < m.len() && (#[trigger] m[k]).0 <= i < m[k].1;
                    assert(k >= next);
                    if k > next {
                        assert(m[next as int].1 < m[k].0);
                        assert(m[next as int] == semantics::span(merged@[next as int]));
                    }
                    assert(m[next as int] == semantics::span(merged@[next as int]));
                }
            }
        }
        let ghost before = out@;
        if inside && !open {
            out.push_str(palette.matched);
        } else if open && !inside {
            out.push_str(palette.reset);
        }
        out.push(chars[i]);
        proof {
            assert(out@ =~= before + mark(line@, all, colors, i as int) + seq![line@[i as int]]);
        }
        open = inside;
        i += 1;
    }
    let ghost before = out@;
    if open {
        out.push_str(palette.reset);
    }
    assert(out@ =~= before + mark(line@, all, colors, line@.len() as int));
    out
}

// ---------------------------------------------------------------------------
// Stripping
// ---------------------------------------------------------------------------

/// The character that starts an escape sequence.
pub open spec fn escape_char() -> char {
    '\u{1b}'
}

/// A character that ends a control sequence.
pub open spec fn ends_control(ch: char) -> bool {
    '@' <= ch && ch <= '~'
}

/// The position behind the control sequence whose parameters start at `i`, or
/// the end.
pub open spec fn control_end(s: Seq<char>, i: int) -> int
    decreases s.len() - i,
{
    if i < 0 || i >= s.len() {
        s.len() as int
    } else if ends_control(s[i]) {
        i + 1
    } else {
        control_end(s, i + 1)
    }
}

/// `s` from `i` on without its escape sequences: control sequences
/// (`ESC [ ... final`) and pairs (`ESC x`).
pub open spec fn stripped(s: Seq<char>, i: int) -> Seq<char>
    decreases s.len() - i,
{
    if i < 0 || i >= s.len() {
        Seq::empty()
    } else if s[i] != escape_char() {
        seq![s[i]] + stripped(s, i + 1)
    } else if i + 1 < s.len() && s[i + 1] == '[' {
        let end = control_end(s, i + 2);
        if i < end <= s.len() {
            stripped(s, end)
        } else {
            Seq::empty()
        }
    } else if i + 1 < s.len() {
        stripped(s, i + 2)
    } else {
        Seq::empty()
    }
}

/// The end of a control sequence lies in the text.
pub proof fn lemma_control_end(s: Seq<char>, i: int)
    requires
        0 <= i <= s.len(),
    ensures
        i <= control_end(s, i) <= s.len(),
    decreases s.len() - i,
{
    if i < s.len() && !ends_control(s[i]) {
        lemma_control_end(s, i + 1);
    }
}

/// What is left of a text without its escape sequences.
pub open spec fn visible(s: Seq<char>) -> Seq<char> {
    stripped(s, 0)
}

/// Remove ANSI SGR escape sequences from `text`.
///
/// Understands full CSI sequences (`ESC [ ... final-byte`) and swallows
/// two-character escapes (`ESC x`). Everything else, including every valid
/// UTF-8 character, passes through untouched.
pub fn strip_ansi(text: &str) -> (out: String)
    ensures
        out@ == visible(text@),
{
    let chars = text::chars_of(text);
    let ghost s = chars@;
    let mut out = String::new();
    let mut i: usize = 0;
    assert(out@ + stripped(s, 0) =~= stripped(s, 0));
    while i < chars.len()
        invariant
            s == chars@,
            i <= s.len(),
            stripped(s, 0) == out@ + stripped(s, i as int),
        decreases s.len() - i,
    {
        let ch = chars[i];
        if ch != '\u{1b}' {
            let ghost before = out@;
            out.push(ch);
            assert(before + (seq![ch] + stripped(s, i + 1)) =~= out@ + stripped(s, i + 1));
            i += 1;
        } else if chars.len() - i > 1 && chars[i + 1] == '[' {
            let mut end: usize = i + 2;
            proof {
                lemma_control_end(s, i + 2);
            }
            while end < chars.len() && !('@' <= chars[end] && chars[end] <= '~')
                invariant
                    s == chars@,
                    i + 2 <= end <= s.len(),
                    control_end(s, i + 2) == control_end(s, end as int),
                decreases s.len() - end,
            {
                end += 1;
            }
            if end < chars.len() {
                end += 1;
            }
            i = end;
        } else if chars.len() - i > 1 {
            i += 2;
        } else {
            i += 1;
        }
    }
    assert(out@ + stripped(s, i as int) =~= out@);
    out
}

} // verus!
