//! Line iteration with stable numbering and byte offsets.
//!
//! Files are read into memory as one string and then split into logical
//! lines. Each line keeps its 1-based number so output and context windows
//! can be rendered exactly like classic grep. Line splitting understands both
//! Unix (`\n`) and Windows (`\r\n`) terminators; a trailing terminator does
//! **not** produce a phantom empty line, but a final fragment without a
//! terminator is still returned.
//!
//! Two views over the same text are provided: [`iter_lines`] gives numbers and
//! contents, [`iter_line_slices`] adds the byte range of every line inside the
//! text.

use vstd::prelude::*;
use vstd::utf8::*;

use crate::text;

verus! {

// ---------------------------------------------------------------------------
// Model
// ---------------------------------------------------------------------------

/// The position of the first newline at or behind `from`, or the end.
pub open spec fn newline(s: Seq<char>, from: int) -> int
    decreases s.len() - from,
{
    if 0 <= from < s.len() && s[from] != '\n' {
        newline(s, from + 1)
    } else {
        from
    }
}

/// Where the line that starts at `from` ends when its newline is at `stop`: a
/// carriage return before a newline belongs to the terminator.
pub open spec fn line_end(s: Seq<char>, from: int, stop: int) -> int {
    if from < stop < s.len() && s[stop - 1] == '\r' {
        stop - 1
    } else {
        stop
    }
}

/// The bounds of the lines of `s` from `from` on, terminators left out.
pub open spec fn line_bounds(s: Seq<char>, from: int) -> Seq<(int, int)>
    decreases s.len() - from,
{
    if 0 <= from < s.len() {
        let stop = newline(s, from);
        let here = (from, line_end(s, from, stop));
        if from <= stop < s.len() {
            seq![here] + line_bounds(s, stop + 1)
        } else {
            seq![here]
        }
    } else {
        Seq::empty()
    }
}

/// A line as a mathematical value.
pub struct LineView {
    /// 1-based line number.
    pub number: nat,
    /// The contents.
    pub text: Seq<char>,
}

/// A line and its byte range as a mathematical value.
pub struct SliceView {
    /// 1-based line number.
    pub number: nat,
    /// Byte offset of the first character.
    pub start: nat,
    /// Byte offset behind the last character.
    pub end: nat,
    /// The contents.
    pub text: Seq<char>,
}

/// The `k`-th line of `s`, counted from zero.
pub open spec fn line_at(s: Seq<char>, k: int) -> LineView {
    let (a, b) = line_bounds(s, 0)[k];
    LineView { number: (k + 1) as nat, text: s.subrange(a, b) }
}

/// The `k`-th line of `s` with its byte range, counted from zero.
pub open spec fn slice_at(s: Seq<char>, k: int) -> SliceView {
    let (a, b) = line_bounds(s, 0)[k];
    SliceView {
        number: (k + 1) as nat,
        start: text::byte_len(s.take(a)),
        end: text::byte_len(s.take(b)),
        text: s.subrange(a, b),
    }
}

/// The lines of `s`.
pub open spec fn lines(s: Seq<char>) -> Seq<LineView> {
    Seq::new(line_bounds(s, 0).len(), |k: int| line_at(s, k))
}

/// The lines of `s` with their byte ranges.
pub open spec fn slices(s: Seq<char>) -> Seq<SliceView> {
    Seq::new(line_bounds(s, 0).len(), |k: int| slice_at(s, k))
}

// ---------------------------------------------------------------------------
// Types
// ---------------------------------------------------------------------------

/// A single logical line of a scanned file.
#[derive(Debug, PartialEq, Eq)]
pub struct Line {
    /// 1-based line number, identical to what editors display.
    pub number: u64,
    /// The line contents with the terminator (`\n` or `\r\n`) removed.
    pub text: String,
}

impl View for Line {
    type V = LineView;

    open spec fn view(&self) -> LineView {
        LineView { number: self.number as nat, text: self.text@ }
    }
}

/// A logical line plus its byte range inside the source text.
///
/// `start` is the byte offset of the first character of the line; `end` is
/// the byte offset just past the last character *before* the terminator.
#[derive(Debug, PartialEq, Eq)]
pub struct LineSlice {
    /// 1-based line number.
    pub number: u64,
    /// Byte offset of the first character of the line.
    pub start: usize,
    /// Byte offset one past the last character of the line (terminator
    /// excluded).
    pub end: usize,
    /// The line contents with the terminator removed.
    pub text: String,
}

impl View for LineSlice {
    type V = SliceView;

    open spec fn view(&self) -> SliceView {
        SliceView {
            number: self.number as nat,
            start: self.start as nat,
            end: self.end as nat,
            text: self.text@,
        }
    }
}

impl Clone for Line {
    fn clone(&self) -> (out: Line)
        ensures
            out@ == self@,
    {
        Line { number: self.number, text: self.text.clone() }
    }
}

impl Clone for LineSlice {
    fn clone(&self) -> (out: LineSlice)
        ensures
            out@ == self@,
    {
        LineSlice {
            number: self.number,
            start: self.start,
            end: self.end,
            text: self.text.clone(),
        }
    }
}

/// The views of some lines.
pub open spec fn line_views(list: Seq<Line>) -> Seq<LineView> {
    list.map_values(|line: Line| line@)
}

/// The views of some slices.
pub open spec fn slice_views(list: Seq<LineSlice>) -> Seq<SliceView> {
    list.map_values(|slice: LineSlice| slice@)
}

// ---------------------------------------------------------------------------
// Splitting
// ---------------------------------------------------------------------------

/// A newline is found where the first one stands, or nowhere.
pub proof fn lemma_newline(s: Seq<char>, from: int)
    requires
        0 <= from <= s.len(),
    ensures
        from <= newline(s, from) <= s.len(),
        newline(s, from) < s.len() ==> s[newline(s, from)] == '\n',
        forall|k: int| from <= k < newline(s, from) ==> #[trigger] s[k] != '\n',
    decreases s.len() - from,
{
    if from < s.len() && s[from] != '\n' {
        lemma_newline(s, from + 1);
    }
}

/// The byte offsets inside a text never exceed its size, and grow.
proof fn lemma_offsets(s: Seq<char>, i: int, j: int)
    requires
        0 <= i <= j <= s.len(),
    ensures
        text::byte_len(s.take(i)) <= text::byte_len(s.take(j)) <= text::byte_len(s),
{
    text::lemma_byte_len_split(s, j);
    text::lemma_byte_len_split(s.take(j), i);
    assert(s.take(j).take(i) =~= s.take(i));
}

/// Split `text` into numbered [`LineSlice`] values carrying byte offsets.
///
/// Semantics are identical to [`iter_lines`] (same numbering, same `\r\n`
/// handling, same trailing-fragment rule) with the addition of `start`/`end`
/// byte offsets into `text`.
pub fn iter_line_slices(text: &str) -> (out: Vec<LineSlice>)
    ensures
        slice_views(out@) == slices(text@),
{
    let chars = text::chars_of(text);
    let total: usize = text::byte_count(text);
    let ghost s = chars@;
    let mut out: Vec<LineSlice> = Vec::new();
    let mut start: usize = 0;
    let mut start_offset: usize = 0;
    let mut cursor: usize = 0;
    let mut offset: usize = 0;
    proof {
        assert(s.take(0) =~= Seq::<char>::empty());
        assert(text::byte_len(s.take(0)) == 0);
        assert(Seq::<(int, int)>::empty() + line_bounds(s, 0) =~= line_bounds(s, 0));
    }
    let ghost mut bounds: Seq<(int, int)> = Seq::empty();
    while cursor < chars.len()
        invariant
            s == chars@,
            s == text@,
            total == text::byte_len(s),
            start <= cursor <= s.len(),
            start_offset == text::byte_len(s.take(start as int)),
            offset == text::byte_len(s.take(cursor as int)),
            newline(s, start as int) == newline(s, cursor as int),
            line_bounds(s, 0) == bounds + line_bounds(s, start as int),
            bounds.len() == out@.len(),
            out@.len() <= start,
            forall|k: int|
                0 <= k < out@.len() ==> bounds[k] == line_bounds(s, 0)[k] && (
                #[trigger] out@[k])@ == slice_at(s, k),
        decreases s.len() - cursor,
    {
        let ch = chars[cursor];
        proof {
            lemma_newline(s, start as int);
            lemma_offsets(s, cursor + 1, s.len() as int);
            assert(s.take(cursor + 1) =~= s.take(cursor as int).push(ch));
            text::lemma_byte_len_push(s.take(cursor as int), ch);
            assert(s.take(s.len() as int) =~= s);
        }
        let after: usize = offset + text::width(ch);
        if ch == '\n' {
            let cut = cursor > start && chars[cursor - 1] == '\r';
            let end: usize = if cut {
                cursor - 1
            } else {
                cursor
            };
            proof {
                if cut {
                    assert(s.take(cursor as int) =~= s.take(cursor - 1).push('\r'));
                    text::lemma_byte_len_push(s.take(cursor - 1), '\r');
                    assert(text::char_width('\r') == 1);
                }
                let here = (start as int, end as int);
                assert(line_bounds(s, start as int) == seq![here] + line_bounds(s, cursor + 1));
                assert(bounds + (seq![here] + line_bounds(s, cursor + 1)) =~= bounds.push(here)
                    + line_bounds(s, cursor + 1));
                bounds = bounds.push(here);
                assert(line_bounds(s, 0)[out@.len() as int] == here);
            }
            let end_offset: usize = if cut {
                offset - 1
            } else {
                offset
            };
            out.push(
                LineSlice {
                    number: out.len() as u64 + 1,
                    start: start_offset,
                    end: end_offset,
                    text: text::string_of(chars.as_slice(), start, end),
                },
            );
            start = cursor + 1;
            start_offset = after;
        }
        offset = after;
        cursor += 1;
    }
    proof {
        assert(s.take(cursor as int) =~= s);
    }
    if start < chars.len() {
        proof {
            let here = (start as int, s.len() as int);
            assert(line_bounds(s, start as int) =~= seq![here]);
            assert(line_bounds(s, 0)[out@.len() as int] == here);
            bounds = bounds.push(here);
        }
        out.push(
            LineSlice {
                number: out.len() as u64 + 1,
                start: start_offset,
                end: total,
                text: text::string_of(chars.as_slice(), start, chars.len()),
            },
        );
    }
    assert(slice_views(out@) =~= slices(text@));
    out
}

/// Split `text` into numbered [`Line`] values.
pub fn iter_lines(text: &str) -> (out: Vec<Line>)
    ensures
        line_views(out@) == lines(text@),
{
    let found = iter_line_slices(text);
    let mut out: Vec<Line> = Vec::new();
    let mut i: usize = 0;
    while i < found.len()
        invariant
            i <= found@.len(),
            slice_views(found@) == slices(text@),
            out@.len() == i,
            forall|k: int| 0 <= k < i ==> (#[trigger] out@[k])@ == line_at(text@, k),
        decreases found@.len() - i,
    {
        assert(slice_views(found@).len() == found@.len());
        assert(found@[i as int]@ == slice_views(found@)[i as int]);
        assert(slices(text@)[i as int] == slice_at(text@, i as int));
        out.push(Line { number: found[i].number, text: found[i].text.clone() });
        i += 1;
    }
    assert(slice_views(found@).len() == found@.len());
    assert(line_views(out@) =~= lines(text@));
    out
}

/// Count the logical lines in `text` without building [`Line`] values.
pub fn count_lines(text: &str) -> (count: u64)
    ensures
        count == lines(text@).len(),
{
    let chars = text::chars_of(text);
    let ghost s = chars@;
    let mut count: u64 = 0;
    let mut start: usize = 0;
    let mut cursor: usize = 0;
    while cursor < chars.len()
        invariant
            s == chars@,
            start <= cursor <= s.len(),
            count <= start,
            newline(s, start as int) == newline(s, cursor as int),
            line_bounds(s, 0).len() == count + line_bounds(s, start as int).len(),
        decreases s.len() - cursor,
    {
        if chars[cursor] == '\n' {
            proof {
                lemma_newline(s, start as int);
            }
            count += 1;
            start = cursor + 1;
        }
        cursor += 1;
    }
    if start < chars.len() {
        proof {
            lemma_newline(s, start as int);
        }
        count += 1;
    }
    count
}

/// Return the byte offset of `char_index` inside `line`; behind the last
/// character, the size of the line.
pub fn byte_index_of_char(line: &str, char_index: usize) -> (offset: usize)
    ensures
        offset == text::byte_len(
            line@.take(
                if char_index <= line@.len() {
                    char_index as int
                } else {
                    line@.len() as int
                },
            ),
        ),
{
    let chars = text::chars_of(line);
    let total: usize = text::byte_count(line);
    let ghost s = chars@;
    let mut offset: usize = 0;
    let mut i: usize = 0;
    proof {
        assert(s.take(0) =~= Seq::<char>::empty());
        assert(text::byte_len(s.take(0)) == 0);
    }
    while i < chars.len() && i < char_index
        invariant
            s == chars@,
            i <= s.len(),
            i <= char_index,
            total == text::byte_len(s),
            offset == text::byte_len(s.take(i as int)),
        decreases s.len() - i,
    {
        proof {
            lemma_offsets(s, i + 1, s.len() as int);
            assert(s.take(i + 1) =~= s.take(i as int).push(s[i as int]));
            text::lemma_byte_len_push(s.take(i as int), s[i as int]);
        }
        offset += text::width(chars[i]);
        i += 1;
    }
    offset
}

// ---------------------------------------------------------------------------
// Laws
// ---------------------------------------------------------------------------

proof fn lemma_bounds_partition(s: Seq<char>, from: int)
    requires
        0 <= from <= s.len(),
    ensures
        ({
            let bounds = line_bounds(s, from);
            &&& bounds.len() == 0 <==> from == s.len()
            &&& bounds.len() > 0 ==> bounds[0].0 == from
            &&& forall|k: int|
                0 <= k < bounds.len() ==> {
                    let (a, b) = #[trigger] bounds[k];
                    &&& from <= a <= b <= s.len() && a < s.len()
                    &&& forall|i: int| a <= i < b ==> #[trigger] s[i] != '\n'
                    &&& terminated(s, b, next_start(s, bounds, k))
                }
        }),
    decreases s.len() - from,
{
    let bounds = line_bounds(s, from);
    if from < s.len() {
        lemma_newline(s, from);
        let stop = newline(s, from);
        let here = (from, line_end(s, from, stop));
        if stop < s.len() {
            let rest = line_bounds(s, stop + 1);
            lemma_bounds_partition(s, stop + 1);
            assert(bounds == seq![here] + rest);
            assert forall|k: int| 0 <= k < bounds.len() implies {
                let (a, b) = #[trigger] bounds[k];
                &&& from <= a <= b <= s.len() && a < s.len()
                &&& forall|i: int| a <= i < b ==> #[trigger] s[i] != '\n'
                &&& terminated(s, b, next_start(s, bounds, k))
            } by {
                if k > 0 {
                    assert(bounds[k] == rest[k - 1]);
                    assert(next_start(s, bounds, k) == next_start(s, rest, k - 1));
                } else {
                    assert(next_start(s, bounds, 0) == stop + 1);
                    if here.1 == stop {
                        assert(s.subrange(here.1, stop + 1) =~= seq!['\n']);
                    } else {
                        assert(s.subrange(here.1, stop + 1) =~= seq!['\r', '\n']);
                    }
                }
            }
        } else {
            assert(bounds =~= seq![here]);
            assert(s.subrange(here.1, s.len() as int) =~= Seq::<char>::empty());
        }
    }
}

/// Where the line behind the `k`-th one starts, or the end of the text.
pub open spec fn next_start(s: Seq<char>, bounds: Seq<(int, int)>, k: int) -> int {
    if k + 1 < bounds.len() {
        bounds[k + 1].0
    } else {
        s.len() as int
    }
}

/// `s[end..next]` is a line terminator; only at the end of the text it may be
/// missing.
pub open spec fn terminated(s: Seq<char>, end: int, next: int) -> bool {
    &&& 0 <= end <= next <= s.len()
    &&& {
        ||| s.subrange(end, next) == seq!['\n']
        ||| s.subrange(end, next) == seq!['\r', '\n']
        ||| end == next && next == s.len()
    }
}

/// The lines and their terminators are the whole text: the first line starts
/// at the start, every line is followed by a terminator and the next line, the
/// last one by the end, a terminator before it or not. No line holds a
/// newline or starts at the end, and only the empty text has no line.
pub proof fn law_lines_and_terminators_are_the_text(s: Seq<char>)
    ensures
        line_bounds(s, 0).len() == 0 <==> s.len() == 0,
        line_bounds(s, 0).len() > 0 ==> line_bounds(s, 0)[0].0 == 0,
        forall|k: int|
            0 <= k < line_bounds(s, 0).len() ==> {
                let (a, b) = #[trigger] line_bounds(s, 0)[k];
                &&& 0 <= a <= b <= s.len() && a < s.len()
                &&& forall|i: int| a <= i < b ==> #[trigger] s[i] != '\n'
                &&& terminated(s, b, next_start(s, line_bounds(s, 0), k))
            },
{
    lemma_bounds_partition(s, 0);
}

/// Both views of a text agree: as many lines, the same numbers, the same
/// contents.
pub proof fn law_slices_agree_with_lines(s: Seq<char>)
    ensures
        slices(s).len() == lines(s).len(),
        forall|k: int|
            0 <= k < lines(s).len() ==> (#[trigger] lines(s)[k]).number == slices(s)[k].number
                && lines(s)[k].text == slices(s)[k].text && lines(s)[k].number == k + 1,
{
}

/// The byte range of a line is where the line stands in the encoded text.
pub proof fn law_byte_ranges_hold_the_line(s: Seq<char>, k: int)
    requires
        0 <= k < slices(s).len(),
    ensures
        slices(s)[k].start <= slices(s)[k].end <= text::byte_len(s),
        encode_utf8(s).subrange(slices(s)[k].start as int, slices(s)[k].end as int) == encode_utf8(
            slices(s)[k].text,
        ),
{
    lemma_bounds_partition(s, 0);
    let (a, b) = line_bounds(s, 0)[k];
    lemma_offsets(s, a, b);
    let (head, line, tail) = (s.take(a), s.subrange(a, b), s.skip(b));
    assert(head + line =~= s.take(b));
    assert(s.take(b) + tail =~= s);
    text::lemma_encode_concat(head, line);
    text::lemma_encode_concat(s.take(b), tail);
    assert(encode_utf8(s).subrange(
        encode_utf8(head).len() as int,
        encode_utf8(s.take(b)).len() as int,
    ) =~= encode_utf8(line));
}

proof fn lemma_bounds_shifted(s: Seq<char>, tail: Seq<char>, shift: int, i: int)
    requires
        0 <= shift <= s.len(),
        tail == s.skip(shift),
        0 <= i <= tail.len(),
    ensures
        line_bounds(s, shift + i) == line_bounds(tail, i).map_values(
            |bounds: (int, int)| (bounds.0 + shift, bounds.1 + shift),
        ),
    decreases tail.len() - i,
{
    let moved = |bounds: (int, int)| (bounds.0 + shift, bounds.1 + shift);
    if i < tail.len() {
        lemma_newline(tail, i);
        let stop = newline(tail, i);
        lemma_newline_moved(s, tail, shift, i);
        assert(newline(s, shift + i) == shift + stop);
        assert(i < stop ==> s[shift + stop - 1] == tail[stop - 1]);
        let here = (i, line_end(tail, i, stop));
        if stop < tail.len() {
            lemma_bounds_shifted(s, tail, shift, stop + 1);
            assert(line_bounds(s, shift + i) =~= line_bounds(tail, i).map_values(moved));
        } else {
            assert(line_bounds(s, shift + i) =~= line_bounds(tail, i).map_values(moved));
        }
    } else {
        assert(line_bounds(s, shift + i) =~= line_bounds(tail, i).map_values(moved));
    }
}

proof fn lemma_newline_moved(s: Seq<char>, tail: Seq<char>, shift: int, i: int)
    requires
        0 <= shift <= s.len(),
        tail == s.skip(shift),
        0 <= i <= tail.len(),
    ensures
        newline(s, shift + i) == shift + newline(tail, i),
    decreases tail.len() - i,
{
    if i < tail.len() {
        assert(s[shift + i] == tail[i]);
        if tail[i] != '\n' {
            lemma_newline_moved(s, tail, shift, i + 1);
        }
    }
}

proof fn lemma_newline_here(s: Seq<char>, from: int, stop: int)
    requires
        0 <= from <= stop <= s.len(),
        forall|k: int| from <= k < stop ==> #[trigger] s[k] != '\n',
        stop < s.len() ==> s[stop] == '\n',
    ensures
        newline(s, from) == stop,
    decreases stop - from,
{
    if from < stop {
        lemma_newline_here(s, from + 1, stop);
    }
}

/// The first line of a text and the lines behind its terminator, which is a
/// newline or a carriage return and a newline, are the lines of the text. A
/// text that holds no newline is one line, unless it is empty.
pub proof fn law_lines_are_cut_at_terminators(
    first: Seq<char>,
    terminator: Seq<char>,
    rest: Seq<char>,
)
    requires
        forall|k: int| 0 <= k < first.len() ==> #[trigger] first[k] != '\n',
        terminator == seq!['\r', '\n'] || terminator == seq!['\n'] && (first.len() > 0
            ==> first.last() != '\r'),
    ensures
        ({
            let all = lines(first + terminator + rest);
            &&& all.len() == 1 + lines(rest).len()
            &&& all[0].text == first
            &&& forall|k: int|
                1 <= k < all.len() ==> (#[trigger] all[k]).text == lines(rest)[k - 1].text
        }),
        lines(Seq::empty()).len() == 0,
        first.len() > 0 ==> lines(first).len() == 1 && lines(first)[0].text == first,
{
    let s = first + terminator + rest;
    let stop = (first.len() + terminator.len() - 1) as int;
    assert forall|k: int| 0 <= k < stop implies #[trigger] s[k] != '\n' by {
        if k < first.len() {
            assert(s[k] == first[k]);
        }
    }
    lemma_newline_here(s, 0, stop);
    let shift = stop + 1;
    assert(s.skip(shift) =~= rest);
    lemma_bounds_shifted(s, rest, shift, 0);
    assert(terminator.len() == 1 && first.len() > 0 ==> s[stop - 1] == first.last());
    assert(terminator.len() == 2 ==> s[stop - 1] == terminator[0]);
    assert(line_end(s, 0, stop) == first.len());
    let bounds = line_bounds(s, 0);
    assert(bounds[0] == (0int, first.len() as int));
    assert(s.subrange(0, first.len() as int) =~= first);
    assert forall|k: int| 1 <= k < lines(s).len() implies (#[trigger] lines(s)[k]).text
        == lines(rest)[k - 1].text by {
        lemma_bounds_partition(rest, 0);
        let (a, b) = line_bounds(rest, 0)[k - 1];
        assert(bounds[k] == (a + shift, b + shift));
        assert(s.subrange(a + shift, b + shift) =~= rest.subrange(a, b));
    }
    if first.len() > 0 {
        lemma_newline_here(first, 0, first.len() as int);
        assert(line_bounds(first, 0) =~= seq![(0int, first.len() as int)]);
        assert(first.subrange(0, first.len() as int) =~= first);
    }
}

/// The offsets count bytes: the first line starts at zero, each line is as
/// long as its text is in UTF-8, and the next one starts behind the terminator.
pub proof fn law_offsets_count_bytes(s: Seq<char>, k: int)
    requires
        0 <= k < slices(s).len(),
    ensures
        slices(s)[0].start == 0,
        slices(s)[k].end == slices(s)[k].start + text::byte_len(slices(s)[k].text),
        k + 1 < slices(s).len() ==> slices(s)[k].end + 1 <= slices(s)[k + 1].start
            <= slices(s)[k].end + 2,
{
    lemma_bounds_partition(s, 0);
    let bounds = line_bounds(s, 0);
    let (a, b) = bounds[k];
    assert(bounds[0].0 == 0);
    assert(s.take(0) =~= Seq::<char>::empty());
    text::lemma_byte_len_split(s.take(b), a);
    assert(s.take(b).take(a) =~= s.take(a));
    assert(s.take(b).skip(a) =~= s.subrange(a, b));
    if k + 1 < bounds.len() {
        assert(terminated(s, b, next_start(s, bounds, k)));
        assert(bounds[k + 1].0 < s.len());
        lemma_gap(s, b, bounds[k + 1].0);
    }
}

/// A terminator is one byte or two.
#[verifier::spinoff_prover]
proof fn lemma_gap(s: Seq<char>, b: int, next: int)
    requires
        terminated(s, b, next),
        next < s.len(),
    ensures
        text::byte_len(s.take(b)) + 1 <= text::byte_len(s.take(next)) <= text::byte_len(s.take(b))
            + 2,
{
    let gap = s.subrange(b, next);
    lemma_widths();
    assert(gap.len() == next - b);
    if gap == seq!['\n'] {
        assert(next == b + 1);
        assert(s[b] == gap[0]);
        assert(s.take(next) =~= s.take(b).push('\n'));
        text::lemma_byte_len_push(s.take(b), '\n');
    } else {
        assert(gap == seq!['\r', '\n']);
        assert(next == b + 2);
        assert(s[b] == gap[0] && s[b + 1] == gap[1]);
        assert(s.take(b + 1) =~= s.take(b).push('\r'));
        assert(s.take(next) =~= s.take(b + 1).push('\n'));
        text::lemma_byte_len_push(s.take(b), '\r');
        text::lemma_byte_len_push(s.take(b + 1), '\n');
    }
}

proof fn lemma_widths()
    ensures
        text::char_width('\n') == 1,
        text::char_width('\r') == 1,
{
}

} // verus!
