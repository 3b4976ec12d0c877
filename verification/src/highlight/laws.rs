//! What holds of highlighting and stripping.

use vstd::prelude::*;

use crate::highlight;
use crate::highlight::Colors;

verus! {

/// Without colors, a line is highlighted by leaving it as it is.
pub proof fn law_colorless_highlighting_changes_nothing(
    line: Seq<char>,
    spans: Seq<(int, int)>,
)
    ensures
        highlight::highlighted(line, spans, highlight::no_colors()) == line,
{
    reveal_strlit("");
}

proof fn lemma_nothing_painted(
    line: Seq<char>,
    spans: Seq<(int, int)>,
    colors: Colors,
    k: int,
)
    requires
        0 <= k <= line.len(),
        forall|x: int| 0 <= x < line.len() ==> !#[trigger] highlight::covered(spans, x),
    ensures
        highlight::painted_upto(line, spans, colors, k) == line.take(k),
    decreases k,
{
    if k > 0 {
        lemma_nothing_painted(line, spans, colors, k - 1);
        assert(!highlight::covered(spans, k - 1));
        assert(highlight::painted_upto(line, spans, colors, k) =~= line.take(k));
    } else {
        assert(line.take(0) =~= Seq::<char>::empty());
    }
}

/// A line without a span that holds a character of it stays as it is.
pub proof fn law_empty_spans_change_nothing(
    line: Seq<char>,
    spans: Seq<(int, int)>,
    colors: Colors,
)
    requires
        forall|x: int| 0 <= x < line.len() ==> !#[trigger] highlight::covered(spans, x),
    ensures
        highlight::highlighted(line, spans, colors) == line,
{
    lemma_nothing_painted(line, spans, colors, line.len() as int);
    assert(line.take(line.len() as int) =~= line);
    assert(highlight::highlighted(line, spans, colors) =~= line);
}

/// A control sequence: the escape, `[`, parameters and one final character.
pub open spec fn is_control(code: Seq<char>) -> bool {
    &&& code.len() >= 3
    &&& code[0] == highlight::escape_char()
    &&& code[1] == '['
    &&& highlight::ends_control(code.last())
    &&& forall|k: int| 2 <= k < code.len() - 1 ==> !highlight::ends_control(#[trigger] code[k])
}

proof fn lemma_control_end_at(s: Seq<char>, i: int, end: int)
    requires
        0 <= i < end <= s.len(),
        highlight::ends_control(s[end - 1]),
        forall|k: int| i <= k < end - 1 ==> !highlight::ends_control(#[trigger] s[k]),
    ensures
        highlight::control_end(s, i) == end,
    decreases end - i,
{
    if i < end - 1 {
        lemma_control_end_at(s, i + 1, end);
    }
}

/// Stripping looks ahead only.
proof fn lemma_stripped_suffix(a: Seq<char>, b: Seq<char>, i: int)
    requires
        0 <= i <= b.len(),
    ensures
        highlight::stripped(a + b, a.len() + i) == highlight::stripped(b, i),
    decreases b.len() - i,
{
    let s = a + b;
    if i < b.len() {
        assert(s[a.len() + i] == b[i]);
        if b[i] != highlight::escape_char() {
            lemma_stripped_suffix(a, b, i + 1);
        } else if i + 1 < b.len() && b[i + 1] == '[' {
            assert(s[a.len() + i + 1] == '[');
            lemma_control_suffix(a, b, i + 2);
            highlight::lemma_control_end(b, i + 2);
            lemma_stripped_suffix(a, b, highlight::control_end(b, i + 2));
        } else {
            if i + 1 < b.len() {
                assert(s[a.len() + i + 1] == b[i + 1]);
                lemma_stripped_suffix(a, b, i + 2);
            }
        }
    }
}

proof fn lemma_control_suffix(a: Seq<char>, b: Seq<char>, i: int)
    requires
        0 <= i <= b.len(),
    ensures
        highlight::control_end(a + b, a.len() + i) == a.len() + highlight::control_end(b, i),
    decreases b.len() - i,
{
    if i < b.len() {
        assert((a + b)[a.len() + i] == b[i]);
        if !highlight::ends_control(b[i]) {
            lemma_control_suffix(a, b, i + 1);
        }
    }
}

/// Stripping drops a control sequence in front.
proof fn lemma_strip_control(code: Seq<char>, rest: Seq<char>)
    requires
        is_control(code),
    ensures
        highlight::visible(code + rest) == highlight::visible(rest),
{
    let s = code + rest;
    assert(s[0] == code[0] && s[1] == code[1]);
    let end = code.len() as int;
    assert(s[end - 1] == code.last());
    assert forall|k: int| 2 <= k < end - 1 implies !highlight::ends_control(#[trigger] s[k]) by {
        assert(s[k] == code[k]);
    }
    lemma_control_end_at(s, 2, end);
    lemma_stripped_suffix(code, rest, 0);
}

/// Stripping keeps a plain character in front.
proof fn lemma_strip_plain(ch: char, rest: Seq<char>)
    requires
        ch != highlight::escape_char(),
    ensures
        highlight::visible(seq![ch] + rest) == seq![ch] + highlight::visible(rest),
{
    lemma_stripped_suffix(seq![ch], rest, 0);
}

/// Some text that leaves off outside of escape sequences: what follows is
/// stripped as if it stood alone.
pub open spec fn complete(a: Seq<char>) -> bool {
    forall|b: Seq<char>|
        #[trigger] highlight::visible(a + b) == highlight::visible(a) + highlight::visible(b)
}

/// The text holds no escape character.
pub open spec fn unescaped(a: Seq<char>) -> bool {
    forall|x: int| 0 <= x < a.len() ==> #[trigger] a[x] != highlight::escape_char()
}

pub proof fn lemma_unescaped_complete(a: Seq<char>)
    requires
        unescaped(a),
    ensures
        complete(a),
        highlight::visible(a) == a,
    decreases a.len(),
{
    if a.len() == 0 {
        assert forall|b: Seq<char>| #[trigger]
            highlight::visible(a + b) == highlight::visible(a) + highlight::visible(b) by {
            assert(a + b =~= b);
            assert(Seq::<char>::empty() + highlight::visible(b) =~= highlight::visible(b));
        }
        assert(highlight::visible(a) =~= a);
    } else {
        let rest = a.drop_first();
        lemma_unescaped_complete(rest);
        lemma_strip_plain(a[0], rest);
        assert(seq![a[0]] + rest =~= a);
        assert forall|b: Seq<char>| #[trigger]
            highlight::visible(a + b) == highlight::visible(a) + highlight::visible(b) by {
            lemma_strip_plain(a[0], rest + b);
            assert(seq![a[0]] + (rest + b) =~= a + b);
            assert(highlight::visible(rest + b) == rest + highlight::visible(b));
            assert(seq![a[0]] + (rest + highlight::visible(b)) =~= a + highlight::visible(b));
        }
    }
}

pub proof fn lemma_control_complete(code: Seq<char>)
    requires
        is_control(code),
    ensures
        complete(code),
        highlight::visible(code) == Seq::<char>::empty(),
{
    lemma_strip_control(code, Seq::empty());
    assert(code + Seq::<char>::empty() =~= code);
    assert(highlight::visible(Seq::<char>::empty()) =~= Seq::<char>::empty());
    assert forall|b: Seq<char>| #[trigger]
        highlight::visible(code + b) == highlight::visible(code) + highlight::visible(b) by {
        lemma_strip_control(code, b);
        assert(Seq::<char>::empty() + highlight::visible(b) =~= highlight::visible(b));
    }
}

pub proof fn lemma_complete_concat(a: Seq<char>, b: Seq<char>)
    requires
        complete(a),
        complete(b),
    ensures
        complete(a + b),
        highlight::visible(a + b) == highlight::visible(a) + highlight::visible(b),
{
    let (va, vb) = (highlight::visible(a), highlight::visible(b));
    assert forall|c: Seq<char>| #[trigger]
        highlight::visible((a + b) + c) == highlight::visible(a + b) + highlight::visible(c) by {
        let vc = highlight::visible(c);
        assert((a + b) + c =~= a + (b + c));
        assert(highlight::visible(a + (b + c)) == va + highlight::visible(b + c));
        assert(va + (vb + vc) =~= (va + vb) + vc);
    }
}

/// Painted text is complete, and stripping it gives the text.
pub proof fn lemma_painted_complete(colors: Colors, code: Seq<char>, text: Seq<char>)
    requires
        is_control(code),
        is_control(colors.reset),
        unescaped(text),
    ensures
        complete(colors.painted(code, text)),
        highlight::visible(colors.painted(code, text)) == text,
{
    lemma_control_complete(code);
    lemma_control_complete(colors.reset);
    lemma_unescaped_complete(text);
    lemma_complete_concat(code, text);
    lemma_complete_concat(code + text, colors.reset);
    assert(Seq::<char>::empty() + text + Seq::<char>::empty() =~= text);
}

/// A highlighted line is complete.
pub proof fn lemma_highlighted_complete(
    line: Seq<char>,
    spans: Seq<(int, int)>,
    colors: Colors,
)
    requires
        is_control(colors.matched),
        is_control(colors.reset),
        unescaped(line),
    ensures
        complete(highlight::highlighted(line, spans, colors)),
        highlight::visible(highlight::highlighted(line, spans, colors)) == line,
{
    law_strip_undoes_highlighting(line, spans, colors);
    lemma_painted_upto_complete(line, spans, colors, line.len() as int);
    lemma_mark_complete(line, spans, colors, line.len() as int);
    lemma_complete_concat(
        highlight::painted_upto(line, spans, colors, line.len() as int),
        highlight::mark(line, spans, colors, line.len() as int),
    );
}

proof fn lemma_mark_complete(
    line: Seq<char>,
    spans: Seq<(int, int)>,
    colors: Colors,
    x: int,
)
    requires
        is_control(colors.matched),
        is_control(colors.reset),
    ensures
        complete(highlight::mark(line, spans, colors, x)),
{
    lemma_control_complete(colors.matched);
    lemma_control_complete(colors.reset);
    lemma_unescaped_complete(Seq::empty());
}

proof fn lemma_painted_upto_complete(
    line: Seq<char>,
    spans: Seq<(int, int)>,
    colors: Colors,
    k: int,
)
    requires
        0 <= k <= line.len(),
        is_control(colors.matched),
        is_control(colors.reset),
        unescaped(line),
    ensures
        complete(highlight::painted_upto(line, spans, colors, k)),
    decreases k,
{
    if k == 0 {
        lemma_unescaped_complete(Seq::empty());
    } else {
        lemma_painted_upto_complete(line, spans, colors, k - 1);
        lemma_mark_complete(line, spans, colors, k - 1);
        lemma_unescaped_complete(seq![line[k - 1]]);
        let earlier = highlight::painted_upto(line, spans, colors, k - 1);
        let here = highlight::mark(line, spans, colors, k - 1);
        lemma_complete_concat(earlier, here);
        lemma_complete_concat(earlier + here, seq![line[k - 1]]);
    }
}

/// The painted line from the character at `k` on.
spec fn painted_from(
    line: Seq<char>,
    spans: Seq<(int, int)>,
    colors: Colors,
    k: int,
) -> Seq<char>
    decreases line.len() - k,
{
    if 0 <= k < line.len() {
        highlight::mark(line, spans, colors, k) + (seq![line[k]] + painted_from(
            line,
            spans,
            colors,
            k + 1,
        ))
    } else {
        highlight::mark(line, spans, colors, k)
    }
}

proof fn lemma_painted_from(
    line: Seq<char>,
    spans: Seq<(int, int)>,
    colors: Colors,
    k: int,
)
    requires
        0 <= k <= line.len(),
    ensures
        highlight::painted_upto(line, spans, colors, k) + painted_from(line, spans, colors, k)
            == highlight::painted_upto(line, spans, colors, line.len() as int) + highlight::mark(
            line,
            spans,
            colors,
            line.len() as int,
        ),
    decreases line.len() - k,
{
    if k < line.len() {
        lemma_painted_from(line, spans, colors, k + 1);
        assert(highlight::painted_upto(line, spans, colors, k) + painted_from(
            line,
            spans,
            colors,
            k,
        )
            =~= highlight::painted_upto(line, spans, colors, k + 1) + painted_from(
            line,
            spans,
            colors,
            k + 1,
        ));
    }
}

proof fn lemma_strip_painted(
    line: Seq<char>,
    spans: Seq<(int, int)>,
    colors: Colors,
    k: int,
)
    requires
        0 <= k <= line.len(),
        is_control(colors.matched),
        is_control(colors.reset),
        forall|x: int| 0 <= x < line.len() ==> #[trigger] line[x] != highlight::escape_char(),
    ensures
        highlight::visible(painted_from(line, spans, colors, k)) == line.skip(k),
    decreases line.len() - k,
{
    let here = highlight::mark(line, spans, colors, k);
    let rest = if k < line.len() {
        seq![line[k]] + painted_from(line, spans, colors, k + 1)
    } else {
        Seq::empty()
    };
    assert(painted_from(line, spans, colors, k) =~= here + rest);
    if k < line.len() {
        lemma_strip_painted(line, spans, colors, k + 1);
        lemma_strip_plain(line[k], painted_from(line, spans, colors, k + 1));
        assert(seq![line[k]] + line.skip(k + 1) =~= line.skip(k));
    } else {
        assert(line.skip(k) =~= Seq::<char>::empty());
        assert(highlight::visible(rest) =~= Seq::<char>::empty());
    }
    if here.len() > 0 {
        lemma_strip_control(here, rest);
    } else {
        assert(here + rest =~= rest);
    }
}

/// Highlighting a line and stripping the result gives the line back, where
/// the line holds no escape character and the colors are control sequences.
pub proof fn law_strip_undoes_highlighting(
    line: Seq<char>,
    spans: Seq<(int, int)>,
    colors: Colors,
)
    requires
        is_control(colors.matched),
        is_control(colors.reset),
        forall|x: int| 0 <= x < line.len() ==> #[trigger] line[x] != highlight::escape_char(),
    ensures
        highlight::visible(highlight::highlighted(line, spans, colors)) == line,
{
    lemma_painted_from(line, spans, colors, 0);
    lemma_strip_painted(line, spans, colors, 0);
    assert(highlight::highlighted(line, spans, colors) =~= painted_from(line, spans, colors, 0));
    assert(line.skip(0) =~= line);
}

/// The classic colors are control sequences.
pub proof fn law_classic_colors_can_be_stripped()
    ensures
        is_control(highlight::classic_colors().path),
        is_control(highlight::classic_colors().line_number),
        is_control(highlight::classic_colors().separator),
        is_control(highlight::classic_colors().matched),
        is_control(highlight::classic_colors().reset),
{
    reveal_strlit("\x1b[1;35m");
    reveal_strlit("\x1b[1;32m");
    reveal_strlit("\x1b[36m");
    reveal_strlit("\x1b[1;31m");
    reveal_strlit("\x1b[0m");
}

/// Separate spans are determined by what they cover, so merging twice is
/// merging once.
pub proof fn law_merged_spans_are_unique(a: Seq<(int, int)>, b: Seq<(int, int)>)
    requires
        highlight::separate(a),
        highlight::separate(b),
        forall|x: int| #[trigger] highlight::covered(a, x) <==> highlight::covered(b, x),
    ensures
        a == b,
    decreases a.len(),
{
    if a.len() == 0 {
        if b.len() > 0 {
            assert(b[0].0 < b[0].1);
            assert(highlight::covered(b, b[0].0));
            assert(highlight::covered(a, b[0].0));
        }
        assert(a =~= b);
    } else {
        assert(a[0].0 < a[0].1);
        assert(highlight::covered(a, a[0].0));
        assert(highlight::covered(b, a[0].0));
        lemma_first_span(a, b);
        lemma_first_span(b, a);
        let (ra, rb) = (a.drop_first(), b.drop_first());
        lemma_rest(a);
        lemma_rest(b);
        assert forall|x: int| #[trigger] highlight::covered(ra, x) <==> highlight::covered(
            rb,
            x,
        ) by {
            assert(highlight::covered(a, x) <==> highlight::covered(b, x));
        }
        law_merged_spans_are_unique(ra, rb);
        assert(a =~= seq![a[0]] + ra);
        assert(b =~= seq![b[0]] + rb);
    }
}

/// The first of some separate spans is not before, and not shorter than, the
/// first span of the same cover.
proof fn lemma_first_span(a: Seq<(int, int)>, b: Seq<(int, int)>)
    requires
        highlight::separate(a),
        highlight::separate(b),
        a.len() > 0,
        b.len() > 0,
        forall|x: int| #[trigger] highlight::covered(a, x) <==> highlight::covered(b, x),
    ensures
        b[0].0 <= a[0].0,
        a[0].1 <= b[0].1 || a[0].0 != b[0].0,
{
    assert(a[0].0 < a[0].1);
    assert(highlight::covered(a, a[0].0));
    assert(highlight::covered(b, a[0].0));
    let k = choose|k: int| 0 <= k < b.len() && (#[trigger] b[k]).0 <= a[0].0 < b[k].1;
    if k > 0 {
        assert(b[0].1 < b[k].0);
        assert(b[0].0 < b[0].1);
    }
    if a[0].0 == b[0].0 && b[0].1 < a[0].1 {
        let x = b[0].1;
        assert(b[0].0 < b[0].1);
        assert(highlight::covered(a, x));
        assert(highlight::covered(b, x));
        let l = choose|l: int| 0 <= l < b.len() && (#[trigger] b[l]).0 <= x < b[l].1;
        assert(b[0].1 < b[l].0);
    }
}

/// Without its first span, a cover is what lies behind that span.
proof fn lemma_rest(a: Seq<(int, int)>)
    requires
        highlight::separate(a),
        a.len() > 0,
    ensures
        highlight::separate(a.drop_first()),
        forall|x: int|
            #[trigger] highlight::covered(a.drop_first(), x) <==> highlight::covered(a, x) && x
                >= a[0].1,
{
    let r = a.drop_first();
    assert forall|k: int| 0 <= k < r.len() implies (#[trigger] r[k]).0 < r[k].1 by {
        assert(r[k] == a[k + 1]);
    }
    assert forall|k: int, l: int| 0 <= k < l < r.len() implies (#[trigger] r[k]).1 < (
    #[trigger] r[l]).0 by {
        assert(r[k] == a[k + 1] && r[l] == a[l + 1]);
    }
    assert forall|x: int| #[trigger] highlight::covered(r, x) <==> highlight::covered(a, x) && x
        >= a[0].1 by {
        if highlight::covered(r, x) {
            let k = choose|k: int| 0 <= k < r.len() && (#[trigger] r[k]).0 <= x < r[k].1;
            assert(a[k + 1] == r[k]);
            assert(a[0].1 < a[k + 1].0);
        }
        if highlight::covered(a, x) && x >= a[0].1 {
            let k = choose|k: int| 0 <= k < a.len() && (#[trigger] a[k]).0 <= x < a[k].1;
            assert(r[k - 1] == a[k]);
        }
    }
}

// ---------------------------------------------------------------------------
// What is painted
// ---------------------------------------------------------------------------

/// `x` lies in one of the spans.
pub open spec fn lies_in(spans: Seq<(int, int)>, x: int) -> bool {
    exists|k: int| 0 <= k < spans.len() && (#[trigger] spans[k]).0 <= x && x < spans[k].1
}

proof fn lemma_same_paint(
    line: Seq<char>,
    longer: Seq<char>,
    a: Seq<(int, int)>,
    b: Seq<(int, int)>,
    colors: Colors,
    k: int,
)
    requires
        0 <= k <= line.len() <= longer.len(),
        line == longer.take(line.len() as int),
        forall|x: int|
            0 <= x < k ==> #[trigger] highlight::covered(a, x) == highlight::covered(b, x),
    ensures
        highlight::painted_upto(line, a, colors, k) == highlight::painted_upto(
            longer,
            b,
            colors,
            k,
        ),
    decreases k,
{
    if k > 0 {
        lemma_same_paint(line, longer, a, b, colors, k - 1);
        assert(highlight::covered(a, k - 1) == highlight::covered(b, k - 1));
        assert(k >= 2 ==> highlight::covered(a, k - 2) == highlight::covered(b, k - 2));
        assert(line[k - 1] == longer[k - 1]);
    }
}

/// Which characters are painted is all that counts of the spans: not their
/// order, not how often a character lies in one, not how they are cut.
pub proof fn law_spans_of_the_same_characters_paint_alike(
    line: Seq<char>,
    a: Seq<(int, int)>,
    b: Seq<(int, int)>,
    colors: Colors,
)
    requires
        forall|x: int| 0 <= x < line.len() ==> #[trigger] lies_in(a, x) == lies_in(b, x),
    ensures
        highlight::highlighted(line, a, colors) == highlight::highlighted(line, b, colors),
{
    let n = line.len() as int;
    assert forall|x: int| 0 <= x < n implies #[trigger] highlight::covered(a, x)
        == highlight::covered(b, x) by {
        assert(lies_in(a, x) == lies_in(b, x));
    }
    assert(line.take(n) =~= line);
    lemma_same_paint(line, line, a, b, colors, n);
    assert(n > 0 ==> highlight::covered(a, n - 1) == highlight::covered(b, n - 1));
}

proof fn lemma_painted_span(
    line: Seq<char>,
    spans: Seq<(int, int)>,
    colors: Colors,
    i: int,
    k: int,
)
    requires
        0 <= i < k <= line.len(),
        forall|x: int| i <= x < k ==> #[trigger] highlight::covered(spans, x),
        !highlight::covered(spans, i - 1),
    ensures
        highlight::painted_upto(line, spans, colors, k) == highlight::painted_upto(
            line,
            spans,
            colors,
            i,
        ) + colors.matched + line.subrange(i, k),
    decreases k,
{
    assert(highlight::covered(spans, k - 1));
    let start = highlight::painted_upto(line, spans, colors, i) + colors.matched;
    if k == i + 1 {
        assert(line.subrange(i, k) =~= seq![line[i]]);
    } else {
        lemma_painted_span(line, spans, colors, i, k - 1);
        assert(highlight::covered(spans, k - 2));
        assert(start + line.subrange(i, k - 1) + Seq::<char>::empty() + seq![line[k - 1]] =~= start
            + line.subrange(i, k));
    }
}

proof fn lemma_plain_tail(line: Seq<char>, spans: Seq<(int, int)>, colors: Colors, j: int, k: int)
    requires
        0 < j < k <= line.len(),
        forall|x: int| j <= x < k ==> !#[trigger] highlight::covered(spans, x),
        highlight::covered(spans, j - 1),
    ensures
        highlight::painted_upto(line, spans, colors, k) == highlight::painted_upto(
            line,
            spans,
            colors,
            j,
        ) + colors.reset + line.subrange(j, k),
    decreases k,
{
    assert(!highlight::covered(spans, k - 1));
    let start = highlight::painted_upto(line, spans, colors, j) + colors.reset;
    if k == j + 1 {
        assert(line.subrange(j, k) =~= seq![line[j]]);
    } else {
        lemma_plain_tail(line, spans, colors, j, k - 1);
        assert(!highlight::covered(spans, k - 2));
        assert(start + line.subrange(j, k - 1) + Seq::<char>::empty() + seq![line[k - 1]] =~= start
            + line.subrange(j, k));
    }
}

/// Every span is painted: the last one shows between the match color and the
/// reset, the line in front of it as if it were all, and the line behind it as
/// it is.
pub proof fn law_every_span_is_painted(
    line: Seq<char>,
    earlier: Seq<(int, int)>,
    i: int,
    j: int,
    colors: Colors,
)
    requires
        colors.reset.len() > 0,
        0 <= i < j <= line.len(),
        forall|k: int| 0 <= k < earlier.len() ==> (#[trigger] earlier[k]).1 < i,
    ensures
        highlight::highlighted(line, earlier.push((i, j)), colors) == highlight::highlighted(
            line.take(i),
            earlier,
            colors,
        ) + colors.matched + line.subrange(i, j) + colors.reset + line.skip(j),
{
    let all = earlier.push((i, j));
    let n = line.len() as int;
    assert forall|x: int| #[trigger] highlight::covered(all, x) == (highlight::covered(earlier, x)
        || i <= x < j) by {
        if highlight::covered(earlier, x) {
            let k = choose|k: int|
                0 <= k < earlier.len() && (#[trigger] earlier[k]).0 <= x < earlier[k].1;
            assert(all[k].0 <= x < all[k].1);
        }
        if i <= x < j {
            assert(all[earlier.len() as int].0 <= x < all[earlier.len() as int].1);
        }
        if highlight::covered(all, x) {
            let k = choose|k: int| 0 <= k < all.len() && (#[trigger] all[k]).0 <= x < all[k].1;
            if k < earlier.len() {
                assert(earlier[k].0 <= x < earlier[k].1);
            }
        }
    }
    assert(!highlight::covered(earlier, i - 1));
    lemma_same_paint(line.take(i), line, earlier, all, colors, i);
    lemma_painted_span(line, all, colors, i, j);
    let front = highlight::painted_upto(line, all, colors, i);
    assert(front + Seq::<char>::empty() =~= front);
    assert(highlight::highlighted(line.take(i), earlier, colors) =~= front);
    assert(highlight::covered(all, j - 1));
    if j < n {
        lemma_plain_tail(line, all, colors, j, n);
        assert(!highlight::covered(all, n - 1));
        assert(line.skip(j) =~= line.subrange(j, n));
        assert(highlight::highlighted(line, all, colors) =~= front + colors.matched
            + line.subrange(i, j) + colors.reset + line.skip(j));
    } else {
        assert(line.skip(j) =~= Seq::<char>::empty());
        assert(highlight::highlighted(line, all, colors) =~= front + colors.matched
            + line.subrange(i, j) + colors.reset + line.skip(j));
    }
}

// ---------------------------------------------------------------------------
// What is stripped
// ---------------------------------------------------------------------------

proof fn lemma_shifted(s: Seq<char>, t: Seq<char>, shift: int, i: int)
    requires
        0 <= shift,
        0 <= i <= t.len(),
        t == s.skip(shift),
        shift <= s.len(),
    ensures
        highlight::stripped(s, shift + i) == highlight::stripped(t, i),
    decreases t.len() - i,
{
    if i < t.len() {
        assert(s[shift + i] == t[i]);
        assert(i + 1 < t.len() ==> s[shift + i + 1] == t[i + 1]);
        if t[i] != '\u{1b}' {
            lemma_shifted(s, t, shift, i + 1);
        } else if i + 1 < t.len() && t[i + 1] == '[' {
            lemma_control_shifted(s, t, shift, i + 2);
            highlight::lemma_control_end(t, i + 2);
            let end = highlight::control_end(t, i + 2);
            lemma_shifted(s, t, shift, end);
        } else if i + 1 < t.len() {
            lemma_shifted(s, t, shift, i + 2);
        }
    }
}

proof fn lemma_control_shifted(s: Seq<char>, t: Seq<char>, shift: int, i: int)
    requires
        0 <= shift <= s.len(),
        0 <= i <= t.len(),
        t == s.skip(shift),
    ensures
        highlight::control_end(s, shift + i) == shift + highlight::control_end(t, i),
    decreases t.len() - i,
{
    if i < t.len() {
        assert(s[shift + i] == t[i]);
        lemma_control_shifted(s, t, shift, i + 1);
    }
}

/// Only escape sequences are stripped: a character that starts none is kept,
/// and an escape and the character behind it, or a whole control sequence, are
/// left out.
pub proof fn law_escape_sequences_are_left_out(ch: char, code: Seq<char>, rest: Seq<char>)
    requires
        ch as nat != 0x1b,
    ensures
        highlight::visible(Seq::empty()).len() == 0,
        highlight::visible(seq![ch] + rest) == seq![ch] + highlight::visible(rest),
        ch != '[' ==> highlight::visible(seq!['\u{1b}', ch] + rest) == highlight::visible(rest),
        code.len() > 0 && (forall|k: int|
            0 <= k < code.len() - 1 ==> !('@' <= #[trigger] code[k] <= '~')) && '@' <= code.last()
            <= '~' ==> highlight::visible(seq!['\u{1b}', '['] + code + rest)
            == highlight::visible(rest),
{
    let kept = seq![ch] + rest;
    assert(kept.skip(1) =~= rest);
    lemma_shifted(kept, rest, 1, 0);
    let pair = seq!['\u{1b}', ch] + rest;
    assert(pair.skip(2) =~= rest);
    lemma_shifted(pair, rest, 2, 0);
    let control = seq!['\u{1b}', '['] + code + rest;
    let n = 2 + code.len();
    assert(control.skip(n as int) =~= rest);
    lemma_shifted(control, rest, n as int, 0);
    if code.len() > 0 && (forall|k: int|
        0 <= k < code.len() - 1 ==> !('@' <= #[trigger] code[k] <= '~')) && '@' <= code.last()
        <= '~' {
        lemma_control_found(control, 2, n as int, code);
    }
}

proof fn lemma_control_found(s: Seq<char>, i: int, end: int, code: Seq<char>)
    requires
        2 <= i < end <= s.len(),
        end == 2 + code.len(),
        forall|k: int| 0 <= k < code.len() ==> s[2 + k] == #[trigger] code[k],
        forall|k: int| 0 <= k < code.len() - 1 ==> !('@' <= #[trigger] code[k] <= '~'),
        '@' <= code.last() <= '~',
    ensures
        highlight::control_end(s, i) == end,
    decreases end - i,
{
    assert(s[i] == code[i - 2]);
    if i + 1 < end {
        lemma_control_found(s, i + 1, end, code);
    }
}

} // verus!
