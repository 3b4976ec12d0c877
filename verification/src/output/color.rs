//! Color adds escape sequences to a rendering and nothing else.

use vstd::prelude::*;

use crate::highlight;
use crate::highlight::laws as painting;
use crate::output;
use crate::output::{Layout, Page, RenderOptions, Row};
use crate::search::{Context, Selected};
use crate::text;

verus! {

/// The layout with the classic colors.
pub open spec fn colored(options: RenderOptions, path: Seq<char>) -> Layout {
    Layout { options, colors: highlight::classic_colors(), path }
}

/// The layout without colors.
pub open spec fn colorless(options: RenderOptions, path: Seq<char>) -> Layout {
    Layout { options, colors: highlight::no_colors(), path }
}

/// No text of some lines of context holds an escape character.
pub open spec fn plain_contexts(list: Seq<Context>) -> bool {
    forall|k: int| 0 <= k < list.len() ==> painting::unescaped((#[trigger] list[k]).text)
}

/// No text of some selected lines and their context holds an escape
/// character.
pub open spec fn plain_matches(matches: Seq<Selected>) -> bool {
    forall|k: int|
        0 <= k < matches.len() ==> {
            &&& painting::unescaped((#[trigger] matches[k]).text)
            &&& plain_contexts(matches[k].before)
            &&& plain_contexts(matches[k].after)
        }
}

/// Stripping `a`, which leaves off outside of escape sequences, gives `b`.
spec fn fades(a: Seq<char>, b: Seq<char>) -> bool {
    painting::complete(a) && highlight::visible(a) == b
}

proof fn lemma_same(a: Seq<char>)
    requires
        painting::unescaped(a),
    ensures
        fades(a, a),
{
    painting::lemma_unescaped_complete(a);
}

proof fn lemma_concat(a: Seq<char>, b: Seq<char>, c: Seq<char>, d: Seq<char>)
    requires
        fades(a, b),
        fades(c, d),
    ensures
        fades(a + c, b + d),
{
    painting::lemma_complete_concat(a, c);
}

proof fn lemma_painted(code: Seq<char>, plain: Seq<char>, text: Seq<char>)
    requires
        painting::is_control(code),
        painting::unescaped(text),
    ensures
        fades(
            highlight::classic_colors().painted(code, text),
            highlight::no_colors().painted(plain, text),
        ),
{
    painting::law_classic_colors_can_be_stripped();
    reveal_strlit("");
    painting::lemma_painted_complete(highlight::classic_colors(), code, text);
}

proof fn lemma_decimal(n: nat)
    ensures
        painting::unescaped(text::decimal(n)),
    decreases n,
{
    if n >= 10 {
        lemma_decimal(n / 10);
    }
}

proof fn lemma_number(n: nat, marker: char)
    requires
        marker != highlight::escape_char(),
    ensures
        fades(
            highlight::classic_colors().painted(
                highlight::classic_colors().line_number,
                text::decimal(n),
            ) + seq![marker],
            highlight::no_colors().painted(
                highlight::no_colors().line_number,
                text::decimal(n),
            ) + seq![marker],
        ),
{
    let (c, p) = (highlight::classic_colors(), highlight::no_colors());
    let spelled = text::decimal(n);
    painting::law_classic_colors_can_be_stripped();
    lemma_decimal(n);
    lemma_painted(c.line_number, p.line_number, spelled);
    lemma_same(seq![marker]);
    lemma_concat(
        c.painted(c.line_number, spelled),
        p.painted(p.line_number, spelled),
        seq![marker],
        seq![marker],
    );
}

proof fn lemma_path(path: Seq<char>, marker: char)
    requires
        painting::unescaped(path),
        marker != highlight::escape_char(),
    ensures
        fades(
            highlight::classic_colors().painted(highlight::classic_colors().path, path) + seq![
                marker,
            ],
            highlight::no_colors().painted(highlight::no_colors().path, path) + seq![marker],
        ),
{
    let (c, p) = (highlight::classic_colors(), highlight::no_colors());
    painting::law_classic_colors_can_be_stripped();
    lemma_painted(c.path, p.path, path);
    lemma_same(seq![marker]);
    lemma_concat(c.painted(c.path, path), p.painted(p.path, path), seq![marker], seq![marker]);
}

proof fn lemma_prefix(
    options: RenderOptions,
    path: Seq<char>,
    offset: nat,
    number: nat,
    marker: char,
)
    requires
        painting::unescaped(path),
        marker != highlight::escape_char(),
    ensures
        fades(
            output::prefix(colored(options, path), offset, number, marker),
            output::prefix(colorless(options, path), offset, number, marker),
        ),
{
    let (c, p) = (highlight::classic_colors(), highlight::no_colors());
    let none = Seq::<char>::empty();
    lemma_same(none);
    lemma_path(path, ':');
    lemma_number(offset, marker);
    lemma_number(number, marker);
    let (c1, p1) = if options.with_filename {
        (c.painted(c.path, path) + seq![':'], p.painted(p.path, path) + seq![':'])
    } else {
        (none, none)
    };
    let (c2, p2) = if options.byte_offset {
        (
            c.painted(c.line_number, text::decimal(offset)) + seq![marker],
            p.painted(p.line_number, text::decimal(offset)) + seq![marker],
        )
    } else {
        (none, none)
    };
    let (c3, p3) = if options.line_numbers {
        (
            c.painted(c.line_number, text::decimal(number)) + seq![marker],
            p.painted(p.line_number, text::decimal(number)) + seq![marker],
        )
    } else {
        (none, none)
    };
    lemma_concat(c1, p1, c2, p2);
    lemma_concat(c1 + c2, p1 + p2, c3, p3);
    assert(output::prefix(colored(options, path), offset, number, marker) == c1 + c2 + c3);
    assert(output::prefix(colorless(options, path), offset, number, marker) == p1 + p2 + p3);
}

/// A colored row and the same row without colors.
spec fn row_fades(c: Row, p: Row) -> bool {
    c.number == p.number && fades(c.text, p.text)
}

proof fn lemma_context_row(options: RenderOptions, path: Seq<char>, line: Context)
    requires
        painting::unescaped(path),
        painting::unescaped(line.text),
    ensures
        row_fades(
            output::context_row(colored(options, path), line),
            output::context_row(colorless(options, path), line),
        ),
{
    let (c, p) = (colored(options, path), colorless(options, path));
    let (a, b) = (
        output::prefix(c, line.offset, line.number, '-'),
        output::prefix(p, line.offset, line.number, '-'),
    );
    lemma_prefix(options, path, line.offset, line.number, '-');
    lemma_same(line.text);
    lemma_same(seq!['\n']);
    lemma_concat(a, b, line.text, line.text);
    lemma_concat(a + line.text, b + line.text, seq!['\n'], seq!['\n']);
}

proof fn lemma_match_row(options: RenderOptions, path: Seq<char>, entry: Selected)
    requires
        painting::unescaped(path),
        painting::unescaped(entry.text),
    ensures
        row_fades(
            output::match_row(colored(options, path), entry),
            output::match_row(colorless(options, path), entry),
        ),
{
    let (c, p) = (colored(options, path), colorless(options, path));
    let (a, b) = (
        output::prefix(c, entry.offset, entry.number, ':'),
        output::prefix(p, entry.offset, entry.number, ':'),
    );
    let (d, e) = (
        highlight::highlighted(entry.text, entry.spans, c.colors),
        highlight::highlighted(entry.text, entry.spans, p.colors),
    );
    lemma_prefix(options, path, entry.offset, entry.number, ':');
    painting::law_classic_colors_can_be_stripped();
    painting::lemma_highlighted_complete(entry.text, entry.spans, c.colors);
    painting::law_colorless_highlighting_changes_nothing(entry.text, entry.spans);
    lemma_same(seq!['\n']);
    lemma_concat(a, b, d, e);
    lemma_concat(a + d, b + e, seq!['\n'], seq!['\n']);
}

/// Colored rows and the same rows without colors.
spec fn rows_fade(c: Seq<Row>, p: Seq<Row>) -> bool {
    c.len() == p.len() && forall|k: int| 0 <= k < c.len() ==> row_fades(#[trigger] c[k], p[k])
}

proof fn lemma_rows(options: RenderOptions, path: Seq<char>, matches: Seq<Selected>, k: int)
    requires
        painting::unescaped(path),
        plain_matches(matches),
        0 <= k <= matches.len(),
    ensures
        rows_fade(
            output::rows(colored(options, path), matches, k),
            output::rows(colorless(options, path), matches, k),
        ),
    decreases k,
{
    if k > 0 {
        let (c, p) = (colored(options, path), colorless(options, path));
        let i = k - 1;
        lemma_rows(options, path, matches, i);
        lemma_match_row(options, path, matches[i]);
        let (cb, pb) = (output::before_rows(c, matches, i), output::before_rows(p, matches, i));
        let (ca, pa) = (output::after_rows(c, matches, i), output::after_rows(p, matches, i));
        assert forall|m: int| 0 <= m < cb.len() implies row_fades(#[trigger] cb[m], pb[m]) by {
            assert(painting::unescaped(matches[i].before[m].text));
            lemma_context_row(options, path, matches[i].before[m]);
        }
        assert forall|m: int| 0 <= m < ca.len() implies row_fades(#[trigger] ca[m], pa[m]) by {
            let line = matches[i].after[m];
            assert(painting::unescaped(line.text));
            lemma_context_row(options, path, line);
            lemma_upcoming_in_range(matches, i + 1, line.number);
            if let Some(j) = output::upcoming(matches, i + 1, line.number) {
                assert(painting::unescaped(matches[j].text));
                lemma_match_row(options, path, matches[j]);
            }
        }
        let (ce, pe) = (output::rows(c, matches, i), output::rows(p, matches, i));
        let (cm, pm) = (
            seq![output::match_row(c, matches[i])],
            seq![output::match_row(p, matches[i])],
        );
        assert(rows_fade(ce + cb, pe + pb));
        assert(rows_fade(ce + cb + cm, pe + pb + pm));
        assert(rows_fade(ce + cb + cm + ca, pe + pb + pm + pa));
    }
}

proof fn lemma_upcoming_in_range(matches: Seq<Selected>, from: int, number: nat)
    ensures
        output::upcoming(matches, from, number) matches Some(j) ==> 0 <= j < matches.len(),
    decreases matches.len() - from,
{
    if 0 <= from < matches.len() && matches[from].number < number {
        lemma_upcoming_in_range(matches, from + 1, number);
    }
}

/// A colored page and the same page without colors.
spec fn page_fades(c: Page, p: Page) -> bool {
    c.last == p.last && fades(c.text, p.text)
}

proof fn lemma_filled(c: Seq<Row>, p: Seq<Row>)
    requires
        rows_fade(c, p),
    ensures
        page_fades(
            output::filled(output::blank(), c, highlight::classic_colors()),
            output::filled(output::blank(), p, highlight::no_colors()),
        ),
    decreases c.len(),
{
    lemma_same(Seq::empty());
    if c.len() > 0 {
        let (cc, pc) = (highlight::classic_colors(), highlight::no_colors());
        assert forall|k: int| 0 <= k < c.len() - 1 implies row_fades(
            #[trigger] c.drop_last()[k],
            p.drop_last()[k],
        ) by {
            assert(row_fades(c[k], p[k]));
        }
        lemma_filled(c.drop_last(), p.drop_last());
        let (before, after) = (
            output::filled(output::blank(), c.drop_last(), cc),
            output::filled(output::blank(), p.drop_last(), pc),
        );
        assert(row_fades(c[c.len() - 1], p[p.len() - 1]));
        lemma_separator();
        let (a, b) = (output::separator(cc), output::separator(pc));
        lemma_concat(before.text, after.text, c.last().text, p.last().text);
        lemma_concat(before.text, after.text, a, b);
        lemma_concat(before.text + a, after.text + b, c.last().text, p.last().text);
    }
}

proof fn lemma_separator()
    ensures
        fades(
            output::separator(highlight::classic_colors()),
            output::separator(highlight::no_colors()),
        ),
{
    let (c, p) = (highlight::classic_colors(), highlight::no_colors());
    painting::law_classic_colors_can_be_stripped();
    reveal_strlit("--");
    lemma_painted(c.separator, p.separator, "--"@);
    lemma_same(seq!['\n']);
    lemma_concat(
        c.painted(c.separator, "--"@),
        p.painted(p.separator, "--"@),
        seq!['\n'],
        seq!['\n'],
    );
}

proof fn lemma_span_rows(options: RenderOptions, path: Seq<char>, entry: Selected, k: int)
    requires
        painting::unescaped(path),
        painting::unescaped(entry.text),
        0 <= k <= entry.spans.len(),
        forall|m: int|
            0 <= m < entry.spans.len() ==> 0 <= (#[trigger] entry.spans[m]).0 <= entry.spans[m].1,
    ensures
        fades(
            output::span_rows(colored(options, path), entry, k),
            output::span_rows(colorless(options, path), entry, k),
        ),
    decreases k,
{
    lemma_same(Seq::empty());
    if k > 0 {
        let (c, p) = (colored(options, path), colorless(options, path));
        let span = entry.spans[k - 1];
        lemma_span_rows(options, path, entry, k - 1);
        let offset = entry.offset + output::byte_at(entry.text, span.0);
        let matched = output::part(entry.text, span);
        let (a, b) = (
            output::prefix(c, offset, entry.number, ':'),
            output::prefix(p, offset, entry.number, ':'),
        );
        let (d, e) = (
            c.colors.painted(c.colors.matched, matched),
            p.colors.painted(p.colors.matched, matched),
        );
        lemma_prefix(options, path, offset, entry.number, ':');
        painting::law_classic_colors_can_be_stripped();
        assert(painting::unescaped(matched));
        lemma_painted(c.colors.matched, p.colors.matched, matched);
        lemma_same(seq!['\n']);
        lemma_concat(a, b, d, e);
        lemma_concat(a + d, b + e, seq!['\n'], seq!['\n']);
        lemma_concat(
            output::span_rows(c, entry, k - 1),
            output::span_rows(p, entry, k - 1),
            output::span_row(c, entry, span),
            output::span_row(p, entry, span),
        );
    }
}

proof fn lemma_parts(options: RenderOptions, path: Seq<char>, matches: Seq<Selected>, k: int)
    requires
        painting::unescaped(path),
        plain_matches(matches),
        forward_spans(matches),
        0 <= k <= matches.len(),
    ensures
        fades(
            output::parts_text(colored(options, path), matches, k),
            output::parts_text(colorless(options, path), matches, k),
        ),
    decreases k,
{
    lemma_same(Seq::empty());
    if k > 0 {
        let (c, p) = (colored(options, path), colorless(options, path));
        let entry = matches[k - 1];
        let n = entry.spans.len() as int;
        lemma_parts(options, path, matches, k - 1);
        lemma_span_rows(options, path, entry, n);
        lemma_concat(
            output::parts_text(c, matches, k - 1),
            output::parts_text(p, matches, k - 1),
            output::span_rows(c, entry, n),
            output::span_rows(p, entry, n),
        );
    }
}

/// No span runs backwards.
pub open spec fn forward_spans(matches: Seq<Selected>) -> bool {
    forall|k: int, m: int|
        0 <= k < matches.len() && 0 <= m < matches[k].spans.len() ==> 0 <= (
        #[trigger] matches[k].spans[m]).0 <= matches[k].spans[m].1
}

/// Stripping the escape sequences from a colored rendering gives the rendering
/// without colors, where neither the path nor the lines hold escape
/// characters.
pub proof fn law_color_only_adds_escape_sequences(
    options: RenderOptions,
    path: Seq<char>,
    matches: Seq<Selected>,
)
    requires
        !options.json,
        painting::unescaped(path),
        plain_matches(matches),
        forward_spans(matches),
    ensures
        highlight::visible(output::rendering(colored(options, path), matches))
            == output::rendering(colorless(options, path), matches),
{
    let (c, p) = (colored(options, path), colorless(options, path));
    let n = matches.len() as int;
    lemma_same(Seq::empty());
    if options.files_with_matches {
        lemma_path(path, '\n');
    } else if options.count_only {
        let none = Seq::<char>::empty();
        let (a, b) = if options.with_filename {
            (
                c.colors.painted(c.colors.path, path) + seq![':'],
                p.colors.painted(p.colors.path, path) + seq![':'],
            )
        } else {
            (none, none)
        };
        let count = text::decimal(matches.len());
        lemma_path(path, ':');
        lemma_decimal(matches.len());
        lemma_same(count);
        lemma_same(seq!['\n']);
        lemma_concat(a, b, count, count);
        lemma_concat(a + count, b + count, seq!['\n'], seq!['\n']);
    } else if options.only_matching {
        lemma_parts(options, path, matches, n);
    } else {
        lemma_rows(options, path, matches, n);
        lemma_filled(output::rows(c, matches, n), output::rows(p, matches, n));
    }
}

} // verus!
