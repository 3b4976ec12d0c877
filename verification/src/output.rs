//! Rendering of search results: plain text, colored text, counts and JSON.
//!
//! The renderer turns results into text. It owns three decisions so the
//! program around it stays trivial:
//!
//! * **Mode dispatch**: `--files-with-matches`, `--count` and
//!   `--only-matching` take precedence in that order (mirroring grep), with
//!   `--json` selecting a completely different writer.
//! * **Prefix composition**: file name, byte offset and line number
//!   prefixes are assembled in grep's order (`path:offset:number:`), with
//!   `:` for matching lines and `-` for context lines.
//! * **Context window merging**: when several matches sit close together
//!   their `-B/-A` windows overlap; the renderer prints every line at most
//!   once, in ascending order, and emits the classic `--` separator across
//!   gaps.
//!
//! Highlighting itself lives in [`crate::highlight`]; the renderer simply
//! feeds it the spans recorded by [`crate::search`].

use vstd::prelude::*;

use crate::args::Config;
use crate::highlight;
use crate::highlight::{Colors, Palette};
use crate::json;
use crate::json::Json;
use crate::lines;
use crate::pattern::semantics;
use crate::search;
use crate::search::{Context, ContextLine, FileResult, MatchLine, Selected};
use crate::text;

pub mod color;
pub mod laws;

verus! {

/// Everything the renderer needs to know besides the results themselves.
#[derive(Debug, Clone, Copy)]
pub struct RenderOptions {
    /// Emit ANSI color (already resolved against `--color` and the tty).
    pub color: bool,
    /// Prefix lines with `number:`.
    pub line_numbers: bool,
    /// Prefix lines with `offset:`.
    pub byte_offset: bool,
    /// Print only the matched part of each line, one row per span.
    pub only_matching: bool,
    /// Prefix lines with `path:`.
    pub with_filename: bool,
    /// Print per-file match counts.
    pub count_only: bool,
    /// Print only the names of matching files.
    pub files_with_matches: bool,
    /// Emit JSON Lines instead of human text.
    pub json: bool,
}

impl RenderOptions {
    /// Derive the rendering flags from a parsed [`Config`].
    ///
    /// `color` is the resolved color decision and `with_filename` the classic
    /// grep rule: prefixes appear for directory scans and multi-root
    /// searches, but not when exactly one explicit file is searched. Mode
    /// precedence mirrors grep: `--files-with-matches` beats `--count`, which
    /// beats `--only-matching`.
    pub fn from_config(config: &Config, color: bool, with_filename: bool) -> (out: RenderOptions)
        ensures
            out.color == color,
            out.line_numbers == config.line_numbers,
            out.byte_offset == config.byte_offset,
            out.with_filename == with_filename,
            out.files_with_matches == config.files_with_matches,
            out.count_only == (config.count_only && !config.files_with_matches),
            out.only_matching == (config.only_matching && !config.count_only
                && !config.files_with_matches),
            out.json == config.json,
    {
        let files_with_matches = config.files_with_matches;
        let count_only = config.count_only && !files_with_matches;
        let only_matching = config.only_matching && !files_with_matches && !count_only;
        RenderOptions {
            color,
            line_numbers: config.line_numbers,
            byte_offset: config.byte_offset,
            only_matching,
            with_filename,
            count_only,
            files_with_matches,
            json: config.json,
        }
    }
}

// ---------------------------------------------------------------------------
// Model: lines
// ---------------------------------------------------------------------------

/// The colors that the color flag asks for.
pub open spec fn colors_of(color: bool) -> Colors {
    if color {
        highlight::classic_colors()
    } else {
        highlight::no_colors()
    }
}

/// How a result is laid out: the flags, the colors and the path.
pub struct Layout {
    pub options: RenderOptions,
    pub colors: Colors,
    pub path: Seq<char>,
}

/// The `path:offset:number:` prefix in grep's order.
pub open spec fn prefix(layout: Layout, offset: nat, number: nat, marker: char) -> Seq<char> {
    let colors = layout.colors;
    (if layout.options.with_filename {
        colors.painted(colors.path, layout.path) + seq![':']
    } else {
        Seq::empty()
    }) + (if layout.options.byte_offset {
        colors.painted(colors.line_number, text::decimal(offset)) + seq![marker]
    } else {
        Seq::empty()
    }) + (if layout.options.line_numbers {
        colors.painted(colors.line_number, text::decimal(number)) + seq![marker]
    } else {
        Seq::empty()
    })
}

/// A rendered line and its number.
pub struct Row {
    pub number: nat,
    pub text: Seq<char>,
}

/// A line of context: `-` behind its numbers, no highlighting.
pub open spec fn context_row(layout: Layout, line: Context) -> Row {
    Row {
        number: line.number,
        text: prefix(layout, line.offset, line.number, '-') + line.text + seq!['\n'],
    }
}

/// A selected line: `:` behind its numbers, its spans highlighted.
pub open spec fn match_row(layout: Layout, entry: Selected) -> Row {
    Row {
        number: entry.number,
        text: prefix(layout, entry.offset, entry.number, ':') + highlight::highlighted(
            entry.text,
            entry.spans,
            layout.colors,
        ) + seq!['\n'],
    }
}

/// The selected line with this number, among those from `from` on, which come
/// in ascending order.
pub open spec fn upcoming(matches: Seq<Selected>, from: int, number: nat) -> Option<int>
    decreases matches.len() - from,
{
    if from < 0 || from >= matches.len() || matches[from].number > number {
        None
    } else if matches[from].number == number {
        Some(from)
    } else {
        upcoming(matches, from + 1, number)
    }
}

/// A line behind the selected line at `i`: where it is selected itself it
/// shows as a match, else as context.
pub open spec fn after_row(
    layout: Layout,
    matches: Seq<Selected>,
    i: int,
    line: Context,
) -> Row {
    match upcoming(matches, i + 1, line.number) {
        Some(j) => match_row(layout, matches[j]),
        None => context_row(layout, line),
    }
}

/// The rows of the context before the selected line at `i`.
pub open spec fn before_rows(layout: Layout, matches: Seq<Selected>, i: int) -> Seq<Row> {
    matches[i].before.map_values(|line: Context| context_row(layout, line))
}

/// The rows of the context behind the selected line at `i`.
pub open spec fn after_rows(layout: Layout, matches: Seq<Selected>, i: int) -> Seq<Row> {
    matches[i].after.map_values(|line: Context| after_row(layout, matches, i, line))
}

/// The windows of the first `k` selected lines, one after the other; a line
/// in two windows stands there twice.
pub open spec fn rows(layout: Layout, matches: Seq<Selected>, k: int) -> Seq<Row>
    decreases k,
{
    if k <= 0 {
        Seq::empty()
    } else {
        rows(layout, matches, k - 1) + before_rows(layout, matches, k - 1) + seq![
            match_row(layout, matches[k - 1]),
        ] + after_rows(layout, matches, k - 1)
    }
}

/// What is printed so far and the number of the last line in it.
#[verifier::ext_equal]
pub struct Page {
    pub text: Seq<char>,
    pub last: Option<nat>,
}

/// An empty page.
pub open spec fn blank() -> Page {
    Page { text: Seq::empty(), last: None }
}

/// The `--` separator on a line of its own.
pub open spec fn separator(colors: Colors) -> Seq<char> {
    colors.painted(colors.separator, "--"@) + seq!['\n']
}

/// The page with one more row: a line that is already covered is left out, and
/// a gap shows as a separator.
pub open spec fn extended(page: Page, row: Row, colors: Colors) -> Page {
    match page.last {
        Some(last) => if row.number <= last {
            page
        } else if row.number > last + 1 {
            Page { text: page.text + separator(colors) + row.text, last: Some(row.number) }
        } else {
            Page { text: page.text + row.text, last: Some(row.number) }
        },
        None => Page { text: page.text + row.text, last: Some(row.number) },
    }
}

/// The page with some more rows.
pub open spec fn filled(page: Page, list: Seq<Row>, colors: Colors) -> Page
    decreases list.len(),
{
    if list.len() == 0 {
        page
    } else {
        extended(filled(page, list.drop_last(), colors), list.last(), colors)
    }
}

/// The selected lines with their context windows.
pub open spec fn lines_text(layout: Layout, matches: Seq<Selected>) -> Seq<char> {
    filled(blank(), rows(layout, matches, matches.len() as int), layout.colors).text
}

// ---------------------------------------------------------------------------
// Model: spans
// ---------------------------------------------------------------------------

/// `i`, but not behind the end of the line.
pub open spec fn clipped(line: Seq<char>, i: int) -> int {
    if i <= line.len() {
        i
    } else {
        line.len() as int
    }
}

/// The characters of a span.
pub open spec fn part(line: Seq<char>, span: (int, int)) -> Seq<char> {
    line.subrange(clipped(line, span.0), clipped(line, span.1))
}

/// The byte offset of a character inside its line.
pub open spec fn byte_at(line: Seq<char>, i: int) -> nat {
    text::byte_len(line.take(clipped(line, i)))
}

/// A matched part on a row of its own.
pub open spec fn span_row(layout: Layout, entry: Selected, span: (int, int)) -> Seq<char> {
    prefix(layout, entry.offset + byte_at(entry.text, span.0), entry.number, ':')
        + layout.colors.painted(layout.colors.matched, part(entry.text, span)) + seq!['\n']
}

/// The first `k` matched parts of a line, one per row.
pub open spec fn span_rows(layout: Layout, entry: Selected, k: int) -> Seq<char>
    decreases k,
{
    if k <= 0 {
        Seq::empty()
    } else {
        span_rows(layout, entry, k - 1) + span_row(layout, entry, entry.spans[k - 1])
    }
}

/// The matched parts of the first `k` selected lines, one per row.
pub open spec fn parts_text(layout: Layout, matches: Seq<Selected>, k: int) -> Seq<char>
    decreases k,
{
    if k <= 0 {
        Seq::empty()
    } else {
        parts_text(layout, matches, k - 1) + span_rows(
            layout,
            matches[k - 1],
            matches[k - 1].spans.len() as int,
        )
    }
}

// ---------------------------------------------------------------------------
// Model: JSON
// ---------------------------------------------------------------------------

/// A span as an object.
pub open spec fn range_text(entry: Selected, span: (int, int)) -> Seq<char> {
    json::object_text(
        seq![
            json::member_text("start"@, text::decimal(byte_at(entry.text, span.0))),
            json::member_text("end"@, text::decimal(byte_at(entry.text, span.1))),
            json::member_text(
                "offset"@,
                text::decimal(entry.offset + byte_at(entry.text, span.0)),
            ),
            json::member_text("text"@, json::quoted(part(entry.text, span))),
        ],
    )
}

/// The first `k` spans of a line that hold a character.
pub open spec fn range_texts(entry: Selected, k: int) -> Seq<Seq<char>>
    decreases k,
{
    if k <= 0 {
        Seq::empty()
    } else if entry.spans[k - 1].0 < entry.spans[k - 1].1 {
        range_texts(entry, k - 1).push(range_text(entry, entry.spans[k - 1]))
    } else {
        range_texts(entry, k - 1)
    }
}

/// A selected line as an object.
pub open spec fn entry_text(path: Seq<char>, entry: Selected) -> Seq<char> {
    json::object_text(
        seq![
            json::member_text("path"@, json::quoted(path)),
            json::member_text("line"@, text::decimal(entry.number)),
            json::member_text("offset"@, text::decimal(entry.offset)),
            json::member_text("text"@, json::quoted(entry.text)),
            json::member_text(
                "matches"@,
                json::array_text(range_texts(entry, entry.spans.len() as int)),
            ),
        ],
    )
}

/// The first `k` selected lines as objects, one per line.
pub open spec fn entries_text(path: Seq<char>, matches: Seq<Selected>, k: int) -> Seq<char>
    decreases k,
{
    if k <= 0 {
        Seq::empty()
    } else {
        entries_text(path, matches, k - 1) + entry_text(path, matches[k - 1]) + seq!['\n']
    }
}

/// The path as an object.
pub open spec fn path_text(path: Seq<char>) -> Seq<char> {
    json::object_text(seq![json::member_text("path"@, json::quoted(path))])
}

/// The path and the number of matches as an object.
pub open spec fn count_text(path: Seq<char>, matches: nat) -> Seq<char> {
    json::object_text(
        seq![
            json::member_text("path"@, json::quoted(path)),
            json::member_text("matches"@, text::decimal(matches)),
        ],
    )
}

/// A result as JSON lines.
pub open spec fn json_text(layout: Layout, matches: Seq<Selected>) -> Seq<char> {
    if layout.options.files_with_matches {
        if matches.len() > 0 {
            path_text(layout.path) + seq!['\n']
        } else {
            Seq::empty()
        }
    } else if layout.options.count_only {
        count_text(layout.path, matches.len()) + seq!['\n']
    } else {
        entries_text(layout.path, matches, matches.len() as int)
    }
}

/// A rendered result.
pub open spec fn rendering(layout: Layout, matches: Seq<Selected>) -> Seq<char> {
    let colors = layout.colors;
    if layout.options.json {
        json_text(layout, matches)
    } else if layout.options.files_with_matches {
        if matches.len() > 0 {
            colors.painted(colors.path, layout.path) + seq!['\n']
        } else {
            Seq::empty()
        }
    } else if layout.options.count_only {
        (if layout.options.with_filename {
            colors.painted(colors.path, layout.path) + seq![':']
        } else {
            Seq::empty()
        }) + text::decimal(matches.len()) + seq!['\n']
    } else if layout.options.only_matching {
        parts_text(layout, matches, matches.len() as int)
    } else {
        lines_text(layout, matches)
    }
}

/// The mode spells out single spans.
pub open spec fn spells_spans(options: RenderOptions) -> bool {
    !options.files_with_matches && !options.count_only && (options.json || options.only_matching)
}

/// A span that can be spelled out: it does not run backwards, unless empty
/// spans are dropped, and the offset of its start in the file is a machine
/// number.
pub open spec fn sound(options: RenderOptions, entry: Selected, span: (int, int)) -> bool {
    &&& options.json || span.0 <= span.1
    &&& options.json && span.0 >= span.1 || entry.offset + byte_at(entry.text, span.0)
        <= usize::MAX
}

/// All spans of a line can be spelled out.
pub open spec fn sound_entry(options: RenderOptions, entry: Selected) -> bool {
    forall|k: int| 0 <= k < entry.spans.len() ==> sound(options, entry, #[trigger] entry.spans[k])
}

/// All spans of some selected lines can be spelled out, where that is asked
/// for.
pub open spec fn renderable(options: RenderOptions, matches: Seq<Selected>) -> bool {
    spells_spans(options) ==> forall|k: int|
        0 <= k < matches.len() ==> sound_entry(options, #[trigger] matches[k])
}

// ---------------------------------------------------------------------------
// Spans
// ---------------------------------------------------------------------------

/// Extract the char range `span` from `line` as an owned string.
fn span_text(line: &str, span: (usize, usize)) -> (out: String)
    requires
        span.0 <= span.1,
    ensures
        out@ == part(line@, semantics::span(span)),
{
    let chars = text::chars_of(line);
    let size: usize = chars.len();
    let from: usize = if span.0 <= size {
        span.0
    } else {
        size
    };
    let to: usize = if span.1 <= size {
        span.1
    } else {
        size
    };
    text::string_of(&chars, from, to)
}

/// The object for one span.
fn range_value(entry: &MatchLine, span: (usize, usize)) -> (out: Json)
    requires
        span.0 <= span.1,
        entry.offset + byte_at(entry.text@, span.0 as int) <= usize::MAX,
    ensures
        json::written(out) == range_text(entry@, semantics::span(span)),
{
    let start: usize = lines::byte_index_of_char(entry.text.as_str(), span.0);
    let end: usize = lines::byte_index_of_char(entry.text.as_str(), span.1);
    let matched = span_text(entry.text.as_str(), span);
    let mut members: Vec<(&str, Json)> = Vec::new();
    members.push(("start", Json::Uint(start as u64)));
    members.push(("end", Json::Uint(end as u64)));
    members.push(("offset", Json::Uint((entry.offset + start) as u64)));
    members.push(("text", Json::string(matched.as_str())));
    let out = Json::object(members);
    proof {
        let kept = out->Object_0@;
        assert(json::member_texts(kept) =~= seq![
            json::member_text(kept[0].0@, json::written(kept[0].1)),
            json::member_text(kept[1].0@, json::written(kept[1].1)),
            json::member_text(kept[2].0@, json::written(kept[2].1)),
            json::member_text(kept[3].0@, json::written(kept[3].1)),
        ]);
    }
    out
}

/// The object for one selected line.
fn entry_value(path: &str, entry: &MatchLine, options: &RenderOptions) -> (out: Json)
    requires
        options.json,
        sound_entry(*options, entry@),
    ensures
        json::written(out) == entry_text(path@, entry@),
{
    let mut ranges: Vec<Json> = Vec::new();
    let mut i: usize = 0;
    assert(json::item_texts(ranges@) =~= range_texts(entry@, 0));
    while i < entry.spans.len()
        invariant
            options.json,
            sound_entry(*options, entry@),
            i <= entry.spans@.len(),
            json::item_texts(ranges@) == range_texts(entry@, i as int),
        decreases entry.spans@.len() - i,
    {
        let span = entry.spans[i];
        assert(entry@.spans[i as int] == semantics::span(span));
        if span.1 > span.0 {
            let ghost before = ranges@;
            let range = range_value(entry, span);
            ranges.push(range);
            assert(json::item_texts(ranges@) =~= json::item_texts(before).push(
                json::written(range),
            ));
        }
        i += 1;
    }
    let mut members: Vec<(&str, Json)> = Vec::new();
    members.push(("path", Json::string(path)));
    members.push(("line", Json::Uint(entry.number)));
    members.push(("offset", Json::Uint(entry.offset as u64)));
    members.push(("text", Json::string(entry.text.as_str())));
    members.push(("matches", Json::Array(ranges)));
    let out = Json::object(members);
    proof {
        let kept = out->Object_0@;
        assert(json::member_texts(kept) =~= seq![
            json::member_text(kept[0].0@, json::written(kept[0].1)),
            json::member_text(kept[1].0@, json::written(kept[1].1)),
            json::member_text(kept[2].0@, json::written(kept[2].1)),
            json::member_text(kept[3].0@, json::written(kept[3].1)),
            json::member_text(kept[4].0@, json::written(kept[4].1)),
        ]);
    }
    out
}

/// The object for a path alone.
fn path_value(path: &str) -> (out: Json)
    ensures
        json::written(out) == path_text(path@),
{
    let mut members: Vec<(&str, Json)> = Vec::new();
    members.push(("path", Json::string(path)));
    let out = Json::object(members);
    proof {
        let kept = out->Object_0@;
        assert(json::member_texts(kept) =~= seq![
            json::member_text(kept[0].0@, json::written(kept[0].1)),
        ]);
    }
    out
}

/// The object for a path and its number of matches.
fn count_value(path: &str, matches: usize) -> (out: Json)
    ensures
        json::written(out) == count_text(path@, matches as nat),
{
    let mut members: Vec<(&str, Json)> = Vec::new();
    members.push(("path", Json::string(path)));
    members.push(("matches", Json::Uint(matches as u64)));
    let out = Json::object(members);
    proof {
        let kept = out->Object_0@;
        assert(json::member_texts(kept) =~= seq![
            json::member_text(kept[0].0@, json::written(kept[0].1)),
            json::member_text(kept[1].0@, json::written(kept[1].1)),
        ]);
    }
    out
}

// ---------------------------------------------------------------------------
// Renderer
// ---------------------------------------------------------------------------

/// What is printed so far, with the number of the last line in it.
spec fn page_of(text: Seq<char>, last: Option<u64>) -> Page {
    Page {
        text,
        last: match last {
            Some(number) => Some(number as nat),
            None => None,
        },
    }
}

/// Filling a page in two steps.
proof fn lemma_filled_twice(page: Page, a: Seq<Row>, b: Seq<Row>, colors: Colors)
    ensures
        filled(page, a + b, colors) == filled(filled(page, a, colors), b, colors),
    decreases b.len(),
{
    if b.len() == 0 {
        assert(a + b =~= a);
    } else {
        lemma_filled_twice(page, a, b.drop_last(), colors);
        assert((a + b).drop_last() =~= a + b.drop_last());
    }
}

/// Filling a page by one more row of a list.
proof fn lemma_filled_next(page: Page, list: Seq<Row>, k: int, colors: Colors)
    requires
        0 <= k < list.len(),
    ensures
        filled(page, list.take(k + 1), colors) == extended(
            filled(page, list.take(k), colors),
            list[k],
            colors,
        ),
{
    assert(list.take(k + 1).drop_last() =~= list.take(k));
}

/// A page filled with the windows of one more selected line.
proof fn lemma_filled_window(
    layout: Layout,
    matches: Seq<Selected>,
    i: int,
    start: Page,
    middle: Page,
    end: Page,
)
    requires
        0 <= i < matches.len(),
        start == filled(blank(), rows(layout, matches, i), layout.colors),
        middle == extended(
            filled(start, before_rows(layout, matches, i), layout.colors),
            match_row(layout, matches[i]),
            layout.colors,
        ),
        end == filled(middle, after_rows(layout, matches, i), layout.colors),
    ensures
        end == filled(blank(), rows(layout, matches, i + 1), layout.colors),
{
    let colors = layout.colors;
    let earlier = rows(layout, matches, i);
    let before = before_rows(layout, matches, i);
    let here = seq![match_row(layout, matches[i])];
    let after = after_rows(layout, matches, i);
    lemma_filled_twice(blank(), earlier, before, colors);
    assert((earlier + before + here).drop_last() =~= earlier + before);
    assert((earlier + before + here).last() == match_row(layout, matches[i]));
    assert(middle == filled(blank(), earlier + before + here, colors));
    lemma_filled_twice(blank(), earlier + before + here, after, colors);
}

/// The index of the selected line with this number, among those from `from`
/// on.
fn find_upcoming(matches: &Vec<MatchLine>, from: usize, number: u64) -> (found: Option<usize>)
    requires
        from <= matches@.len(),
    ensures
        match found {
            Some(j) => j < matches@.len() && upcoming(
                search::selections(matches@),
                from as int,
                number as nat,
            ) == Some(j as int),
            None => upcoming(search::selections(matches@), from as int, number as nat) is None,
        },
{
    let ghost list = search::selections(matches@);
    let mut j: usize = from;
    while j < matches.len() && matches[j].number < number
        invariant
            from <= j <= matches@.len(),
            list == search::selections(matches@),
            upcoming(list, from as int, number as nat) == upcoming(list, j as int, number as nat),
        decreases matches@.len() - j,
    {
        assert(list[j as int] == matches@[j as int]@);
        j += 1;
    }
    if j < matches.len() {
        assert(list[j as int] == matches@[j as int]@);
        if matches[j].number == number {
            return Some(j);
        }
    }
    None
}

/// Renders results into a text.
pub struct Renderer {
    options: RenderOptions,
    palette: Palette,
    out: String,
}

/// A renderer as a mathematical value.
#[verifier::ext_equal]
pub struct Drawing {
    pub options: RenderOptions,
    pub colors: Colors,
    /// What was rendered since the last flush.
    pub text: Seq<char>,
}

impl View for Renderer {
    type V = Drawing;

    closed spec fn view(&self) -> Drawing {
        Drawing { options: self.options, colors: self.palette@, text: self.out@ }
    }
}

impl Drawing {
    /// How the results of a file are laid out.
    pub open spec fn layout(self, path: Seq<char>) -> Layout {
        Layout { options: self.options, colors: self.colors, path }
    }
}

impl Renderer {
    /// Build a renderer; the palette follows `options.color`.
    pub fn new(options: RenderOptions) -> (out: Renderer)
        ensures
            out@ == (Drawing {
                options,
                colors: colors_of(options.color),
                text: Seq::empty(),
            }),
    {
        let palette = if options.color {
            Palette::classic()
        } else {
            Palette::colorless()
        };
        Renderer { options, palette, out: String::new() }
    }

    /// The palette in use (for callers that paint standalone strings).
    pub fn palette(&self) -> (out: &Palette)
        ensures
            out@ == self@.colors,
    {
        &self.palette
    }

    /// Hand out what was rendered since the last flush.
    pub fn flush(&mut self) -> (out: String)
        ensures
            out@ == old(self)@.text,
            final(self)@ == (Drawing { text: Seq::empty(), ..old(self)@ }),
    {
        let mut out = String::new();
        core::mem::swap(&mut out, &mut self.out);
        out
    }

    /// Render one scanned file. Binary and failed outcomes never reach the
    /// renderer; they are reported on stderr.
    pub fn write_result(&mut self, result: &FileResult)
        requires
            renderable(old(self)@.options, result@.matches),
        ensures
            final(self)@ == (Drawing {
                text: old(self)@.text + rendering(
                    old(self)@.layout(result.path@),
                    result@.matches,
                ),
                ..old(self)@
            }),
    {
        let path = result.path.as_str();
        let rendered = if self.options.json {
            self.write_json(result, path)
        } else if self.options.files_with_matches {
            if result.matches.len() > 0 {
                let mut line = self.palette.paint(self.palette.path, path);
                line.push('\n');
                line
            } else {
                String::new()
            }
        } else if self.options.count_only {
            self.write_count(result, path)
        } else if self.options.only_matching {
            self.write_only_matching(result, path)
        } else {
            self.write_lines(result, path)
        };
        self.out.push_str(rendered.as_str());
    }

    /// The count of selected lines, behind the path where it is shown.
    fn write_count(&self, result: &FileResult, path: &str) -> (out: String)
        requires
            !self@.options.json,
            !self@.options.files_with_matches,
            self@.options.count_only,
        ensures
            out@ == rendering(self@.layout(path@), result@.matches),
    {
        let mut out = String::new();
        if self.options.with_filename {
            out.push_str(self.palette.paint(self.palette.path, path).as_str());
            out.push(':');
        }
        let size: usize = result.matches.len();
        text::push_decimal(&mut out, size as u128);
        out.push('\n');
        assert(out@ =~= rendering(self@.layout(path@), result@.matches));
        out
    }

    /// Full-line rendering with context windows and `--` separators.
    fn write_lines(&self, result: &FileResult, path: &str) -> (out: String)
        ensures
            out@ == lines_text(self@.layout(path@), result@.matches),
    {
        let ghost layout = self@.layout(path@);
        let ghost all = result@.matches;
        let ghost colors = layout.colors;
        let mut out = String::new();
        let mut last: Option<u64> = None;
        let size: usize = result.matches.len();
        let mut i: usize = 0;
        assert(page_of(out@, last) =~= blank());
        while i < size
            invariant
                layout == self@.layout(path@),
                all == result@.matches,
                colors == layout.colors,
                i <= size,
                size == all.len() == result.matches@.len(),
                page_of(out@, last) == filled(
                    blank(),
                    rows(layout, all, i as int),
                    colors,
                ),
            decreases all.len() - i,
        {
            let entry = &result.matches[i];
            let ghost before = before_rows(layout, all, i as int);
            let ghost after = after_rows(layout, all, i as int);
            let ghost start = page_of(out@, last);
            assert(all[i as int] == entry@);
            let mut k: usize = 0;
            assert(before.take(0) =~= Seq::<Row>::empty());
            while k < entry.before.len()
                invariant
                    layout == self@.layout(path@),
                    colors == layout.colors,
                    all[i as int] == entry@,
                    before == before_rows(layout, all, i as int),
                    k <= entry.before@.len(),
                    page_of(out@, last) == filled(
                        start,
                        before.take(k as int),
                        colors,
                    ),
                decreases entry.before@.len() - k,
            {
                proof {
                    lemma_filled_next(start, before, k as int, colors);
                }
                assert(before[k as int] == context_row(layout, entry.before@[k as int]@));
                self.write_context_line(path, &entry.before[k], &mut out, &mut last);
                k += 1;
            }
            assert(before.take(k as int) =~= before);
            self.write_match_line(path, entry, &mut out, &mut last);
            let ghost middle = page_of(out@, last);
            let mut k: usize = 0;
            assert(after.take(0) =~= Seq::<Row>::empty());
            while k < entry.after.len()
                invariant
                    layout == self@.layout(path@),
                    colors == layout.colors,
                    i < size,
                    all == result@.matches,
                    size == all.len() == result.matches@.len(),
                    all[i as int] == entry@,
                    after == after_rows(layout, all, i as int),
                    k <= entry.after@.len(),
                    page_of(out@, last) == filled(
                        middle,
                        after.take(k as int),
                        colors,
                    ),
                decreases entry.after@.len() - k,
            {
                proof {
                    lemma_filled_next(middle, after, k as int, colors);
                }
                let line = &entry.after[k];
                assert(after[k as int] == after_row(layout, all, i as int, line@));
                match find_upcoming(&result.matches, i + 1, line.number) {
                    Some(j) => {
                        assert(all[j as int] == result.matches@[j as int]@);
                        self.write_match_line(path, &result.matches[j], &mut out, &mut last);
                    },
                    None => self.write_context_line(path, line, &mut out, &mut last),
                }
                k += 1;
            }
            proof {
                assert(after.take(k as int) =~= after);
                lemma_filled_window(
                    layout,
                    all,
                    i as int,
                    start,
                    middle,
                    page_of(out@, last),
                );
            }
            i += 1;
        }
        out
    }

    /// Print one context line, unless the previous window already covered
    /// it; emits the separator when the window jumps.
    fn write_context_line(
        &self,
        path: &str,
        line: &ContextLine,
        out: &mut String,
        last: &mut Option<u64>,
    )
        ensures
            page_of(final(out)@, *final(last)) == extended(
                page_of(old(out)@, *old(last)),
                context_row(self@.layout(path@), line@),
                self@.colors,
            ),
    {
        let ghost start = out@;
        if !self.advance_window(line.number, out, last) {
            return;
        }
        let ghost middle = out@;
        out.push_str(self.line_prefix(path, line.offset, line.number, '-').as_str());
        out.push_str(line.text.as_str());
        out.push('\n');
        proof {
            assert(out@ =~= middle + context_row(self@.layout(path@), line@).text);
        }
        *last = Some(line.number);
    }

    /// Print one matching line (with highlighting), unless the previous
    /// window already covered it.
    fn write_match_line(
        &self,
        path: &str,
        entry: &MatchLine,
        out: &mut String,
        last: &mut Option<u64>,
    )
        ensures
            page_of(final(out)@, *final(last)) == extended(
                page_of(old(out)@, *old(last)),
                match_row(self@.layout(path@), entry@),
                self@.colors,
            ),
    {
        if !self.advance_window(entry.number, out, last) {
            return;
        }
        let ghost middle = out@;
        out.push_str(self.line_prefix(path, entry.offset, entry.number, ':').as_str());
        out.push_str(
            highlight::highlight_line(
                entry.text.as_str(),
                entry.spans.as_slice(),
                &self.palette,
            ).as_str(),
        );
        out.push('\n');
        proof {
            assert(out@ =~= middle + match_row(self@.layout(path@), entry@).text);
        }
        *last = Some(entry.number);
    }

    /// Decide whether `number` still needs printing after the window that
    /// ended at `*last`. Returns `false` when the line is already covered;
    /// emits the `--` separator across gaps.
    fn advance_window(&self, number: u64, out: &mut String, last: &Option<u64>) -> (needed: bool)
        ensures
            match *last {
                Some(previous) => {
                    &&& needed == (number > previous)
                    &&& final(out)@ == (if number > previous + 1 {
                        old(out)@ + separator(self@.colors)
                    } else {
                        old(out)@
                    })
                },
                None => needed && final(out)@ == old(out)@,
            },
    {
        match *last {
            Some(previous) => {
                if number <= previous {
                    return false;
                }
                if number - previous > 1 {
                    self.write_separator(out);
                }
            },
            None => {},
        }
        true
    }

    /// The classic `--` separator between non-adjacent groups.
    fn write_separator(&self, out: &mut String)
        ensures
            final(out)@ == old(out)@ + separator(self@.colors),
    {
        let ghost start = out@;
        out.push_str(self.palette.paint(self.palette.separator, "--").as_str());
        out.push('\n');
        assert(out@ =~= start + separator(self@.colors));
    }

    /// `--only-matching`: one row per span, each carrying its own prefix.
    /// Context flags are ignored in this mode.
    fn write_only_matching(&self, result: &FileResult, path: &str) -> (out: String)
        requires
            !self@.options.json,
            forall|k: int|
                0 <= k < result@.matches.len() ==> sound_entry(
                    self@.options,
                    #[trigger] result@.matches[k],
                ),
        ensures
            out@ == parts_text(
                self@.layout(path@),
                result@.matches,
                result@.matches.len() as int,
            ),
    {
        let ghost layout = self@.layout(path@);
        let ghost all = result@.matches;
        let mut out = String::new();
        let mut i: usize = 0;
        while i < result.matches.len()
            invariant
                !self@.options.json,
                layout == self@.layout(path@),
                all == result@.matches,
                all.len() == result.matches@.len(),
                forall|k: int|
                    0 <= k < all.len() ==> sound_entry(self@.options, #[trigger] all[k]),
                i <= all.len(),
                out@ == parts_text(layout, all, i as int),
            decreases all.len() - i,
        {
            let entry = &result.matches[i];
            let ghost earlier = out@;
            assert(all[i as int] == entry@);
            let mut k: usize = 0;
            assert(out@ =~= earlier + span_rows(layout, entry@, 0));
            while k < entry.spans.len()
                invariant
                    !self@.options.json,
                    layout == self@.layout(path@),
                    sound_entry(self@.options, entry@),
                    k <= entry.spans@.len(),
                    out@ == earlier + span_rows(layout, entry@, k as int),
                decreases entry.spans@.len() - k,
            {
                let span = entry.spans[k];
                assert(entry@.spans[k as int] == semantics::span(span));
                self.write_span(path, entry, span, &mut out);
                proof {
                    assert(out@ =~= earlier + span_rows(layout, entry@, k + 1));
                }
                k += 1;
            }
            i += 1;
        }
        out
    }

    /// One matched part on a row of its own.
    fn write_span(&self, path: &str, entry: &MatchLine, span: (usize, usize), out: &mut String)
        requires
            span.0 <= span.1,
            entry.offset + byte_at(entry.text@, span.0 as int) <= usize::MAX,
        ensures
            final(out)@ == old(out)@ + span_row(
                self@.layout(path@),
                entry@,
                semantics::span(span),
            ),
    {
        let ghost before = out@;
        let matched = span_text(entry.text.as_str(), span);
        let start: usize = lines::byte_index_of_char(entry.text.as_str(), span.0);
        out.push_str(self.line_prefix(path, entry.offset + start, entry.number, ':').as_str());
        out.push_str(self.palette.paint(self.palette.matched, matched.as_str()).as_str());
        out.push('\n');
        assert(out@ =~= before + span_row(self@.layout(path@), entry@, semantics::span(span)));
    }

    /// JSON Lines rendering; mirrors the text modes one-to-one.
    fn write_json(&self, result: &FileResult, path: &str) -> (out: String)
        requires
            self@.options.json,
            renderable(self@.options, result@.matches),
        ensures
            out@ == json_text(self@.layout(path@), result@.matches),
    {
        let ghost all = result@.matches;
        let mut out = String::new();
        if self.options.files_with_matches {
            if result.matches.len() > 0 {
                let value = path_value(path);
                self.write_json_line(&value, &mut out);
                assert(out@ =~= path_text(path@) + seq!['\n']);
            }
            return out;
        }
        if self.options.count_only {
            let value = count_value(path, result.matches.len());
            self.write_json_line(&value, &mut out);
            assert(out@ =~= count_text(path@, all.len()) + seq!['\n']);
            return out;
        }
        let mut i: usize = 0;
        while i < result.matches.len()
            invariant
                self@.options.json,
                all == result@.matches,
                all.len() == result.matches@.len(),
                forall|k: int|
                    0 <= k < all.len() ==> sound_entry(self@.options, #[trigger] all[k]),
                i <= all.len(),
                out@ == entries_text(path@, all, i as int),
            decreases all.len() - i,
        {
            assert(all[i as int] == result.matches@[i as int]@);
            let value = entry_value(path, &result.matches[i], &self.options);
            self.write_json_line(&value, &mut out);
            i += 1;
        }
        out
    }

    /// Write one JSON object plus the line terminator.
    fn write_json_line(&self, value: &Json, out: &mut String)
        ensures
            final(out)@ == old(out)@ + json::written(*value) + seq!['\n'],
    {
        let ghost start = out@;
        out.push_str(value.to_json_string().as_str());
        out.push('\n');
        assert(out@ =~= start + json::written(*value) + seq!['\n']);
    }

    /// Assemble the `path:offset:number:marker` prefix in grep's order.
    fn line_prefix(&self, path: &str, offset: usize, number: u64, marker: char) -> (out: String)
        ensures
            out@ == prefix(self@.layout(path@), offset as nat, number as nat, marker),
    {
        let mut out = String::new();
        if self.options.with_filename {
            out.push_str(self.palette.paint(self.palette.path, path).as_str());
            out.push(':');
        }
        let ghost first = out@;
        if self.options.byte_offset {
            let spelled = text::decimal_string(offset as u128);
            out.push_str(
                self.palette.paint(self.palette.line_number, spelled.as_str()).as_str(),
            );
            out.push(marker);
        }
        let ghost second = out@;
        if self.options.line_numbers {
            let spelled = text::decimal_string(number as u128);
            out.push_str(
                self.palette.paint(self.palette.line_number, spelled.as_str()).as_str(),
            );
            out.push(marker);
        }
        assert(out@ =~= prefix(self@.layout(path@), offset as nat, number as nat, marker));
        out
    }
}

} // verus!
