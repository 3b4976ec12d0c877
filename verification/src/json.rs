//! Minimal JSON model and serializer.
//!
//! The `--json` output mode needs a tiny, dependency-free JSON writer. Rather
//! than formatting strings by hand all over the output layer, results are
//! first built into a [`Json`] tree and then serialized in one place. The
//! writer always produces compact, single-line JSON suitable for streaming
//! (one object per line, JSON-Lines style).

use vstd::prelude::*;

use crate::text;

verus! {

/// A JSON value. Object keys keep insertion order so output is deterministic.
#[derive(Debug, PartialEq)]
pub enum Json {
    /// The JSON `null` literal.
    Null,
    /// `true` / `false`.
    Bool(bool),
    /// A signed integer (line counts can never be negative, but the variant
    /// keeps the model generic).
    Int(i64),
    /// An unsigned integer, used for line numbers, byte counts, etc.
    Uint(u64),
    /// The spelling of a finite floating point number; `None` stands for a
    /// value that is not finite and serializes as `null`.
    Float(Option<String>),
    /// A UTF-8 string, escaped on write.
    Str(String),
    /// An ordered array.
    Array(Vec<Json>),
    /// An ordered mapping of keys to values.
    Object(Vec<(String, Json)>),
}

// ---------------------------------------------------------------------------
// Strings
// ---------------------------------------------------------------------------

/// A control character, which may not stand in a JSON text as it is.
pub open spec fn control(ch: char) -> bool {
    (ch as nat) < 0x20
}

/// The hexadecimal digit of value `d`.
pub open spec fn hex_digit(d: nat) -> char {
    if d < 10 {
        (48 + d) as char
    } else {
        (87 + d) as char
    }
}

/// The spelling of one character inside a JSON string.
pub open spec fn escaped_char(ch: char) -> Seq<char> {
    if ch == '"' || ch == '\\' {
        seq!['\\', ch]
    } else if ch == '\n' {
        seq!['\\', 'n']
    } else if ch == '\r' {
        seq!['\\', 'r']
    } else if ch == '\t' {
        seq!['\\', 't']
    } else if ch == '\u{08}' {
        seq!['\\', 'b']
    } else if ch == '\u{0C}' {
        seq!['\\', 'f']
    } else if control(ch) {
        seq!['\\', 'u', '0', '0', hex_digit(ch as nat / 16), hex_digit(ch as nat % 16)]
    } else {
        seq![ch]
    }
}

/// The spelling of a text inside a JSON string.
pub open spec fn escaped(s: Seq<char>) -> Seq<char>
    decreases s.len(),
{
    if s.len() == 0 {
        Seq::empty()
    } else {
        escaped_char(s[0]) + escaped(s.drop_first())
    }
}

/// A text as a JSON string literal.
pub open spec fn quoted(s: Seq<char>) -> Seq<char> {
    seq!['"'] + escaped(s) + seq!['"']
}

/// The hexadecimal digit of value `d`.
fn hex(d: u8) -> (ch: char)
    requires
        d < 16,
    ensures
        ch == hex_digit(d as nat),
{
    if d < 10 {
        (48 + d) as char
    } else {
        (87 + d) as char
    }
}

/// Appends the spelling of one character inside a JSON string.
fn push_escaped(out: &mut String, ch: char)
    ensures
        final(out)@ == old(out)@ + escaped_char(ch),
{
    let ghost before = out@;
    if ch == '"' || ch == '\\' {
        out.push('\\');
        out.push(ch);
    } else if ch == '\n' {
        out.push('\\');
        out.push('n');
    } else if ch == '\r' {
        out.push('\\');
        out.push('r');
    } else if ch == '\t' {
        out.push('\\');
        out.push('t');
    } else if ch == '\u{08}' {
        out.push('\\');
        out.push('b');
    } else if ch == '\u{0C}' {
        out.push('\\');
        out.push('f');
    } else if (ch as u32) < 0x20 {
        let code: u8 = (ch as u32) as u8;
        out.push('\\');
        out.push('u');
        out.push('0');
        out.push('0');
        out.push(hex(code / 16));
        out.push(hex(code % 16));
    } else {
        out.push(ch);
    }
    assert(out@ =~= before + escaped_char(ch));
}

/// Escape a string for embedding inside a JSON string literal.
///
/// Handles the two mandatory escapes (`"` and `\`), the five short control
/// escapes (`\b`, `\f`, `\n`, `\r`, `\t`) and emits every other control
/// character below `0x20` as `\u00XX`. All other characters (including any
/// valid UTF-8) are passed through unchanged.
pub fn escape_json(input: &str) -> (out: String)
    ensures
        out@ == escaped(input@),
{
    let chars = text::chars_of(input);
    let ghost s = input@;
    let mut out = String::new();
    let mut i: usize = 0;
    assert(s.skip(0) =~= s);
    assert(out@ + escaped(s) =~= escaped(s));
    while i < chars.len()
        invariant
            chars@ == s,
            i <= s.len(),
            out@ + escaped(s.skip(i as int)) == escaped(s),
        decreases s.len() - i,
    {
        let ghost before = out@;
        let ghost rest = s.skip(i as int);
        push_escaped(&mut out, chars[i]);
        proof {
            assert(rest.drop_first() =~= s.skip(i + 1));
            assert(out@ + escaped(s.skip(i + 1)) =~= before + escaped(rest));
        }
        i += 1;
    }
    assert(s.skip(i as int) =~= Seq::<char>::empty());
    assert(out@ + escaped(s.skip(i as int)) =~= out@);
    out
}

// ---------------------------------------------------------------------------
// Values
// ---------------------------------------------------------------------------

/// Some texts between commas, the first `k` of them.
pub open spec fn joined(parts: Seq<Seq<char>>, k: int) -> Seq<char>
    decreases k,
{
    if k <= 0 {
        Seq::empty()
    } else if k == 1 {
        parts[0]
    } else {
        joined(parts, k - 1) + seq![','] + parts[k - 1]
    }
}

/// The array of some written items.
pub open spec fn array_text(items: Seq<Seq<char>>) -> Seq<char> {
    seq!['['] + joined(items, items.len() as int) + seq![']']
}

/// A member of an object: its key and its written value.
pub open spec fn member_text(key: Seq<char>, value: Seq<char>) -> Seq<char> {
    quoted(key) + seq![':'] + value
}

/// The object of some written members.
pub open spec fn object_text(members: Seq<Seq<char>>) -> Seq<char> {
    seq!['{'] + joined(members, members.len() as int) + seq!['}']
}

/// The serialization of a value.
pub open spec fn written(value: Json) -> Seq<char>
    decreases value,
{
    match value {
        Json::Null => "null"@,
        Json::Bool(true) => "true"@,
        Json::Bool(false) => "false"@,
        Json::Int(n) => text::signed_decimal(n as int),
        Json::Uint(n) => text::decimal(n as nat),
        Json::Float(Some(spelling)) => spelling@,
        Json::Float(None) => "null"@,
        Json::Str(s) => quoted(s@),
        Json::Array(items) => array_text(item_texts(items@)),
        Json::Object(pairs) => object_text(member_texts(pairs@)),
    }
}

/// The serializations of some values.
pub open spec fn item_texts(items: Seq<Json>) -> Seq<Seq<char>>
    decreases items,
{
    Seq::new(
        items.len(),
        |k: int|
            if 0 <= k < items.len() {
                written(items[k])
            } else {
                Seq::empty()
            },
    )
}

/// The members of an object, written.
pub open spec fn member_texts(pairs: Seq<(String, Json)>) -> Seq<Seq<char>>
    decreases pairs,
{
    Seq::new(
        pairs.len(),
        |k: int|
            if 0 <= k < pairs.len() {
                member_text(pairs[k].0@, written(pairs[k].1))
            } else {
                Seq::empty()
            },
    )
}

impl Clone for Json {
    /// A value of the same serialization.
    fn clone(&self) -> (out: Json)
        ensures
            written(out) == written(*self),
        decreases self,
    {
        match self {
            Json::Null => Json::Null,
            Json::Bool(value) => Json::Bool(*value),
            Json::Int(n) => Json::Int(*n),
            Json::Uint(n) => Json::Uint(*n),
            Json::Float(Some(spelling)) => Json::Float(Some(spelling.clone())),
            Json::Float(None) => Json::Float(None),
            Json::Str(s) => Json::Str(s.clone()),
            Json::Array(items) => {
                let mut out: Vec<Json> = Vec::new();
                let mut i: usize = 0;
                while i < items.len()
                    invariant
                        self == Json::Array(*items),
                        i <= items@.len(),
                        out@.len() == i,
                        forall|k: int|
                            0 <= k < i ==> written(#[trigger] out@[k]) == written(items@[k]),
                    decreases items@.len() - i,
                {
                    assert(decreases_to!(*self => self->Array_0@[i as int]));
                    let item = items[i].clone();
                    out.push(item);
                    i += 1;
                }
                assert(item_texts(out@) =~= item_texts(items@));
                Json::Array(out)
            },
            Json::Object(pairs) => {
                let mut out: Vec<(String, Json)> = Vec::new();
                let mut i: usize = 0;
                while i < pairs.len()
                    invariant
                        self == Json::Object(*pairs),
                        i <= pairs@.len(),
                        out@.len() == i,
                        forall|k: int|
                            0 <= k < i ==> (#[trigger] out@[k]).0@ == pairs@[k].0@ && written(
                                out@[k].1,
                            ) == written(pairs@[k].1),
                    decreases pairs@.len() - i,
                {
                    assert(decreases_to!(*self => self->Object_0@[i as int].1));
                    let key = pairs[i].0.clone();
                    let value = pairs[i].1.clone();
                    out.push((key, value));
                    i += 1;
                }
                assert(member_texts(out@) =~= member_texts(pairs@));
                Json::Object(out)
            },
        }
    }
}

/// Appends a text as a JSON string literal.
fn push_quoted(out: &mut String, s: &str)
    ensures
        final(out)@ == old(out)@ + quoted(s@),
{
    let ghost before = out@;
    out.push('"');
    out.push_str(escape_json(s).as_str());
    out.push('"');
    assert(out@ =~= before + quoted(s@));
}

/// The members of an object: the keys with their values, in order.
pub open spec fn members(pairs: Seq<(&str, Json)>, kept: Seq<(String, Json)>) -> bool {
    &&& kept.len() == pairs.len()
    &&& forall|k: int|
        0 <= k < pairs.len() ==> (#[trigger] kept[k]).0@ == pairs[k].0@ && kept[k].1 == pairs[k].1
}

impl Json {
    /// Shorthand constructor for [`Json::Str`].
    pub fn string(value: &str) -> (out: Json)
        ensures
            out matches Json::Str(s) && s@ == value@,
    {
        Json::Str(value.to_owned())
    }

    /// Shorthand constructor for [`Json::Object`] that borrows the keys.
    pub fn object(pairs: Vec<(&str, Json)>) -> (out: Json)
        ensures
            out matches Json::Object(kept) && members(pairs@, kept@),
    {
        let ghost all = pairs@;
        let mut rest = pairs;
        let mut reversed: Vec<(String, Json)> = Vec::new();
        while rest.len() > 0
            invariant
                rest@.len() + reversed@.len() == all.len(),
                rest@ == all.take(rest@.len() as int),
                forall|k: int|
                    0 <= k < reversed@.len() ==> (#[trigger] reversed@[k]).0@ == all[all.len() - 1
                        - k].0@ && reversed@[k].1 == all[all.len() - 1 - k].1,
            decreases rest@.len(),
        {
            let last = rest.pop();
            if let Some((key, value)) = last {
                assert(all[rest@.len() as int] == (key, value));
                reversed.push((key.to_owned(), value));
            }
            assert(rest@ =~= all.take(rest@.len() as int));
        }
        let mut kept: Vec<(String, Json)> = Vec::new();
        let ghost back = reversed@;
        while reversed.len() > 0
            invariant
                back.len() == all.len(),
                reversed@ == back.take(reversed@.len() as int),
                reversed@.len() + kept@.len() == all.len(),
                forall|k: int|
                    0 <= k < back.len() ==> (#[trigger] back[k]).0@ == all[all.len() - 1 - k].0@
                        && back[k].1 == all[all.len() - 1 - k].1,
                forall|k: int|
                    0 <= k < kept@.len() ==> (#[trigger] kept@[k]).0@ == all[k].0@ && kept@[k].1
                        == all[k].1,
            decreases reversed@.len(),
        {
            let last = reversed.pop();
            if let Some(member) = last {
                assert(back[reversed@.len() as int] == member);
                kept.push(member);
            }
            assert(reversed@ =~= back.take(reversed@.len() as int));
        }
        Json::Object(kept)
    }

    /// Serialize the value into a compact single-line JSON string.
    pub fn to_json_string(&self) -> (out: String)
        ensures
            out@ == written(*self),
    {
        let mut out = String::new();
        self.write_into(&mut out);
        assert(out@ =~= written(*self));
        out
    }

    /// Recursive serializer writing into an existing [`String`] buffer.
    fn write_into(&self, out: &mut String)
        ensures
            final(out)@ == old(out)@ + written(*self),
        decreases self,
    {
        let ghost start = out@;
        match self {
            Json::Null => out.push_str("null"),
            Json::Bool(true) => out.push_str("true"),
            Json::Bool(false) => out.push_str("false"),
            Json::Int(n) => text::push_signed(out, *n),
            Json::Uint(n) => text::push_decimal(out, *n as u128),
            Json::Float(Some(spelling)) => out.push_str(spelling.as_str()),
            Json::Float(None) => out.push_str("null"),
            Json::Str(s) => push_quoted(out, s.as_str()),
            Json::Array(items) => {
                out.push('[');
                let mut i: usize = 0;
                let ghost parts = item_texts(items@);
                assert(out@ =~= start + seq!['['] + joined(parts, 0));
                while i < items.len()
                    invariant
                        self == Json::Array(*items),
                        i <= items@.len(),
                        parts == item_texts(items@),
                        out@ == start + seq!['['] + joined(parts, i as int),
                    decreases items@.len() - i,
                {
                    assert(decreases_to!(*self => self->Array_0@[i as int]));
                    if i > 0 {
                        out.push(',');
                    }
                    items[i].write_into(out);
                    assert(parts[i as int] == written(items@[i as int]));
                    assert(out@ =~= start + seq!['['] + joined(parts, i + 1));
                    i += 1;
                }
                out.push(']');
                assert(out@ =~= start + written(*self));
            },
            Json::Object(pairs) => {
                out.push('{');
                let mut i: usize = 0;
                let ghost parts = member_texts(pairs@);
                assert(out@ =~= start + seq!['{'] + joined(parts, 0));
                while i < pairs.len()
                    invariant
                        self == Json::Object(*pairs),
                        i <= pairs@.len(),
                        parts == member_texts(pairs@),
                        out@ == start + seq!['{'] + joined(parts, i as int),
                    decreases pairs@.len() - i,
                {
                    assert(decreases_to!(*self => self->Object_0@[i as int].1));
                    if i > 0 {
                        out.push(',');
                    }
                    push_quoted(out, pairs[i].0.as_str());
                    out.push(':');
                    pairs[i].1.write_into(out);
                    proof {
                        let (key, value) = pairs@[i as int];
                        assert(parts[i as int] == member_text(key@, written(value)));
                        assert(out@ =~= start + seq!['{'] + joined(parts, i + 1));
                    }
                    i += 1;
                }
                out.push('}');
                assert(out@ =~= start + written(*self));
            },
        }
    }
}

// ---------------------------------------------------------------------------
// Laws
// ---------------------------------------------------------------------------

/// The value of a lowercase hexadecimal digit.
pub open spec fn hex_value(ch: char) -> Option<nat> {
    if '0' <= ch && ch <= '9' {
        Some((ch as nat - 48) as nat)
    } else if 'a' <= ch && ch <= 'f' {
        Some((ch as nat - 87) as nat)
    } else {
        None
    }
}

/// What a short escape stands for.
pub open spec fn short_escape(ch: char) -> Option<char> {
    if ch == '"' || ch == '\\' {
        Some(ch)
    } else if ch == 'n' {
        Some('\n')
    } else if ch == 'r' {
        Some('\r')
    } else if ch == 't' {
        Some('\t')
    } else if ch == 'b' {
        Some('\u{08}')
    } else if ch == 'f' {
        Some('\u{0C}')
    } else {
        None
    }
}

/// The first character that the inside of a JSON string spells and the length
/// of its spelling; `None` where a quote, a control character or an unknown
/// escape stands there.
pub open spec fn unescaped_char(t: Seq<char>) -> Option<(char, int)> {
    if t.len() == 0 || t[0] == '"' || control(t[0]) {
        None
    } else if t[0] != '\\' {
        Some((t[0], 1))
    } else if t.len() >= 2 && short_escape(t[1]) is Some {
        Some((short_escape(t[1])->0, 2))
    } else if t.len() >= 6 && t[1] == 'u' && t[2] == '0' && t[3] == '0' && hex_value(t[4]) is Some
        && hex_value(t[5]) is Some {
        Some(((hex_value(t[4])->0 * 16 + hex_value(t[5])->0) as char, 6))
    } else {
        None
    }
}

/// The text that the inside of a JSON string spells.
pub open spec fn unescaped(t: Seq<char>) -> Option<Seq<char>>
    decreases t.len(),
{
    if t.len() == 0 {
        Some(Seq::empty())
    } else {
        match unescaped_char(t) {
            Some((ch, n)) => if 0 < n <= t.len() {
                match unescaped(t.skip(n)) {
                    Some(rest) => Some(seq![ch] + rest),
                    None => None,
                }
            } else {
                None
            },
            None => None,
        }
    }
}

proof fn lemma_unescaped_char(ch: char, rest: Seq<char>)
    ensures
        unescaped_char(escaped_char(ch) + rest) == Some((ch, escaped_char(ch).len() as int)),
{
    let e = escaped_char(ch);
    let t = e + rest;
    assert(forall|k: int| 0 <= k < e.len() ==> t[k] == e[k]);
    if control(ch) && e.len() == 6 {
        let code = ch as nat;
        assert(hex_value(hex_digit(code / 16)) == Some(code / 16));
        assert(hex_value(hex_digit(code % 16)) == Some(code % 16));
        assert(code / 16 * 16 + code % 16 == code);
    }
}

/// Escaping loses nothing: what a JSON reader makes of the inside of the
/// string literal is the text that was written.
pub proof fn law_escaping_can_be_undone(s: Seq<char>)
    ensures
        unescaped(escaped(s)) == Some(s),
    decreases s.len(),
{
    if s.len() > 0 {
        let e = escaped_char(s[0]);
        let rest = escaped(s.drop_first());
        law_escaping_can_be_undone(s.drop_first());
        lemma_unescaped_char(s[0], rest);
        assert((e + rest).skip(e.len() as int) =~= rest);
        assert(seq![s[0]] + s.drop_first() =~= s);
    }
}

/// A text without control characters: it holds no line break.
pub open spec fn one_line(t: Seq<char>) -> bool {
    forall|k: int| 0 <= k < t.len() ==> !control(#[trigger] t[k])
}

/// The spellings of the floating point numbers in a value hold no control
/// character.
pub open spec fn plain(value: Json) -> bool
    decreases value, 0int,
{
    match value {
        Json::Float(Some(spelling)) => one_line(spelling@),
        Json::Array(items) => plain_items(items@, items@.len() as int),
        Json::Object(pairs) => plain_pairs(pairs@, pairs@.len() as int),
        _ => true,
    }
}

/// [`plain`] of the first `k` items.
pub open spec fn plain_items(items: Seq<Json>, k: int) -> bool
    decreases items, k,
{
    0 < k <= items.len() ==> plain_items(items, k - 1) && plain(items[k - 1])
}

/// [`plain`] of the first `k` members.
pub open spec fn plain_pairs(pairs: Seq<(String, Json)>, k: int) -> bool
    decreases pairs, k,
{
    0 < k <= pairs.len() ==> plain_pairs(pairs, k - 1) && plain(pairs[k - 1].1)
}

pub proof fn lemma_escaped_one_line(s: Seq<char>)
    ensures
        one_line(escaped(s)),
    decreases s.len(),
{
    if s.len() > 0 {
        lemma_escaped_one_line(s.drop_first());
        lemma_escaped_char_one_line(s[0]);
    }
}

proof fn lemma_escaped_char_one_line(ch: char)
    ensures
        one_line(escaped_char(ch)),
{
}

pub proof fn lemma_decimal_one_line(n: nat)
    ensures
        one_line(text::decimal(n)),
    decreases n,
{
    if n >= 10 {
        lemma_decimal_one_line(n / 10);
    }
}

/// Texts without control characters, between commas.
pub proof fn lemma_joined_one_line(parts: Seq<Seq<char>>, k: int)
    requires
        0 <= k <= parts.len(),
        forall|i: int| 0 <= i < parts.len() ==> one_line(#[trigger] parts[i]),
    ensures
        one_line(joined(parts, k)),
    decreases k,
{
    if k > 0 {
        lemma_joined_one_line(parts, k - 1);
        assert(one_line(parts[k - 1]));
        assert(one_line(parts[0]));
    }
}

/// Every value is written on a single line.
pub proof fn law_values_are_written_on_one_line(value: Json)
    requires
        plain(value),
    ensures
        one_line(written(value)),
    decreases value, 0int,
{
    reveal_strlit("null");
    reveal_strlit("true");
    reveal_strlit("false");
    match value {
        Json::Int(n) => {
            lemma_decimal_one_line(n as nat);
            lemma_decimal_one_line((-n) as nat);
        },
        Json::Uint(n) => lemma_decimal_one_line(n as nat),
        Json::Str(s) => lemma_escaped_one_line(s@),
        Json::Array(items) => lemma_items_one_line(items@, items@.len() as int),
        Json::Object(pairs) => lemma_pairs_one_line(pairs@, pairs@.len() as int),
        _ => {},
    }
}

proof fn lemma_items_one_line(items: Seq<Json>, k: int)
    requires
        0 <= k <= items.len(),
        plain_items(items, k),
    ensures
        one_line(joined(item_texts(items), k)),
    decreases items, k,
{
    if k > 0 {
        lemma_items_one_line(items, k - 1);
        law_values_are_written_on_one_line(items[k - 1]);
    }
}

proof fn lemma_pairs_one_line(pairs: Seq<(String, Json)>, k: int)
    requires
        0 <= k <= pairs.len(),
        plain_pairs(pairs, k),
    ensures
        one_line(joined(member_texts(pairs), k)),
    decreases pairs, k,
{
    if k > 0 {
        lemma_pairs_one_line(pairs, k - 1);
        law_values_are_written_on_one_line(pairs[k - 1].1);
        lemma_escaped_one_line(pairs[k - 1].0@);
    }
}

/// A text without quotes, backslashes and control characters is spelled as it
/// is.
pub proof fn lemma_plain(s: Seq<char>)
    requires
        forall|k: int| 0 <= k < s.len() ==> {
            &&& #[trigger] s[k] != '"'
            &&& s[k] != '\\'
            &&& s[k] as nat >= 0x20
        },
    ensures
        escaped(s) == s,
    decreases s.len(),
{
    if s.len() > 0 {
        lemma_plain(s.drop_first());
        assert(escaped(s) =~= s);
    } else {
        assert(escaped(s) =~= s);
    }
}

/// Texts are escaped character by character: a quote and a backslash get a
/// backslash in front, line breaks, tabs, backspaces and form feeds their
/// letters, other control characters their number in four digits, and every
/// other character stands for itself.
pub proof fn law_texts_are_escaped_by_character(a: Seq<char>, b: Seq<char>, ch: char)
    ensures
        escaped(Seq::empty()).len() == 0,
        escaped(a + b) == escaped(a) + escaped(b),
        escaped(seq!['"']) == seq!['\\', '"'],
        escaped(seq!['\\']) == seq!['\\', '\\'],
        escaped(seq!['\n']) == seq!['\\', 'n'],
        escaped(seq!['\r']) == seq!['\\', 'r'],
        escaped(seq!['\t']) == seq!['\\', 't'],
        escaped(seq!['\u{08}']) == seq!['\\', 'b'],
        escaped(seq!['\u{0C}']) == seq!['\\', 'f'],
        ch as nat >= 0x20 && ch != '"' && ch != '\\' ==> escaped(seq![ch]) == seq![ch],
        (ch as nat) < 0x20 && ch != '\n' && ch != '\r' && ch != '\t' && ch as nat != 0x08
            && ch as nat != 0x0c ==> {
            let spelled = escaped(seq![ch]);
            &&& spelled.len() == 6
            &&& spelled.take(4) == seq!['\\', 'u', '0', '0']
            &&& spelled[4] == if (ch as nat) < 0x10 { '0' } else { '1' }
            &&& spelled[5] as int == if ch as int % 16 < 10 {
                '0' as int + ch as int % 16
            } else {
                'a' as int + ch as int % 16 - 10
            }
        },
    decreases a.len(),
{
    lemma_escaped_one('"');
    lemma_escaped_one('\\');
    lemma_escaped_one('\n');
    lemma_escaped_one('\r');
    lemma_escaped_one('\t');
    lemma_escaped_one('\u{08}');
    lemma_escaped_one('\u{0C}');
    lemma_escaped_one(ch);
    if (ch as nat) < 0x20 {
        assert(escaped_char(ch).len() == 6 ==> escaped_char(ch).take(4) =~= seq![
            '\\',
            'u',
            '0',
            '0',
        ]);
    }
    if a.len() == 0 {
        assert(a + b =~= b);
        assert(escaped(a) + escaped(b) =~= escaped(b));
    } else {
        law_texts_are_escaped_by_character(a.drop_first(), b, ch);
        assert((a + b).drop_first() =~= a.drop_first() + b);
        assert(escaped_char(a[0]) + (escaped(a.drop_first()) + escaped(b)) =~= escaped_char(a[0])
            + escaped(a.drop_first()) + escaped(b));
    }
}

proof fn lemma_escaped_one(ch: char)
    ensures
        escaped(seq![ch]) == escaped_char(ch),
{
    assert(seq![ch].drop_first() =~= Seq::<char>::empty());
    assert(escaped(seq![ch].drop_first()) =~= Seq::<char>::empty());
    assert(escaped_char(ch) + Seq::<char>::empty() =~= escaped_char(ch));
}

proof fn lemma_joined_prefix(a: Seq<Seq<char>>, b: Seq<Seq<char>>, k: int)
    requires
        0 <= k <= a.len(),
    ensures
        joined(a + b, k) == joined(a, k),
    decreases k,
{
    if k > 0 {
        lemma_joined_prefix(a, b, k - 1);
        assert((a + b)[k - 1] == a[k - 1]);
        assert((a + b)[0] == a[0]);
    }
}

proof fn lemma_joined_parts(a: Seq<Seq<char>>, b: Seq<Seq<char>>, k: int)
    requires
        a.len() > 0,
        1 <= k <= b.len(),
    ensures
        joined(a + b, a.len() + k) == joined(a, a.len() as int) + seq![','] + joined(b, k),
    decreases k,
{
    let n = a.len() as int;
    assert((a + b)[n + k - 1] == b[k - 1]);
    if k == 1 {
        lemma_joined_prefix(a, b, n);
    } else {
        lemma_joined_parts(a, b, k - 1);
        assert(joined(a, n) + seq![','] + joined(b, k - 1) + seq![','] + b[k - 1] =~= joined(a, n)
            + seq![','] + (joined(b, k - 1) + seq![','] + b[k - 1]));
    }
}

/// Arrays and objects hold what they are made of, in order, with commas in
/// between and brackets around.
pub proof fn law_items_are_separated_by_commas(
    a: Seq<Seq<char>>,
    b: Seq<Seq<char>>,
    one: Seq<char>,
)
    requires
        a.len() > 0,
        b.len() > 0,
    ensures
        array_text(Seq::empty()) == seq!['[', ']'],
        object_text(Seq::empty()) == seq!['{', '}'],
        array_text(seq![one]) == seq!['['] + one + seq![']'],
        object_text(seq![one]) == seq!['{'] + one + seq!['}'],
        array_text(a + b) == array_text(a).drop_last() + seq![','] + array_text(b).skip(1),
        object_text(a + b) == object_text(a).drop_last() + seq![','] + object_text(b).skip(1),
{
    lemma_joined_parts(a, b, b.len() as int);
    assert(array_text(a).drop_last() =~= seq!['['] + joined(a, a.len() as int));
    assert(array_text(b).skip(1) =~= joined(b, b.len() as int) + seq![']']);
    assert(object_text(a).drop_last() =~= seq!['{'] + joined(a, a.len() as int));
    assert(object_text(b).skip(1) =~= joined(b, b.len() as int) + seq!['}']);
    assert(array_text(a + b) =~= array_text(a).drop_last() + seq![','] + array_text(b).skip(1));
    assert(object_text(a + b) =~= object_text(a).drop_last() + seq![','] + object_text(b).skip(1));
    assert(array_text(Seq::empty()) =~= seq!['[', ']']);
    assert(object_text(Seq::empty()) =~= seq!['{', '}']);
    assert(joined(seq![one], 1) == one);
}

/// Each kind of value is written as JSON has it: `null`, `true` and `false`,
/// numbers in decimal, texts as strings, arrays of what their items write, and
/// objects of key and value, in the order that they have.
pub proof fn law_values_are_written_by_kind(
    number: i64,
    count: u64,
    items: Vec<Json>,
    pairs: Vec<(String, Json)>,
    s: String,
)
    ensures
        written(Json::Null) == "null"@,
        written(Json::Float(None)) == "null"@,
        written(Json::Bool(true)) == "true"@,
        written(Json::Bool(false)) == "false"@,
        written(Json::Uint(count)) == text::decimal(count as nat),
        number >= 0 ==> written(Json::Int(number)) == text::decimal(number as nat),
        number < 0 ==> written(Json::Int(number)) == seq!['-'] + text::decimal(
            (0 - number) as nat,
        ),
        written(Json::Str(s)) == seq!['"'] + escaped(s@) + seq!['"'],
        ({
            let texts = Seq::new(items@.len(), |k: int| written(items@[k]));
            written(Json::Array(items)) == array_text(texts)
        }),
        ({
            let texts = Seq::new(
                pairs@.len(),
                |k: int|
                    seq!['"'] + escaped(pairs@[k].0@) + seq!['"', ':'] + written(pairs@[k].1),
            );
            written(Json::Object(pairs)) == object_text(texts)
        }),
{
    let texts = Seq::new(items@.len(), |k: int| written(items@[k]));
    assert(item_texts(items@) =~= texts);
    let members = Seq::new(
        pairs@.len(),
        |k: int| seq!['"'] + escaped(pairs@[k].0@) + seq!['"', ':'] + written(pairs@[k].1),
    );
    assert forall|k: int| 0 <= k < pairs@.len() implies #[trigger] member_texts(pairs@)[k]
        == members[k] by {
        assert(member_text(pairs@[k].0@, written(pairs@[k].1)) =~= members[k]);
    }
    assert(member_texts(pairs@) =~= members);
}

} // verus!
