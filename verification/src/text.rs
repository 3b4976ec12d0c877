//! Strings as character sequences.
//!
//! Every other module states its contracts over `Seq<char>`, the view of a
//! string. This one holds the conversions between strings and character
//! vectors, decimal numbers, white space and the byte widths of UTF-8.

use vstd::prelude::*;
use vstd::utf8::*;

verus! {

/// `String::push` appends one character to the string.
pub assume_specification[ String::push ](s: &mut String, ch: char)
    ensures
        final(s)@ == old(s)@.push(ch),
;

/// `String::push_str` appends every character of `tail`, in order.
pub assume_specification[ String::push_str ](s: &mut String, tail: &str)
    ensures
        final(s)@ == old(s)@ + tail@,
;

// ---------------------------------------------------------------------------
// Characters and strings
// ---------------------------------------------------------------------------

/// The characters of `s`, in order.
pub fn chars_of(s: &str) -> (out: Vec<char>)
    ensures
        out@ == s@,
{
    let mut out: Vec<char> = Vec::new();
    for c in it: s.chars()
        invariant
            out@ == s@.take(it.index()),
            it.seq() == s@,
    {
        out.push(c);
    }
    out
}

/// The string made of `chars[from..to]`.
pub fn string_of(chars: &[char], from: usize, to: usize) -> (out: String)
    requires
        from <= to <= chars@.len(),
    ensures
        out@ == chars@.subrange(from as int, to as int),
{
    let mut out = String::new();
    let mut i: usize = from;
    while i < to
        invariant
            from <= i <= to <= chars@.len(),
            out@ == chars@.subrange(from as int, i as int),
        decreases to - i,
    {
        out.push(chars[i]);
        i += 1;
        proof {
            assert(chars@.subrange(from as int, i as int) =~= chars@.subrange(
                from as int,
                i - 1,
            ).push(chars@[i - 1]));
        }
    }
    out
}

/// Whether two character slices are equal.
pub fn chars_eq(left: &[char], right: &[char]) -> (same: bool)
    ensures
        same == (left@ == right@),
{
    if left.len() != right.len() {
        return false;
    }
    let mut i: usize = 0;
    while i < left.len()
        invariant
            i <= left@.len(),
            left@.len() == right@.len(),
            forall|k: int| 0 <= k < i ==> left@[k] == right@[k],
        decreases left@.len() - i,
    {
        if left[i] != right[i] {
            return false;
        }
        i += 1;
    }
    proof {
        assert(left@ =~= right@);
    }
    true
}

/// Whether two strings hold the same characters.
pub fn str_eq(a: &str, b: &str) -> (same: bool)
    ensures
        same == (a@ == b@),
{
    let left = chars_of(a);
    let right = chars_of(b);
    chars_eq(left.as_slice(), right.as_slice())
}

/// `s` contains the character `ch`.
pub open spec fn has_char(s: Seq<char>, ch: char) -> bool {
    exists|k: int| 0 <= k < s.len() && s[k] == ch
}

/// Whether `chars` contains `ch`.
pub fn contains_char(chars: &[char], ch: char) -> (found: bool)
    ensures
        found == has_char(chars@, ch),
{
    let mut i: usize = 0;
    while i < chars.len()
        invariant
            i <= chars@.len(),
            forall|k: int| 0 <= k < i ==> chars@[k] != ch,
        decreases chars@.len() - i,
    {
        if chars[i] == ch {
            return true;
        }
        i += 1;
    }
    false
}

// ---------------------------------------------------------------------------
// Decimal numbers
// ---------------------------------------------------------------------------

/// An ASCII digit, `'0'` to `'9'`.
pub open spec fn is_digit(ch: char) -> bool {
    '0' <= ch && ch <= '9'
}

/// Every character of `s` is an ASCII digit.
pub open spec fn all_digits(s: Seq<char>) -> bool {
    forall|k: int| 0 <= k < s.len() ==> is_digit(#[trigger] s[k])
}

/// The value of one ASCII digit.
pub open spec fn digit_value(ch: char) -> nat {
    (ch as int - '0' as int) as nat
}

/// The ASCII digit of value `d`.
pub open spec fn digit_char(d: nat) -> char {
    ('0' as int + d) as char
}

/// The number that a digit sequence spells in base ten.
pub open spec fn value_of(digits: Seq<char>) -> nat
    decreases digits.len(),
{
    if digits.len() == 0 {
        0
    } else {
        value_of(digits.drop_last()) * 10 + digit_value(digits.last())
    }
}

/// The base-ten spelling of `n`, without leading zeros.
pub open spec fn decimal(n: nat) -> Seq<char>
    decreases n,
{
    if n < 10 {
        seq![digit_char(n)]
    } else {
        decimal(n / 10).push(digit_char(n % 10))
    }
}

/// The base-ten spelling of a possibly negative number.
pub open spec fn signed_decimal(n: int) -> Seq<char> {
    if n < 0 {
        seq!['-'] + decimal((-n) as nat)
    } else {
        decimal(n as nat)
    }
}

/// What a spelled unsigned number stands for: an optional `+`, then one or
/// more ASCII digits and nothing else.
pub open spec fn number(s: Seq<char>) -> Option<nat> {
    let digits = if s.len() > 0 && s[0] == '+' {
        s.drop_first()
    } else {
        s
    };
    if digits.len() > 0 && all_digits(digits) {
        Some(value_of(digits))
    } else {
        None
    }
}

/// [`number`], where numbers above `limit` count as malformed.
pub open spec fn number_upto(s: Seq<char>, limit: nat) -> Option<nat> {
    match number(s) {
        Some(n) => if n <= limit {
            Some(n)
        } else {
            None
        },
        None => None,
    }
}

/// Spelling a number and reading it back gives the number.
pub proof fn lemma_decimal_round_trip(n: nat)
    ensures
        decimal(n).len() > 0,
        all_digits(decimal(n)),
        value_of(decimal(n)) == n,
    decreases n,
{
    if n < 10 {
        let s = seq![digit_char(n)];
        assert(s.drop_last() =~= Seq::<char>::empty());
        assert(value_of(s.drop_last()) == 0);
    } else {
        lemma_decimal_round_trip(n / 10);
        let s = decimal(n / 10).push(digit_char(n % 10));
        assert(s.drop_last() =~= decimal(n / 10));
        assert forall|k: int| 0 <= k < s.len() implies is_digit(#[trigger] s[k]) by {
            if k < s.len() - 1 {
                assert(s[k] == decimal(n / 10)[k]);
            }
        }
    }
}

/// The value of a prefix never exceeds the value of the whole.
proof fn lemma_value_monotone(s: Seq<char>, k: int)
    requires
        0 <= k <= s.len(),
    ensures
        value_of(s.take(k)) <= value_of(s),
    decreases s.len() - k,
{
    if k < s.len() {
        lemma_value_monotone(s, k + 1);
        let next = s.take(k + 1);
        assert(next.drop_last() =~= s.take(k));
        assert(value_of(next) == value_of(s.take(k)) * 10 + digit_value(next.last()));
    } else {
        assert(s.take(k) =~= s);
    }
}

/// Append the base-ten spelling of `n`.
pub fn push_decimal(out: &mut String, n: u128)
    ensures
        final(out)@ == old(out)@ + decimal(n as nat),
    decreases n,
{
    let ghost before = out@;
    if n >= 10 {
        push_decimal(out, n / 10);
    }
    let digit: u8 = (n % 10) as u8;
    let ch: char = (48 + digit) as char;
    out.push(ch);
    proof {
        assert(ch == digit_char((n % 10) as nat));
        assert(out@ =~= before + decimal(n as nat));
    }
}

/// Digits without leading zeros spell their value.
proof fn lemma_spells_value(s: Seq<char>)
    requires
        s.len() > 0,
        all_digits(s),
        s.len() == 1 || s[0] != '0',
    ensures
        decimal(value_of(s)) == s,
        s.len() > 1 ==> value_of(s) >= 10,
    decreases s.len(),
{
    let rest = s.drop_last();
    let last = s.last();
    assert(is_digit(s[s.len() - 1]));
    assert(digit_char(digit_value(last)) == last);
    if s.len() == 1 {
        assert(value_of(rest) == 0);
        assert(s =~= seq![last]);
    } else {
        assert forall|k: int| 0 <= k < rest.len() implies is_digit(#[trigger] rest[k]) by {
            assert(is_digit(s[k]));
        }
        lemma_spells_value(rest);
        if rest.len() == 1 {
            assert(is_digit(s[0]));
            assert(rest.drop_last() =~= Seq::<char>::empty());
            assert(value_of(rest.drop_last()) == 0);
            assert(value_of(rest) == digit_value(s[0]));
            assert(value_of(rest) >= 1);
        }
        let (n, v) = (value_of(s), value_of(rest));
        assert(n / 10 == v && n % 10 == digit_value(last));
        assert(decimal(n) =~= s);
    }
}

/// A leading zero adds nothing.
proof fn lemma_leading_zero(s: Seq<char>)
    requires
        s.len() > 0,
        s[0] == '0',
    ensures
        value_of(s.skip(1)) == value_of(s),
    decreases s.len(),
{
    if s.len() == 1 {
        assert(s.skip(1) =~= Seq::<char>::empty());
        assert(s.drop_last() =~= Seq::<char>::empty());
        assert(value_of(s.drop_last()) == 0);
    } else {
        lemma_leading_zero(s.drop_last());
        assert(s.skip(1).drop_last() =~= s.drop_last().skip(1));
    }
}

/// Append the number that the digits `chars[from..to]` spell, without its
/// leading zeros.
pub fn push_number(out: &mut String, chars: &[char], from: usize, to: usize)
    requires
        from < to <= chars@.len(),
        all_digits(chars@.subrange(from as int, to as int)),
    ensures
        final(out)@ == old(out)@ + decimal(
            value_of(chars@.subrange(from as int, to as int)),
        ),
{
    let ghost before = out@;
    let ghost n = value_of(chars@.subrange(from as int, to as int));
    let mut start: usize = from;
    while start + 1 < to && chars[start] == '0'
        invariant
            from <= start < to <= chars@.len(),
            all_digits(chars@.subrange(start as int, to as int)),
            value_of(chars@.subrange(start as int, to as int)) == n,
        decreases to - start,
    {
        proof {
            let run = chars@.subrange(start as int, to as int);
            let shorter = chars@.subrange(start + 1, to as int);
            assert(run[0] == '0');
            lemma_leading_zero(run);
            assert(run.skip(1) =~= shorter);
            assert forall|k: int| 0 <= k < shorter.len() implies is_digit(
                #[trigger] shorter[k],
            ) by {
                assert(shorter[k] == run[k + 1]);
            }
        }
        start += 1;
    }
    let ghost run = chars@.subrange(start as int, to as int);
    proof {
        assert(run.len() == 1 || run[0] != '0');
        lemma_spells_value(run);
    }
    let digits = string_of(chars, start, to);
    out.push_str(digits.as_str());
    assert(out@ =~= before + decimal(n));
}

/// Append the base-ten spelling of a signed number.
pub fn push_signed(out: &mut String, n: i64)
    ensures
        final(out)@ == old(out)@ + signed_decimal(n as int),
{
    let ghost before = out@;
    let wide: i128 = n as i128;
    if wide < 0 {
        out.push('-');
        push_decimal(out, (-wide) as u128);
        proof {
            assert(out@ =~= before + signed_decimal(n as int));
        }
    } else {
        push_decimal(out, wide as u128);
    }
}

/// The base-ten spelling of `n` as a string of its own.
pub fn decimal_string(n: u128) -> (out: String)
    ensures
        out@ == decimal(n as nat),
{
    let mut out = String::new();
    push_decimal(&mut out, n);
    proof {
        assert(out@ =~= decimal(n as nat));
    }
    out
}

/// Whether `ch` is an ASCII digit.
pub fn digit(ch: char) -> (yes: bool)
    ensures
        yes == is_digit(ch),
{
    '0' <= ch && ch <= '9'
}

/// The index just past the run of digits that starts at `from`.
pub open spec fn digits_end(s: Seq<char>, from: int) -> int
    decreases s.len() - from,
{
    if 0 <= from < s.len() && is_digit(s[from]) {
        digits_end(s, from + 1)
    } else {
        from
    }
}

/// The run of digits is made of digits, stays in bounds and cannot be longer.
pub proof fn lemma_digits_end(s: Seq<char>, from: int)
    requires
        0 <= from <= s.len(),
    ensures
        from <= digits_end(s, from) <= s.len(),
        all_digits(s.subrange(from, digits_end(s, from))),
        digits_end(s, from) < s.len() ==> !is_digit(s[digits_end(s, from)]),
    decreases s.len() - from,
{
    if from < s.len() && is_digit(s[from]) {
        lemma_digits_end(s, from + 1);
        let end = digits_end(s, from + 1);
        let run = s.subrange(from, end);
        assert forall|k: int| 0 <= k < run.len() implies is_digit(#[trigger] run[k]) by {
            if k > 0 {
                assert(run[k] == s.subrange(from + 1, end)[k - 1]);
            }
        }
    }
}

/// Find the end of the run of digits that starts at `from`.
pub fn scan_digits(chars: &[char], from: usize) -> (end: usize)
    requires
        from <= chars@.len(),
    ensures
        end == digits_end(chars@, from as int),
        from <= end <= chars@.len(),
{
    let mut end: usize = from;
    while end < chars.len() && digit(chars[end])
        invariant
            from <= end <= chars@.len(),
            digits_end(chars@, from as int) == digits_end(chars@, end as int),
        decreases chars@.len() - end,
    {
        end += 1;
    }
    end
}

/// The value of `chars[from..to]`, all digits, unless it exceeds `limit`.
pub fn read_digits(chars: &[char], from: usize, to: usize, limit: u64) -> (value: Option<u64>)
    requires
        from <= to <= chars@.len(),
        all_digits(chars@.subrange(from as int, to as int)),
    ensures
        match value {
            Some(n) => n <= limit && n == value_of(chars@.subrange(from as int, to as int)),
            None => value_of(chars@.subrange(from as int, to as int)) > limit,
        },
{
    let ghost run = chars@.subrange(from as int, to as int);
    let mut total: u64 = 0;
    let mut i: usize = from;
    proof {
        assert(run.take(0) =~= Seq::<char>::empty());
    }
    while i < to
        invariant
            from <= i <= to <= chars@.len(),
            run == chars@.subrange(from as int, to as int),
            all_digits(run),
            total <= limit,
            total == value_of(run.take(i - from)),
        decreases to - i,
    {
        proof {
            let k = i - from;
            assert(run[k] == chars@[i as int]);
            assert(run.take(k + 1).drop_last() =~= run.take(k));
            assert(run.take(k + 1).last() == run[k]);
            lemma_value_monotone(run, k + 1);
        }
        let step: u64 = (chars[i] as u32 - '0' as u32) as u64;
        let next: u128 = total as u128 * 10 + step as u128;
        if next > limit as u128 {
            return None;
        }
        total = next as u64;
        i += 1;
    }
    proof {
        assert(run.take(to - from) =~= run);
    }
    Some(total)
}

/// Read an unsigned number: an optional `+`, then digits only.
pub fn read_number(chars: &[char], limit: u64) -> (value: Option<u64>)
    ensures
        match value {
            Some(n) => number_upto(chars@, limit as nat) == Some(n as nat),
            None => number_upto(chars@, limit as nat) is None,
        },
{
    let start: usize = if chars.len() > 0 && chars[0] == '+' {
        1
    } else {
        0
    };
    let ghost digits = chars@.subrange(start as int, chars@.len() as int);
    proof {
        if start == 1 {
            assert(digits =~= chars@.drop_first());
        } else {
            assert(digits =~= chars@);
        }
        lemma_digits_end(chars@, start as int);
    }
    let end = scan_digits(chars, start);
    if end < chars.len() || end == start {
        proof {
            if end < chars@.len() {
                assert(!is_digit(digits[end - start]));
            }
        }
        return None;
    }
    read_digits(chars, start, end, limit)
}

// ---------------------------------------------------------------------------
// White space
// ---------------------------------------------------------------------------

/// The Unicode `White_Space` characters.
pub open spec fn is_white(ch: char) -> bool {
    let c = ch as u32;
    ||| 0x9 <= c <= 0xd
    ||| c == 0x20
    ||| c == 0x85
    ||| c == 0xa0
    ||| c == 0x1680
    ||| 0x2000 <= c <= 0x200a
    ||| c == 0x2028
    ||| c == 0x2029
    ||| c == 0x202f
    ||| c == 0x205f
    ||| c == 0x3000
}

/// Whether `ch` has the Unicode `White_Space` property.
pub fn white(ch: char) -> (yes: bool)
    ensures
        yes == is_white(ch),
{
    let c: u32 = ch as u32;
    (0x9 <= c && c <= 0xd) || c == 0x20 || c == 0x85 || c == 0xa0 || c == 0x1680 || (0x2000 <= c
        && c <= 0x200a) || c == 0x2028 || c == 0x2029 || c == 0x202f || c == 0x205f || c == 0x3000
}

/// `s` without its leading white space.
pub open spec fn trim_start(s: Seq<char>) -> Seq<char>
    decreases s.len(),
{
    if s.len() > 0 && is_white(s[0]) {
        trim_start(s.drop_first())
    } else {
        s
    }
}

/// `s` without its trailing white space.
pub open spec fn trim_end(s: Seq<char>) -> Seq<char>
    decreases s.len(),
{
    if s.len() > 0 && is_white(s.last()) {
        trim_end(s.drop_last())
    } else {
        s
    }
}

/// `s` without the white space at both of its ends.
pub open spec fn trim(s: Seq<char>) -> Seq<char> {
    trim_end(trim_start(s))
}

/// The bounds of `chars[from..to]` once white space is cut off both ends.
pub fn trim_bounds(chars: &[char], from: usize, to: usize) -> (bounds: (usize, usize))
    requires
        from <= to <= chars@.len(),
    ensures
        from <= bounds.0 <= bounds.1 <= to,
        chars@.subrange(bounds.0 as int, bounds.1 as int) == trim(
            chars@.subrange(from as int, to as int),
        ),
{
    let ghost whole = chars@.subrange(from as int, to as int);
    let mut lo: usize = from;
    while lo < to && white(chars[lo])
        invariant
            from <= lo <= to <= chars@.len(),
            trim_start(whole) == trim_start(chars@.subrange(lo as int, to as int)),
        decreases to - lo,
    {
        proof {
            let rest = chars@.subrange(lo as int, to as int);
            assert(rest[0] == chars@[lo as int]);
            assert(rest.drop_first() =~= chars@.subrange(lo + 1, to as int));
        }
        lo += 1;
    }
    let ghost start = chars@.subrange(lo as int, to as int);
    proof {
        if lo < to {
            assert(start[0] == chars@[lo as int]);
        }
        assert(trim_start(whole) == start);
    }
    let mut hi: usize = to;
    while hi > lo && white(chars[hi - 1])
        invariant
            lo <= hi <= to <= chars@.len(),
            trim_end(start) == trim_end(chars@.subrange(lo as int, hi as int)),
        decreases hi,
    {
        proof {
            let rest = chars@.subrange(lo as int, hi as int);
            assert(rest.last() == chars@[hi - 1]);
            assert(rest.drop_last() =~= chars@.subrange(lo as int, hi - 1));
        }
        hi -= 1;
    }
    proof {
        let rest = chars@.subrange(lo as int, hi as int);
        if hi > lo {
            assert(rest.last() == chars@[hi - 1]);
        }
    }
    (lo, hi)
}

// ---------------------------------------------------------------------------
// Padding
// ---------------------------------------------------------------------------

/// `n` spaces.
pub open spec fn spaces(n: nat) -> Seq<char> {
    Seq::new(n, |k: int| ' ')
}

/// `s`, filled up with spaces to `width` characters.
pub open spec fn padded(s: Seq<char>, width: nat) -> Seq<char> {
    s + spaces(
        if s.len() < width {
            (width - s.len()) as nat
        } else {
            0
        },
    )
}

/// Appends `s`, filled up with spaces to `width` characters.
pub fn push_padded(out: &mut String, s: &str, width: usize)
    ensures
        final(out)@ == old(out)@ + padded(s@, width as nat),
{
    let ghost start = out@;
    out.push_str(s);
    let chars = chars_of(s);
    let mut have: usize = chars.len();
    assert(out@ =~= start + s@ + spaces(0));
    while have < width
        invariant
            s@.len() <= have,
            have <= width || have == s@.len(),
            out@ == start + s@ + spaces((have - s@.len()) as nat),
        decreases width - have,
    {
        out.push(' ');
        have += 1;
        assert(out@ =~= start + s@ + spaces((have - s@.len()) as nat));
    }
    assert(out@ =~= start + padded(s@, width as nat));
}

/// `s` behind as many spaces as fill `width` characters.
pub open spec fn indented(s: Seq<char>, width: nat) -> Seq<char> {
    spaces(
        if s.len() < width {
            (width - s.len()) as nat
        } else {
            0
        },
    ) + s
}

/// The number of characters of `s`.
pub fn char_count(s: &str) -> (n: usize)
    ensures
        n == s@.len(),
{
    chars_of(s).len()
}

/// Appends `s` behind as many spaces as fill `width` characters.
pub fn push_indented(out: &mut String, s: &str, width: usize)
    ensures
        final(out)@ == old(out)@ + indented(s@, width as nat),
{
    let ghost start = out@;
    let mut have: usize = char_count(s);
    assert(out@ =~= start + spaces(0));
    while have < width
        invariant
            s@.len() <= have,
            have <= width || have == s@.len(),
            out@ == start + spaces((have - s@.len()) as nat),
        decreases width - have,
    {
        out.push(' ');
        have += 1;
        assert(out@ =~= start + spaces((have - s@.len()) as nat));
    }
    out.push_str(s);
    assert(out@ =~= start + indented(s@, width as nat));
}

// ---------------------------------------------------------------------------
// Case
// ---------------------------------------------------------------------------

/// The ASCII lowercase mapping: `A` to `Z` become `a` to `z`.
pub open spec fn ascii_lower(ch: char) -> char {
    if 'A' <= ch && ch <= 'Z' {
        (ch as int + 32) as char
    } else {
        ch
    }
}

/// The ASCII lowercase form of `ch`.
pub fn lower(ch: char) -> (out: char)
    ensures
        out == ascii_lower(ch),
{
    if 'A' <= ch && ch <= 'Z' {
        (ch as u8 + 32) as char
    } else {
        ch
    }
}

// ---------------------------------------------------------------------------
// UTF-8 widths
// ---------------------------------------------------------------------------

/// The number of bytes `s` takes in UTF-8.
pub open spec fn byte_len(s: Seq<char>) -> nat {
    encode_utf8(s).len()
}

/// The number of bytes of one character in UTF-8.
pub open spec fn char_width(ch: char) -> nat {
    encode_scalar(ch as u32).len()
}

/// Encoding a concatenation concatenates the encodings.
pub proof fn lemma_encode_concat(a: Seq<char>, b: Seq<char>)
    ensures
        encode_utf8(a + b) == encode_utf8(a) + encode_utf8(b),
    decreases a.len(),
{
    if a.len() == 0 {
        assert(a + b =~= b);
        assert(encode_utf8(a) + encode_utf8(b) =~= encode_utf8(b));
    } else {
        lemma_encode_concat(a.drop_first(), b);
        assert((a + b).drop_first() =~= a.drop_first() + b);
        assert(encode_utf8(a + b) =~= encode_utf8(a) + encode_utf8(b));
    }
}

/// One more character adds its own width.
pub proof fn lemma_byte_len_push(s: Seq<char>, ch: char)
    ensures
        byte_len(s.push(ch)) == byte_len(s) + char_width(ch),
{
    let one = seq![ch];
    assert(s.push(ch) =~= s + one);
    lemma_encode_concat(s, one);
    assert(one.drop_first() =~= Seq::<char>::empty());
    assert(encode_utf8(one.drop_first()).len() == 0);
}

/// Splitting a string splits its byte length.
pub proof fn lemma_byte_len_split(s: Seq<char>, k: int)
    requires
        0 <= k <= s.len(),
    ensures
        byte_len(s) == byte_len(s.take(k)) + byte_len(s.skip(k)),
{
    assert(s.take(k) + s.skip(k) =~= s);
    lemma_encode_concat(s.take(k), s.skip(k));
}

/// The number of bytes of `ch` in UTF-8.
pub fn width(ch: char) -> (n: usize)
    ensures
        n == char_width(ch),
        1 <= n <= 4,
{
    let c: u32 = ch as u32;
    if c <= 0x7f {
        1
    } else if c <= 0x7ff {
        2
    } else if c <= 0xffff {
        3
    } else {
        4
    }
}

/// The number of bytes of `s`.
pub fn byte_count(s: &str) -> (n: usize)
    ensures
        n == byte_len(s@),
{
    s.as_bytes().len()
}

// ---------------------------------------------------------------------------
// Laws
// ---------------------------------------------------------------------------

/// Numbers are spelled in base ten, the last digit behind those of the tenth
/// part, and read back in the same way.
pub proof fn law_numbers_are_decimal(n: nat, d: nat, ch: char, s: Seq<char>)
    requires
        d < 10,
        ch as int == '0' as int + d,
    ensures
        decimal(d) == seq![ch],
        n > 0 ==> decimal(10 * n + d) == decimal(n).push(ch),
        value_of(Seq::empty()) == 0,
        value_of(s.push(ch)) == 10 * value_of(s) + d,
        value_of(decimal(n)) == n,
{
    lemma_decimal_round_trip(n);
    assert(s.push(ch).drop_last() =~= s);
    if n > 0 {
        assert((10 * n + d) / 10 == n && (10 * n + d) % 10 == d);
    }
}

/// A text is filled up to a width with spaces, behind it or in front of it; a
/// text that is as wide stays as it is.
pub proof fn law_columns_are_filled_with_spaces(s: Seq<char>, width: nat, k: int)
    ensures
        s.len() >= width ==> padded(s, width) == s && indented(s, width) == s,
        s.len() < width ==> padded(s, width).len() == width && indented(s, width).len() == width,
        padded(s, width).take(s.len() as int) == s,
        indented(s, width).skip(indented(s, width).len() - s.len()) == s,
        s.len() <= k < width ==> padded(s, width)[k] == ' ',
        0 <= k < width - s.len() ==> indented(s, width)[k] == ' ',
{
    assert(s.len() >= width ==> padded(s, width) =~= s && indented(s, width) =~= s);
    assert(padded(s, width).take(s.len() as int) =~= s);
    assert(indented(s, width).skip(indented(s, width).len() - s.len()) =~= s);
}

/// Trimming takes white space off both ends, and nothing else. Blanks, tabs,
/// carriage returns and newlines are white space; ASCII signs, digits and
/// letters are not.
pub proof fn law_trimming_takes_white_space_off(front: Seq<char>, s: Seq<char>, back: Seq<char>)
    requires
        forall|k: int| 0 <= k < front.len() ==> is_white(#[trigger] front[k]),
        forall|k: int| 0 <= k < back.len() ==> is_white(#[trigger] back[k]),
        s.len() > 0 ==> !is_white(s[0]) && !is_white(s.last()),
    ensures
        trim(front + s + back) == s,
        is_white(' ') && is_white('\t') && is_white('\r') && is_white('\n'),
        forall|ch: char| 0x21 <= ch as int <= 0x7e ==> !#[trigger] is_white(ch),
    decreases front.len() + back.len(),
{
    let all = front + s + back;
    if front.len() > 0 {
        let less = front.drop_first();
        assert forall|k: int| 0 <= k < less.len() implies is_white(#[trigger] less[k]) by {
            assert(is_white(front[k + 1]));
        }
        law_trimming_takes_white_space_off(less, s, back);
        assert(all[0] == front[0]);
        assert(all.drop_first() =~= less + s + back);
    } else if s.len() == 0 {
        assert(all =~= back);
        lemma_all_white(back);
        assert(s =~= Seq::<char>::empty());
    } else {
        assert(all =~= s + back);
        assert(all[0] == s[0]);
        lemma_white_end(s, back);
    }
}

proof fn lemma_all_white(s: Seq<char>)
    requires
        forall|k: int| 0 <= k < s.len() ==> is_white(#[trigger] s[k]),
    ensures
        trim_start(s).len() == 0,
        trim(s).len() == 0,
    decreases s.len(),
{
    if s.len() > 0 {
        let less = s.drop_first();
        assert forall|k: int| 0 <= k < less.len() implies is_white(#[trigger] less[k]) by {
            assert(is_white(s[k + 1]));
        }
        lemma_all_white(less);
    }
}

proof fn lemma_white_end(s: Seq<char>, back: Seq<char>)
    requires
        s.len() > 0,
        !is_white(s.last()),
        forall|k: int| 0 <= k < back.len() ==> is_white(#[trigger] back[k]),
    ensures
        trim_end(s + back) == s,
    decreases back.len(),
{
    let all = s + back;
    if back.len() > 0 {
        let less = back.drop_last();
        assert forall|k: int| 0 <= k < less.len() implies is_white(#[trigger] less[k]) by {
            assert(is_white(back[k]));
        }
        lemma_white_end(s, less);
        assert(all.last() == back[back.len() - 1]);
        assert(all.drop_last() =~= s + less);
    } else {
        assert(all =~= s);
    }
}

} // verus!
