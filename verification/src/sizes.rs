//! Human-readable size parsing and formatting.
//!
//! The `--min-size` / `--max-size` flags accept compact byte counts such as
//! `512`, `10k` or `2g`. The strict grammar lives in
//! [`crate::args::parse_size`]; this module is its rendering-side sibling:
//!
//! * [`parse_flexible`] accepts relaxed forms: decimal fractions (`1.5m`),
//!   unit words (`10 KiB`) and white space, so every size printed in the
//!   documentation parses back into a byte count.
//! * [`format_human`] renders byte counts with binary units (`KiB`, `MiB`,
//!   ...), matching the `--stats` table style.
//! * [`format_decimal`] renders byte counts with SI units (`kB`, `MB`, ...),
//!   the conventional style for *throughput* numbers.
//! * [`describe_bounds`] renders a `--min-size`/`--max-size` pair as one
//!   short phrase for the `--stats` diagnostics block.
//!
//! All multipliers are binary (k = 1024).

use vstd::prelude::*;

use crate::double;
use crate::double::decimal;
use crate::double::Double;
use crate::duration::Duration;
use crate::text;

pub mod laws;

verus! {

/// Example sizes rendered in the CLI help text.
pub const SIZE_EXAMPLES: &'static str = "512, 10k, 1.5m, 2gib";

/// A binary (power-of-two) size unit.
#[derive(Debug, Clone, Copy, PartialEq, Eq, Structural)]
pub enum SizeUnit {
    /// One byte.
    Byte,
    /// 1024 bytes.
    Kib,
    /// 1024² bytes.
    Mib,
    /// 1024³ bytes.
    Gib,
    /// 1024⁴ bytes.
    Tib,
}

/// The size of a unit in bytes.
pub open spec fn unit_size(unit: SizeUnit) -> nat {
    match unit {
        SizeUnit::Byte => 1,
        SizeUnit::Kib => 0x400,
        SizeUnit::Mib => 0x10_0000,
        SizeUnit::Gib => 0x4000_0000,
        SizeUnit::Tib => 0x100_0000_0000,
    }
}

/// The short label of a unit.
pub open spec fn unit_label(unit: SizeUnit) -> Seq<char> {
    match unit {
        SizeUnit::Byte => "B"@,
        SizeUnit::Kib => "KiB"@,
        SizeUnit::Mib => "MiB"@,
        SizeUnit::Gib => "GiB"@,
        SizeUnit::Tib => "TiB"@,
    }
}

/// The largest unit of which `bytes` holds at least one.
pub open spec fn best_unit(bytes: nat) -> SizeUnit {
    if bytes >= unit_size(SizeUnit::Tib) {
        SizeUnit::Tib
    } else if bytes >= unit_size(SizeUnit::Gib) {
        SizeUnit::Gib
    } else if bytes >= unit_size(SizeUnit::Mib) {
        SizeUnit::Mib
    } else if bytes >= unit_size(SizeUnit::Kib) {
        SizeUnit::Kib
    } else {
        SizeUnit::Byte
    }
}

impl SizeUnit {
    /// The unit's size in bytes.
    pub fn factor(self) -> (size: u64)
        ensures
            size == unit_size(self),
            size > 0,
    {
        match self {
            SizeUnit::Byte => 1,
            SizeUnit::Kib => 0x400,
            SizeUnit::Mib => 0x10_0000,
            SizeUnit::Gib => 0x4000_0000,
            SizeUnit::Tib => 0x100_0000_0000,
        }
    }

    /// The canonical short label, e.g. `"KiB"`.
    pub fn label(self) -> (text: &'static str)
        ensures
            text@ == unit_label(self),
    {
        match self {
            SizeUnit::Byte => "B",
            SizeUnit::Kib => "KiB",
            SizeUnit::Mib => "MiB",
            SizeUnit::Gib => "GiB",
            SizeUnit::Tib => "TiB",
        }
    }

    /// The largest binary unit in which `bytes` is at least 1.0.
    ///
    /// ```text
    /// best_for(1023)  == Byte
    /// best_for(1024)  == Kib
    /// best_for(5 MiB) == Mib
    /// ```
    pub fn best_for(bytes: u64) -> (unit: SizeUnit)
        ensures
            unit == best_unit(bytes as nat),
    {
        if bytes >= SizeUnit::Tib.factor() {
            SizeUnit::Tib
        } else if bytes >= SizeUnit::Gib.factor() {
            SizeUnit::Gib
        } else if bytes >= SizeUnit::Mib.factor() {
            SizeUnit::Mib
        } else if bytes >= SizeUnit::Kib.factor() {
            SizeUnit::Kib
        } else {
            SizeUnit::Byte
        }
    }
}

// ---------------------------------------------------------------------------
// Formatting
// ---------------------------------------------------------------------------

/// `bytes` with binary units: whole bytes, or the best unit with one decimal
/// digit.
pub open spec fn human(bytes: nat) -> Seq<char> {
    let unit = best_unit(bytes);
    let amount = if unit == SizeUnit::Byte {
        text::decimal(bytes)
    } else {
        double::one_decimal(double::quotient(bytes, unit_size(unit)))
    };
    amount + " "@ + unit_label(unit)
}

/// The largest SI unit of which `bytes` holds at least one, and its label.
pub open spec fn si_unit(bytes: nat) -> (nat, Seq<char>) {
    if bytes >= 1_000_000_000_000 {
        (1_000_000_000_000, "TB"@)
    } else if bytes >= 1_000_000_000 {
        (1_000_000_000, "GB"@)
    } else if bytes >= 1_000_000 {
        (1_000_000, "MB"@)
    } else {
        (1_000, "kB"@)
    }
}

/// `bytes` with SI units: whole bytes, or the best unit with one decimal
/// digit.
pub open spec fn decimal_text(bytes: nat) -> Seq<char> {
    if bytes < 1_000 {
        text::decimal(bytes) + " B"@
    } else {
        let (size, label) = si_unit(bytes);
        double::one_decimal(double::quotient(bytes, size)) + " "@ + label
    }
}

/// Bytes per second over a span of nanoseconds; zero over no time.
pub open spec fn rate(bytes: nat, nanos: nat) -> nat {
    if nanos == 0 {
        0
    } else {
        double::truncated(double::divide(double::whole(bytes), double::seconds(nanos)))
    }
}

/// Bytes per second over a span of time; zero over no time.
pub fn bytes_per_second(bytes: u64, elapsed: Duration) -> (out: u64)
    ensures
        out == rate(bytes as nat, elapsed@),
{
    if elapsed.as_secs() == 0 && elapsed.subsec_nanos() == 0 {
        return 0;
    }
    let seconds = Double::seconds(elapsed);
    Double::whole(bytes).over(seconds).truncate()
}

/// Render `bytes` with binary units: `0 B`, `999 B`, `1.5 KiB`, `3.0 MiB`.
///
/// Whole byte counts keep no decimals; every larger unit shows exactly one
/// decimal digit. This mirrors the `--stats` byte formatting.
pub fn format_human(bytes: u64) -> (out: String)
    ensures
        out@ == human(bytes as nat),
{
    let unit = SizeUnit::best_for(bytes);
    let mut out = String::new();
    if unit == SizeUnit::Byte {
        text::push_decimal(&mut out, bytes as u128);
    } else {
        double::push_one_decimal(&mut out, Double::quotient(bytes, unit.factor()));
    }
    out.push_str(" ");
    out.push_str(unit.label());
    assert(out@ =~= human(bytes as nat));
    out
}

/// Render `bytes` with SI (decimal) units: `999 B`, `1.5 kB`, `2.0 MB`.
///
/// Used for throughput figures, where SI units are the convention.
pub fn format_decimal(bytes: u64) -> (out: String)
    ensures
        out@ == decimal_text(bytes as nat),
{
    let mut out = String::new();
    if bytes < 1_000 {
        text::push_decimal(&mut out, bytes as u128);
        out.push_str(" B");
        assert(out@ =~= decimal_text(bytes as nat));
        return out;
    }
    let (size, label): (u64, &'static str) = if bytes >= 1_000_000_000_000 {
        (1_000_000_000_000, "TB")
    } else if bytes >= 1_000_000_000 {
        (1_000_000_000, "GB")
    } else if bytes >= 1_000_000 {
        (1_000_000, "MB")
    } else {
        (1_000, "kB")
    };
    double::push_one_decimal(&mut out, Double::quotient(bytes, size));
    out.push_str(" ");
    out.push_str(label);
    assert(out@ =~= decimal_text(bytes as nat));
    out
}

/// Render a byte throughput: `format_rate(2_000_000, 2s)` is `"1.0 MB/s"`.
///
/// A zero elapsed time yields `"0 B/s"` rather than an infinity.
pub fn format_rate(bytes: u64, elapsed: Duration) -> (out: String)
    ensures
        out@ == decimal_text(rate(bytes as nat, elapsed@)) + "/s"@,
{
    let per_second: u64 = bytes_per_second(bytes, elapsed);
    let mut out = format_decimal(per_second);
    out.push_str("/s");
    out
}

/// A size window as a phrase.
pub open spec fn bounds_phrase(min: Option<u64>, max: Option<u64>) -> Seq<char> {
    match (min, max) {
        (None, None) => "any size"@,
        (Some(low), None) => ">= "@ + human(low as nat),
        (None, Some(high)) => "<= "@ + human(high as nat),
        (Some(low), Some(high)) => human(low as nat) + " - "@ + human(high as nat),
    }
}

/// Render a `--min-size`/`--max-size` pair as one short human phrase.
///
/// Used by the `--stats` summary so users can see which size window a run
/// applied without re-deriving it from the raw byte counts.
pub fn describe_bounds(min: Option<u64>, max: Option<u64>) -> (out: String)
    ensures
        out@ == bounds_phrase(min, max),
{
    let mut out = String::new();
    match (min, max) {
        (None, None) => {
            out.push_str("any size");
        },
        (Some(low), None) => {
            out.push_str(">= ");
            out.push_str(format_human(low).as_str());
        },
        (None, Some(high)) => {
            out.push_str("<= ");
            out.push_str(format_human(high).as_str());
        },
        (Some(low), Some(high)) => {
            out.push_str(format_human(low).as_str());
            out.push_str(" - ");
            out.push_str(format_human(high).as_str());
        },
    }
    assert(out@ =~= bounds_phrase(min, max));
    out
}

// ---------------------------------------------------------------------------
// Parsing
// ---------------------------------------------------------------------------

/// `s` in ASCII lowercase, without its white space.
pub open spec fn cleaned(s: Seq<char>) -> Seq<char>
    decreases s.len(),
{
    if s.len() == 0 {
        Seq::empty()
    } else {
        let rest = cleaned(s.drop_last());
        if text::is_white(s.last()) {
            rest
        } else {
            rest.push(text::ascii_lower(s.last()))
        }
    }
}

/// A character of a decimal number.
pub open spec fn numeric(ch: char) -> bool {
    text::is_digit(ch) || ch == '.'
}

/// The end of the run of numeric characters from `from` on.
pub open spec fn numeric_end(s: Seq<char>, from: int) -> int
    decreases s.len() - from,
{
    if 0 <= from < s.len() && numeric(s[from]) {
        numeric_end(s, from + 1)
    } else {
        from
    }
}

/// The binary logarithm of what a suffix multiplies with.
pub open spec fn suffix_power(suffix: Seq<char>) -> Option<int> {
    if suffix == ""@ || suffix == "b"@ || suffix == "byte"@ || suffix == "bytes"@ {
        Some(0int)
    } else if suffix == "k"@ || suffix == "kb"@ || suffix == "kib"@ {
        Some(10int)
    } else if suffix == "m"@ || suffix == "mb"@ || suffix == "mib"@ {
        Some(20int)
    } else if suffix == "g"@ || suffix == "gb"@ || suffix == "gib"@ {
        Some(30int)
    } else if suffix == "t"@ || suffix == "tb"@ || suffix == "tib"@ {
        Some(40int)
    } else {
        None
    }
}

/// The value of a decimal number times `2^power`, cut off behind the point:
/// digits, with at most one decimal point among them.
pub open spec fn decimal_size(number: Seq<char>, power: int) -> Option<nat> {
    let dot = text::digits_end(number, 0);
    let before = number.take(dot);
    let behind = if dot < number.len() {
        number.skip(dot + 1)
    } else {
        Seq::empty()
    };
    let size = double::integer_part(decimal::spelled(before, behind).shifted(power));
    if before.len() + behind.len() > 0 && text::all_digits(behind) && size <= u64::MAX {
        Some(size)
    } else {
        None
    }
}

/// What a relaxed size stands for.
pub open spec fn flexible(s: Seq<char>) -> Option<nat> {
    let c = cleaned(s);
    let end = numeric_end(c, 0);
    match suffix_power(c.skip(end)) {
        Some(power) => decimal_size(c.take(end), power),
        None => None,
    }
}

fn clean(s: &str) -> (out: Vec<char>)
    ensures
        out@ == cleaned(s@),
{
    let chars = text::chars_of(s);
    let mut out: Vec<char> = Vec::new();
    let mut i: usize = 0;
    assert(chars@.take(0) =~= Seq::<char>::empty());
    while i < chars.len()
        invariant
            i <= chars@.len(),
            out@ == cleaned(chars@.take(i as int)),
        decreases chars@.len() - i,
    {
        assert(chars@.take(i + 1).drop_last() =~= chars@.take(i as int));
        if !text::white(chars[i]) {
            out.push(text::lower(chars[i]));
        }
        i += 1;
    }
    assert(chars@.take(i as int) =~= chars@);
    out
}

fn read_suffix(suffix: &str) -> (power: Option<i32>)
    ensures
        match power {
            Some(k) => suffix_power(suffix@) == Some(k as int) && 0 <= k <= 40,
            None => suffix_power(suffix@) is None,
        },
{
    if text::str_eq(suffix, "") || text::str_eq(suffix, "b") || text::str_eq(suffix, "byte")
        || text::str_eq(suffix, "bytes") {
        Some(0)
    } else if text::str_eq(suffix, "k") || text::str_eq(suffix, "kb") || text::str_eq(
        suffix,
        "kib",
    ) {
        Some(10)
    } else if text::str_eq(suffix, "m") || text::str_eq(suffix, "mb") || text::str_eq(
        suffix,
        "mib",
    ) {
        Some(20)
    } else if text::str_eq(suffix, "g") || text::str_eq(suffix, "gb") || text::str_eq(
        suffix,
        "gib",
    ) {
        Some(30)
    } else if text::str_eq(suffix, "t") || text::str_eq(suffix, "tb") || text::str_eq(
        suffix,
        "tib",
    ) {
        Some(40)
    } else {
        None
    }
}

/// Whether all of `chars[from..to]` are digits.
fn digits_only(chars: &[char], from: usize) -> (yes: bool)
    requires
        from <= chars@.len(),
    ensures
        yes == text::all_digits(chars@.skip(from as int)),
{
    let end = text::scan_digits(chars, from);
    proof {
        text::lemma_digits_end(chars@, from as int);
        let rest = chars@.skip(from as int);
        if end == chars@.len() {
            assert(chars@.subrange(from as int, end as int) =~= rest);
        } else {
            assert(!text::is_digit(rest[end - from]));
        }
    }
    end == chars.len()
}

/// Parse a relaxed human size, a superset of the strict CLI grammar.
///
/// Accepted forms (case-insensitive, all whitespace ignored):
///
/// * plain byte counts: `512`, `512B`, `512 bytes`
/// * binary multiples: `10k`, `10kb`, `10 KiB`, `1.5m`, `2gib`, `1t`
/// * decimal fractions for any multiplier: `0.5g`, `1.25 MiB`
///
/// Every multiplier is binary (`k` = 1024) to stay consistent with
/// [`crate::args::parse_size`]. Returns `None` for anything malformed or
/// overflowing `u64`.
pub fn parse_flexible(text: &str) -> (out: Option<u64>)
    ensures
        match out {
            Some(n) => flexible(text@) == Some(n as nat),
            None => flexible(text@) is None,
        },
{
    let c = clean(text);
    let mut end: usize = 0;
    while end < c.len() && (text::digit(c[end]) || c[end] == '.')
        invariant
            end <= c@.len(),
            numeric_end(c@, 0) == numeric_end(c@, end as int),
        decreases c@.len() - end,
    {
        end += 1;
    }
    let suffix = text::string_of(c.as_slice(), end, c.len());
    assert(suffix@ =~= c@.skip(end as int));
    let power: i32 = match read_suffix(suffix.as_str()) {
        Some(k) => k,
        None => {
            return None;
        },
    };
    let mut number = c;
    number.truncate(end);
    let ghost num = number@;
    assert(num =~= c@.take(end as int));
    let dot = text::scan_digits(number.as_slice(), 0);
    proof {
        text::lemma_digits_end(num, 0);
        assert(num.subrange(0, dot as int) =~= num.take(dot as int));
    }
    let mut before = text_slice(number.as_slice(), 0, dot);
    let behind = if dot < number.len() {
        text_slice(number.as_slice(), dot + 1, number.len())
    } else {
        Vec::new()
    };
    proof {
        assert(before@ =~= num.take(dot as int));
        if dot < num.len() {
            assert(behind@ =~= num.skip(dot + 1));
        }
        assert(behind@.skip(0) =~= behind@);
    }
    if before.len() == 0 && behind.len() == 0 {
        return None;
    }
    if !digits_only(behind.as_slice(), 0) {
        return None;
    }
    decimal::scaled(before.as_slice(), behind.as_slice(), power)
}

/// A copy of `chars[from..to]`.
fn text_slice(chars: &[char], from: usize, to: usize) -> (out: Vec<char>)
    requires
        from <= to <= chars@.len(),
    ensures
        out@ == chars@.subrange(from as int, to as int),
{
    let mut out: Vec<char> = Vec::new();
    let mut i: usize = from;
    while i < to
        invariant
            from <= i <= to <= chars@.len(),
            out@ == chars@.subrange(from as int, i as int),
        decreases to - i,
    {
        out.push(chars[i]);
        i += 1;
        assert(out@ =~= chars@.subrange(from as int, i as int));
    }
    out
}

} // verus!
