//! What holds of sizes: how they are rounded, written and read.

use vstd::arithmetic::power2::*;
use vstd::prelude::*;

use crate::args::grammar;
use crate::double;
use crate::double::decimal;
use crate::double::{Binary, LEAST, LIMIT};
use crate::sizes;
use crate::sizes::SizeUnit;
use crate::text;

verus! {

// ---------------------------------------------------------------------------
// Exact values
// ---------------------------------------------------------------------------

/// `n / d` is `m * 2^k`.
spec fn amounts_to(n: nat, d: nat, m: nat, k: int) -> bool {
    if k >= 0 {
        n == m * d * pow2(k as nat)
    } else {
        n * pow2((-k) as nat) == m * d
    }
}

proof fn lemma_amounts_double(n: nat, d: nat, m: nat, k: int)
    requires
        amounts_to(n, d, m, k),
    ensures
        amounts_to(2 * n, d, m, k + 1),
        amounts_to(n, 2 * d, m, k - 1),
{
    if k >= 0 {
        let p = pow2(k as nat);
        lemma_pow2_unfold((k + 1) as nat);
        assert(2 * (m * d * p) == m * d * (2 * p)) by (nonlinear_arith);
        if k >= 1 {
            lemma_pow2_unfold(k as nat);
            let q = pow2((k - 1) as nat);
            assert(m * d * (2 * q) == m * (2 * d) * q) by (nonlinear_arith);
        } else {
            lemma2_to64();
            assert(m * d * 1 * 2 == m * (2 * d)) by (nonlinear_arith);
        }
    } else {
        let p = pow2((-k) as nat);
        lemma_pow2_unfold((-k) as nat);
        lemma_pow2_unfold((-k + 1) as nat);
        let q = pow2((-k - 1) as nat);
        if k == -1 {
            lemma2_to64();
            assert(2 * n == m * d * 1) by (nonlinear_arith)
                requires
                    n * 2 == m * d,
            ;
        } else {
            assert(2 * n * q == m * d) by (nonlinear_arith)
                requires
                    n * (2 * q) == m * d,
            ;
        }
        assert(n * (2 * p) == m * (2 * d)) by (nonlinear_arith)
            requires
                n * p == m * d,
        ;
    }
}

/// A value of 53 bits is its own nearest value.
proof fn lemma_nearest_exact(n: nat, d: nat, m: nat, k: int)
    requires
        d > 0,
        LEAST <= m < LIMIT,
        amounts_to(n, d, m, k),
    ensures
        double::nearest(n, d) == (Binary { m, e: k }),
    decreases double::distance(n, d),
{
    assert(n > 0) by {
        assert(m * d > 0) by (nonlinear_arith)
            requires
                m > 0,
                d > 0,
        ;
        if k >= 0 {
            lemma_pow2_pos(k as nat);
            let p = pow2(k as nat);
            assert(m * d * p > 0) by (nonlinear_arith)
                requires
                    m * d > 0,
                    p > 0,
            ;
        } else {
            let p = pow2((-k) as nat);
            assert(n * p == m * d);
            if n == 0 {
                assert(n * p == 0) by (nonlinear_arith)
                    requires
                        n == 0,
                ;
            }
        }
    }
    lemma_amounts_double(n, d, m, k);
    if n < LEAST * d {
        lemma_nearest_exact(2 * n, d, m, k + 1);
    } else if n >= LIMIT * d {
        lemma_nearest_exact(n, 2 * d, m, k - 1);
    } else {
        // The exponents agree, for otherwise the value would be out of range.
        if k > 0 {
            lemma_pow2_unfold(k as nat);
            let q = pow2((k - 1) as nat);
            lemma_pow2_pos((k - 1) as nat);
            assert(m * d * (2 * q) >= LIMIT * d) by (nonlinear_arith)
                requires
                    m >= LEAST,
                    LIMIT == 2 * LEAST,
                    q >= 1,
            ;
        } else if k < 0 {
            lemma_pow2_unfold((-k) as nat);
            let q = pow2((-k - 1) as nat);
            lemma_pow2_pos((-k - 1) as nat);
            assert(n < LEAST * d) by (nonlinear_arith)
                requires
                    n * (2 * q) == m * d,
                    m < LIMIT,
                    LIMIT == 2 * LEAST,
                    q >= 1,
                    d > 0,
            ;
        }
        assert(k == 0);
        lemma2_to64();
        assert(m * d * 1 == m * d) by (nonlinear_arith);
        vstd::arithmetic::div_mod::lemma_div_multiples_vanish(m as int, d as int);
        vstd::arithmetic::div_mod::lemma_mod_multiples_basic(m as int, d as int);
        assert(d * m == m * d) by (nonlinear_arith);
        assert(double::half_even(n, d) == m);
    }
}

/// How many bits a number is short of 53.
proof fn lemma_normal(n: nat) -> (j: nat)
    requires
        0 < n < LIMIT,
    ensures
        LEAST <= n * pow2(j) < LIMIT,
    decreases LIMIT - n,
{
    if n >= LEAST {
        lemma2_to64();
        assert(n * 1 == n) by (nonlinear_arith);
        0
    } else {
        let i = lemma_normal(2 * n);
        lemma_pow2_unfold(i + 1);
        let p = pow2(i);
        assert(2 * n * p == n * (2 * p)) by (nonlinear_arith);
        i + 1
    }
}

/// A number shifted up by as many bits as it is short of 53, and back.
proof fn lemma_back(n: nat, j: nat, p: nat)
    ensures
        j <= p ==> n * pow2(j) * pow2((p - j) as nat) == n * pow2(p),
        j >= p ==> n * pow2(p) * pow2((j - p) as nat) == n * pow2(j),
{
    if j <= p {
        lemma_pow2_adds(j, (p - j) as nat);
        let (a, b) = (pow2(j), pow2((p - j) as nat));
        assert(n * a * b == n * (a * b)) by (nonlinear_arith);
    }
    if j >= p {
        lemma_pow2_adds(p, (j - p) as nat);
        let (a, b) = (pow2(p), pow2((j - p) as nat));
        assert(n * a * b == n * (a * b)) by (nonlinear_arith);
    }
}

/// `n` units of `2^p` bytes, in those units, are `n`.
proof fn lemma_whole_units(n: nat, p: nat) -> (j: nat)
    requires
        0 < n < LIMIT,
    ensures
        LEAST <= n * pow2(j) < LIMIT,
        double::quotient(n * pow2(p), pow2(p)) == (Binary { m: n * pow2(j), e: -j }),
{
    let j = lemma_normal(n);
    let m = n * pow2(j);
    // The number of bytes.
    lemma_back(n, j, p);
    let bytes = n * pow2(p);
    assert(amounts_to(bytes, 1, m, p - j)) by {
        assert(m * 1 == m) by (nonlinear_arith);
    }
    lemma_nearest_exact(bytes, 1, m, p - j);
    // The size of the unit.
    lemma2_to64();
    lemma2_to64_rest();
    assert(LEAST == pow2(52));
    lemma_back(1, 52, p);
    assert(amounts_to(pow2(p), 1, LEAST as nat, p - 52)) by {
        let (a, b, c) = (pow2(52), pow2(p), LEAST as nat);
        assert(1 * a == a && 1 * b == b && c * 1 == c) by (nonlinear_arith);
    }
    lemma_nearest_exact(pow2(p), 1, LEAST as nat, p - 52);
    // Their quotient.
    assert(amounts_to(m, LEAST as nat, m, -52));
    lemma_nearest_exact(m, LEAST as nat, m, -52);
    j
}

/// Ten times a number over a power of two, rounded.
proof fn lemma_tenths(n: nat, j: nat)
    requires
        0 < n,
    ensures
        double::units(Binary { m: n * pow2(j), e: -j }, 10) == 10 * n,
{
    let p = pow2(j);
    lemma_pow2_pos(j);
    let m = n * p;
    assert(10 * m == 10 * n * p) by (nonlinear_arith)
        requires
            m == n * p,
    ;
    if j == 0 {
        lemma2_to64();
        assert(10 * m * 1 == 10 * n) by (nonlinear_arith)
            requires
                m == n * 1,
        ;
    } else {
        let t = 10 * n;
        assert(p * t == t * p) by (nonlinear_arith);
        vstd::arithmetic::div_mod::lemma_div_multiples_vanish(t as int, p as int);
        vstd::arithmetic::div_mod::lemma_mod_multiples_basic(t as int, p as int);
        assert(double::half_even(10 * m, p) == t);
    }
}

/// The integer part of `n * 2^p`.
proof fn lemma_integer(n: nat, j: nat, p: nat)
    requires
        0 < n,
        n * pow2(j) > 0,
    ensures
        double::integer_part((Binary { m: n * pow2(j), e: -j }).shifted(p as int)) == n * pow2(p),
{
    lemma_back(n, j, p);
    if j > p {
        let (t, q) = (n * pow2(p), pow2((j - p) as nat));
        lemma_pow2_pos((j - p) as nat);
        assert(q * t == t * q) by (nonlinear_arith);
        vstd::arithmetic::div_mod::lemma_div_multiples_vanish(t as int, q as int);
    }
}

// ---------------------------------------------------------------------------
// Texts
// ---------------------------------------------------------------------------

proof fn lemma_cleaned_concat(a: Seq<char>, b: Seq<char>)
    ensures
        sizes::cleaned(a + b) == sizes::cleaned(a) + sizes::cleaned(b),
    decreases b.len(),
{
    if b.len() == 0 {
        assert(a + b =~= a);
        assert(sizes::cleaned(a) + Seq::<char>::empty() =~= sizes::cleaned(a));
    } else {
        lemma_cleaned_concat(a, b.drop_last());
        assert((a + b).drop_last() =~= a + b.drop_last());
        assert(sizes::cleaned(a + b) =~= sizes::cleaned(a) + sizes::cleaned(b));
    }
}

proof fn lemma_cleaned_digits(s: Seq<char>)
    requires
        text::all_digits(s),
    ensures
        sizes::cleaned(s) == s,
    decreases s.len(),
{
    if s.len() > 0 {
        let rest = s.drop_last();
        assert forall|k: int| 0 <= k < rest.len() implies text::is_digit(#[trigger] rest[k]) by {
            assert(text::is_digit(s[k]));
        }
        lemma_cleaned_digits(rest);
        assert(text::is_digit(s[s.len() - 1]));
        assert(sizes::cleaned(s) =~= s);
    }
}

/// Where the digits of a number end that something else follows.
proof fn lemma_ends(digits: Seq<char>, rest: Seq<char>, i: int)
    requires
        text::all_digits(digits),
        0 <= i <= digits.len(),
    ensures
        rest.len() == 0 || !text::is_digit(rest[0]) ==> text::digits_end(digits + rest, i)
            == digits.len(),
    decreases digits.len() - i,
{
    let s = digits + rest;
    if i < digits.len() {
        assert(s[i] == digits[i]);
        assert(text::is_digit(digits[i]));
        lemma_ends(digits, rest, i + 1);
    } else if rest.len() > 0 {
        assert(s[i] == rest[0]);
    }
}

/// The spelling of a suffix, cleaned.
proof fn lemma_suffixes()
    ensures
        sizes::cleaned(" B"@) == "b"@,
        sizes::cleaned(" KiB"@) == "kib"@,
        sizes::cleaned(" MiB"@) == "mib"@,
        sizes::cleaned(" GiB"@) == "gib"@,
        sizes::cleaned(" TiB"@) == "tib"@,
{
    reveal_strlit(" B");
    reveal_strlit(" KiB");
    reveal_strlit(" MiB");
    reveal_strlit(" GiB");
    reveal_strlit(" TiB");
    reveal_strlit("b");
    reveal_strlit("kib");
    reveal_strlit("mib");
    reveal_strlit("gib");
    reveal_strlit("tib");
    reveal_with_fuel(sizes::cleaned, 5);
    assert(sizes::cleaned(" B"@) =~= "b"@);
    assert(sizes::cleaned(" KiB"@) =~= "kib"@);
    assert(sizes::cleaned(" MiB"@) =~= "mib"@);
    assert(sizes::cleaned(" GiB"@) =~= "gib"@);
    assert(sizes::cleaned(" TiB"@) =~= "tib"@);
}

/// `n` with a fraction of zero, in units of `2^p`.
proof fn lemma_reads_fraction(n: nat, p: nat)
    requires
        0 < n < LIMIT,
        n * pow2(p) <= u64::MAX,
    ensures
        sizes::decimal_size(text::decimal(n) + ".0"@, p as int) == Some(n * pow2(p)),
{
    let digits = text::decimal(n);
    let s = digits + ".0"@;
    reveal_strlit(".0");
    text::lemma_decimal_round_trip(n);
    lemma_ends(digits, ".0"@, 0);
    assert(s.take(digits.len() as int) =~= digits);
    let behind = seq!['0'];
    assert(s.skip(digits.len() as int + 1) =~= behind);
    assert((digits + behind).drop_last() =~= digits);
    assert(text::value_of(digits + behind) == n * 10);
    reveal_with_fuel(decimal::pow10, 2);
    let j = lemma_normal(n);
    let m = n * pow2(j);
    assert(amounts_to(n * 10, 10, m, -j)) by {
        let q = pow2(j);
        assert(n * 10 * q == n * q * 10) by (nonlinear_arith);
        lemma2_to64();
        if j == 0 {
            assert(q == 1);
            assert(n * 10 * 1 == n * 10);
            assert(m * 10 * 1 == m * 10);
        }
    }
    lemma_nearest_exact(n * 10, 10, m, -j);
    lemma_integer(n, j, p);
}

/// `n` without a fraction.
proof fn lemma_reads_whole(n: nat)
    requires
        n < LIMIT,
    ensures
        sizes::decimal_size(text::decimal(n), 0) == Some(n),
{
    let digits = text::decimal(n);
    text::lemma_decimal_round_trip(n);
    lemma_ends(digits, Seq::empty(), 0);
    assert(digits + Seq::<char>::empty() =~= digits);
    assert(digits.take(digits.len() as int) =~= digits);
    lemma2_to64();
    assert(decimal::pow10(0) == 1);
    if n > 0 {
        let j = lemma_normal(n);
        let m = n * pow2(j);
        assert(amounts_to(n, 1, m, -j)) by {
            assert(m * 1 == m);
        }
        lemma_nearest_exact(n, 1, m, -j);
        lemma_integer(n, j, 0);
        assert(n * 1 == n);
    } else {
        assert(0 * pow2(0) == 0);
    }
}

/// A suffix begins with a letter, and says which unit it means.
proof fn lemma_suffix_powers()
    ensures
        "b"@.len() > 0 && !sizes::numeric("b"@[0]),
        "kib"@.len() > 0 && !sizes::numeric("kib"@[0]),
        "mib"@.len() > 0 && !sizes::numeric("mib"@[0]),
        "gib"@.len() > 0 && !sizes::numeric("gib"@[0]),
        "tib"@.len() > 0 && !sizes::numeric("tib"@[0]),
        sizes::suffix_power("b"@) == Some(0int),
        sizes::suffix_power("kib"@) == Some(10int),
        sizes::suffix_power("mib"@) == Some(20int),
        sizes::suffix_power("gib"@) == Some(30int),
        sizes::suffix_power("tib"@) == Some(40int),
{
    reveal_strlit("");
    reveal_strlit("b");
    reveal_strlit("byte");
    reveal_strlit("bytes");
    reveal_strlit("k");
    reveal_strlit("kb");
    reveal_strlit("kib");
    reveal_strlit("m");
    reveal_strlit("mb");
    reveal_strlit("mib");
    reveal_strlit("g");
    reveal_strlit("gb");
    reveal_strlit("gib");
    reveal_strlit("t");
    reveal_strlit("tb");
    reveal_strlit("tib");
    let (k, m, g, t) = ("kib"@, "mib"@, "gib"@, "tib"@);
    // Only four suffixes have three characters, and the first tells them apart.
    assert(k[0] == 'k' && m[0] == 'm' && g[0] == 'g' && t[0] == 't');
    assert(""@.len() == 0 && "byte"@.len() == 4 && "bytes"@.len() == 5);
    assert("b"@.len() == 1 && "k"@.len() == 1 && "m"@.len() == 1);
    assert("g"@.len() == 1 && "t"@.len() == 1);
    assert("kb"@.len() == 2 && "mb"@.len() == 2 && "gb"@.len() == 2 && "tb"@.len() == 2);
    assert(k.len() == 3 && m.len() == 3 && g.len() == 3 && t.len() == 3);
}

/// The number and the suffix of a cleaned size are told apart.
proof fn lemma_splits(number: Seq<char>, suffix: Seq<char>)
    requires
        forall|k: int| 0 <= k < number.len() ==> sizes::numeric(#[trigger] number[k]),
        suffix.len() > 0,
        !sizes::numeric(suffix[0]),
    ensures
        sizes::numeric_end(number + suffix, 0) == number.len(),
        (number + suffix).take(number.len() as int) == number,
        (number + suffix).skip(number.len() as int) == suffix,
{
    lemma_numeric_run(number, suffix, 0);
    assert((number + suffix).take(number.len() as int) =~= number);
    assert((number + suffix).skip(number.len() as int) =~= suffix);
}

proof fn lemma_numeric_run(number: Seq<char>, suffix: Seq<char>, i: int)
    requires
        forall|k: int| 0 <= k < number.len() ==> sizes::numeric(#[trigger] number[k]),
        suffix.len() > 0,
        !sizes::numeric(suffix[0]),
        0 <= i <= number.len(),
    ensures
        sizes::numeric_end(number + suffix, i) == number.len(),
    decreases number.len() - i,
{
    let s = number + suffix;
    if i < number.len() {
        assert(s[i] == number[i]);
        lemma_numeric_run(number, suffix, i + 1);
    } else {
        assert(s[i] == suffix[0]);
    }
}

/// The amount that is written for `n` units.
proof fn lemma_amount(n: nat, p: nat)
    requires
        0 < n < LIMIT,
    ensures
        double::one_decimal(double::quotient(n * pow2(p), pow2(p))) == text::decimal(n) + ".0"@,
{
    let j = lemma_whole_units(n, p);
    lemma_tenths(n, j);
    assert((10 * n) / 10 == n && (10 * n) % 10 == 0);
    reveal_strlit(".");
    reveal_strlit(".0");
    assert("."@ + seq![text::digit_char(0)] =~= ".0"@);
    assert(text::decimal(n) + "."@ + seq![text::digit_char(0)] =~= text::decimal(n) + ".0"@);
}

/// The binary logarithm of a unit.
spec fn unit_power(unit: SizeUnit) -> nat {
    match unit {
        SizeUnit::Byte => 0,
        SizeUnit::Kib => 10,
        SizeUnit::Mib => 20,
        SizeUnit::Gib => 30,
        SizeUnit::Tib => 40,
    }
}

/// The label of a unit behind a space, cleaned.
proof fn lemma_unit_label(unit: SizeUnit)
    ensures
        ({
            let suffix = sizes::cleaned(" "@ + sizes::unit_label(unit));
            &&& suffix.len() > 0
            &&& !sizes::numeric(suffix[0])
            &&& sizes::suffix_power(suffix) == Some(unit_power(unit) as int)
        }),
        sizes::unit_size(unit) == pow2(unit_power(unit)),
{
    lemma_suffixes();
    lemma_suffix_powers();
    lemma2_to64();
    lemma2_to64_rest();
    reveal_strlit(" ");
    reveal_strlit("B");
    reveal_strlit("KiB");
    reveal_strlit("MiB");
    reveal_strlit("GiB");
    reveal_strlit("TiB");
    reveal_strlit(" B");
    reveal_strlit(" KiB");
    reveal_strlit(" MiB");
    reveal_strlit(" GiB");
    reveal_strlit(" TiB");
    match unit {
        SizeUnit::Byte => {
            assert(" "@ + "B"@ =~= " B"@);
        },
        SizeUnit::Kib => {
            assert(" "@ + "KiB"@ =~= " KiB"@);
        },
        SizeUnit::Mib => {
            assert(" "@ + "MiB"@ =~= " MiB"@);
        },
        SizeUnit::Gib => {
            assert(" "@ + "GiB"@ =~= " GiB"@);
        },
        SizeUnit::Tib => {
            assert(" "@ + "TiB"@ =~= " TiB"@);
        },
    }
}

/// Cleaning an amount changes nothing.
proof fn lemma_cleaned_amount(n: nat)
    ensures
        sizes::cleaned(text::decimal(n)) == text::decimal(n),
        sizes::cleaned(text::decimal(n) + ".0"@) == text::decimal(n) + ".0"@,
{
    text::lemma_decimal_round_trip(n);
    lemma_cleaned_digits(text::decimal(n));
    lemma_cleaned_concat(text::decimal(n), ".0"@);
    reveal_strlit(".0");
    reveal_with_fuel(sizes::cleaned, 3);
    assert(sizes::cleaned(".0"@) =~= ".0"@);
}

/// Sizes and their renderings agree: the rendering of a whole number of units
/// reads back as that size. With `n` 10 and kibibytes, the rendering of 10,240
/// bytes is `10.0 KiB`, which stands for 10,240 bytes.
pub proof fn law_whole_sizes_read_back(n: nat, unit: SizeUnit)
    requires
        n * sizes::unit_size(unit) <= u64::MAX,
        sizes::best_unit(n * sizes::unit_size(unit)) == unit,
    ensures
        sizes::flexible(sizes::human(n * sizes::unit_size(unit))) == Some(
            n * sizes::unit_size(unit),
        ),
{
    let p = unit_power(unit);
    let size = n * sizes::unit_size(unit);
    lemma_unit_label(unit);
    lemma_cleaned_amount(n);
    text::lemma_decimal_round_trip(n);
    assert(n < LIMIT) by {
        match unit {
            SizeUnit::Byte => {
                assert(size == n * 1);
            },
            SizeUnit::Kib => {
                assert(size == n * 0x400 && size < 0x10_0000);
            },
            SizeUnit::Mib => {
                assert(size == n * 0x10_0000 && size < 0x4000_0000);
            },
            SizeUnit::Gib => {
                assert(size == n * 0x4000_0000 && size < 0x100_0000_0000);
            },
            SizeUnit::Tib => {
                assert(size == n * 0x100_0000_0000);
            },
        }
    }
    let tail = " "@ + sizes::unit_label(unit);
    let amount = if unit == SizeUnit::Byte {
        text::decimal(n)
    } else {
        text::decimal(n) + ".0"@
    };
    if unit == SizeUnit::Byte {
        assert(n * 1 == n);
        lemma_reads_whole(n);
    } else {
        assert(n > 0) by {
            if n == 0 {
                assert(0 * sizes::unit_size(unit) == 0);
            }
        }
        lemma_amount(n, p);
        lemma_reads_fraction(n, p);
    }
    assert(sizes::human(size) =~= amount + tail);
    lemma_cleaned_concat(amount, tail);
    reveal_strlit(".0");
    assert forall|k: int| 0 <= k < amount.len() implies sizes::numeric(#[trigger] amount[k]) by {
        let digits = text::decimal(n);
        if k < digits.len() {
            assert(text::is_digit(digits[k]));
            assert(amount[k] == digits[k]);
        } else {
            assert(amount[k] == ".0"@[k - digits.len()]);
        }
    }
    lemma_splits(amount, sizes::cleaned(tail));
}

// ---------------------------------------------------------------------------
// The strict grammar
// ---------------------------------------------------------------------------

proof fn lemma_cleaned_trim_start(s: Seq<char>)
    ensures
        sizes::cleaned(text::trim_start(s)) == sizes::cleaned(s),
    decreases s.len(),
{
    if s.len() > 0 && text::is_white(s[0]) {
        let first = seq![s[0]];
        let rest = s.drop_first();
        lemma_cleaned_trim_start(rest);
        lemma_cleaned_concat(first, rest);
        assert(first + rest =~= s);
        assert(first.drop_last() =~= Seq::<char>::empty());
        assert(sizes::cleaned(first.drop_last()) =~= Seq::<char>::empty());
        assert(sizes::cleaned(first) =~= Seq::<char>::empty());
        assert(sizes::cleaned(first) + sizes::cleaned(rest) =~= sizes::cleaned(rest));
    }
}

proof fn lemma_cleaned_trim_end(s: Seq<char>)
    ensures
        sizes::cleaned(text::trim_end(s)) == sizes::cleaned(s),
    decreases s.len(),
{
    if s.len() > 0 && text::is_white(s.last()) {
        lemma_cleaned_trim_end(s.drop_last());
    }
}

/// Digits, in units of `2^p`.
proof fn lemma_reads_digits(digits: Seq<char>, p: nat)
    requires
        digits.len() > 0,
        text::all_digits(digits),
        text::value_of(digits) <= LIMIT,
        text::value_of(digits) * pow2(p) <= u64::MAX,
    ensures
        sizes::decimal_size(digits, p as int) == Some(text::value_of(digits) * pow2(p)),
{
    let n = text::value_of(digits);
    lemma_ends(digits, Seq::empty(), 0);
    assert(digits + Seq::<char>::empty() =~= digits);
    assert(digits.take(digits.len() as int) =~= digits);
    lemma2_to64();
    assert(decimal::pow10(0) == 1);
    if n == 0 {
        assert(0 * pow2(p) == 0);
        assert(0 * pow2(0) == 0);
    } else if n < LIMIT {
        let j = lemma_normal(n);
        let m = n * pow2(j);
        assert(amounts_to(n, 1, m, -j)) by {
            assert(m * 1 == m) by (nonlinear_arith);
            if j == 0 {
                assert(pow2(0) == 1);
                assert(m * 1 * 1 == n) by (nonlinear_arith)
                    requires
                        m == n * 1,
                ;
            }
        }
        lemma_nearest_exact(n, 1, m, -j);
        lemma_integer(n, j, p);
    } else {
        let m = LEAST as nat;
        assert(amounts_to(n, 1, m, 1)) by {
            let two = pow2(1);
            assert(two == 2);
            assert(m * 1 * two == n) by (nonlinear_arith)
                requires
                    two == 2,
                    n == 2 * m,
            ;
        }
        lemma_nearest_exact(n, 1, m, 1);
        lemma_pow2_unfold(p + 1);
        let q = pow2(p);
        assert(m * (2 * q) == n * q) by (nonlinear_arith)
            requires
                n == 2 * m,
        ;
    }
}

/// A suffix of the strict grammar means the same in the relaxed one.
proof fn lemma_strict_suffix(suffix: Seq<char>) -> (p: nat)
    requires
        grammar::multiplier(suffix) is Some,
    ensures
        grammar::multiplier(suffix) == Some(pow2(p)),
        sizes::suffix_power(sizes::cleaned(suffix)) == Some(p as int),
        sizes::cleaned(suffix).len() > 0 ==> !sizes::numeric(sizes::cleaned(suffix)[0]),
{
    lemma2_to64();
    lemma2_to64_rest();
    reveal_strlit("");
    reveal_strlit("b");
    reveal_strlit("byte");
    reveal_strlit("bytes");
    reveal_strlit("k");
    reveal_strlit("kb");
    reveal_strlit("kib");
    reveal_strlit("m");
    reveal_strlit("mb");
    reveal_strlit("mib");
    reveal_strlit("g");
    reveal_strlit("gb");
    reveal_strlit("gib");
    reveal_strlit("t");
    let c = sizes::cleaned(suffix);
    if suffix.len() == 0 {
        assert(c =~= ""@);
        0
    } else {
        assert(suffix.drop_last() =~= Seq::<char>::empty());
        assert(sizes::cleaned(suffix.drop_last()) =~= Seq::<char>::empty());
        let letter = text::ascii_lower(suffix[0]);
        assert(!text::is_white(suffix[0]));
        assert(c =~= seq![letter]);
        assert(c.len() == 1 && c[0] == letter);
        assert(""@.len() == 0 && "byte"@.len() == 4 && "bytes"@.len() == 5);
        assert("kb"@.len() == 2 && "kib"@.len() == 3 && "mb"@.len() == 2 && "mib"@.len() == 3);
        assert("gb"@.len() == 2 && "gib"@.len() == 3);
        assert("b"@[0] == 'b' && "k"@[0] == 'k' && "m"@[0] == 'm' && "g"@[0] == 'g');
        if letter == 'b' {
            assert(c =~= "b"@);
            0
        } else if letter == 'k' {
            assert(c =~= "k"@);
            10
        } else if letter == 'm' {
            assert(c =~= "m"@);
            20
        } else if letter == 'g' {
            assert(c =~= "g"@);
            30
        } else {
            assert(c =~= "t"@);
            40
        }
    }
}

/// The relaxed grammar reads every size of the strict one, and reads it alike,
/// as far as 53 bits hold it.
pub proof fn law_strict_sizes_are_read_alike(s: Seq<char>)
    requires
        grammar::strict_size(s) is Some,
        grammar::strict_size(s)->0 <= LIMIT,
    ensures
        sizes::flexible(s) == grammar::strict_size(s),
{
    let trimmed = text::trim(s);
    let end = text::digits_end(trimmed, 0);
    let digits = trimmed.take(end);
    let suffix = trimmed.skip(end);
    let n = text::value_of(digits);
    text::lemma_digits_end(trimmed, 0);
    assert(trimmed.subrange(0, end) =~= digits);
    let p = lemma_strict_suffix(suffix);
    lemma_cleaned_trim_start(s);
    lemma_cleaned_trim_end(text::trim_start(s));
    lemma_cleaned_digits(digits);
    lemma_cleaned_concat(digits, suffix);
    assert(digits + suffix =~= trimmed);
    let unit = sizes::cleaned(suffix);
    assert(sizes::cleaned(s) == digits + unit);
    assert forall|k: int| 0 <= k < digits.len() implies sizes::numeric(#[trigger] digits[k]) by {
        assert(text::is_digit(digits[k]));
    }
    if unit.len() > 0 {
        lemma_splits(digits, unit);
    } else {
        assert(digits + unit =~= digits);
        lemma_all_numeric(digits, 0);
        assert(digits.take(digits.len() as int) =~= digits);
        assert(digits.skip(digits.len() as int) =~= unit);
    }
    lemma_pow2_pos(p);
    let factor = pow2(p);
    assert(n <= n * factor) by (nonlinear_arith)
        requires
            factor >= 1,
    ;
    lemma_reads_digits(digits, p);
}

proof fn lemma_all_numeric(s: Seq<char>, i: int)
    requires
        forall|k: int| 0 <= k < s.len() ==> sizes::numeric(#[trigger] s[k]),
        0 <= i <= s.len(),
    ensures
        sizes::numeric_end(s, i) == s.len(),
    decreases s.len() - i,
{
    if i < s.len() {
        lemma_all_numeric(s, i + 1);
    }
}

// ---------------------------------------------------------------------------
// Rounding
// ---------------------------------------------------------------------------

/// `x` is at most half of `y` away from `z`.
pub open spec fn half_close(x: nat, z: nat, y: nat) -> bool {
    2 * (x - z) <= y && 2 * (z - x) <= y
}

/// A quotient is rounded to the nearest integer; between two of them, to the
/// even one.
pub proof fn law_quotients_are_rounded_to_the_nearest_integer(n: nat, d: nat)
    requires
        d > 0,
    ensures
        half_close(n, double::half_even(n, d) * d, d),
        2 * (n - double::half_even(n, d) * d) == d || 2 * (double::half_even(n, d) * d - n) == d
            ==> double::half_even(n, d) % 2 == 0,
{
    let (q, r) = (n / d, n % d);
    vstd::arithmetic::div_mod::lemma_fundamental_div_mod(n as int, d as int);
    assert(d * q == q * d) by (nonlinear_arith);
    assert((q + 1) * d == q * d + d) by (nonlinear_arith);
}

/// `m * 2^k` is as near to `n / d` as half a unit of the last bit of `m`.
pub open spec fn half_a_bit(n: nat, d: nat, m: nat, k: int) -> bool {
    if k >= 0 {
        half_close(n, m * d * pow2(k as nat), d * pow2(k as nat))
    } else {
        half_close(n * pow2((-k) as nat), m * d, d)
    }
}

proof fn lemma_half_a_bit(n: nat, d: nat, m: nat, k: int)
    ensures
        half_a_bit(2 * n, d, m, k) ==> half_a_bit(n, d, m, k - 1),
        half_a_bit(n, 2 * d, m, k) ==> half_a_bit(n, d, m, k + 1),
{
    lemma2_to64();
    if k >= 1 {
        lemma_pow2_unfold(k as nat);
        lemma_pow2_unfold((k + 1) as nat);
        let (p, q) = (pow2(k as nat), pow2((k - 1) as nat));
        assert(m * d * (2 * q) == 2 * (m * d * q)) by (nonlinear_arith);
        assert(d * (2 * q) == 2 * (d * q)) by (nonlinear_arith);
        assert(m * (2 * d) * p == m * d * (2 * p)) by (nonlinear_arith);
        assert(2 * d * p == d * (2 * p)) by (nonlinear_arith);
    } else if k == 0 {
        lemma_pow2_unfold(1);
        assert(m * d * 1 == m * d) by (nonlinear_arith);
        assert(d * 1 == d) by (nonlinear_arith);
        assert(n * 2 == 2 * n) by (nonlinear_arith);
        assert(m * (2 * d) * 1 == m * d * 2) by (nonlinear_arith);
        assert(2 * d * 1 == d * 2) by (nonlinear_arith);
    } else {
        lemma_pow2_unfold((-k) as nat);
        lemma_pow2_unfold((-k + 1) as nat);
        let (p, q) = (pow2((-k) as nat), pow2((-k - 1) as nat));
        assert(2 * n * p == n * (2 * p)) by (nonlinear_arith);
        assert(n * (2 * q) == 2 * (n * q)) by (nonlinear_arith);
        assert(m * (2 * d) == 2 * (m * d)) by (nonlinear_arith);
        if k == -1 {
            assert(q == 1);
            assert(n * 1 == n) by (nonlinear_arith);
            assert(m * d * 1 == m * d) by (nonlinear_arith);
            assert(d * 1 == d) by (nonlinear_arith);
        }
    }
}

/// A value with 53 significant bits is computed of a quotient, and none is
/// nearer: it is at most half a unit of its last bit away.
pub proof fn law_values_have_the_nearest_bits(n: nat, d: nat)
    requires
        n > 0,
        d > 0,
    ensures
        0x10_0000_0000_0000 <= double::nearest(n, d).m < 0x20_0000_0000_0000,
        half_a_bit(n, d, double::nearest(n, d).m, double::nearest(n, d).e),
    decreases double::distance(n, d),
{
    double::lemma_nearest(n, d);
    lemma2_to64();
    if n < LEAST * d {
        law_values_have_the_nearest_bits(2 * n, d);
        let b = double::nearest(2 * n, d);
        double::lemma_nearest(2 * n, d);
        lemma_half_a_bit(n, d, b.m, b.e);
    } else if n >= LIMIT * d {
        law_values_have_the_nearest_bits(n, 2 * d);
        let b = double::nearest(n, 2 * d);
        double::lemma_nearest(n, 2 * d);
        lemma_half_a_bit(n, d, b.m, b.e);
    } else {
        law_quotients_are_rounded_to_the_nearest_integer(n, d);
        let m = double::half_even(n, d);
        assert(m * d * 1 == m * d) by (nonlinear_arith);
        assert(d * 1 == d) by (nonlinear_arith);
        assert(pow2(0) == 1);
        assert(half_a_bit(n, d, m, 0));
        if m == LIMIT {
            lemma_pow2_unfold(1);
            let least = LEAST as nat;
            assert(least * d * 2 == m * d) by (nonlinear_arith)
                requires
                    m == 2 * least,
            ;
            assert(d * 2 == 2 * d) by (nonlinear_arith);
            assert(pow2(1) == 2);
            assert(half_a_bit(n, d, least, 1));
        }
    }
}

/// `n` bytes in units of `2^p` bytes, exactly.
proof fn lemma_units(n: nat, p: nat) -> (j: nat)
    requires
        0 < n < LIMIT,
    ensures
        LEAST <= n * pow2(j) < LIMIT,
        double::quotient(n, pow2(p)) == (Binary { m: n * pow2(j), e: -(j + p) }),
{
    let j = lemma_normal(n);
    let m = n * pow2(j);
    lemma_back(n, j, 0);
    lemma2_to64();
    lemma2_to64_rest();
    assert(amounts_to(n, 1, m, -j)) by {
        assert(m * 1 == m) by (nonlinear_arith);
        assert(n * 1 == n) by (nonlinear_arith);
        if j == 0 {
            assert(m * 1 * 1 == m) by (nonlinear_arith);
        }
    }
    lemma_nearest_exact(n, 1, m, -j);
    assert(LEAST == pow2(52));
    lemma_back(1, 52, p);
    assert(amounts_to(pow2(p), 1, LEAST as nat, p - 52)) by {
        let (a, b, c) = (pow2(52), pow2(p), LEAST as nat);
        assert(1 * a == a && 1 * b == b && c * 1 == c) by (nonlinear_arith);
    }
    lemma_nearest_exact(pow2(p), 1, LEAST as nat, p - 52);
    assert(amounts_to(m, LEAST as nat, m, -52));
    lemma_nearest_exact(m, LEAST as nat, m, -52);
    j
}

/// The tenths of `n` bytes in units of `2^p` bytes.
proof fn lemma_rounded_tenths(n: nat, p: nat)
    requires
        0 < n < LIMIT,
        p > 0,
    ensures
        half_close(
            10 * n,
            double::units(double::quotient(n, pow2(p)), 10) * pow2(p),
            pow2(p),
        ),
{
    let j = lemma_units(n, p);
    let (a, b) = (pow2(j), pow2(p));
    lemma_pow2_adds(j, p);
    lemma_pow2_pos(j);
    lemma_pow2_pos(p);
    let (m, d) = (n * a, pow2(j + p));
    let t = double::half_even(10 * m, d);
    assert(double::units(double::quotient(n, pow2(p)), 10) == t);
    lemma_pow2_pos(j + p);
    law_quotients_are_rounded_to_the_nearest_integer(10 * m, d);
    assert(10 * m == 10 * n * a) by (nonlinear_arith)
        requires
            m == n * a,
    ;
    assert(t * d == t * b * a) by (nonlinear_arith)
        requires
            d == a * b,
    ;
    assert(half_close(10 * n, t * b, b)) by (nonlinear_arith)
        requires
            a > 0,
            2 * (10 * n * a - t * b * a) <= a * b,
            2 * (t * b * a - 10 * n * a) <= a * b,
    ;
}

/// `bytes` are this many tenths of a unit, to the nearest tenth.
pub open spec fn nearest_tenths(bytes: nat, size: nat, tenths: nat) -> bool {
    half_close(10 * bytes, tenths * size, size)
}

/// The largest binary unit that `bytes` hold one of.
pub open spec fn binary_unit(bytes: nat, size: nat, label: Seq<char>) -> bool {
    ||| 1024 <= bytes < 1024 * 1024 && size == 1024 && label == "KiB"@
    ||| 1024 * 1024 <= bytes < 1024 * 1024 * 1024 && size == 1024 * 1024 && label == "MiB"@
    ||| 1024 * 1024 * 1024 <= bytes < 1024 * 1024 * 1024 * 1024 && size == 1024 * 1024 * 1024
        && label == "GiB"@
    ||| 1024 * 1024 * 1024 * 1024 <= bytes && size == 1024 * 1024 * 1024 * 1024 && label == "TiB"@
}

/// Sizes below a kibibyte are shown in bytes; larger ones in the largest unit
/// that they hold one of, rounded to the nearest tenth.
pub proof fn law_sizes_are_rounded_to_tenths(bytes: nat, size: nat, label: Seq<char>)
    requires
        bytes < 0x20_0000_0000_0000,
        bytes < 1024 || binary_unit(bytes, size, label),
    ensures
        bytes < 1024 ==> sizes::human(bytes) == text::decimal(bytes) + " "@ + "B"@,
        bytes >= 1024 ==> exists|tenths: nat|
            #[trigger] nearest_tenths(bytes, size, tenths) && sizes::human(bytes) == text::decimal(
                tenths / 10,
            ) + "."@ + text::decimal(tenths % 10) + " "@ + label,
{
    if bytes >= 1024 {
        lemma2_to64();
        lemma2_to64_rest();
        let p: nat = if size == 1024 {
            10
        } else if size == 1024 * 1024 {
            20
        } else if size == 1024 * 1024 * 1024 {
            30
        } else {
            40
        };
        assert(size == pow2(p));
        lemma_rounded_tenths(bytes, p);
        let tenths = double::units(double::quotient(bytes, size), 10);
        assert(nearest_tenths(bytes, size, tenths));
        assert(text::decimal(tenths % 10) == seq![text::digit_char(tenths % 10)]);
        assert(sizes::human(bytes) == text::decimal(tenths / 10) + "."@ + text::decimal(tenths % 10)
            + " "@ + label);
    }
}

/// A whole number of units in those units, whatever the unit.
proof fn lemma_exact_quotient(n: nat, s: nat)
    requires
        0 < n,
        0 < s,
        n * s < LIMIT,
    ensures
        double::one_decimal(double::quotient(n * s, s)) == text::decimal(n) + ".0"@,
{
    let all = n * s;
    assert(n <= all && s <= all && all > 0) by (nonlinear_arith)
        requires
            all == n * s,
            n > 0,
            s > 0,
    ;
    let i = lemma_normal(all);
    let k = lemma_normal(s);
    let j = lemma_normal(n);
    lemma_whole(all, i);
    lemma_whole(s, k);
    let (a, b, m) = (all * pow2(i), s * pow2(k), n * pow2(j));
    lemma_pow2_pos(k);
    lemma_pow2_pos(i);
    assert(b > 0) by (nonlinear_arith)
        requires
            b == s * pow2(k),
            s > 0,
            pow2(k) > 0,
    ;
    let shift = i - k - j;
    lemma_quotient_amounts(n, s, i, k, j);
    lemma_nearest_exact(a, b, m, shift);
    lemma_tenths(n, j);
    assert((10 * n) / 10 == n && (10 * n) % 10 == 0);
    reveal_strlit(".");
    reveal_strlit(".0");
    assert("."@ + seq![text::digit_char(0)] =~= ".0"@);
    assert(text::decimal(n) + "."@ + seq![text::digit_char(0)] =~= text::decimal(n) + ".0"@);
}

proof fn lemma_whole(n: nat, j: nat)
    requires
        0 < n,
        LEAST <= n * pow2(j) < LIMIT,
    ensures
        double::whole(n) == (Binary { m: n * pow2(j), e: -j }),
{
    let m = n * pow2(j);
    lemma2_to64();
    assert(amounts_to(n, 1, m, -j)) by {
        assert(m * 1 == m) by (nonlinear_arith);
        if j == 0 {
            assert(n * 1 == n) by (nonlinear_arith);
            assert(m * 1 * 1 == m) by (nonlinear_arith);
        }
    }
    lemma_nearest_exact(n, 1, m, -j);
}

proof fn lemma_quotient_amounts(n: nat, s: nat, i: nat, k: nat, j: nat)
    ensures
        amounts_to(n * s * pow2(i), s * pow2(k), n * pow2(j), i - k - j),
{
    let (pi, pk, pj) = (pow2(i), pow2(k), pow2(j));
    lemma_pow2_adds(j, k);
    if i >= j + k {
        let q = pow2((i - k - j) as nat);
        lemma_pow2_adds(j + k, (i - k - j) as nat);
        assert(n * s * pi == n * pj * (s * pk) * q) by (nonlinear_arith)
            requires
                pi == pj * pk * q,
        ;
    } else {
        let q = pow2((j + k - i) as nat);
        lemma_pow2_adds(i, (j + k - i) as nat);
        assert(n * s * pi * q == n * pj * (s * pk)) by (nonlinear_arith)
            requires
                pi * q == pj * pk,
        ;
    }
}

/// The largest decimal unit that `n` units hold one of.
pub open spec fn decimal_unit(n: nat, size: nat, label: Seq<char>) -> bool {
    ||| size == 1_000 && label == "kB"@ && n < 1_000
    ||| size == 1_000_000 && label == "MB"@ && n < 1_000
    ||| size == 1_000_000_000 && label == "GB"@ && n < 1_000
    ||| size == 1_000_000_000_000 && label == "TB"@
}

/// Decimal units: sizes below a thousand are shown in bytes, and a whole number
/// of the largest unit that they hold one of shows as that number.
pub proof fn law_whole_decimal_sizes(n: nat, size: nat, label: Seq<char>)
    requires
        0 < n,
        n * size < 0x20_0000_0000_0000,
        decimal_unit(n, size, label),
    ensures
        n < 1_000 ==> sizes::decimal_text(n) == text::decimal(n) + " B"@,
        sizes::decimal_text(n * size) == text::decimal(n) + ".0"@ + " "@ + label,
{
    lemma_exact_quotient(n, size);
    let bytes = n * size;
    assert(bytes >= size) by (nonlinear_arith)
        requires
            bytes == n * size,
            n > 0,
    ;
    if n < 1_000 {
        assert(bytes < 1_000 * size) by (nonlinear_arith)
            requires
                bytes == n * size,
                n < 1_000,
                size > 0,
        ;
    }
}

// ---------------------------------------------------------------------------
// Relaxed sizes
// ---------------------------------------------------------------------------

/// The spellings of the units.
pub open spec fn stands_for(suffix: Seq<char>, size: nat) -> bool {
    ||| size == 1 && (suffix == "b"@ || suffix == "byte"@ || suffix == "bytes"@)
    ||| size == 1024 && (suffix == "k"@ || suffix == "kb"@ || suffix == "kib"@)
    ||| size == 1024 * 1024 && (suffix == "m"@ || suffix == "mb"@ || suffix == "mib"@)
    ||| size == 1024 * 1024 * 1024 && (suffix == "g"@ || suffix == "gb"@ || suffix == "gib"@)
    ||| size == 1024 * 1024 * 1024 * 1024 && (suffix == "t"@ || suffix == "tb"@ || suffix == "tib"@)
}

/// Digits and a suffix stand for that many bytes, or multiples of powers of
/// 1024; every spelling of a unit means the same.
pub proof fn law_relaxed_suffixes(digits: Seq<char>, suffix: Seq<char>, size: nat)
    requires
        digits.len() > 0,
        text::all_digits(digits),
        text::value_of(digits) * size <= 0x20_0000_0000_0000,
        stands_for(suffix, size),
    ensures
        sizes::flexible(digits + suffix) == Some(text::value_of(digits) * size),
{
    lemma2_to64();
    lemma2_to64_rest();
    lemma_suffix_letters();
    let p: nat = if size == 1 {
        0
    } else if size == 1024 {
        10
    } else if size == 1024 * 1024 {
        20
    } else if size == 1024 * 1024 * 1024 {
        30
    } else {
        40
    };
    assert(size == pow2(p));
    assert(sizes::suffix_power(suffix) == Some(p as int));
    let n = text::value_of(digits);
    assert(n <= n * size) by (nonlinear_arith)
        requires
            size >= 1,
    ;
    lemma_cleaned_concat(digits, suffix);
    lemma_cleaned_digits(digits);
    assert forall|k: int| 0 <= k < digits.len() implies sizes::numeric(#[trigger] digits[k]) by {
        assert(text::is_digit(digits[k]));
    }
    lemma_splits(digits, suffix);
    lemma_reads_digits(digits, p);
}

proof fn lemma_suffix_letters()
    ensures
        sizes::suffix_power("b"@) == Some(0int),
        sizes::cleaned("b"@) == "b"@,
        "b"@.len() > 0 && !sizes::numeric("b"@[0]),
        sizes::suffix_power("byte"@) == Some(0int),
        sizes::cleaned("byte"@) == "byte"@,
        "byte"@.len() > 0 && !sizes::numeric("byte"@[0]),
        sizes::suffix_power("bytes"@) == Some(0int),
        sizes::cleaned("bytes"@) == "bytes"@,
        "bytes"@.len() > 0 && !sizes::numeric("bytes"@[0]),
        sizes::suffix_power("k"@) == Some(10int),
        sizes::cleaned("k"@) == "k"@,
        "k"@.len() > 0 && !sizes::numeric("k"@[0]),
        sizes::suffix_power("kb"@) == Some(10int),
        sizes::cleaned("kb"@) == "kb"@,
        "kb"@.len() > 0 && !sizes::numeric("kb"@[0]),
        sizes::suffix_power("kib"@) == Some(10int),
        sizes::cleaned("kib"@) == "kib"@,
        "kib"@.len() > 0 && !sizes::numeric("kib"@[0]),
        sizes::suffix_power("m"@) == Some(20int),
        sizes::cleaned("m"@) == "m"@,
        "m"@.len() > 0 && !sizes::numeric("m"@[0]),
        sizes::suffix_power("mb"@) == Some(20int),
        sizes::cleaned("mb"@) == "mb"@,
        "mb"@.len() > 0 && !sizes::numeric("mb"@[0]),
        sizes::suffix_power("mib"@) == Some(20int),
        sizes::cleaned("mib"@) == "mib"@,
        "mib"@.len() > 0 && !sizes::numeric("mib"@[0]),
        sizes::suffix_power("g"@) == Some(30int),
        sizes::cleaned("g"@) == "g"@,
        "g"@.len() > 0 && !sizes::numeric("g"@[0]),
        sizes::suffix_power("gb"@) == Some(30int),
        sizes::cleaned("gb"@) == "gb"@,
        "gb"@.len() > 0 && !sizes::numeric("gb"@[0]),
        sizes::suffix_power("gib"@) == Some(30int),
        sizes::cleaned("gib"@) == "gib"@,
        "gib"@.len() > 0 && !sizes::numeric("gib"@[0]),
        sizes::suffix_power("t"@) == Some(40int),
        sizes::cleaned("t"@) == "t"@,
        "t"@.len() > 0 && !sizes::numeric("t"@[0]),
        sizes::suffix_power("tb"@) == Some(40int),
        sizes::cleaned("tb"@) == "tb"@,
        "tb"@.len() > 0 && !sizes::numeric("tb"@[0]),
        sizes::suffix_power("tib"@) == Some(40int),
        sizes::cleaned("tib"@) == "tib"@,
        "tib"@.len() > 0 && !sizes::numeric("tib"@[0]),
{
    reveal_strlit("");
    reveal_strlit("b");
    reveal_strlit("byte");
    reveal_strlit("bytes");
    reveal_strlit("k");
    reveal_strlit("kb");
    reveal_strlit("kib");
    reveal_strlit("m");
    reveal_strlit("mb");
    reveal_strlit("mib");
    reveal_strlit("g");
    reveal_strlit("gb");
    reveal_strlit("gib");
    reveal_strlit("t");
    reveal_strlit("tb");
    reveal_strlit("tib");
    assert("b"@.len() == 1 && "b"@[0] == 'b');
    assert("byte"@.len() == 4 && "byte"@[0] == 'b' && "byte"@[1] == 'y');
    assert("bytes"@.len() == 5 && "bytes"@[0] == 'b' && "bytes"@[1] == 'y');
    assert("k"@.len() == 1 && "k"@[0] == 'k');
    assert("kb"@.len() == 2 && "kb"@[0] == 'k' && "kb"@[1] == 'b');
    assert("kib"@.len() == 3 && "kib"@[0] == 'k' && "kib"@[1] == 'i');
    assert("m"@.len() == 1 && "m"@[0] == 'm');
    assert("mb"@.len() == 2 && "mb"@[0] == 'm' && "mb"@[1] == 'b');
    assert("mib"@.len() == 3 && "mib"@[0] == 'm' && "mib"@[1] == 'i');
    assert("g"@.len() == 1 && "g"@[0] == 'g');
    assert("gb"@.len() == 2 && "gb"@[0] == 'g' && "gb"@[1] == 'b');
    assert("gib"@.len() == 3 && "gib"@[0] == 'g' && "gib"@[1] == 'i');
    assert("t"@.len() == 1 && "t"@[0] == 't');
    assert("tb"@.len() == 2 && "tb"@[0] == 't' && "tb"@[1] == 'b');
    assert("tib"@.len() == 3 && "tib"@[0] == 't' && "tib"@[1] == 'i');
    lemma_cleaned_letters("b"@);
    lemma_cleaned_letters("byte"@);
    lemma_cleaned_letters("bytes"@);
    lemma_cleaned_letters("k"@);
    lemma_cleaned_letters("kb"@);
    lemma_cleaned_letters("kib"@);
    lemma_cleaned_letters("m"@);
    lemma_cleaned_letters("mb"@);
    lemma_cleaned_letters("mib"@);
    lemma_cleaned_letters("g"@);
    lemma_cleaned_letters("gb"@);
    lemma_cleaned_letters("gib"@);
    lemma_cleaned_letters("t"@);
    lemma_cleaned_letters("tb"@);
    lemma_cleaned_letters("tib"@);
}

proof fn lemma_cleaned_letters(s: Seq<char>)
    requires
        forall|k: int| 0 <= k < s.len() ==> 'a' <= #[trigger] s[k] <= 'z',
    ensures
        sizes::cleaned(s) == s,
    decreases s.len(),
{
    if s.len() > 0 {
        let rest = s.drop_last();
        assert forall|k: int| 0 <= k < rest.len() implies 'a' <= #[trigger] rest[k] <= 'z' by {
            assert('a' <= s[k] <= 'z');
        }
        lemma_cleaned_letters(rest);
        assert('a' <= s[s.len() - 1] <= 'z');
        assert(sizes::cleaned(s) =~= s);
    } else {
        assert(sizes::cleaned(s) =~= s);
    }
}

/// White space anywhere in a size makes no difference, nor does the case of its
/// letters.
pub proof fn law_blanks_and_case_make_no_difference(
    a: Seq<char>,
    upper: char,
    lower: char,
    b: Seq<char>,
)
    requires
        'A' <= upper <= 'Z',
        lower as int == upper as int + 32,
    ensures
        sizes::flexible(a + seq![' '] + b) == sizes::flexible(a + b),
        sizes::flexible(a + seq!['\t'] + b) == sizes::flexible(a + b),
        sizes::flexible(a + seq![upper] + b) == sizes::flexible(a + seq![lower] + b),
{
    lemma_cleaned_concat(a, b);
    lemma_cleaned_concat(a, seq![' ']);
    lemma_cleaned_concat(a + seq![' '], b);
    lemma_cleaned_concat(a, seq!['\t']);
    lemma_cleaned_concat(a + seq!['\t'], b);
    lemma_cleaned_concat(a, seq![upper]);
    lemma_cleaned_concat(a + seq![upper], b);
    lemma_cleaned_concat(a, seq![lower]);
    lemma_cleaned_concat(a + seq![lower], b);
    lemma_cleaned_one(' ');
    lemma_cleaned_one('\t');
    lemma_cleaned_one(upper);
    lemma_cleaned_one(lower);
    assert(sizes::cleaned(a) + Seq::<char>::empty() =~= sizes::cleaned(a));
}

proof fn lemma_cleaned_one(ch: char)
    ensures
        sizes::cleaned(seq![ch]) == if text::is_white(ch) {
            Seq::empty()
        } else {
            seq![text::ascii_lower(ch)]
        },
{
    assert(seq![ch].drop_last() =~= Seq::<char>::empty());
    assert(sizes::cleaned(seq![ch].drop_last()) =~= Seq::<char>::empty());
    assert(sizes::cleaned(seq![ch]) =~= if text::is_white(ch) {
        Seq::empty()
    } else {
        seq![text::ascii_lower(ch)]
    });
}

// ---------------------------------------------------------------------------
// Tenths of any unit
// ---------------------------------------------------------------------------

proof fn lemma_half_a_bit_scaled(n: nat, d: nat, m: nat, i: nat, k: nat, e: int)
    requires
        half_a_bit(n * pow2(i), d * pow2(k), m, e),
    ensures
        half_a_bit(n, d, m, e + k - i),
    decreases i + k,
{
    lemma2_to64();
    if i > 0 {
        lemma_pow2_unfold(i);
        let p = pow2((i - 1) as nat);
        assert(n * (2 * p) == 2 * (n * p)) by (nonlinear_arith);
        lemma_half_a_bit(n * p, d * pow2(k), m, e);
        lemma_half_a_bit_scaled(n, d, m, (i - 1) as nat, k, e - 1);
    } else if k > 0 {
        lemma_pow2_unfold(k);
        let p = pow2((k - 1) as nat);
        assert(d * (2 * p) == 2 * (d * p)) by (nonlinear_arith);
        lemma_half_a_bit(n * pow2(0), d * p, m, e);
        lemma_half_a_bit_scaled(n, d, m, 0, (k - 1) as nat, e + 1);
    } else {
        assert(n * 1 == n) by (nonlinear_arith);
        assert(d * 1 == d) by (nonlinear_arith);
    }
}

proof fn lemma_quotient_bits(n: nat, d: nat)
    requires
        0 < n < LIMIT,
        0 < d < LIMIT,
    ensures
        LEAST <= double::quotient(n, d).m < LIMIT,
        half_a_bit(n, d, double::quotient(n, d).m, double::quotient(n, d).e),
{
    let i = lemma_normal(n);
    let k = lemma_normal(d);
    lemma_whole(n, i);
    lemma_whole(d, k);
    let (a, b) = (n * pow2(i), d * pow2(k));
    law_values_have_the_nearest_bits(a, b);
    let near = double::nearest(a, b);
    lemma_half_a_bit_scaled(n, d, near.m, i, k, near.e);
}

proof fn lemma_not_below(n: nat, d: nat, m: nat, t: nat, e: nat)
    by (nonlinear_arith)
    requires
        0 < d,
        0 < e,
        m >= 0x10_0000_0000_0000,
        n < 400_000_000_000_000,
        2 * (10 * m - t * e) <= e,
        2 * (n * e - m * d) <= d,
        2 * (m * d - n * e) <= d,
    ensures
        2 * (10 * n - t * d) <= d,
{
    if 2 * (10 * n - t * d) >= d + 1 {
        assert((20 * n) * e >= (2 * t * d + d + 1) * e);
        assert(20 * m * d <= (2 * t * e + e) * d);
        assert(20 * (n * e) - 20 * (m * d) <= 10 * d);
        assert((2 * t * d + d + 1) * e == (2 * t * e + e) * d + e);
        assert(e <= 10 * d);
        assert(n * e <= n * (10 * d));
        assert(2 * (m * d) >= 2 * 0x10_0000_0000_0000 * d);
        assert(n * (10 * d) <= 4_000_000_000_000_000 * d);
        assert(false);
    }
}

proof fn lemma_not_above(n: nat, d: nat, m: nat, t: nat, e: nat)
    by (nonlinear_arith)
    requires
        0 < d,
        0 < e,
        m >= 0x10_0000_0000_0000,
        n < 400_000_000_000_000,
        2 * (t * e - 10 * m) <= e,
        2 * (n * e - m * d) <= d,
        2 * (m * d - n * e) <= d,
    ensures
        2 * (t * d - 10 * n) <= d,
{
    if 2 * (t * d - 10 * n) >= d + 1 {
        assert((2 * t * d - d - 1) * e >= (20 * n) * e);
        assert((2 * t * e - e) * d <= 20 * m * d);
        assert(20 * (m * d) - 20 * (n * e) <= 10 * d);
        assert((2 * t * d - d - 1) * e == (2 * t * e - e) * d - e);
        assert(e <= 10 * d);
        assert(n * e <= n * (10 * d));
        assert(2 * (m * d) >= 2 * 0x10_0000_0000_0000 * d);
        assert(n * (10 * d) <= 4_000_000_000_000_000 * d);
        assert(false);
    }
}

/// The tenths of a quotient are the nearest ones.
pub proof fn lemma_quotient_tenths(n: nat, d: nat)
    requires
        0 < n < 400_000_000_000_000,
        0 < d < LIMIT,
    ensures
        nearest_tenths(n, d, double::units(double::quotient(n, d), 10)),
        double::one_decimal(double::quotient(n, d)) == text::decimal(
            double::units(double::quotient(n, d), 10) / 10,
        ) + "."@ + text::decimal(double::units(double::quotient(n, d), 10) % 10),
{
    lemma_quotient_bits(n, d);
    let q = double::quotient(n, d);
    let t = double::units(q, 10);
    assert(text::decimal(t % 10) == seq![text::digit_char(t % 10)]);
    let m = q.m;
    if q.e >= 0 {
        let p = pow2(q.e as nat);
        lemma_pow2_pos(q.e as nat);
        assert(false) by (nonlinear_arith)
            requires
                2 * (m * d * p - n) <= d * p,
                m >= 0x10_0000_0000_0000,
                p >= 1,
                d >= 1,
                n < 400_000_000_000_000,
        {
            assert(d * p >= 1);
            assert(m * d * p == m * (d * p));
            assert(m * (d * p) >= 0x10_0000_0000_0000 * (d * p));
        }
    } else {
        let e = pow2((-q.e) as nat);
        lemma_pow2_pos((-q.e) as nat);
        law_quotients_are_rounded_to_the_nearest_integer(10 * m, e);
        lemma_not_below(n, d, m, t, e);
        lemma_not_above(n, d, m, t, e);
    }
}

/// Sizes in decimal units are rounded to the nearest tenth of the largest unit
/// that they hold one of; below a thousand they are shown in bytes.
pub proof fn law_decimal_sizes_are_rounded_to_tenths(bytes: nat, size: nat, label: Seq<char>)
    requires
        bytes < 400_000_000_000_000,
        bytes < 1_000 || decimal_unit_of(bytes, size, label),
    ensures
        bytes < 1_000 ==> sizes::decimal_text(bytes) == text::decimal(bytes) + " B"@,
        bytes >= 1_000 ==> exists|tenths: nat| #[trigger]
            nearest_tenths(bytes, size, tenths) && sizes::decimal_text(bytes) == text::decimal(
                tenths / 10,
            ) + "."@ + text::decimal(tenths % 10) + " "@ + label,
{
    if bytes >= 1_000 {
        lemma_quotient_tenths(bytes, size);
        let tenths = double::units(double::quotient(bytes, size), 10);
        assert(nearest_tenths(bytes, size, tenths));
    }
}

/// The largest decimal unit that `bytes` hold one of.
pub open spec fn decimal_unit_of(bytes: nat, size: nat, label: Seq<char>) -> bool {
    ||| 1_000 <= bytes < 1_000_000 && size == 1_000 && label == "kB"@
    ||| 1_000_000 <= bytes < 1_000_000_000 && size == 1_000_000 && label == "MB"@
    ||| 1_000_000_000 <= bytes < 1_000_000_000_000 && size == 1_000_000_000 && label == "GB"@
    ||| 1_000_000_000_000 <= bytes && size == 1_000_000_000_000 && label == "TB"@
}

/// A size window is described by its limits: none, one of them, or both.
pub proof fn law_size_windows_are_described(low: u64, high: u64)
    ensures
        sizes::bounds_phrase(None, None) == "any size"@,
        sizes::bounds_phrase(Some(low), None) == ">= "@ + sizes::human(low as nat),
        sizes::bounds_phrase(None, Some(high)) == "<= "@ + sizes::human(high as nat),
        sizes::bounds_phrase(Some(low), Some(high)) == sizes::human(low as nat) + " - "@
            + sizes::human(high as nat),
{
}

/// What is read in one second is the rate, and over no time the rate is zero.
pub proof fn law_rate_of_one_second(bytes: nat)
    requires
        bytes < 0x20_0000_0000_0000,
    ensures
        sizes::rate(bytes, 0) == 0,
        sizes::rate(bytes, 1_000_000_000) == bytes,
{
    lemma2_to64();
    lemma2_to64_rest();
    let one = double::whole(1);
    lemma_nearest_exact_one();
    assert(one == (Binary { m: LEAST as nat, e: -52 }));
    assert(1_000_000_000nat / 1_000_000_000 == 1 && 1_000_000_000nat % 1_000_000_000 == 0);
    assert(double::quotient(0, 1_000_000_000).m == 0);
    assert(double::seconds(1_000_000_000) == one);
    if bytes > 0 {
        let j = lemma_normal(bytes);
        lemma_whole(bytes, j);
        let m = bytes * pow2(j);
        assert(LEAST == pow2(52));
        assert(amounts_to(m, LEAST as nat, m, -52));
        lemma_nearest_exact(m, LEAST as nat, m, -52);
        lemma_integer(bytes, j, 0);
        assert(bytes * 1 == bytes) by (nonlinear_arith);
    } else {
        assert(0 * pow2(0) == 0);
        assert(double::integer_part(Binary { m: 0, e: 0 }) == 0);
        assert(0nat / pow2(0) == 0);
    }
}

proof fn lemma_nearest_exact_one()
    ensures
        double::whole(1) == (Binary { m: LEAST as nat, e: -52 }),
{
    lemma2_to64();
    lemma2_to64_rest();
    assert(LEAST == pow2(52));
    assert(1 * pow2(52) == LEAST * 1) by {
        let (a, b) = (pow2(52), LEAST as nat);
        assert(1 * a == a && b * 1 == b) by (nonlinear_arith);
    }
    lemma_nearest_exact(1, 1, LEAST as nat, -52);
}

/// A whole number of seconds, with two decimals.
pub proof fn lemma_whole_seconds(n: nat)
    requires
        0 < n < 0x20_0000_0000_0000,
    ensures
        double::two_decimals(double::seconds(n * 1_000_000_000)) == text::decimal(n) + ".00"@,
{
    let nanos = n * 1_000_000_000;
    assert(nanos / 1_000_000_000 == n && nanos % 1_000_000_000 == 0);
    assert(double::quotient(0, 1_000_000_000).m == 0);
    assert(double::seconds(nanos) == double::whole(n));
    let j = lemma_normal(n);
    lemma_whole(n, j);
    lemma_hundredths(n, j);
    reveal_strlit(".");
    reveal_strlit(".00");
    assert((100 * n) / 100 == n && (100 * n) / 10 % 10 == 0 && (100 * n) % 10 == 0);
    let zero = text::digit_char(0);
    assert(text::decimal(n) + "."@ + seq![zero, zero] =~= text::decimal(n) + ".00"@);
}

/// A hundred times a number over a power of two, rounded.
proof fn lemma_hundredths(n: nat, j: nat)
    requires
        0 < n,
    ensures
        double::units(Binary { m: n * pow2(j), e: -j }, 100) == 100 * n,
{
    let p = pow2(j);
    lemma_pow2_pos(j);
    let m = n * p;
    assert(100 * m == 100 * n * p) by (nonlinear_arith)
        requires
            m == n * p,
    ;
    if j == 0 {
        lemma2_to64();
        assert(100 * m * 1 == 100 * n) by (nonlinear_arith)
            requires
                m == n * 1,
        ;
    } else {
        let t = 100 * n;
        assert(p * t == t * p) by (nonlinear_arith);
        vstd::arithmetic::div_mod::lemma_div_multiples_vanish(t as int, p as int);
        vstd::arithmetic::div_mod::lemma_mod_multiples_basic(t as int, p as int);
        assert(double::half_even(100 * m, p) == t);
    }
}

// ---------------------------------------------------------------------------
// Fractions of a unit
// ---------------------------------------------------------------------------

proof fn lemma_pow10(k: nat)
    ensures
        decimal::pow10(k) == vstd::arithmetic::power::pow(10, k),
        decimal::pow10(k) > 0,
    decreases k,
{
    reveal(vstd::arithmetic::power::pow);
    if k > 0 {
        lemma_pow10((k - 1) as nat);
    }
}

/// `size` is `n * unit / d`, but for what is cut off behind the point and the
/// last bit of 53.
pub open spec fn about(size: nat, n: nat, unit: nat, d: nat) -> bool {
    (2 * size - 1) * d <= 2 * (n * unit) && 2 * (n * unit) < (2 * size + 3) * d
}

proof fn lemma_about(n: nat, d: nat, p: nat)
    requires
        d > 0,
        n * pow2(p) < 0x8_0000_0000_0000 * d,
    ensures
        about(double::integer_part(double::nearest(n, d).shifted(p as int)), n, pow2(p), d),
        double::integer_part(double::nearest(n, d).shifted(p as int)) <= u64::MAX,
{
    lemma2_to64();
    lemma_pow2_pos(p);
    let unit = pow2(p);
    if n == 0 {
        assert(0 * unit == 0) by (nonlinear_arith);
        assert(0 * pow2(0) == 0);
        assert(double::integer_part(double::nearest(n, d).shifted(p as int)) == 0);
        assert((2 * 0 - 1) * d <= 0 && 0 < (2 * 0 + 3) * d) by (nonlinear_arith)
            requires
                d > 0,
        ;
    } else {
        law_values_have_the_nearest_bits(n, d);
        let b = double::nearest(n, d);
        let m = b.m;
        let e = b.e;
        if e >= 0 {
            let q = pow2(e as nat);
            lemma_pow2_pos(e as nat);
            assert(false) by (nonlinear_arith)
                requires
                    2 * (m * d * q - n) <= d * q,
                    m >= 0x10_0000_0000_0000,
                    q >= 1,
                    d >= 1,
                    unit >= 1,
                    n * unit < 0x8_0000_0000_0000 * d,
            {
                assert(m * d * q == m * (d * q));
                assert(m * (d * q) >= 0x10_0000_0000_0000 * (d * q));
                assert(d * q >= d);
                assert(n * unit >= n);
            }
        } else if e + p >= 0 {
            let q = pow2((-e) as nat);
            let r = pow2((e + p) as nat);
            lemma_pow2_adds((-e) as nat, (e + p) as nat);
            lemma_pow2_pos((e + p) as nat);
            assert(false) by (nonlinear_arith)
                requires
                    2 * (m * d - n * q) <= d,
                    m >= 0x10_0000_0000_0000,
                    unit == q * r,
                    r >= 1,
                    d >= 1,
                    n * unit < 0x8_0000_0000_0000 * d,
            {
                assert(m * d >= 0x10_0000_0000_0000 * d);
                assert(n * (q * r) == (n * q) * r);
                assert((n * q) * r >= n * q);
            }
        } else {
            let f = pow2((-(e + p)) as nat);
            let q = pow2((-e) as nat);
            lemma_pow2_adds((-(e + p)) as nat, p);
            lemma_pow2_pos((-(e + p)) as nat);
            assert(q == f * unit);
            let size = m / f;
            vstd::arithmetic::div_mod::lemma_fundamental_div_mod(m as int, f as int);
            assert(double::integer_part(b.shifted(p as int)) == size);
            let v = n * unit;
            assert(n * q == v * f) by (nonlinear_arith)
                requires
                    q == f * unit,
                    v == n * unit,
            ;
            let r = m % f;
            assert(m == f * size + r && r < f);
            assert((2 * size - 1) * d <= 2 * v && 2 * v < (2 * size + 3) * d) by (nonlinear_arith)
                requires
                    2 * (v * f - m * d) <= d,
                    2 * (m * d - v * f) <= d,
                    m == f * size + r,
                    0 <= r < f,
                    f >= 1,
                    d >= 1,
            {
                assert(m * d == f * size * d + r * d);
                assert(r * d <= (f - 1) * d);
                assert(2 * (v * f) >= 2 * (f * size * d) - d);
                assert(2 * (v * f) >= 2 * (f * size * d) - f * d);
                assert((2 * v) * f >= ((2 * size - 1) * d) * f);
                assert(2 * (v * f) <= 2 * (f * size * d) + 2 * ((f - 1) * d) + d);
                assert((2 * v) * f < ((2 * size + 3) * d) * f);
            }
            assert(size <= u64::MAX) by (nonlinear_arith)
                requires
                    (2 * size - 1) * d <= 2 * v,
                    v < 0x8_0000_0000_0000 * d,
                    d >= 1,
            ;
        }
    }
}

/// A decimal fraction of a unit is read as that many bytes, to the byte.
pub proof fn law_fractions_of_units(
    before: Seq<char>,
    behind: Seq<char>,
    suffix: Seq<char>,
    size: nat,
)
    requires
        text::all_digits(before),
        text::all_digits(behind),
        before.len() + behind.len() > 0,
        stands_for(suffix, size),
        text::value_of(before + behind) * size < 0x8_0000_0000_0000
            * vstd::arithmetic::power::pow(10, behind.len()),
    ensures
        ({
            let read = sizes::flexible(before + seq!['.'] + behind + suffix);
            &&& read is Some
            &&& about(
                read->0,
                text::value_of(before + behind),
                size,
                vstd::arithmetic::power::pow(10, behind.len()) as nat,
            )
        }),
{
    lemma2_to64();
    lemma2_to64_rest();
    lemma_suffix_letters();
    let p: nat = if size == 1 {
        0
    } else if size == 1024 {
        10
    } else if size == 1024 * 1024 {
        20
    } else if size == 1024 * 1024 * 1024 {
        30
    } else {
        40
    };
    assert(size == pow2(p));
    assert(sizes::suffix_power(suffix) == Some(p as int));
    let number = before + seq!['.'] + behind;
    lemma_cleaned_concat(number, suffix);
    lemma_cleaned_concat(before + seq!['.'], behind);
    lemma_cleaned_concat(before, seq!['.']);
    lemma_cleaned_digits(before);
    lemma_cleaned_digits(behind);
    lemma_cleaned_one('.');
    assert(sizes::cleaned(number) == number);
    assert forall|k: int| 0 <= k < number.len() implies sizes::numeric(#[trigger] number[k]) by {
        if k < before.len() {
            assert(number[k] == before[k]);
            assert(text::is_digit(before[k]));
        } else if k > before.len() {
            assert(number[k] == behind[k - before.len() - 1]);
            assert(text::is_digit(behind[k - before.len() - 1]));
        }
    }
    lemma_splits(number, suffix);
    assert(number =~= before + (seq!['.'] + behind));
    lemma_ends(before, seq!['.'] + behind, 0);
    let dot = before.len() as int;
    assert(number.take(dot) =~= before);
    assert(number.skip(dot + 1) =~= behind);
    lemma_pow10(behind.len());
    lemma_about(text::value_of(before + behind), decimal::pow10(behind.len()), p);
}

/// Letters that spell no unit make no size.
pub proof fn law_unknown_units_are_refused(digits: Seq<char>, suffix: Seq<char>)
    requires
        text::all_digits(digits),
        suffix.len() > 0,
        forall|k: int| 0 <= k < suffix.len() ==> 'a' <= #[trigger] suffix[k] <= 'z',
        forall|size: nat| !#[trigger] stands_for(suffix, size),
    ensures
        sizes::flexible(digits + suffix) is None,
{
    lemma_cleaned_concat(digits, suffix);
    lemma_cleaned_digits(digits);
    lemma_cleaned_letters(suffix);
    assert('a' <= suffix[0] <= 'z');
    assert forall|k: int| 0 <= k < digits.len() implies sizes::numeric(#[trigger] digits[k]) by {
        assert(text::is_digit(digits[k]));
    }
    lemma_splits(digits, suffix);
    assert(!stands_for(suffix, 1) && !stands_for(suffix, 1024));
    assert(!stands_for(suffix, 1024 * 1024) && !stands_for(suffix, 1024 * 1024 * 1024));
    assert(!stands_for(suffix, 1024 * 1024 * 1024 * 1024));
    reveal_strlit("");
    assert(""@.len() == 0);
}

} // verus!
