//! Decimal fractions of any length, rounded to binary.

use vstd::arithmetic::power2::*;
use vstd::prelude::*;

use crate::double;
use crate::double::{Binary, Double, LEAST, LIMIT};
use crate::text;

verus! {

/// `10^k`.
pub open spec fn pow10(k: nat) -> nat
    decreases k,
{
    if k == 0 {
        1
    } else {
        10 * pow10((k - 1) as nat)
    }
}

/// The value nearest to the number spelled by the digits before and behind a
/// decimal point.
pub open spec fn spelled(before: Seq<char>, behind: Seq<char>) -> Binary {
    double::nearest(text::value_of(before + behind), pow10(behind.len()))
}

// ---------------------------------------------------------------------------
// Digits
// ---------------------------------------------------------------------------

/// The number that some digits make, the first of them the highest.
spec fn number(digits: Seq<u8>) -> nat
    decreases digits.len(),
{
    if digits.len() == 0 {
        0
    } else {
        number(digits.drop_last()) * 10 + digits.last() as nat
    }
}

/// Every item is a digit.
spec fn are_digits(digits: Seq<u8>) -> bool {
    forall|k: int| 0 <= k < digits.len() ==> #[trigger] digits[k] < 10
}

proof fn lemma_pow10_pos(k: nat)
    ensures
        pow10(k) > 0,
    decreases k,
{
    if k > 0 {
        lemma_pow10_pos((k - 1) as nat);
    }
}

proof fn lemma_number_bound(digits: Seq<u8>)
    requires
        are_digits(digits),
    ensures
        number(digits) < pow10(digits.len()),
    decreases digits.len(),
{
    if digits.len() > 0 {
        lemma_number_bound(digits.drop_last());
        assert(digits.last() < 10);
    }
}

/// A digit in front counts as often as the digits behind it have values.
proof fn lemma_number_front(digits: Seq<u8>)
    requires
        digits.len() > 0,
    ensures
        number(digits) == digits[0] * pow10((digits.len() - 1) as nat) + number(
            digits.drop_first(),
        ),
    decreases digits.len(),
{
    if digits.len() == 1 {
        assert(digits.drop_last() =~= Seq::<u8>::empty());
        assert(digits.drop_first() =~= Seq::<u8>::empty());
        assert(pow10(0) == 1 && number(Seq::<u8>::empty()) == 0);
        assert(digits[0] * pow10(0) == digits[0]) by (nonlinear_arith)
            requires
                pow10(0) == 1,
        ;
    } else {
        let less = digits.drop_last();
        lemma_number_front(less);
        assert(digits.drop_first().drop_last() =~= less.drop_first());
        assert(digits.drop_first().last() == digits.last());
        let p = pow10((less.len() - 1) as nat);
        assert(pow10((digits.len() - 1) as nat) == 10 * p);
        assert((less[0] * p + number(less.drop_first())) * 10 == less[0] * (10 * p) + number(
            less.drop_first(),
        ) * 10) by (nonlinear_arith);
    }
}

/// The digits of two runs make the first number, moved up, and the second.
proof fn lemma_value_concat(a: Seq<char>, b: Seq<char>)
    ensures
        text::value_of(a + b) == text::value_of(a) * pow10(b.len()) + text::value_of(b),
    decreases b.len(),
{
    if b.len() == 0 {
        assert(a + b =~= a);
        assert(text::value_of(a) * 1 == text::value_of(a));
    } else {
        let less = b.drop_last();
        lemma_value_concat(a, less);
        assert((a + b).drop_last() =~= a + less);
        let (x, y, p) = (text::value_of(a), text::value_of(less), pow10(less.len()));
        assert((x * p + y) * 10 == x * (10 * p) + y * 10) by (nonlinear_arith);
    }
}

/// The digits that some characters spell.
fn digits_of(chars: &[char]) -> (digits: Vec<u8>)
    requires
        text::all_digits(chars@),
    ensures
        digits@.len() == chars@.len(),
        are_digits(digits@),
        number(digits@) == text::value_of(chars@),
{
    let mut digits: Vec<u8> = Vec::new();
    let mut i: usize = 0;
    while i < chars.len()
        invariant
            i <= chars@.len(),
            text::all_digits(chars@),
            digits@.len() == i,
            are_digits(digits@),
            number(digits@) == text::value_of(chars@.take(i as int)),
        decreases chars@.len() - i,
    {
        let ch = chars[i];
        assert(text::is_digit(chars@[i as int]));
        let digit: u8 = (ch as u32 - '0' as u32) as u8;
        proof {
            assert(digits@.push(digit).drop_last() =~= digits@);
            assert(chars@.take(i + 1).drop_last() =~= chars@.take(i as int));
        }
        digits.push(digit);
        i += 1;
    }
    assert(chars@.take(i as int) =~= chars@);
    digits
}

/// Doubles the fraction that some digits spell behind a decimal point, and
/// gives the carry before the point.
fn double_digits(digits: &mut Vec<u8>) -> (carry: u8)
    requires
        are_digits(old(digits)@),
    ensures
        final(digits)@.len() == old(digits)@.len(),
        are_digits(final(digits)@),
        carry <= 1,
        2 * number(old(digits)@) == carry * pow10(old(digits)@.len()) + number(final(digits)@),
{
    let ghost before = digits@;
    let mut carry: u8 = 0;
    let mut i: usize = digits.len();
    proof {
        assert(digits@.skip(i as int) =~= Seq::<u8>::empty());
        assert(before.skip(i as int) =~= Seq::<u8>::empty());
    }
    while i > 0
        invariant
            i <= digits@.len(),
            digits@.len() == before.len(),
            are_digits(before),
            are_digits(digits@),
            carry <= 1,
            digits@.take(i as int) == before.take(i as int),
            2 * number(before.skip(i as int)) == carry * pow10((before.len() - i) as nat) + number(
                digits@.skip(i as int),
            ),
        decreases i,
    {
        let ghost low = digits@.skip(i as int);
        let ghost old_low = before.skip(i as int);
        let ghost c = carry as nat;
        i -= 1;
        assert(digits@[i as int] == digits@.take(i + 1)[i as int]);
        assert(before[i as int] == before.take(i + 1)[i as int]);
        let x: u8 = 2 * digits[i] + carry;
        digits.set(i, x % 10);
        carry = x / 10;
        proof {
            let new_low = digits@.skip(i as int);
            let new_old = before.skip(i as int);
            assert(new_low.drop_first() =~= low);
            assert(new_old.drop_first() =~= old_low);
            lemma_number_front(new_low);
            lemma_number_front(new_old);
            let p = pow10(low.len());
            let d = before[i as int] as nat;
            assert(x == carry * 10 + x % 10);
            assert(2 * (d * p + number(old_low)) == carry * (10 * p) + ((x % 10) * p + number(low)))
                by (nonlinear_arith)
                requires
                    2 * number(old_low) == c * p + number(low),
                    x == 2 * d + c,
                    x == carry * 10 + x % 10,
            ;
            assert(digits@.take(i as int) =~= before.take(i as int));
        }
    }
    proof {
        assert(digits@.skip(0) =~= digits@);
        assert(before.skip(0) =~= before);
    }
    carry
}

/// Whether some digit is not zero.
fn any_digit(digits: &Vec<u8>) -> (yes: bool)
    ensures
        yes == (number(digits@) > 0),
{
    let mut i: usize = 0;
    proof {
        assert(digits@.take(0) =~= Seq::<u8>::empty());
    }
    while i < digits.len()
        invariant
            i <= digits@.len(),
            number(digits@.take(i as int)) == 0,
        decreases digits@.len() - i,
    {
        assert(digits@.take(i + 1).drop_last() =~= digits@.take(i as int));
        if digits[i] != 0 {
            proof {
                lemma_number_prefix(digits@, i + 1);
            }
            return true;
        }
        i += 1;
    }
    assert(digits@.take(i as int) =~= digits@);
    false
}

proof fn lemma_number_prefix(digits: Seq<u8>, k: int)
    requires
        0 <= k <= digits.len(),
    ensures
        number(digits.take(k)) <= number(digits),
    decreases digits.len() - k,
{
    if k < digits.len() {
        lemma_number_prefix(digits, k + 1);
        assert(digits.take(k + 1).drop_last() =~= digits.take(k));
    } else {
        assert(digits.take(k) =~= digits);
    }
}

// ---------------------------------------------------------------------------
// Rounding
// ---------------------------------------------------------------------------

/// A quotient below 2^53 has no bits left out before the point.
proof fn lemma_exponent_upper(n: nat, d: nat)
    requires
        d > 0,
        n < LIMIT * d,
    ensures
        double::nearest(n, d).e <= 1,
    decreases double::distance(n, d),
{
    if n > 0 && n < LEAST * d {
        lemma_exponent_upper(2 * n, d);
    }
}

/// A quotient of 2^64 or more stays so when it is rounded.
proof fn lemma_large(n: nat, d: nat, f: nat)
    requires
        d > 0,
        n >= 0x1_0000_0000_0000_0000 * d,
    ensures
        double::integer_part(double::nearest(n, d).shifted(f as int)) > u64::MAX,
{
    lemma2_to64();
    lemma2_to64_rest();
    lemma_steps(n, d, 12);
    let b = double::nearest(n, d * 0x1000);
    assert(n >= LEAST * (d * 0x1000));
    double::lemma_nearest(n, d * 0x1000);
    double::lemma_not_fractional(n, d * 0x1000);
    let e = (b.e + 12 + f) as nat;
    double::lemma_pow2_at_least(e, 12);
    assert(b.m * pow2(e) >= LEAST * 0x1000) by (nonlinear_arith)
        requires
            b.m >= LEAST,
            pow2(e) >= 0x1000,
    ;
}

/// Halving `i` times before rounding.
proof fn lemma_steps(n: nat, d: nat, i: nat)
    requires
        d > 0,
        n >= LEAST * (d * pow2(i)),
    ensures
        double::nearest(n, d) == double::nearest(n, d * pow2(i)).shifted(i as int),
    decreases i,
{
    lemma2_to64();
    if i == 0 {
        assert(d * pow2(0) == d);
    } else {
        let j = (i - 1) as nat;
        lemma_pow2_unfold(i);
        lemma_pow2_pos(j);
        let x = d * pow2(j);
        assert(d * pow2(i) == 2 * x) by (nonlinear_arith)
            requires
                pow2(i) == 2 * pow2(j),
                x == d * pow2(j),
        ;
        assert(x > 0) by (nonlinear_arith)
            requires
                x == d * pow2(j),
                d > 0,
                pow2(j) > 0,
        ;
        lemma_steps(n, d, j);
        assert(double::nearest(n, x) == double::nearest(n, 2 * x).shifted(1));
    }
}

/// Doubling `t` times before rounding.
proof fn lemma_double_step(n: nat, d: nat, t: nat)
    requires
        d > 0,
        n > 0,
        n * pow2(t) < LEAST * d,
    ensures
        double::nearest(n * pow2(t), d) == double::nearest(n * pow2(t + 1), d).shifted(-1),
        n * pow2(t) > 0,
        n * pow2(t + 1) == 2 * (n * pow2(t)),
{
    lemma_pow2_unfold(t + 1);
    lemma_pow2_pos(t);
    assert(n * pow2(t) > 0) by (nonlinear_arith)
        requires
            n > 0,
            pow2(t) > 0,
    ;
    assert(n * pow2(t + 1) == 2 * (n * pow2(t))) by (nonlinear_arith)
        requires
            pow2(t + 1) == 2 * pow2(t),
    ;
}

/// The significand where `top` and a fraction of `1` make up the quotient.
fn round_fraction(top: u64, digits: Vec<u8>, Ghost(n): Ghost<nat>) -> (out: u64)
    requires
        are_digits(digits@),
        top < LIMIT,
        n == top * pow10(digits@.len()) + number(digits@),
    ensures
        out == double::half_even(n, pow10(digits@.len())),
{
    let ghost p = pow10(digits@.len());
    let ghost r = number(digits@);
    proof {
        lemma_pow10_pos(digits@.len());
        lemma_number_bound(digits@);
        assert(n / p == top && n % p == r) by (nonlinear_arith)
            requires
                n == top * p + r,
                0 <= r < p,
        ;
    }
    let mut rest = digits;
    let carry: u8 = double_digits(&mut rest);
    proof {
        lemma_number_bound(rest@);
        assert(carry * p == (if carry == 0 {
            0
        } else {
            p as int
        })) by (nonlinear_arith)
            requires
                carry == 0 || carry == 1,
        ;
    }
    if carry == 1 && (any_digit(&rest) || top % 2 == 1) {
        top + 1
    } else {
        top
    }
}

/// The integer part of `2^f` times the number spelled by the digits before
/// and behind a decimal point, rounded to 53 bits, where it fits.
pub fn scaled(before: &[char], behind: &[char], f: i32) -> (out: Option<u64>)
    requires
        text::all_digits(before@),
        text::all_digits(behind@),
        0 <= f <= 40,
    ensures
        match out {
            Some(n) => n == double::integer_part(spelled(before@, behind@).shifted(f as int)),
            None => double::integer_part(spelled(before@, behind@).shifted(f as int)) > u64::MAX,
        },
{
    let ghost p = pow10(behind@.len());
    let ghost n = text::value_of(before@ + behind@);
    proof {
        lemma_pow10_pos(behind@.len());
        lemma_value_concat(before@, behind@);
        assert(before@.subrange(0, before@.len() as int) =~= before@);
        lemma2_to64();
        lemma2_to64_rest();
    }
    let integer: u64 = match text::read_digits(before, 0, before.len(), u64::MAX) {
        Some(value) => value,
        None => {
            proof {
                assert(n >= 0x1_0000_0000_0000_0000 * p) by (nonlinear_arith)
                    requires
                        n >= text::value_of(before@) * p,
                        text::value_of(before@) >= 0x1_0000_0000_0000_0000,
                        p > 0,
                ;
                lemma_large(n, p, f as nat);
            }
            return None;
        },
    };
    let mut digits = digits_of(behind);
    if integer == 0 && !any_digit(&digits) {
        assert(n == 0) by (nonlinear_arith)
            requires
                n == integer * p + number(digits@),
                integer == 0,
                number(digits@) == 0,
        ;
        assert(0 * pow2(0) == 0);
        return Some(0);
    }
    if integer >= LIMIT {
        return round_large(integer, digits, f, Ghost(n));
    }
    let mut top: u64 = integer;
    let mut t: i32 = 0;
    proof {
        assert(n * pow2(0) == n);
        if integer > 0 {
            assert(integer * p > 0) by (nonlinear_arith)
                requires
                    integer > 0,
                    p > 0,
            ;
        }
        assert(double::nearest(n, p).shifted(0) == double::nearest(n, p));
    }
    while top < LEAST && t < 94
        invariant
            0 <= t <= 94,
            n > 0,
            p == pow10(digits@.len()),
            p > 0,
            are_digits(digits@),
            top < LIMIT,
            n * pow2(t as nat) == top * p + number(digits@),
            double::nearest(n, p) == double::nearest(n * pow2(t as nat), p).shifted(-t as int),
        decreases 94 - t,
    {
        let ghost r = number(digits@);
        proof {
            lemma_number_bound(digits@);
            assert(top * p + r < LEAST * p) by (nonlinear_arith)
                requires
                    top + 1 <= LEAST,
                    r < p,
                    p > 0,
            ;
            lemma_double_step(n, p, t as nat);
        }
        let carry: u8 = double_digits(&mut digits);
        proof {
            let r2 = number(digits@);
            assert(2 * (top * p + r) == (2 * top + carry) * p + r2) by (nonlinear_arith)
                requires
                    2 * r == carry * p + r2,
            ;
        }
        top = 2 * top + carry as u64;
        t = t + 1;
    }
    if top < LEAST {
        proof {
            lemma_number_bound(digits@);
            let r = number(digits@);
            let x = n * pow2(94);
            assert(x < LIMIT * p) by (nonlinear_arith)
                requires
                    x == top * p + r,
                    top + 1 <= LIMIT,
                    r < p,
                    p > 0,
            ;
            lemma_exponent_upper(x, p);
            let b = double::nearest(n, p).shifted(f as int);
            lemma_pow2_pos(94);
            double::lemma_nearest(n, p);
            double::lemma_pow2_at_least((-b.e) as nat, 53);
            assert(b.m / pow2((-b.e) as nat) == 0) by (nonlinear_arith)
                requires
                    0 <= b.m < pow2((-b.e) as nat),
            ;
        }
        return Some(0);
    }
    let ghost x = n * pow2(t as nat);
    proof {
        let r = number(digits@);
        lemma_number_bound(digits@);
        assert(LEAST * p <= x < LIMIT * p) by (nonlinear_arith)
            requires
                x == top * p + r,
                LEAST <= top,
                top + 1 <= LIMIT,
                r < p,
                p > 0,
        ;
        double::lemma_half_even_bounds(x, p, LEAST as nat, LIMIT as nat);
    }
    let m: u64 = round_fraction(top, digits, Ghost(x));
    let value = if m == LIMIT {
        Double { m: LEAST, e: 1 - t + f }
    } else {
        Double { m, e: f - t }
    };
    assert(value@ == spelled(before@, behind@).shifted(f as int));
    value.integer()
}

/// [`scaled`] where there are more than 53 bits before the point.
fn round_large(top: u64, digits: Vec<u8>, f: i32, Ghost(n): Ghost<nat>) -> (out: Option<u64>)
    requires
        are_digits(digits@),
        top >= LIMIT,
        n == top * pow10(digits@.len()) + number(digits@),
        0 <= f <= 40,
    ensures
        ({
            let want = double::nearest(n, pow10(digits@.len())).shifted(f as int);
            match out {
                Some(value) => value == double::integer_part(want),
                None => double::integer_part(want) > u64::MAX,
            }
        }),
{
    let ghost p = pow10(digits@.len());
    let ghost r = number(digits@);
    proof {
        lemma_pow10_pos(digits@.len());
        lemma_number_bound(digits@);
        lemma2_to64();
    }
    let mut unit: u64 = 2;
    let mut e: i32 = 1;
    while top / unit >= LIMIT
        invariant
            1 <= e <= 11,
            unit == pow2(e as nat),
            unit >= 2,
            LEAST * unit <= top,
        decreases top / unit,
    {
        proof {
            lemma2_to64();
            lemma_pow2_unfold((e + 1) as nat);
            assert(top >= LIMIT * unit) by (nonlinear_arith)
                requires
                    top / unit >= LIMIT,
                    unit > 0,
            ;
            if e == 11 {
                assert(unit == 0x800);
            }
            assert(top / ((2 * unit) as u64) < top / unit) by (nonlinear_arith)
                requires
                    unit > 0,
                    top >= LIMIT * unit,
                    2 * unit <= u64::MAX,
            ;
        }
        unit = unit * 2;
        e = e + 1;
    }
    let q: u64 = top / unit;
    let low: u64 = top % unit;
    let half: u64 = unit / 2;
    let ghost d = p * pow2(e as nat);
    proof {
        lemma_pow2_unfold(e as nat);
        assert(unit == 2 * half);
        assert(top == q * unit + low) by (nonlinear_arith)
            requires
                q == top / unit,
                low == top % unit,
                unit > 0,
        ;
        assert(n >= LEAST * d) by (nonlinear_arith)
            requires
                n >= top * p,
                top >= LEAST * unit,
                d == p * unit,
                p > 0,
        ;
        assert(n == q * d + (low * p + r)) by (nonlinear_arith)
            requires
                n == top * p + r,
                top == q * unit + low,
                d == p * unit,
        ;
        assert(low * p + r < d) by (nonlinear_arith)
            requires
                low + 1 <= unit,
                r < p,
                d == p * unit,
                p > 0,
        ;
        assert(n / d == q && n % d == low * p + r) by (nonlinear_arith)
            requires
                n == q * d + (low * p + r),
                0 <= low * p + r < d,
        ;
        assert(n < LIMIT * d) by (nonlinear_arith)
            requires
                n == q * d + (low * p + r),
                low * p + r < d,
                q + 1 <= LIMIT,
        ;
        lemma_steps(n, p, e as nat);
        double::lemma_half_even_bounds(n, d, LEAST as nat, LIMIT as nat);
        if low > half {
            assert(2 * (low * p + r) > d) by (nonlinear_arith)
                requires
                    low >= half + 1,
                    d == p * (2 * half),
                    p > 0,
                    r >= 0,
            ;
        } else if low == half {
            assert(2 * (low * p + r) == d + 2 * r) by (nonlinear_arith)
                requires
                    low == half,
                    d == p * (2 * half),
            ;
        } else {
            assert(2 * (low * p + r) < d) by (nonlinear_arith)
                requires
                    low + 1 <= half,
                    r < p,
                    d == p * (2 * half),
                    p > 0,
            ;
        }
    }
    let up = low > half || (low == half && (any_digit(&digits) || q % 2 == 1));
    let m: u64 = if up {
        q + 1
    } else {
        q
    };
    assert(m == double::half_even(n, d));
    let value = if m == LIMIT {
        Double { m: LEAST, e: e + 1 + f }
    } else {
        Double { m, e: e + f }
    };
    assert(value@ == double::nearest(n, p).shifted(f as int));
    value.integer()
}

} // verus!
