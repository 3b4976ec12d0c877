//! Binary floating point, exactly.
//!
//! Human-readable quantities are quotients rounded to 53 significant bits, the
//! precision of double arithmetic, and then rounded once more to a few decimal
//! digits; both roundings go to the nearest value and break ties towards the
//! even one. This module computes such values with integers.

use vstd::arithmetic::power2::*;
use vstd::prelude::*;

use crate::duration::Duration;
use crate::text;

pub mod decimal;

verus! {

/// 2^52, the smallest significand of 53 bits.
pub const LEAST: u64 = 0x10_0000_0000_0000;

/// 2^53, the first number too large for a significand of 53 bits.
pub const LIMIT: u64 = 0x20_0000_0000_0000;

/// `n / d`, rounded to the nearest integer, ties to the even one.
pub open spec fn half_even(n: nat, d: nat) -> nat {
    let q = n / d;
    let r = n % d;
    if 2 * r > d || (2 * r == d && q % 2 == 1) {
        q + 1
    } else {
        q
    }
}

/// The value `m * 2^e`.
pub struct Binary {
    /// The significand: zero, or a number of 53 bits.
    pub m: nat,
    /// The exponent.
    pub e: int,
}

impl Binary {
    /// The value times `2^k`.
    pub open spec fn shifted(self, k: int) -> Binary {
        if self.m == 0 {
            self
        } else {
            Binary { m: self.m, e: self.e + k }
        }
    }
}

/// How far `n / d` is from having 53 bits before the point.
pub open spec fn distance(n: nat, d: nat) -> nat {
    if n < LEAST * d {
        (LEAST * d - n) as nat
    } else if n >= LIMIT * d {
        (n - LIMIT * d + 1) as nat
    } else {
        0
    }
}

/// The value of 53 significant bits nearest to `n / d`.
pub open spec fn nearest(n: nat, d: nat) -> Binary
    decreases distance(n, d),
{
    if n == 0 || d == 0 {
        Binary { m: 0, e: 0 }
    } else if n < LEAST * d {
        nearest(2 * n, d).shifted(-1)
    } else if n >= LIMIT * d {
        nearest(n, 2 * d).shifted(1)
    } else {
        let m = half_even(n, d);
        if m == LIMIT {
            Binary { m: LEAST as nat, e: 1 }
        } else {
            Binary { m, e: 0 }
        }
    }
}

/// A whole number.
pub open spec fn whole(n: nat) -> Binary {
    nearest(n, 1)
}

/// One value divided by another.
pub open spec fn divide(a: Binary, b: Binary) -> Binary {
    nearest(a.m, b.m).shifted(a.e - b.e)
}

/// One whole number divided by another.
pub open spec fn quotient(n: nat, d: nat) -> Binary {
    divide(whole(n), whole(d))
}

/// The sum of two values, the second of them not coarser than the first.
pub open spec fn aligned_sum(a: Binary, b: Binary) -> Binary {
    nearest(a.m * pow2((a.e - b.e) as nat) + b.m, 1).shifted(b.e)
}

/// The sum of two values.
pub open spec fn sum(a: Binary, b: Binary) -> Binary {
    if b.m == 0 {
        a
    } else if a.m == 0 {
        b
    } else if a.e >= b.e {
        aligned_sum(a, b)
    } else {
        aligned_sum(b, a)
    }
}

/// A number of nanoseconds in seconds: the whole seconds and the fraction of
/// the last one, each rounded, and then their sum.
pub open spec fn seconds(nanos: nat) -> Binary {
    sum(whole(nanos / 1_000_000_000), quotient(nanos % 1_000_000_000, 1_000_000_000))
}

/// The integer part.
pub open spec fn integer_part(b: Binary) -> nat {
    if b.e >= 0 {
        b.m * pow2(b.e as nat)
    } else {
        b.m / pow2((-b.e) as nat)
    }
}

/// The integer part, or `u64::MAX` where that is larger.
pub open spec fn truncated(b: Binary) -> nat {
    if integer_part(b) <= u64::MAX {
        integer_part(b)
    } else {
        u64::MAX as nat
    }
}

/// The value in units of `1 / scale`, rounded to the nearest whole unit, ties
/// to the even one.
pub open spec fn units(b: Binary, scale: nat) -> nat {
    if b.e >= 0 {
        scale * b.m * pow2(b.e as nat)
    } else {
        half_even(scale * b.m, pow2((-b.e) as nat))
    }
}

/// The value with one decimal digit.
pub open spec fn one_decimal(b: Binary) -> Seq<char> {
    let n = units(b, 10);
    text::decimal(n / 10) + "."@ + seq![text::digit_char(n % 10)]
}

/// The value with two decimal digits.
pub open spec fn two_decimals(b: Binary) -> Seq<char> {
    let n = units(b, 100);
    text::decimal(n / 100) + "."@ + seq![
        text::digit_char(n / 10 % 10),
        text::digit_char(n % 10),
    ]
}

// ---------------------------------------------------------------------------
// Computation
// ---------------------------------------------------------------------------

/// A value of 53 significant bits.
#[derive(Debug, Clone, Copy)]
pub struct Double {
    m: u64,
    e: i32,
}

impl View for Double {
    type V = Binary;

    closed spec fn view(&self) -> Binary {
        Binary { m: self.m as nat, e: self.e as int }
    }
}

impl Double {
    /// The significand has 53 bits, or all is zero.
    pub closed spec fn wf(&self) -> bool {
        &&& self.m == 0 ==> self.e == 0
        &&& self.m != 0 ==> LEAST <= self.m < LIMIT
        &&& -3000 <= self.e <= 3000
    }
}

/// `2^k`.
fn power(k: u32) -> (out: u128)
    requires
        k < 128,
    ensures
        out == pow2(k as nat),
{
    let mut out: u128 = 1;
    let mut i: u32 = 0;
    proof {
        lemma2_to64();
    }
    while i < k
        invariant
            i <= k < 128,
            out == pow2(i as nat),
        decreases k - i,
    {
        proof {
            lemma_pow2_unfold((i + 1) as nat);
            lemma_pow2_small((i + 1) as nat);
        }
        out = out * 2;
        i += 1;
    }
    out
}

/// The powers of two that fit in 128 bits.
proof fn lemma_pow2_small(k: nat)
    requires
        k < 128,
    ensures
        pow2(k) <= u128::MAX,
{
    lemma2_to64();
    if k > 64 {
        lemma_pow2_adds(64, (k - 64) as nat);
        if k - 64 < 63 {
            lemma_pow2_strictly_increases((k - 64) as nat, 63);
        }
        lemma2_to64_rest();
        assert(pow2(64) * pow2((k - 64) as nat) <= u128::MAX) by (nonlinear_arith)
            requires
                pow2(64) == 0x1_0000_0000_0000_0000,
                pow2((k - 64) as nat) <= 0x8000_0000_0000_0000,
        ;
    } else if k < 64 {
        lemma_pow2_strictly_increases(k, 64);
    }
}

/// `n / d`, rounded to the nearest integer, ties to the even one.
fn round(n: u128, d: u128) -> (out: u128)
    requires
        0 < d <= 0x4000_0000_0000_0000_0000_0000_0000_0000,
    ensures
        out == half_even(n as nat, d as nat),
{
    let q: u128 = n / d;
    let r: u128 = n % d;
    if 2 * r > d || (2 * r == d && q % 2 == 1) {
        proof {
            if d == 1 {
                assert(r == 0);
            }
            assert(q < u128::MAX) by (nonlinear_arith)
                requires
                    q == n / d,
                    d >= 2,
                    n <= u128::MAX,
            ;
        }
        q + 1
    } else {
        q
    }
}

/// Shifts add up.
proof fn lemma_shifts(b: Binary, j: int, k: int)
    ensures
        b.shifted(j).shifted(k) == b.shifted(j + k),
        b.shifted(0) == b,
{
}

/// Rounding stays between the integers around the quotient.
pub proof fn lemma_half_even_bounds(n: nat, d: nat, low: nat, high: nat)
    requires
        0 < d,
        low * d <= n < high * d,
    ensures
        low <= half_even(n, d) <= high,
{
    assert(low <= n / d < high) by (nonlinear_arith)
        requires
            0 < d,
            low * d <= n < high * d,
    ;
}

/// A value of 53 bits has a significand of 53 bits, and is not zero.
pub proof fn lemma_nearest(n: nat, d: nat)
    requires
        n > 0,
        d > 0,
    ensures
        LEAST <= nearest(n, d).m < LIMIT,
    decreases distance(n, d),
{
    if n < LEAST * d {
        lemma_nearest(2 * n, d);
    } else if n >= LIMIT * d {
        lemma_nearest(n, 2 * d);
    } else {
        lemma_half_even_bounds(n, d, LEAST as nat, LIMIT as nat);
    }
}

/// A quotient of 2^52 or more keeps no bits behind the point.
pub proof fn lemma_not_fractional(n: nat, d: nat)
    requires
        d > 0,
        n >= LEAST * d,
    ensures
        nearest(n, d).e >= 0,
{
    lemma2_to64();
    assert(n * pow2(0) == n) by (nonlinear_arith)
        requires
            pow2(0) == 1,
    ;
    lemma_exponent(n, d, 0);
}

/// A quotient that is not below `2^(52-j)` keeps at most `j` bits behind the
/// point.
proof fn lemma_exponent(n: nat, d: nat, j: nat)
    requires
        n > 0,
        d > 0,
        n * pow2(j) >= LEAST * d,
    ensures
        nearest(n, d).e >= -j,
    decreases distance(n, d), j,
{
    lemma2_to64();
    if n < LEAST * d {
        if j == 0 {
            assert(n * pow2(0) == n) by (nonlinear_arith)
                requires
                    pow2(0) == 1,
            ;
        } else {
            let i = (j - 1) as nat;
            lemma_pow2_unfold(j);
            assert((2 * n) * pow2(i) == n * pow2(j)) by (nonlinear_arith)
                requires
                    pow2(j) == 2 * pow2(i),
            ;
            lemma_exponent(2 * n, d, i);
            lemma_nearest(2 * n, d);
        }
    } else if n >= LIMIT * d {
        lemma_nearest(n, 2 * d);
        assert(n * pow2(0) == n) by (nonlinear_arith)
            requires
                pow2(0) == 1,
        ;
        lemma_exponent(n, 2 * d, 0);
    }
}

proof fn lemma_pow2_118()
    ensures
        pow2(118) == 0x40_0000_0000_0000_0000_0000_0000_0000,
{
    lemma2_to64();
    lemma2_to64_rest();
    lemma_pow2_adds(64, 54);
}

/// The value nearest to `n / d`.
fn ratio(n: u128, d: u128) -> (out: Double)
    requires
        n < 0x1_0000_0000_0000_0000_0000_0000_0000,
        0 < d <= 0x1_0000_0000_0000_0000,
    ensures
        out@ == nearest(n as nat, d as nat),
        out.wf(),
        -200 <= out@.e <= 200,
        out@.e >= 1 ==> LEAST * pow2((out@.e - 1) as nat) <= n,
        out@.m > 0 <==> n > 0,
{
    if n == 0 {
        return Double { m: 0, e: 0 };
    }
    let mut top: u128 = n;
    let mut bottom: u128 = d;
    let mut e: i32 = 0;
    proof {
        lemma2_to64();
        lemma_shifts(nearest(n as nat, d as nat), 0, 0);
    }
    while top < LEAST as u128 * bottom
        invariant
            0 < top,
            top < 0x1_0000_0000_0000_0000_0000_0000_0000 || top < LIMIT * bottom,
            0 < bottom <= 0x1_0000_0000_0000_0000,
            bottom == d,
            n > 0,
            -118 <= e <= 0,
            e == 0 ==> top == n,
            e == 0 || top < LIMIT * bottom,
            pow2((-e) as nat) <= top,
            nearest(n as nat, d as nat) == nearest(top as nat, bottom as nat).shifted(e as int),
        decreases LIMIT * bottom - top,
    {
        proof {
            lemma_pow2_unfold((1 - e) as nat);
            lemma_nearest(2 * top as nat, bottom as nat);
            lemma_shifts(nearest(2 * top as nat, bottom as nat), -1, e as int);
            assert(LEAST * bottom <= LEAST * 0x1_0000_0000_0000_0000);
            if e == -118 {
                lemma_pow2_118();
            }
        }
        top = top * 2;
        e = e - 1;
    }
    while top >= LIMIT as u128 * bottom
        invariant
            0 < top,
            e >= 0 ==> top == n,
            e == 0 ==> bottom == d,
            d > 0,
            n > 0,
            top < 0x1_0000_0000_0000_0000_0000_0000_0000 || top < LIMIT * bottom,
            0 < bottom <= 0x1_0000_0000_0000_0000,
            LEAST * bottom <= top,
            e >= 0 || top < LIMIT * bottom,
            -118 <= e <= 64,
            e >= 0 ==> pow2(e as nat) <= bottom,
            nearest(n as nat, d as nat) == nearest(top as nat, bottom as nat).shifted(e as int),
        decreases top - bottom,
    {
        proof {
            lemma_pow2_unfold((e + 1) as nat);
            lemma_nearest(top as nat, 2 * bottom as nat);
            lemma_shifts(nearest(top as nat, 2 * bottom as nat), 1, e as int);
            lemma2_to64();
            if e == 64 {
                assert(false);
            }
        }
        bottom = bottom * 2;
        e = e + 1;
    }
    let m: u128 = round(top, bottom);
    proof {
        lemma_half_even_bounds(top as nat, bottom as nat, LEAST as nat, LIMIT as nat);
    }
    proof {
        if e >= 0 {
            assert(LEAST * pow2(e as nat) <= LEAST * bottom) by (nonlinear_arith)
                requires
                    pow2(e as nat) <= bottom,
            ;
            if e >= 1 {
                lemma_pow2_unfold(e as nat);
            }
        }
    }
    if m == LIMIT as u128 {
        Double { m: LEAST, e: e + 1 }
    } else {
        Double { m: m as u64, e }
    }
}

impl Double {
    /// A whole number.
    pub fn whole(n: u64) -> (out: Double)
        ensures
            out@ == whole(n as nat),
            out.wf(),
            -200 <= out@.e <= 13,
            n > 0 ==> -52 <= out@.e,
            n < LEAST ==> out@.e <= 0,
            out@.m > 0 <==> n > 0,
    {
        let out = ratio(n as u128, 1);
        proof {
            if n > 0 {
                lemma2_to64_rest();
                assert(n * pow2(52) >= LEAST) by (nonlinear_arith)
                    requires
                        n >= 1,
                        pow2(52) == LEAST,
                ;
                lemma_exponent(n as nat, 1, 52);
            }
            if out@.e >= 1 {
                lemma_pow2_pos((out@.e - 1) as nat);
                assert(LEAST * pow2((out@.e - 1) as nat) >= LEAST) by (nonlinear_arith)
                    requires
                        pow2((out@.e - 1) as nat) >= 1,
                ;
            }
            if out@.e >= 13 {
                lemma2_to64();
                lemma_pow2_at_least((out@.e - 1) as nat, 12);
                assert(LEAST * pow2((out@.e - 1) as nat) >= LEAST * 0x1000) by (nonlinear_arith)
                    requires
                        pow2((out@.e - 1) as nat) >= 0x1000,
                ;
            }
        }
        out
    }

    /// The value times `2^k`.
    fn shift(self, k: i32) -> (out: Double)
        requires
            self.wf(),
            -3000 <= self@.e + k <= 3000,
            -3000 <= k <= 3000,
        ensures
            out@ == self@.shifted(k as int),
            out.wf(),
    {
        if self.m == 0 {
            self
        } else {
            Double { m: self.m, e: self.e + k }
        }
    }

    /// One value divided by another.
    pub fn over(self, other: Double) -> (out: Double)
        requires
            self.wf(),
            other.wf(),
            other@.m > 0,
            -800 <= self@.e <= 800,
            -800 <= other@.e <= 800,
        ensures
            out@ == divide(self@, other@),
            out.wf(),
    {
        let k: i32 = self.e - other.e;
        ratio(self.m as u128, other.m as u128).shift(k)
    }

    /// One whole number divided by another.
    pub fn quotient(n: u64, d: u64) -> (out: Double)
        requires
            d > 0,
        ensures
            out@ == quotient(n as nat, d as nat),
            out.wf(),
            -600 <= out@.e <= 66,
            n < LEAST ==> out@.e <= 53,
            out@.m > 0 <==> n > 0,
    {
        let a = Double::whole(n);
        let b = Double::whole(d);
        let k: i32 = a.e - b.e;
        let c = ratio(a.m as u128, b.m as u128);
        proof {
            if c@.e >= 2 {
                lemma2_to64();
                lemma_pow2_at_least((c@.e - 1) as nat, 1);
                assert(LEAST * pow2((c@.e - 1) as nat) >= LEAST * 2) by (nonlinear_arith)
                    requires
                        pow2((c@.e - 1) as nat) >= 2,
                ;
            }
        }
        c.shift(k)
    }

    /// The sum of two values, the second of them not coarser than the first.
    fn aligned_plus(self, other: Double) -> (out: Double)
        requires
            self.wf(),
            other.wf(),
            self@.m > 0,
            other@.m > 0,
            self@.e >= other@.e,
            -600 <= self@.e <= 600,
            -600 <= other@.e <= 600,
        ensures
            out@ == aligned_sum(self@, other@),
            out.wf(),
            out@.m > 0,
            -800 <= out@.e <= self@.e + 3,
    {
        let k: i32 = self.e - other.e;
        proof {
            lemma_pow2_pos(k as nat);
            assert(self.m * pow2(k as nat) > 0) by (nonlinear_arith)
                requires
                    self.m > 0,
                    pow2(k as nat) > 0,
            ;
            lemma_nearest(self.m as nat * pow2(k as nat) + other.m as nat, 1);
        }
        if k >= 56 {
            proof {
                lemma_far(self.m as nat, other.m as nat, k as nat);
            }
            return self;
        }
        let scale: u128 = power(k as u32);
        proof {
            lemma2_to64();
            lemma2_to64_rest();
            lemma_pow2_at_least(56, k as nat);
            assert(self.m * scale <= 0x20_0000_0000_0000 * 0x100_0000_0000_0000)
                by (nonlinear_arith)
                requires
                    0 <= self.m <= 0x20_0000_0000_0000,
                    0 <= scale <= 0x100_0000_0000_0000,
            ;
        }
        let c = ratio(self.m as u128 * scale + other.m as u128, 1);
        proof {
            if c@.e >= k + 3 {
                lemma_pow2_at_least((c@.e - 1) as nat, (k + 2) as nat);
                lemma_pow2_unfold((k + 2) as nat);
                lemma_pow2_unfold((k + 1) as nat);
                assert(LEAST * pow2((c@.e - 1) as nat) >= LEAST * (4 * pow2(k as nat)))
                    by (nonlinear_arith)
                    requires
                        pow2((c@.e - 1) as nat) >= 4 * pow2(k as nat),
                ;
                assert(self.m * pow2(k as nat) <= (LIMIT - 1) * pow2(k as nat))
                    by (nonlinear_arith)
                    requires
                        0 <= self.m <= LIMIT - 1,
                        pow2(k as nat) >= 0,
                ;
            }
        }
        c.shift(other.e)
    }

    /// The sum of two values.
    fn plus(self, other: Double) -> (out: Double)
        requires
            self.wf(),
            other.wf(),
            -600 <= self@.e <= 600,
            -600 <= other@.e <= 600,
        ensures
            out@ == sum(self@, other@),
            out.wf(),
            -800 <= out@.e,
            out@.e <= self@.e + 3 || out@.e <= other@.e + 3,
            out@.m > 0 <==> self@.m > 0 || other@.m > 0,
    {
        if other.m == 0 {
            self
        } else if self.m == 0 {
            other
        } else if self.e >= other.e {
            self.aligned_plus(other)
        } else {
            other.aligned_plus(self)
        }
    }

    /// A duration in seconds.
    pub fn seconds(span: Duration) -> (out: Double)
        ensures
            out@ == seconds(span@),
            out.wf(),
            -800 <= out@.e <= 66,
            out@.m > 0 <==> span@ > 0,
    {
        let a = Double::whole(span.as_secs());
        let b = Double::quotient(span.subsec_nanos() as u64, 1_000_000_000);
        a.plus(b)
    }

    /// The integer part, where it fits.
    pub fn integer(self) -> (out: Option<u64>)
        requires
            self.wf(),
        ensures
            match out {
                Some(n) => n == integer_part(self@),
                None => integer_part(self@) > u64::MAX,
            },
    {
        proof {
            lemma2_to64();
            lemma2_to64_rest();
        }
        if self.m == 0 {
            return Some(0);
        }
        if self.e >= 64 {
            proof {
                lemma_pow2_at_least(self.e as nat, 64);
                assert(self.m * pow2(self.e as nat) > u64::MAX) by (nonlinear_arith)
                    requires
                        self.m >= 1,
                        pow2(self.e as nat) >= 0x1_0000_0000_0000_0000,
                ;
            }
            None
        } else if self.e >= 0 {
            let scale: u128 = power(self.e as u32);
            proof {
                lemma_pow2_at_least(63, self.e as nat);
                assert(self.m * scale <= 0x20_0000_0000_0000 * 0x8000_0000_0000_0000)
                    by (nonlinear_arith)
                    requires
                        0 <= self.m <= 0x20_0000_0000_0000,
                        0 <= scale <= 0x8000_0000_0000_0000,
                ;
            }
            let n: u128 = self.m as u128 * scale;
            if n <= u64::MAX as u128 {
                Some(n as u64)
            } else {
                None
            }
        } else if self.e > -64 {
            let scale: u128 = power((-self.e) as u32);
            proof {
                lemma_pow2_pos((-self.e) as nat);
                assert(self.m as u128 / scale <= self.m) by (nonlinear_arith)
                    requires
                        scale >= 1,
                ;
            }
            Some((self.m as u128 / scale) as u64)
        } else {
            proof {
                lemma_pow2_at_least((-self.e) as nat, 64);
                assert(self.m as nat / pow2((-self.e) as nat) == 0) by (nonlinear_arith)
                    requires
                        self.m < pow2((-self.e) as nat),
                ;
            }
            Some(0)
        }
    }

    /// The integer part, or `u64::MAX` where that is larger.
    pub fn truncate(self) -> (out: u64)
        requires
            self.wf(),
        ensures
            out == truncated(self@),
    {
        match self.integer() {
            Some(n) => n,
            None => u64::MAX,
        }
    }

    /// The value in units of `1 / scale`.
    fn units(self, scale: u64) -> (out: u128)
        requires
            self.wf(),
            self@.e <= 66,
            scale <= 100,
        ensures
            out == units(self@, scale as nat),
    {
        proof {
            lemma2_to64();
            lemma2_to64_rest();
            assert(scale * self.m == self.m * scale) by (nonlinear_arith);
            assert(self.m * scale <= 0x20_0000_0000_0000 * 100) by (nonlinear_arith)
                requires
                    0 <= self.m <= 0x20_0000_0000_0000,
                    0 <= scale <= 100,
            ;
        }
        let n: u128 = self.m as u128 * scale as u128;
        if self.e >= 0 {
            let power_of_two: u128 = power(self.e as u32);
            proof {
                lemma_pow2_at_least(66, self.e as nat);
                lemma_pow2_adds(64, 2);
                assert(n * power_of_two <= 0x20_0000_0000_0000 * 100 * 0x4_0000_0000_0000_0000)
                    by (nonlinear_arith)
                    requires
                        0 <= n <= 0x20_0000_0000_0000 * 100,
                        0 <= power_of_two <= 0x4_0000_0000_0000_0000,
                ;
            }
            n * power_of_two
        } else if self.e > -100 {
            let power_of_two: u128 = power((-self.e) as u32);
            proof {
                lemma_pow2_pos((-self.e) as nat);
                lemma_pow2_strictly_increases((-self.e) as nat, 118);
                lemma_pow2_118();
            }
            round(n, power_of_two)
        } else {
            proof {
                lemma_pow2_at_least((-self.e) as nat, 64);
                let d = pow2((-self.e) as nat);
                assert(n as nat / d == 0 && n as nat % d == n) by (nonlinear_arith)
                    requires
                        0 <= n < d,
                ;
            }
            0
        }
    }
}

/// A large number does not change the bits it is cut down to when its
/// divisor is doubled instead.
proof fn lemma_descend(n: nat, i: nat)
    requires
        n >= LEAST * pow2(i),
    ensures
        nearest(n, 1) == nearest(n, pow2(i)).shifted(i as int),
    decreases i,
{
    lemma2_to64();
    lemma_pow2_pos(i);
    assert(LEAST * pow2(i) > 0) by (nonlinear_arith)
        requires
            pow2(i) > 0,
    ;
    if i > 0 {
        let j = (i - 1) as nat;
        lemma_pow2_unfold(i);
        lemma_pow2_pos(j);
        lemma_descend(n, j);
        lemma_shifts(nearest(n, pow2(i)), 1, j as int);
    } else {
        lemma_shifts(nearest(n, 1), 0, 0);
    }
}

/// A small value far below the last bit of a large one does not change it.
proof fn lemma_far(m: nat, small: nat, k: nat)
    requires
        LEAST <= m < LIMIT,
        0 < small < LIMIT,
        k >= 56,
    ensures
        nearest(m * pow2(k) + small, 1) == (Binary { m, e: k as int }),
{
    let d = pow2(k);
    let n = m * d + small;
    lemma2_to64();
    lemma2_to64_rest();
    lemma_pow2_at_least(k, 56);
    assert(n >= LEAST * d) by (nonlinear_arith)
        requires
            n == m * d + small,
            m >= LEAST,
            d >= 0,
            small >= 0,
    ;
    assert(n < LIMIT * d) by (nonlinear_arith)
        requires
            n == m * d + small,
            m + 1 <= LIMIT,
            small < d,
            d >= 0,
    ;
    lemma_descend(n, k);
    assert(n / d == m && n % d == small) by (nonlinear_arith)
        requires
            n == m * d + small,
            0 <= small < d,
    ;
}

/// A power of two is at least any earlier one.
pub proof fn lemma_pow2_at_least(k: nat, j: nat)
    requires
        j <= k,
    ensures
        pow2(j) <= pow2(k),
{
    if j < k {
        lemma_pow2_strictly_increases(j, k);
    }
}

/// Appends the value with one decimal digit.
pub fn push_one_decimal(out: &mut String, value: Double)
    requires
        value.wf(),
        value@.e <= 66,
    ensures
        final(out)@ == old(out)@ + one_decimal(value@),
{
    let n: u128 = value.units(10);
    text::push_decimal(out, n / 10);
    out.push_str(".");
    push_digit(out, (n % 10) as u8);
    assert(out@ =~= old(out)@ + one_decimal(value@));
}

/// Appends the value with two decimal digits.
pub fn push_two_decimals(out: &mut String, value: Double)
    requires
        value.wf(),
        value@.e <= 66,
    ensures
        final(out)@ == old(out)@ + two_decimals(value@),
{
    let n: u128 = value.units(100);
    text::push_decimal(out, n / 100);
    out.push_str(".");
    push_digit(out, (n / 10 % 10) as u8);
    push_digit(out, (n % 10) as u8);
    assert(out@ =~= old(out)@ + two_decimals(value@));
}

fn push_digit(out: &mut String, digit: u8)
    requires
        digit < 10,
    ensures
        final(out)@ == old(out)@.push(text::digit_char(digit as nat)),
{
    let ch: char = (48 + digit) as char;
    assert(ch == text::digit_char(digit as nat));
    out.push(ch);
}

} // verus!
