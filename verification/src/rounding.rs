//! Binary numbers of limited precision in whole-number arithmetic.
//!
//! A [`Binary`] is a mantissa and a power of two. Results are rounded to the
//! nearest number with a mantissa of 24 binary digits ([`SINGLE`]) or of 53
//! ([`DOUBLE`]), a tie going to the even mantissa, as single and double
//! precision arithmetic rounds.

use vstd::arithmetic::power2::{lemma_pow2_strictly_increases, lemma_pow2_unfold, pow2};
use vstd::prelude::*;

use crate::number::{decimal, decimal_of, pad_left, padded_left, repeat, repeated};
use crate::text::push_all;

verus! {

/// The least mantissa of 24 binary digits.
pub const SINGLE: u64 = 0x80_0000;

/// The least mantissa of 53 binary digits.
pub const DOUBLE: u64 = 0x10_0000_0000_0000;

/// The number `mant * 2^exp`.
#[derive(Debug, Clone, Copy, PartialEq, Eq, Structural)]
pub struct Binary {
    pub mant: u64,
    pub exp: i32,
}

impl View for Binary {
    type V = (nat, int);

    open spec fn view(&self) -> (nat, int) {
        (self.mant as nat, self.exp as int)
    }
}

/// The whole number nearest to `n / d`; of two equally near ones the even one.
pub open spec fn nearest(n: nat, d: nat) -> nat {
    let q = n / d;
    let r = n % d;
    if 2 * r > d || (2 * r == d && q % 2 == 1) {
        q + 1
    } else {
        q
    }
}

/// How far `n / d` is from the range in which mantissas lie.
pub open spec fn distance(n: nat, d: nat, half: nat) -> nat {
    if n >= d * (2 * half) {
        (n - d) as nat
    } else if n < d * half {
        (d * half - n) as nat
    } else {
        0
    }
}

/// `n / d` rounded to a mantissa from `half` up to `2 * half`, and the power
/// of two that goes with it: denominator or numerator are doubled until the
/// quotient lies in that range, and the quotient is then rounded.
pub open spec fn rounded(n: nat, d: nat, half: nat) -> (nat, int)
    decreases distance(n, d, half),
    via rounded_decreases
{
    if n == 0 || d == 0 || half == 0 {
        (0, 0)
    } else if n >= d * (2 * half) {
        let (m, e) = rounded(n, 2 * d, half);
        (m, e + 1)
    } else if n < d * half {
        let (m, e) = rounded(2 * n, d, half);
        (m, e - 1)
    } else if nearest(n, d) == 2 * half {
        (half, 1)
    } else {
        (nearest(n, d), 0)
    }
}

#[via_fn]
proof fn rounded_decreases(n: nat, d: nat, half: nat) {
    if n > 0 && d > 0 && half > 0 {
        lemma_distance(n, d, half);
    }
}

/// Doubling the denominator or the numerator brings the quotient nearer to the
/// range of the mantissas.
pub proof fn lemma_distance(n: nat, d: nat, half: nat)
    requires
        n > 0 && d > 0 && half > 0,
    ensures
        n >= d * (2 * half) ==> distance(n, 2 * d, half) < distance(n, d, half),
        n < d * half ==> distance(2 * n, d, half) < distance(n, d, half),
{
    assert(d * (2 * half) == 2 * (d * half)) by (nonlinear_arith);
    if n >= d * (2 * half) {
        assert((2 * d) * half == d * (2 * half)) by (nonlinear_arith);
        assert(d * (2 * half) >= 2 * d) by (nonlinear_arith)
            requires
                half >= 1,
        ;
        assert(d * (2 * half) > d) by (nonlinear_arith)
            requires
                half >= 1,
                d >= 1,
        ;
    }
}

/// The nearest whole number is off by at most one half.
pub proof fn lemma_nearest(n: nat, d: nat)
    requires
        d > 0,
    ensures
        2 * (nearest(n, d) * d) <= 2 * n + d,
        2 * n <= 2 * (nearest(n, d) * d) + d,
{
    let q = n / d;
    let r = n % d;
    assert(n == q * d + r && 0 <= r < d) by (nonlinear_arith)
        requires
            d > 0,
            q == n / d,
            r == n % d,
    ;
    assert((q + 1) * d == q * d + d) by (nonlinear_arith);
}

/// Rounds `n / d` to a mantissa of the given precision.
pub fn round_ratio(n: u128, d: u128, half: u64) -> (r: Binary)
    requires
        0 < d,
        0 < half <= DOUBLE,
        n < 0x8000_0000_0000_0000_0000_0000_0000_0000,
        d * (2 * half) <= 0x8000_0000_0000_0000_0000_0000_0000_0000,
    ensures
        r@ == rounded(n as nat, d as nat, half as nat),
        -130 <= r.exp <= 130,
        r.mant <= 2 * half,
{
    if n == 0 {
        return Binary { mant: 0, exp: 0 };
    }
    let mut num: u128 = n;
    let mut den: u128 = d;
    let mut exp: i32 = 0;
    let low: u128 = half as u128;
    proof {
        lemma_pow2_127();
        assert(pow2(0) == 1) by {
            vstd::arithmetic::power2::lemma2_to64();
        }
    }
    // In whole numbers num / den >= k means num >= den * k.
    while num / den >= 2 * low
        invariant
            0 < num == n < 0x8000_0000_0000_0000_0000_0000_0000_0000,
            0 < den,
            0 < low == half <= DOUBLE,
            0 <= exp <= 127,
            pow2(exp as nat) <= den,
            exp > 0 ==> num >= den * low,
            exp == 0 ==> den == d,
            pow2(127) == 0x8000_0000_0000_0000_0000_0000_0000_0000,
            ({
                let (m, e) = rounded(num as nat, den as nat, half as nat);
                rounded(n as nat, d as nat, half as nat) == (m, e + exp)
            }),
        decreases num - den,
    {
        proof {
            lemma_quotient_at_least(num as nat, den as nat, 2 * low as nat);
            assert(den * (2 * low) >= 2 * den) by (nonlinear_arith)
                requires
                    low >= 1,
            ;
            assert((2 * den) * low == den * (2 * low)) by (nonlinear_arith);
            lemma_pow2_unfold((exp + 1) as nat);
            if exp >= 127 {
                if exp > 127 {
                    lemma_pow2_strictly_increases(127, exp as nat);
                }
                assert(false);
            }
        }
        den = den * 2;
        exp = exp + 1;
    }
    let ghost up = exp;
    let ghost den0 = den;
    proof {
        lemma_quotient_at_least(num as nat, den as nat, 2 * low as nat);
    }
    while num / den < low
        invariant
            0 < num < 0x8000_0000_0000_0000_0000_0000_0000_0000,
            0 < den == den0,
            0 < low == half <= DOUBLE,
            -127 <= exp <= up <= 127,
            num < den * (2 * low),
            up > 0 ==> exp == up && num >= den * low,
            up >= 0,
            up == 0 ==> den == d && pow2((up - exp) as nat) <= num,
            d * (2 * half) <= 0x8000_0000_0000_0000_0000_0000_0000_0000,
            pow2(127) == 0x8000_0000_0000_0000_0000_0000_0000_0000,
            ({
                let (m, e) = rounded(num as nat, den as nat, half as nat);
                rounded(n as nat, d as nat, half as nat) == (m, e + exp)
            }),
        decreases den * (2 * low) - num,
    {
        proof {
            lemma_quotient_at_least(num as nat, den as nat, low as nat);
            assert(den * (2 * low) == 2 * (den * low)) by (nonlinear_arith);
            assert(up == 0);
            lemma_pow2_unfold((up - exp + 1) as nat);
            if exp <= -127 {
                if exp < -127 {
                    lemma_pow2_strictly_increases(127, (up - exp) as nat);
                }
                assert(false);
            }
        }
        num = num * 2;
        exp = exp - 1;
    }
    proof {
        lemma_quotient_at_least(num as nat, den as nat, low as nat);
        lemma_quotient_at_least(num as nat, den as nat, 2 * low as nat);
        lemma_quotient_below(num as nat, den as nat, 2 * low as nat);
    }
    let q: u128 = num / den;
    let r: u128 = num % den;
    let m: u128 = if r > den - r || (r == den - r && q % 2 == 1) {
        q + 1
    } else {
        q
    };
    assert(m == nearest(num as nat, den as nat));
    if m == 2 * low {
        Binary { mant: half, exp: exp + 1 }
    } else {
        Binary { mant: m as u64, exp }
    }
}

proof fn lemma_pow2_127()
    ensures
        pow2(127) == 0x8000_0000_0000_0000_0000_0000_0000_0000,
{
    vstd::arithmetic::power2::lemma2_to64();
    vstd::arithmetic::power2::lemma2_to64_rest();
    vstd::arithmetic::power2::lemma_pow2_adds(64, 63);
}

proof fn lemma_quotient_at_least(n: nat, d: nat, k: nat)
    requires
        d > 0,
    ensures
        n / d >= k <==> n >= d * k,
{
    let q = n / d;
    assert(q * d <= n < (q + 1) * d) by (nonlinear_arith)
        requires
            d > 0,
            q == n / d,
    ;
    if q >= k {
        assert(q * d >= d * k) by (nonlinear_arith)
            requires
                q >= k,
        ;
    } else {
        assert((q + 1) * d <= d * k) by (nonlinear_arith)
            requires
                q + 1 <= k,
        ;
    }
}

proof fn lemma_quotient_below(n: nat, d: nat, k: nat)
    requires
        d > 0,
        n < d * k,
    ensures
        n / d < k,
{
    lemma_quotient_at_least(n, d, k);
}

/// Whether `m * 2^e` is within half of `2^e` of `n / d`.
pub open spec fn within_half_unit(n: nat, d: nat, m: nat, e: int) -> bool {
    if e >= 0 {
        let v = m * pow2(e as nat) * d;
        let unit = pow2(e as nat) * d;
        -unit <= 2 * (n - v) <= unit
    } else {
        -(d as int) <= 2 * (n * pow2((-e) as nat) - m * d) <= d
    }
}

/// Rounding keeps to the precision asked for and is off by at most half a unit
/// in the last place.
pub proof fn rounded_is_near(n: nat, d: nat, half: nat)
    requires
        n > 0,
        d > 0,
        half > 0,
    ensures
        half <= rounded(n, d, half).0 < 2 * half,
        within_half_unit(n, d, rounded(n, d, half).0, rounded(n, d, half).1),
        n >= d * half ==> rounded(n, d, half).1 >= 0,
        n < d * (2 * half) ==> rounded(n, d, half).1 <= 1,
    decreases distance(n, d, half),
{
    lemma_distance(n, d, half);
    vstd::arithmetic::power2::lemma2_to64();
    if n >= d * (2 * half) {
        rounded_is_near(n, 2 * d, half);
        let (m, e) = rounded(n, 2 * d, half);
        assert((2 * d) * half == d * (2 * half)) by (nonlinear_arith);
        lemma_pow2_unfold((e + 1) as nat);
        let p = pow2(e as nat);
        assert(m * p * (2 * d) == m * (2 * p) * d) by (nonlinear_arith);
        assert(p * (2 * d) == (2 * p) * d) by (nonlinear_arith);
        assert(d * half <= d * (2 * half)) by (nonlinear_arith);
    } else if n < d * half {
        assert(2 * n < d * (2 * half)) by (nonlinear_arith)
            requires
                n < d * half,
        ;
        rounded_is_near(2 * n, d, half);
        let (m, e) = rounded(2 * n, d, half);
        if e == 1 {
            assert(m * pow2(1) * d == 2 * (m * pow2(0) * d)) by (nonlinear_arith)
                requires
                    pow2(1) == 2,
                    pow2(0) == 1,
            ;
            assert(pow2(0) * d == d);
        } else {
            lemma_pow2_unfold((-(e - 1)) as nat);
            let p = pow2((-e) as nat);
            assert((2 * n) * p == n * (2 * p)) by (nonlinear_arith);
            if e == 0 {
                assert(m * pow2(0) * d == m * d) by (nonlinear_arith)
                    requires
                        pow2(0) == 1,
                ;
                assert(pow2(0) * d == d);
                assert(n * pow2(1) == 2 * n);
            }
        }
    } else {
        lemma_nearest(n, d);
        lemma_quotient_at_least(n, d, half);
        lemma_quotient_below(n, d, 2 * half);
        let q = nearest(n, d);
        if q == 2 * half {
            assert(half * pow2(1) * d == q * d);
            assert(pow2(1) * d == 2 * d);
        } else {
            assert(q * pow2(0) * d == q * d);
            assert(pow2(0) * d == d);
        }
    }
}

/// The numerator of `m * 2^e` as a fraction.
pub open spec fn numer(v: (nat, int)) -> nat {
    if v.1 > 0 {
        v.0 * pow2(v.1 as nat)
    } else {
        v.0
    }
}

/// The denominator of `m * 2^e` as a fraction.
pub open spec fn denom(v: (nat, int)) -> nat {
    if v.1 < 0 {
        pow2((-v.1) as nat)
    } else {
        1
    }
}

/// The whole part of `m * 2^e`.
pub open spec fn whole(v: (nat, int)) -> nat {
    numer(v) / denom(v)
}

/// The quotient of two numbers, rounded: the mantissas are divided and the
/// powers of two subtracted.
pub open spec fn quotient(a: (nat, int), b: (nat, int), half: nat) -> (nat, int) {
    let (m, e) = rounded(a.0, b.0, half);
    (m, e + a.1 - b.1)
}

/// The product of two numbers, rounded: the mantissas are multiplied and the
/// powers of two added.
pub open spec fn product(a: (nat, int), b: (nat, int), half: nat) -> (nat, int) {
    let (m, e) = rounded(a.0 * b.0, 1, half);
    (m, e + a.1 + b.1)
}

/// A whole number at the given precision.
pub fn binary_of(n: u64, half: u64) -> (r: Binary)
    requires
        0 < half <= DOUBLE,
    ensures
        r@ == rounded(n as nat, 1, half as nat),
        -130 <= r.exp <= 130,
        r.mant <= 2 * half,
{
    round_ratio(n as u128, 1, half)
}

/// The rounded quotient of `a` and `b`.
pub fn divide(a: Binary, b: Binary, half: u64) -> (r: Binary)
    requires
        0 < half <= DOUBLE,
        0 < b.mant,
        -10000 <= a.exp <= 10000,
        -10000 <= b.exp <= 10000,
    ensures
        r@ == quotient(a@, b@, half as nat),
        a.exp - b.exp - 130 <= r.exp <= a.exp - b.exp + 130,
        r.mant <= 2 * half,
{
    assert(b.mant * (2 * half) <= 0x8000_0000_0000_0000_0000_0000_0000_0000) by (nonlinear_arith)
        requires
            0 <= b.mant <= u64::MAX,
            0 < half <= 0x10_0000_0000_0000,
    ;
    let q = round_ratio(a.mant as u128, b.mant as u128, half);
    Binary { mant: q.mant, exp: q.exp + a.exp - b.exp }
}

/// The rounded product of `a` and `b`.
pub fn multiply(a: Binary, b: Binary, half: u64) -> (r: Binary)
    requires
        0 < half <= DOUBLE,
        a.mant <= 2 * DOUBLE,
        b.mant <= 2 * DOUBLE,
        -10000 <= a.exp <= 10000,
        -10000 <= b.exp <= 10000,
    ensures
        r@ == product(a@, b@, half as nat),
        a.exp + b.exp - 130 <= r.exp <= a.exp + b.exp + 130,
        r.mant <= 2 * half,
{
    assert(a.mant * b.mant <= 0x400_0000_0000_0000_0000_0000_0000) by (nonlinear_arith)
        requires
            0 <= a.mant <= 0x20_0000_0000_0000,
            0 <= b.mant <= 0x20_0000_0000_0000,
    ;
    let p = round_ratio(a.mant as u128 * b.mant as u128, 1, half);
    Binary { mant: p.mant, exp: p.exp + a.exp + b.exp }
}

proof fn lemma_numer_step(m: nat, e: int)
    requires
        e > 0,
    ensures
        numer((m, e)) == numer((2 * m, e - 1)),
        numer((m, e)) >= m,
{
    lemma_pow2_unfold(e as nat);
    let p = pow2((e - 1) as nat);
    vstd::arithmetic::power2::lemma_pow2_pos((e - 1) as nat);
    vstd::arithmetic::power2::lemma2_to64();
    assert(m * (2 * p) == (2 * m) * p) by (nonlinear_arith);
    assert((2 * m) * p >= m) by (nonlinear_arith)
        requires
            p >= 1,
    ;
    assert(p == 1 ==> (2 * m) * p == 2 * m) by (nonlinear_arith);
}

proof fn lemma_whole_step(m: nat, e: int)
    requires
        e < 0,
    ensures
        whole((m, e)) == whole((m / 2, e + 1)),
        whole((m, e)) <= m,
{
    lemma_pow2_unfold((-e) as nat);
    let p = pow2((-e - 1) as nat);
    vstd::arithmetic::power2::lemma_pow2_pos((-e - 1) as nat);
    vstd::arithmetic::power2::lemma2_to64();
    vstd::arithmetic::div_mod::lemma_div_denominator(m as int, 2, p as int);
    assert((m as int) / ((2 * p) as int) <= m) by (nonlinear_arith)
        requires
            p >= 1,
            m >= 0,
    ;
}

/// The whole part of a number without a positive exponent is at most its
/// mantissa.
pub proof fn lemma_whole_at_most(m: nat, e: int)
    requires
        e <= 0,
    ensures
        whole((m, e)) <= m,
{
    if e < 0 {
        lemma_whole_step(m, e);
    } else {
        assert(m / 1 == m);
    }
}

/// The whole part of `b`, or `max` where it is larger.
pub fn whole_up_to(b: Binary, max: u64) -> (r: u64)
    ensures
        r == if whole(b@) <= max {
            whole(b@)
        } else {
            max as nat
        },
{
    if b.exp >= 0 {
        let mut v: u128 = b.mant as u128;
        let mut e: i32 = b.exp;
        proof {
            if e > 0 {
                lemma_numer_step(v as nat, e as int);
            }
        }
        while e > 0 && v <= max as u128
            invariant
                e >= 0,
                b.exp >= 0,
                v <= 2 * (u64::MAX as u128),
                numer(b@) == numer((v as nat, e as int)),
                e == 0 ==> numer(b@) == v,
                v > max ==> numer(b@) > max,
            decreases e,
        {
            proof {
                lemma_numer_step(v as nat, e as int);
                if e > 1 {
                    lemma_numer_step(2 * v as nat, e - 1);
                }
            }
            if v == 0 {
                proof {
                    lemma_numer_zero(e as int);
                }
                return 0;
            }
            v = v * 2;
            e = e - 1;
        }
        assert(whole(b@) == numer(b@));
        if v > max as u128 {
            max
        } else {
            v as u64
        }
    } else {
        let mut v: u64 = b.mant;
        let mut e: i32 = b.exp;
        while e < 0 && v > 0
            invariant
                e <= 0,
                whole(b@) == whole((v as nat, e as int)),
            decreases v,
        {
            proof {
                lemma_whole_step(v as nat, e as int);
            }
            v = v / 2;
            e = e + 1;
        }
        proof {
            if e < 0 {
                lemma_whole_step(0, e as int);
            }
        }
        if v > max {
            max
        } else {
            v
        }
    }
}

proof fn lemma_numer_zero(e: int)
    ensures
        numer((0, e)) == 0,
{
    if e > 0 {
        assert(0 * pow2(e as nat) == 0) by (nonlinear_arith);
    }
}

/// Ten to the power of `k`.
pub open spec fn pow10(k: nat) -> nat
    decreases k,
{
    if k == 0 {
        1
    } else {
        10 * pow10((k - 1) as nat)
    }
}

/// `n` in decimal notation with the point before the last `places` digits.
pub open spec fn with_point(n: nat, places: nat) -> Seq<char> {
    if places == 0 {
        decimal(n)
    } else {
        decimal(n / pow10(places)) + seq!['.'] + padded_left(
            decimal(n % pow10(places)),
            '0',
            places,
        )
    }
}

/// `m * 2^e` in decimal notation with `places` digits after the point, the
/// last of them rounded to the nearest, ties to even.
pub open spec fn fixed(v: (nat, int), places: nat) -> Seq<char> {
    with_point(nearest(numer(v) * pow10(places), denom(v)), places)
}

fn power_of_ten(places: usize) -> (r: u128)
    requires
        places <= 2,
    ensures
        r == pow10(places as nat),
        1 <= r <= 100,
{
    proof {
        reveal_with_fuel(pow10, 3);
    }
    if places == 0 {
        1
    } else if places == 1 {
        10
    } else {
        100
    }
}

fn nearest_of(n: u128, d: u128) -> (r: u128)
    requires
        0 < d,
        n < u128::MAX,
    ensures
        r == nearest(n as nat, d as nat),
{
    let q: u128 = n / d;
    let r: u128 = n % d;
    assert(q <= n) by (nonlinear_arith)
        requires
            q == n / d,
            d > 0,
    ;
    if r > d - r || (r == d - r && q % 2 == 1) {
        q + 1
    } else {
        q
    }
}

/// `n` with the point before its last `places` digits.
fn with_point_of(n: u128, places: usize) -> (out: Vec<char>)
    requires
        places <= 2,
    ensures
        out@ == with_point(n as nat, places as nat),
{
    if places == 0 {
        return decimal_of(n);
    }
    let ten = power_of_ten(places);
    let mut out = decimal_of(n / ten);
    out.push('.');
    let tail = decimal_of(n % ten);
    let tail = pad_left(tail.as_slice(), '0', places);
    push_all(&mut out, tail.as_slice());
    assert(out@ =~= with_point(n as nat, places as nat));
    out
}

/// Two to the power of `k`.
pub fn power_of_two(k: u32) -> (r: u128)
    requires
        k < 128,
    ensures
        r == pow2(k as nat),
        0 < r,
{
    let mut r: u128 = 1;
    let mut i: u32 = 0;
    proof {
        vstd::arithmetic::power2::lemma2_to64();
        lemma_pow2_127();
    }
    while i < k
        invariant
            i <= k < 128,
            r == pow2(i as nat),
            0 < r,
            pow2(127) == 0x8000_0000_0000_0000_0000_0000_0000_0000,
        decreases k - i,
    {
        proof {
            lemma_pow2_unfold((i + 1) as nat);
            if i < 126 {
                lemma_pow2_strictly_increases((i + 1) as nat, 127);
            }
        }
        r = r * 2;
        i = i + 1;
    }
    r
}

/// The number whose decimal digits, the least first, are `ds`.
spec fn digits_sum(ds: Seq<u8>) -> nat
    decreases ds.len(),
{
    if ds.len() == 0 {
        0
    } else {
        digits_sum(ds.drop_last()) + ds.last() as nat * pow10((ds.len() - 1) as nat)
    }
}

/// Digits from 0 to 9, the most significant of which is not zero unless it is
/// the only one.
spec fn canonical(ds: Seq<u8>) -> bool {
    &&& ds.len() > 0
    &&& forall|i: int| 0 <= i < ds.len() ==> #[trigger] ds[i] <= 9
    &&& ds.len() > 1 ==> ds.last() > 0
}

proof fn lemma_digits_sum_first(ds: Seq<u8>)
    requires
        ds.len() > 0,
    ensures
        digits_sum(ds) == ds.first() + 10 * digits_sum(ds.drop_first()),
    decreases ds.len(),
{
    if ds.len() == 1 {
        reveal_with_fuel(digits_sum, 2);
        let p = pow10(0);
        assert(ds.last() as nat * p == ds.last()) by (nonlinear_arith)
            requires
                p == 1,
        ;
        assert(ds.drop_last() =~= Seq::<u8>::empty());
        assert(ds.drop_first() =~= Seq::<u8>::empty());
    } else {
        lemma_digits_sum_first(ds.drop_last());
        assert(ds.drop_last().drop_first() =~= ds.drop_first().drop_last());
        let p = pow10((ds.len() - 2) as nat);
        assert(pow10((ds.len() - 1) as nat) == 10 * p);
        assert(digits_sum(ds.drop_first()) == digits_sum(ds.drop_first().drop_last())
            + ds.last() as nat * p);
        assert(ds.last() as nat * (10 * p) == 10 * (ds.last() as nat * p)) by (nonlinear_arith);
    }
}

/// The decimal notation of the number with the digits `ds`.
proof fn lemma_digits_decimal(ds: Seq<u8>)
    requires
        canonical(ds),
    ensures
        decimal(digits_sum(ds)) == ds.map_values(
            |d: u8| crate::number::digit(d as nat),
        ).reverse(),
        ds.last() > 0 ==> digits_sum(ds) > 0,
    decreases ds.len(),
{
    lemma_digits_sum_first(ds);
    let text = ds.map_values(|d: u8| crate::number::digit(d as nat)).reverse();
    let rest = ds.drop_first();
    if ds.len() == 1 {
        assert(rest =~= Seq::<u8>::empty());
        assert(text =~= seq![crate::number::digit(ds[0] as nat)]);
    } else {
        assert(rest.last() == ds.last());
        lemma_digits_decimal(rest);
        let n = digits_sum(ds);
        assert(n / 10 == digits_sum(rest) && n % 10 == ds[0]);
        assert(text =~= rest.map_values(
            |d: u8| crate::number::digit(d as nat),
        ).reverse().push(crate::number::digit(ds[0] as nat)));
    }
}

/// The decimal digits of `n`, the least first.
fn digits_of(n: u64) -> (out: Vec<u8>)
    ensures
        canonical(out@),
        digits_sum(out@) == n,
{
    let mut out: Vec<u8> = Vec::new();
    let mut rest: u64 = n;
    let ghost mut unit: nat = 1;
    assert(rest as nat * unit == n);
    while rest >= 10
        invariant
            unit == pow10(out@.len()),
            digits_sum(out@) + rest as nat * unit == n,
            forall|i: int| 0 <= i < out@.len() ==> #[trigger] out@[i] <= 9,
            out@.len() > 0 ==> rest > 0,
        decreases rest,
    {
        let d: u8 = (rest % 10) as u8;
        let ghost before = out@;
        out.push(d);
        proof {
            assert(out@.drop_last() =~= before);
            let q = rest as nat / 10;
            assert(rest as nat * unit == d as nat * unit + q * (10 * unit)) by (nonlinear_arith)
                requires
                    rest == 10 * q + d,
            ;
            unit = 10 * unit;
        }
        rest = rest / 10;
    }
    let ghost before = out@;
    out.push(rest as u8);
    assert(out@.drop_last() =~= before);
    out
}

/// The digits of twice the number.
fn doubled(ds: &Vec<u8>) -> (out: Vec<u8>)
    requires
        canonical(ds@),
    ensures
        canonical(out@),
        digits_sum(out@) == 2 * digits_sum(ds@),
{
    let mut out: Vec<u8> = Vec::new();
    let mut carry: u8 = 0;
    let mut i: usize = 0;
    let ghost mut unit: nat = 1;
    assert(ds@.take(0) =~= Seq::<u8>::empty());
    while i < ds.len()
        invariant
            i <= ds.len(),
            canonical(ds@),
            out@.len() == i,
            carry <= 1,
            unit == pow10(i as nat),
            digits_sum(out@) + carry as nat * unit == 2 * digits_sum(ds@.take(i as int)),
            forall|k: int| 0 <= k < out@.len() ==> #[trigger] out@[k] <= 9,
            i == ds.len() && carry == 0 && i > 1 ==> out@.last() > 0,
        decreases ds.len() - i,
    {
        let d: u8 = ds[i];
        let t: u8 = 2 * d + carry;
        let ghost before = out@;
        let ghost had = carry as nat;
        let low: u8 = t % 10;
        let high: u8 = t / 10;
        out.push(low);
        carry = high;
        proof {
            assert(out@.drop_last() =~= before);
            assert(ds@.take(i + 1).drop_last() =~= ds@.take(i as int));
            assert(low as nat * unit + high as nat * (10 * unit) == 2 * (d as nat * unit) + had
                * unit) by (nonlinear_arith)
                requires
                    low + 10 * high == 2 * d + had,
            ;
            unit = 10 * unit;
        }
        i += 1;
    }
    assert(ds@.take(i as int) =~= ds@);
    if carry > 0 {
        let ghost before = out@;
        out.push(carry);
        assert(out@.drop_last() =~= before);
    }
    out
}

/// The text of the number with the digits `ds`.
fn digits_text(ds: &Vec<u8>) -> (out: Vec<char>)
    requires
        canonical(ds@),
    ensures
        out@ == decimal(digits_sum(ds@)),
{
    let ghost all = ds@.map_values(|d: u8| crate::number::digit(d as nat)).reverse();
    let mut out: Vec<char> = Vec::new();
    let mut i: usize = ds.len();
    assert(all.take(0) =~= out@);
    while i > 0
        invariant
            i <= ds.len(),
            canonical(ds@),
            all == ds@.map_values(|d: u8| crate::number::digit(d as nat)).reverse(),
            out@ == all.take(ds@.len() - i),
        decreases i,
    {
        i -= 1;
        let d: u8 = ds[i];
        out.push((d + 48) as char);
        assert(all[ds@.len() - i - 1] == crate::number::digit(d as nat));
        assert(all.take(ds@.len() - i) =~= all.take(ds@.len() - i - 1).push(
            all[ds@.len() - i - 1],
        ));
    }
    proof {
        lemma_digits_decimal(ds@);
        assert(all.take(ds@.len() as int) =~= all);
    }
    out
}

/// `b` in decimal notation with `places` digits after the point.
pub fn fixed_of(b: Binary, places: usize) -> (out: Vec<char>)
    requires
        places <= 2,
    ensures
        out@ == fixed(b@, places as nat),
{
    let ten = power_of_ten(places);
    if b.exp >= 0 {
        let mut ds = digits_of(b.mant);
        let mut e: i32 = b.exp;
        while e > 0
            invariant
                0 <= e,
                canonical(ds@),
                numer(b@) == numer((digits_sum(ds@), e as int)),
            decreases e,
        {
            proof {
                lemma_numer_step(digits_sum(ds@), e as int);
            }
            ds = doubled(&ds);
            e = e - 1;
        }
        let mut out = digits_text(&ds);
        proof {
            lemma_whole_fixed(digits_sum(ds@), places as nat);
        }
        if places > 0 {
            out.push('.');
            let zeros = repeat('0', places);
            push_all(&mut out, zeros.as_slice());
        }
        assert(out@ =~= fixed(b@, places as nat));
        out
    } else {
        assert(b.mant * ten <= 0xffff_ffff_ffff_ffff * 100) by (nonlinear_arith)
            requires
                b.mant <= 0xffff_ffff_ffff_ffff,
                0 <= ten <= 100,
        ;
        let n: u128 = b.mant as u128 * ten;
        let k: i64 = -(b.exp as i64);
        if k >= 80 {
            proof {
                vstd::arithmetic::power2::lemma2_to64();
                vstd::arithmetic::power2::lemma2_to64_rest();
                vstd::arithmetic::power2::lemma_pow2_adds(40, 40);
                if k > 80 {
                    lemma_pow2_strictly_increases(80, k as nat);
                }
                let d = pow2(k as nat);
                assert(n as nat / d == 0 && n as nat % d == n) by {
                    vstd::arithmetic::div_mod::lemma_small_mod(n as nat, d);
                    vstd::arithmetic::div_mod::lemma_basic_div(n as int, d as int);
                }
            }
            with_point_of(0, places)
        } else {
            let d = power_of_two(k as u32);
            let r = nearest_of(n, d);
            with_point_of(r, places)
        }
    }
}

proof fn lemma_whole_fixed(v: nat, places: nat)
    requires
        places <= 2,
    ensures
        with_point(nearest(v * pow10(places), 1), places) == if places == 0 {
            decimal(v)
        } else {
            decimal(v) + seq!['.'] + repeated('0', places)
        },
{
    reveal_with_fuel(pow10, 3);
    let t = pow10(places);
    let n = v * t;
    assert(n / 1 == n && n % 1 == 0) by (nonlinear_arith);
    assert(n / t == v && n % t == 0) by (nonlinear_arith)
        requires
            n == v * t,
            t > 0,
    ;
    assert(decimal(0) == seq![crate::number::digit(0)]);
    assert(crate::number::digit(0) == '0');
    if places > 0 {
        assert(padded_left(decimal(0), '0', places) =~= repeated('0', places));
    }
}

/// A number in the 32-bit binary interchange format.
#[derive(Debug, Clone, Copy, PartialEq, Eq, Structural)]
pub enum Single {
    NotANumber,
    Infinite { negative: bool },
    Finite { negative: bool, magnitude: Binary },
}

/// What a 32-bit pattern stands for: a sign bit, eight bits of exponent and
/// 23 bits of mantissa.
pub open spec fn single(bits: u32) -> Single {
    let negative = bits >= 0x8000_0000;
    let field = (bits / 0x80_0000) % 256;
    let frac = bits % 0x80_0000;
    if field == 255 {
        if frac == 0 {
            Single::Infinite { negative }
        } else {
            Single::NotANumber
        }
    } else if field == 0 {
        Single::Finite { negative, magnitude: Binary { mant: frac as u64, exp: (-149) as i32 } }
    } else {
        Single::Finite {
            negative,
            magnitude: Binary { mant: (frac + 0x80_0000) as u64, exp: (field - 150) as i32 },
        }
    }
}

/// Decodes a 32-bit pattern.
pub fn single_of(bits: u32) -> (r: Single)
    ensures
        r == single(bits),
        r matches Single::Finite { magnitude, .. } ==> magnitude.mant < 0x100_0000 && -149
            <= magnitude.exp <= 104,
{
    let negative = bits >= 0x8000_0000;
    let field: u32 = (bits / 0x80_0000) % 256;
    let frac: u32 = bits % 0x80_0000;
    if field == 255 {
        if frac == 0 {
            Single::Infinite { negative }
        } else {
            Single::NotANumber
        }
    } else if field == 0 {
        Single::Finite { negative, magnitude: Binary { mant: frac as u64, exp: -149 } }
    } else {
        Single::Finite {
            negative,
            magnitude: Binary { mant: (frac + 0x80_0000) as u64, exp: field as i32 - 150 },
        }
    }
}

/// The pattern of a number that is not negative and has a mantissa of 24 binary
/// digits: the exponent in its field, and the digits after the first.
pub open spec fn single_pattern(v: (nat, int)) -> u32 {
    if v.0 == 0 {
        0
    } else {
        ((v.1 + 150) * 0x80_0000 + (v.0 - 0x80_0000)) as u32
    }
}

/// Whether a pattern stands for a number that is not negative.
pub open spec fn stands_for(bits: u32, v: (nat, int)) -> bool {
    if v.0 == 0 {
        bits == 0
    } else {
        single(bits) == (Single::Finite {
            negative: false,
            magnitude: Binary { mant: v.0 as u64, exp: v.1 as i32 },
        })
    }
}

/// The pattern of a positive number with a mantissa of 24 binary digits, or of
/// zero.
pub fn single_bits(b: Binary) -> (bits: u32)
    requires
        b.mant == 0 || (SINGLE <= b.mant < 2 * SINGLE && -149 <= b.exp <= 104),
    ensures
        bits == single_pattern(b@),
        stands_for(bits, b@),
{
    if b.mant == 0 {
        0
    } else {
        let field: u32 = (b.exp + 150) as u32;
        let frac: u32 = (b.mant - SINGLE) as u32;
        let bits: u32 = field * 0x80_0000 + frac;
        assert(bits / 0x80_0000 == field && bits % 0x80_0000 == frac);
        bits
    }
}

/// A single precision number in decimal notation with `places` digits after
/// the point.
pub open spec fn single_fixed(bits: u32, places: nat) -> Seq<char> {
    match single(bits) {
        Single::NotANumber => "NaN"@,
        Single::Infinite { negative } => if negative {
            "-inf"@
        } else {
            "inf"@
        },
        Single::Finite { negative, magnitude } => if negative {
            seq!['-'] + fixed(magnitude@, places)
        } else {
            fixed(magnitude@, places)
        },
    }
}

/// A single precision number in decimal notation.
pub fn single_fixed_of(bits: u32, places: usize) -> (out: Vec<char>)
    requires
        places <= 2,
    ensures
        out@ == single_fixed(bits, places as nat),
{
    match single_of(bits) {
        Single::NotANumber => crate::text::chars_of("NaN"),
        Single::Infinite { negative } => if negative {
            crate::text::chars_of("-inf")
        } else {
            crate::text::chars_of("inf")
        },
        Single::Finite { negative, magnitude } => {
            let body = fixed_of(magnitude, places);
            if negative {
                let mut out: Vec<char> = Vec::new();
                out.push('-');
                push_all(&mut out, body.as_slice());
                assert(out@ =~= seq!['-'] + body@);
                out
            } else {
                body
            }
        },
    }
}

/// The place of a single precision number in the order of numbers; something
/// that is no number has none. Both zeros have the same place.
pub open spec fn single_rank(bits: u32) -> Option<int> {
    if single(bits) is NotANumber {
        None
    } else if bits >= 0x8000_0000 {
        Some(0x8000_0000 - bits)
    } else {
        Some(bits as int)
    }
}

/// The place of a single precision number in the order of numbers.
pub fn single_rank_of(bits: u32) -> (r: Option<i64>)
    ensures
        match r {
            Some(v) => single_rank(bits) == Some(v as int),
            None => single_rank(bits) is None,
        },
{
    match single_of(bits) {
        Single::NotANumber => None,
        _ => if bits >= 0x8000_0000 {
            Some(0x8000_0000 - bits as i64)
        } else {
            Some(bits as i64)
        },
    }
}

proof fn lemma_low_pattern(a: u32, m: nat, i: nat)
    requires
        a < 0x7f80_0000,
        a < 0x80_0000 ==> m == a && i == 0,
        a >= 0x80_0000 ==> m == a % 0x80_0000 + 0x80_0000 && i + 1 == a / 0x80_0000,
    ensures
        single(a) == (Single::Finite {
            negative: false,
            magnitude: Binary { mant: m as u64, exp: (i - 149) as i32 },
        }),
        m < 0x100_0000,
        i < 254,
{
    let f = a / 0x80_0000;
    assert(f < 255 && f % 256 == f);
}

/// Patterns of numbers that are not negative stand for numbers in their own
/// order.
pub proof fn lemma_pattern_order(a: u32, b: u32)
    requires
        a <= b < 0x7f80_0000,
    ensures
        single(a) matches Single::Finite { negative, magnitude: v } && !negative && (single(
            b,
        ) matches Single::Finite { negative: other, magnitude: w } && !other && v.exp >= -149
            && w.exp >= -149 && v.mant * pow2((v.exp + 149) as nat) <= w.mant * pow2(
            (w.exp + 149) as nat,
        ) && (a < b ==> v.mant * pow2((v.exp + 149) as nat) < w.mant * pow2(
            (w.exp + 149) as nat,
        ))),
{
    vstd::arithmetic::power2::lemma2_to64();
    let f = (a / 0x80_0000) as nat;
    let g = (b / 0x80_0000) as nat;
    let m: nat = (a % 0x80_0000) as nat + if f > 0 {
        0x80_0000nat
    } else {
        0
    };
    let n: nat = (b % 0x80_0000) as nat + if g > 0 {
        0x80_0000nat
    } else {
        0
    };
    let i = (if f > 0 {
        f - 1
    } else {
        0
    }) as nat;
    let j = (if g > 0 {
        g - 1
    } else {
        0
    }) as nat;
    lemma_low_pattern(a, m, i);
    lemma_low_pattern(b, n, j);
    assert(((i - 149) as i32 + 149) as nat == i && ((j - 149) as i32 + 149) as nat == j);
    let p = pow2(i);
    vstd::arithmetic::power2::lemma_pow2_pos(i);
    if f == g {
        assert(i == j && m <= n && (a < b ==> m < n));
        assert(m * p <= n * p && (m < n ==> m * p < n * p)) by (nonlinear_arith)
            requires
                m <= n,
                p > 0,
        ;
    } else if f == 0 {
        vstd::arithmetic::power2::lemma_pow2_pos(j);
        let q = pow2(j);
        assert(m * 1 < n * q) by (nonlinear_arith)
            requires
                m < n,
                q >= 1,
        ;
        assert(p == 1 && m * p == m * 1);
    } else {
        let k = (j - i) as nat;
        assert(j == i + k && k > 0);
        vstd::arithmetic::power2::lemma_pow2_adds(i, k);
        lemma_pow2_unfold(k);
        vstd::arithmetic::power2::lemma_pow2_pos((k - 1) as nat);
        let r = pow2((k - 1) as nat);
        assert(m * p < n * (p * (2 * r))) by (nonlinear_arith)
            requires
                m < 2 * n,
                r >= 1,
                p > 0,
        ;
        assert(pow2(j) == p * (2 * r));
    }
}

/// A finite single precision number in units of `2^-149`, of which all of them
/// are multiples.
pub open spec fn in_smallest_units(negative: bool, magnitude: Binary) -> int {
    let n = magnitude.mant * pow2((magnitude.exp + 149) as nat);
    if negative {
        -n
    } else {
        n
    }
}

/// Whether the number `a` is at most the number `b`.
pub open spec fn number_at_most(a: Single, b: Single) -> bool {
    match (a, b) {
        (Single::NotANumber, _) | (_, Single::NotANumber) => false,
        (Single::Infinite { negative: true }, _) | (_, Single::Infinite { negative: false }) => true,
        (Single::Infinite { negative: false }, _) | (_, Single::Infinite { negative: true }) => false,
        (
            Single::Finite { negative, magnitude },
            Single::Finite { negative: other, magnitude: m },
        ) => in_smallest_units(negative, magnitude) <= in_smallest_units(other, m),
    }
}

/// Single precision numbers have their places in the order of their values.
pub proof fn places_follow_values(a: u32, b: u32)
    ensures
        single_rank(a) is None <==> single(a) is NotANumber,
        single_rank(a) matches Some(x) ==> (single_rank(b) matches Some(y) ==> (x <= y
            <==> number_at_most(single(a), single(b)))),
{
    if single_rank(a) is Some && single_rank(b) is Some {
        let x: u32 = if a >= 0x8000_0000 {
            (a - 0x8000_0000) as u32
        } else {
            a
        };
        let y: u32 = if b >= 0x8000_0000 {
            (b - 0x8000_0000) as u32
        } else {
            b
        };
        if a >= 0x8000_0000 {
            lemma_sign(a);
        }
        if b >= 0x8000_0000 {
            lemma_sign(b);
        }
        if x < 0x7f80_0000 && y < 0x7f80_0000 {
            lemma_pattern_order(0, x);
            lemma_pattern_order(0, y);
            assert(0 * pow2(0) == 0) by (nonlinear_arith);
            if x <= y {
                lemma_pattern_order(x, y);
            } else {
                lemma_pattern_order(y, x);
            }
        }
    }
}

proof fn lemma_sign(a: u32)
    requires
        a >= 0x8000_0000,
    ensures
        match single((a - 0x8000_0000) as u32) {
            Single::NotANumber => single(a) is NotANumber,
            Single::Infinite { negative } => single(a) == (Single::Infinite { negative: true }),
            Single::Finite { negative, magnitude } => single(a) == (Single::Finite {
                negative: true,
                magnitude,
            }),
        },
{
    let x = (a - 0x8000_0000) as u32;
    assert(a / 0x80_0000 == 256 + x / 0x80_0000);
    assert(a % 0x80_0000 == x % 0x80_0000);
}

/// The positive finite number that a pattern in the 64-bit binary interchange
/// format stands for; nothing for zero, for what is negative and for what is
/// not finite.
pub open spec fn positive_double(bits: u64) -> Option<Binary> {
    let field = bits / 0x10_0000_0000_0000;
    let frac = bits % 0x10_0000_0000_0000;
    if bits == 0 || field >= 2047 {
        None
    } else if field == 0 {
        Some(Binary { mant: frac, exp: (-1074) as i32 })
    } else {
        Some(
            Binary {
                mant: (frac + 0x10_0000_0000_0000) as u64,
                exp: (field - 1075) as i32,
            },
        )
    }
}

/// Decodes a 64-bit pattern.
pub fn positive_double_of(bits: u64) -> (r: Option<Binary>)
    ensures
        r == positive_double(bits),
        r matches Some(b) ==> 0 < b.mant < 2 * DOUBLE && -1074 <= b.exp <= 971,
{
    let field: u64 = bits / 0x10_0000_0000_0000;
    let frac: u64 = bits % 0x10_0000_0000_0000;
    if bits == 0 || field >= 2047 {
        None
    } else if field == 0 {
        Some(Binary { mant: frac, exp: -1074 })
    } else {
        Some(Binary { mant: frac + 0x10_0000_0000_0000, exp: field as i32 - 1075 })
    }
}

/// A number in the 64-bit binary interchange format.
#[derive(Debug, Clone, Copy, PartialEq, Eq, Structural)]
pub enum Double {
    NotANumber,
    Infinite { negative: bool },
    Finite { negative: bool, magnitude: Binary },
}

/// What a 64-bit pattern stands for: a sign bit, eleven bits of exponent and 52
/// bits of mantissa.
pub open spec fn double(bits: u64) -> Double {
    let negative = bits >= 0x8000_0000_0000_0000;
    let field = (bits / 0x10_0000_0000_0000) % 2048;
    let frac = bits % 0x10_0000_0000_0000;
    if field == 2047 {
        if frac == 0 {
            Double::Infinite { negative }
        } else {
            Double::NotANumber
        }
    } else if field == 0 {
        Double::Finite { negative, magnitude: Binary { mant: frac, exp: (-1074) as i32 } }
    } else {
        Double::Finite {
            negative,
            magnitude: Binary {
                mant: (frac + 0x10_0000_0000_0000) as u64,
                exp: (field - 1075) as i32,
            },
        }
    }
}

/// Decodes a 64-bit pattern.
pub fn double_of(bits: u64) -> (r: Double)
    ensures
        r == double(bits),
        r matches Double::Finite { magnitude, .. } ==> magnitude.mant < 2 * DOUBLE && -1074
            <= magnitude.exp <= 971,
{
    let negative = bits >= 0x8000_0000_0000_0000;
    let field: u64 = (bits / 0x10_0000_0000_0000) % 2048;
    let frac: u64 = bits % 0x10_0000_0000_0000;
    if field == 2047 {
        if frac == 0 {
            Double::Infinite { negative }
        } else {
            Double::NotANumber
        }
    } else if field == 0 {
        Double::Finite { negative, magnitude: Binary { mant: frac, exp: -1074 } }
    } else {
        Double::Finite {
            negative,
            magnitude: Binary { mant: frac + 0x10_0000_0000_0000, exp: field as i32 - 1075 },
        }
    }
}

/// The pattern of a number that is not negative and has a mantissa of 53 binary
/// digits: the exponent in its field, and the digits after the first.
pub open spec fn double_pattern(v: (nat, int)) -> u64 {
    if v.0 == 0 {
        0
    } else {
        ((v.1 + 1075) * 0x10_0000_0000_0000 + (v.0 - 0x10_0000_0000_0000)) as u64
    }
}

/// The pattern of a positive number with a mantissa of 53 binary digits, or of
/// zero.
pub fn double_bits(b: Binary) -> (bits: u64)
    requires
        b.mant == 0 || (DOUBLE <= b.mant < 2 * DOUBLE && -1074 <= b.exp <= 971),
    ensures
        bits == double_pattern(b@),
        b.mant == 0 ==> bits == 0,
        b.mant > 0 ==> double(bits) == (Double::Finite { negative: false, magnitude: b }),
{
    if b.mant == 0 {
        0
    } else {
        let field: u64 = (b.exp + 1075) as u64;
        let frac: u64 = b.mant - DOUBLE;
        let bits: u64 = field * 0x10_0000_0000_0000 + frac;
        assert(bits / 0x10_0000_0000_0000 == field && bits % 0x10_0000_0000_0000 == frac);
        bits
    }
}

/// A double precision number in decimal notation with `places` digits after
/// the point.
pub open spec fn double_fixed(bits: u64, places: nat) -> Seq<char> {
    match double(bits) {
        Double::NotANumber => "NaN"@,
        Double::Infinite { negative } => if negative {
            "-inf"@
        } else {
            "inf"@
        },
        Double::Finite { negative, magnitude } => if negative {
            seq!['-'] + fixed(magnitude@, places)
        } else {
            fixed(magnitude@, places)
        },
    }
}

/// A double precision number in decimal notation.
pub fn double_fixed_of(bits: u64, places: usize) -> (out: Vec<char>)
    requires
        places <= 2,
    ensures
        out@ == double_fixed(bits, places as nat),
{
    match double_of(bits) {
        Double::NotANumber => crate::text::chars_of("NaN"),
        Double::Infinite { negative } => if negative {
            crate::text::chars_of("-inf")
        } else {
            crate::text::chars_of("inf")
        },
        Double::Finite { negative, magnitude } => {
            let body = fixed_of(magnitude, places);
            if negative {
                let mut out: Vec<char> = Vec::new();
                out.push('-');
                push_all(&mut out, body.as_slice());
                assert(out@ =~= seq!['-'] + body@);
                out
            } else {
                body
            }
        },
    }
}

/// The nearest whole number is at most half away, and where two are as near it is the
/// even one. A ratio whose size fits the mantissa is rounded to it.
pub proof fn ties_go_to_the_even_number(n: nat, d: nat, half: nat)
    requires
        d > 0,
        half > 0,
    ensures
        -(d as int) <= 2 * (n - nearest(n, d) * d) <= d,
        2 * (n - nearest(n, d) * d) == d || 2 * (nearest(n, d) * d - n) == d ==> nearest(n, d) % 2
            == 0,
        d * half <= n < d * (2 * half) ==> rounded(n, d, half) == if nearest(n, d) == 2 * half {
            (half, 1int)
        } else {
            (nearest(n, d), 0int)
        },
{
    let q = n / d;
    let r = n % d;
    vstd::arithmetic::div_mod::lemma_fundamental_div_mod(n as int, d as int);
    assert(n == d * q + r && r < d);
    assert(q * d == d * q && (q + 1) * d == d * q + d) by (nonlinear_arith);
    if d * half <= n {
        assert(d * half > 0) by (nonlinear_arith)
            requires
                d > 0,
                half > 0,
        ;
    }
}

} // verus!
