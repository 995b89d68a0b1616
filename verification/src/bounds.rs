//! How large rounded numbers get: rounding keeps the order of numbers, and a
//! part of a total is never more than a hundred percent of it.

use vstd::arithmetic::power2::{lemma_pow2_adds, lemma_pow2_pos, lemma_pow2_unfold, pow2};
use vstd::prelude::*;

use crate::rounding::{
    denom, distance, lemma_distance, lemma_nearest, nearest, numer, product, quotient, rounded,
    rounded_is_near, whole,
};

verus! {

/// Whether one rounded number is at most another: zero is at most any, and of
/// two others at the same precision the exponents decide, then the mantissas.
pub open spec fn at_most(v: (nat, int), w: (nat, int)) -> bool {
    v.0 == 0 || (w.0 > 0 && (v.1 < w.1 || (v.1 == w.1 && v.0 <= w.0)))
}

proof fn lemma_nearest_tie(n: nat, d: nat, k: nat)
    requires
        d > 0,
        2 * n == (2 * k + 1) * d,
    ensures
        nearest(n, d) == if k % 2 == 1 {
            k + 1
        } else {
            k
        },
{
    let r = n - k * d;
    assert(2 * r == d) by (nonlinear_arith)
        requires
            2 * n == (2 * k + 1) * d,
            r == n - k * d,
    ;
    assert(n == d * k + r) by (nonlinear_arith)
        requires
            r == n - k * d,
    ;
    vstd::arithmetic::div_mod::lemma_fundamental_div_mod_converse(
        n as int,
        d as int,
        k as int,
        r as int,
    );
}

proof fn lemma_nearest_monotone(n1: nat, d1: nat, n2: nat, d2: nat)
    requires
        d1 > 0,
        d2 > 0,
        n1 * d2 <= n2 * d1,
    ensures
        nearest(n1, d1) <= nearest(n2, d2),
{
    let k1 = nearest(n1, d1);
    let k2 = nearest(n2, d2);
    lemma_nearest(n1, d1);
    lemma_nearest(n2, d2);
    if k1 > k2 {
        // (2 k1 - 1) d1 <= 2 n1 and 2 n2 <= (2 k2 + 1) d2
        assert((2 * k1 - 1) * d1 <= 2 * n1) by (nonlinear_arith)
            requires
                2 * (k1 * d1) <= 2 * n1 + d1,
        ;
        assert(2 * n2 <= (2 * k2 + 1) * d2) by (nonlinear_arith)
            requires
                2 * n2 <= 2 * (k2 * d2) + d2,
        ;
        assert((2 * k2 + 1) * d1 <= (2 * k1 - 1) * d1) by (nonlinear_arith)
            requires
                k2 + 1 <= k1,
                d1 > 0,
        ;
        assert((2 * k2 + 1) * d1 == 2 * n1) by (nonlinear_arith)
            requires
                (2 * k2 + 1) * d1 <= 2 * n1,
                2 * n2 <= (2 * k2 + 1) * d2,
                n1 * d2 <= n2 * d1,
                d1 > 0,
                d2 > 0,
        ;
        assert((2 * k2 + 1) * d2 == 2 * n2) by (nonlinear_arith)
            requires
                (2 * k2 + 1) * d1 <= 2 * n1,
                2 * n2 <= (2 * k2 + 1) * d2,
                n1 * d2 <= n2 * d1,
                d1 > 0,
                d2 > 0,
        ;
        lemma_nearest_tie(n1, d1, k2);
        lemma_nearest_tie(n2, d2, k2);
    }
}

/// Rounding keeps the order of numbers.
pub proof fn rounding_keeps_order(n1: nat, d1: nat, n2: nat, d2: nat, half: nat)
    requires
        n1 > 0,
        d1 > 0,
        n2 > 0,
        d2 > 0,
        half > 0,
        n1 * d2 <= n2 * d1,
    ensures
        at_most(rounded(n1, d1, half), rounded(n2, d2, half)),
    decreases distance(n1, d1, half) + distance(n2, d2, half),
{
    lemma_distance(n1, d1, half);
    lemma_distance(n2, d2, half);
    rounded_is_near(n1, d1, half);
    rounded_is_near(n2, d2, half);
    assert(d1 * (2 * half) == 2 * (d1 * half)) by (nonlinear_arith);
    assert(d2 * (2 * half) == 2 * (d2 * half)) by (nonlinear_arith);
    if n1 >= d1 * (2 * half) {
        assert(n2 >= d2 * (2 * half)) by (nonlinear_arith)
            requires
                n1 >= d1 * (2 * half),
                n1 * d2 <= n2 * d1,
                d1 > 0,
                d2 > 0,
        ;
        assert(n1 * (2 * d2) <= n2 * (2 * d1)) by (nonlinear_arith)
            requires
                n1 * d2 <= n2 * d1,
        ;
        rounding_keeps_order(n1, 2 * d1, n2, 2 * d2, half);
    } else if n2 < d2 * half {
        assert(n1 < d1 * half) by (nonlinear_arith)
            requires
                n2 < d2 * half,
                n1 * d2 <= n2 * d1,
                d1 > 0,
                d2 > 0,
        ;
        assert((2 * n1) * d2 <= (2 * n2) * d1) by (nonlinear_arith)
            requires
                n1 * d2 <= n2 * d1,
        ;
        rounding_keeps_order(2 * n1, d1, 2 * n2, d2, half);
    } else if n1 < d1 * half {
        rounded_is_near(2 * n1, d1, half);
        if 2 * n1 < d1 * half {
            rounded_is_near(4 * n1, d1, half);
        }
    } else {
        lemma_nearest_monotone(n1, d1, n2, d2);
        if n2 >= d2 * (2 * half) {
            rounded_is_near(n2, 2 * d2, half);
            assert((2 * d2) * half == d2 * (2 * half)) by (nonlinear_arith);
        }
    }
}

/// The exponent is not below `-k` where `k` doublings bring the number to the
/// precision.
pub proof fn lemma_exponent_from(n: nat, d: nat, half: nat, k: nat)
    requires
        n > 0,
        d > 0,
        half > 0,
        n * pow2(k) >= d * half,
    ensures
        rounded(n, d, half).1 >= -k,
    decreases k,
{
    rounded_is_near(n, d, half);
    if n < d * half {
        assert(d * (2 * half) == 2 * (d * half)) by (nonlinear_arith);
        vstd::arithmetic::power2::lemma2_to64();
        if k > 0 {
            lemma_pow2_unfold(k);
            let p = pow2((k - 1) as nat);
            assert(n * (2 * p) == (2 * n) * p) by (nonlinear_arith);
            lemma_exponent_from(2 * n, d, half, (k - 1) as nat);
        } else {
            assert(n * pow2(0) == n);
        }
    }
}

/// The exponent is at most `k` where the number is below `2^k` times the end
/// of the precision, and one more where rounding reaches the end.
pub proof fn lemma_exponent_to(n: nat, d: nat, half: nat, k: nat)
    requires
        n > 0,
        d > 0,
        half > 0,
        n < d * (2 * half) * pow2(k),
    ensures
        rounded(n, d, half).1 <= k + 1,
    decreases k,
{
    rounded_is_near(n, d, half);
    if n >= d * (2 * half) {
        vstd::arithmetic::power2::lemma2_to64();
        if k > 0 {
            lemma_pow2_unfold(k);
            let p = pow2((k - 1) as nat);
            assert(d * (2 * half) * (2 * p) == (2 * d) * (2 * half) * p) by (nonlinear_arith);
            lemma_exponent_to(n, 2 * d, half, (k - 1) as nat);
        } else {
            assert(d * (2 * half) * pow2(0) == d * (2 * half));
        }
    }
}

/// The exponent is at least `k` where the number is at least `2^k` times the
/// beginning of the precision.
pub proof fn lemma_exponent_at_least(n: nat, d: nat, half: nat, k: nat)
    requires
        n > 0,
        d > 0,
        half > 0,
        n >= d * half * pow2(k),
    ensures
        rounded(n, d, half).1 >= k,
    decreases k,
{
    rounded_is_near(n, d, half);
    vstd::arithmetic::power2::lemma2_to64();
    if k > 0 {
        lemma_pow2_unfold(k);
        lemma_pow2_pos((k - 1) as nat);
        let p = pow2((k - 1) as nat);
        assert(n >= d * (2 * half)) by (nonlinear_arith)
            requires
                n >= d * half * (2 * p),
                p >= 1,
        ;
        assert(d * half * (2 * p) == (2 * d) * half * p) by (nonlinear_arith);
        lemma_exponent_at_least(n, 2 * d, half, (k - 1) as nat);
    } else {
        assert(d * half * pow2(0) == d * half);
    }
}

/// A number whose mantissa has the precision is not changed by rounding.
proof fn lemma_exact(m: nat, j: nat, i: nat, half: nat)
    requires
        0 < half <= m < 2 * half,
    ensures
        rounded(m * pow2(j), pow2(i), half) == (m, j - i),
    decreases
            if j > i {
                j - i
            } else {
                i - j
            },
{
    let n = m * pow2(j);
    let d = pow2(i);
    lemma_pow2_pos(j);
    lemma_pow2_pos(i);
    assert(n > 0) by (nonlinear_arith)
        requires
            n == m * pow2(j),
            m > 0,
            pow2(j) > 0,
    ;
    if j > i {
        let k = (j - i) as nat;
        lemma_pow2_adds(i, k);
        lemma_pow2_unfold(k);
        lemma_pow2_pos((k - 1) as nat);
        lemma_pow2_unfold(i + 1);
        let p = pow2((k - 1) as nat);
        assert(n >= d * (2 * half)) by (nonlinear_arith)
            requires
                n == m * (d * (2 * p)),
                m >= half,
                p >= 1,
                d > 0,
        ;
        lemma_exact(m, j, i + 1, half);
    } else if j < i {
        let k = (i - j) as nat;
        lemma_pow2_adds(j, k);
        lemma_pow2_unfold(k);
        lemma_pow2_pos((k - 1) as nat);
        lemma_pow2_unfold(j + 1);
        let p = pow2((k - 1) as nat);
        let q = pow2(j);
        assert(n < d * half) by (nonlinear_arith)
            requires
                n == m * q,
                d == q * (2 * p),
                m < 2 * half,
                p >= 1,
                q > 0,
        ;
        assert(n < d * (2 * half)) by (nonlinear_arith)
            requires
                n < d * half,
        ;
        assert(2 * n == m * (2 * q)) by (nonlinear_arith)
            requires
                n == m * q,
        ;
        lemma_exact(m, j + 1, i, half);
    } else {
        assert(n == m * d + 0);
        assert(n < d * (2 * half) && n >= d * half) by (nonlinear_arith)
            requires
                n == m * d,
                half <= m < 2 * half,
                d > 0,
        ;
        assert(n == d * m + 0) by (nonlinear_arith)
            requires
                n == m * d,
        ;
        vstd::arithmetic::div_mod::lemma_fundamental_div_mod_converse(
            n as int,
            d as int,
            m as int,
            0,
        );
        assert(nearest(n, d) == m);
    }
}

/// Rounding does not exceed a number of the precision that the number does not
/// exceed.
pub proof fn lemma_at_most(n: nat, d: nat, half: nat, m: nat, j: nat, i: nat)
    requires
        n > 0,
        d > 0,
        0 < half <= m < 2 * half,
        n * pow2(i) <= m * pow2(j) * d,
    ensures
        at_most(rounded(n, d, half), (m, j - i)),
{
    lemma_exact(m, j, i, half);
    lemma_pow2_pos(i);
    lemma_pow2_pos(j);
    assert(m * pow2(j) > 0) by (nonlinear_arith)
        requires
            m > 0,
            pow2(j) > 0,
    ;
    rounding_keeps_order(n, d, m * pow2(j), pow2(i), half);
}

/// A rounded number is zero or has a mantissa of the precision.
pub open spec fn normal(v: (nat, int), half: nat) -> bool {
    v.0 == 0 || half <= v.0 < 2 * half
}

/// The number one at a precision of `2^bits`.
spec fn one(bits: nat) -> (nat, int) {
    (pow2(bits), -bits)
}

/// The number one hundred at a precision of `2^bits`.
pub open spec fn hundred(bits: nat) -> (nat, int) {
    ((25 * pow2((bits - 4) as nat)) as nat, 6 - bits)
}

/// A number up to one times a whole number is at most that whole number.
proof fn lemma_times(w: (nat, int), n: nat, t: nat, bits: nat)
    requires
        normal(w, pow2(bits)),
        at_most(w, one(bits)),
        pow2(t) <= n < pow2(t + 1),
        t <= bits,
    ensures
        normal(product(w, (n, 0), pow2(bits)), pow2(bits)),
        at_most(product(w, (n, 0), pow2(bits)), ((n * pow2((bits - t) as nat)) as nat, t - bits)),
        pow2(bits) <= n * pow2((bits - t) as nat) < 2 * pow2(bits),
{
    let half = pow2(bits);
    let k = (bits - t) as nat;
    let m = n * pow2(k);
    lemma_pow2_pos(bits);
    lemma_pow2_pos(t);
    lemma_pow2_pos(k);
    lemma_pow2_adds(t, k);
    lemma_pow2_unfold(t + 1);
    assert(half <= m < 2 * half) by (nonlinear_arith)
        requires
            half == pow2(t) * pow2(k),
            m == n * pow2(k),
            pow2(t) <= n < 2 * pow2(t),
            pow2(k) > 0,
    ;
    if w.0 == 0 {
        assert(0 * n == 0);
        assert(w.0 * n == 0);
    } else {
        let x = w.0 * n;
        assert(x > 0) by (nonlinear_arith)
            requires
                x == w.0 * n,
                w.0 > 0,
                n > 0,
        ;
        rounded_is_near(x, 1, half);
        vstd::arithmetic::power2::lemma2_to64();
        if w.1 == -bits {
            assert(x == m * pow2(t)) by (nonlinear_arith)
                requires
                    x == w.0 * n,
                    w.0 == half,
                    m == n * pow2(k),
                    half == pow2(t) * pow2(k),
            ;
            assert(x * pow2(0) <= m * pow2(t) * 1);
            lemma_at_most(x, 1, half, m, t, 0);
        } else {
            assert(x <= m * (2 * pow2(t))) by (nonlinear_arith)
                requires
                    x == w.0 * n,
                    w.0 < 2 * half,
                    m == n * pow2(k),
                    half == pow2(t) * pow2(k),
                    n > 0,
            ;
            assert(x * pow2(0) <= m * pow2(t + 1) * 1);
            lemma_at_most(x, 1, half, m, t + 1, 0);
        }
    }
}

/// A part of a total is at most a hundred percent of it, whatever the
/// rounding does.
pub proof fn share_is_at_most_hundred(part: nat, total: nat, bits: nat)
    requires
        part <= total,
        total > 0,
        bits >= 8,
    ensures
        normal(crate::units::share(part, total, pow2(bits)), pow2(bits)),
        at_most(crate::units::share(part, total, pow2(bits)), hundred(bits)),
{
    let half = pow2(bits);
    lemma_pow2_pos(bits);
    let a = rounded(part, 1, half);
    let b = rounded(total, 1, half);
    rounded_is_near(total, 1, half);
    let w = quotient(a, b, half);
    if part == 0 {
        assert(w.0 == 0);
    } else {
        rounded_is_near(part, 1, half);
        rounding_keeps_order(part, 1, total, 1, half);
        rounded_is_near(a.0, b.0, half);
        vstd::arithmetic::power2::lemma2_to64();
        if a.1 == b.1 {
            assert(a.0 * half <= half * 1 * b.0) by (nonlinear_arith)
                requires
                    a.0 <= b.0,
            ;
            assert(half * pow2(0) == half * 1);
            lemma_at_most(a.0, b.0, half, half, 0, bits);
        } else {
            assert(a.0 * half <= half * 2 * b.0) by (nonlinear_arith)
                requires
                    a.0 < 2 * half,
                    half <= b.0,
            ;
            assert(half * pow2(1) == half * 2);
            lemma_at_most(a.0, b.0, half, half, 1, bits);
        }
    }
    assert(normal(w, half));
    assert(at_most(w, one(bits)));
    vstd::arithmetic::power2::lemma2_to64();
    lemma_times(w, 100, 6, bits);
    lemma_pow2_adds(2, (bits - 6) as nat);
    assert(100 * pow2((bits - 6) as nat) == 25 * pow2((bits - 4) as nat));
}

/// The exponents that 64-bit numbers have.
pub proof fn lemma_whole_exponents(n: nat, bits: nat)
    requires
        0 < n <= u64::MAX,
        8 <= bits <= 52,
    ensures
        -bits <= rounded(n, 1, pow2(bits)).1 <= 64 - bits,
        pow2(bits) <= rounded(n, 1, pow2(bits)).0 < 2 * pow2(bits),
{
    let half = pow2(bits);
    lemma_pow2_pos(bits);
    vstd::arithmetic::power2::lemma2_to64();
    vstd::arithmetic::power2::lemma2_to64_rest();
    lemma_pow2_adds(bits, (63 - bits) as nat);
    let rest = pow2((63 - bits) as nat);
    rounded_is_near(n, 1, half);
    assert(1 * (2 * half) * rest == 2 * (half * rest)) by (nonlinear_arith);
    assert(n * pow2(bits) >= 1 * half) by (nonlinear_arith)
        requires
            n >= 1,
            half == pow2(bits),
    ;
    lemma_exponent_from(n, 1, half, bits);
    lemma_exponent_to(n, 1, half, (63 - bits) as nat);
}

/// The exponents that quotients of mantissas have.
pub proof fn lemma_quotient_exponents(a: nat, b: nat, bits: nat)
    requires
        pow2(bits) <= a < 2 * pow2(bits),
        pow2(bits) <= b < 2 * pow2(bits),
    ensures
        -(bits + 1) <= rounded(a, b, pow2(bits)).1 <= 1,
        pow2(bits) <= rounded(a, b, pow2(bits)).0 < 2 * pow2(bits),
{
    let half = pow2(bits);
    lemma_pow2_pos(bits);
    rounded_is_near(a, b, half);
    lemma_pow2_unfold(bits + 1);
    assert(a * (2 * half) >= b * half) by (nonlinear_arith)
        requires
            a >= half,
            b < 2 * half,
    ;
    lemma_exponent_from(a, b, half, bits + 1);
    assert(a < b * (2 * half)) by (nonlinear_arith)
        requires
            a < 2 * half,
            b >= 1,
    ;
}

/// The exponents that shares of 64-bit numbers have.
pub proof fn lemma_share_exponents(part: nat, total: nat, bits: nat)
    requires
        part <= u64::MAX,
        0 < total <= u64::MAX,
        8 <= bits <= 52,
    ensures
        -65 - bits <= crate::units::share(part, total, pow2(bits)).1 <= 73,
        normal(crate::units::share(part, total, pow2(bits)), pow2(bits)),
{
    let half = pow2(bits);
    let a = rounded(part, 1, half);
    let b = rounded(total, 1, half);
    lemma_whole_exponents(total, bits);
    let w = quotient(a, b, half);
    if part == 0 {
        assert(w.0 == 0);
        assert(w.0 * 100 == 0);
    } else {
        lemma_whole_exponents(part, bits);
        lemma_quotient_exponents(a.0, b.0, bits);
        let x = w.0 * 100;
        vstd::arithmetic::power2::lemma2_to64();
        lemma_pow2_pos(bits);
        rounded_is_near(x, 1, half);
        lemma_exponent_to(x, 1, half, 7);
    }
}

/// The number of filled cells of a bar of `width` cells that shows a number in
/// percent: the hundredth part is taken `width` times, and the fraction cut off.
pub open spec fn cells(v: (nat, int), width: nat, half: nat) -> nat {
    whole(product(quotient(v, (100, 0), half), (width, 0), half))
}

/// A number up to a hundred percent fills at most all cells of a bar.
pub proof fn cells_fit_the_bar(v: (nat, int), width: nat, t: nat, bits: nat)
    requires
        bits >= 8,
        normal(v, pow2(bits)),
        at_most(v, hundred(bits)),
        pow2(t) <= width < pow2(t + 1),
        t < bits,
    ensures
        cells(v, width, pow2(bits)) <= width,
{
    let half = pow2(bits);
    lemma_pow2_pos(bits);
    vstd::arithmetic::power2::lemma2_to64();
    let w = quotient(v, (100, 0), half);
    lemma_pow2_adds(4, (bits - 4) as nat);
    if v.0 > 0 {
        rounded_is_near(v.0, 100, half);
        if v.1 == 6 - bits {
            assert(v.0 * pow2(6) <= half * 1 * 100);
            assert(half * pow2(0) == half * 1);
            lemma_at_most(v.0, 100, half, half, 0, 6);
        } else {
            assert(v.0 * pow2(5) <= half * 1 * 100);
            assert(half * pow2(0) == half * 1);
            lemma_at_most(v.0, 100, half, half, 0, 5);
        }
    }
    lemma_times(w, width, t, bits);
    lemma_whole_up_to(product(w, (width, 0), half), width, t, bits);
}

/// A number up to a whole number has at most that whole number as whole part.
proof fn lemma_whole_up_to(p: (nat, int), n: nat, t: nat, bits: nat)
    requires
        normal(p, pow2(bits)),
        at_most(p, ((n * pow2((bits - t) as nat)) as nat, t - bits)),
        pow2(bits) <= n * pow2((bits - t) as nat),
        t < bits,
    ensures
        whole(p) <= n,
{
    let half = pow2(bits);
    let k = (bits - t) as nat;
    lemma_pow2_pos(k);
    if p.0 == 0 {
        assert(whole(p) == 0) by {
            if p.1 < 0 {
                lemma_pow2_pos((-p.1) as nat);
                vstd::arithmetic::div_mod::lemma_div_basics(pow2((-p.1) as nat) as int);
            } else if p.1 > 0 {
                assert(0 * pow2(p.1 as nat) == 0);
            }
        }
    } else {
        let d = pow2((-p.1) as nat);
        assert(p.0 <= n * d) by {
            if p.1 < t - bits {
                let j = (-p.1 - k) as nat;
                lemma_pow2_adds(k, j);
                lemma_pow2_unfold(j);
                lemma_pow2_pos((j - 1) as nat);
                assert(p.0 <= n * d) by (nonlinear_arith)
                    requires
                        p.0 < 2 * half,
                        half <= n * pow2(k),
                        d == pow2(k) * (2 * pow2((j - 1) as nat)),
                        pow2((j - 1) as nat) >= 1,
                ;
            }
        }
        lemma_pow2_pos((-p.1) as nat);
        assert(p.0 / d <= n) by (nonlinear_arith)
            requires
                p.0 <= n * d,
                d > 0,
        ;
    }
}

/// A part of a total is at most a hundred whole percent of it.
pub proof fn whole_percent_is_at_most_hundred(part: nat, total: nat, bits: nat)
    requires
        part <= total,
        total > 0,
        bits >= 8,
    ensures
        whole(crate::units::share(part, total, pow2(bits))) <= 100,
{
    share_is_at_most_hundred(part, total, bits);
    vstd::arithmetic::power2::lemma2_to64();
    lemma_pow2_adds(2, (bits - 6) as nat);
    lemma_pow2_adds(6, (bits - 6) as nat);
    assert(100 * pow2((bits - 6) as nat) == 25 * pow2((bits - 4) as nat));
    lemma_whole_up_to(crate::units::share(part, total, pow2(bits)), 100, 6, bits);
}

proof fn lemma_rounded_doubled_both(n: nat, d: nat, half: nat)
    requires
        n > 0,
        d > 0,
        half > 0,
    ensures
        rounded(2 * n, 2 * d, half) == rounded(n, d, half),
    decreases distance(n, d, half),
{
    lemma_distance(n, d, half);
    assert(d * (2 * half) == 2 * (d * half)) by (nonlinear_arith);
    assert((2 * d) * (2 * half) == 2 * (d * (2 * half))) by (nonlinear_arith);
    assert((2 * d) * half == 2 * (d * half)) by (nonlinear_arith);
    if n >= d * (2 * half) {
        lemma_rounded_doubled_both(n, 2 * d, half);
    } else if n < d * half {
        lemma_rounded_doubled_both(2 * n, d, half);
    } else {
        let q = n / d;
        let r = n % d;
        assert(n == d * q + r && 0 <= r < d) by (nonlinear_arith)
            requires
                d > 0,
                q == n / d,
                r == n % d,
        ;
        assert(2 * n == (2 * d) * q + 2 * r) by (nonlinear_arith)
            requires
                n == d * q + r,
        ;
        vstd::arithmetic::div_mod::lemma_fundamental_div_mod_converse(
            (2 * n) as int,
            (2 * d) as int,
            q as int,
            (2 * r) as int,
        );
        assert(nearest(2 * n, 2 * d) == nearest(n, d));
    }
}

proof fn lemma_rounded_doubled(n: nat, d: nat, half: nat)
    requires
        n > 0,
        d > 0,
        half > 0,
    ensures
        rounded(2 * n, d, half) == (rounded(n, d, half).0, rounded(n, d, half).1 + 1),
{
    assert(d * (2 * half) == 2 * (d * half)) by (nonlinear_arith);
    if n >= d * half {
        lemma_rounded_doubled_both(n, d, half);
    }
}

/// Rounding a fraction of numbers that are in order keeps the order.
proof fn lemma_scaled_order(
    v: (nat, int),
    w: (nat, int),
    n1: nat,
    n2: nat,
    d: nat,
    half: nat,
)
    requires
        v.1 <= w.1,
        v.1 == w.1 ==> n1 <= n2,
        n1 <= 2 * n2,
        n1 > 0,
        n2 > 0,
        d > 0,
        half > 0,
    ensures
        at_most(
            (rounded(n1, d, half).0, rounded(n1, d, half).1 + v.1),
            (rounded(n2, d, half).0, rounded(n2, d, half).1 + w.1),
        ),
{
    if v.1 == w.1 {
        assert(n1 * d <= n2 * d) by (nonlinear_arith)
            requires
                n1 <= n2,
        ;
        rounding_keeps_order(n1, d, n2, d, half);
    } else {
        assert(n1 * d <= (2 * n2) * d) by (nonlinear_arith)
            requires
                n1 <= 2 * n2,
        ;
        rounding_keeps_order(n1, d, 2 * n2, d, half);
        lemma_rounded_doubled(n2, d, half);
    }
}

/// A numerator that is doubled several times adds to the exponent.
proof fn lemma_rounded_shifted(n: nat, d: nat, half: nat, a: nat)
    requires
        n > 0,
        d > 0,
        half > 0,
    ensures
        n * pow2(a) > 0,
        rounded(n * pow2(a), d, half) == (rounded(n, d, half).0, rounded(n, d, half).1 + a),
    decreases a,
{
    vstd::arithmetic::power2::lemma2_to64();
    if a == 0 {
        assert(n * pow2(0) == n);
    } else {
        lemma_rounded_shifted(n, d, half, (a - 1) as nat);
        lemma_pow2_unfold(a);
        let p = pow2((a - 1) as nat);
        assert(n * (2 * p) == 2 * (n * p)) by (nonlinear_arith);
        lemma_rounded_doubled(n * p, d, half);
    }
}

/// Dividing by a number keeps the order of numbers with any mantissas, which
/// are compared as fractions with the denominator `2^k`.
pub proof fn lemma_quotients_over(v: (nat, int), w: (nat, int), by: (nat, int), k: nat, half: nat)
    requires
        half > 0,
        by.0 > 0,
        v.1 + k >= 0,
        w.1 + k >= 0,
        v.0 * pow2((v.1 + k) as nat) <= w.0 * pow2((w.1 + k) as nat),
    ensures
        normal(quotient(v, by, half), half),
        normal(quotient(w, by, half), half),
        at_most(quotient(v, by, half), quotient(w, by, half)),
{
    let a = (v.1 + k) as nat;
    let b = (w.1 + k) as nat;
    lemma_pow2_pos(a);
    lemma_pow2_pos(b);
    if w.0 > 0 {
        rounded_is_near(w.0, by.0, half);
        lemma_rounded_shifted(w.0, by.0, half, b);
    }
    if v.0 > 0 {
        rounded_is_near(v.0, by.0, half);
        lemma_rounded_shifted(v.0, by.0, half, a);
        assert(w.0 > 0) by {
            if w.0 == 0 {
                assert(0 * pow2(b) == 0);
            }
        }
        let x = v.0 * pow2(a);
        let y = w.0 * pow2(b);
        assert(x * by.0 <= y * by.0) by (nonlinear_arith)
            requires
                x <= y,
        ;
        rounding_keeps_order(x, by.0, y, by.0, half);
    }
}

/// The quotient of equal numbers is one.
pub proof fn lemma_quotient_of_equals(v: (nat, int), bits: nat)
    requires
        v.0 > 0,
    ensures
        normal(quotient(v, v, pow2(bits)), pow2(bits)),
        whole(quotient(v, v, pow2(bits))) >= 1,
{
    let half = pow2(bits);
    lemma_pow2_pos(bits);
    vstd::arithmetic::power2::lemma2_to64();
    rounded_is_near(v.0, v.0, half);
    lemma_exact(half, 0, bits, half);
    assert(half * pow2(0) == half);
    assert(half * v.0 <= v.0 * half) by (nonlinear_arith);
    rounding_keeps_order(half, half, v.0, v.0, half);
    whole_parts_keep_order((half, -bits), quotient(v, v, half), half);
    assert(whole((half, -bits)) == 1) by {
        if bits > 0 {
            vstd::arithmetic::div_mod::lemma_div_by_self(half as int);
        } else {
            assert(numer((half, -bits)) == 1 && denom((half, -bits)) == 1);
        }
    }
}

/// Dividing by a number keeps the order.
pub proof fn quotients_keep_order(v: (nat, int), w: (nat, int), by: (nat, int), half: nat)
    requires
        half > 0,
        by.0 > 0,
        normal(v, half),
        normal(w, half),
        at_most(v, w),
    ensures
        normal(quotient(v, by, half), half),
        normal(quotient(w, by, half), half),
        at_most(quotient(v, by, half), quotient(w, by, half)),
{
    if w.0 > 0 {
        rounded_is_near(w.0, by.0, half);
    }
    if v.0 > 0 {
        rounded_is_near(v.0, by.0, half);
        lemma_scaled_order(v, w, v.0, w.0, by.0, half);
    }
}

/// Multiplying by a whole number keeps the order.
pub proof fn products_keep_order(v: (nat, int), w: (nat, int), n: nat, half: nat)
    requires
        half > 0,
        n > 0,
        normal(v, half),
        normal(w, half),
        at_most(v, w),
    ensures
        normal(product(v, (n, 0), half), half),
        normal(product(w, (n, 0), half), half),
        at_most(product(v, (n, 0), half), product(w, (n, 0), half)),
{
    assert(0 * n == 0);
    if w.0 > 0 {
        assert(w.0 * n > 0) by (nonlinear_arith)
            requires
                w.0 > 0,
                n > 0,
        ;
        rounded_is_near(w.0 * n, 1, half);
    } else {
        assert(w.0 * n == 0);
    }
    if v.0 > 0 {
        assert(v.0 * n > 0) by (nonlinear_arith)
            requires
                v.0 > 0,
                n > 0,
        ;
        rounded_is_near(v.0 * n, 1, half);
        assert(v.1 == w.1 ==> v.0 * n <= w.0 * n) by (nonlinear_arith)
            requires
                v.1 == w.1 ==> v.0 <= w.0,
        ;
        assert(v.0 * n <= 2 * (w.0 * n)) by (nonlinear_arith)
            requires
                v.0 < 2 * half,
                half <= w.0,
        ;
        lemma_scaled_order(v, w, v.0 * n, w.0 * n, 1, half);
    } else {
        assert(v.0 * n == 0);
    }
}

/// A number as a fraction with the denominator `2^k`.
pub proof fn lemma_over(v: (nat, int), k: nat)
    requires
        v.1 + k >= 0,
    ensures
        numer(v) * pow2(k) == (v.0 * pow2((v.1 + k) as nat)) * denom(v),
        denom(v) > 0,
        pow2(k) > 0,
{
    lemma_pow2_pos(k);
    vstd::arithmetic::power2::lemma2_to64();
    if v.1 > 0 {
        lemma_pow2_adds(v.1 as nat, k);
        assert((v.0 * pow2(v.1 as nat)) * pow2(k) == (v.0 * (pow2(v.1 as nat) * pow2(k))) * 1)
            by (nonlinear_arith);
    } else if v.1 < 0 {
        let j = (-v.1) as nat;
        lemma_pow2_pos(j);
        lemma_pow2_adds((k - j) as nat, j);
        assert(v.0 * (pow2((k - j) as nat) * pow2(j)) == (v.0 * pow2((k - j) as nat)) * pow2(j))
            by (nonlinear_arith);
    } else {
        assert((v.0 * pow2(k)) * 1 == v.0 * pow2(k));
    }
}

/// Numbers in order, as fractions with the same denominator.
pub proof fn lemma_order_over(v: (nat, int), w: (nat, int), k: nat, half: nat)
    requires
        normal(v, half),
        normal(w, half),
        at_most(v, w),
        v.1 + k >= 0,
        w.1 + k >= 0,
    ensures
        v.0 * pow2((v.1 + k) as nat) <= w.0 * pow2((w.1 + k) as nat),
{
    let a = pow2((v.1 + k) as nat);
    let b = pow2((w.1 + k) as nat);
    lemma_pow2_pos((v.1 + k) as nat);
    lemma_pow2_pos((w.1 + k) as nat);
    if v.0 == 0 {
        assert(0 * a == 0);
        assert(w.0 * b >= 0) by (nonlinear_arith)
            requires
                w.0 >= 0,
                b > 0,
        ;
    } else if v.1 == w.1 {
        assert(v.0 * a <= w.0 * a) by (nonlinear_arith)
            requires
                v.0 <= w.0,
        ;
    } else {
        let j = (w.1 - v.1) as nat;
        lemma_pow2_adds((v.1 + k) as nat, j);
        lemma_pow2_unfold(j);
        lemma_pow2_pos((j - 1) as nat);
        let p = pow2((j - 1) as nat);
        assert(v.0 * a <= w.0 * (a * (2 * p))) by (nonlinear_arith)
            requires
                v.0 <= 2 * w.0,
                p >= 1,
                a > 0,
        ;
    }
}

proof fn lemma_whole_over(v: (nat, int), k: nat)
    requires
        v.1 + k >= 0,
    ensures
        whole(v) == (v.0 * pow2((v.1 + k) as nat)) / pow2(k),
{
    lemma_over(v, k);
    let n = numer(v);
    let d = denom(v);
    let m = v.0 * pow2((v.1 + k) as nat);
    let e = pow2(k);
    lemma_same_quotient(n, d, m, e);
}

/// Equal fractions have equal whole parts.
pub proof fn lemma_same_quotient(n: nat, d: nat, m: nat, e: nat)
    requires
        d > 0,
        e > 0,
        n * e == m * d,
    ensures
        n / d == m / e,
{
    let q = n / d;
    let r = n % d;
    assert(n == d * q + r && 0 <= r < d) by (nonlinear_arith)
        requires
            d > 0,
            q == n / d,
            r == n % d,
    ;
    let s = m - e * q;
    assert(s * d == r * e) by (nonlinear_arith)
        requires
            n == d * q + r,
            n * e == m * d,
            s == m - e * q,
    ;
    assert(0 <= s < e) by (nonlinear_arith)
        requires
            s * d == r * e,
            0 <= r < d,
            e > 0,
            d > 0,
    ;
    vstd::arithmetic::div_mod::lemma_fundamental_div_mod_converse(
        m as int,
        e as int,
        q as int,
        s as int,
    );
}

/// Of two numbers in order, the whole parts are in order.
pub proof fn whole_parts_keep_order(v: (nat, int), w: (nat, int), half: nat)
    requires
        normal(v, half),
        normal(w, half),
        at_most(v, w),
    ensures
        whole(v) <= whole(w),
{
    let k = (if v.1 < 0 {
        -v.1
    } else {
        0
    } + if w.1 < 0 {
        -w.1
    } else {
        0
    }) as nat;
    lemma_order_over(v, w, k, half);
    lemma_whole_over(v, k);
    lemma_whole_over(w, k);
    lemma_pow2_pos(k);
    vstd::arithmetic::div_mod::lemma_div_is_ordered(
        (v.0 * pow2((v.1 + k) as nat)) as int,
        (w.0 * pow2((w.1 + k) as nat)) as int,
        pow2(k) as int,
    );
}

/// A bar of a larger number has no fewer filled cells.
pub proof fn bars_follow_numbers(v: (nat, int), w: (nat, int), width: nat, half: nat)
    requires
        half > 0,
        width > 0,
        normal(v, half),
        normal(w, half),
        at_most(v, w),
    ensures
        cells(v, width, half) <= cells(w, width, half),
{
    quotients_keep_order(v, w, (100, 0), half);
    products_keep_order(
        quotient(v, (100, 0), half),
        quotient(w, (100, 0), half),
        width,
        half,
    );
    whole_parts_keep_order(
        product(quotient(v, (100, 0), half), (width, 0), half),
        product(quotient(w, (100, 0), half), (width, 0), half),
        half,
    );
}

} // verus!
