//! How far results that were rounded are from what they stand for.

use vstd::arithmetic::power2::{lemma_pow2_adds, lemma_pow2_pos, pow2};
use vstd::prelude::*;

use crate::bounds::{cells, lemma_over};
use crate::number::{decimal, padded_left};
use crate::rounding::{
    denom, double, double_fixed, double_pattern, fixed, lemma_nearest, nearest, numer,
    positive_double, pow10, product, quotient, rounded, rounded_is_near, single, single_fixed,
    single_pattern, whole, Binary, Double, Single,
};
use crate::units::share;

verus! {

/// Whether `x` is off `y` by at most `slack` parts in `h` of it.
pub open spec fn near(x: int, y: int, slack: int, h: int) -> bool {
    x * (h - slack) <= y * h <= x * (h + slack)
}

/// The number `m * 2^e` in units of `2^-k`.
pub open spec fn in_units(v: (nat, int), k: nat) -> int {
    (v.0 * pow2((v.1 + k) as nat)) as int
}

/// What is near is near in smaller units.
pub proof fn lemma_near_scaled(x: int, y: int, slack: int, h: int, c: int)
    requires
        near(x, y, slack, h),
        c >= 0,
    ensures
        near(x * c, y * c, slack, h),
{
    assert((x * c) * (h - slack) == (x * (h - slack)) * c) by (nonlinear_arith);
    assert((x * c) * (h + slack) == (x * (h + slack)) * c) by (nonlinear_arith);
    assert((y * c) * h == (y * h) * c) by (nonlinear_arith);
    let a = x * (h - slack);
    let b = y * h;
    let d = x * (h + slack);
    assert(a * c <= b * c <= d * c) by (nonlinear_arith)
        requires
            a <= b <= d,
            c >= 0,
    ;
}

/// What is near in larger units is near.
pub proof fn lemma_near_unscaled(x: int, y: int, slack: int, h: int, c: int)
    requires
        near(x * c, y * c, slack, h),
        c > 0,
    ensures
        near(x, y, slack, h),
{
    assert((x * c) * (h - slack) == (x * (h - slack)) * c) by (nonlinear_arith);
    assert((x * c) * (h + slack) == (x * (h + slack)) * c) by (nonlinear_arith);
    assert((y * c) * h == (y * h) * c) by (nonlinear_arith);
    let a = x * (h - slack);
    let b = y * h;
    let d = x * (h + slack);
    assert(a <= b <= d) by (nonlinear_arith)
        requires
            a * c <= b * c <= d * c,
            c > 0,
    ;
}

/// What is near to something near is near.
pub proof fn lemma_near_twice(x: int, y: int, z: int, a: int, b: int, h: int)
    requires
        near(x, y, a, h),
        near(y, z, b, h),
        x >= 0,
        y >= 0,
        z >= 0,
        a >= 0,
        b >= 0,
        a * b <= h,
        a <= h,
        b <= h,
        h > 0,
    ensures
        near(x, z, a + b + 1, h),
{
    let c = a + b + 1;
    assert(x * (h - c) <= z * h) by (nonlinear_arith)
        requires
            x * (h - a) <= y * h,
            y * (h - b) <= z * h,
            c == a + b + 1,
            0 <= a <= h,
            0 <= b <= h,
            h > 0,
            x >= 0,
    {
        assert(x * (h - a) * (h - b) <= (y * h) * (h - b)) by (nonlinear_arith)
            requires
                x * (h - a) <= y * h,
                b <= h,
        ;
        assert((y * h) * (h - b) == (y * (h - b)) * h) by (nonlinear_arith);
        assert((y * (h - b)) * h <= (z * h) * h) by (nonlinear_arith)
            requires
                y * (h - b) <= z * h,
                h > 0,
        ;
        assert(x * (h - c) * h <= x * (h - a) * (h - b)) by (nonlinear_arith)
            requires
                c == a + b + 1,
                x >= 0,
                a >= 0,
                b >= 0,
                h > 0,
        {
            assert((h - a) * (h - b) - (h - c) * h == a * b + h) by (nonlinear_arith)
                requires
                    c == a + b + 1,
            ;
            assert(a * b >= 0) by (nonlinear_arith)
                requires
                    a >= 0,
                    b >= 0,
            ;
            assert(x * (h - a) * (h - b) == x * ((h - a) * (h - b))) by (nonlinear_arith);
            assert(x * (h - c) * h == x * ((h - c) * h)) by (nonlinear_arith);
            let p = (h - c) * h;
            let q = (h - a) * (h - b);
            assert(x * p <= x * q) by (nonlinear_arith)
                requires
                    p <= q,
                    x >= 0,
            ;
        }
        let p = x * (h - c);
        let q = z * h;
        assert(p <= q) by (nonlinear_arith)
            requires
                p * h <= q * h,
                h > 0,
        ;
    }
    assert(z * h <= x * (h + c)) by (nonlinear_arith)
        requires
            y * h <= x * (h + a),
            z * h <= y * (h + b),
            c == a + b + 1,
            0 <= a <= h,
            0 <= b <= h,
            a * b <= h,
            h > 0,
            x >= 0,
    {
        assert((z * h) * h <= (y * (h + b)) * h) by (nonlinear_arith)
            requires
                z * h <= y * (h + b),
                h > 0,
        ;
        assert((y * (h + b)) * h == (y * h) * (h + b)) by (nonlinear_arith);
        assert((y * h) * (h + b) <= x * (h + a) * (h + b)) by (nonlinear_arith)
            requires
                y * h <= x * (h + a),
                b >= 0,
                h > 0,
        ;
        assert((h + c) * h - (h + a) * (h + b) == h - a * b) by (nonlinear_arith)
            requires
                c == a + b + 1,
        ;
        assert(x * (h + a) * (h + b) == x * ((h + a) * (h + b))) by (nonlinear_arith);
        assert(x * (h + c) * h == x * ((h + c) * h)) by (nonlinear_arith);
        let u = (h + a) * (h + b);
        let v = (h + c) * h;
        assert(x * u <= x * v) by (nonlinear_arith)
            requires
                u <= v,
                x >= 0,
        ;
        let p = x * (h + c);
        let q = z * h;
        assert(q <= p) by (nonlinear_arith)
            requires
                q * h <= p * h,
                h > 0,
        ;
    }
}

proof fn lemma_near_turned(x: int, y: int, h: int)
    requires
        near(x, y, 1, h),
        x >= 0,
        y >= 0,
        h >= 2,
    ensures
        near(y, x, 2, h),
{
    assert(y * (h - 2) <= x * h) by (nonlinear_arith)
        requires
            y * h <= x * (h + 1),
            x >= 0,
            y >= 0,
            h >= 2,
    {
        assert((y * h) * (h - 2) <= x * (h + 1) * (h - 2)) by (nonlinear_arith)
            requires
                y * h <= x * (h + 1),
                h >= 2,
        ;
        assert(x * (h + 1) * (h - 2) <= (x * h) * h) by (nonlinear_arith)
            requires
                x >= 0,
                h >= 2,
        {
            assert((h + 1) * (h - 2) <= h * h) by (nonlinear_arith)
                requires
                    h >= 0,
            ;
            let u = (h + 1) * (h - 2);
            let v = h * h;
            assert(x * u <= x * v) by (nonlinear_arith)
                requires
                    u <= v,
                    x >= 0,
            ;
            assert(x * (h + 1) * (h - 2) == x * u) by (nonlinear_arith)
                requires
                    u == (h + 1) * (h - 2),
            ;
            assert((x * h) * h == x * v) by (nonlinear_arith)
                requires
                    v == h * h,
            ;
        }
        assert((y * h) * (h - 2) == (y * (h - 2)) * h) by (nonlinear_arith);
        let p = y * (h - 2);
        let q = x * h;
        assert(p <= q) by (nonlinear_arith)
            requires
                p * h <= q * h,
                h >= 2,
        ;
    }
    assert(x * h <= y * (h + 2)) by (nonlinear_arith)
        requires
            x * (h - 1) <= y * h,
            x >= 0,
            y >= 0,
            h >= 2,
    {
        assert((x * (h - 1)) * h <= (y * h) * h) by (nonlinear_arith)
            requires
                x * (h - 1) <= y * h,
                h >= 2,
        ;
        assert((y * h) * h <= (y * (h + 2)) * (h - 1)) by (nonlinear_arith)
            requires
                y >= 0,
                h >= 2,
        {
            let u = h * h;
            let v = (h + 2) * (h - 1);
            assert(u <= v) by (nonlinear_arith)
                requires
                    u == h * h,
                    v == (h + 2) * (h - 1),
                    h >= 2,
            ;
            assert(y * u <= y * v) by (nonlinear_arith)
                requires
                    u <= v,
                    y >= 0,
            ;
            assert((y * h) * h == y * u) by (nonlinear_arith)
                requires
                    u == h * h,
            ;
            assert((y * (h + 2)) * (h - 1) == y * v) by (nonlinear_arith)
                requires
                    v == (h + 2) * (h - 1),
            ;
        }
        assert((x * (h - 1)) * h == (x * h) * (h - 1)) by (nonlinear_arith);
        let p = x * h;
        let q = y * (h + 2);
        assert(p <= q) by (nonlinear_arith)
            requires
                p * (h - 1) <= q * (h - 1),
                h >= 2,
        ;
    }
}

/// A number that was rounded is off by at most one part in twice the least
/// mantissa.
pub proof fn lemma_rounded_near(n: nat, d: nat, half: nat, k: nat)
    requires
        d > 0,
        half > 0,
        rounded(n, d, half).1 + k >= 0,
    ensures
        near(
            in_units(rounded(n, d, half), k) * d,
            (n * pow2(k)) as int,
            1,
            2 * half as int,
        ),
{
    let h = 2 * half as int;
    let (m, e) = rounded(n, d, half);
    lemma_pow2_pos(k);
    if n == 0 {
        assert(m == 0);
        let p = pow2((e + k) as nat);
        assert(0 * p == 0) by (nonlinear_arith);
        assert(0 * d == 0) by (nonlinear_arith);
        assert(0 * pow2(k) == 0) by (nonlinear_arith);
        assert(0 * (h - 1) == 0 && 0 * h == 0 && 0 * (h + 1) == 0) by (nonlinear_arith);
    } else {
        rounded_is_near(n, d, half);
        let unit = pow2((e + k) as nat) * d;
        lemma_pow2_pos((e + k) as nat);
        let x = in_units((m, e), k) * d;
        let y = (n * pow2(k)) as int;
        assert(x == m * unit) by (nonlinear_arith)
            requires
                x == (m * pow2((e + k) as nat)) * d,
                unit == pow2((e + k) as nat) * d,
        ;
        assert(-unit <= 2 * (y - x) <= unit) by {
            if e >= 0 {
                lemma_pow2_adds(e as nat, k);
                let u = pow2(e as nat) * d;
                let v = m * pow2(e as nat) * d;
                let p = pow2(k) as int;
                assert(unit == u * p && x == v * p) by (nonlinear_arith)
                    requires
                        unit == (pow2(e as nat) * p) * d,
                        x == (m * (pow2(e as nat) * p)) * d,
                        u == pow2(e as nat) * d,
                        v == m * pow2(e as nat) * d,
                ;
                let w = n - v;
                assert(y - x == w * p) by (nonlinear_arith)
                    requires
                        y == n * p,
                        x == v * p,
                        w == n - v,
                ;
                assert(-(u * p) <= 2 * (w * p) <= u * p) by (nonlinear_arith)
                    requires
                        -u <= 2 * w <= u,
                        p > 0,
                ;
            } else {
                let f = (-e) as nat;
                let g = (k - f) as nat;
                lemma_pow2_adds(f, g);
                let p = pow2(g) as int;
                let q = pow2(f) as int;
                let w = n * q - m * d;
                assert(y - x == w * p && unit == d * p) by (nonlinear_arith)
                    requires
                        y == n * (q * p),
                        x == (m * p) * d,
                        w == n * q - m * d,
                        unit == p * d,
                ;
                lemma_pow2_pos(g);
                assert(-(d * p) <= 2 * (w * p) <= d * p) by (nonlinear_arith)
                    requires
                        -(d as int) <= 2 * w <= d,
                        p > 0,
                ;
            }
        }
        assert(half * unit <= x) by (nonlinear_arith)
            requires
                x == m * unit,
                half <= m,
                unit >= 0,
        ;
        let w = y - x;
        assert(-x <= w * h <= x) by (nonlinear_arith)
            requires
                -(unit as int) <= 2 * w <= unit,
                h == 2 * half,
                half * unit <= x,
                half > 0,
        ;
        assert(y * h == x * h + w * h) by (nonlinear_arith)
            requires
                w == y - x,
        ;
        assert(x * (h - 1) == x * h - x && x * (h + 1) == x * h + x) by (nonlinear_arith);
    }
}

/// A quotient times the divisor is off the dividend by as much.
pub proof fn lemma_quotient_near(a: (nat, int), b: (nat, int), half: nat, k: nat, j: nat)
    requires
        b.0 > 0,
        half > 0,
        quotient(a, b, half).1 + k >= 0,
        b.1 + j >= 0,
        a.1 + k + j >= 0,
    ensures
        near(
            in_units(quotient(a, b, half), k) * in_units(b, j),
            in_units(a, k + j),
            1,
            2 * half as int,
        ),
{
    let (m, e) = rounded(a.0, b.0, half);
    let q = quotient(a, b, half);
    let t = (a.1 + k + j) as nat;
    lemma_rounded_near(a.0, b.0, half, t);
    lemma_pow2_adds((q.1 + k) as nat, (b.1 + j) as nat);
    assert((q.1 + k) + (b.1 + j) == e + t);
    let x = pow2((q.1 + k) as nat);
    let y = pow2((b.1 + j) as nat);
    assert((m * x) * (b.0 * y) == (m * (x * y)) * b.0) by (nonlinear_arith);
}

/// A product is off by as much.
pub proof fn lemma_product_near(v: (nat, int), n: nat, half: nat, k: nat)
    requires
        half > 0,
        product(v, (n, 0), half).1 + k >= 0,
        v.1 + k >= 0,
    ensures
        near(
            in_units(product(v, (n, 0), half), k),
            in_units(v, k) * n,
            1,
            2 * half as int,
        ),
{
    let t = (v.1 + k) as nat;
    lemma_rounded_near(v.0 * n, 1, half, t);
    let p = pow2(t);
    assert((v.0 * n) * p == (v.0 * p) * n) by (nonlinear_arith);
}

/// In smaller units a number is so much more.
pub proof fn lemma_more_units(v: (nat, int), k: nat, j: nat)
    requires
        v.1 + k >= 0,
    ensures
        in_units(v, k + j) == in_units(v, k) * pow2(j),
        in_units(v, k) >= 0,
{
    lemma_pow2_adds((v.1 + k) as nat, j);
    let p = pow2((v.1 + k) as nat);
    let q = pow2(j);
    assert(v.0 * (p * q) == (v.0 * p) * q) by (nonlinear_arith);
}

/// An exponent without its sign.
pub open spec fn size(e: int) -> nat {
    if e < 0 {
        (-e) as nat
    } else {
        e as nat
    }
}

/// A share in percent is what the part is to the total, times a hundred, but for
/// at most eight parts in twice the least mantissa.
pub proof fn a_share_is_the_part_of_the_total(part: nat, total: nat, half: nat, k: nat)
    requires
        total > 0,
        half >= 16,
        share(part, total, half).1 + k >= 0,
    ensures
        near(
            in_units(share(part, total, half), k) * total,
            (100 * part * pow2(k)) as int,
            8,
            2 * half as int,
        ),
{
    let h = 2 * half as int;
    let a = rounded(part, 1, half);
    let b = rounded(total, 1, half);
    let q = quotient(a, b, half);
    let s = share(part, total, half);
    rounded_is_near(total, 1, half);
    let i = size(a.1) + size(b.1) + size(q.1);
    let k3 = k + i;
    let k2 = size(b.1);
    let k1 = k2 + k3;
    lemma_more_units(s, k, i);
    lemma_rounded_near(part, 1, half, k1);
    lemma_rounded_near(total, 1, half, k2);
    lemma_quotient_near(a, b, half, k3, k2);
    lemma_product_near(q, 100, half, k3);
    lemma_more_units(a, k1, 0);
    lemma_more_units(b, k2, 0);
    lemma_more_units(q, k3, 0);
    lemma_more_units(s, k3, 0);
    let sa = in_units(a, k1);
    let sb = in_units(b, k2);
    let sq = in_units(q, k3);
    let ss = in_units(s, k3);
    let p = (part * pow2(k1)) as int;
    let t = (total * pow2(k2)) as int;
    lemma_pow2_pos(k1);
    lemma_pow2_pos(k2);
    lemma_pow2_pos(i);
    assert(p >= 0 && t >= 0) by (nonlinear_arith)
        requires
            p == part * pow2(k1),
            t == total * pow2(k2),
    ;
    assert(near(sa, p, 1, h));
    assert(near(sb, t, 1, h));
    assert(near(sq * sb, sa, 1, h));
    assert(near(ss, sq * 100, 1, h));
    lemma_near_turned(sb, t, h);
    lemma_near_scaled(t, sb, 2, h, ss);
    lemma_near_scaled(ss, sq * 100, 1, h, sb);
    lemma_near_scaled(sq * sb, sa, 1, h, 100);
    lemma_near_scaled(sa, p, 1, h, 100);
    assert(t * ss == ss * t && sb * ss == ss * sb) by (nonlinear_arith);
    assert((sq * 100) * sb == (sq * sb) * 100) by (nonlinear_arith);
    assert(ss * t >= 0 && ss * sb >= 0 && (sq * sb) * 100 >= 0) by (nonlinear_arith)
        requires
            ss >= 0,
            t >= 0,
            sb >= 0,
            sq >= 0,
    ;
    lemma_near_twice(ss * t, ss * sb, (sq * sb) * 100, 2, 1, h);
    lemma_near_twice(ss * t, (sq * sb) * 100, sa * 100, 4, 1, h);
    lemma_near_twice(ss * t, sa * 100, p * 100, 6, 1, h);
    let x = in_units(s, k);
    lemma_pow2_adds(k2, k3);
    lemma_pow2_adds(k, i);
    let c = (pow2(i) * pow2(k2)) as int;
    assert(c > 0) by (nonlinear_arith)
        requires
            c == pow2(i) * pow2(k2),
            pow2(i) > 0,
            pow2(k2) > 0,
    ;
    assert(ss * t == (x * total) * c) by (nonlinear_arith)
        requires
            ss == x * pow2(i),
            t == total * pow2(k2),
            c == pow2(i) * pow2(k2),
    ;
    let y = (100 * part * pow2(k)) as int;
    assert(p * 100 == y * c) by (nonlinear_arith)
        requires
            p == part * (pow2(k2) * (pow2(k) * pow2(i))),
            y == 100 * part * pow2(k),
            c == pow2(i) * pow2(k2),
    ;
    lemma_near_unscaled(x * total, y, 8, h, c);
}

/// The quotient of two whole numbers times the second is the first, but for at
/// most eight parts in twice the least mantissa.
pub proof fn a_ratio_is_of_its_parts(n: nat, d: nat, half: nat, k: nat)
    requires
        d > 0,
        half >= 16,
        quotient(rounded(n, 1, half), rounded(d, 1, half), half).1 + k >= 0,
    ensures
        near(
            in_units(quotient(rounded(n, 1, half), rounded(d, 1, half), half), k) * d,
            (n * pow2(k)) as int,
            8,
            2 * half as int,
        ),
{
    let h = 2 * half as int;
    let a = rounded(n, 1, half);
    let b = rounded(d, 1, half);
    let q = quotient(a, b, half);
    rounded_is_near(d, 1, half);
    let i = size(a.1) + size(b.1);
    let k3 = k + i;
    let k2 = size(b.1);
    let k1 = k2 + k3;
    lemma_more_units(q, k, i);
    lemma_rounded_near(n, 1, half, k1);
    lemma_rounded_near(d, 1, half, k2);
    lemma_quotient_near(a, b, half, k3, k2);
    lemma_more_units(a, k1, 0);
    lemma_more_units(b, k2, 0);
    lemma_more_units(q, k3, 0);
    let sa = in_units(a, k1);
    let sb = in_units(b, k2);
    let sq = in_units(q, k3);
    let p = (n * pow2(k1)) as int;
    let t = (d * pow2(k2)) as int;
    lemma_pow2_pos(k2);
    lemma_pow2_pos(i);
    assert(p >= 0 && t >= 0) by (nonlinear_arith)
        requires
            p == n * pow2(k1),
            t == d * pow2(k2),
    ;
    assert(near(sa, p, 1, h));
    assert(near(sb, t, 1, h));
    lemma_near_turned(sb, t, h);
    lemma_near_scaled(t, sb, 2, h, sq);
    assert(t * sq == sq * t && sb * sq == sq * sb) by (nonlinear_arith);
    assert(sq * t >= 0 && sq * sb >= 0) by (nonlinear_arith)
        requires
            sq >= 0,
            t >= 0,
            sb >= 0,
    ;
    lemma_near_twice(sq * t, sq * sb, sa, 2, 1, h);
    lemma_near_twice(sq * t, sa, p, 4, 1, h);
    let x = in_units(q, k);
    lemma_pow2_adds(k2, k3);
    lemma_pow2_adds(k, i);
    let c = (pow2(i) * pow2(k2)) as int;
    assert(c > 0) by (nonlinear_arith)
        requires
            c == pow2(i) * pow2(k2),
            pow2(i) > 0,
            pow2(k2) > 0,
    ;
    assert(sq * t == (x * d) * c) by (nonlinear_arith)
        requires
            sq == x * pow2(i),
            t == d * pow2(k2),
            c == pow2(i) * pow2(k2),
    ;
    let y = (n * pow2(k)) as int;
    assert(p == y * c) by (nonlinear_arith)
        requires
            p == n * (pow2(k2) * (pow2(k) * pow2(i))),
            y == n * pow2(k),
            c == pow2(i) * pow2(k2),
    ;
    let m = sq * t;
    assert(m * (h - 8) <= m * (h - 6) && m * (h + 6) <= m * (h + 8)) by (nonlinear_arith)
        requires
            m >= 0,
    ;
    lemma_near_unscaled(x * d, y, 8, h, c);
}

/// A whole number divided by another one is their quotient, but for at most four
/// parts in twice the least mantissa.
pub proof fn a_rate_is_the_amount_by_the_time(n: nat, by: (nat, int), half: nat, k: nat, j: nat)
    requires
        by.0 > 0,
        half >= 16,
        quotient(rounded(n, 1, half), by, half).1 + k >= 0,
        by.1 + j >= 0,
    ensures
        near(
            in_units(quotient(rounded(n, 1, half), by, half), k) * in_units(by, j),
            (n * pow2(k + j)) as int,
            4,
            2 * half as int,
        ),
{
    let h = 2 * half as int;
    let a = rounded(n, 1, half);
    let r = quotient(a, by, half);
    let i = size(a.1);
    let k3 = k + i;
    let k1 = k3 + j;
    lemma_more_units(r, k, i);
    lemma_more_units(r, k3, 0);
    lemma_more_units(a, k1, 0);
    lemma_more_units(by, j, 0);
    lemma_rounded_near(n, 1, half, k1);
    lemma_quotient_near(a, by, half, k3, j);
    let sr = in_units(r, k3);
    let sb = in_units(by, j);
    let sa = in_units(a, k1);
    let p = (n * pow2(k1)) as int;
    assert(sr * sb >= 0 && p >= 0) by (nonlinear_arith)
        requires
            sr >= 0,
            sb >= 0,
            p == n * pow2(k1),
    ;
    lemma_near_twice(sr * sb, sa, p, 1, 1, h);
    assert(near(sr * sb, p, 4, h)) by {
        let x = sr * sb;
        assert(x * (h - 4) <= x * (h - 3) && x * (h + 3) <= x * (h + 4)) by (nonlinear_arith)
            requires
                x >= 0,
        ;
    }
    lemma_pow2_pos(i);
    lemma_pow2_adds(k + j, i);
    let x = in_units(r, k);
    let c = pow2(i) as int;
    assert(sr * sb == (x * sb) * c) by (nonlinear_arith)
        requires
            sr == x * c,
    ;
    let y = (n * pow2(k + j)) as int;
    assert(p == y * c) by (nonlinear_arith)
        requires
            p == n * (pow2(k + j) * c),
            y == n * pow2(k + j),
    ;
    lemma_near_unscaled(x * sb, y, 4, h, c);
}

/// The whole part of a number is at most the number, and less than one below it.
pub proof fn the_whole_part_is_cut_off(v: (nat, int), k: nat)
    requires
        v.1 + k >= 0,
    ensures
        whole(v) * pow2(k) <= in_units(v, k) < (whole(v) + 1) * pow2(k),
{
    lemma_over(v, k);
    let n = numer(v);
    let d = denom(v);
    let w = whole(v);
    let x = in_units(v, k);
    let p = pow2(k);
    assert(w * d <= n < (w + 1) * d) by (nonlinear_arith)
        requires
            w == n / d,
            d > 0,
    ;
    lemma_between(w as int, n as int, d as int, x, p as int);
}

proof fn lemma_between(w: int, n: int, d: int, x: int, p: int)
    requires
        w * d <= n < (w + 1) * d,
        n * p == x * d,
        d > 0,
        p > 0,
    ensures
        w * p <= x < (w + 1) * p,
{
    let u = w + 1;
    assert((w * d) * p <= n * p) by (nonlinear_arith)
        requires
            w * d <= n,
            p > 0,
    ;
    assert(n * p < (u * d) * p) by (nonlinear_arith)
        requires
            n < u * d,
            p > 0,
    ;
    assert((w * d) * p == (w * p) * d) by (nonlinear_arith);
    assert((u * d) * p == (u * p) * d) by (nonlinear_arith);
    let a = w * p;
    let b = u * p;
    assert(a <= x) by (nonlinear_arith)
        requires
            a * d <= x * d,
            d > 0,
    ;
    assert(x < b) by (nonlinear_arith)
        requires
            x * d < b * d,
            d > 0,
    ;
}

/// What is near in units, cut off to whole numbers, is within the same bounds.
proof fn lemma_cut_off(r: int, x: int, s: int, y: int, slack: int, h: int, p: int)
    requires
        r * p <= x < (r + 1) * p,
        near(x * s, y * p, slack, h),
        r >= 0,
        s > 0,
        p > 0,
        0 <= slack < h,
    ensures
        r * s * (h - slack) <= y * h < (r + 1) * s * (h + slack),
{
    assert((r * p) * s <= x * s && x * s < ((r + 1) * p) * s) by (nonlinear_arith)
        requires
            r * p <= x < (r + 1) * p,
            s > 0,
    ;
    let a = (r * p) * s;
    let b = ((r + 1) * p) * s;
    let m = x * s;
    let l = h - slack;
    let u = h + slack;
    assert(a * l <= m * l && m * u < b * u) by (nonlinear_arith)
        requires
            a <= m < b,
            l > 0,
            u > 0,
    ;
    let c = r * s * l;
    let d = (r + 1) * s * u;
    let e = y * h;
    assert(a * l == c * p && b * u == d * p && (y * p) * h == e * p) by (nonlinear_arith)
        requires
            a == (r * p) * s,
            b == ((r + 1) * p) * s,
            c == r * s * l,
            d == (r + 1) * s * u,
            e == y * h,
    ;
    assert(c <= e < d) by (nonlinear_arith)
        requires
            c * p <= e * p < d * p,
            p > 0,
    ;
}

/// A count by a time as a whole number is not above their quotient, and less than
/// one below it, but for at most four parts in twice the least mantissa.
pub proof fn a_whole_rate_is_cut_off(n: nat, by: (nat, int), half: nat, j: nat)
    requires
        by.0 > 0,
        half >= 16,
        by.1 + j >= 0,
    ensures
        ({
            let r = whole(quotient(rounded(n, 1, half), by, half)) as int;
            let s = in_units(by, j);
            let h = 2 * half as int;
            r * s * (h - 4) <= (n * pow2(j)) * h < (r + 1) * s * (h + 4)
        }),
{
    let q = quotient(rounded(n, 1, half), by, half);
    let k = size(q.1);
    let s = in_units(by, j);
    a_rate_is_the_amount_by_the_time(n, by, half, k, j);
    the_whole_part_is_cut_off(q, k);
    lemma_pow2_pos(k);
    lemma_pow2_pos((by.1 + j) as nat);
    assert(s > 0) by (nonlinear_arith)
        requires
            s == by.0 * pow2((by.1 + j) as nat),
            by.0 > 0,
            pow2((by.1 + j) as nat) > 0,
    ;
    lemma_pow2_adds(j, k);
    let y = (n * pow2(j)) as int;
    assert((n * pow2(k + j)) as int == y * pow2(k)) by (nonlinear_arith)
        requires
            pow2(k + j) == pow2(j) * pow2(k),
            y == n * pow2(j),
    ;
    lemma_cut_off(
        whole(q) as int,
        in_units(q, k),
        s,
        y,
        4,
        2 * half as int,
        pow2(k) as int,
    );
}

/// A share in whole percent is not above the share, and less than one below it,
/// but for at most eight parts in twice the least mantissa.
pub proof fn a_whole_share_is_cut_off(part: nat, total: nat, half: nat)
    requires
        total > 0,
        half >= 16,
    ensures
        ({
            let w = whole(share(part, total, half)) as int;
            let h = 2 * half as int;
            w * total * (h - 8) <= (100 * part) * h < (w + 1) * total * (h + 8)
        }),
{
    let s = share(part, total, half);
    let k = size(s.1);
    a_share_is_the_part_of_the_total(part, total, half, k);
    the_whole_part_is_cut_off(s, k);
    lemma_pow2_pos(k);
    lemma_cut_off(
        whole(s) as int,
        in_units(s, k),
        total as int,
        (100 * part) as int,
        8,
        2 * half as int,
        pow2(k) as int,
    );
}

/// The cells of a bar are as many of its cells as the number is of a hundred, a
/// fraction cut off, but for at most three parts in twice the least mantissa.
pub proof fn a_bar_is_filled_by_the_share(v: (nat, int), width: nat, half: nat, k: nat)
    requires
        half >= 16,
        v.1 + k >= 0,
    ensures
        ({
            let n = cells(v, width, half) as int;
            let h = 2 * half as int;
            n * (100 * pow2(k)) * (h - 3) <= (in_units(v, k) * width) * h < (n + 1) * (100 * pow2(
                k,
            )) * (h + 3)
        }),
{
    let h = 2 * half as int;
    let q = quotient(v, (100, 0), half);
    let p = product(q, (width, 0), half);
    let i = size(q.1) + size(p.1);
    let t = k + i;
    lemma_quotient_near(v, (100, 0), half, t, 0);
    vstd::arithmetic::power2::lemma2_to64();
    lemma_product_near(q, width, half, t);
    the_whole_part_is_cut_off(p, t);
    lemma_more_units(v, k, i);
    lemma_more_units(v, t, 0);
    lemma_more_units(q, t, 0);
    lemma_more_units(p, t, 0);
    let sv = in_units(v, t);
    let sq = in_units(q, t);
    let sp = in_units(p, t);
    assert(in_units((100, 0), 0) == 100);
    lemma_near_scaled(sp, sq * width, 1, h, 100);
    lemma_near_scaled(sq * 100, sv, 1, h, width as int);
    assert((sq * width) * 100 == (sq * 100) * width) by (nonlinear_arith);
    assert((sq * 100) * width >= 0 && sv * width >= 0) by (nonlinear_arith)
        requires
            sq >= 0,
            sv >= 0,
    ;
    lemma_near_twice(sp * 100, (sq * 100) * width, sv * width, 1, 1, h);
    let n = cells(v, width, half) as int;
    lemma_pow2_pos(t);
    lemma_pow2_pos(i);
    lemma_pow2_pos(k);
    lemma_pow2_adds(k, i);
    let x = in_units(v, k) * width;
    let c = pow2(i) as int;
    assert(sv * width == x * c) by (nonlinear_arith)
        requires
            sv == in_units(v, k) * c,
            x == in_units(v, k) * width,
    ;
    let d = (100 * pow2(k)) as int;
    assert(n * d * c <= sp * 100 < (n + 1) * d * c) by (nonlinear_arith)
        requires
            n * pow2(t) <= sp < (n + 1) * pow2(t),
            pow2(t) == pow2(k) * c,
            d == 100 * pow2(k),
    ;
    assert((n * d) * c * (h - 3) <= (sp * 100) * (h - 3)) by (nonlinear_arith)
        requires
            n * d * c <= sp * 100,
            h >= 3,
    ;
    assert((sp * 100) * (h + 3) < ((n + 1) * d) * c * (h + 3)) by (nonlinear_arith)
        requires
            sp * 100 < (n + 1) * d * c,
            h >= 3,
    ;
    let l = n * d * (h - 3);
    let u = (n + 1) * d * (h + 3);
    let m = x * h;
    assert((n * d) * c * (h - 3) == l * c && ((n + 1) * d) * c * (h + 3) == u * c && (x * c) * h
        == m * c) by (nonlinear_arith)
        requires
            l == n * d * (h - 3),
            u == (n + 1) * d * (h + 3),
            m == x * h,
    ;
    assert(l <= m < u) by (nonlinear_arith)
        requires
            l * c <= m * c < u * c,
            c > 0,
    ;
}

/// A number is printed as the nearest decimal number with so many digits behind
/// the point: `t` tenths or hundredths, off by at most half of one.
pub proof fn decimals_are_the_nearest(v: (nat, int), places: nat, k: nat) -> (t: nat)
    requires
        places <= 2,
        v.1 + k >= 0,
    ensures
        ({
            let ten: int = if places == 0 {
                1
            } else if places == 1 {
                10
            } else {
                100
            };
            let off = t * pow2(k) - ten * in_units(v, k);
            -(pow2(k) as int) <= 2 * off <= pow2(k)
        }),
        places == 0 ==> fixed(v, places) == decimal(t),
        places == 1 ==> fixed(v, places) == decimal(t / 10) + seq!['.'] + decimal(t % 10),
        places == 2 ==> fixed(v, places) == decimal(t / 100) + seq!['.'] + decimal(
            (t % 100) / 10,
        ) + decimal(t % 10),
{
    reveal_with_fuel(pow10, 3);
    let ten = pow10(places);
    let n = numer(v);
    let d = denom(v);
    let t = nearest(n * ten, d);
    lemma_over(v, k);
    lemma_nearest(n * ten, d);
    let x = in_units(v, k);
    let p = pow2(k) as int;
    lemma_off(t as int, n as int, d as int, ten as int, x, p);
    if places == 1 {
        let r = t % 10;
        assert(decimal(r).len() == 1);
    } else if places == 2 {
        let r = t % 100;
        assert(r % 10 == t % 10);
        reveal_with_fuel(decimal, 3);
        if r < 10 {
            assert(r / 10 == 0);
            assert(padded_left(decimal(r), '0', 2) =~= decimal(0) + decimal(r));
        } else {
            assert(r / 10 < 10);
            assert(decimal(r) =~= decimal(r / 10) + decimal(r % 10));
        }
        assert(fixed(v, places) =~= decimal(t / 100) + seq!['.'] + decimal(r / 10) + decimal(
            t % 10,
        ));
    }
    t
}

proof fn lemma_off(t: int, n: int, d: int, ten: int, x: int, p: int)
    requires
        2 * (t * d) <= 2 * (n * ten) + d,
        2 * (n * ten) <= 2 * (t * d) + d,
        n * p == x * d,
        d > 0,
        p > 0,
    ensures
        -p <= 2 * (t * p - ten * x) <= p,
{
    let o = t * p - ten * x;
    let e = t * d - n * ten;
    assert(o * d == e * p) by (nonlinear_arith)
        requires
            o == t * p - ten * x,
            e == t * d - n * ten,
            n * p == x * d,
    {
        assert((t * p - ten * x) * d == (t * p) * d - (ten * x) * d) by (nonlinear_arith);
        assert((t * d - n * ten) * p == (t * d) * p - (n * ten) * p) by (nonlinear_arith);
        assert((t * p) * d == (t * d) * p) by (nonlinear_arith);
        assert((ten * x) * d == ten * (x * d)) by (nonlinear_arith);
        assert((n * ten) * p == ten * (n * p)) by (nonlinear_arith);
    }
    assert(-(d * p) <= 2 * (e * p) <= d * p) by (nonlinear_arith)
        requires
            -d <= 2 * e <= d,
            p > 0,
    ;
    assert(-p <= 2 * o <= p) by (nonlinear_arith)
        requires
            -(d * p) <= 2 * (o * d) <= d * p,
            d > 0,
    ;
}

/// What is negative has a minus sign before what is printed of the number without
/// it; an infinite number is printed as `inf`, and what is no number as `NaN`.
pub proof fn signs_stand_before_numbers(bits: u32, wide: u64, places: nat)
    ensures
        match single(bits) {
            Single::Finite { negative, magnitude } => single_fixed(bits, places) == (if negative {
                seq!['-']
            } else {
                Seq::empty()
            }) + fixed(magnitude@, places),
            Single::Infinite { negative } => single_fixed(bits, places) == (if negative {
                seq!['-']
            } else {
                Seq::empty()
            }) + seq!['i', 'n', 'f'],
            Single::NotANumber => single_fixed(bits, places) == seq!['N', 'a', 'N'],
        },
        match double(wide) {
            Double::Finite { negative, magnitude } => double_fixed(wide, places) == (if negative {
                seq!['-']
            } else {
                Seq::empty()
            }) + fixed(magnitude@, places),
            Double::Infinite { negative } => double_fixed(wide, places) == (if negative {
                seq!['-']
            } else {
                Seq::empty()
            }) + seq!['i', 'n', 'f'],
            Double::NotANumber => double_fixed(wide, places) == seq!['N', 'a', 'N'],
        },
{
    reveal_strlit("NaN");
    reveal_strlit("-inf");
    reveal_strlit("inf");
    assert("NaN"@ =~= seq!['N', 'a', 'N']);
    assert("inf"@ =~= Seq::<char>::empty() + seq!['i', 'n', 'f']);
    assert("-inf"@ =~= seq!['-'] + seq!['i', 'n', 'f']);
    match single(bits) {
        Single::Finite { negative, magnitude } => {
            assert(Seq::<char>::empty() + fixed(magnitude@, places) =~= fixed(magnitude@, places));
        },
        _ => {},
    }
    match double(wide) {
        Double::Finite { negative, magnitude } => {
            assert(Seq::<char>::empty() + fixed(magnitude@, places) =~= fixed(magnitude@, places));
        },
        _ => {},
    }
}

/// The numbers that patterns stand for: the digits behind the first, the first
/// digit where the exponent is not the least, and the power of two that the
/// exponent gives.
pub proof fn patterns_have_exponent_and_digits(field: u32, frac: u32, wide: u64, digits: u64)
    requires
        field < 255,
        frac < 0x80_0000,
        wide < 2047,
        digits < 0x10_0000_0000_0000,
    ensures
        single((field * 0x80_0000 + frac) as u32) == (Single::Finite {
            negative: false,
            magnitude: if field == 0 {
                Binary { mant: frac as u64, exp: (-149) as i32 }
            } else {
                Binary { mant: (0x80_0000 + frac) as u64, exp: (field - 150) as i32 }
            },
        }),
        double((wide * 0x10_0000_0000_0000 + digits) as u64) == (Double::Finite {
            negative: false,
            magnitude: if wide == 0 {
                Binary { mant: digits, exp: (-1074) as i32 }
            } else {
                Binary { mant: (0x10_0000_0000_0000 + digits) as u64, exp: (wide - 1075) as i32 }
            },
        }),
{
    let a = (field * 0x80_0000 + frac) as u32;
    assert(a / 0x80_0000 == field && a % 0x80_0000 == frac);
    let b = (wide * 0x10_0000_0000_0000 + digits) as u64;
    assert(b / 0x10_0000_0000_0000 == wide && b % 0x10_0000_0000_0000 == digits);
}

/// A whole number that the mantissa has room for is not changed by rounding.
pub proof fn small_numbers_are_exact(n: nat, half: nat, k: nat)
    requires
        n < 2 * half,
        rounded(n, 1, half).1 + k >= 0,
    ensures
        rounded(n, 1, half).1 <= 0,
        in_units(rounded(n, 1, half), k) == n * pow2(k),
        whole(rounded(n, 1, half)) == n,
{
    vstd::arithmetic::power2::lemma2_to64();
    let (m, e) = rounded(n, 1, half);
    if n == 0 {
        assert(m == 0 && e == 0);
        assert(0 * pow2(k) == 0) by (nonlinear_arith);
        assert(0nat / 1 == 0);
    } else {
        rounded_is_near(n, 1, half);
        assert(1 * (2 * half) == 2 * half && 1 * half == half);
        if n < half {
            rounded_is_near(2 * n, 1, half);
            assert(e == rounded(2 * n, 1, half).1 - 1);
        } else {
            assert(nearest(n, 1) == n) by {
                assert(n / 1 == n && n % 1 == 0);
            }
        }
        let j = (-e) as nat;
        let p = pow2(j);
        lemma_pow2_pos(j);
        if e == 0 {
            assert(m * pow2(0) * 1 == m);
            assert(pow2(0) * 1 == 1);
            assert(m == n);
            assert(m / 1 == m);
        } else {
            assert(m == n * p);
            assert(m / p == n) by (nonlinear_arith)
                requires
                    m == n * p,
                    p > 0,
            ;
        }
        lemma_pow2_adds(j, (k - j) as nat);
        let q = pow2((k - j) as nat);
        assert((n * p) * q == n * (p * q)) by (nonlinear_arith);
        assert(n * 1 == n);
    }
}

/// A positive pattern stands for the same number whichever way it is read, and no
/// other pattern is read as a positive number.
pub proof fn positive_patterns_are_numbers(bits: u64)
    ensures
        match double(bits) {
            Double::Finite { negative: false, magnitude } => positive_double(bits)
                == if magnitude.mant > 0 {
                Some(magnitude)
            } else {
                None
            },
            _ => positive_double(bits) is None,
        },
{
    let field = bits / 0x10_0000_0000_0000;
    if bits >= 0x8000_0000_0000_0000 {
        assert(field >= 2048);
    } else {
        assert(field < 2048);
        assert(field % 2048 == field);
    }
}

/// The pattern of a number stands for that number.
pub proof fn patterns_stand_for_their_numbers(v: (nat, int), w: (nat, int))
    requires
        0x80_0000 <= v.0 < 0x100_0000,
        -149 <= v.1 <= 104,
        0x10_0000_0000_0000 <= w.0 < 0x20_0000_0000_0000,
        -1074 <= w.1 <= 971,
    ensures
        single(single_pattern(v)) == (Single::Finite {
            negative: false,
            magnitude: Binary { mant: v.0 as u64, exp: v.1 as i32 },
        }),
        double(double_pattern(w)) == (Double::Finite {
            negative: false,
            magnitude: Binary { mant: w.0 as u64, exp: w.1 as i32 },
        }),
{
    patterns_have_exponent_and_digits(
        (v.1 + 150) as u32,
        (v.0 - 0x80_0000) as u32,
        (w.1 + 1075) as u64,
        (w.0 - 0x10_0000_0000_0000) as u64,
    );
}

} // verus!
