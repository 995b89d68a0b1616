//! Usages in percent, in single precision: the busy share, the mean of several
//! loads, the bar that shows a usage and the line that shows its history.

use std::collections::VecDeque;

use vstd::arithmetic::power2::{
    lemma_pow2_adds, lemma_pow2_pos, lemma_pow2_strictly_increases, pow2,
};
use vstd::prelude::*;

use crate::bounds::{
    at_most, cells, hundred, lemma_at_most, lemma_exponent_at_least, lemma_exponent_from,
    lemma_order_over, lemma_over, lemma_quotient_exponents, lemma_quotient_of_equals,
    lemma_quotients_over, lemma_same_quotient, lemma_whole_exponents, normal, products_keep_order,
    rounding_keeps_order, whole_parts_keep_order,
};
use crate::nearness::{
    a_bar_is_filled_by_the_share, a_ratio_is_of_its_parts, in_units, lemma_more_units,
    lemma_near_scaled, lemma_near_twice, lemma_near_unscaled, lemma_product_near,
    lemma_quotient_near, lemma_rounded_near, near, size, small_numbers_are_exact,
    the_whole_part_is_cut_off,
};
use crate::number::{repeat, repeated};
use crate::rounding::{
    binary_of, denom, divide, lemma_pattern_order, multiply, numer, power_of_two, product, quotient,
    round_ratio, rounded, rounded_is_near, single, single_of, single_rank, whole, whole_up_to,
    Binary, Single, DOUBLE, SINGLE,
};
use crate::text::{push_all, string_of};
use crate::units::lemma_precisions;

verus! {

/// A number in single precision.
pub open spec fn to_single(v: (nat, int)) -> (nat, int) {
    let (m, e) = rounded(v.0, 1, SINGLE as nat);
    (m, e + v.1)
}

/// What a number leaves of a hundred, in single precision.
pub open spec fn left_of_hundred(v: (nat, int)) -> (nat, int) {
    if v.0 == 0 {
        rounded(100, 1, SINGLE as nat)
    } else {
        rounded((100 * denom(v) - numer(v)) as nat, denom(v), SINGLE as nat)
    }
}

/// A share in double precision of the exponents that shares have, at most a
/// hundred.
pub open spec fn is_share(v: (nat, int)) -> bool {
    normal(v, DOUBLE as nat) && at_most(v, hundred(52)) && -117 <= v.1 <= 73
}

/// A number that a single precision pattern can stand for: zero, or one with a
/// mantissa of 24 binary digits and an exponent that the pattern has room for.
pub open spec fn is_single(v: (nat, int)) -> bool {
    v.0 == 0 || (SINGLE <= v.0 < 2 * SINGLE && -149 <= v.1 <= 104)
}

/// The busy share in percent that goes with an idle share.
pub open spec fn busy(idle: (nat, int)) -> (nat, int) {
    left_of_hundred(to_single(idle))
}

proof fn lemma_single_share(v: (nat, int))
    requires
        is_share(v),
        v.0 > 0,
    ensures
        SINGLE <= to_single(v).0 < 2 * SINGLE,
        at_most(to_single(v), hundred(23)),
        -88 <= to_single(v).1 <= -17,
{
    lemma_precisions();
    vstd::arithmetic::power2::lemma2_to64();
    vstd::arithmetic::power2::lemma2_to64_rest();
    let half = SINGLE as nat;
    rounded_is_near(v.0, 1, half);
    assert(1 * half * pow2(29) == DOUBLE) by (nonlinear_arith)
        requires
            half == 0x80_0000,
            pow2(29) == 0x2000_0000,
            DOUBLE == 0x10_0000_0000_0000,
    ;
    lemma_exponent_at_least(v.0, 1, half, 29);
    let m = 25 * pow2(19);
    if v.1 == 6 - 52 {
        assert(v.0 * pow2(0) <= m * pow2(29) * 1);
        lemma_at_most(v.0, 1, half, m, 29, 0);
    } else {
        assert(v.0 * pow2(0) <= m * pow2(30) * 1);
        lemma_at_most(v.0, 1, half, m, 30, 0);
    }
}

/// The busy share in percent that goes with an idle share in percent.
pub fn busy_of(idle: Binary) -> (r: Binary)
    requires
        is_share(idle@),
    ensures
        r@ == busy(idle@),
        is_single(r@),
{
    let half = SINGLE;
    let s = round_ratio(idle.mant as u128, 1, half);
    proof {
        if idle.mant > 0 {
            lemma_single_share(idle@);
        }
        lemma_precisions();
        lemma_whole_exponents(100, 23);
    }
    if s.mant == 0 {
        proof {
            if idle.mant > 0 {
                rounded_is_near(idle.mant as nat, 1, half as nat);
            }
        }
        round_ratio(100, 1, half)
    } else {
        assert(idle.mant > 0);
        let k: u32 = (-(s.exp + idle.exp)) as u32;
        let d = power_of_two(k);
        proof {
            vstd::arithmetic::power2::lemma2_to64();
            vstd::arithmetic::power2::lemma2_to64_rest();
            lemma_precisions();
            lemma_pow2_adds(48, 40);
            if k < 88 {
                lemma_pow2_strictly_increases(k as nat, 88);
            }
            assert(pow2(88) == 0x100_0000_0000_0000_0000_0000);
            if k > 18 {
                lemma_pow2_strictly_increases(18, k as nat);
            }
            assert(s.mant <= 100 * pow2(k as nat));
            if 100 * pow2(k as nat) > s.mant {
                let n = (100 * pow2(k as nat) - s.mant) as nat;
                let d = pow2(k as nat);
                lemma_pow2_pos(k as nat);
                rounded_is_near(n, d, half as nat);
                lemma_pow2_adds(k as nat, 23);
                lemma_pow2_pos((k + 23) as nat);
                assert(n * pow2((k + 23) as nat) >= d * half as nat) by (nonlinear_arith)
                    requires
                        n >= 1,
                        pow2((k + 23) as nat) == d * half as nat,
                        pow2((k + 23) as nat) > 0,
                ;
                lemma_exponent_from(n, d, half as nat, (k + 23) as nat);
                assert(n < d * (2 * half as nat)) by (nonlinear_arith)
                    requires
                        n <= 100 * d,
                        half == 0x80_0000,
                        d > 0,
                ;
            }
        }
        let r = round_ratio(100 * d - s.mant as u128, d, half);
        r
    }
}

/// The sum of loads in single precision, in which each addition rounds.
pub open spec fn single_sum(loads: Seq<u8>) -> nat
    decreases loads.len(),
{
    if loads.len() == 0 {
        0
    } else {
        whole(rounded(single_sum(loads.drop_last()) + loads.last() as nat, 1, SINGLE as nat))
    }
}

/// The mean of loads in single precision.
pub open spec fn mean(loads: Seq<u8>) -> (nat, int) {
    let half = SINGLE as nat;
    quotient(rounded(single_sum(loads), 1, half), rounded(loads.len(), 1, half), half)
}

proof fn lemma_sum_stays(n: nat)
    requires
        n <= 0x2_0000_0000 + 255,
    ensures
        whole(rounded(n, 1, SINGLE as nat)) <= 0x2_0000_0000,
{
    let half = SINGLE as nat;
    let top: nat = 0x2_0000_00ff;
    vstd::arithmetic::power2::lemma2_to64();
    if n > 0 {
        assert(rounded(top, 1, half) == (half, 10int)) by {
            reveal_with_fuel(rounded, 12);
        }
        rounding_keeps_order(n, 1, top, 1, half);
        rounded_is_near(n, 1, half);
        let (m, e) = rounded(n, 1, half);
        if e > 0 {
            if e < 10 {
                if e < 9 {
                    lemma_pow2_strictly_increases(e as nat, 9);
                }
                assert(m * pow2(e as nat) <= m * 512) by (nonlinear_arith)
                    requires
                        pow2(e as nat) <= 512,
                ;
            } else {
                assert(m * pow2(e as nat) == m * 1024);
            }
            assert(numer((m, e)) / 1 == numer((m, e)));
        } else {
            crate::rounding::lemma_whole_at_most(m, e);
        }
    }
}

/// The mean of the loads of several cores.
pub fn mean_of(loads: &Vec<u8>) -> (r: Binary)
    requires
        loads@.len() > 0,
    ensures
        r@ == mean(loads@),
        is_single(r@),
{
    let mut sum: u64 = 0;
    let mut i: usize = 0;
    assert(loads@.take(0) =~= Seq::empty());
    while i < loads.len()
        invariant
            i <= loads@.len(),
            sum == single_sum(loads@.take(i as int)),
            sum <= 0x2_0000_0000,
        decreases loads.len() - i,
    {
        assert(loads@.take(i + 1).drop_last() == loads@.take(i as int));
        proof {
            lemma_sum_stays((sum + loads@[i as int]) as nat);
        }
        let b = binary_of(sum + loads[i] as u64, SINGLE);
        sum = whole_up_to(b, u64::MAX);
        i += 1;
    }
    assert(loads@.take(i as int) == loads@);
    let a = binary_of(sum, SINGLE);
    let b = binary_of(loads.len() as u64, SINGLE);
    proof {
        lemma_precisions();
        lemma_whole_exponents(loads@.len(), 23);
        if sum > 0 {
            lemma_whole_exponents(sum as nat, 23);
            lemma_quotient_exponents(a.mant as nat, b.mant as nat, 23);
        }
    }
    divide(a, b, SINGLE)
}

/// The number of filled cells of a bar, at most the largest number there is.
pub fn cells_of(v: Binary, width: u16) -> (r: u64)
    requires
        -1000 <= v.exp <= 1000,
    ensures
        r == if cells(v@, width as nat, SINGLE as nat) <= u64::MAX {
            cells(v@, width as nat, SINGLE as nat)
        } else {
            u64::MAX as nat
        },
{
    let q = divide(v, Binary { mant: 100, exp: 0 }, SINGLE);
    let p = multiply(q, Binary { mant: width as u64, exp: 0 }, SINGLE);
    whole_up_to(p, u64::MAX)
}

/// The number of filled cells of a bar that shows the single precision number
/// with the given pattern. What is negative or no number fills none; nothing
/// holds the cells that an infinite number fills.
pub open spec fn single_cells(bits: u32, width: nat) -> Option<nat> {
    match single(bits) {
        Single::NotANumber => Some(0),
        Single::Infinite { negative } => if negative {
            Some(0)
        } else {
            None
        },
        Single::Finite { negative, magnitude } => if negative {
            Some(0)
        } else {
            Some(cells(magnitude@, width, SINGLE as nat))
        },
    }
}

/// Whether the bar of the given width has room for the number.
pub open spec fn bar_fits(bits: u32, width: nat) -> bool {
    single_cells(bits, width) matches Some(n) && n <= width
}

/// The number of filled cells of a bar, if the bar has room for them.
pub fn filled_cells(bits: u32, width: u16) -> (r: Option<u16>)
    ensures
        match r {
            Some(n) => bar_fits(bits, width as nat) && single_cells(bits, width as nat) == Some(
                n as nat,
            ),
            None => !bar_fits(bits, width as nat),
        },
{
    match single_of(bits) {
        Single::NotANumber => Some(0),
        Single::Infinite { negative } => if negative {
            Some(0)
        } else {
            None
        },
        Single::Finite { negative, magnitude } => if negative {
            Some(0)
        } else {
            let n = cells_of(magnitude, width);
            if n <= width as u64 {
                Some(n as u16)
            } else {
                None
            }
        },
    }
}

/// A bar of `width` cells of which the first `filled` are filled.
pub open spec fn bar(filled: nat, width: nat) -> Seq<char> {
    repeated('█', filled) + repeated('░', (width - filled) as nat)
}

/// A bar of `width` cells.
pub fn bar_of(filled: u16, width: u16) -> (out: Vec<char>)
    requires
        filled <= width,
    ensures
        out@ == bar(filled as nat, width as nat),
{
    let mut out = repeat('█', filled as usize);
    let rest = repeat('░', (width - filled) as usize);
    push_all(&mut out, rest.as_slice());
    out
}

/// A bar has its width, whatever it shows.
pub proof fn bars_keep_their_width(filled: nat, width: nat)
    requires
        filled <= width,
    ensures
        bar(filled, width).len() == width,
        forall|i: int| 0 <= i < filled ==> bar(filled, width)[i] == '█',
        forall|i: int| filled <= i < width ==> bar(filled, width)[i] == '░',
{
}

/// The whole number nearest to a number, of two equally near ones the larger.
pub open spec fn round_up(v: (nat, int)) -> nat {
    (2 * numer(v) + denom(v)) / (2 * denom(v))
}

/// The height, from zero to seven, at which a history shows a value: its part
/// of the greatest value, which counts as the whole from there on, in sevenths.
pub open spec fn height(v: (nat, int), max: (nat, int)) -> nat {
    let half = SINGLE as nat;
    if max.0 == 0 {
        0
    } else if whole(quotient(v, max, half)) >= 1 {
        7
    } else {
        let h = round_up(product(quotient(v, max, half), (7, 0), half));
        if h <= 7 {
            h
        } else {
            7
        }
    }
}

/// The blocks of the heights from zero to seven.
pub open spec fn block(height: nat) -> char {
    if height == 0 {
        '▁'
    } else if height == 1 {
        '▂'
    } else if height == 2 {
        '▃'
    } else if height == 3 {
        '▄'
    } else if height == 4 {
        '▅'
    } else if height == 5 {
        '▆'
    } else if height == 6 {
        '▇'
    } else {
        '█'
    }
}

/// Of values in order, compared as fractions with the denominator `2^k`, the
/// larger one is shown no lower.
proof fn lemma_height_order(v: (nat, int), w: (nat, int), max: (nat, int), k: nat)
    requires
        v.1 + k >= 0,
        w.1 + k >= 0,
        v.0 * pow2((v.1 + k) as nat) <= w.0 * pow2((w.1 + k) as nat),
    ensures
        height(v, max) <= height(w, max),
{
    let half = SINGLE as nat;
    if max.0 > 0 {
        let a = quotient(v, max, half);
        let b = quotient(w, max, half);
        lemma_quotients_over(v, w, max, k, half);
        whole_parts_keep_order(a, b, half);
        products_keep_order(a, b, 7, half);
        lemma_round_up_order(product(a, (7, 0), half), product(b, (7, 0), half), half);
    }
}

/// The height at which a history shows the single precision number with the
/// given pattern, where the pattern `max` stands for the greatest value. What is
/// negative or no number is shown lowest, and an infinite value highest. All is
/// shown lowest where the greatest value is not a positive finite number.
pub open spec fn level(value: u32, max: u32) -> nat {
    match single(max) {
        Single::Finite { negative: false, magnitude: top } => match single(value) {
            Single::Finite { negative: false, magnitude } => height(magnitude@, top@),
            Single::Infinite { negative: false } => if top.mant > 0 {
                7
            } else {
                0
            },
            _ => 0,
        },
        _ => 0,
    }
}

/// A history as a line of blocks, one for each value.
pub open spec fn sparkline(data: Seq<u32>, max: u32) -> Seq<char> {
    Seq::new(data.len(), |i: int| block(level(data[i], max)))
}

proof fn lemma_round_up_over(v: (nat, int), k: nat)
    requires
        v.1 + k >= 0,
    ensures
        round_up(v) == (2 * (v.0 * pow2((v.1 + k) as nat)) + pow2(k)) / (2 * pow2(k)),
{
    lemma_over(v, k);
    let n = numer(v);
    let d = denom(v);
    let m = v.0 * pow2((v.1 + k) as nat);
    let e = pow2(k);
    assert((2 * n + d) * (2 * e) == (2 * m + e) * (2 * d)) by (nonlinear_arith)
        requires
            n * e == m * d,
    ;
    lemma_same_quotient(2 * n + d, 2 * d, 2 * m + e, 2 * e);
}

proof fn lemma_round_up_order(v: (nat, int), w: (nat, int), half: nat)
    requires
        normal(v, half),
        normal(w, half),
        at_most(v, w),
    ensures
        round_up(v) <= round_up(w),
{
    let k = (if v.1 < 0 {
        -v.1
    } else {
        0
    } + if w.1 < 0 {
        -w.1
    } else {
        0
    }) as nat;
    lemma_order_over(v, w, k, half);
    lemma_round_up_over(v, k);
    lemma_round_up_over(w, k);
    lemma_pow2_pos(k);
    vstd::arithmetic::div_mod::lemma_div_is_ordered(
        (2 * (v.0 * pow2((v.1 + k) as nat)) + pow2(k)) as int,
        (2 * (w.0 * pow2((w.1 + k) as nat)) + pow2(k)) as int,
        (2 * pow2(k)) as int,
    );
}

/// A sparkline has one of the eight blocks for each value. Of two values that
/// are numbers the larger one is shown no lower. A value that reaches a positive
/// finite greatest value has the full block, and where the greatest value is not
/// positive all have the lowest.
pub proof fn sparklines_follow_values(data: Seq<u32>, max: u32, i: int, j: int)
    requires
        0 <= i < data.len(),
        0 <= j < data.len(),
    ensures
        sparkline(data, max).len() == data.len(),
        '▁' <= sparkline(data, max)[i] <= '█',
        (single_rank(data[i]) matches Some(a) && (single_rank(data[j]) matches Some(b) && a <= b))
            ==> sparkline(data, max)[i] <= sparkline(data, max)[j],
        (single_rank(data[i]) matches Some(a) && (single_rank(max) matches Some(m) && 0 < m
            < 0x7f80_0000 && a >= m)) ==> sparkline(data, max)[i] == '█',
        (single_rank(max) matches Some(m) ==> m <= 0) ==> sparkline(data, max)[i] == '▁',
{
    let x = data[i];
    let y = data[j];
    lemma_level_order(x, y, max);
    if single_rank(x) is Some && single_rank(max) is Some && 0 < single_rank(max)->0 < 0x7f80_0000
        && single_rank(x)->0 >= single_rank(max)->0 {
        lemma_level_full(x, max);
    }
    if single_rank(max) matches Some(m) ==> m <= 0 {
        assert(level(x, max) == 0) by {
            if max == 0 {
                assert(single(max) == (Single::Finite {
                    negative: false,
                    magnitude: Binary { mant: 0, exp: (-149) as i32 },
                }));
            }
        }
    }
}

proof fn lemma_zero_height(max: (nat, int))
    ensures
        height((0, -149), max) == 0,
{
    let half = SINGLE as nat;
    let q = quotient((0, -149), max, half);
    let p = product(q, (7, 0), half);
    lemma_pow2_pos((-q.1) as nat);
    lemma_pow2_pos((-p.1) as nat);
    let c = denom(q);
    let d = denom(p);
    assert(numer(q) == 0 && numer(p) == 0) by (nonlinear_arith)
        requires
            q.0 == 0,
            p.0 == 0,
            numer(q) == if q.1 > 0 {
                q.0 * pow2(q.1 as nat)
            } else {
                q.0
            },
            numer(p) == if p.1 > 0 {
                p.0 * pow2(p.1 as nat)
            } else {
                p.0
            },
    ;
    assert(0nat / c == 0 && d / (2 * d) == 0) by (nonlinear_arith)
        requires
            c > 0,
            d > 0,
    ;
}

proof fn lemma_level_order(x: u32, y: u32, max: u32)
    ensures
        level(x, max) <= 7,
        (single_rank(x) matches Some(a) && (single_rank(y) matches Some(b) && a <= b)) ==> level(
            x,
            max,
        ) <= level(y, max),
{
    if single_rank(x) is Some && single_rank(y) is Some && single_rank(x)->0 <= single_rank(y)->0 {
        if x < 0x8000_0000 && y < 0x7f80_0000 {
            lemma_pattern_order(x, y);
            let v = single(x)->magnitude;
            let w = single(y)->magnitude;
            match single(max) {
                Single::Finite { negative: false, magnitude: top } => {
                    lemma_height_order(v@, w@, top@, 149);
                },
                _ => {},
            }
        } else if x >= 0x8000_0000 {
            assert(level(x, max) == 0);
        } else if y == 0x8000_0000 {
            assert(x == 0);
            lemma_zero_height(single(max)->magnitude@);
        } else {
            assert(y == 0x7f80_0000);
        }
    }
}

proof fn lemma_level_full(x: u32, max: u32)
    requires
        0 < max < 0x7f80_0000,
        max <= x <= 0x7f80_0000,
    ensures
        level(x, max) == 7,
{
    let half = SINGLE as nat;
    let top = single(max)->magnitude;
    lemma_pattern_order(max, max);
    assert(top.mant > 0);
    if x < 0x7f80_0000 {
        lemma_pattern_order(max, x);
        let v = single(x)->magnitude;
        lemma_precisions();
        lemma_quotients_over(top@, v@, top@, 149, half);
        lemma_quotient_of_equals(top@, 23);
        whole_parts_keep_order(quotient(top@, top@, half), quotient(v@, top@, half), half);
    }
}

fn round_up_to_seven(b: Binary) -> (r: u64)
    requires
        b.mant <= 2 * SINGLE,
    ensures
        r == if round_up(b@) <= 7 {
            round_up(b@)
        } else {
            7
        },
{
    if b.exp >= 0 {
        assert(round_up(b@) == whole(b@)) by {
            let n = numer(b@);
            assert((2 * n + 1) / 2 == n);
            assert(n / 1 == n);
        }
        whole_up_to(b, 7)
    } else {
        let k: i64 = -(b.exp as i64);
        proof {
            lemma_pow2_pos(k as nat);
            vstd::arithmetic::power2::lemma2_to64();
        }
        if k >= 60 {
            proof {
                let d = pow2(k as nat);
                if k > 30 {
                    lemma_pow2_strictly_increases(30, k as nat);
                }
                vstd::arithmetic::div_mod::lemma_basic_div((2 * b.mant + d) as int, (2 * d) as int);
            }
            0
        } else {
            let d = power_of_two(k as u32);
            proof {
                vstd::arithmetic::power2::lemma2_to64_rest();
                lemma_pow2_strictly_increases(k as nat, 60);
            }
            let q: u128 = (2 * b.mant as u128 + d) / (2 * d);
            if q <= 7 {
                q as u64
            } else {
                7
            }
        }
    }
}

/// The height at which a history shows a value.
pub fn height_of(v: Binary, max: Binary) -> (r: u64)
    requires
        -1000 <= v.exp <= 1000,
        -1000 <= max.exp <= 1000,
    ensures
        r == height(v@, max@),
        r <= 7,
{
    if max.mant == 0 {
        return 0;
    }
    let q = divide(v, max, SINGLE);
    if whole_up_to(q, 1) >= 1 {
        7
    } else {
        round_up_to_seven(multiply(q, Binary { mant: 7, exp: 0 }, SINGLE))
    }
}

/// The height at which a history shows a value.
pub fn level_of(value: u32, max: u32) -> (r: u64)
    ensures
        r == level(value, max),
        r <= 7,
{
    match single_of(max) {
        Single::Finite { negative: false, magnitude: top } => match single_of(value) {
            Single::Finite { negative: false, magnitude } => height_of(magnitude, top),
            Single::Infinite { negative: false } => if top.mant > 0 {
                7
            } else {
                0
            },
            _ => 0,
        },
        _ => 0,
    }
}

/// A history as a line of blocks. The values and the greatest one are single
/// precision numbers, as 32-bit patterns.
pub fn render_sparkline(data: &VecDeque<u32>, max_value: u32) -> (out: String)
    ensures
        out@ == sparkline(data@, max_value),
{
    let mut out: Vec<char> = Vec::new();
    let mut i: usize = 0;
    while i < data.len()
        invariant
            i <= data@.len(),
            out@ =~= sparkline(data@, max_value).take(i as int),
        decreases data.len() - i,
    {
        let h = level_of(data[i], max_value);
        let c = if h == 0 {
            '▁'
        } else if h == 1 {
            '▂'
        } else if h == 2 {
            '▃'
        } else if h == 3 {
            '▄'
        } else if h == 4 {
            '▅'
        } else if h == 5 {
            '▆'
        } else if h == 6 {
            '▇'
        } else {
            '█'
        };
        out.push(c);
        i += 1;
    }
    assert(out@ =~= sparkline(data@, max_value));
    string_of(out.as_slice())
}

/// The busy share is what the idle share leaves of a hundred: both are off by at
/// most one part in `2^24`, the idle share when it is taken in single precision and
/// what is left of a hundred when that is rounded.
pub proof fn busy_and_idle_make_a_hundred(idle: (nat, int), k: nat)
    requires
        is_share(idle),
        k >= 200,
    ensures
        near(in_units(to_single(idle), k), in_units(idle, k), 1, 0x100_0000),
        near(
            in_units(busy(idle), k),
            (100 * pow2(k) - in_units(to_single(idle), k)) as int,
            1,
            0x100_0000,
        ),
{
    let half = SINGLE as nat;
    lemma_precisions();
    lemma_pow2_pos(k);
    let s = to_single(idle);
    if idle.0 == 0 {
        let p = pow2((s.1 + k) as nat);
        assert(0 * p == 0) by (nonlinear_arith);
        assert(in_units(s, k) == 0);
        let q = pow2((idle.1 + k) as nat);
        assert(0 * q == 0) by (nonlinear_arith);
        assert(near(0, 0, 1, 0x100_0000));
        lemma_whole_exponents(100, 23);
        lemma_rounded_near(100, 1, half, k);
        assert(s.0 == 0);
    } else {
        lemma_single_share(idle);
        let t = (idle.1 + k) as nat;
        lemma_rounded_near(idle.0, 1, half, t);
        let d = denom(s);
        let n = (100 * d - numer(s)) as nat;
        let j = (-s.1) as nat;
        assert(d == pow2(j) && numer(s) == s.0);
        vstd::arithmetic::power2::lemma2_to64();
        lemma_pow2_pos(j);
        assert(s.0 <= 100 * d) by {
            lemma_hundred_over(s);
        }
        let b = rounded(n, d, half);
        if n > 0 {
            lemma_pow2_adds(j, 23);
            assert(n * pow2(j + 23) >= d * half) by (nonlinear_arith)
                requires
                    n >= 1,
                    pow2(j + 23) == d * half,
            ;
            rounded_is_near(n, d, half);
            lemma_exponent_from(n, d, half, j + 23);
        }
        lemma_rounded_near(n, d, half, k);
        lemma_pow2_adds((k - j) as nat, j);
        let c = pow2((k - j) as nat) as int;
        let x = in_units(b, k);
        let y = 100 * pow2(k) - in_units(s, k);
        assert(y * d == n * pow2(k)) by (nonlinear_arith)
            requires
                y == 100 * (c * d) - s.0 * c,
                n == 100 * d - s.0,
                pow2(k) == c * d,
        ;
        lemma_near_unscaled(x, y, 1, 0x100_0000, d as int);
    }
}

proof fn lemma_hundred_over(s: (nat, int))
    requires
        at_most(s, hundred(23)),
        s.0 < 2 * SINGLE,
        -88 <= s.1 <= -17,
    ensures
        s.0 <= 100 * pow2((-s.1) as nat),
{
    vstd::arithmetic::power2::lemma2_to64();
    let j = (-s.1) as nat;
    if j > 18 {
        lemma_pow2_strictly_increases(18, j);
    }
}

/// The sum of loads.
pub open spec fn load_sum(loads: Seq<u8>) -> nat
    decreases loads.len(),
{
    if loads.len() == 0 {
        0
    } else {
        load_sum(loads.drop_last()) + loads.last() as nat
    }
}

proof fn lemma_exact_sum(loads: Seq<u8>)
    requires
        loads.len() <= 0x1_0000,
    ensures
        single_sum(loads) == load_sum(loads),
        load_sum(loads) <= 255 * loads.len(),
    decreases loads.len(),
{
    if loads.len() > 0 {
        lemma_exact_sum(loads.drop_last());
        let n = load_sum(loads);
        let e = rounded(n, 1, SINGLE as nat).1;
        small_numbers_are_exact(
            n,
            SINGLE as nat,
            (if e < 0 {
                -e
            } else {
                0
            }) as nat,
        );
    }
}

/// The mean of loads times their number is their sum, but for at most eight parts
/// in `2^24`.
pub proof fn the_mean_is_the_sum_by_the_number(loads: Seq<u8>, k: nat)
    requires
        0 < loads.len() <= 0x1_0000,
        k >= 200,
    ensures
        near(
            in_units(mean(loads), k) * loads.len(),
            (load_sum(loads) * pow2(k)) as int,
            8,
            0x100_0000,
        ),
{
    lemma_exact_sum(loads);
    let n = load_sum(loads);
    let d = loads.len();
    lemma_precisions();
    lemma_whole_exponents(d, 23);
    if n > 0 {
        lemma_whole_exponents(n, 23);
        lemma_quotient_exponents(
            rounded(n, 1, SINGLE as nat).0,
            rounded(d, 1, SINGLE as nat).0,
            23,
        );
    }
    a_ratio_is_of_its_parts(n, d, SINGLE as nat, k);
}

/// What is negative or no number fills no cell of a bar, and nothing holds what is
/// infinite; the cells of another number are as many of the width as the number is
/// of a hundred, a fraction cut off, but for at most three parts in `2^24`.
pub proof fn bars_show_the_share(bits: u32, width: nat, k: nat)
    requires
        k >= 149,
    ensures
        match single(bits) {
            Single::NotANumber => single_cells(bits, width) == Some(0nat),
            Single::Infinite { negative } => single_cells(bits, width) == if negative {
                Some(0nat)
            } else {
                None
            },
            Single::Finite { negative, magnitude } => single_cells(bits, width) matches Some(n)
                && if negative {
                n == 0
            } else {
                let h: int = 0x100_0000;
                n * (100 * pow2(k)) * (h - 3) <= (in_units(magnitude@, k) * width) * h < (n + 1) * (
                100 * pow2(k)) * (h + 3)
            },
        },
{
    match single(bits) {
        Single::Finite { negative, magnitude } => {
            a_bar_is_filled_by_the_share(magnitude@, width, SINGLE as nat, k);
        },
        _ => {},
    }
}

/// The height at which a value below the greatest one is shown is the nearest whole
/// number to the part that the value is of it, in sevenths: `h` of seven, off by at most
/// half of one, but for at most three parts in `2^24`.
pub proof fn heights_are_the_nearest_sevenths(v: (nat, int), max: (nat, int), k: nat, j: nat)
    requires
        max.0 > 0,
        v.1 + k + j >= 0,
        max.1 + j >= 0,
        whole(quotient(v, max, SINGLE as nat)) < 1,
        height(v, max) < 7,
    ensures
        ({
            let h: int = 0x100_0000;
            let n = height(v, max) as int;
            let m = in_units(max, j) * pow2(k);
            (2 * n - 1) * m * (h - 3) <= 14 * in_units(v, k + j) * h < (2 * n + 1) * m * (h + 3)
        }),
{
    let half = SINGLE as nat;
    let h: int = 0x100_0000;
    let q = quotient(v, max, half);
    let p = product(q, (7, 0), half);
    let i = size(q.1) + size(p.1);
    let t = k + i;
    lemma_quotient_near(v, max, half, t, j);
    lemma_product_near(q, 7, half, t);
    assert(t + j == (k + j) + i);
    lemma_more_units(v, k + j, i);
    lemma_more_units(v, t + j, 0);
    lemma_more_units(q, t, 0);
    lemma_more_units(p, t, 0);
    lemma_more_units(max, j, 0);
    let sv = in_units(v, t + j);
    let sq = in_units(q, t);
    let sp = in_units(p, t);
    let sm = in_units(max, j);
    lemma_near_scaled(sp, sq * 7, 1, h, sm);
    lemma_near_scaled(sq * sm, sv, 1, h, 7);
    assert((sq * 7) * sm == (sq * sm) * 7) by (nonlinear_arith);
    assert(sp * sm >= 0 && (sq * sm) * 7 >= 0) by (nonlinear_arith)
        requires
            sq >= 0,
            sp >= 0,
            sm >= 0,
    ;
    lemma_near_twice(sp * sm, (sq * sm) * 7, sv * 7, 1, 1, h);
    let n = height(v, max) as int;
    lemma_round_up_units(p, t);
    lemma_pow2_pos(k);
    lemma_pow2_pos(i);
    lemma_pow2_adds(k, i);
    lemma_pow2_pos((max.1 + j) as nat);
    assert(sm > 0) by (nonlinear_arith)
        requires
            sm == max.0 * pow2((max.1 + j) as nat),
            max.0 > 0,
            pow2((max.1 + j) as nat) > 0,
    ;
    lemma_between_sevenths(
        n,
        sp,
        sm,
        sv,
        in_units(v, k + j),
        pow2(k) as int,
        pow2(i) as int,
        h,
    );
}

proof fn lemma_round_up_units(p: (nat, int), t: nat)
    requires
        p.1 + t >= 0,
    ensures
        (2 * round_up(p) - 1) * pow2(t) <= 2 * in_units(p, t) < (2 * round_up(p) + 1) * pow2(t),
{
    lemma_round_up_over(p, t);
    lemma_pow2_pos(t);
    let x = in_units(p, t);
    let c = pow2(t) as int;
    let r = round_up(p) as int;
    let a = 2 * x + c;
    let d = 2 * c;
    assert(r == a / d);
    assert(r * d <= a < (r + 1) * d) by (nonlinear_arith)
        requires
            r == a / d,
            d > 0,
    ;
    assert((2 * r - 1) * c == r * (2 * c) - c && (2 * r + 1) * c == (r + 1) * (2 * c) - c)
        by (nonlinear_arith);
}

proof fn lemma_product_regrouped(l: int, a: int, c: int, m: int, g: int)
    ensures
        ((l * (a * c)) * m) * g == (l * (m * a) * g) * c,
{
    assert(l * (a * c) == (l * a) * c) by (nonlinear_arith);
    assert(l * (m * a) == (l * a) * m) by (nonlinear_arith);
    let b = l * a;
    assert((b * c) * m == (b * m) * c) by (nonlinear_arith);
    let d = b * m;
    assert((d * c) * g == (d * g) * c) by (nonlinear_arith);
}

proof fn lemma_between_sevenths(
    n: int,
    sp: int,
    sm: int,
    sv: int,
    x: int,
    a: int,
    c: int,
    h: int,
)
    requires
        (2 * n - 1) * (a * c) <= 2 * sp < (2 * n + 1) * (a * c),
        near(sp * sm, sv * 7, 3, h),
        sv == x * c,
        sm > 0,
        a > 0,
        c > 0,
        h > 3,
    ensures
        (2 * n - 1) * (sm * a) * (h - 3) <= 14 * x * h < (2 * n + 1) * (sm * a) * (h + 3),
{
    let l = 2 * n - 1;
    let u = 2 * n + 1;
    let y = 2 * sp;
    assert((l * (a * c)) * sm <= y * sm && y * sm < (u * (a * c)) * sm) by (nonlinear_arith)
        requires
            l * (a * c) <= y < u * (a * c),
            sm > 0,
    ;
    let lo = (l * (a * c)) * sm;
    let hi = (u * (a * c)) * sm;
    let m = y * sm;
    let g = h - 3;
    let f = h + 3;
    assert(lo * g <= m * g && m * f < hi * f) by (nonlinear_arith)
        requires
            lo <= m < hi,
            g > 0,
            f > 0,
    ;
    assert(m == 2 * (sp * sm)) by (nonlinear_arith)
        requires
            m == (2 * sp) * sm,
    ;
    let w = sp * sm;
    assert(m * g == 2 * (w * g) && m * f == 2 * (w * f)) by (nonlinear_arith)
        requires
            m == 2 * w,
    ;
    let e = l * (sm * a) * g;
    let d = u * (sm * a) * f;
    let b = 14 * x * h;
    lemma_product_regrouped(l, a, c, sm, g);
    lemma_product_regrouped(u, a, c, sm, f);
    assert(2 * ((sv * 7) * h) == b * c) by (nonlinear_arith)
        requires
            sv == x * c,
            b == 14 * x * h,
    ;
    assert(e <= b < d) by (nonlinear_arith)
        requires
            e * c <= b * c < d * c,
            c > 0,
    ;
}

/// A height is at most seven, and is seven only where the value is at least thirteen
/// fourteenths of the greatest one, but for at most three parts in `2^24`. A value that
/// is at least the greatest one has the height seven.
pub proof fn full_heights_are_reached_by_great_values(
    v: (nat, int),
    max: (nat, int),
    k: nat,
    j: nat,
)
    requires
        max.0 > 0,
        v.1 + k + j >= 0,
        max.1 + j >= 0,
    ensures
        height(v, max) <= 7,
        whole(quotient(v, max, SINGLE as nat)) >= 1 ==> height(v, max) == 7,
        height(v, (0, max.1)) == 0,
        height(v, max) == 7 ==> ({
            let h: int = 0x100_0000;
            let m = in_units(max, j) * pow2(k);
            13 * m * (h - 3) <= 14 * in_units(v, k + j) * h
        }),
{
    let half = SINGLE as nat;
    let h: int = 0x100_0000;
    let q = quotient(v, max, half);
    let p = product(q, (7, 0), half);
    let i = size(q.1) + size(p.1);
    let t = k + i;
    lemma_quotient_near(v, max, half, t, j);
    assert(t + j == (k + j) + i);
    lemma_more_units(v, k + j, i);
    lemma_more_units(v, t + j, 0);
    lemma_more_units(q, t, 0);
    lemma_more_units(p, t, 0);
    lemma_more_units(max, j, 0);
    let sv = in_units(v, t + j);
    let sq = in_units(q, t);
    let sp = in_units(p, t);
    let sm = in_units(max, j);
    lemma_pow2_pos(k);
    lemma_pow2_pos(i);
    lemma_pow2_pos(t);
    lemma_pow2_adds(k, i);
    lemma_pow2_pos((max.1 + j) as nat);
    assert(sm > 0) by (nonlinear_arith)
        requires
            sm == max.0 * pow2((max.1 + j) as nat),
            max.0 > 0,
            pow2((max.1 + j) as nat) > 0,
    ;
    let x = in_units(v, k + j);
    let m = sm * pow2(k);
    if whole(q) >= 1 {
        the_whole_part_is_cut_off(q, t);
        lemma_whole_quotient(whole(q) as int, sq, sm, sv, x, pow2(k) as int, pow2(i) as int, h);
    } else if height(v, max) == 7 {
        lemma_product_near(q, 7, half, t);
        lemma_near_scaled(sp, sq * 7, 1, h, sm);
        lemma_near_scaled(sq * sm, sv, 1, h, 7);
        assert((sq * 7) * sm == (sq * sm) * 7) by (nonlinear_arith);
        assert(sp * sm >= 0 && (sq * sm) * 7 >= 0) by (nonlinear_arith)
            requires
                sq >= 0,
                sp >= 0,
                sm >= 0,
        ;
        lemma_near_twice(sp * sm, (sq * sm) * 7, sv * 7, 1, 1, h);
        let r = round_up(p) as int;
        lemma_round_up_units(p, t);
        lemma_between_sevenths(r, sp, sm, sv, x, pow2(k) as int, pow2(i) as int, h);
        let w = 2 * r - 1;
        let g = h - 3;
        let a = pow2(k) as int;
        assert(13 * m * g <= w * m * g) by (nonlinear_arith)
            requires
                w >= 13,
                m == sm * a,
                sm > 0,
                a > 0,
                g > 0,
        ;
    }
}

proof fn lemma_whole_quotient(
    n: int,
    sq: int,
    sm: int,
    sv: int,
    x: int,
    a: int,
    c: int,
    h: int,
)
    requires
        n >= 1,
        n * (a * c) <= sq,
        near(sq * sm, sv, 1, h),
        sv == x * c,
        sm > 0,
        a > 0,
        c > 0,
        h > 3,
    ensures
        13 * (sm * a) * (h - 3) <= 14 * x * h,
{
    let p = a * c;
    let g = h - 1;
    assert(p > 0) by (nonlinear_arith)
        requires
            p == a * c,
            a > 0,
            c > 0,
    ;
    assert(p <= n * p) by (nonlinear_arith)
        requires
            n >= 1,
            p > 0,
    ;
    assert(p * sm <= sq * sm) by (nonlinear_arith)
        requires
            p <= sq,
            sm > 0,
    ;
    let l = p * sm;
    let u = sq * sm;
    assert(l * g <= u * g) by (nonlinear_arith)
        requires
            l <= u,
            g > 0,
    ;
    let m = sm * a;
    let y = x * h;
    assert(l * g == (m * g) * c) by {
        assert((a * c) * sm == (sm * a) * c) by (nonlinear_arith);
        assert((m * c) * g == (m * g) * c) by (nonlinear_arith);
    }
    assert(sv * h == y * c) by (nonlinear_arith)
        requires
            sv == x * c,
            y == x * h,
    ;
    let e = m * g;
    assert(e <= y) by (nonlinear_arith)
        requires
            e * c <= y * c,
            c > 0,
    ;
    assert(m > 0) by (nonlinear_arith)
        requires
            m == sm * a,
            sm > 0,
            a > 0,
    ;
    assert(13 * m * (h - 3) <= 14 * e) by (nonlinear_arith)
        requires
            e == m * (h - 1),
            m > 0,
            h > 3,
    ;
    assert(14 * x * h == 14 * y) by (nonlinear_arith)
        requires
            y == x * h,
    ;
}

/// A height is rounded to the nearest whole number, and upwards from the middle.
pub proof fn heights_are_rounded_up_from_the_middle(v: (nat, int))
    ensures
        (2 * round_up(v) - 1) * denom(v) <= 2 * numer(v) < (2 * round_up(v) + 1) * denom(v),
{
    let d = denom(v) as int;
    let n = numer(v) as int;
    lemma_pow2_pos((-v.1) as nat);
    let r = round_up(v) as int;
    let a = 2 * n + d;
    assert(r * (2 * d) <= a < (r + 1) * (2 * d)) by (nonlinear_arith)
        requires
            r == a / (2 * d),
            d > 0,
    ;
    assert((2 * r - 1) * d == r * (2 * d) - d && (2 * r + 1) * d == (r + 1) * (2 * d) - d)
        by (nonlinear_arith);
}

/// The blocks of a sparkline grow by an eighth with each height, up to the full block.
pub proof fn blocks_grow_with_the_height(height: nat)
    ensures
        height <= 7 ==> block(height) as u32 == 0x2581 + height,
        height > 7 ==> block(height) == '█',
{
}

} // verus!
