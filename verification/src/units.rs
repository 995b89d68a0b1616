//! Amounts as people read them: bytes, large counts, percentages and times.

use vstd::arithmetic::power2::{lemma_pow2_pos, lemma_pow2_unfold, pow2};
use vstd::prelude::*;

use crate::bounds::{
    lemma_exponent_from, lemma_share_exponents, lemma_whole_exponents, normal,
    whole_percent_is_at_most_hundred,
};
use crate::nearness::{
    a_rate_is_the_amount_by_the_time, a_whole_share_is_cut_off, in_units, near,
};
use crate::number::{decimal, decimal_of, pad_left, padded_left};
use crate::rounding::{
    binary_of, divide, double, double_fixed, double_fixed_of, double_of, fixed, fixed_of, multiply,
    numer, product, quotient, rounded, rounded_is_near, whole, whole_up_to, Binary, Double, DOUBLE,
    SINGLE,
};
use crate::text::{push_all, push_str, string_of};

verus! {

/// A number of bytes divided by 1024 while it is at least 1024 and a larger
/// unit is left, and how often it was divided.
pub open spec fn scaled(v: (nat, int), unit: nat) -> ((nat, int), nat)
    decreases 4 - unit,
{
    if unit < 4 && whole(v) >= 1024 {
        scaled((v.0, v.1 - 10), unit + 1)
    } else {
        (v, unit)
    }
}

/// The units of bytes.
pub open spec fn byte_unit(unit: nat) -> Seq<char> {
    if unit == 0 {
        "B"@
    } else if unit == 1 {
        "KB"@
    } else if unit == 2 {
        "MB"@
    } else if unit == 3 {
        "GB"@
    } else {
        "TB"@
    }
}

/// A number of bytes with one decimal, in the unit that fits it.
pub open spec fn human(v: (nat, int)) -> Seq<char> {
    let (w, unit) = scaled(v, 0);
    fixed(w, 1) + " "@ + byte_unit(unit)
}

proof fn lemma_halved(m: nat, e: int)
    ensures
        whole((m, e - 1)) == whole((m, e)) / 2,
{
    if e > 0 {
        lemma_pow2_unfold(e as nat);
        let p = pow2((e - 1) as nat);
        assert(m * (2 * p) == 2 * (m * p)) by (nonlinear_arith);
        vstd::arithmetic::power2::lemma2_to64();
        assert(numer((m, e - 1)) == m * p) by {
            if e == 1 {
                assert(m * pow2(0) == m);
            }
        }
        assert((m * p) / 1 == m * p);
        assert((2 * (m * p)) / 1 == 2 * (m * p));
    } else {
        let k = (-e) as nat;
        lemma_pow2_unfold(k + 1);
        lemma_pow2_pos(k);
        vstd::arithmetic::power2::lemma2_to64();
        vstd::arithmetic::div_mod::lemma_div_denominator(m as int, pow2(k) as int, 2);
        assert(pow2(k) * 2 == pow2(k + 1));
    }
}

/// Less than 1024 of a unit is left unless it is the largest, and at least one
/// of any unit but the smallest.
pub proof fn the_unit_fits(v: (nat, int))
    ensures
        scaled(v, 0).1 < 4 ==> whole(scaled(v, 0).0) < 1024,
        scaled(v, 0).1 > 0 ==> whole(scaled(v, 0).0) >= 1,
{
    lemma_unit_fits(v, 0);
}

proof fn lemma_unit_fits(v: (nat, int), unit: nat)
    requires
        unit <= 4,
        unit > 0 ==> whole(v) >= 1,
    ensures
        scaled(v, unit).1 < 4 ==> whole(scaled(v, unit).0) < 1024,
        scaled(v, unit).1 > 0 ==> whole(scaled(v, unit).0) >= 1,
    decreases 4 - unit,
{
    if unit < 4 && whole(v) >= 1024 {
        lemma_halved(v.0, v.1);
        lemma_halved(v.0, v.1 - 1);
        lemma_halved(v.0, v.1 - 2);
        lemma_halved(v.0, v.1 - 3);
        lemma_halved(v.0, v.1 - 4);
        lemma_halved(v.0, v.1 - 5);
        lemma_halved(v.0, v.1 - 6);
        lemma_halved(v.0, v.1 - 7);
        lemma_halved(v.0, v.1 - 8);
        lemma_halved(v.0, v.1 - 9);
        lemma_unit_fits((v.0, v.1 - 10), unit + 1);
    }
}

/// An amount of bytes that is not negative, in the unit that fits it.
fn human_amount(bytes: Binary) -> (out: String)
    requires
        bytes.exp >= -100000,
    ensures
        out@ == human(bytes@),
{
    let mut v: Binary = bytes;
    let mut unit: usize = 0;
    while unit < 4 && whole_up_to(v, 1024) >= 1024
        invariant
            unit <= 4,
            v.exp >= -100000 - 10 * unit,
            scaled(bytes@, 0) == scaled(v@, unit as nat),
        decreases 4 - unit,
    {
        v = Binary { mant: v.mant, exp: v.exp - 10 };
        unit += 1;
    }
    let mut out = fixed_of(v, 1);
    push_str(&mut out, " ");
    if unit == 0 {
        push_str(&mut out, "B");
    } else if unit == 1 {
        push_str(&mut out, "KB");
    } else if unit == 2 {
        push_str(&mut out, "MB");
    } else if unit == 3 {
        push_str(&mut out, "GB");
    } else {
        push_str(&mut out, "TB");
    }
    string_of(out.as_slice())
}

/// A number of bytes, which need not be whole, with one decimal: in the unit that
/// fits it where it is not negative, and in bytes where it is negative or no
/// number. An infinite number has the largest unit.
pub open spec fn human_double(bits: u64) -> Seq<char> {
    match double(bits) {
        Double::NotANumber => "NaN B"@,
        Double::Infinite { negative } => if negative {
            "-inf B"@
        } else {
            "inf TB"@
        },
        Double::Finite { negative, magnitude } => if negative {
            double_fixed(bits, 1) + " B"@
        } else {
            human(magnitude@)
        },
    }
}

/// A number of bytes, which is the double precision number with the given
/// pattern, in the unit that fits it.
pub fn human_bytes_f64(bytes: u64) -> (out: String)
    ensures
        out@ == human_double(bytes),
{
    match double_of(bytes) {
        Double::NotANumber => "NaN B".to_owned(),
        Double::Infinite { negative } => if negative {
            "-inf B".to_owned()
        } else {
            "inf TB".to_owned()
        },
        Double::Finite { negative, magnitude } => if negative {
            let mut out = double_fixed_of(bytes, 1);
            push_str(&mut out, " B");
            string_of(out.as_slice())
        } else {
            human_amount(magnitude)
        },
    }
}

/// A number of bytes in the unit that fits it.
pub fn human_bytes(bytes: u64) -> (out: String)
    ensures
        out@ == human(rounded(bytes as nat, 1, DOUBLE as nat)),
{
    human_amount(binary_of(bytes, DOUBLE))
}

/// `n` divided by `d` in double precision, with one decimal.
pub open spec fn tenths(n: nat, d: nat) -> Seq<char> {
    fixed(quotient(rounded(n, 1, DOUBLE as nat), (d, 0), DOUBLE as nat), 1)
}

/// A count, from a thousand on with one decimal and a letter for the
/// thousands.
pub open spec fn count_text(n: nat) -> Seq<char> {
    if n < 1_000 {
        decimal(n)
    } else if n < 1_000_000 {
        tenths(n, 1_000) + "K"@
    } else if n < 1_000_000_000 {
        tenths(n, 1_000_000) + "M"@
    } else {
        tenths(n, 1_000_000_000) + "G"@
    }
}

fn tenths_of(n: u64, d: u64) -> (out: Vec<char>)
    requires
        0 < d,
    ensures
        out@ == tenths(n as nat, d as nat),
{
    let q = divide(binary_of(n, DOUBLE), Binary { mant: d, exp: 0 }, DOUBLE);
    fixed_of(q, 1)
}

/// A count, shortened with a letter for the thousands.
pub fn format_number(num: u64) -> (out: String)
    ensures
        out@ == count_text(num as nat),
{
    let mut out: Vec<char>;
    if num < 1_000 {
        out = decimal_of(num as u128);
    } else if num < 1_000_000 {
        out = tenths_of(num, 1_000);
        push_str(&mut out, "K");
    } else if num < 1_000_000_000 {
        out = tenths_of(num, 1_000_000);
        push_str(&mut out, "M");
    } else {
        out = tenths_of(num, 1_000_000_000);
        push_str(&mut out, "G");
    }
    string_of(out.as_slice())
}

/// `part` of `total` in percent, at the given precision.
pub open spec fn share(part: nat, total: nat, half: nat) -> (nat, int) {
    product(quotient(rounded(part, 1, half), rounded(total, 1, half), half), (100, 0), half)
}

/// The precisions as powers of two.
pub proof fn lemma_precisions()
    ensures
        pow2(23) == SINGLE,
        pow2(52) == DOUBLE,
{
    vstd::arithmetic::power2::lemma2_to64();
    vstd::arithmetic::power2::lemma2_to64_rest();
}

/// `part` of `total` in percent.
pub fn share_of(part: u64, total: u64, half: u64) -> (r: Binary)
    requires
        0 < total,
        half == SINGLE || half == DOUBLE,
    ensures
        r@ == share(part as nat, total as nat, half as nat),
        normal(r@, half as nat),
        -117 <= r.exp <= 73,
        half == SINGLE ==> -88 <= r.exp,
{
    proof {
        lemma_precisions();
        lemma_share_exponents(
            part as nat,
            total as nat,
            if half == SINGLE {
                23
            } else {
                52
            },
        );
    }
    let n = binary_of(part, half);
    let d = binary_of(total, half);
    proof {
        rounded_is_near(total as nat, 1, half as nat);
    }
    let q = divide(n, d, half);
    multiply(q, Binary { mant: 100, exp: 0 }, half)
}

/// A part that is not zero has a share that is not zero.
pub proof fn lemma_share_positive(part: nat, total: nat, half: nat)
    requires
        part > 0,
        total > 0,
        half > 0,
    ensures
        share(part, total, half).0 > 0,
{
    let a = rounded(part, 1, half);
    let b = rounded(total, 1, half);
    rounded_is_near(part, 1, half);
    rounded_is_near(total, 1, half);
    rounded_is_near(a.0, b.0, half);
    let q = quotient(a, b, half);
    rounded_is_near(q.0 * 100, 1, half);
}

/// `part` of `total` in whole percent, at most `max`: the fraction is cut off.
pub open spec fn percent(part: nat, total: nat, max: nat) -> nat {
    let p = whole(share(part, total, DOUBLE as nat));
    if p <= max {
        p
    } else {
        max
    }
}

/// `part` of `total` in whole percent, zero where the total is zero.
pub fn percent_of(part: u64, total: u64) -> (r: u16)
    ensures
        r == if total > 0 {
            percent(part as nat, total as nat, u16::MAX as nat)
        } else {
            0
        },
{
    if total > 0 {
        whole_up_to(share_of(part, total, DOUBLE), u16::MAX as u64) as u16
    } else {
        0
    }
}

/// Of a part of a total no more than a hundred percent are shown.
pub proof fn percentages_end_at_a_hundred(part: nat, total: nat, max: nat)
    requires
        part <= total,
        total > 0,
    ensures
        percent(part, total, max) <= 100,
{
    lemma_precisions();
    whole_percent_is_at_most_hundred(part, total, 52);
}

/// The days, hours and minutes that are shown make up the seconds, but for less
/// than a minute, and those of a running time make them up exactly.
pub proof fn times_add_up(secs: nat)
    ensures
        ({
            let days = secs / 86400;
            let hours = (secs % 86400) / 3600;
            let minutes = (secs % 3600) / 60;
            &&& hours < 24 && minutes < 60
            &&& 0 <= secs - (86400 * days + 3600 * hours + 60 * minutes) < 60
        }),
        ({
            let hours = secs / 3600;
            let minutes = (secs % 3600) / 60;
            let seconds = secs % 60;
            &&& minutes < 60 && seconds < 60
            &&& secs == 3600 * hours + 60 * minutes + seconds
        }),
{
}

/// Days, hours and minutes of a number of seconds, from the first that is not
/// zero on.
pub open spec fn uptime(secs: nat) -> Seq<char> {
    let days = secs / 86400;
    let hours = (secs % 86400) / 3600;
    let minutes = (secs % 3600) / 60;
    if days > 0 {
        decimal(days) + "d "@ + decimal(hours) + "h "@ + decimal(minutes) + "m"@
    } else if hours > 0 {
        decimal(hours) + "h "@ + decimal(minutes) + "m"@
    } else {
        decimal(minutes) + "m"@
    }
}

/// Days, hours and minutes of a number of seconds.
pub fn uptime_text(secs: u64) -> (out: String)
    ensures
        out@ == uptime(secs as nat),
{
    let days: u64 = secs / 86400;
    let hours: u64 = (secs % 86400) / 3600;
    let minutes: u64 = (secs % 3600) / 60;
    let mut out: Vec<char> = Vec::new();
    if days > 0 {
        let t = decimal_of(days as u128);
        push_all(&mut out, t.as_slice());
        push_str(&mut out, "d ");
    }
    if days > 0 || hours > 0 {
        let t = decimal_of(hours as u128);
        push_all(&mut out, t.as_slice());
        push_str(&mut out, "h ");
    }
    let t = decimal_of(minutes as u128);
    push_all(&mut out, t.as_slice());
    push_str(&mut out, "m");
    assert(out@ =~= uptime(secs as nat));
    string_of(out.as_slice())
}

/// A number below a hundred with two digits, a larger one with as many as it
/// needs.
pub open spec fn two_digits(n: nat) -> Seq<char> {
    padded_left(decimal(n), '0', 2)
}

/// Minutes and seconds of a number of seconds, with the hours before them
/// where there are any.
pub open spec fn runtime(secs: nat) -> Seq<char> {
    let hours = secs / 3600;
    let minutes = (secs % 3600) / 60;
    let seconds = secs % 60;
    if hours > 0 {
        decimal(hours) + ":"@ + two_digits(minutes) + ":"@ + two_digits(seconds)
    } else {
        decimal(minutes) + ":"@ + two_digits(seconds)
    }
}

/// Hours, minutes and seconds of a number of seconds.
pub fn runtime_text(secs: u64) -> (out: String)
    ensures
        out@ == runtime(secs as nat),
{
    let hours: u64 = secs / 3600;
    let minutes: u64 = (secs % 3600) / 60;
    let seconds: u64 = secs % 60;
    let m = decimal_of(minutes as u128);
    let s = decimal_of(seconds as u128);
    let s = pad_left(s.as_slice(), '0', 2);
    let mut out: Vec<char> = Vec::new();
    if hours > 0 {
        let h = decimal_of(hours as u128);
        push_all(&mut out, h.as_slice());
        push_str(&mut out, ":");
        let m = pad_left(m.as_slice(), '0', 2);
        push_all(&mut out, m.as_slice());
    } else {
        push_all(&mut out, m.as_slice());
    }
    push_str(&mut out, ":");
    push_all(&mut out, s.as_slice());
    assert(out@ =~= runtime(secs as nat));
    string_of(out.as_slice())
}

proof fn lemma_by_1024(m: nat, e: int)
    ensures
        whole((m, e - 10)) == whole((m, e)) / 1024,
{
    lemma_halved(m, e);
    lemma_halved(m, e - 1);
    lemma_halved(m, e - 2);
    lemma_halved(m, e - 3);
    lemma_halved(m, e - 4);
    lemma_halved(m, e - 5);
    lemma_halved(m, e - 6);
    lemma_halved(m, e - 7);
    lemma_halved(m, e - 8);
    lemma_halved(m, e - 9);
}

/// An amount of bytes is shown with one decimal in the largest unit of which there
/// is at least one, and in no larger one than there is.
pub proof fn amounts_have_the_largest_unit(v: (nat, int))
    ensures
        ({
            let w = whole(v);
            &&& w < 1024 ==> human(v) == fixed(v, 1) + seq![' ', 'B']
            &&& 1024 <= w < 1024 * 1024 ==> human(v) == fixed((v.0, v.1 - 10), 1) + seq![
                ' ',
                'K',
                'B',
            ]
            &&& 1024 * 1024 <= w < 1024 * 1024 * 1024 ==> human(v) == fixed((v.0, v.1 - 20), 1)
                + seq![' ', 'M', 'B']
            &&& 1024 * 1024 * 1024 <= w < 1024 * 1024 * 1024 * 1024 ==> human(v) == fixed(
                (v.0, v.1 - 30),
                1,
            ) + seq![' ', 'G', 'B']
            &&& 1024 * 1024 * 1024 * 1024 <= w ==> human(v) == fixed((v.0, v.1 - 40), 1) + seq![
                ' ',
                'T',
                'B',
            ]
        }),
{
    reveal_with_fuel(scaled, 5);
    reveal_strlit(" ");
    reveal_strlit("B");
    reveal_strlit("KB");
    reveal_strlit("MB");
    reveal_strlit("GB");
    reveal_strlit("TB");
    lemma_by_1024(v.0, v.1);
    lemma_by_1024(v.0, v.1 - 10);
    lemma_by_1024(v.0, v.1 - 20);
    let w = whole(v);
    if w < 1024 {
        assert(human(v) =~= fixed(v, 1) + seq![' ', 'B']);
    } else if w < 1024 * 1024 {
        assert(human(v) =~= fixed((v.0, v.1 - 10), 1) + seq![' ', 'K', 'B']);
    } else if w < 1024 * 1024 * 1024 {
        assert(human(v) =~= fixed((v.0, v.1 - 20), 1) + seq![' ', 'M', 'B']);
    } else if w < 1024 * 1024 * 1024 * 1024 {
        assert(human(v) =~= fixed((v.0, v.1 - 30), 1) + seq![' ', 'G', 'B']);
    } else {
        assert(human(v) =~= fixed((v.0, v.1 - 40), 1) + seq![' ', 'T', 'B']);
    }
}

/// An amount that is negative, infinite or no number is shown as it is printed.
pub proof fn odd_amounts_are_shown_too(bits: u64)
    ensures
        match double(bits) {
            Double::Finite { negative: false, magnitude } => human_double(bits) == human(
                magnitude@,
            ),
            Double::Infinite { negative: false } => human_double(bits) == double_fixed(bits, 1)
                + seq![' ', 'T', 'B'],
            _ => human_double(bits) == double_fixed(bits, 1) + seq![' ', 'B'],
        },
{
    reveal_strlit("NaN B");
    reveal_strlit("-inf B");
    reveal_strlit("inf TB");
    reveal_strlit("NaN");
    reveal_strlit("-inf");
    reveal_strlit("inf");
    reveal_strlit(" B");
    assert("NaN B"@ =~= "NaN"@ + seq![' ', 'B']);
    assert("-inf B"@ =~= "-inf"@ + seq![' ', 'B']);
    assert("inf TB"@ =~= "inf"@ + seq![' ', 'T', 'B']);
    assert(" B"@ =~= seq![' ', 'B']);
}

/// A count below a thousand is shown as it is, a larger one in thousands, millions
/// or thousand millions with one decimal, by its size; what is printed is the
/// count divided by that, but for at most four parts in `2^53`.
pub proof fn counts_are_shortened_by_their_size(n: nat, k: nat) -> (q: (nat, int))
    requires
        n <= u64::MAX,
        k >= 200,
    ensures
        n < 1_000 ==> count_text(n) == decimal(n),
        n >= 1_000 ==> ({
            let (d, letter): (int, char) = if n < 1_000_000 {
                (1_000, 'K')
            } else if n < 1_000_000_000 {
                (1_000_000, 'M')
            } else {
                (1_000_000_000, 'G')
            };
            &&& count_text(n) == fixed(q, 1) + seq![letter]
            &&& near(in_units(q, k) * d, (n * pow2(k)) as int, 4, 0x20_0000_0000_0000)
        }),
{
    reveal_strlit("K");
    reveal_strlit("M");
    reveal_strlit("G");
    assert("K"@ =~= seq!['K']);
    assert("M"@ =~= seq!['M']);
    assert("G"@ =~= seq!['G']);
    let d: nat = if n < 1_000_000 {
        1_000
    } else if n < 1_000_000_000 {
        1_000_000
    } else {
        1_000_000_000
    };
    let half = DOUBLE as nat;
    let a = rounded(n, 1, half);
    let q = quotient(a, (d, 0), half);
    if n >= 1_000 {
        lemma_precisions();
        vstd::arithmetic::power2::lemma2_to64();
        vstd::arithmetic::power2::lemma2_to64_rest();
        lemma_whole_exponents(n, 52);
        assert(a.0 * pow2(64) >= d * half) by (nonlinear_arith)
            requires
                a.0 >= half,
                pow2(64) >= d,
        ;
        rounded_is_near(a.0, d, half);
        lemma_exponent_from(a.0, d, half, 64);
        a_rate_is_the_amount_by_the_time(n, (d, 0), half, k, 0);
        assert(in_units((d, 0), 0) == d);
        assert(pow2(k + 0) == pow2(k));
    }
    q
}

/// A percentage is what the part is to the total, times a hundred, the fraction
/// cut off, and at most `max`; the share is off by at most eight parts in `2^53`.
pub proof fn percentages_are_cut_off(part: nat, total: nat, max: nat)
    requires
        total > 0,
    ensures
        ({
            let p = percent(part, total, max);
            let h: int = 0x20_0000_0000_0000;
            &&& p <= max
            &&& p * total * (h - 8) <= (100 * part) * h
            &&& p < max ==> (100 * part) * h < (p + 1) * total * (h + 8)
        }),
{
    a_whole_share_is_cut_off(part, total, DOUBLE as nat);
    let w = whole(share(part, total, DOUBLE as nat));
    if w > max {
        let h: int = 0x20_0000_0000_0000;
        assert(max * total * (h - 8) <= w * total * (h - 8)) by (nonlinear_arith)
            requires
                max <= w,
                h >= 8,
        ;
    }
}

/// A time since the start is shown by days, hours and minutes, without the days
/// where there are none, and without the hours where there are neither.
pub proof fn uptimes_are_shown_by_days(d: nat, h: nat, m: nat, s: nat)
    requires
        h < 24,
        m < 60,
        s < 60,
    ensures
        ({
            let text = uptime(86400 * d + 3600 * h + 60 * m + s);
            &&& d > 0 ==> text == decimal(d) + seq!['d', ' '] + decimal(h) + seq!['h', ' ']
                + decimal(m) + seq!['m']
            &&& d == 0 && h > 0 ==> text == decimal(h) + seq!['h', ' '] + decimal(m) + seq!['m']
            &&& d == 0 && h == 0 ==> text == decimal(m) + seq!['m']
        }),
{
    reveal_strlit("d ");
    reveal_strlit("h ");
    reveal_strlit("m");
    assert("d "@ =~= seq!['d', ' ']);
    assert("h "@ =~= seq!['h', ' ']);
    assert("m"@ =~= seq!['m']);
    let secs = 86400 * d + 3600 * h + 60 * m + s;
    assert(secs / 86400 == d);
    assert(secs % 86400 == 3600 * h + 60 * m + s);
    assert((secs % 86400) / 3600 == h);
    assert(secs % 3600 == 60 * m + s);
    assert((secs % 3600) / 60 == m);
}

/// A running time is shown by minutes and seconds, the seconds with two digits,
/// and where there are hours with them before and the minutes with two digits.
pub proof fn running_times_are_shown_by_minutes(h: nat, m: nat, s: nat)
    requires
        m < 60,
        s < 60,
    ensures
        ({
            let text = runtime(3600 * h + 60 * m + s);
            let seconds = decimal(s / 10) + decimal(s % 10);
            let minutes = decimal(m / 10) + decimal(m % 10);
            &&& h > 0 ==> text == decimal(h) + seq![':'] + minutes + seq![':'] + seconds
            &&& h == 0 ==> text == decimal(m) + seq![':'] + seconds
        }),
{
    reveal_strlit(":");
    assert(":"@ =~= seq![':']);
    lemma_two_digits(m);
    lemma_two_digits(s);
    let secs = 3600 * h + 60 * m + s;
    assert(secs / 3600 == h);
    assert(secs % 3600 == 60 * m + s);
    assert((secs % 3600) / 60 == m);
    assert(secs % 60 == s);
}

proof fn lemma_two_digits(n: nat)
    requires
        n < 100,
    ensures
        two_digits(n) == decimal(n / 10) + decimal(n % 10),
{
    reveal_with_fuel(decimal, 3);
    if n < 10 {
        assert(two_digits(n) =~= decimal(0) + decimal(n));
    } else {
        assert(decimal(n) =~= decimal(n / 10) + decimal(n % 10));
    }
}

} // verus!
