//! Whole numbers in decimal notation: reading, printing and padding.

use vstd::prelude::*;

use crate::text::push_all;

verus! {

/// Whether `c` is one of the ten ASCII digits.
pub open spec fn is_digit(c: char) -> bool {
    '0' <= c <= '9'
}

/// The number that a run of digits stands for; nothing where another
/// character occurs. The empty run stands for zero.
pub open spec fn digits_value(s: Seq<char>) -> Option<nat>
    decreases s.len(),
{
    if s.len() == 0 {
        Some(0)
    } else if !is_digit(s.last()) {
        None
    } else {
        match digits_value(s.drop_last()) {
            Some(v) => Some(v * 10 + (s.last() as nat - '0' as nat) as nat),
            None => None,
        }
    }
}

/// A natural number in decimal notation: an optional plus sign and at least
/// one digit.
pub open spec fn natural(s: Seq<char>) -> Option<nat> {
    let body = if s.len() > 0 && s.first() == '+' {
        s.drop_first()
    } else {
        s
    };
    if body.len() == 0 {
        None
    } else {
        digits_value(body)
    }
}

/// A natural number in decimal notation that is at most `max`.
pub open spec fn natural_up_to(s: Seq<char>, max: nat) -> Option<nat> {
    match natural(s) {
        Some(v) => if v <= max {
            Some(v)
        } else {
            None
        },
        None => None,
    }
}

/// An integer in decimal notation, with an optional sign, from `min` to `max`.
pub open spec fn integer_within(s: Seq<char>, min: int, max: int) -> Option<int> {
    let value: Option<int> = if s.len() > 1 && s.first() == '-' {
        match digits_value(s.drop_first()) {
            Some(v) => Some(-(v as int)),
            None => None,
        }
    } else {
        match natural(s) {
            Some(v) => Some(v as int),
            None => None,
        }
    };
    match value {
        Some(v) => if min <= v <= max {
            Some(v)
        } else {
            None
        },
        None => None,
    }
}

proof fn lemma_digits_prefix(s: Seq<char>, k: int)
    requires
        0 <= k <= s.len(),
    ensures
        digits_value(s) matches Some(v) ==> (digits_value(s.take(k)) matches Some(u) && u <= v),
    decreases s.len(),
{
    if k == s.len() {
        assert(s.take(k) == s);
    } else {
        lemma_digits_prefix(s.drop_last(), k);
        assert(s.drop_last().take(k) == s.take(k));
    }
}

/// The number that the digits of `cs` from position `from` on stand for.
fn read_digits(cs: &[char], from: usize) -> (r: Option<u64>)
    requires
        from <= cs@.len(),
    ensures
        match r {
            Some(v) => digits_value(cs@.skip(from as int)) == Some(v as nat),
            None => digits_value(cs@.skip(from as int)) matches Some(v) ==> v > u64::MAX,
        },
{
    let ghost s = cs@.skip(from as int);
    let mut value: u64 = 0;
    let mut i: usize = from;
    assert(s.take(0).len() == 0);
    while i < cs.len()
        invariant
            from <= i <= cs.len(),
            s == cs@.skip(from as int),
            digits_value(s.take(i - from)) == Some(value as nat),
        decreases cs.len() - i,
    {
        let c = cs[i];
        let ghost upto = s.take(i + 1 - from);
        assert(upto.drop_last() == s.take(i - from));
        assert(upto.last() == c);
        proof {
            lemma_digits_prefix(s, i + 1 - from);
        }
        if !('0' <= c && c <= '9') {
            return None;
        }
        let d: u64 = (c as u32 - '0' as u32) as u64;
        assert(digits_value(upto) == Some((value * 10 + d) as nat));
        if value > u64::MAX / 10 || value * 10 > u64::MAX - d {
            return None;
        }
        value = value * 10 + d;
        i += 1;
    }
    assert(s.take(i - from) == s);
    Some(value)
}

/// Reads a `u64` in decimal notation.
pub fn read_u64(cs: &[char]) -> (r: Option<u64>)
    ensures
        match r {
            Some(v) => natural_up_to(cs@, u64::MAX as nat) == Some(v as nat),
            None => natural_up_to(cs@, u64::MAX as nat) is None,
        },
{
    let from: usize = if cs.len() > 0 && cs[0] == '+' {
        1
    } else {
        0
    };
    assert(cs@.skip(0) == cs@);
    assert(from == 1 ==> cs@.skip(1) == cs@.drop_first());
    if from == cs.len() {
        return None;
    }
    read_digits(cs, from)
}

/// Reads a `u32` in decimal notation.
pub fn read_u32(cs: &[char]) -> (r: Option<u32>)
    ensures
        match r {
            Some(v) => natural_up_to(cs@, u32::MAX as nat) == Some(v as nat),
            None => natural_up_to(cs@, u32::MAX as nat) is None,
        },
{
    match read_u64(cs) {
        Some(v) => if v <= u32::MAX as u64 {
            Some(v as u32)
        } else {
            None
        },
        None => None,
    }
}

/// Reads a `u8` in decimal notation.
pub fn read_u8(cs: &[char]) -> (r: Option<u8>)
    ensures
        match r {
            Some(v) => natural_up_to(cs@, u8::MAX as nat) == Some(v as nat),
            None => natural_up_to(cs@, u8::MAX as nat) is None,
        },
{
    match read_u64(cs) {
        Some(v) => if v <= u8::MAX as u64 {
            Some(v as u8)
        } else {
            None
        },
        None => None,
    }
}

/// Reads a `usize` in decimal notation.
pub fn read_usize(cs: &[char]) -> (r: Option<usize>)
    ensures
        match r {
            Some(v) => natural_up_to(cs@, usize::MAX as nat) == Some(v as nat),
            None => natural_up_to(cs@, usize::MAX as nat) is None,
        },
{
    match read_u64(cs) {
        Some(v) => if v <= usize::MAX as u64 {
            Some(v as usize)
        } else {
            None
        },
        None => None,
    }
}

/// Reads an `i32` in decimal notation.
pub fn read_i32(cs: &[char]) -> (r: Option<i32>)
    ensures
        match r {
            Some(v) => integer_within(cs@, i32::MIN as int, i32::MAX as int) == Some(v as int),
            None => integer_within(cs@, i32::MIN as int, i32::MAX as int) is None,
        },
{
    if cs.len() > 1 && cs[0] == '-' {
        assert(cs@.skip(1) == cs@.drop_first());
        match read_digits(cs, 1) {
            Some(v) => if v <= 0x8000_0000 {
                Some((-(v as i64)) as i32)
            } else {
                None
            },
            None => None,
        }
    } else {
        match read_u64(cs) {
            Some(v) => if v <= 0x7fff_ffff {
                Some(v as i32)
            } else {
                None
            },
            None => None,
        }
    }
}

/// The digit that stands for `d`.
pub open spec fn digit(d: nat) -> char {
    ('0' as nat + d) as char
}

/// `n` in decimal notation, without leading zeros.
pub open spec fn decimal(n: nat) -> Seq<char>
    decreases n,
{
    if n < 10 {
        seq![digit(n)]
    } else {
        decimal(n / 10).push(digit(n % 10))
    }
}

/// `n` in decimal notation, with a minus sign where it is negative.
pub open spec fn decimal_int(n: int) -> Seq<char> {
    if n < 0 {
        seq!['-'] + decimal((-n) as nat)
    } else {
        decimal(n as nat)
    }
}

/// `n` in decimal notation.
pub fn decimal_of(n: u128) -> (out: Vec<char>)
    ensures
        out@ == decimal(n as nat),
    decreases n,
{
    let last: char = ((n % 10) as u8 + 48) as char;
    assert(last == digit((n % 10) as nat));
    if n < 10 {
        let mut out: Vec<char> = Vec::new();
        out.push(last);
        assert(out@ =~= seq![digit(n as nat)]);
        out
    } else {
        let mut out = decimal_of(n / 10);
        out.push(last);
        out
    }
}

/// `n` in decimal notation, with its sign.
pub fn decimal_int_of(n: i64) -> (out: Vec<char>)
    ensures
        out@ == decimal_int(n as int),
{
    if n < 0 {
        let mut out: Vec<char> = Vec::new();
        out.push('-');
        let body = decimal_of((-(n as i128)) as u128);
        push_all(&mut out, body.as_slice());
        assert(out@ =~= seq!['-'] + body@);
        out
    } else {
        decimal_of(n as u128)
    }
}

/// Printing a number and reading it back gives the number.
pub proof fn natural_reads_decimal(n: nat)
    ensures
        natural(decimal(n)) == Some(n),
{
    lemma_digits_of_decimal(n);
    assert(decimal(n).first() != '+') by {
        lemma_decimal_digits(n);
    }
}

/// Printing an integer and reading it back gives the integer.
pub proof fn integer_reads_decimal(n: int, min: int, max: int)
    requires
        min <= n <= max,
    ensures
        integer_within(decimal_int(n), min, max) == Some(n),
{
    if n < 0 {
        lemma_digits_of_decimal((-n) as nat);
        lemma_decimal_digits((-n) as nat);
        assert(decimal_int(n).drop_first() =~= decimal((-n) as nat));
    } else {
        natural_reads_decimal(n as nat);
        lemma_decimal_digits(n as nat);
    }
}

proof fn lemma_digits_of_decimal(n: nat)
    ensures
        digits_value(decimal(n)) == Some(n),
    decreases n,
{
    if n < 10 {
        reveal_with_fuel(digits_value, 2);
        assert(decimal(n).drop_last() =~= Seq::<char>::empty());
    } else {
        lemma_digits_of_decimal(n / 10);
        assert(decimal(n).drop_last() =~= decimal(n / 10));
    }
}

/// Decimal notation has digits, and nothing else.
pub proof fn lemma_decimal_digits(n: nat)
    ensures
        decimal(n).len() > 0,
        forall|i: int| 0 <= i < decimal(n).len() ==> is_digit(#[trigger] decimal(n)[i]),
    decreases n,
{
    if n >= 10 {
        lemma_decimal_digits(n / 10);
    }
}

/// `n` copies of `c`.
pub open spec fn repeated(c: char, n: nat) -> Seq<char> {
    Seq::new(n, |i: int| c)
}

/// `n` copies of `c`.
pub fn repeat(c: char, n: usize) -> (out: Vec<char>)
    ensures
        out@ == repeated(c, n as nat),
{
    let mut out: Vec<char> = Vec::new();
    let mut i: usize = 0;
    while i < n
        invariant
            i <= n,
            out@ =~= repeated(c, i as nat),
        decreases n - i,
    {
        out.push(c);
        i += 1;
    }
    out
}

/// `s` filled up on the left with `c` to at least `width` characters.
pub open spec fn padded_left(s: Seq<char>, c: char, width: nat) -> Seq<char> {
    if s.len() < width {
        repeated(c, (width - s.len()) as nat) + s
    } else {
        s
    }
}

/// `s` filled up on the right with `c` to at least `width` characters.
pub open spec fn padded_right(s: Seq<char>, c: char, width: nat) -> Seq<char> {
    if s.len() < width {
        s + repeated(c, (width - s.len()) as nat)
    } else {
        s
    }
}

/// `cs` filled up on the left with `c` to at least `width` characters.
pub fn pad_left(cs: &[char], c: char, width: usize) -> (out: Vec<char>)
    ensures
        out@ == padded_left(cs@, c, width as nat),
{
    let fill: usize = if cs.len() < width {
        width - cs.len()
    } else {
        0
    };
    let mut out = repeat(c, fill);
    push_all(&mut out, cs);
    assert(out@ =~= padded_left(cs@, c, width as nat));
    out
}

/// `cs` filled up on the right with `c` to at least `width` characters.
pub fn pad_right(cs: &[char], c: char, width: usize) -> (out: Vec<char>)
    ensures
        out@ == padded_right(cs@, c, width as nat),
{
    let mut out: Vec<char> = Vec::new();
    push_all(&mut out, cs);
    let fill: usize = if cs.len() < width {
        width - cs.len()
    } else {
        0
    };
    let tail = repeat(c, fill);
    push_all(&mut out, tail.as_slice());
    assert(out@ =~= padded_right(cs@, c, width as nat));
    out
}

/// A natural number is read digit by digit: one more digit makes ten times the
/// number and the digit, leading zeros and all. A plus sign before the digits
/// changes nothing.
pub proof fn numbers_are_read_digit_by_digit(s: Seq<char>, c: char)
    requires
        '0' <= c <= '9',
    ensures
        natural(seq![c]) == Some((c as nat - '0' as nat) as nat),
        natural(s) matches Some(v) ==> natural(s.push(c)) == Some(
            (10 * v + (c as nat - '0' as nat)) as nat,
        ),
        s.len() > 0 && '0' <= s[0] <= '9' ==> natural(seq!['+'] + s) == natural(s),
{
    reveal_with_fuel(digits_value, 2);
    assert(seq![c].drop_last() =~= Seq::<char>::empty());
    if natural(s) is Some {
        let body = if s.first() == '+' {
            s.drop_first()
        } else {
            s
        };
        if s.first() == '+' {
            assert(s.push(c).drop_first() =~= body.push(c));
        }
        assert(body.push(c).drop_last() =~= body);
    }
    assert((seq!['+'] + s).drop_first() =~= s);
}

/// What has anything but digits behind its first character is no natural number,
/// nor is what begins with something that is neither a digit nor a plus sign,
/// and neither are nothing and a sign alone.
pub proof fn only_digits_make_a_number(s: Seq<char>, i: int)
    requires
        0 <= i < s.len(),
        !('0' <= s[i] <= '9'),
        i > 0 || s[i] != '+' || s.len() == 1,
    ensures
        natural(s) is None,
        natural(Seq::<char>::empty()) is None,
{
    let body = if s.first() == '+' {
        s.drop_first()
    } else {
        s
    };
    if body.len() > 0 {
        let k = if s.first() == '+' {
            i - 1
        } else {
            i
        };
        assert(body[k] == s[i]);
        lemma_no_digits(body, k);
    }
}

proof fn lemma_no_digits(s: Seq<char>, i: int)
    requires
        0 <= i < s.len(),
        !is_digit(s[i]),
    ensures
        digits_value(s) is None,
    decreases s.len(),
{
    if i < s.len() - 1 {
        lemma_no_digits(s.drop_last(), i);
    }
}

/// A number counts where it lies within the bounds, and only there; a minus sign
/// before digits makes it negative.
pub proof fn numbers_count_within_bounds(s: Seq<char>, max: nat, low: int, high: int)
    ensures
        natural(s) is None ==> natural_up_to(s, max) is None,
        natural(s) matches Some(v) ==> natural_up_to(s, max) == if v <= max {
            Some(v)
        } else {
            None
        },
        natural(s) matches Some(v) ==> integer_within(s, low, high) == if low <= v <= high {
            Some(v as int)
        } else {
            None
        },
        s.len() > 0 && '0' <= s[0] <= '9' ==> integer_within(seq!['-'] + s, low, high) == (
        match natural(s) {
            Some(v) => if low <= -v <= high {
                Some(-(v as int))
            } else {
                None
            },
            None => None,
        }),
{
    assert((seq!['-'] + s).drop_first() =~= s);
    if s.len() > 0 && s.first() == '-' && natural(s) is Some {
        lemma_no_digits(s, 0);
    }
}

/// A number is printed without leading zeros.
pub proof fn numbers_begin_with_their_first_digit(n: nat)
    ensures
        decimal(n).len() > 1 ==> decimal(n)[0] != '0',
        n >= 10 ==> decimal(n).len() > 1,
        decimal(n)[0] == '0' <==> n == 0,
    decreases n,
{
    if n >= 10 {
        numbers_begin_with_their_first_digit(n / 10);
        lemma_decimal_digits(n / 10);
    }
}

/// Filling up puts as many characters before or behind a text as are wanting to
/// the width.
pub proof fn padding_fills_up(s: Seq<char>, c: char, width: nat)
    ensures
        s.len() >= width ==> padded_left(s, c, width) == s && padded_right(s, c, width) == s,
        s.len() < width ==> ({
            let l = padded_left(s, c, width);
            let r = padded_right(s, c, width);
            &&& l.len() == width && r.len() == width
            &&& l.skip(width - s.len()) == s && r.take(s.len() as int) == s
            &&& forall|i: int| 0 <= i < width - s.len() ==> l[i] == c
            &&& forall|i: int| s.len() <= i < width ==> r[i] == c
        }),
{
    if s.len() < width {
        assert(padded_left(s, c, width).skip(width - s.len()) =~= s);
        assert(padded_right(s, c, width).take(s.len() as int) =~= s);
    }
}

/// A text that is neither a number nor one behind a minus sign is no integer.
pub proof fn only_signed_numbers_are_integers(s: Seq<char>, low: int, high: int)
    ensures
        natural(s) is None && !(s.len() > 1 && s[0] == '-' && '0' <= s[1] <= '9')
            ==> integer_within(s, low, high) is None,
{
    if s.len() > 1 && s[0] == '-' && !('0' <= s[1] <= '9') {
        let t = s.drop_first();
        assert(t[0] == s[1]);
        lemma_no_digits(t, 0);
    }
}

} // verus!
