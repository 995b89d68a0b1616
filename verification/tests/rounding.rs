use rktop::rounding::{
    binary_of, divide, double_bits, double_fixed_of, double_of, fixed_of, multiply,
    positive_double_of, round_ratio, single_bits, single_fixed_of, single_of, single_rank_of,
    whole_up_to, Binary, Double, Single, DOUBLE, SINGLE,
};
use rktop::text::string_of;

fn as_f64(b: Binary) -> f64 {
    b.mant as f64 * 2f64.powi(b.exp)
}

fn numbers() -> Vec<u64> {
    let mut out: Vec<u64> = (0..300).collect();
    let mut x: u64 = 42;
    for i in 0..3000u32 {
        x = x.wrapping_mul(6364136223846793005).wrapping_add(1442695040888963407);
        out.push(x >> (i % 64));
    }
    for k in 20..64 {
        for d in 0..4u64 {
            out.push((1u64 << k) + d);
            out.push((1u64 << k) - d);
        }
    }
    out
}

fn patterns() -> Vec<u32> {
    let mut out: Vec<u32> = vec![
        0,
        0x8000_0000,
        1,
        0x8000_0001,
        0x007f_ffff,
        0x0080_0000,
        0x7f7f_ffff,
        0x7f80_0000,
        0xff80_0000,
        0x7fc0_0000,
        0xffc0_0000,
    ];
    for v in [
        0.5f32, 1.5, 2.5, 0.25, 0.35, 0.45, 0.05, 99.95, 99.949997, 100.0, 0.125, 0.375, 1e-7, 3.14159, 1e20,
        49.5, 50.5, 12.345,
    ] {
        out.push(v.to_bits());
        out.push((-v).to_bits());
    }
    let mut x: u64 = 7;
    for _ in 0..20_000 {
        x = x.wrapping_mul(6364136223846793005).wrapping_add(1442695040888963407);
        out.push((x >> 32) as u32);
        out.push(0x3c00_0000 + ((x >> 32) as u32) % 0x0900_0000);
    }
    out
}

#[test]
fn whole_numbers_round_as_conversions_do() {
    for n in numbers() {
        assert_eq!(as_f64(binary_of(n, DOUBLE)), n as f64, "{}", n);
        assert_eq!(as_f64(binary_of(n, SINGLE)) as f32, n as f32, "{}", n);
    }
}

#[test]
fn quotients_and_products_round_as_floating_point_does() {
    let all = numbers();
    for (i, &n) in all.iter().enumerate() {
        let d = all[(i * 7 + 13) % all.len()].max(1);
        let q = divide(binary_of(n, DOUBLE), binary_of(d, DOUBLE), DOUBLE);
        assert_eq!(as_f64(q), n as f64 / d as f64, "{} / {}", n, d);
        let p = multiply(q, Binary { mant: 100, exp: 0 }, DOUBLE);
        assert_eq!(as_f64(p), n as f64 / d as f64 * 100.0, "{} / {}", n, d);
        let q = divide(binary_of(n, SINGLE), binary_of(d, SINGLE), SINGLE);
        assert_eq!(as_f64(q) as f32, n as f32 / d as f32, "{} / {}", n, d);
        let p = multiply(q, Binary { mant: 100, exp: 0 }, SINGLE);
        assert_eq!(as_f64(p) as f32, n as f32 / d as f32 * 100.0, "{} / {}", n, d);
    }
}

#[test]
fn a_tie_goes_to_the_even_mantissa() {
    let even = round_ratio((1 << 25) + 2, 1, SINGLE);
    assert_eq!((even.mant, even.exp), (1 << 23, 2));
    let odd = round_ratio((1 << 25) + 6, 1, SINGLE);
    assert_eq!((odd.mant, odd.exp), ((1 << 23) + 2, 2));
    let carried = round_ratio((1 << 25) - 1, 1, SINGLE);
    assert_eq!((carried.mant, carried.exp), (1 << 23, 2));
}

#[test]
fn decimals_agree_with_formatting() {
    for bits in patterns() {
        let v = f32::from_bits(bits);
        assert_eq!(string_of(&single_fixed_of(bits, 0)), format!("{:.0}", v), "{:x}", bits);
        assert_eq!(string_of(&single_fixed_of(bits, 1)), format!("{:.1}", v), "{:x}", bits);
        assert_eq!(string_of(&single_fixed_of(bits, 2)), format!("{:.2}", v), "{:x}", bits);
    }
    let big = Binary { mant: 3, exp: 200 };
    assert_eq!(string_of(&fixed_of(big, 1)), format!("{:.1}", 3.0 * 2f64.powi(200)));
    let small = Binary { mant: 3, exp: -200 };
    assert_eq!(string_of(&fixed_of(small, 2)), "0.00");
}

#[test]
fn places_follow_the_order_of_numbers() {
    let all = patterns();
    for (i, &a) in all.iter().enumerate() {
        let b = all[(i * 31 + 5) % all.len()];
        let expected = f32::from_bits(a).partial_cmp(&f32::from_bits(b));
        let got = match (single_rank_of(a), single_rank_of(b)) {
            (Some(x), Some(y)) => Some(x.cmp(&y)),
            _ => None,
        };
        assert_eq!(got, expected, "{:x} {:x}", a, b);
    }
}

#[test]
fn patterns_decode_and_encode() {
    for bits in patterns() {
        match single_of(bits) {
            Single::NotANumber => assert!(f32::from_bits(bits).is_nan()),
            Single::Infinite { negative } => {
                assert_eq!(f32::from_bits(bits), if negative { f32::NEG_INFINITY } else { f32::INFINITY })
            }
            Single::Finite { negative, magnitude } => {
                let v = as_f64(magnitude) as f32;
                assert_eq!(f32::from_bits(bits), if negative { -v } else { v });
                if !negative && magnitude.mant >= SINGLE {
                    assert_eq!(single_bits(magnitude), bits);
                }
            }
        }
    }
    assert_eq!(single_bits(Binary { mant: 0, exp: 5 }), 0);
}

#[test]
fn doubles_decode_where_they_are_positive_and_finite() {
    for v in [1.0f64, 0.25, 1e-9, 5e-324, 123456.789, f64::MAX] {
        let b = positive_double_of(v.to_bits()).unwrap();
        let exact = if b.exp < -1000 { b.mant as f64 * 2f64.powi(-1000) * 2f64.powi(b.exp + 1000) } else { as_f64(b) };
        assert_eq!(exact, v);
    }
    for v in [0.0f64, -0.0, -1.0, f64::INFINITY, f64::NEG_INFINITY, f64::NAN] {
        assert!(positive_double_of(v.to_bits()).is_none());
    }
}

fn double_patterns() -> Vec<u64> {
    let mut all: Vec<u64> = [0.0f64, -0.0, 0.005, 0.125, 1.005, -2.675, 1e15, -1e300, f64::MAX, 5e-324]
        .iter()
        .map(|v| v.to_bits())
        .collect();
    all.extend([f64::NAN, f64::INFINITY, f64::NEG_INFINITY].iter().map(|v| v.to_bits()));
    let mut x: u64 = 11;
    for _ in 0..2_000 {
        x = x.wrapping_mul(6364136223846793005).wrapping_add(1442695040888963407);
        all.push(x);
        all.push((((x >> 33) as i64 - (1 << 30)) as f64 / 4096.0).to_bits());
    }
    all
}

#[test]
fn decimals_of_doubles_agree_with_formatting() {
    for bits in double_patterns() {
        let v = f64::from_bits(bits);
        assert_eq!(string_of(&double_fixed_of(bits, 0)), format!("{:.0}", v), "{:x}", bits);
        assert_eq!(string_of(&double_fixed_of(bits, 1)), format!("{:.1}", v), "{:x}", bits);
        assert_eq!(string_of(&double_fixed_of(bits, 2)), format!("{:.2}", v), "{:x}", bits);
    }
}

#[test]
fn double_patterns_decode_and_encode() {
    for bits in double_patterns() {
        let v = f64::from_bits(bits);
        match double_of(bits) {
            Double::NotANumber => assert!(v.is_nan()),
            Double::Infinite { negative } => {
                assert!(v.is_infinite() && v.is_sign_negative() == negative)
            }
            Double::Finite { negative, magnitude } => {
                assert!(v.is_finite() && v.is_sign_negative() == negative);
                if v > 0.0 {
                    assert_eq!(positive_double_of(bits), Some(magnitude));
                }
                if !negative && magnitude.mant >= DOUBLE {
                    assert_eq!(double_bits(magnitude), bits);
                }
            }
        }
    }
    assert_eq!(double_bits(Binary { mant: 0, exp: 5 }), 0);
}

#[test]
fn whole_parts_are_cut_off() {
    assert_eq!(whole_up_to(Binary { mant: 7, exp: -1 }, 100), 3);
    assert_eq!(whole_up_to(Binary { mant: 7, exp: -10 }, 100), 0);
    assert_eq!(whole_up_to(Binary { mant: 7, exp: 2 }, 100), 28);
    assert_eq!(whole_up_to(Binary { mant: 7, exp: 20 }, 100), 100);
    assert_eq!(whole_up_to(Binary { mant: 7, exp: 2_000_000_000 }, 100), 100);
    assert_eq!(whole_up_to(Binary { mant: 0, exp: 2_000_000_000 }, 100), 0);
    assert_eq!(whole_up_to(Binary { mant: 7, exp: -2_000_000_000 }, 100), 0);
}
