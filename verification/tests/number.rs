use rktop::number::{
    decimal_int_of, decimal_of, pad_left, pad_right, read_i32, read_u32, read_u64, read_u8,
    read_usize, repeat,
};
use rktop::text::{chars_of, string_of};

fn spellings() -> Vec<String> {
    let mut out: Vec<String> = [
        "", "+", "-", "0", "-0", "+0", "00", "007", "1", "+1", "-1", "255", "256", "-129", "4294967295",
        "4294967296", "2147483647", "2147483648", "-2147483648", "-2147483649", "18446744073709551615",
        "18446744073709551616", "99999999999999999999999", " 1", "1 ", "1_0", "0x10", "1.0", "1e3", "--1",
        "+-1", "++1", "٣", "12a", "a12", "9223372036854775808", "000000000000000000000000000000000001",
    ]
    .iter()
    .map(|s| s.to_string())
    .collect();
    let mut x: u64 = 1;
    for i in 0..500u32 {
        x = x.wrapping_mul(6364136223846793005).wrapping_add(1442695040888963407);
        out.push((x >> (i % 64)).to_string());
        out.push(format!("-{}", x >> (i % 64)));
    }
    out
}

#[test]
fn numbers_read_as_they_are_spelled() {
    for s in spellings() {
        let cs = chars_of(&s);
        assert_eq!(read_u64(&cs), s.parse::<u64>().ok(), "{}", s);
        assert_eq!(read_u32(&cs), s.parse::<u32>().ok(), "{}", s);
        assert_eq!(read_u8(&cs), s.parse::<u8>().ok(), "{}", s);
        assert_eq!(read_usize(&cs), s.parse::<usize>().ok(), "{}", s);
        assert_eq!(read_i32(&cs), s.parse::<i32>().ok(), "{}", s);
    }
}

#[test]
fn printed_numbers_read_back() {
    for n in [0u64, 1, 9, 10, 99, 100, 12345, u64::MAX] {
        assert_eq!(string_of(&decimal_of(n as u128)), n.to_string());
        assert_eq!(read_u64(&decimal_of(n as u128)), Some(n));
    }
    for n in [0i32, -1, 7, -10, i32::MIN, i32::MAX] {
        assert_eq!(string_of(&decimal_int_of(n as i64)), n.to_string());
        assert_eq!(read_i32(&decimal_int_of(n as i64)), Some(n));
    }
    assert_eq!(string_of(&decimal_int_of(i64::MIN)), i64::MIN.to_string());
    assert_eq!(string_of(&decimal_of(u128::MAX)), u128::MAX.to_string());
}

#[test]
fn padding_fills_up_to_the_width() {
    assert_eq!(string_of(&pad_left(&chars_of("7"), ' ', 3)), "  7");
    assert_eq!(string_of(&pad_left(&chars_of("1234"), ' ', 3)), "1234");
    assert_eq!(string_of(&pad_right(&chars_of("rga"), ' ', 6)), "rga   ");
    assert_eq!(string_of(&pad_right(&chars_of("rga3_core"), ' ', 6)), "rga3_core");
    assert_eq!(string_of(&repeat('█', 3)), "███");
    assert_eq!(string_of(&repeat('█', 0)), "");
}
