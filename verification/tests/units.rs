use rktop::units::{
    format_number, human_bytes, human_bytes_f64, percent_of, runtime_text, uptime_text,
};

fn human_bytes_in_double_precision(bytes: u64) -> String {
    let units = ["B", "KB", "MB", "GB", "TB"];
    let mut val = bytes as f64;
    let mut unit_idx = 0;
    while val >= 1024.0 && unit_idx < units.len() - 1 {
        val /= 1024.0;
        unit_idx += 1;
    }
    format!("{:.1} {}", val, units[unit_idx])
}

fn format_number_in_double_precision(num: u64) -> String {
    if num < 1000 {
        return num.to_string();
    }
    if num < 1_000_000 {
        return format!("{:.1}K", num as f64 / 1000.0);
    }
    if num < 1_000_000_000 {
        return format!("{:.1}M", num as f64 / 1_000_000.0);
    }
    format!("{:.1}G", num as f64 / 1_000_000_000.0)
}

fn samples() -> Vec<u64> {
    let mut out: Vec<u64> = (0..60_000u64).collect();
    let mut x: u64 = 0x9e37_79b9_7f4a_7c15;
    for i in 0..200_000u32 {
        x = x.wrapping_mul(6364136223846793005).wrapping_add(1442695040888963407);
        out.push(x >> (i % 64));
    }
    for k in 0..64 {
        for d in 0..40u64 {
            out.push((1u64 << k).wrapping_add(d));
            out.push((1u64 << k).wrapping_sub(d));
        }
    }
    out.push(u64::MAX);
    out
}

#[test]
fn human_bytes_agrees_with_double_precision() {
    for n in samples() {
        assert_eq!(human_bytes(n), human_bytes_in_double_precision(n), "{}", n);
    }
}

#[test]
fn format_number_agrees_with_double_precision() {
    for n in samples() {
        assert_eq!(format_number(n), format_number_in_double_precision(n), "{}", n);
    }
}

#[test]
fn units_have_exact_texts() {
    assert_eq!(human_bytes(0), "0.0 B");
    assert_eq!(human_bytes(1023), "1023.0 B");
    assert_eq!(human_bytes(1024), "1.0 KB");
    assert_eq!(human_bytes(1536), "1.5 KB");
    assert_eq!(human_bytes(8 * 1024 * 1024 * 1024), "8.0 GB");
    assert_eq!(human_bytes(u64::MAX), "16777216.0 TB");
    assert_eq!(format_number(999), "999");
    assert_eq!(format_number(1000), "1.0K");
    assert_eq!(format_number(999_999), "1000.0K");
    assert_eq!(format_number(1_500_000), "1.5M");
    assert_eq!(format_number(2_000_000_000), "2.0G");
}

fn in_double_precision(bytes: f64) -> String {
    let units = ["B", "KB", "MB", "GB", "TB"];
    let mut val = bytes;
    let mut unit = 0;
    while val >= 1024.0 && unit < units.len() - 1 {
        val /= 1024.0;
        unit += 1;
    }
    format!("{:.1} {}", val, units[unit])
}

#[test]
fn fractions_of_bytes_are_shown() {
    let shown = |v: f64| human_bytes_f64(v.to_bits());
    assert_eq!(shown(1.5), "1.5 B");
    assert_eq!(shown(1536.0), "1.5 KB");
    assert_eq!(shown(0.0), "0.0 B");
    assert_eq!(shown(-0.0), "-0.0 B");
    assert_eq!(shown(-2048.0), "-2048.0 B");
    assert_eq!(shown(f64::INFINITY), "inf TB");
    assert_eq!(shown(f64::NEG_INFINITY), "-inf B");
    assert_eq!(shown(f64::NAN), "NaN B");
    let mut x: u64 = 17;
    for _ in 0..5_000 {
        x = x.wrapping_mul(6364136223846793005).wrapping_add(1442695040888963407);
        for v in [f64::from_bits(x), (x >> (x % 60)) as f64 / 1000.0] {
            assert_eq!(shown(v), in_double_precision(v), "{:x}", v.to_bits());
        }
    }
}

#[test]
fn percentages_agree_with_double_precision() {
    let all = samples();
    for (i, &part) in all.iter().enumerate() {
        let total = all[(i * 11 + 3) % all.len()];
        let expected = if total > 0 { (part as f64 / total as f64 * 100.0) as u16 } else { 0 };
        assert_eq!(percent_of(part, total), expected, "{} of {}", part, total);
    }
    assert_eq!(percent_of(29, 100), 28);
    assert_eq!(percent_of(1, 3), 33);
    assert_eq!(percent_of(5, 0), 0);
}

#[test]
fn a_part_is_at_most_a_hundred_percent() {
    let all = samples();
    for (i, &a) in all.iter().enumerate() {
        let b = all[(i * 17 + 1) % all.len()];
        assert!(percent_of(a.min(b), a.max(b)) <= 100);
    }
}

#[test]
fn times_are_split_into_their_parts() {
    assert_eq!(uptime_text(0), "0m");
    assert_eq!(uptime_text(59), "0m");
    assert_eq!(uptime_text(3599), "59m");
    assert_eq!(uptime_text(3600), "1h 0m");
    assert_eq!(uptime_text(90061), "1d 1h 1m");
    assert_eq!(uptime_text(86400), "1d 0h 0m");
    assert_eq!(runtime_text(0), "0:00");
    assert_eq!(runtime_text(61), "1:01");
    assert_eq!(runtime_text(3599), "59:59");
    assert_eq!(runtime_text(3600), "1:00:00");
    assert_eq!(runtime_text(360_000 + 62), "100:01:02");
}
