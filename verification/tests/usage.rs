use std::collections::VecDeque;

use rktop::panels::load_cells_of;
use rktop::rounding::{Binary, DOUBLE, SINGLE};
use rktop::text::string_of;
use rktop::units::share_of;
use rktop::usage::{bar_of, busy_of, cells_of, filled_cells, mean_of, render_sparkline};

fn as_f64(b: Binary) -> f64 {
    b.mant as f64 * 2f64.powi(b.exp)
}

#[test]
fn the_busy_share_is_left_of_a_hundred() {
    for total in [1u64, 2, 3, 7, 97, 1000, 12345, 999_999_937, u64::MAX / 3, u64::MAX] {
        for k in 0..60u64 {
            let idle = (total / 61).wrapping_mul(k).min(total);
            for idle in [idle, k.min(total), total - k.min(total)] {
                let pct = share_of(idle, total, DOUBLE);
                let expected = 100.0f32 - (idle as f64 / total as f64 * 100.0) as f32;
                assert_eq!(as_f64(busy_of(pct)) as f32, expected, "{} of {}", idle, total);
            }
        }
    }
    assert_eq!(as_f64(busy_of(Binary { mant: 0, exp: 0 })), 100.0);
}

#[test]
fn means_round_as_single_precision_does() {
    let mut x: u64 = 3;
    for n in 1..400usize {
        let mut loads: Vec<u8> = Vec::new();
        for _ in 0..n {
            x = x.wrapping_mul(6364136223846793005).wrapping_add(1442695040888963407);
            loads.push((x >> 56) as u8);
        }
        let expected = loads.iter().map(|&x| x as f32).sum::<f32>() / loads.len() as f32;
        assert_eq!(as_f64(mean_of(&loads)) as f32, expected);
    }
    let many = vec![255u8; 200_000];
    let expected = many.iter().map(|&x| x as f32).sum::<f32>() / many.len() as f32;
    assert_eq!(as_f64(mean_of(&many)) as f32, expected);
    assert_eq!(as_f64(mean_of(&vec![0, 50, 100])), 50.0);
}

#[test]
fn bars_fill_as_single_precision_does() {
    let mut x: u64 = 11;
    for i in 0..50_000u32 {
        x = x.wrapping_mul(6364136223846793005).wrapping_add(1442695040888963407);
        let v = if i < 2000 { i as f32 / 16.0 } else { (x >> 40) as f32 / 160_000.0 };
        for width in [20u16, 30, 35] {
            let expected = ((v / 100.0) * width as f32) as usize;
            let got = filled_cells(v.to_bits(), width);
            if expected <= width as usize {
                assert_eq!(got, Some(expected as u16), "{}", v);
            } else {
                assert_eq!(got, None, "{}", v);
            }
        }
    }
    assert_eq!(filled_cells(f32::NAN.to_bits(), 35), Some(0));
    assert_eq!(filled_cells((-3.0f32).to_bits(), 35), Some(0));
    assert_eq!(filled_cells(f32::NEG_INFINITY.to_bits(), 35), Some(0));
    assert_eq!(filled_cells(f32::INFINITY.to_bits(), 35), None);
    assert_eq!(filled_cells(f32::MAX.to_bits(), 35), None);
    assert_eq!(filled_cells(100.0f32.to_bits(), 35), Some(35));
}

#[test]
fn loads_of_cores_fill_as_single_precision_does() {
    for load in 0..=255u8 {
        let expected = ((load as f32 / 100.0) * 20.0) as u16;
        assert_eq!(load_cells_of(load), if expected <= 20 { Some(expected) } else { None });
    }
}

#[test]
fn shares_never_overflow_a_bar() {
    for total in [1u64, 3, 7, 99, 1_000_003, u64::MAX] {
        for k in 0..50u64 {
            let part = total - (total / 50).wrapping_mul(k).min(total);
            assert!(cells_of(share_of(part, total, SINGLE), 30) <= 30);
        }
        assert_eq!(cells_of(share_of(total, total, SINGLE), 30), 30);
    }
}

#[test]
fn bars_have_filled_and_empty_cells() {
    assert_eq!(string_of(&bar_of(3, 5)), "███░░");
    assert_eq!(string_of(&bar_of(0, 2)), "░░");
    assert_eq!(string_of(&bar_of(2, 2)), "██");
}

fn sparkline_in_single_precision(data: &[f32], max_value: f32) -> String {
    let blocks = ['▁', '▂', '▃', '▄', '▅', '▆', '▇', '█'];
    data.iter()
        .map(|&value| {
            let normalized = if max_value > 0.0 { (value / max_value).clamp(0.0, 1.0) } else { 0.0 };
            let index = ((normalized * (blocks.len() - 1) as f32).round() as usize).min(blocks.len() - 1);
            blocks[index]
        })
        .collect()
}

fn patterns(values: &[f32]) -> VecDeque<u32> {
    values.iter().map(|v| v.to_bits()).collect()
}

#[test]
fn sparklines_agree_with_single_precision() {
    let mut data: Vec<f32> = vec![0.0, 7.142857, 7.1428576, 50.0, 99.9, 100.0, 250.0, 1e-30, 1e30];
    data.extend([-0.0, -5.0, -1e-45, 1e-45, 2e-45, 1e-39, f32::MAX, f32::MIN, f32::NAN]);
    data.extend([f32::INFINITY, f32::NEG_INFINITY, f32::MIN_POSITIVE]);
    let mut x: u64 = 5;
    for _ in 0..20_000 {
        x = x.wrapping_mul(6364136223846793005).wrapping_add(1442695040888963407);
        data.push((x >> 40) as f32 / 150_000.0);
        data.push(f32::from_bits((x >> 32) as u32));
    }
    for k in 0..8 {
        data.push((k as f32 + 0.5) * 100.0 / 7.0);
    }
    let history = patterns(&data);
    let mut greatest = vec![100.0f32, 64.0, 33.3, 0.0, -0.0, -100.0, 1e-45, 3e-45, 1e-38, f32::MAX];
    greatest.extend([f32::INFINITY, f32::NEG_INFINITY, f32::NAN]);
    for max in greatest {
        assert_eq!(
            render_sparkline(&history, max.to_bits()),
            sparkline_in_single_precision(&data, max)
        );
    }
}

#[test]
fn sparklines_show_each_value() {
    let full = 100.0f32.to_bits();
    assert_eq!(render_sparkline(&patterns(&[0.0, 50.0, 100.0]), full), "▁▅█");
    assert_eq!(render_sparkline(&patterns(&[0.0, 50.0, 100.0, 250.0, -5.0]), full), "▁▅██▁");
    assert_eq!(render_sparkline(&patterns(&[f32::INFINITY, f32::NAN, f32::NEG_INFINITY]), full), "█▁▁");
    assert_eq!(render_sparkline(&VecDeque::new(), full), "");
}

#[test]
fn sparklines_follow_the_order_of_values() {
    let mut values: Vec<f32> = vec![-1e30, -1.0, -0.0, 0.0, 1e-45, 1e-40, f32::INFINITY];
    values.extend((0..500).map(|k| k as f32 / 3.0));
    values.sort_by(|a, b| a.partial_cmp(b).unwrap());
    for max in [1e-45f32, 1e-40, 20.5, 100.0, 1e30] {
        let line: Vec<char> = render_sparkline(&patterns(&values), max.to_bits()).chars().collect();
        assert_eq!(line.len(), values.len());
        assert!(line.iter().all(|c| ('▁'..='█').contains(c)));
        assert!(line.windows(2).all(|w| w[0] <= w[1]));
        assert!(values.iter().zip(&line).all(|(&v, &c)| v < max || c == '█'));
    }
    for max in [0.0f32, -0.0, -3.0, f32::NEG_INFINITY] {
        let line = render_sparkline(&patterns(&values), max.to_bits());
        assert!(line.chars().all(|c| c == '▁'));
    }
}

#[test]
fn larger_values_are_shown_no_lower() {
    let mut bars = 0u16;
    let mut blocks = '▁';
    for k in 0..2000u32 {
        let v = k as f32 / 20.0;
        let filled = filled_cells(v.to_bits(), 35).unwrap();
        assert!(filled >= bars);
        bars = filled;
        let line = render_sparkline(&patterns(&[v]), 100.0f32.to_bits());
        let block = line.chars().next().unwrap();
        assert!(block >= blocks);
        blocks = block;
    }
}
