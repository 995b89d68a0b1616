use std::time::Duration;

use rktop::cpu_rates::{can_follow, CpuRates};
use rktop::history::{History, MAX_HISTORY};
use rktop::io_rates::{rate_of, Adapter, IoRates};
use rktop::name_table::NameTable;
use rktop::rounding::{positive_double_of, Binary};
use rktop::sysinfo_ext::CpuStats;

fn as_f64(b: Binary) -> f64 {
    b.mant as f64 * 2f64.powi(b.exp)
}

fn seconds(millis: u64) -> u64 {
    Duration::from_millis(millis).as_secs_f64().to_bits()
}

fn adapter(name: &str, received: u64, transmitted: u64) -> Adapter {
    Adapter { name: name.to_string(), received, transmitted }
}

fn f64_of(bits: u64) -> f64 {
    f64::from_bits(bits)
}

#[test]
fn names_have_one_value_each() {
    let mut table: NameTable<u64> = NameTable::new();
    assert_eq!(table.get("eth0"), None);
    table.insert("wlan0", 1);
    table.insert("eth0", 2);
    table.insert("wlan0", 3);
    table.insert("", 4);
    assert_eq!(table.get("wlan0"), Some(3));
    assert_eq!(table.get("eth0"), Some(2));
    assert_eq!(table.get("eth"), None);
    let listed: Vec<(String, u64)> = table.listed();
    assert_eq!(
        listed,
        vec![("".to_string(), 4), ("eth0".to_string(), 2), ("wlan0".to_string(), 3)]
    );
}

#[test]
fn network_rates_are_increases_per_second() {
    let mut io = IoRates::new(Vec::new());
    io.update(&vec![adapter("eth0", 1000, 500), adapter("lo", 10, 10)], seconds(2000));
    assert_eq!(f64_of(io.net_rx_rate), 505.0);
    assert_eq!(f64_of(io.net_tx_rate), 255.0);
    assert!(io.adapter_rates.listed().is_empty());
    io.update(&vec![adapter("eth0", 5000, 500), adapter("lo", 0, 20)], seconds(2500));
    assert_eq!(f64_of(io.net_rx_rate), (5000u64 - 1010) as f64 / 2.5);
    assert_eq!(f64_of(io.net_tx_rate), 10.0 / 2.5);
    assert_eq!(f64_of(io.disk_read_rate), 0.0);
    assert_eq!(f64_of(io.disk_write_rate), 0.0);
    let rates = io.adapter_rates.listed();
    assert_eq!(rates[0].0, "eth0");
    assert_eq!((f64_of(rates[0].1 .0), f64_of(rates[0].1 .1)), (4000.0 / 2.5, 0.0));
    assert_eq!((f64_of(rates[1].1 .0), f64_of(rates[1].1 .1)), (0.0, 10.0 / 2.5));
    assert_eq!((io.prev_net_rx, io.prev_net_tx), (5000, 520));
}

#[test]
fn amounts_that_were_set_back_give_no_rate() {
    let mut io = IoRates::new(Vec::new());
    io.update(&vec![adapter("eth0", 1000, 1000)], seconds(1000));
    io.update(&vec![adapter("eth0", 10, 2000)], seconds(1000));
    assert_eq!(f64_of(io.net_rx_rate), 0.0);
    assert_eq!(f64_of(io.net_tx_rate), 1000.0);
}

#[test]
fn without_time_the_rates_stay() {
    let mut io = IoRates::new(Vec::new());
    io.update(&vec![adapter("eth0", 1000, 1000)], seconds(1000));
    io.update(&vec![adapter("eth0", 5000, 6000)], 0);
    assert_eq!(f64_of(io.net_rx_rate), 1000.0);
    assert_eq!((io.prev_net_rx, io.prev_net_tx), (5000, 6000));
    assert!(io.adapter_rates.listed().is_empty());
}

#[test]
fn adapters_that_do_not_count_are_left_out() {
    let mut io = IoRates::new(vec!["eth0".to_string(), "wlan0".to_string()]);
    for k in 1..3u64 {
        io.update(
            &vec![adapter("docker0", 900 * k, 900), adapter("eth0", 100 * k, 7), adapter("lo", 5, 5)],
            seconds(1000),
        );
    }
    assert_eq!(f64_of(io.net_rx_rate), 100.0);
    let rates = io.adapter_rates.listed();
    assert_eq!(rates.len(), 1);
    assert_eq!(rates[0].0, "eth0");
    assert_eq!(io.prev_adapter_stats.get("docker0"), None);
    assert_eq!(io.prev_adapter_stats.get("eth0"), Some((200, 7)));
}

#[test]
fn rates_agree_with_double_precision() {
    let mut x: u64 = 77;
    for i in 0..5000u32 {
        x = x.wrapping_mul(6364136223846793005).wrapping_add(1442695040888963407);
        let now = x >> (i % 50);
        x = x.wrapping_mul(6364136223846793005).wrapping_add(1442695040888963407);
        let before = x >> (i % 47);
        let secs = Duration::from_nanos(x % 5_000_000_000 + 1).as_secs_f64();
        let s = positive_double_of(secs.to_bits()).unwrap();
        assert_eq!(f64_of(rate_of(now, before, s)), now.saturating_sub(before) as f64 / secs);
    }
}

fn stats(k: u64) -> CpuStats {
    CpuStats {
        context_switches: 10_000 * k,
        interrupts: 5_001 * k,
        softirqs: 7 * k,
        user: 30 * k,
        nice: 10 * k,
        system: 15 * k,
        idle: 900 * k,
        iowait: 40 * k,
        irq: 2 * k,
        softirq: 3 * k,
        running_procs: k,
        blocked_procs: 2 * k,
    }
}

#[test]
fn counters_give_rates_after_a_second() {
    let mut cpu = CpuRates::new();
    assert!(!cpu.update(stats(1), seconds(999)));
    assert_eq!((cpu.ctx_switches_rate, cpu.prev.user, cpu.running_procs), (0, 0, 0));
    assert!(cpu.update(stats(1), seconds(1000)));
    assert_eq!((cpu.ctx_switches_rate, cpu.interrupts_rate, cpu.softirqs_rate), (10_000, 5_001, 7));
    assert!(cpu.update(stats(3), seconds(1300)));
    assert_eq!(cpu.ctx_switches_rate, (20_000f64 / 1.3) as u64);
    assert_eq!(cpu.interrupts_rate, (10_002f64 / 1.3) as u64);
    assert_eq!(cpu.softirqs_rate, (14f64 / 1.3) as u64);
    assert_eq!((cpu.running_procs, cpu.blocked_procs), (3, 6));
    assert_eq!(cpu.prev, stats(3));
    assert!(!cpu.update(stats(4), 0));
}

#[test]
fn times_are_shared_in_percent() {
    let mut cpu = CpuRates::new();
    cpu.update(stats(1), seconds(1000));
    assert_eq!(as_f64(cpu.user_pct), (40f64 / 1000f64) * 100.0);
    assert_eq!(as_f64(cpu.system_pct), (20f64 / 1000f64) * 100.0);
    assert_eq!(as_f64(cpu.iowait_pct), (40f64 / 1000f64) * 100.0);
    assert_eq!(as_f64(cpu.idle_pct), (900f64 / 1000f64) * 100.0);
    assert_eq!(f32::from_bits(cpu.total_cpu()), 100.0f32 - 90.0f32);
    let same = CpuStats { context_switches: 20_000, running_procs: 9, ..stats(1) };
    assert!(cpu.update(same, seconds(2000)));
    assert_eq!(as_f64(cpu.idle_pct), (900f64 / 1000f64) * 100.0);
    assert_eq!((cpu.ctx_switches_rate, cpu.running_procs), (5_000, 9));
}

#[test]
fn a_minute_of_history_is_kept() {
    let mut h = History::new();
    for k in 0..75u8 {
        let v = f32::from(k).to_bits();
        h.update(v, if k % 2 == 0 { Some(v) } else { None }, &vec![k, k + 2]);
    }
    assert_eq!(h.cpu.len(), MAX_HISTORY);
    assert_eq!(f32::from_bits(h.cpu[0]), 15.0);
    assert_eq!(f32::from_bits(h.cpu[59]), 74.0);
    assert_eq!(h.gpu.len(), 38);
    assert_eq!(f32::from_bits(h.gpu[37]), 74.0);
    assert_eq!(h.npu.len(), 60);
    assert_eq!(f32::from_bits(h.npu[59]), 75.0);
    h.update((-1.5f32).to_bits(), None, &Vec::new());
    assert_eq!((h.gpu.len(), f32::from_bits(h.npu[59])), (38, 75.0));
    assert_eq!((f32::from_bits(h.cpu[58]), f32::from_bits(h.cpu[59])), (74.0, -1.5));
    h.update(f32::NAN.to_bits(), Some(f32::INFINITY.to_bits()), &vec![0, 0, 1]);
    assert!(f32::from_bits(h.cpu[59]).is_nan());
    assert_eq!(f32::from_bits(h.gpu[38]), f32::INFINITY);
    assert_eq!(f32::from_bits(h.npu[59]), 1.0f32 / 3.0f32);
}

#[test]
fn a_history_is_the_last_of_its_values() {
    for n in [0usize, 1, 59, 60, 61, 150] {
        let mut h = History::new();
        let cpu: Vec<u32> = (0..n).map(|k| (k as f32).to_bits()).collect();
        let gpu: Vec<Option<u32>> = (0..n).map(|k| if k % 3 == 0 { None } else { Some(k as u32) }).collect();
        for k in 0..n {
            h.update(cpu[k], gpu[k], &vec![0; k % 2]);
        }
        let given: Vec<u32> = gpu.into_iter().flatten().collect();
        let last = |v: &[u32]| v[v.len() - v.len().min(MAX_HISTORY)..].to_vec();
        assert_eq!(h.cpu.iter().copied().collect::<Vec<u32>>(), last(&cpu));
        assert_eq!(h.gpu.iter().copied().collect::<Vec<u32>>(), last(&given));
        assert_eq!(h.npu.len(), (n / 2).min(MAX_HISTORY));
    }
}

#[test]
fn counters_must_not_go_back() {
    assert!(can_follow(&stats(2), &stats(1)));
    assert!(can_follow(&stats(1), &stats(1)));
    assert!(!can_follow(&stats(1), &stats(2)));
    assert!(!can_follow(&CpuStats { irq: 1, ..stats(2) }, &stats(1)));
    let far = CpuStats { user: u64::MAX, idle: u64::MAX, ..stats(2) };
    assert!(!can_follow(&far, &stats(1)));
    let near = CpuStats { user: u64::MAX, ..CpuStats::default() };
    assert!(can_follow(&near, &CpuStats::default()));
}

#[test]
fn amounts_must_have_a_sum() {
    let list = vec![adapter("a", u64::MAX, 1), adapter("b", 1, 1)];
    assert!(!IoRates::new(Vec::new()).can_take(&list));
    assert!(IoRates::new(vec!["a".to_string()]).can_take(&list));
    assert!(IoRates::new(vec!["b".to_string()]).can_take(&list));
    assert!(!IoRates::new(Vec::new()).can_take(&vec![adapter("a", 0, u64::MAX), adapter("b", 0, 1)]));
}
