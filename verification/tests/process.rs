use std::collections::HashSet;

use rktop::order::{order_by, Key};
use rktop::process::{
    get_top_processes, memory_usage, process_info, select_top, ProcessSample, ProcessSortMode,
};
use rktop::text::chars_of;

fn sample(pid: u32, name: &str, cpu: f32, mem: f32) -> ProcessSample {
    ProcessSample {
        pid,
        name: name.to_string(),
        cpu: cpu.to_bits(),
        mem: mem.to_bits(),
        runtime: 60 + pid as u64,
        parent: None,
    }
}

fn samples() -> Vec<ProcessSample> {
    vec![
        sample(10, "beta", 5.0, 1.0),
        sample(3, "Alpha", 80.0, 2.0),
        sample(7, "alpha", 0.0, 2.0),
        sample(1, "ßeta", 5.0, 0.5),
        sample(4, "ALP", 5.0, 9.0),
    ]
}

fn pids(count: usize, mode: ProcessSortMode) -> Vec<u32> {
    let all = samples();
    select_top(&all, count, mode).iter().map(|&i| all[i].pid).collect()
}

#[test]
fn processes_are_ordered_by_the_mode() {
    assert_eq!(pids(9, ProcessSortMode::CpuDesc), vec![3, 10, 1, 4, 7]);
    assert_eq!(pids(9, ProcessSortMode::CpuAsc), vec![7, 10, 1, 4, 3]);
    assert_eq!(pids(9, ProcessSortMode::MemoryDesc), vec![4, 3, 7, 10, 1]);
    assert_eq!(pids(9, ProcessSortMode::MemoryAsc), vec![1, 10, 3, 7, 4]);
    assert_eq!(pids(9, ProcessSortMode::PidAsc), vec![1, 3, 4, 7, 10]);
    assert_eq!(pids(9, ProcessSortMode::PidDesc), vec![10, 7, 4, 3, 1]);
    assert_eq!(pids(9, ProcessSortMode::NameAsc), vec![4, 3, 7, 10, 1]);
    assert_eq!(pids(9, ProcessSortMode::NameDesc), vec![1, 10, 3, 7, 4]);
}

#[test]
fn only_the_first_are_taken() {
    assert_eq!(pids(2, ProcessSortMode::CpuDesc), vec![3, 10]);
    assert_eq!(pids(0, ProcessSortMode::CpuDesc), Vec::<u32>::new());
    assert_eq!(select_top(&Vec::new(), 5, ProcessSortMode::PidAsc), Vec::<usize>::new());
}

#[test]
fn orders_are_stable_and_agree_with_sorting() {
    let mut x: u64 = 9;
    for n in [0usize, 1, 2, 3, 17, 100, 1000] {
        let mut values: Vec<i64> = Vec::new();
        for _ in 0..n {
            x = x.wrapping_mul(6364136223846793005).wrapping_add(1442695040888963407);
            values.push((x >> 60) as i64 - 8);
        }
        let keys: Vec<Key> = values.iter().map(|&v| Key::Number(Some(v))).collect();
        let mut rising: Vec<usize> = (0..n).collect();
        rising.sort_by(|&a, &b| values[a].cmp(&values[b]));
        assert_eq!(order_by(&keys, false), rising);
        let mut sinking: Vec<usize> = (0..n).collect();
        sinking.sort_by(|&a, &b| values[b].cmp(&values[a]));
        assert_eq!(order_by(&keys, true), sinking);
    }
    let words = ["b", "", "ab", "a", "ü", "z", "aa", "\u{10000}", "\u{ffff}"];
    let keys: Vec<Key> = words.iter().map(|w| Key::Text(chars_of(w))).collect();
    let mut expected: Vec<usize> = (0..words.len()).collect();
    expected.sort_by(|&a, &b| words[a].cmp(words[b]));
    assert_eq!(order_by(&keys, false), expected);
}

#[test]
fn what_is_no_number_does_not_stop_the_order() {
    let all = vec![sample(1, "a", f32::NAN, 0.0), sample(2, "b", 1.0, 0.0), sample(3, "c", f32::NAN, 0.0)];
    let mut order = select_top(&all, 3, ProcessSortMode::CpuDesc);
    order.sort();
    assert_eq!(order, vec![0, 1, 2]);
}

fn stat() -> Option<String> {
    let mut fields: Vec<String> = (4..=52).map(|n| n.to_string()).collect();
    fields[19 - 4] = "-5".to_string();
    fields[20 - 4] = "8".to_string();
    fields[39 - 4] = "3".to_string();
    Some(format!("77 (x) S {}\n", fields.join(" ")))
}

#[test]
fn details_come_from_the_state_file() {
    let leaders: HashSet<u32> = [7].into_iter().collect();
    let text = stat();
    let p = process_info(&sample(7, "x", 1.0, 2.0), "rock", text.as_deref(), &leaders);
    assert_eq!((p.pid, p.name.as_str(), p.user.as_str(), p.runtime), (7, "x", "rock", 67));
    assert_eq!((p.nice, p.cpu_core, p.num_threads, p.state), (-5, 3, 8, 'S'));
    assert_eq!((p.cpu, p.mem), (1.0f32.to_bits(), 2.0f32.to_bits()));
    assert_eq!((p.is_thread, p.thread_group_id), (false, 7));
    let p = process_info(&sample(7, "x", 1.0, 2.0), "rock", None, &leaders);
    assert_eq!((p.nice, p.cpu_core, p.num_threads, p.state), (0, 0, 1, 'U'));
}

#[test]
fn threads_belong_to_their_parents() {
    let leaders: HashSet<u32> = [7].into_iter().collect();
    let with_parent = |pid: u32, parent: Option<u32>| ProcessSample {
        parent,
        ..sample(pid, "t", 0.0, 0.0)
    };
    let p = process_info(&with_parent(7, Some(1)), "u", None, &leaders);
    assert_eq!((p.is_thread, p.thread_group_id), (false, 7));
    let p = process_info(&with_parent(8, Some(7)), "u", None, &leaders);
    assert_eq!((p.is_thread, p.thread_group_id), (true, 7));
    let p = process_info(&with_parent(8, None), "u", None, &leaders);
    assert_eq!((p.is_thread, p.thread_group_id), (false, 8));
}

#[test]
fn the_first_may_be_taken_out_beforehand() {
    let all = samples();
    let users: Vec<String> = all.iter().map(|s| format!("u{}", s.pid)).collect();
    let stats: Vec<Option<String>> = all.iter().map(|_| stat()).collect();
    let leaders: HashSet<u32> = all.iter().map(|s| s.pid).collect();
    for mode in [ProcessSortMode::CpuDesc, ProcessSortMode::NameAsc, ProcessSortMode::MemoryAsc] {
        let at = select_top(&all, 3, mode);
        let first: Vec<ProcessSample> = at
            .iter()
            .map(|&i| ProcessSample {
                pid: all[i].pid,
                name: all[i].name.clone(),
                cpu: all[i].cpu,
                mem: all[i].mem,
                runtime: all[i].runtime,
                parent: all[i].parent,
            })
            .collect();
        let some_users: Vec<String> = at.iter().map(|&i| users[i].clone()).collect();
        let some_stats: Vec<Option<String>> = at.iter().map(|&i| stats[i].clone()).collect();
        let direct = get_top_processes(&all, 3, mode, &users, &stats, &leaders);
        let staged = get_top_processes(&first, 3, mode, &some_users, &some_stats, &leaders);
        assert_eq!(format!("{:?}", direct), format!("{:?}", staged));
        assert_eq!(direct.len(), 3);
    }
}

#[test]
fn memory_shares_agree_with_single_precision() {
    let mut x: u64 = 1;
    for i in 0..20_000u32 {
        x = x.wrapping_mul(6364136223846793005).wrapping_add(1442695040888963407);
        let memory = x >> (i % 64);
        x = x.wrapping_mul(6364136223846793005).wrapping_add(1442695040888963407);
        let total = (x >> (i % 61)).max(1);
        let expected = memory as f32 / total as f32 * 100.0;
        assert_eq!(f32::from_bits(memory_usage(memory, total)), expected, "{} {}", memory, total);
    }
    assert!(f32::from_bits(memory_usage(0, 0)).is_nan());
    assert_eq!(f32::from_bits(memory_usage(5, 0)), f32::INFINITY);
    assert_eq!(f32::from_bits(memory_usage(0, 5)), 0.0);
}
