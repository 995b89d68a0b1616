use rktop::sysinfo_ext::{
    get_cpu_stats, get_process_user, get_zram_info, read_proc_stat, thread_group_leaders,
    user_is_known, CpuStats, ProcStat, UserCache, ZramInfo,
};

#[test]
fn zram_state_needs_four_numbers() {
    let z = get_zram_info(Some("4096000 1024000 1200000 0 2000 1 2 3 4\n")).unwrap();
    assert_eq!(
        z,
        ZramInfo { orig_data_size: 4096000, compr_data_size: 1024000, used: 1200000, limit: 0 }
    );
    assert_eq!(get_zram_info(Some("1 2 3")), None);
    assert_eq!(get_zram_info(Some("1 2 3 x")), None);
    assert_eq!(get_zram_info(Some("x 2 3 4")), None);
    assert_eq!(get_zram_info(None), None);
}

#[test]
fn compression_ratio_is_a_quotient() {
    for (orig, compr) in [(4096u64, 1024u64), (10, 3), (0, 5), (u64::MAX, 7), (5, 0)] {
        let z = ZramInfo { orig_data_size: orig, compr_data_size: compr, used: 0, limit: 0 };
        let r = z.compression_ratio();
        let expected = if compr > 0 { orig as f64 / compr as f64 } else { 0.0 };
        assert_eq!(r.mant as f64 * 2f64.powi(r.exp), expected);
    }
}

const STAT: &str = "cpu  100 20 30 4000 50 6 7 0 0 0\ncpu0 1 2 3 4 5 6 7 0 0 0\nintr 12345 1 2 3\n\
ctxt 67890\nbtime 1\nprocesses 99\nprocs_running 3\nprocs_blocked 1\nsoftirq 555 1 2\n";

#[test]
fn counters_are_read_by_name() {
    assert_eq!(
        get_cpu_stats(Some(STAT)),
        CpuStats {
            context_switches: 67890,
            interrupts: 12345,
            softirqs: 555,
            user: 100,
            nice: 20,
            system: 30,
            idle: 4000,
            iowait: 50,
            irq: 6,
            softirq: 7,
            running_procs: 3,
            blocked_procs: 1,
        }
    );
    assert_eq!(get_cpu_stats(None), CpuStats::default());
    assert_eq!(get_cpu_stats(Some("")), CpuStats::default());
    let short = get_cpu_stats(Some("cpu  1 2 3 4 5 6\nctxt x\nctxt \n"));
    assert_eq!(short, CpuStats::default());
    let odd = get_cpu_stats(Some("cpu  1 x 3 4 5 6 7\nctxt 5\nctxt 6 7\n"));
    assert_eq!((odd.user, odd.nice, odd.softirq, odd.context_switches), (1, 0, 7, 6));
}

fn stat(name: &str) -> String {
    let mut fields: Vec<String> = (4..=52).map(|n| n.to_string()).collect();
    fields[19 - 4] = "-5".to_string();
    fields[20 - 4] = "8".to_string();
    fields[39 - 4] = "3".to_string();
    format!("77 ({}) S {}\n", name, fields.join(" "))
}

#[test]
fn the_name_does_not_shift_the_fields() {
    let expected = ProcStat { state: 'S', nice: -5, num_threads: 8, processor: 3 };
    for name in ["bash", "tmux: server", "a) R 1 2 (b", "((", "x )))", ""] {
        assert_eq!(read_proc_stat(Some(&stat(name))), Some(expected), "{}", name);
    }
}

#[test]
fn missing_fields_have_defaults() {
    let expected = ProcStat { state: 'U', nice: 0, num_threads: 1, processor: 0 };
    assert_eq!(read_proc_stat(Some("1 (a)")), Some(expected));
    assert_eq!(read_proc_stat(Some("no parenthesis")), None);
    assert_eq!(read_proc_stat(Some("")), None);
    assert_eq!(read_proc_stat(None), None);
    let zombie = read_proc_stat(Some("1 (a) Zx 1 2")).unwrap();
    assert_eq!((zombie.state, zombie.num_threads), ('Z', 1));
}

#[test]
fn leaders_are_the_numbers_among_the_names() {
    let names: Vec<String> =
        ["1", "42", "self", "4294967295", "4294967296", "", "+7", "acpi"].iter().map(|s| s.to_string()).collect();
    let mut leaders: Vec<u32> = thread_group_leaders(&names).into_iter().collect();
    leaders.sort();
    assert_eq!(leaders, vec![1, 7, 42, u32::MAX]);
}

const PASSWD: &str = "root:x:0:0:root:/root:/bin/bash\nbroken\nrock:x:1000:1000::/home/rock:/bin/sh\n\
again:x:1000:1000::/:\n";

#[test]
fn users_are_looked_up_once() {
    let mut cache = UserCache::new();
    assert!(!user_is_known(&cache, Some("1000")));
    assert_eq!(get_process_user(&mut cache, Some("1000"), Some(PASSWD)), "rock");
    assert!(user_is_known(&cache, Some("1000")));
    assert_eq!(get_process_user(&mut cache, Some("1000"), Some("other:x:1000:")), "rock");
    assert_eq!(get_process_user(&mut cache, Some("1000"), None), "rock");
    assert_eq!(get_process_user(&mut cache, Some("0"), Some(PASSWD)), "root");
}

#[test]
fn users_without_a_name_are_shown_by_number() {
    let mut cache = UserCache::new();
    assert_eq!(get_process_user(&mut cache, Some("5"), Some(PASSWD)), "5");
    assert_eq!(get_process_user(&mut cache, Some("5"), Some("five:x:5:")), "5");
    assert_eq!(get_process_user(&mut cache, Some("6"), None), "6");
    assert_eq!(get_process_user(&mut cache, None, Some(PASSWD)), "unknown");
    assert!(user_is_known(&cache, None));
    let mut cache = UserCache::new();
    assert_eq!(get_process_user(&mut cache, Some("many"), Some(PASSWD)), "root");
}
