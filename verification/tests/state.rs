use std::time::Duration;

use rktop::controls::{Controls, KeyPress};
use rktop::io_rates::Adapter;
use rktop::process::ProcessSortMode;
use rktop::state::{stats_due, AppState, Due, RefreshConfig, Since, Startup, SystemStats};
use rktop::sysinfo_ext::CpuStats;

fn press(c: &mut Controls, keys: &str) {
    for k in keys.chars() {
        assert!(!c.press(KeyPress::Char(k)));
    }
}

#[test]
fn letters_choose_the_order() {
    let mut c = Controls::new();
    assert_eq!(c.process_sort_mode, ProcessSortMode::CpuDesc);
    for (key, first, second) in [
        ('c', ProcessSortMode::CpuAsc, ProcessSortMode::CpuDesc),
        ('M', ProcessSortMode::MemoryDesc, ProcessSortMode::MemoryAsc),
        ('p', ProcessSortMode::PidAsc, ProcessSortMode::PidDesc),
        ('N', ProcessSortMode::NameAsc, ProcessSortMode::NameDesc),
        ('C', ProcessSortMode::CpuDesc, ProcessSortMode::CpuAsc),
        ('m', ProcessSortMode::MemoryDesc, ProcessSortMode::MemoryAsc),
        ('P', ProcessSortMode::PidAsc, ProcessSortMode::PidDesc),
        ('n', ProcessSortMode::NameAsc, ProcessSortMode::NameDesc),
    ] {
        for mode in [first, second, first] {
            c.press(KeyPress::Char(key));
            assert_eq!(c.process_sort_mode, mode);
        }
    }
}

#[test]
fn filters_are_typed_kept_and_dropped() {
    let mut c = Controls::new();
    press(&mut c, "/sshq");
    assert!(c.filter_mode);
    assert_eq!(c.filter_text, "sshq");
    c.press(KeyPress::Backspace);
    assert_eq!(c.filter_text, "ssh");
    c.press(KeyPress::Other);
    c.press(KeyPress::Enter);
    assert_eq!((c.filter_mode, c.filter_text.as_str()), (false, "ssh"));
    c.press(KeyPress::Backspace);
    c.press(KeyPress::Enter);
    assert_eq!(c.filter_text, "ssh");
    assert!(c.press(KeyPress::Esc));
    assert_eq!(c.filter_text, "");
    press(&mut c, "/äb");
    assert!(!c.press(KeyPress::Esc));
    assert_eq!((c.filter_mode, c.filter_text.as_str()), (false, ""));
    press(&mut c, "/");
    c.press(KeyPress::Backspace);
    assert_eq!((c.filter_mode, c.filter_text.as_str()), (true, ""));
    press(&mut c, "/c");
    assert_eq!((c.filter_text.as_str(), c.process_sort_mode), ("/c", ProcessSortMode::CpuDesc));
}

#[test]
fn a_letter_and_backspace_leave_the_filter() {
    let mut c = Controls::new();
    press(&mut c, "/ab");
    press(&mut c, "c");
    c.press(KeyPress::Backspace);
    assert_eq!((c.filter_mode, c.filter_text.as_str()), (true, "ab"));
}

#[test]
fn quitting_works_outside_the_filter_only() {
    let mut c = Controls::new();
    assert!(c.press(KeyPress::Char('q')));
    assert!(c.press(KeyPress::Char('Q')));
    assert!(!c.press(KeyPress::Char('x')));
    assert!(!c.press(KeyPress::Char('/')));
    assert!(!c.press(KeyPress::Char('q')));
    assert_eq!(c.filter_text, "q");
}

#[test]
fn escape_leaves_the_filter_first() {
    let mut c = Controls::new();
    press(&mut c, "/q");
    assert!(!c.press(KeyPress::Esc));
    assert!(c.press(KeyPress::Esc));
    assert!(Controls::new().press(KeyPress::Esc));
    let mut state = AppState::new(startup()).unwrap();
    assert!(state.press(KeyPress::Esc));
}

#[test]
fn readings_are_due_in_their_intervals() {
    let config = RefreshConfig::default();
    assert_eq!(config, RefreshConfig { cpu_memory: 1, network_disk: 2, processes: 3, stats: 5 });
    let none = Since { cpu_memory: 0, network_disk: 1, processes: 1, render: 0 };
    let due = |cpu_memory, network_disk, processes, render| Due {
        cpu_memory,
        network_disk,
        processes,
        render,
    };
    assert_eq!(config.due(none), due(false, false, false, false));
    assert_eq!(config.due(Since { cpu_memory: 1, ..none }), due(true, false, false, true));
    assert_eq!(config.due(Since { render: 1, ..none }), due(false, false, false, true));
    assert_eq!(config.due(Since { network_disk: 2, ..none }), due(false, true, false, false));
    assert_eq!(config.due(Since { processes: 2, ..none }), due(false, false, false, false));
    assert_eq!(config.due(Since { processes: 3, ..none }), due(false, false, true, false));
}

const TCP: &str = "  sl  local_address rem_address   st tx_queue 01 \n\
   0: 0100007F:0CEA 00000000:0000 01 00000000:00000000\n\
   1: 00000000:0016 00000000:0000 01 00000000:00000000\n\
   2: 0A01A8C0:0016 0201A8C0:D431 01 00000000:00000000\n\
   3: 0A01A8C0:0017 0201A8C0:D432 0A 00000000:00000000\n\
   4: 0A01A8C0:0018 0201A8C0:D433 01 00000000:00000000\n";

const TCP6: &str = "  sl  local_address\n\
   0: 00000000000000000000000001000000:0CEA X 01 Y\n\
   1: 00000000000000000000000000000000:0CEA X 01 Y\n\
   2: 00000000000000000000000002000000:0CEA X 01 Y\n\
   3: 0000000000000000FFFF00000100007F:1F90 0000000000000000FFFF00000100007F:A000 01 x\n\
 01 \n";

#[test]
fn established_connections_are_counted() {
    let mut s = SystemStats::new();
    assert!(!s.update(Some("performance\n"), Some(TCP), Some(TCP6), 4));
    assert_eq!((s.cpu_governor.as_str(), s.tcp_connections), ("", 0));
    assert!(s.update(Some("performance\n"), Some(TCP), Some(TCP6), 5));
    assert_eq!((s.cpu_governor.as_str(), s.tcp_connections), ("performance", 3));
    assert!(s.update(None, None, Some(TCP6), 6));
    assert_eq!((s.cpu_governor.as_str(), s.tcp_connections), ("N/A", 1));
    assert!(s.update(Some(""), Some(""), None, 60));
    assert_eq!((s.cpu_governor.as_str(), s.tcp_connections), ("", 0));
    assert!(stats_due(5) && !stats_due(4));
}

#[test]
fn connections_on_the_same_machine_are_left_out() {
    let mapped = "h\n0: 0000000000000000FFFF00000100007F:1F90 0000000000000000FFFF00000100007F:A000 01 x";
    let mut state = AppState::new(startup()).unwrap();
    assert!(state.update_stats(None, Some("h"), Some(mapped), 5));
    assert_eq!(state.stats.tcp_connections, 0);
    let outside = "h\n0: 0000000000000000FFFF00000A01A8C0:1F90 0000000000000000FFFF00000201A8C0:A000 01 x";
    assert!(state.update_stats(None, Some("h"), Some(outside), 5));
    assert_eq!(state.stats.tcp_connections, 1);
}

fn startup() -> Startup {
    let some = |s: &str| Some(s.to_string());
    Startup {
        model_files: vec![Some(b"Rockchip RK3588 Board\0".to_vec()), None],
        cpu_arch: "aarch64".to_string(),
        npu_version: some("RKNPU driver: v0.9.8\n"),
        rga_version: None,
        rknn_library: None,
        rkllm_library: Some(b"text".to_vec()),
        gpu: some("busy_time: 1 idle_time: 3"),
        npu_load: some("NPU load:  Core0:  0%,"),
        rga_entries: vec![("rga3_0".to_string(), "x".to_string())],
        rga_loads: vec![None],
        frequencies: vec![("408000\n".to_string(), "1800000\n".to_string())],
        network_adapters: vec!["eth0".to_string()],
    }
}

#[test]
fn the_state_begins_with_what_the_files_tell() {
    let state = AppState::new(startup()).unwrap();
    let id = &state.identity;
    assert_eq!((id.board_name.as_str(), id.rk_model.as_str()), ("Rockchip RK3588 Board", "RK3588"));
    assert_eq!((id.npu_version.as_str(), id.rga_version.as_str()), ("v0.9.8", "Not Detected"));
    assert_eq!((id.rknn_version.as_str(), id.rkllm_version.as_str()), ("Not Detected", "Not Detected"));
    assert_eq!((id.has_gpu, id.has_npu, id.has_rga), (true, true, false));
    assert_eq!(id.cpu_freq_ranges, vec![(408, 1800)]);
    assert_eq!(id.cpu_arch, "aarch64");
    assert_eq!(state.controls.process_sort_mode, ProcessSortMode::CpuDesc);
    assert_eq!((state.stats.cpu_governor.as_str(), state.stats.tcp_connections), ("", 0));
    assert!(state.history.cpu.is_empty());
    assert_eq!(state.cpu.prev, CpuStats::default());
}

#[test]
fn the_state_is_brought_up_to_date() {
    let mut state = AppState::new(startup()).unwrap();
    let second = Duration::from_secs(1).as_secs_f64().to_bits();
    let now = CpuStats { user: 25, idle: 75, context_switches: 9, ..CpuStats::default() };
    assert!(state.update_cpu_stats(now, second));
    assert!(!state.update_stats(None, None, None, 1));
    let total = state.cpu.total_cpu();
    assert_eq!(f32::from_bits(total), 25.0);
    state.update_history(total, Some(30.0f32.to_bits()), &vec![10, 20]);
    assert_eq!(f32::from_bits(state.history.npu[0]), 15.0);
    assert_eq!((state.history.cpu.len(), state.history.gpu.len(), state.history.npu.len()), (1, 1, 1));
    let list = vec![Adapter { name: "eth0".to_string(), received: 8, transmitted: 2 }];
    state.update_io_rates(&list, second);
    assert_eq!((state.io.prev_net_rx, state.io.prev_net_tx), (8, 2));
    assert!(!state.press(KeyPress::Char('n')));
    assert_eq!(state.controls.process_sort_mode, ProcessSortMode::NameAsc);
    assert_eq!(state.cpu.ctx_switches_rate, 9);
    assert!(state.press(KeyPress::Char('q')));
}
