use std::collections::VecDeque;
use std::time::Duration;

use rktop::controls::{Controls, KeyPress};
use rktop::cpu_rates::CpuRates;
use rktop::info_panels::{
    render_help_text, render_io_panel, render_stats_panel, render_system_panel,
    render_temperature_panel,
};
use rktop::io_rates::{Adapter, IoRates};
use rktop::panels::{
    render_cpu_panel, render_gpu_panel, render_memory_panel, render_npu_panel, render_rga_panel,
};
use rktop::screen::{Body, Color, Extent, Panel, Span, Table};
use rktop::state::{Identity, SystemStats};
use rktop::sysinfo_ext::{CpuStats, ZramInfo};

fn lines(panel: &Panel) -> Vec<String> {
    match &panel.body {
        Body::Lines(lines) => {
            lines.iter().map(|l| l.iter().map(|s| s.text.as_str()).collect()).collect()
        }
        Body::Table(_) => panic!("no lines"),
    }
}

fn colors(panel: &Panel, line: usize) -> Vec<Option<Color>> {
    match &panel.body {
        Body::Lines(lines) => lines[line].iter().map(|s| s.style.color).collect(),
        Body::Table(_) => panic!("no lines"),
    }
}

fn table(panel: Panel) -> Table {
    match panel.body {
        Body::Table(t) => t,
        Body::Lines(_) => panic!("no table"),
    }
}

fn history(values: &[u16]) -> VecDeque<u32> {
    values.iter().map(|&v| f32::from(v).to_bits()).collect()
}

fn cpu_rates() -> CpuRates {
    let mut cpu = CpuRates::new();
    let now = CpuStats {
        context_switches: 12_345,
        interrupts: 999,
        softirqs: 2_500_000,
        user: 20,
        nice: 5,
        system: 10,
        idle: 60,
        iowait: 5,
        running_procs: 2,
        blocked_procs: 1,
        ..CpuStats::default()
    };
    cpu.update(now, Duration::from_secs(1).as_secs_f64().to_bits());
    cpu
}

#[test]
fn the_processors_have_a_line_each() {
    let usages: Vec<u32> = [0.0f32, 50.0, 99.5, 100.0].iter().map(|v| v.to_bits()).collect();
    let panel = render_cpu_panel(
        62.375f32.to_bits(),
        &usages,
        &vec![408, 1800, 2256],
        &cpu_rates(),
        &history(&[0, 100]),
        &vec![(408, 1800), (408, 2256)],
    );
    assert_eq!((panel.title.as_str(), panel.border), ("CPU", Color::Cyan));
    let bar = |n: usize| "█".repeat(n) + &"░".repeat(35 - n);
    assert_eq!(
        lines(&panel),
        vec![
            "Total CPU: 62.4%".to_string(),
            "History:   ▁█".to_string(),
            format!("CPU 0 {}   0%  408 MHz", bar(0)),
            format!("CPU 1 {}  50% 1800 MHz", bar(17)),
            format!("CPU 2 {} 100% 2256 MHz", bar(34)),
            format!("CPU 3 {} 100%    0 MHz", bar(35)),
            "".to_string(),
            "User: 25.0%  System: 10.0%  IOWait: 5.0%  Idle: 60.0%".to_string(),
            "Freq ranges: 408-1800 MHz, 408-2256 MHz".to_string(),
            "".to_string(),
            "Running: 2  Blocked: 1".to_string(),
            "Ctx switches: 12.3K/s".to_string(),
            "Interrupts:   999/s".to_string(),
            "Softirqs:     2.5M/s".to_string(),
        ]
    );
    assert_eq!(colors(&panel, 2), vec![None, Some(Color::Cyan), None]);
    assert_eq!(colors(&panel, 6), Vec::<Option<Color>>::new());
}

#[test]
fn processors_without_history_or_ranges_have_fewer_lines() {
    let panel = render_cpu_panel(
        f32::NAN.to_bits(),
        &Vec::new(),
        &Vec::new(),
        &CpuRates::new(),
        &VecDeque::new(),
        &Vec::new(),
    );
    assert_eq!(
        lines(&panel),
        vec![
            "Total CPU: NaN%",
            "",
            "User: 0.0%  System: 0.0%  IOWait: 0.0%  Idle: 0.0%",
            "",
            "Running: 0  Blocked: 0",
            "Ctx switches: 0/s",
            "Interrupts:   0/s",
            "Softirqs:     0/s",
        ]
    );
}

#[test]
fn memory_is_shown_in_bytes_and_percent() {
    let gb: u64 = 1 << 30;
    let zram = ZramInfo { orig_data_size: 3 * gb, compr_data_size: gb, used: gb, limit: 4 * gb };
    let panel = render_memory_panel(16 * gb, 4 * gb, 12 * gb, 0, 0, Some(zram));
    assert_eq!((panel.title.as_str(), panel.border), ("Memory", Color::Cyan));
    let full = "█".repeat(20);
    assert_eq!(
        lines(&panel),
        vec![
            "Total: 16.0 GB  Free: 12.0 GB  Used: 4.0 GB".to_string(),
            "".to_string(),
            format!("RAM  {}  25% | 4.0 GB / 16.0 GB", full),
            format!("Swap {}   0% | 0.0 B / 0.0 B", full),
            format!("ZRAM {}  25% | 1.0 GB / 4.0 GB (3.0x)", full),
        ]
    );
    let panel = render_memory_panel(gb, gb, 0, gb, 2 * gb, None);
    assert_eq!(lines(&panel)[2], format!("RAM  {} 100% | 1.0 GB / 1.0 GB", full));
    assert_eq!(lines(&panel)[3], format!("Swap {} 200% | 2.0 GB / 1.0 GB", "█".repeat(40)));
    assert_eq!(lines(&panel)[4], format!("ZRAM {} N/A", full));
    let empty = ZramInfo { orig_data_size: 0, compr_data_size: 0, used: 5, limit: 0 };
    let panel = render_memory_panel(gb, gb, 0, gb, gb, Some(empty));
    assert_eq!(lines(&panel)[4], format!("ZRAM {}   0% | 5.0 B / 0.0 B (N/Ax)", full));
}

#[test]
fn the_graphics_unit_shows_usage_and_history() {
    let usage = Some((1.0f32 / 3.0 * 100.0).to_bits());
    let panel = render_gpu_panel(usage, Some(300), &history(&[50])).unwrap();
    assert_eq!((panel.title.as_str(), panel.border), ("GPU", Color::Green));
    assert_eq!(
        lines(&panel),
        vec![
            format!("Mali0 {}{} 33.33% 300 MHz", "█".repeat(10), "░".repeat(20)),
            "History: ▅".to_string(),
        ]
    );
    let panel = render_gpu_panel(Some(0.0f32.to_bits()), None, &VecDeque::new()).unwrap();
    assert_eq!(lines(&panel), vec![format!("Mali0 {}  0.00%", "░".repeat(30))]);
    assert!(render_gpu_panel(None, Some(300), &VecDeque::new()).is_none());
}

#[test]
fn the_neural_unit_shows_its_cores() {
    let panel = render_npu_panel(&vec![0, 55, 100], Some(1000), &history(&[10])).unwrap();
    assert_eq!((panel.title.as_str(), panel.border), ("NPU", Color::Green));
    let bar = |n: usize| "█".repeat(n) + &"░".repeat(20 - n);
    let eleven = ((55u8 as f32 / 100.0) * 20.0) as usize;
    assert_eq!(
        lines(&panel),
        vec![
            format!("Core 0 {}   0% 1000 MHz", bar(0)),
            format!("Core 1 {}  55%", bar(eleven)),
            format!("Core 2 {} 100%", bar(20)),
            "".to_string(),
            "History: ▂".to_string(),
        ]
    );
    let panel = render_npu_panel(&vec![7], None, &VecDeque::new()).unwrap();
    assert_eq!(lines(&panel), vec![format!("Core 0 {}   7%", bar(1))]);
    assert!(render_npu_panel(&Vec::new(), None, &history(&[10])).is_none());
}

#[test]
fn the_scaler_shows_its_schedulers() {
    let loads = vec![
        ("rga3_0".to_string(), 12.5f32.to_bits()),
        ("r".to_string(), f32::NAN.to_bits()),
        ("rga2_long".to_string(), 100.0f32.to_bits()),
    ];
    let panel = render_rga_panel(&Some(loads)).unwrap();
    assert_eq!((panel.title.as_str(), panel.border), ("RGA", Color::Green));
    assert_eq!(
        lines(&panel),
        vec![
            format!("rga3_0 {}{}  12.5%", "█".repeat(2), "░".repeat(18)),
            format!("r      {}   NaN%", "░".repeat(20)),
            format!("rga2_long {} 100.0%", "█".repeat(20)),
        ]
    );
    assert!(render_rga_panel(&None).is_none());
}

#[test]
fn the_system_panel_has_two_columns() {
    let id = Identity {
        board_name: "Board X".to_string(),
        rk_model: "RK3588".to_string(),
        cpu_arch: "aarch64".to_string(),
        npu_version: "v0.9.8".to_string(),
        rga_version: "v1.3.1".to_string(),
        rknn_version: "2.3.0".to_string(),
        rkllm_version: "Not Detected".to_string(),
        has_gpu: true,
        has_npu: true,
        has_rga: true,
        cpu_freq_ranges: Vec::new(),
    };
    let panel = render_system_panel(&id, Some("rock\n"), None);
    assert_eq!((panel.title.as_str(), panel.border), ("SYS", Color::Red));
    let t = table(panel);
    assert_eq!(
        t.rows,
        vec![
            vec!["Board: Board X", "Host: rock"],
            vec!["SoC: RK3588", "Kernel: Unknown"],
            vec!["NPU Driver:    v0.9.8", "Arch: aarch64"],
            vec!["RGA Driver:    v1.3.1", ""],
            vec!["RKNN Runtime:  2.3.0", ""],
            vec!["RKLLM Runtime: Not Detected", ""],
        ]
    );
    assert_eq!(t.widths, vec![Extent::Percentage(50), Extent::Percentage(50)]);
    assert_eq!((t.spacing, t.color, t.header.len(), t.header_margin), (1, None, 0, 0));
}

#[test]
fn the_facts_have_a_line_each() {
    let mut stats = SystemStats::new();
    stats.update(Some("schedutil\n"), None, None, 9);
    let bits = |v: f64| v.to_bits();
    let panel = render_stats_panel(90061, bits(0.0), bits(1.005), bits(12.3456), 321, &stats);
    assert_eq!((panel.title.as_str(), panel.border), ("Stats", Color::White));
    assert_eq!(
        lines(&panel),
        vec![
            "Uptime:     1d 1h 1m".to_string(),
            format!("Load Avg:   {:.2} {:.2} {:.2}", 0.0, 1.005, 12.3456),
            "Governor:   schedutil".to_string(),
            "Processes:  321".to_string(),
            "TCP Conns:  0".to_string(),
        ]
    );
    let odd = [-1.005f64, f64::NAN, f64::NEG_INFINITY, f64::INFINITY, -0.0, 1e300, 5e-324];
    for v in odd {
        let panel = render_stats_panel(0, bits(v), bits(0.5), bits(v), 1, &stats);
        assert_eq!(lines(&panel)[1], format!("Load Avg:   {:.2} {:.2} {:.2}", v, 0.5, v));
    }
}

#[test]
fn rates_are_listed_by_adapter() {
    let mut io = IoRates::new(Vec::new());
    let second = Duration::from_secs(1).as_secs_f64().to_bits();
    for k in 1..3u64 {
        let list = vec![
            Adapter { name: "wlan0".to_string(), received: 1024 * k, transmitted: 0 },
            Adapter { name: "eth0".to_string(), received: 0, transmitted: 3 * 1024 * 1024 * k },
        ];
        io.update(&list, second);
    }
    let panel = render_io_panel(&io, Some((29, 100)));
    assert_eq!((panel.title.as_str(), panel.border), ("I/O", Color::Yellow));
    let t = table(panel);
    assert_eq!(
        t.rows,
        vec![
            vec!["Disk Read", "0.0 B/s"],
            vec!["Disk Write", "0.0 B/s"],
            vec!["Net RX (Tot)", "1.0 KB/s"],
            vec!["Net TX (Tot)", "3.0 MB/s"],
            vec!["Disk Space", "29.0 B / 100.0 B (28%)"],
            vec!["eth0 RX", "0.0 B/s"],
            vec!["eth0 TX", "3.0 MB/s"],
            vec!["wlan0 RX", "1.0 KB/s"],
            vec!["wlan0 TX", "0.0 B/s"],
        ]
    );
    assert_eq!((t.spacing, t.color), (2, Some(Color::Cyan)));
    assert_eq!(table(render_io_panel(&io, None)).rows.len(), 8);
    assert_eq!(table(render_io_panel(&io, Some((0, 0)))).rows[4][1], "0.0 B / 0.0 B (0%)");
    assert_eq!(table(render_io_panel(&io, Some((1, 0)))).rows[4][1], "1.0 B / 0.0 B (4294967295%)");
}

#[test]
fn temperatures_come_in_degrees() {
    let temps = vec![("soc".to_string(), 45), ("ice".to_string(), -3)];
    let sensors = vec![("fan".to_string(), "1200 RPM".to_string())];
    let panel = render_temperature_panel(&temps, Some(50), &sensors);
    assert_eq!((panel.title.as_str(), panel.border), ("Temperatures", Color::Yellow));
    let t = table(panel);
    assert_eq!(
        t.rows,
        vec![vec!["soc", "45°C"], vec!["ice", "-3°C"], vec!["GPU", "50°C"], vec!["fan", "1200 RPM"]]
    );
    assert_eq!(t.widths, vec![Extent::Percentage(60), Extent::Percentage(40)]);
    assert_eq!(table(render_temperature_panel(&temps, None, &Vec::new())).rows.len(), 2);
}

fn help(c: &Controls) -> String {
    render_help_text(c).iter().map(|s| s.text.as_str()).collect()
}

fn color_of(spans: &Vec<Span>, text: &str) -> Option<Color> {
    spans.iter().find(|s| s.text == text).unwrap().style.color
}

#[test]
fn the_help_line_shows_order_and_filter() {
    let mut c = Controls::new();
    let head = "Sort: [C]PU  [M]em  [P]ID  [N]ame  |  Current: ";
    assert_eq!(help(&c), format!("{}CPU↓  |  [/]Filter  |  [Q]uit", head));
    for (key, name) in
        [('c', "CPU↑"), ('m', "Mem↓"), ('m', "Mem↑"), ('p', "PID↑"), ('p', "PID↓"), ('n', "Name↑"), ('n', "Name↓")]
    {
        c.press(KeyPress::Char(key));
        assert_eq!(help(&c), format!("{}{}  |  [/]Filter  |  [Q]uit", head, name));
    }
    c.press(KeyPress::Char('/'));
    assert_eq!(help(&c), format!("{}Name↓  |  [/]Filter: _  |  [Q]uit", head));
    c.press(KeyPress::Char('x'));
    assert_eq!(help(&c), format!("{}Name↓  |  [/]Filter: x_  |  [Q]uit", head));
    assert_eq!(color_of(&render_help_text(&c), "x"), Some(Color::Yellow));
    c.press(KeyPress::Enter);
    assert_eq!(help(&c), format!("{}Name↓  |  [/]Filter: x  |  [Q]uit", head));
    assert_eq!(color_of(&render_help_text(&c), "x"), Some(Color::Green));
    let spans = render_help_text(&c);
    assert!(spans.iter().filter(|s| s.style.bold).all(|s| s.text.starts_with('[') || s.text == "Name↓"));
    assert_eq!(color_of(&spans, "[Q]"), Some(Color::Cyan));
    assert_eq!(color_of(&spans, "uit"), Some(Color::Gray));
}
