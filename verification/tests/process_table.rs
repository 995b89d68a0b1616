use rktop::process::{ProcessInfo, ProcessSortMode};
use rktop::process_table::{
    headings_of, passes_filter, process_count_of, process_rows, render_process_panel,
};
use rktop::screen::{Body, Color, Extent};

fn info(pid: u32, name: &str, user: &str, main: u32) -> ProcessInfo {
    ProcessInfo {
        pid,
        name: name.to_string(),
        user: user.to_string(),
        cpu: 12.34f32.to_bits(),
        mem: 0.05f32.to_bits(),
        nice: -5,
        runtime: 3725,
        cpu_core: 6,
        is_thread: pid != main,
        thread_group_id: main,
        state: 'S',
        num_threads: 3,
    }
}

fn column(rows: &Vec<Vec<String>>, k: usize) -> Vec<&str> {
    rows.iter().map(|r| r[k].as_str()).collect()
}

#[test]
fn rows_have_all_cells() {
    let rows = process_rows(&vec![info(10, "sshd", "root", 10), info(11, "worker", "root", 10)], "");
    assert_eq!(
        rows[0],
        vec!["10", "root", "S", " -5", "6", "3", "1:02:05", "sshd", "12.3", "0.1"]
    );
    assert_eq!(
        rows[1],
        vec![" └─11", "", "S", " -5", "6", "", "1:02:05", "worker [thread]", "12.3", "0.1"]
    );
    assert_eq!(rows.len(), 2);
}

#[test]
fn threads_follow_their_process() {
    let infos = vec![
        info(21, "t1", "u", 20),
        info(30, "other", "u", 30),
        info(20, "main", "u", 20),
        info(22, "t2", "u", 20),
        info(99, "lost", "u", 98),
        info(23, "t3", "u", 20),
        info(20, "main again", "u", 20),
    ];
    let rows = process_rows(&infos, "");
    assert_eq!(column(&rows, 0), vec!["30", "20", " ├─21", " ├─22", " └─23"]);
    assert_eq!(column(&rows, 7), vec!["other", "main", "t1 [thread]", "t2 [thread]", "t3 [thread]"]);
}

#[test]
fn the_filter_looks_at_names_and_users() {
    let infos = vec![info(1, "SSHD", "root", 1), info(2, "bash", "Rock", 2), info(3, "x", "y", 3)];
    assert_eq!(column(&process_rows(&infos, "ssh"), 0), vec!["1"]);
    assert_eq!(column(&process_rows(&infos, "RO"), 0), vec!["1", "2"]);
    assert_eq!(column(&process_rows(&infos, ""), 0), vec!["1", "2", "3"]);
    assert_eq!(process_rows(&infos, "nothing").len(), 0);
}

#[test]
fn a_filter_can_hide_the_process_of_a_thread() {
    let infos = vec![info(1, "main", "u", 1), info(2, "worker", "u", 1), info(3, "worker2", "u", 3)];
    assert_eq!(column(&process_rows(&infos, "worker"), 0), vec!["3"]);
}

#[test]
fn filters_are_parts_of_texts() {
    assert!(passes_filter("sshd", "root", "sh"));
    assert!(passes_filter("sshd", "root", "oo"));
    assert!(passes_filter("sshd", "root", ""));
    assert!(passes_filter("", "", ""));
    assert!(!passes_filter("sshd", "root", "x"));
    assert!(!passes_filter("", "", "x"));
}

#[test]
fn headings_show_the_order() {
    let texts = |mode| -> Vec<String> { headings_of(mode).iter().map(|s| s.text.clone()).collect() };
    assert_eq!(
        texts(ProcessSortMode::CpuDesc),
        vec!["PID", "User", "S", "NI", "C", "THR", "Time", "Name", "CPU%↓", "Mem%"]
    );
    assert_eq!(texts(ProcessSortMode::CpuAsc)[8], "CPU%↑");
    assert_eq!(texts(ProcessSortMode::PidAsc)[0], "PID↑");
    assert_eq!(texts(ProcessSortMode::PidDesc)[0], "PID↓");
    assert_eq!(texts(ProcessSortMode::NameAsc)[7], "Name↑");
    assert_eq!(texts(ProcessSortMode::NameDesc)[7], "Name↓");
    assert_eq!(texts(ProcessSortMode::MemoryAsc)[9], "Mem%↑");
    assert_eq!(texts(ProcessSortMode::MemoryDesc)[9], "Mem%↓");
    let header = headings_of(ProcessSortMode::PidAsc);
    assert!(header.iter().all(|s| s.style.bold));
    assert_eq!(header.iter().filter(|s| s.style.underlined).count(), 1);
    assert!(header[0].style.underlined);
}

#[test]
fn the_height_decides_how_many_are_asked_for() {
    assert_eq!(process_count_of(0), 20);
    assert_eq!(process_count_of(3), 20);
    assert_eq!(process_count_of(10), 20);
    assert_eq!(process_count_of(11), 21);
    assert_eq!(process_count_of(44), 120);
    assert_eq!(process_count_of(u16::MAX), 3 * (65535 - 4));
}

#[test]
fn the_process_panel_is_a_table() {
    let panel = render_process_panel(&vec![info(1, "a", "b", 1)], "", ProcessSortMode::CpuDesc);
    assert_eq!((panel.title.as_str(), panel.border), ("Processes", Color::Magenta));
    match panel.body {
        Body::Table(t) => {
            assert_eq!(t.rows.len(), 1);
            assert_eq!(t.header.len(), 10);
            assert_eq!(t.header_margin, 1);
            assert_eq!(t.widths.len(), 10);
            assert_eq!((t.widths[0], t.widths[7]), (Extent::Length(11), Extent::Percentage(45)));
            assert_eq!((t.spacing, t.color), (1, None));
        }
        Body::Lines(_) => panic!("no table"),
    }
}
