use rktop::hardware::{
    get_cpu_freq_ranges, get_cpu_frequencies, get_gpu_frequency, get_gpu_usage, get_npu_frequency,
    get_npu_load, get_rga_load, gpu_times, npu_loads, rga_load_texts,
};

fn usage(content: &str) -> Option<f32> {
    get_gpu_usage(Some(content)).map(f32::from_bits)
}

fn owned(v: &[(&str, &str)]) -> Vec<(String, String)> {
    v.iter().map(|(a, b)| (a.to_string(), b.to_string())).collect()
}

#[test]
fn gpu_usage_is_the_busy_share() {
    assert_eq!(usage("busy_time: 30 idle_time: 70"), Some((30.0f32 / 100.0f32) * 100.0));
    assert_eq!(usage("busy_time: 1 idle_time: 1"), Some(50.0));
    assert_eq!(usage("idle_time: 1 busy_time: 2\n"), Some((2.0f32 / 3.0f32) * 100.0));
    assert_eq!(usage("busy_time: 5 idle_time: 0"), Some(100.0));
    assert_eq!(usage("busy_time: 0 idle_time: 9"), Some(0.0));
    assert_eq!(usage("busy_time: 0 idle_time: 0"), None);
    assert_eq!(usage(""), None);
    assert_eq!(usage("other: 7 busy_time:: 1 idle_time: 3"), Some(25.0));
    assert_eq!(usage("busy_time: x idle_time: 3"), None);
    assert_eq!(usage("busy_time: 1 idle_time: 3 odd"), Some(25.0));
    assert_eq!(get_gpu_usage(None), None);
    assert_eq!(gpu_times("busy_time: 1 idle_time: 2 busy_time: 4 idle_time: 5"), Some((4, 5)));
    for (busy, idle) in [(1u64, 6u64), (123_456_789, 987_654_321), (u64::MAX / 2, u64::MAX / 2)] {
        let expected = (busy as f32 / (busy + idle) as f32) * 100.0;
        assert_eq!(usage(&format!("busy_time: {} idle_time: {}", busy, idle)), Some(expected));
    }
}

#[test]
fn frequencies_are_read_up_to_the_first_gap() {
    let files: Vec<String> =
        ["1800000\n", "408999", "oops", "1200000"].iter().map(|s| s.to_string()).collect();
    assert_eq!(get_cpu_frequencies(&files), vec![1800, 408]);
    assert_eq!(get_cpu_frequencies(&Vec::new()), Vec::<u32>::new());
}

#[test]
fn frequency_ranges_are_listed_once() {
    let files = owned(&[
        ("408000\n", "1800000\n"),
        ("408000\n", "1800000\n"),
        ("408000\n", "2256000\n"),
        ("408999\n", "1800999\n"),
        ("408000\n", "bad"),
        ("1\n", "2\n"),
    ]);
    assert_eq!(get_cpu_freq_ranges(&files), vec![(408, 1800), (408, 2256)]);
}

#[test]
fn frequencies_of_units_come_in_megahertz() {
    let some = |s: &str| Some(s.to_string());
    assert_eq!(get_gpu_frequency(&vec![some("300000000\n"), some("1")]), Some(300));
    assert_eq!(get_gpu_frequency(&vec![None, some("850999999\n")]), Some(850));
    assert_eq!(get_gpu_frequency(&vec![some("x"), some("5000000")]), Some(5));
    assert_eq!(get_gpu_frequency(&vec![None, None]), None);
    assert_eq!(get_npu_frequency(Some("1000000000\n")), Some(1000));
    assert_eq!(get_npu_frequency(Some("")), None);
    assert_eq!(get_npu_frequency(None), None);
    assert_eq!(get_npu_frequency(Some("18446744073709551615")), Some(18446744073709u64 as u32));
}

#[test]
fn npu_loads_are_found_by_their_pattern() {
    let content = "NPU load:  Core0:  0%, Core1: 17%, Core2:100%, Core3: 300%, Core4: x%\n";
    assert_eq!(get_npu_load(Some(content)), vec![0, 17, 100]);
    assert_eq!(get_npu_load(Some("NPU load:  5%")), Vec::<u8>::new());
    assert_eq!(get_npu_load(None), Vec::<u8>::new());
}

#[test]
fn matches_without_a_load_are_left_out() {
    let some = |s: &str| Some(s.to_string());
    let found = vec![
        vec![some("Core0: 7%"), some("0"), some("7")],
        vec![some("Core1: 256%"), some("1"), some("256")],
        vec![some("Core2: 9%"), some("2"), None],
        vec![some("Core3")],
        vec![some("Core4: 255%"), some("4"), some("255")],
    ];
    assert_eq!(npu_loads(&found), vec![7, 255]);
}

const RGA: &str = "num of scheduler = 3\n================= load ==================\n\
scheduler[0]: rga3\n\t load = 12.5%\n-----------------------------------\n\
scheduler[1]: rga3\n\t load = 0%\n-----------------------------------\n\
scheduler[2]: rga2\n\t load = x%\n-----------------------------------\n";

#[test]
fn scaler_loads_belong_to_their_schedulers() {
    let entries = rga_load_texts(RGA);
    assert_eq!(entries, owned(&[("rga3_0", "12.5"), ("rga3_1", "0"), ("rga2_2", "x")]));
    let loads: Vec<Option<u32>> =
        entries.iter().map(|e| e.1.parse::<f32>().ok().map(f32::to_bits)).collect();
    let known = get_rga_load(&entries, &loads).unwrap();
    assert_eq!(
        known,
        vec![("rga3_0".to_string(), 12.5f32.to_bits()), ("rga3_1".to_string(), 0.0f32.to_bits())]
    );
}

#[test]
fn scaler_loads_need_a_scheduler_and_a_number() {
    assert_eq!(rga_load_texts("load = 5%\n"), owned(&[]));
    assert_eq!(rga_load_texts("scheduler[x]: a\nload = 1%=2%\n"), owned(&[("a_0", "1")]));
    assert_eq!(rga_load_texts("scheduler[3\nload = 1%\n"), owned(&[]));
    assert_eq!(rga_load_texts("scheduler[7]: a\nscheduler[b: c\nload = 1\n"), owned(&[("c_7", "1")]));
    assert_eq!(rga_load_texts("scheduler[0]: a-b\nload = 1\n"), owned(&[]));
    assert_eq!(rga_load_texts(""), owned(&[]));
    let entries = owned(&[("rga_0", "x")]);
    assert!(get_rga_load(&entries, &vec![None]).is_none());
    assert!(get_rga_load(&Vec::new(), &Vec::new()).is_none());
}
