use rktop::thermal::{get_thermal, label_file, Device, Sensor, Zone};

fn some(s: &str) -> Option<String> {
    Some(s.to_string())
}

fn zone(name: &str, temp: Option<&str>, kind: Option<&str>) -> Zone {
    Zone { name: name.to_string(), temp: temp.map(String::from), kind: kind.map(String::from) }
}

fn sensor(file: &str, label: Option<&str>, temp: Option<&str>) -> Sensor {
    Sensor { file: file.to_string(), label: label.map(String::from), temp: temp.map(String::from) }
}

fn read(zones: Vec<Zone>, devices: Vec<Device>) -> Vec<(String, i32)> {
    get_thermal(&zones, &devices)
}

#[test]
fn zones_give_their_type_and_temperature() {
    let zones = vec![
        zone("thermal_zone0", Some("45312\n"), Some("soc-thermal\n")),
        zone("cooling_device0", Some("1000"), Some("fan")),
        zone("thermal_zone1", Some("-999\n"), Some("bigcore0_thermal\n")),
        zone("thermal_zone2", None, Some("gpu_thermal")),
        zone("thermal_zone3", Some("50000"), None),
        zone("thermal_zone4", Some("hot"), Some("npu_thermal")),
        zone("thermal_zone5", Some("-2500"), Some(" a_thermal_thermal ")),
    ];
    assert_eq!(
        read(zones, Vec::new()),
        vec![
            ("soc-thermal".to_string(), 45),
            ("bigcore0".to_string(), 0),
            ("a".to_string(), -2)
        ]
    );
}

#[test]
fn devices_give_their_sensors() {
    let devices = vec![
        Device {
            name: some("nvme\n"),
            sensors: vec![
                sensor("temp1_input", Some("Composite\n"), Some("38850\n")),
                sensor("temp2_input", None, Some("41000\n")),
                sensor("temp1_max", None, Some("80000")),
                sensor("fan1_input", None, Some("1200")),
                sensor("temp3_input", Some("Sensor 2"), None),
                sensor("temp4_input", Some("Sensor 3"), Some("")),
            ],
        },
        Device { name: None, sensors: vec![sensor("temp1_input", None, Some("1000"))] },
    ];
    assert_eq!(
        read(Vec::new(), devices),
        vec![("Composite".to_string(), 38), ("nvme".to_string(), 41)]
    );
}

#[test]
fn devices_that_repeat_a_zone_add_nothing() {
    let device = |name: &str| Device {
        name: some(name),
        sensors: vec![sensor("temp1_input", None, Some("40000"))],
    };
    let zones = || vec![zone("thermal_zone0", Some("40000"), Some("soc_thermal"))];
    let with = read(zones(), vec![device("a"), device("soc_thermal\n"), device("b")]);
    let without = read(zones(), vec![device("a"), device("b")]);
    assert_eq!(with, without);
    assert_eq!(
        with,
        vec![("soc".to_string(), 40), ("a".to_string(), 40), ("b".to_string(), 40)]
    );
}

#[test]
fn inputs_have_label_files() {
    assert_eq!(label_file("temp1_input"), some("temp1_label"));
    assert_eq!(label_file("temp_input_input"), some("temp_label_label"));
    assert_eq!(label_file("temp1_max"), None);
    assert_eq!(label_file("fan1_input"), None);
    assert_eq!(label_file(""), None);
}
