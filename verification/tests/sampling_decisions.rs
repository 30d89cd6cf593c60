use hm_cx::cpuinfo::parse_cpuinfo_blocks;
use hm_cx::json::{json_get_str, Json};
use hm_cx::mapping::{MappingConfig, MappingEntry, SensorSource};
use hm_cx::sampling::{
    device_metadata, device_ranks, powercap_energy_delta, proc_cpuinfo_selector, sampling_needs,
    sensor_value_format, sensors_json_value_scale, split_template_value, sysfs_value_scale,
    unique_sysfs_paths, value_object, CpuinfoSelector, ValueScale,
};

fn entry(ohm: &str, kind: &str, path: Option<&str>) -> MappingEntry {
    MappingEntry {
        ohm: ohm.to_string(),
        text: "T".to_string(),
        sensor_type: "Temperature".to_string(),
        source: SensorSource {
            kind: kind.to_string(),
            path: path.map(|p| p.to_string()),
            chip: Some("chip".to_string()),
            key: Some("temp1/temp1_input".to_string()),
        },
    }
}

#[test]
fn display_formats_follow_the_sensor_type() {
    assert_eq!(sensor_value_format("Temperature"), (2, " °C"));
    assert_eq!(sensor_value_format("Voltage"), (3, " V"));
    assert_eq!(sensor_value_format("Fan"), (0, " RPM"));
    assert_eq!(sensor_value_format("SmallData"), (1, " MB"));
    assert_eq!(sensor_value_format("Data"), (1, " GB"));
    assert_eq!(sensor_value_format("Throughput"), (1, " KB/s"));
    assert_eq!(sensor_value_format("Factor"), (2, ""));
    assert_eq!(format!("{:.*}{}", 2, 42.0, sensor_value_format("Temperature").1), "42.00 °C");
}

#[test]
fn templates_give_decimals_and_unit() {
    assert_eq!(split_template_value("4.000 V"), (3, Some("V".to_string())));
    assert_eq!(split_template_value(" 1164 RPM "), (0, Some("RPM".to_string())));
    assert_eq!(split_template_value("3,25 W"), (2, Some("W".to_string())));
    assert_eq!(split_template_value("-"), (0, None));
    assert_eq!(split_template_value("12.5"), (1, None));
    assert_eq!(split_template_value(""), (0, None));
}

#[test]
fn raw_readings_scale_by_family() {
    assert_eq!(sysfs_value_scale("Clock", "/sys/class/hwmon/hwmon4/freq2_input"), ValueScale::Divide(1_000_000));
    assert_eq!(sysfs_value_scale("Temperature", "/sys/class/hwmon/hwmon4/temp1_input"), ValueScale::Divide(1000));
    assert_eq!(sysfs_value_scale("Control", "/sys/class/hwmon/hwmon5/pwm1"), ValueScale::PwmPercent);
    assert_eq!(sysfs_value_scale("Fan", "/sys/class/hwmon/hwmon5/pwm1"), ValueScale::Unchanged);
    assert_eq!(sensors_json_value_scale("Level", "pwm1/pwm1"), ValueScale::PwmPercentAbove100);
    assert_eq!(sensors_json_value_scale("Temperature", "temp1/temp1_input"), ValueScale::Unchanged);
}

#[test]
fn rapl_counter_wrap_uses_the_counter_range() {
    assert_eq!(powercap_energy_delta(900, 100, Some(1_000)), Some(200));
    assert_eq!(powercap_energy_delta(100, 900, None), Some(800));
    assert_eq!(powercap_energy_delta(900, 100, None), None);
    assert_eq!(powercap_energy_delta(900, 100, Some(500)), Some(100));
}

#[test]
fn cpuinfo_keys_select_what_they_name() {
    assert_eq!(proc_cpuinfo_selector("bus_speed"), CpuinfoSelector::BusSpeed);
    assert_eq!(proc_cpuinfo_selector("core_average"), CpuinfoSelector::CoreAverage);
    assert_eq!(proc_cpuinfo_selector("core:3"), CpuinfoSelector::Core(3));
    assert_eq!(proc_cpuinfo_selector("core:x"), CpuinfoSelector::Unknown);
    assert_eq!(proc_cpuinfo_selector("other"), CpuinfoSelector::Unknown);
}

#[test]
fn cpuinfo_blocks_keep_the_last_value_of_each_key() {
    let blocks = parse_cpuinfo_blocks(
        "processor\t: 0\ncore id\t\t: 0\ncpu MHz\t\t: 3600.0\n\nprocessor\t: 8\ncore id\t\t: 0\ncpu MHz\t\t: 4200.0\n\nprocessor\t: 1\ncore id\t\t: 1\ncpu MHz\t\t: 3500.0\n",
    );
    assert_eq!(blocks.len(), 3);
    assert_eq!(blocks[0].processor, Some(0));
    assert_eq!(blocks[1].processor, Some(8));
    assert_eq!(blocks[1].core_id, Some(0));
    assert_eq!(blocks[1].mhz.as_deref(), Some("4200.0"));
    assert_eq!(blocks[2].core_id, Some(1));
    assert_eq!(blocks[2].mhz.as_deref(), Some("3500.0"));
    let crlf = parse_cpuinfo_blocks("processor : 2\r\ncpu MHz : 1.5\r\n");
    assert_eq!(crlf.len(), 1);
    assert_eq!(crlf[0].processor, Some(2));
    assert_eq!(crlf[0].mhz.as_deref(), Some("1.5"));
    assert!(crlf[0].core_id.is_none());
}

#[test]
fn readings_are_objects_with_the_four_fields() {
    let v = value_object("4.020 V", "4020", "Vcore", "Voltage");
    assert_eq!(json_get_str(&v, "Value").map(|x| x.as_str()), Some("4.020 V"));
    assert_eq!(json_get_str(&v, "RawValue").map(|x| x.as_str()), Some("4020"));
    assert_eq!(json_get_str(&v, "Text").map(|x| x.as_str()), Some("Vcore"));
    assert_eq!(json_get_str(&v, "Type").map(|x| x.as_str()), Some("Voltage"));
    assert!(json_get_str(&v, "value").is_none());
    match v {
        Json::Object(e) => assert_eq!(e.len(), 4),
        _ => panic!("an object"),
    }
}

#[test]
fn sampling_reads_each_sysfs_file_once_and_knows_its_sources() {
    let cfg = MappingConfig {
        mappings: vec![
            entry("/a", "sysfs", Some("/sys/x/temp1_input")),
            entry("/b", "sysfs", Some("/sys/x/temp1_input")),
            entry("/c", "sysfs", Some("/sys/y/temp2_input")),
            entry("/d", "sensors_json", None),
        ],
    };
    assert_eq!(
        unique_sysfs_paths(&cfg),
        vec!["/sys/x/temp1_input".to_string(), "/sys/y/temp2_input".to_string()]
    );
    let needs = sampling_needs(&cfg, &vec![true, true, true, false]);
    assert!(!needs.needs_reconcile);
    assert!(needs.uses_sensors_json);
    assert!(!needs.uses_proc_cpuinfo);
    let needs = sampling_needs(&cfg, &vec![true, false, true, false]);
    assert!(needs.needs_reconcile);
}

#[test]
fn hwmon_devices_are_ranked_per_name() {
    let names = vec![
        Some("it8628".to_string()),
        Some("amdgpu".to_string()),
        None,
        Some("it8628".to_string()),
    ];
    assert_eq!(device_ranks(&names), vec![Some(1), Some(1), None, Some(2)]);
}

#[test]
fn a_file_without_a_hwmon_family_reads_in_the_units_of_the_type() {
    assert_eq!(sysfs_value_scale("Temperature", "/tmp/x/fake_temp_input"), ValueScale::Divide(1000));
    assert_eq!(sysfs_value_scale("Power", "/tmp/x/reading"), ValueScale::Divide(1_000_000));
    assert_eq!(sysfs_value_scale("Fan", "/tmp/x/reading"), ValueScale::Unchanged);
    assert_eq!(sysfs_value_scale("Data", "/tmp/x/reading"), ValueScale::Unchanged);
}

#[test]
fn device_metadata_keeps_labels_readings_and_name() {
    let files = vec![
        ("temp1_input".to_string(), "42000\n".to_string()),
        ("temp1_label".to_string(), " Tctl \n".to_string()),
        ("uevent".to_string(), "DRIVER=k10temp\n".to_string()),
        ("name".to_string(), "k10temp\n".to_string()),
        ("pwm1".to_string(), "128".to_string()),
    ];
    let meta = device_metadata("k10temp", 2, &files);
    let expected: Vec<(String, String)> = vec![
        ("name", "k10temp"),
        ("device_rank", "2"),
        ("temp1_input", "42000"),
        ("temp1_label", "Tctl"),
        ("name", "k10temp"),
        ("pwm1", "128"),
    ]
    .into_iter()
    .map(|(a, b)| (a.to_string(), b.to_string()))
    .collect();
    assert_eq!(meta, expected);
}
