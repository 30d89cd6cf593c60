use hm_cx::json::Json;
use hm_cx::mapping::{MappingConfig, MappingEntry, SensorSource};
use hm_cx::names::{parse_type_index, sysfs_path_matches_sensor_type};
use hm_cx::resolve::{
    compatible_sensor_text, reconcile_mapping_config, resolve_mapping_source, search_fits, source_is_usable,
};
use hm_cx::sensors::score_sensors_json_candidate;
use hm_cx::select::{
    distinct_paths_exec, select_powercap_source, select_proc_cpuinfo_source, select_sysfs_source,
};
use hm_cx::sensors::find_in_sensors_json;

type Candidates = Vec<(String, Vec<(String, String)>)>;

fn meta(pairs: &[(&str, &str)]) -> Vec<(String, String)> {
    pairs.iter().map(|(k, v)| (k.to_string(), v.to_string())).collect()
}

fn obj(entries: Vec<(&str, Json)>) -> Json {
    let mut e: Vec<(String, Json)> = entries.into_iter().map(|(k, v)| (k.to_string(), v)).collect();
    e.sort_by(|a, b| a.0.cmp(&b.0));
    Json::Object(e)
}

fn num(text: &str) -> Json {
    Json::Number(text.to_string())
}

#[test]
fn test_parse_type_index_examples() {
    let s = "/lpc/it8688e/0/temperature/2";
    let r = parse_type_index(s).expect("should parse");
    assert_eq!(r.0, "temperature");
    assert_eq!(r.1, "2");

    let s2 = "//foo/bar/voltage/0";
    let r2 = parse_type_index(s2).expect("should parse");
    assert_eq!(r2.0, "voltage");
    assert_eq!(r2.1, "0");
}

#[test]
fn test_sysfs_path_matches_sensor_type_rejects_incompatible_units() {
    assert!(sysfs_path_matches_sensor_type("/sys/class/hwmon/hwmon4/fan1_input", "Fan"));
    assert!(!sysfs_path_matches_sensor_type("/sys/class/hwmon/hwmon4/freq2_input", "Fan"));
    assert!(sysfs_path_matches_sensor_type("/sys/class/hwmon/hwmon4/freq2_input", "Clock"));
}

#[test]
fn test_select_sysfs_source_prefers_exact_fan_family_and_device_hint() {
    let sysfs: Candidates = vec![
        ("/sys/class/hwmon/hwmon4/freq2_input".to_string(), meta(&[("name", "amdgpu")])),
        ("/sys/class/hwmon/hwmon4/fan1_input".to_string(), meta(&[("name", "amdgpu")])),
        ("/sys/class/hwmon/hwmon8/fan1_input".to_string(), meta(&[("name", "octo")])),
    ];
    let selected = select_sysfs_source("/gpu-amd/0/fan/0", "GPU Fan", "Fan", &sysfs)
        .expect("should select a compatible fan source");
    assert_eq!(selected.path.as_deref(), Some("/sys/class/hwmon/hwmon4/fan1_input"));
}

#[test]
fn test_select_sysfs_source_rejects_numeric_only_power_matches() {
    let sysfs: Candidates = vec![
        (
            "/sys/class/hwmon/hwmon8/power1_input".to_string(),
            meta(&[("name", "octo"), ("power1_label", "Fan 1 power")]),
        ),
        (
            "/sys/class/hwmon/hwmon4/power1_average".to_string(),
            meta(&[("name", "amdgpu"), ("power1_label", "PPT")]),
        ),
    ];
    assert!(
        select_sysfs_source("/amdcpu/0/power/1", "Core #1 (SMU)", "Power", &sysfs).is_none(),
        "CPU core power should not latch onto unrelated fan power labels just because they share a channel number"
    );
}

#[test]
fn test_select_sysfs_source_maps_gpu_package_power_to_ppt() {
    let sysfs: Candidates = vec![
        (
            "/sys/class/hwmon/hwmon8/power1_input".to_string(),
            meta(&[("name", "octo"), ("power1_label", "Fan 1 power")]),
        ),
        (
            "/sys/class/hwmon/hwmon4/power1_average".to_string(),
            meta(&[("name", "amdgpu"), ("power1_label", "PPT")]),
        ),
    ];
    let selected = select_sysfs_source("/gpu-amd/0/power/3", "GPU Package", "Power", &sysfs)
        .expect("GPU package power should resolve to the amdgpu PPT reading");
    assert_eq!(selected.path.as_deref(), Some("/sys/class/hwmon/hwmon4/power1_average"));
}

#[test]
fn test_select_powercap_source_maps_cpu_package_to_rapl_package() {
    let powercap: Candidates = vec![
        (
            "/sys/class/powercap/intel-rapl:0/energy_uj".to_string(),
            meta(&[("name", "package-0")]),
        ),
        (
            "/sys/class/powercap/intel-rapl:0:0/energy_uj".to_string(),
            meta(&[("name", "core")]),
        ),
    ];
    let selected = select_powercap_source("/amdcpu/0/power/0", "Package", "Power", &powercap)
        .expect("CPU package power should resolve to the package RAPL domain");
    assert_eq!(selected.path.as_deref(), Some("/sys/class/powercap/intel-rapl:0/energy_uj"));
    assert!(select_powercap_source("/amdcpu/0/power/1", "Core #1 (SMU)", "Power", &powercap)
        .is_none());
}

#[test]
fn test_select_sysfs_source_uses_lpc_device_rank_to_avoid_duplicate_fan_banks() {
    let sysfs: Candidates = vec![
        (
            "/sys/class/hwmon/hwmon5/fan1_input".to_string(),
            meta(&[("name", "it8628"), ("device_rank", "1")]),
        ),
        (
            "/sys/class/hwmon/hwmon6/fan1_input".to_string(),
            meta(&[("name", "it8628"), ("device_rank", "2")]),
        ),
    ];
    let first = select_sysfs_source("/lpc/it8688e/0/fan/0", "CPU Fan", "Fan", &sysfs)
        .expect("first lpc chip should resolve");
    assert_eq!(first.path.as_deref(), Some("/sys/class/hwmon/hwmon5/fan1_input"));

    let second = select_sysfs_source("/lpc/it8792e/0/fan/0", "System Fan #5 / Pump", "Fan", &sysfs)
        .expect("second lpc chip should resolve to the second IT8628 device");
    assert_eq!(second.path.as_deref(), Some("/sys/class/hwmon/hwmon6/fan1_input"));
}

#[test]
fn test_select_proc_cpuinfo_source_maps_cpu_clock_entries() {
    let avg = select_proc_cpuinfo_source("/amdcpu/0/clock/1", "Cores (Average)", "Clock")
        .expect("average CPU clock should use /proc/cpuinfo");
    assert_eq!(avg.kind, "proc_cpuinfo");
    assert_eq!(avg.key.as_deref(), Some("core_average"));

    let core = select_proc_cpuinfo_source("/amdcpu/0/clock/3", "Core #1", "Clock")
        .expect("per-core CPU clock should use /proc/cpuinfo");
    assert_eq!(core.key.as_deref(), Some("core:0"));
}

#[test]
fn proc_cpuinfo_selectors_cover_bus_speed_and_later_cores() {
    let bus = select_proc_cpuinfo_source("/amdcpu/0/clock/0", "Bus Speed", "Clock").unwrap();
    assert_eq!(bus.key.as_deref(), Some("bus_speed"));
    assert_eq!(bus.path.as_deref(), Some("/proc/cpuinfo"));
    let core = select_proc_cpuinfo_source("/amdcpu/0/clock/6", "Core #2", "Clock").unwrap();
    assert_eq!(core.key.as_deref(), Some("core:1"));
    assert!(select_proc_cpuinfo_source("/amdcpu/0/clock/0", "Core", "Clock").is_none());
    assert!(select_proc_cpuinfo_source("/amdcpu/0/temperature/1", "Core", "Temperature").is_none());
}

#[test]
fn test_compatible_sensor_text_uses_legacy_ohm_labels_for_it8688e_board_sensors() {
    assert_eq!(compatible_sensor_text("/lpc/it8688e/0/fan/0", "Fan", "CPU Fan"), "Fan #1");
    assert_eq!(
        compatible_sensor_text("/lpc/it8688e/0/fan/4", "Fan", "CPU Optional Fan"),
        "Fan #5"
    );
    assert_eq!(
        compatible_sensor_text("/lpc/it8688e/0/temperature/2", "Temperature", "CPU"),
        "Temperature #3"
    );
    assert_eq!(
        compatible_sensor_text("/gpu-amd/0/temperature/0", "Temperature", "GPU Core"),
        "GPU Core"
    );
}

#[test]
fn test_select_sysfs_source_only_maps_gpu_clocks_when_label_and_channel_match() {
    let gpu_meta = meta(&[("name", "amdgpu"), ("freq1_label", "sclk"), ("freq2_label", "mclk")]);
    let sysfs: Candidates = vec![
        ("/sys/class/hwmon/hwmon4/freq1_input".to_string(), gpu_meta.clone()),
        ("/sys/class/hwmon/hwmon4/freq2_input".to_string(), gpu_meta),
    ];
    let gpu_core = select_sysfs_source("/gpu-amd/0/clock/0", "GPU Core", "Clock", &sysfs)
        .expect("GPU core clock should resolve");
    assert_eq!(gpu_core.path.as_deref(), Some("/sys/class/hwmon/hwmon4/freq1_input"));

    let gpu_memory = select_sysfs_source("/gpu-amd/0/clock/2", "GPU Memory", "Clock", &sysfs)
        .expect("GPU memory clock should resolve");
    assert_eq!(gpu_memory.path.as_deref(), Some("/sys/class/hwmon/hwmon4/freq2_input"));

    assert!(
        select_sysfs_source("/amdcpu/0/clock/3", "Core #1", "Clock", &sysfs).is_none(),
        "CPU clocks should be left on the bundled OHM values when no reliable source exists"
    );
}

#[test]
fn sysfs_selection_does_not_depend_on_candidate_order() {
    let a = ("/sys/class/hwmon/hwmon1/temp1_input".to_string(), meta(&[("name", "nvme")]));
    let b = ("/sys/class/hwmon/hwmon2/temp1_input".to_string(), meta(&[("name", "nvme")]));
    let one: Candidates = vec![a.clone(), b.clone()];
    let two: Candidates = vec![b, a];
    let x = select_sysfs_source("/nvme/0/temperature/0", "Composite", "Temperature", &one).unwrap();
    let y = select_sysfs_source("/nvme/0/temperature/0", "Composite", "Temperature", &two).unwrap();
    assert_eq!(x.path, y.path);
    assert_eq!(x.path.as_deref(), Some("/sys/class/hwmon/hwmon1/temp1_input"));
}

fn mocked_sensors_json() -> Json {
    obj(vec![
        (
            "it8688-isa-0a20",
            obj(vec![
                ("temp2", obj(vec![("temp2_input", num("42.0"))])),
                ("fan1", obj(vec![("fan1_input", num("1200.0"))])),
            ]),
        ),
        (
            "coretemp-isa-0000",
            obj(vec![("Package id 0", obj(vec![("temp1_input", num("55.0"))]))]),
        ),
    ])
}

#[test]
fn test_find_in_sensors_json_with_mocked_json() {
    let sensors_json = mocked_sensors_json();
    let found = find_in_sensors_json(&sensors_json, "/test/temperature/1", "temp2", "Temperature");
    assert!(found.is_some());
    let (chip, key) = found.unwrap();
    assert_eq!(chip, "it8688-isa-0a20");
    assert_eq!(key, "temp2/temp2_input");

    let found2 =
        find_in_sensors_json(&sensors_json, "/test/temperature/0", "Package", "Temperature");
    assert!(found2.is_some());
    let (chip2, key2) = found2.unwrap();
    assert_eq!(chip2, "coretemp-isa-0000");
    assert_eq!(key2, "Package id 0/temp1_input");
}

#[test]
fn sensors_json_search_needs_an_object() {
    assert!(find_in_sensors_json(&Json::Null, "/test/temperature/1", "temp2", "Temperature")
        .is_none());
}

#[test]
fn test_reconcile_mapping_config_drops_incompatible_sources() {
    let mut cfg = MappingConfig {
        mappings: vec![MappingEntry {
            ohm: "/gpu-amd/0/fan/0".to_string(),
            text: "GPU Fan".to_string(),
            sensor_type: "Fan".to_string(),
            source: SensorSource {
                kind: "sysfs".to_string(),
                path: Some("/sys/class/hwmon/hwmon4/freq2_input".to_string()),
                chip: None,
                key: None,
            },
        }],
    };
    let exists = vec![true];
    reconcile_mapping_config(&mut cfg, &exists, &[], &[], &Json::Null);
    assert!(cfg.mappings.is_empty());
}

#[test]
fn reconcile_keeps_usable_and_re_resolves_missing_sources() {
    let mut cfg = MappingConfig {
        mappings: vec![
            MappingEntry {
                ohm: "/nvme/0/temperature/0".to_string(),
                text: "Composite".to_string(),
                sensor_type: "Temperature".to_string(),
                source: SensorSource {
                    kind: "sysfs".to_string(),
                    path: Some("/sys/class/hwmon/hwmon1/temp1_input".to_string()),
                    chip: None,
                    key: None,
                },
            },
            MappingEntry {
                ohm: "/amdcpu/0/clock/1".to_string(),
                text: "Cores (Average)".to_string(),
                sensor_type: "Clock".to_string(),
                source: SensorSource {
                    kind: "sysfs".to_string(),
                    path: Some("/sys/class/hwmon/hwmon9/freq1_input".to_string()),
                    chip: None,
                    key: None,
                },
            },
        ],
    };
    let exists = vec![true, false];
    reconcile_mapping_config(&mut cfg, &exists, &[], &[], &Json::Null);
    assert_eq!(cfg.mappings.len(), 2);
    assert_eq!(cfg.mappings[0].source.path.as_deref(), Some("/sys/class/hwmon/hwmon1/temp1_input"));
    assert_eq!(cfg.mappings[1].source.kind, "proc_cpuinfo");
    assert_eq!(cfg.mappings[1].source.key.as_deref(), Some("core_average"));
}

#[test]
fn resolution_prefers_rapl_for_cpu_package_power() {
    let powercap: Candidates = vec![(
        "/sys/class/powercap/intel-rapl:0/energy_uj".to_string(),
        meta(&[("name", "package-0")]),
    )];
    let sysfs: Candidates = vec![(
        "/sys/class/hwmon/hwmon3/power1_input".to_string(),
        meta(&[("name", "k10temp"), ("power1_label", "Package")]),
    )];
    let r = resolve_mapping_source("/amdcpu/0/power/0", "Package", "Power", &powercap, &sysfs, &Json::Null)
        .unwrap();
    assert_eq!(r.kind, "powercap_rapl");
    let sj = mocked_sensors_json();
    let r2 = resolve_mapping_source("/test/temperature/1", "temp2", "Temperature", &[], &[], &sj)
        .unwrap();
    assert_eq!(r2.kind, "sensors_json");
    assert_eq!(r2.chip.as_deref(), Some("it8688-isa-0a20"));
    assert_eq!(r2.key.as_deref(), Some("temp2/temp2_input"));
}

fn sysfs_source(path: &str) -> SensorSource {
    SensorSource { kind: "sysfs".to_string(), path: Some(path.to_string()), chip: None, key: None }
}

#[test]
fn a_hand_picked_sysfs_file_without_a_family_is_usable() {
    assert!(source_is_usable(&sysfs_source("/tmp/x/fake_temp_input"), "Temperature", true));
    assert!(!source_is_usable(&sysfs_source("/tmp/x/fake_temp_input"), "Temperature", false));
    assert!(!source_is_usable(&sysfs_source("/sys/class/hwmon/hwmon4/freq2_input"), "Fan", true));
    assert!(source_is_usable(&sysfs_source("/sys/class/hwmon/hwmon4/fan2_input"), "Fan", true));
}

#[test]
fn clock_sensors_are_searchable_at_any_index() {
    let id = format!("/amdcpu/0/clock/{}", usize::MAX);
    assert!(search_fits(&id, "Core #1", "Clock"));
    let temp = format!("/amdcpu/0/temperature/{}", usize::MAX);
    assert!(!search_fits(&temp, "Core", "Temperature"));
    let path = vec!["temp2".to_string(), "temp2_input".to_string()];
    assert_eq!(score_sensors_json_candidate("k10temp-pci-00c3", &path, &id, "Core #1", "Clock"), None);
    let empty: Candidates = Vec::new();
    assert!(select_sysfs_source(&id, "Core #1", "Clock", &empty).is_none());
}

#[test]
fn sensors_json_candidate_score_for_a_matching_temperature() {
    let path = vec!["temp2".to_string(), "temp2_input".to_string()];
    assert_eq!(
        score_sensors_json_candidate("it8688-isa-0a20", &path, "/test/temperature/1", "temp2", "Temperature"),
        Some(78)
    );
}

#[test]
fn candidate_paths_are_checked_for_repeats() {
    let once: Candidates = vec![("/a/temp1_input".to_string(), meta(&[])), ("/a/temp2_input".to_string(), meta(&[]))];
    assert!(distinct_paths_exec(&once));
    let twice: Candidates = vec![("/a/temp1_input".to_string(), meta(&[])), ("/a/temp1_input".to_string(), meta(&[("name", "x")]))];
    assert!(!distinct_paths_exec(&twice));
    let none: Candidates = Vec::new();
    assert!(distinct_paths_exec(&none));
}
