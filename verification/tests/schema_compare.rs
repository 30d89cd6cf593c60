use hm_cx::compare::{compare_raw, json_equal, previews_shown};
use hm_cx::health::{collect_health_warnings, data_json_response, health_response, DataJsonReply, PathProbe, ReadOutcome};
use hm_cx::json::{json_get, json_get_str, Json};
use hm_cx::mapping::{MappingConfig, MappingEntry, SensorSource};
use hm_cx::schema::{compare_schema, normalize_unit, unit_family, units_are_compatible};
use hm_cx::view::compare_view_html;

fn obj(entries: Vec<(&str, Json)>) -> Json {
    let mut e: Vec<(String, Json)> = entries.into_iter().map(|(k, v)| (k.to_string(), v)).collect();
    e.sort_by(|a, b| a.0.cmp(&b.0));
    Json::Object(e)
}

fn s(text: &str) -> Json {
    Json::Str(text.to_string())
}

fn array_len(j: &Json, key: &str) -> Option<usize> {
    match json_get(j, key) {
        Some(Json::Array(a)) => Some(a.len()),
        _ => None,
    }
}

fn boolean(j: &Json, key: &str) -> Option<bool> {
    match json_get(j, key) {
        Some(Json::Bool(b)) => Some(*b),
        _ => None,
    }
}

fn number(j: &Json, key: &str) -> Option<String> {
    match json_get(j, key) {
        Some(Json::Number(n)) => Some(n.clone()),
        _ => None,
    }
}

fn sensor_node(value: &str, min: &str, max: &str) -> Json {
    obj(vec![
        ("Text", s("CPU")),
        ("Type", s("Temperature")),
        ("SensorId", s("/test/temperature/0")),
        ("Min", s(min)),
        ("Value", s(value)),
        ("Max", s(max)),
        ("RawMin", s(min)),
        ("RawValue", s(value)),
        ("RawMax", s(max)),
        ("Children", Json::Array(vec![])),
    ])
}

#[test]
fn schema_unit_comparison_treats_unavailable_and_scaled_throughput_as_compatible() {
    assert!(units_are_compatible("%", "-"));
    assert!(units_are_compatible("MB/s", "KB/s"));
    assert!(units_are_compatible("KB/s", "MB/s"));
    assert!(!units_are_compatible("V", "°C"));
}

#[test]
fn units_are_the_second_token_of_a_display_value() {
    assert_eq!(normalize_unit("46.0 °C"), "°C");
    assert_eq!(normalize_unit("  - "), "-");
    assert_eq!(normalize_unit("12"), "");
    assert_eq!(normalize_unit(""), "");
    assert_eq!(unit_family("MB"), "bytes");
    assert_eq!(unit_family("KB/s"), "bytes_per_second");
    assert_eq!(unit_family("RPM"), "RPM");
}

#[test]
fn compare_schema_ignores_live_value_drift_when_paths_and_units_match() {
    let ohm = obj(vec![("Children", Json::Array(vec![sensor_node("46.0 °C", "36.0 °C", "49.0 °C")]))]);
    let rendered = obj(vec![("Children", Json::Array(vec![sensor_node("55.5 °C", "40.0 °C", "61.0 °C")]))]);
    let value = compare_schema(&rendered, &ohm);
    assert_eq!(boolean(&value, "compatible"), Some(true));
    assert_eq!(array_len(&value, "unit_mismatches"), Some(0));
    assert_eq!(array_len(&value, "metadata_mismatches"), Some(0));
}

#[test]
fn compare_schema_flags_unit_mismatches() {
    let node = |v: &str| {
        obj(vec![
            ("Text", s("CPU")),
            ("Type", s("Temperature")),
            ("SensorId", s("/test/temperature/0")),
            ("Value", s(v)),
            ("Children", Json::Array(vec![])),
        ])
    };
    let ohm = obj(vec![("Children", Json::Array(vec![node("46.0 °C")]))]);
    let rendered = obj(vec![("Children", Json::Array(vec![node("46.0 V")]))]);
    let value = compare_schema(&rendered, &ohm);
    assert_eq!(boolean(&value, "compatible"), Some(false));
    assert_eq!(array_len(&value, "unit_mismatches"), Some(1));
}

#[test]
fn compare_schema_lists_paths_on_one_side_only() {
    let ohm = obj(vec![("A", s("x")), ("B", s("y"))]);
    let data = obj(vec![("A", s("x")), ("C", s("z"))]);
    let value = compare_schema(&data, &ohm);
    assert_eq!(boolean(&value, "compatible"), Some(false));
    match json_get(&value, "only_in_data") {
        Some(Json::Array(a)) => {
            assert_eq!(a.len(), 1);
            assert!(matches!(&a[0], Json::Str(p) if p == "C"));
        }
        _ => panic!("only_in_data is an array"),
    }
    match json_get(&value, "only_in_ohm") {
        Some(Json::Array(a)) => assert!(matches!(&a[0], Json::Str(p) if p == "B")),
        _ => panic!("only_in_ohm is an array"),
    }
}

#[test]
fn metadata_changes_are_mismatches() {
    let ohm = obj(vec![("Text", s("CPU"))]);
    let data = obj(vec![("Text", s("GPU"))]);
    let value = compare_schema(&data, &ohm);
    assert_eq!(array_len(&value, "metadata_mismatches"), Some(1));
    assert_eq!(
        json_get_str(&value, "note").map(|n| n.as_str()),
        Some("value drift is ignored; only schema paths, units, and sensor metadata are enforced")
    );
}

#[test]
fn compare_route_uses_raw_and_view_uses_rendered_data() {
    let ohm_tree = obj(vec![(
        "Children",
        Json::Array(vec![obj(vec![
            ("SensorId", s("sensor-1")),
            ("Text", s("Test Temp")),
            ("Type", s("Temperature")),
            ("Value", s("41.00 °C")),
            ("RawValue", s("41000")),
            ("Children", Json::Array(vec![])),
        ])]),
    )]);
    let mut ohm_raw: Vec<(String, Json)> = Vec::new();
    hm_cx::tree::collect_raw_sensor_entries(&ohm_tree, &mut ohm_raw);
    let ohm_raw = Json::Object(ohm_raw);
    let raw = obj(vec![(
        "sensor-1",
        obj(vec![
            ("Value", s("42.00 °C")),
            ("RawValue", s("42000")),
            ("Text", s("Test Temp")),
            ("Type", s("Temperature")),
        ]),
    )]);
    let report = compare_raw(&ohm_raw, &raw, "", "");
    assert_eq!(boolean(&report, "equal"), Some(false));
    assert_eq!(number(&report, "raw_top_keys_count").as_deref(), Some("1"));
    assert_eq!(array_len(&report, "only_in_raw"), Some(0));
    assert_eq!(array_len(&report, "only_in_ohm"), Some(0));
    match json_get(&report, "differing_keys") {
        Some(Json::Array(a)) => assert!(matches!(&a[0], Json::Str(k) if k == "sensor-1")),
        _ => panic!("differing keys listed"),
    }

    let rendered = obj(vec![(
        "Children",
        Json::Array(vec![obj(vec![
            ("Children", Json::Array(vec![])),
            ("RawValue", s("42000")),
            ("SensorId", s("sensor-1")),
            ("Text", s("Test Temp")),
            ("Type", s("Temperature")),
            ("Value", s("42.00 °C")),
        ])]),
    )]);
    let view_text = compare_view_html(&ohm_tree, &rendered);
    assert!(view_text.contains("data.json"));
    assert!(view_text.contains("DATA"));
    assert!(view_text.contains("Children"));
    assert!(view_text.contains("42.00"));
    assert!(view_text.contains("sensor-1"));
}

#[test]
fn compare_reports_equal_trees() {
    let a = obj(vec![("x", Json::Number("0.0".to_string()))]);
    let b = obj(vec![("x", Json::Number("-0.0".to_string()))]);
    assert!(json_equal(&a, &b));
    let report = compare_raw(&a, &b, "", "");
    assert_eq!(boolean(&report, "equal"), Some(true));
    let c = obj(vec![("x", Json::Number("1".to_string()))]);
    assert!(!json_equal(&a, &c));
}

#[test]
fn compare_previews_values_that_are_not_objects() {
    let long = "x".repeat(1100);
    let report = compare_raw(&Json::Array(vec![]), &Json::Null, &long, "null");
    assert_eq!(json_get_str(&report, "ohm_type").map(|x| x.as_str()), Some("array"));
    assert_eq!(json_get_str(&report, "raw_type").map(|x| x.as_str()), Some("null"));
    let preview = json_get_str(&report, "ohm_preview").unwrap();
    assert_eq!(preview.len(), 1024 + "...[truncated]".len());
    assert!(preview.ends_with("...[truncated]"));
    assert_eq!(json_get_str(&report, "raw_preview").map(|x| x.as_str()), Some("null"));
}

#[test]
fn view_marks_paths_one_side_lacks_and_case_mismatches() {
    let ohm = obj(vec![("Text", s("a")), ("value", s("1"))]);
    let data = obj(vec![("Text", s("a")), ("Value", s("1")), ("Extra", Json::Null)]);
    let page = compare_view_html(&ohm, &data);
    assert!(page.contains("<tr class=\"data-only\"><td><div style='font-family:monospace;color:#333;font-size:0.9em'>Extra</div>"));
    assert!(page.contains("<tr class=\"ohm-only case-mismatch\">"));
    assert!(page.contains("<tr class=\"data-only case-mismatch\">"));
    assert!(page.contains("<tr><td><div style='font-family:monospace;color:#333;font-size:0.9em'>Text</div></td><td><div style='color:#000'>&quot;a&quot;</div>"));
    let empty = compare_view_html(&Json::Null, &s("x"));
    assert_eq!(empty, "<h1>No hierarchical keys found on either side</h1>");
}

#[test]
fn view_rows_come_in_path_order() {
    let tree = obj(vec![("b", Json::Array(vec![s("x"), s("y")])), ("a", obj(vec![("c", Json::Null)]))]);
    let page = compare_view_html(&tree, &tree);
    let pa = page.find(">a<").unwrap();
    let pac = page.find(">a/c<").unwrap();
    let pb = page.find(">b<").unwrap();
    let pb0 = page.find(">b/[0]<").unwrap();
    let pb1 = page.find(">b/[1]<").unwrap();
    assert!(pa < pac && pac < pb && pb < pb0 && pb0 < pb1);
    assert!(page.contains("[2 items]"));
    assert!(page.contains("{1 keys}"));
}

fn rapl_config() -> MappingConfig {
    MappingConfig {
        mappings: vec![MappingEntry {
            ohm: "/amdcpu/0/power/0".to_string(),
            text: "Package".to_string(),
            sensor_type: "Power".to_string(),
            source: SensorSource {
                kind: "powercap_rapl".to_string(),
                path: Some("/definitely/missing/energy_uj".to_string()),
                chip: None,
                key: None,
            },
        }],
    }
}

#[test]
fn health_route_surfaces_mapping_warnings() {
    let cfg = rapl_config();
    let probes = vec![PathProbe { exists: false, read: ReadOutcome::Readable }];
    let warnings = collect_health_warnings(&cfg, &probes);
    let rendered = obj(vec![("Children", Json::Array(vec![]))]);
    let (status, payload) = health_response(Some(&rendered), &warnings);
    assert_eq!(status, 200);
    assert_eq!(json_get_str(&payload, "status").map(|x| x.as_str()), Some("degraded"));
    match json_get(&payload, "warnings") {
        Some(Json::Array(w)) => assert!(w
            .iter()
            .any(|x| matches!(x, Json::Str(m) if m.contains("does not exist")))),
        _ => panic!("warnings array"),
    }
    assert_eq!(
        json_get_str(&payload, "note").map(|x| x.as_str()),
        Some("Package is mapped to RAPL at /definitely/missing/energy_uj but that path does not exist on this host.")
    );
}

#[test]
fn health_warnings_explain_unreadable_rapl_counters_once() {
    let mut cfg = rapl_config();
    cfg.mappings.push(cfg.mappings[0].duplicate());
    let probes = vec![
        PathProbe { exists: true, read: ReadOutcome::PermissionDenied },
        PathProbe { exists: true, read: ReadOutcome::PermissionDenied },
    ];
    let warnings = collect_health_warnings(&cfg, &probes);
    assert_eq!(warnings.len(), 1);
    assert!(warnings[0].contains("cap_dac_read_search,cap_perfmon"));
}

#[test]
fn health_without_snapshot_or_data() {
    let (status, body) = health_response(None, &vec![]);
    assert_eq!(status, 200);
    assert_eq!(json_get_str(&body, "note").map(|x| x.as_str()), Some("no live snapshot configured"));
    let (status, body) = health_response(Some(&Json::Null), &vec![]);
    assert_eq!(status, 500);
    assert_eq!(json_get_str(&body, "status").map(|x| x.as_str()), Some("unhealthy"));
    let live = obj(vec![("a", Json::Null), ("b", Json::Null)]);
    let (status, body) = health_response(Some(&live), &vec![]);
    assert_eq!(status, 200);
    assert_eq!(json_get_str(&body, "status").map(|x| x.as_str()), Some("ok"));
    assert_eq!(number(&body, "snapshot_size").as_deref(), Some("2"));
    assert!(json_get(&body, "note").is_none());
}

#[test]
fn data_json_with_null_snapshot_returns_500() {
    match data_json_response(Some(&Json::Null), 1670000000) {
        DataJsonReply::NoData(v) => {
            assert_eq!(json_get_str(&v, "error").map(|x| x.as_str()), Some("no sensor data available"));
            assert_eq!(number(&v, "snapshot_size").as_deref(), Some("0"));
            assert_eq!(number(&v, "timestamp_unix").as_deref(), Some("1670000000"));
            assert_eq!(
                json_get_str(&v, "suggestion").map(|x| x.as_str()),
                Some("inspect /snapshot.json and verify config.yml mappings")
            );
        }
        _ => panic!("a null snapshot is an error"),
    }
    assert!(matches!(data_json_response(None, 0), DataJsonReply::Bundled));
    let live = obj(vec![("a", Json::Null)]);
    assert!(matches!(data_json_response(Some(&live), 0), DataJsonReply::Snapshot));
    assert!(matches!(data_json_response(Some(&obj(vec![])), 0), DataJsonReply::NoData(_)));
}

#[test]
fn compare_schema_ignores_the_override_marker() {
    let ohm = obj(vec![("Children", Json::Array(vec![sensor_node("46.0 °C", "36.0 °C", "49.0 °C")]))]);
    let marked = match sensor_node("46.0 °C", "36.0 °C", "49.0 °C") {
        Json::Object(mut e) => {
            e.push(("overload".to_string(), Json::Bool(true)));
            e.sort_by(|a, b| a.0.cmp(&b.0));
            Json::Object(e)
        }
        other => other,
    };
    let rendered = obj(vec![("Children", Json::Array(vec![marked]))]);
    let value = compare_schema(&rendered, &ohm);
    assert_eq!(boolean(&value, "compatible"), Some(true));
    assert_eq!(array_len(&value, "only_in_data"), Some(0));
    assert_eq!(array_len(&value, "only_in_ohm"), Some(0));
    assert_eq!(array_len(&value, "unit_mismatches"), Some(0));
    assert_eq!(array_len(&value, "metadata_mismatches"), Some(0));
}

#[test]
fn compare_of_two_objects_needs_no_preview_cut() {
    let ohm = obj(vec![("a", s("46.0 °C"))]);
    let raw = obj(vec![("b", s("47.0 °C"))]);
    assert!(!previews_shown(&ohm, &raw));
    assert!(!previews_shown(&ohm, &ohm));
    assert!(previews_shown(&ohm, &s("x")));
    let text = format!("{}°", "a".repeat(1023));
    let report = compare_raw(&ohm, &raw, &text, &text);
    assert_eq!(boolean(&report, "equal"), Some(false));
    assert_eq!(array_len(&report, "only_in_ohm"), Some(1));
    assert_eq!(array_len(&report, "only_in_raw"), Some(1));
}
