use hm_cx::json::{json_get, json_get_str, Json};
use hm_cx::mapping::OhmSensor;
use hm_cx::sampling::{sensor_value_format, split_template_value};
use hm_cx::tree::{
    apply_values_to_asset, clear_unmapped_live_values, collect_ohm_sensors,
    collect_raw_sensor_entries, sample_queries, walk_ends_within, SampleFacts, SampleQuery,
};

fn obj(entries: Vec<(&str, Json)>) -> Json {
    let mut e: Vec<(String, Json)> = entries.into_iter().map(|(k, v)| (k.to_string(), v)).collect();
    e.sort_by(|a, b| a.0.cmp(&b.0));
    Json::Object(e)
}

fn s(text: &str) -> Json {
    Json::Str(text.to_string())
}

fn child(asset: &Json, i: usize) -> &Json {
    match json_get(asset, "Children") {
        Some(Json::Array(items)) => &items[i],
        _ => panic!("no children"),
    }
}

fn reading_number(text: &str) -> Option<f64> {
    text.split_whitespace()
        .next()
        .unwrap_or("")
        .replace(',', ".")
        .parse::<f64>()
        .ok()
}

fn format_reading(v: f64, sensor_type: &str, template: Option<&str>) -> String {
    if let Some(t) = template {
        let (decimals, unit) = split_template_value(t);
        if let Some(unit) = unit {
            return format!("{:.*} {}", decimals, v, unit);
        }
    }
    let (decimals, suffix) = sensor_value_format(sensor_type);
    format!("{:.*}{}", decimals, v, suffix)
}

fn facts_for(queries: &[SampleQuery]) -> Vec<SampleFacts> {
    queries
        .iter()
        .map(|q| {
            let current = q.value.as_deref().and_then(reading_number);
            let min = q.min.as_deref().and_then(reading_number);
            let max = q.max.as_deref().and_then(reading_number);
            SampleFacts {
                formatted: current.map(|c| format_reading(c, &q.sensor_type, q.template.as_deref())),
                below_min: current.is_some_and(|c| min.map_or(true, |m| c < m)),
                above_max: current.is_some_and(|c| max.map_or(true, |m| c > m)),
            }
        })
        .collect()
}

fn apply(sampled: &Vec<(String, Json)>, asset: &mut Json, init: &mut Vec<String>) {
    let queries = sample_queries(sampled, asset);
    let facts = facts_for(&queries);
    apply_values_to_asset(sampled, asset, init, &facts);
}

#[test]
fn test_collect_ohm_sensors_simple() {
    let v = obj(vec![
        ("SensorId", s("/lpc/it8688e/0/temperature/2")),
        ("Text", s("CPU Temp")),
        ("Type", s("Temperature")),
    ]);
    let mut out: Vec<OhmSensor> = Vec::new();
    collect_ohm_sensors(&v, &mut out);
    assert_eq!(out.len(), 1);
    let s = &out[0];
    assert_eq!(s.ohm, "/lpc/it8688e/0/temperature/2");
    assert_eq!(s.text, "CPU Temp");
    assert_eq!(s.sensor_type, "Temperature");
}

#[test]
fn test_collect_ohm_sensors_nested_children() {
    let v = obj(vec![(
        "Children",
        Json::Array(vec![
            obj(vec![("SensorId", s("/foo/1/voltage/0")), ("Text", s("Vcore")), ("Type", s("Voltage"))]),
            obj(vec![("SensorId", s("/bar/1/fan/1")), ("Text", s("Chassis Fan")), ("Type", s("Fan"))]),
        ]),
    )]);
    let mut out: Vec<OhmSensor> = Vec::new();
    collect_ohm_sensors(&v, &mut out);
    assert_eq!(out.len(), 2);
    assert_eq!(out[0].ohm, "/foo/1/voltage/0");
    assert_eq!(out[0].text, "Vcore");
    assert_eq!(out[0].sensor_type, "Voltage");
    assert_eq!(out[1].ohm, "/bar/1/fan/1");
    assert_eq!(out[1].text, "Chassis Fan");
    assert_eq!(out[1].sensor_type, "Fan");
}

#[test]
fn raw_entries_are_keyed_by_sensor_id() {
    let v = obj(vec![(
        "Children",
        Json::Array(vec![obj(vec![
            ("SensorId", s("sensor-1")),
            ("Text", s("Test Temp")),
            ("Type", s("Temperature")),
            ("Value", s("41.00 °C")),
            ("RawValue", s("41000")),
            ("Children", Json::Array(vec![])),
        ])]),
    )]);
    let mut raw: Vec<(String, Json)> = Vec::new();
    collect_raw_sensor_entries(&v, &mut raw);
    assert_eq!(raw.len(), 1);
    assert_eq!(raw[0].0, "sensor-1");
    assert_eq!(json_get_str(&raw[0].1, "Value").map(|x| x.as_str()), Some("41.00 °C"));
    assert_eq!(json_get_str(&raw[0].1, "RawValue").map(|x| x.as_str()), Some("41000"));
    assert!(json_get(&raw[0].1, "Children").is_none());
    assert!(json_get(&raw[0].1, "SensorId").is_none());
}

#[test]
fn test_apply_values_to_asset_case_sensitive() {
    let mut asset = obj(vec![("Children", Json::Array(vec![obj(vec![("SensorId", s("/test/1"))])]))]);
    let mut initialized_min_max: Vec<String> = Vec::new();
    let sampled = vec![(
        "/test/1".to_string(),
        obj(vec![("Value", s("42")), ("RawValue", s("42")), ("Text", s("Test")), ("Type", s("Voltage"))]),
    )];
    apply(&sampled, &mut asset, &mut initialized_min_max);
    let c = child(&asset, 0);
    assert!(json_get(c, "Value").is_some());
    assert!(json_get(c, "RawValue").is_some());
    assert!(json_get(c, "Text").is_some());
    assert!(json_get(c, "Type").is_some());
    assert!(json_get(c, "value").is_none());
    assert!(json_get(c, "rawvalue").is_none());
    assert!(json_get(c, "text").is_none());
    assert!(json_get(c, "type").is_none());
}

#[test]
fn test_clear_unmapped_live_values_marks_stale_entries_unavailable() {
    let mut asset = obj(vec![(
        "Children",
        Json::Array(vec![
            obj(vec![
                ("SensorId", s("/test/mapped")),
                ("Value", s("42.00 °C")),
                ("RawValue", s("42000")),
                ("Min", s("42.00 °C")),
                ("Max", s("42.00 °C")),
                ("RawMin", s("42000")),
                ("RawMax", s("42000")),
            ]),
            obj(vec![
                ("SensorId", s("/test/stale")),
                ("Value", s("61.4 W")),
                ("RawValue", s("61.4 W")),
                ("Min", s("51.5 W")),
                ("Max", s("83.4 W")),
                ("RawMin", s("51.5 W")),
                ("RawMax", s("83.4 W")),
            ]),
        ]),
    )]);
    let sampled = vec![(
        "/test/mapped".to_string(),
        obj(vec![
            ("Value", s("42.00 °C")),
            ("RawValue", s("42000")),
            ("Text", s("Mapped")),
            ("Type", s("Temperature")),
        ]),
    )];
    clear_unmapped_live_values(&sampled, &mut asset);
    let stale = child(&asset, 1);
    for key in ["Value", "RawValue", "Min", "Max", "RawMin", "RawMax"] {
        assert_eq!(json_get_str(stale, key).map(|x| x.as_str()), Some("-"));
    }
    let mapped = child(&asset, 0);
    assert_eq!(json_get_str(mapped, "Value").map(|x| x.as_str()), Some("42.00 °C"));
    assert_eq!(json_get_str(mapped, "RawValue").map(|x| x.as_str()), Some("42000"));
}

#[test]
fn test_apply_values_to_asset_tracks_runtime_min_max() {
    let mut asset = obj(vec![(
        "Children",
        Json::Array(vec![obj(vec![
            ("SensorId", s("/test/1")),
            ("Min", s("1.00 V")),
            ("Max", s("9.00 V")),
            ("RawMin", s("1.00 V")),
            ("RawMax", s("9.00 V")),
        ])]),
    )]);
    let mut initialized_min_max: Vec<String> = Vec::new();
    let first = vec![(
        "/test/1".to_string(),
        obj(vec![("Value", s("4.000 V")), ("RawValue", s("4000")), ("Text", s("Test")), ("Type", s("Voltage"))]),
    )];
    apply(&first, &mut asset, &mut initialized_min_max);
    let c = child(&asset, 0);
    assert_eq!(json_get_str(c, "Min").map(|x| x.as_str()), Some("4.000 V"));
    assert_eq!(json_get_str(c, "Max").map(|x| x.as_str()), Some("4.000 V"));
    assert_eq!(json_get_str(c, "RawMin").map(|x| x.as_str()), Some("4000"));
    assert_eq!(json_get_str(c, "RawMax").map(|x| x.as_str()), Some("4000"));

    let second = vec![(
        "/test/1".to_string(),
        obj(vec![("Value", s("3.500 V")), ("RawValue", s("3500")), ("Text", s("Test")), ("Type", s("Voltage"))]),
    )];
    apply(&second, &mut asset, &mut initialized_min_max);
    let c = child(&asset, 0);
    assert_eq!(json_get_str(c, "Min").map(|x| x.as_str()), Some("3.500 V"));
    assert_eq!(json_get_str(c, "Max").map(|x| x.as_str()), Some("4.000 V"));
    assert_eq!(json_get_str(c, "RawMin").map(|x| x.as_str()), Some("3500"));
    assert_eq!(json_get_str(c, "RawMax").map(|x| x.as_str()), Some("4000"));
}

#[test]
fn queries_follow_the_walk_and_read_the_node() {
    let asset = obj(vec![(
        "Children",
        Json::Array(vec![
            obj(vec![("SensorId", s("/a")), ("Type", s("Fan")), ("Value", s("1200 RPM"))]),
            obj(vec![("SensorId", s("/b"))]),
        ]),
    )]);
    let sampled = vec![
        ("/a".to_string(), obj(vec![("Value", s("1300 RPM")), ("RawValue", s("1300"))])),
        ("/c".to_string(), obj(vec![("Value", s("1"))])),
    ];
    let q = sample_queries(&sampled, &asset);
    assert_eq!(q.len(), 1);
    assert_eq!(q[0].sensor_id, "/a");
    assert_eq!(q[0].sensor_type, "Fan");
    assert_eq!(q[0].template.as_deref(), Some("1200 RPM"));
    assert_eq!(q[0].value.as_deref(), Some("1300 RPM"));
    assert!(q[0].min.is_none());
}

#[test]
fn apply_values_walks_the_children_a_sample_brings() {
    let mut asset = obj(vec![(
        "Children",
        Json::Array(vec![obj(vec![
            ("SensorId", s("/a")),
            ("Children", Json::Array(vec![obj(vec![("SensorId", s("/old"))])])),
        ])]),
    )]);
    let sampled = vec![
        (
            "/a".to_string(),
            obj(vec![("Children", Json::Array(vec![obj(vec![("SensorId", s("/b"))])])), ("Text", s("A"))]),
        ),
        ("/b".to_string(), obj(vec![("Text", s("B"))])),
        ("/old".to_string(), obj(vec![("Text", s("Old"))])),
    ];
    assert!(walk_ends_within(&sampled, &asset, sampled.len()));
    let queries = sample_queries(&sampled, &asset);
    let ids: Vec<&str> = queries.iter().map(|q| q.sensor_id.as_str()).collect();
    assert_eq!(ids, vec!["/a", "/b"]);
    let mut init: Vec<String> = Vec::new();
    apply(&sampled, &mut asset, &mut init);
    let a = child(&asset, 0);
    assert_eq!(json_get_str(a, "Text").map(|x| x.as_str()), Some("A"));
    let b = child(a, 0);
    assert_eq!(json_get_str(b, "SensorId").map(|x| x.as_str()), Some("/b"));
    assert_eq!(json_get_str(b, "Text").map(|x| x.as_str()), Some("B"));
    match json_get(a, "Children") {
        Some(Json::Array(items)) => assert_eq!(items.len(), 1),
        _ => panic!("no children"),
    }
}

#[test]
fn walk_ends_within_detects_samples_leading_back_to_their_sensor() {
    let asset = obj(vec![("SensorId", s("/a"))]);
    let cyclic = vec![
        ("/a".to_string(), obj(vec![("Children", Json::Array(vec![obj(vec![("SensorId", s("/b"))])]))])),
        ("/b".to_string(), obj(vec![("Children", Json::Array(vec![obj(vec![("SensorId", s("/a"))])]))])),
    ];
    assert!(!walk_ends_within(&cyclic, &asset, cyclic.len()));
    let chain = vec![
        ("/a".to_string(), obj(vec![("Children", Json::Array(vec![obj(vec![("SensorId", s("/b"))])]))])),
        ("/b".to_string(), obj(vec![("Children", Json::Array(vec![]))])),
    ];
    assert!(walk_ends_within(&chain, &asset, 2));
    assert!(!walk_ends_within(&chain, &asset, 1));
}
