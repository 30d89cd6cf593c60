//! The mapping configuration: which local data source backs each OHM sensor.
use vstd::prelude::*;

verus! {

/// Where a sensor value is read from.  `kind` is one of `sysfs`,
/// `sensors_json`, `powercap_rapl` or `proc_cpuinfo`; sysfs, powercap and
/// cpuinfo sources carry a `path`, `sensors_json` sources a `chip` and a
/// `key` (a `/`-separated path inside the chip), cpuinfo sources a selector
/// in `key`.
pub struct SensorSource {
    pub kind: String,
    pub path: Option<String>,
    pub chip: Option<String>,
    pub key: Option<String>,
}

pub struct SourceView {
    pub kind: Seq<char>,
    pub path: Option<Seq<char>>,
    pub chip: Option<Seq<char>>,
    pub key: Option<Seq<char>>,
}

impl View for SensorSource {
    type V = SourceView;

    open spec fn view(&self) -> SourceView {
        SourceView {
            kind: self.kind@,
            path: self.path.deep_view(),
            chip: self.chip.deep_view(),
            key: self.key.deep_view(),
        }
    }
}

/// One OHM sensor and the source that backs it.
pub struct MappingEntry {
    pub ohm: String,
    pub text: String,
    pub sensor_type: String,
    pub source: SensorSource,
}

pub struct EntryView {
    pub ohm: Seq<char>,
    pub text: Seq<char>,
    pub sensor_type: Seq<char>,
    pub source: SourceView,
}

impl View for MappingEntry {
    type V = EntryView;

    open spec fn view(&self) -> EntryView {
        EntryView {
            ohm: self.ohm@,
            text: self.text@,
            sensor_type: self.sensor_type@,
            source: self.source@,
        }
    }
}

/// The contents of `config.yml`.
pub struct MappingConfig {
    pub mappings: Vec<MappingEntry>,
}

pub open spec fn entry_views(v: Seq<MappingEntry>) -> Seq<EntryView> {
    v.map_values(|e: MappingEntry| e@)
}

impl View for MappingConfig {
    type V = Seq<EntryView>;

    open spec fn view(&self) -> Seq<EntryView> {
        entry_views(self.mappings@)
    }
}

/// A sensor of the OHM tree: its id, label and type.
pub struct OhmSensor {
    pub ohm: String,
    pub text: String,
    pub sensor_type: String,
}

pub struct OhmSensorView {
    pub ohm: Seq<char>,
    pub text: Seq<char>,
    pub sensor_type: Seq<char>,
}

impl View for OhmSensor {
    type V = OhmSensorView;

    open spec fn view(&self) -> OhmSensorView {
        OhmSensorView { ohm: self.ohm@, text: self.text@, sensor_type: self.sensor_type@ }
    }
}

pub fn clone_opt_string(s: &Option<String>) -> (r: Option<String>)
    ensures
        r.deep_view() == s.deep_view(),
{
    match s {
        Some(v) => Some(v.clone()),
        None => None,
    }
}

impl SensorSource {
    pub fn duplicate(&self) -> (r: SensorSource)
        ensures
            r@ == self@,
    {
        SensorSource {
            kind: self.kind.clone(),
            path: clone_opt_string(&self.path),
            chip: clone_opt_string(&self.chip),
            key: clone_opt_string(&self.key),
        }
    }
}

} // verus!
