//! Resolving, checking and reconciling the sources of a mapping
//! configuration.
use vstd::prelude::*;
use crate::json::{Json, JsonV};
use crate::mapping::{
    entry_views, EntryView, MappingConfig, MappingEntry, OhmSensor, OhmSensorView, SensorSource,
    SourceView,
};
use crate::names::{
    channel_fits, parse_type_index, path_matches_type, sensor_type_key,
    sysfs_path_matches_sensor_type, sysfs_value_family, type_index, type_key, value_family,
};
use crate::score::label_fits;
use crate::select::{
    cand_views, distinct_paths, chosen_powercap, chosen_sysfs, cpuinfo_key, lemma_select_powercap_chosen,
    lemma_select_sysfs_chosen, opt_cpuinfo_source, opt_powercap_source, opt_sysfs_source,
    select_powercap_source, select_proc_cpuinfo_source, select_sysfs_source, source_opt_view,
};
use crate::sensors::{chosen_json, find_in_sensors_json, lemma_find_chosen, opt_pair_view};
use crate::text::{
    chars_of, decimal, decimal_exec, eq_str, parse_usize, parse_usize_exec, starts_with,
    starts_with_str, string_of,
};

verus! {

/// Whether a configured source can be read as it stands: sysfs sources need
/// an existing path whose unit family fits the type, or whose file name
/// names no hwmon family at all (a file the user pointed at by hand; a
/// known family of another unit is still refused), powercap sources an
/// existing path, cpuinfo sources an existing path and a selector,
/// sensors-json sources a chip and a key.  `path_exists` tells whether the
/// source's path exists on this host.
pub open spec fn usable(src: SourceView, t: Seq<char>, path_exists: bool) -> bool {
    if src.kind == "sysfs"@ {
        src.path is Some && path_exists && (path_matches_type(src.path->0, t) || value_family(
            src.path->0,
        ) is None)
    } else if src.kind == "powercap_rapl"@ {
        src.path is Some && path_exists
    } else if src.kind == "proc_cpuinfo"@ {
        src.path is Some && path_exists && src.key is Some
    } else if src.kind == "sensors_json"@ {
        src.chip is Some && src.key is Some
    } else {
        false
    }
}

pub fn source_is_usable(source: &SensorSource, sensor_type: &str, path_exists: bool) -> (r: bool)
    ensures
        r == usable(source@, sensor_type@, path_exists),
{
    let kind = chars_of(source.kind.as_str());
    let k = kind.as_slice();
    if eq_str(k, "sysfs") {
        match &source.path {
            Some(p) => path_exists && (sysfs_path_matches_sensor_type(p.as_str(), sensor_type)
                || sysfs_value_family(p.as_str()).is_none()),
            None => false,
        }
    } else if eq_str(k, "powercap_rapl") {
        source.path.is_some() && path_exists
    } else if eq_str(k, "proc_cpuinfo") {
        source.path.is_some() && path_exists && source.key.is_some()
    } else if eq_str(k, "sensors_json") {
        source.chip.is_some() && source.key.is_some()
    } else {
        false
    }
}

pub open spec fn json_source(chip: Seq<char>, key: Seq<char>) -> SourceView {
    SourceView { kind: "sensors_json"@, path: None, chip: Some(chip), key: Some(key) }
}

/// The source a sensor resolves to: the package RAPL domain, else a
/// `/proc/cpuinfo` selector, else the best hwmon reading, else the best
/// `sensors -j` reading.
pub open spec fn resolved(
    id: Seq<char>,
    text: Seq<char>,
    t: Seq<char>,
    powercap: Seq<(Seq<char>, Seq<(Seq<char>, Seq<char>)>)>,
    sysfs: Seq<(Seq<char>, Seq<(Seq<char>, Seq<char>)>)>,
    sensors_json: JsonV,
) -> Option<SourceView> {
    match opt_powercap_source(chosen_powercap(powercap, id, text, t)) {
        Some(s) => Some(s),
        None => match opt_cpuinfo_source(cpuinfo_key(id, text, t)) {
            Some(s) => Some(s),
            None => match opt_sysfs_source(chosen_sysfs(sysfs, id, text, t)) {
                Some(s) => Some(s),
                None => match chosen_json(sensors_json, id, text, t) {
                    Some((c, k)) => Some(json_source(c, k)),
                    None => None,
                },
            },
        },
    }
}

pub fn resolve_mapping_source(
    sensor_id: &str,
    text: &str,
    sensor_type: &str,
    powercap: &[(String, Vec<(String, String)>)],
    sysfs: &[(String, Vec<(String, String)>)],
    sensors_json: &Json,
) -> (r: Option<SensorSource>)
    requires
        distinct_paths(powercap@),
        distinct_paths(sysfs@),
        channel_fits(sensor_id@, sensor_type@),
        label_fits(text@),
    ensures
        source_opt_view(r) == resolved(
            sensor_id@,
            text@,
            sensor_type@,
            cand_views(powercap@),
            cand_views(sysfs@),
            sensors_json@,
        ),
{
    let pc = select_powercap_source(sensor_id, text, sensor_type, powercap);
    proof {
        lemma_select_powercap_chosen(pc, cand_views(powercap@), sensor_id@, text@, sensor_type@);
    }
    if pc.is_some() {
        return pc;
    }
    let cpu = select_proc_cpuinfo_source(sensor_id, text, sensor_type);
    if cpu.is_some() {
        return cpu;
    }
    let sys = select_sysfs_source(sensor_id, text, sensor_type, sysfs);
    proof {
        lemma_select_sysfs_chosen(sys, cand_views(sysfs@), sensor_id@, text@, sensor_type@);
    }
    if sys.is_some() {
        return sys;
    }
    let found = find_in_sensors_json(sensors_json, sensor_id, text, sensor_type);
    proof {
        lemma_find_chosen(found, sensors_json@, sensor_id@, text@, sensor_type@);
    }
    match found {
        Some((chip, key)) => Some(
            SensorSource {
                kind: string_of(chars_of("sensors_json").as_slice()),
                path: None,
                chip: Some(chip),
                key: Some(key),
            },
        ),
        None => None,
    }
}

pub open spec fn with_source(e: EntryView, s: SourceView) -> EntryView {
    EntryView { source: s, ..e }
}

/// The entries that survive reconciliation, in order: usable entries as
/// they are, unusable entries with the source they resolve to; entries that
/// resolve to nothing are dropped.
pub open spec fn reconciled(
    entries: Seq<EntryView>,
    exists: Seq<bool>,
    powercap: Seq<(Seq<char>, Seq<(Seq<char>, Seq<char>)>)>,
    sysfs: Seq<(Seq<char>, Seq<(Seq<char>, Seq<char>)>)>,
    sensors_json: JsonV,
) -> Seq<EntryView>
    decreases entries.len(),
{
    if entries.len() == 0 {
        Seq::empty()
    } else {
        let n = (entries.len() - 1) as int;
        let prev = reconciled(
            entries.take(n),
            exists.take(n),
            powercap,
            sysfs,
            sensors_json,
        );
        let e = entries[n];
        if usable(e.source, e.sensor_type, exists[n]) {
            prev.push(e)
        } else {
            match resolved(e.ohm, e.text, e.sensor_type, powercap, sysfs, sensors_json) {
                Some(s) => prev.push(with_source(e, s)),
                None => prev,
            }
        }
    }
}

/// Every entry satisfies the bounds the source search needs.
pub open spec fn entries_searchable(entries: Seq<EntryView>) -> bool {
    forall|i: int|
        0 <= i < entries.len() ==> channel_fits(#[trigger] entries[i].ohm, entries[i].sensor_type)
            && label_fits(entries[i].text)
}

impl MappingEntry {
    pub fn duplicate(&self) -> (r: MappingEntry)
        ensures
            r@ == self@,
    {
        MappingEntry {
            ohm: self.ohm.clone(),
            text: self.text.clone(),
            sensor_type: self.sensor_type.clone(),
            source: self.source.duplicate(),
        }
    }
}

/// Keeps the usable mappings and re-resolves the others against the
/// sensors found on this host; mappings that resolve to nothing are dropped.
/// `path_exists[i]` tells whether the path of mapping `i` exists.
pub fn reconcile_mapping_config(
    cfg: &mut MappingConfig,
    path_exists: &Vec<bool>,
    powercap: &[(String, Vec<(String, String)>)],
    sysfs: &[(String, Vec<(String, String)>)],
    sensors_json: &Json,
)
    requires
        distinct_paths(powercap@),
        distinct_paths(sysfs@),
        path_exists@.len() == old(cfg).mappings@.len(),
        entries_searchable(old(cfg)@),
    ensures
        final(cfg)@ == reconciled(
            old(cfg)@,
            path_exists@,
            cand_views(powercap@),
            cand_views(sysfs@),
            sensors_json@,
        ),
{
    let ghost entries = cfg@;
    let ghost pcv = cand_views(powercap@);
    let ghost sysv = cand_views(sysfs@);
    let mut out: Vec<MappingEntry> = Vec::new();
    let mut i: usize = 0;
    assert(entries.take(0) =~= Seq::<EntryView>::empty());
    assert(entry_views(out@) =~= reconciled(
        entries.take(0),
        path_exists@.take(0),
        pcv,
        sysv,
        sensors_json@,
    ));
    while i < cfg.mappings.len()
        invariant
            i <= cfg.mappings@.len(),
            entries == cfg@,
            entries.len() == cfg.mappings@.len(),
            path_exists@.len() == cfg.mappings@.len(),
            entries_searchable(entries),
            pcv == cand_views(powercap@),
            distinct_paths(powercap@),
            distinct_paths(sysfs@),
            sysv == cand_views(sysfs@),
            forall|k: int| 0 <= k < entries.len() ==> #[trigger] entries[k] == cfg.mappings@[k]@,
            entry_views(out@) == reconciled(
                entries.take(i as int),
                path_exists@.take(i as int),
                pcv,
                sysv,
                sensors_json@,
            ),
        decreases cfg.mappings@.len() - i,
    {
        let m = &cfg.mappings[i];
        assert(entries[i as int] == m@);
        assert(entries.take(i + 1).take(i as int) =~= entries.take(i as int));
        assert(path_exists@.take(i + 1).take(i as int) =~= path_exists@.take(i as int));
        assert(entries.take(i + 1)[i as int] == m@);
        assert(path_exists@.take(i + 1)[i as int] == path_exists@[i as int]);
        let ghost before = entry_views(out@);
        if source_is_usable(&m.source, m.sensor_type.as_str(), path_exists[i]) {
            out.push(m.duplicate());
            assert(entry_views(out@) =~= before.push(m@));
        } else {
            let r = resolve_mapping_source(
                m.ohm.as_str(),
                m.text.as_str(),
                m.sensor_type.as_str(),
                powercap,
                sysfs,
                sensors_json,
            );
            match r {
                Some(source) => {
                    let mut e = m.duplicate();
                    e.source = source;
                    out.push(e);
                    assert(entry_views(out@) =~= before.push(with_source(m@, source_opt_view(r)->0)));
                },
                None => {},
            }
        }
        i = i + 1;
    }
    assert(entries.take(entries.len() as int) =~= entries);
    assert(path_exists@.take(path_exists@.len() as int) =~= path_exists@);
    cfg.mappings = out;
}

pub open spec fn sensor_views(v: Seq<OhmSensor>) -> Seq<OhmSensorView> {
    v.map_values(|s: OhmSensor| s@)
}

/// The configuration generated for the sensors of an OHM tree: one entry
/// per sensor that resolves to a source, in tree order.
pub open spec fn generated(
    sensors: Seq<OhmSensorView>,
    powercap: Seq<(Seq<char>, Seq<(Seq<char>, Seq<char>)>)>,
    sysfs: Seq<(Seq<char>, Seq<(Seq<char>, Seq<char>)>)>,
    sensors_json: JsonV,
) -> Seq<EntryView>
    decreases sensors.len(),
{
    if sensors.len() == 0 {
        Seq::empty()
    } else {
        let prev = generated(sensors.drop_last(), powercap, sysfs, sensors_json);
        let s = sensors.last();
        match resolved(s.ohm, s.text, s.sensor_type, powercap, sysfs, sensors_json) {
            Some(src) => prev.push(
                EntryView { ohm: s.ohm, text: s.text, sensor_type: s.sensor_type, source: src },
            ),
            None => prev,
        }
    }
}

pub open spec fn sensors_searchable(sensors: Seq<OhmSensorView>) -> bool {
    forall|i: int|
        0 <= i < sensors.len() ==> channel_fits(#[trigger] sensors[i].ohm, sensors[i].sensor_type)
            && label_fits(sensors[i].text)
}

/// The mapping configuration for the sensors of an OHM tree against the
/// sensors found on this host.
pub fn build_mapping_config(
    sensors: &Vec<OhmSensor>,
    powercap: &[(String, Vec<(String, String)>)],
    sysfs: &[(String, Vec<(String, String)>)],
    sensors_json: &Json,
) -> (r: MappingConfig)
    requires
        distinct_paths(powercap@),
        distinct_paths(sysfs@),
        sensors_searchable(sensor_views(sensors@)),
    ensures
        r@ == generated(
            sensor_views(sensors@),
            cand_views(powercap@),
            cand_views(sysfs@),
            sensors_json@,
        ),
{
    let ghost sv = sensor_views(sensors@);
    let ghost pcv = cand_views(powercap@);
    let ghost sysv = cand_views(sysfs@);
    let mut out: Vec<MappingEntry> = Vec::new();
    let mut i: usize = 0;
    assert(entry_views(out@) =~= generated(sv.take(0), pcv, sysv, sensors_json@));
    while i < sensors.len()
        invariant
            i <= sensors@.len(),
            sv == sensor_views(sensors@),
            sv.len() == sensors@.len(),
            sensors_searchable(sv),
            pcv == cand_views(powercap@),
            distinct_paths(powercap@),
            distinct_paths(sysfs@),
            sysv == cand_views(sysfs@),
            entry_views(out@) == generated(sv.take(i as int), pcv, sysv, sensors_json@),
        decreases sensors@.len() - i,
    {
        let s = &sensors[i];
        assert(sv.take(i + 1).drop_last() =~= sv.take(i as int));
        assert(sv.take(i + 1).last() == s@);
        let ghost before = entry_views(out@);
        assert(generated(sv.take(i + 1), pcv, sysv, sensors_json@) == match resolved(
            s@.ohm,
            s@.text,
            s@.sensor_type,
            pcv,
            sysv,
            sensors_json@,
        ) {
            Some(src) => before.push(
                EntryView { ohm: s@.ohm, text: s@.text, sensor_type: s@.sensor_type, source: src },
            ),
            None => before,
        });
        let r = resolve_mapping_source(
            s.ohm.as_str(),
            s.text.as_str(),
            s.sensor_type.as_str(),
            powercap,
            sysfs,
            sensors_json,
        );
        match r {
            Some(source) => {
                out.push(
                    MappingEntry {
                        ohm: s.ohm.clone(),
                        text: s.text.clone(),
                        sensor_type: s.sensor_type.clone(),
                        source,
                    },
                );
                assert(entry_views(out@) =~= before.push(
                    EntryView {
                        ohm: s@.ohm,
                        text: s@.text,
                        sensor_type: s@.sensor_type,
                        source: source_opt_view(r)->0,
                    },
                ));
                assert(entry_views(out@) == generated(sv.take(i + 1), pcv, sysv, sensors_json@));
            },
            None => {
                assert(entry_views(out@) == generated(sv.take(i + 1), pcv, sysv, sensors_json@));
            },
        }
        i = i + 1;
    }
    assert(sv.take(sensors@.len() as int) =~= sv);
    MappingConfig { mappings: out }
}

/// The label a sensor is shown with: the legacy OHM labels `Fan #n` and
/// `Temperature #n` (n = index + 1) for fans and temperatures of the
/// `/lpc/it8688e/0/` board subtree, the given text everywhere else.
pub open spec fn legacy_text(id: Seq<char>, t: Seq<char>, fallback: Seq<char>) -> Seq<char> {
    match type_index(id) {
        None => fallback,
        Some((kind, idx)) => match parse_usize(idx) {
            None => fallback,
            Some(i) => if starts_with(id, "/lpc/it8688e/0/"@) && kind == "fan"@ && type_key(t)
                == "fan"@ {
                "Fan #"@ + decimal((i + 1) as nat)
            } else if starts_with(id, "/lpc/it8688e/0/"@) && kind == "temperature"@ && type_key(
                t,
            ) == "temperature"@ {
                "Temperature #"@ + decimal((i + 1) as nat)
            } else {
                fallback
            },
        },
    }
}

/// Whether the legacy label's number fits in `usize`.
pub open spec fn legacy_label_fits(id: Seq<char>, t: Seq<char>) -> bool {
    match type_index(id) {
        Some((kind, idx)) => !(parse_usize(idx) == Some(usize::MAX) && starts_with(
            id,
            "/lpc/it8688e/0/"@,
        ) && ((kind == "fan"@ && type_key(t) == "fan"@) || (kind == "temperature"@ && type_key(t)
            == "temperature"@))),
        None => true,
    }
}

fn prefixed_number(prefix: &str, n: u64) -> (r: String)
    ensures
        r@ == prefix@ + decimal(n as nat),
{
    let mut v = chars_of(prefix);
    let d = decimal_exec(n);
    let ghost base = v@;
    let mut j: usize = 0;
    while j < d.len()
        invariant
            j <= d@.len(),
            v@ == base + d@.take(j as int),
        decreases d@.len() - j,
    {
        v.push(d[j]);
        j = j + 1;
        assert(v@ =~= base + d@.take(j as int));
    }
    assert(d@.take(d@.len() as int) =~= d@);
    string_of(v.as_slice())
}

pub fn compatible_sensor_text(sensor_id: &str, sensor_type: &str, fallback_text: &str) -> (r:
    String)
    requires
        legacy_label_fits(sensor_id@, sensor_type@),
    ensures
        r@ == legacy_text(sensor_id@, sensor_type@, fallback_text@),
{
    let fallback = string_of(chars_of(fallback_text).as_slice());
    let (kind, index) = match parse_type_index(sensor_id) {
        Some(p) => p,
        None => return fallback,
    };
    let ic = chars_of(index.as_str());
    let i = match parse_usize_exec(ic.as_slice()) {
        Some(i) => i,
        None => return fallback,
    };
    let id = chars_of(sensor_id);
    if starts_with_str(id.as_slice(), "/lpc/it8688e/0/") {
        let k = sensor_type_key(sensor_type);
        let kc = chars_of(kind.as_str());
        if eq_str(kc.as_slice(), "fan") && eq_str(k.as_slice(), "fan") {
            return prefixed_number("Fan #", (i + 1) as u64);
        }
        if eq_str(kc.as_slice(), "temperature") && eq_str(k.as_slice(), "temperature") {
            return prefixed_number("Temperature #", (i + 1) as u64);
        }
    }
    fallback
}

/// Whether the legacy label of a sensor can be numbered: false only for a
/// board fan or temperature whose index is `usize::MAX`.
pub fn legacy_label_fits_exec(sensor_id: &str, sensor_type: &str) -> (r: bool)
    ensures
        r == legacy_label_fits(sensor_id@, sensor_type@),
{
    let (kind, index) = match parse_type_index(sensor_id) {
        Some(p) => p,
        None => return true,
    };
    let ic = chars_of(index.as_str());
    let at_max = match parse_usize_exec(ic.as_slice()) {
        Some(i) => i == usize::MAX,
        None => false,
    };
    let id = chars_of(sensor_id);
    let k = sensor_type_key(sensor_type);
    let kc = chars_of(kind.as_str());
    let legacy = starts_with_str(id.as_slice(), "/lpc/it8688e/0/") && ((eq_str(kc.as_slice(), "fan")
        && eq_str(k.as_slice(), "fan")) || (eq_str(kc.as_slice(), "temperature") && eq_str(
        k.as_slice(),
        "temperature",
    )));
    !(at_max && legacy)
}

/// Whether a sensor can be searched for: its channel number and label
/// length stay within machine integers.
pub fn search_fits(sensor_id: &str, text: &str, sensor_type: &str) -> (r: bool)
    ensures
        r == (channel_fits(sensor_id@, sensor_type@) && label_fits(text@)),
{
    let tc = chars_of(text);
    if tc.len() > (usize::MAX - 1000) / 12 {
        return false;
    }
    proof {
        reveal_strlit("clock");
        reveal_strlit("temperature");
        reveal_strlit("current");
        reveal_strlit("fan");
        reveal_strlit("control");
        reveal_strlit("level");
    }
    let (_, index) = match parse_type_index(sensor_id) {
        Some(p) => p,
        None => return true,
    };
    let ic = chars_of(index.as_str());
    let at_max = match parse_usize_exec(ic.as_slice()) {
        Some(i) => i == usize::MAX,
        None => false,
    };
    let k = sensor_type_key(sensor_type);
    let ks = k.as_slice();
    if eq_str(ks, "clock") {
        return true;
    }
    let counted = eq_str(ks, "temperature") || eq_str(ks, "current") || eq_str(ks, "fan")
        || eq_str(ks, "control") || eq_str(ks, "level");
    !(at_max && counted)
}

pub fn entries_searchable_exec(cfg: &MappingConfig) -> (r: bool)
    ensures
        r == entries_searchable(cfg@),
{
    let ghost ev = cfg@;
    let mut i: usize = 0;
    while i < cfg.mappings.len()
        invariant
            i <= cfg.mappings@.len(),
            ev == cfg@,
            ev.len() == cfg.mappings@.len(),
            forall|k: int| 0 <= k < ev.len() ==> #[trigger] ev[k] == cfg.mappings@[k]@,
            forall|k: int|
                0 <= k < i ==> channel_fits(#[trigger] ev[k].ohm, ev[k].sensor_type) && label_fits(
                    ev[k].text,
                ),
        decreases cfg.mappings@.len() - i,
    {
        let m = &cfg.mappings[i];
        assert(ev[i as int] == m@);
        if !search_fits(m.ohm.as_str(), m.text.as_str(), m.sensor_type.as_str()) {
            assert(!(channel_fits(ev[i as int].ohm, ev[i as int].sensor_type) && label_fits(
                ev[i as int].text,
            )));
            return false;
        }
        i = i + 1;
    }
    true
}

pub fn sensors_searchable_exec(sensors: &Vec<OhmSensor>) -> (r: bool)
    ensures
        r == sensors_searchable(sensor_views(sensors@)),
{
    let ghost sv = sensor_views(sensors@);
    let mut i: usize = 0;
    while i < sensors.len()
        invariant
            i <= sensors@.len(),
            sv == sensor_views(sensors@),
            sv.len() == sensors@.len(),
            forall|k: int|
                0 <= k < i ==> channel_fits(#[trigger] sv[k].ohm, sv[k].sensor_type) && label_fits(
                    sv[k].text,
                ),
        decreases sensors@.len() - i,
    {
        let s = &sensors[i];
        assert(sv[i as int] == s@);
        if !search_fits(s.ohm.as_str(), s.text.as_str(), s.sensor_type.as_str()) {
            assert(!(channel_fits(sv[i as int].ohm, sv[i as int].sensor_type) && label_fits(
                sv[i as int].text,
            )));
            return false;
        }
        i = i + 1;
    }
    true
}

} // verus!
