//! The decisions of live sampling: how a reading is scaled and displayed,
//! which sources must be read, and the values built from a reading.
//! Reading numbers and doing arithmetic on them stays with the caller.
use vstd::prelude::*;
use crate::json::{entry_views_of, lemma_entry_views_of, obj_insert, object_insert, Json, JsonV};
use crate::mapping::{entry_views, EntryView, MappingConfig};
use crate::names::{
    is_sysfs_value_file, sensor_type_key, supported_families, supported_sysfs_families,
    sysfs_value_family, type_key, value_family, value_file,
};
use crate::resolve::{
    compatible_sensor_text, legacy_label_fits, legacy_label_fits_exec, legacy_text, source_is_usable,
    usable,
};
use crate::schema::missing;
use crate::text::{
    owned,
    chars_eq, chars_of, contains, contains_str, decimal, decimal_exec, ends_with, ends_with_str, eq_str, parse_usize, parse_usize_exec,
    split_whitespace, starts_with, starts_with_str, string_of, to_lowercase, trim, trim_exec,
    unicode_lowercase, utf8_len, char_width, char_width_exec, lemma_views_len, views, ws_tokens,
};

verus! {

// ---------------------------------------------------------------------------
// Display formats
// ---------------------------------------------------------------------------

/// Decimals and unit suffix a reading is displayed with, by its sensor
/// type (compared in lowercase): `42.00 °C`, `4.011 V`, `1164 RPM`, ...
pub open spec fn value_format(t: Seq<char>) -> (nat, Seq<char>) {
    let l = unicode_lowercase(t);
    if contains(l, "temperature"@) {
        (2, " °C"@)
    } else if contains(l, "voltage"@) {
        (3, " V"@)
    } else if contains(l, "power"@) {
        (1, " W"@)
    } else if contains(l, "fan"@) {
        (0, " RPM"@)
    } else if contains(l, "load"@) || contains(l, "control"@) || contains(l, "level"@) {
        (1, " %"@)
    } else if contains(l, "current"@) {
        (2, " A"@)
    } else if contains(l, "clock"@) {
        (1, " MHz"@)
    } else if contains(l, "data"@) && !contains(l, "smalldata"@) {
        (1, " GB"@)
    } else if contains(l, "smalldata"@) {
        (1, " MB"@)
    } else if contains(l, "timing"@) {
        (1, " ns"@)
    } else if contains(l, "throughput"@) {
        (1, " KB/s"@)
    } else {
        (2, Seq::empty())
    }
}

/// The decimals and unit suffix for displaying a reading of this type.
pub fn sensor_value_format(sensor_type: &str) -> (r: (usize, &'static str))
    ensures
        (r.0 as nat, r.1@) == value_format(sensor_type@),
{
    let lower = to_lowercase(sensor_type);
    let l = chars_of(lower.as_str());
    let s = l.as_slice();
    proof {
        reveal_strlit("");
    }
    if contains_str(s, "temperature") {
        (2, " °C")
    } else if contains_str(s, "voltage") {
        (3, " V")
    } else if contains_str(s, "power") {
        (1, " W")
    } else if contains_str(s, "fan") {
        (0, " RPM")
    } else if contains_str(s, "load") || contains_str(s, "control") || contains_str(s, "level") {
        (1, " %")
    } else if contains_str(s, "current") {
        (2, " A")
    } else if contains_str(s, "clock") {
        (1, " MHz")
    } else if contains_str(s, "data") && !contains_str(s, "smalldata") {
        (1, " GB")
    } else if contains_str(s, "smalldata") {
        (1, " MB")
    } else if contains_str(s, "timing") {
        (1, " ns")
    } else if contains_str(s, "throughput") {
        (1, " KB/s")
    } else {
        (2, "")
    }
}

pub open spec fn is_frac_sep(c: char) -> bool {
    c == '.' || c == ','
}

/// Index of the first `.` or `,`; the length when there is none.
pub open spec fn first_sep(s: Seq<char>) -> int
    decreases s.len(),
{
    if s.len() == 0 {
        0
    } else if is_frac_sep(s[0]) {
        0
    } else {
        1 + first_sep(s.drop_first())
    }
}

proof fn lemma_first_sep(s: Seq<char>)
    ensures
        0 <= first_sep(s) <= s.len(),
        first_sep(s) < s.len() ==> is_frac_sep(s[first_sep(s)]),
        forall|j: int| 0 <= j < first_sep(s) ==> !is_frac_sep(s[j]),
    decreases s.len(),
{
    if s.len() > 0 && !is_frac_sep(s[0]) {
        lemma_first_sep(s.drop_first());
        assert forall|j: int| 0 <= j < first_sep(s) implies !is_frac_sep(s[j]) by {
            if j > 0 {
                assert(s[j] == s.drop_first()[j - 1]);
            }
        }
    }
}

/// The second piece of a number split at `.` and `,`: its decimals.
pub open spec fn fraction_of(number: Seq<char>) -> Option<Seq<char>> {
    let i = first_sep(number);
    if i < number.len() {
        let rest = number.skip(i + 1);
        Some(rest.take(first_sep(rest)))
    } else {
        None
    }
}

/// `n`, or `usize::MAX` when it does not fit.
pub open spec fn capped(n: nat) -> usize {
    if n <= usize::MAX {
        n as usize
    } else {
        usize::MAX
    }
}

/// How a displayed value is written: the bytes after its decimal separator
/// and its unit.  Empty and `-` values give no unit.
pub open spec fn template_value(t: Seq<char>) -> (usize, Option<Seq<char>>) {
    let tr = trim(t);
    if tr.len() == 0 || tr == "-"@ {
        (0, None)
    } else {
        let toks = ws_tokens(tr);
        let number = if toks.len() > 0 {
            toks[0]
        } else {
            Seq::empty()
        };
        let unit = if toks.len() > 1 {
            Some(toks[1])
        } else {
            None
        };
        (
            match fraction_of(number) {
                Some(f) => capped(utf8_len(f)),
                None => 0,
            },
            unit,
        )
    }
}

fn sep_position(s: &[char]) -> (r: usize)
    ensures
        r == first_sep(s@),
        r <= s@.len(),
{
    proof {
        lemma_first_sep(s@);
    }
    let mut i: usize = 0;
    while i < s.len() && s[i] != '.' && s[i] != ','
        invariant
            i <= s@.len(),
            0 <= first_sep(s@) <= s@.len(),
            first_sep(s@) < s@.len() ==> is_frac_sep(s@[first_sep(s@)]),
            forall|j: int| 0 <= j < first_sep(s@) ==> !is_frac_sep(s@[j]),
            i <= first_sep(s@),
        decreases s@.len() - i,
    {
        i = i + 1;
    }
    i
}

fn capped_utf8_len(s: &[char]) -> (r: usize)
    ensures
        r == capped(utf8_len(s@)),
{
    let mut n: usize = 0;
    let mut i: usize = 0;
    while i < s.len()
        invariant
            i <= s@.len(),
            n == capped(utf8_len(s@.take(i as int))),
        decreases s@.len() - i,
    {
        assert(s@.take(i + 1).drop_last() =~= s@.take(i as int));
        let w = char_width_exec(s[i]);
        n = if n > usize::MAX - w {
            usize::MAX
        } else {
            n + w
        };
        i = i + 1;
    }
    assert(s@.take(s@.len() as int) =~= s@);
    n
}

pub fn split_template_value(template: &str) -> (r: (usize, Option<String>))
    ensures
        (r.0, r.1.deep_view()) == template_value(template@),
{
    let tc = chars_of(template);
    let t = trim_exec(tc.as_slice());
    proof {
        reveal_strlit("-");
    }
    if t.len() == 0 || eq_str(t.as_slice(), "-") {
        return (0, None);
    }
    let toks = split_whitespace(t.as_slice());
    let empty: Vec<char> = Vec::new();
    let number: &[char] = if toks.len() > 0 {
        toks[0].as_slice()
    } else {
        empty.as_slice()
    };
    let unit = if toks.len() > 1 {
        Some(string_of(toks[1].as_slice()))
    } else {
        None
    };
    let i = sep_position(number);
    let decimals = if i < number.len() {
        let mut rest: Vec<char> = Vec::new();
        let mut k: usize = i + 1;
        while k < number.len()
            invariant
                i + 1 <= k <= number@.len(),
                rest@ == number@.subrange(i + 1, k as int),
            decreases number@.len() - k,
        {
            rest.push(number[k]);
            k = k + 1;
            assert(rest@ =~= number@.subrange(i + 1, k as int));
        }
        assert(rest@ =~= number@.skip(i + 1));
        let j = sep_position(rest.as_slice());
        let mut frac: Vec<char> = Vec::new();
        let mut k2: usize = 0;
        while k2 < j
            invariant
                k2 <= j <= rest@.len(),
                frac@ == rest@.take(k2 as int),
            decreases j - k2,
        {
            frac.push(rest[k2]);
            k2 = k2 + 1;
            assert(frac@ =~= rest@.take(k2 as int));
        }
        capped_utf8_len(frac.as_slice())
    } else {
        0
    };
    (decimals, unit)
}

// ---------------------------------------------------------------------------
// Scaling of raw readings
// ---------------------------------------------------------------------------

/// How a raw reading becomes the displayed quantity.
#[derive(Debug, Clone, Copy, PartialEq, Eq, Structural)]
pub enum ValueScale {
    /// Shown as read.
    Unchanged,
    /// Divided by this factor (milli- and micro-units).
    Divide(u32),
    /// A 0-255 PWM duty mapped to a percentage.
    PwmPercent,
    /// Mapped to a percentage only when above 100, else shown as read.
    PwmPercentAbove100,
}

pub open spec fn is_control(t: Seq<char>) -> bool {
    type_key(t) == "control"@ || type_key(t) == "level"@
}

/// Scaling of a reading of the given hwmon family: milli-units for
/// temperatures, voltages and currents, micro-units for power and
/// frequency, pwm duty out of 255 for control sensors.
pub open spec fn family_scale(f: Seq<char>, t: Seq<char>) -> ValueScale {
    if f == "temp"@ || f == "in"@ || f == "curr"@ {
        ValueScale::Divide(1000)
    } else if f == "power"@ || f == "freq"@ {
        ValueScale::Divide(1_000_000)
    } else if f == "pwm"@ && is_control(t) {
        ValueScale::PwmPercent
    } else {
        ValueScale::Unchanged
    }
}

/// Scaling of a sysfs reading by the family of its file name; a file whose
/// name names no family is read in the units of the family the sensor
/// type accepts.
pub open spec fn sysfs_scale(t: Seq<char>, path: Seq<char>) -> ValueScale {
    match value_family(path) {
        Some((f, _)) => family_scale(f, t),
        None => if supported_families(t).len() > 0 {
            family_scale(supported_families(t)[0], t)
        } else {
            ValueScale::Unchanged
        },
    }
}


/// Scaling of a `sensors -j` reading by the family of its key: `sensors`
/// already gives most units scaled.
pub open spec fn sensors_json_scale(t: Seq<char>, key: Seq<char>) -> ValueScale {
    match value_family(key) {
        Some((f, _)) => if f == "freq"@ {
            ValueScale::Divide(1_000_000)
        } else if f == "pwm"@ && is_control(t) {
            ValueScale::PwmPercentAbove100
        } else {
            ValueScale::Unchanged
        },
        None => ValueScale::Unchanged,
    }
}

fn is_control_exec(sensor_type: &str) -> (r: bool)
    ensures
        r == is_control(sensor_type@),
{
    let k = sensor_type_key(sensor_type);
    eq_str(k.as_slice(), "control") || eq_str(k.as_slice(), "level")
}

fn family_scale_exec(fs: &[char], sensor_type: &str) -> (r: ValueScale)
    ensures
        r == family_scale(fs@, sensor_type@),
{
    if eq_str(fs, "temp") || eq_str(fs, "in") || eq_str(fs, "curr") {
        ValueScale::Divide(1000)
    } else if eq_str(fs, "power") || eq_str(fs, "freq") {
        ValueScale::Divide(1_000_000)
    } else if eq_str(fs, "pwm") && is_control_exec(sensor_type) {
        ValueScale::PwmPercent
    } else {
        ValueScale::Unchanged
    }
}

pub fn sysfs_value_scale(sensor_type: &str, path: &str) -> (r: ValueScale)
    ensures
        r == sysfs_scale(sensor_type@, path@),
{
    match sysfs_value_family(path) {
        Some((f, _)) => family_scale_exec(f.as_slice(), sensor_type),
        None => {
            let fams = supported_sysfs_families(sensor_type);
            if fams.len() > 0 {
                let f = chars_of(fams[0]);
                family_scale_exec(f.as_slice(), sensor_type)
            } else {
                ValueScale::Unchanged
            }
        },
    }
}

pub fn sensors_json_value_scale(sensor_type: &str, key: &str) -> (r: ValueScale)
    ensures
        r == sensors_json_scale(sensor_type@, key@),
{
    match sysfs_value_family(key) {
        Some((f, _)) => {
            let fs = f.as_slice();
            if eq_str(fs, "freq") {
                ValueScale::Divide(1_000_000)
            } else if eq_str(fs, "pwm") && is_control_exec(sensor_type) {
                ValueScale::PwmPercentAbove100
            } else {
                ValueScale::Unchanged
            }
        },
        None => ValueScale::Unchanged,
    }
}

// ---------------------------------------------------------------------------
// Readings
// ---------------------------------------------------------------------------

/// A sensor reading as the tree shows it.
pub open spec fn reading(value: Seq<char>, raw: Seq<char>, text: Seq<char>, t: Seq<char>) -> JsonV {
    JsonV::Object(
        seq![
            ("RawValue"@, JsonV::Str(raw)),
            ("Text"@, JsonV::Str(text)),
            ("Type"@, JsonV::Str(t)),
            ("Value"@, JsonV::Str(value)),
        ],
    )
}

/// The reading object with the displayed value, the raw value, the label
/// and the type.
pub fn value_object(value: &str, raw_value: &str, text: &str, sensor_type: &str) -> (r: Json)
    ensures
        r@ == reading(value@, raw_value@, text@, sensor_type@),
{
    let mut e: Vec<(String, Json)> = Vec::new();
    e.push((owned("RawValue"), Json::Str(owned(raw_value))));
    e.push((owned("Text"), Json::Str(owned(text))));
    e.push((owned("Type"), Json::Str(owned(sensor_type))));
    e.push((owned("Value"), Json::Str(owned(value))));
    proof {
        lemma_entry_views_of(e@);
    }
    assert(entry_views_of(e@) =~= reading(value@, raw_value@, text@, sensor_type@)->Object_0);
    Json::Object(e)
}

/// Energy used between two RAPL counter readings, in microjoules.  A
/// counter that went backwards has wrapped at `max_energy_range_uj`; with
/// no known range there is no answer.
pub open spec fn energy_delta(previous: u64, current: u64, max_range: Option<u64>) -> Option<u64> {
    if current >= previous {
        Some((current - previous) as u64)
    } else {
        match max_range {
            Some(m) => Some(
                ((if m >= previous {
                    m - previous
                } else {
                    0
                }) + current) as u64,
            ),
            None => None,
        }
    }
}

pub fn powercap_energy_delta(previous_energy_uj: u64, current_energy_uj: u64, max_energy_range_uj: Option<u64>) -> (r: Option<u64>)
    ensures
        r == energy_delta(previous_energy_uj, current_energy_uj, max_energy_range_uj),
        r matches Some(d) ==> current_energy_uj >= previous_energy_uj ==> d == current_energy_uj
            - previous_energy_uj,
{
    if current_energy_uj >= previous_energy_uj {
        Some(current_energy_uj - previous_energy_uj)
    } else {
        match max_energy_range_uj {
            Some(m) => Some(m.saturating_sub(previous_energy_uj) + current_energy_uj),
            None => None,
        }
    }
}

/// What a `proc_cpuinfo` source's key selects.
#[derive(Debug, Clone, Copy, PartialEq, Eq, Structural)]
pub enum CpuinfoSelector {
    /// The fixed 100 MHz bus clock.
    BusSpeed,
    /// The average over all cores.
    CoreAverage,
    /// One core, by core id.
    Core(usize),
    /// Nothing.
    Unknown,
}

pub open spec fn cpuinfo_selector(key: Seq<char>) -> CpuinfoSelector {
    if key == "bus_speed"@ {
        CpuinfoSelector::BusSpeed
    } else if key == "core_average"@ {
        CpuinfoSelector::CoreAverage
    } else if starts_with(key, "core:"@) {
        match parse_usize(key.skip(5)) {
            Some(i) => CpuinfoSelector::Core(i),
            None => CpuinfoSelector::Unknown,
        }
    } else {
        CpuinfoSelector::Unknown
    }
}

pub fn proc_cpuinfo_selector(key: &str) -> (r: CpuinfoSelector)
    ensures
        r == cpuinfo_selector(key@),
{
    let k = chars_of(key);
    proof {
        reveal_strlit("core:");
    }
    if eq_str(k.as_slice(), "bus_speed") {
        CpuinfoSelector::BusSpeed
    } else if eq_str(k.as_slice(), "core_average") {
        CpuinfoSelector::CoreAverage
    } else if starts_with_str(k.as_slice(), "core:") {
        let mut rest: Vec<char> = Vec::new();
        let mut i: usize = 5;
        while i < k.len()
            invariant
                5 <= i <= k@.len(),
                rest@ == k@.subrange(5, i as int),
            decreases k@.len() - i,
        {
            rest.push(k[i]);
            i = i + 1;
            assert(rest@ =~= k@.subrange(5, i as int));
        }
        assert(rest@ =~= key@.skip(5));
        match parse_usize_exec(rest.as_slice()) {
            Some(n) => CpuinfoSelector::Core(n),
            None => CpuinfoSelector::Unknown,
        }
    } else {
        CpuinfoSelector::Unknown
    }
}

// ---------------------------------------------------------------------------
// What a sampling round has to read
// ---------------------------------------------------------------------------

/// The sysfs files the mappings read, in mapping order.
pub open spec fn sysfs_paths(entries: Seq<EntryView>) -> Seq<Seq<char>>
    decreases entries.len(),
{
    if entries.len() == 0 {
        Seq::empty()
    } else {
        let prev = sysfs_paths(entries.drop_last());
        let s = entries.last().source;
        if s.kind == "sysfs"@ && s.path is Some {
            prev.push(s.path->0)
        } else {
            prev
        }
    }
}

/// The sysfs files to read, each once.
pub fn unique_sysfs_paths(cfg: &MappingConfig) -> (r: Vec<String>)
    ensures
        r.deep_view() == missing(sysfs_paths(cfg@), Seq::empty()),
{
    let ghost ev = cfg@;
    let mut all: Vec<String> = Vec::new();
    let mut i: usize = 0;
    while i < cfg.mappings.len()
        invariant
            i <= cfg.mappings@.len(),
            ev == cfg@,
            ev.len() == cfg.mappings@.len(),
            forall|k: int| 0 <= k < ev.len() ==> #[trigger] ev[k] == cfg.mappings@[k]@,
            all.deep_view() == sysfs_paths(ev.take(i as int)),
        decreases cfg.mappings@.len() - i,
    {
        assert(ev.take(i + 1).drop_last() =~= ev.take(i as int));
        assert(ev.take(i + 1).last() == cfg.mappings@[i as int]@);
        let m = &cfg.mappings[i];
        let kind = chars_of(m.source.kind.as_str());
        if eq_str(kind.as_slice(), "sysfs") {
            match &m.source.path {
                Some(p) => {
                    let ghost before = all.deep_view();
                    all.push(p.clone());
                    assert(all.deep_view() =~= before.push(p@));
                },
                None => {},
            }
        }
        i = i + 1;
    }
    assert(ev.take(ev.len() as int) =~= ev);
    let mut r: Vec<String> = Vec::new();
    let mut seen: Vec<Vec<char>> = Vec::new();
    let ghost av = all.deep_view();
    let mut j: usize = 0;
    let ghost empty: Seq<Seq<char>> = Seq::empty();
    while j < all.len()
        invariant
            j <= all@.len(),
            av == all.deep_view(),
            views(seen@) == r.deep_view(),
            r.deep_view() == missing(av.take(j as int), empty),
            empty == Seq::<Seq<char>>::empty(),
        decreases all@.len() - j,
    {
        assert(av.take(j + 1).drop_last() =~= av.take(j as int));
        assert(av.take(j + 1).last() == all@[j as int]@);
        let c = chars_of(all[j].as_str());
        let mut found = false;
        let mut k: usize = 0;
        proof {
            lemma_views_len(seen@);
        }
        while k < seen.len()
            invariant
                k <= seen@.len(),
                views(seen@).len() == seen@.len(),
                forall|q: int| 0 <= q < seen@.len() ==> #[trigger] views(seen@)[q] == seen@[q]@,
                found == exists|q: int| 0 <= q < k && views(seen@)[q] == c@,
            decreases seen@.len() - k,
        {
            if chars_eq(seen[k].as_slice(), c.as_slice()) {
                assert(views(seen@)[k as int] == c@);
                found = true;
            }
            k = k + 1;
        }
        assert(found == views(seen@).contains(c@));
        if !found {
            let ghost before = r.deep_view();
            r.push(all[j].clone());
            seen.push(c);
            assert(r.deep_view() =~= before.push(all@[j as int]@));
            assert(views(seen@) =~= r.deep_view());
        }
        j = j + 1;
    }
    assert(av.take(av.len() as int) =~= av);
    r
}

/// Which extra inputs a sampling round needs.
pub struct SamplingNeeds {
    /// Some mapping's source cannot be read as it stands.
    pub needs_reconcile: bool,
    /// Some mapping reads `sensors -j`.
    pub uses_sensors_json: bool,
    /// Some mapping reads `/proc/cpuinfo`.
    pub uses_proc_cpuinfo: bool,
}

/// `path_exists[i]` tells whether the path of mapping `i` exists.
pub fn sampling_needs(cfg: &MappingConfig, path_exists: &Vec<bool>) -> (r: SamplingNeeds)
    requires
        path_exists@.len() == cfg.mappings@.len(),
    ensures
        r.needs_reconcile == exists|i: int|
            0 <= i < cfg@.len() && !usable(
                #[trigger] cfg@[i].source,
                cfg@[i].sensor_type,
                path_exists@[i],
            ),
        r.uses_sensors_json == exists|i: int|
            0 <= i < cfg@.len() && (#[trigger] cfg@[i].source).kind == "sensors_json"@,
        r.uses_proc_cpuinfo == exists|i: int|
            0 <= i < cfg@.len() && (#[trigger] cfg@[i].source).kind == "proc_cpuinfo"@,
{
    let ghost ev = cfg@;
    let mut needs_reconcile = false;
    let mut uses_sensors_json = false;
    let mut uses_proc_cpuinfo = false;
    let mut i: usize = 0;
    while i < cfg.mappings.len()
        invariant
            i <= cfg.mappings@.len(),
            ev == cfg@,
            ev.len() == cfg.mappings@.len(),
            path_exists@.len() == cfg.mappings@.len(),
            forall|k: int| 0 <= k < ev.len() ==> #[trigger] ev[k] == cfg.mappings@[k]@,
            needs_reconcile == exists|k: int|
                0 <= k < i && !usable(#[trigger] ev[k].source, ev[k].sensor_type, path_exists@[k]),
            uses_sensors_json == exists|k: int|
                0 <= k < i && (#[trigger] ev[k].source).kind == "sensors_json"@,
            uses_proc_cpuinfo == exists|k: int|
                0 <= k < i && (#[trigger] ev[k].source).kind == "proc_cpuinfo"@,
        decreases cfg.mappings@.len() - i,
    {
        let m = &cfg.mappings[i];
        assert(ev[i as int] == m@);
        let ok = source_is_usable(&m.source, m.sensor_type.as_str(), path_exists[i]);
        assert(ok == usable(ev[i as int].source, ev[i as int].sensor_type, path_exists@[i as int]));
        if !ok {
            needs_reconcile = true;
        }
        let kind = chars_of(m.source.kind.as_str());
        let sj = eq_str(kind.as_slice(), "sensors_json");
        let pc = eq_str(kind.as_slice(), "proc_cpuinfo");
        assert(sj == (ev[i as int].source.kind == "sensors_json"@));
        assert(pc == (ev[i as int].source.kind == "proc_cpuinfo"@));
        if sj {
            uses_sensors_json = true;
        }
        if pc {
            uses_proc_cpuinfo = true;
        }
        i = i + 1;
    }
    SamplingNeeds { needs_reconcile, uses_sensors_json, uses_proc_cpuinfo }
}

// ---------------------------------------------------------------------------
// hwmon device ranks
// ---------------------------------------------------------------------------

/// How many of the names are `Some(n)`.
pub open spec fn name_count(names: Seq<Option<Seq<char>>>, n: Seq<char>) -> nat
    decreases names.len(),
{
    if names.len() == 0 {
        0
    } else {
        name_count(names.drop_last(), n) + if names.last() == Some(n) {
            1nat
        } else {
            0nat
        }
    }
}

/// The rank of each hwmon device among the devices with its name, in the
/// given (path) order, counting from 1; devices without a name have none.
pub open spec fn device_rank(names: Seq<Option<Seq<char>>>, i: int) -> Option<usize> {
    match names[i] {
        Some(n) => Some((name_count(names.take(i), n) + 1) as usize),
        None => None,
    }
}

proof fn lemma_name_count_bound(names: Seq<Option<Seq<char>>>, n: Seq<char>)
    ensures
        name_count(names, n) <= names.len(),
    decreases names.len(),
{
    if names.len() > 0 {
        lemma_name_count_bound(names.drop_last(), n);
    }
}

pub fn device_ranks(names: &Vec<Option<String>>) -> (r: Vec<Option<usize>>)
    ensures
        r@.len() == names@.len(),
        forall|i: int| 0 <= i < names@.len() ==> #[trigger] r@[i] == device_rank(names.deep_view(), i),
{
    let ghost nv = names.deep_view();
    let mut r: Vec<Option<usize>> = Vec::new();
    let mut i: usize = 0;
    while i < names.len()
        invariant
            i <= names@.len(),
            nv == names.deep_view(),
            r@.len() == i,
            forall|k: int| 0 <= k < i ==> #[trigger] r@[k] == device_rank(nv, k),
        decreases names@.len() - i,
    {
        match &names[i] {
            Some(n) => {
                let nc = chars_of(n.as_str());
                let mut count: usize = 0;
                let mut k: usize = 0;
                while k < i
                    invariant
                        k <= i < names@.len(),
                        nv == names.deep_view(),
                        nc@ == n@,
                        count == name_count(nv.take(k as int), n@),
                        count <= k,
                    decreases i - k,
                {
                    assert(nv.take(k + 1).drop_last() =~= nv.take(k as int));
                    assert(nv.take(k + 1).last() == nv[k as int]);
                    match &names[k] {
                        Some(m) => {
                            let mc = chars_of(m.as_str());
                            if chars_eq(mc.as_slice(), nc.as_slice()) {
                                count = count + 1;
                            }
                        },
                        None => {},
                    }
                    k = k + 1;
                }
                assert(nv[i as int] == Some(n@));
                r.push(Some(count + 1));
            },
            None => {
                r.push(None);
            },
        }
        i = i + 1;
    }
    r
}

/// Whether a file of a hwmon device directory goes into the device's
/// metadata: labels, readings and the device name.
pub open spec fn meta_file(name: Seq<char>) -> bool {
    ends_with(name, "_label"@) || value_file(name) || name == "name"@
}

pub fn is_meta_file(name: &str) -> (r: bool)
    ensures
        r == meta_file(name@),
{
    let c = chars_of(name);
    proof {
        reveal_strlit("name");
    }
    ends_with_str(c.as_slice(), "_label") || is_sysfs_value_file(name) || eq_str(c.as_slice(), "name")
}

/// The metadata files among `files` (name and contents), in order, each
/// with its contents trimmed.
pub open spec fn meta_entries(files: Seq<(Seq<char>, Seq<char>)>) -> Seq<(Seq<char>, Seq<char>)>
    decreases files.len(),
{
    if files.len() == 0 {
        Seq::empty()
    } else {
        let prev = meta_entries(files.drop_last());
        if meta_file(files.last().0) {
            prev.push((files.last().0, trim(files.last().1)))
        } else {
            prev
        }
    }
}

/// The metadata of a hwmon device: its name, its rank among devices of
/// that name, then its metadata files.
pub open spec fn device_meta(name: Seq<char>, rank: nat, files: Seq<(Seq<char>, Seq<char>)>) -> Seq<
    (Seq<char>, Seq<char>),
> {
    seq![("name"@, name), ("device_rank"@, decimal(rank))] + meta_entries(files)
}

pub open spec fn text_pairs(v: Seq<(String, String)>) -> Seq<(Seq<char>, Seq<char>)> {
    v.map_values(|e: (String, String)| (e.0@, e.1@))
}

/// Builds a hwmon device's metadata from its name, its rank and the files
/// read from its directory.
pub fn device_metadata(name: &str, rank: usize, files: &Vec<(String, String)>) -> (r: Vec<
    (String, String),
>)
    ensures
        text_pairs(r@) == device_meta(name@, rank as nat, text_pairs(files@)),
{
    let ghost fv = text_pairs(files@);
    let mut r: Vec<(String, String)> = Vec::new();
    r.push((string_of(chars_of("name").as_slice()), string_of(chars_of(name).as_slice())));
    let d = decimal_exec(rank as u64);
    r.push((string_of(chars_of("device_rank").as_slice()), string_of(d.as_slice())));
    let ghost head = text_pairs(r@);
    assert(head =~= seq![("name"@, name@), ("device_rank"@, decimal(rank as nat))]);
    let mut i: usize = 0;
    assert(fv.take(0) =~= Seq::<(Seq<char>, Seq<char>)>::empty());
    assert(text_pairs(r@) =~= head + meta_entries(fv.take(0)));
    while i < files.len()
        invariant
            i <= files@.len(),
            fv == text_pairs(files@),
            fv.len() == files@.len(),
            text_pairs(r@) == head + meta_entries(fv.take(i as int)),
        decreases files@.len() - i,
    {
        assert(fv.take(i + 1).drop_last() =~= fv.take(i as int));
        assert(fv.take(i + 1).last() == (files@[i as int].0@, files@[i as int].1@));
        if is_meta_file(files[i].0.as_str()) {
            let c = chars_of(files[i].1.as_str());
            let t = trim_exec(c.as_slice());
            let ghost before = r@;
            r.push((files[i].0.clone(), string_of(t.as_slice())));
            assert(text_pairs(r@) =~= text_pairs(before).push(
                (files@[i as int].0@, trim(files@[i as int].1@)),
            ));
        }
        i = i + 1;
        assert(text_pairs(r@) =~= head + meta_entries(fv.take(i as int)));
    }
    assert(fv.take(files@.len() as int) =~= fv);
    r
}

// ---------------------------------------------------------------------------
// The sampled map
// ---------------------------------------------------------------------------

pub open spec fn reading_views(v: Seq<Option<(String, String)>>) -> Seq<Option<(Seq<char>, Seq<char>)>> {
    v.map_values(|r: Option<(String, String)>| match r {
        Some((a, b)) => Some((a@, b@)),
        None => None,
    })
}

/// The sampled values by sensor id: for each mapping with a reading (its
/// displayed value and raw value), in order, the reading object under the
/// label the sensor is shown with; a later mapping of the same id wins.
pub open spec fn sample_map(
    entries: Seq<EntryView>,
    readings: Seq<Option<(Seq<char>, Seq<char>)>>,
) -> Seq<(Seq<char>, JsonV)>
    decreases entries.len(),
{
    if entries.len() == 0 {
        Seq::empty()
    } else {
        let n = entries.len() - 1;
        let prev = sample_map(entries.take(n), readings);
        let e = entries[n];
        match readings[n] {
            Some((v, raw)) => obj_insert(
                prev,
                e.ohm,
                reading(v, raw, legacy_text(e.ohm, e.sensor_type, e.text), e.sensor_type),
            ),
            None => prev,
        }
    }
}

/// Every mapping's legacy label can be numbered.
pub open spec fn labels_fit(entries: Seq<EntryView>) -> bool {
    forall|i: int|
        0 <= i < entries.len() ==> legacy_label_fits(#[trigger] entries[i].ohm, entries[i].sensor_type)
}

pub fn labels_fit_exec(cfg: &MappingConfig) -> (r: bool)
    ensures
        r == labels_fit(cfg@),
{
    let ghost ev = cfg@;
    let mut i: usize = 0;
    while i < cfg.mappings.len()
        invariant
            i <= cfg.mappings@.len(),
            ev == cfg@,
            ev.len() == cfg.mappings@.len(),
            forall|k: int| 0 <= k < ev.len() ==> #[trigger] ev[k] == cfg.mappings@[k]@,
            forall|k: int| 0 <= k < i ==> legacy_label_fits(#[trigger] ev[k].ohm, ev[k].sensor_type),
        decreases cfg.mappings@.len() - i,
    {
        let m = &cfg.mappings[i];
        assert(ev[i as int] == m@);
        if !legacy_label_fits_exec(m.ohm.as_str(), m.sensor_type.as_str()) {
            assert(!legacy_label_fits(ev[i as int].ohm, ev[i as int].sensor_type));
            return false;
        }
        i = i + 1;
    }
    true
}

/// The sampled map of one round: `readings[i]` is the displayed value and
/// raw value read for mapping `i`, if any.
pub fn assemble_sample(cfg: &MappingConfig, readings: &Vec<Option<(String, String)>>) -> (r: Vec<
    (String, Json),
>)
    requires
        readings@.len() == cfg.mappings@.len(),
        labels_fit(cfg@),
    ensures
        entry_views_of(r@) == sample_map(cfg@, reading_views(readings@)),
{
    let ghost ev = cfg@;
    let ghost rv = reading_views(readings@);
    let mut out: Vec<(String, Json)> = Vec::new();
    let mut i: usize = 0;
    assert(entry_views_of(out@) =~= sample_map(ev.take(0), rv));
    while i < cfg.mappings.len()
        invariant
            i <= cfg.mappings@.len(),
            ev == cfg@,
            rv == reading_views(readings@),
            ev.len() == cfg.mappings@.len(),
            readings@.len() == cfg.mappings@.len(),
            labels_fit(ev),
            forall|k: int| 0 <= k < ev.len() ==> #[trigger] ev[k] == cfg.mappings@[k]@,
            entry_views_of(out@) == sample_map(ev.take(i as int), rv),
        decreases cfg.mappings@.len() - i,
    {
        let m = &cfg.mappings[i];
        assert(ev[i as int] == m@);
        assert(ev.take(i + 1).take(i as int) =~= ev.take(i as int));
        assert(ev.take(i + 1)[i as int] == m@);
        assert(legacy_label_fits(ev[i as int].ohm, ev[i as int].sensor_type));
        let text = compatible_sensor_text(m.ohm.as_str(), m.sensor_type.as_str(), m.text.as_str());
        match &readings[i] {
            Some((value, raw)) => {
                let obj = value_object(value.as_str(), raw.as_str(), text.as_str(), m.sensor_type.as_str());
                object_insert(&mut out, m.ohm.clone(), obj);
            },
            None => {},
        }
        i = i + 1;
    }
    assert(ev.take(ev.len() as int) =~= ev);
    out
}

} // verus!
