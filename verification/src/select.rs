//! Choosing the local source for an OHM sensor among hwmon readings,
//! powercap RAPL domains and `/proc/cpuinfo`.
use vstd::prelude::*;
use crate::mapping::{SensorSource, SourceView};
use crate::names::{
    expected_channel, expected_sysfs_channel, channel_fits, parse_type_index,
    path_matches_type, sensor_type_key, sysfs_path_matches_sensor_type, sysfs_value_family,
    type_index, type_key, value_family,
};
use crate::score::{
    device_hint, device_name, find_meta_value, label_fits, label_score, lemma_label_score_bound,
    pairs, related_label_score, sensor_device_hint_score,
};
use crate::text::{
    chars_eq, chars_le, chars_of, contains, contains_str, decimal, decimal_exec, eq_str, lemma_seq_le_refl,
    lemma_seq_le_total, lemma_seq_le_trans, normalize, normalized, parse_usize, parse_usize_exec,
    seq_le, starts_with, starts_with_str, string_of,
};

verus! {

/// Reading paths with the metadata of their devices, as the host lists
/// them: a slice of `(path, metadata)` pairs stands for the map from path
/// to metadata, so the selections require each path once
/// (`distinct_paths`).  The order of the pairs does not matter: every
/// choice made from them takes the best score and, among equal scores, the
/// least path, so listing the same candidates in another order gives the
/// same choice (`lemma_sysfs_choice_order_independent`,
/// `lemma_powercap_choice_order_independent`).
pub open spec fn cand_views(c: Seq<(String, Vec<(String, String)>)>) -> Seq<
    (Seq<char>, Seq<(Seq<char>, Seq<char>)>),
> {
    c.map_values(|e: (String, Vec<(String, String)>)| (e.0@, pairs(e.1@)))
}

/// Each path occurs once among the candidates, as the keys of a map do.
pub open spec fn distinct_paths(c: Seq<(String, Vec<(String, String)>)>) -> bool {
    forall|i: int, j: int| 0 <= i < j < c.len() ==> (#[trigger] c[i]).0@ != (#[trigger] c[j]).0@
}

pub fn distinct_paths_exec(c: &[(String, Vec<(String, String)>)]) -> (r: bool)
    ensures
        r == distinct_paths(c@),
{
    let mut i: usize = 0;
    while i < c.len()
        invariant
            i <= c@.len(),
            forall|a: int, b: int| 0 <= a < b < c@.len() && a < i ==> (#[trigger] c@[a]).0@ != (
            #[trigger] c@[b]).0@,
        decreases c@.len() - i,
    {
        let x = chars_of(c[i].0.as_str());
        let mut j: usize = i + 1;
        while j < c.len()
            invariant
                i < j <= c@.len(),
                x@ == c@[i as int].0@,
                forall|a: int, b: int| 0 <= a < b < c@.len() && a < i ==> (#[trigger] c@[a]).0@ != (
                #[trigger] c@[b]).0@,
                forall|b: int| i < b < j ==> c@[i as int].0@ != (#[trigger] c@[b]).0@,
            decreases c@.len() - j,
        {
            let y = chars_of(c[j].0.as_str());
            if chars_eq(x.as_slice(), y.as_slice()) {
                assert(c@[i as int].0@ == c@[j as int].0@);
                return false;
            }
            j = j + 1;
        }
        i = i + 1;
    }
    true
}

/// Score of a GPU clock reading: AMD GPU core clock on `freq1`, memory clock
/// on `freq2`; CPU clocks never match hwmon.
pub open spec fn clock_score(
    path: Seq<char>,
    m: Seq<(Seq<char>, Seq<char>)>,
    id: Seq<char>,
    text: Seq<char>,
) -> Option<nat> {
    if starts_with(id, "/amdcpu/"@) || !starts_with(id, "/gpu-amd/"@) {
        None
    } else {
        match value_family(path) {
            None => None,
            Some((f, ch)) => {
                let d = device_hint(id, m);
                if f != "freq"@ || d == 0 {
                    None
                } else {
                    let tn = normalized(text);
                    if contains(tn, "gpucore"@) && ch == 1 {
                        Some(200 + d)
                    } else if contains(tn, "gpumemory"@) && ch == 2 {
                        Some(200 + d)
                    } else {
                        None
                    }
                }
            },
        }
    }
}

pub fn score_clock_candidate(
    path: &str,
    meta: &[(String, String)],
    sensor_id: &str,
    text: &str,
) -> (r: Option<usize>)
    ensures
        r matches Some(s) ==> clock_score(path@, pairs(meta@), sensor_id@, text@) == Some(
            s as nat,
        ),
        r is None ==> clock_score(path@, pairs(meta@), sensor_id@, text@) is None,
{
    let id = chars_of(sensor_id);
    if starts_with_str(id.as_slice(), "/amdcpu/") {
        return None;
    }
    if !starts_with_str(id.as_slice(), "/gpu-amd/") {
        return None;
    }
    let (family, channel) = match sysfs_value_family(path) {
        Some(p) => p,
        None => return None,
    };
    if !eq_str(family.as_slice(), "freq") {
        return None;
    }
    let device_score = sensor_device_hint_score(sensor_id, meta);
    if device_score == 0 {
        return None;
    }
    assert(device_score <= 50);
    let tn = normalize(text);
    if contains_str(tn.as_slice(), "gpucore") && channel == 1 {
        return Some(200 + device_score);
    }
    if contains_str(tn.as_slice(), "gpumemory") && channel == 2 {
        return Some(200 + device_score);
    }
    None
}

/// Sensor types whose readings only match with a label hit.
pub open spec fn needs_label(k: Seq<char>) -> bool {
    k == "clock"@ || k == "power"@ || k == "load"@ || k == "throughput"@ || k == "data"@ || k
        == "smalldata"@ || k == "timing"@ || k == "factor"@
}

/// Score of a hwmon reading for a sensor: device hint, label score and a
/// bonus of 50 when the reading's channel is the sensor's expected one.
/// No score when the unit family does not fit the type, or when a type that
/// needs a label hit has none.
pub open spec fn sysfs_score(
    path: Seq<char>,
    m: Seq<(Seq<char>, Seq<char>)>,
    id: Seq<char>,
    text: Seq<char>,
    t: Seq<char>,
) -> Option<nat> {
    if !path_matches_type(path, t) {
        None
    } else if type_key(t) == "clock"@ {
        clock_score(path, m, id, text)
    } else {
        let l = label_score(path, m, id, text, t);
        let bonus: nat = match (expected_channel(id, t), value_family(path)) {
            (Some(e), Some((_, a))) => if e == a {
                50
            } else {
                0
            },
            _ => 0,
        };
        if needs_label(type_key(t)) && l == 0 {
            None
        } else {
            Some(device_hint(id, m) + l + bonus)
        }
    }
}

fn needs_label_exec(k: &[char]) -> (r: bool)
    ensures
        r == needs_label(k@),
{
    eq_str(k, "clock") || eq_str(k, "power") || eq_str(k, "load") || eq_str(k, "throughput")
        || eq_str(k, "data") || eq_str(k, "smalldata") || eq_str(k, "timing") || eq_str(
        k,
        "factor",
    )
}

pub fn score_sysfs_candidate(
    path: &str,
    meta: &[(String, String)],
    sensor_id: &str,
    text: &str,
    sensor_type: &str,
) -> (r: Option<usize>)
    requires
        channel_fits(sensor_id@, sensor_type@),
        label_fits(text@),
    ensures
        r matches Some(s) ==> sysfs_score(path@, pairs(meta@), sensor_id@, text@, sensor_type@)
            == Some(s as nat),
        r is None ==> sysfs_score(path@, pairs(meta@), sensor_id@, text@, sensor_type@) is None,
{
    if !sysfs_path_matches_sensor_type(path, sensor_type) {
        return None;
    }
    let k = sensor_type_key(sensor_type);
    if eq_str(k.as_slice(), "clock") {
        return score_clock_candidate(path, meta, sensor_id, text);
    }
    let device_score = sensor_device_hint_score(sensor_id, meta);
    let label = related_label_score(path, meta, sensor_id, text, sensor_type);
    proof {
        lemma_label_score_bound(path@, pairs(meta@), sensor_id@, text@, sensor_type@);
    }
    let mut score = device_score + label;
    match (expected_sysfs_channel(sensor_id, sensor_type), sysfs_value_family(path)) {
        (Some(expected), Some((_, actual))) => {
            if expected == actual {
                score = score + 50;
            }
        },
        _ => {},
    }
    if needs_label_exec(k.as_slice()) && label == 0 {
        return None;
    }
    Some(score)
}

pub open spec fn sysfs_source(p: Seq<char>) -> SourceView {
    SourceView { kind: "sysfs"@, path: Some(p), chip: None, key: None }
}

/// The candidate at `i` has the best score, and the smallest path among
/// the candidates with that score.
pub open spec fn best_sysfs_candidate(
    c: Seq<(Seq<char>, Seq<(Seq<char>, Seq<char>)>)>,
    i: int,
    id: Seq<char>,
    text: Seq<char>,
    t: Seq<char>,
) -> bool {
    &&& 0 <= i < c.len()
    &&& sysfs_score(c[i].0, c[i].1, id, text, t) is Some
    &&& forall|j: int|
        0 <= j < c.len() ==> match #[trigger] sysfs_score(c[j].0, c[j].1, id, text, t) {
            Some(s) => s < sysfs_score(c[i].0, c[i].1, id, text, t)->0 || (s == sysfs_score(
                c[i].0,
                c[i].1,
                id,
                text,
                t,
            )->0 && seq_le(c[i].0, c[j].0)),
            None => true,
        }
}

/// Picks the hwmon reading that best matches the sensor: the highest score,
/// and among equal scores the smallest path, so the choice does not depend
/// on the order of the candidates.
pub fn select_sysfs_source(
    sensor_id: &str,
    text: &str,
    sensor_type: &str,
    sysfs: &[(String, Vec<(String, String)>)],
) -> (r: Option<SensorSource>)
    requires
        distinct_paths(sysfs@),
        channel_fits(sensor_id@, sensor_type@),
        label_fits(text@),
    ensures
        r is None <==> forall|j: int|
            0 <= j < sysfs@.len() ==> #[trigger] sysfs_score(
                cand_views(sysfs@)[j].0,
                cand_views(sysfs@)[j].1,
                sensor_id@,
                text@,
                sensor_type@,
            ) is None,
        r matches Some(src) ==> exists|i: int|
            best_sysfs_candidate(cand_views(sysfs@), i, sensor_id@, text@, sensor_type@)
                && src@ == sysfs_source(cand_views(sysfs@)[i].0),
{
    let ghost c = cand_views(sysfs@);
    let mut best: Option<(usize, usize)> = None;
    let mut i: usize = 0;
    while i < sysfs.len()
        invariant
            i <= sysfs@.len(),
            c == cand_views(sysfs@),
            channel_fits(sensor_id@, sensor_type@),
            label_fits(text@),
            best is None ==> forall|j: int|
                0 <= j < i ==> #[trigger] sysfs_score(c[j].0, c[j].1, sensor_id@, text@, sensor_type@)
                    is None,
            best matches Some((bs, bi)) ==> {
                &&& bi < i
                &&& sysfs_score(c[bi as int].0, c[bi as int].1, sensor_id@, text@, sensor_type@)
                    == Some(bs as nat)
                &&& forall|j: int|
                    0 <= j < i ==> match #[trigger] sysfs_score(
                        c[j].0,
                        c[j].1,
                        sensor_id@,
                        text@,
                        sensor_type@,
                    ) {
                        Some(s) => s < bs || (s == bs && seq_le(c[bi as int].0, c[j].0)),
                        None => true,
                    }
            },
        decreases sysfs@.len() - i,
    {
        let path = &sysfs[i].0;
        let meta = &sysfs[i].1;
        assert(c[i as int] == (path@, pairs(meta@)));
        let score = score_sysfs_candidate(path.as_str(), meta.as_slice(), sensor_id, text, sensor_type);
        match score {
            None => {},
            Some(s) => {
                let replace = match best {
                    None => true,
                    Some((bs, bi)) => {
                        let bp = chars_of(sysfs[bi].0.as_str());
                        let pp = chars_of(path.as_str());
                        !(bs > s || (bs == s && chars_le(bp.as_slice(), pp.as_slice())))
                    },
                };
                if replace {
                    proof {
                        if let Some((bs, bi)) = best {
                            assert forall|j: int| 0 <= j < i + 1 implies match #[trigger] sysfs_score(
                                c[j].0,
                                c[j].1,
                                sensor_id@,
                                text@,
                                sensor_type@,
                            ) {
                                Some(t) => t < s || (t == s && seq_le(c[i as int].0, c[j].0)),
                                None => true,
                            } by {
                                lemma_seq_le_total(c[bi as int].0, c[i as int].0);
                                lemma_seq_le_refl(c[i as int].0);
                                if j < i {
                                    if let Some(t) = sysfs_score(c[j].0, c[j].1, sensor_id@, text@, sensor_type@) {
                                        if t == s {
                                            lemma_seq_le_trans(c[i as int].0, c[bi as int].0, c[j].0);
                                        }
                                    }
                                }
                            }
                        } else {
                            lemma_seq_le_refl(c[i as int].0);
                        }
                    }
                    best = Some((s, i));
                }
            },
        }
        i = i + 1;
    }
    match best {
        None => None,
        Some((_, bi)) => {
            proof {
                assert(best_sysfs_candidate(c, bi as int, sensor_id@, text@, sensor_type@));
            }
            Some(
                SensorSource {
                    kind: string_of(chars_of("sysfs").as_slice()),
                    path: Some(sysfs[bi].0.clone()),
                    chip: None,
                    key: None,
                },
            )
        },
    }
}

/// The `/proc/cpuinfo` selector for an AMD CPU clock sensor: the bus speed
/// at index 0, the core average at 1 and 2, and from index 3 on one core per
/// two sensors (`core:<(index - 3) / 2>`).
pub open spec fn cpuinfo_key(id: Seq<char>, text: Seq<char>, t: Seq<char>) -> Option<Seq<char>> {
    if type_key(t) != "clock"@ || !starts_with(id, "/amdcpu/"@) {
        None
    } else {
        match type_index(id) {
            None => None,
            Some((_, idx)) => match parse_usize(idx) {
                None => None,
                Some(i) => if i == 0 && contains(normalized(text), "busspeed"@) {
                    Some("bus_speed"@)
                } else if i == 1 || i == 2 {
                    Some("core_average"@)
                } else if i >= 3 {
                    Some("core:"@ + decimal(((i - 3) / 2) as nat))
                } else {
                    None
                },
            },
        }
    }
}

pub open spec fn cpuinfo_source(k: Seq<char>) -> SourceView {
    SourceView { kind: "proc_cpuinfo"@, path: Some("/proc/cpuinfo"@), chip: None, key: Some(k) }
}

pub fn select_proc_cpuinfo_source(sensor_id: &str, text: &str, sensor_type: &str) -> (r: Option<
    SensorSource,
>)
    ensures
        r matches Some(src) ==> cpuinfo_key(sensor_id@, text@, sensor_type@) matches Some(k)
            && src@ == cpuinfo_source(k),
        r is None ==> cpuinfo_key(sensor_id@, text@, sensor_type@) is None,
{
    let k = sensor_type_key(sensor_type);
    let id = chars_of(sensor_id);
    if !eq_str(k.as_slice(), "clock") || !starts_with_str(id.as_slice(), "/amdcpu/") {
        return None;
    }
    let (_, index) = match parse_type_index(sensor_id) {
        Some(p) => p,
        None => return None,
    };
    let ic = chars_of(index.as_str());
    let idx = match parse_usize_exec(ic.as_slice()) {
        Some(i) => i,
        None => return None,
    };
    let tn = normalize(text);
    let key: Vec<char> = if idx == 0 && contains_str(tn.as_slice(), "busspeed") {
        chars_of("bus_speed")
    } else if idx == 1 || idx == 2 {
        chars_of("core_average")
    } else if idx >= 3 {
        let mut kc = chars_of("core:");
        let d = decimal_exec(((idx - 3) / 2) as u64);
        let ghost base = kc@;
        let mut j: usize = 0;
        while j < d.len()
            invariant
                j <= d@.len(),
                kc@ == base + d@.take(j as int),
            decreases d@.len() - j,
        {
            kc.push(d[j]);
            j = j + 1;
            assert(kc@ =~= base + d@.take(j as int));
        }
        assert(d@.take(d@.len() as int) =~= d@);
        kc
    } else {
        return None;
    };
    Some(
        SensorSource {
            kind: string_of(chars_of("proc_cpuinfo").as_slice()),
            path: Some(string_of(chars_of("/proc/cpuinfo").as_slice())),
            chip: None,
            key: Some(string_of(key.as_slice())),
        },
    )
}

/// A powercap domain whose `name` mentions the package.
pub open spec fn package_domain(m: Seq<(Seq<char>, Seq<char>)>) -> bool {
    contains(device_name(m), "package"@)
}

pub open spec fn powercap_source(p: Seq<char>) -> SourceView {
    SourceView { kind: "powercap_rapl"@, path: Some(p), chip: None, key: None }
}

/// Whether the sensor is the AMD CPU package power sensor, which RAPL
/// backs.
pub open spec fn wants_powercap(id: Seq<char>, text: Seq<char>, t: Seq<char>) -> bool {
    type_key(t) == "power"@ && id == "/amdcpu/0/power/0"@ && contains(
        normalized(text),
        "package"@,
    )
}

/// Maps the CPU package power sensor to the package RAPL domain with the
/// smallest path.
pub fn select_powercap_source(
    sensor_id: &str,
    text: &str,
    sensor_type: &str,
    powercap: &[(String, Vec<(String, String)>)],
) -> (r: Option<SensorSource>)
    requires
        distinct_paths(powercap@),
    ensures
        r is None <==> !wants_powercap(sensor_id@, text@, sensor_type@) || forall|j: int|
            0 <= j < powercap@.len() ==> !package_domain(#[trigger] cand_views(powercap@)[j].1),
        r matches Some(src) ==> exists|i: int|
            0 <= i < powercap@.len() && package_domain(cand_views(powercap@)[i].1) && src@
                == powercap_source(cand_views(powercap@)[i].0) && forall|j: int|
                0 <= j < powercap@.len() && package_domain(#[trigger] cand_views(powercap@)[j].1)
                    ==> seq_le(cand_views(powercap@)[i].0, cand_views(powercap@)[j].0),
{
    let k = sensor_type_key(sensor_type);
    let id = chars_of(sensor_id);
    if !eq_str(k.as_slice(), "power") || !eq_str(id.as_slice(), "/amdcpu/0/power/0") {
        return None;
    }
    let tn = normalize(text);
    if !contains_str(tn.as_slice(), "package") {
        return None;
    }
    let ghost c = cand_views(powercap@);
    let mut best: Option<usize> = None;
    let mut i: usize = 0;
    while i < powercap.len()
        invariant
            i <= powercap@.len(),
            c == cand_views(powercap@),
            best is None ==> forall|j: int| 0 <= j < i ==> !package_domain(#[trigger] c[j].1),
            best matches Some(bi) ==> {
                &&& bi < i
                &&& package_domain(c[bi as int].1)
                &&& forall|j: int|
                    0 <= j < i && package_domain(#[trigger] c[j].1) ==> seq_le(
                        c[bi as int].0,
                        c[j].0,
                    )
            },
        decreases powercap@.len() - i,
    {
        let meta = &powercap[i].1;
        assert(c[i as int] == (powercap@[i as int].0@, pairs(meta@)));
        let name: Vec<char> = match find_meta_value(meta.as_slice(), "name") {
            Some(v) => normalize(v.as_str()),
            None => Vec::new(),
        };
        proof {
            if find_value_is_none(meta@) {
                assert(name@ =~= Seq::<char>::empty());
            }
        }
        assert(name@ == crate::score::device_name(pairs(meta@)));
        if contains_str(name.as_slice(), "package") {
            let replace = match best {
                None => true,
                Some(bi) => {
                    let bp = chars_of(powercap[bi].0.as_str());
                    let pp = chars_of(powercap[i].0.as_str());
                    !chars_le(bp.as_slice(), pp.as_slice())
                },
            };
            if replace {
                proof {
                    lemma_seq_le_refl(c[i as int].0);
                    if let Some(bi) = best {
                        lemma_seq_le_total(c[bi as int].0, c[i as int].0);
                        assert forall|j: int|
                            0 <= j < i + 1 && package_domain(#[trigger] c[j].1) implies seq_le(
                            c[i as int].0,
                            c[j].0,
                        ) by {
                            if j < i {
                                lemma_seq_le_trans(c[i as int].0, c[bi as int].0, c[j].0);
                            }
                        }
                    }
                }
                best = Some(i);
            }
        }
        i = i + 1;
    }
    match best {
        None => None,
        Some(bi) => Some(
            SensorSource {
                kind: string_of(chars_of("powercap_rapl").as_slice()),
                path: Some(powercap[bi].0.clone()),
                chip: None,
                key: None,
            },
        ),
    }
}

pub open spec fn find_value_is_none(meta: Seq<(String, String)>) -> bool {
    crate::score::find_value(pairs(meta), "name"@) is None
}

/// The path of the best hwmon candidate, if any candidate scores.
pub open spec fn chosen_sysfs(
    c: Seq<(Seq<char>, Seq<(Seq<char>, Seq<char>)>)>,
    id: Seq<char>,
    text: Seq<char>,
    t: Seq<char>,
) -> Option<Seq<char>> {
    if exists|i: int| best_sysfs_candidate(c, i, id, text, t) {
        Some(c[choose|i: int| best_sysfs_candidate(c, i, id, text, t)].0)
    } else {
        None
    }
}

/// Two best candidates have the same path.
pub proof fn lemma_best_sysfs_unique(
    c: Seq<(Seq<char>, Seq<(Seq<char>, Seq<char>)>)>,
    i: int,
    k: int,
    id: Seq<char>,
    text: Seq<char>,
    t: Seq<char>,
)
    requires
        best_sysfs_candidate(c, i, id, text, t),
        best_sysfs_candidate(c, k, id, text, t),
    ensures
        c[i].0 == c[k].0,
{
    let _ = sysfs_score(c[k].0, c[k].1, id, text, t);
    let _ = sysfs_score(c[i].0, c[i].1, id, text, t);
    lemma_seq_le_total(c[i].0, c[k].0);
}

pub open spec fn opt_sysfs_source(p: Option<Seq<char>>) -> Option<SourceView> {
    match p {
        Some(x) => Some(sysfs_source(x)),
        None => None,
    }
}

pub open spec fn source_opt_view(r: Option<SensorSource>) -> Option<SourceView> {
    match r {
        Some(s) => Some(s@),
        None => None,
    }
}

pub proof fn lemma_select_sysfs_chosen(
    r: Option<SensorSource>,
    c: Seq<(Seq<char>, Seq<(Seq<char>, Seq<char>)>)>,
    id: Seq<char>,
    text: Seq<char>,
    t: Seq<char>,
)
    requires
        r is None <==> forall|j: int|
            0 <= j < c.len() ==> #[trigger] sysfs_score(c[j].0, c[j].1, id, text, t) is None,
        r matches Some(src) ==> exists|i: int| best_sysfs_candidate(c, i, id, text, t) && src@ == sysfs_source(c[i].0),
    ensures
        source_opt_view(r) == opt_sysfs_source(chosen_sysfs(c, id, text, t)),
{
    if let Some(src) = r {
        let i = choose|i: int| best_sysfs_candidate(c, i, id, text, t) && src@ == sysfs_source(c[i].0);
        let k = choose|k: int| best_sysfs_candidate(c, k, id, text, t);
        lemma_best_sysfs_unique(c, i, k, id, text, t);
    } else {
        if exists|i: int| best_sysfs_candidate(c, i, id, text, t) {
            let i = choose|i: int| best_sysfs_candidate(c, i, id, text, t);
            assert(sysfs_score(c[i].0, c[i].1, id, text, t) is Some);
        }
    }
}

/// The path of the package RAPL domain with the smallest path, if the
/// sensor is the CPU package power sensor and such a domain exists.
pub open spec fn chosen_powercap(
    c: Seq<(Seq<char>, Seq<(Seq<char>, Seq<char>)>)>,
    id: Seq<char>,
    text: Seq<char>,
    t: Seq<char>,
) -> Option<Seq<char>> {
    if wants_powercap(id, text, t) && exists|i: int|
        0 <= i < c.len() && package_domain(c[i].1) && forall|j: int|
            0 <= j < c.len() && package_domain(#[trigger] c[j].1) ==> seq_le(c[i].0, c[j].0) {
        Some(
            c[choose|i: int|
                0 <= i < c.len() && package_domain(c[i].1) && forall|j: int|
                    0 <= j < c.len() && package_domain(#[trigger] c[j].1) ==> seq_le(
                        c[i].0,
                        c[j].0,
                    )].0,
        )
    } else {
        None
    }
}

pub open spec fn opt_powercap_source(p: Option<Seq<char>>) -> Option<SourceView> {
    match p {
        Some(x) => Some(powercap_source(x)),
        None => None,
    }
}

pub proof fn lemma_select_powercap_chosen(
    r: Option<SensorSource>,
    c: Seq<(Seq<char>, Seq<(Seq<char>, Seq<char>)>)>,
    id: Seq<char>,
    text: Seq<char>,
    t: Seq<char>,
)
    requires
        r is None <==> !wants_powercap(id, text, t) || forall|j: int|
            0 <= j < c.len() ==> !package_domain(#[trigger] c[j].1),
        r matches Some(src) ==> exists|i: int|
            0 <= i < c.len() && package_domain(c[i].1) && src@ == powercap_source(c[i].0) && forall|j: int|
                0 <= j < c.len() && package_domain(#[trigger] c[j].1) ==> seq_le(c[i].0, c[j].0),
    ensures
        source_opt_view(r) == opt_powercap_source(chosen_powercap(c, id, text, t)),
{
    if let Some(src) = r {
        let i = choose|i: int|
            0 <= i < c.len() && package_domain(c[i].1) && src@ == powercap_source(c[i].0) && forall|j: int|
                0 <= j < c.len() && package_domain(#[trigger] c[j].1) ==> seq_le(c[i].0, c[j].0);
        let k = choose|k: int|
            0 <= k < c.len() && package_domain(c[k].1) && forall|j: int|
                0 <= j < c.len() && package_domain(#[trigger] c[j].1) ==> seq_le(c[k].0, c[j].0);
        lemma_seq_le_total(c[i].0, c[k].0);
    } else {
        if wants_powercap(id, text, t) && exists|i: int|
            0 <= i < c.len() && package_domain(c[i].1) && forall|j: int|
                0 <= j < c.len() && package_domain(#[trigger] c[j].1) ==> seq_le(c[i].0, c[j].0) {
            let i = choose|i: int|
                0 <= i < c.len() && package_domain(c[i].1) && forall|j: int|
                    0 <= j < c.len() && package_domain(#[trigger] c[j].1) ==> seq_le(c[i].0, c[j].0);
            assert(package_domain(c[i].1));
        }
    }
}

pub open spec fn opt_cpuinfo_source(k: Option<Seq<char>>) -> Option<SourceView> {
    match k {
        Some(x) => Some(cpuinfo_source(x)),
        None => None,
    }
}

proof fn lemma_best_transfers(
    c1: Seq<(Seq<char>, Seq<(Seq<char>, Seq<char>)>)>,
    c2: Seq<(Seq<char>, Seq<(Seq<char>, Seq<char>)>)>,
    i: int,
    k: int,
    id: Seq<char>,
    text: Seq<char>,
    t: Seq<char>,
)
    requires
        forall|x: (Seq<char>, Seq<(Seq<char>, Seq<char>)>)| c1.contains(x) <==> c2.contains(x),
        best_sysfs_candidate(c1, i, id, text, t),
        0 <= k < c2.len(),
        c2[k] == c1[i],
    ensures
        best_sysfs_candidate(c2, k, id, text, t),
{
    assert forall|j: int| 0 <= j < c2.len() implies match #[trigger] sysfs_score(
        c2[j].0,
        c2[j].1,
        id,
        text,
        t,
    ) {
        Some(s) => s < sysfs_score(c2[k].0, c2[k].1, id, text, t)->0 || (s == sysfs_score(
            c2[k].0,
            c2[k].1,
            id,
            text,
            t,
        )->0 && seq_le(c2[k].0, c2[j].0)),
        None => true,
    } by {
        assert(c2.contains(c2[j]));
        let j1 = choose|j1: int| 0 <= j1 < c1.len() && c1[j1] == c2[j];
        let _ = sysfs_score(c1[j1].0, c1[j1].1, id, text, t);
    }
}

/// The hwmon reading chosen for a sensor depends only on which candidates
/// the host has, not on the order they are listed in.
pub proof fn lemma_sysfs_choice_order_independent(
    c1: Seq<(Seq<char>, Seq<(Seq<char>, Seq<char>)>)>,
    c2: Seq<(Seq<char>, Seq<(Seq<char>, Seq<char>)>)>,
    id: Seq<char>,
    text: Seq<char>,
    t: Seq<char>,
)
    requires
        forall|x: (Seq<char>, Seq<(Seq<char>, Seq<char>)>)| c1.contains(x) <==> c2.contains(x),
    ensures
        chosen_sysfs(c1, id, text, t) == chosen_sysfs(c2, id, text, t),
{
    if exists|i: int| best_sysfs_candidate(c1, i, id, text, t) {
        let i = choose|i: int| best_sysfs_candidate(c1, i, id, text, t);
        assert(c1.contains(c1[i]));
        let k = choose|k: int| 0 <= k < c2.len() && c2[k] == c1[i];
        lemma_best_transfers(c1, c2, i, k, id, text, t);
        let k2 = choose|k2: int| best_sysfs_candidate(c2, k2, id, text, t);
        lemma_best_sysfs_unique(c2, k, k2, id, text, t);
    } else if exists|k: int| best_sysfs_candidate(c2, k, id, text, t) {
        let k = choose|k: int| best_sysfs_candidate(c2, k, id, text, t);
        assert(c2.contains(c2[k]));
        let i = choose|i: int| 0 <= i < c1.len() && c1[i] == c2[k];
        lemma_best_transfers(c2, c1, k, i, id, text, t);
    }
}

/// The domain at `i` is a package domain with the smallest path among them.
pub open spec fn least_domain(c: Seq<(Seq<char>, Seq<(Seq<char>, Seq<char>)>)>, i: int) -> bool {
    0 <= i < c.len() && package_domain(c[i].1) && forall|j: int|
        0 <= j < c.len() && package_domain(#[trigger] c[j].1) ==> seq_le(c[i].0, c[j].0)
}

proof fn lemma_least_transfers(
    c1: Seq<(Seq<char>, Seq<(Seq<char>, Seq<char>)>)>,
    c2: Seq<(Seq<char>, Seq<(Seq<char>, Seq<char>)>)>,
    i: int,
    k: int,
)
    requires
        forall|x: (Seq<char>, Seq<(Seq<char>, Seq<char>)>)| c1.contains(x) <==> c2.contains(x),
        least_domain(c1, i),
        0 <= k < c2.len(),
        c2[k] == c1[i],
    ensures
        least_domain(c2, k),
{
    assert forall|j: int| 0 <= j < c2.len() && package_domain(#[trigger] c2[j].1) implies seq_le(
        c2[k].0,
        c2[j].0,
    ) by {
        assert(c2.contains(c2[j]));
        let j1 = choose|j1: int| 0 <= j1 < c1.len() && c1[j1] == c2[j];
        assert(package_domain(c1[j1].1));
    }
}

/// The RAPL domain chosen for the CPU package depends only on which
/// domains the host has, not on their order.
pub proof fn lemma_powercap_choice_order_independent(
    c1: Seq<(Seq<char>, Seq<(Seq<char>, Seq<char>)>)>,
    c2: Seq<(Seq<char>, Seq<(Seq<char>, Seq<char>)>)>,
    id: Seq<char>,
    text: Seq<char>,
    t: Seq<char>,
)
    requires
        forall|x: (Seq<char>, Seq<(Seq<char>, Seq<char>)>)| c1.contains(x) <==> c2.contains(x),
    ensures
        chosen_powercap(c1, id, text, t) == chosen_powercap(c2, id, text, t),
{
    if exists|i: int| #[trigger] least_domain(c1, i) {
        let w = choose|i: int| least_domain(c1, i);
        assert(0 <= w < c1.len() && package_domain(c1[w].1) && forall|j: int|
            0 <= j < c1.len() && package_domain(#[trigger] c1[j].1) ==> seq_le(c1[w].0, c1[j].0));
        let i0 = choose|i: int|
            0 <= i < c1.len() && package_domain(c1[i].1) && forall|j: int|
                0 <= j < c1.len() && package_domain(#[trigger] c1[j].1) ==> seq_le(c1[i].0, c1[j].0);
        assert(least_domain(c1, i0));
        assert(c1.contains(c1[i0]));
        let k1 = choose|k1: int| 0 <= k1 < c2.len() && c2[k1] == c1[i0];
        lemma_least_transfers(c1, c2, i0, k1);
        assert(0 <= k1 < c2.len() && package_domain(c2[k1].1) && forall|j: int|
            0 <= j < c2.len() && package_domain(#[trigger] c2[j].1) ==> seq_le(c2[k1].0, c2[j].0));
        let k0 = choose|k: int|
            0 <= k < c2.len() && package_domain(c2[k].1) && forall|j: int|
                0 <= j < c2.len() && package_domain(#[trigger] c2[j].1) ==> seq_le(c2[k].0, c2[j].0);
        assert(least_domain(c2, k0));
        assert(seq_le(c2[k1].0, c2[k0].0));
        assert(seq_le(c2[k0].0, c2[k1].0));
        lemma_seq_le_total(c2[k1].0, c2[k0].0);
    } else if exists|k: int| #[trigger] least_domain(c2, k) {
        let k = choose|k: int| least_domain(c2, k);
        assert(c2.contains(c2[k]));
        let i = choose|i: int| 0 <= i < c1.len() && c1[i] == c2[k];
        lemma_least_transfers(c2, c1, k, i);
        assert(least_domain(c1, i));
    } else {
        assert(!exists|i: int|
            0 <= i < c1.len() && package_domain(c1[i].1) && forall|j: int|
                0 <= j < c1.len() && package_domain(#[trigger] c1[j].1) ==> seq_le(c1[i].0, c1[j].0)) by {
            if exists|i: int|
                0 <= i < c1.len() && package_domain(c1[i].1) && forall|j: int|
                    0 <= j < c1.len() && package_domain(#[trigger] c1[j].1) ==> seq_le(c1[i].0, c1[j].0) {
                let i = choose|i: int|
                    0 <= i < c1.len() && package_domain(c1[i].1) && forall|j: int|
                        0 <= j < c1.len() && package_domain(#[trigger] c1[j].1) ==> seq_le(c1[i].0, c1[j].0);
                assert(least_domain(c1, i));
            }
        }
        assert(!exists|i: int|
            0 <= i < c2.len() && package_domain(c2[i].1) && forall|j: int|
                0 <= j < c2.len() && package_domain(#[trigger] c2[j].1) ==> seq_le(c2[i].0, c2[j].0)) by {
            if exists|i: int|
                0 <= i < c2.len() && package_domain(c2[i].1) && forall|j: int|
                    0 <= j < c2.len() && package_domain(#[trigger] c2[j].1) ==> seq_le(c2[i].0, c2[j].0) {
                let i = choose|i: int|
                    0 <= i < c2.len() && package_domain(c2[i].1) && forall|j: int|
                        0 <= j < c2.len() && package_domain(#[trigger] c2[j].1) ==> seq_le(c2[i].0, c2[j].0);
                assert(least_domain(c2, i));
            }
        }
    }
}

} // verus!
