//! What `/health` and `/data.json` answer: warnings about mapped sources
//! that cannot be read, and the replies built from the live snapshot.
use vstd::prelude::*;
use crate::json::{entry_views_of, lemma_entry_views_of, lemma_views_of, views_of, Json, JsonV};
use crate::mapping::{EntryView, MappingConfig};
use crate::text::{
    owned,
    append_chars, append_str, chars_eq, chars_of, decimal, decimal_exec, eq_str, string_of,
};

verus! {

/// How reading a mapped file went.
pub enum ReadOutcome {
    Readable,
    PermissionDenied,
    /// Any other failure, with the error's message.
    Failed(String),
}

/// What was found out about the path of one mapping: whether it exists,
/// and, for an existing RAPL counter, how reading it went.
pub struct PathProbe {
    pub exists: bool,
    pub read: ReadOutcome,
}

pub enum ReadView {
    Readable,
    PermissionDenied,
    Failed(Seq<char>),
}

pub struct ProbeView {
    pub exists: bool,
    pub read: ReadView,
}

impl View for PathProbe {
    type V = ProbeView;

    open spec fn view(&self) -> ProbeView {
        ProbeView {
            exists: self.exists,
            read: match &self.read {
                ReadOutcome::Readable => ReadView::Readable,
                ReadOutcome::PermissionDenied => ReadView::PermissionDenied,
                ReadOutcome::Failed(m) => ReadView::Failed(m@),
            },
        }
    }
}

pub open spec fn probe_views(v: Seq<PathProbe>) -> Seq<ProbeView> {
    v.map_values(|p: PathProbe| p@)
}

pub open spec fn missing_path_warning(text: Seq<char>, via: Seq<char>, path: Seq<char>) -> Seq<char> {
    text + " is mapped to "@ + via + " at "@ + path
        + " but that path does not exist on this host."@
}

pub open spec fn permission_warning(text: Seq<char>, path: Seq<char>) -> Seq<char> {
    text + " is mapped to RAPL at "@ + path
        + " but this process cannot read it; grant cap_dac_read_search,cap_perfmon to the server binary or run with sufficient privileges."@
}

pub open spec fn read_failure_warning(text: Seq<char>, path: Seq<char>, err: Seq<char>) -> Seq<
    char,
> {
    text + " is mapped to RAPL at "@ + path + " but reads are failing: "@ + err + "."@
}

/// The warning for one mapping: a RAPL counter or sysfs file that does not
/// exist, or a RAPL counter that cannot be read.
pub open spec fn warning_for(e: EntryView, p: ProbeView) -> Option<Seq<char>> {
    match e.source.path {
        None => None,
        Some(path) => if e.source.kind == "powercap_rapl"@ {
            if !p.exists {
                Some(missing_path_warning(e.text, "RAPL"@, path))
            } else {
                match p.read {
                    ReadView::Readable => None,
                    ReadView::PermissionDenied => Some(permission_warning(e.text, path)),
                    ReadView::Failed(err) => Some(read_failure_warning(e.text, path, err)),
                }
            }
        } else if e.source.kind == "sysfs"@ {
            if !p.exists {
                Some(missing_path_warning(e.text, "sysfs"@, path))
            } else {
                None
            }
        } else {
            None
        },
    }
}

/// The warnings of all mappings in order, each message once.
pub open spec fn warnings(entries: Seq<EntryView>, probes: Seq<ProbeView>) -> Seq<Seq<char>>
    decreases entries.len(),
{
    if entries.len() == 0 {
        Seq::empty()
    } else {
        let n = entries.len() - 1;
        let prev = warnings(entries.take(n), probes);
        match warning_for(entries[n], probes[n]) {
            Some(m) => if prev.contains(m) {
                prev
            } else {
                prev.push(m)
            },
            None => prev,
        }
    }
}

fn warning_message(e: &crate::mapping::MappingEntry, p: &PathProbe) -> (r: Option<String>)
    ensures
        r.deep_view() == warning_for(e@, p@),
{
    let path = match &e.source.path {
        Some(path) => path,
        None => return None,
    };
    let kind = chars_of(e.source.kind.as_str());
    if eq_str(kind.as_slice(), "powercap_rapl") {
        if !p.exists {
            let mut v: Vec<char> = Vec::new();
            append_str(&mut v, e.text.as_str());
            append_str(&mut v, " is mapped to ");
            append_str(&mut v, "RAPL");
            append_str(&mut v, " at ");
            append_str(&mut v, path.as_str());
            append_str(&mut v, " but that path does not exist on this host.");
            let m = string_of(v.as_slice());
            assert(m@ =~= missing_path_warning(e.text@, "RAPL"@, path@));
            return Some(m);
        }
        match &p.read {
            ReadOutcome::Readable => None,
            ReadOutcome::PermissionDenied => {
                let mut v: Vec<char> = Vec::new();
                append_str(&mut v, e.text.as_str());
                append_str(&mut v, " is mapped to RAPL at ");
                append_str(&mut v, path.as_str());
                append_str(&mut v, " but this process cannot read it; grant cap_dac_read_search,cap_perfmon to the server binary or run with sufficient privileges.");
                let m = string_of(v.as_slice());
                assert(m@ =~= permission_warning(e.text@, path@));
                Some(m)
            },
            ReadOutcome::Failed(err) => {
                let mut v: Vec<char> = Vec::new();
                append_str(&mut v, e.text.as_str());
                append_str(&mut v, " is mapped to RAPL at ");
                append_str(&mut v, path.as_str());
                append_str(&mut v, " but reads are failing: ");
                append_str(&mut v, err.as_str());
                append_str(&mut v, ".");
                let m = string_of(v.as_slice());
                assert(m@ =~= read_failure_warning(e.text@, path@, err@));
                Some(m)
            },
        }
    } else if eq_str(kind.as_slice(), "sysfs") {
        if !p.exists {
            let mut v: Vec<char> = Vec::new();
            append_str(&mut v, e.text.as_str());
            append_str(&mut v, " is mapped to ");
            append_str(&mut v, "sysfs");
            append_str(&mut v, " at ");
            append_str(&mut v, path.as_str());
            append_str(&mut v, " but that path does not exist on this host.");
            let m = string_of(v.as_slice());
            assert(m@ =~= missing_path_warning(e.text@, "sysfs"@, path@));
            Some(m)
        } else {
            None
        }
    } else {
        None
    }
}

/// The warnings about the mapped sources of a configuration;
/// `probes[i]` is what was found about the path of mapping `i`.
pub fn collect_health_warnings(cfg: &MappingConfig, probes: &Vec<PathProbe>) -> (r: Vec<String>)
    requires
        probes@.len() == cfg.mappings@.len(),
    ensures
        r.deep_view() == warnings(cfg@, probe_views(probes@)),
{
    let ghost ev = cfg@;
    let ghost pv = probe_views(probes@);
    let mut out: Vec<String> = Vec::new();
    let mut seen: Vec<Vec<char>> = Vec::new();
    let mut i: usize = 0;
    while i < cfg.mappings.len()
        invariant
            i <= cfg.mappings@.len(),
            ev == cfg@,
            pv == probe_views(probes@),
            ev.len() == cfg.mappings@.len(),
            probes@.len() == cfg.mappings@.len(),
            forall|k: int| 0 <= k < ev.len() ==> #[trigger] ev[k] == cfg.mappings@[k]@,
            crate::text::views(seen@) == out.deep_view(),
            out.deep_view() == warnings(ev.take(i as int), pv),
        decreases cfg.mappings@.len() - i,
    {
        assert(ev.take(i + 1).take(i as int) =~= ev.take(i as int));
        assert(ev.take(i + 1)[i as int] == ev[i as int]);
        assert(ev[i as int] == cfg.mappings@[i as int]@);
        assert(pv[i as int] == probes@[i as int]@);
        match warning_message(&cfg.mappings[i], &probes[i]) {
            Some(m) => {
                let mc = chars_of(m.as_str());
                let mut found = false;
                let mut k: usize = 0;
                proof {
                    crate::text::lemma_views_len(seen@);
                }
                while k < seen.len()
                    invariant
                        k <= seen@.len(),
                        crate::text::views(seen@).len() == seen@.len(),
                        forall|q: int|
                            0 <= q < seen@.len() ==> #[trigger] crate::text::views(seen@)[q]
                                == seen@[q]@,
                        found == exists|q: int|
                            0 <= q < k && crate::text::views(seen@)[q] == mc@,
                    decreases seen@.len() - k,
                {
                    if chars_eq(seen[k].as_slice(), mc.as_slice()) {
                        assert(crate::text::views(seen@)[k as int] == mc@);
                        found = true;
                    }
                    k = k + 1;
                }
                if !found {
                    let ghost before = out.deep_view();
                    out.push(m);
                    seen.push(mc);
                    assert(out.deep_view() =~= before.push(mc@));
                    assert(crate::text::views(seen@) =~= out.deep_view());
                }
            },
            None => {},
        }
        i = i + 1;
    }
    assert(ev.take(ev.len() as int) =~= ev);
    out
}

// ---------------------------------------------------------------------------
// Replies
// ---------------------------------------------------------------------------

/// A snapshot with no sensor data: null or an empty object.
pub open spec fn snapshot_empty(r: JsonV) -> bool {
    r is Null || (r matches JsonV::Object(e) && e.len() == 0)
}

pub open spec fn number(n: nat) -> JsonV {
    JsonV::Number(decimal(n))
}

pub open spec fn strs(s: Seq<Seq<char>>) -> Seq<JsonV> {
    s.map_values(|x: Seq<char>| JsonV::Str(x))
}

/// The `/health` status and body.  Without a live snapshot the server
/// serves the bundled tree and is healthy; with an empty one it is
/// unhealthy; otherwise it is `ok`, or `degraded` when there are warnings,
/// the first of which is also given as `note`.
pub open spec fn health_reply(rendered: Option<JsonV>, w: Seq<Seq<char>>) -> (u16, JsonV) {
    match rendered {
        None => (
            200,
            JsonV::Object(
                seq![
                    ("note"@, JsonV::Str("no live snapshot configured"@)),
                    ("snapshot_size"@, number(0)),
                    ("status"@, JsonV::Str("ok"@)),
                    ("warnings"@, JsonV::Array(Seq::empty())),
                ],
            ),
        ),
        Some(r) => if snapshot_empty(r) {
            (
                500,
                JsonV::Object(
                    seq![
                        ("reason"@, JsonV::Str("no snapshot data"@)),
                        ("status"@, JsonV::Str("unhealthy"@)),
                    ],
                ),
            )
        } else {
            let size = ("snapshot_size"@, number(r->Object_0.len()));
            let status = ("status"@, JsonV::Str(
                if w.len() == 0 {
                    "ok"@
                } else {
                    "degraded"@
                },
            ));
            let warns = ("warnings"@, JsonV::Array(strs(w)));
            (
                200,
                JsonV::Object(
                    if w.len() == 0 {
                        seq![size, status, warns]
                    } else {
                        seq![("note"@, JsonV::Str(w[0])), size, status, warns]
                    },
                ),
            )
        },
    }
}

fn number_json(n: usize) -> (r: Json)
    ensures
        r@ == number(n as nat),
{
    let d = decimal_exec(n as u64);
    Json::Number(string_of(d.as_slice()))
}

/// The `/health` reply.  `warnings` are those of `collect_health_warnings`;
/// a snapshot that is not empty is an object.
pub fn health_response(rendered: Option<&Json>, warnings: &Vec<String>) -> (r: (u16, Json))
    requires
        rendered matches Some(j) ==> (j@ is Null || j@ is Object),
    ensures
        (r.0, r.1@) == health_reply(
            match rendered {
                Some(j) => Some(j@),
                None => None,
            },
            warnings.deep_view(),
        ),
{
    match rendered {
        None => {
            let mut e: Vec<(String, Json)> = Vec::new();
            e.push((owned("note"), Json::Str(owned("no live snapshot configured"))));
            e.push((owned("snapshot_size"), number_json(0)));
            e.push((owned("status"), Json::Str(owned("ok"))));
            e.push((owned("warnings"), Json::Array(Vec::new())));
            proof {
                lemma_entry_views_of(e@);
                lemma_views_of(Seq::<Json>::empty());
            }
            assert(entry_views_of(e@) =~= health_reply(None, warnings.deep_view()).1->Object_0);
            (200, Json::Object(e))
        },
        Some(j) => {
            let len = match j {
                Json::Object(o) => Some(o.len()),
                _ => None,
            };
            let empty = match len {
                Some(n) => n == 0,
                None => true,
            };
            if empty {
                let mut e: Vec<(String, Json)> = Vec::new();
                e.push((owned("reason"), Json::Str(owned("no snapshot data"))));
                e.push((owned("status"), Json::Str(owned("unhealthy"))));
                proof {
                    lemma_entry_views_of(e@);
                }
                assert(entry_views_of(e@) =~= health_reply(Some(j@), warnings.deep_view()).1->Object_0);
                return (500, Json::Object(e));
            }
            let n = match len {
                Some(n) => n,
                None => 0,
            };
            proof {
                match j {
                    Json::Object(o) => {
                        lemma_entry_views_of(o@);
                    },
                    _ => {},
                }
            }
            let mut items: Vec<Json> = Vec::new();
            let mut i: usize = 0;
            while i < warnings.len()
                invariant
                    i <= warnings@.len(),
                    views_of(items@) == strs(warnings.deep_view().take(i as int)),
                decreases warnings@.len() - i,
            {
                proof {
                    lemma_views_of(items@);
                }
                let ghost before = views_of(items@);
                items.push(Json::Str(warnings[i].clone()));
                proof {
                    lemma_views_of(items@);
                    assert forall|k: int| 0 <= k <= i implies #[trigger] views_of(items@)[k]
                        == strs(warnings.deep_view().take(i + 1))[k] by {
                        if k < i {
                            assert(views_of(items@)[k] == before[k]);
                        }
                    }
                }
                i = i + 1;
                assert(views_of(items@) =~= strs(warnings.deep_view().take(i as int)));
            }
            assert(warnings.deep_view().take(warnings@.len() as int) =~= warnings.deep_view());
            let mut e: Vec<(String, Json)> = Vec::new();
            if warnings.len() > 0 {
                e.push((owned("note"), Json::Str(warnings[0].clone())));
            }
            e.push((owned("snapshot_size"), number_json(n)));
            let status = if warnings.len() == 0 {
                owned("ok")
            } else {
                owned("degraded")
            };
            e.push((owned("status"), Json::Str(status)));
            e.push((owned("warnings"), Json::Array(items)));
            proof {
                lemma_entry_views_of(e@);
            }
            assert(entry_views_of(e@) =~= health_reply(Some(j@), warnings.deep_view()).1->Object_0);
            (200, Json::Object(e))
        },
    }
}

/// What `/data.json` answers.
pub enum DataJsonReply {
    /// The live snapshot, as it is.
    Snapshot,
    /// No sensor data: status 500 with this body.
    NoData(Json),
    /// No live snapshot: the bundled OHM tree.
    Bundled,
}

pub enum DataJsonView {
    Snapshot,
    NoData(JsonV),
    Bundled,
}

pub open spec fn data_json_view(r: DataJsonReply) -> DataJsonView {
    match r {
        DataJsonReply::Snapshot => DataJsonView::Snapshot,
        DataJsonReply::NoData(b) => DataJsonView::NoData(b@),
        DataJsonReply::Bundled => DataJsonView::Bundled,
    }
}

/// The error body for a snapshot without data, stamped with the time.
pub open spec fn no_data_body(timestamp: u64) -> JsonV {
    JsonV::Object(
        seq![
            ("error"@, JsonV::Str("no sensor data available"@)),
            ("reason"@, JsonV::Str("mappings produced no values"@)),
            ("snapshot_size"@, number(0)),
            ("suggestion"@, JsonV::Str("inspect /snapshot.json and verify config.yml mappings"@)),
            ("timestamp_unix"@, number(timestamp as nat)),
        ],
    )
}

/// With a live snapshot injected it is authoritative: served when it has
/// data, answered with a 500 and an explanation when it is null or empty.
/// Without one the bundled tree is served.
pub open spec fn data_json_reply(rendered: Option<JsonV>, timestamp: u64) -> DataJsonView {
    match rendered {
        None => DataJsonView::Bundled,
        Some(r) => if snapshot_empty(r) {
            DataJsonView::NoData(no_data_body(timestamp))
        } else {
            DataJsonView::Snapshot
        },
    }
}

/// The `/data.json` reply; `timestamp_unix` is the current time in seconds.
pub fn data_json_response(rendered: Option<&Json>, timestamp_unix: u64) -> (r: DataJsonReply)
    ensures
        data_json_view(r) == data_json_reply(
            match rendered {
                Some(j) => Some(j@),
                None => None,
            },
            timestamp_unix,
        ),
{
    match rendered {
        None => DataJsonReply::Bundled,
        Some(j) => {
            let empty = match j {
                Json::Null => true,
                Json::Object(o) => {
                    proof {
                        lemma_entry_views_of(o@);
                    }
                    o.len() == 0
                },
                _ => false,
            };
            if !empty {
                return DataJsonReply::Snapshot;
            }
            let mut e: Vec<(String, Json)> = Vec::new();
            e.push((owned("error"), Json::Str(owned("no sensor data available"))));
            e.push((owned("reason"), Json::Str(owned("mappings produced no values"))));
            e.push((owned("snapshot_size"), number_json(0)));
            e.push((owned("suggestion"), Json::Str(owned(
                "inspect /snapshot.json and verify config.yml mappings",
            ))));
            let d = decimal_exec(timestamp_unix);
            e.push((owned("timestamp_unix"), Json::Number(string_of(d.as_slice()))));
            proof {
                lemma_entry_views_of(e@);
            }
            assert(entry_views_of(e@) =~= no_data_body(timestamp_unix)->Object_0);
            DataJsonReply::NoData(Json::Object(e))
        },
    }
}


proof fn lemma_warnings_contain(entries: Seq<EntryView>, probes: Seq<ProbeView>, i: int)
    requires
        0 <= i < entries.len(),
        warning_for(entries[i], probes[i]) is Some,
    ensures
        warnings(entries, probes).contains(warning_for(entries[i], probes[i])->0),
    decreases entries.len(),
{
    let n = entries.len() - 1;
    let prev = warnings(entries.take(n), probes);
    let m = warning_for(entries[i], probes[i])->0;
    if i < n {
        assert(entries.take(n)[i] == entries[i]);
        lemma_warnings_contain(entries.take(n), probes, i);
        let j = choose|j: int| 0 <= j < prev.len() && prev[j] == m;
        match warning_for(entries[n], probes[n]) {
            Some(x) => if !prev.contains(x) {
                assert(prev.push(x)[j] == m);
            },
            None => {},
        }
    } else {
        if !prev.contains(m) {
            assert(prev.push(m)[prev.len() as int] == m);
        }
    }
}

/// A sysfs mapping whose path does not exist on this host is reported:
/// the warnings say that the sensor's text is mapped to sysfs at that path
/// but that the path does not exist.
pub proof fn lemma_missing_sysfs_path_warned(
    entries: Seq<EntryView>,
    probes: Seq<ProbeView>,
    i: int,
    path: Seq<char>,
)
    requires
        0 <= i < entries.len(),
        entries[i].source.kind == "sysfs"@,
        entries[i].source.path == Some(path),
        !probes[i].exists,
    ensures
        warnings(entries, probes).contains(
            entries[i].text + " is mapped to sysfs at "@ + path
                + " but that path does not exist on this host."@,
        ),
{
    reveal_strlit("sysfs");
    reveal_strlit("powercap_rapl");
    reveal_strlit(" is mapped to sysfs at ");
    reveal_strlit(" is mapped to ");
    reveal_strlit(" at ");
    assert("sysfs"@ != "powercap_rapl"@) by {
        assert("sysfs"@.len() != "powercap_rapl"@.len());
    }
    let t = entries[i].text;
    assert(t + " is mapped to "@ + "sysfs"@ + " at "@ + path + " but that path does not exist on this host."@
        =~= t + " is mapped to sysfs at "@ + path + " but that path does not exist on this host."@);
    lemma_warnings_contain(entries, probes, i);
}

} // verus!
