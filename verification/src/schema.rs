//! Schema comparison between the live tree and an OHM export:
//! which key paths each side has, the display units of value fields and
//! the sensor metadata at each path.
use vstd::prelude::*;
use crate::json::{
    deep_clone, entries_get, entry_views_of, lemma_lookup_first, seq_lt, lemma_entry_views_of, lemma_obj_insert, lemma_views_of, lookup, obj_insert,
    object_insert, object_insert_str, keys_sorted, views_of, Json, JsonV,
};
use crate::sensors::{join, join_exec};
use crate::text::{
    owned,
    append_chars, append_str, chars_eq, chars_of, decimal, decimal_exec, ends_with,
    ends_with_str, eq_str, lemma_views_len, split_whitespace, string_of, trim, trim_exec, views,
    ws_tokens,
};

verus! {

// ---------------------------------------------------------------------------
// Key paths
// ---------------------------------------------------------------------------

/// The path token of array element `i`: `[i]`.
pub open spec fn index_token(i: nat) -> Seq<char> {
    "["@ + decimal(i) + "]"@
}

/// Every key path below a value, each extending `prefix` and joined with
/// `/`, in document order: an object contributes each key, then the paths
/// below its value; an array contributes `[i]` for each element, then the
/// paths below it.
pub open spec fn path_list(j: JsonV, prefix: Seq<Seq<char>>) -> Seq<Seq<char>>
    decreases j,
{
    match j {
        JsonV::Object(e) => entry_path_list(e, prefix),
        JsonV::Array(s) => item_path_list(s, prefix),
        _ => Seq::empty(),
    }
}

pub open spec fn entry_path_list(e: Seq<(Seq<char>, JsonV)>, prefix: Seq<Seq<char>>) -> Seq<
    Seq<char>,
>
    decreases e,
{
    if e.len() == 0 {
        Seq::empty()
    } else {
        let p = prefix.push(e[e.len() - 1].0);
        entry_path_list(e.subrange(0, e.len() - 1), prefix) + seq![join(p, "/"@)] + path_list(
            e[e.len() - 1].1,
            p,
        )
    }
}

pub open spec fn item_path_list(s: Seq<JsonV>, prefix: Seq<Seq<char>>) -> Seq<Seq<char>>
    decreases s,
{
    if s.len() == 0 {
        Seq::empty()
    } else {
        let p = prefix.push(index_token((s.len() - 1) as nat));
        item_path_list(s.subrange(0, s.len() - 1), prefix) + seq![join(p, "/"@)] + path_list(
            s[s.len() - 1],
            p,
        )
    }
}

fn index_token_exec(i: usize) -> (r: String)
    ensures
        r@ == index_token(i as nat),
{
    let mut v: Vec<char> = Vec::new();
    append_str(&mut v, "[");
    let d = decimal_exec(i as u64);
    append_chars(&mut v, d.as_slice());
    append_str(&mut v, "]");
    string_of(v.as_slice())
}

fn joined_path(tokens: &Vec<String>) -> (r: String)
    ensures
        r@ == join(tokens.deep_view(), "/"@),
{
    let v = join_exec(tokens, "/");
    string_of(v.as_slice())
}

/// Appends the key paths below `v` to `out`; `base_tokens` is left as it
/// was given.
#[verifier::loop_isolation(false)]
pub fn collect_paths(v: &Json, base_tokens: &mut Vec<String>, out: &mut Vec<String>)
    ensures
        final(base_tokens).deep_view() == old(base_tokens).deep_view(),
        final(out).deep_view() == old(out).deep_view() + path_list(
            v@,
            old(base_tokens).deep_view(),
        ),
    decreases v,
{
    let ghost base = base_tokens.deep_view();
    let ghost start = out.deep_view();
    match v {
        Json::Object(e) => {
            proof {
                lemma_entry_views_of(e@);
            }
            let ghost ev = entry_views_of(e@);
            let mut i: usize = 0;
            assert(ev.subrange(0, 0) =~= Seq::<(Seq<char>, JsonV)>::empty());
            assert(out.deep_view() =~= start + entry_path_list(ev.subrange(0, 0), base));
            while i < e.len()
                invariant
                    i <= e@.len(),
                    ev == entry_views_of(e@),
                    ev.len() == e@.len(),
                    base_tokens.deep_view() == base,
                    out.deep_view() == start + entry_path_list(ev.subrange(0, i as int), base),
                decreases e@.len() - i,
            {
                proof {
                    assert(decreases_to!(*v => v->Object_0));
                    assert(decreases_to!(*e => e@));
                    assert(decreases_to!(e@ => e@[i as int]));
                    assert(decreases_to!(e@[i as int] => e@[i as int].1));
                }
                assert(ev[i as int] == (e@[i as int].0@, e@[i as int].1@));
                base_tokens.push(e[i].0.clone());
                let ghost p = base_tokens.deep_view();
                assert(p =~= base.push(ev[i as int].0));
                let path = joined_path(base_tokens);
                let ghost pre = out.deep_view();
                out.push(path);
                assert(out.deep_view() =~= pre.push(join(p, "/"@)));
                collect_paths(&e[i].1, base_tokens, out);
                let ghost mid = base_tokens@;
                let ghost mid_dv = base_tokens.deep_view();
                base_tokens.pop();
                assert forall|k: int| 0 <= k < base.len() implies base_tokens.deep_view()[k]
                    == base[k] by {
                    assert(mid_dv[k] == mid[k]@);
                    assert(mid_dv[k] == p[k]);
                }
                assert(base_tokens.deep_view() =~= base);
                assert(ev.subrange(0, i + 1).subrange(0, i as int) =~= ev.subrange(0, i as int));
                assert(ev.subrange(0, i + 1)[i as int] == ev[i as int]);
                i = i + 1;
                assert(out.deep_view() =~= start + entry_path_list(ev.subrange(0, i as int), base));
            }
            assert(ev.subrange(0, e@.len() as int) =~= ev);
        },
        Json::Array(a) => {
            proof {
                lemma_views_of(a@);
            }
            let ghost av = views_of(a@);
            let mut i: usize = 0;
            assert(av.subrange(0, 0) =~= Seq::<JsonV>::empty());
            assert(out.deep_view() =~= start + item_path_list(av.subrange(0, 0), base));
            while i < a.len()
                invariant
                    i <= a@.len(),
                    av == views_of(a@),
                    av.len() == a@.len(),
                    base_tokens.deep_view() == base,
                    out.deep_view() == start + item_path_list(av.subrange(0, i as int), base),
                decreases a@.len() - i,
            {
                proof {
                    assert(decreases_to!(*v => v->Array_0));
                    assert(decreases_to!(*a => a@));
                    assert(decreases_to!(a@ => a@[i as int]));
                }
                assert(av[i as int] == a@[i as int]@);
                base_tokens.push(index_token_exec(i));
                let ghost p = base_tokens.deep_view();
                assert(p =~= base.push(index_token(i as nat)));
                let path = joined_path(base_tokens);
                let ghost pre = out.deep_view();
                out.push(path);
                assert(out.deep_view() =~= pre.push(join(p, "/"@)));
                collect_paths(&a[i], base_tokens, out);
                let ghost mid = base_tokens@;
                let ghost mid_dv = base_tokens.deep_view();
                base_tokens.pop();
                assert forall|k: int| 0 <= k < base.len() implies base_tokens.deep_view()[k]
                    == base[k] by {
                    assert(mid_dv[k] == mid[k]@);
                    assert(mid_dv[k] == p[k]);
                }
                assert(base_tokens.deep_view() =~= base);
                assert(av.subrange(0, i + 1).subrange(0, i as int) =~= av.subrange(0, i as int));
                assert(av.subrange(0, i + 1)[i as int] == av[i as int]);
                i = i + 1;
                assert(out.deep_view() =~= start + item_path_list(av.subrange(0, i as int), base));
            }
            assert(av.subrange(0, a@.len() as int) =~= av);
        },
        _ => {
            assert(out.deep_view() =~= start + path_list(v@, base));
        },
    }
}

// ---------------------------------------------------------------------------
// Units
// ---------------------------------------------------------------------------

/// The unit of a displayed value: the second whitespace-separated token
/// (`"46.0 °C"` has `°C`); empty and `-` values are kept as they are.
pub open spec fn unit_of(value: Seq<char>) -> Seq<char> {
    let t = trim(value);
    if t.len() == 0 || t == "-"@ {
        t
    } else if ws_tokens(t).len() > 1 {
        ws_tokens(t)[1]
    } else {
        Seq::empty()
    }
}

pub fn normalize_unit(value: &str) -> (r: String)
    ensures
        r@ == unit_of(value@),
{
    let vc = chars_of(value);
    let t = trim_exec(vc.as_slice());
    proof {
        reveal_strlit("-");
    }
    if t.len() == 0 || eq_str(t.as_slice(), "-") {
        return string_of(t.as_slice());
    }
    let toks = split_whitespace(t.as_slice());
    if toks.len() > 1 {
        string_of(toks[1].as_slice())
    } else {
        string_of(Vec::<char>::new().as_slice())
    }
}

/// Units that differ only in scale count as one family: byte rates and
/// byte sizes.
pub open spec fn family_of(unit: Seq<char>) -> Seq<char> {
    if ends_with(unit, "B/s"@) {
        "bytes_per_second"@
    } else if ends_with(unit, "B"@) {
        "bytes"@
    } else {
        unit
    }
}

pub fn unit_family(unit: &str) -> (r: String)
    ensures
        r@ == family_of(unit@),
{
    let u = chars_of(unit);
    if ends_with_str(u.as_slice(), "B/s") {
        string_of(chars_of("bytes_per_second").as_slice())
    } else if ends_with_str(u.as_slice(), "B") {
        string_of(chars_of("bytes").as_slice())
    } else {
        string_of(u.as_slice())
    }
}

/// A live unit fits the OHM unit when they are equal, when the
/// OHM export shows `-` (no value at capture time), or when both are of the
/// same family.
pub open spec fn units_compatible(data_unit: Seq<char>, ohm_unit: Seq<char>) -> bool {
    data_unit == ohm_unit || ohm_unit == "-"@ || family_of(data_unit) == family_of(ohm_unit)
}

pub fn units_are_compatible(data_unit: &str, ohm_unit: &str) -> (r: bool)
    ensures
        r == units_compatible(data_unit@, ohm_unit@),
{
    let d = chars_of(data_unit);
    let o = chars_of(ohm_unit);
    if chars_eq(d.as_slice(), o.as_slice()) {
        return true;
    }
    if eq_str(o.as_slice(), "-") {
        return true;
    }
    let fd = unit_family(data_unit);
    let fo = unit_family(ohm_unit);
    let fdc = chars_of(fd.as_str());
    let foc = chars_of(fo.as_str());
    chars_eq(fdc.as_slice(), foc.as_slice())
}

// ---------------------------------------------------------------------------
// Field signatures
// ---------------------------------------------------------------------------

pub open spec fn is_unit_key(k: Seq<char>) -> bool {
    k == "Value"@ || k == "Min"@ || k == "Max"@
}

pub open spec fn is_meta_key(k: Seq<char>) -> bool {
    k == "SensorId"@ || k == "Type"@ || k == "Text"@
}

/// The unit of every string `Value`, `Min` and `Max` field below a value,
/// by path, added to `acc` in document order (a later path replaces an
/// equal earlier one); entries are kept in ascending path order.
pub open spec fn unit_sigs(
    j: JsonV,
    prefix: Seq<Seq<char>>,
    acc: Seq<(Seq<char>, JsonV)>,
) -> Seq<(Seq<char>, JsonV)>
    decreases j,
{
    match j {
        JsonV::Object(e) => entry_unit_sigs(e, prefix, acc),
        JsonV::Array(s) => item_unit_sigs(s, prefix, acc),
        _ => acc,
    }
}

pub open spec fn entry_unit_sigs(
    e: Seq<(Seq<char>, JsonV)>,
    prefix: Seq<Seq<char>>,
    acc: Seq<(Seq<char>, JsonV)>,
) -> Seq<(Seq<char>, JsonV)>
    decreases e,
{
    if e.len() == 0 {
        acc
    } else {
        let prev = entry_unit_sigs(e.subrange(0, e.len() - 1), prefix, acc);
        let k = e[e.len() - 1].0;
        let v = e[e.len() - 1].1;
        let p = prefix.push(k);
        let a = if is_unit_key(k) && v is Str {
            obj_insert(prev, join(p, "/"@), JsonV::Str(unit_of(v->Str_0)))
        } else {
            prev
        };
        unit_sigs(e[e.len() - 1].1, p, a)
    }
}

pub open spec fn item_unit_sigs(
    s: Seq<JsonV>,
    prefix: Seq<Seq<char>>,
    acc: Seq<(Seq<char>, JsonV)>,
) -> Seq<(Seq<char>, JsonV)>
    decreases s,
{
    if s.len() == 0 {
        acc
    } else {
        let prev = item_unit_sigs(s.subrange(0, s.len() - 1), prefix, acc);
        unit_sigs(s[s.len() - 1], prefix.push(index_token((s.len() - 1) as nat)), prev)
    }
}

/// The string `SensorId`, `Type` and `Text` fields below a value, by path,
/// added to `acc` the same way.
pub open spec fn meta_sigs(
    j: JsonV,
    prefix: Seq<Seq<char>>,
    acc: Seq<(Seq<char>, JsonV)>,
) -> Seq<(Seq<char>, JsonV)>
    decreases j,
{
    match j {
        JsonV::Object(e) => entry_meta_sigs(e, prefix, acc),
        JsonV::Array(s) => item_meta_sigs(s, prefix, acc),
        _ => acc,
    }
}

pub open spec fn entry_meta_sigs(
    e: Seq<(Seq<char>, JsonV)>,
    prefix: Seq<Seq<char>>,
    acc: Seq<(Seq<char>, JsonV)>,
) -> Seq<(Seq<char>, JsonV)>
    decreases e,
{
    if e.len() == 0 {
        acc
    } else {
        let prev = entry_meta_sigs(e.subrange(0, e.len() - 1), prefix, acc);
        let k = e[e.len() - 1].0;
        let v = e[e.len() - 1].1;
        let p = prefix.push(k);
        let a = if is_meta_key(k) && v is Str {
            obj_insert(prev, join(p, "/"@), v)
        } else {
            prev
        };
        meta_sigs(e[e.len() - 1].1, p, a)
    }
}

pub open spec fn item_meta_sigs(
    s: Seq<JsonV>,
    prefix: Seq<Seq<char>>,
    acc: Seq<(Seq<char>, JsonV)>,
) -> Seq<(Seq<char>, JsonV)>
    decreases s,
{
    if s.len() == 0 {
        acc
    } else {
        let prev = item_meta_sigs(s.subrange(0, s.len() - 1), prefix, acc);
        meta_sigs(s[s.len() - 1], prefix.push(index_token((s.len() - 1) as nat)), prev)
    }
}

/// Adds the unit and metadata signatures below `v` to the two maps;
/// `base_tokens` is left as it was given.
#[verifier::loop_isolation(false)]
pub fn collect_field_signatures(
    v: &Json,
    base_tokens: &mut Vec<String>,
    unit_fields: &mut Vec<(String, Json)>,
    metadata_fields: &mut Vec<(String, Json)>,
)
    ensures
        final(base_tokens).deep_view() == old(base_tokens).deep_view(),
        entry_views_of(final(unit_fields)@) == unit_sigs(
            v@,
            old(base_tokens).deep_view(),
            entry_views_of(old(unit_fields)@),
        ),
        entry_views_of(final(metadata_fields)@) == meta_sigs(
            v@,
            old(base_tokens).deep_view(),
            entry_views_of(old(metadata_fields)@),
        ),
    decreases v,
{
    let ghost base = base_tokens.deep_view();
    let ghost u0 = entry_views_of(unit_fields@);
    let ghost m0 = entry_views_of(metadata_fields@);
    match v {
        Json::Object(e) => {
            proof {
                lemma_entry_views_of(e@);
            }
            let ghost ev = entry_views_of(e@);
            let mut i: usize = 0;
            assert(ev.subrange(0, 0) =~= Seq::<(Seq<char>, JsonV)>::empty());
            while i < e.len()
                invariant
                    i <= e@.len(),
                    ev == entry_views_of(e@),
                    ev.len() == e@.len(),
                    base_tokens.deep_view() == base,
                    entry_views_of(unit_fields@) == entry_unit_sigs(
                        ev.subrange(0, i as int),
                        base,
                        u0,
                    ),
                    entry_views_of(metadata_fields@) == entry_meta_sigs(
                        ev.subrange(0, i as int),
                        base,
                        m0,
                    ),
                decreases e@.len() - i,
            {
                proof {
                    assert(decreases_to!(*v => v->Object_0));
                    assert(decreases_to!(*e => e@));
                    assert(decreases_to!(e@ => e@[i as int]));
                    assert(decreases_to!(e@[i as int] => e@[i as int].1));
                }
                assert(ev[i as int] == (e@[i as int].0@, e@[i as int].1@));
                let ghost kv = ev[i as int].0;
                let ghost vv = ev[i as int].1;
                base_tokens.push(e[i].0.clone());
                let ghost p = base_tokens.deep_view();
                assert(p =~= base.push(kv));
                let key = chars_of(e[i].0.as_str());
                match &e[i].1 {
                    Json::Str(s) => {
                        if eq_str(key.as_slice(), "Value") || eq_str(key.as_slice(), "Min")
                            || eq_str(key.as_slice(), "Max") {
                            proof {
                                reveal_strlit("Value");
                                reveal_strlit("Min");
                                reveal_strlit("Max");
                                reveal_strlit("SensorId");
                                reveal_strlit("Type");
                                reveal_strlit("Text");
                                assert(key@ == kv);
                                assert(kv == "Value"@ || kv == "Min"@ || kv == "Max"@);
                                assert(kv.len() == 5 || kv.len() == 3);
                                assert(!is_meta_key(kv));
                            }
                            let path = joined_path(base_tokens);
                            let unit = normalize_unit(s.as_str());
                            object_insert(unit_fields, path, Json::Str(unit));
                        } else if eq_str(key.as_slice(), "SensorId") || eq_str(
                            key.as_slice(),
                            "Type",
                        ) || eq_str(key.as_slice(), "Text") {
                            let path = joined_path(base_tokens);
                            object_insert(metadata_fields, path, Json::Str(s.clone()));
                        }
                    },
                    _ => {},
                }
                collect_field_signatures(&e[i].1, base_tokens, unit_fields, metadata_fields);
                let ghost mid = base_tokens@;
                let ghost mid_dv = base_tokens.deep_view();
                base_tokens.pop();
                assert forall|k: int| 0 <= k < base.len() implies base_tokens.deep_view()[k]
                    == base[k] by {
                    assert(mid_dv[k] == mid[k]@);
                    assert(mid_dv[k] == p[k]);
                }
                assert(base_tokens.deep_view() =~= base);
                assert(ev.subrange(0, i + 1).subrange(0, i as int) =~= ev.subrange(0, i as int));
                assert(ev.subrange(0, i + 1)[i as int] == ev[i as int]);
                i = i + 1;
            }
            assert(ev.subrange(0, e@.len() as int) =~= ev);
        },
        Json::Array(a) => {
            proof {
                lemma_views_of(a@);
            }
            let ghost av = views_of(a@);
            let mut i: usize = 0;
            assert(av.subrange(0, 0) =~= Seq::<JsonV>::empty());
            while i < a.len()
                invariant
                    i <= a@.len(),
                    av == views_of(a@),
                    av.len() == a@.len(),
                    base_tokens.deep_view() == base,
                    entry_views_of(unit_fields@) == item_unit_sigs(
                        av.subrange(0, i as int),
                        base,
                        u0,
                    ),
                    entry_views_of(metadata_fields@) == item_meta_sigs(
                        av.subrange(0, i as int),
                        base,
                        m0,
                    ),
                decreases a@.len() - i,
            {
                proof {
                    assert(decreases_to!(*v => v->Array_0));
                    assert(decreases_to!(*a => a@));
                    assert(decreases_to!(a@ => a@[i as int]));
                }
                assert(av[i as int] == a@[i as int]@);
                base_tokens.push(index_token_exec(i));
                let ghost p = base_tokens.deep_view();
                assert(p =~= base.push(index_token(i as nat)));
                collect_field_signatures(&a[i], base_tokens, unit_fields, metadata_fields);
                let ghost mid = base_tokens@;
                let ghost mid_dv = base_tokens.deep_view();
                base_tokens.pop();
                assert forall|k: int| 0 <= k < base.len() implies base_tokens.deep_view()[k]
                    == base[k] by {
                    assert(mid_dv[k] == mid[k]@);
                    assert(mid_dv[k] == p[k]);
                }
                assert(base_tokens.deep_view() =~= base);
                assert(av.subrange(0, i + 1).subrange(0, i as int) =~= av.subrange(0, i as int));
                assert(av.subrange(0, i + 1)[i as int] == av[i as int]);
                i = i + 1;
            }
            assert(av.subrange(0, a@.len() as int) =~= av);
        },
        _ => {},
    }
}

// ---------------------------------------------------------------------------
// The schema report
// ---------------------------------------------------------------------------

/// The paths of `a` that `b` lacks, each once, in the order of their first
/// occurrence in `a`.
pub open spec fn missing(a: Seq<Seq<char>>, b: Seq<Seq<char>>) -> Seq<Seq<char>>
    decreases a.len(),
{
    if a.len() == 0 {
        Seq::empty()
    } else {
        let prev = missing(a.drop_last(), b);
        let x = a.last();
        if b.contains(x) || prev.contains(x) {
            prev
        } else {
            prev.push(x)
        }
    }
}

/// One mismatch entry: the two sides under the given keys, and the path.
pub open spec fn mismatch(
    data_key: Seq<char>,
    ohm_key: Seq<char>,
    path: Seq<char>,
    d: Seq<char>,
    o: Seq<char>,
) -> JsonV {
    JsonV::Object(
        seq![(data_key, JsonV::Str(d)), (ohm_key, JsonV::Str(o)), ("path"@, JsonV::Str(path))],
    )
}

/// For each path of the live units, in path order, that the OHM export
/// also has with a unit that does not fit.
pub open spec fn unit_mismatches(du: Seq<(Seq<char>, JsonV)>, ou: Seq<(Seq<char>, JsonV)>) -> Seq<
    JsonV,
>
    decreases du.len(),
{
    if du.len() == 0 {
        Seq::empty()
    } else {
        let prev = unit_mismatches(du.drop_last(), ou);
        let p = du.last().0;
        match (du.last().1, lookup(ou, p)) {
            (JsonV::Str(d), Some(JsonV::Str(o))) => if !units_compatible(d, o) {
                prev.push(mismatch("data_unit"@, "ohm_unit"@, p, d, o))
            } else {
                prev
            },
            _ => prev,
        }
    }
}

/// For each path of the live metadata, in path order, that the OHM export
/// also has with a different value.
pub open spec fn meta_mismatches(dm: Seq<(Seq<char>, JsonV)>, om: Seq<(Seq<char>, JsonV)>) -> Seq<
    JsonV,
>
    decreases dm.len(),
{
    if dm.len() == 0 {
        Seq::empty()
    } else {
        let prev = meta_mismatches(dm.drop_last(), om);
        let p = dm.last().0;
        match (dm.last().1, lookup(om, p)) {
            (JsonV::Str(d), Some(JsonV::Str(o))) => if d != o {
                prev.push(mismatch("data_value"@, "ohm_value"@, p, d, o))
            } else {
                prev
            },
            _ => prev,
        }
    }
}

pub open spec fn str_json(s: Seq<char>) -> JsonV {
    JsonV::Str(s)
}

pub open spec fn str_array(s: Seq<Seq<char>>) -> JsonV {
    JsonV::Array(s.map_values(|x: Seq<char>| str_json(x)))
}

pub open spec fn schema_note() -> Seq<char> {
    "value drift is ignored; only schema paths, units, and sensor metadata are enforced"@
}

/// Two trees have the same shape: no path is on one side only, and no unit
/// or metadata differs.
pub open spec fn shape_compatible(data: JsonV, ohm: JsonV) -> bool {
    let dp = path_list(data, Seq::empty());
    let op = path_list(ohm, Seq::empty());
    &&& missing(dp, op).len() == 0
    &&& missing(op, dp).len() == 0
    &&& unit_mismatches(
        unit_sigs(data, Seq::empty(), Seq::empty()),
        unit_sigs(ohm, Seq::empty(), Seq::empty()),
    ).len() == 0
    &&& meta_mismatches(
        meta_sigs(data, Seq::empty(), Seq::empty()),
        meta_sigs(ohm, Seq::empty(), Seq::empty()),
    ).len() == 0
}

/// The shape comparison of two trees: paths only one side has, unit and
/// metadata mismatches, and whether there are none.
pub open spec fn shape_report(data: JsonV, ohm: JsonV) -> JsonV {
    let dp = path_list(data, Seq::empty());
    let op = path_list(ohm, Seq::empty());
    let only_d = missing(dp, op);
    let only_o = missing(op, dp);
    let um = unit_mismatches(
        unit_sigs(data, Seq::empty(), Seq::empty()),
        unit_sigs(ohm, Seq::empty(), Seq::empty()),
    );
    let mm = meta_mismatches(
        meta_sigs(data, Seq::empty(), Seq::empty()),
        meta_sigs(ohm, Seq::empty(), Seq::empty()),
    );
    JsonV::Object(
        seq![
            ("compatible"@, JsonV::Bool(shape_compatible(data, ohm))),
            ("metadata_mismatches"@, JsonV::Array(mm)),
            ("note"@, JsonV::Str(schema_note())),
            ("only_in_data"@, str_array(only_d)),
            ("only_in_ohm"@, str_array(only_o)),
            ("unit_mismatches"@, JsonV::Array(um)),
        ],
    )
}

/// The member a manual override adds to a sensor node.
pub open spec fn is_marker_key(k: Seq<char>) -> bool {
    k == "overload"@
}

/// A value with every `overload` member left out, at every depth.
pub open spec fn strip_markers(j: JsonV) -> JsonV
    decreases j,
{
    match j {
        JsonV::Object(e) => JsonV::Object(strip_entries(e)),
        JsonV::Array(s) => JsonV::Array(strip_items(s)),
        _ => j,
    }
}

pub open spec fn strip_entries(e: Seq<(Seq<char>, JsonV)>) -> Seq<(Seq<char>, JsonV)>
    decreases e,
{
    if e.len() == 0 {
        Seq::empty()
    } else {
        let prev = strip_entries(e.subrange(0, e.len() - 1));
        if is_marker_key(e[e.len() - 1].0) {
            prev
        } else {
            prev.push((e[e.len() - 1].0, strip_markers(e[e.len() - 1].1)))
        }
    }
}

pub open spec fn strip_items(s: Seq<JsonV>) -> Seq<JsonV>
    decreases s,
{
    if s.len() == 0 {
        Seq::empty()
    } else {
        strip_items(s.subrange(0, s.len() - 1)).push(strip_markers(s[s.len() - 1]))
    }
}

/// The live tree fits the OHM export once the override markers are left
/// out of both.
pub open spec fn schema_compatible(data: JsonV, ohm: JsonV) -> bool {
    shape_compatible(strip_markers(data), strip_markers(ohm))
}

/// The schema comparison of a live tree against the OHM export, with the
/// override markers left out of both.
pub open spec fn schema_report(data: JsonV, ohm: JsonV) -> JsonV {
    shape_report(strip_markers(data), strip_markers(ohm))
}

/// The value with its `overload` members left out.
#[verifier::loop_isolation(false)]
pub fn strip_override_markers(v: &Json) -> (r: Json)
    ensures
        r@ == strip_markers(v@),
    decreases v,
{
    match v {
        Json::Object(e) => {
            proof {
                lemma_entry_views_of(e@);
            }
            let ghost ev = entry_views_of(e@);
            let mut out: Vec<(String, Json)> = Vec::new();
            let mut i: usize = 0;
            assert(ev.subrange(0, 0) =~= Seq::<(Seq<char>, JsonV)>::empty());
            assert(entry_views_of(out@) =~= strip_entries(ev.subrange(0, 0)));
            while i < e.len()
                invariant
                    i <= e@.len(),
                    ev == entry_views_of(e@),
                    ev.len() == e@.len(),
                    forall|k: int| 0 <= k < e@.len() ==> #[trigger] ev[k] == (e@[k].0@, e@[k].1@),
                    entry_views_of(out@) == strip_entries(ev.subrange(0, i as int)),
                decreases e@.len() - i,
            {
                proof {
                    assert(decreases_to!(*v => v->Object_0));
                    assert(decreases_to!(*e => e@));
                    assert(decreases_to!(e@ => e@[i as int]));
                    assert(decreases_to!(e@[i as int] => e@[i as int].1));
                }
                assert(ev.subrange(0, i + 1).subrange(0, i as int) =~= ev.subrange(0, i as int));
                assert(ev.subrange(0, i + 1)[i as int] == ev[i as int]);
                let key = chars_of(e[i].0.as_str());
                if !eq_str(key.as_slice(), "overload") {
                    let c = strip_override_markers(&e[i].1);
                    let k = e[i].0.clone();
                    let ghost before = out@;
                    out.push((k, c));
                    assert(out@.subrange(0, out@.len() - 1) =~= before);
                }
                i = i + 1;
                assert(entry_views_of(out@) =~= strip_entries(ev.subrange(0, i as int)));
            }
            assert(ev.subrange(0, e@.len() as int) =~= ev);
            Json::Object(out)
        },
        Json::Array(a) => {
            proof {
                lemma_views_of(a@);
            }
            let ghost av = views_of(a@);
            let mut out: Vec<Json> = Vec::new();
            let mut i: usize = 0;
            assert(av.subrange(0, 0) =~= Seq::<JsonV>::empty());
            assert(views_of(out@) =~= strip_items(av.subrange(0, 0)));
            while i < a.len()
                invariant
                    i <= a@.len(),
                    av == views_of(a@),
                    av.len() == a@.len(),
                    forall|k: int| 0 <= k < a@.len() ==> #[trigger] av[k] == a@[k]@,
                    views_of(out@) == strip_items(av.subrange(0, i as int)),
                decreases a@.len() - i,
            {
                proof {
                    assert(decreases_to!(*v => v->Array_0));
                    assert(decreases_to!(*a => a@));
                    assert(decreases_to!(a@ => a@[i as int]));
                }
                assert(av.subrange(0, i + 1).subrange(0, i as int) =~= av.subrange(0, i as int));
                assert(av.subrange(0, i + 1)[i as int] == av[i as int]);
                let c = strip_override_markers(&a[i]);
                let ghost before = out@;
                out.push(c);
                assert(out@.subrange(0, out@.len() - 1) =~= before);
                i = i + 1;
                assert(views_of(out@) =~= strip_items(av.subrange(0, i as int)));
            }
            assert(av.subrange(0, a@.len() as int) =~= av);
            Json::Array(out)
        },
        _ => deep_clone(v),
    }
}

pub fn char_vecs(v: &Vec<String>) -> (r: Vec<Vec<char>>)
    ensures
        views(r@) == v.deep_view(),
{
    let mut r: Vec<Vec<char>> = Vec::new();
    let mut i: usize = 0;
    while i < v.len()
        invariant
            i <= v@.len(),
            views(r@) == v.deep_view().take(i as int),
        decreases v@.len() - i,
    {
        let ghost before = r@;
        let c = chars_of(v[i].as_str());
        r.push(c);
        proof {
            lemma_views_len(before);
            lemma_views_len(r@);
        }
        i = i + 1;
        assert(views(r@) =~= v.deep_view().take(i as int));
    }
    assert(v.deep_view().take(v@.len() as int) =~= v.deep_view());
    r
}

pub fn contains_chars(v: &Vec<Vec<char>>, x: &[char]) -> (r: bool)
    ensures
        r == views(v@).contains(x@),
{
    let mut i: usize = 0;
    while i < v.len()
        invariant
            i <= v@.len(),
            forall|k: int| 0 <= k < i ==> views(v@)[k] != x@,
        decreases v@.len() - i,
    {
        if chars_eq(v[i].as_slice(), x) {
            assert(views(v@)[i as int] == x@);
            return true;
        }
        i = i + 1;
    }
    false
}

pub fn missing_paths(a: &Vec<String>, b: &Vec<String>) -> (r: Vec<String>)
    ensures
        r.deep_view() == missing(a.deep_view(), b.deep_view()),
{
    let ac = char_vecs(a);
    let bc = char_vecs(b);
    let ghost av = a.deep_view();
    let mut rc: Vec<Vec<char>> = Vec::new();
    let mut r: Vec<String> = Vec::new();
    let mut i: usize = 0;
    while i < ac.len()
        invariant
            i <= ac@.len(),
            views(ac@) == av,
            views(bc@) == b.deep_view(),
            views(rc@) == r.deep_view(),
            r.deep_view() == missing(av.take(i as int), b.deep_view()),
        decreases ac@.len() - i,
    {
        assert(av.take(i + 1).drop_last() =~= av.take(i as int));
        assert(av.take(i + 1).last() == ac@[i as int]@);
        let x = ac[i].as_slice();
        if !contains_chars(&bc, x) && !contains_chars(&rc, x) {
            let ghost before = r.deep_view();
            r.push(string_of(x));
            rc.push(ac[i].clone());
            assert(r.deep_view() =~= before.push(x@));
            assert(views(rc@) =~= r.deep_view());
        }
        i = i + 1;
    }
    assert(av.take(av.len() as int) =~= av);
    r
}

fn mismatch_json(data_key: &str, ohm_key: &str, path: &String, d: &String, o: &String) -> (r: Json)
    ensures
        r@ == mismatch(data_key@, ohm_key@, path@, d@, o@),
{
    let mut e: Vec<(String, Json)> = Vec::new();
    e.push((owned(data_key), Json::Str(d.clone())));
    e.push((owned(ohm_key), Json::Str(o.clone())));
    e.push((owned("path"), Json::Str(path.clone())));
    proof {
        lemma_entry_views_of(e@);
    }
    assert(entry_views_of(e@) =~= seq![
        (data_key@, JsonV::Str(d@)),
        (ohm_key@, JsonV::Str(o@)),
        ("path"@, JsonV::Str(path@)),
    ]);
    Json::Object(e)
}

fn mismatch_list(du: &Vec<(String, Json)>, ou: &Vec<(String, Json)>, units: bool) -> (r: Vec<Json>)
    ensures
        views_of(r@) == if units {
            unit_mismatches(entry_views_of(du@), entry_views_of(ou@))
        } else {
            meta_mismatches(entry_views_of(du@), entry_views_of(ou@))
        },
{
    proof {
        lemma_entry_views_of(du@);
    }
    let ghost dv = entry_views_of(du@);
    let ghost ov = entry_views_of(ou@);
    let mut r: Vec<Json> = Vec::new();
    let mut i: usize = 0;
    while i < du.len()
        invariant
            i <= du@.len(),
            dv == entry_views_of(du@),
            ov == entry_views_of(ou@),
            dv.len() == du@.len(),
            forall|k: int| 0 <= k < du@.len() ==> #[trigger] dv[k] == (du@[k].0@, du@[k].1@),
            views_of(r@) == if units {
                unit_mismatches(dv.take(i as int), ov)
            } else {
                meta_mismatches(dv.take(i as int), ov)
            },
        decreases du@.len() - i,
    {
        assert(dv.take(i + 1).drop_last() =~= dv.take(i as int));
        assert(dv.take(i + 1).last() == dv[i as int]);
        assert(dv[i as int] == (du@[i as int].0@, du@[i as int].1@));
        proof {
            lemma_views_of(r@);
        }
        let ghost before = views_of(r@);
        match &du[i].1 {
            Json::Str(d) => {
                match entries_get(ou, du[i].0.as_str()) {
                    Some(Json::Str(o)) => {
                        let bad = if units {
                            !units_are_compatible(d.as_str(), o.as_str())
                        } else {
                            let dc = chars_of(d.as_str());
                            let oc = chars_of(o.as_str());
                            !chars_eq(dc.as_slice(), oc.as_slice())
                        };
                        if bad {
                            let m = if units {
                                mismatch_json("data_unit", "ohm_unit", &du[i].0, d, o)
                            } else {
                                mismatch_json("data_value", "ohm_value", &du[i].0, d, o)
                            };
                            r.push(m);
                            proof {
                                lemma_views_of(r@);
                            }
                            assert(views_of(r@) =~= before.push(m@));
                        }
                    },
                    _ => {},
                }
            },
            _ => {},
        }
        i = i + 1;
    }
    assert(dv.take(du@.len() as int) =~= dv);
    r
}

fn string_array(v: Vec<String>) -> (r: Json)
    ensures
        r@ == str_array(v.deep_view()),
{
    let mut items: Vec<Json> = Vec::new();
    let mut i: usize = 0;
    while i < v.len()
        invariant
            i <= v@.len(),
            views_of(items@) == v.deep_view().take(i as int).map_values(
                |x: Seq<char>| str_json(x),
            ),
        decreases v@.len() - i,
    {
        proof {
            lemma_views_of(items@);
        }
        let ghost before = views_of(items@);
        items.push(Json::Str(v[i].clone()));
        proof {
            lemma_views_of(items@);
            assert forall|k: int| 0 <= k <= i implies #[trigger] views_of(items@)[k] == str_json(
                v.deep_view()[k],
            ) by {
                if k < i {
                    assert(views_of(items@)[k] == before[k]);
                    assert(before[k] == v.deep_view().take(i as int).map_values(
                        |x: Seq<char>| str_json(x),
                    )[k]);
                }
            }
        }
        i = i + 1;
        assert(views_of(items@) =~= v.deep_view().take(i as int).map_values(
            |x: Seq<char>| str_json(x),
        ));
    }
    assert(v.deep_view().take(v@.len() as int) =~= v.deep_view());
    Json::Array(items)
}

/// Compares the shape of the live tree with the OHM export: key paths,
/// units of `Value`/`Min`/`Max` and the sensor metadata; values themselves
/// may differ.
pub fn compare_schema(data_value: &Json, ohm_value: &Json) -> (r: Json)
    ensures
        r@ == schema_report(data_value@, ohm_value@),
{
    let stripped_data = strip_override_markers(data_value);
    let stripped_ohm = strip_override_markers(ohm_value);
    let data_value = &stripped_data;
    let ohm_value = &stripped_ohm;
    let mut data_paths: Vec<String> = Vec::new();
    let mut ohm_paths: Vec<String> = Vec::new();
    let mut tokens: Vec<String> = Vec::new();
    assert(tokens.deep_view() =~= Seq::<Seq<char>>::empty());
    collect_paths(data_value, &mut tokens, &mut data_paths);
    collect_paths(ohm_value, &mut tokens, &mut ohm_paths);
    assert(data_paths.deep_view() =~= path_list(data_value@, Seq::empty()));
    assert(ohm_paths.deep_view() =~= path_list(ohm_value@, Seq::empty()));
    let only_in_data = missing_paths(&data_paths, &ohm_paths);
    let only_in_ohm = missing_paths(&ohm_paths, &data_paths);

    let mut data_units: Vec<(String, Json)> = Vec::new();
    let mut ohm_units: Vec<(String, Json)> = Vec::new();
    let mut data_meta: Vec<(String, Json)> = Vec::new();
    let mut ohm_meta: Vec<(String, Json)> = Vec::new();
    assert(entry_views_of(data_units@) =~= Seq::<(Seq<char>, JsonV)>::empty());
    collect_field_signatures(data_value, &mut tokens, &mut data_units, &mut data_meta);
    collect_field_signatures(ohm_value, &mut tokens, &mut ohm_units, &mut ohm_meta);
    let unit_mm = mismatch_list(&data_units, &ohm_units, true);
    let meta_mm = mismatch_list(&data_meta, &ohm_meta, false);
    proof {
        lemma_views_of(unit_mm@);
        lemma_views_of(meta_mm@);
    }
    let compatible = only_in_data.len() == 0 && only_in_ohm.len() == 0 && unit_mm.len() == 0
        && meta_mm.len() == 0;
    let mut e: Vec<(String, Json)> = Vec::new();
    e.push((owned("compatible"), Json::Bool(compatible)));
    e.push((owned("metadata_mismatches"), Json::Array(meta_mm)));
    e.push((owned("note"), Json::Str(owned(
        "value drift is ignored; only schema paths, units, and sensor metadata are enforced",
    ))));
    e.push((owned("only_in_data"), string_array(only_in_data)));
    e.push((owned("only_in_ohm"), string_array(only_in_ohm)));
    e.push((owned("unit_mismatches"), Json::Array(unit_mm)));
    proof {
        lemma_entry_views_of(e@);
    }
    assert(entry_views_of(e@) =~= shape_report(data_value@, ohm_value@)->Object_0);
    Json::Object(e)
}

// ---------------------------------------------------------------------------
// Laws
// ---------------------------------------------------------------------------

proof fn lemma_missing_covered(a: Seq<Seq<char>>, b: Seq<Seq<char>>)
    requires
        forall|i: int| 0 <= i < a.len() ==> b.contains(#[trigger] a[i]),
    ensures
        missing(a, b).len() == 0,
    decreases a.len(),
{
    if a.len() > 0 {
        assert forall|i: int| 0 <= i < a.drop_last().len() implies b.contains(
            #[trigger] a.drop_last()[i],
        ) by {
            assert(a.drop_last()[i] == a[i]);
        }
        lemma_missing_covered(a.drop_last(), b);
        assert(b.contains(a[a.len() - 1]));
    }
}

proof fn lemma_unit_sigs_sorted(j: JsonV, prefix: Seq<Seq<char>>, acc: Seq<(Seq<char>, JsonV)>)
    requires
        keys_sorted(acc),
    ensures
        keys_sorted(unit_sigs(j, prefix, acc)),
    decreases j,
{
    match j {
        JsonV::Object(e) => lemma_entry_unit_sigs_sorted(e, prefix, acc),
        JsonV::Array(s) => lemma_item_unit_sigs_sorted(s, prefix, acc),
        _ => {},
    }
}

proof fn lemma_entry_unit_sigs_sorted(
    e: Seq<(Seq<char>, JsonV)>,
    prefix: Seq<Seq<char>>,
    acc: Seq<(Seq<char>, JsonV)>,
)
    requires
        keys_sorted(acc),
    ensures
        keys_sorted(entry_unit_sigs(e, prefix, acc)),
    decreases e,
{
    if e.len() > 0 {
        lemma_entry_unit_sigs_sorted(e.subrange(0, e.len() - 1), prefix, acc);
        let prev = entry_unit_sigs(e.subrange(0, e.len() - 1), prefix, acc);
        let k = e[e.len() - 1].0;
        let v = e[e.len() - 1].1;
        let p = prefix.push(k);
        if is_unit_key(k) && v is Str {
            lemma_obj_insert(prev, join(p, "/"@), JsonV::Str(unit_of(v->Str_0)));
        }
        let a = if is_unit_key(k) && v is Str {
            obj_insert(prev, join(p, "/"@), JsonV::Str(unit_of(v->Str_0)))
        } else {
            prev
        };
        lemma_unit_sigs_sorted(e[e.len() - 1].1, p, a);
    }
}

proof fn lemma_item_unit_sigs_sorted(
    s: Seq<JsonV>,
    prefix: Seq<Seq<char>>,
    acc: Seq<(Seq<char>, JsonV)>,
)
    requires
        keys_sorted(acc),
    ensures
        keys_sorted(item_unit_sigs(s, prefix, acc)),
    decreases s,
{
    if s.len() > 0 {
        lemma_item_unit_sigs_sorted(s.subrange(0, s.len() - 1), prefix, acc);
        let prev = item_unit_sigs(s.subrange(0, s.len() - 1), prefix, acc);
        lemma_unit_sigs_sorted(
            s[s.len() - 1],
            prefix.push(index_token((s.len() - 1) as nat)),
            prev,
        );
    }
}

proof fn lemma_meta_sigs_sorted(j: JsonV, prefix: Seq<Seq<char>>, acc: Seq<(Seq<char>, JsonV)>)
    requires
        keys_sorted(acc),
    ensures
        keys_sorted(meta_sigs(j, prefix, acc)),
    decreases j,
{
    match j {
        JsonV::Object(e) => lemma_entry_meta_sigs_sorted(e, prefix, acc),
        JsonV::Array(s) => lemma_item_meta_sigs_sorted(s, prefix, acc),
        _ => {},
    }
}

proof fn lemma_entry_meta_sigs_sorted(
    e: Seq<(Seq<char>, JsonV)>,
    prefix: Seq<Seq<char>>,
    acc: Seq<(Seq<char>, JsonV)>,
)
    requires
        keys_sorted(acc),
    ensures
        keys_sorted(entry_meta_sigs(e, prefix, acc)),
    decreases e,
{
    if e.len() > 0 {
        lemma_entry_meta_sigs_sorted(e.subrange(0, e.len() - 1), prefix, acc);
        let prev = entry_meta_sigs(e.subrange(0, e.len() - 1), prefix, acc);
        let k = e[e.len() - 1].0;
        let v = e[e.len() - 1].1;
        let p = prefix.push(k);
        if is_meta_key(k) && v is Str {
            lemma_obj_insert(prev, join(p, "/"@), v);
        }
        let a = if is_meta_key(k) && v is Str {
            obj_insert(prev, join(p, "/"@), v)
        } else {
            prev
        };
        lemma_meta_sigs_sorted(e[e.len() - 1].1, p, a);
    }
}

proof fn lemma_item_meta_sigs_sorted(
    s: Seq<JsonV>,
    prefix: Seq<Seq<char>>,
    acc: Seq<(Seq<char>, JsonV)>,
)
    requires
        keys_sorted(acc),
    ensures
        keys_sorted(item_meta_sigs(s, prefix, acc)),
    decreases s,
{
    if s.len() > 0 {
        lemma_item_meta_sigs_sorted(s.subrange(0, s.len() - 1), prefix, acc);
        let prev = item_meta_sigs(s.subrange(0, s.len() - 1), prefix, acc);
        lemma_meta_sigs_sorted(
            s[s.len() - 1],
            prefix.push(index_token((s.len() - 1) as nat)),
            prev,
        );
    }
}

/// In a map with distinct keys, each entry is what its key looks up.
pub proof fn lemma_sorted_lookup(m: Seq<(Seq<char>, JsonV)>, i: int)
    requires
        keys_sorted(m),
        0 <= i < m.len(),
    ensures
        lookup(m, m[i].0) == Some(m[i].1),
{
    assert forall|j: int| 0 <= j < i implies m[j].0 != m[i].0 by {
        assert(seq_lt(m[j].0, m[i].0));
    }
    lemma_lookup_first(m, m[i].0, i);
}

proof fn lemma_no_mismatch(d: Seq<(Seq<char>, JsonV)>, o: Seq<(Seq<char>, JsonV)>)
    requires
        forall|i: int| 0 <= i < d.len() ==> lookup(o, #[trigger] d[i].0) == Some(d[i].1),
    ensures
        unit_mismatches(d, o).len() == 0,
        meta_mismatches(d, o).len() == 0,
    decreases d.len(),
{
    if d.len() > 0 {
        assert forall|i: int| 0 <= i < d.drop_last().len() implies lookup(
            o,
            #[trigger] d.drop_last()[i].0,
        ) == Some(d.drop_last()[i].1) by {
            assert(d.drop_last()[i] == d[i]);
        }
        lemma_no_mismatch(d.drop_last(), o);
        assert(lookup(o, d[d.len() - 1].0) == Some(d[d.len() - 1].1));
    }
}

proof fn lemma_shape_compatible_with_itself(j: JsonV)
    ensures
        shape_compatible(j, j),
{
    let p = path_list(j, Seq::empty());
    assert forall|i: int| 0 <= i < p.len() implies p.contains(#[trigger] p[i]) by {}
    lemma_missing_covered(p, p);
    let e: Seq<(Seq<char>, JsonV)> = Seq::empty();
    let u = unit_sigs(j, Seq::empty(), e);
    let m = meta_sigs(j, Seq::empty(), e);
    lemma_unit_sigs_sorted(j, Seq::empty(), e);
    lemma_meta_sigs_sorted(j, Seq::empty(), e);
    assert forall|i: int| 0 <= i < u.len() implies lookup(u, #[trigger] u[i].0) == Some(u[i].1) by {
        lemma_sorted_lookup(u, i);
    }
    assert forall|i: int| 0 <= i < m.len() implies lookup(m, #[trigger] m[i].0) == Some(m[i].1) by {
        lemma_sorted_lookup(m, i);
    }
    lemma_no_mismatch(u, u);
    lemma_no_mismatch(m, m);
}

/// Every tree is schema-compatible with itself, and the report on it
/// says so.
pub proof fn lemma_schema_compatible_with_itself(j: JsonV)
    ensures
        schema_compatible(j, j),
        schema_report(j, j)->Object_0[0] == ("compatible"@, JsonV::Bool(true)),
{
    lemma_shape_compatible_with_itself(strip_markers(j));
}

/// Values may drift: two trees with the same key paths, the same units in
/// their value fields and the same sensor metadata, once the override
/// markers are left out, are schema-compatible whatever their readings.
pub proof fn lemma_schema_ignores_value_drift(data: JsonV, ohm: JsonV)
    requires
        path_list(strip_markers(data), Seq::empty()) == path_list(strip_markers(ohm), Seq::empty()),
        unit_sigs(strip_markers(data), Seq::empty(), Seq::empty()) == unit_sigs(
            strip_markers(ohm),
            Seq::empty(),
            Seq::empty(),
        ),
        meta_sigs(strip_markers(data), Seq::empty(), Seq::empty()) == meta_sigs(
            strip_markers(ohm),
            Seq::empty(),
            Seq::empty(),
        ),
    ensures
        schema_compatible(data, ohm),
{
    lemma_shape_compatible_with_itself(strip_markers(ohm));
}

/// The `overload` marker of a manual override is ignored: a live tree that
/// differs from the OHM export only by such markers is compatible, and the
/// report on it is the report of the export against itself, so it lists
/// no path, unit or metadata difference.
pub proof fn lemma_schema_ignores_override_marker(data: JsonV, ohm: JsonV)
    requires
        strip_markers(data) == strip_markers(ohm),
    ensures
        schema_compatible(data, ohm),
        schema_report(data, ohm) == schema_report(ohm, ohm),
        schema_report(data, ohm)->Object_0[0] == ("compatible"@, JsonV::Bool(true)),
{
    lemma_schema_compatible_with_itself(ohm);
}


/// Each key occurs once in an object.
pub open spec fn distinct_keys(e: Seq<(Seq<char>, JsonV)>) -> bool {
    forall|i: int, j: int| 0 <= i < j < e.len() ==> (#[trigger] e[i]).0 != (#[trigger] e[j]).0
}

spec fn no_slash(q: Seq<char>) -> bool {
    forall|i: int| 0 <= i < q.len() ==> q[i] != '/'
}

proof fn lemma_join_has_slash(parts: Seq<Seq<char>>, q: Seq<char>)
    requires
        parts.len() >= 2,
        no_slash(q),
    ensures
        join(parts, "/"@) != q,
{
    reveal_strlit("/");
    let pre = join(parts.drop_last(), "/"@);
    let full = pre + "/"@ + parts.last();
    assert(full[pre.len() as int] == '/');
    if full == q {
        assert(q[pre.len() as int] == '/');
    }
}

proof fn lemma_meta_keeps(j: JsonV, p: Seq<Seq<char>>, acc: Seq<(Seq<char>, JsonV)>, q: Seq<char>)
    requires
        p.len() >= 1,
        no_slash(q),
    ensures
        lookup(meta_sigs(j, p, acc), q) == lookup(acc, q),
    decreases j,
{
    match j {
        JsonV::Object(e) => lemma_entry_meta_keeps(e, p, acc, q),
        JsonV::Array(s) => lemma_item_meta_keeps(s, p, acc, q),
        _ => {},
    }
}

proof fn lemma_entry_meta_keeps(
    e: Seq<(Seq<char>, JsonV)>,
    p: Seq<Seq<char>>,
    acc: Seq<(Seq<char>, JsonV)>,
    q: Seq<char>,
)
    requires
        p.len() >= 1,
        no_slash(q),
    ensures
        lookup(entry_meta_sigs(e, p, acc), q) == lookup(acc, q),
    decreases e,
{
    if e.len() > 0 {
        let prev = entry_meta_sigs(e.subrange(0, e.len() - 1), p, acc);
        lemma_entry_meta_keeps(e.subrange(0, e.len() - 1), p, acc, q);
        let k = e[e.len() - 1].0;
        let v = e[e.len() - 1].1;
        let pk = p.push(k);
        lemma_join_has_slash(pk, q);
        let a = if is_meta_key(k) && v is Str {
            obj_insert(prev, join(pk, "/"@), v)
        } else {
            prev
        };
        lemma_obj_insert(prev, join(pk, "/"@), v);
        lemma_meta_keeps(v, pk, a, q);
    }
}

proof fn lemma_item_meta_keeps(
    s: Seq<JsonV>,
    p: Seq<Seq<char>>,
    acc: Seq<(Seq<char>, JsonV)>,
    q: Seq<char>,
)
    requires
        p.len() >= 1,
        no_slash(q),
    ensures
        lookup(item_meta_sigs(s, p, acc), q) == lookup(acc, q),
    decreases s,
{
    if s.len() > 0 {
        let prev = item_meta_sigs(s.subrange(0, s.len() - 1), p, acc);
        lemma_item_meta_keeps(s.subrange(0, s.len() - 1), p, acc, q);
        lemma_meta_keeps(s[s.len() - 1], p.push(index_token((s.len() - 1) as nat)), prev, q);
    }
}

/// At the top of an object, the metadata signature of a metadata key is
/// the key's string.
proof fn lemma_top_meta(e: Seq<(Seq<char>, JsonV)>, acc: Seq<(Seq<char>, JsonV)>, i: int)
    requires
        distinct_keys(e),
        0 <= i < e.len(),
        is_meta_key(e[i].0),
        e[i].1 is Str,
        no_slash(e[i].0),
    ensures
        lookup(entry_meta_sigs(e, Seq::empty(), acc), e[i].0) == Some(e[i].1),
    decreases e.len(),
{
    let q = e[i].0;
    let n = e.len() - 1;
    let sub = e.subrange(0, n);
    let prev = entry_meta_sigs(sub, Seq::empty(), acc);
    let k = e[n].0;
    let v = e[n].1;
    let pk = Seq::<Seq<char>>::empty().push(k);
    assert(join(pk, "/"@) == k);
    let a = if is_meta_key(k) && v is Str {
        obj_insert(prev, k, v)
    } else {
        prev
    };
    lemma_obj_insert(prev, k, v);
    lemma_meta_keeps(v, pk, a, q);
    if i < n {
        assert(e[i].0 != e[n].0);
        assert(sub[i] == e[i]);
        assert(distinct_keys(sub)) by {
            assert forall|x: int, y: int| 0 <= x < y < sub.len() implies (#[trigger] sub[x]).0 != (
            #[trigger] sub[y]).0 by {
                assert(sub[x] == e[x] && sub[y] == e[y]);
            }
        }
        lemma_top_meta(sub, acc, i);
    }
}

/// Leaving the markers out keeps every other member, each key once.
proof fn lemma_strip_keeps_members(e: Seq<(Seq<char>, JsonV)>)
    requires
        distinct_keys(e),
    ensures
        distinct_keys(strip_entries(e)),
        forall|j: int|
            0 <= j < strip_entries(e).len() ==> exists|i: int|
                0 <= i < e.len() && #[trigger] strip_entries(e)[j].0 == e[i].0,
        forall|i: int|
            0 <= i < e.len() && !is_marker_key(#[trigger] e[i].0) ==> exists|j: int|
                0 <= j < strip_entries(e).len() && strip_entries(e)[j] == (
                    e[i].0,
                    strip_markers(e[i].1),
                ),
    decreases e.len(),
{
    if e.len() > 0 {
        let n = e.len() - 1;
        let sub = e.subrange(0, n);
        assert(distinct_keys(sub)) by {
            assert forall|x: int, y: int| 0 <= x < y < sub.len() implies (#[trigger] sub[x]).0 != (
            #[trigger] sub[y]).0 by {
                assert(sub[x] == e[x] && sub[y] == e[y]);
            }
        }
        lemma_strip_keeps_members(sub);
        let prev = strip_entries(sub);
        let r = strip_entries(e);
        assert forall|j: int| 0 <= j < r.len() implies exists|i: int|
            0 <= i < e.len() && #[trigger] r[j].0 == e[i].0 by {
            if j < prev.len() {
                assert(r[j] == prev[j]);
                let i = choose|i: int| 0 <= i < sub.len() && #[trigger] prev[j].0 == sub[i].0;
                assert(sub[i] == e[i]);
            } else {
                assert(r[j].0 == e[n].0);
            }
        }
        assert(distinct_keys(r)) by {
            assert forall|x: int, y: int| 0 <= x < y < r.len() implies (#[trigger] r[x]).0 != (
            #[trigger] r[y]).0 by {
                if y < prev.len() {
                    assert(r[x] == prev[x] && r[y] == prev[y]);
                } else {
                    assert(r[x] == prev[x]);
                    let i = choose|i: int| 0 <= i < sub.len() && #[trigger] prev[x].0 == sub[i].0;
                    assert(sub[i] == e[i]);
                    assert(r[y].0 == e[n].0);
                }
            }
        }
        assert forall|i: int| 0 <= i < e.len() && !is_marker_key(#[trigger] e[i].0) implies exists|
            j: int,
        | 0 <= j < r.len() && r[j] == (e[i].0, strip_markers(e[i].1)) by {
            if i < n {
                assert(sub[i] == e[i]);
                let j = choose|j: int|
                    0 <= j < prev.len() && prev[j] == (sub[i].0, strip_markers(sub[i].1));
                assert(r[j] == prev[j]);
            } else {
                assert(r[prev.len() as int] == (e[n].0, strip_markers(e[n].1)));
            }
        }
    }
}

proof fn lemma_meta_mismatch_listed(
    dm: Seq<(Seq<char>, JsonV)>,
    om: Seq<(Seq<char>, JsonV)>,
    i: int,
    d: Seq<char>,
    o: Seq<char>,
)
    requires
        0 <= i < dm.len(),
        dm[i].1 == JsonV::Str(d),
        lookup(om, dm[i].0) == Some(JsonV::Str(o)),
        d != o,
    ensures
        meta_mismatches(dm, om).contains(mismatch("data_value"@, "ohm_value"@, dm[i].0, d, o)),
    decreases dm.len(),
{
    let n = dm.len() - 1;
    let prev = meta_mismatches(dm.drop_last(), om);
    let m = mismatch("data_value"@, "ohm_value"@, dm[i].0, d, o);
    if i < n {
        assert(dm.drop_last()[i] == dm[i]);
        lemma_meta_mismatch_listed(dm.drop_last(), om, i, d, o);
        let j = choose|j: int| 0 <= j < prev.len() && prev[j] == m;
        let r = meta_mismatches(dm, om);
        assert(r == prev || r =~= prev.push(r[r.len() - 1]));
        assert(r[j] == m);
    } else {
        assert(dm.last() == dm[i]);
        let r = meta_mismatches(dm, om);
        assert(r == prev.push(m));
        assert(r[prev.len() as int] == m);
    }
}

/// A changed `SensorId`, `Type` or `Text` at the top of the two trees is
/// reported: the trees are not compatible, and the report's metadata
/// mismatches list the path with the live and the OHM string.
pub proof fn lemma_metadata_change_reported(
    ed: Seq<(Seq<char>, JsonV)>,
    eo: Seq<(Seq<char>, JsonV)>,
    k: Seq<char>,
    d: Seq<char>,
    o: Seq<char>,
)
    requires
        k == "SensorId"@ || k == "Type"@ || k == "Text"@,
        distinct_keys(ed),
        distinct_keys(eo),
        lookup(ed, k) == Some(JsonV::Str(d)),
        lookup(eo, k) == Some(JsonV::Str(o)),
        d != o,
    ensures
        !schema_compatible(JsonV::Object(ed), JsonV::Object(eo)),
        schema_report(JsonV::Object(ed), JsonV::Object(eo))->Object_0[0] == (
            "compatible"@,
            JsonV::Bool(false),
        ),
        schema_report(JsonV::Object(ed), JsonV::Object(eo))->Object_0[1].0 == "metadata_mismatches"@,
        schema_report(JsonV::Object(ed), JsonV::Object(eo))->Object_0[1].1 matches JsonV::Array(mm)
            && mm.contains(
            JsonV::Object(
                seq![
                    ("data_value"@, JsonV::Str(d)),
                    ("ohm_value"@, JsonV::Str(o)),
                    ("path"@, JsonV::Str(k)),
                ],
            ),
        ),
{
    reveal_strlit("SensorId");
    reveal_strlit("Type");
    reveal_strlit("Text");
    reveal_strlit("overload");
    assert(no_slash(k)) by {
        assert forall|i: int| 0 <= i < k.len() implies k[i] != '/' by {
            if k == "SensorId"@ {
                assert(i == 0 || i == 1 || i == 2 || i == 3 || i == 4 || i == 5 || i == 6 || i == 7);
            } else {
                assert(i == 0 || i == 1 || i == 2 || i == 3);
            }
        }
    }
    assert(!is_marker_key(k)) by {
        assert(k[0] != "overload"@[0]);
    }
    assert(is_meta_key(k));
    crate::json::lemma_lookup_index(ed, k);
    crate::json::lemma_lookup_index(eo, k);
    let id = choose|i: int|
        0 <= i < ed.len() && #[trigger] ed[i].0 == k && ed[i].1 == JsonV::Str(d) && forall|j: int|
            0 <= j < i ==> ed[j].0 != k;
    let io = choose|i: int|
        0 <= i < eo.len() && #[trigger] eo[i].0 == k && eo[i].1 == JsonV::Str(o) && forall|j: int|
            0 <= j < i ==> eo[j].0 != k;
    lemma_strip_keeps_members(ed);
    lemma_strip_keeps_members(eo);
    let sd = strip_entries(ed);
    let so = strip_entries(eo);
    let jd = choose|j: int| 0 <= j < sd.len() && sd[j] == (ed[id].0, strip_markers(ed[id].1));
    let jo = choose|j: int| 0 <= j < so.len() && so[j] == (eo[io].0, strip_markers(eo[io].1));
    let e0: Seq<(Seq<char>, JsonV)> = Seq::empty();
    lemma_top_meta(sd, e0, jd);
    lemma_top_meta(so, e0, jo);
    let dm = meta_sigs(JsonV::Object(sd), Seq::empty(), e0);
    let om = meta_sigs(JsonV::Object(so), Seq::empty(), e0);
    assert(lookup(dm, k) == Some(JsonV::Str(d)));
    assert(lookup(om, k) == Some(JsonV::Str(o)));
    crate::json::lemma_lookup_index(dm, k);
    let im = choose|i: int|
        0 <= i < dm.len() && #[trigger] dm[i].0 == k && dm[i].1 == JsonV::Str(d) && forall|j: int|
            0 <= j < i ==> dm[j].0 != k;
    lemma_meta_mismatch_listed(dm, om, im, d, o);
    let mm = meta_mismatches(dm, om);
    assert(mm.len() > 0);
}

} // verus!
