//! Walks over the OHM sensor tree: objects with a `SensorId` are sensors,
//! their `Children` arrays hold the nodes below them.
use vstd::prelude::*;
use crate::json::{
    clone_entries, deep_clone, entries_get, entry_views_of, first_key, key_position,
    lemma_entry_views_of, lemma_first_key, lemma_lookup_index, lemma_obj_insert, lemma_views_of,
    lookup, obj_insert,
    object_insert,
    object_insert_str, views_of, Json, JsonV,
};
use crate::mapping::{OhmSensor, OhmSensorView};
use crate::resolve::sensor_views;
use crate::text::{chars_eq, chars_of, string_of};

verus! {

/// A string member, or the empty string.
pub open spec fn str_or_empty(v: Option<JsonV>) -> Seq<char> {
    match v {
        Some(JsonV::Str(s)) => s,
        _ => Seq::empty(),
    }
}

/// The sensor an object describes, if it has a string `SensorId`.
pub open spec fn own_sensor(e: Seq<(Seq<char>, JsonV)>) -> Seq<OhmSensorView> {
    match lookup(e, "SensorId"@) {
        Some(JsonV::Str(id)) => seq![
            OhmSensorView {
                ohm: id,
                text: str_or_empty(lookup(e, "Text"@)),
                sensor_type: str_or_empty(lookup(e, "Type"@)),
            },
        ],
        _ => Seq::empty(),
    }
}

/// The sensors of a tree in document order: an object's own sensor, then
/// those of its `Children` array; an array's items in order.
pub open spec fn ohm_sensors(j: JsonV) -> Seq<OhmSensorView>
    decreases j,
{
    match j {
        JsonV::Object(e) => {
            let c = first_key(e, "Children"@);
            own_sensor(e) + if 0 <= c < e.len() {
                match e[c].1 {
                    JsonV::Array(s) => item_sensors(s),
                    _ => Seq::empty(),
                }
            } else {
                Seq::empty()
            }
        },
        JsonV::Array(s) => item_sensors(s),
        _ => Seq::empty(),
    }
}

pub open spec fn item_sensors(s: Seq<JsonV>) -> Seq<OhmSensorView>
    decreases s,
{
    if s.len() == 0 {
        Seq::empty()
    } else {
        item_sensors(s.subrange(0, s.len() - 1)) + ohm_sensors(s[s.len() - 1])
    }
}

fn member_or_empty(e: &Vec<(String, Json)>, key: &str) -> (r: String)
    ensures
        r@ == str_or_empty(lookup(entry_views_of(e@), key@)),
{
    match entries_get(e, key) {
        Some(Json::Str(s)) => s.clone(),
        _ => string_of(Vec::<char>::new().as_slice()),
    }
}

/// Appends the sensors of the tree below `v` to `out`.
pub fn collect_ohm_sensors(v: &Json, out: &mut Vec<OhmSensor>)
    ensures
        sensor_views(final(out)@) == sensor_views(old(out)@) + ohm_sensors(v@),
    decreases v, 1nat,
{
    let ghost start = sensor_views(out@);
    match v {
        Json::Object(e) => {
            proof {
                lemma_entry_views_of(e@);
            }
            let ghost ev = entry_views_of(e@);
            match entries_get(e, "SensorId") {
                Some(Json::Str(id)) => {
                    let text = member_or_empty(e, "Text");
                    let sensor_type = member_or_empty(e, "Type");
                    out.push(OhmSensor { ohm: id.clone(), text, sensor_type });
                },
                _ => {},
            }
            assert(sensor_views(out@) =~= start + own_sensor(ev));
            let ghost mid = sensor_views(out@);
            let c = key_position(e, "Children");
            proof {
                lemma_first_key(ev, "Children"@);
            }
            if c < e.len() {
                assert(ev[c as int] == (e@[c as int].0@, e@[c as int].1@));
                match &e[c].1 {
                    Json::Array(items) => {
                        proof {
                            assert(decreases_to!(*v => v->Object_0));
                            assert(decreases_to!(*e => e@));
                            assert(decreases_to!(e@ => e@[c as int]));
                            assert(decreases_to!(e@[c as int] => e@[c as int].1));
                            assert(decreases_to!(e@[c as int].1 => (e@[c as int].1)->Array_0));
                        }
                        collect_item_sensors(items, out);
                        assert(sensor_views(out@) =~= start + ohm_sensors(v@));
                    },
                    _ => {
                        assert(sensor_views(out@) =~= start + ohm_sensors(v@));
                    },
                }
            } else {
                assert(sensor_views(out@) =~= start + ohm_sensors(v@));
            }
        },
        Json::Array(items) => {
            proof {
                assert(decreases_to!(*v => v->Array_0));
            }
            collect_item_sensors(items, out);
        },
        _ => {
            assert(sensor_views(out@) =~= start + ohm_sensors(v@));
        },
    }
}

fn collect_item_sensors(items: &Vec<Json>, out: &mut Vec<OhmSensor>)
    ensures
        sensor_views(final(out)@) == sensor_views(old(out)@) + item_sensors(views_of(items@)),
    decreases items, 0nat,
{
    proof {
        lemma_views_of(items@);
    }
    let ghost iv = views_of(items@);
    let ghost start = sensor_views(out@);
    let mut i: usize = 0;
    assert(iv.subrange(0, 0) =~= Seq::<JsonV>::empty());
    assert(sensor_views(out@) =~= start + item_sensors(iv.subrange(0, 0)));
    while i < items.len()
        invariant
            i <= items@.len(),
            iv == views_of(items@),
            iv.len() == items@.len(),
            forall|k: int| 0 <= k < items@.len() ==> #[trigger] iv[k] == items@[k]@,
            sensor_views(out@) == start + item_sensors(iv.subrange(0, i as int)),
        decreases items@.len() - i,
    {
        proof {
            assert(decreases_to!(*items => items@));
            assert(decreases_to!(items@ => items@[i as int]));
        }
        let ghost before = sensor_views(out@);
        collect_ohm_sensors(&items[i], out);
        assert(iv.subrange(0, i + 1).subrange(0, i as int) =~= iv.subrange(0, i as int));
        assert(iv.subrange(0, i + 1)[i as int] == iv[i as int]);
        i = i + 1;
        assert(sensor_views(out@) =~= start + item_sensors(iv.subrange(0, i as int)));
    }
    assert(iv.subrange(0, items@.len() as int) =~= iv);
}

/// The fields a raw sensor entry copies from its node, in this order.
pub open spec fn raw_keys() -> Seq<Seq<char>> {
    seq!["Text"@, "Type"@, "Value"@, "RawValue"@, "Min"@, "Max"@, "RawMin"@, "RawMax"@]
}

/// The members of `e` under `keys` that it has, as an object.
pub open spec fn copy_fields(e: Seq<(Seq<char>, JsonV)>, keys: Seq<Seq<char>>) -> Seq<
    (Seq<char>, JsonV),
>
    decreases keys.len(),
{
    if keys.len() == 0 {
        Seq::empty()
    } else {
        let prev = copy_fields(e, keys.drop_last());
        match lookup(e, keys.last()) {
            Some(v) => obj_insert(prev, keys.last(), v),
            None => prev,
        }
    }
}

/// The flat map of a tree: each sensor's id to its raw fields, added to
/// `acc` in document order (a later sensor with the same id replaces the
/// earlier one).
pub open spec fn raw_walk(j: JsonV, acc: Seq<(Seq<char>, JsonV)>) -> Seq<(Seq<char>, JsonV)>
    decreases j,
{
    match j {
        JsonV::Object(e) => {
            let a1 = match lookup(e, "SensorId"@) {
                Some(JsonV::Str(id)) => obj_insert(
                    acc,
                    id,
                    JsonV::Object(copy_fields(e, raw_keys())),
                ),
                _ => acc,
            };
            let c = first_key(e, "Children"@);
            if 0 <= c < e.len() {
                match e[c].1 {
                    JsonV::Array(s) => item_raw(s, a1),
                    _ => a1,
                }
            } else {
                a1
            }
        },
        JsonV::Array(s) => item_raw(s, acc),
        _ => acc,
    }
}

pub open spec fn item_raw(s: Seq<JsonV>, acc: Seq<(Seq<char>, JsonV)>) -> Seq<
    (Seq<char>, JsonV),
>
    decreases s,
{
    if s.len() == 0 {
        acc
    } else {
        raw_walk(s[s.len() - 1], item_raw(s.subrange(0, s.len() - 1), acc))
    }
}

fn raw_fields(e: &Vec<(String, Json)>) -> (r: Vec<(String, Json)>)
    ensures
        entry_views_of(r@) == copy_fields(entry_views_of(e@), raw_keys()),
{
    let ghost ev = entry_views_of(e@);
    let keys = ["Text", "Type", "Value", "RawValue", "Min", "Max", "RawMin", "RawMax"];
    let ghost kv = raw_keys();
    assert(keys@.map_values(|k: &str| k@) =~= kv);
    let mut r: Vec<(String, Json)> = Vec::new();
    let mut i: usize = 0;
    assert(entry_views_of(r@) =~= copy_fields(ev, kv.take(0)));
    while i < 8
        invariant
            i <= 8,
            keys@.len() == 8,
            kv == raw_keys(),
            forall|k: int| 0 <= k < 8 ==> #[trigger] keys@[k]@ == kv[k],
            ev == entry_views_of(e@),
            entry_views_of(r@) == copy_fields(ev, kv.take(i as int)),
        decreases 8 - i,
    {
        let key = keys[i];
        assert(kv.take(i + 1).drop_last() =~= kv.take(i as int));
        assert(kv.take(i + 1).last() == key@);
        match entries_get(e, key) {
            Some(value) => {
                let c = deep_clone(value);
                let k = string_of(chars_of(key).as_slice());
                object_insert(&mut r, k, c);
            },
            None => {},
        }
        i = i + 1;
    }
    assert(kv.take(8) =~= kv);
    r
}

/// Adds the raw entry of every sensor below `v` to `out`.
pub fn collect_raw_sensor_entries(v: &Json, out: &mut Vec<(String, Json)>)
    ensures
        entry_views_of(final(out)@) == raw_walk(v@, entry_views_of(old(out)@)),
    decreases v, 1nat,
{
    match v {
        Json::Object(e) => {
            proof {
                lemma_entry_views_of(e@);
            }
            let ghost ev = entry_views_of(e@);
            match entries_get(e, "SensorId") {
                Some(Json::Str(id)) => {
                    let entry = raw_fields(e);
                    object_insert(out, id.clone(), Json::Object(entry));
                },
                _ => {},
            }
            let c = key_position(e, "Children");
            proof {
                lemma_first_key(ev, "Children"@);
            }
            if c < e.len() {
                assert(ev[c as int] == (e@[c as int].0@, e@[c as int].1@));
                match &e[c].1 {
                    Json::Array(items) => {
                        proof {
                            assert(decreases_to!(*v => v->Object_0));
                            assert(decreases_to!(*e => e@));
                            assert(decreases_to!(e@ => e@[c as int]));
                            assert(decreases_to!(e@[c as int] => e@[c as int].1));
                            assert(decreases_to!(e@[c as int].1 => (e@[c as int].1)->Array_0));
                        }
                        collect_item_raw(items, out);
                    },
                    _ => {},
                }
            }
        },
        Json::Array(items) => {
            proof {
                assert(decreases_to!(*v => v->Array_0));
            }
            collect_item_raw(items, out);
        },
        _ => {},
    }
}

fn collect_item_raw(items: &Vec<Json>, out: &mut Vec<(String, Json)>)
    ensures
        entry_views_of(final(out)@) == item_raw(views_of(items@), entry_views_of(old(out)@)),
    decreases items, 0nat,
{
    proof {
        lemma_views_of(items@);
    }
    let ghost iv = views_of(items@);
    let ghost start = entry_views_of(out@);
    let mut i: usize = 0;
    assert(iv.subrange(0, 0) =~= Seq::<JsonV>::empty());
    while i < items.len()
        invariant
            i <= items@.len(),
            iv == views_of(items@),
            iv.len() == items@.len(),
            forall|k: int| 0 <= k < items@.len() ==> #[trigger] iv[k] == items@[k]@,
            entry_views_of(out@) == item_raw(iv.subrange(0, i as int), start),
        decreases items@.len() - i,
    {
        proof {
            assert(decreases_to!(*items => items@));
            assert(decreases_to!(items@ => items@[i as int]));
        }
        collect_raw_sensor_entries(&items[i], out);
        assert(iv.subrange(0, i + 1).subrange(0, i as int) =~= iv.subrange(0, i as int));
        assert(iv.subrange(0, i + 1)[i as int] == iv[i as int]);
        i = i + 1;
    }
    assert(iv.subrange(0, items@.len() as int) =~= iv);
}

// ---------------------------------------------------------------------------
// Marking sensors without a live value
// ---------------------------------------------------------------------------

/// The node with its value fields set to `-`.
pub open spec fn unavailable(e: Seq<(Seq<char>, JsonV)>) -> Seq<(Seq<char>, JsonV)> {
    let d = JsonV::Str("-"@);
    obj_insert(
        obj_insert(
            obj_insert(
                obj_insert(obj_insert(obj_insert(e, "Value"@, d), "RawValue"@, d), "Min"@, d),
                "Max"@,
                d,
            ),
            "RawMin"@,
            d,
        ),
        "RawMax"@,
        d,
    )
}

pub fn set_unavailable_sensor_fields(map: &mut Vec<(String, Json)>)
    ensures
        entry_views_of(final(map)@) == unavailable(entry_views_of(old(map)@)),
{
    object_insert_str(map, "Value", "-");
    object_insert_str(map, "RawValue", "-");
    object_insert_str(map, "Min", "-");
    object_insert_str(map, "Max", "-");
    object_insert_str(map, "RawMin", "-");
    object_insert_str(map, "RawMax", "-");
}

/// A node whose string `SensorId` has no sampled value.
pub open spec fn is_stale(e: Seq<(Seq<char>, JsonV)>, sampled: Seq<(Seq<char>, JsonV)>) -> bool {
    match lookup(e, "SensorId"@) {
        Some(JsonV::Str(id)) => lookup(sampled, id) is None,
        _ => false,
    }
}

/// The tree with every sensor that has no sampled value shown as
/// unavailable; the `Children` array of each object is walked, other
/// members are kept.
pub open spec fn cleared(j: JsonV, sampled: Seq<(Seq<char>, JsonV)>) -> JsonV
    decreases j,
{
    match j {
        JsonV::Object(e) => {
            let e1 = if is_stale(e, sampled) {
                unavailable(e)
            } else {
                e
            };
            let c = first_key(e, "Children"@);
            if 0 <= c < e.len() {
                match e[c].1 {
                    JsonV::Array(s) => JsonV::Object(
                        obj_insert(e1, "Children"@, JsonV::Array(item_cleared(s, sampled))),
                    ),
                    _ => JsonV::Object(e1),
                }
            } else {
                JsonV::Object(e1)
            }
        },
        JsonV::Array(s) => JsonV::Array(item_cleared(s, sampled)),
        _ => j,
    }
}

pub open spec fn item_cleared(s: Seq<JsonV>, sampled: Seq<(Seq<char>, JsonV)>) -> Seq<JsonV>
    decreases s,
{
    if s.len() == 0 {
        Seq::empty()
    } else {
        item_cleared(s.subrange(0, s.len() - 1), sampled).push(cleared(s[s.len() - 1], sampled))
    }
}

fn cleared_tree(j: &Json, sampled: &Vec<(String, Json)>) -> (r: Json)
    ensures
        r@ == cleared(j@, entry_views_of(sampled@)),
    decreases j, 1nat,
{
    let ghost sv = entry_views_of(sampled@);
    match j {
        Json::Object(e) => {
            proof {
                lemma_entry_views_of(e@);
            }
            let ghost ev = entry_views_of(e@);
            let mut node = clone_entries(e);
            let stale = match entries_get(e, "SensorId") {
                Some(Json::Str(id)) => entries_get(sampled, id.as_str()).is_none(),
                _ => false,
            };
            if stale {
                set_unavailable_sensor_fields(&mut node);
            }
            let c = key_position(e, "Children");
            proof {
                lemma_first_key(ev, "Children"@);
            }
            if c < e.len() {
                assert(ev[c as int] == (e@[c as int].0@, e@[c as int].1@));
                match &e[c].1 {
                    Json::Array(items) => {
                        proof {
                            assert(decreases_to!(*j => j->Object_0));
                            assert(decreases_to!(*e => e@));
                            assert(decreases_to!(e@ => e@[c as int]));
                            assert(decreases_to!(e@[c as int] => e@[c as int].1));
                            assert(decreases_to!(e@[c as int].1 => (e@[c as int].1)->Array_0));
                        }
                        let children = cleared_items(items, sampled);
                        let key = string_of(chars_of("Children").as_slice());
                        object_insert(&mut node, key, Json::Array(children));
                    },
                    _ => {},
                }
            }
            Json::Object(node)
        },
        Json::Array(items) => {
            proof {
                assert(decreases_to!(*j => j->Array_0));
            }
            Json::Array(cleared_items(items, sampled))
        },
        _ => deep_clone(j),
    }
}

fn cleared_items(items: &Vec<Json>, sampled: &Vec<(String, Json)>) -> (r: Vec<Json>)
    ensures
        views_of(r@) == item_cleared(views_of(items@), entry_views_of(sampled@)),
    decreases items, 0nat,
{
    proof {
        lemma_views_of(items@);
    }
    let ghost iv = views_of(items@);
    let ghost sv = entry_views_of(sampled@);
    let mut out: Vec<Json> = Vec::new();
    let mut i: usize = 0;
    assert(views_of(out@) =~= item_cleared(iv.subrange(0, 0), sv));
    while i < items.len()
        invariant
            i <= items@.len(),
            iv == views_of(items@),
            sv == entry_views_of(sampled@),
            iv.len() == items@.len(),
            forall|k: int| 0 <= k < items@.len() ==> #[trigger] iv[k] == items@[k]@,
            views_of(out@) == item_cleared(iv.subrange(0, i as int), sv),
        decreases items@.len() - i,
    {
        proof {
            assert(decreases_to!(*items => items@));
            assert(decreases_to!(items@ => items@[i as int]));
        }
        let c = cleared_tree(&items[i], sampled);
        let ghost old_out = out@;
        out.push(c);
        assert(out@.subrange(0, out@.len() - 1) =~= old_out);
        assert(iv.subrange(0, i + 1).subrange(0, i as int) =~= iv.subrange(0, i as int));
        assert(iv.subrange(0, i + 1)[i as int] == iv[i as int]);
        i = i + 1;
    }
    assert(iv.subrange(0, items@.len() as int) =~= iv);
    out
}

/// Shows every sensor of the tree that has no sampled value as
/// unavailable: `Value`, `RawValue`, `Min`, `Max`, `RawMin` and `RawMax`
/// become `-`.
pub fn clear_unmapped_live_values(sampled: &Vec<(String, Json)>, asset: &mut Json)
    ensures
        final(asset)@ == cleared(old(asset)@, entry_views_of(sampled@)),
{
    let r = cleared_tree(asset, sampled);
    *asset = r;
}

// ---------------------------------------------------------------------------
// Applying sampled values to the tree
// ---------------------------------------------------------------------------

/// What reading a sample's `Value` as a number tells about one sensor
/// node.  Numbers are read and formatted outside the library, so these
/// come from the caller, one per query of `sample_queries`, in order.
pub struct SampleFacts {
    /// The sample's value formatted like the node's current value; present
    /// exactly when the sample's `Value` reads as a number.
    pub formatted: Option<String>,
    /// The reading is below the node's `Min`, or `Min` does not read as a
    /// number.
    pub below_min: bool,
    /// The reading is above the node's `Max`, or `Max` does not read as a
    /// number.
    pub above_max: bool,
}

pub struct FactsView {
    pub formatted: Option<Seq<char>>,
    pub below_min: bool,
    pub above_max: bool,
}

impl View for SampleFacts {
    type V = FactsView;

    open spec fn view(&self) -> FactsView {
        FactsView {
            formatted: self.formatted.deep_view(),
            below_min: self.below_min,
            above_max: self.above_max,
        }
    }
}

pub open spec fn facts_views(v: Seq<SampleFacts>) -> Seq<FactsView> {
    v.map_values(|f: SampleFacts| f@)
}

/// What the caller needs to compute the facts for one sensor node: the
/// sample's value, the sensor type (the sample's, else the node's), and
/// the node's current `Value`, `Min` and `Max`.
pub struct SampleQuery {
    pub sensor_id: String,
    pub value: Option<String>,
    pub sensor_type: String,
    pub template: Option<String>,
    pub min: Option<String>,
    pub max: Option<String>,
}

pub struct QueryView {
    pub sensor_id: Seq<char>,
    pub value: Option<Seq<char>>,
    pub sensor_type: Seq<char>,
    pub template: Option<Seq<char>>,
    pub min: Option<Seq<char>>,
    pub max: Option<Seq<char>>,
}

impl View for SampleQuery {
    type V = QueryView;

    open spec fn view(&self) -> QueryView {
        QueryView {
            sensor_id: self.sensor_id@,
            value: self.value.deep_view(),
            sensor_type: self.sensor_type@,
            template: self.template.deep_view(),
            min: self.min.deep_view(),
            max: self.max.deep_view(),
        }
    }
}

pub open spec fn query_views(v: Seq<SampleQuery>) -> Seq<QueryView> {
    v.map_values(|q: SampleQuery| q@)
}

/// A string member.
pub open spec fn str_member(e: Seq<(Seq<char>, JsonV)>, k: Seq<char>) -> Option<Seq<char>> {
    match lookup(e, k) {
        Some(JsonV::Str(s)) => Some(s),
        _ => None,
    }
}

/// The sensor id of a node and its sample, when the node has a string
/// `SensorId` whose sample is an object.
pub open spec fn node_sample(e: Seq<(Seq<char>, JsonV)>, sampled: Seq<(Seq<char>, JsonV)>) -> Option<
    (Seq<char>, Seq<(Seq<char>, JsonV)>),
> {
    match lookup(e, "SensorId"@) {
        Some(JsonV::Str(id)) => match lookup(sampled, id) {
            Some(JsonV::Object(so)) => Some((id, so)),
            _ => None,
        },
        _ => None,
    }
}

pub open spec fn query_of(
    e: Seq<(Seq<char>, JsonV)>,
    id: Seq<char>,
    so: Seq<(Seq<char>, JsonV)>,
) -> QueryView {
    QueryView {
        sensor_id: id,
        value: str_member(so, "Value"@),
        sensor_type: match str_member(so, "Type"@) {
            Some(t) => t,
            None => str_or_empty(lookup(e, "Type"@)),
        },
        template: str_member(e, "Value"@),
        min: str_member(e, "Min"@),
        max: str_member(e, "Max"@),
    }
}

/// Whether the sample written into a sensor node brings its own
/// `Children`.
pub open spec fn takes_sample_children(
    e: Seq<(Seq<char>, JsonV)>,
    sampled: Seq<(Seq<char>, JsonV)>,
) -> bool {
    match node_sample(e, sampled) {
        Some((_, so)) => lookup(so, "Children"@) is Some,
        None => false,
    }
}

/// The `Children` array of a sensor node once its sample is written in.
pub open spec fn sample_kids(
    e: Seq<(Seq<char>, JsonV)>,
    sampled: Seq<(Seq<char>, JsonV)>,
) -> Option<Seq<JsonV>> {
    match node_sample(e, sampled) {
        Some((_, so)) => match lookup(merged(e, so), "Children"@) {
            Some(JsonV::Array(s)) => Some(s),
            _ => None,
        },
        None => None,
    }
}

/// The walk of `j` ends within `fuel` nested descents into children that a
/// sample brought.  A walk that never ends (a sample's children hold a
/// sensor whose sample holds the first sensor again) has no such bound.
pub open spec fn walk_ends(j: JsonV, sampled: Seq<(Seq<char>, JsonV)>, fuel: nat) -> bool
    decreases fuel, j,
{
    match j {
        JsonV::Object(e) => {
            if takes_sample_children(e, sampled) {
                if fuel == 0 {
                    false
                } else {
                    match sample_kids(e, sampled) {
                        Some(s) => items_end(s, sampled, (fuel - 1) as nat),
                        None => true,
                    }
                }
            } else {
                let c = first_key(e, "Children"@);
                if 0 <= c < e.len() {
                    match e[c].1 {
                        JsonV::Array(s) => items_end(s, sampled, fuel),
                        _ => true,
                    }
                } else {
                    true
                }
            }
        },
        JsonV::Array(s) => items_end(s, sampled, fuel),
        _ => true,
    }
}

pub open spec fn items_end(s: Seq<JsonV>, sampled: Seq<(Seq<char>, JsonV)>, fuel: nat) -> bool
    decreases fuel, s,
{
    if s.len() == 0 {
        true
    } else {
        items_end(s.subrange(0, s.len() - 1), sampled, fuel) && walk_ends(
            s[s.len() - 1],
            sampled,
            fuel,
        )
    }
}

/// The walk of `j` ends.
pub open spec fn walk_finite(j: JsonV, sampled: Seq<(Seq<char>, JsonV)>) -> bool {
    exists|n: nat| walk_ends(j, sampled, n)
}

/// A bound within which the walk of `j` ends, when it ends.
pub open spec fn walk_fuel(j: JsonV, sampled: Seq<(Seq<char>, JsonV)>) -> nat {
    choose|n: nat| walk_ends(j, sampled, n)
}

/// One query per sensor node that has an object sample, in the order the
/// walk reaches them: a node, then the `Children` of the node once its
/// sample is written in, so that children a sample brings replace the
/// node's own.
pub open spec fn tree_queries(j: JsonV, sampled: Seq<(Seq<char>, JsonV)>, fuel: nat) -> Seq<
    QueryView,
>
    decreases fuel, j,
{
    match j {
        JsonV::Object(e) => {
            let own = match node_sample(e, sampled) {
                Some((id, so)) => seq![query_of(e, id, so)],
                None => Seq::empty(),
            };
            if takes_sample_children(e, sampled) {
                if fuel == 0 {
                    own
                } else {
                    own + match sample_kids(e, sampled) {
                        Some(s) => item_queries(s, sampled, (fuel - 1) as nat),
                        None => Seq::empty(),
                    }
                }
            } else {
                let c = first_key(e, "Children"@);
                own + if 0 <= c < e.len() {
                    match e[c].1 {
                        JsonV::Array(s) => item_queries(s, sampled, fuel),
                        _ => Seq::empty(),
                    }
                } else {
                    Seq::empty()
                }
            }
        },
        JsonV::Array(s) => item_queries(s, sampled, fuel),
        _ => Seq::empty(),
    }
}

pub open spec fn item_queries(s: Seq<JsonV>, sampled: Seq<(Seq<char>, JsonV)>, fuel: nat) -> Seq<
    QueryView,
>
    decreases fuel, s,
{
    if s.len() == 0 {
        Seq::empty()
    } else {
        item_queries(s.subrange(0, s.len() - 1), sampled, fuel) + tree_queries(
            s[s.len() - 1],
            sampled,
            fuel,
        )
    }
}

/// The queries of the walk of a tree, for a walk that ends.
pub open spec fn queries(j: JsonV, sampled: Seq<(Seq<char>, JsonV)>) -> Seq<QueryView> {
    tree_queries(j, sampled, walk_fuel(j, sampled))
}

fn opt_str_member(e: &Vec<(String, Json)>, key: &str) -> (r: Option<String>)
    ensures
        r.deep_view() == str_member(entry_views_of(e@), key@),
{
    match entries_get(e, key) {
        Some(Json::Str(s)) => Some(s.clone()),
        _ => None,
    }
}

fn query_for(e: &Vec<(String, Json)>, id: &String, so: &Vec<(String, Json)>) -> (r: SampleQuery)
    ensures
        r@ == query_of(entry_views_of(e@), id@, entry_views_of(so@)),
{
    let value = opt_str_member(so, "Value");
    let sensor_type = match opt_str_member(so, "Type") {
        Some(t) => t,
        None => member_or_empty(e, "Type"),
    };
    SampleQuery {
        sensor_id: id.clone(),
        value,
        sensor_type,
        template: opt_str_member(e, "Value"),
        min: opt_str_member(e, "Min"),
        max: opt_str_member(e, "Max"),
    }
}

/// The node with its sample written in, when the sample brings its own
/// `Children`.
fn brought_node(e: &Vec<(String, Json)>, sampled: &Vec<(String, Json)>) -> (r: Option<
    Vec<(String, Json)>,
>)
    ensures
        r is Some <==> takes_sample_children(entry_views_of(e@), entry_views_of(sampled@)),
        r matches Some(m) ==> (node_sample(entry_views_of(e@), entry_views_of(sampled@)) is Some
            && entry_views_of(m@) == merged(
            entry_views_of(e@),
            (node_sample(entry_views_of(e@), entry_views_of(sampled@))->0).1,
        )),
{
    match entries_get(e, "SensorId") {
        Some(Json::Str(id)) => {
            match entries_get(sampled, id.as_str()) {
                Some(Json::Object(so)) => {
                    if entries_get(so, "Children").is_some() {
                        let mut m = clone_entries(e);
                        merge_sample(&mut m, so);
                        Some(m)
                    } else {
                        None
                    }
                },
                _ => None,
            }
        },
        _ => None,
    }
}

/// The queries of the walk of `v`, appended to `out` in walk order.
fn collect_sample_queries(
    sampled: &Vec<(String, Json)>,
    v: &Json,
    out: &mut Vec<SampleQuery>,
    Ghost(fuel): Ghost<nat>,
)
    requires
        walk_ends(v@, entry_views_of(sampled@), fuel),
    ensures
        query_views(final(out)@) == query_views(old(out)@) + tree_queries(
            v@,
            entry_views_of(sampled@),
            fuel,
        ),
    decreases fuel, v, 1nat,
{
    let ghost start = query_views(out@);
    let ghost sv = entry_views_of(sampled@);
    match v {
        Json::Object(e) => {
            proof {
                lemma_entry_views_of(e@);
            }
            let ghost ev = entry_views_of(e@);
            match entries_get(e, "SensorId") {
                Some(Json::Str(id)) => {
                    match entries_get(sampled, id.as_str()) {
                        Some(Json::Object(so)) => {
                            let q = query_for(e, id, so);
                            out.push(q);
                        },
                        _ => {},
                    }
                },
                _ => {},
            }
            let ghost own = match node_sample(ev, sv) {
                Some((id, so)) => seq![query_of(ev, id, so)],
                None => Seq::empty(),
            };
            assert(query_views(out@) =~= start + own);
            let brought = brought_node(e, sampled);
            match brought {
                Some(m) => {
                    match entries_get(&m, "Children") {
                        Some(Json::Array(items)) => {
                            collect_item_queries(sampled, items, out, Ghost((fuel - 1) as nat));
                            assert(query_views(out@) =~= start + tree_queries(v@, sv, fuel));
                        },
                        _ => {
                            assert(query_views(out@) =~= start + tree_queries(v@, sv, fuel));
                        },
                    }
                },
                None => {
                    let c = key_position(e, "Children");
                    proof {
                        lemma_first_key(ev, "Children"@);
                    }
                    if c < e.len() {
                        assert(ev[c as int] == (e@[c as int].0@, e@[c as int].1@));
                        match &e[c].1 {
                            Json::Array(items) => {
                                proof {
                                    assert(decreases_to!(*v => v->Object_0));
                                    assert(decreases_to!(*e => e@));
                                    assert(decreases_to!(e@ => e@[c as int]));
                                    assert(decreases_to!(e@[c as int] => e@[c as int].1));
                                    assert(decreases_to!(e@[c as int].1 => (e@[c as int].1)->Array_0));
                                }
                                collect_item_queries(sampled, items, out, Ghost(fuel));
                                assert(query_views(out@) =~= start + tree_queries(v@, sv, fuel));
                            },
                            _ => {
                                assert(query_views(out@) =~= start + tree_queries(v@, sv, fuel));
                            },
                        }
                    } else {
                        assert(query_views(out@) =~= start + tree_queries(v@, sv, fuel));
                    }
                },
            }
        },
        Json::Array(items) => {
            proof {
                assert(decreases_to!(*v => v->Array_0));
            }
            collect_item_queries(sampled, items, out, Ghost(fuel));
        },
        _ => {
            assert(query_views(out@) =~= start + tree_queries(v@, sv, fuel));
        },
    }
}

proof fn lemma_items_end_at(s: Seq<JsonV>, sampled: Seq<(Seq<char>, JsonV)>, fuel: nat, i: int)
    requires
        items_end(s, sampled, fuel),
        0 <= i < s.len(),
    ensures
        walk_ends(s[i], sampled, fuel),
    decreases s.len(),
{
    if i < s.len() - 1 {
        lemma_items_end_at(s.subrange(0, s.len() - 1), sampled, fuel, i);
        assert(s.subrange(0, s.len() - 1)[i] == s[i]);
    }
}

fn collect_item_queries(
    sampled: &Vec<(String, Json)>,
    items: &Vec<Json>,
    out: &mut Vec<SampleQuery>,
    Ghost(fuel): Ghost<nat>,
)
    requires
        items_end(views_of(items@), entry_views_of(sampled@), fuel),
    ensures
        query_views(final(out)@) == query_views(old(out)@) + item_queries(
            views_of(items@),
            entry_views_of(sampled@),
            fuel,
        ),
    decreases fuel, items, 0nat,
{
    proof {
        lemma_views_of(items@);
    }
    let ghost iv = views_of(items@);
    let ghost sv = entry_views_of(sampled@);
    let ghost start = query_views(out@);
    let mut i: usize = 0;
    assert(iv.subrange(0, 0) =~= Seq::<JsonV>::empty());
    assert(query_views(out@) =~= start + item_queries(iv.subrange(0, 0), sv, fuel));
    while i < items.len()
        invariant
            i <= items@.len(),
            iv == views_of(items@),
            sv == entry_views_of(sampled@),
            iv.len() == items@.len(),
            forall|k: int| 0 <= k < items@.len() ==> #[trigger] iv[k] == items@[k]@,
            items_end(iv, sv, fuel),
            query_views(out@) == start + item_queries(iv.subrange(0, i as int), sv, fuel),
        decreases items@.len() - i,
    {
        proof {
            assert(decreases_to!(*items => items@));
            assert(decreases_to!(items@ => items@[i as int]));
            lemma_items_end_at(iv, sv, fuel, i as int);
        }
        collect_sample_queries(sampled, &items[i], out, Ghost(fuel));
        assert(iv.subrange(0, i + 1).subrange(0, i as int) =~= iv.subrange(0, i as int));
        assert(iv.subrange(0, i + 1)[i as int] == iv[i as int]);
        i = i + 1;
        assert(query_views(out@) =~= start + item_queries(iv.subrange(0, i as int), sv, fuel));
    }
    assert(iv.subrange(0, items@.len() as int) =~= iv);
}

/// The queries whose facts `apply_values_to_asset` takes.
pub fn sample_queries(sampled: &Vec<(String, Json)>, asset: &Json) -> (r: Vec<SampleQuery>)
    requires
        walk_finite(asset@, entry_views_of(sampled@)),
    ensures
        query_views(r@) == queries(asset@, entry_views_of(sampled@)),
{
    let ghost n = walk_fuel(asset@, entry_views_of(sampled@));
    let mut out: Vec<SampleQuery> = Vec::new();
    assert(query_views(out@) =~= Seq::<QueryView>::empty());
    collect_sample_queries(sampled, asset, &mut out, Ghost(n));
    assert(query_views(out@) =~= queries(asset@, entry_views_of(sampled@)));
    out
}

/// Whether the walk of `asset` ends within `fuel` nested descents into
/// children that samples brought.
pub fn walk_ends_within(sampled: &Vec<(String, Json)>, asset: &Json, fuel: usize) -> (r: bool)
    ensures
        r == walk_ends(asset@, entry_views_of(sampled@), fuel as nat),
    decreases fuel, asset, 1nat,
{
    let ghost sv = entry_views_of(sampled@);
    match asset {
        Json::Object(e) => {
            proof {
                lemma_entry_views_of(e@);
            }
            let ghost ev = entry_views_of(e@);
            let brought = brought_node(e, sampled);
            match brought {
                Some(m) => {
                    if fuel == 0 {
                        return false;
                    }
                    match entries_get(&m, "Children") {
                        Some(Json::Array(items)) => items_end_within(sampled, items, fuel - 1),
                        _ => true,
                    }
                },
                None => {
                    let c = key_position(e, "Children");
                    proof {
                        lemma_first_key(ev, "Children"@);
                    }
                    if c < e.len() {
                        assert(ev[c as int] == (e@[c as int].0@, e@[c as int].1@));
                        match &e[c].1 {
                            Json::Array(items) => {
                                proof {
                                    assert(decreases_to!(*asset => asset->Object_0));
                                    assert(decreases_to!(*e => e@));
                                    assert(decreases_to!(e@ => e@[c as int]));
                                    assert(decreases_to!(e@[c as int] => e@[c as int].1));
                                    assert(decreases_to!(e@[c as int].1 => (e@[c as int].1)->Array_0));
                                }
                                items_end_within(sampled, items, fuel)
                            },
                            _ => true,
                        }
                    } else {
                        true
                    }
                },
            }
        },
        Json::Array(items) => {
            proof {
                assert(decreases_to!(*asset => asset->Array_0));
            }
            items_end_within(sampled, items, fuel)
        },
        _ => true,
    }
}

fn items_end_within(sampled: &Vec<(String, Json)>, items: &Vec<Json>, fuel: usize) -> (r: bool)
    ensures
        r == items_end(views_of(items@), entry_views_of(sampled@), fuel as nat),
    decreases fuel, items, 0nat,
{
    proof {
        lemma_views_of(items@);
    }
    let ghost iv = views_of(items@);
    let ghost sv = entry_views_of(sampled@);
    let mut i: usize = 0;
    assert(iv.subrange(0, 0) =~= Seq::<JsonV>::empty());
    while i < items.len()
        invariant
            i <= items@.len(),
            iv == views_of(items@),
            sv == entry_views_of(sampled@),
            iv.len() == items@.len(),
            forall|k: int| 0 <= k < items@.len() ==> #[trigger] iv[k] == items@[k]@,
            items_end(iv.subrange(0, i as int), sv, fuel as nat),
        decreases items@.len() - i,
    {
        proof {
            assert(decreases_to!(*items => items@));
            assert(decreases_to!(items@ => items@[i as int]));
        }
        let ok = walk_ends_within(sampled, &items[i], fuel);
        assert(iv.subrange(0, i + 1).subrange(0, i as int) =~= iv.subrange(0, i as int));
        assert(iv.subrange(0, i + 1)[i as int] == iv[i as int]);
        if !ok {
            proof {
                if items_end(iv, sv, fuel as nat) {
                    lemma_items_end_at(iv, sv, fuel as nat, i as int);
                }
            }
            return false;
        }
        i = i + 1;
    }
    assert(iv.subrange(0, items@.len() as int) =~= iv);
    true
}

/// The node with the sample's members written over it, in the sample's
/// order.
pub open spec fn merged(e: Seq<(Seq<char>, JsonV)>, so: Seq<(Seq<char>, JsonV)>) -> Seq<
    (Seq<char>, JsonV),
>
    decreases so.len(),
{
    if so.len() == 0 {
        e
    } else {
        obj_insert(merged(e, so.drop_last()), so.last().0, so.last().1)
    }
}

/// A sensor node after its sample is applied: the sample's members are
/// written in, `Value` is replaced by the formatted reading when there is
/// one, and when the sample has a string value and raw value the minimum
/// and maximum are tracked: set to the reading the first time the sensor
/// is seen, then moved when a numeric reading goes below or above them.
pub open spec fn node_update(
    e: Seq<(Seq<char>, JsonV)>,
    so: Seq<(Seq<char>, JsonV)>,
    first: bool,
    f: FactsView,
) -> Seq<(Seq<char>, JsonV)> {
    let e1 = merged(e, so);
    let e2 = match f.formatted {
        Some(v) => obj_insert(e1, "Value"@, JsonV::Str(v)),
        None => e1,
    };
    match (str_member(so, "Value"@), str_member(so, "RawValue"@)) {
        (Some(v), Some(raw)) => {
            let disp = match f.formatted {
                Some(x) => x,
                None => v,
            };
            if first {
                obj_insert(
                    obj_insert(
                        obj_insert(obj_insert(e2, "Min"@, JsonV::Str(disp)), "Max"@, JsonV::Str(disp)),
                        "RawMin"@,
                        JsonV::Str(raw),
                    ),
                    "RawMax"@,
                    JsonV::Str(raw),
                )
            } else if f.formatted is Some {
                let a = if f.below_min {
                    obj_insert(obj_insert(e2, "Min"@, JsonV::Str(disp)), "RawMin"@, JsonV::Str(raw))
                } else {
                    e2
                };
                if f.above_max {
                    obj_insert(obj_insert(a, "Max"@, JsonV::Str(disp)), "RawMax"@, JsonV::Str(raw))
                } else {
                    a
                }
            } else {
                e2
            }
        },
        _ => e2,
    }
}

/// The sensors whose minimum and maximum have been set, after a sample.
pub open spec fn marked(init: Set<Seq<char>>, id: Seq<char>, so: Seq<(Seq<char>, JsonV)>) -> Set<
    Seq<char>,
> {
    if str_member(so, "Value"@) is Some && str_member(so, "RawValue"@) is Some {
        init.insert(id)
    } else {
        init
    }
}

pub struct Walk {
    pub tree: JsonV,
    pub init: Set<Seq<char>>,
    pub used: nat,
}

pub struct ItemsWalk {
    pub items: Seq<JsonV>,
    pub init: Set<Seq<char>>,
    pub used: nat,
}

/// Applying the samples to a tree, starting with the sensors in `init`
/// already seen and the facts before index `used` consumed: each sensor
/// node with an object sample is updated with the next facts, then the
/// `Children` of the updated node are walked, within `fuel` nested
/// descents into children that a sample brought.
pub open spec fn tree_applied(
    j: JsonV,
    sampled: Seq<(Seq<char>, JsonV)>,
    init: Set<Seq<char>>,
    facts: Seq<FactsView>,
    used: nat,
    fuel: nat,
) -> Walk
    decreases fuel, j,
{
    match j {
        JsonV::Object(e) => {
            let ns = node_sample(e, sampled);
            let e1 = match ns {
                Some((id, so)) => node_update(e, so, !init.contains(id), facts[used as int]),
                None => e,
            };
            let init1 = match ns {
                Some((id, so)) => marked(init, id, so),
                None => init,
            };
            let used1 = match ns {
                Some(_) => used + 1,
                None => used,
            };
            if takes_sample_children(e, sampled) {
                if fuel == 0 {
                    Walk { tree: JsonV::Object(e1), init: init1, used: used1 }
                } else {
                    match sample_kids(e, sampled) {
                        Some(s) => {
                            let w = item_applied(s, sampled, init1, facts, used1, (fuel - 1) as nat);
                            Walk {
                                tree: JsonV::Object(obj_insert(e1, "Children"@, JsonV::Array(w.items))),
                                init: w.init,
                                used: w.used,
                            }
                        },
                        None => Walk { tree: JsonV::Object(e1), init: init1, used: used1 },
                    }
                }
            } else {
                let c = first_key(e, "Children"@);
                if 0 <= c < e.len() {
                    match e[c].1 {
                        JsonV::Array(s) => {
                            let w = item_applied(s, sampled, init1, facts, used1, fuel);
                            Walk {
                                tree: JsonV::Object(obj_insert(e1, "Children"@, JsonV::Array(w.items))),
                                init: w.init,
                                used: w.used,
                            }
                        },
                        _ => Walk { tree: JsonV::Object(e1), init: init1, used: used1 },
                    }
                } else {
                    Walk { tree: JsonV::Object(e1), init: init1, used: used1 }
                }
            }
        },
        JsonV::Array(s) => {
            let w = item_applied(s, sampled, init, facts, used, fuel);
            Walk { tree: JsonV::Array(w.items), init: w.init, used: w.used }
        },
        _ => Walk { tree: j, init, used },
    }
}

pub open spec fn item_applied(
    s: Seq<JsonV>,
    sampled: Seq<(Seq<char>, JsonV)>,
    init: Set<Seq<char>>,
    facts: Seq<FactsView>,
    used: nat,
    fuel: nat,
) -> ItemsWalk
    decreases fuel, s,
{
    if s.len() == 0 {
        ItemsWalk { items: Seq::empty(), init, used }
    } else {
        let w = item_applied(s.subrange(0, s.len() - 1), sampled, init, facts, used, fuel);
        let x = tree_applied(s[s.len() - 1], sampled, w.init, facts, w.used, fuel);
        ItemsWalk { items: w.items.push(x.tree), init: x.init, used: x.used }
    }
}

/// Applying the samples to a tree whose walk ends.
pub open spec fn applied(
    j: JsonV,
    sampled: Seq<(Seq<char>, JsonV)>,
    init: Set<Seq<char>>,
    facts: Seq<FactsView>,
    used: nat,
) -> Walk {
    tree_applied(j, sampled, init, facts, used, walk_fuel(j, sampled))
}

/// The walk consumes one facts entry per query.
pub proof fn lemma_applied_used(
    j: JsonV,
    sampled: Seq<(Seq<char>, JsonV)>,
    init: Set<Seq<char>>,
    facts: Seq<FactsView>,
    used: nat,
    fuel: nat,
)
    ensures
        tree_applied(j, sampled, init, facts, used, fuel).used == used + tree_queries(
            j,
            sampled,
            fuel,
        ).len(),
    decreases fuel, j,
{
    match j {
        JsonV::Object(e) => {
            let ns = node_sample(e, sampled);
            let init1 = match ns {
                Some((id, so)) => marked(init, id, so),
                None => init,
            };
            let used1 = match ns {
                Some(_) => used + 1,
                None => used,
            };
            if takes_sample_children(e, sampled) {
                if fuel > 0 {
                    match sample_kids(e, sampled) {
                        Some(s) => lemma_item_applied_used(
                            s,
                            sampled,
                            init1,
                            facts,
                            used1,
                            (fuel - 1) as nat,
                        ),
                        None => {},
                    }
                }
            } else {
                let c = first_key(e, "Children"@);
                if 0 <= c < e.len() {
                    match e[c].1 {
                        JsonV::Array(s) => lemma_item_applied_used(s, sampled, init1, facts, used1, fuel),
                        _ => {},
                    }
                }
            }
        },
        JsonV::Array(s) => lemma_item_applied_used(s, sampled, init, facts, used, fuel),
        _ => {},
    }
}

pub proof fn lemma_item_applied_used(
    s: Seq<JsonV>,
    sampled: Seq<(Seq<char>, JsonV)>,
    init: Set<Seq<char>>,
    facts: Seq<FactsView>,
    used: nat,
    fuel: nat,
)
    ensures
        item_applied(s, sampled, init, facts, used, fuel).used == used + item_queries(
            s,
            sampled,
            fuel,
        ).len(),
    decreases fuel, s,
{
    if s.len() > 0 {
        lemma_item_applied_used(s.subrange(0, s.len() - 1), sampled, init, facts, used, fuel);
        let w = item_applied(s.subrange(0, s.len() - 1), sampled, init, facts, used, fuel);
        lemma_applied_used(s[s.len() - 1], sampled, w.init, facts, w.used, fuel);
    }
}

fn merge_sample(node: &mut Vec<(String, Json)>, so: &Vec<(String, Json)>)
    ensures
        entry_views_of(final(node)@) == merged(entry_views_of(old(node)@), entry_views_of(so@)),
{
    proof {
        lemma_entry_views_of(so@);
    }
    let ghost sov = entry_views_of(so@);
    let ghost start = entry_views_of(node@);
    let mut i: usize = 0;
    assert(sov.take(0) =~= Seq::<(Seq<char>, JsonV)>::empty());
    while i < so.len()
        invariant
            i <= so@.len(),
            sov == entry_views_of(so@),
            sov.len() == so@.len(),
            forall|k: int| 0 <= k < so@.len() ==> #[trigger] sov[k] == (so@[k].0@, so@[k].1@),
            entry_views_of(node@) == merged(start, sov.take(i as int)),
        decreases so@.len() - i,
    {
        assert(sov.take(i + 1).drop_last() =~= sov.take(i as int));
        assert(sov.take(i + 1).last() == sov[i as int]);
        let k = so[i].0.clone();
        let v = deep_clone(&so[i].1);
        object_insert(node, k, v);
        i = i + 1;
    }
    assert(sov.take(so@.len() as int) =~= sov);
}

fn insert_owned(node: &mut Vec<(String, Json)>, k: &str, v: &String)
    ensures
        entry_views_of(final(node)@) == obj_insert(entry_views_of(old(node)@), k@, JsonV::Str(v@)),
{
    object_insert_str(node, k, v.as_str());
}

/// Applies one sample to a sensor node; `first` tells whether the sensor's
/// minimum and maximum have not been set yet.
pub fn apply_sample_to_node(
    node: &mut Vec<(String, Json)>,
    so: &Vec<(String, Json)>,
    first: bool,
    facts: &SampleFacts,
)
    ensures
        entry_views_of(final(node)@) == node_update(
            entry_views_of(old(node)@),
            entry_views_of(so@),
            first,
            facts@,
        ),
{
    let current_value = opt_str_member(so, "Value");
    let current_raw = opt_str_member(so, "RawValue");
    merge_sample(node, so);
    match &facts.formatted {
        Some(f) => insert_owned(node, "Value", f),
        None => {},
    }
    match (&current_value, &current_raw) {
        (Some(v), Some(raw)) => {
            let disp = match &facts.formatted {
                Some(f) => f,
                None => v,
            };
            if first {
                insert_owned(node, "Min", disp);
                insert_owned(node, "Max", disp);
                insert_owned(node, "RawMin", raw);
                insert_owned(node, "RawMax", raw);
            } else if facts.formatted.is_some() {
                if facts.below_min {
                    insert_owned(node, "Min", disp);
                    insert_owned(node, "RawMin", raw);
                }
                if facts.above_max {
                    insert_owned(node, "Max", disp);
                    insert_owned(node, "RawMax", raw);
                }
            }
        },
        _ => {},
    }
}

fn contains_string(v: &Vec<String>, s: &String) -> (r: bool)
    ensures
        r == v.deep_view().contains(s@),
{
    let sc = chars_of(s.as_str());
    let mut i: usize = 0;
    while i < v.len()
        invariant
            i <= v@.len(),
            sc@ == s@,
            forall|k: int| 0 <= k < i ==> v.deep_view()[k] != s@,
        decreases v@.len() - i,
    {
        let vc = chars_of(v[i].as_str());
        if chars_eq(vc.as_slice(), sc.as_slice()) {
            assert(v.deep_view()[i as int] == s@);
            return true;
        }
        i = i + 1;
    }
    false
}

/// The set of sensor ids a list holds.
pub open spec fn id_set(v: Seq<Seq<char>>) -> Set<Seq<char>> {
    v.to_set()
}

/// A member the sample lacks keeps the node's value through the merge.
proof fn lemma_merged_absent(e: Seq<(Seq<char>, JsonV)>, so: Seq<(Seq<char>, JsonV)>, k: Seq<char>)
    requires
        lookup(so, k) is None,
    ensures
        lookup(merged(e, so), k) == lookup(e, k),
    decreases so.len(),
{
    if so.len() > 0 {
        let init = so.drop_last();
        lemma_lookup_index(so, k);
        lemma_lookup_index(init, k);
        if exists|i: int| 0 <= i < init.len() && #[trigger] init[i].0 == k {
            let i = choose|i: int| 0 <= i < init.len() && #[trigger] init[i].0 == k;
            assert(so[i].0 == k);
        }
        assert(so[so.len() - 1].0 != k);
        lemma_merged_absent(e, init, k);
        lemma_obj_insert(merged(e, init), so.last().0, so.last().1);
    }
}

/// The walk goes on into the `Children` of a sensor node once its sample
/// is written in: the reading only touches the six value fields, so these
/// are the sample's `Children` when it brings them, else the node's own.
pub proof fn lemma_node_update_children(
    e: Seq<(Seq<char>, JsonV)>,
    so: Seq<(Seq<char>, JsonV)>,
    first: bool,
    f: FactsView,
)
    ensures
        lookup(node_update(e, so, first, f), "Children"@) == lookup(merged(e, so), "Children"@),
        lookup(so, "Children"@) is None ==> lookup(node_update(e, so, first, f), "Children"@)
            == lookup(e, "Children"@),
{
    if lookup(so, "Children"@) is None {
        lemma_merged_absent(e, so, "Children"@);
    }
    reveal_strlit("Children");
    reveal_strlit("Value");
    reveal_strlit("Min");
    reveal_strlit("Max");
    reveal_strlit("RawMin");
    reveal_strlit("RawMax");
    let k = "Children"@;
    let e1 = merged(e, so);
    let e2 = match f.formatted {
        Some(v) => obj_insert(e1, "Value"@, JsonV::Str(v)),
        None => e1,
    };
    if let Some(v) = f.formatted {
        lemma_obj_insert(e1, "Value"@, JsonV::Str(v));
    }
    assert(lookup(e2, k) == lookup(e1, k));
    match (str_member(so, "Value"@), str_member(so, "RawValue"@)) {
        (Some(v), Some(raw)) => {
            let disp = match f.formatted {
                Some(x) => x,
                None => v,
            };
            let a1 = obj_insert(e2, "Min"@, JsonV::Str(disp));
            let a2 = obj_insert(a1, "Max"@, JsonV::Str(disp));
            let a3 = obj_insert(a2, "RawMin"@, JsonV::Str(raw));
            lemma_obj_insert(e2, "Min"@, JsonV::Str(disp));
            lemma_obj_insert(a1, "Max"@, JsonV::Str(disp));
            lemma_obj_insert(a2, "RawMin"@, JsonV::Str(raw));
            lemma_obj_insert(a3, "RawMax"@, JsonV::Str(raw));
            let b1 = obj_insert(e2, "Min"@, JsonV::Str(disp));
            let b2 = obj_insert(b1, "RawMin"@, JsonV::Str(raw));
            lemma_obj_insert(b1, "RawMin"@, JsonV::Str(raw));
            assert(lookup(a3, k) == lookup(e1, k));
            assert(k.len() != "RawMax"@.len());
            assert(lookup(obj_insert(a3, "RawMax"@, JsonV::Str(raw)), k) == lookup(e1, k));
            assert(lookup(b2, k) == lookup(e1, k));
            let a = if f.below_min {
                b2
            } else {
                e2
            };
            let c1 = obj_insert(a, "Max"@, JsonV::Str(disp));
            lemma_obj_insert(a, "Max"@, JsonV::Str(disp));
            lemma_obj_insert(c1, "RawMax"@, JsonV::Str(raw));
            assert(lookup(obj_insert(c1, "RawMax"@, JsonV::Str(raw)), k) == lookup(a, k));
            assert(lookup(c1, k) == lookup(a, k));
        },
        _ => {},
    }
}

fn applied_tree(
    j: &Json,
    sampled: &Vec<(String, Json)>,
    init: &mut Vec<String>,
    facts: &Vec<SampleFacts>,
    used: &mut usize,
    Ghost(fuel): Ghost<nat>,
) -> (r: Json)
    requires
        walk_ends(j@, entry_views_of(sampled@), fuel),
        *old(used) + tree_queries(j@, entry_views_of(sampled@), fuel).len() <= facts@.len(),
    ensures
        r@ == tree_applied(
            j@,
            entry_views_of(sampled@),
            id_set(old(init).deep_view()),
            facts_views(facts@),
            *old(used) as nat,
            fuel,
        ).tree,
        id_set(final(init).deep_view()) == tree_applied(
            j@,
            entry_views_of(sampled@),
            id_set(old(init).deep_view()),
            facts_views(facts@),
            *old(used) as nat,
            fuel,
        ).init,
        *final(used) == tree_applied(
            j@,
            entry_views_of(sampled@),
            id_set(old(init).deep_view()),
            facts_views(facts@),
            *old(used) as nat,
            fuel,
        ).used,
    decreases fuel, j, 1nat,
{
    let ghost sv = entry_views_of(sampled@);
    let ghost fv = facts_views(facts@);
    let ghost init0 = id_set(init.deep_view());
    let ghost used0 = *used as nat;
    proof {
        lemma_applied_used(j@, sv, init0, fv, used0, fuel);
    }
    match j {
        Json::Object(e) => {
            proof {
                lemma_entry_views_of(e@);
            }
            let ghost ev = entry_views_of(e@);
            let mut node = clone_entries(e);
            match entries_get(e, "SensorId") {
                Some(Json::Str(id)) => {
                    match entries_get(sampled, id.as_str()) {
                        Some(Json::Object(so)) => {
                            let first = !contains_string(init, id);
                            assert(tree_queries(j@, sv, fuel).len() >= 1);
                            let k = *used;
                            let n = facts.len();
                            assert(k < n);
                            assert(fv[k as int] == facts@[k as int]@);
                            apply_sample_to_node(&mut node, so, first, &facts[k]);
                            proof {
                                lemma_node_update_children(ev, entry_views_of(so@), first, fv[k as int]);
                            }
                            let has_value = opt_str_member(so, "Value").is_some();
                            let has_raw = opt_str_member(so, "RawValue").is_some();
                            if has_value && has_raw && first {
                                let ghost before = init.deep_view();
                                init.push(id.clone());
                                assert(init.deep_view() =~= before.push(id@));
                                proof {
                                    before.lemma_push_to_set_commute(id@);
                                }
                            } else if has_value && has_raw {
                                assert(id_set(init.deep_view()) =~= init0.insert(id@));
                            }
                            *used = k + 1;
                        },
                        _ => {},
                    }
                },
                _ => {},
            }
            let brings = brought_node(e, sampled).is_some();
            if brings {
                let kids: Option<Vec<Json>> = match entries_get(&node, "Children") {
                    Some(Json::Array(items)) => Some(
                        applied_items(items, sampled, init, facts, used, Ghost((fuel - 1) as nat)),
                    ),
                    _ => None,
                };
                match kids {
                    Some(children) => {
                        let key = string_of(chars_of("Children").as_slice());
                        object_insert(&mut node, key, Json::Array(children));
                    },
                    None => {},
                }
            } else {
                let c = key_position(e, "Children");
                proof {
                    lemma_first_key(ev, "Children"@);
                }
                if c < e.len() {
                    assert(ev[c as int] == (e@[c as int].0@, e@[c as int].1@));
                    match &e[c].1 {
                        Json::Array(items) => {
                            proof {
                                assert(decreases_to!(*j => j->Object_0));
                                assert(decreases_to!(*e => e@));
                                assert(decreases_to!(e@ => e@[c as int]));
                                assert(decreases_to!(e@[c as int] => e@[c as int].1));
                                assert(decreases_to!(e@[c as int].1 => (e@[c as int].1)->Array_0));
                            }
                            let children = applied_items(items, sampled, init, facts, used, Ghost(fuel));
                            let key = string_of(chars_of("Children").as_slice());
                            object_insert(&mut node, key, Json::Array(children));
                        },
                        _ => {},
                    }
                }
            }
            Json::Object(node)
        },
        Json::Array(items) => {
            proof {
                assert(decreases_to!(*j => j->Array_0));
            }
            Json::Array(applied_items(items, sampled, init, facts, used, Ghost(fuel)))
        },
        _ => deep_clone(j),
    }
}

fn applied_items(
    items: &Vec<Json>,
    sampled: &Vec<(String, Json)>,
    init: &mut Vec<String>,
    facts: &Vec<SampleFacts>,
    used: &mut usize,
    Ghost(fuel): Ghost<nat>,
) -> (r: Vec<Json>)
    requires
        items_end(views_of(items@), entry_views_of(sampled@), fuel),
        *old(used) + item_queries(views_of(items@), entry_views_of(sampled@), fuel).len()
            <= facts@.len(),
    ensures
        views_of(r@) == item_applied(
            views_of(items@),
            entry_views_of(sampled@),
            id_set(old(init).deep_view()),
            facts_views(facts@),
            *old(used) as nat,
            fuel,
        ).items,
        id_set(final(init).deep_view()) == item_applied(
            views_of(items@),
            entry_views_of(sampled@),
            id_set(old(init).deep_view()),
            facts_views(facts@),
            *old(used) as nat,
            fuel,
        ).init,
        *final(used) == item_applied(
            views_of(items@),
            entry_views_of(sampled@),
            id_set(old(init).deep_view()),
            facts_views(facts@),
            *old(used) as nat,
            fuel,
        ).used,
    decreases fuel, items, 0nat,
{
    proof {
        lemma_views_of(items@);
    }
    let ghost iv = views_of(items@);
    let ghost sv = entry_views_of(sampled@);
    let ghost fv = facts_views(facts@);
    let ghost init0 = id_set(init.deep_view());
    let ghost used0 = *used as nat;
    let mut out: Vec<Json> = Vec::new();
    let mut i: usize = 0;
    assert(iv.subrange(0, 0) =~= Seq::<JsonV>::empty());
    assert(views_of(out@) =~= item_applied(iv.subrange(0, 0), sv, init0, fv, used0, fuel).items);
    while i < items.len()
        invariant
            i <= items@.len(),
            iv == views_of(items@),
            sv == entry_views_of(sampled@),
            fv == facts_views(facts@),
            iv.len() == items@.len(),
            forall|k: int| 0 <= k < items@.len() ==> #[trigger] iv[k] == items@[k]@,
            items_end(iv, sv, fuel),
            used0 + item_queries(iv, sv, fuel).len() <= facts@.len(),
            views_of(out@) == item_applied(iv.subrange(0, i as int), sv, init0, fv, used0, fuel).items,
            id_set(init.deep_view()) == item_applied(
                iv.subrange(0, i as int),
                sv,
                init0,
                fv,
                used0,
                fuel,
            ).init,
            *used == item_applied(iv.subrange(0, i as int), sv, init0, fv, used0, fuel).used,
        decreases items@.len() - i,
    {
        proof {
            assert(decreases_to!(*items => items@));
            assert(decreases_to!(items@ => items@[i as int]));
            lemma_item_applied_used(iv.subrange(0, i as int), sv, init0, fv, used0, fuel);
            lemma_item_queries_prefix(iv, sv, fuel, i as int);
            lemma_items_end_at(iv, sv, fuel, i as int);
        }
        let c = applied_tree(&items[i], sampled, init, facts, used, Ghost(fuel));
        let ghost old_out = out@;
        out.push(c);
        assert(out@.subrange(0, out@.len() - 1) =~= old_out);
        assert(iv.subrange(0, i + 1).subrange(0, i as int) =~= iv.subrange(0, i as int));
        assert(iv.subrange(0, i + 1)[i as int] == iv[i as int]);
        i = i + 1;
    }
    assert(iv.subrange(0, items@.len() as int) =~= iv);
    out
}

proof fn lemma_item_queries_prefix(
    s: Seq<JsonV>,
    sampled: Seq<(Seq<char>, JsonV)>,
    fuel: nat,
    i: int,
)
    requires
        0 <= i < s.len(),
    ensures
        item_queries(s.subrange(0, i), sampled, fuel).len() + tree_queries(s[i], sampled, fuel).len()
            <= item_queries(s, sampled, fuel).len(),
    decreases s.len(),
{
    if i < s.len() - 1 {
        lemma_item_queries_prefix(s.subrange(0, s.len() - 1), sampled, fuel, i);
        assert(s.subrange(0, s.len() - 1).subrange(0, i) =~= s.subrange(0, i));
        assert(s.subrange(0, s.len() - 1)[i] == s[i]);
    }
}

/// Writes the sampled values into the tree: every sensor node whose id
/// has an object sample takes the sample's members, its formatted value,
/// and updated minimum and maximum, and the walk goes on into the
/// `Children` the node then has.  `facts` holds, in order, the facts for
/// each query of `sample_queries(sampled, asset)`; the ids whose minimum
/// and maximum are set are kept in `initialized_min_max`.
pub fn apply_values_to_asset(
    sampled: &Vec<(String, Json)>,
    asset: &mut Json,
    initialized_min_max: &mut Vec<String>,
    facts: &Vec<SampleFacts>,
)
    requires
        walk_finite(old(asset)@, entry_views_of(sampled@)),
        facts@.len() == queries(old(asset)@, entry_views_of(sampled@)).len(),
    ensures
        final(asset)@ == applied(
            old(asset)@,
            entry_views_of(sampled@),
            id_set(old(initialized_min_max).deep_view()),
            facts_views(facts@),
            0,
        ).tree,
        id_set(final(initialized_min_max).deep_view()) == applied(
            old(asset)@,
            entry_views_of(sampled@),
            id_set(old(initialized_min_max).deep_view()),
            facts_views(facts@),
            0,
        ).init,
{
    let ghost n = walk_fuel(asset@, entry_views_of(sampled@));
    let mut used: usize = 0;
    let r = applied_tree(asset, sampled, initialized_min_max, facts, &mut used, Ghost(n));
    *asset = r;
}

// ---------------------------------------------------------------------------
// Laws
// ---------------------------------------------------------------------------

/// A node the samples leave alone keeps every member but `Children`, whose
/// items are walked in turn, and the ids whose minimum and maximum are set
/// stay as they were at the node.
pub proof fn lemma_untouched_node(
    e: Seq<(Seq<char>, JsonV)>,
    sampled: Seq<(Seq<char>, JsonV)>,
    init: Set<Seq<char>>,
    facts: Seq<FactsView>,
    used: nat,
    fuel: nat,
    k: Seq<char>,
)
    requires
        node_sample(e, sampled) is None,
        k != "Children"@,
    ensures
        tree_applied(JsonV::Object(e), sampled, init, facts, used, fuel).tree is Object,
        lookup(tree_applied(JsonV::Object(e), sampled, init, facts, used, fuel).tree->Object_0, k)
            == lookup(e, k),
{
    let c = first_key(e, "Children"@);
    if 0 <= c < e.len() {
        match e[c].1 {
            JsonV::Array(s) => {
                let w = item_applied(s, sampled, init, facts, used, fuel);
                lemma_obj_insert(e, "Children"@, JsonV::Array(w.items));
            },
            _ => {},
        }
    }
}

/// The walk keeps every array at its length: items are updated in place,
/// none added or removed.
pub proof fn lemma_items_kept(
    s: Seq<JsonV>,
    sampled: Seq<(Seq<char>, JsonV)>,
    init: Set<Seq<char>>,
    facts: Seq<FactsView>,
    used: nat,
    fuel: nat,
)
    ensures
        item_applied(s, sampled, init, facts, used, fuel).items.len() == s.len(),
    decreases s.len(),
{
    if s.len() > 0 {
        lemma_items_kept(s.subrange(0, s.len() - 1), sampled, init, facts, used, fuel);
    }
}

/// No sample carries a `Children` member, as the sampler's readings do not.
pub open spec fn samples_without_children(sampled: Seq<(Seq<char>, JsonV)>) -> bool {
    forall|i: int|
        0 <= i < sampled.len() ==> (#[trigger] sampled[i].1).get("Children"@) is None
}

/// The ids of the sensors whose minimum and maximum the walk of `j` sets:
/// each sensor node whose object sample has a string `Value` and
/// `RawValue`, the node's own children walked below it.
pub open spec fn walk_marks(j: JsonV, sampled: Seq<(Seq<char>, JsonV)>) -> Set<Seq<char>>
    decreases j,
{
    match j {
        JsonV::Object(e) => {
            let own = match node_sample(e, sampled) {
                Some((id, so)) => marked(Set::empty(), id, so),
                None => Set::empty(),
            };
            let c = first_key(e, "Children"@);
            own + if 0 <= c < e.len() {
                match e[c].1 {
                    JsonV::Array(s) => item_marks(s, sampled),
                    _ => Set::empty(),
                }
            } else {
                Set::empty()
            }
        },
        JsonV::Array(s) => item_marks(s, sampled),
        _ => Set::empty(),
    }
}

pub open spec fn item_marks(s: Seq<JsonV>, sampled: Seq<(Seq<char>, JsonV)>) -> Set<Seq<char>>
    decreases s,
{
    if s.len() == 0 {
        Set::empty()
    } else {
        item_marks(s.subrange(0, s.len() - 1), sampled) + walk_marks(s[s.len() - 1], sampled)
    }
}

/// `r` is `j` after the walk, node for node: every object stays an object,
/// every node without a sample keeps each member but `Children`, every
/// `Children` array and every other array keeps its length with each item
/// kept in turn, and every other value is unchanged.
pub open spec fn kept(j: JsonV, r: JsonV, sampled: Seq<(Seq<char>, JsonV)>) -> bool
    decreases j,
{
    match j {
        JsonV::Object(e) => match r {
            JsonV::Object(f) => {
                let c = first_key(e, "Children"@);
                &&& node_sample(e, sampled) is None ==> forall|k: Seq<char>|
                    k != "Children"@ ==> #[trigger] lookup(f, k) == lookup(e, k)
                &&& if 0 <= c < e.len() {
                    match e[c].1 {
                        JsonV::Array(s) => match lookup(f, "Children"@) {
                            Some(JsonV::Array(t)) => items_kept(s, t, sampled),
                            _ => false,
                        },
                        _ => true,
                    }
                } else {
                    true
                }
            },
            _ => false,
        },
        JsonV::Array(s) => match r {
            JsonV::Array(t) => items_kept(s, t, sampled),
            _ => false,
        },
        _ => r == j,
    }
}

pub open spec fn items_kept(s: Seq<JsonV>, t: Seq<JsonV>, sampled: Seq<(Seq<char>, JsonV)>) -> bool
    decreases s,
{
    &&& s.len() == t.len()
    &&& s.len() > 0 ==> items_kept(s.subrange(0, s.len() - 1), t.subrange(0, t.len() - 1), sampled)
        && kept(s[s.len() - 1], t[t.len() - 1], sampled)
}

proof fn lemma_no_sample_children(e: Seq<(Seq<char>, JsonV)>, sampled: Seq<(Seq<char>, JsonV)>)
    requires
        samples_without_children(sampled),
    ensures
        !takes_sample_children(e, sampled),
{
    if let Some((id, so)) = node_sample(e, sampled) {
        lemma_lookup_index(sampled, id);
        let i = choose|i: int|
            0 <= i < sampled.len() && #[trigger] sampled[i].0 == id && sampled[i].1 == JsonV::Object(so)
                && forall|j: int| 0 <= j < i ==> sampled[j].0 != id;
        assert(sampled[i].1.get("Children"@) is None);
    }
}

proof fn lemma_walk_ends_plain(j: JsonV, sampled: Seq<(Seq<char>, JsonV)>)
    requires
        samples_without_children(sampled),
    ensures
        walk_ends(j, sampled, 0),
    decreases j,
{
    match j {
        JsonV::Object(e) => {
            lemma_no_sample_children(e, sampled);
            let c = first_key(e, "Children"@);
            if 0 <= c < e.len() {
                match e[c].1 {
                    JsonV::Array(s) => lemma_items_end_plain(s, sampled),
                    _ => {},
                }
            }
        },
        JsonV::Array(s) => lemma_items_end_plain(s, sampled),
        _ => {},
    }
}

proof fn lemma_items_end_plain(s: Seq<JsonV>, sampled: Seq<(Seq<char>, JsonV)>)
    requires
        samples_without_children(sampled),
    ensures
        items_end(s, sampled, 0),
    decreases s,
{
    if s.len() > 0 {
        lemma_items_end_plain(s.subrange(0, s.len() - 1), sampled);
        lemma_walk_ends_plain(s[s.len() - 1], sampled);
    }
}

proof fn lemma_tree_kept(
    j: JsonV,
    sampled: Seq<(Seq<char>, JsonV)>,
    init: Set<Seq<char>>,
    facts: Seq<FactsView>,
    used: nat,
    fuel: nat,
)
    requires
        samples_without_children(sampled),
    ensures
        kept(j, tree_applied(j, sampled, init, facts, used, fuel).tree, sampled),
        tree_applied(j, sampled, init, facts, used, fuel).init == init + walk_marks(j, sampled),
    decreases j,
{
    match j {
        JsonV::Object(e) => {
            lemma_no_sample_children(e, sampled);
            let ns = node_sample(e, sampled);
            let e1 = match ns {
                Some((id, so)) => node_update(e, so, !init.contains(id), facts[used as int]),
                None => e,
            };
            let init1 = match ns {
                Some((id, so)) => marked(init, id, so),
                None => init,
            };
            let used1 = match ns {
                Some(_) => used + 1,
                None => used,
            };
            let own = match ns {
                Some((id, so)) => marked(Set::empty(), id, so),
                None => Set::empty(),
            };
            assert(init1 =~= init + own);
            let c = first_key(e, "Children"@);
            if 0 <= c < e.len() {
                match e[c].1 {
                    JsonV::Array(s) => {
                        lemma_items_tree_kept(s, sampled, init1, facts, used1, fuel);
                        let w = item_applied(s, sampled, init1, facts, used1, fuel);
                        lemma_obj_insert(e1, "Children"@, JsonV::Array(w.items));
                        assert(w.init =~= init + walk_marks(j, sampled));
                    },
                    _ => {
                        assert(init1 =~= init + walk_marks(j, sampled));
                    },
                }
            } else {
                assert(init1 =~= init + walk_marks(j, sampled));
            }
        },
        JsonV::Array(s) => {
            lemma_items_tree_kept(s, sampled, init, facts, used, fuel);
        },
        _ => {
            assert(init =~= init + walk_marks(j, sampled));
        },
    }
}

proof fn lemma_items_tree_kept(
    s: Seq<JsonV>,
    sampled: Seq<(Seq<char>, JsonV)>,
    init: Set<Seq<char>>,
    facts: Seq<FactsView>,
    used: nat,
    fuel: nat,
)
    requires
        samples_without_children(sampled),
    ensures
        items_kept(s, item_applied(s, sampled, init, facts, used, fuel).items, sampled),
        item_applied(s, sampled, init, facts, used, fuel).init == init + item_marks(s, sampled),
    decreases s,
{
    if s.len() == 0 {
        assert(init =~= init + item_marks(s, sampled));
    } else {
        let p = s.subrange(0, s.len() - 1);
        lemma_items_tree_kept(p, sampled, init, facts, used, fuel);
        let w = item_applied(p, sampled, init, facts, used, fuel);
        lemma_tree_kept(s[s.len() - 1], sampled, w.init, facts, w.used, fuel);
        let x = tree_applied(s[s.len() - 1], sampled, w.init, facts, w.used, fuel);
        let items = w.items.push(x.tree);
        assert(items.subrange(0, items.len() - 1) =~= w.items);
        assert(x.init =~= init + item_marks(s, sampled));
    }
}

/// Applying samples that carry no `Children` of their own leaves the tree
/// as it was except at the sampled sensors: the walk ends, every node
/// without a sample keeps each member but `Children`, every array keeps its
/// length (`kept`), and the ids whose minimum and maximum are set grow by
/// exactly the sampled sensors with a string `Value` and `RawValue`.
pub proof fn lemma_apply_keeps_untouched(
    j: JsonV,
    sampled: Seq<(Seq<char>, JsonV)>,
    init: Set<Seq<char>>,
    facts: Seq<FactsView>,
)
    requires
        samples_without_children(sampled),
    ensures
        walk_finite(j, sampled),
        kept(j, applied(j, sampled, init, facts, 0).tree, sampled),
        applied(j, sampled, init, facts, 0).init == init + walk_marks(j, sampled),
{
    lemma_walk_ends_plain(j, sampled);
    assert(walk_ends(j, sampled, 0));
    lemma_tree_kept(j, sampled, init, facts, 0, walk_fuel(j, sampled));
}

/// The six fields a sensor without a live value shows as `-`.
pub open spec fn is_value_field(k: Seq<char>) -> bool {
    k == "Value"@ || k == "RawValue"@ || k == "Min"@ || k == "Max"@ || k == "RawMin"@ || k
        == "RawMax"@
}

/// A sensor node after clearing: without a sampled value its six value
/// fields read `-`; every other member, and every member of a sampled
/// sensor, is kept.
pub proof fn lemma_cleared_node(
    e: Seq<(Seq<char>, JsonV)>,
    sampled: Seq<(Seq<char>, JsonV)>,
    k: Seq<char>,
)
    requires
        k != "Children"@,
    ensures
        cleared(JsonV::Object(e), sampled) is Object,
        lookup(cleared(JsonV::Object(e), sampled)->Object_0, k) == if is_stale(e, sampled)
            && is_value_field(k) {
            Some(JsonV::Str("-"@))
        } else {
            lookup(e, k)
        },
{
    let d = JsonV::Str("-"@);
    let e1 = obj_insert(e, "Value"@, d);
    let e2 = obj_insert(e1, "RawValue"@, d);
    let e3 = obj_insert(e2, "Min"@, d);
    let e4 = obj_insert(e3, "Max"@, d);
    let e5 = obj_insert(e4, "RawMin"@, d);
    lemma_obj_insert(e, "Value"@, d);
    lemma_obj_insert(e1, "RawValue"@, d);
    lemma_obj_insert(e2, "Min"@, d);
    lemma_obj_insert(e3, "Max"@, d);
    lemma_obj_insert(e4, "RawMin"@, d);
    lemma_obj_insert(e5, "RawMax"@, d);
    let n = if is_stale(e, sampled) {
        unavailable(e)
    } else {
        e
    };
    let c = first_key(e, "Children"@);
    if 0 <= c < e.len() {
        match e[c].1 {
            JsonV::Array(s) => {
                lemma_obj_insert(n, "Children"@, JsonV::Array(item_cleared(s, sampled)));
            },
            _ => {},
        }
    }
}

proof fn lemma_lookup_push(s: Seq<(Seq<char>, JsonV)>, x: (Seq<char>, JsonV), k: Seq<char>)
    requires
        x.0 != k,
    ensures
        lookup(s.push(x), k) == lookup(s, k),
    decreases s.len(),
{
    let p = s.push(x);
    if s.len() > 0 {
        assert(p[0] == s[0]);
        assert(p.drop_first() =~= s.drop_first().push(x));
        lemma_lookup_push(s.drop_first(), x, k);
        if s[0].0 != k {
            assert(lookup(p, k) == lookup(p.drop_first(), k));
            assert(lookup(s, k) == lookup(s.drop_first(), k));
        }
    } else {
        assert(p[0] == x);
        assert(p.drop_first() =~= s);
        assert(lookup(p, k) == lookup(p.drop_first(), k));
    }
}

/// With distinct keys in the sample, the merged node reads the sample's
/// member where the sample has one and the node's elsewhere.
pub proof fn lemma_merged(e: Seq<(Seq<char>, JsonV)>, so: Seq<(Seq<char>, JsonV)>, k: Seq<char>)
    requires
        crate::json::keys_sorted(so),
    ensures
        lookup(merged(e, so), k) == match lookup(so, k) {
            Some(v) => Some(v),
            None => lookup(e, k),
        },
    decreases so.len(),
{
    if so.len() > 0 {
        let init = so.drop_last();
        let last = so.last();
        assert(crate::json::keys_sorted(init)) by {
            assert forall|i: int, j: int| 0 <= i < j < init.len() implies crate::json::seq_lt(
                #[trigger] init[i].0,
                #[trigger] init[j].0,
            ) by {
                assert(init[i] == so[i] && init[j] == so[j]);
            }
        }
        lemma_merged(e, init, k);
        lemma_obj_insert(merged(e, init), last.0, last.1);
        assert(so =~= init.push(last));
        if last.0 == k {
            crate::schema::lemma_sorted_lookup(so, so.len() - 1);
        } else {
            lemma_lookup_push(init, last, k);
        }
    }
}

/// A sensor node takes every member of its sample, except the value
/// fields the reading decides: `Value` becomes the formatted reading when
/// there is one, and on the first sighting of a sensor with a value and a
/// raw value its minimum and maximum start at the reading.
#[verifier::spinoff_prover]
#[verifier::rlimit(30)]
pub proof fn lemma_node_update(
    e: Seq<(Seq<char>, JsonV)>,
    so: Seq<(Seq<char>, JsonV)>,
    first: bool,
    f: FactsView,
    k: Seq<char>,
)
    requires
        crate::json::keys_sorted(so),
    ensures
        !is_value_field(k) ==> lookup(node_update(e, so, first, f), k) == match lookup(so, k) {
            Some(v) => Some(v),
            None => lookup(e, k),
        },
        f.formatted matches Some(x) ==> lookup(node_update(e, so, first, f), "Value"@) == Some(
            JsonV::Str(x),
        ),
        first ==> (str_member(so, "Value"@) matches Some(v) ==> (str_member(so, "RawValue"@) matches Some(raw) ==> {
            let disp = match f.formatted {
                Some(x) => x,
                None => v,
            };
            &&& lookup(node_update(e, so, first, f), "Min"@) == Some(JsonV::Str(disp))
            &&& lookup(node_update(e, so, first, f), "Max"@) == Some(JsonV::Str(disp))
            &&& lookup(node_update(e, so, first, f), "RawMin"@) == Some(JsonV::Str(raw))
            &&& lookup(node_update(e, so, first, f), "RawMax"@) == Some(JsonV::Str(raw))
        })),
{
    reveal_strlit("Value");
    reveal_strlit("Min");
    reveal_strlit("Max");
    reveal_strlit("RawMin");
    reveal_strlit("RawMax");
    reveal_strlit("RawValue");
    lemma_merged(e, so, k);
    let e1 = merged(e, so);
    let e2 = match f.formatted {
        Some(v) => obj_insert(e1, "Value"@, JsonV::Str(v)),
        None => e1,
    };
    if let Some(v) = f.formatted {
        lemma_obj_insert(e1, "Value"@, JsonV::Str(v));
    }
    match (str_member(so, "Value"@), str_member(so, "RawValue"@)) {
        (Some(v), Some(raw)) => {
            let disp = match f.formatted {
                Some(x) => x,
                None => v,
            };
            let a1 = obj_insert(e2, "Min"@, JsonV::Str(disp));
            let a2 = obj_insert(a1, "Max"@, JsonV::Str(disp));
            let a3 = obj_insert(a2, "RawMin"@, JsonV::Str(raw));
            lemma_obj_insert(e2, "Min"@, JsonV::Str(disp));
            lemma_obj_insert(a1, "Max"@, JsonV::Str(disp));
            lemma_obj_insert(a2, "RawMin"@, JsonV::Str(raw));
            lemma_obj_insert(a3, "RawMax"@, JsonV::Str(raw));
            let b1 = obj_insert(e2, "Min"@, JsonV::Str(disp));
            let b2 = obj_insert(b1, "RawMin"@, JsonV::Str(raw));
            lemma_obj_insert(b1, "RawMin"@, JsonV::Str(raw));
            let a = if f.below_min {
                b2
            } else {
                e2
            };
            let c1 = obj_insert(a, "Max"@, JsonV::Str(disp));
            lemma_obj_insert(a, "Max"@, JsonV::Str(disp));
            lemma_obj_insert(c1, "RawMax"@, JsonV::Str(raw));
        },
        _ => {},
    }
}


/// A sensor already seen whose reading rises above its maximum gets the
/// displayed reading as its new `Max` and the sample's raw value as its
/// new `RawMax`, whether or not the reading is also below its minimum.
pub proof fn lemma_max_rises(
    e: Seq<(Seq<char>, JsonV)>,
    so: Seq<(Seq<char>, JsonV)>,
    f: FactsView,
    shown: Seq<char>,
    raw: Seq<char>,
)
    requires
        f.formatted == Some(shown),
        f.above_max,
        str_member(so, "Value"@) is Some,
        str_member(so, "RawValue"@) == Some(raw),
    ensures
        lookup(node_update(e, so, false, f), "Max"@) == Some(JsonV::Str(shown)),
        lookup(node_update(e, so, false, f), "RawMax"@) == Some(JsonV::Str(raw)),
{
    reveal_strlit("Max");
    reveal_strlit("RawMax");
    let e1 = merged(e, so);
    let e2 = obj_insert(e1, "Value"@, JsonV::Str(shown));
    let b1 = obj_insert(e2, "Min"@, JsonV::Str(shown));
    let b2 = obj_insert(b1, "RawMin"@, JsonV::Str(raw));
    let a = if f.below_min {
        b2
    } else {
        e2
    };
    let c1 = obj_insert(a, "Max"@, JsonV::Str(shown));
    lemma_obj_insert(a, "Max"@, JsonV::Str(shown));
    lemma_obj_insert(c1, "RawMax"@, JsonV::Str(raw));
    assert("Max"@ != "RawMax"@) by {
        assert("Max"@.len() != "RawMax"@.len());
    }
}

/// A sensor already seen whose reading falls below its minimum gets the
/// displayed reading as its new `Min` and the sample's raw value as its
/// new `RawMin`.
pub proof fn lemma_min_falls(
    e: Seq<(Seq<char>, JsonV)>,
    so: Seq<(Seq<char>, JsonV)>,
    f: FactsView,
    shown: Seq<char>,
    raw: Seq<char>,
)
    requires
        f.formatted == Some(shown),
        f.below_min,
        str_member(so, "Value"@) is Some,
        str_member(so, "RawValue"@) == Some(raw),
    ensures
        lookup(node_update(e, so, false, f), "Min"@) == Some(JsonV::Str(shown)),
        lookup(node_update(e, so, false, f), "RawMin"@) == Some(JsonV::Str(raw)),
{
    reveal_strlit("Min");
    reveal_strlit("RawMin");
    reveal_strlit("Max");
    reveal_strlit("RawMax");
    let e1 = merged(e, so);
    let e2 = obj_insert(e1, "Value"@, JsonV::Str(shown));
    let b1 = obj_insert(e2, "Min"@, JsonV::Str(shown));
    let b2 = obj_insert(b1, "RawMin"@, JsonV::Str(raw));
    lemma_obj_insert(e2, "Min"@, JsonV::Str(shown));
    lemma_obj_insert(b1, "RawMin"@, JsonV::Str(raw));
    let c1 = obj_insert(b2, "Max"@, JsonV::Str(shown));
    lemma_obj_insert(b2, "Max"@, JsonV::Str(shown));
    lemma_obj_insert(c1, "RawMax"@, JsonV::Str(raw));
    assert("Min"@ != "RawMin"@) by {
        assert("Min"@.len() != "RawMin"@.len());
    }
}

} // verus!
