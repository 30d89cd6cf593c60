//! A JSON document as the library reads it.  Objects keep their keys in
//! ascending order without duplicates, as serde_json's default map does, and
//! numbers keep the text serde_json prints for them.
use vstd::prelude::*;
use crate::text::{
    chars_eq, chars_le, chars_of, eq_str, lemma_seq_le_refl, lemma_seq_le_total,
    lemma_seq_le_trans, seq_le, string_of,
};

verus! {

pub enum Json {
    Null,
    Bool(bool),
    /// A number, by the text serde_json prints for it (`42`, `-1`, `4.5`).
    Number(String),
    Str(String),
    Array(Vec<Json>),
    /// Entries in ascending key order, keys distinct.
    Object(Vec<(String, Json)>),
}

pub enum JsonV {
    Null,
    Bool(bool),
    Number(Seq<char>),
    Str(Seq<char>),
    Array(Seq<JsonV>),
    Object(Seq<(Seq<char>, JsonV)>),
}

pub open spec fn views_of(v: Seq<Json>) -> Seq<JsonV>
    decreases v,
{
    if v.len() == 0 {
        Seq::empty()
    } else {
        views_of(v.subrange(0, v.len() - 1)).push(view_of(v[v.len() - 1]))
    }
}

pub open spec fn entry_views_of(v: Seq<(String, Json)>) -> Seq<(Seq<char>, JsonV)>
    decreases v,
{
    if v.len() == 0 {
        Seq::empty()
    } else {
        entry_views_of(v.subrange(0, v.len() - 1)).push(
            (v[v.len() - 1].0@, view_of(v[v.len() - 1].1)),
        )
    }
}

pub open spec fn view_of(j: Json) -> JsonV
    decreases j,
{
    match j {
        Json::Null => JsonV::Null,
        Json::Bool(b) => JsonV::Bool(b),
        Json::Number(n) => JsonV::Number(n@),
        Json::Str(s) => JsonV::Str(s@),
        Json::Array(v) => JsonV::Array(views_of(v@)),
        Json::Object(e) => JsonV::Object(entry_views_of(e@)),
    }
}

impl View for Json {
    type V = JsonV;

    open spec fn view(&self) -> JsonV {
        view_of(*self)
    }
}

pub open spec fn seq_lt(a: Seq<char>, b: Seq<char>) -> bool {
    seq_le(a, b) && a != b
}

/// Object keys strictly ascending.
pub open spec fn keys_sorted(e: Seq<(Seq<char>, JsonV)>) -> bool {
    forall|i: int, j: int| 0 <= i < j < e.len() ==> seq_lt(#[trigger] e[i].0, #[trigger] e[j].0)
}

/// Every object in the document has strictly ascending keys.
pub open spec fn well_formed(j: JsonV) -> bool
    decreases j,
{
    match j {
        JsonV::Array(s) => forall|i: int| 0 <= i < s.len() ==> well_formed(#[trigger] s[i]),
        JsonV::Object(e) => keys_sorted(e) && forall|i: int|
            0 <= i < e.len() ==> well_formed(#[trigger] e[i].1),
        _ => true,
    }
}

pub proof fn lemma_views_of(v: Seq<Json>)
    ensures
        views_of(v).len() == v.len(),
        forall|i: int| 0 <= i < v.len() ==> #[trigger] views_of(v)[i] == view_of(v[i]),
    decreases v.len(),
{
    if v.len() > 0 {
        lemma_views_of(v.subrange(0, v.len() - 1));
    }
}

pub proof fn lemma_entry_views_of(v: Seq<(String, Json)>)
    ensures
        entry_views_of(v).len() == v.len(),
        forall|i: int|
            0 <= i < v.len() ==> #[trigger] entry_views_of(v)[i] == (v[i].0@, view_of(v[i].1)),
    decreases v.len(),
{
    if v.len() > 0 {
        lemma_entry_views_of(v.subrange(0, v.len() - 1));
    }
}

/// A copy of a document.
#[verifier::loop_isolation(false)]
pub fn deep_clone(j: &Json) -> (r: Json)
    ensures
        r@ == j@,
    decreases j,
{
    match j {
        Json::Null => Json::Null,
        Json::Bool(b) => Json::Bool(*b),
        Json::Number(n) => Json::Number(n.clone()),
        Json::Str(s) => Json::Str(s.clone()),
        Json::Array(v) => {
            let mut out: Vec<Json> = Vec::new();
            let mut i: usize = 0;
            assert(views_of(out@) =~= views_of(v@.subrange(0, 0)));
            while i < v.len()
                invariant
                    i <= v@.len(),
                    views_of(out@) == views_of(v@.subrange(0, i as int)),
                decreases v@.len() - i,
            {
                proof {
                    assert(decreases_to!(*j => j->Array_0));
                    assert(decreases_to!(*v => v@));
                    assert(decreases_to!(v@ => v@[i as int]));
                }
                let c = deep_clone(&v[i]);
                let ghost old_out = out@;
                out.push(c);
                assert(out@.subrange(0, out@.len() - 1) =~= old_out);
                assert(v@.subrange(0, i + 1).subrange(0, i as int) =~= v@.subrange(0, i as int));
                i = i + 1;
            }
            assert(v@.subrange(0, v@.len() as int) =~= v@);
            Json::Array(out)
        },
        Json::Object(e) => {
            let mut out: Vec<(String, Json)> = Vec::new();
            let mut i: usize = 0;
            assert(entry_views_of(out@) =~= entry_views_of(e@.subrange(0, 0)));
            while i < e.len()
                invariant
                    i <= e@.len(),
                    entry_views_of(out@) == entry_views_of(e@.subrange(0, i as int)),
                decreases e@.len() - i,
            {
                proof {
                    assert(decreases_to!(*j => j->Object_0));
                    assert(decreases_to!(*e => e@));
                    assert(decreases_to!(e@ => e@[i as int]));
                    assert(decreases_to!(e@[i as int] => e@[i as int].1));
                }
                let c = deep_clone(&e[i].1);
                let k = e[i].0.clone();
                let ghost old_out = out@;
                out.push((k, c));
                assert(out@.subrange(0, out@.len() - 1) =~= old_out);
                assert(e@.subrange(0, i + 1).subrange(0, i as int) =~= e@.subrange(0, i as int));
                i = i + 1;
            }
            assert(e@.subrange(0, e@.len() as int) =~= e@);
            Json::Object(out)
        },
    }
}

/// The value of the first entry with key `k`.
pub open spec fn lookup(e: Seq<(Seq<char>, JsonV)>, k: Seq<char>) -> Option<JsonV>
    decreases e.len(),
{
    if e.len() == 0 {
        None
    } else if e[0].0 == k {
        Some(e[0].1)
    } else {
        lookup(e.drop_first(), k)
    }
}

impl JsonV {
    /// `Value::get` with a key: the member of an object, nothing otherwise.
    pub open spec fn get(self, k: Seq<char>) -> Option<JsonV> {
        match self {
            JsonV::Object(e) => lookup(e, k),
            _ => None,
        }
    }

    pub open spec fn str_of(self) -> Option<Seq<char>> {
        match self {
            JsonV::Str(s) => Some(s),
            _ => None,
        }
    }

    /// A member that is a string.
    pub open spec fn get_str(self, k: Seq<char>) -> Option<Seq<char>> {
        match self.get(k) {
            Some(v) => v.str_of(),
            None => None,
        }
    }
}

pub open spec fn opt_view(r: Option<&Json>) -> Option<JsonV> {
    match r {
        Some(j) => Some(j@),
        None => None,
    }
}

pub fn entries_get<'a>(e: &'a Vec<(String, Json)>, key: &str) -> (r: Option<&'a Json>)
    ensures
        opt_view(r) == lookup(entry_views_of(e@), key@),
{
    let ghost ev = entry_views_of(e@);
    proof {
        lemma_entry_views_of(e@);
    }
    let mut i: usize = 0;
    assert(ev.skip(0) =~= ev);
    while i < e.len()
        invariant
            i <= e@.len(),
            ev == entry_views_of(e@),
            ev.len() == e@.len(),
            forall|k: int| 0 <= k < e@.len() ==> #[trigger] ev[k] == (e@[k].0@, e@[k].1@),
            lookup(ev, key@) == lookup(ev.skip(i as int), key@),
        decreases e@.len() - i,
    {
        assert(ev.skip(i as int)[0] == ev[i as int]);
        let kc = chars_of(e[i].0.as_str());
        if eq_str(kc.as_slice(), key) {
            return Some(&e[i].1);
        }
        assert(ev.skip(i as int).drop_first() =~= ev.skip(i + 1));
        i = i + 1;
    }
    None
}

/// `Value::get` with a key.
pub fn json_get<'a>(j: &'a Json, key: &str) -> (r: Option<&'a Json>)
    ensures
        opt_view(r) == j@.get(key@),
{
    match j {
        Json::Object(e) => entries_get(e, key),
        _ => None,
    }
}

/// `Value::as_str`.
pub fn json_as_str(j: &Json) -> (r: Option<&String>)
    ensures
        r matches Some(s) ==> j@.str_of() == Some(s@),
        r is None ==> j@.str_of() is None,
{
    match j {
        Json::Str(s) => Some(s),
        _ => None,
    }
}

/// A string member of an object.
pub fn json_get_str<'a>(j: &'a Json, key: &str) -> (r: Option<&'a String>)
    ensures
        r matches Some(s) ==> j@.get_str(key@) == Some(s@),
        r is None ==> j@.get_str(key@) is None,
{
    match json_get(j, key) {
        Some(v) => json_as_str(v),
        None => None,
    }
}

/// Number of leading entries whose key sorts before `k`.
pub open spec fn insert_pos(e: Seq<(Seq<char>, JsonV)>, k: Seq<char>) -> nat
    decreases e.len(),
{
    if e.len() > 0 && seq_lt(e[0].0, k) {
        1 + insert_pos(e.drop_first(), k)
    } else {
        0
    }
}

/// `Map::insert` on an object kept in key order: replaces the member with
/// key `k`, or adds it at its place in the order.
pub open spec fn obj_insert(e: Seq<(Seq<char>, JsonV)>, k: Seq<char>, v: JsonV) -> Seq<
    (Seq<char>, JsonV),
> {
    let p = insert_pos(e, k) as int;
    if p < e.len() && e[p].0 == k {
        e.update(p, (k, v))
    } else {
        e.insert(p, (k, v))
    }
}

proof fn lemma_insert_pos(e: Seq<(Seq<char>, JsonV)>, k: Seq<char>, p: int)
    requires
        0 <= p <= e.len(),
        forall|i: int| 0 <= i < p ==> seq_lt(#[trigger] e[i].0, k),
        p == e.len() || !seq_lt(e[p].0, k),
    ensures
        insert_pos(e, k) == p,
    decreases p,
{
    if p > 0 {
        assert forall|i: int| 0 <= i < p - 1 implies seq_lt(#[trigger] e.drop_first()[i].0, k) by {
            assert(e.drop_first()[i] == e[i + 1]);
        }
        lemma_insert_pos(e.drop_first(), k, p - 1);
    }
}

pub proof fn lemma_lookup_index(e: Seq<(Seq<char>, JsonV)>, k: Seq<char>)
    ensures
        lookup(e, k) is Some <==> exists|i: int| 0 <= i < e.len() && #[trigger] e[i].0 == k,
        lookup(e, k) matches Some(v) ==> exists|i: int|
            0 <= i < e.len() && #[trigger] e[i].0 == k && e[i].1 == v && forall|j: int|
                0 <= j < i ==> e[j].0 != k,
    decreases e.len(),
{
    if e.len() > 0 {
        lemma_lookup_index(e.drop_first(), k);
        if e[0].0 != k {
            if exists|i: int| 0 <= i < e.len() && #[trigger] e[i].0 == k {
                let i = choose|i: int| 0 <= i < e.len() && #[trigger] e[i].0 == k;
                assert(e.drop_first()[i - 1].0 == k);
            }
            if let Some(v) = lookup(e, k) {
                let i = choose|i: int|
                    0 <= i < e.drop_first().len() && #[trigger] e.drop_first()[i].0 == k
                        && e.drop_first()[i].1 == v && forall|j: int|
                        0 <= j < i ==> e.drop_first()[j].0 != k;
                assert(e[i + 1].0 == k);
                assert forall|j: int| 0 <= j < i + 1 implies e[j].0 != k by {
                    if j > 0 {
                        assert(e[j] == e.drop_first()[j - 1]);
                    }
                }
            }
        } else {
            assert(e[0].0 == k);
        }
    }
}

/// The first entry with a key decides the lookup.
pub proof fn lemma_lookup_first(e: Seq<(Seq<char>, JsonV)>, k: Seq<char>, i: int)
    requires
        0 <= i < e.len(),
        e[i].0 == k,
        forall|j: int| 0 <= j < i ==> e[j].0 != k,
    ensures
        lookup(e, k) == Some(e[i].1),
    decreases i,
{
    if i > 0 {
        assert forall|j: int| 0 <= j < i - 1 implies e.drop_first()[j].0 != k by {
            assert(e.drop_first()[j] == e[j + 1]);
        }
        lemma_lookup_first(e.drop_first(), k, i - 1);
    }
}

pub proof fn lemma_lookup_absent(e: Seq<(Seq<char>, JsonV)>, k: Seq<char>)
    requires
        forall|j: int| 0 <= j < e.len() ==> e[j].0 != k,
    ensures
        lookup(e, k) is None,
{
    lemma_lookup_index(e, k);
}

/// Inserting into an object: the inserted key maps to the new value, every
/// other key keeps its member, and ascending key order is kept.
pub proof fn lemma_obj_insert(e: Seq<(Seq<char>, JsonV)>, k: Seq<char>, v: JsonV)
    ensures
        lookup(obj_insert(e, k, v), k) == Some(v),
        forall|k2: Seq<char>| k2 != k ==> #[trigger] lookup(obj_insert(e, k, v), k2) == lookup(e, k2),
        keys_sorted(e) ==> keys_sorted(obj_insert(e, k, v)),
{
    let p = insert_pos(e, k) as int;
    lemma_insert_pos_props(e, k);
    let r = obj_insert(e, k, v);
    assert forall|j: int| 0 <= j < p implies r[j].0 != k by {
        assert(r[j] == e[j]);
    }
    assert(r[p] == (k, v));
    lemma_lookup_first(r, k, p);
    assert forall|k2: Seq<char>| k2 != k implies #[trigger] lookup(r, k2) == lookup(e, k2) by {
        lemma_lookup_index(e, k2);
        lemma_lookup_index(r, k2);
        if let Some(w) = lookup(e, k2) {
            let i = choose|i: int|
                0 <= i < e.len() && #[trigger] e[i].0 == k2 && e[i].1 == w && forall|j: int|
                    0 <= j < i ==> e[j].0 != k2;
            let ri = if p < e.len() && e[p].0 == k {
                i
            } else if i < p {
                i
            } else {
                i + 1
            };
            assert(r[ri] == e[i]);
            assert forall|j: int| 0 <= j < ri implies r[j].0 != k2 by {
                if p < e.len() && e[p].0 == k {
                    if j == p {
                    } else {
                        assert(r[j] == e[j]);
                    }
                } else if j < p {
                    assert(r[j] == e[j]);
                } else if j > p {
                    assert(r[j] == e[j - 1]);
                }
            }
            lemma_lookup_first(r, k2, ri);
        } else {
            assert forall|j: int| 0 <= j < r.len() implies r[j].0 != k2 by {
                if p < e.len() && e[p].0 == k {
                    if j != p {
                        assert(r[j] == e[j]);
                    }
                } else if j < p {
                    assert(r[j] == e[j]);
                } else if j > p {
                    assert(r[j] == e[j - 1]);
                }
            }
            lemma_lookup_absent(r, k2);
        }
    }
    if keys_sorted(e) {
        assert forall|a: int, b: int| 0 <= a < b < r.len() implies seq_lt(
            #[trigger] r[a].0,
            #[trigger] r[b].0,
        ) by {
            if p < e.len() && e[p].0 == k {
                assert(r[a].0 == e[a].0);
                assert(r[b].0 == e[b].0);
            } else {
                if a < p && b < p {
                    assert(r[a] == e[a] && r[b] == e[b]);
                } else if a < p && b == p {
                    assert(r[a] == e[a]);
                } else if a < p && b > p {
                    assert(r[a] == e[a] && r[b] == e[b - 1]);
                } else if a == p {
                    assert(r[b] == e[b - 1]);
                    assert(!seq_lt(e[p].0, k));
                    lemma_seq_le_total(e[p].0, k);
                    if b - 1 > p {
                        assert(seq_lt(e[p].0, e[b - 1].0));
                        lemma_seq_le_trans(k, e[p].0, e[b - 1].0);
                    }
                } else {
                    assert(r[a] == e[a - 1] && r[b] == e[b - 1]);
                }
            }
        }
    }
}

proof fn lemma_insert_pos_props(e: Seq<(Seq<char>, JsonV)>, k: Seq<char>)
    ensures
        insert_pos(e, k) <= e.len(),
        forall|i: int| 0 <= i < insert_pos(e, k) ==> seq_lt(#[trigger] e[i].0, k),
        insert_pos(e, k) < e.len() ==> !seq_lt(e[insert_pos(e, k) as int].0, k),
    decreases e.len(),
{
    if e.len() > 0 && seq_lt(e[0].0, k) {
        lemma_insert_pos_props(e.drop_first(), k);
        assert forall|i: int| 0 <= i < insert_pos(e, k) implies seq_lt(#[trigger] e[i].0, k) by {
            if i > 0 {
                assert(e[i] == e.drop_first()[i - 1]);
            }
        }
    }
}

fn key_lt(a: &String, b: &String) -> (r: bool)
    ensures
        r == seq_lt(a@, b@),
{
    let ac = chars_of(a.as_str());
    let bc = chars_of(b.as_str());
    chars_le(ac.as_slice(), bc.as_slice()) && !chars_eq(ac.as_slice(), bc.as_slice())
}

/// `Map::insert` on an object's entries.
pub fn object_insert(e: &mut Vec<(String, Json)>, k: String, v: Json)
    ensures
        entry_views_of(final(e)@) == obj_insert(entry_views_of(old(e)@), k@, v@),
{
    let ghost ev = entry_views_of(old(e)@);
    proof {
        lemma_entry_views_of(old(e)@);
    }
    let mut p: usize = 0;
    while p < e.len() && key_lt(&e[p].0, &k)
        invariant
            p <= e@.len(),
            e@ == old(e)@,
            ev == entry_views_of(e@),
            ev.len() == e@.len(),
            forall|i: int| 0 <= i < e@.len() ==> #[trigger] ev[i] == (e@[i].0@, e@[i].1@),
            forall|i: int| 0 <= i < p ==> seq_lt(#[trigger] ev[i].0, k@),
        decreases e@.len() - p,
    {
        p = p + 1;
    }
    proof {
        lemma_insert_pos(ev, k@, p as int);
    }
    let ghost kv = k@;
    let ghost vv = v@;
    let replace = p < e.len() && {
        let kc = chars_of(e[p].0.as_str());
        let kk = chars_of(k.as_str());
        chars_eq(kc.as_slice(), kk.as_slice())
    };
    if replace {
        let ghost before = e@;
        e.set(p, (k, v));
        proof {
            lemma_entry_views_of(e@);
            assert(entry_views_of(e@) =~= ev.update(p as int, (kv, vv)));
        }
    } else {
        let ghost before = e@;
        e.insert(p, (k, v));
        proof {
            lemma_entry_views_of(e@);
            assert(entry_views_of(e@) =~= ev.insert(p as int, (kv, vv)));
        }
    }
}

/// Writes a string member.
pub fn object_insert_str(e: &mut Vec<(String, Json)>, k: &str, v: &str)
    ensures
        entry_views_of(final(e)@) == obj_insert(entry_views_of(old(e)@), k@, JsonV::Str(v@)),
{
    let ks = string_of(chars_of(k).as_slice());
    let vs = string_of(chars_of(v).as_slice());
    object_insert(e, ks, Json::Str(vs));
}

/// A copy of an object's entries.
pub fn clone_entries(e: &Vec<(String, Json)>) -> (r: Vec<(String, Json)>)
    ensures
        entry_views_of(r@) == entry_views_of(e@),
{
    let mut out: Vec<(String, Json)> = Vec::new();
    let mut i: usize = 0;
    assert(entry_views_of(out@) =~= entry_views_of(e@.subrange(0, 0)));
    while i < e.len()
        invariant
            i <= e@.len(),
            entry_views_of(out@) == entry_views_of(e@.subrange(0, i as int)),
        decreases e@.len() - i,
    {
        let c = deep_clone(&e[i].1);
        let k = e[i].0.clone();
        let ghost old_out = out@;
        out.push((k, c));
        assert(out@.subrange(0, out@.len() - 1) =~= old_out);
        assert(e@.subrange(0, i + 1).subrange(0, i as int) =~= e@.subrange(0, i as int));
        i = i + 1;
    }
    assert(e@.subrange(0, e@.len() as int) =~= e@);
    out
}

/// Position of the first entry with key `k`; the length when there is none.
pub open spec fn first_key(e: Seq<(Seq<char>, JsonV)>, k: Seq<char>) -> int
    decreases e.len(),
{
    if e.len() == 0 {
        0
    } else if e[0].0 == k {
        0
    } else {
        1 + first_key(e.drop_first(), k)
    }
}

pub proof fn lemma_first_key(e: Seq<(Seq<char>, JsonV)>, k: Seq<char>)
    ensures
        0 <= first_key(e, k) <= e.len(),
        first_key(e, k) < e.len() ==> e[first_key(e, k)].0 == k,
        forall|j: int| 0 <= j < first_key(e, k) ==> e[j].0 != k,
        lookup(e, k) == if first_key(e, k) < e.len() {
            Some(e[first_key(e, k)].1)
        } else {
            None
        },
    decreases e.len(),
{
    if e.len() > 0 && e[0].0 != k {
        lemma_first_key(e.drop_first(), k);
        assert forall|j: int| 0 <= j < first_key(e, k) implies e[j].0 != k by {
            if j > 0 {
                assert(e[j] == e.drop_first()[j - 1]);
            }
        }
    }
}

/// Index of the first entry with key `k`, or the length when there is none.
pub fn key_position(e: &Vec<(String, Json)>, k: &str) -> (r: usize)
    ensures
        r == first_key(entry_views_of(e@), k@),
{
    let ghost ev = entry_views_of(e@);
    proof {
        lemma_entry_views_of(e@);
        lemma_first_key(ev, k@);
    }
    let mut i: usize = 0;
    while i < e.len()
        invariant
            i <= e@.len(),
            ev == entry_views_of(e@),
            ev.len() == e@.len(),
            forall|j: int| 0 <= j < e@.len() ==> #[trigger] ev[j] == (e@[j].0@, e@[j].1@),
            forall|j: int| 0 <= j < i ==> ev[j].0 != k@,
            i <= first_key(ev, k@),
            first_key(ev, k@) <= ev.len(),
            first_key(ev, k@) < ev.len() ==> ev[first_key(ev, k@)].0 == k@,
            forall|j: int| 0 <= j < first_key(ev, k@) ==> ev[j].0 != k@,
        decreases e@.len() - i,
    {
        let kc = chars_of(e[i].0.as_str());
        if eq_str(kc.as_slice(), k) {
            proof {
                if i < first_key(ev, k@) {
                    assert(ev[i as int].0 != k@);
                }
            }
            return i;
        }
        i = i + 1;
    }
    i
}

} // verus!
