//! Comparing the live data with the bundled OHM export: value equality as
//! serde_json defines it, the `/compare` report and the side-by-side
//! `/compare/view` page.
use vstd::prelude::*;
use crate::json::{
    entries_get, entry_views_of, lemma_entry_views_of, lemma_views_of, lookup, views_of, Json,
    JsonV,
};
use crate::health::number;
use crate::schema::missing;
use crate::text::{
    owned,
    append_chars, append_str, chars_eq, chars_of, char_width, char_width_exec, decimal,
    decimal_exec, eq_str, lemma_utf8_len_concat, lemma_views_len, string_of, utf8_len, views,
};

verus! {

// ---------------------------------------------------------------------------
// Equality
// ---------------------------------------------------------------------------

/// The two texts serde_json prints for a floating-point zero, which
/// compare equal.
pub open spec fn zero_float(t: Seq<char>) -> bool {
    t == "0.0"@ || t == "-0.0"@
}

/// `Value == Value`: numbers by their value (equal texts, or both
/// floating-point zero), arrays element by element, objects entry by entry
/// in key order.
pub open spec fn json_eq(a: JsonV, b: JsonV) -> bool
    decreases a,
{
    match a {
        JsonV::Null => b is Null,
        JsonV::Bool(x) => b matches JsonV::Bool(y) && x == y,
        JsonV::Number(x) => b matches JsonV::Number(y) && (x == y || (zero_float(x) && zero_float(y))),
        JsonV::Str(x) => b matches JsonV::Str(y) && x == y,
        JsonV::Array(x) => b matches JsonV::Array(y) && x.len() == y.len() && items_eq(x, y),
        JsonV::Object(x) => b matches JsonV::Object(y) && x.len() == y.len() && entries_eq(x, y),
    }
}

pub open spec fn items_eq(x: Seq<JsonV>, y: Seq<JsonV>) -> bool
    decreases x,
{
    if x.len() == 0 {
        true
    } else {
        items_eq(x.subrange(0, x.len() - 1), y.subrange(0, y.len() - 1)) && json_eq(
            x[x.len() - 1],
            y[y.len() - 1],
        )
    }
}

pub open spec fn entries_eq(x: Seq<(Seq<char>, JsonV)>, y: Seq<(Seq<char>, JsonV)>) -> bool
    decreases x,
{
    if x.len() == 0 {
        true
    } else {
        entries_eq(x.subrange(0, x.len() - 1), y.subrange(0, y.len() - 1)) && x[x.len() - 1].0
            == y[y.len() - 1].0 && json_eq(x[x.len() - 1].1, y[y.len() - 1].1)
    }
}

fn number_eq(x: &String, y: &String) -> (r: bool)
    ensures
        r == (x@ == y@ || (zero_float(x@) && zero_float(y@))),
{
    let xc = chars_of(x.as_str());
    let yc = chars_of(y.as_str());
    chars_eq(xc.as_slice(), yc.as_slice()) || ((eq_str(xc.as_slice(), "0.0") || eq_str(
        xc.as_slice(),
        "-0.0",
    )) && (eq_str(yc.as_slice(), "0.0") || eq_str(yc.as_slice(), "-0.0")))
}

/// `Value == Value`.
#[verifier::loop_isolation(false)]
pub fn json_equal(a: &Json, b: &Json) -> (r: bool)
    ensures
        r == json_eq(a@, b@),
    decreases a,
{
    match (a, b) {
        (Json::Null, Json::Null) => true,
        (Json::Bool(x), Json::Bool(y)) => *x == *y,
        (Json::Number(x), Json::Number(y)) => number_eq(x, y),
        (Json::Str(x), Json::Str(y)) => {
            let xc = chars_of(x.as_str());
            let yc = chars_of(y.as_str());
            chars_eq(xc.as_slice(), yc.as_slice())
        },
        (Json::Array(x), Json::Array(y)) => {
            proof {
                lemma_views_of(x@);
                lemma_views_of(y@);
            }
            let ghost xv = views_of(x@);
            let ghost yv = views_of(y@);
            if x.len() != y.len() {
                return false;
            }
            let mut i: usize = 0;
            assert(items_eq(xv.subrange(0, 0), yv.subrange(0, 0)));
            while i < x.len()
                invariant
                    i <= x@.len(),
                    x@.len() == y@.len(),
                    xv == views_of(x@),
                    yv == views_of(y@),
                    items_eq(xv.subrange(0, i as int), yv.subrange(0, i as int)),
                decreases x@.len() - i,
            {
                proof {
                    assert(decreases_to!(*a => a->Array_0));
                    assert(decreases_to!(*x => x@));
                    assert(decreases_to!(x@ => x@[i as int]));
                }
                let e = json_equal(&x[i], &y[i]);
                assert(xv.subrange(0, i + 1).subrange(0, i as int) =~= xv.subrange(0, i as int));
                assert(yv.subrange(0, i + 1).subrange(0, i as int) =~= yv.subrange(0, i as int));
                assert(xv.subrange(0, i + 1)[i as int] == x@[i as int]@);
                assert(yv.subrange(0, i + 1)[i as int] == y@[i as int]@);
                if !e {
                    proof {
                        if items_eq(xv, yv) {
                            lemma_items_eq_prefix(xv, yv, i + 1);
                        }
                    }
                    return false;
                }
                i = i + 1;
            }
            assert(xv.subrange(0, x@.len() as int) =~= xv);
            assert(yv.subrange(0, y@.len() as int) =~= yv);
            true
        },
        (Json::Object(x), Json::Object(y)) => {
            proof {
                lemma_entry_views_of(x@);
                lemma_entry_views_of(y@);
            }
            let ghost xv = entry_views_of(x@);
            let ghost yv = entry_views_of(y@);
            if x.len() != y.len() {
                return false;
            }
            let mut i: usize = 0;
            assert(entries_eq(xv.subrange(0, 0), yv.subrange(0, 0)));
            while i < x.len()
                invariant
                    i <= x@.len(),
                    x@.len() == y@.len(),
                    xv == entry_views_of(x@),
                    yv == entry_views_of(y@),
                    entries_eq(xv.subrange(0, i as int), yv.subrange(0, i as int)),
                decreases x@.len() - i,
            {
                proof {
                    assert(decreases_to!(*a => a->Object_0));
                    assert(decreases_to!(*x => x@));
                    assert(decreases_to!(x@ => x@[i as int]));
                    assert(decreases_to!(x@[i as int] => x@[i as int].1));
                }
                let kx = chars_of(x[i].0.as_str());
                let ky = chars_of(y[i].0.as_str());
                let e = chars_eq(kx.as_slice(), ky.as_slice()) && json_equal(&x[i].1, &y[i].1);
                assert(xv.subrange(0, i + 1).subrange(0, i as int) =~= xv.subrange(0, i as int));
                assert(yv.subrange(0, i + 1).subrange(0, i as int) =~= yv.subrange(0, i as int));
                assert(xv.subrange(0, i + 1)[i as int] == (x@[i as int].0@, x@[i as int].1@));
                assert(yv.subrange(0, i + 1)[i as int] == (y@[i as int].0@, y@[i as int].1@));
                if !e {
                    proof {
                        if entries_eq(xv, yv) {
                            lemma_entries_eq_prefix(xv, yv, i + 1);
                        }
                    }
                    return false;
                }
                i = i + 1;
            }
            assert(xv.subrange(0, x@.len() as int) =~= xv);
            assert(yv.subrange(0, y@.len() as int) =~= yv);
            true
        },
        _ => false,
    }
}

proof fn lemma_items_eq_prefix(x: Seq<JsonV>, y: Seq<JsonV>, n: int)
    requires
        0 <= n <= x.len(),
        x.len() == y.len(),
        items_eq(x, y),
    ensures
        items_eq(x.subrange(0, n), y.subrange(0, n)),
    decreases x.len(),
{
    if n < x.len() {
        lemma_items_eq_prefix(x.subrange(0, x.len() - 1), y.subrange(0, y.len() - 1), n);
        assert(x.subrange(0, x.len() - 1).subrange(0, n) =~= x.subrange(0, n));
        assert(y.subrange(0, y.len() - 1).subrange(0, n) =~= y.subrange(0, n));
    } else {
        assert(x.subrange(0, n) =~= x);
        assert(y.subrange(0, n) =~= y);
    }
}

proof fn lemma_entries_eq_prefix(x: Seq<(Seq<char>, JsonV)>, y: Seq<(Seq<char>, JsonV)>, n: int)
    requires
        0 <= n <= x.len(),
        x.len() == y.len(),
        entries_eq(x, y),
    ensures
        entries_eq(x.subrange(0, n), y.subrange(0, n)),
    decreases x.len(),
{
    if n < x.len() {
        lemma_entries_eq_prefix(x.subrange(0, x.len() - 1), y.subrange(0, y.len() - 1), n);
        assert(x.subrange(0, x.len() - 1).subrange(0, n) =~= x.subrange(0, n));
        assert(y.subrange(0, y.len() - 1).subrange(0, n) =~= y.subrange(0, n));
    } else {
        assert(x.subrange(0, n) =~= x);
        assert(y.subrange(0, n) =~= y);
    }
}

// ---------------------------------------------------------------------------
// The `/compare` report
// ---------------------------------------------------------------------------

/// The longest prefix of a text that fits in `n` bytes of UTF-8.
pub open spec fn take_bytes(s: Seq<char>, n: nat) -> Seq<char>
    decreases s.len(),
{
    if s.len() == 0 || char_width(s[0]) > n {
        Seq::empty()
    } else {
        seq![s[0]] + take_bytes(s.drop_first(), (n - char_width(s[0])) as nat)
    }
}

/// Byte `n` of the text starts a character (or ends the text), so
/// `&s[..n]` does not panic.
pub open spec fn is_boundary(s: Seq<char>, n: nat) -> bool {
    utf8_len(s) < n || utf8_len(take_bytes(s, n)) == n
}

/// The first `n` bytes of a text.
pub fn prefix_bytes(s: &[char], n: usize) -> (r: Vec<char>)
    ensures
        r@ == take_bytes(s@, n as nat),
{
    let mut r: Vec<char> = Vec::new();
    let mut i: usize = 0;
    let mut acc: usize = 0;
    assert(s@.skip(0) =~= s@);
    assert(take_bytes(s@, n as nat) =~= r@ + take_bytes(s@.skip(0), n as nat));
    while i < s.len() && char_width_exec(s[i]) <= n - acc
        invariant
            i <= s@.len(),
            acc <= n,
            r@ == s@.take(i as int),
            take_bytes(s@, n as nat) == r@ + take_bytes(s@.skip(i as int), (n - acc) as nat),
        decreases s@.len() - i,
    {
        let w = char_width_exec(s[i]);
        let ghost rest = s@.skip(i as int);
        assert(rest[0] == s@[i as int]);
        assert(rest.drop_first() =~= s@.skip(i + 1));
        r.push(s[i]);
        acc = acc + w;
        i = i + 1;
        assert(r@ =~= s@.take(i as int));
        assert(take_bytes(s@, n as nat) =~= r@ + take_bytes(s@.skip(i as int), (n - acc) as nat));
    }
    proof {
        if i < s@.len() {
            assert(s@.skip(i as int)[0] == s@[i as int]);
        }
        assert(take_bytes(s@.skip(i as int), (n - acc) as nat) =~= Seq::<char>::empty());
    }
    assert(take_bytes(s@, n as nat) =~= r@);
    r
}

/// A preview of a serialised value: cut to 1024 bytes with a marker when
/// longer.
pub open spec fn truncated(s: Seq<char>) -> Seq<char> {
    if utf8_len(s) > 1024 {
        take_bytes(s, 1024) + "...[truncated]"@
    } else {
        s
    }
}

fn utf8_len_over(s: &[char], n: usize) -> (r: bool)
    ensures
        r == (utf8_len(s@) > n),
{
    let mut acc: usize = 0;
    let mut i: usize = 0;
    while i < s.len()
        invariant
            i <= s@.len(),
            acc <= n,
            acc == utf8_len(s@.take(i as int)),
        decreases s@.len() - i,
    {
        assert(s@.take(i + 1).drop_last() =~= s@.take(i as int));
        let w = char_width_exec(s[i]);
        if w > n - acc {
            proof {
                lemma_utf8_len_concat(s@.take(i + 1), s@.skip(i + 1));
                assert(s@.take(i + 1) + s@.skip(i + 1) =~= s@);
            }
            return true;
        }
        acc = acc + w;
        i = i + 1;
    }
    assert(s@.take(s@.len() as int) =~= s@);
    false
}

fn truncate_preview(s: &str) -> (r: String)
    ensures
        r@ == truncated(s@),
{
    let c = chars_of(s);
    if utf8_len_over(c.as_slice(), 1024) {
        let mut p = prefix_bytes(c.as_slice(), 1024);
        append_str(&mut p, "...[truncated]");
        string_of(p.as_slice())
    } else {
        string_of(c.as_slice())
    }
}

/// The kind of a value, as the report names it.
pub open spec fn kind_name(j: JsonV) -> Seq<char> {
    match j {
        JsonV::Array(_) => "array"@,
        JsonV::Str(_) => "string"@,
        JsonV::Number(_) => "number"@,
        JsonV::Bool(_) => "boolean"@,
        JsonV::Null => "null"@,
        JsonV::Object(_) => "object"@,
    }
}

fn kind_name_exec(j: &Json) -> (r: &'static str)
    ensures
        r@ == kind_name(j@),
{
    match j {
        Json::Array(_) => "array",
        Json::Str(_) => "string",
        Json::Number(_) => "number",
        Json::Bool(_) => "boolean",
        Json::Null => "null",
        Json::Object(_) => "object",
    }
}

pub open spec fn keys_of(e: Seq<(Seq<char>, JsonV)>) -> Seq<Seq<char>> {
    e.map_values(|p: (Seq<char>, JsonV)| p.0)
}

/// The keys of `ks` both objects have with different values.
pub open spec fn differing(
    ks: Seq<Seq<char>>,
    oe: Seq<(Seq<char>, JsonV)>,
    de: Seq<(Seq<char>, JsonV)>,
) -> Seq<Seq<char>>
    decreases ks.len(),
{
    if ks.len() == 0 {
        Seq::empty()
    } else {
        let prev = differing(ks.drop_last(), oe, de);
        let k = ks.last();
        match (lookup(oe, k), lookup(de, k)) {
            (Some(a), Some(b)) => if json_eq(a, b) {
                prev
            } else {
                prev.push(k)
            },
            _ => prev,
        }
    }
}

pub open spec fn str_items(s: Seq<Seq<char>>) -> Seq<JsonV> {
    s.map_values(|x: Seq<char>| JsonV::Str(x))
}

/// The `/compare` report of the OHM export's raw entries against the live
/// raw data: equal, or for two objects the keys each side alone has and
/// the keys whose values differ, or else the kinds of both sides with
/// previews of their serialisations.
pub open spec fn compare_report(
    ohm: JsonV,
    data: JsonV,
    ohm_text: Seq<char>,
    data_text: Seq<char>,
) -> JsonV {
    if json_eq(ohm, data) {
        JsonV::Object(seq![("equal"@, JsonV::Bool(true))])
    } else {
        match (ohm, data) {
            (JsonV::Object(oe), JsonV::Object(de)) => {
                let ok = keys_of(oe);
                let dk = keys_of(de);
                JsonV::Object(
                    seq![
                        ("differing_keys"@, JsonV::Array(str_items(differing(missing(ok, Seq::empty()), oe, de)))),
                        ("equal"@, JsonV::Bool(false)),
                        ("ohm_top_keys_count"@, number(oe.len())),
                        ("only_in_ohm"@, JsonV::Array(str_items(missing(ok, dk)))),
                        ("only_in_raw"@, JsonV::Array(str_items(missing(dk, ok)))),
                        ("raw_top_keys_count"@, number(de.len())),
                    ],
                )
            },
            _ => JsonV::Object(
                seq![
                    ("equal"@, JsonV::Bool(false)),
                    ("ohm_preview"@, JsonV::Str(truncated(ohm_text))),
                    ("ohm_type"@, JsonV::Str(kind_name(ohm))),
                    ("raw_preview"@, JsonV::Str(truncated(data_text))),
                    ("raw_type"@, JsonV::Str(kind_name(data))),
                ],
            ),
        }
    }
}

fn number_json(n: usize) -> (r: Json)
    ensures
        r@ == number(n as nat),
{
    let d = decimal_exec(n as u64);
    Json::Number(string_of(d.as_slice()))
}

fn entry_keys(e: &Vec<(String, Json)>) -> (r: Vec<Vec<char>>)
    ensures
        views(r@) == keys_of(entry_views_of(e@)),
{
    proof {
        lemma_entry_views_of(e@);
    }
    let ghost kv = keys_of(entry_views_of(e@));
    let mut r: Vec<Vec<char>> = Vec::new();
    let mut i: usize = 0;
    while i < e.len()
        invariant
            i <= e@.len(),
            kv == keys_of(entry_views_of(e@)),
            kv.len() == e@.len(),
            forall|k: int| 0 <= k < e@.len() ==> #[trigger] kv[k] == e@[k].0@,
            views(r@) == kv.take(i as int),
        decreases e@.len() - i,
    {
        let ghost before = r@;
        r.push(chars_of(e[i].0.as_str()));
        proof {
            lemma_views_len(before);
            lemma_views_len(r@);
        }
        i = i + 1;
        assert(views(r@) =~= kv.take(i as int));
    }
    assert(kv.take(e@.len() as int) =~= kv);
    r
}

fn contains_chars(v: &Vec<Vec<char>>, x: &[char]) -> (r: bool)
    ensures
        r == views(v@).contains(x@),
{
    proof {
        lemma_views_len(v@);
    }
    let mut i: usize = 0;
    while i < v.len()
        invariant
            i <= v@.len(),
            views(v@).len() == v@.len(),
            forall|q: int| 0 <= q < v@.len() ==> #[trigger] views(v@)[q] == v@[q]@,
            forall|k: int| 0 <= k < i ==> views(v@)[k] != x@,
        decreases v@.len() - i,
    {
        if chars_eq(v[i].as_slice(), x) {
            assert(views(v@)[i as int] == x@);
            return true;
        }
        i = i + 1;
    }
    false
}

/// The keys of `a` missing from `b`, each once.
fn missing_keys(a: &Vec<Vec<char>>, b: &Vec<Vec<char>>) -> (r: Vec<Vec<char>>)
    ensures
        views(r@) == missing(views(a@), views(b@)),
{
    proof {
        lemma_views_len(a@);
    }
    let ghost av = views(a@);
    let mut r: Vec<Vec<char>> = Vec::new();
    let mut i: usize = 0;
    while i < a.len()
        invariant
            i <= a@.len(),
            av == views(a@),
            av.len() == a@.len(),
            forall|q: int| 0 <= q < a@.len() ==> #[trigger] av[q] == a@[q]@,
            views(r@) == missing(av.take(i as int), views(b@)),
        decreases a@.len() - i,
    {
        assert(av.take(i + 1).drop_last() =~= av.take(i as int));
        assert(av.take(i + 1).last() == a@[i as int]@);
        let x = a[i].as_slice();
        if !contains_chars(b, x) && !contains_chars(&r, x) {
            let ghost before = r@;
            r.push(a[i].clone());
            proof {
                lemma_views_len(before);
                lemma_views_len(r@);
            }
            assert(views(r@) =~= views(before).push(x@));
        }
        i = i + 1;
    }
    assert(av.take(a@.len() as int) =~= av);
    r
}

fn string_items(v: &Vec<Vec<char>>) -> (r: Vec<Json>)
    ensures
        views_of(r@) == str_items(views(v@)),
{
    proof {
        lemma_views_len(v@);
    }
    let mut r: Vec<Json> = Vec::new();
    let mut i: usize = 0;
    while i < v.len()
        invariant
            i <= v@.len(),
            views(v@).len() == v@.len(),
            forall|q: int| 0 <= q < v@.len() ==> #[trigger] views(v@)[q] == v@[q]@,
            views_of(r@) == str_items(views(v@).take(i as int)),
        decreases v@.len() - i,
    {
        proof {
            lemma_views_of(r@);
        }
        let ghost before = views_of(r@);
        r.push(Json::Str(string_of(v[i].as_slice())));
        proof {
            lemma_views_of(r@);
            assert forall|k: int| 0 <= k <= i implies #[trigger] views_of(r@)[k] == str_items(
                views(v@).take(i + 1),
            )[k] by {
                if k < i {
                    assert(views_of(r@)[k] == before[k]);
                }
            }
        }
        i = i + 1;
        assert(views_of(r@) =~= str_items(views(v@).take(i as int)));
    }
    assert(views(v@).take(v@.len() as int) =~= views(v@));
    r
}

fn differing_keys(ks: &Vec<Vec<char>>, oe: &Vec<(String, Json)>, de: &Vec<(String, Json)>) -> (r:
    Vec<Vec<char>>)
    ensures
        views(r@) == differing(views(ks@), entry_views_of(oe@), entry_views_of(de@)),
{
    proof {
        lemma_views_len(ks@);
    }
    let ghost kv = views(ks@);
    let mut r: Vec<Vec<char>> = Vec::new();
    let mut i: usize = 0;
    while i < ks.len()
        invariant
            i <= ks@.len(),
            kv == views(ks@),
            kv.len() == ks@.len(),
            forall|q: int| 0 <= q < ks@.len() ==> #[trigger] kv[q] == ks@[q]@,
            views(r@) == differing(kv.take(i as int), entry_views_of(oe@), entry_views_of(de@)),
        decreases ks@.len() - i,
    {
        assert(kv.take(i + 1).drop_last() =~= kv.take(i as int));
        assert(kv.take(i + 1).last() == ks@[i as int]@);
        let k = string_of(ks[i].as_slice());
        match (entries_get(oe, k.as_str()), entries_get(de, k.as_str())) {
            (Some(a), Some(b)) => {
                if !json_equal(a, b) {
                    let ghost before = r@;
                    r.push(ks[i].clone());
                    proof {
                        lemma_views_len(before);
                        lemma_views_len(r@);
                    }
                    assert(views(r@) =~= views(before).push(ks@[i as int]@));
                }
            },
            _ => {},
        }
        i = i + 1;
    }
    assert(kv.take(ks@.len() as int) =~= kv);
    r
}

/// Whether the report on two values shows previews of their texts: the
/// values differ and are not both objects.
pub open spec fn shows_previews(ohm: JsonV, data: JsonV) -> bool {
    !json_eq(ohm, data) && !(ohm is Object && data is Object)
}

pub fn previews_shown(ohm_value: &Json, data_value: &Json) -> (r: bool)
    ensures
        r == shows_previews(ohm_value@, data_value@),
{
    if json_equal(ohm_value, data_value) {
        return false;
    }
    match (ohm_value, data_value) {
        (Json::Object(_), Json::Object(_)) => false,
        _ => true,
    }
}

/// The `/compare` report; `ohm_text` and `raw_text` are the two values
/// serialised, used for the previews.  Where previews are shown, a preview
/// cut at 1024 bytes must fall on a character boundary.
pub fn compare_raw(ohm_value: &Json, data_value: &Json, ohm_text: &str, raw_text: &str) -> (r:
    Json)
    requires
        shows_previews(ohm_value@, data_value@) ==> is_boundary(ohm_text@, 1024),
        shows_previews(ohm_value@, data_value@) ==> is_boundary(raw_text@, 1024),
    ensures
        r@ == compare_report(ohm_value@, data_value@, ohm_text@, raw_text@),
{
    if json_equal(ohm_value, data_value) {
        let mut e: Vec<(String, Json)> = Vec::new();
        e.push((owned("equal"), Json::Bool(true)));
        proof {
            lemma_entry_views_of(e@);
        }
        assert(entry_views_of(e@) =~= seq![("equal"@, JsonV::Bool(true))]);
        return Json::Object(e);
    }
    match (ohm_value, data_value) {
        (Json::Object(oe), Json::Object(de)) => {
            proof {
                lemma_entry_views_of(oe@);
                lemma_entry_views_of(de@);
            }
            let ok = entry_keys(oe);
            let dk = entry_keys(de);
            let none: Vec<Vec<char>> = Vec::new();
            assert(views(none@) =~= Seq::<Seq<char>>::empty());
            let ko = missing_keys(&ok, &none);
            let diff = differing_keys(&ko, oe, de);
            let only_o = missing_keys(&ok, &dk);
            let only_d = missing_keys(&dk, &ok);
            let mut e: Vec<(String, Json)> = Vec::new();
            e.push((owned("differing_keys"), Json::Array(string_items(&diff))));
            e.push((owned("equal"), Json::Bool(false)));
            e.push((owned("ohm_top_keys_count"), number_json(oe.len())));
            e.push((owned("only_in_ohm"), Json::Array(string_items(&only_o))));
            e.push((owned("only_in_raw"), Json::Array(string_items(&only_d))));
            e.push((owned("raw_top_keys_count"), number_json(de.len())));
            proof {
                lemma_entry_views_of(e@);
            }
            assert(entry_views_of(e@) =~= compare_report(
                ohm_value@,
                data_value@,
                ohm_text@,
                raw_text@,
            )->Object_0);
            Json::Object(e)
        },
        _ => {
            let mut e: Vec<(String, Json)> = Vec::new();
            e.push((owned("equal"), Json::Bool(false)));
            e.push((owned("ohm_preview"), Json::Str(truncate_preview(ohm_text))));
            e.push((owned("ohm_type"), Json::Str(owned(kind_name_exec(ohm_value)))));
            e.push((owned("raw_preview"), Json::Str(truncate_preview(raw_text))));
            e.push((owned("raw_type"), Json::Str(owned(kind_name_exec(data_value)))));
            proof {
                lemma_entry_views_of(e@);
            }
            assert(entry_views_of(e@) =~= compare_report(
                ohm_value@,
                data_value@,
                ohm_text@,
                raw_text@,
            )->Object_0);
            Json::Object(e)
        },
    }
}

// ---------------------------------------------------------------------------
// Laws
// ---------------------------------------------------------------------------

/// Every value equals itself.
pub proof fn lemma_json_eq_refl(a: JsonV)
    ensures
        json_eq(a, a),
    decreases a,
{
    match a {
        JsonV::Array(x) => lemma_items_eq_refl(x),
        JsonV::Object(x) => lemma_entries_eq_refl(x),
        _ => {},
    }
}

proof fn lemma_items_eq_refl(x: Seq<JsonV>)
    ensures
        items_eq(x, x),
    decreases x,
{
    if x.len() > 0 {
        lemma_items_eq_refl(x.subrange(0, x.len() - 1));
        lemma_json_eq_refl(x[x.len() - 1]);
    }
}

proof fn lemma_entries_eq_refl(x: Seq<(Seq<char>, JsonV)>)
    ensures
        entries_eq(x, x),
    decreases x,
{
    if x.len() > 0 {
        lemma_entries_eq_refl(x.subrange(0, x.len() - 1));
        lemma_json_eq_refl(x[x.len() - 1].1);
    }
}

/// Comparing the live raw data with an identical OHM export reports them
/// equal.
pub proof fn lemma_compare_identical(j: JsonV, text: Seq<char>)
    ensures
        compare_report(j, j, text, text) == JsonV::Object(seq![("equal"@, JsonV::Bool(true))]),
{
    lemma_json_eq_refl(j);
}


/// An entry of `missing(a, b)` is in `a` and not in `b`, and every entry of
/// `a` not in `b` is listed.
proof fn lemma_missing_members(a: Seq<Seq<char>>, b: Seq<Seq<char>>)
    ensures
        forall|x: Seq<char>| #[trigger] missing(a, b).contains(x) ==> a.contains(x) && !b.contains(x),
        forall|x: Seq<char>| a.contains(x) && !b.contains(x) ==> #[trigger] missing(a, b).contains(x),
    decreases a.len(),
{
    if a.len() > 0 {
        let p = a.drop_last();
        lemma_missing_members(p, b);
        assert forall|x: Seq<char>| #[trigger] missing(a, b).contains(x) implies a.contains(x)
            && !b.contains(x) by {
            if missing(p, b).contains(x) {
                let i = choose|i: int| 0 <= i < p.len() && p[i] == x;
                assert(a[i] == x);
            } else {
                assert(x == a.last());
                assert(a[a.len() - 1] == x);
            }
        }
        assert forall|x: Seq<char>| a.contains(x) && !b.contains(x) implies #[trigger] missing(
            a,
            b,
        ).contains(x) by {
            let i = choose|i: int| 0 <= i < a.len() && a[i] == x;
            let prev = missing(p, b);
            if i < a.len() - 1 {
                assert(p[i] == x);
                assert(p.contains(x));
            }
            if prev.contains(x) {
                let j = choose|j: int| 0 <= j < prev.len() && prev[j] == x;
                if !(b.contains(a.last()) || prev.contains(a.last())) {
                    assert(prev.push(a.last())[j] == x);
                }
            } else {
                assert(x == a.last());
                assert(missing(a, b) == prev.push(x));
                assert(missing(a, b)[prev.len() as int] == x);
            }
        }
    }
}

proof fn lemma_keys_of_lookup(e: Seq<(Seq<char>, JsonV)>)
    ensures
        forall|k: Seq<char>| #[trigger] keys_of(e).contains(k) <==> lookup(e, k) is Some,
{
    assert forall|k: Seq<char>| #[trigger] keys_of(e).contains(k) <==> lookup(e, k) is Some by {
        crate::json::lemma_lookup_index(e, k);
        if keys_of(e).contains(k) {
            let i = choose|i: int| 0 <= i < keys_of(e).len() && keys_of(e)[i] == k;
            assert(e[i].0 == k);
        }
        if lookup(e, k) is Some {
            let i = choose|i: int| 0 <= i < e.len() && #[trigger] e[i].0 == k;
            assert(keys_of(e)[i] == k);
        }
    }
}

/// For two objects that differ, `only_in_ohm` lists exactly the keys the
/// OHM object has and the raw object lacks, and `only_in_raw` exactly the
/// keys the raw object has and the OHM object lacks.
pub proof fn lemma_compare_one_side_keys(
    oe: Seq<(Seq<char>, JsonV)>,
    de: Seq<(Seq<char>, JsonV)>,
    ohm_text: Seq<char>,
    raw_text: Seq<char>,
)
    requires
        !json_eq(JsonV::Object(oe), JsonV::Object(de)),
    ensures
        ({
            let r = compare_report(JsonV::Object(oe), JsonV::Object(de), ohm_text, raw_text)->Object_0;
            &&& r[3].0 == "only_in_ohm"@
            &&& r[4].0 == "only_in_raw"@
            &&& r[3].1 matches JsonV::Array(a) && (forall|i: int|
                0 <= i < a.len() ==> ((#[trigger] a[i]) matches JsonV::Str(k) && lookup(oe, k) is Some
                    && lookup(de, k) is None)) && (forall|k: Seq<char>|
                lookup(oe, k) is Some && lookup(de, k) is None ==> #[trigger] a.contains(
                    JsonV::Str(k),
                ))
            &&& r[4].1 matches JsonV::Array(b) && (forall|i: int|
                0 <= i < b.len() ==> ((#[trigger] b[i]) matches JsonV::Str(k) && lookup(de, k) is Some
                    && lookup(oe, k) is None)) && (forall|k: Seq<char>|
                lookup(de, k) is Some && lookup(oe, k) is None ==> #[trigger] b.contains(
                    JsonV::Str(k),
                ))
        }),
{
    let ok = keys_of(oe);
    let dk = keys_of(de);
    lemma_keys_of_lookup(oe);
    lemma_keys_of_lookup(de);
    lemma_missing_members(ok, dk);
    lemma_missing_members(dk, ok);
    let mo = missing(ok, dk);
    let md = missing(dk, ok);
    let a = str_items(mo);
    let b = str_items(md);
    assert forall|i: int| 0 <= i < a.len() implies ((#[trigger] a[i]) matches JsonV::Str(k) && lookup(
        oe,
        k,
    ) is Some && lookup(de, k) is None) by {
        assert(mo.contains(mo[i]));
    }
    assert forall|k: Seq<char>| lookup(oe, k) is Some && lookup(de, k) is None implies #[trigger] a.contains(
        JsonV::Str(k),
    ) by {
        assert(ok.contains(k) && !dk.contains(k));
        assert(mo.contains(k));
        let i = choose|i: int| 0 <= i < mo.len() && mo[i] == k;
        assert(a[i] == JsonV::Str(k));
    }
    assert forall|i: int| 0 <= i < b.len() implies ((#[trigger] b[i]) matches JsonV::Str(k) && lookup(
        de,
        k,
    ) is Some && lookup(oe, k) is None) by {
        assert(md.contains(md[i]));
    }
    assert forall|k: Seq<char>| lookup(de, k) is Some && lookup(oe, k) is None implies #[trigger] b.contains(
        JsonV::Str(k),
    ) by {
        assert(dk.contains(k) && !ok.contains(k));
        assert(md.contains(k));
        let i = choose|i: int| 0 <= i < md.len() && md[i] == k;
        assert(b[i] == JsonV::Str(k));
    }
}

} // verus!
