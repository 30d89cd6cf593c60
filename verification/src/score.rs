//! How well a hwmon reading matches an OHM sensor: device hints from the
//! hwmon `name`, label matches from the `*_label` files, and channel numbers.
use vstd::prelude::*;
use crate::names::{
    expected_channel, expected_sysfs_channel, family_view, channel_fits, path_matches_type,
    sensor_type_key, sysfs_path_matches_sensor_type, sysfs_value_family, type_key, value_family,
};
use crate::text::{
    ascii_alpha, ascii_digit, chars_eq, chars_of, contains, contains_exec, contains_str,
    decimal, decimal_exec, eq_str, is_ascii_alpha, is_ascii_digit, normalize, normalize_chars,
    normalized, parse_usize, parse_usize_exec, split_whitespace, starts_with, starts_with_str,
    views, ws_tokens, is_white_space, lemma_ws_tokens_nonempty,
};

verus! {

/// The label lengths for which score arithmetic stays within `usize`: a
/// label of `n` characters has at most `n` tokens, and a score adds up to
/// `12` per token to a bounded rest (below 1000), so `12 * n + 1000` must
/// not pass `usize::MAX`.
pub open spec fn label_fits(text: Seq<char>) -> bool {
    12 * text.len() + 1000 <= usize::MAX
}

/// The key/value pairs of hwmon metadata as character sequences.
pub open spec fn pairs(m: Seq<(String, String)>) -> Seq<(Seq<char>, Seq<char>)> {
    m.map_values(|e: (String, String)| (e.0@, e.1@))
}

/// The value of the first entry with the given key.
pub open spec fn find_value(m: Seq<(Seq<char>, Seq<char>)>, key: Seq<char>) -> Option<Seq<char>>
    decreases m.len(),
{
    if m.len() == 0 {
        None
    } else if m[0].0 == key {
        Some(m[0].1)
    } else {
        find_value(m.drop_first(), key)
    }
}

pub fn find_meta_value<'a>(meta: &'a [(String, String)], key: &str) -> (r: Option<&'a String>)
    ensures
        r matches Some(v) ==> find_value(pairs(meta@), key@) == Some(v@),
        r is None ==> find_value(pairs(meta@), key@) is None,
{
    let ghost p = pairs(meta@);
    let mut i: usize = 0;
    assert(p.skip(0) =~= p);
    while i < meta.len()
        invariant
            i <= meta@.len(),
            p == pairs(meta@),
            find_value(p, key@) == find_value(p.skip(i as int), key@),
        decreases meta@.len() - i,
    {
        let k = chars_of(meta[i].0.as_str());
        assert(p.skip(i as int)[0] == (meta@[i as int].0@, meta@[i as int].1@));
        if eq_str(k.as_slice(), key) {
            return Some(&meta[i].1);
        }
        assert(p.skip(i as int).drop_first() =~= p.skip(i + 1));
        i = i + 1;
    }
    None
}

/// The normalised `name` of a hwmon device, empty when it has none.
pub open spec fn device_name(m: Seq<(Seq<char>, Seq<char>)>) -> Seq<char> {
    match find_value(m, "name"@) {
        Some(v) => normalized(v),
        None => Seq::empty(),
    }
}

/// The position of an LPC super-I/O chip among identical hwmon devices.
pub open spec fn lpc_rank(id: Seq<char>) -> Option<usize> {
    if starts_with(id, "/lpc/it8688e/"@) {
        Some(1)
    } else if starts_with(id, "/lpc/it8792e/"@) {
        Some(2)
    } else {
        None
    }
}

pub fn lpc_expected_device_rank(sensor_id: &str) -> (r: Option<usize>)
    ensures
        r == lpc_rank(sensor_id@),
{
    let c = chars_of(sensor_id);
    if starts_with_str(c.as_slice(), "/lpc/it8688e/") {
        return Some(1);
    }
    if starts_with_str(c.as_slice(), "/lpc/it8792e/") {
        return Some(2);
    }
    None
}

/// Bonus for a hwmon device whose name fits the OHM hardware subtree.
pub open spec fn device_hint(id: Seq<char>, m: Seq<(Seq<char>, Seq<char>)>) -> nat {
    let name = device_name(m);
    if starts_with(id, "/gpu-amd/"@) && contains(name, "amdgpu"@) {
        40
    } else if starts_with(id, "/usbhid/"@) && contains(name, "octo"@) {
        35
    } else if starts_with(id, "/lpc/"@) && contains(name, "it"@) {
        let rank = match find_value(m, "device_rank"@) {
            Some(v) => parse_usize(v),
            None => None,
        };
        let bonus: nat = match (lpc_rank(id), rank) {
            (Some(e), Some(a)) => if e == a {
                25
            } else {
                0
            },
            _ => 0,
        };
        25 + bonus
    } else if starts_with(id, "/amdcpu/"@) && contains(name, "k10temp"@) {
        30
    } else if starts_with(id, "/memory"@) && contains(name, "jc42"@) {
        30
    } else if starts_with(id, "/nvme/"@) && contains(name, "nvme"@) {
        30
    } else {
        0
    }
}

pub fn sensor_device_hint_score(sensor_id: &str, meta: &[(String, String)]) -> (r: usize)
    ensures
        r == device_hint(sensor_id@, pairs(meta@)),
{
    let name: Vec<char> = match find_meta_value(meta, "name") {
        Some(v) => normalize(v.as_str()),
        None => Vec::new(),
    };
    proof {
        assert(name@ == device_name(pairs(meta@))) by {
            if find_value(pairs(meta@), "name"@) is None {
                assert(name@ =~= Seq::<char>::empty());
            }
        }
    }
    let id = chars_of(sensor_id);
    let ids = id.as_slice();
    let n = name.as_slice();
    if starts_with_str(ids, "/gpu-amd/") && contains_str(n, "amdgpu") {
        return 40;
    }
    if starts_with_str(ids, "/usbhid/") && contains_str(n, "octo") {
        return 35;
    }
    if starts_with_str(ids, "/lpc/") && contains_str(n, "it") {
        let rank: Option<usize> = match find_meta_value(meta, "device_rank") {
            Some(v) => {
                let vc = chars_of(v.as_str());
                parse_usize_exec(vc.as_slice())
            },
            None => None,
        };
        let bonus: usize = match (lpc_expected_device_rank(sensor_id), rank) {
            (Some(e), Some(a)) => if e == a {
                25
            } else {
                0
            },
            _ => 0,
        };
        return 25 + bonus;
    }
    if starts_with_str(ids, "/amdcpu/") && contains_str(n, "k10temp") {
        return 30;
    }
    if starts_with_str(ids, "/memory") && contains_str(n, "jc42") {
        return 30;
    }
    if starts_with_str(ids, "/nvme/") && contains_str(n, "nvme") {
        return 30;
    }
    0
}

/// The ASCII digits of a text, in order.
pub open spec fn ascii_digits_of(s: Seq<char>) -> Seq<char>
    decreases s.len(),
{
    if s.len() == 0 {
        Seq::empty()
    } else if is_ascii_digit(s.last()) {
        ascii_digits_of(s.drop_last()).push(s.last())
    } else {
        ascii_digits_of(s.drop_last())
    }
}

/// All ASCII digits of a text read as one number (`Core #12` gives 12).
pub open spec fn first_number(s: Seq<char>) -> Option<usize> {
    let d = ascii_digits_of(s);
    if d.len() == 0 {
        None
    } else {
        parse_usize(d)
    }
}

pub fn first_number_in_text(text: &str) -> (r: Option<usize>)
    ensures
        r == first_number(text@),
{
    let s = chars_of(text);
    let mut d: Vec<char> = Vec::new();
    let mut i: usize = 0;
    while i < s.len()
        invariant
            i <= s@.len(),
            s@ == text@,
            d@ == ascii_digits_of(s@.take(i as int)),
        decreases s@.len() - i,
    {
        assert(s@.take(i + 1).drop_last() =~= s@.take(i as int));
        if ascii_digit(s[i]) {
            d.push(s[i]);
        }
        i = i + 1;
    }
    assert(s@.take(s@.len() as int) =~= s@);
    if d.len() == 0 {
        None
    } else {
        parse_usize_exec(d.as_slice())
    }
}

/// Extra label spellings a sensor answers to: AMD GPUs report package power
/// as `PPT` in hwmon.
pub open spec fn aliases(id: Seq<char>, text: Seq<char>, t: Seq<char>) -> Seq<Seq<char>> {
    if starts_with(id, "/gpu-amd/"@) && type_key(t) == "power"@ && contains(
        normalized(text),
        "package"@,
    ) {
        seq!["ppt"@]
    } else {
        Seq::empty()
    }
}

pub fn label_aliases(sensor_id: &str, text: &str, sensor_type: &str) -> (r: Vec<&'static str>)
    ensures
        r@.map_values(|s: &str| s@) == aliases(sensor_id@, text@, sensor_type@),
{
    let tn = normalize(text);
    let id = chars_of(sensor_id);
    let k = sensor_type_key(sensor_type);
    let mut r: Vec<&'static str> = Vec::new();
    if starts_with_str(id.as_slice(), "/gpu-amd/") && eq_str(k.as_slice(), "power")
        && contains_str(tn.as_slice(), "package") {
        r.push("ppt");
    }
    assert(r@.map_values(|s: &str| s@) =~= aliases(sensor_id@, text@, sensor_type@));
    r
}

/// Each whitespace token, lowercased with only alphanumerics kept.
pub open spec fn normalize_all(toks: Seq<Seq<char>>) -> Seq<Seq<char>>
    decreases toks.len(),
{
    if toks.len() == 0 {
        Seq::empty()
    } else {
        normalize_all(toks.drop_last()).push(normalized(toks.last()))
    }
}

pub open spec fn has_ascii_alpha(s: Seq<char>) -> bool {
    exists|i: int| 0 <= i < s.len() && is_ascii_alpha(#[trigger] s[i])
}

pub open spec fn keep_alpha_tokens(toks: Seq<Seq<char>>) -> Seq<Seq<char>>
    decreases toks.len(),
{
    if toks.len() == 0 {
        Seq::empty()
    } else if has_ascii_alpha(toks.last()) {
        keep_alpha_tokens(toks.drop_last()).push(toks.last())
    } else {
        keep_alpha_tokens(toks.drop_last())
    }
}

/// `normalize_tokens`: the normalised whitespace tokens of a text.
pub open spec fn token_norms(text: Seq<char>) -> Seq<Seq<char>> {
    normalize_all(ws_tokens(text))
}

/// The normalised tokens of a text that contain an ASCII letter.
pub open spec fn semantic(text: Seq<char>) -> Seq<Seq<char>> {
    keep_alpha_tokens(token_norms(text))
}

proof fn lemma_ws_tokens_len(s: Seq<char>)
    ensures
        ws_tokens(s).len() <= s.len(),
    decreases s.len(),
{
    if s.len() > 0 {
        lemma_ws_tokens_len(s.drop_last());
        if s.len() >= 2 && !is_white_space(s[s.len() - 2]) {
            lemma_ws_tokens_nonempty(s.drop_last());
        }
    }
}

proof fn lemma_normalize_all_len(t: Seq<Seq<char>>)
    ensures
        normalize_all(t).len() == t.len(),
    decreases t.len(),
{
    if t.len() > 0 {
        lemma_normalize_all_len(t.drop_last());
    }
}

proof fn lemma_keep_alpha_len(t: Seq<Seq<char>>)
    ensures
        keep_alpha_tokens(t).len() <= t.len(),
    decreases t.len(),
{
    if t.len() > 0 {
        lemma_keep_alpha_len(t.drop_last());
    }
}

pub proof fn lemma_semantic_len(text: Seq<char>)
    ensures
        semantic(text).len() <= text.len(),
{
    lemma_ws_tokens_len(text);
    lemma_normalize_all_len(ws_tokens(text));
    lemma_keep_alpha_len(token_norms(text));
}

pub fn normalize_tokens(s: &str) -> (r: Vec<Vec<char>>)
    ensures
        views(r@) == token_norms(s@),
{
    let c = chars_of(s);
    let toks = split_whitespace(c.as_slice());
    let ghost tv = views(toks@);
    let mut r: Vec<Vec<char>> = Vec::new();
    let mut i: usize = 0;
    while i < toks.len()
        invariant
            i <= toks@.len(),
            tv == views(toks@),
            views(r@) == normalize_all(tv.take(i as int)),
        decreases toks@.len() - i,
    {
        assert(tv.take(i + 1).drop_last() =~= tv.take(i as int));
        let n = normalize_chars(toks[i].as_slice());
        r.push(n);
        i = i + 1;
        assert(views(r@) =~= normalize_all(tv.take(i as int)));
    }
    assert(tv.take(toks@.len() as int) =~= tv);
    r
}

fn has_ascii_alpha_exec(s: &[char]) -> (r: bool)
    ensures
        r == has_ascii_alpha(s@),
{
    let mut i: usize = 0;
    while i < s.len()
        invariant
            i <= s@.len(),
            forall|k: int| 0 <= k < i ==> !is_ascii_alpha(#[trigger] s@[k]),
        decreases s@.len() - i,
    {
        if ascii_alpha(s[i]) {
            return true;
        }
        i = i + 1;
    }
    false
}

pub fn semantic_tokens(text: &str) -> (r: Vec<Vec<char>>)
    ensures
        views(r@) == semantic(text@),
{
    let toks = normalize_tokens(text);
    let ghost tv = views(toks@);
    let mut r: Vec<Vec<char>> = Vec::new();
    let mut i: usize = 0;
    while i < toks.len()
        invariant
            i <= toks@.len(),
            tv == views(toks@),
            tv == token_norms(text@),
            views(r@) == keep_alpha_tokens(tv.take(i as int)),
        decreases toks@.len() - i,
    {
        assert(tv.take(i + 1).drop_last() =~= tv.take(i as int));
        assert(tv.take(i + 1).last() == toks@[i as int]@);
        if has_ascii_alpha_exec(toks[i].as_slice()) {
            let mut t: Vec<char> = Vec::new();
            let mut k: usize = 0;
            while k < toks[i].len()
                invariant
                    i < toks@.len(),
                    k <= toks@[i as int]@.len(),
                    t@ == toks@[i as int]@.take(k as int),
                decreases toks@[i as int]@.len() - k,
            {
                t.push(toks[i][k]);
                k = k + 1;
                assert(t@ =~= toks@[i as int]@.take(k as int));
            }
            assert(toks@[i as int]@.take(toks@[i as int]@.len() as int) =~= toks@[i as int]@);
            r.push(t);
            assert(views(r@) =~= keep_alpha_tokens(tv.take(i + 1)));
        }
        i = i + 1;
    }
    assert(tv.take(toks@.len() as int) =~= tv);
    r
}

/// Tokens found (as substrings) in a label's normalised value or key.
pub open spec fn token_hits(toks: Seq<Seq<char>>, v: Seq<char>, k: Seq<char>) -> nat
    decreases toks.len(),
{
    if toks.len() == 0 {
        0
    } else {
        let t = toks.last();
        token_hits(toks.drop_last(), v, k) + if t.len() > 0 && (contains(v, t) || contains(k, t)) {
            1nat
        } else {
            0nat
        }
    }
}

/// Aliases found in a label's normalised value or key.
pub open spec fn alias_hits(al: Seq<Seq<char>>, v: Seq<char>, k: Seq<char>) -> nat
    decreases al.len(),
{
    if al.len() == 0 {
        0
    } else {
        let a = al.last();
        alias_hits(al.drop_last(), v, k) + if contains(v, a) || contains(k, a) {
            1nat
        } else {
            0nat
        }
    }
}

proof fn lemma_token_hits_bound(toks: Seq<Seq<char>>, v: Seq<char>, k: Seq<char>)
    ensures
        token_hits(toks, v, k) <= toks.len(),
    decreases toks.len(),
{
    if toks.len() > 0 {
        lemma_token_hits_bound(toks.drop_last(), v, k);
    }
}

proof fn lemma_alias_hits_bound(al: Seq<Seq<char>>, v: Seq<char>, k: Seq<char>)
    ensures
        alias_hits(al, v, k) <= al.len(),
    decreases al.len(),
{
    if al.len() > 0 {
        lemma_alias_hits_bound(al.drop_last(), v, k);
    }
}

/// What a sensor brings to the comparison with one hwmon label entry.
pub struct LabelQuery {
    /// `<family><channel>_label`, the label file of the reading itself.
    pub label_key: Seq<char>,
    pub channel: usize,
    /// The number written in the sensor's text, if any.
    pub number_hint: Option<usize>,
    pub text_norm: Seq<char>,
    pub tokens: Seq<Seq<char>>,
    pub aliases: Seq<Seq<char>>,
    pub is_fan: bool,
}

/// Score of one metadata entry (`key`, `value`) for a sensor.
pub open spec fn entry_score(q: LabelQuery, key: Seq<char>, value: Seq<char>) -> nat {
    if key == "name"@ {
        0
    } else {
        let kn = normalized(key);
        let vn = normalized(value);
        let same = key == q.label_key;
        let channel_hit = q.number_hint == Some(q.channel);
        let contains_text = q.text_norm.len() > 0 && (contains(vn, q.text_norm) || contains(
            kn,
            q.text_norm,
        ));
        let th = token_hits(q.tokens, vn, kn);
        let ah = alias_hits(q.aliases, vn, kn);
        let semantic_match = contains_text || th > 0 || ah > 0;
        (if contains_text {
            if same {
                60nat
            } else {
                25nat
            }
        } else {
            0nat
        }) + th * (if same {
            12nat
        } else {
            5nat
        }) + ah * (if same {
            35nat
        } else {
            14nat
        }) + (if same && channel_hit && semantic_match {
            20nat
        } else {
            0nat
        }) + (if q.is_fan && same && channel_hit {
            10nat
        } else {
            0nat
        })
    }
}

/// The best entry score over the metadata.
pub open spec fn best_entry_score(q: LabelQuery, m: Seq<(Seq<char>, Seq<char>)>) -> nat
    decreases m.len(),
{
    if m.len() == 0 {
        0
    } else {
        let prev = best_entry_score(q, m.drop_last());
        let s = entry_score(q, m.last().0, m.last().1);
        if prev >= s {
            prev
        } else {
            s
        }
    }
}

pub open spec fn label_query(
    family: Seq<char>,
    channel: usize,
    id: Seq<char>,
    text: Seq<char>,
    t: Seq<char>,
) -> LabelQuery {
    LabelQuery {
        label_key: family + decimal(channel as nat) + "_label"@,
        channel,
        number_hint: first_number(text),
        text_norm: normalized(text),
        tokens: semantic(text),
        aliases: aliases(id, text, t),
        is_fan: type_key(t) == "fan"@,
    }
}

/// How strongly the labels of a hwmon device name the sensor: the best
/// score over its metadata entries, 0 when the path names no reading.
pub open spec fn label_score(
    path: Seq<char>,
    m: Seq<(Seq<char>, Seq<char>)>,
    id: Seq<char>,
    text: Seq<char>,
    t: Seq<char>,
) -> nat {
    match value_family(path) {
        Some((f, ch)) => best_entry_score(label_query(f, ch, id, text, t), m),
        None => 0,
    }
}

proof fn lemma_entry_score_bound(q: LabelQuery, key: Seq<char>, value: Seq<char>)
    requires
        12 * q.tokens.len() + 1000 <= usize::MAX,
        q.aliases.len() <= 1,
    ensures
        entry_score(q, key, value) <= 125 + 12 * q.tokens.len(),
{
    let kn = normalized(key);
    let vn = normalized(value);
    lemma_token_hits_bound(q.tokens, vn, kn);
    lemma_alias_hits_bound(q.aliases, vn, kn);
    let th = token_hits(q.tokens, vn, kn);
    let ah = alias_hits(q.aliases, vn, kn);
    assert(th * 12 <= 12 * q.tokens.len()) by (nonlinear_arith)
        requires
            th <= q.tokens.len(),
    ;
    assert(th * 5 <= 12 * q.tokens.len()) by (nonlinear_arith)
        requires
            th <= q.tokens.len(),
    ;
    assert(ah * 35 <= 35) by (nonlinear_arith)
        requires
            ah <= 1,
    ;
    assert(ah * 14 <= 35) by (nonlinear_arith)
        requires
            ah <= 1,
    ;
}

proof fn lemma_best_entry_bound(q: LabelQuery, m: Seq<(Seq<char>, Seq<char>)>)
    requires
        12 * q.tokens.len() + 1000 <= usize::MAX,
        q.aliases.len() <= 1,
    ensures
        best_entry_score(q, m) <= 125 + 12 * q.tokens.len(),
    decreases m.len(),
{
    if m.len() > 0 {
        lemma_best_entry_bound(q, m.drop_last());
        lemma_entry_score_bound(q, m.last().0, m.last().1);
    }
}

pub proof fn lemma_label_score_bound(
    path: Seq<char>,
    m: Seq<(Seq<char>, Seq<char>)>,
    id: Seq<char>,
    text: Seq<char>,
    t: Seq<char>,
)
    requires
        label_fits(text),
    ensures
        label_score(path, m, id, text, t) <= 125 + 12 * text.len(),
{
    lemma_semantic_len(text);
    if let Some((f, ch)) = value_family(path) {
        lemma_best_entry_bound(label_query(f, ch, id, text, t), m);
    }
}

fn count_token_hits(toks: &Vec<Vec<char>>, v: &[char], k: &[char]) -> (r: usize)
    requires
        12 * toks@.len() + 1000 <= usize::MAX,
    ensures
        r == token_hits(views(toks@), v@, k@),
{
    let ghost tv = views(toks@);
    let mut n: usize = 0;
    let mut i: usize = 0;
    while i < toks.len()
        invariant
            i <= toks@.len(),
            12 * toks@.len() + 1000 <= usize::MAX,
            tv == views(toks@),
            n == token_hits(tv.take(i as int), v@, k@),
        decreases toks@.len() - i,
    {
        assert(tv.take(i + 1).drop_last() =~= tv.take(i as int));
        assert(tv.take(i + 1).last() == toks@[i as int]@);
        proof {
            lemma_token_hits_bound(tv.take(i as int), v@, k@);
        }
        let t = toks[i].as_slice();
        if t.len() > 0 && (contains_exec(v, t) || contains_exec(k, t)) {
            n = n + 1;
        }
        i = i + 1;
    }
    assert(tv.take(toks@.len() as int) =~= tv);
    n
}

fn count_alias_hits(al: &Vec<&'static str>, v: &[char], k: &[char]) -> (r: usize)
    requires
        al@.len() <= 1,
    ensures
        r == alias_hits(al@.map_values(|s: &str| s@), v@, k@),
{
    let ghost av = al@.map_values(|s: &str| s@);
    let mut n: usize = 0;
    let mut i: usize = 0;
    while i < al.len()
        invariant
            i <= al@.len(),
            al@.len() <= 1,
            av == al@.map_values(|s: &str| s@),
            n == alias_hits(av.take(i as int), v@, k@),
        decreases al@.len() - i,
    {
        assert(av.take(i + 1).drop_last() =~= av.take(i as int));
        assert(av.take(i + 1).last() == al@[i as int]@);
        proof {
            lemma_alias_hits_bound(av.take(i as int), v@, k@);
        }
        let a = chars_of(al[i]);
        if contains_exec(v, a.as_slice()) || contains_exec(k, a.as_slice()) {
            n = n + 1;
        }
        i = i + 1;
    }
    assert(av.take(al@.len() as int) =~= av);
    n
}

pub fn related_label_score(
    path: &str,
    meta: &[(String, String)],
    sensor_id: &str,
    text: &str,
    sensor_type: &str,
) -> (r: usize)
    requires
        label_fits(text@),
    ensures
        r == label_score(path@, pairs(meta@), sensor_id@, text@, sensor_type@),
{
    let text_norm = normalize(text);
    let text_tokens = semantic_tokens(text);
    let al = label_aliases(sensor_id, text, sensor_type);
    let (family, channel) = match sysfs_value_family(path) {
        Some(p) => p,
        None => return 0,
    };
    let mut label_key = family.clone();
    let dec = decimal_exec(channel as u64);
    let mut j: usize = 0;
    while j < dec.len()
        invariant
            j <= dec@.len(),
            label_key@ == family@ + dec@.take(j as int),
        decreases dec@.len() - j,
    {
        label_key.push(dec[j]);
        j = j + 1;
        assert(label_key@ =~= family@ + dec@.take(j as int));
    }
    assert(dec@.take(dec@.len() as int) =~= dec@);
    let suffix = chars_of("_label");
    let mut j: usize = 0;
    let ghost base = label_key@;
    while j < suffix.len()
        invariant
            j <= suffix@.len(),
            label_key@ == base + suffix@.take(j as int),
        decreases suffix@.len() - j,
    {
        label_key.push(suffix[j]);
        j = j + 1;
        assert(label_key@ =~= base + suffix@.take(j as int));
    }
    assert(suffix@.take(suffix@.len() as int) =~= suffix@);
    let number_hint = first_number_in_text(text);
    let k = sensor_type_key(sensor_type);
    let is_fan = eq_str(k.as_slice(), "fan");
    let ghost q = label_query(family@, channel, sensor_id@, text@, sensor_type@);
    let ghost m = pairs(meta@);
    assert(q.label_key == label_key@);
    proof {
        lemma_semantic_len(text@);
        assert(q.aliases.len() <= 1);
    }
    let mut best: usize = 0;
    let mut i: usize = 0;
    while i < meta.len()
        invariant
            i <= meta@.len(),
            m == pairs(meta@),
            q.tokens == views(text_tokens@),
            12 * q.tokens.len() + 1000 <= usize::MAX,
            q.aliases == al@.map_values(|s: &str| s@),
            q.aliases.len() <= 1,
            q.text_norm == text_norm@,
            q.label_key == label_key@,
            q.channel == channel,
            q.number_hint == number_hint,
            q.is_fan == is_fan,
            best == best_entry_score(q, m.take(i as int)),
        decreases meta@.len() - i,
    {
        assert(m.take(i + 1).drop_last() =~= m.take(i as int));
        assert(m.take(i + 1).last() == (meta@[i as int].0@, meta@[i as int].1@));
        proof {
            lemma_best_entry_bound(q, m.take(i as int));
            lemma_entry_score_bound(q, meta@[i as int].0@, meta@[i as int].1@);
        }
        let key = chars_of(meta[i].0.as_str());
        let score: usize = if eq_str(key.as_slice(), "name") {
            0
        } else {
            let key_norm = normalize(meta[i].0.as_str());
            let value_norm = normalize(meta[i].1.as_str());
            let same = chars_eq(key.as_slice(), label_key.as_slice());
            let channel_hit = match number_hint {
                Some(n) => n == channel,
                None => false,
            };
            let contains_text = text_norm.len() > 0 && (contains_exec(
                value_norm.as_slice(),
                text_norm.as_slice(),
            ) || contains_exec(key_norm.as_slice(), text_norm.as_slice()));
            let th = count_token_hits(&text_tokens, value_norm.as_slice(), key_norm.as_slice());
            let ah = count_alias_hits(&al, value_norm.as_slice(), key_norm.as_slice());
            let semantic_match = contains_text || th > 0 || ah > 0;
            proof {
                lemma_token_hits_bound(q.tokens, value_norm@, key_norm@);
                lemma_alias_hits_bound(q.aliases, value_norm@, key_norm@);
            }
            let mut s: usize = 0;
            if contains_text {
                s = s + if same {
                    60
                } else {
                    25
                };
            }
            if th > 0 {
                s = s + th * if same {
                    12
                } else {
                    5
                };
            }
            if ah > 0 {
                s = s + ah * if same {
                    35
                } else {
                    14
                };
            }
            if same && channel_hit && semantic_match {
                s = s + 20;
            }
            if is_fan && same && channel_hit {
                s = s + 10;
            }
            s
        };
        assert(score == entry_score(q, meta@[i as int].0@, meta@[i as int].1@));
        if score > best {
            best = score;
        }
        i = i + 1;
    }
    assert(m.take(meta@.len() as int) =~= m);
    best
}

} // verus!
