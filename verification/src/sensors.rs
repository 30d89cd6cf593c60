//! Matching OHM sensors against the JSON that `sensors -j` prints: chips at
//! the top level, readings as number or string leaves below them.
use vstd::prelude::*;
use crate::json::{entry_views_of, json_get, lemma_entry_views_of, opt_view, Json, JsonV};
use crate::names::{
    expected_channel, expected_sysfs_channel, channel_fits, path_matches_type,
    sensor_type_key, sysfs_path_matches_sensor_type, sysfs_value_family, type_key, value_family,
};
use crate::score::{
    aliases, device_hint, label_aliases, label_fits, lemma_semantic_len, pairs, semantic,
    semantic_tokens, sensor_device_hint_score,
};
use crate::select::needs_label;
use crate::text::{
    chars_eq, chars_le, chars_of, contains, contains_exec, eq_str, lemma_seq_le_refl,
    lemma_seq_le_total, lemma_seq_le_trans, normalize, normalize_chars, normalized, seq_le,
    split_on, split_on_exec, split_whitespace, string_of, views, ws_tokens,
};

verus! {

/// `parts.join(sep)`.
pub open spec fn join(parts: Seq<Seq<char>>, sep: Seq<char>) -> Seq<char>
    decreases parts.len(),
{
    if parts.len() == 0 {
        Seq::empty()
    } else if parts.len() == 1 {
        parts[0]
    } else {
        join(parts.drop_last(), sep) + sep + parts.last()
    }
}

pub fn join_exec(parts: &Vec<String>, sep: &str) -> (r: Vec<char>)
    ensures
        r@ == join(parts.deep_view(), sep@),
{
    let ghost pv = parts.deep_view();
    let sc = chars_of(sep);
    let mut r: Vec<char> = Vec::new();
    let mut i: usize = 0;
    assert(r@ =~= join(pv.take(0), sep@));
    while i < parts.len()
        invariant
            i <= parts@.len(),
            pv == parts.deep_view(),
            pv.len() == parts@.len(),
            sc@ == sep@,
            r@ == join(pv.take(i as int), sep@),
        decreases parts@.len() - i,
    {
        assert(pv.take(i + 1).drop_last() =~= pv.take(i as int));
        assert(pv[i as int] == parts@[i as int]@);
        let ghost before = r@;
        if i > 0 {
            let mut k: usize = 0;
            while k < sc.len()
                invariant
                    k <= sc@.len(),
                    r@ == before + sc@.take(k as int),
                decreases sc@.len() - k,
            {
                r.push(sc[k]);
                k = k + 1;
                assert(r@ =~= before + sc@.take(k as int));
            }
            assert(sc@.take(sc@.len() as int) =~= sc@);
        }
        let ghost mid = r@;
        let pc = chars_of(parts[i].as_str());
        let mut k: usize = 0;
        while k < pc.len()
            invariant
                k <= pc@.len(),
                r@ == mid + pc@.take(k as int),
            decreases pc@.len() - k,
        {
            r.push(pc[k]);
            k = k + 1;
            assert(r@ =~= mid + pc@.take(k as int));
        }
        assert(pc@.take(pc@.len() as int) =~= pc@);
        i = i + 1;
        proof {
            if i == 1 {
                assert(r@ =~= join(pv.take(i as int), sep@));
            } else {
                assert(r@ =~= join(pv.take(i as int), sep@));
            }
        }
    }
    assert(pv.take(parts@.len() as int) =~= pv);
    r
}

/// Number of tokens found in the joined key path.
pub open spec fn tokens_in(toks: Seq<Seq<char>>, s: Seq<char>) -> nat
    decreases toks.len(),
{
    if toks.len() == 0 {
        0
    } else {
        tokens_in(toks.drop_last(), s) + if toks.last().len() > 0 && contains(s, toks.last()) {
            1nat
        } else {
            0nat
        }
    }
}

/// Number of aliases found in the joined key path.
pub open spec fn aliases_in(al: Seq<Seq<char>>, s: Seq<char>) -> nat
    decreases al.len(),
{
    if al.len() == 0 {
        0
    } else {
        aliases_in(al.drop_last(), s) + if contains(s, al.last()) {
            1nat
        } else {
            0nat
        }
    }
}

proof fn lemma_tokens_in_bound(toks: Seq<Seq<char>>, s: Seq<char>)
    ensures
        tokens_in(toks, s) <= toks.len(),
    decreases toks.len(),
{
    if toks.len() > 0 {
        lemma_tokens_in_bound(toks.drop_last(), s);
    }
}

proof fn lemma_aliases_in_bound(al: Seq<Seq<char>>, s: Seq<char>)
    ensures
        aliases_in(al, s) <= al.len(),
    decreases al.len(),
{
    if al.len() > 0 {
        lemma_aliases_in_bound(al.drop_last(), s);
    }
}

/// Score of a `sensors -j` reading at `path` below `chip`: 40 when the
/// whole normalised text occurs in the normalised path, 8 per token and 20
/// per alias found there, the device hint of the chip name, and 30 when the
/// reading's channel is the expected one.  No score for clocks, for a unit
/// family that does not fit, or for label-bound types without a hit.
pub open spec fn json_score(
    chip: Seq<char>,
    path: Seq<Seq<char>>,
    id: Seq<char>,
    text: Seq<char>,
    t: Seq<char>,
) -> Option<nat> {
    let key_path = join(path, "/"@);
    if type_key(t) == "clock"@ || !path_matches_type(key_path, t) {
        None
    } else {
        let joined = normalized(join(path, " "@));
        let tn = normalized(text);
        let th = tokens_in(semantic(text), joined);
        let ah = aliases_in(aliases(id, text, t), joined);
        let contains_text = tn.len() > 0 && contains(joined, tn);
        let bonus: nat = match (expected_channel(id, t), value_family(key_path)) {
            (Some(e), Some((_, a))) => if e == a {
                30
            } else {
                0
            },
            _ => 0,
        };
        if needs_label(type_key(t)) && !contains_text && th == 0 && ah == 0 {
            None
        } else {
            Some(
                (if contains_text {
                    40nat
                } else {
                    0nat
                }) + th * 8 + ah * 20 + device_hint(chip, seq![("name"@, chip)]) + bonus,
            )
        }
    }
}

pub fn score_sensors_json_candidate(
    chip: &str,
    path: &Vec<String>,
    sensor_id: &str,
    text: &str,
    sensor_type: &str,
) -> (r: Option<usize>)
    requires
        channel_fits(sensor_id@, sensor_type@),
        label_fits(text@),
    ensures
        r matches Some(s) ==> json_score(chip@, path.deep_view(), sensor_id@, text@, sensor_type@)
            == Some(s as nat),
        r is None ==> json_score(chip@, path.deep_view(), sensor_id@, text@, sensor_type@) is None,
{
    let k = sensor_type_key(sensor_type);
    if eq_str(k.as_slice(), "clock") {
        return None;
    }
    let key_path = string_of(join_exec(path, "/").as_slice());
    if !sysfs_path_matches_sensor_type(key_path.as_str(), sensor_type) {
        return None;
    }
    let joined = normalize_chars(join_exec(path, " ").as_slice());
    let text_norm = normalize(text);
    let toks = semantic_tokens(text);
    let al = label_aliases(sensor_id, text, sensor_type);
    proof {
        lemma_semantic_len(text@);
        lemma_tokens_in_bound(views(toks@), joined@);
        lemma_aliases_in_bound(al@.map_values(|s: &str| s@), joined@);
    }
    let ghost tv = views(toks@);
    let mut th: usize = 0;
    let mut i: usize = 0;
    while i < toks.len()
        invariant
            i <= toks@.len(),
            tv == views(toks@),
            12 * toks@.len() + 1000 <= usize::MAX,
            th == tokens_in(tv.take(i as int), joined@),
        decreases toks@.len() - i,
    {
        assert(tv.take(i + 1).drop_last() =~= tv.take(i as int));
        assert(tv.take(i + 1).last() == toks@[i as int]@);
        proof {
            lemma_tokens_in_bound(tv.take(i as int), joined@);
        }
        if toks[i].len() > 0 && contains_exec(joined.as_slice(), toks[i].as_slice()) {
            th = th + 1;
        }
        i = i + 1;
    }
    assert(tv.take(toks@.len() as int) =~= tv);
    let ghost av = al@.map_values(|s: &str| s@);
    let mut ah: usize = 0;
    let mut i: usize = 0;
    while i < al.len()
        invariant
            i <= al@.len(),
            al@.len() <= 1,
            av == al@.map_values(|s: &str| s@),
            ah == aliases_in(av.take(i as int), joined@),
        decreases al@.len() - i,
    {
        assert(av.take(i + 1).drop_last() =~= av.take(i as int));
        assert(av.take(i + 1).last() == al@[i as int]@);
        proof {
            lemma_aliases_in_bound(av.take(i as int), joined@);
        }
        let a = chars_of(al[i]);
        if contains_exec(joined.as_slice(), a.as_slice()) {
            ah = ah + 1;
        }
        i = i + 1;
    }
    assert(av.take(al@.len() as int) =~= av);
    let contains_text = text_norm.len() > 0 && contains_exec(
        joined.as_slice(),
        text_norm.as_slice(),
    );
    let mut score: usize = 0;
    if contains_text {
        score = score + 40;
    }
    if th > 0 {
        score = score + th * 8;
    }
    if ah > 0 {
        score = score + ah * 20;
    }
    let name_meta: Vec<(String, String)> = vec![
        (string_of(chars_of("name").as_slice()), string_of(chars_of(chip).as_slice())),
    ];
    assert(pairs(name_meta@) =~= seq![("name"@, chip@)]);
    let dh = sensor_device_hint_score(chip, name_meta.as_slice());
    assert(dh <= 50);
    score = score + dh;
    match (expected_sysfs_channel(sensor_id, sensor_type), sysfs_value_family(key_path.as_str())) {
        (Some(expected), Some((_, actual))) => {
            if expected == actual {
                score = score + 30;
            }
        },
        _ => {},
    }
    let needs = eq_str(k.as_slice(), "power") || eq_str(k.as_slice(), "load") || eq_str(
        k.as_slice(),
        "throughput",
    ) || eq_str(k.as_slice(), "data") || eq_str(k.as_slice(), "smalldata") || eq_str(
        k.as_slice(),
        "timing",
    ) || eq_str(k.as_slice(), "factor");
    if needs && !contains_text && th == 0 && ah == 0 {
        return None;
    }
    Some(score)
}

/// The key paths of the number and string leaves below a value, each
/// extending `prefix`, in document order.
pub open spec fn leaf_paths(j: JsonV, prefix: Seq<Seq<char>>) -> Seq<Seq<Seq<char>>>
    decreases j,
{
    match j {
        JsonV::Object(e) => entry_leaf_paths(e, prefix),
        JsonV::Number(_) => seq![prefix],
        JsonV::Str(_) => seq![prefix],
        _ => Seq::empty(),
    }
}

pub open spec fn entry_leaf_paths(e: Seq<(Seq<char>, JsonV)>, prefix: Seq<Seq<char>>) -> Seq<
    Seq<Seq<char>>,
>
    decreases e,
{
    if e.len() == 0 {
        Seq::empty()
    } else {
        entry_leaf_paths(e.subrange(0, e.len() - 1), prefix) + leaf_paths(
            e[e.len() - 1].1,
            prefix.push(e[e.len() - 1].0),
        )
    }
}

pub open spec fn path_views(v: Seq<Vec<String>>) -> Seq<Seq<Seq<char>>> {
    v.map_values(|p: Vec<String>| p.deep_view())
}

#[verifier::loop_isolation(false)]
fn collect_leaf_paths(j: &Json, prefix: &Vec<String>, out: &mut Vec<Vec<String>>)
    ensures
        path_views(final(out)@) == path_views(old(out)@) + leaf_paths(j@, prefix.deep_view()),
    decreases j,
{
    match j {
        Json::Number(_) | Json::Str(_) => {
            let p = prefix.clone();
            assert(p.deep_view() =~= prefix.deep_view());
            let ghost before = path_views(out@);
            out.push(p);
            assert(path_views(out@) =~= before + leaf_paths(j@, prefix.deep_view()));
        },
        Json::Object(e) => {
            proof {
                lemma_entry_views_of(e@);
            }
            let ghost ev = entry_views_of(e@);
            let ghost start = path_views(out@);
            let mut i: usize = 0;
            assert(ev.subrange(0, 0) =~= Seq::<(Seq<char>, JsonV)>::empty());
            assert(path_views(out@) =~= start + entry_leaf_paths(ev.subrange(0, 0), prefix.deep_view()));
            while i < e.len()
                invariant
                    i <= e@.len(),
                    ev == entry_views_of(e@),
                    ev.len() == e@.len(),
                    path_views(out@) == start + entry_leaf_paths(
                        ev.subrange(0, i as int),
                        prefix.deep_view(),
                    ),
                decreases e@.len() - i,
            {
                proof {
                    assert(decreases_to!(*j => j->Object_0));
                    assert(decreases_to!(*e => e@));
                    assert(decreases_to!(e@ => e@[i as int]));
                    assert(decreases_to!(e@[i as int] => e@[i as int].1));
                }
                let mut child = prefix.clone();
                child.push(e[i].0.clone());
                assert(child.deep_view() =~= prefix.deep_view().push(e@[i as int].0@));
                let ghost mid = path_views(out@);
                collect_leaf_paths(&e[i].1, &child, out);
                assert(ev[i as int] == (e@[i as int].0@, e@[i as int].1@));
                assert(ev.subrange(0, i + 1).subrange(0, i as int) =~= ev.subrange(0, i as int));
                i = i + 1;
                assert(path_views(out@) =~= start + entry_leaf_paths(
                    ev.subrange(0, i as int),
                    prefix.deep_view(),
                ));
            }
            assert(ev.subrange(0, e@.len() as int) =~= ev);
        },
        _ => {
            assert(path_views(out@) =~= path_views(out@) + leaf_paths(j@, prefix.deep_view()));
        },
    }
}

proof fn lemma_json_score_bound(
    chip: Seq<char>,
    path: Seq<Seq<char>>,
    id: Seq<char>,
    text: Seq<char>,
    t: Seq<char>,
)
    requires
        label_fits(text),
    ensures
        json_score(chip, path, id, text, t) matches Some(s) ==> s + 100 <= usize::MAX,
{
    lemma_semantic_len(text);
    let joined = normalized(join(path, " "@));
    lemma_tokens_in_bound(semantic(text), joined);
    lemma_aliases_in_bound(aliases(id, text, t), joined);
}

/// Score of a leaf with the extra 20 for a matching channel that the search
/// adds on top of the candidate score.
pub open spec fn leaf_score(
    chip: Seq<char>,
    path: Seq<Seq<char>>,
    id: Seq<char>,
    text: Seq<char>,
    t: Seq<char>,
) -> Option<nat> {
    match json_score(chip, path, id, text, t) {
        None => None,
        Some(s) => Some(
            s + match (expected_channel(id, t), value_family(join(path, "/"@))) {
                (Some(e), Some((_, a))) => if e == a {
                    20nat
                } else {
                    0nat
                },
                _ => 0nat,
            },
        ),
    }
}

/// Lexicographic order of (chip, key) pairs.
pub open spec fn pair_le(a: (Seq<char>, Seq<char>), b: (Seq<char>, Seq<char>)) -> bool {
    (seq_le(a.0, b.0) && a.0 != b.0) || (a.0 == b.0 && seq_le(a.1, b.1))
}

proof fn lemma_pair_le(a: (Seq<char>, Seq<char>), b: (Seq<char>, Seq<char>), c: (Seq<char>, Seq<char>))
    ensures
        pair_le(a, a),
        pair_le(a, b) || pair_le(b, a),
        pair_le(a, b) && pair_le(b, c) ==> pair_le(a, c),
{
    lemma_seq_le_refl(a.1);
    lemma_seq_le_total(a.0, b.0);
    lemma_seq_le_total(a.1, b.1);
    lemma_seq_le_total(b.0, c.0);
    lemma_seq_le_total(a.0, c.0);
    if pair_le(a, b) && pair_le(b, c) {
        if a.0 == b.0 && b.0 == c.0 {
            lemma_seq_le_trans(a.1, b.1, c.1);
        } else {
            lemma_seq_le_trans(a.0, b.0, c.0);
        }
    }
}

/// A reading below `chip` at key path `path` in a `sensors -j` document.
pub open spec fn is_candidate(
    e: Seq<(Seq<char>, JsonV)>,
    chip: Seq<char>,
    path: Seq<Seq<char>>,
) -> bool {
    exists|i: int| 0 <= i < e.len() && e[i].0 == chip && #[trigger] leaf_paths(e[i].1, Seq::empty()).contains(path)
}

/// `best` (score, chip, key) is at least as good as the candidate.
pub open spec fn dominates(
    best: (nat, Seq<char>, Seq<char>),
    chip: Seq<char>,
    path: Seq<Seq<char>>,
    id: Seq<char>,
    text: Seq<char>,
    t: Seq<char>,
) -> bool {
    match leaf_score(chip, path, id, text, t) {
        None => true,
        Some(s) => s < best.0 || (s == best.0 && pair_le((best.1, best.2), (chip, join(path, "/"@)))),
    }
}

/// `chip` and `key` name a candidate that dominates every candidate.
pub open spec fn is_best_leaf(
    e: Seq<(Seq<char>, JsonV)>,
    chip: Seq<char>,
    key: Seq<char>,
    id: Seq<char>,
    text: Seq<char>,
    t: Seq<char>,
) -> bool {
    exists|p: Seq<Seq<char>>|
        #![trigger is_candidate(e, chip, p)]
        is_candidate(e, chip, p) && key == join(p, "/"@) && match leaf_score(chip, p, id, text, t) {
            Some(s) => forall|c2: Seq<char>, p2: Seq<Seq<char>>|
                #[trigger] is_candidate(e, c2, p2) ==> dominates((s, chip, key), c2, p2, id, text, t),
            None => false,
        }
}

/// Finds the `sensors -j` reading that best matches a sensor: the highest
/// score, ties broken by the smallest (chip, key path) pair.  Returns the
/// chip and the `/`-joined key path.
#[verifier::loop_isolation(false)]
pub fn find_in_sensors_json(sensors_json: &Json, sensor_id: &str, text: &str, sensor_type: &str) -> (r:
    Option<(String, String)>)
    requires
        channel_fits(sensor_id@, sensor_type@),
        label_fits(text@),
    ensures
        r is None <==> (sensors_json@ matches JsonV::Object(e) ==> forall|c: Seq<char>, p: Seq<Seq<char>>|
            #[trigger] is_candidate(e, c, p) ==> leaf_score(c, p, sensor_id@, text@, sensor_type@) is None),
        r matches Some((chip, key)) ==> (sensors_json@ matches JsonV::Object(e) && is_best_leaf(
            e,
            chip@,
            key@,
            sensor_id@,
            text@,
            sensor_type@,
        )),
{
    let e = match sensors_json {
        Json::Object(e) => e,
        _ => return None,
    };
    proof {
        lemma_entry_views_of(e@);
    }
    let ghost ev = entry_views_of(e@);
    let mut best: Option<(usize, usize, Vec<String>, Vec<char>)> = None;
    let mut i: usize = 0;
    while i < e.len()
        invariant
            i <= e@.len(),
            ev == entry_views_of(e@),
            ev.len() == e@.len(),
            sensors_json@ == JsonV::Object(ev),
            best is None ==> forall|ci: int, p: Seq<Seq<char>>|
                0 <= ci < i && #[trigger] leaf_paths(ev[ci].1, Seq::empty()).contains(p) ==> leaf_score(
                    ev[ci].0, p, sensor_id@, text@, sensor_type@) is None,
            best matches Some((bs, bi, bp, bk)) ==> {
                &&& bi < e@.len()
                &&& leaf_paths(ev[bi as int].1, Seq::empty()).contains(bp.deep_view())
                &&& bk@ == join(bp.deep_view(), "/"@)
                &&& leaf_score(ev[bi as int].0, bp.deep_view(), sensor_id@, text@, sensor_type@) == Some(bs as nat)
                &&& forall|ci: int, p: Seq<Seq<char>>|
                    0 <= ci < i && #[trigger] leaf_paths(ev[ci].1, Seq::empty()).contains(p) ==> dominates(
                        (bs as nat, ev[bi as int].0, bk@), ev[ci].0, p, sensor_id@, text@, sensor_type@)
            },
        decreases e@.len() - i,
    {
        let chip = &e[i].0;
        assert(ev[i as int] == (chip@, e@[i as int].1@));
        let empty: Vec<String> = Vec::new();
        assert(empty.deep_view() =~= Seq::<Seq<char>>::empty());
        let mut leaves: Vec<Vec<String>> = Vec::new();
        collect_leaf_paths(&e[i].1, &empty, &mut leaves);
        let ghost lv = path_views(leaves@);
        assert(lv =~= leaf_paths(ev[i as int].1, Seq::empty()));
        let mut k: usize = 0;
        while k < leaves.len()
            invariant
                k <= leaves@.len(),
                lv == path_views(leaves@),
                lv == leaf_paths(ev[i as int].1, Seq::empty()),
                i < e@.len(),
                best is None ==> forall|ci: int, p: Seq<Seq<char>>|
                    0 <= ci < i && #[trigger] leaf_paths(ev[ci].1, Seq::empty()).contains(p) ==> leaf_score(
                        ev[ci].0, p, sensor_id@, text@, sensor_type@) is None,
                best is None ==> forall|kk: int| 0 <= kk < k ==> leaf_score(ev[i as int].0, #[trigger] lv[kk], sensor_id@, text@, sensor_type@) is None,
                best matches Some((bs, bi, bp, bk)) ==> {
                    &&& bi < e@.len()
                    &&& leaf_paths(ev[bi as int].1, Seq::empty()).contains(bp.deep_view())
                    &&& bk@ == join(bp.deep_view(), "/"@)
                    &&& leaf_score(ev[bi as int].0, bp.deep_view(), sensor_id@, text@, sensor_type@) == Some(bs as nat)
                    &&& forall|ci: int, p: Seq<Seq<char>>|
                        0 <= ci < i && #[trigger] leaf_paths(ev[ci].1, Seq::empty()).contains(p) ==> dominates(
                            (bs as nat, ev[bi as int].0, bk@), ev[ci].0, p, sensor_id@, text@, sensor_type@)
                    &&& forall|kk: int| 0 <= kk < k ==> dominates(
                            (bs as nat, ev[bi as int].0, bk@), ev[i as int].0, #[trigger] lv[kk], sensor_id@, text@, sensor_type@)
                },
            decreases leaves@.len() - k,
        {
            let path = &leaves[k];
            assert(lv[k as int] == path.deep_view());
            let sc = score_sensors_json_candidate(chip.as_str(), path, sensor_id, text, sensor_type);
            let key_chars = join_exec(path, "/");
            let ks = string_of(key_chars.as_slice());
            match sc {
                None => {},
                Some(s0) => {
                    let mut s = s0;
                    proof {
                        assert(s0 + 100 <= usize::MAX) by {
                            lemma_json_score_bound(chip@, path.deep_view(), sensor_id@, text@, sensor_type@);
                        }
                    }
                    match (expected_sysfs_channel(sensor_id, sensor_type), sysfs_value_family(ks.as_str())) {
                        (Some(ex), Some((_, ac))) => {
                            if ex == ac {
                                s = s + 20;
                            }
                        },
                        _ => {},
                    }
                    assert(leaf_score(chip@, path.deep_view(), sensor_id@, text@, sensor_type@) == Some(s as nat));
                    let replace = match &best {
                        None => true,
                        Some((bs, bi, _bp, bk)) => {
                            let bc = chars_of(e[*bi].0.as_str());
                            let cc = chars_of(chip.as_str());
                            let pair_ok = (chars_le(bc.as_slice(), cc.as_slice()) && !chars_eq(bc.as_slice(), cc.as_slice()))
                                || (chars_eq(bc.as_slice(), cc.as_slice()) && chars_le(bk.as_slice(), key_chars.as_slice()));
                            !(*bs > s || (*bs == s && pair_ok))
                        },
                    };
                    if replace {
                        proof {
                            assert(leaf_paths(ev[i as int].1, Seq::empty()).contains(path.deep_view())) by {
                                assert(lv[k as int] == path.deep_view());
                            }
                            let nb = (s as nat, chip@, key_chars@);
                            lemma_pair_le((nb.1, nb.2), (nb.1, nb.2), (nb.1, nb.2));
                            if let Some((bs, bi, bp, bk)) = best {
                                let ob = (bs as nat, ev[bi as int].0, bk@);
                                lemma_pair_le((ob.1, ob.2), (nb.1, nb.2), (nb.1, nb.2));
                                assert forall|ci: int, p: Seq<Seq<char>>|
                                    0 <= ci < i && #[trigger] leaf_paths(ev[ci].1, Seq::empty()).contains(p)
                                    implies dominates(nb, ev[ci].0, p, sensor_id@, text@, sensor_type@) by {
                                    if let Some(t) = leaf_score(ev[ci].0, p, sensor_id@, text@, sensor_type@) {
                                        lemma_pair_le((nb.1, nb.2), (ob.1, ob.2), (ev[ci].0, join(p, "/"@)));
                                    }
                                }
                                assert forall|kk: int| 0 <= kk < k + 1 implies dominates(
                                    nb, ev[i as int].0, #[trigger] lv[kk], sensor_id@, text@, sensor_type@) by {
                                    if kk < k {
                                        if let Some(t) = leaf_score(ev[i as int].0, lv[kk], sensor_id@, text@, sensor_type@) {
                                            lemma_pair_le((nb.1, nb.2), (ob.1, ob.2), (ev[i as int].0, join(lv[kk], "/"@)));
                                        }
                                    }
                                }
                            }
                        }
                        let bpc = path.clone();
                        assert(bpc.deep_view() =~= path.deep_view());
                        best = Some((s, i, bpc, key_chars));
                    }
                },
            }
            k = k + 1;
        }
        i = i + 1;
    }
    match best {
        None => {
            assert forall|c: Seq<char>, p: Seq<Seq<char>>| #[trigger] is_candidate(ev, c, p) implies leaf_score(
                c,
                p,
                sensor_id@,
                text@,
                sensor_type@,
            ) is None by {
                let ci = choose|ci: int|
                    0 <= ci < ev.len() && ev[ci].0 == c && #[trigger] leaf_paths(ev[ci].1, Seq::empty()).contains(p);
            }
            None
        },
        Some((bs, bi, bp, bk)) => {
            let chip = e[bi].0.clone();
            let key = string_of(bk.as_slice());
            proof {
                assert(is_candidate(ev, chip@, bp.deep_view()));
                assert forall|c2: Seq<char>, p2: Seq<Seq<char>>|
                    #[trigger] is_candidate(ev, c2, p2) implies dominates(
                    (bs as nat, chip@, key@),
                    c2,
                    p2,
                    sensor_id@,
                    text@,
                    sensor_type@,
                ) by {
                    let ci = choose|ci: int|
                        0 <= ci < ev.len() && ev[ci].0 == c2 && #[trigger] leaf_paths(ev[ci].1, Seq::empty()).contains(p2);
                }
                assert(is_best_leaf(ev, chip@, key@, sensor_id@, text@, sensor_type@));
            }
            Some((chip, key))
        },
    }
}

/// Follows a path of object keys from a value.
pub open spec fn lookup_path(j: JsonV, segs: Seq<Seq<char>>) -> Option<JsonV>
    decreases segs.len(),
{
    if segs.len() == 0 {
        Some(j)
    } else {
        match j.get(segs[0]) {
            Some(c) => lookup_path(c, segs.drop_first()),
            None => None,
        }
    }
}

/// The reading a `sensors_json` source names: the member `chip` of the
/// document, then one member per `/`-separated segment of `key`.
pub open spec fn sensors_json_value(j: JsonV, chip: Seq<char>, key: Seq<char>) -> Option<JsonV> {
    match j.get(chip) {
        Some(c) => lookup_path(c, split_on(key, '/')),
        None => None,
    }
}

pub fn sensors_json_lookup<'a>(sensors_json: &'a Json, chip: &str, key: &str) -> (r: Option<&'a Json>)
    ensures
        opt_view(r) == sensors_json_value(sensors_json@, chip@, key@),
{
    let mut value = match json_get(sensors_json, chip) {
        Some(v) => v,
        None => return None,
    };
    let kc = chars_of(key);
    let segs = split_on_exec(kc.as_slice(), '/');
    let ghost sv = views(segs@);
    let mut i: usize = 0;
    assert(sv.skip(0) =~= sv);
    while i < segs.len()
        invariant
            i <= segs@.len(),
            sv == views(segs@),
            sv == split_on(key@, '/'),
            sensors_json_value(sensors_json@, chip@, key@) == lookup_path(value@, sv.skip(i as int)),
        decreases segs@.len() - i,
    {
        let seg = string_of(segs[i].as_slice());
        assert(sv.skip(i as int)[0] == seg@);
        assert(sv.skip(i as int).drop_first() =~= sv.skip(i + 1));
        value = match json_get(value, seg.as_str()) {
            Some(v) => v,
            None => return None,
        };
        i = i + 1;
    }
    Some(value)
}

/// The text a sensor number is parsed from: the first whitespace token,
/// with decimal commas turned into points.
pub open spec fn numeric_text(s: Seq<char>) -> Seq<char> {
    let first = if ws_tokens(s).len() > 0 {
        ws_tokens(s)[0]
    } else {
        Seq::empty()
    };
    first.map_values(|c: char| if c == ',' { '.' } else { c })
}

pub fn sensor_number_text(s: &str) -> (r: String)
    ensures
        r@ == numeric_text(s@),
{
    let c = chars_of(s);
    let toks = split_whitespace(c.as_slice());
    proof {
        crate::text::lemma_views_len(toks@);
    }
    let first: Vec<char> = if toks.len() > 0 {
        assert(views(toks@)[0] == toks@[0]@);
        let mut out: Vec<char> = Vec::new();
        let t = &toks[0];
        let mut k: usize = 0;
        while k < t.len()
            invariant
                k <= t@.len(),
                out@ == t@.take(k as int).map_values(|c: char| if c == ',' { '.' } else { c }),
            decreases t@.len() - k,
        {
            let ch = if t[k] == ',' {
                '.'
            } else {
                t[k]
            };
            out.push(ch);
            k = k + 1;
            assert(out@ =~= t@.take(k as int).map_values(|c: char| if c == ',' { '.' } else { c }));
        }
        assert(t@.take(t@.len() as int) =~= t@);
        out
    } else {
        Vec::new()
    };
    assert(first@ =~= numeric_text(s@));
    string_of(first.as_slice())
}

/// The (chip, key) that `find_in_sensors_json` answers for a document.
pub open spec fn chosen_json(j: JsonV, id: Seq<char>, text: Seq<char>, t: Seq<char>) -> Option<
    (Seq<char>, Seq<char>),
> {
    match j {
        JsonV::Object(e) => if exists|ck: (Seq<char>, Seq<char>)| is_best_leaf(e, ck.0, ck.1, id, text, t) {
            Some(choose|ck: (Seq<char>, Seq<char>)| is_best_leaf(e, ck.0, ck.1, id, text, t))
        } else {
            None
        },
        _ => None,
    }
}

proof fn lemma_pair_le_antisym(a: (Seq<char>, Seq<char>), b: (Seq<char>, Seq<char>))
    requires
        pair_le(a, b),
        pair_le(b, a),
    ensures
        a == b,
{
    lemma_seq_le_total(a.0, b.0);
    lemma_seq_le_total(a.1, b.1);
}

proof fn lemma_best_leaf_unique(
    e: Seq<(Seq<char>, JsonV)>,
    a: (Seq<char>, Seq<char>),
    b: (Seq<char>, Seq<char>),
    id: Seq<char>,
    text: Seq<char>,
    t: Seq<char>,
)
    requires
        is_best_leaf(e, a.0, a.1, id, text, t),
        is_best_leaf(e, b.0, b.1, id, text, t),
    ensures
        a == b,
{
    let pa = choose|p: Seq<Seq<char>>|
        #![trigger is_candidate(e, a.0, p)]
        is_candidate(e, a.0, p) && a.1 == join(p, "/"@) && match leaf_score(a.0, p, id, text, t) {
            Some(s) => forall|c2: Seq<char>, p2: Seq<Seq<char>>|
                #[trigger] is_candidate(e, c2, p2) ==> dominates((s, a.0, a.1), c2, p2, id, text, t),
            None => false,
        };
    let pb = choose|p: Seq<Seq<char>>|
        #![trigger is_candidate(e, b.0, p)]
        is_candidate(e, b.0, p) && b.1 == join(p, "/"@) && match leaf_score(b.0, p, id, text, t) {
            Some(s) => forall|c2: Seq<char>, p2: Seq<Seq<char>>|
                #[trigger] is_candidate(e, c2, p2) ==> dominates((s, b.0, b.1), c2, p2, id, text, t),
            None => false,
        };
    assert(is_candidate(e, b.0, pb));
    assert(is_candidate(e, a.0, pa));
    if pair_le(a, b) && pair_le(b, a) {
        lemma_pair_le_antisym(a, b);
    }
}

pub open spec fn opt_pair_view(r: Option<(String, String)>) -> Option<(Seq<char>, Seq<char>)> {
    match r {
        Some((a, b)) => Some((a@, b@)),
        None => None,
    }
}

pub proof fn lemma_find_chosen(
    r: Option<(String, String)>,
    j: JsonV,
    id: Seq<char>,
    text: Seq<char>,
    t: Seq<char>,
)
    requires
        r is None <==> (j matches JsonV::Object(e) ==> forall|c: Seq<char>, p: Seq<Seq<char>>|
            #[trigger] is_candidate(e, c, p) ==> leaf_score(c, p, id, text, t) is None),
        r matches Some((chip, key)) ==> (j matches JsonV::Object(e) && is_best_leaf(e, chip@, key@, id, text, t)),
    ensures
        opt_pair_view(r) == chosen_json(j, id, text, t),
{
    if let Some((chip, key)) = r {
        if let JsonV::Object(e) = j {
            let ck = (chip@, key@);
            assert(is_best_leaf(e, ck.0, ck.1, id, text, t));
            let other = choose|ck: (Seq<char>, Seq<char>)| is_best_leaf(e, ck.0, ck.1, id, text, t);
            lemma_best_leaf_unique(e, ck, other, id, text, t);
        }
    } else {
        if let JsonV::Object(e) = j {
            if exists|ck: (Seq<char>, Seq<char>)| is_best_leaf(e, ck.0, ck.1, id, text, t) {
                let ck = choose|ck: (Seq<char>, Seq<char>)| is_best_leaf(e, ck.0, ck.1, id, text, t);
                let p = choose|p: Seq<Seq<char>>|
                    #![trigger is_candidate(e, ck.0, p)]
                    is_candidate(e, ck.0, p) && ck.1 == join(p, "/"@) && match leaf_score(ck.0, p, id, text, t) {
                        Some(s) => forall|c2: Seq<char>, p2: Seq<Seq<char>>|
                            #[trigger] is_candidate(e, c2, p2) ==> dominates((s, ck.0, ck.1), c2, p2, id, text, t),
                        None => false,
                    };
                assert(is_candidate(e, ck.0, p));
            }
        }
    }
}


proof fn lemma_no_token_found(toks: Seq<Seq<char>>, s: Seq<char>)
    requires
        forall|i: int| 0 <= i < toks.len() ==> !contains(s, #[trigger] toks[i]),
    ensures
        tokens_in(toks, s) == 0,
    decreases toks.len(),
{
    if toks.len() > 0 {
        assert(toks.last() == toks[toks.len() - 1]);
        lemma_no_token_found(toks.drop_last(), s);
    }
}

proof fn lemma_no_alias_found(al: Seq<Seq<char>>, s: Seq<char>)
    requires
        forall|i: int| 0 <= i < al.len() ==> !contains(s, #[trigger] al[i]),
    ensures
        aliases_in(al, s) == 0,
    decreases al.len(),
{
    if al.len() > 0 {
        assert(al.last() == al[al.len() - 1]);
        lemma_no_alias_found(al.drop_last(), s);
    }
}

/// A power reading must name the sensor: a `sensors -j` leaf whose joined
/// key path contains neither the sensor's normalised text, nor any of its
/// label tokens, nor any of its aliases gets no score, so the search never
/// chooses it.
pub proof fn lemma_power_needs_a_label_hit(
    chip: Seq<char>,
    path: Seq<Seq<char>>,
    id: Seq<char>,
    text: Seq<char>,
    t: Seq<char>,
)
    requires
        type_key(t) == "power"@,
        !contains(normalized(join(path, " "@)), normalized(text)),
        forall|i: int|
            0 <= i < semantic(text).len() ==> !contains(
                normalized(join(path, " "@)),
                #[trigger] semantic(text)[i],
            ),
        forall|i: int|
            0 <= i < aliases(id, text, t).len() ==> !contains(
                normalized(join(path, " "@)),
                #[trigger] aliases(id, text, t)[i],
            ),
    ensures
        json_score(chip, path, id, text, t) is None,
        leaf_score(chip, path, id, text, t) is None,
{
    let joined = normalized(join(path, " "@));
    lemma_no_token_found(semantic(text), joined);
    lemma_no_alias_found(aliases(id, text, t), joined);
    reveal_strlit("power");
    reveal_strlit("clock");
    assert("power"@ != "clock"@) by {
        assert("power"@[0] != "clock"@[0]);
    }
}

} // verus!
