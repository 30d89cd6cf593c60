//! Parsing of OHM sensor ids (`/lpc/it8688e/0/temperature/2`) and of hwmon
//! value file names (`temp2_input`), and the unit families that belong to
//! each sensor type.
use vstd::prelude::*;
use crate::text::{
    all_digits, ascii_alpha, ascii_digit, ascii_lowercase, chars_of, ends_with, ends_with_str,
    eq_str, is_ascii_alpha, str_views, views, is_ascii_digit, parse_usize, parse_usize_exec, split_on, split_on_exec,
    starts_with, starts_with_str, string_of, to_ascii_lowercase, trim, trim_exec,
};

verus! {

/// `sensor_type.trim().to_ascii_lowercase()`.
pub open spec fn type_key(t: Seq<char>) -> Seq<char> {
    ascii_lowercase(trim(t))
}

pub fn sensor_type_key(sensor_type: &str) -> (r: Vec<char>)
    ensures
        r@ == type_key(sensor_type@),
{
    let c = chars_of(sensor_type);
    let t = trim_exec(c.as_slice());
    to_ascii_lowercase(t.as_slice())
}

/// Last component of a `/`-separated path that is neither empty nor `.`.
pub open spec fn last_component(parts: Seq<Seq<char>>) -> Option<Seq<char>>
    decreases parts.len(),
{
    if parts.len() == 0 {
        None
    } else if parts.last().len() == 0 || parts.last() == seq!['.'] {
        last_component(parts.drop_last())
    } else {
        Some(parts.last())
    }
}

/// `Path::file_name` on a Unix path: the last normal component, or nothing
/// when the path ends in `..` or has no normal component.
pub open spec fn file_name(p: Seq<char>) -> Option<Seq<char>> {
    match last_component(split_on(p, '/')) {
        Some(c) => if c == seq!['.', '.'] {
            None
        } else {
            Some(c)
        },
        None => None,
    }
}

#[verifier::loop_isolation(false)]
pub fn file_name_exec(p: &[char]) -> (r: Option<Vec<char>>)
    ensures
        r matches Some(v) ==> file_name(p@) == Some(v@),
        r is None ==> file_name(p@) is None,
{
    let parts = split_on_exec(p, '/');
    let ghost pv = views(parts@);
    let mut i: usize = parts.len();
    assert(pv.take(i as int) =~= pv);
    while i > 0
        invariant
            i <= parts@.len(),
            pv == views(parts@),
            last_component(pv) == last_component(pv.take(i as int)),
        decreases i,
    {
        let part = &parts[i - 1];
        assert(pv.take(i as int).last() == part@);
        assert(pv.take(i as int).drop_last() =~= pv.take(i - 1));
        if part.len() == 0 || (part.len() == 1 && part[0] == '.') {
            proof {
                if part@.len() == 1 {
                    assert(part@ =~= seq!['.']);
                }
            }
            i = i - 1;
        } else {
            proof {
                if part@.len() == 1 {
                    assert(part@ != seq!['.']);
                }
            }
            if part.len() == 2 && part[0] == '.' && part[1] == '.' {
                assert(part@ =~= seq!['.', '.']);
                return None;
            }
            assert(part@ != seq!['.', '.']);
            let mut out: Vec<char> = Vec::new();
            let mut k: usize = 0;
            while k < part.len()
                invariant
                    k <= part@.len(),
                    out@ == part@.take(k as int),
                decreases part@.len() - k,
            {
                out.push(part[k]);
                k = k + 1;
                assert(out@ =~= part@.take(k as int));
            }
            assert(part@.take(part@.len() as int) =~= part@);
            return Some(out);
        }
    }
    assert(pv.take(0) =~= Seq::<Seq<char>>::empty());
    None
}

/// Number of leading ASCII letters.
pub open spec fn alpha_prefix_len(s: Seq<char>) -> nat
    decreases s.len(),
{
    if s.len() > 0 && is_ascii_alpha(s[0]) {
        1 + alpha_prefix_len(s.drop_first())
    } else {
        0
    }
}

/// Number of leading ASCII digits.
pub open spec fn digit_prefix_len(s: Seq<char>) -> nat
    decreases s.len(),
{
    if s.len() > 0 && is_ascii_digit(s[0]) {
        1 + digit_prefix_len(s.drop_first())
    } else {
        0
    }
}

proof fn lemma_alpha_prefix(s: Seq<char>, i: int)
    requires
        0 <= i <= s.len(),
        forall|k: int| 0 <= k < i ==> is_ascii_alpha(#[trigger] s[k]),
        i == s.len() || !is_ascii_alpha(s[i]),
    ensures
        alpha_prefix_len(s) == i,
    decreases i,
{
    if i > 0 {
        assert forall|k: int| 0 <= k < i - 1 implies is_ascii_alpha(#[trigger] s.drop_first()[k]) by {
            assert(s.drop_first()[k] == s[k + 1]);
        }
        lemma_alpha_prefix(s.drop_first(), i - 1);
    }
}

proof fn lemma_digit_prefix(s: Seq<char>, i: int)
    requires
        0 <= i <= s.len(),
        forall|k: int| 0 <= k < i ==> is_ascii_digit(#[trigger] s[k]),
        i == s.len() || !is_ascii_digit(s[i]),
    ensures
        digit_prefix_len(s) == i,
    decreases i,
{
    if i > 0 {
        assert forall|k: int| 0 <= k < i - 1 implies is_ascii_digit(#[trigger] s.drop_first()[k]) by {
            assert(s.drop_first()[k] == s[k + 1]);
        }
        lemma_digit_prefix(s.drop_first(), i - 1);
    }
}

/// Splits a hwmon value file name such as `fan1_input` into its family
/// (`fan`) and channel (`1`): the leading ASCII letters, then at least one
/// ASCII digit directly after them.
pub open spec fn name_family(name: Seq<char>) -> Option<(Seq<char>, usize)> {
    let f = alpha_prefix_len(name);
    let rest = name.skip(f as int);
    let d = digit_prefix_len(rest);
    if f == 0 || f >= name.len() || d == 0 {
        None
    } else {
        match parse_usize(rest.take(d as int)) {
            Some(ch) => Some((name.take(f as int), ch)),
            None => None,
        }
    }
}

/// The family and channel of the file a sysfs path names.
pub open spec fn value_family(path: Seq<char>) -> Option<(Seq<char>, usize)> {
    match file_name(path) {
        Some(n) => name_family(n),
        None => None,
    }
}

pub open spec fn family_view(r: Option<(Vec<char>, usize)>) -> Option<(Seq<char>, usize)> {
    match r {
        Some((f, c)) => Some((f@, c)),
        None => None,
    }
}

fn name_family_exec(name: &[char]) -> (r: Option<(Vec<char>, usize)>)
    ensures
        family_view(r) == name_family(name@),
{
    let mut f: usize = 0;
    while f < name.len() && ascii_alpha(name[f])
        invariant
            f <= name@.len(),
            forall|k: int| 0 <= k < f ==> is_ascii_alpha(#[trigger] name@[k]),
        decreases name@.len() - f,
    {
        f = f + 1;
    }
    proof {
        lemma_alpha_prefix(name@, f as int);
    }
    if f == 0 || f >= name.len() {
        return None;
    }
    let ghost rest = name@.skip(f as int);
    let mut d: usize = 0;
    while f + d < name.len() && ascii_digit(name[f + d])
        invariant
            f + d <= name.len(),
            rest == name@.skip(f as int),
            forall|k: int| 0 <= k < d ==> is_ascii_digit(#[trigger] rest[k]),
        decreases name@.len() - f - d,
    {
        assert(rest[d as int] == name@[f + d]);
        d = d + 1;
    }
    proof {
        if f + d < name@.len() {
            assert(rest[d as int] == name@[f + d]);
        }
        lemma_digit_prefix(rest, d as int);
    }
    if d == 0 {
        return None;
    }
    let mut digits: Vec<char> = Vec::new();
    let mut k: usize = 0;
    while k < d
        invariant
            k <= d,
            f + d <= name.len(),
            rest == name@.skip(f as int),
            digits@ == rest.take(k as int),
        decreases d - k,
    {
        digits.push(name[f + k]);
        k = k + 1;
        assert(digits@ =~= rest.take(k as int));
    }
    let mut fam: Vec<char> = Vec::new();
    let mut j: usize = 0;
    while j < f
        invariant
            j <= f,
            f <= name@.len(),
            fam@ == name@.take(j as int),
        decreases f - j,
    {
        fam.push(name[j]);
        j = j + 1;
        assert(fam@ =~= name@.take(j as int));
    }
    match parse_usize_exec(digits.as_slice()) {
        Some(ch) => Some((fam, ch)),
        None => None,
    }
}

pub fn sysfs_value_family(path: &str) -> (r: Option<(Vec<char>, usize)>)
    ensures
        family_view(r) == value_family(path@),
{
    let p = chars_of(path);
    match file_name_exec(p.as_slice()) {
        Some(n) => name_family_exec(n.as_slice()),
        None => None,
    }
}

/// The hwmon families whose readings carry the unit of a sensor type.
pub open spec fn supported_families(t: Seq<char>) -> Seq<Seq<char>> {
    let k = type_key(t);
    if k == "temperature"@ {
        seq!["temp"@]
    } else if k == "voltage"@ {
        seq!["in"@]
    } else if k == "current"@ {
        seq!["curr"@]
    } else if k == "fan"@ {
        seq!["fan"@]
    } else if k == "clock"@ {
        seq!["freq"@]
    } else if k == "power"@ {
        seq!["power"@]
    } else if k == "control"@ || k == "level"@ {
        seq!["pwm"@]
    } else {
        Seq::empty()
    }
}

pub fn supported_sysfs_families(sensor_type: &str) -> (r: Vec<&'static str>)
    ensures
        str_views(r@) == supported_families(sensor_type@),
{
    let k = sensor_type_key(sensor_type);
    let mut r: Vec<&'static str> = Vec::new();
    if eq_str(k.as_slice(), "temperature") {
        r.push("temp");
    } else if eq_str(k.as_slice(), "voltage") {
        r.push("in");
    } else if eq_str(k.as_slice(), "current") {
        r.push("curr");
    } else if eq_str(k.as_slice(), "fan") {
        r.push("fan");
    } else if eq_str(k.as_slice(), "clock") {
        r.push("freq");
    } else if eq_str(k.as_slice(), "power") {
        r.push("power");
    } else if eq_str(k.as_slice(), "control") || eq_str(k.as_slice(), "level") {
        r.push("pwm");
    }
    assert(str_views(r@) =~= supported_families(sensor_type@));
    r
}

/// Whether a sysfs path names a reading in a unit family the sensor type
/// accepts.
pub open spec fn path_matches_type(path: Seq<char>, t: Seq<char>) -> bool {
    match value_family(path) {
        Some((f, _)) => supported_families(t).contains(f),
        None => false,
    }
}

#[verifier::loop_isolation(false)]
pub fn family_matches_type(family: &[char], sensor_type: &str) -> (r: bool)
    ensures
        r == supported_families(sensor_type@).contains(family@),
{
    let fams = supported_sysfs_families(sensor_type);
    let ghost fv = str_views(fams@);
    let mut i: usize = 0;
    while i < fams.len()
        invariant
            i <= fams@.len(),
            fv == str_views(fams@),
            forall|k: int| 0 <= k < i ==> fv[k] != family@,
        decreases fams@.len() - i,
    {
        if eq_str(family, fams[i]) {
            assert(fv[i as int] == family@);
            assert(fv.contains(family@));
            return true;
        }
        i = i + 1;
    }
    false
}

pub fn sysfs_path_matches_sensor_type(path: &str, sensor_type: &str) -> (r: bool)
    ensures
        r == path_matches_type(path@, sensor_type@),
{
    match sysfs_value_family(path) {
        Some((f, _)) => family_matches_type(f.as_slice(), sensor_type),
        None => false,
    }
}

/// The non-empty pieces of a string split at `/`.
pub open spec fn nonempty_parts(parts: Seq<Seq<char>>) -> Seq<Seq<char>>
    decreases parts.len(),
{
    if parts.len() == 0 {
        Seq::empty()
    } else if parts.last().len() == 0 {
        nonempty_parts(parts.drop_last())
    } else {
        nonempty_parts(parts.drop_last()).push(parts.last())
    }
}

/// The last two non-empty segments of an OHM id: its type and index,
/// e.g. `/lpc/it8688e/0/temperature/2` gives (`temperature`, `2`).
pub open spec fn type_index(ohm: Seq<char>) -> Option<(Seq<char>, Seq<char>)> {
    let parts = nonempty_parts(split_on(ohm, '/'));
    if parts.len() >= 2 {
        Some((parts[parts.len() - 2], parts[parts.len() - 1]))
    } else {
        None
    }
}

pub fn parse_type_index(ohm: &str) -> (r: Option<(String, String)>)
    ensures
        r matches Some((t, i)) ==> type_index(ohm@) == Some((t@, i@)),
        r is None ==> type_index(ohm@) is None,
{
    let c = chars_of(ohm);
    let parts = split_on_exec(c.as_slice(), '/');
    let ghost pv = views(parts@);
    let mut kept: Vec<usize> = Vec::new();
    let mut i: usize = 0;
    let ghost mut np: Seq<Seq<char>> = Seq::empty();
    assert(np =~= nonempty_parts(pv.take(0)));
    while i < parts.len()
        invariant
            i <= parts@.len(),
            pv == views(parts@),
            np == nonempty_parts(pv.take(i as int)),
            kept@.len() == np.len(),
            forall|k: int| 0 <= k < kept@.len() ==> kept@[k] < parts@.len(),
            forall|k: int| 0 <= k < kept@.len() ==> #[trigger] np[k] == pv[kept@[k] as int],
        decreases parts@.len() - i,
    {
        assert(pv.take(i + 1).drop_last() =~= pv.take(i as int));
        assert(pv.take(i + 1).last() == parts@[i as int]@);
        if parts[i].len() > 0 {
            assert(nonempty_parts(pv.take(i + 1)) == nonempty_parts(pv.take(i as int)).push(
                pv[i as int],
            ));
            kept.push(i);
            proof {
                let old_np = np;
                np = np.push(pv[i as int]);
                assert forall|k: int| 0 <= k < kept@.len() implies #[trigger] np[k] == pv[kept@[k] as int] by {
                    if k < old_np.len() {
                        assert(np[k] == old_np[k]);
                    }
                }
            }
        } else {
            assert(nonempty_parts(pv.take(i + 1)) == nonempty_parts(pv.take(i as int)));
        }
        i = i + 1;
    }
    assert(pv.take(parts@.len() as int) =~= pv);
    if kept.len() >= 2 {
        let a = kept[kept.len() - 2];
        let b = kept[kept.len() - 1];
        let t = string_of(parts[a].as_slice());
        let x = string_of(parts[b].as_slice());
        Some((t, x))
    } else {
        None
    }
}

/// Whether one more than the sensor's index fits in `usize` where the
/// channel is derived that way (the `index + 1` there would overflow).
pub open spec fn channel_computable(ohm: Seq<char>, t: Seq<char>) -> bool {
    match type_index(ohm) {
        Some((_, idx)) => {
            let k = type_key(t);
            !(parse_usize(idx) == Some(usize::MAX) && (k == "temperature"@ || k == "current"@
                || k == "fan"@ || k == "clock"@ || k == "control"@ || k == "level"@))
        },
        None => true,
    }
}

/// The hwmon channel that an OHM sensor index corresponds to: hwmon counts
/// temperature, current, fan, clock and pwm channels from 1, voltage from 0.
pub open spec fn expected_channel(ohm: Seq<char>, t: Seq<char>) -> Option<usize> {
    match type_index(ohm) {
        Some((_, idx)) => match parse_usize(idx) {
            Some(i) => {
                let k = type_key(t);
                if k == "temperature"@ || k == "current"@ || k == "fan"@ || k == "clock"@ || k
                    == "control"@ || k == "level"@ {
                    Some((i + 1) as usize)
                } else if k == "voltage"@ {
                    Some(i)
                } else {
                    None
                }
            },
            None => None,
        },
        None => None,
    }
}

/// Whether a sensor can be searched for: where its hwmon channel is
/// derived from its index, one more than the index fits in `usize`.  Clock
/// sensors are matched by label alone and never derive a channel, so every
/// clock sensor can be searched for.
pub open spec fn channel_fits(ohm: Seq<char>, t: Seq<char>) -> bool {
    type_key(t) == "clock"@ || channel_computable(ohm, t)
}

pub fn expected_sysfs_channel(ohm: &str, sensor_type: &str) -> (r: Option<usize>)
    requires
        channel_computable(ohm@, sensor_type@),
    ensures
        r == expected_channel(ohm@, sensor_type@),
{
    let (_, index) = match parse_type_index(ohm) {
        Some(p) => p,
        None => return None,
    };
    let ic = chars_of(index.as_str());
    let i = match parse_usize_exec(ic.as_slice()) {
        Some(i) => i,
        None => return None,
    };
    let k = sensor_type_key(sensor_type);
    let ks = k.as_slice();
    if eq_str(ks, "temperature") || eq_str(ks, "current") || eq_str(ks, "fan") || eq_str(
        ks,
        "clock",
    ) || eq_str(ks, "control") || eq_str(ks, "level") {
        Some(i + 1)
    } else if eq_str(ks, "voltage") {
        Some(i)
    } else {
        None
    }
}

/// Whether a hwmon file name holds a reading: `*_input`, `*_average`, or
/// `pwm` followed only by ASCII digits.
pub open spec fn value_file(name: Seq<char>) -> bool {
    ends_with(name, "_input"@) || ends_with(name, "_average"@) || (starts_with(name, "pwm"@)
        && all_digits(name.skip(3)))
}

#[verifier::loop_isolation(false)]
pub fn is_sysfs_value_file(file_name: &str) -> (r: bool)
    ensures
        r == value_file(file_name@),
{
    let c = chars_of(file_name);
    let s = c.as_slice();
    if ends_with_str(s, "_input") || ends_with_str(s, "_average") {
        return true;
    }
    if !starts_with_str(s, "pwm") {
        return false;
    }
    proof {
        reveal_strlit("pwm");
    }
    let mut i: usize = 3;
    while i < s.len()
        invariant
            3 <= i <= s@.len(),
            forall|k: int| 3 <= k < i ==> is_ascii_digit(#[trigger] s@[k]),
        decreases s@.len() - i,
    {
        if !ascii_digit(s[i]) {
            assert(s@.skip(3)[i - 3] == s@[i as int]);
            assert(!is_ascii_digit(s@.skip(3)[i - 3]));
            return false;
        }
        i = i + 1;
    }
    assert forall|k: int| 0 <= k < s@.skip(3).len() implies is_ascii_digit(#[trigger] s@.skip(3)[k]) by {
        assert(s@.skip(3)[k] == s@[k + 3]);
    }
    true
}

} // verus!
