//! The `/compare/view` page: every key path of the OHM export and the live
//! tree, in path order, with a preview of the value on each side, coloured
//! by the side that lacks it and flagged when the two sides spell it in
//! different case.
use vstd::prelude::*;
use crate::compare::{take_bytes, is_boundary, prefix_bytes};
use crate::json::{entries_get, lemma_views_of, lookup, views_of, Json, JsonV};
use crate::schema::{collect_paths, missing, path_list};
use crate::text::{
    append_chars, append_str, chars_eq, chars_le, chars_of, decimal, decimal_exec,
    lemma_seq_le_refl, lemma_seq_le_total, lemma_seq_le_trans, lemma_views_len, parse_usize,
    parse_usize_exec, seq_le, split_on, split_on_exec, string_of, to_lowercase,
    unicode_lowercase, utf8_len, views,
};

verus! {

// ---------------------------------------------------------------------------
// Path order
// ---------------------------------------------------------------------------

/// Lexicographic order of token lists, tokens compared as `str`.
pub open spec fn tok_le(a: Seq<Seq<char>>, b: Seq<Seq<char>>) -> bool
    decreases a.len(),
{
    if a.len() == 0 {
        true
    } else if b.len() == 0 {
        false
    } else if a[0] != b[0] {
        seq_le(a[0], b[0])
    } else {
        tok_le(a.drop_first(), b.drop_first())
    }
}

pub proof fn lemma_tok_le_total(a: Seq<Seq<char>>, b: Seq<Seq<char>>)
    ensures
        tok_le(a, b) || tok_le(b, a),
    decreases a.len(),
{
    if a.len() > 0 && b.len() > 0 {
        if a[0] != b[0] {
            lemma_seq_le_total(a[0], b[0]);
        } else {
            lemma_tok_le_total(a.drop_first(), b.drop_first());
        }
    }
}

pub proof fn lemma_tok_le_trans(a: Seq<Seq<char>>, b: Seq<Seq<char>>, c: Seq<Seq<char>>)
    requires
        tok_le(a, b),
        tok_le(b, c),
    ensures
        tok_le(a, c),
    decreases a.len(),
{
    if a.len() > 0 && b.len() > 0 && c.len() > 0 {
        if a[0] == b[0] && b[0] == c[0] {
            lemma_tok_le_trans(a.drop_first(), b.drop_first(), c.drop_first());
        } else if a[0] == b[0] {
        } else if b[0] == c[0] {
        } else {
            lemma_seq_le_trans(a[0], b[0], c[0]);
            if a[0] == c[0] {
                lemma_seq_le_total(a[0], b[0]);
            }
        }
    }
}

/// The tokens of a path: its pieces between `/`.
pub open spec fn path_tokens(p: Seq<char>) -> Seq<Seq<char>> {
    split_on(p, '/')
}

/// Paths ordered by their token lists, so a parent comes before its
/// children.
pub open spec fn path_le(p: Seq<char>, q: Seq<char>) -> bool {
    tok_le(path_tokens(p), path_tokens(q))
}

/// Where a path goes into a list ordered by `path_le`: before the first
/// entry it sorts below.
pub open spec fn insert_position(r: Seq<Seq<char>>, x: Seq<char>) -> int
    decreases r.len(),
{
    if r.len() == 0 {
        0
    } else if !path_le(r[0], x) {
        0
    } else {
        1 + insert_position(r.drop_first(), x)
    }
}

/// Paths sorted by `path_le`, an equal-sorting path after those before it.
pub open spec fn sort_paths(s: Seq<Seq<char>>) -> Seq<Seq<char>>
    decreases s.len(),
{
    if s.len() == 0 {
        Seq::empty()
    } else {
        let r = sort_paths(s.drop_last());
        r.insert(insert_position(r, s.last()), s.last())
    }
}

pub open spec fn sorted(r: Seq<Seq<char>>) -> bool {
    forall|i: int, j: int| 0 <= i < j < r.len() ==> path_le(#[trigger] r[i], #[trigger] r[j])
}

proof fn lemma_insert_position(r: Seq<Seq<char>>, x: Seq<char>)
    ensures
        0 <= insert_position(r, x) <= r.len(),
        forall|j: int| 0 <= j < insert_position(r, x) ==> path_le(#[trigger] r[j], x),
        insert_position(r, x) < r.len() ==> !path_le(r[insert_position(r, x)], x),
    decreases r.len(),
{
    if r.len() > 0 && path_le(r[0], x) {
        lemma_insert_position(r.drop_first(), x);
        assert forall|j: int| 0 <= j < insert_position(r, x) implies path_le(#[trigger] r[j], x) by {
            if j > 0 {
                assert(r[j] == r.drop_first()[j - 1]);
            }
        }
    }
}

/// Sorting keeps every path, once for each time it was given, in order.
pub proof fn lemma_sort_paths(s: Seq<Seq<char>>)
    ensures
        sorted(sort_paths(s)),
        sort_paths(s).to_multiset() == s.to_multiset(),
    decreases s.len(),
{
    if s.len() > 0 {
        lemma_sort_paths(s.drop_last());
        let r = sort_paths(s.drop_last());
        let x = s.last();
        let p = insert_position(r, x);
        lemma_insert_position(r, x);
        let n = r.insert(p, x);
        assert forall|i: int, j: int| 0 <= i < j < n.len() implies path_le(
            #[trigger] n[i],
            #[trigger] n[j],
        ) by {
            if j < p {
                assert(n[i] == r[i] && n[j] == r[j]);
            } else if j == p {
                assert(n[i] == r[i]);
            } else if i == p {
                assert(n[j] == r[j - 1]);
                lemma_tok_le_total(path_tokens(r[p]), path_tokens(x));
                if j - 1 > p {
                    assert(path_le(r[p], r[j - 1]));
                    lemma_tok_le_trans(path_tokens(x), path_tokens(r[p]), path_tokens(r[j - 1]));
                }
            } else if i < p {
                assert(n[i] == r[i] && n[j] == r[j - 1]);
            } else {
                assert(n[i] == r[i - 1] && n[j] == r[j - 1]);
            }
        }
        let a = r.take(p);
        let b = r.skip(p);
        let one = seq![x];
        vstd::seq_lib::lemma_multiset_commutative(a, one + b);
        vstd::seq_lib::lemma_multiset_commutative(one, b);
        vstd::seq_lib::lemma_multiset_commutative(a, b);
        vstd::seq_lib::lemma_multiset_commutative(s.drop_last(), one);
        assert(a + b =~= r);
        assert(n =~= a + (one + b));
        assert(s =~= s.drop_last() + one);
        assert(n.to_multiset() =~= r.to_multiset().add(one.to_multiset()));
        assert(s.to_multiset() =~= r.to_multiset().add(one.to_multiset()));
    } else {
        assert(s =~= Seq::<Seq<char>>::empty());
    }
}

fn tokens_le(a: &Vec<Vec<char>>, b: &Vec<Vec<char>>) -> (r: bool)
    ensures
        r == tok_le(views(a@), views(b@)),
{
    proof {
        lemma_views_len(a@);
        lemma_views_len(b@);
    }
    let ghost av = views(a@);
    let ghost bv = views(b@);
    let mut i: usize = 0;
    assert(av.skip(0) =~= av);
    assert(bv.skip(0) =~= bv);
    while i < a.len() && i < b.len()
        invariant
            i <= a@.len(),
            i <= b@.len(),
            av == views(a@),
            bv == views(b@),
            av.len() == a@.len(),
            bv.len() == b@.len(),
            forall|q: int| 0 <= q < a@.len() ==> #[trigger] av[q] == a@[q]@,
            forall|q: int| 0 <= q < b@.len() ==> #[trigger] bv[q] == b@[q]@,
            tok_le(av, bv) == tok_le(av.skip(i as int), bv.skip(i as int)),
        decreases a@.len() - i,
    {
        assert(av.skip(i as int)[0] == av[i as int]);
        assert(bv.skip(i as int)[0] == bv[i as int]);
        if !chars_eq(a[i].as_slice(), b[i].as_slice()) {
            return chars_le(a[i].as_slice(), b[i].as_slice());
        }
        assert(av.skip(i as int).drop_first() =~= av.skip(i + 1));
        assert(bv.skip(i as int).drop_first() =~= bv.skip(i + 1));
        i = i + 1;
    }
    i == a.len()
}

/// Sorts paths by their token lists.
pub fn sort_paths_exec(s: &Vec<String>) -> (r: Vec<String>)
    ensures
        r.deep_view() == sort_paths(s.deep_view()),
{
    let ghost sv = s.deep_view();
    let mut r: Vec<String> = Vec::new();
    let mut rt: Vec<Vec<Vec<char>>> = Vec::new();
    let mut i: usize = 0;
    while i < s.len()
        invariant
            i <= s@.len(),
            sv == s.deep_view(),
            r.deep_view() == sort_paths(sv.take(i as int)),
            rt@.len() == r@.len(),
            forall|k: int| 0 <= k < rt@.len() ==> views(#[trigger] rt@[k]@) == path_tokens(
                r.deep_view()[k],
            ),
        decreases s@.len() - i,
    {
        assert(sv.take(i + 1).drop_last() =~= sv.take(i as int));
        assert(sv.take(i + 1).last() == s@[i as int]@);
        let ghost rv = r.deep_view();
        let x = s[i].clone();
        let xc = chars_of(x.as_str());
        let xt = split_on_exec(xc.as_slice(), '/');
        let mut p: usize = 0;
        assert(rv.skip(0) =~= rv);
        while p < r.len() && tokens_le(&rt[p], &xt)
            invariant
                p <= r@.len(),
                rv == r.deep_view(),
                rt@.len() == r@.len(),
                forall|k: int| 0 <= k < rt@.len() ==> views(#[trigger] rt@[k]@) == path_tokens(
                    rv[k],
                ),
                views(xt@) == path_tokens(x@),
                insert_position(rv, x@) == p + insert_position(rv.skip(p as int), x@),
            decreases r@.len() - p,
        {
            assert(rv.skip(p as int)[0] == rv[p as int]);
            assert(rv.skip(p as int).drop_first() =~= rv.skip(p + 1));
            p = p + 1;
        }
        proof {
            if p < r@.len() {
                assert(rv.skip(p as int)[0] == rv[p as int]);
            }
        }
        assert(insert_position(rv, x@) == p);
        let ghost rt_before = rt@;
        r.insert(p, x);
        rt.insert(p, xt);
        assert(r.deep_view() =~= rv.insert(p as int, s@[i as int]@));
        assert forall|k: int| 0 <= k < rt@.len() implies views(#[trigger] rt@[k]@) == path_tokens(
            r.deep_view()[k],
        ) by {
            if k < p {
                assert(rt@[k] == rt_before[k]);
            } else if k > p {
                assert(rt@[k] == rt_before[k - 1]);
            }
        }
        i = i + 1;
    }
    assert(sv.take(s@.len() as int) =~= sv);
    r
}

// ---------------------------------------------------------------------------
// Values at paths
// ---------------------------------------------------------------------------

/// A token `[i]` addresses array element `i`.
pub open spec fn is_index_token(t: Seq<char>) -> bool {
    t.len() >= 2 && t[0] == '[' && t.last() == ']'
}

/// The value a token list leads to.
pub open spec fn value_at(v: JsonV, toks: Seq<Seq<char>>) -> Option<JsonV>
    decreases toks.len(),
{
    if toks.len() == 0 {
        Some(v)
    } else {
        let t = toks[0];
        let next = if is_index_token(t) {
            match parse_usize(t.subrange(1, t.len() - 1)) {
                Some(i) => match v {
                    JsonV::Array(a) => if i < a.len() {
                        Some(a[i as int])
                    } else {
                        None
                    },
                    _ => None,
                },
                None => None,
            }
        } else {
            match v {
                JsonV::Object(e) => lookup(e, t),
                _ => None,
            }
        };
        match next {
            Some(w) => value_at(w, toks.drop_first()),
            None => None,
        }
    }
}

/// The value at a path such as `Children/[0]/Text`; the empty path is the
/// value itself.
pub open spec fn value_at_path(v: JsonV, path: Seq<char>) -> Option<JsonV> {
    if path.len() == 0 {
        Some(v)
    } else {
        value_at(v, path_tokens(path))
    }
}

fn step<'a>(v: &'a Json, t: &[char]) -> (r: Option<&'a Json>)
    ensures
        (match r {
            Some(w) => Some(w@),
            None => None,
        }) == (if is_index_token(t@) {
            match parse_usize(t@.subrange(1, t@.len() - 1)) {
                Some(i) => match v@ {
                    JsonV::Array(a) => if i < a.len() {
                        Some(a[i as int])
                    } else {
                        None
                    },
                    _ => None,
                },
                None => None,
            }
        } else {
            match v@ {
                JsonV::Object(e) => lookup(e, t@),
                _ => None,
            }
        }),
{
    if t.len() >= 2 && t[0] == '[' && t[t.len() - 1] == ']' {
        let mut inner: Vec<char> = Vec::new();
        let mut k: usize = 1;
        while k < t.len() - 1
            invariant
                1 <= k <= t@.len() - 1,
                t@.len() >= 2,
                inner@ == t@.subrange(1, k as int),
            decreases t@.len() - 1 - k,
        {
            inner.push(t[k]);
            k = k + 1;
            assert(inner@ =~= t@.subrange(1, k as int));
        }
        match parse_usize_exec(inner.as_slice()) {
            Some(i) => match v {
                Json::Array(a) => {
                    proof {
                        lemma_views_of(a@);
                    }
                    if i < a.len() {
                        Some(&a[i])
                    } else {
                        None
                    }
                },
                _ => None,
            },
            None => None,
        }
    } else {
        match v {
            Json::Object(e) => {
                let key = string_of(t);
                entries_get(e, key.as_str())
            },
            _ => None,
        }
    }
}

/// The value at a path.
pub fn get_value_at_path<'a>(v: &'a Json, path: &str) -> (r: Option<&'a Json>)
    ensures
        (match r {
            Some(w) => Some(w@),
            None => None,
        }) == value_at_path(v@, path@),
{
    let pc = chars_of(path);
    if pc.len() == 0 {
        return Some(v);
    }
    let toks = split_on_exec(pc.as_slice(), '/');
    let ghost tv = views(toks@);
    proof {
        lemma_views_len(toks@);
    }
    let mut cur: &Json = v;
    let mut i: usize = 0;
    assert(tv.skip(0) =~= tv);
    while i < toks.len()
        invariant
            i <= toks@.len(),
            tv == views(toks@),
            tv == path_tokens(path@),
            tv.len() == toks@.len(),
            forall|q: int| 0 <= q < toks@.len() ==> #[trigger] tv[q] == toks@[q]@,
            value_at_path(v@, path@) == value_at(cur@, tv.skip(i as int)),
            path@.len() > 0,
        decreases toks@.len() - i,
    {
        assert(tv.skip(i as int)[0] == toks@[i as int]@);
        assert(tv.skip(i as int).drop_first() =~= tv.skip(i + 1));
        match step(cur, toks[i].as_slice()) {
            Some(w) => {
                cur = w;
            },
            None => {
                return None;
            },
        }
        i = i + 1;
    }
    assert(tv.skip(i as int) =~= Seq::<Seq<char>>::empty());
    Some(cur)
}

// ---------------------------------------------------------------------------
// Display
// ---------------------------------------------------------------------------

/// A short preview of a value: scalars as written, strings quoted and cut
/// to 77 bytes when longer than 80, containers by their size.
pub open spec fn display(v: JsonV) -> Seq<char> {
    match v {
        JsonV::Null => "null"@,
        JsonV::Bool(b) => if b {
            "true"@
        } else {
            "false"@
        },
        JsonV::Number(n) => n,
        JsonV::Str(s) => if utf8_len(s) > 80 {
            "\""@ + take_bytes(s, 77) + "...\""@
        } else {
            "\""@ + s + "\""@
        },
        JsonV::Array(a) => "["@ + decimal(a.len()) + " items]"@,
        JsonV::Object(o) => "{"@ + decimal(o.len()) + " keys}"@,
    }
}

/// A string preview that cuts the text does so on a character boundary.
pub open spec fn display_ok(v: JsonV) -> bool {
    v matches JsonV::Str(s) ==> (utf8_len(s) <= 80 || is_boundary(s, 77))
}

fn utf8_len_over80(s: &[char]) -> (r: bool)
    ensures
        r == (utf8_len(s@) > 80),
{
    let mut acc: usize = 0;
    let mut i: usize = 0;
    while i < s.len()
        invariant
            i <= s@.len(),
            acc <= 80,
            acc == utf8_len(s@.take(i as int)),
        decreases s@.len() - i,
    {
        assert(s@.take(i + 1).drop_last() =~= s@.take(i as int));
        let w = crate::text::char_width_exec(s[i]);
        if w > 80 - acc {
            proof {
                crate::text::lemma_utf8_len_concat(s@.take(i + 1), s@.skip(i + 1));
                assert(s@.take(i + 1) + s@.skip(i + 1) =~= s@);
            }
            return true;
        }
        acc = acc + w;
        i = i + 1;
    }
    assert(s@.take(s@.len() as int) =~= s@);
    false
}

pub fn format_value_for_display(v: &Json) -> (r: Vec<char>)
    requires
        display_ok(v@),
    ensures
        r@ == display(v@),
{
    let mut out: Vec<char> = Vec::new();
    match v {
        Json::Null => append_str(&mut out, "null"),
        Json::Bool(b) => if *b {
            append_str(&mut out, "true")
        } else {
            append_str(&mut out, "false")
        },
        Json::Number(n) => append_str(&mut out, n.as_str()),
        Json::Str(s) => {
            let c = chars_of(s.as_str());
            append_str(&mut out, "\"");
            if utf8_len_over80(c.as_slice()) {
                let p = prefix_bytes(c.as_slice(), 77);
                append_chars(&mut out, p.as_slice());
                append_str(&mut out, "...\"");
            } else {
                append_chars(&mut out, c.as_slice());
                append_str(&mut out, "\"");
            }
        },
        Json::Array(a) => {
            proof {
                lemma_views_of(a@);
            }
            append_str(&mut out, "[");
            let d = decimal_exec(a.len() as u64);
            append_chars(&mut out, d.as_slice());
            append_str(&mut out, " items]");
        },
        Json::Object(o) => {
            proof {
                crate::json::lemma_entry_views_of(o@);
            }
            append_str(&mut out, "{");
            let d = decimal_exec(o.len() as u64);
            append_chars(&mut out, d.as_slice());
            append_str(&mut out, " keys}");
        },
    }
    out
}

pub open spec fn escape_char(c: char) -> Seq<char> {
    if c == '&' {
        "&amp;"@
    } else if c == '<' {
        "&lt;"@
    } else if c == '>' {
        "&gt;"@
    } else if c == '"' {
        "&quot;"@
    } else if c == '\'' {
        "&#x27;"@
    } else {
        seq![c]
    }
}

/// HTML escaping of `&`, `<`, `>`, `"` and `'`.
pub open spec fn escape(s: Seq<char>) -> Seq<char>
    decreases s.len(),
{
    if s.len() == 0 {
        Seq::empty()
    } else {
        escape(s.drop_last()) + escape_char(s.last())
    }
}

proof fn lemma_escape_empty(s: Seq<char>)
    ensures
        (escape(s).len() == 0) == (s.len() == 0),
    decreases s.len(),
{
    if s.len() > 0 {
        reveal_strlit("&amp;");
        reveal_strlit("&lt;");
        reveal_strlit("&gt;");
        reveal_strlit("&quot;");
        reveal_strlit("&#x27;");
        assert(escape_char(s.last()).len() > 0);
    }
}

fn escape_html(s: &[char]) -> (r: Vec<char>)
    ensures
        r@ == escape(s@),
        (r@.len() == 0) == (s@.len() == 0),
{
    let mut out: Vec<char> = Vec::new();
    let mut i: usize = 0;
    while i < s.len()
        invariant
            i <= s@.len(),
            out@ == escape(s@.take(i as int)),
        decreases s@.len() - i,
    {
        assert(s@.take(i + 1).drop_last() =~= s@.take(i as int));
        let c = s[i];
        if c == '&' {
            append_str(&mut out, "&amp;");
        } else if c == '<' {
            append_str(&mut out, "&lt;");
        } else if c == '>' {
            append_str(&mut out, "&gt;");
        } else if c == '"' {
            append_str(&mut out, "&quot;");
        } else if c == '\'' {
            append_str(&mut out, "&#x27;");
        } else {
            let ghost before = out@;
            out.push(c);
            assert(out@ =~= before + seq![c]);
        }
        i = i + 1;
    }
    assert(s@.take(s@.len() as int) =~= s@);
    proof {
        lemma_escape_empty(s@);
    }
    out
}

// ---------------------------------------------------------------------------
// The page
// ---------------------------------------------------------------------------

pub open spec fn has_low(s: Seq<Seq<char>>, l: Seq<char>) -> bool {
    exists|i: int| 0 <= i < s.len() && unicode_lowercase(#[trigger] s[i]) == l
}

/// Both sides have paths that lowercase like `p`, but not the same ones.
pub open spec fn case_mismatch(o: Seq<Seq<char>>, d: Seq<Seq<char>>, p: Seq<char>) -> bool {
    let l = unicode_lowercase(p);
    &&& has_low(o, l)
    &&& has_low(d, l)
    &&& ((exists|i: int|
        0 <= i < o.len() && unicode_lowercase(#[trigger] o[i]) == l && !d.contains(o[i]))
        || (exists|j: int|
        0 <= j < d.len() && unicode_lowercase(#[trigger] d[j]) == l && !o.contains(d[j])))
}

/// The preview of one side's value at a path, empty when the side lacks
/// the path.
pub open spec fn side_preview(j: JsonV, present: bool, p: Seq<char>) -> Seq<char> {
    if present {
        match value_at_path(j, p) {
            Some(w) => display(w),
            None => Seq::empty(),
        }
    } else {
        Seq::empty()
    }
}

/// The row's classes: which side alone has the path, and a case mismatch.
pub open spec fn row_class(in_o: bool, in_d: bool, case: bool) -> Seq<char> {
    let a: Seq<Seq<char>> = if in_o && !in_d {
        seq!["ohm-only"@]
    } else if in_d && !in_o {
        seq!["data-only"@]
    } else {
        Seq::empty()
    };
    crate::sensors::join(
        if case {
            a.push("case-mismatch"@)
        } else {
            a
        },
        " "@,
    )
}

pub open spec fn value_cell(v: Seq<char>) -> Seq<char> {
    "<div style='color:#000'>"@ + (if v.len() == 0 {
        "—"@
    } else {
        escape(v)
    }) + "</div>"@
}

pub open spec fn path_cell(p: Seq<char>, case: bool) -> Seq<char> {
    "<div style='font-family:monospace;color:#333;font-size:0.9em'>"@ + escape(p) + "</div>"@ + (
    if case {
        "<span style='color:#b36b00;font-weight:bold;margin-left:8px'>⚠ case</span>"@
    } else {
        Seq::empty()
    })
}

pub open spec fn row_html(
    p: Seq<char>,
    cls: Seq<char>,
    left: Seq<char>,
    right: Seq<char>,
    case: bool,
) -> Seq<char> {
    let cells = "<td>"@ + path_cell(p, case) + "</td><td>"@ + value_cell(left) + "</td><td>"@
        + value_cell(right) + "</td></tr>"@;
    if cls.len() == 0 {
        "<tr>"@ + cells
    } else {
        "<tr class=\""@ + cls + "\">"@ + cells
    }
}

pub open spec fn row_for(
    p: Seq<char>,
    ohm: JsonV,
    data: JsonV,
    o: Seq<Seq<char>>,
    d: Seq<Seq<char>>,
) -> Seq<char> {
    let in_o = o.contains(p);
    let in_d = d.contains(p);
    let case = case_mismatch(o, d, p);
    row_html(
        p,
        row_class(in_o, in_d, case),
        side_preview(ohm, in_o, p),
        side_preview(data, in_d, p),
        case,
    )
}

pub open spec fn rows(
    ps: Seq<Seq<char>>,
    ohm: JsonV,
    data: JsonV,
    o: Seq<Seq<char>>,
    d: Seq<Seq<char>>,
) -> Seq<char>
    decreases ps.len(),
{
    if ps.len() == 0 {
        Seq::empty()
    } else {
        rows(ps.drop_last(), ohm, data, o, d) + row_for(ps.last(), ohm, data, o, d)
    }
}

pub open spec fn page_head() -> Seq<char> {
    "<!doctype html><html><head><meta charset='utf-8'><title>Compare ohm.json vs data.json</title><style>body{font-family:Arial,sans-serif;padding:12px}table{border-collapse:collapse;width:100%}th,td{padding:6px;border:1px solid #ddd;vertical-align:top}th{background:#f8f8f8} .ohm-only{background:#d0e7ff} .data-only{background:#d7ffd0} .case-mismatch{background:#fff3cd} .key{white-space:nowrap}</style></head><body><h1>Compare hierarchical keys: ohm.json vs data.json</h1><p>Blank = present in both • <span style='background:#d0e7ff;padding:2px 6px;margin-right:6px'>OHM only</span><span style='background:#d7ffd0;padding:2px 6px;margin-right:6px'>DATA only</span><span style='background:#fff3cd;padding:2px 6px;margin-left:6px'>Case mismatch</span></p><table><thead><tr><th style='width:50%'>Path</th><th style='width:25%'>OHM</th><th style='width:25%'>DATA</th></tr></thead><tbody>"@
}

/// The side-by-side page: one row per key path of either side, in path
/// order, or a notice when neither side has any.
pub open spec fn view_page(ohm: JsonV, data: JsonV) -> Seq<char> {
    let o = path_list(ohm, Seq::empty());
    let d = path_list(data, Seq::empty());
    if o.len() == 0 && d.len() == 0 {
        "<h1>No hierarchical keys found on either side</h1>"@
    } else {
        page_head() + rows(sort_paths(missing(o + d, Seq::empty())), ohm, data, o, d)
            + "</tbody></table></body></html>"@
    }
}

/// Every value a side shows at one of its paths can be previewed.
pub open spec fn previews_ok(j: JsonV) -> bool {
    forall|p: Seq<char>|
        #![trigger path_list(j, Seq::empty()).contains(p)]
        path_list(j, Seq::empty()).contains(p) ==> (value_at_path(j, p) matches Some(w)
            ==> display_ok(w))
}

fn lowercased(v: &Vec<Vec<char>>) -> (r: Vec<Vec<char>>)
    ensures
        r@.len() == v@.len(),
        forall|i: int| 0 <= i < v@.len() ==> (#[trigger] r@[i])@ == unicode_lowercase(v@[i]@),
{
    let mut r: Vec<Vec<char>> = Vec::new();
    let mut i: usize = 0;
    while i < v.len()
        invariant
            i <= v@.len(),
            r@.len() == i,
            forall|k: int| 0 <= k < i ==> (#[trigger] r@[k])@ == unicode_lowercase(v@[k]@),
        decreases v@.len() - i,
    {
        let s = string_of(v[i].as_slice());
        let l = to_lowercase(s.as_str());
        r.push(chars_of(l.as_str()));
        i = i + 1;
    }
    r
}

fn membership(v: &Vec<Vec<char>>, other: &Vec<Vec<char>>) -> (r: Vec<bool>)
    ensures
        r@.len() == v@.len(),
        forall|i: int| 0 <= i < v@.len() ==> #[trigger] r@[i] == views(other@).contains(v@[i]@),
{
    let mut r: Vec<bool> = Vec::new();
    let mut i: usize = 0;
    while i < v.len()
        invariant
            i <= v@.len(),
            r@.len() == i,
            forall|k: int| 0 <= k < i ==> #[trigger] r@[k] == views(other@).contains(v@[k]@),
        decreases v@.len() - i,
    {
        r.push(crate::schema::contains_chars(other, v[i].as_slice()));
        i = i + 1;
    }
    r
}

fn any_low(ls: &Vec<Vec<char>>, l: &[char]) -> (r: bool)
    ensures
        r == exists|i: int| 0 <= i < ls@.len() && (#[trigger] ls@[i])@ == l@,
{
    let mut i: usize = 0;
    while i < ls.len()
        invariant
            i <= ls@.len(),
            forall|k: int| 0 <= k < i ==> (#[trigger] ls@[k])@ != l@,
        decreases ls@.len() - i,
    {
        if chars_eq(ls[i].as_slice(), l) {
            return true;
        }
        i = i + 1;
    }
    false
}

fn any_low_unshared(ls: &Vec<Vec<char>>, shared: &Vec<bool>, l: &[char]) -> (r: bool)
    requires
        shared@.len() == ls@.len(),
    ensures
        r == exists|i: int| 0 <= i < ls@.len() && (#[trigger] ls@[i])@ == l@ && !shared@[i],
{
    let mut i: usize = 0;
    while i < ls.len()
        invariant
            i <= ls@.len(),
            shared@.len() == ls@.len(),
            forall|k: int| 0 <= k < i ==> !((#[trigger] ls@[k])@ == l@ && !shared@[k]),
        decreases ls@.len() - i,
    {
        if chars_eq(ls[i].as_slice(), l) && !shared[i] {
            return true;
        }
        i = i + 1;
    }
    false
}

fn side_preview_exec(j: &Json, present: bool, p: &String) -> (r: Vec<char>)
    requires
        previews_ok(j@),
        present ==> path_list(j@, Seq::empty()).contains(p@),
    ensures
        r@ == side_preview(j@, present, p@),
{
    if present {
        assert(path_list(j@, Seq::empty()).contains(p@));
        match get_value_at_path(j, p.as_str()) {
            Some(w) => format_value_for_display(w),
            None => Vec::new(),
        }
    } else {
        Vec::new()
    }
}

fn case_flag(
    p: &String,
    ol: &Vec<Vec<char>>,
    dl: &Vec<Vec<char>>,
    o_in_d: &Vec<bool>,
    d_in_o: &Vec<bool>,
    Ghost(ov): Ghost<Seq<Seq<char>>>,
    Ghost(dv): Ghost<Seq<Seq<char>>>,
    Ghost(oc): Ghost<Seq<Vec<char>>>,
    Ghost(dc): Ghost<Seq<Vec<char>>>,
) -> (case: bool)
    requires
        views(oc) == ov,
        views(dc) == dv,
        oc.len() == ov.len(),
        dc.len() == dv.len(),
        forall|q: int| 0 <= q < oc.len() ==> #[trigger] views(oc)[q] == oc[q]@,
        forall|q: int| 0 <= q < dc.len() ==> #[trigger] views(dc)[q] == dc[q]@,
        ol@.len() == oc.len(),
        dl@.len() == dc.len(),
        forall|q: int| 0 <= q < oc.len() ==> (#[trigger] ol@[q])@ == unicode_lowercase(oc[q]@),
        forall|q: int| 0 <= q < dc.len() ==> (#[trigger] dl@[q])@ == unicode_lowercase(dc[q]@),
        o_in_d@.len() == oc.len(),
        d_in_o@.len() == dc.len(),
        forall|q: int| 0 <= q < oc.len() ==> #[trigger] o_in_d@[q] == views(dc).contains(oc[q]@),
        forall|q: int| 0 <= q < dc.len() ==> #[trigger] d_in_o@[q] == views(oc).contains(dc[q]@),
    ensures
        case == case_mismatch(ov, dv, p@),
{
        let pl_s = to_lowercase(p.as_str());
        let pl = chars_of(pl_s.as_str());
        let h_o = any_low(&ol, pl.as_slice());
        let h_d = any_low(&dl, pl.as_slice());
        let u_o = any_low_unshared(&ol, &o_in_d, pl.as_slice());
        let u_d = any_low_unshared(&dl, &d_in_o, pl.as_slice());
        let case = h_o && h_d && (u_o || u_d);
        proof {
            let l = unicode_lowercase(p@);
            assert(h_o == has_low(ov, l)) by {
                if h_o {
                    let q = choose|q: int| 0 <= q < ol@.len() && (#[trigger] ol@[q])@ == pl@;
                    assert(unicode_lowercase(ov[q]) == l);
                }
                if has_low(ov, l) {
                    let q = choose|q: int| 0 <= q < ov.len() && unicode_lowercase(#[trigger] ov[q]) == l;
                    assert(ol@[q]@ == pl@);
                }
            }
            assert(h_d == has_low(dv, l)) by {
                if h_d {
                    let q = choose|q: int| 0 <= q < dl@.len() && (#[trigger] dl@[q])@ == pl@;
                    assert(unicode_lowercase(dv[q]) == l);
                }
                if has_low(dv, l) {
                    let q = choose|q: int| 0 <= q < dv.len() && unicode_lowercase(#[trigger] dv[q]) == l;
                    assert(dl@[q]@ == pl@);
                }
            }
            assert(u_o == exists|q: int|
                0 <= q < ov.len() && unicode_lowercase(#[trigger] ov[q]) == l && !dv.contains(ov[q])) by {
                if u_o {
                    let q = choose|q: int| 0 <= q < ol@.len() && (#[trigger] ol@[q])@ == pl@ && !o_in_d@[q];
                    assert(unicode_lowercase(ov[q]) == l && !dv.contains(ov[q]));
                }
                if exists|q: int|
                    0 <= q < ov.len() && unicode_lowercase(#[trigger] ov[q]) == l && !dv.contains(ov[q]) {
                    let q = choose|q: int|
                        0 <= q < ov.len() && unicode_lowercase(#[trigger] ov[q]) == l && !dv.contains(ov[q]);
                    assert(ol@[q]@ == pl@ && !o_in_d@[q]);
                }
            }
            assert(u_d == exists|q: int|
                0 <= q < dv.len() && unicode_lowercase(#[trigger] dv[q]) == l && !ov.contains(dv[q])) by {
                if u_d {
                    let q = choose|q: int| 0 <= q < dl@.len() && (#[trigger] dl@[q])@ == pl@ && !d_in_o@[q];
                    assert(unicode_lowercase(dv[q]) == l && !ov.contains(dv[q]));
                }
                if exists|q: int|
                    0 <= q < dv.len() && unicode_lowercase(#[trigger] dv[q]) == l && !ov.contains(dv[q]) {
                    let q = choose|q: int|
                        0 <= q < dv.len() && unicode_lowercase(#[trigger] dv[q]) == l && !ov.contains(dv[q]);
                    assert(dl@[q]@ == pl@ && !d_in_o@[q]);
                }
            }
            assert(case == case_mismatch(ov, dv, p@));
        }
    case
}

fn row_classes(in_o: bool, in_d: bool, case: bool) -> (r: Vec<char>)
    ensures
        r@ == row_class(in_o, in_d, case),
{
    let mut cls: Vec<char> = Vec::new();
    let ghost a: Seq<Seq<char>> = if in_o && !in_d {
        seq!["ohm-only"@]
    } else if in_d && !in_o {
        seq!["data-only"@]
    } else {
        Seq::empty()
    };
    if in_o && !in_d {
        append_str(&mut cls, "ohm-only");
    } else if in_d && !in_o {
        append_str(&mut cls, "data-only");
    }
    assert(cls@ =~= crate::sensors::join(a, " "@));
    if case {
        let ghost b = a.push("case-mismatch"@);
        if cls.len() > 0 {
            append_str(&mut cls, " ");
            assert(b.drop_last() =~= a);
        } else {
            proof {
                reveal_strlit("ohm-only");
                reveal_strlit("data-only");
            }
            assert(a.len() == 0);
            assert(b =~= seq!["case-mismatch"@]);
        }
        append_str(&mut cls, "case-mismatch");
        assert(cls@ =~= crate::sensors::join(b, " "@));
    }
    cls
}

fn path_cell_markup(p: &[char], case: bool) -> (r: Vec<char>)
    ensures
        r@ == path_cell(p@, case),
{
    let mut html: Vec<char> = Vec::new();
    append_str(&mut html, "<div style='font-family:monospace;color:#333;font-size:0.9em'>");
    let pe = escape_html(p);
    append_chars(&mut html, pe.as_slice());
    append_str(&mut html, "</div>");
    if case {
        append_str(
            &mut html,
            "<span style='color:#b36b00;font-weight:bold;margin-left:8px'>⚠ case</span>",
        );
    }
    html
}

fn value_cell_markup(v: &[char]) -> (r: Vec<char>)
    ensures
        r@ == value_cell(v@),
{
    let mut html: Vec<char> = Vec::new();
    append_str(&mut html, "<div style='color:#000'>");
    let e = escape_html(v);
    if e.len() == 0 {
        append_str(&mut html, "—");
    } else {
        append_chars(&mut html, e.as_slice());
    }
    append_str(&mut html, "</div>");
    html
}

fn row_markup(
    p: &[char],
    in_o: bool,
    in_d: bool,
    case: bool,
    left: &[char],
    right: &[char],
) -> (r: Vec<char>)
    ensures
        r@ == row_html(p@, row_class(in_o, in_d, case), left@, right@, case),
{
    let cls = row_classes(in_o, in_d, case);
    let mut html: Vec<char> = Vec::new();
    if cls.len() == 0 {
        append_str(&mut html, "<tr>");
    } else {
        append_str(&mut html, "<tr class=\"");
        append_chars(&mut html, cls.as_slice());
        append_str(&mut html, "\">");
    }
    let ghost head = html@;
    append_str(&mut html, "<td>");
    let pcell = path_cell_markup(p, case);
    append_chars(&mut html, pcell.as_slice());
    append_str(&mut html, "</td><td>");
    let lcell = value_cell_markup(left);
    append_chars(&mut html, lcell.as_slice());
    append_str(&mut html, "</td><td>");
    let rcell = value_cell_markup(right);
    append_chars(&mut html, rcell.as_slice());
    append_str(&mut html, "</td></tr>");
    assert(html@ =~= head + ("<td>"@ + path_cell(p@, case) + "</td><td>"@ + value_cell(left@) + "</td><td>"@
        + value_cell(right@) + "</td></tr>"@));
    html
}

/// The `/compare/view` page for the OHM export and the live tree.
pub fn compare_view_html(ohm_value: &Json, data_value: &Json) -> (r: String)
    requires
        previews_ok(ohm_value@),
        previews_ok(data_value@),
    ensures
        r@ == view_page(ohm_value@, data_value@),
{
    let mut o: Vec<String> = Vec::new();
    let mut d: Vec<String> = Vec::new();
    let mut tokens: Vec<String> = Vec::new();
    assert(tokens.deep_view() =~= Seq::<Seq<char>>::empty());
    assert(o.deep_view() =~= Seq::<Seq<char>>::empty());
    collect_paths(ohm_value, &mut tokens, &mut o);
    collect_paths(data_value, &mut tokens, &mut d);
    let ghost ov = o.deep_view();
    let ghost dv = d.deep_view();
    assert(ov =~= path_list(ohm_value@, Seq::empty()));
    assert(dv =~= path_list(data_value@, Seq::empty()));
    if o.len() == 0 && d.len() == 0 {
        return string_of(chars_of("<h1>No hierarchical keys found on either side</h1>").as_slice());
    }
    let mut both: Vec<String> = Vec::new();
    let mut k: usize = 0;
    while k < o.len()
        invariant
            k <= o@.len(),
            ov == o.deep_view(),
            both.deep_view() == ov.take(k as int),
        decreases o@.len() - k,
    {
        let ghost before = both.deep_view();
        both.push(o[k].clone());
        assert(both.deep_view() =~= before.push(ov[k as int]));
        k = k + 1;
        assert(both.deep_view() =~= ov.take(k as int));
    }
    let mut k2: usize = 0;
    assert(ov.take(o@.len() as int) =~= ov);
    while k2 < d.len()
        invariant
            k2 <= d@.len(),
            ov == o.deep_view(),
            dv == d.deep_view(),
            both.deep_view() == ov + dv.take(k2 as int),
        decreases d@.len() - k2,
    {
        let ghost before = both.deep_view();
        both.push(d[k2].clone());
        assert(both.deep_view() =~= before.push(dv[k2 as int]));
        k2 = k2 + 1;
        assert(both.deep_view() =~= ov + dv.take(k2 as int));
    }
    assert(dv.take(d@.len() as int) =~= dv);
    let none: Vec<String> = Vec::new();
    assert(none.deep_view() =~= Seq::<Seq<char>>::empty());
    let uniq = crate::schema::missing_paths(&both, &none);
    let sorted_paths = sort_paths_exec(&uniq);
    let ghost ps = sorted_paths.deep_view();
    let oc = crate::schema::char_vecs(&o);
    let dc = crate::schema::char_vecs(&d);
    proof {
        lemma_views_len(oc@);
        lemma_views_len(dc@);
    }
    let ol = lowercased(&oc);
    let dl = lowercased(&dc);
    let o_in_d = membership(&oc, &dc);
    let d_in_o = membership(&dc, &oc);
    let mut html: Vec<char> = Vec::new();
    append_str(
        &mut html,
        "<!doctype html><html><head><meta charset='utf-8'><title>Compare ohm.json vs data.json</title><style>body{font-family:Arial,sans-serif;padding:12px}table{border-collapse:collapse;width:100%}th,td{padding:6px;border:1px solid #ddd;vertical-align:top}th{background:#f8f8f8} .ohm-only{background:#d0e7ff} .data-only{background:#d7ffd0} .case-mismatch{background:#fff3cd} .key{white-space:nowrap}</style></head><body>",
    );
    append_str(&mut html, "<h1>Compare hierarchical keys: ohm.json vs data.json</h1>");
    append_str(&mut html, "<p>Blank = present in both • ");
    append_str(
        &mut html,
        "<span style='background:#d0e7ff;padding:2px 6px;margin-right:6px'>OHM only</span>",
    );
    append_str(
        &mut html,
        "<span style='background:#d7ffd0;padding:2px 6px;margin-right:6px'>DATA only</span>",
    );
    append_str(
        &mut html,
        "<span style='background:#fff3cd;padding:2px 6px;margin-left:6px'>Case mismatch</span></p>",
    );
    append_str(
        &mut html,
        "<table><thead><tr><th style='width:50%'>Path</th><th style='width:25%'>OHM</th><th style='width:25%'>DATA</th></tr></thead><tbody>",
    );
    proof {
        reveal_strlit("<!doctype html><html><head><meta charset='utf-8'><title>Compare ohm.json vs data.json</title><style>body{font-family:Arial,sans-serif;padding:12px}table{border-collapse:collapse;width:100%}th,td{padding:6px;border:1px solid #ddd;vertical-align:top}th{background:#f8f8f8} .ohm-only{background:#d0e7ff} .data-only{background:#d7ffd0} .case-mismatch{background:#fff3cd} .key{white-space:nowrap}</style></head><body>");
        reveal_strlit("<h1>Compare hierarchical keys: ohm.json vs data.json</h1>");
        reveal_strlit("<p>Blank = present in both • ");
        reveal_strlit("<span style='background:#d0e7ff;padding:2px 6px;margin-right:6px'>OHM only</span>");
        reveal_strlit("<span style='background:#d7ffd0;padding:2px 6px;margin-right:6px'>DATA only</span>");
        reveal_strlit("<span style='background:#fff3cd;padding:2px 6px;margin-left:6px'>Case mismatch</span></p>");
        reveal_strlit("<table><thead><tr><th style='width:50%'>Path</th><th style='width:25%'>OHM</th><th style='width:25%'>DATA</th></tr></thead><tbody>");
        reveal_strlit("<!doctype html><html><head><meta charset='utf-8'><title>Compare ohm.json vs data.json</title><style>body{font-family:Arial,sans-serif;padding:12px}table{border-collapse:collapse;width:100%}th,td{padding:6px;border:1px solid #ddd;vertical-align:top}th{background:#f8f8f8} .ohm-only{background:#d0e7ff} .data-only{background:#d7ffd0} .case-mismatch{background:#fff3cd} .key{white-space:nowrap}</style></head><body><h1>Compare hierarchical keys: ohm.json vs data.json</h1><p>Blank = present in both • <span style='background:#d0e7ff;padding:2px 6px;margin-right:6px'>OHM only</span><span style='background:#d7ffd0;padding:2px 6px;margin-right:6px'>DATA only</span><span style='background:#fff3cd;padding:2px 6px;margin-left:6px'>Case mismatch</span></p><table><thead><tr><th style='width:50%'>Path</th><th style='width:25%'>OHM</th><th style='width:25%'>DATA</th></tr></thead><tbody>");
    }
    assert(html@ =~= page_head());
    let mut i: usize = 0;
    while i < sorted_paths.len()
        invariant
            i <= sorted_paths@.len(),
            ps == sorted_paths.deep_view(),
            ov == o.deep_view(),
            dv == d.deep_view(),
            ov == path_list(ohm_value@, Seq::empty()),
            dv == path_list(data_value@, Seq::empty()),
            previews_ok(ohm_value@),
            previews_ok(data_value@),
            views(oc@) == ov,
            views(dc@) == dv,
            oc@.len() == ov.len(),
            dc@.len() == dv.len(),
            forall|q: int| 0 <= q < oc@.len() ==> #[trigger] views(oc@)[q] == oc@[q]@,
            forall|q: int| 0 <= q < dc@.len() ==> #[trigger] views(dc@)[q] == dc@[q]@,
            ol@.len() == oc@.len(),
            dl@.len() == dc@.len(),
            forall|q: int| 0 <= q < oc@.len() ==> (#[trigger] ol@[q])@ == unicode_lowercase(oc@[q]@),
            forall|q: int| 0 <= q < dc@.len() ==> (#[trigger] dl@[q])@ == unicode_lowercase(dc@[q]@),
            o_in_d@.len() == oc@.len(),
            d_in_o@.len() == dc@.len(),
            forall|q: int| 0 <= q < oc@.len() ==> #[trigger] o_in_d@[q] == views(dc@).contains(oc@[q]@),
            forall|q: int| 0 <= q < dc@.len() ==> #[trigger] d_in_o@[q] == views(oc@).contains(dc@[q]@),
            html@ == page_head() + rows(ps.take(i as int), ohm_value@, data_value@, ov, dv),
        decreases sorted_paths@.len() - i,
    {
        assert(ps.take(i + 1).drop_last() =~= ps.take(i as int));
        assert(ps.take(i + 1).last() == sorted_paths@[i as int]@);
        let p = &sorted_paths[i];
        let pc = chars_of(p.as_str());
        let in_o = crate::schema::contains_chars(&oc, pc.as_slice());
        let in_d = crate::schema::contains_chars(&dc, pc.as_slice());
        let case = case_flag(p, &ol, &dl, &o_in_d, &d_in_o, Ghost(ov), Ghost(dv), Ghost(oc@), Ghost(dc@));
        let left = side_preview_exec(ohm_value, in_o, p);
        let right = side_preview_exec(data_value, in_d, p);
        let ghost before = html@;
        let row = row_markup(pc.as_slice(), in_o, in_d, case, left.as_slice(), right.as_slice());
        append_chars(&mut html, row.as_slice());
        assert(row@ == row_for(p@, ohm_value@, data_value@, ov, dv));
        assert(html@ =~= before + row@);
        i = i + 1;
    }
    assert(ps.take(sorted_paths@.len() as int) =~= ps);
    append_str(&mut html, "</tbody></table></body></html>");
    string_of(html.as_slice())
}

} // verus!
