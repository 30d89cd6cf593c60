//! The structure of `/proc/cpuinfo`: blank-line separated blocks of
//! `key : value` lines, one block per logical processor.
use vstd::prelude::*;
use crate::text::{
    chars_of, lemma_split_on_nonempty, lemma_views_len, parse_usize, parse_usize_exec, split_on,
    split_on_exec, string_of, trim, trim_exec, eq_str, views,
};

verus! {

/// Index of the first blank line separator `\n\n`; the length when there
/// is none.
pub open spec fn first_blank(s: Seq<char>) -> int
    decreases s.len(),
{
    if s.len() < 2 {
        s.len() as int
    } else if s[0] == '\n' && s[1] == '\n' {
        0
    } else {
        1 + first_blank(s.drop_first())
    }
}

proof fn lemma_first_blank(s: Seq<char>)
    ensures
        0 <= first_blank(s) <= s.len(),
        first_blank(s) < s.len() ==> first_blank(s) + 2 <= s.len() && s[first_blank(s)] == '\n'
            && s[first_blank(s) + 1] == '\n',
    decreases s.len(),
{
    if s.len() >= 2 && !(s[0] == '\n' && s[1] == '\n') {
        lemma_first_blank(s.drop_first());
    }
}

/// `str::split("\n\n")`: the pieces between blank line separators, matched
/// left to right.
pub open spec fn blocks(s: Seq<char>) -> Seq<Seq<char>>
    decreases s.len(),
{
    let i = first_blank(s);
    if 0 <= i && i + 2 <= s.len() {
        seq![s.take(i)] + blocks(s.skip(i + 2))
    } else {
        seq![s]
    }
}

/// A line without the `\r` of a `\r\n` ending.
pub open spec fn strip_cr(l: Seq<char>) -> Seq<char> {
    if l.len() > 0 && l.last() == '\r' {
        l.drop_last()
    } else {
        l
    }
}

pub open spec fn strip_all(ls: Seq<Seq<char>>) -> Seq<Seq<char>> {
    ls.map_values(|l: Seq<char>| strip_cr(l))
}

/// `str::lines`: pieces ended by `\n` (a `\r` before it dropped), and a
/// last unterminated piece when it is not empty.
pub open spec fn lines(s: Seq<char>) -> Seq<Seq<char>> {
    let parts = split_on(s, '\n');
    let ended = strip_all(parts.drop_last());
    if parts.last().len() > 0 {
        ended.push(parts.last())
    } else {
        ended
    }
}

/// Index of the first `:`; the length when there is none.
pub open spec fn first_colon(s: Seq<char>) -> int
    decreases s.len(),
{
    if s.len() == 0 {
        0
    } else if s[0] == ':' {
        0
    } else {
        1 + first_colon(s.drop_first())
    }
}

/// What one processor block says: the last `processor` and `core id`
/// values read as numbers, and the text of the last `cpu MHz` value.
pub struct CpuinfoBlock {
    pub processor: Option<usize>,
    pub core_id: Option<usize>,
    pub mhz: Option<String>,
}

pub struct BlockView {
    pub processor: Option<usize>,
    pub core_id: Option<usize>,
    pub mhz: Option<Seq<char>>,
}

impl View for CpuinfoBlock {
    type V = BlockView;

    open spec fn view(&self) -> BlockView {
        BlockView { processor: self.processor, core_id: self.core_id, mhz: self.mhz.deep_view() }
    }
}

pub open spec fn block_views(v: Seq<CpuinfoBlock>) -> Seq<BlockView> {
    v.map_values(|b: CpuinfoBlock| b@)
}

/// The block after reading one line: lines without `:` are skipped; the
/// trimmed key decides which field the trimmed value sets.
pub open spec fn read_line(b: BlockView, line: Seq<char>) -> BlockView {
    let c = first_colon(line);
    if c >= line.len() {
        b
    } else {
        let key = trim(line.take(c));
        let value = trim(line.skip(c + 1));
        if key == "processor"@ {
            BlockView { processor: parse_usize(value), ..b }
        } else if key == "core id"@ {
            BlockView { core_id: parse_usize(value), ..b }
        } else if key == "cpu MHz"@ {
            BlockView { mhz: Some(value), ..b }
        } else {
            b
        }
    }
}

pub open spec fn read_lines(ls: Seq<Seq<char>>) -> BlockView
    decreases ls.len(),
{
    if ls.len() == 0 {
        BlockView { processor: None, core_id: None, mhz: None }
    } else {
        read_line(read_lines(ls.drop_last()), ls.last())
    }
}

/// One view per block of the contents, in order.
pub open spec fn cpuinfo_blocks(contents: Seq<char>) -> Seq<BlockView> {
    read_all(blocks(contents))
}

pub open spec fn read_all(bs: Seq<Seq<char>>) -> Seq<BlockView> {
    bs.map_values(|b: Seq<char>| read_lines(lines(b)))
}

fn colon_position(s: &[char]) -> (r: usize)
    ensures
        r == first_colon(s@),
        r <= s@.len(),
        r < s@.len() ==> s@[r as int] == ':',
{
    let mut i: usize = 0;
    assert(s@.skip(0) =~= s@);
    while i < s.len() && s[i] != ':'
        invariant
            i <= s@.len(),
            first_colon(s@) == i + first_colon(s@.skip(i as int)),
        decreases s@.len() - i,
    {
        assert(s@.skip(i as int).drop_first() =~= s@.skip(i + 1));
        i = i + 1;
    }
    if i < s.len() {
        assert(s@.skip(i as int)[0] == s@[i as int]);
    }
    i
}

fn slice_of(s: &[char], a: usize, b: usize) -> (r: Vec<char>)
    requires
        a <= b <= s@.len(),
    ensures
        r@ == s@.subrange(a as int, b as int),
{
    let mut r: Vec<char> = Vec::new();
    let mut k: usize = a;
    while k < b
        invariant
            a <= k <= b,
            b <= s@.len(),
            r@ == s@.subrange(a as int, k as int),
        decreases b - k,
    {
        r.push(s[k]);
        k = k + 1;
        assert(r@ =~= s@.subrange(a as int, k as int));
    }
    r
}

fn read_line_exec(b: &mut CpuinfoBlock, line: &[char])
    ensures
        final(b)@ == read_line(old(b)@, line@),
{
    let c = colon_position(line);
    if c >= line.len() {
        return;
    }
    let k = slice_of(line, 0, c);
    let v = slice_of(line, c + 1, line.len());
    assert(k@ =~= line@.take(c as int));
    assert(v@ =~= line@.skip(c + 1));
    let key = trim_exec(k.as_slice());
    let value = trim_exec(v.as_slice());
    if eq_str(key.as_slice(), "processor") {
        b.processor = parse_usize_exec(value.as_slice());
    } else if eq_str(key.as_slice(), "core id") {
        b.core_id = parse_usize_exec(value.as_slice());
    } else if eq_str(key.as_slice(), "cpu MHz") {
        b.mhz = Some(string_of(value.as_slice()));
    }
}

fn read_block(block: &[char]) -> (r: CpuinfoBlock)
    ensures
        r@ == read_lines(lines(block@)),
{
    let parts = split_on_exec(block, '\n');
    proof {
        lemma_views_len(parts@);
        lemma_split_on_nonempty(block@, '\n');
    }
    let ghost pv = views(parts@);
    let ghost ls = lines(block@);
    let mut b = CpuinfoBlock { processor: None, core_id: None, mhz: None };
    let n = parts.len();
    let mut i: usize = 0;
    let ghost ended = strip_all(pv.drop_last());
    assert(ended.take(0) =~= Seq::<Seq<char>>::empty());
    while i + 1 < n
        invariant
            n == parts@.len(),
            n >= 1,
            i + 1 <= n,
            pv == views(parts@),
            pv.len() == n,
            forall|q: int| 0 <= q < n ==> #[trigger] pv[q] == parts@[q]@,
            ended == strip_all(pv.drop_last()),
            b@ == read_lines(ended.take(i as int)),
        decreases n - i,
    {
        assert(ended.take(i + 1).drop_last() =~= ended.take(i as int));
        assert(ended.take(i + 1).last() == strip_cr(pv[i as int]));
        let p = parts[i].as_slice();
        if p.len() > 0 && p[p.len() - 1] == '\r' {
            let q = slice_of(p, 0, p.len() - 1);
            assert(q@ =~= p@.drop_last());
            read_line_exec(&mut b, q.as_slice());
        } else {
            read_line_exec(&mut b, p);
        }
        i = i + 1;
    }
    assert(ended.take(i as int) =~= ended);
    let last = parts[n - 1].as_slice();
    assert(pv.last() == last@);
    if last.len() > 0 {
        read_line_exec(&mut b, last);
        assert(ls =~= ended.push(pv.last()));
        assert(ls.drop_last() =~= ended);
    } else {
        assert(ls =~= ended);
    }
    b
}

fn blank_position(s: &[char], from: usize) -> (r: usize)
    requires
        from <= s@.len(),
    ensures
        from + first_blank(s@.skip(from as int)) == r,
        r <= s@.len(),
{
    let ghost t = s@.skip(from as int);
    let mut i: usize = from;
    assert(s@.skip(from as int).skip(0) =~= t);
    while i < s.len() && i + 1 < s.len() && !(s[i] == '\n' && s[i + 1] == '\n')
        invariant
            from <= i <= s@.len(),
            first_blank(t) == (i - from) + first_blank(s@.skip(i as int)),
            t == s@.skip(from as int),
        decreases s@.len() - i,
    {
        assert(s@.skip(i as int).drop_first() =~= s@.skip(i + 1));
        assert(s@.skip(i as int)[0] == s@[i as int]);
        assert(s@.skip(i as int)[1] == s@[i + 1]);
        i = i + 1;
    }
    proof {
        lemma_first_blank(s@.skip(i as int));
    }
    if i < s.len() && i + 1 < s.len() {
        assert(s@.skip(i as int)[0] == s@[i as int]);
        assert(s@.skip(i as int)[1] == s@[i + 1]);
        i
    } else {
        s.len()
    }
}

/// The blocks of `/proc/cpuinfo` contents, one per blank-line separated
/// piece.
pub fn parse_cpuinfo_blocks(contents: &str) -> (r: Vec<CpuinfoBlock>)
    ensures
        block_views(r@) == cpuinfo_blocks(contents@),
{
    let c = chars_of(contents);
    let ghost all = c@;
    let mut out: Vec<CpuinfoBlock> = Vec::new();
    let mut start: usize = 0;
    let ghost done: Seq<Seq<char>> = Seq::empty();
    assert(all.skip(0) =~= all);
    loop
        invariant
            start <= c@.len(),
            all == c@,
            c@ == contents@,
            blocks(all) == done + blocks(all.skip(start as int)),
            block_views(out@) == read_all(done),
            out@.len() == done.len(),
        decreases c@.len() - start,
    {
        let ghost rest = all.skip(start as int);
        proof {
            lemma_first_blank(rest);
        }
        let j = blank_position(c.as_slice(), start);
        if j < c.len() && j + 1 < c.len() {
            let piece = slice_of(c.as_slice(), start, j);
            assert(piece@ =~= rest.take(first_blank(rest)));
            let b = read_block(piece.as_slice());
            let ghost before = block_views(out@);
            let ghost old_done = done;
            out.push(b);
            proof {
                assert(rest.skip(first_blank(rest) + 2) =~= all.skip(j + 2));
                assert(blocks(rest) == seq![piece@] + blocks(all.skip(j + 2)));
                done = done.push(piece@);
                assert forall|k: int| 0 <= k < done.len() implies #[trigger] block_views(out@)[k]
                    == read_all(done)[k] by {
                    if k < old_done.len() {
                        assert(block_views(out@)[k] == before[k]);
                        assert(read_all(done)[k] == read_all(old_done)[k]);
                    }
                }
            }
            assert(block_views(out@) =~= read_all(done));
            start = j + 2;
        } else {
            let piece = slice_of(c.as_slice(), start, c.len());
            assert(piece@ =~= rest);
            let b = read_block(piece.as_slice());
            let ghost before = block_views(out@);
            let ghost old_done = done;
            out.push(b);
            proof {
                assert(blocks(rest) == seq![rest]);
                done = done.push(rest);
                assert forall|k: int| 0 <= k < done.len() implies #[trigger] block_views(out@)[k]
                    == read_all(done)[k] by {
                    if k < old_done.len() {
                        assert(block_views(out@)[k] == before[k]);
                        assert(read_all(done)[k] == read_all(old_done)[k]);
                    }
                }
            }
            assert(block_views(out@) =~= read_all(done));
            assert(blocks(all) =~= done);
            return out;
        }
    }
}

} // verus!
