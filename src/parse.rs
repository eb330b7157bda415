use vstd::prelude::*;
use crate::tile::{borders_of, copy_of, Tile, TileModel};
use crate::corners::models;
use vstd::std_specs::iter::IteratorSpec;

verus! {

broadcast use vstd::string::axiom_spec_iter, vstd::string::next_postcondition;

/// The pieces of `s` between newlines, the last piece included even when empty.
pub open spec fn split_newlines(s: Seq<char>) -> Seq<Seq<char>>
    decreases s.len(),
{
    if s.len() == 0 {
        seq![Seq::empty()]
    } else {
        let init = split_newlines(s.drop_last());
        if s.last() == '\n' {
            init.push(Seq::empty())
        } else {
            init.update(init.len() - 1, init.last().push(s.last()))
        }
    }
}

/// The lines of `s`: the text between newlines, where a final newline ends the last line
/// rather than starting an empty one.
pub open spec fn lines_of(s: Seq<char>) -> Seq<Seq<char>> {
    let p = split_newlines(s);
    if p.last().len() == 0 {
        p.drop_last()
    } else {
        p
    }
}

pub open spec fn is_digit(c: char) -> bool {
    '0' <= c && c <= '9'
}

pub open spec fn digit_value(c: char) -> int {
    c as int - '0' as int
}

/// A header line carries the tile's id as four decimal digits at positions 5 to 8
/// (as in `Tile 2311:`).
pub open spec fn header_ok(h: Seq<char>) -> bool {
    &&& h.len() >= 9
    &&& forall|k: int| 5 <= k < 9 ==> is_digit(#[trigger] h[k])
}

/// The id that a header line names.
pub open spec fn header_id(h: Seq<char>) -> u16 {
    (1000 * digit_value(h[5]) + 100 * digit_value(h[6]) + 10 * digit_value(h[7]) + digit_value(
        h[8],
    )) as u16
}

/// A record starts at line `k` when that line is a header, `n` lines of `n` characters
/// follow it, and after them comes a blank line or the end of the text.
pub open spec fn record_ok(ls: Seq<Seq<char>>, k: int, n: int) -> bool {
    &&& n >= 1
    &&& 0 <= k
    &&& header_ok(ls[k])
    &&& k + 1 + n <= ls.len()
    &&& forall|r: int| k + 1 <= r < k + 1 + n ==> (#[trigger] ls[r]).len() == n
    &&& (k + 1 + n == ls.len() || ls[k + 1 + n].len() == 0)
}

/// Where the record after the one at line `k` would start.
pub open spec fn next_record(ls: Seq<Seq<char>>, k: int, n: int) -> int {
    if k + 1 + n == ls.len() {
        ls.len() as int
    } else {
        k + n + 2
    }
}

/// The tile that the record at line `k` describes.
pub open spec fn record_tile(ls: Seq<Seq<char>>, k: int, n: int) -> TileModel {
    let cells = ls.subrange(k + 1, k + 1 + n);
    TileModel { id: header_id(ls[k]), cells, borders: borders_of(cells) }
}

/// The tiles of the records from line `k` on, in order; reading stops at the end of the
/// text or at an empty line where a record would start, and fails on a malformed record.
pub open spec fn records_from(ls: Seq<Seq<char>>, k: int, n: int) -> Option<Seq<TileModel>>
    decreases ls.len() - k,
{
    if k < 0 || k >= ls.len() || ls[k].len() == 0 {
        Some(Seq::empty())
    } else if !record_ok(ls, k, n) {
        None
    } else {
        match records_from(ls, next_record(ls, k, n), n) {
            Some(rest) => Some(seq![record_tile(ls, k, n)] + rest),
            None => None,
        }
    }
}

proof fn lemma_deep_chars(v: Vec<char>)
    ensures
        v.deep_view() == v@,
{
    assert(v.deep_view() =~= v@);
}

/// The characters of `s`, in order.
fn chars_of(s: &str) -> (r: Vec<char>)
    ensures
        r@ == s@,
{
    let mut r: Vec<char> = Vec::new();
    for c in it: s.chars()
        invariant
            it.seq() == s@,
            r@ == it.seq().subrange(0, it.index() as int),
    {
        r.push(c);
    }
    assert(r@ =~= s@);
    r
}

/// Splits characters into lines as `lines_of` describes.
fn split_lines(cs: &Vec<char>) -> (r: Vec<Vec<char>>)
    ensures
        r.deep_view() == lines_of(cs@),
{
    let mut lines: Vec<Vec<char>> = Vec::new();
    let mut cur: Vec<char> = Vec::new();
    let mut i: usize = 0;
    while i < cs.len()
        invariant
            i <= cs@.len(),
            lines.deep_view().push(cur@) == split_newlines(cs@.subrange(0, i as int)),
        decreases cs@.len() - i,
    {
        let ghost before = cs@.subrange(0, i as int);
        let ghost ls0 = lines.deep_view();
        let c = cs[i];
        assert(cs@.subrange(0, i + 1).drop_last() =~= before);
        if c == '\n' {
            lines.push(cur);
            cur = Vec::new();
            proof {
                lemma_deep_chars(lines@.last());
            }
            assert(lines.deep_view() =~= ls0.push(lines@.last()@));
            assert(lines.deep_view().push(cur@) =~= ls0.push(lines@.last()@).push(Seq::empty()));
        } else {
            cur.push(c);
            assert(lines.deep_view().push(cur@) =~= ls0.push(cur@));
        }
        i = i + 1;
    }
    assert(cs@.subrange(0, cs@.len() as int) =~= cs@);
    let ghost ls0 = lines.deep_view();
    if cur.len() > 0 {
        lines.push(cur);
        proof {
                lemma_deep_chars(lines@.last());
            }
            assert(lines.deep_view() =~= ls0.push(lines@.last()@));
    } else {
        assert(ls0.push(cur@).drop_last() =~= ls0);
    }
    lines
}

/// Whether some tile of `ts` has the id `id`.
pub open spec fn has_id(ts: Seq<TileModel>, id: u16) -> bool {
    exists|i: int| 0 <= i < ts.len() && #[trigger] ts[i].id == id
}

/// No two tiles of `ts` have the same id.
pub open spec fn ids_unique(ts: Seq<TileModel>) -> bool {
    forall|i: int, j: int|
        0 <= i < ts.len() && 0 <= j < ts.len() && i != j ==> #[trigger] ts[i].id != #[trigger] ts[j].id
}

/// Adds `t` to a collection keyed by id: it takes the place of the tile with its id, if
/// there is one, and otherwise comes last.
pub open spec fn insert_tile(ts: Seq<TileModel>, t: TileModel) -> Seq<TileModel> {
    if has_id(ts, t.id) {
        ts.update(choose|i: int| 0 <= i < ts.len() && #[trigger] ts[i].id == t.id, t)
    } else {
        ts.push(t)
    }
}

/// The collection keyed by id that inserting `recs` in order gives: a later tile replaces an
/// earlier one with the same id.
pub open spec fn keyed(recs: Seq<TileModel>) -> Seq<TileModel>
    decreases recs.len(),
{
    if recs.len() == 0 {
        Seq::empty()
    } else {
        insert_tile(keyed(recs.drop_last()), recs.last())
    }
}

/// The tile collection that `input` describes, with tiles of side `n`; `None` when a record
/// is malformed.
pub open spec fn parse_result(input: Seq<char>, n: int) -> Option<Seq<TileModel>> {
    match records_from(lines_of(input), 0, n) {
        Some(recs) => Some(keyed(recs)),
        None => None,
    }
}

spec fn prepend(recs: Seq<TileModel>, rest: Option<Seq<TileModel>>) -> Option<Seq<TileModel>> {
    match rest {
        Some(r) => Some(recs + r),
        None => None,
    }
}

fn read_id(h: &Vec<char>) -> (r: u16)
    requires
        header_ok(h@),
    ensures
        r == header_id(h@),
{
    let d5 = h[5] as u32 - '0' as u32;
    let d6 = h[6] as u32 - '0' as u32;
    let d7 = h[7] as u32 - '0' as u32;
    let d8 = h[8] as u32 - '0' as u32;
    (1000 * d5 + 100 * d6 + 10 * d7 + d8) as u16
}

fn is_header(h: &Vec<char>) -> (r: bool)
    ensures
        r == header_ok(h@),
{
    if h.len() < 9 {
        return false;
    }
    let mut k: usize = 5;
    while k < 9
        invariant
            5 <= k <= 9,
            h@.len() >= 9,
            forall|j: int| 5 <= j < k ==> is_digit(#[trigger] h@[j]),
        decreases 9 - k,
    {
        if !('0' <= h[k] && h[k] <= '9') {
            return false;
        }
        k = k + 1;
    }
    true
}

fn copy_lines(ls: &Vec<Vec<char>>, from: usize, to: usize) -> (r: Vec<Vec<char>>)
    requires
        from <= to <= ls@.len(),
    ensures
        r.deep_view() == ls.deep_view().subrange(from as int, to as int),
{
    let mut r: Vec<Vec<char>> = Vec::new();
    let mut i: usize = from;
    while i < to
        invariant
            from <= i <= to <= ls@.len(),
            r.deep_view() == ls.deep_view().subrange(from as int, i as int),
        decreases to - i,
    {
        let ghost r0 = r.deep_view();
        let row = copy_of(&ls[i]);
        r.push(row);
        proof {
            lemma_deep_chars(r@.last());
            lemma_deep_chars(ls@[i as int]);
        }
        assert(r.deep_view() =~= r0.push(ls@[i as int]@));
        i = i + 1;
        assert(r.deep_view() =~= ls.deep_view().subrange(from as int, i as int));
    }
    r
}

/// Adds a tile to a collection keyed by id, replacing the tile with the same id if there is one.
fn insert_keyed(tiles: &mut Vec<Tile>, t: Tile)
    requires
        ids_unique(models(old(tiles)@)),
    ensures
        models(final(tiles)@) == insert_tile(models(old(tiles)@), t@),
        ids_unique(models(final(tiles)@)),
{
    let ghost ts = models(tiles@);
    let id = t.id();
    let mut i: usize = 0;
    while i < tiles.len()
        invariant
            i <= tiles@.len(),
            ts == models(tiles@),
            ts == models(old(tiles)@),
            ids_unique(ts),
            id == t@.id,
            forall|j: int| 0 <= j < i ==> #[trigger] ts[j].id != id,
        decreases tiles@.len() - i,
    {
        assert(ts[i as int] == tiles@[i as int]@);
        if tiles[i].id() == id {
            assert(has_id(ts, t@.id));
            let ghost c = choose|j: int| 0 <= j < ts.len() && #[trigger] ts[j].id == t@.id;
            assert(c == i);
            assert(insert_tile(ts, t@) == ts.update(i as int, t@));
            tiles.set(i, t);
            assert(models(tiles@) =~= ts.update(i as int, t@));
            assert(ids_unique(models(tiles@)));
            return;
        }
        i = i + 1;
    }
    tiles.push(t);
    assert(!has_id(ts, id));
    assert(models(tiles@) =~= ts.push(t@));
}

proof fn lemma_keyed_push(recs: Seq<TileModel>, t: TileModel)
    ensures
        keyed(recs.push(t)) == insert_tile(keyed(recs), t),
{
    assert(recs.push(t).drop_last() =~= recs);
}

/// Reads the records of the lines `ls`, tiles of side `n`, into a collection keyed by id.
fn read_records(ls: &Vec<Vec<char>>, n: usize) -> (r: Option<Vec<Tile>>)
    ensures
        match r {
            Some(v) => {
                &&& records_from(ls.deep_view(), 0, n as int) is Some
                &&& models(v@) == keyed(records_from(ls.deep_view(), 0, n as int)->0)
                &&& ids_unique(models(v@))
            },
            None => records_from(ls.deep_view(), 0, n as int) is None,
        },
{
    let ghost l = ls.deep_view();
    assert forall|j: int| 0 <= j < l.len() implies #[trigger] l[j] == ls@[j]@ by {
        lemma_deep_chars(ls@[j]);
    }
    let mut tiles: Vec<Tile> = Vec::new();
    let ghost mut recs: Seq<TileModel> = Seq::empty();
    let mut k: usize = 0;
    assert(recs + records_from(l, 0, n as int)->0 =~= records_from(l, 0, n as int)->0);
    loop
        invariant
            l == ls.deep_view(),
            forall|j: int| 0 <= j < l.len() ==> #[trigger] l[j] == ls@[j]@,
            k <= l.len(),
            prepend(recs, records_from(l, k as int, n as int)) == records_from(l, 0, n as int),
            models(tiles@) == keyed(recs),
            ids_unique(models(tiles@)),
        decreases l.len() - k,
    {
        if k >= ls.len() || ls[k].len() == 0 {
            assert(recs + Seq::empty() =~= recs);
            return Some(tiles);
        }
        if n == 0 || !is_header(&ls[k]) || n >= ls.len() - k {
            return None;
        }
        let end = k + 1 + n;
        let mut row: usize = k + 1;
        while row < end
            invariant
                l == ls.deep_view(),
                forall|j: int| 0 <= j < l.len() ==> #[trigger] l[j] == ls@[j]@,
                k + 1 <= row <= end,
                end == k + 1 + n,
                k < l.len(),
                l[k as int].len() != 0,
                prepend(recs, records_from(l, k as int, n as int)) == records_from(l, 0, n as int),
                end <= l.len(),
                forall|j: int| k + 1 <= j < row ==> (#[trigger] l[j]).len() == n,
            decreases end - row,
        {
            if ls[row].len() != n {
                assert(l[row as int].len() != n);
                assert(!record_ok(l, k as int, n as int));
                return None;
            }
            row = row + 1;
        }
        if end < ls.len() && ls[end].len() != 0 {
            return None;
        }
        assert(record_ok(l, k as int, n as int));
        let cells = copy_lines(ls, k + 1, end);
        proof {
            let g = cells.deep_view();
            assert forall|j: int| 0 <= j < g.len() implies #[trigger] g[j].len() == g.len() by {
                assert(g[j] == l[k + 1 + j]);
            }
        }
        let t = Tile::new(read_id(&ls[k]), cells);
        assert(t@ == record_tile(l, k as int, n as int));
        let ghost rest = records_from(l, next_record(l, k as int, n as int), n as int);
        insert_keyed(&mut tiles, t);
        proof {
            lemma_keyed_push(recs, t@);
            if rest is Some {
                assert(recs + (seq![t@] + rest->0) =~= recs.push(t@) + rest->0);
            }
            recs = recs.push(t@);
        }
        if end == ls.len() {
            k = end;
        } else {
            k = end + 1;
        }
    }
}

/// Parses the tile records of `input`, each a header line naming the id followed by `n`
/// lines of `n` characters, records apart by a blank line, into a collection keyed by id.
pub fn parse_tiles(input: &str, n: usize) -> (r: Option<Vec<Tile>>)
    ensures
        match r {
            Some(v) => {
                &&& parse_result(input@, n as int) == Some(models(v@))
                &&& ids_unique(models(v@))
            },
            None => parse_result(input@, n as int) is None,
        },
{
    let cs = chars_of(input);
    let ls = split_lines(&cs);
    read_records(&ls, n)
}

} // verus!
