//! The snapshot text format: a human-readable structured document
//! holding the step budget, the two dimensions, and the rows of tiles.
//!
//! The printer emits a canonical pretty form with the collections spread
//! over indented lines; the parser accepts any amount of whitespace
//! between tokens, so the canonical form reads back. Every list element
//! is followed by a comma, the closing bracket ends the list. Both
//! directions are specified byte by byte: `render_snapshot` is the exact
//! output, `parse_snapshot` the exact meaning of any input.

use vstd::prelude::*;
use vstd::string::StrSliceExecFns;
use vstd::string::StringSliceAdditionalSpecFns;

use crate::grid::Grid;
use crate::tile::Tile;
use crate::vec_grid::SnapshotError;
use crate::vec_grid::VecGrid;

verus! {

/// Space, newline, carriage return or tab.
pub open spec fn is_ws(b: u8) -> bool {
    b == 32 || b == 10 || b == 13 || b == 9
}

pub open spec fn is_digit(b: u8) -> bool {
    48 <= b <= 57
}

/// The first position at or after `i` holding no whitespace.
pub open spec fn skip_ws(s: Seq<u8>, i: int) -> int
    decreases s.len() - i,
{
    if 0 <= i < s.len() && is_ws(s[i]) {
        skip_ws(s, i + 1)
    } else {
        i
    }
}

/// The keyword `kw` occurs at position `i`.
pub open spec fn bytes_at(s: Seq<u8>, i: int, kw: Seq<u8>) -> bool {
    &&& 0 <= i
    &&& i + kw.len() <= s.len()
    &&& s.subrange(i, i + kw.len()) == kw
}

pub open spec fn kw_empty() -> Seq<u8> {
    seq![69u8, 109u8, 112u8, 116u8, 121u8]
}

pub open spec fn kw_blocker() -> Seq<u8> {
    seq![66u8, 108u8, 111u8, 99u8, 107u8, 101u8, 114u8]
}

pub open spec fn kw_regular() -> Seq<u8> {
    seq![82u8, 101u8, 103u8, 117u8, 108u8, 97u8, 114u8]
}

pub open spec fn kw_steps() -> Seq<u8> {
    seq![115u8, 116u8, 101u8, 112u8, 115u8]
}

pub open spec fn kw_height() -> Seq<u8> {
    seq![104u8, 101u8, 105u8, 103u8, 104u8, 116u8]
}

pub open spec fn kw_width() -> Seq<u8> {
    seq![119u8, 105u8, 100u8, 116u8, 104u8]
}

pub open spec fn kw_rows() -> Seq<u8> {
    seq![114u8, 111u8, 119u8, 115u8]
}

/// Accumulates decimal digits from `i` onto `acc`; fails if the value
/// would pass `limit`, stops at the first non-digit.
pub open spec fn parse_num_loop(s: Seq<u8>, i: int, acc: int, limit: int) -> Option<(int, int)>
    decreases s.len() - i,
{
    if 0 <= i < s.len() && is_digit(s[i]) {
        let acc2 = acc * 10 + (s[i] - 48);
        if acc2 > limit {
            None
        } else {
            parse_num_loop(s, i + 1, acc2, limit)
        }
    } else {
        Some((acc, i))
    }
}

/// A decimal number at `i`: at least one digit, value at most `limit`.
pub open spec fn parse_num(s: Seq<u8>, i: int, limit: int) -> Option<(int, int)> {
    if 0 <= i < s.len() && is_digit(s[i]) {
        parse_num_loop(s, i, 0, limit)
    } else {
        None
    }
}

/// A tile at `i` (no leading whitespace): one of the three keywords,
/// `Regular` followed by a parenthesized color code.
pub open spec fn parse_tile(s: Seq<u8>, i: int) -> Option<(Tile, int)> {
    if bytes_at(s, i, kw_empty()) {
        Some((Tile::Empty, i + kw_empty().len()))
    } else if bytes_at(s, i, kw_blocker()) {
        Some((Tile::Blocker, i + kw_blocker().len()))
    } else if bytes_at(s, i, kw_regular()) {
        let j = skip_ws(s, i + kw_regular().len());
        if 0 <= j < s.len() && s[j] == 40 {
            match parse_num(s, skip_ws(s, j + 1), u32::MAX as int) {
                Some((v, p)) => {
                    let q = skip_ws(s, p);
                    if 0 <= q < s.len() && s[q] == 41 {
                        Some((Tile::Regular(v as u32), q + 1))
                    } else {
                        None
                    }
                },
                None => None,
            }
        } else {
            None
        }
    } else {
        None
    }
}

/// The tail of a tile list from `i`: tiles each followed by a comma,
/// closed by a bracket.
pub open spec fn parse_tiles(s: Seq<u8>, i: int, acc: Seq<Tile>) -> Option<(Seq<Tile>, int)>
    decreases s.len() - i,
{
    let j = skip_ws(s, i);
    if 0 <= j < s.len() && s[j] == 93 {
        Some((acc, j + 1))
    } else {
        match parse_tile(s, j) {
            Some((t, p)) => {
                let q = skip_ws(s, p);
                if 0 <= q < s.len() && s[q] == 44 && q + 1 > i {
                    parse_tiles(s, q + 1, acc.push(t))
                } else {
                    None
                }
            },
            None => None,
        }
    }
}

/// One row at `i` (no leading whitespace): a bracketed tile list.
pub open spec fn parse_row(s: Seq<u8>, i: int) -> Option<(Seq<Tile>, int)> {
    if 0 <= i < s.len() && s[i] == 91 {
        parse_tiles(s, i + 1, Seq::empty())
    } else {
        None
    }
}

/// The tail of the row list from `i`: rows each followed by a comma,
/// closed by a bracket.
pub open spec fn parse_rows(s: Seq<u8>, i: int, acc: Seq<Seq<Tile>>) -> Option<
    (Seq<Seq<Tile>>, int),
>
    decreases s.len() - i,
{
    let j = skip_ws(s, i);
    if 0 <= j < s.len() && s[j] == 93 {
        Some((acc, j + 1))
    } else {
        match parse_row(s, j) {
            Some((row, p)) => {
                let q = skip_ws(s, p);
                if 0 <= q < s.len() && s[q] == 44 && q + 1 > i {
                    parse_rows(s, q + 1, acc.push(row))
                } else {
                    None
                }
            },
            None => None,
        }
    }
}

/// A named number field: the keyword, a colon, a number, a comma.
pub open spec fn parse_field(s: Seq<u8>, i: int, kw: Seq<u8>, limit: int) -> Option<(int, int)> {
    let j = skip_ws(s, i);
    if bytes_at(s, j, kw) {
        let c = skip_ws(s, j + kw.len());
        if 0 <= c < s.len() && s[c] == 58 {
            match parse_num(s, skip_ws(s, c + 1), limit) {
                Some((v, p)) => {
                    let q = skip_ws(s, p);
                    if 0 <= q < s.len() && s[q] == 44 {
                        Some((v, q + 1))
                    } else {
                        None
                    }
                },
                None => None,
            }
        } else {
            None
        }
    } else {
        None
    }
}

/// A whole snapshot document: the three number fields, the row list,
/// a closing parenthesis, nothing but whitespace after.
pub open spec fn parse_snapshot(s: Seq<u8>) -> Option<(int, int, int, Seq<Seq<Tile>>)> {
    let i0 = skip_ws(s, 0);
    if 0 <= i0 < s.len() && s[i0] == 40 {
        match parse_field(s, i0 + 1, kw_steps(), usize::MAX as int) {
            Some((steps, p1)) => match parse_field(s, p1, kw_height(), usize::MAX as int) {
                Some((height, p2)) => match parse_field(s, p2, kw_width(), usize::MAX as int) {
                    Some((width, p3)) => {
                        let j = skip_ws(s, p3);
                        if bytes_at(s, j, kw_rows()) {
                            let c = skip_ws(s, j + kw_rows().len());
                            if 0 <= c < s.len() && s[c] == 58 {
                                let b = skip_ws(s, c + 1);
                                if 0 <= b < s.len() && s[b] == 91 {
                                    match parse_rows(s, b + 1, Seq::empty()) {
                                        Some((rows, p4)) => {
                                            let q = skip_ws(s, p4);
                                            if 0 <= q < s.len() && s[q] == 44 {
                                                let r = skip_ws(s, q + 1);
                                                if 0 <= r < s.len() && s[r] == 41 && skip_ws(
                                                    s,
                                                    r + 1,
                                                ) == s.len() {
                                                    Some((steps, height, width, rows))
                                                } else {
                                                    None
                                                }
                                            } else {
                                                None
                                            }
                                        },
                                        None => None,
                                    }
                                } else {
                                    None
                                }
                            } else {
                                None
                            }
                        } else {
                            None
                        }
                    },
                    None => None,
                },
                None => None,
            },
            None => None,
        }
    } else {
        None
    }
}

/// The decimal digits of a nonnegative number, most significant first.
pub open spec fn render_num(n: int) -> Seq<u8>
    decreases n,
{
    if n < 10 {
        seq![(48 + n) as u8]
    } else {
        render_num(n / 10) + seq![(48 + n % 10) as u8]
    }
}

/// The text of one tile.
pub open spec fn render_tile(t: Tile) -> Seq<u8> {
    match t {
        Tile::Empty => kw_empty(),
        Tile::Blocker => kw_blocker(),
        Tile::Regular(c) => kw_regular() + seq![40u8] + render_num(c as int) + seq![41u8],
    }
}

/// The tiles of a row, each followed by a comma.
pub open spec fn render_row_items(r: Seq<Tile>) -> Seq<u8>
    decreases r.len(),
{
    if r.len() == 0 {
        Seq::empty()
    } else {
        render_row_items(r.drop_last()) + render_tile(r.last()) + seq![44u8]
    }
}

/// One bracketed row.
pub open spec fn render_row(r: Seq<Tile>) -> Seq<u8> {
    seq![91u8] + render_row_items(r) + seq![93u8]
}

/// Eight spaces, one indent level inside the row list.
pub open spec fn lit_row_indent() -> Seq<u8> {
    seq![32u8, 32u8, 32u8, 32u8, 32u8, 32u8, 32u8, 32u8]
}

/// The rows, each indented and followed by a comma and a newline.
pub open spec fn render_rows_items(rows: Seq<Seq<Tile>>) -> Seq<u8>
    decreases rows.len(),
{
    if rows.len() == 0 {
        Seq::empty()
    } else {
        render_rows_items(rows.drop_last()) + lit_row_indent() + render_row(rows.last())
            + seq![44u8, 10u8]
    }
}

/// `(\n    steps: `
pub open spec fn lit_head() -> Seq<u8> {
    seq![40u8, 10u8, 32u8, 32u8, 32u8, 32u8] + kw_steps() + seq![58u8, 32u8]
}

/// `,\n    height: `
pub open spec fn lit_height() -> Seq<u8> {
    seq![44u8, 10u8, 32u8, 32u8, 32u8, 32u8] + kw_height() + seq![58u8, 32u8]
}

/// `,\n    width: `
pub open spec fn lit_width() -> Seq<u8> {
    seq![44u8, 10u8, 32u8, 32u8, 32u8, 32u8] + kw_width() + seq![58u8, 32u8]
}

/// `,\n    rows: [\n`
pub open spec fn lit_rows() -> Seq<u8> {
    seq![44u8, 10u8, 32u8, 32u8, 32u8, 32u8] + kw_rows() + seq![58u8, 32u8, 91u8, 10u8]
}

/// `    ],\n)`
pub open spec fn lit_tail() -> Seq<u8> {
    seq![32u8, 32u8, 32u8, 32u8, 93u8, 44u8, 10u8, 41u8]
}

/// The canonical text of a whole snapshot.
pub open spec fn render_snapshot(steps: int, height: int, width: int, rows: Seq<Seq<Tile>>) -> Seq<
    u8,
> {
    lit_head() + render_num(steps) + lit_height() + render_num(height) + lit_width() + render_num(
        width,
    ) + lit_rows() + render_rows_items(rows) + lit_tail()
}

fn skip_ws_exec(v: &Vec<u8>, i: usize) -> (r: usize)
    requires
        i <= v@.len(),
    ensures
        r as int == skip_ws(v@, i as int),
        i <= r <= v@.len(),
{
    let mut cur: usize = i;
    while cur < v.len() && (v[cur] == 32 || v[cur] == 10 || v[cur] == 13 || v[cur] == 9)
        invariant
            i <= cur <= v@.len(),
            skip_ws(v@, i as int) == skip_ws(v@, cur as int),
        decreases v@.len() - cur,
    {
        cur = cur + 1;
    }
    cur
}

/// The keyword occurs at `i` of the text; compares byte by byte.
fn match_at(v: &Vec<u8>, i: usize, kw: &Vec<u8>) -> (r: bool)
    ensures
        r == bytes_at(v@, i as int, kw@),
{
    if i > v.len() || v.len() - i < kw.len() {
        return false;
    }
    let n = kw.len();
    let mut m: usize = 0;
    while m < n
        invariant
            n == kw@.len(),
            i + n <= v@.len(),
            v@.len() <= usize::MAX,
            m <= n,
            forall|t: int| 0 <= t < m ==> v@[i + t] == kw@[t],
        decreases n - m,
    {
        if v[i + m] != kw[m] {
            proof {
                let sub = v@.subrange(i as int, i as int + kw@.len());
                assert(sub[m as int] == v@[i as int + m]);
            }
            return false;
        }
        m = m + 1;
    }
    proof {
        assert(v@.subrange(i as int, i as int + kw@.len()) =~= kw@);
    }
    true
}

fn kw_empty_vec() -> (k: Vec<u8>)
    ensures
        k@ == kw_empty(),
{
    let mut k: Vec<u8> = Vec::new();
    k.push(69);
    k.push(109);
    k.push(112);
    k.push(116);
    k.push(121);
    proof {
        assert(k@ =~= kw_empty());
    }
    k
}

fn kw_blocker_vec() -> (k: Vec<u8>)
    ensures
        k@ == kw_blocker(),
{
    let mut k: Vec<u8> = Vec::new();
    k.push(66);
    k.push(108);
    k.push(111);
    k.push(99);
    k.push(107);
    k.push(101);
    k.push(114);
    proof {
        assert(k@ =~= kw_blocker());
    }
    k
}

fn kw_regular_vec() -> (k: Vec<u8>)
    ensures
        k@ == kw_regular(),
{
    let mut k: Vec<u8> = Vec::new();
    k.push(82);
    k.push(101);
    k.push(103);
    k.push(117);
    k.push(108);
    k.push(97);
    k.push(114);
    proof {
        assert(k@ =~= kw_regular());
    }
    k
}

fn kw_steps_vec() -> (k: Vec<u8>)
    ensures
        k@ == kw_steps(),
{
    let mut k: Vec<u8> = Vec::new();
    k.push(115);
    k.push(116);
    k.push(101);
    k.push(112);
    k.push(115);
    proof {
        assert(k@ =~= kw_steps());
    }
    k
}

fn kw_height_vec() -> (k: Vec<u8>)
    ensures
        k@ == kw_height(),
{
    let mut k: Vec<u8> = Vec::new();
    k.push(104);
    k.push(101);
    k.push(105);
    k.push(103);
    k.push(104);
    k.push(116);
    proof {
        assert(k@ =~= kw_height());
    }
    k
}

fn kw_width_vec() -> (k: Vec<u8>)
    ensures
        k@ == kw_width(),
{
    let mut k: Vec<u8> = Vec::new();
    k.push(119);
    k.push(105);
    k.push(100);
    k.push(116);
    k.push(104);
    proof {
        assert(k@ =~= kw_width());
    }
    k
}

fn kw_rows_vec() -> (k: Vec<u8>)
    ensures
        k@ == kw_rows(),
{
    let mut k: Vec<u8> = Vec::new();
    k.push(114);
    k.push(111);
    k.push(119);
    k.push(115);
    proof {
        assert(k@ =~= kw_rows());
    }
    k
}

fn parse_num_exec(v: &Vec<u8>, i: usize, limit: u64) -> (r: Option<(u64, usize)>)
    ensures
        match r {
            None => parse_num(v@, i as int, limit as int) is None,
            Some(vp) => vp.1 <= v@.len() && vp.0 <= limit && parse_num(v@, i as int, limit as int)
                == Some((vp.0 as int, vp.1 as int)),
        },
{
    if !(i < v.len() && 48 <= v[i] && v[i] <= 57) {
        return None;
    }
    let mut acc: u64 = 0;
    let mut p: usize = i;
    while p < v.len() && 48 <= v[p] && v[p] <= 57
        invariant
            i <= p <= v@.len(),
            acc <= limit,
            parse_num_loop(v@, i as int, 0, limit as int) == parse_num_loop(
                v@,
                p as int,
                acc as int,
                limit as int,
            ),
        decreases v@.len() - p,
    {
        let d = v[p] - 48;
        let wide = (acc as u128) * 10 + (d as u128);
        if wide > limit as u128 {
            return None;
        }
        acc = wide as u64;
        p = p + 1;
    }
    Some((acc, p))
}

fn parse_tile_exec(v: &Vec<u8>, i: usize) -> (r: Option<(Tile, usize)>)
    requires
        i <= v@.len(),
    ensures
        match r {
            None => parse_tile(v@, i as int) is None,
            Some(tp) => tp.1 <= v@.len() && parse_tile(v@, i as int) == Some((
                tp.0,
                tp.1 as int,
            )),
        },
{
    let end = v.len();
    let kwe = kw_empty_vec();
    if match_at(v, i, &kwe) {
        return Some((Tile::Empty, i + 5));
    }
    let kwb = kw_blocker_vec();
    if match_at(v, i, &kwb) {
        return Some((Tile::Blocker, i + 7));
    }
    let kwr = kw_regular_vec();
    if match_at(v, i, &kwr) {
        let j = skip_ws_exec(v, i + 7);
        if j < v.len() && v[j] == 40 {
            let after = skip_ws_exec(v, j + 1);
            match parse_num_exec(v, after, 4294967295u64) {
                Some((val, p)) => {
                    let q = skip_ws_exec(v, p);
                    if q < v.len() && v[q] == 41 {
                        return Some((Tile::Regular(val as u32), q + 1));
                    }
                    return None;
                },
                None => {
                    return None;
                },
            }
        }
        return None;
    }
    None
}

fn parse_tiles_exec(v: &Vec<u8>, i: usize, acc: Vec<Tile>) -> (r: Option<(Vec<Tile>, usize)>)
    requires
        i <= v@.len(),
    ensures
        match r {
            None => parse_tiles(v@, i as int, acc@) is None,
            Some(tp) => tp.1 <= v@.len() && parse_tiles(v@, i as int, acc@) == Some((
                tp.0@,
                tp.1 as int,
            )),
        },
    decreases v@.len() - i,
{
    let j = skip_ws_exec(v, i);
    if j < v.len() && v[j] == 93 {
        return Some((acc, j + 1));
    }
    match parse_tile_exec(v, j) {
        Some((t, p)) => {
            let q = skip_ws_exec(v, p);
            if q < v.len() && v[q] == 44 && q + 1 > i {
                let mut acc2 = acc;
                acc2.push(t);
                parse_tiles_exec(v, q + 1, acc2)
            } else {
                None
            }
        },
        None => None,
    }
}

fn parse_row_exec(v: &Vec<u8>, i: usize) -> (r: Option<(Vec<Tile>, usize)>)
    requires
        i <= v@.len(),
    ensures
        match r {
            None => parse_row(v@, i as int) is None,
            Some(tp) => tp.1 <= v@.len() && parse_row(v@, i as int) == Some((
                tp.0@,
                tp.1 as int,
            )),
        },
{
    if i < v.len() && v[i] == 91 {
        parse_tiles_exec(v, i + 1, Vec::new())
    } else {
        None
    }
}

fn parse_rows_exec(v: &Vec<u8>, i: usize, acc: Vec<Vec<Tile>>) -> (r: Option<
    (Vec<Vec<Tile>>, usize),
>)
    requires
        i <= v@.len(),
    ensures
        match r {
            None => parse_rows(v@, i as int, acc@.map_values(|row: Vec<Tile>| row@)) is None,
            Some(tp) => tp.1 <= v@.len() && parse_rows(
                v@,
                i as int,
                acc@.map_values(|row: Vec<Tile>| row@),
            ) == Some((tp.0@.map_values(|row: Vec<Tile>| row@), tp.1 as int)),
        },
    decreases v@.len() - i,
{
    let j = skip_ws_exec(v, i);
    if j < v.len() && v[j] == 93 {
        return Some((acc, j + 1));
    }
    match parse_row_exec(v, j) {
        Some((row, p)) => {
            let q = skip_ws_exec(v, p);
            if q < v.len() && v[q] == 44 && q + 1 > i {
                let ghost old_acc = acc@;
                let mut acc2 = acc;
                acc2.push(row);
                proof {
                    assert(acc2@.map_values(|r2: Vec<Tile>| r2@) =~= old_acc.map_values(
                        |r2: Vec<Tile>| r2@,
                    ).push(row@));
                }
                parse_rows_exec(v, q + 1, acc2)
            } else {
                None
            }
        },
        None => None,
    }
}

fn parse_field_exec(v: &Vec<u8>, i: usize, kw: &Vec<u8>, limit: u64) -> (r: Option<(u64, usize)>)
    requires
        i <= v@.len(),
    ensures
        match r {
            None => parse_field(v@, i as int, kw@, limit as int) is None,
            Some(vp) => vp.1 <= v@.len() && vp.0 <= limit && parse_field(
                v@,
                i as int,
                kw@,
                limit as int,
            ) == Some((vp.0 as int, vp.1 as int)),
        },
{
    let end = v.len();
    let j = skip_ws_exec(v, i);
    if !match_at(v, j, kw) {
        return None;
    }
    let c = skip_ws_exec(v, j + kw.len());
    if !(c < v.len() && v[c] == 58) {
        return None;
    }
    let after = skip_ws_exec(v, c + 1);
    match parse_num_exec(v, after, limit) {
        Some((val, p)) => {
            let q = skip_ws_exec(v, p);
            if q < v.len() && v[q] == 44 {
                Some((val, q + 1))
            } else {
                None
            }
        },
        None => None,
    }
}

/// Runs the whole grammar over the text. The numbers come back bounded
/// by the machine word as the grammar demands.
fn parse_snapshot_exec(v: &Vec<u8>) -> (r: Option<(usize, usize, usize, Vec<Vec<Tile>>)>)
    ensures
        match r {
            None => parse_snapshot(v@) is None,
            Some(out) => parse_snapshot(v@) == Some((
                out.0 as int,
                out.1 as int,
                out.2 as int,
                out.3@.map_values(|row: Vec<Tile>| row@),
            )),
        },
{
    let i0 = skip_ws_exec(v, 0);
    if !(i0 < v.len() && v[i0] == 40) {
        return None;
    }
    let kws = kw_steps_vec();
    let kwh = kw_height_vec();
    let kww = kw_width_vec();
    let kwr = kw_rows_vec();
    let lim: u64 = usize::MAX as u64;
    match parse_field_exec(v, i0 + 1, &kws, lim) {
        Some((steps, p1)) => match parse_field_exec(v, p1, &kwh, lim) {
            Some((height, p2)) => match parse_field_exec(v, p2, &kww, lim) {
                Some((width, p3)) => {
                    let j = skip_ws_exec(v, p3);
                    if !match_at(v, j, &kwr) {
                        return None;
                    }
                    let c = skip_ws_exec(v, j + 4);
                    if !(c < v.len() && v[c] == 58) {
                        return None;
                    }
                    let b = skip_ws_exec(v, c + 1);
                    if !(b < v.len() && v[b] == 91) {
                        return None;
                    }
                    let no_rows: Vec<Vec<Tile>> = Vec::new();
                    proof {
                        assert(no_rows@.map_values(|row: Vec<Tile>| row@) =~= Seq::<
                            Seq<Tile>,
                        >::empty());
                    }
                    match parse_rows_exec(v, b + 1, no_rows) {
                        Some((rows, p4)) => {
                            let q = skip_ws_exec(v, p4);
                            if !(q < v.len() && v[q] == 44) {
                                return None;
                            }
                            let rr = skip_ws_exec(v, q + 1);
                            if !(rr < v.len() && v[rr] == 41) {
                                return None;
                            }
                            if skip_ws_exec(v, rr + 1) != v.len() {
                                return None;
                            }
                            Some((steps as usize, height as usize, width as usize, rows))
                        },
                        None => None,
                    }
                },
                None => None,
            },
            None => None,
        },
        None => None,
    }
}

fn push_byte(out: &mut Vec<u8>, b: u8)
    ensures
        final(out)@ == old(out)@ + seq![b],
{
    out.push(b);
    proof {
        assert(out@ =~= old(out)@ + seq![b]);
    }
}

fn push_all(out: &mut Vec<u8>, add: &Vec<u8>)
    ensures
        final(out)@ == old(out)@ + add@,
{
    let n = add.len();
    let mut m: usize = 0;
    while m < n
        invariant
            n == add@.len(),
            m <= n,
            out@ == old(out)@ + add@.take(m as int),
        decreases n - m,
    {
        out.push(add[m]);
        proof {
            assert(out@ =~= old(out)@ + add@.take(m as int + 1));
        }
        m = m + 1;
    }
    proof {
        assert(add@.take(n as int) =~= add@);
    }
}

/// Appends the decimal digits of `n`, most significant first.
fn push_num(out: &mut Vec<u8>, n: u64)
    ensures
        final(out)@ == old(out)@ + render_num(n as int),
    decreases n,
{
    if n < 10 {
        push_byte(out, 48 + n as u8);
    } else {
        push_num(out, n / 10);
        push_byte(out, 48 + (n % 10) as u8);
        proof {
            assert(out@ =~= old(out)@ + render_num(n as int));
        }
    }
}

/// Appends the text of one tile.
fn push_tile(out: &mut Vec<u8>, t: Tile)
    ensures
        final(out)@ == old(out)@ + render_tile(t),
{
    match t {
        Tile::Empty => {
            let kw = kw_empty_vec();
            push_all(out, &kw);
        },
        Tile::Blocker => {
            let kw = kw_blocker_vec();
            push_all(out, &kw);
        },
        Tile::Regular(c) => {
            let kw = kw_regular_vec();
            push_all(out, &kw);
            push_byte(out, 40);
            push_num(out, c as u64);
            push_byte(out, 41);
            proof {
                assert(out@ =~= old(out)@ + render_tile(t));
            }
        },
    }
}

/// Appends one bracketed row.
fn push_row(out: &mut Vec<u8>, row: &Vec<Tile>)
    ensures
        final(out)@ == old(out)@ + render_row(row@),
{
    push_byte(out, 91);
    let n = row.len();
    let mut x: usize = 0;
    while x < n
        invariant
            n == row@.len(),
            x <= n,
            out@ == old(out)@ + seq![91u8] + render_row_items(row@.take(x as int)),
        decreases n - x,
    {
        push_tile(out, row[x]);
        push_byte(out, 44);
        proof {
            let taken = row@.take(x as int + 1);
            assert(taken.drop_last() =~= row@.take(x as int));
            assert(taken.last() == row@[x as int]);
            assert(out@ =~= old(out)@ + seq![91u8] + render_row_items(taken));
        }
        x = x + 1;
    }
    push_byte(out, 93);
    proof {
        assert(row@.take(n as int) =~= row@);
        assert(out@ =~= old(out)@ + render_row(row@));
    }
}

/// The whole canonical text of a snapshot, over its flat persisted parts.
fn render_snapshot_exec(steps: u64, height: u64, width: u64, rows: &Vec<Vec<Tile>>) -> (out: Vec<
    u8,
>)
    ensures
        out@ == render_snapshot(
            steps as int,
            height as int,
            width as int,
            rows@.map_values(|row: Vec<Tile>| row@),
        ),
{
    let mut out: Vec<u8> = Vec::new();
    let mut head: Vec<u8> = Vec::new();
    push_byte(&mut head, 40);
    push_byte(&mut head, 10);
    push_byte(&mut head, 32);
    push_byte(&mut head, 32);
    push_byte(&mut head, 32);
    push_byte(&mut head, 32);
    let kws = kw_steps_vec();
    push_all(&mut head, &kws);
    push_byte(&mut head, 58);
    push_byte(&mut head, 32);
    proof {
        assert(head@ =~= lit_head());
    }
    push_all(&mut out, &head);
    push_num(&mut out, steps);
    let mut sep: Vec<u8> = Vec::new();
    push_byte(&mut sep, 44);
    push_byte(&mut sep, 10);
    push_byte(&mut sep, 32);
    push_byte(&mut sep, 32);
    push_byte(&mut sep, 32);
    push_byte(&mut sep, 32);
    let kwh = kw_height_vec();
    push_all(&mut sep, &kwh);
    push_byte(&mut sep, 58);
    push_byte(&mut sep, 32);
    proof {
        assert(sep@ =~= lit_height());
    }
    push_all(&mut out, &sep);
    push_num(&mut out, height);
    let mut sep2: Vec<u8> = Vec::new();
    push_byte(&mut sep2, 44);
    push_byte(&mut sep2, 10);
    push_byte(&mut sep2, 32);
    push_byte(&mut sep2, 32);
    push_byte(&mut sep2, 32);
    push_byte(&mut sep2, 32);
    let kww = kw_width_vec();
    push_all(&mut sep2, &kww);
    push_byte(&mut sep2, 58);
    push_byte(&mut sep2, 32);
    proof {
        assert(sep2@ =~= lit_width());
    }
    push_all(&mut out, &sep2);
    push_num(&mut out, width);
    let mut sep3: Vec<u8> = Vec::new();
    push_byte(&mut sep3, 44);
    push_byte(&mut sep3, 10);
    push_byte(&mut sep3, 32);
    push_byte(&mut sep3, 32);
    push_byte(&mut sep3, 32);
    push_byte(&mut sep3, 32);
    let kwr = kw_rows_vec();
    push_all(&mut sep3, &kwr);
    push_byte(&mut sep3, 58);
    push_byte(&mut sep3, 32);
    push_byte(&mut sep3, 91);
    push_byte(&mut sep3, 10);
    proof {
        assert(sep3@ =~= lit_rows());
    }
    push_all(&mut out, &sep3);
    let ghost rows_view = rows@.map_values(|row: Vec<Tile>| row@);
    let ghost prefix = out@;
    let n = rows.len();
    let mut y: usize = 0;
    while y < n
        invariant
            n == rows@.len(),
            y <= n,
            rows_view == rows@.map_values(|row: Vec<Tile>| row@),
            out@ == prefix + render_rows_items(rows_view.take(y as int)),
        decreases n - y,
    {
        push_byte(&mut out, 32);
        push_byte(&mut out, 32);
        push_byte(&mut out, 32);
        push_byte(&mut out, 32);
        push_byte(&mut out, 32);
        push_byte(&mut out, 32);
        push_byte(&mut out, 32);
        push_byte(&mut out, 32);
        push_row(&mut out, &rows[y]);
        push_byte(&mut out, 44);
        push_byte(&mut out, 10);
        proof {
            let taken = rows_view.take(y as int + 1);
            assert(taken.drop_last() =~= rows_view.take(y as int));
            assert(taken.last() == rows_view[y as int]);
            assert(rows_view[y as int] == rows@[y as int]@);
            assert(out@ =~= prefix + render_rows_items(taken));
        }
        y = y + 1;
    }
    let mut tail: Vec<u8> = Vec::new();
    push_byte(&mut tail, 32);
    push_byte(&mut tail, 32);
    push_byte(&mut tail, 32);
    push_byte(&mut tail, 32);
    push_byte(&mut tail, 93);
    push_byte(&mut tail, 44);
    push_byte(&mut tail, 10);
    push_byte(&mut tail, 41);
    proof {
        assert(tail@ =~= lit_tail());
    }
    push_all(&mut out, &tail);
    proof {
        assert(rows_view.take(n as int) =~= rows_view);
        assert(out@ =~= render_snapshot(
            steps as int,
            height as int,
            width as int,
            rows_view,
        ));
    }
    out
}

/// Every byte of a sequence is ASCII.
pub open spec fn all_ascii(s: Seq<u8>) -> bool {
    forall|i: int| 0 <= i < s.len() ==> s[i] < 128
}

proof fn lemma_render_num_ascii(n: int)
    requires
        0 <= n,
    ensures
        all_ascii(render_num(n)),
    decreases n,
{
    if n >= 10 {
        lemma_render_num_ascii(n / 10);
        assert forall|i: int|
            0 <= i < render_num(n).len() implies render_num(n)[i] < 128 by {
            if i < render_num(n / 10).len() {
                assert(render_num(n)[i] == render_num(n / 10)[i]);
            }
        }
    }
}

proof fn lemma_render_tile_ascii(t: Tile)
    ensures
        all_ascii(render_tile(t)),
{
    match t {
        Tile::Empty => {},
        Tile::Blocker => {},
        Tile::Regular(c) => {
            lemma_render_num_ascii(c as int);
        },
    }
}

proof fn lemma_append_ascii(a: Seq<u8>, b: Seq<u8>)
    requires
        all_ascii(a),
        all_ascii(b),
    ensures
        all_ascii(a + b),
{
    assert forall|i: int| 0 <= i < (a + b).len() implies (a + b)[i] < 128 by {
        if i < a.len() {
            assert((a + b)[i] == a[i]);
        } else {
            assert((a + b)[i] == b[i - a.len()]);
        }
    }
}

proof fn lemma_render_row_ascii(r: Seq<Tile>)
    ensures
        all_ascii(render_row_items(r)),
        all_ascii(render_row(r)),
    decreases r.len(),
{
    if r.len() == 0 {
    } else {
        lemma_render_row_ascii(r.drop_last());
        lemma_render_tile_ascii(r.last());
        lemma_append_ascii(render_row_items(r.drop_last()), render_tile(r.last()));
        lemma_append_ascii(
            render_row_items(r.drop_last()) + render_tile(r.last()),
            seq![44u8],
        );
    }
    lemma_append_ascii(seq![91u8], render_row_items(r));
    lemma_append_ascii(seq![91u8] + render_row_items(r), seq![93u8]);
    assert(render_row(r) == seq![91u8] + render_row_items(r) + seq![93u8]);
}

proof fn lemma_render_rows_ascii(rows: Seq<Seq<Tile>>)
    ensures
        all_ascii(render_rows_items(rows)),
    decreases rows.len(),
{
    if rows.len() == 0 {
    } else {
        lemma_render_rows_ascii(rows.drop_last());
        lemma_render_row_ascii(rows.last());
        lemma_append_ascii(render_rows_items(rows.drop_last()), lit_row_indent());
        lemma_append_ascii(
            render_rows_items(rows.drop_last()) + lit_row_indent(),
            render_row(rows.last()),
        );
        lemma_append_ascii(
            render_rows_items(rows.drop_last()) + lit_row_indent() + render_row(rows.last()),
            seq![44u8, 10u8],
        );
    }
}

/// The canonical text never leaves ASCII, so it converts to characters
/// byte for byte.
pub proof fn lemma_render_snapshot_ascii(steps: int, height: int, width: int, rows: Seq<Seq<Tile>>)
    requires
        0 <= steps,
        0 <= height,
        0 <= width,
    ensures
        all_ascii(render_snapshot(steps, height, width, rows)),
{
    lemma_render_num_ascii(steps);
    lemma_render_num_ascii(height);
    lemma_render_num_ascii(width);
    lemma_render_rows_ascii(rows);
    let a = lit_head() + render_num(steps);
    lemma_append_ascii(lit_head(), render_num(steps));
    let b = a + lit_height();
    lemma_append_ascii(a, lit_height());
    let c = b + render_num(height);
    lemma_append_ascii(b, render_num(height));
    let d = c + lit_width();
    lemma_append_ascii(c, lit_width());
    let e = d + render_num(width);
    lemma_append_ascii(d, render_num(width));
    let f = e + lit_rows();
    lemma_append_ascii(e, lit_rows());
    let g = f + render_rows_items(rows);
    lemma_append_ascii(f, render_rows_items(rows));
    lemma_append_ascii(g, lit_tail());
}

/// Relies on `String::from_utf8`: ASCII bytes are valid UTF-8 and decode
/// to exactly one character per byte, each with the byte's code.
#[verifier::external_body]
fn ascii_to_string(v: Vec<u8>) -> (s: String)
    requires
        all_ascii(v@),
    ensures
        s@ == v@.map_values(|b: u8| b as char),
{
    String::from_utf8(v).unwrap_or_default()
}

proof fn lemma_bytes_at_split(s: Seq<u8>, i: int, a: Seq<u8>, b: Seq<u8>)
    requires
        bytes_at(s, i, a + b),
    ensures
        bytes_at(s, i, a),
        bytes_at(s, i + a.len(), b),
{
    let whole = s.subrange(i, i + (a + b).len());
    assert(s.subrange(i, i + a.len()) =~= a) by {
        assert forall|k: int| 0 <= k < a.len() implies s.subrange(i, i + a.len())[k] == a[k] by {
            assert(whole[k] == (a + b)[k]);
        }
    }
    assert(s.subrange(i + a.len(), i + a.len() + b.len()) =~= b) by {
        assert forall|k: int|
            0 <= k < b.len() implies s.subrange(i + a.len(), i + a.len() + b.len())[k] == b[k] by {
            assert(whole[a.len() + k] == (a + b)[a.len() + k]);
        }
    }
}

proof fn lemma_bytes_at_index(s: Seq<u8>, i: int, kw: Seq<u8>, k: int)
    requires
        bytes_at(s, i, kw),
        0 <= k < kw.len(),
    ensures
        s[i + k] == kw[k],
{
    assert(s.subrange(i, i + kw.len())[k] == s[i + k]);
}

/// Skipping whitespace stops immediately on a non-whitespace byte.
proof fn lemma_skip_ws_none(s: Seq<u8>, i: int)
    requires
        0 <= i,
        i >= s.len() || !is_ws(s[i]),
    ensures
        skip_ws(s, i) == i,
{
}

/// Skipping whitespace crosses a known whitespace run.
proof fn lemma_skip_ws_run(s: Seq<u8>, i: int, j: int)
    requires
        0 <= i <= j <= s.len(),
        forall|k: int| i <= k < j ==> is_ws(#[trigger] s[k]),
    ensures
        skip_ws(s, i) == skip_ws(s, j),
    decreases j - i,
{
    if i < j {
        assert(is_ws(s[i]));
        lemma_skip_ws_run(s, i + 1, j);
    }
}

pub open spec fn pow10(k: nat) -> int
    decreases k,
{
    if k == 0 {
        1
    } else {
        10 * pow10((k - 1) as nat)
    }
}

/// Every byte of a rendered number is a digit, and there is at least one.
proof fn lemma_render_num_digits(n: int)
    requires
        0 <= n,
    ensures
        render_num(n).len() >= 1,
        forall|k: int| 0 <= k < render_num(n).len() ==> is_digit(#[trigger] render_num(n)[k]),
    decreases n,
{
    if n < 10 {
        assert(render_num(n)[0] == (48 + n) as u8);
    } else {
        lemma_render_num_digits(n / 10);
        assert forall|k: int|
            0 <= k < render_num(n).len() implies is_digit(render_num(n)[k]) by {
            if k < render_num(n / 10).len() {
                assert(render_num(n)[k] == render_num(n / 10)[k]);
            } else {
                assert(render_num(n)[k] == (48 + n % 10) as u8);
            }
        }
    }
}

/// Running the digit loop over a rendered number region folds the whole
/// number onto the accumulator and stops at its end.
proof fn lemma_parse_num_loop_at(s: Seq<u8>, i: int, acc: int, n: int, limit: int)
    requires
        0 <= n,
        0 <= acc,
        bytes_at(s, i, render_num(n)),
        acc * pow10(render_num(n).len() as nat) + n <= limit,
    ensures
        parse_num_loop(s, i, acc, limit) == parse_num_loop(
            s,
            i + render_num(n).len(),
            acc * pow10(render_num(n).len() as nat) + n,
            limit,
        ),
    decreases n,
{
    lemma_render_num_digits(n);
    if n < 10 {
        lemma_bytes_at_index(s, i, render_num(n), 0);
        assert(s[i] == (48 + n) as u8);
        assert(is_digit(s[i]));
        assert(pow10(0) == 1);
        assert(pow10(1) == 10);
        assert(acc * pow10(1) + n == acc * 10 + n);
        assert(parse_num_loop(s, i, acc, limit) == parse_num_loop(s, i + 1, acc * 10 + n, limit));
    } else {
        let pre = render_num(n / 10);
        let l1 = pre.len() as nat;
        lemma_bytes_at_split(s, i, pre, seq![(48 + n % 10) as u8]);
        lemma_pow10_pos(l1);
        // the accumulator never passes the final value on the way
        let mid = acc * pow10(l1) + n / 10;
        let fin = acc * pow10((l1 + 1) as nat) + n;
        assert(pow10((l1 + 1) as nat) == 10 * pow10(l1));
        assert(fin == (acc * pow10(l1)) * 10 + (n / 10) * 10 + n % 10) by (nonlinear_arith)
            requires
                pow10((l1 + 1) as nat) == 10 * pow10(l1),
                fin == acc * pow10((l1 + 1) as nat) + n,
                n >= 0,
        {}
        assert(mid * 10 + n % 10 == fin) by (nonlinear_arith)
            requires
                mid == acc * pow10(l1) + n / 10,
                fin == (acc * pow10(l1)) * 10 + (n / 10) * 10 + n % 10,
        {}
        assert(0 <= n % 10 <= 9);
        assert(mid <= fin) by (nonlinear_arith)
            requires
                mid * 10 + n % 10 == fin,
                mid >= 0,
                n % 10 >= 0,
        {}
        assert(mid >= 0) by (nonlinear_arith)
            requires
                acc >= 0,
                pow10(l1) >= 1,
                n / 10 >= 0,
                mid == acc * pow10(l1) + n / 10,
        {}
        lemma_parse_num_loop_at(s, i, acc, n / 10, limit);
        // one more digit folds the remainder
        lemma_bytes_at_index(s, i + l1, seq![(48 + n % 10) as u8], 0);
        assert(s[i + l1] == (48 + n % 10) as u8);
        assert(is_digit(s[i + l1]));
        assert(parse_num_loop(s, i + l1, mid, limit) == parse_num_loop(
            s,
            i + l1 + 1,
            mid * 10 + n % 10,
            limit,
        ));
    }
}

/// A rendered number parses back to itself, ending right after its last
/// digit, provided that next byte is not a digit.
proof fn lemma_parse_num_at(s: Seq<u8>, i: int, n: int, limit: int)
    requires
        0 <= n <= limit,
        bytes_at(s, i, render_num(n)),
        i + render_num(n).len() >= s.len() || !is_digit(s[i + render_num(n).len()]),
    ensures
        parse_num(s, i, limit) == Some((n, i + render_num(n).len())),
{
    lemma_render_num_digits(n);
    lemma_bytes_at_index(s, i, render_num(n), 0);
    assert(pow10(render_num(n).len() as nat) >= 1) by {
        lemma_pow10_pos(render_num(n).len() as nat);
    }
    lemma_parse_num_loop_at(s, i, 0, n, limit);
    assert(0 * pow10(render_num(n).len() as nat) + n == n) by (nonlinear_arith) {}
}

proof fn lemma_pow10_pos(k: nat)
    ensures
        pow10(k) >= 1,
    decreases k,
{
    if k > 0 {
        lemma_pow10_pos((k - 1) as nat);
    }
}

/// A rendered tile starts with its keyword's first letter.
proof fn lemma_tile_first_byte(t: Tile)
    ensures
        render_tile(t).len() >= 5,
        render_tile(t)[0] == 69 || render_tile(t)[0] == 66 || render_tile(t)[0] == 82,
{
    match t {
        Tile::Empty => {},
        Tile::Blocker => {},
        Tile::Regular(c) => {
            assert(render_tile(t)[0] == kw_regular()[0]);
        },
    }
}

/// A rendered tile parses back to itself, ending right after its text.
proof fn lemma_parse_tile_at(s: Seq<u8>, i: int, t: Tile)
    requires
        bytes_at(s, i, render_tile(t)),
    ensures
        parse_tile(s, i) == Some((t, i + render_tile(t).len())),
{
    match t {
        Tile::Empty => {},
        Tile::Blocker => {
            if bytes_at(s, i, kw_empty()) {
                lemma_bytes_at_index(s, i, kw_empty(), 0);
                lemma_bytes_at_index(s, i, kw_blocker(), 0);
            }
        },
        Tile::Regular(c) => {
            let kwp = kw_regular() + seq![40u8];
            let num = render_num(c as int);
            lemma_bytes_at_split(s, i, kwp + num, seq![41u8]);
            lemma_bytes_at_split(s, i, kwp, num);
            lemma_bytes_at_split(s, i, kw_regular(), seq![40u8]);
            if bytes_at(s, i, kw_empty()) {
                lemma_bytes_at_index(s, i, kw_empty(), 0);
                lemma_bytes_at_index(s, i, kw_regular(), 0);
            }
            if bytes_at(s, i, kw_blocker()) {
                lemma_bytes_at_index(s, i, kw_blocker(), 0);
                lemma_bytes_at_index(s, i, kw_regular(), 0);
            }
            lemma_bytes_at_index(s, i + 7, seq![40u8], 0);
            lemma_skip_ws_none(s, i + 7);
            lemma_render_num_digits(c as int);
            lemma_bytes_at_index(s, i + 8, num, 0);
            lemma_skip_ws_none(s, i + 8);
            lemma_bytes_at_index(s, i + 8 + num.len(), seq![41u8], 0);
            lemma_parse_num_at(s, i + 8, c as int, u32::MAX as int);
            lemma_skip_ws_none(s, i + 8 + num.len());
        },
    }
}

/// A nonempty tile list renders as its first tile, a comma, and the rest.
proof fn lemma_row_items_front(r: Seq<Tile>)
    requires
        r.len() > 0,
    ensures
        render_row_items(r) == render_tile(r[0]) + seq![44u8] + render_row_items(r.drop_first()),
    decreases r.len(),
{
    if r.len() == 1 {
        assert(r.drop_last() =~= Seq::<Tile>::empty());
        assert(r.drop_first() =~= Seq::<Tile>::empty());
        assert(render_row_items(r) =~= render_tile(r[0]) + seq![44u8] + render_row_items(
            r.drop_first(),
        ));
    } else {
        lemma_row_items_front(r.drop_last());
        assert(r.drop_last()[0] == r[0]);
        assert(r.drop_last().drop_first() =~= r.drop_first().drop_last());
        assert(r.drop_first().last() == r.last());
        assert(render_row_items(r.drop_first()) == render_row_items(r.drop_first().drop_last())
            + render_tile(r.last()) + seq![44u8]);
        assert(render_row_items(r) =~= render_tile(r[0]) + seq![44u8] + render_row_items(
            r.drop_first(),
        ));
    }
}

/// A rendered tile list followed by its closing bracket parses back to
/// exactly those tiles, appended to the accumulator.
proof fn lemma_parse_tiles_at(s: Seq<u8>, i: int, acc: Seq<Tile>, r: Seq<Tile>)
    requires
        bytes_at(s, i, render_row_items(r) + seq![93u8]),
    ensures
        parse_tiles(s, i, acc) == Some((acc + r, i + render_row_items(r).len() + 1)),
    decreases r.len(),
{
    if r.len() == 0 {
        lemma_bytes_at_index(s, i, render_row_items(r) + seq![93u8], 0);
        lemma_skip_ws_none(s, i);
        assert(acc + r =~= acc);
    } else {
        lemma_row_items_front(r);
        let t0 = render_tile(r[0]);
        let rest = render_row_items(r.drop_first()) + seq![93u8];
        assert((render_row_items(r) + seq![93u8]) =~= t0 + seq![44u8] + rest);
        lemma_bytes_at_split(s, i, t0 + seq![44u8], rest);
        lemma_bytes_at_split(s, i, t0, seq![44u8]);
        lemma_tile_first_byte(r[0]);
        lemma_bytes_at_index(s, i, t0, 0);
        lemma_skip_ws_none(s, i);
        lemma_parse_tile_at(s, i, r[0]);
        lemma_bytes_at_index(s, i + t0.len(), seq![44u8], 0);
        lemma_skip_ws_none(s, i + t0.len());
        lemma_parse_tiles_at(s, i + t0.len() + 1, acc.push(r[0]), r.drop_first());
        assert(acc.push(r[0]) + r.drop_first() =~= acc + r);
    }
}

/// A nonempty row list renders as its first row's line and the rest.
proof fn lemma_rows_items_front(rows: Seq<Seq<Tile>>)
    requires
        rows.len() > 0,
    ensures
        render_rows_items(rows) == lit_row_indent() + render_row(rows[0]) + seq![44u8, 10u8]
            + render_rows_items(rows.drop_first()),
    decreases rows.len(),
{
    if rows.len() == 1 {
        assert(rows.drop_last() =~= Seq::<Seq<Tile>>::empty());
        assert(rows.drop_first() =~= Seq::<Seq<Tile>>::empty());
        assert(render_rows_items(rows) =~= lit_row_indent() + render_row(rows[0]) + seq![
            44u8,
            10u8,
        ] + render_rows_items(rows.drop_first()));
    } else {
        lemma_rows_items_front(rows.drop_last());
        assert(rows.drop_last()[0] == rows[0]);
        assert(rows.drop_last().drop_first() =~= rows.drop_first().drop_last());
        assert(rows.drop_first().last() == rows.last());
        assert(render_rows_items(rows.drop_first()) == render_rows_items(
            rows.drop_first().drop_last(),
        ) + lit_row_indent() + render_row(rows.drop_first().last()) + seq![44u8, 10u8]);
        assert(render_rows_items(rows) =~= lit_row_indent() + render_row(rows[0]) + seq![
            44u8,
            10u8,
        ] + render_rows_items(rows.drop_first()));
    }
}

/// A rendered row list, led in by whitespace and closed by the indented
/// bracket, parses back to exactly those rows appended to the
/// accumulator.
proof fn lemma_parse_rows_at(s: Seq<u8>, i: int, acc: Seq<Seq<Tile>>, rows: Seq<Seq<Tile>>, lead: int)
    requires
        0 <= i,
        0 <= lead,
        forall|k: int| i <= k < i + lead ==> is_ws(#[trigger] s[k]),
        bytes_at(s, i + lead, render_rows_items(rows) + seq![32u8, 32u8, 32u8, 32u8, 93u8]),
    ensures
        parse_rows(s, i, acc) == Some(
            (acc + rows, i + lead + render_rows_items(rows).len() + 5),
        ),
    decreases rows.len(),
{
    let base = i + lead;
    if rows.len() == 0 {
        assert forall|k: int| i <= k < base + 4 implies is_ws(#[trigger] s[k]) by {
            if k >= base {
                lemma_bytes_at_index(
                    s,
                    base,
                    render_rows_items(rows) + seq![32u8, 32u8, 32u8, 32u8, 93u8],
                    k - base,
                );
            }
        }
        lemma_bytes_at_index(
            s,
            base,
            render_rows_items(rows) + seq![32u8, 32u8, 32u8, 32u8, 93u8],
            4,
        );
        lemma_skip_ws_run(s, i, base + 4);
        lemma_skip_ws_none(s, base + 4);
        assert(acc + rows =~= acc);
    } else {
        lemma_rows_items_front(rows);
        let row0 = render_row(rows[0]);
        let rest = render_rows_items(rows.drop_first()) + seq![32u8, 32u8, 32u8, 32u8, 93u8];
        assert((render_rows_items(rows) + seq![32u8, 32u8, 32u8, 32u8, 93u8]) =~= lit_row_indent()
            + row0 + seq![44u8, 10u8] + rest);
        lemma_bytes_at_split(s, i + lead, lit_row_indent() + row0 + seq![44u8, 10u8], rest);
        lemma_bytes_at_split(s, i + lead, lit_row_indent() + row0, seq![44u8, 10u8]);
        lemma_bytes_at_split(s, i + lead, lit_row_indent(), row0);
        // whitespace runs to the opening bracket of the first row
        assert forall|k: int| i <= k < base + 8 implies is_ws(#[trigger] s[k]) by {
            if k >= base {
                lemma_bytes_at_index(s, base, lit_row_indent(), k - base);
            }
        }
        assert(row0 =~= seq![91u8] + (render_row_items(rows[0]) + seq![93u8]));
        lemma_bytes_at_split(s, base + 8, seq![91u8], render_row_items(rows[0]) + seq![93u8]);
        lemma_bytes_at_index(s, base + 8, seq![91u8], 0);
        lemma_skip_ws_run(s, i, base + 8);
        lemma_skip_ws_none(s, base + 8);
        lemma_parse_tiles_at(s, base + 9, Seq::empty(), rows[0]);
        assert(Seq::<Tile>::empty() + rows[0] =~= rows[0]);
        let after_row = base + 8 + row0.len();
        lemma_bytes_at_index(s, after_row, seq![44u8, 10u8], 0);
        lemma_skip_ws_none(s, after_row);
        lemma_bytes_at_index(s, after_row, seq![44u8, 10u8], 1);
        assert forall|k: int|
            after_row + 1 <= k < after_row + 2 implies is_ws(#[trigger] s[k]) by {}
        lemma_parse_rows_at(s, after_row + 1, acc.push(rows[0]), rows.drop_first(), 1);
        assert(acc.push(rows[0]) + rows.drop_first() =~= acc + rows);
    }
}

/// A rendered number field, led in by whitespace, parses back to its
/// value, ending right after the comma.
proof fn lemma_parse_field_at(s: Seq<u8>, i: int, kw: Seq<u8>, lead: int, n: int, limit: int)
    requires
        0 <= i,
        0 <= lead,
        0 <= n <= limit,
        forall|k: int| i <= k < i + lead ==> is_ws(#[trigger] s[k]),
        bytes_at(s, i + lead, kw + seq![58u8, 32u8] + render_num(n) + seq![44u8]),
        kw.len() > 0,
        !is_ws(kw[0]),
        !is_ws(kw[kw.len() - 1]),
    ensures
        parse_field(s, i, kw, limit) == Some(
            (n, i + lead + kw.len() + 2 + render_num(n).len() + 1),
        ),
{
    let base = i + lead;
    let num = render_num(n);
    lemma_bytes_at_split(s, base, kw + seq![58u8, 32u8] + num, seq![44u8]);
    lemma_bytes_at_split(s, base, kw + seq![58u8, 32u8], num);
    lemma_bytes_at_split(s, base, kw, seq![58u8, 32u8]);
    lemma_bytes_at_index(s, base, kw, 0);
    lemma_skip_ws_run(s, i, base);
    lemma_skip_ws_none(s, base);
    lemma_bytes_at_index(s, base + kw.len(), seq![58u8, 32u8], 0);
    lemma_skip_ws_none(s, base + kw.len());
    lemma_bytes_at_index(s, base + kw.len(), seq![58u8, 32u8], 1);
    lemma_render_num_digits(n);
    lemma_bytes_at_index(s, base + kw.len() + 2, num, 0);
    assert forall|k: int|
        base + kw.len() + 1 <= k < base + kw.len() + 2 implies is_ws(#[trigger] s[k]) by {}
    lemma_skip_ws_run(s, base + kw.len() + 1, base + kw.len() + 2);
    lemma_skip_ws_none(s, base + kw.len() + 2);
    lemma_bytes_at_index(s, base + kw.len() + 2 + num.len(), seq![44u8], 0);
    lemma_parse_num_at(s, base + kw.len() + 2, n, limit);
    lemma_skip_ws_none(s, base + kw.len() + 2 + num.len());
}

/// The bytes of the opening chunk and the steps field, as the parser
/// walks them.
proof fn lemma_head_region(s: Seq<u8>, steps: int)
    requires
        0 <= steps,
        bytes_at(s, 0, lit_head()),
        bytes_at(s, 13, render_num(steps)),
        13 + (render_num(steps).len() as int) < s.len(),
        s[13 + render_num(steps).len() as int] == 44,
    ensures
        forall|k: int| 1 <= k < 6 ==> is_ws(#[trigger] s[k]),
        bytes_at(s, 6, kw_steps() + seq![58u8, 32u8] + render_num(steps) + seq![44u8]),
{
    assert forall|k: int| 1 <= k < 6 implies is_ws(#[trigger] s[k]) by {
        lemma_bytes_at_index(s, 0, lit_head(), k);
    }
    let region = kw_steps() + seq![58u8, 32u8] + render_num(steps) + seq![44u8];
    assert(s.subrange(6, 6 + region.len() as int) =~= region) by {
        assert forall|k: int| 0 <= k < region.len() implies s[6 + k] == region[k] by {
            if k < 7 {
                lemma_bytes_at_index(s, 0, lit_head(), 6 + k);
            } else if k < 7 + render_num(steps).len() {
                lemma_bytes_at_index(s, 13, render_num(steps), k - 7);
            }
        }
    }
}

/// The bytes of the rows header chunk, as the parser walks them.
proof fn lemma_rows_header(s: Seq<u8>, start: int)
    requires
        bytes_at(s, start, lit_rows()),
    ensures
        forall|k: int| start + 1 <= k < start + 6 ==> is_ws(#[trigger] s[k]),
        bytes_at(s, start + 6, kw_rows()),
        s[start + 10] == 58,
        s[start + 11] == 32,
        s[start + 12] == 91,
        s[start + 13] == 10,
{
    assert forall|k: int| start + 1 <= k < start + 6 implies is_ws(#[trigger] s[k]) by {
        lemma_bytes_at_index(s, start, lit_rows(), k - start);
    }
    assert(s.subrange(start + 6, start + 10) =~= kw_rows()) by {
        assert forall|k: int| 0 <= k < 4 implies s[start + 6 + k] == kw_rows()[k] by {
            lemma_bytes_at_index(s, start, lit_rows(), 6 + k);
        }
    }
    lemma_bytes_at_index(s, start, lit_rows(), 10);
    lemma_bytes_at_index(s, start, lit_rows(), 11);
    lemma_bytes_at_index(s, start, lit_rows(), 12);
    lemma_bytes_at_index(s, start, lit_rows(), 13);
}

/// The row list region: the items followed by the indented closing
/// bracket from the tail chunk.
proof fn lemma_rows_region(s: Seq<u8>, rows: Seq<Seq<Tile>>, d_len: int, e_len: int)
    requires
        0 <= d_len,
        e_len == d_len + render_rows_items(rows).len(),
        bytes_at(s, d_len, render_rows_items(rows)),
        bytes_at(s, e_len, lit_tail()),
    ensures
        bytes_at(s, d_len, render_rows_items(rows) + seq![32u8, 32u8, 32u8, 32u8, 93u8]),
{
    let region = render_rows_items(rows) + seq![32u8, 32u8, 32u8, 32u8, 93u8];
    assert(s.subrange(d_len, d_len + region.len() as int) =~= region) by {
        assert forall|k: int| 0 <= k < region.len() implies s[d_len + k] == region[k] by {
            if k < render_rows_items(rows).len() {
                lemma_bytes_at_index(s, d_len, render_rows_items(rows), k);
            } else {
                lemma_bytes_at_index(s, e_len, lit_tail(), k - render_rows_items(rows).len());
            }
        }
    }
}

/// The layout of a rendered snapshot: where each chunk of the document
/// sits in the byte sequence.
#[verifier::rlimit(100)]
proof fn lemma_layout(
    s: Seq<u8>,
    steps: int,
    height: int,
    width: int,
    rows: Seq<Seq<Tile>>,
    a: Seq<u8>,
    b: Seq<u8>,
    c: Seq<u8>,
    d: Seq<u8>,
    e: Seq<u8>,
)
    requires
        0 <= steps,
        0 <= height,
        0 <= width,
        s == render_snapshot(steps, height, width, rows),
        a == lit_head() + render_num(steps),
        b == a + lit_height() + render_num(height),
        c == b + lit_width() + render_num(width),
        d == c + lit_rows(),
        e == d + render_rows_items(rows),
    ensures
        bytes_at(s, 0, lit_head()),
        bytes_at(s, 13, render_num(steps)),
        bytes_at(s, a.len() as int, lit_height()),
        bytes_at(s, a.len() as int + 14, render_num(height)),
        bytes_at(s, b.len() as int, lit_width()),
        bytes_at(s, b.len() as int + 13, render_num(width)),
        bytes_at(s, c.len() as int, lit_rows()),
        bytes_at(s, d.len() as int, render_rows_items(rows)),
        bytes_at(s, e.len() as int, lit_tail()),
        s.len() == e.len() + 8,
{
    assert(s == e + lit_tail());
    assert(bytes_at(s, 0, s)) by {
        assert(s.subrange(0, s.len() as int) =~= s);
    }
    lemma_bytes_at_split(s, 0, e, lit_tail());
    lemma_bytes_at_split(s, 0, d, render_rows_items(rows));
    lemma_bytes_at_split(s, 0, c, lit_rows());
    lemma_bytes_at_split(s, 0, b + lit_width(), render_num(width));
    lemma_bytes_at_split(s, 0, b, lit_width());
    lemma_bytes_at_split(s, 0, a + lit_height(), render_num(height));
    lemma_bytes_at_split(s, 0, a, lit_height());
    lemma_bytes_at_split(s, 0, lit_head(), render_num(steps));
}

/// The steps field of a rendered snapshot parses back.
#[verifier::rlimit(100)]
proof fn lemma_round_trip_steps(s: Seq<u8>, steps: int, a: Seq<u8>)
    requires
        0 <= steps <= usize::MAX,
        a == lit_head() + render_num(steps),
        bytes_at(s, 0, lit_head()),
        bytes_at(s, 13, render_num(steps)),
        bytes_at(s, a.len() as int, lit_height()),
    ensures
        skip_ws(s, 0) == 0,
        0 < s.len(),
        s[0] == 40,
        parse_field(s, 1, kw_steps(), usize::MAX as int) == Some((steps, a.len() as int + 1)),
{
    lemma_bytes_at_index(s, 0, lit_head(), 0);
    lemma_skip_ws_none(s, 0);
    lemma_bytes_at_index(s, a.len() as int, lit_height(), 0);
    lemma_head_region(s, steps);
    lemma_parse_field_at(s, 1, kw_steps(), 5, steps, usize::MAX as int);
}

/// A middle number field of a rendered snapshot parses back.
#[verifier::rlimit(100)]
proof fn lemma_round_trip_mid_field(
    s: Seq<u8>,
    n: int,
    kw: Seq<u8>,
    sep: Seq<u8>,
    prev_len: int,
    next_len: int,
)
    requires
        0 <= n <= usize::MAX,
        kw == kw_height() || kw == kw_width(),
        sep == seq![44u8, 10u8, 32u8, 32u8, 32u8, 32u8] + kw + seq![58u8, 32u8],
        bytes_at(s, prev_len, sep),
        bytes_at(s, prev_len + sep.len(), render_num(n)),
        next_len == prev_len + sep.len() + render_num(n).len(),
        next_len < s.len(),
        s[next_len] == 44,
    ensures
        parse_field(s, prev_len + 1, kw, usize::MAX as int) == Some((n, next_len + 1)),
{
    lemma_field_region(s, prev_len, kw, n, next_len);
    lemma_parse_field_at(s, prev_len + 1, kw, 5, n, usize::MAX as int);
}

/// The rows part and the closing of a rendered snapshot parse back.
#[verifier::rlimit(100)]
proof fn lemma_round_trip_rows_part(
    s: Seq<u8>,
    rows: Seq<Seq<Tile>>,
    c_len: int,
    d_len: int,
    e_len: int,
)
    requires
        0 <= c_len,
        d_len == c_len + 14,
        e_len == d_len + render_rows_items(rows).len(),
        bytes_at(s, c_len, lit_rows()),
        bytes_at(s, d_len, render_rows_items(rows)),
        bytes_at(s, e_len, lit_tail()),
        s.len() == e_len + 8,
    ensures
        skip_ws(s, c_len + 1) == c_len + 6,
        bytes_at(s, c_len + 6, kw_rows()),
        skip_ws(s, c_len + 10) == c_len + 10,
        c_len + 10 < s.len(),
        s[c_len + 10] == 58,
        skip_ws(s, c_len + 11) == c_len + 12,
        c_len + 12 < s.len(),
        s[c_len + 12] == 91,
        parse_rows(s, c_len + 13, Seq::empty()) == Some((rows, e_len + 5)),
        skip_ws(s, e_len + 5) == e_len + 5,
        e_len + 5 < s.len(),
        s[e_len + 5] == 44,
        skip_ws(s, e_len + 6) == e_len + 7,
        e_len + 7 < s.len(),
        s[e_len + 7] == 41,
        skip_ws(s, e_len + 8) == s.len(),
{
    lemma_rows_header(s, c_len);
    lemma_skip_ws_run(s, c_len + 1, c_len + 6);
    lemma_bytes_at_index(s, c_len + 6, kw_rows(), 0);
    lemma_skip_ws_none(s, c_len + 6);
    lemma_skip_ws_none(s, c_len + 10);
    assert forall|k: int| c_len + 11 <= k < c_len + 12 implies is_ws(#[trigger] s[k]) by {}
    lemma_skip_ws_run(s, c_len + 11, c_len + 12);
    lemma_skip_ws_none(s, c_len + 12);
    lemma_rows_region(s, rows, d_len, e_len);
    lemma_bytes_at_index(s, c_len, lit_rows(), 13);
    assert forall|k: int| d_len - 1 <= k < d_len implies is_ws(#[trigger] s[k]) by {}
    lemma_parse_rows_at(s, d_len - 1, Seq::empty(), rows, 1);
    assert(Seq::<Seq<Tile>>::empty() + rows =~= rows);
    lemma_bytes_at_index(s, e_len, lit_tail(), 5);
    lemma_skip_ws_none(s, e_len + 5);
    lemma_bytes_at_index(s, e_len, lit_tail(), 6);
    lemma_bytes_at_index(s, e_len, lit_tail(), 7);
    assert forall|k: int| e_len + 6 <= k < e_len + 7 implies is_ws(#[trigger] s[k]) by {}
    lemma_skip_ws_run(s, e_len + 6, e_len + 7);
    lemma_skip_ws_none(s, e_len + 7);
    lemma_skip_ws_none(s, s.len() as int);
}

/// Gathers every fact the parser needs about a rendered document: how
/// each token region reads, field by field.
#[verifier::rlimit(100)]
proof fn lemma_parser_facts(
    s: Seq<u8>,
    steps: int,
    height: int,
    width: int,
    rows: Seq<Seq<Tile>>,
    a: Seq<u8>,
    b: Seq<u8>,
    c: Seq<u8>,
    e: Seq<u8>,
)
    requires
        0 <= steps <= usize::MAX,
        0 <= height <= usize::MAX,
        0 <= width <= usize::MAX,
        s == render_snapshot(steps, height, width, rows),
        a == lit_head() + render_num(steps),
        b == a + lit_height() + render_num(height),
        c == b + lit_width() + render_num(width),
        e == c + lit_rows() + render_rows_items(rows),
    ensures
        skip_ws(s, 0) == 0,
        0 < s.len(),
        s[0] == 40,
        parse_field(s, 1, kw_steps(), usize::MAX as int) == Some((steps, a.len() as int + 1)),
        parse_field(s, a.len() as int + 1, kw_height(), usize::MAX as int) == Some(
            (height, b.len() as int + 1),
        ),
        parse_field(s, b.len() as int + 1, kw_width(), usize::MAX as int) == Some(
            (width, c.len() as int + 1),
        ),
        skip_ws(s, c.len() as int + 1) == c.len() as int + 6,
        bytes_at(s, c.len() as int + 6, kw_rows()),
        skip_ws(s, c.len() as int + 10) == c.len() as int + 10,
        c.len() as int + 10 < s.len(),
        s[c.len() as int + 10] == 58,
        skip_ws(s, c.len() as int + 11) == c.len() as int + 12,
        c.len() as int + 12 < s.len(),
        s[c.len() as int + 12] == 91,
        parse_rows(s, c.len() as int + 13, Seq::empty()) == Some((rows, e.len() as int + 5)),
        skip_ws(s, e.len() as int + 5) == e.len() as int + 5,
        e.len() as int + 5 < s.len(),
        s[e.len() as int + 5] == 44,
        skip_ws(s, e.len() as int + 6) == e.len() as int + 7,
        e.len() as int + 7 < s.len(),
        s[e.len() as int + 7] == 41,
        skip_ws(s, e.len() as int + 8) == s.len(),
{
    let d = c + lit_rows();
    lemma_layout(s, steps, height, width, rows, a, b, c, d, e);
    lemma_round_trip_steps(s, steps, a);
    lemma_bytes_at_index(s, b.len() as int, lit_width(), 0);
    lemma_round_trip_mid_field(
        s,
        height,
        kw_height(),
        lit_height(),
        a.len() as int,
        b.len() as int,
    );
    lemma_bytes_at_index(s, c.len() as int, lit_rows(), 0);
    lemma_round_trip_mid_field(
        s,
        width,
        kw_width(),
        lit_width(),
        b.len() as int,
        c.len() as int,
    );
    lemma_round_trip_rows_part(s, rows, c.len() as int, d.len() as int, e.len() as int);
}

/// Assembles the parse of a whole rendered document from its parts.
#[verifier::rlimit(100)]
proof fn lemma_round_trip_assemble(
    s: Seq<u8>,
    steps: int,
    height: int,
    width: int,
    rows: Seq<Seq<Tile>>,
    a: Seq<u8>,
    b: Seq<u8>,
    c: Seq<u8>,
    e: Seq<u8>,
)
    requires
        0 <= steps <= usize::MAX,
        0 <= height <= usize::MAX,
        0 <= width <= usize::MAX,
        s == render_snapshot(steps, height, width, rows),
        a == lit_head() + render_num(steps),
        b == a + lit_height() + render_num(height),
        c == b + lit_width() + render_num(width),
        e == c + lit_rows() + render_rows_items(rows),
    ensures
        parse_snapshot(s) == Some((steps, height, width, rows)),
{
    lemma_parser_facts(s, steps, height, width, rows, a, b, c, e);
}

/// Loading a rendered snapshot gives back exactly what was saved: the/// Loading a rendered snapshot gives back exactly what was saved: the
/// step budget, the dimensions and the rows. Re-saving therefore
/// reproduces the identical document.
pub proof fn lemma_snapshot_round_trip(steps: int, height: int, width: int, rows: Seq<Seq<Tile>>)
    requires
        0 <= steps <= usize::MAX,
        0 <= height <= usize::MAX,
        0 <= width <= usize::MAX,
    ensures
        parse_snapshot(render_snapshot(steps, height, width, rows)) == Some(
            (steps, height, width, rows),
        ),
{
    let a = lit_head() + render_num(steps);
    let b = a + lit_height() + render_num(height);
    let c = b + lit_width() + render_num(width);
    let e = c + lit_rows() + render_rows_items(rows);
    lemma_round_trip_assemble(
        render_snapshot(steps, height, width, rows),
        steps,
        height,
        width,
        rows,
        a,
        b,
        c,
        e,
    );
}

/// The round trip through the text boundary: the snapshot's characters,
/// encoded back to bytes the way `str` stores them, still parse to
/// exactly what was saved. This is the path a saved string takes when it
/// is loaded again.
pub proof fn lemma_text_round_trip(steps: int, height: int, width: int, rows: Seq<Seq<Tile>>)
    requires
        0 <= steps <= usize::MAX,
        0 <= height <= usize::MAX,
        0 <= width <= usize::MAX,
    ensures
        ({
            let bytes = render_snapshot(steps, height, width, rows);
            let text = bytes.map_values(|b: u8| b as char);
            parse_snapshot(vstd::utf8::encode_utf8(text)) == Some((steps, height, width, rows))
        }),
{
    let bytes = render_snapshot(steps, height, width, rows);
    let text = bytes.map_values(|b: u8| b as char);
    lemma_render_snapshot_ascii(steps, height, width, rows);
    assert(vstd::utf8::is_ascii_chars(text)) by {
        assert forall|i: int| 0 <= i < text.len() implies '\0' <= #[trigger] text[i]
            <= '\u{7f}' by {
            assert(text[i] == bytes[i] as char);
            assert(bytes[i] < 128);
        }
    }
    vstd::utf8::is_ascii_chars_encode_utf8(text);
    assert(vstd::utf8::encode_utf8(text) =~= bytes) by {
        assert forall|i: int|
            0 <= i < bytes.len() implies vstd::utf8::encode_utf8(text)[i] == bytes[i] by {
            assert(text[i] == bytes[i] as char);
            assert(text[i] as u8 == vstd::utf8::encode_utf8(text)[i]);
        }
    }
    lemma_snapshot_round_trip(steps, height, width, rows);
}

/// The bytes of one number field and its trailing comma, as they sit
/// between two literal chunks of the document.
proof fn lemma_field_region(s: Seq<u8>, sep_start: int, kw: Seq<u8>, n: int, next_sep: int)
    requires
        0 <= n,
        kw.len() >= 4,
        bytes_at(s, sep_start, seq![44u8, 10u8, 32u8, 32u8, 32u8, 32u8] + kw + seq![58u8, 32u8]),
        bytes_at(s, sep_start + 6 + kw.len() + 2, render_num(n)),
        next_sep == sep_start + 6 + kw.len() + 2 + render_num(n).len(),
        next_sep < s.len(),
        s[next_sep] == 44,
    ensures
        forall|k: int| sep_start + 1 <= k < sep_start + 6 ==> is_ws(#[trigger] s[k]),
        bytes_at(s, sep_start + 6, kw + seq![58u8, 32u8] + render_num(n) + seq![44u8]),
{
    let pre = seq![44u8, 10u8, 32u8, 32u8, 32u8, 32u8] + kw + seq![58u8, 32u8];
    assert forall|k: int| sep_start + 1 <= k < sep_start + 6 implies is_ws(#[trigger] s[k]) by {
        lemma_bytes_at_index(s, sep_start, pre, k - sep_start);
    }
    let region = kw + seq![58u8, 32u8] + render_num(n) + seq![44u8];
    assert(s.subrange(sep_start + 6, sep_start + 6 + region.len()) =~= region) by {
        assert forall|k: int| 0 <= k < region.len() implies s[sep_start + 6 + k] == region[k] by {
            if k < kw.len() + 2 {
                lemma_bytes_at_index(s, sep_start, pre, 6 + k);
            } else if k < kw.len() + 2 + render_num(n).len() {
                lemma_bytes_at_index(
                    s,
                    sep_start + 6 + kw.len() + 2,
                    render_num(n),
                    k - kw.len() - 2,
                );
            }
        }
    }
}

/// The grid's rows as nested sequences, the shape the text format holds.
pub open spec fn grid_rows(g: Grid) -> Seq<Seq<Tile>> {
    Seq::new(g.h(), |y: int| Seq::new(g.w(), |x: int| g.tile_at(y, x)))
}

/// A parsed document's shape agrees with its declared dimensions and is
/// small enough to index: each axis and the cell count stay within
/// `isize`.
pub open spec fn shape_ok(height: int, width: int, rows: Seq<Seq<Tile>>) -> bool {
    &&& rows.len() == height
    &&& forall|y: int| 0 <= y < rows.len() ==> (#[trigger] rows[y]).len() == width
    &&& height <= isize::MAX
    &&& width <= isize::MAX
    &&& height * width <= isize::MAX
}

impl Grid {
    /// The canonical snapshot text of this grid, ready to persist.
    /// Animations and the pending flag are not part of it.
    pub fn to_ron(&self) -> (s: String)
        requires
            self.wf(),
        ensures
            s@ == render_snapshot(
                self.spec_steps() as int,
                self.h() as int,
                self.w() as int,
                grid_rows(*self),
            ).map_values(|b: u8| b as char),
    {
        let v = self.to_vec();
        proof {
            let lhs = v.data@.map_values(|row: Vec<Tile>| row@);
            let rhs = grid_rows(*self);
            assert forall|y: int| 0 <= y < rhs.len() implies lhs[y] =~= rhs[y] by {
                assert(lhs[y] == v.data@[y]@);
            }
            assert(lhs =~~= rhs);
        }
        let bytes = render_snapshot_exec(
            self.get_steps() as u64,
            self.get_height() as u64,
            self.get_width() as u64,
            &v.data,
        );
        proof {
            lemma_render_snapshot_ascii(
                self.spec_steps() as int,
                self.h() as int,
                self.w() as int,
                grid_rows(*self),
            );
        }
        ascii_to_string(bytes)
    }

    /// Reads a snapshot text back into a grid. A text outside the
    /// grammar is malformed; a parsed document whose shape disagrees
    /// with its declared dimensions is a dimension mismatch. The grid
    /// comes back idle: no animations, no pending clear.
    pub fn from_ron(s: &str) -> (r: Result<Grid, SnapshotError>)
        ensures
            match parse_snapshot(s.spec_bytes()) {
                None => r == Err::<Grid, SnapshotError>(SnapshotError::Malformed),
                Some(doc) => {
                    if shape_ok(doc.1, doc.2, doc.3) {
                        match r {
                            Ok(g) => {
                                &&& g.wf()
                                &&& g.h() == doc.1
                                &&& g.w() == doc.2
                                &&& g.spec_steps() == doc.0
                                &&& forall|y: int, x: int|
                                    0 <= y < doc.1 && 0 <= x < doc.2 ==> #[trigger] g.tile_at(
                                        y,
                                        x,
                                    ) == doc.3[y][x]
                                &&& g.anims() == Seq::<crate::anim::Animation>::empty()
                                &&& !g.spec_pending_pop()
                            },
                            Err(_) => false,
                        }
                    } else {
                        r == Err::<Grid, SnapshotError>(SnapshotError::DimensionMismatch)
                    }
                },
            },
    {
        let bytes = s.as_bytes_vec();
        match parse_snapshot_exec(&bytes) {
            None => Err(SnapshotError::Malformed),
            Some((steps, height, width, data)) => {
                let vg = VecGrid { steps, data, height, width };
                let ghost doc = parse_snapshot(s.spec_bytes()).unwrap();
                proof {
                    let rows = doc.3;
                    assert(rows == vg.data@.map_values(|row: Vec<Tile>| row@));
                    assert(rows.len() == vg.data@.len());
                    assert forall|y: int| 0 <= y < rows.len() implies (#[trigger] rows[y]).len()
                        == vg.data@[y]@.len() by {
                        assert(rows[y] == vg.data@[y]@);
                    }
                    if shape_ok(doc.1, doc.2, doc.3) {
                        assert forall|y: int|
                            0 <= y < vg.height implies (#[trigger] vg.data@[y])@.len()
                            == vg.width by {
                            assert(rows[y].len() == vg.width);
                        }
                        assert(vg.consistent());
                    }
                    if vg.consistent() {
                        assert forall|y: int|
                            0 <= y < rows.len() implies (#[trigger] rows[y]).len() == doc.2 by {
                            assert(vg.data@[y]@.len() == vg.width);
                        }
                        assert(shape_ok(doc.1, doc.2, doc.3));
                    }
                    assert(vg.consistent() == shape_ok(doc.1, doc.2, doc.3));
                }
                Grid::from_vec(vg)
            },
        }
    }
}

} // verus!
