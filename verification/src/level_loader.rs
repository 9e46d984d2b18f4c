//! The level loader: turns a character grid and a shadow mask into a level.
//!
//! One byte per cell: `S` start, `E` finish (one collectible), `P` path,
//! `D` power station, `I` relay, `C` crater, a digit `1`..`8` a path cell
//! carrying a wire-link mark, any other byte a hole. The first occurrence of
//! a digit (scanning rows top to bottom, left to right) anchors a wire, the
//! second closes it; a digit left open, a ragged grid, a mask of different
//! shape, an extent over 127 or more than 127 start or finish tiles reject
//! the level.
//!
//! Rows are given top-first; the level's `y` axis grows upward, so input row
//! `r` becomes grid row `height - 1 - r`.

use crate::level::{
    lemma_grid_index, lemma_grid_index_injective, Pos, GRADVM, GRADVM_ORENATOR_CONFIGVRATIONES,
    TEGVLA, TEGVLA_TYPVS,
};
use crate::rover::{lemma_count_start_take_le, spec_count_start};
use vstd::arithmetic::div_mod::lemma_fundamental_div_mod_converse;
use vstd::prelude::*;

verus! {

/// Rejection of a malformed level text.
#[derive(Clone, Copy, Debug, PartialEq, Eq, Structural)]
pub enum LevelError {
    InvalidLevelFormat,
}

/// The level loader.
pub struct LevelLoaderPlugin;

/// Is this byte a wire-link mark (an ASCII digit `1` to `8`)?
pub open spec fn spec_is_link_code(c: u8) -> bool {
    49 <= c && c <= 56
}

/// The terrain a cell byte stands for; `None` is a hole.
pub open spec fn spec_tile_code(c: u8) -> Option<TEGVLA_TYPVS> {
    if c == 83 {  // 'S'
        Some(TEGVLA_TYPVS::INITIVM)
    } else if c == 69 {  // 'E'
        Some(TEGVLA_TYPVS::FINIS)
    } else if c == 80 {  // 'P'
        Some(TEGVLA_TYPVS::SEMITA)
    } else if c == 68 {  // 'D'
        Some(TEGVLA_TYPVS::SATVRNALIA)
    } else if c == 73 {  // 'I'
        Some(TEGVLA_TYPVS::INGENII)
    } else if c == 67 {  // 'C'
        Some(TEGVLA_TYPVS::CRATERA)
    } else if spec_is_link_code(c) {
        Some(TEGVLA_TYPVS::SEMITA)
    } else {
        None
    }
}

/// The width every row must have: that of the first row.
pub open spec fn spec_width(rows: Seq<Seq<u8>>) -> int {
    if rows.len() == 0 {
        0
    } else {
        rows[0].len() as int
    }
}

/// Is the character grid rectangular and within the `i8` extents?
pub open spec fn spec_rows_rect(rows: Seq<Seq<u8>>) -> bool {
    &&& rows.len() <= 127
    &&& spec_width(rows) <= 127
    &&& forall|r: int| 0 <= r < rows.len() ==> (#[trigger] rows[r]).len() == spec_width(rows)
}

/// Are the grid and mask rectangular, of the same shape, and within the
/// `i8` extents?
pub open spec fn spec_dims_ok(rows: Seq<Seq<u8>>, shadow: Seq<Seq<bool>>) -> bool {
    &&& spec_rows_rect(rows)
    &&& shadow.len() == rows.len()
    &&& forall|r: int|
        0 <= r < rows.len() ==> (#[trigger] shadow[r]).len() == spec_width(rows)
}

/// The tile of grid cell `idx` (row-major, `y` up): the terrain of its byte
/// with the mask's shadow bit.
pub open spec fn spec_cell(rows: Seq<Seq<u8>>, shadow: Seq<Seq<bool>>, idx: int) -> Option<
    TEGVLA,
> {
    let w = spec_width(rows);
    let h = rows.len() as int;
    if w <= 0 {
        None
    } else {
        let x = idx % w;
        let y = idx / w;
        let rr = h - 1 - y;
        match spec_tile_code(rows[rr][x]) {
            Some(tt) => Some(TEGVLA { TYPVS: tt, VMBRA: shadow[rr][x] }),
            None => None,
        }
    }
}

/// The whole tile grid a well-shaped input produces.
pub open spec fn spec_grid(rows: Seq<Seq<u8>>, shadow: Seq<Seq<bool>>) -> Seq<Option<TEGVLA>> {
    Seq::new((spec_width(rows) * rows.len()) as nat, |idx: int| spec_cell(rows, shadow, idx))
}

/// Number of finish tiles in a cell sequence.
pub open spec fn spec_count_finis(s: Seq<Option<TEGVLA>>) -> int
    decreases s.len(),
{
    if s.len() == 0 {
        0
    } else {
        spec_count_finis(s.drop_last()) + if crate::puzzle_evaluation::spec_is_finis(s.last()) {
            1int
        } else {
            0int
        }
    }
}

/// A prefix never holds more finish tiles than the whole sequence.
pub proof fn lemma_count_finis_take_le(s: Seq<Option<TEGVLA>>, c: int)
    requires
        0 <= c <= s.len(),
    ensures
        spec_count_finis(s.take(c)) <= spec_count_finis(s),
    decreases s.len() - c,
{
    if c == s.len() {
        assert(s.take(c) =~= s);
    } else {
        assert(s.take(c + 1).drop_last() =~= s.take(c));
        assert(s.take(c + 1).last() == s[c]);
        lemma_count_finis_take_le(s, c + 1);
    }
}

/// How many cells among the first `t` in scan order (rows top to bottom,
/// left to right) hold the byte `d`.
pub open spec fn spec_count_code_upto(rows: Seq<Seq<u8>>, d: u8, t: int) -> int
    decreases t,
{
    let w = spec_width(rows);
    if t <= 0 || w <= 0 {
        0
    } else {
        spec_count_code_upto(rows, d, t - 1) + if rows[(t - 1) / w][(t - 1) % w] == d {
            1int
        } else {
            0int
        }
    }
}

/// How many cells of the whole grid hold the byte `d`.
pub open spec fn spec_count_code(rows: Seq<Seq<u8>>, d: u8) -> int {
    spec_count_code_upto(rows, d, rows.len() * spec_width(rows))
}

/// Every wire-link digit occurs an even number of times.
pub open spec fn spec_links_matched(rows: Seq<Seq<u8>>) -> bool {
    forall|d: u8| spec_is_link_code(d) ==> #[trigger] spec_count_code(rows, d) % 2 == 0
}

/// Does the loader accept this input?
pub open spec fn spec_parse_ok(rows: Seq<Seq<u8>>, shadow: Seq<Seq<bool>>) -> bool {
    &&& spec_dims_ok(rows, shadow)
    &&& spec_links_matched(rows)
    &&& spec_count_start(spec_grid(rows, shadow)) <= 127
    &&& spec_count_finis(spec_grid(rows, shadow)) <= 127
}

/// The scan position of the grid cell `(x, y)`: its input row times the
/// width, plus its column.
pub open spec fn spec_scan_of(rows: Seq<Seq<u8>>, x: int, y: int) -> int {
    (rows.len() - 1 - y) * spec_width(rows) + x
}

/// The input-row byte of grid cell `(x, y)`.
pub open spec fn spec_code_at(rows: Seq<Seq<u8>>, x: int, y: int) -> u8 {
    rows[rows.len() - 1 - y][x]
}

/// Extending the scan by the cell of row `r`, column `c` counts that cell.
pub proof fn lemma_count_code_step(rows: Seq<Seq<u8>>, d: u8, r: int, c: int)
    requires
        spec_width(rows) > 0,
        0 <= c < spec_width(rows),
        0 <= r,
    ensures
        spec_count_code_upto(rows, d, r * spec_width(rows) + c + 1) == spec_count_code_upto(
            rows,
            d,
            r * spec_width(rows) + c,
        ) + if rows[r][c] == d {
            1int
        } else {
            0int
        },
{
    let w = spec_width(rows);
    let t = r * w + c;
    assert(r * w + c >= 0) by (nonlinear_arith)
        requires
            0 <= r,
            0 <= c,
            w > 0,
    ;
    lemma_fundamental_div_mod_converse(t, w, r, c);
}

/// The wire-link grid `nexvs` matches the input's wire marks exactly: links
/// are symmetric, never self-referential, connect two cells marked with the
/// same digit, cover every marked cell, and pair consecutive occurrences of
/// a digit in scan order (the earlier cell of a pair is that digit's
/// even-numbered occurrence, its partner the next occurrence).
/// The written link of grid cell `(x, y)`, if any, is sound: symmetric,
/// not self-referential, joining two cells marked with the same digit, the
/// scan-earlier cell an even-numbered occurrence of that digit and its
/// partner the next occurrence.
pub open spec fn spec_link_entry_ok(rows: Seq<Seq<u8>>, nexvs: Seq<Option<Pos>>, x: int, y: int) -> bool {
    let w = spec_width(rows);
    let h = rows.len() as int;
    match nexvs[y * w + x] {
        Some(q) => {
            &&& 0 <= q.x as int && (q.x as int) < w
            &&& 0 <= q.y as int && (q.y as int) < h
            &&& !(q.x as int == x && q.y as int == y)
            &&& nexvs[(q.y as int) * w + q.x as int] == Some(Pos { x: x as i8, y: y as i8 })
            &&& spec_is_link_code(spec_code_at(rows, x, y))
            &&& spec_code_at(rows, q.x as int, q.y as int) == spec_code_at(rows, x, y)
            &&& (spec_scan_of(rows, x, y) < spec_scan_of(rows, q.x as int, q.y as int) ==> {
                let d = spec_code_at(rows, x, y);
                &&& spec_count_code_upto(rows, d, spec_scan_of(rows, x, y)) % 2 == 0
                &&& spec_count_code_upto(rows, d, spec_scan_of(rows, q.x as int, q.y as int))
                    == spec_count_code_upto(rows, d, spec_scan_of(rows, x, y)) + 1
            })
        },
        None => true,
    }
}

/// The wire-link grid `nexvs` matches the input's wire marks exactly: every
/// written link is sound (`spec_link_entry_ok`) and every cell marked with
/// a digit carries a link.
pub open spec fn spec_links_ok(rows: Seq<Seq<u8>>, nexvs: Seq<Option<Pos>>) -> bool {
    let w = spec_width(rows);
    let h = rows.len() as int;
    &&& nexvs.len() == w * h
    &&& forall|x: int, y: int|
        0 <= x < w && 0 <= y < h ==> #[trigger] spec_link_entry_ok(rows, nexvs, x, y)
    &&& forall|x: int, y: int|
        0 <= x < w && 0 <= y < h && (#[trigger] nexvs[y * w + x]) is None
            ==> !spec_is_link_code(spec_code_at(rows, x, y))
}

/// Build the tile grid bottom row first, counting start and finish tiles;
/// more than 127 of either rejects the level.
fn build_grid(rows: &Vec<Vec<u8>>, shadow: &Vec<Vec<bool>>) -> (r: Result<
    (Vec<Option<TEGVLA>>, i8, i8),
    LevelError,
>)
    requires
        spec_dims_ok(rows@.map_values(|v: Vec<u8>| v@), shadow@.map_values(|v: Vec<bool>| v@)),
    ensures
        ({
            let rs = rows@.map_values(|v: Vec<u8>| v@);
            let sh = shadow@.map_values(|v: Vec<bool>| v@);
            let grid = spec_grid(rs, sh);
            &&& (r is Ok <==> spec_count_start(grid) <= 127 && spec_count_finis(grid) <= 127)
            &&& (r matches Ok(out) ==> {
                &&& out.0@ == grid
                &&& out.1 as int == spec_count_start(grid)
                &&& out.2 as int == spec_count_finis(grid)
            })
        }),
{
    let ghost rs = rows@.map_values(|v: Vec<u8>| v@);
    let ghost sh = shadow@.map_values(|v: Vec<bool>| v@);
    let ghost grid = spec_grid(rs, sh);
    let h: usize = rows.len();
    let w: usize = if h == 0 {
        0
    } else {
        rows[0].len()
    };
    proof {
        assert(w == spec_width(rs));
        assert(0 <= (w * h) as int <= 16129) by (nonlinear_arith)
            requires
                0 <= w <= 127,
                0 <= h <= 127,
        ;
    }
    let total: usize = w * h;
    let mut tiles: Vec<Option<TEGVLA>> = Vec::new();
    let mut ns: i8 = 0;
    let mut ne: i8 = 0;
    let mut cell: usize = 0;
    let mut x: usize = 0;
    let mut rr: usize = 0;
    proof {
        if total > 0 {
            assert(w > 0) by (nonlinear_arith)
                requires
                    total == w * h,
                    total > 0,
                    0 <= w,
                    0 <= h,
            ;
        }
    }
    while cell < total
        invariant
            spec_dims_ok(rs, sh),
            rs == rows@.map_values(|v: Vec<u8>| v@),
            sh == shadow@.map_values(|v: Vec<bool>| v@),
            grid == spec_grid(rs, sh),
            h == rows@.len(),
            w == spec_width(rs),
            w <= 127,
            h <= 127,
            total == w * h,
            total == grid.len(),
            cell <= total,
            cell == rr * w + x,
            cell < total ==> x < w,
            tiles@.len() == cell,
            forall|j: int| 0 <= j < cell ==> #[trigger] tiles@[j] == grid[j],
            ns as int == spec_count_start(tiles@),
            ne as int == spec_count_finis(tiles@),
            0 <= ns <= 127,
            0 <= ne <= 127,
        decreases total - cell,
    {
        proof {
            assert(rr < h) by (nonlinear_arith)
                requires
                    cell == rr * w + x,
                    cell < total,
                    total == w * h,
                    x < w,
                    0 <= rr,
            ;
            lemma_fundamental_div_mod_converse(cell as int, w as int, rr as int, x as int);
        }
        let ir: usize = h - 1 - rr;
        let code: u8 = rows[ir][x];
        let shadowed: bool = shadow[ir][x];
        let tt = tile_code(code);
        let tile: Option<TEGVLA> = match tt {
            Some(t) => Some(TEGVLA { TYPVS: t, VMBRA: shadowed }),
            None => None,
        };
        proof {
            assert(rs[ir as int] == rows@[ir as int]@);
            assert(sh[ir as int] == shadow@[ir as int]@);
            assert(tile == spec_cell(rs, sh, cell as int));
            assert(tiles@.push(tile).drop_last() =~= tiles@);
        }
        let is_start_tile = match tt {
            Some(TEGVLA_TYPVS::INITIVM) => true,
            _ => false,
        };
        let is_finis_tile = match tt {
            Some(TEGVLA_TYPVS::FINIS) => true,
            _ => false,
        };
        if is_start_tile {
            if ns == 127 {
                proof {
                    assert(tiles@.push(tile) =~= grid.take(cell as int + 1));
                    lemma_count_start_take_le(grid, cell as int + 1);
                }
                return Err(LevelError::InvalidLevelFormat);
            }
            ns = ns + 1;
        }
        if is_finis_tile {
            if ne == 127 {
                proof {
                    assert(tiles@.push(tile) =~= grid.take(cell as int + 1));
                    lemma_count_finis_take_le(grid, cell as int + 1);
                }
                return Err(LevelError::InvalidLevelFormat);
            }
            ne = ne + 1;
        }
        tiles.push(tile);
        cell = cell + 1;
        x = x + 1;
        if x == w {
            x = 0;
            rr = rr + 1;
            proof {
                assert((rr) * w == (rr - 1) * w + w) by (nonlinear_arith)
                    requires
                        1 <= rr,
                        0 <= w,
                ;
            }
        }
    }
    proof {
        assert(tiles@ =~= grid);
    }
    Ok((tiles, ns, ne))
}

/// Scan the grid for wire-link digits, pairing the first and second
/// occurrence of each digit into a symmetric link; a digit left open
/// rejects the level.
#[verifier::rlimit(100)]
fn build_links(rows: &Vec<Vec<u8>>) -> (r: Result<Vec<Option<Pos>>, LevelError>)
    requires
        spec_rows_rect(rows@.map_values(|v: Vec<u8>| v@)),
    ensures
        ({
            let rs = rows@.map_values(|v: Vec<u8>| v@);
            &&& (r is Ok <==> spec_links_matched(rs))
            &&& (r matches Ok(nexvs) ==> spec_links_ok(rs, nexvs@))
        }),
{
    let ghost rs = rows@.map_values(|v: Vec<u8>| v@);
    let h: usize = rows.len();
    let w: usize = if h == 0 {
        0
    } else {
        rows[0].len()
    };
    proof {
        assert(w == spec_width(rs));
        assert(0 <= (w * h) as int <= 16129) by (nonlinear_arith)
            requires
                0 <= w <= 127,
                0 <= h <= 127,
        ;
    }
    let total: usize = w * h;
    let mut nexvs: Vec<Option<Pos>> = Vec::new();
    let mut k: usize = 0;
    while k < total
        invariant
            k <= total,
            nexvs@.len() == k,
            forall|j: int| 0 <= j < k ==> (#[trigger] nexvs@[j]) is None,
        decreases total - k,
    {
        nexvs.push(None);
        k = k + 1;
    }
    let mut anchors: Vec<Option<Pos>> = Vec::new();
    let mut k: usize = 0;
    while k < 8
        invariant
            k <= 8,
            anchors@.len() == k,
            forall|j: int| 0 <= j < k ==> (#[trigger] anchors@[j]) is None,
        decreases 8 - k,
    {
        anchors.push(None);
        k = k + 1;
    }
    let mut t: usize = 0;
    let mut c: usize = 0;
    let mut rr: usize = 0;
    proof {
        if total > 0 {
            assert(w > 0) by (nonlinear_arith)
                requires
                    total == w * h,
                    total > 0,
                    0 <= w,
                    0 <= h,
            ;
        }
        assert forall|d: u8| spec_is_link_code(d) implies #[trigger] spec_count_code_upto(
            rs,
            d,
            0,
        ) == 0 by {}
        assert forall|x: int, y: int| 0 <= x < w && 0 <= y < h implies (
        #[trigger] nexvs@[y * (w as int) + x]) is None by {
            lemma_grid_index(w as int, h as int, x, y);
        }
    }
    while t < total
        invariant
            spec_rows_rect(rs),
            rs == rows@.map_values(|v: Vec<u8>| v@),
            h == rows@.len(),
            w == spec_width(rs),
            w <= 127,
            h <= 127,
            total == w * h,
            t <= total,
            t == rr * w + c,
            t < total ==> c < w,
            nexvs@.len() == total,
            anchors@.len() == 8,
            // Written links are symmetric pairs of same-digit cells, the
            // earlier an even occurrence, its partner the next occurrence.
            forall|x: int, y: int|
                0 <= x < w && 0 <= y < h ==> #[trigger] spec_link_entry_ok(rs, nexvs@, x, y),
            // A scanned, unlinked digit cell is the open anchor of its digit.
            forall|x: int, y: int|
                0 <= x < w && 0 <= y < h && spec_scan_of(rs, x, y) < t && spec_is_link_code(
                    spec_code_at(rs, x, y),
                ) && (#[trigger] nexvs@[y * (w as int) + x]) is None ==> anchors@[spec_code_at(
                    rs,
                    x,
                    y,
                ) - 49] == Some(Pos { x: x as i8, y: y as i8 }),
            // Unscanned cells are unlinked.
            forall|x: int, y: int|
                0 <= x < w && 0 <= y < h && spec_scan_of(rs, x, y) >= t ==> (
                #[trigger] nexvs@[y * (w as int) + x]) is None,
            // An anchor is the one odd occurrence of its digit so far.
            forall|di: int|
                0 <= di < 8 ==> {
                    let d = (di + 49) as u8;
                    match #[trigger] anchors@[di] {
                        Some(a) => {
                            &&& 0 <= a.x as int && (a.x as int) < w
                            &&& 0 <= a.y as int && (a.y as int) < h
                            &&& spec_code_at(rs, a.x as int, a.y as int) == d
                            &&& spec_scan_of(rs, a.x as int, a.y as int) < t
                            &&& nexvs@[(a.y as int) * (w as int) + a.x as int] is None
                            &&& spec_count_code_upto(
                                rs,
                                d,
                                spec_scan_of(rs, a.x as int, a.y as int),
                            ) % 2 == 0
                            &&& spec_count_code_upto(rs, d, t as int) == spec_count_code_upto(
                                rs,
                                d,
                                spec_scan_of(rs, a.x as int, a.y as int),
                            ) + 1
                        },
                        None => spec_count_code_upto(rs, d, t as int) % 2 == 0,
                    }
                },
        decreases total - t,
    {
        proof {
            assert(rr < h) by (nonlinear_arith)
                requires
                    t == rr * w + c,
                    t < total,
                    total == w * h,
                    c < w,
                    0 <= rr,
            ;
            lemma_fundamental_div_mod_converse(t as int, w as int, rr as int, c as int);
        }
        let ir: usize = h - 1 - rr;
        proof {
            assert(rs[rr as int] == rows@[rr as int]@);
        }
        let code: u8 = rows[rr][c];
        let ghost px: int = c as int;
        let ghost py: int = (h - 1 - rr) as int;
        proof {
            assert(spec_code_at(rs, px, py) == code);
            assert(spec_scan_of(rs, px, py) == t as int);
            assert forall|d: u8| spec_is_link_code(d) implies #[trigger] spec_count_code_upto(
                rs,
                d,
                t as int + 1,
            ) == spec_count_code_upto(rs, d, t as int) + (if rs[rr as int][c as int] == d {
                1int
            } else {
                0int
            }) by {
                lemma_count_code_step(rs, d, rr as int, c as int);
            }
            // The one cell whose scan position is `t` is the current cell.
            assert forall|x: int, y: int|
                0 <= x < w && 0 <= y < h && spec_scan_of(rs, x, y) == t as int implies x == px
                && y == py by {
                lemma_grid_index_injective(w as int, x, h as int - 1 - y, px, rr as int);
            }
        }
        let is_link = 49 <= code && code <= 56;
        if is_link {
            let di: usize = (code - 49) as usize;
            let p = Pos { x: c as i8, y: ir as i8 };
            let a_opt = anchors[di];
            match a_opt {
                None => {
                    let ghost old_anchors = anchors@;
                    anchors.set(di, Some(p));
                    proof {
                        let wi = w as int;
                        assert(((di + 49) as u8) == code);
                        assert(p.x as int == px && p.y as int == py);
                        // A scanned, unlinked digit cell is its digit's
                        // open anchor: the current cell is the fresh one.
                        assert forall|x: int, y: int|
                            0 <= x < w && 0 <= y < h && spec_scan_of(rs, x, y) < t as int + 1
                            && spec_is_link_code(spec_code_at(rs, x, y)) && (
                        #[trigger] nexvs@[y * wi + x]) is None implies anchors@[spec_code_at(
                            rs,
                            x,
                            y,
                        ) - 49] == Some(Pos { x: x as i8, y: y as i8 }) by {
                            lemma_grid_index(wi, h as int, x, y);
                            if spec_scan_of(rs, x, y) == t as int {
                                assert(x == px && y == py);
                                assert(anchors@[di as int] == Some(p));
                            } else {
                                if spec_code_at(rs, x, y) == code {
                                    assert(old_anchors[di as int] == Some(
                                        Pos { x: x as i8, y: y as i8 },
                                    ));
                                    assert(false);
                                } else {
                                    assert(spec_code_at(rs, x, y) - 49 != di as int);
                                    assert(anchors@[spec_code_at(rs, x, y) - 49]
                                        == old_anchors[spec_code_at(rs, x, y) - 49]);
                                }
                            }
                        }
                        // The fresh anchor is the one odd occurrence of its
                        // digit; other anchors are untouched.
                        assert(nexvs@[py * wi + px] is None);
                        assert(spec_count_code_upto(rs, code, t as int + 1)
                            == spec_count_code_upto(rs, code, t as int) + 1);
                    }
                },
                Some(a) => {
                    proof {
                        lemma_grid_index(w as int, h as int, a.x as int, a.y as int);
                        lemma_grid_index(w as int, h as int, px, py);
                    }
                    let ia: usize = (a.y as usize) * w + (a.x as usize);
                    let ip: usize = ir * w + c;
                    let ghost old_nexvs = nexvs@;
                    let ghost old_anchors = anchors@;
                    nexvs.set(ia, Some(p));
                    nexvs.set(ip, Some(a));
                    anchors.set(di, None);
                    proof {
                        let wi = w as int;
                        assert(((di + 49) as u8) == code);
                        assert(spec_code_at(rs, a.x as int, a.y as int) == code);
                        assert(spec_scan_of(rs, a.x as int, a.y as int) < t as int);
                        assert(ia as int == (a.y as int) * wi + (a.x as int));
                        assert(ip as int == py * wi + px);
                        if ia as int == ip as int {
                            lemma_grid_index_injective(wi, a.x as int, a.y as int, px, py);
                        }
                        assert(ia as int != ip as int);
                        assert(old_nexvs[ia as int] is None);
                        assert(old_nexvs[ip as int] is None);
                        assert(nexvs@[ia as int] == Some(p));
                        assert(nexvs@[ip as int] == Some(a));
                        assert(p.x as int == px && p.y as int == py);
                        assert(a != p);
                        // Pair integrity for every cell, by cases on the
                        // written indices.
                        assert forall|x: int, y: int| 0 <= x < w && 0 <= y < h implies
                            #[trigger] spec_link_entry_ok(rs, nexvs@, x, y) by {
                            lemma_grid_index(wi, h as int, x, y);
                            if y * wi + x == ia as int {
                                // the anchor cell, now linked to the
                                // current cell
                                lemma_grid_index_injective(wi, x, y, a.x as int, a.y as int);
                                assert(x == a.x as int && y == a.y as int);
                                assert((Pos { x: x as i8, y: y as i8 }) == a);
                                assert(nexvs@[y * wi + x] == Some(p));
                                assert(nexvs@[(p.y as int) * wi + p.x as int] == Some(a));
                            } else if y * wi + x == ip as int {
                                // the current cell, now linked back to the
                                // anchor; the ordered-pair clause is void
                                // since the anchor was scanned earlier
                                lemma_grid_index_injective(wi, x, y, px, py);
                                assert(x == px && y == py);
                                assert((Pos { x: x as i8, y: y as i8 }) == p);
                                assert(nexvs@[y * wi + x] == Some(a));
                                assert(nexvs@[(a.y as int) * wi + a.x as int] == Some(p));
                            } else {
                                // an untouched cell; its partner (if any)
                                // is neither of the two written cells,
                                // which were unlinked before this write
                                assert(spec_link_entry_ok(rs, old_nexvs, x, y));
                                assert(nexvs@[y * wi + x] == old_nexvs[y * wi + x]);
                                if old_nexvs[y * wi + x] is Some {
                                    let q = old_nexvs[y * wi + x]->0;
                                    lemma_grid_index(wi, h as int, q.x as int, q.y as int);
                                    assert(old_nexvs[(q.y as int) * wi + q.x as int] == Some(
                                        Pos { x: x as i8, y: y as i8 },
                                    ));
                                    assert((q.y as int) * wi + q.x as int != ia as int);
                                    assert((q.y as int) * wi + q.x as int != ip as int);
                                    assert(nexvs@[(q.y as int) * wi + q.x as int]
                                        == old_nexvs[(q.y as int) * wi + q.x as int]);
                                }
                            }
                        }
                        // A scanned, unlinked digit cell is still its
                        // digit's open anchor: the paired digit has none
                        // left, other digits are untouched.
                        assert forall|x: int, y: int|
                            0 <= x < w && 0 <= y < h && spec_scan_of(rs, x, y) < t as int + 1
                            && spec_is_link_code(spec_code_at(rs, x, y)) && (
                        #[trigger] nexvs@[y * wi + x]) is None implies anchors@[spec_code_at(
                            rs,
                            x,
                            y,
                        ) - 49] == Some(Pos { x: x as i8, y: y as i8 }) by {
                            lemma_grid_index(wi, h as int, x, y);
                            assert(y * wi + x != ia as int && y * wi + x != ip as int);
                            assert(old_nexvs[y * wi + x] is None);
                            if spec_scan_of(rs, x, y) == t as int {
                                assert(x == px && y == py);
                                assert(false);
                            } else {
                                if spec_code_at(rs, x, y) == code {
                                    assert(old_anchors[di as int] == Some(
                                        Pos { x: x as i8, y: y as i8 },
                                    ));
                                    assert(x == a.x as int && y == a.y as int);
                                    assert(false);
                                } else {
                                    assert(spec_code_at(rs, x, y) - 49 != di as int);
                                }
                            }
                        }
                        // Unscanned cells stay unlinked: both written cells
                        // were already scanned or are the current cell.
                        assert forall|x: int, y: int|
                            0 <= x < w && 0 <= y < h && spec_scan_of(rs, x, y) >= t as int + 1
                            implies (#[trigger] nexvs@[y * wi + x]) is None by {
                            lemma_grid_index(wi, h as int, x, y);
                            if y * wi + x == ia as int {
                                lemma_grid_index_injective(wi, x, y, a.x as int, a.y as int);
                                assert(false);
                            }
                            if y * wi + x == ip as int {
                                lemma_grid_index_injective(wi, x, y, px, py);
                                assert(false);
                            }
                            assert(nexvs@[y * wi + x] == old_nexvs[y * wi + x]);
                        }
                        // Anchor bookkeeping for every digit.
                        assert forall|dj: int| 0 <= dj < 8 implies {
                            let d = ((dj + 49) as u8);
                            match #[trigger] anchors@[dj] {
                                Some(b) => {
                                    &&& 0 <= b.x as int && (b.x as int) < w
                                    &&& 0 <= b.y as int && (b.y as int) < h
                                    &&& spec_code_at(rs, b.x as int, b.y as int) == d
                                    &&& spec_scan_of(rs, b.x as int, b.y as int) < t as int + 1
                                    &&& nexvs@[(b.y as int) * wi + b.x as int] is None
                                    &&& spec_count_code_upto(
                                        rs,
                                        d,
                                        spec_scan_of(rs, b.x as int, b.y as int),
                                    ) % 2 == 0
                                    &&& spec_count_code_upto(rs, d, t as int + 1)
                                        == spec_count_code_upto(
                                        rs,
                                        d,
                                        spec_scan_of(rs, b.x as int, b.y as int),
                                    ) + 1
                                },
                                None => spec_count_code_upto(rs, d, t as int + 1) % 2 == 0,
                            }
                        } by {
                            if dj == di as int {
                                assert(anchors@[dj] is None);
                            } else {
                                assert(anchors@[dj] == old_anchors[dj]);
                                if old_anchors[dj] is Some {
                                    let b = old_anchors[dj]->0;
                                    lemma_grid_index(wi, h as int, b.x as int, b.y as int);
                                    if (b.y as int) * wi + b.x as int == ia as int {
                                        lemma_grid_index_injective(
                                            wi,
                                            b.x as int,
                                            b.y as int,
                                            a.x as int,
                                            a.y as int,
                                        );
                                        assert(false);
                                    }
                                    if (b.y as int) * wi + b.x as int == ip as int {
                                        lemma_grid_index_injective(
                                            wi,
                                            b.x as int,
                                            b.y as int,
                                            px,
                                            py,
                                        );
                                        assert(false);
                                    }
                                    assert(nexvs@[(b.y as int) * wi + b.x as int]
                                        == old_nexvs[(b.y as int) * wi + b.x as int]);
                                }
                            }
                        }
                    }
                },
            }
        }
        t = t + 1;
        c = c + 1;
        if c == w {
            c = 0;
            rr = rr + 1;
            proof {
                assert((rr) * w == (rr - 1) * w + w) by (nonlinear_arith)
                    requires
                        1 <= rr,
                        0 <= w,
                ;
            }
        }
    }
    let mut di: usize = 0;
    while di < 8
        invariant
            anchors@.len() == 8,
            di <= 8,
            spec_rows_rect(rs),
            rs == rows@.map_values(|v: Vec<u8>| v@),
            w == spec_width(rs),
            h == rows@.len(),
            total == w * h,
            forall|dj: int|
                0 <= dj < 8 ==> {
                    let d = (dj + 49) as u8;
                    match #[trigger] anchors@[dj] {
                        Some(a) => spec_count_code_upto(rs, d, total as int) % 2 == 1,
                        None => spec_count_code_upto(rs, d, total as int) % 2 == 0,
                    }
                },
            forall|dj: int|
                0 <= dj < di ==> (#[trigger] anchors@[dj]) is None,
        decreases 8 - di,
    {
        if anchors[di].is_some() {
            proof {
                let d = (di + 49) as u8;
                assert(rows@.len() * spec_width(rs) == total as int) by (nonlinear_arith)
                    requires
                        total == w * h,
                        w == spec_width(rs),
                        h == rows@.len(),
                ;
                assert(spec_count_code(rs, d) % 2 == 1);
                assert(!spec_links_matched(rs));
            }
            return Err(LevelError::InvalidLevelFormat);
        }
        di = di + 1;
    }
    proof {
        assert(rows@.len() * spec_width(rs) == total as int) by (nonlinear_arith)
            requires
                total == w * h,
                w == spec_width(rs),
                h == rows@.len(),
        ;
        assert forall|d: u8| spec_is_link_code(d) implies #[trigger] spec_count_code(rs, d) % 2
            == 0 by {
            let dj: int = d - 49;
            assert(anchors@[dj] is None);
            assert(((dj + 49) as u8) == d);
        }
        assert forall|x: int, y: int|
            0 <= x < w && 0 <= y < h && (#[trigger] nexvs@[y * (w as int) + x]) is None
            implies !spec_is_link_code(spec_code_at(rs, x, y)) by {
            lemma_grid_index(w as int, h as int, x, y);
            assert((rows@.len() - 1 - y) * (w as int) + x < total) by (nonlinear_arith)
                requires
                    0 <= x < w,
                    0 <= y < h,
                    h == rows@.len(),
                    total == w * h,
            ;
            if spec_is_link_code(spec_code_at(rs, x, y)) {
                let dj = spec_code_at(rs, x, y) - 49;
                assert(anchors@[dj] is Some);
            }
        }
        assert(spec_links_ok(rs, nexvs@));
    }
    Ok(nexvs)
}

impl LevelLoaderPlugin {
    /// Load a level from a character grid and a shadow mask of the same
    /// shape. On success the level is well-formed, its tiles are exactly
    /// the grid the cell bytes and mask describe, its start and finish
    /// counts match the grid, and its wire links pair the consecutive
    /// occurrences of each link digit in scan order.
    #[verifier::rlimit(50)]
    pub fn load(
        rows: &Vec<Vec<u8>>,
        shadow: &Vec<Vec<bool>>,
        settings: &GRADVM_ORENATOR_CONFIGVRATIONES,
    ) -> (r: Result<GRADVM, LevelError>)
        ensures
            ({
                let rs = rows@.map_values(|v: Vec<u8>| v@);
                let sh = shadow@.map_values(|v: Vec<bool>| v@);
                &&& (r is Ok <==> spec_parse_ok(rs, sh))
                &&& (r matches Ok(level) ==> {
                    &&& level.wf()
                    &&& level.LATIVIDO as int == spec_width(rs)
                    &&& level.ALTIVIDO as int == rs.len()
                    &&& level.INDEX == settings.INDEX
                    &&& level.TEGLVAE@ == spec_grid(rs, sh)
                    &&& level.NVMERVS_VEHICVLORVM_MOBILIVM as int == spec_count_start(
                        spec_grid(rs, sh),
                    )
                    &&& level.NVMERVS_CRYSTALLORVM as int == spec_count_finis(
                        spec_grid(rs, sh),
                    )
                    &&& spec_links_ok(rs, level.NEXVS@)
                })
            }),
    {
        let ghost rs = rows@.map_values(|v: Vec<u8>| v@);
        let ghost sh = shadow@.map_values(|v: Vec<bool>| v@);
        let h: usize = rows.len();
        if h > 127 {
            return Err(LevelError::InvalidLevelFormat);
        }
        let w: usize = if h == 0 {
            0
        } else {
            rows[0].len()
        };
        proof {
            if h > 0 {
                assert(rs[0] == rows@[0]@);
            }
            assert(w == spec_width(rs));
        }
        if w > 127 {
            return Err(LevelError::InvalidLevelFormat);
        }
        if shadow.len() != h {
            return Err(LevelError::InvalidLevelFormat);
        }
        let mut r0: usize = 0;
        while r0 < h
            invariant
                h == rows@.len(),
                h == shadow@.len(),
                rs == rows@.map_values(|v: Vec<u8>| v@),
                sh == shadow@.map_values(|v: Vec<bool>| v@),
                w == spec_width(rs),
                w <= 127,
                h <= 127,
                r0 <= h,
                forall|k: int| 0 <= k < r0 ==> (#[trigger] rs[k]).len() == w,
                forall|k: int| 0 <= k < r0 ==> (#[trigger] sh[k]).len() == w,
            decreases h - r0,
        {
            proof {
                assert(rs[r0 as int] == rows@[r0 as int]@);
                assert(sh[r0 as int] == shadow@[r0 as int]@);
            }
            if rows[r0].len() != w {
                return Err(LevelError::InvalidLevelFormat);
            }
            if shadow[r0].len() != w {
                return Err(LevelError::InvalidLevelFormat);
            }
            r0 = r0 + 1;
        }
        proof {
            assert(spec_dims_ok(rs, sh));
        }
        let grid_result = build_grid(rows, shadow);
        let (tiles, ns, ne) = match grid_result {
            Ok(out) => out,
            Err(e) => {
                return Err(e);
            },
        };
        let links_result = build_links(rows);
        let nexvs = match links_result {
            Ok(nv) => nv,
            Err(e) => {
                return Err(e);
            },
        };
        let level = GRADVM {
            TEGLVAE: tiles,
            LATIVIDO: w as i8,
            ALTIVIDO: h as i8,
            INDEX: settings.INDEX,
            NVMERVS_VEHICVLORVM_MOBILIVM: ns,
            NVMERVS_CRYSTALLORVM: ne,
            NEXVS: nexvs,
        };
        proof {
            let wi = w as int;
            let hi = h as int;
            assert(level.TEGLVAE@.len() == wi * hi);
            assert forall|x: int, y: int|
                level.spec_in_bounds(x, y) && (#[trigger] level.spec_partner(x, y)) is Some
                implies {
                let q = level.spec_partner(x, y)->0;
                &&& level.spec_in_bounds(q.x as int, q.y as int)
                &&& level.spec_tile(x, y) is Some
                &&& level.spec_tile(q.x as int, q.y as int) is Some
                &&& level.spec_partner(q.x as int, q.y as int) == Some(
                    Pos { x: x as i8, y: y as i8 },
                )
                &&& !(q.x as int == x && q.y as int == y)
            } by {
                lemma_grid_index(wi, hi, x, y);
                lemma_fundamental_div_mod_converse(y * wi + x, wi, y, x);
                let q = level.spec_partner(x, y)->0;
                assert(spec_link_entry_ok(rs, level.NEXVS@, x, y));
                assert(spec_is_link_code(spec_code_at(rs, x, y)));
                assert(spec_tile_code(spec_code_at(rs, x, y)) is Some);
                assert(level.spec_tile(x, y) == spec_cell(rs, sh, y * wi + x));
                lemma_grid_index(wi, hi, q.x as int, q.y as int);
                lemma_fundamental_div_mod_converse(
                    (q.y as int) * wi + q.x as int,
                    wi,
                    q.y as int,
                    q.x as int,
                );
                assert(spec_link_entry_ok(rs, level.NEXVS@, q.x as int, q.y as int));
                assert(spec_is_link_code(spec_code_at(rs, q.x as int, q.y as int)));
                assert(level.spec_tile(q.x as int, q.y as int) == spec_cell(
                    rs,
                    sh,
                    (q.y as int) * wi + q.x as int,
                ));
            }
            assert(level.wf());
        }
        Ok(level)
    }
}

/// The terrain a cell byte stands for.
fn tile_code(c: u8) -> (r: Option<TEGVLA_TYPVS>)
    ensures
        r == spec_tile_code(c),
{
    if c == 83 {
        Some(TEGVLA_TYPVS::INITIVM)
    } else if c == 69 {
        Some(TEGVLA_TYPVS::FINIS)
    } else if c == 80 {
        Some(TEGVLA_TYPVS::SEMITA)
    } else if c == 68 {
        Some(TEGVLA_TYPVS::SATVRNALIA)
    } else if c == 73 {
        Some(TEGVLA_TYPVS::INGENII)
    } else if c == 67 {
        Some(TEGVLA_TYPVS::CRATERA)
    } else if 49 <= c && c <= 56 {
        Some(TEGVLA_TYPVS::SEMITA)
    } else {
        None
    }
}

} // verus!
