//! Where an array result spills: the rectangle of cells it covers from its
//! anchor, and whether another value blocks it.
use vstd::prelude::*;
use crate::refs::{
    format_a1, lemma_parse_format_a1, parse_a1, spec_format_a1, spec_parse_a1, spec_string_views, CellMap, CellSet,
};
use crate::text::string_from_str;
use crate::error::SpreadsheetError;
use crate::dynamic_array::{is_nonempty_rect, spec_rect};

verus! {

/// The cell names of the `height` × `width` rectangle whose top-left cell is
/// (`col`, `row`), row by row.
pub fn spill_footprint(col: u32, row: u32, height: usize, width: usize) -> (r: Vec<Vec<String>>)
    requires
        col >= 1,
        row >= 1,
        col + width <= u32::MAX + 1,
        row + height <= u32::MAX + 1,
    ensures
        r@.len() == height,
        forall|dr: int| 0 <= dr < height ==> #[trigger] r@[dr]@.len() == width,
        forall|dr: int, dc: int|
            0 <= dr < height && 0 <= dc < width ==> #[trigger] r@[dr]@[dc]@ == spec_format_a1(
                (col + dc) as nat,
                (row + dr) as nat,
            ),
{
    let mut out: Vec<Vec<String>> = Vec::new();
    let mut dr: usize = 0;
    while dr < height
        invariant
            dr <= height,
            col >= 1,
            row >= 1,
            col + width <= u32::MAX + 1,
            row + height <= u32::MAX + 1,
            out@.len() == dr,
            forall|a: int| 0 <= a < dr ==> #[trigger] out@[a]@.len() == width,
            forall|a: int, c: int|
                0 <= a < dr && 0 <= c < width ==> #[trigger] out@[a]@[c]@ == spec_format_a1(
                    (col + c) as nat,
                    (row + a) as nat,
                ),
        decreases height - dr,
    {
        let mut line: Vec<String> = Vec::new();
        let mut dc: usize = 0;
        while dc < width
            invariant
                dc <= width,
                dr < height,
                col >= 1,
                row >= 1,
                col + width <= u32::MAX + 1,
                row + height <= u32::MAX + 1,
                line@.len() == dc,
                forall|c: int| 0 <= c < dc ==> #[trigger] line@[c]@ == spec_format_a1((col + c) as nat, (row + dr) as nat),
            decreases width - dc,
        {
            let c: u32 = col + dc as u32;
            let r: u32 = row + dr as u32;
            line.push(format_a1(c, r));
            dc += 1;
        }
        out.push(line);
        dr += 1;
    }
    out
}

/// Whether a spill over `targets` is blocked: some target other than the
/// anchor is an input or formula cell of the sheet (`occupied`), or already
/// holds a value (`written[t]`) that this anchor did not spill itself
/// (`reusable`).
pub fn spill_blocked(
    targets: &Vec<String>,
    anchor: &str,
    occupied: &CellSet,
    written: &Vec<bool>,
    reusable: &CellSet,
) -> (r: bool)
    requires
        occupied.wf(),
        reusable.wf(),
        written@.len() == targets@.len(),
    ensures
        r == exists|t: int|
            0 <= t < targets@.len() && #[trigger] targets@[t]@ != anchor@ && (occupied@.contains(targets@[t]@) || (
            written@[t] && !reusable@.contains(targets@[t]@))),
{
    let anchor_s = string_from_str(anchor);
    let mut t: usize = 0;
    while t < targets.len()
        invariant
            t <= targets@.len(),
            anchor_s@ == anchor@,
            occupied.wf(),
            reusable.wf(),
            written@.len() == targets@.len(),
            forall|u: int|
                0 <= u < t ==> !(#[trigger] targets@[u]@ != anchor@ && (occupied@.contains(targets@[u]@) || (
                written@[u] && !reusable@.contains(targets@[u]@)))),
        decreases targets.len() - t,
    {
        let name = &targets[t];
        if *name != anchor_s {
            if occupied.contains(name.as_str()) {
                return true;
            }
            if written[t] && !reusable.contains(name.as_str()) {
                return true;
            }
        }
        t += 1;
    }
    false
}


// ---------------------------------------------------------------------------
// Writing a spill
// ---------------------------------------------------------------------------

/// The cell `dr` rows below and `dc` columns right of (`col`, `row`).
pub open spec fn spec_cell_at(col: int, row: int, dr: int, dc: int) -> Seq<char> {
    spec_format_a1((col + dc) as nat, (row + dr) as nat)
}

/// The rectangle from (`col`, `row`) lies on the grid.
pub open spec fn spec_fits(col: int, row: int, h: int, w: int) -> bool {
    col >= 1 && row >= 1 && col + w <= u32::MAX + 1 && row + h <= u32::MAX + 1
}

/// Cells `(a, b)` of a `w`-wide rectangle with `a < dr`, or `a == dr` and
/// `b < dc` (row by row, up to (`dr`, `dc`)).
pub open spec fn spec_rect_prefix(col: int, row: int, w: int, dr: int, dc: int) -> Set<Seq<char>> {
    Set::new(
        |x: Seq<char>|
            exists|a: int, b: int|
                0 <= a && 0 <= b < w && (a < dr || (a == dr && b < dc)) && x == #[trigger] spec_cell_at(
                    col,
                    row,
                    a,
                    b,
                ),
    )
}

/// The cells of the `h` × `w` rectangle from (`col`, `row`).
pub open spec fn spec_rect_cells(col: int, row: int, h: int, w: int) -> Set<Seq<char>> {
    spec_rect_prefix(col, row, w, h, 0)
}

/// The cells other than the anchor that the anchor's recorded spill covers
/// (none when the anchor is not an A1 cell, has no record, or the record
/// leaves the grid).
pub open spec fn spec_old_targets(anchor: Seq<char>, meta: Map<Seq<char>, (usize, usize)>) -> Set<Seq<char>> {
    match spec_parse_a1(anchor) {
        Some((c, r)) => if meta.contains_key(anchor) && spec_fits(c as int, r as int, meta[anchor].0 as int, meta[anchor].1 as int) {
            spec_rect_cells(c as int, r as int, meta[anchor].0 as int, meta[anchor].1 as int).remove(anchor)
        } else {
            Set::empty()
        },
        None => Set::empty(),
    }
}

/// Distinct positions of a rectangle on the grid name distinct cells.
pub proof fn lemma_cell_at_injective(col: int, row: int, a1: int, b1: int, a2: int, b2: int)
    requires
        col >= 1,
        row >= 1,
        0 <= a1,
        0 <= b1,
        0 <= a2,
        0 <= b2,
        col + b1 <= u32::MAX,
        col + b2 <= u32::MAX,
        row + a1 <= u32::MAX,
        row + a2 <= u32::MAX,
        spec_cell_at(col, row, a1, b1) == spec_cell_at(col, row, a2, b2),
    ensures
        a1 == a2 && b1 == b2,
{
    lemma_parse_format_a1((col + b1) as u32, (row + a1) as u32);
    lemma_parse_format_a1((col + b2) as u32, (row + a2) as u32);
}

/// Advancing the prefix by one cell adds that cell.
pub proof fn lemma_prefix_step(col: int, row: int, w: int, dr: int, dc: int)
    requires
        0 <= dr,
        0 <= dc < w,
    ensures
        spec_rect_prefix(col, row, w, dr, dc + 1) == spec_rect_prefix(col, row, w, dr, dc).insert(
            spec_cell_at(col, row, dr, dc),
        ),
        dc + 1 == w ==> spec_rect_prefix(col, row, w, dr, dc + 1) == spec_rect_prefix(col, row, w, dr + 1, 0),
{
    let p = spec_rect_prefix(col, row, w, dr, dc);
    let q = spec_rect_prefix(col, row, w, dr, dc + 1);
    let y = spec_cell_at(col, row, dr, dc);
    assert forall|x: Seq<char>| q.contains(x) <==> p.insert(y).contains(x) by {
        if q.contains(x) {
            let (a, b) = choose|a: int, b: int|
                0 <= a && 0 <= b < w && (a < dr || (a == dr && b < dc + 1)) && x == #[trigger] spec_cell_at(col, row, a, b);
            if !(a == dr && b == dc) {
                assert(p.contains(x));
            }
        }
        if p.contains(x) {
            let (a, b) = choose|a: int, b: int|
                0 <= a && 0 <= b < w && (a < dr || (a == dr && b < dc)) && x == #[trigger] spec_cell_at(col, row, a, b);
            assert(q.contains(x));
        }
        if x == y {
            assert(q.contains(x));
        }
    }
    assert(q =~= p.insert(y));
    if dc + 1 == w {
        let r = spec_rect_prefix(col, row, w, dr + 1, 0);
        assert forall|x: Seq<char>| q.contains(x) <==> r.contains(x) by {
            if q.contains(x) {
                let (a, b) = choose|a: int, b: int|
                    0 <= a && 0 <= b < w && (a < dr || (a == dr && b < dc + 1)) && x == #[trigger] spec_cell_at(col, row, a, b);
                assert(r.contains(x));
            }
            if r.contains(x) {
                let (a, b) = choose|a: int, b: int|
                    0 <= a && 0 <= b < w && (a < dr + 1 || (a == dr + 1 && b < 0)) && x == #[trigger] spec_cell_at(col, row, a, b);
                assert(q.contains(x));
            }
        }
        assert(q =~= r);
    }
}

/// Nothing comes before the first cell.
pub proof fn lemma_prefix_empty(col: int, row: int, w: int)
    ensures
        spec_rect_prefix(col, row, w, 0, 0) == Set::<Seq<char>>::empty(),
{
    assert(spec_rect_prefix(col, row, w, 0, 0) =~= Set::<Seq<char>>::empty());
}

/// Whether the rectangle from (`col`, `row`) lies on the grid.
pub(crate) fn fits(col: u32, row: u32, h: usize, w: usize) -> (r: bool)
    ensures
        r == spec_fits(col as int, row as int, h as int, w as int),
{
    col >= 1 && row >= 1 && (w as u64) <= 0x1_0000_0000u64 - col as u64 && (h as u64) <= 0x1_0000_0000u64
        - row as u64
}

/// The anchor's old spill cells, as a set.
fn old_targets(anchor: &str, spill_meta: &CellMap<(usize, usize)>) -> (r: CellSet)
    ensures
        r.wf(),
        r@ == spec_old_targets(anchor@, spill_meta@),
{
    let mut out = CellSet::new();
    let (col, row) = match parse_a1(anchor) {
        Some(p) => p,
        None => {
            proof {
                assert(out@ =~= spec_old_targets(anchor@, spill_meta@));
            }
            return out;
        },
    };
    let (h, w) = match spill_meta.get(anchor) {
        Some(m) => *m,
        None => {
            proof {
                assert(out@ =~= spec_old_targets(anchor@, spill_meta@));
            }
            return out;
        },
    };
    if !fits(col, row, h, w) {
        proof {
            assert(out@ =~= spec_old_targets(anchor@, spill_meta@));
        }
        return out;
    }
    let anchor_s = string_from_str(anchor);
    let fp = spill_footprint(col, row, h, w);
    let ghost c = col as int;
    let ghost rr = row as int;
    let ghost wi = w as int;
    proof {
        lemma_prefix_empty(c, rr, wi);
        assert(out@ =~= spec_rect_prefix(c, rr, wi, 0, 0).remove(anchor@));
    }
    let mut dr: usize = 0;
    while dr < h
        invariant
            dr <= h,
            fp@.len() == h,
            forall|a: int| 0 <= a < h ==> #[trigger] fp@[a]@.len() == w,
            forall|a: int, b: int| 0 <= a < h && 0 <= b < w ==> #[trigger] fp@[a]@[b]@ == spec_cell_at(c, rr, a, b),
            anchor_s@ == anchor@,
            out.wf(),
            out@ == spec_rect_prefix(c, rr, wi, dr as int, 0).remove(anchor@),
            c == col, rr == row, wi == w,
        decreases h - dr,
    {
        let mut dc: usize = 0;
        while dc < w
            invariant
                dr < h,
                dc <= w,
                fp@.len() == h,
                forall|a: int| 0 <= a < h ==> #[trigger] fp@[a]@.len() == w,
                forall|a: int, b: int| 0 <= a < h && 0 <= b < w ==> #[trigger] fp@[a]@[b]@ == spec_cell_at(c, rr, a, b),
                anchor_s@ == anchor@,
                out.wf(),
                out@ == spec_rect_prefix(c, rr, wi, dr as int, dc as int).remove(anchor@),
                c == col, rr == row, wi == w,
            decreases w - dc,
        {
            let name = &fp[dr][dc];
            proof {
                lemma_prefix_step(c, rr, wi, dr as int, dc as int);
                assert(name@ == spec_cell_at(c, rr, dr as int, dc as int));
            }
            if *name != anchor_s {
                out.insert(name.clone());
                proof {
                    assert(out@ =~= spec_rect_prefix(c, rr, wi, dr as int, dc + 1).remove(anchor@));
                }
            } else {
                proof {
                    assert(out@ =~= spec_rect_prefix(c, rr, wi, dr as int, dc + 1).remove(anchor@));
                }
            }
            dc += 1;
        }
        proof {
            if w > 0 {
                lemma_prefix_step(c, rr, wi, dr as int, wi - 1);
            } else {
                assert(spec_rect_prefix(c, rr, wi, dr as int, 0) =~= spec_rect_prefix(c, rr, wi, dr + 1, 0));
            }
        }
        dr += 1;
    }
    proof {
        assert(out@ =~= spec_old_targets(anchor@, spill_meta@));
    }
    out
}

/// Removes the anchor's recorded spill: its old spill cells (see
/// [`spec_old_targets`]) leave `cache`, and the record leaves `spill_meta`.
pub fn clear_spill<T>(anchor: &str, cache: &mut CellMap<T>, spill_meta: &mut CellMap<(usize, usize)>)
    requires
        old(cache).wf(),
        old(spill_meta).wf(),
    ensures
        final(cache).wf(),
        final(spill_meta).wf(),
        final(cache)@ == old(cache)@.remove_keys(spec_old_targets(anchor@, old(spill_meta)@)),
        final(spill_meta)@ == old(spill_meta)@.remove(anchor@),
{
    let targets = old_targets(anchor, spill_meta);
    let names = targets.names();
    let ghost v = spec_string_views(names@);
    let ghost base = cache@;
    let mut k: usize = 0;
    while k < names.len()
        invariant
            k <= names@.len(),
            v == spec_string_views(names@),
            v.to_set() == targets@,
            cache.wf(),
            cache@ == base.remove_keys(v.take(k as int).to_set()),
        decreases names.len() - k,
    {
        cache.remove(names[k].as_str());
        proof {
            assert(v.take(k + 1) =~= v.take(k as int).push(v[k as int]));
            v.take(k as int).lemma_push_to_set_commute(v[k as int]);
            assert(cache@ =~= base.remove_keys(v.take(k + 1).to_set()));
        }
        k += 1;
    }
    proof {
        assert(v.take(names@.len() as int) =~= v);
    }
    spill_meta.remove(anchor);
}

/// A number result: the anchor's old spill is cleared, the anchor stops being
/// a text cell, and it holds `value`.
pub fn place_value<T>(
    anchor: &str,
    value: T,
    cache: &mut CellMap<T>,
    text_cells: &mut CellMap<String>,
    spill_meta: &mut CellMap<(usize, usize)>,
)
    requires
        old(cache).wf(),
        old(text_cells).wf(),
        old(spill_meta).wf(),
    ensures
        final(cache).wf(),
        final(text_cells).wf(),
        final(spill_meta).wf(),
        final(cache)@ == old(cache)@.remove_keys(spec_old_targets(anchor@, old(spill_meta)@)).insert(anchor@, value),
        final(text_cells)@ == old(text_cells)@.remove(anchor@),
        final(spill_meta)@ == old(spill_meta)@.remove(anchor@),
{
    clear_spill(anchor, cache, spill_meta);
    text_cells.remove(anchor);
    cache.insert(string_from_str(anchor), value);
}

/// A text result: the anchor's old spill is cleared, the anchor has no number,
/// and it is a text cell holding `text`.
pub fn place_text<T>(
    anchor: &str,
    text: String,
    cache: &mut CellMap<T>,
    text_cells: &mut CellMap<String>,
    spill_meta: &mut CellMap<(usize, usize)>,
)
    requires
        old(cache).wf(),
        old(text_cells).wf(),
        old(spill_meta).wf(),
    ensures
        final(cache).wf(),
        final(text_cells).wf(),
        final(spill_meta).wf(),
        final(cache)@ == old(cache)@.remove_keys(spec_old_targets(anchor@, old(spill_meta)@)).remove(anchor@),
        final(text_cells)@ == old(text_cells)@.insert(anchor@, text),
        final(spill_meta)@ == old(spill_meta)@.remove(anchor@),
{
    clear_spill(anchor, cache, spill_meta);
    cache.remove(anchor);
    text_cells.insert(string_from_str(anchor), text);
}

/// A cell of the rectangle other than the anchor that the spill may not
/// overwrite: a cell of the sheet, or one holding a value that is not this
/// anchor's old spill.
pub open spec fn spec_blocks<T>(
    x: Seq<char>,
    anchor: Seq<char>,
    occupied: Set<Seq<char>>,
    cache: Map<Seq<char>, T>,
    text_cells: Map<Seq<char>, String>,
    old_targets: Set<Seq<char>>,
) -> bool {
    x != anchor && (occupied.contains(x) || ((cache.contains_key(x) || text_cells.contains_key(x))
        && !old_targets.contains(x)))
}

/// What writing the array `rows` at `anchor` does: from the maps `c0`, `t0`,
/// `m0` (numbers, text cells, spill records) with the sheet's own cells
/// `occupied`, the call returns `r` and leaves `c1`, `t1`, `m1`.
///
/// No cells (no rows, or an empty first row) is `#VALUE!`. A single cell, or
/// an anchor that is not an A1 cell, is written like a number (`rows[0][0]`).
/// Otherwise rows of different lengths are `#VALUE!`, and the rectangle from
/// the anchor must lie on the grid with no cell of it blocking (see
/// [`spec_blocks`]), else `#SPILL!`. A failed write changes nothing. On success
/// the anchor's old spill is cleared, every rectangle cell holds its entry and
/// is no text cell, and the spill is recorded as (rows, columns).
pub open spec fn spec_spill_post<T>(
    anchor: Seq<char>,
    rows: Seq<Vec<T>>,
    occupied: Set<Seq<char>>,
    c0: Map<Seq<char>, T>,
    t0: Map<Seq<char>, String>,
    m0: Map<Seq<char>, (usize, usize)>,
    r: Result<(), SpreadsheetError>,
    c1: Map<Seq<char>, T>,
    t1: Map<Seq<char>, String>,
    m1: Map<Seq<char>, (usize, usize)>,
) -> bool {
    let h = rows.len() as int;
    let old_t = spec_old_targets(anchor, m0);
    &&& r is Err ==> c1 == c0 && t1 == t0 && m1 == m0
    &&& if h == 0 || rows[0]@.len() == 0 {
        r == Err::<(), SpreadsheetError>(SpreadsheetError::Value)
    } else if (h == 1 && rows[0]@.len() == 1) || spec_parse_a1(anchor) is None {
        &&& r is Ok
        &&& c1 == c0.remove_keys(old_t).insert(anchor, rows[0]@[0])
        &&& t1 == t0.remove(anchor)
        &&& m1 == m0.remove(anchor)
    } else if !spec_rect(rows, rows[0]@.len() as int) {
        r == Err::<(), SpreadsheetError>(SpreadsheetError::Value)
    } else {
        let w = rows[0]@.len() as int;
        let c = spec_parse_a1(anchor)->Some_0.0 as int;
        let rw = spec_parse_a1(anchor)->Some_0.1 as int;
        if !spec_fits(c, rw, h, w) {
            r == Err::<(), SpreadsheetError>(SpreadsheetError::Spill)
        } else if exists|a: int, b: int|
            0 <= a < h && 0 <= b < w && spec_blocks(#[trigger] spec_cell_at(c, rw, a, b), anchor, occupied, c0, t0, old_t) {
            r == Err::<(), SpreadsheetError>(SpreadsheetError::Spill)
        } else {
            &&& r is Ok
            &&& m1 == m0.insert(anchor, (h as usize, w as usize))
            &&& t1 == t0.remove_keys(spec_rect_cells(c, rw, h, w))
            &&& forall|a: int, b: int|
                0 <= a < h && 0 <= b < w ==> c1.contains_key(#[trigger] spec_cell_at(c, rw, a, b)) && c1[spec_cell_at(
                    c,
                    rw,
                    a,
                    b,
                )] == rows[a]@[b]
            &&& forall|x: Seq<char>|
                !spec_rect_cells(c, rw, h, w).contains(x) ==> (c1.contains_key(x) <==> (c0.contains_key(x)
                    && !old_t.contains(x))) && (c1.contains_key(x) ==> c1[x] == c0[x])
        }
    }
}

/// Writes an array result at `anchor`, all or nothing (see
/// [`spec_spill_post`]).
pub fn place_spill<T: Copy>(
    anchor: &str,
    rows: &Vec<Vec<T>>,
    occupied: &CellSet,
    cache: &mut CellMap<T>,
    text_cells: &mut CellMap<String>,
    spill_meta: &mut CellMap<(usize, usize)>,
) -> (r: Result<(), SpreadsheetError>)
    requires
        occupied.wf(),
        old(cache).wf(),
        old(text_cells).wf(),
        old(spill_meta).wf(),
    ensures
        final(cache).wf(),
        final(text_cells).wf(),
        final(spill_meta).wf(),
        spec_spill_post(
            anchor@,
            rows@,
            occupied@,
            old(cache)@,
            old(text_cells)@,
            old(spill_meta)@,
            r,
            final(cache)@,
            final(text_cells)@,
            final(spill_meta)@,
        ),
{
    if rows.len() == 0 || rows[0].len() == 0 {
        return Err(SpreadsheetError::Value);
    }
    let h = rows.len();
    let w = rows[0].len();
    let parsed = parse_a1(anchor);
    if (h == 1 && w == 1) || parsed.is_none() {
        place_value(anchor, rows[0][0], cache, text_cells, spill_meta);
        return Ok(());
    }
    if !is_nonempty_rect(rows) {
        return Err(SpreadsheetError::Value);
    }
    let (col, row) = parsed.unwrap();
    if !fits(col, row, h, w) {
        return Err(SpreadsheetError::Spill);
    }
    let ghost c = col as int;
    let ghost rw = row as int;
    let ghost old_t = spec_old_targets(anchor@, spill_meta@);
    let reusable = old_targets(anchor, spill_meta);
    let fp = spill_footprint(col, row, h, w);
    // check the whole rectangle first
    let mut dr: usize = 0;
    while dr < h
        invariant
            dr <= h,
            h == rows@.len(),
            w == rows@[0]@.len(),
            w > 0,
            spec_rect(rows@, w as int),
            !(h == 1 && w == 1),
            spec_parse_a1(anchor@) == Some((col, row)),
            c == col,
            rw == row,
            spec_fits(c, rw, h as int, w as int),
            fp@.len() == h,
            forall|a: int| 0 <= a < h ==> #[trigger] fp@[a]@.len() == w,
            forall|a: int, b: int| 0 <= a < h && 0 <= b < w ==> #[trigger] fp@[a]@[b]@ == spec_cell_at(c, rw, a, b),
            occupied.wf(),
            reusable.wf(),
            reusable@ == old_t,
            old_t == spec_old_targets(anchor@, old(spill_meta)@),
            cache.wf(),
            text_cells.wf(),
            spill_meta.wf(),
            cache@ == old(cache)@,
            text_cells@ == old(text_cells)@,
            spill_meta@ == old(spill_meta)@,
            forall|a: int, b: int|
                0 <= a < dr && 0 <= b < w ==> !spec_blocks(
                    #[trigger] spec_cell_at(c, rw, a, b),
                    anchor@,
                    occupied@,
                    cache@,
                    text_cells@,
                    old_t,
                ),
        decreases h - dr,
    {
        let line = &fp[dr];
        let mut written: Vec<bool> = Vec::new();
        let mut dc: usize = 0;
        while dc < w
            invariant
                dr < h,
                dc <= w,
                line@.len() == w,
                written@.len() == dc,
                forall|b: int| 0 <= b < dc ==> #[trigger] written@[b] == (cache@.contains_key(line@[b]@)
                    || text_cells@.contains_key(line@[b]@)),
            decreases w - dc,
        {
            let name = &line[dc];
            written.push(cache.contains_key(name.as_str()) || text_cells.contains_key(name.as_str()));
            dc += 1;
        }
        if spill_blocked(line, anchor, occupied, &written, &reusable) {
            proof {
                let b = choose|b: int|
                    0 <= b < line@.len() && #[trigger] line@[b]@ != anchor@ && (occupied@.contains(line@[b]@) || (
                    written@[b] && !reusable@.contains(line@[b]@)));
                assert(fp@[dr as int]@[b]@ == spec_cell_at(c, rw, dr as int, b));
                assert(spec_blocks(
                    spec_cell_at(c, rw, dr as int, b),
                    anchor@,
                    occupied@,
                    old(cache)@,
                    old(text_cells)@,
                    old_t,
                ));
            }
            return Err(SpreadsheetError::Spill);
        }
        proof {
            assert forall|a: int, b: int|
                0 <= a < dr + 1 && 0 <= b < w implies !spec_blocks(
                    #[trigger] spec_cell_at(c, rw, a, b),
                    anchor@,
                    occupied@,
                    cache@,
                    text_cells@,
                    old_t,
                ) by {
                if a == dr {
                    assert(line@[b]@ == spec_cell_at(c, rw, a, b));
                    assert(!(line@[b]@ != anchor@ && (occupied@.contains(line@[b]@) || (written@[b]
                        && !reusable@.contains(line@[b]@)))));
                }
            }
        }
        dr += 1;
    }
    // write
    let ghost old_text = text_cells@;
    clear_spill(anchor, cache, spill_meta);
    let ghost base = cache@;
    proof {
        lemma_prefix_empty(c, rw, w as int);
        assert(text_cells@ =~= old_text.remove_keys(spec_rect_prefix(c, rw, w as int, 0, 0)));
        assert(cache@.remove_keys(spec_rect_prefix(c, rw, w as int, 0, 0)) =~= base.remove_keys(
            spec_rect_prefix(c, rw, w as int, 0, 0),
        ));
    }
    let mut dr: usize = 0;
    while dr < h
        invariant
            dr <= h,
            h == rows@.len(),
            w == rows@[0]@.len(),
            w > 0,
            spec_rect(rows@, w as int),
            spec_fits(c, rw, h as int, w as int),
            fp@.len() == h,
            forall|a: int| 0 <= a < h ==> #[trigger] fp@[a]@.len() == w,
            forall|a: int, b: int| 0 <= a < h && 0 <= b < w ==> #[trigger] fp@[a]@[b]@ == spec_cell_at(c, rw, a, b),
            cache.wf(),
            text_cells.wf(),
            text_cells@ == old_text.remove_keys(spec_rect_prefix(c, rw, w as int, dr as int, 0)),
            forall|a: int, b: int|
                0 <= a < dr && 0 <= b < w ==> cache@.contains_key(#[trigger] spec_cell_at(c, rw, a, b))
                    && cache@[spec_cell_at(c, rw, a, b)] == rows@[a]@[b],
            cache@.remove_keys(spec_rect_prefix(c, rw, w as int, dr as int, 0)) == base.remove_keys(
                spec_rect_prefix(c, rw, w as int, dr as int, 0),
            ),
        decreases h - dr,
    {
        let mut dc: usize = 0;
        while dc < w
            invariant
                dr < h,
                dc <= w,
                h == rows@.len(),
                w == rows@[0]@.len(),
                spec_rect(rows@, w as int),
                spec_fits(c, rw, h as int, w as int),
                fp@.len() == h,
                forall|a: int| 0 <= a < h ==> #[trigger] fp@[a]@.len() == w,
                forall|a: int, b: int| 0 <= a < h && 0 <= b < w ==> #[trigger] fp@[a]@[b]@ == spec_cell_at(c, rw, a, b),
                cache.wf(),
                text_cells.wf(),
                text_cells@ == old_text.remove_keys(spec_rect_prefix(c, rw, w as int, dr as int, dc as int)),
                forall|a: int, b: int|
                    0 <= a && 0 <= b < w && (a < dr || (a == dr && b < dc)) ==> cache@.contains_key(
                        #[trigger] spec_cell_at(c, rw, a, b),
                    ) && cache@[spec_cell_at(c, rw, a, b)] == rows@[a]@[b],
                cache@.remove_keys(spec_rect_prefix(c, rw, w as int, dr as int, dc as int)) == base.remove_keys(
                    spec_rect_prefix(c, rw, w as int, dr as int, dc as int),
                ),
            decreases w - dc,
        {
            let name = &fp[dr][dc];
            let ghost y = spec_cell_at(c, rw, dr as int, dc as int);
            let ghost before = cache@;
            let ghost p = spec_rect_prefix(c, rw, w as int, dr as int, dc as int);
            proof {
                lemma_prefix_step(c, rw, w as int, dr as int, dc as int);
                assert(name@ == y);
                assert(rows@[dr as int]@.len() == w);
            }
            text_cells.remove(name.as_str());
            cache.insert(name.clone(), rows[dr][dc]);
            proof {
                assert(text_cells@ =~= old_text.remove_keys(p.insert(y)));
                assert(cache@.remove_keys(p.insert(y)) =~= before.remove_keys(p).remove(y));
                assert(base.remove_keys(p.insert(y)) =~= base.remove_keys(p).remove(y));
                assert forall|a: int, b: int|
                    0 <= a && 0 <= b < w && (a < dr || (a == dr && b < dc + 1)) implies cache@.contains_key(
                        #[trigger] spec_cell_at(c, rw, a, b),
                    ) && cache@[spec_cell_at(c, rw, a, b)] == rows@[a]@[b] by {
                    if !(a == dr && b == dc) {
                        if spec_cell_at(c, rw, a, b) == y {
                            lemma_cell_at_injective(c, rw, a, b, dr as int, dc as int);
                        }
                        assert(before.contains_key(spec_cell_at(c, rw, a, b)));
                    }
                }
            }
            dc += 1;
        }
        proof {
            lemma_prefix_step(c, rw, w as int, dr as int, w as int - 1);
        }
        dr += 1;
    }
    spill_meta.insert(string_from_str(anchor), (h, w));
    proof {
        let rect = spec_rect_cells(c, rw, h as int, w as int);
        assert(spill_meta@ =~= old(spill_meta)@.insert(anchor@, (h, w)));
        assert(base == old(cache)@.remove_keys(old_t));
        assert forall|x: Seq<char>|
            !rect.contains(x) implies (cache@.contains_key(x) <==> (old(cache)@.contains_key(x) && !old_t.contains(
                x,
            ))) && (cache@.contains_key(x) ==> cache@[x] == old(cache)@[x]) by {
            assert(cache@.remove_keys(rect).contains_key(x) == cache@.contains_key(x));
            assert(base.remove_keys(rect).contains_key(x) == base.contains_key(x));
            if cache@.contains_key(x) {
                assert(cache@.remove_keys(rect)[x] == cache@[x]);
                assert(base.remove_keys(rect)[x] == base[x]);
            }
        }
        assert(text_cells@ =~= old(text_cells)@.remove_keys(rect));
    }
    Ok(())
}
/// Writing the same array at the same anchor again, right after a write that
/// succeeded, succeeds and changes nothing.
pub proof fn lemma_place_spill_repeat<T>(
    anchor: Seq<char>,
    rows: Seq<Vec<T>>,
    occupied: Set<Seq<char>>,
    c0: Map<Seq<char>, T>,
    t0: Map<Seq<char>, String>,
    m0: Map<Seq<char>, (usize, usize)>,
    c1: Map<Seq<char>, T>,
    t1: Map<Seq<char>, String>,
    m1: Map<Seq<char>, (usize, usize)>,
    r2: Result<(), SpreadsheetError>,
    c2: Map<Seq<char>, T>,
    t2: Map<Seq<char>, String>,
    m2: Map<Seq<char>, (usize, usize)>,
)
    requires
        spec_spill_post(anchor, rows, occupied, c0, t0, m0, Ok(()), c1, t1, m1),
        spec_spill_post(anchor, rows, occupied, c1, t1, m1, r2, c2, t2, m2),
    ensures
        r2 is Ok,
        c2 == c1,
        t2 == t1,
        m2 == m1,
{
    let h = rows.len() as int;
    if (h == 1 && rows[0]@.len() == 1) || spec_parse_a1(anchor) is None {
        // The first write recorded no spill for the anchor, so the second
        // clears nothing and writes the same number.
        assert(!m1.contains_key(anchor));
        assert(spec_old_targets(anchor, m1) =~= Set::<Seq<char>>::empty());
        assert(c1.remove_keys(spec_old_targets(anchor, m1)) =~= c1);
        assert(c2 =~= c1);
        assert(t2 =~= t1);
        assert(m2 =~= m1);
    } else {
        let w = rows[0]@.len() as int;
        let c = spec_parse_a1(anchor)->Some_0.0 as int;
        let rw = spec_parse_a1(anchor)->Some_0.1 as int;
        let rect = spec_rect_cells(c, rw, h, w);
        let old1 = spec_old_targets(anchor, m0);
        let old2 = spec_old_targets(anchor, m1);
        assert(m1.contains_key(anchor) && m1[anchor] == (h as usize, w as usize));
        assert(old2 == rect.remove(anchor));
        assert forall|a: int, b: int|
            0 <= a < h && 0 <= b < w implies !spec_blocks(#[trigger] spec_cell_at(c, rw, a, b), anchor, occupied, c1, t1, old2) by {
            let x = spec_cell_at(c, rw, a, b);
            assert(!spec_blocks(x, anchor, occupied, c0, t0, old1));
            assert(rect.contains(x)) by {
                assert(spec_rect_prefix(c, rw, w, h, 0).contains(x));
            }
        }
        assert(r2 is Ok);
        assert(m2 =~= m1);
        assert(t1.remove_keys(rect) =~= t1);
        assert(t2 =~= t1);
        assert forall|x: Seq<char>| #[trigger] c2.contains_key(x) == c1.contains_key(x) && (c2.contains_key(x) ==> c2[x]
            == c1[x]) by {
            if rect.contains(x) {
                let (a, b) = choose|a: int, b: int|
                    0 <= a && 0 <= b < w && (a < h || (a == h && b < 0)) && x == #[trigger] spec_cell_at(c, rw, a, b);
                assert(c1.contains_key(spec_cell_at(c, rw, a, b)));
                assert(c2.contains_key(spec_cell_at(c, rw, a, b)));
            } else {
                assert(!old2.contains(x));
            }
        }
        assert(c2 =~= c1);
    }
}

} // verus!
