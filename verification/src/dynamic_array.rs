//! The shape logic of dynamic arrays (`SEQUENCE`, `UNIQUE`, `SORT`,
//! `FILTER`): which rows and columns a result keeps and in what order. The
//! values themselves stay generic.
use vstd::prelude::*;
use crate::error::SpreadsheetError;
use crate::refs::MAX_RANGE_CELLS;

verus! {

// ---------------------------------------------------------------------------
// Matrices
// ---------------------------------------------------------------------------

/// Every row has `w` entries.
pub open spec fn spec_rect<T>(rows: Seq<Vec<T>>, w: int) -> bool {
    forall|r: int| 0 <= r < rows.len() ==> #[trigger] rows[r]@.len() == w
}

/// Whether `rows` has a first row and every row is as long as it.
pub fn is_nonempty_rect<T>(rows: &Vec<Vec<T>>) -> (r: bool)
    ensures
        r == (rows@.len() > 0 && spec_rect(rows@, rows@[0]@.len() as int)),
{
    if rows.len() == 0 {
        return false;
    }
    let w = rows[0].len();
    let mut k: usize = 0;
    while k < rows.len()
        invariant
            k <= rows@.len(),
            rows@.len() > 0,
            w == rows@[0]@.len(),
            forall|t: int| 0 <= t < k ==> #[trigger] rows@[t]@.len() == w,
        decreases rows.len() - k,
    {
        if rows[k].len() != w {
            return false;
        }
        k += 1;
    }
    true
}

/// A copy of a row.
pub fn copy_row<T: Copy>(v: &Vec<T>) -> (r: Vec<T>)
    ensures
        r@ == v@,
{
    let mut r: Vec<T> = Vec::new();
    let mut i: usize = 0;
    while i < v.len()
        invariant
            i <= v@.len(),
            r@ == v@.take(i as int),
        decreases v.len() - i,
    {
        r.push(v[i]);
        proof {
            assert(v@.take(i + 1) =~= v@.take(i as int).push(v@[i as int]));
        }
        i += 1;
    }
    proof {
        assert(v@.take(v@.len() as int) =~= v@);
    }
    r
}

/// Columns become rows. An empty matrix stays empty; a matrix whose rows are
/// empty or of different lengths is `#VALUE!`.
pub fn transpose<T: Copy>(rows: Vec<Vec<T>>) -> (r: Result<Vec<Vec<T>>, SpreadsheetError>)
    ensures
        rows@.len() == 0 ==> (r matches Ok(out) && out@.len() == 0),
        rows@.len() > 0 ==> {
            let w = rows@[0]@.len() as int;
            if w == 0 || !spec_rect(rows@, w) {
                r == Err::<Vec<Vec<T>>, SpreadsheetError>(SpreadsheetError::Value)
            } else {
                (r matches Ok(out) && out@.len() == w && spec_rect(out@, rows@.len() as int) && forall|c: int, k: int|
                    0 <= c < w && 0 <= k < rows@.len() ==> #[trigger] out@[c]@[k] == rows@[k]@[c])
            }
        },
{
    if rows.len() == 0 {
        return Ok(rows);
    }
    let w = rows[0].len();
    if w == 0 {
        return Err(SpreadsheetError::Value);
    }
    let mut k: usize = 0;
    while k < rows.len()
        invariant
            k <= rows@.len(),
            w == rows@[0]@.len(),
            forall|t: int| 0 <= t < k ==> #[trigger] rows@[t]@.len() == w,
        decreases rows.len() - k,
    {
        if rows[k].len() != w {
            return Err(SpreadsheetError::Value);
        }
        k += 1;
    }
    let h = rows.len();
    let mut out: Vec<Vec<T>> = Vec::new();
    let mut c: usize = 0;
    while c < w
        invariant
            c <= w,
            h == rows@.len(),
            w == rows@[0]@.len(),
            spec_rect(rows@, w as int),
            out@.len() == c,
            forall|a: int| 0 <= a < c ==> #[trigger] out@[a]@.len() == h,
            forall|a: int, t: int| 0 <= a < c && 0 <= t < h ==> #[trigger] out@[a]@[t] == rows@[t]@[a],
        decreases w - c,
    {
        let mut col: Vec<T> = Vec::new();
        let mut t: usize = 0;
        while t < h
            invariant
                t <= h,
                c < w,
                h == rows@.len(),
                spec_rect(rows@, w as int),
                col@.len() == t,
                forall|u: int| 0 <= u < t ==> #[trigger] col@[u] == rows@[u]@[c as int],
            decreases h - t,
        {
            col.push(rows[t][c]);
            t += 1;
        }
        out.push(col);
        c += 1;
    }
    Ok(out)
}

/// The rows of `rows` at the indices `idx`, in that order.
pub fn select_rows<T: Copy>(rows: &Vec<Vec<T>>, idx: &Vec<usize>) -> (r: Vec<Vec<T>>)
    requires
        forall|t: int| 0 <= t < idx@.len() ==> #[trigger] idx@[t] < rows@.len(),
    ensures
        r@.len() == idx@.len(),
        forall|t: int| 0 <= t < idx@.len() ==> #[trigger] r@[t]@ == rows@[idx@[t] as int]@,
{
    let mut r: Vec<Vec<T>> = Vec::new();
    let mut t: usize = 0;
    while t < idx.len()
        invariant
            t <= idx@.len(),
            forall|u: int| 0 <= u < idx@.len() ==> #[trigger] idx@[u] < rows@.len(),
            r@.len() == t,
            forall|u: int| 0 <= u < t ==> #[trigger] r@[u]@ == rows@[idx@[u] as int]@,
        decreases idx.len() - t,
    {
        r.push(copy_row(&rows[idx[t]]));
        t += 1;
    }
    r
}

/// The shape of an array result: no rows, or an empty first row, is
/// `#CALC!`; rows of different lengths are `#VALUE!`; more than
/// [`MAX_RANGE_CELLS`] cells is `#NUM!`. Otherwise (height, width).
pub fn matrix_shape<T>(rows: &Vec<Vec<T>>) -> (r: Result<(usize, usize), SpreadsheetError>)
    ensures
        rows@.len() == 0 || rows@[0]@.len() == 0 ==> r == Err::<(usize, usize), SpreadsheetError>(
            SpreadsheetError::Calc,
        ),
        rows@.len() > 0 && rows@[0]@.len() > 0 ==> {
            let h = rows@.len() as int;
            let w = rows@[0]@.len() as int;
            if !spec_rect(rows@, w) {
                r == Err::<(usize, usize), SpreadsheetError>(SpreadsheetError::Value)
            } else if h * w > MAX_RANGE_CELLS {
                r == Err::<(usize, usize), SpreadsheetError>(SpreadsheetError::Num)
            } else {
                r == Ok::<(usize, usize), SpreadsheetError>((h as usize, w as usize))
            }
        },
{
    if rows.len() == 0 || rows[0].len() == 0 {
        return Err(SpreadsheetError::Calc);
    }
    let w = rows[0].len();
    let mut k: usize = 0;
    while k < rows.len()
        invariant
            k <= rows@.len(),
            rows@.len() > 0,
            w > 0,
            w == rows@[0]@.len(),
            forall|t: int| 0 <= t < k ==> #[trigger] rows@[t]@.len() == w,
        decreases rows.len() - k,
    {
        if rows[k].len() != w {
            return Err(SpreadsheetError::Value);
        }
        k += 1;
    }
    match rows.len().checked_mul(w) {
        None => Err(SpreadsheetError::Num),
        Some(size) => {
            if size > MAX_RANGE_CELLS {
                Err(SpreadsheetError::Num)
            } else {
                Ok((rows.len(), w))
            }
        },
    }
}

// ---------------------------------------------------------------------------
// SEQUENCE
// ---------------------------------------------------------------------------

/// The shape of `SEQUENCE(rows, columns)` from its truncated arguments: a
/// count below 1 is `#CALC!`, more than [`MAX_RANGE_CELLS`] cells is `#NUM!`.
pub fn sequence_shape(rows: i64, columns: i64) -> (r: Result<(usize, usize), SpreadsheetError>)
    ensures
        rows <= 0 || columns <= 0 ==> r == Err::<(usize, usize), SpreadsheetError>(SpreadsheetError::Calc),
        rows > 0 && columns > 0 && rows * columns > MAX_RANGE_CELLS ==> r == Err::<
            (usize, usize),
            SpreadsheetError,
        >(SpreadsheetError::Num),
        rows > 0 && columns > 0 && rows * columns <= MAX_RANGE_CELLS ==> r == Ok::<
            (usize, usize),
            SpreadsheetError,
        >((rows as usize, columns as usize)),
{
    if rows <= 0 || columns <= 0 {
        return Err(SpreadsheetError::Calc);
    }
    if rows > 100_000 || columns > 100_000 {
        proof {
            assert(rows * columns > 100_000) by (nonlinear_arith)
                requires
                    rows >= 1,
                    columns >= 1,
                    rows > 100_000 || columns > 100_000,
            ;
        }
        return Err(SpreadsheetError::Num);
    }
    proof {
        assert(rows * columns <= 10_000_000_000) by (nonlinear_arith)
            requires
                1 <= rows <= 100_000,
                1 <= columns <= 100_000,
        ;
    }
    let size = rows * columns;
    if size > 100_000 {
        return Err(SpreadsheetError::Num);
    }
    Ok((rows as usize, columns as usize))
}

// ---------------------------------------------------------------------------
// UNIQUE
// ---------------------------------------------------------------------------

/// Row `i` equals no row before it.
pub open spec fn spec_first_occurrence(keys: Seq<Seq<u64>>, i: int) -> bool {
    forall|j: int| 0 <= j < i ==> #[trigger] keys[j] != keys[i]
}

/// Row `i` equals no other row.
pub open spec fn spec_only_occurrence(keys: Seq<Seq<u64>>, i: int) -> bool {
    forall|j: int| 0 <= j < keys.len() && j != i ==> #[trigger] keys[j] != keys[i]
}

pub open spec fn spec_unique_keeps(keys: Seq<Seq<u64>>, exactly_once: bool, i: int) -> bool {
    if exactly_once {
        spec_only_occurrence(keys, i)
    } else {
        spec_first_occurrence(keys, i)
    }
}

pub open spec fn spec_key_views(keys: Seq<Vec<u64>>) -> Seq<Seq<u64>> {
    keys.map_values(|k: Vec<u64>| k@)
}

/// `r` lists, in increasing order, exactly the indices below `n` that satisfy
/// `keep`.
pub open spec fn spec_selects(r: Seq<usize>, n: int, keep: spec_fn(int) -> bool) -> bool {
    &&& forall|t: int| 0 <= t < r.len() ==> #[trigger] r[t] < n && keep(r[t] as int)
    &&& forall|t: int, u: int| 0 <= t < u < r.len() ==> #[trigger] r[t] < #[trigger] r[u]
    &&& forall|i: int| 0 <= i < n && #[trigger] keep(i) ==> r.contains(i as usize)
}

fn same_key(a: &Vec<u64>, b: &Vec<u64>) -> (r: bool)
    ensures
        r == (a@ == b@),
{
    if a.len() != b.len() {
        return false;
    }
    let mut i: usize = 0;
    while i < a.len()
        invariant
            a@.len() == b@.len(),
            i <= a@.len(),
            forall|k: int| 0 <= k < i ==> a@[k] == b@[k],
        decreases a.len() - i,
    {
        if a[i] != b[i] {
            return false;
        }
        i += 1;
    }
    proof {
        assert(a@ =~= b@);
    }
    true
}

/// The rows that `UNIQUE` keeps, by index, in their order: each distinct row
/// once (its first occurrence), or with `exactly_once` only the rows that occur
/// once. Rows are compared by their keys (equal rows have equal keys).
pub fn unique_rows(keys: &Vec<Vec<u64>>, exactly_once: bool) -> (r: Vec<usize>)
    ensures
        spec_selects(r@, keys@.len() as int, |i: int| spec_unique_keeps(spec_key_views(keys@), exactly_once, i)),
{
    let ghost kv = spec_key_views(keys@);
    let ghost keep = |i: int| spec_unique_keeps(kv, exactly_once, i);
    let n = keys.len();
    let mut out: Vec<usize> = Vec::new();
    let mut i: usize = 0;
    while i < n
        invariant
            i <= n,
            n == keys@.len(),
            kv == spec_key_views(keys@),
            keep == (|i: int| spec_unique_keeps(kv, exactly_once, i)),
            forall|t: int| 0 <= t < out@.len() ==> #[trigger] out@[t] < i && keep(out@[t] as int),
            forall|t: int, u: int| 0 <= t < u < out@.len() ==> #[trigger] out@[t] < #[trigger] out@[u],
            forall|x: int| 0 <= x < i && #[trigger] keep(x) ==> out@.contains(x as usize),
        decreases n - i,
    {
        let mut j: usize = 0;
        let mut kept = true;
        let end = if exactly_once {
            n
        } else {
            i
        };
        while j < end
            invariant
                j <= end,
                end == (if exactly_once {
                    n
                } else {
                    i
                }),
                i < n,
                n == keys@.len(),
                kv == spec_key_views(keys@),
                kept == forall|t: int| 0 <= t < j && t != i ==> #[trigger] kv[t] != kv[i as int],
            decreases end - j,
        {
            if j != i && same_key(&keys[j], &keys[i]) {
                proof {
                    assert(kv[j as int] == keys@[j as int]@);
                    assert(kv[i as int] == keys@[i as int]@);
                }
                kept = false;
            }
            proof {
                assert(kv[j as int] == keys@[j as int]@);
                assert(kv[i as int] == keys@[i as int]@);
            }
            j += 1;
        }
        proof {
            assert(keep(i as int) == kept);
        }
        if kept {
            let ghost prev = out@;
            out.push(i);
            proof {
                assert forall|x: int| 0 <= x < i + 1 && #[trigger] keep(x) implies out@.contains(x as usize) by {
                    if x == i {
                        assert(out@[out@.len() - 1] == i);
                    } else {
                        assert(prev.contains(x as usize));
                        let t = choose|t: int| 0 <= t < prev.len() && prev[t] == x as usize;
                        assert(out@[t] == x as usize);
                    }
                }
            }
        }
        i += 1;
    }
    out
}

// ---------------------------------------------------------------------------
// SORT
// ---------------------------------------------------------------------------

/// Checks `SORT`'s arguments against an array of `height` rows and `width`
/// columns: the 1-based `sort_index` (truncated) must name a column, or a row
/// with `by_col`; `sort_order` must be 1 (ascending) or -1 (descending). No
/// rows is `#CALC!`; other failures are `#VALUE!`. Returns the 0-based index
/// and whether the order is ascending.
pub fn sort_args(height: usize, width: usize, sort_index: i64, sort_order: i64, by_col: bool) -> (r: Result<
    (usize, bool),
    SpreadsheetError,
>)
    ensures
        height == 0 ==> r == Err::<(usize, bool), SpreadsheetError>(SpreadsheetError::Calc),
        height > 0 && (sort_index < 1 || (sort_order != 1 && sort_order != -1) || sort_index - 1 >= (if by_col {
            height as int
        } else {
            width as int
        })) ==> r == Err::<(usize, bool), SpreadsheetError>(SpreadsheetError::Value),
        height > 0 && sort_index >= 1 && (sort_order == 1 || sort_order == -1) && sort_index - 1 < (if by_col {
            height as int
        } else {
            width as int
        }) ==> r == Ok::<(usize, bool), SpreadsheetError>(((sort_index - 1) as usize, sort_order == 1)),
{
    if height == 0 {
        return Err(SpreadsheetError::Calc);
    }
    if sort_index < 1 {
        return Err(SpreadsheetError::Value);
    }
    let ascending = if sort_order == 1 {
        true
    } else if sort_order == -1 {
        false
    } else {
        return Err(SpreadsheetError::Value);
    };
    let bound = if by_col {
        height
    } else {
        width
    };
    let index: i64 = sort_index - 1;
    if index as u64 >= bound as u64 {
        return Err(SpreadsheetError::Value);
    }
    Ok((index as usize, ascending))
}

/// Index `i` occurs in `r`.
pub open spec fn spec_lists(r: Seq<usize>, i: int) -> bool {
    r.contains(i as usize)
}

/// Lexicographic order of (key, index) pairs.
pub open spec fn spec_pair_le(a: (i64, usize), b: (i64, usize)) -> bool {
    a.0 < b.0 || (a.0 == b.0 && a.1 <= b.1)
}

/// Sorts pairs by calling std's `slice::sort` (through `Vec`'s deref).
/// Trusted: afterwards the vector holds the same pairs (as a multiset) in
/// non-decreasing order, tuples comparing lexicographically (the key, then the
/// index), which is what the documentation of `sort` and of tuple `Ord` states.
#[verifier::external_body]
fn sort_pairs(v: &mut Vec<(i64, usize)>)
    ensures
        final(v)@.to_multiset() == old(v)@.to_multiset(),
        forall|i: int, j: int| 0 <= i < j < final(v)@.len() ==> spec_pair_le(#[trigger] final(v)@[i], #[trigger] final(v)@[j]),
{
    v.sort();
}

/// `keys[i]` comes strictly before `keys[j]` in a stable sort of the given
/// direction: a smaller key (larger when descending), or an equal key and an
/// earlier index.
pub open spec fn spec_sorts_before(keys: Seq<i64>, ascending: bool, i: int, j: int) -> bool {
    if ascending {
        keys[i] < keys[j] || (keys[i] == keys[j] && i < j)
    } else {
        keys[i] > keys[j] || (keys[i] == keys[j] && i < j)
    }
}

/// Key that orders descending keys ascending (an order-reversing bijection).
pub open spec fn spec_directed(k: i64, ascending: bool) -> i64 {
    if ascending {
        k
    } else {
        (-1 - k) as i64
    }
}

/// The stable sort order of `keys`: every index once, each placed before the
/// indices it sorts before.
pub fn sort_order(keys: &Vec<i64>, ascending: bool) -> (r: Vec<usize>)
    ensures
        r@.len() == keys@.len(),
        forall|i: int| 0 <= i < keys@.len() ==> #[trigger] spec_lists(r@, i),
        forall|t: int| 0 <= t < r@.len() ==> #[trigger] r@[t] < keys@.len(),
        forall|t: int, u: int|
            0 <= t < u < r@.len() ==> spec_sorts_before(keys@, ascending, #[trigger] r@[t] as int, #[trigger] r@[u] as int),
{
    let n = keys.len();
    let mut pairs: Vec<(i64, usize)> = Vec::new();
    let mut i: usize = 0;
    while i < n
        invariant
            i <= n,
            n == keys@.len(),
            pairs@.len() == i,
            forall|t: int| 0 <= t < i ==> #[trigger] pairs@[t] == (spec_directed(keys@[t], ascending), t as usize),
        decreases n - i,
    {
        let k = if ascending {
            keys[i]
        } else {
            -1 - keys[i]
        };
        pairs.push((k, i));
        i += 1;
    }
    let ghost before = pairs@;
    sort_pairs(&mut pairs);
    let mut out: Vec<usize> = Vec::new();
    let mut t: usize = 0;
    proof {
        assert forall|u: int| 0 <= u < pairs@.len() implies #[trigger] before.contains(pairs@[u]) by {
            lemma_multiset_contains(before, pairs@, pairs@[u]);
        }
        assert forall|x: int| 0 <= x < n implies #[trigger] pairs@.contains(before[x]) by {
            lemma_multiset_contains(pairs@, before, before[x]);
        }
        assert(pairs@.len() == n) by {
            before.to_multiset_ensures();
            pairs@.to_multiset_ensures();
        }
    }
    while t < pairs.len()
        invariant
            t <= pairs@.len(),
            pairs@.len() == n,
            n == keys@.len(),
            before.len() == n,
            forall|u: int| 0 <= u < n ==> #[trigger] before[u] == (spec_directed(keys@[u], ascending), u as usize),
            forall|u: int| 0 <= u < pairs@.len() ==> #[trigger] before.contains(pairs@[u]),
            out@.len() == t,
            forall|u: int| 0 <= u < t ==> #[trigger] out@[u] == pairs@[u].1,
        decreases pairs.len() - t,
    {
        out.push(pairs[t].1);
        t += 1;
    }
    proof {
        assert forall|u: int| 0 <= u < n implies #[trigger] pairs@[u] == (spec_directed(keys@[pairs@[u].1 as int], ascending), pairs@[u].1)
            && pairs@[u].1 < n by {
            assert(before.contains(pairs@[u]));
            let x = choose|x: int| 0 <= x < n && before[x] == pairs@[u];
        }
        assert forall|x: int| 0 <= x < keys@.len() implies #[trigger] spec_lists(out@, x) by {
            assert(pairs@.contains(before[x]));
            let u = choose|u: int| 0 <= u < n && pairs@[u] == before[x];
            assert(out@[u] == x as usize);
        }
        assert forall|a: int, b: int|
            0 <= a < b < out@.len() implies spec_sorts_before(keys@, ascending, #[trigger] out@[a] as int, #[trigger] out@[b] as int) by {
            let pa = pairs@[a];
            let pb = pairs@[b];
            assert(spec_pair_le(pa, pb));
            assert(pa == (spec_directed(keys@[pa.1 as int], ascending), pa.1));
            assert(pb == (spec_directed(keys@[pb.1 as int], ascending), pb.1));
            assert(pa.1 != pb.1) by {
                lemma_sorted_distinct(before, pairs@, a, b);
            }
        }
    }
    out
}

/// Entries of a sequence with the same multiset are entries of the other.
proof fn lemma_multiset_contains<A>(a: Seq<A>, b: Seq<A>, x: A)
    requires
        a.to_multiset() == b.to_multiset(),
        b.contains(x),
    ensures
        a.contains(x),
{
    vstd::seq_lib::to_multiset_contains(b, x);
    vstd::seq_lib::to_multiset_contains(a, x);
}

/// Two positions of a permutation of distinct pairs hold distinct pairs.
proof fn lemma_sorted_distinct(before: Seq<(i64, usize)>, after: Seq<(i64, usize)>, a: int, b: int)
    requires
        after.to_multiset() == before.to_multiset(),
        before.len() <= usize::MAX,
        forall|u: int| 0 <= u < before.len() ==> #[trigger] before[u].1 == u as usize,
        0 <= a < b < after.len(),
    ensures
        after[a].1 != after[b].1,
{
    assert(before.no_duplicates()) by {
        assert forall|i: int, j: int| 0 <= i < before.len() && 0 <= j < before.len() && i != j implies before[i]
            != before[j] by {
            assert(before[i].1 == i as usize);
            assert(before[j].1 == j as usize);
        }
    }
    before.lemma_multiset_has_no_duplicates();
    after.lemma_multiset_has_no_duplicates_conv();
    lemma_multiset_contains(before, after, after[a]);
    lemma_multiset_contains(before, after, after[b]);
    let i = choose|i: int| 0 <= i < before.len() && before[i] == after[a];
    let j = choose|j: int| 0 <= j < before.len() && before[j] == after[b];
    assert(before[i].1 == i as usize);
    assert(before[j].1 == j as usize);
    assert(after[a] != after[b]);
}

// ---------------------------------------------------------------------------
// FILTER
// ---------------------------------------------------------------------------

/// How `FILTER`'s `criteria` selects: row by row, or column by column.
#[derive(Clone, Copy, Debug, PartialEq, Eq, Structural)]
pub enum FilterAxis {
    Rows,
    Columns,
}

/// The axis of `FILTER(array, criteria)` from the shapes: a column of one flag
/// per row filters rows, a row of one flag per column filters columns; any
/// other shape is `#VALUE!`.
pub fn filter_axis(height: usize, width: usize, criteria_height: usize, criteria_width: usize) -> (r: Result<
    FilterAxis,
    SpreadsheetError,
>)
    ensures
        criteria_height == height && criteria_width == 1 ==> r == Ok::<FilterAxis, SpreadsheetError>(
            FilterAxis::Rows,
        ),
        !(criteria_height == height && criteria_width == 1) && criteria_height == 1 && criteria_width == width
            ==> r == Ok::<FilterAxis, SpreadsheetError>(FilterAxis::Columns),
        !(criteria_height == height && criteria_width == 1) && !(criteria_height == 1 && criteria_width == width)
            ==> r == Err::<FilterAxis, SpreadsheetError>(SpreadsheetError::Value),
{
    if criteria_height == height && criteria_width == 1 {
        Ok(FilterAxis::Rows)
    } else if criteria_height == 1 && criteria_width == width {
        Ok(FilterAxis::Columns)
    } else if criteria_height == height && criteria_width == width && width == 1 {
        Ok(FilterAxis::Rows)
    } else {
        Err(SpreadsheetError::Value)
    }
}

/// The indices whose flag is set, in increasing order.
pub fn kept_indices(flags: &Vec<bool>) -> (r: Vec<usize>)
    ensures
        forall|t: int| 0 <= t < r@.len() ==> #[trigger] r@[t] < flags@.len() && flags@[r@[t] as int],
        forall|t: int, u: int| 0 <= t < u < r@.len() ==> #[trigger] r@[t] < #[trigger] r@[u],
        forall|i: int| 0 <= i < flags@.len() && #[trigger] flags@[i] ==> r@.contains(i as usize),
{
    let mut out: Vec<usize> = Vec::new();
    let mut i: usize = 0;
    while i < flags.len()
        invariant
            i <= flags@.len(),
            forall|t: int| 0 <= t < out@.len() ==> #[trigger] out@[t] < i && flags@[out@[t] as int],
            forall|t: int, u: int| 0 <= t < u < out@.len() ==> #[trigger] out@[t] < #[trigger] out@[u],
            forall|x: int| 0 <= x < i && #[trigger] flags@[x] ==> out@.contains(x as usize),
        decreases flags.len() - i,
    {
        if flags[i] {
            let ghost prev = out@;
            out.push(i);
            proof {
                assert forall|x: int| 0 <= x < i + 1 && #[trigger] flags@[x] implies out@.contains(x as usize) by {
                    if x == i {
                        assert(out@[out@.len() - 1] == i);
                    } else {
                        assert(prev.contains(x as usize));
                        let t = choose|t: int| 0 <= t < prev.len() && prev[t] == x as usize;
                        assert(out@[t] == x as usize);
                    }
                }
            }
        }
        i += 1;
    }
    out
}

/// The entries of a row at the given column indices.
pub fn select_entries<T: Copy>(row: &Vec<T>, idx: &Vec<usize>) -> (r: Vec<T>)
    requires
        forall|t: int| 0 <= t < idx@.len() ==> #[trigger] idx@[t] < row@.len(),
    ensures
        r@.len() == idx@.len(),
        forall|t: int| 0 <= t < idx@.len() ==> #[trigger] r@[t] == row@[idx@[t] as int],
{
    let mut r: Vec<T> = Vec::new();
    let mut t: usize = 0;
    while t < idx.len()
        invariant
            t <= idx@.len(),
            forall|u: int| 0 <= u < idx@.len() ==> #[trigger] idx@[u] < row@.len(),
            r@.len() == t,
            forall|u: int| 0 <= u < t ==> #[trigger] r@[u] == row@[idx@[u] as int],
        decreases idx.len() - t,
    {
        r.push(row[idx[t]]);
        t += 1;
    }
    r
}

/// `criteria` fits neither axis of `array` (see [`filter_axis`]).
pub open spec fn spec_filter_mismatch<T>(array: Seq<Vec<T>>, criteria: Seq<Vec<bool>>) -> bool {
    let h = array.len() as int;
    let w = array[0]@.len() as int;
    let ih = criteria.len() as int;
    let iw = criteria[0]@.len() as int;
    !(ih == h && iw == 1) && !(ih == 1 && iw == w)
}

/// `out` is what `FILTER(array, criteria)` keeps: the rows whose flag is set
/// (a column of one flag per row), else the columns whose flag is set (a row
/// of one flag per column; no rows at all when no column is kept), in order.
pub open spec fn spec_filtered<T>(array: Seq<Vec<T>>, criteria: Seq<Vec<bool>>, out: Seq<Vec<T>>) -> bool {
    let h = array.len() as int;
    let w = array[0]@.len() as int;
    let ih = criteria.len() as int;
    let iw = criteria[0]@.len() as int;
    if ih == h && iw == 1 {
        exists|idx: Seq<usize>|
            spec_selects(idx, h, |i: int| criteria[i]@[0]) && out.len() == idx.len() && forall|t: int|
                0 <= t < idx.len() ==> #[trigger] out[t]@ == array[idx[t] as int]@
    } else {
        exists|idx: Seq<usize>|
            spec_selects(idx, w, |c: int| criteria[0]@[c]) && (if idx.len() == 0 {
                out.len() == 0
            } else {
                out.len() == h && forall|k: int, t: int|
                    0 <= k < h && 0 <= t < idx.len() ==> out[k]@.len() == idx.len() && #[trigger] out[k]@[t]
                        == array[k]@[idx[t] as int]
            })
    }
}

/// `FILTER(array, criteria)` on a rectangular array: the rows (or columns)
/// whose `criteria` flag is set, in order. The result may be empty (no row or
/// column kept); a mismatched `criteria` shape is `#VALUE!`.
pub fn filter_matrix<T: Copy>(array: &Vec<Vec<T>>, criteria: &Vec<Vec<bool>>) -> (r: Result<
    Vec<Vec<T>>,
    SpreadsheetError,
>)
    requires
        array@.len() > 0,
        criteria@.len() > 0,
        spec_rect(array@, array@[0]@.len() as int),
        spec_rect(criteria@, criteria@[0]@.len() as int),
    ensures
        if spec_filter_mismatch(array@, criteria@) {
            r == Err::<Vec<Vec<T>>, SpreadsheetError>(SpreadsheetError::Value)
        } else {
            r matches Ok(out) && spec_filtered(array@, criteria@, out@)
        },
{
    let h = array.len();
    let w = array[0].len();
    let ih = criteria.len();
    let iw = criteria[0].len();
    match filter_axis(h, w, ih, iw) {
        Err(e) => Err(e),
        Ok(FilterAxis::Rows) => {
            let mut flags: Vec<bool> = Vec::new();
            let mut i: usize = 0;
            while i < ih
                invariant
                    i <= ih,
                    ih == criteria@.len(),
                    iw == criteria@[0]@.len(),
                    iw == 1,
                    spec_rect(criteria@, iw as int),
                    flags@.len() == i,
                    forall|t: int| 0 <= t < i ==> #[trigger] flags@[t] == criteria@[t]@[0],
                decreases ih - i,
            {
                flags.push(criteria[i][0]);
                i += 1;
            }
            let idx = kept_indices(&flags);
            proof {
                assert(flags@.len() == h);
                assert forall|t: int| 0 <= t < idx@.len() implies #[trigger] idx@[t] < array@.len() by {}
            }
            let out = select_rows(array, &idx);
            proof {
                let keep = |i: int| criteria@[i]@[0];
                assert(spec_selects(idx@, h as int, keep)) by {
                    assert forall|t: int| 0 <= t < idx@.len() implies #[trigger] idx@[t] < h && keep(idx@[t] as int) by {
                        assert(flags@[idx@[t] as int]);
                    }
                    assert forall|x: int| 0 <= x < h && #[trigger] keep(x) implies idx@.contains(x as usize) by {
                        assert(flags@[x]);
                    }
                }
            }
            Ok(out)
        },
        Ok(FilterAxis::Columns) => {
            let mut flags: Vec<bool> = Vec::new();
            let mut c: usize = 0;
            while c < iw
                invariant
                    c <= iw,
                    criteria@.len() > 0,
                    iw == criteria@[0]@.len(),
                    flags@.len() == c,
                    forall|t: int| 0 <= t < c ==> #[trigger] flags@[t] == criteria@[0]@[t],
                decreases iw - c,
            {
                flags.push(criteria[0][c]);
                c += 1;
            }
            let idx = kept_indices(&flags);
            let ghost keep = |c: int| criteria@[0]@[c];
            proof {
                assert(flags@.len() == w);
                assert(spec_selects(idx@, w as int, keep)) by {
                    assert forall|t: int| 0 <= t < idx@.len() implies #[trigger] idx@[t] < w && keep(idx@[t] as int) by {
                        assert(flags@[idx@[t] as int]);
                    }
                    assert forall|x: int| 0 <= x < w && #[trigger] keep(x) implies idx@.contains(x as usize) by {
                        assert(flags@[x]);
                    }
                }
            }
            if idx.len() == 0 {
                return Ok(Vec::new());
            }
            let mut out: Vec<Vec<T>> = Vec::new();
            let mut k: usize = 0;
            while k < h
                invariant
                    k <= h,
                    h == array@.len(),
                    w == array@[0]@.len(),
                    spec_rect(array@, w as int),
                    forall|t: int| 0 <= t < idx@.len() ==> #[trigger] idx@[t] < w,
                    out@.len() == k,
                    forall|a: int| 0 <= a < k ==> #[trigger] out@[a]@.len() == idx@.len(),
                    forall|a: int, t: int|
                        0 <= a < k && 0 <= t < idx@.len() ==> #[trigger] out@[a]@[t] == array@[a]@[idx@[t] as int],
                decreases h - k,
            {
                proof {
                    assert(array@[k as int]@.len() == w);
                }
                let row = select_entries(&array[k], &idx);
                out.push(row);
                k += 1;
            }
            Ok(out)
        },
    }
}

/// An array result as a cell value: a single cell stands for its entry.
pub enum ArrayValue<T> {
    Single(T),
    Many(Vec<Vec<T>>),
}

/// The error of turning `rows` into a value: no cells is `#CALC!`, rows of
/// different lengths are `#VALUE!`, more than [`MAX_RANGE_CELLS`] cells is
/// `#NUM!` (as [`matrix_shape`]).
pub open spec fn spec_value_error<T>(rows: Seq<Vec<T>>) -> Option<SpreadsheetError> {
    if rows.len() == 0 || rows[0]@.len() == 0 {
        Some(SpreadsheetError::Calc)
    } else if !spec_rect(rows, rows[0]@.len() as int) {
        Some(SpreadsheetError::Value)
    } else if rows.len() * rows[0]@.len() > MAX_RANGE_CELLS {
        Some(SpreadsheetError::Num)
    } else {
        None
    }
}

/// `v` is `rows` as a value: the entry of a 1 × 1 matrix, else the rows.
pub open spec fn spec_value_of<T>(rows: Seq<Vec<T>>, v: ArrayValue<T>) -> bool {
    match v {
        ArrayValue::Single(x) => rows.len() == 1 && rows[0]@.len() == 1 && x == rows[0]@[0],
        ArrayValue::Many(m) => !(rows.len() == 1 && rows[0]@.len() == 1) && m@ == rows,
    }
}

/// `rows` as a cell value (see [`spec_value_error`], [`spec_value_of`]).
pub fn as_value<T: Copy>(rows: Vec<Vec<T>>) -> (r: Result<ArrayValue<T>, SpreadsheetError>)
    ensures
        match spec_value_error(rows@) {
            Some(e) => r == Err::<ArrayValue<T>, SpreadsheetError>(e),
            None => r matches Ok(v) && spec_value_of(rows@, v),
        },
{
    match matrix_shape(&rows) {
        Err(e) => Err(e),
        Ok(_) => {
            if rows.len() == 1 && rows[0].len() == 1 {
                let x = rows[0][0];
                Ok(ArrayValue::Single(x))
            } else {
                Ok(ArrayValue::Many(rows))
            }
        },
    }
}

/// What `FILTER` gives: the kept cells as a value, or its `if_empty` value.
pub enum Filtered<T, E> {
    Kept(ArrayValue<T>),
    IfEmpty(E),
}

/// Nothing kept: no rows, or rows without cells.
pub open spec fn spec_nothing_kept<T>(out: Seq<Vec<T>>) -> bool {
    out.len() == 0 || out[0]@.len() == 0
}

/// `FILTER(array, criteria, [if_empty])`: the kept rows or columns (see
/// [`spec_filtered`]) as a value; when nothing is kept, `if_empty` if given,
/// else `#CALC!`; a mismatched `criteria` shape is `#VALUE!`.
pub fn filter_array<T: Copy, E>(array: &Vec<Vec<T>>, criteria: &Vec<Vec<bool>>, if_empty: Option<E>) -> (r: Result<
    Filtered<T, E>,
    SpreadsheetError,
>)
    requires
        array@.len() > 0,
        criteria@.len() > 0,
        spec_rect(array@, array@[0]@.len() as int),
        spec_rect(criteria@, criteria@[0]@.len() as int),
    ensures
        spec_filter_mismatch(array@, criteria@) ==> r == Err::<Filtered<T, E>, SpreadsheetError>(
            SpreadsheetError::Value,
        ),
        !spec_filter_mismatch(array@, criteria@) ==> exists|out: Seq<Vec<T>>|
            #[trigger] spec_filtered(array@, criteria@, out) && if spec_nothing_kept(out) {
                match if_empty {
                    Some(x) => r == Ok::<Filtered<T, E>, SpreadsheetError>(Filtered::IfEmpty(x)),
                    None => r == Err::<Filtered<T, E>, SpreadsheetError>(SpreadsheetError::Calc),
                }
            } else {
                match spec_value_error(out) {
                    Some(e) => r == Err::<Filtered<T, E>, SpreadsheetError>(e),
                    None => r matches Ok(Filtered::Kept(v)) && spec_value_of(out, v),
                }
            },
{
    let out = match filter_matrix(array, criteria) {
        Err(e) => {
            return Err(e);
        },
        Ok(out) => out,
    };
    let ghost ov = out@;
    proof {
        assert(spec_filtered(array@, criteria@, ov));
    }
    if out.len() == 0 || out[0].len() == 0 {
        return match if_empty {
            Some(x) => Ok(Filtered::IfEmpty(x)),
            None => Err(SpreadsheetError::Calc),
        };
    }
    match as_value(out) {
        Err(e) => Err(e),
        Ok(v) => Ok(Filtered::Kept(v)),
    }
}

/// `idx` lists the rows [`unique_rows`] keeps (see [`spec_unique_keeps`]).
pub open spec fn spec_unique_selection(keys: Seq<Vec<u64>>, exactly_once: bool, idx: Seq<usize>) -> bool {
    spec_selects(idx, keys.len() as int, |i: int| spec_unique_keeps(spec_key_views(keys), exactly_once, i))
}

/// `UNIQUE` on rows keyed by `keys`: the rows [`unique_rows`] keeps, in
/// order; none kept is `#CALC!`.
pub fn unique_array<T: Copy>(rows: &Vec<Vec<T>>, keys: &Vec<Vec<u64>>, exactly_once: bool) -> (r: Result<
    Vec<Vec<T>>,
    SpreadsheetError,
>)
    requires
        keys@.len() == rows@.len(),
    ensures
        exists|idx: Seq<usize>|
            #[trigger] spec_unique_selection(keys@, exactly_once, idx) && if idx.len() == 0 {
                r == Err::<Vec<Vec<T>>, SpreadsheetError>(SpreadsheetError::Calc)
            } else {
                r matches Ok(out) && out@.len() == idx.len() && forall|t: int|
                    0 <= t < idx.len() ==> #[trigger] out@[t]@ == rows@[idx[t] as int]@
            },
{
    let idx = unique_rows(keys, exactly_once);
    proof {
        assert(spec_unique_selection(keys@, exactly_once, idx@));
        assert forall|t: int| 0 <= t < idx@.len() implies #[trigger] idx@[t] < rows@.len() by {}
    }
    if idx.len() == 0 {
        return Err(SpreadsheetError::Calc);
    }
    Ok(select_rows(rows, &idx))
}

} // verus!
