//! A1 addressing helpers and formula-reference analysis types.
use vstd::prelude::*;
use crate::error::SpreadsheetError;
use vstd::hash_set::StringHashSet;
use vstd::hash_map::StringHashMap;
use crate::text::{
    chars_of, is_ascii_alpha, is_ascii_digit, push_decimal, spec_all_digits, spec_decimal,
    spec_digits_value, spec_is_alpha, spec_is_digit, spec_to_upper, spec_upper_seq, string_push,
    string_from_str, to_ascii_upper, lemma_decimal_digits, lemma_digits_value_prefix,
    lemma_digits_value_nonneg, spec_digit_val,
};

verus! {

/// Soft cap on expanded A1 ranges (analysis and evaluation). Larger ranges are `#NUM!`.
pub const MAX_RANGE_CELLS: usize = 100_000;

// ---------------------------------------------------------------------------
// Column letters
// ---------------------------------------------------------------------------

/// Number of leading ASCII letters of `s[i..]`, counted from `i`.
pub open spec fn spec_alpha_end(s: Seq<char>, i: int) -> int
    decreases s.len() - i,
{
    if 0 <= i < s.len() && spec_is_alpha(s[i]) {
        spec_alpha_end(s, i + 1)
    } else {
        i
    }
}

proof fn lemma_alpha_end(s: Seq<char>, i: int)
    requires
        0 <= i <= s.len(),
    ensures
        i <= spec_alpha_end(s, i) <= s.len(),
        forall|k: int| i <= k < spec_alpha_end(s, i) ==> spec_is_alpha(#[trigger] s[k]),
        spec_alpha_end(s, i) < s.len() ==> !spec_is_alpha(s[spec_alpha_end(s, i)]),
    decreases s.len() - i,
{
    if i < s.len() && spec_is_alpha(s[i]) {
        lemma_alpha_end(s, i + 1);
    }
}

/// Value (1..=26) of a column letter, case-insensitively.
pub open spec fn spec_letter_val(c: char) -> int {
    spec_to_upper(c) as int - 'A' as int + 1
}

/// Column number of a run of letters (`A` = 1, `Z` = 26, `AA` = 27, ...).
pub open spec fn spec_col_value(s: Seq<char>) -> int
    decreases s.len(),
{
    if s.len() == 0 {
        0
    } else {
        spec_col_value(s.drop_last()) * 26 + spec_letter_val(s.last())
    }
}

pub open spec fn spec_all_alpha(s: Seq<char>) -> bool {
    forall|i: int| 0 <= i < s.len() ==> spec_is_alpha(#[trigger] s[i])
}

proof fn lemma_letter_val(c: char)
    requires
        spec_is_alpha(c),
    ensures
        1 <= spec_letter_val(c) <= 26,
{
    if 'a' <= c && c <= 'z' {
        assert((((c as u32) - 32) as char) as int == c as int - 32);
    }
}

proof fn lemma_col_value_prefix(s: Seq<char>, j: int)
    requires
        spec_all_alpha(s),
        0 <= j <= s.len(),
    ensures
        spec_col_value(s.take(j)) <= spec_col_value(s),
        0 <= spec_col_value(s.take(j)),
    decreases s.len(),
{
    if j < s.len() {
        assert(s.drop_last().take(j) == s.take(j));
        lemma_col_value_prefix(s.drop_last(), j);
        lemma_letter_val(s.last());
    } else {
        assert(s.take(j) == s);
        if s.len() > 0 {
            lemma_col_value_prefix(s.drop_last(), s.len() - 1);
            assert(s.drop_last().take(s.len() - 1) == s.drop_last());
            lemma_letter_val(s.last());
        }
    }
}

/// The uppercase letter for `0..26`.
pub open spec fn spec_col_letter(d: int) -> char {
    (d + 'A' as int) as char
}

/// Column letters of a column number (bijective base 26; empty for 0).
pub open spec fn spec_col_letters(n: nat) -> Seq<char>
    decreases n,
{
    if n == 0 {
        Seq::empty()
    } else {
        spec_col_letters(((n - 1) / 26) as nat).push(spec_col_letter((n - 1) % 26))
    }
}

/// Canonical A1 name of a column and row.
pub open spec fn spec_format_a1(col: nat, row: nat) -> Seq<char> {
    spec_col_letters(col) + spec_decimal(row)
}

/// `A1`-style name → (column, row), both 1-based; `None` for other names.
pub open spec fn spec_parse_a1(s: Seq<char>) -> Option<(u32, u32)> {
    let i = spec_alpha_end(s, 0);
    let rest = s.skip(i);
    if i == 0 || i >= s.len() {
        None
    } else if !spec_all_digits(rest) || rest[0] == '0' {
        None
    } else if spec_digits_value(rest) > u32::MAX || spec_col_value(s.take(i)) > u32::MAX {
        None
    } else {
        Some((spec_col_value(s.take(i)) as u32, spec_digits_value(rest) as u32))
    }
}

/// Column value of `s[0..i]` if it fits in `u32`.
fn col_value_checked(s: &Vec<char>, i: usize) -> (r: Option<u32>)
    requires
        i <= s@.len(),
        spec_all_alpha(s@.take(i as int)),
    ensures
        match r {
            Some(v) => v == spec_col_value(s@.take(i as int)),
            None => spec_col_value(s@.take(i as int)) > u32::MAX,
        },
{
    let ghost t = s@.take(i as int);
    let mut col: u32 = 0;
    let mut k: usize = 0;
    while k < i
        invariant
            k <= i <= s@.len(),
            t == s@.take(i as int),
            spec_all_alpha(t),
            col == spec_col_value(t.take(k as int)),
        decreases i - k,
    {
        let c = to_ascii_upper(s[k]);
        proof {
            assert(t[k as int] == s@[k as int]);
            lemma_letter_val(s@[k as int]);
            assert(t.take(k + 1).drop_last() =~= t.take(k as int));
            assert(t.take(k + 1).last() == s@[k as int]);
        }
        let v: u32 = c as u32 - 'A' as u32 + 1;
        if col > (u32::MAX - v) / 26 {
            proof {
                assert(col * 26 + v > u32::MAX) by (nonlinear_arith)
                    requires
                        col > (u32::MAX - v) / 26,
                        v <= 26,
                ;
                lemma_col_value_prefix(t, k + 1);
            }
            return None;
        }
        proof {
            assert(col * 26 + v <= u32::MAX) by (nonlinear_arith)
                requires
                    col <= (u32::MAX - v) / 26,
                    v <= 26,
            ;
        }
        col = col * 26 + v;
        k += 1;
    }
    proof {
        assert(t.take(i as int) =~= t);
    }
    Some(col)
}

/// Excel-style `A1` → (column 1-based, row 1-based). Non-A1 identifiers give `None`.
pub fn parse_a1(name: &str) -> (r: Option<(u32, u32)>)
    ensures
        r == spec_parse_a1(name@),
{
    let s = chars_of(name);
    parse_a1_chars(&s)
}

/// [`parse_a1`] on a character vector.
pub fn parse_a1_chars(s: &Vec<char>) -> (r: Option<(u32, u32)>)
    ensures
        r == spec_parse_a1(s@),
{
    let mut i: usize = 0;
    while i < s.len() && is_ascii_alpha(s[i])
        invariant
            i <= s@.len(),
            spec_alpha_end(s@, i as int) == spec_alpha_end(s@, 0),
            forall|k: int| 0 <= k < i ==> spec_is_alpha(#[trigger] s@[k]),
        decreases s.len() - i,
    {
        i += 1;
    }
    proof {
        lemma_alpha_end(s@, 0);
        assert(spec_alpha_end(s@, i as int) == i as int);
    }
    if i == 0 || i == s.len() {
        return None;
    }
    let ghost rest = s@.skip(i as int);
    // Row part: ASCII digits, no leading zero.
    let mut j: usize = i;
    while j < s.len()
        invariant
            i <= j <= s@.len(),
            0 < i < s@.len(),
            i as int == spec_alpha_end(s@, 0),
            rest == s@.skip(i as int),
            forall|k: int| i <= k < j ==> spec_is_digit(#[trigger] s@[k]),
        decreases s.len() - j,
    {
        if !is_ascii_digit(s[j]) {
            proof {
                assert(rest[j - i] == s@[j as int]);
            }
            return None;
        }
        j += 1;
    }
    proof {
        assert forall|k: int| 0 <= k < rest.len() implies spec_is_digit(#[trigger] rest[k]) by {
            assert(rest[k] == s@[k + i]);
        }
        assert(rest[0] == s@[i as int]);
    }
    if s[i] == '0' {
        return None;
    }
    let row = match crate::text::parse_u32_range(s, i, s.len()) {
        Some(v) => v,
        None => {
            proof {
                assert(s@.subrange(i as int, s@.len() as int) =~= rest);
                assert(rest[0] != '+');
            }
            return None;
        },
    };
    proof {
        assert(s@.subrange(i as int, s@.len() as int) =~= rest);
        assert(rest[0] != '+');
        assert(spec_all_alpha(s@.take(i as int))) by {
            assert forall|k: int| 0 <= k < i implies spec_is_alpha(#[trigger] s@.take(i as int)[k]) by {
                assert(s@.take(i as int)[k] == s@[k]);
            }
        }
    }
    let col = match col_value_checked(s, i) {
        Some(c) => c,
        None => {
            return None;
        },
    };
    Some((col, row))
}

fn col_letter(d: u32) -> (r: char)
    requires
        d < 26,
    ensures
        r == spec_col_letter(d as int),
{
    crate::text::char_from_ascii(d + 65)
}

/// Appends the column letters of `n` to `out`.
fn push_col_letters(out: &mut String, n: u32)
    ensures
        final(out)@ == old(out)@ + spec_col_letters(n as nat),
    decreases n,
{
    if n > 0 {
        push_col_letters(out, (n - 1) / 26);
        string_push(out, col_letter((n - 1) % 26));
    } else {
        proof {
            assert(old(out)@ + Seq::<char>::empty() =~= old(out)@);
        }
    }
}

/// Canonical `A1` name of (column, row).
pub fn format_a1(col: u32, row: u32) -> (r: String)
    ensures
        r@ == spec_format_a1(col as nat, row as nat),
{
    let mut out = String::new();
    push_col_letters(&mut out, col);
    push_decimal(&mut out, row as u64);
    proof {
        assert(Seq::<char>::empty() + spec_col_letters(col as nat) =~= spec_col_letters(col as nat));
    }
    out
}

/// Canonical spelling of a cell name: `A1` names with uppercase letters and the
/// same row; other names unchanged.
pub open spec fn spec_canonical_cell_name(s: Seq<char>) -> Seq<char> {
    match spec_parse_a1(s) {
        Some((col, row)) => spec_format_a1(col as nat, row as nat),
        None => s,
    }
}

/// Canonical A1 spelling (uppercase letters). Non-A1 names are returned unchanged.
pub fn canonical_cell_name(name: &str) -> (r: String)
    ensures
        r@ == spec_canonical_cell_name(name@),
{
    match parse_a1(name) {
        Some((col, row)) => format_a1(col, row),
        None => string_from_str(name),
    }
}

pub open spec fn spec_is_cell_name_start(c: char) -> bool {
    spec_is_alpha(c) || c == '_'
}

pub open spec fn spec_is_cell_name_char(c: char) -> bool {
    spec_is_alpha(c) || spec_is_digit(c) || c == '_'
}

pub fn is_cell_name_start(ch: char) -> (r: bool)
    ensures
        r == spec_is_cell_name_start(ch),
{
    is_ascii_alpha(ch) || ch == '_'
}

pub fn is_cell_name_char(ch: char) -> (r: bool)
    ensures
        r == spec_is_cell_name_char(ch),
{
    is_ascii_alpha(ch) || is_ascii_digit(ch) || ch == '_'
}

// ---------------------------------------------------------------------------
// Ranges
// ---------------------------------------------------------------------------

pub open spec fn spec_min(a: int, b: int) -> int {
    if a <= b {
        a
    } else {
        b
    }
}

pub open spec fn spec_max(a: int, b: int) -> int {
    if a <= b {
        b
    } else {
        a
    }
}

/// Columns × rows spanned by two corners.
pub open spec fn spec_range_area(c1: int, r1: int, c2: int, r2: int) -> int {
    (spec_max(c1, c2) - spec_min(c1, c2) + 1) * (spec_max(r1, r2) - spec_min(r1, r2) + 1)
}

/// Number of cells in the range between two A1 corners: `#VALUE!` when a
/// corner is not an A1 name, `#NUM!` when over [`MAX_RANGE_CELLS`].
pub open spec fn spec_a1_range_size(start: Seq<char>, end: Seq<char>) -> Result<
    int,
    SpreadsheetError,
> {
    match (spec_parse_a1(start), spec_parse_a1(end)) {
        (Some((c1, r1)), Some((c2, r2))) => {
            let size = spec_range_area(c1 as int, r1 as int, c2 as int, r2 as int);
            if size > MAX_RANGE_CELLS {
                Err(SpreadsheetError::Num)
            } else {
                Ok(size)
            }
        },
        _ => Err(SpreadsheetError::Value),
    }
}

/// Number of cells in an A1 range without allocating names.
pub fn a1_range_size(start: &str, end: &str) -> (r: Result<usize, SpreadsheetError>)
    ensures
        match spec_a1_range_size(start@, end@) {
            Ok(n) => r == Ok::<usize, SpreadsheetError>(n as usize),
            Err(e) => r == Err::<usize, SpreadsheetError>(e),
        },
        r matches Ok(n) ==> spec_a1_range_size(start@, end@) == Ok::<int, SpreadsheetError>(
            n as int,
        ),
{
    let (c1, r1) = match parse_a1(start) {
        Some(p) => p,
        None => {
            return Err(SpreadsheetError::Value);
        },
    };
    let (c2, r2) = match parse_a1(end) {
        Some(p) => p,
        None => {
            return Err(SpreadsheetError::Value);
        },
    };
    range_size_of(c1, r1, c2, r2)
}

/// Cell count of the range between two corners (see [`a1_range_size`]).
pub fn range_size_of(c1: u32, r1: u32, c2: u32, r2: u32) -> (r: Result<usize, SpreadsheetError>)
    ensures
        ({
            let size = spec_range_area(c1 as int, r1 as int, c2 as int, r2 as int);
            if size > MAX_RANGE_CELLS {
                r == Err::<usize, SpreadsheetError>(SpreadsheetError::Num)
            } else {
                r == Ok::<usize, SpreadsheetError>(size as usize)
            }
        }),
{
    let (cmin, cmax) = if c1 <= c2 {
        (c1, c2)
    } else {
        (c2, c1)
    };
    let (rmin, rmax) = if r1 <= r2 {
        (r1, r2)
    } else {
        (r2, r1)
    };
    let width: u64 = (cmax - cmin) as u64 + 1;
    let height: u64 = (rmax - rmin) as u64 + 1;
    proof {
        assert(width * height <= 0x1_0000_0000 * 0x1_0000_0000) by (nonlinear_arith)
            requires
                1 <= width <= 0x1_0000_0000,
                1 <= height <= 0x1_0000_0000,
        ;
    }
    if width > 100_000 || height > 100_000 {
        proof {
            assert(width * height > 100_000) by (nonlinear_arith)
                requires
                    1 <= width,
                    1 <= height,
                    width > 100_000 || height > 100_000,
            ;
        }
        return Err(SpreadsheetError::Num);
    }
    proof {
        assert(width * height <= 10_000_000_000) by (nonlinear_arith)
            requires
                width <= 100_000,
                height <= 100_000,
        ;
    }
    let size: u64 = width * height;
    if size > 100_000 {
        return Err(SpreadsheetError::Num);
    }
    Ok(size as usize)
}

/// Names of the cells of a range, column by column (top to bottom within a
/// column), from the smaller corner to the larger.
pub open spec fn spec_range_cells(cmin: int, cmax: int, rmin: int, rmax: int) -> Seq<Seq<char>> {
    let h = rmax - rmin + 1;
    Seq::new(
        ((cmax - cmin + 1) * h) as nat,
        |k: int| spec_format_a1((cmin + k / h) as nat, (rmin + k % h) as nat),
    )
}

/// The cell names of an A1 range (see [`spec_range_cells`]), with the errors of
/// [`a1_range_size`].
pub open spec fn spec_a1_range_cells(start: Seq<char>, end: Seq<char>) -> Result<
    Seq<Seq<char>>,
    SpreadsheetError,
> {
    match spec_a1_range_size(start, end) {
        Err(e) => Err(e),
        Ok(_) => {
            let (c1, r1) = spec_parse_a1(start).unwrap();
            let (c2, r2) = spec_parse_a1(end).unwrap();
            Ok(
                spec_range_cells(
                    spec_min(c1 as int, c2 as int),
                    spec_max(c1 as int, c2 as int),
                    spec_min(r1 as int, r2 as int),
                    spec_max(r1 as int, r2 as int),
                ),
            )
        },
    }
}

pub open spec fn spec_string_views(v: Seq<String>) -> Seq<Seq<char>> {
    v.map_values(|s: String| s@)
}

/// A visit of the cell `name` may give `out`.
pub open spec fn spec_visit_gives<F: Fn(String) -> Result<(), SpreadsheetError>>(
    visit: F,
    name: Seq<char>,
    out: Result<(), SpreadsheetError>,
) -> bool {
    exists|s: String| s@ == name && call_ensures(visit, (s,), out)
}

/// A visit of the cell `name` may succeed.
pub open spec fn spec_visit_ok<F: Fn(String) -> Result<(), SpreadsheetError>>(visit: F, name: Seq<char>) -> bool {
    exists|u: ()| #[trigger] spec_visit_gives(visit, name, Ok(u))
}

/// Visits the cells of an A1 range, column by column (see
/// [`spec_range_cells`]), and stops at the first visit that fails, returning
/// its error. A range that [`a1_range_size`] refuses is its error, with no
/// visit.
pub fn for_each_a1_range<F: Fn(String) -> Result<(), SpreadsheetError>>(
    start: &str,
    end: &str,
    visit: F,
) -> (r: Result<(), SpreadsheetError>)
    requires
        forall|s: String| call_requires(visit, (s,)),
    ensures
        match spec_a1_range_cells(start@, end@) {
            Err(e) => r == Err::<(), SpreadsheetError>(e),
            Ok(names) => {
                &&& r is Ok ==> forall|k: int| 0 <= k < names.len() ==> #[trigger] spec_visit_ok(visit, names[k])
                &&& r is Err ==> exists|k: int|
                    0 <= k < names.len() && (forall|j: int| 0 <= j < k ==> #[trigger] spec_visit_ok(visit, names[j]))
                        && #[trigger] spec_visit_gives(visit, names[k], r)
            },
        },
{
    let names = match a1_range_cells(start, end) {
        Ok(v) => v,
        Err(e) => {
            return Err(e);
        },
    };
    let ghost nv = spec_string_views(names@);
    let mut k: usize = 0;
    while k < names.len()
        invariant
            k <= names@.len(),
            nv == spec_string_views(names@),
            spec_a1_range_cells(start@, end@) == Ok::<Seq<Seq<char>>, SpreadsheetError>(nv),
            forall|s: String| call_requires(visit, (s,)),
            forall|j: int| 0 <= j < k ==> #[trigger] spec_visit_ok(visit, nv[j]),
        decreases names.len() - k,
    {
        let s = names[k].clone();
        let ghost sv = s;
        let out = visit(s);
        proof {
            assert(nv[k as int] == names@[k as int]@);
            assert(sv@ == nv[k as int]);
            assert(spec_visit_gives(visit, nv[k as int], out));
        }
        match out {
            Ok(u) => {
                proof {
                    assert(spec_visit_gives(visit, nv[k as int], Ok(u)));
                    assert(spec_visit_ok(visit, nv[k as int]));
                }
            },
            Err(e) => {
                proof {
                    let r = Err::<(), SpreadsheetError>(e);
                    assert(spec_visit_gives(visit, nv[k as int], r));
                    let names = spec_a1_range_cells(start@, end@)->Ok_0;
                    assert(names == nv);
                    assert(spec_visit_gives(visit, names[k as int], r));
                    assert(forall|j: int| 0 <= j < k ==> #[trigger] spec_visit_ok(visit, names[j]));
                }
                return Err(e);
            },
        }
        k += 1;
    }
    Ok(())
}

/// Visiting `names[k..]` in order from the state `s`, each visit taking the
/// state and the cell and giving the next state or an error, may end in `r`:
/// the state after the last visit, or the first error.
pub open spec fn spec_visits<S, F: Fn(S, String) -> Result<S, SpreadsheetError>>(
    visit: F,
    names: Seq<Seq<char>>,
    k: int,
    s: S,
    r: Result<S, SpreadsheetError>,
) -> bool
    decreases names.len() - k,
{
    if k < 0 || k >= names.len() {
        r == Ok::<S, SpreadsheetError>(s)
    } else {
        exists|x: String, out: Result<S, SpreadsheetError>|
            x@ == names[k] && #[trigger] call_ensures(visit, (s, x), out) && match out {
                Err(e) => r == Err::<S, SpreadsheetError>(e),
                Ok(s2) => spec_visits(visit, names, k + 1, s2, r),
            }
    }
}

/// Visits the cells of an A1 range column by column (see [`spec_range_cells`]),
/// once each and in that order, threading a state through the visits: the
/// result is the state after the last visit, or the error of the first visit
/// that fails (no later cell is visited). A range that [`a1_range_size`]
/// refuses is its error, with no visit.
pub fn fold_a1_range<S, F: Fn(S, String) -> Result<S, SpreadsheetError>>(
    start: &str,
    end: &str,
    init: S,
    visit: F,
) -> (r: Result<S, SpreadsheetError>)
    requires
        forall|s: S, x: String| call_requires(visit, (s, x)),
    ensures
        match spec_a1_range_cells(start@, end@) {
            Err(e) => r == Err::<S, SpreadsheetError>(e),
            Ok(names) => spec_visits(visit, names, 0, init, r),
        },
{
    let names = match a1_range_cells(start, end) {
        Ok(v) => v,
        Err(e) => {
            return Err(e);
        },
    };
    let ghost nv = spec_string_views(names@);
    let ghost g0 = init;
    let mut cur = init;
    let mut k: usize = 0;
    while k < names.len()
        invariant
            k <= names@.len(),
            nv == spec_string_views(names@),
            spec_a1_range_cells(start@, end@) == Ok::<Seq<Seq<char>>, SpreadsheetError>(nv),
            g0 == init,
            forall|s: S, x: String| call_requires(visit, (s, x)),
            forall|r: Result<S, SpreadsheetError>|
                #[trigger] spec_visits(visit, nv, k as int, cur, r) ==> spec_visits(visit, nv, 0, g0, r),
        decreases names.len() - k,
    {
        let x = names[k].clone();
        let ghost gx = x;
        let ghost gs = cur;
        let out = visit(cur, x);
        proof {
            assert(gx@ == nv[k as int]);
        }
        match out {
            Ok(s2) => {
                proof {
                    assert forall|r: Result<S, SpreadsheetError>|
                        #[trigger] spec_visits(visit, nv, k + 1, s2, r) implies spec_visits(visit, nv, 0, g0, r) by {
                        assert(call_ensures(visit, (gs, gx), Ok::<S, SpreadsheetError>(s2)));
                        assert(spec_visits(visit, nv, k as int, gs, r));
                    }
                }
                cur = s2;
            },
            Err(e) => {
                proof {
                    let r = Err::<S, SpreadsheetError>(e);
                    assert(call_ensures(visit, (gs, gx), r));
                    assert(spec_visits(visit, nv, k as int, gs, r));
                    assert(spec_visits(visit, nv, 0, g0, r));
                    let names2 = spec_a1_range_cells(start@, end@)->Ok_0;
                    assert(names2 == nv);
                }
                return Err(e);
            },
        }
        k += 1;
    }
    proof {
        assert(spec_visits(visit, nv, k as int, cur, Ok::<S, SpreadsheetError>(cur)));
        let names2 = spec_a1_range_cells(start@, end@)->Ok_0;
        assert(names2 == nv);
    }
    Ok(cur)
}

/// An A1 range lists exactly as many names as its size, column by column
/// (see [`spec_range_cells`]), and fails with the same error.
pub proof fn lemma_range_cells_match_size(start: Seq<char>, end: Seq<char>)
    ensures
        spec_a1_range_size(start, end) matches Err(e) ==> spec_a1_range_cells(start, end) == Err::<
            Seq<Seq<char>>,
            SpreadsheetError,
        >(e),
        spec_a1_range_size(start, end) matches Ok(n) ==> (spec_a1_range_cells(start, end) matches Ok(names)
            && names.len() == n),
{
    if let Ok(n) = spec_a1_range_size(start, end) {
        let (c1, r1) = spec_parse_a1(start).unwrap();
        let (c2, r2) = spec_parse_a1(end).unwrap();
        let w = spec_max(c1 as int, c2 as int) - spec_min(c1 as int, c2 as int) + 1;
        let h = spec_max(r1 as int, r2 as int) - spec_min(r1 as int, r2 as int) + 1;
        assert(w >= 1 && h >= 1);
        assert(w * h >= 1) by (nonlinear_arith)
            requires
                w >= 1,
                h >= 1,
        ;
    }
}

/// A parsed A1 name has a column and a row of at least 1.
proof fn lemma_parse_a1_positive(s: Seq<char>)
    requires
        spec_parse_a1(s) is Some,
    ensures
        spec_parse_a1(s)->Some_0.0 >= 1,
        spec_parse_a1(s)->Some_0.1 >= 1,
{
    let i = spec_alpha_end(s, 0);
    lemma_alpha_end(s, 0);
    let l = s.take(i);
    assert(spec_all_alpha(l)) by {
        assert forall|k: int| 0 <= k < l.len() implies spec_is_alpha(#[trigger] l[k]) by {
            assert(l[k] == s[k]);
        }
    }
    assert(spec_all_alpha(l.drop_last())) by {
        assert forall|k: int| 0 <= k < l.drop_last().len() implies spec_is_alpha(#[trigger] l.drop_last()[k]) by {
            assert(l.drop_last()[k] == l[k]);
        }
    }
    lemma_col_value_prefix(l.drop_last(), 0);
    assert(l.drop_last().take(0) =~= Seq::<char>::empty());
    lemma_col_value_prefix(l.drop_last(), l.drop_last().len() as int);
    assert(l.drop_last().take(l.drop_last().len() as int) =~= l.drop_last());
    lemma_letter_val(l.last());
    lemma_digits_value_pos(s.skip(i));
}

/// The names of an A1 range are exactly the cells of the rectangle between
/// its corners: each names a cell inside it, and each cell inside it is
/// named.
pub proof fn lemma_range_cells_are_rectangle(start: Seq<char>, end: Seq<char>)
    requires
        spec_a1_range_cells(start, end) is Ok,
    ensures
        ({
            let (c1, r1) = spec_parse_a1(start).unwrap();
            let (c2, r2) = spec_parse_a1(end).unwrap();
            let names = spec_a1_range_cells(start, end)->Ok_0;
            let cmin = spec_min(c1 as int, c2 as int);
            let cmax = spec_max(c1 as int, c2 as int);
            let rmin = spec_min(r1 as int, r2 as int);
            let rmax = spec_max(r1 as int, r2 as int);
            &&& forall|k: int|
                0 <= k < names.len() ==> (#[trigger] spec_parse_a1(names[k])) is Some && cmin <= spec_parse_a1(
                    names[k],
                )->Some_0.0 <= cmax && rmin <= spec_parse_a1(names[k])->Some_0.1 <= rmax
            &&& forall|c: u32, r: u32|
                cmin <= c <= cmax && rmin <= r <= rmax ==> names.contains(
                    #[trigger] spec_format_a1(c as nat, r as nat),
                )
        }),
{
    let (c1, r1) = spec_parse_a1(start).unwrap();
    let (c2, r2) = spec_parse_a1(end).unwrap();
    lemma_parse_a1_positive(start);
    lemma_parse_a1_positive(end);
    let names = spec_a1_range_cells(start, end)->Ok_0;
    let cmin = spec_min(c1 as int, c2 as int);
    let cmax = spec_max(c1 as int, c2 as int);
    let rmin = spec_min(r1 as int, r2 as int);
    let rmax = spec_max(r1 as int, r2 as int);
    let w = cmax - cmin + 1;
    let h = rmax - rmin + 1;
    assert(w * h >= 1) by (nonlinear_arith)
        requires
            w >= 1,
            h >= 1,
    ;
    assert(names.len() == w * h);
    assert forall|k: int| 0 <= k < names.len() implies (#[trigger] spec_parse_a1(names[k])) is Some && cmin
        <= spec_parse_a1(names[k])->Some_0.0 <= cmax && rmin <= spec_parse_a1(names[k])->Some_0.1 <= rmax by {
        let q = k / h;
        let m = k % h;
        vstd::arithmetic::div_mod::lemma_fundamental_div_mod(k, h);
        vstd::arithmetic::div_mod::lemma_mod_pos_bound(k, h);
        vstd::arithmetic::div_mod::lemma_div_pos_is_pos(k, h);
        assert(q < w) by (nonlinear_arith)
            requires
                k == h * q + m,
                0 <= m,
                k < w * h,
                h > 0,
        ;
        assert(names[k] == spec_format_a1((cmin + q) as nat, (rmin + m) as nat));
        lemma_parse_format_a1((cmin + q) as u32, (rmin + m) as u32);
    }
    assert forall|c: u32, r: u32| cmin <= c <= cmax && rmin <= r <= rmax implies names.contains(
        #[trigger] spec_format_a1(c as nat, r as nat),
    ) by {
        let q = c - cmin;
        let m = r - rmin;
        let k = q * h + m;
        vstd::arithmetic::div_mod::lemma_fundamental_div_mod_converse(k, h, q, m);
        assert(k < w * h) by (nonlinear_arith)
            requires
                k == q * h + m,
                0 <= q < w,
                0 <= m < h,
        ;
        assert(0 <= k) by (nonlinear_arith)
            requires
                k == q * h + m,
                0 <= q,
                0 <= m,
                h > 0,
        ;
        assert(names[k] == spec_format_a1(c as nat, r as nat));
    }
}

/// Every cell name of an A1 range, column by column.
pub fn a1_range_cells(start: &str, end: &str) -> (r: Result<Vec<String>, SpreadsheetError>)
    ensures
        match spec_a1_range_cells(start@, end@) {
            Ok(names) => r is Ok && spec_string_views(r->Ok_0@) == names,
            Err(e) => r == Err::<Vec<String>, SpreadsheetError>(e),
        },
{
    let size = a1_range_size(start, end);
    match size {
        Err(e) => {
            return Err(e);
        },
        Ok(_) => {},
    }
    let (c1, r1) = parse_a1(start).unwrap();
    let (c2, r2) = parse_a1(end).unwrap();
    let (cmin, cmax) = if c1 <= c2 {
        (c1, c2)
    } else {
        (c2, c1)
    };
    let (rmin, rmax) = if r1 <= r2 {
        (r1, r2)
    } else {
        (r2, r1)
    };
    let ghost h = rmax - rmin + 1;
    let ghost all = spec_range_cells(cmin as int, cmax as int, rmin as int, rmax as int);
    let mut out: Vec<String> = Vec::new();
    proof {
        assert(spec_string_views(out@) =~= all.take(0));
    }
    let mut c: u64 = cmin as u64;
    while c <= cmax as u64
        invariant
            cmin <= c <= cmax + 1,
            rmin <= rmax,
            h == rmax - rmin + 1,
            all == spec_range_cells(cmin as int, cmax as int, rmin as int, rmax as int),
            spec_string_views(out@) == all.take((c - cmin) * h),
            (cmax - cmin + 1) * h <= MAX_RANGE_CELLS,
        decreases cmax + 1 - c,
    {
        let mut r: u64 = rmin as u64;
        while r <= rmax as u64
            invariant
                cmin <= c <= cmax,
                rmin <= r <= rmax + 1,
                h == rmax - rmin + 1,
                all == spec_range_cells(cmin as int, cmax as int, rmin as int, rmax as int),
                spec_string_views(out@) == all.take((c - cmin) * h + (r - rmin)),
                (cmax - cmin + 1) * h <= MAX_RANGE_CELLS,
            decreases rmax + 1 - r,
        {
            let name = format_a1(c as u32, r as u32);
            let ghost k = (c - cmin) * h + (r - rmin);
            let ghost before = out@;
            proof {
                assert((c - cmin) * h + (r - rmin) < (cmax - cmin + 1) * h) by (nonlinear_arith)
                    requires
                        c <= cmax,
                        r - rmin < h,
                        cmin <= c,
                        0 <= r - rmin,
                ;
                assert(k / h == c - cmin && k % h == r - rmin) by (nonlinear_arith)
                    requires
                        k == (c - cmin) * h + (r - rmin),
                        0 <= r - rmin < h,
                        c >= cmin,
                ;
                assert(all[k] == name@);
            }
            out.push(name);
            proof {
                assert(out@ == before.push(name));
                assert(spec_string_views(out@) =~= spec_string_views(before).push(name@));
                assert(spec_string_views(out@) =~= all.take(k + 1));
            }
            r += 1;
        }
        proof {
            assert((c - cmin) * h + (rmax + 1 - rmin) == (c - cmin + 1) * h) by (nonlinear_arith)
                requires
                    h == rmax - rmin + 1,
            ;
        }
        c += 1;
    }
    proof {
        assert((cmax - cmin + 1) * h == all.len());
        assert(all.take(all.len() as int) =~= all);
    }
    Ok(out)
}

// ---------------------------------------------------------------------------
// Laws of A1 names
// ---------------------------------------------------------------------------

proof fn lemma_col_letters(n: nat)
    ensures
        spec_all_alpha(spec_col_letters(n)),
        forall|i: int|
            0 <= i < spec_col_letters(n).len() ==> spec_is_upper_char(
                #[trigger] spec_col_letters(n)[i],
            ),
        spec_col_value(spec_col_letters(n)) == n,
        (n >= 1) == (spec_col_letters(n).len() >= 1),
    decreases n,
{
    if n > 0 {
        let q = ((n - 1) / 26) as nat;
        let d = (n - 1) % 26;
        lemma_col_letters(q);
        let l = spec_col_letters(n);
        assert(l.drop_last() == spec_col_letters(q));
        assert(((d + 65) as char) as int == d + 65);
        assert(spec_letter_val(l.last()) == d + 1);
        assert forall|i: int| 0 <= i < l.len() implies spec_is_upper_char(#[trigger] l[i]) by {
            if i < l.len() - 1 {
                assert(l[i] == spec_col_letters(q)[i]);
            }
        }
    }
}

pub open spec fn spec_is_upper_char(c: char) -> bool {
    'A' <= c <= 'Z'
}

proof fn lemma_alpha_end_at(s: Seq<char>, k: int, i: int)
    requires
        0 <= k <= i <= s.len(),
        forall|t: int| k <= t < i ==> spec_is_alpha(#[trigger] s[t]),
        i == s.len() || !spec_is_alpha(s[i]),
    ensures
        spec_alpha_end(s, k) == i,
    decreases i - k,
{
    if k < i {
        lemma_alpha_end_at(s, k + 1, i);
    }
}

/// Parsing the canonical name of a column and row gives them back.
pub proof fn lemma_parse_format_a1(col: u32, row: u32)
    requires
        col >= 1,
        row >= 1,
    ensures
        spec_parse_a1(spec_format_a1(col as nat, row as nat)) == Some((col, row)),
{
    let l = spec_col_letters(col as nat);
    let d = spec_decimal(row as nat);
    let s = l + d;
    lemma_col_letters(col as nat);
    lemma_decimal_digits(row as nat);
    assert(spec_is_digit(d[0]));
    lemma_alpha_end_at(s, 0, l.len() as int);
    assert(s.skip(l.len() as int) =~= d);
    assert(s.take(l.len() as int) =~= l);
}

proof fn lemma_col_letters_of_value(l: Seq<char>)
    requires
        spec_all_alpha(l),
    ensures
        spec_col_letters(spec_col_value(l) as nat) == spec_upper_seq(l),
        spec_col_value(l) >= 0,
    decreases l.len(),
{
    if l.len() == 0 {
        assert(spec_upper_seq(l) =~= Seq::<char>::empty());
    } else {
        let p = l.drop_last();
        assert(spec_all_alpha(p)) by {
            assert forall|i: int| 0 <= i < p.len() implies spec_is_alpha(#[trigger] p[i]) by {
                assert(p[i] == l[i]);
            }
        }
        lemma_col_letters_of_value(p);
        let x = spec_col_value(p);
        let c = l.last();
        lemma_letter_val(c);
        let v = spec_letter_val(c);
        let n = x * 26 + v;
        assert((n - 1) / 26 == x && (n - 1) % 26 == v - 1) by (nonlinear_arith)
            requires
                n == x * 26 + v,
                1 <= v <= 26,
                x >= 0,
        ;
        if 'a' <= c && c <= 'z' {
            assert((((c as u32) - 32) as char) as int == c as int - 32);
        }
        assert(((v - 1 + 65) as char) == spec_to_upper(c));
        assert(spec_upper_seq(l) =~= spec_upper_seq(p).push(spec_to_upper(c)));
    }
}

proof fn lemma_digits_value_pos(s: Seq<char>)
    requires
        spec_all_digits(s),
        s.len() >= 1,
        s[0] != '0',
    ensures
        spec_digits_value(s) >= 1,
    decreases s.len(),
{
    if s.len() > 1 {
        let p = s.drop_last();
        assert(p[0] == s[0]);
        assert(spec_all_digits(p)) by {
            assert forall|i: int| 0 <= i < p.len() implies spec_is_digit(#[trigger] p[i]) by {
                assert(p[i] == s[i]);
            }
        }
        lemma_digits_value_pos(p);
        assert(spec_is_digit(s.last()));
        assert(s.last() as int >= '0' as int);
        assert(spec_digits_value(s) == spec_digits_value(p) * 10 + spec_digit_val(s.last()));
    } else {
        assert(s.drop_last() =~= Seq::<char>::empty());
        assert(s.last() == s[0]);
        assert(spec_is_digit(s[0]));
        assert(s[0] as int > '0' as int);
        assert(spec_digits_value(s) == spec_digits_value(s.drop_last()) * 10 + spec_digit_val(
            s.last(),
        ));
    }
}

proof fn lemma_decimal_of_digits(s: Seq<char>)
    requires
        spec_all_digits(s),
        s.len() >= 1,
        s[0] != '0',
    ensures
        spec_decimal(spec_digits_value(s) as nat) == s,
    decreases s.len(),
{
    lemma_digits_value_pos(s);
    let c = s.last();
    assert(spec_is_digit(c));
    let dv = c as int - 48;
    assert(((dv + 48) as char) == c);
    if s.len() == 1 {
        assert(s.drop_last() =~= Seq::<char>::empty());
        assert(spec_digits_value(s.drop_last()) == 0);
        assert(spec_digits_value(s) == dv);
        assert(0 < dv < 10);
        assert(spec_decimal(dv as nat) =~= seq![crate::text::spec_digit_char(dv)]);
        assert(crate::text::spec_digit_char(dv) == c);
        assert(spec_decimal(spec_digits_value(s) as nat) =~= s);
    } else {
        let p = s.drop_last();
        assert(p[0] == s[0]);
        assert(spec_all_digits(p)) by {
            assert forall|i: int| 0 <= i < p.len() implies spec_is_digit(#[trigger] p[i]) by {
                assert(p[i] == s[i]);
            }
        }
        lemma_decimal_of_digits(p);
        lemma_digits_value_pos(p);
        let v = spec_digits_value(p);
        let n = v * 10 + dv;
        assert(n / 10 == v && n % 10 == dv);
        assert(n >= 10);
        assert(spec_decimal(n as nat) =~= p.push(c));
        assert(p.push(c) =~= s);
    }
}

/// The canonical name of an A1 cell name is its ASCII upper-casing; and it
/// names the same cell.
pub proof fn lemma_canonical_a1_is_upper(s: Seq<char>)
    requires
        spec_parse_a1(s) is Some,
    ensures
        spec_canonical_cell_name(s) == spec_upper_seq(s),
        spec_parse_a1(spec_canonical_cell_name(s)) == spec_parse_a1(s),
{
    let i = spec_alpha_end(s, 0);
    lemma_alpha_end(s, 0);
    let l = s.take(i);
    let rest = s.skip(i);
    assert(spec_all_alpha(l)) by {
        assert forall|k: int| 0 <= k < l.len() implies spec_is_alpha(#[trigger] l[k]) by {
            assert(l[k] == s[k]);
        }
    }
    lemma_col_letters_of_value(l);
    lemma_decimal_of_digits(rest);
    assert(spec_upper_seq(rest) =~= rest);
    assert(s =~= l + rest);
    assert(spec_upper_seq(s) =~= spec_upper_seq(l) + spec_upper_seq(rest));
    let (c, r) = spec_parse_a1(s).unwrap();
    lemma_col_value_prefix(l, 0);
    assert(l.take(0) =~= Seq::<char>::empty());
    lemma_digits_value_pos(rest);
    lemma_col_letters(c as nat);
    assert(c >= 1) by {
        assert(l.len() >= 1);
        assert(l.drop_last().take(l.len() - 1) =~= l.drop_last());
        lemma_letter_val(l.last());
        lemma_col_value_prefix(l, l.len() - 1);
        assert(l.take(l.len() - 1) =~= l.drop_last());
    }
    lemma_parse_format_a1(c, r);
}


// ---------------------------------------------------------------------------
// Reference analysis results
// ---------------------------------------------------------------------------

/// A set of cell names: hashed for lookups, and listed once each in insertion
/// order.
pub struct CellSet {
    names: Vec<String>,
    index: StringHashSet,
}

impl View for CellSet {
    type V = Set<Seq<char>>;

    closed spec fn view(&self) -> Set<Seq<char>> {
        spec_string_views(self.names@).to_set()
    }
}

impl CellSet {
    /// The listed names, as character sequences.
    pub closed spec fn listed(&self) -> Seq<Seq<char>> {
        spec_string_views(self.names@)
    }

    /// The hashed index agrees with the list, and no name is listed twice.
    pub closed spec fn wf(&self) -> bool {
        &&& self.index@ == self@
        &&& self.listed().no_duplicates()
    }

    pub fn new() -> (r: CellSet)
        ensures
            r.wf(),
            r@ == Set::<Seq<char>>::empty(),
    {
        let r = CellSet { names: Vec::new(), index: StringHashSet::new() };
        proof {
            assert(r@ =~= Set::<Seq<char>>::empty());
        }
        r
    }

    pub fn contains(&self, name: &str) -> (r: bool)
        requires
            self.wf(),
        ensures
            r == self@.contains(name@),
    {
        self.index.contains(name)
    }

    pub fn len(&self) -> (r: usize)
        requires
            self.wf(),
        ensures
            r == self@.len(),
            r == self.listed().len(),
    {
        proof {
            self.listed().unique_seq_to_set();
        }
        self.names.len()
    }

    /// The names, each once, in the order they were first inserted.
    pub fn names(&self) -> (r: &Vec<String>)
        requires
            self.wf(),
        ensures
            spec_string_views(r@) == self.listed(),
            self.listed().to_set() == self@,
            self.listed().no_duplicates(),
    {
        &self.names
    }

    pub fn insert(&mut self, name: String)
        requires
            old(self).wf(),
        ensures
            final(self).wf(),
            final(self)@ == old(self)@.insert(name@),
    {
        if !self.index.contains(name.as_str()) {
            let ghost before = self.listed();
            self.index.insert(name.clone());
            self.names.push(name);
            proof {
                assert(self.listed() =~= before.push(name@));
                before.lemma_push_to_set_commute(name@);
                assert forall|i: int, j: int|
                    0 <= i < j < self.listed().len() implies self.listed()[i] != self.listed()[j] by {
                    if j == before.len() {
                        assert(before.to_set().contains(before[i]));
                    }
                }
            }
        } else {
            proof {
                assert(old(self)@.insert(name@) =~= old(self)@);
            }
        }
    }
}

/// Whether every name listed in `a` is listed in `b`.
fn names_within(a: &Vec<String>, b: &Vec<String>) -> (r: bool)
    ensures
        r == spec_string_views(a@).to_set().subset_of(spec_string_views(b@).to_set()),
{
    let ghost sa = spec_string_views(a@);
    let ghost sb = spec_string_views(b@);
    let mut i: usize = 0;
    while i < a.len()
        invariant
            i <= a@.len(),
            sa == spec_string_views(a@),
            sb == spec_string_views(b@),
            forall|k: int| 0 <= k < i ==> sb.contains(#[trigger] sa[k]),
        decreases a.len() - i,
    {
        let mut j: usize = 0;
        let mut found = false;
        while j < b.len()
            invariant
                i < a@.len(),
                j <= b@.len(),
                sa == spec_string_views(a@),
                sb == spec_string_views(b@),
                found ==> sb.contains(sa[i as int]),
                !found ==> forall|k: int| 0 <= k < j ==> sb[k] != sa[i as int],
            decreases b.len() - j,
        {
            if !found && a[i] == b[j] {
                found = true;
                proof {
                    assert(sb[j as int] == sa[i as int]);
                }
            }
            j += 1;
        }
        if !found {
            proof {
                assert(sa.to_set().contains(sa[i as int]));
                assert(!sb.to_set().contains(sa[i as int]));
            }
            return false;
        }
        i += 1;
    }
    proof {
        assert forall|x: Seq<char>| sa.to_set().contains(x) implies sb.to_set().contains(x) by {
            let k = choose|k: int| 0 <= k < sa.len() && sa[k] == x;
            assert(sb.contains(sa[k]));
        }
    }
    true
}

impl PartialEq for CellSet {
    fn eq(&self, other: &Self) -> (r: bool) {
        let r = names_within(&self.names, &other.names) && names_within(&other.names, &self.names);
        proof {
            if r {
                assert(self@ =~= other@);
            }
        }
        r
    }
}

impl vstd::std_specs::cmp::PartialEqSpecImpl for CellSet {
    open spec fn obeys_eq_spec() -> bool {
        true
    }

    open spec fn eq_spec(&self, other: &Self) -> bool {
        self@ == other@
    }
}

/// The cells a formula reads (each once) and its work units: one per cell
/// occurrence, plus the cell count of each range.
pub struct FormulaRefs {
    pub cells: CellSet,
    pub work: usize,
}


/// A map from cell names to values whose names can be listed.
#[verifier::reject_recursive_types(V)]
pub struct CellMap<V> {
    map: StringHashMap<V>,
    names: Vec<String>,
    listed: StringHashSet,
}

impl<V> View for CellMap<V> {
    type V = Map<Seq<char>, V>;

    closed spec fn view(&self) -> Map<Seq<char>, V> {
        self.map@
    }
}

impl<V> CellMap<V> {
    /// Every name ever inserted is listed once, and the listing covers the map.
    pub closed spec fn wf(&self) -> bool {
        &&& spec_string_views(self.names@).no_duplicates()
        &&& self.listed@ == spec_string_views(self.names@).to_set()
        &&& forall|k: Seq<char>| #[trigger] self.map@.contains_key(k) ==> self.listed@.contains(k)
    }

    pub fn new() -> (r: CellMap<V>)
        ensures
            r.wf(),
            r@ == Map::<Seq<char>, V>::empty(),
    {
        let r = CellMap { map: StringHashMap::new(), names: Vec::new(), listed: StringHashSet::new() };
        proof {
            assert(spec_string_views(r.names@).to_set() =~= Set::<Seq<char>>::empty());
        }
        r
    }

    /// Sets the value of `name`, replacing any earlier one.
    pub fn insert(&mut self, name: String, value: V)
        requires
            old(self).wf(),
        ensures
            final(self).wf(),
            final(self)@ == old(self)@.insert(name@, value),
    {
        if !self.listed.contains(name.as_str()) {
            let ghost before = spec_string_views(self.names@);
            self.listed.insert(name.clone());
            self.names.push(name.clone());
            proof {
                assert(spec_string_views(self.names@) =~= before.push(name@));
                before.lemma_push_to_set_commute(name@);
                assert forall|i: int, j: int|
                    0 <= i < j < spec_string_views(self.names@).len() implies spec_string_views(self.names@)[i]
                        != spec_string_views(self.names@)[j] by {
                    if j == before.len() {
                        assert(before.to_set().contains(before[i]));
                    }
                }
            }
        }
        self.map.insert(name, value);
    }

    /// Removes `name` (nothing happens when it has no value).
    pub fn remove(&mut self, name: &str)
        requires
            old(self).wf(),
        ensures
            final(self).wf(),
            final(self)@ == old(self)@.remove(name@),
    {
        self.map.remove(name);
    }

    pub fn get(&self, name: &str) -> (r: Option<&V>)
        ensures
            match r {
                Some(v) => self@.contains_key(name@) && *v == self@[name@],
                None => !self@.contains_key(name@),
            },
    {
        self.map.get(name)
    }

    pub fn contains_key(&self, name: &str) -> (r: bool)
        ensures
            r == self@.contains_key(name@),
    {
        self.map.contains_key(name)
    }

    /// The names that have a value, each once.
    pub fn keys(&self) -> (r: Vec<String>)
        requires
            self.wf(),
        ensures
            spec_string_views(r@).no_duplicates(),
            spec_string_views(r@).to_set() == self@.dom(),
    {
        let ghost all = spec_string_views(self.names@);
        let mut out: Vec<String> = Vec::new();
        let mut i: usize = 0;
        while i < self.names.len()
            invariant
                i <= self.names@.len(),
                all == spec_string_views(self.names@),
                all.no_duplicates(),
                forall|t: int| #![trigger out@[t]] 0 <= t < out@.len() ==> exists|u: int| 0 <= u < i && #[trigger] all[u] == out@[t]@,
                forall|t: int| 0 <= t < out@.len() ==> self.map@.contains_key(#[trigger] out@[t]@),
                spec_string_views(out@).no_duplicates(),
                forall|u: int| 0 <= u < i && self.map@.contains_key(#[trigger] all[u]) ==> spec_string_views(out@).contains(all[u]),
            decreases self.names.len() - i,
        {
            let ghost prev = spec_string_views(out@);
            if self.map.contains_key(self.names[i].as_str()) {
                out.push(self.names[i].clone());
                proof {
                    assert(all[i as int] == self.names@[i as int]@);
                    assert(spec_string_views(out@) =~= prev.push(all[i as int]));
                    assert forall|a: int, b: int|
                        0 <= a < b < spec_string_views(out@).len() implies spec_string_views(out@)[a] != spec_string_views(out@)[b] by {
                        if b == prev.len() {
                            let u = choose|u: int| 0 <= u < i && #[trigger] all[u] == out@[a]@;
                            assert(out@[a]@ == prev[a]);
                        }
                    }
                    assert forall|u: int| 0 <= u < i + 1 && self.map@.contains_key(#[trigger] all[u]) implies spec_string_views(out@).contains(all[u]) by {
                        if u == i {
                            assert(spec_string_views(out@)[prev.len() as int] == all[u]);
                        } else {
                            let t = choose|t: int| 0 <= t < prev.len() && prev[t] == all[u];
                            assert(spec_string_views(out@)[t] == all[u]);
                        }
                    }
                    assert forall|t: int| #![trigger out@[t]] 0 <= t < out@.len() implies exists|u: int| 0 <= u < i + 1 && #[trigger] all[u] == out@[t]@ by {
                        if t == prev.len() {
                            assert(all[i as int] == out@[t]@);
                        } else {
                            let u = choose|u: int| 0 <= u < i && #[trigger] all[u] == out@[t]@;
                        }
                    }
                }
            } else {
                proof {
                    assert(all[i as int] == self.names@[i as int]@);
                }
            }
            i += 1;
        }
        proof {
            assert forall|k: Seq<char>| spec_string_views(out@).to_set().contains(k) <==> self@.dom().contains(k) by {
                if spec_string_views(out@).to_set().contains(k) {
                    let t = choose|t: int| 0 <= t < spec_string_views(out@).len() && spec_string_views(out@)[t] == k;
                    assert(self.map@.contains_key(out@[t]@));
                }
                if self@.dom().contains(k) {
                    assert(self.listed@.contains(k));
                    let u = choose|u: int| 0 <= u < all.len() && all[u] == k;
                    assert(self.map@.contains_key(all[u]));
                }
            }
            assert(spec_string_views(out@).to_set() =~= self@.dom());
        }
        out
    }
}
} // verus!
