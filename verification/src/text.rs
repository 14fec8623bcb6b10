//! Character-level text helpers: whitespace trimming, ASCII classes,
//! decimal integer parsing and formatting, and conversions between
//! `&str` / `String` and character vectors.
use vstd::prelude::*;

verus! {

// ---------------------------------------------------------------------------
// Character classes
// ---------------------------------------------------------------------------

/// Unicode `White_Space` property (what `char::is_whitespace` tests).
pub open spec fn spec_is_ws(c: char) -> bool {
    let u = c as u32;
    ||| 0x9 <= u <= 0xD
    ||| u == 0x20
    ||| u == 0x85
    ||| u == 0xA0
    ||| u == 0x1680
    ||| 0x2000 <= u <= 0x200A
    ||| u == 0x2028
    ||| u == 0x2029
    ||| u == 0x202F
    ||| u == 0x205F
    ||| u == 0x3000
}

pub fn is_whitespace(c: char) -> (r: bool)
    ensures
        r == spec_is_ws(c),
{
    let u = c as u32;
    (0x9 <= u && u <= 0xD) || u == 0x20 || u == 0x85 || u == 0xA0 || u == 0x1680 || (0x2000 <= u
        && u <= 0x200A) || u == 0x2028 || u == 0x2029 || u == 0x202F || u == 0x205F || u == 0x3000
}

pub open spec fn spec_is_digit(c: char) -> bool {
    '0' <= c <= '9'
}

pub open spec fn spec_is_upper(c: char) -> bool {
    'A' <= c <= 'Z'
}

pub open spec fn spec_is_lower(c: char) -> bool {
    'a' <= c <= 'z'
}

pub open spec fn spec_is_alpha(c: char) -> bool {
    spec_is_upper(c) || spec_is_lower(c)
}

pub fn is_ascii_digit(c: char) -> (r: bool)
    ensures
        r == spec_is_digit(c),
{
    '0' <= c && c <= '9'
}

pub fn is_ascii_upper(c: char) -> (r: bool)
    ensures
        r == spec_is_upper(c),
{
    'A' <= c && c <= 'Z'
}

pub fn is_ascii_alpha(c: char) -> (r: bool)
    ensures
        r == spec_is_alpha(c),
{
    ('A' <= c && c <= 'Z') || ('a' <= c && c <= 'z')
}

/// ASCII upper-casing of one character (other characters are unchanged).
pub open spec fn spec_to_upper(c: char) -> char {
    if spec_is_lower(c) {
        ((c as u32) - 32) as char
    } else {
        c
    }
}

pub fn to_ascii_upper(c: char) -> (r: char)
    ensures
        r == spec_to_upper(c),
{
    if 'a' <= c && c <= 'z' {
        let u: u32 = (c as u32) - 32;
        proof {
            assert(0x41 <= u <= 0x5A);
        }
        char_from_ascii(u)
    } else {
        c
    }
}

/// The character with ASCII code `u`.
pub fn char_from_ascii(u: u32) -> (r: char)
    requires
        u < 128,
    ensures
        r == u as char,
        r as u32 == u,
{
    let b: u8 = u as u8;
    b as char
}

/// ASCII upper-casing of a whole sequence.
pub open spec fn spec_upper_seq(s: Seq<char>) -> Seq<char> {
    Seq::new(s.len(), |i: int| spec_to_upper(s[i]))
}

pub fn upper_chars(s: &Vec<char>) -> (r: Vec<char>)
    ensures
        r@ == spec_upper_seq(s@),
{
    let mut out: Vec<char> = Vec::new();
    let mut i: usize = 0;
    while i < s.len()
        invariant
            i <= s.len(),
            out@ == spec_upper_seq(s@).take(i as int),
        decreases s.len() - i,
    {
        out.push(to_ascii_upper(s[i]));
        i += 1;
    }
    out
}

// ---------------------------------------------------------------------------
// Trimming (what `str::trim` does)
// ---------------------------------------------------------------------------

/// First index at or after `i` that is not whitespace (or the length).
pub open spec fn spec_skip_ws(s: Seq<char>, i: int) -> int
    decreases s.len() - i,
{
    if 0 <= i < s.len() && spec_is_ws(s[i]) {
        spec_skip_ws(s, i + 1)
    } else {
        i
    }
}

/// Index just after the last non-whitespace character in `s[lo..j]` (or `lo`).
pub open spec fn spec_back_ws(s: Seq<char>, lo: int, j: int) -> int
    decreases j - lo,
{
    if lo < j && spec_is_ws(s[j - 1]) {
        spec_back_ws(s, lo, j - 1)
    } else {
        j
    }
}

pub open spec fn spec_trim_start(s: Seq<char>) -> Seq<char> {
    s.skip(spec_skip_ws(s, 0))
}

pub open spec fn spec_trim(s: Seq<char>) -> Seq<char> {
    let a = spec_skip_ws(s, 0);
    s.subrange(a, spec_back_ws(s, a, s.len() as int))
}

/// Skipping whitespace stays within the text and never moves back.
pub proof fn lemma_skip_ws_bounds(s: Seq<char>, i: int)
    requires
        0 <= i <= s.len(),
    ensures
        i <= spec_skip_ws(s, i) <= s.len(),
        spec_skip_ws(s, i) < s.len() ==> !spec_is_ws(s[spec_skip_ws(s, i)]),
        forall|k: int| i <= k < spec_skip_ws(s, i) ==> spec_is_ws(#[trigger] s[k]),
    decreases s.len() - i,
{
    if i < s.len() && spec_is_ws(s[i]) {
        lemma_skip_ws_bounds(s, i + 1);
    }
}

/// Trimming trailing whitespace stays between the bounds.
pub proof fn lemma_back_ws_bounds(s: Seq<char>, lo: int, j: int)
    requires
        0 <= lo <= j <= s.len(),
    ensures
        lo <= spec_back_ws(s, lo, j) <= j,
        spec_back_ws(s, lo, j) > lo ==> !spec_is_ws(s[spec_back_ws(s, lo, j) - 1]),
        forall|k: int| spec_back_ws(s, lo, j) <= k < j ==> spec_is_ws(#[trigger] s[k]),
    decreases j - lo,
{
    if lo < j && spec_is_ws(s[j - 1]) {
        lemma_back_ws_bounds(s, lo, j - 1);
    }
}

/// Text that neither starts nor ends with whitespace is its own trim.
pub proof fn lemma_trim_unchanged(s: Seq<char>)
    requires
        s.len() > 0,
        !spec_is_ws(s[0]),
        !spec_is_ws(s[s.len() - 1]),
    ensures
        spec_trim(s) == s,
{
    assert(spec_skip_ws(s, 0) == 0);
    assert(spec_back_ws(s, 0, s.len() as int) == s.len());
    assert(s.subrange(0, s.len() as int) =~= s);
}

/// Bounds `(a, b)` of the trimmed part: `s[a..b]` is `s` without leading and
/// trailing whitespace.
pub fn trim_bounds(s: &Vec<char>) -> (r: (usize, usize))
    ensures
        r.0 == spec_skip_ws(s@, 0),
        r.1 == spec_back_ws(s@, r.0 as int, s@.len() as int),
        r.0 <= r.1 <= s@.len(),
        s@.subrange(r.0 as int, r.1 as int) == spec_trim(s@),
{
    let mut a: usize = 0;
    while a < s.len() && is_whitespace(s[a])
        invariant
            a <= s.len(),
            spec_skip_ws(s@, a as int) == spec_skip_ws(s@, 0),
        decreases s.len() - a,
    {
        a += 1;
    }
    let mut b: usize = s.len();
    while b > a && is_whitespace(s[b - 1])
        invariant
            a <= b <= s.len(),
            a == spec_skip_ws(s@, 0),
            spec_back_ws(s@, a as int, b as int) == spec_back_ws(s@, a as int, s@.len() as int),
        decreases b,
    {
        b -= 1;
    }
    (a, b)
}

/// `s` without leading and trailing whitespace.
pub fn trim_chars(s: &Vec<char>) -> (r: Vec<char>)
    ensures
        r@ == spec_trim(s@),
{
    let (a, b) = trim_bounds(s);
    slice_chars(s, a, b)
}

/// `s[a..b]` as a new vector.
pub fn slice_chars(s: &Vec<char>, a: usize, b: usize) -> (r: Vec<char>)
    requires
        a <= b <= s@.len(),
    ensures
        r@ == s@.subrange(a as int, b as int),
{
    let mut out: Vec<char> = Vec::new();
    let mut i: usize = a;
    while i < b
        invariant
            a <= i <= b <= s@.len(),
            out@ == s@.subrange(a as int, i as int),
        decreases b - i,
    {
        out.push(s[i]);
        i += 1;
    }
    out
}

/// Whether `s` begins with `p`.
pub open spec fn spec_starts_with(s: Seq<char>, p: Seq<char>) -> bool {
    p.len() <= s.len() && s.take(p.len() as int) == p
}

/// Whether `s` has `p` at position `i`.
pub open spec fn spec_matches_at(s: Seq<char>, i: int, p: Seq<char>) -> bool {
    0 <= i && i + p.len() <= s.len() && s.subrange(i, i + p.len()) == p
}

pub fn matches_at(s: &Vec<char>, i: usize, p: &Vec<char>) -> (r: bool)
    ensures
        r == spec_matches_at(s@, i as int, p@),
{
    if i > s.len() || p.len() > s.len() - i {
        return false;
    }
    let mut k: usize = 0;
    while k < p.len()
        invariant
            i <= s@.len(),
            i + p@.len() <= s@.len(),
            k <= p@.len(),
            forall|t: int| 0 <= t < k ==> s@[i + t] == p@[t],
        decreases p.len() - k,
    {
        assert(i + k < s.len());
        let j: usize = i + k;
        if s[j] != p[k] {
            proof {
                assert(s@.subrange(i as int, i + p@.len())[k as int] != p@[k as int]);
            }
            return false;
        }
        k += 1;
    }
    proof {
        assert(s@.subrange(i as int, i + p@.len()) =~= p@);
    }
    true
}

/// Whether `c` occurs in `s`.
pub fn contains_char(s: &Vec<char>, c: char) -> (r: bool)
    ensures
        r == s@.contains(c),
{
    let mut i: usize = 0;
    while i < s.len()
        invariant
            i <= s.len(),
            forall|k: int| 0 <= k < i ==> s@[k] != c,
        decreases s.len() - i,
    {
        if s[i] == c {
            return true;
        }
        i += 1;
    }
    false
}

/// Index of the first occurrence of `c` in `s`.
pub open spec fn spec_find(s: Seq<char>, c: char) -> Option<int> {
    if s.contains(c) {
        Some(choose|i: int| 0 <= i < s.len() && s[i] == c && forall|k: int| 0 <= k < i ==> s[k] != c)
    } else {
        None
    }
}

pub fn find_char(s: &Vec<char>, c: char) -> (r: Option<usize>)
    ensures
        match r {
            Some(i) => i < s@.len() && s@[i as int] == c && forall|k: int| 0 <= k < i ==> s@[k] != c,
            None => !s@.contains(c),
        },
        r matches Some(i) ==> spec_find(s@, c) == Some(i as int),
        r is None ==> spec_find(s@, c) is None,
{
    let mut i: usize = 0;
    while i < s.len()
        invariant
            i <= s.len(),
            forall|k: int| 0 <= k < i ==> s@[k] != c,
        decreases s.len() - i,
    {
        if s[i] == c {
            proof {
                let j = choose|j: int|
                    0 <= j < s@.len() && s@[j] == c && forall|k: int| 0 <= k < j ==> s@[k] != c;
                assert(s@.contains(c));
                if j < i {
                    assert(s@[j] != c);
                } else if j > i {
                    assert(s@[i as int] != c);
                }
            }
            return Some(i);
        }
        i += 1;
    }
    None
}

/// First index at or after `i` holding `c` (or the length when there is none).
pub open spec fn spec_first_from(s: Seq<char>, c: char, i: int) -> int
    decreases s.len() - i,
{
    if i < 0 || i >= s.len() {
        s.len() as int
    } else if s[i] == c {
        i
    } else {
        spec_first_from(s, c, i + 1)
    }
}

/// The first occurrence at or after `i` lies within the text, and no earlier
/// position from `i` holds the character.
pub proof fn lemma_first_from(s: Seq<char>, c: char, i: int)
    requires
        0 <= i <= s.len(),
    ensures
        i <= spec_first_from(s, c, i) <= s.len(),
        spec_first_from(s, c, i) < s.len() ==> s[spec_first_from(s, c, i)] == c,
        forall|k: int| i <= k < spec_first_from(s, c, i) ==> s[k] != c,
    decreases s.len() - i,
{
    if i < s.len() && s[i] != c {
        lemma_first_from(s, c, i + 1);
    }
}

/// First index at or after `i` holding `c` (or the length when there is none).
pub fn first_index_from(s: &Vec<char>, c: char, i: usize) -> (r: usize)
    requires
        i <= s@.len(),
    ensures
        r == spec_first_from(s@, c, i as int),
        i <= r <= s@.len(),
{
    let mut k: usize = i;
    while k < s.len() && s[k] != c
        invariant
            i <= k <= s@.len(),
            spec_first_from(s@, c, k as int) == spec_first_from(s@, c, i as int),
        decreases s.len() - k,
    {
        k += 1;
    }
    k
}

/// The pieces of `s[pos..]` between occurrences of `sep` (what `str::split`
/// yields), each trimmed, with the empty ones dropped.
pub open spec fn spec_fields_from(s: Seq<char>, sep: char, pos: int) -> Seq<Seq<char>>
    decreases s.len() - pos,
{
    if pos < 0 || pos > s.len() {
        seq![]
    } else {
        let k = spec_first_from(s, sep, pos);
        let piece = spec_trim(s.subrange(pos, if k < pos { pos } else { k }));
        let head = if piece.len() > 0 {
            seq![piece]
        } else {
            Seq::<Seq<char>>::empty()
        };
        if k >= s.len() || k < pos {
            head
        } else {
            head + spec_fields_from(s, sep, k + 1)
        }
    }
}

/// Trimmed, nonempty pieces of `s` split at `sep`.
pub open spec fn spec_fields(s: Seq<char>, sep: char) -> Seq<Seq<char>> {
    spec_fields_from(s, sep, 0)
}

/// The views of a vector of character vectors.
pub open spec fn spec_views(v: Seq<Vec<char>>) -> Seq<Seq<char>> {
    v.map_values(|x: Vec<char>| x@)
}

/// Trimmed, nonempty pieces of `s` split at `sep`.
pub fn split_fields(s: &Vec<char>, sep: char) -> (r: Vec<Vec<char>>)
    ensures
        spec_views(r@) == spec_fields(s@, sep),
{
    let mut out: Vec<Vec<char>> = Vec::new();
    let mut pos: usize = 0;
    loop
        invariant
            pos <= s@.len(),
            spec_views(out@) + spec_fields_from(s@, sep, pos as int) == spec_fields(s@, sep),
        decreases s@.len() - pos,
    {
        let k = first_index_from(s, sep, pos);
        let piece_raw = slice_chars(s, pos, k);
        let piece = trim_chars(&piece_raw);
        let ghost before = spec_views(out@);
        if piece.len() > 0 {
            out.push(piece);
            proof {
                assert(spec_views(out@) =~= before.push(piece@));
            }
        }
        if k >= s.len() {
            proof {
                if piece@.len() > 0 {
                    assert(spec_fields_from(s@, sep, pos as int) == seq![piece@]);
                    assert(before + seq![piece@] =~= before.push(piece@));
                } else {
                    assert(spec_fields_from(s@, sep, pos as int) =~= Seq::<Seq<char>>::empty());
                    assert(before + Seq::<Seq<char>>::empty() =~= before);
                }
            }
            return out;
        }
        proof {
            if piece@.len() > 0 {
                assert(spec_fields_from(s@, sep, pos as int) == seq![piece@] + spec_fields_from(
                    s@,
                    sep,
                    k + 1,
                ));
                assert(before + (seq![piece@] + spec_fields_from(s@, sep, k + 1)) =~= before.push(
                    piece@,
                ) + spec_fields_from(s@, sep, k + 1));
            } else {
                assert(spec_fields_from(s@, sep, pos as int) =~= Seq::<Seq<char>>::empty()
                    + spec_fields_from(s@, sep, k + 1));
                assert(Seq::<Seq<char>>::empty() + spec_fields_from(s@, sep, k + 1)
                    =~= spec_fields_from(s@, sep, k + 1));
            }
        }
        pos = k + 1;
    }
}

// ---------------------------------------------------------------------------
// Decimal integers
// ---------------------------------------------------------------------------

pub open spec fn spec_digit_val(c: char) -> int {
    c as int - '0' as int
}

pub open spec fn spec_all_digits(s: Seq<char>) -> bool {
    forall|i: int| 0 <= i < s.len() ==> spec_is_digit(#[trigger] s[i])
}

/// Value of a string of decimal digits.
pub open spec fn spec_digits_value(s: Seq<char>) -> int
    decreases s.len(),
{
    if s.len() == 0 {
        0
    } else {
        spec_digits_value(s.drop_last()) * 10 + spec_digit_val(s.last())
    }
}

/// The value of a digit string is never negative.
pub proof fn lemma_digits_value_nonneg(s: Seq<char>)
    requires
        spec_all_digits(s),
    ensures
        spec_digits_value(s) >= 0,
    decreases s.len(),
{
    if s.len() > 0 {
        lemma_digits_value_nonneg(s.drop_last());
    }
}

/// Appending digits never decreases the value.
pub proof fn lemma_digits_value_prefix(s: Seq<char>, j: int)
    requires
        spec_all_digits(s),
        0 <= j <= s.len(),
    ensures
        spec_digits_value(s.take(j)) <= spec_digits_value(s),
    decreases s.len(),
{
    if j < s.len() {
        assert(s.drop_last().take(j) == s.take(j));
        lemma_digits_value_prefix(s.drop_last(), j);
        lemma_digits_value_nonneg(s.drop_last());
    } else {
        assert(s.take(j) == s);
    }
}

/// Text after an optional leading `+` (unsigned integers accept only `+`).
pub open spec fn spec_unsigned_body(s: Seq<char>) -> Seq<char> {
    if s.len() > 0 && s[0] == '+' {
        s.drop_first()
    } else {
        s
    }
}

/// What `str::parse::<u32>()` accepts: an optional `+`, then one or more
/// ASCII digits whose value fits in `u32`.
pub open spec fn spec_parse_u32(s: Seq<char>) -> Option<u32> {
    let body = spec_unsigned_body(s);
    if body.len() > 0 && spec_all_digits(body) && spec_digits_value(body) <= u32::MAX {
        Some(spec_digits_value(body) as u32)
    } else {
        None
    }
}

/// What `str::parse::<i32>()` accepts: an optional `+` or `-`, then one or
/// more ASCII digits, with the signed value in `i32` range.
pub open spec fn spec_parse_i32(s: Seq<char>) -> Option<i32> {
    let neg = s.len() > 0 && s[0] == '-';
    let body = if s.len() > 0 && (s[0] == '+' || s[0] == '-') {
        s.drop_first()
    } else {
        s
    };
    let v = if neg {
        -spec_digits_value(body)
    } else {
        spec_digits_value(body)
    };
    if body.len() > 0 && spec_all_digits(body) && i32::MIN <= v <= i32::MAX {
        Some(v as i32)
    } else {
        None
    }
}

/// Value of `s[a..b]` as decimal digits, if all are digits, it is nonempty and
/// the value does not exceed `limit`.
fn digits_value_upto(s: &Vec<char>, a: usize, b: usize, limit: u64) -> (r: Option<u64>)
    requires
        a <= b <= s@.len(),
        9 <= limit <= u32::MAX + 1,
    ensures
        ({
            let t = s@.subrange(a as int, b as int);
            match r {
                Some(v) => t.len() > 0 && spec_all_digits(t) && v == spec_digits_value(t) && v
                    <= limit,
                None => !(t.len() > 0 && spec_all_digits(t) && spec_digits_value(t) <= limit),
            }
        }),
{
    let ghost t = s@.subrange(a as int, b as int);
    if a == b {
        return None;
    }
    let mut v: u64 = 0;
    let mut i: usize = a;
    while i < b
        invariant
            a <= i <= b <= s@.len(),
            t == s@.subrange(a as int, b as int),
            spec_all_digits(t.take(i - a)),
            v == spec_digits_value(t.take(i - a)),
            v <= limit,
            9 <= limit <= u32::MAX + 1,
        decreases b - i,
    {
        let c = s[i];
        if !is_ascii_digit(c) {
            proof {
                assert(t[i - a] == c);
            }
            return None;
        }
        let d: u64 = (c as u32 - '0' as u32) as u64;
        proof {
            assert(t.take(i - a + 1).drop_last() =~= t.take(i - a));
            assert(t.take(i - a + 1).last() == c);
        }
        if v > (limit - d) / 10 {
            proof {
                assert(v * 10 + d > limit) by (nonlinear_arith)
                    requires
                        v > (limit - d) / 10,
                        d <= limit,
                ;
                assert(spec_all_digits(t.take(i - a + 1))) by {
                    assert forall|k: int| 0 <= k < i - a + 1 implies spec_is_digit(
                        #[trigger] t.take(i - a + 1)[k],
                    ) by {
                        if k < i - a {
                            assert(t.take(i - a)[k] == t.take(i - a + 1)[k]);
                        }
                    }
                }
                if spec_all_digits(t) {
                    lemma_digits_value_prefix(t, i - a + 1);
                }
            }
            return None;
        }
        proof {
            assert(v * 10 + d <= limit) by (nonlinear_arith)
                requires
                    v <= (limit - d) / 10,
                    d <= 9,
                    d <= limit || v == 0,
            ;
        }
        v = v * 10 + d;
        i += 1;
        proof {
            assert forall|k: int| 0 <= k < i - a implies spec_is_digit(#[trigger] t.take(i - a)[k]) by {
                if k < i - a - 1 {
                    assert(t.take(i - a - 1)[k] == t.take(i - a)[k]);
                }
            }
        }
    }
    proof {
        assert(t.take(b - a) =~= t);
    }
    Some(v)
}

/// `str::parse::<u32>()` on `s[a..b]`.
pub fn parse_u32_range(s: &Vec<char>, a: usize, b: usize) -> (r: Option<u32>)
    requires
        a <= b <= s@.len(),
    ensures
        r == spec_parse_u32(s@.subrange(a as int, b as int)),
{
    let ghost t = s@.subrange(a as int, b as int);
    let start = if a < b && s[a] == '+' {
        a + 1
    } else {
        a
    };
    proof {
        assert(spec_unsigned_body(t) =~= s@.subrange(start as int, b as int));
    }
    match digits_value_upto(s, start, b, 0xFFFF_FFFF) {
        Some(v) => Some(v as u32),
        None => None,
    }
}

/// `str::parse::<i32>()` on `s[a..b]`.
pub fn parse_i32_range(s: &Vec<char>, a: usize, b: usize) -> (r: Option<i32>)
    requires
        a <= b <= s@.len(),
    ensures
        r == spec_parse_i32(s@.subrange(a as int, b as int)),
{
    let ghost t = s@.subrange(a as int, b as int);
    let neg = a < b && s[a] == '-';
    let start = if a < b && (s[a] == '+' || s[a] == '-') {
        a + 1
    } else {
        a
    };
    let ghost body = s@.subrange(start as int, b as int);
    proof {
        assert(body =~= (if t.len() > 0 && (t[0] == '+' || t[0] == '-') {
            t.drop_first()
        } else {
            t
        }));
    }
    let limit: u64 = if neg {
        0x8000_0000
    } else {
        0x7FFF_FFFF
    };
    match digits_value_upto(s, start, b, limit) {
        Some(v) => {
            if neg {
                if v == 0x8000_0000 {
                    Some(i32::MIN)
                } else {
                    let x: i32 = v as i32;
                    Some(-x)
                }
            } else {
                Some(v as i32)
            }
        },
        None => None,
    }
}

/// The ASCII digit for `d`.
pub open spec fn spec_digit_char(d: int) -> char {
    (d + '0' as int) as char
}

/// Decimal representation of a natural number (no leading zeros).
pub open spec fn spec_decimal(n: nat) -> Seq<char>
    decreases n,
{
    if n < 10 {
        seq![spec_digit_char(n as int)]
    } else {
        spec_decimal(n / 10).push(spec_digit_char((n % 10) as int))
    }
}

/// Decimal representation of an integer, with a leading `-` when negative
/// (what `Display` prints for integers).
pub open spec fn spec_int_decimal(n: int) -> Seq<char> {
    if n < 0 {
        seq!['-'] + spec_decimal((-n) as nat)
    } else {
        spec_decimal(n as nat)
    }
}

fn digit_char(d: u64) -> (r: char)
    requires
        d < 10,
    ensures
        r == spec_digit_char(d as int),
{
    char_from_ascii((d as u32) + 48)
}

/// Appends the decimal representation of `n` to `out`.
pub fn push_decimal(out: &mut String, n: u64)
    ensures
        final(out)@ == old(out)@ + spec_decimal(n as nat),
    decreases n,
{
    if n >= 10 {
        push_decimal(out, n / 10);
    }
    string_push(out, digit_char(n % 10));
    proof {
        assert(n < 10 ==> n % 10 == n);
    }
}

/// Decimal representation of an `i64`.
pub fn i64_to_string(n: i64) -> (r: String)
    ensures
        r@ == spec_int_decimal(n as int),
{
    let mut out = String::new();
    if n < 0 {
        string_push(&mut out, '-');
        let m: u64 = ((-(n as i128)) as u64);
        push_decimal(&mut out, m);
    } else {
        push_decimal(&mut out, n as u64);
    }
    out
}

/// The digit character for `d` has the value `d`.
pub proof fn lemma_digit_char_val(d: int)
    requires
        0 <= d < 10,
    ensures
        spec_digit_val(spec_digit_char(d)) == d,
        spec_is_digit(spec_digit_char(d)),
{
    assert((d + 48) as char as int == d + 48);
}

/// Every decimal representation consists of digits, the first of which is
/// zero only for zero itself.
pub proof fn lemma_decimal_digits(n: nat)
    ensures
        spec_all_digits(spec_decimal(n)),
        spec_decimal(n).len() >= 1,
        spec_digits_value(spec_decimal(n)) == n,
        n > 0 ==> spec_decimal(n)[0] != '0',
    decreases n,
{
    lemma_digit_char_val((n % 10) as int);
    if n >= 10 {
        lemma_decimal_digits(n / 10);
        let s = spec_decimal(n);
        assert(s.drop_last() == spec_decimal(n / 10));
        assert(s.last() == spec_digit_char((n % 10) as int));
        assert((n / 10) * 10 + n % 10 == n);
        assert forall|i: int| 0 <= i < s.len() implies spec_is_digit(#[trigger] s[i]) by {
            if i < s.len() - 1 {
                assert(s[i] == spec_decimal(n / 10)[i]);
            }
        }
    } else {
        let s = spec_decimal(n);
        assert(s.drop_last() =~= Seq::<char>::empty());
        assert(spec_digits_value(s.drop_last()) == 0);
        assert(s.last() == spec_digit_char(n as int));
    }
}

// ---------------------------------------------------------------------------
// Strings
// ---------------------------------------------------------------------------

/// The characters of `s`, in order.
pub fn chars_of(s: &str) -> (r: Vec<char>)
    ensures
        r@ == s@,
{
    let mut out: Vec<char> = Vec::new();
    broadcast use vstd::string::group_string_axioms;

    for c in it: s.chars()
        invariant
            out@ == it.seq().take(it.index() as int),
            it.seq() == s@,
    {
        out.push(c);
    }
    out
}

/// Appends one character to a `String` by calling std's `String::push`.
/// Trusted: the string's characters afterwards are the ones before followed by
/// `c` (what the documentation of `String::push` states).
#[verifier::external_body]
pub(crate) fn string_push(s: &mut String, c: char)
    ensures
        final(s)@ == old(s)@.push(c),
{
    s.push(c);
}

/// Appends the characters `v[a..b]` to `out`.
pub fn push_chars(out: &mut String, v: &Vec<char>, a: usize, b: usize)
    requires
        a <= b <= v@.len(),
    ensures
        final(out)@ == old(out)@ + v@.subrange(a as int, b as int),
{
    let mut i: usize = a;
    while i < b
        invariant
            a <= i <= b <= v@.len(),
            out@ == old(out)@ + v@.subrange(a as int, i as int),
        decreases b - i,
    {
        string_push(out, v[i]);
        proof {
            assert(v@.subrange(a as int, i + 1) =~= v@.subrange(a as int, i as int).push(v@[i as int]));
        }
        i += 1;
    }
}

/// A `String` holding the characters of `v`.
pub fn string_from_chars(v: &Vec<char>) -> (r: String)
    ensures
        r@ == v@,
{
    let mut out = String::new();
    push_chars(&mut out, v, 0, v.len());
    proof {
        assert(v@.subrange(0, v@.len() as int) =~= v@);
    }
    out
}

/// A `String` holding the characters of `s`.
pub fn string_from_str(s: &str) -> (r: String)
    ensures
        r@ == s@,
{
    let mut out = String::new();
    out.append(s);
    out
}

/// Appends a `String` to another.
pub fn push_string(out: &mut String, s: &String)
    ensures
        final(out)@ == old(out)@ + s@,
{
    out.append(s.as_str());
}

} // verus!
