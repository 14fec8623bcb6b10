//! Formula syntax tree and its parser.
//!
//! Grammar (lowest precedence first):
//! ```text
//! comparison := concat (( ">=" | "<=" | "<>" | "!=" | "==" | "=" | ">" | "<" ) concat)*
//! concat     := sum ("&" sum)*
//! sum        := product (("+" | "-") product)*
//! product    := factor (("*" | "/") factor)*
//! factor     := "+" factor | "-" factor | "@" factor | "(" comparison ")"
//!             | string | number | identifier
//! identifier := name "#"                      (spill reference of an A1 anchor)
//!             | name "(" [arg ("," arg)*] ")"  (call)
//!             | name ":" name                 (A1 range)
//!             | name                          (cell or bound name)
//! ```
//! Numbers keep their literal text; their value is the `f64` that the text
//! denotes.
use vstd::prelude::*;
use crate::error::SpreadsheetError;
use crate::parser::formula_text_chars;
use crate::refs::{
    a1_range_cells, spec_string_views, CellSet, FormulaRefs,
    a1_range_size, is_cell_name_char, is_cell_name_start, parse_a1_chars, spec_a1_range_size,
    spec_is_cell_name_char, spec_is_cell_name_start, spec_parse_a1,
};
use crate::text::{
    chars_of, is_ascii_digit, is_whitespace, slice_chars, spec_is_digit, spec_is_ws, spec_skip_ws,
    spec_upper_seq, string_from_chars, upper_chars, lemma_skip_ws_bounds,
};

verus! {

#[derive(Clone, Copy, Debug, PartialEq, Eq, Structural)]
pub enum BinOp {
    Add,
    Sub,
    Mul,
    Div,
    /// Text concatenation `&`.
    Concat,
}

#[derive(Clone, Copy, Debug, PartialEq, Eq, Structural)]
pub enum CmpOp {
    Gt,
    Lt,
    Ge,
    Le,
    Eq,
    Ne,
}

#[derive(Debug, PartialEq)]
pub enum Expr {
    /// Numeric literal, kept as written.
    Number(String),
    Cell(String),
    /// A1 range kept as endpoints until expanded.
    Range { start: String, end: String },
    /// `A1#`: the whole spilled array anchored at a cell.
    SpillRef(String),
    Str(String),
    Neg(Box<Expr>),
    /// `@expr`: implicit intersection.
    Intersect(Box<Expr>),
    BinOp { op: BinOp, left: Box<Expr>, right: Box<Expr> },
    CmpOp { op: CmpOp, left: Box<Expr>, right: Box<Expr> },
    Call { name: String, args: Vec<Expr> },
}

/// Mathematical model of [`Expr`].
pub enum SpecExpr {
    Number(Seq<char>),
    Cell(Seq<char>),
    Range { start: Seq<char>, end: Seq<char> },
    SpillRef(Seq<char>),
    Str(Seq<char>),
    Neg(Box<SpecExpr>),
    Intersect(Box<SpecExpr>),
    BinOp { op: BinOp, left: Box<SpecExpr>, right: Box<SpecExpr> },
    CmpOp { op: CmpOp, left: Box<SpecExpr>, right: Box<SpecExpr> },
    Call { name: Seq<char>, args: Seq<SpecExpr> },
}

pub open spec fn spec_view(e: Expr) -> SpecExpr
    decreases e, 0int,
{
    match e {
        Expr::Number(t) => SpecExpr::Number(t@),
        Expr::Cell(n) => SpecExpr::Cell(n@),
        Expr::Range { start, end } => SpecExpr::Range { start: start@, end: end@ },
        Expr::SpillRef(n) => SpecExpr::SpillRef(n@),
        Expr::Str(t) => SpecExpr::Str(t@),
        Expr::Neg(x) => SpecExpr::Neg(Box::new(spec_view(*x))),
        Expr::Intersect(x) => SpecExpr::Intersect(Box::new(spec_view(*x))),
        Expr::BinOp { op, left, right } => SpecExpr::BinOp {
            op,
            left: Box::new(spec_view(*left)),
            right: Box::new(spec_view(*right)),
        },
        Expr::CmpOp { op, left, right } => SpecExpr::CmpOp {
            op,
            left: Box::new(spec_view(*left)),
            right: Box::new(spec_view(*right)),
        },
        Expr::Call { name, args } => SpecExpr::Call { name: name@, args: spec_view_seq(args@, 0) },
    }
}

pub open spec fn spec_view_seq(s: Seq<Expr>, i: int) -> Seq<SpecExpr>
    decreases s, s.len() - i,
{
    if 0 <= i < s.len() {
        seq![spec_view(s[i])] + spec_view_seq(s, i + 1)
    } else {
        Seq::empty()
    }
}

proof fn lemma_view_seq_index(s: Seq<Expr>, i: int)
    requires
        0 <= i <= s.len(),
    ensures
        spec_view_seq(s, i).len() == s.len() - i,
        forall|k: int| 0 <= k < s.len() - i ==> #[trigger] spec_view_seq(s, i)[k] == spec_view(s[i + k]),
    decreases s.len() - i,
{
    if i < s.len() {
        lemma_view_seq_index(s, i + 1);
        assert forall|k: int| 0 <= k < s.len() - i implies #[trigger] spec_view_seq(s, i)[k] == spec_view(s[i + k]) by {
            if k > 0 {
                assert(spec_view_seq(s, i)[k] == spec_view_seq(s, i + 1)[k - 1]);
            }
        }
    }
}

proof fn lemma_view_seq_push(s: Seq<Expr>, x: Expr)
    ensures
        spec_view_seq(s.push(x), 0) == spec_view_seq(s, 0).push(spec_view(x)),
{
    lemma_view_seq_index(s.push(x), 0);
    lemma_view_seq_index(s, 0);
    assert(spec_view_seq(s.push(x), 0) =~= spec_view_seq(s, 0).push(spec_view(x)));
}

/// Why a formula failed to parse.
#[derive(Clone, Copy, Debug, PartialEq, Eq, Structural)]
pub enum ParseFail {
    /// Not valid formula syntax.
    Invalid,
    /// A range literal spanning more than the cell limit.
    RangeTooLarge,
}

pub type SpecParse = Result<(SpecExpr, int), ParseFail>;

// ---------------------------------------------------------------------------
// Lexical pieces
// ---------------------------------------------------------------------------

pub open spec fn spec_at(s: Seq<char>, p: int, c: char) -> bool {
    0 <= p < s.len() && s[p] == c
}

/// First index at or after `p` that is not a cell-name character.
pub open spec fn spec_name_end(s: Seq<char>, p: int) -> int
    decreases s.len() - p,
{
    if 0 <= p < s.len() && spec_is_cell_name_char(s[p]) {
        spec_name_end(s, p + 1)
    } else {
        p
    }
}

/// A name ends within the text, at or after its start.
pub proof fn lemma_name_end(s: Seq<char>, p: int)
    requires
        0 <= p <= s.len(),
    ensures
        p <= spec_name_end(s, p) <= s.len(),
    decreases s.len() - p,
{
    if p < s.len() && spec_is_cell_name_char(s[p]) {
        lemma_name_end(s, p + 1);
    }
}

/// First index at or after `p` that is not a digit or `.`.
pub open spec fn spec_mantissa_end(s: Seq<char>, p: int) -> int
    decreases s.len() - p,
{
    if 0 <= p < s.len() && (spec_is_digit(s[p]) || s[p] == '.') {
        spec_mantissa_end(s, p + 1)
    } else {
        p
    }
}

/// First index at or after `p` that is not a digit.
pub open spec fn spec_digits_end(s: Seq<char>, p: int) -> int
    decreases s.len() - p,
{
    if 0 <= p < s.len() && spec_is_digit(s[p]) {
        spec_digits_end(s, p + 1)
    } else {
        p
    }
}

proof fn lemma_mantissa_end(s: Seq<char>, p: int)
    requires
        0 <= p <= s.len(),
    ensures
        p <= spec_mantissa_end(s, p) <= s.len(),
        forall|k: int| p <= k < spec_mantissa_end(s, p) ==> (spec_is_digit(#[trigger] s[k]) || s[k] == '.'),
    decreases s.len() - p,
{
    if p < s.len() && (spec_is_digit(s[p]) || s[p] == '.') {
        lemma_mantissa_end(s, p + 1);
    }
}

proof fn lemma_digits_end(s: Seq<char>, p: int)
    requires
        0 <= p <= s.len(),
    ensures
        p <= spec_digits_end(s, p) <= s.len(),
    decreases s.len() - p,
{
    if p < s.len() && spec_is_digit(s[p]) {
        lemma_digits_end(s, p + 1);
    }
}

/// End of a number token starting at `p` (digits and dots, then an optional
/// exponent), or `None` for an exponent without digits.
pub open spec fn spec_number_end(s: Seq<char>, p: int) -> Option<int> {
    let e1 = spec_mantissa_end(s, p);
    if spec_at(s, e1, 'e') || spec_at(s, e1, 'E') {
        let e2 = if spec_at(s, e1 + 1, '+') || spec_at(s, e1 + 1, '-') {
            e1 + 2
        } else {
            e1 + 1
        };
        let e3 = spec_digits_end(s, e2);
        if e3 == e2 {
            None
        } else {
            Some(e3)
        }
    } else {
        Some(e1)
    }
}

/// Whether the digits-and-dots part of a number token is a valid `f64`
/// mantissa: at most one `.` and at least one digit (what `str::parse::<f64>`
/// requires of such text).
pub open spec fn spec_valid_mantissa(m: Seq<char>) -> bool {
    &&& forall|i: int, j: int| 0 <= i < j < m.len() ==> !(#[trigger] m[i] == '.' && #[trigger] m[j] == '.')
    &&& exists|i: int| 0 <= i < m.len() && spec_is_digit(#[trigger] m[i])
}

/// A number token at `p`: its text and end.
pub open spec fn spec_parse_number(s: Seq<char>, p: int) -> SpecParse {
    match spec_number_end(s, p) {
        None => Err(ParseFail::Invalid),
        Some(end) => {
            if spec_valid_mantissa(s.subrange(p, spec_mantissa_end(s, p))) {
                Ok((SpecExpr::Number(s.subrange(p, end)), end))
            } else {
                Err(ParseFail::Invalid)
            }
        },
    }
}

/// Value of a string literal whose body starts at `i` (after the opening
/// quote) and the index after its closing quote.
pub open spec fn spec_str_body(s: Seq<char>, i: int) -> Option<(Seq<char>, int)>
    decreases s.len() - i,
{
    if i < 0 || i >= s.len() {
        None
    } else if s[i] == '"' {
        if spec_at(s, i + 1, '"') {
            match spec_str_body(s, i + 2) {
                Some((v, e)) => Some((seq!['"'] + v, e)),
                None => None,
            }
        } else {
            Some((Seq::empty(), i + 1))
        }
    } else {
        match spec_str_body(s, i + 1) {
            Some((v, e)) => Some((seq![s[i]] + v, e)),
            None => None,
        }
    }
}

proof fn lemma_str_body_end(s: Seq<char>, i: int)
    requires
        0 <= i,
        spec_str_body(s, i) is Some,
    ensures
        i < spec_str_body(s, i).unwrap().1 <= s.len(),
    decreases s.len() - i,
{
    if i < s.len() && s[i] == '"' && spec_at(s, i + 1, '"') {
        lemma_str_body_end(s, i + 2);
    } else if i < s.len() && s[i] != '"' {
        lemma_str_body_end(s, i + 1);
    }
}

pub open spec fn spec_datedif_name() -> Seq<char> {
    seq!['D', 'A', 'T', 'E', 'D', 'I', 'F']
}

pub open spec fn spec_datevalue_name() -> Seq<char> {
    seq!['D', 'A', 'T', 'E', 'V', 'A', 'L', 'U', 'E']
}

/// Comparison operator starting at `q` and the index after it (operators are
/// tried in the order `>=`, `<=`, `<>`, `!=`, `==`, `=`, `>`, `<`).
pub open spec fn spec_comparison_operator(s: Seq<char>, q: int) -> Option<(CmpOp, int)> {
    if spec_at(s, q, '>') && spec_at(s, q + 1, '=') {
        Some((CmpOp::Ge, q + 2))
    } else if spec_at(s, q, '<') && spec_at(s, q + 1, '=') {
        Some((CmpOp::Le, q + 2))
    } else if spec_at(s, q, '<') && spec_at(s, q + 1, '>') {
        Some((CmpOp::Ne, q + 2))
    } else if spec_at(s, q, '!') && spec_at(s, q + 1, '=') {
        Some((CmpOp::Ne, q + 2))
    } else if spec_at(s, q, '=') && spec_at(s, q + 1, '=') {
        Some((CmpOp::Eq, q + 2))
    } else if spec_at(s, q, '=') {
        Some((CmpOp::Eq, q + 1))
    } else if spec_at(s, q, '>') {
        Some((CmpOp::Gt, q + 1))
    } else if spec_at(s, q, '<') {
        Some((CmpOp::Lt, q + 1))
    } else {
        None
    }
}

// ---------------------------------------------------------------------------
// The grammar as recursive functions over (text, position)
// ---------------------------------------------------------------------------
// Each function returns the parsed tree and the position after it. The
// termination measure is 8 * (remaining characters) + level; every call back
// to a level at or above the caller's consumes at least one character (loops
// check that the position advanced).

pub open spec fn spec_comparison(s: Seq<char>, p: int) -> SpecParse
    decreases 8 * (s.len() - p) + 5, 0int,
{
    if p < 0 || p > s.len() {
        Err(ParseFail::Invalid)
    } else {
        match spec_concat(s, p) {
            Err(f) => Err(f),
            Ok((l, p1)) => {
                if p < p1 <= s.len() {
                    spec_comparison_rest(s, p1, l)
                } else {
                    Err(ParseFail::Invalid)
                }
            },
        }
    }
}

pub open spec fn spec_comparison_rest(s: Seq<char>, p: int, left: SpecExpr) -> SpecParse
    decreases 8 * (s.len() - p) + 5, 1int,
{
    if p < 0 || p > s.len() {
        Err(ParseFail::Invalid)
    } else {
        let q = spec_skip_ws(s, p);
        proof {
            lemma_skip_ws_bounds(s, p);
        }
        match spec_comparison_operator(s, q) {
            None => Ok((left, q)),
            Some((op, q2)) => match spec_concat(s, q2) {
                Err(f) => Err(f),
                Ok((r, p3)) => {
                    if p < p3 <= s.len() {
                        spec_comparison_rest(
                            s,
                            p3,
                            SpecExpr::CmpOp { op, left: Box::new(left), right: Box::new(r) },
                        )
                    } else {
                        Err(ParseFail::Invalid)
                    }
                },
            },
        }
    }
}

pub open spec fn spec_concat(s: Seq<char>, p: int) -> SpecParse
    decreases 8 * (s.len() - p) + 4, 0int,
{
    if p < 0 || p > s.len() {
        Err(ParseFail::Invalid)
    } else {
        match spec_sum(s, p) {
            Err(f) => Err(f),
            Ok((l, p1)) => {
                if p < p1 <= s.len() {
                    spec_concat_rest(s, p1, l)
                } else {
                    Err(ParseFail::Invalid)
                }
            },
        }
    }
}

pub open spec fn spec_concat_rest(s: Seq<char>, p: int, left: SpecExpr) -> SpecParse
    decreases 8 * (s.len() - p) + 4, 1int,
{
    if p < 0 || p > s.len() {
        Err(ParseFail::Invalid)
    } else {
        let q = spec_skip_ws(s, p);
        proof {
            lemma_skip_ws_bounds(s, p);
        }
        if spec_at(s, q, '&') {
            match spec_sum(s, q + 1) {
                Err(f) => Err(f),
                Ok((r, p3)) => {
                    if p < p3 <= s.len() {
                        spec_concat_rest(
                            s,
                            p3,
                            SpecExpr::BinOp {
                                op: BinOp::Concat,
                                left: Box::new(left),
                                right: Box::new(r),
                            },
                        )
                    } else {
                        Err(ParseFail::Invalid)
                    }
                },
            }
        } else {
            Ok((left, q))
        }
    }
}

pub open spec fn spec_sum(s: Seq<char>, p: int) -> SpecParse
    decreases 8 * (s.len() - p) + 3, 0int,
{
    if p < 0 || p > s.len() {
        Err(ParseFail::Invalid)
    } else {
        match spec_product(s, p) {
            Err(f) => Err(f),
            Ok((l, p1)) => {
                if p < p1 <= s.len() {
                    spec_sum_rest(s, p1, l)
                } else {
                    Err(ParseFail::Invalid)
                }
            },
        }
    }
}

pub open spec fn spec_sum_rest(s: Seq<char>, p: int, left: SpecExpr) -> SpecParse
    decreases 8 * (s.len() - p) + 3, 1int,
{
    if p < 0 || p > s.len() {
        Err(ParseFail::Invalid)
    } else {
        let q = spec_skip_ws(s, p);
        proof {
            lemma_skip_ws_bounds(s, p);
        }
        if spec_at(s, q, '+') || spec_at(s, q, '-') {
            let op = if spec_at(s, q, '+') {
                BinOp::Add
            } else {
                BinOp::Sub
            };
            match spec_product(s, q + 1) {
                Err(f) => Err(f),
                Ok((r, p3)) => {
                    if p < p3 <= s.len() {
                        spec_sum_rest(
                            s,
                            p3,
                            SpecExpr::BinOp { op, left: Box::new(left), right: Box::new(r) },
                        )
                    } else {
                        Err(ParseFail::Invalid)
                    }
                },
            }
        } else {
            Ok((left, q))
        }
    }
}

pub open spec fn spec_product(s: Seq<char>, p: int) -> SpecParse
    decreases 8 * (s.len() - p) + 2, 0int,
{
    if p < 0 || p > s.len() {
        Err(ParseFail::Invalid)
    } else {
        match spec_factor(s, p) {
            Err(f) => Err(f),
            Ok((l, p1)) => {
                if p < p1 <= s.len() {
                    spec_product_rest(s, p1, l)
                } else {
                    Err(ParseFail::Invalid)
                }
            },
        }
    }
}

pub open spec fn spec_product_rest(s: Seq<char>, p: int, left: SpecExpr) -> SpecParse
    decreases 8 * (s.len() - p) + 2, 1int,
{
    if p < 0 || p > s.len() {
        Err(ParseFail::Invalid)
    } else {
        let q = spec_skip_ws(s, p);
        proof {
            lemma_skip_ws_bounds(s, p);
        }
        if spec_at(s, q, '*') || spec_at(s, q, '/') {
            let op = if spec_at(s, q, '*') {
                BinOp::Mul
            } else {
                BinOp::Div
            };
            match spec_factor(s, q + 1) {
                Err(f) => Err(f),
                Ok((r, p3)) => {
                    if p < p3 <= s.len() {
                        spec_product_rest(
                            s,
                            p3,
                            SpecExpr::BinOp { op, left: Box::new(left), right: Box::new(r) },
                        )
                    } else {
                        Err(ParseFail::Invalid)
                    }
                },
            }
        } else {
            Ok((left, q))
        }
    }
}

pub open spec fn spec_factor(s: Seq<char>, p: int) -> SpecParse
    decreases 8 * (s.len() - p) + 1, 0int,
{
    if p < 0 || p > s.len() {
        Err(ParseFail::Invalid)
    } else {
        let q = spec_skip_ws(s, p);
        proof {
            lemma_skip_ws_bounds(s, p);
        }
        if q >= s.len() {
            Err(ParseFail::Invalid)
        } else if s[q] == '+' {
            spec_factor(s, q + 1)
        } else if s[q] == '-' {
            match spec_factor(s, q + 1) {
                Err(f) => Err(f),
                Ok((x, p1)) => Ok((SpecExpr::Neg(Box::new(x)), p1)),
            }
        } else if s[q] == '@' {
            match spec_factor(s, q + 1) {
                Err(f) => Err(f),
                Ok((x, p1)) => Ok((SpecExpr::Intersect(Box::new(x)), p1)),
            }
        } else if s[q] == '(' {
            match spec_comparison(s, q + 1) {
                Err(f) => Err(f),
                Ok((x, p1)) => {
                    let r = spec_skip_ws(s, p1);
                    if spec_at(s, r, ')') {
                        Ok((x, r + 1))
                    } else {
                        Err(ParseFail::Invalid)
                    }
                },
            }
        } else if s[q] == '"' {
            match spec_str_body(s, q + 1) {
                None => Err(ParseFail::Invalid),
                Some((v, e)) => Ok((SpecExpr::Str(v), e)),
            }
        } else if spec_is_digit(s[q]) || s[q] == '.' {
            spec_parse_number(s, q)
        } else if spec_is_cell_name_start(s[q]) {
            spec_identifier(s, q)
        } else {
            Err(ParseFail::Invalid)
        }
    }
}

pub open spec fn spec_identifier(s: Seq<char>, p: int) -> SpecParse
    decreases 8 * (s.len() - p) + 0, 0int,
{
    if p < 0 || p > s.len() {
        Err(ParseFail::Invalid)
    } else {
        let e = spec_name_end(s, p);
        proof {
            lemma_name_end(s, p);
        }
        let name = s.subrange(p, e);
        if spec_at(s, e, '#') && spec_parse_a1(name) is Some {
            Ok((SpecExpr::SpillRef(name), e + 1))
        } else {
            let q = spec_skip_ws(s, e);
            proof {
                lemma_skip_ws_bounds(s, e);
            }
            if spec_at(s, q, '(') {
                match spec_call_args(s, q + 1, spec_upper_seq(name)) {
                    Err(f) => Err(f),
                    Ok((args, p1)) => {
                        let r = spec_skip_ws(s, p1);
                        if spec_at(s, r, ')') {
                            Ok((SpecExpr::Call { name, args }, r + 1))
                        } else {
                            Err(ParseFail::Invalid)
                        }
                    },
                }
            } else if spec_at(s, q, ':') && spec_parse_a1(name) is Some && spec_range_end(
                s,
                q + 1,
            ) is Some {
                let (end_name, e2) = spec_range_end(s, q + 1).unwrap();
                if spec_a1_range_size(name, end_name) is Err {
                    Err(ParseFail::RangeTooLarge)
                } else {
                    Ok((SpecExpr::Range { start: name, end: end_name }, e2))
                }
            } else {
                Ok((SpecExpr::Cell(name), q))
            }
        }
    }
}

/// The A1 name after a range colon (whitespace allowed before it) and the
/// index after it.
pub open spec fn spec_range_end(s: Seq<char>, p: int) -> Option<(Seq<char>, int)> {
    let r = spec_skip_ws(s, p);
    if 0 <= r < s.len() && spec_is_cell_name_start(s[r]) {
        let e2 = spec_name_end(s, r);
        if spec_parse_a1(s.subrange(r, e2)) is Some {
            Some((s.subrange(r, e2), e2))
        } else {
            None
        }
    } else {
        None
    }
}

pub type SpecArgs = Result<(Seq<SpecExpr>, int), ParseFail>;

pub open spec fn spec_call_args(s: Seq<char>, p: int, upper: Seq<char>) -> SpecArgs
    decreases 8 * (s.len() - p) + 7, 0int,
{
    if p < 0 || p > s.len() {
        Err(ParseFail::Invalid)
    } else {
        let q = spec_skip_ws(s, p);
        proof {
            lemma_skip_ws_bounds(s, p);
        }
        if spec_at(s, q, ')') {
            Ok((Seq::empty(), q))
        } else {
            spec_args_from(s, q, upper, Seq::empty())
        }
    }
}

/// Whether the next argument of a call is read as a single factor (the unit of
/// `DATEDIF` and the text of `DATEVALUE`) rather than a full expression.
pub open spec fn spec_factor_arg(upper: Seq<char>, index: int) -> bool {
    (upper == spec_datedif_name() && index == 2) || upper == spec_datevalue_name()
}

pub open spec fn spec_args_from(s: Seq<char>, p: int, upper: Seq<char>, acc: Seq<SpecExpr>) -> SpecArgs
    decreases 8 * (s.len() - p) + 6, 0int,
{
    if p < 0 || p > s.len() {
        Err(ParseFail::Invalid)
    } else {
        let arg = if spec_factor_arg(upper, acc.len() as int) {
            spec_factor(s, p)
        } else {
            spec_comparison(s, p)
        };
        match arg {
            Err(f) => Err(f),
            Ok((a, p1)) => {
                let q = spec_skip_ws(s, p1);
                if spec_at(s, q, ',') {
                    let r = spec_skip_ws(s, q + 1);
                    if p < r <= s.len() {
                        spec_args_from(s, r, upper, acc.push(a))
                    } else {
                        Err(ParseFail::Invalid)
                    }
                } else if spec_at(s, q, ')') {
                    Ok((acc.push(a), q))
                } else {
                    Err(ParseFail::Invalid)
                }
            },
        }
    }
}

/// A formula's text: trimmed, without one leading `=`.
pub open spec fn spec_formula_text(expression: Seq<char>) -> Seq<char> {
    crate::parser::spec_strip_eq(crate::text::spec_trim(expression))
}

/// Parse result of a formula text: the whole text must be one comparison.
pub open spec fn spec_parse_formula_text(e: Seq<char>) -> Result<SpecExpr, ParseFail> {
    match spec_comparison(e, 0) {
        Err(f) => Err(f),
        Ok((x, p)) => {
            if spec_skip_ws(e, p) < e.len() {
                Err(ParseFail::Invalid)
            } else {
                Ok(x)
            }
        },
    }
}

// ---------------------------------------------------------------------------
// The parser
// ---------------------------------------------------------------------------

pub open spec fn spec_parse_ok(r: Result<(Expr, usize), ParseFail>, spec: SpecParse) -> bool {
    match r {
        Ok((e, q)) => spec == Ok::<(SpecExpr, int), ParseFail>((spec_view(e), q as int)),
        Err(f) => spec == Err::<(SpecExpr, int), ParseFail>(f),
    }
}

struct AstParser {
    chars: Vec<char>,
}

impl AstParser {
    /// The text's length is a `usize`.
    proof fn lemma_len_fits(&self)
        ensures
            self.chars@.len() <= usize::MAX,
    {
        assert(self.chars.len() == self.chars@.len());
    }

    fn peek(&self, p: usize) -> (r: Option<char>)
        ensures
            match r {
                Some(c) => p < self.chars@.len() && self.chars@[p as int] == c,
                None => p >= self.chars@.len(),
            },
    {
        if p < self.chars.len() {
            Some(self.chars[p])
        } else {
            None
        }
    }

    fn at(&self, p: usize, c: char) -> (r: bool)
        ensures
            r == spec_at(self.chars@, p as int, c),
    {
        p < self.chars.len() && self.chars[p] == c
    }

    fn skip_whitespace(&self, p: usize) -> (r: usize)
        requires
            p <= self.chars@.len(),
        ensures
            r == spec_skip_ws(self.chars@, p as int),
            p <= r <= self.chars@.len(),
    {
        proof {
            lemma_skip_ws_bounds(self.chars@, p as int);
        }
        let mut k = p;
        while k < self.chars.len() && is_whitespace(self.chars[k])
            invariant
                p <= k <= self.chars@.len(),
                spec_skip_ws(self.chars@, k as int) == spec_skip_ws(self.chars@, p as int),
            decreases self.chars.len() - k,
        {
            k += 1;
        }
        k
    }

    /// Whether the text at `p` starts with the two characters `c0 c1`.
    fn match_str(&self, p: usize, c0: char, c1: char) -> (r: bool)
        ensures
            r == (spec_at(self.chars@, p as int, c0) && spec_at(self.chars@, p + 1, c1)),
    {
        p < self.chars.len() && self.chars[p] == c0 && self.chars.len() - p > 1 && self.chars[p
            + 1] == c1
    }

    fn name_end(&self, p: usize) -> (r: usize)
        requires
            p <= self.chars@.len(),
        ensures
            r == spec_name_end(self.chars@, p as int),
            p <= r <= self.chars@.len(),
    {
        proof {
            lemma_name_end(self.chars@, p as int);
        }
        let mut k = p;
        while k < self.chars.len() && is_cell_name_char(self.chars[k])
            invariant
                p <= k <= self.chars@.len(),
                spec_name_end(self.chars@, k as int) == spec_name_end(self.chars@, p as int),
            decreases self.chars.len() - k,
        {
            k += 1;
        }
        k
    }

    fn comparison_operator(&self, q: usize) -> (r: Option<(CmpOp, usize)>)
        ensures
            match spec_comparison_operator(self.chars@, q as int) {
                Some((op, e)) => r == Some((op, e as usize)) && q < e <= self.chars@.len(),
                None => r is None,
            },
    {
        proof {
            self.lemma_len_fits();
        }
        if self.match_str(q, '>', '=') {
            Some((CmpOp::Ge, q + 2))
        } else if self.match_str(q, '<', '=') {
            Some((CmpOp::Le, q + 2))
        } else if self.match_str(q, '<', '>') {
            Some((CmpOp::Ne, q + 2))
        } else if self.match_str(q, '!', '=') {
            Some((CmpOp::Ne, q + 2))
        } else if self.match_str(q, '=', '=') {
            Some((CmpOp::Eq, q + 2))
        } else if self.at(q, '=') {
            Some((CmpOp::Eq, q + 1))
        } else if self.at(q, '>') {
            Some((CmpOp::Gt, q + 1))
        } else if self.at(q, '<') {
            Some((CmpOp::Lt, q + 1))
        } else {
            None
        }
    }

    fn parse_comparison(&self, p: usize) -> (r: Result<(Expr, usize), ParseFail>)
        requires
            p <= self.chars@.len(),
        ensures
            spec_parse_ok(r, spec_comparison(self.chars@, p as int)),
            r matches Ok((_, q)) ==> p <= q <= self.chars@.len(),
        decreases 8 * (self.chars@.len() - p) + 5, 0int,
    {
        match self.parse_concat(p) {
            Err(f) => Err(f),
            Ok((l, p1)) => {
                if p < p1 && p1 <= self.chars.len() {
                    self.parse_comparison_rest(p1, l)
                } else {
                    Err(ParseFail::Invalid)
                }
            },
        }
    }

    fn parse_comparison_rest(&self, p: usize, left: Expr) -> (r: Result<(Expr, usize), ParseFail>)
        requires
            p <= self.chars@.len(),
        ensures
            spec_parse_ok(r, spec_comparison_rest(self.chars@, p as int, spec_view(left))),
            r matches Ok((_, q)) ==> p <= q <= self.chars@.len(),
        decreases 8 * (self.chars@.len() - p) + 5, 1int,
    {
        proof {
            self.lemma_len_fits();
        }
        let q = self.skip_whitespace(p);
        match self.comparison_operator(q) {
            None => Ok((left, q)),
            Some((op, q2)) => match self.parse_concat(q2) {
                Err(f) => Err(f),
                Ok((r, p3)) => {
                    if p < p3 && p3 <= self.chars.len() {
                        let e = Expr::CmpOp { op, left: Box::new(left), right: Box::new(r) };
                        self.parse_comparison_rest(p3, e)
                    } else {
                        Err(ParseFail::Invalid)
                    }
                },
            },
        }
    }

    fn parse_concat(&self, p: usize) -> (r: Result<(Expr, usize), ParseFail>)
        requires
            p <= self.chars@.len(),
        ensures
            spec_parse_ok(r, spec_concat(self.chars@, p as int)),
            r matches Ok((_, q)) ==> p <= q <= self.chars@.len(),
        decreases 8 * (self.chars@.len() - p) + 4, 0int,
    {
        match self.parse_sum(p) {
            Err(f) => Err(f),
            Ok((l, p1)) => {
                if p < p1 && p1 <= self.chars.len() {
                    self.parse_concat_rest(p1, l)
                } else {
                    Err(ParseFail::Invalid)
                }
            },
        }
    }

    fn parse_concat_rest(&self, p: usize, left: Expr) -> (r: Result<(Expr, usize), ParseFail>)
        requires
            p <= self.chars@.len(),
        ensures
            spec_parse_ok(r, spec_concat_rest(self.chars@, p as int, spec_view(left))),
            r matches Ok((_, q)) ==> p <= q <= self.chars@.len(),
        decreases 8 * (self.chars@.len() - p) + 4, 1int,
    {
        proof {
            self.lemma_len_fits();
        }
        let q = self.skip_whitespace(p);
        if self.at(q, '&') {
            match self.parse_sum(q + 1) {
                Err(f) => Err(f),
                Ok((r, p3)) => {
                    if p < p3 && p3 <= self.chars.len() {
                        let e = Expr::BinOp {
                            op: BinOp::Concat,
                            left: Box::new(left),
                            right: Box::new(r),
                        };
                        self.parse_concat_rest(p3, e)
                    } else {
                        Err(ParseFail::Invalid)
                    }
                },
            }
        } else {
            Ok((left, q))
        }
    }

    fn parse_sum(&self, p: usize) -> (r: Result<(Expr, usize), ParseFail>)
        requires
            p <= self.chars@.len(),
        ensures
            spec_parse_ok(r, spec_sum(self.chars@, p as int)),
            r matches Ok((_, q)) ==> p <= q <= self.chars@.len(),
        decreases 8 * (self.chars@.len() - p) + 3, 0int,
    {
        match self.parse_product(p) {
            Err(f) => Err(f),
            Ok((l, p1)) => {
                if p < p1 && p1 <= self.chars.len() {
                    self.parse_sum_rest(p1, l)
                } else {
                    Err(ParseFail::Invalid)
                }
            },
        }
    }

    fn parse_sum_rest(&self, p: usize, left: Expr) -> (r: Result<(Expr, usize), ParseFail>)
        requires
            p <= self.chars@.len(),
        ensures
            spec_parse_ok(r, spec_sum_rest(self.chars@, p as int, spec_view(left))),
            r matches Ok((_, q)) ==> p <= q <= self.chars@.len(),
        decreases 8 * (self.chars@.len() - p) + 3, 1int,
    {
        proof {
            self.lemma_len_fits();
        }
        let q = self.skip_whitespace(p);
        if self.at(q, '+') || self.at(q, '-') {
            let op = if self.at(q, '+') {
                BinOp::Add
            } else {
                BinOp::Sub
            };
            match self.parse_product(q + 1) {
                Err(f) => Err(f),
                Ok((r, p3)) => {
                    if p < p3 && p3 <= self.chars.len() {
                        let e = Expr::BinOp { op, left: Box::new(left), right: Box::new(r) };
                        self.parse_sum_rest(p3, e)
                    } else {
                        Err(ParseFail::Invalid)
                    }
                },
            }
        } else {
            Ok((left, q))
        }
    }

    fn parse_product(&self, p: usize) -> (r: Result<(Expr, usize), ParseFail>)
        requires
            p <= self.chars@.len(),
        ensures
            spec_parse_ok(r, spec_product(self.chars@, p as int)),
            r matches Ok((_, q)) ==> p <= q <= self.chars@.len(),
        decreases 8 * (self.chars@.len() - p) + 2, 0int,
    {
        match self.parse_factor(p) {
            Err(f) => Err(f),
            Ok((l, p1)) => {
                if p < p1 && p1 <= self.chars.len() {
                    self.parse_product_rest(p1, l)
                } else {
                    Err(ParseFail::Invalid)
                }
            },
        }
    }

    fn parse_product_rest(&self, p: usize, left: Expr) -> (r: Result<(Expr, usize), ParseFail>)
        requires
            p <= self.chars@.len(),
        ensures
            spec_parse_ok(r, spec_product_rest(self.chars@, p as int, spec_view(left))),
            r matches Ok((_, q)) ==> p <= q <= self.chars@.len(),
        decreases 8 * (self.chars@.len() - p) + 2, 1int,
    {
        proof {
            self.lemma_len_fits();
        }
        let q = self.skip_whitespace(p);
        if self.at(q, '*') || self.at(q, '/') {
            let op = if self.at(q, '*') {
                BinOp::Mul
            } else {
                BinOp::Div
            };
            match self.parse_factor(q + 1) {
                Err(f) => Err(f),
                Ok((r, p3)) => {
                    if p < p3 && p3 <= self.chars.len() {
                        let e = Expr::BinOp { op, left: Box::new(left), right: Box::new(r) };
                        self.parse_product_rest(p3, e)
                    } else {
                        Err(ParseFail::Invalid)
                    }
                },
            }
        } else {
            Ok((left, q))
        }
    }

    fn parse_factor(&self, p: usize) -> (r: Result<(Expr, usize), ParseFail>)
        requires
            p <= self.chars@.len(),
        ensures
            spec_parse_ok(r, spec_factor(self.chars@, p as int)),
            r matches Ok((_, q)) ==> p <= q <= self.chars@.len(),
        decreases 8 * (self.chars@.len() - p) + 1, 0int,
    {
        proof {
            self.lemma_len_fits();
        }
        let q = self.skip_whitespace(p);
        match self.peek(q) {
            None => Err(ParseFail::Invalid),
            Some(ch) => {
                if ch == '+' {
                    self.parse_factor(q + 1)
                } else if ch == '-' {
                    match self.parse_factor(q + 1) {
                        Err(f) => Err(f),
                        Ok((x, p1)) => Ok((Expr::Neg(Box::new(x)), p1)),
                    }
                } else if ch == '@' {
                    match self.parse_factor(q + 1) {
                        Err(f) => Err(f),
                        Ok((x, p1)) => Ok((Expr::Intersect(Box::new(x)), p1)),
                    }
                } else if ch == '(' {
                    match self.parse_comparison(q + 1) {
                        Err(f) => Err(f),
                        Ok((x, p1)) => {
                            let r = self.skip_whitespace(p1);
                            if self.at(r, ')') {
                                Ok((x, r + 1))
                            } else {
                                Err(ParseFail::Invalid)
                            }
                        },
                    }
                } else if ch == '"' {
                    match self.parse_string_literal(q + 1) {
                        None => Err(ParseFail::Invalid),
                        Some((v, e)) => Ok((Expr::Str(string_from_chars(&v)), e)),
                    }
                } else if is_ascii_digit(ch) || ch == '.' {
                    self.parse_number(q)
                } else if is_cell_name_start(ch) {
                    self.parse_identifier_or_call(q)
                } else {
                    Err(ParseFail::Invalid)
                }
            },
        }
    }

    /// The body of a string literal starting at `i` (after the opening quote).
    fn parse_string_literal(&self, i: usize) -> (r: Option<(Vec<char>, usize)>)
        requires
            i <= self.chars@.len(),
        ensures
            match spec_str_body(self.chars@, i as int) {
                Some((v, e)) => match r {
                    Some((v2, e2)) => v2@ == v && e2 == e,
                    None => false,
                },
                None => r is None,
            },
            r matches Some((_, e)) ==> i < e <= self.chars@.len(),
    {
        let ghost s = self.chars@;
        proof {
            if spec_str_body(s, i as int) is Some {
                lemma_str_body_end(s, i as int);
            }
        }
        let mut value: Vec<char> = Vec::new();
        let mut k: usize = i;
        while k < self.chars.len()
            invariant
                i <= k <= self.chars@.len() + 1,
                s == self.chars@,
                spec_str_body(s, i as int) == match spec_str_body(s, k as int) {
                    Some((v, e)) => Some((value@ + v, e)),
                    None => None,
                },
            decreases self.chars@.len() + 1 - k,
        {
            let ch = self.chars[k];
            let ghost before = value@;
            if ch == '"' {
                if self.at(k + 1, '"') {
                    value.push('"');
                    proof {
                        assert(forall|v: Seq<char>| before + (seq!['"'] + v) =~= value@ + v);
                    }
                    k += 2;
                } else {
                    proof {
                        assert(before + Seq::<char>::empty() =~= before);
                    }
                    return Some((value, k + 1));
                }
            } else {
                value.push(ch);
                proof {
                    assert(forall|v: Seq<char>| before + (seq![ch] + v) =~= value@ + v);
                }
                k += 1;
            }
        }
        None
    }

    fn mantissa_end(&self, p: usize) -> (r: usize)
        requires
            p <= self.chars@.len(),
        ensures
            r == spec_mantissa_end(self.chars@, p as int),
            p <= r <= self.chars@.len(),
    {
        proof {
            lemma_mantissa_end(self.chars@, p as int);
        }
        let mut k = p;
        while k < self.chars.len() && (is_ascii_digit(self.chars[k]) || self.chars[k] == '.')
            invariant
                p <= k <= self.chars@.len(),
                spec_mantissa_end(self.chars@, k as int) == spec_mantissa_end(self.chars@, p as int),
            decreases self.chars.len() - k,
        {
            k += 1;
        }
        k
    }

    fn digits_end(&self, p: usize) -> (r: usize)
        requires
            p <= self.chars@.len(),
        ensures
            r == spec_digits_end(self.chars@, p as int),
            p <= r <= self.chars@.len(),
    {
        proof {
            lemma_digits_end(self.chars@, p as int);
        }
        let mut k = p;
        while k < self.chars.len() && is_ascii_digit(self.chars[k])
            invariant
                p <= k <= self.chars@.len(),
                spec_digits_end(self.chars@, k as int) == spec_digits_end(self.chars@, p as int),
            decreases self.chars.len() - k,
        {
            k += 1;
        }
        k
    }

    /// Whether `self.chars[a..b]` is a valid mantissa (at most one dot, at least
    /// one digit).
    fn valid_mantissa(&self, a: usize, b: usize) -> (r: bool)
        requires
            a <= b <= self.chars@.len(),
        ensures
            r == spec_valid_mantissa(self.chars@.subrange(a as int, b as int)),
    {
        let ghost m = self.chars@.subrange(a as int, b as int);
        let mut dots: usize = 0;
        let mut digit = false;
        let mut k = a;
        while k < b
            invariant
                a <= k <= b <= self.chars@.len(),
                m == self.chars@.subrange(a as int, b as int),
                dots <= 1,
                dots == 0 ==> forall|t: int| 0 <= t < k - a ==> #[trigger] m[t] != '.',
                dots == 1 ==> exists|t: int| 0 <= t < k - a && #[trigger] m[t] == '.',
                forall|x: int, y: int| 0 <= x < y < k - a ==> !(#[trigger] m[x] == '.' && #[trigger] m[y] == '.'),
                digit == exists|t: int| 0 <= t < k - a && spec_is_digit(#[trigger] m[t]),
            decreases b - k,
        {
            let c = self.chars[k];
            proof {
                assert(m[k - a] == c);
            }
            if c == '.' {
                if dots == 1 {
                    proof {
                        let t = choose|t: int| 0 <= t < k - a && #[trigger] m[t] == '.';
                        assert(m[t] == '.' && m[k - a] == '.');
                    }
                    return false;
                }
                dots = 1;
            }
            if is_ascii_digit(c) {
                digit = true;
            }
            k += 1;
        }
        digit
    }

    fn parse_number(&self, p: usize) -> (r: Result<(Expr, usize), ParseFail>)
        requires
            p <= self.chars@.len(),
        ensures
            spec_parse_ok(r, spec_parse_number(self.chars@, p as int)),
            r matches Ok((_, q)) ==> p <= q <= self.chars@.len(),
    {
        proof {
            self.lemma_len_fits();
        }
        let e1 = self.mantissa_end(p);
        let end = if self.at(e1, 'e') || self.at(e1, 'E') {
            let e2 = if self.at(e1 + 1, '+') || self.at(e1 + 1, '-') {
                e1 + 2
            } else {
                e1 + 1
            };
            let e3 = self.digits_end(e2);
            if e3 == e2 {
                return Err(ParseFail::Invalid);
            }
            e3
        } else {
            e1
        };
        if !self.valid_mantissa(p, e1) {
            return Err(ParseFail::Invalid);
        }
        let text = slice_chars(&self.chars, p, end);
        Ok((Expr::Number(string_from_chars(&text)), end))
    }

    /// The A1 name after a range colon at `p - 1`, and the index after it.
    fn range_end(&self, p: usize) -> (r: Option<(Vec<char>, usize)>)
        requires
            p <= self.chars@.len(),
        ensures
            match spec_range_end(self.chars@, p as int) {
                Some((n, e)) => match r {
                    Some((n2, e2)) => n2@ == n && e2 == e,
                    None => false,
                },
                None => r is None,
            },
            r matches Some((_, e)) ==> p <= e <= self.chars@.len(),
    {
        let r = self.skip_whitespace(p);
        if r < self.chars.len() && is_cell_name_start(self.chars[r]) {
            let e2 = self.name_end(r);
            let name = slice_chars(&self.chars, r, e2);
            if parse_a1_chars(&name).is_some() {
                Some((name, e2))
            } else {
                None
            }
        } else {
            None
        }
    }

    fn parse_identifier_or_call(&self, p: usize) -> (r: Result<(Expr, usize), ParseFail>)
        requires
            p <= self.chars@.len(),
        ensures
            spec_parse_ok(r, spec_identifier(self.chars@, p as int)),
            r matches Ok((_, q)) ==> p <= q <= self.chars@.len(),
        decreases 8 * (self.chars@.len() - p) + 0, 0int,
    {
        proof {
            self.lemma_len_fits();
        }
        let e = self.name_end(p);
        let name = slice_chars(&self.chars, p, e);
        let is_a1 = parse_a1_chars(&name).is_some();
        if self.at(e, '#') && is_a1 {
            return Ok((Expr::SpillRef(string_from_chars(&name)), e + 1));
        }
        let q = self.skip_whitespace(e);
        if self.at(q, '(') {
            let upper = upper_chars(&name);
            match self.parse_call_args(q + 1, &upper) {
                Err(f) => Err(f),
                Ok((args, p1)) => {
                    let r = self.skip_whitespace(p1);
                    if self.at(r, ')') {
                        Ok((Expr::Call { name: string_from_chars(&name), args }, r + 1))
                    } else {
                        Err(ParseFail::Invalid)
                    }
                },
            }
        } else if self.at(q, ':') && is_a1 {
            match self.range_end(q + 1) {
                Some((end_name, e2)) => {
                    let start_s = string_from_chars(&name);
                    let end_s = string_from_chars(&end_name);
                    match a1_range_size(start_s.as_str(), end_s.as_str()) {
                        Err(_) => Err(ParseFail::RangeTooLarge),
                        Ok(_) => Ok((Expr::Range { start: start_s, end: end_s }, e2)),
                    }
                },
                None => Ok((Expr::Cell(string_from_chars(&name)), q)),
            }
        } else {
            Ok((Expr::Cell(string_from_chars(&name)), q))
        }
    }

    fn parse_call_args(&self, p: usize, upper: &Vec<char>) -> (r: Result<(Vec<Expr>, usize), ParseFail>)
        requires
            p <= self.chars@.len(),
        ensures
            match r {
                Ok((args, q)) => spec_call_args(self.chars@, p as int, upper@) == Ok::<
                    (Seq<SpecExpr>, int),
                    ParseFail,
                >((spec_view_seq(args@, 0), q as int)) && p <= q <= self.chars@.len(),
                Err(f) => spec_call_args(self.chars@, p as int, upper@) == Err::<
                    (Seq<SpecExpr>, int),
                    ParseFail,
                >(f),
            },
        decreases 8 * (self.chars@.len() - p) + 7, 0int,
    {
        let q = self.skip_whitespace(p);
        if self.at(q, ')') {
            let v: Vec<Expr> = Vec::new();
            proof {
                assert(spec_view_seq(v@, 0) =~= Seq::<SpecExpr>::empty());
            }
            return Ok((v, q));
        }
        self.parse_args_from(q, upper, Vec::new())
    }

    fn factor_arg(upper: &Vec<char>, index: usize) -> (r: bool)
        ensures
            r == spec_factor_arg(upper@, index as int),
    {
        let datedif: Vec<char> = vec!['D', 'A', 'T', 'E', 'D', 'I', 'F'];
        let datevalue: Vec<char> = vec!['D', 'A', 'T', 'E', 'V', 'A', 'L', 'U', 'E'];
        proof {
            assert(datedif@ =~= spec_datedif_name());
            assert(datevalue@ =~= spec_datevalue_name());
        }
        (chars_same(upper, &datedif) && index == 2) || chars_same(upper, &datevalue)
    }

    fn parse_args_from(&self, p: usize, upper: &Vec<char>, acc: Vec<Expr>) -> (r: Result<
        (Vec<Expr>, usize),
        ParseFail,
    >)
        requires
            p <= self.chars@.len(),
        ensures
            match r {
                Ok((args, q)) => spec_args_from(self.chars@, p as int, upper@, spec_view_seq(acc@, 0))
                    == Ok::<(Seq<SpecExpr>, int), ParseFail>((spec_view_seq(args@, 0), q as int))
                    && p <= q <= self.chars@.len(),
                Err(f) => spec_args_from(self.chars@, p as int, upper@, spec_view_seq(acc@, 0))
                    == Err::<(Seq<SpecExpr>, int), ParseFail>(f),
            },
        decreases 8 * (self.chars@.len() - p) + 6, 0int,
    {
        proof {
            self.lemma_len_fits();
        }
        let ghost acc_view = spec_view_seq(acc@, 0);
        proof {
            lemma_view_seq_index(acc@, 0);
        }
        let arg = if Self::factor_arg(upper, acc.len()) {
            self.parse_factor(p)
        } else {
            self.parse_comparison(p)
        };
        match arg {
            Err(f) => Err(f),
            Ok((a, p1)) => {
                proof {
                    lemma_view_seq_push(acc@, a);
                }
                let mut acc = acc;
                let q = self.skip_whitespace(p1);
                if self.at(q, ',') {
                    let r = self.skip_whitespace(q + 1);
                    if p < r && r <= self.chars.len() {
                        acc.push(a);
                        self.parse_args_from(r, upper, acc)
                    } else {
                        Err(ParseFail::Invalid)
                    }
                } else if self.at(q, ')') {
                    acc.push(a);
                    Ok((acc, q))
                } else {
                    Err(ParseFail::Invalid)
                }
            },
        }
    }
}

fn chars_same(a: &Vec<char>, b: &Vec<char>) -> (r: bool)
    ensures
        r == (a@ == b@),
{
    if a.len() != b.len() {
        return false;
    }
    let mut i: usize = 0;
    while i < a.len()
        invariant
            a@.len() == b@.len(),
            i <= a@.len(),
            forall|k: int| 0 <= k < i ==> a@[k] == b@[k],
        decreases a.len() - i,
    {
        if a[i] != b[i] {
            return false;
        }
        i += 1;
    }
    proof {
        assert(a@ =~= b@);
    }
    true
}


// ---------------------------------------------------------------------------
// Parsing a formula
// ---------------------------------------------------------------------------

/// Parses a formula (surrounding whitespace and one leading `=` allowed).
/// Bad syntax is `InvalidFormula` carrying the formula text; a range literal
/// over the cell limit is `#NUM!`.
pub fn parse_formula(expression: &str) -> (r: Result<Expr, SpreadsheetError>)
    ensures
        match spec_parse_formula_text(spec_formula_text(expression@)) {
            Ok(x) => r is Ok && spec_view(r->Ok_0) == x,
            Err(ParseFail::Invalid) => r matches Err(SpreadsheetError::InvalidFormula(t)) && t@
                == spec_formula_text(expression@),
            Err(ParseFail::RangeTooLarge) => r matches Err(SpreadsheetError::Num),
        },
{
    let raw = chars_of(expression);
    let text = formula_text_chars(&raw);
    let parser = AstParser { chars: text };
    let ghost e = parser.chars@;
    match parser.parse_comparison(0) {
        Err(ParseFail::Invalid) => Err(SpreadsheetError::InvalidFormula(string_from_chars(&parser.chars))),
        Err(ParseFail::RangeTooLarge) => Err(SpreadsheetError::Num),
        Ok((x, p)) => {
            let q = parser.skip_whitespace(p);
            if q < parser.chars.len() {
                Err(SpreadsheetError::InvalidFormula(string_from_chars(&parser.chars)))
            } else {
                Ok(x)
            }
        },
    }
}

// ---------------------------------------------------------------------------
// Laws of the parser
// ---------------------------------------------------------------------------

/// After a term, `-` and the product that follows build a subtraction and
/// `+` an addition, with the term on the left; the sum goes on after the
/// product.
pub proof fn lemma_sum_operator(s: Seq<char>, p: int, left: SpecExpr, r: SpecExpr, p3: int)
    requires
        0 <= p <= s.len(),
        spec_at(s, spec_skip_ws(s, p), '-') || spec_at(s, spec_skip_ws(s, p), '+'),
        spec_product(s, spec_skip_ws(s, p) + 1) == Ok::<(SpecExpr, int), ParseFail>((r, p3)),
        p < p3 <= s.len(),
    ensures
        spec_at(s, spec_skip_ws(s, p), '-') ==> spec_sum_rest(s, p, left) == spec_sum_rest(
            s,
            p3,
            SpecExpr::BinOp { op: BinOp::Sub, left: Box::new(left), right: Box::new(r) },
        ),
        spec_at(s, spec_skip_ws(s, p), '+') ==> spec_sum_rest(s, p, left) == spec_sum_rest(
            s,
            p3,
            SpecExpr::BinOp { op: BinOp::Add, left: Box::new(left), right: Box::new(r) },
        ),
{
}

/// After a factor, `*` and the factor that follows build a product and `/`
/// a quotient, with the first factor on the left.
pub proof fn lemma_product_operator(s: Seq<char>, p: int, left: SpecExpr, r: SpecExpr, p3: int)
    requires
        0 <= p <= s.len(),
        spec_at(s, spec_skip_ws(s, p), '*') || spec_at(s, spec_skip_ws(s, p), '/'),
        spec_factor(s, spec_skip_ws(s, p) + 1) == Ok::<(SpecExpr, int), ParseFail>((r, p3)),
        p < p3 <= s.len(),
    ensures
        spec_at(s, spec_skip_ws(s, p), '*') ==> spec_product_rest(s, p, left) == spec_product_rest(
            s,
            p3,
            SpecExpr::BinOp { op: BinOp::Mul, left: Box::new(left), right: Box::new(r) },
        ),
        spec_at(s, spec_skip_ws(s, p), '/') ==> spec_product_rest(s, p, left) == spec_product_rest(
            s,
            p3,
            SpecExpr::BinOp { op: BinOp::Div, left: Box::new(left), right: Box::new(r) },
        ),
{
}

/// After a sum, `&` and the sum that follows build a concatenation, with the
/// first sum on the left.
pub proof fn lemma_concat_operator(s: Seq<char>, p: int, left: SpecExpr, r: SpecExpr, p3: int)
    requires
        0 <= p <= s.len(),
        spec_at(s, spec_skip_ws(s, p), '&'),
        spec_sum(s, spec_skip_ws(s, p) + 1) == Ok::<(SpecExpr, int), ParseFail>((r, p3)),
        p < p3 <= s.len(),
    ensures
        spec_concat_rest(s, p, left) == spec_concat_rest(
            s,
            p3,
            SpecExpr::BinOp { op: BinOp::Concat, left: Box::new(left), right: Box::new(r) },
        ),
{
}

/// Which comparison each operator text denotes, and where it ends: the
/// two-character operators are read whole.
pub proof fn lemma_comparison_operator_text(s: Seq<char>, q: int)
    ensures
        spec_at(s, q, '>') && spec_at(s, q + 1, '=') ==> spec_comparison_operator(s, q) == Some(
            (CmpOp::Ge, q + 2),
        ),
        spec_at(s, q, '<') && spec_at(s, q + 1, '=') ==> spec_comparison_operator(s, q) == Some(
            (CmpOp::Le, q + 2),
        ),
        spec_at(s, q, '<') && spec_at(s, q + 1, '>') ==> spec_comparison_operator(s, q) == Some(
            (CmpOp::Ne, q + 2),
        ),
        spec_at(s, q, '!') && spec_at(s, q + 1, '=') ==> spec_comparison_operator(s, q) == Some(
            (CmpOp::Ne, q + 2),
        ),
        spec_at(s, q, '=') && spec_at(s, q + 1, '=') ==> spec_comparison_operator(s, q) == Some(
            (CmpOp::Eq, q + 2),
        ),
        spec_at(s, q, '=') && !spec_at(s, q + 1, '=') ==> spec_comparison_operator(s, q) == Some(
            (CmpOp::Eq, q + 1),
        ),
        spec_at(s, q, '>') && !spec_at(s, q + 1, '=') ==> spec_comparison_operator(s, q) == Some(
            (CmpOp::Gt, q + 1),
        ),
        spec_at(s, q, '<') && !spec_at(s, q + 1, '=') && !spec_at(s, q + 1, '>')
            ==> spec_comparison_operator(s, q) == Some((CmpOp::Lt, q + 1)),
        !spec_at(s, q, '>') && !spec_at(s, q, '<') && !spec_at(s, q, '=') && !spec_at(s, q, '!')
            ==> spec_comparison_operator(s, q) is None,
{
}

/// A formula that is two concatenations joined by a comparison operator
/// parses as that comparison, with the first on the left.
pub proof fn lemma_parse_comparison_of_two(
    s: Seq<char>,
    l: SpecExpr,
    p1: int,
    op: CmpOp,
    q2: int,
    r: SpecExpr,
    p3: int,
)
    requires
        spec_concat(s, 0) == Ok::<(SpecExpr, int), ParseFail>((l, p1)),
        0 < p1 <= s.len(),
        spec_comparison_operator(s, spec_skip_ws(s, p1)) == Some((op, q2)),
        spec_concat(s, q2) == Ok::<(SpecExpr, int), ParseFail>((r, p3)),
        p1 < p3 <= s.len(),
        spec_skip_ws(s, p3) == s.len(),
    ensures
        spec_parse_formula_text(s) == Ok::<SpecExpr, ParseFail>(
            SpecExpr::CmpOp { op, left: Box::new(l), right: Box::new(r) },
        ),
{
    let n = s.len() as int;
    let x = SpecExpr::CmpOp { op, left: Box::new(l), right: Box::new(r) };
    assert(spec_skip_ws(s, n) == n);
    assert(spec_comparison_operator(s, n) is None);
    assert(spec_comparison_rest(s, p3, x) == Ok::<(SpecExpr, int), ParseFail>((x, n)));
    assert(spec_comparison_rest(s, p1, l) == Ok::<(SpecExpr, int), ParseFail>((x, n)));
    assert(spec_comparison(s, 0) == Ok::<(SpecExpr, int), ParseFail>((x, n)));
}

/// A factor that starts with `-` is the negation of the factor after the
/// sign, one that starts with `@` its implicit intersection, and one that
/// starts with `+` that factor itself.
pub proof fn lemma_factor_prefix(s: Seq<char>, p: int, x: SpecExpr, e: int)
    requires
        0 <= p <= s.len(),
        spec_factor(s, spec_skip_ws(s, p) + 1) == Ok::<(SpecExpr, int), ParseFail>((x, e)),
    ensures
        spec_at(s, spec_skip_ws(s, p), '-') ==> spec_factor(s, p) == Ok::<(SpecExpr, int), ParseFail>(
            (SpecExpr::Neg(Box::new(x)), e),
        ),
        spec_at(s, spec_skip_ws(s, p), '@') ==> spec_factor(s, p) == Ok::<(SpecExpr, int), ParseFail>(
            (SpecExpr::Intersect(Box::new(x)), e),
        ),
        spec_at(s, spec_skip_ws(s, p), '+') ==> spec_factor(s, p) == Ok::<(SpecExpr, int), ParseFail>((x, e)),
{
    lemma_skip_ws_bounds(s, p);
}

proof fn lemma_str_body_of_escaped(t: Seq<char>, prefix: Seq<char>)
    ensures
        spec_str_body(
            prefix + crate::parser::spec_escape_quotes(t) + seq!['"'],
            prefix.len() as int,
        ) == Some((t, (prefix.len() + crate::parser::spec_escape_quotes(t).len() + 1) as int)),
    decreases t.len(),
{
    let esc = crate::parser::spec_escape_quotes(t);
    let s = prefix + esc + seq!['"'];
    let i = prefix.len() as int;
    if t.len() == 0 {
        assert(esc =~= Seq::<char>::empty());
        assert(s[i] == '"');
        assert(s.len() == i + 1);
        assert(t =~= Seq::<char>::empty());
    } else {
        let head = if t[0] == '"' {
            seq!['"', '"']
        } else {
            seq![t[0]]
        };
        let p2 = prefix + head;
        let rest = crate::parser::spec_escape_quotes(t.drop_first());
        assert(esc =~= head + rest);
        assert(s =~= p2 + rest + seq!['"']);
        lemma_str_body_of_escaped(t.drop_first(), p2);
        assert(s[i] == head[0]);
        if t[0] == '"' {
            assert(s[i + 1] == '"');
            assert(seq!['"'] + t.drop_first() =~= t);
        } else {
            assert(seq![t[0]] + t.drop_first() =~= t);
        }
    }
}

/// A formula that is one string literal parses as that text: quoting any
/// text (quotes doubled) and parsing it gives the text back.
pub proof fn lemma_parse_quoted_text(t: Seq<char>)
    ensures
        spec_parse_formula_text(crate::parser::spec_excel_quote(t)) == Ok::<SpecExpr, ParseFail>(
            SpecExpr::Str(t),
        ),
{
    let s = crate::parser::spec_excel_quote(t);
    let n = s.len() as int;
    let x = SpecExpr::Str(t);
    lemma_str_body_of_escaped(t, seq!['"']);
    assert(seq!['"'] + crate::parser::spec_escape_quotes(t) + seq!['"'] == s);
    assert(s[0] == '"');
    assert(spec_skip_ws(s, 0) == 0);
    assert(spec_str_body(s, 1) == Some((t, n)));
    assert(spec_factor(s, 0) == Ok::<(SpecExpr, int), ParseFail>((x, n)));
    lemma_whole_factor(s, x);
}

/// A text that is one factor, up to its end, is a whole formula.
proof fn lemma_whole_factor(s: Seq<char>, x: SpecExpr)
    requires
        s.len() > 0,
        spec_factor(s, 0) == Ok::<(SpecExpr, int), ParseFail>((x, s.len() as int)),
    ensures
        spec_parse_formula_text(s) == Ok::<SpecExpr, ParseFail>(x),
{
    let n = s.len() as int;
    assert(spec_skip_ws(s, n) == n);
    assert(spec_product_rest(s, n, x) == Ok::<(SpecExpr, int), ParseFail>((x, n)));
    assert(spec_product(s, 0) == Ok::<(SpecExpr, int), ParseFail>((x, n)));
    assert(spec_sum_rest(s, n, x) == Ok::<(SpecExpr, int), ParseFail>((x, n)));
    assert(spec_sum(s, 0) == Ok::<(SpecExpr, int), ParseFail>((x, n)));
    assert(spec_concat_rest(s, n, x) == Ok::<(SpecExpr, int), ParseFail>((x, n)));
    assert(spec_concat(s, 0) == Ok::<(SpecExpr, int), ParseFail>((x, n)));
    assert(spec_comparison_operator(s, n) is None);
    assert(spec_comparison_rest(s, n, x) == Ok::<(SpecExpr, int), ParseFail>((x, n)));
    assert(spec_comparison(s, 0) == Ok::<(SpecExpr, int), ParseFail>((x, n)));
}

proof fn lemma_name_end_all(s: Seq<char>, p: int)
    requires
        0 <= p <= s.len(),
        forall|k: int| p <= k < s.len() ==> spec_is_cell_name_char(#[trigger] s[k]),
    ensures
        spec_name_end(s, p) == s.len(),
    decreases s.len() - p,
{
    if p < s.len() {
        lemma_name_end_all(s, p + 1);
    }
}

/// A formula that is a name (a letter or `_`, then letters, digits and `_`)
/// is a reference to that name.
pub proof fn lemma_parse_name(s: Seq<char>)
    requires
        s.len() > 0,
        spec_is_cell_name_start(s[0]),
        forall|k: int| 0 <= k < s.len() ==> spec_is_cell_name_char(#[trigger] s[k]),
    ensures
        spec_parse_formula_text(s) == Ok::<SpecExpr, ParseFail>(SpecExpr::Cell(s)),
{
    let n = s.len() as int;
    lemma_name_end_all(s, 0);
    assert(s.subrange(0, n) =~= s);
    assert(!spec_is_ws(s[0]));
    assert(spec_skip_ws(s, 0) == 0);
    assert(spec_skip_ws(s, n) == n);
    assert(spec_identifier(s, 0) == Ok::<(SpecExpr, int), ParseFail>((SpecExpr::Cell(s), n)));
    assert(spec_factor(s, 0) == Ok::<(SpecExpr, int), ParseFail>((SpecExpr::Cell(s), n)));
    lemma_whole_factor(s, SpecExpr::Cell(s));
}

/// A formula that is an A1 name followed by `#` is a spill reference to the
/// array anchored at that cell.
pub proof fn lemma_parse_spill_ref(a: Seq<char>)
    requires
        spec_parse_a1(a) is Some,
        forall|k: int| 0 <= k < a.len() ==> spec_is_cell_name_char(#[trigger] a[k]),
    ensures
        spec_parse_formula_text(a.push('#')) == Ok::<SpecExpr, ParseFail>(SpecExpr::SpillRef(a)),
{
    let s = a.push('#');
    let n = a.len() as int;
    assert(n > 0);
    assert(crate::text::spec_is_alpha(a[0])) by {
        if !crate::text::spec_is_alpha(a[0]) {
            assert(crate::refs::spec_alpha_end(a, 0) == 0);
            assert(spec_parse_a1(a) is None);
        }
    }
    assert forall|k: int| 0 <= k < n implies spec_is_cell_name_char(#[trigger] s[k]) by {
        assert(s[k] == a[k]);
    }
    lemma_name_end_at(s, 0, n);
    assert(s.subrange(0, n) =~= a);
    assert(!spec_is_ws(s[0]));
    assert(spec_skip_ws(s, 0) == 0);
    assert(spec_identifier(s, 0) == Ok::<(SpecExpr, int), ParseFail>((SpecExpr::SpillRef(a), n + 1)));
    assert(spec_factor(s, 0) == Ok::<(SpecExpr, int), ParseFail>((SpecExpr::SpillRef(a), n + 1)));
    lemma_whole_factor(s, SpecExpr::SpillRef(a));
}

/// A formula `a:b` of two A1 names is the range between them; when the range
/// has more cells than the limit, parsing fails as too large.
pub proof fn lemma_parse_range(a: Seq<char>, b: Seq<char>)
    requires
        spec_parse_a1(a) is Some,
        spec_parse_a1(b) is Some,
        forall|k: int| 0 <= k < a.len() ==> spec_is_cell_name_char(#[trigger] a[k]),
        forall|k: int| 0 <= k < b.len() ==> spec_is_cell_name_char(#[trigger] b[k]),
    ensures
        spec_a1_range_size(a, b) is Ok ==> spec_parse_formula_text(a + seq![':'] + b) == Ok::<SpecExpr, ParseFail>(
            SpecExpr::Range { start: a, end: b },
        ),
        spec_a1_range_size(a, b) is Err ==> spec_parse_formula_text(a + seq![':'] + b) == Err::<SpecExpr, ParseFail>(
            ParseFail::RangeTooLarge,
        ),
{
    let s = a + seq![':'] + b;
    let n = s.len() as int;
    let e = a.len() as int;
    assert(crate::text::spec_is_alpha(a[0])) by {
        if !crate::text::spec_is_alpha(a[0]) {
            assert(crate::refs::spec_alpha_end(a, 0) == 0);
        }
    }
    assert(crate::text::spec_is_alpha(b[0])) by {
        if !crate::text::spec_is_alpha(b[0]) {
            assert(crate::refs::spec_alpha_end(b, 0) == 0);
        }
    }
    assert forall|k: int| 0 <= k < e implies spec_is_cell_name_char(#[trigger] s[k]) by {
        assert(s[k] == a[k]);
    }
    assert forall|k: int| e + 1 <= k < n implies spec_is_cell_name_char(#[trigger] s[k]) by {
        assert(s[k] == b[k - e - 1]);
    }
    assert(s[e] == ':');
    lemma_name_end_at(s, 0, e);
    lemma_name_end_all(s, e + 1);
    assert(s.subrange(0, e) =~= a);
    assert(s.subrange(e + 1, n) =~= b);
    assert(s[0] == a[0]);
    assert(s[e + 1] == b[0]);
    assert(spec_skip_ws(s, 0) == 0);
    assert(spec_skip_ws(s, e) == e);
    assert(spec_skip_ws(s, e + 1) == e + 1);
    assert(spec_range_end(s, e + 1) == Some((b, n)));
    if spec_a1_range_size(a, b) is Ok {
        let x = SpecExpr::Range { start: a, end: b };
        assert(spec_identifier(s, 0) == Ok::<(SpecExpr, int), ParseFail>((x, n)));
        assert(spec_factor(s, 0) == Ok::<(SpecExpr, int), ParseFail>((x, n)));
        lemma_whole_factor(s, x);
    } else {
        assert(spec_identifier(s, 0) == Err::<(SpecExpr, int), ParseFail>(ParseFail::RangeTooLarge));
        assert(spec_factor(s, 0) == Err::<(SpecExpr, int), ParseFail>(ParseFail::RangeTooLarge));
        assert(spec_product(s, 0) == Err::<(SpecExpr, int), ParseFail>(ParseFail::RangeTooLarge));
        assert(spec_sum(s, 0) == Err::<(SpecExpr, int), ParseFail>(ParseFail::RangeTooLarge));
        assert(spec_concat(s, 0) == Err::<(SpecExpr, int), ParseFail>(ParseFail::RangeTooLarge));
        assert(spec_comparison(s, 0) == Err::<(SpecExpr, int), ParseFail>(ParseFail::RangeTooLarge));
    }
}

proof fn lemma_mantissa_end_all(s: Seq<char>, p: int)
    requires
        0 <= p <= s.len(),
        forall|k: int| p <= k < s.len() ==> spec_is_digit(#[trigger] s[k]),
    ensures
        spec_mantissa_end(s, p) == s.len(),
    decreases s.len() - p,
{
    if p < s.len() {
        lemma_mantissa_end_all(s, p + 1);
    }
}

/// A formula that is a run of digits is that number, its text kept.
pub proof fn lemma_parse_digits(s: Seq<char>)
    requires
        s.len() > 0,
        forall|k: int| 0 <= k < s.len() ==> spec_is_digit(#[trigger] s[k]),
    ensures
        spec_parse_formula_text(s) == Ok::<SpecExpr, ParseFail>(SpecExpr::Number(s)),
{
    let n = s.len() as int;
    lemma_mantissa_end_all(s, 0);
    assert(spec_number_end(s, 0) == Some(n));
    assert(s.subrange(0, n) =~= s);
    assert(spec_is_digit(s[0]));
    assert(spec_valid_mantissa(s));
    assert(spec_skip_ws(s, 0) == 0);
    assert(spec_parse_number(s, 0) == Ok::<(SpecExpr, int), ParseFail>((SpecExpr::Number(s), n)));
    assert(spec_factor(s, 0) == Ok::<(SpecExpr, int), ParseFail>((SpecExpr::Number(s), n)));
    lemma_whole_factor(s, SpecExpr::Number(s));
}

proof fn lemma_name_end_at(s: Seq<char>, p: int, e: int)
    requires
        0 <= p <= e < s.len(),
        forall|k: int| p <= k < e ==> spec_is_cell_name_char(#[trigger] s[k]),
        !spec_is_cell_name_char(s[e]),
    ensures
        spec_name_end(s, p) == e,
    decreases e - p,
{
    if p < e {
        lemma_name_end_at(s, p + 1, e);
    }
}

/// A formula that is two products joined by `-` parses as their difference,
/// and joined by `+` as their sum.
pub proof fn lemma_parse_two_products(s: Seq<char>, l: SpecExpr, p1: int, r: SpecExpr, p3: int)
    requires
        spec_product(s, 0) == Ok::<(SpecExpr, int), ParseFail>((l, p1)),
        0 < p1 <= s.len(),
        spec_at(s, spec_skip_ws(s, p1), '-') || spec_at(s, spec_skip_ws(s, p1), '+'),
        spec_product(s, spec_skip_ws(s, p1) + 1) == Ok::<(SpecExpr, int), ParseFail>((r, p3)),
        p1 < p3 <= s.len(),
        spec_skip_ws(s, p3) == s.len(),
    ensures
        spec_at(s, spec_skip_ws(s, p1), '-') ==> spec_parse_formula_text(s) == Ok::<SpecExpr, ParseFail>(
            SpecExpr::BinOp { op: BinOp::Sub, left: Box::new(l), right: Box::new(r) },
        ),
        spec_at(s, spec_skip_ws(s, p1), '+') ==> spec_parse_formula_text(s) == Ok::<SpecExpr, ParseFail>(
            SpecExpr::BinOp { op: BinOp::Add, left: Box::new(l), right: Box::new(r) },
        ),
{
    let n = s.len() as int;
    let op = if spec_at(s, spec_skip_ws(s, p1), '-') {
        BinOp::Sub
    } else {
        BinOp::Add
    };
    let x = SpecExpr::BinOp { op, left: Box::new(l), right: Box::new(r) };
    lemma_sum_operator(s, p1, l, r, p3);
    assert(spec_skip_ws(s, n) == n);
    assert(spec_sum_rest(s, p3, x) == Ok::<(SpecExpr, int), ParseFail>((x, n)));
    assert(spec_sum_rest(s, p1, l) == Ok::<(SpecExpr, int), ParseFail>((x, n)));
    assert(spec_sum(s, 0) == Ok::<(SpecExpr, int), ParseFail>((x, n)));
    assert(spec_concat_rest(s, n, x) == Ok::<(SpecExpr, int), ParseFail>((x, n)));
    assert(spec_concat(s, 0) == Ok::<(SpecExpr, int), ParseFail>((x, n)));
    assert(spec_comparison_operator(s, n) is None);
    assert(spec_comparison_rest(s, n, x) == Ok::<(SpecExpr, int), ParseFail>((x, n)));
    assert(spec_comparison(s, 0) == Ok::<(SpecExpr, int), ParseFail>((x, n)));
}

// ---------------------------------------------------------------------------
// Reference analysis
// ---------------------------------------------------------------------------

/// Cells read and work units, or the error of an invalid range.
pub type SpecRefs = Result<(Set<Seq<char>>, int), SpreadsheetError>;

/// Analysis of two parts in order: the first error, else the union of cells
/// and the sum of work.
pub open spec fn spec_join(a: SpecRefs, b: SpecRefs) -> SpecRefs {
    match a {
        Err(x) => Err(x),
        Ok((s1, w1)) => match b {
            Err(y) => Err(y),
            Ok((s2, w2)) => Ok((s1 + s2, w1 + w2)),
        },
    }
}

pub open spec fn spec_no_refs() -> SpecRefs {
    Ok((Set::empty(), 0))
}

/// The name a `LET` binds at an argument: an identifier or a string literal.
pub open spec fn spec_binding_name(e: SpecExpr) -> Option<Seq<char>> {
    match e {
        SpecExpr::Cell(n) => Some(n),
        SpecExpr::Str(n) => Some(n),
        _ => None,
    }
}

pub open spec fn spec_let_fn_name() -> Seq<char> {
    seq!['L', 'E', 'T']
}

/// `LET(name1, value1, …, calculation)`: an odd count of at least three
/// arguments, every name an identifier or a string literal.
pub open spec fn spec_is_let(name: Seq<char>, args: Seq<SpecExpr>) -> bool {
    &&& spec_upper_seq(name) == spec_let_fn_name()
    &&& args.len() >= 3
    &&& args.len() % 2 == 1
    &&& forall|k: int|
        0 <= k < args.len() - 1 && k % 2 == 0 ==> (#[trigger] spec_binding_name(args[k])) is Some
}

/// Cells that a formula reads and its work units, with the names in `bound`
/// (`LET` locals in scope) not being cells. A cell or spill reference is one
/// unit; a range is one unit per cell; a `LET` name binds in the values after
/// it and in the calculation.
pub open spec fn spec_refs(e: SpecExpr, bound: Set<Seq<char>>) -> SpecRefs
    decreases e, 0int,
{
    match e {
        SpecExpr::Number(_) => spec_no_refs(),
        SpecExpr::Str(_) => spec_no_refs(),
        SpecExpr::Cell(n) => if bound.contains(n) {
            spec_no_refs()
        } else {
            Ok((set![n], 1))
        },
        SpecExpr::SpillRef(n) => if bound.contains(n) {
            spec_no_refs()
        } else {
            Ok((set![n], 1))
        },
        SpecExpr::Range { start, end } => match crate::refs::spec_a1_range_cells(start, end) {
            Err(x) => Err(x),
            Ok(cells) => Ok((cells.to_set(), cells.len() as int)),
        },
        SpecExpr::Neg(x) => spec_refs(*x, bound),
        SpecExpr::Intersect(x) => spec_refs(*x, bound),
        SpecExpr::BinOp { op, left, right } => spec_join(spec_refs(*left, bound), spec_refs(*right, bound)),
        SpecExpr::CmpOp { op, left, right } => spec_join(spec_refs(*left, bound), spec_refs(*right, bound)),
        SpecExpr::Call { name, args } => if spec_is_let(name, args) {
            spec_let_refs(args, 0, bound)
        } else {
            spec_args_refs(args, 0, bound)
        },
    }
}

/// Analysis of `args[i..]` in order.
pub open spec fn spec_args_refs(args: Seq<SpecExpr>, i: int, bound: Set<Seq<char>>) -> SpecRefs
    decreases args, args.len() - i,
{
    if 0 <= i < args.len() {
        spec_join(spec_refs(args[i], bound), spec_args_refs(args, i + 1, bound))
    } else {
        spec_no_refs()
    }
}

/// Analysis of the `LET` arguments from the name at `i`: each value with the
/// names before it bound, then the calculation with all of them bound.
pub open spec fn spec_let_refs(args: Seq<SpecExpr>, i: int, bound: Set<Seq<char>>) -> SpecRefs
    decreases args, args.len() - i,
{
    if i < 0 || i >= args.len() {
        spec_no_refs()
    } else if i == args.len() - 1 {
        spec_refs(args[i], bound)
    } else {
        let name = spec_binding_name(args[i]).unwrap();
        spec_join(spec_refs(args[i + 1], bound), spec_let_refs(args, i + 2, bound.insert(name)))
    }
}

/// Analysis of a whole formula (no names bound).
pub open spec fn spec_analysis(e: SpecExpr) -> SpecRefs {
    spec_refs(e, Set::empty())
}

/// `x` capped at `usize::MAX`.
pub open spec fn spec_saturate(x: int) -> int {
    if x > usize::MAX {
        usize::MAX as int
    } else {
        x
    }
}

pub open spec fn spec_names_view(v: Seq<Vec<char>>) -> Seq<Seq<char>> {
    v.map_values(|n: Vec<char>| n@)
}

pub open spec fn spec_names_set(v: Seq<Vec<char>>) -> Set<Seq<char>> {
    spec_names_view(v).to_set()
}

/// Whether `refs` holds, after `old`, the analysis `spec` (or `r` is its error).
pub open spec fn spec_refs_step(
    old_refs: FormulaRefs,
    new_refs: FormulaRefs,
    r: Result<(), SpreadsheetError>,
    spec: SpecRefs,
) -> bool {
    match spec {
        Ok((s, w)) => {
            &&& r is Ok
            &&& new_refs.cells@ == old_refs.cells@ + s
            &&& new_refs.work == spec_saturate(old_refs.work + w)
        },
        Err(x) => r == Err::<(), SpreadsheetError>(x),
    }
}

/// The work units of an analysis are never negative.
pub proof fn lemma_refs_work_nonneg(e: SpecExpr, bound: Set<Seq<char>>)
    ensures
        spec_refs(e, bound) matches Ok((_, w)) ==> w >= 0,
    decreases e, 0int,
{
    match e {
        SpecExpr::Neg(x) => lemma_refs_work_nonneg(*x, bound),
        SpecExpr::Intersect(x) => lemma_refs_work_nonneg(*x, bound),
        SpecExpr::BinOp { op, left, right } => {
            lemma_refs_work_nonneg(*left, bound);
            lemma_refs_work_nonneg(*right, bound);
        },
        SpecExpr::CmpOp { op, left, right } => {
            lemma_refs_work_nonneg(*left, bound);
            lemma_refs_work_nonneg(*right, bound);
        },
        SpecExpr::Call { name, args } => {
            if spec_is_let(name, args) {
                lemma_let_work_nonneg(args, 0, bound);
            } else {
                lemma_args_work_nonneg(args, 0, bound);
            }
        },
        _ => {},
    }
}

/// The work units of an argument list are never negative.
pub proof fn lemma_args_work_nonneg(args: Seq<SpecExpr>, i: int, bound: Set<Seq<char>>)
    ensures
        spec_args_refs(args, i, bound) matches Ok((_, w)) ==> w >= 0,
    decreases args, args.len() - i,
{
    if 0 <= i < args.len() {
        lemma_refs_work_nonneg(args[i], bound);
        lemma_args_work_nonneg(args, i + 1, bound);
    }
}

/// The work units of `LET` arguments are never negative.
pub proof fn lemma_let_work_nonneg(args: Seq<SpecExpr>, i: int, bound: Set<Seq<char>>)
    ensures
        spec_let_refs(args, i, bound) matches Ok((_, w)) ==> w >= 0,
    decreases args, args.len() - i,
{
    if 0 <= i < args.len() {
        if i == args.len() - 1 {
            lemma_refs_work_nonneg(args[i], bound);
        } else {
            let name = spec_binding_name(args[i]).unwrap();
            lemma_refs_work_nonneg(args[i + 1], bound);
            lemma_let_work_nonneg(args, i + 2, bound.insert(name));
        }
    }
}

/// Whether `name` is among `bound`.
fn is_bound(bound: &Vec<Vec<char>>, name: &Vec<char>) -> (r: bool)
    ensures
        r == spec_names_set(bound@).contains(name@),
{
    let mut i: usize = 0;
    while i < bound.len()
        invariant
            i <= bound@.len(),
            forall|k: int| 0 <= k < i ==> bound@[k]@ != name@,
        decreases bound.len() - i,
    {
        if chars_same(&bound[i], name) {
            proof {
                assert(spec_names_view(bound@)[i as int] == name@);
            }
            return true;
        }
        i += 1;
    }
    proof {
        if spec_names_set(bound@).contains(name@) {
            let k = choose|k: int|
                0 <= k < bound@.len() && #[trigger] spec_names_view(bound@)[k] == name@;
            assert(bound@[k]@ == name@);
        }
    }
    false
}

/// Records one reference to `name` unless a `LET` binds it.
fn add_name_ref(name: &String, bound: &Vec<Vec<char>>, refs: &mut FormulaRefs)
    requires
        old(refs).cells.wf(),
    ensures
        final(refs).cells.wf(),
        if spec_names_set(bound@).contains(name@) {
            *final(refs) == *old(refs)
        } else {
            &&& final(refs).cells@ == old(refs).cells@.insert(name@)
            &&& final(refs).work == spec_saturate(old(refs).work + 1)
        },
{
    let chars = chars_of(name.as_str());
    if !is_bound(bound, &chars) {
        refs.cells.insert(name.clone());
        refs.work = refs.work.saturating_add(1);
    }
}

/// Whether a call is a well-formed `LET`.
fn is_let_call(name: &String, args: &Vec<Expr>) -> (r: bool)
    ensures
        r == spec_is_let(name@, spec_view_seq(args@, 0)),
{
    proof {
        lemma_view_seq_index(args@, 0);
    }
    let upper = upper_chars(&chars_of(name.as_str()));
    let let_name: Vec<char> = vec!['L', 'E', 'T'];
    proof {
        assert(let_name@ =~= spec_let_fn_name());
    }
    if !chars_same(&upper, &let_name) || args.len() < 3 || args.len() % 2 != 1 {
        return false;
    }
    let mut k: usize = 0;
    while k + 1 < args.len()
        invariant
            k % 2 == 0,
            k < args@.len(),
            args@.len() % 2 == 1,
            spec_view_seq(args@, 0).len() == args@.len(),
            forall|j: int| 0 <= j < args@.len() ==> #[trigger] spec_view_seq(args@, 0)[j] == spec_view(args@[j]),
            forall|j: int|
                0 <= j < k && j % 2 == 0 ==> (#[trigger] spec_binding_name(spec_view_seq(args@, 0)[j])) is Some,
        decreases args.len() - k,
    {
        match &args[k] {
            Expr::Cell(_) => {},
            Expr::Str(_) => {},
            _ => {
                proof {
                    assert(spec_binding_name(spec_view_seq(args@, 0)[k as int]) is None);
                }
                return false;
            },
        }
        k += 2;
    }
    true
}

/// The name bound by a `LET` name argument.
fn binding_name(e: &Expr) -> (r: Vec<char>)
    requires
        spec_binding_name(spec_view(*e)) is Some,
    ensures
        r@ == spec_binding_name(spec_view(*e)).unwrap(),
{
    match e {
        Expr::Cell(n) => chars_of(n.as_str()),
        Expr::Str(n) => chars_of(n.as_str()),
        _ => Vec::new(),
    }
}

fn collect_refs(e: &Expr, bound: &Vec<Vec<char>>, refs: &mut FormulaRefs) -> (r: Result<(), SpreadsheetError>)
    requires
        old(refs).cells.wf(),
    ensures
        final(refs).cells.wf(),
        spec_refs_step(*old(refs), *final(refs), r, spec_refs(spec_view(*e), spec_names_set(bound@))),
    decreases *e, 0int,
{
    let ghost b = spec_names_set(bound@);
    proof {
        lemma_refs_work_nonneg(spec_view(*e), b);
    }
    match e {
        Expr::Number(_) => {
            proof {
                assert(refs.cells@ + Set::<Seq<char>>::empty() =~= refs.cells@);
            }
            Ok(())
        },
        Expr::Str(_) => {
            proof {
                assert(refs.cells@ + Set::<Seq<char>>::empty() =~= refs.cells@);
            }
            Ok(())
        },
        Expr::Cell(n) => {
            add_name_ref(n, bound, refs);
            proof {
                assert(old(refs).cells@ + Set::<Seq<char>>::empty() =~= old(refs).cells@);
                assert(old(refs).cells@.insert(n@) =~= old(refs).cells@ + set![n@]);
            }
            Ok(())
        },
        Expr::SpillRef(n) => {
            add_name_ref(n, bound, refs);
            proof {
                assert(old(refs).cells@ + Set::<Seq<char>>::empty() =~= old(refs).cells@);
                assert(old(refs).cells@.insert(n@) =~= old(refs).cells@ + set![n@]);
            }
            Ok(())
        },
        Expr::Range { start, end } => {
            let cells = match a1_range_cells(start.as_str(), end.as_str()) {
                Err(x) => {
                    return Err(x);
                },
                Ok(c) => c,
            };
            let ghost names = spec_string_views(cells@);
            let mut k: usize = 0;
            while k < cells.len()
                invariant
                    k <= cells@.len(),
                    names == spec_string_views(cells@),
                    refs.cells.wf(),
                    refs.work == old(refs).work,
                    refs.cells@ == old(refs).cells@ + names.take(k as int).to_set(),
                decreases cells.len() - k,
            {
                refs.cells.insert(cells[k].clone());
                proof {
                    assert(names.take(k + 1) =~= names.take(k as int).push(names[k as int]));
                    names.take(k as int).lemma_push_to_set_commute(names[k as int]);
                    assert(old(refs).cells@ + names.take(k + 1).to_set() =~= (old(refs).cells@
                        + names.take(k as int).to_set()).insert(names[k as int]));
                }
                k += 1;
            }
            proof {
                assert(names.take(cells@.len() as int) =~= names);
            }
            refs.work = refs.work.saturating_add(cells.len());
            Ok(())
        },
        Expr::Neg(x) => collect_refs(x, bound, refs),
        Expr::Intersect(x) => collect_refs(x, bound, refs),
        Expr::BinOp { op, left, right } => {
            proof {
                lemma_refs_work_nonneg(spec_view(**left), b);
                lemma_refs_work_nonneg(spec_view(**right), b);
            }
            match collect_refs(left, bound, refs) {
                Err(x) => Err(x),
                Ok(()) => {
                    let r = collect_refs(right, bound, refs);
                    proof {
                        if r is Ok {
                            assert(refs.cells@ =~= old(refs).cells@ + (spec_refs(spec_view(**left), b).unwrap().0
                                + spec_refs(spec_view(**right), b).unwrap().0));
                        }
                    }
                    r
                },
            }
        },
        Expr::CmpOp { op, left, right } => {
            proof {
                lemma_refs_work_nonneg(spec_view(**left), b);
                lemma_refs_work_nonneg(spec_view(**right), b);
            }
            match collect_refs(left, bound, refs) {
                Err(x) => Err(x),
                Ok(()) => {
                    let r = collect_refs(right, bound, refs);
                    proof {
                        if r is Ok {
                            assert(refs.cells@ =~= old(refs).cells@ + (spec_refs(spec_view(**left), b).unwrap().0
                                + spec_refs(spec_view(**right), b).unwrap().0));
                        }
                    }
                    r
                },
            }
        },
        Expr::Call { name, args } => {
            proof {
                lemma_view_seq_index(args@, 0);
            }
            if is_let_call(name, args) {
                collect_let(args, 0, bound, refs)
            } else {
                collect_args(args, 0, bound, refs)
            }
        },
    }
}


/// Analysis of `args[i..]` in order.
fn collect_args(args: &Vec<Expr>, i: usize, bound: &Vec<Vec<char>>, refs: &mut FormulaRefs) -> (r: Result<
    (),
    SpreadsheetError,
>)
    requires
        old(refs).cells.wf(),
        i <= args@.len(),
    ensures
        final(refs).cells.wf(),
        spec_refs_step(
            *old(refs),
            *final(refs),
            r,
            spec_args_refs(spec_view_seq(args@, 0), i as int, spec_names_set(bound@)),
        ),
    decreases args@, args@.len() - i,
{
    let ghost b = spec_names_set(bound@);
    let ghost sv = spec_view_seq(args@, 0);
    proof {
        lemma_view_seq_index(args@, 0);
    }
    if i >= args.len() {
        proof {
            assert(refs.cells@ + Set::<Seq<char>>::empty() =~= refs.cells@);
        }
        return Ok(());
    }
    proof {
        assert(sv[i as int] == spec_view(args@[i as int]));
        lemma_refs_work_nonneg(sv[i as int], b);
        lemma_args_work_nonneg(sv, i + 1, b);
    }
    match collect_refs(&args[i], bound, refs) {
        Err(x) => Err(x),
        Ok(()) => {
            let r = collect_args(args, i + 1, bound, refs);
            proof {
                if r is Ok {
                    assert(refs.cells@ =~= old(refs).cells@ + (spec_refs(sv[i as int], b).unwrap().0
                        + spec_args_refs(sv, i + 1, b).unwrap().0));
                }
            }
            r
        },
    }
}

/// Analysis of `LET` arguments from the name at `i` (see [`spec_let_refs`]).
fn collect_let(args: &Vec<Expr>, i: usize, bound: &Vec<Vec<char>>, refs: &mut FormulaRefs) -> (r: Result<
    (),
    SpreadsheetError,
>)
    requires
        old(refs).cells.wf(),
        i <= args@.len(),
        spec_is_let_args(spec_view_seq(args@, 0)),
        i % 2 == 0,
    ensures
        final(refs).cells.wf(),
        spec_refs_step(
            *old(refs),
            *final(refs),
            r,
            spec_let_refs(spec_view_seq(args@, 0), i as int, spec_names_set(bound@)),
        ),
    decreases args@, args@.len() - i,
{
    let ghost b = spec_names_set(bound@);
    let ghost sv = spec_view_seq(args@, 0);
    proof {
        lemma_view_seq_index(args@, 0);
    }
    if i >= args.len() {
        proof {
            assert(refs.cells@ + Set::<Seq<char>>::empty() =~= refs.cells@);
        }
        return Ok(());
    }
    if i + 1 == args.len() {
        proof {
            assert(sv[i as int] == spec_view(args@[i as int]));
        }
        return collect_refs(&args[i], bound, refs);
    }
    proof {
        assert(sv[i as int] == spec_view(args@[i as int]));
        assert(sv[i + 1] == spec_view(args@[i + 1]));
        assert(spec_binding_name(sv[i as int]) is Some);
    }
    let name = binding_name(&args[i]);
    let ghost b2 = b.insert(name@);
    proof {
        lemma_refs_work_nonneg(sv[i + 1], b);
        lemma_let_work_nonneg(sv, i + 2, b2);
    }
    match collect_refs(&args[i + 1], bound, refs) {
        Err(x) => Err(x),
        Ok(()) => {
            let ghost nm = name@;
            let mut inner: Vec<Vec<char>> = copy_names(bound);
            inner.push(name);
            proof {
                assert(spec_names_view(inner@) =~= spec_names_view(bound@).push(nm));
                spec_names_view(bound@).lemma_push_to_set_commute(nm);
                assert(spec_names_set(inner@) == b2);
            }
            let r = collect_let(args, i + 2, &inner, refs);
            proof {
                if r is Ok {
                    assert(refs.cells@ =~= old(refs).cells@ + (spec_refs(sv[i + 1], b).unwrap().0
                        + spec_let_refs(sv, i + 2, b2).unwrap().0));
                }
            }
            r
        },
    }
}

/// The arguments of a well-formed `LET` (see [`spec_is_let`]).
pub open spec fn spec_is_let_args(args: Seq<SpecExpr>) -> bool {
    &&& args.len() >= 3
    &&& args.len() % 2 == 1
    &&& forall|k: int|
        0 <= k < args.len() - 1 && k % 2 == 0 ==> (#[trigger] spec_binding_name(args[k])) is Some
}

/// Cells a parsed formula reads and its work units (see [`spec_analysis`]).
/// The work count saturates at `usize::MAX`.
pub fn analyze_from_ast(expr: &Expr) -> (r: Result<FormulaRefs, SpreadsheetError>)
    ensures
        match spec_analysis(spec_view(*expr)) {
            Ok((s, w)) => r is Ok && r->Ok_0.cells.wf() && r->Ok_0.cells@ == s && r->Ok_0.work
                == spec_saturate(w),
            Err(x) => r == Err::<FormulaRefs, SpreadsheetError>(x),
        },
{
    let mut refs = FormulaRefs { cells: CellSet::new(), work: 0 };
    let bound: Vec<Vec<char>> = Vec::new();
    proof {
        assert(spec_names_set(bound@) =~= Set::<Seq<char>>::empty());
    }
    let ghost start = refs;
    match collect_refs(expr, &bound, &mut refs) {
        Err(x) => Err(x),
        Ok(()) => {
            proof {
                assert(start.cells@ =~= Set::<Seq<char>>::empty());
                assert(refs.cells@ =~= spec_analysis(spec_view(*expr)).unwrap().0);
            }
            Ok(refs)
        },
    }
}

/// Parses a formula and analyses its references.
pub fn analyze_formula_refs(expression: &str) -> (r: Result<FormulaRefs, SpreadsheetError>)
    ensures
        match spec_parse_formula_text(spec_formula_text(expression@)) {
            Ok(x) => match spec_analysis(x) {
                Ok((s, w)) => r is Ok && r->Ok_0.cells.wf() && r->Ok_0.cells@ == s && r->Ok_0.work
                    == spec_saturate(w),
                Err(e) => r == Err::<FormulaRefs, SpreadsheetError>(e),
            },
            Err(ParseFail::Invalid) => r matches Err(SpreadsheetError::InvalidFormula(t)) && t@
                == spec_formula_text(expression@),
            Err(ParseFail::RangeTooLarge) => r matches Err(SpreadsheetError::Num),
        },
{
    match parse_formula(expression) {
        Err(e) => Err(e),
        Ok(x) => analyze_from_ast(&x),
    }
}

/// A copy of a list of names.
fn copy_names(v: &Vec<Vec<char>>) -> (r: Vec<Vec<char>>)
    ensures
        r@.len() == v@.len(),
        forall|k: int| 0 <= k < v@.len() ==> #[trigger] r@[k]@ == v@[k]@,
{
    let mut r: Vec<Vec<char>> = Vec::new();
    let mut k: usize = 0;
    while k < v.len()
        invariant
            k <= v@.len(),
            r@.len() == k,
            forall|j: int| 0 <= j < k ==> #[trigger] r@[j]@ == v@[j]@,
        decreases v.len() - k,
    {
        let n = slice_chars(&v[k], 0, v[k].len());
        proof {
            assert(n@ =~= v@[k as int]@);
        }
        r.push(n);
        k += 1;
    }
    r
}

// ---------------------------------------------------------------------------
// Laws of the analysis
// ---------------------------------------------------------------------------

proof fn lemma_join_within(a: SpecRefs, b: SpecRefs)
    requires
        a matches Ok((s, w)) ==> s.finite() && s.len() <= w,
        b matches Ok((s, w)) ==> s.finite() && s.len() <= w,
    ensures
        spec_join(a, b) matches Ok((s, w)) ==> s.finite() && s.len() <= w,
{
    if let Ok((s1, w1)) = a {
        if let Ok((s2, w2)) = b {
            vstd::set_lib::lemma_len_union(s1, s2);
        }
    }
}

/// A formula never reads more distinct cells than its work units: every cell
/// it reads comes from a reference or a range cell, and each counts one unit.
pub proof fn lemma_cells_within_work(e: SpecExpr, bound: Set<Seq<char>>)
    ensures
        spec_refs(e, bound) matches Ok((s, w)) ==> s.finite() && s.len() <= w,
    decreases e, 0int,
{
    match e {
        SpecExpr::Cell(n) => {
            assert(set![n].len() == 1);
        },
        SpecExpr::SpillRef(n) => {
            assert(set![n].len() == 1);
        },
        SpecExpr::Range { start, end } => {
            if let Ok(cells) = crate::refs::spec_a1_range_cells(start, end) {
                cells.lemma_cardinality_of_set();
                vstd::seq_lib::seq_to_set_is_finite(cells);
            }
        },
        SpecExpr::Neg(x) => lemma_cells_within_work(*x, bound),
        SpecExpr::Intersect(x) => lemma_cells_within_work(*x, bound),
        SpecExpr::BinOp { op, left, right } => {
            lemma_cells_within_work(*left, bound);
            lemma_cells_within_work(*right, bound);
            lemma_join_within(spec_refs(*left, bound), spec_refs(*right, bound));
        },
        SpecExpr::CmpOp { op, left, right } => {
            lemma_cells_within_work(*left, bound);
            lemma_cells_within_work(*right, bound);
            lemma_join_within(spec_refs(*left, bound), spec_refs(*right, bound));
        },
        SpecExpr::Call { name, args } => {
            if spec_is_let(name, args) {
                lemma_let_cells_within_work(args, 0, bound);
            } else {
                lemma_args_cells_within_work(args, 0, bound);
            }
        },
        _ => {},
    }
}

proof fn lemma_args_cells_within_work(args: Seq<SpecExpr>, i: int, bound: Set<Seq<char>>)
    ensures
        spec_args_refs(args, i, bound) matches Ok((s, w)) ==> s.finite() && s.len() <= w,
    decreases args, args.len() - i,
{
    if 0 <= i < args.len() {
        lemma_cells_within_work(args[i], bound);
        lemma_args_cells_within_work(args, i + 1, bound);
        lemma_join_within(spec_refs(args[i], bound), spec_args_refs(args, i + 1, bound));
    }
}

proof fn lemma_let_cells_within_work(args: Seq<SpecExpr>, i: int, bound: Set<Seq<char>>)
    ensures
        spec_let_refs(args, i, bound) matches Ok((s, w)) ==> s.finite() && s.len() <= w,
    decreases args, args.len() - i,
{
    if 0 <= i < args.len() {
        if i == args.len() - 1 {
            lemma_cells_within_work(args[i], bound);
        } else {
            let name = spec_binding_name(args[i]).unwrap();
            lemma_cells_within_work(args[i + 1], bound);
            lemma_let_cells_within_work(args, i + 2, bound.insert(name));
            lemma_join_within(
                spec_refs(args[i + 1], bound),
                spec_let_refs(args, i + 2, bound.insert(name)),
            );
        }
    }
}

/// In `LET(x, value, x)` the calculation names the bound value, not a cell:
/// the formula reads what the value reads, and nothing more.
pub proof fn lemma_let_name_not_read(
    name: Seq<char>,
    binder: SpecExpr,
    x: Seq<char>,
    value: SpecExpr,
    b: Set<Seq<char>>,
)
    requires
        spec_upper_seq(name) == spec_let_fn_name(),
        binder == SpecExpr::Cell(x) || binder == SpecExpr::Str(x),
    ensures
        spec_refs(SpecExpr::Call { name, args: seq![binder, value, SpecExpr::Cell(x)] }, b) == spec_refs(
            value,
            b,
        ),
{
    let args = seq![binder, value, SpecExpr::Cell(x)];
    assert(spec_binding_name(args[0]) == Some(x));
    assert forall|k: int|
        0 <= k < args.len() - 1 && k % 2 == 0 implies (#[trigger] spec_binding_name(args[k])) is Some by {
        assert(k == 0);
    }
    assert(spec_is_let(name, args));
    assert(args[1] == value);
    assert(args[2] == SpecExpr::Cell(x));
    assert(b.insert(x).contains(x));
    assert(spec_refs(SpecExpr::Cell(x), b.insert(x)) == spec_no_refs());
    assert(spec_let_refs(args, 2, b.insert(x)) == spec_refs(args[2], b.insert(x)));
    assert(spec_let_refs(args, 2, b.insert(x)) == spec_no_refs());
    assert(spec_let_refs(args, 0, b) == spec_join(spec_refs(value, b), spec_no_refs()));
    if let Ok((s1, w1)) = spec_refs(value, b) {
        assert(s1 + Set::<Seq<char>>::empty() =~= s1);
    }
}

/// `sub` stands in `e`, where the names `sb` are in scope (`b` being those in
/// scope at `e`): a `LET` binds its names in the values after them and in its
/// calculation; the names it binds are not parts of it.
pub open spec fn spec_occurs(sub: SpecExpr, sb: Set<Seq<char>>, e: SpecExpr, b: Set<Seq<char>>) -> bool
    decreases e, 0int,
{
    (sub == e && sb == b) || match e {
        SpecExpr::Neg(x) => spec_occurs(sub, sb, *x, b),
        SpecExpr::Intersect(x) => spec_occurs(sub, sb, *x, b),
        SpecExpr::BinOp { op, left, right } => spec_occurs(sub, sb, *left, b) || spec_occurs(
            sub,
            sb,
            *right,
            b,
        ),
        SpecExpr::CmpOp { op, left, right } => spec_occurs(sub, sb, *left, b) || spec_occurs(
            sub,
            sb,
            *right,
            b,
        ),
        SpecExpr::Call { name, args } => if spec_is_let(name, args) {
            spec_occurs_let(sub, sb, args, 0, b)
        } else {
            spec_occurs_args(sub, sb, args, 0, b)
        },
        _ => false,
    }
}

/// `sub` stands in one of `args[i..]`.
pub open spec fn spec_occurs_args(
    sub: SpecExpr,
    sb: Set<Seq<char>>,
    args: Seq<SpecExpr>,
    i: int,
    b: Set<Seq<char>>,
) -> bool
    decreases args, args.len() - i,
{
    0 <= i < args.len() && (spec_occurs(sub, sb, args[i], b) || spec_occurs_args(sub, sb, args, i + 1, b))
}

/// `sub` stands in a value or the calculation of the `LET` arguments from the
/// name at `i`.
pub open spec fn spec_occurs_let(
    sub: SpecExpr,
    sb: Set<Seq<char>>,
    args: Seq<SpecExpr>,
    i: int,
    b: Set<Seq<char>>,
) -> bool
    decreases args, args.len() - i,
{
    if i < 0 || i >= args.len() {
        false
    } else if i == args.len() - 1 {
        spec_occurs(sub, sb, args[i], b)
    } else {
        spec_occurs(sub, sb, args[i + 1], b) || spec_occurs_let(
            sub,
            sb,
            args,
            i + 2,
            b.insert(spec_binding_name(args[i]).unwrap()),
        )
    }
}

/// The analysis `part` reads no cell that `whole` does not and does no more
/// work, and succeeds where `whole` does.
pub open spec fn spec_refs_within(part: SpecRefs, whole: SpecRefs) -> bool {
    match whole {
        Err(_) => true,
        Ok((s, w)) => match part {
            Err(_) => false,
            Ok((s1, w1)) => s1.subset_of(s) && w1 <= w,
        },
    }
}

proof fn lemma_within_join(part: SpecRefs, a: SpecRefs, b: SpecRefs)
    requires
        spec_refs_within(part, a) || spec_refs_within(part, b),
        a matches Ok((_, w)) ==> w >= 0,
        b matches Ok((_, w)) ==> w >= 0,
    ensures
        spec_refs_within(part, spec_join(a, b)),
{
}

/// Every part of a formula, analysed with the `LET` names in scope where it
/// stands, reads only cells that the whole formula reads and does no more
/// work: in particular each operand of an operator or a comparison, and each
/// argument of a call. So a cell or spill reference that stands anywhere in
/// the formula, outside the scope of a `LET` name that is the same, is among
/// the cells the formula reads, and so is every cell of a range in it.
pub proof fn lemma_part_refs_within(sub: SpecExpr, sb: Set<Seq<char>>, e: SpecExpr, b: Set<Seq<char>>)
    requires
        spec_occurs(sub, sb, e, b),
    ensures
        spec_refs_within(spec_refs(sub, sb), spec_refs(e, b)),
        sub matches SpecExpr::Cell(n) ==> (!sb.contains(n) && spec_refs(e, b) is Ok
            ==> spec_refs(e, b)->Ok_0.0.contains(n)),
        sub matches SpecExpr::SpillRef(n) ==> (!sb.contains(n) && spec_refs(e, b) is Ok
            ==> spec_refs(e, b)->Ok_0.0.contains(n)),
        sub matches SpecExpr::Range { start, end } ==> (spec_refs(e, b) is Ok ==> (
        crate::refs::spec_a1_range_cells(start, end) is Ok && forall|k: int|
            0 <= k < crate::refs::spec_a1_range_cells(start, end)->Ok_0.len() ==> spec_refs(e, b)->Ok_0.0.contains(
                #[trigger] crate::refs::spec_a1_range_cells(start, end)->Ok_0[k],
            ))),
    decreases e, 0int,
{
    if sub == e && sb == b {
    } else {
        match e {
            SpecExpr::Neg(x) => lemma_part_refs_within(sub, sb, *x, b),
            SpecExpr::Intersect(x) => lemma_part_refs_within(sub, sb, *x, b),
            SpecExpr::BinOp { op, left, right } => {
                lemma_refs_work_nonneg(*left, b);
                lemma_refs_work_nonneg(*right, b);
                if spec_occurs(sub, sb, *left, b) {
                    lemma_part_refs_within(sub, sb, *left, b);
                } else {
                    lemma_part_refs_within(sub, sb, *right, b);
                }
                lemma_within_join(spec_refs(sub, sb), spec_refs(*left, b), spec_refs(*right, b));
            },
            SpecExpr::CmpOp { op, left, right } => {
                lemma_refs_work_nonneg(*left, b);
                lemma_refs_work_nonneg(*right, b);
                if spec_occurs(sub, sb, *left, b) {
                    lemma_part_refs_within(sub, sb, *left, b);
                } else {
                    lemma_part_refs_within(sub, sb, *right, b);
                }
                lemma_within_join(spec_refs(sub, sb), spec_refs(*left, b), spec_refs(*right, b));
            },
            SpecExpr::Call { name, args } => {
                if spec_is_let(name, args) {
                    lemma_part_refs_within_let(sub, sb, args, 0, b);
                } else {
                    lemma_part_refs_within_args(sub, sb, args, 0, b);
                }
            },
            _ => {},
        }
    }
    if let SpecExpr::Cell(n) = sub {
        if !sb.contains(n) && spec_refs(e, b) is Ok {
            assert(spec_refs(sub, sb)->Ok_0.0.contains(n));
        }
    }
    if let SpecExpr::SpillRef(n) = sub {
        if !sb.contains(n) && spec_refs(e, b) is Ok {
            assert(spec_refs(sub, sb)->Ok_0.0.contains(n));
        }
    }
    if let SpecExpr::Range { start, end } = sub {
        if spec_refs(e, b) is Ok {
            let names = crate::refs::spec_a1_range_cells(start, end)->Ok_0;
            assert forall|k: int| 0 <= k < names.len() implies spec_refs(e, b)->Ok_0.0.contains(
                #[trigger] names[k],
            ) by {
                assert(names.to_set().contains(names[k]));
            }
        }
    }
}

proof fn lemma_part_refs_within_args(
    sub: SpecExpr,
    sb: Set<Seq<char>>,
    args: Seq<SpecExpr>,
    i: int,
    b: Set<Seq<char>>,
)
    requires
        spec_occurs_args(sub, sb, args, i, b),
    ensures
        spec_refs_within(spec_refs(sub, sb), spec_args_refs(args, i, b)),
    decreases args, args.len() - i,
{
    lemma_refs_work_nonneg(args[i], b);
    lemma_args_work_nonneg(args, i + 1, b);
    if spec_occurs(sub, sb, args[i], b) {
        lemma_part_refs_within(sub, sb, args[i], b);
    } else {
        lemma_part_refs_within_args(sub, sb, args, i + 1, b);
    }
    lemma_within_join(spec_refs(sub, sb), spec_refs(args[i], b), spec_args_refs(args, i + 1, b));
}

proof fn lemma_part_refs_within_let(
    sub: SpecExpr,
    sb: Set<Seq<char>>,
    args: Seq<SpecExpr>,
    i: int,
    b: Set<Seq<char>>,
)
    requires
        spec_occurs_let(sub, sb, args, i, b),
    ensures
        spec_refs_within(spec_refs(sub, sb), spec_let_refs(args, i, b)),
    decreases args, args.len() - i,
{
    if i == args.len() - 1 {
        lemma_part_refs_within(sub, sb, args[i], b);
    } else {
        let name = spec_binding_name(args[i]).unwrap();
        lemma_refs_work_nonneg(args[i + 1], b);
        lemma_let_work_nonneg(args, i + 2, b.insert(name));
        if spec_occurs(sub, sb, args[i + 1], b) {
            lemma_part_refs_within(sub, sb, args[i + 1], b);
        } else {
            lemma_part_refs_within_let(sub, sb, args, i + 2, b.insert(name));
        }
        lemma_within_join(
            spec_refs(sub, sb),
            spec_refs(args[i + 1], b),
            spec_let_refs(args, i + 2, b.insert(name)),
        );
    }
}

// ---------------------------------------------------------------------------
// FILTER spill sources
// ---------------------------------------------------------------------------

pub open spec fn spec_fn_name_is(name: Seq<char>, upper: Seq<char>) -> bool {
    spec_upper_seq(name) == upper
}

/// The formula's value is a `FILTER` result: a `FILTER` call, possibly inside
/// `IFERROR`, `IF`, `IFS` or `SWITCH` (any argument) or as the calculation of
/// a `LET`.
pub open spec fn spec_filter_source(e: SpecExpr) -> bool
    decreases e, 0int,
{
    match e {
        SpecExpr::Call { name, args } => if spec_fn_name_is(name, seq!['F', 'I', 'L', 'T', 'E', 'R']) {
            true
        } else if spec_fn_name_is(name, seq!['I', 'F', 'E', 'R', 'R', 'O', 'R']) || spec_fn_name_is(
            name,
            seq!['I', 'F'],
        ) || spec_fn_name_is(name, seq!['I', 'F', 'S']) || spec_fn_name_is(
            name,
            seq!['S', 'W', 'I', 'T', 'C', 'H'],
        ) {
            spec_any_filter_source(args, 0)
        } else if spec_fn_name_is(name, seq!['L', 'E', 'T']) {
            args.len() > 0 && spec_filter_source(args[args.len() - 1])
        } else {
            false
        },
        _ => false,
    }
}

/// Some argument from `i` on is a `FILTER` source.
pub open spec fn spec_any_filter_source(args: Seq<SpecExpr>, i: int) -> bool
    decreases args, args.len() - i,
{
    if 0 <= i < args.len() {
        spec_filter_source(args[i]) || spec_any_filter_source(args, i + 1)
    } else {
        false
    }
}

fn name_is(upper: &Vec<char>, target: &Vec<char>) -> (r: bool)
    ensures
        r == (upper@ == target@),
{
    chars_same(upper, target)
}

/// Whether a formula's value is a `FILTER` result (see [`spec_filter_source`]).
pub fn expr_is_filter_spill_source(e: &Expr) -> (r: bool)
    ensures
        r == spec_filter_source(spec_view(*e)),
    decreases *e, 0int,
{
    match e {
        Expr::Call { name, args } => {
            proof {
                lemma_view_seq_index(args@, 0);
            }
            let upper = upper_chars(&chars_of(name.as_str()));
            let filter_name: Vec<char> = vec!['F', 'I', 'L', 'T', 'E', 'R'];
            let iferror_name: Vec<char> = vec!['I', 'F', 'E', 'R', 'R', 'O', 'R'];
            let if_name: Vec<char> = vec!['I', 'F'];
            let ifs_name: Vec<char> = vec!['I', 'F', 'S'];
            let switch_name: Vec<char> = vec!['S', 'W', 'I', 'T', 'C', 'H'];
            let let_name: Vec<char> = vec!['L', 'E', 'T'];
            proof {
                assert(filter_name@ =~= seq!['F', 'I', 'L', 'T', 'E', 'R']);
                assert(iferror_name@ =~= seq!['I', 'F', 'E', 'R', 'R', 'O', 'R']);
                assert(if_name@ =~= seq!['I', 'F']);
                assert(ifs_name@ =~= seq!['I', 'F', 'S']);
                assert(switch_name@ =~= seq!['S', 'W', 'I', 'T', 'C', 'H']);
                assert(let_name@ =~= seq!['L', 'E', 'T']);
            }
            if name_is(&upper, &filter_name) {
                true
            } else if name_is(&upper, &iferror_name) || name_is(&upper, &if_name) || name_is(&upper, &ifs_name)
                || name_is(&upper, &switch_name) {
                any_filter_source(args, 0)
            } else if name_is(&upper, &let_name) {
                if args.len() == 0 {
                    false
                } else {
                    proof {
                        assert(spec_view_seq(args@, 0)[args@.len() - 1] == spec_view(args@[args@.len() - 1]));
                    }
                    expr_is_filter_spill_source(&args[args.len() - 1])
                }
            } else {
                false
            }
        },
        _ => false,
    }
}

fn any_filter_source(args: &Vec<Expr>, i: usize) -> (r: bool)
    requires
        i <= args@.len(),
    ensures
        r == spec_any_filter_source(spec_view_seq(args@, 0), i as int),
    decreases args@, args@.len() - i,
{
    proof {
        lemma_view_seq_index(args@, 0);
    }
    if i >= args.len() {
        return false;
    }
    proof {
        assert(spec_view_seq(args@, 0)[i as int] == spec_view(args@[i as int]));
    }
    if expr_is_filter_spill_source(&args[i]) {
        true
    } else {
        any_filter_source(args, i + 1)
    }
}
} // verus!
