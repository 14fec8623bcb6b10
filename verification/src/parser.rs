//! Excel string literals (`"..."` with `""` as an escaped quote).
use vstd::prelude::*;
use crate::text::{chars_of, spec_trim, string_from_chars, string_push, trim_bounds};

verus! {

/// `t` without one leading `=`.
pub open spec fn spec_strip_eq(t: Seq<char>) -> Seq<char> {
    if t.len() > 0 && t[0] == '=' {
        t.drop_first()
    } else {
        t
    }
}

/// Value of the string literal whose body starts at `s[i]` (just after the
/// opening quote), when the literal closes exactly at the end of `s`.
pub open spec fn spec_literal_body(s: Seq<char>, i: int) -> Option<Seq<char>>
    decreases s.len() - i,
{
    if i < 0 || i >= s.len() {
        None
    } else if s[i] == '"' {
        if i + 1 < s.len() && s[i + 1] == '"' {
            match spec_literal_body(s, i + 2) {
                Some(v) => Some(seq!['"'] + v),
                None => None,
            }
        } else if i + 1 == s.len() {
            Some(Seq::empty())
        } else {
            None
        }
    } else {
        match spec_literal_body(s, i + 1) {
            Some(v) => Some(seq![s[i]] + v),
            None => None,
        }
    }
}

/// The value of a cell or formula that is exactly one string literal
/// (surrounding whitespace and one leading `=` allowed).
pub open spec fn spec_string_literal_value(expression: Seq<char>) -> Option<Seq<char>> {
    let e = spec_strip_eq(spec_trim(expression));
    if e.len() > 0 && e[0] == '"' {
        spec_literal_body(e, 1)
    } else {
        None
    }
}

/// Decodes the string literal in `e` (which starts with a quote).
fn literal_value_chars(e: &Vec<char>) -> (r: Option<Vec<char>>)
    requires
        e@.len() > 0,
        e@[0] == '"',
    ensures
        match spec_literal_body(e@, 1) {
            Some(v) => r is Some && r->0@ == v,
            None => r is None,
        },
{
    let mut value: Vec<char> = Vec::new();
    let mut i: usize = 1;
    while i < e.len()
        invariant
            1 <= i <= e@.len() + 1,
            spec_literal_body(e@, 1) == match spec_literal_body(e@, i as int) {
                Some(v) => Some(value@ + v),
                None => None,
            },
        decreases e@.len() + 1 - i,
    {
        let ch = e[i];
        let ghost before = value@;
        if ch == '"' {
            if i + 1 < e.len() && e[i + 1] == '"' {
                value.push('"');
                proof {
                    assert(forall|v: Seq<char>|
                        before + (seq!['"'] + v) =~= value@ + v);
                }
                i += 2;
            } else if i + 1 == e.len() {
                proof {
                    assert(before + Seq::<char>::empty() =~= before);
                }
                return Some(value);
            } else {
                return None;
            }
        } else {
            value.push(ch);
            proof {
                assert(forall|v: Seq<char>| before + (seq![ch] + v) =~= value@ + v);
            }
            i += 1;
        }
    }
    None
}

/// `e` without one leading `=`, as a new vector.
fn strip_eq_chars(t: &Vec<char>, a: usize, b: usize) -> (r: Vec<char>)
    requires
        a <= b <= t@.len(),
    ensures
        r@ == spec_strip_eq(t@.subrange(a as int, b as int)),
{
    let start = if a < b && t[a] == '=' {
        a + 1
    } else {
        a
    };
    let r = crate::text::slice_chars(t, start, b);
    proof {
        let u = t@.subrange(a as int, b as int);
        if a < b && t@[a as int] == '=' {
            assert(r@ =~= u.drop_first());
        } else {
            assert(r@ =~= u);
        }
    }
    r
}

/// A formula's text: trimmed, without one leading `=`.
pub fn formula_text_chars(raw: &Vec<char>) -> (r: Vec<char>)
    ensures
        r@ == spec_strip_eq(spec_trim(raw@)),
{
    let (a, b) = trim_bounds(raw);
    strip_eq_chars(raw, a, b)
}

/// The value of a cell that is exactly one Excel string literal.
pub fn parse_standalone_string_literal(expression: &str) -> (r: Option<String>)
    ensures
        match spec_string_literal_value(expression@) {
            Some(v) => r is Some && r->0@ == v,
            None => r is None,
        },
{
    let raw = chars_of(expression);
    match standalone_literal_chars(&raw) {
        Some(v) => Some(string_from_chars(&v)),
        None => None,
    }
}

/// [`parse_standalone_string_literal`] on characters.
pub fn standalone_literal_chars(raw: &Vec<char>) -> (r: Option<Vec<char>>)
    ensures
        match spec_string_literal_value(raw@) {
            Some(v) => r is Some && r->0@ == v,
            None => r is None,
        },
{
    let (a, b) = trim_bounds(raw);
    let e = strip_eq_chars(raw, a, b);
    if e.len() == 0 || e[0] != '"' {
        return None;
    }
    literal_value_chars(&e)
}

/// Whether a cell is exactly one Excel string literal.
pub fn is_excel_string_literal_chars(raw: &Vec<char>) -> (r: bool)
    ensures
        r == spec_string_literal_value(raw@) is Some,
{
    standalone_literal_chars(raw).is_some()
}

/// Whether `expression` is exactly one Excel string literal (a text cell).
pub fn is_pure_string_expression(expression: &str) -> (r: bool)
    ensures
        r == spec_string_literal_value(expression@) is Some,
{
    parse_standalone_string_literal(expression).is_some()
}

/// The text of a cell that is exactly one Excel string literal.
pub fn pure_string_value(expression: &str) -> (r: Option<String>)
    ensures
        match spec_string_literal_value(expression@) {
            Some(v) => r is Some && r->0@ == v,
            None => r is None,
        },
{
    parse_standalone_string_literal(expression)
}

// ---------------------------------------------------------------------------
// Quoting
// ---------------------------------------------------------------------------

/// Characters of `t` with every quote doubled.
pub open spec fn spec_escape_quotes(t: Seq<char>) -> Seq<char>
    decreases t.len(),
{
    if t.len() == 0 {
        Seq::empty()
    } else {
        (if t[0] == '"' {
            seq!['"', '"']
        } else {
            seq![t[0]]
        }) + spec_escape_quotes(t.drop_first())
    }
}

/// `t` as an Excel string literal.
pub open spec fn spec_excel_quote(t: Seq<char>) -> Seq<char> {
    seq!['"'] + spec_escape_quotes(t) + seq!['"']
}

/// Appends `t` to `out` with every quote doubled.
fn push_escaped(out: &mut String, t: &Vec<char>)
    ensures
        final(out)@ == old(out)@ + spec_escape_quotes(t@),
{
    let mut i: usize = 0;
    proof {
        assert(t@.skip(0) =~= t@);
    }
    while i < t.len()
        invariant
            i <= t@.len(),
            out@ + spec_escape_quotes(t@.skip(i as int)) == old(out)@ + spec_escape_quotes(t@),
        decreases t.len() - i,
    {
        let ghost before = out@;
        let ghost rest = t@.skip(i as int);
        proof {
            assert(rest.drop_first() =~= t@.skip(i + 1));
            assert(rest[0] == t@[i as int]);
        }
        if t[i] == '"' {
            string_push(out, '"');
            string_push(out, '"');
            proof {
                assert(out@ =~= before + seq!['"', '"']);
            }
        } else {
            string_push(out, t[i]);
            proof {
                assert(out@ =~= before + seq![t@[i as int]]);
            }
        }
        i += 1;
    }
    proof {
        assert(t@.skip(t@.len() as int) =~= Seq::<char>::empty());
        assert(out@ + Seq::<char>::empty() =~= out@);
    }
}

/// `text` as an Excel string literal (quotes doubled, wrapped in quotes).
pub fn excel_quote_chars(text: &Vec<char>) -> (r: String)
    ensures
        r@ == spec_excel_quote(text@),
{
    let mut out = String::new();
    string_push(&mut out, '"');
    push_escaped(&mut out, text);
    string_push(&mut out, '"');
    proof {
        assert(out@ =~= spec_excel_quote(text@));
    }
    out
}

/// `text` as an Excel string literal (quotes doubled, wrapped in quotes).
pub fn excel_quote(text: &str) -> (r: String)
    ensures
        r@ == spec_excel_quote(text@),
{
    let t = chars_of(text);
    excel_quote_chars(&t)
}

// ---------------------------------------------------------------------------
// Laws
// ---------------------------------------------------------------------------

proof fn lemma_literal_body_of_escaped(t: Seq<char>, prefix: Seq<char>)
    ensures
        spec_literal_body(prefix + spec_escape_quotes(t) + seq!['"'], prefix.len() as int) == Some(
            t,
        ),
    decreases t.len(),
{
    let s = prefix + spec_escape_quotes(t) + seq!['"'];
    if t.len() == 0 {
        assert(spec_escape_quotes(t) =~= Seq::<char>::empty());
        assert(s[prefix.len() as int] == '"');
        assert(s.len() == prefix.len() + 1);
        assert(t =~= Seq::<char>::empty());
    } else {
        let head = if t[0] == '"' {
            seq!['"', '"']
        } else {
            seq![t[0]]
        };
        let p2 = prefix + head;
        assert(spec_escape_quotes(t) =~= head + spec_escape_quotes(t.drop_first()));
        assert(s =~= p2 + spec_escape_quotes(t.drop_first()) + seq!['"']);
        lemma_literal_body_of_escaped(t.drop_first(), p2);
        assert(s[prefix.len() as int] == head[0]);
        if t[0] == '"' {
            assert(s[prefix.len() as int + 1] == '"');
            assert(seq!['"'] + t.drop_first() =~= t);
        } else {
            assert(seq![t[0]] + t.drop_first() =~= t);
        }
    }
}

/// Quoting text and reading the quoted literal back gives the text.
pub proof fn lemma_quote_round_trip(t: Seq<char>)
    ensures
        spec_string_literal_value(spec_excel_quote(t)) == Some(t),
{
    let q = spec_excel_quote(t);
    assert(q[0] == '"');
    assert(!crate::text::spec_is_ws(q[0]));
    assert(q[q.len() - 1] == '"');
    crate::text::lemma_skip_ws_bounds(q, 0);
    assert(crate::text::spec_skip_ws(q, 0) == 0);
    assert(crate::text::spec_back_ws(q, 0, q.len() as int) == q.len());
    assert(spec_trim(q) =~= q);
    assert(spec_strip_eq(q) == q);
    lemma_literal_body_of_escaped(t, seq!['"']);
    assert(seq!['"'] + spec_escape_quotes(t) + seq!['"'] == q);
}

} // verus!
