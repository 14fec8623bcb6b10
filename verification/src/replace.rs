//! Placeholder replacement (`__[A-Z0-9]+__`) and Excel-like cell preparation,
//! applied before formula evaluation.
use vstd::prelude::*;
use vstd::hash_map::StringHashMap;
use crate::parser::{
    excel_quote_chars, is_excel_string_literal_chars, spec_excel_quote,
    spec_string_literal_value,
};
use crate::text::{
    chars_of, i64_to_string, is_ascii_digit, is_ascii_upper, push_chars, push_string,
    slice_chars, spec_int_decimal, spec_is_digit, spec_is_upper, spec_skip_ws, spec_trim,
    string_from_chars, string_from_str, trim_bounds, trim_chars,
};

verus! {

// ---------------------------------------------------------------------------
// Replacement values
// ---------------------------------------------------------------------------

#[derive(Debug, Clone, PartialEq)]
enum ReplacementKind {
    /// Canonical numeric literal text.
    Number(String),
    /// Text (quoted when placed inside a formula).
    Text(String),
}

/// Value substituted for a placeholder key.
///
/// Construct only via [`ReplacementValue::from_i64`] or
/// [`ReplacementValue::from_text`] (or from a formatted number) so numeric
/// inserts stay canonical literals, not arbitrary formula fragments.
#[derive(Debug, Clone, PartialEq)]
pub struct ReplacementValue {
    kind: ReplacementKind,
}

impl View for ReplacementValue {
    /// `(is_number, text)`.
    type V = (bool, Seq<char>);

    closed spec fn view(&self) -> (bool, Seq<char>) {
        match self.kind {
            ReplacementKind::Number(s) => (true, s@),
            ReplacementKind::Text(s) => (false, s@),
        }
    }
}

impl ReplacementValue {
    /// A number written as its decimal integer literal.
    pub fn from_i64(n: i64) -> (r: Self)
        ensures
            r@ == (true, spec_int_decimal(n as int)),
    {
        ReplacementValue { kind: ReplacementKind::Number(i64_to_string(n)) }
    }

    /// Text; quoted when inserted into a formula.
    pub fn from_text(s: &str) -> (r: Self)
        ensures
            r@ == (false, s@),
    {
        ReplacementValue { kind: ReplacementKind::Text(string_from_str(s)) }
    }

    /// A number already written in its canonical literal form (the text of a
    /// formatted floating-point value).
    pub fn from_formatted_number(text: &str) -> (r: Self)
        ensures
            r@ == (true, text@),
    {
        ReplacementValue { kind: ReplacementKind::Number(string_from_str(text)) }
    }
}

/// What is written in place of a placeholder: numbers as their literal, text
/// as a string literal inside formulas and as is elsewhere.
pub open spec fn spec_format_insert(v: (bool, Seq<char>), is_formula: bool) -> Seq<char> {
    if v.0 {
        v.1
    } else if is_formula {
        spec_excel_quote(v.1)
    } else {
        v.1
    }
}

fn format_insert(value: &ReplacementValue, is_formula: bool) -> (r: String)
    ensures
        r@ == spec_format_insert(value@, is_formula),
{
    match &value.kind {
        ReplacementKind::Number(n) => n.clone(),
        ReplacementKind::Text(s) => {
            if is_formula {
                let c = chars_of(s.as_str());
                excel_quote_chars(&c)
            } else {
                s.clone()
            }
        },
    }
}

// ---------------------------------------------------------------------------
// Replacement maps
// ---------------------------------------------------------------------------

/// A map from placeholder keys to values: the entries in insertion order, and
/// each key's position among them.
pub struct Replacements {
    entries: Vec<(Vec<char>, ReplacementValue)>,
    index: StringHashMap<usize>,
}

/// First index at or after `i` whose key is `k` (or the length).
pub open spec fn spec_find_key(e: Seq<(Seq<char>, (bool, Seq<char>))>, k: Seq<char>, i: int) -> int
    decreases e.len() - i,
{
    if i < 0 || i >= e.len() {
        e.len() as int
    } else if e[i].0 == k {
        i
    } else {
        spec_find_key(e, k, i + 1)
    }
}

proof fn lemma_find_key(e: Seq<(Seq<char>, (bool, Seq<char>))>, k: Seq<char>, i: int)
    requires
        0 <= i <= e.len(),
    ensures
        i <= spec_find_key(e, k, i) <= e.len(),
        spec_find_key(e, k, i) < e.len() ==> e[spec_find_key(e, k, i)].0 == k,
        forall|t: int| i <= t < spec_find_key(e, k, i) ==> e[t].0 != k,
    decreases e.len() - i,
{
    if i < e.len() && e[i].0 != k {
        lemma_find_key(e, k, i + 1);
    }
}

/// The first index holding key `k` is `j`, when `j` holds it and none before.
proof fn lemma_find_key_is(e: Seq<(Seq<char>, (bool, Seq<char>))>, k: Seq<char>, j: int)
    requires
        0 <= j <= e.len(),
        j < e.len() ==> e[j].0 == k,
        forall|t: int| 0 <= t < j ==> e[t].0 != k,
    ensures
        spec_find_key(e, k, 0) == j,
{
    lemma_find_key(e, k, 0);
    let f = spec_find_key(e, k, 0);
    if f < j {
        assert(e[f].0 == k);
    } else if f > j {
        assert(e[j].0 != k);
    }
}

proof fn lemma_map_of_update(
    e0: Seq<(Seq<char>, (bool, Seq<char>))>,
    i: int,
    key: Seq<char>,
    v: (bool, Seq<char>),
)
    requires
        0 <= i < e0.len(),
        spec_find_key(e0, key, 0) == i,
    ensures
        spec_map_of(e0.update(i, (key, v))) =~= spec_map_of(e0).insert(key, v),
{
    let e1 = e0.update(i, (key, v));
    lemma_find_key(e0, key, 0);
    assert forall|kk: Seq<char>| #[trigger] spec_find_key(e1, kk, 0) == spec_find_key(e0, kk, 0) by {
        lemma_find_key(e0, kk, 0);
        let f = spec_find_key(e0, kk, 0);
        lemma_find_key_is(e1, kk, f);
    }
    assert forall|kk: Seq<char>| #[trigger] spec_map_of(e1).contains_key(kk) implies spec_map_of(
        e1,
    )[kk] == spec_map_of(e0).insert(key, v)[kk] by {
        lemma_find_key(e0, kk, 0);
    }
}

proof fn lemma_map_of_push(
    e0: Seq<(Seq<char>, (bool, Seq<char>))>,
    key: Seq<char>,
    v: (bool, Seq<char>),
)
    requires
        spec_find_key(e0, key, 0) == e0.len(),
    ensures
        spec_map_of(e0.push((key, v))) =~= spec_map_of(e0).insert(key, v),
{
    let e1 = e0.push((key, v));
    lemma_find_key(e0, key, 0);
    assert forall|kk: Seq<char>|
        #![trigger spec_map_of(e1).contains_key(kk)]
        spec_map_of(e1).contains_key(kk) == spec_map_of(e0).insert(key, v).contains_key(kk) && (
        spec_map_of(e1).contains_key(kk) ==> spec_map_of(e1)[kk] == spec_map_of(e0).insert(
            key,
            v,
        )[kk]) by {
        lemma_find_key(e0, kk, 0);
        if kk == key {
            lemma_find_key_is(e1, kk, e0.len() as int);
        } else {
            let f = spec_find_key(e0, kk, 0);
            if f < e0.len() {
                lemma_find_key_is(e1, kk, f);
            } else {
                lemma_find_key_is(e1, kk, e1.len() as int);
            }
        }
    }
}

pub open spec fn spec_map_of(e: Seq<(Seq<char>, (bool, Seq<char>))>) -> Map<
    Seq<char>,
    (bool, Seq<char>),
> {
    Map::new(|k: Seq<char>| spec_find_key(e, k, 0) < e.len(), |k: Seq<char>| e[spec_find_key(e, k, 0)].1)
}

impl Replacements {
    pub closed spec fn spec_entries(&self) -> Seq<(Seq<char>, (bool, Seq<char>))> {
        self.entries@.map_values(|p: (Vec<char>, ReplacementValue)| (p.0@, p.1@))
    }

    /// Keys are distinct, and the index gives each key's position.
    pub closed spec fn wf(&self) -> bool {
        &&& forall|i: int, j: int|
            0 <= i < j < self.entries@.len() ==> self.entries@[i].0@ != self.entries@[j].0@
        &&& forall|i: int|
            0 <= i < self.entries@.len() ==> #[trigger] self.index@.contains_key(self.entries@[i].0@)
                && self.index@[self.entries@[i].0@] == i
        &&& forall|k: Seq<char>|
            #[trigger] self.index@.contains_key(k) ==> self.index@[k] < self.entries@.len()
                && self.entries@[self.index@[k] as int].0@ == k
    }

    pub closed spec fn view(&self) -> Map<Seq<char>, (bool, Seq<char>)> {
        spec_map_of(self.spec_entries())
    }

    pub fn new() -> (r: Self)
        ensures
            r.wf(),
            r@ == Map::<Seq<char>, (bool, Seq<char>)>::empty(),
    {
        let r = Replacements { entries: Vec::new(), index: StringHashMap::new() };
        proof {
            assert(r.spec_entries() =~= Seq::empty());
            assert(r@ =~= Map::<Seq<char>, (bool, Seq<char>)>::empty());
        }
        r
    }

    fn find(&self, key: &Vec<char>) -> (r: usize)
        requires
            self.wf(),
        ensures
            r == spec_find_key(self.spec_entries(), key@, 0),
            r <= self.entries@.len(),
    {
        let ghost e = self.spec_entries();
        let name = string_from_chars(key);
        match self.index.get(name.as_str()) {
            Some(p) => {
                let p = *p;
                proof {
                    assert(e[p as int].0 == self.entries@[p as int].0@);
                    assert forall|t: int| 0 <= t < p implies e[t].0 != key@ by {
                        assert(e[t].0 == self.entries@[t].0@);
                    }
                    lemma_find_key_is(e, key@, p as int);
                }
                p
            },
            None => {
                proof {
                    assert forall|t: int| 0 <= t < e.len() implies e[t].0 != key@ by {
                        assert(e[t].0 == self.entries@[t].0@);
                        assert(self.index@.contains_key(self.entries@[t].0@));
                    }
                    lemma_find_key_is(e, key@, e.len() as int);
                }
                self.entries.len()
            },
        }
    }

    /// The value stored for `key`.
    pub fn get(&self, key: &Vec<char>) -> (r: Option<&ReplacementValue>)
        requires
            self.wf(),
        ensures
            match r {
                Some(v) => self@.contains_key(key@) && self@[key@] == v@,
                None => !self@.contains_key(key@),
            },
    {
        let i = self.find(key);
        if i < self.entries.len() {
            proof {
                assert(self.spec_entries()[i as int].1 == self.entries@[i as int].1@);
            }
            Some(&self.entries[i].1)
        } else {
            None
        }
    }

    /// Sets the value for `key` (replacing any earlier value).
    pub fn insert(&mut self, key: String, value: ReplacementValue)
        requires
            old(self).wf(),
        ensures
            final(self).wf(),
            final(self)@ == old(self)@.insert(key@, value@),
    {
        let k = chars_of(key.as_str());
        let i = self.find(&k);
        let ghost e0 = self.spec_entries();
        let ghost v = value@;
        let ghost kv = key@;
        proof {
            lemma_find_key(e0, k@, 0);
        }
        if i < self.entries.len() {
            self.entries.set(i, (k, value));
            proof {
                let e1 = self.spec_entries();
                assert(e1 =~= e0.update(i as int, (key@, v)));
                lemma_map_of_update(e0, i as int, key@, v);
                assert forall|a: int, b: int|
                    0 <= a < b < self.entries@.len() implies self.entries@[a].0@
                    != self.entries@[b].0@ by {
                    assert(self.entries@[a].0@ == e1[a].0 && self.entries@[b].0@ == e1[b].0);
                    assert(old(self).entries@[a].0@ == e0[a].0 && old(self).entries@[b].0@ == e0[b].0);
                }
                assert forall|t: int| 0 <= t < self.entries@.len() implies #[trigger] self.index@.contains_key(
                    self.entries@[t].0@,
                ) && self.index@[self.entries@[t].0@] == t by {
                    assert(self.entries@[t].0@ == e1[t].0 && old(self).entries@[t].0@ == e0[t].0);
                }
                assert forall|x: Seq<char>| #[trigger] self.index@.contains_key(x) implies self.index@[x]
                    < self.entries@.len() && self.entries@[self.index@[x] as int].0@ == x by {
                    let p = self.index@[x] as int;
                    assert(self.entries@[p].0@ == e1[p].0 && old(self).entries@[p].0@ == e0[p].0);
                }
            }
        } else {
            let pos = self.entries.len();
            self.entries.push((k, value));
            proof {
                let e1 = self.spec_entries();
                assert(e1 =~= e0.push((key@, v)));
                lemma_map_of_push(e0, key@, v);
                assert forall|a: int, b: int|
                    0 <= a < b < self.entries@.len() implies self.entries@[a].0@
                    != self.entries@[b].0@ by {
                    assert(self.entries@[a].0@ == e1[a].0 && self.entries@[b].0@ == e1[b].0);
                    if b < e0.len() {
                        assert(old(self).entries@[a].0@ == e0[a].0 && old(self).entries@[b].0@
                            == e0[b].0);
                    } else {
                        assert(e0[a].0 != key@);
                    }
                }
            }
            self.index.insert(key, pos);
            proof {
                let e1 = self.spec_entries();
                assert(e1 =~= e0.push((kv, v)));
                assert(!old(self).index@.contains_key(kv)) by {
                    if old(self).index@.contains_key(kv) {
                        let p = old(self).index@[kv] as int;
                        assert(old(self).entries@[p].0@ == e0[p].0);
                    }
                }
                assert forall|t: int| 0 <= t < self.entries@.len() implies #[trigger] self.index@.contains_key(
                    self.entries@[t].0@,
                ) && self.index@[self.entries@[t].0@] == t by {
                    assert(self.entries@[t].0@ == e1[t].0);
                    if t < pos {
                        assert(old(self).entries@[t].0@ == e0[t].0);
                        assert(e0[t].0 != kv);
                    }
                }
                assert forall|x: Seq<char>| #[trigger] self.index@.contains_key(x) implies self.index@[x]
                    < self.entries@.len() && self.entries@[self.index@[x] as int].0@ == x by {
                    if x != kv {
                        let p = self.index@[x] as int;
                        assert(old(self).entries@[p].0@ == e0[p].0);
                        assert(self.entries@[p].0@ == e1[p].0);
                    } else {
                        assert(self.entries@[pos as int].0@ == e1[pos as int].0);
                    }
                }
            }
        }
    }

    /// The keys, in insertion order.
    fn keys(&self) -> (r: Vec<Vec<char>>)
        ensures
            r@.len() == self.entries@.len(),
            forall|i: int| 0 <= i < r@.len() ==> r@[i]@ == #[trigger] self.entries@[i].0@,
    {
        let mut out: Vec<Vec<char>> = Vec::new();
        let mut i: usize = 0;
        while i < self.entries.len()
            invariant
                i <= self.entries@.len(),
                out@.len() == i,
                forall|t: int| 0 <= t < i ==> out@[t]@ == #[trigger] self.entries@[t].0@,
            decreases self.entries.len() - i,
        {
            let k = &self.entries[i].0;
            out.push(slice_chars(k, 0, k.len()));
            proof {
                assert(k@.subrange(0, k@.len() as int) =~= k@);
            }
            i += 1;
        }
        out
    }

    proof fn lemma_dom(&self, k: Seq<char>)
        ensures
            self@.contains_key(k) <==> exists|i: int|
                0 <= i < self.entries@.len() && #[trigger] self.entries@[i].0@ == k,
    {
        let e = self.spec_entries();
        lemma_find_key(e, k, 0);
        if exists|i: int| 0 <= i < self.entries@.len() && #[trigger] self.entries@[i].0@ == k {
            let i = choose|i: int| 0 <= i < self.entries@.len() && #[trigger] self.entries@[i].0@ == k;
            assert(e[i].0 == k);
        }
        if self@.contains_key(k) {
            let f = spec_find_key(e, k, 0);
            assert(self.entries@[f].0@ == e[f].0);
        }
    }
}

fn chars_equal(a: &Vec<char>, b: &Vec<char>) -> (r: bool)
    ensures
        r == (a@ == b@),
{
    if a.len() != b.len() {
        return false;
    }
    let mut i: usize = 0;
    while i < a.len()
        invariant
            a@.len() == b@.len(),
            i <= a@.len(),
            forall|k: int| 0 <= k < i ==> a@[k] == b@[k],
        decreases a.len() - i,
    {
        if a[i] != b[i] {
            return false;
        }
        i += 1;
    }
    proof {
        assert(a@ =~= b@);
    }
    true
}

// ---------------------------------------------------------------------------
// Placeholder keys
// ---------------------------------------------------------------------------

pub open spec fn spec_is_placeholder_inner(c: char) -> bool {
    spec_is_upper(c) || spec_is_digit(c)
}

/// `key` matches `__[A-Z0-9]+__`.
pub open spec fn spec_is_valid_placeholder_key(key: Seq<char>) -> bool {
    &&& key.len() >= 5
    &&& key[0] == '_' && key[1] == '_'
    &&& key[key.len() - 2] == '_' && key[key.len() - 1] == '_'
    &&& forall|i: int| 2 <= i < key.len() - 2 ==> spec_is_placeholder_inner(#[trigger] key[i])
}

fn is_placeholder_inner(ch: char) -> (r: bool)
    ensures
        r == spec_is_placeholder_inner(ch),
{
    is_ascii_upper(ch) || is_ascii_digit(ch)
}

/// `true` when `key` matches `__[A-Z0-9]+__`.
pub fn is_valid_placeholder_key(key: &str) -> (r: bool)
    ensures
        r == spec_is_valid_placeholder_key(key@),
{
    let k = chars_of(key);
    is_valid_placeholder_key_chars(&k)
}

fn is_valid_placeholder_key_chars(k: &Vec<char>) -> (r: bool)
    ensures
        r == spec_is_valid_placeholder_key(k@),
{
    let n = k.len();
    if n < 5 || k[0] != '_' || k[1] != '_' || k[n - 2] != '_' || k[n - 1] != '_' {
        return false;
    }
    let mut i: usize = 2;
    while i < n - 2
        invariant
            n == k@.len(),
            n >= 5,
            2 <= i <= n - 2,
            forall|t: int| 2 <= t < i ==> spec_is_placeholder_inner(#[trigger] k@[t]),
        decreases n - 2 - i,
    {
        if !is_placeholder_inner(k[i]) {
            return false;
        }
        i += 1;
    }
    true
}

/// First index at or after `j` that is not a placeholder character (or the length).
pub open spec fn spec_inner_end(c: Seq<char>, j: int) -> int
    decreases c.len() - j,
{
    if 0 <= j < c.len() && spec_is_placeholder_inner(c[j]) {
        spec_inner_end(c, j + 1)
    } else {
        j
    }
}

/// The end of a placeholder body lies within the text, at or after its start.
pub proof fn lemma_inner_end(c: Seq<char>, j: int)
    requires
        0 <= j <= c.len(),
    ensures
        j <= spec_inner_end(c, j) <= c.len(),
        forall|t: int| j <= t < spec_inner_end(c, j) ==> spec_is_placeholder_inner(#[trigger] c[t]),
        spec_inner_end(c, j) < c.len() ==> !spec_is_placeholder_inner(c[spec_inner_end(c, j)]),
    decreases c.len() - j,
{
    if j < c.len() && spec_is_placeholder_inner(c[j]) {
        lemma_inner_end(c, j + 1);
    }
}

/// Index of the closing `_` of a `__[A-Z0-9]+__` token starting at `start`.
pub open spec fn spec_placeholder_end(c: Seq<char>, start: int) -> Option<int> {
    if start < 0 || start + 4 >= c.len() {
        None
    } else if c[start] != '_' || c[start + 1] != '_' || !spec_is_placeholder_inner(c[start + 2]) {
        None
    } else {
        let j = spec_inner_end(c, start + 3);
        if j + 1 < c.len() && c[j] == '_' && c[j + 1] == '_' {
            Some(j + 1)
        } else {
            None
        }
    }
}

fn find_placeholder_end(chars: &Vec<char>, start: usize) -> (r: Option<usize>)
    ensures
        match spec_placeholder_end(chars@, start as int) {
            Some(e) => r == Some(e as usize),
            None => r is None,
        },
        r matches Some(e) ==> spec_placeholder_end(chars@, start as int) == Some(e as int),
{
    if start >= chars.len() || chars.len() - start <= 4 {
        return None;
    }
    if chars[start] != '_' || chars[start + 1] != '_' {
        return None;
    }
    let mut j = start + 2;
    if !is_placeholder_inner(chars[j]) {
        return None;
    }
    j += 1;
    while j < chars.len() && is_placeholder_inner(chars[j])
        invariant
            start + 3 <= j <= chars@.len(),
            spec_inner_end(chars@, j as int) == spec_inner_end(chars@, start + 3),
        decreases chars.len() - j,
    {
        j += 1;
    }
    if j < chars.len() && chars.len() - j > 1 && chars[j] == '_' && chars[j + 1] == '_' {
        Some(j + 1)
    } else {
        None
    }
}

/// A token found by [`spec_placeholder_end`] is a valid placeholder key.
pub proof fn lemma_placeholder_token_is_valid_key(c: Seq<char>, start: int)
    requires
        spec_placeholder_end(c, start) is Some,
    ensures
        spec_is_valid_placeholder_key(c.subrange(start, spec_placeholder_end(c, start).unwrap() + 1)),
{
    lemma_inner_end(c, start + 3);
    let e = spec_placeholder_end(c, start).unwrap();
    let key = c.subrange(start, e + 1);
    assert forall|i: int| 2 <= i < key.len() - 2 implies spec_is_placeholder_inner(#[trigger] key[i]) by {
        assert(key[i] == c[start + i]);
    }
}

// ---------------------------------------------------------------------------
// Ignored keys
// ---------------------------------------------------------------------------

/// Strict lexicographic order by character code from position `i` on (the
/// order of `str`, as UTF-8 byte order follows code points).
pub open spec fn spec_lex_lt_at(a: Seq<char>, b: Seq<char>, i: int) -> bool
    decreases a.len() - i,
{
    if i < 0 {
        false
    } else if i >= a.len() {
        i < b.len()
    } else if i >= b.len() {
        false
    } else if a[i] < b[i] {
        true
    } else if a[i] == b[i] {
        spec_lex_lt_at(a, b, i + 1)
    } else {
        false
    }
}

pub open spec fn spec_lex_lt(a: Seq<char>, b: Seq<char>) -> bool {
    spec_lex_lt_at(a, b, 0)
}

proof fn lemma_lex_irreflexive(a: Seq<char>, i: int)
    requires
        0 <= i,
    ensures
        !spec_lex_lt_at(a, a, i),
    decreases a.len() - i,
{
    if i < a.len() {
        lemma_lex_irreflexive(a, i + 1);
    }
}

proof fn lemma_lex_transitive(a: Seq<char>, b: Seq<char>, c: Seq<char>, i: int)
    requires
        0 <= i,
        spec_lex_lt_at(a, b, i),
        spec_lex_lt_at(b, c, i),
    ensures
        spec_lex_lt_at(a, c, i),
    decreases a.len() - i,
{
    if i < a.len() && i < b.len() && i < c.len() && a[i] == b[i] && b[i] == c[i] {
        lemma_lex_transitive(a, b, c, i + 1);
    }
}

proof fn lemma_lex_total(a: Seq<char>, b: Seq<char>, i: int)
    requires
        0 <= i <= a.len(),
        i <= b.len(),
        a.skip(i) != b.skip(i),
    ensures
        spec_lex_lt_at(a, b, i) || spec_lex_lt_at(b, a, i),
    decreases a.len() - i,
{
    if i < a.len() && i < b.len() && a[i] == b[i] {
        if a.skip(i + 1) == b.skip(i + 1) {
            assert(a.skip(i) =~= seq![a[i]] + a.skip(i + 1));
            assert(b.skip(i) =~= seq![b[i]] + b.skip(i + 1));
        }
        lemma_lex_total(a, b, i + 1);
    } else if i >= a.len() && i >= b.len() {
        assert(a.skip(i) =~= b.skip(i));
    }
}

proof fn lemma_lex_asymmetric(a: Seq<char>, b: Seq<char>, i: int)
    requires
        0 <= i,
        spec_lex_lt_at(a, b, i),
    ensures
        !spec_lex_lt_at(b, a, i),
    decreases a.len() - i,
{
    if i < a.len() && i < b.len() && a[i] == b[i] {
        lemma_lex_asymmetric(a, b, i + 1);
    }
}

fn lex_lt(a: &Vec<char>, b: &Vec<char>) -> (r: bool)
    ensures
        r == spec_lex_lt(a@, b@),
{
    let mut i: usize = 0;
    loop
        invariant
            i <= a@.len(),
            i <= b@.len(),
            spec_lex_lt_at(a@, b@, i as int) == spec_lex_lt(a@, b@),
        decreases a@.len() - i,
    {
        if i >= a.len() {
            return i < b.len();
        }
        if i >= b.len() {
            return false;
        }
        if a[i] < b[i] {
            return true;
        }
        if a[i] != b[i] {
            return false;
        }
        i += 1;
    }
}

/// Some key among the first `i` is `k`.
pub open spec fn spec_seen(keys: Seq<Vec<char>>, i: int, k: Seq<char>) -> bool {
    exists|t: int| 0 <= t < i && #[trigger] keys[t]@ == k
}

pub open spec fn spec_strictly_sorted(v: Seq<Seq<char>>) -> bool {
    forall|i: int, j: int| 0 <= i < j < v.len() ==> spec_lex_lt(#[trigger] v[i], #[trigger] v[j])
}

pub open spec fn spec_char_views(v: Seq<Vec<char>>) -> Seq<Seq<char>> {
    v.map_values(|x: Vec<char>| x@)
}

/// Inserts `x` into a strictly sorted `v` (which does not hold it).
fn insert_sorted(v: &mut Vec<Vec<char>>, x: Vec<char>)
    requires
        spec_strictly_sorted(spec_char_views(old(v)@)),
        !spec_char_views(old(v)@).contains(x@),
    ensures
        spec_strictly_sorted(spec_char_views(final(v)@)),
        spec_char_views(final(v)@).to_set() == spec_char_views(old(v)@).to_set().insert(x@),
{
    let ghost old_v = spec_char_views(v@);
    let mut j: usize = 0;
    while j < v.len() && lex_lt(&v[j], &x)
        invariant
            j <= v@.len(),
            old_v == spec_char_views(v@),
            forall|t: int| 0 <= t < j ==> spec_lex_lt(#[trigger] old_v[t], x@),
        decreases v.len() - j,
    {
        j += 1;
    }
    proof {
        if j < v@.len() {
            assert(old_v[j as int] == v@[j as int]@);
            assert(old_v[j as int] != x@);
            assert(old_v[j as int].skip(0) =~= old_v[j as int]);
            assert(x@.skip(0) =~= x@);
            lemma_lex_total(old_v[j as int], x@, 0);
        }
    }
    v.insert(j, x);
    proof {
        let nv = spec_char_views(v@);
        assert(nv =~= old_v.insert(j as int, x@));
        assert forall|a: int, b: int| 0 <= a < b < nv.len() implies spec_lex_lt(
            #[trigger] nv[a],
            #[trigger] nv[b],
        ) by {
            if b < j {
                assert(nv[a] == old_v[a] && nv[b] == old_v[b]);
            } else if b == j {
                assert(nv[a] == old_v[a]);
            } else if a == j {
                assert(nv[b] == old_v[b - 1]);
                assert(spec_lex_lt(x@, old_v[j as int]));
                if b - 1 > j {
                    assert(spec_lex_lt(old_v[j as int], old_v[b - 1]));
                    lemma_lex_transitive(x@, old_v[j as int], old_v[b - 1], 0);
                }
            } else if a < j {
                assert(nv[a] == old_v[a] && nv[b] == old_v[b - 1]);
                assert(spec_lex_lt(old_v[a], old_v[b - 1]));
            } else {
                assert(nv[a] == old_v[a - 1] && nv[b] == old_v[b - 1]);
            }
        }
        assert(nv.to_set() =~= old_v.to_set().insert(x@)) by {
            assert forall|s: Seq<char>| nv.to_set().contains(s) <==> old_v.to_set().insert(x@).contains(s) by {
                if nv.contains(s) {
                    let t = choose|t: int| 0 <= t < nv.len() && nv[t] == s;
                    if t < j {
                        assert(old_v[t] == s);
                    } else if t > j {
                        assert(old_v[t - 1] == s);
                    }
                }
                if old_v.contains(s) {
                    let t = choose|t: int| 0 <= t < old_v.len() && old_v[t] == s;
                    if t < j {
                        assert(nv[t] == s);
                    } else {
                        assert(nv[t + 1] == s);
                    }
                }
                if s == x@ {
                    assert(nv[j as int] == s);
                }
            }
        }
    }
}

/// Keys of `replacements` that are not `__[A-Z0-9]+__`, in ascending order.
pub fn ignored_replacement_keys(replacements: &Replacements) -> (r: Vec<String>)
    requires
        replacements.wf(),
    ensures
        spec_strictly_sorted(crate::refs::spec_string_views(r@)),
        forall|k: Seq<char>|
            #![trigger crate::refs::spec_string_views(r@).contains(k)]
            #![trigger replacements@.contains_key(k)]
            crate::refs::spec_string_views(r@).contains(k) <==> (replacements@.contains_key(k)
                && !spec_is_valid_placeholder_key(k)),
{
    let keys = replacements.keys();
    let mut sorted: Vec<Vec<char>> = Vec::new();
    let mut i: usize = 0;
    proof {
        assert(spec_char_views(sorted@) =~= Seq::<Seq<char>>::empty());
    }
    while i < keys.len()
        invariant
            replacements.wf(),
            i <= keys@.len(),
            keys@.len() == replacements.entries@.len(),
            forall|t: int| 0 <= t < keys@.len() ==> keys@[t]@ == #[trigger] replacements.entries@[t].0@,
            spec_strictly_sorted(spec_char_views(sorted@)),
            forall|k: Seq<char>|
                #![trigger spec_char_views(sorted@).contains(k)]
                spec_char_views(sorted@).contains(k) <==> spec_seen(keys@, i as int, k)
                    && !spec_is_valid_placeholder_key(k),
        decreases keys.len() - i,
    {
        let k = &keys[i];
        let ghost before = spec_char_views(sorted@);
        proof {
            assert forall|kk: Seq<char>| #[trigger] spec_seen(keys@, i + 1, kk) == (spec_seen(keys@, i as int, kk) || kk == keys@[i as int]@) by {
                if spec_seen(keys@, i + 1, kk) {
                    let t = choose|t: int| 0 <= t < i + 1 && #[trigger] keys@[t]@ == kk;
                    if t < i {
                        assert(0 <= t < i && keys@[t]@ == kk);
                    }
                }
                if spec_seen(keys@, i as int, kk) {
                    let t = choose|t: int| 0 <= t < i && #[trigger] keys@[t]@ == kk;
                    assert(0 <= t < i + 1 && keys@[t]@ == kk);
                }
                if kk == keys@[i as int]@ {
                    assert(0 <= i < i + 1 && keys@[i as int]@ == kk);
                }
            }
        }
        if !is_valid_placeholder_key_chars(k) {
            proof {
                if before.contains(k@) {
                    assert(spec_seen(keys@, i as int, k@));
                    let t = choose|t: int| 0 <= t < i && #[trigger] keys@[t]@ == k@;
                    assert(replacements.entries@[t].0@ == replacements.entries@[i as int].0@);
                }
            }
            let kc = slice_chars(k, 0, k.len());
            proof {
                assert(k@.subrange(0, k@.len() as int) =~= k@);
            }
            insert_sorted(&mut sorted, kc);
            proof {
                assert forall|kk: Seq<char>|
                    #![trigger spec_char_views(sorted@).contains(kk)]
                    spec_char_views(sorted@).contains(kk) <==> spec_seen(keys@, i + 1, kk)
                        && !spec_is_valid_placeholder_key(kk) by {
                    assert(spec_char_views(sorted@).to_set().contains(kk) == spec_char_views(
                        sorted@,
                    ).contains(kk));
                    assert(before.to_set().contains(kk) == before.contains(kk));
                }
            }
        } else {
            proof {
                assert forall|kk: Seq<char>|
                    #![trigger spec_char_views(sorted@).contains(kk)]
                    spec_char_views(sorted@).contains(kk) <==> spec_seen(keys@, i + 1, kk)
                        && !spec_is_valid_placeholder_key(kk) by {
                    assert(spec_seen(keys@, i + 1, kk) == (spec_seen(keys@, i as int, kk) || kk
                        == keys@[i as int]@));
                }
            }
        }
        i += 1;
    }
    let mut out: Vec<String> = Vec::new();
    let mut j: usize = 0;
    while j < sorted.len()
        invariant
            j <= sorted@.len(),
            crate::refs::spec_string_views(out@) == spec_char_views(sorted@).take(j as int),
        decreases sorted.len() - j,
    {
        let s = string_from_chars(&sorted[j]);
        let ghost before = out@;
        out.push(s);
        proof {
            assert(out@ == before.push(s));
            assert(crate::refs::spec_string_views(out@) =~= crate::refs::spec_string_views(before).push(s@));
            assert(spec_char_views(sorted@)[j as int] == sorted@[j as int]@);
            assert(crate::refs::spec_string_views(out@) =~= spec_char_views(sorted@).take(j + 1));
        }
        j += 1;
    }
    proof {
        assert(spec_char_views(sorted@).take(sorted@.len() as int) =~= spec_char_views(sorted@));
        assert forall|k: Seq<char>|
            crate::refs::spec_string_views(out@).contains(k) <==> (replacements@.contains_key(k)
                && !spec_is_valid_placeholder_key(k)) by {
            replacements.lemma_dom(k);
            assert(spec_char_views(sorted@).contains(k) == (spec_seen(keys@, keys@.len() as int, k)
                && !spec_is_valid_placeholder_key(k)));
            if spec_seen(keys@, keys@.len() as int, k) {
                let t = choose|t: int| 0 <= t < keys@.len() && #[trigger] keys@[t]@ == k;
                assert(replacements.entries@[t].0@ == k);
            }
            if exists|t: int|
                0 <= t < replacements.entries@.len() && #[trigger] replacements.entries@[t].0@ == k {
                let t = choose|t: int|
                    0 <= t < replacements.entries@.len() && #[trigger] replacements.entries@[t].0@
                        == k;
                assert(keys@[t]@ == k);
                assert(spec_seen(keys@, keys@.len() as int, k));
            }
        }
    }
    out
}

// ---------------------------------------------------------------------------
// Cell preparation
// ---------------------------------------------------------------------------

/// Output of the replacement pass over `c[i..]`, given whether position `i` is
/// inside an Excel string literal: `__[A-Z0-9]+__` tokens outside string
/// literals whose key is in `reps` become their insert text; everything else
/// is copied. Inserted text is never scanned again.
pub open spec fn spec_apply_from(
    c: Seq<char>,
    i: int,
    in_string: bool,
    reps: Map<Seq<char>, (bool, Seq<char>)>,
    is_formula: bool,
) -> Seq<char>
    decreases c.len() - i,
{
    if i < 0 || i >= c.len() {
        Seq::empty()
    } else if in_string {
        if c[i] == '"' {
            if i + 1 < c.len() && c[i + 1] == '"' {
                seq!['"', '"'] + spec_apply_from(c, i + 2, true, reps, is_formula)
            } else {
                seq!['"'] + spec_apply_from(c, i + 1, false, reps, is_formula)
            }
        } else {
            seq![c[i]] + spec_apply_from(c, i + 1, true, reps, is_formula)
        }
    } else if c[i] == '"' {
        seq!['"'] + spec_apply_from(c, i + 1, true, reps, is_formula)
    } else if c[i] == '_' && spec_placeholder_end(c, i) is Some && reps.contains_key(
        c.subrange(i, spec_placeholder_end(c, i).unwrap() + 1),
    ) {
        let end = spec_placeholder_end(c, i).unwrap();
        proof {
            lemma_inner_end(c, i + 3);
        }
        spec_format_insert(reps[c.subrange(i, end + 1)], is_formula) + spec_apply_from(
            c,
            end + 1,
            false,
            reps,
            is_formula,
        )
    } else {
        seq![c[i]] + spec_apply_from(c, i + 1, false, reps, is_formula)
    }
}

/// The replacement pass over a whole cell.
pub open spec fn spec_apply_replacements(
    c: Seq<char>,
    reps: Map<Seq<char>, (bool, Seq<char>)>,
    is_formula: bool,
) -> Seq<char> {
    spec_apply_from(c, 0, false, reps, is_formula)
}

fn apply_replacements(chars: &Vec<char>, replacements: &Replacements, is_formula: bool) -> (r: String)
    requires
        replacements.wf(),
    ensures
        r@ == spec_apply_replacements(chars@, replacements@, is_formula),
{
    let ghost total = spec_apply_replacements(chars@, replacements@, is_formula);
    let mut out = String::new();
    let mut i: usize = 0;
    let mut in_string = false;
    proof {
        assert(Seq::<char>::empty() + total =~= total);
    }
    while i < chars.len()
        invariant
            replacements.wf(),
            i <= chars@.len() + 1,
            total == spec_apply_replacements(chars@, replacements@, is_formula),
            out@ + spec_apply_from(chars@, i as int, in_string, replacements@, is_formula) == total,
        decreases chars.len() - i,
    {
        let ch = chars[i];
        let ghost before = out@;
        if in_string {
            crate::text::string_push(&mut out, ch);
            if ch == '"' {
                if i + 1 < chars.len() && chars[i + 1] == '"' {
                    crate::text::string_push(&mut out, '"');
                    proof {
                        assert(forall|t: Seq<char>| before + (seq!['"', '"'] + t) =~= out@ + t);
                    }
                    i += 2;
                    continue;
                }
                in_string = false;
            }
            proof {
                assert(forall|t: Seq<char>| before + (seq![ch] + t) =~= out@ + t);
            }
            i += 1;
            continue;
        }
        if ch == '"' {
            in_string = true;
            crate::text::string_push(&mut out, '"');
            proof {
                assert(forall|t: Seq<char>| before + (seq!['"'] + t) =~= out@ + t);
            }
            i += 1;
            continue;
        }
        if ch == '_' {
            if let Some(end) = find_placeholder_end(chars, i) {
                proof {
                    assert(spec_placeholder_end(chars@, i as int) == Some(end as int));
                    lemma_inner_end(chars@, i + 3);
                    assert(end < chars@.len());
                }
                let key = slice_chars(chars, i, end + 1);
                if let Some(value) = replacements.get(&key) {
                    let ins = format_insert(value, is_formula);
                    push_string(&mut out, &ins);
                    proof {
                        lemma_inner_end(chars@, i + 3);
                        assert(forall|t: Seq<char>| before + (ins@ + t) =~= out@ + t);
                    }
                    i = end + 1;
                    continue;
                }
            }
        }
        crate::text::string_push(&mut out, ch);
        proof {
            assert(forall|t: Seq<char>| before + (seq![ch] + t) =~= out@ + t);
        }
        i += 1;
    }
    proof {
        assert(out@ + Seq::<char>::empty() =~= out@);
    }
    out
}

/// Whether a cell is a formula: its first non-whitespace character is `=`.
pub open spec fn spec_is_formula(text: Seq<char>) -> bool {
    let k = spec_skip_ws(text, 0);
    0 <= k < text.len() && text[k] == '='
}

fn is_formula_text(text: &Vec<char>) -> (r: bool)
    ensures
        r == spec_is_formula(text@),
{
    let mut k: usize = 0;
    while k < text.len() && crate::text::is_whitespace(text[k])
        invariant
            k <= text@.len(),
            spec_skip_ws(text@, k as int) == spec_skip_ws(text@, 0),
        decreases text.len() - k,
    {
        k += 1;
    }
    k < text.len() && text[k] == '='
}

pub open spec fn spec_is_digit_or_dot(c: char) -> bool {
    spec_is_digit(c) || c == '.'
}

/// `t` without one leading sign.
pub open spec fn spec_numeric_body(t: Seq<char>) -> Seq<char> {
    if t.len() > 0 && (t[0] == '+' || t[0] == '-') {
        t.drop_first()
    } else {
        t
    }
}

/// A plain decimal number: optional sign, digits with at most one `.`, at
/// least one digit (surrounding whitespace allowed).
pub open spec fn spec_is_numeric_literal(text: Seq<char>) -> bool {
    let t = spec_trim(text);
    let body = spec_numeric_body(t);
    &&& t.len() > 0
    &&& body.len() > 0
    &&& forall|i: int| 0 <= i < body.len() ==> spec_is_digit_or_dot(#[trigger] body[i])
    &&& forall|i: int, j: int| 0 <= i < j < body.len() ==> !(#[trigger] body[i] == '.' && #[trigger] body[j] == '.')
    &&& exists|i: int| 0 <= i < body.len() && spec_is_digit(#[trigger] body[i])
}

fn is_numeric_literal(text: &Vec<char>) -> (r: bool)
    ensures
        r == spec_is_numeric_literal(text@),
{
    let t = trim_chars(text);
    if t.len() == 0 {
        return false;
    }
    let start: usize = if t[0] == '+' || t[0] == '-' {
        1
    } else {
        0
    };
    let body = slice_chars(&t, start, t.len());
    proof {
        if start == 1 {
            assert(body@ =~= t@.drop_first());
        } else {
            assert(body@ =~= t@);
        }
        assert(body@ == spec_numeric_body(spec_trim(text@)));
    }
    if body.len() == 0 {
        return false;
    }
    let mut seen_digit = false;
    let mut seen_dot = false;
    let mut i: usize = 0;
    while i < body.len()
        invariant
            i <= body@.len(),
            body@ == spec_numeric_body(spec_trim(text@)),
            spec_trim(text@).len() > 0,
            forall|k: int| 0 <= k < i ==> spec_is_digit_or_dot(#[trigger] body@[k]),
            forall|a: int, b: int| 0 <= a < b < i ==> !(#[trigger] body@[a] == '.' && #[trigger] body@[b] == '.'),
            seen_dot == exists|k: int| 0 <= k < i && #[trigger] body@[k] == '.',
            seen_digit == exists|k: int| 0 <= k < i && spec_is_digit(#[trigger] body@[k]),
        decreases body.len() - i,
    {
        let ch = body[i];
        if is_ascii_digit(ch) {
            seen_digit = true;
        } else if ch == '.' && !seen_dot {
            seen_dot = true;
        } else {
            proof {
                assert(body@[i as int] == ch);
                if ch == '.' {
                    let k = choose|k: int| 0 <= k < i && #[trigger] body@[k] == '.';
                    assert(body@[k] == '.' && body@[i as int] == '.');
                    assert(!(forall|a: int, b: int|
                        0 <= a < b < body@.len() ==> !(#[trigger] body@[a] == '.' && #[trigger] body@[b]
                            == '.')));
                } else {
                    assert(!spec_is_digit_or_dot(body@[i as int]));
                }
            }
            return false;
        }
        proof {
            assert(body@[i as int] == ch);
        }
        i += 1;
    }
    seen_digit
}

/// Bare cell text after replacement: numeric literals and Excel string
/// literals stay as they are; anything else becomes a string literal of the
/// trimmed text.
pub open spec fn spec_quote_if_bare_text(t: Seq<char>) -> Seq<char> {
    if spec_is_numeric_literal(t) || spec_string_literal_value(t) is Some {
        t
    } else {
        spec_excel_quote(spec_trim(t))
    }
}

fn quote_if_bare_text(text: &Vec<char>) -> (r: String)
    ensures
        r@ == spec_quote_if_bare_text(text@),
{
    if is_numeric_literal(text) || is_excel_string_literal_chars(text) {
        string_from_chars(text)
    } else {
        let t = trim_chars(text);
        excel_quote_chars(&t)
    }
}

/// One prepared cell: replacements applied (inside formulas text is quoted),
/// and bare non-numeric text turned into a string literal.
pub open spec fn spec_prepare_cell(text: Seq<char>, reps: Map<Seq<char>, (bool, Seq<char>)>) -> Seq<
    char,
> {
    let f = spec_is_formula(text);
    let replaced = spec_apply_replacements(text, reps, f);
    if f {
        replaced
    } else {
        spec_quote_if_bare_text(replaced)
    }
}

/// Replace `__[A-Z0-9]+__` tokens, then quote bare text so the engine does not
/// treat it as a cell name. Formula cells (`=` prefix) are not wrapped.
pub fn prepare_cell(text: &str, replacements: &Replacements) -> (r: String)
    requires
        replacements.wf(),
    ensures
        r@ == spec_prepare_cell(text@, replacements@),
{
    let chars = chars_of(text);
    let is_formula = is_formula_text(&chars);
    let replaced = apply_replacements(&chars, replacements, is_formula);
    if is_formula {
        replaced
    } else {
        let rc = chars_of(replaced.as_str());
        quote_if_bare_text(&rc)
    }
}

/// Prepared cells plus the keys of the replacement map that were ignored.
pub struct PreparedCells {
    pub cells: Vec<(String, String)>,
    pub ignored_replacement_keys: Vec<String>,
}

/// Applies [`prepare_cell`] to every cell; invalid keys in `replacements` are
/// reported (they can never match a token, so they are simply unused).
pub fn prepare_cells(cells: &[(&str, &str)], replacements: &Replacements) -> (r: PreparedCells)
    requires
        replacements.wf(),
    ensures
        r.cells@.len() == cells@.len(),
        forall|i: int|
            0 <= i < cells@.len() ==> (#[trigger] r.cells@[i]).0@ == cells@[i].0@ && r.cells@[i].1@
                == spec_prepare_cell(cells@[i].1@, replacements@),
        spec_strictly_sorted(crate::refs::spec_string_views(r.ignored_replacement_keys@)),
        forall|k: Seq<char>|
            #![trigger crate::refs::spec_string_views(r.ignored_replacement_keys@).contains(k)]
            #![trigger replacements@.contains_key(k)]
            crate::refs::spec_string_views(r.ignored_replacement_keys@).contains(k) <==> (
            replacements@.contains_key(k) && !spec_is_valid_placeholder_key(k)),
{
    let mut out: Vec<(String, String)> = Vec::new();
    let mut i: usize = 0;
    while i < cells.len()
        invariant
            replacements.wf(),
            i <= cells@.len(),
            out@.len() == i,
            forall|k: int|
                0 <= k < i ==> (#[trigger] out@[k]).0@ == cells@[k].0@ && out@[k].1@
                    == spec_prepare_cell(cells@[k].1@, replacements@),
        decreases cells.len() - i,
    {
        let (name, expr) = cells[i];
        out.push((string_from_str(name), prepare_cell(expr, replacements)));
        i += 1;
    }
    let ignored = ignored_replacement_keys(replacements);
    proof {
        assert forall|k: Seq<char>|
            crate::refs::spec_string_views(ignored@).contains(k) <==> (replacements@.contains_key(k)
                && !spec_is_valid_placeholder_key(k)) by {}
    }
    PreparedCells { cells: out, ignored_replacement_keys: ignored }
}

// ---------------------------------------------------------------------------
// Laws of cell preparation
// ---------------------------------------------------------------------------

/// With no replacements, the replacement pass copies the text.
pub proof fn lemma_apply_without_replacements(c: Seq<char>, i: int, in_string: bool, is_formula: bool)
    requires
        0 <= i <= c.len(),
    ensures
        spec_apply_from(c, i, in_string, Map::empty(), is_formula) == c.skip(i),
    decreases c.len() - i,
{
    if i < c.len() {
        let m = Map::<Seq<char>, (bool, Seq<char>)>::empty();
        if in_string && c[i] == '"' && i + 1 < c.len() && c[i + 1] == '"' {
            lemma_apply_without_replacements(c, i + 2, true, is_formula);
            assert(seq!['"', '"'] + c.skip(i + 2) =~= c.skip(i));
        } else if in_string && c[i] == '"' {
            lemma_apply_without_replacements(c, i + 1, false, is_formula);
            assert(seq!['"'] + c.skip(i + 1) =~= c.skip(i));
        } else if in_string {
            lemma_apply_without_replacements(c, i + 1, true, is_formula);
            assert(seq![c[i]] + c.skip(i + 1) =~= c.skip(i));
        } else if c[i] == '"' {
            lemma_apply_without_replacements(c, i + 1, true, is_formula);
            assert(seq!['"'] + c.skip(i + 1) =~= c.skip(i));
        } else {
            lemma_apply_without_replacements(c, i + 1, false, is_formula);
            assert(seq![c[i]] + c.skip(i + 1) =~= c.skip(i));
        }
    } else {
        assert(c.skip(i) =~= Seq::<char>::empty());
    }
}

/// A prepared cell that is not a formula is a numeric literal or a string
/// literal, so it never reads as a cell reference or a formula.
pub proof fn lemma_prepared_bare_cell_is_literal(text: Seq<char>, reps: Map<Seq<char>, (bool, Seq<char>)>)
    requires
        !spec_is_formula(text),
    ensures
        spec_is_numeric_literal(spec_prepare_cell(text, reps)) || spec_string_literal_value(
            spec_prepare_cell(text, reps),
        ) is Some,
{
    let replaced = spec_apply_replacements(text, reps, false);
    if !(spec_is_numeric_literal(replaced) || spec_string_literal_value(replaced) is Some) {
        crate::parser::lemma_quote_round_trip(spec_trim(replaced));
    }
}

/// Bare text that is neither a number nor a string literal, prepared with an
/// empty replacement map, becomes a string literal whose value is the trimmed
/// text.
pub proof fn lemma_prepared_bare_text_value(text: Seq<char>)
    requires
        !spec_is_formula(text),
        !spec_is_numeric_literal(text),
        spec_string_literal_value(text) is None,
    ensures
        spec_string_literal_value(spec_prepare_cell(text, Map::empty())) == Some(spec_trim(text)),
{
    lemma_apply_without_replacements(text, 0, false, false);
    assert(text.skip(0) =~= text);
    crate::parser::lemma_quote_round_trip(spec_trim(text));
}

/// Two replacement maps agree on every valid placeholder key: same keys,
/// same values.
pub open spec fn spec_agree_on_valid_keys(
    r1: Map<Seq<char>, (bool, Seq<char>)>,
    r2: Map<Seq<char>, (bool, Seq<char>)>,
) -> bool {
    forall|k: Seq<char>|
        #[trigger] spec_is_valid_placeholder_key(k) ==> (r1.contains_key(k) <==> r2.contains_key(k)) && (
        r1.contains_key(k) ==> r1[k] == r2[k])
}

proof fn lemma_apply_from_valid_keys_only(
    c: Seq<char>,
    i: int,
    in_string: bool,
    r1: Map<Seq<char>, (bool, Seq<char>)>,
    r2: Map<Seq<char>, (bool, Seq<char>)>,
    is_formula: bool,
)
    requires
        spec_agree_on_valid_keys(r1, r2),
    ensures
        spec_apply_from(c, i, in_string, r1, is_formula) == spec_apply_from(c, i, in_string, r2, is_formula),
    decreases c.len() - i,
{
    if 0 <= i < c.len() {
        if in_string {
            if c[i] == '"' && i + 1 < c.len() && c[i + 1] == '"' {
                lemma_apply_from_valid_keys_only(c, i + 2, true, r1, r2, is_formula);
            } else if c[i] == '"' {
                lemma_apply_from_valid_keys_only(c, i + 1, false, r1, r2, is_formula);
            } else {
                lemma_apply_from_valid_keys_only(c, i + 1, true, r1, r2, is_formula);
            }
        } else if c[i] == '"' {
            lemma_apply_from_valid_keys_only(c, i + 1, true, r1, r2, is_formula);
        } else if c[i] == '_' && spec_placeholder_end(c, i) is Some {
            let end = spec_placeholder_end(c, i).unwrap();
            lemma_placeholder_token_is_valid_key(c, i);
            lemma_inner_end(c, i + 3);
            lemma_apply_from_valid_keys_only(c, end + 1, false, r1, r2, is_formula);
            lemma_apply_from_valid_keys_only(c, i + 1, false, r1, r2, is_formula);
        } else {
            lemma_apply_from_valid_keys_only(c, i + 1, false, r1, r2, is_formula);
        }
    }
}

/// Keys that are not valid placeholder keys never take part in preparing a
/// cell: maps that agree on the valid keys prepare every cell alike.
pub proof fn lemma_prepare_cell_ignores_invalid_keys(
    text: Seq<char>,
    r1: Map<Seq<char>, (bool, Seq<char>)>,
    r2: Map<Seq<char>, (bool, Seq<char>)>,
)
    requires
        spec_agree_on_valid_keys(r1, r2),
    ensures
        spec_prepare_cell(text, r1) == spec_prepare_cell(text, r2),
{
    lemma_apply_from_valid_keys_only(text, 0, false, r1, r2, spec_is_formula(text));
}

proof fn lemma_inner_end_at(c: Seq<char>, j: int, e: int)
    requires
        0 <= j <= e < c.len(),
        forall|t: int| j <= t < e ==> spec_is_placeholder_inner(#[trigger] c[t]),
        !spec_is_placeholder_inner(c[e]),
    ensures
        spec_inner_end(c, j) == e,
    decreases e - j,
{
    if j < e {
        lemma_inner_end_at(c, j + 1, e);
    }
}

/// A formula made of `=` and a placeholder with a value becomes `=` followed
/// by the value's insert text: a number as its literal, text quoted.
pub proof fn lemma_formula_placeholder(k: Seq<char>, reps: Map<Seq<char>, (bool, Seq<char>)>)
    requires
        spec_is_valid_placeholder_key(k),
        reps.contains_key(k),
    ensures
        spec_prepare_cell(seq!['='] + k, reps) == seq!['='] + spec_format_insert(reps[k], true),
{
    let c = seq!['='] + k;
    let n = c.len() as int;
    assert(c[0] == '=');
    assert(!crate::text::spec_is_ws(c[0]));
    assert(crate::text::spec_skip_ws(c, 0) == 0);
    assert(spec_is_formula(c));
    assert forall|t: int| 4 <= t < n - 2 implies spec_is_placeholder_inner(#[trigger] c[t]) by {
        assert(c[t] == k[t - 1]);
    }
    assert(c[n - 2] == '_' && c[n - 1] == '_');
    assert(c[1] == '_' && c[2] == '_');
    assert(c[3] == k[2]);
    lemma_inner_end_at(c, 4, n - 2);
    assert(spec_placeholder_end(c, 1) == Some(n - 1));
    assert(c.subrange(1, n) =~= k);
    let ins = spec_format_insert(reps[k], true);
    assert(spec_apply_from(c, n, false, reps, true) == Seq::<char>::empty());
    assert(spec_apply_from(c, 1, false, reps, true) == ins + Seq::<char>::empty());
    assert(spec_apply_from(c, 0, false, reps, true) == seq!['='] + (ins + Seq::<char>::empty()));
    assert(seq!['='] + (ins + Seq::<char>::empty()) =~= seq!['='] + ins);
}

/// Text put into a formula through a placeholder reads back as the same
/// text: the prepared formula is one string literal whose value is the text.
pub proof fn lemma_formula_text_round_trip(k: Seq<char>, reps: Map<Seq<char>, (bool, Seq<char>)>, t: Seq<char>)
    requires
        spec_is_valid_placeholder_key(k),
        reps.contains_key(k),
        reps[k] == (false, t),
    ensures
        spec_prepare_cell(seq!['='] + k, reps) == seq!['='] + spec_excel_quote(t),
        crate::parser::spec_string_literal_value(spec_prepare_cell(seq!['='] + k, reps)) == Some(t),
{
    lemma_formula_placeholder(k, reps);
    let q = spec_excel_quote(t);
    let e = seq!['='] + q;
    crate::parser::lemma_quote_round_trip(t);
    assert(q[0] == '"');
    assert(q[q.len() - 1] == '"');
    assert(e[0] == '=');
    assert(!crate::text::spec_is_ws(e[0]));
    assert(e[e.len() - 1] == '"');
    crate::text::lemma_skip_ws_bounds(e, 0);
    assert(crate::text::spec_skip_ws(e, 0) == 0);
    assert(crate::text::spec_back_ws(e, 0, e.len() as int) == e.len());
    assert(crate::text::spec_trim(e) =~= e);
    assert(crate::text::spec_skip_ws(q, 0) == 0) by {
        assert(!crate::text::spec_is_ws(q[0]));
    }
    assert(crate::text::spec_back_ws(q, 0, q.len() as int) == q.len()) by {
        assert(!crate::text::spec_is_ws(q[q.len() - 1]));
    }
    assert(crate::text::spec_trim(q) =~= q);
    assert(crate::parser::spec_strip_eq(q) == q);
    assert(e.subrange(1, e.len() as int) =~= q);
}

/// A value cell that is exactly a placeholder with a number becomes that
/// number's decimal literal, unquoted.
pub proof fn lemma_value_placeholder_number(k: Seq<char>, reps: Map<Seq<char>, (bool, Seq<char>)>, n: int)
    requires
        spec_is_valid_placeholder_key(k),
        reps.contains_key(k),
        reps[k] == (true, crate::text::spec_int_decimal(n)),
    ensures
        spec_prepare_cell(k, reps) == crate::text::spec_int_decimal(n),
{
    let len = k.len() as int;
    assert(!crate::text::spec_is_ws(k[0]));
    assert(crate::text::spec_skip_ws(k, 0) == 0);
    assert(!spec_is_formula(k));
    lemma_inner_end_at(k, 3, len - 2);
    assert(spec_placeholder_end(k, 0) == Some(len - 1));
    assert(k.subrange(0, len) =~= k);
    let d = crate::text::spec_int_decimal(n);
    assert(spec_apply_from(k, len, false, reps, false) == Seq::<char>::empty());
    assert(spec_apply_from(k, 0, false, reps, false) == d + Seq::<char>::empty());
    assert(d + Seq::<char>::empty() =~= d);
    let m: nat = if n < 0 {
        (-n) as nat
    } else {
        n as nat
    };
    crate::text::lemma_decimal_digits(m);
    let body = crate::text::spec_decimal(m);
    assert(d.len() > 0);
    assert(!crate::text::spec_is_ws(d[0])) by {
        if n >= 0 {
            assert(spec_is_digit(body[0]));
        }
    }
    assert(!crate::text::spec_is_ws(d[d.len() - 1])) by {
        assert(spec_is_digit(body[body.len() - 1]));
        if n < 0 {
            assert(d[d.len() - 1] == body[body.len() - 1]);
        }
    }
    crate::text::lemma_skip_ws_bounds(d, 0);
    assert(crate::text::spec_skip_ws(d, 0) == 0);
    assert(crate::text::spec_back_ws(d, 0, d.len() as int) == d.len());
    assert(crate::text::spec_trim(d) =~= d);
    assert(spec_numeric_body(d) =~= body) by {
        if n >= 0 {
            assert(spec_is_digit(body[0]));
        }
    }
    assert(forall|i: int| 0 <= i < body.len() ==> spec_is_digit(#[trigger] body[i]));
    assert(spec_is_digit(body[0]));
    assert(spec_is_numeric_literal(d));
}

/// Outside string literals, text with no `"` and no `_` is copied by the
/// replacement pass.
proof fn lemma_apply_plain(
    c: Seq<char>,
    i: int,
    j: int,
    reps: Map<Seq<char>, (bool, Seq<char>)>,
    is_formula: bool,
)
    requires
        0 <= i <= j <= c.len(),
        forall|t: int| i <= t < j ==> #[trigger] c[t] != '"' && c[t] != '_',
    ensures
        spec_apply_from(c, i, false, reps, is_formula) == c.subrange(i, j) + spec_apply_from(
            c,
            j,
            false,
            reps,
            is_formula,
        ),
    decreases j - i,
{
    if i < j {
        lemma_apply_plain(c, i + 1, j, reps, is_formula);
        assert(seq![c[i]] + (c.subrange(i + 1, j) + spec_apply_from(c, j, false, reps, is_formula))
            =~= c.subrange(i, j) + spec_apply_from(c, j, false, reps, is_formula));
    } else {
        assert(c.subrange(i, j) + spec_apply_from(c, j, false, reps, is_formula) =~= spec_apply_from(
            c,
            j,
            false,
            reps,
            is_formula,
        ));
    }
}

/// A cell made of text without `"` or `_`, one placeholder with a value, and
/// more such text: the pass puts the value's insert text in the placeholder's
/// place.
proof fn lemma_apply_one_placeholder(
    pre: Seq<char>,
    k: Seq<char>,
    post: Seq<char>,
    reps: Map<Seq<char>, (bool, Seq<char>)>,
    is_formula: bool,
)
    requires
        spec_is_valid_placeholder_key(k),
        reps.contains_key(k),
        forall|i: int| 0 <= i < pre.len() ==> #[trigger] pre[i] != '"' && pre[i] != '_',
        forall|i: int| 0 <= i < post.len() ==> #[trigger] post[i] != '"' && post[i] != '_',
    ensures
        spec_apply_replacements(pre + k + post, reps, is_formula) == pre + spec_format_insert(
            reps[k],
            is_formula,
        ) + post,
{
    let c = pre + k + post;
    let a = pre.len() as int;
    let e = a + k.len();
    let n = c.len() as int;
    let ins = spec_format_insert(reps[k], is_formula);
    assert forall|i: int| 0 <= i < a implies #[trigger] c[i] != '"' && c[i] != '_' by {
        assert(c[i] == pre[i]);
    }
    assert forall|i: int| e <= i < n implies #[trigger] c[i] != '"' && c[i] != '_' by {
        assert(c[i] == post[i - e]);
    }
    lemma_apply_plain(c, 0, a, reps, is_formula);
    lemma_apply_plain(c, e, n, reps, is_formula);
    assert forall|i: int| a + 3 <= i < e - 2 implies spec_is_placeholder_inner(#[trigger] c[i]) by {
        assert(c[i] == k[i - a]);
    }
    assert(c[a] == '_' && c[a + 1] == '_' && c[a + 2] == k[2]);
    assert(c[e - 2] == '_' && c[e - 1] == '_');
    lemma_inner_end_at(c, a + 3, e - 2);
    assert(spec_placeholder_end(c, a) == Some(e - 1));
    assert(c.subrange(a, e) =~= k);
    assert(spec_apply_from(c, n, false, reps, is_formula) == Seq::<char>::empty());
    assert(spec_apply_from(c, a, false, reps, is_formula) == ins + spec_apply_from(
        c,
        e,
        false,
        reps,
        is_formula,
    ));
    assert(c.subrange(0, a) =~= pre);
    assert(c.subrange(e, n) =~= post);
    assert(pre + (ins + (post + Seq::<char>::empty())) =~= pre + ins + post);
}

/// In a cell that is not a formula, a placeholder whose value is text is
/// replaced by exactly that text, unquoted; the cell is then prepared as the
/// bare text it has become, so a cell that is neither a number nor a string
/// literal reads back as that text, trimmed.
pub proof fn lemma_text_placeholder_in_value_cell(
    pre: Seq<char>,
    k: Seq<char>,
    post: Seq<char>,
    reps: Map<Seq<char>, (bool, Seq<char>)>,
    t: Seq<char>,
)
    requires
        spec_is_valid_placeholder_key(k),
        reps.contains_key(k),
        reps[k] == (false, t),
        forall|i: int| 0 <= i < pre.len() ==> #[trigger] pre[i] != '"' && pre[i] != '_',
        forall|i: int| 0 <= i < post.len() ==> #[trigger] post[i] != '"' && post[i] != '_',
        !spec_is_formula(pre + k + post),
    ensures
        spec_apply_replacements(pre + k + post, reps, false) == pre + t + post,
        spec_prepare_cell(pre + k + post, reps) == spec_quote_if_bare_text(pre + t + post),
        !spec_is_numeric_literal(pre + t + post) && spec_string_literal_value(pre + t + post) is None
            ==> spec_string_literal_value(spec_prepare_cell(pre + k + post, reps)) == Some(
            spec_trim(pre + t + post),
        ),
{
    lemma_apply_one_placeholder(pre, k, post, reps, false);
    let r = pre + t + post;
    if !spec_is_numeric_literal(r) && spec_string_literal_value(r) is None {
        crate::parser::lemma_quote_round_trip(spec_trim(r));
    }
}

/// In a cell that is not a formula, a placeholder whose value is a number is
/// replaced by the number's literal, unquoted.
pub proof fn lemma_number_placeholder_in_value_cell(
    pre: Seq<char>,
    k: Seq<char>,
    post: Seq<char>,
    reps: Map<Seq<char>, (bool, Seq<char>)>,
    t: Seq<char>,
)
    requires
        spec_is_valid_placeholder_key(k),
        reps.contains_key(k),
        reps[k] == (true, t),
        forall|i: int| 0 <= i < pre.len() ==> #[trigger] pre[i] != '"' && pre[i] != '_',
        forall|i: int| 0 <= i < post.len() ==> #[trigger] post[i] != '"' && post[i] != '_',
        !spec_is_formula(pre + k + post),
    ensures
        spec_apply_replacements(pre + k + post, reps, false) == pre + t + post,
        spec_prepare_cell(pre + k + post, reps) == spec_quote_if_bare_text(pre + t + post),
{
    lemma_apply_one_placeholder(pre, k, post, reps, false);
}

/// In a formula, a placeholder whose value is a number is replaced by the
/// number's literal, and one whose value is text by a string literal of the
/// text; the prepared formula is the result, not quoted again.
pub proof fn lemma_placeholder_in_formula_cell(
    pre: Seq<char>,
    k: Seq<char>,
    post: Seq<char>,
    reps: Map<Seq<char>, (bool, Seq<char>)>,
)
    requires
        spec_is_valid_placeholder_key(k),
        reps.contains_key(k),
        forall|i: int| 0 <= i < pre.len() ==> #[trigger] pre[i] != '"' && pre[i] != '_',
        forall|i: int| 0 <= i < post.len() ==> #[trigger] post[i] != '"' && post[i] != '_',
        spec_is_formula(pre + k + post),
    ensures
        reps[k].0 ==> spec_prepare_cell(pre + k + post, reps) == pre + reps[k].1 + post,
        !reps[k].0 ==> spec_prepare_cell(pre + k + post, reps) == pre + spec_excel_quote(reps[k].1)
            + post,
        !reps[k].0 ==> spec_string_literal_value(spec_excel_quote(reps[k].1)) == Some(reps[k].1),
{
    lemma_apply_one_placeholder(pre, k, post, reps, true);
    crate::parser::lemma_quote_round_trip(reps[k].1);
}

/// Two strictly sorted lists that hold the same names are the same list.
pub proof fn lemma_sorted_lists_equal(a: Seq<Seq<char>>, b: Seq<Seq<char>>)
    requires
        spec_strictly_sorted(a),
        spec_strictly_sorted(b),
        forall|x: Seq<char>| a.contains(x) <==> b.contains(x),
    ensures
        a == b,
    decreases a.len(),
{
    if a.len() == 0 {
        if b.len() > 0 {
            assert(b.contains(b[0]));
        }
        assert(a =~= b);
    } else {
        assert(a.contains(a[0]));
        assert(b.len() > 0);
        if a[0] != b[0] {
            assert(b.contains(b[0]));
            let j = choose|j: int| 0 <= j < b.len() && b[j] == a[0];
            let i = choose|i: int| 0 <= i < a.len() && a[i] == b[0];
            assert(j > 0 && i > 0);
            assert(spec_lex_lt(b[0], b[j]));
            assert(spec_lex_lt(a[0], a[i]));
            lemma_lex_asymmetric(a[0], b[0], 0);
        }
        let a1 = a.drop_first();
        let b1 = b.drop_first();
        assert forall|x: Seq<char>| a1.contains(x) <==> b1.contains(x) by {
            if a1.contains(x) {
                let i = choose|i: int| 0 <= i < a1.len() && a1[i] == x;
                assert(a[i + 1] == x);
                assert(spec_lex_lt(a[0], a[i + 1]));
                lemma_lex_irreflexive(x, 0);
                assert(b.contains(x));
                let j = choose|j: int| 0 <= j < b.len() && b[j] == x;
                assert(j != 0);
                assert(b1[j - 1] == x);
            }
            if b1.contains(x) {
                let j = choose|j: int| 0 <= j < b1.len() && b1[j] == x;
                assert(b[j + 1] == x);
                assert(spec_lex_lt(b[0], b[j + 1]));
                lemma_lex_irreflexive(x, 0);
                assert(a.contains(x));
                let i = choose|i: int| 0 <= i < a.len() && a[i] == x;
                assert(i != 0);
                assert(a1[i - 1] == x);
            }
        }
        assert forall|i: int, j: int| 0 <= i < j < a1.len() implies spec_lex_lt(#[trigger] a1[i], #[trigger] a1[j]) by {
            assert(a1[i] == a[i + 1] && a1[j] == a[j + 1]);
        }
        assert forall|i: int, j: int| 0 <= i < j < b1.len() implies spec_lex_lt(#[trigger] b1[i], #[trigger] b1[j]) by {
            assert(b1[i] == b[i + 1] && b1[j] == b[j + 1]);
        }
        lemma_sorted_lists_equal(a1, b1);
        assert(a =~= seq![a[0]] + a1);
        assert(b =~= seq![b[0]] + b1);
    }
}

/// The ignored keys of a map are one list: every strictly sorted list of
/// exactly the keys that are not valid placeholder keys is the same, so the
/// list [`prepare_cells`] reports is the one [`ignored_replacement_keys`]
/// returns.
pub proof fn lemma_ignored_keys_determined(
    reps: Map<Seq<char>, (bool, Seq<char>)>,
    a: Seq<Seq<char>>,
    b: Seq<Seq<char>>,
)
    requires
        spec_strictly_sorted(a),
        spec_strictly_sorted(b),
        forall|k: Seq<char>|
            #![trigger a.contains(k)]
            #![trigger reps.contains_key(k)]
            a.contains(k) <==> (reps.contains_key(k) && !spec_is_valid_placeholder_key(k)),
        forall|k: Seq<char>|
            #![trigger b.contains(k)]
            #![trigger reps.contains_key(k)]
            b.contains(k) <==> (reps.contains_key(k) && !spec_is_valid_placeholder_key(k)),
    ensures
        a == b,
{
    assert forall|x: Seq<char>| a.contains(x) <==> b.contains(x) by {
        assert(a.contains(x) <==> (reps.contains_key(x) && !spec_is_valid_placeholder_key(x)));
        assert(b.contains(x) <==> (reps.contains_key(x) && !spec_is_valid_placeholder_key(x)));
    }
    lemma_sorted_lists_equal(a, b);
}

} // verus!
