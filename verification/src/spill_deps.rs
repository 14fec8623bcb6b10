//! Dependencies that come from spills: a formula that reads a cell which some
//! array formula may spill into depends on that array formula.
use vstd::prelude::*;
use crate::deps::{depends_on, spec_depends, spec_nested_views};
use crate::error::SpreadsheetError;
use crate::refs::{parse_a1, spec_parse_a1, spec_string_views, CellMap, CellSet};
use crate::spill::{
    fits, lemma_prefix_empty, lemma_prefix_step, spec_cell_at, spec_fits, spec_rect_cells, spec_rect_prefix,
    spill_footprint,
};

verus! {

/// Some entry among the first `upto` of `prov` lists `a` as an anchor whose
/// spill may cover the cell `r`.
pub open spec fn spec_provides(prov: Seq<(String, Vec<String>)>, upto: int, r: Seq<char>, a: Seq<char>) -> bool {
    exists|k: int| 0 <= k < upto && prov[k].0@ == r && #[trigger] spec_string_views(prov[k].1@).contains(a)
}

/// `a` may spill into one of the first `upto` cells of `reads` that is no
/// formula cell.
pub open spec fn spec_spills_into(
    names: Seq<Seq<char>>,
    reads: Seq<Seq<char>>,
    upto: int,
    prov: Seq<(String, Vec<String>)>,
    a: Seq<char>,
) -> bool {
    exists|j: int|
        0 <= j < upto && !names.contains(reads[j]) && #[trigger] spec_provides(prov, prov.len() as int, reads[j], a)
}

/// `a` is an anchor other than `names[i]` that may spill into a cell which
/// `names[i]` reads and which is no formula cell.
pub open spec fn spec_candidate(
    names: Seq<Seq<char>>,
    refs: Seq<Seq<Seq<char>>>,
    prov: Seq<(String, Vec<String>)>,
    i: int,
    a: Seq<char>,
) -> bool {
    a != names[i] && spec_spills_into(names, refs[i], refs[i].len() as int, prov, a)
}

/// `a` is a formula cell whose formula is a FILTER spill source.
pub open spec fn spec_is_filter(names: Seq<Seq<char>>, filter: Seq<bool>, a: Seq<char>) -> bool {
    exists|k: int| 0 <= k < names.len() && k < filter.len() && names[k] == a && #[trigger] filter[k]
}

/// `names[i]` reads the spill of an anchor that depends on `names[i]` and is
/// no FILTER: a circular reference.
pub open spec fn spec_offends(
    names: Seq<Seq<char>>,
    refs: Seq<Seq<Seq<char>>>,
    exp: Seq<Seq<Seq<char>>>,
    prov: Seq<(String, Vec<String>)>,
    filter: Seq<bool>,
    i: int,
) -> bool {
    exists|a: Seq<char>|
        #[trigger] spec_candidate(names, refs, prov, i, a) && spec_depends(names, exp, a, names[i])
            && !spec_is_filter(names, filter, a)
}

/// `names[i]` reads the spill of a FILTER anchor `a` that depends on it: the
/// pair is watched and re-evaluated afterwards instead of failing.
pub open spec fn spec_soft(
    names: Seq<Seq<char>>,
    refs: Seq<Seq<Seq<char>>>,
    exp: Seq<Seq<Seq<char>>>,
    prov: Seq<(String, Vec<String>)>,
    filter: Seq<bool>,
    i: int,
    a: Seq<char>,
) -> bool {
    spec_candidate(names, refs, prov, i, a) && spec_depends(names, exp, a, names[i]) && spec_is_filter(names, filter, a)
}

/// `a` becomes a prerequisite of `names[i]`: a candidate that does not depend
/// on `names[i]` and is not listed already.
pub open spec fn spec_added(
    names: Seq<Seq<char>>,
    refs: Seq<Seq<Seq<char>>>,
    exp: Seq<Seq<Seq<char>>>,
    prov: Seq<(String, Vec<String>)>,
    i: int,
    a: Seq<char>,
) -> bool {
    spec_candidate(names, refs, prov, i, a) && !spec_depends(names, exp, a, names[i]) && !exp[i].contains(a)
}

/// Views of (reader, anchor) pairs.
pub open spec fn spec_pair_views(v: Seq<(String, String)>) -> Seq<(Seq<char>, Seq<char>)> {
    v.map_values(|p: (String, String)| (p.0@, p.1@))
}

proof fn lemma_push_contains<A>(s: Seq<A>, v: A)
    ensures
        forall|x: A| #[trigger] s.push(v).contains(x) <==> (s.contains(x) || x == v),
{
    assert forall|x: A| #[trigger] s.push(v).contains(x) <==> (s.contains(x) || x == v) by {
        if s.push(v).contains(x) {
            let u = choose|u: int| 0 <= u < s.len() + 1 && #[trigger] s.push(v)[u] == x;
            if u < s.len() {
                assert(s[u] == x);
            }
        }
        if s.contains(x) {
            let u = choose|u: int| 0 <= u < s.len() && #[trigger] s[u] == x;
            assert(s.push(v)[u] == x);
        }
        if x == v {
            assert(s.push(v)[s.len() as int] == x);
        }
    }
}

/// Adds every name of `items` to `set`.
fn insert_all(set: &mut CellSet, items: &Vec<String>)
    requires
        old(set).wf(),
    ensures
        final(set).wf(),
        final(set)@ == old(set)@.union(spec_string_views(items@).to_set()),
{
    let ghost v = spec_string_views(items@);
    let mut t: usize = 0;
    while t < items.len()
        invariant
            t <= items@.len(),
            v == spec_string_views(items@),
            set.wf(),
            set@ == old(set)@.union(v.take(t as int).to_set()),
        decreases items.len() - t,
    {
        set.insert(items[t].clone());
        proof {
            assert(v.take(t + 1) =~= v.take(t as int).push(v[t as int]));
            v.take(t as int).lemma_push_to_set_commute(v[t as int]);
            assert(set@ =~= old(set)@.union(v.take(t + 1).to_set()));
        }
        t += 1;
    }
    proof {
        assert(v.take(items@.len() as int) =~= v);
    }
}

/// The anchors whose spill may cover `r`.
fn provided(prov: &Vec<(String, Vec<String>)>, r: &String) -> (out: CellSet)
    ensures
        out.wf(),
        forall|a: Seq<char>| out@.contains(a) <==> spec_provides(prov@, prov@.len() as int, r@, a),
{
    let mut out = CellSet::new();
    let mut k: usize = 0;
    while k < prov.len()
        invariant
            k <= prov@.len(),
            out.wf(),
            forall|a: Seq<char>| out@.contains(a) <==> spec_provides(prov@, k as int, r@, a),
        decreases prov.len() - k,
    {
        let ghost before = out@;
        if prov[k].0 == *r {
            insert_all(&mut out, &prov[k].1);
        }
        proof {
            assert forall|a: Seq<char>| out@.contains(a) <==> spec_provides(prov@, k + 1, r@, a) by {
                if spec_provides(prov@, k + 1, r@, a) {
                    let kk = choose|kk: int|
                        0 <= kk < k + 1 && prov@[kk].0@ == r@ && #[trigger] spec_string_views(prov@[kk].1@).contains(a);
                    if kk < k {
                        assert(spec_provides(prov@, k as int, r@, a));
                    } else {
                        assert(spec_string_views(prov@[kk].1@).to_set().contains(a));
                    }
                }
                if before.contains(a) {
                    let kk = choose|kk: int|
                        0 <= kk < k && prov@[kk].0@ == r@ && #[trigger] spec_string_views(prov@[kk].1@).contains(a);
                    assert(spec_provides(prov@, k + 1, r@, a));
                }
                if out@.contains(a) && !before.contains(a) {
                    assert(spec_string_views(prov@[k as int].1@).to_set().contains(a));
                    assert(spec_string_views(prov@[k as int].1@).contains(a));
                    assert(spec_provides(prov@, k + 1, r@, a));
                }
            }
        }
        k += 1;
    }
    out
}

/// `m` maps each of `nm` to its position, and nothing else.
spec fn spec_indexes(m: Map<Seq<char>, usize>, nm: Seq<Seq<char>>) -> bool {
    &&& forall|k: int| 0 <= k < nm.len() ==> #[trigger] m.contains_key(nm[k]) && m[nm[k]] == k
    &&& forall|x: Seq<char>| #[trigger] m.contains_key(x) ==> m[x] < nm.len() && nm[m[x] as int] == x
}

/// Each name mapped to its position.
fn name_index(names: &Vec<String>) -> (idx: CellMap<usize>)
    requires
        spec_string_views(names@).no_duplicates(),
    ensures
        idx.wf(),
        spec_indexes(idx@, spec_string_views(names@)),
{
    let ghost nm = spec_string_views(names@);
    let mut idx: CellMap<usize> = CellMap::new();
    let mut k: usize = 0;
    while k < names.len()
        invariant
            k <= names@.len(),
            nm == spec_string_views(names@),
            nm.no_duplicates(),
            idx.wf(),
            forall|t: int| 0 <= t < k ==> #[trigger] idx@.contains_key(names@[t]@) && idx@[names@[t]@] == t,
            forall|x: Seq<char>|
                #[trigger] idx@.contains_key(x) ==> idx@[x] < k && names@[idx@[x] as int]@ == x,
        decreases names.len() - k,
    {
        idx.insert(names[k].clone(), k);
        proof {
            assert forall|t: int| 0 <= t < k + 1 implies #[trigger] idx@.contains_key(names@[t]@) && idx@[names@[t]@]
                == t by {
                if t < k {
                    assert(nm[t] == names@[t]@ && nm[k as int] == names@[k as int]@);
                }
            }
        }
        k += 1;
    }
    proof {
        assert forall|t: int| 0 <= t < nm.len() implies #[trigger] idx@.contains_key(nm[t]) && idx@[nm[t]] == t by {
            assert(nm[t] == names@[t]@);
        }
    }
    idx
}

/// The anchors other than `reader` that may spill into a non-formula cell of
/// `reads`.
fn candidates(
    idx: &CellMap<usize>,
    names: &Vec<String>,
    reads: &Vec<String>,
    prov: &Vec<(String, Vec<String>)>,
    reader: &String,
) -> (out: CellSet)
    requires
        forall|x: Seq<char>| idx@.contains_key(x) <==> spec_string_views(names@).contains(x),
    ensures
        out.wf(),
        forall|a: Seq<char>|
            out@.contains(a) <==> (a != reader@ && spec_spills_into(
                spec_string_views(names@),
                spec_string_views(reads@),
                reads@.len() as int,
                prov@,
                a,
            )),
{
    let ghost nm = spec_string_views(names@);
    let ghost rd = spec_string_views(reads@);
    let mut all = CellSet::new();
    let mut j: usize = 0;
    while j < reads.len()
        invariant
            j <= reads@.len(),
            nm == spec_string_views(names@),
            rd == spec_string_views(reads@),
            forall|x: Seq<char>| idx@.contains_key(x) <==> nm.contains(x),
            all.wf(),
            forall|a: Seq<char>| all@.contains(a) <==> spec_spills_into(nm, rd, j as int, prov@, a),
        decreases reads.len() - j,
    {
        let ghost before = all@;
        let ghost r = rd[j as int];
        proof {
            assert(reads@[j as int]@ == r);
        }
        if !idx.contains_key(reads[j].as_str()) {
            let p = provided(prov, &reads[j]);
            insert_all(&mut all, p.names());
        }
        proof {
            assert forall|a: Seq<char>| all@.contains(a) <==> spec_spills_into(nm, rd, j + 1, prov@, a) by {
                if spec_spills_into(nm, rd, j + 1, prov@, a) {
                    let jj = choose|jj: int|
                        0 <= jj < j + 1 && !nm.contains(rd[jj]) && #[trigger] spec_provides(
                            prov@,
                            prov@.len() as int,
                            rd[jj],
                            a,
                        );
                    if jj < j {
                        assert(spec_spills_into(nm, rd, j as int, prov@, a));
                    }
                }
                if before.contains(a) {
                    let jj = choose|jj: int|
                        0 <= jj < j && !nm.contains(rd[jj]) && #[trigger] spec_provides(
                            prov@,
                            prov@.len() as int,
                            rd[jj],
                            a,
                        );
                    assert(spec_spills_into(nm, rd, j + 1, prov@, a));
                }
                if all@.contains(a) && !before.contains(a) {
                    assert(spec_provides(prov@, prov@.len() as int, rd[j as int], a));
                    assert(spec_spills_into(nm, rd, j + 1, prov@, a));
                }
            }
        }
        j += 1;
    }
    let mut out = CellSet::new();
    let list = all.names();
    let ghost lv = spec_string_views(list@);
    let mut t: usize = 0;
    while t < list.len()
        invariant
            t <= list@.len(),
            lv == spec_string_views(list@),
            lv.to_set() == all@,
            out.wf(),
            out@ == lv.take(t as int).to_set().remove(reader@),
        decreases list.len() - t,
    {
        proof {
            assert(lv.take(t + 1) =~= lv.take(t as int).push(lv[t as int]));
            lv.take(t as int).lemma_push_to_set_commute(lv[t as int]);
        }
        if list[t] != *reader {
            out.insert(list[t].clone());
            proof {
                assert(out@ =~= lv.take(t + 1).to_set().remove(reader@));
            }
        } else {
            proof {
                assert(out@ =~= lv.take(t + 1).to_set().remove(reader@));
            }
        }
        t += 1;
    }
    proof {
        assert(lv.take(list@.len() as int) =~= lv);
    }
    out
}

/// Whether `a` is a formula cell whose formula is a FILTER spill source.
fn is_filter(idx: &CellMap<usize>, names: &Vec<String>, filter: &Vec<bool>, a: &String) -> (r: bool)
    requires
        spec_string_views(names@).no_duplicates(),
        filter@.len() == names@.len(),
        spec_indexes(idx@, spec_string_views(names@)),
    ensures
        r == spec_is_filter(spec_string_views(names@), filter@, a@),
{
    let ghost nm = spec_string_views(names@);
    match idx.get(a.as_str()) {
        Some(k) => {
            let r = filter[*k];
            proof {
                assert(nm[*k as int] == a@);
                if spec_is_filter(nm, filter@, a@) {
                    let kk = choose|kk: int| 0 <= kk < nm.len() && kk < filter@.len() && nm[kk] == a@ && #[trigger] filter@[kk];
                    assert(idx@.contains_key(nm[kk]));
                }
            }
            r
        },
        None => {
            proof {
                if spec_is_filter(nm, filter@, a@) {
                    let kk = choose|kk: int| 0 <= kk < nm.len() && kk < filter@.len() && nm[kk] == a@ && #[trigger] filter@[kk];
                    assert(idx@.contains_key(nm[kk]));
                }
            }
            false
        },
    }
}

/// A copy of `v`.
fn copy_names(v: &Vec<String>) -> (r: Vec<String>)
    ensures
        spec_string_views(r@) == spec_string_views(v@),
{
    let ghost e = spec_string_views(v@);
    let mut row: Vec<String> = Vec::new();
    let mut t: usize = 0;
    while t < v.len()
        invariant
            e == spec_string_views(v@),
            e.len() == v@.len(),
            t <= e.len(),
            spec_string_views(row@) == e.take(t as int),
        decreases v@.len() - t,
    {
        let ghost before = spec_string_views(row@);
        row.push(v[t].clone());
        proof {
            assert(e[t as int] == v@[t as int]@);
            assert(spec_string_views(row@) =~= before.push(e[t as int]));
            assert(spec_string_views(row@) =~= e.take(t + 1));
        }
        t += 1;
    }
    proof {
        assert(e.take(e.len() as int) =~= e);
    }
    row
}

/// Whether `v` lists `a`.
fn lists(v: &Vec<String>, a: &String) -> (r: bool)
    ensures
        r == spec_string_views(v@).contains(a@),
{
    let mut t: usize = 0;
    while t < v.len()
        invariant
            t <= v@.len(),
            forall|u: int| 0 <= u < t ==> spec_string_views(v@)[u] != a@,
        decreases v.len() - t,
    {
        if v[t] == *a {
            proof {
                assert(spec_string_views(v@)[t as int] == a@);
            }
            return true;
        }
        t += 1;
    }
    false
}

/// The prerequisites of `names[i]` with the spill anchors added: `d` begins
/// with `exp[i]` and goes on with the added anchors (see [`spec_added`]), each
/// once.
pub open spec fn spec_row(
    names: Seq<Seq<char>>,
    refs: Seq<Seq<Seq<char>>>,
    exp: Seq<Seq<Seq<char>>>,
    prov: Seq<(String, Vec<String>)>,
    d: Seq<Seq<char>>,
    i: int,
) -> bool {
    let e = exp[i];
    &&& d.len() >= e.len()
    &&& d.subrange(0, e.len() as int) == e
    &&& d.skip(e.len() as int).no_duplicates()
    &&& forall|a: Seq<char>| d.skip(e.len() as int).contains(a) <==> spec_added(names, refs, exp, prov, i, a)
}

/// Some formula cell `names[i]` and FILTER anchor `p.1` are a watched pair `p`
/// (see [`spec_soft`]).
pub open spec fn spec_watched(
    names: Seq<Seq<char>>,
    refs: Seq<Seq<Seq<char>>>,
    exp: Seq<Seq<Seq<char>>>,
    prov: Seq<(String, Vec<String>)>,
    filter: Seq<bool>,
    upto: int,
    p: (Seq<char>, Seq<char>),
) -> bool {
    exists|i: int| 0 <= i < upto && p.0 == names[i] && #[trigger] spec_soft(names, refs, exp, prov, filter, i, p.1)
}

/// Adds the spill anchors to the prerequisites of each formula cell.
///
/// `names` are the formula cells; `refs[i]` the cells `names[i]` reads,
/// `explicit[i]` its prerequisites among the formula cells, `providers` lists
/// for a cell the anchors whose spill may cover it, and `filter_source[i]`
/// tells whether `names[i]` is a FILTER spill source. A formula that reads a
/// non-formula cell which another anchor may spill into depends on that
/// anchor, unless the anchor depends on it: then a FILTER anchor is watched
/// (reader, anchor), and any other anchor is a `CircularReference` naming the
/// first such reader.
pub fn spill_dependencies(
    names: &Vec<String>,
    refs: &Vec<Vec<String>>,
    explicit: &Vec<Vec<String>>,
    providers: &Vec<(String, Vec<String>)>,
    filter_source: &Vec<bool>,
) -> (r: Result<(Vec<Vec<String>>, Vec<(String, String)>), SpreadsheetError>)
    requires
        spec_string_views(names@).no_duplicates(),
        refs@.len() == names@.len(),
        explicit@.len() == names@.len(),
        filter_source@.len() == names@.len(),
    ensures
        ({
            let nm = spec_string_views(names@);
            let rf = spec_nested_views(refs@);
            let ex = spec_nested_views(explicit@);
            let n = names@.len() as int;
            &&& (r is Err <==> exists|i: int| 0 <= i < n && #[trigger] spec_offends(nm, rf, ex, providers@, filter_source@, i))
            &&& (r matches Err(e) ==> exists|i: int|
                0 <= i < n && #[trigger] spec_offends(nm, rf, ex, providers@, filter_source@, i) && (forall|i2: int|
                    0 <= i2 < i ==> !#[trigger] spec_offends(nm, rf, ex, providers@, filter_source@, i2))
                    && e == SpreadsheetError::CircularReference(names@[i]))
            &&& (r matches Ok((deps, watch)) ==> {
                &&& deps@.len() == n
                &&& forall|i: int| 0 <= i < n ==> #[trigger] spec_row(nm, rf, ex, providers@, spec_nested_views(deps@)[i], i)
                &&& forall|p: (Seq<char>, Seq<char>)|
                    spec_pair_views(watch@).contains(p) <==> spec_watched(nm, rf, ex, providers@, filter_source@, n, p)
            })
        }),
{
    let ghost nm = spec_string_views(names@);
    let ghost rf = spec_nested_views(refs@);
    let ghost ex = spec_nested_views(explicit@);
    let ghost prov = providers@;
    let ghost fl = filter_source@;
    let idx = name_index(names);
    proof {
        assert forall|x: Seq<char>| idx@.contains_key(x) <==> nm.contains(x) by {
            if idx@.contains_key(x) {
                assert(nm[idx@[x] as int] == x);
            }
            if nm.contains(x) {
                let k = choose|k: int| 0 <= k < nm.len() && nm[k] == x;
                assert(idx@.contains_key(nm[k]));
            }
        }
    }
    let n = names.len();
    let mut deps: Vec<Vec<String>> = Vec::new();
    let mut watch: Vec<(String, String)> = Vec::new();
    let mut i: usize = 0;
    while i < n
        invariant
            i <= n,
            n == names@.len(),
            nm == spec_string_views(names@),
            nm.no_duplicates(),
            rf == spec_nested_views(refs@),
            ex == spec_nested_views(explicit@),
            prov == providers@,
            fl == filter_source@,
            refs@.len() == n,
            explicit@.len() == n,
            fl.len() == n,
            forall|x: Seq<char>| idx@.contains_key(x) <==> nm.contains(x),
            spec_indexes(idx@, nm),
            deps@.len() == i,
            forall|i2: int| 0 <= i2 < i ==> !#[trigger] spec_offends(nm, rf, ex, prov, fl, i2),
            forall|i2: int| 0 <= i2 < i ==> #[trigger] spec_row(nm, rf, ex, prov, spec_nested_views(deps@)[i2], i2),
            forall|p: (Seq<char>, Seq<char>)|
                spec_pair_views(watch@).contains(p) <==> spec_watched(nm, rf, ex, prov, fl, i as int, p),
        decreases n - i,
    {
        let reader = &names[i];
        let cand = candidates(&idx, names, &refs[i], providers, reader);
        let list = cand.names();
        let ghost lv = spec_string_views(list@);
        let ghost e = ex[i as int];
        proof {
            assert(rf[i as int] == spec_string_views(refs@[i as int]@));
            assert(e == spec_string_views(explicit@[i as int]@));
            assert(nm[i as int] == reader@);
            assert forall|a: Seq<char>| lv.contains(a) <==> #[trigger] spec_candidate(nm, rf, prov, i as int, a) by {
                assert(lv.to_set().contains(a) == lv.contains(a));
            }
        }
        let ex_i = &explicit[i];
        let mut row = copy_names(ex_i);
        proof {
            assert(spec_string_views(row@).subrange(0, e.len() as int) =~= e);
            assert(spec_string_views(row@).skip(e.len() as int) =~= Seq::<Seq<char>>::empty());
        }
        let ghost watch0 = spec_pair_views(watch@);
        let mut t: usize = 0;
        while t < list.len()
            invariant
                i < n,
                n == names@.len(),
                nm == spec_string_views(names@),
                nm.no_duplicates(),
                rf == spec_nested_views(refs@),
                ex == spec_nested_views(explicit@),
                prov == providers@,
                fl == filter_source@,
                refs@.len() == n,
                explicit@.len() == n,
                fl.len() == n,
                spec_indexes(idx@, nm),
                nm[i as int] == reader@,
                *reader == names@[i as int],
                e == ex[i as int],
                e == spec_string_views(explicit@[i as int]@),
                ex_i@ == explicit@[i as int]@,
                lv == spec_string_views(list@),
                lv.no_duplicates(),
                forall|a: Seq<char>| lv.contains(a) <==> #[trigger] spec_candidate(nm, rf, prov, i as int, a),
                t <= lv.len(),
                forall|i2: int| 0 <= i2 < i ==> !#[trigger] spec_offends(nm, rf, ex, prov, fl, i2),
                forall|u: int|
                    0 <= u < t ==> !(spec_depends(nm, ex, #[trigger] lv[u], reader@) && !spec_is_filter(nm, fl, lv[u])),
                spec_string_views(row@).len() >= e.len(),
                spec_string_views(row@).subrange(0, e.len() as int) == e,
                spec_string_views(row@).skip(e.len() as int).no_duplicates(),
                forall|a: Seq<char>|
                    #![trigger spec_string_views(row@).skip(e.len() as int).contains(a)]
                    #![trigger lv.take(t as int).contains(a)]
                    spec_string_views(row@).skip(e.len() as int).contains(a) <==> (lv.take(t as int).contains(a)
                        && !spec_depends(nm, ex, a, reader@) && !e.contains(a)),
                forall|p: (Seq<char>, Seq<char>)|
                    #![trigger spec_pair_views(watch@).contains(p)]
                    #![trigger watch0.contains(p)]
                    spec_pair_views(watch@).contains(p) <==> (watch0.contains(p) || (p.0 == reader@ && lv.take(
                        t as int,
                    ).contains(p.1) && spec_depends(nm, ex, p.1, reader@) && spec_is_filter(nm, fl, p.1))),
            decreases list.len() - t,
        {
            let a = &list[t];
            let ghost av = lv[t as int];
            let ghost rv = spec_string_views(row@);
            let ghost wv = spec_pair_views(watch@);
            proof {
                assert(a@ == av);
                assert(lv.take(t + 1) =~= lv.take(t as int).push(av));
                lemma_push_contains(lv.take(t as int), av);
                assert(!lv.take(t as int).contains(av)) by {
                    if lv.take(t as int).contains(av) {
                        let u = choose|u: int| 0 <= u < t && lv.take(t as int)[u] == av;
                        assert(lv[u] == lv[t as int]);
                    }
                }
            }
            if depends_on(a.as_str(), reader.as_str(), names, explicit) {
                if is_filter(&idx, names, filter_source, a) {
                    watch.push((reader.clone(), a.clone()));
                    proof {
                        assert(spec_pair_views(watch@) =~= wv.push((reader@, av)));
                        assert(spec_depends(nm, ex, av, reader@));
                        assert(rv.skip(e.len() as int).contains(av) ==> lv.take(t as int).contains(av));
                        assert(!rv.skip(e.len() as int).contains(av));
                        lemma_push_contains(wv, (reader@, av));
                        assert forall|p: (Seq<char>, Seq<char>)|
                            spec_pair_views(watch@).contains(p) <==> (watch0.contains(p) || (p.0 == reader@ && lv.take(
                                t + 1,
                            ).contains(p.1) && spec_depends(nm, ex, p.1, reader@) && spec_is_filter(nm, fl, p.1))) by {
                            assert(wv.contains(p) <==> (watch0.contains(p) || (p.0 == reader@ && lv.take(
                                t as int,
                            ).contains(p.1) && spec_depends(nm, ex, p.1, reader@) && spec_is_filter(nm, fl, p.1))));
                            assert(spec_pair_views(watch@).contains(p) <==> (wv.contains(p) || p == (reader@, av)));
                        }
                        assert forall|x: Seq<char>|
                            rv.skip(e.len() as int).contains(x) <==> (lv.take(t + 1).contains(x) && !spec_depends(
                                nm,
                                ex,
                                x,
                                reader@,
                            ) && !e.contains(x)) by {
                            }
                    }
                } else {
                    proof {
                        assert(spec_candidate(nm, rf, prov, i as int, av));
                        assert(spec_offends(nm, rf, ex, prov, fl, i as int));
                    }
                    return Err(SpreadsheetError::CircularReference(reader.clone()));
                }
            } else if !lists(ex_i, a) {
                row.push(a.clone());
                proof {
                    let nv = spec_string_views(row@);
                    assert(nv =~= rv.push(av));
                    assert(nv.subrange(0, e.len() as int) =~= rv.subrange(0, e.len() as int));
                    assert(nv.skip(e.len() as int) =~= rv.skip(e.len() as int).push(av));
                    assert(!rv.skip(e.len() as int).contains(av));
                    lemma_push_contains(rv.skip(e.len() as int), av);
                    assert forall|x: Seq<char>|
                        nv.skip(e.len() as int).contains(x) <==> (lv.take(t + 1).contains(x) && !spec_depends(
                            nm,
                            ex,
                            x,
                            reader@,
                        ) && !e.contains(x)) by {
                    }
                    assert forall|p: (Seq<char>, Seq<char>)|
                        spec_pair_views(watch@).contains(p) <==> (watch0.contains(p) || (p.0 == reader@ && lv.take(
                            t + 1,
                        ).contains(p.1) && spec_depends(nm, ex, p.1, reader@) && spec_is_filter(nm, fl, p.1))) by {
                        assert(wv.contains(p) <==> (watch0.contains(p) || (p.0 == reader@ && lv.take(t as int).contains(
                            p.1,
                        ) && spec_depends(nm, ex, p.1, reader@) && spec_is_filter(nm, fl, p.1))));
                    }
                }
            } else {
                proof {
                    assert(e.contains(av));
                    assert forall|x: Seq<char>|
                        rv.skip(e.len() as int).contains(x) <==> (lv.take(t + 1).contains(x) && !spec_depends(
                            nm,
                            ex,
                            x,
                            reader@,
                        ) && !e.contains(x)) by {
                    }
                    assert forall|p: (Seq<char>, Seq<char>)|
                        spec_pair_views(watch@).contains(p) <==> (watch0.contains(p) || (p.0 == reader@ && lv.take(
                            t + 1,
                        ).contains(p.1) && spec_depends(nm, ex, p.1, reader@) && spec_is_filter(nm, fl, p.1))) by {
                        assert(wv.contains(p) <==> (watch0.contains(p) || (p.0 == reader@ && lv.take(t as int).contains(
                            p.1,
                        ) && spec_depends(nm, ex, p.1, reader@) && spec_is_filter(nm, fl, p.1))));
                    }
                }
            }
            t += 1;
        }
        proof {
            assert(lv.take(lv.len() as int) =~= lv);
            assert(!spec_offends(nm, rf, ex, prov, fl, i as int)) by {
                if spec_offends(nm, rf, ex, prov, fl, i as int) {
                    let a = choose|a: Seq<char>|
                        #[trigger] spec_candidate(nm, rf, prov, i as int, a) && spec_depends(nm, ex, a, nm[i as int])
                            && !spec_is_filter(nm, fl, a);
                    assert(lv.contains(a));
                    let u = choose|u: int| 0 <= u < lv.len() && lv[u] == a;
                    assert(spec_depends(nm, ex, lv[u], reader@));
                }
            }
        }
        let ghost rowv = spec_string_views(row@);
        proof {
            assert forall|a: Seq<char>| rowv.skip(e.len() as int).contains(a) <==> spec_added(nm, rf, ex, prov, i as int, a) by {
                assert(lv.contains(a) <==> spec_candidate(nm, rf, prov, i as int, a));
            }
        }
        let ghost deps0 = deps@;
        deps.push(row);
        proof {
            assert(deps@ == deps0.push(deps@[i as int]));
            assert(spec_nested_views(deps@)[i as int] == rowv);
            assert(spec_row(nm, rf, ex, prov, rowv, i as int));
            assert forall|i2: int| 0 <= i2 < i + 1 implies #[trigger] spec_row(nm, rf, ex, prov, spec_nested_views(deps@)[i2], i2) by {
                if i2 < i {
                    assert(spec_nested_views(deps@)[i2] == spec_nested_views(deps0)[i2]);
                }
            }
            assert forall|p: (Seq<char>, Seq<char>)|
                spec_pair_views(watch@).contains(p) <==> spec_watched(nm, rf, ex, prov, fl, i + 1, p) by {
                if spec_watched(nm, rf, ex, prov, fl, i + 1, p) {
                    let i2 = choose|i2: int| 0 <= i2 < i + 1 && p.0 == nm[i2] && #[trigger] spec_soft(nm, rf, ex, prov, fl, i2, p.1);
                    if i2 < i {
                        assert(spec_watched(nm, rf, ex, prov, fl, i as int, p));
                    } else {
                        assert(lv.contains(p.1));
                    }
                }
                if spec_pair_views(watch@).contains(p) && !watch0.contains(p) {
                    assert(spec_soft(nm, rf, ex, prov, fl, i as int, p.1));
                }
                if watch0.contains(p) {
                    let i2 = choose|i2: int| 0 <= i2 < i && p.0 == nm[i2] && #[trigger] spec_soft(nm, rf, ex, prov, fl, i2, p.1);
                    assert(spec_watched(nm, rf, ex, prov, fl, i + 1, p));
                }
            }
        }
        i += 1;
    }
    Ok((deps, watch))
}

/// An array result of `shape` at `anchor` covers the cell `r`, which is not
/// the anchor: the anchor is an A1 cell and the rectangle lies on the grid.
pub open spec fn spec_shape_covers(anchor: Seq<char>, shape: Option<(usize, usize)>, r: Seq<char>) -> bool {
    match (shape, spec_parse_a1(anchor)) {
        (Some((h, w)), Some((c, row))) => spec_fits(c as int, row as int, h as int, w as int) && spec_rect_cells(
            c as int,
            row as int,
            h as int,
            w as int,
        ).contains(r) && r != anchor,
        _ => false,
    }
}

/// `a` is one of the first `upto` formula cells and its spill may cover `r`.
pub open spec fn spec_spill_covers(
    names: Seq<Seq<char>>,
    shapes: Seq<Option<(usize, usize)>>,
    upto: int,
    a: Seq<char>,
    r: Seq<char>,
) -> bool {
    exists|i: int| 0 <= i < upto && names[i] == a && #[trigger] spec_shape_covers(names[i], shapes[i], r)
}

/// The table lists `a` among the anchors of `x`.
pub open spec fn spec_table_has(m: Map<Seq<char>, Vec<String>>, x: Seq<char>, a: Seq<char>) -> bool {
    m.contains_key(x) && spec_string_views(m[x]@).contains(a)
}

/// For each cell that some spill may cover, the anchors whose spill may cover
/// it. `shapes[i]` is the largest array `names[i]` may return (rows,
/// columns), or `None` for a single value.
pub fn spill_providers(names: &Vec<String>, shapes: &Vec<Option<(usize, usize)>>) -> (r: Vec<(String, Vec<String>)>)
    requires
        shapes@.len() == names@.len(),
    ensures
        forall|x: Seq<char>, a: Seq<char>|
            spec_provides(r@, r@.len() as int, x, a) <==> spec_spill_covers(
                spec_string_views(names@),
                shapes@,
                names@.len() as int,
                a,
                x,
            ),
{
    let ghost nm = spec_string_views(names@);
    let mut table: CellMap<Vec<String>> = CellMap::new();
    let n = names.len();
    let mut i: usize = 0;
    while i < n
        invariant
            i <= n,
            n == names@.len(),
            n == shapes@.len(),
            nm == spec_string_views(names@),
            table.wf(),
            forall|x: Seq<char>, a: Seq<char>|
                #[trigger] spec_table_has(table@, x, a) <==> spec_spill_covers(nm, shapes@, i as int, a, x),
        decreases n - i,
    {
        let anchor = &names[i];
        let ghost av = nm[i as int];
        proof {
            assert(anchor@ == av);
        }
        let mut rect: Option<(u32, u32, usize, usize)> = None;
        if let Some((h, w)) = shapes[i] {
            if let Some((c, row)) = parse_a1(anchor.as_str()) {
                if fits(c, row, h, w) {
                    rect = Some((c, row, h, w));
                }
            }
        }
        match rect {
            None => {
                proof {
                    assert forall|x: Seq<char>, a: Seq<char>|
                        #[trigger] spec_table_has(table@, x, a) <==> spec_spill_covers(nm, shapes@, i + 1, a, x) by {
                        if spec_spill_covers(nm, shapes@, i + 1, a, x) {
                            let j = choose|j: int|
                                0 <= j < i + 1 && nm[j] == a && #[trigger] spec_shape_covers(nm[j], shapes@[j], x);
                            if j == i {
                                assert(!spec_shape_covers(av, shapes@[i as int], x));
                            }
                            assert(spec_spill_covers(nm, shapes@, i as int, a, x));
                        }
                        if spec_spill_covers(nm, shapes@, i as int, a, x) {
                            let j = choose|j: int|
                                0 <= j < i && nm[j] == a && #[trigger] spec_shape_covers(nm[j], shapes@[j], x);
                            assert(spec_spill_covers(nm, shapes@, i + 1, a, x));
                        }
                    }
                }
            },
            Some((c, row, h, w)) => {
                let ghost ci = c as int;
                let ghost ri = row as int;
                let ghost wi = w as int;
                let fp = spill_footprint(c, row, h, w);
                proof {
                    lemma_prefix_empty(ci, ri, wi);
                }
                let mut dr: usize = 0;
                while dr < h
                    invariant
                        i < n,
                        n == names@.len(),
                        n == shapes@.len(),
                        nm == spec_string_views(names@),
                        anchor@ == av,
                        av == nm[i as int],
                        shapes@[i as int] == Some((h, w)),
                        spec_parse_a1(av) == Some((c, row)),
                        spec_fits(ci, ri, h as int, wi),
                        ci == c,
                        ri == row,
                        wi == w,
                        dr <= h,
                        fp@.len() == h,
                        forall|a: int| 0 <= a < h ==> #[trigger] fp@[a]@.len() == w,
                        forall|a: int, b: int|
                            0 <= a < h && 0 <= b < w ==> #[trigger] fp@[a]@[b]@ == spec_cell_at(ci, ri, a, b),
                        table.wf(),
                        forall|x: Seq<char>, a: Seq<char>|
                            #[trigger] spec_table_has(table@, x, a) <==> (spec_spill_covers(nm, shapes@, i as int, a, x)
                                || (a == av && spec_rect_prefix(ci, ri, wi, dr as int, 0).contains(x) && x != av)),
                    decreases h - dr,
                {
                    let mut dc: usize = 0;
                    while dc < w
                        invariant
                            i < n,
                            n == names@.len(),
                            n == shapes@.len(),
                            nm == spec_string_views(names@),
                            anchor@ == av,
                            av == nm[i as int],
                            ci == c,
                            ri == row,
                            wi == w,
                            dr < h,
                            dc <= w,
                            fp@.len() == h,
                            forall|a: int| 0 <= a < h ==> #[trigger] fp@[a]@.len() == w,
                            forall|a: int, b: int|
                                0 <= a < h && 0 <= b < w ==> #[trigger] fp@[a]@[b]@ == spec_cell_at(ci, ri, a, b),
                            table.wf(),
                            forall|x: Seq<char>, a: Seq<char>|
                                #[trigger] spec_table_has(table@, x, a) <==> (spec_spill_covers(
                                    nm,
                                    shapes@,
                                    i as int,
                                    a,
                                    x,
                                ) || (a == av && spec_rect_prefix(ci, ri, wi, dr as int, dc as int).contains(x)
                                    && x != av)),
                        decreases w - dc,
                    {
                        let t = &fp[dr][dc];
                        let ghost y = spec_cell_at(ci, ri, dr as int, dc as int);
                        let ghost before = table@;
                        proof {
                            lemma_prefix_step(ci, ri, wi, dr as int, dc as int);
                            assert(t@ == y);
                        }
                        if *t != *anchor {
                            let mut list: Vec<String> = match table.get(t.as_str()) {
                                Some(v) => copy_names(v),
                                None => Vec::new(),
                            };
                            let ghost lv = spec_string_views(list@);
                            list.push(anchor.clone());
                            proof {
                                assert(spec_string_views(list@) =~= lv.push(av));
                                lemma_push_contains(lv, av);
                            }
                            table.insert(t.clone(), list);
                            proof {
                                assert forall|x: Seq<char>, a: Seq<char>|
                                    #[trigger] spec_table_has(table@, x, a) <==> (spec_spill_covers(
                                        nm,
                                        shapes@,
                                        i as int,
                                        a,
                                        x,
                                    ) || (a == av && spec_rect_prefix(ci, ri, wi, dr as int, dc + 1).contains(x)
                                        && x != av)) by {
                                    if x == y {
                                        assert(spec_table_has(before, x, a) <==> (before.contains_key(x) && lv.contains(a)));
                                    } else {
                                        assert(spec_table_has(table@, x, a) == spec_table_has(before, x, a));
                                    }
                                }
                            }
                        } else {
                            proof {
                                assert forall|x: Seq<char>, a: Seq<char>|
                                    #[trigger] spec_table_has(table@, x, a) <==> (spec_spill_covers(
                                        nm,
                                        shapes@,
                                        i as int,
                                        a,
                                        x,
                                    ) || (a == av && spec_rect_prefix(ci, ri, wi, dr as int, dc + 1).contains(x)
                                        && x != av)) by {
                                    assert(spec_table_has(table@, x, a) == spec_table_has(before, x, a));
                                }
                            }
                        }
                        dc += 1;
                    }
                    proof {
                        if wi > 0 {
                            lemma_prefix_step(ci, ri, wi, dr as int, wi - 1);
                        } else {
                            assert(spec_rect_prefix(ci, ri, wi, dr as int, 0) =~= spec_rect_prefix(ci, ri, wi, dr + 1, 0));
                        }
                    }
                    dr += 1;
                }
                proof {
                    assert forall|x: Seq<char>, a: Seq<char>|
                        #[trigger] spec_table_has(table@, x, a) <==> spec_spill_covers(nm, shapes@, i + 1, a, x) by {
                        assert(spec_shape_covers(av, shapes@[i as int], x) <==> (spec_rect_cells(ci, ri, h as int, wi).contains(
                            x,
                        ) && x != av));
                        if spec_spill_covers(nm, shapes@, i + 1, a, x) {
                            let j = choose|j: int|
                                0 <= j < i + 1 && nm[j] == a && #[trigger] spec_shape_covers(nm[j], shapes@[j], x);
                            if j < i {
                                assert(spec_spill_covers(nm, shapes@, i as int, a, x));
                            }
                        }
                        if spec_spill_covers(nm, shapes@, i as int, a, x) {
                            let j = choose|j: int|
                                0 <= j < i && nm[j] == a && #[trigger] spec_shape_covers(nm[j], shapes@[j], x);
                            assert(spec_spill_covers(nm, shapes@, i + 1, a, x));
                        }
                        if a == av && spec_rect_cells(ci, ri, h as int, wi).contains(x) && x != av {
                            assert(spec_shape_covers(nm[i as int], shapes@[i as int], x));
                            assert(spec_spill_covers(nm, shapes@, i + 1, a, x));
                        }
                    }
                }
            },
        }
        i += 1;
    }
    let keys = table.keys();
    let ghost kv = spec_string_views(keys@);
    let mut out: Vec<(String, Vec<String>)> = Vec::new();
    let mut t: usize = 0;
    while t < keys.len()
        invariant
            t <= keys@.len(),
            kv == spec_string_views(keys@),
            kv.to_set() == table@.dom(),
            forall|x: Seq<char>, a: Seq<char>|
                #![trigger spec_provides(out@, out@.len() as int, x, a)]
                #![trigger spec_table_has(table@, x, a)]
                spec_provides(out@, out@.len() as int, x, a) <==> (kv.take(t as int).contains(x) && spec_table_has(
                    table@,
                    x,
                    a,
                )),
        decreases keys.len() - t,
    {
        let k = &keys[t];
        proof {
            assert(k@ == kv[t as int]);
            assert(kv.to_set().contains(k@));
            lemma_push_contains(kv.take(t as int), k@);
            assert(kv.take(t + 1) =~= kv.take(t as int).push(k@));
        }
        let list = match table.get(k.as_str()) {
            Some(v) => copy_names(v),
            None => Vec::new(),
        };
        proof {
            assert(table@.contains_key(k@));
            assert(spec_string_views(list@) == spec_string_views(table@[k@]@));
        }
        let ghost before = out@;
        out.push((k.clone(), list));
        proof {
            assert forall|x: Seq<char>, a: Seq<char>|
                #![trigger spec_provides(out@, out@.len() as int, x, a)]
                #![trigger spec_table_has(table@, x, a)]
                spec_provides(out@, out@.len() as int, x, a) <==> (kv.take(t + 1).contains(x) && spec_table_has(
                    table@,
                    x,
                    a,
                )) by {
                if spec_provides(out@, out@.len() as int, x, a) {
                    let j = choose|j: int|
                        0 <= j < out@.len() as int && out@[j].0@ == x && #[trigger] spec_string_views(out@[j].1@).contains(a);
                    if j < before.len() {
                        assert(out@[j] == before[j]);
                        assert(spec_provides(before, before.len() as int, x, a));
                        assert(kv.take(t as int).contains(x));
                        assert(kv.take(t + 1).contains(x));
                    } else {
                        assert(x == k@);
                        assert(spec_table_has(table@, x, a));
                    }
                }
                if spec_provides(before, before.len() as int, x, a) {
                    let j = choose|j: int|
                        0 <= j < before.len() as int && before[j].0@ == x && #[trigger] spec_string_views(before[j].1@).contains(a);
                    assert(out@[j] == before[j]);
                    assert(spec_provides(out@, out@.len() as int, x, a));
                }
                if kv.take(t as int).contains(x) && spec_table_has(table@, x, a) {
                    assert(spec_provides(before, before.len() as int, x, a));
                    let j = choose|j: int|
                        0 <= j < before.len() as int && before[j].0@ == x && #[trigger] spec_string_views(before[j].1@).contains(a);
                    assert(out@[j] == before[j]);
                    assert(spec_provides(out@, out@.len() as int, x, a));
                }
                if x == k@ && spec_table_has(table@, x, a) {
                    assert(out@[before.len() as int].0@ == x);
                    assert(spec_string_views(out@[before.len() as int].1@).contains(a));
                    assert(spec_provides(out@, out@.len() as int, x, a));
                }
            }
        }
        t += 1;
    }
    proof {
        assert(kv.take(keys@.len() as int) =~= kv);
        assert forall|x: Seq<char>, a: Seq<char>|
            spec_provides(out@, out@.len() as int, x, a) <==> spec_spill_covers(nm, shapes@, n as int, a, x) by {
            if spec_table_has(table@, x, a) {
                assert(kv.to_set().contains(x));
            }
        }
    }
    out
}

} // verus!
