//! Re-evaluation after a FILTER anchor and a cell that reads its spill were
//! evaluated out of dependency order (a watched pair): which cells to evaluate
//! again, and when to stop. The evaluation itself is the caller's.
use vstd::prelude::*;
use crate::deps::{dependents_closure, spec_nested_views, spec_reaches_marked};
use crate::refs::{spec_string_views, CellMap, CellSet};
use crate::spill_deps::spec_pair_views;

verus! {

/// Sweeps of a re-evaluation: readers take up the grown spill, then anchors
/// and their dependents take up the updated readers.
pub const MAX_SWEEPS: usize = 2;

/// `seeds` grown by one pass over `watch`, in order: a pair with a member in
/// the set so far adds both its cells.
pub open spec fn spec_wave(seeds: Set<Seq<char>>, watch: Seq<(Seq<char>, Seq<char>)>) -> Set<Seq<char>>
    decreases watch.len(),
{
    if watch.len() == 0 {
        seeds
    } else {
        let w = spec_wave(seeds, watch.drop_last());
        let p = watch.last();
        if w.contains(p.0) || w.contains(p.1) {
            w.insert(p.0).insert(p.1)
        } else {
            w
        }
    }
}

/// Whether another sweep follows one that has just ended: only while a cell
/// changed, and at most [`MAX_SWEEPS`] in all.
pub fn sweep_again(done: usize, changed: bool) -> (r: bool)
    ensures
        r == (changed && done < MAX_SWEEPS),
{
    changed && done < MAX_SWEEPS
}

/// Whether `v` lists `a`.
fn listed(v: &Vec<String>, a: &String) -> (r: bool)
    ensures
        r == spec_string_views(v@).contains(a@),
{
    let mut t: usize = 0;
    while t < v.len()
        invariant
            t <= v@.len(),
            forall|u: int| 0 <= u < t ==> spec_string_views(v@)[u] != a@,
        decreases v.len() - t,
    {
        if v[t] == *a {
            proof {
                assert(spec_string_views(v@)[t as int] == a@);
            }
            return true;
        }
        t += 1;
    }
    false
}

/// Pair `k` of `watch` has a cell in `layer`, and `x` is one of its cells.
pub open spec fn spec_pair_hit(watch: Seq<(Seq<char>, Seq<char>)>, layer: Seq<Seq<char>>, k: int, x: Seq<char>) -> bool {
    (layer.contains(watch[k].0) || layer.contains(watch[k].1)) && (x == watch[k].0 || x == watch[k].1)
}

/// A cell of a watched pair that is a member of a pair with a cell in
/// `layer`, and already holds a result.
pub open spec fn spec_touched<T>(
    watch: Seq<(Seq<char>, Seq<char>)>,
    layer: Seq<Seq<char>>,
    cache: Map<Seq<char>, T>,
    text_cells: Map<Seq<char>, String>,
    x: Seq<char>,
) -> bool {
    &&& exists|k: int| 0 <= k < watch.len() && #[trigger] spec_pair_hit(watch, layer, k, x)
    &&& (cache.contains_key(x) || text_cells.contains_key(x))
}

/// The cells of the watched pairs that a just-evaluated `layer` touches (see
/// [`spec_touched`]). A cell without a result yet is left for its own layer.
pub fn touched_seeds<T>(
    watch: &Vec<(String, String)>,
    layer: &Vec<String>,
    cache: &CellMap<T>,
    text_cells: &CellMap<String>,
) -> (r: Vec<String>)
    ensures
        forall|x: Seq<char>|
            spec_string_views(r@).contains(x) <==> spec_touched(
                spec_pair_views(watch@),
                spec_string_views(layer@),
                cache@,
                text_cells@,
                x,
            ),
{
    let ghost wv = spec_pair_views(watch@);
    let ghost lv = spec_string_views(layer@);
    let mut out: Vec<String> = Vec::new();
    let mut k: usize = 0;
    while k < watch.len()
        invariant
            k <= watch@.len(),
            wv == spec_pair_views(watch@),
            lv == spec_string_views(layer@),
            forall|x: Seq<char>|
                #![trigger spec_string_views(out@).contains(x)]
                #![trigger spec_touched(wv.take(k as int), lv, cache@, text_cells@, x)]
                spec_string_views(out@).contains(x) <==> spec_touched(wv.take(k as int), lv, cache@, text_cells@, x),
        decreases watch.len() - k,
    {
        let ghost before = spec_string_views(out@);
        let reader = &watch[k].0;
        let anchor = &watch[k].1;
        let hit = listed(layer, reader) || listed(layer, anchor);
        let mut put_reader = false;
        let mut put_anchor = false;
        if hit {
            if cache.contains_key(reader.as_str()) || text_cells.contains_key(reader.as_str()) {
                out.push(reader.clone());
                put_reader = true;
            }
            if cache.contains_key(anchor.as_str()) || text_cells.contains_key(anchor.as_str()) {
                out.push(anchor.clone());
                put_anchor = true;
            }
        }
        proof {
            let p = wv[k as int];
            assert(wv.len() == watch@.len());
            assert(p == (reader@, anchor@));
            let now = spec_string_views(out@);
            assert(wv.take(k + 1) =~= wv.take(k as int).push(p));
            assert forall|x: Seq<char>| now.contains(x) <==> spec_touched(wv.take(k + 1), lv, cache@, text_cells@, x) by {
                if put_reader && put_anchor {
                    assert(now =~= before.push(reader@).push(anchor@));
                } else if put_reader {
                    assert(now =~= before.push(reader@));
                } else if put_anchor {
                    assert(now =~= before.push(anchor@));
                } else {
                    assert(now =~= before);
                }
                if now.contains(x) {
                    let u = choose|u: int| 0 <= u < now.len() && now[u] == x;
                    if u >= before.len() {
                        assert(wv.take(k + 1)[k as int] == p);
                        if put_reader && put_anchor {
                            if u == before.len() {
                                assert(x == reader@);
                            } else {
                                assert(x == anchor@);
                            }
                        } else if put_reader {
                            assert(x == reader@);
                        } else {
                            assert(x == anchor@);
                        }
                        assert(spec_pair_hit(wv.take(k + 1), lv, k as int, x));
                    } else {
                        assert(before[u] == x);
                        assert(before.contains(x));
                        assert(spec_touched(wv.take(k as int), lv, cache@, text_cells@, x));
                        let kk = choose|kk: int|
                            0 <= kk < wv.take(k as int).len() && #[trigger] spec_pair_hit(wv.take(k as int), lv, kk, x);
                        assert(wv.take(k + 1)[kk] == wv[kk] && wv.take(k as int)[kk] == wv[kk]);
                        assert(spec_pair_hit(wv.take(k + 1), lv, kk, x));
                    }
                }
                if spec_touched(wv.take(k + 1), lv, cache@, text_cells@, x) {
                    let kk = choose|kk: int| 0 <= kk < wv.take(k + 1).len() && #[trigger] spec_pair_hit(wv.take(k + 1), lv, kk, x);
                    if kk < k {
                        assert(wv.take(k + 1)[kk] == wv[kk] && wv.take(k as int)[kk] == wv[kk]);
                        assert(spec_pair_hit(wv.take(k as int), lv, kk, x));
                        assert(spec_touched(wv.take(k as int), lv, cache@, text_cells@, x));
                        let u = choose|u: int| 0 <= u < before.len() && before[u] == x;
                        if put_reader && put_anchor {
                            assert(now[u] == before.push(reader@)[u]);
                        }
                        assert(now[u] == before[u]);
                        assert(now.contains(x));
                    } else {
                        assert(wv.take(k + 1)[kk] == p);
                        assert(hit);
                        if x == reader@ {
                            assert(now[before.len() as int] == x);
                        } else {
                            if put_reader {
                                assert(now[before.len() + 1int] == x);
                            } else {
                                assert(now[before.len() as int] == x);
                            }
                        }
                    }
                }
            }
        }
        k += 1;
    }
    proof {
        assert(wv.take(watch@.len() as int) =~= wv);
    }
    out
}

/// The members of the wave that `seeds` grows to over `watch`, flagged per
/// formula cell.
pub open spec fn spec_wave_marks(
    names: Seq<Seq<char>>,
    seeds: Set<Seq<char>>,
    watch: Seq<(Seq<char>, Seq<char>)>,
) -> Seq<bool> {
    Seq::new(names.len(), |i: int| spec_wave(seeds, watch).contains(names[i]))
}

/// The cells to evaluate again, as positions in `names`, ascending: every
/// cell that holds a number and depends (directly, through other cells, or by
/// being one) on a member of the wave that `seeds` grows to over the watched
/// pairs (see [`spec_wave`]). `deps[i]` lists the cells `names[i]` reads.
pub fn soft_wave<T>(
    seeds: &Vec<String>,
    watch: &Vec<(String, String)>,
    names: &Vec<String>,
    deps: &Vec<Vec<String>>,
    cache: &CellMap<T>,
) -> (r: Vec<usize>)
    requires
        spec_string_views(names@).no_duplicates(),
        deps@.len() == names@.len(),
        names@.len() < usize::MAX,
    ensures
        ({
            let nm = spec_string_views(names@);
            let marked = spec_wave_marks(nm, spec_string_views(seeds@).to_set(), spec_pair_views(watch@));
            let ex = spec_nested_views(deps@);
            &&& forall|k: int|
                0 <= k < r@.len() ==> #[trigger] r@[k] < nm.len() && spec_reaches_marked(nm, ex, marked, r@[k] as int)
                    && cache@.contains_key(nm[r@[k] as int])
            &&& forall|k1: int, k2: int| 0 <= k1 < k2 < r@.len() ==> r@[k1] < r@[k2]
            &&& forall|j: int|
                0 <= j < nm.len() && spec_reaches_marked(nm, ex, marked, j) && cache@.contains_key(nm[j])
                    ==> #[trigger] r@.contains(j as usize)
        }),
{
    let ghost nm = spec_string_views(names@);
    let ghost sv = spec_string_views(seeds@);
    let ghost wv = spec_pair_views(watch@);
    let mut w = CellSet::new();
    let mut t: usize = 0;
    while t < seeds.len()
        invariant
            t <= seeds@.len(),
            sv == spec_string_views(seeds@),
            w.wf(),
            w@ == sv.take(t as int).to_set(),
        decreases seeds.len() - t,
    {
        w.insert(seeds[t].clone());
        proof {
            assert(sv.take(t + 1) =~= sv.take(t as int).push(sv[t as int]));
            sv.take(t as int).lemma_push_to_set_commute(sv[t as int]);
        }
        t += 1;
    }
    proof {
        assert(sv.take(seeds@.len() as int) =~= sv);
        assert(wv.take(0) =~= Seq::<(Seq<char>, Seq<char>)>::empty());
    }
    let mut t: usize = 0;
    while t < watch.len()
        invariant
            t <= watch@.len(),
            wv == spec_pair_views(watch@),
            w.wf(),
            w@ == spec_wave(sv.to_set(), wv.take(t as int)),
        decreases watch.len() - t,
    {
        let ghost before = w@;
        proof {
            assert(wv.len() == watch@.len());
            assert(wv.take(t + 1).drop_last() =~= wv.take(t as int));
            assert(wv.take(t + 1).last() == wv[t as int]);
            assert(wv[t as int] == (watch@[t as int].0@, watch@[t as int].1@));
        }
        let reader = &watch[t].0;
        let anchor = &watch[t].1;
        if w.contains(reader.as_str()) || w.contains(anchor.as_str()) {
            w.insert(reader.clone());
            w.insert(anchor.clone());
        }
        t += 1;
    }
    proof {
        assert(wv.take(watch@.len() as int) =~= wv);
    }
    let ghost marked = spec_wave_marks(nm, sv.to_set(), wv);
    let n = names.len();
    let mut marks: Vec<bool> = Vec::new();
    let mut i: usize = 0;
    while i < n
        invariant
            i <= n,
            n == names@.len(),
            nm == spec_string_views(names@),
            marked == spec_wave_marks(nm, sv.to_set(), wv),
            w.wf(),
            w@ == spec_wave(sv.to_set(), wv),
            marks@.len() == i,
            forall|u: int| 0 <= u < i ==> #[trigger] marks@[u] == marked[u],
        decreases n - i,
    {
        let m = w.contains(names[i].as_str());
        marks.push(m);
        proof {
            assert(nm[i as int] == names@[i as int]@);
        }
        i += 1;
    }
    proof {
        assert(marks@ =~= marked);
    }
    let closure = dependents_closure(names, deps, &marks);
    let mut out: Vec<usize> = Vec::new();
    let mut j: usize = 0;
    while j < n
        invariant
            j <= n,
            n == names@.len(),
            nm == spec_string_views(names@),
            closure@.len() == n,
            forall|u: int|
                0 <= u < n ==> (#[trigger] closure@[u] <==> spec_reaches_marked(nm, spec_nested_views(deps@), marked, u)),
            forall|k: int|
                0 <= k < out@.len() ==> #[trigger] out@[k] < j && spec_reaches_marked(
                    nm,
                    spec_nested_views(deps@),
                    marked,
                    out@[k] as int,
                ) && cache@.contains_key(nm[out@[k] as int]),
            forall|k1: int, k2: int| 0 <= k1 < k2 < out@.len() ==> out@[k1] < out@[k2],
            forall|u: int|
                0 <= u < j && spec_reaches_marked(nm, spec_nested_views(deps@), marked, u) && cache@.contains_key(nm[u])
                    ==> #[trigger] out@.contains(u as usize),
        decreases n - j,
    {
        let ghost before = out@;
        proof {
            assert(nm[j as int] == names@[j as int]@);
        }
        if closure[j] && cache.contains_key(names[j].as_str()) {
            out.push(j);
            proof {
                assert forall|u: int|
                    0 <= u < j + 1 && spec_reaches_marked(nm, spec_nested_views(deps@), marked, u) && cache@.contains_key(
                        nm[u],
                    ) implies #[trigger] out@.contains(u as usize) by {
                    if u < j {
                        assert(before.contains(u as usize));
                        let k = choose|k: int| 0 <= k < before.len() && before[k] == u as usize;
                        assert(out@[k] == u as usize);
                    } else {
                        assert(out@[before.len() as int] == j);
                    }
                }
            }
        } else {
            proof {
                assert forall|u: int|
                    0 <= u < j + 1 && spec_reaches_marked(nm, spec_nested_views(deps@), marked, u) && cache@.contains_key(
                        nm[u],
                    ) implies #[trigger] out@.contains(u as usize) by {
                    if u == j {
                        assert(closure@[u]);
                    }
                }
            }
        }
        j += 1;
    }
    out
}

/// The cells to evaluate again after `layer` was evaluated, as positions in
/// `names`, ascending: the wave of [`soft_wave`] grown from the cells that
/// the layer touches (see [`spec_touched`]). None when the layer touches no
/// watched pair.
pub fn reevaluation_after_layer<T>(
    watch: &Vec<(String, String)>,
    layer: &Vec<String>,
    names: &Vec<String>,
    deps: &Vec<Vec<String>>,
    cache: &CellMap<T>,
    text_cells: &CellMap<String>,
) -> (r: Vec<usize>)
    requires
        spec_string_views(names@).no_duplicates(),
        deps@.len() == names@.len(),
        names@.len() < usize::MAX,
    ensures
        ({
            let nm = spec_string_views(names@);
            let seeds = Set::new(
                |x: Seq<char>| spec_touched(spec_pair_views(watch@), spec_string_views(layer@), cache@, text_cells@, x),
            );
            let marked = spec_wave_marks(nm, seeds, spec_pair_views(watch@));
            let ex = spec_nested_views(deps@);
            &&& forall|k: int|
                0 <= k < r@.len() ==> #[trigger] r@[k] < nm.len() && spec_reaches_marked(nm, ex, marked, r@[k] as int)
                    && cache@.contains_key(nm[r@[k] as int])
            &&& forall|k1: int, k2: int| 0 <= k1 < k2 < r@.len() ==> r@[k1] < r@[k2]
            &&& forall|j: int|
                0 <= j < nm.len() && spec_reaches_marked(nm, ex, marked, j) && cache@.contains_key(nm[j])
                    ==> #[trigger] r@.contains(j as usize)
        }),
{
    let seeds = touched_seeds(watch, layer, cache, text_cells);
    proof {
        let s1 = spec_string_views(seeds@).to_set();
        let s2 = Set::new(
            |x: Seq<char>| spec_touched(spec_pair_views(watch@), spec_string_views(layer@), cache@, text_cells@, x),
        );
        assert(s1 =~= s2);
    }
    soft_wave(&seeds, watch, names, deps, cache)
}

} // verus!
