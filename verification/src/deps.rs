//! Evaluation order of formula cells: layers of cells whose prerequisites all
//! lie in earlier layers.
use vstd::prelude::*;
use vstd::hash_map::StringHashMap;
use crate::error::SpreadsheetError;
use crate::refs::spec_string_views;
use crate::text::string_from_str;

verus! {

/// Marks a node not yet placed in a layer.
const UNSET: usize = usize::MAX;

// ---------------------------------------------------------------------------
// Graphs over node indices
// ---------------------------------------------------------------------------

/// Node `j` is a prerequisite of node `i`: `j` is listed among `preds[i]`.
pub open spec fn spec_edge(preds: Seq<Vec<usize>>, j: int, i: int) -> bool {
    0 <= i < preds.len() && 0 <= j < preds.len() && preds[i]@.contains(j as usize)
}

/// Every listed prerequisite is a node of the graph.
pub open spec fn spec_graph_wf(preds: Seq<Vec<usize>>) -> bool {
    &&& preds.len() < usize::MAX
    &&& forall|i: int, q: int|
        0 <= i < preds.len() && 0 <= q < preds[i]@.len() ==> #[trigger] preds[i]@[q] < preds.len()
}

/// `lv` gives each node its layer: every prerequisite lies in an earlier
/// layer, and a node above layer 0 has a prerequisite in the layer just
/// below (so each node sits as low as its prerequisites allow).
pub open spec fn spec_levels(preds: Seq<Vec<usize>>, lv: Seq<int>) -> bool {
    &&& lv.len() == preds.len()
    &&& forall|i: int| 0 <= i < lv.len() ==> 0 <= #[trigger] lv[i]
    &&& forall|i: int, j: int| #[trigger] spec_edge(preds, j, i) ==> lv[j] < lv[i]
    &&& forall|i: int|
        0 <= i < lv.len() && #[trigger] lv[i] > 0 ==> exists|j: int|
            #[trigger] spec_edge(preds, j, i) && lv[j] == lv[i] - 1
}

/// `ix[k]` lists, in increasing order, exactly the nodes with `lv == k`, and
/// no layer is empty.
pub open spec fn spec_grouped(lv: Seq<int>, ix: Seq<Seq<int>>) -> bool {
    &&& forall|k: int| 0 <= k < ix.len() ==> #[trigger] ix[k].len() > 0
    &&& forall|k: int, p: int|
        0 <= k < ix.len() && 0 <= p < ix[k].len() ==> 0 <= #[trigger] ix[k][p] < lv.len() && lv[ix[k][p]]
            == k
    &&& forall|k: int, p: int, q: int|
        0 <= k < ix.len() && 0 <= p < q < ix[k].len() ==> #[trigger] ix[k][p] < #[trigger] ix[k][q]
    &&& forall|i: int| 0 <= i < lv.len() ==> 0 <= #[trigger] lv[i] < ix.len() && ix[lv[i]].contains(i)
}

/// Some ranking of the nodes puts every prerequisite strictly first.
pub open spec fn spec_acyclic(preds: Seq<Vec<usize>>) -> bool {
    exists|h: Seq<nat>|
        h.len() == preds.len() && forall|i: int, j: int| #[trigger] spec_edge(preds, j, i) ==> h[j] < h[i]
}

pub open spec fn spec_index_layers(v: Seq<Vec<usize>>) -> Seq<Seq<int>> {
    v.map_values(|l: Vec<usize>| l@.map_values(|x: usize| x as int))
}

/// Whether every listed prerequisite of node `i` already lies in a layer
/// below `k`.
fn preds_done(p: &Vec<usize>, lvl: &Vec<usize>, k: usize) -> (r: bool)
    requires
        forall|q: int| 0 <= q < p@.len() ==> #[trigger] p@[q] < lvl@.len(),
    ensures
        r == forall|q: int| 0 <= q < p@.len() ==> lvl@[#[trigger] p@[q] as int] < k,
{
    let mut q: usize = 0;
    while q < p.len()
        invariant
            q <= p@.len(),
            forall|t: int| 0 <= t < p@.len() ==> #[trigger] p@[t] < lvl@.len(),
            forall|t: int| 0 <= t < q ==> lvl@[#[trigger] p@[t] as int] < k,
        decreases p.len() - q,
    {
        if lvl[p[q]] >= k {
            return false;
        }
        q += 1;
    }
    true
}

/// If every node of a nonempty set has a prerequisite inside the set, no
/// ranking puts prerequisites first.
proof fn lemma_closed_set_has_cycle(preds: Seq<Vec<usize>>, lvl: Seq<usize>, x0: int)
    requires
        lvl.len() == preds.len(),
        0 <= x0 < lvl.len(),
        lvl[x0] == UNSET,
        forall|x: int|
            0 <= x < lvl.len() && #[trigger] lvl[x] == UNSET ==> exists|j: int|
                #[trigger] spec_edge(preds, j, x) && lvl[j] == UNSET,
    ensures
        !spec_acyclic(preds),
{
    if spec_acyclic(preds) {
        let h = choose|h: Seq<nat>|
            h.len() == preds.len() && forall|i: int, j: int| #[trigger] spec_edge(preds, j, i) ==> h[j] < h[i];
        lemma_closed_set_unbounded(preds, lvl, h, (h[x0] + 1) as nat);
        assert(h[x0] >= h[x0] + 1);
    }
}

proof fn lemma_closed_set_unbounded(preds: Seq<Vec<usize>>, lvl: Seq<usize>, h: Seq<nat>, m: nat)
    requires
        lvl.len() == preds.len(),
        h.len() == preds.len(),
        forall|i: int, j: int| #[trigger] spec_edge(preds, j, i) ==> h[j] < h[i],
        forall|x: int|
            0 <= x < lvl.len() && #[trigger] lvl[x] == UNSET ==> exists|j: int|
                #[trigger] spec_edge(preds, j, x) && lvl[j] == UNSET,
    ensures
        forall|x: int| 0 <= x < lvl.len() && #[trigger] lvl[x] == UNSET ==> h[x] >= m,
    decreases m,
{
    if m > 0 {
        lemma_closed_set_unbounded(preds, lvl, h, (m - 1) as nat);
        assert forall|x: int| 0 <= x < lvl.len() && #[trigger] lvl[x] == UNSET implies h[x] >= m by {
            let j = choose|j: int| #[trigger] spec_edge(preds, j, x) && lvl[j] == UNSET;
            assert(h[j] >= m - 1);
        }
    }
}

/// Number of unplaced nodes among the first `m`.
spec fn spec_unset_count(lvl: Seq<usize>, m: int) -> int
    decreases m,
{
    if m <= 0 {
        0
    } else {
        spec_unset_count(lvl, m - 1) + if lvl[m - 1] == UNSET {
            1int
        } else {
            0int
        }
    }
}

proof fn lemma_unset_count(a: Seq<usize>, b: Seq<usize>, m: int)
    requires
        0 <= m <= a.len(),
        a.len() == b.len(),
        forall|x: int| 0 <= x < a.len() && #[trigger] b[x] == UNSET ==> a[x] == UNSET,
    ensures
        0 <= spec_unset_count(b, m) <= spec_unset_count(a, m) <= m,
        (exists|x: int| 0 <= x < m && a[x] == UNSET && #[trigger] b[x] != UNSET) ==> spec_unset_count(b, m)
            < spec_unset_count(a, m),
    decreases m,
{
    if m > 0 {
        lemma_unset_count(a, b, m - 1);
        if exists|x: int| 0 <= x < m && a[x] == UNSET && #[trigger] b[x] != UNSET {
            let x = choose|x: int| 0 <= x < m && a[x] == UNSET && #[trigger] b[x] != UNSET;
            if x < m - 1 {
                assert(exists|y: int| 0 <= y < m - 1 && a[y] == UNSET && #[trigger] b[y] != UNSET);
            }
        }
    }
}

/// Placed nodes have their prerequisites placed below them, and a node above
/// layer 0 has one in the layer just below.
#[verifier::opaque]
spec fn spec_placed_ok(preds: Seq<Vec<usize>>, lvl: Seq<usize>) -> bool {
    &&& lvl.len() == preds.len()
    &&& forall|x: int, j: int|
        #[trigger] spec_edge(preds, j, x) && lvl[x] != UNSET ==> lvl[j] != UNSET && lvl[j] < lvl[x]
    &&& forall|x: int|
        0 <= x < lvl.len() && lvl[x] != UNSET && #[trigger] lvl[x] > 0 ==> exists|j: int|
            #[trigger] spec_edge(preds, j, x) && lvl[j] == lvl[x] - 1
}

/// Every unplaced node among `x < hi` waits on a prerequisite that is
/// unplaced or in layer `a` or `b`.
#[verifier::opaque]
spec fn spec_waits(preds: Seq<Vec<usize>>, lvl: Seq<usize>, hi: int, a: int, b: int) -> bool {
    forall|x: int|
        0 <= x < hi && x < lvl.len() && #[trigger] lvl[x] == UNSET ==> exists|j: int|
            #[trigger] spec_edge(preds, j, x) && (lvl[j] == UNSET || lvl[j] == a || lvl[j] == b)
}

/// During round `k` (scanning at `i`), placements only turn unplaced nodes
/// before `i` into layer `k`, and `layer` lists exactly the layer-`k` nodes in
/// increasing order.
#[verifier::opaque]
spec fn spec_scan(old_lvl: Seq<usize>, lvl: Seq<usize>, layer: Seq<usize>, k: int, i: int) -> bool {
    &&& lvl.len() == old_lvl.len()
    &&& forall|x: int| 0 <= x < old_lvl.len() ==> #[trigger] old_lvl[x] == UNSET || old_lvl[x] < k
    &&& forall|x: int|
        0 <= x < lvl.len() ==> (#[trigger] lvl[x] == old_lvl[x] || (old_lvl[x] == UNSET && lvl[x] == k && x < i))
    &&& forall|x: int| 0 <= x < lvl.len() ==> (#[trigger] lvl[x] == k <==> layer.contains(x as usize))
    &&& forall|p: int| 0 <= p < layer.len() ==> #[trigger] layer[p] < i
    &&& forall|p: int, q: int| 0 <= p < q < layer.len() ==> #[trigger] layer[p] < #[trigger] layer[q]
}

/// Layers `0..k` list exactly the placed nodes, each in its layer, in
/// increasing order, and none is empty.
#[verifier::opaque]
spec fn spec_layers_ok(lvl: Seq<usize>, layers: Seq<Vec<usize>>, k: int) -> bool {
    &&& layers.len() == k
    &&& forall|x: int| 0 <= x < lvl.len() ==> #[trigger] lvl[x] == UNSET || lvl[x] < k
    &&& forall|a: int| 0 <= a < k ==> #[trigger] layers[a]@.len() > 0
    &&& forall|a: int, p: int|
        0 <= a < k && 0 <= p < layers[a]@.len() ==> #[trigger] layers[a]@[p] < lvl.len() && lvl[layers[a]@[p] as int]
            == a
    &&& forall|a: int, p: int, q: int|
        0 <= a < k && 0 <= p < q < layers[a]@.len() ==> #[trigger] layers[a]@[p] < #[trigger] layers[a]@[q]
    &&& forall|x: int| 0 <= x < lvl.len() && #[trigger] lvl[x] != UNSET ==> layers[lvl[x] as int]@.contains(x as usize)
}

proof fn lemma_scan_start(preds: Seq<Vec<usize>>, lvl: Seq<usize>, k: int)
    requires
        0 <= k < UNSET,
        forall|x: int| 0 <= x < lvl.len() ==> #[trigger] lvl[x] == UNSET || lvl[x] < k,
        k > 0 ==> spec_waits(preds, lvl, lvl.len() as int, k - 1, k - 1),
    ensures
        spec_scan(lvl, lvl, Seq::empty(), k, 0),
        k > 0 ==> spec_waits(preds, lvl, lvl.len() as int, k - 1, k),
        spec_waits(preds, lvl, 0, k, k),
{
    reveal(spec_scan);
    reveal(spec_waits);
}

/// Placing unplaced node `i`, all of whose prerequisites lie below layer `k`.
proof fn lemma_scan_place(
    preds: Seq<Vec<usize>>,
    old_lvl: Seq<usize>,
    lvl: Seq<usize>,
    layer: Seq<usize>,
    k: int,
    i: int,
)
    requires
        spec_graph_wf(preds),
        0 <= k < UNSET,
        0 <= i < lvl.len(),
        lvl.len() == preds.len(),
        lvl[i] == UNSET,
        forall|q: int| 0 <= q < preds[i]@.len() ==> lvl[#[trigger] preds[i]@[q] as int] < k,
        spec_placed_ok(preds, lvl),
        spec_scan(old_lvl, lvl, layer, k, i),
        k > 0 ==> spec_waits(preds, lvl, lvl.len() as int, k - 1, k),
        spec_waits(preds, lvl, i, k, k),
    ensures
        spec_placed_ok(preds, lvl.update(i, k as usize)),
        spec_scan(old_lvl, lvl.update(i, k as usize), layer.push(i as usize), k, i + 1),
        k > 0 ==> spec_waits(preds, lvl.update(i, k as usize), lvl.len() as int, k - 1, k),
        spec_waits(preds, lvl.update(i, k as usize), i + 1, k, k),
{
    reveal(spec_placed_ok);
    reveal(spec_scan);
    reveal(spec_waits);
    let after = lvl.update(i, k as usize);
    assert forall|x: int, j: int| #[trigger] spec_edge(preds, j, x) && after[x] != UNSET implies after[j] != UNSET
        && after[j] < after[x] by {
        if x == i {
            assert(preds[i]@.contains(j as usize));
            let q = choose|q: int| 0 <= q < preds[i]@.len() && preds[i]@[q] == j as usize;
            assert(lvl[preds[i]@[q] as int] < k);
            assert(preds[i]@[q] as int == j);
            assert(j != i);
        } else {
            assert(lvl[j] != UNSET && lvl[j] < lvl[x]);
            assert(j != i);
        }
    }
    assert forall|x: int|
        0 <= x < after.len() && after[x] != UNSET && #[trigger] after[x] > 0 implies exists|j: int|
            #[trigger] spec_edge(preds, j, x) && after[j] == after[x] - 1 by {
        if x == i {
            let j = choose|j: int|
                #[trigger] spec_edge(preds, j, x) && (lvl[j] == UNSET || lvl[j] == k - 1 || lvl[j] == k);
            assert(preds[i]@.contains(j as usize));
            let q = choose|q: int| 0 <= q < preds[i]@.len() && preds[i]@[q] == j as usize;
            assert(lvl[preds[i]@[q] as int] < k);
            assert(preds[i]@[q] as int == j);
            assert(after[j] == k - 1);
        } else {
            let j = choose|j: int| #[trigger] spec_edge(preds, j, x) && lvl[j] == lvl[x] - 1;
            assert(after[j] == after[x] - 1);
        }
    }
    assert forall|x: int| 0 <= x < after.len() implies (#[trigger] after[x] == k <==> layer.push(i as usize).contains(
        x as usize,
    )) by {
        lemma_push_contains(layer, i as usize, x as usize);
    }
    if k > 0 {
        assert forall|x: int|
            0 <= x < after.len() && x < after.len() && #[trigger] after[x] == UNSET implies exists|j: int|
                #[trigger] spec_edge(preds, j, x) && (after[j] == UNSET || after[j] == k - 1 || after[j] == k) by {
            let j = choose|j: int|
                #[trigger] spec_edge(preds, j, x) && (lvl[j] == UNSET || lvl[j] == k - 1 || lvl[j] == k);
            assert(after[j] == UNSET || after[j] == k - 1 || after[j] == k);
        }
    }
    assert forall|x: int|
        0 <= x < i + 1 && x < after.len() && #[trigger] after[x] == UNSET implies exists|j: int|
            #[trigger] spec_edge(preds, j, x) && (after[j] == UNSET || after[j] == k || after[j] == k) by {
        let j = choose|j: int| #[trigger] spec_edge(preds, j, x) && (lvl[j] == UNSET || lvl[j] == k || lvl[j] == k);
        assert(after[j] == UNSET || after[j] == k);
    }
}

/// Passing over node `i`: placed already, or waiting on a prerequisite that is
/// unplaced or in layer `k`.
proof fn lemma_scan_skip(
    preds: Seq<Vec<usize>>,
    old_lvl: Seq<usize>,
    lvl: Seq<usize>,
    layer: Seq<usize>,
    k: int,
    i: int,
)
    requires
        0 <= i < lvl.len(),
        lvl.len() == preds.len(),
        lvl[i] == UNSET ==> exists|q: int|
            0 <= q < preds[i]@.len() && !(lvl[#[trigger] preds[i]@[q] as int] < k) && preds[i]@[q] < preds.len(),
        spec_scan(old_lvl, lvl, layer, k, i),
        spec_waits(preds, lvl, i, k, k),
    ensures
        spec_scan(old_lvl, lvl, layer, k, i + 1),
        spec_waits(preds, lvl, i + 1, k, k),
{
    reveal(spec_scan);
    reveal(spec_waits);
    if lvl[i] == UNSET {
        let q = choose|q: int|
            0 <= q < preds[i]@.len() && !(lvl[#[trigger] preds[i]@[q] as int] < k) && preds[i]@[q] < preds.len();
        let j = preds[i]@[q] as int;
        assert(preds[i]@.contains(j as usize));
        assert(spec_edge(preds, j, i));
        assert(lvl[j] == UNSET || lvl[j] == k);
    }
}

/// One round: places in layer `k`, in index order, every unplaced node whose
/// prerequisites all lie in layers below `k`.
fn scan_round(preds: &Vec<Vec<usize>>, lvl: &mut Vec<usize>, k: usize) -> (layer: Vec<usize>)
    requires
        spec_graph_wf(preds@),
        old(lvl)@.len() == preds@.len(),
        spec_placed_ok(preds@, old(lvl)@),
        k < UNSET,
        forall|x: int| 0 <= x < old(lvl)@.len() ==> #[trigger] old(lvl)@[x] == UNSET || old(lvl)@[x] < k,
        k > 0 ==> spec_waits(preds@, old(lvl)@, old(lvl)@.len() as int, k - 1, k - 1),
    ensures
        final(lvl)@.len() == old(lvl)@.len(),
        spec_placed_ok(preds@, final(lvl)@),
        spec_waits(preds@, final(lvl)@, final(lvl)@.len() as int, k as int, k as int),
        spec_scan(old(lvl)@, final(lvl)@, layer@, k as int, final(lvl)@.len() as int),
{
    let n = preds.len();
    let ghost old_lvl = lvl@;
    let mut layer: Vec<usize> = Vec::new();
    proof {
        lemma_scan_start(preds@, lvl@, k as int);
    }
    let mut i: usize = 0;
    while i < n
        invariant
            n == preds@.len(),
            spec_graph_wf(preds@),
            k < UNSET,
            i <= n,
            lvl@.len() == n,
            spec_placed_ok(preds@, lvl@),
            spec_scan(old_lvl, lvl@, layer@, k as int, i as int),
            k > 0 ==> spec_waits(preds@, lvl@, n as int, k - 1, k as int),
            spec_waits(preds@, lvl@, i as int, k as int, k as int),
        decreases n - i,
    {
        proof {
            assert forall|q: int| 0 <= q < preds@[i as int]@.len() implies #[trigger] preds@[i as int]@[q]
                < lvl@.len() by {
                assert(preds@[i as int]@[q] < preds@.len());
            }
        }
        if lvl[i] == UNSET && preds_done(&preds[i], &lvl, k) {
            proof {
                lemma_scan_place(preds@, old_lvl, lvl@, layer@, k as int, i as int);
            }
            lvl.set(i, k);
            layer.push(i);
        } else {
            proof {
                lemma_scan_skip(preds@, old_lvl, lvl@, layer@, k as int, i as int);
            }
        }
        i += 1;
    }
    proof {
        reveal(spec_waits);
    }
    layer
}

proof fn lemma_layers_start(lvl: Seq<usize>)
    requires
        forall|x: int| 0 <= x < lvl.len() ==> #[trigger] lvl[x] == UNSET,
    ensures
        spec_layers_ok(lvl, Seq::empty(), 0),
{
    reveal(spec_layers_ok);
}

/// A nonempty round adds a layer.
proof fn lemma_layers_push(
    old_lvl: Seq<usize>,
    lvl: Seq<usize>,
    layers: Seq<Vec<usize>>,
    layer: Vec<usize>,
    k: int,
)
    requires
        0 <= k < UNSET,
        spec_layers_ok(old_lvl, layers, k),
        spec_scan(old_lvl, lvl, layer@, k, lvl.len() as int),
        layer@.len() > 0,
    ensures
        spec_layers_ok(lvl, layers.push(layer), k + 1),
        spec_unset_count(lvl, lvl.len() as int) < spec_unset_count(old_lvl, lvl.len() as int),
        spec_unset_count(old_lvl, lvl.len() as int) <= lvl.len(),
        0 <= spec_unset_count(lvl, lvl.len() as int),
{
    reveal(spec_layers_ok);
    reveal(spec_scan);
    let x = layer@[0] as int;
    assert(layer@.contains(layer@[0]));
    assert(layer@[0] < lvl.len());
    assert(lvl[x] == k);
    assert(old_lvl[x] == UNSET);
    assert forall|y: int| 0 <= y < old_lvl.len() && #[trigger] lvl[y] == UNSET implies old_lvl[y] == UNSET by {
        assert(lvl[y] == old_lvl[y] || (old_lvl[y] == UNSET && lvl[y] == k));
    }
    assert(lvl[x] != UNSET);
    lemma_unset_count(old_lvl, lvl, lvl.len() as int);
    let nl = layers.push(layer);
    assert forall|a: int, p: int|
        0 <= a < k + 1 && 0 <= p < nl[a]@.len() implies #[trigger] nl[a]@[p] < lvl.len() && lvl[nl[a]@[p] as int]
            == a by {
        if a < k {
            assert(nl[a] == layers[a]);
            assert(old_lvl[layers[a]@[p] as int] == a);
        } else {
            assert(nl[a] == layer);
            assert(layer@.contains(layer@[p]));
        }
    }
    assert forall|a: int, p: int, q: int|
        0 <= a < k + 1 && 0 <= p < q < nl[a]@.len() implies #[trigger] nl[a]@[p] < #[trigger] nl[a]@[q] by {
        if a < k {
            assert(nl[a] == layers[a]);
        } else {
            assert(nl[a] == layer);
        }
    }
    assert forall|y: int| 0 <= y < lvl.len() && #[trigger] lvl[y] != UNSET implies nl[lvl[y] as int]@.contains(
        y as usize,
    ) by {
        if lvl[y] == k {
            assert(nl[k] == layer);
        } else {
            assert(old_lvl[y] == lvl[y]);
            assert(nl[lvl[y] as int] == layers[lvl[y] as int]);
        }
    }
    assert forall|a: int| 0 <= a < k + 1 implies #[trigger] nl[a]@.len() > 0 by {
        if a < k {
            assert(nl[a] == layers[a]);
        }
    }
}

/// Layers of node indices: layer `k` holds the nodes whose prerequisites all
/// lie in layers below `k`, with one of them in layer `k - 1`. On a cycle,
/// the error is a node that no layer can hold.
pub fn layer_indices(preds: &Vec<Vec<usize>>) -> (r: Result<Vec<Vec<usize>>, usize>)
    requires
        spec_graph_wf(preds@),
    ensures
        r is Ok <==> spec_acyclic(preds@),
        r matches Ok(layers) ==> exists|lv: Seq<int>|
            spec_levels(preds@, lv) && spec_grouped(lv, spec_index_layers(layers@)),
        r matches Err(x) ==> x < preds@.len(),
{
    let n = preds.len();
    let mut lvl: Vec<usize> = Vec::new();
    let mut i: usize = 0;
    while i < n
        invariant
            i <= n,
            n == preds@.len(),
            lvl@.len() == i,
            forall|x: int| 0 <= x < i ==> #[trigger] lvl@[x] == UNSET,
        decreases n - i,
    {
        lvl.push(UNSET);
        i += 1;
    }
    let mut layers: Vec<Vec<usize>> = Vec::new();
    let mut k: usize = 0;
    proof {
        lemma_unset_count(lvl@, lvl@, n as int);
        lemma_layers_start(lvl@);
        reveal(spec_placed_ok);
    }
    loop
        invariant
            n == preds@.len(),
            spec_graph_wf(preds@),
            lvl@.len() == n,
            k + spec_unset_count(lvl@, n as int) <= n,
            0 <= spec_unset_count(lvl@, n as int),
            spec_placed_ok(preds@, lvl@),
            spec_layers_ok(lvl@, layers@, k as int),
            k > 0 ==> spec_waits(preds@, lvl@, n as int, k - 1, k - 1),
        decreases spec_unset_count(lvl@, n as int),
    {
        let ghost before = lvl@;
        proof {
            reveal(spec_layers_ok);
        }
        let layer = scan_round(preds, &mut lvl, k);
        if layer.len() == 0 {
            proof {
                reveal(spec_scan);
                reveal(spec_layers_ok);
                assert(lvl@ =~= before);
            }
            return finish_layers(preds, &lvl, layers, k);
        }
        proof {
            lemma_layers_push(before, lvl@, layers@, layer, k as int);
        }
        layers.push(layer);
        k += 1;
    }
}

/// The outcome once a round places nothing: every node placed gives the
/// layers; otherwise an unplaced node waits on an unplaced node forever.
fn finish_layers(preds: &Vec<Vec<usize>>, lvl: &Vec<usize>, layers: Vec<Vec<usize>>, k: usize) -> (r: Result<
    Vec<Vec<usize>>,
    usize,
>)
    requires
        lvl@.len() == preds@.len(),
        spec_placed_ok(preds@, lvl@),
        spec_waits(preds@, lvl@, lvl@.len() as int, k as int, k as int),
        spec_layers_ok(lvl@, layers@, k as int),
    ensures
        r is Ok <==> spec_acyclic(preds@),
        r matches Ok(l) ==> exists|lv: Seq<int>|
            spec_levels(preds@, lv) && spec_grouped(lv, spec_index_layers(l@)),
        r matches Err(x) ==> x < preds@.len(),
{
    proof {
        reveal(spec_layers_ok);
        reveal(spec_waits);
        reveal(spec_placed_ok);
    }
    let n = lvl.len();
    let mut x: usize = 0;
    while x < n
        invariant
            x <= n,
            n == lvl@.len(),
            lvl@.len() == preds@.len(),
            spec_waits(preds@, lvl@, lvl@.len() as int, k as int, k as int),
            forall|y: int| 0 <= y < lvl@.len() ==> #[trigger] lvl@[y] == UNSET || lvl@[y] < k,
            forall|t: int| 0 <= t < x ==> #[trigger] lvl@[t] != UNSET,
        decreases n - x,
    {
        if lvl[x] == UNSET {
            proof {
                reveal(spec_waits);
                assert forall|y: int|
                    0 <= y < lvl@.len() && #[trigger] lvl@[y] == UNSET implies exists|j: int|
                        #[trigger] spec_edge(preds@, j, y) && lvl@[j] == UNSET by {
                    let j = choose|j: int|
                        #[trigger] spec_edge(preds@, j, y) && (lvl@[j] == UNSET || lvl@[j] == k || lvl@[j] == k);
                    assert(0 <= j < lvl@.len());
                    assert(lvl@[j] == UNSET || lvl@[j] < k);
                }
                lemma_closed_set_has_cycle(preds@, lvl@, x as int);
            }
            return Err(x);
        }
        x += 1;
    }
    let ghost lv = lvl@.map_values(|v: usize| v as int);
    let ghost ix = spec_index_layers(layers@);
    proof {
        assert(spec_levels(preds@, lv)) by {
            assert forall|i: int, j: int| #[trigger] spec_edge(preds@, j, i) implies lv[j] < lv[i] by {
                assert(lvl@[i] != UNSET);
            }
            assert forall|i: int|
                0 <= i < lv.len() && #[trigger] lv[i] > 0 implies exists|j: int|
                    #[trigger] spec_edge(preds@, j, i) && lv[j] == lv[i] - 1 by {
                assert(lvl@[i] != UNSET);
                let j = choose|j: int| #[trigger] spec_edge(preds@, j, i) && lvl@[j] == lvl@[i] - 1;
                assert(lv[j] == lv[i] - 1);
            }
        }
        assert(spec_grouped(lv, ix)) by {
            assert forall|i: int| 0 <= i < lv.len() implies 0 <= #[trigger] lv[i] < ix.len() && ix[lv[i]].contains(i) by {
                assert(lvl@[i] != UNSET);
                let p = choose|p: int|
                    0 <= p < layers@[lvl@[i] as int]@.len() && layers@[lvl@[i] as int]@[p] == i as usize;
                assert(ix[lv[i]][p] == i);
            }
        }
        let h = lvl@.map_values(|v: usize| v as nat);
        assert forall|i: int, j: int| #[trigger] spec_edge(preds@, j, i) implies h[j] < h[i] by {
            assert(lvl@[i] != UNSET);
        }
        assert(h.len() == preds@.len());
    }
    Ok(layers)
}

/// The layering is unique: in any assignment satisfying [`spec_levels`], a
/// node's layer is the length of the longest chain of prerequisites below it,
/// so two such assignments agree on every node.
pub proof fn lemma_levels_unique(preds: Seq<Vec<usize>>, lv1: Seq<int>, lv2: Seq<int>)
    requires
        spec_levels(preds, lv1),
        spec_levels(preds, lv2),
    ensures
        lv1 == lv2,
{
    assert forall|i: int| 0 <= i < lv1.len() implies lv1[i] == lv2[i] by {
        lemma_levels_le(preds, lv1, lv2, lv1[i] as nat);
        lemma_levels_le(preds, lv2, lv1, lv2[i] as nat);
    }
    assert(lv1 =~= lv2);
}

proof fn lemma_levels_le(preds: Seq<Vec<usize>>, lv1: Seq<int>, lv2: Seq<int>, m: nat)
    requires
        spec_levels(preds, lv1),
        spec_levels(preds, lv2),
    ensures
        forall|i: int| 0 <= i < lv1.len() && #[trigger] lv1[i] <= m ==> lv1[i] <= lv2[i],
    decreases m,
{
    if m > 0 {
        lemma_levels_le(preds, lv1, lv2, (m - 1) as nat);
    }
    assert forall|i: int| 0 <= i < lv1.len() && #[trigger] lv1[i] <= m implies lv1[i] <= lv2[i] by {
        if lv1[i] > 0 {
            let j = choose|j: int| #[trigger] spec_edge(preds, j, i) && lv1[j] == lv1[i] - 1;
            assert(lv1[j] <= lv2[j]);
            assert(lv2[j] < lv2[i]);
        } else {
            assert(0 <= lv2[i]);
        }
    }
}

// ---------------------------------------------------------------------------
// Layers of named cells
// ---------------------------------------------------------------------------

/// `cells[j]` is listed among the prerequisites `deps[i]` of `cells[i]`.
pub open spec fn spec_dep_edge(cells: Seq<Seq<char>>, deps: Seq<Seq<Seq<char>>>, j: int, i: int) -> bool {
    0 <= i < cells.len() && 0 <= j < cells.len() && i < deps.len() && deps[i].contains(cells[j])
}

pub open spec fn spec_nested_views(v: Seq<Vec<String>>) -> Seq<Seq<Seq<char>>> {
    v.map_values(|x: Vec<String>| spec_string_views(x@))
}

/// The prerequisite lists by index agree with the named ones.
pub open spec fn spec_resolves(cells: Seq<Seq<char>>, deps: Seq<Seq<Seq<char>>>, preds: Seq<Vec<usize>>) -> bool {
    &&& preds.len() == cells.len()
    &&& spec_graph_wf(preds)
    &&& forall|i: int, j: int| #[trigger] spec_edge(preds, j, i) <==> spec_dep_edge(cells, deps, j, i)
}

/// The names of layers given by cell indices.
pub open spec fn spec_layer_names(cells: Seq<Seq<char>>, ix: Seq<Seq<int>>) -> Seq<Seq<Seq<char>>> {
    ix.map_values(|l: Seq<int>| l.map_values(|i: int| cells[i]))
}

/// The prerequisites of each cell as cell indices: `r[i]` lists the index of
/// every name in `dependencies[i]` that is one of `cells` (names outside the
/// sheet are dropped).
pub fn resolve_prerequisites(cells: &Vec<String>, dependencies: &Vec<Vec<String>>) -> (r: Vec<Vec<usize>>)
    requires
        spec_string_views(cells@).no_duplicates(),
        dependencies@.len() == cells@.len(),
        cells@.len() < usize::MAX,
    ensures
        spec_resolves(spec_string_views(cells@), spec_nested_views(dependencies@), r@),
{
    let ghost names = spec_string_views(cells@);
    let ghost deps = spec_nested_views(dependencies@);
    let n = cells.len();
    // index of each name
    let mut index: StringHashMap<usize> = StringHashMap::new();
    let mut i: usize = 0;
    while i < n
        invariant
            i <= n,
            n == cells@.len(),
            names == spec_string_views(cells@),
            names.no_duplicates(),
            forall|x: Seq<char>| #[trigger] index@.contains_key(x) <==> exists|t: int| 0 <= t < i && names[t] == x,
            forall|t: int| 0 <= t < i ==> #[trigger] index@[names[t]] == t,
        decreases n - i,
    {
        index.insert(cells[i].clone(), i);
        proof {
            assert(names[i as int] == cells@[i as int]@);
            assert forall|x: Seq<char>| #[trigger] index@.contains_key(x) <==> exists|t: int| 0 <= t < i + 1 && names[t] == x by {
                if x == names[i as int] {
                    assert(0 <= i < i + 1 && names[i as int] == x);
                }
            }
        }
        i += 1;
    }
    // prerequisite indices
    let mut preds: Vec<Vec<usize>> = Vec::new();
    let mut i: usize = 0;
    while i < n
        invariant
            i <= n,
            n == cells@.len(),
            n == dependencies@.len(),
            names == spec_string_views(cells@),
            deps == spec_nested_views(dependencies@),
            names.no_duplicates(),
            forall|x: Seq<char>| #[trigger] index@.contains_key(x) <==> exists|t: int| 0 <= t < n && names[t] == x,
            forall|t: int| 0 <= t < n ==> #[trigger] index@[names[t]] == t,
            preds@.len() == i,
            forall|a: int, q: int| 0 <= a < i && 0 <= q < preds@[a]@.len() ==> #[trigger] preds@[a]@[q] < n,
            forall|a: int, j: int|
                0 <= a < i && 0 <= j < n ==> (#[trigger] preds@[a]@.contains(j as usize) <==> deps[a].contains(names[j])),
        decreases n - i,
    {
        let list = &dependencies[i];
        let ghost d = spec_string_views(list@);
        proof {
            assert(deps[i as int] == d);
        }
        let mut p: Vec<usize> = Vec::new();
        let mut q: usize = 0;
        while q < list.len()
            invariant
                q <= list@.len(),
                d == spec_string_views(list@),
                names == spec_string_views(cells@),
                names.no_duplicates(),
                n == cells@.len(),
                forall|x: Seq<char>| #[trigger] index@.contains_key(x) <==> exists|t: int| 0 <= t < n && names[t] == x,
                forall|t: int| 0 <= t < n ==> #[trigger] index@[names[t]] == t,
                forall|t: int| 0 <= t < p@.len() ==> #[trigger] p@[t] < n,
                forall|j: int| 0 <= j < n ==> (#[trigger] p@.contains(j as usize) <==> d.take(q as int).contains(names[j])),
            decreases list.len() - q,
        {
            let ghost before = p@;
            match index.get(list[q].as_str()) {
                Some(j) => {
                    let jj = *j;
                    proof {
                        let t = choose|t: int| 0 <= t < n && #[trigger] names[t] == list@[q as int]@;
                        assert(index@[names[t]] == t);
                        assert(jj == t);
                    }
                    p.push(jj);
                    proof {
                        assert(d.take(q + 1) =~= d.take(q as int).push(d[q as int]));
                        assert(names[jj as int] == d[q as int]);
                        assert forall|j: int| 0 <= j < n implies (#[trigger] p@.contains(j as usize) <==> d.take(q + 1).contains(names[j])) by {
                            lemma_push_contains(before, jj, j as usize);
                            lemma_push_contains(d.take(q as int), d[q as int], names[j]);
                            if names[j] == d[q as int] {
                                assert(names[j] == names[jj as int]);
                                assert(j == jj as int);
                            }
                        }
                    }
                },
                None => {
                    proof {
                        assert(d.take(q + 1) =~= d.take(q as int).push(d[q as int]));
                        assert forall|j: int| 0 <= j < n implies (#[trigger] p@.contains(j as usize) <==> d.take(q + 1).contains(names[j])) by {
                            lemma_push_contains(d.take(q as int), d[q as int], names[j]);
                            if names[j] == d[q as int] {
                                assert(index@.contains_key(names[j]));
                            }
                        }
                    }
                },
            }
            q += 1;
        }
        proof {
            assert(d.take(list@.len() as int) =~= d);
        }
        preds.push(p);
        i += 1;
    }
    proof {
        assert(spec_resolves(names, deps, preds@)) by {
            assert forall|a: int, q: int| 0 <= a < preds@.len() && 0 <= q < preds@[a]@.len() implies #[trigger] preds@[a]@[q]
                < preds@.len() by {}
            assert forall|a: int, j: int| #[trigger] spec_edge(preds@, j, a) <==> spec_dep_edge(names, deps, j, a) by {
                if 0 <= a < n && 0 <= j < n {
                    assert(preds@[a]@.contains(j as usize) <==> deps[a].contains(names[j]));
                }
            }
        }
    }
    preds
}

/// Evaluation layers of a sheet's formula cells.
///
/// `dependencies[i]` lists the cells that `cells[i]` reads; names that are not
/// among `cells` are ignored. Layer `k` holds the cells whose prerequisites all
/// lie in layers below `k` with one in layer `k - 1`, in the order of `cells`;
/// every cell is in exactly one layer. A dependency cycle is a
/// `CircularReference` naming a cell that no layer can hold.
pub fn build_layers(cells: &Vec<String>, dependencies: &Vec<Vec<String>>) -> (r: Result<
    Vec<Vec<String>>,
    SpreadsheetError,
>)
    requires
        spec_string_views(cells@).no_duplicates(),
        dependencies@.len() == cells@.len(),
        cells@.len() < usize::MAX,
    ensures
        ({
            let names = spec_string_views(cells@);
            let deps = spec_nested_views(dependencies@);
            &&& (r is Ok <==> exists|preds: Seq<Vec<usize>>| spec_resolves(names, deps, preds) && spec_acyclic(preds))
            &&& r matches Ok(layers) ==> exists|preds: Seq<Vec<usize>>, lv: Seq<int>, ix: Seq<Seq<int>>|
                spec_resolves(names, deps, preds) && spec_levels(preds, lv) && spec_grouped(lv, ix)
                    && spec_nested_views(layers@) == spec_layer_names(names, ix)
            &&& r matches Err(e) ==> e matches SpreadsheetError::CircularReference(c) && names.contains(c@)
        }),
{
    let ghost names = spec_string_views(cells@);
    let ghost deps = spec_nested_views(dependencies@);
    let n = cells.len();
    let preds = resolve_prerequisites(cells, dependencies);
    match layer_indices(&preds) {
        Err(x) => {
            proof {
                assert forall|pr: Seq<Vec<usize>>| spec_resolves(names, deps, pr) implies !spec_acyclic(pr) by {
                    lemma_same_edges_acyclic(preds@, pr);
                }
                assert(names.contains(cells@[x as int]@)) by {
                    assert(names[x as int] == cells@[x as int]@);
                }
            }
            Err(SpreadsheetError::CircularReference(cells[x].clone()))
        },
        Ok(ixs) => {
            let ghost ix = spec_index_layers(ixs@);
            let ghost lv = choose|lv: Seq<int>| spec_levels(preds@, lv) && spec_grouped(lv, ix);
            let mut out: Vec<Vec<String>> = Vec::new();
            let mut k: usize = 0;
            while k < ixs.len()
                invariant
                    k <= ixs@.len(),
                    ix == spec_index_layers(ixs@),
                    spec_grouped(lv, ix),
                    lv.len() == n,
                    n == cells@.len(),
                    names == spec_string_views(cells@),
                    out@.len() == k,
                    forall|a: int| 0 <= a < k ==> #[trigger] spec_string_views(out@[a]@) == ix[a].map_values(|i: int| names[i]),
                decreases ixs.len() - k,
            {
                let l = &ixs[k];
                let mut row: Vec<String> = Vec::new();
                let mut p: usize = 0;
                while p < l.len()
                    invariant
                        p <= l@.len(),
                        k < ixs@.len(),
                        l == ixs@[k as int],
                        ix == spec_index_layers(ixs@),
                        spec_grouped(lv, ix),
                        lv.len() == n,
                        n == cells@.len(),
                        names == spec_string_views(cells@),
                        row@.len() == p,
                        forall|t: int| 0 <= t < p ==> #[trigger] row@[t]@ == names[ix[k as int][t]],
                    decreases l.len() - p,
                {
                    proof {
                        assert(ix[k as int][p as int] == l@[p as int] as int);
                        assert(0 <= ix[k as int][p as int] < lv.len());
                    }
                    row.push(cells[l[p]].clone());
                    p += 1;
                }
                proof {
                    assert(spec_string_views(row@) =~= ix[k as int].map_values(|i: int| names[i]));
                }
                out.push(row);
                k += 1;
            }
            proof {
                assert(spec_nested_views(out@) =~= spec_layer_names(names, ix));
                lemma_same_edges_acyclic(preds@, preds@);
            }
            Ok(out)
        },
    }
}

/// Two prerequisite lists with the same edges are acyclic together.
proof fn lemma_same_edges_acyclic(a: Seq<Vec<usize>>, b: Seq<Vec<usize>>)
    requires
        a.len() == b.len(),
        forall|i: int, j: int| #[trigger] spec_edge(a, j, i) <==> spec_edge(b, j, i),
    ensures
        spec_acyclic(a) <==> spec_acyclic(b),
{
    if spec_acyclic(a) {
        let h = choose|h: Seq<nat>| h.len() == a.len() && forall|i: int, j: int| #[trigger] spec_edge(a, j, i) ==> h[j] < h[i];
        assert forall|i: int, j: int| #[trigger] spec_edge(b, j, i) implies h[j] < h[i] by {
            assert(spec_edge(a, j, i));
        }
    }
    if spec_acyclic(b) {
        let h = choose|h: Seq<nat>| h.len() == b.len() && forall|i: int, j: int| #[trigger] spec_edge(b, j, i) ==> h[j] < h[i];
        assert forall|i: int, j: int| #[trigger] spec_edge(a, j, i) implies h[j] < h[i] by {
            assert(spec_edge(b, j, i));
        }
    }
}

// ---------------------------------------------------------------------------
// Transitive dependence
// ---------------------------------------------------------------------------

/// `x` reads `y` directly: `x` is a cell whose prerequisites list `y`.
pub open spec fn spec_reads(cells: Seq<Seq<char>>, deps: Seq<Seq<Seq<char>>>, x: Seq<char>, y: Seq<char>) -> bool {
    exists|i: int| 0 <= i < cells.len() && i < deps.len() && cells[i] == x && #[trigger] deps[i].contains(y)
}

/// Entry `t` of `p` reads entry `t + 1` directly.
pub open spec fn spec_link(cells: Seq<Seq<char>>, deps: Seq<Seq<Seq<char>>>, p: Seq<Seq<char>>, t: int) -> bool {
    spec_reads(cells, deps, p[t], p[t + 1])
}

/// `p` is a chain of direct reads.
pub open spec fn spec_chain(cells: Seq<Seq<char>>, deps: Seq<Seq<Seq<char>>>, p: Seq<Seq<char>>) -> bool {
    &&& p.len() >= 1
    &&& forall|t: int| 0 <= t < p.len() - 1 ==> #[trigger] spec_link(cells, deps, p, t)
}

/// `from` depends on `to`, directly or through other cells (or is `to`).
pub open spec fn spec_depends(cells: Seq<Seq<char>>, deps: Seq<Seq<Seq<char>>>, from: Seq<char>, to: Seq<char>) -> bool {
    exists|p: Seq<Seq<char>>| #[trigger] spec_chain(cells, deps, p) && p[0] == from && p.last() == to
}

/// Number of unset flags among the first `m`.
spec fn spec_false_count(v: Seq<bool>, m: int) -> int
    decreases m,
{
    if m <= 0 {
        0
    } else {
        spec_false_count(v, m - 1) + if v[m - 1] {
            0int
        } else {
            1int
        }
    }
}

proof fn lemma_false_count_set(v: Seq<bool>, j: int, m: int)
    requires
        0 <= j < v.len(),
        0 <= m <= v.len(),
        !v[j],
    ensures
        spec_false_count(v.update(j, true), m) == spec_false_count(v, m) - if j < m {
            1int
        } else {
            0int
        },
        0 <= spec_false_count(v, m) <= m,
        j < m ==> spec_false_count(v, m) >= 1,
    decreases m,
{
    if m > 0 {
        lemma_false_count_set(v, j, m - 1);
    }
}

proof fn lemma_chain_extend(cells: Seq<Seq<char>>, deps: Seq<Seq<Seq<char>>>, p: Seq<Seq<char>>, i: int, y: Seq<char>)
    requires
        spec_chain(cells, deps, p),
        0 <= i < cells.len(),
        i < deps.len(),
        p.last() == cells[i],
        deps[i].contains(y),
    ensures
        spec_chain(cells, deps, p.push(y)),
        p.push(y)[0] == p[0],
        p.push(y).last() == y,
{
    let q = p.push(y);
    assert forall|t: int| 0 <= t < q.len() - 1 implies #[trigger] spec_link(cells, deps, q, t) by {
        if t < p.len() - 1 {
            assert(spec_link(cells, deps, p, t));
            assert(q[t] == p[t] && q[t + 1] == p[t + 1]);
        } else {
            assert(q[t] == cells[i] && q[t + 1] == y);
        }
    }
}

/// Whether `from` depends on `to`: equal, or `to` is reached by following the
/// prerequisites of cells from `from`. `dependencies[i]` lists the cells that
/// `cells[i]` reads; names that are not among `cells` read nothing.
pub fn depends_on(from: &str, to: &str, cells: &Vec<String>, dependencies: &Vec<Vec<String>>) -> (r: bool)
    requires
        spec_string_views(cells@).no_duplicates(),
        dependencies@.len() == cells@.len(),
    ensures
        r == spec_depends(spec_string_views(cells@), spec_nested_views(dependencies@), from@, to@),
{
    let ghost names = spec_string_views(cells@);
    let ghost deps = spec_nested_views(dependencies@);
    let from_s = string_from_str(from);
    let to_s = string_from_str(to);
    if from_s == to_s {
        proof {
            let p = seq![from@];
            assert(spec_chain(names, deps, p));
        }
        return true;
    }
    let n = cells.len();
    let mut index: StringHashMap<usize> = StringHashMap::new();
    let mut i: usize = 0;
    while i < n
        invariant
            i <= n,
            n == cells@.len(),
            names == spec_string_views(cells@),
            names.no_duplicates(),
            forall|x: Seq<char>| #[trigger] index@.contains_key(x) <==> exists|t: int| 0 <= t < i && names[t] == x,
            forall|t: int| 0 <= t < i ==> #[trigger] index@[names[t]] == t,
        decreases n - i,
    {
        index.insert(cells[i].clone(), i);
        proof {
            assert(names[i as int] == cells@[i as int]@);
            assert forall|x: Seq<char>| #[trigger] index@.contains_key(x) <==> exists|t: int| 0 <= t < i + 1 && names[t] == x by {
                if x == names[i as int] {
                    assert(0 <= i < i + 1 && names[i as int] == x);
                }
            }
        }
        i += 1;
    }
    let start = match index.get(from) {
        None => {
            proof {
                assert forall|p: Seq<Seq<char>>| #[trigger] spec_chain(names, deps, p) && p[0] == from@ implies p.last()
                    != to@ by {
                    if p.len() > 1 {
                        assert(spec_link(names, deps, p, 0));
                        let i = choose|i: int| 0 <= i < names.len() && i < deps.len() && names[i] == p[0] && #[trigger] deps[i].contains(p[1]);
                        assert(index@.contains_key(names[i]));
                    }
                }
            }
            return false;
        },
        Some(s) => *s,
    };
    proof {
        let t = choose|t: int| 0 <= t < n && #[trigger] names[t] == from@;
        assert(index@[names[t]] == t);
    }
    let mut visited: Vec<bool> = Vec::new();
    let mut k: usize = 0;
    while k < n
        invariant
            k <= n,
            visited@.len() == k,
            forall|x: int| 0 <= x < k ==> !#[trigger] visited@[x],
        decreases n - k,
    {
        visited.push(false);
        k += 1;
    }
    proof {
        lemma_false_count_set(visited@, start as int, n as int);
    }
    visited.set(start, true);
    let mut queue: Vec<usize> = Vec::new();
    queue.push(start);
    proof {
        assert(spec_chain(names, deps, seq![from@]));
        assert(seq![from@].last() == names[queue@[0] as int]);
        assert forall|x: int| 0 <= x < n && #[trigger] visited@[x] implies queue@.contains(x as usize) by {
            assert(x == start as int);
            assert(queue@[0] == start);
        }
    }
    let mut head: usize = 0;
    while head < queue.len()
        invariant
            n == cells@.len(),
            n == dependencies@.len(),
            names == spec_string_views(cells@),
            deps == spec_nested_views(dependencies@),
            names.no_duplicates(),
            from@ != to@,
            to_s@ == to@,
            start < n,
            names[start as int] == from@,
            forall|x: Seq<char>| #[trigger] index@.contains_key(x) <==> exists|t: int| 0 <= t < n && names[t] == x,
            forall|t: int| 0 <= t < n ==> #[trigger] index@[names[t]] == t,
            visited@.len() == n,
            visited@[start as int],
            head <= queue@.len(),
            queue@.len() + spec_false_count(visited@, n as int) <= n,
            0 <= spec_false_count(visited@, n as int),
            forall|q: int| 0 <= q < queue@.len() ==> #[trigger] queue@[q] < n && visited@[queue@[q] as int],
            forall|x: int| 0 <= x < n && #[trigger] visited@[x] ==> queue@.contains(x as usize),
            forall|q: int|
                #![trigger queue@[q]]
                0 <= q < queue@.len() ==> exists|p: Seq<Seq<char>>|
                    #[trigger] spec_chain(names, deps, p) && p[0] == from@ && p.last() == names[queue@[q] as int],
            forall|q: int, y: Seq<char>|
                0 <= q < head && #[trigger] deps[queue@[q] as int].contains(y) ==> y != to@ && (index@.contains_key(y)
                    ==> visited@[index@[y] as int]),
        decreases 2 * spec_false_count(visited@, n as int) + queue@.len() - head,
    {
        let cur = queue[head];
        let list = &dependencies[cur];
        let ghost d = spec_string_views(list@);
        proof {
            assert(deps[cur as int] == d);
        }
        let ghost m0 = 2 * spec_false_count(visited@, n as int) + queue@.len() - head;
        let mut q: usize = 0;
        while q < list.len()
            invariant
                n == cells@.len(),
                n == dependencies@.len(),
                names == spec_string_views(cells@),
                deps == spec_nested_views(dependencies@),
                names.no_duplicates(),
                from@ != to@,
                to_s@ == to@,
                start < n,
                cur < n,
                head < queue@.len(),
                queue@[head as int] == cur,
                d == spec_string_views(list@),
                d == deps[cur as int],
                q <= list@.len(),
                forall|x: Seq<char>| #[trigger] index@.contains_key(x) <==> exists|t: int| 0 <= t < n && names[t] == x,
                forall|t: int| 0 <= t < n ==> #[trigger] index@[names[t]] == t,
                visited@.len() == n,
                visited@[start as int],
                queue@.len() + spec_false_count(visited@, n as int) <= n,
                0 <= spec_false_count(visited@, n as int),
                2 * spec_false_count(visited@, n as int) + queue@.len() - head <= m0,
                forall|t: int| 0 <= t < queue@.len() ==> #[trigger] queue@[t] < n && visited@[queue@[t] as int],
                forall|x: int| 0 <= x < n && #[trigger] visited@[x] ==> queue@.contains(x as usize),
                forall|t: int|
                    #![trigger queue@[t]]
                    0 <= t < queue@.len() ==> exists|p: Seq<Seq<char>>|
                        #[trigger] spec_chain(names, deps, p) && p[0] == from@ && p.last() == names[queue@[t] as int],
                forall|t: int, y: Seq<char>|
                    0 <= t < head && #[trigger] deps[queue@[t] as int].contains(y) ==> y != to@ && (index@.contains_key(
                        y,
                    ) ==> visited@[index@[y] as int]),
                forall|u: int| 0 <= u < q ==> #[trigger] d[u] != to@ && (index@.contains_key(d[u]) ==> visited@[index@[d[u]] as int]),
            decreases list.len() - q,
        {
            proof {
                assert(d[q as int] == list@[q as int]@);
                assert(deps[cur as int].contains(d[q as int]));
            }
            if list[q] == to_s {
                proof {
                    let p = choose|p: Seq<Seq<char>>|
                        #[trigger] spec_chain(names, deps, p) && p[0] == from@ && p.last() == names[queue@[head as int] as int];
                    lemma_chain_extend(names, deps, p, cur as int, to@);
                }
                return true;
            }
            match index.get(list[q].as_str()) {
                Some(j) => {
                    let jj = *j;
                    proof {
                        let t = choose|t: int| 0 <= t < n && #[trigger] names[t] == d[q as int];
                        assert(index@[names[t]] == t);
                    }
                    if !visited[jj] {
                        proof {
                            lemma_false_count_set(visited@, jj as int, n as int);
                            let p = choose|p: Seq<Seq<char>>|
                                #[trigger] spec_chain(names, deps, p) && p[0] == from@ && p.last() == names[queue@[head as int] as int];
                            lemma_chain_extend(names, deps, p, cur as int, names[jj as int]);
                        }
                        let ghost old_queue = queue@;
                        let ghost old_visited = visited@;
                        visited.set(jj, true);
                        queue.push(jj);
                        proof {
                            assert(visited@[start as int]);
                            assert forall|t: int|
                                #![trigger queue@[t]]
                                0 <= t < queue@.len() implies exists|p: Seq<Seq<char>>|
                                    #[trigger] spec_chain(names, deps, p) && p[0] == from@ && p.last() == names[queue@[t] as int] by {
                                if t < old_queue.len() {
                                    assert(queue@[t] == old_queue[t]);
                                } else {
                                    let p = choose|p: Seq<Seq<char>>|
                                        #[trigger] spec_chain(names, deps, p) && p[0] == from@ && p.last() == names[queue@[head as int] as int];
                                    assert(spec_chain(names, deps, p.push(names[jj as int])));
                                }
                            }
                            assert forall|x: int| 0 <= x < n && #[trigger] visited@[x] implies queue@.contains(x as usize) by {
                                if x == jj {
                                    assert(queue@[queue@.len() - 1] == jj);
                                } else {
                                    assert(old_visited[x]);
                                    assert(old_queue.contains(x as usize));
                                    let t = choose|t: int| 0 <= t < old_queue.len() && old_queue[t] == x as usize;
                                    assert(queue@[t] == x as usize);
                                }
                            }
                            assert forall|t: int, y: Seq<char>|
                                0 <= t < head && #[trigger] deps[queue@[t] as int].contains(y) implies y != to@ && (
                                index@.contains_key(y) ==> visited@[index@[y] as int]) by {
                                assert(queue@[t] == old_queue[t]);
                            }
                        }
                    }
                },
                None => {},
            }
            q += 1;
        }
        proof {
            assert(d.take(list@.len() as int) =~= d);
            assert forall|t: int, y: Seq<char>|
                0 <= t < head + 1 && #[trigger] deps[queue@[t] as int].contains(y) implies y != to@ && (index@.contains_key(y)
                    ==> visited@[index@[y] as int]) by {
                if t == head {
                    let u = choose|u: int| 0 <= u < d.len() && d[u] == y;
                    assert(d[u] != to@);
                }
            }
        }
        head += 1;
    }
    proof {
        lemma_no_chain_out(names, deps, from@, to@, index@, visited@, queue@, start as int);
    }
    false
}

/// When every visited cell's prerequisites avoid `to` and stay among visited
/// cells (or outside the sheet), no chain from `from` reaches `to`.
proof fn lemma_no_chain_out(
    names: Seq<Seq<char>>,
    deps: Seq<Seq<Seq<char>>>,
    from: Seq<char>,
    to: Seq<char>,
    index: Map<Seq<char>, usize>,
    visited: Seq<bool>,
    queue: Seq<usize>,
    start: int,
)
    requires
        names.no_duplicates(),
        deps.len() == names.len(),
        visited.len() == names.len(),
        from != to,
        0 <= start < names.len(),
        names[start] == from,
        visited[start],
        forall|x: Seq<char>| #[trigger] index.contains_key(x) <==> exists|t: int| 0 <= t < names.len() && names[t] == x,
        forall|t: int| 0 <= t < names.len() ==> #[trigger] index[names[t]] == t,
        forall|x: int| 0 <= x < names.len() && #[trigger] visited[x] ==> queue.contains(x as usize),
        forall|t: int, y: Seq<char>|
            0 <= t < queue.len() && #[trigger] deps[queue[t] as int].contains(y) ==> y != to && (index.contains_key(y)
                ==> visited[index[y] as int]),
    ensures
        !spec_depends(names, deps, from, to),
{
    assert forall|p: Seq<Seq<char>>| #[trigger] spec_chain(names, deps, p) && p[0] == from implies p.last() != to by {
        lemma_chain_stays(names, deps, to, index, visited, queue, p, (p.len() - 1) as nat);
    }
}

proof fn lemma_chain_stays(
    names: Seq<Seq<char>>,
    deps: Seq<Seq<Seq<char>>>,
    to: Seq<char>,
    index: Map<Seq<char>, usize>,
    visited: Seq<bool>,
    queue: Seq<usize>,
    p: Seq<Seq<char>>,
    t: nat,
)
    requires
        names.no_duplicates(),
        deps.len() == names.len(),
        visited.len() == names.len(),
        spec_chain(names, deps, p),
        p[0] != to,
        index.contains_key(p[0]) ==> visited[index[p[0]] as int],
        t < p.len(),
        forall|x: Seq<char>| #[trigger] index.contains_key(x) <==> exists|u: int| 0 <= u < names.len() && names[u] == x,
        forall|u: int| 0 <= u < names.len() ==> #[trigger] index[names[u]] == u,
        forall|x: int| 0 <= x < names.len() && #[trigger] visited[x] ==> queue.contains(x as usize),
        forall|u: int, y: Seq<char>|
            0 <= u < queue.len() && #[trigger] deps[queue[u] as int].contains(y) ==> y != to && (index.contains_key(y)
                ==> visited[index[y] as int]),
    ensures
        p[t as int] != to,
        index.contains_key(p[t as int]) ==> visited[index[p[t as int]] as int],
    decreases t,
{
    if t > 0 {
        lemma_chain_stays(names, deps, to, index, visited, queue, p, (t - 1) as nat);
        let s = t - 1;
        assert(spec_link(names, deps, p, s as int));
        let i = choose|i: int| 0 <= i < names.len() && i < deps.len() && names[i] == p[s] && #[trigger] deps[i].contains(p[s + 1]);
        assert(index.contains_key(p[s]));
        assert(index[names[i]] == i);
        assert(visited[i]);
        assert(queue.contains(i as usize));
        let u = choose|u: int| 0 <= u < queue.len() && queue[u] == i as usize;
        assert(deps[queue[u] as int].contains(p[s + 1]));
    }
}

/// Dependence runs down the layers: when the prerequisites of the sheet
/// resolve to an index graph with a valid layering, a cell that depends
/// (directly or through other cells) on another cell lies in a higher layer.
pub proof fn lemma_dependence_descends_layers(
    names: Seq<Seq<char>>,
    deps: Seq<Seq<Seq<char>>>,
    preds: Seq<Vec<usize>>,
    lv: Seq<int>,
    i: int,
    j: int,
)
    requires
        names.no_duplicates(),
        deps.len() == names.len(),
        spec_resolves(names, deps, preds),
        spec_levels(preds, lv),
        0 <= i < names.len(),
        0 <= j < names.len(),
        i != j,
        spec_depends(names, deps, names[i], names[j]),
    ensures
        lv[j] < lv[i],
{
    let p = choose|p: Seq<Seq<char>>| #[trigger] spec_chain(names, deps, p) && p[0] == names[i] && p.last() == names[j];
    assert(p.len() >= 2) by {
        if p.len() == 1 {
            assert(names[i] == names[j]);
        }
    }
    lemma_chain_descends(names, deps, preds, lv, i, p, (p.len() - 1) as nat);
}

proof fn lemma_chain_descends(
    names: Seq<Seq<char>>,
    deps: Seq<Seq<Seq<char>>>,
    preds: Seq<Vec<usize>>,
    lv: Seq<int>,
    i: int,
    p: Seq<Seq<char>>,
    t: nat,
)
    requires
        names.no_duplicates(),
        deps.len() == names.len(),
        spec_resolves(names, deps, preds),
        spec_levels(preds, lv),
        0 <= i < names.len(),
        spec_chain(names, deps, p),
        p[0] == names[i],
        1 <= t < p.len(),
    ensures
        forall|b: int| 0 <= b < names.len() && #[trigger] names[b] == p[t as int] ==> lv[b] < lv[i],
    decreases t,
{
    let s = (t - 1) as int;
    assert(spec_link(names, deps, p, s));
    let a = choose|a: int| 0 <= a < names.len() && a < deps.len() && names[a] == p[s] && #[trigger] deps[a].contains(p[s + 1]);
    if t > 1 {
        lemma_chain_descends(names, deps, preds, lv, i, p, (t - 1) as nat);
        assert(lv[a] < lv[i]);
    } else {
        assert(names[a] == names[i]);
        assert(a == i);
    }
    assert forall|b: int| 0 <= b < names.len() && #[trigger] names[b] == p[t as int] implies lv[b] < lv[i] by {
        assert(spec_dep_edge(names, deps, b, a));
        assert(spec_edge(preds, b, a));
        assert(lv[b] < lv[a]);
    }
}

// ---------------------------------------------------------------------------
// Dependents of a set of cells
// ---------------------------------------------------------------------------

/// Cell `i` depends, directly or through other cells, on some marked cell
/// (or is marked itself).
pub open spec fn spec_reaches_marked(
    names: Seq<Seq<char>>,
    deps: Seq<Seq<Seq<char>>>,
    marked: Seq<bool>,
    i: int,
) -> bool {
    exists|s: int| 0 <= s < marked.len() && marked[s] && #[trigger] spec_depends(names, deps, names[i], names[s])
}

/// Whether some listed prerequisite is marked.
fn any_marked(p: &Vec<usize>, marked: &Vec<bool>) -> (r: bool)
    requires
        forall|q: int| 0 <= q < p@.len() ==> #[trigger] p@[q] < marked@.len(),
    ensures
        r == exists|q: int| 0 <= q < p@.len() && marked@[#[trigger] p@[q] as int],
{
    let mut q: usize = 0;
    while q < p.len()
        invariant
            q <= p@.len(),
            forall|t: int| 0 <= t < p@.len() ==> #[trigger] p@[t] < marked@.len(),
            forall|t: int| 0 <= t < q ==> !marked@[#[trigger] p@[t] as int],
        decreases p.len() - q,
    {
        if marked[p[q]] {
            return true;
        }
        q += 1;
    }
    false
}

proof fn lemma_chain_prepend(names: Seq<Seq<char>>, deps: Seq<Seq<Seq<char>>>, p: Seq<Seq<char>>, x: Seq<char>)
    requires
        spec_chain(names, deps, p),
        spec_reads(names, deps, x, p[0]),
    ensures
        spec_chain(names, deps, seq![x] + p),
        (seq![x] + p)[0] == x,
        (seq![x] + p).last() == p.last(),
{
    let q = seq![x] + p;
    assert forall|t: int| 0 <= t < q.len() - 1 implies #[trigger] spec_link(names, deps, q, t) by {
        if t == 0 {
            assert(q[0] == x && q[1] == p[0]);
        } else {
            assert(spec_link(names, deps, p, t - 1));
            assert(q[t] == p[t - 1] && q[t + 1] == p[t]);
        }
    }
}

/// With marks closed under dependents, a chain from an unmarked cell never
/// reaches a marked cell.
proof fn lemma_unmarked_chain(
    names: Seq<Seq<char>>,
    deps: Seq<Seq<Seq<char>>>,
    preds: Seq<Vec<usize>>,
    marked: Seq<bool>,
    p: Seq<Seq<char>>,
    t: nat,
)
    requires
        names.no_duplicates(),
        deps.len() == names.len(),
        marked.len() == names.len(),
        spec_resolves(names, deps, preds),
        spec_chain(names, deps, p),
        forall|b: int| 0 <= b < names.len() && #[trigger] names[b] == p[0] ==> !marked[b],
        forall|i: int, j: int| #[trigger] spec_edge(preds, j, i) && !marked[i] ==> !marked[j],
        t < p.len(),
    ensures
        forall|b: int| 0 <= b < names.len() && #[trigger] names[b] == p[t as int] ==> !marked[b],
    decreases t,
{
    if t > 0 {
        lemma_unmarked_chain(names, deps, preds, marked, p, (t - 1) as nat);
        let s = (t - 1) as int;
        assert(spec_link(names, deps, p, s));
        let a = choose|a: int| 0 <= a < names.len() && a < deps.len() && names[a] == p[s] && #[trigger] deps[a].contains(p[s + 1]);
        assert(!marked[a]);
        assert forall|b: int| 0 <= b < names.len() && #[trigger] names[b] == p[t as int] implies !marked[b] by {
            assert(spec_dep_edge(names, deps, b, a));
            assert(spec_edge(preds, b, a));
        }
    }
}

/// The cells that depend on a marked cell, directly or through other cells,
/// marked cells included. `dependencies[i]` lists the cells that `cells[i]`
/// reads; names outside the sheet are ignored.
pub fn dependents_closure(cells: &Vec<String>, dependencies: &Vec<Vec<String>>, seeds: &Vec<bool>) -> (r: Vec<bool>)
    requires
        spec_string_views(cells@).no_duplicates(),
        dependencies@.len() == cells@.len(),
        seeds@.len() == cells@.len(),
        cells@.len() < usize::MAX,
    ensures
        r@.len() == cells@.len(),
        forall|i: int|
            0 <= i < cells@.len() ==> (#[trigger] r@[i] <==> spec_reaches_marked(
                spec_string_views(cells@),
                spec_nested_views(dependencies@),
                seeds@,
                i,
            )),
{
    let ghost names = spec_string_views(cells@);
    let ghost deps = spec_nested_views(dependencies@);
    let n = cells.len();
    let preds = resolve_prerequisites(cells, dependencies);
    let mut marked: Vec<bool> = Vec::new();
    let mut k: usize = 0;
    while k < n
        invariant
            k <= n,
            n == seeds@.len(),
            marked@.len() == k,
            forall|x: int| 0 <= x < k ==> #[trigger] marked@[x] == seeds@[x],
        decreases n - k,
    {
        marked.push(seeds[k]);
        k += 1;
    }
    proof {
        assert forall|x: int| 0 <= x < n && #[trigger] marked@[x] implies spec_reaches_marked(names, deps, seeds@, x) by {
            assert(spec_chain(names, deps, seq![names[x]]));
            assert(spec_depends(names, deps, names[x], names[x]));
        }
        lemma_false_count_bounds(marked@, n as int);
    }
    loop
        invariant
            n == cells@.len(),
            n == preds@.len(),
            names == spec_string_views(cells@),
            deps == spec_nested_views(dependencies@),
            names.no_duplicates(),
            deps.len() == names.len(),
            spec_resolves(names, deps, preds@),
            marked@.len() == n,
            seeds@.len() == n,
            0 <= spec_false_count(marked@, n as int),
            forall|x: int| 0 <= x < n && #[trigger] seeds@[x] ==> marked@[x],
            forall|x: int| 0 <= x < n && #[trigger] marked@[x] ==> spec_reaches_marked(names, deps, seeds@, x),
        decreases spec_false_count(marked@, n as int),
    {
        let ghost start = marked@;
        let mut changed = false;
        let mut i: usize = 0;
        while i < n
            invariant
                n == cells@.len(),
                n == preds@.len(),
                names == spec_string_views(cells@),
                deps == spec_nested_views(dependencies@),
                names.no_duplicates(),
                deps.len() == names.len(),
                spec_resolves(names, deps, preds@),
                i <= n,
                marked@.len() == n,
                seeds@.len() == n,
                start.len() == n,
                0 <= spec_false_count(marked@, n as int),
                changed ==> spec_false_count(marked@, n as int) < spec_false_count(start, n as int),
                !changed ==> marked@ == start,
                !changed ==> forall|x: int, j: int|
                    0 <= x < i && #[trigger] spec_edge(preds@, j, x) && !marked@[x] ==> !marked@[j],
                spec_false_count(marked@, n as int) <= spec_false_count(start, n as int),
                forall|x: int| 0 <= x < n && #[trigger] seeds@[x] ==> marked@[x],
                forall|x: int| 0 <= x < n && #[trigger] marked@[x] ==> spec_reaches_marked(names, deps, seeds@, x),
            decreases n - i,
        {
            proof {
                assert forall|q: int| 0 <= q < preds@[i as int]@.len() implies #[trigger] preds@[i as int]@[q] < marked@.len() by {
                    assert(preds@[i as int]@[q] < preds@.len());
                }
            }
            if !marked[i] && any_marked(&preds[i], &marked) {
                proof {
                    let q = choose|q: int| 0 <= q < preds@[i as int]@.len() && marked@[#[trigger] preds@[i as int]@[q] as int];
                    let j = preds@[i as int]@[q] as int;
                    assert(spec_edge(preds@, j, i as int));
                    assert(spec_dep_edge(names, deps, j, i as int));
                    assert(spec_reaches_marked(names, deps, seeds@, j));
                    let s = choose|s: int| 0 <= s < seeds@.len() && seeds@[s] && #[trigger] spec_depends(names, deps, names[j], names[s]);
                    let p = choose|p: Seq<Seq<char>>| #[trigger] spec_chain(names, deps, p) && p[0] == names[j] && p.last() == names[s];
                    assert(deps[i as int].contains(names[j]));
                    assert(spec_reads(names, deps, names[i as int], p[0]));
                    lemma_chain_prepend(names, deps, p, names[i as int]);
                    assert(spec_depends(names, deps, names[i as int], names[s]));
                    lemma_false_count_set(marked@, i as int, n as int);
                }
                marked.set(i, true);
                changed = true;
            } else {
                proof {
                    if !changed && !marked@[i as int] {
                        assert forall|j: int| #[trigger] spec_edge(preds@, j, i as int) implies !marked@[j] by {
                            let q = choose|q: int| 0 <= q < preds@[i as int]@.len() && preds@[i as int]@[q] == j as usize;
                            assert(!marked@[preds@[i as int]@[q] as int]);
                        }
                    }
                }
            }
            i += 1;
        }
        if !changed {
            proof {
                assert forall|x: int| 0 <= x < n && !#[trigger] marked@[x] implies !spec_reaches_marked(names, deps, seeds@, x) by {
                    if spec_reaches_marked(names, deps, seeds@, x) {
                        let s = choose|s: int| 0 <= s < seeds@.len() && seeds@[s] && #[trigger] spec_depends(names, deps, names[x], names[s]);
                        let p = choose|p: Seq<Seq<char>>| #[trigger] spec_chain(names, deps, p) && p[0] == names[x] && p.last() == names[s];
                        assert forall|b: int| 0 <= b < names.len() && #[trigger] names[b] == p[0] implies !marked@[b] by {
                            assert(names[b] == names[x]);
                        }
                        lemma_unmarked_chain(names, deps, preds@, marked@, p, (p.len() - 1) as nat);
                        assert(names[s] == p[p.len() - 1]);
                        assert(!marked@[s]);
                    }
                }
            }
            return marked;
        }
    }
}

proof fn lemma_false_count_bounds(v: Seq<bool>, m: int)
    requires
        0 <= m <= v.len(),
    ensures
        0 <= spec_false_count(v, m) <= m,
    decreases m,
{
    if m > 0 {
        lemma_false_count_bounds(v, m - 1);
    }
}

proof fn lemma_push_contains<A>(s: Seq<A>, a: A, x: A)
    ensures
        s.push(a).contains(x) <==> (s.contains(x) || x == a),
{
    if s.contains(x) {
        let t = choose|t: int| 0 <= t < s.len() && s[t] == x;
        assert(s.push(a)[t] == x);
    }
    if x == a {
        assert(s.push(a)[s.len() as int] == a);
    }
    if s.push(a).contains(x) {
        let t = choose|t: int| 0 <= t < s.push(a).len() && s.push(a)[t] == x;
        if t < s.len() {
            assert(s[t] == x);
        }
    }
}

} // verus!
