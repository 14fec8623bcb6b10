//! Whether a layer of formulas is worth evaluating in parallel.
use vstd::prelude::*;
use vstd::hash_map::StringHashMap;
use crate::refs::spec_string_views;
use crate::text::string_from_str;

verus! {

/// Minimum layer size for parallel evaluation. Both minimums must be met.
#[derive(Clone, Copy, Debug, PartialEq, Eq, Structural)]
pub struct ParallelThresholds {
    /// Minimum cells in a layer before parallel evaluation is considered.
    pub min_layer_width: usize,
    /// Minimum total work units in a layer (cell-reference occurrences plus
    /// expanded A1 range cells).
    pub min_layer_work: usize,
}

impl Default for ParallelThresholds {
    /// 4096 cells and 327680 work units.
    fn default() -> (r: Self)
        ensures
            r.min_layer_width == 4096,
            r.min_layer_work == 327_680,
    {
        ParallelThresholds { min_layer_width: 4096, min_layer_work: 327_680 }
    }
}

/// Work units of each formula cell, by name.
pub struct WorkTable {
    map: StringHashMap<usize>,
}

impl View for WorkTable {
    type V = Map<Seq<char>, usize>;

    closed spec fn view(&self) -> Map<Seq<char>, usize> {
        self.map@
    }
}

/// The work recorded for `name`, or 0 for a cell without an entry.
pub open spec fn spec_work_of(table: Map<Seq<char>, usize>, name: Seq<char>) -> int {
    if table.contains_key(name) {
        table[name] as int
    } else {
        0
    }
}

impl WorkTable {
    pub fn new() -> (r: WorkTable)
        ensures
            r@ == Map::<Seq<char>, usize>::empty(),
    {
        WorkTable { map: StringHashMap::new() }
    }

    /// Records the work of `name`, replacing any earlier entry.
    pub fn insert(&mut self, name: String, work: usize)
        ensures
            final(self)@ == old(self)@.insert(name@, work),
    {
        self.map.insert(name, work);
    }

    /// The work of `name` (0 when it has no entry).
    pub fn get(&self, name: &str) -> (r: usize)
        ensures
            r == spec_work_of(self@, name@),
    {
        match self.map.get(name) {
            Some(w) => *w,
            None => 0,
        }
    }
}

/// Total work of the cells `layer[..k]`.
pub open spec fn spec_layer_work(layer: Seq<Seq<char>>, table: Map<Seq<char>, usize>, k: int) -> int
    decreases k,
{
    if k <= 0 {
        0
    } else {
        spec_layer_work(layer, table, k - 1) + spec_work_of(table, layer[k - 1])
    }
}

proof fn lemma_layer_work_monotone(layer: Seq<Seq<char>>, table: Map<Seq<char>, usize>, k: int)
    ensures
        k >= 0 ==> spec_layer_work(layer, table, k) >= 0,
        k > 0 ==> spec_layer_work(layer, table, k) >= spec_layer_work(layer, table, k - 1),
    decreases k,
{
    if k > 0 {
        lemma_layer_work_monotone(layer, table, k - 1);
    }
}

/// Whether a layer is wide and heavy enough for parallel evaluation: at least
/// `min_layer_width` cells and at least `min_layer_work` work units in all
/// (cells without an entry in `work_by_cell` count 0).
pub fn should_use_parallel(layer: &Vec<String>, work_by_cell: &WorkTable, thresholds: ParallelThresholds) -> (r:
    bool)
    ensures
        r == (layer@.len() >= thresholds.min_layer_width && spec_layer_work(
            spec_string_views(layer@),
            work_by_cell@,
            layer@.len() as int,
        ) >= thresholds.min_layer_work),
{
    let ghost names = spec_string_views(layer@);
    let width = layer.len();
    let mut work: usize = 0;
    let mut i: usize = 0;
    while i < layer.len()
        invariant
            i <= layer@.len(),
            names == spec_string_views(layer@),
            work == if spec_layer_work(names, work_by_cell@, i as int) > usize::MAX {
                usize::MAX as int
            } else {
                spec_layer_work(names, work_by_cell@, i as int)
            },
        decreases layer.len() - i,
    {
        proof {
            lemma_layer_work_monotone(names, work_by_cell@, i + 1);
            assert(names[i as int] == layer@[i as int]@);
        }
        work = work.saturating_add(work_by_cell.get(layer[i].as_str()));
        i += 1;
    }
    width >= thresholds.min_layer_width && work >= thresholds.min_layer_work
}


pub open spec fn spec_negative(o: Option<i64>) -> bool {
    o matches Some(n) && n < 0
}

/// The given value as a `usize`, or the default when there is none.
pub open spec fn spec_or_default(o: Option<i64>, default: usize) -> usize {
    match o {
        Some(n) => n as usize,
        None => default,
    }
}

/// Thresholds from optional caller overrides: a missing value keeps the
/// default, a negative one is refused with a message naming the field.
pub fn resolve_thresholds(min_layer_width: Option<i64>, min_layer_work: Option<i64>) -> (r: Result<
    ParallelThresholds,
    String,
>)
    ensures
        spec_negative(min_layer_width) ==> (r matches Err(m) && m@ == "min_layer_width must be >= 0"@),
        !spec_negative(min_layer_width) && spec_negative(min_layer_work) ==> (r matches Err(m) && m@
            == "min_layer_work must be >= 0"@),
        !spec_negative(min_layer_width) && !spec_negative(min_layer_work) ==> (r matches Ok(t)
            && t.min_layer_width == spec_or_default(min_layer_width, 4096) && t.min_layer_work == spec_or_default(
            min_layer_work,
            327_680,
        )),
{
    let defaults = ParallelThresholds::default();
    let width = match min_layer_width {
        None => defaults.min_layer_width,
        Some(n) => {
            if n < 0 {
                return Err(string_from_str("min_layer_width must be >= 0"));
            }
            n as usize
        },
    };
    let work = match min_layer_work {
        None => defaults.min_layer_work,
        Some(n) => {
            if n < 0 {
                return Err(string_from_str("min_layer_work must be >= 0"));
            }
            n as usize
        },
    };
    Ok(ParallelThresholds { min_layer_width: width, min_layer_work: work })
}
} // verus!
