use calc_spreadsheet::refs::CellMap;
use calc_spreadsheet::soft_spill::{reevaluation_after_layer, soft_wave, sweep_again, touched_seeds, MAX_SWEEPS};
use calc_spreadsheet::spill_deps::{spill_dependencies, spill_providers};
use calc_spreadsheet::SpreadsheetError;

fn names(v: &[&str]) -> Vec<String> {
    v.iter().map(|s| s.to_string()).collect()
}

fn pair(a: &str, b: &str) -> (String, String) {
    (a.to_string(), b.to_string())
}

#[test]
fn reader_of_a_spill_depends_on_its_anchor() {
    // A1 spills into A2 (no formula); B1 reads A2.
    let cells = names(&["A1", "B1"]);
    let refs = vec![vec![], names(&["A2"])];
    let explicit = vec![vec![], vec![]];
    let providers = vec![("A2".to_string(), names(&["A1"]))];
    let (deps, watch) = spill_dependencies(&cells, &refs, &explicit, &providers, &vec![false, false]).unwrap();
    assert_eq!(deps, vec![vec![], names(&["A1"])]);
    assert!(watch.is_empty());
}

#[test]
fn anchor_reading_its_reader_is_circular() {
    // A1 spills into A2 and reads B1; B1 reads A2.
    let cells = names(&["A1", "B1"]);
    let refs = vec![names(&["B1"]), names(&["A2"])];
    let explicit = vec![names(&["B1"]), vec![]];
    let providers = vec![("A2".to_string(), names(&["A1"]))];
    let r = spill_dependencies(&cells, &refs, &explicit, &providers, &vec![false, false]);
    assert_eq!(r, Err(SpreadsheetError::CircularReference("B1".to_string())));
}

#[test]
fn filter_anchor_cycle_is_watched_instead() {
    let cells = names(&["A1", "B1"]);
    let refs = vec![names(&["B1"]), names(&["A2"])];
    let explicit = vec![names(&["B1"]), vec![]];
    let providers = vec![("A2".to_string(), names(&["A1"]))];
    let (deps, watch) = spill_dependencies(&cells, &refs, &explicit, &providers, &vec![true, false]).unwrap();
    assert_eq!(deps, vec![names(&["B1"]), vec![]]);
    assert_eq!(watch, vec![pair("B1", "A1")]);
}

#[test]
fn formula_cells_and_own_spill_add_nothing() {
    // B1 reads A2, which is a formula cell: no provider edge. A1 reads its own spill.
    let cells = names(&["A1", "A2", "B1"]);
    let refs = vec![names(&["A3"]), vec![], names(&["A2"])];
    let explicit = vec![vec![], vec![], names(&["A2"])];
    let providers = vec![("A2".to_string(), names(&["A1"])), ("A3".to_string(), names(&["A1"]))];
    let (deps, _) = spill_dependencies(&cells, &refs, &explicit, &providers, &vec![false, false, false]).unwrap();
    assert_eq!(deps, vec![vec![], vec![], names(&["A2"])]);
}

#[test]
fn wave_grows_through_watched_pairs_and_dependents() {
    let cells = names(&["A1", "B1", "C1", "D1"]);
    // C1 reads B1; D1 is unrelated.
    let deps = vec![vec![], vec![], names(&["B1"]), vec![]];
    let watch = vec![pair("B1", "A1")];
    let mut cache: CellMap<f64> = CellMap::new();
    for c in ["A1", "B1", "C1", "D1"] {
        cache.insert(c.to_string(), 1.0);
    }
    let w = soft_wave(&names(&["A1"]), &watch, &cells, &deps, &cache);
    assert_eq!(w, vec![0, 1, 2]);
}

#[test]
fn wave_skips_cells_without_a_number_yet() {
    let cells = names(&["A1", "B1", "C1"]);
    let deps = vec![vec![], vec![], names(&["B1"])];
    let watch = vec![pair("B1", "A1")];
    let mut cache: CellMap<f64> = CellMap::new();
    cache.insert("A1".to_string(), 1.0);
    cache.insert("B1".to_string(), 1.0);
    let w = soft_wave(&names(&["A1"]), &watch, &cells, &deps, &cache);
    assert_eq!(w, vec![0, 1]);
    let none = soft_wave(&names(&["Z9"]), &watch, &cells, &deps, &cache);
    assert!(none.is_empty());
}

#[test]
fn touched_cells_come_from_pairs_meeting_the_layer() {
    let watch = vec![pair("B1", "A1"), pair("D1", "C1")];
    let mut cache: CellMap<f64> = CellMap::new();
    cache.insert("A1".to_string(), 1.0);
    let mut text: CellMap<String> = CellMap::new();
    text.insert("B1".to_string(), "t".to_string());
    cache.insert("D1".to_string(), 2.0);
    let mut t = touched_seeds(&watch, &names(&["A1"]), &cache, &text);
    t.sort();
    assert_eq!(t, names(&["A1", "B1"]));
    // C1 has no result yet, so only D1 is a seed.
    assert_eq!(touched_seeds(&watch, &names(&["D1"]), &cache, &text), names(&["D1"]));
    assert!(touched_seeds(&watch, &names(&["E1"]), &cache, &text).is_empty());
}

#[test]
fn at_most_two_sweeps_and_only_while_changing() {
    assert_eq!(MAX_SWEEPS, 2);
    assert!(sweep_again(1, true));
    assert!(!sweep_again(1, false));
    assert!(!sweep_again(2, true));
}

#[test]
fn layer_touching_a_watched_pair_reevaluates_it_and_its_dependents() {
    let cells = names(&["A1", "B1", "C1", "D1"]);
    let deps = vec![vec![], vec![], names(&["B1"]), vec![]];
    let watch = vec![pair("B1", "A1")];
    let mut cache: CellMap<f64> = CellMap::new();
    for c in ["A1", "B1", "C1", "D1"] {
        cache.insert(c.to_string(), 1.0);
    }
    let text: CellMap<String> = CellMap::new();
    assert_eq!(reevaluation_after_layer(&watch, &names(&["B1"]), &cells, &deps, &cache, &text), vec![0, 1, 2]);
    assert!(reevaluation_after_layer(&watch, &names(&["D1"]), &cells, &deps, &cache, &text).is_empty());
}

#[test]
fn providers_list_the_anchors_covering_each_cell() {
    let cells = names(&["A1", "B1", "C1"]);
    let shapes = vec![Some((2, 2)), Some((2, 1)), None];
    let mut p = spill_providers(&cells, &shapes);
    for entry in p.iter_mut() {
        entry.1.sort();
    }
    p.sort();
    assert_eq!(
        p,
        vec![
            ("A2".to_string(), names(&["A1"])),
            ("B1".to_string(), names(&["A1"])),
            ("B2".to_string(), names(&["A1", "B1"])),
        ]
    );
    let none = spill_providers(&names(&["x"]), &vec![Some((2, 2))]);
    assert!(none.is_empty());
}
