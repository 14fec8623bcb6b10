use calc_spreadsheet::deps::{
    build_layers, dependents_closure, depends_on, layer_indices, resolve_prerequisites,
};
use calc_spreadsheet::SpreadsheetError;
use std::collections::HashSet;

fn names(v: &[&str]) -> Vec<String> {
    v.iter().map(|s| s.to_string()).collect()
}

#[test]
fn builds_independent_layer_then_dependents() {
    let cells = names(&["A1", "A2", "B1"]);
    let dependencies = vec![vec![], vec![], names(&["A1", "A2"])];
    let layers = build_layers(&cells, &dependencies).unwrap();
    assert_eq!(layers.len(), 2);
    let layer0: HashSet<_> = layers[0].iter().cloned().collect();
    assert_eq!(layer0, HashSet::from(["A1".to_string(), "A2".to_string()]));
    assert_eq!(layers[1], vec!["B1".to_string()]);
}

#[test]
fn detects_cycle() {
    let cells = names(&["A1", "B1"]);
    let dependencies = vec![names(&["B1"]), names(&["A1"])];
    assert!(matches!(
        build_layers(&cells, &dependencies),
        Err(SpreadsheetError::CircularReference(_))
    ));
}

// --- further cases -------------------------------------------------------

#[test]
fn cell_sits_just_above_its_deepest_prerequisite() {
    // C1 reads A1 (layer 0) and B1 (layer 1): it goes to layer 2.
    let cells = names(&["C1", "B1", "A1"]);
    let dependencies = vec![names(&["A1", "B1"]), names(&["A1"]), vec![]];
    let layers = build_layers(&cells, &dependencies).unwrap();
    assert_eq!(layers, vec![names(&["A1"]), names(&["B1"]), names(&["C1"])]);
}

#[test]
fn unknown_prerequisites_are_ignored() {
    let cells = names(&["A1"]);
    let dependencies = vec![names(&["Z9", "text"])];
    assert_eq!(build_layers(&cells, &dependencies).unwrap(), vec![names(&["A1"])]);
}

#[test]
fn self_reference_is_a_cycle_naming_the_cell() {
    let cells = names(&["A1", "B1"]);
    let dependencies = vec![vec![], names(&["B1"])];
    match build_layers(&cells, &dependencies) {
        Err(SpreadsheetError::CircularReference(c)) => assert_eq!(c, "B1"),
        other => panic!("unexpected {:?}", other),
    }
}

#[test]
fn downstream_of_a_cycle_is_not_layered() {
    let cells = names(&["A1", "B1", "C1"]);
    let dependencies = vec![names(&["B1"]), names(&["A1"]), names(&["A1"])];
    assert!(build_layers(&cells, &dependencies).is_err());
}

#[test]
fn empty_sheet_has_no_layers() {
    assert!(build_layers(&vec![], &vec![]).unwrap().is_empty());
}

#[test]
fn index_layers() {
    let preds = vec![vec![], vec![0], vec![0, 1], vec![]];
    assert_eq!(layer_indices(&preds).unwrap(), vec![vec![0, 3], vec![1], vec![2]]);
    assert_eq!(layer_indices(&vec![vec![1], vec![0]]).unwrap_err(), 0);
}

#[test]
fn dependence_follows_prerequisites_transitively() {
    let cells = names(&["A1", "B1", "C1", "D1"]);
    let dependencies = vec![names(&["B1"]), names(&["C1", "X9"]), vec![], names(&["A1"])];
    assert!(depends_on("A1", "C1", &cells, &dependencies));
    assert!(depends_on("D1", "C1", &cells, &dependencies));
    assert!(depends_on("A1", "X9", &cells, &dependencies));
    assert!(depends_on("C1", "C1", &cells, &dependencies));
    assert!(!depends_on("C1", "A1", &cells, &dependencies));
    assert!(!depends_on("A1", "D1", &cells, &dependencies));
    assert!(!depends_on("X9", "A1", &cells, &dependencies));
    let cyc = vec![names(&["B1"]), names(&["A1"]), vec![], vec![]];
    assert!(depends_on("A1", "A1", &cells, &cyc));
    assert!(!depends_on("A1", "C1", &cells, &cyc));
}

#[test]
fn closure_marks_every_dependent() {
    let cells = names(&["A1", "B1", "C1", "D1", "E1"]);
    // B1 reads A1, C1 reads B1, D1 reads nothing, E1 reads D1 and Z9
    let dependencies = vec![vec![], names(&["A1"]), names(&["B1"]), vec![], names(&["D1", "Z9"])];
    let seeds = vec![true, false, false, false, false];
    assert_eq!(
        dependents_closure(&cells, &dependencies, &seeds),
        vec![true, true, true, false, false]
    );
    let seeds = vec![false, false, false, true, false];
    assert_eq!(
        dependents_closure(&cells, &dependencies, &seeds),
        vec![false, false, false, true, true]
    );
    let none = vec![false; 5];
    assert_eq!(dependents_closure(&cells, &dependencies, &none), none);
}

#[test]
fn prerequisites_resolve_to_indices() {
    let cells = names(&["A1", "B1"]);
    let dependencies = vec![names(&["B1", "Q1", "B1"]), vec![]];
    assert_eq!(resolve_prerequisites(&cells, &dependencies), vec![vec![1, 1], vec![]]);
}
