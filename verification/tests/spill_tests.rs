use calc_spreadsheet::refs::CellSet;
use calc_spreadsheet::spill::{spill_blocked, spill_footprint};

fn set(v: &[&str]) -> CellSet {
    let mut s = CellSet::new();
    for x in v {
        s.insert(x.to_string());
    }
    s
}

#[test]
fn footprint_is_row_major_from_the_anchor() {
    let f = spill_footprint(2, 3, 2, 3);
    assert_eq!(f, vec![vec!["B3", "C3", "D3"], vec!["B4", "C4", "D4"]]);
    assert!(spill_footprint(1, 1, 0, 5).is_empty());
    assert_eq!(spill_footprint(26, 1, 1, 2), vec![vec!["Z1", "AA1"]]);
}

#[test]
fn blocked_by_inputs_or_foreign_values_only() {
    let targets: Vec<String> = vec!["A1".into(), "A2".into(), "A3".into()];
    let none = set(&[]);
    assert!(!spill_blocked(&targets, "A1", &set(&["A1"]), &vec![true, false, false], &none));
    assert!(spill_blocked(&targets, "A1", &set(&["A3"]), &vec![false, false, false], &none));
    assert!(spill_blocked(&targets, "A1", &none, &vec![false, true, false], &none));
    assert!(!spill_blocked(&targets, "A1", &none, &vec![false, true, false], &set(&["A2"])));
}
