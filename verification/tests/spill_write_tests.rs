use calc_spreadsheet::refs::{CellMap, CellSet};
use calc_spreadsheet::spill::{clear_spill, place_spill, place_text, place_value};
use calc_spreadsheet::SpreadsheetError;

fn set(v: &[&str]) -> CellSet {
    let mut s = CellSet::new();
    for x in v {
        s.insert(x.to_string());
    }
    s
}

struct Sheet {
    cache: CellMap<i64>,
    text: CellMap<String>,
    meta: CellMap<(usize, usize)>,
}

fn sheet() -> Sheet {
    Sheet { cache: CellMap::new(), text: CellMap::new(), meta: CellMap::new() }
}

fn sorted_keys<V>(m: &CellMap<V>) -> Vec<String> {
    let mut k = m.keys();
    k.sort();
    k
}

#[test]
fn spill_writes_every_cell_and_records_shape() {
    let mut s = sheet();
    let rows = vec![vec![1, 2], vec![3, 4]];
    place_spill("B2", &rows, &set(&["B2"]), &mut s.cache, &mut s.text, &mut s.meta).unwrap();
    assert_eq!(s.cache.get("B2"), Some(&1));
    assert_eq!(s.cache.get("C2"), Some(&2));
    assert_eq!(s.cache.get("B3"), Some(&3));
    assert_eq!(s.cache.get("C3"), Some(&4));
    assert_eq!(s.meta.get("B2"), Some(&(2, 2)));
    assert_eq!(sorted_keys(&s.cache), vec!["B2", "B3", "C2", "C3"]);
}

#[test]
fn blocked_spill_changes_nothing() {
    let mut s = sheet();
    s.cache.insert("A1".to_string(), 9);
    s.text.insert("A3".to_string(), "x".to_string());
    let rows = vec![vec![1], vec![2], vec![3]];
    let r = place_spill("A1", &rows, &set(&["A1"]), &mut s.cache, &mut s.text, &mut s.meta);
    assert_eq!(r, Err(SpreadsheetError::Spill));
    assert_eq!(sorted_keys(&s.cache), vec!["A1"]);
    assert_eq!(s.cache.get("A1"), Some(&9));
    assert_eq!(s.cache.get("A2"), None);
    assert_eq!(s.text.get("A3"), Some(&"x".to_string()));
    assert!(s.meta.keys().is_empty());
}

#[test]
fn spill_blocked_by_a_sheet_cell() {
    let mut s = sheet();
    let rows = vec![vec![1, 2]];
    let r = place_spill("A1", &rows, &set(&["A1", "B1"]), &mut s.cache, &mut s.text, &mut s.meta);
    assert_eq!(r, Err(SpreadsheetError::Spill));
    assert!(s.cache.keys().is_empty());
}

#[test]
fn spill_off_the_grid_is_spill_error() {
    let mut s = sheet();
    let rows = vec![vec![1, 2]];
    let r = place_spill("XFD1048576", &rows, &set(&[]), &mut s.cache, &mut s.text, &mut s.meta);
    assert!(r.is_ok());
    let tall = vec![vec![1], vec![2]];
    let r = place_spill("A4294967295", &tall, &set(&[]), &mut s.cache, &mut s.text, &mut s.meta);
    assert_eq!(r, Err(SpreadsheetError::Spill));
    assert_eq!(s.cache.get("A4294967295"), None);
}

#[test]
fn ragged_or_empty_arrays_are_value_errors() {
    let mut s = sheet();
    let ragged = vec![vec![1, 2], vec![3]];
    assert_eq!(
        place_spill("A1", &ragged, &set(&[]), &mut s.cache, &mut s.text, &mut s.meta),
        Err(SpreadsheetError::Value)
    );
    let empty: Vec<Vec<i64>> = vec![];
    assert_eq!(
        place_spill("A1", &empty, &set(&[]), &mut s.cache, &mut s.text, &mut s.meta),
        Err(SpreadsheetError::Value)
    );
    assert!(s.cache.keys().is_empty());
}

#[test]
fn single_cell_array_is_a_plain_value() {
    let mut s = sheet();
    s.text.insert("A1".to_string(), "old".to_string());
    place_spill("A1", &vec![vec![7]], &set(&["A1"]), &mut s.cache, &mut s.text, &mut s.meta).unwrap();
    assert_eq!(s.cache.get("A1"), Some(&7));
    assert_eq!(s.text.get("A1"), None);
    assert!(s.meta.keys().is_empty());
}

#[test]
fn respill_reuses_and_clears_its_old_area() {
    let mut s = sheet();
    let occupied = set(&["A1"]);
    place_spill("A1", &vec![vec![1], vec![2], vec![3]], &occupied, &mut s.cache, &mut s.text, &mut s.meta)
        .unwrap();
    place_spill("A1", &vec![vec![5], vec![6]], &occupied, &mut s.cache, &mut s.text, &mut s.meta).unwrap();
    assert_eq!(s.cache.get("A1"), Some(&5));
    assert_eq!(s.cache.get("A2"), Some(&6));
    assert_eq!(s.cache.get("A3"), None);
    assert_eq!(s.meta.get("A1"), Some(&(2, 1)));
}

#[test]
fn number_and_text_results_clear_the_old_spill() {
    let mut s = sheet();
    let occupied = set(&["A1"]);
    place_spill("A1", &vec![vec![1, 2]], &occupied, &mut s.cache, &mut s.text, &mut s.meta).unwrap();
    place_value("A1", 4, &mut s.cache, &mut s.text, &mut s.meta);
    assert_eq!(sorted_keys(&s.cache), vec!["A1"]);
    assert!(s.meta.keys().is_empty());
    place_spill("A1", &vec![vec![1, 2]], &occupied, &mut s.cache, &mut s.text, &mut s.meta).unwrap();
    place_text("A1", "hi".to_string(), &mut s.cache, &mut s.text, &mut s.meta);
    assert!(s.cache.keys().is_empty());
    assert_eq!(s.text.get("A1"), Some(&"hi".to_string()));
}

#[test]
fn clear_spill_removes_only_the_spilled_cells() {
    let mut s = sheet();
    place_spill("B1", &vec![vec![1, 2]], &set(&["B1"]), &mut s.cache, &mut s.text, &mut s.meta).unwrap();
    s.cache.insert("A1".to_string(), 8);
    clear_spill("B1", &mut s.cache, &mut s.meta);
    assert_eq!(sorted_keys(&s.cache), vec!["A1", "B1"]);
    assert!(s.meta.keys().is_empty());
}

#[test]
fn ragged_rows_at_a_non_cell_anchor_write_the_first_entry() {
    let mut s = sheet();
    let ragged = vec![vec![1, 2], vec![3]];
    place_spill("total", &ragged, &set(&[]), &mut s.cache, &mut s.text, &mut s.meta).unwrap();
    assert_eq!(s.cache.get("total"), Some(&1));
    let tall_ragged = vec![vec![1], vec![2, 3]];
    assert_eq!(
        place_spill("A1", &tall_ragged, &set(&[]), &mut s.cache, &mut s.text, &mut s.meta),
        Err(SpreadsheetError::Value)
    );
}

#[test]
fn repeating_a_spill_changes_nothing() {
    let mut s = sheet();
    let occupied = set(&["B2"]);
    let rows = vec![vec![1, 2], vec![3, 4]];
    place_spill("B2", &rows, &occupied, &mut s.cache, &mut s.text, &mut s.meta).unwrap();
    let before = (sorted_keys(&s.cache), sorted_keys(&s.text), sorted_keys(&s.meta));
    place_spill("B2", &rows, &occupied, &mut s.cache, &mut s.text, &mut s.meta).unwrap();
    assert_eq!(before, (sorted_keys(&s.cache), sorted_keys(&s.text), sorted_keys(&s.meta)));
    assert_eq!(s.cache.get("C3"), Some(&4));
    assert_eq!(s.meta.get("B2"), Some(&(2, 2)));
}
