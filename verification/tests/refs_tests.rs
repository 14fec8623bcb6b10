use calc_spreadsheet::refs::{
    a1_range_cells, a1_range_size, canonical_cell_name, fold_a1_range, for_each_a1_range, format_a1, is_cell_name_char,
    is_cell_name_start, parse_a1, CellSet,
};
use std::cell::{Cell, RefCell};
use calc_spreadsheet::SpreadsheetError;

#[test]
fn parse_and_format_a1_round_trip() {
    assert_eq!(parse_a1("A1"), Some((1, 1)));
    assert_eq!(parse_a1("AA10"), Some((27, 10)));
    assert_eq!(format_a1(1, 1), "A1");
    assert_eq!(format_a1(27, 10), "AA10");
    assert_eq!(parse_a1("L0_0"), None);
}

#[test]
fn for_each_visits_without_full_vec_semantics() {
    let n = Cell::new(0usize);
    for_each_a1_range("A1", "A3", |_| {
        n.set(n.get() + 1);
        Ok(())
    })
    .unwrap();
    assert_eq!(n.get(), 3);
    assert_eq!(a1_range_size("A1", "A3").unwrap(), 3);
}

#[test]
fn rejects_oversized_ranges() {
    let err = a1_range_size("A1", "ZZ9000").unwrap_err();
    assert_eq!(err, SpreadsheetError::Num);
}

// --- further cases -------------------------------------------------------

#[test]
fn parse_a1_edges() {
    assert_eq!(parse_a1("a1"), Some((1, 1)));
    assert_eq!(parse_a1("Z9"), Some((26, 9)));
    assert_eq!(parse_a1("AZ1"), Some((52, 1)));
    assert_eq!(parse_a1("A0"), None);
    assert_eq!(parse_a1("A01"), None);
    assert_eq!(parse_a1("1A"), None);
    assert_eq!(parse_a1("A"), None);
    assert_eq!(parse_a1(""), None);
    assert_eq!(parse_a1("SUM"), None);
}

#[test]
fn format_a1_column_letters() {
    assert_eq!(format_a1(26, 3), "Z3");
    assert_eq!(format_a1(52, 1), "AZ1");
    assert_eq!(format_a1(702, 7), "ZZ7");
    assert_eq!(format_a1(703, 7), "AAA7");
}

#[test]
fn canonical_names_upper_case_a1_only() {
    assert_eq!(canonical_cell_name("ab12"), "AB12");
    assert_eq!(canonical_cell_name("total"), "total");
}

#[test]
fn cell_name_characters() {
    assert!(is_cell_name_start('a'));
    assert!(is_cell_name_start('_'));
    assert!(!is_cell_name_start('1'));
    assert!(is_cell_name_char('1'));
    assert!(!is_cell_name_char('-'));
}

#[test]
fn range_cells_go_column_by_column_from_the_smaller_corner() {
    let cells = a1_range_cells("B2", "A1").unwrap();
    assert_eq!(cells, vec!["A1", "A2", "B1", "B2"]);
    assert_eq!(a1_range_size("B2", "A1").unwrap(), 4);
    assert_eq!(a1_range_size("A1", "foo").unwrap_err(), SpreadsheetError::Value);
    assert_eq!(a1_range_cells("A1", "ZZ9000").unwrap_err(), SpreadsheetError::Num);
}

#[test]
fn cell_set_keeps_each_name_once() {
    let mut set = CellSet::new();
    set.insert("A1".to_string());
    set.insert("B2".to_string());
    set.insert("A1".to_string());
    assert_eq!(set.len(), 2);
    assert!(set.contains("A1"));
    assert!(!set.contains("C3"));
    assert_eq!(set.names(), &vec!["A1".to_string(), "B2".to_string()]);
    let mut other = CellSet::new();
    other.insert("B2".to_string());
    other.insert("A1".to_string());
    assert!(set == other);
    other.insert("C3".to_string());
    assert!(set != other);
}

#[test]
fn range_names_are_as_many_as_the_size_column_by_column() {
    let cells = a1_range_cells("B3", "A1").unwrap();
    assert_eq!(cells.len(), a1_range_size("B3", "A1").unwrap());
    assert_eq!(cells, vec!["A1", "A2", "A3", "B1", "B2", "B3"]);
    assert_eq!(a1_range_cells("A1", "1A"), Err(SpreadsheetError::Value));
    assert_eq!(a1_range_size("A1", "1A"), Err(SpreadsheetError::Value));
}

#[test]
fn range_visitor_goes_column_by_column_and_stops_at_the_first_error() {
    let seen = RefCell::new(Vec::new());
    let r = for_each_a1_range("B2", "A1", |name| {
        seen.borrow_mut().push(name.clone());
        if name == "B1" {
            Err(SpreadsheetError::Calc)
        } else {
            Ok(())
        }
    });
    assert_eq!(r, Err(SpreadsheetError::Calc));
    assert_eq!(*seen.borrow(), vec!["A1", "A2", "B1"]);
    let calls = Cell::new(0usize);
    let r = for_each_a1_range("A1", "ZZ9000", |_| {
        calls.set(calls.get() + 1);
        Ok(())
    });
    assert_eq!(r, Err(SpreadsheetError::Num));
    assert_eq!(calls.get(), 0);
}

#[test]
fn range_fold_visits_each_cell_once_in_column_order() {
    let seen = fold_a1_range("A1", "B2", Vec::new(), |mut v: Vec<String>, name| {
        v.push(name);
        Ok(v)
    });
    assert_eq!(seen, Ok(vec!["A1".to_string(), "A2".to_string(), "B1".to_string(), "B2".to_string()]));
    assert_eq!(fold_a1_range("A1", "A3", 0usize, |n, _| Ok(n + 1)), Ok(3));
    let stopped = fold_a1_range("A1", "A3", 0usize, |n, name| {
        if name == "A2" {
            Err(SpreadsheetError::Calc)
        } else {
            Ok(n + 1)
        }
    });
    assert_eq!(stopped, Err(SpreadsheetError::Calc));
    assert_eq!(fold_a1_range("A1", "ZZ9000", 0usize, |n, _| Ok(n + 1)), Err(SpreadsheetError::Num));
}
