use calc_spreadsheet::dynamic_array::{
    as_value, filter_array, filter_axis, filter_matrix, kept_indices, matrix_shape, select_rows, sequence_shape,
    sort_args, sort_order, transpose, unique_array, unique_rows, ArrayValue, FilterAxis, Filtered,
};
use calc_spreadsheet::SpreadsheetError;

#[test]
fn filter_rows_keeps_truthy() {
    let array = vec![vec![10.0], vec![20.0], vec![30.0]];
    let criteria = vec![vec![true], vec![false], vec![true]];
    let v = filter_matrix(&array, &criteria).unwrap();
    assert_eq!(v, vec![vec![10.0], vec![30.0]]);
}

#[test]
fn filter_columns_and_shape_errors() {
    let array = vec![vec![1, 2, 3], vec![4, 5, 6]];
    let criteria = vec![vec![true, false, true]];
    assert_eq!(filter_matrix(&array, &criteria).unwrap(), vec![vec![1, 3], vec![4, 6]]);
    let none = vec![vec![false, false, false]];
    assert!(filter_matrix(&array, &none).unwrap().is_empty());
    let bad = vec![vec![true, false]];
    assert_eq!(filter_matrix(&array, &bad).unwrap_err(), SpreadsheetError::Value);
    assert_eq!(filter_axis(3, 1, 3, 1).unwrap(), FilterAxis::Rows);
    assert_eq!(filter_axis(1, 3, 1, 3).unwrap(), FilterAxis::Columns);
    assert_eq!(filter_axis(1, 1, 1, 1).unwrap(), FilterAxis::Rows);
    assert_eq!(filter_axis(2, 2, 2, 2).unwrap_err(), SpreadsheetError::Value);
    assert_eq!(filter_axis(2, 3, 1, 3).unwrap(), FilterAxis::Columns);
}

#[test]
fn transpose_swaps_rows_and_columns() {
    let m = vec![vec![1, 2, 3], vec![4, 5, 6]];
    assert_eq!(transpose(m).unwrap(), vec![vec![1, 4], vec![2, 5], vec![3, 6]]);
    let empty: Vec<Vec<i32>> = vec![];
    assert!(transpose(empty).unwrap().is_empty());
    assert_eq!(transpose(vec![vec![1], vec![2, 3]]).unwrap_err(), SpreadsheetError::Value);
    assert_eq!(transpose(vec![Vec::<i32>::new()]).unwrap_err(), SpreadsheetError::Value);
}

#[test]
fn unique_keeps_first_occurrences_or_singletons() {
    let keys = vec![vec![1u64], vec![2], vec![1], vec![3], vec![2]];
    assert_eq!(unique_rows(&keys, false), vec![0, 1, 3]);
    assert_eq!(unique_rows(&keys, true), vec![3]);
    let wide = vec![vec![1u64, 2], vec![1, 3], vec![1, 2]];
    assert_eq!(unique_rows(&wide, false), vec![0, 1]);
    assert_eq!(unique_rows(&wide, true), vec![1]);
}

#[test]
fn sort_is_stable_in_both_directions() {
    let keys = vec![3i64, 1, 2, 1, i64::MIN, i64::MAX];
    assert_eq!(sort_order(&keys, true), vec![4, 1, 3, 2, 0, 5]);
    assert_eq!(sort_order(&keys, false), vec![5, 0, 2, 1, 3, 4]);
    assert!(sort_order(&vec![], true).is_empty());
}

#[test]
fn sort_argument_checks() {
    assert_eq!(sort_args(3, 2, 1, 1, false).unwrap(), (0, true));
    assert_eq!(sort_args(3, 2, 2, -1, false).unwrap(), (1, false));
    assert_eq!(sort_args(3, 2, 3, 1, true).unwrap(), (2, true));
    assert_eq!(sort_args(3, 2, 3, 1, false).unwrap_err(), SpreadsheetError::Value);
    assert_eq!(sort_args(3, 2, 0, 1, false).unwrap_err(), SpreadsheetError::Value);
    assert_eq!(sort_args(3, 2, 1, 0, false).unwrap_err(), SpreadsheetError::Value);
    assert_eq!(sort_args(0, 0, 1, 1, false).unwrap_err(), SpreadsheetError::Calc);
}

#[test]
fn shapes_of_results() {
    assert_eq!(matrix_shape(&vec![vec![1, 2], vec![3, 4]]).unwrap(), (2, 2));
    assert_eq!(matrix_shape::<i32>(&vec![]).unwrap_err(), SpreadsheetError::Calc);
    assert_eq!(matrix_shape(&vec![Vec::<i32>::new()]).unwrap_err(), SpreadsheetError::Calc);
    assert_eq!(matrix_shape(&vec![vec![1], vec![2, 3]]).unwrap_err(), SpreadsheetError::Value);
    assert_eq!(sequence_shape(2, 3).unwrap(), (2, 3));
    assert_eq!(sequence_shape(0, 3).unwrap_err(), SpreadsheetError::Calc);
    assert_eq!(sequence_shape(3, -1).unwrap_err(), SpreadsheetError::Calc);
    assert_eq!(sequence_shape(100_000, 1).unwrap(), (100_000, 1));
    assert_eq!(sequence_shape(100_001, 1).unwrap_err(), SpreadsheetError::Num);
    assert_eq!(sequence_shape(1000, 1000).unwrap_err(), SpreadsheetError::Num);
}

#[test]
fn selecting_rows_and_flags() {
    let rows = vec![vec![1, 1], vec![2, 2], vec![3, 3]];
    assert_eq!(select_rows(&rows, &vec![2, 0]), vec![vec![3, 3], vec![1, 1]]);
    assert_eq!(kept_indices(&vec![false, true, true, false]), vec![1, 2]);
}

#[test]
fn single_cell_matrix_is_its_number() {
    assert!(matches!(as_value(vec![vec![4.0]]), Ok(ArrayValue::Single(x)) if x == 4.0));
    assert!(matches!(as_value(vec![vec![1.0, 2.0]]), Ok(ArrayValue::Many(m)) if m == vec![vec![1.0, 2.0]]));
    assert!(matches!(as_value::<f64>(vec![]), Err(SpreadsheetError::Calc)));
    assert!(matches!(as_value(vec![vec![1.0, 2.0], vec![3.0]]), Err(SpreadsheetError::Value)));
}

#[test]
fn filter_with_nothing_kept_gives_if_empty_or_calc() {
    let array = vec![vec![1.0], vec![2.0]];
    let none = vec![vec![false], vec![false]];
    assert!(matches!(filter_array(&array, &none, Some("empty")), Ok(Filtered::IfEmpty("empty"))));
    assert!(matches!(filter_array::<f64, &str>(&array, &none, None), Err(SpreadsheetError::Calc)));
    let one = vec![vec![false], vec![true]];
    assert!(matches!(filter_array::<f64, &str>(&array, &one, None), Ok(Filtered::Kept(ArrayValue::Single(x))) if x == 2.0));
    let both = vec![vec![true], vec![true]];
    assert!(matches!(filter_array::<f64, &str>(&array, &both, None), Ok(Filtered::Kept(ArrayValue::Many(m))) if m == array));
    let wrong = vec![vec![true, true, true]];
    assert!(matches!(filter_array::<f64, &str>(&array, &wrong, None), Err(SpreadsheetError::Value)));
}

#[test]
fn unique_with_no_single_row_is_calc() {
    let rows = vec![vec![1.0], vec![1.0]];
    let keys = vec![vec![1u64], vec![1u64]];
    assert_eq!(unique_array(&rows, &keys, true), Err(SpreadsheetError::Calc));
    assert_eq!(unique_array(&rows, &keys, false), Ok(vec![vec![1.0]]));
    let rows = vec![vec![1.0], vec![2.0], vec![1.0]];
    let keys = vec![vec![1u64], vec![2u64], vec![1u64]];
    assert_eq!(unique_array(&rows, &keys, true), Ok(vec![vec![2.0]]));
}
