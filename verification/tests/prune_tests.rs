use calc_spreadsheet::ast::{parse_formula, Expr};
use calc_spreadsheet::prune::{prune_arms, spill_shape};
use calc_spreadsheet::refs::CellMap;
use calc_spreadsheet::SpreadsheetError;

fn number(e: &Expr) -> Option<f64> {
    match e {
        Expr::Number(t) => t.parse::<f64>().ok(),
        _ => None,
    }
}

fn truth(e: &Expr) -> Option<bool> {
    number(e).map(|v| v != 0.0)
}

fn same(a: &Expr, b: &Expr) -> Option<bool> {
    match (number(a), number(b)) {
        (Some(x), Some(y)) => Some(x == y),
        _ => None,
    }
}

fn pruned(text: &str) -> Expr {
    prune_arms(&parse_formula(text).unwrap(), truth, same)
}

fn f(text: &str) -> Expr {
    parse_formula(text).unwrap()
}

#[test]
fn known_if_condition_keeps_the_taken_arm() {
    assert_eq!(pruned("=IF(1, B1, SEQUENCE(2))"), f("=B1"));
    assert_eq!(pruned("=IF(0, B1, C1)"), f("=C1"));
    assert_eq!(pruned("=IF(X1, B1, C1)"), f("=IF(X1, B1, C1)"));
    assert_eq!(pruned("=1 + IF(0, A1, IF(1, B1, C1))"), f("=1 + B1"));
}

#[test]
fn ifs_drops_false_pairs_and_stops_at_the_first_true() {
    assert_eq!(pruned("=IFS(0, A1, 1, B1, X1, C1)"), f("=B1"));
    assert_eq!(pruned("=IFS(0, A1, X1, B1, 1, C1, D1, E1)"), f("=IFS(X1, B1, 1, C1)"));
    assert_eq!(pruned("=IFS(X1, A1, Y1, B1)"), f("=IFS(X1, A1, Y1, B1)"));
    assert_eq!(pruned("=IFS(0, A1, 0, B1)"), f("=IFS(0, A1, 0, B1)"));
}

#[test]
fn switch_takes_the_first_case_known_equal() {
    assert_eq!(pruned("=SWITCH(2, 1, A1, 2, B1, C1)"), f("=B1"));
    assert_eq!(pruned("=SWITCH(3, 1, A1, 2, B1, C1)"), f("=C1"));
    assert_eq!(pruned("=SWITCH(3, 1, A1, 2, B1)"), f("=SWITCH(3, 1, A1, 2, B1)"));
    assert_eq!(pruned("=SWITCH(X1, 1, A1, C1)"), f("=SWITCH(X1, 1, A1, C1)"));
    assert_eq!(pruned("=SWITCH(1, X1, A1, 1, B1)"), f("=SWITCH(1, X1, A1, 1, B1)"));
}

fn sequence_size(e: &Expr) -> Option<(usize, usize)> {
    match e {
        Expr::Call { args, .. } => args.first().and_then(number).map(|n| (n as usize, 1)),
        _ => None,
    }
}

fn sheet(cells: &[(&str, &str)]) -> CellMap<Expr> {
    let mut m = CellMap::new();
    for (name, text) in cells {
        m.insert(name.to_string(), f(text));
    }
    m
}

#[test]
fn shapes_of_ranges_spill_references_and_branches() {
    let asts = sheet(&[("A1", "=SEQUENCE(4)")]);
    assert_eq!(spill_shape(&f("=FILTER(A1:B3, C1:C3)"), &asts, sequence_size, 0), Ok(Some((3, 2))));
    assert_eq!(spill_shape(&f("=UNIQUE(A1#)"), &asts, sequence_size, 0), Ok(Some((4, 1))));
    assert_eq!(spill_shape(&f("=SORT(B7#)"), &asts, sequence_size, 0), Ok(None));
    assert_eq!(spill_shape(&f("=SORT(A1:A1)"), &asts, sequence_size, 0), Ok(None));
    assert_eq!(spill_shape(&f("=IF(X1, SEQUENCE(2), FILTER(A1:C1, A2:C2))"), &asts, sequence_size, 0), Ok(Some((2, 3))));
    assert_eq!(spill_shape(&f("=IF(SEQUENCE(5), 1, 2)"), &asts, sequence_size, 0), Ok(None));
    assert_eq!(spill_shape(&f("=LET(x, 1, SEQUENCE(3))"), &asts, sequence_size, 0), Ok(Some((3, 1))));
    assert_eq!(spill_shape(&f("=-SEQUENCE(2) * 3"), &asts, sequence_size, 0), Ok(Some((2, 1))));
    assert_eq!(spill_shape(&f("=SUM(SEQUENCE(2))"), &asts, sequence_size, 0), Ok(None));
    assert_eq!(spill_shape(&f("=SEQUENCE(2)"), &asts, sequence_size, 65), Ok(None));
}

#[test]
fn bad_ranges_in_array_arguments_are_errors() {
    let asts = sheet(&[]);
    let big = Expr::Call {
        name: "FILTER".to_string(),
        args: vec![Expr::Range { start: "A1".to_string(), end: "ZZ9000".to_string() }],
    };
    assert_eq!(spill_shape(&big, &asts, sequence_size, 0), Err(SpreadsheetError::Num));
    let bad = Expr::Call {
        name: "sort".to_string(),
        args: vec![Expr::Range { start: "A1".to_string(), end: "x".to_string() }],
    };
    assert_eq!(spill_shape(&bad, &asts, sequence_size, 0), Err(SpreadsheetError::Value));
}
