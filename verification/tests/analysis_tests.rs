use calc_spreadsheet::ast::{analyze_formula_refs, parse_formula};
use calc_spreadsheet::SpreadsheetError;

#[test]
fn extracts_cell_refs_but_not_functions_or_strings() {
    let refs = analyze_formula_refs("=SUM(A1, B2) + IF(C1 > 0, D1, \"A9\")").unwrap();
    assert!(refs.cells.contains("A1"));
    assert!(refs.cells.contains("B2"));
    assert!(refs.cells.contains("C1"));
    assert!(refs.cells.contains("D1"));
    assert!(!refs.cells.contains("SUM"));
    assert!(!refs.cells.contains("IF"));
    assert!(!refs.cells.contains("A9"));
}

#[test]
fn extract_expands_ranges() {
    let refs = analyze_formula_refs("=SUM(A1:A3)").unwrap();
    assert_eq!(refs.cells.len(), 3);
    assert!(refs.cells.contains("A2"));
    assert_eq!(refs.work, 3);
}

#[test]
fn let_bound_name_does_not_inflate_analyze_work() {
    // Binding token `n` in the calculation must not add work (parallel threshold).
    let with_let = analyze_formula_refs("=LET(n, A1, SEQUENCE(n)+A2)").unwrap();
    let equivalent = analyze_formula_refs("=SEQUENCE(A1)+A2").unwrap();
    assert_eq!(with_let.work, equivalent.work);
    assert!(with_let.cells == equivalent.cells);
}

// --- further cases -------------------------------------------------------

#[test]
fn repeated_reference_counts_work_each_time() {
    let refs = analyze_formula_refs("=A1+A1*2").unwrap();
    assert_eq!(refs.cells.len(), 1);
    assert_eq!(refs.work, 2);
}

#[test]
fn spill_reference_reads_its_anchor() {
    let refs = analyze_formula_refs("=SUM(B1#)").unwrap();
    assert!(refs.cells.contains("B1"));
    assert_eq!(refs.work, 1);
}

#[test]
fn let_binding_shadows_a_cell_name() {
    let refs = analyze_formula_refs("=LET(Z1, 2, SEQUENCE(Z1))").unwrap();
    assert_eq!(refs.cells.len(), 0);
    assert_eq!(refs.work, 0);
    // a later value sees earlier names; the value of a name is read
    let refs = analyze_formula_refs("=LET(x, B1, y, x+C1, y*2)").unwrap();
    assert!(refs.cells.contains("B1"));
    assert!(refs.cells.contains("C1"));
    assert!(!refs.cells.contains("x"));
    assert_eq!(refs.work, 2);
}

#[test]
fn cells_never_exceed_work() {
    let refs = analyze_formula_refs("=SUM(A1:B2)+A1+@C1:C2").unwrap();
    assert_eq!(refs.cells.len(), 6);
    assert_eq!(refs.work, 7);
}

#[test]
fn parse_errors() {
    match parse_formula("=1+") {
        Err(SpreadsheetError::InvalidFormula(text)) => assert_eq!(text, "1+"),
        other => panic!("unexpected {:?}", other),
    }
    match parse_formula("  =SUM(1,2))  ") {
        Err(SpreadsheetError::InvalidFormula(text)) => assert_eq!(text, "SUM(1,2))"),
        other => panic!("unexpected {:?}", other),
    }
    assert_eq!(parse_formula("=SUM(A1:ZZ9000)").unwrap_err(), SpreadsheetError::Num);
    assert!(matches!(parse_formula("=1.2.3"), Err(SpreadsheetError::InvalidFormula(_))));
    assert!(matches!(parse_formula("=1e"), Err(SpreadsheetError::InvalidFormula(_))));
    assert!(matches!(parse_formula("=\"open"), Err(SpreadsheetError::InvalidFormula(_))));
    match analyze_formula_refs("=(") {
        Err(e) => assert_eq!(e, SpreadsheetError::InvalidFormula("(".to_string())),
        Ok(_) => panic!("expected an error"),
    }
}

#[test]
fn parses_operators_and_calls() {
    assert!(parse_formula("=1+2*3>=4&\"x\"").is_ok());
    assert!(parse_formula("=-A1 <> +B2").is_ok());
    assert!(parse_formula("=IF(A1=1, 2, 3)").is_ok());
    assert!(parse_formula("=DATEDIF(A1, B1, \"Y\")").is_ok());
    assert!(parse_formula("=NOW()").is_ok());
    assert!(parse_formula("=.5e+3").is_ok());
    assert!(parse_formula("A1").is_ok());
}
