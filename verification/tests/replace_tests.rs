use calc_spreadsheet::replace::{
    ignored_replacement_keys, is_valid_placeholder_key, prepare_cell, prepare_cells, Replacements,
};
use calc_spreadsheet::ReplacementValue;

fn map(pairs: &[(&str, ReplacementValue)]) -> Replacements {
    let mut m = Replacements::new();
    for (k, v) in pairs {
        m.insert((*k).to_string(), v.clone());
    }
    m
}

#[test]
fn replaces_dunder_uppercase_key() {
    let replacements = map(&[("__NAME__", ReplacementValue::from_text("Alice"))]);
    assert_eq!(prepare_cell("__NAME__", &replacements), "\"Alice\"");
}

#[test]
fn does_not_replace_plain_text() {
    let replacements = map(&[("__NAME__", ReplacementValue::from_text("Alice"))]);
    assert_eq!(prepare_cell("NAME", &replacements), "\"NAME\"");
}

#[test]
fn skips_lowercase_placeholder() {
    let replacements = map(&[("__NAME__", ReplacementValue::from_text("Alice"))]);
    assert_eq!(prepare_cell("__name__", &replacements), "\"__name__\"");
}

#[test]
fn skips_single_underscore_wrap() {
    let replacements = map(&[("__NAME__", ReplacementValue::from_text("Alice"))]);
    assert_eq!(prepare_cell("_NAME_", &replacements), "\"_NAME_\"");
}

#[test]
fn skips_unknown_key() {
    let replacements = map(&[("__NAME__", ReplacementValue::from_text("Alice"))]);
    assert_eq!(prepare_cell("__UNKNOWN__", &replacements), "\"__UNKNOWN__\"");
}

#[test]
fn unknown_in_formula_is_left_as_identifier() {
    let replacements = Replacements::new();
    assert_eq!(prepare_cell("=__MISS__*2", &replacements), "=__MISS__*2");
}

#[test]
fn does_not_partial_match_namespace() {
    let replacements = map(&[("__NAME__", ReplacementValue::from_text("Alice"))]);
    assert_eq!(prepare_cell("__NAMESPACE__", &replacements), "\"__NAMESPACE__\"");
}

#[test]
fn ignores_invalid_map_keys() {
    let mut raw = Replacements::new();
    raw.insert("NAME".into(), ReplacementValue::from_text("Alice"));
    raw.insert("__name__".into(), ReplacementValue::from_text("nope"));
    raw.insert("_NAME_".into(), ReplacementValue::from_text("x"));
    raw.insert("[NAME]".into(), ReplacementValue::from_text("old"));
    raw.insert("__USER_NAME__".into(), ReplacementValue::from_text("x"));
    raw.insert("__OK__".into(), ReplacementValue::from_i64(1));
    assert_eq!(
        ignored_replacement_keys(&raw),
        vec![
            "NAME".to_string(),
            "[NAME]".to_string(),
            "_NAME_".to_string(),
            "__USER_NAME__".to_string(),
            "__name__".to_string(),
        ]
    );
    assert_eq!(prepare_cell("__OK__", &raw), "1");
    assert_eq!(prepare_cell("__name__", &raw), "\"__name__\"");
}

#[test]
fn inserts_number_in_formula() {
    let replacements = map(&[("__RATE__", ReplacementValue::from_i64(10))]);
    assert_eq!(prepare_cell("=__RATE__*2", &replacements), "=10*2");
}

#[test]
fn inserts_quoted_string_in_formula() {
    let replacements = map(&[("__NAME__", ReplacementValue::from_text("Alice"))]);
    assert_eq!(prepare_cell("=\"Hi \"&__NAME__", &replacements), "=\"Hi \"&\"Alice\"");
}

#[test]
fn numeric_whole_cell_stays_unquoted() {
    let replacements = map(&[("__RATE__", ReplacementValue::from_i64(10))]);
    assert_eq!(prepare_cell("__RATE__", &replacements), "10");
}

#[test]
fn formula_like_replacement_is_text() {
    let replacements = map(&[("__NAME__", ReplacementValue::from_text("=SUM(1)"))]);
    assert_eq!(prepare_cell("__NAME__", &replacements), "\"=SUM(1)\"");
}

#[test]
fn replacement_value_placeholders_are_not_rescanned() {
    let replacements = map(&[
        ("__NAME__", ReplacementValue::from_text("__RATE__")),
        ("__RATE__", ReplacementValue::from_i64(10)),
    ]);
    assert_eq!(prepare_cell("__NAME__", &replacements), "\"__RATE__\"");
}

#[test]
fn a1_cell_ref_is_not_a_placeholder() {
    let replacements = map(&[("__A1__", ReplacementValue::from_i64(9))]);
    assert_eq!(prepare_cell("=A1+1", &replacements), "=A1+1");
    assert_eq!(prepare_cell("=__A1__+1", &replacements), "=9+1");
}

#[test]
fn already_quoted_text_is_kept() {
    let replacements = Replacements::new();
    assert_eq!(prepare_cell("\"keep\"", &replacements), "\"keep\"");
}

#[test]
fn escapes_quotes_in_text() {
    let replacements = map(&[("__Q__", ReplacementValue::from_text("a\"b"))]);
    assert_eq!(prepare_cell("__Q__", &replacements), "\"a\"\"b\"");
}

#[test]
fn does_not_replace_inside_excel_string_literal() {
    let replacements = map(&[("__NAME__", ReplacementValue::from_text("Alice"))]);
    assert_eq!(prepare_cell("=\"Hi __NAME__\"", &replacements), "=\"Hi __NAME__\"");
    assert_eq!(prepare_cell("=\"Hi \"&__NAME__", &replacements), "=\"Hi \"&\"Alice\"");
    assert_eq!(
        prepare_cell("=\"a\"\"__NAME__\"\"b\"&__NAME__", &replacements),
        "=\"a\"\"__NAME__\"\"b\"&\"Alice\""
    );
}

#[test]
fn leading_whitespace_formula_is_still_formula() {
    let replacements = map(&[("__RATE__", ReplacementValue::from_i64(10))]);
    assert_eq!(prepare_cell(" =__RATE__*2", &replacements), " =10*2");
}

#[test]
fn multiple_placeholders_in_one_formula() {
    let replacements = map(&[
        ("__A__", ReplacementValue::from_i64(2)),
        ("__B__", ReplacementValue::from_i64(3)),
    ]);
    assert_eq!(prepare_cell("=__A__+__B__", &replacements), "=2+3");
}

#[test]
fn adjacent_placeholders_without_separator() {
    // Adjacent text inserts become one Excel string with an embedded quote
    // (`="X""Y"` is X"Y), not a concatenation.
    let replacements = map(&[
        ("__A__", ReplacementValue::from_text("X")),
        ("__B__", ReplacementValue::from_text("Y")),
    ]);
    assert_eq!(prepare_cell("=__A____B__", &replacements), "=\"X\"\"Y\"");
}

#[test]
fn keeps_escaped_excel_string_literal_cell() {
    let replacements = Replacements::new();
    assert_eq!(prepare_cell("\"a\"\"b\"", &replacements), "\"a\"\"b\"");
}

#[test]
fn unclosed_quote_is_wrapped_as_bare_text() {
    let replacements = Replacements::new();
    assert_eq!(prepare_cell("\"open", &replacements), "\"\"\"open\"");
}

#[test]
fn prepare_cells_drops_invalid_keys_and_prepares_all() {
    let mut replacements = Replacements::new();
    replacements.insert("__OK__".into(), ReplacementValue::from_i64(5));
    replacements.insert("bad".into(), ReplacementValue::from_i64(9));
    let prepared = prepare_cells(&[("A1", "=__OK__"), ("B1", "hi")], &replacements);
    assert_eq!(prepared.cells[0], ("A1".into(), "=5".into()));
    assert_eq!(prepared.cells[1], ("B1".into(), "\"hi\"".into()));
    assert_eq!(prepared.ignored_replacement_keys, vec!["bad".to_string()]);
}

#[test]
fn is_valid_placeholder_key_edges() {
    assert!(is_valid_placeholder_key("__A__"));
    assert!(is_valid_placeholder_key("__A1__"));
    assert!(!is_valid_placeholder_key("____"));
    assert!(!is_valid_placeholder_key("__"));
    assert!(!is_valid_placeholder_key("__a__"));
}

// --- further cases -------------------------------------------------------

#[test]
fn negative_number_is_inserted_as_literal() {
    let replacements = map(&[("__N__", ReplacementValue::from_i64(-42))]);
    assert_eq!(prepare_cell("=__N__+1", &replacements), "=-42+1");
    assert_eq!(prepare_cell("__N__", &replacements), "-42");
}

#[test]
fn formatted_number_is_inserted_unquoted() {
    let replacements = map(&[("__N__", ReplacementValue::from_formatted_number("1.5"))]);
    assert_eq!(prepare_cell("__N__", &replacements), "1.5");
    assert_eq!(ReplacementValue::from_formatted_number("10"), ReplacementValue::from_i64(10));
}

#[test]
fn later_insert_replaces_earlier_value() {
    let mut replacements = Replacements::new();
    replacements.insert("__K__".into(), ReplacementValue::from_i64(1));
    replacements.insert("__K__".into(), ReplacementValue::from_i64(2));
    assert_eq!(prepare_cell("=__K__", &replacements), "=2");
    assert!(ignored_replacement_keys(&replacements).is_empty());
}

#[test]
fn text_without_placeholders_is_unchanged_apart_from_quoting() {
    let replacements = Replacements::new();
    assert_eq!(prepare_cell("12.5", &replacements), "12.5");
    assert_eq!(prepare_cell("hello", &replacements), "\"hello\"");
}

#[test]
fn integer_placeholders_insert_their_decimal_literal() {
    let r = map(&[("__K__", ReplacementValue::from_i64(-42))]);
    assert_eq!(prepare_cell("=__K__", &r), "=-42");
    assert_eq!(prepare_cell("__K__", &r), "-42");
    let r = map(&[("__K__", ReplacementValue::from_i64(i64::MAX))]);
    assert_eq!(prepare_cell("=__K__", &r), format!("={}", i64::MAX));
}

#[test]
fn text_placeholders_read_back_as_the_same_text() {
    use_text_round_trip("say \"hi\"");
    use_text_round_trip("");
}

fn use_text_round_trip(s: &str) {
    let r = map(&[("__K__", ReplacementValue::from_text(s))]);
    let prepared = prepare_cell("=__K__", &r);
    assert_eq!(prepared, format!("=\"{}\"", s.replace('"', "\"\"")));
    assert_eq!(
        calc_spreadsheet::parser::parse_standalone_string_literal(&prepared),
        Some(s.to_string())
    );
}

#[test]
fn invalid_keys_never_change_a_prepared_cell() {
    let a = map(&[("__OK__", ReplacementValue::from_i64(1))]);
    let b = map(&[("__OK__", ReplacementValue::from_i64(1)), ("bad", ReplacementValue::from_i64(9)), ("__x__", ReplacementValue::from_text("y"))]);
    for text in ["=__OK__ + 1", "__OK__", "bad", "=\"__OK__\"", "__x__"] {
        assert_eq!(prepare_cell(text, &a), prepare_cell(text, &b));
    }
}

#[test]
fn prepared_ignored_keys_are_the_ignored_key_list() {
    let r = map(&[
        ("zeta", ReplacementValue::from_i64(1)),
        ("__OK__", ReplacementValue::from_i64(2)),
        ("alpha", ReplacementValue::from_text("x")),
        ("__b__", ReplacementValue::from_i64(3)),
    ]);
    let prepared = prepare_cells(&[("A1", "=__OK__")], &r);
    assert_eq!(prepared.ignored_replacement_keys, ignored_replacement_keys(&r));
    assert_eq!(prepared.ignored_replacement_keys, vec!["__b__", "alpha", "zeta"]);
}
