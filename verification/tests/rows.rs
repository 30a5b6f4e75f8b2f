use csv2json::document::type_row;
use csv2json::rows::{
    columns_to_booleans, columns_to_numbers, is_listed, row_to_values, ConversionError,
};
use csv2json::value::{Number, Value};

fn text(s: &str) -> Value {
    Value::String(s.to_string())
}

fn names(list: &[&str]) -> Vec<String> {
    list.iter().map(|s| s.to_string()).collect()
}

fn row(cells: &[(&str, &str)]) -> Vec<(String, String)> {
    cells.iter().map(|(k, v)| (k.to_string(), v.to_string())).collect()
}

fn floats(cells: &[(&str, &str)]) -> Vec<Option<u64>> {
    cells.iter().map(|(_, v)| v.parse::<f64>().ok().map(f64::to_bits)).collect()
}

fn keyed(cells: Vec<(&str, Value)>) -> Vec<(String, Value)> {
    cells.into_iter().map(|(k, v)| (k.to_string(), v)).collect()
}

#[test]
fn every_cell_of_a_raw_row_becomes_a_string() {
    assert_eq!(
        row_to_values(&row(&[("a", "1"), ("b", ""), ("c", "x y")])),
        keyed(vec![("a", text("1")), ("b", text("")), ("c", text("x y"))])
    );
    assert_eq!(row_to_values(&row(&[])), keyed(vec![]));
}

#[test]
fn cells_of_boolean_columns_become_booleans() {
    let typed = columns_to_booleans(
        &names(&["flag", "other", "missing"]),
        keyed(vec![
            ("name", text("false")),
            ("flag", text("False")),
            ("other", text("yes")),
        ]),
    );
    assert_eq!(
        typed,
        keyed(vec![
            ("name", text("false")),
            ("flag", Value::Bool(false)),
            ("other", Value::Bool(true)),
        ])
    );
}

#[test]
fn cells_of_numeric_columns_become_numbers() {
    let cells = [("id", "7"), ("name", "8"), ("delta", "-2"), ("ratio", "0.25"), ("none", "")];
    let typed = columns_to_numbers(
        &names(&["id", "delta", "ratio", "none"]),
        row_to_values(&row(&cells)),
        &floats(&cells),
    );
    assert_eq!(
        typed,
        Ok(keyed(vec![
            ("id", Value::Number(Number::PosInt(7))),
            ("name", text("8")),
            ("delta", Value::Number(Number::NegInt(-2))),
            ("ratio", Value::Number(Number::Float(0.25f64.to_bits()))),
            ("none", Value::Number(Number::PosInt(0))),
        ]))
    );
}

#[test]
fn the_first_cell_that_is_not_numeric_is_named() {
    let cells = [("a", "1"), ("b", "x"), ("c", "y")];
    let typed = columns_to_numbers(
        &names(&["c", "b", "a"]),
        row_to_values(&row(&cells)),
        &floats(&cells),
    );
    assert_eq!(
        typed,
        Err(ConversionError { column: "b".to_string(), text: "x".to_string() })
    );
}

#[test]
fn a_cell_outside_the_numeric_columns_may_hold_any_text() {
    let cells = [("a", "1"), ("b", "x")];
    let typed = columns_to_numbers(&names(&["a"]), row_to_values(&row(&cells)), &floats(&cells));
    assert_eq!(
        typed,
        Ok(keyed(vec![("a", Value::Number(Number::PosInt(1))), ("b", text("x"))]))
    );
}

#[test]
fn float_readings_that_are_missing_count_as_none() {
    let cells = [("a", "1"), ("b", "2.5")];
    let typed = columns_to_numbers(&names(&["a", "b"]), row_to_values(&row(&cells)), &[None]);
    assert_eq!(
        typed,
        Err(ConversionError { column: "b".to_string(), text: "2.5".to_string() })
    );
}

#[test]
fn a_row_is_typed_numbers_first_then_booleans() {
    let cells = [("n", "0.0"), ("b", "0.0"), ("both", "0.0"), ("text", "0.0")];
    let typed = type_row(
        &row(&cells),
        &floats(&cells),
        &names(&["n", "both"]),
        &names(&["b", "both"]),
    );
    assert_eq!(
        typed,
        Ok(keyed(vec![
            ("n", Value::Number(Number::Float(0.0f64.to_bits()))),
            ("b", Value::Bool(true)),
            ("both", Value::Bool(false)),
            ("text", text("0.0")),
        ]))
    );
}

#[test]
fn typing_a_row_fails_on_a_text_in_a_numeric_column() {
    let cells = [("n", "12"), ("m", "twelve")];
    let typed = type_row(&row(&cells), &floats(&cells), &names(&["n", "m"]), &names(&["m"]));
    assert_eq!(
        typed,
        Err(ConversionError { column: "m".to_string(), text: "twelve".to_string() })
    );
}

#[test]
fn names_are_looked_up_as_they_are_written() {
    let list = names(&["a", "B", ""]);
    assert!(is_listed(&list, &"a".to_string()));
    assert!(is_listed(&list, &"".to_string()));
    assert!(!is_listed(&list, &"b".to_string()));
    assert!(!is_listed(&[], &"a".to_string()));
}

#[test]
fn a_conversion_error_names_column_and_text() {
    let e = ConversionError { column: "price".to_string(), text: "n/a".to_string() };
    assert_eq!(
        e.message(),
        "Could not calculate numeric value of column price: not a number: n/a"
    );
}
