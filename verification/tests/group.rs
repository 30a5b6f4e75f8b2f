use csv2json::group::group_numeric_arrays;
use csv2json::value::{Number, Value};

fn text(s: &str) -> Value {
    Value::String(s.to_string())
}

fn object(entries: Vec<(&str, Value)>) -> Value {
    Value::Object(entries.into_iter().map(|(k, v)| (k.to_string(), v)).collect())
}

#[test]
fn an_object_with_index_keys_becomes_an_array() {
    let value = object(vec![("0", text("a")), ("1", text("b"))]);
    assert_eq!(group_numeric_arrays(value), Value::Array(vec![text("a"), text("b")]));
}

#[test]
fn the_values_keep_the_order_of_the_entries() {
    let value = object(vec![("10", text("c")), ("2", text("b")), ("1", text("a"))]);
    assert_eq!(
        group_numeric_arrays(value),
        Value::Array(vec![text("c"), text("b"), text("a")])
    );
}

#[test]
fn one_key_that_is_no_index_keeps_the_object() {
    let value = object(vec![("0", text("a")), ("x", text("b"))]);
    assert_eq!(
        group_numeric_arrays(value),
        object(vec![("0", text("a")), ("x", text("b"))])
    );
}

#[test]
fn what_counts_as_an_index() {
    for key in ["0", "7", "007", "+3", "18446744073709551615"] {
        let value = object(vec![(key, Value::Null)]);
        assert_eq!(group_numeric_arrays(value), Value::Array(vec![Value::Null]), "key {:?}", key);
    }
    for key in ["", "-1", "-0", "1.0", "1e3", " 1", "1 ", "one", "18446744073709551616", "+", "٣"] {
        let value = object(vec![(key, Value::Null)]);
        assert_eq!(group_numeric_arrays(value), object(vec![(key, Value::Null)]), "key {:?}", key);
    }
}

#[test]
fn an_object_without_entries_stays_an_object() {
    assert_eq!(group_numeric_arrays(object(vec![])), object(vec![]));
    assert_eq!(
        group_numeric_arrays(Value::Array(vec![object(vec![])])),
        Value::Array(vec![object(vec![])])
    );
}

#[test]
fn grouping_works_from_the_leaves_upwards() {
    let value = object(vec![
        ("0", object(vec![("0", text("a")), ("1", text("b"))])),
        ("1", object(vec![("k", object(vec![("5", Value::Bool(true))]))])),
    ]);
    assert_eq!(
        group_numeric_arrays(value),
        Value::Array(vec![
            Value::Array(vec![text("a"), text("b")]),
            object(vec![("k", Value::Array(vec![Value::Bool(true)]))]),
        ])
    );
}

#[test]
fn arrays_are_grouped_item_by_item_and_scalars_stay() {
    let value = Value::Array(vec![
        object(vec![("0", text("a"))]),
        text("x"),
        Value::Number(Number::PosInt(1)),
        Value::Null,
    ]);
    assert_eq!(
        group_numeric_arrays(value),
        Value::Array(vec![
            Value::Array(vec![text("a")]),
            text("x"),
            Value::Number(Number::PosInt(1)),
            Value::Null,
        ])
    );
    assert_eq!(group_numeric_arrays(text("0")), text("0"));
}

#[test]
fn grouping_twice_changes_nothing_more() {
    let value = || {
        object(vec![
            ("rows", object(vec![("0", object(vec![("1", text("a")), ("0", text("b"))]))])),
            ("1", Value::Array(vec![object(vec![("3", Value::Null)]), object(vec![])])),
        ])
    };
    let once = group_numeric_arrays(value());
    let twice = group_numeric_arrays(group_numeric_arrays(value()));
    assert_eq!(once, twice);
    assert_eq!(
        once,
        object(vec![
            ("rows", Value::Array(vec![Value::Array(vec![text("a"), text("b")])])),
            ("1", Value::Array(vec![Value::Array(vec![Value::Null]), object(vec![])])),
        ])
    );
}
