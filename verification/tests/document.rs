use csv2json::document::{first_non_object, row_to_document, shape, NotFoldable, Passes};
use csv2json::value::{Number, Value};

fn text(s: &str) -> Value {
    Value::String(s.to_string())
}

fn number(n: u64) -> Value {
    Value::Number(Number::from_u64(n))
}

fn object(entries: Vec<(&str, Value)>) -> Value {
    Value::Object(entries.into_iter().map(|(k, v)| (k.to_string(), v)).collect())
}

fn keyed(cells: Vec<(&str, Value)>) -> Vec<(String, Value)> {
    cells.into_iter().map(|(k, v)| (k.to_string(), v)).collect()
}

fn names(list: &[&str]) -> Vec<String> {
    list.iter().map(|s| s.to_string()).collect()
}

const PLAIN: Passes = Passes {
    arrays: false,
    remove_empty_strings: false,
    remove_empty_objects: false,
    fold: false,
};

fn two_rows() -> Vec<Vec<(String, Value)>> {
    vec![
        keyed(vec![("bar", text("a")), ("foo", number(1))]),
        keyed(vec![("bar", text("b")), ("foo", number(2))]),
    ]
}

#[test]
fn rows_without_options_become_an_array_of_objects() {
    assert_eq!(
        shape(two_rows(), &names(&["bar", "foo"]), None, PLAIN),
        Ok(Value::Array(vec![
            object(vec![("bar", text("a")), ("foo", number(1))]),
            object(vec![("bar", text("b")), ("foo", number(2))]),
        ]))
    );
}

#[test]
fn rows_with_the_fold_become_an_object_of_columns() {
    assert_eq!(
        shape(two_rows(), &names(&["bar", "foo"]), None, Passes { fold: true, ..PLAIN }),
        Ok(object(vec![
            ("bar", Value::Array(vec![text("a"), text("b")])),
            ("foo", Value::Array(vec![number(1), number(2)])),
        ]))
    );
}

#[test]
fn a_key_that_a_row_holds_twice_collects_both_values() {
    assert_eq!(
        row_to_document(keyed(vec![("k", text("v1")), ("k", text("v2"))]), None),
        object(vec![("k", Value::Array(vec![text("v1"), text("v2")]))])
    );
}

#[test]
fn cells_that_share_a_path_are_merged_in_the_order_of_the_row() {
    let row = keyed(vec![
        ("address.city", text("Oslo")),
        ("name", text("Kari")),
        ("address.street", text("Storgata")),
        ("tags.0", text("a")),
        ("tags.1", text("b")),
        ("address.city", text("Bergen")),
    ]);
    assert_eq!(
        row_to_document(row, Some(".")),
        object(vec![
            (
                "address",
                object(vec![
                    ("city", Value::Array(vec![text("Oslo"), text("Bergen")])),
                    ("street", text("Storgata")),
                ])
            ),
            ("name", text("Kari")),
            ("tags", object(vec![("0", text("a")), ("1", text("b"))])),
        ])
    );
}

#[test]
fn a_row_without_cells_becomes_an_empty_object() {
    assert_eq!(row_to_document(keyed(vec![]), Some(".")), object(vec![]));
}

#[test]
fn the_passes_run_in_their_fixed_order() {
    let rows = vec![
        keyed(vec![
            ("id", number(1)),
            ("tags.0", text("a")),
            ("tags.1", text("")),
            ("extra.note", text("")),
        ]),
        keyed(vec![("id", number(2)), ("tags.0", text("")), ("extra.note", text("n"))]),
    ];
    let headers = names(&["id", "tags.0", "tags.1", "extra.note"]);
    let all = Passes {
        arrays: true,
        remove_empty_strings: true,
        remove_empty_objects: true,
        fold: true,
    };
    assert_eq!(
        shape(rows, &headers, Some("."), all),
        Ok(object(vec![
            ("extra", Value::Array(vec![Value::Null, object(vec![("note", text("n"))])])),
            ("id", Value::Array(vec![number(1), number(2)])),
            ("tags", Value::Array(vec![Value::Array(vec![text("a")]), Value::Array(vec![])])),
        ]))
    );
}

#[test]
fn each_pass_can_run_alone() {
    let rows = || {
        vec![keyed(vec![
            ("list.0", text("a")),
            ("list.1", text("")),
            ("hollow.inner", text("")),
        ])]
    };
    let headers = names(&["list.0", "list.1", "hollow.inner"]);
    assert_eq!(
        shape(rows(), &headers, Some("."), Passes { arrays: true, ..PLAIN }),
        Ok(Value::Array(vec![object(vec![
            ("list", Value::Array(vec![text("a"), text("")])),
            ("hollow", object(vec![("inner", text(""))])),
        ])]))
    );
    assert_eq!(
        shape(rows(), &headers, Some("."), Passes { remove_empty_strings: true, ..PLAIN }),
        Ok(Value::Array(vec![object(vec![
            ("list", object(vec![("0", text("a"))])),
            ("hollow", object(vec![])),
        ])]))
    );
    assert_eq!(
        shape(rows(), &headers, Some("."), Passes { remove_empty_objects: true, ..PLAIN }),
        Ok(Value::Array(vec![object(vec![
            ("list", object(vec![("0", text("a")), ("1", text(""))])),
            ("hollow", object(vec![("inner", text(""))])),
        ])]))
    );
}

#[test]
fn rows_that_are_pruned_away_leave_the_collection() {
    let rows = vec![keyed(vec![("a", text(""))]), keyed(vec![("a", text("x"))])];
    let passes = Passes { remove_empty_strings: true, remove_empty_objects: true, ..PLAIN };
    assert_eq!(
        shape(rows, &names(&["a"]), None, passes),
        Ok(Value::Array(vec![object(vec![("a", text("x"))])]))
    );
}

#[test]
fn rows_that_grouping_turned_into_arrays_cannot_be_folded() {
    let rows = vec![
        keyed(vec![("name", text("x"))]),
        keyed(vec![("0", text("a")), ("1", text("b"))]),
        keyed(vec![("0", text("c"))]),
    ];
    let passes = Passes { arrays: true, fold: true, ..PLAIN };
    assert_eq!(
        shape(rows, &names(&["0", "1", "name"]), None, passes),
        Err(NotFoldable { row: 1 })
    );
}

#[test]
fn the_first_item_that_is_no_object_is_found() {
    let items = Value::Array(vec![object(vec![]), Value::Null, text("x")]);
    assert_eq!(first_non_object(&items), Some(1));
    assert_eq!(first_non_object(&Value::Array(vec![object(vec![])])), None);
    assert_eq!(first_non_object(&Value::Array(vec![])), None);
}

#[test]
fn a_copy_of_a_value_equals_it() {
    let value = object(vec![
        ("a", Value::Array(vec![Value::Null, Value::Bool(true), number(3), text("x")])),
        ("b", object(vec![("c", Value::Number(Number::NegInt(-1)))])),
    ]);
    assert_eq!(value.clone(), value);
}
