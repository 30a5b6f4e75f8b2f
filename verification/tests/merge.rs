use csv2json::merge::{merge_values, prepare_upsert, upsert_entry};
use csv2json::value::{Number, Value};

fn text(s: &str) -> Value {
    Value::String(s.to_string())
}

fn object(entries: Vec<(&str, Value)>) -> Value {
    Value::Object(entries.into_iter().map(|(k, v)| (k.to_string(), v)).collect())
}

#[test]
fn it_merges_scalars_correctly() {
    let v1 = text("v1");
    let v2 = text("v2");
    assert_eq!(merge_values(v1, v2), Value::Array(vec![text("v1"), text("v2")]));
}

#[test]
fn it_merges_a_scalars_with_an_array_correctly() {
    let v1 = Value::Array(vec![text("v1")]);
    let v2 = text("v2");
    assert_eq!(merge_values(v1, v2), Value::Array(vec![text("v1"), text("v2")]));

    let v1 = text("v1");
    let v2 = Value::Array(vec![text("v2")]);
    // v1 added to existing v2
    assert_eq!(merge_values(v1, v2), Value::Array(vec![text("v2"), text("v1")]));
}

#[test]
fn it_merges_two_arrays_correctly() {
    let v1 = Value::Array(vec![text("v1")]);
    let v2 = Value::Array(vec![text("v2")]);
    assert_eq!(merge_values(v1, v2), Value::Array(vec![text("v1"), text("v2")]));
}

#[test]
fn it_merges_two_objects_correctly() {
    let v1 = object(vec![("k1", text("v1"))]);
    let v2 = object(vec![("k2", text("v2"))]);
    assert_eq!(
        merge_values(v1, v2),
        object(vec![("k1", text("v1")), ("k2", text("v2"))])
    );
}

#[test]
fn it_merges_values_inside_objects() {
    let v1 = object(vec![("k1", text("v1"))]);
    let v2 = object(vec![("k1", text("v2"))]);
    assert_eq!(
        merge_values(v1, v2),
        object(vec![("k1", Value::Array(vec![text("v1"), text("v2")]))])
    );
}

#[test]
fn merging_three_scalars_from_the_left_keeps_their_order() {
    let merged = merge_values(merge_values(text("a"), text("b")), text("c"));
    assert_eq!(merged, Value::Array(vec![text("a"), text("b"), text("c")]));
}

#[test]
fn merging_into_the_right_operand_appends_the_left_one() {
    let merged = merge_values(text("a"), merge_values(text("b"), text("c")));
    assert_eq!(merged, Value::Array(vec![text("b"), text("c"), text("a")]));
}

#[test]
fn merging_in_either_order_keeps_the_same_scalars() {
    let a = || Value::Array(vec![text("x"), Value::Null]);
    let b = || Value::Bool(true);
    assert_eq!(
        merge_values(a(), b()),
        Value::Array(vec![text("x"), Value::Null, Value::Bool(true)])
    );
    assert_eq!(
        merge_values(b(), a()),
        Value::Array(vec![text("x"), Value::Null, Value::Bool(true)])
    );
    let c = || text("y");
    let mut one = match merge_values(b(), c()) {
        Value::Array(items) => items,
        other => panic!("not an array: {:?}", other),
    };
    let mut other = match merge_values(c(), b()) {
        Value::Array(items) => items,
        other => panic!("not an array: {:?}", other),
    };
    assert_ne!(one, other);
    one.reverse();
    assert_eq!(one, other);
    other.clear();
}

#[test]
fn merging_an_object_with_a_scalar_gives_an_array_of_both() {
    let merged = merge_values(object(vec![("k", text("v"))]), Value::Number(Number::PosInt(3)));
    assert_eq!(
        merged,
        Value::Array(vec![object(vec![("k", text("v"))]), Value::Number(Number::PosInt(3))])
    );
}

#[test]
fn merging_an_object_into_an_array_appends_it() {
    let merged = merge_values(object(vec![("k", text("v"))]), Value::Array(vec![text("a")]));
    assert_eq!(merged, Value::Array(vec![text("a"), object(vec![("k", text("v"))])]));
}

#[test]
fn merging_objects_goes_down_to_every_depth_and_keeps_the_place_of_a_key() {
    let v1 = object(vec![
        ("a", object(vec![("x", text("1"))])),
        ("b", text("2")),
    ]);
    let v2 = object(vec![
        ("c", text("5")),
        ("a", object(vec![("x", text("3")), ("y", text("4"))])),
    ]);
    assert_eq!(
        merge_values(v1, v2),
        object(vec![
            (
                "a",
                object(vec![
                    ("x", Value::Array(vec![text("1"), text("3")])),
                    ("y", text("4")),
                ])
            ),
            ("b", text("2")),
            ("c", text("5")),
        ])
    );
}

#[test]
fn prepare_upsert_returns_the_data_for_a_vacant_key() {
    assert_eq!(prepare_upsert(None, text("v")), text("v"));
}

#[test]
fn prepare_upsert_merges_with_what_the_key_held() {
    assert_eq!(
        prepare_upsert(Some(text("old")), text("new")),
        Value::Array(vec![text("old"), text("new")])
    );
}

#[test]
fn upsert_entry_appends_a_new_key_and_merges_a_known_one() {
    let mut entries = vec![("k".to_string(), text("v1"))];
    upsert_entry(&mut entries, "other".to_string(), text("x"));
    upsert_entry(&mut entries, "k".to_string(), text("v2"));
    assert_eq!(
        entries,
        vec![
            ("k".to_string(), Value::Array(vec![text("v1"), text("v2")])),
            ("other".to_string(), text("x")),
        ]
    );
}
