use csv2json::prune::{
    drops, holds_empty_object, holds_empty_string, remove_empty, remove_empty_objects,
    remove_empty_strings, Empty,
};
use csv2json::value::Value;

fn text(s: &str) -> Value {
    Value::String(s.to_string())
}

fn object(entries: Vec<(&str, Value)>) -> Value {
    Value::Object(entries.into_iter().map(|(k, v)| (k.to_string(), v)).collect())
}

fn sample() -> Value {
    object(vec![
        ("a", text("")),
        ("b", text("x")),
        ("c", Value::Array(vec![text(""), text("y"), object(vec![("d", text(""))])])),
        ("e", object(vec![("f", object(vec![("g", text(""))]))])),
        ("h", object(vec![])),
        ("i", Value::Array(vec![])),
    ])
}

#[test]
fn empty_strings_are_dropped_at_every_depth() {
    assert_eq!(
        remove_empty_strings(sample()),
        object(vec![
            ("b", text("x")),
            ("c", Value::Array(vec![text("y"), object(vec![])])),
            ("e", object(vec![("f", object(vec![]))])),
            ("h", object(vec![])),
            ("i", Value::Array(vec![])),
        ])
    );
}

#[test]
fn empty_objects_are_dropped_at_every_depth() {
    assert_eq!(
        remove_empty_objects(sample()),
        object(vec![
            ("a", text("")),
            ("b", text("x")),
            ("c", Value::Array(vec![text(""), text("y"), object(vec![("d", text(""))])])),
            ("e", object(vec![("f", object(vec![("g", text(""))]))])),
            ("i", Value::Array(vec![])),
        ])
    );
}

#[test]
fn an_object_that_only_held_empty_objects_is_dropped_too() {
    let value = object(vec![
        ("keep", text("x")),
        ("gone", object(vec![("inner", object(vec![("innermost", object(vec![]))]))])),
        ("list", Value::Array(vec![object(vec![("inner", object(vec![]))]), text("y")])),
    ]);
    assert_eq!(
        remove_empty_objects(value),
        object(vec![("keep", text("x")), ("list", Value::Array(vec![text("y")]))])
    );
}

#[test]
fn both_prunings_one_after_the_other_leave_only_what_holds_something() {
    assert_eq!(
        remove_empty_objects(remove_empty_strings(sample())),
        object(vec![
            ("b", text("x")),
            ("c", Value::Array(vec![text("y")])),
            ("i", Value::Array(vec![])),
        ])
    );
}

#[test]
fn pruning_strings_twice_changes_nothing_more() {
    let once = remove_empty_strings(sample());
    let twice = remove_empty_strings(remove_empty_strings(sample()));
    assert_eq!(once, twice);
}

#[test]
fn pruning_objects_twice_changes_nothing_more() {
    let once = remove_empty_objects(sample());
    let twice = remove_empty_objects(remove_empty_objects(sample()));
    assert_eq!(once, twice);
}

#[test]
fn the_root_itself_is_never_dropped() {
    assert_eq!(remove_empty_strings(text("")), text(""));
    assert_eq!(remove_empty_objects(object(vec![])), object(vec![]));
    assert_eq!(remove_empty_objects(object(vec![("a", object(vec![]))])), object(vec![]));
    assert_eq!(remove_empty_strings(Value::Null), Value::Null);
}

#[test]
fn what_counts_as_empty() {
    assert!(holds_empty_string(&text("")));
    assert!(!holds_empty_string(&text(" ")));
    assert!(!holds_empty_string(&Value::Null));
    assert!(!holds_empty_string(&object(vec![])));
    assert!(holds_empty_object(&object(vec![])));
    assert!(!holds_empty_object(&object(vec![("", text(""))])));
    assert!(!holds_empty_object(&Value::Array(vec![])));
    assert!(!holds_empty_object(&text("")));
}

#[test]
fn a_pass_is_told_what_to_drop() {
    assert_eq!(remove_empty(Empty::Strings, sample()), remove_empty_strings(sample()));
    assert_eq!(remove_empty(Empty::Objects, sample()), remove_empty_objects(sample()));
    assert!(drops(Empty::Strings, &text("")));
    assert!(!drops(Empty::Strings, &object(vec![])));
    assert!(drops(Empty::Objects, &object(vec![])));
    assert!(!drops(Empty::Objects, &text("")));
}
