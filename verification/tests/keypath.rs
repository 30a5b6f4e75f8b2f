use csv2json::keypath::{dimensional_converter, dot_joined};
use csv2json::value::Value;

fn text(s: &str) -> Value {
    Value::String(s.to_string())
}

fn single(key: &str, value: Value) -> Value {
    Value::Object(vec![(key.to_string(), value)])
}

#[test]
fn it_does_simple_json_conversion_with_no_separator() {
    let key = String::from("first.second.third");
    let value = text("value");
    assert_eq!(
        dimensional_converter(&key, &value, None),
        (String::from("first.second.third"), value)
    )
}

#[test]
fn it_creates_objects_on_separation() {
    let key = String::from("first.second.third");
    let value = text("value");
    assert_eq!(
        dimensional_converter(&key, &value, Some(".")),
        (
            String::from("first"),
            single("second", single("third", text("value")))
        )
    )
}

#[test]
fn it_does_simple_json_conversion_when_seperator_not_found() {
    let key = String::from("first.second.third");
    let value = text("value");
    assert_eq!(
        dimensional_converter(&key, &value, Some("-")),
        (String::from("first.second.third"), value)
    )
}

#[test]
fn it_expands_a_b_c_with_a_dot() {
    assert_eq!(
        dimensional_converter("a.b.c", &Value::Bool(true), Some(".")),
        (String::from("a"), single("b", single("c", Value::Bool(true))))
    )
}

#[test]
fn the_rest_of_a_name_is_joined_with_dots() {
    // After the first cut the remaining separators are dots, which the
    // separator `-` no longer matches.
    assert_eq!(
        dimensional_converter("a-b-c", &Value::Null, Some("-")),
        (String::from("a"), single("b.c", Value::Null))
    )
}

#[test]
fn a_long_separator_is_cut_out_whole() {
    assert_eq!(
        dimensional_converter("a::b", &Value::Null, Some("::")),
        (String::from("a"), single("b", Value::Null))
    )
}

#[test]
fn a_name_that_starts_or_ends_with_the_separator_has_an_empty_segment() {
    assert_eq!(
        dimensional_converter(".a", &Value::Null, Some(".")),
        (String::new(), single("a", Value::Null))
    );
    assert_eq!(
        dimensional_converter("a.", &Value::Null, Some(".")),
        (String::from("a"), single("", Value::Null))
    );
}

#[test]
fn names_are_cut_by_characters_not_bytes() {
    assert_eq!(
        dimensional_converter("é→ü→ß", &Value::Null, Some("→")),
        (String::from("é"), single("ü.ß", Value::Null))
    )
}

#[test]
fn dot_joined_replaces_every_separator() {
    let separator: Vec<char> = "--".chars().collect();
    assert_eq!(dot_joined("a--b---c", &separator), "a.b.-c");
    assert_eq!(dot_joined("abc", &separator), "abc");
    assert_eq!(dot_joined("", &separator), "");
}
