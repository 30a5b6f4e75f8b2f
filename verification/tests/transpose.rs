use csv2json::transpose::{distill_headers, fold, header_prefix, insert_name, keep_first_occurrences};
use csv2json::value::{Number, Value};

fn text(s: &str) -> Value {
    Value::String(s.to_string())
}

fn number(n: u64) -> Value {
    Value::Number(Number::from_u64(n))
}

fn object(entries: Vec<(&str, Value)>) -> Value {
    Value::Object(entries.into_iter().map(|(k, v)| (k.to_string(), v)).collect())
}

fn names(list: &[&str]) -> Vec<String> {
    list.iter().map(|s| s.to_string()).collect()
}

#[test]
fn it_distills_plain_headers() {
    let mut headers = vec!["foo", "bar"];
    headers.sort();
    let csv_headers = names(&headers);
    let csv_headers = distill_headers(&csv_headers, None);
    let matching = csv_headers.iter().zip(headers).filter(|&(a, b)| a == b).count();
    assert_eq!(matching, 2);
}

#[test]
fn it_distills_dimensional_headers() {
    let headers = vec!["foo.1", "foo.2", "bar"];
    let csv_headers = names(&headers);
    let csv_headers = distill_headers(&csv_headers, Some("."));
    let mut headers = vec!["foo", "bar"];
    headers.sort();
    let matching = csv_headers.iter().zip(headers).filter(|&(a, b)| a == b).count();
    assert_eq!(matching, 2);
}

#[test]
fn it_folds_plain() {
    let mut headers = vec!["bar", "foo"];
    headers.sort();
    let items = fold(
        Value::Array(vec![
            object(vec![("bar", text("a")), ("foo", number(1))]),
            object(vec![("bar", text("b")), ("foo", number(2))]),
            object(vec![("bar", text("c")), ("foo", number(3))]),
        ]),
        &names(&headers),
        None,
    );
    assert_eq!(
        items,
        object(vec![
            ("bar", Value::Array(vec![text("a"), text("b"), text("c")])),
            ("foo", Value::Array(vec![number(1), number(2), number(3)])),
        ])
    );
}

#[test]
fn it_folds_dimensional() {
    let mut headers = vec!["bar", "foo.1", "foo.2"];
    headers.sort();
    let items = fold(
        Value::Array(vec![
            object(vec![("bar", text("a")), ("foo", Value::Array(vec![number(1), number(11)]))]),
            object(vec![("bar", text("b")), ("foo", Value::Array(vec![number(2), number(22)]))]),
            object(vec![("bar", text("c")), ("foo", Value::Array(vec![number(3), number(33)]))]),
        ]),
        &names(&headers),
        Some("."),
    );
    assert_eq!(
        items,
        object(vec![
            ("bar", Value::Array(vec![text("a"), text("b"), text("c")])),
            (
                "foo",
                Value::Array(vec![
                    Value::Array(vec![number(1), number(11)]),
                    Value::Array(vec![number(2), number(22)]),
                    Value::Array(vec![number(3), number(33)]),
                ])
            ),
        ])
    );
}

#[test]
fn distilled_headers_are_sorted_by_code_points_each_once() {
    let headers = names(&["b.x", "a", "b.y", "B", "ab.z", "a.1", "é", "", "a"]);
    let expected = {
        let mut cut: Vec<String> = headers
            .iter()
            .map(|h| h.split('.').next().unwrap().to_string())
            .collect();
        cut.sort();
        cut.dedup();
        cut
    };
    assert_eq!(distill_headers(&headers, Some(".")), expected);
    assert_eq!(expected, names(&["", "B", "a", "ab", "b", "é"]));
}

#[test]
fn without_a_separator_headers_stay_as_they_are() {
    let headers = names(&["b", "a.x", "b"]);
    assert_eq!(distill_headers(&headers, None), headers);
}

#[test]
fn an_empty_separator_cuts_every_header_down_to_nothing() {
    let headers = names(&["b", "a"]);
    assert_eq!(distill_headers(&headers, Some("")), names(&[""]));
}

#[test]
fn a_header_is_cut_before_its_first_separator() {
    let separator: Vec<char> = "::".chars().collect();
    assert_eq!(header_prefix("a::b::c", &separator), "a");
    assert_eq!(header_prefix("a:b", &separator), "a:b");
    assert_eq!(header_prefix("::b", &separator), "");
}

#[test]
fn insert_name_keeps_the_order_and_skips_what_is_there() {
    let mut list = names(&["b", "d"]);
    insert_name(&mut list, "c".to_string());
    insert_name(&mut list, "a".to_string());
    insert_name(&mut list, "e".to_string());
    insert_name(&mut list, "c".to_string());
    insert_name(&mut list, "bb".to_string());
    assert_eq!(list, names(&["a", "b", "bb", "c", "d", "e"]));
}

#[test]
fn keep_first_occurrences_drops_repeats() {
    assert_eq!(
        keep_first_occurrences(names(&["b", "a", "b", "c", "a"])),
        names(&["b", "a", "c"])
    );
}

#[test]
fn folding_gives_one_key_for_each_header_and_one_item_for_each_row() {
    let rows = Value::Array(vec![
        object(vec![("x", number(1))]),
        object(vec![("y", number(2)), ("x", number(3))]),
        object(vec![]),
        object(vec![("z", number(4))]),
    ]);
    let folded = fold(rows, &names(&["y", "x", "w", "y"]), None);
    assert_eq!(
        folded,
        object(vec![
            ("y", Value::Array(vec![Value::Null, number(2), Value::Null, Value::Null])),
            ("x", Value::Array(vec![number(1), number(3), Value::Null, Value::Null])),
            ("w", Value::Array(vec![Value::Null, Value::Null, Value::Null, Value::Null])),
        ])
    );
}

#[test]
fn folding_no_rows_gives_empty_columns() {
    assert_eq!(
        fold(Value::Array(vec![]), &names(&["a", "b"]), None),
        object(vec![("a", Value::Array(vec![])), ("b", Value::Array(vec![]))])
    );
}

#[test]
fn folding_without_headers_gives_an_empty_object() {
    assert_eq!(
        fold(Value::Array(vec![object(vec![("a", number(1))])]), &[], None),
        object(vec![])
    );
}
