use rjq::parser::{parse_filter, parse_query, Filter, Query};
use rjq::query::{apply_filter, execute_query};
use rjq::value::Value;

fn s(text: &str) -> Value {
    Value::Str(text.to_string())
}

fn test_json() -> Value {
    Value::Object(vec![
        ("string-field".to_string(), s("string value")),
        (
            "nested-field".to_string(),
            Value::Object(vec![
                ("inner-string".to_string(), s("inner value")),
                ("inner-number".to_string(), Value::Int(100)),
            ]),
        ),
        (
            "array-field".to_string(),
            Value::Array(vec![
                s("first field"),
                s("next field"),
                Value::Object(vec![(
                    "object-in-array".to_string(),
                    s("string value in object-in-array"),
                )]),
            ]),
        ),
    ])
}

fn unsafe_parse_filter(input: &str) -> Filter {
    parse_filter(input).unwrap()
}

fn unsafe_parse_query(input: &str) -> Query {
    parse_query(input).unwrap()
}

#[test]
fn apply_filter_test1() {
    assert_eq!(
        apply_filter(unsafe_parse_filter("."), test_json()).unwrap(),
        test_json()
    )
}

#[test]
fn apply_filter_test2() {
    assert_eq!(
        apply_filter(unsafe_parse_filter(".string-field"), test_json()).unwrap(),
        s("string value")
    )
}

#[test]
fn apply_filter_test3() {
    assert_eq!(
        apply_filter(
            unsafe_parse_filter(".nested-field.inner-string"),
            test_json()
        )
        .unwrap(),
        s("inner value")
    )
}

#[test]
fn apply_filter_test4() {
    assert_eq!(
        apply_filter(
            unsafe_parse_filter(".nested-field.inner-number"),
            test_json()
        )
        .unwrap(),
        Value::Int(100)
    )
}

#[test]
fn apply_filter_test5() {
    assert_eq!(
        apply_filter(unsafe_parse_filter(".array-field[0]"), test_json()).unwrap(),
        s("first field")
    )
}

#[test]
fn apply_filter_test6() {
    assert_eq!(
        apply_filter(unsafe_parse_filter(".array-field[1]"), test_json()).unwrap(),
        s("next field")
    )
}

#[test]
fn apply_filter_test7() {
    assert_eq!(
        apply_filter(
            unsafe_parse_filter(".array-field[2].object-in-array"),
            test_json()
        )
        .unwrap(),
        s("string value in object-in-array")
    )
}

#[test]
fn execute_query_test1() {
    assert_eq!(
        execute_query(unsafe_parse_query("{}"), test_json()).unwrap(),
        Value::Object(vec![])
    )
}

#[test]
fn execute_query_test2() {
    assert_eq!(
        execute_query(
            unsafe_parse_query("{\"field1\":.,\"field2\":.string-field}"),
            test_json()
        )
        .unwrap(),
        Value::Object(vec![
            ("field1".to_string(), test_json()),
            ("field2".to_string(), s("string value")),
        ])
    )
}

#[test]
fn execute_query_test3() {
    assert_eq!(
        execute_query(
            unsafe_parse_query("[.string-field,.nested-field.inner-string]"),
            test_json()
        )
        .unwrap(),
        Value::Array(vec![s("string value"), s("inner value")])
    )
}
