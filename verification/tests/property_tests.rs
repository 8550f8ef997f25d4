use rjq::parser::{parse_query, Filter, Query};
use rjq::query::{execute_query, EvalError, Kind};
use rjq::value::Value;

fn s(text: &str) -> Value {
    Value::Str(text.to_string())
}

fn obj(members: Vec<(&str, Value)>) -> Value {
    Value::Object(
        members
            .into_iter()
            .map(|(k, v)| (k.to_string(), v))
            .collect(),
    )
}

#[test]
fn identity_query_returns_value_unchanged() {
    let v = obj(vec![
        ("a", Value::Int(1)),
        ("b", Value::Array(vec![Value::Null, Value::Bool(true)])),
    ]);
    assert_eq!(
        execute_query(Query::Filter(Filter::Null), v.duplicate()),
        Ok(v)
    );
}

#[test]
fn field_composition_reaches_nested_value() {
    let v = obj(vec![("a", obj(vec![("b", Value::Int(1))]))]);
    assert_eq!(
        execute_query(parse_query(".a.b").unwrap(), v),
        Ok(Value::Int(1))
    );
}

#[test]
fn index_reaches_array_element() {
    let v = Value::Array(vec![s("x"), s("y")]);
    assert_eq!(execute_query(parse_query(".[1]").unwrap(), v), Ok(s("y")));
}

#[test]
fn object_construction_reevaluates_source_per_member() {
    let v = obj(vec![("a", Value::Int(5))]);
    assert_eq!(
        execute_query(parse_query("{\"p\":.,\"q\":.a}").unwrap(), v),
        Ok(obj(vec![
            ("p", obj(vec![("a", Value::Int(5))])),
            ("q", Value::Int(5)),
        ]))
    );
}

#[test]
fn array_construction_preserves_order() {
    let v = obj(vec![("a", Value::Int(1)), ("b", Value::Int(2))]);
    assert_eq!(
        execute_query(parse_query("[.a,.b]").unwrap(), v),
        Ok(Value::Array(vec![Value::Int(1), Value::Int(2)]))
    );
}

#[test]
fn missing_field_fails() {
    assert_eq!(
        execute_query(parse_query(".missing").unwrap(), obj(vec![])),
        Err(EvalError::FieldNotFound("missing".to_string()))
    );
}

#[test]
fn out_of_range_index_fails() {
    assert_eq!(
        execute_query(parse_query(".[5]").unwrap(), Value::Array(vec![])),
        Err(EvalError::IndexOutOfRange(5))
    );
}

#[test]
fn field_on_non_object_is_type_mismatch() {
    assert_eq!(
        execute_query(parse_query(".a").unwrap(), Value::Int(1)),
        Err(EvalError::TypeMismatch {
            expected: Kind::Object,
            found: Kind::Int,
        })
    );
}

#[test]
fn index_on_non_array_is_type_mismatch() {
    assert_eq!(
        execute_query(parse_query(".[0]").unwrap(), obj(vec![])),
        Err(EvalError::TypeMismatch {
            expected: Kind::Array,
            found: Kind::Object,
        })
    );
}

#[test]
fn parser_rejects_trailing_garbage() {
    let e = parse_query(".a extra").unwrap_err();
    assert_eq!(e.input, ".a extra");
}

#[test]
fn parser_rejects_empty_input() {
    assert!(parse_query("").is_err());
}

#[test]
fn parser_rejects_unmatched_brace() {
    assert!(parse_query("{\"k\":.a").is_err());
}

#[test]
fn parser_rejects_key_without_colon() {
    assert!(parse_query("{\"k\".a}").is_err());
}

#[test]
fn parser_rejects_non_digit_index() {
    assert!(parse_query(".[x]").is_err());
}

#[test]
fn parser_rejects_oversized_index() {
    assert!(parse_query(".[99999999999999999999999999]").is_err());
}

#[test]
fn parser_rejects_space_inside_word() {
    assert!(parse_query(".ho ge").is_err());
}

#[test]
fn parser_rejects_trailing_comma() {
    assert!(parse_query("[.a,]").is_err());
}

#[test]
fn parser_rejects_bare_literal_element() {
    assert!(parse_query("[1]").is_err());
}

#[test]
fn whitespace_insensitive_filter_query() {
    assert_eq!(parse_query(" . a [ 0 ] "), parse_query(".a[0]"));
    assert!(parse_query(".a[0]").is_ok());
}

#[test]
fn duplicate_keys_are_last_write_wins() {
    let v = obj(vec![("a", Value::Int(1)), ("b", Value::Int(2))]);
    assert_eq!(
        execute_query(parse_query("{\"k\":.a,\"k\":.b}").unwrap(), v),
        Ok(obj(vec![("k", Value::Int(2))]))
    );
}

#[test]
fn empty_object_query_builds_empty_object() {
    assert_eq!(parse_query("{}"), Ok(Query::Object(vec![])));
    let v = Value::Array(vec![Value::Int(7)]);
    assert_eq!(
        execute_query(parse_query("{}").unwrap(), v),
        Ok(Value::Object(vec![]))
    );
}

#[test]
fn empty_array_query_builds_empty_array() {
    assert_eq!(parse_query("[]"), Ok(Query::Array(vec![])));
    let v = obj(vec![("a", Value::Int(7))]);
    assert_eq!(
        execute_query(parse_query("[]").unwrap(), v),
        Ok(Value::Array(vec![]))
    );
}

#[test]
fn evaluation_error_aborts_whole_construction() {
    let v = obj(vec![("a", Value::Int(1))]);
    assert_eq!(
        execute_query(parse_query("[.a,.missing]").unwrap(), v),
        Err(EvalError::FieldNotFound("missing".to_string()))
    );
}

#[test]
fn duplicate_makes_structural_copy() {
    let v = obj(vec![
        ("a", Value::Array(vec![Value::Null, s("x")])),
        ("b", Value::Bool(false)),
    ]);
    assert_eq!(v.duplicate(), v);
}

#[test]
fn non_integer_numbers_pass_through_unchanged() {
    let v = obj(vec![
        ("f", Value::Num("1.25".to_string())),
        ("big", Value::Num("18446744073709551615".to_string())),
    ]);
    assert_eq!(
        execute_query(Query::Filter(Filter::Null), v.duplicate()),
        Ok(v.duplicate())
    );
    assert_eq!(
        execute_query(parse_query(".f").unwrap(), v.duplicate()),
        Ok(Value::Num("1.25".to_string()))
    );
    assert_eq!(
        execute_query(parse_query(".big").unwrap(), v.duplicate()),
        Ok(Value::Num("18446744073709551615".to_string()))
    );
    assert_eq!(v.duplicate(), v);
}

#[test]
fn field_on_non_integer_number_is_type_mismatch() {
    assert_eq!(
        execute_query(parse_query(".a").unwrap(), Value::Num("1.5".to_string())),
        Err(EvalError::TypeMismatch {
            expected: Kind::Object,
            found: Kind::Num,
        })
    );
}

#[test]
fn word_characters_include_digits_hyphen_underscore() {
    assert_eq!(
        parse_query(".a-b_c9"),
        Ok(Query::Filter(Filter::Field(
            "a-b_c9".to_string(),
            Box::new(Filter::Null)
        )))
    );
}
