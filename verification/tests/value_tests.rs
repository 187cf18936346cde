use dorea::value::{parse_value_type, parse_i64, str_eq, DataValue, DictBody};

#[test]
fn number_literal() {
    assert_eq!(parse_value_type(":123".to_string()), DataValue::Number(123));
    assert_eq!(parse_value_type(":-5".to_string()), DataValue::Number(-5));
    assert_eq!(parse_value_type(":+7".to_string()), DataValue::Number(7));
    assert_eq!(parse_value_type(":0".to_string()), DataValue::Number(0));
}

#[test]
fn boolean_literal() {
    assert_eq!(parse_value_type(":true".to_string()), DataValue::Boolean(true));
    assert_eq!(parse_value_type(":false".to_string()), DataValue::Boolean(false));
}

#[test]
fn empty_dict_literal() {
    assert_eq!(parse_value_type(":{}".to_string()), DataValue::Dict(DictBody::Empty));
}

#[test]
fn malformed_typed_literal_degrades_to_string() {
    assert_eq!(parse_value_type(":12a".to_string()), DataValue::String(":12a".to_string()));
    assert_eq!(parse_value_type(":True".to_string()), DataValue::String(":True".to_string()));
    assert_eq!(parse_value_type(":{x}".to_string()), DataValue::String(":{x}".to_string()));
    assert_eq!(parse_value_type(":".to_string()), DataValue::String(":".to_string()));
}

#[test]
fn unprefixed_token_is_a_string() {
    assert_eq!(parse_value_type("hello".to_string()), DataValue::String("hello".to_string()));
    assert_eq!(parse_value_type("123".to_string()), DataValue::String("123".to_string()));
    assert_eq!(parse_value_type(String::new()), DataValue::String(String::new()));
}

#[test]
fn integer_bounds() {
    assert_eq!(
        parse_value_type(":9223372036854775807".to_string()),
        DataValue::Number(i64::MAX)
    );
    assert_eq!(
        parse_value_type(":-9223372036854775808".to_string()),
        DataValue::Number(i64::MIN)
    );
    // One past either bound no longer parses as a number.
    assert_eq!(
        parse_value_type(":9223372036854775808".to_string()),
        DataValue::String(":9223372036854775808".to_string())
    );
    assert_eq!(
        parse_value_type(":-9223372036854775809".to_string()),
        DataValue::String(":-9223372036854775809".to_string())
    );
}

#[test]
fn parse_i64_direct() {
    assert_eq!(parse_i64("42"), Some(42));
    assert_eq!(parse_i64("-42"), Some(-42));
    assert_eq!(parse_i64("007"), Some(7));
    assert_eq!(parse_i64(""), None);
    assert_eq!(parse_i64("-"), None);
    assert_eq!(parse_i64("4 2"), None);
    assert_eq!(parse_i64("99999999999999999999"), None);
}

#[test]
fn string_comparison() {
    assert!(str_eq("abc", "abc"));
    assert!(!str_eq("abc", "abd"));
    assert!(!str_eq("abc", "ab"));
    assert!(str_eq("", ""));
}

#[test]
fn dict_field_operations() {
    let d = DictBody::Empty;
    let d = d.field_set("a", DataValue::Number(1));
    let d = d.field_set("b", DataValue::Boolean(true));
    assert_eq!(d.field_get("a"), Some(&DataValue::Number(1)));
    assert_eq!(d.field_get("b"), Some(&DataValue::Boolean(true)));
    assert_eq!(d.field_get("c"), None);
    let d = d.field_set("a", DataValue::String("x".to_string()));
    assert_eq!(d.field_get("a"), Some(&DataValue::String("x".to_string())));
    assert_eq!(d.field_get("b"), Some(&DataValue::Boolean(true)));
}

#[test]
fn duplicate_is_deep_and_equal() {
    let d = DictBody::Empty.field_set("inner", DataValue::Dict(DictBody::Empty));
    let v = DataValue::Dict(d);
    let copy = v.duplicate();
    assert_eq!(copy, v);
}
