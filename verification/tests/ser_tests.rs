use form_codec::error::Error;
use form_codec::to_string;
use form_codec::value::Value;

fn t(s: &str) -> Value {
    Value::Text(s.to_string())
}

fn rec(fields: Vec<(&str, Value)>) -> Value {
    Value::Record(fields.into_iter().map(|(k, v)| (k.to_string(), v)).collect())
}

#[test]
fn serialize_newtype_i32() {
    let params = rec(vec![("field", Value::Int(11))]);
    assert_eq!(to_string(&params).unwrap(), "field=11");
}

#[test]
fn serialize_newtype_u128() {
    let params = rec(vec![("field", Value::UInt(u128::MAX))]);
    assert_eq!(to_string(&params).unwrap(), "field=340282366920938463463374607431768211455");
}

#[test]
fn serialize_newtype_i128() {
    let params = rec(vec![("field", Value::Int(i128::MIN))]);
    assert_eq!(to_string(&params).unwrap(), "field=-170141183460469231731687303715884105728");
}

#[test]
fn serialize_option_map_int() {
    let params = rec(vec![
        ("first", Value::Int(23)),
        ("middle", Value::Null),
        ("last", Value::Int(42)),
    ]);
    assert_eq!(to_string(&params).unwrap(), "first=23&last=42");
}

#[test]
fn serialize_option_map_string() {
    let params = rec(vec![
        ("first", t("hello")),
        ("middle", Value::Null),
        ("last", t("world")),
    ]);
    assert_eq!(to_string(&params).unwrap(), "first=hello&last=world");
}

#[test]
fn serialize_option_map_bool() {
    let params = rec(vec![("one", Value::Bool(true)), ("two", Value::Bool(false))]);
    assert_eq!(to_string(&params).unwrap(), "one=true&two=false");
}

#[test]
fn serialize_map_bool() {
    let params = rec(vec![("one", Value::Bool(true)), ("two", Value::Bool(false))]);
    assert_eq!(to_string(&params).unwrap(), "one=true&two=false");
}

#[test]
fn serialize_map_duplicate_keys() {
    let params = rec(vec![("foo", t("a")), ("foo", t("b"))]);
    assert_eq!(to_string(&params).unwrap(), "foo=a&foo=b");
}

#[test]
fn serialize_unit_enum() {
    let params = rec(vec![
        ("one", Value::Variant("A".to_string())),
        ("two", Value::Variant("B".to_string())),
        ("three", Value::Variant("C".to_string())),
    ]);
    assert_eq!(to_string(&params).unwrap(), "one=A&two=B&three=C");
}

#[test]
fn serialize_unit_struct() {
    assert_eq!(to_string(&Value::Unit).unwrap(), "");
}

#[test]
fn serialize_unit_type() {
    assert_eq!(to_string(&Value::Unit).unwrap(), "");
}

#[test]
fn serialize_newstruct() {
    let s = rec(vec![("list", Value::List(vec![t("hello"), t("world")]))]);
    assert_eq!(to_string(&s).unwrap(), "list=hello&list=world");
}

#[test]
fn serialize_vec_bool() {
    let params = rec(vec![(
        "item",
        Value::List(vec![Value::Bool(true), Value::Bool(false), Value::Bool(false)]),
    )]);
    assert_eq!(to_string(&params).unwrap(), "item=true&item=false&item=false");
}

#[test]
fn serialize_vec_num() {
    let params = rec(vec![(
        "item",
        Value::List(vec![Value::Int(0), Value::Int(1), Value::Int(2)]),
    )]);
    assert_eq!(to_string(&params).unwrap(), "item=0&item=1&item=2");
}

#[test]
fn serialize_vec_str() {
    let params = rec(vec![("item", Value::List(vec![t("hello"), t("world"), t("hello")]))]);
    assert_eq!(to_string(&params).unwrap(), "item=hello&item=world&item=hello");
}

#[test]
fn serialize_struct_opt() {
    let s = rec(vec![("list", Value::List(vec![t("hello"), t("world")]))]);
    assert_eq!(to_string(&s).unwrap(), "list=hello&list=world");
}

#[test]
fn serialize_struct_newtype() {
    let s = rec(vec![("list", Value::List(vec![Value::UInt(0), Value::UInt(1)]))]);
    assert_eq!(to_string(&s).unwrap(), "list=0&list=1");
}

#[test]
fn serialize_struct_unit_enum() {
    let params = rec(vec![(
        "item",
        Value::List(vec![
            Value::Variant("A".to_string()),
            Value::Variant("B".to_string()),
            Value::Variant("C".to_string()),
        ]),
    )]);
    assert_eq!(to_string(&params).unwrap(), "item=A&item=B&item=C");
}

#[test]
fn serialize_list_of_str() {
    let params = rec(vec![("list", Value::List(vec![t("hello"), t("world")]))]);
    assert_eq!(to_string(&params).unwrap(), "list=hello&list=world");
}

#[test]
fn serialize_multiple_lists() {
    let params = rec(vec![
        ("xs", Value::List(vec![Value::Bool(true), Value::Bool(false)])),
        ("ys", Value::List(vec![Value::UInt(3), Value::UInt(2), Value::UInt(1)])),
    ]);
    assert_eq!(to_string(&params).unwrap(), "xs=true&xs=false&ys=3&ys=2&ys=1");
}

#[test]
fn serialize_nested_list() {
    let params = rec(vec![("list", Value::List(vec![Value::List(vec![Value::UInt(0)])]))]);
    assert_eq!(to_string(&params).unwrap_err(), Error::UnsupportedValue);
}

#[test]
fn serialize_list_of_option() {
    let params = rec(vec![("list", Value::List(vec![Value::Int(10), Value::Int(100)]))]);
    assert_eq!(to_string(&params).unwrap(), "list=10&list=100");
}

#[test]
fn serialize_list_of_newtype() {
    let params = rec(vec![("list", Value::List(vec![t("test")]))]);
    assert_eq!(to_string(&params).unwrap(), "list=test");
}

#[test]
fn serialize_list_of_enum() {
    let params = rec(vec![(
        "item",
        Value::List(vec![
            Value::Variant("A".to_string()),
            Value::Variant("B".to_string()),
            Value::Variant("C".to_string()),
        ]),
    )]);
    assert_eq!(to_string(&params).unwrap(), "item=A&item=B&item=C");
}

#[test]
fn serialize_map() {
    let s = rec(vec![("a", t("hello")), ("b", t("world"))]);
    assert_eq!(to_string(&s).unwrap(), "a=hello&b=world");
}

#[test]
fn serialize_percent_encodes_text() {
    let s = rec(vec![("a", t("b c&d=e"))]);
    assert_eq!(to_string(&s).unwrap(), "a=b+c%26d%3De");
}

#[test]
fn serialize_skips_null_list_elements() {
    let s = rec(vec![("list", Value::List(vec![Value::Null, t("x"), Value::Null]))]);
    assert_eq!(to_string(&s).unwrap(), "list=x");
}

#[test]
fn serialize_nested_record_unsupported() {
    let s = rec(vec![("outer", Value::Record(vec![("inner".to_string(), t("x"))]))]);
    assert_eq!(to_string(&s).unwrap_err(), Error::UnsupportedValue);
}

#[test]
fn serialize_unit_field_emits_nothing() {
    let s = rec(vec![("a", Value::Unit), ("b", t("x"))]);
    assert_eq!(to_string(&s).unwrap(), "b=x");
}

#[test]
fn serialize_float_text() {
    let s = rec(vec![("x", Value::Float("3.5e2".to_string()))]);
    assert_eq!(to_string(&s).unwrap(), "x=3.5e2");
}

#[test]
fn error_description() {
    assert_eq!(Error::UnsupportedValue.describe(), "unsupported value");
}
