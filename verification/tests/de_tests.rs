use form_codec::shape::{EmptyPolicy, Field, IntKind, IntWidth, Shape, VariantShape};
use form_codec::value::Value;
use form_codec::error::Error;
use form_codec::{from_bytes, from_str};

fn int32() -> Shape {
    Shape::Int(IntKind { signed: true, width: IntWidth::W32, nonzero: false })
}

fn text() -> Shape {
    Shape::Text
}

fn opt(inner: Shape) -> Shape {
    Shape::Optional(Box::new(inner))
}

fn list(inner: Shape) -> Shape {
    Shape::List(Box::new(inner))
}

fn pair_list(value: Shape) -> Shape {
    list(Shape::Tuple2(Box::new(text()), Box::new(value)))
}

fn record(fields: Vec<(&str, Shape)>) -> Shape {
    Shape::Record(
        fields
            .into_iter()
            .map(|(name, shape)| Field { name: name.to_string(), shape })
            .collect(),
    )
}

fn t(s: &str) -> Value {
    Value::Text(s.to_string())
}

fn pair(k: &str, v: Value) -> Value {
    Value::Tuple2(Box::new(t(k)), Box::new(v))
}

#[test]
fn deserialize_newtype_i32() {
    let shape = pair_list(Shape::Newtype(Box::new(int32())));
    let result = Value::List(vec![pair("field", Value::Int(11))]);

    assert_eq!(from_str("field=11", &shape), Ok(result));
}

#[test]
fn deserialize_bytes() {
    let shape = pair_list(int32());
    let result = Value::List(vec![pair("first", Value::Int(23)), pair("last", Value::Int(42))]);

    assert_eq!(from_bytes(b"first=23&last=42", &shape), Ok(result));
}

#[test]
fn deserialize_str() {
    let shape = pair_list(int32());
    let result = Value::List(vec![pair("first", Value::Int(23)), pair("last", Value::Int(42))]);

    assert_eq!(from_str("first=23&last=42", &shape), Ok(result));
}

#[test]
fn deserialize_borrowed_str() {
    let shape = pair_list(int32());
    let result = Value::List(vec![pair("first", Value::Int(23)), pair("last", Value::Int(42))]);

    assert_eq!(from_str("first=23&last=42", &shape), Ok(result));
}

#[test]
fn deserialize_option() {
    let shape = pair_list(opt(int32()));
    let result = Value::List(vec![pair("first", Value::Int(23)), pair("last", Value::Int(42))]);

    assert_eq!(from_str("first=23&last=42", &shape), Ok(result));
}

#[test]
fn deserialize_empty_string() {
    let shape = pair_list(text());
    let result = Value::List(vec![pair("first", t(""))]);

    assert_eq!(from_str("first=", &shape), Ok(result));
}

#[test]
fn deserialize_map() {
    let shape = Shape::Dict(Box::new(int32()));
    let result = Value::Record(vec![
        ("first".to_string(), Value::Int(23)),
        ("second".to_string(), Value::Int(42)),
    ]);

    assert_eq!(from_str("first=23&second=42", &shape), Ok(result));
}

#[test]
fn deserialize_map_vec() {
    let shape = Shape::Dict(Box::new(list(int32())));
    let result = Value::Record(vec![
        ("first".to_string(), Value::List(vec![Value::Int(23), Value::Int(1)])),
        ("second".to_string(), Value::List(vec![Value::Int(42)])),
    ]);

    assert_eq!(from_str("first=23&second=42&first=1", &shape), Ok(result));
}

#[test]
fn deserialize_tuple_list() {
    let shape = pair_list(int32());
    let result = Value::List(vec![
        pair("foo", Value::Int(1)),
        pair("bar", Value::Int(2)),
        pair("foo", Value::Int(3)),
    ]);

    assert_eq!(from_str("foo=1&bar=2&foo=3", &shape), Ok(result));
}

#[test]
fn deserialize_vec_strings() {
    let shape = record(vec![("value", list(text()))]);

    assert_eq!(
        from_str("value=&value=abc", &shape),
        Ok(Value::Record(vec![("value".to_string(), Value::List(vec![t(""), t("abc")]))]))
    );
}

#[test]
fn deserialize_option_vec() {
    let shape = record(vec![("value", opt(list(text())))]);

    assert_eq!(
        from_str("", &shape),
        Ok(Value::Record(vec![("value".to_string(), Value::Null)]))
    );
    assert_eq!(
        from_str("value=abc", &shape),
        Ok(Value::Record(vec![("value".to_string(), Value::List(vec![t("abc")]))]))
    );
    assert_eq!(
        from_str("value=abc&value=def", &shape),
        Ok(Value::Record(vec![("value".to_string(), Value::List(vec![t("abc"), t("def")]))]))
    );
}

#[test]
fn deserialize_option_vec_int() {
    let shape = record(vec![("value", opt(list(int32())))]);

    assert_eq!(
        from_str("", &shape),
        Ok(Value::Record(vec![("value".to_string(), Value::Null)]))
    );
    assert_eq!(
        from_str("value=0", &shape),
        Ok(Value::Record(vec![("value".to_string(), Value::List(vec![Value::Int(0)]))]))
    );
    assert_eq!(
        from_str("value=3&value=-1", &shape),
        Ok(Value::Record(vec![(
            "value".to_string(),
            Value::List(vec![Value::Int(3), Value::Int(-1)]),
        )]))
    );
}

#[test]
fn deserialize_option_no_value() {
    let shape = record(vec![("value", opt(Shape::Float))]);

    assert_eq!(
        from_str("value=", &shape),
        Ok(Value::Record(vec![("value".to_string(), Value::Null)]))
    );
}

#[test]
fn deserialize_vec_options_no_value() {
    let shape = record(vec![("value", list(opt(Shape::Float)))]);

    assert_eq!(
        from_str("value=&value=&value=", &shape),
        Ok(Value::Record(vec![(
            "value".to_string(),
            Value::List(vec![Value::Null, Value::Null, Value::Null]),
        )]))
    );
}

#[test]
fn deserialize_vec_options_some_values() {
    let shape = record(vec![("value", list(opt(Shape::Float)))]);

    let decoded = from_str("value=&value=4&value=", &shape).unwrap();
    assert_eq!(
        decoded,
        Value::Record(vec![(
            "value".to_string(),
            Value::List(vec![Value::Null, Value::Float("4".to_string()), Value::Null]),
        )])
    );
    match &decoded {
        Value::Record(fields) => match &fields[0].1 {
            Value::List(items) => match &items[1] {
                Value::Float(text) => assert_eq!(text.parse::<f64>().unwrap(), 4.0),
                other => panic!("expected a float, got {other:?}"),
            },
            other => panic!("expected a list, got {other:?}"),
        },
        other => panic!("expected a record, got {other:?}"),
    }
}

#[test]
fn deserialize_option_vec_no_value() {
    let shape = record(vec![("value", opt(list(Shape::Float)))]);

    assert_eq!(
        from_str("value=&value=&value=", &shape),
        Err(Error::Parse { key: "value".to_string(), text: "".to_string() })
    );
}

#[test]
fn deserialize_option_vec_with_values() {
    let shape = record(vec![("value", opt(list(Shape::Float)))]);

    assert_eq!(
        from_str("value=3&value=4&value=5", &shape),
        Ok(Value::Record(vec![(
            "value".to_string(),
            Value::List(vec![
                Value::Float("3".to_string()),
                Value::Float("4".to_string()),
                Value::Float("5".to_string()),
            ]),
        )]))
    );
}

#[test]
fn deserialize_no_value_err() {
    let shape = record(vec![("value", Shape::Float)]);

    assert_eq!(
        from_str("value=", &shape),
        Err(Error::Parse { key: "value".to_string(), text: "".to_string() })
    );
}

#[test]
fn deserialize_unit() {
    assert_eq!(from_str("", &Shape::Unit), Ok(Value::Unit));
    assert_eq!(from_str("&", &Shape::Unit), Ok(Value::Unit));
    assert_eq!(from_str("&&", &Shape::Unit), Ok(Value::Unit));
    assert!(from_str("first=23", &Shape::Unit).is_err());
}

#[test]
fn deserialize_unit_enum() {
    let x = Shape::UnitEnum(vec!["A".to_string(), "B".to_string(), "C".to_string()]);
    let shape = list(Shape::Tuple2(Box::new(text()), Box::new(x)));
    let result = Value::List(vec![
        pair("one", Value::Variant("A".to_string())),
        pair("two", Value::Variant("B".to_string())),
        pair("three", Value::Variant("C".to_string())),
    ]);

    assert_eq!(from_str("one=A&two=B&three=C", &shape), Ok(result));
}

#[test]
fn deserialize_unit_type() {
    assert_eq!(from_str("", &Shape::Unit), Ok(Value::Unit));
}

#[test]
fn deserialize_internally_tagged_enum() {
    let shape = Shape::TaggedEnum {
        tag: "action".to_string(),
        variants: vec![VariantShape {
            name: "a".to_string(),
            fields: vec![Field { name: "foo".to_string(), shape: Shape::Text }],
        }],
    };
    let src = "action=a&foo=hello";
    let parsed = from_str(src, &shape).unwrap();
    assert_eq!(
        parsed,
        Value::Tagged("a".to_string(), vec![("foo".to_string(), t("hello"))])
    );
}

#[test]
fn option_string_empty_value() {
    let shape = record(vec![("value", opt(text()))]);

    // Default behavior: empty text becomes absent
    assert_eq!(
        from_str("value=", &shape),
        Ok(Value::Record(vec![("value".to_string(), Value::Null)]))
    );

    // With the alternate policy: empty text becomes the empty text
    assert_eq!(
        form_codec::empty_is_some::from_str("value=", &shape),
        Ok(Value::Record(vec![("value".to_string(), t(""))]))
    );
}

#[test]
fn option_string_with_value() {
    let shape = record(vec![("value", opt(text()))]);

    // Both policies agree on non-empty values
    assert_eq!(
        from_str("value=hello", &shape),
        Ok(Value::Record(vec![("value".to_string(), t("hello"))]))
    );
    assert_eq!(
        form_codec::empty_is_some::from_str("value=hello", &shape),
        Ok(Value::Record(vec![("value".to_string(), t("hello"))]))
    );
}

#[test]
fn option_string_missing_field() {
    let shape = record(vec![("value", opt(text()))]);

    // Both policies read a missing field as absent
    assert_eq!(
        from_str("", &shape),
        Ok(Value::Record(vec![("value".to_string(), Value::Null)]))
    );
    assert_eq!(
        form_codec::empty_is_some::from_str("", &shape),
        Ok(Value::Record(vec![("value".to_string(), Value::Null)]))
    );
}

#[test]
fn option_vec_string_empty_value() {
    let shape = record(vec![("value", opt(list(text())))]);

    // Default behavior: empty text becomes absent
    assert_eq!(
        from_str("value=", &shape),
        Ok(Value::Record(vec![("value".to_string(), Value::Null)]))
    );

    // With the alternate policy: a one-element list of the empty text
    assert_eq!(
        form_codec::empty_is_some::from_str("value=", &shape),
        Ok(Value::Record(vec![("value".to_string(), Value::List(vec![t("")]))]))
    );
}

#[test]
fn option_f64_empty_value() {
    let shape = record(vec![("value", opt(Shape::Float))]);

    // Default behavior: empty text becomes absent
    assert_eq!(
        from_str("value=", &shape),
        Ok(Value::Record(vec![("value".to_string(), Value::Null)]))
    );

    // With the alternate policy the payload decoder runs, and an empty
    // float text does not parse
    assert_eq!(
        form_codec::empty_is_some::from_str("value=", &shape),
        Err(Error::Parse { key: "value".to_string(), text: "".to_string() })
    );
}

#[test]
fn vec_option_string_empty_values() {
    let shape = record(vec![("value", list(opt(text())))]);

    // Default behavior: empty texts become absent elements
    assert_eq!(
        from_str("value=&value=hello&value=", &shape),
        Ok(Value::Record(vec![(
            "value".to_string(),
            Value::List(vec![Value::Null, t("hello"), Value::Null]),
        )]))
    );

    // With the alternate policy: empty texts become empty text elements
    assert_eq!(
        form_codec::empty_is_some::from_str("value=&value=hello&value=", &shape),
        Ok(Value::Record(vec![(
            "value".to_string(),
            Value::List(vec![t(""), t("hello"), t("")]),
        )]))
    );
}

#[test]
fn deserialize_percent_decoded_pairs() {
    let shape = pair_list(text());
    let result = Value::List(vec![pair("a b", t("x&y")), pair("c", t("d=e"))]);

    assert_eq!(from_str("a+b=x%26y&c=d%3De", &shape), Ok(result));
}

#[test]
fn deserialize_mode_flag_on_deserializer() {
    let shape = record(vec![("value", opt(text()))]);
    let pairs = vec![("value".to_string(), "".to_string())];

    let default_mode = form_codec::Deserializer::new(pairs.clone(), EmptyPolicy::EmptyIsNone);
    assert_eq!(
        default_mode.deserialize(&shape),
        Ok(Value::Record(vec![("value".to_string(), Value::Null)]))
    );

    let alternate = form_codec::Deserializer::new(pairs, EmptyPolicy::EmptyIsSome);
    assert_eq!(
        alternate.deserialize(&shape),
        Ok(Value::Record(vec![("value".to_string(), t(""))]))
    );
}

#[test]
fn deserialize_unit_length_mismatch_counts() {
    assert_eq!(
        from_str("a=1", &Shape::Unit),
        Err(Error::LengthMismatch { expected: 0, actual: 1 })
    );
    assert_eq!(
        from_str("a=1&b=2&a=3", &Shape::Unit),
        Err(Error::LengthMismatch { expected: 0, actual: 3 })
    );
}

#[test]
fn deserialize_multiple_values_error() {
    let shape = Shape::Dict(Box::new(int32()));

    assert_eq!(
        from_str("a=1&a=2", &shape),
        Err(Error::MultipleValues { key: "a".to_string() })
    );
}

#[test]
fn deserialize_missing_field_error() {
    let shape = record(vec![("needed", int32())]);

    assert_eq!(
        from_str("other=1", &shape),
        Err(Error::MissingField { key: "needed".to_string() })
    );
}

#[test]
fn deserialize_unknown_keys_ignored() {
    let shape = record(vec![("a", int32())]);

    assert_eq!(
        from_str("b=9&a=1&c=2", &shape),
        Ok(Value::Record(vec![("a".to_string(), Value::Int(1))]))
    );
}

#[test]
fn deserialize_top_level_scalar_shape_mismatch() {
    assert_eq!(
        from_str("a=1", &Shape::Bool),
        Err(Error::ShapeMismatch { key: "".to_string() })
    );
}

#[test]
fn deserialize_unknown_variant_error() {
    let x = Shape::UnitEnum(vec!["A".to_string(), "B".to_string()]);
    let shape = record(vec![("item", x)]);

    assert_eq!(
        from_str("item=C", &shape),
        Err(Error::Parse { key: "item".to_string(), text: "C".to_string() })
    );
}

#[test]
fn deserialize_bool_and_errors() {
    let shape = record(vec![("flag", Shape::Bool)]);

    assert_eq!(
        from_str("flag=true", &shape),
        Ok(Value::Record(vec![("flag".to_string(), Value::Bool(true))]))
    );
    assert_eq!(
        from_str("flag=false", &shape),
        Ok(Value::Record(vec![("flag".to_string(), Value::Bool(false))]))
    );
    assert_eq!(
        from_str("flag=True", &shape),
        Err(Error::Parse { key: "flag".to_string(), text: "True".to_string() })
    );
}

#[test]
fn deserialize_int_extremes() {
    let u128_shape = record(vec![(
        "n",
        Shape::Int(IntKind { signed: false, width: IntWidth::W128, nonzero: false }),
    )]);
    assert_eq!(
        from_str("n=340282366920938463463374607431768211455", &u128_shape),
        Ok(Value::Record(vec![("n".to_string(), Value::UInt(u128::MAX))]))
    );
    assert_eq!(
        from_str("n=340282366920938463463374607431768211456", &u128_shape),
        Err(Error::Parse {
            key: "n".to_string(),
            text: "340282366920938463463374607431768211456".to_string(),
        })
    );

    let i128_shape = record(vec![(
        "n",
        Shape::Int(IntKind { signed: true, width: IntWidth::W128, nonzero: false }),
    )]);
    assert_eq!(
        from_str("n=-170141183460469231731687303715884105728", &i128_shape),
        Ok(Value::Record(vec![("n".to_string(), Value::Int(i128::MIN))]))
    );

    let u8_shape = record(vec![(
        "n",
        Shape::Int(IntKind { signed: false, width: IntWidth::W8, nonzero: false }),
    )]);
    assert_eq!(
        from_str("n=255", &u8_shape),
        Ok(Value::Record(vec![("n".to_string(), Value::UInt(255))]))
    );
    assert_eq!(
        from_str("n=256", &u8_shape),
        Err(Error::Parse { key: "n".to_string(), text: "256".to_string() })
    );
    assert_eq!(
        from_str("n=-1", &u8_shape),
        Err(Error::Parse { key: "n".to_string(), text: "-1".to_string() })
    );
}

#[test]
fn deserialize_nonzero_int() {
    let shape = record(vec![(
        "n",
        Shape::Int(IntKind { signed: true, width: IntWidth::W32, nonzero: true }),
    )]);

    assert_eq!(
        from_str("n=7", &shape),
        Ok(Value::Record(vec![("n".to_string(), Value::Int(7))]))
    );
    assert_eq!(
        from_str("n=0", &shape),
        Err(Error::Parse { key: "n".to_string(), text: "0".to_string() })
    );
}

#[test]
fn deserialize_float_grammar() {
    let shape = record(vec![("x", Shape::Float)]);
    let ok = |input: &str, kept: &str| {
        assert_eq!(
            from_str(input, &shape),
            Ok(Value::Record(vec![("x".to_string(), Value::Float(kept.to_string()))]))
        );
    };
    ok("x=3.5e2", "3.5e2");
    ok("x=-1e-3", "-1e-3");
    ok("x=.5", ".5");
    ok("x=1.", "1.");
    ok("x=inf", "inf");
    ok("x=NaN", "NaN");
    ok("x=-Infinity", "-Infinity");

    let err = |input: &str, kept: &str| {
        assert_eq!(
            from_str(input, &shape),
            Err(Error::Parse { key: "x".to_string(), text: kept.to_string() })
        );
    };
    err("x=abc", "abc");
    err("x=", "");
    err("x=1e", "1e");
    err("x=.", ".");
    err("x=1.2.3", "1.2.3");
}

#[test]
fn vec_option_string_trailing_empty() {
    let shape = record(vec![("value", list(opt(text())))]);

    assert_eq!(
        from_str("value=x&value=", &shape),
        Ok(Value::Record(vec![(
            "value".to_string(),
            Value::List(vec![t("x"), Value::Null]),
        )]))
    );
    assert_eq!(
        form_codec::empty_is_some::from_str("value=x&value=", &shape),
        Ok(Value::Record(vec![(
            "value".to_string(),
            Value::List(vec![t("x"), t("")]),
        )]))
    );
}

#[test]
fn float_parse_error_carries_key_and_text() {
    let shape = record(vec![("value", Shape::Float)]);

    assert_eq!(
        from_str("value=abc", &shape),
        Err(Error::Parse { key: "value".to_string(), text: "abc".to_string() })
    );
}
