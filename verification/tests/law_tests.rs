//! Concrete instances of the crate's general laws.

use form_codec::shape::{Field, IntKind, IntWidth, Shape};
use form_codec::value::Value;
use form_codec::{from_str, to_string};

fn t(s: &str) -> Value {
    Value::Text(s.to_string())
}

fn field(name: &str, shape: Shape) -> Field {
    Field { name: name.to_string(), shape }
}

// Decoding the encoding of a fitting record gives the record back, and
// encoding again reproduces the wire text.
#[test]
fn round_trip_record() {
    let shape = Shape::Record(vec![
        field("name", Shape::Text),
        field("count", Shape::Int(IntKind { signed: false, width: IntWidth::W32, nonzero: false })),
        field("active", Shape::Bool),
        field("nick", Shape::Optional(Box::new(Shape::Text))),
        field("tags", Shape::List(Box::new(Shape::Text))),
    ]);
    let value = Value::Record(vec![
        ("name".to_string(), t("ada")),
        ("count".to_string(), Value::UInt(42)),
        ("active".to_string(), Value::Bool(true)),
        ("nick".to_string(), Value::Null),
        ("tags".to_string(), Value::List(vec![t("x"), t("y")])),
    ]);

    let wire = to_string(&value).unwrap();
    assert_eq!(wire, "name=ada&count=42&active=true&tags=x&tags=y");

    let decoded = from_str(&wire, &shape).unwrap();
    assert_eq!(decoded, value);

    let wire_again = to_string(&decoded).unwrap();
    assert_eq!(wire_again, wire);
}

// Key order after grouping equals first-distinct-occurrence order in the
// input, regardless of later repeats.
#[test]
fn grouping_keeps_first_occurrence_order() {
    let shape = Shape::Dict(Box::new(Shape::List(Box::new(Shape::Text))));
    let decoded = from_str("b=1&a=1&b=2", &shape).unwrap();

    assert_eq!(
        decoded,
        Value::Record(vec![
            ("b".to_string(), Value::List(vec![t("1"), t("2")])),
            ("a".to_string(), Value::List(vec![t("1")])),
        ])
    );
}

// The two policies give the same result wherever no empty text meets an
// optional text target.
#[test]
fn policies_agree_on_nonempty_texts() {
    let shape = Shape::Record(vec![field("v", Shape::Optional(Box::new(Shape::Text)))]);
    let default_mode = from_str("v=x", &shape).unwrap();
    let alternate = form_codec::empty_is_some::from_str("v=x", &shape).unwrap();
    assert_eq!(default_mode, alternate);
}
