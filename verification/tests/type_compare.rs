use baret::compare::{do_compare, equal};
use baret::value::{classify, do_type, Number, Tag, Value};

fn text(x: &str) -> Value {
    Value::Text(x.to_string())
}

fn num_f(x: f64) -> Value {
    Value::Number(Number::Float(x.to_bits()))
}

fn num_u(x: u64) -> Value {
    Value::Number(Number::PosInt(x))
}

fn num_i(x: i64) -> Value {
    Value::Number(Number::NegInt(x))
}

fn obj(entries: Vec<(&str, Value)>) -> Value {
    Value::Object(entries.into_iter().map(|(k, v)| (k.to_string(), v)).collect())
}

#[test]
fn number() {
    assert_eq!("number", do_type(&num_f(1.123)));
    assert_eq!("number", do_type(&num_u(1)));
    assert_eq!("number", do_type(&num_f(3e-12)));
    assert_eq!("number", do_type(&num_f(-2.1e5)));
}

#[test]
fn object() {
    assert_eq!("object", do_type(&obj(vec![])));
    assert_eq!("object", do_type(&obj(vec![("key", num_u(123))])));
}

#[test]
fn array() {
    assert_eq!("array", do_type(&Value::Array(vec![])));
    assert_eq!(
        "array",
        do_type(&Value::Array(vec![num_u(1), num_u(2), num_u(3), num_u(4)]))
    );
}

#[test]
fn null() {
    assert_eq!("null", do_type(&Value::Null));
    assert_eq!(Tag::Null, classify(&Value::Null));
}

#[test]
fn boolean() {
    assert_eq!("boolean", do_type(&Value::Bool(true)));
    assert_eq!("boolean", do_type(&Value::Bool(false)));
}

#[test]
fn string() {
    assert_eq!("string", do_type(&text("test")));
    assert_eq!("string", do_type(&text("false")));
    assert_eq!("string", do_type(&text("1.123")));
    assert_eq!("string", do_type(&text("string")));
}

#[test]
fn classify_covers_every_variant() {
    assert_eq!(Tag::Null, classify(&Value::Null));
    assert_eq!(Tag::Boolean, classify(&Value::Bool(true)));
    assert_eq!(Tag::Number, classify(&num_u(0)));
    assert_eq!(Tag::Text, classify(&text("")));
    assert_eq!(Tag::Array, classify(&Value::Array(vec![])));
    assert_eq!(Tag::Object, classify(&obj(vec![])));
}

#[test]
fn compare_empty_documents() {
    assert!(do_compare(&obj(vec![]), &obj(vec![])).is_ok());
}

#[test]
fn compare_equal_different_order() {
    let first = obj(vec![("testing", num_u(5)), ("test", num_u(1))]);
    let second = obj(vec![("test", num_u(1)), ("testing", num_u(5))]);
    assert!(do_compare(&first, &second).is_ok());
    assert!(equal(&first, &second));
}

#[test]
fn compare_not_equal() {
    let first = obj(vec![("test", num_u(1))]);
    let second = obj(vec![]);
    assert!(do_compare(&first, &second).is_err());
}

#[test]
fn compare_is_reflexive_on_a_sample() {
    let v = obj(vec![
        ("x", num_u(1)),
        ("y", Value::Array(vec![text("a"), Value::Null, num_f(2.5)])),
    ]);
    assert!(equal(&v, &v));
}

#[test]
fn compare_is_symmetric_on_a_sample() {
    let a = obj(vec![("x", num_u(1)), ("y", num_u(2))]);
    let b = obj(vec![("y", num_u(2)), ("x", num_u(1))]);
    assert_eq!(equal(&a, &b), equal(&b, &a));
    assert!(equal(&a, &b));
}

#[test]
fn numbers_compare_by_value() {
    assert!(equal(&num_u(1), &num_f(1.0)));
    assert!(equal(&num_i(-2), &num_f(-2.0)));
    assert!(equal(&num_f(0.0), &num_f(-0.0)));
    assert!(!equal(&num_u(1), &num_f(1.5)));
    assert!(!equal(&num_u(1), &num_u(2)));
    assert!(!equal(&num_i(-1), &num_u(1)));
}

#[test]
fn cross_variant_values_are_unequal() {
    assert!(!equal(&Value::Null, &Value::Bool(false)));
    assert!(!equal(&num_u(1), &text("1")));
    assert!(!equal(&Value::Array(vec![]), &obj(vec![])));
    assert!(!equal(&text("true"), &Value::Bool(true)));
}

#[test]
fn arrays_compare_in_order() {
    let a = Value::Array(vec![num_u(1), num_u(2)]);
    let b = Value::Array(vec![num_u(2), num_u(1)]);
    assert!(!equal(&a, &b));
    let c = Value::Array(vec![num_u(1), num_u(2)]);
    assert!(equal(&a, &c));
}
