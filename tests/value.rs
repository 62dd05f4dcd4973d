use bom_fold::value::Value;
use std::cmp::Ordering;

fn num(x: f64) -> Value {
    Value::Number(x.to_bits())
}

#[test]
fn numbers_compare_by_value() {
    assert_eq!(num(1.0).compare(&num(1.1)), Some(Ordering::Less));
    assert_eq!(num(-2.0).compare(&num(1.0)), Some(Ordering::Less));
    assert_eq!(num(-1.0).compare(&num(-2.0)), Some(Ordering::Greater));
    assert_eq!(num(0.0).compare(&num(-0.0)), Some(Ordering::Equal));
    assert_eq!(num(f64::INFINITY).compare(&num(1e300)), Some(Ordering::Greater));
    assert_eq!(num(f64::NAN).compare(&num(1.0)), None);
    assert_eq!(num(f64::NAN).compare(&num(f64::NAN)), None);
}

#[test]
fn texts_compare_lexicographically() {
    assert_eq!(Value::text("1").compare(&Value::text("1.1")), Some(Ordering::Less));
    assert_eq!(Value::text("1.2").compare(&Value::text("1.1")), Some(Ordering::Greater));
    assert_eq!(Value::text("abc").compare(&Value::text("abc")), Some(Ordering::Equal));
    assert_eq!(Value::text("B").compare(&Value::text("a")), Some(Ordering::Less));
    assert_eq!(Value::text("é").compare(&Value::text("z")), Some(Ordering::Greater));
}

#[test]
fn text_and_number_are_incomparable() {
    assert_eq!(Value::text("1").compare(&num(1.0)), None);
    assert_eq!(num(1.0).compare(&Value::text("1")), None);
    assert!(!Value::text("1").equals(&num(1.0)));
}

#[test]
fn value_equality() {
    assert_eq!(num(0.0), num(-0.0));
    assert_ne!(num(f64::NAN), num(f64::NAN));
    assert_eq!(Value::text("x"), Value::text("x"));
    assert_ne!(Value::text("x"), Value::text("y"));
    assert_eq!(Value::text("x").clone(), Value::text("x"));
}

#[test]
fn text_owned_renders_its_argument() {
    assert_eq!(Value::text_owned(42), Value::text("42"));
    assert_eq!(Value::text_owned("abc"), Value::text("abc"));
}
