use mini_v8::{MiniV8, Value};

#[test]
fn coerce_boolean() {
    let mut mv8 = MiniV8::new(0);
    assert!(!Value::Undefined.coerce_boolean(&mv8));
    assert!(!Value::Null.coerce_boolean(&mv8));
    assert!(!Value::Number(f64::to_bits(0.0)).coerce_boolean(&mv8));
    assert!(Value::Number(f64::to_bits(1.0)).coerce_boolean(&mv8));
    let empty = mv8.create_string("");
    assert!(!Value::String(empty).coerce_boolean(&mv8));
    let a = mv8.create_string("a");
    assert!(Value::String(a).coerce_boolean(&mv8));
    let obj = mv8.create_object();
    assert!(Value::Object(obj).coerce_boolean(&mv8));
}

#[test]
fn coerce_number() {
    let mut mv8 = MiniV8::new(0);
    assert!(f64::from_bits(Value::Undefined.coerce_number(&mv8).unwrap()).is_nan());
    assert_eq!(f64::to_bits(0.0), Value::Null.coerce_number(&mv8).unwrap());
    assert_eq!(f64::to_bits(0.0), Value::Number(f64::to_bits(0.0)).coerce_number(&mv8).unwrap());
    assert_eq!(f64::to_bits(1.0), Value::Number(f64::to_bits(1.0)).coerce_number(&mv8).unwrap());
    let empty = mv8.create_string("");
    assert_eq!(f64::to_bits(0.0), Value::String(empty).coerce_number(&mv8).unwrap());
    let a = mv8.create_string("a");
    assert!(f64::from_bits(Value::String(a).coerce_number(&mv8).unwrap()).is_nan());
    let obj = mv8.create_object();
    assert!(f64::from_bits(Value::Object(obj).coerce_number(&mv8).unwrap()).is_nan());
}

#[test]
fn coerce_number_signed_strings() {
    let mut mv8 = MiniV8::new(0);
    let neg = mv8.create_string("-42");
    assert_eq!(f64::to_bits(-42.0), Value::String(neg).coerce_number(&mv8).unwrap());
    let neg_zero = mv8.create_string("-0");
    assert_eq!(f64::to_bits(-0.0), Value::String(neg_zero).coerce_number(&mv8).unwrap());
    let bare_minus = mv8.create_string("-");
    assert!(f64::from_bits(Value::String(bare_minus).coerce_number(&mv8).unwrap()).is_nan());
    let double_minus = mv8.create_string("--1");
    assert!(f64::from_bits(Value::String(double_minus).coerce_number(&mv8).unwrap()).is_nan());
}

fn assert_string_eq(mv8: &mut MiniV8, value: Value, expected: &str) {
    let js = value.coerce_string(mv8).unwrap();
    assert_eq!(expected, js.to_string(mv8));
}

#[test]
fn coerce_string() {
    let mut mv8 = MiniV8::new(0);
    assert_string_eq(&mut mv8, Value::Undefined, "undefined");
    assert_string_eq(&mut mv8, Value::Null, "null");
    assert_string_eq(&mut mv8, Value::Number(f64::to_bits(123.0)), "123");
    let abc = mv8.create_string("abc");
    assert_string_eq(&mut mv8, Value::String(abc), "abc");
    let obj = mv8.create_object();
    assert_string_eq(&mut mv8, Value::Object(obj), "[object Object]");
}

#[test]
fn value_predicates() {
    let mut mv8 = MiniV8::new(1);
    assert!(Value::Undefined.is_undefined());
    assert!(Value::Null.is_null());
    assert!(!Value::Null.is_undefined());
    assert!(Value::Boolean(true).is_boolean());
    assert_eq!(Value::Boolean(true).as_boolean(), Some(true));
    assert!(Value::Number(f64::to_bits(1.5)).is_number());
    assert!(Value::Date(f64::to_bits(0.0)).is_date());
    let s = mv8.create_string("x");
    assert!(Value::String(s).is_string());
    let a = mv8.create_array();
    assert!(Value::Array(a).is_array());
    let o = mv8.create_object();
    assert!(Value::Object(o).is_object());
    assert_eq!(Value::Undefined.kind_name(), "undefined");
    assert_eq!(Value::Number(0).kind_name(), "number");
}

#[test]
fn coerce_string_negative_and_special() {
    let mut mv8 = MiniV8::new(0);
    assert_string_eq(&mut mv8, Value::Boolean(true), "true");
    assert_string_eq(&mut mv8, Value::Boolean(false), "false");
    assert_string_eq(&mut mv8, Value::Number(f64::to_bits(-42.0)), "-42");
    assert_string_eq(&mut mv8, Value::Number(f64::to_bits(f64::NAN)), "NaN");
    assert_string_eq(&mut mv8, Value::Number(f64::to_bits(f64::INFINITY)), "Infinity");
    assert_string_eq(&mut mv8, Value::Number(f64::to_bits(f64::NEG_INFINITY)), "-Infinity");
    assert_string_eq(&mut mv8, Value::Number(f64::to_bits(-0.0)), "0");
}
