use mini_v8::{FromValue, FromValues, MiniV8, ToValue, ToValues, Value, Variadic};

#[test]
fn option() {
    let mut mv8 = MiniV8::new(0);

    let none_val = None::<usize>.to_value(&mut mv8).unwrap();
    assert!(none_val.is_null());
    let num_val = Some(123).to_value(&mut mv8).unwrap();
    assert!(num_val.is_number());

    let none: Option<usize> = FromValue::from_value(none_val.clone(), &mut mv8).unwrap();
    assert_eq!(none, None::<usize>);
    let some_num: Option<usize> = FromValue::from_value(num_val.clone(), &mut mv8).unwrap();
    assert_eq!(some_num, Some(123));
    let num: usize = FromValue::from_value(num_val.clone(), &mut mv8).unwrap();
    assert_eq!(num, 123);
    let num_zero: usize = FromValue::from_value(none_val.clone(), &mut mv8).unwrap();
    assert_eq!(num_zero, 0);
}

#[test]
fn variadic() {
    let mut mv8 = MiniV8::new(0);
    let values = (1, 0, 1).to_values(&mut mv8).unwrap();

    let var: Variadic<u8> = FromValues::from_values(values.clone(), &mut mv8).unwrap();
    assert_eq!(var.into_vec(), vec![1, 0, 1]);

    let values = (1, Variadic::from_vec(vec![0, 1])).to_values(&mut mv8).unwrap();
    let var: Variadic<u8> = FromValues::from_values(values.clone(), &mut mv8).unwrap();
    assert_eq!(var.into_vec(), vec![1, 0, 1]);
}

#[test]
fn tuple() {
    let mut mv8 = MiniV8::new(0);
    let values = (1, 0, 1).to_values(&mut mv8).unwrap();

    let out: (u8, u8, u8) = FromValues::from_values(values.clone(), &mut mv8).unwrap();
    assert_eq!((1, 0, 1), out);

    let out: (u8, u8) = FromValues::from_values(values.clone(), &mut mv8).unwrap();
    assert_eq!((1, 0), out);

    type Overflow = (u8, u8, u8, Value, Value);
    let (a, b, c, d, e): Overflow = FromValues::from_values(values.clone(), &mut mv8).unwrap();
    assert_eq!((1, 0, 1), (a, b, c));
    assert!(d.is_undefined());
    assert!(e.is_undefined());

    type VariadicTuple = (u8, Variadic<u8>);
    let (a, var): VariadicTuple = FromValues::from_values(values.clone(), &mut mv8).unwrap();
    assert_eq!(1, a);
    assert_eq!(var.into_vec(), vec![0, 1]);

    type VariadicOver = (u8, u8, u8, u8, Variadic<u8>);
    let (a, b, c, d, var): VariadicOver = FromValues::from_values(values.clone(), &mut mv8).unwrap();
    // `d` is `0` because `undefined` is coerced into `0`:
    assert_eq!((1, 0, 1, 0), (a, b, c, d));
    assert_eq!(var.into_vec(), vec![]);
}

#[test]
fn int_round_trips() {
    let mut mv8 = MiniV8::new(0);
    let cases: Vec<i64> = vec![0, 1, -1, 127, -128, 255, 4096, -90071992547409, 9007199254740992];
    for x in cases {
        let v = x.to_value(&mut mv8).unwrap();
        let back: i64 = FromValue::from_value(v, &mut mv8).unwrap();
        assert_eq!(back, x);
        if let Value::Number(bits) = v {
            assert_eq!(bits, (x as f64).to_bits());
        } else {
            panic!("not a number: {:?}", v);
        }
    }
}

#[test]
fn string_round_trips() {
    let mut mv8 = MiniV8::new(0);
    let original = String::from("caf\u{e9} \u{1F600}");
    let v = original.clone().to_value(&mut mv8).unwrap();
    let back: String = FromValue::from_value(v, &mut mv8).unwrap();
    assert_eq!(back, original);
}

#[test]
fn sequence_round_trips() {
    let mut mv8 = MiniV8::new(0);
    let original: Vec<i32> = vec![3, -1, 4, 1, -5, 9];
    let v = original.clone().to_value(&mut mv8).unwrap();
    assert!(v.is_array());
    let back: Vec<i32> = FromValue::from_value(v, &mut mv8).unwrap();
    assert_eq!(back, original);
}

#[test]
fn conversion_error_reports_types() {
    let mut mv8 = MiniV8::new(0);
    let v = Value::Boolean(true);
    let r: Result<mini_v8::Array, mini_v8::Error> = FromValue::from_value(v, &mut mv8);
    match r {
        Err(mini_v8::Error::FromJsConversionError { from, to }) => {
            assert_eq!(from, "boolean");
            assert_eq!(to, "Array");
        }
        other => panic!("unexpected result: {:?}", other),
    }
}
