use mini_v8::conversion::{number_to_i64};
use mini_v8::number::dbl_encode;
use mini_v8::{
    dispatch_callback, encode, CallbackOutcome, Error, Invocation, MiniV8, Value,
};

fn add(inv: Invocation) -> Result<Value, Error> {
    let vec = inv.args.into_vec();
    let mut sum: i64 = 0;
    for v in vec {
        match v {
            Value::Number(bits) => sum += number_to_i64(bits),
            _ => return Err(Error::FromJsConversionError { from: "value", to: "i64" }),
        }
    }
    let neg = sum < 0;
    Ok(Value::Number(dbl_encode(sum.unsigned_abs(), neg)))
}

#[test]
fn callback_from_engine_matches_direct_call() {
    let mut mv8 = MiniV8::new(0);
    let four = Value::Number(dbl_encode(4, false));
    let five = Value::Number(dbl_encode(5, false));
    let recv = encode(&Value::Undefined);
    let args = vec![encode(&four), encode(&five)];

    // The path the engine drives: descriptors in, descriptor out.
    let outcome = dispatch_callback(&mut mv8, add, recv, args);
    let returned = match outcome {
        CallbackOutcome::Return(d) => mini_v8::decode(d, 0),
        CallbackOutcome::Throw(d) => panic!("unexpected throw: {:?}", d),
    };

    // The direct host path on the same logical arguments.
    let direct = add(Invocation {
        this: Value::Undefined,
        args: mini_v8::Values(vec![four, five]),
    })
    .unwrap();

    assert_eq!(returned, direct);
    assert_eq!(returned, Value::Number((9.0f64).to_bits()));
}

#[test]
fn callback_error_becomes_engine_exception() {
    let mut mv8 = MiniV8::new(0);
    let recv = encode(&Value::Undefined);
    let args = vec![encode(&Value::Null)];

    let outcome = dispatch_callback(&mut mv8, add, recv, args);
    let thrown = match outcome {
        CallbackOutcome::Throw(d) => mini_v8::decode(d, 0),
        CallbackOutcome::Return(d) => panic!("unexpected return: {:?}", d),
    };
    let obj = match thrown {
        Value::Object(o) => o,
        other => panic!("not an exception object: {:?}", other),
    };
    let name: String = obj.get(&mv8, "name").into(&mut mv8).unwrap();
    assert_eq!(name, "TypeError");
    let message: String = obj.get(&mv8, "message").into(&mut mv8).unwrap();
    assert_eq!(message, "error converting JavaScript value to i64");
}

#[test]
fn host_call_matches_engine_call() {
    let mut mv8 = MiniV8::new(0);
    let f = mv8.create_function(1);
    let four = Value::Number(dbl_encode(4, false));
    let five = Value::Number(dbl_encode(5, false));

    // The engine-driven path, over descriptors.
    let recv = encode(&Value::Undefined);
    let args = vec![encode(&four), encode(&five)];
    let engine_outcome = dispatch_callback(&mut mv8, add, recv, args);

    // The host-driven path on the same logical arguments.
    let host_outcome = f.call_with(
        &mut mv8,
        add,
        Value::Undefined,
        mini_v8::Values(vec![four, five]),
    );

    assert_eq!(engine_outcome, host_outcome);
    match host_outcome {
        CallbackOutcome::Return(d) => {
            assert_eq!(mini_v8::decode(d, 0), Value::Number((9.0f64).to_bits()));
        }
        CallbackOutcome::Throw(d) => panic!("unexpected throw: {:?}", d),
    }
}

#[test]
fn scope_depth_restored_around_callback() {
    let mut mv8 = MiniV8::new(0);
    assert_eq!(mv8.scope_depth(), 1);
    let recv = encode(&Value::Undefined);
    let _ = dispatch_callback(&mut mv8, add, recv, vec![]);
    assert_eq!(mv8.scope_depth(), 1);
}

#[test]
fn codec_round_trip_scalars() {
    let values = vec![
        Value::Undefined,
        Value::Null,
        Value::Boolean(true),
        Value::Boolean(false),
        Value::Number(f64::NAN.to_bits()),
        Value::Number(f64::INFINITY.to_bits()),
        Value::Number((1.5f64).to_bits()),
        Value::Date((86400000.0f64).to_bits()),
    ];
    for v in values {
        let d = encode(&v);
        assert_eq!(mini_v8::decode(d, 7), v);
        assert_eq!(mini_v8::try_decode(d, 7), Some(v));
    }
    let bad = mini_v8::Descriptor { tag: 200, payload: 0 };
    assert_eq!(mini_v8::try_decode(bad, 7), None);
}
