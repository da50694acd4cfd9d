use mini_v8::{MiniV8, ToValue, Value};

#[test]
fn set_get() {
    let mut mv8 = MiniV8::new(0);

    let object = mv8.create_object();
    let n = 123.to_value(&mut mv8).unwrap();
    object.set(&mut mv8, "a", n);
    let a = "a".to_value(&mut mv8).unwrap();
    object.set(&mut mv8, "123", a);
    let parent = mv8.create_object();
    parent.set(&mut mv8, "obj", Value::Object(object));
    let object = match parent.get(&mv8, "obj") {
        Value::Object(o) => o,
        other => panic!("not an object: {:?}", other),
    };
    let got: i8 = object.get(&mv8, "a").into(&mut mv8).unwrap();
    assert_eq!(got, 123);
    let got: String = object.get(&mv8, "a").into(&mut mv8).unwrap();
    assert_eq!(got, "123");
    let got: String = object.get(&mv8, "123").into(&mut mv8).unwrap();
    assert_eq!(got, "a");
    // A numeric key addresses the same property through string coercion.
    let key_js = Value::Number(f64::to_bits(123.0)).coerce_string(&mut mv8).unwrap();
    let key = key_js.to_string(&mv8);
    let got: String = object.get(&mv8, key.as_str()).into(&mut mv8).unwrap();
    assert_eq!(got, "a");
}

#[test]
fn remove() {
    let mut mv8 = MiniV8::new(0);
    let globals = mv8.global();
    globals.set(&mut mv8, "Object", Value::Boolean(true));
    assert!(globals.has(&mv8, "Object"));
    globals.remove(&mut mv8, "Object");
    assert!(!globals.has(&mv8, "Object"));
    // Removing keys that don't exist does nothing:
    globals.remove(&mut mv8, "Object");
    assert!(!globals.has(&mv8, "Object"));
}

#[test]
fn has() {
    // The global object is engine-backed: its model mirror starts empty and
    // incomplete, so the engine's own built-ins (such as `Array`) are not
    // in it until something puts them there — the embedding answers `has`
    // on such objects through the engine. Here the mirror is populated
    // first, and then answers exactly as the original expects.
    let mut mv8 = MiniV8::new(0);
    let globals = mv8.global();
    globals.set(&mut mv8, "Array", Value::Boolean(true));
    assert!(globals.has(&mv8, "Array"));
    assert!(!globals.has(&mv8, "~NOT-EXIST~"));
}

#[test]
fn imported_mirror_answers_positively() {
    let mut mv8 = MiniV8::new(0);
    let obj = mv8.import_object();
    assert!(!mv8.is_complete(obj.handle));
    let own = mv8.create_object();
    assert!(mv8.is_complete(own.handle));
    // What the host wrote into the mirror is found again; keys the mirror
    // has not seen yield false, which on an incomplete mirror decides
    // nothing about the engine's own contents.
    obj.set(&mut mv8, "k", Value::Boolean(true));
    assert!(obj.has(&mv8, "k"));
    assert_eq!(obj.get(&mv8, "k"), Value::Boolean(true));
    assert!(!obj.has(&mv8, "unseen"));
}

#[test]
fn keys_enumeration_order() {
    let mut mv8 = MiniV8::new(0);
    let object = mv8.create_object();
    object.set(&mut mv8, "b", Value::Boolean(true));
    object.set(&mut mv8, "10", Value::Boolean(true));
    object.set(&mut mv8, "a", Value::Boolean(true));
    object.set(&mut mv8, "2", Value::Boolean(true));
    let keys = object.keys(&mv8, false);
    let keys: Vec<&str> = keys.iter().map(|k| k.as_str()).collect();
    assert_eq!(keys, vec!["2", "10", "b", "a"]);
}

#[test]
fn set_replaces_in_place() {
    let mut mv8 = MiniV8::new(0);
    let object = mv8.create_object();
    object.set(&mut mv8, "x", Value::Boolean(true));
    object.set(&mut mv8, "y", Value::Boolean(true));
    object.set(&mut mv8, "x", Value::Boolean(false));
    let keys = object.keys(&mv8, false);
    assert_eq!(keys.len(), 2);
    assert_eq!(keys[0], "x");
    assert_eq!(keys[1], "y");
    assert_eq!(object.get(&mv8, "x"), Value::Boolean(false));
}

#[test]
fn array_ops() {
    let mut mv8 = MiniV8::new(0);
    let arr = mv8.create_array();
    assert_eq!(arr.len(&mv8), 0);
    arr.push(&mut mv8, Value::Boolean(true));
    arr.push(&mut mv8, Value::Null);
    assert_eq!(arr.len(&mv8), 2);
    assert_eq!(arr.get(&mv8, 0), Value::Boolean(true));
    assert_eq!(arr.get(&mv8, 1), Value::Null);
    assert_eq!(arr.get(&mv8, 2), Value::Undefined);
    arr.set(&mut mv8, 4, Value::Boolean(false));
    assert_eq!(arr.len(&mv8), 5);
    assert_eq!(arr.get(&mv8, 2), Value::Undefined);
    assert_eq!(arr.get(&mv8, 3), Value::Undefined);
    assert_eq!(arr.get(&mv8, 4), Value::Boolean(false));
    let elements = arr.elements(&mv8);
    assert_eq!(elements.len(), 5);
    assert_eq!(elements[0], Value::Boolean(true));
}

#[test]
fn string_round_trip() {
    let mut mv8 = MiniV8::new(0);
    let s = mv8.create_string("snowman \u{2603} and friends");
    assert_eq!(s.to_string(&mv8), "snowman \u{2603} and friends");
}
