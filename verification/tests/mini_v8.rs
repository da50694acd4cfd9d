use mini_v8::{EvalPlan, MiniV8, Value};

#[test]
fn wasm() {
    assert_eq!(7, 7);
}

#[test]
fn cross_context_use_is_detected() {
    let mut mv8_1 = MiniV8::new(1);
    let str_1 = mv8_1.create_string("123");
    let mut mv8_2 = MiniV8::new(2);
    let _str_2 = mv8_2.create_string("456");
    assert!(mv8_1.is_usable(str_1.handle));
    assert!(!mv8_2.is_usable(str_1.handle));
}

#[test]
fn use_after_teardown_is_detected() {
    let mut mv8 = MiniV8::new(0);
    let s = mv8.create_string("data");
    assert!(mv8.is_usable(s.handle));
    mv8.teardown();
    assert!(!mv8.is_usable(s.handle));
}

#[test]
fn clone_and_drop_keep_alias_usable() {
    let mut mv8 = MiniV8::new(0);
    let s = mv8.create_string("abc");
    let alias = mv8.clone_handle(s.handle);
    mv8.drop_handle(s.handle);
    assert!(mv8.is_usable(alias));
    let js = mini_v8::JsString { handle: alias };
    assert_eq!(js.to_string(&mv8), "abc");
    mv8.drop_handle(alias);
    assert!(!mv8.is_usable(alias));
}

#[test]
fn alias_sees_mutation() {
    let mut mv8 = MiniV8::new(0);
    let obj = mv8.create_object();
    let alias_handle = mv8.clone_handle(obj.handle);
    let alias = mini_v8::Object { handle: alias_handle };
    obj.set(&mut mv8, "k", Value::Boolean(true));
    assert!(alias.has(&mv8, "k"));
    assert_eq!(alias.get(&mv8, "k"), Value::Boolean(true));
}

#[test]
fn eval_plan_honors_root_scope_only() {
    let mut mv8 = MiniV8::new(0);
    assert_eq!(mv8.eval_plan(None), EvalPlan::Direct);
    assert_eq!(mv8.eval_plan(Some(50)), EvalPlan::WithTimeout(50));
    mv8.push_scope();
    assert_eq!(mv8.eval_plan(Some(50)), EvalPlan::RejectInvalidTimeout);
    assert_eq!(mv8.eval_plan(None), EvalPlan::Direct);
    mv8.pop_scope();
    assert_eq!(mv8.eval_plan(Some(50)), EvalPlan::WithTimeout(50));
}

#[test]
fn eval_outcome_classification() {
    let mv8 = MiniV8::new(0);
    let completion = mini_v8::encode(&Value::Boolean(true));
    match mv8.classify_eval_outcome(true, None, completion) {
        Err(mini_v8::Error::Timeout) => {}
        other => panic!("unexpected result: {:?}", other),
    }
    let thrown = mini_v8::encode(&Value::Number(f64::to_bits(3.0)));
    match mv8.classify_eval_outcome(false, Some(thrown), completion) {
        Err(mini_v8::Error::Value(Value::Number(bits))) => {
            assert_eq!(bits, f64::to_bits(3.0));
        }
        other => panic!("unexpected result: {:?}", other),
    }
    match mv8.classify_eval_outcome(false, None, completion) {
        Ok(Value::Boolean(true)) => {}
        other => panic!("unexpected result: {:?}", other),
    }
}
