use scmrun::bignum::Big;
use scmrun::errors::VmError;
use scmrun::heap::Env;
use scmrun::heap::GC;
use scmrun::value::Value;

#[test]
fn store_then_fetch_same_address() {
    let mut gc = GC::new();
    let e = gc.alloc_env(4, None);
    Env::store(&mut gc, e, 2, Value::Num(Big::from_i64(99))).unwrap();
    let v = Env::fetch(&gc, e, 2).unwrap();
    match v {
        Value::Num(n) => assert!(n.eq_big(&Big::from_i64(99))),
        _ => panic!("fetched the wrong kind of value"),
    }
}

#[test]
fn addressing_crosses_by_capacity_not_length() {
    let mut gc = GC::new();
    // outer environment: capacity 3, only one slot ever populated
    let outer = gc.alloc_env(3, None);
    Env::store(&mut gc, outer, 0, Value::Bool(true)).unwrap();
    // inner environment of capacity 2 chains to it
    let inner = gc.alloc_env(2, Some(outer));
    Env::store(&mut gc, inner, 0, Value::Unit).unwrap();
    // address 2 from the inner env crosses the whole capacity (2), not the
    // populated length (1), landing on outer slot 0
    let v = Env::fetch(&gc, inner, 2).unwrap();
    assert!(matches!(v, Value::Bool(true)));
    // address 5 walks past outer capacity too: unbound
    assert!(matches!(
        Env::fetch(&gc, inner, 5),
        Err(VmError::UnboundReference)
    ));
}

#[test]
fn fetch_undefined_slot_is_use_before_definition() {
    let mut gc = GC::new();
    let e = gc.alloc_env(4, None);
    // nothing stored yet: reading inside capacity is use-before-definition
    assert!(matches!(
        Env::fetch(&gc, e, 1),
        Err(VmError::UseBeforeDefinition)
    ));
    // storing at 2 pads slots 0 and 1 as undefined, not as values
    Env::store(&mut gc, e, 2, Value::Unit).unwrap();
    assert!(matches!(
        Env::fetch(&gc, e, 1),
        Err(VmError::UseBeforeDefinition)
    ));
    assert!(Env::fetch(&gc, e, 2).is_ok());
}

#[test]
fn store_past_chain_is_unbound() {
    let mut gc = GC::new();
    let e = gc.alloc_env(2, None);
    assert_eq!(
        Env::store(&mut gc, e, 7, Value::Unit),
        Err(VmError::UnboundReference)
    );
}

#[test]
fn overwrite_defined_slot() {
    let mut gc = GC::new();
    let e = gc.alloc_env(1, None);
    Env::store(&mut gc, e, 0, Value::Bool(false)).unwrap();
    Env::store(&mut gc, e, 0, Value::Bool(true)).unwrap();
    assert!(matches!(Env::fetch(&gc, e, 0).unwrap(), Value::Bool(true)));
}

#[test]
fn frame_store_and_fetch_through_env() {
    let mut gc = GC::new();
    let e = gc.alloc_env(2, None);
    let mut frame = scmrun::frame::Frame::new(e, 0, 0);
    frame.alloc_env(&mut gc, 1);
    frame.store(&mut gc, Value::Num(Big::from_i64(5)), 0).unwrap();
    match frame.fetch(&gc, 0).unwrap() {
        Value::Num(n) => assert!(n.eq_big(&Big::from_i64(5))),
        _ => panic!("wrong value through frame"),
    }
    // address 2 crosses the fresh env (capacity 1) into the base env
    assert!(matches!(
        frame.fetch(&gc, 2),
        Err(VmError::UseBeforeDefinition)
    ));
}
