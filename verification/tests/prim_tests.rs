use scmrun::bignum::Big;
use scmrun::errors::VmError;
use scmrun::value::Value;
use scmrun::vm::VM;

fn num(n: i64) -> Value {
    Value::Num(Big::from_i64(n))
}

fn expect_num(v: &Value, n: i64) {
    match v {
        Value::Num(b) => assert!(b.eq_big(&Big::from_i64(n)), "wrong numeric value"),
        _ => panic!("expected a number"),
    }
}

#[test]
fn add_sums_all_arguments() {
    let mut vm = VM::new();
    vm.stack.push(num(1));
    vm.stack.push(num(2));
    vm.stack.push(num(39));
    let r = scmrun::primitives::add(&mut vm, 3).unwrap();
    expect_num(&r, 42);
}

#[test]
fn add_of_nothing_is_zero() {
    let mut vm = VM::new();
    let r = scmrun::primitives::add(&mut vm, 0).unwrap();
    expect_num(&r, 0);
}

#[test]
fn add_rejects_non_number() {
    let mut vm = VM::new();
    vm.stack.push(num(1));
    vm.stack.push(Value::Bool(true));
    assert!(matches!(
        scmrun::primitives::add(&mut vm, 2),
        Err(VmError::TypeMismatch)
    ));
}

#[test]
fn min_single_argument_negates() {
    let mut vm = VM::new();
    vm.stack.push(num(9));
    let r = scmrun::primitives::min(&mut vm, 1).unwrap();
    expect_num(&r, -9);
}

#[test]
fn min_folds_subtraction_left() {
    let mut vm = VM::new();
    vm.stack.push(num(10));
    vm.stack.push(num(3));
    vm.stack.push(num(2));
    let r = scmrun::primitives::min(&mut vm, 3).unwrap();
    expect_num(&r, 5);
}

#[test]
fn min_without_arguments_is_arity_error() {
    let mut vm = VM::new();
    assert!(matches!(
        scmrun::primitives::min(&mut vm, 0),
        Err(VmError::ArityMismatch)
    ));
}

#[test]
fn mul_folds_product() {
    let mut vm = VM::new();
    vm.stack.push(num(6));
    vm.stack.push(num(7));
    let r = scmrun::primitives::mul(&mut vm, 2).unwrap();
    expect_num(&r, 42);
}

#[test]
fn cmp_numeric_equality_chain() {
    let mut vm = VM::new();
    vm.stack.push(num(4));
    vm.stack.push(num(4));
    vm.stack.push(num(4));
    let r = scmrun::primitives::cmp(&mut vm, 3).unwrap();
    assert!(matches!(r, Value::Bool(true)));
    vm.stack.push(num(4));
    vm.stack.push(num(5));
    let r2 = scmrun::primitives::cmp(&mut vm, 2).unwrap();
    assert!(matches!(r2, Value::Bool(false)));
}

#[test]
fn eq_compares_handles_for_pairs() {
    let mut vm = VM::new();
    let p = vm.gc.alloc_pair(Value::Null, Value::Null);
    let q = vm.gc.alloc_pair(Value::Null, Value::Null);
    vm.stack.push(Value::Pair(p));
    vm.stack.push(Value::Pair(p));
    let same = scmrun::primitives::eq(&mut vm, 2).unwrap();
    assert!(matches!(same, Value::Bool(true)));
    vm.stack.push(Value::Pair(p));
    vm.stack.push(Value::Pair(q));
    let diff = scmrun::primitives::eq(&mut vm, 2).unwrap();
    assert!(matches!(diff, Value::Bool(false)));
}

#[test]
fn equal_compares_structure() {
    let mut vm = VM::new();
    let p = vm.gc.alloc_pair(num(1), Value::Null);
    let q = vm.gc.alloc_pair(num(1), Value::Null);
    vm.stack.push(Value::Pair(p));
    vm.stack.push(Value::Pair(q));
    let r = scmrun::primitives::equal(&mut vm, 2).unwrap();
    assert!(matches!(r, Value::Bool(true)));
}

#[test]
fn predicates_discriminate() {
    let mut vm = VM::new();
    vm.stack.push(Value::Null);
    assert!(matches!(
        scmrun::primitives::null(&mut vm, 1).unwrap(),
        Value::Bool(true)
    ));
    vm.stack.pop();
    vm.stack.push(num(1));
    assert!(matches!(
        scmrun::primitives::number(&mut vm, 1).unwrap(),
        Value::Bool(true)
    ));
    assert!(matches!(
        scmrun::primitives::boolean(&mut vm, 1).unwrap(),
        Value::Bool(false)
    ));
}

#[test]
fn cons_car_cdr_round_trip() {
    let mut vm = VM::new();
    vm.stack.push(num(1));
    vm.stack.push(num(2));
    let pair = scmrun::primitives::cons(&mut vm, 2).unwrap();
    vm.stack.pop();
    vm.stack.pop();
    vm.stack.push(pair.clone());
    let head = scmrun::primitives::car(&mut vm, 1).unwrap();
    expect_num(&head, 1);
    let tail = scmrun::primitives::cdr(&mut vm, 1).unwrap();
    expect_num(&tail, 2);
}

#[test]
fn setcar_mutates_in_place() {
    let mut vm = VM::new();
    let p = vm.gc.alloc_pair(num(1), num(2));
    vm.stack.push(Value::Pair(p));
    vm.stack.push(num(9));
    let r = scmrun::primitives::setcar(&mut vm, 2).unwrap();
    assert!(matches!(r, Value::Unit));
    expect_num(&vm.gc.pair(p).car, 9);
}

#[test]
fn list_and_is_list() {
    let mut vm = VM::new();
    vm.stack.push(num(1));
    vm.stack.push(num(2));
    let lst = scmrun::primitives::list(&mut vm, 2).unwrap();
    vm.stack.pop();
    vm.stack.pop();
    vm.stack.push(lst);
    assert!(matches!(
        scmrun::primitives::is_list(&mut vm, 1).unwrap(),
        Value::Bool(true)
    ));
    vm.stack.pop();
    // an improper chain is not a list
    let improper = vm.gc.alloc_pair(num(1), num(2));
    vm.stack.push(Value::Pair(improper));
    assert!(matches!(
        scmrun::primitives::is_list(&mut vm, 1).unwrap(),
        Value::Bool(false)
    ));
}

#[test]
fn is_list_detects_cycles() {
    let mut vm = VM::new();
    let p = vm.gc.alloc_pair(num(1), Value::Null);
    vm.gc.set_cdr(p, Value::Pair(p));
    vm.stack.push(Value::Pair(p));
    assert!(matches!(
        scmrun::primitives::is_list(&mut vm, 1).unwrap(),
        Value::Bool(false)
    ));
}

#[test]
fn map_applies_primitive_over_list() {
    let mut vm = VM::new();
    // build (1 2 3)
    vm.stack.push(num(1));
    vm.stack.push(num(2));
    vm.stack.push(num(3));
    let lst = scmrun::primitives::list(&mut vm, 3).unwrap();
    vm.stack.truncate(0);
    // map - over it: each element negated
    vm.stack.push(Value::Primitive(scmrun::value::Prim::Min));
    vm.stack.push(lst);
    let mapped = scmrun::primitives::map(&mut vm, 2).unwrap();
    let mut cur = mapped;
    for expect in [-1i64, -2, -3] {
        match cur {
            Value::Pair(p) => {
                let pr = vm.gc.pair(p);
                expect_num(&pr.car, expect);
                cur = pr.cdr.clone();
            }
            _ => panic!("mapped list ended early"),
        }
    }
    assert!(matches!(cur, Value::Null));
}

#[test]
fn filter_keeps_non_false_results() {
    let mut vm = VM::new();
    vm.stack.push(num(1));
    vm.stack.push(Value::Bool(false));
    vm.stack.push(num(3));
    let lst = scmrun::primitives::list(&mut vm, 3).unwrap();
    vm.stack.truncate(0);
    // number? keeps the numbers only
    vm.stack.push(Value::Primitive(scmrun::value::Prim::IsNumber));
    vm.stack.push(lst);
    let kept = scmrun::primitives::filter(&mut vm, 2).unwrap();
    let mut cur = kept;
    for expect in [1i64, 3] {
        match cur {
            Value::Pair(p) => {
                let pr = vm.gc.pair(p);
                expect_num(&pr.car, expect);
                cur = pr.cdr.clone();
            }
            _ => panic!("filtered list ended early"),
        }
    }
    assert!(matches!(cur, Value::Null));
}

#[test]
fn symbol_string_conversions() {
    let mut vm = VM::new();
    let h = vm.gc.intern(b"foo".to_vec());
    vm.stack.push(Value::Symbol(h));
    let s = scmrun::primitives::symbol_to_string(&mut vm, 1).unwrap();
    assert!(matches!(s, Value::Str(x) if x == h));
    vm.stack.pop();
    vm.stack.push(s);
    let back = scmrun::primitives::string_to_symbol(&mut vm, 1).unwrap();
    assert!(matches!(back, Value::Symbol(x) if x == h));
}

#[test]
fn display_renders_scalars() {
    let mut vm = VM::new();
    vm.stack.push(num(-5));
    scmrun::primitives::display(&mut vm, 1).unwrap();
    vm.stack.pop();
    vm.stack.push(Value::Bool(true));
    scmrun::primitives::display(&mut vm, 1).unwrap();
    scmrun::primitives::newline(&mut vm, 0).unwrap();
    assert_eq!(vm.out, b"-5#t\n".to_vec());
}

#[test]
fn eq_compares_handles_for_closures() {
    // two distinct closure cells with identical fields are not eq?
    let mut vm = VM::new();
    let env = vm.gc.alloc_env(0, None);
    let c1 = vm.gc.alloc_closure(1, false, env, 7);
    let c2 = vm.gc.alloc_closure(1, false, env, 7);
    vm.stack.push(Value::Closure(c1));
    vm.stack.push(Value::Closure(c2));
    let diff = scmrun::primitives::eq(&mut vm, 2).unwrap();
    assert!(matches!(diff, Value::Bool(false)));
    vm.stack.push(Value::Closure(c1));
    vm.stack.push(Value::Closure(c1));
    let same = scmrun::primitives::eq(&mut vm, 2).unwrap();
    assert!(matches!(same, Value::Bool(true)));
}

#[test]
fn errors_describe_messages() {
    assert_eq!(
        VmError::ModuleNotFound.describe(),
        "impossible to find library in path"
    );
    assert_eq!(VmError::ArityMismatch.describe(), "wrong number of arguments");
    assert_eq!(VmError::Exit.describe(), "exit");
}
