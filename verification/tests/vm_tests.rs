use scmrun::bignum::Big;
use scmrun::errors::VmError;
use scmrun::heap::Env;
use scmrun::library::LibName;
use scmrun::library::Library;
use scmrun::value::Value;
use scmrun::vm::VM;

// ---- module image assembly -------------------------------------------

fn section_strings(parts: &[&[u8]]) -> Vec<u8> {
    let mut out = Vec::new();
    out.extend_from_slice(&(parts.len() as u64).to_be_bytes());
    for p in parts {
        out.extend_from_slice(&(p.len() as u64).to_be_bytes());
        out.extend_from_slice(p);
    }
    out
}

fn image(imports: &[&[&[u8]]], symbols: &[&[u8]], exports: u64, text: &[u8]) -> Vec<u8> {
    let mut imp = Vec::new();
    imp.extend_from_slice(&(imports.len() as u64).to_be_bytes());
    for name in imports {
        imp.extend_from_slice(&section_strings(name));
    }
    let sym = section_strings(symbols);
    let exp = exports.to_be_bytes().to_vec();
    let mut txt = Vec::new();
    txt.extend_from_slice(&(text.len() as u64).to_be_bytes());
    txt.extend_from_slice(text);

    let imports_off = 64u64;
    let sym_off = imports_off + imp.len() as u64;
    let exp_off = sym_off + sym.len() as u64;
    let text_off = exp_off + exp.len() as u64;

    let mut img = Vec::new();
    img.extend_from_slice(b"SCM");
    img.push(1);
    img.extend_from_slice(&[0u8; 28]);
    img.extend_from_slice(&sym_off.to_be_bytes());
    img.extend_from_slice(&imports_off.to_be_bytes());
    img.extend_from_slice(&exp_off.to_be_bytes());
    img.extend_from_slice(&text_off.to_be_bytes());
    img.extend_from_slice(&imp);
    img.extend_from_slice(&sym);
    img.extend_from_slice(&exp);
    img.extend_from_slice(&txt);
    img
}

// ---- bytecode assembly -----------------------------------------------

fn push_int(t: &mut Vec<u8>, v: i64) {
    t.push(0x01);
    t.push(0x02);
    t.extend_from_slice(&v.to_be_bytes());
}

fn push_bool(t: &mut Vec<u8>, b: bool) {
    t.push(0x01);
    t.push(0x01);
    t.push(if b { 1 } else { 0 });
}

fn push_sym(t: &mut Vec<u8>, idx: u64) {
    t.push(0x01);
    t.push(0x05);
    t.extend_from_slice(&idx.to_be_bytes());
}

fn push_fun(t: &mut Vec<u8>, offset: u32, arity: u8, variadic: bool) {
    t.push(0x01);
    t.push(0x08);
    t.extend_from_slice(&offset.to_be_bytes());
    t.push(arity);
    t.push(if variadic { 1 } else { 0 });
}

fn store(t: &mut Vec<u8>, addr: u64) {
    t.push(0x0A);
    t.extend_from_slice(&addr.to_be_bytes());
}

fn fetch(t: &mut Vec<u8>, addr: u64) {
    t.push(0x08);
    t.extend_from_slice(&addr.to_be_bytes());
}

fn call(t: &mut Vec<u8>, argc: u8) {
    t.push(0x06);
    t.push(argc);
}

fn tcall(t: &mut Vec<u8>, argc: u8) {
    t.push(0x0D);
    t.push(argc);
}

fn jump(t: &mut Vec<u8>, dst: u32) {
    t.push(0x04);
    t.extend_from_slice(&dst.to_be_bytes());
}

fn branch(t: &mut Vec<u8>, dst: u32) {
    t.push(0x09);
    t.extend_from_slice(&dst.to_be_bytes());
}

fn ret(t: &mut Vec<u8>) {
    t.push(0x07);
}

fn load(vm: &mut VM, name: &[u8], img: &[u8]) -> Result<usize, VmError> {
    let parsed = Library::parse(&img.to_vec())?;
    vm.link_module(LibName(vec![name.to_vec()]), parsed)
}

fn expect_num(v: &Value, n: i64) {
    match v {
        Value::Num(b) => assert!(b.eq_big(&Big::from_i64(n)), "wrong numeric value"),
        _ => panic!("expected a number"),
    }
}

// ---- parsing ----------------------------------------------------------

#[test]
fn parse_rejects_short_image() {
    assert!(matches!(
        Library::parse(&vec![0u8; 10]),
        Err(VmError::ModuleLoadError)
    ));
}

#[test]
fn parse_rejects_wrong_version() {
    let mut img = image(&[], &[], 0, &[]);
    img[3] = 2;
    assert!(matches!(Library::parse(&img), Err(VmError::ModuleLoadError)));
}

#[test]
fn parse_rejects_truncated_section() {
    let img = image(&[], &[b"sym"], 0, &[0x00]);
    let cut = &img[..img.len() - 3].to_vec();
    assert!(matches!(Library::parse(cut), Err(VmError::ModuleLoadError)));
}

#[test]
fn parse_reads_sections() {
    let img = image(&[&[b"lib", b"a"]], &[b"x", b"y"], 3, &[0x00, 0x00]);
    let p = Library::parse(&img).unwrap();
    assert_eq!(p.exports, 3);
    assert_eq!(p.symbols, vec![b"x".to_vec(), b"y".to_vec()]);
    assert_eq!(p.imports.len(), 1);
    assert_eq!(p.imports[0].0, vec![b"lib".to_vec(), b"a".to_vec()]);
    assert_eq!(p.text, vec![0x00, 0x00]);
}

// ---- execution --------------------------------------------------------

#[test]
fn store_and_export_a_number() {
    // one module, one export: slot 0 := 42
    let mut t = Vec::new();
    push_int(&mut t, 42);
    store(&mut t, 0);
    let img = image(&[], &[], 1, &t);
    let mut vm = VM::new();
    let idx = load(&mut vm, b"main", &img).unwrap();
    assert_eq!(idx, 0);
    let v = Env::fetch(&vm.gc, vm.modules[0].env, 0).unwrap();
    expect_num(&v, 42);
}

#[test]
fn two_module_import_exposes_binding() {
    // module a exports one binding bound to 42
    let mut ta = Vec::new();
    push_int(&mut ta, 42);
    store(&mut ta, 0);
    let img_a = image(&[], &[], 1, &ta);

    // module b imports a and copies the imported binding (address 1: past
    // b's own single export slot, into the import environment) into its
    // own export slot 0
    let mut tb = Vec::new();
    fetch(&mut tb, 1);
    store(&mut tb, 0);
    let img_b = image(&[&[b"a"]], &[], 1, &tb);

    let mut vm = VM::new();
    load(&mut vm, b"a", &img_a).unwrap();
    let parsed_b = Library::parse(&img_b).unwrap();
    assert!(vm.missing_import(&parsed_b).is_none());
    let idx_b = vm.link_module(LibName(vec![b"b".to_vec()]), parsed_b).unwrap();
    assert_eq!(idx_b, 1);
    // the imported slot, fetched capacity-offset from b's own exports
    let v = Env::fetch(&vm.gc, vm.modules[1].env, 1).unwrap();
    expect_num(&v, 42);
    // and b's own export now holds the copied value
    let w = Env::fetch(&vm.gc, vm.modules[1].env, 0).unwrap();
    expect_num(&w, 42);
}

#[test]
fn missing_import_is_reported() {
    let tb = Vec::new();
    let img_b = image(&[&[b"absent"]], &[], 0, &tb);
    let mut vm = VM::new();
    let parsed = Library::parse(&img_b).unwrap();
    assert!(vm.missing_import(&parsed).is_some());
    let r = vm.link_module(LibName(vec![b"b".to_vec()]), parsed);
    assert_eq!(r, Err(VmError::ModuleNotFound));
}

#[test]
fn variadic_closure_binds_positionals_and_rest_list() {
    // a closure of arity 2, variadic, called with 5 arguments; it returns
    // its rest-list slot (address 2), which main stores into export 0
    let mut main = Vec::new();
    push_int(&mut main, 1);
    push_int(&mut main, 2);
    push_int(&mut main, 3);
    push_int(&mut main, 4);
    push_int(&mut main, 5);
    // the closure body starts after all of main's code; compute later
    let fun_at = {
        // push_fun(6) + call(2) + store(9) + jump(5)
        main.len() as u32 + 8 + 2 + 9 + 5
    };
    push_fun(&mut main, fun_at, 2, true);
    call(&mut main, 5);
    store(&mut main, 0);
    let end = fun_at + 9 + 1; // body: fetch(9) + ret(1)
    jump(&mut main, end);
    // closure body: return the rest list bound at slot 2
    fetch(&mut main, 2);
    ret(&mut main);
    assert_eq!(main.len() as u32, end);

    let img = image(&[], &[], 1, &main);
    let mut vm = VM::new();
    load(&mut vm, b"main", &img).unwrap();
    let lst = Env::fetch(&vm.gc, vm.modules[0].env, 0).unwrap();
    // expect (3 4 5), the surplus arguments in left-to-right order
    let mut cur = lst;
    for expect in [3i64, 4, 5] {
        match cur {
            Value::Pair(p) => {
                let pr = vm.gc.pair(p);
                expect_num(&pr.car, expect);
                cur = pr.cdr.clone();
            }
            _ => panic!("rest list ended early"),
        }
    }
    assert!(matches!(cur, Value::Null));
}

#[test]
fn non_variadic_closure_wrong_argc_is_arity_mismatch() {
    let mut main = Vec::new();
    push_int(&mut main, 1);
    let fun_at = main.len() as u32 + 8 + 2;
    push_fun(&mut main, fun_at, 2, false);
    call(&mut main, 1);
    ret(&mut main);
    let img = image(&[], &[], 0, &main);
    let mut vm = VM::new();
    assert_eq!(load(&mut vm, b"main", &img), Err(VmError::ArityMismatch));
}

#[test]
fn primitive_wrong_argc_is_arity_mismatch_not_corruption() {
    // eq? with one argument: ArityMismatch surfaces, the operand stack is
    // not corrupted
    let mut vm = VM::new();
    vm.stack.push(Value::Bool(true));
    let r = scmrun::primitives::eq(&mut vm, 1);
    assert!(matches!(r, Err(VmError::ArityMismatch)));
    assert_eq!(vm.stack.len(), 1);
    assert!(matches!(vm.stack[0], Value::Bool(true)));
}

#[test]
fn primitive_arity_error_through_bytecode() {
    // calling eq? (address exports + 5) with one argument aborts the load
    let mut main = Vec::new();
    push_int(&mut main, 1);
    fetch(&mut main, 5);
    call(&mut main, 1);
    let img = image(&[], &[], 0, &main);
    let mut vm = VM::new();
    assert_eq!(load(&mut vm, b"main", &img), Err(VmError::ArityMismatch));
}

#[test]
fn tail_recursive_loop_keeps_frame_chain_flat() {
    // f(n) = if n == 0 then 0 else f(n - 1), with the recursive call in
    // tail position; 5000 iterations cross the collection threshold
    let mut main = Vec::new();
    let body_at = {
        // push_fun(8) + store(9) + push_int(10) + fetch(9) + call(2) + jump(5)
        8u32 + 9 + 10 + 9 + 2 + 5
    };
    push_fun(&mut main, body_at, 1, false);
    store(&mut main, 0);
    push_int(&mut main, 5000);
    fetch(&mut main, 0);
    call(&mut main, 1);
    let end_probe = main.len() as u32 + 5;
    jump(&mut main, 0xFFFF); // patched below once the end is known
    // body (at body_at):
    assert_eq!(main.len() as u32, body_at);
    fetch(&mut main, 0); // n
    push_int(&mut main, 0);
    fetch(&mut main, 6); // "=" seen from the argument environment
    call(&mut main, 2);
    let recurse_at = main.len() as u32 + 5 + 10 + 1;
    branch(&mut main, recurse_at);
    push_int(&mut main, 0);
    ret(&mut main);
    assert_eq!(main.len() as u32, recurse_at);
    fetch(&mut main, 0); // n
    push_int(&mut main, 1);
    fetch(&mut main, 3); // "-" seen from the argument environment
    call(&mut main, 2); // n - 1
    fetch(&mut main, 1); // f itself, one capacity past the argument env
    tcall(&mut main, 1);
    let end = main.len() as u32;
    // patch the jump destination
    let probe = (end_probe - 5) as usize;
    main[probe + 1..probe + 5].copy_from_slice(&end.to_be_bytes());

    let img = image(&[], &[], 1, &main);
    let mut vm = VM::new();
    load(&mut vm, b"main", &img).unwrap();
    // the run came back to the module frame: constant chain length
    assert_eq!(vm.nframes, 1);
}

#[test]
fn display_renders_list_and_number() {
    // display the list (1 2) then a newline
    let mut main = Vec::new();
    push_int(&mut main, 1);
    push_int(&mut main, 2);
    fetch(&mut main, 20); // list
    call(&mut main, 2);
    fetch(&mut main, 24); // display
    call(&mut main, 1);
    main.push(0x03); // pop display's unit
    fetch(&mut main, 25); // newline
    call(&mut main, 0);
    let img = image(&[], &[], 0, &main);
    let mut vm = VM::new();
    load(&mut vm, b"main", &img).unwrap();
    assert_eq!(vm.out, b"(1 2)\n".to_vec());
}

#[test]
fn symbols_intern_once_across_pushes() {
    // the same symbol pushed twice compares eq?
    let mut main = Vec::new();
    push_sym(&mut main, 0);
    push_sym(&mut main, 0);
    fetch(&mut main, 6); // eq? at exports(1) + 5
    call(&mut main, 2);
    store(&mut main, 0);
    let img = image(&[], &[b"foo"], 1, &main);
    let mut vm = VM::new();
    load(&mut vm, b"main", &img).unwrap();
    let v = Env::fetch(&vm.gc, vm.modules[0].env, 0).unwrap();
    assert!(matches!(v, Value::Bool(true)));
}

#[test]
fn branch_takes_false_path() {
    // (if #f 1 2) compiled by hand: result lands in export 0
    let mut main = Vec::new();
    push_bool(&mut main, false);
    let else_at = main.len() as u32 + 5 + 10 + 9 + 5;
    branch(&mut main, else_at);
    push_int(&mut main, 1);
    store(&mut main, 0);
    let end = else_at + 10 + 9;
    jump(&mut main, end);
    assert_eq!(main.len() as u32, else_at);
    push_int(&mut main, 2);
    store(&mut main, 0);
    let img = image(&[], &[], 1, &main);
    let mut vm = VM::new();
    load(&mut vm, b"main", &img).unwrap();
    let v = Env::fetch(&vm.gc, vm.modules[0].env, 0).unwrap();
    expect_num(&v, 2);
}

#[test]
fn unknown_opcode_is_invalid() {
    let img = image(&[], &[], 0, &[0xEE]);
    let mut vm = VM::new();
    assert_eq!(load(&mut vm, b"main", &img), Err(VmError::InvalidOpcode));
}

#[test]
fn fetch_undefined_module_slot_fails() {
    let mut main = Vec::new();
    fetch(&mut main, 0);
    let img = image(&[], &[], 1, &main);
    let mut vm = VM::new();
    assert_eq!(
        load(&mut vm, b"main", &img),
        Err(VmError::UseBeforeDefinition)
    );
}

#[test]
fn call_on_number_is_non_callable() {
    let mut main = Vec::new();
    push_int(&mut main, 1);
    push_int(&mut main, 2);
    call(&mut main, 1);
    let img = image(&[], &[], 0, &main);
    let mut vm = VM::new();
    assert_eq!(
        load(&mut vm, b"main", &img),
        Err(VmError::CallOnNonCallable)
    );
}

#[test]
fn exit_primitive_stops_the_run() {
    let mut main = Vec::new();
    fetch(&mut main, 26);
    call(&mut main, 0);
    let img = image(&[], &[], 0, &main);
    let mut vm = VM::new();
    assert_eq!(load(&mut vm, b"main", &img), Err(VmError::Exit));
}

#[test]
fn division_is_unsupported() {
    let mut main = Vec::new();
    push_int(&mut main, 6);
    push_int(&mut main, 3);
    fetch(&mut main, 3);
    call(&mut main, 2);
    let img = image(&[], &[], 0, &main);
    let mut vm = VM::new();
    assert_eq!(load(&mut vm, b"main", &img), Err(VmError::TypeMismatch));
}

#[test]
fn failed_runtime_assertion() {
    let mut main = Vec::new();
    push_bool(&mut main, false);
    fetch(&mut main, 27);
    call(&mut main, 1);
    let img = image(&[], &[], 0, &main);
    let mut vm = VM::new();
    assert_eq!(load(&mut vm, b"main", &img), Err(VmError::TypeMismatch));
}

#[test]
fn return_on_empty_stack_underflows() {
    // a bare Return has no value to hand back
    let img = image(&[], &[], 0, &[0x07]);
    let mut vm = VM::new();
    assert_eq!(load(&mut vm, b"main", &img), Err(VmError::StackUnderflow));
}

#[test]
fn exhausted_step_budget_is_reported() {
    // an infinite jump-to-start loop against a tiny budget
    let mut main = Vec::new();
    jump(&mut main, 0);
    let img = image(&[], &[], 0, &main);
    let mut vm = VM::new();
    vm.fuel = 64;
    assert_eq!(load(&mut vm, b"main", &img), Err(VmError::RecursionLimit));
}

#[test]
fn program_counter_packs_module_and_offset() {
    let pc = scmrun::bytecode::pack_pc(7, 0x1234);
    assert_eq!(scmrun::bytecode::base(pc), 7);
    assert_eq!(scmrun::bytecode::off(pc), 0x1234);
    let jumped = scmrun::bytecode::with_offset(pc, 9);
    assert_eq!(scmrun::bytecode::base(jumped), 7);
    assert_eq!(scmrun::bytecode::off(jumped), 9);
}

#[test]
fn opcode_decode_validates() {
    assert!(matches!(
        scmrun::bytecode::decode_opcode(0x0D),
        Some(scmrun::bytecode::Opcode::Tcall)
    ));
    assert!(scmrun::bytecode::decode_opcode(0x02).is_none());
    assert!(matches!(
        scmrun::bytecode::decode_type(0x08),
        Some(scmrun::bytecode::Type::Fun)
    ));
    assert!(scmrun::bytecode::decode_type(0x07).is_none());
}
