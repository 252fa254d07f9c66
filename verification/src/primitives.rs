//! The host primitive functions and the base environment that exposes
//! them to bytecode. A primitive reads a window of `argc` values on top
//! of the operand stack and returns exactly one value; the interpreter
//! removes the window and pushes the result.

use crate::bignum::Big;
use crate::bignum::big_val;
use crate::bignum::big_wf;
use crate::errors::VmError;
use crate::heap::EnvItem;
use crate::heap::GC;
use crate::heap::env_of;
use crate::heap::gc_wf;
use crate::heap::is_env;
use crate::heap::is_pair;
use crate::heap::is_str;
use crate::heap::pair_at;
use crate::heap::slots_store;
use crate::heap::str_of;
use crate::heap::valid;
use crate::heap::value_ok;
use crate::value::Prim;
use crate::value::Ptr;
use crate::value::Value;
use crate::value::abs_of;
use crate::value::AbsVal;
use crate::frame::chain_suffix;
use crate::vm::VM;
use crate::vm::keeps_below;
use crate::vm::lemma_covers_kinds;
use crate::vm::lemma_parts_preserved;
use crate::vm::lemma_same_kinds_kinds;
use crate::vm::vm_wf;
use vstd::prelude::*;

verus! {

/// How many primitives the base environment holds.
pub const PRIM_COUNT: usize = 28;

/// The primitive bound at each address of the base environment. Bytecode
/// addresses resolve against this fixed layout.
pub open spec fn prim_at(i: int) -> Prim {
    if i == 0 {
        Prim::Add
    } else if i == 1 {
        Prim::Min
    } else if i == 2 {
        Prim::Mul
    } else if i == 3 {
        Prim::Div
    } else if i == 4 {
        Prim::NumEq
    } else if i == 5 {
        Prim::IsEq
    } else if i == 6 {
        Prim::IsEqual
    } else if i == 7 {
        Prim::IsBoolean
    } else if i == 8 {
        Prim::IsNull
    } else if i == 9 {
        Prim::IsPair
    } else if i == 10 {
        Prim::IsProcedure
    } else if i == 11 {
        Prim::IsSymbol
    } else if i == 12 {
        Prim::IsNumber
    } else if i == 13 {
        Prim::SymbolToString
    } else if i == 14 {
        Prim::StringToSymbol
    } else if i == 15 {
        Prim::Cons
    } else if i == 16 {
        Prim::Car
    } else if i == 17 {
        Prim::Cdr
    } else if i == 18 {
        Prim::SetCar
    } else if i == 19 {
        Prim::SetCdr
    } else if i == 20 {
        Prim::List
    } else if i == 21 {
        Prim::IsList
    } else if i == 22 {
        Prim::MapList
    } else if i == 23 {
        Prim::FilterList
    } else if i == 24 {
        Prim::Display
    } else if i == 25 {
        Prim::Newline
    } else if i == 26 {
        Prim::Exit
    } else {
        Prim::Assertion
    }
}

/// The executable twin of `prim_at`.
pub fn prim_index(i: usize) -> (r: Prim)
    ensures
        r == prim_at(i as int),
{
    if i == 0 {
        Prim::Add
    } else if i == 1 {
        Prim::Min
    } else if i == 2 {
        Prim::Mul
    } else if i == 3 {
        Prim::Div
    } else if i == 4 {
        Prim::NumEq
    } else if i == 5 {
        Prim::IsEq
    } else if i == 6 {
        Prim::IsEqual
    } else if i == 7 {
        Prim::IsBoolean
    } else if i == 8 {
        Prim::IsNull
    } else if i == 9 {
        Prim::IsPair
    } else if i == 10 {
        Prim::IsProcedure
    } else if i == 11 {
        Prim::IsSymbol
    } else if i == 12 {
        Prim::IsNumber
    } else if i == 13 {
        Prim::SymbolToString
    } else if i == 14 {
        Prim::StringToSymbol
    } else if i == 15 {
        Prim::Cons
    } else if i == 16 {
        Prim::Car
    } else if i == 17 {
        Prim::Cdr
    } else if i == 18 {
        Prim::SetCar
    } else if i == 19 {
        Prim::SetCdr
    } else if i == 20 {
        Prim::List
    } else if i == 21 {
        Prim::IsList
    } else if i == 22 {
        Prim::MapList
    } else if i == 23 {
        Prim::FilterList
    } else if i == 24 {
        Prim::Display
    } else if i == 25 {
        Prim::Newline
    } else if i == 26 {
        Prim::Exit
    } else {
        Prim::Assertion
    }
}

/// Allocates the base environment: one slot per primitive, in the fixed
/// order bytecode addressing assumes.
pub fn env(gc: &mut GC) -> (r: Ptr)
    requires
        gc_wf(*old(gc)),
    ensures
        gc_wf(*final(gc)),
        is_env(final(gc).heap@, r.0 as int),
        env_of(final(gc).heap@, r.0 as int).capacity == PRIM_COUNT,
        env_of(final(gc).heap@, r.0 as int).next is None,
        env_of(final(gc).heap@, r.0 as int).values@.len() == PRIM_COUNT,
        forall|i: int|
            0 <= i < PRIM_COUNT ==> #[trigger] env_of(final(gc).heap@, r.0 as int).values@[i]
                == (EnvItem { defined: true, value: Value::Primitive(prim_at(i)) }),
        forall|b: int|
            valid(old(gc).heap@, b) ==> valid(final(gc).heap@, b) && final(gc).heap@[b] == old(
                gc,
            ).heap@[b],
        final(gc).interner == old(gc).interner,
        final(gc).current_mark == old(gc).current_mark,
{
    let ghost h0 = gc.heap@;
    let e = gc.alloc_env(PRIM_COUNT, None);
    let mut i: usize = 0;
    while i < PRIM_COUNT
        invariant
            gc_wf(*gc),
            is_env(gc.heap@, e.0 as int),
            env_of(gc.heap@, e.0 as int).capacity == PRIM_COUNT,
            env_of(gc.heap@, e.0 as int).next is None,
            i <= PRIM_COUNT,
            env_of(gc.heap@, e.0 as int).values@.len() == i,
            forall|k: int|
                0 <= k < i ==> #[trigger] env_of(gc.heap@, e.0 as int).values@[k] == (EnvItem {
                    defined: true,
                    value: Value::Primitive(prim_at(k)),
                }),
            !valid(h0, e.0 as int),
            forall|b: int| valid(h0, b) ==> valid(gc.heap@, b) && gc.heap@[b] == h0[b],
            gc.interner == old(gc).interner,
            gc.current_mark == old(gc).current_mark,
        decreases PRIM_COUNT - i,
    {
        let ghost s0 = env_of(gc.heap@, e.0 as int).values@;
        gc.env_store_local(e, i, Value::Primitive(prim_index(i)));
        proof {
            assert(slots_store(
                s0,
                i as int,
                Value::Primitive(prim_at(i as int)),
            ) =~= s0.push(EnvItem { defined: true, value: Value::Primitive(prim_at(i as int)) }));
        }
        i += 1;
    }
    e
}

/// The values a primitive call reads: the top `argc` stack entries, first
/// argument deepest.
pub open spec fn args_of(s: Seq<Value>, argc: int) -> Seq<Value> {
    s.skip(s.len() - argc)
}

/// The integer sum of a run of values: defined only when every value is a
/// number.
pub open spec fn nums_sum(s: Seq<Value>) -> Option<int>
    decreases s.len(),
{
    if s.len() == 0 {
        Some(0)
    } else {
        match s[0] {
            Value::Num(n) => match nums_sum(s.skip(1)) {
                Some(t) => Some(big_val(n) + t),
                None => None,
            },
            _ => None,
        }
    }
}

/// The integer product of a run of values.
pub open spec fn nums_prod(s: Seq<Value>) -> Option<int>
    decreases s.len(),
{
    if s.len() == 0 {
        Some(1)
    } else {
        match s[0] {
            Value::Num(n) => match nums_prod(s.skip(1)) {
                Some(t) => Some(big_val(n) * t),
                None => None,
            },
            _ => None,
        }
    }
}

impl VM {
    /// Reads one argument of a primitive call without disturbing the
    /// stack.
    pub fn arg(&self, argc: u8, i: u8) -> (r: Value)
        requires
            vm_wf(*self),
            i < argc,
            argc as int <= self.stack@.len(),
        ensures
            abs_of(r) == abs_of(self.stack@[self.stack@.len() - argc + i]),
            value_ok(self.gc.heap@, r),
    {
        let idx = self.stack.len() - argc as usize + i as usize;
        proof {
            assert(value_ok(self.gc.heap@, self.stack@[idx as int]));
        }
        let r = self.stack[idx].clone();
        proof {
            crate::heap::lemma_value_ok_abs(self.gc.heap@, self.stack@[idx as int], r);
        }
        r
    }
}

} // verus!
verus! {

/// Adds any number of numeric arguments; the sum of none is zero.
pub fn add(vm: &mut VM, argc: u8) -> (r: Result<Value, VmError>)
    requires
        vm_wf(*old(vm)),
    ensures
        *final(vm) == *old(vm),
        vm_wf(*final(vm)),
        argc as int > old(vm).stack@.len() ==> r == Err::<Value, VmError>(VmError::StackUnderflow),
        argc as int <= old(vm).stack@.len() ==> match nums_sum(
            args_of(old(vm).stack@, argc as int),
        ) {
            Some(t) => r is Ok && abs_of(r->Ok_0) == AbsVal::ANum(t) && value_ok(
                old(vm).gc.heap@,
                r->Ok_0,
            ),
            None => r == Err::<Value, VmError>(VmError::TypeMismatch),
        },
{
    if argc as usize > vm.stack.len() {
        return Err(VmError::StackUnderflow);
    }
    let ghost args = args_of(vm.stack@, argc as int);
    let mut acc = Big::zero();
    proof {
        assert(args.skip(0) =~= args);
    }
    let mut i: u8 = 0;
    while i < argc
        invariant
            vm_wf(*vm),
            *vm == *old(vm),
            i <= argc,
            argc as int <= vm.stack@.len(),
            args == args_of(vm.stack@, argc as int),
            args.len() == argc as int,
            big_wf(acc),
            match nums_sum(args.skip(i as int)) {
                Some(t) => nums_sum(args) == Some(big_val(acc) + t),
                None => nums_sum(args) is None,
            },
        decreases argc - i,
    {
        let v = vm.arg(argc, i);
        proof {
            assert(abs_of(v) == abs_of(args[i as int]));
            assert(args.skip(i as int)[0] == args[i as int]);
            assert(args.skip(i as int).skip(1) =~= args.skip(i as int + 1));
        }
        match v {
            Value::Num(n) => {
                proof {
                    assert(args[i as int] is Num);
                    assert(big_val(args[i as int]->Num_0) == big_val(n));
                }
                acc = acc.add_big(&n);
            },
            _ => {
                proof {
                    assert(!(args[i as int] is Num));
                    assert(nums_sum(args.skip(i as int)) is None);
                }
                return Err(VmError::TypeMismatch);
            },
        }
        i += 1;
    }
    proof {
        assert(args.skip(argc as int) =~= Seq::<Value>::empty());
        assert(nums_sum(args) == Some(big_val(acc) + 0));
    }
    Ok(Value::Num(acc))
}

/// Multiplies any number of numeric arguments; the product of none is
/// one.
pub fn mul(vm: &mut VM, argc: u8) -> (r: Result<Value, VmError>)
    requires
        vm_wf(*old(vm)),
    ensures
        *final(vm) == *old(vm),
        vm_wf(*final(vm)),
        argc as int > old(vm).stack@.len() ==> r == Err::<Value, VmError>(VmError::StackUnderflow),
        argc as int <= old(vm).stack@.len() ==> match nums_prod(
            args_of(old(vm).stack@, argc as int),
        ) {
            Some(t) => r is Ok && abs_of(r->Ok_0) == AbsVal::ANum(t) && value_ok(
                old(vm).gc.heap@,
                r->Ok_0,
            ),
            None => r == Err::<Value, VmError>(VmError::TypeMismatch),
        },
{
    if argc as usize > vm.stack.len() {
        return Err(VmError::StackUnderflow);
    }
    let ghost args = args_of(vm.stack@, argc as int);
    let mut acc = Big::one();
    proof {
        assert(args.skip(0) =~= args);
        if nums_prod(args) is Some {
            let t = nums_prod(args)->Some_0;
            assert(big_val(acc) * t == t) by (nonlinear_arith)
                requires
                    big_val(acc) == 1,
            ;
        }
    }
    let mut i: u8 = 0;
    while i < argc
        invariant
            vm_wf(*vm),
            *vm == *old(vm),
            i <= argc,
            argc as int <= vm.stack@.len(),
            args == args_of(vm.stack@, argc as int),
            args.len() == argc as int,
            big_wf(acc),
            match nums_prod(args.skip(i as int)) {
                Some(t) => nums_prod(args) == Some(big_val(acc) * t),
                None => nums_prod(args) is None,
            },
        decreases argc - i,
    {
        let v = vm.arg(argc, i);
        proof {
            assert(abs_of(v) == abs_of(args[i as int]));
            assert(args.skip(i as int)[0] == args[i as int]);
            assert(args.skip(i as int).skip(1) =~= args.skip(i as int + 1));
        }
        match v {
            Value::Num(n) => {
                proof {
                    assert(args[i as int] is Num);
                    let m = args[i as int]->Num_0;
                    assert(big_val(m) == big_val(n));
                    match nums_prod(args.skip(i as int + 1)) {
                        Some(t) => {
                            assert(nums_prod(args.skip(i as int)) == Some(big_val(n) * t));
                            assert(big_val(acc) * (big_val(n) * t) == (big_val(acc) * big_val(n))
                                * t) by (nonlinear_arith);
                        },
                        None => {},
                    }
                }
                acc = acc.mul_big(&n);
            },
            _ => {
                proof {
                    assert(!(args[i as int] is Num));
                }
                return Err(VmError::TypeMismatch);
            },
        }
        i += 1;
    }
    proof {
        assert(args.skip(argc as int) =~= Seq::<Value>::empty());
        assert(nums_prod(args) == Some(big_val(acc) * 1));
        assert(big_val(acc) * 1 == big_val(acc)) by (nonlinear_arith);
    }
    Ok(Value::Num(acc))
}

/// Negates a single numeric argument, or subtracts every later argument
/// from the first.
pub fn min(vm: &mut VM, argc: u8) -> (r: Result<Value, VmError>)
    requires
        vm_wf(*old(vm)),
    ensures
        *final(vm) == *old(vm),
        vm_wf(*final(vm)),
        argc == 0 ==> r == Err::<Value, VmError>(VmError::ArityMismatch),
        argc as int > old(vm).stack@.len() ==> r == Err::<Value, VmError>(VmError::StackUnderflow)
            || r == Err::<Value, VmError>(VmError::ArityMismatch),
        0 < argc as int <= old(vm).stack@.len() ==> ({
            let args = args_of(old(vm).stack@, argc as int);
            if !(args[0] is Num) {
                r == Err::<Value, VmError>(VmError::TypeMismatch)
            } else if argc == 1 {
                r is Ok && abs_of(r->Ok_0) == AbsVal::ANum(-big_val(args[0]->Num_0)) && value_ok(
                    old(vm).gc.heap@,
                    r->Ok_0,
                )
            } else {
                match nums_sum(args.skip(1)) {
                    Some(t) => r is Ok && abs_of(r->Ok_0) == AbsVal::ANum(
                        big_val(args[0]->Num_0) - t,
                    ) && value_ok(old(vm).gc.heap@, r->Ok_0),
                    None => r == Err::<Value, VmError>(VmError::TypeMismatch),
                }
            }
        }),
{
    if argc == 0 {
        return Err(VmError::ArityMismatch);
    }
    if argc as usize > vm.stack.len() {
        return Err(VmError::StackUnderflow);
    }
    let ghost args = args_of(vm.stack@, argc as int);
    let first = vm.arg(argc, 0);
    let first_n = match first {
        Value::Num(n) => n,
        _ => {
            return Err(VmError::TypeMismatch);
        },
    };
    if argc == 1 {
        let negated = first_n.neg_big();
        return Ok(Value::Num(negated));
    }
    let mut acc = first_n;
    let mut i: u8 = 1;
    while i < argc
        invariant
            vm_wf(*vm),
            *vm == *old(vm),
            1 <= i <= argc,
            argc as int <= vm.stack@.len(),
            args == args_of(vm.stack@, argc as int),
            args.len() == argc as int,
            args[0] is Num,
            big_wf(acc),
            match nums_sum(args.skip(i as int)) {
                Some(t) => Some(big_val(acc) - t) == Some(
                    big_val(args[0]->Num_0) - nums_sum(args.skip(1))->Some_0,
                ) && nums_sum(args.skip(1)) is Some,
                None => nums_sum(args.skip(1)) is None,
            },
        decreases argc - i,
    {
        let v = vm.arg(argc, i);
        proof {
            assert(abs_of(v) == abs_of(args[i as int]));
            assert(args.skip(i as int)[0] == args[i as int]);
            assert(args.skip(i as int).skip(1) =~= args.skip(i as int + 1));
        }
        match v {
            Value::Num(n) => {
                proof {
                    assert(args[i as int] is Num);
                    assert(big_val(args[i as int]->Num_0) == big_val(n));
                }
                acc = acc.sub_big(&n);
            },
            _ => {
                proof {
                    assert(!(args[i as int] is Num));
                }
                return Err(VmError::TypeMismatch);
            },
        }
        i += 1;
    }
    proof {
        assert(args.skip(argc as int) =~= Seq::<Value>::empty());
    }
    Ok(Value::Num(acc))
}

/// Division demands the exact-rational tower this runtime does not
/// provide; calling it is reported as a type mismatch.
pub fn div(vm: &mut VM, argc: u8) -> (r: Result<Value, VmError>)
    requires
        vm_wf(*old(vm)),
    ensures
        *final(vm) == *old(vm),
        vm_wf(*final(vm)),
        r == Err::<Value, VmError>(VmError::TypeMismatch),
{
    Err(VmError::TypeMismatch)
}

/// Whether every later numeric argument equals the first; a non-number
/// after a differing number is never reached, as the comparison stops at
/// the first difference.
pub open spec fn num_eq_chain(v: int, s: Seq<Value>) -> Option<bool>
    decreases s.len(),
{
    if s.len() == 0 {
        Some(true)
    } else {
        match s[0] {
            Value::Num(m) => if big_val(m) == v {
                num_eq_chain(v, s.skip(1))
            } else {
                Some(false)
            },
            _ => None,
        }
    }
}

/// Numeric equality over all arguments, the `=` primitive.
pub fn cmp(vm: &mut VM, argc: u8) -> (r: Result<Value, VmError>)
    requires
        vm_wf(*old(vm)),
    ensures
        *final(vm) == *old(vm),
        vm_wf(*final(vm)),
        argc == 0 ==> r == Err::<Value, VmError>(VmError::TypeMismatch),
        argc as int > old(vm).stack@.len() ==> r == Err::<Value, VmError>(VmError::StackUnderflow)
            || r == Err::<Value, VmError>(VmError::TypeMismatch),
        0 < argc as int <= old(vm).stack@.len() ==> ({
            let args = args_of(old(vm).stack@, argc as int);
            if !(args[0] is Num) {
                r == Err::<Value, VmError>(VmError::TypeMismatch)
            } else {
                match num_eq_chain(big_val(args[0]->Num_0), args.skip(1)) {
                    Some(b) => r == Ok::<Value, VmError>(Value::Bool(b)),
                    None => r == Err::<Value, VmError>(VmError::TypeMismatch),
                }
            }
        }),
{
    if argc == 0 {
        return Err(VmError::TypeMismatch);
    }
    if argc as usize > vm.stack.len() {
        return Err(VmError::StackUnderflow);
    }
    let ghost args = args_of(vm.stack@, argc as int);
    let first = vm.arg(argc, 0);
    let first_n = match first {
        Value::Num(n) => n,
        _ => {
            return Err(VmError::TypeMismatch);
        },
    };
    let ghost v0 = big_val(args[0]->Num_0);
    let mut i: u8 = 1;
    while i < argc
        invariant
            vm_wf(*vm),
            *vm == *old(vm),
            1 <= i <= argc,
            argc as int <= vm.stack@.len(),
            args == args_of(vm.stack@, argc as int),
            args.len() == argc as int,
            args[0] is Num,
            v0 == big_val(args[0]->Num_0),
            big_wf(first_n),
            big_val(first_n) == v0,
            num_eq_chain(v0, args.skip(1)) == num_eq_chain(v0, args.skip(i as int)),
        decreases argc - i,
    {
        let v = vm.arg(argc, i);
        proof {
            assert(abs_of(v) == abs_of(args[i as int]));
            assert(args.skip(i as int)[0] == args[i as int]);
            assert(args.skip(i as int).skip(1) =~= args.skip(i as int + 1));
        }
        match v {
            Value::Num(n) => {
                proof {
                    assert(args[i as int] is Num);
                    assert(big_val(args[i as int]->Num_0) == big_val(n));
                }
                if !first_n.eq_big(&n) {
                    return Ok(Value::Bool(false));
                }
            },
            _ => {
                proof {
                    assert(!(args[i as int] is Num));
                }
                return Err(VmError::TypeMismatch);
            },
        }
        i += 1;
    }
    proof {
        assert(args.skip(argc as int) =~= Seq::<Value>::empty());
    }
    Ok(Value::Bool(true))
}

} // verus!
verus! {

/// Physical equality, the `eq?` primitive.
pub fn eq(vm: &mut VM, argc: u8) -> (r: Result<Value, VmError>)
    requires
        vm_wf(*old(vm)),
    ensures
        *final(vm) == *old(vm),
        vm_wf(*final(vm)),
        argc != 2 ==> r == Err::<Value, VmError>(VmError::ArityMismatch),
        argc == 2 && argc as int > old(vm).stack@.len() ==> r == Err::<Value, VmError>(
            VmError::StackUnderflow,
        ),
        argc == 2 && argc as int <= old(vm).stack@.len() ==> ({
            let args = args_of(old(vm).stack@, 2);
            r is Ok && r->Ok_0 == Value::Bool(crate::heap::eqv(args[0], args[1]))
        }),
{
    if argc != 2 {
        return Err(VmError::ArityMismatch);
    }
    if argc as usize > vm.stack.len() {
        return Err(VmError::StackUnderflow);
    }
    let ghost args = args_of(vm.stack@, 2);
    let a = vm.arg(argc, 0);
    let b = vm.arg(argc, 1);
    proof {
        assert(abs_of(a) == abs_of(args[0]));
        assert(abs_of(b) == abs_of(args[1]));
    }
    let result = eq_values(&a, &b);
    proof {
        lemma_eqv_abs(a, args[0], b, args[1]);
    }
    Ok(Value::Bool(result))
}

/// Physical equality respects value shape: shape-equal operands compare
/// the same.
pub proof fn lemma_eqv_abs(a: Value, a2: Value, b: Value, b2: Value)
    requires
        abs_of(a) == abs_of(a2),
        abs_of(b) == abs_of(b2),
    ensures
        crate::heap::eqv(a, b) == crate::heap::eqv(a2, b2),
{
}

/// Compares two values physically: handles for the reference kinds,
/// values for numbers and scalars.
pub fn eq_values(a: &Value, b: &Value) -> (r: bool)
    requires
        crate::value::num_wf(*a),
        crate::value::num_wf(*b),
    ensures
        r == crate::heap::eqv(*a, *b),
{
    match (a, b) {
        (Value::Pair(p1), Value::Pair(p2)) => p1.0 == p2.0,
        (Value::Closure(c1), Value::Closure(c2)) => c1.0 == c2.0,
        (Value::Num(i), Value::Num(j)) => i.eq_big(j),
        (Value::Bool(x), Value::Bool(y)) => x == y,
        (Value::Symbol(s1), Value::Symbol(s2)) => s1.0 == s2.0,
        (Value::Str(s1), Value::Str(s2)) => s1.0 == s2.0,
        (Value::Null, Value::Null) => true,
        (Value::Unit, Value::Unit) => true,
        (Value::Primitive(p1), Value::Primitive(p2)) => p1 == p2,
        _ => false,
    }
}

/// Structural equality, the `equal?` primitive: recurses through pairs
/// and compares string contents, everything else physically. The
/// recursion carries a depth budget drawn from the machine's remaining
/// step budget; only a structure deeper than that budget (in particular
/// a cycle) is reported as the budget error — the result is otherwise
/// exactly the structural-equality reading.
pub fn equal(vm: &mut VM, argc: u8) -> (r: Result<Value, VmError>)
    requires
        vm_wf(*old(vm)),
    ensures
        *final(vm) == *old(vm),
        vm_wf(*final(vm)),
        argc != 2 ==> r == Err::<Value, VmError>(VmError::ArityMismatch),
        argc == 2 && argc as int > old(vm).stack@.len() ==> r == Err::<Value, VmError>(
            VmError::StackUnderflow,
        ),
        argc == 2 && argc as int <= old(vm).stack@.len() ==> ({
            let args = args_of(old(vm).stack@, 2);
            match crate::heap::struct_eq(
                old(vm).gc.heap@,
                args[0],
                args[1],
                old(vm).fuel as nat,
            ) {
                Some(bv) => r == Ok::<Value, VmError>(Value::Bool(bv)),
                None => r == Err::<Value, VmError>(VmError::RecursionLimit),
            }
        }),
{
    if argc != 2 {
        return Err(VmError::ArityMismatch);
    }
    if argc as usize > vm.stack.len() {
        return Err(VmError::StackUnderflow);
    }
    let ghost args = args_of(vm.stack@, 2);
    let a = vm.arg(argc, 0);
    let b = vm.arg(argc, 1);
    let d = vm.fuel;
    proof {
        crate::heap::lemma_struct_eq_abs(vm.gc.heap@, args[0], a, args[1], b, d as nat);
    }
    match equal_rec(&vm.gc, &a, &b, d) {
        Ok(bv) => Ok(Value::Bool(bv)),
        Err(e) => Err(e),
    }
}

/// The recursive worker of `equal?`: compares up to `d` levels of pair
/// structure; the budget error comes exactly when the structure is
/// deeper than `d`.
fn equal_rec(gc: &crate::heap::GC, a: &Value, b: &Value, d: u64) -> (r: Result<bool, VmError>)
    requires
        crate::heap::gc_wf(*gc),
        value_ok(gc.heap@, *a),
        value_ok(gc.heap@, *b),
    ensures
        match crate::heap::struct_eq(gc.heap@, *a, *b, d as nat) {
            Some(bv) => r == Ok::<bool, VmError>(bv),
            None => r == Err::<bool, VmError>(VmError::RecursionLimit),
        },
    decreases d,
{
    match (a, b) {
        (Value::Pair(p1), Value::Pair(p2)) => {
            if d == 0 {
                return Err(VmError::RecursionLimit);
            }
            let pr1 = gc.pair(*p1);
            let car1 = pr1.car.clone();
            let cdr1 = pr1.cdr.clone();
            let pr2 = gc.pair(*p2);
            let car2 = pr2.car.clone();
            let cdr2 = pr2.cdr.clone();
            proof {
                let h = gc.heap@;
                assert(crate::heap::cell_ok(h, crate::heap::data_at(h, p1.0 as int)));
                assert(crate::heap::cell_ok(h, crate::heap::data_at(h, p2.0 as int)));
                crate::heap::lemma_value_ok_abs(h, pair_at(h, p1.0 as int).car, car1);
                crate::heap::lemma_value_ok_abs(h, pair_at(h, p1.0 as int).cdr, cdr1);
                crate::heap::lemma_value_ok_abs(h, pair_at(h, p2.0 as int).car, car2);
                crate::heap::lemma_value_ok_abs(h, pair_at(h, p2.0 as int).cdr, cdr2);
                crate::heap::lemma_struct_eq_abs(
                    h,
                    pair_at(h, p1.0 as int).car,
                    car1,
                    pair_at(h, p2.0 as int).car,
                    car2,
                    (d - 1) as nat,
                );
                crate::heap::lemma_struct_eq_abs(
                    h,
                    pair_at(h, p1.0 as int).cdr,
                    cdr1,
                    pair_at(h, p2.0 as int).cdr,
                    cdr2,
                    (d - 1) as nat,
                );
            }
            let r1 = match equal_rec(gc, &car1, &car2, d - 1) {
                Ok(bv) => bv,
                Err(e) => {
                    return Err(e);
                },
            };
            if !r1 {
                return Ok(false);
            }
            equal_rec(gc, &cdr1, &cdr2, d - 1)
        },
        (Value::Str(s1), Value::Str(s2)) => {
            let c1 = gc.str(*s1);
            let eq_contents = {
                let c2 = gc.str(*s2);
                crate::heap::bytes_eq(&c1.contents, &c2.contents)
            };
            Ok(eq_contents)
        },
        _ => Ok(eq_values(a, b)),
    }
}

} // verus!
verus! {

/// The single argument of a one-argument primitive, or the arity error.
fn one_arg(vm: &VM, argc: u8) -> (r: Result<Value, VmError>)
    requires
        vm_wf(*vm),
    ensures
        argc != 1 ==> r == Err::<Value, VmError>(VmError::ArityMismatch),
        argc == 1 && 1 > vm.stack@.len() ==> r == Err::<Value, VmError>(VmError::StackUnderflow),
        argc == 1 && 1 <= vm.stack@.len() ==> r is Ok && abs_of(r->Ok_0) == abs_of(
            vm.stack@[vm.stack@.len() - 1],
        ) && value_ok(vm.gc.heap@, r->Ok_0),
{
    if argc != 1 {
        return Err(VmError::ArityMismatch);
    }
    if vm.stack.len() < 1 {
        return Err(VmError::StackUnderflow);
    }
    Ok(vm.arg(1, 0))
}

/// The `boolean?` predicate.
pub fn boolean(vm: &mut VM, argc: u8) -> (r: Result<Value, VmError>)
    requires
        vm_wf(*old(vm)),
    ensures
        *final(vm) == *old(vm),
        vm_wf(*final(vm)),
        argc == 1 && 1 <= old(vm).stack@.len() ==> r == Ok::<Value, VmError>(
            Value::Bool(old(vm).stack@[old(vm).stack@.len() - 1] is Bool),
        ),
        argc != 1 ==> r == Err::<Value, VmError>(VmError::ArityMismatch),
        argc == 1 && old(vm).stack@.len() < 1 ==> r == Err::<Value, VmError>(
            VmError::StackUnderflow,
        ),
{
    let v = match one_arg(vm, argc) {
        Ok(v) => v,
        Err(e) => {
            return Err(e);
        },
    };
    Ok(Value::Bool(match v {
        Value::Bool(_) => true,
        _ => false,
    }))
}

/// The `null?` predicate.
pub fn null(vm: &mut VM, argc: u8) -> (r: Result<Value, VmError>)
    requires
        vm_wf(*old(vm)),
    ensures
        *final(vm) == *old(vm),
        vm_wf(*final(vm)),
        argc == 1 && 1 <= old(vm).stack@.len() ==> r == Ok::<Value, VmError>(
            Value::Bool(old(vm).stack@[old(vm).stack@.len() - 1] is Null),
        ),
        argc != 1 ==> r == Err::<Value, VmError>(VmError::ArityMismatch),
        argc == 1 && old(vm).stack@.len() < 1 ==> r == Err::<Value, VmError>(
            VmError::StackUnderflow,
        ),
{
    let v = match one_arg(vm, argc) {
        Ok(v) => v,
        Err(e) => {
            return Err(e);
        },
    };
    Ok(Value::Bool(match v {
        Value::Null => true,
        _ => false,
    }))
}

/// The `pair?` predicate.
pub fn pair(vm: &mut VM, argc: u8) -> (r: Result<Value, VmError>)
    requires
        vm_wf(*old(vm)),
    ensures
        *final(vm) == *old(vm),
        vm_wf(*final(vm)),
        argc == 1 && 1 <= old(vm).stack@.len() ==> r == Ok::<Value, VmError>(
            Value::Bool(old(vm).stack@[old(vm).stack@.len() - 1] is Pair),
        ),
        argc != 1 ==> r == Err::<Value, VmError>(VmError::ArityMismatch),
        argc == 1 && old(vm).stack@.len() < 1 ==> r == Err::<Value, VmError>(
            VmError::StackUnderflow,
        ),
{
    let v = match one_arg(vm, argc) {
        Ok(v) => v,
        Err(e) => {
            return Err(e);
        },
    };
    Ok(Value::Bool(match v {
        Value::Pair(_) => true,
        _ => false,
    }))
}

/// The `procedure?` predicate: closures and primitives alike.
pub fn procedure(vm: &mut VM, argc: u8) -> (r: Result<Value, VmError>)
    requires
        vm_wf(*old(vm)),
    ensures
        *final(vm) == *old(vm),
        vm_wf(*final(vm)),
        argc == 1 && 1 <= old(vm).stack@.len() ==> r == Ok::<Value, VmError>(
            Value::Bool(
                (old(vm).stack@[old(vm).stack@.len() - 1] is Closure) || (old(vm).stack@[old(
                    vm,
                ).stack@.len() - 1] is Primitive),
            ),
        ),
        argc != 1 ==> r == Err::<Value, VmError>(VmError::ArityMismatch),
        argc == 1 && old(vm).stack@.len() < 1 ==> r == Err::<Value, VmError>(
            VmError::StackUnderflow,
        ),
{
    let v = match one_arg(vm, argc) {
        Ok(v) => v,
        Err(e) => {
            return Err(e);
        },
    };
    Ok(Value::Bool(match v {
        Value::Closure(_) => true,
        Value::Primitive(_) => true,
        _ => false,
    }))
}

/// The `symbol?` predicate.
pub fn symbol(vm: &mut VM, argc: u8) -> (r: Result<Value, VmError>)
    requires
        vm_wf(*old(vm)),
    ensures
        *final(vm) == *old(vm),
        vm_wf(*final(vm)),
        argc == 1 && 1 <= old(vm).stack@.len() ==> r == Ok::<Value, VmError>(
            Value::Bool(old(vm).stack@[old(vm).stack@.len() - 1] is Symbol),
        ),
        argc != 1 ==> r == Err::<Value, VmError>(VmError::ArityMismatch),
        argc == 1 && old(vm).stack@.len() < 1 ==> r == Err::<Value, VmError>(
            VmError::StackUnderflow,
        ),
{
    let v = match one_arg(vm, argc) {
        Ok(v) => v,
        Err(e) => {
            return Err(e);
        },
    };
    Ok(Value::Bool(match v {
        Value::Symbol(_) => true,
        _ => false,
    }))
}

/// The `number?` predicate.
pub fn number(vm: &mut VM, argc: u8) -> (r: Result<Value, VmError>)
    requires
        vm_wf(*old(vm)),
    ensures
        *final(vm) == *old(vm),
        vm_wf(*final(vm)),
        argc == 1 && 1 <= old(vm).stack@.len() ==> r == Ok::<Value, VmError>(
            Value::Bool(old(vm).stack@[old(vm).stack@.len() - 1] is Num),
        ),
        argc != 1 ==> r == Err::<Value, VmError>(VmError::ArityMismatch),
        argc == 1 && old(vm).stack@.len() < 1 ==> r == Err::<Value, VmError>(
            VmError::StackUnderflow,
        ),
{
    let v = match one_arg(vm, argc) {
        Ok(v) => v,
        Err(e) => {
            return Err(e);
        },
    };
    Ok(Value::Bool(match v {
        Value::Num(_) => true,
        _ => false,
    }))
}

/// `symbol->string`: the same interned cell, seen as a string.
pub fn symbol_to_string(vm: &mut VM, argc: u8) -> (r: Result<Value, VmError>)
    requires
        vm_wf(*old(vm)),
    ensures
        *final(vm) == *old(vm),
        vm_wf(*final(vm)),
        argc != 1 ==> r == Err::<Value, VmError>(VmError::ArityMismatch),
        argc == 1 && old(vm).stack@.len() < 1 ==> r == Err::<Value, VmError>(
            VmError::StackUnderflow,
        ),
        argc == 1 && 1 <= old(vm).stack@.len() ==> ({
            let v = old(vm).stack@[old(vm).stack@.len() - 1];
            match v {
                Value::Symbol(h) => r == Ok::<Value, VmError>(Value::Str(h)),
                _ => r == Err::<Value, VmError>(VmError::TypeMismatch),
            }
        }),
{
    let v = match one_arg(vm, argc) {
        Ok(v) => v,
        Err(e) => {
            return Err(e);
        },
    };
    match v {
        Value::Symbol(h) => Ok(Value::Str(h)),
        _ => Err(VmError::TypeMismatch),
    }
}

/// `string->symbol`: interns the string's contents and hands back the
/// canonical symbol for them.
pub fn string_to_symbol(vm: &mut VM, argc: u8) -> (r: Result<Value, VmError>)
    requires
        vm_wf(*old(vm)),
    ensures
        vm_wf(*final(vm)),
        final(vm).frame == old(vm).frame,
        final(vm).stack == old(vm).stack,
        final(vm).modules == old(vm).modules,
        final(vm).out == old(vm).out,
        final(vm).fuel == old(vm).fuel,
        final(vm).counter == old(vm).counter,
        final(vm).nframes == old(vm).nframes,
        argc != 1 ==> r == Err::<Value, VmError>(VmError::ArityMismatch) && *final(vm) == *old(
            vm,
        ),
        argc == 1 && old(vm).stack@.len() < 1 ==> r == Err::<Value, VmError>(
            VmError::StackUnderflow,
        ) && *final(vm) == *old(vm),
        argc == 1 && 1 <= old(vm).stack@.len() ==> ({
            let v = old(vm).stack@[old(vm).stack@.len() - 1];
            match v {
                Value::Str(h) => r is Ok && (r->Ok_0 is Symbol) && is_str(
                    final(vm).gc.heap@,
                    r->Ok_0->Symbol_0.0 as int,
                ) && str_of(final(vm).gc.heap@, r->Ok_0->Symbol_0.0 as int).contents@ == str_of(
                    old(vm).gc.heap@,
                    h.0 as int,
                ).contents@ && crate::heap::rset(final(vm).gc.interner@).contains(
                    r->Ok_0->Symbol_0.0 as int,
                )
                // the old heap cells and interner entries all survive, so
                // a handle interned earlier for the same contents is
                // exactly the handle returned here
                && (forall|bb: int|
                    crate::heap::valid(old(vm).gc.heap@, bb) ==> crate::heap::valid(
                        final(vm).gc.heap@,
                        bb,
                    ) && final(vm).gc.heap@[bb] == old(vm).gc.heap@[bb]) && final(vm).gc.interner@.len() >= old(vm).gc.interner@.len() && (forall|k: int|
                    0 <= k < old(vm).gc.interner@.len() ==> final(vm).gc.interner@[k] == old(
                        vm,
                    ).gc.interner@[k]) && (forall|k: int|
                    0 <= k < old(vm).gc.interner@.len() && crate::heap::str_of(
                        old(vm).gc.heap@,
                        (#[trigger] old(vm).gc.interner@[k]).0 as int,
                    ).contents@ == crate::heap::str_of(old(vm).gc.heap@, h.0 as int).contents@
                        ==> r->Ok_0->Symbol_0 == old(vm).gc.interner@[k]),
                _ => r == Err::<Value, VmError>(VmError::TypeMismatch) && *final(vm) == *old(vm),
            }
        }),
{
    let v = match one_arg(vm, argc) {
        Ok(v) => v,
        Err(e) => {
            return Err(e);
        },
    };
    match v {
        Value::Str(h) => {
            let ghost h0 = vm.gc.heap@;
            let contents = {
                let sc = vm.gc.str(h);
                let mut copy: Vec<u8> = Vec::new();
                let n = sc.contents.len();
                let mut i: usize = 0;
                while i < n
                    invariant
                        i <= n,
                        n == sc.contents@.len(),
                        copy@.len() == i,
                        forall|k: int| 0 <= k < i ==> copy@[k] == sc.contents@[k],
                    decreases n - i,
                {
                    copy.push(sc.contents[i]);
                    i += 1;
                }
                proof {
                    assert(copy@ =~= sc.contents@);
                }
                copy
            };
            let sym = vm.gc.intern(contents);
            proof {
                lemma_covers_kinds(h0, vm.gc.heap@);
                lemma_parts_preserved(h0, vm.gc.heap@, *vm.frame, vm.stack@, vm.modules@);
            }
            Ok(Value::Symbol(sym))
        },
        _ => Err(VmError::TypeMismatch),
    }
}

/// `cons`: a fresh mutable pair of the two arguments.
pub fn cons(vm: &mut VM, argc: u8) -> (r: Result<Value, VmError>)
    requires
        vm_wf(*old(vm)),
    ensures
        vm_wf(*final(vm)),
        final(vm).frame == old(vm).frame,
        final(vm).stack == old(vm).stack,
        final(vm).modules == old(vm).modules,
        final(vm).out == old(vm).out,
        final(vm).fuel == old(vm).fuel,
        final(vm).counter == old(vm).counter,
        final(vm).nframes == old(vm).nframes,
        argc != 2 ==> r == Err::<Value, VmError>(VmError::ArityMismatch) && *final(vm) == *old(
            vm,
        ),
        argc == 2 && old(vm).stack@.len() < 2 ==> r == Err::<Value, VmError>(
            VmError::StackUnderflow,
        ) && *final(vm) == *old(vm),
        argc == 2 && 2 <= old(vm).stack@.len() ==> ({
            let args = args_of(old(vm).stack@, 2);
            &&& r is Ok
            &&& r->Ok_0 is Pair
            &&& is_pair(final(vm).gc.heap@, r->Ok_0->Pair_0.0 as int)
            &&& abs_of(pair_at(final(vm).gc.heap@, r->Ok_0->Pair_0.0 as int).car) == abs_of(
                args[0],
            )
            &&& abs_of(pair_at(final(vm).gc.heap@, r->Ok_0->Pair_0.0 as int).cdr) == abs_of(
                args[1],
            )
            // the new pair is fresh; every other heap cell is untouched
            &&& !crate::heap::valid(old(vm).gc.heap@, r->Ok_0->Pair_0.0 as int)
            &&& forall|bb: int|
                crate::heap::valid(old(vm).gc.heap@, bb) ==> final(vm).gc.heap@[bb] == old(
                    vm,
                ).gc.heap@[bb]
        }),
{
    if argc != 2 {
        return Err(VmError::ArityMismatch);
    }
    if vm.stack.len() < 2 {
        return Err(VmError::StackUnderflow);
    }
    let a = vm.arg(2, 0);
    let b = vm.arg(2, 1);
    let ghost h0 = vm.gc.heap@;
    let p = vm.gc.alloc_pair(a, b);
    proof {
        lemma_covers_kinds(h0, vm.gc.heap@);
        lemma_parts_preserved(h0, vm.gc.heap@, *vm.frame, vm.stack@, vm.modules@);
    }
    Ok(Value::Pair(p))
}

/// `car`: the head of a pair.
pub fn car(vm: &mut VM, argc: u8) -> (r: Result<Value, VmError>)
    requires
        vm_wf(*old(vm)),
    ensures
        *final(vm) == *old(vm),
        vm_wf(*final(vm)),
        argc != 1 ==> r == Err::<Value, VmError>(VmError::ArityMismatch),
        argc == 1 && old(vm).stack@.len() < 1 ==> r == Err::<Value, VmError>(
            VmError::StackUnderflow,
        ),
        argc == 1 && 1 <= old(vm).stack@.len() ==> ({
            let v = old(vm).stack@[old(vm).stack@.len() - 1];
            match v {
                Value::Pair(p) => r is Ok && abs_of(r->Ok_0) == abs_of(
                    pair_at(old(vm).gc.heap@, p.0 as int).car,
                ) && value_ok(old(vm).gc.heap@, r->Ok_0),
                _ => r == Err::<Value, VmError>(VmError::TypeMismatch),
            }
        }),
{
    let v = match one_arg(vm, argc) {
        Ok(v) => v,
        Err(e) => {
            return Err(e);
        },
    };
    match v {
        Value::Pair(p) => {
            let pr = vm.gc.pair(p);
            let c = pr.car.clone();
            proof {
                assert(crate::heap::cell_ok(
                    vm.gc.heap@,
                    crate::heap::data_at(vm.gc.heap@, p.0 as int),
                ));
                crate::heap::lemma_value_ok_abs(
                    vm.gc.heap@,
                    pair_at(vm.gc.heap@, p.0 as int).car,
                    c,
                );
            }
            Ok(c)
        },
        _ => Err(VmError::TypeMismatch),
    }
}

/// `cdr`: the tail of a pair.
pub fn cdr(vm: &mut VM, argc: u8) -> (r: Result<Value, VmError>)
    requires
        vm_wf(*old(vm)),
    ensures
        *final(vm) == *old(vm),
        vm_wf(*final(vm)),
        argc != 1 ==> r == Err::<Value, VmError>(VmError::ArityMismatch),
        argc == 1 && old(vm).stack@.len() < 1 ==> r == Err::<Value, VmError>(
            VmError::StackUnderflow,
        ),
        argc == 1 && 1 <= old(vm).stack@.len() ==> ({
            let v = old(vm).stack@[old(vm).stack@.len() - 1];
            match v {
                Value::Pair(p) => r is Ok && abs_of(r->Ok_0) == abs_of(
                    pair_at(old(vm).gc.heap@, p.0 as int).cdr,
                ) && value_ok(old(vm).gc.heap@, r->Ok_0),
                _ => r == Err::<Value, VmError>(VmError::TypeMismatch),
            }
        }),
{
    let v = match one_arg(vm, argc) {
        Ok(v) => v,
        Err(e) => {
            return Err(e);
        },
    };
    match v {
        Value::Pair(p) => {
            let pr = vm.gc.pair(p);
            let c = pr.cdr.clone();
            proof {
                assert(crate::heap::cell_ok(
                    vm.gc.heap@,
                    crate::heap::data_at(vm.gc.heap@, p.0 as int),
                ));
                crate::heap::lemma_value_ok_abs(
                    vm.gc.heap@,
                    pair_at(vm.gc.heap@, p.0 as int).cdr,
                    c,
                );
            }
            Ok(c)
        },
        _ => Err(VmError::TypeMismatch),
    }
}

/// `set-car!`: replaces the head of a pair in place.
pub fn setcar(vm: &mut VM, argc: u8) -> (r: Result<Value, VmError>)
    requires
        vm_wf(*old(vm)),
    ensures
        vm_wf(*final(vm)),
        final(vm).frame == old(vm).frame,
        final(vm).stack == old(vm).stack,
        final(vm).modules == old(vm).modules,
        final(vm).out == old(vm).out,
        final(vm).fuel == old(vm).fuel,
        final(vm).counter == old(vm).counter,
        final(vm).nframes == old(vm).nframes,
        argc != 2 ==> r == Err::<Value, VmError>(VmError::ArityMismatch) && *final(vm) == *old(
            vm,
        ),
        argc == 2 && old(vm).stack@.len() < 2 ==> r == Err::<Value, VmError>(
            VmError::StackUnderflow,
        ) && *final(vm) == *old(vm),
        argc == 2 && 2 <= old(vm).stack@.len() ==> ({
            let args = args_of(old(vm).stack@, 2);
            match args[0] {
                Value::Pair(p) => r == Ok::<Value, VmError>(Value::Unit) && abs_of(
                    pair_at(final(vm).gc.heap@, p.0 as int).car,
                ) == abs_of(args[1]) && pair_at(final(vm).gc.heap@, p.0 as int).cdr == pair_at(
                    old(vm).gc.heap@,
                    p.0 as int,
                ).cdr && (forall|bb: int|
                    crate::heap::valid(old(vm).gc.heap@, bb) && bb != p.0 as int ==> final(vm).gc.heap@[bb] == old(vm).gc.heap@[bb]),
                _ => r == Err::<Value, VmError>(VmError::TypeMismatch) && *final(vm) == *old(vm),
            }
        }),
{
    if argc != 2 {
        return Err(VmError::ArityMismatch);
    }
    if vm.stack.len() < 2 {
        return Err(VmError::StackUnderflow);
    }
    let a = vm.arg(2, 0);
    let b = vm.arg(2, 1);
    match a {
        Value::Pair(p) => {
            let ghost h0 = vm.gc.heap@;
            vm.gc.set_car(p, b);
            proof {
                lemma_same_kinds_kinds(h0, vm.gc.heap@);
                lemma_parts_preserved(h0, vm.gc.heap@, *vm.frame, vm.stack@, vm.modules@);
            }
            Ok(Value::Unit)
        },
        _ => Err(VmError::TypeMismatch),
    }
}

/// `set-cdr!`: replaces the tail of a pair in place.
pub fn setcdr(vm: &mut VM, argc: u8) -> (r: Result<Value, VmError>)
    requires
        vm_wf(*old(vm)),
    ensures
        vm_wf(*final(vm)),
        final(vm).frame == old(vm).frame,
        final(vm).stack == old(vm).stack,
        final(vm).modules == old(vm).modules,
        final(vm).out == old(vm).out,
        final(vm).fuel == old(vm).fuel,
        final(vm).counter == old(vm).counter,
        final(vm).nframes == old(vm).nframes,
        argc != 2 ==> r == Err::<Value, VmError>(VmError::ArityMismatch) && *final(vm) == *old(
            vm,
        ),
        argc == 2 && old(vm).stack@.len() < 2 ==> r == Err::<Value, VmError>(
            VmError::StackUnderflow,
        ) && *final(vm) == *old(vm),
        argc == 2 && 2 <= old(vm).stack@.len() ==> ({
            let args = args_of(old(vm).stack@, 2);
            match args[0] {
                Value::Pair(p) => r == Ok::<Value, VmError>(Value::Unit) && abs_of(
                    pair_at(final(vm).gc.heap@, p.0 as int).cdr,
                ) == abs_of(args[1]) && pair_at(final(vm).gc.heap@, p.0 as int).car == pair_at(
                    old(vm).gc.heap@,
                    p.0 as int,
                ).car && (forall|bb: int|
                    crate::heap::valid(old(vm).gc.heap@, bb) && bb != p.0 as int ==> final(vm).gc.heap@[bb] == old(vm).gc.heap@[bb]),
                _ => r == Err::<Value, VmError>(VmError::TypeMismatch) && *final(vm) == *old(vm),
            }
        }),
{
    if argc != 2 {
        return Err(VmError::ArityMismatch);
    }
    if vm.stack.len() < 2 {
        return Err(VmError::StackUnderflow);
    }
    let a = vm.arg(2, 0);
    let b = vm.arg(2, 1);
    match a {
        Value::Pair(p) => {
            let ghost h0 = vm.gc.heap@;
            vm.gc.set_cdr(p, b);
            proof {
                lemma_same_kinds_kinds(h0, vm.gc.heap@);
                lemma_parts_preserved(h0, vm.gc.heap@, *vm.frame, vm.stack@, vm.modules@);
            }
            Ok(Value::Unit)
        },
        _ => Err(VmError::TypeMismatch),
    }
}

/// The shapes of a run of values, in order.
pub open spec fn abs_seq(s: Seq<Value>) -> Seq<AbsVal> {
    Seq::new(s.len(), |i: int| abs_of(s[i]))
}

/// `list`: a fresh proper list of the arguments, in order.
pub fn list(vm: &mut VM, argc: u8) -> (r: Result<Value, VmError>)
    requires
        vm_wf(*old(vm)),
    ensures
        vm_wf(*final(vm)),
        final(vm).frame == old(vm).frame,
        final(vm).stack == old(vm).stack,
        final(vm).modules == old(vm).modules,
        final(vm).out == old(vm).out,
        final(vm).fuel == old(vm).fuel,
        final(vm).counter == old(vm).counter,
        final(vm).nframes == old(vm).nframes,
        argc as int > old(vm).stack@.len() ==> r == Err::<Value, VmError>(VmError::StackUnderflow)
            && *final(vm) == *old(vm),
        argc as int <= old(vm).stack@.len() ==> (forall|bb: int|
            crate::heap::valid(old(vm).gc.heap@, bb) ==> final(vm).gc.heap@[bb] == old(
                vm,
            ).gc.heap@[bb]),
        argc as int <= old(vm).stack@.len() ==> r is Ok && value_ok(final(vm).gc.heap@, r->Ok_0)
            && crate::heap::list_elems(final(vm).gc.heap@, r->Ok_0, argc as nat + 1) == Some(
            abs_seq(args_of(old(vm).stack@, argc as int)),
        ),
{
    if argc as usize > vm.stack.len() {
        return Err(VmError::StackUnderflow);
    }
    let ghost args = args_of(vm.stack@, argc as int);
    let base = vm.stack.len() - argc as usize;
    let mut ret = Value::Null;
    let mut i: usize = vm.stack.len();
    proof {
        assert(crate::heap::list_elems(vm.gc.heap@, ret, 1) =~= Some(
            abs_seq(args.skip(argc as int)),
        ));
    }
    while i > base
        invariant
            vm_wf(*vm),
            vm.frame == old(vm).frame,
            vm.stack == old(vm).stack,
            vm.modules == old(vm).modules,
            vm.out == old(vm).out,
            vm.fuel == old(vm).fuel,
            vm.counter == old(vm).counter,
            vm.nframes == old(vm).nframes,
            base <= i <= vm.stack@.len(),
            argc as int <= vm.stack@.len(),
            base == vm.stack@.len() - argc,
            args == args_of(vm.stack@, argc as int),
            forall|bb: int|
                crate::heap::valid(old(vm).gc.heap@, bb) ==> vm.gc.heap@[bb] == old(
                    vm,
                ).gc.heap@[bb] && crate::heap::valid(vm.gc.heap@, bb),
            value_ok(vm.gc.heap@, ret),
            crate::heap::list_elems(vm.gc.heap@, ret, (vm.stack@.len() - i) as nat + 1) == Some(
                abs_seq(args.skip(i - base)),
            ),
        decreases i,
    {
        i -= 1;
        proof {
            assert(value_ok(vm.gc.heap@, vm.stack@[i as int]));
        }
        let v = vm.stack[i].clone();
        proof {
            crate::heap::lemma_value_ok_abs(vm.gc.heap@, vm.stack@[i as int], v);
        }
        let ghost h0 = vm.gc.heap@;
        let ghost old_ret = ret;
        let ghost old_fuel = (vm.stack@.len() - i - 1) as nat + 1;
        let p = vm.gc.alloc_pair(v, ret);
        ret = Value::Pair(p);
        proof {
            lemma_covers_kinds(h0, vm.gc.heap@);
            lemma_parts_preserved(h0, vm.gc.heap@, *vm.frame, vm.stack@, vm.modules@);
            crate::heap::lemma_list_elems_frame(h0, vm.gc.heap@, old_ret, old_fuel);
            let h = vm.gc.heap@;
            let fuel = (vm.stack@.len() - i) as nat + 1;
            assert(crate::heap::pair_at(h, p.0 as int).cdr == old_ret);
            assert(crate::heap::list_elems(h, old_ret, (fuel - 1) as nat) == Some(
                abs_seq(args.skip(i + 1 - base)),
            ));
            assert(abs_of(crate::heap::pair_at(h, p.0 as int).car) == abs_of(
                args[i - base],
            ));
            assert(crate::heap::list_elems(h, ret, fuel) =~= Some(
                abs_seq(args.skip(i - base)),
            )) by {
                assert(seq![abs_of(crate::heap::pair_at(h, p.0 as int).car)] + abs_seq(
                    args.skip(i + 1 - base),
                ) =~= abs_seq(args.skip(i - base)));
            }
        }
    }
    proof {
        assert(args.skip(0) =~= args);
    }
    Ok(ret)
}

/// `list?`: walks the tail chain; a chain longer than the heap must
/// revisit a cell, so it is cyclic and not a proper list. A true answer
/// comes with the guarantee that the argument reads as a proper list.
pub fn is_list(vm: &mut VM, argc: u8) -> (r: Result<Value, VmError>)
    requires
        vm_wf(*old(vm)),
    ensures
        *final(vm) == *old(vm),
        vm_wf(*final(vm)),
        argc != 1 ==> r == Err::<Value, VmError>(VmError::ArityMismatch),
        argc == 1 && old(vm).stack@.len() < 1 ==> r == Err::<Value, VmError>(
            VmError::StackUnderflow,
        ),
        argc == 1 && 1 <= old(vm).stack@.len() ==> r is Ok && r->Ok_0 is Bool && (r->Ok_0
            == Value::Bool(true) <==> crate::heap::is_proper_list(
            old(vm).gc.heap@,
            old(vm).stack@[old(vm).stack@.len() - 1],
        )),
{
    let v = match one_arg(vm, argc) {
        Ok(v) => v,
        Err(e) => {
            return Err(e);
        },
    };
    let ghost arg0 = old(vm).stack@[old(vm).stack@.len() - 1];
    let ghost v0 = v;
    let mut cur = v;
    let mut fuel = vm.gc.heap.len();
    let ghost mut path: Seq<int> = Seq::empty();
    loop
        invariant
            vm_wf(*vm),
            *vm == *old(vm),
            argc == 1,
            1 <= old(vm).stack@.len(),
            arg0 == old(vm).stack@[old(vm).stack@.len() - 1],
            abs_of(v0) == abs_of(arg0),
            value_ok(vm.gc.heap@, cur),
            crate::heap::cdr_chain(vm.gc.heap@, path, v0, cur),
            path.len() + fuel == vm.gc.heap@.len(),
            forall|i: int|
                0 <= i < path.len() ==> crate::heap::is_pair(vm.gc.heap@, #[trigger] path[i]),
        decreases fuel,
    {
        match cur {
            Value::Null => {
                proof {
                    let h = vm.gc.heap@;
                    assert(crate::heap::list_elems(h, cur, 1) is Some);
                    crate::heap::lemma_cdr_chain_elems(h, path, v0, cur, 1);
                    crate::heap::lemma_list_elems_abs(h, v0, arg0, path.len() + 1);
                    assert(crate::heap::list_elems(
                        old(vm).gc.heap@,
                        old(vm).stack@[old(vm).stack@.len() - 1],
                        path.len() + 1,
                    ) is Some);
                    assert(crate::heap::is_proper_list(
                        old(vm).gc.heap@,
                        old(vm).stack@[old(vm).stack@.len() - 1],
                    ));
                }
                return Ok(Value::Bool(true));
            },
            Value::Pair(p) => {
                if fuel == 0 {
                    proof {
                        let h = vm.gc.heap@;
                        if crate::heap::is_proper_list(h, arg0) {
                            let ff = choose|ff: nat|
                                (#[trigger] crate::heap::list_elems(h, arg0, ff)) is Some;
                            crate::heap::lemma_list_elems_abs(h, arg0, v0, ff);
                            crate::heap::lemma_cdr_chain_snoc(h, path, v0, cur, p);
                            let path2 = path.push(p.0 as int);
                            crate::heap::lemma_chain_no_dup(
                                h,
                                path2,
                                v0,
                                pair_at(h, p.0 as int).cdr,
                                ff,
                            );
                            assert forall|i: int|
                                0 <= i < path2.len() implies 0 <= #[trigger] path2[i]
                                < h.len() by {
                                if i < path.len() {
                                    assert(crate::heap::is_pair(h, path[i]));
                                } else {
                                    assert(crate::heap::is_pair(h, p.0 as int));
                                }
                            }
                            crate::heap::lemma_distinct_bounded(path2, h.len() as int);
                        }
                        assert(!crate::heap::is_proper_list(h, arg0));
                    }
                    return Ok(Value::Bool(false));
                }
                fuel = fuel - 1;
                let pr = vm.gc.pair(p);
                let c = pr.cdr.clone();
                proof {
                    let h = vm.gc.heap@;
                    assert(crate::heap::cell_ok(h, crate::heap::data_at(h, p.0 as int)));
                    crate::heap::lemma_value_ok_abs(h, pair_at(h, p.0 as int).cdr, c);
                    crate::heap::lemma_cdr_chain_snoc(h, path, v0, cur, p);
                    path = path.push(p.0 as int);
                    crate::heap::lemma_cdr_chain_retarget(
                        h,
                        path,
                        v0,
                        pair_at(h, p.0 as int).cdr,
                        c,
                    );
                }
                cur = c;
            },
            _ => {
                proof {
                    let h = vm.gc.heap@;
                    if crate::heap::is_proper_list(h, arg0) {
                        let ff = choose|ff: nat|
                            (#[trigger] crate::heap::list_elems(h, arg0, ff)) is Some;
                        crate::heap::lemma_list_elems_abs(h, arg0, v0, ff);
                        crate::heap::lemma_chain_positions(h, path, v0, cur, ff);
                        assert(crate::heap::list_elems(h, cur, ff) is Some);
                    }
                    assert(!crate::heap::is_proper_list(h, arg0));
                }
                return Ok(Value::Bool(false));
            },
        }
    }
}

/// `exit`: not a fault, a request to stop the machine.
pub fn exit(vm: &mut VM, argc: u8) -> (r: Result<Value, VmError>)
    requires
        vm_wf(*old(vm)),
    ensures
        *final(vm) == *old(vm),
        vm_wf(*final(vm)),
        r == Err::<Value, VmError>(VmError::Exit),
{
    Err(VmError::Exit)
}

/// `assert`: demands a true boolean; anything else is reported as a type
/// mismatch, the closest fatal condition to a failed runtime assertion.
pub fn assertion(vm: &mut VM, argc: u8) -> (r: Result<Value, VmError>)
    requires
        vm_wf(*old(vm)),
    ensures
        *final(vm) == *old(vm),
        vm_wf(*final(vm)),
        argc != 1 ==> r == Err::<Value, VmError>(VmError::ArityMismatch),
        argc == 1 && old(vm).stack@.len() < 1 ==> r == Err::<Value, VmError>(
            VmError::StackUnderflow,
        ),
        argc == 1 && 1 <= old(vm).stack@.len() ==> ({
            let v = old(vm).stack@[old(vm).stack@.len() - 1];
            if v == Value::Bool(true) {
                r == Ok::<Value, VmError>(Value::Unit)
            } else {
                r == Err::<Value, VmError>(VmError::TypeMismatch)
            }
        }),
{
    let v = match one_arg(vm, argc) {
        Ok(v) => v,
        Err(e) => {
            return Err(e);
        },
    };
    match v {
        Value::Bool(b) => {
            if b {
                Ok(Value::Unit)
            } else {
                Err(VmError::TypeMismatch)
            }
        },
        _ => Err(VmError::TypeMismatch),
    }
}

/// `newline`: one line break on the output channel.
pub fn newline(vm: &mut VM, argc: u8) -> (r: Result<Value, VmError>)
    requires
        vm_wf(*old(vm)),
    ensures
        vm_wf(*final(vm)),
        final(vm).frame == old(vm).frame,
        final(vm).stack == old(vm).stack,
        final(vm).gc == old(vm).gc,
        final(vm).modules == old(vm).modules,
        final(vm).fuel == old(vm).fuel,
        final(vm).counter == old(vm).counter,
        final(vm).nframes == old(vm).nframes,
        final(vm).out@ == old(vm).out@.push(0x0Au8),
        r == Ok::<Value, VmError>(Value::Unit),
{
    vm.out.push(0x0A);
    Ok(Value::Unit)
}

} // verus!
verus! {

/// One step of the display rendering walk: a value still to render, a
/// literal byte, or the tail of a list in progress.
pub enum RItem {
    RVal(Value),
    RByte(u8),
    RRest(Value),
}

/// `display`: renders the single argument onto the machine's output.
/// Booleans print as `#t`/`#f`, numbers in decimal, strings and symbols
/// by their contents, procedures opaquely, pairs in parenthesized list
/// notation with a dot before an improper tail. Rendering a cyclic
/// structure runs until the step budget ends.
pub fn display(vm: &mut VM, argc: u8) -> (r: Result<Value, VmError>)
    requires
        vm_wf(*old(vm)),
    ensures
        vm_wf(*final(vm)),
        final(vm).frame == old(vm).frame,
        final(vm).stack == old(vm).stack,
        final(vm).gc == old(vm).gc,
        final(vm).modules == old(vm).modules,
        final(vm).fuel <= old(vm).fuel,
        final(vm).counter == old(vm).counter,
        final(vm).nframes == old(vm).nframes,
        final(vm).out@.len() >= old(vm).out@.len(),
        final(vm).out@.take(old(vm).out@.len() as int) == old(vm).out@,
        argc != 1 ==> r == Err::<Value, VmError>(VmError::ArityMismatch) && *final(vm) == *old(vm),
        r is Ok ==> r->Ok_0 == Value::Unit,
{
    let v = match one_arg(vm, argc) {
        Ok(v) => v,
        Err(e) => {
            return Err(e);
        },
    };
    let ghost out0 = vm.out@;
    let mut work: Vec<RItem> = Vec::new();
    work.push(RItem::RVal(v));
    loop
        invariant
            vm_wf(*vm),
            vm.frame == old(vm).frame,
            vm.stack == old(vm).stack,
            vm.gc == old(vm).gc,
            vm.modules == old(vm).modules,
            vm.fuel <= old(vm).fuel,
            vm.counter == old(vm).counter,
            vm.nframes == old(vm).nframes,
            out0 == old(vm).out@,
            vm.out@.len() >= out0.len(),
            vm.out@.take(out0.len() as int) == out0,
            argc == 1,
            1 <= old(vm).stack@.len(),
            forall|i: int|
                0 <= i < work@.len() ==> match #[trigger] work@[i] {
                    RItem::RVal(w) => value_ok(vm.gc.heap@, w),
                    RItem::RByte(_) => true,
                    RItem::RRest(w) => value_ok(vm.gc.heap@, w),
                },
        decreases vm.fuel,
    {
        if vm.fuel == 0 {
            return Err(VmError::RecursionLimit);
        }
        vm.fuel = vm.fuel - 1;
        let item = match work.pop() {
            Some(it) => it,
            None => {
                return Ok(Value::Unit);
            },
        };
        let ghost opre = vm.out@;
        match item {
            RItem::RByte(b) => {
                vm.out.push(b);
            },
            RItem::RVal(w) => {
                match w {
                    Value::Bool(b) => {
                        vm.out.push(0x23);
                        if b {
                            vm.out.push(0x74);
                        } else {
                            vm.out.push(0x66);
                        }
                    },
                    Value::Null => {
                        vm.out.push(0x27);
                        vm.out.push(0x28);
                        vm.out.push(0x29);
                    },
                    Value::Unit => {},
                    Value::Num(n) => {
                        let dec = n.to_decimal();
                        append_bytes(&mut vm.out, &dec);
                    },
                    Value::Closure(_) => {
                        push_procedure_text(&mut vm.out);
                    },
                    Value::Primitive(_) => {
                        push_procedure_text(&mut vm.out);
                    },
                    Value::Str(h) => {
                        let sc = vm.gc.str(h);
                        append_bytes(&mut vm.out, &sc.contents);
                    },
                    Value::Symbol(h) => {
                        vm.out.push(0x27);
                        let sc = vm.gc.str(h);
                        append_bytes(&mut vm.out, &sc.contents);
                    },
                    Value::Pair(p) => {
                        let pr = vm.gc.pair(p);
                        let cr = pr.car.clone();
                        let cd = pr.cdr.clone();
                        proof {
                            let h = vm.gc.heap@;
                            assert(crate::heap::cell_ok(h, crate::heap::data_at(h, p.0 as int)));
                            crate::heap::lemma_value_ok_abs(
                                h,
                                crate::heap::pair_at(h, p.0 as int).car,
                                cr,
                            );
                            crate::heap::lemma_value_ok_abs(
                                h,
                                crate::heap::pair_at(h, p.0 as int).cdr,
                                cd,
                            );
                        }
                        vm.out.push(0x28);
                        work.push(RItem::RByte(0x29));
                        work.push(RItem::RRest(cd));
                        work.push(RItem::RVal(cr));
                    },
                }
            },
            RItem::RRest(w) => {
                match w {
                    Value::Null => {},
                    Value::Pair(p) => {
                        let pr = vm.gc.pair(p);
                        let cr = pr.car.clone();
                        let cd = pr.cdr.clone();
                        proof {
                            let h = vm.gc.heap@;
                            assert(crate::heap::cell_ok(h, crate::heap::data_at(h, p.0 as int)));
                            crate::heap::lemma_value_ok_abs(
                                h,
                                crate::heap::pair_at(h, p.0 as int).car,
                                cr,
                            );
                            crate::heap::lemma_value_ok_abs(
                                h,
                                crate::heap::pair_at(h, p.0 as int).cdr,
                                cd,
                            );
                        }
                        vm.out.push(0x20);
                        work.push(RItem::RRest(cd));
                        work.push(RItem::RVal(cr));
                    },
                    other => {
                        vm.out.push(0x20);
                        vm.out.push(0x2E);
                        vm.out.push(0x20);
                        work.push(RItem::RVal(other));
                    },
                }
            },
        }
        proof {
            assert(vm.out@.take(out0.len() as int) =~= out0);
        }
    }
}

/// Appends a byte string to the output.
fn append_bytes(out: &mut Vec<u8>, src: &Vec<u8>)
    ensures
        final(out)@ == old(out)@ + src@,
        final(out)@.len() >= old(out)@.len(),
        final(out)@.take(old(out)@.len() as int) == old(out)@,
{
    let ghost o0 = out@;
    let n = src.len();
    let mut k: usize = 0;
    while k < n
        invariant
            k <= n,
            n == src@.len(),
            out@.len() == o0.len() + k,
            out@ == o0 + src@.take(k as int),
        decreases n - k,
    {
        out.push(src[k]);
        proof {
            assert(out@ =~= o0 + src@.take(k + 1));
        }
        k += 1;
    }
    proof {
        assert(src@.take(n as int) =~= src@);
        assert(out@.take(o0.len() as int) =~= o0);
    }
}

/// Appends the opaque procedure rendering.
fn push_procedure_text(out: &mut Vec<u8>)
    ensures
        final(out)@.len() > old(out)@.len(),
        final(out)@.take(old(out)@.len() as int) == old(out)@,
{
    let ghost o0 = out@;
    out.push(0x23);
    out.push(0x3C);
    out.push(0x70);
    out.push(0x72);
    out.push(0x6F);
    out.push(0x63);
    out.push(0x65);
    out.push(0x64);
    out.push(0x75);
    out.push(0x72);
    out.push(0x65);
    out.push(0x3E);
    proof {
        assert(out@.take(o0.len() as int) =~= o0);
    }
}

} // verus!
verus! {

/// `map`: applies a function to every element of a proper list, in
/// order, and returns the list of results. Each application reenters the
/// interpreter; the intermediate results are kept on the operand stack,
/// so they are roots of any collection in between.
pub fn map(vm: &mut VM, argc: u8) -> (r: Result<Value, VmError>)
    requires
        vm_wf(*old(vm)),
    ensures
        vm_wf(*final(vm)),
        final(vm).fuel <= old(vm).fuel,
        final(vm).modules == old(vm).modules,
        final(vm).nframes >= old(vm).nframes,
        r is Ok ==> final(vm).nframes == old(vm).nframes,
        r is Ok ==> value_ok(final(vm).gc.heap@, r->Ok_0),
        keeps_below(*old(vm), *final(vm)),
        r is Ok ==> *final(vm).frame == *old(vm).frame,
        // the result is always a proper list
        r is Ok ==> crate::heap::is_proper_list(final(vm).gc.heap@, r->Ok_0),
        // with a heap-preserving callee the walked list stays intact, and
        // the result holds exactly one element per element of the input
        argc == 2 && old(vm).stack@.len() >= 2 && r is Ok && ({
            let fv = old(vm).stack@[old(vm).stack@.len() - 2];
            fv is Primitive && prim_pure(fv->Primitive_0)
        }) ==> ({
            let lv = old(vm).stack@[old(vm).stack@.len() - 1];
            forall|f: nat|
                (#[trigger] crate::heap::list_elems(old(vm).gc.heap@, lv, f)) is Some
                    ==> crate::heap::list_elems(final(vm).gc.heap@, r->Ok_0, f) is Some
                    && crate::heap::list_elems(final(vm).gc.heap@, r->Ok_0, f)->Some_0.len()
                    == crate::heap::list_elems(old(vm).gc.heap@, lv, f)->Some_0.len()
        }),
        argc != 2 ==> r == Err::<Value, VmError>(VmError::ArityMismatch) && *final(vm) == *old(vm),
    decreases old(vm).fuel, 0int,
{
    if argc != 2 {
        return Err(VmError::ArityMismatch);
    }
    if vm.stack.len() < 2 {
        return Err(VmError::StackUnderflow);
    }
    let fun = vm.arg(2, 0);
    let lst = vm.arg(2, 1);
    let ghost h0 = vm.gc.heap@;
    let ghost fv0 = old(vm).stack@[old(vm).stack@.len() - 2];
    let ghost lv0 = old(vm).stack@[old(vm).stack@.len() - 1];
    let ghost pure = fv0 is Primitive && prim_pure(fv0->Primitive_0);
    proof {
        crate::value::lemma_abs_variant(fun, fv0);
    }
    let mut cur = lst;
    let mut count: usize = 0;
    let ghost mut path: Seq<int> = Seq::empty();
    loop
        invariant
            vm_wf(*vm),
            vm.fuel <= old(vm).fuel,
            vm.modules == old(vm).modules,
            vm.nframes == old(vm).nframes,
            *vm.frame == *old(vm).frame,
            argc == 2,
            h0 == old(vm).gc.heap@,
            fv0 == old(vm).stack@[old(vm).stack@.len() - 2],
            lv0 == old(vm).stack@[old(vm).stack@.len() - 1],
            pure == (fv0 is Primitive && prim_pure(fv0->Primitive_0)),
            abs_of(lst) == abs_of(old(vm).stack@[old(vm).stack@.len() - 1]),
            pure ==> fun == fv0,
            pure ==> vm.gc.heap@ == h0,
            pure ==> value_ok(h0, cur),
            pure ==> crate::heap::cdr_chain(h0, path, lst, cur),
            pure ==> path.len() == count,
        ensures
            vm_wf(*vm),
            vm.fuel <= old(vm).fuel,
            vm.modules == old(vm).modules,
            vm.nframes == old(vm).nframes,
            *vm.frame == *old(vm).frame,
            pure ==> vm.gc.heap@ == h0,
            pure ==> (forall|f: nat|
                (#[trigger] crate::heap::list_elems(h0, lv0, f)) is Some
                    ==> crate::heap::list_elems(h0, lv0, f)->Some_0.len() == count as int),
        decreases vm.fuel,
    {
        if vm.fuel == 0 {
            return Err(VmError::RecursionLimit);
        }
        vm.fuel = vm.fuel - 1;
        match cur {
            Value::Null => {
                proof {
                    if pure {
                        assert forall|f: nat|
                            (#[trigger] crate::heap::list_elems(h0, lv0, f)) is Some implies crate::heap::list_elems(
                            h0,
                            lv0,
                            f,
                        )->Some_0.len() == count as int by {
                            crate::heap::lemma_list_elems_abs(h0, lv0, lst, f);
                            crate::heap::lemma_chain_positions(h0, path, lst, cur, f);
                            let s = crate::heap::list_elems(h0, lst, f)->Some_0;
                            assert(crate::heap::list_elems(h0, cur, f) == Some(
                                s.skip(count as int),
                            ));
                        }
                    }
                }
                break ;
            },
            Value::Pair(p) => {
                let (car, cd) = match vm.gc.try_pair(p) {
                    Some(pr) => {
                        let c1 = pr.car.clone();
                        let c2 = pr.cdr.clone();
                        proof {
                            let h = vm.gc.heap@;
                            assert(crate::heap::cell_ok(h, crate::heap::data_at(h, p.0 as int)));
                            crate::heap::lemma_value_ok_abs(
                                h,
                                crate::heap::pair_at(h, p.0 as int).car,
                                c1,
                            );
                            crate::heap::lemma_value_ok_abs(
                                h,
                                crate::heap::pair_at(h, p.0 as int).cdr,
                                c2,
                            );
                        }
                        (c1, c2)
                    },
                    None => {
                        return Err(VmError::TypeMismatch);
                    },
                };
                vm.stack.push(car);
                let ghost it_pre = *vm;
                let ret = match vm.fun_call_ret(&fun, 1) {
                    Ok(v) => v,
                    Err(e) => {
                        proof {
                            assert forall|k: nat|
                                1 <= k < old(vm).nframes && k <= vm.nframes implies #[trigger] chain_suffix(
                                *vm.frame,
                                k,
                            ) == chain_suffix(*old(vm).frame, k) by {
                                assert(chain_suffix(*vm.frame, k) == chain_suffix(
                                    *it_pre.frame,
                                    k,
                                ));
                            }
                        }
                        return Err(e);
                    },
                };
                if count == usize::MAX {
                    return Err(VmError::RecursionLimit);
                }
                vm.stack.push(ret);
                proof {
                    if pure {
                        crate::heap::lemma_cdr_chain_snoc(h0, path, lst, cur, p);
                        path = path.push(p.0 as int);
                        crate::heap::lemma_cdr_chain_retarget(
                            h0,
                            path,
                            lst,
                            pair_at(h0, p.0 as int).cdr,
                            cd,
                        );
                    }
                }
                count = count + 1;
                cur = cd;
            },
            _ => {
                return Err(VmError::TypeMismatch);
            },
        }
    }
    // gather the results into a fresh list, last result innermost
    let mut ret = Value::Null;
    let mut k: usize = 0;
    while k < count
        invariant
            vm_wf(*vm),
            vm.fuel <= old(vm).fuel,
            vm.modules == old(vm).modules,
            vm.nframes == old(vm).nframes,
            *vm.frame == *old(vm).frame,
            argc == 2,
            k <= count,
            value_ok(vm.gc.heap@, ret),
            crate::heap::list_elems(vm.gc.heap@, ret, k as nat) is Some,
            crate::heap::list_elems(vm.gc.heap@, ret, k as nat)->Some_0.len() == k as int,
        decreases count - k,
    {
        let v = match vm.stack.pop() {
            Some(v) => v,
            None => {
                return Err(VmError::StackUnderflow);
            },
        };
        let ghost hh = vm.gc.heap@;
        let ghost old_ret = ret;
        let ghost old_fuel = k as nat;
        let pr = vm.gc.alloc_pair(v, ret);
        ret = Value::Pair(pr);
        proof {
            lemma_covers_kinds(hh, vm.gc.heap@);
            lemma_parts_preserved(hh, vm.gc.heap@, *vm.frame, vm.stack@, vm.modules@);
            crate::heap::lemma_list_elems_frame(hh, vm.gc.heap@, old_ret, old_fuel);
            assert(crate::heap::pair_at(vm.gc.heap@, pr.0 as int).cdr == old_ret);
            assert(crate::heap::list_elems(vm.gc.heap@, ret, k as nat + 1) is Some);
            assert(crate::heap::list_elems(vm.gc.heap@, ret, k as nat + 1)->Some_0.len() == k
                + 1);
        }
        k += 1;
    }
    proof {
        assert(crate::heap::list_elems(vm.gc.heap@, ret, count as nat) is Some);
        assert(crate::heap::is_proper_list(vm.gc.heap@, ret));
        if pure {
            assert forall|f: nat|
                (#[trigger] crate::heap::list_elems(old(vm).gc.heap@, lv0, f)) is Some implies crate::heap::list_elems(
                vm.gc.heap@,
                ret,
                f,
            ) is Some && crate::heap::list_elems(vm.gc.heap@, ret, f)->Some_0.len()
                == crate::heap::list_elems(old(vm).gc.heap@, lv0, f)->Some_0.len() by {
                assert(crate::heap::list_elems(h0, lv0, f)->Some_0.len() == count as int);
                crate::heap::lemma_list_elems_len_fuel(h0, lv0, f);
                crate::heap::lemma_list_elems_mono(vm.gc.heap@, ret, count as nat, f);
            }
        }
    }
    Ok(ret)
}

/// `filter`: keeps the elements of a proper list for which the function
/// returns anything but false, in order.
pub fn filter(vm: &mut VM, argc: u8) -> (r: Result<Value, VmError>)
    requires
        vm_wf(*old(vm)),
    ensures
        vm_wf(*final(vm)),
        final(vm).fuel <= old(vm).fuel,
        final(vm).modules == old(vm).modules,
        final(vm).nframes >= old(vm).nframes,
        r is Ok ==> final(vm).nframes == old(vm).nframes,
        r is Ok ==> value_ok(final(vm).gc.heap@, r->Ok_0),
        keeps_below(*old(vm), *final(vm)),
        r is Ok ==> *final(vm).frame == *old(vm).frame,
        // the result is always a proper list
        r is Ok ==> crate::heap::is_proper_list(final(vm).gc.heap@, r->Ok_0),
        // with a heap-preserving callee the walked list stays intact, and
        // the result never holds more elements than the input
        argc == 2 && old(vm).stack@.len() >= 2 && r is Ok && ({
            let fv = old(vm).stack@[old(vm).stack@.len() - 2];
            fv is Primitive && prim_pure(fv->Primitive_0)
        }) ==> ({
            let lv = old(vm).stack@[old(vm).stack@.len() - 1];
            forall|f: nat|
                (#[trigger] crate::heap::list_elems(old(vm).gc.heap@, lv, f)) is Some
                    ==> crate::heap::list_elems(final(vm).gc.heap@, r->Ok_0, f) is Some
                    && crate::heap::list_elems(final(vm).gc.heap@, r->Ok_0, f)->Some_0.len()
                    <= crate::heap::list_elems(old(vm).gc.heap@, lv, f)->Some_0.len()
        }),
        argc != 2 ==> r == Err::<Value, VmError>(VmError::ArityMismatch) && *final(vm) == *old(vm),
    decreases old(vm).fuel, 0int,
{
    if argc != 2 {
        return Err(VmError::ArityMismatch);
    }
    if vm.stack.len() < 2 {
        return Err(VmError::StackUnderflow);
    }
    let fun = vm.arg(2, 0);
    let lst = vm.arg(2, 1);
    let ghost h0 = vm.gc.heap@;
    let ghost fv0 = old(vm).stack@[old(vm).stack@.len() - 2];
    let ghost lv0 = old(vm).stack@[old(vm).stack@.len() - 1];
    let ghost pure = fv0 is Primitive && prim_pure(fv0->Primitive_0);
    proof {
        crate::value::lemma_abs_variant(fun, fv0);
    }
    let mut cur = lst;
    let mut count: usize = 0;
    let ghost mut path: Seq<int> = Seq::empty();
    loop
        invariant
            vm_wf(*vm),
            vm.fuel <= old(vm).fuel,
            vm.modules == old(vm).modules,
            vm.nframes == old(vm).nframes,
            *vm.frame == *old(vm).frame,
            argc == 2,
            h0 == old(vm).gc.heap@,
            fv0 == old(vm).stack@[old(vm).stack@.len() - 2],
            lv0 == old(vm).stack@[old(vm).stack@.len() - 1],
            pure == (fv0 is Primitive && prim_pure(fv0->Primitive_0)),
            abs_of(lst) == abs_of(old(vm).stack@[old(vm).stack@.len() - 1]),
            pure ==> fun == fv0,
            pure ==> vm.gc.heap@ == h0,
            pure ==> value_ok(h0, cur),
            pure ==> crate::heap::cdr_chain(h0, path, lst, cur),
            pure ==> count <= path.len(),
        ensures
            vm_wf(*vm),
            vm.fuel <= old(vm).fuel,
            vm.modules == old(vm).modules,
            vm.nframes == old(vm).nframes,
            *vm.frame == *old(vm).frame,
            pure ==> vm.gc.heap@ == h0,
            pure ==> (forall|f: nat|
                (#[trigger] crate::heap::list_elems(h0, lv0, f)) is Some
                    ==> count as int <= crate::heap::list_elems(h0, lv0, f)->Some_0.len()),
        decreases vm.fuel,
    {
        if vm.fuel == 0 {
            return Err(VmError::RecursionLimit);
        }
        vm.fuel = vm.fuel - 1;
        match cur {
            Value::Null => {
                proof {
                    if pure {
                        assert forall|f: nat|
                            (#[trigger] crate::heap::list_elems(h0, lv0, f)) is Some implies count as int
                            <= crate::heap::list_elems(h0, lv0, f)->Some_0.len() by {
                            crate::heap::lemma_list_elems_abs(h0, lv0, lst, f);
                            crate::heap::lemma_chain_positions(h0, path, lst, cur, f);
                        }
                    }
                }
                break ;
            },
            Value::Pair(p) => {
                let (arg_copy, keep_copy, cd) = match vm.gc.try_pair(p) {
                    Some(pr) => {
                        let c1 = pr.car.clone();
                        let c1b = pr.car.clone();
                        let c2 = pr.cdr.clone();
                        proof {
                            let h = vm.gc.heap@;
                            assert(crate::heap::cell_ok(h, crate::heap::data_at(h, p.0 as int)));
                            crate::heap::lemma_value_ok_abs(
                                h,
                                crate::heap::pair_at(h, p.0 as int).car,
                                c1,
                            );
                            crate::heap::lemma_value_ok_abs(
                                h,
                                crate::heap::pair_at(h, p.0 as int).car,
                                c1b,
                            );
                            crate::heap::lemma_value_ok_abs(
                                h,
                                crate::heap::pair_at(h, p.0 as int).cdr,
                                c2,
                            );
                        }
                        (c1, c1b, c2)
                    },
                    None => {
                        return Err(VmError::TypeMismatch);
                    },
                };
                // the kept copy rides on the stack across the call, so a
                // collection inside the call cannot free it
                vm.stack.push(keep_copy);
                vm.stack.push(arg_copy);
                let ghost it_pre = *vm;
                let ret = match vm.fun_call_ret(&fun, 1) {
                    Ok(v) => v,
                    Err(e) => {
                        proof {
                            assert forall|k: nat|
                                1 <= k < old(vm).nframes && k <= vm.nframes implies #[trigger] chain_suffix(
                                *vm.frame,
                                k,
                            ) == chain_suffix(*old(vm).frame, k) by {
                                assert(chain_suffix(*vm.frame, k) == chain_suffix(
                                    *it_pre.frame,
                                    k,
                                ));
                            }
                        }
                        return Err(e);
                    },
                };
                let keep = match ret {
                    Value::Bool(b) => b,
                    _ => true,
                };
                if keep {
                    if count == usize::MAX {
                        return Err(VmError::RecursionLimit);
                    }
                    count = count + 1;
                } else {
                    // drop the kept copy again
                    match vm.stack.pop() {
                        Some(_) => {},
                        None => {
                            return Err(VmError::StackUnderflow);
                        },
                    }
                }
                proof {
                    if pure {
                        crate::heap::lemma_cdr_chain_snoc(h0, path, lst, cur, p);
                        path = path.push(p.0 as int);
                        crate::heap::lemma_cdr_chain_retarget(
                            h0,
                            path,
                            lst,
                            pair_at(h0, p.0 as int).cdr,
                            cd,
                        );
                    }
                }
                cur = cd;
            },
            _ => {
                return Err(VmError::TypeMismatch);
            },
        }
    }
    let mut ret = Value::Null;
    let mut k: usize = 0;
    while k < count
        invariant
            vm_wf(*vm),
            vm.fuel <= old(vm).fuel,
            vm.modules == old(vm).modules,
            vm.nframes == old(vm).nframes,
            *vm.frame == *old(vm).frame,
            argc == 2,
            k <= count,
            value_ok(vm.gc.heap@, ret),
            crate::heap::list_elems(vm.gc.heap@, ret, k as nat) is Some,
            crate::heap::list_elems(vm.gc.heap@, ret, k as nat)->Some_0.len() == k as int,
        decreases count - k,
    {
        let v = match vm.stack.pop() {
            Some(v) => v,
            None => {
                return Err(VmError::StackUnderflow);
            },
        };
        let ghost hh = vm.gc.heap@;
        let ghost old_ret = ret;
        let ghost old_fuel = k as nat;
        let pr = vm.gc.alloc_pair(v, ret);
        ret = Value::Pair(pr);
        proof {
            lemma_covers_kinds(hh, vm.gc.heap@);
            lemma_parts_preserved(hh, vm.gc.heap@, *vm.frame, vm.stack@, vm.modules@);
            crate::heap::lemma_list_elems_frame(hh, vm.gc.heap@, old_ret, old_fuel);
            assert(crate::heap::pair_at(vm.gc.heap@, pr.0 as int).cdr == old_ret);
            assert(crate::heap::list_elems(vm.gc.heap@, ret, k as nat + 1) is Some);
            assert(crate::heap::list_elems(vm.gc.heap@, ret, k as nat + 1)->Some_0.len() == k
                + 1);
        }
        k += 1;
    }
    proof {
        assert(crate::heap::list_elems(vm.gc.heap@, ret, count as nat) is Some);
        assert(crate::heap::is_proper_list(vm.gc.heap@, ret));
        if pure {
            assert forall|f: nat|
                (#[trigger] crate::heap::list_elems(old(vm).gc.heap@, lv0, f)) is Some implies crate::heap::list_elems(
                vm.gc.heap@,
                ret,
                f,
            ) is Some && crate::heap::list_elems(vm.gc.heap@, ret, f)->Some_0.len()
                <= crate::heap::list_elems(old(vm).gc.heap@, lv0, f)->Some_0.len() by {
                assert(count as int <= crate::heap::list_elems(h0, lv0, f)->Some_0.len());
                crate::heap::lemma_list_elems_len_fuel(h0, lv0, f);
                crate::heap::lemma_list_elems_mono(vm.gc.heap@, ret, count as nat, f);
            }
        }
    }
    Ok(ret)
}

} // verus!
verus! {

/// The primitives whose argument count is fixed and rejected up front:
/// for these, a wrong count is the arity-mismatch error before anything
/// else happens.
pub open spec fn prim_wrong_arity(p: Prim, argc: int) -> bool {
    match p {
        Prim::IsEq => argc != 2,
        Prim::IsEqual => argc != 2,
        Prim::Cons => argc != 2,
        Prim::SetCar => argc != 2,
        Prim::SetCdr => argc != 2,
        Prim::MapList => argc != 2,
        Prim::FilterList => argc != 2,
        Prim::IsBoolean => argc != 1,
        Prim::IsNull => argc != 1,
        Prim::IsPair => argc != 1,
        Prim::IsProcedure => argc != 1,
        Prim::IsSymbol => argc != 1,
        Prim::IsNumber => argc != 1,
        Prim::SymbolToString => argc != 1,
        Prim::StringToSymbol => argc != 1,
        Prim::Car => argc != 1,
        Prim::Cdr => argc != 1,
        Prim::IsList => argc != 1,
        Prim::Assertion => argc != 1,
        Prim::Display => argc != 1,
        Prim::Min => argc == 0,
        _ => false,
    }
}

/// The one-argument predicates that answer from the argument's shape
/// alone.
pub open spec fn prim_shape_pred(p: Prim) -> bool {
    match p {
        Prim::IsBoolean => true,
        Prim::IsNull => true,
        Prim::IsPair => true,
        Prim::IsProcedure => true,
        Prim::IsSymbol => true,
        Prim::IsNumber => true,
        _ => false,
    }
}

/// What each shape predicate answers of a value.
pub open spec fn shape_pred_val(p: Prim, v: Value) -> bool {
    match p {
        Prim::IsBoolean => v is Bool,
        Prim::IsNull => v is Null,
        Prim::IsPair => v is Pair,
        Prim::IsProcedure => v is Closure || v is Primitive,
        Prim::IsSymbol => v is Symbol,
        Prim::IsNumber => v is Num,
        _ => false,
    }
}

/// The primitives that leave the operand stack, the frame chain and the
/// frame count exactly as they found them (everything but the two that
/// apply a function to a list).
pub open spec fn prim_stack_preserving(p: Prim) -> bool {
    match p {
        Prim::MapList => false,
        Prim::FilterList => false,
        _ => true,
    }
}

/// The primitives that read the machine without changing anything but
/// the step budget.
pub open spec fn prim_pure(p: Prim) -> bool {
    match p {
        Prim::Cons => false,
        Prim::SetCar => false,
        Prim::SetCdr => false,
        Prim::List => false,
        Prim::StringToSymbol => false,
        Prim::MapList => false,
        Prim::FilterList => false,
        Prim::Display => false,
        Prim::Newline => false,
        _ => true,
    }
}

} // verus!
