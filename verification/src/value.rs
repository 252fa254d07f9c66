//! The tagged value model: scalars carried by value, heap data carried by
//! copyable handles.

use crate::bignum::Big;
use crate::bignum::big_val;
use crate::bignum::big_wf;
use vstd::prelude::*;

verus! {

/// A copyable handle to a garbage-collected cell: the index of its slot in
/// the collector's arena. A handle stays meaningful only while the cell it
/// names is reachable from the roots of every collection in between.
#[derive(Clone, Copy, Debug, PartialEq, Eq, Structural)]
pub struct Ptr(pub usize);

/// The identity of a host primitive function. The machine carries this tag
/// in a `Value` and dispatches on it; two primitives are the same function
/// exactly when their tags are equal.
#[derive(Clone, Copy, Debug, PartialEq, Eq, Structural)]
pub enum Prim {
    Add,
    Min,
    Mul,
    Div,
    NumEq,
    IsEq,
    IsEqual,
    IsBoolean,
    IsNull,
    IsPair,
    IsProcedure,
    IsSymbol,
    IsNumber,
    SymbolToString,
    StringToSymbol,
    Cons,
    Car,
    Cdr,
    SetCar,
    SetCdr,
    List,
    IsList,
    MapList,
    FilterList,
    Display,
    Newline,
    Exit,
    Assertion,
}

/// A runtime value: a small tagged union, cheap to copy. Pairs, closures,
/// strings and symbols live on the heap and are carried as handles; a
/// symbol is a string handle with symbol semantics.
#[derive(Debug)]
pub enum Value {
    Bool(bool),
    Closure(Ptr),
    Null,
    Num(Big),
    Pair(Ptr),
    Primitive(Prim),
    Str(Ptr),
    Symbol(Ptr),
    Unit,
}

/// The mathematical shape of a value: numbers become integers, handles
/// become slot indices. Two values with the same shape are interchangeable
/// to the machine.
pub enum AbsVal {
    ABool(bool),
    AClosure(int),
    ANull,
    ANum(int),
    APair(int),
    APrim(Prim),
    AStr(int),
    ASymbol(int),
    AUnit,
}

/// The shape of a value.
pub open spec fn abs_of(v: Value) -> AbsVal {
    match v {
        Value::Bool(b) => AbsVal::ABool(b),
        Value::Closure(p) => AbsVal::AClosure(p.0 as int),
        Value::Null => AbsVal::ANull,
        Value::Num(n) => AbsVal::ANum(big_val(n)),
        Value::Pair(p) => AbsVal::APair(p.0 as int),
        Value::Primitive(p) => AbsVal::APrim(p),
        Value::Str(p) => AbsVal::AStr(p.0 as int),
        Value::Symbol(p) => AbsVal::ASymbol(p.0 as int),
        Value::Unit => AbsVal::AUnit,
    }
}

/// A numeric value carries a well-formed (canonical) number.
pub open spec fn num_wf(v: Value) -> bool {
    match v {
        Value::Num(n) => big_wf(n),
        _ => true,
    }
}

/// The heap slot a value points at, if any.
pub open spec fn value_target(v: Value) -> Option<int> {
    match v {
        Value::Closure(p) => Some(p.0 as int),
        Value::Pair(p) => Some(p.0 as int),
        Value::Str(p) => Some(p.0 as int),
        Value::Symbol(p) => Some(p.0 as int),
        _ => None,
    }
}

/// Shape equality pins the variant and everything but a number's
/// representation, so shape-equal values agree on physical equality.
pub proof fn lemma_abs_variant(a: Value, a2: Value)
    requires
        abs_of(a2) == abs_of(a),
    ensures
        a is Pair <==> a2 is Pair,
        a is Str <==> a2 is Str,
        a is Closure ==> a2 == a,
        a is Symbol ==> a2 == a,
        a is Bool ==> a2 == a,
        a is Null ==> a2 == a,
        a is Unit ==> a2 == a,
        a is Primitive ==> a2 == a,
        a is Num ==> (a2 is Num && big_val(a2->Num_0) == big_val(a->Num_0)),
{
}

impl Clone for Value {
    /// Clones a value: the copy has the same shape, so it names the same
    /// cells and denotes the same number.
    fn clone(&self) -> (r: Value)
        ensures
            abs_of(r) == abs_of(*self),
            num_wf(*self) ==> num_wf(r),
    {
        match self {
            Value::Bool(b) => Value::Bool(*b),
            Value::Closure(p) => Value::Closure(*p),
            Value::Null => Value::Null,
            Value::Num(n) => Value::Num(n.clone()),
            Value::Pair(p) => Value::Pair(*p),
            Value::Primitive(p) => Value::Primitive(*p),
            Value::Str(p) => Value::Str(*p),
            Value::Symbol(p) => Value::Symbol(*p),
            Value::Unit => Value::Unit,
        }
    }
}

} // verus!
