//! The closed error taxonomy of the runtime.
//!
//! Every failure the core can hit is one of these conditions; there is no
//! recovery path inside the machine, the error travels up to the caller.

use vstd::prelude::*;

verus! {

/// Everything that can go wrong while executing bytecode, addressing an
/// environment, calling a value or loading a module.
#[derive(Clone, Copy, Debug, PartialEq, Eq, Structural)]
pub enum VmError {
    /// A closure or primitive was called with an argument count its arity
    /// does not accept.
    ArityMismatch,
    /// A primitive received a value of the wrong kind (this also covers the
    /// division primitive, which demands an exact-rational tower this
    /// runtime does not provide, and a failed runtime assertion).
    TypeMismatch,
    /// An environment address walked past the end of the whole chain.
    UnboundReference,
    /// A slot was read before anything was ever stored in it.
    UseBeforeDefinition,
    /// The operand stack, or the frame chain on return, was empty where a
    /// value was needed.
    StackUnderflow,
    /// An unrecognized opcode or literal-type byte, or an instruction
    /// truncated by the end of the module's text.
    InvalidOpcode,
    /// A malformed module image: bad magic length, wrong version byte, or a
    /// section that runs past the end of the image.
    ModuleLoadError,
    /// An import names a module that is not in the loaded-module table.
    ModuleNotFound,
    /// `Call` or `Tcall` on a value that is neither a closure nor a
    /// primitive.
    CallOnNonCallable,
    /// The `exit` primitive was invoked; not a fault, a request to stop.
    Exit,
    /// The machine's step budget ran out: the stand-in for a run that
    /// would otherwise not terminate (or exhaust the host).
    RecursionLimit,
}

/// The one-line description each condition is reported with.
pub open spec fn describe_spec(e: VmError) -> Seq<char> {
    match e {
        VmError::ArityMismatch => "wrong number of arguments"@,
        VmError::TypeMismatch => "value of the wrong kind"@,
        VmError::UnboundReference => "value not in environment"@,
        VmError::UseBeforeDefinition => "reference to an identifier before its definition"@,
        VmError::StackUnderflow => "operand stack underflow"@,
        VmError::InvalidOpcode => "unknown bytecode instruction"@,
        VmError::ModuleLoadError => "unreadable or malformed library file"@,
        VmError::ModuleNotFound => "impossible to find library in path"@,
        VmError::CallOnNonCallable => "attempting to call a non-function value"@,
        VmError::Exit => "exit"@,
        VmError::RecursionLimit => "step budget exhausted"@,
    }
}

impl VmError {
    /// The one-line human description of this condition.
    pub fn describe(&self) -> (r: &'static str)
        ensures
            r@ == describe_spec(*self),
    {
        match self {
            VmError::ArityMismatch => "wrong number of arguments",
            VmError::TypeMismatch => "value of the wrong kind",
            VmError::UnboundReference => "value not in environment",
            VmError::UseBeforeDefinition => "reference to an identifier before its definition",
            VmError::StackUnderflow => "operand stack underflow",
            VmError::InvalidOpcode => "unknown bytecode instruction",
            VmError::ModuleLoadError => "unreadable or malformed library file",
            VmError::ModuleNotFound => "impossible to find library in path",
            VmError::CallOnNonCallable => "attempting to call a non-function value",
            VmError::Exit => "exit",
            VmError::RecursionLimit => "step budget exhausted",
        }
    }
}

} // verus!
