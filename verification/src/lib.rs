//! A small dynamically-typed language runtime: a tagged value model, a
//! mark-and-sweep garbage collector over an index-addressed heap, a
//! stack-based bytecode interpreter with lexical environments, closures and
//! constant-stack tail calls, and a loader for a binary module format.

pub mod bignum;
pub mod bytecode;
pub mod env;
pub mod errors;
pub mod frame;
pub mod heap;
pub mod library;
pub mod list;
pub mod primitives;
pub mod value;
pub mod vm;

use vstd::prelude::*;

verus! {

/// The version byte a binary module must carry in its header.
pub const FORMAT_VERSION: u8 = 0x01;

} // verus!
