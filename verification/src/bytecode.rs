//! Opcodes, literal type tags, and the packed program-counter encoding.
//!
//! A program counter is a `u64` packing `(module_index << 32) | offset`:
//! jumps touch only the low 32 bits while closures and cross-module calls
//! carry the full value.

use vstd::prelude::*;

verus! {

/// One instruction of the machine.
#[derive(Clone, Copy, Debug, PartialEq, Eq, Structural)]
pub enum Opcode {
    Nop,
    Push,
    Pop,
    Jump,
    Call,
    Return,
    Fetch,
    Branch,
    Store,
    Alloc,
    Tcall,
}

/// The tag of a `Push` literal.
#[derive(Clone, Copy, Debug, PartialEq, Eq, Structural)]
pub enum Type {
    Unit,
    Bool,
    Int,
    Sym,
    Fun,
    Prim,
}

/// The opcode encoded by a byte of program text, if any.
pub open spec fn opcode_of_byte(b: u8) -> Option<Opcode> {
    match b {
        0x00 => Some(Opcode::Nop),
        0x01 => Some(Opcode::Push),
        0x03 => Some(Opcode::Pop),
        0x04 => Some(Opcode::Jump),
        0x06 => Some(Opcode::Call),
        0x07 => Some(Opcode::Return),
        0x08 => Some(Opcode::Fetch),
        0x09 => Some(Opcode::Branch),
        0x0A => Some(Opcode::Store),
        0x0C => Some(Opcode::Alloc),
        0x0D => Some(Opcode::Tcall),
        _ => None,
    }
}

/// The literal type tag encoded by a byte, if any.
pub open spec fn type_of_byte(b: u8) -> Option<Type> {
    match b {
        0x00 => Some(Type::Unit),
        0x01 => Some(Type::Bool),
        0x02 => Some(Type::Int),
        0x05 => Some(Type::Sym),
        0x08 => Some(Type::Fun),
        0x09 => Some(Type::Prim),
        _ => None,
    }
}

/// Validating decode of an opcode byte: an unknown byte is rejected, never
/// dispatched.
pub fn decode_opcode(b: u8) -> (r: Option<Opcode>)
    ensures
        r == opcode_of_byte(b),
{
    match b {
        0x00 => Some(Opcode::Nop),
        0x01 => Some(Opcode::Push),
        0x03 => Some(Opcode::Pop),
        0x04 => Some(Opcode::Jump),
        0x06 => Some(Opcode::Call),
        0x07 => Some(Opcode::Return),
        0x08 => Some(Opcode::Fetch),
        0x09 => Some(Opcode::Branch),
        0x0A => Some(Opcode::Store),
        0x0C => Some(Opcode::Alloc),
        0x0D => Some(Opcode::Tcall),
        _ => None,
    }
}

/// Validating decode of a literal type byte.
pub fn decode_type(b: u8) -> (r: Option<Type>)
    ensures
        r == type_of_byte(b),
{
    match b {
        0x00 => Some(Type::Unit),
        0x01 => Some(Type::Bool),
        0x02 => Some(Type::Int),
        0x05 => Some(Type::Sym),
        0x08 => Some(Type::Fun),
        0x09 => Some(Type::Prim),
        _ => None,
    }
}

/// The module-index half of a packed program counter.
pub open spec fn spec_base(pc: u64) -> u32 {
    (pc >> 32) as u32
}

/// The intra-module offset half of a packed program counter.
pub open spec fn spec_off(pc: u64) -> u32 {
    (pc & 0xFFFF_FFFF) as u32
}

/// The packed counter made of a module index and an offset.
pub open spec fn spec_pack(module: u32, offset: u32) -> u64 {
    ((module as u64) << 32) | (offset as u64)
}

/// Extracts the module index from a packed program counter.
pub fn base(pc: u64) -> (r: u32)
    ensures
        r == spec_base(pc),
{
    (pc >> 32) as u32
}

/// Extracts the intra-module byte offset from a packed program counter.
pub fn off(pc: u64) -> (r: u32)
    ensures
        r == spec_off(pc),
{
    (pc & 0xFFFF_FFFF) as u32
}

/// Packs a module index and an offset into one program counter.
pub fn pack_pc(module: u32, offset: u32) -> (r: u64)
    ensures
        r == spec_pack(module, offset),
        spec_base(r) == module,
        spec_off(r) == offset,
{
    let r = ((module as u64) << 32) | (offset as u64);
    proof {
        assert(r == spec_pack(module, offset));
        assert(spec_base(spec_pack(module, offset)) == module) by (bit_vector);
        assert(spec_off(spec_pack(module, offset)) == offset) by (bit_vector);
    }
    r
}

/// Replaces the offset half of a program counter, keeping the module half:
/// what a `Jump` or a false `Branch` does.
pub fn with_offset(pc: u64, offset: u32) -> (r: u64)
    ensures
        spec_base(r) == spec_base(pc),
        spec_off(r) == offset,
        r == spec_pack(spec_base(pc), offset),
{
    let r = (pc & 0xFFFF_FFFF_0000_0000) | (offset as u64);
    proof {
        assert({
            let q = (pc & 0xFFFF_FFFF_0000_0000) | (offset as u64);
            spec_base(q) == spec_base(pc) && spec_off(q) == offset && q == spec_pack(
                spec_base(pc),
                offset,
            )
        }) by (bit_vector);
    }
    r
}

/// Advances the offset half of a program counter by `n` bytes.
pub fn advance_pc(pc: u64, n: u32) -> (r: u64)
    requires
        spec_off(pc) + n <= u32::MAX,
    ensures
        spec_base(r) == spec_base(pc),
        spec_off(r) == spec_off(pc) + n,
{
    let o = off(pc);
    with_offset(pc, o + n)
}

} // verus!
