//! Call activations. Frames form a singly-owned chain rooted at the
//! currently executing frame: `caller` is owned by its callee and swapped
//! in and out on call and return, so this chain is the call stack, not the
//! host's.

use crate::env::Resolved;
use crate::env::resolve;
use crate::errors::VmError;
use crate::heap::Cell;
use crate::heap::Env;
use crate::heap::GC;
use crate::heap::env_of;
use crate::heap::gc_wf;
use crate::heap::is_env;
use crate::heap::same_kinds;
use crate::heap::slots_store;
use crate::heap::valid;
use crate::heap::value_ok;
use crate::value::Ptr;
use crate::value::Value;
use crate::value::abs_of;
use vstd::prelude::*;

verus! {

/// One call activation: the environment code runs in, the operand-stack
/// height at entry, the program counter, and the calling frame.
#[derive(Debug)]
pub struct Frame {
    pub env: Ptr,
    pub sp: usize,
    pub pc: u64,
    pub caller: Option<Box<Frame>>,
}

/// Every environment along the frame chain is live and an environment.
pub open spec fn frame_wf(h: Seq<Option<Cell>>, f: Frame) -> bool
    decreases f,
{
    is_env(h, f.env.0 as int) && match f.caller {
        Some(c) => frame_wf(h, *c),
        None => true,
    }
}

/// The length of the frame chain: how many activations are alive.
pub open spec fn frame_depth(f: Frame) -> nat
    decreases f,
{
    match f.caller {
        Some(c) => 1 + frame_depth(*c),
        None => 1,
    }
}

/// The `k`-deep bottom of a frame chain: the chain after popping down
/// to depth `k`. Meaningful for `1 <= k <= frame_depth(f)`.
pub open spec fn chain_suffix(f: Frame, k: nat) -> Frame
    decreases f,
{
    if frame_depth(f) <= k {
        f
    } else {
        match f.caller {
            Some(c) => chain_suffix(*c, k),
            None => f,
        }
    }
}

/// Pushing a frame keeps every bottom suffix.
pub proof fn lemma_suffix_push(f: Frame, g: Frame, k: nat)
    requires
        g.caller is Some,
        *g.caller->Some_0 == f,
        1 <= k <= frame_depth(f),
    ensures
        chain_suffix(g, k) == chain_suffix(f, k),
{
    assert(frame_depth(g) == frame_depth(f) + 1);
}

/// Two chains with the same caller share every strictly lower suffix.
pub proof fn lemma_suffix_same_caller(f: Frame, g: Frame, k: nat)
    requires
        g.caller == f.caller,
        frame_depth(g) == frame_depth(f),
        1 <= k < frame_depth(f),
    ensures
        chain_suffix(g, k) == chain_suffix(f, k),
{
    match f.caller {
        Some(c) => {
            assert(frame_depth(g) > k);
        },
        None => {
            assert(frame_depth(f) == 1);
        },
    }
}

/// Popping to the caller keeps every suffix at or below the new depth.
pub proof fn lemma_suffix_pop(f: Frame, k: nat)
    requires
        f.caller is Some,
        1 <= k <= frame_depth(*f.caller->Some_0),
    ensures
        chain_suffix(f, k) == chain_suffix(*f.caller->Some_0, k),
{
    assert(frame_depth(f) == frame_depth(*f.caller->Some_0) + 1);
}

/// A chain is its own suffix at its full depth.
pub proof fn lemma_suffix_self(f: Frame)
    ensures
        chain_suffix(f, frame_depth(f)) == f,
{
}

/// `b` is the environment of some frame in the chain.
pub open spec fn frame_env_in(f: Frame, b: int) -> bool
    decreases f,
{
    f.env.0 == b || match f.caller {
        Some(c) => frame_env_in(*c, b),
        None => false,
    }
}

/// A frame chain stays well-formed on any heap that keeps its
/// environments live and of environment kind.
pub proof fn lemma_frame_wf_preserved(h: Seq<Option<Cell>>, h2: Seq<Option<Cell>>, f: Frame)
    requires
        frame_wf(h, f),
        forall|b: int| frame_env_in(f, b) ==> #[trigger] is_env(h2, b),
    ensures
        frame_wf(h2, f),
    decreases f,
{
    match f.caller {
        Some(c) => {
            assert forall|b: int| frame_env_in(*c, b) implies #[trigger] is_env(h2, b) by {
                assert(frame_env_in(f, b));
            }
            lemma_frame_wf_preserved(h, h2, *c);
        },
        None => {},
    }
}

/// A frame chain stays well-formed across kind-preserving heap changes
/// (mutation and allocation never change a cell's kind).
pub proof fn lemma_frame_wf_same_kinds(h: Seq<Option<Cell>>, h2: Seq<Option<Cell>>, f: Frame)
    requires
        frame_wf(h, f),
        forall|b: int| is_env(h, b) ==> #[trigger] is_env(h2, b),
    ensures
        frame_wf(h2, f),
    decreases f,
{
    match f.caller {
        Some(c) => {
            lemma_frame_wf_same_kinds(h, h2, *c);
        },
        None => {},
    }
}

impl Frame {
    /// A fresh frame with no caller.
    pub fn new(base_env: Ptr, sp: usize, pc: u64) -> (r: Box<Frame>)
        ensures
            r.env == base_env,
            r.sp == sp,
            r.pc == pc,
            r.caller is None,
            frame_depth(*r) == 1,
    {
        Box::new(Frame { env: base_env, sp, pc, caller: None })
    }

    /// Replaces this frame's environment with a freshly allocated child of
    /// the given capacity, linked to the previous environment: the
    /// `Alloc` instruction.
    pub fn alloc_env(&mut self, gc: &mut GC, size: usize)
        requires
            gc_wf(*old(gc)),
            is_env(old(gc).heap@, old(self).env.0 as int),
        ensures
            gc_wf(*final(gc)),
            crate::heap::covers(old(gc).heap@, final(gc).heap@),
            final(gc).interner == old(gc).interner,
            final(gc).current_mark == old(gc).current_mark,
            is_env(final(gc).heap@, final(self).env.0 as int),
            env_of(final(gc).heap@, final(self).env.0 as int).capacity == size,
            env_of(final(gc).heap@, final(self).env.0 as int).values@.len() == 0,
            env_of(final(gc).heap@, final(self).env.0 as int).next == Some(old(self).env),
            final(self).sp == old(self).sp,
            final(self).pc == old(self).pc,
            final(self).caller == old(self).caller,
            frame_depth(*final(self)) == frame_depth(*old(self)),
    {
        let nenv = gc.alloc_env(size, Some(self.env));
        self.env = nenv;
    }

    /// Writes a value through this frame's environment chain: the `Store`
    /// instruction.
    pub fn store(&self, gc: &mut GC, value: Value, addr: u64) -> (r: Result<(), VmError>)
        requires
            gc_wf(*old(gc)),
            is_env(old(gc).heap@, self.env.0 as int),
            value_ok(old(gc).heap@, value),
        ensures
            gc_wf(*final(gc)),
            final(gc).interner == old(gc).interner,
            final(gc).current_mark == old(gc).current_mark,
            same_kinds(old(gc).heap@, final(gc).heap@),
            match resolve(
                old(gc).heap@,
                self.env.0 as int,
                addr as int,
                old(gc).heap@.len() as nat,
            ) {
                Resolved::Found(eh, idx) => {
                    &&& r is Ok
                    &&& forall|b: int|
                        valid(old(gc).heap@, b) && b != eh ==> final(gc).heap@[b] == old(
                            gc,
                        ).heap@[b]
                    &&& env_of(final(gc).heap@, eh).values@ == slots_store(
                        env_of(old(gc).heap@, eh).values@,
                        idx,
                        value,
                    )
                    &&& env_of(final(gc).heap@, eh).capacity == env_of(
                        old(gc).heap@,
                        eh,
                    ).capacity
                    &&& env_of(final(gc).heap@, eh).next == env_of(old(gc).heap@, eh).next
                },
                _ => r == Err::<(), VmError>(VmError::UnboundReference) && *final(gc) == *old(
                    gc,
                ),
            },
    {
        Env::store(gc, self.env, addr, value)
    }

    /// Reads a value through this frame's environment chain: the `Fetch`
    /// instruction.
    pub fn fetch(&self, gc: &GC, addr: u64) -> (r: Result<Value, VmError>)
        requires
            gc_wf(*gc),
            is_env(gc.heap@, self.env.0 as int),
        ensures
            match resolve(gc.heap@, self.env.0 as int, addr as int, gc.heap@.len() as nat) {
                Resolved::Found(eh, idx) => {
                    if 0 <= idx < env_of(gc.heap@, eh).values@.len() && env_of(
                        gc.heap@,
                        eh,
                    ).values@[idx].defined {
                        r is Ok && abs_of(r->Ok_0) == abs_of(env_of(gc.heap@, eh).values@[idx].value)
                            && value_ok(gc.heap@, r->Ok_0)
                    } else {
                        r == Err::<Value, VmError>(VmError::UseBeforeDefinition)
                    }
                },
                _ => r == Err::<Value, VmError>(VmError::UnboundReference),
            },
    {
        Env::fetch(gc, self.env, addr)
    }
}

} // verus!
