//! The bytecode interpreter: a fetch-decode-execute loop over the loaded
//! modules' text, an operand stack, an owned frame chain, and the
//! collector it periodically triggers with the full root set.

use crate::bytecode::Opcode;
use crate::bytecode::Type;
use crate::errors::VmError;
use crate::frame::Frame;
use crate::frame::chain_suffix;
use crate::frame::frame_depth;
use crate::frame::frame_env_in;
use crate::frame::frame_wf;
use crate::frame::lemma_frame_wf_preserved;
use crate::frame::lemma_frame_wf_same_kinds;
use crate::heap::Cell;
use crate::heap::GC;
use crate::heap::data_at;
use crate::heap::env_of;
use crate::heap::gc_wf;
use crate::heap::is_env;
use crate::heap::is_str;
use crate::heap::rset;
use crate::heap::valid;
use crate::heap::value_ok;
use crate::library::Library;
use crate::value::Ptr;
use crate::value::Value;
use crate::value::abs_of;
use crate::value::value_target;
use vstd::prelude::*;

verus! {

/// How many instructions run between collections.
pub const GC_PERIOD: u16 = 2000;

/// The whole machine: current frame, operand stack, collector, loaded
/// modules, the bytes the display primitives produced, the instruction
/// counter that triggers collection, and the remaining step budget. The
/// budget bounds all work; a caller that wants effectively unbounded
/// execution hands the machine the largest budget there is.
#[derive(Debug)]
pub struct VM {
    pub frame: Box<Frame>,
    pub stack: Vec<Value>,
    pub gc: GC,
    pub modules: Vec<Library>,
    pub out: Vec<u8>,
    pub counter: u16,
    pub fuel: u64,
    pub nframes: usize,
}

/// Every value on the operand stack is sound against the heap.
pub open spec fn stack_ok(h: Seq<Option<Cell>>, s: Seq<Value>) -> bool {
    forall|i: int| 0 <= i < s.len() ==> value_ok(h, #[trigger] s[i])
}

/// Every module's exported environment and symbol handles are sound.
pub open spec fn modules_ok(h: Seq<Option<Cell>>, ms: Seq<Library>) -> bool {
    forall|i: int|
        0 <= i < ms.len() ==> is_env(h, (#[trigger] ms[i]).env.0 as int) && (forall|j: int|
            0 <= j < ms[i].sym_table@.len() ==> is_str(h, (#[trigger] ms[i].sym_table@[j]).0 as int))
}

/// The machine invariant: a sound collector, a well-formed frame chain,
/// and sound stack and module tables.
pub open spec fn vm_wf(vm: VM) -> bool {
    &&& gc_wf(vm.gc)
    &&& frame_wf(vm.gc.heap@, *vm.frame)
    &&& stack_ok(vm.gc.heap@, vm.stack@)
    &&& modules_ok(vm.gc.heap@, vm.modules@)
    &&& vm.nframes as nat == frame_depth(*vm.frame)
}

/// 256 to the power `n`.
pub open spec fn p256(n: nat) -> nat
    decreases n,
{
    if n == 0 {
        1
    } else {
        256 * p256((n - 1) as nat)
    }
}

/// The big-endian value of `n` bytes of a module's text starting at
/// `off`.
pub open spec fn be_val(prog: Seq<u8>, off: int, n: int) -> nat
    decreases n,
{
    if n <= 0 {
        0
    } else {
        be_val(prog, off, n - 1) * 256 + prog[off + n - 1] as nat
    }
}

pub proof fn lemma_p256_mono(i: nat, j: nat)
    requires
        i <= j,
    ensures
        p256(i) <= p256(j),
    decreases j,
{
    if i < j {
        lemma_p256_mono(i, (j - 1) as nat);
        lemma_p256_pos((j - 1) as nat);
        assert(p256((j - 1) as nat) <= 256 * p256((j - 1) as nat)) by (nonlinear_arith)
            requires
                p256((j - 1) as nat) >= 1,
        ;
        assert(p256(j) == 256 * p256((j - 1) as nat));
    }
}

pub proof fn lemma_p256_pos(n: nat)
    ensures
        p256(n) >= 1,
    decreases n,
{
    if n > 0 {
        lemma_p256_pos((n - 1) as nat);
    }
}

/// A big-endian run of `n` bytes stays below 256^n.
pub proof fn lemma_be_val_bound(prog: Seq<u8>, off: int, n: int)
    requires
        n >= 0,
    ensures
        be_val(prog, off, n) < p256(n as nat),
    decreases n,
{
    if n > 0 {
        lemma_be_val_bound(prog, off, n - 1);
        assert(be_val(prog, off, n - 1) * 256 <= (p256((n - 1) as nat) - 1) * 256)
            by (nonlinear_arith)
            requires
                be_val(prog, off, n - 1) <= p256((n - 1) as nat) - 1,
        ;
        assert(p256(n as nat) == 256 * p256((n - 1) as nat));
        assert((p256((n - 1) as nat) - 1) * 256 == 256 * p256((n - 1) as nat) - 256)
            by (nonlinear_arith);
    }
}

/// Appends a handle to a root list: the set grows by exactly that slot.
pub fn push_root(v: &mut Vec<Ptr>, p: Ptr)
    ensures
        final(v)@ == old(v)@.push(p),
        rset(final(v)@).contains(p.0 as int),
        forall|x: int| rset(old(v)@).contains(x) ==> rset(final(v)@).contains(x),
        forall|x: int|
            rset(final(v)@).contains(x) ==> rset(old(v)@).contains(x) || x == p.0 as int,
{
    let ghost w0 = v@;
    v.push(p);
    proof {
        assert(v@[v@.len() - 1] == p);
        assert(rset(v@).contains(p.0 as int));
        assert forall|x: int| rset(w0).contains(x) implies rset(v@).contains(x) by {
            let k = choose|k: int| 0 <= k < w0.len() && w0[k].0 == x;
            assert(v@[k].0 as int == x);
        }
        assert forall|x: int| rset(v@).contains(x) implies rset(w0).contains(x) || x
            == p.0 as int by {
            let k = choose|k: int| 0 <= k < v@.len() && v@[k].0 == x;
            if k < w0.len() {
                assert(w0[k].0 as int == x);
            }
        }
    }
}

impl VM {
    /// Gathers every root of a collection: the handles held by the
    /// operand stack, the environments of the whole frame chain, and each
    /// loaded module's exported environment and symbol handles. Anything
    /// the machine can still reach is covered by this set.
    pub fn collect_roots(&self) -> (r: Vec<Ptr>)
        requires
            vm_wf(*self),
        ensures
            forall|i: int| 0 <= i < r@.len() ==> valid(self.gc.heap@, #[trigger] r@[i].0 as int),
            forall|i: int|
                0 <= i < self.stack@.len() ==> match value_target(#[trigger] self.stack@[i]) {
                    Some(t) => rset(r@).contains(t),
                    None => true,
                },
            forall|b: int| frame_env_in(*self.frame, b) ==> rset(r@).contains(b),
            forall|i: int|
                0 <= i < self.modules@.len() ==> rset(r@).contains(
                    (#[trigger] self.modules@[i]).env.0 as int,
                ) && (forall|j: int|
                    0 <= j < self.modules@[i].sym_table@.len() ==> rset(r@).contains(
                        (#[trigger] self.modules@[i].sym_table@[j]).0 as int,
                    )),
    {
        let mut r: Vec<Ptr> = Vec::new();
        // operand stack
        let mut i: usize = 0;
        while i < self.stack.len()
            invariant
                vm_wf(*self),
                i <= self.stack@.len(),
                forall|k: int| 0 <= k < r@.len() ==> valid(self.gc.heap@, #[trigger] r@[k].0 as int),
                forall|k: int|
                    0 <= k < i ==> match value_target(#[trigger] self.stack@[k]) {
                        Some(t) => rset(r@).contains(t),
                        None => true,
                    },
            decreases self.stack@.len() - i,
        {
            match crate::heap::value_child(&self.stack[i]) {
                Some(b) => {
                    proof {
                        assert(value_ok(self.gc.heap@, self.stack@[i as int]));
                    }
                    push_root(&mut r, Ptr(b));
                },
                None => {},
            }
            i += 1;
        }
        // frame chain
        let mut f: &Frame = &*self.frame;
        loop
            invariant
                vm_wf(*self),
                frame_wf(self.gc.heap@, *f),
                forall|k: int| 0 <= k < r@.len() ==> valid(self.gc.heap@, #[trigger] r@[k].0 as int),
                forall|b: int|
                    frame_env_in(*self.frame, b) ==> frame_env_in(*f, b) || rset(r@).contains(b),
                forall|k: int|
                    0 <= k < self.stack@.len() ==> match value_target(#[trigger] self.stack@[k]) {
                        Some(t) => rset(r@).contains(t),
                        None => true,
                    },
            ensures
                forall|k: int| 0 <= k < r@.len() ==> valid(self.gc.heap@, #[trigger] r@[k].0 as int),
                forall|b: int| frame_env_in(*self.frame, b) ==> rset(r@).contains(b),
                forall|k: int|
                    0 <= k < self.stack@.len() ==> match value_target(#[trigger] self.stack@[k]) {
                        Some(t) => rset(r@).contains(t),
                        None => true,
                    },
            decreases frame_depth(*f),
        {
            let ghost fsnap = *f;
            push_root(&mut r, f.env);
            match &f.caller {
                Some(c) => {
                    proof {
                        assert forall|b: int| frame_env_in(*self.frame, b) implies frame_env_in(
                            **c,
                            b,
                        ) || rset(r@).contains(b) by {
                            if frame_env_in(fsnap, b) {
                                if fsnap.env.0 as int == b {
                                    assert(rset(r@).contains(b));
                                }
                            }
                        }
                    }
                    f = &*c;
                },
                None => {
                    proof {
                        assert forall|b: int| frame_env_in(*self.frame, b) implies rset(
                            r@,
                        ).contains(b) by {
                            if frame_env_in(fsnap, b) {
                                assert(fsnap.env.0 as int == b);
                            }
                        }
                    }
                    break ;
                },
            }
        }
        // module table
        let mut m: usize = 0;
        while m < self.modules.len()
            invariant
                vm_wf(*self),
                m <= self.modules@.len(),
                forall|k: int| 0 <= k < r@.len() ==> valid(self.gc.heap@, #[trigger] r@[k].0 as int),
                forall|b: int| frame_env_in(*self.frame, b) ==> rset(r@).contains(b),
                forall|k: int|
                    0 <= k < self.stack@.len() ==> match value_target(#[trigger] self.stack@[k]) {
                        Some(t) => rset(r@).contains(t),
                        None => true,
                    },
                forall|k: int|
                    0 <= k < m ==> rset(r@).contains((#[trigger] self.modules@[k]).env.0 as int) && (
                    forall|j: int|
                        0 <= j < self.modules@[k].sym_table@.len() ==> rset(r@).contains(
                            (#[trigger] self.modules@[k].sym_table@[j]).0 as int,
                        )),
            decreases self.modules@.len() - m,
        {
            push_root(&mut r, self.modules[m].env);
            let nsyms = self.modules[m].sym_table.len();
            let mut j: usize = 0;
            while j < nsyms
                invariant
                    vm_wf(*self),
                    m < self.modules@.len(),
                    nsyms == self.modules@[m as int].sym_table@.len(),
                    j <= nsyms,
                    forall|k: int|
                        0 <= k < r@.len() ==> valid(self.gc.heap@, #[trigger] r@[k].0 as int),
                    forall|b: int| frame_env_in(*self.frame, b) ==> rset(r@).contains(b),
                    forall|k: int|
                        0 <= k < self.stack@.len() ==> match value_target(
                            #[trigger] self.stack@[k],
                        ) {
                            Some(t) => rset(r@).contains(t),
                            None => true,
                        },
                    forall|k: int|
                        0 <= k < m ==> rset(r@).contains((#[trigger] self.modules@[k]).env.0 as int)
                            && (forall|j2: int|
                            0 <= j2 < self.modules@[k].sym_table@.len() ==> rset(r@).contains(
                                (#[trigger] self.modules@[k].sym_table@[j2]).0 as int,
                            )),
                    rset(r@).contains(self.modules@[m as int].env.0 as int),
                    forall|j2: int|
                        0 <= j2 < j ==> rset(r@).contains(
                            (#[trigger] self.modules@[m as int].sym_table@[j2]).0 as int,
                        ),
                decreases nsyms - j,
            {
                push_root(&mut r, self.modules[m].sym_table[j]);
                j += 1;
            }
            m += 1;
        }
        r
    }

    /// A stop-the-world collection using everything the machine can reach
    /// as roots. Every handle the machine still holds stays valid with
    /// its cell's payload untouched, so the machine invariant survives.
    pub fn collect(&mut self)
        requires
            vm_wf(*old(self)),
        ensures
            vm_wf(*final(self)),
            final(self).frame == old(self).frame,
            final(self).stack == old(self).stack,
            final(self).modules == old(self).modules,
            final(self).out == old(self).out,
            final(self).counter == old(self).counter,
            final(self).fuel == old(self).fuel,
            final(self).nframes == old(self).nframes,
            final(self).gc.heap@.len() == old(self).gc.heap@.len(),
            forall|b: int|
                valid(final(self).gc.heap@, b) ==> valid(old(self).gc.heap@, b) && data_at(
                    final(self).gc.heap@,
                    b,
                ) == data_at(old(self).gc.heap@, b),
    {
        let roots = self.collect_roots();
        let ghost h0 = self.gc.heap@;
        let ghost big = rset(roots@ + self.gc.interner@);
        proof {
            assert forall|x: int| rset(roots@).contains(x) implies big.contains(x) by {
                let k = choose|k: int| 0 <= k < roots@.len() && roots@[k].0 == x;
                assert((roots@ + self.gc.interner@)[k].0 as int == x);
            }
        }
        self.gc.sweep(&roots);
        proof {
            let hf = self.gc.heap@;
            // everything named by a root survives with its data
            assert forall|b: int| rset(roots@).contains(b) implies valid(hf, b) && data_at(hf, b)
                == data_at(h0, b) by {
                assert(big.contains(b));
                assert(crate::heap::reach_n(h0, big, b, 0));
            }
            assert forall|b: int| frame_env_in(*old(self).frame, b) implies #[trigger] is_env(
                hf,
                b,
            ) by {
                assert(rset(roots@).contains(b));
                lemma_frame_env_valid(h0, *old(self).frame, b);
            }
            lemma_frame_wf_preserved(h0, hf, *old(self).frame);
            assert forall|i: int| 0 <= i < self.stack@.len() implies value_ok(
                hf,
                #[trigger] self.stack@[i],
            ) by {
                match value_target(self.stack@[i]) {
                    Some(t) => {
                        assert(rset(roots@).contains(t));
                        assert(value_ok(h0, self.stack@[i]));
                    },
                    None => {
                        assert(value_ok(h0, self.stack@[i]));
                    },
                }
            }
            assert forall|i: int| 0 <= i < self.modules@.len() implies is_env(
                hf,
                (#[trigger] self.modules@[i]).env.0 as int,
            ) && (forall|j: int|
                0 <= j < self.modules@[i].sym_table@.len() ==> is_str(
                    hf,
                    (#[trigger] self.modules@[i].sym_table@[j]).0 as int,
                )) by {
                assert(rset(roots@).contains(self.modules@[i].env.0 as int));
                assert forall|j: int| 0 <= j < self.modules@[i].sym_table@.len() implies is_str(
                    hf,
                    (#[trigger] self.modules@[i].sym_table@[j]).0 as int,
                ) by {
                    assert(rset(roots@).contains(self.modules@[i].sym_table@[j].0 as int));
                }
            }
        }
    }
}

/// In a well-formed frame chain every environment handle names a live
/// environment.
pub proof fn lemma_frame_env_valid(h: Seq<Option<Cell>>, f: Frame, b: int)
    requires
        frame_wf(h, f),
        frame_env_in(f, b),
    ensures
        is_env(h, b),
    decreases f,
{
    if f.env.0 as int != b {
        match f.caller {
            Some(c) => {
                lemma_frame_env_valid(h, *c, b);
            },
            None => {},
        }
    }
}

} // verus!
verus! {

/// The machine's non-collector parts stay sound across any heap change
/// that keeps every live cell live with its kind.
pub proof fn lemma_parts_preserved(
    h: Seq<Option<Cell>>,
    h2: Seq<Option<Cell>>,
    f: Frame,
    stack: Seq<Value>,
    ms: Seq<Library>,
)
    requires
        forall|b: int| #[trigger] crate::heap::is_env(h, b) ==> crate::heap::is_env(h2, b),
        forall|b: int| #[trigger] crate::heap::is_pair(h, b) ==> crate::heap::is_pair(h2, b),
        forall|b: int|
            #[trigger] crate::heap::is_closure(h, b) ==> crate::heap::is_closure(h2, b),
        forall|b: int| #[trigger] crate::heap::is_str(h, b) ==> crate::heap::is_str(h2, b),
        frame_wf(h, f),
        stack_ok(h, stack),
        modules_ok(h, ms),
    ensures
        frame_wf(h2, f),
        stack_ok(h2, stack),
        modules_ok(h2, ms),
{
    lemma_frame_wf_same_kinds(h, h2, f);
    assert forall|i: int| 0 <= i < stack.len() implies value_ok(h2, #[trigger] stack[i]) by {
        assert(value_ok(h, stack[i]));
    }
    assert forall|i: int| 0 <= i < ms.len() implies is_env(h2, (#[trigger] ms[i]).env.0 as int)
        && (forall|j: int|
        0 <= j < ms[i].sym_table@.len() ==> is_str(
            h2,
            (#[trigger] ms[i].sym_table@[j]).0 as int,
        )) by {
        assert(is_env(h, ms[i].env.0 as int));
        assert forall|j: int| 0 <= j < ms[i].sym_table@.len() implies is_str(
            h2,
            (#[trigger] ms[i].sym_table@[j]).0 as int,
        ) by {
            assert(is_str(h, ms[i].sym_table@[j].0 as int));
        }
    }
}

/// The hypotheses of `lemma_parts_preserved`, discharged for a heap that
/// covers the old one (allocation).
pub proof fn lemma_covers_kinds(h: Seq<Option<Cell>>, h2: Seq<Option<Cell>>)
    requires
        forall|b: int| valid(h, b) ==> valid(h2, b) && h2[b] == h[b],
    ensures
        forall|b: int| #[trigger] crate::heap::is_env(h, b) ==> crate::heap::is_env(h2, b),
        forall|b: int| #[trigger] crate::heap::is_pair(h, b) ==> crate::heap::is_pair(h2, b),
        forall|b: int|
            #[trigger] crate::heap::is_closure(h, b) ==> crate::heap::is_closure(h2, b),
        forall|b: int| #[trigger] crate::heap::is_str(h, b) ==> crate::heap::is_str(h2, b),
{
}

/// The same hypotheses, discharged for a kind-preserving mutation.
pub proof fn lemma_same_kinds_kinds(h: Seq<Option<Cell>>, h2: Seq<Option<Cell>>)
    requires
        crate::heap::same_kinds(h, h2),
    ensures
        forall|b: int| #[trigger] crate::heap::is_env(h, b) ==> crate::heap::is_env(h2, b),
        forall|b: int| #[trigger] crate::heap::is_pair(h, b) ==> crate::heap::is_pair(h2, b),
        forall|b: int|
            #[trigger] crate::heap::is_closure(h, b) ==> crate::heap::is_closure(h2, b),
        forall|b: int| #[trigger] crate::heap::is_str(h, b) ==> crate::heap::is_str(h2, b),
{
    assert forall|b: int| #[trigger] crate::heap::is_env(h, b) implies crate::heap::is_env(
        h2,
        b,
    ) by {
        assert(valid(h, b));
    }
    assert forall|b: int| #[trigger] crate::heap::is_pair(h, b) implies crate::heap::is_pair(
        h2,
        b,
    ) by {
        assert(valid(h, b));
    }
    assert forall|b: int| #[trigger] crate::heap::is_closure(h, b) implies crate::heap::is_closure(
        h2,
        b,
    ) by {
        assert(valid(h, b));
    }
    assert forall|b: int| #[trigger] crate::heap::is_str(h, b) implies crate::heap::is_str(
        h2,
        b,
    ) by {
        assert(valid(h, b));
    }
}

} // verus!
verus! {

impl VM {
    /// A fresh machine: empty heap and stack, the base primitives
    /// environment as the initial frame's environment, and the largest
    /// step budget.
    pub fn new() -> (vm: VM)
        ensures
            vm_wf(vm),
            vm.stack@.len() == 0,
            vm.modules@.len() == 0,
            vm.out@.len() == 0,
    {
        let mut gc = GC::new();
        let base_env = crate::primitives::env(&mut gc);
        let frame = Frame::new(base_env, 0, 0);
        VM {
            frame,
            stack: Vec::new(),
            gc,
            modules: Vec::new(),
            out: Vec::new(),
            counter: 0,
            fuel: u64::MAX,
            nframes: 1,
        }
    }

    /// Reads the next byte of the current module's text and advances the
    /// program counter. A counter naming no module, or past the end of
    /// the text, is the invalid-opcode error.
    pub fn read_u8(&mut self) -> (r: Result<u8, VmError>)
        requires
            vm_wf(*old(self)),
        ensures
            vm_wf(*final(self)),
            final(self).stack == old(self).stack,
            final(self).gc == old(self).gc,
            final(self).modules == old(self).modules,
            final(self).out == old(self).out,
            final(self).fuel == old(self).fuel,
            final(self).counter == old(self).counter,
            final(self).frame.env == old(self).frame.env,
            final(self).frame.sp == old(self).frame.sp,
            final(self).frame.caller == old(self).frame.caller,
            frame_depth(*final(self).frame) == frame_depth(*old(self).frame),
            r is Err ==> *final(self) == *old(self),
            ({
                let base = crate::bytecode::spec_base(old(self).frame.pc) as int;
                let off = crate::bytecode::spec_off(old(self).frame.pc) as int;
                match r {
                    Ok(b) => {
                        &&& base < old(self).modules@.len()
                        &&& off < old(self).modules@[base].prog@.len()
                        &&& b == old(self).modules@[base].prog@[off]
                        &&& crate::bytecode::spec_base(final(self).frame.pc)
                            == crate::bytecode::spec_base(old(self).frame.pc)
                        &&& crate::bytecode::spec_off(final(self).frame.pc) == off + 1
                    },
                    Err(e) => e == VmError::InvalidOpcode && (base >= old(self).modules@.len()
                        || off >= old(self).modules@[base].prog@.len() || off == u32::MAX),
                }
            }),
    {
        let base = crate::bytecode::base(self.frame.pc);
        if base as usize >= self.modules.len() {
            return Err(VmError::InvalidOpcode);
        }
        let off = crate::bytecode::off(self.frame.pc);
        if off as usize >= self.modules[base as usize].prog.len() {
            return Err(VmError::InvalidOpcode);
        }
        if off == u32::MAX {
            return Err(VmError::InvalidOpcode);
        }
        let b = self.modules[base as usize].prog[off as usize];
        let npc = crate::bytecode::advance_pc(self.frame.pc, 1);
        self.frame.pc = npc;
        Ok(b)
    }

    /// Reads `n` bytes big-endian from the current module's text.
    pub fn read_be(&mut self, n: u8) -> (r: Result<u64, VmError>)
        requires
            vm_wf(*old(self)),
            n <= 8,
        ensures
            vm_wf(*final(self)),
            final(self).stack == old(self).stack,
            final(self).gc == old(self).gc,
            final(self).modules == old(self).modules,
            final(self).out == old(self).out,
            final(self).fuel == old(self).fuel,
            final(self).counter == old(self).counter,
            final(self).frame.env == old(self).frame.env,
            final(self).frame.sp == old(self).frame.sp,
            final(self).frame.caller == old(self).frame.caller,
            frame_depth(*final(self).frame) == frame_depth(*old(self).frame),
            ({
                let base = crate::bytecode::spec_base(old(self).frame.pc) as int;
                let off = crate::bytecode::spec_off(old(self).frame.pc) as int;
                n > 0 && r is Ok ==> {
                    &&& base < old(self).modules@.len()
                    &&& off + n <= old(self).modules@[base].prog@.len()
                    &&& r->Ok_0 == be_val(old(self).modules@[base].prog@, off, n as int)
                    &&& crate::bytecode::spec_base(final(self).frame.pc)
                        == crate::bytecode::spec_base(old(self).frame.pc)
                    &&& crate::bytecode::spec_off(final(self).frame.pc) == off + n
                }
            }),
            n == 0 ==> r == Ok::<u64, VmError>(0) && final(self).frame.pc == old(
                self,
            ).frame.pc,
            // a failed operand read means the bytes were not all there
            r is Err ==> r->Err_0 == VmError::InvalidOpcode && ({
                let base = crate::bytecode::spec_base(old(self).frame.pc) as int;
                let off = crate::bytecode::spec_off(old(self).frame.pc) as int;
                base >= old(self).modules@.len() || off + n > old(self).modules@[base].prog@.len()
                    || off + n > u32::MAX
            }),
    {
        let ghost base0 = crate::bytecode::spec_base(old(self).frame.pc) as int;
        let ghost off0 = crate::bytecode::spec_off(old(self).frame.pc) as int;
        let mut val: u64 = 0;
        let mut i: u8 = 0;
        if n == 0 {
            return Ok(0);
        }
        while i < n
            invariant
                vm_wf(*self),
                self.stack == old(self).stack,
                self.gc == old(self).gc,
                self.modules == old(self).modules,
                self.out == old(self).out,
                self.fuel == old(self).fuel,
                self.counter == old(self).counter,
                self.frame.env == old(self).frame.env,
                self.frame.sp == old(self).frame.sp,
                self.frame.caller == old(self).frame.caller,
                frame_depth(*self.frame) == frame_depth(*old(self).frame),
                i <= n <= 8,
                n > 0,
                base0 == crate::bytecode::spec_base(old(self).frame.pc) as int,
                off0 == crate::bytecode::spec_off(old(self).frame.pc) as int,
                i > 0 ==> base0 < self.modules@.len() && off0 + i
                    <= self.modules@[base0].prog@.len(),
                crate::bytecode::spec_base(self.frame.pc) as int == base0,
                crate::bytecode::spec_off(self.frame.pc) as int == off0 + i,
                val == be_val(self.modules@[base0].prog@, off0, i as int),
                val < p256(i as nat),
            decreases n - i,
        {
            let b = match self.read_u8() {
                Ok(b) => b,
                Err(e) => {
                    return Err(e);
                },
            };
            proof {
                assert(p256(i as nat) <= p256(7)) by {
                    lemma_p256_mono(i as nat, 7);
                }
                assert(val < 0x100_0000_0000_0000) by {
                    assert(p256(0) == 1);
                    assert(p256(1) == 256);
                    assert(p256(2) == 0x1_0000);
                    assert(p256(3) == 0x100_0000);
                    assert(p256(4) == 0x1_0000_0000);
                    assert(p256(5) == 0x100_0000_0000);
                    assert(p256(6) == 0x1_0000_0000_0000);
                    assert(p256(7) == 0x100_0000_0000_0000);
                }
                assert((val << 8) | (b as u64) == val * 256 + b) by (bit_vector)
                    requires
                        val < 0x100_0000_0000_0000u64,
                ;
            }
            val = (val << 8) | (b as u64);
            i += 1;
            proof {
                assert(val == be_val(self.modules@[base0].prog@, off0, i as int));
                assert(val < p256(i as nat)) by {
                    lemma_be_val_bound(self.modules@[base0].prog@, off0, i as int);
                }
            }
        }
        Ok(val)
    }

    /// Reads an 8-byte big-endian signed integer: the raw 64-bit value
    /// reinterpreted in two's complement.
    pub fn read_be_i64(&mut self) -> (r: Result<i64, VmError>)
        requires
            vm_wf(*old(self)),
        ensures
            vm_wf(*final(self)),
            final(self).stack == old(self).stack,
            final(self).gc == old(self).gc,
            final(self).modules == old(self).modules,
            final(self).out == old(self).out,
            final(self).fuel == old(self).fuel,
            final(self).counter == old(self).counter,
            final(self).frame.caller == old(self).frame.caller,
            final(self).frame.env == old(self).frame.env,
            final(self).frame.sp == old(self).frame.sp,
            frame_depth(*final(self).frame) == frame_depth(*old(self).frame),
            ({
                let base = crate::bytecode::spec_base(old(self).frame.pc) as int;
                let off = crate::bytecode::spec_off(old(self).frame.pc) as int;
                r is Ok ==> {
                    let v = be_val(old(self).modules@[base].prog@, off, 8);
                    &&& base < old(self).modules@.len()
                    &&& off + 8 <= old(self).modules@[base].prog@.len()
                    &&& r->Ok_0 as int == if v < 0x8000_0000_0000_0000 {
                        v as int
                    } else {
                        v - 0x1_0000_0000_0000_0000
                    }
                }
            }),
            r is Err ==> r->Err_0 == VmError::InvalidOpcode && ({
                let base = crate::bytecode::spec_base(old(self).frame.pc) as int;
                let off = crate::bytecode::spec_off(old(self).frame.pc) as int;
                base >= old(self).modules@.len() || off + 8 > old(self).modules@[base].prog@.len()
                    || off + 8 > u32::MAX
            }),
            r is Ok ==> crate::bytecode::spec_base(final(self).frame.pc)
                == crate::bytecode::spec_base(old(self).frame.pc) && crate::bytecode::spec_off(
                final(self).frame.pc,
            ) as int == crate::bytecode::spec_off(old(self).frame.pc) + 8,
    {
        let v = match self.read_be(8) {
            Ok(v) => v,
            Err(e) => {
                return Err(e);
            },
        };
        if v <= i64::MAX as u64 {
            Ok(v as i64)
        } else {
            proof {
                assert(v - 0x8000_0000_0000_0000u64 <= 0x7FFF_FFFF_FFFF_FFFFu64);
            }
            // two's complement: the value is v - 2^64
            let low = v - 0x8000_0000_0000_0000;
            Ok(i64::MIN + low as i64)
        }
    }

    /// Pushes a new frame whose caller is the current frame: the `Call`
    /// transition. The callee starts at `pc` in environment `env` with
    /// the current operand-stack height as its base.
    pub fn push_frame(&mut self, pc: u64, env: Ptr)
        requires
            vm_wf(*old(self)),
            is_env(old(self).gc.heap@, env.0 as int),
            old(self).nframes < usize::MAX,
        ensures
            vm_wf(*final(self)),
            final(self).gc == old(self).gc,
            final(self).stack == old(self).stack,
            final(self).modules == old(self).modules,
            final(self).out == old(self).out,
            final(self).fuel == old(self).fuel,
            final(self).counter == old(self).counter,
            frame_depth(*final(self).frame) == frame_depth(*old(self).frame) + 1,
            final(self).frame.pc == pc,
            final(self).frame.env == env,
            final(self).frame.sp == old(self).stack@.len(),
            final(self).frame.caller == Some(old(self).frame),
    {
        let sp = self.stack.len();
        let mut nf = Frame::new(env, sp, pc);
        core::mem::swap(&mut self.frame, &mut nf);
        self.frame.caller = Some(nf);
        self.nframes = self.nframes + 1;
    }

    /// Pops the current frame, restoring its caller: the `Return`
    /// transition. Returning with no caller frame is the stack-underflow
    /// error.
    pub fn pop_frame(&mut self) -> (r: Result<(), VmError>)
        requires
            vm_wf(*old(self)),
        ensures
            vm_wf(*final(self)),
            final(self).gc == old(self).gc,
            final(self).stack == old(self).stack,
            final(self).modules == old(self).modules,
            final(self).out == old(self).out,
            final(self).fuel == old(self).fuel,
            final(self).counter == old(self).counter,
            keeps_below(*old(self), *final(self)),
            match r {
                Ok(_) => (old(self).frame.caller is Some) && final(self).frame == old(
                    self,
                ).frame.caller->Some_0 && frame_depth(*final(self).frame) + 1 == frame_depth(
                    *old(self).frame,
                ),
                Err(e) => e == VmError::StackUnderflow && (old(self).frame.caller is None)
                    && *final(self) == *old(self),
            },
    {
        let mut c: Option<Box<Frame>> = None;
        core::mem::swap(&mut c, &mut self.frame.caller);
        match c {
            Some(f) => {
                self.frame = f;
                self.nframes = self.nframes - 1;
                proof {
                    assert forall|k: nat|
                        1 <= k < old(self).nframes && k <= self.nframes implies #[trigger] chain_suffix(
                        *self.frame,
                        k,
                    ) == chain_suffix(*old(self).frame, k) by {
                        crate::frame::lemma_suffix_pop(*old(self).frame, k);
                    }
                }
                Ok(())
            },
            None => {
                proof {
                    assert(*self.frame =~= *old(self).frame);
                    assert(self.frame == old(self).frame);
                }
                Err(VmError::StackUnderflow)
            },
        }
    }
}

} // verus!
verus! {

/// Whether a closure accepts this many arguments: exactly its arity, or
/// at least its arity when variadic.
pub open spec fn closure_accepts(c: crate::heap::Closure, argc: int) -> bool {
    if c.variadic {
        argc >= c.arity
    } else {
        argc == c.arity
    }
}

/// The argument environment a closure call builds: fresh, of the
/// committed capacity, linked to the closure's captured environment,
/// positional slots holding the popped arguments in order, and for a
/// variadic closure the surplus collected as a list in the final slot.
pub open spec fn args_env_ok(
    h: Seq<Option<Cell>>,
    e: int,
    c: crate::heap::Closure,
    args: Seq<Value>,
) -> bool {
    &&& is_env(h, e)
    &&& env_of(h, e).next == Some(c.env)
    &&& env_of(h, e).capacity == (if c.variadic {
        c.arity as int + 1
    } else {
        c.arity as int
    })
    &&& env_of(h, e).values@.len() == (if c.variadic {
        c.arity as int + 1
    } else {
        c.arity as int
    })
    &&& forall|i: int|
        0 <= i < c.arity ==> (#[trigger] env_of(h, e).values@[i]).defined && abs_of(
            env_of(h, e).values@[i].value,
        ) == abs_of(args[i])
    &&& (c.variadic ==> env_of(h, e).values@[c.arity as int].defined
        && crate::heap::list_elems(
        h,
        env_of(h, e).values@[c.arity as int].value,
        (args.len() - c.arity) as nat + 1,
    ) == Some(crate::primitives::abs_seq(args.skip(c.arity as int))))
}

/// The text of the module the program counter names.
pub open spec fn text_of(vm: VM) -> Seq<u8> {
    vm.modules@[crate::bytecode::spec_base(vm.frame.pc) as int].prog@
}

/// The intra-module offset of the program counter.
pub open spec fn pc_off(vm: VM) -> int {
    crate::bytecode::spec_off(vm.frame.pc) as int
}

/// The program counter names a loaded module.
pub open spec fn pc_in_module(vm: VM) -> bool {
    (crate::bytecode::spec_base(vm.frame.pc) as int) < vm.modules@.len()
}

/// `k` bytes of instruction text are readable at the program counter and
/// the counter can step past them.
pub open spec fn pc_ok(vm: VM, k: int) -> bool {
    pc_in_module(vm) && pc_off(vm) + k <= text_of(vm).len() && pc_off(vm) + k <= u32::MAX
}

/// Everything an ordinary instruction leaves alone: the collector, the
/// tables, the output, the frame count, and the frame's non-counter
/// fields.
pub open spec fn keeps_rest(pre: VM, post: VM) -> bool {
    &&& post.gc == pre.gc
    &&& post.modules == pre.modules
    &&& post.out == pre.out
    &&& post.counter == pre.counter
    &&& post.nframes == pre.nframes
    &&& post.frame.env == pre.frame.env
    &&& post.frame.sp == pre.frame.sp
    &&& post.frame.caller == pre.frame.caller
}

/// Everything below the frames entered since `pre` is untouched: each
/// bottom suffix of the frame chain strictly under the entry depth, and
/// still within the exit depth, is the same chain. Calls only push above
/// it, tail calls only replace the top, and returns only pop down to it.
pub open spec fn keeps_below(pre: VM, post: VM) -> bool {
    forall|k: nat|
        1 <= k < pre.nframes && k <= post.nframes ==> #[trigger] chain_suffix(*post.frame, k)
            == chain_suffix(*pre.frame, k)
}

/// A transition that keeps the calling frame keeps every lower suffix.
pub proof fn lemma_keeps_below_top(pre: VM, post: VM)
    requires
        pre.nframes == frame_depth(*pre.frame),
        post.frame.caller == pre.frame.caller,
    ensures
        keeps_below(pre, post),
{
    assert forall|k: nat|
        1 <= k < pre.nframes && k <= post.nframes implies #[trigger] chain_suffix(*post.frame, k)
        == chain_suffix(*pre.frame, k) by {
        crate::frame::lemma_suffix_same_caller(*pre.frame, *post.frame, k);
    }
}

/// The collector's effect on the machine: only dead cells leave, every
/// surviving cell keeps its payload, and nothing else moves.
pub open spec fn collect_step(a: VM, b: VM) -> bool {
    &&& b.frame == a.frame
    &&& b.stack == a.stack
    &&& b.modules == a.modules
    &&& b.out == a.out
    &&& b.counter == a.counter
    &&& b.fuel == a.fuel
    &&& b.nframes == a.nframes
    &&& b.gc.heap@.len() == a.gc.heap@.len()
    &&& forall|c: int|
        valid(b.gc.heap@, c) ==> valid(a.gc.heap@, c) && data_at(b.gc.heap@, c) == data_at(
            a.gc.heap@,
            c,
        )
}

/// The housekeeping between instructions: only the collection counter
/// moves.
pub open spec fn counter_step(a: VM, b: VM) -> bool {
    &&& b.frame == a.frame
    &&& b.stack == a.stack
    &&& b.gc == a.gc
    &&& b.modules == a.modules
    &&& b.out == a.out
    &&& b.fuel == a.fuel
    &&& b.nframes == a.nframes
}

/// One transition of the module loop: an instruction's decoded effect, a
/// collection, or the counter housekeeping.
pub open spec fn run_step(a: VM, b: VM) -> bool {
    ||| exists|r: Result<(), VmError>| step_effect(a, b, r)
    ||| collect_step(a, b)
    ||| counter_step(a, b)
}

/// `tr` is a run of the machine from `a` to `b`: consecutive states
/// joined by one loop transition each.
pub open spec fn exec_trace(tr: Seq<VM>, a: VM, b: VM) -> bool {
    &&& tr.len() >= 1
    &&& tr[0] == a
    &&& tr[tr.len() - 1] == b
    &&& forall|i: int| 0 <= i < tr.len() - 1 ==> run_step(#[trigger] tr[i], tr[i + 1])
}

/// A run extends by one more transition.
pub proof fn lemma_trace_snoc(tr: Seq<VM>, a: VM, b: VM, c: VM)
    requires
        exec_trace(tr, a, b),
        run_step(b, c),
    ensures
        exec_trace(tr.push(c), a, c),
{
    let tr2 = tr.push(c);
    assert(tr2[0] == a);
    assert(tr2[tr2.len() - 1] == c);
    assert forall|i: int| 0 <= i < tr2.len() - 1 implies run_step(#[trigger] tr2[i], tr2[i + 1]) by {
        if i < tr.len() - 1 {
            assert(tr2[i] == tr[i]);
            assert(tr2[i + 1] == tr[i + 1]);
            assert(run_step(tr[i], tr[i + 1]));
        } else {
            assert(tr2[i] == tr[tr.len() - 1]);
            assert(tr2[i + 1] == c);
        }
    }
}

/// The program counter stepped `k` bytes within its module.
pub open spec fn pc_stepped(pre: VM, post: VM, k: int) -> bool {
    &&& crate::bytecode::spec_base(post.frame.pc) == crate::bytecode::spec_base(pre.frame.pc)
    &&& crate::bytecode::spec_off(post.frame.pc) as int == pc_off(pre) + k
}

/// A four-byte big-endian value fits in 32 bits.
pub proof fn lemma_be_val4(t: Seq<u8>, o: int)
    ensures
        be_val(t, o, 4) <= 0xFFFF_FFFF,
{
    lemma_be_val_bound(t, o, 4);
    assert(p256(0) == 1);
    assert(p256(1) == 256);
    assert(p256(2) == 0x1_0000);
    assert(p256(3) == 0x100_0000);
    assert(p256(4) == 0x1_0000_0000);
}

/// The signed reading of a 64-bit pattern, two's complement.
pub open spec fn i64_of_bits(v: nat) -> int {
    if v < 0x8000_0000_0000_0000 {
        v as int
    } else {
        v - 0x1_0000_0000_0000_0000
    }
}

/// The machine state right after the opcode byte was read: one byte of
/// budget and one byte of text consumed, nothing else touched.
pub open spec fn after_op_read(pre: VM, cur: VM) -> bool {
    &&& pre.fuel > 0
    &&& pc_ok(pre, 1)
    &&& cur.gc == pre.gc
    &&& cur.stack == pre.stack
    &&& cur.modules == pre.modules
    &&& cur.out == pre.out
    &&& cur.counter == pre.counter
    &&& cur.nframes == pre.nframes
    &&& cur.frame.env == pre.frame.env
    &&& cur.frame.sp == pre.frame.sp
    &&& cur.frame.caller == pre.frame.caller
    &&& cur.fuel == pre.fuel - 1
    &&& pc_stepped(pre, cur, 1)
}

/// What one instruction does, by opcode, per the machine's instruction
/// table: the decoded effect on the stack, the frame, the heap and the
/// counter. `pre` is the state at entry, `post` at exit.
pub open spec fn step_effect(pre: VM, post: VM, r: Result<(), VmError>) -> bool {
    &&& keeps_below(pre, post)
    &&& (pre.fuel == 0 ==> r == Err::<(), VmError>(VmError::RecursionLimit) && post == pre)
    &&& (pre.fuel > 0 && pc_ok(pre, 1) ==> match crate::bytecode::opcode_of_byte(
        text_of(pre)[pc_off(pre)],
    ) {
        Option::None => r == Err::<(), VmError>(VmError::InvalidOpcode),
        Option::Some(op) => step_op(op, pre, post, r),
    })
}

/// The per-opcode effect; the opcode byte itself sits at `pc_off(pre)`,
/// operands follow it.
pub open spec fn step_op(op: Opcode, pre: VM, post: VM, r: Result<(), VmError>) -> bool {
    let t = text_of(pre);
    let o = pc_off(pre);
    match op {
        Opcode::Nop => r is Ok && post.stack == pre.stack && keeps_rest(pre, post) && pc_stepped(
            pre,
            post,
            1,
        ) && post.fuel == pre.fuel - 1,
        Opcode::Pop => r is Ok && keeps_rest(pre, post) && pc_stepped(pre, post, 1) && post.fuel
            == pre.fuel - 1 && post.stack@ == (if pre.stack@.len() > 0 {
            pre.stack@.drop_last()
        } else {
            pre.stack@
        }),
        Opcode::Jump => {
            &&& (pc_ok(pre, 5) ==> r is Ok && post.stack == pre.stack && keeps_rest(pre, post)
                && post.fuel == pre.fuel - 1 && crate::bytecode::spec_base(post.frame.pc)
                == crate::bytecode::spec_base(pre.frame.pc) && crate::bytecode::spec_off(
                post.frame.pc,
            ) == be_val(t, o + 1, 4))
            &&& (!pc_ok(pre, 5) ==> r == Err::<(), VmError>(VmError::InvalidOpcode))
        },
        Opcode::Branch => {
            &&& (!pc_ok(pre, 5) ==> r == Err::<(), VmError>(VmError::InvalidOpcode))
            &&& pc_ok(pre, 5) ==> if pre.stack@.len() == 0 {
            r == Err::<(), VmError>(VmError::StackUnderflow)
        } else {
            &&& r is Ok
            &&& keeps_rest(pre, post)
            &&& post.fuel == pre.fuel - 1
            &&& post.stack@ == pre.stack@.drop_last()
            &&& crate::bytecode::spec_base(post.frame.pc) == crate::bytecode::spec_base(
                pre.frame.pc,
            )
            &&& crate::bytecode::spec_off(post.frame.pc) as int == (if pre.stack@.last()
                == Value::Bool(false) {
                be_val(t, o + 1, 4) as int
            } else {
                o + 5
            })
        }
        },
        Opcode::Return => if pre.stack@.len() == 0 {
            r == Err::<(), VmError>(VmError::StackUnderflow)
        } else {
            match pre.frame.caller {
                Option::Some(c) => {
                    &&& r is Ok
                    &&& post.gc == pre.gc
                    &&& post.modules == pre.modules
                    &&& post.out == pre.out
                    &&& post.counter == pre.counter
                    &&& post.nframes + 1 == pre.nframes
                    &&& post.frame == c
                    &&& post.fuel == pre.fuel - 1
                    &&& post.stack@ == pre.stack@.take(
                        if (pre.frame.sp as int) < pre.stack@.len() - 1 {
                            pre.frame.sp as int
                        } else {
                            pre.stack@.len() - 1
                        },
                    ).push(pre.stack@.last())
                },
                Option::None => r == Err::<(), VmError>(VmError::StackUnderflow),
            }
        },
        Opcode::Alloc => {
            &&& (!pc_ok(pre, 9) ==> r == Err::<(), VmError>(VmError::InvalidOpcode))
            &&& pc_ok(pre, 9) ==> if be_val(t, o + 1, 8) > usize::MAX {
            r == Err::<(), VmError>(VmError::InvalidOpcode)
        } else {
            &&& r is Ok
            &&& post.stack == pre.stack
            &&& post.modules == pre.modules
            &&& post.out == pre.out
            &&& post.counter == pre.counter
            &&& post.nframes == pre.nframes
            &&& post.frame.sp == pre.frame.sp
            &&& post.frame.caller == pre.frame.caller
            &&& post.fuel == pre.fuel - 1
            &&& pc_stepped(pre, post, 9)
            &&& is_env(post.gc.heap@, post.frame.env.0 as int)
            &&& env_of(post.gc.heap@, post.frame.env.0 as int).capacity == be_val(t, o + 1, 8)
            &&& env_of(post.gc.heap@, post.frame.env.0 as int).next == Some(pre.frame.env)
            &&& env_of(post.gc.heap@, post.frame.env.0 as int).values@.len() == 0
            &&& forall|b: int|
                valid(pre.gc.heap@, b) ==> valid(post.gc.heap@, b) && post.gc.heap@[b]
                    == pre.gc.heap@[b]
        }
        },
        Opcode::Store => {
            &&& (!pc_ok(pre, 9) ==> r == Err::<(), VmError>(VmError::InvalidOpcode))
            &&& pc_ok(pre, 9) ==> if pre.stack@.len() == 0 {
            r == Err::<(), VmError>(VmError::StackUnderflow)
        } else {
            match crate::env::resolve(
                pre.gc.heap@,
                pre.frame.env.0 as int,
                be_val(t, o + 1, 8) as int,
                pre.gc.heap@.len() as nat,
            ) {
                crate::env::Resolved::Found(eh, idx) => {
                    &&& r is Ok
                    &&& post.stack@ == pre.stack@.drop_last()
                    &&& pc_stepped(pre, post, 9)
                    &&& post.frame.env == pre.frame.env
                    &&& post.frame.sp == pre.frame.sp
                    &&& post.frame.caller == pre.frame.caller
                    &&& post.modules == pre.modules
                    &&& post.out == pre.out
                    &&& post.counter == pre.counter
                    &&& post.nframes == pre.nframes
                    &&& post.fuel == pre.fuel - 1
                    &&& env_of(post.gc.heap@, eh).values@ == crate::heap::slots_store(
                        env_of(pre.gc.heap@, eh).values@,
                        idx,
                        pre.stack@.last(),
                    )
                    &&& env_of(post.gc.heap@, eh).capacity == env_of(pre.gc.heap@, eh).capacity
                    &&& env_of(post.gc.heap@, eh).next == env_of(pre.gc.heap@, eh).next
                    &&& forall|b: int|
                        valid(pre.gc.heap@, b) && b != eh ==> post.gc.heap@[b] == pre.gc.heap@[b]
                },
                _ => r == Err::<(), VmError>(VmError::UnboundReference),
            }
        }
        },
        Opcode::Fetch => {
            &&& (!pc_ok(pre, 9) ==> r == Err::<(), VmError>(VmError::InvalidOpcode))
            &&& pc_ok(pre, 9) ==> match crate::env::resolve(
            pre.gc.heap@,
            pre.frame.env.0 as int,
            be_val(t, o + 1, 8) as int,
            pre.gc.heap@.len() as nat,
        ) {
            crate::env::Resolved::Found(eh, idx) => if 0 <= idx < env_of(
                pre.gc.heap@,
                eh,
            ).values@.len() && env_of(pre.gc.heap@, eh).values@[idx].defined {
                &&& r is Ok
                &&& keeps_rest(pre, post)
                &&& pc_stepped(pre, post, 9)
                &&& post.fuel == pre.fuel - 1
                &&& post.stack@.len() == pre.stack@.len() + 1
                &&& post.stack@.take(pre.stack@.len() as int) == pre.stack@
                &&& abs_of(post.stack@.last()) == abs_of(env_of(pre.gc.heap@, eh).values@[idx].value)
            } else {
                r == Err::<(), VmError>(VmError::UseBeforeDefinition)
            },
            _ => r == Err::<(), VmError>(VmError::UnboundReference),
        }
        },
        Opcode::Push => {
            &&& (!pc_ok(pre, 2) ==> r == Err::<(), VmError>(VmError::InvalidOpcode))
            &&& pc_ok(pre, 2) ==> match crate::bytecode::type_of_byte(t[o + 1]) {
                Option::None => r == Err::<(), VmError>(VmError::InvalidOpcode),
                Option::Some(ty) => step_push(ty, pre, post, r),
            }
        },
        Opcode::Call => if pre.stack@.len() == 0 {
            r == Err::<(), VmError>(VmError::StackUnderflow)
        } else {
            &&& (!pc_ok(pre, 2) ==> r == Err::<(), VmError>(VmError::InvalidOpcode))
            &&& (pc_ok(pre, 2) ==> step_call(pre, post, r, t[o + 1] as int, false))
        },
        Opcode::Tcall => if pre.stack@.len() == 0 {
            r == Err::<(), VmError>(VmError::StackUnderflow)
        } else {
            &&& (!pc_ok(pre, 2) ==> r == Err::<(), VmError>(VmError::InvalidOpcode))
            &&& (pc_ok(pre, 2) ==> step_call(pre, post, r, t[o + 1] as int, true))
        },
    }
}

/// The effect of pushing one literal; the type byte sits at
/// `pc_off(pre) + 1`, its payload after it.
pub open spec fn step_push(ty: Type, pre: VM, post: VM, r: Result<(), VmError>) -> bool {
    let t = text_of(pre);
    let o = pc_off(pre);
    match ty {
        Type::Unit => r is Ok && keeps_rest(pre, post) && pc_stepped(pre, post, 2) && post.fuel
            == pre.fuel - 1 && post.stack@ == pre.stack@.push(Value::Unit),
        Type::Bool => {
            &&& (!pc_ok(pre, 3) ==> r == Err::<(), VmError>(VmError::InvalidOpcode))
            &&& (pc_ok(pre, 3) ==> r is Ok && keeps_rest(pre, post) && pc_stepped(pre, post, 3)
                && post.fuel == pre.fuel - 1 && post.stack@ == pre.stack@.push(
                Value::Bool(t[o + 2] != 0),
            ))
        },
        Type::Int => {
            &&& (!pc_ok(pre, 10) ==> r == Err::<(), VmError>(VmError::InvalidOpcode))
            &&& pc_ok(pre, 10) ==> {
            &&& r is Ok
            &&& keeps_rest(pre, post)
            &&& pc_stepped(pre, post, 10)
            &&& post.fuel == pre.fuel - 1
            &&& post.stack@.len() == pre.stack@.len() + 1
            &&& post.stack@.take(pre.stack@.len() as int) == pre.stack@
            &&& post.stack@.last() is Num
            &&& crate::bignum::big_val(post.stack@.last()->Num_0) == i64_of_bits(
                be_val(t, o + 2, 8),
            )
        }
        },
        Type::Sym => {
            &&& (!pc_ok(pre, 10) ==> r == Err::<(), VmError>(VmError::InvalidOpcode))
            &&& pc_ok(pre, 10) ==> (if be_val(t, o + 2, 8) < pre.modules@[crate::bytecode::spec_base(
            pre.frame.pc,
        ) as int].sym_table@.len() {
            &&& r is Ok
            &&& keeps_rest(pre, post)
            &&& pc_stepped(pre, post, 10)
            &&& post.fuel == pre.fuel - 1
            &&& post.stack@ == pre.stack@.push(
                Value::Symbol(
                    pre.modules@[crate::bytecode::spec_base(pre.frame.pc) as int].sym_table@[be_val(
                        t,
                        o + 2,
                        8,
                    ) as int],
                ),
            )
        } else {
            r == Err::<(), VmError>(VmError::InvalidOpcode)
        })
        },
        Type::Fun => {
            &&& (!pc_ok(pre, 8) ==> r == Err::<(), VmError>(VmError::InvalidOpcode))
            &&& pc_ok(pre, 8) ==> {
            &&& r is Ok
            &&& post.modules == pre.modules
            &&& post.out == pre.out
            &&& post.counter == pre.counter
            &&& post.nframes == pre.nframes
            &&& post.frame.env == pre.frame.env
            &&& post.frame.sp == pre.frame.sp
            &&& post.frame.caller == pre.frame.caller
            &&& pc_stepped(pre, post, 8)
            &&& post.fuel == pre.fuel - 1
            &&& forall|b: int|
                valid(pre.gc.heap@, b) ==> valid(post.gc.heap@, b) && post.gc.heap@[b]
                    == pre.gc.heap@[b]
            &&& post.stack@.len() == pre.stack@.len() + 1
            &&& post.stack@.take(pre.stack@.len() as int) == pre.stack@
            &&& post.stack@.last() is Closure
            &&& crate::heap::is_closure(post.gc.heap@, post.stack@.last()->Closure_0.0 as int)
            &&& crate::heap::closure_of(post.gc.heap@, post.stack@.last()->Closure_0.0 as int)
                == (crate::heap::Closure {
                pc: crate::bytecode::spec_pack(
                    crate::bytecode::spec_base(pre.frame.pc),
                    be_val(t, o + 2, 4) as u32,
                ),
                env: pre.frame.env,
                arity: t[o + 6],
                variadic: t[o + 7] != 0,
            })
        }
        },
        Type::Prim => r == Err::<(), VmError>(VmError::InvalidOpcode),
    }
}

/// The effect of calling the popped value with `argc` arguments;
/// `tail` distinguishes `Tcall` (frame mutated in place) from `Call` (a
/// frame pushed).
pub open spec fn step_call(pre: VM, post: VM, r: Result<(), VmError>, argc: int, tail: bool) -> bool {
    let fval = pre.stack@.last();
    let rest = pre.stack@.drop_last();
    match fval {
        Value::Closure(cl) => if !crate::heap::is_closure(pre.gc.heap@, cl.0 as int) {
            r == Err::<(), VmError>(VmError::CallOnNonCallable)
        } else {
            let c = crate::heap::closure_of(pre.gc.heap@, cl.0 as int);
            &&& ((tail || pre.nframes < usize::MAX) && !closure_accepts(c, argc) ==> r == Err::<
                (),
                VmError,
            >(VmError::ArityMismatch))
            // a compatible call of a live closure always enters it
            &&& ((tail || pre.nframes < usize::MAX) && closure_accepts(c, argc) && argc
                <= rest.len() ==> r is Ok)
            &&& (tail ==> post.nframes == pre.nframes && frame_depth(*post.frame) == frame_depth(
                *pre.frame,
            ))
            &&& (r is Ok ==> {
                &&& closure_accepts(c, argc) && argc <= rest.len()
                &&& post.frame.pc == c.pc
                &&& post.frame.sp as int == post.stack@.len()
                &&& post.stack@ == rest.take(rest.len() - argc)
                &&& args_env_ok(
                    post.gc.heap@,
                    post.frame.env.0 as int,
                    c,
                    rest.skip(rest.len() - argc),
                )
                &&& (if tail {
                    post.frame.caller == pre.frame.caller
                } else {
                    post.nframes == pre.nframes + 1 && (post.frame.caller is Some)
                })
            })
        },
        Value::Primitive(p) => {
            &&& (crate::primitives::prim_wrong_arity(p, argc) ==> r == Err::<(), VmError>(
                VmError::ArityMismatch,
            ))
            &&& (crate::primitives::prim_pure(p) && r is Ok ==> post.gc == pre.gc)
            &&& (crate::primitives::prim_stack_preserving(p) && r is Ok ==> {
                &&& argc <= rest.len()
                &&& post.nframes == pre.nframes
                &&& post.stack@.len() == rest.len() - argc + 1
                &&& post.stack@.take(rest.len() - argc) == rest.take(rest.len() - argc)
                &&& value_ok(post.gc.heap@, post.stack@.last())
            })
        },
        _ => r == Err::<(), VmError>(VmError::CallOnNonCallable),
    }
}

/// The least index of a loaded module with this name, scanning from
/// `i`; `-1` when none bears it.
pub open spec fn find_from(ms: Seq<Library>, nm: crate::library::LibName, i: int) -> int
    decreases ms.len() - i,
{
    if i < 0 || i >= ms.len() {
        -1
    } else if crate::library::name_view(ms[i].name) == crate::library::name_view(nm) {
        i
    } else {
        find_from(ms, nm, i + 1)
    }
}

/// The least index of a loaded module with this name, or `-1`.
pub open spec fn find_idx(ms: Seq<Library>, nm: crate::library::LibName) -> int {
    find_from(ms, nm, 0)
}

/// A match at `x` with no earlier match from `i` pins the scan.
pub proof fn lemma_find_from_hit(ms: Seq<Library>, nm: crate::library::LibName, i: int, x: int)
    requires
        0 <= i <= x < ms.len(),
        crate::library::name_view(ms[x].name) == crate::library::name_view(nm),
        forall|j: int|
            i <= j < x ==> crate::library::name_view((#[trigger] ms[j]).name)
                != crate::library::name_view(nm),
    ensures
        find_from(ms, nm, i) == x,
    decreases x - i,
{
    if i < x {
        lemma_find_from_hit(ms, nm, i + 1, x);
    }
}

/// No match anywhere makes the scan miss.
pub proof fn lemma_find_from_miss(ms: Seq<Library>, nm: crate::library::LibName, i: int)
    requires
        0 <= i,
        forall|j: int|
            i <= j < ms.len() ==> crate::library::name_view((#[trigger] ms[j]).name)
                != crate::library::name_view(nm),
    ensures
        find_from(ms, nm, i) == -1,
    decreases ms.len() - i,
{
    if i < ms.len() {
        lemma_find_from_miss(ms, nm, i + 1);
    }
}

/// The base of every module's environment chain: the primitives
/// environment, fully populated in the fixed order.
pub open spec fn prim_env_ok(h: Seq<Option<Cell>>, e: int) -> bool {
    &&& is_env(h, e)
    &&& env_of(h, e).next is None
    &&& env_of(h, e).capacity == crate::primitives::PRIM_COUNT
    &&& env_of(h, e).values@.len() == crate::primitives::PRIM_COUNT
    &&& forall|i: int|
        0 <= i < crate::primitives::PRIM_COUNT ==> #[trigger] env_of(h, e).values@[i]
            == (crate::heap::EnvItem {
            defined: true,
            value: Value::Primitive(crate::primitives::prim_at(i)),
        })
}

/// The import-environment chain of module linking: `e` heads a chain of
/// one environment per import (last import outermost), each
/// sized by that import's export count and holding copies of its
/// exported values in slot order, the whole chain grounded in a
/// primitives environment.
pub open spec fn import_chain_ok(
    h: Seq<Option<Cell>>,
    e: int,
    ms: Seq<Library>,
    imps: Seq<crate::library::LibName>,
    k: int,
) -> bool
    decreases k,
{
    if k <= 0 {
        prim_env_ok(h, e)
    } else {
        let j = find_idx(ms, imps[k - 1]);
        &&& 0 <= j < ms.len()
        &&& is_env(h, e)
        &&& is_env(h, ms[j].env.0 as int)
        &&& env_of(h, e).capacity == ms[j].exports
        &&& env_of(h, e).next is Some
        &&& env_of(h, e).values@.len() == ({
            let src_len = env_of(h, ms[j].env.0 as int).values@.len() as int;
            if src_len < ms[j].exports as int {
                src_len
            } else {
                ms[j].exports as int
            }
        })
        &&& (forall|v: int|
            0 <= v < env_of(h, e).values@.len() ==> (#[trigger] env_of(h, e).values@[v]).defined
                && abs_of(env_of(h, e).values@[v].value) == abs_of(
                env_of(h, ms[j].env.0 as int).values@[v].value,
            ))
        &&& import_chain_ok(h, env_of(h, e).next->Some_0.0 as int, ms, imps, k - 1)
    }
}

/// The chain only names cells that already existed, so it survives any
/// heap growth that keeps existing cells intact.
pub proof fn lemma_chain_covers(
    h: Seq<Option<Cell>>,
    h2: Seq<Option<Cell>>,
    e: int,
    ms: Seq<Library>,
    imps: Seq<crate::library::LibName>,
    k: int,
)
    requires
        import_chain_ok(h, e, ms, imps, k),
        forall|b: int| valid(h, b) ==> valid(h2, b) && h2[b] == h[b],
    ensures
        import_chain_ok(h2, e, ms, imps, k),
    decreases k,
{
    if k <= 0 {
        assert(h2[e] == h[e]);
    } else {
        let j = find_idx(ms, imps[k - 1]);
        assert(h2[e] == h[e]);
        assert(h2[ms[j].env.0 as int] == h[ms[j].env.0 as int]);
        lemma_chain_covers(h, h2, env_of(h, e).next->Some_0.0 as int, ms, imps, k - 1);
    }
}

/// Every import's module has an export count a slot vector can hold.
pub open spec fn import_exports_fit(ms: Seq<Library>, imps: Seq<crate::library::LibName>) -> bool {
    forall|i: int|
        0 <= i < imps.len() && find_idx(ms, #[trigger] imps[i]) >= 0 ==> ms[find_idx(
            ms,
            imps[i],
        )].exports <= usize::MAX as u64
}

/// Some loaded module bears this name.
pub open spec fn has_module(ms: Seq<Library>, nm: crate::library::LibName) -> bool {
    exists|j: int|
        0 <= j < ms.len() && crate::library::name_view((#[trigger] ms[j]).name)
            == crate::library::name_view(nm)
}

/// Every import name has a loaded module of the same name.
pub open spec fn imports_present(ms: Seq<Library>, imps: Seq<crate::library::LibName>) -> bool {
    forall|i: int| 0 <= i < imps.len() ==> has_module(ms, #[trigger] imps[i])
}

/// Two machine states that differ at most in their remaining step
/// budget.
pub open spec fn same_but_fuel(a: VM, b: VM) -> bool {
    &&& a.frame == b.frame
    &&& a.stack == b.stack
    &&& a.gc == b.gc
    &&& a.modules == b.modules
    &&& a.out == b.out
    &&& a.counter == b.counter
}

impl VM {
    /// Builds the argument environment of a closure call: pops the
    /// arguments into a fresh environment linked to the closure's
    /// captured one. A non-variadic closure demands exactly its arity; a
    /// variadic one at least its arity, the surplus collected into a list
    /// bound in the final slot.
    pub fn get_args_env(&mut self, argc: u8, cl: Ptr) -> (r: Result<Ptr, VmError>)
        requires
            vm_wf(*old(self)),
            crate::heap::is_closure(old(self).gc.heap@, cl.0 as int),
        ensures
            vm_wf(*final(self)),
            final(self).frame == old(self).frame,
            final(self).modules == old(self).modules,
            final(self).out == old(self).out,
            final(self).fuel == old(self).fuel,
            final(self).counter == old(self).counter,
            final(self).nframes == old(self).nframes,
            ({
                let c = crate::heap::closure_of(old(self).gc.heap@, cl.0 as int);
                match r {
                    Ok(e) => {
                        &&& (if c.variadic {
                            argc >= c.arity
                        } else {
                            argc == c.arity
                        })
                        &&& argc as int <= old(self).stack@.len()
                        &&& is_env(final(self).gc.heap@, e.0 as int)
                        &&& env_of(final(self).gc.heap@, e.0 as int).next == Some(c.env)
                        &&& env_of(final(self).gc.heap@, e.0 as int).capacity == (
                        if c.variadic {
                            c.arity as int + 1
                        } else {
                            c.arity as int
                        })
                        &&& env_of(final(self).gc.heap@, e.0 as int).values@.len() == (
                        if c.variadic {
                            c.arity as int + 1
                        } else {
                            c.arity as int
                        })
                        // each positional slot holds the matching argument
                        &&& forall|i: int|
                            0 <= i < c.arity ==> (#[trigger] env_of(
                                final(self).gc.heap@,
                                e.0 as int,
                            ).values@[i]).defined && abs_of(
                                env_of(final(self).gc.heap@, e.0 as int).values@[i].value,
                            ) == abs_of(
                                old(self).stack@[old(self).stack@.len() - argc + i],
                            )
                        // a variadic closure binds its surplus, in order,
                        // as a list in the final slot
                        &&& (c.variadic ==> env_of(
                            final(self).gc.heap@,
                            e.0 as int,
                        ).values@[c.arity as int].defined && crate::heap::list_elems(
                            final(self).gc.heap@,
                            env_of(final(self).gc.heap@, e.0 as int).values@[c.arity as int].value,
                            (argc - c.arity) as nat + 1,
                        ) == Some(
                            crate::primitives::abs_seq(
                                old(self).stack@.skip(
                                    old(self).stack@.len() - argc + c.arity,
                                ),
                            ),
                        ))
                        &&& final(self).stack@ == old(self).stack@.take(
                            old(self).stack@.len() - argc,
                        )
                        &&& args_env_ok(
                            final(self).gc.heap@,
                            e.0 as int,
                            c,
                            old(self).stack@.skip(old(self).stack@.len() - argc),
                        )
                    },
                    Err(e) => {
                        &&& *final(self) == *old(self)
                        &&& (!closure_accepts(c, argc as int) ==> e == VmError::ArityMismatch)
                        &&& (closure_accepts(c, argc as int) ==> e == VmError::StackUnderflow
                            && argc as int > old(self).stack@.len())
                    },
                }
            }),
    {
        let ghost h0 = self.gc.heap@;
        let cinfo = self.gc.closure(cl);
        let arity = cinfo.arity;
        let variadic = cinfo.variadic;
        let cenv = cinfo.env;
        proof {
            assert(crate::heap::cell_ok(h0, data_at(h0, cl.0 as int)));
            assert(is_env(h0, cenv.0 as int));
        }
        if variadic {
            if argc < arity {
                return Err(VmError::ArityMismatch);
            }
        } else {
            if argc != arity {
                return Err(VmError::ArityMismatch);
            }
        }
        if argc as usize > self.stack.len() {
            return Err(VmError::StackUnderflow);
        }
        let base = self.stack.len() - argc as usize;
        // collect the surplus into a list, last surplus value deepest
        let rest: Value;
        if variadic {
            let mut ret = Value::Null;
            let mut i: usize = self.stack.len();
            proof {
                assert(crate::heap::list_elems(self.gc.heap@, ret, 1) =~= Some(
                    crate::primitives::abs_seq(self.stack@.skip(self.stack@.len() as int)),
                ));
            }
            while i > base + arity as usize
                invariant
                    vm_wf(*self),
                    self.frame == old(self).frame,
                    self.modules == old(self).modules,
                    self.out == old(self).out,
                    self.fuel == old(self).fuel,
                    self.counter == old(self).counter,
                    self.stack == old(self).stack,
                    base + (arity as usize) <= i <= self.stack@.len(),
                    base == self.stack@.len() - argc,
                    argc as int <= self.stack@.len(),
                    value_ok(self.gc.heap@, ret),
                    is_env(self.gc.heap@, cenv.0 as int),
                    forall|b: int| valid(h0, b) ==> valid(self.gc.heap@, b),
                    crate::heap::list_elems(
                        self.gc.heap@,
                        ret,
                        (self.stack@.len() - i) as nat + 1,
                    ) == Some(crate::primitives::abs_seq(self.stack@.skip(i as int))),
                decreases i,
            {
                i -= 1;
                proof {
                    assert(value_ok(self.gc.heap@, self.stack@[i as int]));
                }
                let v = self.stack[i].clone();
                proof {
                    crate::heap::lemma_value_ok_abs(self.gc.heap@, self.stack@[i as int], v);
                }
                let ghost hpre = self.gc.heap@;
                let ghost old_ret = ret;
                let ghost old_fuel = (self.stack@.len() - i - 1) as nat + 1;
                let p = self.gc.alloc_pair(v, ret);
                ret = Value::Pair(p);
                proof {
                    lemma_covers_kinds(hpre, self.gc.heap@);
                    lemma_parts_preserved(
                        hpre,
                        self.gc.heap@,
                        *self.frame,
                        self.stack@,
                        self.modules@,
                    );
                    crate::heap::lemma_list_elems_frame(hpre, self.gc.heap@, old_ret, old_fuel);
                    let h = self.gc.heap@;
                    let fuel = (self.stack@.len() - i) as nat + 1;
                    assert(crate::heap::pair_at(h, p.0 as int).cdr == old_ret);
                    assert(abs_of(crate::heap::pair_at(h, p.0 as int).car) == abs_of(
                        self.stack@[i as int],
                    ));
                    assert(crate::heap::list_elems(h, ret, fuel) =~= Some(
                        crate::primitives::abs_seq(self.stack@.skip(i as int)),
                    )) by {
                        assert(seq![abs_of(crate::heap::pair_at(h, p.0 as int).car)]
                            + crate::primitives::abs_seq(self.stack@.skip(i + 1)) =~= crate::primitives::abs_seq(
                            self.stack@.skip(i as int),
                        ));
                    }
                }
            }
            rest = ret;
            proof {
                assert((self.stack@.len() - (base + arity)) as nat + 1 == (argc - arity) as nat
                    + 1);
            }
        } else {
            rest = Value::Null;
        }
        // the argument environment: arity slots, plus one for the surplus
        // list of a variadic closure
        let cap = if variadic {
            arity as usize + 1
        } else {
            arity as usize
        };
        let ghost hpre2 = self.gc.heap@;
        let env = self.gc.alloc_env(cap, Some(cenv));
        proof {
            lemma_covers_kinds(hpre2, self.gc.heap@);
            lemma_parts_preserved(hpre2, self.gc.heap@, *self.frame, self.stack@, self.modules@);
            crate::heap::lemma_value_ok_covers(hpre2, self.gc.heap@, rest);
            if variadic {
                crate::heap::lemma_list_elems_frame(
                    hpre2,
                    self.gc.heap@,
                    rest,
                    (argc - arity) as nat + 1,
                );
            }
        }
        let mut i: usize = 0;
        while i < arity as usize
            invariant
                vm_wf(*self),
                self.frame == old(self).frame,
                self.modules == old(self).modules,
                self.out == old(self).out,
                self.fuel == old(self).fuel,
                self.counter == old(self).counter,
                self.stack == old(self).stack,
                i <= arity as usize,
                base + argc as int == self.stack@.len(),
                self.stack@.len() <= usize::MAX,
                arity <= argc,
                is_env(self.gc.heap@, env.0 as int),
                env_of(self.gc.heap@, env.0 as int).capacity == cap,
                cap == if variadic {
                    arity as int + 1
                } else {
                    arity as int
                },
                env_of(self.gc.heap@, env.0 as int).next == Some(cenv),
                env_of(self.gc.heap@, env.0 as int).values@.len() == i,
                forall|k: int|
                    0 <= k < i ==> (#[trigger] env_of(
                        self.gc.heap@,
                        env.0 as int,
                    ).values@[k]).defined && abs_of(
                        env_of(self.gc.heap@, env.0 as int).values@[k].value,
                    ) == abs_of(self.stack@[base + k]),
                value_ok(self.gc.heap@, rest),
                variadic ==> crate::heap::list_elems(
                    self.gc.heap@,
                    rest,
                    (argc - arity) as nat + 1,
                ) == Some(
                    crate::primitives::abs_seq(self.stack@.skip(base + arity as int)),
                ),
            decreases arity as usize - i,
        {
            proof {
                assert(value_ok(self.gc.heap@, self.stack@[base + i]));
            }
            let v = self.stack[base + i].clone();
            proof {
                crate::heap::lemma_value_ok_abs(self.gc.heap@, self.stack@[base + i], v);
            }
            let ghost hpre3 = self.gc.heap@;
            let ghost s0 = env_of(self.gc.heap@, env.0 as int).values@;
            self.gc.env_store_local(env, i, v);
            proof {
                lemma_same_kinds_kinds(hpre3, self.gc.heap@);
                lemma_parts_preserved(hpre3, self.gc.heap@, *self.frame, self.stack@, self.modules@);
                crate::heap::lemma_value_ok_same_kinds(hpre3, self.gc.heap@, rest);
                assert(crate::heap::slots_store(s0, i as int, v) =~= s0.push(
                    crate::heap::EnvItem { defined: true, value: v },
                ));
                if variadic {
                    assert forall|b: int| #[trigger] crate::heap::is_pair(hpre3, b) implies valid(
                        self.gc.heap@,
                        b,
                    ) && self.gc.heap@[b] == hpre3[b] by {
                        assert(valid(hpre3, b));
                        assert(b != env.0 as int);
                    }
                    crate::heap::lemma_list_elems_frame(
                        hpre3,
                        self.gc.heap@,
                        rest,
                        (argc - arity) as nat + 1,
                    );
                }
            }
            i += 1;
        }
        if variadic {
            let ghost hpre4 = self.gc.heap@;
            let ghost s1 = env_of(self.gc.heap@, env.0 as int).values@;
            self.gc.env_store_local(env, arity as usize, rest);
            proof {
                lemma_same_kinds_kinds(hpre4, self.gc.heap@);
                lemma_parts_preserved(hpre4, self.gc.heap@, *self.frame, self.stack@, self.modules@);
                assert(crate::heap::slots_store(s1, arity as int, rest) =~= s1.push(
                    crate::heap::EnvItem { defined: true, value: rest },
                ));
                assert forall|b: int| #[trigger] crate::heap::is_pair(hpre4, b) implies valid(
                    self.gc.heap@,
                    b,
                ) && self.gc.heap@[b] == hpre4[b] by {
                    assert(valid(hpre4, b));
                    assert(b != env.0 as int);
                }
                crate::heap::lemma_list_elems_frame(
                    hpre4,
                    self.gc.heap@,
                    rest,
                    (argc - arity) as nat + 1,
                );
            }
        }
        self.stack.truncate(base);
        proof {
            let h = self.gc.heap@;
            let c = crate::heap::closure_of(old(self).gc.heap@, cl.0 as int);
            let args = old(self).stack@.skip(old(self).stack@.len() - argc);
            assert(args.len() == argc as int);
            assert forall|i: int| 0 <= i < c.arity implies (#[trigger] env_of(
                h,
                env.0 as int,
            ).values@[i]).defined && abs_of(env_of(h, env.0 as int).values@[i].value) == abs_of(
                args[i],
            ) by {
                assert(args[i] == old(self).stack@[old(self).stack@.len() - argc + i]);
            }
            if c.variadic {
                assert(args.skip(c.arity as int) =~= old(self).stack@.skip(
                    old(self).stack@.len() - argc + c.arity,
                ));
            }
            assert(args_env_ok(h, env.0 as int, c, args));
        }
        Ok(env)
    }

    /// Calls a closure: builds its argument environment and pushes a new
    /// frame starting at the closure's entry point.
    pub fn closure_call(&mut self, cl: Ptr, argc: u8) -> (r: Result<(), VmError>)
        requires
            vm_wf(*old(self)),
            crate::heap::is_closure(old(self).gc.heap@, cl.0 as int),
        ensures
            vm_wf(*final(self)),
            final(self).modules == old(self).modules,
            final(self).out == old(self).out,
            final(self).fuel == old(self).fuel,
            final(self).counter == old(self).counter,
            r is Ok ==> frame_depth(*final(self).frame) == frame_depth(*old(self).frame) + 1,
            r is Err ==> frame_depth(*final(self).frame) == frame_depth(*old(self).frame),
            keeps_below(*old(self), *final(self)),
            // the new frame sits exactly on the chain as it was
            r is Ok ==> final(self).frame.caller is Some && *final(self).frame.caller->Some_0
                == *old(self).frame,
            ({
                let c = crate::heap::closure_of(old(self).gc.heap@, cl.0 as int);
                &&& (r is Ok <==> closure_accepts(c, argc as int) && argc as int <= old(
                    self,
                ).stack@.len() && old(self).nframes < usize::MAX)
                &&& (old(self).nframes < usize::MAX && !closure_accepts(c, argc as int) ==> r
                    == Err::<(), VmError>(VmError::ArityMismatch) && *final(self) == *old(self))
                &&& (r is Ok ==> {
                    &&& final(self).nframes == old(self).nframes + 1
                    &&& final(self).frame.pc == c.pc
                    &&& final(self).frame.sp as int == final(self).stack@.len()
                    &&& final(self).frame.caller is Some
                    &&& final(self).stack@ == old(self).stack@.take(
                        old(self).stack@.len() - argc,
                    )
                    &&& args_env_ok(
                        final(self).gc.heap@,
                        final(self).frame.env.0 as int,
                        c,
                        old(self).stack@.skip(old(self).stack@.len() - argc),
                    )
                })
            }),
    {
        if self.nframes == usize::MAX {
            return Err(VmError::RecursionLimit);
        }
        let pc = self.gc.closure(cl).pc;
        let env = match self.get_args_env(argc, cl) {
            Ok(e) => e,
            Err(e) => {
                return Err(e);
            },
        };
        self.push_frame(pc, env);
        proof {
            assert forall|k: nat|
                1 <= k < old(self).nframes && k <= self.nframes implies #[trigger] chain_suffix(
                *self.frame,
                k,
            ) == chain_suffix(*old(self).frame, k) by {
                crate::frame::lemma_suffix_push(*old(self).frame, *self.frame, k);
            }
        }
        Ok(())
    }

    /// A tail call to a closure: builds the argument environment and then
    /// mutates the current frame in place instead of pushing a new one,
    /// so self- and mutually-recursive tail calls run in constant frame
    /// space. The frame chain length never changes here.
    pub fn tcall(&mut self, cl: Ptr, argc: u8) -> (r: Result<(), VmError>)
        requires
            vm_wf(*old(self)),
            crate::heap::is_closure(old(self).gc.heap@, cl.0 as int),
        ensures
            vm_wf(*final(self)),
            final(self).modules == old(self).modules,
            final(self).out == old(self).out,
            final(self).fuel == old(self).fuel,
            final(self).counter == old(self).counter,
            final(self).nframes == old(self).nframes,
            frame_depth(*final(self).frame) == frame_depth(*old(self).frame),
            final(self).frame.caller == old(self).frame.caller,
            keeps_below(*old(self), *final(self)),
            ({
                let c = crate::heap::closure_of(old(self).gc.heap@, cl.0 as int);
                &&& (r is Ok <==> closure_accepts(c, argc as int) && argc as int <= old(
                    self,
                ).stack@.len())
                &&& (!closure_accepts(c, argc as int) ==> r == Err::<(), VmError>(
                    VmError::ArityMismatch,
                ) && *final(self) == *old(self))
                &&& (r is Ok ==> {
                    &&& final(self).frame.pc == c.pc
                    &&& final(self).frame.sp as int == final(self).stack@.len()
                    &&& final(self).stack@ == old(self).stack@.take(
                        old(self).stack@.len() - argc,
                    )
                    &&& args_env_ok(
                        final(self).gc.heap@,
                        final(self).frame.env.0 as int,
                        c,
                        old(self).stack@.skip(old(self).stack@.len() - argc),
                    )
                })
            }),
    {
        let pc = self.gc.closure(cl).pc;
        let env = match self.get_args_env(argc, cl) {
            Ok(e) => e,
            Err(e) => {
                return Err(e);
            },
        };
        self.frame.sp = self.stack.len();
        self.frame.pc = pc;
        self.frame.env = env;
        proof {
            lemma_keeps_below_top(*old(self), *self);
        }
        Ok(())
    }
}

} // verus!
verus! {

impl VM {
    /// Dispatches a primitive call by tag. The arguments stay on the
    /// stack; the interpreter removes them afterwards.
    pub fn dispatch_prim(&mut self, p: crate::value::Prim, argc: u8) -> (r: Result<Value, VmError>)
        requires
            vm_wf(*old(self)),
        ensures
            vm_wf(*final(self)),
            final(self).fuel <= old(self).fuel,
            final(self).modules == old(self).modules,
            final(self).nframes >= old(self).nframes,
            r is Ok ==> final(self).nframes == old(self).nframes,
            r is Ok ==> value_ok(final(self).gc.heap@, r->Ok_0),
            // frames entered during the call are gone by the time it
            // answers, and the chain below is never touched
            keeps_below(*old(self), *final(self)),
            r is Ok ==> *final(self).frame == *old(self).frame,
            // a fixed-arity primitive given a wrong count surfaces the
            // arity error with the machine untouched
            crate::primitives::prim_wrong_arity(p, argc as int) ==> r == Err::<Value, VmError>(
                VmError::ArityMismatch,
            ) && *final(self) == *old(self),
            // a reading primitive changes at most the step budget
            crate::primitives::prim_pure(p) ==> same_but_fuel(*final(self), *old(self))
                && final(self).nframes == old(self).nframes,
            // a shape predicate always answers, from its argument's
            // shape alone; `eq?` answers with handle equality
            crate::primitives::prim_shape_pred(p) && argc == 1 && 1 <= old(self).stack@.len()
                ==> r == Ok::<Value, VmError>(
                Value::Bool(
                    crate::primitives::shape_pred_val(
                        p,
                        old(self).stack@[old(self).stack@.len() - 1],
                    ),
                ),
            ),
            p == crate::value::Prim::IsEq && argc == 2 && 2 <= old(self).stack@.len() ==> r
                == Ok::<Value, VmError>(
                Value::Bool(
                    crate::heap::eqv(
                        old(self).stack@[old(self).stack@.len() - 2],
                        old(self).stack@[old(self).stack@.len() - 1],
                    ),
                ),
            ),
            // every primitive but the function-applying two leaves the
            // stack and the frame chain as they were
            crate::primitives::prim_stack_preserving(p) ==> final(self).stack == old(self).stack
                && final(self).frame == old(self).frame && final(self).nframes == old(
                self,
            ).nframes && final(self).counter == old(self).counter,
        decreases self.fuel, 1int,
    {
        match p {
            crate::value::Prim::Add => crate::primitives::add(self, argc),
            crate::value::Prim::Min => crate::primitives::min(self, argc),
            crate::value::Prim::Mul => crate::primitives::mul(self, argc),
            crate::value::Prim::Div => crate::primitives::div(self, argc),
            crate::value::Prim::NumEq => crate::primitives::cmp(self, argc),
            crate::value::Prim::IsEq => crate::primitives::eq(self, argc),
            crate::value::Prim::IsEqual => crate::primitives::equal(self, argc),
            crate::value::Prim::IsBoolean => crate::primitives::boolean(self, argc),
            crate::value::Prim::IsNull => crate::primitives::null(self, argc),
            crate::value::Prim::IsPair => crate::primitives::pair(self, argc),
            crate::value::Prim::IsProcedure => crate::primitives::procedure(self, argc),
            crate::value::Prim::IsSymbol => crate::primitives::symbol(self, argc),
            crate::value::Prim::IsNumber => crate::primitives::number(self, argc),
            crate::value::Prim::SymbolToString => crate::primitives::symbol_to_string(self, argc),
            crate::value::Prim::StringToSymbol => crate::primitives::string_to_symbol(self, argc),
            crate::value::Prim::Cons => crate::primitives::cons(self, argc),
            crate::value::Prim::Car => crate::primitives::car(self, argc),
            crate::value::Prim::Cdr => crate::primitives::cdr(self, argc),
            crate::value::Prim::SetCar => crate::primitives::setcar(self, argc),
            crate::value::Prim::SetCdr => crate::primitives::setcdr(self, argc),
            crate::value::Prim::List => crate::primitives::list(self, argc),
            crate::value::Prim::IsList => crate::primitives::is_list(self, argc),
            crate::value::Prim::MapList => crate::primitives::map(self, argc),
            crate::value::Prim::FilterList => crate::primitives::filter(self, argc),
            crate::value::Prim::Display => crate::primitives::display(self, argc),
            crate::value::Prim::Newline => crate::primitives::newline(self, argc),
            crate::value::Prim::Exit => crate::primitives::exit(self, argc),
            crate::value::Prim::Assertion => crate::primitives::assertion(self, argc),
        }
    }
}

} // verus!
verus! {

impl VM {
    /// Calls a callable value: a closure gets a frame, a primitive runs
    /// to completion with its result replacing its arguments.
    pub fn fun_call(&mut self, fun: &Value, argc: u8) -> (r: Result<(), VmError>)
        requires
            vm_wf(*old(self)),
        ensures
            vm_wf(*final(self)),
            final(self).fuel <= old(self).fuel,
            final(self).modules == old(self).modules,
            final(self).nframes >= old(self).nframes,
            keeps_below(*old(self), *final(self)),
            // only closures and primitives are callable
            !(*fun is Closure) && !(*fun is Primitive) ==> r == Err::<(), VmError>(
                VmError::CallOnNonCallable,
            ) && *final(self) == *old(self),
            *fun is Closure && !crate::heap::is_closure(
                old(self).gc.heap@,
                fun->Closure_0.0 as int,
            ) ==> r == Err::<(), VmError>(VmError::CallOnNonCallable) && *final(self) == *old(
                self,
            ),
            // a live closure gets a frame at its entry point over its
            // argument environment; a wrong count is the arity error
            *fun is Closure && crate::heap::is_closure(
                old(self).gc.heap@,
                fun->Closure_0.0 as int,
            ) ==> ({
                let c = crate::heap::closure_of(old(self).gc.heap@, fun->Closure_0.0 as int);
                &&& (r is Ok <==> closure_accepts(c, argc as int) && argc as int <= old(
                    self,
                ).stack@.len() && old(self).nframes < usize::MAX)
                &&& (old(self).nframes < usize::MAX && !closure_accepts(c, argc as int) ==> r
                    == Err::<(), VmError>(VmError::ArityMismatch) && *final(self) == *old(self))
                &&& (r is Ok ==> final(self).nframes == old(self).nframes + 1 && final(self).frame.pc == c.pc && final(self).frame.sp as int == final(self).stack@.len()
                    && (final(self).frame.caller is Some) && final(self).stack@ == old(
                    self,
                ).stack@.take(old(self).stack@.len() - argc) && args_env_ok(
                    final(self).gc.heap@,
                    final(self).frame.env.0 as int,
                    c,
                    old(self).stack@.skip(old(self).stack@.len() - argc),
                ))
            }),
            // a primitive runs to completion: a fixed wrong count is the
            // arity error with nothing touched; a reading primitive's
            // result replaces exactly its argument window
            *fun is Primitive ==> ({
                let p = fun->Primitive_0;
                &&& (crate::primitives::prim_wrong_arity(p, argc as int) ==> r == Err::<
                    (),
                    VmError,
                >(VmError::ArityMismatch) && *final(self) == *old(self))
                &&& (crate::primitives::prim_pure(p) && r is Ok ==> final(self).gc == old(
                    self,
                ).gc && final(self).out == old(self).out)
                &&& (crate::primitives::prim_stack_preserving(p) && r is Ok ==> {
                    &&& argc as int <= old(self).stack@.len()
                    &&& final(self).frame == old(self).frame
                    &&& final(self).counter == old(self).counter
                    &&& final(self).nframes == old(self).nframes
                    &&& final(self).stack@.len() == old(self).stack@.len() - argc + 1
                    &&& final(self).stack@.take(old(self).stack@.len() - argc) == old(
                        self,
                    ).stack@.take(old(self).stack@.len() - argc)
                    &&& value_ok(final(self).gc.heap@, final(self).stack@.last())
                })
            }),
        decreases self.fuel, 2int,
    {
        match fun {
            Value::Closure(cl) => {
                let c = *cl;
                match self.gc.try_closure(c) {
                    Some(_) => {},
                    None => {
                        return Err(VmError::CallOnNonCallable);
                    },
                }
                self.closure_call(c, argc)
            },
            Value::Primitive(p) => {
                let ret = match self.dispatch_prim(*p, argc) {
                    Ok(v) => v,
                    Err(e) => {
                        return Err(e);
                    },
                };
                if argc as usize > self.stack.len() {
                    return Err(VmError::StackUnderflow);
                }
                let nl = self.stack.len() - argc as usize;
                let ghost smid = self.stack@;
                self.stack.truncate(nl);
                self.stack.push(ret);
                proof {
                    if crate::primitives::prim_stack_preserving(*p) {
                        assert(smid == old(self).stack@);
                        assert(self.stack@.take(old(self).stack@.len() - argc) =~= old(
                            self,
                        ).stack@.take(old(self).stack@.len() - argc));
                    }
                }
                Ok(())
            },
            _ => Err(VmError::CallOnNonCallable),
        }
    }

    /// Calls a callable value and runs the machine until that call
    /// returns, handing back its result: how primitives such as `map`
    /// apply a function.
    pub fn fun_call_ret(&mut self, fun: &Value, argc: u8) -> (r: Result<Value, VmError>)
        requires
            vm_wf(*old(self)),
        ensures
            vm_wf(*final(self)),
            final(self).fuel <= old(self).fuel,
            final(self).modules == old(self).modules,
            final(self).nframes >= old(self).nframes,
            r is Ok ==> final(self).nframes == old(self).nframes,
            r is Ok ==> value_ok(final(self).gc.heap@, r->Ok_0),
            keeps_below(*old(self), *final(self)),
            // when the call answers, the frame that made it is current
            // again, exactly as it was
            r is Ok ==> *final(self).frame == *old(self).frame,
            !(*fun is Closure) && !(*fun is Primitive) ==> r == Err::<Value, VmError>(
                VmError::CallOnNonCallable,
            ) && *final(self) == *old(self),
            *fun is Closure && !crate::heap::is_closure(
                old(self).gc.heap@,
                fun->Closure_0.0 as int,
            ) ==> r == Err::<Value, VmError>(VmError::CallOnNonCallable) && *final(self) == *old(
                self,
            ),
            // a reading primitive's arguments leave the stack and its
            // result is handed back
            *fun is Primitive ==> ({
                let p = fun->Primitive_0;
                &&& (crate::primitives::prim_wrong_arity(p, argc as int) ==> r == Err::<
                    Value,
                    VmError,
                >(VmError::ArityMismatch) && *final(self) == *old(self))
                &&& (crate::primitives::prim_pure(p) && r is Ok ==> final(self).gc == old(
                    self,
                ).gc && final(self).out == old(self).out)
                &&& (crate::primitives::prim_stack_preserving(p) && r is Ok ==> {
                    &&& argc as int <= old(self).stack@.len()
                    &&& final(self).frame == old(self).frame
                    &&& final(self).counter == old(self).counter
                    &&& final(self).stack@ == old(self).stack@.take(
                        old(self).stack@.len() - argc,
                    )
                })
            }),
        decreases self.fuel, 4int,
    {
        match fun {
            Value::Primitive(p) => {
                let ret = match self.dispatch_prim(*p, argc) {
                    Ok(v) => v,
                    Err(e) => {
                        return Err(e);
                    },
                };
                if argc as usize > self.stack.len() {
                    return Err(VmError::StackUnderflow);
                }
                let nl = self.stack.len() - argc as usize;
                let ghost smid = self.stack@;
                self.stack.truncate(nl);
                proof {
                    if crate::primitives::prim_stack_preserving(*p) {
                        assert(smid == old(self).stack@);
                        assert(self.stack@ =~= old(self).stack@.take(
                            old(self).stack@.len() - argc,
                        ));
                    }
                }
                Ok(ret)
            },
            Value::Closure(cl) => {
                let c = *cl;
                match self.gc.try_closure(c) {
                    Some(_) => {},
                    None => {
                        return Err(VmError::CallOnNonCallable);
                    },
                }
                let target = self.nframes;
                match self.closure_call(c, argc) {
                    Ok(_) => {},
                    Err(e) => {
                        return Err(e);
                    },
                }
                proof {
                    assert forall|k: nat|
                        1 <= k <= target implies #[trigger] chain_suffix(*self.frame, k)
                        == chain_suffix(*old(self).frame, k) by {
                        crate::frame::lemma_suffix_push(*old(self).frame, *self.frame, k);
                    }
                }
                while self.nframes > target
                    invariant
                        vm_wf(*self),
                        self.fuel <= old(self).fuel,
                        self.modules == old(self).modules,
                        self.nframes >= target,
                        target == old(self).nframes,
                        *fun is Closure,
                        crate::heap::is_closure(old(self).gc.heap@, fun->Closure_0.0 as int),
                        forall|k: nat|
                            1 <= k <= target ==> #[trigger] chain_suffix(*self.frame, k)
                                == chain_suffix(*old(self).frame, k),
                    decreases self.fuel,
                {
                    let ghost it_pre = *self;
                    match self.exec_instr() {
                        Ok(_) => {},
                        Err(e) => {
                            proof {
                                assert forall|k: nat|
                                    1 <= k < old(self).nframes && k <= self.nframes implies #[trigger] chain_suffix(
                                    *self.frame,
                                    k,
                                ) == chain_suffix(*old(self).frame, k) by {
                                    assert(chain_suffix(*self.frame, k) == chain_suffix(
                                        *it_pre.frame,
                                        k,
                                    ));
                                }
                            }
                            return Err(e);
                        },
                    }
                    proof {
                        assert forall|k: nat|
                            1 <= k <= target implies #[trigger] chain_suffix(*self.frame, k)
                            == chain_suffix(*old(self).frame, k) by {
                            assert(chain_suffix(*self.frame, k) == chain_suffix(*it_pre.frame, k));
                        }
                    }
                }
                proof {
                    crate::frame::lemma_suffix_self(*self.frame);
                    crate::frame::lemma_suffix_self(*old(self).frame);
                    assert(chain_suffix(*self.frame, target as nat) == chain_suffix(
                        *old(self).frame,
                        target as nat,
                    ));
                    assert(*self.frame == *old(self).frame);
                }
                let ghost spre = self.stack@;
                match self.stack.pop() {
                    Some(v) => {
                        proof {
                            assert(value_ok(self.gc.heap@, spre[spre.len() - 1]));
                        }
                        Ok(v)
                    },
                    None => Err(VmError::StackUnderflow),
                }
            },
            _ => Err(VmError::CallOnNonCallable),
        }
    }

    /// Executes one instruction at the current program counter.
    pub fn exec_instr(&mut self) -> (r: Result<(), VmError>)
        requires
            vm_wf(*old(self)),
        ensures
            vm_wf(*final(self)),
            final(self).fuel <= old(self).fuel,
            r is Ok ==> final(self).fuel < old(self).fuel,
            final(self).modules == old(self).modules,
            final(self).nframes + 1 >= old(self).nframes,
            step_effect(*old(self), *final(self), r),
        decreases self.fuel, 3int,
    {
        let ghost pre = *old(self);
        if self.fuel == 0 {
            proof {
                lemma_keeps_below_top(pre, *self);
            }
            return Err(VmError::RecursionLimit);
        }
        self.fuel = self.fuel - 1;
        let opb = match self.read_u8() {
            Ok(b) => b,
            Err(e) => {
                proof {
                    lemma_keeps_below_top(pre, *self);
                }
                return Err(e);
            },
        };
        let op = match crate::bytecode::decode_opcode(opb) {
            Some(op) => op,
            None => {
                proof {
                    lemma_keeps_below_top(pre, *self);
                }
                return Err(VmError::InvalidOpcode);
            },
        };
        match op {
            Opcode::Nop => {
                proof {
                    lemma_keeps_below_top(pre, *self);
                    assert(step_op(op, pre, *self, Ok(())));
                }
                Ok(())
            },
            Opcode::Pop => {
                // popping an empty operand stack is a silent no-op
                let _ = self.stack.pop();
                proof {
                    lemma_keeps_below_top(pre, *self);
                    assert(step_op(op, pre, *self, Ok(())));
                }
                Ok(())
            },
            Opcode::Alloc => {
                let rr = self.exec_alloc(Ghost(pre));
                proof {
                    lemma_keeps_below_top(pre, *self);
                }
                rr
            },
            Opcode::Store => {
                let rr = self.exec_store(Ghost(pre));
                proof {
                    lemma_keeps_below_top(pre, *self);
                }
                rr
            },
            Opcode::Fetch => {
                let rr = self.exec_fetch(Ghost(pre));
                proof {
                    lemma_keeps_below_top(pre, *self);
                }
                rr
            },
            Opcode::Push => {
                let rr = self.exec_push(Ghost(pre));
                proof {
                    lemma_keeps_below_top(pre, *self);
                }
                rr
            },
            Opcode::Call => self.exec_call(Ghost(pre)),
            Opcode::Tcall => self.exec_tcall(Ghost(pre)),
            Opcode::Jump => {
                let rr = self.exec_jump(Ghost(pre));
                proof {
                    lemma_keeps_below_top(pre, *self);
                }
                rr
            },
            Opcode::Branch => {
                let rr = self.exec_branch(Ghost(pre));
                proof {
                    lemma_keeps_below_top(pre, *self);
                }
                rr
            },
            Opcode::Return => self.exec_return(Ghost(pre)),
        }
    }

    /// One `Alloc` instruction, after its opcode byte was consumed;
    /// `pre` is the machine state before the opcode byte.
    fn exec_alloc(&mut self, Ghost(pre): Ghost<VM>) -> (r: Result<(), VmError>)
        requires
            vm_wf(*old(self)),
            after_op_read(pre, *old(self)),
            crate::bytecode::opcode_of_byte(text_of(pre)[pc_off(pre)]) == Some(Opcode::Alloc),
        ensures
            vm_wf(*final(self)),
            final(self).fuel <= old(self).fuel,
            final(self).modules == old(self).modules,
            final(self).nframes + 1 >= old(self).nframes,
            final(self).frame.caller == pre.frame.caller,
            step_op(Opcode::Alloc, pre, *final(self), r),
        decreases old(self).fuel as int + 1, 0int,
    {
        let size = match self.read_be(8) {
            Ok(v) => v,
            Err(e) => {
                return Err(e);
            },
        };
        if size > usize::MAX as u64 {
            return Err(VmError::InvalidOpcode);
        }
        let ghost h0 = self.gc.heap@;
        let frame_ref = &mut self.frame;
        frame_ref.alloc_env(&mut self.gc, size as usize);
        proof {
            lemma_covers_kinds(h0, self.gc.heap@);
            lemma_parts_preserved(h0, self.gc.heap@, *pre.frame, self.stack@, self.modules@);
            lemma_frame_wf_same_kinds(h0, self.gc.heap@, *pre.frame);
            assert(step_op(Opcode::Alloc, pre, *self, Ok(())));
        }
        Ok(())
            }


    /// One `Store` instruction, after its opcode byte was consumed;
    /// `pre` is the machine state before the opcode byte.
    fn exec_store(&mut self, Ghost(pre): Ghost<VM>) -> (r: Result<(), VmError>)
        requires
            vm_wf(*old(self)),
            after_op_read(pre, *old(self)),
            crate::bytecode::opcode_of_byte(text_of(pre)[pc_off(pre)]) == Some(Opcode::Store),
        ensures
            vm_wf(*final(self)),
            final(self).fuel <= old(self).fuel,
            final(self).modules == old(self).modules,
            final(self).nframes + 1 >= old(self).nframes,
            final(self).frame.caller == pre.frame.caller,
            step_op(Opcode::Store, pre, *final(self), r),
        decreases old(self).fuel as int + 1, 0int,
    {
        let addr = match self.read_be(8) {
            Ok(v) => v,
            Err(e) => {
                return Err(e);
            },
        };
        let value = match self.stack.pop() {
            Some(v) => v,
            None => {
                return Err(VmError::StackUnderflow);
            },
        };
        proof {
            assert(value_ok(self.gc.heap@, value));
        }
        let ghost h0 = self.gc.heap@;
        let fr = &self.frame;
        match crate::heap::Env::store(&mut self.gc, fr.env, addr, value) {
            Ok(_) => {},
            Err(e) => {
                return Err(e);
            },
        }
        proof {
            lemma_same_kinds_kinds(h0, self.gc.heap@);
            lemma_parts_preserved(h0, self.gc.heap@, *self.frame, self.stack@, self.modules@);
            assert(step_op(Opcode::Store, pre, *self, Ok(())));
        }
        Ok(())
            }


    /// One `Fetch` instruction, after its opcode byte was consumed;
    /// `pre` is the machine state before the opcode byte.
    fn exec_fetch(&mut self, Ghost(pre): Ghost<VM>) -> (r: Result<(), VmError>)
        requires
            vm_wf(*old(self)),
            after_op_read(pre, *old(self)),
            crate::bytecode::opcode_of_byte(text_of(pre)[pc_off(pre)]) == Some(Opcode::Fetch),
        ensures
            vm_wf(*final(self)),
            final(self).fuel <= old(self).fuel,
            final(self).modules == old(self).modules,
            final(self).nframes + 1 >= old(self).nframes,
            final(self).frame.caller == pre.frame.caller,
            step_op(Opcode::Fetch, pre, *final(self), r),
        decreases old(self).fuel as int + 1, 0int,
    {
        let addr = match self.read_be(8) {
            Ok(v) => v,
            Err(e) => {
                return Err(e);
            },
        };
        let v = match crate::heap::Env::fetch(&self.gc, self.frame.env, addr) {
            Ok(v) => v,
            Err(e) => {
                return Err(e);
            },
        };
        let ghost spre = self.stack@;
        self.stack.push(v);
        proof {
            assert(self.stack@.take(spre.len() as int) =~= spre);
            assert(self.stack@.last() == v);
            assert(step_op(Opcode::Fetch, pre, *self, Ok(())));
        }
        Ok(())
            }


    /// One `Push` instruction, after its opcode byte was consumed;
    /// `pre` is the machine state before the opcode byte.
    fn exec_push(&mut self, Ghost(pre): Ghost<VM>) -> (r: Result<(), VmError>)
        requires
            vm_wf(*old(self)),
            after_op_read(pre, *old(self)),
            crate::bytecode::opcode_of_byte(text_of(pre)[pc_off(pre)]) == Some(Opcode::Push),
        ensures
            vm_wf(*final(self)),
            final(self).fuel <= old(self).fuel,
            final(self).modules == old(self).modules,
            final(self).nframes + 1 >= old(self).nframes,
            final(self).frame.caller == pre.frame.caller,
            step_op(Opcode::Push, pre, *final(self), r),
        decreases old(self).fuel as int + 1, 0int,
    {
        let tyb = match self.read_u8() {
            Ok(b) => b,
            Err(e) => {
                return Err(e);
            },
        };
        let ty = match crate::bytecode::decode_type(tyb) {
            Some(t) => t,
            None => {
                return Err(VmError::InvalidOpcode);
            },
        };
        let val: Value = match ty {
            Type::Unit => Value::Unit,
            Type::Bool => {
                let b = match self.read_u8() {
                    Ok(b) => b,
                    Err(e) => {
                        return Err(e);
                    },
                };
                Value::Bool(b != 0)
            },
            Type::Int => {
                let i = match self.read_be_i64() {
                    Ok(i) => i,
                    Err(e) => {
                        return Err(e);
                    },
                };
                Value::Num(crate::bignum::Big::from_i64(i))
            },
            Type::Sym => {
                let idx = match self.read_be(8) {
                    Ok(v) => v,
                    Err(e) => {
                        return Err(e);
                    },
                };
                let base = crate::bytecode::base(self.frame.pc);
                if base as usize >= self.modules.len() {
                    return Err(VmError::InvalidOpcode);
                }
                if idx >= self.modules[base as usize].sym_table.len() as u64 {
                    return Err(VmError::InvalidOpcode);
                }
                let h = self.modules[base as usize].sym_table[idx as usize];
                proof {
                    assert(crate::heap::is_str(
                        self.gc.heap@,
                        self.modules@[base as int].sym_table@[idx as int].0 as int,
                    ));
                }
                Value::Symbol(h)
            },
            Type::Fun => {
                let offset = match self.read_be(4) {
                    Ok(v) => v,
                    Err(e) => {
                        return Err(e);
                    },
                };
                let arity = match self.read_u8() {
                    Ok(b) => b,
                    Err(e) => {
                        return Err(e);
                    },
                };
                let vflag = match self.read_u8() {
                    Ok(b) => b,
                    Err(e) => {
                        return Err(e);
                    },
                };
                let base = crate::bytecode::base(self.frame.pc);
                proof {
                    assert(offset & 0xFFFF_FFFF <= 0xFFFF_FFFFu64) by (bit_vector);
                    lemma_be_val4(text_of(pre), pc_off(pre) + 2);
                    assert(offset & 0xFFFF_FFFF == offset) by (bit_vector)
                        requires
                            offset <= 0xFFFF_FFFFu64,
                    ;
                }
                let clpc = crate::bytecode::pack_pc(
                    base,
                    (offset & 0xFFFF_FFFF) as u32,
                );
                let env = self.frame.env;
                let ghost h0 = self.gc.heap@;
                let cl = self.gc.alloc_closure(arity, vflag != 0, env, clpc);
                proof {
                    lemma_covers_kinds(h0, self.gc.heap@);
                    lemma_parts_preserved(
                        h0,
                        self.gc.heap@,
                        *self.frame,
                        self.stack@,
                        self.modules@,
                    );
                }
                Value::Closure(cl)
            },
            Type::Prim => {
                return Err(VmError::InvalidOpcode);
            },
        };
        let ghost spre = self.stack@;
        self.stack.push(val);
        proof {
            assert(self.stack@.take(spre.len() as int) =~= spre);
            assert(self.stack@.last() == val);
            assert(step_op(Opcode::Push, pre, *self, Ok(())));
        }
        Ok(())
            }


    /// One `Call` instruction, after its opcode byte was consumed;
    /// `pre` is the machine state before the opcode byte.
    fn exec_call(&mut self, Ghost(pre): Ghost<VM>) -> (r: Result<(), VmError>)
        requires
            vm_wf(*old(self)),
            after_op_read(pre, *old(self)),
            crate::bytecode::opcode_of_byte(text_of(pre)[pc_off(pre)]) == Some(Opcode::Call),
        ensures
            vm_wf(*final(self)),
            final(self).fuel <= old(self).fuel,
            final(self).modules == old(self).modules,
            final(self).nframes + 1 >= old(self).nframes,
            keeps_below(pre, *final(self)),
            step_op(Opcode::Call, pre, *final(self), r),
        decreases old(self).fuel as int + 1, 0int,
    {
        let fval = match self.stack.pop() {
            Some(v) => v,
            None => {
                proof {
                    lemma_keeps_below_top(pre, *self);
                }
                return Err(VmError::StackUnderflow);
            },
        };
        let argc = match self.read_u8() {
            Ok(b) => b,
            Err(e) => {
                proof {
                    lemma_keeps_below_top(pre, *self);
                }
                return Err(e);
            },
        };
        let ghost mid = *self;
        let rr = self.fun_call(&fval, argc);
        proof {
            assert forall|k: nat|
                1 <= k < pre.nframes && k <= self.nframes implies #[trigger] chain_suffix(
                *self.frame,
                k,
            ) == chain_suffix(*pre.frame, k) by {
                assert(chain_suffix(*self.frame, k) == chain_suffix(*mid.frame, k));
                crate::frame::lemma_suffix_same_caller(*pre.frame, *mid.frame, k);
            }
            assert(step_op(Opcode::Call, pre, *self, rr));
        }
        rr
            }


    /// One `Tcall` instruction, after its opcode byte was consumed;
    /// `pre` is the machine state before the opcode byte.
    fn exec_tcall(&mut self, Ghost(pre): Ghost<VM>) -> (r: Result<(), VmError>)
        requires
            vm_wf(*old(self)),
            after_op_read(pre, *old(self)),
            crate::bytecode::opcode_of_byte(text_of(pre)[pc_off(pre)]) == Some(Opcode::Tcall),
        ensures
            vm_wf(*final(self)),
            final(self).fuel <= old(self).fuel,
            final(self).modules == old(self).modules,
            final(self).nframes + 1 >= old(self).nframes,
            keeps_below(pre, *final(self)),
            step_op(Opcode::Tcall, pre, *final(self), r),
        decreases old(self).fuel as int + 1, 0int,
    {
        let fval = match self.stack.pop() {
            Some(v) => v,
            None => {
                proof {
                    lemma_keeps_below_top(pre, *self);
                }
                return Err(VmError::StackUnderflow);
            },
        };
        let argc = match self.read_u8() {
            Ok(b) => b,
            Err(e) => {
                proof {
                    lemma_keeps_below_top(pre, *self);
                }
                return Err(e);
            },
        };
        let ghost mid = *self;
        match fval {
            Value::Closure(cl) => {
                match self.gc.try_closure(cl) {
                    Some(_) => {},
                    None => {
                        proof {
                            lemma_keeps_below_top(pre, *self);
                        }
                        return Err(VmError::CallOnNonCallable);
                    },
                }
                let rr = self.tcall(cl, argc);
                proof {
                    assert forall|k: nat|
                        1 <= k < pre.nframes && k <= self.nframes implies #[trigger] chain_suffix(
                        *self.frame,
                        k,
                    ) == chain_suffix(*pre.frame, k) by {
                        assert(chain_suffix(*self.frame, k) == chain_suffix(*mid.frame, k));
                        crate::frame::lemma_suffix_same_caller(*pre.frame, *mid.frame, k);
                    }
                    assert(step_op(Opcode::Tcall, pre, *self, rr));
                }
                rr
            },
            Value::Primitive(p) => {
                let ret = match self.dispatch_prim(p, argc) {
                    Ok(v) => v,
                    Err(e) => {
                        proof {
                            assert forall|k: nat|
                                1 <= k < pre.nframes && k <= self.nframes implies #[trigger] chain_suffix(
                                *self.frame,
                                k,
                            ) == chain_suffix(*pre.frame, k) by {
                                assert(chain_suffix(*self.frame, k) == chain_suffix(
                                    *mid.frame,
                                    k,
                                ));
                                crate::frame::lemma_suffix_same_caller(*pre.frame, *mid.frame, k);
                            }
                        }
                        return Err(e);
                    },
                };
                if argc as usize > self.stack.len() {
                    proof {
                        assert forall|k: nat|
                            1 <= k < pre.nframes && k <= self.nframes implies #[trigger] chain_suffix(
                            *self.frame,
                            k,
                        ) == chain_suffix(*pre.frame, k) by {
                            assert(chain_suffix(*self.frame, k) == chain_suffix(*mid.frame, k));
                            crate::frame::lemma_suffix_same_caller(*pre.frame, *mid.frame, k);
                        }
                    }
                    return Err(VmError::StackUnderflow);
                }
                let nl = self.stack.len() - argc as usize;
                let ghost smid = self.stack@;
                self.stack.truncate(nl);
                self.stack.push(ret);
                proof {
                    let rest = pre.stack@.drop_last();
                    if crate::primitives::prim_stack_preserving(p) {
                        assert(smid == rest);
                        assert(self.stack@.take(rest.len() - argc) =~= rest.take(
                            rest.len() - argc,
                        ));
                    }
                    assert forall|k: nat|
                        1 <= k < pre.nframes && k <= self.nframes implies #[trigger] chain_suffix(
                        *self.frame,
                        k,
                    ) == chain_suffix(*pre.frame, k) by {
                        assert(chain_suffix(*self.frame, k) == chain_suffix(*mid.frame, k));
                        crate::frame::lemma_suffix_same_caller(*pre.frame, *mid.frame, k);
                    }
                    assert(step_op(Opcode::Tcall, pre, *self, Ok(())));
                }
                Ok(())
            },
            _ => {
                proof {
                    lemma_keeps_below_top(pre, *self);
                }
                Err(VmError::CallOnNonCallable)
            },
        }
            }


    /// One `Jump` instruction, after its opcode byte was consumed;
    /// `pre` is the machine state before the opcode byte.
    fn exec_jump(&mut self, Ghost(pre): Ghost<VM>) -> (r: Result<(), VmError>)
        requires
            vm_wf(*old(self)),
            after_op_read(pre, *old(self)),
            crate::bytecode::opcode_of_byte(text_of(pre)[pc_off(pre)]) == Some(Opcode::Jump),
        ensures
            vm_wf(*final(self)),
            final(self).fuel <= old(self).fuel,
            final(self).modules == old(self).modules,
            final(self).nframes + 1 >= old(self).nframes,
            final(self).frame.caller == pre.frame.caller,
            step_op(Opcode::Jump, pre, *final(self), r),
        decreases old(self).fuel as int + 1, 0int,
    {
        let dst = match self.read_be(4) {
            Ok(v) => v,
            Err(e) => {
                return Err(e);
            },
        };
        proof {
            assert(dst & 0xFFFF_FFFF <= 0xFFFF_FFFFu64) by (bit_vector);
            lemma_be_val4(text_of(pre), pc_off(pre) + 1);
            assert(dst & 0xFFFF_FFFF == dst) by (bit_vector)
                requires
                    dst <= 0xFFFF_FFFFu64,
            ;
        }
        let npc = crate::bytecode::with_offset(self.frame.pc, (dst & 0xFFFF_FFFF) as u32);
        self.frame.pc = npc;
        proof {
            assert(step_op(Opcode::Jump, pre, *self, Ok(())));
        }
        Ok(())
            }


    /// One `Branch` instruction, after its opcode byte was consumed;
    /// `pre` is the machine state before the opcode byte.
    fn exec_branch(&mut self, Ghost(pre): Ghost<VM>) -> (r: Result<(), VmError>)
        requires
            vm_wf(*old(self)),
            after_op_read(pre, *old(self)),
            crate::bytecode::opcode_of_byte(text_of(pre)[pc_off(pre)]) == Some(Opcode::Branch),
        ensures
            vm_wf(*final(self)),
            final(self).fuel <= old(self).fuel,
            final(self).modules == old(self).modules,
            final(self).nframes + 1 >= old(self).nframes,
            final(self).frame.caller == pre.frame.caller,
            step_op(Opcode::Branch, pre, *final(self), r),
        decreases old(self).fuel as int + 1, 0int,
    {
        let dst = match self.read_be(4) {
            Ok(v) => v,
            Err(e) => {
                return Err(e);
            },
        };
        let expr = match self.stack.pop() {
            Some(v) => v,
            None => {
                return Err(VmError::StackUnderflow);
            },
        };
        proof {
            lemma_be_val4(text_of(pre), pc_off(pre) + 1);
        }
        match expr {
            Value::Bool(b) => {
                if !b {
                    proof {
                        assert(dst & 0xFFFF_FFFF <= 0xFFFF_FFFFu64) by (bit_vector);
                        assert(dst & 0xFFFF_FFFF == dst) by (bit_vector)
                            requires
                                dst <= 0xFFFF_FFFFu64,
                        ;
                    }
                    let npc = crate::bytecode::with_offset(
                        self.frame.pc,
                        (dst & 0xFFFF_FFFF) as u32,
                    );
                    self.frame.pc = npc;
                }
            },
            _ => {},
        }
        proof {
            assert(pre.stack@.last() == expr);
            assert(step_op(Opcode::Branch, pre, *self, Ok(())));
        }
        Ok(())
            }


    /// One `Return` instruction, after its opcode byte was consumed;
    /// `pre` is the machine state before the opcode byte.
    fn exec_return(&mut self, Ghost(pre): Ghost<VM>) -> (r: Result<(), VmError>)
        requires
            vm_wf(*old(self)),
            after_op_read(pre, *old(self)),
            crate::bytecode::opcode_of_byte(text_of(pre)[pc_off(pre)]) == Some(Opcode::Return),
        ensures
            vm_wf(*final(self)),
            final(self).fuel <= old(self).fuel,
            final(self).modules == old(self).modules,
            final(self).nframes + 1 >= old(self).nframes,
            keeps_below(pre, *final(self)),
            step_op(Opcode::Return, pre, *final(self), r),
        decreases old(self).fuel as int + 1, 0int,
    {
        let ret = match self.stack.pop() {
            Some(v) => v,
            None => {
                proof {
                    lemma_keeps_below_top(pre, *self);
                }
                return Err(VmError::StackUnderflow);
            },
        };
        proof {
            assert(value_ok(self.gc.heap@, ret));
        }
        let sp = self.frame.sp;
        let ghost fsnap = self.frame;
        let ghost spopped = self.stack@;
        proof {
            assert(spopped == pre.stack@.drop_last());
            assert(pre.stack@.drop_last() =~= pre.stack@.take(
                pre.stack@.len() - 1,
            ));
            assert(spopped.take(spopped.len() as int) =~= spopped);
        }
        while self.stack.len() > sp
            invariant
                vm_wf(*self),
                value_ok(self.gc.heap@, ret),
                self.fuel == pre.fuel - 1,
                self.modules == pre.modules,
                self.out == pre.out,
                self.counter == pre.counter,
                self.nframes == pre.nframes,
                self.frame == fsnap,
                self.gc == pre.gc,
                self.stack@.len() <= spopped.len(),
                self.stack@.len() >= sp || self.stack@.len() == spopped.len(),
                self.stack@ == spopped.take(self.stack@.len() as int),
            decreases self.stack@.len(),
        {
            proof {
                assert(spopped.take(self.stack@.len() - 1) =~= spopped.take(
                    self.stack@.len() as int,
                ).take(self.stack@.len() - 1));
                assert(self.stack@.drop_last() =~= self.stack@.take(
                    self.stack@.len() - 1,
                ));
            }
            let _ = self.stack.pop();
        }
        proof {
            assert(spopped == pre.stack@.take(pre.stack@.len() - 1));
        }
        proof {
            let pre = pre;
            let keep = if (pre.frame.sp as int) < pre.stack@.len() - 1 {
                pre.frame.sp as int
            } else {
                pre.stack@.len() - 1
            };
            assert(spopped == pre.stack@.take(pre.stack@.len() - 1));
            assert(self.stack@.len() == keep);
            assert(self.stack@ =~= pre.stack@.take(keep));
        }
        self.stack.push(ret);
        let ghost mid = *self;
        let rr = self.pop_frame();
        proof {
            assert forall|k: nat|
                1 <= k < pre.nframes && k <= self.nframes implies #[trigger] chain_suffix(
                *self.frame,
                k,
            ) == chain_suffix(*pre.frame, k) by {
                assert(chain_suffix(*self.frame, k) == chain_suffix(*mid.frame, k));
                crate::frame::lemma_suffix_same_caller(*pre.frame, *mid.frame, k);
            }
            let pre = pre;
            let keep = if (pre.frame.sp as int) < pre.stack@.len() - 1 {
                pre.frame.sp as int
            } else {
                pre.stack@.len() - 1
            };
            assert(self.stack@ =~= pre.stack@.take(keep).push(pre.stack@.last()));
            assert(step_op(Opcode::Return, pre, *self, rr));
        }
        rr
            }


    /// The index of the loaded module with the given name, if any.
    pub fn find_module(&self, name: &crate::library::LibName) -> (r: Option<usize>)
        ensures
            match r {
                Some(i) => i < self.modules@.len() && crate::library::name_view(
                    self.modules@[i as int].name,
                ) == crate::library::name_view(*name) && i as int == find_idx(
                    self.modules@,
                    *name,
                ),
                None => (forall|j: int|
                    0 <= j < self.modules@.len() ==> crate::library::name_view(
                        (#[trigger] self.modules@[j]).name,
                    ) != crate::library::name_view(*name)) && find_idx(self.modules@, *name)
                    == -1,
            },
    {
        let n = self.modules.len();
        let mut i: usize = 0;
        while i < n
            invariant
                i <= n,
                n == self.modules@.len(),
                forall|j: int|
                    0 <= j < i ==> crate::library::name_view((#[trigger] self.modules@[j]).name)
                        != crate::library::name_view(*name),
            decreases n - i,
        {
            if crate::library::lib_name_eq(&self.modules[i].name, name) {
                proof {
                    lemma_find_from_hit(self.modules@, *name, 0, i as int);
                }
                return Some(i);
            }
            i += 1;
        }
        proof {
            lemma_find_from_miss(self.modules@, *name, 0);
        }
        None
    }

    /// The first import of a parsed module that is not yet in the
    /// loaded-module table, if any. The loader brings that module in
    /// first, then tries again.
    pub fn missing_import(&self, parsed: &crate::library::ParsedLibrary) -> (r: Option<
        crate::library::LibName,
    >)
        ensures
            (r is None) <==> imports_present(self.modules@, parsed.imports@),
    {
        let n = parsed.imports.len();
        let mut i: usize = 0;
        while i < n
            invariant
                i <= n,
                n == parsed.imports@.len(),
                forall|k: int| 0 <= k < i ==> has_module(self.modules@, #[trigger] parsed.imports@[k]),
            decreases n - i,
        {
            match self.find_module(&parsed.imports[i]) {
                Some(x) => {
                    proof {
                        assert(crate::library::name_view(self.modules@[x as int].name)
                            == crate::library::name_view(parsed.imports@[i as int]));
                        assert(has_module(self.modules@, parsed.imports@[i as int]));
                    }
                },
                None => {
                    return Some(parsed.imports[i].clone());
                },
            }
            i += 1;
        }
        proof {
            assert forall|k: int| 0 <= k < parsed.imports@.len() implies has_module(
                self.modules@,
                #[trigger] parsed.imports@[k],
            ) by {
                assert(0 <= k < n as int);
            }
            assert(imports_present(self.modules@, parsed.imports@));
        }
        None
    }

    /// Links a parsed module without running it: interns its symbols,
    /// builds one import environment per import (a copy of that import's
    /// exports, sized by its export count) chained atop a fresh
    /// primitives environment, allocates the exported environment in
    /// front of the chain, registers the module at the next index, and
    /// points a fresh frame at its text. Every import must already be
    /// loaded.
    pub fn register_module(
        &mut self,
        name: crate::library::LibName,
        parsed: crate::library::ParsedLibrary,
    ) -> (r: Result<usize, VmError>)
        requires
            vm_wf(*old(self)),
        ensures
            vm_wf(*final(self)),
            final(self).fuel == old(self).fuel,
            // a missing import stops the link before anything happens
            !imports_present(old(self).modules@, parsed.imports@) ==> r == Err::<usize, VmError>(
                VmError::ModuleNotFound,
            ) && *final(self) == *old(self),
            // oversized counts stop it too
            imports_present(old(self).modules@, parsed.imports@) && (parsed.exports
                > usize::MAX as u64 || old(self).modules@.len() >= u32::MAX as int) ==> r
                == Err::<usize, VmError>(VmError::ModuleLoadError) && *final(self) == *old(self),
            // registration is owed whenever the imports are present and
            // every count fits
            imports_present(old(self).modules@, parsed.imports@) && parsed.exports
                <= usize::MAX as u64 && old(self).modules@.len() < u32::MAX as int
                && import_exports_fit(old(self).modules@, parsed.imports@) ==> r is Ok,
            r is Ok ==> ({
                let idx = old(self).modules@.len();
                let entry = final(self).modules@[idx as int];
                let h = final(self).gc.heap@;
                &&& r->Ok_0 == idx
                &&& final(self).modules@.len() == idx + 1
                &&& (forall|k: int|
                    0 <= k < idx ==> final(self).modules@[k] == old(self).modules@[k])
                &&& entry.prog == parsed.text
                &&& crate::library::name_view(entry.name) == crate::library::name_view(name)
                &&& entry.exports == parsed.exports
                // the symbol table interns the symbol strings, in order
                &&& entry.sym_table@.len() == parsed.symbols@.len()
                &&& (forall|k: int|
                    0 <= k < entry.sym_table@.len() ==> is_str(
                        h,
                        (#[trigger] entry.sym_table@[k]).0 as int,
                    ) && crate::heap::str_of(h, entry.sym_table@[k].0 as int).contents@
                        == parsed.symbols@[k]@ && crate::heap::rset(
                        final(self).gc.interner@,
                    ).contains(entry.sym_table@[k].0 as int))
                // the exported environment: committed to the export
                // count, empty, in front of the import chain
                &&& is_env(h, entry.env.0 as int)
                &&& env_of(h, entry.env.0 as int).capacity == parsed.exports
                &&& env_of(h, entry.env.0 as int).values@.len() == 0
                &&& env_of(h, entry.env.0 as int).next is Some
                &&& import_chain_ok(
                    h,
                    env_of(h, entry.env.0 as int).next->Some_0.0 as int,
                    old(self).modules@,
                    parsed.imports@,
                    parsed.imports@.len() as int,
                )
                // execution would start at the module's text, offset zero
                &&& final(self).stack@.len() == 0
                &&& final(self).nframes == 1
                &&& final(self).frame.env == entry.env
                &&& final(self).frame.sp == 0
                &&& final(self).frame.caller is None
                &&& final(self).frame.pc == crate::bytecode::spec_pack(idx as u32, 0)
                &&& final(self).counter == 0
            }),
    {
        // every import must already be in the table
        let n_imports = parsed.imports.len();
        let mut i: usize = 0;
        while i < n_imports
            invariant
                vm_wf(*self),
                *self == *old(self),
                i <= n_imports,
                n_imports == parsed.imports@.len(),
                forall|k: int|
                    0 <= k < i ==> has_module(self.modules@, #[trigger] parsed.imports@[k]),
            decreases n_imports - i,
        {
            match self.find_module(&parsed.imports[i]) {
                Some(x) => {
                    proof {
                        assert(has_module(self.modules@, parsed.imports@[i as int]));
                    }
                },
                None => {
                    proof {
                        assert(!has_module(self.modules@, parsed.imports@[i as int]));
                    }
                    return Err(VmError::ModuleNotFound);
                },
            }
            i += 1;
        }
        proof {
            assert forall|k: int| 0 <= k < parsed.imports@.len() implies has_module(
                self.modules@,
                #[trigger] parsed.imports@[k],
            ) by {
                assert(0 <= k < n_imports as int);
            }
            assert(imports_present(self.modules@, parsed.imports@));
        }
        if parsed.exports > usize::MAX as u64 {
            return Err(VmError::ModuleLoadError);
        }
        if self.modules.len() >= u32::MAX as usize {
            return Err(VmError::ModuleLoadError);
        }
        // intern the module's symbols
        let mut sym_table: Vec<Ptr> = Vec::new();
        let n_syms = parsed.symbols.len();
        let mut j: usize = 0;
        while j < n_syms
            invariant
                vm_wf(*self),
                self.modules == old(self).modules,
                self.frame == old(self).frame,
                self.stack == old(self).stack,
                self.out == old(self).out,
                self.fuel == old(self).fuel,
                self.counter == old(self).counter,
                self.nframes == old(self).nframes,
                imports_present(old(self).modules@, parsed.imports@),
                parsed.exports <= usize::MAX as u64,
                old(self).modules@.len() < u32::MAX as int,
                j <= n_syms,
                n_syms == parsed.symbols@.len(),
                sym_table@.len() == j,
                forall|k: int|
                    0 <= k < sym_table@.len() ==> is_str(
                        self.gc.heap@,
                        (#[trigger] sym_table@[k]).0 as int,
                    ) && crate::heap::str_of(self.gc.heap@, sym_table@[k].0 as int).contents@
                        == parsed.symbols@[k]@ && crate::heap::rset(self.gc.interner@).contains(
                        sym_table@[k].0 as int,
                    ),
            decreases n_syms - j,
        {
            let contents = parsed.symbols[j].clone();
            proof {
                assert(contents@ =~= parsed.symbols@[j as int]@);
            }
            let ghost h0 = self.gc.heap@;
            let ghost int0 = self.gc.interner@;
            let h = self.gc.intern(contents);
            proof {
                lemma_covers_kinds(h0, self.gc.heap@);
                lemma_parts_preserved(h0, self.gc.heap@, *self.frame, self.stack@, self.modules@);
                assert forall|k: int| 0 <= k < sym_table@.len() implies is_str(
                    self.gc.heap@,
                    (#[trigger] sym_table@[k]).0 as int,
                ) && crate::heap::str_of(self.gc.heap@, sym_table@[k].0 as int).contents@
                    == parsed.symbols@[k]@ && crate::heap::rset(self.gc.interner@).contains(
                    sym_table@[k].0 as int,
                ) by {
                    assert(is_str(h0, sym_table@[k].0 as int));
                    assert(self.gc.heap@[sym_table@[k].0 as int] == h0[sym_table@[k].0 as int]);
                    assert(crate::heap::rset(int0).contains(sym_table@[k].0 as int));
                    let w = choose|w: int| 0 <= w < int0.len() && int0[w].0 == sym_table@[k].0;
                    assert(self.gc.interner@[w] == int0[w]);
                    assert(crate::heap::rset(self.gc.interner@).contains(sym_table@[k].0 as int));
                }
            }
            sym_table.push(h);
            j += 1;
        }
        // base of the chain: a fresh primitives environment
        let ghost h1 = self.gc.heap@;
        let mut chain = crate::primitives::env(&mut self.gc);
        proof {
            lemma_covers_kinds(h1, self.gc.heap@);
            lemma_parts_preserved(h1, self.gc.heap@, *self.frame, self.stack@, self.modules@);
            assert(prim_env_ok(self.gc.heap@, chain.0 as int));
            assert(import_chain_ok(self.gc.heap@, chain.0 as int, old(self).modules@, parsed.imports@, 0));
        }
        // one environment per import, holding a copy of its exports
        let mut im: usize = 0;
        while im < n_imports
            invariant
                vm_wf(*self),
                self.modules == old(self).modules,
                self.frame == old(self).frame,
                self.stack == old(self).stack,
                self.out == old(self).out,
                self.fuel == old(self).fuel,
                self.counter == old(self).counter,
                self.nframes == old(self).nframes,
                imports_present(old(self).modules@, parsed.imports@),
                parsed.exports <= usize::MAX as u64,
                old(self).modules@.len() < u32::MAX as int,
                im <= n_imports,
                n_imports == parsed.imports@.len(),
                is_env(self.gc.heap@, chain.0 as int),
                import_chain_ok(
                    self.gc.heap@,
                    chain.0 as int,
                    old(self).modules@,
                    parsed.imports@,
                    im as int,
                ),
                forall|k: int|
                    0 <= k < sym_table@.len() ==> is_str(
                        self.gc.heap@,
                        (#[trigger] sym_table@[k]).0 as int,
                    ) && crate::heap::str_of(self.gc.heap@, sym_table@[k].0 as int).contents@
                        == parsed.symbols@[k]@ && crate::heap::rset(self.gc.interner@).contains(
                        sym_table@[k].0 as int,
                    ),
                sym_table@.len() == n_syms,
                n_syms == parsed.symbols@.len(),
            decreases n_imports - im,
        {
            let ghost h_ci = self.gc.heap@;
            let ghost int_ci = self.gc.interner@;
            let ghost chain_old = chain;
            let idx = match self.find_module(&parsed.imports[im]) {
                Some(x) => x,
                None => {
                    proof {
                        assert(has_module(self.modules@, parsed.imports@[im as int]));
                        assert(false);
                    }
                    return Err(VmError::ModuleNotFound);
                },
            };
            let src_env = self.modules[idx].env;
            let exports64 = self.modules[idx].exports;
            if exports64 > usize::MAX as u64 {
                proof {
                    assert(find_idx(old(self).modules@, parsed.imports@[im as int])
                        == idx as int);
                    assert(!import_exports_fit(old(self).modules@, parsed.imports@));
                }
                return Err(VmError::ModuleLoadError);
            }
            let cap = exports64 as usize;
            proof {
                assert(is_env(self.gc.heap@, self.modules@[idx as int].env.0 as int));
            }
            let nenv = self.gc.alloc_env(cap, Some(chain));
            proof {
                lemma_covers_kinds(h_ci, self.gc.heap@);
                lemma_parts_preserved(h_ci, self.gc.heap@, *self.frame, self.stack@, self.modules@);
            }
            // copy the import's exported values into the slots its
            // capacity commits to, in slot order
            let nvals = self.gc.env(src_env).values.len();
            let bound = if nvals < cap {
                nvals
            } else {
                cap
            };
            let mut v: usize = 0;
            while v < bound
                invariant
                    vm_wf(*self),
                    self.modules == old(self).modules,
                    self.frame == old(self).frame,
                    self.stack == old(self).stack,
                    self.out == old(self).out,
                    self.fuel == old(self).fuel,
                    self.counter == old(self).counter,
                    self.nframes == old(self).nframes,
                    v <= bound,
                    self.gc.interner@ == int_ci,
                    forall|b: int|
                        valid(h_ci, b) ==> valid(self.gc.heap@, b) && self.gc.heap@[b] == h_ci[b],
                    !valid(h_ci, nenv.0 as int),
                    is_env(self.gc.heap@, src_env.0 as int),
                    src_env == old(self).modules@[idx as int].env,
                    nvals == env_of(self.gc.heap@, src_env.0 as int).values@.len(),
                    bound == if nvals < cap {
                        nvals as int
                    } else {
                        cap as int
                    },
                    is_env(self.gc.heap@, nenv.0 as int),
                    env_of(self.gc.heap@, nenv.0 as int).capacity == cap,
                    env_of(self.gc.heap@, nenv.0 as int).next == Some(chain_old),
                    env_of(self.gc.heap@, nenv.0 as int).values@.len() == v,
                    forall|w: int|
                        0 <= w < v ==> (#[trigger] env_of(
                            self.gc.heap@,
                            nenv.0 as int,
                        ).values@[w]).defined && abs_of(
                            env_of(self.gc.heap@, nenv.0 as int).values@[w].value,
                        ) == abs_of(env_of(self.gc.heap@, src_env.0 as int).values@[w].value),
                decreases bound - v,
            {
                let value = self.gc.env(src_env).values[v].value.clone();
                proof {
                    let h = self.gc.heap@;
                    assert(crate::heap::cell_ok(h, data_at(h, src_env.0 as int)));
                    assert(value_ok(h, env_of(h, src_env.0 as int).values@[v as int].value));
                    crate::heap::lemma_value_ok_abs(
                        h,
                        env_of(h, src_env.0 as int).values@[v as int].value,
                        value,
                    );
                }
                let ghost h3 = self.gc.heap@;
                let ghost s0 = env_of(self.gc.heap@, nenv.0 as int).values@;
                self.gc.env_store_local(nenv, v, value);
                proof {
                    lemma_same_kinds_kinds(h3, self.gc.heap@);
                    lemma_parts_preserved(h3, self.gc.heap@, *self.frame, self.stack@, self.modules@);
                    assert(crate::heap::slots_store(s0, v as int, value) =~= s0.push(
                        crate::heap::EnvItem { defined: true, value: value },
                    ));
                    assert forall|b: int| valid(h_ci, b) implies valid(self.gc.heap@, b)
                        && self.gc.heap@[b] == h_ci[b] by {
                        assert(valid(h3, b) && h3[b] == h_ci[b]);
                        assert(b != nenv.0 as int);
                    }
                }
                v += 1;
            }
            chain = nenv;
            im += 1;
            proof {
                let ms = old(self).modules@;
                let imps = parsed.imports@;
                let h = self.gc.heap@;
                lemma_chain_covers(h_ci, h, chain_old.0 as int, ms, imps, im - 1);
                assert(find_idx(ms, imps[im - 1]) == idx as int);
                assert(import_chain_ok(h, chain.0 as int, ms, imps, im as int));
                assert forall|k: int| 0 <= k < sym_table@.len() implies is_str(
                    h,
                    (#[trigger] sym_table@[k]).0 as int,
                ) && crate::heap::str_of(h, sym_table@[k].0 as int).contents@
                    == parsed.symbols@[k]@ && crate::heap::rset(self.gc.interner@).contains(
                    sym_table@[k].0 as int,
                ) by {
                    assert(is_str(h_ci, sym_table@[k].0 as int));
                    assert(h[sym_table@[k].0 as int] == h_ci[sym_table@[k].0 as int]);
                    assert(self.gc.interner@ == int_ci);
                    assert(crate::heap::rset(int_ci).contains(sym_table@[k].0 as int));
                }
            }
        }
        // the module's own exported environment sits in front of the chain
        let ghost h4 = self.gc.heap@;
        let menv = self.gc.alloc_env(parsed.exports as usize, Some(chain));
        proof {
            lemma_covers_kinds(h4, self.gc.heap@);
            lemma_parts_preserved(h4, self.gc.heap@, *self.frame, self.stack@, self.modules@);
            lemma_chain_covers(
                h4,
                self.gc.heap@,
                chain.0 as int,
                old(self).modules@,
                parsed.imports@,
                n_imports as int,
            );
            assert forall|k: int| 0 <= k < sym_table@.len() implies is_str(
                self.gc.heap@,
                (#[trigger] sym_table@[k]).0 as int,
            ) && crate::heap::str_of(self.gc.heap@, sym_table@[k].0 as int).contents@
                == parsed.symbols@[k]@ && crate::heap::rset(self.gc.interner@).contains(
                sym_table@[k].0 as int,
            ) by {
                assert(is_str(h4, sym_table@[k].0 as int));
                assert(self.gc.heap@[sym_table@[k].0 as int] == h4[sym_table@[k].0 as int]);
            }
        }
        let idx = self.modules.len();
        let lib = Library {
            name,
            prog: parsed.text,
            env: menv,
            imports: parsed.imports,
            sym_table,
            exports: parsed.exports,
        };
        self.modules.push(lib);
        proof {
            assert(self.modules@ == old(self).modules@.push(lib));
            assert forall|k: int| 0 <= k < self.modules@.len() implies is_env(
                self.gc.heap@,
                (#[trigger] self.modules@[k]).env.0 as int,
            ) && (forall|j2: int|
                0 <= j2 < self.modules@[k].sym_table@.len() ==> is_str(
                    self.gc.heap@,
                    (#[trigger] self.modules@[k].sym_table@[j2]).0 as int,
                )) by {
                if k < self.modules@.len() - 1 {
                    assert(self.modules@[k] == old(self).modules@[k]);
                }
            }
        }
        // fresh operand stack and initial frame at the module's text
        self.stack = Vec::new();
        let start = crate::bytecode::pack_pc(idx as u32, 0);
        self.frame = Frame::new(menv, 0, start);
        self.nframes = 1;
        self.counter = 0;
        Ok(idx)
    }

    /// Links a parsed module and executes its text: `register_module`
    /// (which states the whole import-chain layout) followed by the
    /// fetch-decode-execute loop over the new module.
    pub fn link_module(
        &mut self,
        name: crate::library::LibName,
        parsed: crate::library::ParsedLibrary,
    ) -> (r: Result<usize, VmError>)
        requires
            vm_wf(*old(self)),
        ensures
            vm_wf(*final(self)),
            final(self).fuel <= old(self).fuel,
            // a missing import stops the link before anything happens
            !imports_present(old(self).modules@, parsed.imports@) ==> r == Err::<usize, VmError>(
                VmError::ModuleNotFound,
            ) && *final(self) == *old(self),
            // oversized counts stop it too
            imports_present(old(self).modules@, parsed.imports@) && (parsed.exports
                > usize::MAX as u64 || old(self).modules@.len() >= u32::MAX as int) ==> r
                == Err::<usize, VmError>(VmError::ModuleLoadError) && *final(self) == *old(self),
            // on success the module is registered at the next index with
            // its parsed text, name, export count and symbol table
            r is Ok ==> ({
                let idx = old(self).modules@.len();
                &&& r->Ok_0 == idx
                &&& final(self).modules@.len() == idx + 1
                &&& (forall|k: int|
                    0 <= k < idx ==> final(self).modules@[k] == old(self).modules@[k])
                &&& final(self).modules@[idx as int].prog == parsed.text
                &&& crate::library::name_view(final(self).modules@[idx as int].name)
                    == crate::library::name_view(name)
                &&& final(self).modules@[idx as int].exports == parsed.exports
                &&& final(self).modules@[idx as int].sym_table@.len() == parsed.symbols@.len()
                &&& is_env(final(self).gc.heap@, final(self).modules@[idx as int].env.0 as int)
            }),
    {
        let idx = match self.register_module(name, parsed) {
            Ok(i) => i,
            Err(e) => {
                return Err(e);
            },
        };
        let ghost pushed = self.modules@;
        match self.exec_module() {
            Ok(_) => {
                proof {
                    assert(self.modules@ == pushed);
                }
                Ok(idx)
            },
            Err(e) => Err(e),
        }
    }

    /// The fetch-decode-execute loop: runs the current module's text
    /// until the program counter reaches its end, collecting garbage
    /// every fixed number of instructions with the machine's full root
    /// set.
    pub fn exec_module(&mut self) -> (r: Result<(), VmError>)
        requires
            vm_wf(*old(self)),
        ensures
            vm_wf(*final(self)),
            final(self).fuel <= old(self).fuel,
            final(self).modules == old(self).modules,
            // a normal return means the counter ran off the end of its
            // module's text; the counter stays below the collection period
            r is Ok ==> pc_in_module(*final(self)) && pc_off(*final(self)) >= text_of(
                *final(self),
            ).len(),
            r is Ok ==> final(self).counter < GC_PERIOD,
            // the whole run is a chain of single-instruction effects,
            // collections, and counter housekeeping
            exists|tr: Seq<VM>| exec_trace(tr, *old(self), *final(self)),
    {
        // the instruction counter starts fresh for each module run
        self.counter = 0;
        let ghost mut tr: Seq<VM> = seq![*old(self)];
        proof {
            lemma_trace_snoc(tr, *old(self), *old(self), *self);
            tr = tr.push(*self);
        }
        loop
            invariant
                vm_wf(*self),
                self.fuel <= old(self).fuel,
                self.modules == old(self).modules,
                self.counter < GC_PERIOD,
                exec_trace(tr, *old(self), *self),
            ensures
                self.counter < GC_PERIOD,
                exec_trace(tr, *old(self), *self),
            decreases self.fuel,
        {
            let base = crate::bytecode::base(self.frame.pc);
            if base as usize >= self.modules.len() {
                return Err(VmError::InvalidOpcode);
            }
            let off = crate::bytecode::off(self.frame.pc);
            if off as usize >= self.modules[base as usize].prog.len() {
                return Ok(());
            }
            let ghost before_instr = *self;
            let rr = self.exec_instr();
            proof {
                assert(step_effect(before_instr, *self, rr));
                lemma_trace_snoc(tr, *old(self), before_instr, *self);
                tr = tr.push(*self);
            }
            match rr {
                Ok(_) => {},
                Err(e) => {
                    return Err(e);
                },
            }
            if self.counter >= GC_PERIOD - 1 {
                let ghost before_gc = *self;
                self.collect();
                proof {
                    lemma_trace_snoc(tr, *old(self), before_gc, *self);
                    tr = tr.push(*self);
                }
                let ghost before_ctr = *self;
                self.counter = 0;
                proof {
                    lemma_trace_snoc(tr, *old(self), before_ctr, *self);
                    tr = tr.push(*self);
                }
            } else {
                let ghost before_ctr = *self;
                self.counter = self.counter + 1;
                proof {
                    lemma_trace_snoc(tr, *old(self), before_ctr, *self);
                    tr = tr.push(*self);
                }
            }
            proof {
                assert(self.counter < GC_PERIOD);
            }
        }
    }
}

} // verus!
