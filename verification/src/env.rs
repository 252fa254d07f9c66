//! Addressed store and fetch across a chain of environments.
//!
//! Addressing is capacity-relative: each environment commits to a fixed
//! capacity when it is allocated, and a flat address walks the chain by
//! whole capacities, not by how many slots happen to be populated. The
//! walk is bounded by the number of live cells, so a corrupted, cyclic
//! chain surfaces as an error instead of spinning.

use crate::errors::VmError;
use crate::heap::Env;
use crate::heap::GC;
use crate::heap::cell_ok;
use crate::heap::data_at;
use crate::heap::env_of;
use crate::heap::gc_wf;
use crate::heap::is_env;
use crate::heap::same_kinds;
use crate::heap::slots_store;
use crate::heap::valid;
use crate::heap::value_ok;
use crate::heap::Cell;
use crate::heap::EnvItem;
use crate::value::Ptr;
use crate::value::Value;
use crate::value::abs_of;
use vstd::prelude::*;

verus! {

/// Where a flat address lands in an environment chain: a concrete slot of
/// a concrete environment, an address past the whole chain, or a chain
/// too long to be acyclic.
pub enum Resolved {
    Found(int, int),
    Missing,
    Broken,
}

/// Resolves a flat address against the chain rooted at `e`, spending one
/// unit of fuel per link. Addresses inside the current capacity land
/// here; larger ones continue into `next` reduced by the whole capacity.
pub open spec fn resolve(h: Seq<Option<Cell>>, e: int, addr: int, fuel: nat) -> Resolved
    decreases fuel,
{
    if !is_env(h, e) {
        Resolved::Broken
    } else if addr < env_of(h, e).capacity {
        Resolved::Found(e, addr)
    } else if fuel == 0 {
        Resolved::Broken
    } else {
        match env_of(h, e).next {
            Some(n) => resolve(h, n.0 as int, addr - env_of(h, e).capacity, (fuel - 1) as nat),
            None => Resolved::Missing,
        }
    }
}

/// Resolution only reads capacities and links: any heap that keeps every
/// environment's capacity and `next` resolves identically.
pub proof fn lemma_resolve_frame(
    h: Seq<Option<Cell>>,
    h2: Seq<Option<Cell>>,
    e: int,
    addr: int,
    fuel: nat,
)
    requires
        same_kinds(h, h2),
        forall|b: int|
            #[trigger] is_env(h, b) ==> env_of(h2, b).capacity == env_of(h, b).capacity && env_of(
                h2,
                b,
            ).next == env_of(h, b).next,
    ensures
        resolve(h2, e, addr, fuel) == resolve(h, e, addr, fuel),
    decreases fuel,
{
    if is_env(h, e) {
        assert(valid(h, e));
        assert(is_env(h2, e));
        if addr < env_of(h, e).capacity {
        } else if fuel == 0 {
        } else {
            match env_of(h, e).next {
                Some(n) => {
                    lemma_resolve_frame(h, h2, n.0 as int, addr - env_of(h, e).capacity, (fuel
                        - 1) as nat);
                },
                None => {},
            }
        }
    } else {
        if valid(h, e) {
            assert(!is_env(h2, e));
        } else if 0 <= e < h.len() {
            assert(!valid(h2, e));
        } else {
            assert(!valid(h2, e));
        }
    }
}

/// A heap agrees with itself on liveness and kinds.
pub proof fn lemma_same_kinds_refl(h: Seq<Option<Cell>>)
    ensures
        same_kinds(h, h),
{
    assert forall|b: int| valid(h, b) implies crate::heap::same_kind(
        #[trigger] data_at(h, b),
        data_at(h, b),
    ) by {}
}

impl Env {
    /// Writes `value` at flat address `addr` in the chain rooted at
    /// `env`: the slot the address resolves to is written (padding
    /// never-written slots on the way), an address past the chain is the
    /// unbound-reference error, and so is a chain too long to be acyclic.
    pub fn store(gc: &mut GC, env: Ptr, addr: u64, value: Value) -> (r: Result<(), VmError>)
        requires
            gc_wf(*old(gc)),
            is_env(old(gc).heap@, env.0 as int),
            value_ok(old(gc).heap@, value),
        ensures
            gc_wf(*final(gc)),
            final(gc).interner == old(gc).interner,
            final(gc).current_mark == old(gc).current_mark,
            same_kinds(old(gc).heap@, final(gc).heap@),
            match resolve(
                old(gc).heap@,
                env.0 as int,
                addr as int,
                old(gc).heap@.len() as nat,
            ) {
                Resolved::Found(eh, idx) => {
                    &&& r is Ok
                    &&& forall|b: int|
                        valid(old(gc).heap@, b) && b != eh ==> final(gc).heap@[b] == old(
                            gc,
                        ).heap@[b]
                    &&& env_of(final(gc).heap@, eh).values@ == slots_store(
                        env_of(old(gc).heap@, eh).values@,
                        idx,
                        value,
                    )
                    &&& env_of(final(gc).heap@, eh).capacity == env_of(
                        old(gc).heap@,
                        eh,
                    ).capacity
                    &&& env_of(final(gc).heap@, eh).next == env_of(old(gc).heap@, eh).next
                },
                _ => r == Err::<(), VmError>(VmError::UnboundReference) && *final(gc) == *old(
                    gc,
                ),
            },
    {
        let ghost h = gc.heap@;
        let ghost fuel0 = h.len() as nat;
        let mut cur = env;
        let mut a = addr;
        let mut fuel: usize = gc.heap.len();
        loop
            invariant
                *gc == *old(gc),
                gc_wf(*gc),
                gc.heap@ == h,
                fuel0 == h.len() as nat,
                is_env(h, cur.0 as int),
                value_ok(h, value),
                resolve(h, env.0 as int, addr as int, fuel0) == resolve(
                    h,
                    cur.0 as int,
                    a as int,
                    fuel as nat,
                ),
            decreases fuel,
        {
            let e = gc.env(cur);
            let cap = e.capacity;
            let nxt = e.next;
            if a < cap as u64 {
                gc.env_store_local(cur, a as usize, value);
                proof {
                    assert(resolve(h, cur.0 as int, a as int, fuel as nat) == Resolved::Found(
                        cur.0 as int,
                        a as int,
                    ));
                }
                return Ok(());
            }
            match nxt {
                Some(n) => {
                    if fuel == 0 {
                        proof {
                            assert(resolve(h, cur.0 as int, a as int, 0) == Resolved::Broken);
                            lemma_same_kinds_refl(h);
                        }
                        return Err(VmError::UnboundReference);
                    }
                    proof {
                        assert(cell_ok(h, data_at(h, cur.0 as int)));
                        assert(is_env(h, n.0 as int));
                    }
                    fuel = fuel - 1;
                    a = a - cap as u64;
                    cur = n;
                },
                None => {
                    proof {
                        assert(!(resolve(h, cur.0 as int, a as int, fuel as nat) is Found));
                        lemma_same_kinds_refl(h);
                    }
                    return Err(VmError::UnboundReference);
                },
            }
        }
    }

    /// Reads the value at flat address `addr` in the chain rooted at
    /// `env`. A slot never stored to (or past the populated length) is
    /// the use-before-definition error; an address past the chain, or a
    /// chain too long to be acyclic, is the unbound-reference error.
    pub fn fetch(gc: &GC, env: Ptr, addr: u64) -> (r: Result<Value, VmError>)
        requires
            gc_wf(*gc),
            is_env(gc.heap@, env.0 as int),
        ensures
            match resolve(gc.heap@, env.0 as int, addr as int, gc.heap@.len() as nat) {
                Resolved::Found(eh, idx) => {
                    if 0 <= idx < env_of(gc.heap@, eh).values@.len() && env_of(
                        gc.heap@,
                        eh,
                    ).values@[idx].defined {
                        r is Ok && abs_of(r->Ok_0) == abs_of(env_of(gc.heap@, eh).values@[idx].value)
                            && value_ok(gc.heap@, r->Ok_0)
                    } else {
                        r == Err::<Value, VmError>(VmError::UseBeforeDefinition)
                    }
                },
                _ => r == Err::<Value, VmError>(VmError::UnboundReference),
            },
    {
        let ghost h = gc.heap@;
        let ghost fuel0 = h.len() as nat;
        let mut cur = env;
        let mut a = addr;
        let mut fuel: usize = gc.heap.len();
        loop
            invariant
                gc_wf(*gc),
                gc.heap@ == h,
                fuel0 == h.len() as nat,
                is_env(h, cur.0 as int),
                resolve(h, env.0 as int, addr as int, fuel0) == resolve(
                    h,
                    cur.0 as int,
                    a as int,
                    fuel as nat,
                ),
            decreases fuel,
        {
            let e = gc.env(cur);
            let cap = e.capacity;
            if a < cap as u64 {
                proof {
                    assert(resolve(h, cur.0 as int, a as int, fuel as nat) == Resolved::Found(
                        cur.0 as int,
                        a as int,
                    ));
                }
                let idx = a as usize;
                if idx < e.values.len() {
                    if e.values[idx].defined {
                        let v = e.values[idx].value.clone();
                        proof {
                            assert(cell_ok(h, data_at(h, cur.0 as int)));
                            assert(value_ok(h, env_of(h, cur.0 as int).values@[idx as int].value));
                        }
                        return Ok(v);
                    } else {
                        return Err(VmError::UseBeforeDefinition);
                    }
                } else {
                    return Err(VmError::UseBeforeDefinition);
                }
            }
            match e.next {
                Some(n) => {
                    if fuel == 0 {
                        proof {
                            assert(resolve(h, cur.0 as int, a as int, 0) == Resolved::Broken);
                        }
                        return Err(VmError::UnboundReference);
                    }
                    proof {
                        assert(cell_ok(h, data_at(h, cur.0 as int)));
                        assert(is_env(h, n.0 as int));
                    }
                    let n2 = n;
                    fuel = fuel - 1;
                    a = a - cap as u64;
                    cur = n2;
                },
                None => {
                    proof {
                        assert(!(resolve(h, cur.0 as int, a as int, fuel as nat) is Found));
                    }
                    return Err(VmError::UnboundReference);
                },
            }
        }
    }
}

} // verus!
verus! {

/// A non-negative address that resolves to a slot lands on a live
/// environment, at a non-negative index inside its capacity.
pub proof fn lemma_resolve_found(h: Seq<Option<Cell>>, e: int, addr: int, fuel: nat)
    requires
        addr >= 0,
        resolve(h, e, addr, fuel) is Found,
    ensures
        is_env(h, resolve(h, e, addr, fuel)->Found_0),
        0 <= resolve(h, e, addr, fuel)->Found_1 < env_of(
            h,
            resolve(h, e, addr, fuel)->Found_0,
        ).capacity,
    decreases fuel,
{
    if is_env(h, e) && addr >= env_of(h, e).capacity && fuel > 0 {
        match env_of(h, e).next {
            Some(n) => {
                lemma_resolve_found(h, n.0 as int, addr - env_of(h, e).capacity, (fuel - 1) as nat);
            },
            None => {},
        }
    }
}

/// Environment addressing round trip: a `store` that lands on a slot,
/// followed by a `fetch` of the same flat address in the same chain,
/// finds that slot defined and holding the stored value. The address
/// crosses each environment by its fixed capacity, not its populated
/// length, so the resolution is unchanged by the store itself.
pub proof fn lemma_store_then_fetch(
    h: Seq<Option<Cell>>,
    h2: Seq<Option<Cell>>,
    e: int,
    addr: int,
    v: Value,
)
    requires
        addr >= 0,
        resolve(h, e, addr, h.len() as nat) is Found,
        same_kinds(h, h2),
        ({
            let eh = resolve(h, e, addr, h.len() as nat)->Found_0;
            let idx = resolve(h, e, addr, h.len() as nat)->Found_1;
            &&& env_of(h2, eh).values@ == slots_store(env_of(h, eh).values@, idx, v)
            &&& env_of(h2, eh).capacity == env_of(h, eh).capacity
            &&& env_of(h2, eh).next == env_of(h, eh).next
            &&& forall|b: int| valid(h, b) && b != eh ==> h2[b] == h[b]
        }),
    ensures
        resolve(h2, e, addr, h2.len() as nat) == resolve(h, e, addr, h.len() as nat),
        ({
            let eh = resolve(h, e, addr, h.len() as nat)->Found_0;
            let idx = resolve(h, e, addr, h.len() as nat)->Found_1;
            &&& 0 <= idx < env_of(h2, eh).values@.len()
            &&& env_of(h2, eh).values@[idx].defined
            &&& env_of(h2, eh).values@[idx].value == v
        }),
{
    let eh = resolve(h, e, addr, h.len() as nat)->Found_0;
    let idx = resolve(h, e, addr, h.len() as nat)->Found_1;
    lemma_resolve_found(h, e, addr, h.len() as nat);
    assert forall|b: int| #[trigger] is_env(h, b) implies env_of(h2, b).capacity == env_of(
        h,
        b,
    ).capacity && env_of(h2, b).next == env_of(h, b).next by {
        if b != eh {
            assert(h2[b] == h[b]);
        }
    }
    lemma_resolve_frame(h, h2, e, addr, h.len() as nat);
    assert(h2.len() == h.len());
    let s = env_of(h, eh).values@;
    if idx < s.len() {
        assert(slots_store(s, idx, v)[idx] == (EnvItem { defined: true, value: v }));
    } else {
        let pad = Seq::new((idx - s.len()) as nat, |k: int| EnvItem { defined: false, value: Value::Unit });
        assert(slots_store(s, idx, v) == s + pad + seq![EnvItem { defined: true, value: v }]);
        assert(slots_store(s, idx, v).len() == idx + 1);
        assert(slots_store(s, idx, v)[idx] == (EnvItem { defined: true, value: v }));
    }
}

} // verus!
