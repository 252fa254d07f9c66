//! The garbage-collected heap: an arena of mark-carrying cells addressed
//! by handle, with a string interner and a two-color mark-and-sweep
//! collector.
//!
//! A cell is a payload plus a mark bit. The collector never hands the cell
//! out; callers hold `Ptr` handles and go through the typed accessors, so
//! every dereference is bounds- and kind-checked against the heap
//! invariant instead of being raw pointer arithmetic.

use crate::bignum::big_val;
use crate::value::Ptr;
use crate::value::Value;
use crate::value::abs_of;
use crate::value::num_wf;
use crate::value::value_target;
use vstd::prelude::*;

verus! {

/// A cons cell: two values, mutable in place.
#[derive(Debug)]
pub struct Pair {
    pub car: Value,
    pub cdr: Value,
}

/// One environment slot: a value and whether anything was ever stored in
/// it. Reading an undefined slot is the use-before-definition error.
#[derive(Debug)]
pub struct EnvItem {
    pub defined: bool,
    pub value: Value,
}

/// A lexical environment: a lazily grown slot vector inside a capacity
/// fixed at allocation time, and a link to the enclosing environment. The
/// capacity, not the current length, is the unit of cross-environment
/// address arithmetic.
#[derive(Debug)]
pub struct Env {
    pub values: Vec<EnvItem>,
    pub capacity: usize,
    pub next: Option<Ptr>,
}

/// A closure: entry point, captured environment, and calling convention.
/// Immutable after creation.
#[derive(Debug)]
pub struct Closure {
    pub pc: u64,
    pub env: Ptr,
    pub arity: u8,
    pub variadic: bool,
}

/// A heap-allocated string. Interned strings are immutable and
/// deduplicated by content; other strings are distinct cells.
#[derive(Debug)]
pub struct Str {
    pub contents: Vec<u8>,
    pub mutable: bool,
}

/// The payload of a heap cell: the closed set of collectible kinds. The
/// mark traversal dispatches on this enum, keeping the walk exhaustive.
#[derive(Debug)]
pub enum CellData {
    PairData(Pair),
    EnvData(Env),
    ClosureData(Closure),
    StrData(Str),
}

/// The collector's allocation unit: a payload and a mark bit.
#[derive(Debug)]
pub struct Cell {
    pub data: CellData,
    pub mark: bool,
}

/// The collector. It owns every cell, hands out index handles, interns
/// strings, and reclaims cells unreachable from the roots of a sweep.
#[derive(Debug)]
pub struct GC {
    pub heap: Vec<Option<Cell>>,
    pub interner: Vec<Ptr>,
    pub current_mark: bool,
}

/// A handle names a live cell.
pub open spec fn valid(h: Seq<Option<Cell>>, b: int) -> bool {
    0 <= b < h.len() && h[b] is Some
}

/// The payload of the live cell in slot `b`.
pub open spec fn data_at(h: Seq<Option<Cell>>, b: int) -> CellData {
    h[b]->Some_0.data
}

/// The mark bit of the live cell in slot `b`.
pub open spec fn mark_at(h: Seq<Option<Cell>>, b: int) -> bool {
    h[b]->Some_0.mark
}

pub open spec fn is_pair(h: Seq<Option<Cell>>, b: int) -> bool {
    valid(h, b) && data_at(h, b) is PairData
}

pub open spec fn is_env(h: Seq<Option<Cell>>, b: int) -> bool {
    valid(h, b) && data_at(h, b) is EnvData
}

pub open spec fn is_closure(h: Seq<Option<Cell>>, b: int) -> bool {
    valid(h, b) && data_at(h, b) is ClosureData
}

pub open spec fn is_str(h: Seq<Option<Cell>>, b: int) -> bool {
    valid(h, b) && data_at(h, b) is StrData
}

pub open spec fn pair_at(h: Seq<Option<Cell>>, b: int) -> Pair {
    data_at(h, b)->PairData_0
}

pub open spec fn env_of(h: Seq<Option<Cell>>, b: int) -> Env {
    data_at(h, b)->EnvData_0
}

pub open spec fn closure_of(h: Seq<Option<Cell>>, b: int) -> Closure {
    data_at(h, b)->ClosureData_0
}

pub open spec fn str_of(h: Seq<Option<Cell>>, b: int) -> Str {
    data_at(h, b)->StrData_0
}

/// A value is sound against the heap: its handle (if any) names a live
/// cell of the right kind, and a number is canonical.
pub open spec fn value_ok(h: Seq<Option<Cell>>, v: Value) -> bool {
    num_wf(v) && match v {
        Value::Closure(p) => is_closure(h, p.0 as int),
        Value::Pair(p) => is_pair(h, p.0 as int),
        Value::Str(p) => is_str(h, p.0 as int),
        Value::Symbol(p) => is_str(h, p.0 as int),
        _ => true,
    }
}

/// A cell payload is sound against the heap: every value it holds is
/// sound, an environment respects its capacity and links to an
/// environment, a closure captures an environment.
pub open spec fn cell_ok(h: Seq<Option<Cell>>, c: CellData) -> bool {
    match c {
        CellData::PairData(p) => value_ok(h, p.car) && value_ok(h, p.cdr),
        CellData::EnvData(e) => {
            &&& e.values@.len() <= e.capacity
            &&& forall|i: int| 0 <= i < e.values@.len() ==> value_ok(h, #[trigger] e.values@[i].value)
            &&& match e.next {
                Some(p) => is_env(h, p.0 as int),
                None => true,
            }
        },
        CellData::ClosureData(c) => is_env(h, c.env.0 as int),
        CellData::StrData(_) => true,
    }
}

/// The heap invariant: every live cell's payload is sound.
pub open spec fn heap_wf(h: Seq<Option<Cell>>) -> bool {
    forall|b: int| valid(h, b) ==> cell_ok(h, #[trigger] data_at(h, b))
}

/// Some slot among the first `i` of an environment's vector holds a value
/// pointing at `b`.
pub open spec fn vals_child(s: Seq<EnvItem>, i: int, b: int) -> bool {
    exists|k: int| 0 <= k < i && value_target(#[trigger] s[k].value) == Some(b)
}

/// `b` is a direct child of payload `c`: one of `c`'s values, an
/// environment's link, or a closure's captured environment.
pub open spec fn points_to(c: CellData, b: int) -> bool {
    match c {
        CellData::PairData(p) => value_target(p.car) == Some(b) || value_target(p.cdr) == Some(b),
        CellData::EnvData(e) => {
            vals_child(e.values@, e.values@.len() as int, b) || (match e.next {
                Some(p) => p.0 == b,
                None => false,
            })
        },
        CellData::ClosureData(c) => c.env.0 == b,
        CellData::StrData(_) => false,
    }
}

/// The heap's edge relation: cell `a` references cell `b`.
pub open spec fn edge(h: Seq<Option<Cell>>, a: int, b: int) -> bool {
    valid(h, a) && points_to(data_at(h, a), b)
}

/// `b` can be reached from the root set in at most `n` edge steps.
pub open spec fn reach_n(h: Seq<Option<Cell>>, roots: Set<int>, b: int, n: nat) -> bool
    decreases n,
{
    if n == 0 {
        roots.contains(b)
    } else {
        roots.contains(b) || exists|a: int| reach_n(h, roots, a, (n - 1) as nat) && edge(h, a, b)
    }
}

/// `b` is reachable from the root set.
pub open spec fn reachable(h: Seq<Option<Cell>>, roots: Set<int>, b: int) -> bool {
    exists|n: nat| reach_n(h, roots, b, n)
}

/// The set of slots a list of handles names.
pub open spec fn rset(s: Seq<Ptr>) -> Set<int> {
    Set::new(|b: int| exists|i: int| 0 <= i < s.len() && s[i].0 == b)
}

/// The collector invariant: sound heap, every interned handle names an
/// immutable string, no two interned strings share contents, and every
/// live cell wears the current color (so a fresh collection starts with
/// nothing wearing the flipped color).
pub open spec fn gc_wf(g: GC) -> bool {
    &&& heap_wf(g.heap@)
    &&& forall|i: int|
        0 <= i < g.interner@.len() ==> is_str(g.heap@, #[trigger] g.interner@[i].0 as int)
    &&& forall|i: int|
        0 <= i < g.interner@.len() ==> !str_of(g.heap@, #[trigger] g.interner@[i].0 as int).mutable
    &&& forall|i: int, j: int|
        0 <= i < g.interner@.len() && 0 <= j < g.interner@.len() && i != j ==> str_of(
            g.heap@,
            #[trigger] g.interner@[i].0 as int,
        ).contents@ != str_of(g.heap@, #[trigger] g.interner@[j].0 as int).contents@
    &&& forall|b: int| valid(g.heap@, b) ==> mark_at(g.heap@, b) == g.current_mark
}

/// One heap covers another: every cell live in the first is live and
/// unchanged in the second. Allocation covers; mutation and collection do
/// not.
pub open spec fn covers(h: Seq<Option<Cell>>, h2: Seq<Option<Cell>>) -> bool {
    forall|b: int| valid(h, b) ==> valid(h2, b) && h2[b] == h[b]
}

/// Value soundness carries over to any covering heap.
pub proof fn lemma_value_ok_covers(h: Seq<Option<Cell>>, h2: Seq<Option<Cell>>, v: Value)
    requires
        covers(h, h2),
        value_ok(h, v),
    ensures
        value_ok(h2, v),
{
}

/// Payload soundness carries over to any covering heap.
pub proof fn lemma_cell_ok_covers(h: Seq<Option<Cell>>, h2: Seq<Option<Cell>>, c: CellData)
    requires
        covers(h, h2),
        cell_ok(h, c),
    ensures
        cell_ok(h2, c),
{
    match c {
        CellData::EnvData(e) => {
            assert forall|i: int| 0 <= i < e.values@.len() implies value_ok(
                h2,
                #[trigger] e.values@[i].value,
            ) by {
                lemma_value_ok_covers(h, h2, e.values@[i].value);
            }
        },
        _ => {},
    }
}

impl GC {
    /// A fresh collector: empty heap, empty interner.
    pub fn new() -> (g: GC)
        ensures
            gc_wf(g),
            g.heap@.len() == 0,
            g.interner@.len() == 0,
    {
        GC { heap: Vec::new(), interner: Vec::new(), current_mark: false }
    }

    /// Allocates a cell for `data` and returns its handle. The new cell is
    /// entered into the heap immediately, wearing the current color; a
    /// previously freed slot is reused when one exists. Allocation always
    /// succeeds.
    pub fn allocate(&mut self, data: CellData) -> (r: Ptr)
        requires
            gc_wf(*old(self)),
            cell_ok(old(self).heap@, data),
        ensures
            gc_wf(*final(self)),
            valid(final(self).heap@, r.0 as int),
            !valid(old(self).heap@, r.0 as int),
            data_at(final(self).heap@, r.0 as int) == data,
            covers(old(self).heap@, final(self).heap@),
            final(self).interner == old(self).interner,
            final(self).current_mark == old(self).current_mark,
            forall|b: int|
                valid(final(self).heap@, b) <==> valid(old(self).heap@, b) || b == r.0 as int,
    {
        let ghost h0 = self.heap@;
        let cell = Cell { data, mark: self.current_mark };
        let mut slot: usize = 0;
        let mut found: bool = false;
        while slot < self.heap.len() && !found
            invariant
                slot <= self.heap@.len(),
                found ==> slot < self.heap@.len() && self.heap@[slot as int] is None,
                *self == *old(self),
            decreases self.heap@.len() - slot, (if found { 0int } else { 1int }),
        {
            if self.heap[slot].is_none() {
                found = true;
            } else {
                slot += 1;
            }
        }
        let r: Ptr;
        if found {
            self.heap[slot] = Some(cell);
            r = Ptr(slot);
        } else {
            r = Ptr(self.heap.len());
            self.heap.push(Some(cell));
        }
        proof {
            let h2 = self.heap@;
            assert(covers(h0, h2));
            assert(valid(h2, r.0 as int));
            assert(data_at(h2, r.0 as int) == data);
            lemma_cell_ok_covers(h0, h2, data);
            assert forall|b: int| valid(h2, b) implies cell_ok(h2, #[trigger] data_at(h2, b)) by {
                if b != r.0 as int {
                    assert(valid(h0, b));
                    assert(data_at(h2, b) == data_at(h0, b));
                    lemma_cell_ok_covers(h0, h2, data_at(h0, b));
                }
            }
            assert forall|i: int| 0 <= i < self.interner@.len() implies is_str(
                h2,
                #[trigger] self.interner@[i].0 as int,
            ) && str_of(h2, self.interner@[i].0 as int) == str_of(
                h0,
                self.interner@[i].0 as int,
            ) by {
                assert(valid(h0, self.interner@[i].0 as int));
                assert(h2[self.interner@[i].0 as int] == h0[self.interner@[i].0 as int]);
            }
            assert forall|b: int| valid(h2, b) implies mark_at(h2, b)
                == self.current_mark by {
                if b != r.0 as int {
                    assert(valid(h0, b));
                    assert(h2[b] == h0[b]);
                }
            }
        }
        r
    }

    /// Reads the pair a handle names.
    pub fn pair(&self, p: Ptr) -> (r: &Pair)
        requires
            is_pair(self.heap@, p.0 as int),
        ensures
            *r == pair_at(self.heap@, p.0 as int),
    {
        match &self.heap[p.0] {
            Some(cell) => match &cell.data {
                CellData::PairData(pr) => pr,
                _ => vstd::pervasive::unreached(),
            },
            None => vstd::pervasive::unreached(),
        }
    }

    /// Reads the environment a handle names.
    pub fn env(&self, p: Ptr) -> (r: &Env)
        requires
            is_env(self.heap@, p.0 as int),
        ensures
            *r == env_of(self.heap@, p.0 as int),
    {
        match &self.heap[p.0] {
            Some(cell) => match &cell.data {
                CellData::EnvData(e) => e,
                _ => vstd::pervasive::unreached(),
            },
            None => vstd::pervasive::unreached(),
        }
    }

    /// Reads the closure a handle names.
    pub fn closure(&self, p: Ptr) -> (r: &Closure)
        requires
            is_closure(self.heap@, p.0 as int),
        ensures
            *r == closure_of(self.heap@, p.0 as int),
    {
        match &self.heap[p.0] {
            Some(cell) => match &cell.data {
                CellData::ClosureData(c) => c,
                _ => vstd::pervasive::unreached(),
            },
            None => vstd::pervasive::unreached(),
        }
    }

    /// Reads the string a handle names.
    pub fn str(&self, p: Ptr) -> (r: &Str)
        requires
            is_str(self.heap@, p.0 as int),
        ensures
            *r == str_of(self.heap@, p.0 as int),
    {
        match &self.heap[p.0] {
            Some(cell) => match &cell.data {
                CellData::StrData(s) => s,
                _ => vstd::pervasive::unreached(),
            },
            None => vstd::pervasive::unreached(),
        }
    }
}

} // verus!
verus! {

/// Two payloads are of the same collectible kind.
pub open spec fn same_kind(c1: CellData, c2: CellData) -> bool {
    &&& (c1 is PairData <==> c2 is PairData)
    &&& (c1 is EnvData <==> c2 is EnvData)
    &&& (c1 is ClosureData <==> c2 is ClosureData)
    &&& (c1 is StrData <==> c2 is StrData)
}

/// Two heaps agree on which slots are live and of what kind. In-place
/// mutation never changes a cell's kind, so this relation frames every
/// typed-validity fact across it.
pub open spec fn same_kinds(h: Seq<Option<Cell>>, h2: Seq<Option<Cell>>) -> bool {
    &&& h.len() == h2.len()
    &&& forall|b: int| valid(h, b) <==> valid(h2, b)
    &&& forall|b: int| valid(h, b) ==> same_kind(#[trigger] data_at(h, b), data_at(h2, b))
}

/// Value soundness depends only on slot kinds.
pub proof fn lemma_value_ok_same_kinds(h: Seq<Option<Cell>>, h2: Seq<Option<Cell>>, v: Value)
    requires
        same_kinds(h, h2),
        value_ok(h, v),
    ensures
        value_ok(h2, v),
{
    match v {
        Value::Closure(p) => {
            assert(valid(h, p.0 as int));
        },
        Value::Pair(p) => {
            assert(valid(h, p.0 as int));
        },
        Value::Str(p) => {
            assert(valid(h, p.0 as int));
        },
        Value::Symbol(p) => {
            assert(valid(h, p.0 as int));
        },
        _ => {},
    }
}

/// Payload soundness depends only on slot kinds.
pub proof fn lemma_cell_ok_same_kinds(h: Seq<Option<Cell>>, h2: Seq<Option<Cell>>, c: CellData)
    requires
        same_kinds(h, h2),
        cell_ok(h, c),
    ensures
        cell_ok(h2, c),
{
    match c {
        CellData::PairData(p) => {
            lemma_value_ok_same_kinds(h, h2, p.car);
            lemma_value_ok_same_kinds(h, h2, p.cdr);
        },
        CellData::EnvData(e) => {
            assert forall|i: int| 0 <= i < e.values@.len() implies value_ok(
                h2,
                #[trigger] e.values@[i].value,
            ) by {
                lemma_value_ok_same_kinds(h, h2, e.values@[i].value);
            }
            match e.next {
                Some(p) => {
                    assert(valid(h, p.0 as int));
                },
                None => {},
            }
        },
        CellData::ClosureData(cl) => {
            assert(valid(h, cl.env.0 as int));
        },
        CellData::StrData(_) => {},
    }
}

/// The heaps before and after an in-place update of slot `p` that kept the
/// cell's kind and mark: the whole invariant carries over once the new
/// payload is sound.
pub proof fn lemma_wf_after_update(h: Seq<Option<Cell>>, h2: Seq<Option<Cell>>, p: int)
    requires
        heap_wf(h),
        same_kinds(h, h2),
        valid(h, p),
        forall|b: int| valid(h, b) && b != p ==> h2[b] == h[b],
        cell_ok(h2, data_at(h2, p)),
    ensures
        heap_wf(h2),
{
    assert forall|b: int| valid(h2, b) implies cell_ok(h2, #[trigger] data_at(h2, b)) by {
        if b != p {
            assert(valid(h, b));
            assert(data_at(h2, b) == data_at(h, b));
            lemma_cell_ok_same_kinds(h, h2, data_at(h, b));
        }
    }
}

/// The slot vector after a store at local address `addr`: intermediate
/// never-written slots are padded undefined, and the addressed slot holds
/// the value, defined.
pub open spec fn slots_store(s: Seq<EnvItem>, addr: int, v: Value) -> Seq<EnvItem> {
    if addr < s.len() {
        s.update(addr, EnvItem { defined: true, value: v })
    } else {
        s + Seq::new((addr - s.len()) as nat, |k: int| EnvItem { defined: false, value: Value::Unit })
            + seq![EnvItem { defined: true, value: v }]
    }
}

impl GC {
    /// The interner and the mark invariant only mention slot contents;
    /// this restates them after a kind- and mark-preserving update.
    proof fn lemma_gc_wf_after_update(g1: GC, g2: GC, p: int)
        requires
            gc_wf(g1),
            same_kinds(g1.heap@, g2.heap@),
            valid(g1.heap@, p),
            forall|b: int| valid(g1.heap@, b) && b != p ==> g2.heap@[b] == g1.heap@[b],
            cell_ok(g2.heap@, data_at(g2.heap@, p)),
            !(data_at(g1.heap@, p) is StrData),
            mark_at(g2.heap@, p) == mark_at(g1.heap@, p),
            g2.interner == g1.interner,
            g2.current_mark == g1.current_mark,
        ensures
            gc_wf(g2),
    {
        lemma_wf_after_update(g1.heap@, g2.heap@, p);
        assert forall|i: int| 0 <= i < g2.interner@.len() implies is_str(
            g2.heap@,
            #[trigger] g2.interner@[i].0 as int,
        ) && str_of(g2.heap@, g2.interner@[i].0 as int) == str_of(
            g1.heap@,
            g2.interner@[i].0 as int,
        ) by {
            let q = g2.interner@[i].0 as int;
            assert(is_str(g1.heap@, q));
            assert(q != p);
            assert(g2.heap@[q] == g1.heap@[q]);
        }
        assert forall|b: int| valid(g2.heap@, b) implies mark_at(g2.heap@, b)
            == g2.current_mark by {
            if b != p {
                assert(valid(g1.heap@, b));
                assert(g2.heap@[b] == g1.heap@[b]);
            }
        }
    }

    /// Replaces the head of a pair in place.
    pub fn set_car(&mut self, p: Ptr, v: Value)
        requires
            gc_wf(*old(self)),
            is_pair(old(self).heap@, p.0 as int),
            value_ok(old(self).heap@, v),
        ensures
            gc_wf(*final(self)),
            same_kinds(old(self).heap@, final(self).heap@),
            forall|b: int|
                valid(old(self).heap@, b) && b != p.0 as int ==> final(self).heap@[b] == old(
                    self,
                ).heap@[b],
            pair_at(final(self).heap@, p.0 as int).car == v,
            pair_at(final(self).heap@, p.0 as int).cdr == pair_at(
                old(self).heap@,
                p.0 as int,
            ).cdr,
            final(self).interner == old(self).interner,
            final(self).current_mark == old(self).current_mark,
    {
        let ghost g1 = *self;
        let mut cell: Option<Cell> = None;
        core::mem::swap(&mut cell, &mut self.heap[p.0]);
        match cell {
            Some(c) => match c.data {
                CellData::PairData(pr) => {
                    self.heap[p.0] = Some(
                        Cell { data: CellData::PairData(Pair { car: v, cdr: pr.cdr }), mark: c.mark },
                    );
                    proof {
                        assert(same_kinds(g1.heap@, self.heap@));
                        lemma_value_ok_same_kinds(g1.heap@, self.heap@, v);
                        lemma_value_ok_same_kinds(g1.heap@, self.heap@, pr.cdr);
                        GC::lemma_gc_wf_after_update(g1, *self, p.0 as int);
                    }
                },
                _ => {
                    proof {
                        assert(false);
                    }
                },
            },
            None => {
                proof {
                    assert(false);
                }
            },
        }
    }

    /// Replaces the tail of a pair in place.
    pub fn set_cdr(&mut self, p: Ptr, v: Value)
        requires
            gc_wf(*old(self)),
            is_pair(old(self).heap@, p.0 as int),
            value_ok(old(self).heap@, v),
        ensures
            gc_wf(*final(self)),
            same_kinds(old(self).heap@, final(self).heap@),
            forall|b: int|
                valid(old(self).heap@, b) && b != p.0 as int ==> final(self).heap@[b] == old(
                    self,
                ).heap@[b],
            pair_at(final(self).heap@, p.0 as int).cdr == v,
            pair_at(final(self).heap@, p.0 as int).car == pair_at(
                old(self).heap@,
                p.0 as int,
            ).car,
            final(self).interner == old(self).interner,
            final(self).current_mark == old(self).current_mark,
    {
        let ghost g1 = *self;
        let mut cell: Option<Cell> = None;
        core::mem::swap(&mut cell, &mut self.heap[p.0]);
        match cell {
            Some(c) => match c.data {
                CellData::PairData(pr) => {
                    self.heap[p.0] = Some(
                        Cell { data: CellData::PairData(Pair { car: pr.car, cdr: v }), mark: c.mark },
                    );
                    proof {
                        assert(same_kinds(g1.heap@, self.heap@));
                        lemma_value_ok_same_kinds(g1.heap@, self.heap@, v);
                        lemma_value_ok_same_kinds(g1.heap@, self.heap@, pr.car);
                        GC::lemma_gc_wf_after_update(g1, *self, p.0 as int);
                    }
                },
                _ => {
                    proof {
                        assert(false);
                    }
                },
            },
            None => {
                proof {
                    assert(false);
                }
            },
        }
    }

    /// Writes a value into one environment's own slot vector at a local
    /// address inside its capacity, padding never-written slots on the
    /// way. Pure in-place slot bookkeeping: chain walking lives above.
    pub fn env_store_local(&mut self, p: Ptr, addr: usize, v: Value)
        requires
            gc_wf(*old(self)),
            is_env(old(self).heap@, p.0 as int),
            addr < env_of(old(self).heap@, p.0 as int).capacity,
            value_ok(old(self).heap@, v),
        ensures
            gc_wf(*final(self)),
            same_kinds(old(self).heap@, final(self).heap@),
            forall|b: int|
                valid(old(self).heap@, b) && b != p.0 as int ==> final(self).heap@[b] == old(
                    self,
                ).heap@[b],
            env_of(final(self).heap@, p.0 as int).values@ == slots_store(
                env_of(old(self).heap@, p.0 as int).values@,
                addr as int,
                v,
            ),
            env_of(final(self).heap@, p.0 as int).capacity == env_of(
                old(self).heap@,
                p.0 as int,
            ).capacity,
            env_of(final(self).heap@, p.0 as int).next == env_of(
                old(self).heap@,
                p.0 as int,
            ).next,
            final(self).interner == old(self).interner,
            final(self).current_mark == old(self).current_mark,
    {
        let ghost g1 = *self;
        let mut cell: Option<Cell> = None;
        core::mem::swap(&mut cell, &mut self.heap[p.0]);
        match cell {
            Some(c) => match c.data {
                CellData::EnvData(mut e) => {
                    let ghost s0 = e.values@;
                    if addr < e.values.len() {
                        e.values[addr] = EnvItem { defined: true, value: v };
                    } else {
                        while e.values.len() < addr
                            invariant
                                e.next == env_of(g1.heap@, p.0 as int).next,
                                e.capacity == env_of(g1.heap@, p.0 as int).capacity,
                                s0.len() <= e.values@.len() <= addr,
                                e.values@ == s0 + Seq::new(
                                    (e.values@.len() - s0.len()) as nat,
                                    |k: int| EnvItem { defined: false, value: Value::Unit },
                                ),
                            decreases addr - e.values@.len(),
                        {
                            e.values.push(EnvItem { defined: false, value: Value::Unit });
                            proof {
                                assert(e.values@ =~= s0 + Seq::new(
                                    (e.values@.len() - s0.len()) as nat,
                                    |k: int| EnvItem { defined: false, value: Value::Unit },
                                ));
                            }
                        }
                        e.values.push(EnvItem { defined: true, value: v });
                        proof {
                            assert(e.values@ =~= slots_store(s0, addr as int, v));
                        }
                    }
                    proof {
                        if (addr as int) < s0.len() {
                            assert(e.values@ =~= slots_store(s0, addr as int, v));
                        }
                    }
                    self.heap[p.0] = Some(Cell { data: CellData::EnvData(e), mark: c.mark });
                    proof {
                        assert(same_kinds(g1.heap@, self.heap@));
                        let e2 = env_of(self.heap@, p.0 as int);
                        assert forall|i: int| 0 <= i < e2.values@.len() implies value_ok(
                            self.heap@,
                            #[trigger] e2.values@[i].value,
                        ) by {
                            if i == addr as int {
                                lemma_value_ok_same_kinds(g1.heap@, self.heap@, v);
                            } else if i < s0.len() {
                                assert(e2.values@[i] == s0[i]);
                                assert(cell_ok(g1.heap@, data_at(g1.heap@, p.0 as int)));
                                lemma_value_ok_same_kinds(g1.heap@, self.heap@, s0[i].value);
                            } else {
                                assert(e2.values@[i].value == Value::Unit);
                            }
                        }
                        match e2.next {
                            Some(q) => {
                                assert(cell_ok(g1.heap@, data_at(g1.heap@, p.0 as int)));
                                assert(is_env(g1.heap@, q.0 as int));
                            },
                            None => {},
                        }
                        GC::lemma_gc_wf_after_update(g1, *self, p.0 as int);
                    }
                },
                _ => {
                    proof {
                        assert(false);
                    }
                },
            },
            None => {
                proof {
                    assert(false);
                }
            },
        }
    }
}

} // verus!
verus! {

/// Compares two byte strings for equal contents.
pub fn bytes_eq(a: &Vec<u8>, b: &Vec<u8>) -> (r: bool)
    ensures
        r == (a@ == b@),
{
    if a.len() != b.len() {
        proof {
            assert(a@.len() != b@.len());
        }
        return false;
    }
    let mut i: usize = 0;
    while i < a.len()
        invariant
            i <= a@.len(),
            a@.len() == b@.len(),
            forall|k: int| 0 <= k < i ==> a@[k] == b@[k],
        decreases a@.len() - i,
    {
        if a[i] != b[i] {
            proof {
                assert(a@[i as int] != b@[i as int]);
            }
            return false;
        }
        i += 1;
    }
    proof {
        assert(a@ =~= b@);
    }
    true
}

impl GC {
    /// Allocates a pair cell.
    pub fn alloc_pair(&mut self, car: Value, cdr: Value) -> (r: Ptr)
        requires
            gc_wf(*old(self)),
            value_ok(old(self).heap@, car),
            value_ok(old(self).heap@, cdr),
        ensures
            gc_wf(*final(self)),
            is_pair(final(self).heap@, r.0 as int),
            !valid(old(self).heap@, r.0 as int),
            pair_at(final(self).heap@, r.0 as int) == (Pair { car, cdr }),
            covers(old(self).heap@, final(self).heap@),
            final(self).interner == old(self).interner,
            final(self).current_mark == old(self).current_mark,
            forall|b: int|
                valid(final(self).heap@, b) <==> valid(old(self).heap@, b) || b == r.0 as int,
    {
        self.allocate(CellData::PairData(Pair { car, cdr }))
    }

    /// Allocates an environment cell of the given fixed capacity, its slot
    /// vector empty, linked to `next`.
    pub fn alloc_env(&mut self, size: usize, next: Option<Ptr>) -> (r: Ptr)
        requires
            gc_wf(*old(self)),
            match next {
                Some(p) => is_env(old(self).heap@, p.0 as int),
                None => true,
            },
        ensures
            gc_wf(*final(self)),
            is_env(final(self).heap@, r.0 as int),
            !valid(old(self).heap@, r.0 as int),
            env_of(final(self).heap@, r.0 as int).values@.len() == 0,
            env_of(final(self).heap@, r.0 as int).capacity == size,
            env_of(final(self).heap@, r.0 as int).next == next,
            covers(old(self).heap@, final(self).heap@),
            final(self).interner == old(self).interner,
            final(self).current_mark == old(self).current_mark,
            forall|b: int|
                valid(final(self).heap@, b) <==> valid(old(self).heap@, b) || b == r.0 as int,
    {
        self.allocate(CellData::EnvData(Env { values: Vec::new(), capacity: size, next }))
    }

    /// Allocates a closure cell.
    pub fn alloc_closure(&mut self, arity: u8, variadic: bool, env: Ptr, pc: u64) -> (r: Ptr)
        requires
            gc_wf(*old(self)),
            is_env(old(self).heap@, env.0 as int),
        ensures
            gc_wf(*final(self)),
            is_closure(final(self).heap@, r.0 as int),
            !valid(old(self).heap@, r.0 as int),
            closure_of(final(self).heap@, r.0 as int) == (Closure { pc, env, arity, variadic }),
            covers(old(self).heap@, final(self).heap@),
            final(self).interner == old(self).interner,
            final(self).current_mark == old(self).current_mark,
            forall|b: int|
                valid(final(self).heap@, b) <==> valid(old(self).heap@, b) || b == r.0 as int,
    {
        self.allocate(CellData::ClosureData(Closure { pc, env, arity, variadic }))
    }

    /// Allocates a string cell.
    pub fn alloc_string(&mut self, contents: Vec<u8>, mutable: bool) -> (r: Ptr)
        requires
            gc_wf(*old(self)),
        ensures
            gc_wf(*final(self)),
            is_str(final(self).heap@, r.0 as int),
            !valid(old(self).heap@, r.0 as int),
            str_of(final(self).heap@, r.0 as int).contents == contents,
            str_of(final(self).heap@, r.0 as int).mutable == mutable,
            covers(old(self).heap@, final(self).heap@),
            final(self).interner == old(self).interner,
            final(self).current_mark == old(self).current_mark,
            forall|b: int|
                valid(final(self).heap@, b) <==> valid(old(self).heap@, b) || b == r.0 as int,
    {
        self.allocate(CellData::StrData(Str { contents, mutable }))
    }

    /// Interns a string: returns the existing handle when the contents are
    /// already in the table, otherwise allocates an immutable string cell
    /// and records it. Interned handles are roots of every collection, so
    /// they stay valid forever.
    pub fn intern(&mut self, s: Vec<u8>) -> (r: Ptr)
        requires
            gc_wf(*old(self)),
        ensures
            gc_wf(*final(self)),
            is_str(final(self).heap@, r.0 as int),
            str_of(final(self).heap@, r.0 as int).contents@ == s@,
            !str_of(final(self).heap@, r.0 as int).mutable,
            covers(old(self).heap@, final(self).heap@),
            final(self).current_mark == old(self).current_mark,
            rset(final(self).interner@).contains(r.0 as int),
            // the old table is a prefix of the new one
            final(self).interner@.len() >= old(self).interner@.len(),
            forall|i: int|
                0 <= i < old(self).interner@.len() ==> final(self).interner@[i] == old(
                    self,
                ).interner@[i],
            // deduplication: a handle already interned for these contents is returned
            forall|i: int|
                0 <= i < old(self).interner@.len() && str_of(
                    old(self).heap@,
                    #[trigger] old(self).interner@[i].0 as int,
                ).contents@ == s@ ==> r == old(self).interner@[i] && *final(self) == *old(self),
    {
        let ghost g0 = *self;
        let n = self.interner.len();
        let mut i: usize = 0;
        while i < n
            invariant
                *self == g0,
                gc_wf(*self),
                i <= n,
                n == self.interner@.len(),
                forall|k: int|
                    0 <= k < i ==> str_of(
                        self.heap@,
                        #[trigger] self.interner@[k].0 as int,
                    ).contents@ != s@,
            decreases n - i,
        {
            let p = self.interner[i];
            let cand = self.str(p);
            if bytes_eq(&cand.contents, &s) {
                return p;
            }
            i += 1;
        }
        let r = self.alloc_string(s, false);
        proof {
            assert forall|k: int| 0 <= k < g0.interner@.len() implies is_str(
                self.heap@,
                #[trigger] g0.interner@[k].0 as int,
            ) && str_of(self.heap@, g0.interner@[k].0 as int) == str_of(
                g0.heap@,
                g0.interner@[k].0 as int,
            ) by {
                assert(valid(g0.heap@, g0.interner@[k].0 as int));
                assert(self.heap@[g0.interner@[k].0 as int] == g0.heap@[g0.interner@[k].0 as int]);
            }
        }
        self.interner.push(r);
        proof {
            assert(rset(self.interner@).contains(r.0 as int)) by {
                assert(self.interner@[self.interner@.len() - 1] == r);
            }
            assert forall|a: int, b: int|
                0 <= a < self.interner@.len() && 0 <= b < self.interner@.len() && a != b implies
                str_of(self.heap@, #[trigger] self.interner@[a].0 as int).contents@ != str_of(
                self.heap@,
                #[trigger] self.interner@[b].0 as int,
            ).contents@ by {
                let last = self.interner@.len() - 1;
                if a == last || b == last {
                } else {
                    assert(self.interner@[a] == g0.interner@[a]);
                    assert(self.interner@[b] == g0.interner@[b]);
                }
            }
        }
        r
    }
}

} // verus!
verus! {

/// The set of slots a worklist of indices names.
pub open spec fn wset(s: Seq<usize>) -> Set<int> {
    Set::new(|b: int| exists|i: int| 0 <= i < s.len() && s[i] as int == b)
}

/// A sound value's handle names a live cell.
pub proof fn lemma_value_edge(h: Seq<Option<Cell>>, v: Value, b: int)
    requires
        value_ok(h, v),
        value_target(v) == Some(b),
    ensures
        valid(h, b),
{
}

/// Under the heap invariant, edges lead to live cells.
pub proof fn lemma_edge_valid(h: Seq<Option<Cell>>, a: int, b: int)
    requires
        heap_wf(h),
        edge(h, a, b),
    ensures
        valid(h, b),
{
    assert(cell_ok(h, data_at(h, a)));
    match data_at(h, a) {
        CellData::PairData(p) => {
            if value_target(p.car) == Some(b) {
                lemma_value_edge(h, p.car, b);
            } else {
                lemma_value_edge(h, p.cdr, b);
            }
        },
        CellData::EnvData(e) => {
            if vals_child(e.values@, e.values@.len() as int, b) {
                let i = choose|k: int|
                    0 <= k < e.values@.len() && value_target(#[trigger] e.values@[k].value)
                        == Some(b);
                lemma_value_edge(h, e.values@[i].value, b);
            } else {
                match e.next {
                    Some(p) => {
                        assert(p.0 == b);
                        assert(is_env(h, p.0 as int));
                    },
                    None => {
                        assert(false);
                    },
                }
            }
        },
        CellData::ClosureData(c) => {
            assert(is_env(h, c.env.0 as int));
        },
        CellData::StrData(_) => {
            assert(!points_to(data_at(h, a), b));
        },
    }
}

/// One step extends reachability: a neighbor of a reachable cell is
/// reachable.
pub proof fn lemma_reachable_step(h: Seq<Option<Cell>>, roots: Set<int>, a: int, b: int)
    requires
        reachable(h, roots, a),
        edge(h, a, b),
    ensures
        reachable(h, roots, b),
{
    let n = choose|n: nat| reach_n(h, roots, a, n);
    assert(reach_n(h, roots, b, n + 1));
}

/// Any cell reachable from marked roots through a mark-closed heap is
/// itself marked: the induction that turns the mark loop's closure
/// property into completeness of marking.
pub proof fn lemma_reach_marked(
    h0: Seq<Option<Cell>>,
    h1: Seq<Option<Cell>>,
    roots: Set<int>,
    m: bool,
    b: int,
    n: nat,
)
    requires
        forall|r: int| roots.contains(r) ==> valid(h0, r) && mark_at(h1, r) == m,
        forall|a: int, c: int|
            valid(h0, a) && mark_at(h1, a) == m && edge(h0, a, c) ==> valid(h0, c) && mark_at(
                h1,
                c,
            ) == m,
        reach_n(h0, roots, b, n),
    ensures
        valid(h0, b) && mark_at(h1, b) == m,
    decreases n,
{
    if n == 0 {
    } else if roots.contains(b) {
    } else {
        let a = choose|a: int| reach_n(h0, roots, a, (n - 1) as nat) && edge(h0, a, b);
        lemma_reach_marked(h0, h1, roots, m, a, (n - 1) as nat);
    }
}

/// Reads the slot a value points at, if any.
pub fn value_child(v: &Value) -> (r: Option<usize>)
    ensures
        match r {
            Some(b) => value_target(*v) == Some(b as int),
            None => value_target(*v) is None,
        },
{
    match v {
        Value::Closure(p) => Some(p.0),
        Value::Pair(p) => Some(p.0),
        Value::Str(p) => Some(p.0),
        Value::Symbol(p) => Some(p.0),
        _ => None,
    }
}

/// The worklist after visiting a payload: the old entries plus exactly
/// the payload's children.
pub open spec fn pushed_children(w0: Seq<usize>, w1: Seq<usize>, c: CellData) -> bool {
    forall|b: int| #![trigger wset(w1).contains(b)]
        wset(w1).contains(b) <==> wset(w0).contains(b) || points_to(c, b)
}

/// Pushes every slot the payload references onto the worklist.
pub fn push_children(work: &mut Vec<usize>, data: &CellData)
    ensures
        pushed_children(old(work)@, final(work)@, *data),
{
    let ghost w0 = work@;
    match data {
        CellData::PairData(p) => {
            match value_child(&p.car) {
                Some(b) => work.push(b),
                None => {},
            }
            match value_child(&p.cdr) {
                Some(b) => work.push(b),
                None => {},
            }
            proof {
                assert forall|b: int| #![trigger wset(work@).contains(b)]
                    wset(work@).contains(b) <==> wset(w0).contains(b) || points_to(*data, b) by {
                    if wset(work@).contains(b) {
                        let i = choose|i: int| 0 <= i < work@.len() && work@[i] as int == b;
                        if i < w0.len() {
                            assert(wset(w0).contains(b));
                        }
                    }
                    if wset(w0).contains(b) {
                        let i = choose|i: int| 0 <= i < w0.len() && w0[i] as int == b;
                        assert(work@[i] as int == b);
                        assert(wset(work@).contains(b));
                    }
                    if points_to(*data, b) {
                        if value_target(p.car) == Some(b) {
                            let i = w0.len() as int;
                            assert(work@[i] as int == b);
                            assert(wset(work@).contains(b));
                        } else {
                            let i = work@.len() - 1;
                            assert(work@[i] as int == b);
                            assert(wset(work@).contains(b));
                        }
                    }
                }
                assert(pushed_children(w0, work@, *data));
            }
        },
        CellData::EnvData(e) => {
            let n = e.values.len();
            let mut i: usize = 0;
            while i < n
                invariant
                    i <= n,
                    n == e.values@.len(),
                    forall|b: int|
                        wset(work@).contains(b) <==> wset(w0).contains(b) || vals_child(
                            e.values@,
                            i as int,
                            b,
                        ),
                decreases n - i,
            {
                let ghost w1 = work@;
                match value_child(&e.values[i].value) {
                    Some(b) => work.push(b),
                    None => {},
                }
                proof {
                    assert forall|b: int| wset(work@).contains(b) <==> wset(w1).contains(b) || (
                    value_target(e.values@[i as int].value) == Some(b)) by {
                        if wset(work@).contains(b) {
                            let k = choose|k: int| 0 <= k < work@.len() && work@[k] as int == b;
                            if k < w1.len() {
                                assert(wset(w1).contains(b));
                            }
                        }
                        if wset(w1).contains(b) {
                            let k = choose|k: int| 0 <= k < w1.len() && w1[k] as int == b;
                            assert(work@[k] as int == b);
                            assert(wset(work@).contains(b));
                        }
                        if value_target(e.values@[i as int].value) == Some(b)
                            && !wset(w1).contains(b) {
                            assert(work@[work@.len() - 1] as int == b);
                            assert(wset(work@).contains(b));
                        }
                    }
                }
                i += 1;
                proof {
                    assert forall|b: int| wset(work@).contains(b) <==> wset(w0).contains(b)
                        || vals_child(e.values@, i as int, b) by {
                        if wset(work@).contains(b) && !wset(w0).contains(b) {
                            if wset(w1).contains(b) {
                                let k = choose|k: int|
                                    0 <= k < i - 1 && value_target(#[trigger] e.values@[k].value)
                                        == Some(b);
                                assert(vals_child(e.values@, i as int, b));
                            } else {
                                assert(value_target(e.values@[i - 1].value) == Some(b));
                                assert(vals_child(e.values@, i as int, b));
                            }
                        }
                        if wset(w0).contains(b) {
                            assert(wset(w1).contains(b));
                            assert(wset(work@).contains(b));
                        }
                        if vals_child(e.values@, i as int, b) && !wset(work@).contains(b) {
                            let k = choose|k: int|
                                0 <= k < i && value_target(#[trigger] e.values@[k].value)
                                    == Some(b);
                            if k < i - 1 {
                                assert(vals_child(e.values@, i - 1, b));
                                assert(wset(w1).contains(b));
                            } else {
                                assert(value_target(e.values@[i - 1].value) == Some(b));
                            }
                            assert(wset(work@).contains(b));
                        }
                    }
                }
            }
            let ghost w2 = work@;
            match &e.next {
                Some(p) => {
                    work.push(p.0);
                    proof {
                        assert forall|b: int| #![trigger wset(work@).contains(b)]
                            wset(work@).contains(b) <==> wset(w0).contains(b) || points_to(
                                *data,
                                b,
                            ) by {
                            assert(wset(w2).contains(b) <==> wset(w0).contains(b) || vals_child(
                                e.values@,
                                i as int,
                                b,
                            ));
                            if wset(work@).contains(b) {
                                let k = choose|k: int|
                                    0 <= k < work@.len() && work@[k] as int == b;
                                if k < w2.len() {
                                    assert(wset(w2).contains(b));
                                } else {
                                    assert(work@ == w2.push(p.0));
                                    assert(k == work@.len() - 1);
                                    assert(b == p.0 as int);
                                    assert(points_to(*data, b));
                                }
                            }
                            if wset(w2).contains(b) {
                                let k = choose|k: int| 0 <= k < w2.len() && w2[k] as int == b;
                                assert(work@[k] as int == b);
                                assert(wset(work@).contains(b));
                            }
                            if points_to(*data, b) && !wset(w2).contains(b) {
                                assert(i as int == e.values@.len() as int);
                                assert(!vals_child(e.values@, i as int, b));
                                assert(!vals_child(e.values@, e.values@.len() as int, b));
                                assert(b == p.0 as int);
                                assert(work@ == w2.push(p.0));
                                assert(work@[work@.len() - 1] as int == b);
                                assert(wset(work@).contains(b));
                            }
                        }
                        assert(pushed_children(w0, work@, *data));
                    }
                },
                None => {
                    proof {
                        assert forall|b: int| #![trigger wset(work@).contains(b)]
                            wset(work@).contains(b) <==> wset(w0).contains(b) || points_to(
                                *data,
                                b,
                            ) by {
                            assert(wset(w2).contains(b) <==> wset(w0).contains(b) || vals_child(
                                e.values@,
                                i as int,
                                b,
                            ));
                            if wset(w2).contains(b) {
                                let k = choose|k: int| 0 <= k < w2.len() && w2[k] as int == b;
                                assert(work@[k] as int == b);
                            }
                        }
                        assert(pushed_children(w0, work@, *data));
                    }
                },
            }
        },
        CellData::ClosureData(c) => {
            work.push(c.env.0);
            proof {
                assert forall|b: int| #![trigger wset(work@).contains(b)]
                    wset(work@).contains(b) <==> wset(w0).contains(b) || points_to(*data, b) by {
                    if wset(work@).contains(b) {
                        let k = choose|k: int| 0 <= k < work@.len() && work@[k] as int == b;
                        if k < w0.len() {
                            assert(wset(w0).contains(b));
                        }
                    }
                    if wset(w0).contains(b) {
                        let k = choose|k: int| 0 <= k < w0.len() && w0[k] as int == b;
                        assert(work@[k] as int == b);
                        assert(wset(work@).contains(b));
                    }
                    if points_to(*data, b) {
                        assert(work@[work@.len() - 1] as int == b);
                        assert(wset(work@).contains(b));
                    }
                }
                assert(pushed_children(w0, work@, *data));
            }
        },
        CellData::StrData(_) => {
            proof {
                assert forall|b: int| #![trigger wset(work@).contains(b)]
                    wset(work@).contains(b) <==> wset(w0).contains(b) || points_to(*data, b) by {
                    assert(!points_to(*data, b));
                }
                assert(pushed_children(w0, work@, *data));
            }
        },
    }
}

} // verus!
verus! {

impl GC {
    /// Writes a cell's mark bit; everything else stays put.
    fn set_mark(&mut self, b: usize, m: bool)
        requires
            valid(old(self).heap@, b as int),
        ensures
            final(self).heap@.len() == old(self).heap@.len(),
            forall|c: int|
                0 <= c < old(self).heap@.len() && c != b as int ==> final(self).heap@[c] == old(
                    self,
                ).heap@[c],
            forall|c: int| valid(final(self).heap@, c) <==> valid(old(self).heap@, c),
            data_at(final(self).heap@, b as int) == data_at(old(self).heap@, b as int),
            mark_at(final(self).heap@, b as int) == m,
            final(self).interner == old(self).interner,
            final(self).current_mark == old(self).current_mark,
    {
        match &mut self.heap[b] {
            Some(cell) => cell.mark = m,
            None => {
                proof {
                    assert(false);
                }
            },
        }
    }

    /// The mark phase: visits every cell reachable from the roots, giving
    /// it the target color `m`. A cell already wearing `m` is not
    /// redescended, which breaks cycles and bounds the work by the number
    /// of reachable cells. On return a cell wears `m` exactly when it is
    /// reachable from the roots; nothing else about the heap changes.
    fn mark(&mut self, roots: &Vec<Ptr>, m: bool)
        requires
            heap_wf(old(self).heap@),
            forall|i: int|
                0 <= i < roots@.len() ==> valid(old(self).heap@, #[trigger] roots@[i].0 as int),
            forall|b: int| valid(old(self).heap@, b) ==> mark_at(old(self).heap@, b) == !m,
        ensures
            final(self).heap@.len() == old(self).heap@.len(),
            forall|b: int| valid(final(self).heap@, b) <==> valid(old(self).heap@, b),
            forall|b: int|
                valid(old(self).heap@, b) ==> data_at(final(self).heap@, b) == data_at(
                    old(self).heap@,
                    b,
                ),
            final(self).interner == old(self).interner,
            final(self).current_mark == old(self).current_mark,
            forall|b: int|
                valid(old(self).heap@, b) ==> (mark_at(final(self).heap@, b) == m <==> reachable(
                    old(self).heap@,
                    rset(roots@),
                    b,
                )),
    {
        let ghost h0 = self.heap@;
        let ghost rts = rset(roots@);
        let mut work: Vec<usize> = Vec::new();
        let mut i: usize = 0;
        while i < roots.len()
            invariant
                *self == *old(self),
                i <= roots@.len(),
                work@.len() == i,
                forall|k: int| 0 <= k < i ==> work@[k] == #[trigger] roots@[k].0,
            decreases roots@.len() - i,
        {
            work.push(roots[i].0);
            i += 1;
        }
        proof {
            assert forall|b: int| #![trigger wset(work@).contains(b)] #![trigger rts.contains(b)]
                wset(work@).contains(b) <==> rts.contains(b) by {
                if wset(work@).contains(b) {
                    let k = choose|k: int| 0 <= k < work@.len() && work@[k] as int == b;
                    assert(roots@[k].0 as int == b);
                    assert(rts.contains(b));
                }
                if rts.contains(b) {
                    let k = choose|k: int| 0 <= k < roots@.len() && roots@[k].0 == b;
                    assert(work@[k] as int == b);
                    assert(wset(work@).contains(b));
                }
            }
            assert forall|k: int| 0 <= k < work@.len() implies valid(
                h0,
                #[trigger] work@[k] as int,
            ) && reachable(h0, rts, work@[k] as int) by {
                assert(work@[k] == roots@[k].0);
                assert(rts.contains(work@[k] as int));
                assert(reach_n(h0, rts, work@[k] as int, 0));
            }
        }
        while work.len() > 0
            invariant
                self.interner == old(self).interner,
                self.current_mark == old(self).current_mark,
                self.heap@.len() == h0.len(),
                forall|b: int| valid(self.heap@, b) <==> valid(h0, b),
                forall|b: int| valid(h0, b) ==> data_at(self.heap@, b) == data_at(h0, b),
                heap_wf(h0),
                forall|i: int|
                    0 <= i < roots@.len() ==> valid(h0, #[trigger] roots@[i].0 as int),
                forall|b: int|
                    valid(h0, b) && mark_at(self.heap@, b) == m ==> reachable(h0, rts, b),
                forall|k: int|
                    0 <= k < work@.len() ==> valid(h0, #[trigger] work@[k] as int) && reachable(
                        h0,
                        rts,
                        work@[k] as int,
                    ),
                forall|j: int|
                    0 <= j < roots@.len() ==> mark_at(self.heap@, #[trigger] roots@[j].0 as int)
                        == m || wset(work@).contains(roots@[j].0 as int),
                forall|a: int, b: int|
                    valid(h0, a) && mark_at(self.heap@, a) == m && #[trigger] edge(h0, a, b) ==>
                        mark_at(self.heap@, b) == m || wset(work@).contains(b),
            decreases unmarked_count(self.heap@, m), work@.len(),
        {
            let ghost w_before = work@;
            let b = match work.pop() {
                Some(x) => x,
                None => vstd::pervasive::unreached(),
            };
            proof {
                assert(b == w_before[w_before.len() - 1]);
                assert forall|x: int|
                    wset(w_before).contains(x) implies wset(work@).contains(x) || x
                    == b as int by {
                    let k = choose|k: int| 0 <= k < w_before.len() && w_before[k] as int == x;
                    if k < w_before.len() - 1 {
                        assert(work@[k] as int == x);
                        assert(wset(work@).contains(x));
                    }
                }
                assert forall|x: int| wset(work@).contains(x) implies wset(w_before).contains(
                    x,
                ) by {
                    let k = choose|k: int| 0 <= k < work@.len() && work@[k] as int == x;
                    assert(w_before[k] as int == x);
                }
            }
            let already = match &self.heap[b] {
                Some(cell) => cell.mark == m,
                None => vstd::pervasive::unreached(),
            };
            if !already {
                let ghost h_prev = self.heap@;
                self.set_mark(b, m);
                let ghost w_mid = work@;
                let ghost h_mid = self.heap@;
                match &self.heap[b] {
                    Some(cell) => {
                        push_children(&mut work, &cell.data);
                    },
                    None => {
                        proof {
                            assert(false);
                        }
                    },
                }
                proof {
                    let bb = b as int;
                    assert(data_at(self.heap@, bb) == data_at(h0, bb));
                    assert(pushed_children(w_mid, work@, data_at(h0, bb)));
                    // soundness of the new work entries
                    assert forall|k: int| 0 <= k < work@.len() implies valid(
                        h0,
                        #[trigger] work@[k] as int,
                    ) && reachable(h0, rts, work@[k] as int) by {
                        let x = work@[k] as int;
                        assert(wset(work@).contains(x));
                        if wset(w_mid).contains(x) {
                            let k2 = choose|k2: int|
                                0 <= k2 < w_mid.len() && w_mid[k2] as int == x;
                            assert(w_before[k2] as int == x);
                        } else {
                            assert(points_to(data_at(h0, bb), x));
                            assert(edge(h0, bb, x));
                            lemma_edge_valid(h0, bb, x);
                            lemma_reachable_step(h0, rts, bb, x);
                        }
                    }
                    // roots stay covered
                    assert forall|j: int| 0 <= j < roots@.len() implies mark_at(
                        self.heap@,
                        #[trigger] roots@[j].0 as int,
                    ) == m || wset(work@).contains(roots@[j].0 as int) by {
                        let x = roots@[j].0 as int;
                        if x == bb {
                            assert(mark_at(self.heap@, x) == m);
                        } else if mark_at(h_prev, x) == m {
                            assert(self.heap@[x] == h_prev[x]);
                            assert(mark_at(self.heap@, x) == m);
                        } else {
                            assert(wset(w_before).contains(x));
                            assert(wset(w_mid).contains(x));
                            assert(wset(work@).contains(x));
                        }
                    }
                    // marked cells stay closed
                    assert forall|a: int, c: int|
                        valid(h0, a) && mark_at(self.heap@, a) == m && #[trigger] edge(
                            h0,
                            a,
                            c,
                        ) implies mark_at(self.heap@, c) == m || wset(work@).contains(c) by {
                        if a == bb {
                            assert(points_to(data_at(h0, bb), c));
                            assert(wset(work@).contains(c));
                        } else {
                            assert(mark_at(h_mid, a) == m);
                            if mark_at(h_mid, c) == m {
                                lemma_edge_valid(h0, a, c);
                                assert(mark_at(self.heap@, c) == m);
                            } else {
                                assert(wset(w_before).contains(c));
                                if c == bb {
                                    assert(mark_at(self.heap@, c) == m);
                                } else {
                                    assert(wset(w_mid).contains(c));
                                    assert(wset(work@).contains(c));
                                }
                            }
                        }
                    }
                    lemma_unmarked_decreases(h_prev, h0, self.heap@, m, b as int);
                }
            }
        }
        proof {
            assert(work@.len() == 0);
            assert forall|x: int| !wset(work@).contains(x) by {
                if wset(work@).contains(x) {
                    let k = choose|k: int| 0 <= k < work@.len() && work@[k] as int == x;
                }
            }
            let h1 = self.heap@;
            assert forall|r: int| rts.contains(r) implies valid(h0, r) && mark_at(h1, r)
                == m by {
                let j = choose|j: int| 0 <= j < roots@.len() && roots@[j].0 == r;
                assert(mark_at(h1, roots@[j].0 as int) == m || wset(work@).contains(
                    roots@[j].0 as int,
                ));
            }
            assert forall|a: int, c: int|
                valid(h0, a) && mark_at(h1, a) == m && #[trigger] edge(h0, a, c) implies valid(
                h0,
                c,
            ) && mark_at(h1, c) == m by {
                lemma_edge_valid(h0, a, c);
            }
            assert forall|b: int|
                valid(h0, b) && reachable(h0, rts, b) implies mark_at(h1, b) == m by {
                let n = choose|n: nat| reach_n(h0, rts, b, n);
                lemma_reach_marked(h0, h1, rts, m, b, n);
            }
        }
    }
}

/// How many live cells do not yet wear color `m`: the measure that bounds
/// the mark phase.
pub open spec fn unmarked_count(h: Seq<Option<Cell>>, m: bool) -> nat {
    Set::new(|b: int| valid(h, b) && mark_at(h, b) != m).len()
}

/// Marking one more cell strictly shrinks the unmarked count.
pub proof fn lemma_unmarked_decreases(
    h_mid: Seq<Option<Cell>>,
    h0: Seq<Option<Cell>>,
    h2: Seq<Option<Cell>>,
    m: bool,
    b: int,
)
    requires
        valid(h_mid, b),
        mark_at(h_mid, b) != m,
        h2.len() == h_mid.len(),
        forall|c: int| 0 <= c < h_mid.len() && c != b ==> h2[c] == h_mid[c],
        valid(h2, b),
        mark_at(h2, b) == m,
    ensures
        unmarked_count(h2, m) < unmarked_count(h_mid, m),
{
    let s1 = Set::new(|c: int| valid(h_mid, c) && mark_at(h_mid, c) != m);
    let s2 = Set::new(|c: int| valid(h2, c) && mark_at(h2, c) != m);
    assert(s2 =~= s1.remove(b));
    assert(s1.contains(b));
    lemma_set_bounded(s1, h_mid.len() as int);
    vstd::set::axiom_set_remove_len(s1, b);
}

/// A set of slot indices below a bound is finite.
pub proof fn lemma_set_bounded(s: Set<int>, bound: int)
    requires
        bound >= 0,
        forall|c: int| s.contains(c) ==> 0 <= c < bound,
    ensures
        s.finite(),
        s.len() <= bound,
{
    lemma_int_range_finite(bound);
    let rng = Set::new(|c: int| 0 <= c < bound);
    assert(s.subset_of(rng));
    vstd::set_lib::lemma_len_subset(s, rng);
}

/// The integers in `[0, bound)` form a finite set of size `bound`.
pub proof fn lemma_int_range_finite(bound: int)
    ensures
        Set::new(|c: int| 0 <= c < bound).finite(),
        Set::new(|c: int| 0 <= c < bound).len() == if bound >= 0 {
            bound
        } else {
            0
        },
    decreases
            (if bound >= 0 {
                bound
            } else {
                0
            }),
{
    if bound <= 0 {
        assert(Set::new(|c: int| 0 <= c < bound) =~= Set::<int>::empty());
    } else {
        lemma_int_range_finite(bound - 1);
        assert(Set::new(|c: int| 0 <= c < bound) =~= Set::new(
            |c: int| 0 <= c < bound - 1,
        ).insert(bound - 1));
    }
}

} // verus!
verus! {

/// A payload stays sound on a heap where every cell it points at is live
/// with unchanged data.
pub proof fn lemma_cell_ok_surviving(h0: Seq<Option<Cell>>, hf: Seq<Option<Cell>>, c: CellData)
    requires
        cell_ok(h0, c),
        forall|t: int|
            #[trigger] points_to(c, t) ==> valid(hf, t) && data_at(hf, t) == data_at(h0, t),
    ensures
        cell_ok(hf, c),
{
    match c {
        CellData::PairData(p) => {
            match value_target(p.car) {
                Some(t) => {
                    assert(points_to(c, t));
                },
                None => {},
            }
            match value_target(p.cdr) {
                Some(t) => {
                    assert(points_to(c, t));
                },
                None => {},
            }
        },
        CellData::EnvData(e) => {
            assert forall|i: int| 0 <= i < e.values@.len() implies value_ok(
                hf,
                #[trigger] e.values@[i].value,
            ) by {
                match value_target(e.values@[i].value) {
                    Some(t) => {
                        assert(vals_child(e.values@, e.values@.len() as int, t));
                        assert(points_to(c, t));
                    },
                    None => {},
                }
            }
            match e.next {
                Some(p) => {
                    assert(points_to(c, p.0 as int));
                },
                None => {},
            }
        },
        CellData::ClosureData(cl) => {
            assert(points_to(c, cl.env.0 as int));
        },
        CellData::StrData(_) => {},
    }
}

impl GC {
    /// A collection: flips the current color, marks everything reachable
    /// from the given roots and from the interner, then frees every cell
    /// the marking did not reach. Reachable cells keep their exact
    /// payload; unreachable cells are gone; interned strings survive every
    /// collection.
    pub fn sweep(&mut self, roots: &Vec<Ptr>)
        requires
            gc_wf(*old(self)),
            forall|i: int|
                0 <= i < roots@.len() ==> valid(old(self).heap@, #[trigger] roots@[i].0 as int),
        ensures
            gc_wf(*final(self)),
            final(self).interner == old(self).interner,
            final(self).current_mark == !old(self).current_mark,
            final(self).heap@.len() == old(self).heap@.len(),
            forall|b: int|
                valid(final(self).heap@, b) <==> valid(old(self).heap@, b) && reachable(
                    old(self).heap@,
                    rset(roots@ + old(self).interner@),
                    b,
                ),
            forall|b: int|
                valid(final(self).heap@, b) ==> data_at(final(self).heap@, b) == data_at(
                    old(self).heap@,
                    b,
                ),
    {
        let ghost h0 = self.heap@;
        let ghost int0 = self.interner@;
        let m = !self.current_mark;
        self.current_mark = m;
        let mut all_roots: Vec<Ptr> = Vec::new();
        let mut i: usize = 0;
        while i < roots.len()
            invariant
                self.heap == old(self).heap,
                self.interner == old(self).interner,
                self.current_mark == m,
                i <= roots@.len(),
                all_roots@.len() == i,
                forall|k: int| 0 <= k < i ==> all_roots@[k] == #[trigger] roots@[k],
            decreases roots@.len() - i,
        {
            all_roots.push(roots[i]);
            i += 1;
        }
        let n = self.interner.len();
        let mut j: usize = 0;
        while j < n
            invariant
                self.heap == old(self).heap,
                self.interner == old(self).interner,
                n == self.interner@.len(),
                j <= n,
                all_roots@.len() == roots@.len() + j,
                forall|k: int| 0 <= k < roots@.len() ==> all_roots@[k] == #[trigger] roots@[k],
                forall|k: int|
                    0 <= k < j ==> all_roots@[roots@.len() + k] == #[trigger] self.interner@[k],
            decreases n - j,
        {
            all_roots.push(self.interner[j]);
            j += 1;
        }
        proof {
            assert(all_roots@ =~= roots@ + int0);
            assert forall|k: int| 0 <= k < all_roots@.len() implies valid(
                h0,
                #[trigger] all_roots@[k].0 as int,
            ) by {
                if k < roots@.len() {
                    assert(all_roots@[k] == roots@[k]);
                } else {
                    assert(all_roots@[k] == int0[k - roots@.len()]);
                    assert(is_str(h0, int0[k - roots@.len()].0 as int));
                }
            }
        }
        self.mark(&all_roots, m);
        let ghost h1 = self.heap@;
        let ghost rts = rset(all_roots@);
        let len = self.heap.len();
        let mut b: usize = 0;
        while b < len
            invariant
                self.interner == old(self).interner,
                self.interner@ == int0,
                self.current_mark == m,
                len == self.heap@.len(),
                len == h1.len(),
                b <= len,
                forall|c: int| b <= c < len ==> self.heap@[c] == h1[c],
                forall|c: int|
                    0 <= c < b ==> (valid(self.heap@, c) <==> valid(h1, c) && mark_at(h1, c)
                        == m),
                forall|c: int| 0 <= c < b && valid(self.heap@, c) ==> self.heap@[c] == h1[c],
            decreases len - b,
        {
            let freeit = match &self.heap[b] {
                Some(cell) => cell.mark != m,
                None => false,
            };
            if freeit {
                self.heap[b] = None;
            }
            b += 1;
        }
        proof {
            let hf = self.heap@;
            assert forall|c: int| valid(hf, c) implies valid(h0, c) && reachable(h0, rts, c)
                && data_at(hf, c) == data_at(h0, c) && mark_at(hf, c) == m by {
                assert(valid(h1, c) && mark_at(h1, c) == m);
            }
            assert forall|c: int|
                valid(h0, c) && reachable(h0, rts, c) implies valid(hf, c) by {
                assert(mark_at(h1, c) == m);
            }
            assert(rts =~= rset(roots@ + int0));
            // the heap invariant survives: a surviving cell's children are
            // reachable, so they survive with their data
            assert forall|c: int| valid(hf, c) implies cell_ok(hf, #[trigger] data_at(hf, c)) by {
                assert(cell_ok(h0, data_at(h0, c)));
                assert forall|t: int| #[trigger]
                    points_to(data_at(h0, c), t) implies valid(hf, t) && data_at(hf, t) == data_at(
                    h0,
                    t,
                ) by {
                    assert(edge(h0, c, t));
                    lemma_edge_valid(h0, c, t);
                    lemma_reachable_step(h0, rts, c, t);
                }
                lemma_cell_ok_surviving(h0, hf, data_at(h0, c));
            }
            // interned strings are roots, so they survive untouched
            assert forall|k: int| 0 <= k < int0.len() implies is_str(
                hf,
                #[trigger] int0[k].0 as int,
            ) && str_of(hf, int0[k].0 as int) == str_of(h0, int0[k].0 as int) by {
                let t = int0[k].0 as int;
                assert(all_roots@[roots@.len() + k] == int0[k]);
                assert(rts.contains(t));
                assert(reach_n(h0, rts, t, 0));
                assert(valid(hf, t));
            }
            assert(heap_wf(hf));
            assert forall|k: int| 0 <= k < self.interner@.len() implies is_str(
                self.heap@,
                #[trigger] self.interner@[k].0 as int,
            ) && !str_of(self.heap@, self.interner@[k].0 as int).mutable by {
                assert(str_of(hf, int0[k].0 as int) == str_of(h0, int0[k].0 as int));
                assert(!str_of(h0, int0[k].0 as int).mutable);
            }
            assert forall|k: int, l: int|
                0 <= k < self.interner@.len() && 0 <= l < self.interner@.len() && k != l implies
                str_of(self.heap@, #[trigger] self.interner@[k].0 as int).contents@ != str_of(
                self.heap@,
                #[trigger] self.interner@[l].0 as int,
            ).contents@ by {
                assert(str_of(hf, int0[k].0 as int) == str_of(h0, int0[k].0 as int));
                assert(str_of(hf, int0[l].0 as int) == str_of(h0, int0[l].0 as int));
                assert(str_of(h0, int0[k].0 as int).contents@ != str_of(
                    h0,
                    int0[l].0 as int,
                ).contents@);
            }
            assert forall|c: int| valid(self.heap@, c) implies mark_at(self.heap@, c)
                == self.current_mark by {
                assert(mark_at(hf, c) == m);
            }
            assert(gc_wf(*self));
        }
    }
}

} // verus!
verus! {

/// Two values of the same shape are interchangeable to the heap: shape
/// equality carries typed validity across a clone.
pub proof fn lemma_value_ok_abs(h: Seq<Option<Cell>>, a: Value, b: Value)
    requires
        value_ok(h, a),
        abs_of(b) == abs_of(a),
        num_wf(b),
    ensures
        value_ok(h, b),
{
    match b {
        Value::Closure(p) => {
            assert(a is Closure && a->Closure_0.0 == p.0);
        },
        Value::Pair(p) => {
            assert(a is Pair && a->Pair_0.0 == p.0);
        },
        Value::Str(p) => {
            assert(a is Str && a->Str_0.0 == p.0);
        },
        Value::Symbol(p) => {
            assert(a is Symbol && a->Symbol_0.0 == p.0);
        },
        _ => {},
    }
}

} // verus!
verus! {

/// Physical equality (`eq?`): handle identity for every reference kind
/// (pairs, closures, strings, symbols), value equality for numbers and
/// scalars, tag identity for primitives.
pub open spec fn eqv(a: Value, b: Value) -> bool {
    match (a, b) {
        (Value::Pair(p1), Value::Pair(p2)) => p1 == p2,
        (Value::Closure(c1), Value::Closure(c2)) => c1 == c2,
        (Value::Num(i), Value::Num(j)) => big_val(i) == big_val(j),
        (Value::Bool(x), Value::Bool(y)) => x == y,
        (Value::Symbol(s1), Value::Symbol(s2)) => s1 == s2,
        (Value::Str(s1), Value::Str(s2)) => s1 == s2,
        (Value::Null, Value::Null) => true,
        (Value::Unit, Value::Unit) => true,
        (Value::Primitive(p1), Value::Primitive(p2)) => p1 == p2,
        _ => false,
    }
}

impl GC {
    /// Reads the pair a handle names, if the handle still names a live
    /// pair; safe on any handle, even a dangling one.
    pub fn try_pair(&self, p: Ptr) -> (r: Option<&Pair>)
        ensures
            match r {
                Some(pr) => is_pair(self.heap@, p.0 as int) && *pr == pair_at(
                    self.heap@,
                    p.0 as int,
                ),
                None => !is_pair(self.heap@, p.0 as int),
            },
    {
        if p.0 >= self.heap.len() {
            return None;
        }
        match &self.heap[p.0] {
            Some(cell) => match &cell.data {
                CellData::PairData(pr) => Some(pr),
                _ => None,
            },
            None => None,
        }
    }
}

} // verus!
verus! {

impl GC {
    /// Reads the closure a handle names, if the handle still names a live
    /// closure; safe on any handle.
    pub fn try_closure(&self, p: Ptr) -> (r: Option<&Closure>)
        ensures
            match r {
                Some(c) => is_closure(self.heap@, p.0 as int) && *c == closure_of(
                    self.heap@,
                    p.0 as int,
                ),
                None => !is_closure(self.heap@, p.0 as int),
            },
    {
        if p.0 >= self.heap.len() {
            return None;
        }
        match &self.heap[p.0] {
            Some(cell) => match &cell.data {
                CellData::ClosureData(c) => Some(c),
                _ => None,
            },
            None => None,
        }
    }
}

} // verus!
verus! {

impl Closure {
    /// The captured environment.
    pub fn env(&self) -> (r: Ptr)
        ensures
            r == self.env,
    {
        self.env
    }

    /// The entry point.
    pub fn pc(&self) -> (r: u64)
        ensures
            r == self.pc,
    {
        self.pc
    }

    /// The number of positional parameters.
    pub fn arity(&self) -> (r: u8)
        ensures
            r == self.arity,
    {
        self.arity
    }

    /// Whether surplus arguments are collected into a list.
    pub fn variadic(&self) -> (r: bool)
        ensures
            r == self.variadic,
    {
        self.variadic
    }
}

/// Interned handles are canonical: among the interner's handles, equal
/// contents and equal handles coincide, so interning the same text twice
/// yields the same handle and different texts yield different handles.
pub proof fn lemma_intern_identity(g: GC, i: int, j: int)
    requires
        gc_wf(g),
        0 <= i < g.interner@.len(),
        0 <= j < g.interner@.len(),
    ensures
        (str_of(g.heap@, g.interner@[i].0 as int).contents@ == str_of(
            g.heap@,
            g.interner@[j].0 as int,
        ).contents@) <==> g.interner@[i] == g.interner@[j],
{
    if str_of(g.heap@, g.interner@[i].0 as int).contents@ == str_of(
        g.heap@,
        g.interner@[j].0 as int,
    ).contents@ {
        if i != j {
            assert(false);
        }
    }
}

/// Collects values and then builds them into a fresh proper list, in
/// append order.
pub struct ListBuilder {
    pub items: Vec<Value>,
}

/// Every collected value is sound against the heap.
pub open spec fn builder_wf(h: Seq<Option<Cell>>, b: ListBuilder) -> bool {
    forall|i: int| 0 <= i < b.items@.len() ==> value_ok(h, #[trigger] b.items@[i])
}

impl ListBuilder {
    /// A builder holding no elements yet.
    pub fn init() -> (r: ListBuilder)
        ensures
            r.items@.len() == 0,
    {
        ListBuilder { items: Vec::new() }
    }

    /// Appends one value to the list under construction.
    pub fn append(&mut self, v: Value, gc: &GC)
        requires
            value_ok(gc.heap@, v),
        ensures
            final(self).items@ == old(self).items@.push(v),
    {
        self.items.push(v);
    }

    /// Builds the collected values into a fresh proper list: exactly the
    /// appended values, in append order; no element gives the empty
    /// list. Nothing else on the heap changes.
    pub fn get_list(&self, gc: &mut GC) -> (r: Value)
        requires
            gc_wf(*old(gc)),
            builder_wf(old(gc).heap@, *self),
        ensures
            gc_wf(*final(gc)),
            final(gc).interner == old(gc).interner,
            final(gc).current_mark == old(gc).current_mark,
            forall|b: int|
                valid(old(gc).heap@, b) ==> valid(final(gc).heap@, b) && final(gc).heap@[b] == old(
                    gc,
                ).heap@[b],
            value_ok(final(gc).heap@, r),
            list_elems(final(gc).heap@, r, self.items@.len() + 1) == Some(
                crate::primitives::abs_seq(self.items@),
            ),
    {
        let ghost h_in = gc.heap@;
        let mut ret = Value::Null;
        let mut i: usize = self.items.len();
        proof {
            assert(crate::primitives::abs_seq(self.items@.skip(self.items@.len() as int))
                =~= Seq::<crate::value::AbsVal>::empty());
            assert(list_elems(gc.heap@, ret, 1) == Some(
                crate::primitives::abs_seq(self.items@.skip(self.items@.len() as int)),
            ));
        }
        while i > 0
            invariant
                gc_wf(*gc),
                gc.interner == old(gc).interner,
                gc.current_mark == old(gc).current_mark,
                i <= self.items@.len(),
                builder_wf(h_in, *self),
                forall|b: int|
                    valid(h_in, b) ==> valid(gc.heap@, b) && gc.heap@[b] == h_in[b],
                h_in == old(gc).heap@,
                value_ok(gc.heap@, ret),
                list_elems(gc.heap@, ret, (self.items@.len() - i) as nat + 1) == Some(
                    crate::primitives::abs_seq(self.items@.skip(i as int)),
                ),
            decreases i,
        {
            i -= 1;
            proof {
                assert(value_ok(h_in, self.items@[i as int]));
            }
            let v = self.items[i].clone();
            proof {
                lemma_value_ok_abs(h_in, self.items@[i as int], v);
                lemma_value_ok_covers(h_in, gc.heap@, v);
            }
            let ghost h0 = gc.heap@;
            let ghost old_ret = ret;
            let ghost old_fuel = (self.items@.len() - i - 1) as nat + 1;
            let pr = gc.alloc_pair(v, ret);
            ret = Value::Pair(pr);
            proof {
                lemma_list_elems_frame(h0, gc.heap@, old_ret, old_fuel);
                let h = gc.heap@;
                let fuel = (self.items@.len() - i) as nat + 1;
                assert(pair_at(h, pr.0 as int).cdr == old_ret);
                assert(abs_of(pair_at(h, pr.0 as int).car) == abs_of(self.items@[i as int]));
                assert(list_elems(h, ret, fuel) =~= Some(
                    crate::primitives::abs_seq(self.items@.skip(i as int)),
                )) by {
                    assert(seq![abs_of(pair_at(h, pr.0 as int).car)]
                        + crate::primitives::abs_seq(self.items@.skip(i + 1))
                        =~= crate::primitives::abs_seq(self.items@.skip(i as int)));
                }
            }
        }
        proof {
            assert(self.items@.skip(0) =~= self.items@);
        }
        ret
    }
}

} // verus!
verus! {

/// The elements of a proper list, as shapes, read through the heap with
/// bounded fuel: `Some` exactly for a null-terminated pair chain shorter
/// than the fuel.
pub open spec fn list_elems(
    h: Seq<Option<Cell>>,
    v: Value,
    fuel: nat,
) -> Option<Seq<crate::value::AbsVal>>
    decreases fuel,
{
    match v {
        Value::Null => Some(Seq::empty()),
        Value::Pair(p) => {
            if fuel == 0 {
                None
            } else if is_pair(h, p.0 as int) {
                match list_elems(h, pair_at(h, p.0 as int).cdr, (fuel - 1) as nat) {
                    Some(s) => Some(seq![abs_of(pair_at(h, p.0 as int).car)] + s),
                    None => None,
                }
            } else {
                None
            }
        },
        _ => None,
    }
}

/// A list reading survives any heap change that keeps every pair cell
/// intact, in particular allocation elsewhere and environment writes.
pub proof fn lemma_list_elems_frame(
    h: Seq<Option<Cell>>,
    h2: Seq<Option<Cell>>,
    v: Value,
    fuel: nat,
)
    requires
        forall|b: int| #[trigger] is_pair(h, b) ==> valid(h2, b) && h2[b] == h[b],
        list_elems(h, v, fuel) is Some,
    ensures
        list_elems(h2, v, fuel) == list_elems(h, v, fuel),
    decreases fuel,
{
    match v {
        Value::Pair(p) => {
            assert(is_pair(h, p.0 as int));
            assert(h2[p.0 as int] == h[p.0 as int]);
            lemma_list_elems_frame(h, h2, pair_at(h, p.0 as int).cdr, (fuel - 1) as nat);
        },
        _ => {},
    }
}

} // verus!
verus! {

/// `path` is the run of pair cells walked from `v0` down to `cur` along
/// `cdr` links; values are compared by shape, so a copied handle
/// continues the same chain.
pub open spec fn cdr_chain(h: Seq<Option<Cell>>, path: Seq<int>, v0: Value, cur: Value) -> bool
    decreases path.len(),
{
    if path.len() == 0 {
        abs_of(v0) == abs_of(cur)
    } else {
        &&& abs_of(v0) == crate::value::AbsVal::APair(path[0])
        &&& is_pair(h, path[0])
        &&& cdr_chain(h, path.skip(1), pair_at(h, path[0]).cdr, cur)
    }
}

/// Walking one more pair extends the chain.
pub proof fn lemma_cdr_chain_snoc(
    h: Seq<Option<Cell>>,
    path: Seq<int>,
    v0: Value,
    cur: Value,
    p: Ptr,
)
    requires
        cdr_chain(h, path, v0, cur),
        abs_of(cur) == crate::value::AbsVal::APair(p.0 as int),
        is_pair(h, p.0 as int),
    ensures
        cdr_chain(h, path.push(p.0 as int), v0, pair_at(h, p.0 as int).cdr),
    decreases path.len(),
{
    if path.len() == 0 {
        assert(path.push(p.0 as int).skip(1) =~= Seq::<int>::empty());
        assert(cdr_chain(
            h,
            Seq::<int>::empty(),
            pair_at(h, p.0 as int).cdr,
            pair_at(h, p.0 as int).cdr,
        ));
        assert(path.push(p.0 as int)[0] == p.0 as int);
    } else {
        lemma_cdr_chain_snoc(h, path.skip(1), pair_at(h, path[0]).cdr, cur, p);
        assert(path.push(p.0 as int).skip(1) =~= path.skip(1).push(p.0 as int));
        assert(path.push(p.0 as int)[0] == path[0]);
    }
}

/// A value whose walk reached a readable tail is itself readable, with
/// fuel for the walked pairs on top.
pub proof fn lemma_cdr_chain_elems(
    h: Seq<Option<Cell>>,
    path: Seq<int>,
    v0: Value,
    cur: Value,
    fuel: nat,
)
    requires
        cdr_chain(h, path, v0, cur),
        list_elems(h, cur, fuel) is Some,
    ensures
        list_elems(h, v0, path.len() + fuel) is Some,
    decreases path.len(),
{
    if path.len() == 0 {
        lemma_list_elems_abs(h, cur, v0, fuel);
    } else {
        lemma_cdr_chain_elems(h, path.skip(1), pair_at(h, path[0]).cdr, cur, fuel);
        assert(v0 is Pair && v0->Pair_0.0 as int == path[0]);
    }
}

/// Reading a list only looks at a value's shape: shape-equal values read
/// the same.
pub proof fn lemma_list_elems_abs(h: Seq<Option<Cell>>, a: Value, b: Value, fuel: nat)
    requires
        abs_of(a) == abs_of(b),
    ensures
        list_elems(h, a, fuel) == list_elems(h, b, fuel),
{
    match a {
        Value::Pair(p) => {
            assert(b is Pair && b->Pair_0.0 == p.0);
        },
        Value::Null => {
            assert(b is Null);
        },
        _ => {
            assert(!(b is Null) && !(b is Pair));
        },
    }
}

/// More fuel never changes a successful list reading.
pub proof fn lemma_list_elems_mono(h: Seq<Option<Cell>>, v: Value, f1: nat, f2: nat)
    requires
        list_elems(h, v, f1) is Some,
        f1 <= f2,
    ensures
        list_elems(h, v, f2) == list_elems(h, v, f1),
    decreases f1,
{
    match v {
        Value::Pair(p) => {
            lemma_list_elems_mono(h, pair_at(h, p.0 as int).cdr, (f1 - 1) as nat, (f2 - 1) as nat);
        },
        _ => {},
    }
}

/// A successful reading never holds more elements than it had fuel:
/// every pair along the way consumed one unit.
pub proof fn lemma_list_elems_len_fuel(h: Seq<Option<Cell>>, v: Value, f: nat)
    requires
        list_elems(h, v, f) is Some,
    ensures
        list_elems(h, v, f)->Some_0.len() <= f,
    decreases f,
{
    match v {
        Value::Pair(p) => {
            lemma_list_elems_len_fuel(h, pair_at(h, p.0 as int).cdr, (f - 1) as nat);
        },
        _ => {},
    }
}

/// Each cell along a walk of a readable list starts the matching tail of
/// the reading: position `i` of the walk reads the elements from `i` on.
pub proof fn lemma_chain_positions(
    h: Seq<Option<Cell>>,
    path: Seq<int>,
    v0: Value,
    cur: Value,
    f: nat,
)
    requires
        cdr_chain(h, path, v0, cur),
        list_elems(h, v0, f) is Some,
    ensures
        path.len() <= f,
        path.len() <= list_elems(h, v0, f)->Some_0.len(),
        list_elems(h, cur, f) == Some(
            list_elems(h, v0, f)->Some_0.skip(path.len() as int),
        ),
        forall|i: int|
            0 <= i < path.len() ==> list_elems(h, Value::Pair(Ptr(path[i] as usize)), f) == Some(
                list_elems(h, v0, f)->Some_0.skip(i),
            ),
    decreases path.len(),
{
    let s = list_elems(h, v0, f)->Some_0;
    if path.len() == 0 {
        lemma_list_elems_abs(h, v0, cur, f);
        assert(s.skip(0) =~= s);
    } else {
        let b = path[0];
        assert(is_pair(h, b));
        assert(0 <= b < h.len());
        let tail = pair_at(h, b).cdr;
        assert(v0 is Pair && v0->Pair_0.0 as int == b);
        assert(list_elems(h, tail, (f - 1) as nat) is Some);
        let s1 = list_elems(h, tail, (f - 1) as nat)->Some_0;
        assert(s == seq![abs_of(pair_at(h, b).car)] + s1);
        lemma_chain_positions(h, path.skip(1), tail, cur, (f - 1) as nat);
        lemma_list_elems_mono(h, cur, (f - 1) as nat, f);
        assert(s1.skip(path.len() - 1) =~= s.skip(path.len() as int));
        assert forall|i: int|
            0 <= i < path.len() implies list_elems(h, Value::Pair(Ptr(path[i] as usize)), f)
            == Some(s.skip(i)) by {
            if i == 0 {
                assert(Value::Pair(Ptr(path[0] as usize)) == v0);
                assert(s.skip(0) =~= s);
            } else {
                assert(path.skip(1)[i - 1] == path[i]);
                assert(list_elems(h, Value::Pair(Ptr(path[i] as usize)), (f - 1) as nat) == Some(
                    s1.skip(i - 1),
                ));
                lemma_list_elems_mono(h, Value::Pair(Ptr(path[i] as usize)), (f - 1) as nat, f);
                assert(s1.skip(i - 1) =~= s.skip(i));
            }
        }
    }
}

/// A walk of a readable list never visits the same cell twice: a
/// revisited cell would start two tails of different lengths.
pub proof fn lemma_chain_no_dup(
    h: Seq<Option<Cell>>,
    path: Seq<int>,
    v0: Value,
    cur: Value,
    f: nat,
)
    requires
        cdr_chain(h, path, v0, cur),
        list_elems(h, v0, f) is Some,
    ensures
        path.no_duplicates(),
{
    let s = list_elems(h, v0, f)->Some_0;
    lemma_chain_positions(h, path, v0, cur, f);
    assert forall|i: int, j: int|
        0 <= i < path.len() && 0 <= j < path.len() && i != j implies path[i] != path[j] by {
        if path[i] == path[j] {
            assert(list_elems(h, Value::Pair(Ptr(path[i] as usize)), f) == Some(s.skip(i)));
            assert(list_elems(h, Value::Pair(Ptr(path[j] as usize)), f) == Some(s.skip(j)));
            assert(s.skip(i).len() == s.len() - i);
            assert(s.skip(j).len() == s.len() - j);
        }
    }
}

/// Pigeonhole: distinct cell indices within the arena cannot outnumber
/// its slots.
pub proof fn lemma_distinct_bounded(s: Seq<int>, n: int)
    requires
        0 <= n,
        s.no_duplicates(),
        forall|i: int| 0 <= i < s.len() ==> 0 <= #[trigger] s[i] < n,
    ensures
        s.len() <= n,
{
    s.unique_seq_to_set();
    vstd::set_lib::lemma_int_range(0, n);
    assert forall|x: int| s.to_set().contains(x) implies vstd::set_lib::set_int_range(
        0,
        n,
    ).contains(x) by {
        let i = choose|i: int| 0 <= i < s.len() && s[i] == x;
        assert(0 <= s[i] < n);
    }
    assert(s.to_set().subset_of(vstd::set_lib::set_int_range(0, n)));
    vstd::set_lib::lemma_len_subset(s.to_set(), vstd::set_lib::set_int_range(0, n));
}

} // verus!
verus! {

/// Whether a value reads as a proper (null-terminated, acyclic) list
/// under some fuel.
pub open spec fn is_proper_list(h: Seq<Option<Cell>>, v: Value) -> bool {
    exists|f: nat| (#[trigger] list_elems(h, v, f)) is Some
}

/// A chain's end is read by shape, so it may be replaced by any value of
/// the same shape.
pub proof fn lemma_cdr_chain_retarget(
    h: Seq<Option<Cell>>,
    path: Seq<int>,
    v0: Value,
    cur: Value,
    cur2: Value,
)
    requires
        cdr_chain(h, path, v0, cur),
        abs_of(cur2) == abs_of(cur),
    ensures
        cdr_chain(h, path, v0, cur2),
    decreases path.len(),
{
    if path.len() > 0 {
        lemma_cdr_chain_retarget(h, path.skip(1), pair_at(h, path[0]).cdr, cur, cur2);
    }
}

} // verus!

verus! {

/// Structural equality (`equal?`) with a recursion-depth budget:
/// recurses through pairs, compares string contents, and falls back to
/// physical equality for everything else. `None` when the budget ends.
pub open spec fn struct_eq(h: Seq<Option<Cell>>, a: Value, b: Value, d: nat) -> Option<bool>
    decreases d,
{
    match (a, b) {
        (Value::Pair(p1), Value::Pair(p2)) => if d == 0 {
            Option::None
        } else {
            match struct_eq(
                h,
                pair_at(h, p1.0 as int).car,
                pair_at(h, p2.0 as int).car,
                (d - 1) as nat,
            ) {
                Option::Some(r1) => if !r1 {
                    Option::Some(false)
                } else {
                    struct_eq(
                        h,
                        pair_at(h, p1.0 as int).cdr,
                        pair_at(h, p2.0 as int).cdr,
                        (d - 1) as nat,
                    )
                },
                Option::None => Option::None,
            }
        },
        (Value::Str(s1), Value::Str(s2)) => Option::Some(
            str_of(h, s1.0 as int).contents@ == str_of(h, s2.0 as int).contents@,
        ),
        _ => Option::Some(eqv(a, b)),
    }
}

/// Structural equality reads values by shape.
pub proof fn lemma_struct_eq_abs(h: Seq<Option<Cell>>, a: Value, a2: Value, b: Value, b2: Value, d: nat)
    requires
        abs_of(a2) == abs_of(a),
        abs_of(b2) == abs_of(b),
    ensures
        struct_eq(h, a2, b2, d) == struct_eq(h, a, b, d),
{
    match (a, b) {
        (Value::Pair(p1), Value::Pair(p2)) => {
            assert(a2 is Pair && a2->Pair_0 == p1);
            assert(b2 is Pair && b2->Pair_0 == p2);
        },
        (Value::Str(s1), Value::Str(s2)) => {
            assert(a2 is Str && a2->Str_0 == s1);
            assert(b2 is Str && b2->Str_0 == s2);
        },
        _ => {
            crate::value::lemma_abs_variant(a, a2);
            crate::value::lemma_abs_variant(b, b2);
        },
    }
}

} // verus!
