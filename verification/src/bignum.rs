//! Arbitrary-precision signed integers.
//!
//! A number is a sign plus a little-endian magnitude in base 2^32 limbs,
//! kept canonical: no trailing zero limb, and no negative zero. Every
//! operation is specified against the mathematical value of the number.

use vstd::arithmetic::div_mod::lemma_fundamental_div_mod;
use vstd::prelude::*;

verus! {

/// The limb base, 2^32.
pub const LIMB_BASE: u64 = 0x1_0000_0000;

/// The value of a little-endian limb sequence.
pub open spec fn mag_val(s: Seq<u32>) -> nat
    decreases s.len(),
{
    if s.len() == 0 {
        0
    } else {
        s[0] as nat + 0x1_0000_0000 * mag_val(s.skip(1))
    }
}

/// `LIMB_BASE` to the power `n`.
pub open spec fn bpow(n: nat) -> nat
    decreases n,
{
    if n == 0 {
        1
    } else {
        0x1_0000_0000 * bpow((n - 1) as nat)
    }
}

/// A limb sequence is canonical when it carries no trailing zero limb, so
/// each integer has exactly one representation.
pub open spec fn canonical(s: Seq<u32>) -> bool {
    s.len() == 0 || s[s.len() - 1] != 0
}

/// The limb at position `i`, reading positions past the end as zero.
pub open spec fn pad_limb(s: Seq<u32>, i: int) -> u32 {
    if 0 <= i < s.len() {
        s[i]
    } else {
        0
    }
}

/// The value of the first `i` limbs, clamped to the whole sequence when
/// `i` runs past the end.
pub open spec fn take_val(s: Seq<u32>, i: int) -> nat {
    if i <= s.len() {
        mag_val(s.take(i))
    } else {
        mag_val(s)
    }
}

pub proof fn lemma_bpow_pos(n: nat)
    ensures
        bpow(n) >= 1,
    decreases n,
{
    if n > 0 {
        lemma_bpow_pos((n - 1) as nat);
    }
}

pub proof fn lemma_bpow_mono(i: nat, j: nat)
    requires
        i <= j,
    ensures
        bpow(i) <= bpow(j),
    decreases j,
{
    if i < j {
        lemma_bpow_mono(i, (j - 1) as nat);
        lemma_bpow_pos((j - 1) as nat);
        assert(bpow(j) == 0x1_0000_0000 * bpow((j - 1) as nat));
        assert(bpow((j - 1) as nat) <= 0x1_0000_0000 * bpow((j - 1) as nat)) by (nonlinear_arith)
            requires
                bpow((j - 1) as nat) >= 1,
        ;
    }
}

/// Prefixes grow one limb at a time: the `i+1`-limb value is the `i`-limb
/// value plus the weighted `i`-th limb.
pub proof fn lemma_take_succ(s: Seq<u32>, i: int)
    requires
        0 <= i < s.len(),
    ensures
        mag_val(s.take(i + 1)) == mag_val(s.take(i)) + s[i] as nat * bpow(i as nat),
    decreases i,
{
    if i == 0 {
        assert(s.take(1).skip(1) =~= s.take(0));
        assert(s.take(1).len() == 1);
        assert(s.take(1)[0] == s[0]);
        assert(mag_val(s.take(0)) == 0);
        assert(mag_val(s.take(1)) == s[0] as nat + 0x1_0000_0000 * mag_val(s.take(0)));
        assert(bpow(0) == 1);
        assert(mag_val(s.take(1)) == mag_val(s.take(0)) + s[0] as nat * bpow(0 as nat));
    } else {
        let t = s.skip(1);
        lemma_take_succ(t, i - 1);
        assert(s.take(i + 1).skip(1) =~= t.take(i));
        assert(s.take(i).skip(1) =~= t.take(i - 1));
        assert(mag_val(s.take(i + 1)) == s[0] as nat + 0x1_0000_0000 * mag_val(t.take(i)));
        assert(mag_val(s.take(i)) == s[0] as nat + 0x1_0000_0000 * mag_val(t.take(i - 1)));
        assert(t[i - 1] == s[i]);
        assert(mag_val(t.take(i)) == mag_val(t.take(i - 1)) + s[i] as nat * bpow((i - 1) as nat));
        assert(0x1_0000_0000 * (mag_val(t.take(i - 1)) + s[i] as nat * bpow((i - 1) as nat))
            == 0x1_0000_0000 * mag_val(t.take(i - 1)) + s[i] as nat * (0x1_0000_0000 * bpow(
            (i - 1) as nat,
        ))) by (nonlinear_arith);
        assert(bpow(i as nat) == 0x1_0000_0000 * bpow((i - 1) as nat));
        assert(mag_val(s.take(i + 1)) == s[0] as nat + 0x1_0000_0000 * (mag_val(t.take(i - 1))
            + s[i] as nat * bpow((i - 1) as nat)));
        assert(mag_val(s.take(i + 1)) == mag_val(s.take(i)) + s[i] as nat * bpow(i as nat));
    }
}

/// Splitting a sequence at `i` splits its value: low limbs plus the high
/// limbs weighted by `bpow(i)`.
pub proof fn lemma_split(s: Seq<u32>, i: int)
    requires
        0 <= i <= s.len(),
    ensures
        mag_val(s) == mag_val(s.take(i)) + bpow(i as nat) * mag_val(s.skip(i)),
    decreases i,
{
    if i == 0 {
        assert(s.take(0) =~= Seq::<u32>::empty());
        assert(s.skip(0) =~= s);
        assert(mag_val(s.take(0)) == 0);
        assert(bpow(0) == 1);
        assert(bpow(0) * mag_val(s) == mag_val(s)) by (nonlinear_arith)
            requires
                bpow(0) == 1,
        ;
    } else {
        lemma_split(s, i - 1);
        lemma_take_succ(s, i - 1);
        let hi = s.skip(i - 1);
        assert(hi.skip(1) =~= s.skip(i));
        assert(hi[0] == s[i - 1]);
        assert(mag_val(hi) == s[i - 1] as nat + 0x1_0000_0000 * mag_val(s.skip(i)));
        assert(bpow((i - 1) as nat) * (s[i - 1] as nat + 0x1_0000_0000 * mag_val(s.skip(i)))
            == s[i - 1] as nat * bpow((i - 1) as nat) + (0x1_0000_0000 * bpow((i - 1) as nat))
            * mag_val(s.skip(i))) by (nonlinear_arith);
        assert(bpow(i as nat) == 0x1_0000_0000 * bpow((i - 1) as nat));
        assert((0x1_0000_0000 * bpow((i - 1) as nat)) * mag_val(s.skip(i)) == bpow(i as nat)
            * mag_val(s.skip(i)));
        assert(mag_val(s) == mag_val(s.take(i - 1)) + bpow((i - 1) as nat) * mag_val(hi));
        assert(mag_val(s) == mag_val(s.take(i - 1)) + s[i - 1] as nat * bpow((i - 1) as nat) + bpow(
            i as nat,
        ) * mag_val(s.skip(i)));
        assert(mag_val(s) == mag_val(s.take(i)) + bpow(i as nat) * mag_val(s.skip(i)));
    }
}

/// A sequence of `n` limbs is worth less than `bpow(n)`.
pub proof fn lemma_mag_bound(s: Seq<u32>)
    ensures
        mag_val(s) < bpow(s.len()),
    decreases s.len(),
{
    if s.len() > 0 {
        lemma_mag_bound(s.skip(1));
        assert(s[0] as nat <= 0xFFFF_FFFF);
        assert(0x1_0000_0000 * mag_val(s.skip(1)) <= 0x1_0000_0000 * (bpow(
            (s.len() - 1) as nat,
        ) - 1)) by (nonlinear_arith)
            requires
                mag_val(s.skip(1)) <= bpow((s.len() - 1) as nat) - 1,
        ;
        assert(bpow(s.len()) == 0x1_0000_0000 * bpow((s.len() - 1) as nat));
    }
}

/// A canonical, non-empty sequence of `n` limbs is worth at least
/// `bpow(n-1)`.
pub proof fn lemma_mag_lower(s: Seq<u32>)
    requires
        canonical(s),
        s.len() > 0,
    ensures
        mag_val(s) >= bpow((s.len() - 1) as nat),
{
    let i = (s.len() - 1) as nat;
    lemma_split(s, i as int);
    assert(s.skip(i as int)[0] == s[i as int]);
    assert(mag_val(s.skip(i as int)) >= 1);
    assert(bpow(i) * mag_val(s.skip(i as int)) >= bpow(i)) by (nonlinear_arith)
        requires
            mag_val(s.skip(i as int)) >= 1,
            bpow(i) >= 0,
    ;
}

/// Appending a limb adds its weighted value.
pub proof fn lemma_push(s: Seq<u32>, c: u32)
    ensures
        mag_val(s.push(c)) == mag_val(s) + c as nat * bpow(s.len()),
{
    let p = s.push(c);
    lemma_take_succ(p, s.len() as int);
    assert(p.take(s.len() as int) =~= s);
    assert(p.take(s.len() as int + 1) =~= p);
}

/// Dropping a trailing zero limb keeps the value.
pub proof fn lemma_drop_zero(s: Seq<u32>)
    requires
        s.len() > 0,
        s[s.len() - 1] == 0,
    ensures
        mag_val(s.take(s.len() - 1)) == mag_val(s),
{
    lemma_split(s, s.len() - 1);
    let hi = s.skip(s.len() - 1);
    assert(hi.len() == 1);
    assert(hi[0] == 0);
    assert(hi.skip(1) =~= Seq::<u32>::empty());
    assert(mag_val(hi.skip(1)) == 0);
    assert(mag_val(hi) == hi[0] as nat + 0x1_0000_0000 * mag_val(hi.skip(1)));
    assert(mag_val(hi) == 0);
    assert(bpow((s.len() - 1) as nat) * mag_val(hi) == 0) by (nonlinear_arith)
        requires
            mag_val(hi) == 0,
    ;
}

/// The padded-prefix value also grows one (padded) limb at a time.
pub proof fn lemma_take_val_succ(s: Seq<u32>, i: int)
    requires
        0 <= i,
    ensures
        take_val(s, i + 1) == take_val(s, i) + pad_limb(s, i) as nat * bpow(i as nat),
{
    if i < s.len() {
        lemma_take_succ(s, i);
    } else if i == s.len() {
        assert(s.take(i) =~= s);
    }
}

/// Removes trailing zero limbs, canonicalizing the magnitude without
/// changing its value.
pub fn trim(v: &mut Vec<u32>)
    ensures
        canonical(final(v)@),
        mag_val(final(v)@) == mag_val(old(v)@),
{
    while v.len() > 0 && v[v.len() - 1] == 0
        invariant
            mag_val(v@) == mag_val(old(v)@),
        decreases v.len(),
    {
        proof {
            lemma_drop_zero(v@);
        }
        v.pop();
    }
}

/// Adds two magnitudes limb by limb with carry propagation.
pub fn add_mag(a: &Vec<u32>, b: &Vec<u32>) -> (r: Vec<u32>)
    ensures
        mag_val(r@) == mag_val(a@) + mag_val(b@),
        canonical(r@),
{
    let n = if a.len() >= b.len() {
        a.len()
    } else {
        b.len()
    };
    let mut out: Vec<u32> = Vec::new();
    let mut carry: u64 = 0;
    let mut i: usize = 0;
    while i < n
        invariant
            i <= n,
            n == if a@.len() >= b@.len() {
                a@.len()
            } else {
                b@.len()
            },
            out@.len() == i,
            carry <= 1,
            mag_val(out@) + carry as nat * bpow(i as nat) == take_val(a@, i as int) + take_val(
                b@,
                i as int,
            ),
        decreases n - i,
    {
        let av: u64 = if i < a.len() {
            a[i] as u64
        } else {
            0
        };
        let bv: u64 = if i < b.len() {
            b[i] as u64
        } else {
            0
        };
        let t: u64 = av + bv + carry;
        let limb: u32 = (t % LIMB_BASE) as u32;
        let ncarry: u64 = t / LIMB_BASE;
        proof {
            lemma_fundamental_div_mod(t as int, LIMB_BASE as int);
            assert(ncarry <= 1) by (nonlinear_arith)
                requires
                    t <= 2 * 0x1_0000_0000u64 - 1,
                    ncarry == t / 0x1_0000_0000u64,
            ;
            lemma_push(out@, limb);
            lemma_take_val_succ(a@, i as int);
            lemma_take_val_succ(b@, i as int);
            assert(av == pad_limb(a@, i as int));
            assert(bv == pad_limb(b@, i as int));
            // t == limb + BASE * ncarry; weight everything by bpow(i)
            assert(t as nat * bpow(i as nat) == limb as nat * bpow(i as nat) + ncarry as nat * (
            0x1_0000_0000 * bpow(i as nat))) by (nonlinear_arith)
                requires
                    t as nat == limb as nat + 0x1_0000_0000 * ncarry as nat,
            ;
            assert((av + bv + carry) as nat * bpow(i as nat) == av as nat * bpow(i as nat)
                + bv as nat * bpow(i as nat) + carry as nat * bpow(i as nat)) by (nonlinear_arith);
            assert(bpow((i + 1) as nat) == 0x1_0000_0000 * bpow(i as nat));
        }
        out.push(limb);
        carry = ncarry;
        i += 1;
    }
    proof {
        assert(take_val(a@, n as int) == mag_val(a@)) by {
            if n as int <= a@.len() {
                assert(a@.take(n as int) =~= a@);
            }
        }
        assert(take_val(b@, n as int) == mag_val(b@)) by {
            if n as int <= b@.len() {
                assert(b@.take(n as int) =~= b@);
            }
        }
    }
    if carry > 0 {
        proof {
            lemma_push(out@, carry as u32);
        }
        out.push(carry as u32);
    }
    trim(&mut out);
    out
}

} // verus!
verus! {

/// The outcome of comparing two magnitudes.
#[derive(Clone, Copy, Debug, PartialEq, Eq, Structural)]
pub enum MagOrd {
    Lt,
    Eq,
    Gt,
}

/// A canonical magnitude with at least one limb is worth at least one.
pub proof fn lemma_canonical_pos(s: Seq<u32>)
    requires
        canonical(s),
    ensures
        s.len() > 0 <==> mag_val(s) > 0,
{
    if s.len() > 0 {
        lemma_mag_lower(s);
        lemma_bpow_pos((s.len() - 1) as nat);
    }
}

/// Compares two canonical magnitudes; equality of value coincides with
/// equality of representation.
pub fn cmp_mag(a: &Vec<u32>, b: &Vec<u32>) -> (r: MagOrd)
    requires
        canonical(a@),
        canonical(b@),
    ensures
        (r == MagOrd::Lt <==> mag_val(a@) < mag_val(b@)),
        (r == MagOrd::Eq <==> mag_val(a@) == mag_val(b@)),
        (r == MagOrd::Gt <==> mag_val(a@) > mag_val(b@)),
        r == MagOrd::Eq ==> a@ == b@,
{
    if a.len() < b.len() {
        proof {
            lemma_mag_bound(a@);
            lemma_mag_lower(b@);
            lemma_bpow_mono(a@.len(), (b@.len() - 1) as nat);
        }
        return MagOrd::Lt;
    }
    if a.len() > b.len() {
        proof {
            lemma_mag_bound(b@);
            lemma_mag_lower(a@);
            lemma_bpow_mono(b@.len(), (a@.len() - 1) as nat);
        }
        return MagOrd::Gt;
    }
    let mut i: usize = a.len();
    while i > 0
        invariant
            i <= a@.len(),
            a@.len() == b@.len(),
            forall|k: int| i <= k < a@.len() ==> a@[k] == b@[k],
        decreases i,
    {
        i -= 1;
        if a[i] != b[i] {
            proof {
                let ii = i as int;
                lemma_split(a@, ii + 1);
                lemma_split(b@, ii + 1);
                assert(a@.skip(ii + 1) =~= b@.skip(ii + 1));
                lemma_take_succ(a@, ii);
                lemma_take_succ(b@, ii);
                lemma_mag_bound(a@.take(ii));
                lemma_mag_bound(b@.take(ii));
                if a@[ii] < b@[ii] {
                    assert(mag_val(a@.take(ii)) + a@[ii] as nat * bpow(i as nat) < bpow(i as nat)
                        + a@[ii] as nat * bpow(i as nat));
                    assert(bpow(i as nat) + a@[ii] as nat * bpow(i as nat) <= b@[ii] as nat * bpow(
                        i as nat,
                    )) by (nonlinear_arith)
                        requires
                            a@[ii] as nat + 1 <= b@[ii] as nat,
                            bpow(i as nat) >= 0,
                    ;
                    assert(b@[ii] as nat * bpow(i as nat) <= mag_val(b@.take(ii + 1)));
                    assert(mag_val(a@.take(ii + 1)) < mag_val(b@.take(ii + 1)));
                } else {
                    assert(mag_val(b@.take(ii)) + b@[ii] as nat * bpow(i as nat) < bpow(i as nat)
                        + b@[ii] as nat * bpow(i as nat));
                    assert(bpow(i as nat) + b@[ii] as nat * bpow(i as nat) <= a@[ii] as nat * bpow(
                        i as nat,
                    )) by (nonlinear_arith)
                        requires
                            b@[ii] as nat + 1 <= a@[ii] as nat,
                            bpow(i as nat) >= 0,
                    ;
                    assert(a@[ii] as nat * bpow(i as nat) <= mag_val(a@.take(ii + 1)));
                    assert(mag_val(b@.take(ii + 1)) < mag_val(a@.take(ii + 1)));
                }
            }
            if a[i] < b[i] {
                return MagOrd::Lt;
            } else {
                return MagOrd::Gt;
            }
        }
    }
    proof {
        assert(a@ =~= b@);
    }
    MagOrd::Eq
}

/// Subtracts a smaller magnitude from a larger one limb by limb with
/// borrow propagation.
pub fn sub_mag(a: &Vec<u32>, b: &Vec<u32>) -> (r: Vec<u32>)
    requires
        mag_val(b@) <= mag_val(a@),
        b@.len() <= a@.len(),
    ensures
        mag_val(r@) == mag_val(a@) - mag_val(b@),
        canonical(r@),
{
    let n = a.len();
    let mut out: Vec<u32> = Vec::new();
    let mut borrow: u64 = 0;
    let mut i: usize = 0;
    while i < n
        invariant
            i <= n,
            n == a@.len(),
            b@.len() <= a@.len(),
            out@.len() == i,
            borrow <= 1,
            mag_val(out@) as int == take_val(a@, i as int) as int - take_val(b@, i as int)
                + borrow as int * bpow(i as nat),
        decreases n - i,
    {
        let av: u64 = a[i] as u64;
        let bv: u64 = if i < b.len() {
            b[i] as u64
        } else {
            0
        };
        let x: u64 = av + LIMB_BASE - bv - borrow;
        let limb: u32;
        let nborrow: u64;
        if x >= LIMB_BASE {
            limb = (x - LIMB_BASE) as u32;
            nborrow = 0;
        } else {
            limb = x as u32;
            nborrow = 1;
        }
        proof {
            lemma_push(out@, limb);
            lemma_take_val_succ(a@, i as int);
            lemma_take_val_succ(b@, i as int);
            assert(av == pad_limb(a@, i as int));
            assert(bv == pad_limb(b@, i as int));
            assert(limb as int == av as int - bv as int - borrow as int + nborrow as int
                * 0x1_0000_0000);
            assert((av as int - bv as int - borrow as int + nborrow as int * 0x1_0000_0000) * bpow(
                i as nat,
            ) == av as int * bpow(i as nat) - bv as int * bpow(i as nat) - borrow as int * bpow(
                i as nat,
            ) + nborrow as int * (0x1_0000_0000 * bpow(i as nat))) by (nonlinear_arith);
            assert(bpow((i + 1) as nat) == 0x1_0000_0000 * bpow(i as nat));
        }
        out.push(limb);
        borrow = nborrow;
        i += 1;
    }
    proof {
        assert(take_val(a@, n as int) == mag_val(a@)) by {
            if n as int <= a@.len() {
                assert(a@.take(n as int) =~= a@);
            }
        }
        assert(take_val(b@, n as int) == mag_val(b@)) by {
            if n as int <= b@.len() {
                assert(b@.take(n as int) =~= b@);
            }
        }
        if borrow == 1 {
            lemma_mag_bound(out@);
            assert(false);
        }
    }
    trim(&mut out);
    out
}

/// Multiplies a magnitude by a single limb.
pub fn mul_limb(a: &Vec<u32>, d: u32) -> (r: Vec<u32>)
    ensures
        mag_val(r@) == mag_val(a@) * d as nat,
        canonical(r@),
{
    let n = a.len();
    let mut out: Vec<u32> = Vec::new();
    let mut carry: u64 = 0;
    let mut i: usize = 0;
    proof {
        assert(a@.take(0) =~= Seq::<u32>::empty());
        assert(mag_val(a@.take(0)) * d as nat == 0) by (nonlinear_arith)
            requires
                mag_val(a@.take(0)) == 0,
        ;
    }
    while i < n
        invariant
            i <= n,
            n == a@.len(),
            out@.len() == i,
            carry < 0x1_0000_0000,
            mag_val(out@) + carry as nat * bpow(i as nat) == mag_val(a@.take(i as int)) * d as nat,
        decreases n - i,
    {
        proof {
            assert(a@[i as int] as nat * d as nat <= 0xFFFF_FFFF * 0xFFFF_FFFF)
                by (nonlinear_arith)
                requires
                    a@[i as int] <= 0xFFFF_FFFFu32,
                    d <= 0xFFFF_FFFFu32,
            ;
        }
        let t: u64 = a[i] as u64 * d as u64 + carry;
        let limb: u32 = (t % LIMB_BASE) as u32;
        let ncarry: u64 = t / LIMB_BASE;
        proof {
            lemma_fundamental_div_mod(t as int, LIMB_BASE as int);
            assert(ncarry < 0x1_0000_0000) by (nonlinear_arith)
                requires
                    t <= 0xFFFF_FFFFu64 * 0xFFFF_FFFFu64 + 0xFFFF_FFFFu64,
                    ncarry == t / 0x1_0000_0000u64,
            ;
            lemma_push(out@, limb);
            lemma_take_succ(a@, i as int);
            // weight t by bpow(i): t == limb + BASE * ncarry
            assert(t as nat * bpow(i as nat) == limb as nat * bpow(i as nat) + ncarry as nat * (
            0x1_0000_0000 * bpow(i as nat))) by (nonlinear_arith)
                requires
                    t as nat == limb as nat + 0x1_0000_0000 * ncarry as nat,
            ;
            // t == a[i] * d + carry, weighted
            assert((a@[i as int] as nat * d as nat + carry as nat) * bpow(i as nat) == a@[i as int]
                as nat * d as nat * bpow(i as nat) + carry as nat * bpow(i as nat))
                by (nonlinear_arith);
            // fold the new limb of a into the product
            assert((mag_val(a@.take(i as int)) + a@[i as int] as nat * bpow(i as nat)) * d as nat
                == mag_val(a@.take(i as int)) * d as nat + a@[i as int] as nat * d as nat * bpow(
                i as nat,
            )) by (nonlinear_arith);
            assert(bpow((i + 1) as nat) == 0x1_0000_0000 * bpow(i as nat));
        }
        out.push(limb);
        carry = ncarry;
        i += 1;
    }
    proof {
        assert(a@.take(n as int) =~= a@);
        lemma_push(out@, carry as u32);
    }
    out.push(carry as u32);
    trim(&mut out);
    out
}

/// Prepends a zero limb, multiplying the value by the base.
pub fn shift_limb(a: &Vec<u32>) -> (r: Vec<u32>)
    ensures
        mag_val(r@) == 0x1_0000_0000 * mag_val(a@),
{
    let mut out: Vec<u32> = Vec::new();
    out.push(0);
    let mut i: usize = 0;
    while i < a.len()
        invariant
            i <= a@.len(),
            out@.len() == i + 1,
            out@[0] == 0,
            forall|k: int| 0 <= k < i ==> out@[k + 1] == a@[k],
        decreases a@.len() - i,
    {
        out.push(a[i]);
        i += 1;
    }
    proof {
        assert(out@.skip(1) =~= a@);
        assert(mag_val(out@) == out@[0] as nat + 0x1_0000_0000 * mag_val(out@.skip(1)));
    }
    out
}

/// Multiplies two magnitudes by Horner evaluation from the top limb down.
pub fn mul_mag(a: &Vec<u32>, b: &Vec<u32>) -> (r: Vec<u32>)
    ensures
        mag_val(r@) == mag_val(a@) * mag_val(b@),
        canonical(r@),
{
    let mut acc: Vec<u32> = Vec::new();
    let mut i: usize = b.len();
    proof {
        assert(b@.skip(b@.len() as int) =~= Seq::<u32>::empty());
        assert(mag_val(a@) * mag_val(b@.skip(b@.len() as int)) == 0) by (nonlinear_arith)
            requires
                mag_val(b@.skip(b@.len() as int)) == 0,
        ;
    }
    while i > 0
        invariant
            i <= b@.len(),
            canonical(acc@),
            mag_val(acc@) == mag_val(a@) * mag_val(b@.skip(i as int)),
        decreases i,
    {
        i -= 1;
        let shifted = shift_limb(&acc);
        let part = mul_limb(a, b[i]);
        let next = add_mag(&shifted, &part);
        proof {
            let ii = i as int;
            assert(b@.skip(ii).skip(1) =~= b@.skip(ii + 1));
            assert(mag_val(b@.skip(ii)) == b@[ii] as nat + 0x1_0000_0000 * mag_val(
                b@.skip(ii + 1),
            ));
            assert(mag_val(a@) * (b@[ii] as nat + 0x1_0000_0000 * mag_val(b@.skip(ii + 1)))
                == mag_val(a@) * b@[ii] as nat + 0x1_0000_0000 * (mag_val(a@) * mag_val(
                b@.skip(ii + 1),
            ))) by (nonlinear_arith);
        }
        acc = next;
    }
    proof {
        assert(b@.skip(0) =~= b@);
    }
    acc
}

} // verus!
verus! {

/// The value of one- and two-limb sequences, written out.
pub proof fn lemma_mag_pair(lo: u32, hi: u32)
    ensures
        mag_val(seq![lo]) == lo as nat,
        mag_val(seq![lo, hi]) == lo as nat + 0x1_0000_0000 * hi as nat,
{
    assert(seq![lo].skip(1) =~= Seq::<u32>::empty());
    assert(mag_val(seq![lo]) == lo as nat + 0x1_0000_0000 * mag_val(seq![lo].skip(1)));
    assert(seq![lo, hi].skip(1) =~= seq![hi]);
    assert(seq![hi].skip(1) =~= Seq::<u32>::empty());
    assert(mag_val(seq![hi]) == hi as nat + 0x1_0000_0000 * mag_val(seq![hi].skip(1)));
    assert(mag_val(seq![lo, hi]) == lo as nat + 0x1_0000_0000 * mag_val(seq![lo, hi].skip(1)));
}

/// A signed arbitrary-precision integer: sign plus canonical magnitude.
#[derive(Debug)]
pub struct Big {
    pub neg: bool,
    pub mag: Vec<u32>,
}

/// Well-formedness: the magnitude is canonical and zero is never negative,
/// so every integer has exactly one representation.
pub open spec fn big_wf(b: Big) -> bool {
    canonical(b.mag@) && (b.neg ==> b.mag@.len() > 0)
}

/// The mathematical value of a signed number.
pub open spec fn big_val(b: Big) -> int {
    if b.neg {
        -(mag_val(b.mag@) as int)
    } else {
        mag_val(b.mag@) as int
    }
}

impl Clone for Big {
    /// Clones a number, keeping its exact value and canonical form.
    fn clone(&self) -> (r: Big)
        ensures
            r.neg == self.neg,
            r.mag@ == self.mag@,
            big_val(r) == big_val(*self),
            big_wf(r) == big_wf(*self),
    {
        Big { neg: self.neg, mag: self.mag.clone() }
    }
}

impl Big {
    /// The number zero.
    pub fn zero() -> (r: Big)
        ensures
            big_wf(r),
            big_val(r) == 0,
    {
        Big { neg: false, mag: Vec::new() }
    }

    /// The number one.
    pub fn one() -> (r: Big)
        ensures
            big_wf(r),
            big_val(r) == 1,
    {
        let mut mag: Vec<u32> = Vec::new();
        proof {
            lemma_push(mag@, 1);
        }
        mag.push(1);
        Big { neg: false, mag }
    }

    /// Whether the number is zero.
    pub fn is_zero(&self) -> (r: bool)
        requires
            big_wf(*self),
        ensures
            r == (big_val(*self) == 0),
    {
        proof {
            lemma_canonical_pos(self.mag@);
        }
        self.mag.len() == 0
    }

    /// Builds the number denoted by a 64-bit signed machine integer.
    pub fn from_i64(v: i64) -> (r: Big)
        ensures
            big_wf(r),
            big_val(r) == v as int,
    {
        if v == 0 {
            return Big::zero();
        }
        let neg = v < 0;
        let m: u64 = if v == i64::MIN {
            0x8000_0000_0000_0000
        } else if v < 0 {
            (-v) as u64
        } else {
            v as u64
        };
        let lo: u32 = (m % LIMB_BASE) as u32;
        let hi: u32 = (m / LIMB_BASE) as u32;
        proof {
            lemma_fundamental_div_mod(m as int, LIMB_BASE as int);
            assert((m / 0x1_0000_0000u64) < 0x1_0000_0000) by (nonlinear_arith)
                requires
                    m <= 0xFFFF_FFFF_FFFF_FFFFu64,
            ;
        }
        let mut mag: Vec<u32> = Vec::new();
        mag.push(lo);
        if hi != 0 {
            mag.push(hi);
            proof {
                assert(mag@ =~= seq![lo, hi]);
                lemma_mag_pair(lo, hi);
                assert(mag_val(mag@) == m as nat);
            }
        } else {
            proof {
                assert(mag@ =~= seq![lo]);
                lemma_mag_pair(lo, 0);
                assert(m == lo as nat);
                assert(mag_val(mag@) == m as nat);
            }
        }
        proof {
            if hi == 0 && lo == 0 {
                assert(m == 0);
                assert(false);
            }
        }
        Big { neg, mag }
    }

    /// The additive inverse.
    pub fn neg_big(&self) -> (r: Big)
        requires
            big_wf(*self),
        ensures
            big_wf(r),
            big_val(r) == -big_val(*self),
    {
        let mag = self.mag.clone();
        proof {
            assert(mag@ =~= self.mag@);
        }
        if mag.len() == 0 {
            Big { neg: false, mag }
        } else {
            Big { neg: !self.neg, mag }
        }
    }

    /// The sum of two numbers.
    pub fn add_big(&self, other: &Big) -> (r: Big)
        requires
            big_wf(*self),
            big_wf(*other),
        ensures
            big_wf(r),
            big_val(r) == big_val(*self) + big_val(*other),
    {
        if self.neg == other.neg {
            let mag = add_mag(&self.mag, &other.mag);
            proof {
                lemma_canonical_pos(self.mag@);
                lemma_canonical_pos(other.mag@);
                lemma_canonical_pos(mag@);
            }
            if mag.len() == 0 {
                Big { neg: false, mag }
            } else {
                Big { neg: self.neg, mag }
            }
        } else {
            match cmp_mag(&self.mag, &other.mag) {
                MagOrd::Eq => Big::zero(),
                MagOrd::Gt => {
                    proof {
                        if self.mag@.len() < other.mag@.len() {
                            lemma_mag_bound(self.mag@);
                            lemma_mag_lower(other.mag@);
                            lemma_bpow_mono(self.mag@.len(), (other.mag@.len() - 1) as nat);
                        }
                    }
                    let mag = sub_mag(&self.mag, &other.mag);
                    proof {
                        lemma_canonical_pos(mag@);
                    }
                    Big { neg: self.neg, mag }
                },
                MagOrd::Lt => {
                    proof {
                        if other.mag@.len() < self.mag@.len() {
                            lemma_mag_bound(other.mag@);
                            lemma_mag_lower(self.mag@);
                            lemma_bpow_mono(other.mag@.len(), (self.mag@.len() - 1) as nat);
                        }
                    }
                    let mag = sub_mag(&other.mag, &self.mag);
                    proof {
                        lemma_canonical_pos(mag@);
                    }
                    Big { neg: other.neg, mag }
                },
            }
        }
    }

    /// The difference of two numbers.
    pub fn sub_big(&self, other: &Big) -> (r: Big)
        requires
            big_wf(*self),
            big_wf(*other),
        ensures
            big_wf(r),
            big_val(r) == big_val(*self) - big_val(*other),
    {
        let n = other.neg_big();
        self.add_big(&n)
    }

    /// The product of two numbers.
    pub fn mul_big(&self, other: &Big) -> (r: Big)
        requires
            big_wf(*self),
            big_wf(*other),
        ensures
            big_wf(r),
            big_val(r) == big_val(*self) * big_val(*other),
    {
        let mag = mul_mag(&self.mag, &other.mag);
        proof {
            lemma_canonical_pos(mag@);
            lemma_canonical_pos(self.mag@);
            lemma_canonical_pos(other.mag@);
            let sv = big_val(*self);
            let ov = big_val(*other);
            let sm = mag_val(self.mag@) as int;
            let om = mag_val(other.mag@) as int;
            assert(sm * om == mag_val(mag@));
            if self.neg != other.neg {
                assert(sv * ov == -(sm * om)) by (nonlinear_arith)
                    requires
                        (sv == -sm && ov == om) || (sv == sm && ov == -om),
                ;
            } else {
                assert(sv * ov == sm * om) by (nonlinear_arith)
                    requires
                        (sv == sm && ov == om) || (sv == -sm && ov == -om),
                ;
            }
            if mag@.len() == 0 {
                assert(sm * om == 0);
            } else {
                assert(mag_val(mag@) > 0);
                assert(sm != 0 && om != 0) by (nonlinear_arith)
                    requires
                        sm * om > 0,
                ;
            }
        }
        if mag.len() == 0 {
            Big { neg: false, mag }
        } else {
            Big { neg: self.neg != other.neg, mag }
        }
    }

    /// Whether two numbers denote the same integer; with the canonical
    /// representation this coincides with structural equality.
    pub fn eq_big(&self, other: &Big) -> (r: bool)
        requires
            big_wf(*self),
            big_wf(*other),
        ensures
            r == (big_val(*self) == big_val(*other)),
    {
        proof {
            lemma_canonical_pos(self.mag@);
            lemma_canonical_pos(other.mag@);
        }
        if self.mag.len() == 0 && other.mag.len() == 0 {
            return true;
        }
        if self.neg != other.neg {
            proof {
                if big_val(*self) == big_val(*other) {
                    assert(mag_val(self.mag@) == 0 && mag_val(other.mag@) == 0);
                }
            }
            return false;
        }
        match cmp_mag(&self.mag, &other.mag) {
            MagOrd::Eq => true,
            _ => false,
        }
    }
}

} // verus!
verus! {

/// Divides a magnitude by a small non-zero divisor, long division from
/// the top limb down.
pub fn div_small(a: &Vec<u32>, d: u32) -> (r: (Vec<u32>, u32))
    requires
        d > 0,
    ensures
        canonical(r.0@),
        mag_val(a@) == mag_val(r.0@) * d as nat + r.1 as nat,
        r.1 < d,
{
    let n = a.len();
    let mut out: Vec<u32> = Vec::new();
    let mut rem: u64 = 0;
    let mut i: usize = n;
    proof {
        assert(a@.skip(n as int) =~= Seq::<u32>::empty());
        assert(mag_val_rev(out@) * d as nat == 0) by (nonlinear_arith)
            requires
                mag_val_rev(out@) == 0,
        ;
    }
    while i > 0
        invariant
            i <= n,
            n == a@.len(),
            out@.len() == n - i,
            rem < d,
            d > 0,
            mag_val(a@.skip(i as int)) == mag_val_rev(out@) * d as nat + rem as nat,
        decreases i,
    {
        i -= 1;
        let cur: u64 = rem * 0x1_0000_0000 + a[i] as u64;
        let q: u64 = cur / (d as u64);
        let nr: u64 = cur % (d as u64);
        proof {
            lemma_fundamental_div_mod(cur as int, d as int);
            assert(rem <= d as u64 - 1);
            assert(cur < d as u64 * 0x1_0000_0000) by (nonlinear_arith)
                requires
                    cur == rem * 0x1_0000_0000 + a@[i as int] as u64,
                    rem <= d as u64 - 1,
                    a@[i as int] <= 0xFFFF_FFFFu32,
            ;
            assert(q < 0x1_0000_0000) by (nonlinear_arith)
                requires
                    cur < d as u64 * 0x1_0000_0000,
                    q == cur / (d as u64),
                    d as u64 >= 1,
            ;
            assert(nr < d as u64) by (nonlinear_arith)
                requires
                    nr == cur % (d as u64),
                    d as u64 > 0,
            ;
            let s = a@.skip(i as int);
            assert(s.skip(1) =~= a@.skip(i + 1));
            assert(mag_val(s) == a@[i as int] as nat + 0x1_0000_0000 * mag_val(a@.skip(i + 1)));
            let rr = mag_val_rev(out@);
            // val(skip(i)) == (B*R + q)*d + nr
            assert(0x1_0000_0000 * (rr * d as nat + rem as nat) == (0x1_0000_0000 * rr) * d as nat
                + 0x1_0000_0000 * rem as nat) by (nonlinear_arith);
            assert(d as nat * q as nat == q as nat * d as nat) by (nonlinear_arith);
            assert(cur as nat == q as nat * d as nat + nr as nat);
            assert((0x1_0000_0000 * rr + q as nat) * d as nat == (0x1_0000_0000 * rr) * d as nat
                + q as nat * d as nat) by (nonlinear_arith);
            assert(mag_val(s) == (0x1_0000_0000 * rr + q as nat) * d as nat + nr as nat);
        }
        let ghost o_pre = out@;
        let ghost r_old = mag_val_rev(out@);
        out.push(q as u32);
        rem = nr;
        proof {
            assert(out@.take(out@.len() - 1) =~= o_pre);
            assert(mag_val_rev(out@) == mag_val_rev(out@.take(out@.len() - 1)) * 0x1_0000_0000
                + out@[out@.len() - 1] as nat);
            assert(mag_val_rev(out@.take(out@.len() - 1)) == r_old);
            assert(r_old * 0x1_0000_0000 == 0x1_0000_0000 * r_old) by (nonlinear_arith);
            assert(mag_val_rev(out@) == 0x1_0000_0000 * r_old + q as nat);
        }
    }
    proof {
        assert(a@.skip(0) =~= a@);
    }
    let mut quot: Vec<u32> = Vec::new();
    let mut k: usize = out.len();
    while k > 0
        invariant
            k <= out@.len(),
            quot@.len() == out@.len() - k,
            forall|j: int| 0 <= j < quot@.len() ==> quot@[j] == out@[out@.len() - 1 - j],
        decreases k,
    {
        k -= 1;
        quot.push(out[k]);
    }
    proof {
        lemma_rev_val(out@, quot@);
    }
    trim(&mut quot);
    (quot, rem as u32)
}

/// The value of a big-endian limb sequence (most significant first).
pub open spec fn mag_val_rev(s: Seq<u32>) -> nat
    decreases s.len(),
{
    if s.len() == 0 {
        0
    } else {
        mag_val_rev(s.take(s.len() - 1)) * 0x1_0000_0000 + s[s.len() - 1] as nat
    }
}

/// Reversing a big-endian sequence gives the little-endian value.
pub proof fn lemma_rev_val(be: Seq<u32>, le: Seq<u32>)
    requires
        le.len() == be.len(),
        forall|j: int| 0 <= j < le.len() ==> le[j] == be[be.len() - 1 - j],
    ensures
        mag_val(le) == mag_val_rev(be),
    decreases be.len(),
{
    if be.len() > 0 {
        let be2 = be.take(be.len() - 1);
        let le2 = le.skip(1);
        assert forall|j: int| 0 <= j < le2.len() implies le2[j] == be2[be2.len() - 1 - j] by {
            assert(le2[j] == le[j + 1]);
        }
        lemma_rev_val(be2, le2);
        assert(mag_val(le) == le[0] as nat + 0x1_0000_0000 * mag_val(le2));
        assert(le[0] == be[be.len() - 1]);
        assert(mag_val_rev(be) == mag_val_rev(be2) * 0x1_0000_0000 + be[be.len() - 1] as nat);
    } else {
        assert(le =~= Seq::<u32>::empty());
    }
}

} // verus!
verus! {

/// Ten to the power `n`.
pub open spec fn p10(n: nat) -> nat
    decreases n,
{
    if n == 0 {
        1
    } else {
        10 * p10((n - 1) as nat)
    }
}

/// The number an ASCII digit string denotes, least significant digit
/// first.
pub open spec fn lsb_val(s: Seq<u8>) -> nat
    decreases s.len(),
{
    if s.len() == 0 {
        0
    } else {
        lsb_val(s.take(s.len() - 1)) + (s[s.len() - 1] - 0x30) as nat * p10((s.len() - 1) as nat)
    }
}

/// The number an ASCII digit string denotes, most significant digit
/// first.
pub open spec fn digits_val(s: Seq<u8>) -> nat
    decreases s.len(),
{
    if s.len() == 0 {
        0
    } else {
        digits_val(s.take(s.len() - 1)) * 10 + (s[s.len() - 1] - 0x30) as nat
    }
}

/// A minimal decimal rendering: at least one digit, all ASCII digits, no
/// leading zero unless the number is exactly zero.
pub open spec fn digits_ok(s: Seq<u8>) -> bool {
    &&& s.len() >= 1
    &&& forall|i: int| 0 <= i < s.len() ==> 0x30 <= #[trigger] s[i] <= 0x39
    &&& (s.len() > 1 ==> s[0] != 0x30)
}

/// Peeling the least significant digit off the front.
pub proof fn lemma_lsb_first(s: Seq<u8>)
    requires
        s.len() > 0,
        forall|i: int| 0 <= i < s.len() ==> 0x30 <= #[trigger] s[i] <= 0x39,
    ensures
        lsb_val(s) == (s[0] - 0x30) as nat + 10 * lsb_val(s.skip(1)),
    decreases s.len(),
{
    let l = s.len() as int;
    let dl = s.take(l - 1);
    if l == 1 {
        assert(s.skip(1) =~= Seq::<u8>::empty());
        assert(dl =~= Seq::<u8>::empty());
        assert(p10(0) == 1);
        assert(lsb_val(s) == lsb_val(dl) + (s[0] - 0x30) as nat * p10(0));
        assert((s[0] - 0x30) as nat * p10(0) == (s[0] - 0x30) as nat) by (nonlinear_arith)
            requires
                p10(0) == 1,
        ;
        assert(lsb_val(s.skip(1)) == 0);
    } else {
        lemma_lsb_first(dl);
        let t = s.skip(1);
        assert(t.take(t.len() - 1) =~= dl.skip(1));
        assert(t[t.len() - 1] == s[l - 1]);
        assert(lsb_val(t) == lsb_val(dl.skip(1)) + (s[l - 1] - 0x30) as nat * p10((l - 2) as nat));
        assert(lsb_val(s) == lsb_val(dl) + (s[l - 1] - 0x30) as nat * p10((l - 1) as nat));
        assert(lsb_val(dl) == (s[0] - 0x30) as nat + 10 * lsb_val(dl.skip(1)));
        assert(p10((l - 1) as nat) == 10 * p10((l - 2) as nat));
        assert((s[l - 1] - 0x30) as nat * (10 * p10((l - 2) as nat)) == 10 * ((s[l - 1]
            - 0x30) as nat * p10((l - 2) as nat))) by (nonlinear_arith);
        assert(lsb_val(s) == (s[0] - 0x30) as nat + 10 * lsb_val(dl.skip(1)) + 10 * ((s[l - 1]
            - 0x30) as nat * p10((l - 2) as nat)));
        assert(10 * lsb_val(t) == 10 * lsb_val(dl.skip(1)) + 10 * ((s[l - 1] - 0x30) as nat * p10(
            (l - 2) as nat,
        )));
    }
}

/// Reversing a least-significant-first digit string gives the usual
/// most-significant-first reading.
pub proof fn lemma_digits_rev(lsb: Seq<u8>, msb: Seq<u8>)
    requires
        msb.len() == lsb.len(),
        forall|j: int| 0 <= j < msb.len() ==> msb[j] == lsb[lsb.len() - 1 - j],
        forall|i: int| 0 <= i < lsb.len() ==> 0x30 <= #[trigger] lsb[i] <= 0x39,
    ensures
        digits_val(msb) == lsb_val(lsb),
    decreases lsb.len(),
{
    if lsb.len() > 0 {
        let l = lsb.len() as int;
        let lsb2 = lsb.skip(1);
        let msb2 = msb.take(l - 1);
        assert forall|j: int| 0 <= j < msb2.len() implies msb2[j] == lsb2[lsb2.len() - 1 - j] by {
            assert(msb2[j] == msb[j]);
        }
        lemma_digits_rev(lsb2, msb2);
        lemma_lsb_first(lsb);
        assert(msb[l - 1] == lsb[0]);
        assert(digits_val(msb) == digits_val(msb2) * 10 + (lsb[0] - 0x30) as nat);
        assert(lsb_val(lsb2) * 10 == 10 * lsb_val(lsb2)) by (nonlinear_arith);
    } else {
        assert(msb =~= Seq::<u8>::empty());
    }
}

impl Big {
    /// Renders the number in minimal decimal ASCII, a leading minus sign
    /// for negative numbers.
    pub fn to_decimal(&self) -> (r: Vec<u8>)
        requires
            big_wf(*self),
        ensures
            big_val(*self) >= 0 ==> digits_ok(r@) && digits_val(r@) == big_val(*self),
            big_val(*self) < 0 ==> r@.len() >= 2 && r@[0] == 0x2D && digits_ok(r@.skip(1))
                && digits_val(r@.skip(1)) == -big_val(*self),
    {
        proof {
            lemma_canonical_pos(self.mag@);
        }
        if self.mag.len() == 0 {
            let mut r: Vec<u8> = Vec::new();
            r.push(0x30);
            proof {
                assert(r@.len() == 1);
                assert(r@[0] == 0x30);
                assert(r@.take(r@.len() - 1) =~= Seq::<u8>::empty());
                assert(digits_val(r@.take(r@.len() - 1)) == 0);
                assert(digits_val(r@) == digits_val(r@.take(r@.len() - 1)) * 10 + (r@[r@.len() - 1]
                    - 0x30) as nat);
                assert(digits_val(r@.take(r@.len() - 1)) * 10 == 0) by (nonlinear_arith)
                    requires
                        digits_val(r@.take(r@.len() - 1)) == 0,
                ;
                assert(digits_val(r@) == 0);
            }
            return r;
        }
        let mut cur = self.mag.clone();
        let mut acc: Vec<u8> = Vec::new();
        proof {
            assert(cur@ =~= self.mag@);
            assert(p10(0) == 1);
            assert(mag_val(cur@) * 1 == mag_val(cur@)) by (nonlinear_arith);
        }
        while cur.len() > 0
            invariant
                canonical(cur@),
                mag_val(self.mag@) == mag_val(cur@) * p10(acc@.len() as nat) + lsb_val(acc@),
                forall|i: int| 0 <= i < acc@.len() ==> 0x30 <= #[trigger] acc@[i] <= 0x39,
                cur@.len() == 0 ==> acc@.len() >= 1 && (acc@.len() == 1 || acc@[acc@.len() - 1]
                    != 0x30),
                acc@.len() >= 1 || cur@.len() > 0,
            decreases mag_val(cur@),
        {
            let (q, rm) = crate::bignum::div_small(&cur, 10);
            let digit: u8 = (rm + 0x30) as u8;
            let ghost a_pre = acc@;
            let ghost vq = mag_val(q@);
            let ghost vc = mag_val(cur@);
            proof {
                lemma_canonical_pos(cur@);
                lemma_canonical_pos(q@);
                assert(vc == vq * 10 + rm as nat);
                // progress: the quotient is strictly smaller
                assert(vq < vc) by (nonlinear_arith)
                    requires
                        vc == vq * 10 + rm as nat,
                        vc > 0,
                ;
                if vq == 0 {
                    assert(rm as nat == vc);
                    assert(rm > 0);
                }
            }
            acc.push(digit);
            cur = q;
            proof {
                assert(acc@.take(acc@.len() - 1) =~= a_pre);
                assert(lsb_val(acc@) == lsb_val(a_pre) + (digit - 0x30) as nat * p10(
                    a_pre.len() as nat,
                ));
                assert((digit - 0x30) as nat == rm as nat);
                // regroup the invariant product
                assert((vq * 10 + rm as nat) * p10(a_pre.len() as nat) == vq * (10 * p10(
                    a_pre.len() as nat,
                )) + rm as nat * p10(a_pre.len() as nat)) by (nonlinear_arith);
                assert(p10(acc@.len() as nat) == 10 * p10(a_pre.len() as nat));
            }
        }
        proof {
            assert(mag_val(cur@) * p10(acc@.len() as nat) == 0) by (nonlinear_arith)
                requires
                    mag_val(cur@) == 0,
            ;
        }
        let mut digits: Vec<u8> = Vec::new();
        if self.neg {
            digits.push(0x2D);
        }
        let ghost lead = digits@;
        let mut k: usize = acc.len();
        while k > 0
            invariant
                k <= acc@.len(),
                digits@.len() == lead.len() + (acc@.len() - k),
                forall|j: int| 0 <= j < lead.len() ==> #[trigger] digits@[j] == lead[j],
                forall|j: int|
                    0 <= j < digits@.len() - lead.len() ==> #[trigger] digits@[lead.len() + j]
                        == acc@[acc@.len() - 1 - j],
            decreases k,
        {
            k -= 1;
            digits.push(acc[k]);
        }
        proof {
            let msb = digits@.skip(lead.len() as int);
            assert forall|j: int| 0 <= j < msb.len() implies msb[j] == acc@[acc@.len() - 1
                - j] by {
                assert(msb[j] == digits@[lead.len() + j]);
            }
            lemma_digits_rev(acc@, msb);
            assert(digits_ok(msb)) by {
                assert(msb[0] == acc@[acc@.len() - 1]);
                assert forall|i: int| 0 <= i < msb.len() implies 0x30 <= #[trigger] msb[i]
                    <= 0x39 by {
                    assert(msb[i] == acc@[acc@.len() - 1 - i]);
                }
            }
            if !self.neg {
                assert(digits@ =~= msb);
            } else {
                assert(digits@.skip(1) =~= msb);
                assert(digits@[0] == 0x2D);
            }
        }
        digits
    }
}

} // verus!
