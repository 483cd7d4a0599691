//! The three domain flavours: canonical integer embeddings, two-adic
//! multiplicative subgroups, and shifted cosets of such subgroups.

use vstd::prelude::*;
use vstd::arithmetic::power::pow;
use vstd::arithmetic::power2::{
    lemma2_to64, lemma_pow2_pos, lemma_pow2_strictly_increases, lemma_pow2_unfold, pow2,
};
use vstd::arithmetic::div_mod::{lemma_mul_mod_noop_left, lemma_small_mod};
use crate::modular::fmul;
use crate::field::FieldElem;

verus! {

/// The canonical-index domain: point `i` is the embedding of `start + i`.
pub open spec fn idx_pts(start: int, n: int, p: int) -> Seq<int> {
    Seq::new(n as nat, |i: int| (start + i) % p)
}

/// The cyclic domain generated by `g`: point `i` is `g^i`.
pub open spec fn subgroup_pts(g: int, n: int, p: int) -> Seq<int> {
    Seq::new(n as nat, |i: int| pow(g, i as nat) % p)
}

/// The coset domain: point `i` is `shift * g^i`.
pub open spec fn coset_pts(shift: int, g: int, n: int, p: int) -> Seq<int> {
    Seq::new(n as nat, |i: int| fmul(shift, pow(g, i as nat) % p, p))
}

/// Embeds the integers `start, start + 1, ..., start + count - 1`.
pub fn canonical_domain<T: FieldElem>(start: usize, count: usize) -> (pts: Vec<T>)
    requires
        start + count <= usize::MAX,
    ensures
        pts.len() == count,
        forall|i: int|
            0 <= i < count ==> #[trigger] pts[i].val() == idx_pts(start as int, count as int, T::modulus())[i]
                && 0 <= pts[i].val() < T::modulus(),
{
    let mut pts: Vec<T> = Vec::new();
    let mut k: usize = 0;
    while k < count
        invariant
            start + count <= usize::MAX,
            k <= count,
            pts.len() == k,
            forall|i: int|
                0 <= i < k ==> #[trigger] pts[i].val() == (start + i) % T::modulus() && 0
                    <= pts[i].val() < T::modulus(),
        decreases count - k,
    {
        pts.push(T::from_usize(start + k));
        k = k + 1;
    }
    pts
}

/// Enumerates `g^0, g^1, ..., g^(order - 1)`, in that order.  Callers
/// rely on this exact order: it is the mapping between row index and
/// domain point.
pub fn cyclic_subgroup_known_order<T: FieldElem>(g: T, order: usize) -> (pts: Vec<T>)
    requires
        0 <= g.val() < T::modulus(),
    ensures
        pts.len() == order,
        forall|i: int|
            0 <= i < order ==> #[trigger] pts[i].val() == subgroup_pts(
                g.val(),
                order as int,
                T::modulus(),
            )[i] && 0 <= pts[i].val() < T::modulus(),
{
    let ghost p = T::modulus();
    proof {
        T::modulus_at_least_two();
    }
    let mut pts: Vec<T> = Vec::new();
    let mut cur = T::from_usize(1);
    proof {
        lemma_small_mod(1nat, p as nat);
        assert(pow(g.val(), 0) == 1) by {
            reveal_with_fuel(pow, 1);
        }
    }
    let mut k: usize = 0;
    while k < order
        invariant
            0 <= g.val() < T::modulus(),
            p == T::modulus(),
            p >= 2,
            k <= order,
            pts.len() == k,
            0 <= cur.val() < p,
            cur.val() == pow(g.val(), k as nat) % p,
            forall|i: int|
                0 <= i < k ==> #[trigger] pts[i].val() == pow(g.val(), i as nat) % p && 0
                    <= pts[i].val() < p,
        decreases order - k,
    {
        pts.push(cur);
        proof {
            let gv = g.val();
            assert(pow(gv, (k + 1) as nat) == gv * pow(gv, k as nat)) by {
                reveal_with_fuel(pow, 1);
            }
            lemma_mul_mod_noop_left(pow(gv, k as nat), gv, p);
            assert((pow(gv, k as nat) % p) * gv == gv * (pow(gv, k as nat) % p));
            assert(pow(gv, k as nat) * gv == gv * pow(gv, k as nat));
        }
        cur = cur.mul_elem(g);
        k = k + 1;
    }
    pts
}

/// Enumerates the coset `shift * g^0, shift * g^1, ...`, in subgroup
/// order.
pub fn cyclic_subgroup_coset_known_order<T: FieldElem>(g: T, shift: T, order: usize) -> (pts: Vec<
    T,
>)
    requires
        0 <= g.val() < T::modulus(),
        0 <= shift.val() < T::modulus(),
    ensures
        pts.len() == order,
        forall|i: int|
            0 <= i < order ==> #[trigger] pts[i].val() == coset_pts(
                shift.val(),
                g.val(),
                order as int,
                T::modulus(),
            )[i] && 0 <= pts[i].val() < T::modulus(),
{
    let base = cyclic_subgroup_known_order(g, order);
    let mut pts: Vec<T> = Vec::new();
    let mut k: usize = 0;
    while k < order
        invariant
            0 <= g.val() < T::modulus(),
            0 <= shift.val() < T::modulus(),
            base.len() == order,
            forall|i: int|
                0 <= i < order ==> #[trigger] base[i].val() == pow(g.val(), i as nat) % T::modulus()
                    && 0 <= base[i].val() < T::modulus(),
            k <= order,
            pts.len() == k,
            forall|i: int|
                0 <= i < k ==> #[trigger] pts[i].val() == fmul(
                    shift.val(),
                    pow(g.val(), i as nat) % T::modulus(),
                    T::modulus(),
                ) && 0 <= pts[i].val() < T::modulus(),
        decreases order - k,
    {
        pts.push(shift.mul_elem(base[k]));
        k = k + 1;
    }
    pts
}

/// A power of two strictly exceeds its exponent.
pub proof fn lemma_pow2_exceeds(e: nat)
    ensures
        pow2(e) > e,
    decreases e,
{
    if e == 0 {
        lemma2_to64();
    } else {
        lemma_pow2_exceeds((e - 1) as nat);
        lemma_pow2_unfold(e);
    }
}

/// The exact base-two logarithm of a power of two.
pub fn log2_strict_usize(h: usize) -> (bits: usize)
    requires
        exists|b: nat| h as nat == pow2(b),
    ensures
        h as nat == pow2(bits as nat),
{
    let ghost b = choose|b: nat| h as nat == pow2(b);
    let mut bits: usize = 0;
    let mut cur: usize = 1;
    proof {
        lemma2_to64();
        lemma_pow2_pos(b);
    }
    while cur < h
        invariant
            h as nat == pow2(b),
            cur as nat == pow2(bits as nat),
            cur <= h,
            bits as nat <= b,
        decreases h - cur,
    {
        proof {
            if bits as nat >= b {
                if bits as nat > b {
                    lemma_pow2_strictly_increases(b, bits as nat);
                }
                assert(cur >= h);
            }
            assert((bits as nat) < b);
            lemma_pow2_exceeds(bits as nat);
            lemma_pow2_unfold((bits + 1) as nat);
            if ((bits + 1) as nat) < b {
                lemma_pow2_strictly_increases((bits + 1) as nat, b);
            }
        }
        cur = cur * 2;
        bits = bits + 1;
    }
    proof {
        if (bits as nat) < b {
            lemma_pow2_strictly_increases(bits as nat, b);
        }
    }
    bits
}

} // verus!
