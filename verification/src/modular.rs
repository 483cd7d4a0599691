//! The mathematical model of prime-field arithmetic: residues in
//! `[0, p)` under addition, subtraction and multiplication mod `p`,
//! together with the lemmas the extension proofs lean on.

use vstd::prelude::*;
use vstd::arithmetic::div_mod::{
    lemma_add_mod_noop, lemma_mod_bound, lemma_mod_add_multiples_vanish, lemma_small_mod,
    lemma_mul_mod_noop_general,
};
use vstd::arithmetic::mul::{lemma_mul_is_associative, lemma_mul_is_distributive_add};

verus! {

/// Addition in the field of `p` elements.
pub open spec fn fadd(a: int, b: int, p: int) -> int {
    (a + b) % p
}

/// Subtraction in the field of `p` elements.
pub open spec fn fsub(a: int, b: int, p: int) -> int {
    (a - b) % p
}

/// Multiplication in the field of `p` elements.
pub open spec fn fmul(a: int, b: int, p: int) -> int {
    (a * b) % p
}

/// Whether `a` has a multiplicative inverse mod `p`.
pub open spec fn invertible(a: int, p: int) -> bool {
    exists|b: int| 0 <= b < p && fmul(a, b, p) == 1
}

/// The multiplicative inverse of `a` mod `p`; meaningful only when
/// `invertible(a, p)` holds.
pub open spec fn finv(a: int, p: int) -> int {
    choose|b: int| 0 <= b < p && fmul(a, b, p) == 1
}

pub proof fn lemma_fadd_bounds(a: int, b: int, p: int)
    requires
        p >= 2,
    ensures
        0 <= fadd(a, b, p) < p,
        0 <= fsub(a, b, p) < p,
        0 <= fmul(a, b, p) < p,
{
    lemma_mod_bound(a + b, p);
    lemma_mod_bound(a - b, p);
    lemma_mod_bound(a * b, p);
}

/// A residue already in range is fixed by a further reduction.
pub proof fn lemma_small_residue(a: int, p: int)
    requires
        p >= 2,
        0 <= a < p,
    ensures
        a % p == a,
{
    lemma_small_mod(a as nat, p as nat);
}

/// Multiplying two reduced products is the same as reducing the full product.
pub proof fn lemma_fmul_assoc(a: int, b: int, c: int, p: int)
    requires
        p >= 2,
    ensures
        fmul(fmul(a, b, p), c, p) == (a * b * c) % p,
        fmul(a, fmul(b, c, p), p) == (a * b * c) % p,
        fmul(fmul(a, b, p), c, p) == fmul(a, fmul(b, c, p), p),
{
    lemma_mul_mod_noop_general(a * b, c, p);
    lemma_mul_mod_noop_general(a, b * c, p);
    lemma_mul_is_associative(a, b, c);
}

pub proof fn lemma_fmul_comm(a: int, b: int, p: int)
    requires
        p >= 2,
    ensures
        fmul(a, b, p) == fmul(b, a, p),
{
}

/// One is the multiplicative identity on reduced residues.
pub proof fn lemma_fmul_one(a: int, p: int)
    requires
        p >= 2,
        0 <= a < p,
    ensures
        fmul(1, a, p) == a,
        fmul(a, 1, p) == a,
{
    lemma_small_residue(a, p);
}

/// Zero annihilates under multiplication.
pub proof fn lemma_fmul_zero(a: int, p: int)
    requires
        p >= 2,
    ensures
        fmul(0, a, p) == 0,
        fmul(a, 0, p) == 0,
        fadd(0, a, p) == a % p,
        fadd(a, 0, p) == a % p,
{
    lemma_mod_bound(0, p);
    lemma_small_mod(0nat, p as nat);
}

/// Multiplication distributes over addition mod `p`.
pub proof fn lemma_fmul_distrib(a: int, b: int, c: int, p: int)
    requires
        p >= 2,
    ensures
        fmul(a, fadd(b, c, p), p) == fadd(fmul(a, b, p), fmul(a, c, p), p),
{
    lemma_mul_mod_noop_general(a, b + c, p);
    lemma_mul_is_distributive_add(a, b, c);
    lemma_add_mod_noop(a * b, a * c, p);
}

/// The difference of two distinct reduced residues is a non-zero residue.
pub proof fn lemma_fsub_nonzero(a: int, b: int, p: int)
    requires
        p >= 2,
        0 <= a < p,
        0 <= b < p,
        a != b,
    ensures
        0 < fsub(a, b, p) < p,
{
    if a > b {
        lemma_small_mod((a - b) as nat, p as nat);
    } else {
        lemma_mod_add_multiples_vanish(a - b, p);
        lemma_small_mod((a - b + p) as nat, p as nat);
    }
}

/// An invertible residue is non-zero.
pub proof fn lemma_invertible_nonzero(a: int, p: int)
    requires
        p >= 2,
        invertible(a, p),
    ensures
        a % p != 0,
{
    let b = choose|b: int| 0 <= b < p && fmul(a, b, p) == 1;
    if a % p == 0 {
        lemma_mul_mod_noop_general(a, b, p);
        assert(fmul(a, b, p) == ((a % p) * b) % p);
        lemma_fmul_zero(b, p);
    }
}

/// The inverse of an invertible residue is unique, and is `finv`.
pub proof fn lemma_finv_unique(a: int, b: int, p: int)
    requires
        p >= 2,
        0 <= b < p,
        fmul(a, b, p) == 1,
    ensures
        invertible(a, p),
        finv(a, p) == b,
        fmul(a, finv(a, p), p) == 1,
        0 <= finv(a, p) < p,
{
    assert(invertible(a, p));
    let c = finv(a, p);
    assert(0 <= c < p && fmul(a, c, p) == 1);
    // b == b * (a * c) == (b * a) * c == 1 * c == c
    lemma_fmul_one(b, p);
    lemma_fmul_assoc(b, a, c, p);
    assert(fmul(b, fmul(a, c, p), p) == fmul(fmul(b, a, p), c, p));
    assert(fmul(b, a, p) == fmul(a, b, p));
    lemma_fmul_one(c, p);
}

/// The product of two invertible residues is invertible and non-zero.
pub proof fn lemma_fmul_invertible(a: int, b: int, p: int)
    requires
        p >= 2,
        invertible(a, p),
        invertible(b, p),
    ensures
        invertible(fmul(a, b, p), p),
        fmul(a, b, p) != 0,
{
    let ai = choose|x: int| 0 <= x < p && fmul(a, x, p) == 1;
    let bi = choose|x: int| 0 <= x < p && fmul(b, x, p) == 1;
    let w = fmul(ai, bi, p);
    lemma_fadd_bounds(ai, bi, p);
    // (ab)(ai bi) == (a ai)(b bi) == 1
    lemma_fmul_assoc(fmul(a, b, p), ai, bi, p);
    assert(fmul(fmul(a, b, p), w, p) == (fmul(a, b, p) * ai * bi) % p) by {
        lemma_fmul_assoc(fmul(a, b, p), ai, bi, p);
    }
    assert((fmul(a, b, p) * ai * bi) % p == ((a * b) * ai * bi) % p) by {
        lemma_mul_mod_noop_general(a * b, ai * bi, p);
        lemma_mul_is_associative(a * b, ai, bi);
        lemma_mul_mod_noop_general((a * b) % p, ai * bi, p);
        lemma_mul_is_associative((a * b) % p, ai, bi);
    }
    assert((a * b) * ai * bi == (a * ai) * (b * bi)) by (nonlinear_arith);
    assert(((a * ai) * (b * bi)) % p == 1) by {
        lemma_mul_mod_noop_general(a * ai, b * bi, p);
        assert((fmul(a, ai, p) * fmul(b, bi, p)) % p == ((a * ai) * (b * bi)) % p);
        lemma_small_residue(1, p);
    }
    assert(fmul(fmul(a, b, p), w, p) == 1);
    assert(invertible(fmul(a, b, p), p));
    lemma_invertible_nonzero(fmul(a, b, p), p);
    lemma_fadd_bounds(a, b, p);
    lemma_small_residue(fmul(a, b, p), p);
}

} // verus!
