//! Batched multiplicative inversion by Montgomery's trick: one field
//! inversion plus a linear number of multiplications invert a whole
//! sequence of non-zero elements.

use vstd::prelude::*;
use crate::modular::{
    finv, fmul, invertible, lemma_finv_unique, lemma_fmul_assoc, lemma_fmul_invertible,
    lemma_fmul_one, lemma_small_residue,
};
use crate::lagrange::vals_of;
use crate::field::FieldElem;

verus! {

/// The product of the first `k` values, mod `p`.
pub open spec fn prefix_prod(vals: Seq<int>, k: int, p: int) -> int
    decreases k,
{
    if k <= 0 {
        1
    } else {
        fmul(prefix_prod(vals, k - 1, p), vals[k - 1], p)
    }
}

/// A product of invertible residues is an invertible residue.
pub proof fn lemma_prefix_prod_invertible<T: FieldElem>(vals: Seq<int>, k: int)
    requires
        0 <= k <= vals.len(),
        forall|i: int| 0 <= i < vals.len() ==> 0 < #[trigger] vals[i] < T::modulus(),
    ensures
        invertible(prefix_prod(vals, k, T::modulus()), T::modulus()),
        0 <= prefix_prod(vals, k, T::modulus()) < T::modulus(),
    decreases k,
{
    let p = T::modulus();
    T::modulus_at_least_two();
    if k <= 0 {
        lemma_small_residue(1, p);
        assert(fmul(1, 1, p) == 1);
    } else {
        lemma_prefix_prod_invertible::<T>(vals, k - 1);
        T::nonzero_invertible(vals[k - 1]);
        lemma_fmul_invertible(prefix_prod(vals, k - 1, p), vals[k - 1], p);
        lemma_small_residue(prefix_prod(vals, k, p), p);
    }
}

/// Inverts every element of a sequence of non-zero field elements,
/// spending a single field inversion: the inverse of the total running
/// product is peeled back into per-element inverses.
pub fn batch_multiplicative_inverse<T: FieldElem>(values: &Vec<T>) -> (out: Vec<T>)
    requires
        forall|i: int| 0 <= i < values.len() ==> 0 < #[trigger] values[i].val() < T::modulus(),
    ensures
        out.len() == values.len(),
        forall|i: int|
            0 <= i < values.len() ==> {
                &&& 0 <= #[trigger] out[i].val() < T::modulus()
                &&& fmul(values[i].val(), out[i].val(), T::modulus()) == 1
                &&& out[i].val() == finv(values[i].val(), T::modulus())
            },
{
    let ghost p = T::modulus();
    let ghost vals = vals_of(values@);
    proof {
        T::modulus_at_least_two();
    }
    let n = values.len();

    // Forward pass: prefixes[i] holds the product of values[..i].
    let mut prefixes: Vec<T> = Vec::new();
    let mut acc = T::from_usize(1);
    proof {
        lemma_small_residue(1, p);
    }
    let mut i: usize = 0;
    while i < n
        invariant
            n == values.len(),
            forall|k: int| 0 <= k < n ==> 0 < #[trigger] values[k].val() < T::modulus(),
            vals == vals_of(values@),
            p == T::modulus(),
            p >= 2,
            i <= n,
            prefixes.len() == i,
            0 <= acc.val() < p,
            acc.val() == prefix_prod(vals, i as int, p),
            forall|k: int|
                0 <= k < i ==> #[trigger] prefixes[k].val() == prefix_prod(vals, k, p) && 0
                    <= prefixes[k].val() < p,
        decreases n - i,
    {
        prefixes.push(acc);
        acc = acc.mul_elem(values[i]);
        i = i + 1;
    }

    // The one inversion, of the total product.
    proof {
        lemma_prefix_prod_invertible::<T>(vals, n as int);
    }
    let mut inv = acc.inverse();

    // Backward pass, peeling one inverse per step.
    let mut rev_out: Vec<T> = Vec::new();
    let mut t: usize = 0;
    while t < n
        invariant
            n == values.len(),
            forall|k: int| 0 <= k < n ==> 0 < #[trigger] values[k].val() < T::modulus(),
            vals == vals_of(values@),
            p == T::modulus(),
            p >= 2,
            t <= n,
            prefixes.len() == n,
            forall|k: int|
                0 <= k < n ==> #[trigger] prefixes[k].val() == prefix_prod(vals, k, p) && 0
                    <= prefixes[k].val() < p,
            0 <= inv.val() < p,
            fmul(prefix_prod(vals, n - t, p), inv.val(), p) == 1,
            rev_out.len() == t,
            forall|j: int|
                0 <= j < t ==> {
                    &&& 0 <= #[trigger] rev_out[j].val() < p
                    &&& fmul(values[n - 1 - j].val(), rev_out[j].val(), p) == 1
                },
        decreases n - t,
    {
        let i = n - 1 - t;
        let r = inv.mul_elem(prefixes[i]);
        proof {
            let pp_i = prefix_prod(vals, i as int, p);
            let pp_i1 = prefix_prod(vals, i as int + 1, p);
            let v_i = vals[i as int];
            assert(v_i == values[i as int].val());
            assert(pp_i1 == fmul(pp_i, v_i, p));
            assert(n - t == i + 1);
            // (inv * pp_i) * v_i == inv * (pp_i * v_i) == inv * pp_{i+1} == 1
            lemma_fmul_assoc(inv.val(), pp_i, v_i, p);
            assert(fmul(fmul(inv.val(), pp_i, p), v_i, p) == fmul(inv.val(), pp_i1, p));
            assert(inv.val() * pp_i1 == pp_i1 * inv.val());
            assert(fmul(inv.val(), pp_i1, p) == fmul(pp_i1, inv.val(), p));
            assert(fmul(r.val(), v_i, p) == 1);
            assert(r.val() * v_i == v_i * r.val());
            assert(fmul(values[i as int].val(), r.val(), p) == 1);
        }
        rev_out.push(r);
        let ghost old_inv = inv.val();
        inv = inv.mul_elem(values[i]);
        proof {
            let pp_i = prefix_prod(vals, i as int, p);
            let pp_i1 = prefix_prod(vals, i as int + 1, p);
            let v_i = vals[i as int];
            // pp_i * (old_inv * v_i) == (pp_i * v_i) * old_inv == pp_{i+1} * old_inv == 1
            lemma_fmul_assoc(pp_i, old_inv, v_i, p);
            lemma_fmul_assoc(pp_i, v_i, old_inv, p);
            assert(pp_i * old_inv * v_i == pp_i * v_i * old_inv) by (nonlinear_arith);
            assert(fmul(pp_i, inv.val(), p) == fmul(pp_i1, old_inv, p));
        }
        t = t + 1;
    }

    // Restore the original order.
    let mut out: Vec<T> = Vec::new();
    let mut j: usize = 0;
    while j < n
        invariant
            n == values.len(),
            rev_out.len() == n,
            vals == vals_of(values@),
            p == T::modulus(),
            p >= 2,
            forall|k: int| 0 <= k < n ==> 0 < #[trigger] values[k].val() < T::modulus(),
            forall|k: int|
                0 <= k < n ==> {
                    &&& 0 <= #[trigger] rev_out[k].val() < p
                    &&& fmul(values[n - 1 - k].val(), rev_out[k].val(), p) == 1
                },
            j <= n,
            out.len() == j,
            forall|k: int|
                0 <= k < j ==> {
                    &&& 0 <= #[trigger] out[k].val() < p
                    &&& fmul(values[k].val(), out[k].val(), p) == 1
                    &&& out[k].val() == finv(values[k].val(), p)
                },
        decreases n - j,
    {
        let r = rev_out[n - 1 - j];
        proof {
            lemma_finv_unique(values[j as int].val(), r.val(), p);
        }
        out.push(r);
        j = j + 1;
    }
    out
}

} // verus!
