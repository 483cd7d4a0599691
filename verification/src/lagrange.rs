//! The mathematical content of barycentric Lagrange interpolation: the
//! products and sums that define the interpolated value, and the lemmas
//! that tie the barycentric form computed by the evaluator to the plain
//! Lagrange form stated in the contracts.

use vstd::prelude::*;
use crate::modular::{
    fadd, finv, fmul, fsub, invertible, lemma_fadd_bounds, lemma_finv_unique, lemma_fmul_assoc,
    lemma_fmul_distrib, lemma_fmul_invertible, lemma_fmul_one, lemma_fmul_zero,
    lemma_fsub_nonzero, lemma_small_residue,
};
use crate::field::FieldElem;

verus! {

/// The sequence of mathematical values behind a sequence of elements.
pub open spec fn vals_of<T: FieldElem>(s: Seq<T>) -> Seq<int> {
    s.map_values(|e: T| e.val())
}

/// Every entry of `s` is a reduced residue mod `p`.
pub open spec fn all_reduced(s: Seq<int>, p: int) -> bool {
    forall|i: int| 0 <= i < s.len() ==> 0 <= #[trigger] s[i] < p
}

/// No two entries of `s` are equal: the domain is well-posed.
pub open spec fn pairwise_distinct(s: Seq<int>) -> bool {
    forall|i: int, j: int|
        0 <= i < s.len() && 0 <= j < s.len() && i != j ==> #[trigger] s[i] != #[trigger] s[j]
}

/// The product over every index `k != skip` of `(x - pts[k])`, mod `p`.
/// With `skip` out of range it is the full product `L(x)`.
pub open spec fn skip_prod(pts: Seq<int>, skip: int, x: int, p: int) -> int
    decreases pts.len(),
{
    if pts.len() == 0 {
        1
    } else {
        let k = pts.len() - 1;
        let rest = skip_prod(pts.drop_last(), skip, x, p);
        if k == skip {
            rest
        } else {
            fmul(rest, fsub(x, pts[k], p), p)
        }
    }
}

/// The barycentric denominator at index `i`: the product over `j != i`
/// of `(pts[i] - pts[j])`, mod `p`.
pub open spec fn diff_prod(pts: Seq<int>, i: int, p: int) -> int {
    skip_prod(pts, i, pts[i], p)
}

/// `ws` holds proper barycentric weights for `pts`: reduced residues,
/// one per point, each the inverse of its denominator product.
pub open spec fn is_weights(ws: Seq<int>, pts: Seq<int>, p: int) -> bool {
    &&& ws.len() == pts.len()
    &&& forall|i: int|
        0 <= i < pts.len() ==> 0 <= #[trigger] ws[i] < p && fmul(ws[i], diff_prod(pts, i, p), p)
            == 1
}

/// The canonical barycentric weights of a domain.
pub open spec fn bary_weights(pts: Seq<int>, p: int) -> Seq<int> {
    Seq::new(pts.len(), |i: int| finv(diff_prod(pts, i, p), p))
}

/// One term of the Lagrange form: `ws[i] * prod_{j != i}(x - pts[j]) * ys[i]`.
pub open spec fn lagrange_term(
    pts: Seq<int>,
    ys: Seq<int>,
    ws: Seq<int>,
    x: int,
    p: int,
    i: int,
) -> int {
    fmul(fmul(ws[i], skip_prod(pts, i, x, p), p), ys[i], p)
}

/// The sum of the first `k` Lagrange terms.
pub open spec fn lagrange_partial(
    pts: Seq<int>,
    ys: Seq<int>,
    ws: Seq<int>,
    x: int,
    p: int,
    k: int,
) -> int
    decreases k,
{
    if k <= 0 {
        0
    } else {
        fadd(
            lagrange_partial(pts, ys, ws, x, p, k - 1),
            lagrange_term(pts, ys, ws, x, p, k - 1),
            p,
        )
    }
}

/// The value at `x` of the polynomial interpolating `(pts[i], ys[i])`,
/// written in Lagrange form with the given barycentric weights.
pub open spec fn lagrange_eval(pts: Seq<int>, ys: Seq<int>, ws: Seq<int>, x: int, p: int) -> int {
    lagrange_partial(pts, ys, ws, x, p, pts.len() as int)
}

/// One term of the barycentric form actually computed away from the
/// domain: `ws[i] / (x - pts[i]) * ys[i]`.
pub open spec fn inner_term(pts: Seq<int>, ys: Seq<int>, ws: Seq<int>, x: int, p: int, i: int) -> int {
    fmul(fmul(ws[i], finv(fsub(x, pts[i], p), p), p), ys[i], p)
}

/// The sum of the first `k` barycentric terms.
pub open spec fn inner_partial(
    pts: Seq<int>,
    ys: Seq<int>,
    ws: Seq<int>,
    x: int,
    p: int,
    k: int,
) -> int
    decreases k,
{
    if k <= 0 {
        0
    } else {
        fadd(inner_partial(pts, ys, ws, x, p, k - 1), inner_term(pts, ys, ws, x, p, k - 1), p)
    }
}

/// Every partial product is a reduced residue.
pub proof fn lemma_skip_prod_bounds(pts: Seq<int>, skip: int, x: int, p: int)
    requires
        p >= 2,
    ensures
        0 <= skip_prod(pts, skip, x, p) < p,
    decreases pts.len(),
{
    if pts.len() == 0 {
    } else {
        let k = pts.len() - 1;
        lemma_skip_prod_bounds(pts.drop_last(), skip, x, p);
        if k != skip {
            lemma_fadd_bounds(skip_prod(pts.drop_last(), skip, x, p), fsub(x, pts[k], p), p);
        }
    }
}

/// The skipped index only matters when it is in range.
pub proof fn lemma_skip_prod_out_of_range(pts: Seq<int>, skip: int, x: int, p: int)
    requires
        skip < 0 || skip >= pts.len(),
    ensures
        skip_prod(pts, skip, x, p) == skip_prod(pts, -1, x, p),
    decreases pts.len(),
{
    if pts.len() > 0 {
        lemma_skip_prod_out_of_range(pts.drop_last(), skip, x, p);
    }
}

/// Splitting the full product at index `i`: `L(x)` is the skipped
/// product times the skipped factor.
pub proof fn lemma_skip_prod_split(pts: Seq<int>, i: int, x: int, p: int)
    requires
        p >= 2,
        0 <= i < pts.len(),
    ensures
        skip_prod(pts, -1, x, p) == fmul(skip_prod(pts, i, x, p), fsub(x, pts[i], p), p),
    decreases pts.len(),
{
    let k = pts.len() - 1;
    let rest_full = skip_prod(pts.drop_last(), -1, x, p);
    let d_k = fsub(x, pts[k], p);
    if i == k {
        lemma_skip_prod_out_of_range(pts.drop_last(), i, x, p);
    } else {
        lemma_skip_prod_split(pts.drop_last(), i, x, p);
        let s_rest = skip_prod(pts.drop_last(), i, x, p);
        let d_i = fsub(x, pts[i], p);
        assert(pts.drop_last()[i] == pts[i]);
        lemma_fmul_assoc(s_rest, d_i, d_k, p);
        lemma_fmul_assoc(s_rest, d_k, d_i, p);
        assert(s_rest * d_i * d_k == s_rest * d_k * d_i) by (nonlinear_arith);
    }
}

/// A factor of zero annihilates the whole product.
pub proof fn lemma_skip_prod_zero(pts: Seq<int>, skip: int, x: int, p: int, m: int)
    requires
        p >= 2,
        0 <= m < pts.len(),
        m != skip,
        fsub(x, pts[m], p) == 0,
    ensures
        skip_prod(pts, skip, x, p) == 0,
    decreases pts.len(),
{
    let k = pts.len() - 1;
    if m == k {
        lemma_fmul_zero(skip_prod(pts.drop_last(), skip, x, p), p);
    } else {
        assert(pts.drop_last()[m] == pts[m]);
        lemma_skip_prod_zero(pts.drop_last(), skip, x, p, m);
        if k != skip {
            lemma_fmul_zero(fsub(x, pts[k], p), p);
        }
    }
}

/// When every kept factor is non-zero, the product is invertible, hence
/// non-zero: no weight or numerator ever degenerates.
pub proof fn lemma_skip_prod_invertible<T: FieldElem>(pts: Seq<int>, skip: int, x: int)
    requires
        all_reduced(pts, T::modulus()),
        0 <= x < T::modulus(),
        forall|m: int| 0 <= m < pts.len() && m != skip ==> #[trigger] pts[m] != x,
    ensures
        invertible(skip_prod(pts, skip, x, T::modulus()), T::modulus()),
        skip_prod(pts, skip, x, T::modulus()) != 0,
        0 <= skip_prod(pts, skip, x, T::modulus()) < T::modulus(),
    decreases pts.len(),
{
    let p = T::modulus();
    T::modulus_at_least_two();
    lemma_skip_prod_bounds(pts, skip, x, p);
    if pts.len() == 0 {
        lemma_small_residue(1, p);
        assert(fmul(1, 1, p) == 1);
    } else {
        let k = pts.len() - 1;
        assert(forall|m: int|
            0 <= m < pts.drop_last().len() && m != skip ==> #[trigger] pts.drop_last()[m] != x);
        lemma_skip_prod_invertible::<T>(pts.drop_last(), skip, x);
        if k != skip {
            let d_k = fsub(x, pts[k], p);
            lemma_fsub_nonzero(x, pts[k], p);
            T::nonzero_invertible(d_k);
            lemma_fmul_invertible(skip_prod(pts.drop_last(), skip, x, p), d_k, p);
        }
    }
}

/// The canonical weights of a distinct domain are proper weights.
pub proof fn lemma_bary_weights_proper<T: FieldElem>(pts: Seq<int>)
    requires
        all_reduced(pts, T::modulus()),
        pairwise_distinct(pts),
    ensures
        is_weights(bary_weights(pts, T::modulus()), pts, T::modulus()),
{
    let p = T::modulus();
    T::modulus_at_least_two();
    let ws = bary_weights(pts, p);
    assert forall|i: int| 0 <= i < pts.len() implies 0 <= #[trigger] ws[i] < p && fmul(
        ws[i],
        diff_prod(pts, i, p),
        p,
    ) == 1 by {
        lemma_skip_prod_invertible::<T>(pts, i, pts[i]);
        let d = diff_prod(pts, i, p);
        let b = choose|b: int| 0 <= b < p && fmul(d, b, p) == 1;
        assert(fmul(d, b, p) == 1);
        lemma_finv_unique(d, b, p);
        assert(ws[i] == finv(d, p));
        assert(fmul(d, finv(d, p), p) == 1);
        assert(fmul(finv(d, p), d, p) == 1);
    }
}

/// Evaluating the Lagrange form at the `i`-th domain point yields the
/// `i`-th value exactly: every other term carries a zero factor, and
/// the weight of the matching term cancels its denominator.
pub proof fn lemma_partial_at_domain_point(
    pts: Seq<int>,
    ys: Seq<int>,
    ws: Seq<int>,
    p: int,
    i: int,
    k: int,
)
    requires
        p >= 2,
        ys.len() == pts.len(),
        all_reduced(ys, p),
        is_weights(ws, pts, p),
        0 <= i < pts.len(),
        0 <= k <= pts.len(),
        fsub(pts[i], pts[i], p) == 0,
    ensures
        lagrange_partial(pts, ys, ws, pts[i], p, k) == if i < k {
            ys[i]
        } else {
            0
        },
    decreases k,
{
    if k > 0 {
        lemma_partial_at_domain_point(pts, ys, ws, p, i, k - 1);
        let j = k - 1;
        let prev = lagrange_partial(pts, ys, ws, pts[i], p, j);
        if j == i {
            assert(fmul(ws[i], skip_prod(pts, i, pts[i], p), p) == 1);
            lemma_fmul_one(ys[i], p);
            assert(lagrange_term(pts, ys, ws, pts[i], p, i) == ys[i]);
            lemma_fmul_zero(ys[i], p);
            lemma_small_residue(ys[i], p);
        } else {
            lemma_skip_prod_zero(pts, j, pts[i], p, i);
            lemma_fmul_zero(ws[j], p);
            lemma_fmul_zero(ys[j], p);
            assert(lagrange_term(pts, ys, ws, pts[i], p, j) == 0);
            if i < j {
                lemma_fmul_zero(prev, p);
                lemma_small_residue(ys[i], p);
            } else {
                lemma_fmul_zero(prev, p);
                lemma_small_residue(0, p);
            }
        }
    }
}

/// Exact reproduction: the Lagrange form at a domain point is the value
/// given there.
pub proof fn lemma_eval_at_domain_point(pts: Seq<int>, ys: Seq<int>, ws: Seq<int>, p: int, i: int)
    requires
        p >= 2,
        ys.len() == pts.len(),
        all_reduced(ys, p),
        is_weights(ws, pts, p),
        0 <= i < pts.len(),
    ensures
        lagrange_eval(pts, ys, ws, pts[i], p) == ys[i],
{
    assert(fsub(pts[i], pts[i], p) == 0) by {
        lemma_small_residue(0, p);
    }
    lemma_partial_at_domain_point(pts, ys, ws, p, i, pts.len() as int);
}

/// Scaling the barycentric sum by the full numerator `L(x)` gives the
/// Lagrange form: term by term, `L(x) / (x - pts[i])` is the skipped
/// product.
pub proof fn lemma_scale_inner(
    pts: Seq<int>,
    ys: Seq<int>,
    ws: Seq<int>,
    x: int,
    p: int,
    k: int,
)
    requires
        p >= 2,
        0 <= k <= pts.len(),
        forall|m: int|
            0 <= m < pts.len() ==> invertible(#[trigger] fsub(x, pts[m], p), p),
    ensures
        fmul(skip_prod(pts, -1, x, p), inner_partial(pts, ys, ws, x, p, k), p)
            == lagrange_partial(pts, ys, ws, x, p, k),
    decreases k,
{
    let lx = skip_prod(pts, -1, x, p);
    if k == 0 {
        lemma_fmul_zero(lx, p);
    } else {
        lemma_scale_inner(pts, ys, ws, x, p, k - 1);
        let i = k - 1;
        let s = inner_partial(pts, ys, ws, x, p, i);
        let t = inner_term(pts, ys, ws, x, p, i);
        lemma_fmul_distrib(lx, s, t, p);
        // The skipped product, recovered by cancelling the denominator.
        let d = fsub(x, pts[i], p);
        let fi = finv(d, p);
        let sk = skip_prod(pts, i, x, p);
        assert(fmul(lx, fi, p) == sk) by {
            lemma_skip_prod_split(pts, i, x, p);
            lemma_fmul_assoc(sk, d, fi, p);
            let b = choose|b: int| 0 <= b < p && fmul(d, b, p) == 1;
            lemma_finv_unique(d, b, p);
            assert(fmul(d, fi, p) == 1);
            lemma_skip_prod_bounds(pts, i, x, p);
            lemma_fmul_one(sk, p);
        }
        // lx * ((w * fi) * y) == ((w * (lx * fi)) * y) == ((w * sk) * y)
        let w_i = ws[i];
        let y_i = ys[i];
        assert(fmul(lx, t, p) == lagrange_term(pts, ys, ws, x, p, i)) by {
            let c = fmul(w_i, fi, p);
            lemma_fmul_assoc(lx, c, y_i, p);
            assert(fmul(lx, fmul(c, y_i, p), p) == fmul(fmul(lx, c, p), y_i, p));
            lemma_fmul_assoc(lx, w_i, fi, p);
            lemma_fmul_assoc(w_i, lx, fi, p);
            assert(lx * w_i * fi == w_i * lx * fi) by (nonlinear_arith);
            assert(fmul(lx, c, p) == fmul(w_i, fmul(lx, fi, p), p));
        }
    }
}

} // verus!
