//! Barycentric weight computation and the Lagrange barycentric
//! evaluator: given a domain, its weights and a matrix of per-point
//! values, evaluate every polynomial of the batch at one query point.

use vstd::prelude::*;
use crate::modular::{
    fadd, fmul, fsub, invertible, lemma_finv_unique, lemma_fmul_comm, lemma_fmul_zero,
    lemma_fsub_nonzero,
};
use crate::lagrange::{
    bary_weights, diff_prod, inner_partial, inner_term, is_weights, lagrange_eval,
    lemma_eval_at_domain_point, lemma_scale_inner, lemma_skip_prod_invertible, pairwise_distinct,
    skip_prod, vals_of,
};
use crate::batch_inverse::batch_multiplicative_inverse;
use crate::field::FieldElem;
use crate::matrix::RowMajorMat;

verus! {

/// Multiplies every entry of a vector by one scalar.
pub fn scale_vec<T: FieldElem>(s: T, vec: &Vec<T>) -> (out: Vec<T>)
    requires
        0 <= s.val() < T::modulus(),
        forall|i: int| 0 <= i < vec.len() ==> 0 <= #[trigger] vec[i].val() < T::modulus(),
    ensures
        out.len() == vec.len(),
        forall|i: int|
            0 <= i < vec.len() ==> #[trigger] out[i].val() == fmul(
                s.val(),
                vec[i].val(),
                T::modulus(),
            ) && 0 <= out[i].val() < T::modulus(),
{
    let mut out: Vec<T> = Vec::new();
    let mut i: usize = 0;
    while i < vec.len()
        invariant
            0 <= s.val() < T::modulus(),
            forall|k: int| 0 <= k < vec.len() ==> 0 <= #[trigger] vec[k].val() < T::modulus(),
            i <= vec.len(),
            out.len() == i,
            forall|k: int|
                0 <= k < i ==> #[trigger] out[k].val() == fmul(s.val(), vec[k].val(), T::modulus())
                    && 0 <= out[k].val() < T::modulus(),
        decreases vec.len() - i,
    {
        out.push(s.mul_elem(vec[i]));
        i = i + 1;
    }
    out
}

/// Adds two vectors of one length entry by entry.
pub fn sum_vecs<T: FieldElem>(a: &Vec<T>, b: &Vec<T>) -> (out: Vec<T>)
    requires
        a.len() == b.len(),
        forall|i: int| 0 <= i < a.len() ==> 0 <= #[trigger] a[i].val() < T::modulus(),
        forall|i: int| 0 <= i < b.len() ==> 0 <= #[trigger] b[i].val() < T::modulus(),
    ensures
        out.len() == a.len(),
        forall|i: int|
            0 <= i < a.len() ==> #[trigger] out[i].val() == fadd(
                a[i].val(),
                b[i].val(),
                T::modulus(),
            ) && 0 <= out[i].val() < T::modulus(),
{
    let mut out: Vec<T> = Vec::new();
    let mut i: usize = 0;
    while i < a.len()
        invariant
            a.len() == b.len(),
            forall|k: int| 0 <= k < a.len() ==> 0 <= #[trigger] a[k].val() < T::modulus(),
            forall|k: int| 0 <= k < b.len() ==> 0 <= #[trigger] b[k].val() < T::modulus(),
            i <= a.len(),
            out.len() == i,
            forall|k: int|
                0 <= k < i ==> #[trigger] out[k].val() == fadd(a[k].val(), b[k].val(), T::modulus())
                    && 0 <= out[k].val() < T::modulus(),
        decreases a.len() - i,
    {
        out.push(a[i].add_elem(b[i]));
        i = i + 1;
    }
    out
}

/// Computes the barycentric weights of a domain of pairwise-distinct
/// points: the inverse, for each index `i`, of the product over `j != i`
/// of `(points[i] - points[j])`.  Every weight is non-zero.
pub fn barycentric_weights<T: FieldElem>(points: &Vec<T>) -> (out: Vec<T>)
    requires
        forall|i: int| 0 <= i < points.len() ==> 0 <= #[trigger] points[i].val() < T::modulus(),
        pairwise_distinct(vals_of(points@)),
    ensures
        out.len() == points.len(),
        is_weights(vals_of(out@), vals_of(points@), T::modulus()),
        vals_of(out@) == bary_weights(vals_of(points@), T::modulus()),
        forall|i: int| 0 <= i < out.len() ==> #[trigger] out[i].val() != 0,
{
    let ghost p = T::modulus();
    let ghost pts = vals_of(points@);
    proof {
        T::modulus_at_least_two();
    }
    let n = points.len();
    let mut diffs: Vec<T> = Vec::new();
    let mut i: usize = 0;
    while i < n
        invariant
            n == points.len(),
            forall|k: int| 0 <= k < n ==> 0 <= #[trigger] points[k].val() < T::modulus(),
            pairwise_distinct(pts),
            pts == vals_of(points@),
            p == T::modulus(),
            p >= 2,
            i <= n,
            diffs.len() == i,
            forall|m: int|
                0 <= m < i ==> #[trigger] diffs[m].val() == diff_prod(pts, m, p) && 0 < diffs[m].val()
                    < p,
        decreases n - i,
    {
        let mut acc = T::from_usize(1);
        proof {
            vstd::arithmetic::div_mod::lemma_small_mod(1nat, p as nat);
            assert(pts.take(0) =~= Seq::<int>::empty());
        }
        let mut j: usize = 0;
        while j < n
            invariant
                n == points.len(),
                forall|k: int| 0 <= k < n ==> 0 <= #[trigger] points[k].val() < T::modulus(),
                pts == vals_of(points@),
                p == T::modulus(),
                p >= 2,
                i < n,
                j <= n,
                0 <= acc.val() < p,
                acc.val() == skip_prod(pts.take(j as int), i as int, points[i as int].val(), p),
            decreases n - j,
        {
            proof {
                assert(pts.take(j as int + 1).drop_last() =~= pts.take(j as int));
                assert(pts.take(j as int + 1)[j as int] == pts[j as int]);
            }
            if j != i {
                acc = acc.mul_elem(points[i].sub_elem(points[j]));
            }
            j = j + 1;
        }
        proof {
            assert(pts.take(n as int) =~= pts);
            lemma_skip_prod_invertible::<T>(pts, i as int, pts[i as int]);
        }
        diffs.push(acc);
        i = i + 1;
    }
    let out = batch_multiplicative_inverse(&diffs);
    proof {
        let ws = vals_of(out@);
        assert forall|k: int| 0 <= k < n implies 0 <= #[trigger] ws[k] < p && fmul(
            ws[k],
            diff_prod(pts, k, p),
            p,
        ) == 1 && ws[k] != 0 by {
            let d = diff_prod(pts, k, p);
            assert(ws[k] == out[k].val());
            assert(fmul(d, ws[k], p) == 1);
            lemma_fmul_comm(d, ws[k], p);
            if ws[k] == 0 {
                lemma_fmul_zero(d, p);
            }
        }
        assert(vals_of(out@) =~= bary_weights(pts, p));
    }
    out
}

/// Evaluates every polynomial of the batch at the query point `x`, in
/// barycentric Lagrange form.  The result is exactly the Lagrange-form
/// value at `x` of the polynomials interpolating the rows of `values`
/// over `points` — in particular, at a domain point it reproduces that
/// row exactly.
pub fn interpolate<T: FieldElem>(
    points: &Vec<T>,
    values: &RowMajorMat<T>,
    x: T,
    weights: &Vec<T>,
) -> (out: Vec<T>)
    requires
        values.wf(),
        points.len() == values.spec_height(),
        weights.len() == points.len(),
        forall|i: int| 0 <= i < points.len() ==> 0 <= #[trigger] points[i].val() < T::modulus(),
        0 <= x.val() < T::modulus(),
        pairwise_distinct(vals_of(points@)),
        is_weights(vals_of(weights@), vals_of(points@), T::modulus()),
    ensures
        out.len() == values.width,
        forall|c: int|
            0 <= c < values.width ==> 0 <= #[trigger] out[c].val() < T::modulus() && out[c].val()
                == lagrange_eval(
                vals_of(points@),
                values.col(c),
                vals_of(weights@),
                x.val(),
                T::modulus(),
            ),
{
    let ghost p = T::modulus();
    let ghost pts = vals_of(points@);
    let ghost ws = vals_of(weights@);
    proof {
        T::modulus_at_least_two();
        assert forall|c: int, r: int|
            0 <= c < values.width && 0 <= r < values.spec_height() implies 0
            <= #[trigger] values.col(c)[r] < p by {
            values.lemma_index(r, c);
        }
    }
    let n = points.len();

    // At a domain point the general formula would divide by zero; the
    // row there already holds the answer, and reproduces it exactly.
    let mut i: usize = 0;
    while i < n
        invariant
            n == points.len(),
            n == values.spec_height(),
            values.wf(),
            weights.len() == n,
            pts == vals_of(points@),
            ws == vals_of(weights@),
            is_weights(ws, pts, p),
            p == T::modulus(),
            p >= 2,
            forall|k: int| 0 <= k < n ==> 0 <= #[trigger] points[k].val() < T::modulus(),
            0 <= x.val() < T::modulus(),
            i <= n,
            forall|k: int| 0 <= k < i ==> #[trigger] pts[k] != x.val(),
        decreases n - i,
    {
        if x.eq_elem(points[i]) {
            let row = values.row(i);
            proof {
                assert(pts[i as int] == points[i as int].val());
                assert forall|c: int| 0 <= c < values.width implies row[c].val() == lagrange_eval(
                    pts,
                    values.col(c),
                    ws,
                    x.val(),
                    p,
                ) by {
                    assert forall|r: int| 0 <= r < values.spec_height() implies 0
                        <= #[trigger] values.col(c)[r] < p by {
                        values.lemma_index(r, c);
                    }
                    lemma_eval_at_domain_point(pts, values.col(c), ws, p, i as int);
                    assert(values.col(c)[i as int] == values.entry(i as int, c));
                }
                assert forall|c: int| 0 <= c < values.width implies 0 <= #[trigger] row[c].val()
                    < p by {
                    values.lemma_index(i as int, c);
                }
            }
            return row;
        }
        i = i + 1;
    }
    proof {
        assert forall|m: int| 0 <= m < n implies invertible(
            #[trigger] fsub(x.val(), pts[m], p),
            p,
        ) by {
            lemma_fsub_nonzero(x.val(), pts[m], p);
            T::nonzero_invertible(fsub(x.val(), pts[m], p));
        }
    }

    // The full numerator L(x).
    let mut l_x = T::from_usize(1);
    proof {
        vstd::arithmetic::div_mod::lemma_small_mod(1nat, p as nat);
        assert(pts.take(0) =~= Seq::<int>::empty());
    }
    let mut i: usize = 0;
    while i < n
        invariant
            n == points.len(),
            pts == vals_of(points@),
            forall|k: int| 0 <= k < n ==> 0 <= #[trigger] points[k].val() < T::modulus(),
            0 <= x.val() < T::modulus(),
            p == T::modulus(),
            p >= 2,
            i <= n,
            0 <= l_x.val() < p,
            l_x.val() == skip_prod(pts.take(i as int), -1, x.val(), p),
        decreases n - i,
    {
        proof {
            assert(pts.take(i as int + 1).drop_last() =~= pts.take(i as int));
            assert(pts.take(i as int + 1)[i as int] == pts[i as int]);
        }
        l_x = l_x.mul_elem(x.sub_elem(points[i]));
        i = i + 1;
    }
    proof {
        assert(pts.take(n as int) =~= pts);
    }

    // The barycentric sum, accumulated column-wise over the domain.
    let w = values.get_width();
    let mut sums: Vec<T> = Vec::new();
    let mut c: usize = 0;
    while c < w
        invariant
            w == values.width,
            p == T::modulus(),
            p >= 2,
            c <= w,
            sums.len() == c,
            forall|k: int| 0 <= k < c ==> #[trigger] sums[k].val() == 0,
        decreases w - c,
    {
        let z = T::from_usize(0);
        proof {
            vstd::arithmetic::div_mod::lemma_small_mod(0nat, p as nat);
        }
        sums.push(z);
        c = c + 1;
    }
    let mut i: usize = 0;
    while i < n
        invariant
            n == points.len(),
            n == values.spec_height(),
            values.wf(),
            weights.len() == n,
            pts == vals_of(points@),
            ws == vals_of(weights@),
            is_weights(ws, pts, p),
            forall|k: int| 0 <= k < n ==> 0 <= #[trigger] points[k].val() < T::modulus(),
            forall|k: int| 0 <= k < n ==> #[trigger] pts[k] != x.val(),
            forall|m: int| 0 <= m < n ==> invertible(#[trigger] fsub(x.val(), pts[m], p), p),
            0 <= x.val() < T::modulus(),
            p == T::modulus(),
            p >= 2,
            w == values.width,
            i <= n,
            sums.len() == w,
            forall|k: int|
                0 <= k < w ==> #[trigger] sums[k].val() == inner_partial(
                    pts,
                    values.col(k),
                    ws,
                    x.val(),
                    p,
                    i as int,
                ) && 0 <= sums[k].val() < p,
        decreases n - i,
    {
        proof {
            assert(pts[i as int] == points[i as int].val());
            assert(ws[i as int] == weights[i as int].val());
        }
        let d = x.sub_elem(points[i]);
        let dinv = d.inverse();
        proof {
            lemma_finv_unique(d.val(), dinv.val(), p);
        }
        let coef = weights[i].mul_elem(dinv);
        let row = values.row(i);
        proof {
            assert forall|k: int| 0 <= k < w implies 0 <= #[trigger] row[k].val() < p by {
                values.lemma_index(i as int, k);
            }
        }
        let scaled = scale_vec(coef, &row);
        let new_sums = sum_vecs(&sums, &scaled);
        proof {
            assert forall|k: int| 0 <= k < w implies #[trigger] new_sums[k].val()
                == inner_partial(pts, values.col(k), ws, x.val(), p, i as int + 1) by {
                assert(scaled[k].val() == inner_term(pts, values.col(k), ws, x.val(), p, i as int))
                    by {
                    assert(values.col(k)[i as int] == values.entry(i as int, k));
                    assert(row[k].val() == values.entry(i as int, k));
                }
            }
        }
        sums = new_sums;
        i = i + 1;
    }

    // Scale by L(x): term by term this cancels each denominator against
    // the matching factor of the numerator.
    let out = scale_vec(l_x, &sums);
    proof {
        assert forall|k: int| 0 <= k < w implies #[trigger] out[k].val() == lagrange_eval(
            pts,
            values.col(k),
            ws,
            x.val(),
            p,
        ) by {
            lemma_scale_inner(pts, values.col(k), ws, x.val(), p, n as int);
        }
    }
    out
}

} // verus!
