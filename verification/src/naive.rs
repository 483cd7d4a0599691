//! The three naive quadratic-time low-degree extenders: compute the
//! source domain and its barycentric weights once, then evaluate the
//! interpolated batch at every point of the larger target domain.

use vstd::prelude::*;
use vstd::arithmetic::power2::{
    lemma_pow2_adds, lemma_pow2_strictly_increases, pow2,
};
use vstd::arithmetic::div_mod::{
    lemma_div_multiples_vanish, lemma_mod_multiples_basic, lemma_small_mod,
};
use crate::field::{FieldElem, TwoAdicElem};
use crate::matrix::{RowMajorMat, VerticalPair};
use crate::domain::{
    canonical_domain, coset_pts, cyclic_subgroup_coset_known_order, cyclic_subgroup_known_order,
    idx_pts, lemma_pow2_exceeds, log2_strict_usize, subgroup_pts,
};
use crate::lagrange::{bary_weights, is_weights, lagrange_eval, pairwise_distinct, vals_of};
use crate::interpolate::{barycentric_weights, interpolate};
use crate::twoadic::lemma_subgroup_domain_ok;

verus! {

/// A naive quadratic-time extender over the canonical integer domain,
/// intended for testing faster implementations against.
pub struct NaiveUndefinedLde;

/// A naive quadratic-time extender onto the larger two-adic subgroup,
/// intended for testing faster implementations against.
pub struct NaiveSubgroupLde;

/// A naive quadratic-time extender onto a generator-shifted two-adic
/// coset, intended for testing faster implementations against.
pub struct NaiveCosetLde;

/// Powers of two of equal value have equal exponents.
pub proof fn lemma_pow2_injective(a: nat, b: nat)
    requires
        pow2(a) == pow2(b),
    ensures
        a == b,
{
    if a < b {
        lemma_pow2_strictly_increases(a, b);
    }
    if b < a {
        lemma_pow2_strictly_increases(b, a);
    }
}

proof fn lemma_flat_index(rr: int, cc: int, rows: int, w: int)
    requires
        0 <= rr < rows,
        0 <= cc < w,
    ensures
        0 <= rr * w + cc < rows * w,
        (rr + 1) * w == rr * w + w,
{
    assert(0 <= rr * w + cc < rows * w && (rr + 1) * w == rr * w + w) by (nonlinear_arith)
        requires
            0 <= rr < rows,
            0 <= cc < w,
    ;
}

/// The shared skeleton of every extender: evaluate the interpolated
/// batch at each target point in turn and assemble the rows, in target
/// order, into a fresh matrix.
pub fn evaluate_over<T: FieldElem>(
    points: &Vec<T>,
    polys: &RowMajorMat<T>,
    weights: &Vec<T>,
    targets: &Vec<T>,
) -> (out: RowMajorMat<T>)
    requires
        polys.wf(),
        points.len() == polys.spec_height(),
        weights.len() == points.len(),
        forall|i: int| 0 <= i < points.len() ==> 0 <= #[trigger] points[i].val() < T::modulus(),
        forall|i: int| 0 <= i < targets.len() ==> 0 <= #[trigger] targets[i].val() < T::modulus(),
        pairwise_distinct(vals_of(points@)),
        is_weights(vals_of(weights@), vals_of(points@), T::modulus()),
    ensures
        out.wf(),
        out.width == polys.width,
        out.spec_height() == targets.len(),
        forall|r: int, c: int|
            0 <= r < targets.len() && 0 <= c < polys.spec_width() ==> out.entry(r, c)
                == lagrange_eval(
                vals_of(points@),
                polys.col(c),
                vals_of(weights@),
                targets[r].val(),
                T::modulus(),
            ),
{
    let ghost p = T::modulus();
    let w = polys.get_width();
    let m = targets.len();
    let mut flat: Vec<T> = Vec::new();
    let mut r: usize = 0;
    while r < m
        invariant
            polys.wf(),
            points.len() == polys.spec_height(),
            weights.len() == points.len(),
            forall|i: int| 0 <= i < points.len() ==> 0 <= #[trigger] points[i].val() < T::modulus(),
            forall|i: int|
                0 <= i < targets.len() ==> 0 <= #[trigger] targets[i].val() < T::modulus(),
            pairwise_distinct(vals_of(points@)),
            is_weights(vals_of(weights@), vals_of(points@), T::modulus()),
            p == T::modulus(),
            w == polys.width,
            m == targets.len(),
            r <= m,
            flat.len() == r * w,
            forall|k: int|
                0 <= k < flat.len() ==> 0 <= #[trigger] flat[k].val() < T::modulus(),
            forall|rr: int, cc: int|
                0 <= rr < r && 0 <= cc < w ==> #[trigger] flat[rr * (w as int) + cc].val()
                    == lagrange_eval(
                    vals_of(points@),
                    polys.col(cc),
                    vals_of(weights@),
                    targets[rr].val(),
                    p,
                ),
        decreases m - r,
    {
        let row = interpolate(points, polys, targets[r], weights);
        let ghost flat_before = flat@;
        let mut c: usize = 0;
        while c < w
            invariant
                row.len() == w,
                forall|k: int|
                    0 <= k < w ==> 0 <= #[trigger] row[k].val() < T::modulus(),
                c <= w,
                flat@ == flat_before + row@.take(c as int),
            decreases w - c,
        {
            proof {
                assert(flat_before + row@.take(c as int + 1) =~= (flat_before + row@.take(
                    c as int,
                )).push(row@[c as int]));
            }
            flat.push(row[c]);
            c = c + 1;
        }
        proof {
            assert(flat@ == flat_before + row@.take(w as int));
            assert(row@.take(w as int) =~= row@);
            lemma_flat_index(r as int, 0, r as int + 1, w as int);
            assert(flat.len() == (r + 1) * (w as int));
            assert forall|rr: int, cc: int|
                0 <= rr < r + 1 && 0 <= cc < w implies #[trigger] flat[rr * (w as int) + cc].val()
                == lagrange_eval(
                vals_of(points@),
                polys.col(cc),
                vals_of(weights@),
                targets[rr].val(),
                p,
            ) by {
                lemma_flat_index(rr, cc, r as int + 1, w as int);
                if rr < r {
                    lemma_flat_index(rr, cc, r as int, w as int);
                    assert(flat[rr * (w as int) + cc] == flat_before[rr * (w as int) + cc]);
                } else {
                    assert(rr == r);
                    assert(flat[rr * (w as int) + cc] == row@[cc]);
                }
            }
        }
        r = r + 1;
    }
    proof {
        lemma_mod_multiples_basic(m as int, w as int);
        lemma_div_multiples_vanish(m as int, w as int);
        assert((w as int) * (m as int) == (m as int) * (w as int));
    }
    let out = RowMajorMat::new(flat, w);
    proof {
        assert(out.spec_height() == m as int);
        assert forall|r2: int, c2: int|
            0 <= r2 < m && 0 <= c2 < w implies #[trigger] out.entry(r2, c2) == lagrange_eval(
            vals_of(points@),
            polys.col(c2),
            vals_of(weights@),
            targets[r2].val(),
            p,
        ) by {
            lemma_flat_index(r2, c2, m as int, w as int);
        }
    }
    out
}

impl NaiveUndefinedLde {
    /// Extends the batch from the canonical domain `{0, ..., h - 1}` to
    /// `{0, ..., extended_height - 1}`: the original rows are kept
    /// verbatim on top, and one freshly interpolated row is appended
    /// for each new point, in order.  With `extended_height` equal to
    /// the original height the extension is empty.
    pub fn lde_batch<T: FieldElem>(&self, polys: RowMajorMat<T>, extended_height: usize) -> (out:
        VerticalPair<T>)
        requires
            polys.wf(),
            polys.spec_height() == 0 ==> extended_height == 0,
            polys.spec_height() <= extended_height as int,
            extended_height as int <= T::modulus(),
        ensures
            out.wf(),
            out.top == polys,
            out.bottom.width == polys.width,
            out.bottom.spec_height() == extended_height as int - polys.spec_height(),
            forall|r: int, c: int|
                0 <= r < out.bottom.spec_height() && 0 <= c < polys.spec_width()
                    ==> out.bottom.entry(r, c) == lagrange_eval(
                    idx_pts(0, polys.spec_height(), T::modulus()),
                    polys.col(c),
                    bary_weights(idx_pts(0, polys.spec_height(), T::modulus()), T::modulus()),
                    polys.spec_height() + r,
                    T::modulus(),
                ),
    {
        let ghost p = T::modulus();
        proof {
            T::modulus_at_least_two();
        }
        let h = polys.height();
        let points = canonical_domain::<T>(0, h);
        proof {
            assert forall|i: int| 0 <= i < h implies #[trigger] ((0 + i) % p) == i by {
                lemma_small_mod(i as nat, p as nat);
            }
            assert(vals_of(points@) =~= idx_pts(0, h as int, p));
            assert(pairwise_distinct(vals_of(points@)));
        }
        let weights = barycentric_weights(&points);
        let targets = canonical_domain::<T>(h, extended_height - h);
        proof {
            assert forall|r: int| 0 <= r < extended_height - h implies #[trigger] ((h + r) % p) == h + r by {
                lemma_small_mod((h + r) as nat, p as nat);
            }
        }
        let bottom = evaluate_over(&points, &polys, &weights, &targets);
        proof {
            assert forall|r: int|
                0 <= r < extended_height as int - h implies #[trigger] targets[r].val() == h
                + r by {
                assert(targets[r].val() == idx_pts(h as int, extended_height - h, p)[r]);
            }
        }
        VerticalPair { top: polys, bottom }
    }
}

impl NaiveSubgroupLde {
    /// Extends the batch from the two-adic subgroup of the original
    /// height's order onto the full subgroup `2^added_bits` times
    /// larger, enumerated in generator order.  The whole output matrix
    /// is freshly interpolated.
    pub fn lde_batch<T: TwoAdicElem>(&self, polys: RowMajorMat<T>, added_bits: usize) -> (out:
        RowMajorMat<T>)
        requires
            polys.wf(),
            exists|b: nat|
                polys.spec_height() == pow2(b) && b + added_bits as nat <= T::adicity(),
            polys.spec_height() * pow2(added_bits as nat) <= usize::MAX,
        ensures
            out.wf(),
            out.width == polys.width,
            forall|b: nat|
                polys.spec_height() == #[trigger] pow2(b) ==> out.spec_height() == pow2(
                    b + added_bits as nat,
                ) && forall|r: int, c: int|
                    0 <= r < out.spec_height() && 0 <= c < polys.spec_width()
                        ==> #[trigger] out.entry(r, c) == lagrange_eval(
                        subgroup_pts(T::root_val(b), pow2(b) as int, T::modulus()),
                        polys.col(c),
                        bary_weights(
                            subgroup_pts(T::root_val(b), pow2(b) as int, T::modulus()),
                            T::modulus(),
                        ),
                        subgroup_pts(
                            T::root_val(b + added_bits as nat),
                            pow2(b + added_bits as nat) as int,
                            T::modulus(),
                        )[r],
                        T::modulus(),
                    ),
    {
        let ghost p = T::modulus();
        let ghost b = choose|b: nat|
            polys.spec_height() == pow2(b) && b + added_bits as nat <= T::adicity();
        proof {
            T::modulus_at_least_two();
        }
        let h = polys.height();
        let bits = log2_strict_usize(h);
        proof {
            lemma_pow2_injective(bits as nat, b);
        }
        let g = T::two_adic_generator(bits);
        let subgroup = cyclic_subgroup_known_order(g, h);
        proof {
            lemma_subgroup_domain_ok::<T>(b);
            assert(vals_of(subgroup@) =~= subgroup_pts(T::root_val(b), pow2(b) as int, p));
        }
        let weights = barycentric_weights(&subgroup);
        proof {
            lemma_pow2_adds(bits as nat, added_bits as nat);
            lemma_pow2_exceeds(bits as nat + added_bits as nat);
        }
        let lde_bits = bits + added_bits;
        let g_lde = T::two_adic_generator(lde_bits);
        let mut tn = h;
        let mut a: usize = 0;
        while a < added_bits
            invariant
                h == pow2(bits as nat),
                a <= added_bits,
                tn == pow2(bits as nat + a as nat),
                pow2(bits as nat + added_bits as nat) <= usize::MAX,
            decreases added_bits - a,
        {
            proof {
                lemma_pow2_adds(bits as nat + a as nat, 1);
                vstd::arithmetic::power2::lemma2_to64();
                if bits as nat + a as nat + 1 < bits as nat + added_bits as nat {
                    lemma_pow2_strictly_increases(
                        bits as nat + a as nat + 1,
                        bits as nat + added_bits as nat,
                    );
                }
            }
            tn = tn * 2;
            a = a + 1;
        }
        let lde_subgroup = cyclic_subgroup_known_order(g_lde, tn);
        let out = evaluate_over(&subgroup, &polys, &weights, &lde_subgroup);
        proof {
            assert forall|bb: nat| polys.spec_height() == #[trigger] pow2(bb) implies out.spec_height()
                == pow2(bb + added_bits as nat) && forall|r: int, c: int|
                0 <= r < out.spec_height() && 0 <= c < polys.spec_width()
                    ==> #[trigger] out.entry(r, c) == lagrange_eval(
                    subgroup_pts(T::root_val(bb), pow2(bb) as int, T::modulus()),
                    polys.col(c),
                    bary_weights(
                        subgroup_pts(T::root_val(bb), pow2(bb) as int, T::modulus()),
                        T::modulus(),
                    ),
                    subgroup_pts(
                        T::root_val(bb + added_bits as nat),
                        pow2(bb + added_bits as nat) as int,
                        T::modulus(),
                    )[r],
                    T::modulus(),
                ) by {
                lemma_pow2_injective(bb, b);
            }
        }
        out
    }
}

impl NaiveCosetLde {
    /// The coset shift: the field's designated multiplicative
    /// generator, which lies outside every proper two-adic subgroup.
    pub fn shift<T: TwoAdicElem>(&self, _lde_bits: usize) -> (s: T)
        ensures
            0 <= s.val() < T::modulus(),
            s.val() == T::gen_val(),
    {
        T::generator()
    }

    /// Extends the batch from the two-adic subgroup of the original
    /// height's order onto the generator-shifted coset `2^added_bits`
    /// times larger, enumerated in generator order.
    pub fn lde_batch<T: TwoAdicElem>(&self, polys: RowMajorMat<T>, added_bits: usize) -> (out:
        RowMajorMat<T>)
        requires
            polys.wf(),
            exists|b: nat|
                polys.spec_height() == pow2(b) && b + added_bits as nat <= T::adicity(),
            polys.spec_height() * pow2(added_bits as nat) <= usize::MAX,
        ensures
            out.wf(),
            out.width == polys.width,
            forall|b: nat|
                polys.spec_height() == #[trigger] pow2(b) ==> out.spec_height() == pow2(
                    b + added_bits as nat,
                ) && forall|r: int, c: int|
                    0 <= r < out.spec_height() && 0 <= c < polys.spec_width()
                        ==> #[trigger] out.entry(r, c) == lagrange_eval(
                        subgroup_pts(T::root_val(b), pow2(b) as int, T::modulus()),
                        polys.col(c),
                        bary_weights(
                            subgroup_pts(T::root_val(b), pow2(b) as int, T::modulus()),
                            T::modulus(),
                        ),
                        coset_pts(
                            T::gen_val(),
                            T::root_val(b + added_bits as nat),
                            pow2(b + added_bits as nat) as int,
                            T::modulus(),
                        )[r],
                        T::modulus(),
                    ),
    {
        let ghost p = T::modulus();
        let ghost b = choose|b: nat|
            polys.spec_height() == pow2(b) && b + added_bits as nat <= T::adicity();
        proof {
            T::modulus_at_least_two();
        }
        let h = polys.height();
        let bits = log2_strict_usize(h);
        proof {
            lemma_pow2_injective(bits as nat, b);
        }
        let g = T::two_adic_generator(bits);
        let subgroup = cyclic_subgroup_known_order(g, h);
        proof {
            lemma_subgroup_domain_ok::<T>(b);
            assert(vals_of(subgroup@) =~= subgroup_pts(T::root_val(b), pow2(b) as int, p));
        }
        let weights = barycentric_weights(&subgroup);
        proof {
            lemma_pow2_adds(bits as nat, added_bits as nat);
            lemma_pow2_exceeds(bits as nat + added_bits as nat);
        }
        let lde_bits = bits + added_bits;
        let g_lde = T::two_adic_generator(lde_bits);
        let shift: T = self.shift(lde_bits);
        let mut tn = h;
        let mut a: usize = 0;
        while a < added_bits
            invariant
                h == pow2(bits as nat),
                a <= added_bits,
                tn == pow2(bits as nat + a as nat),
                pow2(bits as nat + added_bits as nat) <= usize::MAX,
            decreases added_bits - a,
        {
            proof {
                lemma_pow2_adds(bits as nat + a as nat, 1);
                vstd::arithmetic::power2::lemma2_to64();
                if bits as nat + a as nat + 1 < bits as nat + added_bits as nat {
                    lemma_pow2_strictly_increases(
                        bits as nat + a as nat + 1,
                        bits as nat + added_bits as nat,
                    );
                }
            }
            tn = tn * 2;
            a = a + 1;
        }
        let lde_coset = cyclic_subgroup_coset_known_order(g_lde, shift, tn);
        let out = evaluate_over(&subgroup, &polys, &weights, &lde_coset);
        proof {
            assert forall|bb: nat| polys.spec_height() == #[trigger] pow2(bb) implies out.spec_height()
                == pow2(bb + added_bits as nat) && forall|r: int, c: int|
                0 <= r < out.spec_height() && 0 <= c < polys.spec_width()
                    ==> #[trigger] out.entry(r, c) == lagrange_eval(
                    subgroup_pts(T::root_val(bb), pow2(bb) as int, T::modulus()),
                    polys.col(c),
                    bary_weights(
                        subgroup_pts(T::root_val(bb), pow2(bb) as int, T::modulus()),
                        T::modulus(),
                    ),
                    coset_pts(
                        T::gen_val(),
                        T::root_val(bb + added_bits as nat),
                        pow2(bb + added_bits as nat) as int,
                        T::modulus(),
                    )[r],
                    T::modulus(),
                ) by {
                lemma_pow2_injective(bb, b);
            }
        }
        out
    }
}

} // verus!
