//! Polynomials in coefficient form over the field, and the facts that
//! tie interpolation back to them: synthetic division, the root-count
//! bound, and finally polynomial consistency — interpolating the
//! evaluations of a polynomial of degree below the domain size and
//! evaluating the interpolant anywhere reproduces the polynomial.

use vstd::prelude::*;
use vstd::arithmetic::div_mod::{
    lemma_add_mod_noop, lemma_add_mod_noop_right, lemma_mod_bound, lemma_mul_mod_noop_general,
    lemma_small_mod,
};
use crate::modular::{fadd, fmul, fsub, invertible, lemma_fmul_assoc, lemma_fmul_one,
    lemma_fmul_zero, lemma_fsub_nonzero, lemma_small_residue};
use crate::field::FieldElem;
use crate::lagrange::{
    all_reduced, bary_weights, lagrange_eval, lagrange_partial, lagrange_term,
    lemma_bary_weights_proper, lemma_eval_at_domain_point, pairwise_distinct, skip_prod,
};

verus! {

/// Horner evaluation of a coefficient sequence, lowest degree first.
pub open spec fn poly_eval(cs: Seq<int>, x: int, p: int) -> int
    decreases cs.len(),
{
    if cs.len() == 0 {
        0
    } else {
        fadd(cs[0], fmul(x, poly_eval(cs.drop_first(), x, p), p), p)
    }
}

/// Every evaluation is a reduced residue.
pub proof fn lemma_poly_eval_bounds(cs: Seq<int>, x: int, p: int)
    requires
        p >= 2,
    ensures
        0 <= poly_eval(cs, x, p) < p,
    decreases cs.len(),
{
    if cs.len() == 0 {
    } else {
        lemma_poly_eval_bounds(cs.drop_first(), x, p);
        lemma_mod_bound(cs[0] + fmul(x, poly_eval(cs.drop_first(), x, p), p), p);
    }
}

/// The quotient of `cs` under synthetic division by `(x - r)`: the
/// remainder is `poly_eval(cs, r, p)`.
pub open spec fn poly_quot(cs: Seq<int>, r: int, p: int) -> Seq<int>
    decreases cs.len(),
{
    if cs.len() <= 1 {
        Seq::empty()
    } else {
        seq![poly_eval(cs.drop_first(), r, p)] + poly_quot(cs.drop_first(), r, p)
    }
}

pub proof fn lemma_poly_quot_len(cs: Seq<int>, r: int, p: int)
    ensures
        cs.len() <= 1 ==> poly_quot(cs, r, p).len() == 0,
        cs.len() > 1 ==> poly_quot(cs, r, p).len() == cs.len() - 1,
    decreases cs.len(),
{
    if cs.len() > 1 {
        lemma_poly_quot_len(cs.drop_first(), r, p);
    }
}

/// Synthetic division: `f(x) == f(r) + (x - r) * q(x)` mod `p`.
pub proof fn lemma_poly_division(cs: Seq<int>, r: int, x: int, p: int)
    requires
        p >= 2,
    ensures
        poly_eval(cs, x, p) == fadd(
            poly_eval(cs, r, p),
            fmul(fsub(x, r, p), poly_eval(poly_quot(cs, r, p), x, p), p),
            p,
        ),
    decreases cs.len(),
{
    if cs.len() == 0 {
        lemma_fmul_zero(fsub(x, r, p), p);
        lemma_small_mod(0nat, p as nat);
    } else if cs.len() == 1 {
        // f is constant: the quotient is empty.
        assert(cs.drop_first().len() == 0);
        lemma_fmul_zero(x, p);
        lemma_fmul_zero(r, p);
        lemma_fmul_zero(fsub(x, r, p), p);
        lemma_mod_bound(cs[0], p);
        lemma_small_residue(poly_eval(cs, x, p), p);
        lemma_add_mod_noop_right(poly_eval(cs, r, p), 0, p);
        lemma_poly_eval_bounds(cs, r, p);
        lemma_small_residue(poly_eval(cs, r, p), p);
    } else {
        let f1 = cs.drop_first();
        lemma_poly_division(f1, r, x, p);
        let c0 = cs[0];
        let f1x = poly_eval(f1, x, p);
        let f1r = poly_eval(f1, r, p);
        let q1 = poly_quot(f1, r, p);
        let qq1 = poly_eval(q1, x, p);
        let q = poly_quot(cs, r, p);
        let d = x - r;
        lemma_poly_eval_bounds(f1, x, p);
        lemma_poly_eval_bounds(f1, r, p);
        lemma_poly_eval_bounds(q1, x, p);
        // The quotient of cs evaluates to f1r + x * q1(x).
        assert(q == seq![f1r] + q1);
        assert(q[0] == f1r);
        assert(q.drop_first() =~= q1);
        let qx = poly_eval(q, x, p);
        assert(qx == fadd(f1r, fmul(x, qq1, p), p));
        // Flatten every side to one reduced integer expression.
        // f1(x) == (f1r + (x - r) * qq1) % p
        assert(f1x == (f1r + d * qq1) % p) by {
            lemma_mul_mod_noop_general(d, qq1, p);
            lemma_add_mod_noop_right(f1r, (d % p) * qq1, p);
            lemma_add_mod_noop_right(f1r, d * qq1, p);
        }
        // LHS == (c0 + x * (f1r + d * qq1)) % p
        assert(poly_eval(cs, x, p) == (c0 + x * (f1r + d * qq1)) % p) by {
            lemma_mul_mod_noop_general(x, f1r + d * qq1, p);
            lemma_add_mod_noop_right(c0, x * ((f1r + d * qq1) % p), p);
            lemma_add_mod_noop_right(c0, x * (f1r + d * qq1), p);
        }
        // f(r) == (c0 + r * f1r) % p
        assert(poly_eval(cs, r, p) == (c0 + r * f1r) % p) by {
            lemma_add_mod_noop_right(c0, fmul(r, f1r, p), p);
            lemma_add_mod_noop_right(c0, r * f1r, p);
        }
        // q(x) == (f1r + x * qq1) % p
        assert(qx == (f1r + x * qq1) % p) by {
            lemma_add_mod_noop_right(f1r, fmul(x, qq1, p), p);
            lemma_add_mod_noop_right(f1r, x * qq1, p);
        }
        // RHS == ((c0 + r * f1r) + d * (f1r + x * qq1)) % p
        assert(fadd(poly_eval(cs, r, p), fmul(fsub(x, r, p), qx, p), p) == ((c0 + r * f1r) + d * (
        f1r + x * qq1)) % p) by {
            lemma_mul_mod_noop_general(d, qx, p);
            lemma_mul_mod_noop_general(d, f1r + x * qq1, p);
            assert(fmul(fsub(x, r, p), qx, p) == (d * (f1r + x * qq1)) % p);
            lemma_add_mod_noop(c0 + r * f1r, d * (f1r + x * qq1), p);
            lemma_add_mod_noop_right((c0 + r * f1r) % p, d * (f1r + x * qq1), p);
            lemma_add_mod_noop((c0 + r * f1r), (d * (f1r + x * qq1)), p);
        }
        assert(c0 + x * (f1r + d * qq1) == (c0 + r * f1r) + d * (f1r + x * qq1))
            by (nonlinear_arith)
            requires
                d == x - r,
        ;
    }
}

/// A cancellation step: an invertible factor in a vanishing product
/// forces the other factor to vanish.
proof fn lemma_invertible_cancel_zero(d: int, q: int, p: int)
    requires
        p >= 2,
        invertible(d, p),
        0 <= q < p,
        fmul(d, q, p) == 0,
    ensures
        q == 0,
{
    let di = choose|b: int| 0 <= b < p && fmul(d, b, p) == 1;
    // q == (di * d) * q == di * (d * q) == di * 0 == 0
    lemma_fmul_one(q, p);
    lemma_fmul_assoc(di, d, q, p);
    assert(di * d == d * di) by (nonlinear_arith);
    assert(fmul(di, d, p) == fmul(d, di, p));
    lemma_fmul_zero(di, p);
}

/// The root-count bound, in the form interpolation needs: a polynomial
/// of degree below the domain size that vanishes on the whole domain
/// vanishes everywhere.
pub proof fn lemma_poly_zero_on_domain<T: FieldElem>(cs: Seq<int>, pts: Seq<int>, x: int)
    requires
        all_reduced(pts, T::modulus()),
        pairwise_distinct(pts),
        cs.len() <= pts.len(),
        forall|i: int| 0 <= i < pts.len() ==> poly_eval(cs, #[trigger] pts[i], T::modulus()) == 0,
    ensures
        poly_eval(cs, x, T::modulus()) == 0,
    decreases cs.len(),
{
    let p = T::modulus();
    T::modulus_at_least_two();
    if cs.len() == 0 {
    } else {
        let r = pts[0];
        let rest = pts.drop_first();
        let q = poly_quot(cs, r, p);
        lemma_poly_quot_len(cs, r, p);
        // At every other domain point the quotient vanishes, because the
        // linear factor there is invertible.
        assert forall|j: int| 0 <= j < rest.len() implies poly_eval(
            q,
            #[trigger] rest[j],
            p,
        ) == 0 by {
            assert(rest[j] == pts[j + 1]);
            lemma_poly_division(cs, r, pts[j + 1], p);
            let d = fsub(pts[j + 1], r, p);
            let qv = poly_eval(q, pts[j + 1], p);
            lemma_poly_eval_bounds(q, pts[j + 1], p);
            lemma_fsub_nonzero(pts[j + 1], r, p);
            T::nonzero_invertible(d);
            // 0 == (0 + d * qv) % p == d * qv % p
            lemma_fmul_zero(fmul(d, qv, p), p);
            lemma_mod_bound(fmul(d, qv, p), p);
            lemma_small_residue(fmul(d, qv, p), p);
            lemma_invertible_cancel_zero(d, qv, p);
        }
        assert(all_reduced(rest, p)) by {
            assert(forall|i: int| 0 <= i < rest.len() ==> rest[i] == #[trigger] pts[i + 1]);
        }
        assert(pairwise_distinct(rest)) by {
            assert(forall|i: int| 0 <= i < rest.len() ==> rest[i] == #[trigger] pts[i + 1]);
        }
        lemma_poly_zero_on_domain::<T>(q, rest, x);
        // f(x) == f(r) + (x - r) * 0 == 0
        lemma_poly_division(cs, r, x, p);
        lemma_fmul_zero(fsub(x, r, p), p);
        lemma_small_mod(0nat, p as nat);
    }
}

/// The coefficient of degree `i`, zero beyond the stored length.
pub open spec fn coeff(cs: Seq<int>, i: int) -> int {
    if 0 <= i < cs.len() {
        cs[i]
    } else {
        0
    }
}

/// The sum of two polynomials, coefficient by coefficient.
pub open spec fn poly_add(a: Seq<int>, b: Seq<int>, p: int) -> Seq<int> {
    Seq::new(
        if a.len() >= b.len() {
            a.len()
        } else {
            b.len()
        },
        |i: int| fadd(coeff(a, i), coeff(b, i), p),
    )
}

/// A polynomial scaled by a constant.
pub open spec fn poly_scale(s: int, a: Seq<int>, p: int) -> Seq<int> {
    Seq::new(a.len(), |i: int| fmul(s, a[i], p))
}

/// A polynomial multiplied by the linear factor `(x - r)`.
pub open spec fn lin_mul(r: int, a: Seq<int>, p: int) -> Seq<int>
    decreases a.len(),
{
    if a.len() == 0 {
        Seq::empty()
    } else {
        seq![fmul(fsub(0, r, p), a[0], p)] + poly_add(
            seq![a[0]],
            lin_mul(r, a.drop_first(), p),
            p,
        )
    }
}

/// The tail of a polynomial: its coefficients shifted down by one, or
/// the polynomial itself when it is empty.
pub open spec fn poly_tail(a: Seq<int>) -> Seq<int> {
    if a.len() == 0 {
        a
    } else {
        a.drop_first()
    }
}

/// Horner evaluation, written uniformly over possibly-empty sequences.
proof fn lemma_poly_eval_unfold(a: Seq<int>, x: int, p: int)
    requires
        p >= 2,
    ensures
        poly_eval(a, x, p) == fadd(coeff(a, 0), fmul(x, poly_eval(poly_tail(a), x, p), p), p),
{
    if a.len() == 0 {
        lemma_fmul_zero(x, p);
        lemma_small_mod(0nat, p as nat);
    }
}

/// Evaluation is additive.
pub proof fn lemma_poly_add_eval(a: Seq<int>, b: Seq<int>, x: int, p: int)
    requires
        p >= 2,
    ensures
        poly_eval(poly_add(a, b, p), x, p) == fadd(poly_eval(a, x, p), poly_eval(b, x, p), p),
    decreases a.len() + b.len(),
{
    let s = poly_add(a, b, p);
    if a.len() == 0 && b.len() == 0 {
        lemma_small_mod(0nat, p as nat);
    } else {
        let a1 = poly_tail(a);
        let b1 = poly_tail(b);
        lemma_poly_add_eval(a1, b1, x, p);
        assert(s.drop_first() =~= poly_add(a1, b1, p));
        let ea = poly_eval(a1, x, p);
        let eb = poly_eval(b1, x, p);
        let ca = coeff(a, 0);
        let cb = coeff(b, 0);
        lemma_poly_eval_unfold(a, x, p);
        lemma_poly_eval_unfold(b, x, p);
        assert(poly_eval(s, x, p) == fadd(fadd(ca, cb, p), fmul(x, fadd(ea, eb, p), p), p));
        // Flatten both sides to ((ca + cb) + (x * ea + x * eb)) % p.
        assert(fmul(x, fadd(ea, eb, p), p) == (x * ea + x * eb) % p) by {
            lemma_mul_mod_noop_general(x, ea + eb, p);
            assert(x * (ea + eb) == x * ea + x * eb) by (nonlinear_arith);
        }
        assert(fadd(fadd(ca, cb, p), (x * ea + x * eb) % p, p) == ((ca + cb) + (x * ea + x * eb))
            % p) by {
            lemma_add_mod_noop(ca + cb, x * ea + x * eb, p);
            lemma_add_mod_noop_right((ca + cb) % p, x * ea + x * eb, p);
        }
        assert(fadd(poly_eval(a, x, p), poly_eval(b, x, p), p) == ((ca + x * ea) + (cb + x * eb))
            % p) by {
            lemma_add_mod_noop_right(ca, x * ea, p);
            lemma_add_mod_noop_right(cb, x * eb, p);
            lemma_add_mod_noop(ca + x * ea, cb + x * eb, p);
        }
    }
}

/// Evaluation commutes with scaling.
pub proof fn lemma_poly_scale_eval(s: int, a: Seq<int>, x: int, p: int)
    requires
        p >= 2,
    ensures
        poly_eval(poly_scale(s, a, p), x, p) == fmul(s, poly_eval(a, x, p), p),
    decreases a.len(),
{
    if a.len() == 0 {
        lemma_fmul_zero(s, p);
    } else {
        let a1 = a.drop_first();
        lemma_poly_scale_eval(s, a1, x, p);
        assert(poly_scale(s, a, p).drop_first() =~= poly_scale(s, a1, p));
        let ea = poly_eval(a1, x, p);
        let c = a[0];
        assert(poly_eval(poly_scale(s, a, p), x, p) == fadd(
            fmul(s, c, p),
            fmul(x, fmul(s, ea, p), p),
            p,
        ));
        // Both sides flatten to (s * c + s * x * ea) % p.
        assert(fmul(x, fmul(s, ea, p), p) == (s * (x * ea)) % p) by {
            lemma_mul_mod_noop_general(s * ea, x, p);
            assert(x * (s * ea) == s * (x * ea)) by (nonlinear_arith);
        }
        assert(fadd(fmul(s, c, p), (s * (x * ea)) % p, p) == (s * c + s * (x * ea)) % p) by {
            lemma_add_mod_noop(s * c, s * (x * ea), p);
        }
        assert(fmul(s, poly_eval(a, x, p), p) == (s * (c + x * ea)) % p) by {
            lemma_add_mod_noop_right(c, x * ea, p);
            lemma_mul_mod_noop_general(s, c + x * ea, p);
        }
        assert(s * (c + x * ea) == s * c + s * (x * ea)) by (nonlinear_arith);
    }
}

/// Evaluation turns the linear-factor product into a product of values.
pub proof fn lemma_lin_mul_eval(r: int, a: Seq<int>, x: int, p: int)
    requires
        p >= 2,
    ensures
        poly_eval(lin_mul(r, a, p), x, p) == fmul(fsub(x, r, p), poly_eval(a, x, p), p),
        a.len() == 0 ==> lin_mul(r, a, p).len() == 0,
        a.len() >= 1 ==> lin_mul(r, a, p).len() == a.len() + 1,
    decreases a.len(),
{
    if a.len() == 0 {
        lemma_fmul_zero(fsub(x, r, p), p);
    } else {
        let a1 = a.drop_first();
        lemma_lin_mul_eval(r, a1, x, p);
        let m = lin_mul(r, a, p);
        let inner = poly_add(seq![a[0]], lin_mul(r, a1, p), p);
        assert(m.drop_first() =~= inner);
        assert(m[0] == fmul(fsub(0, r, p), a[0], p));
        lemma_poly_add_eval(seq![a[0]], lin_mul(r, a1, p), x, p);
        let c = a[0];
        let ea = poly_eval(a1, x, p);
        // eval(seq![c], x) == c % p
        assert(poly_eval(seq![c], x, p) == c % p) by {
            reveal_with_fuel(poly_eval, 2);
            assert(seq![c].drop_first() =~= Seq::<int>::empty());
            lemma_fmul_zero(x, p);
            lemma_add_mod_noop_right(c, 0, p);
        }
        let ei = poly_eval(inner, x, p);
        // ei == (c + (x - r) * ea) % p
        assert(ei == (c + (x - r) * ea) % p) by {
            lemma_mul_mod_noop_general(x - r, ea, p);
            lemma_add_mod_noop(c, (x - r) * ea, p);
            lemma_add_mod_noop_right(c, (x - r) * ea, p);
        }
        // eval(m, x) == ((-r) * c + x * (c + (x - r) * ea)) % p
        assert(poly_eval(m, x, p) == ((0 - r) * c + x * (c + (x - r) * ea)) % p) by {
            assert(m[0] == ((0 - r) * c) % p) by {
                lemma_mul_mod_noop_general(0 - r, c, p);
            }
            assert(fmul(x, ei, p) == (x * (c + (x - r) * ea)) % p) by {
                lemma_mul_mod_noop_general(x, c + (x - r) * ea, p);
            }
            lemma_add_mod_noop((0 - r) * c, x * (c + (x - r) * ea), p);
        }
        // RHS == ((x - r) * (c + x * ea)) % p
        assert(fmul(fsub(x, r, p), poly_eval(a, x, p), p) == ((x - r) * (c + x * ea)) % p) by {
            lemma_add_mod_noop_right(c, x * ea, p);
            lemma_mul_mod_noop_general(x - r, c + x * ea, p);
        }
        assert((0 - r) * c + x * (c + (x - r) * ea) == (x - r) * (c + x * ea))
            by (nonlinear_arith);
    }
}

/// The numerator product over a domain, as a polynomial: a coefficient
/// sequence whose evaluation at any `y` is `skip_prod(pts, skip, y, p)`.
pub proof fn lemma_skip_prod_poly(pts: Seq<int>, skip: int, p: int) -> (ns: Seq<int>)
    requires
        p >= 2,
    ensures
        ns.len() <= pts.len() + 1,
        0 <= skip < pts.len() ==> ns.len() <= pts.len(),
        forall|y: int| #[trigger] poly_eval(ns, y, p) == skip_prod(pts, skip, y, p),
    decreases pts.len(),
{
    if pts.len() == 0 {
        let ns = seq![1];
        assert forall|y: int| #[trigger] poly_eval(ns, y, p) == skip_prod(pts, skip, y, p) by {
            reveal_with_fuel(poly_eval, 2);
            assert(ns.drop_first() =~= Seq::<int>::empty());
            lemma_fmul_zero(y, p);
            lemma_add_mod_noop_right(1, 0, p);
            lemma_small_residue(1, p);
        }
        ns
    } else {
        let k = pts.len() - 1;
        let rest = lemma_skip_prod_poly(pts.drop_last(), skip, p);
        if k == skip {
            rest
        } else {
            let ns = lin_mul(pts[k], rest, p);
            assert forall|y: int| #[trigger] poly_eval(ns, y, p) == skip_prod(
                pts,
                skip,
                y,
                p,
            ) by {
                lemma_lin_mul_eval(pts[k], rest, y, p);
                let d = fsub(y, pts[k], p);
                let e = skip_prod(pts.drop_last(), skip, y, p);
                assert(d * e == e * d) by (nonlinear_arith);
                assert(fmul(d, e, p) == fmul(e, d, p));
            }
            lemma_lin_mul_eval(pts[k], rest, 0, p);
            ns
        }
    }
}

/// The Lagrange combination, as a polynomial of degree below the domain
/// size: a coefficient sequence whose evaluation at any `y` is the sum
/// of the first `k` Lagrange terms at `y`.
pub proof fn lemma_lagrange_poly(pts: Seq<int>, ys: Seq<int>, ws: Seq<int>, p: int, k: int) -> (ls:
    Seq<int>)
    requires
        p >= 2,
        0 <= k <= pts.len(),
    ensures
        ls.len() <= pts.len(),
        forall|y: int| #[trigger] poly_eval(ls, y, p) == lagrange_partial(pts, ys, ws, y, p, k),
    decreases k,
{
    if k == 0 {
        let ls = Seq::<int>::empty();
        ls
    } else {
        let prev = lemma_lagrange_poly(pts, ys, ws, p, k - 1);
        let i = k - 1;
        let ns = lemma_skip_prod_poly(pts, i, p);
        let c = fmul(ws[i], ys[i], p);
        let term = poly_scale(c, ns, p);
        let ls = poly_add(prev, term, p);
        assert forall|y: int| #[trigger] poly_eval(ls, y, p) == lagrange_partial(
            pts,
            ys,
            ws,
            y,
            p,
            k,
        ) by {
            lemma_poly_add_eval(prev, term, y, p);
            lemma_poly_scale_eval(c, ns, y, p);
            let sk = skip_prod(pts, i, y, p);
            // (w * y') * sk == w * sk * y' == (w * sk) * y'
            assert(fmul(c, sk, p) == lagrange_term(pts, ys, ws, y, p, i)) by {
                lemma_fmul_assoc(ws[i], ys[i], sk, p);
                lemma_fmul_assoc(ws[i], sk, ys[i], p);
                assert(ws[i] * ys[i] * sk == ws[i] * sk * ys[i]) by (nonlinear_arith);
            }
        }
        ls
    }
}

/// Polynomial consistency: interpolating the evaluations of a
/// polynomial of degree below the domain size and evaluating the
/// interpolant anywhere — on or off the domain — agrees with direct
/// evaluation of the polynomial there.
pub proof fn lemma_polynomial_consistency<T: FieldElem>(cs: Seq<int>, pts: Seq<int>, x: int)
    requires
        all_reduced(pts, T::modulus()),
        pairwise_distinct(pts),
        cs.len() <= pts.len(),
    ensures
        lagrange_eval(
            pts,
            Seq::new(pts.len(), |i: int| poly_eval(cs, pts[i], T::modulus())),
            bary_weights(pts, T::modulus()),
            x,
            T::modulus(),
        ) == poly_eval(cs, x, T::modulus()),
{
    let p = T::modulus();
    T::modulus_at_least_two();
    let ys = Seq::new(pts.len(), |i: int| poly_eval(cs, pts[i], p));
    let ws = bary_weights(pts, p);
    lemma_bary_weights_proper::<T>(pts);
    assert forall|i: int| 0 <= i < ys.len() implies 0 <= #[trigger] ys[i] < p by {
        lemma_poly_eval_bounds(cs, pts[i], p);
    }
    let ls = lemma_lagrange_poly(pts, ys, ws, p, pts.len() as int);
    let neg = poly_scale(p - 1, cs, p);
    let dcs = poly_add(ls, neg, p);
    // The difference polynomial vanishes on the whole domain.
    assert forall|i: int| 0 <= i < pts.len() implies poly_eval(
        dcs,
        #[trigger] pts[i],
        p,
    ) == 0 by {
        lemma_poly_add_eval(ls, neg, pts[i], p);
        lemma_poly_scale_eval(p - 1, cs, pts[i], p);
        lemma_eval_at_domain_point(pts, ys, ws, p, i);
        let v = ys[i];
        // v + (p - 1) * v == p * v, a multiple of p.
        assert(fadd(v, fmul(p - 1, v, p), p) == 0) by {
            lemma_add_mod_noop_right(v, (p - 1) * v, p);
            assert(v + (p - 1) * v == v * p) by (nonlinear_arith);
            vstd::arithmetic::div_mod::lemma_mod_multiples_basic(v, p);
        }
    }
    lemma_poly_zero_on_domain::<T>(dcs, pts, x);
    // At x: 0 == L(x) + (p - 1) * f(x) mod p, and both are reduced.
    lemma_poly_add_eval(ls, neg, x, p);
    lemma_poly_scale_eval(p - 1, cs, x, p);
    let lv = poly_eval(ls, x, p);
    let fv = poly_eval(cs, x, p);
    lemma_poly_eval_bounds(ls, x, p);
    lemma_poly_eval_bounds(cs, x, p);
    assert(fadd(lv, fmul(p - 1, fv, p), p) == 0);
    assert((lv - fv) % p == 0) by {
        lemma_add_mod_noop_right(lv, (p - 1) * fv, p);
        assert(lv + (p - 1) * fv == (lv - fv) + fv * p) by (nonlinear_arith);
        vstd::arithmetic::div_mod::lemma_mod_add_multiples_vanish(lv - fv, p);
        assert((lv - fv + p) % p == (lv - fv) % p) by {
            vstd::arithmetic::div_mod::lemma_mod_add_multiples_vanish(lv - fv, p);
        }
        assert((p * fv + (lv - fv)) % p == (lv - fv) % p) by {
            vstd::arithmetic::div_mod::lemma_mod_multiples_vanish(fv, lv - fv, p);
        }
        assert(lv + (p - 1) * fv == p * fv + (lv - fv)) by (nonlinear_arith);
    }
    if lv >= fv {
        lemma_small_mod((lv - fv) as nat, p as nat);
    } else {
        vstd::arithmetic::div_mod::lemma_mod_add_multiples_vanish(lv - fv, p);
        lemma_small_mod((lv - fv + p) as nat, p as nat);
    }
}

} // verus!
