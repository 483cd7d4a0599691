//! Group-theoretic facts about the two-adic domains: the designated
//! roots have exact power-of-two order, subgroup enumerations are
//! pairwise distinct, smaller subgroups are nested inside larger ones,
//! and a generator-shifted coset avoids the source subgroup.

use vstd::prelude::*;
use vstd::arithmetic::power::{
    lemma1_pow, lemma_pow1, lemma_pow_adds, lemma_pow_distributes, lemma_pow_mod_noop,
    lemma_pow_multiplies, pow,
};
use vstd::arithmetic::power2::{lemma_pow2_adds, lemma_pow2_pos, lemma_pow2_unfold, pow2};
use vstd::arithmetic::div_mod::{lemma_mod_bound, lemma_mul_mod_noop_general, lemma_small_mod};
use crate::modular::{fmul, lemma_fmul_assoc, lemma_fmul_one, lemma_small_residue};
use crate::field::TwoAdicElem;
use crate::domain::{coset_pts, subgroup_pts};
use crate::lagrange::{
    all_reduced, bary_weights, lagrange_eval, lemma_bary_weights_proper,
    lemma_eval_at_domain_point, pairwise_distinct,
};

verus! {

/// Each designated root is a power of the top one: the coherent family
/// of squares reaches every level.
pub proof fn lemma_root_pow_down<T: TwoAdicElem>(b: nat, a: nat)
    requires
        b <= a <= T::adicity(),
    ensures
        T::root_val(b) == pow(T::root_val(a), pow2((a - b) as nat)) % T::modulus(),
    decreases a - b,
{
    let p = T::modulus();
    T::modulus_at_least_two();
    T::root_facts(a);
    if a == b {
        lemma_pow1(T::root_val(a));
        lemma_small_residue(T::root_val(a), p);
        assert(pow2(0) == 1) by {
            vstd::arithmetic::power2::lemma2_to64();
        }
    } else {
        lemma_root_pow_down::<T>(b + 1, a);
        T::root_facts(b);
        let m = pow2((a - b - 1) as nat);
        let rr = T::root_val(a);
        let x = pow(rr, m);
        // root(b) == (x % p) * (x % p) % p == (x * x) % p == pow(rr, 2 m) % p
        lemma_mul_mod_noop_general(x, x, p);
        lemma_pow_adds(rr, m, m);
        lemma_pow2_unfold((a - b) as nat);
    }
}

/// The designated `2^b`-th root has order exactly `2^b`.
pub proof fn lemma_root_order<T: TwoAdicElem>(b: nat, d: nat)
    requires
        b <= T::adicity(),
        d <= pow2(b),
    ensures
        d == pow2(b) ==> pow(T::root_val(b), d) % T::modulus() == 1,
        0 < d < pow2(b) ==> pow(T::root_val(b), d) % T::modulus() != 1,
{
    let p = T::modulus();
    let a = T::adicity();
    T::modulus_at_least_two();
    let rr = T::root_val(a);
    let m = pow2((a - b) as nat);
    lemma_root_pow_down::<T>(b, a);
    // pow(root(b), d) % p == pow(rr, m * d) % p
    lemma_pow_mod_noop(pow(rr, m), d, p);
    lemma_pow_multiplies(rr, m, d);
    lemma_pow2_adds((a - b) as nat, b);
    if d == pow2(b) {
        T::top_root_order(m * d);
    } else if 0 < d < pow2(b) {
        lemma_pow2_pos((a - b) as nat);
        assert(0 < m * d < m * pow2(b)) by (nonlinear_arith)
            requires
                m > 0,
                0 < d < pow2(b),
        ;
        T::top_root_order(m * d);
    }
}

/// Two distinct indices below the order give two distinct subgroup
/// points: the enumeration never repeats.
pub proof fn lemma_subgroup_points_distinct<T: TwoAdicElem>(b: nat, i: int, j: int)
    requires
        b <= T::adicity(),
        0 <= i < j < pow2(b),
    ensures
        pow(T::root_val(b), i as nat) % T::modulus() != pow(T::root_val(b), j as nat)
            % T::modulus(),
{
    let p = T::modulus();
    T::modulus_at_least_two();
    let g = T::root_val(b);
    let n = pow2(b);
    let aa = pow(g, i as nat) % p;
    let bb = pow(g, (j - i) as nat) % p;
    lemma_mod_bound(pow(g, i as nat), p);
    lemma_mod_bound(pow(g, (j - i) as nat), p);
    if aa == pow(g, j as nat) % p {
        // pow(g, j) == pow(g, i) * pow(g, j - i), so aa == aa * bb mod p.
        lemma_pow_adds(g, i as nat, (j - i) as nat);
        lemma_mul_mod_noop_general(pow(g, i as nat), pow(g, (j - i) as nat), p);
        assert(aa == fmul(aa, bb, p));
        // aa is invertible: its cofactor up to the full order inverts it.
        let w = pow(g, (n - i) as nat) % p;
        lemma_mod_bound(pow(g, (n - i) as nat), p);
        assert(fmul(aa, w, p) == 1) by {
            lemma_mul_mod_noop_general(pow(g, i as nat), pow(g, (n - i) as nat), p);
            lemma_pow_adds(g, i as nat, (n - i) as nat);
            lemma_root_order::<T>(b, n);
        }
        // bb == (w * aa) * bb == w * (aa * bb) == w * aa == 1
        assert(aa * w == w * aa) by (nonlinear_arith);
        lemma_fmul_one(bb, p);
        lemma_fmul_assoc(w, aa, bb, p);
        assert(bb == fmul(w, fmul(aa, bb, p), p));
        assert(bb == 1);
        lemma_root_order::<T>(b, (j - i) as nat);
    }
}

/// The subgroup domain of order `2^b` is a well-posed interpolation
/// domain: reduced and pairwise distinct.
pub proof fn lemma_subgroup_domain_ok<T: TwoAdicElem>(b: nat)
    requires
        b <= T::adicity(),
    ensures
        all_reduced(subgroup_pts(T::root_val(b), pow2(b) as int, T::modulus()), T::modulus()),
        pairwise_distinct(subgroup_pts(T::root_val(b), pow2(b) as int, T::modulus())),
        subgroup_pts(T::root_val(b), pow2(b) as int, T::modulus()).len() == pow2(b),
{
    let p = T::modulus();
    T::modulus_at_least_two();
    let pts = subgroup_pts(T::root_val(b), pow2(b) as int, p);
    assert forall|i: int| 0 <= i < pts.len() implies 0 <= #[trigger] pts[i] < p by {
        lemma_mod_bound(pow(T::root_val(b), i as nat), p);
    }
    assert forall|i: int, j: int|
        0 <= i < pts.len() && 0 <= j < pts.len() && i != j implies #[trigger] pts[i]
        != #[trigger] pts[j] by {
        if i < j {
            lemma_subgroup_points_distinct::<T>(b, i, j);
        } else {
            lemma_subgroup_points_distinct::<T>(b, j, i);
        }
    }
}

/// A point of the source subgroup reappears in the extended subgroup at
/// the index scaled by the blowup factor: enumeration orders are nested
/// through the coherent root family.
pub proof fn lemma_subgroup_nesting<T: TwoAdicElem>(b: nat, added: nat, i: nat)
    requires
        b + added <= T::adicity(),
    ensures
        pow(T::root_val((b + added) as nat), (pow2(added) * i) as nat) % T::modulus() == pow(
            T::root_val(b),
            i,
        ) % T::modulus(),
{
    let p = T::modulus();
    T::modulus_at_least_two();
    let gg = T::root_val((b + added) as nat);
    let m = pow2(added);
    lemma_root_pow_down::<T>(b, (b + added) as nat);
    assert(T::root_val(b) == pow(gg, m) % p);
    lemma_pow_mod_noop(pow(gg, m), i, p);
    lemma_pow_multiplies(gg, m, i);
}

/// Disjointness: no element of the generator-shifted coset of order
/// `2^lb` equals any element of the subgroup of order `2^b`, as long as
/// the generator escapes the two-adic subgroup of order `2^lb`.
pub proof fn lemma_coset_disjoint<T: TwoAdicElem>(b: nat, lb: nat, i: int, j: int)
    requires
        b <= lb,
        lb < T::adicity(),
        0 <= i < pow2(b),
        0 <= j < pow2(lb),
    ensures
        coset_pts(T::gen_val(), T::root_val(lb), pow2(lb) as int, T::modulus())[j] != subgroup_pts(
            T::root_val(b),
            pow2(b) as int,
            T::modulus(),
        )[i],
{
    let p = T::modulus();
    T::modulus_at_least_two();
    T::generator_facts();
    let s = T::gen_val();
    let g = T::root_val(b);
    let gl = T::root_val(lb);
    let e = pow2(lb);
    let bb = pow(gl, j as nat) % p;
    let aa = pow(g, i as nat) % p;
    let x = fmul(s, bb, p);
    lemma_mod_bound(pow(gl, j as nat), p);
    lemma_mod_bound(pow(g, i as nat), p);
    if x == aa {
        // Raise both sides to the coset order 2^lb.
        // pow(x, e) % p == pow(s, e) % p, because pow(bb, e) % p == 1.
        assert(pow(x, e) % p == pow(s, e) % p) by {
            lemma_pow_mod_noop(s * bb, e, p);
            lemma_pow_distributes(s, bb, e);
            lemma_mul_mod_noop_general(pow(s, e), pow(bb, e), p);
            // pow(bb, e) % p == pow(gl, j * e) % p == pow(pow(gl, e) % p, j) % p == 1
            assert(pow(bb, e) % p == 1) by {
                lemma_pow_mod_noop(pow(gl, j as nat), e, p);
                lemma_pow_multiplies(gl, j as nat, e);
                lemma_pow_multiplies(gl, e, j as nat);
                assert((j as nat) * e == e * (j as nat)) by (nonlinear_arith);
                lemma_pow_mod_noop(pow(gl, e), j as nat, p);
                lemma_root_order::<T>(lb, e);
                lemma1_pow(j as nat);
                lemma_small_mod(1nat, p as nat);
            }
            lemma_mod_bound(pow(s, e), p);
            lemma_fmul_one(pow(s, e) % p, p);
            lemma_mul_mod_noop_general(pow(s, e) % p, pow(bb, e) % p, p);
        }
        // pow(aa, e) % p == 1, because the source subgroup order divides e.
        assert(pow(aa, e) % p == 1) by {
            lemma_pow_mod_noop(pow(g, i as nat), e, p);
            lemma_pow_multiplies(g, i as nat, e);
            lemma_pow2_adds(b, (lb - b) as nat);
            assert((i as nat) * e == pow2(b) * ((i as nat) * pow2((lb - b) as nat)))
                by (nonlinear_arith)
                requires
                    e == pow2(b) * pow2((lb - b) as nat),
            ;
            lemma_pow_multiplies(g, pow2(b), (i as nat) * pow2((lb - b) as nat));
            lemma_pow_mod_noop(pow(g, pow2(b)), (i as nat) * pow2((lb - b) as nat), p);
            lemma_root_order::<T>(b, pow2(b));
            lemma1_pow((i as nat) * pow2((lb - b) as nat));
            lemma_small_mod(1nat, p as nat);
        }
        // But the generator's 2^lb-th power is not 1: contradiction.
        assert(pow(s, pow2(lb)) % p != 1);
    }
}

/// Exact reproduction for the subgroup extender: the extended
/// evaluation at target row `2^added * i` is the original value at
/// source row `i` — the source point reappears there, and the Lagrange
/// form reproduces domain values exactly.
pub proof fn lemma_subgroup_extension_reproduces<T: TwoAdicElem>(
    b: nat,
    added: nat,
    ys: Seq<int>,
    i: int,
)
    requires
        b + added <= T::adicity(),
        ys.len() == pow2(b),
        all_reduced(ys, T::modulus()),
        0 <= i < pow2(b),
    ensures
        0 <= pow2(added) * i < pow2((b + added) as nat),
        lagrange_eval(
            subgroup_pts(T::root_val(b), pow2(b) as int, T::modulus()),
            ys,
            bary_weights(
                subgroup_pts(T::root_val(b), pow2(b) as int, T::modulus()),
                T::modulus(),
            ),
            subgroup_pts(
                T::root_val((b + added) as nat),
                pow2((b + added) as nat) as int,
                T::modulus(),
            )[pow2(added) * i],
            T::modulus(),
        ) == ys[i],
{
    let p = T::modulus();
    T::modulus_at_least_two();
    lemma_subgroup_domain_ok::<T>(b);
    let pts = subgroup_pts(T::root_val(b), pow2(b) as int, p);
    lemma_bary_weights_proper::<T>(pts);
    lemma_pow2_pos(added);
    assert(0 <= pow2(added) * i && pow2(added) * i < pow2(added) * pow2(b)) by (nonlinear_arith)
        requires
            pow2(added) > 0,
            0 <= i < pow2(b),
    ;
    lemma_pow2_adds(added, b);
    lemma_pow2_adds(b, added);
    let r = pow2(added) * i;
    lemma_subgroup_nesting::<T>(b, added, i as nat);
    assert((pow2(added) * (i as nat)) as nat == r as nat);
    assert(subgroup_pts(
        T::root_val((b + added) as nat),
        pow2((b + added) as nat) as int,
        p,
    )[r] == pts[i]);
    lemma_eval_at_domain_point(pts, ys, bary_weights(pts, p), p, i);
}

} // verus!
