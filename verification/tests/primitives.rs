use lde::batch_inverse::batch_multiplicative_inverse;
use lde::domain::{canonical_domain, cyclic_subgroup_coset_known_order, cyclic_subgroup_known_order,
    log2_strict_usize};
use lde::f17::F17;
use lde::field::{FieldElem, TwoAdicElem};
use lde::interpolate::{barycentric_weights, interpolate};
use lde::matrix::RowMajorMat;

fn f17v(vals: &[u64]) -> Vec<F17> {
    let mut out = Vec::new();
    for &v in vals {
        out.push(F17::new(v % 17));
    }
    out
}

#[test]
fn batch_inverse_inverts_every_element() {
    let all: Vec<u64> = (1..17).collect();
    let values = f17v(&all);
    let inverses = batch_multiplicative_inverse(&values);
    assert_eq!(inverses.len(), 16);
    for i in 0..16 {
        assert_eq!((values[i].as_u64() * inverses[i].as_u64()) % 17, 1);
    }
}

#[test]
fn weights_are_nonzero_on_canonical_domain() {
    let points: Vec<F17> = canonical_domain(0, 9);
    let weights = barycentric_weights(&points);
    assert_eq!(weights.len(), 9);
    for w in &weights {
        assert_ne!(w.as_u64(), 0);
    }
}

#[test]
fn weights_are_nonzero_on_subgroup_domain() {
    let g: F17 = F17::two_adic_generator(2);
    let points = cyclic_subgroup_known_order(g, 4);
    let weights = barycentric_weights(&points);
    for w in &weights {
        assert_ne!(w.as_u64(), 0);
    }
    // Each weight inverts its denominator product.
    for i in 0..4 {
        let mut denom = F17::new(1);
        for j in 0..4 {
            if j != i {
                denom = denom.mul_elem(points[i].sub_elem(points[j]));
            }
        }
        assert_eq!((denom.as_u64() * weights[i].as_u64()) % 17, 1);
    }
}

#[test]
fn interpolate_reproduces_domain_rows() {
    let points: Vec<F17> = canonical_domain(0, 4);
    let weights = barycentric_weights(&points);
    let values = RowMajorMat::new(f17v(&[3, 9, 1, 7, 12, 2, 6, 4]), 2);
    for i in 0..4 {
        let row = interpolate(&points, &values, points[i], &weights);
        assert_eq!(row.len(), 2);
        assert_eq!(row[0], values.get(i, 0));
        assert_eq!(row[1], values.get(i, 1));
    }
}

#[test]
fn interpolate_matches_direct_evaluation() {
    // f(x) = 3x^2 + 2x + 5 sampled at {0, 1, 2, 3}, queried off-domain.
    let f = |x: u64| (3 * x * x + 2 * x + 5) % 17;
    let samples: Vec<u64> = (0..4).map(&f).collect();
    let points: Vec<F17> = canonical_domain(0, 4);
    let weights = barycentric_weights(&points);
    let values = RowMajorMat::new(f17v(&samples), 1);
    for x in 4..17 {
        let row = interpolate(&points, &values, F17::new(x), &weights);
        assert_eq!(row[0].as_u64(), f(x));
    }
}

#[test]
fn coset_is_disjoint_from_subgroup() {
    let g2: F17 = F17::two_adic_generator(2);
    let g3: F17 = F17::two_adic_generator(3);
    let shift: F17 = F17::generator();
    let subgroup = cyclic_subgroup_known_order(g2, 4);
    let coset = cyclic_subgroup_coset_known_order(g3, shift, 8);
    for s in &subgroup {
        for c in &coset {
            assert_ne!(s.as_u64(), c.as_u64());
        }
    }
}

#[test]
fn subgroup_enumeration_order() {
    let g: F17 = F17::two_adic_generator(3);
    let pts = cyclic_subgroup_known_order(g, 8);
    let got: Vec<u64> = pts.iter().map(|e| e.as_u64()).collect();
    assert_eq!(got, vec![1, 9, 13, 15, 16, 8, 4, 2]);
}

#[test]
fn log2_strict_on_powers_of_two() {
    assert_eq!(log2_strict_usize(1), 0);
    assert_eq!(log2_strict_usize(2), 1);
    assert_eq!(log2_strict_usize(8), 3);
    assert_eq!(log2_strict_usize(1024), 10);
}

#[test]
fn field_ops_mod_17() {
    let a = F17::new(11);
    let b = F17::new(9);
    assert_eq!(a.add_elem(b).as_u64(), 3);
    assert_eq!(a.sub_elem(b).as_u64(), 2);
    assert_eq!(b.sub_elem(a).as_u64(), 15);
    assert_eq!(a.mul_elem(b).as_u64(), 14);
    assert_eq!(a.inverse().mul_elem(a).as_u64(), 1);
    assert!(a.eq_elem(F17::new(11)));
    assert!(!a.eq_elem(b));
    assert_eq!(F17::from_usize(40).as_u64(), 6);
}
