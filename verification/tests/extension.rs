use lde::f17::F17;
use lde::field::{FieldElem, TwoAdicElem};
use lde::matrix::RowMajorMat;
use lde::naive::{NaiveCosetLde, NaiveSubgroupLde, NaiveUndefinedLde};

fn f17v(vals: &[u64]) -> Vec<F17> {
    let mut out = Vec::new();
    for &v in vals {
        out.push(F17::new(v % 17));
    }
    out
}

fn mat(vals: &[u64], width: usize) -> RowMajorMat<F17> {
    RowMajorMat::new(f17v(vals), width)
}

fn vals_of(elems: &Vec<F17>) -> Vec<u64> {
    let mut out = Vec::new();
    for e in elems {
        out.push(e.as_u64());
    }
    out
}

// f(x) = x^2 + 1 over the 4th roots of unity {1, 13, 16, 4} mod 17,
// extended to the 8th roots {1, 9, 13, 15, 16, 8, 4, 2}: at each new
// point y the value must be y^2 + 1 mod 17.
#[test]
fn concrete_scenario_mod_17() {
    let polys = mat(&[2, 0, 2, 0], 1);
    let out = NaiveSubgroupLde.lde_batch(polys, 1);
    assert_eq!(out.width, 1);
    let got = vals_of(&out.values);
    let expected: Vec<u64> = vec![2, 14, 0, 5, 2, 14, 0, 5];
    assert_eq!(got, expected);
    // Cross-check against direct evaluation at the enumerated points.
    let g: F17 = F17::two_adic_generator(3);
    let mut y = F17::new(1);
    for r in 0..8 {
        let direct = (y.as_u64() * y.as_u64() + 1) % 17;
        assert_eq!(got[r], direct);
        y = y.mul_elem(g);
    }
}

#[test]
fn coset_scenario_mod_17() {
    let polys = mat(&[2, 0, 2, 0], 1);
    let out = NaiveCosetLde.lde_batch(polys, 1);
    let got = vals_of(&out.values);
    // Coset points are 3 * g^r for the 8th-root generator g = 9.
    let g: F17 = F17::two_adic_generator(3);
    let shift = NaiveCosetLde.shift::<F17>(3);
    assert_eq!(shift.as_u64(), 3);
    let mut y = shift;
    for r in 0..8 {
        let direct = (y.as_u64() * y.as_u64() + 1) % 17;
        assert_eq!(got[r], direct);
        y = y.mul_elem(g);
    }
}

#[test]
fn arbitrary_extension_linear_polynomial() {
    // f(x) = 2x + 3 evaluated at {0, 1, 2}, extended to {0, ..., 5}.
    let polys = mat(&[3, 5, 7], 1);
    let out = NaiveUndefinedLde.lde_batch(polys, 6);
    assert_eq!(vals_of(&out.top.values), vec![3, 5, 7]);
    assert_eq!(vals_of(&out.bottom.values), vec![9, 11, 13]);
}

#[test]
fn no_op_extension() {
    let polys = mat(&[3, 5, 7], 1);
    let out = NaiveUndefinedLde.lde_batch(polys, 3);
    assert_eq!(vals_of(&out.top.values), vec![3, 5, 7]);
    assert_eq!(out.bottom.values.len(), 0);
    assert_eq!(out.bottom.width, 1);
}

#[test]
fn arbitrary_extension_keeps_rows_verbatim() {
    let polys = mat(&[4, 8, 15, 16, 2, 3], 2);
    let out = NaiveUndefinedLde.lde_batch(polys, 5);
    assert_eq!(vals_of(&out.top.values), vec![4, 8, 15, 16, 2, 3]);
    assert_eq!(out.bottom.values.len(), 4);
}

#[test]
fn subgroup_extension_reproduces_original_rows() {
    // Row i of the input reappears at row i << added_bits of the output.
    let polys = mat(&[5, 7, 11, 13], 1);
    let out = NaiveSubgroupLde.lde_batch(polys, 1);
    let got = vals_of(&out.values);
    assert_eq!(got[0], 5);
    assert_eq!(got[2], 7);
    assert_eq!(got[4], 11);
    assert_eq!(got[6], 13);
}

#[test]
fn subgroup_extension_zero_added_bits_is_identity() {
    let polys = mat(&[5, 7, 11, 13], 1);
    let out = NaiveSubgroupLde.lde_batch(polys, 0);
    assert_eq!(vals_of(&out.values), vec![5, 7, 11, 13]);
}

#[test]
fn subgroup_extension_batch_of_two() {
    // Column 0: f(x) = x^2 + 1; column 1: g(x) = x, both over the 4th
    // roots {1, 13, 16, 4}.
    let polys = mat(&[2, 1, 0, 13, 2, 16, 0, 4], 2);
    let out = NaiveSubgroupLde.lde_batch(polys, 1);
    assert_eq!(out.width, 2);
    let got = vals_of(&out.values);
    let eighth_roots: Vec<u64> = vec![1, 9, 13, 15, 16, 8, 4, 2];
    for r in 0..8 {
        let y = eighth_roots[r];
        assert_eq!(got[2 * r], (y * y + 1) % 17);
        assert_eq!(got[2 * r + 1], y);
    }
}
