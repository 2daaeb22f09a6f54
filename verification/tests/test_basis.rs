//! Checks of the lattice-preserving basis type.

use fplll::basis::LatticeBasis;
use fplll::integer::Z;
use fplll::matrix::{parse_matrix, ZMatrix};

fn det2(m: &ZMatrix) -> Z {
    let mut ad = Z::zero();
    ad.mul_set(m.get(0, 0), m.get(1, 1));
    let mut bc = Z::zero();
    bc.mul_set(m.get(0, 1), m.get(1, 0));
    let mut d = Z::zero();
    d.sub_set(&ad, &bc);
    d.abs_inplace();
    d
}

#[test]
fn basis_operations_keep_determinant() {
    let m = parse_matrix("[[2 1][7 5]]").unwrap();
    let before = det2(&m);
    let mut b = LatticeBasis::new(m);
    b.row_addmul(1, 0, &Z::from_i64(-3));
    assert_eq!(b.matrix().to_string(), "[\n[2 1]\n[1 2]\n]");
    b.swap_rows(0, 1);
    b.negate_row(1);
    b.row_addmul_2si(1, 0, &Z::from_i64(1), 1);
    b.rotate_left(0, 1);
    b.rotate_right(0, 1);
    b.row_addmul(0, 0, &Z::from_i64(9));
    let out = b.into_matrix();
    assert_eq!(out.to_string(), "[\n[1 2]\n[0 3]\n]");
    assert_eq!(det2(&out), before);
}

#[test]
fn basis_default_is_empty() {
    let b = LatticeBasis::default();
    assert_eq!(b.matrix().nrows(), 0);
}
