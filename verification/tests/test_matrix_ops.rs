//! Checks of the row operations and of the laws that relate them.

use fplll::integer::Z;
use fplll::matrix::{parse_matrix, ZMatrix};

fn m(s: &str) -> ZMatrix {
    parse_matrix(s).unwrap()
}

#[test]
fn transpose_exact_and_twice() {
    let a = m("[[1 2 3][4 5 6]]");
    let mut t = a.clone();
    t.transpose();
    assert_eq!(t.to_string(), "[\n[1 4]\n[2 5]\n[3 6]\n]");
    t.transpose();
    assert_eq!(t.to_string(), a.to_string());
}

#[test]
fn swap_rows_twice_restores() {
    let a = m("[[1 2][3 4][5 6]]");
    let mut b = a.clone();
    b.swap_rows(0, 2);
    assert_eq!(b.to_string(), "[\n[5 6]\n[3 4]\n[1 2]\n]");
    b.swap_rows(0, 2);
    assert_eq!(b.to_string(), a.to_string());
    b.swap_rows(1, 1);
    assert_eq!(b.to_string(), a.to_string());
}

#[test]
fn rotations_undo_each_other() {
    let a = m("[[1][2][3][4]]");
    let mut b = a.clone();
    b.rotate_left(0, 2);
    assert_eq!(b.to_string(), "[\n[2]\n[3]\n[1]\n[4]\n]");
    b.rotate_right(0, 2);
    assert_eq!(b.to_string(), a.to_string());
    b.rotate_right(1, 3);
    assert_eq!(b.to_string(), "[\n[1]\n[4]\n[2]\n[3]\n]");
}

#[test]
fn row_addmul_undone_by_opposite() {
    let a = m("[[1 2 3][4 5 6]]");
    let mut b = a.clone();
    b.row_addmul_vec(0, 1, &Z::from_i64(3), 2);
    assert_eq!(b.to_string(), "[\n[13 17 3]\n[4 5 6]\n]");
    b.row_addmul_vec(0, 1, &Z::from_i64(-3), 2);
    assert_eq!(b.to_string(), a.to_string());
    b.row_addmul_vec(1, 1, &Z::from_i64(7), 3);
    assert_eq!(b.to_string(), a.to_string());
}

#[test]
fn row_addmul_2si_scales() {
    let mut b = m("[[1 1][2 -3]]");
    b.row_addmul_2si_vec(0, 1, &Z::from_i64(3), 2, 2);
    assert_eq!(b.to_string(), "[\n[25 -35]\n[2 -3]\n]");
    b.row_addmul_2si_vec(0, 1, &Z::from_i64(5), -1, 1);
    assert_eq!(b.to_string(), "[\n[29 -35]\n[2 -3]\n]");
}

#[test]
fn negate_row_twice_restores() {
    let a = m("[[1 -2][0 7]]");
    let mut b = a.clone();
    b.negate_row(0);
    assert_eq!(b.to_string(), "[\n[-1 2]\n[0 7]\n]");
    b.negate_row(0);
    assert_eq!(b.to_string(), a.to_string());
}

#[test]
fn resize_and_back() {
    let a = m("[[1 2][3 4]]");
    let mut b = a.clone();
    b.resize(3, 3);
    assert_eq!(b.to_string(), "[\n[1 2 0]\n[3 4 0]\n[0 0 0]\n]");
    b.resize(2, 2);
    assert_eq!(b.to_string(), a.to_string());
    b.resize(1, 1);
    assert_eq!(b.to_string(), "[\n[1]\n]");
}

#[test]
fn fill_set_and_zero() {
    let mut b = ZMatrix::from_dims(2, 3);
    assert_eq!(b.to_string(), "[\n[0 0 0]\n[0 0 0]\n]");
    b.fill(-4);
    assert_eq!(b.to_string(), "[\n[-4 -4 -4]\n[-4 -4 -4]\n]");
    b.set(1, 2, Z::from_i64(9));
    assert_eq!(*b.get(1, 2), Z::from_i64(9));
    b.get_mut(0, 0).set_si(5);
    assert_eq!(b.row(0)[0], Z::from_i64(5));
    b.row_mut(1)[0] = Z::one();
    assert_eq!(*b.get(1, 0), Z::one());
    b.gen_zero(1, 2);
    assert_eq!(b.to_string(), "[\n[0 0]\n]");
    assert!(b.b_row_is_zero(0));
}

#[test]
fn dot_products() {
    let a = m("[[1 2 3][4 -5 6]]");
    assert_eq!(a.row_dot(0, 1), Z::from_i64(12));
    assert_eq!(a.row_dot_trunc(0, 1, 2), Z::from_i64(-6));
    assert_eq!(a.row_dot(1, 1), Z::from_i64(77));
    assert!(!a.b_row_is_zero(1));
}

#[test]
fn max_exponent_of_entries() {
    assert_eq!(m("[[1 -300][4 0]]").max_exp_of_b(), 9);
    assert_eq!(m("[[0 0]]").max_exp_of_b(), 0);
}

#[test]
fn row_combination_is_lattice_vector() {
    let a = m("[[1 2 3][4 5 6][7 8 10]]");
    let v = a.row_combination(0, &[2, 0, -1]);
    assert_eq!(v, vec![Z::from_i64(-5), Z::from_i64(-4), Z::from_i64(-4)]);
    let zero = a.row_combination(0, &[0, 0, 0]);
    assert_eq!(zero, vec![Z::zero(), Z::zero(), Z::zero()]);
    let tail = a.row_combination(1, &[1, -1]);
    assert_eq!(tail, vec![Z::from_i64(-3), Z::from_i64(-3), Z::from_i64(-4)]);
    let none = a.row_combination(3, &[]);
    assert_eq!(none, vec![Z::zero(), Z::zero(), Z::zero()]);
}

#[test]
fn row_dot_is_symmetric() {
    let a = m("[[3 -1 4][1 5 -9][2 6 5]]");
    for i in 0..3 {
        for j in 0..3 {
            assert_eq!(a.row_dot(i, j), a.row_dot(j, i));
        }
    }
}
