//! Checks of the matrix and vector text formats.

use fplll::integer::Z;
use fplll::io::{parse_vector, vector_to_string};
use fplll::matrix::{parse_matrix, MatrixParseError, ZMatrix};
use fplll::rand_util::RandCtx;

fn ints(v: &[i64]) -> Vec<Z> {
    v.iter().map(|x| Z::from_i64(*x)).collect()
}

#[test]
fn matrix_parse_basic() {
    let m = parse_matrix("[[1 2][3 -4]]").unwrap();
    assert_eq!(m.nrows(), 2);
    assert_eq!(m.ncols(), 2);
    assert_eq!(*m.get(1, 1), Z::from_i64(-4));
    let m2 = parse_matrix("  [\n [ 1\t2 ]\r\n[3 -4]\n]\n trailing").unwrap();
    assert_eq!(m2.to_string(), m.to_string());
}

#[test]
fn matrix_text_exact() {
    let m = parse_matrix("[[1 2][3 -4]]").unwrap();
    assert_eq!(m.to_string(), "[\n[1 2]\n[3 -4]\n]");
    assert_eq!(ZMatrix::new().to_string(), "[\n]");
}

#[test]
fn matrix_text_round_trip() {
    let mut rng = RandCtx::new_seeded(9);
    let mut m = ZMatrix::new();
    m.resize(4, 3);
    m.gen_uniform(100, &mut rng);
    m.negate_row(2);
    let back = parse_matrix(&m.to_string()).unwrap();
    assert_eq!(back.nrows(), 4);
    assert_eq!(back.ncols(), 3);
    for i in 0..4 {
        for j in 0..3 {
            assert_eq!(back.get(i, j), m.get(i, j));
        }
    }
}

#[test]
fn matrix_parse_empty() {
    let m = parse_matrix("[]").unwrap();
    assert_eq!(m.nrows(), 0);
    assert_eq!(m.ncols(), 0);
    let m = parse_matrix("[\n]").unwrap();
    assert_eq!(m.nrows(), 0);
    let m = parse_matrix("[[]]").unwrap();
    assert_eq!(m.nrows(), 1);
    assert_eq!(m.ncols(), 0);
}

#[test]
fn matrix_parse_errors() {
    assert_eq!(parse_matrix("").unwrap_err(), "expected '['");
    assert_eq!(parse_matrix("x[").unwrap_err(), "expected '['");
    assert_eq!(parse_matrix("]").unwrap_err(), "expected '['");
    assert_eq!(parse_matrix("[[1 2").unwrap_err(), "missing ']'");
    assert_eq!(parse_matrix("[[1 2][3]]").unwrap_err(), "ragged row: expected 2, got 1");
    assert_eq!(parse_matrix("[[1 2 3][4 5 6][7]]").unwrap_err(), "ragged row: expected 3, got 1");
    assert_eq!(parse_matrix("[[1 x]]").unwrap_err(), "bad int 'x'");
    assert_eq!(parse_matrix("[[1 [2]]]").unwrap_err(), "bad int '['");
    assert_eq!(parse_matrix("[[1 é7]]").unwrap_err(), "bad int 'é7'");
    assert_eq!(parse_matrix("[[1 2] x").unwrap_err(), "expected closing ']'");
    assert_eq!(parse_matrix("[[1 2]").unwrap_err(), "expected closing ']'");
}

#[test]
fn matrix_error_messages() {
    let s = "[[1 ab]]";
    assert_eq!(MatrixParseError::BadInt { start: 4, end: 6 }.message(s), "bad int 'ab'");
    assert_eq!(MatrixParseError::Ragged { expected: 10, got: 0 }.message(s), "ragged row: expected 10, got 0");
    assert_eq!(MatrixParseError::MissingClose.message(s), "missing ']'");
}

#[test]
fn vector_parse_forms() {
    assert_eq!(parse_vector("[1 2 3]").unwrap(), ints(&[1, 2, 3]));
    assert_eq!(parse_vector("1 2 3").unwrap(), ints(&[1, 2, 3]));
    assert_eq!(parse_vector("  [ -5\n6 ]  ").unwrap(), ints(&[-5, 6]));
    assert_eq!(parse_vector("\u{a0}7\u{3000}8\u{2028}").unwrap(), ints(&[7, 8]));
    assert_eq!(parse_vector("[]").unwrap(), ints(&[]));
    assert_eq!(parse_vector("").unwrap(), ints(&[]));
}

#[test]
fn vector_parse_errors() {
    assert_eq!(parse_vector("[1 2").unwrap_err(), "bad int '[1'");
    assert_eq!(parse_vector("1 x 2").unwrap_err(), "bad int 'x'");
    assert_eq!(parse_vector("[").unwrap_err(), "bad int '['");
    assert_eq!(parse_vector("1é").unwrap_err(), "bad int '1é'");
}

#[test]
fn vector_text_exact_and_round_trip() {
    let v = ints(&[1, -2, 30]);
    let t = vector_to_string(&v);
    assert_eq!(t, "[1 -2 30]");
    assert_eq!(parse_vector(&t).unwrap(), v);
    assert_eq!(vector_to_string(&[]), "[]");
}

#[test]
fn matrix_words_may_hold_parse_spaces() {
    // 0x0b is not whitespace between words, but integer parsing skips it.
    let m = parse_matrix("[[1\u{b}2 3_000]]").unwrap();
    assert_eq!(*m.get(0, 0), Z::from_i64(12));
    assert_eq!(*m.get(0, 1), Z::from_i64(3000));
}

#[test]
fn vector_bare_text() {
    let v = ints(&[4, -5, 600]);
    assert_eq!(parse_vector("4 -5 600").unwrap(), v);
    assert_eq!(parse_vector("4\n-5\n600\n").unwrap(), v);
}
