//! Checks of the random generator and of the basis generators.

use fplll::integer::Z;
use fplll::matrix::ZMatrix;
use fplll::rand_util::{rand_below, rand_bits, rand_range_i64, range_from_draw, RandCtx};

#[test]
fn rand_ranges() {
    let mut rng = RandCtx::new_seeded(5);
    for _ in 0..200 {
        let v = rand_range_i64(&mut rng, -3, 4);
        assert!((-3..=4).contains(&v));
    }
    assert_eq!(rand_range_i64(&mut rng, 10, 10), 10);
    assert_eq!(rand_range_i64(&mut rng, 10, -10), 10);
    let bound = Z::from_i64(1000);
    for _ in 0..100 {
        let b = rand_bits(&mut rng, 7);
        assert!(b.get_si() >= 0 && b.get_si() < 128);
        let c = rand_below(&mut rng, &bound);
        assert!(c.get_si() >= 0 && c.get_si() < 1000);
    }
    assert!(rand_bits(&mut rng, 0).is_zero());
}

#[test]
fn rand_seed_determines_draws() {
    let mut a = RandCtx::new_seeded(77);
    let mut b = RandCtx::new_seeded(77);
    let mut ma = ZMatrix::from_dims(3, 3);
    let mut mb = ZMatrix::from_dims(3, 3);
    ma.gen_uniform(64, &mut a);
    mb.gen_uniform(64, &mut b);
    assert_eq!(ma.to_string(), mb.to_string());
    let _ = a.state();
}

#[test]
fn gen_q_range() {
    let mut rng = RandCtx::new_seeded(6);
    for bits in 1..20u32 {
        let q = ZMatrix::gen_q(bits, &mut rng);
        let v = q.get_si();
        assert!(v >= 1 << (bits - 1) && v < 1 << bits);
    }
}

#[test]
fn gen_simdioph_structure() {
    let mut rng = RandCtx::new_seeded(7);
    let mut m = ZMatrix::new();
    m.resize(4, 5);
    m.set(2, 4, Z::from_i64(42));
    m.gen_simdioph(10, 20, &mut rng);
    assert_eq!(*m.get(0, 0), Z::from_i64(1 << 20));
    for j in 1..4 {
        let v = m.get(0, j).get_si();
        assert!((0..1 << 10).contains(&v));
    }
    for i in 1..4 {
        for j in 0..4 {
            let e = if i == j { Z::from_i64(1 << 10) } else { Z::zero() };
            assert_eq!(*m.get(i, j), e);
        }
    }
    assert_eq!(*m.get(2, 4), Z::from_i64(42));
}

#[test]
fn gen_ntrulike2_structure() {
    let mut rng = RandCtx::new_seeded(8);
    let d = 3;
    let mut m = ZMatrix::new();
    m.resize(2 * d, 2 * d);
    let q = Z::from_i64(31);
    m.gen_ntrulike2(&q, &mut rng);
    for i in 0..d {
        for j in 0..d {
            let e = if i == j { q.clone() } else { Z::zero() };
            assert_eq!(*m.get(i, j), e);
            assert!(m.get(i, d + j).is_zero());
            let e = if i == j { Z::one() } else { Z::zero() };
            assert_eq!(*m.get(d + i, d + j), e);
            // circulant block: row i is h rotated left by i
            assert_eq!(*m.get(d + i, j), *m.get(d, (i + j) % d));
            let v = m.get(d + i, j).get_si();
            assert!((0..31).contains(&v));
        }
    }
}

#[test]
fn gen_ntrulike_circulant() {
    let mut rng = RandCtx::new_seeded(10);
    let d = 4;
    let mut m = ZMatrix::new();
    m.resize(2 * d + 1, 2 * d + 1);
    m.gen_ntrulike(&Z::from_i64(13), &mut rng);
    for i in 0..d {
        for j in 0..d {
            assert_eq!(*m.get(i, d + j), *m.get(0, d + (i + j) % d));
        }
    }
    for j in 0..2 * d + 1 {
        assert!(m.get(2 * d, j).is_zero());
        assert!(m.get(j, 2 * d).is_zero());
    }
}

#[test]
fn gen_qary_q_block() {
    let mut rng = RandCtx::new_seeded(11);
    let mut m = ZMatrix::new();
    m.resize(5, 5);
    let q = Z::from_i64(7);
    m.gen_qary(2, &q, &mut rng);
    for i in 3..5 {
        for j in 0..5 {
            let e = if i == j { q.clone() } else { Z::zero() };
            assert_eq!(*m.get(i, j), e);
        }
    }
    for i in 0..3 {
        for j in 3..5 {
            let v = m.get(i, j).get_si();
            assert!((0..7).contains(&v));
        }
    }
}

#[test]
fn gen_trg_with_exponents_shape() {
    let mut rng = RandCtx::new_seeded(12);
    let mut m = ZMatrix::new();
    m.resize(4, 4);
    m.gen_trg_with_exponents(&[0, 1, 3, 5], &mut rng);
    assert_eq!(*m.get(0, 0), Z::one());
    assert_eq!(*m.get(3, 3), Z::from_i64(32));
    for i in 0..4 {
        let diag = m.get(i, i).get_si();
        for j in 0..4 {
            let v = m.get(i, j).get_si();
            if j < i {
                assert!(v >= -(diag / 2) && v < diag - diag / 2);
            } else if j > i {
                assert_eq!(v, 0);
            }
        }
    }
    assert!(m.get(1, 0).get_si() == -1 || m.get(1, 0).get_si() == 0);
}

#[test]
fn range_from_draw_offsets() {
    assert_eq!(range_from_draw(-3, 4, &Z::from_i64(5)), 2);
    assert_eq!(range_from_draw(-3, 4, &Z::from_i64(0)), -3);
    assert_eq!(range_from_draw(-3, 4, &Z::from_i64(7)), 4);
    assert_eq!(range_from_draw(100, 200, &Z::from_i64(42)), 142);
}

#[test]
fn gen_uniform_keeps_longer_rows() {
    let mut rng = RandCtx::new_seeded(21);
    let mut m = ZMatrix::from_dims(2, 2);
    m.row_mut(1).push(Z::from_i64(99));
    m.gen_uniform(4, &mut rng);
    assert_eq!(m.row(1).len(), 3);
    assert_eq!(*m.get(1, 2), Z::from_i64(99));
    for i in 0..2 {
        for j in 0..2 {
            let v = m.get(i, j).get_si();
            assert!((0..16).contains(&v));
        }
    }
}

#[test]
fn gen_qary_clears_longer_rows() {
    let mut rng = RandCtx::new_seeded(22);
    let mut m = ZMatrix::new();
    m.resize(3, 3);
    m.row_mut(2).push(Z::from_i64(99));
    let q = Z::from_i64(5);
    m.gen_qary(1, &q, &mut rng);
    assert_eq!(m.row(2).len(), 4);
    assert_eq!(*m.get(2, 2), q);
    assert!(m.get(2, 3).is_zero());
}
