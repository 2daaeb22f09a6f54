//! Lattice bases changed only by unimodular row operations, so that the
//! lattice they generate stays the one of the matrix they were made from.

use vstd::prelude::*;
use crate::integer::{Z, mul_2si_value};
use crate::lattice::{
    Mat, in_lattice, row_addmul_spec, swap_rows_spec, rotate_left_spec,
    rotate_right_spec, negate_row_spec, lemma_row_addmul_preserves_lattice,
    lemma_swap_rows_preserves_lattice, lemma_rotate_left_preserves_lattice,
    lemma_rotate_right_preserves_lattice, lemma_negate_row_preserves_lattice,
};
use crate::matrix::ZMatrix;

verus! {

/// m1 and m2 generate the same lattice of vectors with n entries.
pub open spec fn same_lattice(m1: Mat, m2: Mat, n: nat) -> bool {
    forall|v: Seq<int>| #[trigger] in_lattice(m1, n, v) == in_lattice(m2, n, v)
}

/// A basis together with the matrix it was made from (its origin).
pub struct LatticeBasis {
    b: ZMatrix,
    origin: Ghost<Mat>,
}

impl View for LatticeBasis {
    type V = Mat;

    closed spec fn view(&self) -> Mat {
        self.b@
    }
}

impl LatticeBasis {
    /// The matrix the basis was made from.
    pub closed spec fn origin(&self) -> Mat {
        self.origin@
    }

    /// The number of entries of each row.
    pub closed spec fn width(&self) -> nat {
        self.b.width()
    }

    /// Rectangular, and generating the lattice of its origin.
    pub closed spec fn inv(&self) -> bool {
        &&& self.b.wf()
        &&& same_lattice(self.b@, self.origin@, self.b.width())
    }

    /// A basis generates the lattice of the matrix it was made from: every
    /// operation on it keeps that lattice.
    pub proof fn lemma_lattice_kept(&self)
        requires
            self.inv(),
        ensures
            same_lattice(self@, self.origin(), self.width()),
    {
    }

    /// The basis of the lattice of m, made from m.
    pub fn new(m: ZMatrix) -> (r: LatticeBasis)
        requires
            m.wf(),
        ensures
            r.inv(),
            r@ == m@,
            r.origin() == m@,
            r.width() == m.width(),
    {
        let ghost o = m@;
        LatticeBasis { b: m, origin: Ghost(o) }
    }

    /// The matrix of the basis; it generates the lattice of the origin.
    pub fn into_matrix(self) -> (r: ZMatrix)
        requires
            self.inv(),
        ensures
            r@ == self@,
            r.wf(),
            r.width() == self.width(),
            same_lattice(r@, self.origin(), self.width()),
    {
        self.b
    }

    /// The matrix of the basis, to read it.
    pub fn matrix(&self) -> (r: &ZMatrix)
        ensures
            r@ == self@,
            r.width() == self.width(),
            self.inv() ==> r.wf(),
    {
        &self.b
    }

    /// b[i] += x * b[j] on every entry (nothing when i == j).
    pub fn row_addmul(&mut self, i: usize, j: usize, x: &Z)
        requires
            old(self).inv(),
            i < old(self)@.len(),
            j < old(self)@.len(),
        ensures
            final(self).inv(),
            final(self)@ == (if i == j {
                old(self)@
            } else {
                row_addmul_spec(old(self)@, i as int, j as int, x@, old(self).width() as int)
            }),
            final(self).origin() == old(self).origin(),
            final(self).width() == old(self).width(),
    {
        let n = self.b.ncols();
        let ghost m = self.b@;
        self.b.row_addmul_vec(i, j, x, n);
        proof {
            if i != j {
                assert forall|v: Seq<int>| #[trigger] in_lattice(self.b@, n as nat, v) == in_lattice(
                    self.origin@,
                    n as nat,
                    v,
                ) by {
                    lemma_row_addmul_preserves_lattice(m, n as nat, i as int, j as int, x@, v);
                    assert(in_lattice(m, n as nat, v) == in_lattice(self.origin@, n as nat, v));
                }
            }
        }
    }

    /// b[i] += (x * 2^e) * b[j] on every entry (see `Z::mul_2si`; nothing when i == j).
    pub fn row_addmul_2si(&mut self, i: usize, j: usize, x: &Z, e: i64)
        requires
            old(self).inv(),
            i < old(self)@.len(),
            j < old(self)@.len(),
            e != i64::MIN,
        ensures
            final(self).inv(),
            final(self)@ == (if i == j {
                old(self)@
            } else {
                row_addmul_spec(old(self)@, i as int, j as int, mul_2si_value(x@, e), old(self).width() as int)
            }),
            final(self).origin() == old(self).origin(),
            final(self).width() == old(self).width(),
    {
        let n = self.b.ncols();
        let ghost m = self.b@;
        self.b.row_addmul_2si_vec(i, j, x, e, n);
        proof {
            if i != j {
                assert forall|v: Seq<int>| #[trigger] in_lattice(self.b@, n as nat, v) == in_lattice(
                    self.origin@,
                    n as nat,
                    v,
                ) by {
                    lemma_row_addmul_preserves_lattice(m, n as nat, i as int, j as int, mul_2si_value(x@, e), v);
                    assert(in_lattice(m, n as nat, v) == in_lattice(self.origin@, n as nat, v));
                }
            }
        }
    }

    /// Exchanges rows a and b.
    pub fn swap_rows(&mut self, a: usize, b: usize)
        requires
            old(self).inv(),
            a < old(self)@.len(),
            b < old(self)@.len(),
        ensures
            final(self).inv(),
            final(self)@ == (if a == b {
                old(self)@
            } else {
                swap_rows_spec(old(self)@, a as int, b as int)
            }),
            final(self).origin() == old(self).origin(),
            final(self).width() == old(self).width(),
    {
        let n = self.b.ncols();
        let ghost m = self.b@;
        self.b.swap_rows(a, b);
        proof {
            if a != b {
                assert forall|v: Seq<int>| #[trigger] in_lattice(self.b@, n as nat, v) == in_lattice(
                    self.origin@,
                    n as nat,
                    v,
                ) by {
                    lemma_swap_rows_preserves_lattice(m, n as nat, a as int, b as int, v);
                    assert(in_lattice(m, n as nat, v) == in_lattice(self.origin@, n as nat, v));
                }
            }
        }
    }

    /// (b[first], ..., b[last]) -> (b[first+1], ..., b[last], b[first])
    pub fn rotate_left(&mut self, first: usize, last: usize)
        requires
            old(self).inv(),
            first < last ==> last < old(self)@.len(),
        ensures
            final(self).inv(),
            final(self)@ == rotate_left_spec(old(self)@, first as int, last as int),
            final(self).origin() == old(self).origin(),
            final(self).width() == old(self).width(),
    {
        let n = self.b.ncols();
        let ghost m = self.b@;
        self.b.rotate_left(first, last);
        proof {
            assert forall|v: Seq<int>| #[trigger] in_lattice(self.b@, n as nat, v) == in_lattice(
                self.origin@,
                n as nat,
                v,
            ) by {
                lemma_rotate_left_preserves_lattice(m, n as nat, first as int, last as int, v);
                assert(in_lattice(m, n as nat, v) == in_lattice(self.origin@, n as nat, v));
            }
        }
    }

    /// (b[first], ..., b[last]) -> (b[last], b[first], ..., b[last-1])
    pub fn rotate_right(&mut self, first: usize, last: usize)
        requires
            old(self).inv(),
            first < last ==> last < old(self)@.len(),
        ensures
            final(self).inv(),
            final(self)@ == rotate_right_spec(old(self)@, first as int, last as int),
            final(self).origin() == old(self).origin(),
            final(self).width() == old(self).width(),
    {
        let n = self.b.ncols();
        let ghost m = self.b@;
        self.b.rotate_right(first, last);
        proof {
            assert forall|v: Seq<int>| #[trigger] in_lattice(self.b@, n as nat, v) == in_lattice(
                self.origin@,
                n as nat,
                v,
            ) by {
                lemma_rotate_right_preserves_lattice(m, n as nat, first as int, last as int, v);
                assert(in_lattice(m, n as nat, v) == in_lattice(self.origin@, n as nat, v));
            }
        }
    }

    /// b[i] = -b[i]
    pub fn negate_row(&mut self, i: usize)
        requires
            old(self).inv(),
            i < old(self)@.len(),
        ensures
            final(self).inv(),
            final(self)@ == negate_row_spec(old(self)@, i as int),
            final(self).origin() == old(self).origin(),
            final(self).width() == old(self).width(),
    {
        let n = self.b.ncols();
        let ghost m = self.b@;
        self.b.negate_row(i);
        proof {
            assert forall|v: Seq<int>| #[trigger] in_lattice(self.b@, n as nat, v) == in_lattice(
                self.origin@,
                n as nat,
                v,
            ) by {
                lemma_negate_row_preserves_lattice(m, n as nat, i as int, v);
                assert(in_lattice(m, n as nat, v) == in_lattice(self.origin@, n as nat, v));
            }
        }
    }
}

impl Default for LatticeBasis {
    /// The basis of the empty lattice, made from the empty matrix.
    fn default() -> (r: LatticeBasis)
        ensures
            r.inv(),
            r@ == Seq::<Seq<int>>::empty(),
    {
        let m = ZMatrix::new();
        proof {
            assert(m.wf());
        }
        LatticeBasis::new(m)
    }
}

} // verus!
