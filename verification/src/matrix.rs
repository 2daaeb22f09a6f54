//! Row-major integer matrices: lattice bases given by their row vectors.

use vstd::prelude::*;
use crate::integer::{Z, mul_2si_value};
pub use crate::text::{parse_matrix, MatrixParseError};
use crate::lattice::{
    Mat, comb_entry, combination, in_lattice, swap_rows_spec, rotate_left_spec, rotate_right_spec, row_addmul_spec, negate_row_spec,
    transpose_spec, row_dot_spec, resize_spec, fill_spec, identity_spec,
};

verus! {

/// The integers held by a row.
pub open spec fn row_ints(r: Seq<Z>) -> Seq<int> {
    r.map_values(|z: Z| z@)
}

/// A row of a `ZMatrix`.
pub type ZRow = Vec<Z>;

/// Row-major integer matrix.
#[derive(Clone, Debug)]
pub struct ZMatrix {
    rows: Vec<ZRow>,
    ncols: usize,
}

impl View for ZMatrix {
    type V = Mat;

    closed spec fn view(&self) -> Mat {
        self.rows@.map_values(|r: ZRow| row_ints(r@))
    }
}

impl ZMatrix {
    /// The number of columns the matrix declares.
    pub closed spec fn width(&self) -> nat {
        self.ncols as nat
    }

    /// Every row has `width()` entries.
    pub open spec fn wf(&self) -> bool {
        forall|i: int| 0 <= i < self@.len() ==> #[trigger] self@[i].len() == self.width()
    }

    /// Every row has at least `width()` entries.
    pub open spec fn covers_width(&self) -> bool {
        forall|i: int| 0 <= i < self@.len() ==> #[trigger] self@[i].len() >= self.width()
    }

    proof fn lemma_view(&self)
        ensures
            self@.len() == self.rows.len(),
            forall|i: int| 0 <= i < self.rows.len() ==> #[trigger] self@[i] == row_ints(self.rows[i]@),
            forall|i: int, j: int|
                0 <= i < self.rows.len() && 0 <= j < self.rows[i]@.len() ==> (#[trigger] self@[i][j])
                    == self.rows[i]@[j]@ && self@[i].len() == self.rows[i]@.len(),
    {
    }

    /// The empty 0 x 0 matrix.
    pub fn new() -> (r: ZMatrix)
        ensures
            r@ == Seq::<Seq<int>>::empty(),
            r.width() == 0,
    {
        let r = ZMatrix { rows: Vec::new(), ncols: 0 };
        proof {
            assert(r@ =~= Seq::<Seq<int>>::empty());
        }
        r
    }

    /// A row of `c` zeros.
    fn zero_row(c: usize) -> (r: ZRow)
        ensures
            row_ints(r@) == Seq::new(c as nat, |j: int| 0int),
    {
        let mut row: ZRow = Vec::new();
        let mut j: usize = 0;
        while j < c
            invariant
                j <= c,
                row@.len() == j,
                forall|k: int| 0 <= k < j ==> (#[trigger] row@[k])@ == 0,
            decreases c - j,
        {
            row.push(Z::zero());
            j = j + 1;
        }
        proof {
            assert(row_ints(row@) =~= Seq::new(c as nat, |j: int| 0int));
        }
        row
    }

    /// The r x c zero matrix.
    pub fn from_dims(r: usize, c: usize) -> (m: ZMatrix)
        ensures
            m@ == Seq::new(r as nat, |i: int| Seq::new(c as nat, |j: int| 0int)),
            m.width() == c,
            m.wf(),
    {
        let mut rows: Vec<ZRow> = Vec::new();
        let mut i: usize = 0;
        while i < r
            invariant
                i <= r,
                rows@.len() == i,
                forall|k: int| 0 <= k < i ==> row_ints((#[trigger] rows@[k])@) == Seq::new(
                    c as nat,
                    |j: int| 0int,
                ),
            decreases r - i,
        {
            rows.push(ZMatrix::zero_row(c));
            i = i + 1;
        }
        let m = ZMatrix { rows, ncols: c };
        proof {
            assert(m@ =~= Seq::new(r as nat, |i: int| Seq::new(c as nat, |j: int| 0int)));
        }
        m
    }

    /// The matrix with the given rows and declared number of columns.
    pub(crate) fn from_rows(rows: Vec<ZRow>, ncols: usize) -> (m: ZMatrix)
        ensures
            m@ == rows@.map_values(|r: ZRow| row_ints(r@)),
            m.width() == ncols,
    {
        ZMatrix { rows, ncols }
    }

    pub fn nrows(&self) -> (r: usize)
        ensures
            r == self@.len(),
    {
        self.rows.len()
    }

    pub fn ncols(&self) -> (r: usize)
        ensures
            r == self.width(),
    {
        self.ncols
    }

    /// Changes the shape to r x c: rows and columns beyond the new bounds are
    /// dropped, new entries are zero.
    pub fn resize(&mut self, r: usize, c: usize)
        ensures
            final(self)@ == resize_spec(old(self)@, r as nat, c as nat),
            final(self).width() == c,
            final(self).wf(),
    {
        self.ncols = c;
        if self.rows.len() > r {
            self.rows.truncate(r);
        }
        let ghost kept = self@;
        let n = self.rows.len();
        let mut i: usize = 0;
        while i < n
            invariant
                n == self.rows.len(),
                n <= r,
                i <= n,
                self.ncols == c,
                kept.len() == n,
                forall|k: int| 0 <= k < i ==> #[trigger] self@[k] == resize_spec(kept, r as nat, c as nat)[k],
                forall|k: int| i <= k < n ==> #[trigger] self@[k] == kept[k],
            decreases n - i,
        {
            proof {
                self.lemma_view();
            }
            let ghost before = self@;
            let ghost orig = self.rows[i as int];
            assert(before[i as int] == kept[i as int]);
            assert(before[i as int] == row_ints(orig@));
            let mut row = Vec::new();
            std::mem::swap(&mut row, &mut self.rows[i]);
            assert(row == orig);
            ZMatrix::resize_row(&mut row, c);
            let ghost resized = row;
            std::mem::swap(&mut row, &mut self.rows[i]);
            assert(self.rows[i as int] == resized);
            proof {
                self.lemma_view();

                assert(self@[i as int] =~= resize_spec(kept, r as nat, c as nat)[i as int]);
                assert forall|k: int| 0 <= k < n && k != i implies #[trigger] self@[k] == before[k] by {
                }
            }
            i = i + 1;
        }
        while self.rows.len() < r
            invariant
                n <= self.rows.len() <= r,
                self.ncols == c,
                kept.len() == n,
                forall|k: int| 0 <= k < self.rows.len() ==> #[trigger] self@[k] == resize_spec(kept, r as nat, c as nat)[k],
            decreases r - self.rows.len(),
        {
            proof {
                self.lemma_view();
            }
            let ghost prev = self@;
            let ghost prev_rows = self.rows@;
            let row = ZMatrix::zero_row(c);
            self.rows.push(row);
            proof {
                self.lemma_view();
                assert forall|k: int| 0 <= k < prev.len() implies #[trigger] self@[k] == prev[k] by {
                    assert(self.rows@[k] == prev_rows[k]);
                }
                let k = self.rows.len() - 1;
                assert(self@[k] =~= resize_spec(kept, r as nat, c as nat)[k]);
            }
        }
        proof {
            self.lemma_view();
            assert(self@ =~= resize_spec(kept, r as nat, c as nat));
            assert(resize_spec(kept, r as nat, c as nat) == resize_spec(old(self)@, r as nat, c as nat));
        }
    }

    /// Truncates or zero-extends one row to length c.
    fn resize_row(row: &mut ZRow, c: usize)
        ensures
            row_ints(final(row)@) == Seq::new(
                c as nat,
                |j: int| if j < old(row)@.len() { old(row)@[j]@ } else { 0int },
            ),
    {
        if row.len() > c {
            row.truncate(c);
        }
        let ghost kept = row@;
        while row.len() < c
            invariant
                row@.len() <= c,
                kept.len() <= row@.len(),
                kept.len() <= old(row)@.len(),
                forall|j: int| 0 <= j < kept.len() ==> #[trigger] kept[j] == old(row)@[j],
                kept.len() < c ==> kept.len() == old(row)@.len(),
                forall|j: int| 0 <= j < kept.len() ==> #[trigger] row@[j] == kept[j],
                forall|j: int| kept.len() <= j < row@.len() ==> (#[trigger] row@[j])@ == 0,
            decreases c - row@.len(),
        {
            row.push(Z::zero());
        }
        proof {
            assert(row_ints(row@) =~= Seq::new(
                c as nat,
                |j: int| if j < old(row)@.len() { old(row)@[j]@ } else { 0int },
            ));
        }
    }
}


impl ZMatrix {
    /// Row i.
    pub fn row(&self, i: usize) -> (r: &ZRow)
        requires
            i < self@.len(),
        ensures
            row_ints(r@) == self@[i as int],
    {
        proof {
            self.lemma_view();
        }
        &self.rows[i]
    }

    /// Row i, for in-place changes.
    pub fn row_mut(&mut self, i: usize) -> (r: &mut ZRow)
        requires
            i < old(self)@.len(),
        ensures
            row_ints(r@) == old(self)@[i as int],
            final(self)@ == old(self)@.update(i as int, row_ints(final(r)@)),
            final(self).width() == old(self).width(),
    {
        proof {
            self.lemma_view();
        }
        let ghost old_rows = self.rows@;
        &mut self.rows[i]
    }

    /// Entry (i, j).
    pub fn get(&self, i: usize, j: usize) -> (r: &Z)
        requires
            i < self@.len(),
            j < self@[i as int].len(),
        ensures
            r@ == self@[i as int][j as int],
    {
        proof {
            self.lemma_view();
        }
        &self.rows[i][j]
    }

    /// Entry (i, j), for in-place changes.
    pub fn get_mut(&mut self, i: usize, j: usize) -> (r: &mut Z)
        requires
            i < old(self)@.len(),
            j < old(self)@[i as int].len(),
        ensures
            r@ == old(self)@[i as int][j as int],
            final(self)@ =~~= old(self)@.update(
                i as int,
                old(self)@[i as int].update(j as int, final(r)@),
            ),
            final(self).width() == old(self).width(),
    {
        proof {
            self.lemma_view();
        }
        let ghost old_rows = self.rows@;
        let ghost old_row = self.rows@[i as int]@;
        &mut self.rows[i][j]
    }

    /// Entry (i, j) set to v.
    pub fn set(&mut self, i: usize, j: usize, v: Z)
        requires
            i < old(self)@.len(),
            j < old(self)@[i as int].len(),
        ensures
            final(self)@ == old(self)@.update(i as int, old(self)@[i as int].update(j as int, v@)),
            final(self).width() == old(self).width(),
    {
        proof {
            self.lemma_view();
        }
        let ghost old_rows = self.rows@;
        self.rows[i][j] = v;
        proof {
            self.lemma_view();
            assert(self@ =~~= old(self)@.update(i as int, old(self)@[i as int].update(j as int, v@)));
        }
    }
}


/// The largest bit length of an entry of m (0 when every entry is zero).
pub open spec fn max_entry_bits(m: Mat, r: int) -> bool {
    &&& r >= 0
    &&& forall|i: int, j: int|
        0 <= i < m.len() && 0 <= j < m[i].len() ==> crate::integer::bit_length(
            crate::integer::abs_int(#[trigger] m[i][j]) as nat,
        ) <= r
    &&& (r == 0 || exists|i: int, j: int|
        0 <= i < m.len() && 0 <= j < m[i].len() && crate::integer::bit_length(
            crate::integer::abs_int(#[trigger] m[i][j]) as nat,
        ) == r)
}

/// Exchanges rows a and b of a vector of rows.
fn swap_vec_rows(rows: &mut Vec<ZRow>, a: usize, b: usize)
    requires
        a < old(rows)@.len(),
        b < old(rows)@.len(),
        a != b,
    ensures
        final(rows)@ == old(rows)@.update(a as int, old(rows)@[b as int]).update(
            b as int,
            old(rows)@[a as int],
        ),
{
    let mut tmp: ZRow = Vec::new();
    std::mem::swap(&mut tmp, &mut rows[a]);
    std::mem::swap(&mut tmp, &mut rows[b]);
    std::mem::swap(&mut tmp, &mut rows[a]);
    proof {
        assert(rows@ =~= old(rows)@.update(a as int, old(rows)@[b as int]).update(
            b as int,
            old(rows)@[a as int],
        ));
    }
}

impl ZMatrix {
    /// Every entry set to value.
    pub fn fill(&mut self, value: i64)
        ensures
            final(self)@ == fill_spec(old(self)@, value as int),
            final(self).width() == old(self).width(),
    {
        let n = self.rows.len();
        let mut i: usize = 0;
        while i < n
            invariant
                n == self@.len() == old(self)@.len(),
                i <= n,
                self.width() == old(self).width(),
                forall|k: int| 0 <= k < i ==> #[trigger] self@[k] == fill_spec(old(self)@, value as int)[k],
                forall|k: int| i <= k < n ==> #[trigger] self@[k] == old(self)@[k],
            decreases n - i,
        {
            proof {
                self.lemma_view();
            }
            let c = self.rows[i].len();
            let mut j: usize = 0;
            while j < c
                invariant
                    n == self@.len() == old(self)@.len(),
                    i < n,
                    c == self@[i as int].len() == old(self)@[i as int].len(),
                    j <= c,
                    self.width() == old(self).width(),
                    forall|k: int| 0 <= k < i ==> #[trigger] self@[k] == fill_spec(old(self)@, value as int)[k],
                    forall|k: int| i < k < n ==> #[trigger] self@[k] == old(self)@[k],
                    forall|l: int| 0 <= l < j ==> #[trigger] self@[i as int][l] == value,
                    forall|l: int| j <= l < c ==> #[trigger] self@[i as int][l] == old(self)@[i as int][l],
                decreases c - j,
            {
                self.set(i, j, Z::from_i64(value));
                j = j + 1;
            }
            proof {
                assert(self@[i as int] =~= fill_spec(old(self)@, value as int)[i as int]);
            }
            i = i + 1;
        }
        proof {
            assert(self@ =~= fill_spec(old(self)@, value as int));
        }
    }

    /// Exchanges rows a and b.
    pub fn swap_rows(&mut self, a: usize, b: usize)
        requires
            a != b ==> a < old(self)@.len() && b < old(self)@.len(),
        ensures
            final(self)@ == (if a == b {
                old(self)@
            } else {
                swap_rows_spec(old(self)@, a as int, b as int)
            }),
            final(self).width() == old(self).width(),
    {
        if a != b {
            proof {
                self.lemma_view();
            }
            swap_vec_rows(&mut self.rows, a, b);
            proof {
                self.lemma_view();
                assert(self@ =~= swap_rows_spec(old(self)@, a as int, b as int));
            }
        }
    }

    /// (m[first], ..., m[last]) -> (m[first+1], ..., m[last], m[first])
    pub fn rotate_left(&mut self, first: usize, last: usize)
        requires
            first < last ==> last < old(self)@.len(),
        ensures
            final(self)@ == rotate_left_spec(old(self)@, first as int, last as int),
            final(self).width() == old(self).width(),
    {
        let mut i = first;
        while i < last
            invariant
                first <= i,
                first < last ==> i <= last,
                first < last ==> last < old(self)@.len(),
                self@.len() == old(self)@.len(),
                self.width() == old(self).width(),
                forall|k: int| first <= k < i ==> #[trigger] self@[k] == old(self)@[k + 1],
                first < last ==> self@[i as int] == old(self)@[first as int],
                first >= last ==> self@ == old(self)@,
                forall|k: int|
                    0 <= k < self@.len() && (k < first || k > i) ==> #[trigger] self@[k] == old(self)@[k],
            decreases last - i,
        {
            self.swap_rows(i, i + 1);
            i = i + 1;
        }
        proof {
            assert(self@ =~= rotate_left_spec(old(self)@, first as int, last as int));
        }
    }

    /// (m[first], ..., m[last]) -> (m[last], m[first], ..., m[last-1])
    pub fn rotate_right(&mut self, first: usize, last: usize)
        requires
            first < last ==> last < old(self)@.len(),
        ensures
            final(self)@ == rotate_right_spec(old(self)@, first as int, last as int),
            final(self).width() == old(self).width(),
    {
        let mut i = last;
        while i > first
            invariant
                first < last ==> first <= i <= last,
                first >= last ==> i == last,
                first < last ==> last < old(self)@.len(),
                self@.len() == old(self)@.len(),
                self.width() == old(self).width(),
                forall|k: int| i < k <= last ==> #[trigger] self@[k] == old(self)@[k - 1],
                first < last ==> self@[i as int] == old(self)@[last as int],
                first >= last ==> self@ == old(self)@,
                forall|k: int|
                    0 <= k < self@.len() && (k < i || k > last) ==> #[trigger] self@[k] == old(self)@[k],
            decreases i,
        {
            self.swap_rows(i, i - 1);
            i = i - 1;
        }
        proof {
            assert(self@ =~= rotate_right_spec(old(self)@, first as int, last as int));
        }
    }

    /// The d x n zero matrix.
    pub fn gen_zero(&mut self, d: usize, n: usize)
        ensures
            final(self)@ == Seq::new(d as nat, |i: int| Seq::new(n as nat, |j: int| 0int)),
            final(self).width() == n,
            final(self).wf(),
    {
        self.resize(d, n);
        self.fill(0);
        proof {
            assert(self@ =~= Seq::new(d as nat, |i: int| Seq::new(n as nat, |j: int| 0int)));
        }
    }

    /// The d x d identity matrix.
    pub fn gen_identity(&mut self, d: usize)
        ensures
            final(self)@ == identity_spec(d as nat),
            final(self).width() == d,
            final(self).wf(),
    {
        self.gen_zero(d, d);
        let mut i: usize = 0;
        while i < d
            invariant
                i <= d,
                self.width() == d,
                self@.len() == d,
                forall|k: int| 0 <= k < d ==> #[trigger] self@[k].len() == d,
                forall|k: int, l: int|
                    0 <= k < d && 0 <= l < d ==> #[trigger] self@[k][l] == (if k == l && k < i {
                        1int
                    } else {
                        0int
                    }),
            decreases d - i,
        {
            self.set(i, i, Z::one());
            i = i + 1;
        }
        proof {
            assert(self@ =~~= identity_spec(d as nat));
        }
    }
}


impl ZMatrix {
    /// Replaces the matrix by its transpose (of its first `width()` columns).
    pub fn transpose(&mut self)
        requires
            forall|i: int| 0 <= i < old(self)@.len() ==> #[trigger] old(self)@[i].len() >= old(self).width(),
        ensures
            final(self)@ == transpose_spec(old(self)@, old(self).width()),
            final(self).width() == old(self)@.len(),
            final(self).wf(),
    {
        let r = self.nrows();
        let c = self.ncols();
        let mut nm = ZMatrix::from_dims(c, r);
        let mut i: usize = 0;
        while i < r
            invariant
                r == self@.len(),
                c == self.width(),
                forall|k: int| 0 <= k < r ==> #[trigger] self@[k].len() >= c,
                i <= r,
                nm@.len() == c,
                nm.width() == r,
                nm.wf(),
                forall|jj: int, ii: int|
                    0 <= jj < c && 0 <= ii < r ==> #[trigger] nm@[jj][ii] == (if ii < i {
                        self@[ii][jj]
                    } else {
                        0int
                    }),
            decreases r - i,
        {
            let mut j: usize = 0;
            while j < c
                invariant
                    r == self@.len(),
                    c == self.width(),
                    forall|k: int| 0 <= k < r ==> #[trigger] self@[k].len() >= c,
                    i < r,
                    j <= c,
                    nm@.len() == c,
                    nm.width() == r,
                    nm.wf(),
                    forall|jj: int, ii: int|
                        0 <= jj < c && 0 <= ii < r ==> #[trigger] nm@[jj][ii] == (if ii < i || (ii
                            == i && jj < j) {
                            self@[ii][jj]
                        } else {
                            0int
                        }),
                decreases c - j,
            {
                let v = self.get(i, j).clone();
                nm.set(j, i, v);
                j = j + 1;
            }
            i = i + 1;
        }
        *self = nm;
        proof {
            assert(self@ =~~= transpose_spec(old(self)@, old(self).width()));
        }
    }

    /// true when every entry of row i is zero.
    pub fn b_row_is_zero(&self, i: usize) -> (r: bool)
        requires
            i < self@.len(),
        ensures
            r == (forall|k: int| 0 <= k < self@[i as int].len() ==> self@[i as int][k] == 0),
    {
        proof {
            self.lemma_view();
        }
        let n = self.rows[i].len();
        let mut k: usize = 0;
        while k < n
            invariant
                i < self@.len(),
                n == self@[i as int].len(),
                k <= n,
                forall|l: int| 0 <= l < k ==> self@[i as int][l] == 0,
            decreases n - k,
        {
            if !self.get(i, k).is_zero() {
                return false;
            }
            k = k + 1;
        }
        true
    }

    /// Sum over k < n of b[i][k] * b[j][k].
    pub fn row_dot_trunc(&self, i: usize, j: usize, n: usize) -> (r: Z)
        requires
            i < self@.len(),
            j < self@.len(),
            n <= self@[i as int].len(),
            n <= self@[j as int].len(),
        ensures
            r@ == row_dot_spec(self@[i as int], self@[j as int], n as nat),
    {
        let mut out = Z::zero();
        let mut k: usize = 0;
        while k < n
            invariant
                i < self@.len(),
                j < self@.len(),
                n <= self@[i as int].len(),
                n <= self@[j as int].len(),
                k <= n,
                out@ == row_dot_spec(self@[i as int], self@[j as int], k as nat),
            decreases n - k,
        {
            out.addmul(self.get(i, k), self.get(j, k));
            k = k + 1;
        }
        out
    }

    /// Dot product of rows i and j over the first `width()` columns.
    pub fn row_dot(&self, i: usize, j: usize) -> (r: Z)
        requires
            i < self@.len(),
            j < self@.len(),
            self.width() <= self@[i as int].len(),
            self.width() <= self@[j as int].len(),
        ensures
            r@ == row_dot_spec(self@[i as int], self@[j as int], self.width()),
    {
        self.row_dot_trunc(i, j, self.ncols)
    }

    /// b[i] += x * b[j] on the first n entries (nothing when i == j).
    pub fn row_addmul_vec(&mut self, i: usize, j: usize, x: &Z, n: usize)
        requires
            i != j ==> i < old(self)@.len() && j < old(self)@.len() && n <= old(self)@[i as int].len()
                && n <= old(self)@[j as int].len(),
        ensures
            final(self)@ == (if i == j {
                old(self)@
            } else {
                row_addmul_spec(old(self)@, i as int, j as int, x@, n as int)
            }),
            final(self).width() == old(self).width(),
    {
        if i == j {
            return;
        }
        let mut k: usize = 0;
        while k < n
            invariant
                i != j,
                i < self@.len() == old(self)@.len(),
                j < self@.len(),
                n <= old(self)@[i as int].len(),
                n <= old(self)@[j as int].len(),
                k <= n,
                self.width() == old(self).width(),
                forall|l: int| 0 <= l < self@.len() && l != i ==> #[trigger] self@[l] == old(self)@[l],
                self@[i as int].len() == old(self)@[i as int].len(),
                forall|l: int|
                    0 <= l < self@[i as int].len() ==> #[trigger] self@[i as int][l] == (if l < k {
                        old(self)@[i as int][l] + x@ * old(self)@[j as int][l]
                    } else {
                        old(self)@[i as int][l]
                    }),
            decreases n - k,
        {
            let mut e = self.get(i, k).clone();
            e.addmul(x, self.get(j, k));
            self.set(i, k, e);
            k = k + 1;
        }
        proof {
            assert(self@ =~~= row_addmul_spec(old(self)@, i as int, j as int, x@, n as int));
        }
    }

    /// b[i] += (x * 2^e) * b[j] on the first n entries (nothing when i == j),
    /// with x * 2^e as `Z::mul_2si` computes it.
    pub fn row_addmul_2si_vec(&mut self, i: usize, j: usize, x: &Z, e: i64, n: usize)
        requires
            e != i64::MIN,
            i != j ==> i < old(self)@.len() && j < old(self)@.len() && n <= old(self)@[i as int].len()
                && n <= old(self)@[j as int].len(),
        ensures
            final(self)@ == (if i == j {
                old(self)@
            } else {
                row_addmul_spec(old(self)@, i as int, j as int, mul_2si_value(x@, e), n as int)
            }),
            final(self).width() == old(self).width(),
    {
        if i == j {
            return;
        }
        let mut scaled = Z::zero();
        scaled.mul_2si(x, e);
        self.row_addmul_vec(i, j, &scaled, n);
    }

    /// b[i] = -b[i]
    pub fn negate_row(&mut self, i: usize)
        requires
            i < old(self)@.len(),
        ensures
            final(self)@ == negate_row_spec(old(self)@, i as int),
            final(self).width() == old(self).width(),
    {
        proof {
            self.lemma_view();
        }
        let n = self.rows[i].len();
        let mut k: usize = 0;
        while k < n
            invariant
                i < self@.len() == old(self)@.len(),
                n == old(self)@[i as int].len() == self@[i as int].len(),
                k <= n,
                self.width() == old(self).width(),
                forall|l: int| 0 <= l < self@.len() && l != i ==> #[trigger] self@[l] == old(self)@[l],
                forall|l: int|
                    0 <= l < n ==> #[trigger] self@[i as int][l] == (if l < k {
                        -old(self)@[i as int][l]
                    } else {
                        old(self)@[i as int][l]
                    }),
            decreases n - k,
        {
            let mut e = self.get(i, k).clone();
            e.neg_inplace();
            self.set(i, k, e);
            k = k + 1;
        }
        proof {
            assert(self@ =~~= negate_row_spec(old(self)@, i as int));
        }
    }

    /// The largest bit length of an entry (0 when all entries are zero).
    pub fn max_exp_of_b(&self) -> (r: i64)
        requires
            forall|i: int, j: int|
                0 <= i < self@.len() && 0 <= j < self@[i].len() ==> crate::integer::bit_length(
                    crate::integer::abs_int(#[trigger] self@[i][j]) as nat,
                ) <= u32::MAX,
        ensures
            max_entry_bits(self@, r as int),
    {
        proof {
            self.lemma_view();
        }
        let mut m: i64 = 0;
        let nr = self.rows.len();
        let mut i: usize = 0;
        while i < nr
            invariant
                nr == self@.len(),
                i <= nr,
                0 <= m <= u32::MAX,
                forall|a: int, b: int|
                    0 <= a < self@.len() && 0 <= b < self@[a].len() ==> crate::integer::bit_length(
                        crate::integer::abs_int(#[trigger] self@[a][b]) as nat,
                    ) <= u32::MAX,

                forall|a: int, b: int|
                    0 <= a < i && 0 <= b < self@[a].len() ==> crate::integer::bit_length(
                        crate::integer::abs_int(#[trigger] self@[a][b]) as nat,
                    ) <= m,
                m == 0 || exists|a: int, b: int|
                    0 <= a < i && 0 <= b < self@[a].len() && crate::integer::bit_length(
                        crate::integer::abs_int(#[trigger] self@[a][b]) as nat,
                    ) == m,
            decreases nr - i,
        {
            proof {
                self.lemma_view();
            }
            let nc = self.rows[i].len();
            let mut j: usize = 0;
            while j < nc
                invariant
                    nr == self@.len(),
                    i < nr,
                    nc == self@[i as int].len(),
                    j <= nc,
                    0 <= m <= u32::MAX,
                forall|a: int, b: int|
                    0 <= a < self@.len() && 0 <= b < self@[a].len() ==> crate::integer::bit_length(
                        crate::integer::abs_int(#[trigger] self@[a][b]) as nat,
                    ) <= u32::MAX,

                    forall|a: int, b: int|
                        0 <= a < self@.len() && 0 <= b < self@[a].len() && (a < i || (a == i && b
                            < j)) ==> crate::integer::bit_length(
                            crate::integer::abs_int(#[trigger] self@[a][b]) as nat,
                        ) <= m,
                    m == 0 || exists|a: int, b: int|
                        0 <= a < self@.len() && 0 <= b < self@[a].len() && (a < i || (a == i && b
                            < j)) && crate::integer::bit_length(
                            crate::integer::abs_int(#[trigger] self@[a][b]) as nat,
                        ) == m,
                decreases nc - j,
            {
                let v = self.get(i, j);
                if !v.is_zero() {
                    let b = v.significant_bits() as i64;
                    if b > m {
                        m = b;
                    }
                } else {
                    proof {
                        assert(crate::integer::bit_length(crate::integer::abs_int(self@[i as int][j as int]) as nat) == 0);
                    }
                }
                j = j + 1;
            }
            i = i + 1;
        }
        m
    }
}

/// The integers of a vector of i64.
pub open spec fn i64_ints(x: Seq<i64>) -> Seq<int> {
    x.map_values(|v: i64| v as int)
}

impl ZMatrix {
    /// The vector sum_i x[i] * b[first + i]: the lattice vector whose
    /// coefficients in the rows first, first + 1, ... are x.
    pub fn row_combination(&self, first: usize, x: &[i64]) -> (r: Vec<Z>)
        requires
            first + x@.len() <= self@.len(),
            forall|i: int| first <= i < first + x@.len() ==> #[trigger] self@[i].len() >= self.width(),
        ensures
            row_ints(r@) == combination(
                self@.subrange(first as int, first + x@.len()),
                i64_ints(x@),
                self.width(),
            ),
            in_lattice(self@.subrange(first as int, first + x@.len()), self.width(), row_ints(r@)),
    {
        let d = x.len();
        let n = self.ncols();
        let nr = self.nrows();
        let ghost c = i64_ints(x@);
        let ghost blk = self@.subrange(first as int, first + x@.len());
        let mut result: Vec<Z> = Vec::new();
        let mut k: usize = 0;
        while k < n
            invariant
                k <= n,
                result@.len() == k,
                forall|l: int| 0 <= l < k ==> (#[trigger] result@[l])@ == 0,
            decreases n - k,
        {
            result.push(Z::zero());
            k = k + 1;
        }
        let mut i: usize = 0;
        while i < d
            invariant
                i <= d == x@.len(),
                first + d <= self@.len() == nr,
                n == self.width(),
                forall|k: int| first <= k < first + x@.len() ==> #[trigger] self@[k].len() >= self.width(),
                c == i64_ints(x@),
                blk == self@.subrange(first as int, first + x@.len()),
                result@.len() == n,
                forall|l: int| 0 <= l < n ==> (#[trigger] result@[l])@ == comb_entry(blk, c, l, i as nat),
            decreases d - i,
        {
            proof {
                assert(c[i as int] == x@[i as int] as int);
            }
            if x[i] != 0 {
                let xz = Z::from_i64(x[i]);
                let mut j: usize = 0;
                while j < n
                    invariant
                        i < d == x@.len(),
                        first + d <= self@.len() == nr,
                        n == self.width(),
                        forall|k: int| first <= k < first + x@.len() ==> #[trigger] self@[k].len() >= self.width(),
                        c == i64_ints(x@),
                        blk == self@.subrange(first as int, first + x@.len()),
                        xz@ == c[i as int],
                        j <= n,
                        result@.len() == n,
                        forall|l: int| 0 <= l < j ==> (#[trigger] result@[l])@ == comb_entry(blk, c, l, (i + 1) as nat),
                        forall|l: int| j <= l < n ==> (#[trigger] result@[l])@ == comb_entry(blk, c, l, i as nat),
                    decreases n - j,
                {
                    let mut e = result[j].clone();
                    proof {
                        assert(blk[i as int][j as int] == self@[first + i][j as int]);
                    }
                    e.addmul(&xz, self.get(first + i, j));
                    result.set(j, e);
                    j = j + 1;
                }
            }
            proof {
                assert forall|l: int| 0 <= l < n implies (#[trigger] result@[l])@ == comb_entry(blk, c, l, (i + 1) as nat) by {
                    assert(comb_entry(blk, c, l, (i + 1) as nat) == comb_entry(blk, c, l, i as nat) + c[i as int] * blk[i as int][l]);
                }
            }
            i = i + 1;
        }
        proof {
            assert(row_ints(result@) =~= combination(blk, c, n as nat));
            assert(c.len() == blk.len());
        }
        result
    }
}

impl Default for ZMatrix {
    fn default() -> (r: ZMatrix)
        ensures
            r@ == Seq::<Seq<int>>::empty(),
            r.width() == 0,
    {
        ZMatrix::new()
    }
}

} // verus!
