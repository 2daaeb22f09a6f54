//! Integer matrices as mathematical objects: the row operations that lattice
//! reduction applies, and the lattice that the rows generate.

use vstd::prelude::*;

verus! {

/// A matrix as a sequence of rows.
pub type Mat = Seq<Seq<int>>;

/// Rows a and b exchanged.
pub open spec fn swap_rows_spec(m: Mat, a: int, b: int) -> Mat {
    m.update(a, m[b]).update(b, m[a])
}

/// (m[first], ..., m[last]) -> (m[first+1], ..., m[last], m[first]); no change unless first < last.
pub open spec fn rotate_left_spec(m: Mat, first: int, last: int) -> Mat {
    Seq::new(
        m.len(),
        |k: int|
            if first <= k < last {
                m[k + 1]
            } else if k == last && first < last {
                m[first]
            } else {
                m[k]
            },
    )
}

/// (m[first], ..., m[last]) -> (m[last], m[first], ..., m[last-1]); no change unless first < last.
pub open spec fn rotate_right_spec(m: Mat, first: int, last: int) -> Mat {
    Seq::new(
        m.len(),
        |k: int|
            if first < k <= last {
                m[k - 1]
            } else if k == first && first < last {
                m[last]
            } else {
                m[k]
            },
    )
}

/// Row i plus x times row j, on the first n entries.
pub open spec fn row_addmul_spec(m: Mat, i: int, j: int, x: int, n: int) -> Mat {
    m.update(
        i,
        Seq::new(m[i].len(), |k: int| if k < n { m[i][k] + x * m[j][k] } else { m[i][k] }),
    )
}

/// Row i negated.
pub open spec fn negate_row_spec(m: Mat, i: int) -> Mat {
    m.update(i, m[i].map_values(|v: int| -v))
}

/// The c x m.len() transpose of a matrix with c columns.
pub open spec fn transpose_spec(m: Mat, c: nat) -> Mat {
    Seq::new(c, |j: int| Seq::new(m.len(), |i: int| m[i][j]))
}

/// Sum of a[k] * b[k] over k < n.
pub open spec fn row_dot_spec(a: Seq<int>, b: Seq<int>, n: nat) -> int
    decreases n,
{
    if n == 0 {
        0
    } else {
        row_dot_spec(a, b, (n - 1) as nat) + a[n - 1] * b[n - 1]
    }
}

/// The r x c matrix that keeps the entries of m within bounds and is zero elsewhere.
pub open spec fn resize_spec(m: Mat, r: nat, c: nat) -> Mat {
    Seq::new(
        r,
        |i: int| Seq::new(c, |j: int| if i < m.len() && j < m[i].len() { m[i][j] } else { 0 }),
    )
}

/// Every entry set to v, shape kept.
pub open spec fn fill_spec(m: Mat, v: int) -> Mat {
    Seq::new(m.len(), |i: int| Seq::new(m[i].len(), |j: int| v))
}

/// The d x d identity.
pub open spec fn identity_spec(d: nat) -> Mat {
    Seq::new(d, |i: int| Seq::new(d, |j: int| if i == j { 1int } else { 0int }))
}


/// Every row of m has n entries.
pub open spec fn rows_have_len(m: Mat, n: nat) -> bool {
    forall|i: int| 0 <= i < m.len() ==> #[trigger] m[i].len() == n
}

/// Entry k of the combination sum over i < t of c[i] * m[i].
pub open spec fn comb_entry(m: Mat, c: Seq<int>, k: int, t: nat) -> int
    decreases t,
{
    if t == 0 {
        0
    } else {
        comb_entry(m, c, k, (t - 1) as nat) + c[t - 1] * m[t - 1][k]
    }
}

/// The integer combination sum_i c[i] * m[i], as a vector of n entries.
pub open spec fn combination(m: Mat, c: Seq<int>, n: nat) -> Seq<int> {
    Seq::new(n, |k: int| comb_entry(m, c, k, m.len()))
}

/// v lies in the lattice generated by the rows of m (vectors of n entries).
pub open spec fn in_lattice(m: Mat, n: nat, v: Seq<int>) -> bool {
    exists|c: Seq<int>| c.len() == m.len() && #[trigger] combination(m, c, n) == v
}

/// Replacing row i by r changes the combination by c[i] * (r - m[i]).
proof fn lemma_comb_row_update(m: Mat, c: Seq<int>, i: int, r: Seq<int>, k: int, t: nat)
    requires
        0 <= i < m.len(),
        t <= m.len(),
    ensures
        comb_entry(m.update(i, r), c, k, t) == comb_entry(m, c, k, t) + (if i < t {
            c[i] * (r[k] - m[i][k])
        } else {
            0
        }),
    decreases t,
{
    if t > 0 {
        lemma_comb_row_update(m, c, i, r, k, (t - 1) as nat);
        if i == t - 1 {
            assert(c[i] * r[k] - c[i] * m[i][k] == c[i] * (r[k] - m[i][k])) by (nonlinear_arith);
        }
    }
}

/// Changing coefficient j by d changes the combination by d * m[j].
proof fn lemma_comb_coeff_update(m: Mat, c: Seq<int>, j: int, d: int, k: int, t: nat)
    requires
        0 <= j < c.len(),
        t <= c.len(),
    ensures
        comb_entry(m, c.update(j, c[j] + d), k, t) == comb_entry(m, c, k, t) + (if j < t {
            d * m[j][k]
        } else {
            0
        }),
    decreases t,
{
    if t > 0 {
        lemma_comb_coeff_update(m, c, j, d, k, (t - 1) as nat);
        if j == t - 1 {
            assert((c[j] + d) * m[j][k] == c[j] * m[j][k] + d * m[j][k]) by (nonlinear_arith);
        }
    }
}

/// Adding x times row j (j != i) to row i: a combination with coefficients c
/// of the new rows is the combination of the old rows with c[j] + x * c[i] at j.
proof fn lemma_comb_addmul(m: Mat, n: nat, i: int, j: int, x: int, c: Seq<int>)
    requires
        rows_have_len(m, n),
        0 <= i < m.len(),
        0 <= j < m.len(),
        i != j,
        c.len() == m.len(),
    ensures
        combination(row_addmul_spec(m, i, j, x, n as int), c, n) == combination(
            m,
            c.update(j, c[j] + c[i] * x),
            n,
        ),
{
    let m2 = row_addmul_spec(m, i, j, x, n as int);
    let r = m2[i];
    assert forall|k: int| 0 <= k < n implies #[trigger] combination(m2, c, n)[k] == combination(
        m,
        c.update(j, c[j] + c[i] * x),
        n,
    )[k] by {
        lemma_comb_row_update(m, c, i, r, k, m.len());
        lemma_comb_coeff_update(m, c, j, c[i] * x, k, m.len());
        assert(c[i] * (r[k] - m[i][k]) == c[i] * x * m[j][k]) by (nonlinear_arith)
            requires
                r[k] == m[i][k] + x * m[j][k],
        ;
    }
    assert(combination(m2, c, n) =~= combination(m, c.update(j, c[j] + c[i] * x), n));
}

/// Adding x times another row to a row leaves the lattice unchanged.
pub proof fn lemma_row_addmul_preserves_lattice(m: Mat, n: nat, i: int, j: int, x: int, v: Seq<int>)
    requires
        rows_have_len(m, n),
        0 <= i < m.len(),
        0 <= j < m.len(),
        i != j,
    ensures
        in_lattice(row_addmul_spec(m, i, j, x, n as int), n, v) == in_lattice(m, n, v),
{
    let m2 = row_addmul_spec(m, i, j, x, n as int);
    if in_lattice(m2, n, v) {
        let c = choose|c: Seq<int>| c.len() == m2.len() && #[trigger] combination(m2, c, n) == v;
        lemma_comb_addmul(m, n, i, j, x, c);
        assert(combination(m, c.update(j, c[j] + c[i] * x), n) == v);
    }
    if in_lattice(m, n, v) {
        let c = choose|c: Seq<int>| c.len() == m.len() && #[trigger] combination(m, c, n) == v;
        let c2 = c.update(j, c[j] - c[i] * x);
        lemma_comb_addmul(m, n, i, j, x, c2);
        assert(c2[i] == c[i]);
        assert(c2.update(j, c2[j] + c2[i] * x) =~= c);
        assert(combination(m2, c2, n) == v);
    }
}

/// Exchanging two rows: combinations of the new rows are those of the old
/// rows with the two coefficients exchanged.
proof fn lemma_comb_swap(m: Mat, n: nat, a: int, b: int, c: Seq<int>)
    requires
        rows_have_len(m, n),
        0 <= a < m.len(),
        0 <= b < m.len(),
        a != b,
        c.len() == m.len(),
    ensures
        combination(swap_rows_spec(m, a, b), c, n) == combination(
            m,
            c.update(a, c[b]).update(b, c[a]),
            n,
        ),
{
    let m1 = m.update(a, m[b]);
    let m2 = swap_rows_spec(m, a, b);
    let c1 = c.update(a, c[b]);
    let c2 = c1.update(b, c[a]);
    assert forall|k: int| 0 <= k < n implies #[trigger] combination(m2, c, n)[k] == combination(
        m,
        c2,
        n,
    )[k] by {
        lemma_comb_row_update(m, c, a, m[b], k, m.len());
        lemma_comb_row_update(m1, c, b, m[a], k, m.len());
        lemma_comb_coeff_update(m, c, a, c[b] - c[a], k, m.len());
        lemma_comb_coeff_update(m, c1, b, c[a] - c[b], k, m.len());
        assert(c1.update(b, c1[b] + (c[a] - c[b])) == c2);
        assert(c.update(a, c[a] + (c[b] - c[a])) == c1);
        assert(c[a] * (m[b][k] - m[a][k]) + c[b] * (m[a][k] - m[b][k]) == (c[b] - c[a]) * m[a][k]
            + (c[a] - c[b]) * m[b][k]) by (nonlinear_arith);
    }
    assert(combination(m2, c, n) =~= combination(m, c2, n));
}

/// Exchanging two rows leaves the lattice unchanged.
pub proof fn lemma_swap_rows_preserves_lattice(m: Mat, n: nat, a: int, b: int, v: Seq<int>)
    requires
        rows_have_len(m, n),
        0 <= a < m.len(),
        0 <= b < m.len(),
    ensures
        in_lattice(swap_rows_spec(m, a, b), n, v) == in_lattice(m, n, v),
{
    if a == b {
        assert(swap_rows_spec(m, a, b) =~= m);
    } else {
        let m2 = swap_rows_spec(m, a, b);
        if in_lattice(m2, n, v) {
            let c = choose|c: Seq<int>| c.len() == m2.len() && #[trigger] combination(m2, c, n) == v;
            lemma_comb_swap(m, n, a, b, c);
            assert(combination(m, c.update(a, c[b]).update(b, c[a]), n) == v);
        }
        if in_lattice(m, n, v) {
            let c = choose|c: Seq<int>| c.len() == m.len() && #[trigger] combination(m, c, n) == v;
            let c2 = c.update(a, c[b]).update(b, c[a]);
            lemma_comb_swap(m, n, a, b, c2);
            assert(c2.update(a, c2[b]).update(b, c2[a]) =~= c);
            assert(combination(m2, c2, n) == v);
        }
    }
}

/// Negating a row leaves the lattice unchanged.
pub proof fn lemma_negate_row_preserves_lattice(m: Mat, n: nat, i: int, v: Seq<int>)
    requires
        rows_have_len(m, n),
        0 <= i < m.len(),
    ensures
        in_lattice(negate_row_spec(m, i), n, v) == in_lattice(m, n, v),
{
    let m2 = negate_row_spec(m, i);
    let r = m2[i];
    assert forall|c: Seq<int>| c.len() == m.len() implies #[trigger] combination(m2, c, n)
        == combination(m, c.update(i, -c[i]), n) by {
        assert forall|k: int| 0 <= k < n implies #[trigger] combination(m2, c, n)[k]
            == combination(m, c.update(i, -c[i]), n)[k] by {
            lemma_comb_row_update(m, c, i, r, k, m.len());
            lemma_comb_coeff_update(m, c, i, -2 * c[i], k, m.len());
            assert(c.update(i, c[i] + -2 * c[i]) == c.update(i, -c[i]));
            assert(c[i] * (-m[i][k] - m[i][k]) == -2 * c[i] * m[i][k]) by (nonlinear_arith);
        }
        assert(combination(m2, c, n) =~= combination(m, c.update(i, -c[i]), n));
    }
    if in_lattice(m2, n, v) {
        let c = choose|c: Seq<int>| c.len() == m2.len() && #[trigger] combination(m2, c, n) == v;
        assert(combination(m2, c, n) == combination(m, c.update(i, -c[i]), n));
    }
    if in_lattice(m, n, v) {
        let c = choose|c: Seq<int>| c.len() == m.len() && #[trigger] combination(m, c, n) == v;
        let c2 = c.update(i, -c[i]);
        assert(combination(m2, c2, n) == combination(m, c2.update(i, -c2[i]), n));
        assert(c2.update(i, -c2[i]) =~= c);
    }
}

/// Rotating rows left leaves the lattice unchanged.
pub proof fn lemma_rotate_left_preserves_lattice(m: Mat, n: nat, first: int, last: int, v: Seq<int>)
    requires
        rows_have_len(m, n),
        0 <= first,
        first < last ==> last < m.len(),
    ensures
        in_lattice(rotate_left_spec(m, first, last), n, v) == in_lattice(m, n, v),
    decreases last - first,
{
    if first >= last {
        assert(rotate_left_spec(m, first, last) =~= m);
    } else {
        let m1 = swap_rows_spec(m, first, first + 1);
        lemma_swap_rows_preserves_lattice(m, n, first, first + 1, v);
        assert(rows_have_len(m1, n));
        lemma_rotate_left_preserves_lattice(m1, n, first + 1, last, v);
        assert(rotate_left_spec(m1, first + 1, last) =~= rotate_left_spec(m, first, last));
    }
}

/// Rotating rows right leaves the lattice unchanged.
pub proof fn lemma_rotate_right_preserves_lattice(m: Mat, n: nat, first: int, last: int, v: Seq<int>)
    requires
        rows_have_len(m, n),
        0 <= first,
        first < last ==> last < m.len(),
    ensures
        in_lattice(rotate_right_spec(m, first, last), n, v) == in_lattice(m, n, v),
    decreases last - first,
{
    if first >= last {
        assert(rotate_right_spec(m, first, last) =~= m);
    } else {
        let m1 = swap_rows_spec(m, last - 1, last);
        lemma_swap_rows_preserves_lattice(m, n, last - 1, last, v);
        assert(rows_have_len(m1, n));
        lemma_rotate_right_preserves_lattice(m1, n, first, last - 1, v);
        assert(rotate_right_spec(m1, first, last - 1) =~= rotate_right_spec(m, first, last));
    }
}


/// Exchanging the same two rows twice restores the matrix.
pub proof fn lemma_swap_rows_twice(m: Mat, a: int, b: int)
    requires
        0 <= a < m.len(),
        0 <= b < m.len(),
    ensures
        swap_rows_spec(swap_rows_spec(m, a, b), a, b) == m,
{
    assert(swap_rows_spec(swap_rows_spec(m, a, b), a, b) =~= m);
}

/// A right rotation over the same range undoes a left rotation, and conversely.
pub proof fn lemma_rotations_inverse(m: Mat, first: int, last: int)
    requires
        0 <= first,
        first < last ==> last < m.len(),
    ensures
        rotate_right_spec(rotate_left_spec(m, first, last), first, last) == m,
        rotate_left_spec(rotate_right_spec(m, first, last), first, last) == m,
{
    assert(rotate_right_spec(rotate_left_spec(m, first, last), first, last) =~= m);
    assert(rotate_left_spec(rotate_right_spec(m, first, last), first, last) =~= m);
}

/// Subtracting x times row j undoes adding it (i != j).
pub proof fn lemma_row_addmul_inverse(m: Mat, i: int, j: int, x: int, n: int)
    requires
        0 <= i < m.len(),
        0 <= j < m.len(),
        i != j,
        n <= m[i].len(),
        n <= m[j].len(),
    ensures
        row_addmul_spec(row_addmul_spec(m, i, j, x, n), i, j, -x, n) == m,
{
    let m1 = row_addmul_spec(m, i, j, x, n);
    let m2 = row_addmul_spec(m1, i, j, -x, n);
    assert forall|k: int| 0 <= k < m[i].len() implies #[trigger] m2[i][k] == m[i][k] by {
        if k < n {
            assert(m[i][k] + x * m[j][k] + (-x) * m[j][k] == m[i][k]) by (nonlinear_arith);
        }
    }
    assert(m2[i] =~= m[i]);
    assert(m2 =~= m);
}

/// Negating a row twice restores it.
pub proof fn lemma_negate_row_twice(m: Mat, i: int)
    requires
        0 <= i < m.len(),
    ensures
        negate_row_spec(negate_row_spec(m, i), i) == m,
{
    assert(negate_row_spec(negate_row_spec(m, i), i)[i] =~= m[i]);
    assert(negate_row_spec(negate_row_spec(m, i), i) =~= m);
}

/// Transposing twice restores a matrix whose rows have c entries.
pub proof fn lemma_transpose_twice(m: Mat, c: nat)
    requires
        rows_have_len(m, c),
    ensures
        transpose_spec(transpose_spec(m, c), m.len()) == m,
{
    let t = transpose_spec(transpose_spec(m, c), m.len());
    assert forall|i: int| 0 <= i < m.len() implies #[trigger] t[i] == m[i] by {
        assert(t[i] =~= m[i]);
    }
    assert(t =~= m);
}

/// Growing a matrix and shrinking it back to its shape restores it.
pub proof fn lemma_resize_back(m: Mat, c: nat, r2: nat, c2: nat)
    requires
        rows_have_len(m, c),
        m.len() <= r2,
        c <= c2,
    ensures
        resize_spec(resize_spec(m, r2, c2), m.len(), c) == m,
{
    let t = resize_spec(resize_spec(m, r2, c2), m.len(), c);
    assert forall|i: int| 0 <= i < m.len() implies #[trigger] t[i] == m[i] by {
        assert(t[i] =~= m[i]);
    }
    assert(t =~= m);
}

/// The dot product of two rows does not depend on their order.
pub proof fn lemma_row_dot_symmetric(a: Seq<int>, b: Seq<int>, n: nat)
    ensures
        row_dot_spec(a, b, n) == row_dot_spec(b, a, n),
    decreases n,
{
    if n > 0 {
        lemma_row_dot_symmetric(a, b, (n - 1) as nat);
        assert(a[n - 1] * b[n - 1] == b[n - 1] * a[n - 1]) by (nonlinear_arith);
    }
}

} // verus!
