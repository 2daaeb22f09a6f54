//! Generators of the classical families of lattice bases.
//!
//! Each generator writes the matrix in row-major order, drawing the random
//! entries in that order from the generator it is given.

use vstd::prelude::*;
use vstd::arithmetic::power2::{pow2, lemma_pow2_unfold, lemma2_to64};
use crate::integer::{Z, two_to};
use crate::lattice::Mat;
use crate::matrix::{ZMatrix, row_ints};
use crate::rand_util::{RandCtx, Draw, Request, rand_bits, rand_below, bits_draw, below_draw};

verus! {

/// Every entry (r, c) with c < w that comes before (i, j) in row-major order
/// satisfies p.
pub open spec fn filled_up_to(m: Mat, w: int, i: int, j: int, p: spec_fn(int, int, int) -> bool) -> bool {
    forall|r: int, c: int|
        0 <= r < m.len() && 0 <= c < w && (r < i || (r == i && c < j)) ==> #[trigger] p(r, c, m[r][c])
}

proof fn lemma_fill_step(m: Mat, w: int, i: int, j: int, p: spec_fn(int, int, int) -> bool, v: int)
    requires
        filled_up_to(m, w, i, j, p),
        0 <= i < m.len(),
        0 <= j < m[i].len(),
        p(i, j, v),
    ensures
        filled_up_to(m.update(i, m[i].update(j, v)), w, i, j + 1, p),
{
    let m2 = m.update(i, m[i].update(j, v));
    assert forall|r: int, c: int|
        0 <= r < m2.len() && 0 <= c < w && (r < i || (r == i && c < j + 1)) implies #[trigger] p(
        r,
        c,
        m2[r][c],
    ) by {
        if r == i && c == j {
        } else {
            assert(m2[r][c] == m[r][c]);
            assert(p(r, c, m[r][c]));
        }
    }
}

proof fn lemma_fill_next_row(m: Mat, w: int, i: int, p: spec_fn(int, int, int) -> bool)
    requires
        filled_up_to(m, w, i, w, p),
    ensures
        filled_up_to(m, w, i + 1, 0, p),
{
    assert forall|r: int, c: int|
        0 <= r < m.len() && 0 <= c < w && (r < i + 1 || (r == i + 1 && c < 0)) implies #[trigger] p(
        r,
        c,
        m[r][c],
    ) by {
        assert(r < i || (r == i && c < w));
    }
}

proof fn lemma_filled_all(m: Mat, w: int, p: spec_fn(int, int, int) -> bool)
    requires
        filled_up_to(m, w, m.len() as int, 0, p),
    ensures
        forall|r: int, c: int| 0 <= r < m.len() && 0 <= c < w ==> p(r, c, #[trigger] m[r][c]),
{
    assert forall|r: int, c: int| 0 <= r < m.len() && 0 <= c < w implies p(r, c, #[trigger] m[r][c]) by {
        assert(p(r, c, m[r][c]));
    }
}

/// Every entry (r, c) of m that comes before (i, j) in row-major order
/// satisfies p.
pub open spec fn filled_rows(m: Mat, i: int, j: int, p: spec_fn(int, int, int) -> bool) -> bool {
    forall|r: int, c: int|
        0 <= r < m.len() && 0 <= c < m[r].len() && (r < i || (r == i && c < j)) ==> #[trigger] p(
            r,
            c,
            m[r][c],
        )
}

proof fn lemma_fill_rows_step(m: Mat, i: int, j: int, p: spec_fn(int, int, int) -> bool, v: int)
    requires
        filled_rows(m, i, j, p),
        0 <= i < m.len(),
        0 <= j < m[i].len(),
        p(i, j, v),
    ensures
        filled_rows(m.update(i, m[i].update(j, v)), i, j + 1, p),
{
    let m2 = m.update(i, m[i].update(j, v));
    assert forall|r: int, c: int|
        0 <= r < m2.len() && 0 <= c < m2[r].len() && (r < i || (r == i && c < j + 1)) implies #[trigger] p(
        r,
        c,
        m2[r][c],
    ) by {
        if r == i && c == j {
        } else {
            assert(m2[r][c] == m[r][c]);
            assert(p(r, c, m[r][c]));
        }
    }
}

proof fn lemma_fill_rows_next(m: Mat, i: int, p: spec_fn(int, int, int) -> bool)
    requires
        0 <= i < m.len(),
        filled_rows(m, i, m[i].len() as int, p),
    ensures
        filled_rows(m, i + 1, 0, p),
{
    assert forall|r: int, c: int|
        0 <= r < m.len() && 0 <= c < m[r].len() && (r < i + 1 || (r == i + 1 && c < 0)) implies #[trigger] p(
        r,
        c,
        m[r][c],
    ) by {
        assert(r < i || (r == i && c < m[i].len()));
    }
}

proof fn lemma_filled_rows_all(m: Mat, p: spec_fn(int, int, int) -> bool)
    requires
        filled_rows(m, m.len() as int, 0, p),
    ensures
        forall|r: int, c: int| 0 <= r < m.len() && 0 <= c < m[r].len() ==> p(r, c, #[trigger] m[r][c]),
{
    assert forall|r: int, c: int| 0 <= r < m.len() && 0 <= c < m[r].len() implies p(r, c, #[trigger] m[r][c]) by {
        assert(p(r, c, m[r][c]));
    }
}

/// The draws, each made by `req`, that give the w entries row[c0], ...,
/// row[c0 + w - 1], in that order.
pub open spec fn row_draws(row: Seq<int>, c0: int, w: int, req: Request) -> Seq<Draw> {
    Seq::new(w as nat, |c: int| Draw { request: req, value: row[c0 + c] })
}

/// The draws, each made by `req`, that give the entries of columns
/// [c0, c0 + w) of rows [0, r) of m, in row-major order.
pub open spec fn block_draws(m: Mat, r: int, c0: int, w: int, req: Request) -> Seq<Draw>
    decreases r,
{
    if r <= 0 {
        Seq::empty()
    } else {
        block_draws(m, r - 1, c0, w, req) + row_draws(m[r - 1], c0, w, req)
    }
}

/// Entry (i, c0 + j) of a block is given by the draw numbered i * w + j of
/// the block's draws: the block is filled by consecutive draws, row after row.
pub proof fn lemma_block_draw_at(m: Mat, r: int, c0: int, w: int, req: Request, i: int, j: int)
    requires
        0 <= i < r,
        0 <= j < w,
    ensures
        block_draws(m, r, c0, w, req).len() == r * w,
        block_draws(m, r, c0, w, req)[i * w + j] == (Draw { request: req, value: m[i][c0 + j] }),
    decreases r,
{
    lemma_block_draws_len(m, r, c0, w, req);
    lemma_block_draws_len(m, r - 1, c0, w, req);
    if i < r - 1 {
        lemma_block_draw_at(m, r - 1, c0, w, req, i, j);
        assert(i * w + j < (r - 1) * w) by (nonlinear_arith)
            requires
                0 <= i < r - 1,
                0 <= j < w,
        ;
    } else {
        assert((r - 1) * w + j == i * w + j);
    }
}

/// Position i * w + j, for i < r and j < w, lies in [0, r * w).
pub proof fn lemma_block_index_in_range(r: int, w: int, i: int, j: int)
    requires
        0 <= i < r,
        0 <= j < w,
    ensures
        0 <= i * w + j < r * w,
{
    assert(0 <= i * w + j < r * w) by (nonlinear_arith)
        requires
            0 <= i < r,
            0 <= j < w,
    ;
}

/// A block of r rows of w draws has r * w draws.
pub proof fn lemma_block_draws_len(m: Mat, r: int, c0: int, w: int, req: Request)
    requires
        0 <= w,
    ensures
        r >= 0 ==> block_draws(m, r, c0, w, req).len() == r * w,
    decreases r,
{
    if r > 0 {
        lemma_block_draws_len(m, r - 1, c0, w, req);
        assert((r - 1) * w + w == r * w) by (nonlinear_arith);
    } else if r == 0 {
        assert(0 * w == 0);
    }
}

/// The draws of the first r rows depend on those rows only.
proof fn lemma_block_draws_same_rows(a: Mat, b: Mat, r: int, c0: int, w: int, req: Request)
    requires
        forall|k: int| 0 <= k < r ==> #[trigger] a[k] == b[k],
    ensures
        block_draws(a, r, c0, w, req) == block_draws(b, r, c0, w, req),
    decreases r,
{
    if r > 0 {
        lemma_block_draws_same_rows(a, b, r - 1, c0, w, req);
        assert(a[r - 1] == b[r - 1]);
    }
}

/// Setting entry (i, j) of row i, the draws for row i grow by that entry.
proof fn lemma_row_draws_push(row: Seq<int>, c0: int, w: int, req: Request, v: int)
    requires
        0 <= w,
        0 <= c0,
        c0 + w < row.len(),
    ensures
        row_draws(row.update(c0 + w, v), c0, w + 1, req) == row_draws(row, c0, w, req).push(
            Draw { request: req, value: v },
        ),
{
    assert(row_draws(row.update(c0 + w, v), c0, w + 1, req) =~= row_draws(row, c0, w, req).push(
        Draw { request: req, value: v },
    ));
}

/// A uniform basis of width w takes its entries from consecutive draws, row
/// after row: entry (i, j) is the value of the draw numbered i * w + j among
/// those its generation took.
pub proof fn lemma_uniform_entries_are_draws(before: Seq<Draw>, after: Seq<Draw>, m: Mat, w: int, bits: u32)
    requires
        0 <= w,
        after == before + block_draws(m, m.len() as int, 0, w, Request::Bits(bits)),
    ensures
        after.len() == before.len() + m.len() * w,
        forall|i: int, j: int|
            0 <= i < m.len() && 0 <= j < w ==> after[before.len() + i * w + j] == bits_draw(
                bits,
                #[trigger] m[i][j],
            ),
{
    let req = Request::Bits(bits);
    lemma_block_draws_len(m, m.len() as int, 0, w, req);
    assert forall|i: int, j: int| 0 <= i < m.len() && 0 <= j < w implies after[before.len() + i * w + j]
        == bits_draw(bits, #[trigger] m[i][j]) by {
        lemma_block_draw_at(m, m.len() as int, 0, w, req, i, j);
        lemma_block_index_in_range(m.len() as int, w, i, j);
    }
}

/// The weights of an integer-relation basis are consecutive draws: entry
/// (i, 0) is the value of the i-th draw its generation took.
pub proof fn lemma_intrel_weights_are_draws(before: Seq<Draw>, after: Seq<Draw>, m: Mat, bits: u32)
    requires
        after == before + block_draws(m, m.len() as int, 0, 1, Request::Bits(bits)),
    ensures
        after.len() == before.len() + m.len(),
        forall|i: int|
            0 <= i < m.len() ==> after[before.len() + i] == bits_draw(bits, #[trigger] m[i][0]),
{
    let req = Request::Bits(bits);
    lemma_block_draws_len(m, m.len() as int, 0, 1, req);
    assert forall|i: int| 0 <= i < m.len() implies after[before.len() + i] == bits_draw(
        bits,
        #[trigger] m[i][0],
    ) by {
        lemma_block_draw_at(m, m.len() as int, 0, 1, req, i, 0);
    }
}

/// The numbers to approximate in a simultaneous Diophantine basis are
/// consecutive draws: entry (0, j), for 1 <= j < n, is the value of the
/// (j - 1)-th draw its generation took.
pub proof fn lemma_simdioph_row_is_draws(before: Seq<Draw>, after: Seq<Draw>, m: Mat, bits: u32)
    requires
        m.len() >= 1,
        after == before + block_draws(m, 1, 1, m.len() - 1, Request::Bits(bits)),
    ensures
        after.len() == before.len() + m.len() - 1,
        forall|j: int|
            1 <= j < m.len() ==> after[before.len() + j - 1] == bits_draw(bits, #[trigger] m[0][j]),
{
    let req = Request::Bits(bits);
    lemma_block_draws_len(m, 1, 1, m.len() - 1, req);
    assert forall|j: int| 1 <= j < m.len() implies after[before.len() + j - 1] == bits_draw(
        bits,
        #[trigger] m[0][j],
    ) by {
        lemma_block_draw_at(m, 1, 1, m.len() - 1, req, 0, j - 1);
    }
}

/// The vector h of an ntrulike basis [[I, H], [0, qI]] is made of
/// consecutive draws below q: h[k], found at entry (0, d + k), is the value
/// of the k-th draw its generation took.
pub proof fn lemma_ntrulike_vector_is_draws(before: Seq<Draw>, after: Seq<Draw>, m: Mat, h: Seq<int>, q: int)
    requires
        is_ntrulike(m, h, q),
        m.len() >= 2 ==> m[0].len() >= 2 * (m.len() / 2),
        after == before + row_draws(h, 0, h.len() as int, Request::Below(q)),
    ensures
        after.len() == before.len() + m.len() / 2,
        forall|k: int|
            0 <= k < m.len() / 2 ==> after[before.len() + k] == below_draw(
                q,
                #[trigger] m[0][m.len() / 2 + k],
            ),
{
    let d = (m.len() / 2) as int;
    assert forall|k: int| 0 <= k < d implies after[before.len() + k] == below_draw(
        q,
        #[trigger] m[0][d + k],
    ) by {
        assert(m[0][d + k] == ntrulike_entry(h, q, 0, d + k));
        assert((0 + ((d + k) - d)) % d == k) by {
            vstd::arithmetic::div_mod::lemma_small_mod(k as nat, d as nat);
        }
    }
}

/// The vector h of an ntrulike basis [[qI, 0], [H, I]] is made of
/// consecutive draws below q: h[k], found at entry (d, k), is the value of
/// the k-th draw its generation took.
pub proof fn lemma_ntrulike2_vector_is_draws(before: Seq<Draw>, after: Seq<Draw>, m: Mat, h: Seq<int>, q: int)
    requires
        is_ntrulike2(m, h, q),
        m.len() >= 2 ==> m[(m.len() / 2) as int].len() >= m.len() / 2,
        after == before + row_draws(h, 0, h.len() as int, Request::Below(q)),
    ensures
        after.len() == before.len() + m.len() / 2,
        forall|k: int|
            0 <= k < m.len() / 2 ==> after[before.len() + k] == below_draw(
                q,
                #[trigger] m[(m.len() / 2) as int][k],
            ),
{
    let d = (m.len() / 2) as int;
    assert forall|k: int| 0 <= k < d implies after[before.len() + k] == below_draw(
        q,
        #[trigger] m[d][k],
    ) by {
        assert(m[d][k] == ntrulike2_entry(h, q, d, k));
        assert(((d - d) + k) % d == k) by {
            vstd::arithmetic::div_mod::lemma_small_mod(k as nat, d as nat);
        }
    }
}

/// The H block of a q-ary basis of dimension n takes its entries from
/// consecutive draws below q, row after row: entry (i, n - k + j) is the
/// value of the draw numbered i * k + j among those its generation took.
pub proof fn lemma_qary_block_is_draws(before: Seq<Draw>, after: Seq<Draw>, m: Mat, k: int, q: int)
    requires
        0 <= k <= m.len(),
        after == before + block_draws(m, m.len() - k, m.len() - k, k, Request::Below(q)),
    ensures
        after.len() == before.len() + (m.len() - k) * k,
        forall|i: int, j: int|
            0 <= i < m.len() - k && 0 <= j < k ==> after[before.len() + i * k + j] == below_draw(
                q,
                #[trigger] m[i][m.len() - k + j],
            ),
{
    let top = m.len() - k;
    let req = Request::Below(q);
    lemma_block_draws_len(m, top, top, k, req);
    assert forall|i: int, j: int| 0 <= i < top && 0 <= j < k implies after[before.len() + i * k + j]
        == below_draw(q, #[trigger] m[i][top + j]) by {
        lemma_block_draw_at(m, top, top, k, req, i, j);
        lemma_block_index_in_range(top, k, i, j);
    }
}

/// a and b have the same number of rows, of the same lengths.
pub open spec fn same_shape(a: Mat, b: Mat) -> bool {
    &&& a.len() == b.len()
    &&& forall|i: int| 0 <= i < a.len() ==> #[trigger] a[i].len() == b[i].len()
}

/// 2^bits as a `Z`.
fn power_of_two(bits: u32) -> (r: Z)
    ensures
        r@ == two_to(bits),
{
    let one = Z::one();
    let mut r = Z::zero();
    r.mul_2si(&one, bits as i64);
    proof {
        assert((bits as i64) as u32 == bits);
    }
    r
}

/// Entry (i, j) of an integer-relation basis: column 0 random in
/// [0, 2^bits), the identity shifted one column to the right elsewhere.
pub open spec fn intrel_entry(bits: u32, i: int, j: int, e: int) -> bool {
    if j == 0 {
        0 <= e < two_to(bits)
    } else {
        e == (if i + 1 == j { 1int } else { 0int })
    }
}

/// Entry (i, j) of a simultaneous Diophantine basis of dimension n: 2^bits2
/// at (0, 0), the rest of row 0 random in [0, 2^bits), 2^bits on the rest
/// of the diagonal and zero elsewhere.
pub open spec fn simdioph_entry(bits: u32, bits2: u32, i: int, j: int, e: int) -> bool {
    if i == 0 && j == 0 {
        e == two_to(bits2)
    } else if i == 0 {
        0 <= e < two_to(bits)
    } else if i == j {
        e == two_to(bits)
    } else {
        e == 0
    }
}

/// Entry (i, j) of the basis [[I, H], [0, qI]], H being the d x d circulant
/// matrix of h (row i of H is h rotated left by i), zero outside 2d x 2d.
pub open spec fn ntrulike_entry(h: Seq<int>, q: int, i: int, j: int) -> int {
    let d = h.len() as int;
    if i < d && j < d {
        if i == j { 1 } else { 0 }
    } else if i < d && d <= j < 2 * d {
        h[(i + (j - d)) % d]
    } else if d <= i < 2 * d && d <= j < 2 * d {
        if i == j { q } else { 0 }
    } else {
        0
    }
}

/// Entry (i, j) of the basis [[qI, 0], [H, I]], H being the d x d circulant
/// matrix of h, zero outside 2d x 2d.
pub open spec fn ntrulike2_entry(h: Seq<int>, q: int, i: int, j: int) -> int {
    let d = h.len() as int;
    if i < d && j < d {
        if i == j { q } else { 0 }
    } else if d <= i < 2 * d && j < d {
        h[((i - d) + j) % d]
    } else if d <= i < 2 * d && d <= j < 2 * d {
        if i == j { 1 } else { 0 }
    } else {
        0
    }
}

/// m is an ntrulike basis (`ntrulike_entry`) for h, whose entries are in [0, q).
pub open spec fn is_ntrulike(m: Mat, h: Seq<int>, q: int) -> bool {
    &&& h.len() == m.len() / 2
    &&& forall|k: int| 0 <= k < h.len() ==> 0 <= #[trigger] h[k] < q
    &&& forall|i: int, j: int| 0 <= i < m.len() && 0 <= j < m[i].len() ==> #[trigger] m[i][j] == ntrulike_entry(h, q, i, j)
}

/// m is an ntrulike2 basis (`ntrulike2_entry`) for h, whose entries are in [0, q).
pub open spec fn is_ntrulike2(m: Mat, h: Seq<int>, q: int) -> bool {
    &&& h.len() == m.len() / 2
    &&& forall|k: int| 0 <= k < h.len() ==> 0 <= #[trigger] h[k] < q
    &&& forall|i: int, j: int| 0 <= i < m.len() && 0 <= j < m[i].len() ==> #[trigger] m[i][j] == ntrulike2_entry(h, q, i, j)
}

/// Entry (i, j) of the q-ary basis [[I, H], [0, qI]] of dimension n with a
/// k-column block H of entries in [0, q); zero in columns n and beyond.
pub open spec fn qary_entry(n: int, k: int, q: int, i: int, j: int, e: int) -> bool {
    let top = n - k;
    if i < top && j < top {
        e == (if i == j { 1int } else { 0int })
    } else if i < top && top <= j < n {
        0 <= e < q
    } else if top <= i < n && top <= j < n {
        e == (if i == j { q } else { 0int })
    } else {
        e == 0
    }
}

/// How many entries of the H block of a q-ary basis (columns [top, top + k))
/// come before column j of a row.
spec fn qary_drawn(j: int, top: int, k: int) -> int {
    if j <= top {
        0
    } else if j - top <= k {
        j - top
    } else {
        k
    }
}

/// Entry (i, j) of a lower triangular basis whose diagonal entry in row i is
/// 2^exps[i] and whose entries left of it lie in [-(2^exps[i] / 2), 2^exps[i] - 2^exps[i] / 2).
pub open spec fn trg_entry(exps: Seq<u32>, i: int, j: int, e: int) -> bool {
    let diag = two_to(exps[i]);
    if j == i {
        e == diag
    } else if j < i {
        -(diag / 2) <= e < diag - diag / 2
    } else {
        e == 0
    }
}

/// The draws that give the first w entries of a row of a lower triangular
/// basis with diagonal 2^e: each asked for a number below 2^e and gave the
/// entry plus 2^e / 2.
pub open spec fn trg_row_draws(row: Seq<int>, e: u32, w: int) -> Seq<Draw> {
    Seq::new(w as nat, |c: int| below_draw(two_to(e), row[c] + two_to(e) / 2))
}

/// The draws that give the entries left of the diagonal in rows [0, r) of a
/// lower triangular basis with diagonal 2^exps[i] in row i, row after row.
pub open spec fn trg_draws(m: Mat, exps: Seq<u32>, r: int) -> Seq<Draw>
    decreases r,
{
    if r <= 0 {
        Seq::empty()
    } else {
        trg_draws(m, exps, r - 1) + trg_row_draws(m[r - 1], exps[r - 1], r - 1)
    }
}

/// The draws of the first r rows depend on those rows only.
proof fn lemma_trg_draws_same_rows(a: Mat, b: Mat, exps: Seq<u32>, r: int)
    requires
        forall|k: int| 0 <= k < r ==> #[trigger] a[k] == b[k],
    ensures
        trg_draws(a, exps, r) == trg_draws(b, exps, r),
    decreases r,
{
    if r > 0 {
        lemma_trg_draws_same_rows(a, b, exps, r - 1);
        assert(a[r - 1] == b[r - 1]);
    }
}

/// d random integers in [0, q), drawn in order.
fn draw_below(d: usize, q: &Z, rng: &mut RandCtx) -> (h: Vec<Z>)
    requires
        d == 0 || q@ > 0,
    ensures
        h@.len() == d,
        forall|k: int| 0 <= k < d ==> 0 <= (#[trigger] h@[k])@ < q@,
        final(rng).draws() == old(rng).draws() + row_draws(row_ints(h@), 0, d as int, Request::Below(q@)),
{
    let mut h: Vec<Z> = Vec::new();
    let mut k: usize = 0;
    while k < d
        invariant
            k <= d,
            d == 0 || q@ > 0,
            h@.len() == k,
            forall|t: int| 0 <= t < k ==> 0 <= (#[trigger] h@[t])@ < q@,
            rng.draws() == old(rng).draws() + row_draws(row_ints(h@), 0, k as int, Request::Below(q@)),
        decreases d - k,
    {
        let x = rand_below(rng, q);
        let ghost h0 = h@;
        h.push(x);
        proof {
            assert(row_draws(row_ints(h@), 0, k + 1, Request::Below(q@)) =~= row_draws(
                row_ints(h0),
                0,
                k as int,
                Request::Below(q@),
            ).push(below_draw(q@, x@)));
        }
        k = k + 1;
    }
    h
}

impl ZMatrix {
    /// Integer-relation basis: random first column in [0, 2^bits), identity
    /// in the remaining columns (row i has its 1 in column i + 1); entry
    /// (i, 0) is the i-th draw this call takes with `rand_bits(bits)`.
    /// Entries of a row beyond `width()` are left as they were.
    pub fn gen_intrel(&mut self, bits: u32, rng: &mut RandCtx)
        requires
            old(self)@.len() > 0,
            old(self).width() == old(self)@.len() + 1,
            old(self).covers_width(),
        ensures
            final(self).width() == old(self).width(),
            same_shape(final(self)@, old(self)@),
            old(self).wf() ==> final(self).wf(),
            forall|i: int, j: int|
                0 <= i < final(self)@.len() && 0 <= j < final(self).width() ==> intrel_entry(
                    bits,
                    i,
                    j,
                    #[trigger] final(self)@[i][j],
                ),
            forall|i: int, j: int|
                0 <= i < final(self)@.len() && final(self).width() <= j < final(self)@[i].len()
                    ==> #[trigger] final(self)@[i][j] == old(self)@[i][j],
            final(rng).draws() == old(rng).draws() + block_draws(
                final(self)@,
                final(self)@.len() as int,
                0,
                1,
                Request::Bits(bits),
            ),
            final(rng).draws().len() == old(rng).draws().len() + final(self)@.len(),
            forall|i: int|
                0 <= i < final(self)@.len() ==> final(rng).draws()[old(rng).draws().len() + i]
                    == bits_draw(bits, #[trigger] final(self)@[i][0]),
    {
        let n = self.nrows();
        let w = self.ncols();
        let ghost p = |r: int, c: int, e: int| intrel_entry(bits, r, c, e);
        let ghost req = Request::Bits(bits);
        let mut i: usize = 0;
        while i < n
            invariant
                i <= n,
                n == self@.len() == old(self)@.len(),
                w == self.width() == old(self).width(),
                forall|k: int| 0 <= k < n ==> #[trigger] self@[k].len() == old(self)@[k].len(),
                forall|k: int| 0 <= k < n ==> #[trigger] old(self)@[k].len() >= w,
                forall|r: int, c: int|
                    0 <= r < n && w <= c < old(self)@[r].len() ==> #[trigger] self@[r][c] == old(self)@[r][c],
                p == (|r: int, c: int, e: int| intrel_entry(bits, r, c, e)),
                filled_up_to(self@, w as int, i as int, 0, p),
                w >= 1,
                req == Request::Bits(bits),
                rng.draws() == old(rng).draws() + block_draws(self@, i as int, 0, 1, req),
            decreases n - i,
        {
            let mut j: usize = 0;
            while j < w
                invariant
                    i < n,
                    j <= w,
                    n == self@.len() == old(self)@.len(),
                    w == self.width() == old(self).width(),
                    forall|k: int| 0 <= k < n ==> #[trigger] self@[k].len() == old(self)@[k].len(),
                    forall|k: int| 0 <= k < n ==> #[trigger] old(self)@[k].len() >= w,
                    forall|r: int, c: int|
                        0 <= r < n && w <= c < old(self)@[r].len() ==> #[trigger] self@[r][c] == old(self)@[r][c],
                    p == (|r: int, c: int, e: int| intrel_entry(bits, r, c, e)),
                    filled_up_to(self@, w as int, i as int, j as int, p),
                    w >= 1,
                    req == Request::Bits(bits),
                    rng.draws() == old(rng).draws() + block_draws(self@, i as int, 0, 1, req)
                        + row_draws(self@[i as int], 0, if j == 0 { 0 } else { 1 }, req),
                decreases w - j,
            {
                let v = if j == 0 {
                    rand_bits(rng, bits)
                } else if i + 1 == j {
                    Z::one()
                } else {
                    Z::zero()
                };
                proof {
                    lemma_fill_step(self@, w as int, i as int, j as int, p, v@);
                    let m2 = self@.update(i as int, self@[i as int].update(j as int, v@));
                    lemma_block_draws_same_rows(self@, m2, i as int, 0, 1, req);
                    if j == 0 {
                        lemma_row_draws_push(self@[i as int], 0, 0, req, v@);
                    } else {
                        assert(row_draws(m2[i as int], 0, 1, req) =~= row_draws(self@[i as int], 0, 1, req));
                    }
                }
                self.set(i, j, v);
                j = j + 1;
            }
            proof {
                lemma_fill_next_row(self@, w as int, i as int, p);
                assert(block_draws(self@, i + 1, 0, 1, req) == block_draws(self@, i as int, 0, 1, req)
                    + row_draws(self@[i as int], 0, 1, req));
            }
            i = i + 1;
        }
        proof {
            lemma_filled_all(self@, w as int, p);
            lemma_intrel_weights_are_draws(old(rng).draws(), rng.draws(), self@, bits);
        }
    }

    /// Simultaneous Diophantine basis on the leading n x n block (n rows):
    /// 2^bits2 at (0, 0), random entries in [0, 2^bits) on the rest of row
    /// 0, 2^bits on the rest of the diagonal, zero elsewhere in the block;
    /// entry (0, j) is the (j - 1)-th draw this call takes with
    /// `rand_bits(bits)`. Columns n and beyond are left as they were.
    pub fn gen_simdioph(&mut self, bits: u32, bits2: u32, rng: &mut RandCtx)
        requires
            old(self)@.len() >= 1,
            old(self).width() >= old(self)@.len(),
            old(self).covers_width(),
        ensures
            final(self).width() == old(self).width(),
            same_shape(final(self)@, old(self)@),
            old(self).wf() ==> final(self).wf(),
            forall|i: int, j: int|
                0 <= i < final(self)@.len() && 0 <= j < final(self)@.len() ==> simdioph_entry(
                    bits,
                    bits2,
                    i,
                    j,
                    #[trigger] final(self)@[i][j],
                ),
            forall|i: int, j: int|
                0 <= i < final(self)@.len() && final(self)@.len() <= j < final(self)@[i].len()
                    ==> #[trigger] final(self)@[i][j] == old(self)@[i][j],
            final(rng).draws() == old(rng).draws() + block_draws(
                final(self)@,
                1,
                1,
                final(self)@.len() - 1,
                Request::Bits(bits),
            ),
            final(rng).draws().len() == old(rng).draws().len() + final(self)@.len() - 1,
            forall|j: int|
                1 <= j < final(self)@.len() ==> final(rng).draws()[old(rng).draws().len() + j - 1]
                    == bits_draw(bits, #[trigger] final(self)@[0][j]),
    {
        let n = self.nrows();
        let w = self.ncols();
        let two_b = power_of_two(bits);
        let ghost p = |r: int, c: int, e: int| simdioph_entry(bits, bits2, r, c, e);
        let ghost req = Request::Bits(bits);
        let mut i: usize = 0;
        while i < n
            invariant
                i <= n <= w,
                n == self@.len() == old(self)@.len(),
                w == self.width() == old(self).width(),
                forall|k: int| 0 <= k < n ==> #[trigger] self@[k].len() == old(self)@[k].len(),
                forall|k: int| 0 <= k < n ==> #[trigger] old(self)@[k].len() >= w,
                forall|r: int, c: int|
                    0 <= r < n && n <= c < old(self)@[r].len() ==> #[trigger] self@[r][c] == old(self)@[r][c],
                two_b@ == two_to(bits),
                p == (|r: int, c: int, e: int| simdioph_entry(bits, bits2, r, c, e)),
                filled_up_to(self@, n as int, i as int, 0, p),
                req == Request::Bits(bits),
                rng.draws() == old(rng).draws() + (if i == 0 {
                    Seq::empty()
                } else {
                    block_draws(self@, 1, 1, n - 1, req)
                }),
            decreases n - i,
        {
            let mut j: usize = 0;
            while j < n
                invariant
                    i < n <= w,
                    j <= n,
                    n == self@.len() == old(self)@.len(),
                    w == self.width() == old(self).width(),
                    forall|k: int| 0 <= k < n ==> #[trigger] self@[k].len() == old(self)@[k].len(),
                    forall|k: int| 0 <= k < n ==> #[trigger] old(self)@[k].len() >= w,
                    forall|r: int, c: int|
                        0 <= r < n && n <= c < old(self)@[r].len() ==> #[trigger] self@[r][c] == old(self)@[r][c],
                    two_b@ == two_to(bits),
                    p == (|r: int, c: int, e: int| simdioph_entry(bits, bits2, r, c, e)),
                    filled_up_to(self@, n as int, i as int, j as int, p),
                    req == Request::Bits(bits),
                    rng.draws() == old(rng).draws() + (if i == 0 {
                        row_draws(self@[0], 1, if j == 0 { 0 } else { j - 1 }, req)
                    } else {
                        block_draws(self@, 1, 1, n - 1, req)
                    }),
                decreases n - j,
            {
                let v = if i == 0 && j == 0 {
                    power_of_two(bits2)
                } else if i == 0 {
                    rand_bits(rng, bits)
                } else if i == j {
                    two_b.clone()
                } else {
                    Z::zero()
                };
                proof {
                    lemma_fill_step(self@, n as int, i as int, j as int, p, v@);
                    let m2 = self@.update(i as int, self@[i as int].update(j as int, v@));
                    if i == 0 {
                        if j == 0 {
                            assert(row_draws(m2[0], 1, 0, req) =~= row_draws(self@[0], 1, 0, req));
                        } else {
                            lemma_row_draws_push(self@[0], 1, j - 1, req, v@);
                        }
                    } else {
                        lemma_block_draws_same_rows(self@, m2, 1, 1, n - 1, req);
                    }
                }
                self.set(i, j, v);
                j = j + 1;
            }
            proof {
                lemma_fill_next_row(self@, n as int, i as int, p);
                if i == 0 {
                    assert(block_draws(self@, 0, 1, n - 1, req) == Seq::<Draw>::empty());
                    assert(block_draws(self@, 1, 1, n - 1, req) =~= row_draws(self@[0], 1, n - 1, req));
                }
            }
            i = i + 1;
        }
        proof {
            lemma_filled_all(self@, n as int, p);
            lemma_simdioph_row_is_draws(old(rng).draws(), rng.draws(), self@, bits);
        }
    }

    /// Every entry of the first `width()` columns random in [0, 2^bits):
    /// entry (i, j) is the draw numbered i * width() + j that this call takes
    /// from the generator with `rand_bits(bits)`, the draws going row after
    /// row; entries of a row beyond `width()` are left as they were.
    pub fn gen_uniform(&mut self, bits: u32, rng: &mut RandCtx)
        requires
            old(self).covers_width(),
        ensures
            final(self).width() == old(self).width(),
            same_shape(final(self)@, old(self)@),
            old(self).wf() ==> final(self).wf(),
            forall|i: int, j: int|
                0 <= i < final(self)@.len() && 0 <= j < final(self).width() ==> 0 <= #[trigger] final(self)@[i][j] < two_to(bits),
            forall|i: int, j: int|
                0 <= i < final(self)@.len() && final(self).width() <= j < final(self)@[i].len()
                    ==> #[trigger] final(self)@[i][j] == old(self)@[i][j],
            final(rng).draws() == old(rng).draws() + block_draws(
                final(self)@,
                final(self)@.len() as int,
                0,
                final(self).width() as int,
                Request::Bits(bits),
            ),
            final(rng).draws().len() == old(rng).draws().len() + final(self)@.len() * final(self).width(),
            forall|i: int, j: int|
                0 <= i < final(self)@.len() && 0 <= j < final(self).width() ==> final(rng).draws()[old(
                    rng,
                ).draws().len() + i * final(self).width() + j] == bits_draw(bits, #[trigger] final(self)@[i][j]),
    {
        let n = self.nrows();
        let w = self.ncols();
        let ghost p = |r: int, c: int, e: int| 0 <= e < two_to(bits);
        let ghost req = Request::Bits(bits);
        let mut i: usize = 0;
        while i < n
            invariant
                i <= n,
                n == self@.len() == old(self)@.len(),
                w == self.width() == old(self).width(),
                forall|k: int| 0 <= k < n ==> #[trigger] self@[k].len() == old(self)@[k].len(),
                forall|k: int| 0 <= k < n ==> #[trigger] old(self)@[k].len() >= w,
                forall|r: int, c: int|
                    0 <= r < n && w <= c < old(self)@[r].len() ==> #[trigger] self@[r][c] == old(self)@[r][c],
                p == (|r: int, c: int, e: int| 0 <= e < two_to(bits)),
                filled_up_to(self@, w as int, i as int, 0, p),
                req == Request::Bits(bits),
                rng.draws() == old(rng).draws() + block_draws(self@, i as int, 0, w as int, req),
            decreases n - i,
        {
            let mut j: usize = 0;
            while j < w
                invariant
                    i < n,
                    j <= w,
                    n == self@.len() == old(self)@.len(),
                    w == self.width() == old(self).width(),
                    forall|k: int| 0 <= k < n ==> #[trigger] self@[k].len() == old(self)@[k].len(),
                    forall|k: int| 0 <= k < n ==> #[trigger] old(self)@[k].len() >= w,
                    forall|r: int, c: int|
                        0 <= r < n && w <= c < old(self)@[r].len() ==> #[trigger] self@[r][c] == old(self)@[r][c],
                    p == (|r: int, c: int, e: int| 0 <= e < two_to(bits)),
                    filled_up_to(self@, w as int, i as int, j as int, p),
                    req == Request::Bits(bits),
                    rng.draws() == old(rng).draws() + block_draws(self@, i as int, 0, w as int, req)
                        + row_draws(self@[i as int], 0, j as int, req),
                decreases w - j,
            {
                let v = rand_bits(rng, bits);
                proof {
                    lemma_fill_step(self@, w as int, i as int, j as int, p, v@);
                    let m2 = self@.update(i as int, self@[i as int].update(j as int, v@));
                    lemma_block_draws_same_rows(self@, m2, i as int, 0, w as int, req);
                    lemma_row_draws_push(self@[i as int], 0, j as int, req, v@);
                }
                self.set(i, j, v);
                j = j + 1;
            }
            proof {
                lemma_fill_next_row(self@, w as int, i as int, p);
                assert(block_draws(self@, i + 1, 0, w as int, req) == block_draws(self@, i as int, 0, w as int, req)
                    + row_draws(self@[i as int], 0, w as int, req));
            }
            i = i + 1;
        }
        proof {
            lemma_filled_all(self@, w as int, p);
            lemma_uniform_entries_are_draws(old(rng).draws(), rng.draws(), self@, w as int, bits);
        }
    }

    /// A random q in [2^(bits-1), 2^bits): 2^(bits-1) plus one draw of
    /// `rand_bits(bits - 1)`.
    pub fn gen_q(bits: u32, rng: &mut RandCtx) -> (r: Z)
        requires
            bits >= 1,
        ensures
            two_to((bits - 1) as u32) <= r@ < two_to(bits),
            final(rng).draws() == old(rng).draws().push(
                bits_draw((bits - 1) as u32, r@ - two_to((bits - 1) as u32)),
            ),
    {
        let pow = power_of_two(bits - 1);
        let low = rand_bits(rng, bits - 1);
        let mut r = Z::zero();
        r.add_set(&low, &pow);
        proof {
            lemma_pow2_unfold(bits as nat);
        }
        r
    }

    /// The 2d x 2d basis [[I, H], [0, qI]] with d = nrows / 2 and H the
    /// circulant matrix of a random vector h with entries in [0, q), h being
    /// the d draws this call takes with `rand_below(q)`; every other entry of
    /// every row is zero.
    pub fn gen_ntrulike(&mut self, q: &Z, rng: &mut RandCtx)
        requires
            old(self).covers_width(),
            2 * (old(self)@.len() / 2) <= old(self).width(),
            old(self)@.len() / 2 == 0 || q@ > 0,
        ensures
            final(self).width() == old(self).width(),
            same_shape(final(self)@, old(self)@),
            old(self).wf() ==> final(self).wf(),
            exists|h: Seq<int>|
                #[trigger] is_ntrulike(final(self)@, h, q@) && final(rng).draws() == old(rng).draws()
                    + row_draws(h, 0, h.len() as int, Request::Below(q@)),
            final(rng).draws().len() == old(rng).draws().len() + final(self)@.len() / 2,
            forall|k: int|
                0 <= k < final(self)@.len() / 2 ==> final(rng).draws()[old(rng).draws().len() + k]
                    == below_draw(q@, #[trigger] final(self)@[0][final(self)@.len() / 2 + k]),
    {
        let n = self.nrows();
        let d = n / 2;
        let h = draw_below(d, q, rng);
        let ghost hs = row_ints(h@);
        let ghost p = |r: int, c: int, e: int| e == ntrulike_entry(hs, q@, r, c);
        let mut i: usize = 0;
        while i < n
            invariant
                i <= n,
                n == self@.len() == old(self)@.len(),
                self.width() == old(self).width(),
                forall|k: int| 0 <= k < n ==> #[trigger] self@[k].len() == old(self)@[k].len(),
                d == n / 2,
                h@.len() == d,
                hs == row_ints(h@),
                p == (|r: int, c: int, e: int| e == ntrulike_entry(hs, q@, r, c)),
                filled_rows(self@, i as int, 0, p),
                rng.draws() == old(rng).draws() + row_draws(hs, 0, d as int, Request::Below(q@)),
            decreases n - i,
        {
            let rl = self.row(i).len();
            let mut j: usize = 0;
            while j < rl
                invariant
                    i < n,
                    j <= rl == self@[i as int].len(),
                    n == self@.len() == old(self)@.len(),
                    self.width() == old(self).width(),
                    forall|k: int| 0 <= k < n ==> #[trigger] self@[k].len() == old(self)@[k].len(),
                    d == n / 2,
                    h@.len() == d,
                    hs == row_ints(h@),
                    p == (|r: int, c: int, e: int| e == ntrulike_entry(hs, q@, r, c)),
                    filled_rows(self@, i as int, j as int, p),
                decreases rl - j,
            {
                let v = if i < d && j < d {
                    if i == j {
                        Z::one()
                    } else {
                        Z::zero()
                    }
                } else if i < d && d <= j && j - d < d {
                    h[(i + (j - d)) % d].clone()
                } else if d <= i && i - d < d && d <= j && j - d < d {
                    if i == j {
                        q.clone()
                    } else {
                        Z::zero()
                    }
                } else {
                    Z::zero()
                };
                proof {
                    lemma_fill_rows_step(self@, i as int, j as int, p, v@);
                }
                self.set(i, j, v);
                j = j + 1;
            }
            proof {
                lemma_fill_rows_next(self@, i as int, p);
            }
            i = i + 1;
        }
        proof {
            lemma_filled_rows_all(self@, p);
            assert(is_ntrulike(self@, hs, q@));
            assert(hs.len() == d);
            lemma_ntrulike_vector_is_draws(old(rng).draws(), rng.draws(), self@, hs, q@);
        }
    }

    /// The 2d x 2d basis [[qI, 0], [H, I]] with d = nrows / 2 and H the
    /// circulant matrix of a random vector h with entries in [0, q), h being
    /// the d draws this call takes with `rand_below(q)`; every other entry of
    /// every row is zero.
    pub fn gen_ntrulike2(&mut self, q: &Z, rng: &mut RandCtx)
        requires
            old(self).covers_width(),
            2 * (old(self)@.len() / 2) <= old(self).width(),
            old(self)@.len() / 2 == 0 || q@ > 0,
        ensures
            final(self).width() == old(self).width(),
            same_shape(final(self)@, old(self)@),
            old(self).wf() ==> final(self).wf(),
            exists|h: Seq<int>|
                #[trigger] is_ntrulike2(final(self)@, h, q@) && final(rng).draws() == old(rng).draws()
                    + row_draws(h, 0, h.len() as int, Request::Below(q@)),
            final(rng).draws().len() == old(rng).draws().len() + final(self)@.len() / 2,
            forall|k: int|
                0 <= k < final(self)@.len() / 2 ==> final(rng).draws()[old(rng).draws().len() + k]
                    == below_draw(q@, #[trigger] final(self)@[(final(self)@.len() / 2) as int][k]),
    {
        let n = self.nrows();
        let d = n / 2;
        let h = draw_below(d, q, rng);
        let ghost hs = row_ints(h@);
        let ghost p = |r: int, c: int, e: int| e == ntrulike2_entry(hs, q@, r, c);
        let mut i: usize = 0;
        while i < n
            invariant
                i <= n,
                n == self@.len() == old(self)@.len(),
                self.width() == old(self).width(),
                forall|k: int| 0 <= k < n ==> #[trigger] self@[k].len() == old(self)@[k].len(),
                d == n / 2,
                h@.len() == d,
                hs == row_ints(h@),
                p == (|r: int, c: int, e: int| e == ntrulike2_entry(hs, q@, r, c)),
                filled_rows(self@, i as int, 0, p),
                rng.draws() == old(rng).draws() + row_draws(hs, 0, d as int, Request::Below(q@)),
            decreases n - i,
        {
            let rl = self.row(i).len();
            let mut j: usize = 0;
            while j < rl
                invariant
                    i < n,
                    j <= rl == self@[i as int].len(),
                    n == self@.len() == old(self)@.len(),
                    self.width() == old(self).width(),
                    forall|k: int| 0 <= k < n ==> #[trigger] self@[k].len() == old(self)@[k].len(),
                    d == n / 2,
                    h@.len() == d,
                    hs == row_ints(h@),
                    p == (|r: int, c: int, e: int| e == ntrulike2_entry(hs, q@, r, c)),
                    filled_rows(self@, i as int, j as int, p),
                decreases rl - j,
            {
                let v = if i < d && j < d {
                    if i == j {
                        q.clone()
                    } else {
                        Z::zero()
                    }
                } else if d <= i && i - d < d && j < d {
                    h[((i - d) + j) % d].clone()
                } else if d <= i && i - d < d && d <= j && j - d < d {
                    if i == j {
                        Z::one()
                    } else {
                        Z::zero()
                    }
                } else {
                    Z::zero()
                };
                proof {
                    lemma_fill_rows_step(self@, i as int, j as int, p, v@);
                }
                self.set(i, j, v);
                j = j + 1;
            }
            proof {
                lemma_fill_rows_next(self@, i as int, p);
            }
            i = i + 1;
        }
        proof {
            lemma_filled_rows_all(self@, p);
            assert(is_ntrulike2(self@, hs, q@));
            assert(hs.len() == d);
            lemma_ntrulike2_vector_is_draws(old(rng).draws(), rng.draws(), self@, hs, q@);
        }
    }

    /// The q-ary basis [[I, H], [0, qI]] of dimension n = nrows: the
    /// identity on the first n - k rows and columns, a random (n - k) x k
    /// block H with entries in [0, q) to its right, q times the identity on
    /// the last k rows and columns, zero elsewhere in every row; H holds the
    /// draws this call takes with `rand_below(q)`, row after row.
    pub fn gen_qary(&mut self, k: usize, q: &Z, rng: &mut RandCtx)
        requires
            k <= old(self)@.len(),
            old(self)@.len() <= old(self).width(),
            old(self).covers_width(),
            old(self)@.len() == k || k == 0 || q@ > 0,
        ensures
            final(self).width() == old(self).width(),
            same_shape(final(self)@, old(self)@),
            old(self).wf() ==> final(self).wf(),
            forall|i: int, j: int|
                0 <= i < final(self)@.len() && 0 <= j < final(self)@[i].len() ==> qary_entry(
                    final(self)@.len() as int,
                    k as int,
                    q@,
                    i,
                    j,
                    #[trigger] final(self)@[i][j],
                ),
            final(rng).draws() == old(rng).draws() + block_draws(
                final(self)@,
                final(self)@.len() - k,
                final(self)@.len() - k,
                k as int,
                Request::Below(q@),
            ),
            final(rng).draws().len() == old(rng).draws().len() + (final(self)@.len() - k) * k,
            forall|i: int, j: int|
                0 <= i < final(self)@.len() - k && 0 <= j < k ==> final(rng).draws()[old(
                    rng,
                ).draws().len() + i * k + j] == below_draw(
                    q@,
                    #[trigger] final(self)@[i][final(self)@.len() - k + j],
                ),
    {
        let n = self.nrows();
        let top = n - k;
        let ghost p = |r: int, c: int, e: int| qary_entry(n as int, k as int, q@, r, c, e);
        let ghost req = Request::Below(q@);
        let mut i: usize = 0;
        while i < n
            invariant
                i <= n,
                k <= n,
                top == n - k,
                n == k || k == 0 || q@ > 0,
                n == self@.len() == old(self)@.len(),
                self.width() == old(self).width(),
                forall|kk: int| 0 <= kk < n ==> #[trigger] self@[kk].len() == old(self)@[kk].len(),
                p == (|r: int, c: int, e: int| qary_entry(n as int, k as int, q@, r, c, e)),
                filled_rows(self@, i as int, 0, p),
                forall|kk: int| 0 <= kk < n ==> #[trigger] old(self)@[kk].len() >= n,
                req == Request::Below(q@),
                rng.draws() == old(rng).draws() + block_draws(
                    self@,
                    if i <= top { i as int } else { top as int },
                    top as int,
                    k as int,
                    req,
                ),
            decreases n - i,
        {
            let rl = self.row(i).len();
            let mut j: usize = 0;
            while j < rl
                invariant
                    i < n,
                    j <= rl == self@[i as int].len(),
                    k <= n,
                    top == n - k,
                    n == k || k == 0 || q@ > 0,
                    n == self@.len() == old(self)@.len(),
                    self.width() == old(self).width(),
                    forall|kk: int| 0 <= kk < n ==> #[trigger] self@[kk].len() == old(self)@[kk].len(),
                    p == (|r: int, c: int, e: int| qary_entry(n as int, k as int, q@, r, c, e)),
                    filled_rows(self@, i as int, j as int, p),
                    forall|kk: int| 0 <= kk < n ==> #[trigger] old(self)@[kk].len() >= n,
                    req == Request::Below(q@),
                    rng.draws() == old(rng).draws() + block_draws(
                        self@,
                        if i <= top { i as int } else { top as int },
                        top as int,
                        k as int,
                        req,
                    ) + (if i < top {
                        row_draws(self@[i as int], top as int, qary_drawn(j as int, top as int, k as int), req)
                    } else {
                        Seq::empty()
                    }),
                decreases rl - j,
            {
                let v = if i < top && j < top {
                    if i == j {
                        Z::one()
                    } else {
                        Z::zero()
                    }
                } else if i < top && top <= j && j < n {
                    rand_below(rng, q)
                } else if top <= i && top <= j && j < n {
                    if i == j {
                        q.clone()
                    } else {
                        Z::zero()
                    }
                } else {
                    Z::zero()
                };
                proof {
                    lemma_fill_rows_step(self@, i as int, j as int, p, v@);
                    let m2 = self@.update(i as int, self@[i as int].update(j as int, v@));
                    if i < top {
                        lemma_block_draws_same_rows(self@, m2, i as int, top as int, k as int, req);
                        if top <= j && j < n {
                            lemma_row_draws_push(self@[i as int], top as int, j - top, req, v@);
                        } else {
                            let t = qary_drawn(j as int, top as int, k as int);
                            assert(row_draws(m2[i as int], top as int, t, req) =~= row_draws(
                                self@[i as int],
                                top as int,
                                t,
                                req,
                            ));
                        }
                    } else {
                        lemma_block_draws_same_rows(self@, m2, top as int, top as int, k as int, req);
                    }
                }
                self.set(i, j, v);
                j = j + 1;
            }
            proof {
                lemma_fill_rows_next(self@, i as int, p);
                if i < top {
                    assert(block_draws(self@, i + 1, top as int, k as int, req) == block_draws(
                        self@,
                        i as int,
                        top as int,
                        k as int,
                        req,
                    ) + row_draws(self@[i as int], top as int, k as int, req));
                }
            }
            i = i + 1;
        }
        proof {
            lemma_filled_rows_all(self@, p);
            lemma_qary_block_is_draws(old(rng).draws(), rng.draws(), self@, k as int, q@);
        }
    }

    /// Lower triangular basis of a square matrix: row i has 2^exps[i] on the
    /// diagonal and random entries in [-(2^exps[i] / 2), 2^exps[i] - 2^exps[i] / 2) left
    /// of it, each a draw of `rand_below(2^exps[i])` less 2^exps[i] / 2, the
    /// draws going row after row; zero in the rest of every row.
    pub fn gen_trg_with_exponents(&mut self, exps: &[u32], rng: &mut RandCtx)
        requires
            old(self).covers_width(),
            old(self).width() == old(self)@.len(),
            exps@.len() == old(self)@.len(),
        ensures
            final(self).width() == old(self).width(),
            same_shape(final(self)@, old(self)@),
            old(self).wf() ==> final(self).wf(),
            forall|i: int, j: int|
                0 <= i < final(self)@.len() && 0 <= j < final(self)@[i].len() ==> trg_entry(
                    exps@,
                    i,
                    j,
                    #[trigger] final(self)@[i][j],
                ),
            final(rng).draws() == old(rng).draws() + trg_draws(final(self)@, exps@, final(self)@.len() as int),
    {
        let n = self.nrows();
        let ghost p = |r: int, c: int, e: int| trg_entry(exps@, r, c, e);
        proof {
            lemma2_to64();
        }
        let mut i: usize = 0;
        while i < n
            invariant
                i <= n,
                n == self@.len() == old(self)@.len() == exps@.len(),
                self.width() == old(self).width(),
                forall|k: int| 0 <= k < n ==> #[trigger] self@[k].len() == old(self)@[k].len(),
                pow2(1) == 2,
                p == (|r: int, c: int, e: int| trg_entry(exps@, r, c, e)),
                filled_rows(self@, i as int, 0, p),
                forall|kk: int| 0 <= kk < n ==> #[trigger] old(self)@[kk].len() >= n,
                rng.draws() == old(rng).draws() + trg_draws(self@, exps@, i as int),
            decreases n - i,
        {
            let diag = power_of_two(exps[i]);
            let mut half = Z::zero();
            half.mul_2si(&diag, -1);
            proof {
                vstd::arithmetic::power2::lemma_pow2_pos(exps[i as int] as nat);
                assert(half@ == diag@ / 2);
            }
            let rl = self.row(i).len();
            let mut j: usize = 0;
            while j < rl
                invariant
                    i < n,
                    j <= rl == self@[i as int].len(),
                    n == self@.len() == old(self)@.len() == exps@.len(),
                    self.width() == old(self).width(),
                    forall|k: int| 0 <= k < n ==> #[trigger] self@[k].len() == old(self)@[k].len(),
                    diag@ == two_to(exps@[i as int]),
                    diag@ > 0,
                    half@ == diag@ / 2,
                    p == (|r: int, c: int, e: int| trg_entry(exps@, r, c, e)),
                    filled_rows(self@, i as int, j as int, p),
                    forall|kk: int| 0 <= kk < n ==> #[trigger] old(self)@[kk].len() >= n,
                    rng.draws() == old(rng).draws() + trg_draws(self@, exps@, i as int) + trg_row_draws(
                        self@[i as int],
                        exps@[i as int],
                        if j <= i { j as int } else { i as int },
                    ),
                decreases rl - j,
            {
                let v = if j < i {
                    let draw = rand_below(rng, &diag);
                    let mut centred = Z::zero();
                    centred.sub_set(&draw, &half);
                    centred
                } else if j == i {
                    diag.clone()
                } else {
                    Z::zero()
                };
                proof {
                    lemma_fill_rows_step(self@, i as int, j as int, p, v@);
                    let m2 = self@.update(i as int, self@[i as int].update(j as int, v@));
                    lemma_trg_draws_same_rows(self@, m2, exps@, i as int);
                    let e = exps@[i as int];
                    if j < i {
                        assert(trg_row_draws(m2[i as int], e, j + 1) =~= trg_row_draws(
                            self@[i as int],
                            e,
                            j as int,
                        ).push(below_draw(diag@, v@ + diag@ / 2)));
                    } else {
                        assert(trg_row_draws(m2[i as int], e, i as int) =~= trg_row_draws(
                            self@[i as int],
                            e,
                            i as int,
                        ));
                    }
                }
                self.set(i, j, v);
                j = j + 1;
            }
            proof {
                lemma_fill_rows_next(self@, i as int, p);
                assert(trg_draws(self@, exps@, i + 1) == trg_draws(self@, exps@, i as int) + trg_row_draws(
                    self@[i as int],
                    exps@[i as int],
                    i as int,
                ));
            }
            i = i + 1;
        }
        proof {
            lemma_filled_rows_all(self@, p);
        }
    }
}

} // verus!
