//! Exact integer arithmetic on matrices of `i64`: every operation's result is
//! stated over mathematical integers, and its precondition rules out
//! overflow.

use vstd::prelude::*;
use crate::matrix::{Matrix, column, has_shape, folds_to, product_by, step_accepted};

verus! {

/// `x` is representable as an `i64`.
pub open spec fn fits(x: int) -> bool {
    i64::MIN <= x <= i64::MAX
}

/// `m` with `n` added to each entry.
pub open spec fn offset_by(m: Seq<Seq<i64>>, n: int) -> Seq<Seq<i64>> {
    Seq::new(m.len(), |i: int| Seq::new(m[i].len(), |j: int| (m[i][j] + n) as i64))
}

/// `m` with each entry multiplied by `n`.
pub open spec fn scaled_by(m: Seq<Seq<i64>>, n: int) -> Seq<Seq<i64>> {
    Seq::new(m.len(), |i: int| Seq::new(m[i].len(), |j: int| (m[i][j] * n) as i64))
}

/// The entrywise sum of `a` and `b`, in the shape of `a`.
pub open spec fn sum(a: Seq<Seq<i64>>, b: Seq<Seq<i64>>) -> Seq<Seq<i64>> {
    Seq::new(a.len(), |i: int| Seq::new(a[i].len(), |j: int| (a[i][j] + b[i][j]) as i64))
}

/// The entrywise difference `a - b`, in the shape of `a`.
pub open spec fn difference(a: Seq<Seq<i64>>, b: Seq<Seq<i64>>) -> Seq<Seq<i64>> {
    Seq::new(a.len(), |i: int| Seq::new(a[i].len(), |j: int| (a[i][j] - b[i][j]) as i64))
}

/// The entrywise (Hadamard) product of `a` and `b`, in the shape of `a`.
pub open spec fn hadamard(a: Seq<Seq<i64>>, b: Seq<Seq<i64>>) -> Seq<Seq<i64>> {
    Seq::new(a.len(), |i: int| Seq::new(a[i].len(), |j: int| (a[i][j] * b[i][j]) as i64))
}

/// `u[0] * v[0] + ... + u[k - 1] * v[k - 1]`.
pub open spec fn dot(u: Seq<i64>, v: Seq<i64>, k: nat) -> int
    decreases k,
{
    if k == 0 {
        0
    } else {
        dot(u, v, (k - 1) as nat) + u[k - 1] * v[k - 1]
    }
}

/// The matrix product of `a` (with `inner` columns) and `b` (with `columns`
/// columns): entry `(i, j)` is the dot product of row `i` of `a` and column
/// `j` of `b`.
pub open spec fn product(a: Seq<Seq<i64>>, b: Seq<Seq<i64>>, inner: nat, columns: nat) -> Seq<Seq<i64>> {
    Seq::new(a.len(), |i: int| Seq::new(columns, |j: int| dot(a[i], column(b, j), inner) as i64))
}

/// Every product of two entries, and every partial sum, met while
/// computing the product of `a` and `b` fits in an `i64`.
pub open spec fn product_fits(a: Seq<Seq<i64>>, b: Seq<Seq<i64>>, inner: nat, columns: nat) -> bool {
    forall|i: int, j: int, k: int|
        0 <= i < a.len() && 0 <= j < columns && 0 <= k < inner ==> {
            &&& fits(a[i][k] * b[k][j])
            &&& fits(#[trigger] dot(a[i], column(b, j), (k + 1) as nat))
        }
}

/// Every entry of `m` plus `n` fits in an `i64`.
pub open spec fn offset_fits(m: Seq<Seq<i64>>, n: int) -> bool {
    forall|i: int, j: int| 0 <= i < m.len() && 0 <= j < m[i].len() ==> fits(#[trigger] m[i][j] + n)
}

/// Every entry of `m` times `n` fits in an `i64`.
pub open spec fn scale_fits(m: Seq<Seq<i64>>, n: int) -> bool {
    forall|i: int, j: int| 0 <= i < m.len() && 0 <= j < m[i].len() ==> fits(#[trigger] m[i][j] * n)
}

/// Entrywise sums of `a` and `b` fit in an `i64`.
pub open spec fn sum_fits(a: Seq<Seq<i64>>, b: Seq<Seq<i64>>) -> bool {
    forall|i: int, j: int| 0 <= i < a.len() && 0 <= j < a[i].len() ==> fits(#[trigger] a[i][j] + b[i][j])
}

/// Entrywise differences `a - b` fit in an `i64`.
pub open spec fn difference_fits(a: Seq<Seq<i64>>, b: Seq<Seq<i64>>) -> bool {
    forall|i: int, j: int| 0 <= i < a.len() && 0 <= j < a[i].len() ==> fits(#[trigger] a[i][j] - b[i][j])
}

/// Entrywise products of `a` and `b` fit in an `i64`.
pub open spec fn hadamard_fits(a: Seq<Seq<i64>>, b: Seq<Seq<i64>>) -> bool {
    forall|i: int, j: int| 0 <= i < a.len() && 0 <= j < a[i].len() ==> fits(#[trigger] a[i][j] * b[i][j])
}

/// With `plus` and `times` exact on `i64`, folding from zero gives the dot
/// product.
pub proof fn lemma_fold_is_dot<A: Fn(i64, i64) -> i64, M: Fn(i64, i64) -> i64>(
    plus: A,
    times: M,
    u: Seq<i64>,
    v: Seq<i64>,
    k: nat,
    r: i64,
)
    requires
        forall|x: i64, y: i64, z: i64| plus.ensures((x, y), z) ==> z == x + y,
        forall|x: i64, y: i64, z: i64| times.ensures((x, y), z) ==> z == x * y,
        folds_to(plus, times, 0i64, u, v, k, r),
    ensures
        r == dot(u, v, k),
    decreases k,
{
    if k > 0 {
        let (s, p) = choose|s: i64, p: i64|
            #[trigger] plus.ensures((s, p), r) && folds_to(plus, times, 0i64, u, v, (k - 1) as nat, s)
                && times.ensures((u[k - 1], v[k - 1]), p);
        lemma_fold_is_dot(plus, times, u, v, (k - 1) as nat, s);
    }
}

/// Relies on `rand::Rng::gen_range` on `rand::thread_rng()`: a value drawn
/// uniformly from `low..=high` (which panics on an empty range) lies in that
/// range.
#[verifier::external_body]
fn random_in(low: i64, high: i64) -> (r: i64)
    requires
        low <= high,
    ensures
        low <= r <= high,
{
    rand::Rng::gen_range(&mut rand::thread_rng(), low..=high)
}

/// Adding zero to every entry leaves a matrix unchanged.
pub proof fn lemma_add_scalar_zero(m: Seq<Seq<i64>>)
    ensures
        offset_by(m, 0) == m,
{
    assert forall|i: int| 0 <= i < m.len() implies #[trigger] offset_by(m, 0)[i] =~= m[i] by {}
    assert(offset_by(m, 0) =~= m);
}

/// Multiplying every entry by one leaves a matrix unchanged.
pub proof fn lemma_multiply_scalar_one(m: Seq<Seq<i64>>)
    ensures
        scaled_by(m, 1) == m,
{
    assert forall|i: int| 0 <= i < m.len() implies #[trigger] scaled_by(m, 1)[i] =~= m[i] by {}
    assert(scaled_by(m, 1) =~= m);
}

/// Shape law: for all matrices `a` (`a.len()` rows, `inner` columns) and
/// `b` (`inner` rows, `columns` columns), their product has `a.len()` rows
/// and `columns` columns, whatever the entries.
pub proof fn lemma_product_shape(a: Seq<Seq<i64>>, b: Seq<Seq<i64>>, inner: nat, columns: nat)
    ensures
        has_shape(product(a, b, inner, columns), a.len(), columns),
{
}

/// Every backend computes the reference product: the product driven by
/// `plus` and `times` (the engine under `product_into`, and under the pooled
/// product) gives, when they are exact `i64` addition and multiplication
/// started from zero and no partial sum overflows, exactly the matrix whose
/// entry `(i, j)` is the dot product of row `i` of `a` and column `j` of `b`.
pub proof fn lemma_exact_product_is_reference<A: Fn(i64, i64) -> i64, M: Fn(i64, i64) -> i64>(
    a: Seq<Seq<i64>>,
    b: Seq<Seq<i64>>,
    inner: nat,
    columns: nat,
    plus: A,
    times: M,
    r: Seq<Seq<i64>>,
)
    requires
        forall|x: i64, y: i64, z: i64| plus.ensures((x, y), z) ==> z == x + y,
        forall|x: i64, y: i64, z: i64| times.ensures((x, y), z) ==> z == x * y,
        product_by(a, b, inner, columns, plus, times, 0i64, r),
        product_fits(a, b, inner, columns),
    ensures
        r == product(a, b, inner, columns),
{
    let e = product(a, b, inner, columns);
    assert forall|i: int| 0 <= i < a.len() implies #[trigger] r[i] =~= e[i] by {
        assert forall|j: int| 0 <= j < columns implies r[i][j] == e[i][j] by {
            lemma_fold_is_dot(plus, times, a[i], column(b, j), inner, r[i][j]);
            if inner > 0 {
                assert(fits(dot(a[i], column(b, j), ((inner - 1) + 1) as nat)));
            }
        }
    }
    assert(r =~= e);
}

impl Matrix<i64> {
    /// A zero-filled `rows × columns` matrix.
    pub fn new(rows: usize, columns: usize) -> (r: Self)
        requires
            rows * columns <= usize::MAX,
        ensures
            r.wf(),
            r.nrows() == rows,
            r.ncols() == columns,
            forall|i: int, j: int| 0 <= i < rows && 0 <= j < columns ==> #[trigger] r@[i][j] == 0,
    {
        Matrix::filled(rows, columns, 0)
    }

    /// Overwrites every entry with a value drawn uniformly from
    /// `low..=high`.
    pub fn randomize(&mut self, low: i64, high: i64)
        requires
            old(self).wf(),
            low <= high,
        ensures
            final(self).wf(),
            final(self).nrows() == old(self).nrows(),
            final(self).ncols() == old(self).ncols(),
            forall|i: int, j: int|
                0 <= i < final(self).nrows() && 0 <= j < final(self).ncols() ==> low <= #[trigger] final(self)@[i][j] <= high,
    {
        let draw = |_x: i64| -> (r: i64)
            ensures
                low <= r <= high,
        { random_in(low, high) };
        self.apply(&draw);
    }

    /// Adds `n` to every entry, in place.
    pub fn add_scalar(&mut self, n: i64)
        requires
            old(self).wf(),
            offset_fits(old(self)@, n as int),
        ensures
            final(self).wf(),
            final(self).nrows() == old(self).nrows(),
            final(self).ncols() == old(self).ncols(),
            final(self)@ == offset_by(old(self)@, n as int),
    {
        let f = |x: i64| -> (r: i64)
            requires
                fits(x + n),
            ensures
                r == x + n,
        { x + n };
        let ghost m = self@;
        self.apply(&f);
        proof {
            assert forall|i: int| 0 <= i < m.len() implies #[trigger] self@[i] =~= offset_by(m, n as int)[i] by {}
            assert(self@ =~= offset_by(m, n as int));
        }
    }

    /// Multiplies every entry by `n`, in place.
    pub fn multiply_scalar(&mut self, n: i64)
        requires
            old(self).wf(),
            scale_fits(old(self)@, n as int),
        ensures
            final(self).wf(),
            final(self).nrows() == old(self).nrows(),
            final(self).ncols() == old(self).ncols(),
            final(self)@ == scaled_by(old(self)@, n as int),
    {
        let f = |x: i64| -> (r: i64)
            requires
                fits(x * n),
            ensures
                r == x * n,
        { x * n };
        let ghost m = self@;
        self.apply(&f);
        proof {
            assert forall|i: int| 0 <= i < m.len() implies #[trigger] self@[i] =~= scaled_by(m, n as int)[i] by {}
            assert(self@ =~= scaled_by(m, n as int));
        }
    }

    /// Adds `b`, of the same shape, entry by entry, in place.
    pub fn add_matrix(&mut self, b: &Self)
        requires
            old(self).wf(),
            b.wf(),
            b.nrows() == old(self).nrows(),
            b.ncols() == old(self).ncols(),
            sum_fits(old(self)@, b@),
        ensures
            final(self).wf(),
            final(self).nrows() == old(self).nrows(),
            final(self).ncols() == old(self).ncols(),
            final(self)@ == sum(old(self)@, b@),
    {
        let f = |x: i64, y: i64| -> (r: i64)
            requires
                fits(x + y),
            ensures
                r == x + y,
        { x + y };
        let ghost m = self@;
        self.combine(b, &f);
        proof {
            assert forall|i: int| 0 <= i < m.len() implies #[trigger] self@[i] =~= sum(m, b@)[i] by {}
            assert(self@ =~= sum(m, b@));
        }
    }

    /// `self - b`, entry by entry, as a new matrix; `b` has the shape of
    /// `self`.
    pub fn subtract_matrix(&self, b: &Self) -> (r: Self)
        requires
            self.wf(),
            b.wf(),
            b.nrows() == self.nrows(),
            b.ncols() == self.ncols(),
            difference_fits(self@, b@),
        ensures
            r.wf(),
            r.nrows() == self.nrows(),
            r.ncols() == self.ncols(),
            r@ == difference(self@, b@),
    {
        let f = |x: i64, y: i64| -> (r: i64)
            requires
                fits(x - y),
            ensures
                r == x - y,
        { x - y };
        let r = self.zip(b, &f);
        proof {
            assert forall|i: int| 0 <= i < self@.len() implies #[trigger] r@[i] =~= difference(self@, b@)[i] by {}
            assert(r@ =~= difference(self@, b@));
        }
        r
    }

    /// Multiplies by `b`, of the same shape, entry by entry (the Hadamard
    /// product), in place.
    pub fn multiply_matrix(&mut self, b: &Self)
        requires
            old(self).wf(),
            b.wf(),
            b.nrows() == old(self).nrows(),
            b.ncols() == old(self).ncols(),
            hadamard_fits(old(self)@, b@),
        ensures
            final(self).wf(),
            final(self).nrows() == old(self).nrows(),
            final(self).ncols() == old(self).ncols(),
            final(self)@ == hadamard(old(self)@, b@),
    {
        let f = |x: i64, y: i64| -> (r: i64)
            requires
                fits(x * y),
            ensures
                r == x * y,
        { x * y };
        let ghost m = self@;
        self.combine(b, &f);
        proof {
            assert forall|i: int| 0 <= i < m.len() implies #[trigger] self@[i] =~= hadamard(m, b@)[i] by {}
            assert(self@ =~= hadamard(m, b@));
        }
    }

    /// The Hadamard product of `self` and `b` as a new matrix.
    pub fn multiply_matrix_ret(&self, b: &Self) -> (r: Self)
        requires
            self.wf(),
            b.wf(),
            b.nrows() == self.nrows(),
            b.ncols() == self.ncols(),
            hadamard_fits(self@, b@),
        ensures
            r.wf(),
            r.nrows() == self.nrows(),
            r.ncols() == self.ncols(),
            r@ == hadamard(self@, b@),
    {
        let mut a = self.copy();
        a.multiply_matrix(b);
        a
    }

    /// Writes the matrix product `self · b` into `out`. `self.columns` must
    /// equal `b.rows`, and `out` must be `self.rows × b.columns`; nothing but
    /// a transposed copy of `b` is allocated.
    pub fn product_into(&self, b: &Self, out: &mut Self)
        requires
            self.wf(),
            b.wf(),
            old(out).wf(),
            self.ncols() == b.nrows(),
            old(out).nrows() == self.nrows(),
            old(out).ncols() == b.ncols(),
            product_fits(self@, b@, self.ncols(), b.ncols()),
        ensures
            final(out).wf(),
            final(out).nrows() == self.nrows(),
            final(out).ncols() == b.ncols(),
            final(out)@ == product(self@, b@, self.ncols(), b.ncols()),
    {
        let plus = |x: i64, y: i64| -> (r: i64)
            requires
                fits(x + y),
            ensures
                r == x + y,
        { x + y };
        let times = |x: i64, y: i64| -> (r: i64)
            requires
                fits(x * y),
            ensures
                r == x * y,
        { x * y };
        let ghost a = self@;
        let ghost bm = b@;
        let ghost n = self.ncols();
        let ghost p = b.ncols();
        proof {
            assert forall|i: int, j: int, k: int| 0 <= i < a.len() && 0 <= j < p && 0 <= k < n implies #[trigger] step_accepted(a, bm, plus, times, 0i64, i, j, k) by {
                assert(fits(dot(a[i], column(bm, j), (k + 1) as nat)));
                assert forall|s: i64, q: i64|
                    folds_to(plus, times, 0i64, a[i], column(bm, j), k as nat, s) && times.ensures((a[i][k], bm[k][j]), q)
                    implies #[trigger] plus.requires((s, q)) by {
                    lemma_fold_is_dot(plus, times, a[i], column(bm, j), k as nat, s);
                }
            }
        }
        self.product_into_with(b, out, 0, &plus, &times);
        proof {
            lemma_exact_product_is_reference(a, bm, n, p, plus, times, out@);
        }
    }

    /// The matrix product `self · b` as a new `self.rows × b.columns`
    /// matrix.
    pub fn product(&self, b: &Self) -> (r: Self)
        requires
            self.wf(),
            b.wf(),
            self.ncols() == b.nrows(),
            self.nrows() * b.ncols() <= usize::MAX,
            product_fits(self@, b@, self.ncols(), b.ncols()),
        ensures
            r.wf(),
            r.nrows() == self.nrows(),
            r.ncols() == b.ncols(),
            r@ == product(self@, b@, self.ncols(), b.ncols()),
    {
        let (rows, _) = self.size();
        let (_, columns) = b.size();
        let mut r = Matrix::new(rows, columns);
        self.product_into(b, &mut r);
        r
    }
}

} // verus!
