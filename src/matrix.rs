//! The dense matrix type: storage, shape, layouts, transposition, and the
//! elementwise and product operations driven by caller-supplied scalar
//! functions.

use vstd::prelude::*;

verus! {

/// How a flat buffer orders the entries of a matrix.
#[derive(Clone, Copy, Debug, PartialEq, Eq, Structural)]
pub enum Layout {
    /// Row after row: entry `(i, j)` sits at `i * columns + j`.
    RowMajor,
    /// Column after column: entry `(i, j)` sits at `j * rows + i`.
    ColumnMajor,
}

/// Position of entry `(i, j)` of a `rows × columns` matrix in a flat buffer.
pub open spec fn flat_index(layout: Layout, rows: nat, columns: nat, i: int, j: int) -> int {
    match layout {
        Layout::RowMajor => i * columns + j,
        Layout::ColumnMajor => j * rows + i,
    }
}

/// The rows of a `rows × columns` matrix whose entries a flat buffer holds
/// in the given layout.
pub open spec fn unflatten<T>(v: Seq<T>, rows: nat, columns: nat, layout: Layout) -> Seq<Seq<T>> {
    Seq::new(rows, |i: int| Seq::new(columns, |j: int| v[flat_index(layout, rows, columns, i, j)]))
}

/// The column vector holding `v`.
pub open spec fn column_vector<T>(v: Seq<T>) -> Seq<Seq<T>> {
    Seq::new(v.len(), |i: int| seq![v[i]])
}

/// Whether `m` is a list of `rows` rows of `columns` entries each.
pub open spec fn has_shape<T>(m: Seq<Seq<T>>, rows: nat, columns: nat) -> bool {
    &&& m.len() == rows
    &&& forall|i: int| 0 <= i < rows ==> #[trigger] m[i].len() == columns
}

/// The transpose of a matrix with `columns` columns, as a list of rows.
pub open spec fn transposed<T>(m: Seq<Seq<T>>, columns: nat) -> Seq<Seq<T>> {
    Seq::new(columns, |j: int| Seq::new(m.len(), |i: int| m[i][j]))
}

/// Entry `(i, j)` of a `rows × columns` matrix, and the end of row `i`,
/// lie inside its row-major buffer.
proof fn lemma_row_major_index(i: int, j: int, rows: int, columns: int)
    requires
        0 <= i < rows,
        0 <= j < columns,
    ensures
        0 <= i * columns,
        i * columns + j < rows * columns,
        i * columns + columns <= rows * columns,
{
    assert(0 <= i * columns) by (nonlinear_arith)
        requires
            0 <= i,
            0 <= columns,
    ;
    assert(i * columns + columns <= rows * columns) by (nonlinear_arith)
        requires
            i + 1 <= rows,
            0 <= columns,
    ;
}

/// Entries of columns before `j` of a column-major buffer lie before
/// column `j`'s first entry.
proof fn lemma_column_block(j2: int, i2: int, j: int, rows: int)
    requires
        0 <= j2 < j,
        0 <= i2 < rows,
    ensures
        j2 * rows + i2 < j * rows,
{
    assert(j2 * rows + rows <= j * rows) by (nonlinear_arith)
        requires
            j2 + 1 <= j,
            0 <= rows,
    ;
}

/// Copies a slice into a new vector.
fn copy_slice<T: Copy>(v: &[T]) -> (r: Vec<T>)
    ensures
        r@ == v@,
        v@.len() <= usize::MAX,
{
    let n = v.len();
    let mut r: Vec<T> = Vec::with_capacity(n);
    let mut k: usize = 0;
    while k < n
        invariant
            n == v@.len(),
            k <= n,
            r@ == v@.subrange(0, k as int),
        decreases n - k,
    {
        r.push(v[k]);
        k += 1;
        assert(r@ =~= v@.subrange(0, k as int));
    }
    assert(r@ =~= v@);
    r
}

/// Reading a buffer column by column is reading its row-major reading as a
/// `columns × rows` matrix, transposed.
pub proof fn lemma_column_major_is_transposed<T>(v: Seq<T>, rows: nat, columns: nat)
    ensures
        transposed(unflatten(v, columns, rows, Layout::RowMajor), rows) == unflatten(v, rows, columns, Layout::ColumnMajor),
{
    let a = transposed(unflatten(v, columns, rows, Layout::RowMajor), rows);
    let b = unflatten(v, rows, columns, Layout::ColumnMajor);
    assert forall|i: int| 0 <= i < rows implies #[trigger] a[i] =~= b[i] by {}
    assert(a =~= b);
}

/// Transposing twice gives back the matrix: for every `rows × columns`
/// matrix `m`, the transpose of the transpose of `m` is `m`.
pub proof fn lemma_transpose_round_trip<T>(m: Seq<Seq<T>>, rows: nat, columns: nat)
    requires
        has_shape(m, rows, columns),
    ensures
        transposed(transposed(m, columns), rows) == m,
{
    let t = transposed(transposed(m, columns), rows);
    assert forall|i: int| 0 <= i < rows implies #[trigger] t[i] =~= m[i] by {}
    assert(t =~= m);
}

/// Where the flat row-major position `t` of a `rows × columns` matrix lies.
proof fn lemma_flat_position(t: int, rows: int, columns: int)
    requires
        0 <= rows,
        0 <= columns,
        0 <= t < rows * columns,
    ensures
        0 <= t / columns < rows,
        0 <= t % columns < columns,
        t == (t / columns) * columns + t % columns,
{
    assert(columns > 0) by (nonlinear_arith)
        requires
            0 <= rows,
            0 <= columns,
            0 <= t < rows * columns,
    ;
    vstd::arithmetic::div_mod::lemma_fundamental_div_mod(t, columns);
    vstd::arithmetic::div_mod::lemma_mod_pos_bound(t, columns);
    let q = t / columns;
    let m = t % columns;
    assert(columns * q == q * columns) by (nonlinear_arith);
    assert(0 <= q < rows) by (nonlinear_arith)
        requires
            t == q * columns + m,
            0 <= m < columns,
            0 <= t < rows * columns,
    ;
}

/// `f` accepts every entry of `m`.
pub open spec fn accepts_entries<T, F: Fn(T) -> T>(m: Seq<Seq<T>>, f: F) -> bool {
    forall|i: int, j: int| 0 <= i < m.len() && 0 <= j < m[i].len() ==> f.requires((#[trigger] m[i][j],))
}

/// `r` has the shape of `m`, and each entry of `r` is a result that `f`
/// may return on the entry of `m` at the same place.
pub open spec fn maps_to<T, F: Fn(T) -> T>(m: Seq<Seq<T>>, f: F, r: Seq<Seq<T>>) -> bool {
    &&& r.len() == m.len()
    &&& forall|i: int| 0 <= i < m.len() ==> #[trigger] r[i].len() == m[i].len()
    &&& forall|i: int, j: int|
        0 <= i < m.len() && 0 <= j < m[i].len() ==> f.ensures((m[i][j],), #[trigger] r[i][j])
}

/// `f` accepts every pair of entries of `a` and `b` at the same place.
pub open spec fn accepts_pairs<T, F: Fn(T, T) -> T>(a: Seq<Seq<T>>, b: Seq<Seq<T>>, f: F) -> bool {
    forall|i: int, j: int| 0 <= i < a.len() && 0 <= j < a[i].len() ==> f.requires((#[trigger] a[i][j], b[i][j]))
}

/// `r` has the shape of `a`, and each entry of `r` is a result that `f`
/// may return on the entries of `a` and `b` at the same place.
pub open spec fn zips_to<T, F: Fn(T, T) -> T>(a: Seq<Seq<T>>, b: Seq<Seq<T>>, f: F, r: Seq<Seq<T>>) -> bool {
    &&& r.len() == a.len()
    &&& forall|i: int| 0 <= i < a.len() ==> #[trigger] r[i].len() == a[i].len()
    &&& forall|i: int, j: int|
        0 <= i < a.len() && 0 <= j < a[i].len() ==> f.ensures((a[i][j], b[i][j]), #[trigger] r[i][j])
}

/// Column `j` of a list of rows.
pub open spec fn column<T>(m: Seq<Seq<T>>, j: int) -> Seq<T> {
    Seq::new(m.len(), |k: int| m[k][j])
}

/// `r` is a result that may come of starting from `zero` and adding, with
/// `plus`, the products `times(u[t], v[t])` for `t` from `0` below `k`, in that
/// order.
pub open spec fn folds_to<T, A: Fn(T, T) -> T, M: Fn(T, T) -> T>(
    plus: A,
    times: M,
    zero: T,
    u: Seq<T>,
    v: Seq<T>,
    k: nat,
    r: T,
) -> bool
    decreases k,
{
    if k == 0 {
        r == zero
    } else {
        exists|s: T, p: T|
            #[trigger] plus.ensures((s, p), r) && folds_to(plus, times, zero, u, v, (k - 1) as nat, s)
                && times.ensures((u[k - 1], v[k - 1]), p)
    }
}

/// `r` is a product of `a` (with `inner` columns) and `b` (with `columns`
/// columns) computed with `plus`, `times` and `zero`: each entry `(i, j)` folds
/// row `i` of `a` against column `j` of `b`.
pub open spec fn product_by<T, A: Fn(T, T) -> T, M: Fn(T, T) -> T>(
    a: Seq<Seq<T>>,
    b: Seq<Seq<T>>,
    inner: nat,
    columns: nat,
    plus: A,
    times: M,
    zero: T,
    r: Seq<Seq<T>>,
) -> bool {
    &&& has_shape(r, a.len(), columns)
    &&& forall|i: int, j: int|
        0 <= i < a.len() && 0 <= j < columns ==> folds_to(plus, times, zero, a[i], column(b, j), inner, #[trigger] r[i][j])
}

/// `times` accepts entry `k` of row `i` of `a` and of column `j` of `b`, and
/// `plus` accepts every sum so far and product it may then be given.
pub open spec fn step_accepted<T, A: Fn(T, T) -> T, M: Fn(T, T) -> T>(
    a: Seq<Seq<T>>,
    b: Seq<Seq<T>>,
    plus: A,
    times: M,
    zero: T,
    i: int,
    j: int,
    k: int,
) -> bool {
    &&& times.requires((a[i][k], b[k][j]))
    &&& forall|s: T, p: T|
        folds_to(plus, times, zero, a[i], column(b, j), k as nat, s) && times.ensures((a[i][k], b[k][j]), p)
            ==> #[trigger] plus.requires((s, p))
}

/// `plus` and `times` accept every call that the product of `a` (with `inner`
/// columns) and `b` (with `columns` columns) makes of them.
pub open spec fn product_accepted<T, A: Fn(T, T) -> T, M: Fn(T, T) -> T>(
    a: Seq<Seq<T>>,
    b: Seq<Seq<T>>,
    inner: nat,
    columns: nat,
    plus: A,
    times: M,
    zero: T,
) -> bool {
    forall|i: int, j: int, k: int|
        0 <= i < a.len() && 0 <= j < columns && 0 <= k < inner ==> #[trigger] step_accepted(a, b, plus, times, zero, i, j, k)
}

/// Applies `f` to each element of `v`, in place.
fn apply_flat<T: Copy, F: Fn(T) -> T>(v: &mut Vec<T>, f: &F)
    requires
        forall|t: int| 0 <= t < old(v)@.len() ==> f.requires((#[trigger] old(v)@[t],)),
    ensures
        final(v)@.len() == old(v)@.len(),
        forall|t: int| 0 <= t < old(v)@.len() ==> f.ensures((old(v)@[t],), #[trigger] final(v)@[t]),
{
    let n = v.len();
    let ghost before = v@;
    let mut k: usize = 0;
    while k < n
        invariant
            n == before.len(),
            v@.len() == n,
            k <= n,
            forall|t: int| 0 <= t < n ==> f.requires((#[trigger] before[t],)),
            forall|t: int| 0 <= t < k ==> f.ensures((before[t],), #[trigger] v@[t]),
            forall|t: int| k <= t < n ==> #[trigger] v@[t] == before[t],
        decreases n - k,
    {
        let x = v[k];
        assert(f.requires((before[k as int],)));
        let y = f(x);
        v[k] = y;
        k += 1;
    }
}

/// Replaces each element of `a` by `f` of it and the element of `b` at the
/// same place.
fn combine_flat<T: Copy, F: Fn(T, T) -> T>(a: &mut Vec<T>, b: &Vec<T>, f: &F)
    requires
        b@.len() == old(a)@.len(),
        forall|t: int| 0 <= t < old(a)@.len() ==> f.requires((#[trigger] old(a)@[t], b@[t])),
    ensures
        final(a)@.len() == old(a)@.len(),
        forall|t: int| 0 <= t < old(a)@.len() ==> f.ensures((old(a)@[t], b@[t]), #[trigger] final(a)@[t]),
{
    let n = a.len();
    let ghost before = a@;
    let mut k: usize = 0;
    while k < n
        invariant
            n == before.len(),
            b@.len() == n,
            a@.len() == n,
            k <= n,
            forall|t: int| 0 <= t < n ==> f.requires((#[trigger] before[t], b@[t])),
            forall|t: int| 0 <= t < k ==> f.ensures((before[t], b@[t]), #[trigger] a@[t]),
            forall|t: int| k <= t < n ==> #[trigger] a@[t] == before[t],
        decreases n - k,
    {
        let x = a[k];
        let y = b[k];
        assert(f.requires((before[k as int], b@[k as int])));
        let z = f(x, y);
        a[k] = z;
        k += 1;
    }
}

/// Mapping with `f` and then with `g` gives what one mapping with `h`
/// gives, where `h` returns `g` of what `f` returns: if `b` is `m` mapped by
/// `f`, `c` is `b` mapped by `g`, and `d` is `m` mapped by `h`, then `c` and
/// `d` are equal, for `f` and `g` that return one result on each input.
pub proof fn lemma_map_compose<T, F: Fn(T) -> T, G: Fn(T) -> T, H: Fn(T) -> T>(
    m: Seq<Seq<T>>,
    f: F,
    g: G,
    h: H,
    b: Seq<Seq<T>>,
    c: Seq<Seq<T>>,
    d: Seq<Seq<T>>,
)
    requires
        forall|x: T, y1: T, y2: T| f.ensures((x,), y1) && f.ensures((x,), y2) ==> y1 == y2,
        forall|x: T, y1: T, y2: T| g.ensures((x,), y1) && g.ensures((x,), y2) ==> y1 == y2,
        forall|x: T, z: T| #[trigger] h.ensures((x,), z) ==> exists|y: T| f.ensures((x,), y) && g.ensures((y,), z),
        maps_to(m, f, b),
        maps_to(b, g, c),
        maps_to(m, h, d),
    ensures
        c == d,
{
    assert forall|i: int| 0 <= i < m.len() implies #[trigger] c[i] =~= d[i] by {
        assert forall|j: int| 0 <= j < m[i].len() implies c[i][j] == d[i][j] by {
            assert(h.ensures((m[i][j],), d[i][j]));
            let y = choose|y: T| f.ensures((m[i][j],), y) && g.ensures((y,), d[i][j]);
            assert(f.ensures((m[i][j],), b[i][j]));
            assert(g.ensures((b[i][j],), c[i][j]));
        }
    }
    assert(c =~= d);
}

/// A dense `rows × columns` matrix. Its entries are stored in one
/// contiguous buffer, row after row.
#[derive(Debug)]
pub struct Matrix<T> {
    data: Vec<T>,
    rows: usize,
    columns: usize,
}

impl<T> View for Matrix<T> {
    type V = Seq<Seq<T>>;

    /// The matrix as a list of its rows.
    closed spec fn view(&self) -> Seq<Seq<T>> {
        unflatten(self.data@, self.rows as nat, self.columns as nat, Layout::RowMajor)
    }
}

impl<T> Matrix<T> {
    /// Number of rows.
    pub closed spec fn nrows(&self) -> nat {
        self.rows as nat
    }

    /// Number of columns.
    pub closed spec fn ncols(&self) -> nat {
        self.columns as nat
    }

    /// The storage holds exactly `rows * columns` entries.
    pub closed spec fn inv(&self) -> bool {
        &&& self.data@.len() == self.rows * self.columns
        &&& self.rows * self.columns <= usize::MAX
    }

    /// Well-formedness: the storage invariant, and a view of the declared shape.
    pub open spec fn wf(&self) -> bool {
        &&& self.inv()
        &&& has_shape(self@, self.nrows(), self.ncols())
        &&& self.nrows() * self.ncols() <= usize::MAX
    }

    /// `(rows, columns)`.
    pub fn size(&self) -> (r: (usize, usize))
        ensures
            r.0 == self.nrows(),
            r.1 == self.ncols(),
    {
        (self.rows, self.columns)
    }

    /// The matrix whose entries `v` holds row after row.
    pub fn from_row_major(v: Vec<T>, rows: usize, columns: usize) -> (r: Self)
        requires
            v@.len() == rows * columns,
            rows * columns <= usize::MAX,
        ensures
            r.wf(),
            r.nrows() == rows,
            r.ncols() == columns,
            r@ == unflatten(v@, rows as nat, columns as nat, Layout::RowMajor),
    {
        Matrix { data: v, rows, columns }
    }

    /// Gives up the storage: the entries, row after row.
    pub fn into_vec(self) -> (r: Vec<T>)
        requires
            self.wf(),
        ensures
            r@.len() == self.nrows() * self.ncols(),
            unflatten(r@, self.nrows(), self.ncols(), Layout::RowMajor) == self@,
    {
        self.data
    }

    /// Number of rows times number of columns.
    pub fn len(&self) -> (r: usize)
        requires
            self.wf(),
        ensures
            r == self.nrows() * self.ncols(),
    {
        self.data.len()
    }
}

impl<T: Copy> Matrix<T> {
    /// A `rows × columns` matrix with every entry equal to `value`.
    pub fn filled(rows: usize, columns: usize, value: T) -> (r: Self)
        requires
            rows * columns <= usize::MAX,
        ensures
            r.wf(),
            r.nrows() == rows,
            r.ncols() == columns,
            forall|i: int, j: int| 0 <= i < rows && 0 <= j < columns ==> #[trigger] r@[i][j] == value,
    {
        let n = rows * columns;
        let mut data: Vec<T> = Vec::with_capacity(n);
        let mut k: usize = 0;
        while k < n
            invariant
                k <= n,
                data@.len() == k,
                forall|t: int| 0 <= t < k ==> #[trigger] data@[t] == value,
            decreases n - k,
        {
            data.push(value);
            k += 1;
        }
        let r = Matrix { data, rows, columns };
        assert forall|i: int, j: int| 0 <= i < rows && 0 <= j < columns implies #[trigger] r@[i][j] == value by {
            lemma_row_major_index(i, j, rows as int, columns as int);
        }
        r
    }

    /// Entry at row `i`, column `j`.
    pub fn get(&self, i: usize, j: usize) -> (r: T)
        requires
            self.wf(),
            i < self.nrows(),
            j < self.ncols(),
        ensures
            r == self@[i as int][j as int],
    {
        proof {
            lemma_row_major_index(i as int, j as int, self.rows as int, self.columns as int);
        }
        self.data[i * self.columns + j]
    }

    /// The transpose of `self`, freshly allocated.
    pub fn transpose(&self) -> (r: Self)
        requires
            self.wf(),
        ensures
            r.wf(),
            r.nrows() == self.ncols(),
            r.ncols() == self.nrows(),
            r@ == transposed(self@, self.ncols()),
    {
        if self.data.len() == 0 {
            let r = Matrix { data: Vec::new(), rows: self.columns, columns: self.rows };
            proof {
                assert(self.nrows() * self.ncols() == self.ncols() * self.nrows()) by (nonlinear_arith);
                assert(self.nrows() == 0 || self.ncols() == 0) by (nonlinear_arith)
                    requires
                        self.nrows() * self.ncols() == 0,
                ;
                let t = transposed(self@, self.ncols());
                assert forall|j: int| 0 <= j < self.ncols() implies #[trigger] r@[j] =~= t[j] by {}
                assert(r@ =~= t);
            }
            r
        } else {
            proof {
                assert(self.nrows() * self.ncols() == self.ncols() * self.nrows()) by (nonlinear_arith);
            }
            let mut r = Matrix::filled(self.columns, self.rows, self.data[0]);
            self.transpose_into(&mut r);
            r
        }
    }

    /// The `rows × columns` matrix whose entries `v` holds in the given
    /// layout.
    pub fn from_flat(v: &[T], rows: usize, columns: usize, layout: Layout) -> (r: Self)
        requires
            v@.len() == rows * columns,
        ensures
            r.wf(),
            r.nrows() == rows,
            r.ncols() == columns,
            r@ == unflatten(v@, rows as nat, columns as nat, layout),
    {
        let data = copy_slice(v);
        match layout {
            Layout::RowMajor => Matrix::from_row_major(data, rows, columns),
            Layout::ColumnMajor => {
                proof {
                    assert(rows * columns == columns * rows) by (nonlinear_arith);
                    lemma_column_major_is_transposed(v@, rows as nat, columns as nat);
                }
                let m = Matrix::from_row_major(data, columns, rows);
                m.transpose()
            },
        }
    }

    /// A column vector holding `v`.
    pub fn from_slice(v: &[T]) -> (r: Self)
        ensures
            r.wf(),
            r.nrows() == v@.len(),
            r.ncols() == 1,
            r@ == column_vector(v@),
    {
        let r = Matrix::from_flat(v, v.len(), 1, Layout::RowMajor);
        assert forall|i: int| 0 <= i < v@.len() implies #[trigger] r@[i] == column_vector(v@)[i] by {
            assert(r@[i] =~= seq![v@[i]]);
        }
        assert(r@ =~= column_vector(v@));
        r
    }

    /// The `rows × columns` matrix whose entries `v` holds column after
    /// column.
    pub fn from_slice_cm(v: &[T], rows: usize, columns: usize) -> (r: Self)
        requires
            v@.len() == rows * columns,
        ensures
            r.wf(),
            r.nrows() == rows,
            r.ncols() == columns,
            r@ == unflatten(v@, rows as nat, columns as nat, Layout::ColumnMajor),
    {
        Matrix::from_flat(v, rows, columns, Layout::ColumnMajor)
    }

    /// A copy of the entries, row after row.
    pub fn to_vec(&self) -> (r: Vec<T>)
        requires
            self.wf(),
        ensures
            r@.len() == self.nrows() * self.ncols(),
            unflatten(r@, self.nrows(), self.ncols(), Layout::RowMajor) == self@,
    {
        copy_slice(self.data.as_slice())
    }

    /// A copy of the entries in the given layout.
    pub fn to_flat(&self, layout: Layout) -> (r: Vec<T>)
        requires
            self.wf(),
        ensures
            r@.len() == self.nrows() * self.ncols(),
            unflatten(r@, self.nrows(), self.ncols(), layout) == self@,
    {
        match layout {
            Layout::RowMajor => self.to_vec(),
            Layout::ColumnMajor => {
                let t = self.transpose();
                let r = t.to_vec();
                proof {
                    assert(self.nrows() * self.ncols() == self.ncols() * self.nrows()) by (nonlinear_arith);
                    lemma_column_major_is_transposed(r@, self.nrows(), self.ncols());
                    lemma_transpose_round_trip(self@, self.nrows(), self.ncols());
                }
                r
            },
        }
    }

    /// An independent copy of `self`.
    pub fn copy(&self) -> (r: Self)
        requires
            self.wf(),
        ensures
            r.wf(),
            r.nrows() == self.nrows(),
            r.ncols() == self.ncols(),
            r@ == self@,
    {
        let data = copy_slice(self.data.as_slice());
        Matrix::from_row_major(data, self.rows, self.columns)
    }

    /// Overwrites every entry with the entry of `src`, which has the shape of
    /// `self`, at the same place; nothing is allocated.
    pub fn assign(&mut self, src: &Self)
        requires
            old(self).wf(),
            src.wf(),
            src.nrows() == old(self).nrows(),
            src.ncols() == old(self).ncols(),
        ensures
            final(self).wf(),
            final(self).nrows() == old(self).nrows(),
            final(self).ncols() == old(self).ncols(),
            final(self)@ == src@,
    {
        let n = self.data.len();
        let mut k: usize = 0;
        while k < n
            invariant
                self.inv(),
                src.inv(),
                self.rows == src.rows,
                self.columns == src.columns,
                n == self.data@.len(),
                k <= n,
                forall|t: int| 0 <= t < k ==> #[trigger] self.data@[t] == src.data@[t],
            decreases n - k,
        {
            self.data[k] = src.data[k];
            k += 1;
        }
        assert(self.data@ =~= src.data@);
    }

    /// Replaces each entry `x` by `f(x)`, in place.
    pub fn apply<F: Fn(T) -> T>(&mut self, f: &F)
        requires
            old(self).wf(),
            accepts_entries(old(self)@, *f),
        ensures
            final(self).wf(),
            final(self).nrows() == old(self).nrows(),
            final(self).ncols() == old(self).ncols(),
            maps_to(old(self)@, *f, final(self)@),
    {
        let ghost m = self@;
        let ghost before = self.data@;
        let ghost (rows, columns) = (self.rows as int, self.columns as int);
        proof {
            assert forall|t: int| 0 <= t < before.len() implies f.requires((#[trigger] before[t],)) by {
                lemma_flat_position(t, rows, columns);
                assert(m[t / columns][t % columns] == before[t]);
            }
        }
        apply_flat(&mut self.data, f);
        proof {
            assert forall|i: int, j: int| 0 <= i < m.len() && 0 <= j < m[i].len() implies f.ensures((m[i][j],), #[trigger] self@[i][j]) by {
                lemma_row_major_index(i, j, rows, columns);
            }
        }
    }

    /// Writes `f(x)` for each entry `x` of `self` into `out`, which must have
    /// the shape of `self`.
    pub fn map_into<F: Fn(T) -> T>(&self, f: &F, out: &mut Self)
        requires
            self.wf(),
            old(out).wf(),
            old(out).nrows() == self.nrows(),
            old(out).ncols() == self.ncols(),
            accepts_entries(self@, *f),
        ensures
            final(out).wf(),
            final(out).nrows() == self.nrows(),
            final(out).ncols() == self.ncols(),
            maps_to(self@, *f, final(out)@),
    {
        let ghost before = self.data@;
        let n = self.data.len();
        let mut k: usize = 0;
        while k < n
            invariant
                self.wf(),
                n == before.len(),
                before == self.data@,
                out.inv(),
                out.rows == self.rows,
                out.columns == self.columns,
                k <= n,
                accepts_entries(self@, *f),
                forall|t: int| 0 <= t < k ==> f.ensures((before[t],), #[trigger] out.data@[t]),
            decreases n - k,
        {
            proof {
                lemma_flat_position(k as int, self.rows as int, self.columns as int);
                assert(self@[k as int / self.columns as int][k as int % self.columns as int] == before[k as int]);
            }
            let y = f(self.data[k]);
            out.data[k] = y;
            k += 1;
        }
        proof {
            assert forall|i: int, j: int| 0 <= i < self@.len() && 0 <= j < self@[i].len() implies f.ensures((self@[i][j],), #[trigger] out@[i][j]) by {
                lemma_row_major_index(i, j, self.rows as int, self.columns as int);
            }
        }
    }

    /// A new matrix holding `f(x)` for each entry `x` of `self`.
    pub fn map<F: Fn(T) -> T>(&self, f: &F) -> (r: Self)
        requires
            self.wf(),
            accepts_entries(self@, *f),
        ensures
            r.wf(),
            r.nrows() == self.nrows(),
            r.ncols() == self.ncols(),
            maps_to(self@, *f, r@),
    {
        let mut r = self.copy();
        r.apply(f);
        r
    }

    /// Replaces each entry `x` by `f(x, y)`, where `y` is the entry of `b` at
    /// the same place, in place. `b` must have the shape of `self`.
    pub fn combine<F: Fn(T, T) -> T>(&mut self, b: &Self, f: &F)
        requires
            old(self).wf(),
            b.wf(),
            b.nrows() == old(self).nrows(),
            b.ncols() == old(self).ncols(),
            accepts_pairs(old(self)@, b@, *f),
        ensures
            final(self).wf(),
            final(self).nrows() == old(self).nrows(),
            final(self).ncols() == old(self).ncols(),
            zips_to(old(self)@, b@, *f, final(self)@),
    {
        let ghost m = self@;
        let ghost before = self.data@;
        let ghost (rows, columns) = (self.rows as int, self.columns as int);
        proof {
            assert forall|t: int| 0 <= t < before.len() implies f.requires((#[trigger] before[t], b.data@[t])) by {
                lemma_flat_position(t, rows, columns);
                assert(m[t / columns][t % columns] == before[t]);
                assert(b@[t / columns][t % columns] == b.data@[t]);
            }
        }
        combine_flat(&mut self.data, &b.data, f);
        proof {
            assert forall|i: int, j: int| 0 <= i < m.len() && 0 <= j < m[i].len() implies f.ensures((m[i][j], b@[i][j]), #[trigger] self@[i][j]) by {
                lemma_row_major_index(i, j, rows, columns);
            }
        }
    }

    /// A new matrix holding `f(x, y)` for the entries `x` of `self` and `y`
    /// of `b` at each place. `b` must have the shape of `self`.
    pub fn zip<F: Fn(T, T) -> T>(&self, b: &Self, f: &F) -> (r: Self)
        requires
            self.wf(),
            b.wf(),
            b.nrows() == self.nrows(),
            b.ncols() == self.ncols(),
            accepts_pairs(self@, b@, *f),
        ensures
            r.wf(),
            r.nrows() == self.nrows(),
            r.ncols() == self.ncols(),
            zips_to(self@, b@, *f, r@),
    {
        let mut r = self.copy();
        r.combine(b, f);
        r
    }

    /// Writes the product `self · b` into `out`, with `plus`, `times` and `zero`
    /// as the scalar operations. `self.columns` must equal `b.rows`, and `out`
    /// must be `self.rows × b.columns`. Each entry is accumulated from the
    /// front of a row of `self` and of a row of the transpose of `b`, so both
    /// operands are read with unit stride.
    pub fn product_into_with<A: Fn(T, T) -> T, M: Fn(T, T) -> T>(
        &self,
        b: &Self,
        out: &mut Self,
        zero: T,
        plus: &A,
        times: &M,
    )
        requires
            self.wf(),
            b.wf(),
            old(out).wf(),
            self.ncols() == b.nrows(),
            old(out).nrows() == self.nrows(),
            old(out).ncols() == b.ncols(),
            product_accepted(self@, b@, self.ncols(), b.ncols(), *plus, *times, zero),
        ensures
            final(out).wf(),
            final(out).nrows() == self.nrows(),
            final(out).ncols() == b.ncols(),
            product_by(self@, b@, self.ncols(), b.ncols(), *plus, *times, zero, final(out)@),
    {
        let bt = b.transpose();
        let rows = self.rows;
        let n = self.columns;
        let p = b.columns;
        let mut i: usize = 0;
        while i < rows
            invariant
                self.wf(),
                b.wf(),
                bt.wf(),
                bt@ == transposed(b@, b.ncols()),
                rows == self.rows,
                n == self.columns,
                n == b.rows,
                p == b.columns,
                p == bt.rows,
                n == bt.columns,
                out.inv(),
                out.rows == rows,
                out.columns == p,
                i <= rows,
                product_accepted(self@, b@, n as nat, p as nat, *plus, *times, zero),
                forall|i2: int, j2: int|
                    0 <= i2 < i && 0 <= j2 < p ==> folds_to(*plus, *times, zero, self@[i2], column(b@, j2), n as nat, #[trigger] out.data@[i2 * p + j2]),
            decreases rows - i,
        {
            let mut j: usize = 0;
            while j < p
                invariant
                    self.wf(),
                    b.wf(),
                    bt.wf(),
                    bt@ == transposed(b@, b.ncols()),
                    rows == self.rows,
                    n == self.columns,
                    n == b.rows,
                    p == b.columns,
                    p == bt.rows,
                    n == bt.columns,
                    out.inv(),
                    out.rows == rows,
                    out.columns == p,
                    i < rows,
                    j <= p,
                    product_accepted(self@, b@, n as nat, p as nat, *plus, *times, zero),
                    forall|i2: int, j2: int|
                        0 <= i2 < i && 0 <= j2 < p ==> folds_to(*plus, *times, zero, self@[i2], column(b@, j2), n as nat, #[trigger] out.data@[i2 * p + j2]),
                    forall|j2: int|
                        0 <= j2 < j ==> folds_to(*plus, *times, zero, self@[i as int], column(b@, j2), n as nat, #[trigger] out.data@[i * p + j2]),
                decreases p - j,
            {
                let ghost u = self@[i as int];
                let ghost v = column(b@, j as int);
                let mut acc = zero;
                let mut k: usize = 0;
                proof {
                    if n > 0 {
                        lemma_row_major_index(i as int, 0, rows as int, n as int);
                        lemma_row_major_index(j as int, 0, p as int, n as int);
                    }
                }
                while k < n
                    invariant
                        self.wf(),
                        bt.wf(),
                        bt@ == transposed(b@, b.ncols()),
                        rows == self.rows,
                        n == self.columns,
                        n == b.rows,
                        p == b.columns,
                        p == bt.rows,
                        n == bt.columns,
                        i < rows,
                        j < p,
                        k <= n,
                        u == self@[i as int],
                        v == column(b@, j as int),
                        b.wf(),
                        product_accepted(self@, b@, n as nat, p as nat, *plus, *times, zero),
                        folds_to(*plus, *times, zero, u, v, k as nat, acc),
                    decreases n - k,
                {
                    proof {
                        lemma_row_major_index(i as int, k as int, rows as int, n as int);
                        lemma_row_major_index(j as int, k as int, p as int, n as int);
                        assert(bt@[j as int][k as int] == v[k as int]);
                        assert(step_accepted(self@, b@, *plus, *times, zero, i as int, j as int, k as int));
                    }
                    let x = self.data[i * n + k];
                    let y = bt.data[j * n + k];
                    let m = times(x, y);
                    let ghost prev = acc;
                    acc = plus(acc, m);
                    proof {
                        assert(plus.ensures((prev, m), acc));
                        assert(folds_to(*plus, *times, zero, u, v, (k + 1) as nat, acc));
                    }
                    k += 1;
                }
                proof {
                    lemma_row_major_index(i as int, j as int, rows as int, p as int);
                }
                let ghost before = out.data@;
                out.data[i * p + j] = acc;
                proof {
                    assert forall|i2: int, j2: int|
                        0 <= i2 < i && 0 <= j2 < p implies folds_to(*plus, *times, zero, self@[i2], column(b@, j2), n as nat, #[trigger] out.data@[i2 * p + j2]) by {
                        lemma_column_block(i2, j2, i as int, p as int);
                        lemma_row_major_index(i2, j2, rows as int, p as int);
                        assert(out.data@[i2 * p + j2] == before[i2 * p + j2]);
                    }
                    assert forall|j2: int| 0 <= j2 < j + 1 implies folds_to(*plus, *times, zero, self@[i as int], column(b@, j2), n as nat, #[trigger] out.data@[i * p + j2]) by {
                        lemma_row_major_index(i as int, j2, rows as int, p as int);
                        if j2 < j {
                            assert(out.data@[i * p + j2] == before[i * p + j2]);
                        }
                    }
                }
                j += 1;
            }
            i += 1;
        }
        proof {
            assert forall|i2: int, j2: int| 0 <= i2 < rows && 0 <= j2 < p implies folds_to(*plus, *times, zero, self@[i2], column(b@, j2), n as nat, #[trigger] out@[i2][j2]) by {
                lemma_row_major_index(i2, j2, rows as int, p as int);
            }
        }
    }

    /// The product `self · b` as a new `self.rows × b.columns` matrix, with
    /// `plus`, `times` and `zero` as the scalar operations.
    pub fn product_with<A: Fn(T, T) -> T, M: Fn(T, T) -> T>(&self, b: &Self, zero: T, plus: &A, times: &M) -> (r: Self)
        requires
            self.wf(),
            b.wf(),
            self.ncols() == b.nrows(),
            self.nrows() * b.ncols() <= usize::MAX,
            product_accepted(self@, b@, self.ncols(), b.ncols(), *plus, *times, zero),
        ensures
            r.wf(),
            r.nrows() == self.nrows(),
            r.ncols() == b.ncols(),
            product_by(self@, b@, self.ncols(), b.ncols(), *plus, *times, zero, r@),
    {
        let mut r = Matrix::filled(self.rows, b.columns, zero);
        self.product_into_with(b, &mut r, zero, plus, times);
        r
    }

    /// Writes the transpose of `self` into `out`, which must be
    /// `columns × rows`; nothing is allocated.
    pub fn transpose_into(&self, out: &mut Self)
        requires
            self.wf(),
            old(out).wf(),
            old(out).nrows() == self.ncols(),
            old(out).ncols() == self.nrows(),
        ensures
            final(out).wf(),
            final(out).nrows() == self.ncols(),
            final(out).ncols() == self.nrows(),
            final(out)@ == transposed(self@, self.ncols()),
    {
        let rows = self.rows;
        let columns = self.columns;
        let mut j: usize = 0;
        while j < columns
            invariant
                self.wf(),
                rows == self.rows,
                columns == self.columns,
                out.inv(),
                out.rows == columns,
                out.columns == rows,
                j <= columns,
                forall|j2: int, i2: int|
                    0 <= j2 < j && 0 <= i2 < rows ==> #[trigger] out.data@[j2 * rows + i2] == self.data@[i2 * columns + j2],
            decreases columns - j,
        {
            let mut i: usize = 0;
            proof {
                if rows > 0 {
                    lemma_row_major_index(j as int, 0, columns as int, rows as int);
                }
            }
            while i < rows
                invariant
                    self.wf(),
                    rows == self.rows,
                    columns == self.columns,
                    out.inv(),
                    out.rows == columns,
                    out.columns == rows,
                    j < columns,
                    i <= rows,
                    forall|j2: int, i2: int|
                        0 <= j2 < j && 0 <= i2 < rows ==> #[trigger] out.data@[j2 * rows + i2] == self.data@[i2 * columns + j2],
                    forall|i2: int| 0 <= i2 < i ==> #[trigger] out.data@[j * rows + i2] == self.data@[i2 * columns + j],
                decreases rows - i,
            {
                proof {
                    lemma_row_major_index(j as int, i as int, columns as int, rows as int);
                    lemma_row_major_index(i as int, j as int, rows as int, columns as int);
                }
                let x = self.data[i * columns + j];
                let k = j * rows + i;
                let ghost before = out.data@;
                out.data[k] = x;
                assert forall|j2: int, i2: int| 0 <= j2 < j && 0 <= i2 < rows implies #[trigger] out.data@[j2 * rows + i2] == self.data@[i2 * columns + j2] by {
                    lemma_column_block(j2, i2, j as int, rows as int);
                    lemma_row_major_index(j2, i2, columns as int, rows as int);
                    assert(out.data@[j2 * rows + i2] == before[j2 * rows + i2]);
                }
                i += 1;
            }
            j += 1;
        }
        let ghost t = transposed(self@, self.ncols());
        assert forall|j2: int| 0 <= j2 < columns implies #[trigger] out@[j2] =~= t[j2] by {
            assert forall|i2: int| 0 <= i2 < rows implies out@[j2][i2] == t[j2][i2] by {
                lemma_row_major_index(j2, i2, columns as int, rows as int);
                lemma_row_major_index(i2, j2, rows as int, columns as int);
            }
        }
        assert(out@ =~= t);
    }
}

} // verus!
