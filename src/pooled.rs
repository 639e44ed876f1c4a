//! The matrix product run on storage borrowed from a buffer pool: the
//! operands are uploaded into pooled buffers, multiplied there, and the
//! result is downloaded into the caller's matrix; every buffer goes back to
//! the pool.

use vstd::prelude::*;
use crate::matrix::Matrix;
use crate::integer::{product, product_fits};
use crate::pool::{BufferPool, PooledBuffer};

verus! {

/// Writes `a · b` into `out` using three buffers of `pool`, sized to `a`,
/// `b` and `out`, and returns them to the pool. `a.columns` must equal
/// `b.rows`, and `out` must be `a.rows × b.columns`.
pub fn pooled_product_into(pool: &mut BufferPool<i64>, a: &Matrix<i64>, b: &Matrix<i64>, out: &mut Matrix<i64>)
    requires
        old(pool).wf(),
        old(pool).room() >= 3,
        a.wf(),
        b.wf(),
        old(out).wf(),
        a.ncols() == b.nrows(),
        old(out).nrows() == a.nrows(),
        old(out).ncols() == b.ncols(),
        product_fits(a@, b@, a.ncols(), b.ncols()),
    ensures
        final(out).wf(),
        final(out).nrows() == a.nrows(),
        final(out).ncols() == b.ncols(),
        final(out)@ == product(a@, b@, a.ncols(), b.ncols()),
        final(pool).wf(),
        final(pool).lent() == old(pool).lent(),
        final(pool).room() + 3 >= old(pool).room(),
        old(pool).allocated().submap_of(final(pool).allocated()),
        final(pool).idle() == old(pool).idle().union(
            final(pool).allocated().dom().difference(old(pool).allocated().dom()),
        ),
{
    let (rows, inner) = a.size();
    let (_, columns) = b.size();
    let ghost start = *pool;
    let ba = pool.acquire(a.len());
    let ghost after_a = *pool;
    let bb = pool.acquire(b.len());
    let ghost after_b = *pool;
    let bc = pool.acquire(out.len());
    let ghost after_c = *pool;
    let (ta, va) = ba.into_parts();
    let (tb, vb) = bb.into_parts();
    let (tc, vc) = bc.into_parts();
    let mut ma = Matrix::from_row_major(va, rows, inner);
    let mut mb = Matrix::from_row_major(vb, inner, columns);
    let mut mc = Matrix::from_row_major(vc, rows, columns);
    ma.assign(a);
    mb.assign(b);
    ma.product_into(&mb, &mut mc);
    out.assign(&mc);
    let ba = PooledBuffer::from_parts(ta, ma.into_vec());
    let bb = PooledBuffer::from_parts(tb, mb.into_vec());
    let bc = PooledBuffer::from_parts(tc, mc.into_vec());
    pool.release(ba);
    pool.release(bb);
    pool.release(bc);
    proof {
        assert(pool.lent() =~= old(pool).lent());
        assert(start.allocated().submap_of(after_c.allocated()));
        assert(pool.idle() =~= start.idle().union(pool.allocated().dom().difference(start.allocated().dom())));
    }
}

} // verus!
