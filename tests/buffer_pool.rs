use neural::matrix::{Layout, Matrix};
use neural::pool::BufferPool;
use neural::pooled::pooled_product_into;

#[test]
fn reuses_idle_buffer_of_same_size() {
    let mut pool = BufferPool::new(0i64);
    let a = pool.acquire(4);
    assert_eq!(a.len(), 4);
    let id = a.ident();
    pool.release(a);
    let b = pool.acquire(4);
    assert_eq!(b.ident(), id);
    pool.release(b);
}

#[test]
fn held_buffers_are_distinct() {
    let mut pool = BufferPool::new(0i64);
    let a = pool.acquire(4);
    let b = pool.acquire(4);
    let c = pool.acquire(3);
    assert_ne!(a.ident(), b.ident());
    assert_ne!(a.ident(), c.ident());
    assert_ne!(b.ident(), c.ident());
    assert_eq!(c.len(), 3);
    pool.release(a);
    pool.release(b);
    pool.release(c);
}

#[test]
fn idle_count_never_exceeds_allocated() {
    let mut pool = BufferPool::new(0i64);
    let mut allocated = std::collections::HashSet::new();
    let mut held = Vec::new();
    for round in 0..5 {
        for size in [2usize, 3, 2] {
            let b = pool.acquire(size);
            assert_eq!(b.len(), size);
            allocated.insert((b.ident(), size));
            held.push(b);
        }
        if round % 2 == 0 {
            for b in held.drain(..) {
                pool.release(b);
            }
        }
    }
    let ids: std::collections::HashSet<u64> = held.iter().map(|b| b.ident()).collect();
    assert_eq!(ids.len(), held.len());
    assert!(allocated.len() <= 15);
    for b in held.drain(..) {
        pool.release(b);
    }
}

#[test]
fn buffer_contents_survive_release() {
    let mut pool = BufferPool::new(0i64);
    let mut a = pool.acquire(3);
    a.set(1, 42);
    assert_eq!(a.get(1), 42);
    assert_eq!(a.as_slice(), &[0, 42, 0]);
    pool.release(a);
    let b = pool.acquire(3);
    assert_eq!(b.as_slice(), &[0, 42, 0]);
    pool.release(b);
}

#[test]
fn backend_equivalence_pooled() {
    let a = Matrix::from_flat(&[3i64, 6, 7, 13, 16, 17], 2, 3, Layout::RowMajor);
    let b = Matrix::from_flat(&[30i64, 60, 130, 160, 130, 160], 3, 2, Layout::RowMajor);
    let mut pool = BufferPool::new(0i64);
    let mut pooled = Matrix::<i64>::new(2, 2);
    pooled_product_into(&mut pool, &a, &b, &mut pooled);
    assert_eq!(pooled.to_vec(), vec![1780, 2260, 4680, 6060]);
    let mut direct = Matrix::<i64>::new(2, 2);
    a.product_into(&b, &mut direct);
    assert_eq!(pooled.to_vec(), direct.to_vec());
    let mut again = Matrix::<i64>::new(2, 2);
    pooled_product_into(&mut pool, &a, &b, &mut again);
    assert_eq!(again.to_vec(), direct.to_vec());
}

#[test]
fn backend_equivalence_seeded() {
    let mut state: u64 = 99;
    let mut next = || {
        state = state.wrapping_mul(6364136223846793005).wrapping_add(1442695040888963407);
        ((state >> 33) % 201) as i64 - 100
    };
    let mut pool = BufferPool::new(0i64);
    for &(r, n, c) in &[(1usize, 1usize, 1usize), (2, 3, 4), (5, 4, 3), (3, 7, 2)] {
        let va: Vec<i64> = (0..r * n).map(|_| next()).collect();
        let vb: Vec<i64> = (0..n * c).map(|_| next()).collect();
        let a = Matrix::from_flat(&va, r, n, Layout::RowMajor);
        let b = Matrix::from_flat(&vb, n, c, Layout::RowMajor);
        let mut reference = vec![0i64; r * c];
        for i in 0..r {
            for j in 0..c {
                for k in 0..n {
                    reference[i * c + j] += va[i * n + k] * vb[k * c + j];
                }
            }
        }
        assert_eq!(a.product(&b).to_vec(), reference);
        let mut pooled = Matrix::<i64>::new(r, c);
        pooled_product_into(&mut pool, &a, &b, &mut pooled);
        assert_eq!(pooled.to_vec(), reference);
    }
}
