//! A pool of reusable buffers keyed by element count. A buffer is handed
//! out to one holder at a time and goes back to the pool when released;
//! a new one is allocated only when no idle buffer of the requested size
//! exists.

use vstd::prelude::*;

verus! {

/// A buffer lent out by a `BufferPool`. Its length never changes.
pub struct PooledBuffer<T> {
    id: u64,
    data: Vec<T>,
}

impl<T> View for PooledBuffer<T> {
    type V = Seq<T>;

    closed spec fn view(&self) -> Seq<T> {
        self.data@
    }
}

impl<T> PooledBuffer<T> {
    /// The identity of the buffer within the pool that allocated it.
    pub closed spec fn id(&self) -> u64 {
        self.id
    }

    /// The identity of the buffer within the pool that allocated it.
    pub fn ident(&self) -> (r: u64)
        ensures
            r == self.id(),
    {
        self.id
    }

    /// Number of elements.
    pub fn len(&self) -> (r: usize)
        ensures
            r == self@.len(),
    {
        self.data.len()
    }

    /// The storage, for reading.
    pub fn as_slice(&self) -> (r: &[T])
        ensures
            r@ == self@,
    {
        self.data.as_slice()
    }
}

/// The identity and size of a buffer whose storage has been taken out to
/// work on; only a buffer of the pool can give one.
pub struct BufferTag {
    id: u64,
    size: usize,
}

impl BufferTag {
    /// The identity of the buffer the tag came from.
    pub closed spec fn id(&self) -> u64 {
        self.id
    }

    /// The length of the buffer the tag came from.
    pub closed spec fn size(&self) -> nat {
        self.size as nat
    }
}

impl<T> PooledBuffer<T> {
    /// Splits the buffer into its tag and its storage.
    pub fn into_parts(self) -> (r: (BufferTag, Vec<T>))
        ensures
            r.0.id() == self.id(),
            r.0.size() == self@.len(),
            r.1@ == self@,
    {
        let size = self.data.len();
        (BufferTag { id: self.id, size }, self.data)
    }

    /// Puts a buffer back together from its tag and storage of the tagged
    /// size.
    pub fn from_parts(tag: BufferTag, data: Vec<T>) -> (r: Self)
        requires
            data@.len() == tag.size(),
        ensures
            r.id() == tag.id(),
            r@ == data@,
    {
        PooledBuffer { id: tag.id, data }
    }
}

impl<T: Copy> PooledBuffer<T> {
    /// Element `i`.
    pub fn get(&self, i: usize) -> (r: T)
        requires
            i < self@.len(),
        ensures
            r == self@[i as int],
    {
        self.data[i]
    }

    /// Overwrites element `i` with `value`.
    pub fn set(&mut self, i: usize, value: T)
        requires
            i < old(self)@.len(),
        ensures
            final(self).id() == old(self).id(),
            final(self)@ == old(self)@.update(i as int, value),
    {
        self.data[i] = value;
    }
}

/// Idle buffers, keyed by element count, and the record of every buffer
/// the pool has allocated and of those that are lent out.
pub struct BufferPool<T> {
    idle: Vec<PooledBuffer<T>>,
    next_id: u64,
    fill: T,
    sizes: Ghost<Map<u64, nat>>,
    lent: Ghost<Set<u64>>,
}

impl<T> BufferPool<T> {
    /// Every buffer this pool has allocated, by identity, with its size.
    pub closed spec fn allocated(&self) -> Map<u64, nat> {
        self.sizes@
    }

    /// The buffers that are lent out.
    pub closed spec fn lent(&self) -> Set<u64> {
        self.lent@
    }

    /// The buffers that wait in the pool.
    pub closed spec fn idle(&self) -> Set<u64> {
        Set::new(|id: u64| exists|k: int| 0 <= k < self.idle@.len() && #[trigger] self.idle@[k].id == id)
    }

    /// The buffers of `size` elements that wait in the pool.
    pub open spec fn idle_of_size(&self, size: nat) -> Set<u64> {
        self.idle().filter(|id: u64| self.allocated()[id] == size)
    }

    /// The buffers of `size` elements that this pool has allocated.
    pub open spec fn allocated_of_size(&self, size: nat) -> Set<u64> {
        self.allocated().dom().filter(|id: u64| self.allocated()[id] == size)
    }

    /// Each idle buffer is one that was allocated, with its recorded size,
    /// and is not lent out; no buffer waits twice; every lent buffer was
    /// allocated.
    pub closed spec fn wf(&self) -> bool {
        &&& self.sizes@.dom().finite()
        &&& forall|id: u64| #[trigger] self.sizes@.contains_key(id) ==> id < self.next_id
        &&& self.lent@.subset_of(self.sizes@.dom())
        &&& forall|k: int|
            0 <= k < self.idle@.len() ==> {
                let b = #[trigger] self.idle@[k];
                &&& self.sizes@.contains_key(b.id)
                &&& self.sizes@[b.id] == b.data@.len()
                &&& !self.lent@.contains(b.id)
            }
        &&& forall|k1: int, k2: int|
            0 <= k1 < self.idle@.len() && 0 <= k2 < self.idle@.len() && k1 != k2 ==> #[trigger] self.idle@[k1].id
                != #[trigger] self.idle@[k2].id
    }

    /// How many more buffers the pool can still allocate.
    pub closed spec fn room(&self) -> nat {
        (u64::MAX - self.next_id) as nat
    }

    /// An empty pool; new buffers are filled with `fill`.
    pub fn new(fill: T) -> (r: Self)
        ensures
            r.wf(),
            r.room() == u64::MAX,
            r.allocated() == Map::<u64, nat>::empty(),
            r.lent() == Set::<u64>::empty(),
            r.idle() == Set::<u64>::empty(),
    {
        let r = BufferPool {
            idle: Vec::new(),
            next_id: 0,
            fill,
            sizes: Ghost(Map::empty()),
            lent: Ghost(Set::empty()),
        };
        assert(r.idle() =~= Set::<u64>::empty());
        r
    }
}

impl<T: Copy> BufferPool<T> {
    /// Hands out a buffer of `size` elements that no one else holds: an idle
    /// one of that size if there is one (its contents are what its last
    /// holder left), else a newly allocated one.
    pub fn acquire(&mut self, size: usize) -> (r: PooledBuffer<T>)
        requires
            old(self).wf(),
            old(self).room() > 0,
        ensures
            acquired(*old(self), size as nat, r, *final(self)),
    {
        let n = self.idle.len();
        let mut k: usize = 0;
        while k < n
            invariant
                *self == *old(self),
                self.wf(),
                self.room() > 0,
                n == self.idle@.len(),
                k <= n,
                forall|t: int| 0 <= t < k ==> #[trigger] self.idle@[t].data@.len() != size,
            decreases n - k,
        {
            if self.idle[k].data.len() == size {
                let ghost before = *self;
                let b = self.idle.swap_remove(k);
                proof {
                    let id = b.id;
                    assert(before.idle@[k as int] == b);
                    self.lent@ = self.lent@.insert(id);
                    assert forall|t: int| 0 <= t < self.idle@.len() implies #[trigger] self.idle@[t].id != id by {
                        if t == k as int {
                            assert(self.idle@[t] == before.idle@[n - 1]);
                            assert(before.idle@[n - 1].id != before.idle@[k as int].id);
                        } else {
                            assert(self.idle@[t] == before.idle@[t]);
                            assert(before.idle@[t].id != before.idle@[k as int].id);
                        }
                    }
                    assert(self.idle() =~= before.idle().remove(id)) by {
                        assert forall|x: u64| #[trigger] self.idle().contains(x) implies before.idle().remove(id).contains(x) by {
                            let t = choose|t: int| 0 <= t < self.idle@.len() && #[trigger] self.idle@[t].id == x;
                            if t == k as int {
                                assert(before.idle@[n - 1].id == x);
                            } else {
                                assert(before.idle@[t].id == x);
                            }
                        }
                        assert forall|x: u64| before.idle().remove(id).contains(x) implies #[trigger] self.idle().contains(x) by {
                            let t = choose|t: int| 0 <= t < before.idle@.len() && #[trigger] before.idle@[t].id == x;
                            if t == n - 1 {
                                assert(self.idle@[k as int].id == x);
                            } else {
                                assert(t != k);
                                assert(self.idle@[t].id == x);
                            }
                        }
                    }
                    assert(before.idle().contains(id));
                    assert(before.idle_of_size(size as nat).contains(id));
                }
                return b;
            }
            k += 1;
        }
        proof {
            assert forall|x: u64| !#[trigger] self.idle_of_size(size as nat).contains(x) by {
                if self.idle().contains(x) {
                    let t = choose|t: int| 0 <= t < self.idle@.len() && #[trigger] self.idle@[t].id == x;
                    assert(self.idle@[t].data@.len() != size);
                }
            }
            assert(self.idle_of_size(size as nat) =~= Set::<u64>::empty());
        }
        let mut data: Vec<T> = Vec::with_capacity(size);
        let mut t: usize = 0;
        while t < size
            invariant
                t <= size,
                data@.len() == t,
            decreases size - t,
        {
            data.push(self.fill);
            t += 1;
        }
        let id = self.next_id;
        self.next_id = self.next_id + 1;
        proof {
            self.sizes@ = self.sizes@.insert(id, size as nat);
            self.lent@ = self.lent@.insert(id);
        }
        PooledBuffer { id, data }
    }

    /// Takes back a buffer that this pool lent out.
    pub fn release(&mut self, buffer: PooledBuffer<T>)
        requires
            old(self).wf(),
            old(self).lent().contains(buffer.id()),
            old(self).allocated()[buffer.id()] == buffer@.len(),
        ensures
            released(*old(self), buffer, *final(self)),
    {
        let ghost before = *self;
        let ghost id = buffer.id;
        self.idle.push(buffer);
        proof {
            self.lent@ = self.lent@.remove(id);
            assert forall|t: int| 0 <= t < before.idle@.len() implies #[trigger] self.idle@[t] == before.idle@[t] by {}
            assert(self.idle() =~= before.idle().insert(id)) by {
                assert(self.idle@[before.idle@.len() as int].id == id);
                assert forall|x: u64| #[trigger] self.idle().contains(x) implies before.idle().insert(id).contains(x) by {
                    let t = choose|t: int| 0 <= t < self.idle@.len() && #[trigger] self.idle@[t].id == x;
                    if t < before.idle@.len() {
                        assert(before.idle@[t].id == x);
                    }
                }
                assert forall|x: u64| before.idle().insert(id).contains(x) implies #[trigger] self.idle().contains(x) by {
                    if x != id {
                        let t = choose|t: int| 0 <= t < before.idle@.len() && #[trigger] before.idle@[t].id == x;
                        assert(self.idle@[t].id == x);
                    }
                }
            }
        }
    }
}

/// Conservation: in a pool reached by any sequence of acquisitions and
/// releases, the buffers of a given size that wait in the pool are never
/// more than the buffers of that size it ever allocated, and no buffer is
/// both waiting and lent out, so none is held by two holders at once.
pub proof fn lemma_pool_conservation<T>(pool: BufferPool<T>, size: nat)
    requires
        pool.wf(),
    ensures
        pool.idle_of_size(size).finite(),
        pool.idle_of_size(size).len() <= pool.allocated_of_size(size).len(),
        pool.idle().disjoint(pool.lent()),
{
    pool.allocated().dom().lemma_len_filter(|id: u64| pool.allocated()[id] == size);
    assert(pool.idle_of_size(size).subset_of(pool.allocated_of_size(size))) by {
        assert forall|x: u64| #[trigger] pool.idle_of_size(size).contains(x) implies pool.allocated_of_size(size).contains(x) by {
            let t = choose|t: int| 0 <= t < pool.idle@.len() && #[trigger] pool.idle@[t].id == x;
            assert(pool.sizes@.contains_key(pool.idle@[t].id));
        }
    }
    vstd::set_lib::lemma_len_subset(pool.idle_of_size(size), pool.allocated_of_size(size));
    assert forall|x: u64| #[trigger] pool.idle().contains(x) implies !pool.lent().contains(x) by {
        let t = choose|t: int| 0 <= t < pool.idle@.len() && #[trigger] pool.idle@[t].id == x;
        assert(!pool.lent@.contains(pool.idle@[t].id));
    }
}

/// Two buffers acquired one after the other, with no release between, are
/// different buffers.
pub proof fn lemma_acquired_distinct<T>(
    before: BufferPool<T>,
    s1: nat,
    r1: PooledBuffer<T>,
    between: BufferPool<T>,
    s2: nat,
    r2: PooledBuffer<T>,
    after: BufferPool<T>,
)
    requires
        acquired(before, s1, r1, between),
        acquired(between, s2, r2, after),
    ensures
        r1.id() != r2.id(),
{
}

/// `after` is `before` once it has handed out `r` for a request of `size`
/// elements: `r` has that size and was held by no one; it is an idle buffer
/// of that size if the pool had one, else a buffer allocated now.
pub open spec fn acquired<T>(before: BufferPool<T>, size: nat, r: PooledBuffer<T>, after: BufferPool<T>) -> bool {
    &&& after.wf()
    &&& r@.len() == size
    &&& !before.lent().contains(r.id())
    &&& after.lent() == before.lent().insert(r.id())
    &&& after.allocated().contains_key(r.id())
    &&& after.allocated()[r.id()] == size
    &&& if before.idle_of_size(size).is_empty() {
        &&& !before.allocated().contains_key(r.id())
        &&& after.allocated() == before.allocated().insert(r.id(), size)
        &&& after.idle() == before.idle()
        &&& after.room() + 1 == before.room()
    } else {
        &&& before.idle_of_size(size).contains(r.id())
        &&& after.allocated() == before.allocated()
        &&& after.idle() == before.idle().remove(r.id())
        &&& after.room() == before.room()
    }
}

/// `after` is `before` once `buffer` has come back to it.
pub open spec fn released<T>(before: BufferPool<T>, buffer: PooledBuffer<T>, after: BufferPool<T>) -> bool {
    &&& after.wf()
    &&& after.lent() == before.lent().remove(buffer.id())
    &&& after.allocated() == before.allocated()
    &&& after.idle() == before.idle().insert(buffer.id())
    &&& after.room() == before.room()
}

} // verus!
