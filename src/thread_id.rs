//! Small reusable thread ids: a freed id is handed out again before any new one, lowest first, so
//! that ids stay dense enough to index a table.

use vstd::prelude::*;

verus! {

/// Something that names the calling thread by a small id: distinct live threads get distinct
/// ids, and ids of exited threads may be reused.
pub trait TlsProvider {
    fn get(&self) -> usize;
}

/// Hands out thread ids: every id below `limit` that is not on the free list is in use.
pub struct IdAllocator {
    limit: u32,
    free: Vec<u32>,
}

impl IdAllocator {
    /// Ids ever handed out are those below this bound.
    pub closed spec fn limit_spec(&self) -> nat {
        self.limit as nat
    }

    /// Ids that were handed out and given back.
    pub closed spec fn free_spec(&self) -> Seq<u32> {
        self.free@
    }

    /// Ids in use.
    pub open spec fn live(&self) -> Set<u32> {
        Set::new(|i: u32| i < self.limit_spec() && !self.free_spec().contains(i))
    }

    pub open spec fn wf(&self) -> bool {
        &&& forall|k: int| 0 <= k < self.free_spec().len() ==> #[trigger] self.free_spec()[k] < self.limit_spec()
        &&& self.free_spec().no_duplicates()
    }

    /// No id in use.
    pub fn new() -> (r: IdAllocator)
        ensures
            r.wf(),
            r.live() == Set::<u32>::empty(),
            r.limit_spec() == 0,
    {
        let r = IdAllocator { limit: 0, free: Vec::new() };
        assert(r.live() =~= Set::<u32>::empty());
        r
    }

    /// Hands out the lowest freed id, or else the next never-used one.
    pub fn allocate(&mut self) -> (r: u32)
        requires
            old(self).wf(),
            old(self).free_spec().len() > 0 || old(self).limit_spec() < u32::MAX,
        ensures
            final(self).wf(),
            !old(self).live().contains(r),
            final(self).live() == old(self).live().insert(r),
            old(self).free_spec().len() > 0 ==> old(self).free_spec().contains(r),
            forall|k: int|
                0 <= k < old(self).free_spec().len() ==> r <= #[trigger] old(self).free_spec()[k],
            old(self).free_spec().len() == 0 ==> r == old(self).limit_spec()
                && final(self).limit_spec() == old(self).limit_spec() + 1,
    {
        let n = self.free.len();
        if n == 0 {
            let id = self.limit;
            self.limit = self.limit + 1;
            assert(self.live() =~= old(self).live().insert(id));
            id
        } else {
            let mut best: usize = 0;
            let mut i: usize = 1;
            while i < n
                invariant
                    n == self.free@.len(),
                    1 <= i <= n,
                    best < n,
                    forall|k: int| 0 <= k < i ==> self.free@[best as int] <= #[trigger] self.free@[k],
                decreases n - i,
            {
                if self.free[i] < self.free[best] {
                    best = i;
                }
                i = i + 1;
            }
            let id = self.free.swap_remove(best);
            proof {
                let old_free = old(self).free@;
                assert forall|k: int| 0 <= k < self.free@.len() implies #[trigger] self.free@[k]
                    < self.limit && self.free@[k] != id by {
                    if k == best {
                        assert(self.free@[k] == old_free[n - 1]);
                    } else {
                        assert(self.free@[k] == old_free[k]);
                    }
                }
                assert(self.free@.no_duplicates()) by {
                    assert forall|a: int, b: int|
                        0 <= a < self.free@.len() && 0 <= b < self.free@.len() && a != b implies self.free@[a]
                        != self.free@[b] by {
                        let oa = if a == best { n - 1 } else { a };
                        let ob = if b == best { n - 1 } else { b };
                        assert(self.free@[a] == old_free[oa]);
                        assert(self.free@[b] == old_free[ob]);
                    }
                }
                assert forall|x: u32| self.live().contains(x) == old(self).live().insert(id).contains(x) by {
                    if old_free.contains(x) && x != id {
                        let k = choose|k: int| 0 <= k < old_free.len() && old_free[k] == x;
                        let nk = if k == n - 1 { best as int } else { k };
                        assert(self.free@[nk] == x);
                    }
                    if self.free@.contains(x) {
                        let k = choose|k: int| 0 <= k < self.free@.len() && self.free@[k] == x;
                        let ok = if k == best { n - 1 } else { k };
                        assert(old_free[ok] == x);
                    }
                }
                assert(self.live() =~= old(self).live().insert(id));
            }
            id
        }
    }

    /// Gives back an id that is in use.
    pub fn deallocate(&mut self, id: u32)
        requires
            old(self).wf(),
            old(self).live().contains(id),
        ensures
            final(self).wf(),
            final(self).live() == old(self).live().remove(id),
            final(self).limit_spec() == old(self).limit_spec(),
    {
        self.free.push(id);
        proof {
            assert(self.free@[self.free@.len() - 1] == id);
            assert forall|x: u32| self.live().contains(x) == old(self).live().remove(id).contains(x) by {
                if x != id && self.free@.contains(x) {
                    let k = choose|k: int| 0 <= k < self.free@.len() && self.free@[k] == x;
                    assert(old(self).free@[k] == x);
                }
                if old(self).free@.contains(x) {
                    let k = choose|k: int| 0 <= k < old(self).free@.len() && old(self).free@[k] == x;
                    assert(self.free@[k] == x);
                }
            }
            assert(self.live() =~= old(self).live().remove(id));
        }
    }
}

/// A thread id held by a live thread; give it back with `release` when the thread exits.
pub struct ThreadId(pub usize);

impl ThreadId {
    /// Takes an id from `allocator`.
    pub fn new(allocator: &mut IdAllocator) -> (r: ThreadId)
        requires
            old(allocator).wf(),
            old(allocator).free_spec().len() > 0 || old(allocator).limit_spec() < u32::MAX,
        ensures
            final(allocator).wf(),
            !old(allocator).live().contains(r.0 as u32),
            final(allocator).live() == old(allocator).live().insert(r.0 as u32),
            r.0 <= u32::MAX,
            old(allocator).free_spec().len() > 0 ==> old(allocator).free_spec().contains(r.0 as u32),
            forall|k: int|
                0 <= k < old(allocator).free_spec().len() ==> r.0 <= #[trigger] old(
                    allocator,
                ).free_spec()[k],
            old(allocator).free_spec().len() == 0 ==> r.0 == old(allocator).limit_spec()
                && final(allocator).limit_spec() == old(allocator).limit_spec() + 1,
    {
        let id = allocator.allocate();
        ThreadId(id as usize)
    }

    /// Gives the id back to `allocator`.
    pub fn release(self, allocator: &mut IdAllocator)
        requires
            old(allocator).wf(),
            self.0 <= u32::MAX,
            old(allocator).live().contains(self.0 as u32),
        ensures
            final(allocator).wf(),
            final(allocator).live() == old(allocator).live().remove(self.0 as u32),
    {
        allocator.deallocate(self.0 as u32);
    }
}

} // verus!
