use crate::cache::thread_cache::{ThreadCache, ZST_ADDRESS};
use crate::cache::{usable_size, Moved, RustAllocator};
use crate::collections::radix_tree::TreeNode;
use crate::error::AllocError;
use crate::freelist::bump::PG_SIZE;
use crate::freelist::pages_for;
use crate::freelist::ranges::{all_gone, gave_back};
use crate::size_class::tc_size_class::{
    class_index, class_size, is_class_of, lemma_class_exists, lemma_class_sizes_increase,
    lemma_class_unique, MAX_SIZE,
};
use crate::size_class::TOTAL_SIZE_CLASS;
use vstd::prelude::*;

verus! {

/// The allocator of a process: the central state, and one cache for each
/// thread that has asked for one. A thread is known by the number of its
/// cache.
pub struct GlobalHeap {
    /// The central state, behind the cache of the thread that is being
    /// served; between two calls that cache holds nothing.
    pub heap: RustAllocator,
    /// The caches of the threads.
    pub caches: Vec<ThreadCache>,
    /// The numbers of the caches whose threads have ended, for the next
    /// threads to take.
    pub spare: Vec<usize>,
}

/// The size class `c` serves requests of its own rounded size.
pub proof fn lemma_class_of_size(c: int)
    requires
        1 <= c < TOTAL_SIZE_CLASS,
    ensures
        0 < class_size(c) <= MAX_SIZE,
        class_index(class_size(c)) == c,
        usable_size(class_size(c)) == class_size(c),
{
    lemma_class_sizes_increase(c - 1, c);
    if c < TOTAL_SIZE_CLASS - 1 {
        lemma_class_sizes_increase(c, TOTAL_SIZE_CLASS - 1);
    }
    assert(is_class_of(class_size(c), c));
    lemma_class_exists(class_size(c));
    lemma_class_unique(class_size(c), c, class_index(class_size(c)));
}

/// A request whose block may use just the bytes of class `c` is served
/// by class `c`.
pub proof fn lemma_size_of_class(size: int, c: int)
    requires
        1 <= c < TOTAL_SIZE_CLASS,
        0 <= size,
        usable_size(size) == class_size(c),
    ensures
        0 < size <= MAX_SIZE,
        class_index(size) == c,
{
    lemma_class_of_size(c);
    if size == 0 {
        lemma_class_exists(0);
        lemma_class_unique(0, 0, class_index(0));
    } else if size > MAX_SIZE {
        assert(pages_for(size) >= 5);
    } else {
        lemma_class_exists(size);
        let k = class_index(size);
        if k < c {
            lemma_class_sizes_increase(k, c);
        } else if c < k {
            lemma_class_sizes_increase(c, k);
        }
    }
}

impl GlobalHeap {
    /// Whether the cache `i` holds the cell at `x` for class `c`.
    pub open spec fn holds(&self, i: int, c: int, x: int) -> bool {
        0 <= i < self.caches.len() && self.caches[i].held(c, x)
    }

    /// Whether some cache holds the cell at `x` for class `c`.
    pub open spec fn cached(&self, c: int, x: int) -> bool {
        exists|i: int| self.holds(i, c, x)
    }

    /// The invariant of the allocator: every cache is well-formed, every
    /// cell that a cache holds is a cell of its class that the central
    /// layer has handed out, and no cell is in two caches.
    pub open spec fn wf(&self) -> bool {
        &&& self.heap.wf()
        &&& forall|c: int, x: int| !#[trigger] self.heap.cache.held(c, x)
        &&& forall|i: int| 0 <= i < self.caches.len() ==> (#[trigger] self.caches[i]).wf()
        &&& forall|i: int, c: int, x: int| #[trigger] self.holds(i, c, x) ==> self.heap.zone.out(c, x)
        &&& forall|i: int, j: int, c: int, x: int|
            #[trigger] self.holds(i, c, x) && #[trigger] self.holds(j, c, x) ==> i == j
        &&& self.spare@.no_duplicates()
        &&& forall|k: int|
            0 <= k < self.spare@.len() ==> (#[trigger] self.spare@[k]) < self.caches.len()
        &&& forall|k: int, c: int, x: int|
            0 <= k < self.spare@.len() ==> !#[trigger] self.holds(self.spare@[k] as int, c, x)
    }

    /// Whether `tid` is the number of the cache of a thread that has not
    /// ended.
    pub open spec fn attached(&self, tid: int) -> bool {
        0 <= tid < self.caches.len() && !self.spare@.contains(tid as usize)
    }

    /// Whether a block of `size` bytes at `ptr` is with a user: the
    /// address of blocks of no byte; a cell of the class of `size` that
    /// the central layer has handed out and no cache holds; or a large
    /// allocation of just the pages that hold `size` bytes.
    pub open spec fn outstanding(&self, ptr: int, size: int) -> bool {
        &&& 0 <= size
        &&& self.heap.outstanding(ptr, size)
        &&& 0 < size <= MAX_SIZE ==> !self.cached(class_index(size), ptr)
    }

    /// Every block that was with a user still is, and no other.
    pub open spec fn same_blocks(&self, before: &GlobalHeap) -> bool {
        forall|p: int, s: int| #[trigger] self.outstanding(p, s) <==> before.outstanding(p, s)
    }

    /// How the state after a call that served the thread `tid` relates
    /// to the state before it: `served` is the allocator as that call
    /// left it, with the cache of the thread in front.
    pub open spec fn after_call(&self, before: &GlobalHeap, served: &RustAllocator, tid: int) -> bool {
        &&& self.heap.zone == served.zone
        &&& self.heap.cache == before.heap.cache
        &&& self.spare@ == before.spare@
        &&& self.caches.len() == before.caches.len()
        &&& self.caches[tid] == served.cache
        &&& forall|j: int|
            0 <= j < self.caches.len() && j != tid ==> #[trigger] self.caches[j] == before.caches[j]
    }

    /// The allocator before a call that serves the thread `tid`, with
    /// the cache of the thread in front.
    pub open spec fn serving(&self, tid: int) -> RustAllocator {
        RustAllocator { zone: self.heap.zone, cache: self.caches[tid] }
    }

    /// With the cache of a thread in front the allocator is well-formed,
    /// and a block is with a user just when it is with a user or in the
    /// cache of another thread, as the allocator then sees it, and in no
    /// such cache.
    pub proof fn lemma_serving(&self, tid: int)
        requires
            self.wf(),
            0 <= tid < self.caches.len(),
        ensures
            self.serving(tid).wf(),
            forall|p: int, s: int|
                #[trigger] self.outstanding(p, s) <==> (0 <= s && self.serving(tid).outstanding(
                    p,
                    s,
                ) && (0 < s <= MAX_SIZE ==> !self.cached(class_index(s), p))),
    {
        let h = self.serving(tid);
        assert forall|c: int, x: int| #[trigger] h.cache.held(c, x) implies h.zone.out(c, x) by {
            assert(self.holds(tid, c, x));
        }
        assert forall|p: int, s: int|
            #[trigger] self.outstanding(p, s) <==> (0 <= s && h.outstanding(p, s) && (0 < s
                <= MAX_SIZE ==> !self.cached(class_index(s), p))) by {
            if 0 < s <= MAX_SIZE {
                let c = class_index(s);
                if h.cache.held(c, p) {
                    assert(self.holds(tid, c, p));
                }
                assert(!self.heap.cache.held(c, p));
                assert(self.heap.outstanding(p, s) == self.heap.cache.live(&self.heap.zone, c, p));
                assert(h.outstanding(p, s) == h.cache.live(&h.zone, c, p));
            } else if s > MAX_SIZE {
                assert(self.heap.outstanding(p, s) == h.outstanding(p, s));
            }
        }
    }

    /// A call that served one thread keeps the invariant when it kept
    /// every cell that another cache holds handed out and out of the
    /// cache of the thread.
    pub proof fn lemma_after_call(&self, before: &GlobalHeap, served: &RustAllocator, tid: int)
        requires
            before.wf(),
            0 <= tid < before.caches.len(),
            served.wf(),
            self.after_call(before, served, tid),
            forall|j: int, c: int, x: int|
                j != tid && #[trigger] before.holds(j, c, x) ==> served.cache.live(
                    &served.zone,
                    c,
                    x,
                ),
            before.attached(tid) || forall|c: int, x: int| !served.cache.held(c, x),
        ensures
            self.wf(),
            self.serving(tid) == *served,
            forall|c: int, x: int|
                #[trigger] self.cached(c, x) <==> (served.cache.held(c, x) || exists|j: int|
                    j != tid && before.holds(j, c, x)),
    {
        assert forall|i: int| 0 <= i < self.caches.len() implies (#[trigger] self.caches[i]).wf() by {
            if i != tid {
                assert(self.caches[i] == before.caches[i]);
            }
        }
        assert forall|i: int, c: int, x: int| #[trigger] self.holds(i, c, x) implies self.heap.zone.out(
            c,
            x,
        ) by {
            if i != tid {
                assert(self.caches[i] == before.caches[i]);
                assert(before.holds(i, c, x));
            }
        }
        assert forall|i: int, j: int, c: int, x: int|
            #[trigger] self.holds(i, c, x) && #[trigger] self.holds(j, c, x) implies i == j by {
            if i != j {
                if i != tid {
                    assert(self.caches[i] == before.caches[i]);
                    assert(before.holds(i, c, x));
                }
                if j != tid {
                    assert(self.caches[j] == before.caches[j]);
                    assert(before.holds(j, c, x));
                }
            }
        }
        assert forall|k: int, c: int, x: int| 0 <= k < self.spare@.len() implies !#[trigger] self.holds(
            self.spare@[k] as int,
            c,
            x,
        ) by {
            let i = self.spare@[k] as int;
            assert(before.spare@[k] == i);
            if i != tid {
                assert(self.caches[i] == before.caches[i]);
                assert(!before.holds(before.spare@[k] as int, c, x));
            }
        }
        assert forall|c: int, x: int|
            #[trigger] self.cached(c, x) <==> (served.cache.held(c, x) || exists|j: int|
                j != tid && before.holds(j, c, x)) by {
            if self.cached(c, x) {
                let i = choose|i: int| self.holds(i, c, x);
                if i != tid {
                    assert(self.caches[i] == before.caches[i]);
                    assert(before.holds(i, c, x));
                }
            }
            if served.cache.held(c, x) {
                assert(self.holds(tid, c, x));
            }
            if exists|j: int| j != tid && before.holds(j, c, x) {
                let j = choose|j: int| j != tid && before.holds(j, c, x);
                assert(self.caches[j] == before.caches[j]);
                assert(self.holds(j, c, x));
            }
        }
    }

    /// A block whose standing the call did not change, as the allocator
    /// saw it with the cache of the thread in front, is with a user
    /// after the call just when it was before.
    pub proof fn lemma_frame(
        &self,
        before: &GlobalHeap,
        served: &RustAllocator,
        tid: int,
        p: int,
        s: int,
    )
        requires
            before.wf(),
            0 <= tid < before.caches.len(),
            served.wf(),
            self.after_call(before, served, tid),
            forall|j: int, c: int, x: int|
                j != tid && #[trigger] before.holds(j, c, x) ==> served.cache.live(
                    &served.zone,
                    c,
                    x,
                ),
            before.attached(tid) || forall|c: int, x: int| !served.cache.held(c, x),
            served.outstanding(p, s) <==> before.serving(tid).outstanding(p, s),
        ensures
            self.outstanding(p, s) <==> before.outstanding(p, s),
    {
        self.lemma_after_call(before, served, tid);
        self.lemma_serving(tid);
        before.lemma_serving(tid);
        if 0 < s <= MAX_SIZE {
            let c = class_index(s);
            if before.cached(c, p) {
                let i = choose|i: int| before.holds(i, c, p);
                if i == tid {
                    assert(before.serving(tid).cache.held(c, p));
                }
            }
            if before.serving(tid).cache.held(c, p) {
                assert(before.holds(tid, c, p));
            }
        }
    }

    /// A cell that the cache of another thread holds was with a user or
    /// in such a cache, as the allocator saw it with the cache of the
    /// thread `tid` in front.
    pub proof fn lemma_other_cell(&self, tid: int, j: int, c: int, x: int)
        requires
            self.wf(),
            0 <= tid < self.caches.len(),
            j != tid,
            self.holds(j, c, x),
        ensures
            1 <= c < TOTAL_SIZE_CLASS,
            self.serving(tid).cache.live(&self.heap.zone, c, x),
            self.serving(tid).outstanding(x, class_size(c)),
            !self.outstanding(x, class_size(c)),
    {
        assert(self.caches[j].wf());
        lemma_class_of_size(c);
        if self.caches[tid].held(c, x) {
            assert(self.holds(tid, c, x));
        }
    }

    /// Whether a request of `size` bytes with the alignment `align` by
    /// the thread `tid` is served: as the allocator serves it with the
    /// cache of the thread in front.
    pub open spec fn serves(&self, tid: int, size: usize, align: usize) -> bool {
        self.serving(tid).serves(size, align)
    }

    /// An allocator without memory and without caches.
    pub fn new() -> (heap: Self)
        ensures
            heap.wf(),
            heap.caches@.len() == 0,
            heap.spare@.len() == 0,
            forall|p: int, s: int| s > 0 ==> !heap.outstanding(p, s),
    {
        GlobalHeap { heap: RustAllocator::new(), caches: Vec::new(), spare: Vec::new() }
    }

    /// Hands out `size` bytes at an address that is a multiple of
    /// `align` to the thread `tid`, or returns 0 when the request fails:
    /// when `align` does not divide the page size, or when neither the
    /// cache of the thread nor the central layer nor the backend has the
    /// memory. A failure changes no block. No other cache is touched.
    pub fn allocate(&mut self, tid: usize, size: usize, align: usize) -> (ptr: usize)
        requires
            old(self).wf(),
            old(self).attached(tid as int),
        ensures
            final(self).wf(),
            final(self).caches.len() == old(self).caches.len(),
            final(self).spare@ == old(self).spare@,
            forall|j: int|
                0 <= j < final(self).caches.len() && j != tid ==> #[trigger] final(self).caches[j]
                    == old(self).caches[j],
            ptr == 0 ==> final(self).same_blocks(old(self)),
            ptr != 0 ==> {
                &&& align > 0
                &&& ptr % align == 0
                &&& final(self).outstanding(ptr as int, size as int)
                &&& size > 0 ==> !old(self).outstanding(ptr as int, size as int)
                &&& forall|p: int, s: int|
                    s > 0 && !(p == ptr && usable_size(s) == usable_size(size as int)) ==> (
                    #[trigger] final(self).outstanding(p, s) <==> old(self).outstanding(p, s))
            },
            ptr != 0 <==> old(self).serves(tid as int, size, align),
            old(self).serving(tid as int).reuses(size, align) ==> final(self).serving(
                tid as int,
            ).served_from_cache(&old(self).serving(tid as int), size, align, ptr),
    {
        proof {
            self.lemma_serving(tid as int);
        }
        std::mem::swap(&mut self.heap.cache, &mut self.caches[tid]);
        let ghost front = self.heap;
        let ptr = self.heap.allocate(size, align);
        let ghost served = self.heap;
        std::mem::swap(&mut self.heap.cache, &mut self.caches[tid]);
        proof {
            assert(front == old(self).serving(tid as int));
            assert forall|j: int, c: int, x: int|
                j != tid && #[trigger] old(self).holds(j, c, x) implies served.cache.live(
                &served.zone,
                c,
                x,
            ) by {
                old(self).lemma_other_cell(tid as int, j, c, x);
                lemma_class_of_size(c);
                if ptr != 0 && x == ptr && usable_size(class_size(c)) == usable_size(size as int) {
                    lemma_size_of_class(size as int, c);
                }
                assert(served.outstanding(x, class_size(c)));
            }
            self.lemma_after_call(old(self), &served, tid as int);
            self.lemma_serving(tid as int);
            assert forall|p: int, s: int|
                (ptr == 0 || (s > 0 && !(p == ptr && usable_size(s) == usable_size(
                    size as int,
                )))) implies (#[trigger] self.outstanding(p, s) <==> old(self).outstanding(
                p,
                s,
            )) by {
                self.lemma_frame(old(self), &served, tid as int, p, s);
            }
            if ptr != 0 && 0 < size <= MAX_SIZE {
                let c = class_index(size as int);
                lemma_class_exists(size as int);
                if self.cached(c, ptr as int) {
                    let j = choose|j: int| j != tid && old(self).holds(j, c, ptr as int);
                    old(self).lemma_other_cell(tid as int, j, c, ptr as int);
                }
            }
        }
        ptr
    }

    /// Takes back the block of `size` bytes at `ptr`, which is with a
    /// user, into the cache of the thread `tid`. Returns the ranges that
    /// the backend gave back to the system, each as a base and a byte
    /// length. No other cache is touched.
    pub fn deallocate(&mut self, tid: usize, ptr: usize, size: usize, align: usize) -> (released:
        Vec<(usize, usize)>)
        requires
            old(self).wf(),
            old(self).attached(tid as int),
            old(self).outstanding(ptr as int, size as int),
        ensures
            final(self).wf(),
            final(self).caches.len() == old(self).caches.len(),
            final(self).spare@ == old(self).spare@,
            forall|j: int|
                0 <= j < final(self).caches.len() && j != tid ==> #[trigger] final(self).caches[j]
                    == old(self).caches[j],
            size > 0 ==> !final(self).outstanding(ptr as int, size as int),
            forall|p: int, s: int|
                s > 0 && !(p == ptr && usable_size(s) == usable_size(size as int)) ==> (
                #[trigger] final(self).outstanding(p, s) <==> old(self).outstanding(p, s)),
            gave_back(
                old(self).heap.zone.backend.managed@,
                final(self).heap.zone.backend.managed@,
                released@,
            ),
            old(self).serving(tid as int).keeps(size) ==> released@.len() == 0
                && final(self).serving(tid as int).kept_in_cache(
                &old(self).serving(tid as int),
                size,
                ptr,
            ),
            size > MAX_SIZE ==> {
                let n = pages_for(size as int);
                &&& final(self).caches@ == old(self).caches@
                &&& final(self).heap.zone.slabs == old(self).heap.zone.slabs
                &&& forall|p: int|
                    #[trigger] final(self).heap.zone.backend.allocated(p) <==> (old(self).heap.zone.backend.allocated(p) && !crate::freelist::in_run(ptr as int, n, p))
                &&& released@ == crate::freelist::ranges::some_range(
                    crate::cache::thread_cache::zone_released(&old(self).heap.zone, ptr as int, n),
                )
            },
    {
        proof {
            self.lemma_serving(tid as int);
        }
        std::mem::swap(&mut self.heap.cache, &mut self.caches[tid]);
        let ghost front = self.heap;
        let released = self.heap.deallocate(ptr, size, align);
        let ghost served = self.heap;
        std::mem::swap(&mut self.heap.cache, &mut self.caches[tid]);
        proof {
            assert(front == old(self).serving(tid as int));
            assert forall|j: int, c: int, x: int|
                j != tid && #[trigger] old(self).holds(j, c, x) implies served.cache.live(
                &served.zone,
                c,
                x,
            ) by {
                old(self).lemma_other_cell(tid as int, j, c, x);
                lemma_class_of_size(c);
                if x == ptr && usable_size(class_size(c)) == usable_size(size as int) {
                    lemma_size_of_class(size as int, c);
                    assert(old(self).cached(c, ptr as int));
                }
                assert(served.outstanding(x, class_size(c)));
            }
            self.lemma_after_call(old(self), &served, tid as int);
            self.lemma_serving(tid as int);
            assert forall|p: int, s: int|
                s > 0 && !(p == ptr && usable_size(s) == usable_size(size as int)) implies (
            #[trigger] self.outstanding(p, s) <==> old(self).outstanding(p, s)) by {
                self.lemma_frame(old(self), &served, tid as int, p, s);
            }
        }
        released
    }

    /// Resizes the block of `old_size` bytes at `ptr`, which is with a
    /// user, to `new_size` bytes, for the thread `tid`.
    ///
    /// When both sizes have the same class, the block stays as it is.
    /// Else a block of `new_size` bytes is handed out and the old block
    /// is taken back; the caller copies the smaller of the two sizes in
    /// bytes from `ptr` to the new block before any range in `released`
    /// goes back to the system. When no new block can be had, the result
    /// is 0 and the old block stays with its user.
    pub fn reallocate(
        &mut self,
        tid: usize,
        ptr: usize,
        old_size: usize,
        new_size: usize,
        align: usize,
    ) -> (r: Moved)
        requires
            old(self).wf(),
            old(self).attached(tid as int),
            old(self).outstanding(ptr as int, old_size as int),
        ensures
            final(self).wf(),
            final(self).caches.len() == old(self).caches.len(),
            final(self).spare@ == old(self).spare@,
            forall|j: int|
                0 <= j < final(self).caches.len() && j != tid ==> #[trigger] final(self).caches[j]
                    == old(self).caches[j],
            crate::size_class::tc_size_class::classify(old_size as int).0
                == crate::size_class::tc_size_class::classify(new_size as int).0 ==> r.ptr == ptr
                && r.copy == 0 && r.released@.len() == 0 && final(self).same_blocks(old(self)),
            crate::size_class::tc_size_class::classify(old_size as int).0
                != crate::size_class::tc_size_class::classify(new_size as int).0 ==> {
                &&& r.ptr != 0 <==> old(self).serves(tid as int, new_size, align)
                &&& r.ptr == 0 ==> final(self).same_blocks(old(self)) && r.copy == 0
                    && r.released@.len() == 0
                &&& r.ptr != 0 ==> {
                    &&& align > 0
                    &&& r.ptr % align == 0
                    &&& r.copy == if old_size < new_size {
                        old_size
                    } else {
                        new_size
                    }
                    &&& final(self).outstanding(r.ptr as int, new_size as int)
                    &&& new_size > 0 ==> !old(self).outstanding(r.ptr as int, new_size as int)
                    &&& old_size > 0 ==> !final(self).outstanding(ptr as int, old_size as int)
                    &&& forall|p: int, s: int|
                        s > 0 && !(p == r.ptr && usable_size(s) == usable_size(new_size as int))
                            && !(p == ptr && usable_size(s) == usable_size(old_size as int)) ==> (
                        #[trigger] final(self).outstanding(p, s) <==> old(self).outstanding(p, s))
                }
            },
            all_gone(final(self).heap.zone.backend.managed@, r.released@),
    {
        proof {
            self.lemma_serving(tid as int);
        }
        std::mem::swap(&mut self.heap.cache, &mut self.caches[tid]);
        let ghost front = self.heap;
        let r = self.heap.reallocate(ptr, old_size, new_size, align);
        let ghost served = self.heap;
        std::mem::swap(&mut self.heap.cache, &mut self.caches[tid]);
        proof {
            assert(front == old(self).serving(tid as int));
            let same = crate::size_class::tc_size_class::classify(old_size as int).0
                == crate::size_class::tc_size_class::classify(new_size as int).0;
            assert forall|j: int, c: int, x: int|
                j != tid && #[trigger] old(self).holds(j, c, x) implies served.cache.live(
                &served.zone,
                c,
                x,
            ) by {
                old(self).lemma_other_cell(tid as int, j, c, x);
                lemma_class_of_size(c);
                if !same && r.ptr != 0 {
                    if x == r.ptr && usable_size(class_size(c)) == usable_size(new_size as int) {
                        lemma_size_of_class(new_size as int, c);
                    }
                    if x == ptr && usable_size(class_size(c)) == usable_size(old_size as int) {
                        lemma_size_of_class(old_size as int, c);
                        assert(old(self).cached(c, ptr as int));
                    }
                }
                assert(served.outstanding(x, class_size(c)));
            }
            self.lemma_after_call(old(self), &served, tid as int);
            self.lemma_serving(tid as int);
            assert forall|p: int, s: int|
                (same || r.ptr == 0 || (s > 0 && !(p == r.ptr && usable_size(s) == usable_size(
                    new_size as int,
                )) && !(p == ptr && usable_size(s) == usable_size(old_size as int))))
                    implies (#[trigger] self.outstanding(p, s) <==> old(self).outstanding(
                p,
                s,
            )) by {
                self.lemma_frame(old(self), &served, tid as int, p, s);
            }
            if !same && r.ptr != 0 && 0 < new_size <= MAX_SIZE {
                let c = class_index(new_size as int);
                lemma_class_exists(new_size as int);
                if self.cached(c, r.ptr as int) {
                    let j = choose|j: int| j != tid && old(self).holds(j, c, r.ptr as int);
                    old(self).lemma_other_cell(tid as int, j, c, r.ptr as int);
                }
            }
        }
        r
    }

    /// Tells whether `tid` is the number of the cache of a thread that
    /// has not ended.
    pub fn is_attached(&self, tid: usize) -> (b: bool)
        ensures
            b == self.attached(tid as int),
    {
        if tid >= self.caches.len() {
            return false;
        }
        let mut k: usize = 0;
        while k < self.spare.len()
            invariant
                k <= self.spare.len(),
                forall|j: int| 0 <= j < k ==> self.spare@[j] != tid,
            decreases self.spare.len() - k,
        {
            if self.spare[k] == tid {
                return false;
            }
            k += 1;
        }
        true
    }

    /// Gives a thread that starts a cache, and returns the number of the
    /// cache: that of a thread that has ended, if there is one, else a
    /// new one. The cache holds nothing.
    pub fn get_thread_cache(&mut self) -> (tid: usize)
        requires
            old(self).wf(),
        ensures
            final(self).wf(),
            final(self).heap == old(self).heap,
            !old(self).attached(tid as int),
            final(self).attached(tid as int),
            forall|c: int, x: int| !final(self).holds(tid as int, c, x),
            forall|i: int| i != tid ==> (final(self).attached(i) <==> old(self).attached(i)),
            forall|i: int|
                0 <= i < old(self).caches.len() ==> #[trigger] final(self).caches[i] == old(self).caches[i],
            old(self).spare@.len() > 0 ==> tid == old(self).spare@.last() && final(self).caches.len()
                == old(self).caches.len(),
            old(self).spare@.len() == 0 ==> tid == old(self).caches.len() && final(self).caches.len() == old(self).caches.len() + 1,
            final(self).same_blocks(old(self)),
    {
        let tid = match self.spare.pop() {
            Some(tid) => {
                proof {
                    let n = old(self).spare@.len() - 1;
                    assert(old(self).spare@[n] == tid);
                    assert(self.spare@ == old(self).spare@.drop_last());
                    assert(self.spare@.no_duplicates()) by {
                        assert forall|a: int, b: int|
                            0 <= a < self.spare@.len() && 0 <= b < self.spare@.len() && a
                                != b implies self.spare@[a] != self.spare@[b] by {
                            assert(old(self).spare@[a] != old(self).spare@[b]);
                        }
                    }
                    assert forall|k: int| 0 <= k < self.spare@.len() implies (#[trigger] self.spare@[k])
                        < self.caches.len() by {
                        assert(old(self).spare@[k] < old(self).caches.len());
                    }
                    assert forall|i: int, c: int, x: int| self.holds(i, c, x) <==> old(self).holds(
                        i,
                        c,
                        x,
                    ) by {}
                    assert(!self.spare@.contains(tid)) by {
                        if self.spare@.contains(tid) {
                            let k = choose|k: int| 0 <= k < self.spare@.len() && self.spare@[k] == tid;
                            assert(old(self).spare@[k] == tid);
                        }
                    }
                    assert forall|i: int| i != tid implies (self.attached(i) <==> old(self).attached(
                        i,
                    )) by {
                        if 0 <= i < self.caches.len() {
                            if old(self).spare@.contains(i as usize) {
                                let k = choose|k: int|
                                    0 <= k < old(self).spare@.len() && old(self).spare@[k] == i;
                                assert(self.spare@[k] == i);
                            }
                            if self.spare@.contains(i as usize) {
                                let k = choose|k: int|
                                    0 <= k < self.spare@.len() && self.spare@[k] == i;
                                assert(old(self).spare@[k] == i);
                            }
                        }
                    }
                    assert forall|k: int, c: int, x: int|
                        0 <= k < self.spare@.len() implies !#[trigger] self.holds(
                        self.spare@[k] as int,
                        c,
                        x,
                    ) by {
                        assert(!old(self).holds(old(self).spare@[k] as int, c, x));
                    }
                    assert forall|c: int, x: int| !self.holds(tid as int, c, x) by {
                        assert(!old(self).holds(old(self).spare@[n] as int, c, x));
                    }
                }
                tid
            },
            None => {
                let tid = self.caches.len();
                self.caches.push(ThreadCache::new());
                proof {
                    assert forall|i: int, c: int, x: int| #[trigger] self.holds(i, c, x) implies old(self).holds(i, c, x) by {
                        if i < tid {
                            assert(self.caches[i] == old(self).caches[i]);
                        }
                    }
                    assert forall|i: int| 0 <= i < self.caches.len() implies (#[trigger] self.caches[i]).wf() by {
                        if i < tid {
                            assert(self.caches[i] == old(self).caches[i]);
                        }
                    }
                    assert forall|i: int, j: int, c: int, x: int|
                        #[trigger] self.holds(i, c, x) && #[trigger] self.holds(j, c, x) implies i
                        == j by {
                        assert(old(self).holds(i, c, x));
                        assert(old(self).holds(j, c, x));
                    }
                }
                tid
            },
        };
        proof {
            assert forall|p: int, s: int| #[trigger] self.outstanding(p, s) <==> old(self).outstanding(
                p,
                s,
            ) by {
                if 0 < s <= MAX_SIZE {
                    let c = class_index(s);
                    if self.cached(c, p) {
                        let i = choose|i: int| self.holds(i, c, p);
                        assert(i != tid);
                        assert(self.caches[i] == old(self).caches[i]);
                        assert(old(self).holds(i, c, p));
                    }
                    if old(self).cached(c, p) {
                        let i = choose|i: int| old(self).holds(i, c, p);
                        assert(self.caches[i] == old(self).caches[i]);
                        assert(self.holds(i, c, p));
                    }
                }
            }
        }
        tid
    }

    /// Ends the thread `tid`: every cell of its cache goes back to the
    /// central layer, and the number of the cache is kept for the next
    /// thread. Returns the ranges that the backend gave back to the
    /// system. No block comes to or leaves a user.
    pub fn free_thread_cache(&mut self, tid: usize) -> (released: Vec<(usize, usize)>)
        requires
            old(self).wf(),
            old(self).attached(tid as int),
        ensures
            final(self).wf(),
            final(self).caches.len() == old(self).caches.len(),
            final(self).spare@ == old(self).spare@.push(tid),
            !final(self).attached(tid as int),
            forall|j: int|
                0 <= j < final(self).caches.len() && j != tid ==> #[trigger] final(self).caches[j]
                    == old(self).caches[j],
            forall|c: int, x: int| !final(self).holds(tid as int, c, x),
            forall|c: int, x: int|
                #[trigger] final(self).heap.zone.out(c, x) <==> (old(self).heap.zone.out(c, x)
                    && !old(self).holds(tid as int, c, x)),
            final(self).same_blocks(old(self)),
            gave_back(
                old(self).heap.zone.backend.managed@,
                final(self).heap.zone.backend.managed@,
                released@,
            ),
    {
        proof {
            self.lemma_serving(tid as int);
        }
        std::mem::swap(&mut self.heap.cache, &mut self.caches[tid]);
        let ghost front = self.heap;
        let released = self.heap.cache.cleanup_cache_unchecked(&mut self.heap.zone);
        let ghost served = self.heap;
        std::mem::swap(&mut self.heap.cache, &mut self.caches[tid]);
        let ghost mid = *self;
        self.spare.push(tid);
        proof {
            assert(front == old(self).serving(tid as int));
            assert forall|j: int, c: int, x: int|
                j != tid && #[trigger] old(self).holds(j, c, x) implies served.cache.live(
                &served.zone,
                c,
                x,
            ) by {
                old(self).lemma_other_cell(tid as int, j, c, x);
                assert(front.cache.live(&front.zone, c, x));
            }
            mid.lemma_after_call(old(self), &served, tid as int);
            mid.lemma_serving(tid as int);
            assert forall|p: int, s: int| #[trigger] mid.outstanding(p, s) <==> old(self).outstanding(
                p,
                s,
            ) by {
                if s > MAX_SIZE {
                    served.lemma_large_same(&front, p, s);
                } else if s > 0 {
                    let c = class_index(s);
                    assert(served.cache.live(&served.zone, c, p) <==> front.cache.live(
                        &front.zone,
                        c,
                        p,
                    ));
                }
                mid.lemma_frame(old(self), &served, tid as int, p, s);
            }
            assert forall|i: int, c: int, x: int| self.holds(i, c, x) <==> mid.holds(i, c, x) by {}
            assert forall|c: int, x: int| self.cached(c, x) <==> mid.cached(c, x) by {
                if self.cached(c, x) {
                    let i = choose|i: int| self.holds(i, c, x);
                    assert(mid.holds(i, c, x));
                }
                if mid.cached(c, x) {
                    let i = choose|i: int| mid.holds(i, c, x);
                    assert(self.holds(i, c, x));
                }
            }
            assert(self.spare@.no_duplicates()) by {
                assert forall|a: int, b: int|
                    0 <= a < self.spare@.len() && 0 <= b < self.spare@.len() && a
                        != b implies self.spare@[a] != self.spare@[b] by {
                    if a < mid.spare@.len() {
                        assert(mid.spare@.contains(mid.spare@[a]));
                    }
                    if b < mid.spare@.len() {
                        assert(mid.spare@.contains(mid.spare@[b]));
                    }
                }
            }
            assert forall|k: int, c: int, x: int| 0 <= k < self.spare@.len() implies !#[trigger] self.holds(
                self.spare@[k] as int,
                c,
                x,
            ) by {
                if k < mid.spare@.len() {
                    assert(!mid.holds(mid.spare@[k] as int, c, x));
                }
            }
            assert(self.spare@[mid.spare@.len() as int] == tid);
            assert forall|k: int| 0 <= k < self.spare@.len() implies (#[trigger] self.spare@[k])
                < self.caches.len() by {
                if k < mid.spare@.len() {
                    assert(mid.spare@[k] < mid.caches.len());
                }
            }
            assert forall|i: int, j: int, c: int, x: int|
                #[trigger] self.holds(i, c, x) && #[trigger] self.holds(j, c, x) implies i == j by {
                assert(mid.holds(i, c, x));
                assert(mid.holds(j, c, x));
            }
            assert forall|i: int, c: int, x: int| #[trigger] self.holds(i, c, x) implies self.heap.zone.out(
                c,
                x,
            ) by {
                assert(mid.holds(i, c, x));
            }
            assert forall|p: int, s: int| #[trigger] self.outstanding(p, s) <==> old(self).outstanding(
                p,
                s,
            ) by {
                assert(mid.outstanding(p, s) <==> old(self).outstanding(p, s));
                if 0 < s <= MAX_SIZE {
                    assert(self.cached(class_index(s), p) <==> mid.cached(class_index(s), p));
                }
            }
            assert forall|c: int, x: int|
                #[trigger] self.heap.zone.out(c, x) <==> (old(self).heap.zone.out(c, x) && !old(self).holds(tid as int, c, x)) by {
                assert(served.zone.out(c, x) <==> front.cache.live(&front.zone, c, x));
            }
        }
        released
    }

    /// Makes the `heap_size` bytes at `heap_start` the reserve from which
    /// the allocator cuts its pages, and returns what was left of the old
    /// reserve, as a base and a byte length, for the caller to hand back
    /// to the system. Fails with `ELAYOUT`, and changes nothing, unless
    /// `page_size` is the page size of the allocator and the range is
    /// page-aligned, starts above address 0 and ends at or below the
    /// address limit of the page index.
    pub fn init(&mut self, heap_start: usize, heap_size: usize, page_size: usize) -> (r: Result<
        (usize, usize),
        AllocError,
    >)
        requires
            old(self).wf(),
            forall|p: int|
                crate::freelist::page_of(heap_start as int) <= p < crate::freelist::page_of(
                    heap_start + heap_size,
                ) ==> !old(self).heap.zone.backend.managed@.contains(p),
        ensures
            final(self).wf(),
            final(self).caches@ == old(self).caches@,
            final(self).spare@ == old(self).spare@,
            final(self).same_blocks(old(self)),
            r is Ok <==> page_size == PG_SIZE && heap_start % PG_SIZE == 0 && heap_size % PG_SIZE
                == 0 && 0 < heap_start && heap_start + heap_size <= crate::freelist::ADDRESS_LIMIT
                && heap_start + heap_size <= usize::MAX,
            r is Err ==> r == Err::<(usize, usize), AllocError>(AllocError::ELAYOUT),
            r matches Ok(left) ==> {
                &&& left.0 == old(self).heap.zone.backend.bump.current
                &&& left.1 == old(self).heap.zone.backend.bump.remaining()
                &&& final(self).heap.zone.backend.bump.current == heap_start
                &&& final(self).heap.zone.backend.bump.check_point == heap_start + heap_size
            },
    {
        let r = self.heap.init(heap_start, heap_size, page_size);
        proof {
            self.lemma_reserve_changed(old(self));
        }
        r
    }

    /// Grows the reserve upward by the `size` bytes that lie just above
    /// it. Fails with `ELAYOUT`, and changes nothing, unless `page_size`
    /// is the page size of the allocator, `size` is a multiple of it,
    /// there is a reserve to grow, and the new end is at or below the
    /// address limit of the page index.
    pub fn extend(&mut self, size: usize, page_size: usize) -> (r: Result<(), AllocError>)
        requires
            old(self).wf(),
            forall|p: int|
                crate::freelist::page_of(old(self).heap.zone.backend.bump.check_point as int) <= p
                    < crate::freelist::page_of(old(self).heap.zone.backend.bump.check_point + size)
                    ==> !old(self).heap.zone.backend.managed@.contains(p),
        ensures
            final(self).wf(),
            final(self).caches@ == old(self).caches@,
            final(self).spare@ == old(self).spare@,
            final(self).same_blocks(old(self)),
            r is Ok <==> page_size == PG_SIZE && size % PG_SIZE == 0 && 0 < old(self).heap.zone.backend.bump.current && old(self).heap.zone.backend.bump.check_point + size
                <= crate::freelist::ADDRESS_LIMIT && old(self).heap.zone.backend.bump.check_point
                + size <= usize::MAX,
            r is Err ==> r == Err::<(), AllocError>(AllocError::ELAYOUT),
            r is Err ==> final(self).heap.zone.backend.bump == old(self).heap.zone.backend.bump,
            r is Ok ==> final(self).heap.zone.backend.bump.current == old(self).heap.zone.backend.bump.current && final(self).heap.zone.backend.bump.check_point
                == old(self).heap.zone.backend.bump.check_point + size,
    {
        let r = self.heap.extend(size, page_size);
        proof {
            self.lemma_reserve_changed(old(self));
        }
        r
    }

    /// A change of the reserve changes no block.
    pub proof fn lemma_reserve_changed(&self, before: &GlobalHeap)
        requires
            before.wf(),
            self.heap.wf(),
            self.heap.same_blocks(&before.heap),
            self.heap.cache == before.heap.cache,
            self.caches@ == before.caches@,
            self.spare@ == before.spare@,
        ensures
            self.wf(),
            self.same_blocks(before),
    {
        assert forall|i: int, c: int, x: int| #[trigger] self.holds(i, c, x) implies self.heap.zone.out(
            c,
            x,
        ) by {
            assert(before.holds(i, c, x));
            assert(self.caches[i].wf());
            lemma_class_of_size(c);
            assert(before.heap.outstanding(x, class_size(c)));
            assert(self.heap.outstanding(x, class_size(c)));
        }
        assert forall|i: int, j: int, c: int, x: int|
            #[trigger] self.holds(i, c, x) && #[trigger] self.holds(j, c, x) implies i == j by {
            assert(before.holds(i, c, x));
            assert(before.holds(j, c, x));
        }
        assert forall|k: int, c: int, x: int| 0 <= k < self.spare@.len() implies !#[trigger] self.holds(
            self.spare@[k] as int,
            c,
            x,
        ) by {
            assert(!before.holds(before.spare@[k] as int, c, x));
        }
        assert forall|p: int, s: int| #[trigger] self.outstanding(p, s) <==> before.outstanding(
            p,
            s,
        ) by {
            assert(self.heap.outstanding(p, s) <==> before.heap.outstanding(p, s));
            if 0 < s <= MAX_SIZE {
                let c = class_index(s);
                if self.cached(c, p) {
                    let i = choose|i: int| self.holds(i, c, p);
                    assert(before.holds(i, c, p));
                }
                if before.cached(c, p) {
                    let i = choose|i: int| before.holds(i, c, p);
                    assert(self.holds(i, c, p));
                }
            }
        }
    }

    /// No two blocks that are with users share a byte, whichever threads
    /// they were handed to.
    pub proof fn lemma_blocks_disjoint(&self, pa: int, s1: int, pb: int, s2: int)
        requires
            self.wf(),
            0 < s1,
            0 < s2,
            pa != pb,
            self.outstanding(pa, s1),
            self.outstanding(pb, s2),
        ensures
            pa + usable_size(s1) <= pb || pb + usable_size(s2) <= pa,
    {
        crate::cache::lemma_outstanding_disjoint(&self.heap.cache, &self.heap.zone, pa, s1, pb, s2);
    }

    /// A block that is with a user holds the bytes that were asked for,
    /// in pages that the backend holds allocated and that carry a tag.
    pub proof fn lemma_block_backed(&self, ptr: int, size: int, y: int)
        requires
            self.wf(),
            0 < size,
            self.outstanding(ptr, size),
            ptr <= y < ptr + usable_size(size),
        ensures
            size <= usable_size(size),
            self.heap.zone.backend.allocated(crate::freelist::page_of(y)),
            self.heap.zone.rd_tree.tag(crate::freelist::page_of(y)) > 0,
    {
        crate::cache::lemma_usable_size(size);
        crate::cache::lemma_outstanding_backed(&self.heap.cache, &self.heap.zone, ptr, size, y);
    }

    /// No cell that is with a user is in a cache, and no cell is in the
    /// caches of two threads.
    pub proof fn lemma_caches_apart(&self, i: int, j: int, c: int, x: int)
        requires
            self.wf(),
            self.holds(i, c, x),
        ensures
            1 <= c < TOTAL_SIZE_CLASS,
            !self.outstanding(x, class_size(c)),
            self.holds(j, c, x) ==> i == j,
            self.heap.zone.out(c, x),
    {
        assert(self.caches[i].wf());
        lemma_class_of_size(c);
        assert(self.cached(c, x));
    }

    /// Tells whether a block of `size` bytes at `ptr` is with a user.
    pub fn is_outstanding(&self, ptr: usize, size: usize) -> (b: bool)
        requires
            self.wf(),
        ensures
            b == self.outstanding(ptr as int, size as int),
    {
        if !self.heap.is_outstanding(ptr, size) {
            return false;
        }
        if size == 0 || size > MAX_SIZE {
            return true;
        }
        let c: usize = crate::size_class::get_size_class(size).index();
        proof {
            lemma_class_exists(size as int);
            lemma_class_unique(size as int, c as int, class_index(size as int));
        }
        let mut i: usize = 0;
        while i < self.caches.len()
            invariant
                i <= self.caches.len(),
                self.wf(),
                0 < size <= MAX_SIZE,
                c == class_index(size as int),
                self.heap.outstanding(ptr as int, size as int),
                forall|j: int| 0 <= j < i ==> !self.holds(j, c as int, ptr as int),
            decreases self.caches.len() - i,
        {
            proof {
                assert(self.caches[i as int].wf());
            }
            if self.caches[i].is_held(c, ptr) {
                proof {
                    assert(self.holds(i as int, c as int, ptr as int));
                    assert(self.cached(c as int, ptr as int));
                }
                return false;
            }
            i += 1;
        }
        true
    }

    /// What is wrong with the free of a block of `size` bytes at `ptr`,
    /// if anything is.
    ///
    /// Nothing, when the block is with a user. `ESIZE`, when no block
    /// has so many bytes. `EUAF`, when the page of the address holds
    /// nothing that is in use. `ELAYOUT`, when the address is not that
    /// of a block of this size: not the address of a cell of the class
    /// of the size, or not that of a large allocation of so many pages.
    /// `EDBFRE`, when the cell is there and is not with a user.
    pub open spec fn verdict(&self, ptr: int, size: int) -> Result<(), AllocError> {
        let t = self.heap.zone.rd_tree.tag(crate::freelist::page_of(ptr));
        if self.outstanding(ptr, size) {
            Ok(())
        } else if size == 0 {
            Err(AllocError::ELAYOUT)
        } else if size > usize::MAX - PG_SIZE {
            Err(AllocError::ESIZE)
        } else if t <= 0 {
            Err(AllocError::EUAF)
        } else if size <= MAX_SIZE && self.heap.zone.owns(class_index(size), ptr) {
            Err(AllocError::EDBFRE)
        } else {
            Err(AllocError::ELAYOUT)
        }
    }

    /// Tells what is wrong with the free of a block of `size` bytes at
    /// `ptr`, if anything is.
    pub fn check_free(&self, ptr: usize, size: usize) -> (r: Result<(), AllocError>)
        requires
            self.wf(),
        ensures
            r == self.verdict(ptr as int, size as int),
            r is Ok <==> self.outstanding(ptr as int, size as int),
    {
        if self.is_outstanding(ptr, size) {
            return Ok(());
        }
        if size == 0 {
            return Err(AllocError::ELAYOUT);
        }
        if size > usize::MAX - PG_SIZE {
            return Err(AllocError::ESIZE);
        }
        let t: i64 = self.heap.zone.rd_tree.lookup((ptr as u64) / (PG_SIZE as u64));
        if t <= 0 {
            return Err(AllocError::EUAF);
        }
        if size <= MAX_SIZE {
            let c: usize = crate::size_class::get_size_class(size).index();
            proof {
                lemma_class_exists(size as int);
                lemma_class_unique(size as int, c as int, class_index(size as int));
            }
            if self.heap.zone.is_cell(c, ptr) {
                return Err(AllocError::EDBFRE);
            }
        }
        Err(AllocError::ELAYOUT)
    }
}

} // verus!
