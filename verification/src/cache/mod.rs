use crate::cache::thread_cache::{
    merged_base, merged_pages, zone_released, ThreadCache, ZST_ADDRESS,
};
use crate::collections::radix_tree::TreeNode;
use crate::error::AllocError;
use crate::freelist::bump::PG_SIZE;
use crate::freelist::{in_run, page_of, pages_for};
use crate::sc::efficient_sc::{lemma_cells_apart, owner_tag, tag_id, SCAllocator};
use crate::size_class::tc_size_class::{
    class_index, class_size, lemma_class_exists, lemma_rounded_size_monotone, rounded_size, MAX_SIZE,
};
use crate::size_class::{get_size_class, SizeClass, TOTAL_SIZE_CLASS};
use crate::zone::{large_tag, ZoneAllocator};
use crate::freelist::ranges::{all_gone, gave_back, lemma_all_gone, some_range};
use vstd::prelude::*;

pub mod cpu_cache;
pub mod global_heap;
pub mod thread_cache;

verus! {

/// The bytes that a block of `size` bytes may use: the size of its class,
/// or its whole pages.
pub open spec fn usable_size(size: int) -> int {
    if size <= MAX_SIZE {
        rounded_size(size)
    } else {
        pages_for(size) * PG_SIZE
    }
}

/// The tag of a large allocation is a positive multiple of 64 that names
/// the first page of the allocation.
pub proof fn lemma_large_tag(a: int)
    requires
        0 < a <= usize::MAX,
    ensures
        large_tag(page_of(a)) == (page_of(a) + 1) * 64,
        large_tag(page_of(a)) > 0,
        large_tag(page_of(a)) % 64 == 0,
        crate::zone::large_first(large_tag(page_of(a))) == page_of(a),
{
}

/// A block may use at least the bytes that were asked for.
pub proof fn lemma_usable_size(size: int)
    requires
        0 <= size,
    ensures
        size <= usable_size(size),
{
    if size <= MAX_SIZE {
        lemma_rounded_size_monotone(size, size);
    }
}

/// The page index names the record that owns a cell that is with a user:
/// the tag of each page that the cell touches is the tag of one record
/// of the class of the cell, whose run holds the cell.
pub proof fn lemma_radix_consistency(cache: &ThreadCache, zone: &ZoneAllocator, ptr: int, size: int)
    requires
        cache.wf(),
        zone.wf(),
        0 < size <= MAX_SIZE,
        cache.outstanding(zone, ptr, size),
    ensures
        ({
            let c = class_index(size);
            let sc = zone.slabs[c];
            let id = tag_id(zone.rd_tree.tag(page_of(ptr)));
            &&& 1 <= c < TOTAL_SIZE_CLASS
            &&& 0 <= id < sc.pages.len()
            &&& sc.pages[id].data != 0
            &&& sc.page_out(id, ptr)
            &&& sc.pages[id].data <= ptr
            &&& ptr + usable_size(size) <= sc.pages[id].data + sc.pg_num * PG_SIZE
            &&& forall|y: int|
                ptr <= y < ptr + usable_size(size) ==> #[trigger] zone.rd_tree.tag(page_of(y))
                    == owner_tag(c, id)
        }),
{
    let c = class_index(size);
    lemma_class_exists(size);
    assert(zone.slab_ok(c));
    zone.slabs[c].lemma_out_cell(&zone.rd_tree, ptr);
}

/// The memory of a block that is with a user lies in pages that the
/// backend holds allocated.
pub proof fn lemma_outstanding_backed(
    cache: &ThreadCache,
    zone: &ZoneAllocator,
    ptr: int,
    size: int,
    y: int,
)
    requires
        cache.wf(),
        zone.wf(),
        0 < size,
        cache.outstanding(zone, ptr, size),
        ptr <= y < ptr + usable_size(size),
    ensures
        zone.backend.allocated(page_of(y)),
        zone.rd_tree.tag(page_of(y)) > 0,
{
    if size <= MAX_SIZE {
        lemma_radix_consistency(cache, zone, ptr, size);
        assert(zone.rd_tree.tag(page_of(y)) > 0);
    } else {
        assert(in_run(ptr, pages_for(size), page_of(y)));
    }
    SCAllocator::lemma_tagged_is_allocated(&zone.backend, &zone.rd_tree, page_of(y));
}

/// No two blocks that are with users share a byte.
#[verifier::rlimit(80)]
#[verifier::spinoff_prover]
pub proof fn lemma_outstanding_disjoint(
    cache: &ThreadCache,
    zone: &ZoneAllocator,
    pa: int,
    s1: int,
    pb: int,
    s2: int,
)
    requires
        cache.wf(),
        zone.wf(),
        0 < s1,
        0 < s2,
        pa != pb,
        cache.outstanding(zone, pa, s1),
        cache.outstanding(zone, pb, s2),
    ensures
        pa + usable_size(s1) <= pb || pb + usable_size(s2) <= pa,
{
    if !(pa + usable_size(s1) <= pb || pb + usable_size(s2) <= pa) {
        let y = if pa < pb { pb } else { pa };
        assert(pa <= y < pa + usable_size(s1));
        assert(pb <= y < pb + usable_size(s2));
        let t = zone.rd_tree.tag(page_of(y));
        if s1 <= MAX_SIZE && s2 <= MAX_SIZE {
            lemma_radix_consistency(cache, zone, pa, s1);
            lemma_radix_consistency(cache, zone, pb, s2);
            let c1 = class_index(s1);
            let c2 = class_index(s2);
            let id1 = tag_id(zone.rd_tree.tag(page_of(pa)));
            let id2 = tag_id(zone.rd_tree.tag(page_of(pb)));
            assert(t == owner_tag(c1, id1));
            assert(t == owner_tag(c2, id2));
            assert(c1 == c2 && id1 == id2);
            assert(zone.slab_ok(c1));
            let sc = zone.slabs[c1];
            if pa < pb {
                lemma_cells_apart(
                    sc.pages[id1].data as int,
                    sc.pg_align as int,
                    sc.pg_count as int,
                    pa,
                    pb,
                );
            } else {
                lemma_cells_apart(
                    sc.pages[id1].data as int,
                    sc.pg_align as int,
                    sc.pg_count as int,
                    pb,
                    pa,
                );
            }
        } else if s1 <= MAX_SIZE {
            lemma_radix_consistency(cache, zone, pa, s1);
            assert(in_run(pb, pages_for(s2), page_of(y)));
        } else if s2 <= MAX_SIZE {
            lemma_radix_consistency(cache, zone, pb, s2);
            assert(in_run(pa, pages_for(s1), page_of(y)));
        } else {
            assert(in_run(pa, pages_for(s1), page_of(y)));
            assert(in_run(pb, pages_for(s2), page_of(y)));
            assert(t == large_tag(page_of(pa)));
            assert(t == large_tag(page_of(pb)));
        }
    }
}

/// What a reallocation tells its caller to do: the block is now at
/// `ptr` (0 if the request failed and the block stays where it was);
/// `copy` bytes are to be copied from the old address to `ptr`, before
/// the ranges of `released` go back to the system.
pub struct Moved {
    pub ptr: usize,
    pub copy: usize,
    pub released: Vec<(usize, usize)>,
}

/// The allocator of one thread of control: the central state, and the
/// cache of the thread in front of it.
pub struct RustAllocator {
    pub zone: ZoneAllocator,
    pub cache: ThreadCache,
}

impl RustAllocator {
    /// The invariant of the allocator.
    pub open spec fn wf(&self) -> bool {
        &&& self.zone.wf()
        &&& self.cache.wf()
        &&& self.cache.backed_by(&self.zone)
    }

    /// Whether a block of `size` bytes at `ptr` is with a user.
    pub open spec fn outstanding(&self, ptr: int, size: int) -> bool {
        self.cache.outstanding(&self.zone, ptr, size)
    }

    /// Every block that was with a user still is, and no other.
    pub open spec fn same_blocks(&self, before: &RustAllocator) -> bool {
        forall|p: int, s: int| #[trigger] self.outstanding(p, s) <==> before.outstanding(p, s)
    }

    /// Whether a request of `size` bytes with the alignment `align` is
    /// served: the alignment divides the page size, and the memory is
    /// there. A request of no byte needs the address that stands for it;
    /// a request that a size class serves needs a cell with the alignment
    /// in the cache, or a batch from the central layer; a larger request
    /// needs its pages from the backend.
    pub open spec fn serves(&self, size: usize, align: usize) -> bool {
        &&& align > 0
        &&& PG_SIZE % align == 0
        &&& if size == 0 {
            ZST_ADDRESS <= usize::MAX
        } else if size <= MAX_SIZE {
            self.cache.list[class_index(size as int)].has_aligned(align as int)
                || self.zone.slabs[class_index(size as int)].can_batch(align, &self.zone.backend)
        } else {
            size <= usize::MAX - PG_SIZE && self.zone.backend.can_serve(pages_for(size as int))
        }
    }

    /// Whether a request is served with a cell that waits in the cache:
    /// the alignment divides the page size, a size class serves the
    /// size, and the list of the class in the cache holds a cell with the
    /// alignment.
    pub open spec fn reuses(&self, size: usize, align: usize) -> bool {
        &&& align > 0
        &&& PG_SIZE % align == 0
        &&& 0 < size <= MAX_SIZE
        &&& crate::mm::linklist::top_aligned(
            self.cache.list[class_index(size as int)].list.cells@,
            align as int,
        ) >= 0
    }

    /// The cell that such a request gets: of the cells with the
    /// alignment on the list of the class, the one that came back last.
    pub open spec fn reused(&self, size: usize, align: usize) -> usize {
        let cells = self.cache.list[class_index(size as int)].list.cells@;
        cells[crate::mm::linklist::top_aligned(cells, align as int)]
    }

    /// Whether a block of `size` bytes that comes back stays in the
    /// cache: a size class serves the size, and the list of the class is
    /// under its cap.
    pub open spec fn keeps(&self, size: usize) -> bool {
        &&& 0 < size <= MAX_SIZE
        &&& self.cache.list[class_index(size as int)].list.cells@.len() < crate::cache::thread_cache::SOFT_CAP_BYTES
            / class_size(class_index(size as int)) as usize
    }

    /// What a request that the cache serves leaves of `before`: the block
    /// is the cell that `reused` names, the list of the class has lost
    /// this cell and nothing else, and the central layer and the backend
    /// are untouched.
    pub open spec fn served_from_cache(
        &self,
        before: &RustAllocator,
        size: usize,
        align: usize,
        ptr: usize,
    ) -> bool {
        let c = class_index(size as int);
        &&& ptr == before.reused(size, align)
        &&& self.zone == before.zone
        &&& self.cache.list[c].popped(&before.cache.list[c], align as int)
    }

    /// What the return of a block that stays in the cache leaves of
    /// `before`: the block is the head of the list of its class, and the
    /// central layer and the backend are untouched.
    pub open spec fn kept_in_cache(&self, before: &RustAllocator, size: usize, ptr: usize) -> bool {
        let c = class_index(size as int);
        &&& self.zone == before.zone
        &&& self.cache.list[c].list.cells@ == before.cache.list[c].list.cells@.push(ptr)
    }

    /// Whether requests and returns of `size` bytes with the alignment
    /// `align` can follow each other without touching the central layer
    /// or the backend: the cache serves the request, and the list of the
    /// class is not over its cap.
    pub open spec fn steady(&self, size: usize, align: usize) -> bool {
        &&& self.reuses(size, align)
        &&& self.cache.list[class_index(size as int)].list.cells@.len()
            <= crate::cache::thread_cache::SOFT_CAP_BYTES / class_size(
            class_index(size as int),
        ) as usize
    }

    /// A request and the return of its block, one after the other, take
    /// no memory. In a steady state the cache serves the request; the
    /// block then stays in the cache when it comes back; and the state
    /// after that is steady again, with the central layer and the backend
    /// as they were before the request. So the two calls can be repeated
    /// without end, and what the allocator holds does not grow.
    pub proof fn lemma_round_trip(
        &self,
        taken: &RustAllocator,
        given: &RustAllocator,
        size: usize,
        align: usize,
        ptr: usize,
    )
        requires
            self.steady(size, align),
            taken.served_from_cache(self, size, align, ptr),
            taken.keeps(size) ==> given.kept_in_cache(taken, size, ptr),
        ensures
            taken.keeps(size),
            given.steady(size, align),
            given.zone == self.zone,
            given.reused(size, align) == ptr,
    {
        let c = class_index(size as int);
        let cells = self.cache.list[c].list.cells@;
        crate::mm::linklist::lemma_top_aligned(cells, align as int);
        let k = crate::mm::linklist::top_aligned(cells, align as int);
        assert(cells.remove(k).len() == cells.len() - 1);
        crate::mm::linklist::lemma_last_in_first_out(cells.remove(k), ptr, align as int);
    }

    /// A block that has just come back and stays in the cache is what
    /// the next request of its class gets, for every alignment that its
    /// address has: the request is served from the cache, and the central
    /// layer and the backend are not touched. So a block that is freed
    /// and asked for again, over and over, takes no new memory.
    pub proof fn lemma_reuse(&self, before: &RustAllocator, ptr: usize, size: usize, align: usize)
        requires
            0 < size <= MAX_SIZE,
            align > 0,
            PG_SIZE % align == 0,
            ptr as int % (align as int) == 0,
            self.cache.list[class_index(size as int)].list.cells@ == before.cache.list[class_index(
                size as int,
            )].list.cells@.push(ptr),
        ensures
            self.reuses(size, align),
            self.reused(size, align) == ptr,
    {
        crate::mm::linklist::lemma_last_in_first_out(
            before.cache.list[class_index(size as int)].list.cells@,
            ptr,
            align as int,
        );
    }

    /// An allocator without memory: its reserve is empty until `init`
    /// supplies one.
    pub fn new() -> (heap: Self)
        ensures
            heap.wf(),
            forall|c: int, x: int| !heap.cache.held(c, x),
            forall|p: int, s: int| s > 0 ==> !heap.outstanding(p, s),
    {
        let zone = ZoneAllocator::new();
        let cache = ThreadCache::new();
        let heap = RustAllocator { zone, cache };
        proof {
            assert forall|p: int, s: int| s > 0 implies !heap.outstanding(p, s) by {
                if s > MAX_SIZE && heap.outstanding(p, s) {
                    assert(in_run(p, pages_for(s), page_of(p)));
                    assert(heap.zone.rd_tree.tag(page_of(p)) == 0);
                }
            }
        }
        heap
    }

    /// Makes the `heap_size` bytes at `heap_start` the reserve from which
    /// the allocator cuts its pages, and returns what was left of the old
    /// reserve, as a base and a byte length, for the caller to hand back
    /// to the system. Fails with `ELAYOUT`, and changes nothing, unless
    /// `page_size` is the page size of the allocator and the range is
    /// page-aligned, starts above address 0 and ends at or below the
    /// address limit of the page index.
    pub fn init(&mut self, heap_start: usize, heap_size: usize, page_size: usize) -> (r: Result<
        (usize, usize),
        AllocError,
    >)
        requires
            old(self).wf(),
            forall|p: int|
                page_of(heap_start as int) <= p < page_of(heap_start + heap_size) ==> !old(self).zone.backend.managed@.contains(p),
        ensures
            final(self).wf(),
            final(self).cache == old(self).cache,
            final(self).same_blocks(old(self)),
            r is Ok <==> page_size == PG_SIZE && heap_start % PG_SIZE == 0 && heap_size % PG_SIZE
                == 0 && 0 < heap_start && heap_start + heap_size <= crate::freelist::ADDRESS_LIMIT
                && heap_start + heap_size <= usize::MAX,
            r is Err ==> r == Err::<(usize, usize), AllocError>(AllocError::ELAYOUT),
            r matches Ok(left) ==> {
                &&& left.0 == old(self).zone.backend.bump.current
                &&& left.1 == old(self).zone.backend.bump.remaining()
                &&& final(self).zone.backend.bump.current == heap_start
                &&& final(self).zone.backend.bump.check_point == heap_start + heap_size
            },
    {
        if page_size != PG_SIZE || heap_size > usize::MAX - heap_start {
            return Err(AllocError::ELAYOUT);
        }
        let r = self.zone.add_reservation(heap_start, heap_start + heap_size);
        proof {
            assert forall|c: int, x: int| #[trigger] self.cache.held(c, x) implies self.zone.out(
                c,
                x,
            ) by {
                assert(old(self).zone.out(c, x));
            }
        }
        r
    }

    /// Grows the reserve upward by the `size` bytes that lie just above
    /// it. Fails with `ELAYOUT`, and changes nothing, unless `page_size`
    /// is the page size of the allocator, `size` is a multiple of it,
    /// there is a reserve to grow, and the new end is at or below the
    /// address limit of the page index.
    pub fn extend(&mut self, size: usize, page_size: usize) -> (r: Result<(), AllocError>)
        requires
            old(self).wf(),
            forall|p: int|
                page_of(old(self).zone.backend.bump.check_point as int) <= p < page_of(
                    old(self).zone.backend.bump.check_point + size,
                ) ==> !old(self).zone.backend.managed@.contains(p),
        ensures
            final(self).wf(),
            final(self).cache == old(self).cache,
            final(self).same_blocks(old(self)),
            r is Ok <==> page_size == PG_SIZE && size % PG_SIZE == 0 && 0 < old(self).zone.backend.bump.current && old(self).zone.backend.bump.check_point + size
                <= crate::freelist::ADDRESS_LIMIT && old(self).zone.backend.bump.check_point + size
                <= usize::MAX,
            r is Err ==> r == Err::<(), AllocError>(AllocError::ELAYOUT),
            r is Err ==> final(self).zone.backend.bump == old(self).zone.backend.bump,
            r is Ok ==> final(self).zone.backend.bump.current == old(self).zone.backend.bump.current
                && final(self).zone.backend.bump.check_point == old(self).zone.backend.bump.check_point + size,
    {
        let start = self.zone.backend.bump.current;
        let end = self.zone.backend.bump.check_point;
        if page_size != PG_SIZE || size > usize::MAX - end || size % PG_SIZE != 0 {
            return Err(AllocError::ELAYOUT);
        }
        proof {
            reveal(crate::freelist::FreeList::inv);
            assert forall|p: int| page_of(start as int) <= p < page_of(end + size) implies !self.zone.backend.managed@.contains(p) by {
                if p < page_of(end as int) {
                    assert(self.zone.backend.in_reserve(p));
                }
            }
            vstd::arithmetic::div_mod::lemma_add_mod_noop(end as int, size as int, PG_SIZE as int);
        }
        let r = self.zone.add_reservation(start, end + size);
        proof {
            assert forall|c: int, x: int| #[trigger] self.cache.held(c, x) implies self.zone.out(
                c,
                x,
            ) by {
                assert(old(self).zone.out(c, x));
            }
        }
        match r {
            Ok(_) => Ok(()),
            Err(_) => Err(AllocError::ELAYOUT),
        }
    }

    /// Hands out `size` bytes at an address that is a multiple of
    /// `align`, or returns 0 when the request fails: when `align` does
    /// not divide the page size, or when neither the cache nor the
    /// central layer nor the backend has the memory. A failure changes
    /// no block.
    pub fn allocate(&mut self, size: usize, align: usize) -> (ptr: usize)
        requires
            old(self).wf(),
        ensures
            final(self).wf(),
            ptr == 0 ==> final(self).same_blocks(old(self)),
            ptr != 0 ==> {
                &&& align > 0
                &&& ptr % align == 0
                &&& final(self).outstanding(ptr as int, size as int)
                &&& size > 0 ==> !old(self).outstanding(ptr as int, size as int)
                &&& forall|p: int, s: int|
                    s > 0 && !(p == ptr && usable_size(s) == usable_size(size as int)) ==> (
                    #[trigger] final(self).outstanding(p, s) <==> old(self).outstanding(p, s))
            },
            ptr != 0 <==> old(self).serves(size, align),
            old(self).reuses(size, align) ==> final(self).served_from_cache(
                old(self),
                size,
                align,
                ptr,
            ),
    {
        proof {
            if self.reuses(size, align) {
                let cells = self.cache.list[class_index(size as int)].list.cells@;
                lemma_class_exists(size as int);
                crate::mm::linklist::lemma_top_aligned(cells, align as int);
                let x = cells[crate::mm::linklist::top_aligned(cells, align as int)];
                assert(cells.contains(x));
                assert(self.cache.list[class_index(size as int)].held(x as int));
            }
        }
        match self.cache.allocate(size, align, &mut self.zone) {
            Ok(a) => {
                proof {
                    self.lemma_granted(old(self), a as int, size as int);
                }
                a
            },
            Err(_) => {
                proof {
                    self.lemma_same_blocks(old(self));
                }
                0
            },
        }
    }

    /// When no cell has changed hands and no tag has changed, the same
    /// blocks are with users.
    pub proof fn lemma_same_blocks(&self, before: &RustAllocator)
        requires
            self.cache.same_live(&self.zone, &before.cache, &before.zone),
            forall|q: int| #[trigger] self.zone.rd_tree.tag(q) == before.zone.rd_tree.tag(q),
        ensures
            self.same_blocks(before),
    {
        assert forall|p: int, s: int| #[trigger] self.outstanding(p, s) <==> before.outstanding(
            p,
            s,
        ) by {
            if s > MAX_SIZE {
                let n = pages_for(s);
                if before.outstanding(p, s) {
                    assert forall|q: int| in_run(p, n, q) implies #[trigger] self.zone.rd_tree.tag(q)
                        == large_tag(page_of(p)) by {
                        assert(before.zone.rd_tree.tag(q) == large_tag(page_of(p)));
                    }
                }
                if self.outstanding(p, s) {
                    assert forall|q: int| in_run(p, n, q) implies #[trigger] before.zone.rd_tree.tag(
                        q,
                    ) == large_tag(page_of(p)) by {
                        assert(self.zone.rd_tree.tag(q) == large_tag(page_of(p)));
                    }
                }
            } else if s > 0 {
                assert(self.cache.live(&self.zone, class_index(s), p) <==> before.cache.live(
                    &before.zone,
                    class_index(s),
                    p,
                ));
            }
        }
    }

    /// What a successful allocation means for the blocks that are with
    /// users.
    pub proof fn lemma_granted(&self, before: &RustAllocator, a: int, size: int)
        requires
            before.wf(),
            self.zone.wf(),
            self.cache.wf(),
            0 <= size,
            size == 0 ==> a == ZST_ADDRESS && self.cache == before.cache && self.zone == before.zone,
            0 < size <= MAX_SIZE ==> self.cache.granted_cell(
                &self.zone,
                &before.cache,
                &before.zone,
                class_index(size),
                a,
            ),
            size > MAX_SIZE ==> {
                let n = pages_for(size);
                &&& size <= usize::MAX - PG_SIZE
                &&& self.zone.large_block(a, n)
                &&& forall|q: int| in_run(a, n, q) ==> #[trigger] before.zone.rd_tree.tag(q) <= 0
                &&& forall|q: int|
                    before.zone.rd_tree.tag(q) > 0 ==> #[trigger] self.zone.rd_tree.tag(q)
                        == before.zone.rd_tree.tag(q)
                &&& forall|q: int|
                    !in_run(a, n, q) && #[trigger] self.zone.rd_tree.tag(q) > 0
                        && self.zone.rd_tree.tag(q) % 64 == 0 ==> self.zone.rd_tree.tag(q)
                        == before.zone.rd_tree.tag(q)
                &&& self.cache.same_live(&self.zone, &before.cache, &before.zone)
            },
        ensures
            a != 0,
            self.outstanding(a, size),
            size > 0 ==> !before.outstanding(a, size),
            forall|p: int, s: int|
                s > 0 && !(p == a && usable_size(s) == usable_size(size)) ==> (
                #[trigger] self.outstanding(p, s) <==> before.outstanding(p, s)),
    {
        if size == 0 {
        } else if size <= MAX_SIZE {
            let c = class_index(size);
            lemma_class_exists(size);
            assert(self.zone.slab_ok(c));
            self.zone.slabs[c].lemma_out_cell(&self.zone.rd_tree, a);
            assert forall|p: int, s: int|
                s > 0 && !(p == a && usable_size(s) == usable_size(size)) implies (
            #[trigger] self.outstanding(p, s) <==> before.outstanding(p, s)) by {
                if s <= MAX_SIZE {
                    lemma_class_exists(s);
                    let k = class_index(s);
                    if p == a && k == c {
                    } else {
                        assert(self.cache.live(&self.zone, k, p) <==> before.cache.live(
                            &before.zone,
                            k,
                            p,
                        ));
                    }
                } else {
                    self.lemma_large_same(before, p, s);
                }
            }
        } else {
            let n = pages_for(size);
            assert(in_run(a, n, page_of(a)));
            assert(!before.outstanding(a, size)) by {
                if before.outstanding(a, size) {
                    assert(before.zone.rd_tree.tag(page_of(a)) == large_tag(page_of(a)));
                }
            }
            assert forall|p: int, s: int|
                s > 0 && !(p == a && usable_size(s) == usable_size(size)) implies (
            #[trigger] self.outstanding(p, s) <==> before.outstanding(p, s)) by {
                if s <= MAX_SIZE {
                    assert(self.cache.live(&self.zone, class_index(s), p) <==> before.cache.live(
                        &before.zone,
                        class_index(s),
                        p,
                    ));
                } else {
                    Self::lemma_large_block_frame(&before.zone, &self.zone, a, n, p, pages_for(s));
                }
            }
        }
    }

    /// What the tagging of the `n` pages at `a`, which carried no tag,
    /// as a large allocation means for another run of pages: it is a
    /// large block after just when it was one before, unless it is the
    /// new block.
    pub proof fn lemma_large_block_frame(
        before: &ZoneAllocator,
        after: &ZoneAllocator,
        a: int,
        n: int,
        p: int,
        m: int,
    )
        requires
            after.large_block(a, n),
            forall|q: int| in_run(a, n, q) ==> #[trigger] before.rd_tree.tag(q) <= 0,
            forall|q: int| before.rd_tree.tag(q) > 0 ==> #[trigger] after.rd_tree.tag(q)
                == before.rd_tree.tag(q),
            forall|q: int|
                !in_run(a, n, q) && #[trigger] after.rd_tree.tag(q) > 0 && after.rd_tree.tag(q) % 64
                    == 0 ==> after.rd_tree.tag(q) == before.rd_tree.tag(q),
            !(p == a && m == n),
        ensures
            after.large_block(p, m) <==> before.large_block(p, m),
    {
        assert(in_run(a, n, page_of(a)));
        lemma_large_tag(a);
        if 0 < p <= usize::MAX && p % (PG_SIZE as int) == 0 {
            lemma_large_tag(p);
        }
        if p == a {
            if after.large_block(p, m) {
                if m < n {
                    assert(in_run(a, n, page_of(a) + m));
                    assert(after.rd_tree.tag(page_of(a) + m) == large_tag(page_of(a)));
                } else {
                    assert(in_run(p, m, page_of(a) + n));
                    assert(after.rd_tree.tag(page_of(a) + n) == large_tag(page_of(a)));
                }
            }
            if before.large_block(p, m) {
                assert(in_run(p, m, page_of(a)));
                assert(before.rd_tree.tag(page_of(a)) == large_tag(page_of(a)));
            }
        } else {
            if after.large_block(p, m) {
                assert forall|q: int| in_run(p, m, q) implies #[trigger] before.rd_tree.tag(q)
                    == large_tag(page_of(p)) by {
                    assert(after.rd_tree.tag(q) == large_tag(page_of(p)));
                    if in_run(a, n, q) {
                        assert(after.rd_tree.tag(q) == large_tag(page_of(a)));
                    }
                }
                let e = page_of(p) + m;
                if before.rd_tree.tag(e) == large_tag(page_of(p)) {
                    assert(after.rd_tree.tag(e) == before.rd_tree.tag(e));
                }
            }
            if before.large_block(p, m) {
                assert forall|q: int| in_run(p, m, q) implies #[trigger] after.rd_tree.tag(q)
                    == large_tag(page_of(p)) by {
                    assert(before.rd_tree.tag(q) == large_tag(page_of(p)));
                }
                let e = page_of(p) + m;
                if after.rd_tree.tag(e) == large_tag(page_of(p)) {
                    if in_run(a, n, e) {
                        assert(after.rd_tree.tag(e) == large_tag(page_of(a)));
                    }
                }
            }
        }
    }

    /// A large block does not notice a change of cells.
    pub proof fn lemma_large_same(&self, before: &RustAllocator, p: int, s: int)
        requires
            s > MAX_SIZE,
            crate::cache::thread_cache::same_large_tags(&before.zone, &self.zone),
        ensures
            self.outstanding(p, s) <==> before.outstanding(p, s),
    {
        let n = pages_for(s);
        if before.outstanding(p, s) {
            assert forall|q: int| in_run(p, n, q) implies #[trigger] self.zone.rd_tree.tag(q)
                == large_tag(page_of(p)) by {
                assert(before.zone.rd_tree.tag(q) == large_tag(page_of(p)));
            }
        }
        if self.outstanding(p, s) {
            assert forall|q: int| in_run(p, n, q) implies #[trigger] before.zone.rd_tree.tag(q)
                == large_tag(page_of(p)) by {
                assert(self.zone.rd_tree.tag(q) == large_tag(page_of(p)));
            }
        }
    }
}

impl RustAllocator {
    /// What the clearing of the tags of the large block of `n` pages at
    /// `a` means for another run of pages: it is a large block after
    /// just when it was one before.
    pub proof fn lemma_large_block_gone(
        before: &ZoneAllocator,
        after: &ZoneAllocator,
        a: int,
        n: int,
        p: int,
        m: int,
    )
        requires
            before.large_block(a, n),
            forall|q: int| in_run(a, n, q) ==> #[trigger] after.rd_tree.tag(q) <= 0,
            forall|q: int| #[trigger] after.rd_tree.tag(q) > 0 ==> after.rd_tree.tag(q)
                == before.rd_tree.tag(q),
            forall|q: int|
                !in_run(a, n, q) && before.rd_tree.tag(q) > 0 ==> #[trigger] after.rd_tree.tag(q)
                    == before.rd_tree.tag(q),
            !(p == a && m == n),
        ensures
            after.large_block(p, m) <==> before.large_block(p, m),
            !after.large_block(a, n),
    {
        assert(in_run(a, n, page_of(a)));
        lemma_large_tag(a);
        assert(after.rd_tree.tag(page_of(a)) <= 0);
        if 0 < p <= usize::MAX && p % (PG_SIZE as int) == 0 {
            lemma_large_tag(p);
        }
        if p == a {
            if after.large_block(p, m) {
                assert(in_run(p, m, page_of(a)));
                assert(after.rd_tree.tag(page_of(a)) == large_tag(page_of(a)));
            }
            if before.large_block(p, m) {
                if m < n {
                    assert(in_run(a, n, page_of(a) + m));
                    assert(before.rd_tree.tag(page_of(a) + m) == large_tag(page_of(a)));
                } else {
                    assert(in_run(p, m, page_of(a) + n));
                    assert(before.rd_tree.tag(page_of(a) + n) == large_tag(page_of(a)));
                }
            }
        } else {
            if after.large_block(p, m) {
                assert forall|q: int| in_run(p, m, q) implies #[trigger] before.rd_tree.tag(q)
                    == large_tag(page_of(p)) by {
                    assert(after.rd_tree.tag(q) == large_tag(page_of(p)));
                }
                let e = page_of(p) + m;
                if before.rd_tree.tag(e) == large_tag(page_of(p)) {
                    if in_run(a, n, e) {
                        assert(before.rd_tree.tag(e) == large_tag(page_of(a)));
                    }
                    assert(after.rd_tree.tag(e) == before.rd_tree.tag(e));
                }
            }
            if before.large_block(p, m) {
                assert forall|q: int| in_run(p, m, q) implies #[trigger] after.rd_tree.tag(q)
                    == large_tag(page_of(p)) by {
                    assert(before.rd_tree.tag(q) == large_tag(page_of(p)));
                    if in_run(a, n, q) {
                        assert(before.rd_tree.tag(q) == large_tag(page_of(a)));
                    }
                }
                let e = page_of(p) + m;
                if after.rd_tree.tag(e) == large_tag(page_of(p)) {
                    assert(after.rd_tree.tag(e) == before.rd_tree.tag(e));
                }
            }
        }
    }

    /// Takes back the block of `size` bytes at `ptr`, which is with a
    /// user. Returns the ranges that the backend gave back to the
    /// system, each as a base and a byte length.
    pub fn deallocate(&mut self, ptr: usize, size: usize, align: usize) -> (released: Vec<
        (usize, usize),
    >)
        requires
            old(self).wf(),
            old(self).outstanding(ptr as int, size as int),
        ensures
            final(self).wf(),
            size > 0 ==> !final(self).outstanding(ptr as int, size as int),
            forall|p: int, s: int|
                s > 0 && !(p == ptr && usable_size(s) == usable_size(size as int)) ==> (
                #[trigger] final(self).outstanding(p, s) <==> old(self).outstanding(p, s)),
            gave_back(old(self).zone.backend.managed@, final(self).zone.backend.managed@, released@),
            old(self).keeps(size) ==> released@.len() == 0 && final(self).kept_in_cache(
                old(self),
                size,
                ptr,
            ),
            size > MAX_SIZE ==> {
                let n = pages_for(size as int);
                &&& final(self).cache == old(self).cache
                &&& final(self).zone.slabs == old(self).zone.slabs
                &&& forall|p: int|
                    #[trigger] final(self).zone.backend.allocated(p) <==> (old(self).zone.backend.allocated(p)
                        && !in_run(ptr as int, n, p))
                &&& released@ == some_range(zone_released(&old(self).zone, ptr as int, n))
                &&& released@.len() == 0 ==> final(self).zone.backend.has_run(
                    merged_base(&old(self).zone, ptr as int, n),
                    merged_pages(&old(self).zone, ptr as int, n),
                ) && final(self).zone.backend.lists[merged_pages(&old(self).zone, ptr as int, n)
                    - 1]@.last() == merged_base(&old(self).zone, ptr as int, n)
            },
    {
        let released = self.cache.deallocate(ptr, size, &mut self.zone);
        proof {
            if size == 0 {
            } else if size <= MAX_SIZE {
                let c = class_index(size as int);
                lemma_class_exists(size as int);
                assert forall|p: int, s: int|
                    s > 0 && !(p == ptr && usable_size(s) == usable_size(size as int)) implies (
                #[trigger] self.outstanding(p, s) <==> old(self).outstanding(p, s)) by {
                    if s <= MAX_SIZE {
                        lemma_class_exists(s);
                        let k = class_index(s);
                        if p == ptr && k == c {
                        } else {
                            assert(self.cache.live(&self.zone, k, p) <==> old(self).cache.live(
                                &old(self).zone,
                                k,
                                p,
                            ));
                        }
                    } else {
                        self.lemma_large_same(old(self), p, s);
                    }
                }
            } else {
                let n = pages_for(size as int);
                assert forall|p: int, s: int|
                    s > 0 && !(p == ptr && usable_size(s) == usable_size(size as int)) implies (
                #[trigger] self.outstanding(p, s) <==> old(self).outstanding(p, s)) by {
                    if s <= MAX_SIZE {
                        assert(self.cache.live(&self.zone, class_index(s), p) <==> old(self).cache.live(&old(self).zone, class_index(s), p));
                    } else {
                        Self::lemma_large_block_gone(
                            &old(self).zone,
                            &self.zone,
                            ptr as int,
                            n,
                            p,
                            pages_for(s),
                        );
                    }
                }
                Self::lemma_large_block_gone(
                    &old(self).zone,
                    &self.zone,
                    ptr as int,
                    n,
                    ptr as int,
                    n + 1,
                );
            }
        }
        released
    }

    /// Resizes the block of `old_size` bytes at `ptr`, which is with a
    /// user, to `new_size` bytes.
    ///
    /// When both sizes have the same class, the block stays as it is.
    /// Else a block of `new_size` bytes is handed out and the old block
    /// is taken back; the caller copies the smaller of the two sizes in
    /// bytes from `ptr` to the new block before any range in `released`
    /// goes back to the system. When no new block can be had, the result
    /// is 0 and the old block stays with its user.
    pub fn reallocate(&mut self, ptr: usize, old_size: usize, new_size: usize, align: usize) -> (r:
        Moved)
        requires
            old(self).wf(),
            old(self).outstanding(ptr as int, old_size as int),
        ensures
            final(self).wf(),
            crate::size_class::tc_size_class::classify(old_size as int).0
                == crate::size_class::tc_size_class::classify(new_size as int).0 ==> r.ptr == ptr
                && r.copy == 0 && r.released@.len() == 0 && *final(self) == *old(self),
            crate::size_class::tc_size_class::classify(old_size as int).0
                != crate::size_class::tc_size_class::classify(new_size as int).0 ==> {
                &&& r.ptr != 0 <==> old(self).serves(new_size, align)
                &&& r.ptr == 0 ==> final(self).same_blocks(old(self)) && r.copy == 0
                    && r.released@.len() == 0
                &&& r.ptr != 0 ==> {
                    &&& align > 0
                    &&& r.ptr % align == 0
                    &&& r.copy == if old_size < new_size {
                        old_size
                    } else {
                        new_size
                    }
                    &&& final(self).outstanding(r.ptr as int, new_size as int)
                    &&& new_size > 0 ==> !old(self).outstanding(r.ptr as int, new_size as int)
                    &&& old_size > 0 ==> !final(self).outstanding(ptr as int, old_size as int)
                    &&& forall|p: int, s: int|
                        s > 0 && !(p == r.ptr && usable_size(s) == usable_size(new_size as int))
                            && !(p == ptr && usable_size(s) == usable_size(old_size as int)) ==> (
                        #[trigger] final(self).outstanding(p, s) <==> old(self).outstanding(p, s))
                }
            },
            all_gone(final(self).zone.backend.managed@, r.released@),
    {
        let old_cls = get_size_class(old_size);
        let new_cls = get_size_class(new_size);
        if old_cls == new_cls {
            return Moved { ptr, copy: 0, released: Vec::new() };
        }
        let new_ptr = self.allocate(new_size, align);
        if new_ptr == 0 {
            return Moved { ptr: 0, copy: 0, released: Vec::new() };
        }
        let ghost mid = *self;
        proof {
            if old_size > 0 {
                if new_ptr == ptr && usable_size(old_size as int) == usable_size(new_size as int) {
                    if old_size <= MAX_SIZE && new_size <= MAX_SIZE {
                        lemma_class_exists(old_size as int);
                        lemma_class_exists(new_size as int);
                        let c1 = class_index(old_size as int);
                        let c2 = class_index(new_size as int);
                        if c1 < c2 {
                            crate::size_class::tc_size_class::lemma_class_sizes_increase(c1, c2);
                        } else if c2 < c1 {
                            crate::size_class::tc_size_class::lemma_class_sizes_increase(c2, c1);
                        }
                    } else if old_size <= MAX_SIZE {
                        lemma_rounded_size_monotone(old_size as int, MAX_SIZE as int);
                        lemma_class_exists(MAX_SIZE as int);
                    } else if new_size <= MAX_SIZE {
                        lemma_rounded_size_monotone(new_size as int, MAX_SIZE as int);
                        lemma_class_exists(MAX_SIZE as int);
                    } else {
                        assert(old(self).outstanding(new_ptr as int, new_size as int));
                    }
                }
                assert(self.outstanding(ptr as int, old_size as int));
            }
        }
        let released = self.deallocate(ptr, old_size, align);
        proof {
            lemma_all_gone(mid.zone.backend.managed@, self.zone.backend.managed@, released@);
        }
        let copy = if old_size < new_size {
            old_size
        } else {
            new_size
        };
        proof {
            if new_ptr == ptr && usable_size(old_size as int) == usable_size(new_size as int) {
                if new_size > 0 && old_size > 0 {
                    if old_size <= MAX_SIZE && new_size <= MAX_SIZE {
                        lemma_class_exists(old_size as int);
                        lemma_class_exists(new_size as int);
                        let c1 = class_index(old_size as int);
                        let c2 = class_index(new_size as int);
                        if c1 < c2 {
                            crate::size_class::tc_size_class::lemma_class_sizes_increase(c1, c2);
                        } else if c2 < c1 {
                            crate::size_class::tc_size_class::lemma_class_sizes_increase(c2, c1);
                        }
                    } else if old_size <= MAX_SIZE {
                        lemma_rounded_size_monotone(old_size as int, MAX_SIZE as int);
                        lemma_class_exists(MAX_SIZE as int);
                    } else if new_size <= MAX_SIZE {
                        lemma_rounded_size_monotone(new_size as int, MAX_SIZE as int);
                        lemma_class_exists(MAX_SIZE as int);
                    } else {
                        assert(old(self).outstanding(new_ptr as int, new_size as int));
                    }
                }
            }
            if new_size > 0 {
                assert(self.outstanding(new_ptr as int, new_size as int) <==> mid.outstanding(
                    new_ptr as int,
                    new_size as int,
                ));
            }
            assert forall|p: int, s: int|
                s > 0 && !(p == new_ptr && usable_size(s) == usable_size(new_size as int)) && !(p
                    == ptr && usable_size(s) == usable_size(old_size as int)) implies (
            #[trigger] self.outstanding(p, s) <==> old(self).outstanding(p, s)) by {
                assert(mid.outstanding(p, s) <==> old(self).outstanding(p, s));
            }
        }
        Moved { ptr: new_ptr, copy, released }
    }

    /// Tells whether a block of `size` bytes at `ptr` is with a user.
    pub fn is_outstanding(&self, ptr: usize, size: usize) -> (b: bool)
        requires
            self.wf(),
        ensures
            b == self.outstanding(ptr as int, size as int),
    {
        self.cache.is_outstanding(&self.zone, ptr, size)
    }
}

} // verus!
