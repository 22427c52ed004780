use crate::collections::radix_tree::{RadixTree, TreeNode};
use crate::error::AllocError;
use crate::freelist::bump::PG_SIZE;
use crate::freelist::{in_run, page_of, pages_for, FreeList};
use crate::page::efficient_page::Batch;
use crate::sc::efficient_sc::SCAllocator;
use crate::size_class::tc_size_class::{class_pages, class_size, lemma_class_run_bounds};
use crate::size_class::{get_num_pages_by_idx, get_rounded_size_by_idx, TOTAL_SIZE_CLASS};
use crate::freelist::ranges::{gave_back, some_range};
use vstd::prelude::*;

verus! {

/// The tag that the page index holds for each page of a large allocation
/// whose first page is `first_page`: a positive multiple of 64, so that
/// no size class owns it.
pub open spec fn large_tag(first_page: int) -> i64 {
    ((first_page + 1) * 64) as i64
}

/// Whether page `q` carries the tag of a large allocation.
pub open spec fn large_at(rd: &RadixTree, q: int) -> bool {
    rd.tag(q) > 0 && rd.tag(q) % 64 == 0
}

/// The first page of the large allocation that a tag names.
pub open spec fn large_first(t: i64) -> int {
    t / 64 - 1
}

/// The pages of each large allocation follow one another from its first
/// page on: a page with the tag of a large allocation is the first page
/// of the allocation, or comes after a page with the same tag.
pub open spec fn large_ok(rd: &RadixTree) -> bool {
    forall|q: int| #[trigger]
        large_at(rd, q) ==> large_first(rd.tag(q)) <= q && (large_first(rd.tag(q)) < q ==> rd.tag(
            q - 1,
        ) == rd.tag(q))
}

/// The tags of `after` differ from those of `before` only where a tag of
/// class `c`, or none, gave way to a tag of class `c`, or none.
pub open spec fn only_class_changed(before: &RadixTree, after: &RadixTree, c: int) -> bool {
    forall|q: int|
        #[trigger] after.tag(q) != before.tag(q) ==> (before.tag(q) <= 0 || before.tag(q) % 64 == c)
            && (after.tag(q) <= 0 || after.tag(q) % 64 == c)
}

/// The central state of the allocator: one allocator for each size
/// class, the page backend that feeds them, and the page index that
/// names the owner of each page.
pub struct ZoneAllocator {
    pub slabs: Vec<SCAllocator>,
    pub backend: FreeList,
    pub rd_tree: RadixTree,
}

impl ZoneAllocator {
    /// The allocator of class `c` is well-formed and has the parameters
    /// of the class.
    pub open spec fn slab_ok(&self, c: int) -> bool {
        let sc = self.slabs[c];
        &&& sc.wf(&self.rd_tree)
        &&& sc.index == c
        &&& sc.size_class == class_size(c)
        &&& sc.pg_num == class_pages(c)
    }

    /// The invariant of the central state.
    pub open spec fn wf(&self) -> bool {
        &&& self.slabs.len() == TOTAL_SIZE_CLASS
        &&& self.backend.wf(&self.rd_tree)
        &&& large_ok(&self.rd_tree)
        &&& forall|c: int| 1 <= c < TOTAL_SIZE_CLASS ==> #[trigger] self.slab_ok(c)
    }

    /// Whether `x` is a cell of class `c` that is handed out.
    pub open spec fn out(&self, c: int, x: int) -> bool {
        1 <= c < self.slabs.len() && self.slabs[c].out(&self.rd_tree, x)
    }

    /// Whether the `n` pages at `a` are a large allocation, or the front
    /// of one.
    pub open spec fn large(&self, a: int, n: int) -> bool {
        &&& a % (PG_SIZE as int) == 0
        &&& 0 < a <= usize::MAX
        &&& n >= 1
        &&& forall|q: int|
            in_run(a, n, q) ==> #[trigger] self.rd_tree.tag(q) == large_tag(page_of(a))
    }

    /// Whether the `n` pages at `a` are just one large allocation: each
    /// carries the tag of the allocation and the page after them does
    /// not.
    pub open spec fn large_block(&self, a: int, n: int) -> bool {
        &&& self.large(a, n)
        &&& self.rd_tree.tag(page_of(a) + n) != large_tag(page_of(a))
    }

    /// A central state without a run and without a reserve.
    pub fn new() -> (zone: Self)
        ensures
            zone.wf(),
            forall|q: int| zone.rd_tree.tag(q) == 0,
            forall|c: int, x: int| !zone.out(c, x),
            zone.backend.bump.remaining() == 0,
    {
        let rd_tree = RadixTree::new();
        let backend = FreeList::new();
        proof {
            backend.lemma_new_wf(&rd_tree);
        }
        let mut slabs: Vec<SCAllocator> = Vec::new();
        slabs.push(SCAllocator::new(0, 0, 0));
        let mut idx: usize = 1;
        while idx < TOTAL_SIZE_CLASS
            invariant
                1 <= idx <= TOTAL_SIZE_CLASS,
                slabs.len() == idx,
                rd_tree.wf(),
                forall|q: int| rd_tree.tag(q) == 0,
                forall|c: int|
                    1 <= c < idx ==> {
                        let sc = #[trigger] slabs[c];
                        &&& sc.wf(&rd_tree)
                        &&& sc.index == c
                        &&& sc.size_class == class_size(c)
                        &&& sc.pg_num == class_pages(c)
                    },
            decreases TOTAL_SIZE_CLASS - idx,
        {
            proof {
                lemma_class_run_bounds(idx as int);
            }
            let sc = SCAllocator::new(get_rounded_size_by_idx(idx), idx, get_num_pages_by_idx(idx));
            proof {
                assert(sc.usable());
                assert(sc.lists_ok());
                assert(sc.pages_ok(&rd_tree));
            }
            slabs.push(sc);
            idx += 1;
        }
        let zone = ZoneAllocator { slabs, backend, rd_tree };
        proof {
            assert forall|c: int| 1 <= c < TOTAL_SIZE_CLASS implies #[trigger] zone.slab_ok(c) by {
                assert(zone.slabs[c].wf(&zone.rd_tree));
            }
        }
        zone
    }

    /// The allocators of the classes other than `idx` do not notice a
    /// change of tags of class `idx` alone.
    pub proof fn lemma_others_frame(&self, before: &ZoneAllocator, idx: int)
        requires
            before.wf(),
            self.slabs.len() == before.slabs.len(),
            forall|c: int| 1 <= c < before.slabs.len() && c != idx ==> self.slabs[c] == before.slabs[c],
            only_class_changed(&before.rd_tree, &self.rd_tree, idx),
        ensures
            forall|c: int| 1 <= c < TOTAL_SIZE_CLASS && c != idx ==> #[trigger] self.slab_ok(c),
            forall|c: int, x: int| c != idx ==> (#[trigger] self.out(c, x) <==> before.out(c, x)),
            idx != 0 ==> large_ok(&self.rd_tree),
    {
        if idx != 0 {
            assert forall|q: int| #[trigger] large_at(&self.rd_tree, q) implies large_first(
                self.rd_tree.tag(q),
            ) <= q && (large_first(self.rd_tree.tag(q)) < q ==> self.rd_tree.tag(q - 1)
                == self.rd_tree.tag(q)) by {
                assert(self.rd_tree.tag(q) == before.rd_tree.tag(q));
                assert(large_at(&before.rd_tree, q));
                if large_first(self.rd_tree.tag(q)) < q {
                    assert(before.rd_tree.tag(q - 1) == before.rd_tree.tag(q));
                    assert(self.rd_tree.tag(q - 1) == before.rd_tree.tag(q - 1));
                }
            }
        }
        assert forall|c: int| 1 <= c < TOTAL_SIZE_CLASS && c != idx implies #[trigger] self.slab_ok(
            c,
        ) by {
            assert(before.slab_ok(c));
            let sc = before.slabs[c];
            assert(sc.same_tags(&before.rd_tree, &self.rd_tree));
            sc.lemma_class_frame(&before.rd_tree, &self.rd_tree);
        }
        assert forall|c: int, x: int| c != idx implies (#[trigger] self.out(c, x) <==> before.out(
            c,
            x,
        )) by {
            if 1 <= c < TOTAL_SIZE_CLASS {
                assert(before.slab_ok(c));
                let sc = before.slabs[c];
                assert(sc.same_tags(&before.rd_tree, &self.rd_tree));
                sc.lemma_class_frame(&before.rd_tree, &self.rd_tree);
            }
        }
    }

    /// Hands out a batch of cells of class `idx`.
    pub fn allocate_batch_from_slab(&mut self, idx: usize, align: usize) -> (r: Result<
        Batch,
        AllocError,
    >)
        requires
            old(self).wf(),
            1 <= idx < TOTAL_SIZE_CLASS,
        ensures
            final(self).wf(),
            r is Ok <==> old(self).slabs[idx as int].can_batch(align, &old(self).backend),
            r is Err ==> r == Err::<Batch, AllocError>(AllocError::ENOMEM),
            r is Err ==> forall|c: int, x: int| #[trigger] final(self).out(c, x) <==> old(self).out(c, x),
            r is Err ==> forall|q: int| #[trigger] final(self).rd_tree.tag(q) == old(self).rd_tree.tag(q),
            r matches Ok(batch) ==> {
                &&& batch.count() > 0
                &&& batch.well_placed()
                &&& old(self).slabs[idx as int].partial.start != 0 && align == 1 ==> batch is Linked
                &&& !(old(self).slabs[idx as int].partial.start != 0 && align == 1) ==> (
                batch matches Batch::Contiguous { base, count, unit } && count == old(self).slabs[idx as int].pg_count && unit == old(self).slabs[idx as int].pg_align)
                &&& old(self).slabs[idx as int].partial.start != 0 && align == 1
                    ==> batch->Linked_cells@ == old(self).slabs[idx as int].pages[old(self).slabs[idx as int].partial.order@[0]].free@
                &&& !(old(self).slabs[idx as int].partial.start != 0 && align == 1) && old(self).slabs[idx as int].empty.start != 0
                    ==> batch->Contiguous_base == old(self).slabs[idx as int].pages[old(self).slabs[idx as int].empty.order@[0]].data
                &&& forall|x: int| #[trigger] batch.has(x) ==> !old(self).out(idx as int, x)
                &&& forall|x: int|
                    #[trigger] final(self).out(idx as int, x) <==> (old(self).out(idx as int, x)
                        || batch.has(x))
                &&& forall|c: int, x: int|
                    c != idx ==> (#[trigger] final(self).out(c, x) <==> old(self).out(c, x))
                &&& forall|q: int|
                    old(self).rd_tree.tag(q) > 0 ==> #[trigger] final(self).rd_tree.tag(q) == old(self).rd_tree.tag(q)
                &&& only_class_changed(&old(self).rd_tree, &final(self).rd_tree, idx as int)
            },
    {
        proof {
            assert(self.slab_ok(idx as int));
        }
        let r = self.slabs[idx].allocate_batch_v2(align, &mut self.rd_tree, &mut self.backend);
        proof {
            if r is Ok {
                self.lemma_others_frame(old(self), idx as int);
                assert(self.slab_ok(idx as int));
            } else {
                assert(old(self).slabs[idx as int].same_tags(&old(self).rd_tree, &self.rd_tree));
                assert(only_class_changed(&old(self).rd_tree, &self.rd_tree, idx as int));
                self.lemma_others_frame(old(self), idx as int);
                assert(self.slab_ok(idx as int));
            }
        }
        r
    }

    /// Takes back the cells of `cells`, which are handed-out cells of
    /// class `idx`, none twice. Returns the ranges that the backend gave
    /// back to the system.
    pub fn deallocate_batch_to_slab(&mut self, idx: usize, cells: &Vec<usize>) -> (released: Vec<
        (usize, usize),
    >)
        requires
            old(self).wf(),
            1 <= idx < TOTAL_SIZE_CLASS,
            cells@.no_duplicates(),
            forall|k: int| 0 <= k < cells.len() ==> old(self).out(idx as int, #[trigger] cells[k] as int),
        ensures
            final(self).wf(),
            forall|x: int|
                #[trigger] final(self).out(idx as int, x) <==> (old(self).out(idx as int, x)
                    && !cells@.contains(x as usize)),
            forall|c: int, x: int|
                c != idx ==> (#[trigger] final(self).out(c, x) <==> old(self).out(c, x)),
            only_class_changed(&old(self).rd_tree, &final(self).rd_tree, idx as int),
            forall|q: int|
                #[trigger] final(self).rd_tree.tag(q) > 0 ==> final(self).rd_tree.tag(q) == old(self).rd_tree.tag(q),
            gave_back(old(self).backend.managed@, final(self).backend.managed@, released@),
            final(self).slabs.len() == old(self).slabs.len(),
            forall|c: int|
                0 <= c < final(self).slabs.len() && c != idx ==> #[trigger] final(self).slabs[c]
                    == old(self).slabs[c],
            final(self).slabs[idx as int].pages.len() == old(self).slabs[idx as int].pages.len(),
            old(self).slabs[idx as int].empty_count <= final(self).slabs[idx as int].empty_count,
            final(self).slabs[idx as int].empty_count > old(self).slabs[idx as int].empty_count
                ==> final(self).slabs[idx as int].empty_count <= crate::sc::efficient_sc::EMPTY_CAP
                + 1,
            released@.len() > 0 ==> final(self).slabs[idx as int].empty_count
                > crate::sc::efficient_sc::EMPTY_CAP,
            forall|id: int|
                0 <= id < final(self).slabs[idx as int].pages.len() ==> #[trigger] final(self).slabs[idx as int].batch_settled(&old(self).slabs[idx as int], id),
    {
        proof {
            assert(self.slab_ok(idx as int));
        }
        let released = self.slabs[idx].deallocate_batch(cells, &mut self.rd_tree, &mut self.backend);
        proof {
            self.lemma_others_frame(old(self), idx as int);
            assert(self.slab_ok(idx as int));
        }
        released
    }
}

impl ZoneAllocator {
    /// Tagging a run that the backend has just handed out keeps the
    /// backend well-formed and touches no tag of a page that was in use.
    pub proof fn lemma_run_tagged(
        backend0: &FreeList,
        backend1: &FreeList,
        rd0: &RadixTree,
        rd1: &RadixTree,
        rd2: &RadixTree,
        a: usize,
        n: int,
        v: i64,
    )
        requires
            backend0.wf(rd0),
            backend1.wf(rd1),
            backend1.grabbed(rd1, backend0, rd0, a, n),
            SCAllocator::run_set(rd1, rd2, a as int, n, v),
            v > 0,
        ensures
            backend1.wf(rd2),
            forall|q: int| rd0.tag(q) > 0 ==> #[trigger] rd2.tag(q) == rd0.tag(q),
            forall|q: int| in_run(a as int, n, q) ==> #[trigger] rd0.tag(q) <= 0,
            forall|q: int|
                #[trigger] rd2.tag(q) != rd0.tag(q) ==> rd0.tag(q) <= 0 && (rd2.tag(q) <= 0
                    || rd2.tag(q) == v),
            forall|q: int|
                !in_run(a as int, n, q) && #[trigger] rd2.tag(q) > 0 ==> rd2.tag(q) == rd0.tag(q),
    {
        assert forall|q: int| !in_run(a as int, n, q) && #[trigger] rd2.tag(q) > 0 implies rd2.tag(
            q,
        ) == rd0.tag(q) by {
            SCAllocator::lemma_tagged_is_allocated(backend1, rd1, q);
        }
        assert forall|q: int| rd0.tag(q) > 0 implies #[trigger] rd2.tag(q) == rd0.tag(q) && !in_run(
            a as int,
            n,
            q,
        ) by {
            SCAllocator::lemma_tagged_is_allocated(backend0, rd0, q);
        }
        assert forall|q: int| !in_run(a as int, n, q) && rd0.tag(q) <= 0 implies #[trigger] rd2.tag(
            q,
        ) <= 0 by {
            if rd1.tag(q) > 0 {
                SCAllocator::lemma_tagged_is_allocated(backend1, rd1, q);
                SCAllocator::lemma_allocated_tag(backend0, rd0, q);
            }
        }
        assert forall|p: int| backend1.allocated(p) implies rd2.tag(p) >= 0 by {
            SCAllocator::lemma_allocated_tag(backend1, rd1, p);
        }
        backend1.lemma_tags_frame(rd1, rd2);
    }

    /// Hands out `size` bytes as whole pages of their own and names the
    /// run in the page index.
    ///
    /// Fails with `ESIZE` for no byte or more bytes than a `usize` holds
    /// in whole pages, and with `ENOMEM` when the backend cannot supply
    /// the pages; a failure changes nothing.
    pub fn allocate_large(&mut self, size: usize) -> (r: Result<usize, AllocError>)
        requires
            old(self).wf(),
        ensures
            final(self).wf(),
            (size == 0 || size > usize::MAX - PG_SIZE) ==> r == Err::<usize, AllocError>(
                AllocError::ESIZE,
            ),
            0 < size <= usize::MAX - PG_SIZE ==> (r is Ok <==> old(self).backend.can_serve(
                pages_for(size as int),
            )),
            0 < size <= usize::MAX - PG_SIZE && r is Err ==> r == Err::<usize, AllocError>(
                AllocError::ENOMEM,
            ),
            r is Err ==> forall|q: int| #[trigger] final(self).rd_tree.tag(q) == old(self).rd_tree.tag(q),
            forall|c: int, x: int| #[trigger] final(self).out(c, x) <==> old(self).out(c, x),
            r matches Ok(a) ==> {
                &&& final(self).large_block(a as int, pages_for(size as int))
                &&& forall|q: int|
                    in_run(a as int, pages_for(size as int), q) ==> #[trigger] old(self).rd_tree.tag(q) <= 0
                &&& forall|q: int|
                    old(self).rd_tree.tag(q) > 0 ==> #[trigger] final(self).rd_tree.tag(q) == old(self).rd_tree.tag(q)
                &&& forall|q: int|
                    !in_run(a as int, pages_for(size as int), q) && #[trigger] final(self).rd_tree.tag(q) > 0 ==> final(self).rd_tree.tag(q) == old(self).rd_tree.tag(q)
                &&& only_class_changed(&old(self).rd_tree, &final(self).rd_tree, 0)
                &&& a as int % (PG_SIZE as int) == 0
                &&& forall|p: int|
                    #[trigger] final(self).backend.allocated(p) <==> (old(self).backend.allocated(p) || in_run(
                        a as int,
                        pages_for(size as int),
                        p,
                    ))
                &&& forall|p: int|
                    in_run(a as int, pages_for(size as int), p) ==> !old(self).backend.allocated(p)
            },
            final(self).slabs == old(self).slabs,
    {
        let r = self.backend.alloc_pages(size, &mut self.rd_tree);
        match r {
            Ok(a) => {
                let npages: usize = (size + PG_SIZE - 1) / PG_SIZE;
                let page: u64 = (a as u64) / (PG_SIZE as u64);
                let tag: i64 = (page as i64 + 1) * 64;
                let ghost rd1 = self.rd_tree;
                self.rd_tree.insert_pages(page, tag, npages);
                proof {
                    Self::lemma_run_tagged(
                        &old(self).backend,
                        &self.backend,
                        &old(self).rd_tree,
                        &rd1,
                        &self.rd_tree,
                        a,
                        npages as int,
                        tag,
                    );
                    assert(only_class_changed(&old(self).rd_tree, &self.rd_tree, 0));
                    self.lemma_others_frame(old(self), 0);
                    let n = npages as int;
                    let rd0 = &old(self).rd_tree;
                    let rd2 = &self.rd_tree;
                    assert forall|q: int| #[trigger] large_at(rd2, q) implies large_first(
                        rd2.tag(q),
                    ) <= q && (large_first(rd2.tag(q)) < q ==> rd2.tag(q - 1) == rd2.tag(q)) by {
                        if !in_run(a as int, n, q) {
                            assert(rd2.tag(q) == rd0.tag(q));
                            assert(large_at(rd0, q));
                            if large_first(rd2.tag(q)) < q {
                                assert(rd0.tag(q - 1) == rd0.tag(q));
                                assert(rd2.tag(q - 1) == rd0.tag(q - 1));
                            }
                        }
                    }
                    let end = page_of(a as int) + n;
                    if rd2.tag(end) == tag {
                        assert(rd2.tag(end) == rd0.tag(end));
                        assert(large_at(rd0, end));
                        assert(in_run(a as int, n, end - 1));
                        assert(rd0.tag(end - 1) <= 0);
                    }
                }
                Ok(a)
            },
            Err(e) => {
                proof {
                    assert(only_class_changed(&old(self).rd_tree, &self.rd_tree, 0));
                    self.lemma_others_frame(old(self), 0);
                    assert forall|q: int| #[trigger] large_at(&self.rd_tree, q) implies large_first(
                        self.rd_tree.tag(q),
                    ) <= q && (large_first(self.rd_tree.tag(q)) < q ==> self.rd_tree.tag(q - 1)
                        == self.rd_tree.tag(q)) by {
                        assert(large_at(&old(self).rd_tree, q));
                    }
                }
                Err(e)
            },
        }
    }

    /// Takes back the large allocation of `size` bytes at `ptr`: the page
    /// index forgets its pages and the backend gets them back. Returns
    /// what the backend gave back to the system, if anything.
    pub fn deallocate_large(&mut self, ptr: usize, size: usize) -> (released: Option<(usize, usize)>)
        requires
            old(self).wf(),
            0 < size <= usize::MAX - PG_SIZE,
            old(self).large_block(ptr as int, pages_for(size as int)),
        ensures
            final(self).wf(),
            forall|c: int, x: int| #[trigger] final(self).out(c, x) <==> old(self).out(c, x),
            forall|q: int|
                in_run(ptr as int, pages_for(size as int), q) ==> #[trigger] final(self).rd_tree.tag(q) <= 0,
            forall|q: int|
                #[trigger] final(self).rd_tree.tag(q) > 0 ==> final(self).rd_tree.tag(q) == old(self).rd_tree.tag(q),
            forall|q: int|
                !in_run(ptr as int, pages_for(size as int), q) && old(self).rd_tree.tag(q) > 0
                    ==> #[trigger] final(self).rd_tree.tag(q) == old(self).rd_tree.tag(q),
            only_class_changed(&old(self).rd_tree, &final(self).rd_tree, 0),
            gave_back(old(self).backend.managed@, final(self).backend.managed@, some_range(released)),
            final(self).slabs == old(self).slabs,
            final(self).backend.bump == old(self).backend.bump,
            forall|p: int|
                #[trigger] final(self).backend.allocated(p) <==> (old(self).backend.allocated(p) && !in_run(
                    ptr as int,
                    pages_for(size as int),
                    p,
                )),
            ({
                let n = pages_for(size as int);
                let before = crate::freelist::run_before(&old(self).rd_tree, page_of(ptr as int));
                let after = crate::freelist::run_after(&old(self).rd_tree, page_of(ptr as int) + n);
                let total = n + before + after;
                let base = (ptr - before * PG_SIZE) as usize;
                &&& released is Some <==> total > crate::size_class::BACKEND_MAX_PAGE
                &&& released is None ==> final(self).backend.has_run(base, total) && final(self).backend.lists[total - 1]@.last() == base
                &&& released matches Some((b, bytes)) ==> b == base && bytes == total * PG_SIZE
            }),
    {
        let npages: usize = (size + PG_SIZE - 1) / PG_SIZE;
        let page: u64 = (ptr as u64) / (PG_SIZE as u64);
        proof {
            let n = npages as int;
            let last = page_of(ptr as int) + n - 1;
            assert(in_run(ptr as int, n, last));
            SCAllocator::lemma_tagged_is_allocated(&self.backend, &self.rd_tree, last);
            self.backend.lemma_page_bound(&self.rd_tree, last);
        }
        self.rd_tree.remove_pages(page, npages);
        let ghost rd1 = self.rd_tree;
        proof {
            let n = npages as int;
            assert forall|p: int| in_run(ptr as int, n, p) implies self.backend.allocated(p) by {
                SCAllocator::lemma_tagged_is_allocated(&old(self).backend, &old(self).rd_tree, p);
            }
            assert forall|p: int| self.backend.allocated(p) implies rd1.tag(p) >= 0 by {
                SCAllocator::lemma_allocated_tag(&old(self).backend, &old(self).rd_tree, p);
            }
            assert forall|p: int| !self.backend.allocated(p) implies rd1.tag(p) == old(self).rd_tree.tag(p) by {
                if in_run(ptr as int, n, p) {
                    SCAllocator::lemma_tagged_is_allocated(
                        &old(self).backend,
                        &old(self).rd_tree,
                        p,
                    );
                }
            }
            self.backend.lemma_tags_frame(&old(self).rd_tree, &rd1);
        }
        let released = self.backend.free_pages(ptr, size, &mut self.rd_tree);
        proof {
            let n = npages as int;
            assert(rd1.tag(page_of(ptr as int) - 1) == old(self).rd_tree.tag(page_of(ptr as int) - 1));
            assert(rd1.tag(page_of(ptr as int) + n) == old(self).rd_tree.tag(page_of(ptr as int) + n));
            assert forall|q: int| #[trigger] self.rd_tree.tag(q) > 0 implies self.rd_tree.tag(q)
                == old(self).rd_tree.tag(q) && !in_run(ptr as int, n, q) by {
                SCAllocator::lemma_tagged_is_allocated(&self.backend, &self.rd_tree, q);
            }
            assert forall|q: int|
                !in_run(ptr as int, n, q) && old(self).rd_tree.tag(q) > 0 implies #[trigger] self.rd_tree.tag(
                q,
            ) == old(self).rd_tree.tag(q) by {
                SCAllocator::lemma_tagged_is_allocated(&old(self).backend, &old(self).rd_tree, q);
            }
            assert(only_class_changed(&old(self).rd_tree, &self.rd_tree, 0)) by {
                assert forall|q: int| #[trigger]
                    self.rd_tree.tag(q) != old(self).rd_tree.tag(q) implies (old(self).rd_tree.tag(
                    q,
                ) <= 0 || old(self).rd_tree.tag(q) % 64 == 0) && (self.rd_tree.tag(q) <= 0
                    || self.rd_tree.tag(q) % 64 == 0) by {
                    if old(self).rd_tree.tag(q) > 0 {
                        assert(in_run(ptr as int, n, q));
                    }
                }
            }
            self.lemma_others_frame(old(self), 0);
            let rd0 = &old(self).rd_tree;
            let rd2 = &self.rd_tree;
            assert forall|q: int| #[trigger] large_at(rd2, q) implies large_first(rd2.tag(q)) <= q
                && (large_first(rd2.tag(q)) < q ==> rd2.tag(q - 1) == rd2.tag(q)) by {
                assert(rd2.tag(q) == rd0.tag(q));
                assert(!in_run(ptr as int, n, q));
                assert(large_at(rd0, q));
                if large_first(rd2.tag(q)) < q {
                    assert(rd0.tag(q - 1) == rd0.tag(q));
                    if in_run(ptr as int, n, q - 1) {
                        assert(rd0.tag(q - 1) == large_tag(page_of(ptr as int)));
                    }
                    assert(rd2.tag(q - 1) == rd0.tag(q - 1));
                }
            }
        }
        released
    }

    /// Makes `[start, end)` the reserve of the backend and returns what
    /// was left of the old reserve, for the caller to hand back to the
    /// system. Fails with `ELAYOUT`, and changes nothing, unless the
    /// range is page-aligned, starts above address 0 and ends at or below
    /// the address limit of the page index.
    pub fn add_reservation(&mut self, start: usize, end: usize) -> (r: Result<
        (usize, usize),
        AllocError,
    >)
        requires
            old(self).wf(),
            forall|p: int|
                page_of(start as int) <= p < page_of(end as int) ==> !old(self).backend.managed@.contains(p),
        ensures
            final(self).wf(),
            final(self).slabs == old(self).slabs,
            final(self).rd_tree == old(self).rd_tree,
            r is Ok <==> start % PG_SIZE == 0 && end % PG_SIZE == 0 && 0 < start <= end && end
                <= crate::freelist::ADDRESS_LIMIT,
            r is Err ==> r == Err::<(usize, usize), AllocError>(AllocError::ELAYOUT) && final(self).backend == old(self).backend,
            r matches Ok(left) ==> {
                &&& left.0 == old(self).backend.bump.current
                &&& left.1 == old(self).backend.bump.remaining()
                &&& final(self).backend.bump.current == start
                &&& final(self).backend.bump.check_point == end
                &&& final(self).backend.lists@ == old(self).backend.lists@
                &&& final(self).backend.managed@ == old(self).backend.managed@
            },
    {
        let r = self.backend.init_with_range(start, end, &self.rd_tree);
        proof {
            assert forall|c: int| 1 <= c < TOTAL_SIZE_CLASS implies #[trigger] self.slab_ok(c) by {
                assert(old(self).slab_ok(c));
            }
        }
        r
    }

    /// Whether `x` is the address of a cell of class `c`, handed out or
    /// not.
    pub open spec fn owns(&self, c: int, x: int) -> bool {
        1 <= c < self.slabs.len() && self.slabs[c].owns(&self.rd_tree, x)
    }

    /// Tells whether `x` is the address of a cell of class `c`.
    pub fn is_cell(&self, c: usize, x: usize) -> (b: bool)
        requires
            self.wf(),
        ensures
            b == self.owns(c as int, x as int),
    {
        if c < 1 || c >= self.slabs.len() {
            return false;
        }
        proof {
            assert(self.slab_ok(c as int));
        }
        self.slabs[c].owner_of(&self.rd_tree, x).is_some()
    }

    /// Tells whether `x` is a cell of class `c` that is handed out.
    pub fn is_out(&self, c: usize, x: usize) -> (b: bool)
        requires
            self.wf(),
        ensures
            b == self.out(c as int, x as int),
    {
        if c < 1 || c >= self.slabs.len() {
            return false;
        }
        proof {
            assert(self.slab_ok(c as int));
        }
        self.slabs[c].is_out(&self.rd_tree, x)
    }

    /// Tells whether the `n` pages at `a` are just one large allocation.
    pub fn is_large_block(&self, a: usize, n: usize) -> (b: bool)
        requires
            self.wf(),
        ensures
            b == self.large_block(a as int, n as int),
    {
        if a == 0 || a % PG_SIZE != 0 || n < 1 {
            return false;
        }
        if n as u64 > crate::collections::radix_tree::TREE_PAGES {
            proof {
                let q = crate::collections::radix_tree::TREE_PAGES as int;
                if page_of(a as int) <= q {
                    assert(in_run(a as int, n as int, q));
                    assert(self.rd_tree.tag(q) == 0);
                } else {
                    assert(in_run(a as int, n as int, page_of(a as int)));
                    assert(self.rd_tree.tag(page_of(a as int)) == 0);
                }
            }
            return false;
        }
        let first: u64 = (a as u64) / (PG_SIZE as u64);
        let tag: i64 = ((first + 1) * 64) as i64;
        let mut k: usize = 0;
        while k < n
            invariant
                k <= n,
                n <= crate::collections::radix_tree::TREE_PAGES,
                self.wf(),
                first == page_of(a as int),
                first <= usize::MAX / PG_SIZE,
                tag == large_tag(page_of(a as int)),
                forall|q: int| first <= q < first + k ==> #[trigger] self.rd_tree.tag(q) == tag,
            decreases n - k,
        {
            if self.rd_tree.lookup(first + k as u64) != tag {
                proof {
                    assert(in_run(a as int, n as int, first + k));
                }
                return false;
            }
            k += 1;
        }
        self.rd_tree.lookup(first + n as u64) != tag
    }
}

} // verus!
