use unialloc::cache::global_heap::GlobalHeap;
use unialloc::cache::thread_cache::ZST_ADDRESS;
use unialloc::cache::RustAllocator;
use unialloc::error::AllocError;
use unialloc::size_class::MAX_SIZE;

const PG: usize = 4096;
const ZST: usize = ZST_ADDRESS as usize;
const BASE: usize = 0x4000_0000;

fn heap(pages: usize) -> GlobalHeap {
    let mut heap = GlobalHeap::new();
    assert_eq!(heap.init(BASE, pages * PG, PG), Ok((0, 0)));
    heap
}

#[test]
fn threads_get_caches_of_their_own() {
    let mut heap = heap(64);
    let a = heap.get_thread_cache();
    let b = heap.get_thread_cache();
    assert_eq!((a, b), (0, 1));
    assert!(heap.is_attached(a) && heap.is_attached(b));
    assert!(!heap.is_attached(2));
    let p = heap.allocate(a, 64, 8);
    let q = heap.allocate(b, 64, 8);
    assert_ne!(p, 0);
    assert_ne!(q, 0);
    assert_ne!(p, q);
    // Each thread took a run of its own: the first took the first.
    assert_eq!(p, BASE);
    assert_eq!(q, BASE + PG);
    assert!(heap.is_outstanding(p, 64));
    assert!(heap.is_outstanding(q, 64));
    // The cells that wait in the caches are with no user.
    assert!(!heap.is_outstanding(p + 64, 64));
    assert!(!heap.is_outstanding(q + 64, 64));
    assert!(heap.caches[a].is_held(8, p + 64));
    assert!(!heap.caches[b].is_held(8, p + 64));
}

#[test]
fn block_goes_to_the_cache_of_the_thread_that_frees_it() {
    let mut heap = heap(64);
    let a = heap.get_thread_cache();
    let b = heap.get_thread_cache();
    let p = heap.allocate(a, 100, 8);
    assert!(heap.deallocate(b, p, 100, 8).is_empty());
    assert!(!heap.is_outstanding(p, 100));
    assert!(heap.caches[b].is_held(13, p));
    assert!(!heap.caches[a].is_held(13, p));
    // The thread that freed it gets it back first.
    assert_eq!(heap.allocate(b, 100, 8), p);
    assert_ne!(heap.allocate(a, 100, 8), p);
}

#[test]
fn scenario_two_threads() {
    let mut heap = heap(256);
    let a = heap.get_thread_cache();
    let b = heap.get_thread_cache();
    let mut live: Vec<(usize, usize)> = Vec::new();
    for round in 0..10_000usize {
        let tid = if round % 3 == 0 { a } else { b };
        let p = heap.allocate(tid, 64, 8);
        assert_ne!(p, 0);
        assert_eq!(p % 8, 0);
        live.push((p, tid));
        if live.len() > 24 {
            // Blocks go back through either thread.
            let (q, owner) = live.remove(round % 24);
            let by = if round % 5 == 0 { owner } else { a + b - owner };
            assert!(heap.is_outstanding(q, 64));
            heap.deallocate(by, q, 64, 8);
            assert!(!heap.is_outstanding(q, 64));
        }
        if round % 997 == 0 {
            let mut sorted: Vec<usize> = live.iter().map(|x| x.0).collect();
            sorted.sort();
            for w in sorted.windows(2) {
                assert!(w[0] + 64 <= w[1]);
            }
        }
    }
    for (q, owner) in live.drain(..) {
        heap.deallocate(owner, q, 64, 8);
    }
    heap.free_thread_cache(a);
    heap.free_thread_cache(b);
    // Every cell is back with the central layer. No request failed, so
    // the 256 pages of the reserve were enough throughout.
    let sc = &heap.heap.zone.slabs[8];
    assert_eq!((sc.full.start, sc.partial.start), (0, 0));
    for page in &sc.pages {
        assert_eq!(page.counter, 0);
    }
    assert_eq!(sc.empty_count, sc.pages.len());
    assert_eq!(heap.heap.zone.backend.bump.current, BASE + sc.pages.len() * PG);
}

#[test]
fn scenario_threads_come_and_go() {
    let mut heap = heap(4096);
    let main = heap.get_thread_cache();
    let keep = heap.allocate(main, 48, 8);
    // A first thread brings a run to every class that the others use.
    let first = heap.get_thread_cache();
    for size in (8..=2048).step_by(8) {
        let p = heap.allocate(first, size, 8);
        heap.deallocate(first, p, size, 8);
    }
    heap.free_thread_cache(first);
    let high_water = heap.heap.zone.backend.bump.current;
    for n in 0..2000usize {
        let tid = heap.get_thread_cache();
        // The number of the thread that ended is taken again.
        assert_eq!(tid, 1);
        let size = 1 + (n * 7919) % 2048;
        let p = heap.allocate(tid, size, 8);
        assert_ne!(p, 0);
        assert!(heap.is_outstanding(p, size));
        heap.deallocate(tid, p, size, 8);
        assert!(heap.free_thread_cache(tid).is_empty());
        assert!(!heap.is_attached(tid));
        for unit in &heap.caches[tid].list {
            assert_eq!(unit.list.length(), 0);
            assert_eq!(unit.bump_count, 0);
        }
        // What one thread took the next takes again: the reserve
        // shrinks no more.
        assert_eq!(heap.heap.zone.backend.bump.current, high_water);
    }
    assert_eq!(heap.caches.len(), 2);
    // Only the block of the first thread is still out.
    assert!(heap.is_outstanding(keep, 48));
    let mut out = 0;
    for sc in &heap.heap.zone.slabs {
        for page in &sc.pages {
            out += page.counter;
        }
    }
    assert_eq!(out, heap.heap.zone.slabs[6].pg_count);
    heap.free_thread_cache(main);
    let mut out = 0;
    for sc in &heap.heap.zone.slabs {
        for page in &sc.pages {
            out += page.counter;
        }
    }
    assert_eq!(out, 1);
}

#[test]
fn freed_and_foreign_addresses_are_told_apart() {
    let mut heap = heap(64);
    let t = heap.get_thread_cache();
    let p = heap.allocate(t, 40, 8);
    assert!(heap.is_outstanding(p, 40));
    // The same cell under its other sizes.
    assert!(heap.is_outstanding(p, 33));
    assert!(!heap.is_outstanding(p, 32));
    assert!(!heap.is_outstanding(p, 48));
    // Not the start of a cell, and no cell of the heap at all.
    assert!(!heap.is_outstanding(p + 8, 40));
    assert!(!heap.is_outstanding(BASE + 32 * PG, 40));
    assert!(!heap.is_outstanding(0, 40));
    assert!(!heap.is_outstanding(usize::MAX, 40));
    heap.deallocate(t, p, 40, 8);
    // Freed once: a second free would be refused.
    assert!(!heap.is_outstanding(p, 40));
    // Back with the central layer it is still no block of a user.
    heap.free_thread_cache(t);
    assert!(!heap.is_outstanding(p, 40));
    assert!(heap.is_outstanding(ZST, 0));
    assert!(!heap.is_outstanding(p, 0));
}

#[test]
fn large_blocks_are_known_by_their_pages() {
    let mut heap = heap(64);
    let t = heap.get_thread_cache();
    let size = MAX_SIZE + 1;
    let p = heap.allocate(t, size, 8);
    assert!(heap.is_outstanding(p, size));
    assert!(heap.is_outstanding(p, 5 * PG));
    // Four pages are the front of the block, six are too many.
    assert!(!heap.is_outstanding(p, 4 * PG));
    assert!(!heap.is_outstanding(p, 5 * PG + 1));
    assert!(!heap.is_outstanding(p + PG, 4 * PG));
    assert!(!heap.is_outstanding(p + 8, size));
    assert!(!heap.is_outstanding(p, usize::MAX));
    heap.deallocate(t, p, size, 8);
    assert!(!heap.is_outstanding(p, size));
}

#[test]
fn one_thread_allocator_tells_its_blocks() {
    let mut heap = RustAllocator::new();
    assert_eq!(heap.init(BASE, 16 * PG, PG), Ok((0, 0)));
    let p = heap.allocate(24, 8);
    assert!(heap.is_outstanding(p, 24));
    assert!(!heap.is_outstanding(p + 24, 24));
    assert!(heap.cache.is_held(3, p + 24));
    assert!(heap.zone.is_out(3, p + 24));
    assert!(!heap.zone.is_out(4, p));
    assert!(!heap.zone.is_out(0, p));
    assert!(!heap.zone.is_out(64, p));
    heap.deallocate(p, 24, 8);
    assert!(!heap.is_outstanding(p, 24));
    assert!(heap.cache.list[3].is_held(p));
    assert!(heap.cache.list[3].list.contains(p));
    assert!(!heap.zone.is_large_block(p, 1));
}

#[test]
fn reallocation_for_a_thread() {
    let mut heap = heap(64);
    let a = heap.get_thread_cache();
    let b = heap.get_thread_cache();
    let p = heap.allocate(a, 40, 8);
    let same = heap.reallocate(b, p, 40, 33, 8);
    assert_eq!((same.ptr, same.copy), (p, 0));
    let moved = heap.reallocate(b, p, 40, 4096, 8);
    assert_ne!(moved.ptr, 0);
    assert_ne!(moved.ptr, p);
    assert_eq!(moved.copy, 40);
    assert!(heap.is_outstanding(moved.ptr, 4096));
    assert!(!heap.is_outstanding(p, 40));
    assert!(heap.caches[b].is_held(5, p));
    assert_eq!(heap.extend(PG, PG), Ok(()));
    assert!(heap.is_outstanding(moved.ptr, 4096));
}

#[test]
fn bad_frees_are_named() {
    let mut heap = heap(64);
    let t = heap.get_thread_cache();
    let p = heap.allocate(t, 40, 8);
    let big = heap.allocate(t, 3 * PG + MAX_SIZE, 8);
    assert_eq!(heap.check_free(p, 40), Ok(()));
    assert_eq!(heap.check_free(big, 3 * PG + MAX_SIZE), Ok(()));
    assert_eq!(heap.check_free(ZST, 0), Ok(()));
    // A cell that waits in the cache, and one that was freed.
    assert_eq!(heap.check_free(p + 40, 40), Err(AllocError::EDBFRE));
    heap.deallocate(t, p, 40, 8);
    assert_eq!(heap.check_free(p, 40), Err(AllocError::EDBFRE));
    heap.free_thread_cache(t);
    assert_eq!(heap.check_free(p, 40), Err(AllocError::EDBFRE));
    // Pages that hold nothing.
    assert_eq!(heap.check_free(BASE + 40 * PG, 40), Err(AllocError::EUAF));
    assert_eq!(heap.check_free(0, 100_000), Err(AllocError::EUAF));
    // Addresses that are no block of the size.
    assert_eq!(heap.check_free(p + 8, 40), Err(AllocError::ELAYOUT));
    assert_eq!(heap.check_free(p, 64), Err(AllocError::ELAYOUT));
    assert_eq!(heap.check_free(p, 100_000), Err(AllocError::ELAYOUT));
    assert_eq!(heap.check_free(big, 40), Err(AllocError::ELAYOUT));
    assert_eq!(heap.check_free(big + PG, 2 * PG + MAX_SIZE), Err(AllocError::ELAYOUT));
    assert_eq!(heap.check_free(big, 2 * PG + MAX_SIZE), Err(AllocError::ELAYOUT));
    assert_eq!(heap.check_free(p, 0), Err(AllocError::ELAYOUT));
    assert_eq!(heap.check_free(big, usize::MAX), Err(AllocError::ESIZE));
    let t = heap.get_thread_cache();
    heap.deallocate(t, big, 3 * PG + MAX_SIZE, 8);
    assert_eq!(heap.check_free(big, 3 * PG + MAX_SIZE), Err(AllocError::EUAF));
    assert!(heap.heap.zone.is_cell(5, p));
    assert!(!heap.heap.zone.is_cell(5, p + 8));
    assert!(!heap.heap.zone.is_cell(6, p));
}
