use unialloc::cache::thread_cache::{ThreadCache, ZST_ADDRESS};
use unialloc::cache::RustAllocator;
use unialloc::error::AllocError;
use unialloc::page::efficient_page::PageKind;
use unialloc::size_class::{
    get_index_and_size, get_num_pages_by_idx, get_rounded_size, get_rounded_size_by_idx, get_size_class,
    get_size_class_by_idx, get_size_class_tuple, get_size_from_idx, SizeClass, MAX_SIZE,
};
use unialloc::size_class::small_size_class;
use unialloc::size_class::mi_size_class;
use unialloc::zone::ZoneAllocator;

const ZST: usize = ZST_ADDRESS as usize;

const PG: usize = 4096;
const BASE: usize = 0x4000_0000;

fn heap(pages: usize) -> RustAllocator {
    let mut heap = RustAllocator::new();
    assert_eq!(heap.init(BASE, pages * PG, PG), Ok((0, 0)));
    heap
}

fn zone(pages: usize) -> ZoneAllocator {
    let mut zone = ZoneAllocator::new();
    assert_eq!(zone.add_reservation(BASE, BASE + pages * PG), Ok((0, 0)));
    zone
}

fn overlap(a: (usize, usize), b: (usize, usize)) -> bool {
    a.0 < b.0 + b.1 && b.0 < a.0 + a.1
}

#[test]
fn alloc_tcache_heap_overaligned_request() {
    let mut allocator = heap(1 << 14);
    for &align in &[4usize, 8, 16, 32] {
        // less than and bigger than `MIN_ALIGN`
        for &size in &[align / 2, align - 1] {
            // size less than alignment
            let iterations = 128;
            let pointers: Vec<usize> = (0..iterations).map(|_| allocator.allocate(size, align)).collect();
            for &ptr in &pointers {
                assert_ne!(ptr, 0);
                assert_eq!(ptr % align, 0, "Got a pointer less aligned than requested")
            }

            // Clean up
            for &ptr in &pointers {
                allocator.deallocate(ptr, size, align);
            }
        }
    }
}

#[test]
fn classification_table_values() {
    assert_eq!(get_size_class(0), SizeClass::Base(0));
    assert_eq!(get_index_and_size(1), (SizeClass::Base(1), 8));
    assert_eq!(get_index_and_size(8), (SizeClass::Base(1), 8));
    assert_eq!(get_index_and_size(9), (SizeClass::Base(2), 16));
    assert_eq!(get_index_and_size(33), (SizeClass::Base(5), 40));
    assert_eq!(get_index_and_size(1024), (SizeClass::Base(35), 1024));
    assert_eq!(get_index_and_size(1025), (SizeClass::Base(36), 1152));
    assert_eq!(get_index_and_size(18432), (SizeClass::Base(63), 18432));
    assert_eq!(get_index_and_size(18433), (SizeClass::Large(18433), 18433));
    assert_eq!(get_size_class_tuple(257), (SizeClass::Base(23), 264));
    assert_eq!(get_rounded_size(4097), 4224);
    assert_eq!(get_rounded_size_by_idx(63), MAX_SIZE);
    assert_eq!(get_size_class_by_idx(24), 296);
    assert_eq!(get_size_from_idx(2), 16);
    assert_eq!(get_num_pages_by_idx(1), 1);
    assert_eq!(get_num_pages_by_idx(63), 64);
    assert_eq!(SizeClass::Large(70000).inner(), 70000);
    assert_eq!(SizeClass::Base(7).index(), 7);
}

#[test]
fn classification_is_monotone_and_never_rounds_down() {
    let mut last = 0;
    for r in 0..=MAX_SIZE + 4096 {
        let (cls, rounded) = get_index_and_size(r);
        assert!(rounded >= r);
        // A request above 128 bytes is rounded up by an eighth at most.
        assert!(r <= 128 || 8 * rounded <= 9 * r);
        assert!(rounded >= last);
        last = rounded;
        match cls {
            SizeClass::Base(idx) => {
                assert!(r <= MAX_SIZE);
                assert_eq!(get_rounded_size_by_idx(idx), rounded);
                assert!(idx == 0 || get_rounded_size_by_idx(idx - 1) < r);
            }
            SizeClass::Large(n) => {
                assert!(r > MAX_SIZE);
                assert_eq!(n, r);
            }
        }
    }
}

#[test]
fn other_class_tables() {
    assert_eq!(small_size_class::get_size_class(1), SizeClass::Base(1));
    assert_eq!(small_size_class::get_size_class(9), SizeClass::Base(2));
    assert_eq!(small_size_class::get_size_class(2048), SizeClass::Base(9));
    assert_eq!(small_size_class::get_size_class(2049), SizeClass::Large(2049));
    assert_eq!(small_size_class::get_size_class(0), SizeClass::Base(0));
    assert_eq!(small_size_class::get_size_class(40), SizeClass::Base(4));
    assert_eq!(small_size_class::get_size_class(64), SizeClass::Base(4));
    assert_eq!(small_size_class::get_size_class(65), SizeClass::Base(5));
    for r in 0..=2048 {
        let idx = small_size_class::get_size_class(r).index();
        assert!(small_size_class::get_rounded_size_by_idx(idx) >= r);
        assert!(idx == 0 || small_size_class::get_rounded_size_by_idx(idx - 1) < r);
    }
    assert_eq!(small_size_class::get_rounded_size_by_idx(9), 2048);
    assert_eq!(small_size_class::get_size_class_by_idx(3), 32);
    assert_eq!(small_size_class::get_num_pages_by_idx(7), 1);
    assert_eq!(mi_size_class::get_size_class(40961), SizeClass::Large(40961));
    assert_eq!(mi_size_class::get_rounded_size_by_idx(9), 80);
    assert_eq!(mi_size_class::get_num_pages_by_idx(9), 5);
    assert_eq!(mi_size_class::get_num_pages_by_idx(32), 1);
    for r in 1..=mi_size_class::MAX_SIZE {
        let idx = mi_size_class::get_size_class(r).index();
        assert!(mi_size_class::get_rounded_size_by_idx(idx) >= r);
        assert!(idx < 2 || mi_size_class::get_rounded_size_by_idx(idx - 1) < r);
    }
}

#[test]
fn scenario_two_small_blocks() {
    let mut heap = heap(1024);
    let one = heap.allocate(8, 8);
    let two = heap.allocate(8, 8);
    assert_ne!(one, 0);
    assert_ne!(one, two);
    assert_eq!(one % 8, 0);
    assert!(heap.deallocate(one, 8, 8).is_empty());
    assert!(heap.deallocate(two, 8, 8).is_empty());
    let three = heap.allocate(8, 8);
    assert!(three == one || three == two);
    // The block that came back last goes out first.
    assert_eq!(three, two);
}

#[test]
fn no_memory_before_init() {
    let mut heap = RustAllocator::new();
    assert_eq!(heap.allocate(8, 8), 0);
    assert_eq!(heap.allocate(100_000, 8), 0);
    assert_eq!(heap.allocate(0, 8), 0x1000_0000_0000);
    assert_eq!(heap.allocate(0, 4096), ZST);
    assert!(heap.deallocate(ZST, 0, 8).is_empty());
    assert_eq!(heap.init(BASE, PG, 8192), Err(AllocError::ELAYOUT));
    assert_eq!(heap.init(BASE + 8, PG, PG), Err(AllocError::ELAYOUT));
    assert_eq!(heap.init(BASE, usize::MAX, PG), Err(AllocError::ELAYOUT));
    assert_eq!(heap.init(BASE, PG, PG), Ok((0, 0)));
    assert_eq!(heap.allocate(8, 8), BASE);
    // One page is all there is.
    assert_eq!(heap.allocate(16, 8), 0);
    assert_eq!(heap.allocate(8, 8), BASE + 8);
}

#[test]
fn bad_alignment_fails() {
    let mut heap = heap(64);
    assert_eq!(heap.allocate(8, 0), 0);
    assert_eq!(heap.allocate(8, 3), 0);
    assert_eq!(heap.allocate(8, 8192), 0);
    let p = heap.allocate(8, 4096);
    assert_ne!(p, 0);
    assert_eq!(p % 4096, 0);
    let mut zone = zone(64);
    let mut cache = ThreadCache::new();
    assert_eq!(cache.allocate(8, 24, &mut zone), Err(AllocError::ELAYOUT));
    assert_eq!(cache.allocate(usize::MAX, 8, &mut zone), Err(AllocError::ESIZE));
    assert_eq!(cache.allocate(65 * PG, 8, &mut zone), Err(AllocError::ENOMEM));
    assert_eq!(cache.allocate(0, 8, &mut zone), Ok(ZST));
}

#[test]
fn blocks_do_not_overlap_and_hold_their_size() {
    let mut heap = heap(1 << 15);
    let mut live: Vec<(usize, usize)> = Vec::new();
    let sizes = [1usize, 8, 9, 33, 40, 100, 257, 1000, 1025, 4096, 5000, 28032, 28033, 70000, 300];
    for round in 0..6 {
        for (i, &size) in sizes.iter().enumerate() {
            let align = 1usize << ((i + round) % 4);
            let ptr = heap.allocate(size, align);
            assert_ne!(ptr, 0);
            assert_eq!(ptr % align, 0);
            for &other in &live {
                assert!(!overlap((ptr, size), other), "{:x} {} overlaps {:x} {}", ptr, size, other.0, other.1);
            }
            live.push((ptr, size));
        }
        // Free every other block.
        let mut keep = Vec::new();
        for (i, &(ptr, size)) in live.iter().enumerate() {
            if i % 2 == round % 2 {
                heap.deallocate(ptr, size, 1);
            } else {
                keep.push((ptr, size));
            }
        }
        live = keep;
    }
}

#[test]
fn scenario_thousand_objects_of_33_bytes() {
    let mut heap = heap(1024);
    let ptrs: Vec<usize> = (0..1000).map(|_| heap.allocate(33, 8)).collect();
    // 33 bytes are served by cells of 40 bytes, 102 to a page.
    let class = get_size_class(33).index();
    assert_eq!(class, 5);
    let sc = &heap.zone.slabs[class];
    assert_eq!((sc.pg_count, sc.pg_align, sc.pg_num), (102, 40, 1));
    assert_eq!(sc.pages.len(), 10);
    assert_ne!(sc.full.start, 0);
    for &p in ptrs.iter().rev() {
        assert!(heap.deallocate(p, 33, 8).is_empty());
    }
    // The cells wait in the cache; the central layer still counts them out.
    assert_eq!(heap.cache.list[class].list.length(), 1000);
    assert!(heap.cache.cleanup_cache_unchecked(&mut heap.zone).is_empty());
    let sc = &heap.zone.slabs[class];
    assert_eq!(sc.empty_count, 10);
    assert_eq!(sc.partial.start, 0);
    assert_eq!(sc.full.start, 0);
    for page in &sc.pages {
        assert_eq!(page.kind, PageKind::Empty);
        assert_eq!(page.counter, 0);
        assert!(page.is_inited());
    }
    assert_eq!(heap.cache.list[class].list.length(), 0);
}
