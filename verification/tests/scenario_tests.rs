use unialloc::cache::thread_cache::{get_upper_bits, has_upper_bits, ThreadCache, ThreadCacheUnit, ZST_ADDRESS};
use unialloc::cache::RustAllocator;
use unialloc::error::AllocError;
use unialloc::mm::linklist::Linklist;
use unialloc::page::efficient_page::{Batch, ObjectPage, PageKind};
use unialloc::sc::efficient_sc::{align_12k, is_power_of_two, next_power_of_two, SCAllocator};
use unialloc::size_class::{get_size_class, MAX_SIZE};
use unialloc::zone::ZoneAllocator;

const ZST: usize = ZST_ADDRESS as usize;

const PG: usize = 4096;
const BASE: usize = 0x4000_0000;

fn heap(pages: usize) -> RustAllocator {
    let mut heap = RustAllocator::new();
    assert_eq!(heap.init(BASE, pages * PG, PG), Ok((0, 0)));
    heap
}

fn zone(pages: usize) -> ZoneAllocator {
    let mut zone = ZoneAllocator::new();
    assert_eq!(zone.add_reservation(BASE, BASE + pages * PG), Ok((0, 0)));
    zone
}

fn free_runs(zone: &ZoneAllocator) -> usize {
    zone.backend.lists.iter().map(|l| l.len()).sum()
}

#[test]
fn round_trip_from_cache() {
    let mut heap = heap(64);
    let p = heap.allocate(64, 8);
    let central = heap.zone.slabs[8].pages[0].counter;
    assert!(heap.deallocate(p, 64, 8).is_empty());
    // The block went no further than the cache, and comes back from it.
    assert_eq!(heap.zone.slabs[8].pages[0].counter, central);
    assert_eq!(heap.cache.list[8].list.link(), p);
    assert_eq!(heap.allocate(64, 8), p);
    assert_eq!(heap.zone.slabs[8].pages[0].counter, central);
}

#[test]
fn scenario_large_block() {
    let mut heap = heap(64);
    let size = MAX_SIZE + 1;
    let p = heap.allocate(size, 8);
    assert_ne!(p, 0);
    assert_eq!(p % PG, 0);
    // Five pages hold 18433 bytes; each of them carries the block's tag.
    let first = (p / PG) as u64;
    let tag = heap.zone.rd_tree.lookup(first);
    assert_eq!(tag, ((first + 1) * 64) as i64);
    for i in 0..5 {
        assert_eq!(heap.zone.rd_tree.lookup(first + i), tag);
    }
    assert_eq!(heap.zone.rd_tree.lookup(first + 5), 0);
    let q = heap.allocate(size, 8);
    assert_eq!(q, p + 5 * PG);
    let g = heap.allocate(PG * 8, 8);
    assert_eq!(g, q + 5 * PG);
    assert!(heap.deallocate(p, size, 8).is_empty());
    assert_eq!(heap.zone.backend.lists[4], vec![p]);
    assert_eq!(heap.zone.rd_tree.lookup(first), -5);
    assert_eq!(heap.zone.rd_tree.lookup(first + 1), 0);
    assert_eq!(heap.zone.rd_tree.lookup(first + 4), -5);
    // The second block joins the first when it comes back.
    assert!(heap.deallocate(q, size, 8).is_empty());
    assert_eq!(free_runs(&heap.zone), 1);
    assert_eq!(heap.zone.backend.lists[9], vec![p]);
    assert_eq!(heap.zone.rd_tree.lookup(first), -10);
    assert_eq!(heap.zone.rd_tree.lookup(first + 9), -10);
}

#[test]
fn large_block_beyond_the_lists_goes_back_to_the_system() {
    let mut heap = heap(1024);
    let p = heap.allocate(200 * PG, 8);
    assert_eq!(p, BASE);
    let released = heap.deallocate(p, 200 * PG, 8);
    assert_eq!(released, vec![(p, 200 * PG)]);
    assert_eq!(free_runs(&heap.zone), 0);
    // Those pages are gone; the next block follows them.
    assert_eq!(heap.allocate(200 * PG, 8), BASE + 200 * PG);
}

#[test]
fn scenario_reallocate() {
    let mut heap = heap(64);
    let p = heap.allocate(40, 8);
    let other = heap.allocate(40, 8);
    // 40 and 48 bytes round to different cells; 33 and 40 to the same.
    assert_eq!(get_size_class(40), get_size_class(33));
    let same = heap.reallocate(p, 40, 33, 8);
    assert_eq!((same.ptr, same.copy), (p, 0));
    assert!(same.released.is_empty());
    let moved = heap.reallocate(p, 40, 4096, 8);
    assert_ne!(moved.ptr, 0);
    assert_ne!(moved.ptr, p);
    assert_ne!(moved.ptr, other);
    assert_eq!(moved.copy, 40);
    // The old cell is back in the cache.
    assert_eq!(heap.allocate(40, 8), p);
    let shrunk = heap.reallocate(moved.ptr, 4096, 16, 8);
    assert_ne!(shrunk.ptr, 0);
    assert_eq!(shrunk.copy, 16);
    assert_eq!(heap.allocate(4096, 8), moved.ptr);
}

#[test]
fn reallocate_without_memory_keeps_the_block() {
    let mut heap = heap(1);
    let p = heap.allocate(40, 8);
    assert_eq!(p, BASE);
    let moved = heap.reallocate(p, 40, 100_000, 8);
    assert_eq!((moved.ptr, moved.copy), (0, 0));
    assert!(moved.released.is_empty());
    // The block is still out: its cell is not handed out again.
    let q = heap.allocate(40, 8);
    assert_eq!(q, BASE + 40);
}

#[test]
fn scenario_two_caches_interleaved() {
    let mut zone = zone(256);
    let mut a = ThreadCache::new();
    let mut b = ThreadCache::new();
    let mut held_a: Vec<usize> = Vec::new();
    let mut held_b: Vec<usize> = Vec::new();
    for round in 0..10_000usize {
        let pa = a.allocate(64, 8, &mut zone).unwrap();
        let pb = b.allocate(64, 8, &mut zone).unwrap();
        assert_ne!(pa, pb);
        assert!(!held_b.contains(&pa));
        assert!(!held_a.contains(&pb));
        held_a.push(pa);
        held_b.push(pb);
        if round % 3 != 0 {
            let pa = held_a.remove(0);
            let pb = held_b.pop().unwrap();
            assert!(a.deallocate(pa, 64, &mut zone).is_empty());
            assert!(b.deallocate(pb, 64, &mut zone).is_empty());
        }
        if held_a.len() > 40 {
            for p in held_a.drain(..) {
                a.deallocate(p, 64, &mut zone);
            }
            for p in held_b.drain(..) {
                b.deallocate(p, 64, &mut zone);
            }
        }
    }
    for p in held_a.drain(..) {
        a.deallocate(p, 64, &mut zone);
    }
    for p in held_b.drain(..) {
        b.deallocate(p, 64, &mut zone);
    }
    a.cleanup_cache_unchecked(&mut zone);
    b.cleanup_cache_unchecked(&mut zone);
    // Every cell is back: no run of the class has a cell out.
    let sc = &zone.slabs[8];
    assert_eq!(sc.full.start, 0);
    assert_eq!(sc.partial.start, 0);
    assert!(sc.empty_count > 0);
    for page in &sc.pages {
        assert_eq!(page.counter, 0);
    }
}

#[test]
fn block_freed_by_another_cache() {
    let mut zone = zone(64);
    let mut a = ThreadCache::new();
    let mut b = ThreadCache::new();
    let p = a.allocate(100, 8, &mut zone).unwrap();
    assert!(b.deallocate(p, 100, &mut zone).is_empty());
    assert_eq!(b.allocate(100, 8, &mut zone), Ok(p));
    let q = a.allocate(100, 8, &mut zone).unwrap();
    assert_ne!(p, q);
}

#[test]
fn scenario_many_caches_come_and_go() {
    let mut zone = zone(4096);
    let mut high_water = 0;
    for n in 0..2000usize {
        let mut cache = ThreadCache::new();
        cache.init();
        let mut held = Vec::new();
        for size in [8usize, 24, 33, 64, 100, 256, 1000, 5000, 20000] {
            held.push((cache.allocate(size, 8, &mut zone).unwrap(), size));
        }
        for (p, size) in held {
            cache.deallocate(p, size, &mut zone);
        }
        cache.cleanup_cache_unchecked(&mut zone);
        for unit in &cache.list {
            assert_eq!(unit.list.length(), 0);
            assert_eq!(unit.bump_count, 0);
        }
        // What one cache took the next takes again: the reserve stops
        // shrinking after the first.
        if n == 0 {
            high_water = zone.backend.bump.current;
        }
        assert_eq!(zone.backend.bump.current, high_water);
    }
    for sc in &zone.slabs {
        for page in &sc.pages {
            assert_eq!(page.counter, 0);
        }
    }
}

#[test]
fn drain_returns_what_the_cache_holds() {
    let mut zone = zone(64);
    let mut cache = ThreadCache::new();
    let p = cache.allocate(16, 8, &mut zone).unwrap();
    // The class hands its cells out by the run.
    let run = &zone.slabs[2].pages[0];
    assert_eq!((run.data, run.counter, run.kind), (p, 256, PageKind::Full));
    assert_eq!(cache.list[2].bump_count, 255);
    assert!(cache.cleanup_cache_unchecked(&mut zone).is_empty());
    let run = &zone.slabs[2].pages[0];
    assert_eq!((run.counter, run.kind), (1, PageKind::Partial));
    assert_eq!(run.free.len(), 255);
    assert_eq!(cache.list[2].bump_count, 0);
    assert_eq!(cache.list[2].list.length(), 0);
    // The one block that is out stays out.
    let q = cache.allocate(16, 1, &mut zone).unwrap();
    assert_ne!(q, p);
    assert_eq!(zone.slabs[2].pages.len(), 1);
    cache.deallocate(p, 16, &mut zone);
    cache.deallocate(q, 16, &mut zone);
    cache.cleanup_cache_unchecked(&mut zone);
    assert_eq!(zone.slabs[2].pages[0].kind, PageKind::Empty);
    assert_eq!(zone.slabs[2].empty_count, 1);
}

#[test]
fn radix_tree_names_the_owner_of_each_cell() {
    let mut heap = heap(256);
    for size in [8usize, 33, 100, 1000, 5000, 18432] {
        let class = get_size_class(size).index();
        let p = heap.allocate(size, 8);
        assert_ne!(p, 0);
        let tag = heap.zone.rd_tree.lookup((p / PG) as u64);
        assert!(tag > 0);
        assert_eq!((tag % 64) as usize, class);
        let record = (tag / 64 - 1) as usize;
        let sc = &heap.zone.slabs[class];
        let run = &sc.pages[record];
        assert!(run.data <= p && p < run.data + sc.pg_num * PG);
        assert_eq!((p - run.data) % sc.pg_align, 0);
        let last = ((p + size - 1) / PG) as u64;
        assert_eq!(heap.zone.rd_tree.lookup(last), tag);
    }
}

#[test]
fn aligned_cells_come_from_the_list() {
    let mut list = Linklist::new();
    assert_eq!(list.link(), 0);
    assert_eq!(list.pop_unchecked_aligned(8), None);
    for p in [0x1000usize, 0x1018, 0x1030, 0x1048] {
        list.push_unchecked(p);
    }
    assert_eq!(list.length(), 4);
    assert_eq!(list.link(), 0x1048);
    // The aligned cell nearest to the head is taken.
    assert_eq!(list.pop_unchecked_aligned(16), Some(0x1030));
    assert_eq!(list.pop_unchecked_aligned(32), Some(0x1000));
    assert_eq!(list.pop_unchecked_aligned(16), None);
    assert_eq!(list.length(), 2);
    assert_eq!(list.pop_unchecked_aligned(8), Some(0x1048));
    assert_eq!(list.pop_unchecked_aligned(4096), None);
    assert_eq!(list.pop_unchecked_aligned(1), Some(0x1018));
    assert_eq!(list.length(), 0);
}

#[test]
fn powers_of_two() {
    assert_eq!(next_power_of_two(0), 1);
    assert_eq!(next_power_of_two(1), 1);
    assert_eq!(next_power_of_two(3), 4);
    assert_eq!(next_power_of_two(4096), 4096);
    assert_eq!(next_power_of_two(4097), 8192);
    assert!(is_power_of_two(64));
    assert!(!is_power_of_two(0));
    assert!(!is_power_of_two(96));
    assert_eq!(align_12k(0x12345), 0x12000);
}

#[test]
fn central_layer_hands_cells_out_by_the_run() {
    let mut zone = zone(64);
    let batch = zone.allocate_batch_from_slab(35, 8).unwrap();
    assert_eq!(zone.slabs[35].pg_num, 8);
    assert_eq!(batch.len(), 32);
    match batch {
        Batch::Contiguous { base, count, unit } => assert_eq!((base, count, unit), (BASE, 32, 1024)),
        Batch::Linked { .. } => panic!("a fresh run comes as one piece"),
    }
    let back = vec![BASE + 1024, BASE + 3072];
    assert!(zone.deallocate_batch_to_slab(35, &back).is_empty());
    assert_eq!(zone.slabs[35].pages[0].kind, PageKind::Partial);
    // A request with an alignment passes the partial run by.
    match zone.allocate_batch_from_slab(35, 8).unwrap() {
        Batch::Contiguous { base, count, unit } => assert_eq!((base, count, unit), (BASE + 8 * PG, 32, 1024)),
        Batch::Linked { .. } => panic!("a fresh run comes as one piece"),
    }
    match zone.allocate_batch_from_slab(35, 1).unwrap() {
        Batch::Linked { cells } => {
            let mut cells = cells;
            cells.sort();
            assert_eq!(cells, back);
        }
        Batch::Contiguous { .. } => panic!("a partial run hands out its free cells"),
    }
    assert_eq!(zone.slabs[35].pages[0].kind, PageKind::Full);
    let mut small = ZoneAllocator::new();
    assert_eq!(small.allocate_batch_from_slab(35, 8).err(), Some(AllocError::ENOMEM));
    assert_eq!(small.allocate_large(1), Err(AllocError::ENOMEM));
    assert_eq!(small.allocate_large(0), Err(AllocError::ESIZE));
}

#[test]
fn zero_size_requests() {
    let mut heap = heap(4);
    assert_eq!(heap.allocate(0, 1), ZST);
    assert_eq!(heap.allocate(0, 64), ZST);
    assert!(heap.deallocate(ZST, 0, 1).is_empty());
    assert_eq!(heap.zone.backend.bump.current, BASE);
    let unit = ThreadCacheUnit::new();
    assert_eq!((unit.bump_ptr, unit.bump_count, unit.bump_unit), (0, 0, 0));
    let page = ObjectPage::new();
    assert!(!page.is_inited());
    assert!(page.is_empty());
    let sc = SCAllocator::new(40, 5, 1);
    assert_eq!((sc.pg_count, sc.pg_align, sc.size_class), (102, 40, 40));
}

#[test]
fn records_move_between_the_rings() {
    let mut zone = zone(64);
    for _ in 0..3 {
        let _ = zone.allocate_batch_from_slab(8, 8).unwrap();
    }
    let sc = &mut zone.slabs[8];
    // Three full runs: the ring of full records starts at the first.
    assert_eq!(sc.full.start, 1);
    assert!(sc.pages[0].has_next() && sc.pages[0].has_prev());
    assert_eq!((sc.pages[0].get_next(), sc.pages[0].get_prev()), (1, 2));
    sc.remove_full(1);
    assert_eq!(sc.pages[1].kind, PageKind::Detached);
    assert_eq!((sc.pages[0].get_next(), sc.pages[0].get_prev()), (2, 2));
    sc.insert_partial(1);
    assert_eq!((sc.pages[1].kind, sc.partial.start), (PageKind::Partial, 2));
    sc.remove_partial(1);
    sc.insert_full(1);
    // The record is the last of its ring now.
    assert_eq!((sc.pages[0].get_next(), sc.pages[0].get_prev()), (2, 1));
    assert_eq!((sc.pages[1].get_next(), sc.pages[1].get_prev()), (0, 2));
    sc.remove_full(0);
    assert_eq!(sc.full.start, 3);
    sc.attach(PageKind::Empty, 0);
    assert_eq!((sc.empty_count, sc.empty.start), (1, 1));
    assert!(!sc.try_insert_ety());
    assert_eq!(sc.remove_empty(), 0);
    assert_eq!((sc.empty_count, sc.empty.start), (0, 0));
    sc.attach(PageKind::Uninit, 0);
    assert_eq!(sc.remove_uninit(), 0);
    sc.detach(PageKind::Full, 2);
    assert_eq!((sc.pages[1].get_next(), sc.pages[1].get_prev()), (1, 1));
    let mut cache = ThreadCache::new();
    cache.handle_delay_case(BASE, 64);
    assert_eq!(cache.list[8].list.length(), 0);
}

#[test]
fn upper_bits_of_addresses() {
    assert_eq!(get_upper_bits(0x7fff_ffff_ffff), 0);
    assert_eq!(get_upper_bits(0xffff_ffff_ffff), 0);
    assert_eq!(get_upper_bits(0x1_0000_0000_0000), 1);
    assert_eq!(get_upper_bits(usize::MAX), 0xffff);
    assert!(!has_upper_bits(0xffff_ffff_ffff));
    assert!(has_upper_bits(0x1_0000_0000_0000));
}

#[test]
fn empty_runs_are_kept_up_to_the_cap_and_released_beyond_it() {
    let mut zone = zone(4096);
    // Cells of 128 bytes come 32 to a run of one page.
    let runs = 2051;
    let mut batches: Vec<Vec<usize>> = Vec::new();
    for _ in 0..runs {
        match zone.allocate_batch_from_slab(16, 8).unwrap() {
            Batch::Contiguous { base, count, unit } => {
                assert_eq!((count, unit), (32, 128));
                batches.push((0..count).map(|i| base + i * unit).collect());
            }
            Batch::Linked { .. } => panic!("a fresh run comes as one piece"),
        }
    }
    assert_eq!(zone.slabs[16].pages.len(), runs);
    assert_eq!(zone.slabs[16].empty_count, 0);
    for (i, cells) in batches.iter().enumerate() {
        assert!(zone.deallocate_batch_to_slab(16, cells).is_empty());
        // A run joins the empty ones while the class holds 2048 of them
        // or fewer; the runs after that go back to the backend.
        let kept = if i < 2049 { i + 1 } else { 2049 };
        assert_eq!(zone.slabs[16].empty_count, kept);
        let record = &zone.slabs[16].pages[i];
        assert_eq!(record.counter, 0);
        if i < 2049 {
            assert_eq!(record.kind, PageKind::Empty);
            assert_eq!(record.data, cells[0]);
        } else {
            assert_eq!(record.kind, PageKind::Uninit);
            assert_eq!(record.data, 0);
            // The pages are free again, and join the free run before them.
            assert_eq!(zone.rd_tree.lookup((cells[0] / PG) as u64), -((i - 2048) as i64));
        }
    }
    let sc = &zone.slabs[16];
    assert_eq!(sc.pages.iter().filter(|p| p.kind == PageKind::Empty).count(), 2049);
    assert_eq!(sc.pages.iter().filter(|p| p.kind == PageKind::Uninit).count(), 2);
    assert_eq!((sc.full.start, sc.partial.start), (0, 0));
}

#[test]
fn repeated_round_trips_take_no_memory() {
    let mut heap = heap(64);
    let p = heap.allocate(200, 16);
    assert!(heap.deallocate(p, 200, 16).is_empty());
    let class = get_size_class(200).index();
    let cached = heap.cache.list[class].list.length();
    let reserve = heap.zone.backend.bump.current;
    let lists = heap.zone.backend.lists.clone();
    let central = heap.zone.slabs[class].pages[0].counter;
    for _ in 0..10_000 {
        assert_eq!(heap.allocate(200, 16), p);
        assert_eq!(heap.cache.list[class].list.length(), cached - 1);
        assert!(heap.deallocate(p, 200, 16).is_empty());
        assert_eq!(heap.cache.list[class].list.length(), cached);
    }
    assert_eq!(heap.zone.backend.bump.current, reserve);
    assert_eq!(heap.zone.backend.lists, lists);
    assert_eq!(heap.zone.slabs[class].pages.len(), 1);
    assert_eq!(heap.zone.slabs[class].pages[0].counter, central);
}

#[test]
fn counter_is_the_number_of_cells_handed_out() {
    let mut zone = zone(64);
    let cells: Vec<usize> = match zone.allocate_batch_from_slab(16, 8).unwrap() {
        Batch::Contiguous { base, count, unit } => (0..count).map(|i| base + i * unit).collect(),
        Batch::Linked { .. } => panic!("a fresh run comes as one piece"),
    };
    assert_eq!(zone.slabs[16].pages[0].counter, 32);
    let back: Vec<usize> = cells.iter().copied().step_by(3).collect();
    assert_eq!(back.len(), 11);
    assert!(zone.deallocate_batch_to_slab(16, &back).is_empty());
    let record = &zone.slabs[16].pages[0];
    assert_eq!(record.counter, 21);
    let out = cells.iter().filter(|c| !record.free.contains(c)).count();
    assert_eq!(out, record.counter);
    let tag = zone.rd_tree.lookup((cells[5] / PG) as u64);
    assert_eq!(tag, 64 + 16);
}

#[test]
fn emptied_record_joins_the_empty_ring_under_the_cap() {
    let mut zone = zone(64);
    let base = match zone.allocate_batch_from_slab(16, 8).unwrap() {
        Batch::Contiguous { base, .. } => base,
        Batch::Linked { .. } => panic!("a fresh run comes as one piece"),
    };
    let ZoneAllocator { slabs, rd_tree, backend, .. } = &mut zone;
    let sc = &mut slabs[16];
    // Every cell is back: the record leaves the ring of the full runs.
    sc.detach(PageKind::Full, 0);
    sc.pages[0].counter = 0;
    assert!(!sc.try_insert_ety());
    assert_eq!(sc.insert_ety(0, rd_tree, backend), None);
    assert_eq!(sc.pages[0].kind, PageKind::Empty);
    assert_eq!(sc.pages[0].data, base);
    assert_eq!((sc.empty_count, sc.empty.start), (1, 1));
    assert_eq!(rd_tree.lookup((base / PG) as u64), 64 + 16);
    assert!(backend.lists.iter().all(|l| l.is_empty()));
}
