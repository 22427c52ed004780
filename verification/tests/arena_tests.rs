use unialloc::cache::RustAllocator;
use unialloc::error::AllocError;
use unialloc::sc::{BumpAlloc, MetaBumpAlloc, MetaLayout};

#[test]
fn arena_counts_down() {
    let mut arena = BumpAlloc::new();
    assert_eq!(arena.allocate(16), Err(AllocError::ENOMEM));
    arena.refill(0x10_0000);
    assert_eq!((arena.start, arena.current), (0x10_0000, 0x410_0000));
    assert_eq!(arena.allocate(16), Ok(0x410_0000 - 16));
    assert_eq!(arena.allocate(0x400_0000), Err(AllocError::ENOMEM));
    assert_eq!(arena.allocate(0x400_0000 - 16), Ok(0x10_0000));
    // A used-up arena serves nothing, not even nothing.
    assert_eq!(arena.allocate(0), Err(AllocError::ENOMEM));
}

#[test]
fn arena_divides_a_fixed_range() {
    // 1024 pages need 1024 * 72 + 2048 + 8192 = 83968 bytes of records:
    // 21 pages.
    let start = 0x100_0000;
    let end = start + 1024 * 4096;
    assert!(BumpAlloc::can_divide(start, end, 4096));
    let mut arena = BumpAlloc::new();
    let layout = arena.init_with_range(start, end, 4096);
    assert_eq!(
        layout,
        MetaLayout {
            reserve_start: start + 21 * 4096,
            cache_record: start + 21 * 4096 - 2048,
            zone_record: start + 21 * 4096 - 2048 - 8192,
            records_end: start + 21 * 4096 - 2048 - 8192,
            records_start: start + 21 * 4096 - 2048 - 8192 - 1024 * 64,
            index: start + 21 * 4096 - 2048 - 8192 - 1024 * 64 - 1024 * 8,
        }
    );
    assert_eq!((arena.start, arena.current), (start, layout.index));
    assert_eq!(layout.index - start, 21 * 4096 - 83968);
    assert_eq!(arena.allocate(2048), Ok(layout.index - 2048));
    assert_eq!(arena.allocate(1), Err(AllocError::ENOMEM));
}

#[test]
fn arena_refuses_ranges_it_cannot_divide() {
    assert!(!BumpAlloc::can_divide(0x1000, 0x2000, 0));
    assert!(!BumpAlloc::can_divide(0x2000, 0x1000, 4096));
    assert!(!BumpAlloc::can_divide(0x1000, 0x1fff, 4096));
    // Two pages do not hold the records of two pages.
    assert!(!BumpAlloc::can_divide(0x1000, 0x3000, 4096));
    assert!(BumpAlloc::can_divide(0x1000, 0x4000, 4096));
    // The records of 2^20 pages are more than one arena holds.
    assert!(!BumpAlloc::can_divide(0x1000, 0x1000 + (1 << 32), 4096));
    assert!(!BumpAlloc::can_divide(0, usize::MAX, 4096));
    assert!(!BumpAlloc::can_divide(0, usize::MAX, usize::MAX));
}

#[test]
fn records_of_caches_come_back() {
    let mut meta = MetaBumpAlloc::new();
    assert_eq!(meta.allocate(100), Err(AllocError::ENOMEM));
    assert_eq!(meta.allocate(usize::MAX), Err(AllocError::ESIZE));
    let layout = meta.init_with_range(0x100_0000, 0x100_0000 + 64 * 4096, 4096);
    // 1536 bytes are left below the page index: less than one record.
    assert_eq!(layout.index, 0x100_0000 + 1536);
    assert_eq!(meta.allocate(100), Err(AllocError::ENOMEM));
    meta.bumper.refill(0x200_0000);
    let top = 0x600_0000;
    let a = meta.allocate(100).unwrap();
    let b = meta.allocate(2048).unwrap();
    let c = meta.allocate(2049).unwrap();
    assert_eq!((a, b, c), (top - 2048, top - 4096, top - 8192));
    meta.deallocate(a);
    meta.deallocate(b);
    // Two records do not come from the records that came back.
    assert_eq!(meta.allocate(4096), Ok(top - 12288));
    assert_eq!(meta.allocate(1), Ok(b));
    assert_eq!(meta.allocate(0), Ok(top - 12288));
    assert_eq!(meta.allocate(2048), Ok(a));
    assert_eq!(meta.allocate(2048), Ok(top - 12288 - 2048));
}

#[test]
fn reserve_grows_upward() {
    let mut heap = RustAllocator::new();
    assert_eq!(heap.extend(4096, 4096), Err(AllocError::ELAYOUT));
    assert_eq!(heap.init(0x4000_0000, 4096, 4096), Ok((0, 0)));
    assert_eq!(heap.allocate(256, 8), 0);
    assert_eq!(heap.extend(100, 4096), Err(AllocError::ELAYOUT));
    assert_eq!(heap.extend(4096, 8192), Err(AllocError::ELAYOUT));
    assert_eq!(heap.extend(usize::MAX - 4095, 4096), Err(AllocError::ELAYOUT));
    assert_eq!(heap.extend(4096, 4096), Ok(()));
    assert_eq!(heap.zone.backend.bump.current, 0x4000_0000);
    assert_eq!(heap.zone.backend.bump.check_point, 0x4000_2000);
    assert_eq!(heap.zone.slabs[23].pg_num, 2);
    assert_eq!(heap.allocate(256, 8), 0x4000_0000);
}
