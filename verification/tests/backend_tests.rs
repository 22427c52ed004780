use unialloc::collections::radix_tree::RadixTree;
use unialloc::error::AllocError;
use unialloc::freelist::bump::BumpAlloc;
use unialloc::freelist::FreeList;
use unialloc::page::PageBumpAlloc;

const PG: usize = 4096;
const BASE: usize = 0x4000_0000;

fn backend(pages: usize) -> (FreeList, RadixTree) {
    let rd = RadixTree::new();
    let mut fl = FreeList::new();
    assert_eq!(fl.init_with_range(BASE, BASE + pages * PG, &rd), Ok((0, 0)));
    (fl, rd)
}

fn run_count(fl: &FreeList) -> usize {
    fl.lists.iter().map(|l| l.len()).sum()
}

#[test]
fn bump_allocator_hands_out_whole_pages() {
    let mut bump = BumpAlloc::new();
    assert_eq!(bump.allocate(1), Err(AllocError::ENOMEM));
    bump.init_with_range(0x10000, 0x13000);
    assert_eq!(bump.allocate(1), Ok(0x10000));
    assert_eq!(bump.allocate(4097), Ok(0x11000));
    assert_eq!(bump.allocate(1), Err(AllocError::ENOMEM));
    assert_eq!(bump.current, 0x13000);
    assert_eq!(bump.extend_with_range(0x1000), 0x14000);
    assert_eq!(bump.allocate(4096), Ok(0x13000));
    assert_eq!(bump.allocate(usize::MAX), Err(AllocError::ESIZE));
}

#[test]
fn page_bump_allocator_counts_down() {
    let mut bump = PageBumpAlloc::new();
    assert_eq!(bump.allocate(40), None);
    bump.init_with_range(0x1000, 0x1050);
    assert_eq!(bump.allocate(40), Some(0x1028));
    assert_eq!(bump.allocate(40), Some(0x1000));
    assert_eq!(bump.allocate(40), None);
    assert_eq!(bump.try_extend(0x0f10, 0x0fff, 0x100), Err(()));
    assert_eq!(bump.try_extend(0x0f10, 0x1000, 0x100), Ok(()));
    assert_eq!(bump.start, 0x0f00);
}

#[test]
fn backend_rejects_bad_sizes_and_ranges() {
    let rd = RadixTree::new();
    let mut fl = FreeList::new();
    let mut rd2 = RadixTree::new();
    assert_eq!(fl.alloc_pages(0, &mut rd2), Err(AllocError::ESIZE));
    assert_eq!(fl.alloc_pages(usize::MAX, &mut rd2), Err(AllocError::ESIZE));
    assert_eq!(fl.alloc_pages(1, &mut rd2), Err(AllocError::ENOMEM));
    assert_eq!(fl.init_with_range(BASE + 1, BASE + PG, &rd), Err(AllocError::ELAYOUT));
    assert_eq!(fl.init_with_range(0, PG, &rd), Err(AllocError::ELAYOUT));
    assert_eq!(fl.init_with_range(BASE, BASE - PG, &rd), Err(AllocError::ELAYOUT));
    assert_eq!(fl.init_with_range(1 << 48, (1 << 48) + PG, &rd), Err(AllocError::ELAYOUT));
    assert_eq!(fl.init_with_range(BASE, BASE + PG, &rd), Ok((0, 0)));
    assert_eq!(fl.init_with_range(BASE + 16 * PG, BASE + 32 * PG, &rd), Ok((BASE, PG)));
}

#[test]
fn backend_takes_from_reserve_then_from_lists() {
    let (mut fl, mut rd) = backend(16);
    let a = fl.alloc_pages(1, &mut rd).unwrap();
    let b = fl.alloc_pages(2 * PG, &mut rd).unwrap();
    let c = fl.alloc_pages(PG, &mut rd).unwrap();
    assert_eq!((a, b, c), (BASE, BASE + PG, BASE + 3 * PG));
    // A freed run carries its mark at both ends and no tag between them.
    assert_eq!(fl.free_pages(b, 2 * PG, &mut rd), None);
    assert_eq!(fl.lists[1], vec![b]);
    assert_eq!(rd.lookup((b / PG) as u64), -2);
    assert_eq!(rd.lookup((b / PG) as u64 + 1), -2);
    // An exact fit comes from the list of its length.
    assert_eq!(fl.alloc_pages(2 * PG, &mut rd), Ok(b));
    assert_eq!(rd.lookup((b / PG) as u64), 0);
    assert_eq!(rd.lookup((b / PG) as u64 + 1), 0);
    assert_eq!(run_count(&fl), 0);
}

#[test]
fn backend_splits_longer_run() {
    let (mut fl, mut rd) = backend(16);
    let a = fl.alloc_pages(5 * PG, &mut rd).unwrap();
    let guard = fl.alloc_pages(PG, &mut rd).unwrap();
    assert_eq!(guard, a + 5 * PG);
    assert_eq!(fl.free_pages(a, 5 * PG, &mut rd), None);
    assert_eq!(fl.lists[4], vec![a]);
    // Two pages come off the front; the three that are left go back.
    assert_eq!(fl.alloc_pages(2 * PG, &mut rd), Ok(a));
    assert_eq!(fl.lists[4], Vec::<usize>::new());
    assert_eq!(fl.lists[2], vec![a + 2 * PG]);
    assert_eq!(rd.lookup((a / PG) as u64 + 2), -3);
    assert_eq!(rd.lookup((a / PG) as u64 + 3), 0);
    assert_eq!(rd.lookup((a / PG) as u64 + 4), -3);
}

#[test]
fn backend_lists_are_lifo() {
    let (mut fl, mut rd) = backend(16);
    let a = fl.alloc_pages(PG, &mut rd).unwrap();
    let _g1 = fl.alloc_pages(PG, &mut rd).unwrap();
    let b = fl.alloc_pages(PG, &mut rd).unwrap();
    let _g2 = fl.alloc_pages(PG, &mut rd).unwrap();
    assert_eq!(fl.free_pages(a, PG, &mut rd), None);
    assert_eq!(fl.free_pages(b, PG, &mut rd), None);
    assert_eq!(fl.lists[0], vec![a, b]);
    assert_eq!(fl.alloc_pages(PG, &mut rd), Ok(b));
    assert_eq!(fl.alloc_pages(PG, &mut rd), Ok(a));
}

#[test]
fn backend_coalesces_with_both_neighbours() {
    let (mut fl, mut rd) = backend(16);
    let a = fl.alloc_pages(PG, &mut rd).unwrap();
    let b = fl.alloc_pages(PG, &mut rd).unwrap();
    let c = fl.alloc_pages(PG, &mut rd).unwrap();
    assert_eq!(fl.free_pages(a, PG, &mut rd), None);
    assert_eq!(fl.free_pages(c, PG, &mut rd), None);
    assert_eq!(run_count(&fl), 2);
    assert_eq!(fl.free_pages(b, PG, &mut rd), None);
    // After every page has come back the backend holds one run.
    assert_eq!(run_count(&fl), 1);
    assert_eq!(fl.lists[2], vec![a]);
    assert_eq!(rd.lookup((a / PG) as u64), -3);
    assert_eq!(rd.lookup((a / PG) as u64 + 1), 0);
    assert_eq!(rd.lookup((a / PG) as u64 + 2), -3);
}

#[test]
fn backend_coalescing_any_order() {
    let (mut fl, mut rd) = backend(64);
    let mut runs = Vec::new();
    for n in [1usize, 3, 2, 7, 1, 4] {
        runs.push((fl.alloc_pages(n * PG, &mut rd).unwrap(), n));
    }
    for i in [3usize, 0, 5, 1, 4, 2] {
        let (a, n) = runs[i];
        assert_eq!(fl.free_pages(a, n * PG, &mut rd), None);
    }
    assert_eq!(run_count(&fl), 1);
    assert_eq!(fl.lists[17], vec![BASE]);
}

#[test]
fn backend_releases_run_longer_than_lists_hold() {
    let (mut fl, mut rd) = backend(300);
    let a = fl.alloc_pages(100 * PG, &mut rd).unwrap();
    let b = fl.alloc_pages(29 * PG, &mut rd).unwrap();
    assert_eq!(fl.free_pages(a, 100 * PG, &mut rd), None);
    assert_eq!(fl.lists[99], vec![a]);
    // 100 + 29 pages are more than a list holds: the whole run leaves.
    assert_eq!(fl.free_pages(b, 29 * PG, &mut rd), Some((a, 129 * PG)));
    assert_eq!(run_count(&fl), 0);
    assert_eq!(rd.lookup((a / PG) as u64), 0);
    assert_eq!(rd.lookup((a / PG) as u64 + 99), 0);
    // A run of just 128 pages stays.
    let c = fl.alloc_pages(128 * PG, &mut rd).unwrap();
    assert_eq!(fl.free_pages(c, 128 * PG, &mut rd), None);
    assert_eq!(fl.lists[127], vec![c]);
    // The lists serve no request of more pages than they hold, and the
    // reserve has 43 left.
    assert_eq!(fl.alloc_pages(129 * PG, &mut rd), Err(AllocError::ENOMEM));
    assert_eq!(fl.alloc_pages(43 * PG, &mut rd), Ok(c));
    assert_eq!(fl.lists[84], vec![c + 43 * PG]);
    assert_eq!(fl.alloc_pages(86 * PG, &mut rd), Err(AllocError::ENOMEM));
}

#[test]
fn backend_primitives() {
    let (mut fl, mut rd) = backend(16);
    let a = fl.alloc_pages(4 * PG, &mut rd).unwrap();
    let _guard = fl.alloc_pages(PG, &mut rd).unwrap();
    assert_eq!(fl.remove_one(3, &mut rd), None);
    fl.insert_one(3, a, &mut rd);
    assert_eq!(rd.lookup((a / PG) as u64), -4);
    assert_eq!(fl.remove_spec_one(3, a + PG, &mut rd), None);
    assert_eq!(fl.remove_spec_one(2, a, &mut rd), None);
    assert_eq!(fl.remove_spec_one(3, a, &mut rd), Some(a));
    assert_eq!(rd.lookup((a / PG) as u64), 0);
    fl.insert_one(3, a, &mut rd);
    assert_eq!(fl.merge_next(a - PG, 0 + 1, &mut rd), 4);
    assert_eq!(run_count(&fl), 0);
    fl.insert_one(1, a, &mut rd);
    assert_eq!(fl.merge_prev(a + 2 * PG, 2, &mut rd), 2);
    assert_eq!(fl.take_from_lists(1, &mut rd), None);
    assert_eq!(fl.take_from_reserve(PG, &rd), Ok(a + 5 * PG));
    assert_eq!(fl.remove_one(0, &mut rd), None);
}

#[test]
fn mod_it_works() {
    let (mut fl, mut rd) = backend(16);
    let ptr = fl.alloc_pages(4095, &mut rd).unwrap();
    let ptr2 = fl.alloc_pages(4095, &mut rd).unwrap();
    fl.free_pages(ptr, 4095, &mut rd);
    fl.free_pages(ptr2, 4095, &mut rd);
    let ptr3 = fl.alloc_pages(4095, &mut rd).unwrap();
    let ptr4 = fl.alloc_pages(4095, &mut rd).unwrap();
    assert_ne!(ptr3, ptr4)
}

#[test]
fn backend_split_leaves_the_rest_at_the_head_of_its_list() {
    let (mut fl, mut rd) = backend(32);
    let a = fl.alloc_pages(3 * PG, &mut rd).unwrap();
    let _g1 = fl.alloc_pages(PG, &mut rd).unwrap();
    let b = fl.alloc_pages(8 * PG, &mut rd).unwrap();
    let _g2 = fl.alloc_pages(PG, &mut rd).unwrap();
    let c = fl.alloc_pages(8 * PG, &mut rd).unwrap();
    let _g3 = fl.alloc_pages(PG, &mut rd).unwrap();
    fl.free_pages(a, 3 * PG, &mut rd);
    fl.free_pages(b, 8 * PG, &mut rd);
    fl.free_pages(c, 8 * PG, &mut rd);
    let reserve = fl.bump.current;
    // Five pages come from the head of the shortest list that holds them:
    // the run that came back last. Its other three go behind the run that
    // the list of three already holds.
    assert_eq!(fl.alloc_pages(5 * PG, &mut rd), Ok(c));
    assert_eq!(fl.lists[7], vec![b]);
    assert_eq!(fl.lists[2], vec![a, c + 5 * PG]);
    assert_eq!(rd.lookup((c / PG) as u64 + 5), -3);
    assert_eq!(rd.lookup((c / PG) as u64 + 7), -3);
    assert_eq!(rd.lookup((c / PG) as u64), 0);
    assert_eq!(fl.bump.current, reserve);
    // Nine pages are more than any run holds: they come from the reserve.
    assert_eq!(fl.alloc_pages(9 * PG, &mut rd), Ok(reserve));
    assert_eq!(fl.bump.current, reserve + 9 * PG);
    assert_eq!(fl.lists[7], vec![b]);
    assert_eq!(fl.lists[2], vec![a, c + 5 * PG]);
}
