use std::collections::BTreeSet;

use unialloc::buddy_system::buddy::{blocks_in_level, BLOCKS_IN_TREE};
use unialloc::buddy_system::heap::{BuddySystem, Regrown};
use unialloc::buddy_system::tree::BuddyTree;

type Buddy = BuddySystem<12, 22>;

const HEAP_START: usize = 0x1000_0000_0000;
const TREE_START: usize = 0x2000_0000_0000;

#[test]
fn test_lazy_buddy_system() {
    let mut lzbs = Buddy::new_with_start(HEAP_START, TREE_START);
    for _ in 0..10 {
        let ptr = lzbs.allocate(2usize.pow(12), 8);
        assert_ne!(ptr, 0, "cannot allocate from buddy");
    }
}

#[test]
fn heap_it_works() {
    let heap_start = HEAP_START;
    let mut bs = Buddy::new_with_start(heap_start, TREE_START);

    // allocation
    let ptr0 = bs.allocate(2usize.pow(12), 8);
    assert_eq!(ptr0, heap_start, "{:x} vs {:x}", ptr0, heap_start);

    // deallocation
    bs.deallocate(ptr0, 2usize.pow(12));
}

#[test]
fn allocation() {
    let heap_start = HEAP_START;
    let mut bs = Buddy::new_with_start(heap_start, TREE_START);

    // allocate 0x2000
    let size = 2usize.pow(13);
    let ptr0 = bs.allocate(size, 8) - heap_start;
    let ptr1 = bs.allocate(size, 8) - heap_start;
    let ptr2 = bs.allocate(size, 8) - heap_start;
    let ptr3 = bs.allocate(size, 8) - heap_start;

    assert_eq!(ptr0, 0, "ptr0: 0x{:x}", ptr0);
    assert_eq!(ptr1, 0x2000, "ptr1: 0x{:x}", ptr1);
    assert_eq!(ptr2, 0x4000, "ptr2: 0x{:x}", ptr2);
    assert_eq!(ptr3, 0x6000, "ptr3: 0x{:x}", ptr3);

    bs.deallocate(ptr2 + heap_start, size);
    bs.deallocate(ptr3 + heap_start, size);

    let ptr4 = bs.allocate(2usize.pow(14), 8) - heap_start;
    assert_eq!(ptr4, 0x4000, "ptr4: 0x{:x}", ptr4);
}

#[test]
fn oom_allocation() {
    let mut bs = Buddy::new_with_start(HEAP_START, TREE_START);
    let heap_size = Buddy::heap_size() as usize;

    // oom allocation
    let ptr0 = bs.allocate(heap_size.checked_mul(2).expect(""), 8);
    assert_eq!(ptr0, 0);

    // max allocation
    let ptr0 = bs.allocate(heap_size, 8);
    let ptr_before = ptr0;
    assert_ne!(ptr0, 0);

    // deallocation
    bs.deallocate(ptr0, heap_size);
    let ptr0 = bs.allocate(heap_size, 8);
    assert_ne!(ptr0, 0);
    assert_eq!(ptr0, ptr_before);
}

#[test]
fn memory_exhaustion_test() {
    let mut bs = Buddy::new_with_start(HEAP_START, TREE_START);

    let max_blocks = blocks_in_level(22);
    let mut seen = BTreeSet::new();

    for i in 0..max_blocks {
        let addr = bs.allocate(2usize.pow(12), 8);

        if addr == 0 {
            panic!("0x{:x}th block cannot be allocated, MAX: 0x{:x}", i, BLOCKS_IN_TREE);
        }

        if seen.contains(&addr) {
            panic!("Allocator (addr: 0x{:x})", addr);
        } else {
            seen.insert(addr);
        }
    }
    // The heap is used up.
    assert_eq!(bs.allocate(1, 8), 0);
}

#[test]
fn test_initializer() {
    let mut bs = Buddy::new_with_start(HEAP_START, TREE_START);
    let ptr = bs.allocate(2usize.pow(12), 8);
    assert_ne!(ptr, 0);
}

#[test]
fn test_buddy_zst() {
    let mut bsa = Buddy::new_with_start(HEAP_START, TREE_START);
    let addr = bsa.allocate(2usize.pow(12), 8);
    assert_ne!(addr, 0, "ALlocation failed: (return value: 0x{:x})", addr);
    bsa.deallocate(addr, 2usize.pow(12));
}

#[test]
fn buddy_tree_splits_and_joins() {
    let mut tree: BuddyTree<12, 3> = BuddyTree::new();
    // Fifteen nodes: the root holds 4, the leaves 1.
    let held: Vec<u8> = tree.flat_blocks.iter().map(|b| b.order_free).collect();
    assert_eq!(held, vec![4, 3, 3, 2, 2, 2, 2, 1, 1, 1, 1, 1, 1, 1, 1]);
    assert_eq!(tree.allocate(0), Some(0));
    let held: Vec<u8> = tree.flat_blocks.iter().map(|b| b.order_free).collect();
    assert_eq!(held, vec![3, 2, 3, 1, 2, 2, 2, 0, 1, 1, 1, 1, 1, 1, 1]);
    assert_eq!(tree.allocate(1), Some(0x2000));
    assert_eq!(tree.allocate(0), Some(0x1000));
    assert_eq!(tree.allocate(2), Some(0x4000));
    // Nothing of order 2 is left, and nothing at all of order 3.
    assert_eq!(tree.allocate(2), None);
    assert_eq!(tree.allocate(3), None);
    let held: Vec<u8> = tree.flat_blocks.iter().map(|b| b.order_free).collect();
    assert_eq!(held, vec![0, 0, 0, 0, 0, 2, 2, 0, 0, 1, 1, 1, 1, 1, 1]);
    // The two blocks of order 0 join when both are back, and then join
    // their buddy of order 1.
    tree.deallocate(0x1000, 0);
    assert_eq!(tree.flat_blocks[0].order_free, 1);
    tree.deallocate(0, 0);
    assert_eq!(tree.flat_blocks[3].order_free, 2);
    assert_eq!(tree.flat_blocks[1].order_free, 2);
    tree.deallocate(0x2000, 1);
    assert_eq!(tree.flat_blocks[1].order_free, 3);
    assert_eq!(tree.flat_blocks[0].order_free, 3);
    tree.deallocate(0x4000, 2);
    let held: Vec<u8> = tree.flat_blocks.iter().map(|b| b.order_free).collect();
    assert_eq!(held, vec![4, 3, 3, 2, 2, 2, 2, 1, 1, 1, 1, 1, 1, 1, 1]);
    assert_eq!(BuddyTree::<12, 3>::locate(0x5fff, 0), 13);
    assert_eq!(BuddyTree::<12, 3>::locate(0x5fff, 2), 3);
    assert_eq!(BuddyTree::<12, 3>::blocks_in_level(3), 8);
    tree.update_block(1, 3);
    tree.update_blocks_above(9, 0);
    assert_eq!(tree.flat_blocks[0].order_free, 4);
}

#[test]
fn buddy_system_rounds_to_pages_and_orders() {
    let mut bs: BuddySystem<12, 4> = BuddySystem::new_with_start(0x10_0000, 0);
    // No byte and one byte take a page; a page and a byte take two.
    assert_eq!(bs.allocate(0, 1), 0x10_0000);
    assert_eq!(bs.allocate(1, 1), 0x10_1000);
    assert_eq!(bs.allocate(4097, 1), 0x10_2000);
    // Three pages take a block of four.
    assert_eq!(bs.allocate(3 * 4096, 1), 0x10_4000);
    assert_eq!(bs.allocate(8 * 4096, 1), 0x10_8000);
    assert_eq!(bs.allocate(4096, 1), 0);
    assert_eq!(bs.allocate(usize::MAX, 1), 0);
    assert_eq!(bs.allocate(17 * 4096, 1), 0);
    // The same pages: the block stays.
    assert_eq!(bs.reallocate(0x10_2000, 4097, 8192, 1), Regrown { ptr: 0x10_2000, copy: 0 });
    // No room for a larger one: the block stays with its user.
    assert_eq!(bs.reallocate(0x10_2000, 4097, 8193, 1), Regrown { ptr: 0, copy: 0 });
    bs.deallocate(0x10_8000, 8 * 4096);
    assert_eq!(bs.reallocate(0x10_2000, 4097, 8193, 1), Regrown { ptr: 0x10_8000, copy: 4097 });
    assert_eq!(bs.reallocate(0x10_8000, 8193, 100, 1), Regrown { ptr: 0x10_2000, copy: 100 });
    bs.deallocate(0, 4096);
    bs.deallocate(0x10_0000, usize::MAX);
    assert_eq!(bs.allocate(4096, 1), 0x10_3000);
}

#[test]
fn buddy_system_knows_its_blocks() {
    let mut bs: BuddySystem<12, 4> = BuddySystem::new_with_start(0x10_0000, 0);
    assert!(!bs.is_outstanding(0x10_0000, 4096));
    let a = bs.allocate(2 * 4096, 1);
    let b = bs.allocate(4096, 1);
    assert_eq!((a, b), (0x10_0000, 0x10_2000));
    assert!(bs.is_outstanding(a, 2 * 4096));
    assert!(bs.is_outstanding(a, 4097));
    assert!(bs.is_outstanding(b, 1));
    // The halves of a block, and the block above it, are no blocks of users.
    assert!(!bs.is_outstanding(a, 4096));
    assert!(!bs.is_outstanding(a + 4096, 4096));
    assert!(!bs.is_outstanding(a, 4 * 4096));
    assert!(!bs.is_outstanding(a + 8, 2 * 4096));
    assert!(!bs.is_outstanding(b + 4096, 4096));
    assert!(!bs.is_outstanding(0x10_0000 - 4096, 4096));
    assert!(!bs.is_outstanding(0x10_0000 + 16 * 4096, 4096));
    assert!(!bs.is_outstanding(a, usize::MAX));
    assert!(!bs.is_outstanding(a, 32 * 4096));
    bs.deallocate(a, 2 * 4096);
    assert!(!bs.is_outstanding(a, 2 * 4096));
    assert!(bs.is_outstanding(b, 4096));
    assert!(bs.tree.is_taken(18));
    assert!(!bs.tree.is_taken(9));
    assert!(!bs.tree.is_taken(0));
    assert!(!bs.tree.is_taken(32));
}

#[test]
fn buddy_system_needs_a_heap_that_fits() {
    assert!(BuddySystem::<12, 22>::fits(HEAP_START));
    assert!(!BuddySystem::<12, 22>::fits(0));
    assert!(!BuddySystem::<12, 22>::fits(usize::MAX - (1 << 34) + 1));
    assert!(BuddySystem::<12, 22>::fits(usize::MAX - (1 << 34)));
    assert!(!BuddySystem::<12, 31>::fits(HEAP_START));
    assert!(!BuddySystem::<40, 30>::fits(HEAP_START));
    assert!(BuddySystem::<32, 30>::fits(HEAP_START));
}

#[test]
fn buddy_tree_shows_its_nodes() {
    let mut tree: BuddyTree<12, 2> = BuddyTree::new();
    assert_eq!(tree.block(0).order_free, 3);
    assert_eq!(tree.allocate(1), Some(0));
    assert_eq!(tree.block(0).order_free, 2);
    assert_eq!(tree.block(1).order_free, 0);
    assert_eq!(tree.block(6).order_free, 1);
}

#[test]
fn buddy_tree_takes_the_lowest_free_block() {
    let mut tree: BuddyTree<12, 3> = BuddyTree::new();
    for i in 0..8u64 {
        assert_eq!(tree.allocate(0), Some(i * 0x1000));
    }
    assert_eq!(tree.allocate(0), None);
    tree.deallocate(0x6000, 0);
    tree.deallocate(0x3000, 0);
    tree.deallocate(0x5000, 0);
    assert_eq!(tree.allocate(0), Some(0x3000));
    assert_eq!(tree.allocate(0), Some(0x5000));
    // Two free halves of different blocks make no block of order 1.
    tree.deallocate(0x1000, 0);
    tree.deallocate(0x2000, 0);
    assert_eq!(tree.allocate(1), None);
    tree.deallocate(0x7000, 0);
    assert_eq!(tree.allocate(1), Some(0x6000));
    assert_eq!(tree.allocate(0), Some(0x1000));
}
