use unialloc::buddy_system::buddy::{blocks_in_level, blocks_in_tree, left_child, parent, Block, BLOCKS_IN_TREE};
use unialloc::buddy_system::consts::LEVEL_COUNT;
use unialloc::buddy_system::heap::{log2, next_page_size, BuddySystem};
use unialloc::cache::cpu_cache::Header;
use unialloc::collections::linklist::{ArrayLinkedList, Linkedlist};
use unialloc::error::AllocError;
use unialloc::mm::linklist::Linklist;
use unialloc::pal::sys_alloc::{get_prot, PageHeap, PageHeapBuilder};

type Buddy = BuddySystem<12, 22>;

#[test]
fn linux_utility_test() {
    // order
    assert_eq!(Buddy::order(0x100), 0);
    assert_eq!(Buddy::order(0x1000), 0);
    assert_eq!(Buddy::order(0x2000), 1);
    assert_eq!(Buddy::order(0x3000), 2);
    assert_eq!(Buddy::order(0x4000), 2);
    assert_eq!(Buddy::order(0x40000000), 18);
    assert_eq!(Buddy::order(2usize.pow(31)), 19);

    assert_eq!(next_page_size(0x900), 0x1000);
    assert_eq!(next_page_size(5000), 8192);
    assert_eq!(next_page_size(0x2000), 0x2000);

    // calculate size by levels
    assert_eq!(2usize.pow(30), Buddy::get_heap_size_by_level(19) as usize);

    // heap size
    assert_eq!(Buddy::heap_size() as usize, 2usize.pow(12 + 22));
}

#[test]
fn tree_size() {
    assert_eq!(blocks_in_tree(19), 0x7ffff);
    assert_eq!(Buddy::tree_size(), 2usize.pow(LEVEL_COUNT as u32) - 1);
    // we can directly calculate the size of `tree` according to the level
    assert_eq!(blocks_in_tree(30), 2usize.pow(30) - 1);
}

#[test]
fn header_size_test() {
    let hdr = Header::new(0x12, 0x23, 0x45, 0x67);
    assert_eq!(0x0067004500230012u64, hdr.to_word());
}

#[test]
fn freelist_push_pop_test() {
    let mut list = Linklist::new();
    println!("list length: {}", list.length());
    let mock_chunk = 0xdeadbeefusize;
    let mock_chunk2 = 0xcafeusize;
    list.push_unchecked(mock_chunk);
    assert_eq!(list.link(), mock_chunk);
    list.push_unchecked(mock_chunk2);
    assert_eq!(list.pop_unchecked_aligned(1), Some(mock_chunk2));
    assert_eq!(list.pop_unchecked_aligned(1), Some(mock_chunk));
    assert_eq!(list.pop_unchecked_aligned(1), None);
}

#[test]
fn struct_addr_test() {
    let list = Linklist::new();
    println!("hello: 0x{:x}", list.link());
}

#[test]
fn align_test() {
    assert_eq!(4 * core::mem::size_of::<u64>(), 32);
}

#[test]
fn linklist_pops_nearest_aligned_cell() {
    let mut list = Linklist::new();
    for cell in [0x1000usize, 0x1008, 0x1010, 0x1018] {
        list.push_unchecked(cell);
    }
    assert_eq!(list.length(), 4);
    assert_eq!(list.pop_unchecked_aligned(16), Some(0x1010));
    assert_eq!(list.cells, vec![0x1000, 0x1008, 0x1018]);
    assert_eq!(list.pop_unchecked_aligned(32), Some(0x1000));
    assert_eq!(list.pop_unchecked_aligned(16), None);
    assert_eq!(list.cells, vec![0x1008, 0x1018]);
    assert_eq!(list.link(), 0x1018);
}

#[test]
fn header_round_trip_and_lock() {
    let mut hdr = Header::from_word(0x0004_0003_0002_0001);
    assert_eq!(hdr.inner_values(), (1, 2, 3, 4));
    assert_eq!(Header::from_word(hdr.to_word()), hdr);
    assert!(!hdr.is_locked());
    hdr.lock();
    assert!(hdr.is_locked());
    assert_eq!(hdr.inner_values(), (1, 2, 0xffff, 0));
    assert_eq!(Header::locked_header().to_word(), 0x0000_ffff_0000_0000);
    assert_eq!(Header::new(0x1_0005, 0, 0, 0).current, 5);
}

#[test]
fn buddy_tree_arithmetic() {
    assert_eq!(BLOCKS_IN_TREE, blocks_in_tree(LEVEL_COUNT));
    assert_eq!(blocks_in_level(0), 1);
    assert_eq!(blocks_in_level(5), 32);
    assert_eq!(left_child(3), 6);
    assert_eq!(parent(7), 3);
    assert_eq!(Block::new_free(4).order_free, 5);
    assert_eq!(Block::new_used().order_free, 0);
    assert_eq!(log2(1), 0);
    assert_eq!(log2(2), 1);
    assert_eq!(log2(3), 2);
    assert_eq!(log2(4096), 12);
    assert_eq!(log2(4097), 13);
    assert_eq!(Buddy::order_checked(0x2000), Some(1));
    assert_eq!(Buddy::order_u32(0x3000), 2);
}

#[test]
fn error_codes() {
    assert_eq!(AllocError::ENOMEM.to_raw_errno(), -1);
    assert_eq!(AllocError::EDBFRE.to_raw_errno(), -2);
    assert_eq!(AllocError::EUAF.to_raw_errno(), -3);
    assert_eq!(AllocError::ELAYOUT.to_raw_errno(), -4);
    assert_eq!(AllocError::ESIZE.to_raw_errno(), -5);
    assert_eq!(AllocError::EOOB.to_raw_errno(), -6);
    assert_eq!(AllocError::ECPU.to_raw_errno(), -7);
    assert_eq!(AllocError::EFATAL.to_raw_errno(), -8);
}

#[test]
fn arr_linklist_new() {
    let l = ArrayLinkedList::<usize>::new();
    assert_eq!(l.len(), 0);
}

#[test]
fn array_list_links_and_unlinks() {
    let mut l = ArrayLinkedList::<u32>::new();
    l.reserve(8);
    for item in [10u32, 11, 12, 13] {
        l.push(item);
    }
    assert_eq!((l.len(), l.tail()), (4, 3));
    assert_eq!(l.get(2), Some(&12));
    assert_eq!(l.get(4), None);
    // A new entry is its own neighbour.
    assert_eq!((l.get_prev(1), l.get_next(1)), (Ok(1), Ok(1)));
    // The ring 0 -> 2 -> 1 -> 0.
    l.insert_to_next(0, 1);
    l.insert_to_next(0, 2);
    assert_eq!((l.get_next(0), l.get_next(2), l.get_next(1)), (Ok(2), Ok(1), Ok(0)));
    assert_eq!((l.get_prev(0), l.get_prev(2), l.get_prev(1)), (Ok(1), Ok(0), Ok(2)));
    // 3 goes before 0: 0 -> 2 -> 1 -> 3 -> 0.
    l.insert_to_prev(0, 3);
    assert_eq!((l.get_next(1), l.get_next(3), l.get_prev(0), l.get_prev(3)), (Ok(3), Ok(0), Ok(3), Ok(1)));
    l.remove_node(2);
    assert_eq!((l.get_next(0), l.get_prev(1)), (Ok(1), Ok(0)));
    assert_eq!((l.get_next(2), l.get_prev(2)), (Ok(2), Ok(2)));
    // The last entry leaves its ring when it leaves the vector.
    assert_eq!(l.pop(), Some(13));
    assert_eq!((l.get_next(1), l.get_prev(0)), (Ok(0), Ok(1)));
    assert_eq!(l.len(), 3);
    l.set_next(2, 0);
    l.set_prev(2, 1);
    assert_eq!((l.get_next(2), l.get_prev(2)), (Ok(0), Ok(1)));
    l.reset_links(2);
    assert_eq!((l.get_next(2), l.get_prev(2)), (Ok(2), Ok(2)));
}

#[test]
fn protections_are_those_of_the_system() {
    assert_eq!(get_prot(false, false, false), libc::PROT_NONE);
    assert_eq!(get_prot(true, false, false), libc::PROT_READ);
    assert_eq!(get_prot(false, true, false), libc::PROT_WRITE);
    assert_eq!(get_prot(false, false, true), libc::PROT_EXEC);
    assert_eq!(get_prot(true, true, false), libc::PROT_READ | libc::PROT_WRITE);
    assert_eq!(get_prot(true, false, true), libc::PROT_READ | libc::PROT_EXEC);
    assert_eq!(get_prot(false, true, true), libc::PROT_WRITE | libc::PROT_EXEC);
    assert_eq!(get_prot(true, true, true), libc::PROT_READ | libc::PROT_WRITE | libc::PROT_EXEC);
    let heap = PageHeapBuilder::default().build();
    assert_eq!(heap, PageHeap::default());
    assert_eq!(heap.prot(), 3);
    let closed = PageHeapBuilder { read: false, write: false, execute: false }.build();
    assert_eq!(closed.prot(), 0);
    assert!(PageHeap::serves(0x1000));
    assert!(!PageHeap::serves(0));
    assert!(!PageHeap::serves(0x1001));
}

#[test]
fn sys_alloc_it_works() {
    let layout_size = 0x1000;
    let page_allocator = PageHeap::default();
    // A page is what the system serves, with the protection of writable memory.
    assert!(PageHeap::serves(layout_size));
    assert_eq!(page_allocator.prot(), libc::PROT_READ | libc::PROT_WRITE);
}
