use unialloc::collections::radix_tree::RadixTree;
use unialloc::error::AllocError;
use unialloc::freelist::FreeList;
use unialloc::page::separate_page::WORD_FULL;
use unialloc::page::ObjectPage;

const BASE: usize = 0x4000_0000;

fn page() -> (ObjectPage, Vec<u32>) {
    let mut page = ObjectPage::new();
    page.data = BASE;
    // 102 cells of 40 bytes in one page: four words of the bitmap.
    (page, vec![0u32; 4])
}

#[test]
fn bitmap_page_takes_the_first_cell_that_fits() {
    let (mut page, mut bits) = page();
    assert_eq!(page.first_fit(BASE, 8, &mut bits, 102, 40, 1), Some((0, BASE)));
    assert_eq!(page.first_fit(BASE, 8, &mut bits, 102, 40, 1), Some((1, BASE + 40)));
    // Cell 2 lies at an odd multiple of 16, cell 4 at a multiple of 32.
    assert_eq!(page.first_fit(BASE, 32, &mut bits, 102, 40, 1), Some((4, BASE + 160)));
    assert_eq!(page.first_fit(BASE, 8, &mut bits, 102, 40, 1), Some((2, BASE + 80)));
    assert_eq!(bits, vec![0b10111, 0, 0, 0]);
    // The search does not touch the counter.
    assert_eq!(page.counter, 0);
    assert!(ObjectPage::test(&bits, 0, 4));
    assert!(!ObjectPage::test(&bits, 0, 3));
}

#[test]
fn bitmap_page_search_stops_at_the_end_of_the_run() {
    let (mut page, mut bits) = page();
    bits[0] = WORD_FULL;
    bits[1] = WORD_FULL;
    bits[2] = WORD_FULL;
    bits[3] = 0b11_1111 & !0b10_0000;
    // Cell 101 is the last one that ends inside the page.
    assert_eq!(page.first_fit(BASE, 8, &mut bits, 102, 40, 1), Some((101, BASE + 4040)));
    assert_eq!(page.first_fit(BASE, 8, &mut bits, 102, 40, 1), None);
    assert_eq!(bits[3], 0b11_1111);
    // With two pages the run has room, but the run has no cell after
    // cell 101.
    assert_eq!(page.first_fit(BASE, 8, &mut bits, 102, 40, 2), None);
    assert_eq!(page.first_fit(BASE, 8, &mut bits, 103, 40, 2), Some((102, BASE + 4080)));
    // No cell fits an alignment that no address of the run has.
    let (mut page, mut bits) = page2();
    assert_eq!(page.first_fit(BASE + 8, 4096, &mut bits, 102, 40, 1), None);
    assert_eq!(bits, vec![0, 0, 0, 0]);
}

fn page2() -> (ObjectPage, Vec<u32>) {
    page()
}

#[test]
fn bitmap_page_counts_its_cells() {
    let (mut page, mut bits) = page();
    assert_eq!(page.allocate(8, &mut bits, 3, 40, 1), BASE);
    assert_eq!(page.allocate(8, &mut bits, 3, 40, 1), BASE + 40);
    assert_eq!(page.allocate(8, &mut bits, 3, 40, 1), BASE + 80);
    // Three cells are the run: the fourth request fails.
    assert!(page.is_full(3));
    assert_eq!(page.allocate(8, &mut bits, 3, 40, 1), 0);
    assert_eq!((page.counter, bits[0]), (3, 0b111));
    assert_eq!(page.deallocate(BASE + 40, &mut bits, 40), Ok(()));
    assert_eq!((page.counter, bits[0]), (2, 0b101));
    // A cell that is not handed out cannot come back.
    assert_eq!(page.deallocate(BASE + 40, &mut bits, 40), Err(AllocError::EDBFRE));
    assert_eq!(page.deallocate(BASE + 47, &mut bits, 40), Err(AllocError::EDBFRE));
    assert_eq!(page.deallocate(BASE + 120, &mut bits, 40), Err(AllocError::EDBFRE));
    assert_eq!((page.counter, bits[0]), (2, 0b101));
    assert_eq!(page.allocate(8, &mut bits, 3, 40, 1), BASE + 40);
    assert_eq!(page.deallocate(BASE, &mut bits, 40), Ok(()));
    assert_eq!(page.deallocate(BASE + 80, &mut bits, 40), Ok(()));
    assert_eq!(page.deallocate(BASE + 40, &mut bits, 40), Ok(()));
    assert!(page.is_empty());
    assert_eq!(bits, vec![0, 0, 0, 0]);
}

#[test]
fn bitmap_page_hands_out_all_cells_at_once() {
    let (mut page, mut bits) = page();
    assert_eq!(page.allocate_all(&mut bits, 102), BASE);
    assert_eq!(page.counter, 102);
    assert_eq!(bits, vec![WORD_FULL; 4]);
    assert_eq!(page.allocate(8, &mut bits, 102, 40, 1), 0);
}

#[test]
fn bitmap_page_batches() {
    let (mut page, mut bits) = page();
    bits[0] = 0b1010;
    page.counter = 2;
    let mut res = vec![0usize; 8];
    // The free cells 0, 2, 4 and 5 go out in the order of their numbers.
    assert_eq!(page.allocate_batch(&mut res, 2, 4, &mut bits, 102, 40), 4);
    assert_eq!(res, vec![0, 0, BASE, BASE + 80, BASE + 160, BASE + 200, 0, 0]);
    assert_eq!((page.counter, bits[0]), (6, 0b11_1111));
    // A request for none takes one all the same.
    assert_eq!(page.allocate_batch(&mut res, 7, 0, &mut bits, 102, 40), 1);
    assert_eq!(res[7], BASE + 240);
    // Only the cells below the count go out.
    let mut rest = vec![0usize; 200];
    assert_eq!(page.allocate_batch(&mut rest, 0, 200, &mut bits, 102, 40), 95);
    assert_eq!(page.counter, 102);
    assert_eq!(rest[0], BASE + 280);
    assert_eq!(rest[94], BASE + 101 * 40);
    assert_eq!(rest[95], 0);
    assert_eq!(bits[3], 0b11_1111);
    // The cells come back up to the first address that is not of the run.
    let back = vec![BASE + 80, BASE, BASE + 4096, BASE + 40];
    assert_eq!(page.deallocate_batch(&back, &mut bits, 40, 1), 2);
    assert_eq!((page.counter, bits[0]), (100, WORD_FULL & !0b101));
    assert_eq!(page.deallocate_batch(&vec![BASE - 8, BASE + 40], &mut bits, 40, 1), 0);
    assert_eq!(page.deallocate_batch(&Vec::new(), &mut bits, 40, 1), 0);
    assert_eq!(page.counter, 100);
    assert!(ObjectPage::lies_in(BASE, 1, BASE + 4095));
    assert!(!ObjectPage::lies_in(BASE, 1, BASE + 4096));
}

#[test]
fn bitmap_page_gets_its_run_from_the_backend() {
    let mut rd = RadixTree::new();
    let mut backend = FreeList::new();
    assert_eq!(backend.init_with_range(BASE, BASE + 8 * 4096, &rd), Ok((0, 0)));
    let mut page = ObjectPage::new();
    assert_eq!(page.allocate_page(16, &mut backend, &mut rd), Err(AllocError::ENOMEM));
    assert!(!page.is_inited());
    assert_eq!(page.allocate_page(2, &mut backend, &mut rd), Ok(BASE));
    assert!(page.is_inited());
    assert_eq!(page.get_data_ptr(), BASE);
    assert_eq!(page.destroy_page(2, &mut backend, &mut rd), (BASE, None));
    assert!(!page.is_inited());
    assert_eq!(backend.lists[1], vec![BASE]);
    let mut bits = vec![0u32; 1];
    ObjectPage::mark(&mut bits, 0, 31);
    ObjectPage::mark(&mut bits, 0, 0);
    assert_eq!(bits[0], 0x8000_0001);
    ObjectPage::clear(&mut bits, 0, 31);
    ObjectPage::clear(&mut bits, 0, 7);
    assert_eq!(bits[0], 1);
}
