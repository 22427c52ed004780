use unialloc::bitmap_alloc::bitmap::{CommutativeBitmap, CompressedSum, RawBitmap};
use unialloc::bitmap_alloc::bitmap_heap::AllocablePage4K;
use unialloc::bitmap_alloc::simd_bitmap::{ContBitmap512, SIMDBitmap512};

#[test]
fn bitmap_sanity() {
    let mut bmp = RawBitmap::<64>::new();
    assert_eq!(bmp.get_bit(12), false);
    bmp.set_bit(12);
    bmp.set_bit(3);
    assert_eq!(bmp.get_bit(3), true);
    assert_eq!(bmp.get_bit(12), true);

    let v = [0b00001000u8, 0b11110011];
    let bmp = RawBitmap::<2> { bits: v };

    assert_eq!(bmp.get_bit(3), true);
    assert_eq!(bmp.get_bit(8), true);
    assert_eq!(bmp.get_bit(9), true);
}

#[test]
fn compress_sum_test() {}

#[test]
fn bitmap_heap_sanity() {}

#[test]
fn simd_bitmap_sanity() {
    let mut b = SIMDBitmap512::new();
    let i = 64usize;

    assert_eq!(b.get(i), false);
    b.flip(i);
    assert_eq!(b.get(i), true);
    b.flip(511);

    assert_eq!(b.index_fs(), i as u64);
    assert_eq!(b.select(1), 511);
}

#[test]
fn raw_bitmap_unset_clears_one_bit() {
    let mut bmp = RawBitmap::<4>::new();
    bmp.set_bit(7);
    bmp.set_bit(8);
    bmp.set_bit(31);
    bmp.unset_bit(8);
    assert_eq!(bmp.get_bit(7), true);
    assert_eq!(bmp.get_bit(8), false);
    assert_eq!(bmp.get_bit(31), true);
    assert_eq!(bmp.bits, [0x80, 0x00, 0x00, 0x80]);
}

#[test]
fn simd_bitmap_counts_set_bits() {
    let mut b = SIMDBitmap512::new();
    assert_eq!(b.real_size(), 0);
    assert!(!b.is_full());
    for n in [0usize, 63, 64, 200, 511] {
        b.flip(n);
    }
    assert_eq!(b.real_size(), 5);
    assert_eq!(b.prefix_sum, [2, 3, 3, 4, 4, 4, 4, 5]);
    assert_eq!(b.select(0), 0);
    assert_eq!(b.select(1), 63);
    assert_eq!(b.select(2), 64);
    assert_eq!(b.select(3), 200);
    assert_eq!(b.select(4), 511);
    b.flip(63);
    assert_eq!(b.real_size(), 4);
    assert_eq!(b.select(1), 64);
    assert_eq!(b.bits()[0], 1);
    b.fill_zero();
    assert_eq!(b.real_size(), 0);
    assert_eq!(b.get(0), false);
}

#[test]
fn simd_bitmap_full() {
    let mut b = SIMDBitmap512::new();
    for n in 0..512usize {
        b.flip(n);
    }
    assert!(b.is_full());
    assert_eq!(b.real_size(), 512);
    assert_eq!(b.select(511), 511);
}

#[test]
fn cont_bitmap_finds_low_zero_run() {
    let b = ContBitmap512 { prefix_sum: [0; 8], bits: [0b1_0000, 0, 0, 0, 0, 0, 0, 0], last_pos: 0, first_zero: 0 };
    assert_eq!(b.search_zero_seq(4), Some(4));
    assert_eq!(b.search_zero_seq(5), None);
    assert_eq!(b.bits()[0], 16);
}

#[test]
fn compressed_sum_bytes_and_bits() {
    let mut s = CompressedSum::<2>::new();
    assert_eq!(s.get(3), 0);
    s.set(3, 7);
    s.add(3, 5);
    assert_eq!(s.get(3), 12);
    assert_eq!(s.get(16), 0);
    s.bmp.set_bit(0);
    assert_eq!(s.get(16), 1);
    assert_eq!(s.get(17), 0);
    let t = CommutativeBitmap::<2>::new();
    assert_eq!(t.tag.len(), 32);
    assert_eq!(t.sum.get(31), 0);
}

#[test]
fn allocable_page_claims_bit_after_reserved() {
    let mut page = AllocablePage4K::new();
    assert_eq!(AllocablePage4K::size(), 4096);
    for n in 0..20usize {
        page.flip_bit(n);
    }
    assert_eq!(page.get_first_free_bit(), 16);
    assert_eq!(page.claim_first_free_bit(), 16);
    assert_eq!(page.get_bit(16), false);
    assert_eq!(page.get_first_free_bit(), 17);
    page.unset_bit(17);
    assert_eq!(page.get_bit(17), false);
    assert!(!page.is_full());
    page.data[5] = 9;
    page.reset();
    assert_eq!(page.data[5], 0);
    assert_eq!(page.get_bit(0), false);
}

#[test]
fn allocable_page_is_full_at_496_bits() {
    let mut page = AllocablePage4K::new();
    for n in 0..496usize {
        page.flip_bit(n);
    }
    assert!(page.is_full());
    page.flip_bit(496);
    assert!(!page.is_full());
}
