use unialloc::size_class::mi_size_class::{bsr, get_idx_by_size, get_num_of_usize};
use unialloc::size_class::mi_size_class;
use unialloc::size_class::num_pages::{gcd, generate_num_pages, lcm, num_pages};
use unialloc::size_class::SizeClass;

#[test]
fn bsr_test() {
    assert_eq!(bsr(0b111000), 5);
}

#[test]
fn get_size_class_sanity_check() {
    assert_eq!(mi_size_class::get_size_class(0).index(), 0);
    assert_eq!(mi_size_class::get_size_class(1).index(), 1);
    assert_eq!(mi_size_class::get_size_class(2).index(), 1);
    assert_eq!(mi_size_class::get_size_class(80), SizeClass::Base(9));
}

#[test]
fn size_class_idx_sanity_check() {
    assert_eq!(get_idx_by_size(80), 9);
    assert_eq!(get_idx_by_size(81), 10);
    assert_eq!(get_idx_by_size(40960), 45);
}

#[test]
fn num_of_uszie() {
    assert_eq!(get_num_of_usize(64), 8);
    assert_eq!(get_num_of_usize(9), 2);
    assert_eq!(get_num_of_usize(8), 1);
    assert_eq!(get_num_of_usize(0), 0);
    assert_eq!(get_num_of_usize(1), 1);
}

#[test]
fn size_class() {
    assert_eq!(mi_size_class::get_size_class(64).index(), get_idx_by_size(64));
    assert_eq!(mi_size_class::get_size_class(65).index(), get_idx_by_size(65));
    assert_eq!(mi_size_class::get_size_class(40960).index(), get_idx_by_size(40960));
    assert_eq!(mi_size_class::get_size_class(32768).index(), get_idx_by_size(32768));
}

#[test]
fn size_greater_than64() {
    let targets = [
        64, 80, 96, 112, 128, 160, 192, 224, 256, 320, 384, 448, 512, 640, 768, 896, 1024,
        1280, 1536, 1792, 2048, 2560, 3072, 3584, 4096, 5120, 6144, 7168, 8192, 10240, 12288,
        14336, 16384, 20480, 24576, 28672, 32768, 40960,
    ];

    let mut start_idx = 8;
    for i in targets.iter() {
        assert_eq!(get_idx_by_size(*i), start_idx);
        start_idx += 1;
    }
}

#[test]
fn greatest_common_divisors() {
    assert_eq!(gcd(0, 0), 0);
    assert_eq!(gcd(0, 7), 7);
    assert_eq!(gcd(7, 0), 7);
    assert_eq!(gcd(12, 12), 12);
    assert_eq!(gcd(12, 18), 6);
    assert_eq!(gcd(18, 12), 6);
    assert_eq!(gcd(17, 5), 1);
    assert_eq!(gcd(4096, 80), 16);
    assert_eq!(gcd(4096, 40960), 4096);
    assert_eq!(gcd(3 * 5 * 7 * 64, 5 * 11 * 256), 5 * 64);
    assert_eq!(gcd(usize::MAX, usize::MAX - 1), 1);
    assert_eq!(lcm(4, 6), 12);
    assert_eq!(lcm(4096, 80), 20480);
    assert_eq!(lcm(0, 5), 0);
    assert_eq!(num_pages(8), 1);
    assert_eq!(num_pages(80), 5);
    assert_eq!(num_pages(4096), 1);
    assert_eq!(num_pages(40960), 10);
    assert_eq!(num_pages(4097), 4097);
}

#[test]
fn page_table_is_made_of_least_common_multiples() {
    let sizes: Vec<usize> = (1..=45).map(mi_size_class::get_rounded_size_by_idx).collect();
    let pages = generate_num_pages(&sizes);
    for (i, &n) in pages.iter().enumerate() {
        assert_eq!(n, mi_size_class::get_num_pages_by_idx(i + 1), "class {}", i + 1);
        assert_eq!(n * 4096 % sizes[i], 0);
    }
    assert_eq!(generate_num_pages(&Vec::new()), Vec::<usize>::new());
}
