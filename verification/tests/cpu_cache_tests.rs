use std::mem;

use unialloc::cache::cpu_cache::{
    CPUSlab, Header, PerCpuSlabs, CAPACITY, HDR_WORDS, NUM_CLASSES, SHIFT, SLAB_SIZE, SLAB_WORDS,
};

const HDR_SIZE: usize = HDR_WORDS * 8;
const BASE: usize = 0x7000_0000;

#[test]
fn size_tests() {
    assert_eq!(mem::size_of::<usize>(), 8);
    assert_eq!(mem::size_of::<Header>(), 8);
    let slab = CPUSlab::new();
    assert_eq!((slab.header.len() + slab.mem.len()) * mem::size_of::<usize>(), 1 << SHIFT);
    println!("mem size: 0x{:x}", SLAB_SIZE - HDR_SIZE);
    println!("per-size cap: 0x{:x}", (SLAB_SIZE - HDR_SIZE) / 8 / NUM_CLASSES);
}

#[test]
fn blank_stacks_take_and_give_nothing() {
    let mut slabs = PerCpuSlabs::new(2, BASE);
    assert_eq!(slabs.push(0, 0x1000, 5), Err(0));
    assert_eq!(slabs.pop(1, 5), Err(1));
    assert_eq!(slabs.push_batch(1, &vec![0x1000, 0x2000], 5, 2, 0), 0);
    let mut out = vec![0usize; 4];
    assert_eq!(slabs.pop_batch(1, &mut out, 5, 4, 1), 1);
    assert_eq!(out, vec![0, 0, 0, 0]);
}

#[test]
fn stacks_are_laid_out_one_after_the_other() {
    let mut slabs = PerCpuSlabs::new(2, BASE);
    slabs.init_cpu(1);
    // The first stack lies behind the 63 headers; each has 500 words.
    for cl in 0..NUM_CLASSES {
        let h = Header::from_word(slabs.slabs[1].header[cl]);
        let begin = HDR_WORDS + cl * CAPACITY;
        assert_eq!(h.inner_values(), (begin, begin + CAPACITY, begin, begin + CAPACITY));
        // The first word of a stack holds its own address.
        assert_eq!(slabs.slabs[1].mem[begin - HDR_WORDS], BASE + SLAB_SIZE + begin * 8);
        assert_eq!(slabs.slabs[0].header[cl], 0);
    }
    assert!(HDR_WORDS + NUM_CLASSES * CAPACITY <= SLAB_WORDS);
    assert_eq!(CPUSlab::get_capacity(7), 500);
    slabs.init();
    assert_eq!(slabs.slabs[0].header[62], slabs.slabs[1].header[62]);
}

#[test]
fn stack_of_a_cpu_is_last_in_first_out() {
    let mut slabs = PerCpuSlabs::new(3, BASE);
    slabs.init();
    assert_eq!(slabs.pop(2, 8), Err(2));
    assert_eq!(slabs.push(2, 0x1000, 8), Ok(()));
    assert_eq!(slabs.push(2, 0x2000, 8), Ok(()));
    assert_eq!(slabs.push(1, 0x3000, 8), Ok(()));
    assert_eq!(slabs.push(2, 0x4000, 9), Ok(()));
    assert_eq!(slabs.pop(2, 8), Ok(0x2000));
    assert_eq!(slabs.pop(2, 8), Ok(0x1000));
    assert_eq!(slabs.pop(2, 8), Err(2));
    assert_eq!(slabs.pop(1, 8), Ok(0x3000));
    assert_eq!(slabs.pop(2, 9), Ok(0x4000));
    assert_eq!(slabs.pop(0, 9), Err(0));
}

#[test]
fn stack_holds_no_more_than_its_capacity() {
    let mut slabs = PerCpuSlabs::new(1, BASE);
    slabs.init();
    let cells: Vec<usize> = (1..=600).map(|i| i * 64).collect();
    // 500 of the 600 cells go onto the stack.
    assert_eq!(slabs.push_batch(0, &cells, 5, 601, 1), 501);
    assert_eq!(slabs.push(0, 0x1000, 5), Err(0));
    assert_eq!(slabs.push_batch(0, &cells, 5, 10, 0), 0);
    // The stack of the next class is untouched.
    assert_eq!(slabs.pop(0, 6), Err(0));
    assert_eq!(slabs.pop(0, 4), Err(0));
    let mut out = vec![0usize; 8];
    assert_eq!(slabs.pop_batch(0, &mut out, 5, 6, 2), 6);
    assert_eq!(out, vec![0, 0, 500 * 64, 499 * 64, 498 * 64, 497 * 64, 0, 0]);
    let mut rest = vec![0usize; 1000];
    assert_eq!(slabs.pop_batch(0, &mut rest, 5, 1000, 0), 496);
    assert_eq!(rest[0], 496 * 64);
    assert_eq!(rest[495], 64);
    assert_eq!(rest[496], 0);
    assert_eq!(slabs.pop(0, 5), Err(0));
    let mut slab = CPUSlab::new();
    slab.init(BASE);
    assert!(slab.push(0x40, 62));
    assert_eq!(slab.pop(62), Some(0x40));
    assert_eq!(slab.pop(62), None);
}
