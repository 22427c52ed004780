use crate::size_class::SizeClass;
use vstd::arithmetic::power2::pow2;
use vstd::prelude::*;

verus! {

/// Bytes in one machine word.
pub const SZOFUSIZE: usize = 8;

/// Number of size classes.
pub const TOTAL_SIZE_CLASS: usize = 46;

/// Largest request that a size class serves.
pub const MAX_SIZE: usize = 40960;

/// Longest run, in pages, that the page backend keeps on its lists.
pub const BACKEND_MAX_PAGE: usize = 128;

/// Rounded size of each class: every multiple of 8 up to 64, then four
/// evenly spaced sizes in each power-of-two interval.
pub const SIZE_ARRAY: [usize; 46] = [
    8usize, 8usize, 16usize, 24usize, 32usize, 40usize, 48usize, 56usize, 64usize, 80usize, 96usize, 112usize,
    128usize, 160usize, 192usize, 224usize, 256usize, 320usize, 384usize, 448usize, 512usize, 640usize, 768usize, 896usize,
    1024usize, 1280usize, 1536usize, 1792usize, 2048usize, 2560usize, 3072usize, 3584usize, 4096usize, 5120usize, 6144usize, 7168usize,
    8192usize, 10240usize, 12288usize, 14336usize, 16384usize, 20480usize, 24576usize, 28672usize, 32768usize, 40960usize,
];

/// Pages in one run of each class: the fewest pages that the class size
/// divides evenly.
pub const SIZE_CLASS_PAGES: [usize; 46] = [
    1usize, 1usize, 1usize, 3usize, 1usize, 5usize, 3usize, 7usize, 1usize, 5usize, 3usize, 7usize,
    1usize, 5usize, 3usize, 7usize, 1usize, 5usize, 3usize, 7usize, 1usize, 5usize, 3usize, 7usize,
    1usize, 5usize, 3usize, 7usize, 1usize, 5usize, 3usize, 7usize, 1usize, 5usize, 3usize, 7usize,
    2usize, 5usize, 3usize, 7usize, 4usize, 5usize, 6usize, 7usize, 8usize, 10usize,
];

/// The rounded size of class `c`.
pub open spec fn class_size(c: int) -> int {
    SIZE_ARRAY[c] as int
}

/// The position of the highest set bit of `x`; 0 for `x <= 1`.
pub open spec fn floor_log2(x: nat) -> nat
    decreases x,
{
    if x <= 1 {
        0
    } else {
        1 + floor_log2(x / 2)
    }
}

/// `x` lies between the power of two of its logarithm and the next one.
pub proof fn lemma_floor_log2_bounds(x: nat)
    requires
        x > 0,
    ensures
        pow2(floor_log2(x)) <= x < 2 * pow2(floor_log2(x)),
    decreases x,
{
    vstd::arithmetic::power2::lemma2_to64();
    if x > 1 {
        lemma_floor_log2_bounds(x / 2);
        vstd::arithmetic::power2::lemma_pow2_unfold(floor_log2(x));
    }
}

proof fn lemma_leading_zeros_is_log(x: u64)
    requires
        x > 0,
    ensures
        63 - vstd::std_specs::bits::u64_leading_zeros(x) == floor_log2(x as nat),
    decreases x,
{
    reveal_with_fuel(vstd::std_specs::bits::u64_leading_zeros, 3);
    if x > 1 {
        lemma_leading_zeros_is_log(x / 2);
    }
}

/// The index of the highest set bit of a nonzero word.
pub fn bsr(x: u64) -> (b: u8)
    requires
        x > 0,
    ensures
        b == floor_log2(x as nat),
        b < 64,
{
    proof {
        lemma_leading_zeros_is_log(x);
        vstd::std_specs::bits::axiom_u64_leading_zeros(x);
    }
    (63 - x.leading_zeros()) as u8
}

/// The number of machine words that hold `req` bytes.
pub open spec fn num_of_usize(req: int) -> int {
    if req > usize::MAX - SZOFUSIZE {
        req / 8
    } else {
        (req + 7) / 8
    }
}

pub fn get_num_of_usize(req: usize) -> (n: usize)
    ensures
        n == num_of_usize(req as int),
{
    if req > (usize::MAX - SZOFUSIZE) {
        return req / SZOFUSIZE;
    }
    if req % SZOFUSIZE == 0 {
        req / SZOFUSIZE
    } else {
        (req + SZOFUSIZE - 1) / SZOFUSIZE
    }
}

/// The class index of a count `m >= 4` of machine words: four times the
/// logarithm of `m`, plus the two bits of `m` below its highest bit, less 3.
pub open spec fn index_of_words(m: nat) -> int {
    4 * floor_log2(m) + (m / pow2((floor_log2(m) - 2) as nat)) % 4 - 3
}

/// For a word count inside the table, `index_of_words` names the class
/// whose size is the first at or above `8 * (m + 1)` bytes.
pub proof fn lemma_index_of_words(m: nat)
    requires
        4 <= m < 5120,
    ensures
        5 <= index_of_words(m) < TOTAL_SIZE_CLASS,
        8 * (m + 1) <= class_size(index_of_words(m)),
        class_size(index_of_words(m) - 1) <= 8 * m,
{
    lemma_floor_log2_bounds(m);
    vstd::arithmetic::power2::lemma2_to64();
    let b = floor_log2(m);
    if b > 13 {
        vstd::arithmetic::power2::lemma_pow2_strictly_increases(13, b);
    }
    assert(2 <= b <= 12);
    let d = pow2((b - 2) as nat);
    let q = (m / d) % 4;
    assert(4 * d == pow2(b)) by {
        vstd::arithmetic::power2::lemma_pow2_unfold(b);
        vstd::arithmetic::power2::lemma_pow2_unfold((b - 1) as nat);
    }
    assert(4 * d <= m < 8 * d);
    let k = (m / d) as int;
    lemma_quotient_bounds(m as int, d as int);
    assert(index_of_words(m) == 4 * b + k - 7);
    if b == 2 {
        assert(d == 1);
        assert(k == m / 1);
    }
    if b == 3 {
        assert(d == 2);
        assert(k == m / 2);
    }
    if b == 4 {
        assert(d == 4);
        assert(k == m / 4);
    }
    if b == 5 {
        assert(d == 8);
        assert(k == m / 8);
    }
    if b == 6 {
        assert(d == 16);
        assert(k == m / 16);
    }
    if b == 7 {
        assert(d == 32);
        assert(k == m / 32);
    }
    if b == 8 {
        assert(d == 64);
        assert(k == m / 64);
    }
    if b == 9 {
        assert(d == 128);
        assert(k == m / 128);
    }
    if b == 10 {
        assert(d == 256);
        assert(k == m / 256);
    }
    if b == 11 {
        assert(d == 512);
        assert(k == m / 512);
    }
    if b == 12 {
        assert(d == 1024);
        assert(k == m / 1024);
    }
}

proof fn lemma_quotient_bounds(m: int, d: int)
    by (nonlinear_arith)
    requires
        d > 0,
        4 * d <= m < 8 * d,
    ensures
        4 <= m / d < 8,
        d * (m / d) <= m < d * (m / d) + d,
{
}

/// The class index of a request of more than 32 bytes.
pub fn get_idx_by_size(req: usize) -> (idx: usize)
    requires
        32 < req,
    ensures
        idx == index_of_words((num_of_usize(req as int) - 1) as nat),
{
    let n: usize = get_num_of_usize(req) - 1;
    let b: u8 = bsr(n as u64);
    proof {
        lemma_floor_log2_bounds(n as nat);
        vstd::arithmetic::power2::lemma2_to64();
    }
    let s: u64 = (b - 2) as u64;
    let low: u64 = ((n as u64) >> s) & 0x03;
    proof {
        vstd::bits::lemma_u64_shr_is_div(n as u64, s);
        vstd::bits::lemma_low_bits_mask_values();
        vstd::bits::lemma_u64_low_bits_mask_is_mod((n as u64) >> s, 2);
        vstd::arithmetic::power2::lemma2_to64();
    }
    let idx: u8 = ((b * 4) + (low as u8)) - 3;
    idx as usize
}

/// `c` is the class that serves a request of `req` bytes: class 0 for the
/// empty request, else the first class from 1 on whose size holds it.
pub open spec fn is_class_of(req: int, c: int) -> bool {
    &&& 0 <= c < TOTAL_SIZE_CLASS
    &&& req <= class_size(c)
    &&& c == 0 <==> req == 0
    &&& c >= 2 ==> class_size(c - 1) < req
}

/// The class of a request.
pub fn get_size_class(req: usize) -> (cl: SizeClass)
    ensures
        req > MAX_SIZE ==> cl == SizeClass::Large(req),
        req <= MAX_SIZE ==> cl is Base && is_class_of(req as int, cl->Base_0 as int),
{
    if req > MAX_SIZE {
        return SizeClass::Large(req);
    }
    let n: usize = get_num_of_usize(req);
    if n <= 8 {
        return SizeClass::Base(n);
    }
    let idx = get_idx_by_size(req);
    proof {
        lemma_index_of_words((n - 1) as nat);
    }
    SizeClass::Base(idx)
}

/// The rounded size of class `idx`.
pub fn get_rounded_size_by_idx(idx: usize) -> (size: usize)
    requires
        idx < TOTAL_SIZE_CLASS,
    ensures
        size == class_size(idx as int),
{
    SIZE_ARRAY[idx]
}

/// The pages in one run of class `idx`.
pub fn get_num_pages_by_idx(idx: usize) -> (pages: usize)
    requires
        idx < TOTAL_SIZE_CLASS,
    ensures
        pages == SIZE_CLASS_PAGES[idx as int],
        pages >= 1,
{
    SIZE_CLASS_PAGES[idx]
}

} // verus!
