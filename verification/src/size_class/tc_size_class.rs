use crate::size_class::SizeClass;
use vstd::prelude::*;

verus! {

/// Number of size classes, the zero-sized class included.
pub const TOTAL_SIZE_CLASS: usize = 64;

/// Number of size classes that serve a request of at least one byte.
pub const NUM_SIZE_CLASSES: usize = 63;

/// Largest request that a size class serves.
pub const MAX_SIZE: usize = 18432;

/// Longest run, in pages, that the page backend keeps on its lists.
pub const BACKEND_MAX_PAGE: usize = 128;

/// Class index by request: entry `(r + 7) / 8` for `r <= 1024`, entry
/// `(r + 127) / 128 + 120` for larger requests up to `MAX_SIZE`.
pub const IDX_ARRAY: [u8; 265] = [
    0u8, 1u8, 2u8, 3u8, 4u8, 5u8, 6u8, 7u8, 8u8, 9u8, 10u8, 11u8, 12u8, 13u8, 14u8, 15u8,
    16u8, 17u8, 17u8, 18u8, 18u8, 19u8, 19u8, 20u8, 20u8, 21u8, 21u8, 21u8, 22u8, 22u8, 22u8, 23u8,
    23u8, 23u8, 24u8, 24u8, 24u8, 24u8, 25u8, 25u8, 25u8, 25u8, 26u8, 26u8, 26u8, 26u8, 26u8, 27u8,
    27u8, 27u8, 27u8, 27u8, 28u8, 28u8, 28u8, 28u8, 28u8, 28u8, 29u8, 29u8, 29u8, 29u8, 29u8, 29u8,
    29u8, 30u8, 30u8, 30u8, 30u8, 30u8, 30u8, 30u8, 30u8, 31u8, 31u8, 31u8, 31u8, 31u8, 31u8, 31u8,
    31u8, 31u8, 32u8, 32u8, 32u8, 32u8, 32u8, 32u8, 32u8, 32u8, 32u8, 32u8, 33u8, 33u8, 33u8, 33u8,
    33u8, 33u8, 33u8, 33u8, 33u8, 33u8, 33u8, 34u8, 34u8, 34u8, 34u8, 34u8, 34u8, 34u8, 34u8, 34u8,
    34u8, 34u8, 34u8, 35u8, 35u8, 35u8, 35u8, 35u8, 35u8, 35u8, 35u8, 35u8, 35u8, 35u8, 35u8, 35u8,
    35u8, 36u8, 37u8, 38u8, 39u8, 40u8, 41u8, 42u8, 43u8, 44u8, 44u8, 45u8, 45u8, 46u8, 46u8, 47u8,
    47u8, 48u8, 48u8, 48u8, 49u8, 49u8, 49u8, 50u8, 50u8, 50u8, 51u8, 51u8, 51u8, 51u8, 52u8, 52u8,
    52u8, 52u8, 53u8, 53u8, 53u8, 53u8, 53u8, 54u8, 54u8, 54u8, 54u8, 54u8, 55u8, 55u8, 55u8, 55u8,
    55u8, 55u8, 56u8, 56u8, 56u8, 56u8, 56u8, 56u8, 56u8, 57u8, 57u8, 57u8, 57u8, 57u8, 57u8, 57u8,
    57u8, 58u8, 58u8, 58u8, 58u8, 58u8, 58u8, 58u8, 58u8, 58u8, 59u8, 59u8, 59u8, 59u8, 59u8, 59u8,
    59u8, 59u8, 59u8, 59u8, 60u8, 60u8, 60u8, 60u8, 60u8, 60u8, 60u8, 60u8, 60u8, 60u8, 60u8, 61u8,
    61u8, 61u8, 61u8, 61u8, 61u8, 61u8, 61u8, 61u8, 61u8, 61u8, 61u8, 62u8, 62u8, 62u8, 62u8, 62u8,
    62u8, 62u8, 62u8, 62u8, 62u8, 62u8, 62u8, 62u8, 62u8, 63u8, 63u8, 63u8, 63u8, 63u8, 63u8, 63u8,
    63u8, 63u8, 63u8, 63u8, 63u8, 63u8, 63u8, 63u8, 63u8,
];

/// Rounded size of each class, strictly increasing.
pub const SIZE_CLASSES: [usize; 64] = [
    0usize, 8usize, 16usize, 24usize, 32usize, 40usize, 48usize, 56usize, 64usize, 72usize,
    80usize, 88usize, 96usize, 104usize, 112usize, 120usize, 128usize, 144usize, 160usize, 176usize,
    192usize, 216usize, 240usize, 264usize, 296usize, 328usize, 368usize, 408usize, 456usize, 512usize,
    576usize, 648usize, 728usize, 816usize, 912usize, 1024usize, 1152usize, 1280usize, 1408usize, 1536usize,
    1664usize, 1792usize, 1920usize, 2048usize, 2304usize, 2560usize, 2816usize, 3072usize, 3456usize, 3840usize,
    4224usize, 4736usize, 5248usize, 5888usize, 6528usize, 7296usize, 8192usize, 9216usize, 10368usize, 11648usize,
    13056usize, 14592usize, 16384usize, 18432usize,
];

/// Pages in one run of each class.
pub const SIZE_CLASS_PAGES: [usize; 64] = [
    0usize, 1usize, 1usize, 1usize, 1usize, 1usize, 1usize, 1usize, 1usize, 1usize, 1usize, 1usize, 1usize, 1usize, 1usize, 1usize,
    1usize, 1usize, 1usize, 1usize, 1usize, 1usize, 1usize, 2usize, 2usize, 2usize, 2usize, 2usize, 2usize, 4usize, 4usize, 4usize,
    4usize, 4usize, 4usize, 8usize, 8usize, 8usize, 8usize, 8usize, 8usize, 8usize, 8usize, 8usize, 16usize, 16usize, 16usize, 16usize,
    16usize, 16usize, 32usize, 32usize, 32usize, 32usize, 32usize, 32usize, 64usize, 64usize, 64usize, 64usize, 64usize, 64usize, 64usize, 64usize,
];

/// The rounded size of class `c`.
pub open spec fn class_size(c: int) -> int {
    SIZE_CLASSES[c] as int
}

/// `c` is the class that serves a request of `req` bytes: the smallest class
/// whose rounded size holds the request.
pub open spec fn is_class_of(req: int, c: int) -> bool {
    &&& 0 <= c < TOTAL_SIZE_CLASS
    &&& req <= class_size(c)
    &&& c > 0 ==> class_size(c - 1) < req
}

/// The class index of a request of at most `MAX_SIZE` bytes.
pub open spec fn class_index(req: int) -> int {
    choose|c: int| is_class_of(req, c)
}

/// The classification of any request: its class and its rounded size.
pub open spec fn classify(req: int) -> (SizeClass, int) {
    if req <= MAX_SIZE {
        (SizeClass::Base(class_index(req) as usize), class_size(class_index(req)))
    } else {
        (SizeClass::Large(req as usize), req)
    }
}

/// The rounded size of any request.
pub open spec fn rounded_size(req: int) -> int {
    classify(req).1
}

/// The class sizes increase strictly with the class index.
pub proof fn lemma_class_sizes_increase(a: int, b: int)
    requires
        0 <= a < b < TOTAL_SIZE_CLASS,
    ensures
        class_size(a) < class_size(b),
{
}

/// At most one class serves a request.
pub proof fn lemma_class_unique(req: int, c1: int, c2: int)
    requires
        is_class_of(req, c1),
        is_class_of(req, c2),
    ensures
        c1 == c2,
{
    if c1 < c2 {
        if c1 < c2 - 1 {
            lemma_class_sizes_increase(c1, c2 - 1);
        }
    } else if c2 < c1 {
        if c2 < c1 - 1 {
            lemma_class_sizes_increase(c2, c1 - 1);
        }
    }
}

/// Classifies a request by table lookup and returns its class with its
/// rounded size.
pub fn get_sizeclass_tuple2(req_size: usize) -> (res: (SizeClass, usize))
    ensures
        res.0 == classify(req_size as int).0,
        res.1 == classify(req_size as int).1,
        req_size <= MAX_SIZE ==> is_class_of(req_size as int, res.0->Base_0 as int),
        req_size <= res.1,
{
    if req_size <= 1024 {
        let idx: usize = (req_size + 7) / 8;
        let new_size_idx: usize = IDX_ARRAY[idx] as usize;
        let new_size: usize = SIZE_CLASSES[new_size_idx];
        proof {
            assert(is_class_of(req_size as int, new_size_idx as int));
            lemma_class_unique(req_size as int, new_size_idx as int, class_index(req_size as int));
        }
        (SizeClass::Base(new_size_idx), new_size)
    } else if req_size <= MAX_SIZE {
        let idx: usize = (req_size + 127) / 128 + 120;
        let new_size_idx: usize = IDX_ARRAY[idx] as usize;
        let new_size: usize = SIZE_CLASSES[new_size_idx];
        proof {
            assert(is_class_of(req_size as int, new_size_idx as int));
            lemma_class_unique(req_size as int, new_size_idx as int, class_index(req_size as int));
        }
        (SizeClass::Base(new_size_idx), new_size)
    } else {
        (SizeClass::Large(req_size), req_size)
    }
}

/// The class that serves every request: any request has exactly one.
pub proof fn lemma_class_exists(req: int)
    requires
        0 <= req <= MAX_SIZE,
    ensures
        is_class_of(req, class_index(req)),
{
    lemma_class_search(req, 0);
}

proof fn lemma_class_search(req: int, c: int)
    requires
        0 <= req <= MAX_SIZE,
        0 <= c < TOTAL_SIZE_CLASS,
        c > 0 ==> class_size(c - 1) < req,
    ensures
        exists|k: int| is_class_of(req, k),
    decreases TOTAL_SIZE_CLASS - c,
{
    if req <= class_size(c) {
        assert(is_class_of(req, c));
    } else {
        lemma_class_search(req, c + 1);
    }
}

/// A request is never rounded down, and a larger request is never rounded to
/// a smaller size.
pub proof fn lemma_rounded_size_monotone(r1: int, r2: int)
    requires
        0 <= r1 <= r2,
    ensures
        r1 <= rounded_size(r1),
        rounded_size(r1) <= rounded_size(r2),
{
    if r2 <= MAX_SIZE {
        lemma_class_exists(r1);
        lemma_class_exists(r2);
        let c1 = class_index(r1);
        let c2 = class_index(r2);
        if c2 < c1 {
            if c2 < c1 - 1 {
                lemma_class_sizes_increase(c2, c1 - 1);
            }
        } else if c1 < c2 {
            lemma_class_sizes_increase(c1, c2);
        }
    } else if r1 <= MAX_SIZE {
        lemma_class_exists(r1);
        let c1 = class_index(r1);
        if c1 < TOTAL_SIZE_CLASS - 1 {
            lemma_class_sizes_increase(c1, TOTAL_SIZE_CLASS - 1);
        }
    }
}

/// From one class to the next the size grows by 8 bytes up to 128
/// bytes. Beyond, each class is the largest multiple of its stride (8
/// bytes up to 1024, 128 bytes above) that is no more than nine eighths
/// of the smallest request that it serves.
pub proof fn lemma_class_step(c: int)
    requires
        1 <= c < TOTAL_SIZE_CLASS,
    ensures
        c <= 16 ==> class_size(c) == class_size(c - 1) + 8,
        c > 16 ==> 8 * class_size(c) <= 9 * (class_size(c - 1) + 1),
        16 < c < TOTAL_SIZE_CLASS - 1 && class_size(c) < 1024 ==> 8 * (class_size(c) + 8) > 9 * (
        class_size(c - 1) + 1),
        16 < c < TOTAL_SIZE_CLASS - 1 && class_size(c) > 1024 ==> 8 * (class_size(c) + 128) > 9 * (
        class_size(c - 1) + 1),
{
}

/// What rounding wastes: less than 8 bytes on a request of 128 bytes or
/// fewer, no more than an eighth of a larger request that a size class
/// serves, and nothing on a request beyond the largest class.
pub proof fn lemma_wastage(r: int)
    requires
        0 <= r,
    ensures
        r <= rounded_size(r),
        r <= 128 ==> rounded_size(r) < r + 8,
        r > 128 ==> 8 * rounded_size(r) <= 9 * r,
        r > MAX_SIZE ==> rounded_size(r) == r,
{
    lemma_rounded_size_monotone(r, r);
    if r <= MAX_SIZE {
        lemma_class_exists(r);
        let c = class_index(r);
        if c >= 1 {
            lemma_class_step(c);
            if r > 128 && c <= 16 {
                lemma_class_sizes_increase(c, 17);
            }
            if r <= 128 && c > 16 {
                if c - 1 > 16 {
                    lemma_class_sizes_increase(16, c - 1);
                }
            }
        }
    }
}

/// Classifies a request; the same as [`get_sizeclass_tuple2`].
pub fn get_index_and_size(req_size: usize) -> (res: (SizeClass, usize))
    ensures
        res.0 == classify(req_size as int).0,
        res.1 == classify(req_size as int).1,
        req_size <= MAX_SIZE ==> is_class_of(req_size as int, res.0->Base_0 as int),
        req_size <= res.1,
{
    get_sizeclass_tuple2(req_size)
}

/// The class of a request.
pub fn get_size_class(req: usize) -> (cl: SizeClass)
    ensures
        cl == classify(req as int).0,
        req <= MAX_SIZE ==> is_class_of(req as int, cl->Base_0 as int),
        req > MAX_SIZE ==> cl == SizeClass::Large(req),
{
    get_sizeclass_tuple2(req).0
}

/// The rounded size of class `idx`.
pub fn get_size_from_idx(idx: usize) -> (size: usize)
    requires
        idx < TOTAL_SIZE_CLASS,
    ensures
        size == class_size(idx as int),
{
    SIZE_CLASSES[idx]
}

/// The rounded size of class `idx`.
pub fn get_rounded_size_by_idx(idx: usize) -> (size: usize)
    requires
        idx < TOTAL_SIZE_CLASS,
    ensures
        size == class_size(idx as int),
{
    SIZE_CLASSES[idx]
}

/// The rounded size of class `idx`.
pub fn get_size_class_by_idx(idx: usize) -> (size: usize)
    requires
        idx < TOTAL_SIZE_CLASS,
    ensures
        size == class_size(idx as int),
{
    SIZE_CLASSES[idx]
}

/// The pages in one run of class `c`.
pub open spec fn class_pages(c: int) -> int {
    SIZE_CLASS_PAGES[c] as int
}

/// Every class but the zero-sized one has runs of 1 to 64 pages, which hold
/// at least one cell and at most 512.
pub proof fn lemma_class_run_bounds(c: int)
    requires
        1 <= c < TOTAL_SIZE_CLASS,
    ensures
        1 <= class_pages(c) <= 64,
        8 <= class_size(c) <= MAX_SIZE,
        class_size(c) % 8 == 0,
        class_size(c) <= class_pages(c) * 4096,
        class_pages(c) * 4096 <= 512 * class_size(c),
{
}

/// The pages in one run of class `idx`.
pub fn get_num_pages_by_idx(idx: usize) -> (pages: usize)
    requires
        idx < TOTAL_SIZE_CLASS,
    ensures
        pages == class_pages(idx as int),
{
    SIZE_CLASS_PAGES[idx]
}

} // verus!
