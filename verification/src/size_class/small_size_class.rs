use crate::size_class::SizeClass;
use vstd::prelude::*;

verus! {

/// Rounded size of each class: zero, then the powers of two from 8 to 2048.
pub const SIZE_ARRAY: [u16; 10] = [0u16, 8u16, 16u16, 32u16, 64u16, 128u16, 256u16, 512u16, 1024u16, 2048u16];

/// Longest run, in pages, that the page backend keeps on its lists.
pub const BACKEND_MAX_PAGE: usize = 32;

/// Number of size classes, the zero-sized class included.
pub const TOTAL_SIZE_CLASS: usize = 10;

/// Largest request that a size class serves.
pub const MAX_SIZE: usize = 2048;

/// The rounded size of class `c`.
pub open spec fn class_size(c: int) -> int {
    SIZE_ARRAY[c] as int
}

/// The rounded size of class `idx`.
pub fn get_rounded_size_by_idx(idx: usize) -> (size: usize)
    requires
        idx < TOTAL_SIZE_CLASS,
    ensures
        size == class_size(idx as int),
{
    SIZE_ARRAY[idx] as usize
}

/// The rounded size of class `idx`.
pub fn get_size_class_by_idx(idx: usize) -> (size: usize)
    requires
        idx < TOTAL_SIZE_CLASS,
    ensures
        size == class_size(idx as int),
{
    SIZE_ARRAY[idx] as usize
}

/// Every class has runs of one page.
pub fn get_num_pages_by_idx(_idx: usize) -> (pages: usize)
    ensures
        pages == 1,
{
    1
}

/// `c` is the class that serves a request of `req` bytes: the smallest
/// class whose rounded size holds the request.
pub open spec fn is_class_of(req: int, c: int) -> bool {
    &&& 0 <= c < TOTAL_SIZE_CLASS
    &&& req <= class_size(c)
    &&& c > 0 ==> class_size(c - 1) < req
}

/// The class of a request: the smallest class whose rounded size holds
/// the request, or the request itself when it is larger than every
/// class.
pub fn get_size_class(req: usize) -> (cl: SizeClass)
    ensures
        req > MAX_SIZE ==> cl == SizeClass::Large(req),
        req <= MAX_SIZE ==> cl is Base && is_class_of(req as int, cl->Base_0 as int),
{
    if req > MAX_SIZE {
        return SizeClass::Large(req);
    }
    let mut idx: usize = 0;
    while (SIZE_ARRAY[idx] as usize) < req
        invariant
            idx < TOTAL_SIZE_CLASS,
            req <= MAX_SIZE,
            idx > 0 ==> class_size(idx - 1) < req,
        decreases TOTAL_SIZE_CLASS - idx,
    {
        idx += 1;
    }
    SizeClass::Base(idx)
}

/// At most one class serves a request.
pub proof fn lemma_class_unique(req: int, c1: int, c2: int)
    requires
        is_class_of(req, c1),
        is_class_of(req, c2),
    ensures
        c1 == c2,
{
}

} // verus!
