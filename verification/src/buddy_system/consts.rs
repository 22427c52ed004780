use vstd::prelude::*;

verus! {

/// Size of one page of the buddy heap.
pub const PAGE_SIZE: usize = 0x1000;

/// Levels of the buddy tree: 23 levels of 4 KiB blocks cover 16 GiB.
pub const LEVEL_COUNT: u8 = 23;

} // verus!
