use vstd::prelude::*;

pub mod collections;
pub mod bitmap_alloc;
pub mod buddy_system;
pub mod cache;
pub mod error;
pub mod freelist;
pub mod mm;
pub mod mpmc;
pub mod page;
pub mod pal;
pub mod sc;
pub mod size_class;
pub mod zone;

verus! {

/// Size in bytes of one system page.
pub const PAGE_SIZE: usize = 4096;

/// Binary logarithm of [`PAGE_SIZE`].
pub const PAGE_SHIFT: usize = 12;

} // verus!
