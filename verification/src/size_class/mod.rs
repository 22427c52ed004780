use vstd::prelude::*;

pub mod mi_size_class;
pub mod num_pages;
pub mod small_size_class;
pub mod tc_size_class;

pub use tc_size_class::{
    get_index_and_size, get_num_pages_by_idx, get_rounded_size_by_idx, get_size_class,
    get_size_class_by_idx, get_size_from_idx, BACKEND_MAX_PAGE, MAX_SIZE, TOTAL_SIZE_CLASS,
};

verus! {

/// The class of a request: a table class by index, or a large request by
/// its size in bytes.
#[derive(Debug, PartialEq, Eq, Structural, Copy, Clone)]
pub enum SizeClass {
    Base(usize),
    Large(usize),
}

impl SizeClass {
    /// The number that the class carries: the index of a table class, the
    /// byte size of a large request.
    pub open spec fn spec_index(self) -> usize {
        match self {
            SizeClass::Base(cl) => cl,
            SizeClass::Large(cl) => cl,
        }
    }

    pub fn inner(self) -> (n: usize)
        ensures
            n == self.spec_index(),
    {
        match self {
            SizeClass::Base(cl) => cl,
            SizeClass::Large(cl) => cl,
        }
    }

    pub fn index(&self) -> (n: usize)
        ensures
            n == self.spec_index(),
    {
        match self {
            SizeClass::Base(cl) => *cl,
            SizeClass::Large(cl) => *cl,
        }
    }
}

/// Rounds a request that a size class serves up to the size of its class.
pub fn get_rounded_size(sz: usize) -> (size: usize)
    requires
        sz <= MAX_SIZE,
    ensures
        size == tc_size_class::rounded_size(sz as int),
        sz <= size,
{
    let idx = get_size_class(sz).index();
    get_rounded_size_by_idx(idx)
}

/// The class of a request that a size class serves, with its rounded size.
pub fn get_size_class_tuple(sz: usize) -> (res: (SizeClass, usize))
    requires
        sz <= MAX_SIZE,
    ensures
        res.0 == tc_size_class::classify(sz as int).0,
        res.1 == tc_size_class::rounded_size(sz as int),
        sz <= res.1,
{
    let cl = get_size_class(sz);
    (cl, get_rounded_size_by_idx(cl.index()))
}

} // verus!
