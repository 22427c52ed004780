use vstd::prelude::*;

verus! {

/// Protection of a mapping that may not be accessed.
pub const PROT_NONE: i32 = 0;

/// Protection of a mapping that may be read.
pub const PROT_READ: i32 = 1;

/// Protection of a mapping that may be written.
pub const PROT_WRITE: i32 = 2;

/// Protection of a mapping that may be executed.
pub const PROT_EXEC: i32 = 4;

/// The number of a set of protections: the sum of the numbers of its
/// members.
pub open spec fn prot_of(read: bool, write: bool, execute: bool) -> int {
    (if read {
        PROT_READ as int
    } else {
        0
    }) + (if write {
        PROT_WRITE as int
    } else {
        0
    }) + (if execute {
        PROT_EXEC as int
    } else {
        0
    })
}

/// The protection to ask the system for when it maps pages that may be
/// read, written and executed as the three flags say.
pub fn get_prot(read: bool, write: bool, execute: bool) -> (prot: i32)
    ensures
        prot == prot_of(read, write, execute),
{
    match (read, write, execute) {
        (false, false, false) => PROT_NONE,
        (true, false, false) => PROT_READ,
        (false, true, false) => PROT_WRITE,
        (false, false, true) => PROT_EXEC,
        (true, true, false) => PROT_READ + PROT_WRITE,
        (true, false, true) => PROT_READ + PROT_EXEC,
        (false, true, true) => PROT_WRITE + PROT_EXEC,
        (true, true, true) => PROT_READ + PROT_WRITE + PROT_EXEC,
    }
}

/// What the pages that the system maps for the allocator may be used
/// for.
#[derive(Debug, Clone, Copy, PartialEq, Eq, Structural)]
pub struct PageHeap {
    pub read: bool,
    pub write: bool,
    pub execute: bool,
}

/// Sets up a `PageHeap`.
#[derive(Debug, Clone, Copy, PartialEq, Eq, Structural)]
pub struct PageHeapBuilder {
    pub read: bool,
    pub write: bool,
    pub execute: bool,
}

impl PageHeapBuilder {
    /// The page heap with the protections of the builder.
    pub fn build(&self) -> (heap: PageHeap)
        ensures
            heap.read == self.read,
            heap.write == self.write,
            heap.execute == self.execute,
    {
        PageHeap { read: self.read, write: self.write, execute: self.execute }
    }
}

impl Default for PageHeapBuilder {
    /// Pages that may be read and written, not executed.
    fn default() -> (builder: PageHeapBuilder)
        ensures
            builder.read,
            builder.write,
            !builder.execute,
    {
        PageHeapBuilder { read: true, write: true, execute: false }
    }
}

impl Default for PageHeap {
    /// Pages that may be read and written, not executed.
    fn default() -> (heap: PageHeap)
        ensures
            heap.read,
            heap.write,
            !heap.execute,
    {
        PageHeap { read: true, write: true, execute: false }
    }
}

impl PageHeap {
    /// The protection to ask the system for.
    pub fn prot(&self) -> (prot: i32)
        ensures
            prot == prot_of(self.read, self.write, self.execute),
    {
        get_prot(self.read, self.write, self.execute)
    }

    /// Whether a request of `size` bytes is one that the system serves:
    /// whole pages, and one at least.
    pub fn serves(size: usize) -> (b: bool)
        ensures
            b == (size > 0 && size % crate::PAGE_SIZE == 0),
    {
        size > 0 && size % crate::PAGE_SIZE == 0
    }
}

} // verus!
