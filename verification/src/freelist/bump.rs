use crate::error::AllocError;
use vstd::prelude::*;

verus! {

/// Size of one page of the backend.
pub const PG_SIZE: usize = 4096;

/// A size rounded up to whole pages.
pub open spec fn round_to_pages(size: int) -> int {
    (size + PG_SIZE - 1) / (PG_SIZE as int) * PG_SIZE
}

/// A linear allocator over one reserved range: it hands out the pages from
/// `current` upward and stops at `check_point`.
pub struct BumpAlloc {
    pub check_point: usize,
    pub current: usize,
}

impl BumpAlloc {
    /// Size of one reservation unit: 4 GiB.
    pub const DEFAULT_SIZE: u64 = 0x100000000;

    /// A bump allocator over an empty range.
    pub fn new() -> (bump: Self)
        ensures
            bump.check_point == 0,
            bump.current == 0,
    {
        Self { check_point: 0, current: 0 }
    }

    /// The bytes that are left in the range; negative when the range is
    /// turned inside out.
    pub open spec fn remaining(&self) -> int {
        self.check_point - self.current
    }

    /// Makes `[start, end)` the range to hand out.
    pub fn init_with_range(&mut self, start: usize, end: usize)
        ensures
            final(self).current == start,
            final(self).check_point == end,
    {
        self.check_point = end;
        self.current = start;
    }

    /// Moves the end of the range up by `size` bytes and returns the new
    /// end; the range stays as it is when the new end is no address.
    pub fn extend_with_range(&mut self, size: usize) -> (end: usize)
        ensures
            final(self).current == old(self).current,
            old(self).check_point + size <= usize::MAX ==> end == old(self).check_point + size,
            old(self).check_point + size > usize::MAX ==> end == old(self).check_point,
            final(self).check_point == end,
    {
        if size <= usize::MAX - self.check_point {
            self.check_point += size;
        }
        self.check_point
    }

    /// Takes `size` bytes, rounded up to whole pages, from the front of
    /// the range. Fails with `ESIZE` when the rounded size is no `usize`,
    /// with `ENOMEM` when the range has fewer bytes left.
    pub fn allocate(&mut self, size: usize) -> (r: Result<usize, AllocError>)
        ensures
            size > usize::MAX - PG_SIZE ==> r == Err::<usize, AllocError>(AllocError::ESIZE),
            size <= usize::MAX - PG_SIZE && round_to_pages(size as int) > old(self).remaining()
                ==> r == Err::<usize, AllocError>(AllocError::ENOMEM),
            size <= usize::MAX - PG_SIZE && round_to_pages(size as int) <= old(self).remaining()
                ==> r == Ok::<usize, AllocError>(old(self).current),
            r is Err ==> *final(self) == *old(self),
            r is Ok ==> final(self).check_point == old(self).check_point && final(self).current
                == old(self).current + round_to_pages(size as int),
    {
        if size > usize::MAX - PG_SIZE {
            return Err(AllocError::ESIZE);
        }
        let alloc_size: usize = (size + PG_SIZE - 1) / PG_SIZE * PG_SIZE;
        if self.current > self.check_point || self.check_point - self.current < alloc_size {
            return Err(AllocError::ENOMEM);
        }
        let ans = self.current;
        self.current = ans + alloc_size;
        Ok(ans)
    }
}

} // verus!
