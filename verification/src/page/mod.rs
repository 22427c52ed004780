use vstd::prelude::*;

pub mod efficient_page;
pub mod separate_page;

pub use efficient_page::ObjectPage as EfObjectPage;
pub use separate_page::ObjectPage;

verus! {

/// A linear allocator for page records: it hands out records of one size
/// from `current` downward and stops at `start`.
pub struct PageBumpAlloc {
    pub start: usize,
    pub current: usize,
}

impl PageBumpAlloc {
    /// A bump allocator over an empty range.
    pub fn new() -> (bump: Self)
        ensures
            bump.start == 0,
            bump.current == 0,
    {
        Self { start: 0, current: 0 }
    }

    /// Makes `[start, end)` the range to hand out.
    pub fn init_with_range(&mut self, start: usize, end: usize)
        ensures
            final(self).start == start,
            final(self).current == end,
    {
        self.current = end;
        self.start = start;
    }

    /// Grows the range downward by the range `[start, end)` when that
    /// range ends where this one starts; the new start is `start` rounded
    /// down to a multiple of `page_size`.
    pub fn try_extend(&mut self, start: usize, end: usize, page_size: usize) -> (r: Result<(), ()>)
        requires
            page_size > 0,
        ensures
            r is Ok <==> end == old(self).start,
            r is Ok ==> final(self).start == start - start % page_size && final(self).current
                == old(self).current,
            r is Err ==> *final(self) == *old(self),
    {
        if end == self.start {
            assert(start % page_size <= start) by (nonlinear_arith)
                requires
                    page_size > 0,
            ;
            self.start = start - start % page_size;
            return Ok(());
        }
        Err(())
    }

    /// The bytes that are left in the range.
    pub open spec fn remaining(&self) -> int {
        self.current - self.start
    }

    /// Takes one record of `size` bytes from the end of the range, or
    /// nothing when fewer bytes are left.
    pub fn allocate(&mut self, size: usize) -> (r: Option<usize>)
        ensures
            r is Some <==> size <= old(self).remaining(),
            r is None ==> *final(self) == *old(self),
            r matches Some(a) ==> a == old(self).current - size && final(self).current == a
                && final(self).start == old(self).start,
    {
        if self.current < self.start || self.current - self.start < size {
            return None;
        }
        let new_cur = self.current - size;
        self.current = new_cur;
        Some(new_cur)
    }
}

} // verus!
