use crate::error::AllocError;
use vstd::prelude::*;

pub mod efficient_sc;
pub mod page_list;

pub use efficient_sc::SCAllocator;

verus! {

/// Bytes that the page index takes for one page.
pub const INDEX_ENTRY_BYTES: usize = 8;

/// Bytes that the record of one run takes.
pub const PAGE_RECORD_BYTES: usize = 64;

/// Bytes that the record of one thread cache takes: half a page.
pub const CACHE_RECORD_BYTES: usize = 2048;

/// Bytes that the record of the central state takes.
pub const ZONE_RECORD_BYTES: usize = 8192;

/// The largest range that a metadata arena serves at a time: 64 MiB.
pub const ARENA_BYTES: usize = 0x400_0000;

/// How a fixed range is divided between the allocator's own records and
/// the pages that it hands out. The records lie at the front of the range,
/// from its start up to `reserve_start`, in this order from the top down:
/// the record of the thread cache, the record of the central state, the
/// records of the runs, the page index.
#[derive(Debug, Clone, Copy, PartialEq, Eq, Structural)]
pub struct MetaLayout {
    /// Where the pages for the backend begin.
    pub reserve_start: usize,
    /// The record of the thread cache.
    pub cache_record: usize,
    /// The record of the central state.
    pub zone_record: usize,
    /// Front of the records of the runs.
    pub records_start: usize,
    /// End of the records of the runs.
    pub records_end: usize,
    /// The page index: one entry for each page of the range.
    pub index: usize,
}

/// The pages of `page_size` bytes that lie in `[start, end)`.
pub open spec fn page_count(start: int, end: int, page_size: int) -> int {
    (end - start) / page_size
}

/// The bytes of records that a range of `pages` pages needs.
pub open spec fn record_bytes(pages: int) -> int {
    pages * (INDEX_ENTRY_BYTES + PAGE_RECORD_BYTES) + CACHE_RECORD_BYTES + ZONE_RECORD_BYTES
}

/// The bytes at the front of `[start, end)` that are set aside for
/// records: what the range needs, rounded up to whole pages.
pub open spec fn meta_bytes(start: int, end: int, page_size: int) -> int {
    page_size * ((record_bytes(page_count(start, end, page_size)) + page_size - 1) / page_size)
}

/// Whether `[start, end)` can be divided: it holds a page at least, and
/// its records fit in one arena and end inside the range.
pub open spec fn can_divide(start: int, end: int, page_size: int) -> bool {
    &&& 0 < page_size
    &&& start + page_size <= end
    &&& meta_bytes(start, end, page_size) <= ARENA_BYTES
    &&& start + meta_bytes(start, end, page_size) <= end
}

/// A linear allocator for the allocator's own records: it hands out bytes
/// from `current` downward and stops at `start`.
#[derive(Debug, Clone, Copy, PartialEq, Eq, Structural)]
pub struct BumpAlloc {
    pub start: usize,
    pub current: usize,
}

impl BumpAlloc {
    /// Size of the range that the arena is given at a time.
    pub const DEFAULT_SIZE: usize = ARENA_BYTES;

    /// An arena without memory.
    pub fn new() -> (bump: Self)
        ensures
            bump.start == 0,
            bump.current == 0,
    {
        Self { start: 0, current: 0 }
    }

    /// Whether the arena has memory: its range is not used up and is no
    /// longer than `DEFAULT_SIZE`.
    pub open spec fn live(&self) -> bool {
        self.start < self.current && self.current - self.start <= Self::DEFAULT_SIZE
    }

    /// Whether `size` bytes can be taken.
    pub open spec fn can_take(&self, size: int) -> bool {
        self.live() && size <= self.current - self.start
    }

    /// Gives the arena the `DEFAULT_SIZE` bytes at `start`; what was left
    /// of its old range is dropped.
    pub fn refill(&mut self, start: usize)
        requires
            start + Self::DEFAULT_SIZE <= usize::MAX,
        ensures
            final(self).start == start,
            final(self).current == start + Self::DEFAULT_SIZE,
    {
        self.start = start;
        self.current = start + Self::DEFAULT_SIZE;
    }

    /// Takes `size` bytes from the end of the range. Fails with `ENOMEM`,
    /// and changes nothing, when the arena has no memory or fewer bytes
    /// than `size`; the caller may then `refill` it and ask again.
    pub fn allocate(&mut self, size: usize) -> (r: Result<usize, AllocError>)
        ensures
            r is Ok <==> old(self).can_take(size as int),
            r is Err ==> r == Err::<usize, AllocError>(AllocError::ENOMEM) && *final(self) == *old(
                self,
            ),
            r matches Ok(a) ==> a == old(self).current - size && final(self).current == a
                && final(self).start == old(self).start,
    {
        if !(self.current > self.start && self.current - self.start <= Self::DEFAULT_SIZE) {
            return Err(AllocError::ENOMEM);
        }
        if self.current - self.start < size {
            return Err(AllocError::ENOMEM);
        }
        let new_cur = self.current - size;
        self.current = new_cur;
        Ok(new_cur)
    }
}

impl BumpAlloc {
    /// Tells whether `[start, end)` can be divided.
    pub fn can_divide(start: usize, end: usize, page_size: usize) -> (b: bool)
        ensures
            b == can_divide(start as int, end as int, page_size as int),
    {
        if page_size == 0 || end < start || end - start < page_size {
            return false;
        }
        let pages: usize = (end - start) / page_size;
        proof {
            lemma_meta_bytes(start as int, end as int, page_size as int);
        }
        if pages > ARENA_BYTES / (INDEX_ENTRY_BYTES + PAGE_RECORD_BYTES) || page_size > ARENA_BYTES {
            return false;
        }
        let total: usize = pages * (INDEX_ENTRY_BYTES + PAGE_RECORD_BYTES) + CACHE_RECORD_BYTES
            + ZONE_RECORD_BYTES;
        let meta_pages: usize = (total + page_size - 1) / page_size;
        proof {
            assert(total == record_bytes(pages as int));
            assert(page_size * meta_pages == meta_bytes(start as int, end as int, page_size as int));
        }
        let meta: usize = page_size * meta_pages;
        meta <= ARENA_BYTES && meta <= end - start
    }

    /// Divides the range `[start, end)` between the records of the
    /// allocator and its pages, and takes the front part as the arena.
    /// The records of the fixed parts are taken from the arena at once, so
    /// that what is left of it is the part below the page index.
    pub fn init_with_range(&mut self, start: usize, end: usize, page_size: usize) -> (layout:
        MetaLayout)
        requires
            can_divide(start as int, end as int, page_size as int),
        ensures
            final(self).start == start,
            final(self).current == layout.index,
            start <= layout.index,
            layout.reserve_start == start + meta_bytes(start as int, end as int, page_size as int),
            layout.reserve_start <= end,
            layout.cache_record == layout.reserve_start - CACHE_RECORD_BYTES,
            layout.zone_record == layout.cache_record - ZONE_RECORD_BYTES,
            layout.records_end == layout.zone_record,
            layout.records_start == layout.records_end - page_count(
                start as int,
                end as int,
                page_size as int,
            ) * PAGE_RECORD_BYTES,
            layout.index == layout.records_start - page_count(
                start as int,
                end as int,
                page_size as int,
            ) * INDEX_ENTRY_BYTES,
    {
        proof {
            lemma_meta_bytes(start as int, end as int, page_size as int);
        }
        let pages: usize = (end - start) / page_size;
        let total: usize = pages * (INDEX_ENTRY_BYTES + PAGE_RECORD_BYTES) + CACHE_RECORD_BYTES
            + ZONE_RECORD_BYTES;
        let meta_pages: usize = (total + page_size - 1) / page_size;
        let reserve_start: usize = start + page_size * meta_pages;
        let cache_record: usize = reserve_start - CACHE_RECORD_BYTES;
        let zone_record: usize = cache_record - ZONE_RECORD_BYTES;
        let records_start: usize = zone_record - pages * PAGE_RECORD_BYTES;
        let index: usize = records_start - pages * INDEX_ENTRY_BYTES;
        self.start = start;
        self.current = index;
        MetaLayout {
            reserve_start,
            cache_record,
            zone_record,
            records_start,
            records_end: zone_record,
            index,
        }
    }
}

/// The bytes set aside for records hold the records, and less than one
/// page more.
pub proof fn lemma_meta_bytes(start: int, end: int, page_size: int)
    requires
        0 < page_size,
        start <= end,
    ensures
        0 <= page_count(start, end, page_size),
        record_bytes(page_count(start, end, page_size)) <= meta_bytes(start, end, page_size)
            < record_bytes(page_count(start, end, page_size)) + page_size,
        page_size <= meta_bytes(start, end, page_size),
{
    let pages = page_count(start, end, page_size);
    vstd::arithmetic::div_mod::lemma_div_pos_is_pos(end - start, page_size);
    let total = record_bytes(pages);
    let t = total + page_size - 1;
    vstd::arithmetic::div_mod::lemma_fundamental_div_mod(t, page_size);
    vstd::arithmetic::div_mod::lemma_mod_bound(t, page_size);
    assert(t / page_size >= 1) by {
        vstd::arithmetic::div_mod::lemma_div_is_ordered(page_size, t, page_size);
        vstd::arithmetic::div_mod::lemma_div_basics(page_size);
    }
    assert(page_size * (t / page_size) >= page_size) by (nonlinear_arith)
        requires
            t / page_size >= 1,
            page_size > 0,
    ;
}

/// The arena of the allocator's own records, which takes the records of
/// thread caches back: a record that came back is handed out again
/// before the arena is asked.
pub struct MetaBumpAlloc {
    pub bumper: BumpAlloc,
    /// The records that came back; the last is handed out first.
    pub backup: Vec<usize>,
}

/// A size rounded up to whole records of a thread cache.
pub open spec fn round_to_records(size: int) -> int {
    (size + CACHE_RECORD_BYTES - 1) / (CACHE_RECORD_BYTES as int) * CACHE_RECORD_BYTES
}

impl MetaBumpAlloc {
    pub const DEFAULT_SIZE: usize = 0x20_0000;

    pub const ALLOC_UNIT: usize = CACHE_RECORD_BYTES;

    /// An arena without memory and without records that came back.
    pub fn new() -> (meta: Self)
        ensures
            meta.bumper.start == 0,
            meta.bumper.current == 0,
            meta.backup@.len() == 0,
    {
        Self { bumper: BumpAlloc::new(), backup: Vec::new() }
    }

    /// Divides `[start, end)` as `BumpAlloc::init_with_range` does; the
    /// records that came back stay.
    pub fn init_with_range(&mut self, start: usize, end: usize, page_size: usize) -> (layout:
        MetaLayout)
        requires
            can_divide(start as int, end as int, page_size as int),
        ensures
            final(self).backup@ == old(self).backup@,
            final(self).bumper.start == start,
            final(self).bumper.current == layout.index,
            layout.reserve_start == start + meta_bytes(start as int, end as int, page_size as int),
            layout.reserve_start <= end,
            layout.cache_record == layout.reserve_start - CACHE_RECORD_BYTES,
            layout.zone_record == layout.cache_record - ZONE_RECORD_BYTES,
            layout.records_end == layout.zone_record,
            layout.records_start == layout.records_end - page_count(
                start as int,
                end as int,
                page_size as int,
            ) * PAGE_RECORD_BYTES,
            layout.index == layout.records_start - page_count(
                start as int,
                end as int,
                page_size as int,
            ) * INDEX_ENTRY_BYTES,
    {
        self.bumper.init_with_range(start, end, page_size)
    }

    /// Hands out `size` bytes, rounded up to whole records. A request of
    /// one record takes the record that came back last, if there is one;
    /// every other request goes to the arena. Fails with `ESIZE` when the
    /// rounded size is no `usize`, with `ENOMEM` when the arena cannot
    /// serve it.
    pub fn allocate(&mut self, size: usize) -> (r: Result<usize, AllocError>)
        ensures
            size > usize::MAX - CACHE_RECORD_BYTES ==> r == Err::<usize, AllocError>(
                AllocError::ESIZE,
            ) && final(self).backup@ == old(self).backup@ && final(self).bumper == old(self).bumper,
            size <= usize::MAX - CACHE_RECORD_BYTES ==> {
                let rounded = round_to_records(size as int);
                if rounded == CACHE_RECORD_BYTES && old(self).backup@.len() > 0 {
                    &&& r == Ok::<usize, AllocError>(old(self).backup@.last())
                    &&& final(self).backup@ == old(self).backup@.drop_last()
                    &&& final(self).bumper == old(self).bumper
                } else if old(self).bumper.can_take(rounded) {
                    &&& r == Ok::<usize, AllocError>((old(self).bumper.current - rounded) as usize)
                    &&& final(self).backup@ == old(self).backup@
                    &&& final(self).bumper.start == old(self).bumper.start
                    &&& final(self).bumper.current == old(self).bumper.current - rounded
                } else {
                    &&& r == Err::<usize, AllocError>(AllocError::ENOMEM)
                    &&& final(self).backup@ == old(self).backup@
                    &&& final(self).bumper == old(self).bumper
                }
            },
    {
        if size > usize::MAX - CACHE_RECORD_BYTES {
            return Err(AllocError::ESIZE);
        }
        let rounded: usize = (size + CACHE_RECORD_BYTES - 1) / CACHE_RECORD_BYTES
            * CACHE_RECORD_BYTES;
        if rounded == CACHE_RECORD_BYTES {
            match self.backup.pop() {
                Some(record) => {
                    return Ok(record);
                },
                None => {},
            }
        }
        self.bumper.allocate(rounded)
    }

    /// Takes back the record of a thread cache at `ptr`.
    pub fn deallocate(&mut self, ptr: usize)
        ensures
            final(self).backup@ == old(self).backup@.push(ptr),
            final(self).bumper == old(self).bumper,
    {
        self.backup.push(ptr);
    }
}

} // verus!
