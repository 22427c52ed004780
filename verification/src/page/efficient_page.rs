use crate::collections::radix_tree::{RadixTree, TreeNode};
use crate::error::AllocError;
use crate::freelist::bump::PG_SIZE;
use crate::freelist::{pages_for, FreeList};
use vstd::prelude::*;

verus! {

/// The list of its size class that a page record is on.
#[derive(Debug, Clone, Copy, PartialEq, Eq, Structural)]
pub enum PageKind {
    /// The record has no run.
    Uninit,
    /// The record has a run and no cell of it is handed out.
    Empty,
    /// Some cells of the run are handed out and some are not.
    Partial,
    /// Every cell of the run is handed out.
    Full,
    /// The record is on no list: it is being moved from one to another.
    Detached,
}

/// The record of one run of pages of one size class.
///
/// `data` is the base address of the run, 0 while the record has none.
/// `counter` counts the cells of the run that are handed out. `free` holds
/// the cells that came back; its last entry is the head of the free list.
/// `prev` and `next` link the record into a ring of records; a link is the
/// index of a record plus 1, and 0 stands for no record.
pub struct ObjectPage {
    pub counter: usize,
    pub data: usize,
    pub free: Vec<usize>,
    pub prev: usize,
    pub next: usize,
    pub kind: PageKind,
}

/// Whether `x` is the address of one of the `count` cells that lie
/// `unit` bytes apart from `data` on.
pub open spec fn is_cell(data: int, unit: int, count: int, x: int) -> bool {
    &&& data <= x
    &&& (x - data) % unit == 0
    &&& (x - data) / unit < count
}

/// The addresses of the `count` cells that lie `unit` bytes apart from
/// `data` on.
pub open spec fn cells(data: int, unit: int, count: int) -> Set<int> {
    Set::new(|x: int| is_cell(data, unit, count, x))
}

/// A run of `count` cells holds `count` addresses of cells.
pub proof fn lemma_cells_len(data: int, unit: int, count: int)
    requires
        unit >= 1,
        count >= 0,
    ensures
        cells(data, unit, count).finite(),
        cells(data, unit, count).len() == count,
    decreases count,
{
    if count == 0 {
        assert forall|x: int| !is_cell(data, unit, count, x) by {
            if data <= x {
                assert((x - data) / unit >= 0) by (nonlinear_arith)
                    requires
                        x - data >= 0,
                        unit >= 1,
                ;
            }
        }
        assert(cells(data, unit, count) =~= Set::<int>::empty());
    } else {
        lemma_cells_len(data, unit, count - 1);
        let last = data + (count - 1) * unit;
        assert((last - data) % unit == 0 && (last - data) / unit == count - 1) by (nonlinear_arith)
            requires
                last - data == (count - 1) * unit,
                unit >= 1,
                count >= 1,
        ;
        assert forall|x: int| is_cell(data, unit, count, x) && !is_cell(
            data,
            unit,
            count - 1,
            x,
        ) implies x == last by {
            assert(x - data == (count - 1) * unit) by (nonlinear_arith)
                requires
                    (x - data) % unit == 0,
                    (x - data) / unit == count - 1,
                    unit >= 1,
            ;
        }
        assert(cells(data, unit, count) =~= cells(data, unit, count - 1).insert(last));
    }
}

impl ObjectPage {
    /// A record without a run, on no list.
    pub fn new() -> (page: Self)
        ensures
            page.counter == 0,
            page.data == 0,
            page.free@.len() == 0,
            page.prev == 0,
            page.next == 0,
            page.kind == PageKind::Detached,
    {
        Self { counter: 0, data: 0, free: Vec::new(), prev: 0, next: 0, kind: PageKind::Detached }
    }

    pub fn has_next(&self) -> (b: bool)
        ensures
            b == (self.next != 0),
    {
        self.next != 0
    }

    pub fn has_prev(&self) -> (b: bool)
        ensures
            b == (self.prev != 0),
    {
        self.prev != 0
    }

    /// The index of the record before this one in its ring.
    pub fn get_prev(&self) -> (idx: usize)
        requires
            self.prev != 0,
        ensures
            idx == self.prev - 1,
    {
        self.prev - 1
    }

    /// The index of the record after this one in its ring.
    pub fn get_next(&self) -> (idx: usize)
        requires
            self.next != 0,
        ensures
            idx == self.next - 1,
    {
        self.next - 1
    }

    pub fn set_prev(&mut self, nprev: usize)
        ensures
            final(self).prev == nprev,
            final(self).next == old(self).next,
            final(self).counter == old(self).counter,
            final(self).data == old(self).data,
            final(self).free == old(self).free,
            final(self).kind == old(self).kind,
    {
        self.prev = nprev;
    }

    pub fn set_next(&mut self, nnext: usize)
        ensures
            final(self).next == nnext,
            final(self).prev == old(self).prev,
            final(self).counter == old(self).counter,
            final(self).data == old(self).data,
            final(self).free == old(self).free,
            final(self).kind == old(self).kind,
    {
        self.next = nnext;
    }

    /// The base address of the run of an initialized record.
    pub fn get_data_ptr(&self) -> (data: usize)
        requires
            self.data != 0,
        ensures
            data == self.data,
    {
        self.data
    }

    pub fn is_inited(&self) -> (b: bool)
        ensures
            b == (self.data != 0),
    {
        self.data != 0
    }

    /// Whether all `pg_count` cells of the run are handed out.
    pub fn is_full(&self, pg_count: usize) -> (b: bool)
        ensures
            b == (pg_count <= self.counter),
    {
        pg_count <= self.counter
    }

    /// Whether no cell of the run is handed out.
    pub fn is_empty(&self) -> (b: bool)
        ensures
            b == (self.counter == 0),
    {
        self.counter == 0
    }
}

/// A group of cells that the central layer hands out at once.
///
/// A partial run gives its free cells as a list, whose last entry is the
/// head of the run's free list. A fresh or empty run gives all of its
/// cells as one range: `count` cells that lie `unit` bytes apart from
/// `base` on, for the receiver to cut.
pub enum Batch {
    Linked { cells: Vec<usize> },
    Contiguous { base: usize, count: usize, unit: usize },
}

impl Batch {
    /// Whether the cell at `x` is in the batch.
    pub open spec fn has(&self, x: int) -> bool {
        match self {
            Batch::Linked { cells } => exists|i: int|
                0 <= i < cells.len() && #[trigger] cells[i] == x,
            Batch::Contiguous { base, count, unit } => is_cell(
                *base as int,
                *unit as int,
                *count as int,
                x,
            ),
        }
    }

    /// A batch that is a list holds no cell twice. A batch that is one
    /// range starts at a page boundary above address 0, has cells of at
    /// least one byte and ends at an address that a `usize` holds.
    pub open spec fn well_placed(&self) -> bool {
        match self {
            Batch::Linked { cells } => cells@.no_duplicates(),
            Batch::Contiguous { base, count, unit } => *base > 0 && *base as int % (PG_SIZE as int)
                == 0 && *unit >= 1 && *base + *count * *unit <= usize::MAX,
        }
    }

    /// The number of cells in the batch.
    pub open spec fn count(&self) -> int {
        match self {
            Batch::Linked { cells } => cells.len() as int,
            Batch::Contiguous { base, count, unit } => *count as int,
        }
    }

    /// The number of cells in the batch.
    pub fn len(&self) -> (n: usize)
        ensures
            n == self.count(),
    {
        match self {
            Batch::Linked { cells } => cells.len(),
            Batch::Contiguous { base, count, unit } => *count,
        }
    }
}

impl ObjectPage {
    /// Gives the record a fresh run of `pg_num` pages from the backend
    /// and returns its base address.
    pub fn allocate_page(&mut self, pg_num: usize, backend: &mut FreeList, rd: &mut RadixTree) -> (r:
        Result<usize, AllocError>)
        requires
            old(backend).wf(old(rd)),
            0 < pg_num <= 1024,
        ensures
            final(backend).wf(final(rd)),
            r is Ok <==> old(backend).can_serve(pg_num as int),
            r is Err ==> r == Err::<usize, AllocError>(AllocError::ENOMEM) && *final(self) == *old(self) && final(backend).same_as(final(rd), old(backend), old(rd)),
            r matches Ok(a) ==> {
                &&& final(backend).grabbed(final(rd), old(backend), old(rd), a, pg_num as int)
                &&& final(self).data == a
                &&& final(self).counter == 0
                &&& final(self).free@.len() == 0
                &&& final(self).prev == old(self).prev
                &&& final(self).next == old(self).next
                &&& final(self).kind == old(self).kind
            },
    {
        assert(pages_for(pg_num * PG_SIZE) == pg_num);
        match backend.alloc_pages(PG_SIZE * pg_num, rd) {
            Ok(a) => {
                self.data = a;
                self.free.clear();
                self.counter = 0;
                Ok(a)
            },
            Err(e) => Err(e),
        }
    }

    /// Gives the run of `pg_num` pages of the record, whose pages carry
    /// no tag any more, back to the backend. Returns the base of the run
    /// and what the backend gave back to the system, if anything.
    pub fn destroy_page(&mut self, pg_num: usize, backend: &mut FreeList, rd: &mut RadixTree) -> (r:
        (usize, Option<(usize, usize)>))
        requires
            old(backend).wf(old(rd)),
            0 < pg_num <= 1024,
            old(self).data != 0,
            old(backend).clear_alloc(old(rd), old(self).data, pg_num as int),
        ensures
            final(backend).wf(final(rd)),
            r.0 == old(self).data,
            final(self).data == 0,
            final(self).counter == 0,
            final(self).free@.len() == 0,
            final(self).prev == old(self).prev,
            final(self).next == old(self).next,
            final(self).kind == old(self).kind,
            forall|p: int|
                final(backend).allocated(p) <==> (old(backend).allocated(p) && !crate::freelist::in_run(
                    old(self).data as int,
                    pg_num as int,
                    p,
                )),
            forall|p: int| final(backend).allocated(p) ==> final(rd).tag(p) == old(rd).tag(p),
            crate::freelist::ranges::gave_back(
                old(backend).managed@,
                final(backend).managed@,
                crate::freelist::ranges::some_range(r.1),
            ),
    {
        assert(pages_for(pg_num * PG_SIZE) == pg_num);
        let p = self.data;
        let released = backend.free_pages(p, PG_SIZE * pg_num, rd);
        self.data = 0;
        self.free.clear();
        self.counter = 0;
        (p, released)
    }

    /// Hands out every cell of the run that is not handed out yet: the
    /// whole run as one range when no cell is out, else the free cells as
    /// a list.
    pub fn allocate_all(&mut self, pg_count: usize, pg_align: usize) -> (batch: Batch)
        requires
            old(self).counter <= pg_count,
        ensures
            final(self).counter == pg_count,
            final(self).free@.len() == 0,
            final(self).data == old(self).data,
            final(self).prev == old(self).prev,
            final(self).next == old(self).next,
            final(self).kind == old(self).kind,
            old(self).counter == 0 ==> batch == (Batch::Contiguous {
                base: old(self).data,
                count: pg_count,
                unit: pg_align,
            }),
            old(self).counter != 0 ==> (batch matches Batch::Linked { cells } && cells@ == old(self).free@),
    {
        if self.counter == 0 {
            self.counter = pg_count;
            self.free.clear();
            Batch::Contiguous { base: self.data, count: pg_count, unit: pg_align }
        } else {
            self.counter = pg_count;
            let mut cells: Vec<usize> = Vec::new();
            std::mem::swap(&mut cells, &mut self.free);
            Batch::Linked { cells }
        }
    }

    /// Takes back the cells `cells[start..end]`, which belong to the run
    /// of this record: they go onto the free list, the first of them as
    /// its new head.
    pub fn deallocate(&mut self, cells: &Vec<usize>, start: usize, end: usize)
        requires
            start <= end <= cells.len(),
            old(self).counter >= end - start,
        ensures
            final(self).counter == old(self).counter - (end - start),
            final(self).free@ == old(self).free@ + cells@.subrange(start as int, end as int).reverse(),
            final(self).data == old(self).data,
            final(self).prev == old(self).prev,
            final(self).next == old(self).next,
            final(self).kind == old(self).kind,
    {
        let mut i: usize = end;
        while i > start
            invariant
                start <= i <= end <= cells.len(),
                self.counter == old(self).counter,
                self.data == old(self).data,
                self.prev == old(self).prev,
                self.next == old(self).next,
                self.kind == old(self).kind,
                self.free@ == old(self).free@ + cells@.subrange(i as int, end as int).reverse(),
            decreases i - start,
        {
            i -= 1;
            self.free.push(cells[i]);
            proof {
                let a = cells@.subrange(i as int, end as int);
                let b = cells@.subrange(i + 1, end as int);
                assert(a.reverse() =~= b.reverse().push(cells[i as int]));
            }
        }
        self.counter -= end - start;
    }
}

} // verus!
