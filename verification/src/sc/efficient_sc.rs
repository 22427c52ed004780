use crate::collections::radix_tree::{RadixTree, TreeNode};
use crate::error::AllocError;
use crate::freelist::bump::PG_SIZE;
use crate::freelist::{in_run, page_of, FreeList};
use crate::page::efficient_page::{
    cells, is_cell, lemma_cells_len, Batch, ObjectPage, PageKind,
};
use crate::sc::page_list::{relinked, same_body, PageList};
use crate::PAGE_SIZE;
use vstd::arithmetic::power2::{is_pow2, pow2};
use crate::freelist::ranges::{gave_back, lemma_gave_more, lemma_gave_nothing, some_range};
use vstd::prelude::*;

verus! {

/// Empty runs that a size class keeps before it gives runs back to the
/// backend.
pub const EMPTY_CAP: usize = 2048;

/// Most page records that one size class holds.
pub const MAX_RECORDS: usize = 0x4000_0000;

/// Most pages in one run.
pub const MAX_RUN_PAGES: usize = 1024;

/// The tag that the page index holds for the pages of the run of record
/// `id` of size class `class`: a positive number whose remainder by 64 is
/// the class.
pub open spec fn owner_tag(class: int, id: int) -> i64 {
    ((id + 1) * 64 + class) as i64
}

/// The record that a positive tag names.
pub open spec fn tag_id(t: i64) -> int {
    t / 64 - 1
}

/// The first address of the page that holds `ptr`.
pub fn align_12k(ptr: usize) -> (page_vaddr: usize)
    ensures
        page_vaddr == ptr / PAGE_SIZE * PAGE_SIZE,
        page_vaddr <= ptr < page_vaddr + PAGE_SIZE,
{
    ptr - ptr % PAGE_SIZE
}

/// `p` is the smallest power of two that is at least `x`.
pub open spec fn is_next_pow2(x: int, p: int) -> bool {
    &&& is_pow2(p)
    &&& p >= x
    &&& p > 1 ==> p / 2 < x
}

/// The smallest power of two that is at least `x`.
pub fn next_power_of_two(x: usize) -> (p: usize)
    requires
        x <= 0x4000_0000,
    ensures
        is_next_pow2(x as int, p as int),
{
    let mut p: usize = 1;
    proof {
        reveal_with_fuel(is_pow2, 2);
    }
    while p < x
        invariant
            is_pow2(p as int),
            p >= 1,
            p > 1 ==> p / 2 < x,
            x <= 0x4000_0000,
        decreases 0x8000_0000 - p,
    {
        proof {
            reveal_with_fuel(is_pow2, 2);
            assert(is_pow2(2 * p as int));
        }
        p = p * 2;
    }
    p
}

/// Whether `x` is a power of two.
pub fn is_power_of_two(x: usize) -> (b: bool)
    requires
        x <= 0x4000_0000,
    ensures
        b == is_pow2(x as int),
{
    if x == 0 {
        proof {
            reveal_with_fuel(is_pow2, 2);
        }
        return false;
    }
    let p = next_power_of_two(x);
    proof {
        if is_pow2(x as int) && p != x {
            lemma_pow2_gap(x as int, p as int);
        }
    }
    p == x
}

/// No power of two lies strictly between a power of two and its half.
pub proof fn lemma_pow2_gap(x: int, p: int)
    requires
        is_pow2(x),
        is_pow2(p),
        x < p,
    ensures
        x <= p / 2,
    decreases p,
{
    reveal_with_fuel(is_pow2, 2);
    if x > 1 {
        lemma_pow2_gap(x / 2, p / 2);
    }
}

/// The bytes between the starts of two neighbouring cells of a run of
/// `pages` pages of cells of `size` bytes: the run divided evenly among
/// its cells when that is a power of two, else the cell size rounded up
/// to half the power of two above the waste per cell.
pub open spec fn stride_of(size: int, pages: int, half: int) -> int {
    let run = pages * PAGE_SIZE;
    let count = run / size;
    let perfect = run / count;
    let min_align = if half == 0 {
        1
    } else {
        half
    };
    let rem = if size % min_align == 0 {
        size
    } else {
        (size / min_align + 1) * min_align
    };
    if is_pow2(perfect) {
        perfect
    } else {
        rem
    }
}

/// The central allocator of one size class.
///
/// `pages` is the table of the page records of the class; a record is
/// named by its index. Each record is on one of four rings: `full`,
/// `partial`, `empty` and `uninit`. A run has `pg_num` pages and
/// `pg_count` cells, which lie `pg_align` bytes apart.
pub struct SCAllocator {
    pub pages: Vec<ObjectPage>,
    pub full: PageList,
    pub partial: PageList,
    pub empty: PageList,
    pub uninit: PageList,
    pub empty_count: usize,
    pub pg_num: usize,
    pub pg_count: usize,
    pub pg_align: usize,
    pub size_class: usize,
    pub index: usize,
}

impl SCAllocator {
    /// The parameters describe runs that can be cut into cells.
    pub open spec fn usable(&self) -> bool {
        &&& 1 <= self.index < 64
        &&& 1 <= self.pg_num <= MAX_RUN_PAGES
        &&& 1 <= self.pg_count
        &&& 1 <= self.size_class <= self.pg_align
        &&& self.pg_count * self.pg_align <= self.pg_num * PAGE_SIZE
    }

    /// The allocator of a class of cells of `size_class` bytes, with
    /// index `idx` and runs of `num_os_pages` pages. A class of size 0
    /// has no runs.
    pub fn new(size_class: usize, idx: usize, num_os_pages: usize) -> (sc: Self)
        requires
            size_class != 0 ==> 1 <= idx < 64 && 1 <= num_os_pages <= MAX_RUN_PAGES && size_class
                <= num_os_pages * PAGE_SIZE,
        ensures
            sc.pages@.len() == 0,
            sc.full.order@.len() == 0 && sc.full.start == 0,
            sc.partial.order@.len() == 0 && sc.partial.start == 0,
            sc.empty.order@.len() == 0 && sc.empty.start == 0,
            sc.uninit.order@.len() == 0 && sc.uninit.start == 0,
            sc.empty_count == 0,
            sc.size_class == size_class,
            size_class == 0 ==> sc.pg_num == 0 && sc.pg_count == 0 && sc.pg_align == 0 && sc.index
                == 0,
            size_class != 0 ==> {
                &&& sc.usable()
                &&& sc.index == idx
                &&& sc.pg_num == num_os_pages
                &&& sc.pg_count == (num_os_pages * PAGE_SIZE) / size_class as int
                &&& forall|p: int| #[trigger]
                    is_next_pow2(
                        (num_os_pages * PAGE_SIZE) / (sc.pg_count as int) - size_class,
                        p,
                    ) ==> sc.pg_align == stride_of(size_class as int, num_os_pages as int, p / 2)
            },
    {
        if size_class == 0 {
            return Self {
                pages: Vec::new(),
                full: PageList::new(),
                partial: PageList::new(),
                empty: PageList::new(),
                uninit: PageList::new(),
                empty_count: 0,
                pg_num: 0,
                pg_count: 0,
                pg_align: 0,
                size_class: 0,
                index: 0,
            };
        }
        let run: usize = PAGE_SIZE * num_os_pages;
        let pg_count: usize = run / size_class;
        assert(pg_count >= 1 && pg_count <= run) by (nonlinear_arith)
            requires
                pg_count == run / size_class,
                1 <= size_class <= run,
        ;
        let perfect_align: usize = run / pg_count;
        assert(perfect_align >= size_class && perfect_align * pg_count <= run) by (nonlinear_arith)
            requires
                pg_count == run / size_class,
                perfect_align == run / pg_count,
                pg_count >= 1,
                1 <= size_class <= run,
        ;
        let diff_align: usize = perfect_align - size_class;
        let np: usize = next_power_of_two(diff_align);
        let min_align: usize = if np / 2 == 0 {
            1
        } else {
            np / 2
        };
        let rem: usize = if size_class % min_align == 0 {
            size_class
        } else {
            assert((size_class / min_align + 1) * min_align <= size_class + min_align
                && (size_class / min_align + 1) * min_align >= size_class) by (nonlinear_arith)
                requires
                    min_align >= 1,
            ;
            (size_class / min_align + 1) * min_align
        };
        let align: usize = if is_power_of_two(perfect_align) {
            perfect_align
        } else {
            rem
        };
        assert(pg_count * align <= run) by (nonlinear_arith)
            requires
                size_class <= align <= perfect_align,
                perfect_align * pg_count <= run,
                pg_count >= 1,
        ;
        proof {
            assert forall|p: int| #[trigger] is_next_pow2(diff_align as int, p) implies p
                == np by {
                reveal_with_fuel(is_pow2, 2);
                if p < np {
                    lemma_pow2_gap(p, np as int);
                } else if np < p {
                    lemma_pow2_gap(np as int, p);
                }
            }
        }
        Self {
            pages: Vec::new(),
            full: PageList::new(),
            partial: PageList::new(),
            empty: PageList::new(),
            uninit: PageList::new(),
            empty_count: 0,
            pg_num: num_os_pages,
            pg_count,
            pg_align: align,
            size_class,
            index: idx,
        }
    }
}

/// A cell of a run lies inside the pages of the run, stride and all.
pub proof fn lemma_cell_in_run(data: int, unit: int, count: int, pg_num: int, x: int)
    requires
        unit >= 1,
        count * unit <= pg_num * PAGE_SIZE,
        data >= 0,
        data % (PAGE_SIZE as int) == 0,
        is_cell(data, unit, count, x),
    ensures
        data <= x,
        x + unit <= data + pg_num * PAGE_SIZE,
        forall|y: int| x <= y < x + unit ==> in_run(data, pg_num, page_of(y)),
{
    let k = (x - data) / unit;
    assert(x - data == k * unit && k * unit + unit <= count * unit) by (nonlinear_arith)
        requires
            unit >= 1,
            x - data >= 0,
            (x - data) % unit == 0,
            k == (x - data) / unit,
            k < count,
    ;
}

/// Two different cells of one run lie at least one stride apart.
pub proof fn lemma_cells_apart(data: int, unit: int, count: int, x: int, y: int)
    requires
        unit >= 1,
        is_cell(data, unit, count, x),
        is_cell(data, unit, count, y),
        x < y,
    ensures
        x + unit <= y,
{
    assert(x + unit <= y) by (nonlinear_arith)
        requires
            unit >= 1,
            x - data >= 0,
            y - data >= 0,
            (x - data) % unit == 0,
            (y - data) % unit == 0,
            x < y,
    ;
}

/// A list of different numbers below `n` has at most `n` entries.
pub proof fn lemma_pigeon(s: Seq<int>, n: int)
    requires
        n >= 0,
        s.no_duplicates(),
        forall|j: int| 0 <= j < s.len() ==> 0 <= #[trigger] s[j] < n,
    ensures
        s.len() <= n,
    decreases n,
{
    if s.len() > 0 {
        if n == 0 {
            assert(0 <= s[0] < n);
        } else if exists|j: int| 0 <= j < s.len() && s[j] == n - 1 {
            let j = choose|j: int| 0 <= j < s.len() && s[j] == n - 1;
            let t = s.remove(j);
            assert forall|a: int, b: int| 0 <= a < t.len() && 0 <= b < t.len() && a != b implies t[a]
                != t[b] by {
                let a2 = if a < j { a } else { a + 1 };
                let b2 = if b < j { b } else { b + 1 };
                assert(t[a] == s[a2] && t[b] == s[b2]);
            }
            assert forall|i: int| 0 <= i < t.len() implies 0 <= #[trigger] t[i] < n - 1 by {
                let i2 = if i < j { i } else { i + 1 };
                assert(t[i] == s[i2]);
                assert(s[i2] != s[j]);
            }
            lemma_pigeon(t, n - 1);
            assert(t.len() == s.len() - 1);
        } else {
            assert forall|i: int| 0 <= i < s.len() implies 0 <= #[trigger] s[i] < n - 1 by {
                if s[i] == n - 1 {
                    assert(exists|j: int| 0 <= j < s.len() && s[j] == n - 1);
                }
            }
            lemma_pigeon(s, n - 1);
        }
    }
}

/// A list of different cells of one run has at most as many entries as
/// the run has cells.
pub proof fn lemma_cells_bound(data: int, unit: int, count: int, s: Seq<usize>)
    requires
        unit >= 1,
        count >= 0,
        s.no_duplicates(),
        forall|j: int| 0 <= j < s.len() ==> is_cell(data, unit, count, #[trigger] s[j] as int),
    ensures
        s.len() <= count,
{
    let t = Seq::new(s.len(), |j: int| (s[j] - data) / unit);
    assert forall|a: int, b: int| 0 <= a < t.len() && 0 <= b < t.len() && a != b implies t[a]
        != t[b] by {
        let x = s[a] as int;
        let y = s[b] as int;
        assert(is_cell(data, unit, count, x));
        assert(is_cell(data, unit, count, y));
        if t[a] == t[b] {
            assert(x == y) by (nonlinear_arith)
                requires
                    unit >= 1,
                    x - data >= 0,
                    y - data >= 0,
                    (x - data) % unit == 0,
                    (y - data) % unit == 0,
                    (x - data) / unit == (y - data) / unit,
            ;
        }
    }
    assert forall|j: int| 0 <= j < t.len() implies 0 <= #[trigger] t[j] < count by {
        let x = s[j] as int;
        assert(is_cell(data, unit, count, x));
        assert((x - data) / unit >= 0) by (nonlinear_arith)
            requires
                unit >= 1,
                x - data >= 0,
        ;
    }
    lemma_pigeon(t, count);
}

impl SCAllocator {
    /// The four rings are well-formed and hold all records between them.
    pub open spec fn lists_ok(&self) -> bool {
        &&& self.full.wf(self.pages@, PageKind::Full)
        &&& self.partial.wf(self.pages@, PageKind::Partial)
        &&& self.empty.wf(self.pages@, PageKind::Empty)
        &&& self.uninit.wf(self.pages@, PageKind::Uninit)
        &&& self.empty_count == self.empty.order@.len()
        &&& self.pages.len() <= MAX_RECORDS
    }

    /// The order of the ring of kind `kind`.
    pub open spec fn order_of(&self, kind: PageKind) -> Seq<int> {
        match kind {
            PageKind::Full => self.full.order@,
            PageKind::Partial => self.partial.order@,
            PageKind::Empty => self.empty.order@,
            PageKind::Uninit => self.uninit.order@,
            PageKind::Detached => Seq::empty(),
        }
    }

    /// The parameters of the class are those of `before`.
    pub open spec fn same_params(&self, before: &SCAllocator) -> bool {
        &&& self.pg_num == before.pg_num
        &&& self.pg_count == before.pg_count
        &&& self.pg_align == before.pg_align
        &&& self.size_class == before.size_class
        &&& self.index == before.index
    }

    /// Takes the record `idx` out of the ring of its kind.
    pub fn detach(&mut self, kind: PageKind, idx: usize)
        requires
            old(self).lists_ok(),
            idx < old(self).pages.len(),
            old(self).pages[idx as int].kind == kind,
            kind != PageKind::Detached,
        ensures
            final(self).lists_ok(),
            final(self).same_params(old(self)),
            relinked(old(self).pages@, final(self).pages@, kind, idx as int, PageKind::Detached),
            old(self).order_of(kind).contains(idx as int),
            final(self).order_of(kind) == old(self).order_of(kind).remove(
                old(self).order_of(kind).index_of(idx as int),
            ),
            forall|k: PageKind| k != kind ==> final(self).order_of(k) == old(self).order_of(k),
            kind != PageKind::Full ==> final(self).full == old(self).full,
            kind != PageKind::Partial ==> final(self).partial == old(self).partial,
            kind != PageKind::Empty ==> final(self).empty == old(self).empty,
            kind != PageKind::Uninit ==> final(self).uninit == old(self).uninit,
    {
        match kind {
            PageKind::Full => {
                self.full.remove(&mut self.pages, kind, idx);
            },
            PageKind::Partial => {
                self.partial.remove(&mut self.pages, kind, idx);
            },
            PageKind::Empty => {
                self.empty.remove(&mut self.pages, kind, idx);
                self.empty_count -= 1;
            },
            PageKind::Uninit => {
                self.uninit.remove(&mut self.pages, kind, idx);
            },
            PageKind::Detached => {},
        }
        proof {
            self.lemma_rings_frame(old(self), kind, idx as int, PageKind::Detached);
        }
    }

    /// Puts the detached record `idx` at the end of the ring of kind
    /// `kind`.
    pub fn attach(&mut self, kind: PageKind, idx: usize)
        requires
            old(self).lists_ok(),
            idx < old(self).pages.len(),
            old(self).pages[idx as int].kind == PageKind::Detached,
            kind != PageKind::Detached,
        ensures
            final(self).lists_ok(),
            final(self).same_params(old(self)),
            relinked(old(self).pages@, final(self).pages@, kind, idx as int, kind),
            final(self).order_of(kind) == old(self).order_of(kind).push(idx as int),
            forall|k: PageKind| k != kind ==> final(self).order_of(k) == old(self).order_of(k),
            kind != PageKind::Full ==> final(self).full == old(self).full,
            kind != PageKind::Partial ==> final(self).partial == old(self).partial,
            kind != PageKind::Empty ==> final(self).empty == old(self).empty,
            kind != PageKind::Uninit ==> final(self).uninit == old(self).uninit,
    {
        proof {
            if kind == PageKind::Empty {
                lemma_pigeon(self.empty.order@, self.pages.len() as int);
            }
        }
        match kind {
            PageKind::Full => {
                self.full.insert(&mut self.pages, kind, idx);
            },
            PageKind::Partial => {
                self.partial.insert(&mut self.pages, kind, idx);
            },
            PageKind::Empty => {
                self.empty.insert(&mut self.pages, kind, idx);
                self.empty_count += 1;
            },
            PageKind::Uninit => {
                self.uninit.insert(&mut self.pages, kind, idx);
            },
            PageKind::Detached => {},
        }
        proof {
            self.lemma_rings_frame(old(self), kind, idx as int, kind);
        }
    }

    /// A change of the ring of kind `kind` leaves the other rings
    /// well-formed.
    pub proof fn lemma_rings_frame(
        &self,
        before: &SCAllocator,
        kind: PageKind,
        idx: int,
        now: PageKind,
    )
        requires
            before.lists_ok(),
            0 <= idx < before.pages.len(),
            kind != PageKind::Detached,
            now == kind || now == PageKind::Detached,
            before.pages[idx].kind == kind || before.pages[idx].kind == PageKind::Detached,
            relinked(before.pages@, self.pages@, kind, idx, now),
            kind != PageKind::Full ==> self.full == before.full,
            kind != PageKind::Partial ==> self.partial == before.partial,
            kind != PageKind::Empty ==> self.empty == before.empty,
            kind != PageKind::Uninit ==> self.uninit == before.uninit,
        ensures
            kind != PageKind::Full ==> self.full.wf(self.pages@, PageKind::Full),
            kind != PageKind::Partial ==> self.partial.wf(self.pages@, PageKind::Partial),
            kind != PageKind::Empty ==> self.empty.wf(self.pages@, PageKind::Empty),
            kind != PageKind::Uninit ==> self.uninit.wf(self.pages@, PageKind::Uninit),
    {
        if kind != PageKind::Full {
            before.full.lemma_frame(before.pages@, self.pages@, PageKind::Full);
        }
        if kind != PageKind::Partial {
            before.partial.lemma_frame(before.pages@, self.pages@, PageKind::Partial);
        }
        if kind != PageKind::Empty {
            before.empty.lemma_frame(before.pages@, self.pages@, PageKind::Empty);
        }
        if kind != PageKind::Uninit {
            before.uninit.lemma_frame(before.pages@, self.pages@, PageKind::Uninit);
        }
    }
}

impl SCAllocator {
    /// The run of record `id` starts at a page boundary above address 0,
    /// and each of its pages carries the tag of the record.
    pub open spec fn run_tagged(&self, rd: &RadixTree, id: int) -> bool {
        let data = self.pages[id].data as int;
        &&& data > 0
        &&& data % (PG_SIZE as int) == 0
        &&& data + self.pg_num * PG_SIZE <= usize::MAX
        &&& forall|q: int|
            in_run(data, self.pg_num as int, q) ==> #[trigger] rd.tag(q) == owner_tag(
                self.index as int,
                id,
            )
    }

    /// What the kind of record `id` says of its run, counter and free
    /// cells.
    pub open spec fn body_ok(&self, id: int) -> bool {
        let p = self.pages[id];
        match p.kind {
            PageKind::Uninit => p.data == 0 && p.counter == 0 && p.free@.len() == 0,
            PageKind::Empty => p.data != 0 && p.counter == 0 && p.free@.len() == 0,
            PageKind::Partial => {
                &&& p.data != 0
                &&& 0 < p.counter < self.pg_count
                &&& p.free@.len() == self.pg_count - p.counter
                &&& p.free@.no_duplicates()
                &&& forall|j: int|
                    0 <= j < p.free@.len() ==> is_cell(
                        p.data as int,
                        self.pg_align as int,
                        self.pg_count as int,
                        #[trigger] p.free@[j] as int,
                    )
            },
            PageKind::Full => p.data != 0 && p.counter == self.pg_count && p.free@.len() == 0,
            PageKind::Detached => false,
        }
    }

    /// Record `id` is as its kind says, and the page index names its run.
    pub open spec fn record_ok(&self, rd: &RadixTree, id: int) -> bool {
        self.body_ok(id) && (self.pages[id].data != 0 ==> self.run_tagged(rd, id))
    }

    /// Every record is as its kind says, and the page index names every
    /// run.
    pub open spec fn pages_ok(&self, rd: &RadixTree) -> bool {
        forall|id: int| 0 <= id < self.pages.len() ==> #[trigger] self.record_ok(rd, id)
    }

    /// The invariant of the size class together with the page index.
    pub open spec fn wf(&self, rd: &RadixTree) -> bool {
        &&& self.usable()
        &&& self.lists_ok()
        &&& self.pages_ok(rd)
    }

    /// Whether the cell at `x` belongs to the run of record `id` and is
    /// handed out.
    pub open spec fn page_out(&self, id: int, x: int) -> bool {
        let p = self.pages[id];
        &&& p.data != 0
        &&& is_cell(p.data as int, self.pg_align as int, self.pg_count as int, x)
        &&& (p.kind == PageKind::Full || (p.kind == PageKind::Partial && !p.free@.contains(
            x as usize,
        )))
    }

    /// Whether `x` is a cell of this class that is handed out: the page
    /// index names a record of this class for the page of `x`, and `x` is
    /// a cell of the run of that record that is not on its free list.
    pub open spec fn out(&self, rd: &RadixTree, x: int) -> bool {
        let t = rd.tag(page_of(x));
        &&& 0 <= x <= usize::MAX
        &&& t > 0
        &&& t % 64 == self.index
        &&& 0 <= tag_id(t) < self.pages.len()
        &&& self.page_out(tag_id(t), x)
    }

    /// The page index names record `id` for every cell of its run.
    pub proof fn lemma_cell_owner(&self, rd: &RadixTree, id: int, x: int)
        requires
            self.usable(),
            0 <= id < self.pages.len() <= MAX_RECORDS,
            self.run_tagged(rd, id),
            is_cell(self.pages[id].data as int, self.pg_align as int, self.pg_count as int, x),
        ensures
            rd.tag(page_of(x)) == owner_tag(self.index as int, id),
            owner_tag(self.index as int, id) > 0,
            owner_tag(self.index as int, id) % 64 == self.index,
            tag_id(owner_tag(self.index as int, id)) == id,
            in_run(self.pages[id].data as int, self.pg_num as int, page_of(x)),
            x + self.pg_align <= self.pages[id].data + self.pg_num * PAGE_SIZE,
    {
        lemma_cell_in_run(
            self.pages[id].data as int,
            self.pg_align as int,
            self.pg_count as int,
            self.pg_num as int,
            x,
        );
    }

    /// A positive tag that the backend knows lies on an allocated page.
    pub proof fn lemma_tagged_is_allocated(backend: &FreeList, rd: &RadixTree, q: int)
        requires
            backend.wf(rd),
            rd.tag(q) > 0,
        ensures
            backend.allocated(q),
    {
        reveal(FreeList::inv);
        if backend.free_page(q) {
            let (b, l) = choose|b: usize, l: int| #[trigger]
                backend.has_run(b, l) && in_run(b as int, l, q);
            assert(backend.run_ok(rd, b, l));
        }
    }

    /// Hands out the free cells of the first partial run, which becomes
    /// full.
    fn batch_from_partial(&mut self, rd: &RadixTree) -> (batch: Batch)
        requires
            old(self).wf(rd),
            old(self).partial.start != 0,
        ensures
            final(self).wf(rd),
            final(self).same_params(old(self)),
            batch matches Batch::Linked { cells },
            batch.count() > 0,
            batch.well_placed(),
            forall|x: int| #[trigger] batch.has(x) ==> !old(self).out(rd, x),
            forall|x: int| #[trigger] final(self).out(rd, x) <==> (old(self).out(rd, x) || batch.has(x)),
            final(self).pages.len() == old(self).pages.len(),
            batch matches Batch::Linked { cells } ==> cells@ == old(self).pages[old(
                self,
            ).partial.order@[0]].free@,
    {
        let idx: usize = self.partial.start - 1;
        proof {
            assert(idx == self.partial.order@[0]);
            assert(self.pages[self.partial.order@[0]].kind == PageKind::Partial);
            assert(self.record_ok(rd, idx as int));
        }
        let batch = self.pages[idx].allocate_all(self.pg_count, self.pg_align);
        let ghost mid = *self;
        proof {
            assert(mid.lists_ok()) by {
                old(self).full.lemma_frame(old(self).pages@, mid.pages@, PageKind::Full);
                old(self).partial.lemma_frame(old(self).pages@, mid.pages@, PageKind::Partial);
                old(self).empty.lemma_frame(old(self).pages@, mid.pages@, PageKind::Empty);
                old(self).uninit.lemma_frame(old(self).pages@, mid.pages@, PageKind::Uninit);
            }
        }
        self.detach(PageKind::Partial, idx);
        self.attach(PageKind::Full, idx);
        proof {
            let before = *old(self);
            let cells = before.pages[idx as int].free@;
            assert forall|id: int| 0 <= id < self.pages.len() implies #[trigger] self.record_ok(rd, id) by {
                assert(before.record_ok(rd, id));
                assert(same_body(mid.pages[id], self.pages[id]));
                if id != idx {
                    assert(mid.pages[id] == before.pages[id]);
                }
            }
            assert forall|x: int| #[trigger] batch.has(x) implies !before.out(rd, x) && self.out(rd, x) by {
                let j = choose|j: int| 0 <= j < cells.len() && cells[j] == x;
                before.lemma_cell_owner(rd, idx as int, x);
                assert(cells.contains(x as usize));
            }
            assert forall|x: int| #[trigger] self.out(rd, x) <==> (before.out(rd, x) || batch.has(x)) by {
                let t = rd.tag(page_of(x));
                if 0 <= x <= usize::MAX && t > 0 && t % 64 == self.index && 0 <= tag_id(t)
                    < self.pages.len() {
                    let id = tag_id(t);
                    assert(same_body(mid.pages[id], self.pages[id]));
                    if id != idx {
                        assert(mid.pages[id] == before.pages[id]);
                    } else if self.out(rd, x) && !before.out(rd, x) {
                        let j = choose|j: int| 0 <= j < cells.len() && cells[j] == x as usize;
                        assert(cells[j] == x);
                    }
                }
            }
        }
        batch
    }
}

impl SCAllocator {
    /// The rings do not depend on the runs, counters and free cells of
    /// the records.
    pub proof fn lemma_lists_frame(&self, before: &SCAllocator)
        requires
            before.lists_ok(),
            self.full == before.full,
            self.partial == before.partial,
            self.empty == before.empty,
            self.uninit == before.uninit,
            self.empty_count == before.empty_count,
            before.pages.len() <= self.pages.len() <= MAX_RECORDS,
            forall|id: int|
                0 <= id < before.pages.len() ==> (#[trigger] self.pages[id]).kind
                    == before.pages[id].kind && self.pages[id].prev == before.pages[id].prev
                    && self.pages[id].next == before.pages[id].next,
            forall|id: int|
                before.pages.len() <= id < self.pages.len() ==> (#[trigger] self.pages[id]).kind
                    == PageKind::Detached,
        ensures
            self.lists_ok(),
    {
        before.full.lemma_frame(before.pages@, self.pages@, PageKind::Full);
        before.partial.lemma_frame(before.pages@, self.pages@, PageKind::Partial);
        before.empty.lemma_frame(before.pages@, self.pages@, PageKind::Empty);
        before.uninit.lemma_frame(before.pages@, self.pages@, PageKind::Uninit);
    }

    /// Hands out all cells of the first empty run, which becomes full.
    fn batch_from_empty(&mut self, rd: &RadixTree) -> (batch: Batch)
        requires
            old(self).wf(rd),
            old(self).empty.start != 0,
        ensures
            final(self).wf(rd),
            final(self).same_params(old(self)),
            batch == (Batch::Contiguous {
                base: old(self).pages[old(self).empty.order@[0]].data,
                count: old(self).pg_count,
                unit: old(self).pg_align,
            }),
            forall|x: int| #[trigger] batch.has(x) ==> !old(self).out(rd, x),
            forall|x: int| #[trigger] final(self).out(rd, x) <==> (old(self).out(rd, x) || batch.has(x)),
            final(self).pages.len() == old(self).pages.len(),
            batch.well_placed(),
    {
        let idx: usize = self.empty.start - 1;
        proof {
            assert(idx == self.empty.order@[0]);
            assert(self.pages[self.empty.order@[0]].kind == PageKind::Empty);
            assert(self.record_ok(rd, idx as int));
        }
        self.detach(PageKind::Empty, idx);
        let ghost mid0 = *self;
        let batch = self.pages[idx].allocate_all(self.pg_count, self.pg_align);
        proof {
            self.lemma_lists_frame(&mid0);
        }
        self.attach(PageKind::Full, idx);
        proof {
            let before = *old(self);
            assert forall|id: int| 0 <= id < self.pages.len() implies #[trigger] self.record_ok(rd, id) by {
                assert(before.record_ok(rd, id));
                assert(same_body(mid0.pages[id], before.pages[id]));
                if id != idx {
                    assert(same_body(self.pages[id], mid0.pages[id]));
                }
            }
            assert forall|x: int| #[trigger] batch.has(x) implies !before.out(rd, x) && self.out(rd, x) by {
                before.lemma_cell_owner(rd, idx as int, x);
                lemma_cell_in_run(
                    before.pages[idx as int].data as int,
                    self.pg_align as int,
                    self.pg_count as int,
                    self.pg_num as int,
                    x,
                );
            }
            assert forall|x: int| #[trigger] self.out(rd, x) <==> (before.out(rd, x) || batch.has(x)) by {
                let t = rd.tag(page_of(x));
                if 0 <= x <= usize::MAX && t > 0 && t % 64 == self.index && 0 <= tag_id(t)
                    < self.pages.len() {
                    let id = tag_id(t);
                    assert(same_body(mid0.pages[id], before.pages[id]));
                    if id != idx {
                        assert(same_body(self.pages[id], mid0.pages[id]));
                    }
                }
            }
        }
        batch
    }

    /// Takes a record without a run off the ring of such records, or makes
    /// a new one; `None` when the table of records is full.
    fn fresh_record(&mut self, rd: &RadixTree) -> (r: Option<usize>)
        requires
            old(self).wf(rd),
        ensures
            final(self).same_params(old(self)),
            r is None <==> old(self).uninit.start == 0 && old(self).pages.len() >= MAX_RECORDS,
            r is None ==> *final(self) == *old(self),
            r matches Some(idx) ==> {
                &&& final(self).lists_ok()
                &&& idx < final(self).pages.len()
                &&& final(self).pages[idx as int].kind == PageKind::Detached
                &&& final(self).pages[idx as int].data == 0
                &&& final(self).pages[idx as int].counter == 0
                &&& final(self).pages[idx as int].free@.len() == 0
                &&& old(self).pages.len() <= final(self).pages.len() <= old(self).pages.len() + 1
                &&& final(self).pages.len() != old(self).pages.len() ==> idx == old(self).pages.len()
                &&& forall|id: int|
                    0 <= id < old(self).pages.len() && id != idx ==> same_body(
                        #[trigger] final(self).pages[id],
                        old(self).pages[id],
                    ) && final(self).pages[id].kind == old(self).pages[id].kind
                &&& idx < old(self).pages.len() ==> old(self).pages[idx as int].kind
                    == PageKind::Uninit
                &&& final(self).empty.start == old(self).empty.start
                &&& final(self).partial.start == old(self).partial.start
            },
    {
        if self.uninit.start != 0 {
            let idx: usize = self.uninit.start - 1;
            proof {
                assert(idx == self.uninit.order@[0]);
                assert(self.pages[self.uninit.order@[0]].kind == PageKind::Uninit);
                assert(self.record_ok(rd, idx as int));
            }
            self.detach(PageKind::Uninit, idx);
            Some(idx)
        } else if self.pages.len() < MAX_RECORDS {
            let idx: usize = self.pages.len();
            self.pages.push(ObjectPage::new());
            proof {
                self.lemma_lists_frame(old(self));
            }
            Some(idx)
        } else {
            None
        }
    }
}

impl SCAllocator {
    /// The invariant but for record `idx`, which is detached and has no
    /// run.
    pub open spec fn wf_but(&self, rd: &RadixTree, idx: int) -> bool {
        &&& self.usable()
        &&& self.lists_ok()
        &&& 0 <= idx < self.pages.len()
        &&& self.pages[idx].kind == PageKind::Detached
        &&& self.pages[idx].data == 0
        &&& self.pages[idx].counter == 0
        &&& self.pages[idx].free@.len() == 0
        &&& forall|id: int|
            0 <= id < self.pages.len() && id != idx ==> #[trigger] self.record_ok(rd, id)
    }

    /// A page that the backend holds allocated carries no mark of a free
    /// run.
    pub proof fn lemma_allocated_tag(backend: &FreeList, rd: &RadixTree, q: int)
        requires
            backend.wf(rd),
            backend.allocated(q),
        ensures
            rd.tag(q) >= 0,
    {
        reveal(FreeList::inv);
        if rd.tag(q) < 0 {
            let (b, l) = choose|b: usize, l: int| #[trigger]
                backend.has_run(b, l) && (q == page_of(b as int) || q == page_of(b as int) + l - 1);
            assert(backend.run_ok(rd, b, l));
            assert(in_run(b as int, l, q));
            assert(backend.free_page(q));
        }
    }

    /// The tags of `rd1` are those of `rd0` but for the `n` pages from the
    /// page of `a` on, which carry `v`.
    pub open spec fn run_set(rd0: &RadixTree, rd1: &RadixTree, a: int, n: int, v: i64) -> bool {
        &&& rd1.wf()
        &&& forall|q: int| #[trigger]
            rd1.tag(q) == if in_run(a, n, q) {
                v
            } else {
                rd0.tag(q)
            }
    }

    /// What a fresh run for the detached record `idx` brings about, once
    /// the backend has supplied the pages, the page index names the
    /// record for them and the record is full.
    #[verifier::rlimit(50)]
    pub proof fn lemma_fresh_run(
        &self,
        before: &SCAllocator,
        rd0: &RadixTree,
        rd1: &RadixTree,
        rd2: &RadixTree,
        backend0: &FreeList,
        backend1: &FreeList,
        idx: int,
        a: usize,
    )
        requires
            before.wf_but(rd0, idx),
            backend0.wf(rd0),
            backend1.wf(rd1),
            backend1.grabbed(rd1, backend0, rd0, a, before.pg_num as int),
            Self::run_set(rd1, rd2, a as int, before.pg_num as int, owner_tag(before.index as int, idx)),
            self.same_params(before),
            self.lists_ok(),
            self.pages.len() == before.pages.len(),
            forall|id: int|
                0 <= id < self.pages.len() && id != idx ==> same_body(
                    #[trigger] self.pages[id],
                    before.pages[id],
                ) && self.pages[id].kind == before.pages[id].kind,
            self.pages[idx].kind == PageKind::Full,
            self.pages[idx].data == a,
            self.pages[idx].counter == self.pg_count,
            self.pages[idx].free@.len() == 0,
        ensures
            self.wf(rd2),
            backend1.wf(rd2),
            forall|x: int|
                is_cell(a as int, self.pg_align as int, self.pg_count as int, x) ==> !before.out(
                    rd0,
                    x,
                ),
            forall|x: int| #[trigger] self.out(rd2, x) <==> (before.out(rd0, x) || is_cell(
                    a as int,
                    self.pg_align as int,
                    self.pg_count as int,
                    x,
                )),
            forall|q: int| rd0.tag(q) > 0 ==> rd2.tag(q) == rd0.tag(q),
            forall|q: int|
                rd2.tag(q) != rd0.tag(q) ==> rd0.tag(q) <= 0 && (rd2.tag(q) <= 0 || rd2.tag(q) % 64
                    == self.index),
            forall|q: int| backend0.allocated(q) ==> backend1.allocated(q),
            a > 0 && a as int % (PG_SIZE as int) == 0,
            a + self.pg_count * self.pg_align <= usize::MAX,
    {
        let n = before.pg_num as int;
        let tag = owner_tag(before.index as int, idx);
        backend1.lemma_alloc_bounds(rd1, a, n);
        assert forall|q: int| rd0.tag(q) > 0 implies rd2.tag(q) == rd0.tag(q) && !in_run(
            a as int,
            n,
            q,
        ) by {
            Self::lemma_tagged_is_allocated(backend0, rd0, q);
        }
        assert forall|q: int| !in_run(a as int, n, q) && rd0.tag(q) <= 0 implies rd2.tag(q)
            <= 0 by {
            if rd1.tag(q) > 0 {
                Self::lemma_tagged_is_allocated(backend1, rd1, q);
                Self::lemma_allocated_tag(backend0, rd0, q);
            }
        }
        assert(backend1.wf(rd2)) by {
            assert forall|p: int| backend1.allocated(p) implies rd2.tag(p) >= 0 by {
                Self::lemma_allocated_tag(backend1, rd1, p);
            }
            backend1.lemma_tags_frame(rd1, rd2);
        }
        assert forall|id: int| 0 <= id < self.pages.len() implies #[trigger] self.record_ok(rd2, id) by {
            if id != idx {
                assert(before.record_ok(rd0, id));
                assert(same_body(self.pages[id], before.pages[id]));
                if self.pages[id].data != 0 {
                    assert(before.run_tagged(rd0, id));
                    assert forall|q: int|
                        in_run(self.pages[id].data as int, n, q) implies #[trigger] rd2.tag(q)
                        == owner_tag(self.index as int, id) by {
                        assert(rd0.tag(q) == owner_tag(self.index as int, id));
                    }
                }
            }
        }
        assert forall|x: int|
            is_cell(a as int, self.pg_align as int, self.pg_count as int, x) implies !before.out(
            rd0,
            x,
        ) && self.out(rd2, x) by {
            self.lemma_cell_owner(rd2, idx, x);
            if rd0.tag(page_of(x)) > 0 {
                Self::lemma_tagged_is_allocated(backend0, rd0, page_of(x));
            }
        }
        assert forall|x: int| #[trigger] self.out(rd2, x) && !is_cell(
                a as int,
                self.pg_align as int,
                self.pg_count as int,
                x,
            ) implies before.out(rd0, x) by {
            let t = rd2.tag(page_of(x));
            let id = tag_id(t);
            assert(id != idx);
            assert(same_body(self.pages[id], before.pages[id]));
            assert(before.record_ok(rd0, id));
            assert(before.run_tagged(rd0, id));
            before.lemma_cell_owner(rd0, id, x);
        }
        assert forall|x: int| before.out(rd0, x) implies self.out(rd2, x) by {
            let t = rd0.tag(page_of(x));
            let id = tag_id(t);
            assert(same_body(self.pages[id], before.pages[id]));
        }
    }

    /// Gives the detached record `idx` a fresh run from the backend and
    /// hands out all of its cells; the record becomes full. When the
    /// backend has no pages, the record goes back on the ring of records
    /// without a run.
    fn batch_from_fresh(&mut self, idx: usize, rd: &mut RadixTree, backend: &mut FreeList) -> (r:
        Result<Batch, AllocError>)
        requires
            old(self).wf_but(old(rd), idx as int),
            old(backend).wf(old(rd)),
        ensures
            final(self).wf(final(rd)),
            final(backend).wf(final(rd)),
            final(self).same_params(old(self)),
            r is Ok <==> old(backend).can_serve(old(self).pg_num as int),
            r is Err ==> r == Err::<Batch, AllocError>(AllocError::ENOMEM) && final(backend).same_as(
                final(rd),
                old(backend),
                old(rd),
            ) && forall|x: int| #[trigger] final(self).out(final(rd), x) <==> old(self).out(old(rd), x),
            r matches Ok(batch) ==> {
                &&& batch matches Batch::Contiguous { base, count, unit }
                &&& count == old(self).pg_count && unit == old(self).pg_align
                &&& batch.well_placed()
                &&& forall|x: int| #[trigger] batch.has(x) ==> !old(self).out(old(rd), x)
                &&& forall|x: int| #[trigger] final(self).out(final(rd), x) <==> (old(self).out(old(rd), x) || batch.has(x))
                &&& forall|q: int| old(rd).tag(q) > 0 ==> final(rd).tag(q) == old(rd).tag(q)
                &&& forall|q: int|
                    final(rd).tag(q) != old(rd).tag(q) ==> old(rd).tag(q) <= 0 && (final(rd).tag(q)
                        <= 0 || final(rd).tag(q) % 64 == old(self).index)
                &&& forall|q: int| old(backend).allocated(q) ==> final(backend).allocated(q)
            },
    {
        let pg_num = self.pg_num;
        match self.pages[idx].allocate_page(pg_num, backend, rd) {
            Err(e) => {
                proof {
                    self.lemma_lists_frame(old(self));
                }
                self.attach(PageKind::Uninit, idx);
                proof {
                    let before = *old(self);
                    assert forall|id: int| 0 <= id < self.pages.len() implies #[trigger] self.record_ok(rd, id) by {
                        if id != idx {
                            assert(before.record_ok(old(rd), id));
                            assert(same_body(self.pages[id], before.pages[id]));
                            if self.pages[id].data != 0 {
                                assert(before.run_tagged(old(rd), id));
                            }
                        }
                    }
                    assert forall|x: int| #[trigger] self.out(rd, x) <==> before.out(old(rd), x) by {
                        let t = rd.tag(page_of(x));
                        if 0 <= x <= usize::MAX && t > 0 && t % 64 == self.index && 0 <= tag_id(t)
                            < self.pages.len() {
                            assert(same_body(self.pages[tag_id(t)], before.pages[tag_id(t)]));
                        }
                    }
                }
                Err(e)
            },
            Ok(a) => {
                let ghost rd1 = *rd;
                let tag: i64 = (idx as i64 + 1) * 64 + self.index as i64;
                let page: u64 = (a as u64) / (PG_SIZE as u64);
                rd.insert_pages(page, tag, pg_num);
                let ghost mid = *self;
                let batch = self.pages[idx].allocate_all(self.pg_count, self.pg_align);
                proof {
                    old(self).lemma_lists_frame(old(self));
                    mid.lemma_lists_frame(old(self));
                    self.lemma_lists_frame(&mid);
                }
                self.attach(PageKind::Full, idx);
                proof {
                    self.lemma_fresh_run(
                        old(self),
                        old(rd),
                        &rd1,
                        rd,
                        old(backend),
                        backend,
                        idx as int,
                        a,
                    );
                }
                Ok(batch)
            },
        }
    }
}

impl SCAllocator {
    /// Whether the class can hand out a batch for an alignment of
    /// `align` bytes: from a partial run when the alignment is 1, from an
    /// empty run, or from a fresh run when the backend has the pages and a
    /// record is at hand.
    pub open spec fn can_batch(&self, align: usize, backend: &FreeList) -> bool {
        ||| self.partial.start != 0 && align == 1
        ||| self.empty.start != 0
        ||| (self.uninit.start != 0 || self.pages.len() < MAX_RECORDS) && backend.can_serve(
            self.pg_num as int,
        )
    }

    /// Hands out a batch of cells.
    ///
    /// With an alignment of 1 and a partial run at hand, the batch is the
    /// list of the free cells of the first partial run. Else it is the
    /// whole of the first empty run, or of a fresh run from the backend,
    /// as one range for the receiver to cut. The run becomes full. The
    /// cells of the batch were not handed out before and are handed out
    /// after; no other cell changes. Fails with `ENOMEM`, and changes no
    /// cell, when there is neither such a run nor pages for a fresh one.
    pub fn allocate_batch_v2(&mut self, align: usize, rd: &mut RadixTree, backend: &mut FreeList) -> (r:
        Result<Batch, AllocError>)
        requires
            old(self).wf(old(rd)),
            old(backend).wf(old(rd)),
        ensures
            final(self).wf(final(rd)),
            final(backend).wf(final(rd)),
            final(self).same_params(old(self)),
            r is Ok <==> old(self).can_batch(align, old(backend)),
            r is Err ==> r == Err::<Batch, AllocError>(AllocError::ENOMEM) && final(backend).same_as(
                final(rd),
                old(backend),
                old(rd),
            ),
            r is Err ==> forall|x: int| #[trigger] final(self).out(final(rd), x) <==> old(self).out(old(rd), x),
            r matches Ok(batch) ==> {
                &&& batch.count() > 0
                &&& batch.well_placed()
                &&& old(self).partial.start != 0 && align == 1 ==> batch is Linked
                &&& !(old(self).partial.start != 0 && align == 1) ==> (batch matches Batch::Contiguous {
                    base,
                    count,
                    unit,
                } && count == old(self).pg_count && unit == old(self).pg_align)
                &&& old(self).partial.start != 0 && align == 1 ==> batch->Linked_cells@ == old(self).pages[old(self).partial.order@[0]].free@
                &&& !(old(self).partial.start != 0 && align == 1) && old(self).empty.start != 0
                    ==> batch->Contiguous_base == old(self).pages[old(self).empty.order@[0]].data
                &&& forall|x: int| #[trigger] batch.has(x) ==> !old(self).out(old(rd), x)
                &&& forall|x: int| #[trigger] final(self).out(final(rd), x) <==> (old(self).out(old(rd), x) || batch.has(x))
                &&& forall|q: int| old(rd).tag(q) > 0 ==> final(rd).tag(q) == old(rd).tag(q)
                &&& forall|q: int|
                    final(rd).tag(q) != old(rd).tag(q) ==> old(rd).tag(q) <= 0 && (final(rd).tag(q)
                        <= 0 || final(rd).tag(q) % 64 == old(self).index)
                &&& forall|q: int| old(backend).allocated(q) ==> final(backend).allocated(q)
            },
    {
        if self.partial.start != 0 && align == 1 {
            let batch = self.batch_from_partial(rd);
            proof {
                backend.lemma_same_alloc(rd, old(backend), old(rd));
            }
            return Ok(batch);
        }
        if self.empty.start != 0 {
            let batch = self.batch_from_empty(rd);
            proof {
                backend.lemma_same_alloc(rd, old(backend), old(rd));
            }
            return Ok(batch);
        }
        self.batch_from_new(rd, backend)
    }

    /// A record that `fresh_record` supplied is the one exception to the
    /// invariant, and no cell has changed.
    pub proof fn lemma_fresh_record(&self, before: &SCAllocator, rd: &RadixTree, idx: int)
        requires
            before.wf(rd),
            self.same_params(before),
            self.lists_ok(),
            0 <= idx < self.pages.len(),
            self.pages[idx].kind == PageKind::Detached,
            self.pages[idx].data == 0,
            self.pages[idx].counter == 0,
            self.pages[idx].free@.len() == 0,
            before.pages.len() <= self.pages.len() <= before.pages.len() + 1,
            self.pages.len() != before.pages.len() ==> idx == before.pages.len(),
            forall|id: int|
                0 <= id < before.pages.len() && id != idx ==> same_body(
                    #[trigger] self.pages[id],
                    before.pages[id],
                ) && self.pages[id].kind == before.pages[id].kind,
            idx < before.pages.len() ==> before.pages[idx].kind == PageKind::Uninit,
        ensures
            self.wf_but(rd, idx),
            forall|x: int| #[trigger] self.out(rd, x) <==> before.out(rd, x),
    {
        assert forall|id: int|
            0 <= id < self.pages.len() && id != idx implies #[trigger] self.record_ok(rd, id) by {
            assert(before.record_ok(rd, id));
            assert(same_body(self.pages[id], before.pages[id]));
        }
        assert forall|x: int| #[trigger] self.out(rd, x) <==> before.out(rd, x) by {
            let t = rd.tag(page_of(x));
            if 0 <= x <= usize::MAX && t > 0 && t % 64 == self.index && 0 <= tag_id(t)
                < self.pages.len() {
                let id = tag_id(t);
                if id < before.pages.len() {
                    assert(before.record_ok(rd, id));
                    if id != idx {
                        assert(same_body(self.pages[id], before.pages[id]));
                    }
                }
            }
        }
    }

    /// Hands out all cells of a fresh run from the backend.
    fn batch_from_new(&mut self, rd: &mut RadixTree, backend: &mut FreeList) -> (r: Result<
        Batch,
        AllocError,
    >)
        requires
            old(self).wf(old(rd)),
            old(backend).wf(old(rd)),
        ensures
            final(self).wf(final(rd)),
            final(backend).wf(final(rd)),
            final(self).same_params(old(self)),
            r is Ok <==> (old(self).uninit.start != 0 || old(self).pages.len() < MAX_RECORDS)
                && old(backend).can_serve(old(self).pg_num as int),
            r is Err ==> r == Err::<Batch, AllocError>(AllocError::ENOMEM) && final(backend).same_as(
                final(rd),
                old(backend),
                old(rd),
            ) && forall|x: int| #[trigger] final(self).out(final(rd), x) <==> old(self).out(old(rd), x),
            r matches Ok(batch) ==> {
                &&& batch matches Batch::Contiguous { base, count, unit }
                &&& count == old(self).pg_count && unit == old(self).pg_align
                &&& batch.well_placed()
                &&& forall|x: int| #[trigger] batch.has(x) ==> !old(self).out(old(rd), x)
                &&& forall|x: int| #[trigger] final(self).out(final(rd), x) <==> (old(self).out(old(rd), x) || batch.has(x))
                &&& forall|q: int| old(rd).tag(q) > 0 ==> final(rd).tag(q) == old(rd).tag(q)
                &&& forall|q: int|
                    final(rd).tag(q) != old(rd).tag(q) ==> old(rd).tag(q) <= 0 && (final(rd).tag(q)
                        <= 0 || final(rd).tag(q) % 64 == old(self).index)
                &&& forall|q: int| old(backend).allocated(q) ==> final(backend).allocated(q)
            },
    {
        let idx = match self.fresh_record(rd) {
            Some(idx) => idx,
            None => {
                proof {
                    backend.lemma_same_alloc(rd, old(backend), old(rd));
                }
                return Err(AllocError::ENOMEM);
            },
        };
        let ghost mid = *self;
        proof {
            self.lemma_fresh_record(old(self), rd, idx as int);
        }
        let r = self.batch_from_fresh(idx, rd, backend);
        proof {
            assert forall|x: int| #[trigger] mid.out(old(rd), x) <==> old(self).out(old(rd), x) by {}
            if r is Ok {
                let batch = r->Ok_0;
                assert forall|x: int| #[trigger] self.out(rd, x) <==> (old(self).out(old(rd), x) || batch.has(x)) by {
                    assert(mid.out(old(rd), x) <==> old(self).out(old(rd), x));
                }
                assert forall|x: int| #[trigger] batch.has(x) implies !old(self).out(old(rd), x) by {
                    assert(mid.out(old(rd), x) <==> old(self).out(old(rd), x));
                }
            } else {
                assert forall|x: int| #[trigger] self.out(rd, x) <==> old(self).out(old(rd), x) by {
                    assert(mid.out(old(rd), x) <==> old(self).out(old(rd), x));
                }
            }
        }
        r
    }

    /// Takes the full record `idx` off the ring of full records.
    pub fn remove_full(&mut self, idx: usize)
        requires
            old(self).lists_ok(),
            idx < old(self).pages.len(),
            old(self).pages[idx as int].kind == PageKind::Full,
        ensures
            final(self).lists_ok(),
            final(self).same_params(old(self)),
            relinked(
                old(self).pages@,
                final(self).pages@,
                PageKind::Full,
                idx as int,
                PageKind::Detached,
            ),
            final(self).full.order@ == old(self).full.order@.remove(
                old(self).full.order@.index_of(idx as int),
            ),
    {
        self.detach(PageKind::Full, idx);
    }

    /// Puts the detached record `idx` at the end of the ring of full
    /// records.
    pub fn insert_full(&mut self, idx: usize)
        requires
            old(self).lists_ok(),
            idx < old(self).pages.len(),
            old(self).pages[idx as int].kind == PageKind::Detached,
        ensures
            final(self).lists_ok(),
            final(self).same_params(old(self)),
            relinked(old(self).pages@, final(self).pages@, PageKind::Full, idx as int, PageKind::Full),
            final(self).full.order@ == old(self).full.order@.push(idx as int),
    {
        self.attach(PageKind::Full, idx);
    }

    /// Puts the detached record `idx` at the end of the ring of partial
    /// records.
    pub fn insert_partial(&mut self, idx: usize)
        requires
            old(self).lists_ok(),
            idx < old(self).pages.len(),
            old(self).pages[idx as int].kind == PageKind::Detached,
        ensures
            final(self).lists_ok(),
            final(self).same_params(old(self)),
            relinked(
                old(self).pages@,
                final(self).pages@,
                PageKind::Partial,
                idx as int,
                PageKind::Partial,
            ),
            final(self).partial.order@ == old(self).partial.order@.push(idx as int),
    {
        self.attach(PageKind::Partial, idx);
    }

    /// Takes the partial record `idx` off the ring of partial records.
    pub fn remove_partial(&mut self, idx: usize)
        requires
            old(self).lists_ok(),
            idx < old(self).pages.len(),
            old(self).pages[idx as int].kind == PageKind::Partial,
        ensures
            final(self).lists_ok(),
            final(self).same_params(old(self)),
            relinked(
                old(self).pages@,
                final(self).pages@,
                PageKind::Partial,
                idx as int,
                PageKind::Detached,
            ),
            final(self).partial.order@ == old(self).partial.order@.remove(
                old(self).partial.order@.index_of(idx as int),
            ),
    {
        self.detach(PageKind::Partial, idx);
    }

    /// Takes the first record off the ring of records without a run.
    pub fn remove_uninit(&mut self) -> (idx: usize)
        requires
            old(self).lists_ok(),
            old(self).uninit.start != 0,
        ensures
            final(self).lists_ok(),
            final(self).same_params(old(self)),
            idx == old(self).uninit.order@[0],
            relinked(
                old(self).pages@,
                final(self).pages@,
                PageKind::Uninit,
                idx as int,
                PageKind::Detached,
            ),
            final(self).uninit.order@ == old(self).uninit.order@.remove(0),
    {
        let idx: usize = self.uninit.start - 1;
        proof {
            assert(idx == self.uninit.order@[0]);
            assert(self.pages[self.uninit.order@[0]].kind == PageKind::Uninit);
        }
        self.detach(PageKind::Uninit, idx);
        proof {
            let o = old(self).uninit.order@;
            assert(o.index_of(idx as int) == 0) by {
                let k = o.index_of(idx as int);
                assert(o.contains(idx as int));
                assert(0 <= k < o.len() && o[k] == idx);
            }
        }
        idx
    }

    /// Takes the first record off the ring of empty records.
    pub fn remove_empty(&mut self) -> (idx: usize)
        requires
            old(self).lists_ok(),
            old(self).empty.start != 0,
        ensures
            final(self).lists_ok(),
            final(self).same_params(old(self)),
            idx == old(self).empty.order@[0],
            relinked(
                old(self).pages@,
                final(self).pages@,
                PageKind::Empty,
                idx as int,
                PageKind::Detached,
            ),
            final(self).empty.order@ == old(self).empty.order@.remove(0),
            final(self).empty_count == old(self).empty_count - 1,
    {
        let idx: usize = self.empty.start - 1;
        proof {
            assert(idx == self.empty.order@[0]);
            assert(self.pages[self.empty.order@[0]].kind == PageKind::Empty);
        }
        self.detach(PageKind::Empty, idx);
        proof {
            let o = old(self).empty.order@;
            assert(o.index_of(idx as int) == 0) by {
                let k = o.index_of(idx as int);
                assert(o.contains(idx as int));
                assert(0 <= k < o.len() && o[k] == idx);
            }
        }
        idx
    }

    /// Whether the class holds more empty runs than it keeps, so that the
    /// next run that becomes empty goes back to the backend.
    pub fn try_insert_ety(&self) -> (release: bool)
        ensures
            release == (self.empty_count > EMPTY_CAP),
    {
        self.empty_count > EMPTY_CAP
    }
}

impl SCAllocator {
    /// A cell that is handed out and lies in the run of record `id`
    /// belongs to that record.
    pub proof fn lemma_group_owner(&self, rd: &RadixTree, id: int, x: int)
        requires
            self.wf(rd),
            0 <= id < self.pages.len(),
            self.pages[id].data != 0,
            self.out(rd, x),
            self.pages[id].data <= x < self.pages[id].data + self.pg_num * PAGE_SIZE,
        ensures
            tag_id(rd.tag(page_of(x))) == id,
            self.page_out(id, x),
    {
        assert(self.record_ok(rd, id));
        assert(in_run(self.pages[id].data as int, self.pg_num as int, page_of(x)));
    }

    /// A list of different handed-out cells of one run is no longer than
    /// the counter of the run; when it is as long, it holds every
    /// handed-out cell of the run.
    pub proof fn lemma_group_bound(&self, rd: &RadixTree, id: int, g: Seq<usize>)
        requires
            self.wf(rd),
            0 <= id < self.pages.len(),
            g.no_duplicates(),
            g.len() > 0,
            forall|k: int| 0 <= k < g.len() ==> self.page_out(id, #[trigger] g[k] as int),
        ensures
            self.pages[id].kind == PageKind::Full || self.pages[id].kind == PageKind::Partial,
            g.len() <= self.pages[id].counter,
            self.pages[id].free@.len() == self.pg_count - self.pages[id].counter,
            g.len() == self.pages[id].counter ==> forall|x: int|
                0 <= x <= usize::MAX && #[trigger] self.page_out(id, x) ==> g.contains(x as usize),
    {
        assert(self.record_ok(rd, id));
        assert(self.page_out(id, g[0] as int));
        let p = self.pages[id];
        let free = p.free@;
        let s = free + g;
        let data = p.data as int;
        let unit = self.pg_align as int;
        let count = self.pg_count as int;
        assert forall|a: int, b: int| 0 <= a < s.len() && 0 <= b < s.len() && a != b implies s[a]
            != s[b] by {
            if a < free.len() && b >= free.len() {
                assert(self.page_out(id, g[b - free.len()] as int));
                assert(free.contains(s[a]));
            }
            if b < free.len() && a >= free.len() {
                assert(self.page_out(id, g[a - free.len()] as int));
                assert(free.contains(s[b]));
            }
        }
        assert forall|j: int| 0 <= j < s.len() implies is_cell(
            data,
            unit,
            count,
            #[trigger] s[j] as int,
        ) by {
            if j >= free.len() {
                assert(self.page_out(id, g[j - free.len()] as int));
            }
        }
        lemma_cells_bound(data, unit, count, s);
        if g.len() == p.counter {
            assert forall|x: int|
                0 <= x <= usize::MAX && #[trigger] self.page_out(id, x) implies g.contains(
                x as usize,
            ) by {
                if !g.contains(x as usize) {
                    let s2 = s.push(x as usize);
                    assert forall|a: int, b: int|
                        0 <= a < s2.len() && 0 <= b < s2.len() && a != b implies s2[a]
                        != s2[b] by {
                        if a == s.len() && b < s.len() {
                            if b < free.len() {
                                assert(free.contains(s[b]));
                            } else {
                                assert(g.contains(g[b - free.len()]));
                            }
                        }
                        if b == s.len() && a < s.len() {
                            if a < free.len() {
                                assert(free.contains(s[a]));
                            } else {
                                assert(g.contains(g[a - free.len()]));
                            }
                        }
                    }
                    assert forall|j: int| 0 <= j < s2.len() implies is_cell(
                        data,
                        unit,
                        count,
                        #[trigger] s2[j] as int,
                    ) by {
                        if j < s.len() {
                            assert(is_cell(data, unit, count, s[j] as int));
                        }
                    }
                    lemma_cells_bound(data, unit, count, s2);
                }
            }
        }
    }

    /// What taking back the group `g` of cells of record `id` brings
    /// about, whatever became of the record: it stays partial, it is
    /// empty and keeps its run, or it has given its run back.
    pub proof fn lemma_group_freed(
        &self,
        before: &SCAllocator,
        rd0: &RadixTree,
        rd1: &RadixTree,
        id: int,
        g: Seq<usize>,
    )
        requires
            before.wf(rd0),
            rd1.wf(),
            0 <= id < before.pages.len(),
            g.no_duplicates(),
            g.len() > 0,
            forall|k: int| 0 <= k < g.len() ==> before.page_out(id, #[trigger] g[k] as int),
            self.same_params(before),
            self.lists_ok(),
            self.pages.len() == before.pages.len(),
            forall|i: int|
                0 <= i < self.pages.len() && i != id ==> same_body(
                    #[trigger] self.pages[i],
                    before.pages[i],
                ) && self.pages[i].kind == before.pages[i].kind,
            forall|q: int|
                !in_run(before.pages[id].data as int, before.pg_num as int, q) && rd0.tag(q) > 0
                    ==> #[trigger] rd1.tag(q) == rd0.tag(q),
            forall|q: int| #[trigger] rd1.tag(q) > 0 ==> rd1.tag(q) == rd0.tag(q),
            ({
                let rec0 = before.pages[id];
                let rec1 = self.pages[id];
                ||| (rec1.kind == PageKind::Partial && rec1.data == rec0.data && rec1.free@ == rec0.free@
                    + g.reverse() && rec1.counter == rec0.counter - g.len() && rec1.counter > 0
                    && forall|q: int|
                    in_run(rec0.data as int, before.pg_num as int, q) ==> #[trigger] rd1.tag(q)
                        == rd0.tag(q))
                ||| (rec1.kind == PageKind::Empty && rec1.data == rec0.data && rec1.free@.len() == 0
                    && rec1.counter == 0 && rec0.counter == g.len() && forall|q: int|
                    in_run(rec0.data as int, before.pg_num as int, q) ==> #[trigger] rd1.tag(q)
                        == rd0.tag(q))
                ||| (rec1.kind == PageKind::Uninit && rec1.data == 0 && rec1.free@.len() == 0
                    && rec1.counter == 0 && rec0.counter == g.len() && forall|q: int|
                    in_run(rec0.data as int, before.pg_num as int, q) ==> #[trigger] rd1.tag(q)
                        <= 0)
            }),
        ensures
            self.wf(rd1),
            forall|x: int|
                #[trigger] self.out(rd1, x) <==> (before.out(rd0, x) && !g.contains(x as usize)),
    {
        before.lemma_group_bound(rd0, id, g);
        assert(before.record_ok(rd0, id));
        let rec0 = before.pages[id];
        let rec1 = self.pages[id];
        let rev = g.reverse();
        assert forall|x: usize| rev.contains(x) <==> g.contains(x) by {
            if rev.contains(x) {
                let k = choose|k: int| 0 <= k < rev.len() && rev[k] == x;
                assert(g[g.len() - 1 - k] == x);
            }
            if g.contains(x) {
                let k = choose|k: int| 0 <= k < g.len() && g[k] == x;
                assert(rev[g.len() - 1 - k] == x);
            }
        }
        assert forall|i: int| 0 <= i < self.pages.len() implies #[trigger] self.record_ok(rd1, i) by {
            assert(before.record_ok(rd0, i));
            if i != id {
                assert(same_body(self.pages[i], before.pages[i]));
                if self.pages[i].data != 0 {
                    assert forall|q: int|
                        in_run(self.pages[i].data as int, self.pg_num as int, q) implies #[trigger] rd1.tag(
                        q,
                    ) == owner_tag(self.index as int, i) by {
                        assert(rd0.tag(q) == owner_tag(self.index as int, i));
                        if in_run(rec0.data as int, before.pg_num as int, q) {
                            assert(rd0.tag(q) == owner_tag(self.index as int, id));
                        }
                    }
                }
            } else if rec1.kind == PageKind::Partial {
                let f1 = rec1.free@;
                assert forall|a: int, b: int|
                    0 <= a < f1.len() && 0 <= b < f1.len() && a != b implies f1[a] != f1[b] by {
                    let n0 = rec0.free@.len();
                    if a < n0 && b >= n0 {
                        assert(rec0.free@.contains(f1[a]));
                        assert(before.page_out(id, g[g.len() - 1 - (b - n0)] as int));
                    }
                    if b < n0 && a >= n0 {
                        assert(rec0.free@.contains(f1[b]));
                        assert(before.page_out(id, g[g.len() - 1 - (a - n0)] as int));
                    }
                }
                assert forall|j: int| 0 <= j < f1.len() implies is_cell(
                    rec1.data as int,
                    self.pg_align as int,
                    self.pg_count as int,
                    #[trigger] f1[j] as int,
                ) by {
                    let n0 = rec0.free@.len();
                    if j >= n0 {
                        assert(before.page_out(id, g[g.len() - 1 - (j - n0)] as int));
                    }
                }
            }
        }
        assert forall|x: int|
            #[trigger] self.out(rd1, x) <==> (before.out(rd0, x) && !g.contains(x as usize)) by {
            let t1 = rd1.tag(page_of(x));
            let t0 = rd0.tag(page_of(x));
            if before.out(rd0, x) {
                let i = tag_id(t0);
                assert(before.record_ok(rd0, i));
                if i != id {
                    before.lemma_cell_owner(rd0, i, x);
                    assert(same_body(self.pages[i], before.pages[i]));
                    if in_run(rec0.data as int, before.pg_num as int, page_of(x)) {
                        assert(t0 == owner_tag(self.index as int, id));
                    }
                    if g.contains(x as usize) {
                        let k = choose|k: int| 0 <= k < g.len() && g[k] == x as usize;
                        assert(before.page_out(id, g[k] as int));
                        before.lemma_cell_owner(rd0, id, x);
                    }
                } else {
                    before.lemma_cell_owner(rd0, id, x);
                    if rec1.kind == PageKind::Partial {
                        if rec1.free@.contains(x as usize) && !g.contains(x as usize) {
                            let k = choose|k: int| 0 <= k < rec1.free@.len() && rec1.free@[k] == x as usize;
                            if k < rec0.free@.len() {
                                assert(rec0.free@.contains(x as usize));
                            } else {
                                assert(rev.contains(x as usize));
                            }
                        }
                        if g.contains(x as usize) {
                            assert(rev.contains(x as usize));
                            let k = choose|k: int| 0 <= k < rev.len() && rev[k] == x as usize;
                            assert(rec1.free@[rec0.free@.len() + k] == x as usize);
                        }
                    }
                }
            }
            if self.out(rd1, x) {
                let i = tag_id(t1);
                assert(t1 == t0);
                assert(self.record_ok(rd1, i));
                if i != id {
                    assert(same_body(self.pages[i], before.pages[i]));
                    self.lemma_cell_owner(rd1, i, x);
                    if g.contains(x as usize) {
                        let k = choose|k: int| 0 <= k < g.len() && g[k] == x as usize;
                        assert(before.page_out(id, g[k] as int));
                        before.lemma_cell_owner(rd0, id, x);
                    }
                } else {
                    if rec0.free@.contains(x as usize) {
                        let k = choose|k: int| 0 <= k < rec0.free@.len() && rec0.free@[k] == x as usize;
                        assert(rec1.free@[k] == x as usize);
                    }
                    if g.contains(x as usize) {
                        assert(rev.contains(x as usize));
                        let k = choose|k: int| 0 <= k < rev.len() && rev[k] == x as usize;
                        assert(rec1.free@[rec0.free@.len() + k] == x as usize);
                    }
                }
            }
        }
    }
}

impl SCAllocator {
    /// The cells `cells[start..end]` lie in the run that holds
    /// `cells[start]`, and `end` is the first index from `start` on of
    /// which this fails.
    pub open spec fn group_end(&self, rd: &RadixTree, cells: Seq<usize>, start: int, end: int) -> bool {
        let id = tag_id(rd.tag(page_of(cells[start] as int)));
        let data = self.pages[id].data;
        let limit = data + self.pg_num * PAGE_SIZE;
        &&& start < end <= cells.len()
        &&& forall|k: int| start <= k < end ==> data <= #[trigger] cells[k] < limit
        &&& end < cells.len() ==> !(data <= cells[end] < limit)
    }

    /// The first index after the cells from `start` on that lie in the
    /// run that holds `cells[start]`.
    fn find_group_end(&self, cells: &Vec<usize>, start: usize, id: usize) -> (end: usize)
        requires
            start < cells.len(),
            id < self.pages.len(),
            self.pages[id as int].data <= cells[start as int] < self.pages[id as int].data
                + self.pg_num * PAGE_SIZE <= usize::MAX,
        ensures
            start < end <= cells.len(),
            forall|k: int|
                start <= k < end ==> self.pages[id as int].data <= #[trigger] cells[k]
                    < self.pages[id as int].data + self.pg_num * PAGE_SIZE,
            end < cells.len() ==> !(self.pages[id as int].data <= cells[end as int]
                < self.pages[id as int].data + self.pg_num * PAGE_SIZE),
    {
        let data: usize = self.pages[id].data;
        let limit: usize = data + self.pg_num * PAGE_SIZE;
        let mut end: usize = start + 1;
        while end < cells.len() && data <= cells[end] && cells[end] < limit
            invariant
                start < end <= cells.len(),
                data == self.pages[id as int].data,
                limit == data + self.pg_num * PAGE_SIZE,
                forall|k: int| start <= k < end ==> data <= #[trigger] cells[k] < limit,
            decreases cells.len() - end,
        {
            end += 1;
        }
        end
    }

    /// Takes back the cells from `cells[start]` on that lie in one run,
    /// and settles the run: a full run becomes partial; a run without a
    /// cell out becomes empty, or gives its pages back to the backend
    /// when the class holds more than `EMPTY_CAP` empty runs. Returns the
    /// index of the first cell that it left, and what the backend gave
    /// back to the system, if anything.
    fn free_group(
        &mut self,
        cells: &Vec<usize>,
        start: usize,
        rd: &mut RadixTree,
        backend: &mut FreeList,
    ) -> (r: (usize, Option<(usize, usize)>))
        requires
            old(self).wf(old(rd)),
            old(backend).wf(old(rd)),
            start < cells.len(),
            cells@.no_duplicates(),
            forall|k: int| start <= k < cells.len() ==> old(self).out(old(rd), #[trigger] cells[k] as int),
        ensures
            final(self).wf(final(rd)),
            final(backend).wf(final(rd)),
            final(self).same_params(old(self)),
            old(self).group_end(old(rd), cells@, start as int, r.0 as int),
            forall|x: int|
                #[trigger] final(self).out(final(rd), x) <==> (old(self).out(old(rd), x)
                    && !cells@.subrange(start as int, r.0 as int).contains(x as usize)),
            forall|q: int|
                #[trigger] final(rd).tag(q) != old(rd).tag(q) ==> final(rd).tag(q) <= 0 && (old(
                    rd,
                ).tag(q) <= 0 || old(rd).tag(q) % 64 == old(self).index),
            forall|q: int| #[trigger] final(backend).allocated(q) ==> old(backend).allocated(q),
            gave_back(old(backend).managed@, final(backend).managed@, some_range(r.1)),
            final(self).group_settled(
                old(self),
                tag_id(old(rd).tag(page_of(cells[start as int] as int))),
                r.0 - start,
            ),
            r.1 is Some ==> old(self).empty_count > EMPTY_CAP,
    {
        let x0: usize = cells[start];
        let page: u64 = (x0 as u64) / (PG_SIZE as u64);
        let t: i64 = rd.lookup(page);
        let id: usize = (t / 64 - 1) as usize;
        proof {
            assert(self.out(rd, cells[start as int] as int));
            assert(self.record_ok(rd, id as int));
            self.lemma_cell_owner(rd, id as int, x0 as int);
        }
        let end = self.find_group_end(cells, start, id);
        let ghost g = cells@.subrange(start as int, end as int);
        proof {
            assert forall|k: int| 0 <= k < g.len() implies self.page_out(
                id as int,
                #[trigger] g[k] as int,
            ) by {
                assert(g[k] == cells[start + k]);
                assert(self.out(rd, cells[start + k] as int));
                self.lemma_group_owner(rd, id as int, g[k] as int);
            }
            assert(g.no_duplicates()) by {
                assert forall|a: int, b: int|
                    0 <= a < g.len() && 0 <= b < g.len() && a != b implies g[a] != g[b] by {
                    assert(g[a] == cells[start + a] && g[b] == cells[start + b]);
                }
            }
            self.lemma_group_bound(rd, id as int, g);
        }
        let was_full: bool = self.pages[id].is_full(self.pg_count);
        self.pages[id].deallocate(cells, start, end);
        let ghost mid = *self;
        proof {
            self.lemma_lists_frame(old(self));
        }
        let mut released: Option<(usize, usize)> = None;
        proof {
            lemma_gave_nothing(backend.managed@);
        }
        if self.pages[id].is_empty() {
            self.detach(if was_full { PageKind::Full } else { PageKind::Partial }, id);
            let ghost mid1 = *self;
            self.pages[id].free.clear();
            proof {
                self.lemma_lists_frame(&mid1);
            }
            proof {
                assert forall|i: int| 0 <= i < self.pages.len() && i != id implies #[trigger] self.record_ok(
                    rd,
                    i,
                ) by {
                    assert(old(self).record_ok(old(rd), i));
                    assert(same_body(self.pages[i], old(self).pages[i]));
                }
                assert(old(self).record_ok(old(rd), id as int));
                assert(self.run_tagged(rd, id as int));
            }
            released = self.insert_ety(id, rd, backend);
        } else if was_full {
            self.detach(PageKind::Full, id);
            self.attach(PageKind::Partial, id);
        }
        proof {
            self.lemma_group_freed(old(self), old(rd), rd, id as int, g);
            assert forall|q: int| #[trigger] backend.allocated(q) implies old(backend).allocated(
                q,
            ) by {}
        }
        (end, released)
    }

    /// What the return of `taken` cells of record `id` leaves of the
    /// records. The counter of the record has gone down by `taken`. A
    /// record that still has a cell out is partial. A record that has
    /// none joins the empty records when the class holds `EMPTY_CAP` of
    /// them or fewer; else it gives its run back to the backend and joins
    /// the records without a run. No other record changes its run, its
    /// counter, its free cells or its kind.
    pub open spec fn group_settled(&self, before: &SCAllocator, id: int, taken: int) -> bool {
        let rec0 = before.pages[id];
        let rec1 = self.pages[id];
        &&& self.pages.len() == before.pages.len()
        &&& forall|i: int|
            0 <= i < self.pages.len() && i != id ==> same_body(
                #[trigger] self.pages[i],
                before.pages[i],
            ) && self.pages[i].kind == before.pages[i].kind
        &&& rec0.kind == PageKind::Full || rec0.kind == PageKind::Partial
        &&& rec1.counter == rec0.counter - taken
        &&& if rec1.counter > 0 {
            rec1.kind == PageKind::Partial && rec1.data == rec0.data && self.empty_count
                == before.empty_count
        } else if before.empty_count > EMPTY_CAP {
            rec1.kind == PageKind::Uninit && rec1.data == 0 && self.empty_count
                == before.empty_count
        } else {
            rec1.kind == PageKind::Empty && rec1.data == rec0.data && self.empty_count
                == before.empty_count + 1
        }
    }

    /// What the return of a batch of cells leaves of record `id`,
    /// whatever the order of the cells. A record loses no run and gains
    /// no cell but by the rules of the lists: it has given its run back
    /// only if the class then held more than `EMPTY_CAP` empty records,
    /// and it has joined the empty records only if the class held
    /// `EMPTY_CAP` of them or fewer; a record that is full was full and
    /// is untouched; a record that is partial now had cells out and
    /// keeps its run.
    pub open spec fn batch_settled(&self, before: &SCAllocator, id: int) -> bool {
        let rec0 = before.pages[id];
        let rec1 = self.pages[id];
        let had_cells = rec0.kind == PageKind::Full || rec0.kind == PageKind::Partial;
        &&& rec1.counter <= rec0.counter
        &&& rec1.kind == PageKind::Full ==> rec0.kind == PageKind::Full && same_body(rec1, rec0)
        &&& rec1.kind == PageKind::Partial ==> had_cells && rec1.data == rec0.data
        &&& rec1.kind == PageKind::Empty ==> rec1.data == rec0.data && (rec0.kind
            == PageKind::Empty || (had_cells && before.empty_count <= EMPTY_CAP))
        &&& rec1.kind == PageKind::Uninit ==> rec0.kind == PageKind::Uninit || (had_cells
            && self.empty_count > EMPTY_CAP)
        &&& rec1.counter == rec0.counter ==> rec1.kind == rec0.kind && same_body(rec1, rec0)
    }

    /// Clearing the tags of the run of record `id` leaves a range that
    /// the backend holds allocated, without tags.
    pub proof fn lemma_run_cleared(&self, rd0: &RadixTree, rd1: &RadixTree, backend: &FreeList, id: int)
        requires
            self.usable(),
            0 <= id < self.pages.len() <= MAX_RECORDS,
            self.run_tagged(rd0, id),
            backend.wf(rd0),
            Self::run_set(rd0, rd1, self.pages[id].data as int, self.pg_num as int, 0),
        ensures
            backend.wf(rd1),
            backend.clear_alloc(rd1, self.pages[id].data, self.pg_num as int),
    {
        let data = self.pages[id].data as int;
        let n = self.pg_num as int;
        assert forall|p: int| in_run(data, n, p) implies backend.allocated(p) by {
            assert(rd0.tag(p) == owner_tag(self.index as int, id));
            Self::lemma_tagged_is_allocated(backend, rd0, p);
        }
        assert forall|p: int| backend.allocated(p) implies rd1.tag(p) >= 0 by {
            Self::lemma_allocated_tag(backend, rd0, p);
        }
        backend.lemma_tags_frame(rd0, rd1);
    }

    /// Whether record `idx` has just had its last cell back: it is on no
    /// ring and holds a run, which the page index gives to it, with no
    /// cell out and no cell on its free list. Every other record is as
    /// the invariant says.
    pub open spec fn emptied(&self, rd: &RadixTree, idx: int) -> bool {
        &&& self.usable()
        &&& self.lists_ok()
        &&& 0 <= idx < self.pages.len()
        &&& self.pages[idx].kind == PageKind::Detached
        &&& self.pages[idx].data != 0
        &&& self.pages[idx].counter == 0
        &&& self.pages[idx].free@.len() == 0
        &&& self.run_tagged(rd, idx)
        &&& forall|id: int|
            0 <= id < self.pages.len() && id != idx ==> #[trigger] self.record_ok(rd, id)
    }

    /// Settles the record `idx`, which has just had its last cell back.
    ///
    /// When the class holds `EMPTY_CAP` empty runs or fewer, the record
    /// joins the empty records and keeps its run, and neither the page
    /// index nor the backend changes. When the class holds more, the
    /// page index forgets the pages of the run, the run goes back to the
    /// backend, and the record joins the records without a run. Returns
    /// what the backend gave back to the system, if anything.
    pub fn insert_ety(&mut self, idx: usize, rd: &mut RadixTree, backend: &mut FreeList) -> (released:
        Option<(usize, usize)>)
        requires
            old(self).emptied(old(rd), idx as int),
            old(rd).wf(),
            old(backend).wf(old(rd)),
        ensures
            final(self).wf(final(rd)),
            final(backend).wf(final(rd)),
            final(self).same_params(old(self)),
            final(self).pages.len() == old(self).pages.len(),
            forall|i: int|
                0 <= i < final(self).pages.len() && i != idx ==> same_body(
                    #[trigger] final(self).pages[i],
                    old(self).pages[i],
                ) && final(self).pages[i].kind == old(self).pages[i].kind,
            final(self).pages[idx as int].counter == 0,
            final(self).pages[idx as int].free@.len() == 0,
            old(self).empty_count <= EMPTY_CAP ==> {
                &&& released is None
                &&& final(self).pages[idx as int].kind == PageKind::Empty
                &&& final(self).pages[idx as int].data == old(self).pages[idx as int].data
                &&& final(self).empty_count == old(self).empty_count + 1
                &&& *final(rd) == *old(rd)
                &&& *final(backend) == *old(backend)
            },
            old(self).empty_count > EMPTY_CAP ==> {
                let data = old(self).pages[idx as int].data as int;
                let n = old(self).pg_num as int;
                &&& final(self).pages[idx as int].kind == PageKind::Uninit
                &&& final(self).pages[idx as int].data == 0
                &&& final(self).empty_count == old(self).empty_count
                &&& forall|p: int|
                    #[trigger] final(backend).allocated(p) <==> (old(backend).allocated(p) && !in_run(
                        data,
                        n,
                        p,
                    ))
                &&& forall|q: int| in_run(data, n, q) ==> #[trigger] final(rd).tag(q) <= 0
                &&& forall|q: int|
                    !in_run(data, n, q) && old(rd).tag(q) > 0 ==> #[trigger] final(rd).tag(q) == old(
                        rd,
                    ).tag(q)
                &&& forall|q: int| #[trigger] final(rd).tag(q) > 0 ==> final(rd).tag(q) == old(rd).tag(q)
            },
            gave_back(old(backend).managed@, final(backend).managed@, some_range(released)),
    {
        let mut released: Option<(usize, usize)> = None;
        proof {
            lemma_gave_nothing(backend.managed@);
        }
        let ghost data0 = self.pages[idx as int].data;
        if self.try_insert_ety() {
            let data = self.pages[idx].data;
            proof {
                let last = page_of(data as int) + self.pg_num - 1;
                assert(in_run(data as int, self.pg_num as int, last));
                Self::lemma_tagged_is_allocated(backend, rd, last);
                backend.lemma_page_bound(rd, last);
            }
            rd.remove_pages((data as u64) / (PG_SIZE as u64), self.pg_num);
            proof {
                self.lemma_run_cleared(old(rd), rd, backend, idx as int);
            }
            let ghost rd1 = *rd;
            let ghost mid2 = *self;
            let pg_num = self.pg_num;
            let d = self.pages[idx].destroy_page(pg_num, backend, rd);
            released = d.1;
            proof {
                self.lemma_lists_frame(&mid2);
            }
            self.attach(PageKind::Uninit, idx);
            proof {
                assert forall|q: int| #[trigger] rd.tag(q) > 0 implies rd.tag(q) == old(rd).tag(q)
                    && !in_run(data as int, pg_num as int, q) by {
                    Self::lemma_tagged_is_allocated(backend, rd, q);
                }
                assert forall|q: int|
                    !in_run(data as int, pg_num as int, q) && old(rd).tag(q) > 0 implies #[trigger] rd.tag(
                    q,
                ) == old(rd).tag(q) by {
                    Self::lemma_tagged_is_allocated(old(backend), &rd1, q);
                }
                assert forall|q: int| in_run(data as int, pg_num as int, q) implies #[trigger] rd.tag(
                    q,
                ) <= 0 by {}
            }
        } else {
            self.attach(PageKind::Empty, idx);
        }
        proof {
            assert forall|id: int| 0 <= id < self.pages.len() implies #[trigger] self.record_ok(
                rd,
                id,
            ) by {
                if id != idx {
                    assert(old(self).record_ok(old(rd), id));
                    assert(same_body(self.pages[id], old(self).pages[id]));
                    if self.pages[id].data != 0 {
                        assert(old(self).run_tagged(old(rd), id));
                        assert forall|q: int|
                            in_run(
                                self.pages[id].data as int,
                                self.pg_num as int,
                                q,
                            ) implies #[trigger] rd.tag(q) == owner_tag(self.index as int, id) by {
                            assert(old(rd).tag(q) == owner_tag(old(self).index as int, id));
                            if in_run(data0 as int, self.pg_num as int, q) {
                                assert(old(rd).tag(q) == owner_tag(old(self).index as int, idx as int));
                            }
                        }
                    }
                }
            }
        }
        released
    }

    /// Takes back the cells of `cells`, each of which is handed out and
    /// none of which occurs twice.
    ///
    /// The cells are taken in groups: the cells from one on that lie in
    /// the same run go back to that run together. A full run that gets
    /// cells back becomes partial; a run that has every cell back becomes
    /// empty, or, when the class holds more than `EMPTY_CAP` empty runs,
    /// gives its pages back to the backend, once the page index has
    /// forgotten them. Returns the ranges that the backend gave back to
    /// the system, each as a base and a byte length.
    pub fn deallocate_batch(&mut self, cells: &Vec<usize>, rd: &mut RadixTree, backend: &mut FreeList) -> (released:
        Vec<(usize, usize)>)
        requires
            old(self).wf(old(rd)),
            old(backend).wf(old(rd)),
            cells@.no_duplicates(),
            forall|k: int| 0 <= k < cells.len() ==> old(self).out(old(rd), #[trigger] cells[k] as int),
        ensures
            final(self).wf(final(rd)),
            final(backend).wf(final(rd)),
            final(self).same_params(old(self)),
            forall|x: int|
                #[trigger] final(self).out(final(rd), x) <==> (old(self).out(old(rd), x)
                    && !cells@.contains(x as usize)),
            forall|q: int|
                #[trigger] final(rd).tag(q) != old(rd).tag(q) ==> final(rd).tag(q) <= 0 && (old(
                    rd,
                ).tag(q) <= 0 || old(rd).tag(q) % 64 == old(self).index),
            forall|q: int| #[trigger] final(backend).allocated(q) ==> old(backend).allocated(q),
            gave_back(old(backend).managed@, final(backend).managed@, released@),
            final(self).pages.len() == old(self).pages.len(),
            old(self).empty_count <= final(self).empty_count,
            final(self).empty_count > old(self).empty_count ==> final(self).empty_count
                <= EMPTY_CAP + 1,
            released@.len() > 0 ==> final(self).empty_count > EMPTY_CAP,
            forall|id: int|
                0 <= id < final(self).pages.len() ==> #[trigger] final(self).batch_settled(
                    old(self),
                    id,
                ),
    {
        let mut released: Vec<(usize, usize)> = Vec::new();
        let mut i: usize = 0;
        proof {
            lemma_gave_nothing(backend.managed@);
        }
        while i < cells.len()
            invariant
                self.pages.len() == old(self).pages.len(),
                old(self).empty_count <= self.empty_count,
                self.empty_count > old(self).empty_count ==> self.empty_count <= EMPTY_CAP + 1,
                released@.len() > 0 ==> self.empty_count > EMPTY_CAP,
                forall|id: int|
                    0 <= id < self.pages.len() ==> #[trigger] self.batch_settled(old(self), id),
                gave_back(old(backend).managed@, backend.managed@, released@),
                i <= cells.len(),
                self.wf(rd),
                backend.wf(rd),
                self.same_params(old(self)),
                cells@.no_duplicates(),
                forall|k: int| i <= k < cells.len() ==> self.out(rd, #[trigger] cells[k] as int),
                forall|x: int|
                    #[trigger] self.out(rd, x) <==> (old(self).out(old(rd), x) && !cells@.subrange(
                        0,
                        i as int,
                    ).contains(x as usize)),
                forall|q: int|
                    #[trigger] rd.tag(q) != old(rd).tag(q) ==> rd.tag(q) <= 0 && (old(rd).tag(q)
                        <= 0 || old(rd).tag(q) % 64 == old(self).index),
                forall|q: int| #[trigger] backend.allocated(q) ==> old(backend).allocated(q),
            decreases cells.len() - i,
        {
            let ghost before = *self;
            let ghost rd0 = *rd;
            let ghost managed0 = backend.managed@;
            let (end, gone) = self.free_group(cells, i, rd, backend);
            proof {
                let id0 = tag_id(rd0.tag(page_of(cells[i as int] as int)));
                assert forall|id: int| 0 <= id < self.pages.len() implies #[trigger] self.batch_settled(
                    old(self),
                    id,
                ) by {
                    assert(before.batch_settled(old(self), id));
                    if id != id0 {
                        assert(same_body(self.pages[id], before.pages[id]));
                    }
                }
                lemma_gave_more(
                    old(backend).managed@,
                    managed0,
                    backend.managed@,
                    released@,
                    some_range(gone),
                );
                let done = cells@.subrange(0, i as int);
                let group = cells@.subrange(i as int, end as int);
                let ndone = cells@.subrange(0, end as int);
                assert forall|x: usize| ndone.contains(x) <==> (done.contains(x) || group.contains(
                    x,
                )) by {
                    if ndone.contains(x) {
                        let k = choose|k: int| 0 <= k < ndone.len() && ndone[k] == x;
                        if k < i {
                            assert(done[k] == x);
                        } else {
                            assert(group[k - i] == x);
                        }
                    }
                    if done.contains(x) {
                        let k = choose|k: int| 0 <= k < done.len() && done[k] == x;
                        assert(ndone[k] == x);
                    }
                    if group.contains(x) {
                        let k = choose|k: int| 0 <= k < group.len() && group[k] == x;
                        assert(ndone[k + i] == x);
                    }
                }
                assert forall|k: int| end <= k < cells.len() implies self.out(
                    rd,
                    #[trigger] cells[k] as int,
                ) by {
                    assert(before.out(&rd0, cells[k] as int));
                    if group.contains(cells[k]) {
                        let j = choose|j: int| 0 <= j < group.len() && group[j] == cells[k];
                        assert(cells[i + j] == cells[k]);
                    }
                }
                assert forall|x: int|
                    #[trigger] self.out(rd, x) <==> (old(self).out(old(rd), x) && !ndone.contains(
                        x as usize,
                    )) by {
                    assert(before.out(&rd0, x) <==> (old(self).out(old(rd), x) && !done.contains(
                        x as usize,
                    )));
                }
                assert forall|q: int| #[trigger] rd.tag(q) != old(rd).tag(q) implies rd.tag(q) <= 0
                    && (old(rd).tag(q) <= 0 || old(rd).tag(q) % 64 == old(self).index) by {
                    if rd.tag(q) != rd0.tag(q) {
                    }
                    if rd0.tag(q) != old(rd).tag(q) {
                    }
                }
            }
            let ghost sofar = released@;
            match gone {
                Some(range) => {
                    released.push(range);
                },
                None => {},
            }
            proof {
                assert(released@ =~= sofar + some_range(gone));
            }
            i = end;
        }
        proof {
            assert(cells@.subrange(0, cells.len() as int) == cells@);
        }
        released
    }
}

impl SCAllocator {
    /// The tags of this class are the same in `rd0` and `rd1`.
    pub open spec fn same_tags(&self, rd0: &RadixTree, rd1: &RadixTree) -> bool {
        &&& forall|q: int|
            rd0.tag(q) > 0 && rd0.tag(q) % 64 == self.index ==> #[trigger] rd1.tag(q) == rd0.tag(q)
        &&& forall|q: int|
            #[trigger] rd1.tag(q) > 0 && rd1.tag(q) % 64 == self.index ==> rd1.tag(q) == rd0.tag(q)
    }

    /// A size class does not depend on the tags of other classes.
    pub proof fn lemma_class_frame(&self, rd0: &RadixTree, rd1: &RadixTree)
        requires
            self.wf(rd0),
            self.same_tags(rd0, rd1),
        ensures
            self.wf(rd1),
            forall|x: int| #[trigger] self.out(rd1, x) <==> self.out(rd0, x),
    {
        assert forall|id: int| 0 <= id < self.pages.len() implies #[trigger] self.record_ok(rd1, id) by {
            assert(self.record_ok(rd0, id));
            if self.pages[id].data != 0 {
                assert forall|q: int|
                    in_run(self.pages[id].data as int, self.pg_num as int, q) implies #[trigger] rd1.tag(
                    q,
                ) == owner_tag(self.index as int, id) by {
                    assert(rd0.tag(q) == owner_tag(self.index as int, id));
                }
            }
        }
        assert forall|x: int| #[trigger] self.out(rd1, x) <==> self.out(rd0, x) by {
            let q = page_of(x);
            if self.out(rd0, x) {
                assert(rd1.tag(q) == rd0.tag(q));
            }
            if self.out(rd1, x) {
                assert(rd1.tag(q) == rd0.tag(q));
            }
        }
    }

    /// A cell that is handed out lies in a run of its class: the page
    /// index names a record of the class for each page that the cell
    /// touches, and the cell ends within the run.
    pub proof fn lemma_out_cell(&self, rd: &RadixTree, x: int)
        requires
            self.wf(rd),
            self.out(rd, x),
        ensures
            ({
                let id = tag_id(rd.tag(page_of(x)));
                &&& 0 <= id < self.pages.len()
                &&& self.pages[id].data != 0
                &&& is_cell(self.pages[id].data as int, self.pg_align as int, self.pg_count as int, x)
                &&& x + self.pg_align <= self.pages[id].data + self.pg_num * PAGE_SIZE <= usize::MAX
                &&& forall|y: int|
                    x <= y < x + self.pg_align ==> #[trigger] rd.tag(page_of(y)) == owner_tag(
                        self.index as int,
                        id,
                    )
            }),
    {
        let id = tag_id(rd.tag(page_of(x)));
        assert(self.record_ok(rd, id));
        lemma_cell_in_run(
            self.pages[id].data as int,
            self.pg_align as int,
            self.pg_count as int,
            self.pg_num as int,
            x,
        );
    }

    /// The counter of a record counts the cells of its run that are
    /// handed out: a run without a cell on its free list has all of its
    /// `pg_count` cells or none of them out, as its counter says, and
    /// else the free list holds, each once, just the cells that are not
    /// out, and the counter is `pg_count` less their number.
    pub proof fn lemma_counter(&self, rd: &RadixTree, id: int)
        requires
            self.wf(rd),
            0 <= id < self.pages.len(),
            self.pages[id].data != 0,
        ensures
            self.pages[id].counter + self.pages[id].free@.len() == self.pg_count || (
            self.pages[id].counter == 0 && self.pages[id].free@.len() == 0),
            self.pages[id].free@.no_duplicates(),
            self.pages[id].counter == 0 ==> forall|x: int| !self.page_out(id, x),
            self.pages[id].counter > 0 ==> forall|x: int|
                is_cell(self.pages[id].data as int, self.pg_align as int, self.pg_count as int, x)
                    && 0 <= x <= usize::MAX ==> (#[trigger] self.page_out(id, x)
                    <==> !self.pages[id].free@.contains(x as usize)),
    {
        assert(self.record_ok(rd, id));
    }

    /// The cells of the run of record `id` that are handed out.
    pub open spec fn cells_out(&self, id: int) -> Set<int> {
        Set::new(|x: int| self.page_out(id, x))
    }

    /// The counter of a record is the number of cells of its run that
    /// are handed out.
    pub proof fn lemma_counter_counts(&self, rd: &RadixTree, id: int)
        requires
            self.wf(rd),
            0 <= id < self.pages.len(),
        ensures
            self.cells_out(id).finite(),
            self.cells_out(id).len() == self.pages[id].counter,
    {
        let p = self.pages[id];
        let data = p.data as int;
        let unit = self.pg_align as int;
        let count = self.pg_count as int;
        let all = cells(data, unit, count);
        assert(self.record_ok(rd, id));
        lemma_cells_len(data, unit, count);
        if p.kind == PageKind::Full {
            assert(self.cells_out(id) =~= all);
        } else if p.kind == PageKind::Partial {
            let free = Seq::new(p.free@.len(), |j: int| p.free@[j] as int);
            let gone = free.to_set();
            assert(free.no_duplicates());
            free.unique_seq_to_set();
            vstd::seq_lib::seq_to_set_is_finite(free);
            assert forall|x: int| gone.contains(x) implies all.contains(x) by {
                let j = choose|j: int| 0 <= j < free.len() && free[j] == x;
                assert(x == p.free@[j] as int);
            }
            assert(all.intersect(gone) =~= gone);
            assert forall|x: int| self.cells_out(id).contains(x) <==> all.difference(gone).contains(
                x,
            ) by {
                if is_cell(data, unit, count, x) {
                    lemma_cell_in_run(data, unit, count, self.pg_num as int, x);
                    assert(0 <= x <= usize::MAX);
                    if p.free@.contains(x as usize) {
                        let j = choose|j: int| 0 <= j < p.free@.len() && p.free@[j] == x as usize;
                        assert(free[j] == x);
                    }
                    if gone.contains(x) {
                        let j = choose|j: int| 0 <= j < free.len() && free[j] == x;
                        assert(p.free@[j] == x as usize);
                    }
                }
            }
            assert(self.cells_out(id) =~= all.difference(gone));
            vstd::set_lib::lemma_set_difference_len(all, gone);
        } else {
            assert(self.cells_out(id) =~= Set::<int>::empty());
        }
    }

    /// Whether `x` is the address of a cell of this class, handed out
    /// or not: the page index names a record of this class for the page
    /// of `x`, and `x` is a cell of the run of that record.
    pub open spec fn owns(&self, rd: &RadixTree, x: int) -> bool {
        let t = rd.tag(page_of(x));
        &&& 0 <= x <= usize::MAX
        &&& t > 0
        &&& t % 64 == self.index
        &&& 0 <= tag_id(t) < self.pages.len()
        &&& self.pages[tag_id(t)].data != 0
        &&& is_cell(
            self.pages[tag_id(t)].data as int,
            self.pg_align as int,
            self.pg_count as int,
            x,
        )
    }

    /// The record of the run that holds the cell at `x`, if `x` is the
    /// address of a cell of this class.
    pub fn owner_of(&self, rd: &RadixTree, x: usize) -> (r: Option<usize>)
        requires
            rd.wf(),
            self.wf(rd),
        ensures
            r is Some <==> self.owns(rd, x as int),
            r matches Some(id) ==> id == tag_id(rd.tag(page_of(x as int))) && id < self.pages.len(),
    {
        let t: i64 = rd.lookup((x as u64) / (PG_SIZE as u64));
        if t <= 0 || t % 64 != self.index as i64 {
            return None;
        }
        let id: i64 = t / 64 - 1;
        if id < 0 || id as u64 >= self.pages.len() as u64 {
            return None;
        }
        let page = &self.pages[id as usize];
        if page.data == 0 || x < page.data {
            return None;
        }
        let off: usize = x - page.data;
        if off % self.pg_align != 0 || off / self.pg_align >= self.pg_count {
            return None;
        }
        Some(id as usize)
    }

    /// Tells whether `x` is a cell of this class that is handed out.
    pub fn is_out(&self, rd: &RadixTree, x: usize) -> (b: bool)
        requires
            rd.wf(),
            self.wf(rd),
        ensures
            b == self.out(rd, x as int),
    {
        match self.owner_of(rd, x) {
            Some(id) => {
                proof {
                    assert(self.record_ok(rd, id as int));
                }
                match self.pages[id].kind {
                    PageKind::Full => true,
                    PageKind::Partial => !crate::mm::linklist::holds(&self.pages[id].free, x),
                    _ => false,
                }
            },
            None => false,
        }
    }
}

} // verus!
