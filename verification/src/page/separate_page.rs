use crate::collections::radix_tree::{RadixTree, TreeNode};
use crate::error::AllocError;
use crate::freelist::bump::PG_SIZE;
use crate::freelist::ranges::{gave_back, some_range};
use crate::freelist::{pages_for, FreeList};
use crate::PAGE_SIZE;
use vstd::prelude::*;

verus! {

/// The record of one run of pages whose cells are tracked by a bitmap that
/// is kept apart from the record.
///
/// `data` is the base address of the run, 0 while the record has none.
/// `counter` counts the cells of the run that are handed out.
pub struct ObjectPage {
    pub counter: usize,
    pub data: usize,
}

impl ObjectPage {
    /// A record without a run.
    pub fn new() -> (page: Self)
        ensures
            page.counter == 0,
            page.data == 0,
    {
        Self { counter: 0, data: 0 }
    }

    /// The base address of the run of an initialized record.
    pub fn get_data_ptr(&self) -> (data: usize)
        requires
            self.data != 0,
        ensures
            data == self.data,
    {
        self.data
    }

    pub fn is_inited(&self) -> (b: bool)
        ensures
            b == (self.data != 0),
    {
        self.data != 0
    }

    /// Whether all `pg_count` cells of the run are handed out.
    pub fn is_full(&self, pg_count: usize) -> (b: bool)
        ensures
            b == (pg_count <= self.counter),
    {
        pg_count <= self.counter
    }

    /// Whether no cell of the run is handed out.
    pub fn is_empty(&self) -> (b: bool)
        ensures
            b == (self.counter == 0),
    {
        self.counter == 0
    }
}

/// A word of the bitmap in which every bit is set.
pub const WORD_FULL: u32 = 0xffff_ffff;

/// Whether bit `k` of `w` is set.
pub open spec fn word_bit(w: u32, k: int) -> bool {
    (w >> (k as u32)) & 1u32 == 1u32
}

/// Whether cell `i` is marked as handed out in the bitmap `bits`, which
/// holds 32 cells in each word.
pub open spec fn used(bits: Seq<u32>, i: int) -> bool {
    0 <= i < 32 * bits.len() && word_bit(bits[i / 32], i % 32)
}

/// The number of cells among the first `n` that are marked as handed
/// out.
pub open spec fn count_used(bits: Seq<u32>, n: int) -> int
    decreases n,
{
    if n <= 0 {
        0
    } else {
        count_used(bits, n - 1) + if used(bits, n - 1) {
            1int
        } else {
            0int
        }
    }
}

/// Setting bit `k` of a word sets that bit and no other.
pub proof fn lemma_set_bit(w: u32, k: u32, j: u32)
    requires
        k < 32,
        j < 32,
    ensures
        word_bit(w | (1u32 << k), j as int) <==> (j == k || word_bit(w, j as int)),
{
    assert((((w | (1u32 << k)) >> j) & 1u32 == 1u32) <==> (j == k || ((w >> j) & 1u32 == 1u32)))
        by (bit_vector)
        requires
            k < 32,
            j < 32,
    ;
}

/// Clearing bit `k` of a word clears that bit and no other.
pub proof fn lemma_clear_bit(w: u32, k: u32, j: u32)
    requires
        k < 32,
        j < 32,
    ensures
        word_bit(w & !(1u32 << k), j as int) <==> (j != k && word_bit(w, j as int)),
{
    assert((((w & !(1u32 << k)) >> j) & 1u32 == 1u32) <==> (j != k && ((w >> j) & 1u32 == 1u32)))
        by (bit_vector)
        requires
            k < 32,
            j < 32,
    ;
}

/// The test of bit `k` of a word tells whether the bit is set.
pub proof fn lemma_test_bit(w: u32, k: u32)
    requires
        k < 32,
    ensures
        (w & (1u32 << k) == 0) <==> !word_bit(w, k as int),
{
    assert((w & (1u32 << k) == 0) <==> !((w >> k) & 1u32 == 1u32)) by (bit_vector)
        requires
            k < 32,
    ;
}

/// In a full word every bit is set.
pub proof fn lemma_full_word(w: u32, j: u32)
    requires
        w == WORD_FULL,
        j < 32,
    ensures
        word_bit(w, j as int),
{
    assert((0xffff_ffffu32 >> j) & 1u32 == 1u32) by (bit_vector)
        requires
            j < 32,
    ;
}

/// The count of the cells that are handed out changes by one when one
/// cell changes.
pub proof fn lemma_count_changed(a: Seq<u32>, b: Seq<u32>, k: int, n: int)
    requires
        a.len() == b.len(),
        0 <= k,
        forall|j: int| 0 <= j < n && j != k ==> used(a, j) == used(b, j),
    ensures
        count_used(b, n) == count_used(a, n) + if k < n && used(b, k) && !used(a, k) {
            1int
        } else if k < n && !used(b, k) && used(a, k) {
            -1int
        } else {
            0int
        },
        0 <= count_used(a, n) <= if n >= 0 {
            n
        } else {
            0
        },
    decreases n,
{
    if n > 0 {
        lemma_count_changed(a, b, k, n - 1);
    }
}

/// When a cell among the first `n` is handed out, the count is 1 at
/// least.
pub proof fn lemma_count_positive(bits: Seq<u32>, k: int, n: int)
    requires
        0 <= k < n,
        used(bits, k),
    ensures
        count_used(bits, n) >= 1,
    decreases n,
{
    if k < n - 1 {
        lemma_count_positive(bits, k, n - 1);
    } else {
        lemma_count_changed(bits, bits, 0, n - 1);
    }
}

impl ObjectPage {
    /// Whether cell `i` of a run at `base` qualifies for a request with
    /// alignment `align`: it is not handed out and its address is a
    /// multiple of `align`.
    pub open spec fn fits(bits: Seq<u32>, base: int, align: int, unit: int, i: int) -> bool {
        0 <= i < 32 * bits.len() && !used(bits, i) && (base + i * unit) % align == 0
    }

    /// Whether cell `i` lies where the search looks: it is one of the
    /// `count` cells of the run, and it ends inside the `pages` pages of
    /// the run.
    pub open spec fn in_bounds(count: int, unit: int, pages: int, i: int) -> bool {
        i < count && i * unit + unit <= PAGE_SIZE * pages
    }

    /// The bitmap `after` is `before` with cell `i` marked.
    pub open spec fn marked(before: Seq<u32>, after: Seq<u32>, i: int) -> bool {
        &&& after.len() == before.len()
        &&& forall|j: int| #[trigger] used(after, j) <==> (j == i && 0 <= i < 32 * before.len())
            || used(before, j)
    }

    /// The bitmap `after` is `before` with cell `i` cleared.
    pub open spec fn cleared(before: Seq<u32>, after: Seq<u32>, i: int) -> bool {
        &&& after.len() == before.len()
        &&& forall|j: int| #[trigger] used(after, j) <==> (j != i && used(before, j))
    }

    /// The counter counts the cells that the bitmap marks.
    pub open spec fn counts(&self, bits: Seq<u32>) -> bool {
        self.counter == count_used(bits, 32 * bits.len() as int)
    }

    /// Marks bit `k` of word `w` of the bitmap.
    pub fn mark(bitfield: &mut Vec<u32>, w: usize, k: u32)
        requires
            w < old(bitfield)@.len(),
            k < 32,
        ensures
            Self::marked(old(bitfield)@, final(bitfield)@, 32 * w + k),
    {
        let bitval: u32 = bitfield[w];
        bitfield[w] = bitval | (1u32 << k);
        proof {
            let before = old(bitfield)@;
            let after = bitfield@;
            assert forall|j: int| #[trigger] used(after, j) <==> (j == 32 * w + k || used(before, j)) by {
                if 0 <= j < 32 * after.len() {
                    if j / 32 == w {
                        lemma_set_bit(bitval, k, (j % 32) as u32);
                    }
                }
            }
        }
    }

    /// Clears bit `k` of word `w` of the bitmap.
    pub fn clear(bitfield: &mut Vec<u32>, w: usize, k: u32)
        requires
            w < old(bitfield)@.len(),
            k < 32,
        ensures
            Self::cleared(old(bitfield)@, final(bitfield)@, 32 * w + k),
    {
        let bitval: u32 = bitfield[w];
        bitfield[w] = bitval & !(1u32 << k);
        proof {
            let before = old(bitfield)@;
            let after = bitfield@;
            assert forall|j: int| #[trigger] used(after, j) <==> (j != 32 * w + k && used(before, j)) by {
                if 0 <= j < 32 * after.len() {
                    if j / 32 == w {
                        lemma_clear_bit(bitval, k, (j % 32) as u32);
                    }
                }
            }
        }
    }

    /// Tells whether bit `k` of word `w` of the bitmap is set.
    pub fn test(bitfield: &Vec<u32>, w: usize, k: u32) -> (b: bool)
        requires
            w < bitfield@.len(),
            k < 32,
        ensures
            b == used(bitfield@, 32 * w + k),
    {
        let bitval: u32 = bitfield[w];
        proof {
            lemma_test_bit(bitval, k);
            assert((32 * w + k) / 32 == w);
            assert((32 * w + k) % 32 == k);
        }
        bitval & (1u32 << k) != 0
    }

    /// Looks for the first cell of the run at `base_addr` that qualifies
    /// for a request with alignment `align`, marks it, and returns its
    /// number and its address. Returns nothing, and marks nothing, when
    /// no cell that qualifies lies where the search looks.
    pub fn first_fit(
        &mut self,
        base_addr: usize,
        align: usize,
        bitfield: &mut Vec<u32>,
        pg_count: usize,
        pg_align: usize,
        pg_num: usize,
    ) -> (r: Option<(usize, usize)>)
        requires
            align > 0,
            pg_align > 0,
            PAGE_SIZE * pg_num + base_addr <= usize::MAX,
            old(bitfield)@.len() <= usize::MAX / 32,
        ensures
            *final(self) == *old(self),
            r is Some <==> exists|i: int|
                Self::fits(old(bitfield)@, base_addr as int, align as int, pg_align as int, i)
                    && Self::in_bounds(pg_count as int, pg_align as int, pg_num as int, i),
            r is None ==> final(bitfield)@ == old(bitfield)@,
            r matches Some((idx, addr)) ==> {
                &&& Self::fits(old(bitfield)@, base_addr as int, align as int, pg_align as int, idx as int)
                &&& Self::in_bounds(pg_count as int, pg_align as int, pg_num as int, idx as int)
                &&& forall|j: int|
                    0 <= j < idx ==> !Self::fits(
                        old(bitfield)@,
                        base_addr as int,
                        align as int,
                        pg_align as int,
                        j,
                    )
                &&& addr == base_addr + idx * pg_align
                &&& Self::marked(old(bitfield)@, final(bitfield)@, idx as int)
            },
    {
        let ghost bits0 = bitfield@;
        let ghost base = base_addr as int;
        let ghost al = align as int;
        let ghost unit = pg_align as int;
        let mut base_idx: usize = 0;
        while base_idx < bitfield.len()
            invariant
                base_idx <= bitfield@.len(),
                bitfield@ == bits0,
                bits0 == old(bitfield)@,
                *self == *old(self),
                bits0.len() <= usize::MAX / 32,
                align > 0,
                pg_align > 0,
                PAGE_SIZE * pg_num + base_addr <= usize::MAX,
                base == base_addr,
                al == align,
                unit == pg_align,
                forall|j: int| 0 <= j < 32 * base_idx ==> !Self::fits(bits0, base, al, unit, j),
            decreases bitfield@.len() - base_idx,
        {
            let bitval: u32 = bitfield[base_idx];
            if bitval == WORD_FULL {
                proof {
                    assert forall|j: int| 32 * base_idx <= j < 32 * (base_idx + 1) implies !Self::fits(
                        bits0,
                        base,
                        al,
                        unit,
                        j,
                    ) by {
                        assert(j / 32 == base_idx);
                        lemma_full_word(bitval, (j % 32) as u32);
                    }
                }
                base_idx += 1;
                continue ;
            }
            let mut first_free: u32 = 0;
            while first_free < 32
                invariant
                    first_free <= 32,
                    base_idx < bitfield@.len(),
                    bitfield@ == bits0,
                    bits0 == old(bitfield)@,
                    *self == *old(self),
                    bitval == bits0[base_idx as int],
                    bits0.len() <= usize::MAX / 32,
                    align > 0,
                    pg_align > 0,
                    PAGE_SIZE * pg_num + base_addr <= usize::MAX,
                    base == base_addr,
                    al == align,
                    unit == pg_align,
                    forall|j: int|
                        0 <= j < 32 * base_idx + first_free ==> !Self::fits(bits0, base, al, unit, j),
                decreases 32 - first_free,
            {
                let idx: usize = base_idx * 32 + first_free as usize;
                if idx >= pg_count {
                    proof {
                        Self::lemma_none_in_bounds(
                            bits0,
                            base,
                            al,
                            unit,
                            pg_count as int,
                            pg_num as int,
                            idx as int,
                        );
                    }
                    return None;
                }
                if pg_align > (PAGE_SIZE * pg_num) / (idx + 1) {
                    proof {
                        assert(!Self::in_bounds(pg_count as int, unit, pg_num as int, idx as int)) by {
                            Self::lemma_unit_too_long(unit, PAGE_SIZE * pg_num, idx + 1);
                            assert(idx * unit + unit == unit * (idx + 1)) by (nonlinear_arith);
                        }
                        Self::lemma_none_in_bounds(
                            bits0,
                            base,
                            al,
                            unit,
                            pg_count as int,
                            pg_num as int,
                            idx as int,
                        );
                    }
                    return None;
                }
                proof {
                    Self::lemma_unit_fits(unit, PAGE_SIZE * pg_num, idx + 1);
                    assert(idx * unit + unit == unit * (idx + 1)) by (nonlinear_arith);
                }
                let offset: usize = idx * pg_align;
                let addr: usize = base_addr + offset;
                let alignment_ok: bool = addr % align == 0;
                let block_is_free: bool = !Self::test(bitfield, base_idx, first_free);
                if alignment_ok && block_is_free {
                    Self::mark(bitfield, base_idx, first_free);
                    proof {
                        assert(Self::fits(bits0, base, al, unit, idx as int));
                        assert(Self::in_bounds(pg_count as int, unit, pg_num as int, idx as int));
                    }
                    return Some((idx, addr));
                }
                first_free += 1;
            }
            base_idx += 1;
        }
        proof {
            assert forall|i: int| !(Self::fits(bits0, base, al, unit, i) && Self::in_bounds(
                pg_count as int,
                unit,
                pg_num as int,
                i,
            )) by {}
        }
        None
    }

    /// When the search has come to a cell that lies where it does not
    /// look, and no cell before that one qualifies, no cell that
    /// qualifies lies where the search looks.
    pub proof fn lemma_none_in_bounds(
        bits: Seq<u32>,
        base: int,
        align: int,
        unit: int,
        count: int,
        pages: int,
        idx: int,
    )
        requires
            unit > 0,
            0 <= idx,
            !Self::in_bounds(count, unit, pages, idx),
            forall|j: int| 0 <= j < idx ==> !Self::fits(bits, base, align, unit, j),
        ensures
            forall|i: int|
                !(Self::fits(bits, base, align, unit, i) && Self::in_bounds(count, unit, pages, i)),
    {
        assert forall|i: int|
            !(Self::fits(bits, base, align, unit, i) && Self::in_bounds(count, unit, pages, i)) by {
            if i >= idx {
                assert(i * unit >= idx * unit) by (nonlinear_arith)
                    requires
                        i >= idx,
                        unit > 0,
                ;
            }
        }
    }

    /// `n` cells of `unit` bytes do not fit in `room` bytes when `unit`
    /// is more than the `n`-th part of `room`.
    pub proof fn lemma_unit_too_long(unit: int, room: int, n: int)
        requires
            n > 0,
            room >= 0,
            unit > room / n,
        ensures
            unit * n > room,
    {
        vstd::arithmetic::div_mod::lemma_fundamental_div_mod(room, n);
        vstd::arithmetic::div_mod::lemma_mod_bound(room, n);
        assert(unit * n >= (room / n + 1) * n) by (nonlinear_arith)
            requires
                unit >= room / n + 1,
                n > 0,
        ;
        assert((room / n + 1) * n == n * (room / n) + n) by (nonlinear_arith);
    }

    /// `n` cells of `unit` bytes fit in `room` bytes when `unit` is no
    /// more than the `n`-th part of `room`.
    pub proof fn lemma_unit_fits(unit: int, room: int, n: int)
        requires
            n > 0,
            room >= 0,
            0 <= unit <= room / n,
        ensures
            unit * n <= room,
            unit * (n - 1) <= room,
    {
        vstd::arithmetic::div_mod::lemma_fundamental_div_mod(room, n);
        vstd::arithmetic::div_mod::lemma_mod_bound(room, n);
        assert(unit * n <= (room / n) * n) by (nonlinear_arith)
            requires
                unit <= room / n,
                n > 0,
        ;
        assert((room / n) * n == n * (room / n)) by (nonlinear_arith);
        assert(unit * (n - 1) <= unit * n) by (nonlinear_arith)
            requires
                unit >= 0,
                n > 0,
        ;
    }

    /// Gives the record a fresh run of `pg_num` pages from the backend
    /// and returns its base address.
    pub fn allocate_page(&mut self, pg_num: usize, backend: &mut FreeList, rd: &mut RadixTree) -> (r:
        Result<usize, AllocError>)
        requires
            old(backend).wf(old(rd)),
            0 < pg_num <= 1024,
        ensures
            final(backend).wf(final(rd)),
            r is Ok <==> old(backend).can_serve(pg_num as int),
            r is Err ==> r == Err::<usize, AllocError>(AllocError::ENOMEM) && *final(self) == *old(self) && final(backend).same_as(final(rd), old(backend), old(rd)),
            r matches Ok(a) ==> {
                &&& final(backend).grabbed(final(rd), old(backend), old(rd), a, pg_num as int)
                &&& final(self).data == a
                &&& final(self).counter == old(self).counter
            },
    {
        assert(pages_for(pg_num * PG_SIZE) == pg_num);
        match backend.alloc_pages(PG_SIZE * pg_num, rd) {
            Ok(a) => {
                self.data = a;
                Ok(a)
            },
            Err(e) => Err(e),
        }
    }

    /// Gives the run of `pg_num` pages of the record, whose pages carry
    /// no tag, back to the backend. Returns the base of the run and what
    /// the backend gave back to the system, if anything.
    pub fn destroy_page(&mut self, pg_num: usize, backend: &mut FreeList, rd: &mut RadixTree) -> (r:
        (usize, Option<(usize, usize)>))
        requires
            old(backend).wf(old(rd)),
            0 < pg_num <= 1024,
            old(self).data != 0,
            old(backend).clear_alloc(old(rd), old(self).data, pg_num as int),
        ensures
            final(backend).wf(final(rd)),
            r.0 == old(self).data,
            final(self).data == 0,
            final(self).counter == old(self).counter,
            forall|p: int|
                final(backend).allocated(p) <==> (old(backend).allocated(p)
                    && !crate::freelist::in_run(old(self).data as int, pg_num as int, p)),
            gave_back(old(backend).managed@, final(backend).managed@, some_range(r.1)),
    {
        assert(pages_for(pg_num * PG_SIZE) == pg_num);
        let p = self.data;
        let released = backend.free_pages(p, PG_SIZE * pg_num, rd);
        self.data = 0;
        (p, released)
    }

    /// Hands out the first cell of the run that qualifies for a request
    /// with alignment `align`, and returns its address; 0 when every
    /// cell is handed out, or when no cell that qualifies lies where the
    /// search looks.
    pub fn allocate(
        &mut self,
        align: usize,
        bitfield: &mut Vec<u32>,
        pg_count: usize,
        pg_align: usize,
        pg_num: usize,
    ) -> (ptr: usize)
        requires
            align > 0,
            pg_align > 0,
            old(self).data > 0,
            PAGE_SIZE * pg_num + old(self).data <= usize::MAX,
            old(bitfield)@.len() <= usize::MAX / 32,
            old(self).counts(old(bitfield)@),
        ensures
            final(self).data == old(self).data,
            final(self).counts(final(bitfield)@),
            ptr != 0 <==> old(self).counter < pg_count && exists|i: int|
                Self::fits(old(bitfield)@, old(self).data as int, align as int, pg_align as int, i)
                    && Self::in_bounds(pg_count as int, pg_align as int, pg_num as int, i),
            ptr == 0 ==> final(bitfield)@ == old(bitfield)@ && final(self).counter == old(self).counter,
            ptr != 0 ==> exists|idx: int|
                {
                    &&& Self::fits(
                        old(bitfield)@,
                        old(self).data as int,
                        align as int,
                        pg_align as int,
                        idx,
                    )
                    &&& forall|j: int|
                        0 <= j < idx ==> !Self::fits(
                            old(bitfield)@,
                            old(self).data as int,
                            align as int,
                            pg_align as int,
                            j,
                        )
                    &&& ptr == old(self).data + idx * pg_align
                    &&& #[trigger] Self::marked(old(bitfield)@, final(bitfield)@, idx)
                    &&& final(self).counter == old(self).counter + 1
                },
    {
        if self.counter >= pg_count {
            return 0;
        }
        let base_addr = self.data;
        match self.first_fit(base_addr, align, bitfield, pg_count, pg_align, pg_num) {
            Some((idx, addr)) => {
                proof {
                    lemma_count_changed(
                        old(bitfield)@,
                        bitfield@,
                        idx as int,
                        32 * bitfield@.len() as int,
                    );
                }
                self.counter += 1;
                addr
            },
            None => 0,
        }
    }

    /// Hands out every cell of the run: marks every cell in the bitmap,
    /// sets the counter to `pg_count`, and returns the base of the run.
    pub fn allocate_all(&mut self, bitfield: &mut Vec<u32>, pg_count: usize) -> (data: usize)
        ensures
            data == old(self).data,
            final(self).data == old(self).data,
            final(self).counter == pg_count,
            final(bitfield)@.len() == old(bitfield)@.len(),
            forall|j: int| 0 <= j < 32 * final(bitfield)@.len() ==> used(final(bitfield)@, j),
    {
        let mut i: usize = 0;
        while i < bitfield.len()
            invariant
                i <= bitfield@.len(),
                bitfield@.len() == old(bitfield)@.len(),
                forall|w: int| 0 <= w < i ==> bitfield@[w] == WORD_FULL,
            decreases bitfield@.len() - i,
        {
            bitfield[i] = WORD_FULL;
            i += 1;
        }
        proof {
            assert forall|j: int| 0 <= j < 32 * bitfield@.len() implies used(bitfield@, j) by {
                lemma_full_word(bitfield@[j / 32], (j % 32) as u32);
            }
        }
        self.counter = pg_count;
        self.data
    }

    /// The number of the cell of `unit` bytes at `ptr` in the run at
    /// `base`.
    pub open spec fn cell_of(base: int, unit: int, ptr: int) -> int {
        (ptr - base) / unit
    }

    /// Takes back the cell at `ptr`. Fails with `EDBFRE`, and changes
    /// nothing, when the cell is not handed out.
    pub fn deallocate(&mut self, ptr: usize, bitfield: &mut Vec<u32>, pg_align: usize) -> (r: Result<
        (),
        AllocError,
    >)
        requires
            pg_align > 0,
            old(self).data <= ptr,
            Self::cell_of(old(self).data as int, pg_align as int, ptr as int) < 32 * old(bitfield)@.len(),
            old(self).counts(old(bitfield)@),
        ensures
            final(self).data == old(self).data,
            final(self).counts(final(bitfield)@),
            r is Ok <==> used(
                old(bitfield)@,
                Self::cell_of(old(self).data as int, pg_align as int, ptr as int),
            ),
            r is Err ==> r == Err::<(), AllocError>(AllocError::EDBFRE) && final(bitfield)@ == old(bitfield)@ && final(self).counter == old(self).counter,
            r is Ok ==> final(self).counter == old(self).counter - 1 && Self::cleared(
                old(bitfield)@,
                final(bitfield)@,
                Self::cell_of(old(self).data as int, pg_align as int, ptr as int),
            ),
    {
        let page_offset: usize = ptr - self.data;
        let num: usize = page_offset / pg_align;
        let idx: usize = num / 32;
        let rem: u32 = (num % 32) as u32;
        if !Self::test(bitfield, idx, rem) {
            return Err(AllocError::EDBFRE);
        }
        Self::clear(bitfield, idx, rem);
        proof {
            lemma_count_positive(old(bitfield)@, num as int, 32 * bitfield@.len() as int);
            lemma_count_changed(
                old(bitfield)@,
                bitfield@,
                num as int,
                32 * bitfield@.len() as int,
            );
        }
        self.counter -= 1;
        Ok(())
    }

    /// Whether `ptr` lies in the run of `pages` pages at `base`.
    pub open spec fn in_run(base: int, pages: int, ptr: int) -> bool {
        base <= ptr < base + pages * PAGE_SIZE
    }

    /// Tells whether `ptr` lies in the run of `pages` pages at `base`.
    pub fn lies_in(base: usize, pages: usize, ptr: usize) -> (b: bool)
        requires
            pages * PAGE_SIZE <= usize::MAX,
        ensures
            b == Self::in_run(base as int, pages as int, ptr as int),
    {
        !(ptr < base || ptr - base >= pages * PAGE_SIZE)
    }

    /// Whether cell `j` is the cell of one of the first `n` addresses of
    /// `cells`.
    pub open spec fn among(cells: Seq<usize>, base: int, unit: int, n: int, j: int) -> bool {
        exists|k: int| 0 <= k < n && #[trigger] Self::cell_of(base, unit, cells[k] as int) == j
    }

    /// Takes back the cells at the addresses of `res_array`, from the
    /// first on, up to the first address that does not lie in the run.
    /// Returns the number of cells that it took back.
    pub fn deallocate_batch(
        &mut self,
        res_array: &Vec<usize>,
        bitfield: &mut Vec<u32>,
        pg_align: usize,
        pg_num: usize,
    ) -> (ans: usize)
        requires
            pg_align > 0,
            pg_num * PAGE_SIZE <= usize::MAX,
            old(self).counts(old(bitfield)@),
            forall|k: int|
                0 <= k < res_array@.len() && (forall|m: int|
                    0 <= m <= k ==> Self::in_run(
                        old(self).data as int,
                        pg_num as int,
                        #[trigger] res_array@[m] as int,
                    )) ==> used(
                    old(bitfield)@,
                    Self::cell_of(old(self).data as int, pg_align as int, res_array@[k] as int),
                ),
            forall|k: int, m: int|
                0 <= k < m < res_array@.len() ==> Self::cell_of(
                    old(self).data as int,
                    pg_align as int,
                    #[trigger] res_array@[k] as int,
                ) != Self::cell_of(
                    old(self).data as int,
                    pg_align as int,
                    #[trigger] res_array@[m] as int,
                ),
        ensures
            final(self).data == old(self).data,
            final(self).counts(final(bitfield)@),
            final(self).counter == old(self).counter - ans,
            final(bitfield)@.len() == old(bitfield)@.len(),
            ans <= res_array@.len(),
            forall|k: int|
                0 <= k < ans ==> Self::in_run(
                    old(self).data as int,
                    pg_num as int,
                    #[trigger] res_array@[k] as int,
                ),
            ans < res_array@.len() ==> !Self::in_run(
                old(self).data as int,
                pg_num as int,
                res_array@[ans as int] as int,
            ),
            forall|j: int|
                #[trigger] used(final(bitfield)@, j) <==> (used(old(bitfield)@, j) && !Self::among(
                    res_array@,
                    old(self).data as int,
                    pg_align as int,
                    ans as int,
                    j,
                )),
    {
        let base_addr: usize = self.data;
        let ghost base = base_addr as int;
        let ghost unit = pg_align as int;
        let ghost bits0 = bitfield@;
        let mut ans: usize = 0;
        while ans < res_array.len() && Self::lies_in(base_addr, pg_num, res_array[ans])
            invariant
                ans <= res_array@.len(),
                pg_align > 0,
                pg_num * PAGE_SIZE <= usize::MAX,
                base == base_addr,
                base_addr == old(self).data,
                unit == pg_align,
                bits0 == old(bitfield)@,
                *self == *old(self),
                bitfield@.len() == bits0.len(),
                count_used(bitfield@, 32 * bits0.len() as int) == self.counter - ans,
                forall|k: int|
                    0 <= k < ans ==> Self::in_run(base, pg_num as int, #[trigger] res_array@[k] as int),
                forall|j: int|
                    #[trigger] used(bitfield@, j) <==> (used(bits0, j) && !Self::among(
                        res_array@,
                        base,
                        unit,
                        ans as int,
                        j,
                    )),
                forall|k: int|
                    0 <= k < res_array@.len() && (forall|m: int|
                        0 <= m <= k ==> Self::in_run(base, pg_num as int, #[trigger] res_array@[m] as int))
                        ==> used(bits0, Self::cell_of(base, unit, res_array@[k] as int)),
                forall|k: int, m: int|
                    0 <= k < m < res_array@.len() ==> Self::cell_of(
                        base,
                        unit,
                        #[trigger] res_array@[k] as int,
                    ) != Self::cell_of(base, unit, #[trigger] res_array@[m] as int),
            decreases res_array@.len() - ans,
        {
            let ptr: usize = res_array[ans];
            let page_offset: usize = ptr - base_addr;
            let num: usize = page_offset / pg_align;
            let idx: usize = num / 32;
            let rem: u32 = (num % 32) as u32;
            let ghost before = bitfield@;
            proof {
                assert(Self::cell_of(base, unit, ptr as int) == num);
                assert(used(bits0, num as int));
                assert(!Self::among(res_array@, base, unit, ans as int, num as int)) by {
                    if Self::among(res_array@, base, unit, ans as int, num as int) {
                        let k = choose|k: int|
                            0 <= k < ans && #[trigger] Self::cell_of(base, unit, res_array@[k] as int)
                                == num;
                        assert(Self::cell_of(base, unit, res_array@[k] as int) != Self::cell_of(
                            base,
                            unit,
                            res_array@[ans as int] as int,
                        ));
                    }
                }
                assert(used(before, num as int));
            }
            Self::clear(bitfield, idx, rem);
            proof {
                lemma_count_changed(before, bitfield@, num as int, 32 * bits0.len() as int);
                assert forall|j: int|
                    #[trigger] used(bitfield@, j) <==> (used(bits0, j) && !Self::among(
                        res_array@,
                        base,
                        unit,
                        ans + 1,
                        j,
                    )) by {
                    if Self::among(res_array@, base, unit, ans + 1, j) {
                        let k = choose|k: int|
                            0 <= k < ans + 1 && #[trigger] Self::cell_of(
                                base,
                                unit,
                                res_array@[k] as int,
                            ) == j;
                        if k < ans {
                            assert(Self::among(res_array@, base, unit, ans as int, j));
                        }
                    }
                    if Self::among(res_array@, base, unit, ans as int, j) {
                        let k = choose|k: int|
                            0 <= k < ans && #[trigger] Self::cell_of(base, unit, res_array@[k] as int)
                                == j;
                        assert(Self::cell_of(base, unit, res_array@[k] as int) == j);
                    }
                    if j == num {
                        assert(Self::cell_of(base, unit, res_array@[ans as int] as int) == j);
                    }
                }
            }
            ans += 1;
        }
        proof {
            lemma_count_changed(bitfield@, bitfield@, 0, 32 * bits0.len() as int);
        }
        self.counter -= ans;
        ans
    }

    /// What holds of the cells that a batch took, whose numbers are
    /// `taken` in the order in which they were taken: cell `taken[m]`
    /// was the free cell with just `m` free cells before it, it lies
    /// below `limit` and below cell `count`, and its address is entry
    /// `start + m` of `res`.
    pub open spec fn batch_ok(
        bits: Seq<u32>,
        res: Seq<usize>,
        taken: Seq<int>,
        base: int,
        unit: int,
        start: int,
        count: int,
        limit: int,
    ) -> bool {
        forall|m: int|
            0 <= m < taken.len() ==> {
                &&& 0 <= #[trigger] taken[m] < limit
                &&& taken[m] < count
                &&& !used(bits, taken[m])
                &&& taken[m] - count_used(bits, taken[m]) == m
                &&& res[start + m] == base + taken[m] * unit
            }
    }

    /// The bitmap `after` is `before` with every cell below `limit`
    /// marked.
    pub open spec fn filled(before: Seq<u32>, after: Seq<u32>, limit: int) -> bool {
        &&& after.len() == before.len()
        &&& forall|j: int| #[trigger] used(after, j) <==> (used(before, j) || (0 <= j < limit && j < 32 * before.len()))
    }

    /// Among cells that are all handed out, the count grows by their
    /// number.
    pub proof fn lemma_count_run(bits: Seq<u32>, a: int, b: int)
        requires
            0 <= a <= b,
            forall|j: int| a <= j < b ==> used(bits, j),
        ensures
            count_used(bits, b) == count_used(bits, a) + (b - a),
        decreases b - a,
    {
        if a < b {
            Self::lemma_count_run(bits, a, b - 1);
        }
    }

    /// Hands out free cells of the run, in the order of their numbers,
    /// and writes their addresses to `res_array` from entry `start` on:
    /// as many as `count`, and one at least, unless the free cells below
    /// cell `pg_count` run out first. Returns the number of cells that
    /// it handed out.
    pub fn allocate_batch(
        &mut self,
        res_array: &mut Vec<usize>,
        start: usize,
        count: usize,
        bitfield: &mut Vec<u32>,
        pg_count: usize,
        pg_align: usize,
    ) -> (allocated: usize)
        requires
            old(self).counter < pg_count,
            old(self).counts(old(bitfield)@),
            start < old(res_array)@.len(),
            start + count <= old(res_array)@.len(),
            old(self).data + pg_count * pg_align <= usize::MAX,
            old(bitfield)@.len() <= usize::MAX / 32,
        ensures
            final(self).data == old(self).data,
            final(self).counts(final(bitfield)@),
            final(self).counter == old(self).counter + allocated,
            final(bitfield)@.len() == old(bitfield)@.len(),
            final(res_array)@.len() == old(res_array)@.len(),
            allocated <= count || allocated == 1,
            forall|k: int|
                0 <= k < final(res_array)@.len() && !(start <= k < start + allocated) ==> final(res_array)@[k] == old(res_array)@[k],
            exists|limit: int, taken: Seq<int>|
                {
                    &&& 0 <= limit <= 32 * old(bitfield)@.len()
                    &&& taken.len() == allocated
                    &&& #[trigger] Self::batch_ok(
                        old(bitfield)@,
                        final(res_array)@,
                        taken,
                        old(self).data as int,
                        pg_align as int,
                        start as int,
                        pg_count as int,
                        limit,
                    )
                    &&& allocated == limit - count_used(old(bitfield)@, limit)
                    &&& Self::filled(old(bitfield)@, final(bitfield)@, limit)
                    &&& (allocated >= count && allocated >= 1) || limit == 32 * old(bitfield)@.len()
                        || (!used(old(bitfield)@, limit) && limit >= pg_count)
                },
    {
        let ghost bits0 = bitfield@;
        let ghost res0 = res_array@;
        let ghost base = self.data as int;
        let ghost unit = pg_align as int;
        let ghost total = 32 * bits0.len() as int;
        let ghost mut taken: Seq<int> = Seq::empty();
        let data: usize = self.data;
        let room: usize = res_array.len();
        let mut allocated: usize = 0;
        let mut base_idx: usize = 0;
        while base_idx < bitfield.len()
            invariant
                base_idx <= bits0.len(),
                bits0 == old(bitfield)@,
                res0 == old(res_array)@,
                res0.len() == room,
                base == old(self).data,
                data == old(self).data,
                self.data == data,
                unit == pg_align,
                total == 32 * bits0.len(),
                bits0.len() <= usize::MAX / 32,
                bitfield@.len() == bits0.len(),
                res_array@.len() == res0.len(),
                start < res0.len(),
                start + count <= res0.len(),
                data + pg_count * pg_align <= usize::MAX,
                old(self).counts(bits0),
                self.counter == old(self).counter + allocated,
                count_used(bitfield@, total) == self.counter,
                allocated == 0 || allocated < count,
                taken.len() == allocated,
                Self::batch_ok(bits0, res_array@, taken, base, unit, start as int, pg_count as int, 32 * base_idx),
                allocated == 32 * base_idx - count_used(bits0, 32 * base_idx),
                Self::filled(bits0, bitfield@, 32 * base_idx),
                forall|k: int|
                    0 <= k < res0.len() && !(start <= k < start + allocated) ==> res_array@[k] == res0[k],
            decreases bits0.len() - base_idx,
        {
            let bitval: u32 = bitfield[base_idx];
            if bitval == WORD_FULL {
                proof {
                    assert forall|j: int| 32 * base_idx <= j < 32 * (base_idx + 1) implies used(
                        bits0,
                        j,
                    ) by {
                        assert(j / 32 == base_idx);
                        lemma_full_word(bitval, (j % 32) as u32);
                        assert(used(bitfield@, j));
                    }
                    Self::lemma_count_run(bits0, 32 * base_idx, 32 * (base_idx + 1));
                }
                base_idx += 1;
                continue ;
            }
            let mut first_free: u32 = 0;
            while first_free < 32
                invariant
                    first_free <= 32,
                    base_idx < bits0.len(),
                    bits0 == old(bitfield)@,
                    res0 == old(res_array)@,
                    res0.len() == room,
                    base == old(self).data,
                    data == old(self).data,
                    self.data == data,
                    unit == pg_align,
                    total == 32 * bits0.len(),
                    bits0.len() <= usize::MAX / 32,
                    bitfield@.len() == bits0.len(),
                    res_array@.len() == res0.len(),
                    start < res0.len(),
                    start + count <= res0.len(),
                    data + pg_count * pg_align <= usize::MAX,
                    old(self).counts(bits0),
                    self.counter == old(self).counter + allocated,
                    count_used(bitfield@, total) == self.counter,
                    allocated == 0 || allocated < count,
                    taken.len() == allocated,
                    Self::batch_ok(
                        bits0,
                        res_array@,
                        taken,
                        base,
                        unit,
                        start as int,
                        pg_count as int,
                        32 * base_idx + first_free,
                    ),
                    allocated == 32 * base_idx + first_free - count_used(
                        bits0,
                        32 * base_idx + first_free,
                    ),
                    Self::filled(bits0, bitfield@, 32 * base_idx + first_free),
                    forall|k: int|
                        0 <= k < res0.len() && !(start <= k < start + allocated) ==> res_array@[k]
                            == res0[k],
                decreases 32 - first_free,
            {
                let ghost pos = 32 * base_idx + first_free;
                if !Self::test(bitfield, base_idx, first_free) {
                    let idx: usize = base_idx * 32 + first_free as usize;
                    if idx >= pg_count {
                        proof {
                            assert(!used(bits0, pos));
                        }
                        return allocated;
                    }
                    proof {
                        assert(idx * pg_align <= pg_count * pg_align) by (nonlinear_arith)
                            requires
                                idx <= pg_count,
                        ;
                    }
                    let offset: usize = idx * pg_align;
                    let addr: usize = data + offset;
                    let ghost res_before = res_array@;
                    let ghost bits_before = bitfield@;
                    res_array[start + allocated] = addr;
                    Self::mark(bitfield, base_idx, first_free);
                    proof {
                        lemma_count_changed(bits_before, bitfield@, pos, total);
                        let old_taken = taken;
                        taken = taken.push(pos);
                        assert forall|m: int| 0 <= m < taken.len() implies {
                            &&& 0 <= #[trigger] taken[m] < pos + 1
                            &&& taken[m] < pg_count
                            &&& !used(bits0, taken[m])
                            &&& taken[m] - count_used(bits0, taken[m]) == m
                            &&& res_array@[start + m] == base + taken[m] * unit
                        } by {
                            if m < old_taken.len() {
                                assert(taken[m] == old_taken[m]);
                                assert(res_array@[start + m] == res_before[start + m]);
                            }
                        }
                    }
                    allocated += 1;
                    self.counter += 1;
                    if allocated >= count {
                        proof {
                            assert(Self::batch_ok(
                                bits0,
                                res_array@,
                                taken,
                                base,
                                unit,
                                start as int,
                                pg_count as int,
                                pos + 1,
                            ));
                        }
                        return allocated;
                    }
                }
                first_free += 1;
            }
            base_idx += 1;
        }
        allocated
    }
}

} // verus!
