use crate::error::AllocError;
use crate::freelist::bump::PG_SIZE;
use crate::mm::linklist::{lemma_top_aligned, top_aligned, Linklist};
use crate::page::efficient_page::{is_cell, Batch};
use crate::freelist::{in_run, page_of, pages_for};
use crate::size_class::tc_size_class::{class_index, is_class_of, lemma_class_exists, MAX_SIZE};
use crate::size_class::{get_rounded_size_by_idx, get_size_class, SizeClass, TOTAL_SIZE_CLASS};
use crate::zone::large_tag;
use crate::zone::{only_class_changed, ZoneAllocator};
use crate::collections::radix_tree::TreeNode;
use crate::freelist::ranges::{gave_back, lemma_gave_more, lemma_gave_nothing, some_range};
use vstd::prelude::*;

verus! {

/// Bytes that the list of one size class may hold before the cache
/// returns the older half of the list to the central layer.
pub const SOFT_CAP_BYTES: usize = 0x1000_0000;

/// The cache of one thread for one size class: a list of free cells, and
/// the rest of a range of cells that has not been cut into cells yet.
///
/// The range holds `bump_count` cells, `bump_unit` bytes apart, from
/// `bump_ptr` on.
pub struct ThreadCacheUnit {
    pub list: Linklist,
    pub bump_ptr: usize,
    pub bump_count: usize,
    pub bump_unit: usize,
}

/// The first cell of a range is the start of the range, and the other
/// cells are the cells of the range that starts one unit later.
pub proof fn lemma_cell_step(data: int, unit: int, count: int, x: int)
    requires
        unit >= 1,
        count >= 1,
    ensures
        is_cell(data, unit, count, x) <==> (x == data || is_cell(data + unit, unit, count - 1, x)),
{
    let y = x - data - unit;
    vstd::arithmetic::div_mod::lemma_mod_add_multiples_vanish(y, unit);
    vstd::arithmetic::div_mod::lemma_div_plus_one(y, unit);
    assert(unit + y == x - data);
    if x == data {
        vstd::arithmetic::div_mod::lemma_small_mod(0, unit as nat);
        vstd::arithmetic::div_mod::lemma_basic_div(0, unit);
    } else if 0 < x - data < unit {
        vstd::arithmetic::div_mod::lemma_small_mod((x - data) as nat, unit as nat);
    }
}

impl ThreadCacheUnit {
    /// A cache that holds no cell.
    pub fn new() -> (unit: Self)
        ensures
            unit.wf(),
            forall|x: int| !unit.held(x),
            unit.list.cells@.len() == 0,
            unit.bump_ptr == 0,
            unit.bump_count == 0,
            unit.bump_unit == 0,
    {
        Self { list: Linklist::new(), bump_ptr: 0, bump_count: 0, bump_unit: 0 }
    }

    /// Whether `x` is a cell of the range that is not cut yet.
    pub open spec fn in_bump(&self, x: int) -> bool {
        self.bump_count > 0 && is_cell(
            self.bump_ptr as int,
            self.bump_unit as int,
            self.bump_count as int,
            x,
        )
    }

    /// Whether the cache holds the cell at `x`: on its list or in its
    /// range.
    pub open spec fn held(&self, x: int) -> bool {
        (0 <= x <= usize::MAX && self.list.cells@.contains(x as usize)) || self.in_bump(x)
    }

    /// No cell is on the list twice, no cell of the list lies in the
    /// range, and the range ends at an address that a `usize` holds.
    pub open spec fn wf(&self) -> bool {
        &&& self.list.cells@.no_duplicates()
        &&& self.bump_count > 0 ==> self.bump_unit > 0 && self.bump_ptr + self.bump_count
            * self.bump_unit <= usize::MAX
        &&& forall|j: int|
            0 <= j < self.list.cells@.len() ==> !self.in_bump(#[trigger] self.list.cells@[j] as int)
    }

    /// Every cell that the cache holds is a cell of class `idx` that the
    /// central layer has handed out.
    pub open spec fn backed_by(&self, zone: &ZoneAllocator, idx: int) -> bool {
        forall|x: int| #[trigger] self.held(x) ==> zone.out(idx, x)
    }

    /// Whether the cache holds a cell whose address is a multiple of
    /// `align`.
    pub open spec fn has_aligned(&self, align: int) -> bool {
        exists|x: int| #[trigger] self.held(x) && x % align == 0
    }
}

impl ThreadCacheUnit {
    /// A block that has just come back to the cache is the next that
    /// the cache hands out for its class, to a request with an alignment
    /// that its address has; the cache serves that request alone,
    /// without a batch from the central layer.
    pub proof fn lemma_round_trip(&self, before: &ThreadCacheUnit, ptr: usize, align: int)
        requires
            self.list.cells@ == before.list.cells@.push(ptr),
            align > 0,
            ptr as int % align == 0,
        ensures
            self.has_aligned(align),
            top_aligned(self.list.cells@, align) >= 0,
            self.list.cells@[top_aligned(self.list.cells@, align)] == ptr,
    {
        crate::mm::linklist::lemma_last_in_first_out(before.list.cells@, ptr, align);
        assert(self.list.cells@.last() == ptr);
        assert(self.list.cells@.contains(ptr));
        assert(self.held(ptr as int));
    }

    /// Cuts cells off the front of the range until one is a multiple of
    /// `align`; the cells before it go onto the list.
    pub fn carve(&mut self, align: usize) -> (r: Option<usize>)
        requires
            old(self).wf(),
            align > 0,
        ensures
            final(self).wf(),
            forall|x: int| old(self).held(x) <==> (#[trigger] final(self).held(x) || r == Some(
                x as usize,
            ) && 0 <= x <= usize::MAX),
            r matches Some(a) ==> a % align == 0 && old(self).in_bump(a as int) && !final(self).held(a as int),
            r is None ==> final(self).bump_count == 0 && forall|x: int| #[trigger]
                old(self).in_bump(x) ==> x % (align as int) != 0,
            forall|j: int|
                0 <= j < old(self).list.cells@.len() ==> final(self).list.cells@[j] == old(self).list.cells@[j],
            final(self).list.cells@.len() >= old(self).list.cells@.len(),
            forall|j: int|
                old(self).list.cells@.len() <= j < final(self).list.cells@.len() ==> #[trigger] final(self).list.cells@[j] as int % (align as int) != 0,
    {
        while self.bump_count > 0
            invariant
                self.wf(),
                align > 0,
                forall|x: int| old(self).held(x) <==> #[trigger] self.held(x),
                forall|x: int|
                    #[trigger] old(self).in_bump(x) && !self.in_bump(x) ==> x % (align as int) != 0,
                forall|x: int| #[trigger] self.in_bump(x) ==> old(self).in_bump(x),
                forall|j: int|
                    0 <= j < old(self).list.cells@.len() ==> self.list.cells@[j] == old(self).list.cells@[j],
                self.list.cells@.len() >= old(self).list.cells@.len(),
                forall|j: int|
                    old(self).list.cells@.len() <= j < self.list.cells@.len() ==> #[trigger] self.list.cells@[j] as int
                        % (align as int) != 0,
            decreases self.bump_count,
        {
            let ghost before = *self;
            let cell: usize = self.bump_ptr;
            proof {
                assert forall|x: int|
                    is_cell(
                        before.bump_ptr as int,
                        before.bump_unit as int,
                        before.bump_count as int,
                        x,
                    ) <==> (x == before.bump_ptr || is_cell(
                        before.bump_ptr + before.bump_unit,
                        before.bump_unit as int,
                        before.bump_count - 1,
                        x,
                    )) by {
                    lemma_cell_step(
                        before.bump_ptr as int,
                        before.bump_unit as int,
                        before.bump_count as int,
                        x,
                    );
                }
                assert(before.bump_count * before.bump_unit == (before.bump_count - 1)
                    * before.bump_unit + before.bump_unit) by (nonlinear_arith);
                assert(before.in_bump(cell as int));
                assert(!before.list.cells@.contains(cell));
            }
            self.bump_count -= 1;
            if self.bump_count > 0 {
                self.bump_ptr += self.bump_unit;
            }
            if cell % align == 0 {
                proof {
                    assert forall|x: int|
                        old(self).held(x) <==> (#[trigger] self.held(x) || Some(cell) == Some(
                            x as usize,
                        ) && 0 <= x <= usize::MAX) by {
                        assert(old(self).held(x) <==> before.held(x));
                    }
                    if self.bump_count > 0 {
                        lemma_cell_not_self(
                            cell as int,
                            before.bump_unit as int,
                            self.bump_count as int,
                        );
                    }
                }
                return Some(cell);
            }
            self.list.push_unchecked(cell);
            proof {
                let s0 = before.list.cells@;
                let s1 = self.list.cells@;
                assert(s1[s0.len() as int] == cell);
                assert forall|a: int, b: int|
                    0 <= a < s1.len() && 0 <= b < s1.len() && a != b implies s1[a] != s1[b] by {
                    if a < s0.len() {
                        assert(s0.contains(s1[a]));
                    }
                    if b < s0.len() {
                        assert(s0.contains(s1[b]));
                    }
                }
                assert forall|j: int| 0 <= j < s1.len() implies !self.in_bump(
                    #[trigger] s1[j] as int,
                ) by {
                    if j < s0.len() {
                        assert(!before.in_bump(s0[j] as int));
                    } else if self.bump_count > 0 {
                        lemma_cell_not_self(
                            cell as int,
                            before.bump_unit as int,
                            self.bump_count as int,
                        );
                    }
                }
                assert forall|x: int| #[trigger] self.in_bump(x) implies old(self).in_bump(x) by {
                    assert(before.in_bump(x));
                }
                assert forall|x: int|
                    #[trigger] old(self).in_bump(x) && !self.in_bump(x) implies x % (align as int)
                    != 0 by {
                    if before.in_bump(x) {
                        assert(x == cell);
                    }
                }
                assert forall|x: int| old(self).held(x) <==> #[trigger] self.held(x) by {
                    assert(old(self).held(x) <==> before.held(x));
                    if 0 <= x <= usize::MAX {
                        if s0.contains(x as usize) {
                            let k = choose|k: int| 0 <= k < s0.len() && s0[k] == x as usize;
                            assert(s1[k] == x as usize);
                        }
                        if s1.contains(x as usize) && x != cell {
                            let k = choose|k: int| 0 <= k < s1.len() && s1[k] == x as usize;
                            assert(s0[k] == x as usize);
                        }
                    }
                }
            }
        }
        None
    }
}

/// A range that starts one unit after `x` does not hold `x`.
pub proof fn lemma_cell_not_self(x: int, unit: int, count: int)
    requires
        unit >= 1,
    ensures
        !is_cell(x + unit, unit, count, x),
{
}

impl ThreadCacheUnit {
    /// What taking the cell nearest to the head of the list of `before`
    /// among those with the alignment leaves: the list without that
    /// cell, the others in their order, and the range untouched.
    pub open spec fn popped(&self, before: &ThreadCacheUnit, align: int) -> bool {
        &&& self.list.cells@ == before.list.cells@.remove(top_aligned(before.list.cells@, align))
        &&& self.bump_ptr == before.bump_ptr
        &&& self.bump_count == before.bump_count
        &&& self.bump_unit == before.bump_unit
    }

    /// Takes a cell whose address is a multiple of `align` out of the
    /// cache: the one nearest to the head of the list, or else the first
    /// one of the range. When the cache holds none, the whole range ends
    /// up on the list.
    pub fn take_cached(&mut self, align: usize) -> (r: Option<usize>)
        requires
            old(self).wf(),
            align > 0,
        ensures
            final(self).wf(),
            r is Some <==> old(self).has_aligned(align as int),
            r matches Some(a) ==> {
                &&& a % align == 0
                &&& old(self).held(a as int)
                &&& !final(self).held(a as int)
                &&& forall|x: int| x != a ==> (#[trigger] final(self).held(x) <==> old(self).held(x))
                &&& top_aligned(old(self).list.cells@, align as int) >= 0 ==> a == old(self).list.cells@[top_aligned(old(self).list.cells@, align as int)]
                &&& top_aligned(old(self).list.cells@, align as int) >= 0 ==> final(self).popped(
                    old(self),
                    align as int,
                )
            },
            r is None ==> {
                &&& forall|x: int| #[trigger] final(self).held(x) <==> old(self).held(x)
                &&& final(self).bump_count == 0
                &&& forall|j: int|
                    0 <= j < final(self).list.cells@.len() ==> #[trigger] final(self).list.cells@[j] as int % (align as int) != 0
            },
    {
        proof {
            lemma_top_aligned(self.list.cells@, align as int);
        }
        if self.list.length() > 0 {
            match self.list.pop_unchecked_aligned(align) {
                Some(a) => {
                    proof {
                        let s0 = old(self).list.cells@;
                        let s1 = self.list.cells@;
                        let k = top_aligned(s0, align as int);
                        crate::freelist::lemma_remove_contains(s0, k, a);
                        assert(s0.contains(a));
                        assert(old(self).held(a as int));
                        assert forall|x: int| x != a implies (#[trigger] self.held(x) <==> old(self).held(x)) by {
                            if 0 <= x <= usize::MAX {
                                crate::freelist::lemma_remove_contains(s0, k, x as usize);
                            }
                        }
                        assert forall|j: int| 0 <= j < s1.len() implies !self.in_bump(
                            #[trigger] s1[j] as int,
                        ) by {
                            let j0 = if j < k { j } else { j + 1 };
                            assert(s1[j] == s0[j0]);
                        }
                    }
                    return Some(a);
                },
                None => {},
            }
        }
        let ghost mid = *self;
        let r = self.carve(align);
        proof {
            let s0 = old(self).list.cells@;
            assert(mid.list.cells@ == s0);
            if r is None {
                if old(self).has_aligned(align as int) {
                    let x = choose|x: int| #[trigger] old(self).held(x) && x % (align as int) == 0;
                    if old(self).in_bump(x) {
                        assert(mid.in_bump(x));
                    } else {
                        let j = choose|j: int| 0 <= j < s0.len() && s0[j] == x as usize;
                        assert(s0[j] as int % (align as int) != 0);
                    }
                }
            } else {
                let a = r->Some_0;
                assert(mid.in_bump(a as int));
                assert(old(self).held(a as int) && (a as int) % (align as int) == 0);
                assert forall|x: int| x != a implies (#[trigger] self.held(x) <==> old(self).held(
                    x,
                )) by {
                    assert(mid.held(x) <==> old(self).held(x));
                }
            }
            assert forall|x: int| #[trigger] mid.held(x) <==> old(self).held(x) by {}
        }
        r
    }
}

impl ThreadCacheUnit {
    /// What an allocation of the cell `a` by a cache of class `idx`
    /// brings about, in the cache (`self` after, `before` before) and in
    /// the central state (`zone` after, `zone0` before).
    ///
    /// The cell was in the cache or not handed out, and is now handed out
    /// and not in the cache. The cache has lost no other cell and has
    /// gained only cells that were not handed out before; every cell
    /// that is newly handed out is `a` or in the cache. No cell of
    /// another class has changed, and no tag of a page that was in use.
    pub open spec fn allocated_from(
        &self,
        zone: &ZoneAllocator,
        before: &ThreadCacheUnit,
        zone0: &ZoneAllocator,
        idx: int,
        a: int,
    ) -> bool {
        &&& zone.out(idx, a)
        &&& !self.held(a)
        &&& before.held(a) || !zone0.out(idx, a)
        &&& forall|x: int|
            x != a ==> (#[trigger] self.held(x) <==> (before.held(x) || (zone.out(idx, x)
                && !zone0.out(idx, x))))
        &&& forall|x: int| zone0.out(idx, x) ==> #[trigger] zone.out(idx, x)
        &&& forall|c: int, x: int| c != idx ==> (#[trigger] zone.out(c, x) <==> zone0.out(c, x))
        &&& forall|q: int| zone0.rd_tree.tag(q) > 0 ==> #[trigger] zone.rd_tree.tag(q)
            == zone0.rd_tree.tag(q)
        &&& only_class_changed(&zone0.rd_tree, &zone.rd_tree, idx)
    }

    /// Hands out a cell of class `idx` whose address is a multiple of
    /// `align`.
    ///
    /// The cell comes from the list, or else from the range, and only
    /// when the cache holds no such cell from a batch of the central
    /// layer: a batch that is a list becomes the list, a batch that is a
    /// range becomes the range, and its first cell is handed out. Fails
    /// with `ENOMEM` when the cache holds no such cell and the central
    /// layer has no batch; a failure changes no cell.
    pub fn allocate(&mut self, idx: usize, align: usize, zone: &mut ZoneAllocator) -> (r: Result<
        usize,
        AllocError,
    >)
        requires
            old(self).wf(),
            old(zone).wf(),
            old(self).backed_by(old(zone), idx as int),
            1 <= idx < TOTAL_SIZE_CLASS,
            align > 0,
            PG_SIZE % align == 0,
        ensures
            final(self).wf(),
            final(zone).wf(),
            final(self).backed_by(final(zone), idx as int),
            r is Ok <==> old(self).has_aligned(align as int) || old(zone).slabs[idx as int].can_batch(
                align,
                &old(zone).backend,
            ),
            r is Err ==> {
                &&& r == Err::<usize, AllocError>(AllocError::ENOMEM)
                &&& forall|x: int| #[trigger] final(self).held(x) <==> old(self).held(x)
                &&& forall|c: int, x: int| #[trigger] final(zone).out(c, x) <==> old(zone).out(c, x)
                &&& forall|q: int| #[trigger] final(zone).rd_tree.tag(q) == old(zone).rd_tree.tag(q)
            },
            r matches Ok(a) ==> {
                &&& a % align == 0
                &&& final(self).allocated_from(final(zone), old(self), old(zone), idx as int, a as int)
                &&& old(self).has_aligned(align as int) ==> *final(zone) == *old(zone)
                &&& top_aligned(old(self).list.cells@, align as int) >= 0 ==> a == old(self).list.cells@[top_aligned(old(self).list.cells@, align as int)]
                &&& top_aligned(old(self).list.cells@, align as int) >= 0 ==> final(self).popped(
                    old(self),
                    align as int,
                )
            },
    {
        match self.take_cached(align) {
            Some(a) => {
                proof {
                    assert(old(self).held(a as int));
                    assert(zone.out(idx as int, a as int));
                    assert forall|x: int| #[trigger] self.held(x) implies zone.out(idx as int, x) by {
                        assert(old(self).held(x));
                    }
                }
                return Ok(a);
            },
            None => {},
        }
        let ghost mid = *self;
        match zone.allocate_batch_from_slab(idx, align) {
            Err(e) => {
                proof {
                    assert forall|x: int| #[trigger] self.held(x) implies zone.out(idx as int, x) by {
                        assert(old(self).held(x));
                        assert(old(zone).out(idx as int, x));
                    }
                }
                Err(e)
            },
            Ok(batch) => {
                let a: usize = match batch {
                    Batch::Linked { cells } => {
                        let mut cells = cells;
                        proof {
                            // A batch comes as a list only for the alignment 1,
                            // which every cell has: the cache holds no cell.
                            if self.list.cells@.len() > 0 {
                                assert(self.list.cells@[0] as int % 1 != 0);
                            }
                        }
                        let a = cells.pop().unwrap();
                        self.list.cells = cells;
                        proof {
                            let all = batch->Linked_cells@;
                            let rest = self.list.cells@;
                            assert(all[all.len() - 1] == a);
                            assert(batch.has(a as int));
                            crate::freelist::lemma_drop_last_contains(all, a);
                            assert forall|x: int|
                                x != a implies (#[trigger] self.held(x) <==> (old(self).held(x) || (
                                zone.out(idx as int, x) && !old(zone).out(idx as int, x)))) by {
                                assert(mid.held(x) <==> old(self).held(x));
                                assert(!mid.held(x));
                                if 0 <= x <= usize::MAX {
                                    crate::freelist::lemma_drop_last_contains(all, x as usize);
                                    if all.contains(x as usize) {
                                        let k = choose|k: int| 0 <= k < all.len() && all[k] == x as usize;
                                        assert(batch.has(x));
                                    }
                                    if batch.has(x) {
                                        let k = choose|k: int| 0 <= k < all.len() && all[k] == x;
                                        assert(all.contains(x as usize));
                                    }
                                }
                            }
                        }
                        a
                    },
                    Batch::Contiguous { base, count, unit } => {
                        proof {
                            assert(batch.has(base as int)) by {
                                vstd::arithmetic::div_mod::lemma_small_mod(0, unit as nat);
                                vstd::arithmetic::div_mod::lemma_basic_div(0, unit as int);
                            }
                            assert forall|x: int|
                                is_cell(base as int, unit as int, count as int, x) <==> (x == base
                                    || is_cell(base + unit, unit as int, count - 1, x)) by {
                                lemma_cell_step(base as int, unit as int, count as int, x);
                            }
                            assert(count * unit == (count - 1) * unit + unit) by (nonlinear_arith);
                        }
                        self.bump_count = count - 1;
                        self.bump_unit = unit;
                        if count > 1 {
                            self.bump_ptr = base + unit;
                        }
                        proof {
                            if count > 1 {
                                lemma_cell_not_self(base as int, unit as int, count - 1);
                            }
                            assert forall|j: int|
                                0 <= j < self.list.cells@.len() implies !self.in_bump(
                                #[trigger] self.list.cells@[j] as int,
                            ) by {
                                let y = self.list.cells@[j];
                                assert(mid.list.cells@.contains(y));
                                assert(mid.held(y as int));
                                assert(old(self).held(y as int));
                                assert(old(zone).out(idx as int, y as int));
                                assert(!batch.has(y as int));
                                lemma_cell_step(base as int, unit as int, count as int, y as int);
                            }
                            assert forall|x: int|
                                x != base implies (#[trigger] self.held(x) <==> (old(self).held(x)
                                    || (zone.out(idx as int, x) && !old(zone).out(idx as int, x)))) by {
                                assert(mid.held(x) <==> old(self).held(x));
                                if old(self).held(x) {
                                    assert(old(zone).out(idx as int, x));
                                }
                                lemma_cell_step(base as int, unit as int, count as int, x);
                                assert(batch.has(x) <==> is_cell(
                                    base as int,
                                    unit as int,
                                    count as int,
                                    x,
                                ));
                                assert(zone.out(idx as int, x) <==> (old(zone).out(idx as int, x)
                                    || batch.has(x)));
                                assert(!mid.in_bump(x));
                                if count == 1 {
                                    assert(!is_cell(base + unit, unit as int, 0, x)) by {
                                        if base + unit <= x {
                                            vstd::arithmetic::div_mod::lemma_div_pos_is_pos(
                                                x - base - unit,
                                                unit as int,
                                            );
                                        }
                                    }
                                }
                            }
                            assert(base as int % (align as int) == 0) by {
                                lemma_divides(base as int, PG_SIZE as int, align as int);
                            }
                        }
                        base
                    },
                };
                proof {
                    assert(!old(self).has_aligned(align as int));
                    assert forall|x: int| #[trigger] self.held(x) implies zone.out(idx as int, x) by {
                        if old(self).held(x) {
                            assert(old(zone).out(idx as int, x));
                        }
                    }
                    assert(batch.has(a as int));
                    assert(!old(zone).out(idx as int, a as int));
                    assert(zone.out(idx as int, a as int));
                    assert(a % align == 0);
                    assert(!self.held(a as int));
                    assert(forall|x: int|
                        x != a ==> (#[trigger] self.held(x) <==> (old(self).held(x) || (zone.out(
                            idx as int,
                            x,
                        ) && !old(zone).out(idx as int, x)))));
                    assert(forall|x: int|
                        old(zone).out(idx as int, x) ==> #[trigger] zone.out(idx as int, x));
                    assert(top_aligned(old(self).list.cells@, align as int) < 0) by {
                        lemma_top_aligned(old(self).list.cells@, align as int);
                        let k = top_aligned(old(self).list.cells@, align as int);
                        if k >= 0 {
                            let y = old(self).list.cells@[k];
                            assert(old(self).list.cells@.contains(y));
                            assert(old(self).held(y as int) && (y as int) % (align as int) == 0);
                        }
                    }
                }
                Ok(a)
            },
        }
    }
}

/// A multiple of `m` is a multiple of each divisor of `m`.
pub proof fn lemma_divides(x: int, m: int, d: int)
    requires
        x >= 0,
        m > 0,
        d > 0,
        x % m == 0,
        m % d == 0,
    ensures
        x % d == 0,
{
    vstd::arithmetic::div_mod::lemma_fundamental_div_mod(x, m);
    vstd::arithmetic::div_mod::lemma_fundamental_div_mod(m, d);
    let a = x / m;
    let b = m / d;
    assert(x == (d * b) * a);
    assert((d * b) * a == (b * a) * d) by (nonlinear_arith);
    vstd::arithmetic::div_mod::lemma_mod_multiples_basic(b * a, d);
}

impl ThreadCacheUnit {
    /// What a return of cells by a cache of class `idx` to the central
    /// layer brings about: the only cells that the central layer has
    /// taken back are cells that the cache held or the cell `a`, each
    /// cell that the cache held or `a` is still in the cache or taken
    /// back, and the cache has gained no cell but `a`. No cell of another
    /// class has changed, and no tag has come to a page.
    pub open spec fn returned_to(
        &self,
        zone: &ZoneAllocator,
        before: &ThreadCacheUnit,
        zone0: &ZoneAllocator,
        idx: int,
        a: int,
    ) -> bool {
        &&& forall|x: int| #[trigger] self.held(x) ==> before.held(x) || x == a
        &&& forall|x: int| #[trigger] zone.out(idx, x) ==> zone0.out(idx, x)
        &&& forall|x: int|
            zone0.out(idx, x) && !#[trigger] zone.out(idx, x) ==> before.held(x) || x == a
        &&& forall|x: int| #[trigger] before.held(x) || x == a ==> self.held(x) || !zone.out(idx, x)
        &&& forall|c: int, x: int| c != idx ==> (#[trigger] zone.out(c, x) <==> zone0.out(c, x))
        &&& forall|q: int| #[trigger] zone.rd_tree.tag(q) > 0 ==> zone.rd_tree.tag(q)
            == zone0.rd_tree.tag(q)
        &&& only_class_changed(&zone0.rd_tree, &zone.rd_tree, idx)
    }

    /// Takes back the cell at `ptr`, a handed-out cell of class `idx` of
    /// `size` bytes that the cache does not hold: it becomes the head of
    /// the list. When the list then holds more than `SOFT_CAP_BYTES`
    /// bytes, its older half goes back to the central layer. Returns the
    /// ranges that the backend gave back to the system.
    pub fn deallocate(&mut self, idx: usize, ptr: usize, size: usize, zone: &mut ZoneAllocator) -> (released:
        Vec<(usize, usize)>)
        requires
            old(self).wf(),
            old(zone).wf(),
            old(self).backed_by(old(zone), idx as int),
            1 <= idx < TOTAL_SIZE_CLASS,
            size > 0,
            old(zone).out(idx as int, ptr as int),
            !old(self).held(ptr as int),
        ensures
            final(self).wf(),
            final(zone).wf(),
            final(self).backed_by(final(zone), idx as int),
            final(self).returned_to(final(zone), old(self), old(zone), idx as int, ptr as int),
            final(self).held(ptr as int) || !final(zone).out(idx as int, ptr as int),
            old(self).list.cells@.len() < SOFT_CAP_BYTES / size ==> *final(zone) == *old(zone)
                && final(self).list.cells@ == old(self).list.cells@.push(ptr) && released@.len() == 0,
            old(self).list.cells@.len() >= SOFT_CAP_BYTES / size ==> final(self).list.cells@ == old(self).list.cells@.push(ptr).subrange(
                old(self).list.cells@.len() + 1 - (old(self).list.cells@.len() + 1) / 2,
                old(self).list.cells@.len() as int + 1,
            ),
            final(self).bump_ptr == old(self).bump_ptr,
            final(self).bump_count == old(self).bump_count,
            final(self).bump_unit == old(self).bump_unit,
            gave_back(old(zone).backend.managed@, final(zone).backend.managed@, released@),
    {
        proof {
            lemma_gave_nothing(zone.backend.managed@);
        }
        self.list.push_unchecked(ptr);
        let ghost mid = *self;
        proof {
            let s0 = old(self).list.cells@;
            let s1 = self.list.cells@;
            assert(!s0.contains(ptr));
            crate::freelist::lemma_push_contains(s0, ptr, ptr);
            assert forall|x: int| #[trigger] mid.held(x) <==> (old(self).held(x) || x == ptr) by {
                if 0 <= x <= usize::MAX {
                    crate::freelist::lemma_push_contains(s0, ptr, x as usize);
                }
            }
            assert forall|j: int| 0 <= j < s1.len() implies !mid.in_bump(#[trigger] s1[j] as int) by {
                if j < s0.len() {
                    assert(!old(self).in_bump(s0[j] as int));
                }
            }
        }
        let len: usize = self.list.length();
        if len <= SOFT_CAP_BYTES / size {
            return Vec::new();
        }
        let half: usize = len / 2;
        let mut older: Vec<usize> = self.list.cells.split_off(len - half);
        std::mem::swap(&mut self.list.cells, &mut older);
        proof {
            let s1 = mid.list.cells@;
            let kept = self.list.cells@;
            let gone = older@;
            assert(kept == s1.subrange(len - half, len as int));
            assert(gone == s1.subrange(0, len - half));
            assert(gone.no_duplicates()) by {
                assert forall|a: int, b: int|
                    0 <= a < gone.len() && 0 <= b < gone.len() && a != b implies gone[a]
                    != gone[b] by {
                    assert(gone[a] == s1[a] && gone[b] == s1[b]);
                }
            }
            assert(kept.no_duplicates()) by {
                assert forall|a: int, b: int|
                    0 <= a < kept.len() && 0 <= b < kept.len() && a != b implies kept[a]
                    != kept[b] by {
                    assert(kept[a] == s1[a + len - half] && kept[b] == s1[b + len - half]);
                }
            }
            assert forall|k: int| 0 <= k < gone.len() implies zone.out(
                idx as int,
                #[trigger] gone[k] as int,
            ) by {
                assert(gone[k] == s1[k]);
                assert(s1.contains(gone[k]));
                assert(mid.held(gone[k] as int));
            }
        }
        let released = zone.deallocate_batch_to_slab(idx, &older);
        proof {
            let s1 = mid.list.cells@;
            let kept = self.list.cells@;
            let gone = older@;
            assert forall|x: usize| s1.contains(x) <==> (kept.contains(x) || gone.contains(x)) by {
                if s1.contains(x) {
                    let k = choose|k: int| 0 <= k < s1.len() && s1[k] == x;
                    if k < len - half {
                        assert(gone[k] == x);
                    } else {
                        assert(kept[k - (len - half)] == x);
                    }
                }
                if kept.contains(x) {
                    let k = choose|k: int| 0 <= k < kept.len() && kept[k] == x;
                    assert(s1[k + len - half] == x);
                }
                if gone.contains(x) {
                    let k = choose|k: int| 0 <= k < gone.len() && gone[k] == x;
                    assert(s1[k] == x);
                }
            }
            assert forall|x: usize| kept.contains(x) implies !gone.contains(x) by {
                let a = choose|a: int| 0 <= a < kept.len() && kept[a] == x;
                if gone.contains(x) {
                    let b = choose|b: int| 0 <= b < gone.len() && gone[b] == x;
                    assert(s1[a + len - half] == s1[b]);
                }
            }
            assert forall|j: int| 0 <= j < kept.len() implies !self.in_bump(
                #[trigger] kept[j] as int,
            ) by {
                assert(kept[j] == s1[j + len - half]);
                assert(!mid.in_bump(s1[j + len - half] as int));
            }
            assert forall|x: int| #[trigger] self.held(x) implies zone.out(idx as int, x)
                && mid.held(x) by {
                if self.in_bump(x) {
                    assert(mid.in_bump(x));
                    assert(mid.held(x));
                    assert forall|k: int| 0 <= k < s1.len() implies s1[k] != x by {
                        assert(!mid.in_bump(s1[k] as int));
                    }
                    if gone.contains(x as usize) {
                        assert(s1.contains(x as usize));
                        let k = choose|k: int| 0 <= k < s1.len() && s1[k] == x as usize;
                        assert(s1[k] != x);
                    }
                } else {
                    assert(kept.contains(x as usize));
                    assert(s1.contains(x as usize));
                    assert(mid.held(x));
                    let a = choose|a: int| 0 <= a < kept.len() && kept[a] == x as usize;
                    if gone.contains(x as usize) {
                        let b = choose|b: int| 0 <= b < gone.len() && gone[b] == x as usize;
                        assert(s1[a + len - half] == s1[b]);
                    }
                }
                assert(old(self).held(x) || x == ptr);
                assert(old(zone).out(idx as int, x));
                assert(!gone.contains(x as usize));
            }
            assert forall|x: int| #[trigger] mid.held(x) implies self.held(x) || !zone.out(
                idx as int,
                x,
            ) by {
                if !mid.in_bump(x) {
                    assert(s1.contains(x as usize));
                }
            }
            assert forall|x: int|
                old(zone).out(idx as int, x) && !#[trigger] zone.out(idx as int, x) implies old(self).held(x) || x == ptr by {
                assert(gone.contains(x as usize));
                assert(s1.contains(x as usize));
                assert(mid.held(x));
            }
            assert forall|x: int| #[trigger] self.held(x) implies old(self).held(x) || x == ptr by {
                assert(mid.held(x));
            }
            assert forall|x: int|
                #[trigger] old(self).held(x) || x == ptr implies self.held(x) || !zone.out(
                idx as int,
                x,
            ) by {
                assert(mid.held(x));
            }
        }
        released
    }
}

impl ThreadCacheUnit {
    /// Cuts the whole range into cells and puts them onto the list.
    pub fn spill(&mut self)
        requires
            old(self).wf(),
        ensures
            final(self).wf(),
            final(self).bump_count == 0,
            forall|x: int| #[trigger] final(self).held(x) <==> old(self).held(x),
    {
        while self.bump_count > 0
            invariant
                self.wf(),
                forall|x: int| old(self).held(x) <==> #[trigger] self.held(x),
            decreases self.bump_count,
        {
            let ghost before = *self;
            let cell: usize = self.bump_ptr;
            proof {
                assert forall|x: int|
                    is_cell(
                        before.bump_ptr as int,
                        before.bump_unit as int,
                        before.bump_count as int,
                        x,
                    ) <==> (x == before.bump_ptr || is_cell(
                        before.bump_ptr + before.bump_unit,
                        before.bump_unit as int,
                        before.bump_count - 1,
                        x,
                    )) by {
                    lemma_cell_step(
                        before.bump_ptr as int,
                        before.bump_unit as int,
                        before.bump_count as int,
                        x,
                    );
                }
                assert(before.bump_count * before.bump_unit == (before.bump_count - 1)
                    * before.bump_unit + before.bump_unit) by (nonlinear_arith);
                assert(before.in_bump(cell as int));
                assert(!before.list.cells@.contains(cell));
            }
            self.bump_count -= 1;
            if self.bump_count > 0 {
                self.bump_ptr += self.bump_unit;
            }
            self.list.push_unchecked(cell);
            proof {
                let s0 = before.list.cells@;
                let s1 = self.list.cells@;
                assert(s1[s0.len() as int] == cell);
                crate::freelist::lemma_push_contains(s0, cell, cell);
                assert forall|j: int| 0 <= j < s1.len() implies !self.in_bump(
                    #[trigger] s1[j] as int,
                ) by {
                    if j < s0.len() {
                        assert(!before.in_bump(s0[j] as int));
                    } else if self.bump_count > 0 {
                        lemma_cell_not_self(
                            cell as int,
                            before.bump_unit as int,
                            self.bump_count as int,
                        );
                    }
                }
                assert forall|x: int| old(self).held(x) <==> #[trigger] self.held(x) by {
                    assert(old(self).held(x) <==> before.held(x));
                    if 0 <= x <= usize::MAX {
                        crate::freelist::lemma_push_contains(s0, cell, x as usize);
                    }
                }
            }
        }
    }

    /// Gives every cell of the cache back to the central layer and
    /// leaves the cache empty. Returns the ranges that the backend gave
    /// back to the system.
    pub fn clean_up(&mut self, idx: usize, zone: &mut ZoneAllocator) -> (released: Vec<(usize, usize)>)
        requires
            old(self).wf(),
            old(zone).wf(),
            old(self).backed_by(old(zone), idx as int),
            1 <= idx < TOTAL_SIZE_CLASS,
        ensures
            final(self).wf(),
            final(zone).wf(),
            forall|x: int| !final(self).held(x),
            final(self).list.cells@.len() == 0,
            final(self).bump_ptr == 0,
            final(self).bump_count == 0,
            final(self).bump_unit == 0,
            forall|x: int|
                #[trigger] final(zone).out(idx as int, x) <==> (old(zone).out(idx as int, x) && !old(self).held(x)),
            forall|c: int, x: int|
                c != idx ==> (#[trigger] final(zone).out(c, x) <==> old(zone).out(c, x)),
            forall|q: int|
                #[trigger] final(zone).rd_tree.tag(q) > 0 ==> final(zone).rd_tree.tag(q) == old(zone).rd_tree.tag(q),
            only_class_changed(&old(zone).rd_tree, &final(zone).rd_tree, idx as int),
            gave_back(old(zone).backend.managed@, final(zone).backend.managed@, released@),
    {
        proof {
            lemma_gave_nothing(zone.backend.managed@);
        }
        self.spill();
        let ghost mid = *self;
        let mut cells: Vec<usize> = Vec::new();
        std::mem::swap(&mut cells, &mut self.list.cells);
        self.bump_ptr = 0;
        self.bump_unit = 0;
        proof {
            assert(cells@ == mid.list.cells@);
            assert forall|k: int| 0 <= k < cells.len() implies zone.out(
                idx as int,
                #[trigger] cells[k] as int,
            ) by {
                assert(cells@.contains(cells[k]));
                assert(mid.held(cells[k] as int));
                assert(old(self).held(cells[k] as int));
            }
        }
        let released = if cells.len() > 0 {
            zone.deallocate_batch_to_slab(idx, &cells)
        } else {
            Vec::new()
        };
        proof {
            assert forall|x: int|
                #[trigger] zone.out(idx as int, x) <==> (old(zone).out(idx as int, x) && !old(self).held(x)) by {
                assert(mid.held(x) <==> old(self).held(x));
                if old(self).held(x) {
                    assert(cells@.contains(x as usize));
                }
                if 0 <= x <= usize::MAX && cells@.contains(x as usize) {
                    assert(mid.held(x));
                }
            }
        }
        released
    }
}

/// The bits of an address above the 48 that the page index reads.
pub fn get_upper_bits(ptr: usize) -> (bits: usize)
    ensures
        bits == ptr as int / 0x1_0000_0000_0000,
{
    ((ptr as u64) / 0x1_0000_0000_0000u64) as usize
}

/// Whether an address has a bit above the 48 that the page index reads.
pub fn has_upper_bits(ptr: usize) -> (b: bool)
    ensures
        b == (ptr >= 0x1_0000_0000_0000),
{
    get_upper_bits(ptr) > 0
}

/// The address that stands for every allocation of no byte. It is kept as
/// a 64-bit number: a machine whose addresses are shorter has no such
/// address, and serves no request of no byte.
pub const ZST_ADDRESS: u64 = 0x1000_0000_0000;

/// What a request of no byte gets: `ZST_ADDRESS` on a machine that has
/// the address, else the error `EOOB`.
pub open spec fn zst_result() -> Result<usize, AllocError> {
    if ZST_ADDRESS <= usize::MAX {
        Ok(ZST_ADDRESS as usize)
    } else {
        Err(AllocError::EOOB)
    }
}

/// The address that stands for every allocation of no byte, if the
/// machine has it.
pub fn zst_address() -> (r: Result<usize, AllocError>)
    ensures
        r == zst_result(),
{
    if ZST_ADDRESS <= usize::MAX as u64 {
        Ok(ZST_ADDRESS as usize)
    } else {
        Err(AllocError::EOOB)
    }
}

/// The cache of one thread: one unit for each size class.
pub struct ThreadCache {
    pub list: Vec<ThreadCacheUnit>,
}

impl ThreadCache {
    /// Every unit is well-formed.
    pub open spec fn wf(&self) -> bool {
        &&& self.list.len() == TOTAL_SIZE_CLASS
        &&& forall|c: int| 0 <= c < TOTAL_SIZE_CLASS ==> (#[trigger] self.list[c]).wf()
    }

    /// Whether the cache holds the cell at `x` for class `c`.
    pub open spec fn held(&self, c: int, x: int) -> bool {
        1 <= c < self.list.len() && self.list[c].held(x)
    }

    /// Every cell that the cache holds is a cell of its class that the
    /// central layer has handed out.
    pub open spec fn backed_by(&self, zone: &ZoneAllocator) -> bool {
        forall|c: int, x: int| #[trigger] self.held(c, x) ==> zone.out(c, x)
    }

    /// Whether the cell at `x` of class `c` is with a user: the central
    /// layer has handed it out and the cache does not hold it.
    pub open spec fn live(&self, zone: &ZoneAllocator, c: int, x: int) -> bool {
        zone.out(c, x) && !self.held(c, x)
    }

    /// A cache that holds no cell.
    pub fn new() -> (cache: Self)
        ensures
            cache.wf(),
            forall|c: int, x: int| !cache.held(c, x),
    {
        let mut list: Vec<ThreadCacheUnit> = Vec::new();
        let mut c: usize = 0;
        while c < TOTAL_SIZE_CLASS
            invariant
                c <= TOTAL_SIZE_CLASS,
                list.len() == c,
                forall|k: int| 0 <= k < c ==> (#[trigger] list[k]).wf(),
                forall|k: int, x: int| 0 <= k < c ==> !(#[trigger] list[k].held(x)),
            decreases TOTAL_SIZE_CLASS - c,
        {
            list.push(ThreadCacheUnit::new());
            c += 1;
        }
        ThreadCache { list }
    }

    /// Does nothing: a new cache needs no further set-up.
    pub fn init(&mut self)
        ensures
            *final(self) == *old(self),
    {
    }

    /// Does nothing: no free is delayed.
    pub fn handle_delay_case(&mut self, ptr: usize, size: usize)
        ensures
            *final(self) == *old(self),
    {
    }

    /// Gives every cell of every class back to the central layer, as a
    /// thread does when it ends. Returns the ranges that the backend gave
    /// back to the system.
    pub fn cleanup_cache_unchecked(&mut self, zone: &mut ZoneAllocator) -> (released: Vec<
        (usize, usize),
    >)
        requires
            old(self).wf(),
            old(zone).wf(),
            old(self).backed_by(old(zone)),
        ensures
            final(self).wf(),
            final(zone).wf(),
            forall|c: int, x: int| !final(self).held(c, x),
            forall|c: int, x: int|
                #[trigger] final(zone).out(c, x) <==> old(self).live(old(zone), c, x),
            forall|q: int|
                #[trigger] final(zone).rd_tree.tag(q) > 0 ==> final(zone).rd_tree.tag(q) == old(zone).rd_tree.tag(q),
            forall|q: int|
                old(zone).rd_tree.tag(q) > 0 && old(zone).rd_tree.tag(q) % 64 == 0
                    ==> #[trigger] final(zone).rd_tree.tag(q) == old(zone).rd_tree.tag(q),
            gave_back(old(zone).backend.managed@, final(zone).backend.managed@, released@),
    {
        let mut released: Vec<(usize, usize)> = Vec::new();
        let mut idx: usize = 1;
        proof {
            lemma_gave_nothing(zone.backend.managed@);
        }
        while idx < TOTAL_SIZE_CLASS
            invariant
                gave_back(old(zone).backend.managed@, zone.backend.managed@, released@),
                1 <= idx <= TOTAL_SIZE_CLASS,
                self.wf(),
                zone.wf(),
                old(self).backed_by(old(zone)),
                forall|c: int, x: int| 1 <= c < idx ==> !#[trigger] self.held(c, x),
                forall|c: int, x: int|
                    idx <= c < TOTAL_SIZE_CLASS ==> (#[trigger] self.held(c, x) <==> old(self).held(
                        c,
                        x,
                    )),
                forall|c: int, x: int|
                    1 <= c < idx ==> (#[trigger] zone.out(c, x) <==> old(self).live(old(zone), c, x)),
                forall|c: int, x: int|
                    !(1 <= c < idx) ==> (#[trigger] zone.out(c, x) <==> old(zone).out(c, x)),
                forall|q: int|
                    #[trigger] zone.rd_tree.tag(q) > 0 ==> zone.rd_tree.tag(q) == old(zone).rd_tree.tag(q),
                forall|q: int|
                    old(zone).rd_tree.tag(q) > 0 && old(zone).rd_tree.tag(q) % 64 == 0
                        ==> #[trigger] zone.rd_tree.tag(q) == old(zone).rd_tree.tag(q),
            decreases TOTAL_SIZE_CLASS - idx,
        {
            let ghost cache0 = *self;
            let ghost zone0 = *zone;
            proof {
                assert(self.list[idx as int].wf());
                assert forall|x: int| #[trigger] self.list[idx as int].held(x) implies zone.out(
                    idx as int,
                    x,
                ) by {
                    assert(self.held(idx as int, x));
                    assert(old(self).held(idx as int, x));
                    assert(old(zone).out(idx as int, x));
                }
            }
            let ghost sofar = released@;
            let mut gone = self.list[idx].clean_up(idx, zone);
            proof {
                lemma_gave_more(
                    old(zone).backend.managed@,
                    zone0.backend.managed@,
                    zone.backend.managed@,
                    sofar,
                    gone@,
                );
            }
            released.append(&mut gone);
            proof {
                assert forall|c: int| 0 <= c < TOTAL_SIZE_CLASS implies (#[trigger] self.list[c]).wf() by {
                    if c != idx {
                        assert(self.list[c] == cache0.list[c]);
                        assert(cache0.list[c].wf());
                    }
                }
                assert forall|c: int, x: int| 1 <= c < idx + 1 implies !#[trigger] self.held(c, x) by {
                    if c != idx {
                        assert(self.list[c] == cache0.list[c]);
                        assert(!cache0.held(c, x));
                    }
                }
                assert forall|c: int, x: int|
                    idx + 1 <= c < TOTAL_SIZE_CLASS implies (#[trigger] self.held(c, x) <==> old(self).held(c, x)) by {
                    assert(self.list[c] == cache0.list[c]);
                    assert(cache0.held(c, x) <==> old(self).held(c, x));
                }
                assert forall|c: int, x: int| 1 <= c < idx + 1 implies (#[trigger] zone.out(c, x)
                    <==> old(self).live(old(zone), c, x)) by {
                    if c == idx {
                        assert(zone0.out(c, x) <==> old(zone).out(c, x));
                        assert(cache0.held(c, x) <==> old(self).held(c, x));
                    } else {
                        assert(zone0.out(c, x) <==> old(self).live(old(zone), c, x));
                    }
                }
                assert forall|c: int, x: int| !(1 <= c < idx + 1) implies (#[trigger] zone.out(c, x)
                    <==> old(zone).out(c, x)) by {
                    assert(zone0.out(c, x) <==> old(zone).out(c, x));
                }
                assert forall|q: int|
                    old(zone).rd_tree.tag(q) > 0 && old(zone).rd_tree.tag(q) % 64
                        == 0 implies #[trigger] zone.rd_tree.tag(q) == old(zone).rd_tree.tag(q) by {
                    assert(zone0.rd_tree.tag(q) == old(zone).rd_tree.tag(q));
                }
            }
            idx += 1;
        }
        proof {
            assert forall|c: int, x: int| #[trigger] zone.out(c, x) <==> old(self).live(
                old(zone),
                c,
                x,
            ) by {
                if !(1 <= c < TOTAL_SIZE_CLASS) {
                    assert(!old(zone).out(c, x));
                }
            }
        }
        released
    }
}

/// The pages of the free run that the `n` pages at `ptr` make with the
/// free runs that touch them.
pub open spec fn merged_pages(zone: &ZoneAllocator, ptr: int, n: int) -> int {
    n + crate::freelist::run_before(&zone.rd_tree, page_of(ptr)) + crate::freelist::run_after(
        &zone.rd_tree,
        page_of(ptr) + n,
    )
}

/// The base of the free run that the `n` pages at `ptr` make with the
/// free runs that touch them.
pub open spec fn merged_base(zone: &ZoneAllocator, ptr: int, n: int) -> usize {
    (ptr - crate::freelist::run_before(&zone.rd_tree, page_of(ptr)) * PG_SIZE) as usize
}

/// What leaves the backend for the system when the `n` pages at `ptr`
/// come back: the run that they make with the free runs that touch them,
/// if it is longer than the lists hold.
pub open spec fn zone_released(zone: &ZoneAllocator, ptr: int, n: int) -> Option<(usize, usize)> {
    if merged_pages(zone, ptr, n) > crate::size_class::BACKEND_MAX_PAGE {
        Some((merged_base(zone, ptr, n), (merged_pages(zone, ptr, n) * PG_SIZE) as usize))
    } else {
        None
    }
}

/// The tags of large allocations are the same in `before` and `after`.
pub open spec fn same_large_tags(before: &ZoneAllocator, after: &ZoneAllocator) -> bool {
    &&& forall|q: int|
        before.rd_tree.tag(q) > 0 && before.rd_tree.tag(q) % 64 == 0 ==> #[trigger] after.rd_tree.tag(
            q,
        ) == before.rd_tree.tag(q)
    &&& forall|q: int|
        #[trigger] after.rd_tree.tag(q) > 0 && after.rd_tree.tag(q) % 64 == 0
            ==> after.rd_tree.tag(q) == before.rd_tree.tag(q)
}

impl ThreadCache {
    /// Only the unit of class `idx` differs from `before`.
    pub open spec fn same_but(&self, before: &ThreadCache, idx: int) -> bool {
        &&& self.list.len() == before.list.len()
        &&& forall|c: int|
            0 <= c < self.list.len() && c != idx ==> #[trigger] self.list[c] == before.list[c]
    }

    /// What the hand-out of the cell `a` of class `c` to a user brings
    /// about: the cell was not with a user and now is, no other cell has
    /// come to or left a user, and no large allocation has changed.
    pub open spec fn granted_cell(
        &self,
        zone: &ZoneAllocator,
        before: &ThreadCache,
        zone0: &ZoneAllocator,
        c: int,
        a: int,
    ) -> bool {
        &&& self.live(zone, c, a)
        &&& !before.live(zone0, c, a)
        &&& forall|k: int, x: int|
            !(k == c && x == a) ==> (#[trigger] self.live(zone, k, x) <==> before.live(zone0, k, x))
        &&& same_large_tags(zone0, zone)
    }

    /// What the return of the cell `a` of class `c` by a user brings
    /// about: the cell is no longer with a user, no other cell has come
    /// to or left a user, and no large allocation has changed.
    pub open spec fn taken_cell(
        &self,
        zone: &ZoneAllocator,
        before: &ThreadCache,
        zone0: &ZoneAllocator,
        c: int,
        a: int,
    ) -> bool {
        &&& !self.live(zone, c, a)
        &&& forall|k: int, x: int|
            !(k == c && x == a) ==> (#[trigger] self.live(zone, k, x) <==> before.live(zone0, k, x))
        &&& same_large_tags(zone0, zone)
    }

    /// No cell has come to or left a user.
    pub open spec fn same_live(
        &self,
        zone: &ZoneAllocator,
        before: &ThreadCache,
        zone0: &ZoneAllocator,
    ) -> bool {
        forall|k: int, x: int| #[trigger] self.live(zone, k, x) <==> before.live(zone0, k, x)
    }

    /// An allocation by the unit of class `c` hands just the cell `a` to
    /// a user.
    pub proof fn lemma_granted(
        &self,
        zone: &ZoneAllocator,
        before: &ThreadCache,
        zone0: &ZoneAllocator,
        c: int,
        a: int,
    )
        requires
            1 <= c < TOTAL_SIZE_CLASS,
            before.wf(),
            before.backed_by(zone0),
            self.same_but(before, c),
            self.list[c].allocated_from(zone, &before.list[c], zone0, c, a),
        ensures
            self.granted_cell(zone, before, zone0, c, a),
            self.backed_by(zone) <== self.list[c].backed_by(zone, c),
    {
        assert forall|k: int, x: int| !(k == c && x == a) implies (#[trigger] self.live(zone, k, x)
            <==> before.live(zone0, k, x)) by {
            if k == c {
                assert(self.list[c].held(x) <==> (before.list[c].held(x) || (zone.out(c, x)
                    && !zone0.out(c, x))));
                if before.held(c, x) {
                    assert(zone0.out(c, x));
                }
            } else {
                assert(zone.out(k, x) <==> zone0.out(k, x));
                if 1 <= k < TOTAL_SIZE_CLASS {
                    assert(self.list[k] == before.list[k]);
                }
            }
        }
        if before.held(c, a) {
            assert(zone0.out(c, a));
        }
        if self.list[c].backed_by(zone, c) {
            assert forall|k: int, x: int| #[trigger] self.held(k, x) implies zone.out(k, x) by {
                if k != c {
                    assert(self.list[k] == before.list[k]);
                    assert(before.held(k, x));
                    assert(zone.out(k, x) <==> zone0.out(k, x));
                }
            }
        }
    }

    /// A return by the unit of class `c` takes just the cell `a` from a
    /// user.
    pub proof fn lemma_taken(
        &self,
        zone: &ZoneAllocator,
        before: &ThreadCache,
        zone0: &ZoneAllocator,
        c: int,
        a: int,
    )
        requires
            1 <= c < TOTAL_SIZE_CLASS,
            before.wf(),
            before.backed_by(zone0),
            before.live(zone0, c, a),
            self.same_but(before, c),
            self.list[c].returned_to(zone, &before.list[c], zone0, c, a),
            self.list[c].held(a) || !zone.out(c, a),
        ensures
            self.taken_cell(zone, before, zone0, c, a),
            self.backed_by(zone) <== self.list[c].backed_by(zone, c),
    {
        assert forall|k: int, x: int| !(k == c && x == a) implies (#[trigger] self.live(zone, k, x)
            <==> before.live(zone0, k, x)) by {
            if k == c {
                if self.list[c].held(x) {
                    assert(before.list[c].held(x) || x == a);
                }
                if zone.out(c, x) {
                    assert(zone0.out(c, x));
                }
                if zone0.out(c, x) && !zone.out(c, x) {
                    assert(before.list[c].held(x) || x == a);
                }
                if before.list[c].held(x) {
                    assert(self.list[c].held(x) || !zone.out(c, x));
                }
            } else {
                assert(zone.out(k, x) <==> zone0.out(k, x));
                if 1 <= k < TOTAL_SIZE_CLASS {
                    assert(self.list[k] == before.list[k]);
                }
            }
        }
        if self.list[c].backed_by(zone, c) {
            assert forall|k: int, x: int| #[trigger] self.held(k, x) implies zone.out(k, x) by {
                if k != c {
                    assert(self.list[k] == before.list[k]);
                    assert(before.held(k, x));
                    assert(zone.out(k, x) <==> zone0.out(k, x));
                }
            }
        }
    }
}

impl ThreadCache {
    /// Hands out `size` bytes at an address that is a multiple of
    /// `align`.
    ///
    /// Fails with `ELAYOUT` unless `align` divides the page size. A
    /// request of no byte gets `ZST_ADDRESS`, where the machine has it. A request that a size class
    /// serves gets a cell of its class: from the cache, or else from a
    /// batch of the central layer. A larger request gets pages of its
    /// own from the backend. A failure changes nothing.
    pub fn allocate(&mut self, size: usize, align: usize, zone: &mut ZoneAllocator) -> (r: Result<
        usize,
        AllocError,
    >)
        requires
            old(self).wf(),
            old(zone).wf(),
            old(self).backed_by(old(zone)),
        ensures
            final(self).wf(),
            final(zone).wf(),
            final(self).backed_by(final(zone)),
            (align == 0 || PG_SIZE % align != 0) ==> r == Err::<usize, AllocError>(
                AllocError::ELAYOUT,
            ),
            r is Err ==> final(self).same_live(final(zone), old(self), old(zone)) && forall|q: int|
                #[trigger] final(zone).rd_tree.tag(q) == old(zone).rd_tree.tag(q),
            r matches Ok(a) ==> a % align == 0,
            align > 0 && PG_SIZE % align == 0 && size == 0 ==> r == zst_result() && *final(self)
                == *old(self) && *final(zone) == *old(zone),
            align > 0 && PG_SIZE % align == 0 && 0 < size <= MAX_SIZE ==> {
                let c = class_index(size as int);
                &&& r is Ok <==> old(self).list[c].has_aligned(align as int) || old(zone).slabs[c].can_batch(align, &old(zone).backend)
                &&& r is Err ==> r == Err::<usize, AllocError>(AllocError::ENOMEM)
                &&& r matches Ok(a) ==> final(self).granted_cell(
                    final(zone),
                    old(self),
                    old(zone),
                    c,
                    a as int,
                ) && (old(self).list[c].has_aligned(align as int) ==> *final(zone) == *old(zone))
                    && (top_aligned(old(self).list[c].list.cells@, align as int) >= 0 ==> a == old(self).list[c].list.cells@[top_aligned(old(self).list[c].list.cells@, align as int)])
                    && (top_aligned(old(self).list[c].list.cells@, align as int) >= 0
                    ==> final(self).list[c].popped(&old(self).list[c], align as int))
            },
            align > 0 && PG_SIZE % align == 0 && size > MAX_SIZE ==> {
                let n = pages_for(size as int);
                &&& r is Ok <==> size <= usize::MAX - PG_SIZE && old(zone).backend.can_serve(n)
                &&& r is Err ==> r == Err::<usize, AllocError>(
                    if size > usize::MAX - PG_SIZE {
                        AllocError::ESIZE
                    } else {
                        AllocError::ENOMEM
                    },
                )
                &&& r matches Ok(a) ==> {
                    &&& final(zone).large_block(a as int, n)
                    &&& forall|q: int|
                        in_run(a as int, n, q) ==> #[trigger] old(zone).rd_tree.tag(q) <= 0
                    &&& forall|q: int|
                        old(zone).rd_tree.tag(q) > 0 ==> #[trigger] final(zone).rd_tree.tag(q)
                            == old(zone).rd_tree.tag(q)
                    &&& forall|q: int|
                        !in_run(a as int, n, q) && #[trigger] final(zone).rd_tree.tag(q) > 0
                            && final(zone).rd_tree.tag(q) % 64 == 0 ==> final(zone).rd_tree.tag(q)
                            == old(zone).rd_tree.tag(q)
                    &&& final(self).same_live(final(zone), old(self), old(zone))
                    &&& forall|p: int|
                        #[trigger] final(zone).backend.allocated(p) <==> (old(zone).backend.allocated(p)
                            || in_run(a as int, n, p))
                    &&& forall|p: int| in_run(a as int, n, p) ==> !old(zone).backend.allocated(p)
                }
            },
            size > MAX_SIZE ==> *final(self) == *old(self) && final(zone).slabs == old(zone).slabs,
    {
        if align == 0 || PG_SIZE % align != 0 {
            return Err(AllocError::ELAYOUT);
        }
        let cls = get_size_class(size);
        match cls {
            SizeClass::Base(idx) => {
                if idx == 0 {
                    proof {
                        lemma_class_exists(size as int);
                        lemma_divides(ZST_ADDRESS as int, PG_SIZE as int, align as int);
                    }
                    return zst_address();
                }
                proof {
                    lemma_class_exists(size as int);
                    crate::size_class::tc_size_class::lemma_class_unique(
                        size as int,
                        idx as int,
                        class_index(size as int),
                    );
                    assert(self.list[idx as int].wf());
                    assert forall|x: int| #[trigger] self.list[idx as int].held(x) implies zone.out(
                        idx as int,
                        x,
                    ) by {
                        assert(self.held(idx as int, x));
                    }
                }
                let r = self.list[idx].allocate(idx, align, zone);
                proof {
                    assert forall|c: int| 0 <= c < TOTAL_SIZE_CLASS implies (#[trigger] self.list[c]).wf() by {
                        if c != idx {
                            assert(self.list[c] == old(self).list[c]);
                        }
                    }
                    if r is Ok {
                        self.lemma_granted(zone, old(self), old(zone), idx as int, r->Ok_0 as int);
                    } else {
                        assert forall|k: int, x: int| #[trigger] self.held(k, x) <==> old(self).held(
                            k,
                            x,
                        ) by {
                            if 1 <= k < TOTAL_SIZE_CLASS && k != idx {
                                assert(self.list[k] == old(self).list[k]);
                            }
                        }
                        assert forall|k: int, x: int| #[trigger] self.held(k, x) implies zone.out(
                            k,
                            x,
                        ) by {
                            assert(old(self).held(k, x));
                            assert(old(zone).out(k, x));
                        }
                    }
                }
                r
            },
            SizeClass::Large(_) => {
                let r = zone.allocate_large(size);
                proof {
                    assert forall|k: int, x: int| #[trigger] self.held(k, x) implies zone.out(k, x) by {
                        assert(old(zone).out(k, x));
                    }
                    if r is Ok {
                        let a = r->Ok_0;
                        lemma_divides(a as int, PG_SIZE as int, align as int);
                        let n = pages_for(size as int);
                        assert forall|q: int|
                            !in_run(a as int, n, q) && #[trigger] zone.rd_tree.tag(q) > 0
                                && zone.rd_tree.tag(q) % 64 == 0 implies zone.rd_tree.tag(q) == old(zone).rd_tree.tag(q) by {
                            if zone.rd_tree.tag(q) != old(zone).rd_tree.tag(q) {
                                assert(old(zone).rd_tree.tag(q) <= 0);
                            }
                        }
                    }
                }
                r
            },
        }
    }
}

impl ThreadCache {
    /// Whether a block of `size` bytes at `ptr` is with a user: the
    /// address of blocks of no byte; a cell of the class of `size` that
    /// the central layer has handed out and the cache does not hold; or a
    /// large allocation of just the pages that hold `size` bytes.
    pub open spec fn outstanding(&self, zone: &ZoneAllocator, ptr: int, size: int) -> bool {
        if size == 0 {
            ptr == ZST_ADDRESS
        } else if size <= MAX_SIZE {
            self.live(zone, class_index(size), ptr)
        } else {
            size <= usize::MAX - PG_SIZE && zone.large_block(ptr, pages_for(size))
        }
    }

    /// Takes back the block of `size` bytes at `ptr`, which is with a
    /// user.
    ///
    /// A block of no byte needs nothing. A cell goes onto the list of
    /// its class in the cache, which may then return its older half to
    /// the central layer. A large block goes back to the backend, once
    /// the page index has forgotten its pages. Returns the ranges that
    /// the backend gave back to the system.
    pub fn deallocate(&mut self, ptr: usize, size: usize, zone: &mut ZoneAllocator) -> (released: Vec<
        (usize, usize),
    >)
        requires
            old(self).wf(),
            old(zone).wf(),
            old(self).backed_by(old(zone)),
            old(self).outstanding(old(zone), ptr as int, size as int),
        ensures
            final(self).wf(),
            final(zone).wf(),
            final(self).backed_by(final(zone)),
            size == 0 ==> *final(self) == *old(self) && *final(zone) == *old(zone),
            0 < size <= MAX_SIZE ==> final(self).taken_cell(
                final(zone),
                old(self),
                old(zone),
                class_index(size as int),
                ptr as int,
            ) && (old(self).list[class_index(size as int)].list.cells@.len() < SOFT_CAP_BYTES
                / crate::size_class::tc_size_class::class_size(class_index(size as int)) as usize
                ==> *final(zone) == *old(zone) && released@.len() == 0 && final(self).list[class_index(size as int)].list.cells@ == old(self).list[class_index(size as int)].list.cells@.push(ptr)),
            size > MAX_SIZE ==> {
                let n = pages_for(size as int);
                &&& final(self).same_live(final(zone), old(self), old(zone))
                &&& forall|q: int| in_run(ptr as int, n, q) ==> #[trigger] final(zone).rd_tree.tag(q) <= 0
                &&& forall|q: int|
                    #[trigger] final(zone).rd_tree.tag(q) > 0 ==> final(zone).rd_tree.tag(q) == old(zone).rd_tree.tag(q)
                &&& forall|q: int|
                    !in_run(ptr as int, n, q) && old(zone).rd_tree.tag(q) > 0 ==> #[trigger] final(zone).rd_tree.tag(q) == old(zone).rd_tree.tag(q)
                &&& *final(self) == *old(self)
                &&& final(zone).slabs == old(zone).slabs
                &&& final(zone).backend.bump == old(zone).backend.bump
                &&& forall|p: int|
                    #[trigger] final(zone).backend.allocated(p) <==> (old(zone).backend.allocated(p)
                        && !in_run(ptr as int, n, p))
                &&& released@ == some_range(zone_released(old(zone), ptr as int, n))
                &&& released@.len() == 0 ==> final(zone).backend.has_run(
                    merged_base(old(zone), ptr as int, n),
                    merged_pages(old(zone), ptr as int, n),
                ) && final(zone).backend.lists[merged_pages(old(zone), ptr as int, n) - 1]@.last()
                    == merged_base(old(zone), ptr as int, n)
            },
            gave_back(old(zone).backend.managed@, final(zone).backend.managed@, released@),
    {
        let cls = get_size_class(size);
        proof {
            lemma_gave_nothing(zone.backend.managed@);
        }
        match cls {
            SizeClass::Base(idx) => {
                if idx == 0 {
                    proof {
                        lemma_class_exists(size as int);
                    }
                    return Vec::new();
                }
                proof {
                    lemma_class_exists(size as int);
                    crate::size_class::tc_size_class::lemma_class_unique(
                        size as int,
                        idx as int,
                        class_index(size as int),
                    );
                    crate::size_class::tc_size_class::lemma_class_run_bounds(idx as int);
                    assert(self.list[idx as int].wf());
                    assert forall|x: int| #[trigger] self.list[idx as int].held(x) implies zone.out(
                        idx as int,
                        x,
                    ) by {
                        assert(self.held(idx as int, x));
                    }
                    assert(!self.held(idx as int, ptr as int));
                }
                let released = self.list[idx].deallocate(
                    idx,
                    ptr,
                    get_rounded_size_by_idx(idx),
                    zone,
                );
                proof {
                    assert forall|c: int| 0 <= c < TOTAL_SIZE_CLASS implies (#[trigger] self.list[c]).wf() by {
                        if c != idx {
                            assert(self.list[c] == old(self).list[c]);
                        }
                    }
                    self.lemma_taken(zone, old(self), old(zone), idx as int, ptr as int);
                }
                released
            },
            SizeClass::Large(_) => {
                let released = zone.deallocate_large(ptr, size);
                proof {
                    assert forall|k: int, x: int| #[trigger] self.held(k, x) implies zone.out(k, x) by {
                        assert(old(zone).out(k, x));
                    }
                }
                match released {
                    Some(range) => {
                        let mut v: Vec<(usize, usize)> = Vec::new();
                        v.push(range);
                        proof {
                            assert(v@ =~= some_range(released));
                        }
                        v
                    },
                    None => {
                        let v: Vec<(usize, usize)> = Vec::new();
                        proof {
                            assert(v@ =~= some_range(released));
                        }
                        v
                    },
                }
            },
        }
    }

    /// Tells whether the cache holds the cell at `x` for class `c`.
    pub fn is_held(&self, c: usize, x: usize) -> (b: bool)
        requires
            self.wf(),
        ensures
            b == self.held(c as int, x as int),
    {
        if c < 1 || c >= self.list.len() {
            return false;
        }
        self.list[c].is_held(x)
    }

    /// Tells whether a block of `size` bytes at `ptr` is with a user.
    pub fn is_outstanding(&self, zone: &ZoneAllocator, ptr: usize, size: usize) -> (b: bool)
        requires
            self.wf(),
            zone.wf(),
        ensures
            b == self.outstanding(zone, ptr as int, size as int),
    {
        match get_size_class(size) {
            SizeClass::Base(idx) => {
                proof {
                    lemma_class_exists(size as int);
                    crate::size_class::tc_size_class::lemma_class_unique(
                        size as int,
                        idx as int,
                        class_index(size as int),
                    );
                }
                if idx == 0 {
                    ptr as u64 == ZST_ADDRESS
                } else {
                    zone.is_out(idx, ptr) && !self.is_held(idx, ptr)
                }
            },
            SizeClass::Large(_) => {
                if size > usize::MAX - PG_SIZE {
                    return false;
                }
                zone.is_large_block(ptr, (size + PG_SIZE - 1) / PG_SIZE)
            },
        }
    }
}

impl ThreadCacheUnit {
    /// Tells whether the cache holds the cell at `x`.
    pub fn is_held(&self, x: usize) -> (b: bool)
        requires
            self.wf(),
        ensures
            b == self.held(x as int),
    {
        if self.list.contains(x) {
            return true;
        }
        if self.bump_count == 0 || x < self.bump_ptr {
            return false;
        }
        let off: usize = x - self.bump_ptr;
        off % self.bump_unit == 0 && off / self.bump_unit < self.bump_count
    }
}

} // verus!
