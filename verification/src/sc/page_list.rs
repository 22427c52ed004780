use crate::page::efficient_page::{ObjectPage, PageKind};
use vstd::prelude::*;

verus! {

/// One ring of page records: the records of one kind, linked through
/// their `prev` and `next` fields.
///
/// `start` is the index of the first record plus 1, or 0 for an empty
/// ring. `order` lists the records from the first to the last.
pub struct PageList {
    pub start: usize,
    pub order: Ghost<Seq<int>>,
}

/// The record after position `i` of a ring.
pub open spec fn ring_next(order: Seq<int>, i: int) -> int {
    if i + 1 < order.len() {
        order[i + 1]
    } else {
        order[0]
    }
}

/// The record before position `i` of a ring.
pub open spec fn ring_prev(order: Seq<int>, i: int) -> int {
    if i > 0 {
        order[i - 1]
    } else {
        order[order.len() - 1]
    }
}

/// The kind of record `id`.
pub open spec fn kind_at(pages: Seq<ObjectPage>, id: int) -> PageKind {
    pages[id].kind
}

/// Two records hold the same run, counter and free cells.
pub open spec fn same_body(p: ObjectPage, q: ObjectPage) -> bool {
    p.counter == q.counter && p.data == q.data && p.free == q.free
}

/// What a change of one ring leaves of the table of records: no record
/// changes its run, counter or free cells; only record `idx` changes its
/// kind, to `now`; and a record that is neither `idx` nor of kind `kind`
/// keeps its links.
pub open spec fn relinked(
    before: Seq<ObjectPage>,
    after: Seq<ObjectPage>,
    kind: PageKind,
    idx: int,
    now: PageKind,
) -> bool {
    &&& after.len() == before.len()
    &&& forall|id: int|
        0 <= id < before.len() ==> same_body(#[trigger] after[id], before[id]) && (id != idx
            ==> after[id].kind == before[id].kind) && (id != idx && before[id].kind != kind
            ==> after[id].prev == before[id].prev && after[id].next == before[id].next)
    &&& after[idx].kind == now
}

impl PageList {
    /// An empty ring.
    pub fn new() -> (list: Self)
        ensures
            list.start == 0,
            list.order@ == Seq::<int>::empty(),
    {
        PageList { start: 0, order: Ghost(Seq::empty()) }
    }

    /// The ring is made of just the records of kind `kind`, each once, and
    /// their links lead from each to the next and back.
    pub open spec fn wf(&self, pages: Seq<ObjectPage>, kind: PageKind) -> bool {
        let order = self.order@;
        &&& order.no_duplicates()
        &&& forall|i: int|
            0 <= i < order.len() ==> 0 <= #[trigger] order[i] < pages.len() && pages[order[i]].kind
                == kind
        &&& forall|id: int|
            0 <= id < pages.len() && #[trigger] kind_at(pages, id) == kind ==> order.contains(id)
        &&& (order.len() == 0 <==> self.start == 0)
        &&& self.start != 0 ==> self.start - 1 == order[0]
        &&& forall|i: int|
            0 <= i < order.len() ==> pages[order[i]].next == #[trigger] ring_next(order, i) + 1
        &&& forall|i: int|
            0 <= i < order.len() ==> pages[order[i]].prev == #[trigger] ring_prev(order, i) + 1
    }

    /// A ring stays well-formed when the records of its kind stay as they
    /// are and no other record takes its kind.
    pub proof fn lemma_frame(&self, before: Seq<ObjectPage>, after: Seq<ObjectPage>, kind: PageKind)
        requires
            self.wf(before, kind),
            after.len() >= before.len(),
            forall|id: int|
                0 <= id < before.len() && (before[id].kind == kind || after[id].kind == kind)
                    ==> (#[trigger] after[id]).kind == before[id].kind && after[id].prev
                    == before[id].prev && after[id].next == before[id].next,
            forall|id: int| before.len() <= id < after.len() ==> (#[trigger] after[id]).kind != kind,
        ensures
            self.wf(after, kind),
    {
        let order = self.order@;
        assert forall|id: int|
            0 <= id < after.len() && #[trigger] kind_at(after, id) == kind implies order.contains(
            id,
        ) by {
            assert(kind_at(before, id) == kind);
        }
    }

    /// Puts the detached record `idx` at the end of the ring of kind
    /// `kind`.
    pub fn insert(&mut self, pages: &mut Vec<ObjectPage>, kind: PageKind, idx: usize)
        requires
            old(self).wf(old(pages)@, kind),
            idx < old(pages).len(),
            old(pages)[idx as int].kind == PageKind::Detached,
            kind != PageKind::Detached,
            old(pages).len() < usize::MAX,
        ensures
            final(self).wf(final(pages)@, kind),
            final(self).order@ == old(self).order@.push(idx as int),
            relinked(old(pages)@, final(pages)@, kind, idx as int, kind),
    {
        let ghost order = self.order@;
        if self.start != 0 {
            let head: usize = self.start - 1;
            assert(head == order[0]);
            assert(pages[order[0]].prev == ring_prev(order, 0) + 1);
            let tail: usize = pages[head].prev - 1;
            assert(tail == order[order.len() - 1]);
            pages[idx].prev = tail + 1;
            pages[idx].next = head + 1;
            pages[idx].kind = kind;
            pages[tail].next = idx + 1;
            pages[head].prev = idx + 1;
        } else {
            pages[idx].prev = idx + 1;
            pages[idx].next = idx + 1;
            pages[idx].kind = kind;
            self.start = idx + 1;
        }
        proof {
            let norder = order.push(idx as int);
            self.order@ = norder;
            assert(!order.contains(idx as int)) by {
                if order.contains(idx as int) {
                    let i = choose|i: int| 0 <= i < order.len() && order[i] == idx;
                    assert(old(pages)[order[i]].kind == kind);
                }
            }
            assert(norder.no_duplicates()) by {
                assert forall|i: int, j: int|
                    0 <= i < norder.len() && 0 <= j < norder.len() && i != j implies norder[i]
                    != norder[j] by {
                    if i < order.len() {
                        assert(order.contains(norder[i]));
                    }
                    if j < order.len() {
                        assert(order.contains(norder[j]));
                    }
                }
            }
            assert forall|id: int|
                0 <= id < pages.len() && #[trigger] kind_at(pages@, id) == kind implies norder.contains(
                id,
            ) by {
                if id == idx {
                    assert(norder[order.len() as int] == idx);
                } else {
                    assert(kind_at(old(pages)@, id) == kind);
                    let i = choose|i: int| 0 <= i < order.len() && order[i] == id;
                    assert(norder[i] == id);
                }
            }
            assert forall|i: int| 0 <= i < norder.len() implies pages[norder[i]].next
                == #[trigger] ring_next(norder, i) + 1 by {
                if i < order.len() {
                    assert(order.contains(order[i]));
                    assert(old(pages)[order[i]].next == ring_next(order, i) + 1);
                    if i + 1 < order.len() {
                        assert(order[i] != order[order.len() - 1]);
                    }
                    if i > 0 {
                        assert(order[i] != order[0]);
                    }
                }
            }
            assert forall|i: int| 0 <= i < norder.len() implies pages[norder[i]].prev
                == #[trigger] ring_prev(norder, i) + 1 by {
                if i < order.len() {
                    assert(order.contains(order[i]));
                    assert(old(pages)[order[i]].prev == ring_prev(order, i) + 1);
                    if i + 1 < order.len() {
                        assert(order[i] != order[order.len() - 1]);
                    }
                    if i > 0 {
                        assert(order[i] != order[0]);
                    }
                }
            }
        }
    }

    /// What `remove` does to the links: the neighbours of position `j`
    /// are linked to each other, and every other link stays.
    pub open spec fn unlinked(
        before: Seq<ObjectPage>,
        after: Seq<ObjectPage>,
        order: Seq<int>,
        j: int,
    ) -> bool {
        let idx = order[j];
        let next = ring_next(order, j);
        let prev = ring_prev(order, j);
        &&& after.len() == before.len()
        &&& forall|id: int|
            0 <= id < before.len() ==> (#[trigger] after[id]).next == if id == prev && order.len()
                > 1 {
                next + 1
            } else {
                before[id].next as int
            }
        &&& forall|id: int|
            0 <= id < before.len() ==> (#[trigger] after[id]).prev == if id == next && order.len()
                > 1 {
                prev + 1
            } else {
                before[id].prev as int
            }
        &&& forall|id: int|
            0 <= id < before.len() ==> (#[trigger] after[id]).kind == if id == idx {
                PageKind::Detached
            } else {
                before[id].kind
            }
    }

    /// The forward links of a ring after a record left it.
    pub proof fn lemma_unlinked_next(
        before: Seq<ObjectPage>,
        after: Seq<ObjectPage>,
        order: Seq<int>,
        j: int,
        kind: PageKind,
        i: int,
    )
        requires
            order.no_duplicates(),
            0 <= j < order.len(),
            forall|i: int| 0 <= i < order.len() ==> 0 <= #[trigger] order[i] < before.len(),
            forall|i: int|
                0 <= i < order.len() ==> before[order[i]].next == #[trigger] ring_next(order, i)
                    + 1,
            Self::unlinked(before, after, order, j),
            0 <= i < order.len() - 1,
        ensures
            after[order.remove(j)[i]].next == ring_next(order.remove(j), i) + 1,
    {
        let norder = order.remove(j);
        let i2 = if i < j { i } else { i + 1 };
        assert(norder[i] == order[i2]);
        let jp = if j > 0 { j - 1 } else { order.len() - 1 };
        let jn = if j + 1 < order.len() { j + 1 } else { 0 };
        assert(before[order[i2]].next == ring_next(order, i2) + 1);
        let t = if i + 1 < norder.len() { i + 1 } else { 0 };
        let t2 = if t < j { t } else { t + 1 };
        assert(norder[t] == order[t2]);
        if i2 == jp {
            assert(t2 == jn);
        } else {
            assert(order[i2] != order[jp]);
            let in2 = if i2 + 1 < order.len() { i2 + 1 } else { 0 };
            assert(in2 == t2);
        }
    }

    /// The backward links of a ring after a record left it.
    pub proof fn lemma_unlinked_prev(
        before: Seq<ObjectPage>,
        after: Seq<ObjectPage>,
        order: Seq<int>,
        j: int,
        kind: PageKind,
        i: int,
    )
        requires
            order.no_duplicates(),
            0 <= j < order.len(),
            forall|i: int| 0 <= i < order.len() ==> 0 <= #[trigger] order[i] < before.len(),
            forall|i: int|
                0 <= i < order.len() ==> before[order[i]].prev == #[trigger] ring_prev(order, i)
                    + 1,
            Self::unlinked(before, after, order, j),
            0 <= i < order.len() - 1,
        ensures
            after[order.remove(j)[i]].prev == ring_prev(order.remove(j), i) + 1,
    {
        let norder = order.remove(j);
        let i2 = if i < j { i } else { i + 1 };
        assert(norder[i] == order[i2]);
        let jp = if j > 0 { j - 1 } else { order.len() - 1 };
        let jn = if j + 1 < order.len() { j + 1 } else { 0 };
        assert(before[order[i2]].prev == ring_prev(order, i2) + 1);
        let t = if i > 0 { i - 1 } else { norder.len() - 1 };
        let t2 = if t < j { t } else { t + 1 };
        assert(norder[t] == order[t2]);
        if i2 == jn {
            assert(t2 == jp);
        } else {
            assert(order[i2] != order[jn]);
            let ip2 = if i2 > 0 { i2 - 1 } else { order.len() - 1 };
            assert(ip2 == t2);
        }
    }

    /// The members of a ring after a record left it.
    pub proof fn lemma_unlinked_members(
        before: Seq<ObjectPage>,
        after: Seq<ObjectPage>,
        order: Seq<int>,
        j: int,
        kind: PageKind,
    )
        requires
            kind != PageKind::Detached,
            order.no_duplicates(),
            0 <= j < order.len(),
            after.len() == before.len(),
            forall|i: int|
                0 <= i < order.len() ==> 0 <= #[trigger] order[i] < before.len()
                    && before[order[i]].kind == kind,
            forall|id: int|
                0 <= id < before.len() && #[trigger] kind_at(before, id) == kind ==> order.contains(
                    id,
                ),
            forall|id: int|
                0 <= id < before.len() ==> (#[trigger] after[id]).kind == if id == order[j] {
                    PageKind::Detached
                } else {
                    before[id].kind
                },
        ensures
            order.remove(j).no_duplicates(),
            forall|i: int|
                0 <= i < order.remove(j).len() ==> 0 <= #[trigger] order.remove(j)[i] < after.len()
                    && after[order.remove(j)[i]].kind == kind,
            forall|id: int|
                0 <= id < after.len() && #[trigger] kind_at(after, id) == kind ==> order.remove(
                    j,
                ).contains(id),
    {
        let norder = order.remove(j);
        assert forall|a: int, b: int|
            0 <= a < norder.len() && 0 <= b < norder.len() && a != b implies norder[a]
            != norder[b] by {
            let a2 = if a < j { a } else { a + 1 };
            let b2 = if b < j { b } else { b + 1 };
            assert(norder[a] == order[a2] && norder[b] == order[b2]);
        }
        assert forall|i: int| 0 <= i < norder.len() implies 0 <= #[trigger] norder[i] < after.len()
            && after[norder[i]].kind == kind by {
            let i2 = if i < j { i } else { i + 1 };
            assert(norder[i] == order[i2]);
            assert(order[i2] != order[j]);
        }
        assert forall|id: int|
            0 <= id < after.len() && #[trigger] kind_at(after, id) == kind implies norder.contains(
            id,
        ) by {
            assert(kind_at(before, id) == kind);
            let i = choose|i: int| 0 <= i < order.len() && order[i] == id;
            let i2 = if i < j { i } else { i - 1 };
            assert(norder[i2] == id);
        }
    }

    /// A ring without the record at position `j`, unlinked, is a ring.
    pub proof fn lemma_unlinked(
        &self,
        now: &PageList,
        before: Seq<ObjectPage>,
        after: Seq<ObjectPage>,
        kind: PageKind,
        j: int,
    )
        requires
            self.wf(before, kind),
            kind != PageKind::Detached,
            0 <= j < self.order@.len(),
            Self::unlinked(before, after, self.order@, j),
            now.order@ == self.order@.remove(j),
            self.order@.len() == 1 ==> now.start == 0,
            self.order@.len() > 1 ==> now.start == if j == 0 {
                self.order@[1] + 1
            } else {
                self.start as int
            },
        ensures
            now.wf(after, kind),
    {
        let order = self.order@;
        let norder = order.remove(j);
        Self::lemma_unlinked_members(before, after, order, j, kind);
        assert forall|i: int| 0 <= i < norder.len() implies after[norder[i]].next
            == #[trigger] ring_next(norder, i) + 1 by {
            Self::lemma_unlinked_next(before, after, order, j, kind, i);
        }
        assert forall|i: int| 0 <= i < norder.len() implies after[norder[i]].prev
            == #[trigger] ring_prev(norder, i) + 1 by {
            Self::lemma_unlinked_prev(before, after, order, j, kind, i);
        }
        if norder.len() > 0 {
            if j == 0 {
                assert(norder[0] == order[1]);
            } else {
                assert(norder[0] == order[0]);
            }
        }
    }

    /// Takes the record `idx` out of the ring of kind `kind` and leaves
    /// it detached.
    pub fn remove(&mut self, pages: &mut Vec<ObjectPage>, kind: PageKind, idx: usize)
        requires
            old(self).wf(old(pages)@, kind),
            idx < old(pages).len(),
            old(pages)[idx as int].kind == kind,
            kind != PageKind::Detached,
        ensures
            final(self).wf(final(pages)@, kind),
            old(self).order@.contains(idx as int),
            final(self).order@ == old(self).order@.remove(old(self).order@.index_of(idx as int)),
            relinked(old(pages)@, final(pages)@, kind, idx as int, PageKind::Detached),
    {
        let ghost order = self.order@;
        let ghost j = order.index_of(idx as int);
        let ghost jn = if j + 1 < order.len() { j + 1 } else { 0int };
        let ghost jp = if j > 0 { j - 1 } else { order.len() - 1 };
        proof {
            assert(kind_at(old(pages)@, idx as int) == kind);
            assert(order.contains(idx as int));
            assert(0 <= j < order.len() && order[j] == idx);
            assert(old(pages)[order[j]].next == ring_next(order, j) + 1);
            assert(old(pages)[order[j]].prev == ring_prev(order, j) + 1);
            assert(0 <= order[jn] < old(pages).len() && old(pages)[order[jn]].kind == kind);
            assert(0 <= order[jp] < old(pages).len() && old(pages)[order[jp]].kind == kind);
            if order.len() > 1 {
                assert(order[jn] != order[j]);
                if j != 0 {
                    assert(order[0] != order[j]);
                }
            }
        }
        let next: usize = pages[idx].next - 1;
        let prev: usize = pages[idx].prev - 1;
        unlink(pages, idx, prev, next);
        if next == idx {
            self.start = 0;
        } else if self.start == idx + 1 {
            self.start = next + 1;
        }
        proof {
            self.order@ = order.remove(j);
            old(self).lemma_unlinked(self, old(pages)@, pages@, kind, j);
        }
    }
}

/// Links the neighbours `prev` and `next` of record `idx` to each other,
/// unless `idx` is its own neighbour, and marks `idx` as detached.
pub fn unlink(pages: &mut Vec<ObjectPage>, idx: usize, prev: usize, next: usize)
    requires
        idx < old(pages).len(),
        prev < old(pages).len(),
        next < old(pages).len(),
        next < usize::MAX,
        prev < usize::MAX,
    ensures
        final(pages).len() == old(pages).len(),
        forall|id: int|
            0 <= id < old(pages).len() ==> same_body(#[trigger] final(pages)[id], old(pages)[id]),
        forall|id: int|
            0 <= id < old(pages).len() ==> (#[trigger] final(pages)[id]).next == if id == prev
                && next != idx {
                next + 1
            } else {
                old(pages)[id].next as int
            },
        forall|id: int|
            0 <= id < old(pages).len() ==> (#[trigger] final(pages)[id]).prev == if id == next
                && next != idx {
                prev + 1
            } else {
                old(pages)[id].prev as int
            },
        forall|id: int|
            0 <= id < old(pages).len() ==> (#[trigger] final(pages)[id]).kind == if id == idx {
                PageKind::Detached
            } else {
                old(pages)[id].kind
            },
{
    if next != idx {
        pages[prev].next = next + 1;
        pages[next].prev = prev + 1;
    }
    pages[idx].kind = PageKind::Detached;
}

} // verus!
