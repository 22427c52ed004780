use crate::collections::radix_tree::{RadixTree, TreeNode, TREE_PAGES};
use crate::error::AllocError;
use crate::freelist::bump::{BumpAlloc, PG_SIZE};
use crate::freelist::ranges::{gave_back, lemma_gave_nothing, lemma_gave_one, range_pages, some_range};
use crate::size_class::BACKEND_MAX_PAGE;
use vstd::prelude::*;

pub mod bump;
pub mod ranges;

verus! {

/// Upper end of the addresses that the page index covers: 2^48.
pub const ADDRESS_LIMIT: u64 = 0x1_0000_0000_0000;

/// The page that holds an address.
pub open spec fn page_of(addr: int) -> int {
    addr / (PG_SIZE as int)
}

/// The pages that hold `size` bytes.
pub open spec fn pages_for(size: int) -> int {
    (size + PG_SIZE - 1) / (PG_SIZE as int)
}

/// The tag that marks both ends of a free run of `len` pages.
pub open spec fn mark_of(len: int) -> i64 {
    (-len) as i64
}

/// Whether `p` is one of the `len` pages from the page of `base` on.
pub open spec fn in_run(base: int, len: int, p: int) -> bool {
    page_of(base) <= p < page_of(base) + len
}

/// Two runs neither overlap nor touch.
pub open spec fn apart(a1: int, l1: int, a2: int, l2: int) -> bool {
    page_of(a1) + l1 < page_of(a2) || page_of(a2) + l2 < page_of(a1)
}

/// The page-range backend: free runs of pages, kept by length, and the
/// reserve from which fresh pages are cut.
///
/// `lists[k]` holds the base addresses of the free runs of `k + 1` pages;
/// the last entry of each list is its head. `managed` is the set of pages
/// that have left the reserve and have not gone back to the system.
pub struct FreeList {
    pub lists: Vec<Vec<usize>>,
    pub bump: BumpAlloc,
    pub managed: Ghost<Set<int>>,
}

impl FreeList {
    /// Whether a free run of `len` pages starts at `base`.
    pub open spec fn has_run(&self, base: usize, len: int) -> bool {
        1 <= len <= self.lists.len() && self.lists[len - 1]@.contains(base)
    }

    /// Whether `p` lies in a free run.
    pub open spec fn free_page(&self, p: int) -> bool {
        exists|base: usize, len: int| #[trigger] self.has_run(base, len) && in_run(base as int, len, p)
    }

    /// Whether `p` is in use: it has left the reserve and lies in no free
    /// run.
    pub open spec fn allocated(&self, p: int) -> bool {
        self.managed@.contains(p) && !self.free_page(p)
    }

    /// Whether `p` lies in the reserve.
    pub open spec fn in_reserve(&self, p: int) -> bool {
        page_of(self.bump.current as int) <= p < page_of(self.bump.check_point as int)
    }

    /// What holds of one free run: it is page-aligned, lies below the
    /// address limit, its pages are managed, both of its ends carry its
    /// mark and the pages between them carry no tag.
    pub open spec fn run_ok(&self, rd: &RadixTree, base: usize, len: int) -> bool {
        &&& base as int % (PG_SIZE as int) == 0
        &&& base > 0
        &&& page_of(base as int) + len <= TREE_PAGES
        &&& forall|p: int| in_run(base as int, len, p) ==> #[trigger] self.managed@.contains(p)
        &&& rd.tag(page_of(base as int)) == mark_of(len)
        &&& rd.tag(page_of(base as int) + len - 1) == mark_of(len)
        &&& forall|p: int|
            page_of(base as int) < p < page_of(base as int) + len - 1 ==> #[trigger] rd.tag(p) == 0
    }

    /// The reserve is a page-aligned range below the address limit, away
    /// from address 0, and none of its pages is managed.
    pub open spec fn reserve_ok(&self) -> bool {
        &&& self.bump.current <= self.bump.check_point
        &&& self.bump.current as int % (PG_SIZE as int) == 0
        &&& self.bump.check_point as int % (PG_SIZE as int) == 0
        &&& self.bump.check_point <= ADDRESS_LIMIT
        &&& self.bump.current < self.bump.check_point ==> self.bump.current > 0
        &&& forall|p: int| self.in_reserve(p) ==> !#[trigger] self.managed@.contains(p)
    }

    /// The part of the invariant that says how the free runs, the managed
    /// pages and the tags of the page index belong together.
    #[verifier::opaque]
    pub open spec fn inv(&self, rd: &RadixTree) -> bool {
        &&& forall|k: int| 0 <= k < self.lists.len() ==> (#[trigger] self.lists[k])@.no_duplicates()
        &&& forall|base: usize, len: int| #[trigger]
            self.has_run(base, len) ==> self.run_ok(rd, base, len)
        &&& forall|a1: usize, l1: int, a2: usize, l2: int|
            #[trigger] self.has_run(a1, l1) && #[trigger] self.has_run(a2, l2) && (a1 != a2 || l1
                != l2) ==> apart(a1 as int, l1, a2 as int, l2)
        &&& forall|p: int| #[trigger]
            rd.tag(p) < 0 ==> exists|base: usize, len: int| #[trigger]
                self.has_run(base, len) && (p == page_of(base as int) || p == page_of(base as int)
                    + len - 1)
        &&& forall|p: int| !self.managed@.contains(p) ==> #[trigger] rd.tag(p) == 0
        &&& forall|p: int| #[trigger]
            self.managed@.contains(p) ==> 0 < p < TREE_PAGES && (p + 1) * PG_SIZE <= usize::MAX
        &&& self.reserve_ok()
    }

    /// The invariant of the backend together with the page index.
    pub open spec fn wf(&self, rd: &RadixTree) -> bool {
        &&& rd.wf()
        &&& self.lists.len() == BACKEND_MAX_PAGE
        &&& self.inv(rd)
    }

    /// A backend with no free run and an empty reserve.
    pub fn new() -> (fl: Self)
        ensures
            fl.managed@ == Set::<int>::empty(),
            fl.bump.current == 0,
            fl.bump.check_point == 0,
            forall|base: usize, len: int| !fl.has_run(base, len),
            fl.lists.len() == BACKEND_MAX_PAGE,
    {
        let mut lists: Vec<Vec<usize>> = Vec::new();
        let mut k: usize = 0;
        while k < BACKEND_MAX_PAGE
            invariant
                k <= BACKEND_MAX_PAGE,
                lists.len() == k,
                forall|j: int| 0 <= j < k ==> (#[trigger] lists[j]).len() == 0,
            decreases BACKEND_MAX_PAGE - k,
        {
            lists.push(Vec::new());
            k += 1;
        }
        FreeList { lists, bump: BumpAlloc::new(), managed: Ghost(Set::empty()) }
    }

    /// A new backend is well-formed with an empty page index.
    pub proof fn lemma_new_wf(&self, rd: &RadixTree)
        requires
            rd.wf(),
            forall|s: int| rd.tag(s) == 0,
            self.managed@ == Set::<int>::empty(),
            self.bump.current == 0,
            self.bump.check_point == 0,
            forall|base: usize, len: int| !self.has_run(base, len),
            self.lists.len() == BACKEND_MAX_PAGE,
        ensures
            self.wf(rd),
    {
        reveal(FreeList::inv);
        assert forall|k: int| 0 <= k < self.lists.len() implies (#[trigger] self.lists[k])@.no_duplicates() by {
            assert forall|i: int, j: int|
                0 <= i < self.lists[k].len() && 0 <= j < self.lists[k].len() && i != j implies self.lists[k][i]
                != self.lists[k][j] by {
                assert(self.has_run(self.lists[k][i], k + 1));
            }
        }
    }
}

/// Dropping the last entry of a list without repeats drops that value and
/// no other.
pub proof fn lemma_drop_last_contains(s: Seq<usize>, x: usize)
    requires
        s.no_duplicates(),
        s.len() > 0,
    ensures
        s.drop_last().no_duplicates(),
        s.drop_last().contains(x) <==> (s.contains(x) && x != s.last()),
{
    let t = s.drop_last();
    if s.contains(x) && x != s.last() {
        let i = choose|i: int| 0 <= i < s.len() && s[i] == x;
        assert(t[i] == x);
    }
    if t.contains(x) {
        let i = choose|i: int| 0 <= i < t.len() && t[i] == x;
        assert(s[i] == x);
    }
}

/// Removing one entry of a list without repeats drops that value and no
/// other.
pub proof fn lemma_remove_contains(s: Seq<usize>, i: int, x: usize)
    requires
        s.no_duplicates(),
        0 <= i < s.len(),
    ensures
        s.remove(i).no_duplicates(),
        s.remove(i).contains(x) <==> (s.contains(x) && x != s[i]),
{
    let t = s.remove(i);
    assert forall|a: int, b: int| 0 <= a < t.len() && 0 <= b < t.len() && a != b implies t[a]
        != t[b] by {
        let a2 = if a < i { a } else { a + 1 };
        let b2 = if b < i { b } else { b + 1 };
        assert(t[a] == s[a2] && t[b] == s[b2]);
    }
    if s.contains(x) && x != s[i] {
        let j = choose|j: int| 0 <= j < s.len() && s[j] == x;
        let j2 = if j < i { j } else { j - 1 };
        assert(t[j2] == x);
    }
    if t.contains(x) {
        let j = choose|j: int| 0 <= j < t.len() && t[j] == x;
        let j2 = if j < i { j } else { j + 1 };
        assert(s[j2] == x);
    }
}

/// Pushing a new value onto a list without repeats adds that value and no
/// other.
pub proof fn lemma_push_contains(s: Seq<usize>, y: usize, x: usize)
    requires
        s.no_duplicates(),
        !s.contains(y),
    ensures
        s.push(y).no_duplicates(),
        s.push(y).contains(x) <==> (s.contains(x) || x == y),
{
    let t = s.push(y);
    assert(t[s.len() as int] == y);
    if s.contains(x) {
        let j = choose|j: int| 0 <= j < s.len() && s[j] == x;
        assert(t[j] == x);
    }
    if t.contains(x) && x != y {
        let j = choose|j: int| 0 <= j < t.len() && t[j] == x;
        assert(s[j] == x);
    }
}

impl FreeList {
    /// The state `self` comes from `before` by taking the run of `len`
    /// pages at `base` off its list.
    pub open spec fn took_run(&self, before: &FreeList, base: usize, len: int) -> bool {
        &&& self.lists.len() == before.lists.len()
        &&& self.managed@ == before.managed@
        &&& self.bump == before.bump
        &&& forall|k: int| 0 <= k < self.lists.len() ==> (#[trigger] self.lists[k])@.no_duplicates()
        &&& forall|b: usize, l: int| #[trigger]
            self.has_run(b, l) <==> (before.has_run(b, l) && !(b == base && l == len))
    }

    /// The tags of `after` are those of `before` but for the two ends of
    /// the run of `len` pages at `base`, which carry `v`.
    pub open spec fn ends_set(
        before: &RadixTree,
        after: &RadixTree,
        base: usize,
        len: int,
        v: i64,
    ) -> bool {
        &&& after.wf()
        &&& forall|p: int| #[trigger]
            after.tag(p) == if p == page_of(base as int) || p == page_of(base as int) + len - 1 {
                v
            } else {
                before.tag(p)
            }
    }

    /// Taking a free run off its list and clearing its marks keeps the
    /// invariant; the pages of the run become allocated, with no tag.
    pub proof fn lemma_took_run(
        &self,
        before: &FreeList,
        rd0: &RadixTree,
        rd1: &RadixTree,
        base: usize,
        len: int,
    )
        requires
            before.wf(rd0),
            before.has_run(base, len),
            self.took_run(before, base, len),
            Self::ends_set(rd0, rd1, base, len, 0),
        ensures
            self.wf(rd1),
            forall|p: int| self.free_page(p) <==> (before.free_page(p) && !in_run(base as int, len, p)),
            forall|p: int| in_run(base as int, len, p) ==> self.allocated(p) && rd1.tag(p) == 0,
            forall|p: int| self.allocated(p) <==> (before.allocated(p) || in_run(base as int, len, p)),
            forall|p: int| before.allocated(p) ==> rd1.tag(p) == rd0.tag(p),
    {
        reveal(FreeList::inv);
        assert(before.run_ok(rd0, base, len));
        assert forall|b: usize, l: int| #[trigger] self.has_run(b, l) implies self.run_ok(
            rd1,
            b,
            l,
        ) by {
            assert(before.has_run(b, l));
            assert(before.run_ok(rd0, b, l));
            assert(apart(b as int, l, base as int, len));
        }
        assert forall|p: int| #[trigger] rd1.tag(p) < 0 implies exists|b: usize, l: int| #[trigger]
            self.has_run(b, l) && (p == page_of(b as int) || p == page_of(b as int) + l - 1) by {
            assert(rd0.tag(p) < 0);
            let (b, l) = choose|b: usize, l: int| #[trigger]
                before.has_run(b, l) && (p == page_of(b as int) || p == page_of(b as int) + l - 1);
            assert(self.has_run(b, l));
        }
        assert forall|p: int| self.free_page(p) <==> (before.free_page(p) && !in_run(
            base as int,
            len,
            p,
        )) by {
            if self.free_page(p) {
                let (b, l) = choose|b: usize, l: int| #[trigger]
                    self.has_run(b, l) && in_run(b as int, l, p);
                assert(before.has_run(b, l));
                assert(apart(b as int, l, base as int, len));
            }
            if before.free_page(p) && !in_run(base as int, len, p) {
                let (b, l) = choose|b: usize, l: int| #[trigger]
                    before.has_run(b, l) && in_run(b as int, l, p);
                assert(self.has_run(b, l));
            }
        }
        assert forall|p: int| in_run(base as int, len, p) implies self.allocated(p) && rd1.tag(p)
            == 0 by {
            assert(before.managed@.contains(p));
        }
        assert forall|p: int| before.allocated(p) implies rd1.tag(p) == rd0.tag(p) by {
            if in_run(base as int, len, p) {
                assert(before.free_page(p));
            }
        }
    }

    /// The state `self` comes from `before` by putting a run of `len`
    /// pages at `base` on its list.
    pub open spec fn put_run(&self, before: &FreeList, base: usize, len: int) -> bool {
        &&& self.lists.len() == before.lists.len()
        &&& self.managed@ == before.managed@
        &&& self.bump == before.bump
        &&& forall|k: int| 0 <= k < self.lists.len() ==> (#[trigger] self.lists[k])@.no_duplicates()
        &&& forall|b: usize, l: int| #[trigger]
            self.has_run(b, l) <==> (before.has_run(b, l) || (b == base && l == len))
    }

    /// What `insert_one` asks of a run: it is page-aligned and inside the
    /// address range, its pages are allocated and carry no tag, and the
    /// pages next to it are not free.
    pub open spec fn can_put(&self, rd: &RadixTree, base: usize, len: int) -> bool {
        &&& 1 <= len <= BACKEND_MAX_PAGE
        &&& base as int % (PG_SIZE as int) == 0
        &&& base > 0
        &&& page_of(base as int) + len <= TREE_PAGES
        &&& forall|p: int| in_run(base as int, len, p) ==> self.allocated(p) && rd.tag(p) == 0
        &&& !self.free_page(page_of(base as int) - 1)
        &&& !self.free_page(page_of(base as int) + len)
    }

    /// Putting an allocated run on its list and marking its ends keeps
    /// the invariant; the pages of the run become free.
    pub proof fn lemma_put_run(
        &self,
        before: &FreeList,
        rd0: &RadixTree,
        rd1: &RadixTree,
        base: usize,
        len: int,
    )
        requires
            before.wf(rd0),
            before.can_put(rd0, base, len),
            self.put_run(before, base, len),
            Self::ends_set(rd0, rd1, base, len, mark_of(len)),
        ensures
            self.wf(rd1),
            forall|p: int| self.free_page(p) <==> (before.free_page(p) || in_run(base as int, len, p)),
            forall|p: int| self.allocated(p) <==> (before.allocated(p) && !in_run(base as int, len, p)),
            forall|p: int| self.allocated(p) ==> rd1.tag(p) == rd0.tag(p),
    {
        reveal(FreeList::inv);
        assert forall|b: usize, l: int| before.has_run(b, l) implies apart(
            b as int,
            l,
            base as int,
            len,
        ) by {
            assert(before.run_ok(rd0, b, l));
            let pb = page_of(b as int);
            let pa = page_of(base as int);
            if !apart(b as int, l, base as int, len) {
                if pb + l == pa {
                    assert(in_run(b as int, l, pa - 1));
                    assert(before.free_page(pa - 1));
                } else if pa + len == pb {
                    assert(in_run(b as int, l, pa + len));
                    assert(before.free_page(pa + len));
                } else {
                    let q = if pb >= pa { pb } else { pa };
                    assert(in_run(b as int, l, q));
                    assert(in_run(base as int, len, q));
                    assert(before.free_page(q));
                    assert(before.allocated(q));
                }
            }
        }
        assert forall|b: usize, l: int| #[trigger] self.has_run(b, l) implies self.run_ok(
            rd1,
            b,
            l,
        ) by {
            if b == base && l == len {
                assert forall|p: int| in_run(base as int, len, p) implies #[trigger] self.managed@.contains(p) by {
                    assert(before.allocated(p));
                }
                assert forall|p: int|
                    page_of(base as int) < p < page_of(base as int) + len - 1 implies #[trigger] rd1.tag(p)
                    == 0 by {
                    assert(in_run(base as int, len, p));
                }
            } else {
                assert(before.has_run(b, l));
                assert(before.run_ok(rd0, b, l));
                assert(apart(b as int, l, base as int, len));
            }
        }
        assert forall|a1: usize, l1: int, a2: usize, l2: int|
            #[trigger] self.has_run(a1, l1) && #[trigger] self.has_run(a2, l2) && (a1 != a2 || l1
                != l2) implies apart(a1 as int, l1, a2 as int, l2) by {
            if a1 == base && l1 == len {
                assert(before.has_run(a2, l2));
            } else if a2 == base && l2 == len {
                assert(before.has_run(a1, l1));
            } else {
                assert(before.has_run(a1, l1));
                assert(before.has_run(a2, l2));
            }
        }
        assert forall|p: int| #[trigger] rd1.tag(p) < 0 implies exists|b: usize, l: int| #[trigger]
            self.has_run(b, l) && (p == page_of(b as int) || p == page_of(b as int) + l - 1) by {
            if p == page_of(base as int) || p == page_of(base as int) + len - 1 {
                assert(self.has_run(base, len));
            } else {
                assert(rd0.tag(p) < 0);
                let (b, l) = choose|b: usize, l: int| #[trigger]
                    before.has_run(b, l) && (p == page_of(b as int) || p == page_of(b as int) + l
                        - 1);
                assert(self.has_run(b, l));
            }
        }
        assert forall|p: int| !self.managed@.contains(p) implies #[trigger] rd1.tag(p) == 0 by {
            if in_run(base as int, len, p) {
                assert(before.allocated(p));
            }
        }
        assert forall|p: int| self.free_page(p) <==> (before.free_page(p) || in_run(
            base as int,
            len,
            p,
        )) by {
            if self.free_page(p) {
                let (b, l) = choose|b: usize, l: int| #[trigger]
                    self.has_run(b, l) && in_run(b as int, l, p);
                if !(b == base && l == len) {
                    assert(before.has_run(b, l));
                }
            }
            if before.free_page(p) {
                let (b, l) = choose|b: usize, l: int| #[trigger]
                    before.has_run(b, l) && in_run(b as int, l, p);
                assert(self.has_run(b, l));
            }
            if in_run(base as int, len, p) {
                assert(self.has_run(base, len));
            }
        }
        assert forall|p: int| self.allocated(p) implies rd1.tag(p) == rd0.tag(p) by {
            assert(!in_run(base as int, len, p));
        }
    }
}

impl FreeList {
    /// The state and the tags are those of `before`.
    pub open spec fn same_as(&self, rd: &RadixTree, before: &FreeList, rd0: &RadixTree) -> bool {
        &&& self.lists@ == before.lists@
        &&& self.bump == before.bump
        &&& self.managed@ == before.managed@
        &&& forall|p: int| #[trigger] rd.tag(p) == rd0.tag(p)
    }

    /// Two states with the same lists and the same managed pages have the
    /// same free and allocated pages, and share the invariant.
    pub proof fn lemma_same_alloc(&self, rd: &RadixTree, before: &FreeList, rd0: &RadixTree)
        requires
            self.same_as(rd, before, rd0),
        ensures
            forall|b: usize, l: int| self.has_run(b, l) <==> before.has_run(b, l),
            forall|p: int| self.free_page(p) <==> before.free_page(p),
            forall|p: int| self.allocated(p) <==> before.allocated(p),
            before.inv(rd0) ==> self.inv(rd),
    {
        reveal(FreeList::inv);
        assert forall|p: int| self.free_page(p) <==> before.free_page(p) by {
            if self.free_page(p) {
                let (b, l) = choose|b: usize, l: int| #[trigger]
                    self.has_run(b, l) && in_run(b as int, l, p);
                assert(before.has_run(b, l));
            }
            if before.free_page(p) {
                let (b, l) = choose|b: usize, l: int| #[trigger]
                    before.has_run(b, l) && in_run(b as int, l, p);
                assert(self.has_run(b, l));
            }
        }
        if before.inv(rd0) {
            assert forall|b: usize, l: int| #[trigger] self.has_run(b, l) implies self.run_ok(
                rd,
                b,
                l,
            ) by {
                assert(before.has_run(b, l));
                assert(before.run_ok(rd0, b, l));
            }
            assert forall|p: int| #[trigger] rd.tag(p) < 0 implies exists|b: usize, l: int| #[trigger]
                self.has_run(b, l) && (p == page_of(b as int) || p == page_of(b as int) + l - 1) by {
                assert(rd0.tag(p) < 0);
                let (b, l) = choose|b: usize, l: int| #[trigger]
                    before.has_run(b, l) && (p == page_of(b as int) || p == page_of(b as int) + l
                        - 1);
                assert(self.has_run(b, l));
            }
            assert forall|a1: usize, l1: int, a2: usize, l2: int|
                #[trigger] self.has_run(a1, l1) && #[trigger] self.has_run(a2, l2) && (a1 != a2
                    || l1 != l2) implies apart(a1 as int, l1, a2 as int, l2) by {
                assert(before.has_run(a1, l1));
                assert(before.has_run(a2, l2));
            }
        }
    }

    /// What the invariant says of one free run.
    pub proof fn lemma_run_ok(&self, rd: &RadixTree, base: usize, len: int)
        requires
            self.wf(rd),
            self.has_run(base, len),
        ensures
            self.run_ok(rd, base, len),
            1 <= len <= BACKEND_MAX_PAGE,
    {
        reveal(FreeList::inv);
    }

    /// Takes the head of the list of runs of `idx + 1` pages, if there is
    /// one, and clears the marks at its two ends.
    pub fn remove_one(&mut self, idx: usize, rd: &mut RadixTree) -> (r: Option<usize>)
        requires
            old(self).wf(old(rd)),
            idx < BACKEND_MAX_PAGE,
        ensures
            final(self).wf(final(rd)),
            r is None <==> old(self).lists[idx as int].len() == 0,
            r is None ==> final(self).same_as(final(rd), old(self), old(rd)),
            r matches Some(a) ==> {
                &&& a == old(self).lists[idx as int]@.last()
                &&& old(self).has_run(a, idx + 1)
                &&& final(self).took_run(old(self), a, idx + 1)
                &&& Self::ends_set(old(rd), final(rd), a, idx + 1, 0)
                &&& final(self).lists[idx as int]@ == old(self).lists[idx as int]@.drop_last()
                &&& final(self).others_same(old(self), idx as int, idx as int)
            },
    {
        if self.lists[idx].len() == 0 {
            return None;
        }
        let a = self.lists[idx].pop().unwrap();
        proof {
            let s = old(self).lists[idx as int]@;
            assert(s[s.len() - 1] == a);
            assert(old(self).has_run(a, idx + 1));
            old(self).lemma_run_ok(old(rd), a, idx + 1);
            old(self).lemma_no_duplicates(old(rd));
            assert(self.lists[idx as int]@ == s.remove(s.len() - 1));
            self.lemma_list_changed(old(self), idx as int, a, false);
        }
        let page: u64 = (a as u64) / (PG_SIZE as u64);
        rd.remove_pages(page, 1);
        rd.remove_pages(page + idx as u64, 1);
        proof {
            self.lemma_took_run(old(self), old(rd), rd, a, idx + 1);
        }
        Some(a)
    }

    /// The effect on `has_run` of a change of one list: `x` was dropped
    /// from list `idx`, or (`added`) pushed onto it.
    pub proof fn lemma_list_changed(&self, before: &FreeList, idx: int, x: usize, added: bool)
        requires
            0 <= idx < before.lists.len(),
            before.lists.len() == BACKEND_MAX_PAGE,
            before.lists[idx]@.no_duplicates(),
            forall|k: int| 0 <= k < before.lists.len() ==> (#[trigger] before.lists[k])@.no_duplicates(),
            self.lists.len() == before.lists.len(),
            forall|k: int| 0 <= k < before.lists.len() && k != idx ==> self.lists[k] == before.lists[k],
            self.managed@ == before.managed@,
            self.bump == before.bump,
            added ==> !before.lists[idx]@.contains(x) && self.lists[idx]@ == before.lists[idx]@.push(
                x,
            ),
            !added ==> exists|i: int|
                0 <= i < before.lists[idx].len() && before.lists[idx][i] == x && self.lists[idx]@
                    == before.lists[idx]@.remove(i),
        ensures
            added ==> self.put_run(before, x, idx + 1),
            !added ==> self.took_run(before, x, idx + 1),
    {
        let s = before.lists[idx]@;
        if added {
            assert forall|b: usize, l: int| #[trigger]
                self.has_run(b, l) <==> (before.has_run(b, l) || (b == x && l == idx + 1)) by {
                if 1 <= l <= self.lists.len() {
                    if l == idx + 1 {
                        lemma_push_contains(s, x, b);
                    } else {
                        assert(self.lists[l - 1] == before.lists[l - 1]);
                    }
                }
            }
            assert forall|k: int| 0 <= k < self.lists.len() implies (#[trigger] self.lists[k])@.no_duplicates() by {
                if k == idx {
                    lemma_push_contains(s, x, x);
                } else {
                    assert(self.lists[k] == before.lists[k]);
                }
            }
        } else {
            let i = choose|i: int|
                0 <= i < before.lists[idx].len() && before.lists[idx][i] == x && self.lists[idx]@
                    == before.lists[idx]@.remove(i);
            assert forall|b: usize, l: int| #[trigger]
                self.has_run(b, l) <==> (before.has_run(b, l) && !(b == x && l == idx + 1)) by {
                if 1 <= l <= self.lists.len() {
                    if l == idx + 1 {
                        lemma_remove_contains(s, i, b);
                    } else {
                        assert(self.lists[l - 1] == before.lists[l - 1]);
                    }
                }
            }
            assert forall|k: int| 0 <= k < self.lists.len() implies (#[trigger] self.lists[k])@.no_duplicates() by {
                if k == idx {
                    lemma_remove_contains(s, i, x);
                } else {
                    assert(self.lists[k] == before.lists[k]);
                }
            }
        }
    }

    /// A free run ends at an address that a `usize` holds.
    pub proof fn lemma_run_end(&self, rd: &RadixTree, base: usize, len: int)
        requires
            self.wf(rd),
            self.has_run(base, len),
        ensures
            base + len * PG_SIZE <= usize::MAX,
    {
        reveal(FreeList::inv);
        assert(self.run_ok(rd, base, len));
        let last = page_of(base as int) + len - 1;
        assert(in_run(base as int, len, last));
        assert(self.managed@.contains(last));
    }

    /// The lists of a well-formed backend hold no value twice.
    pub proof fn lemma_no_duplicates(&self, rd: &RadixTree)
        requires
            self.wf(rd),
        ensures
            forall|k: int| 0 <= k < self.lists.len() ==> (#[trigger] self.lists[k])@.no_duplicates(),
    {
        reveal(FreeList::inv);
    }

    /// Takes the run of `idx + 1` pages at `ptr` off its list, if it is
    /// there, and clears the marks at its two ends.
    pub fn remove_spec_one(&mut self, idx: usize, ptr: usize, rd: &mut RadixTree) -> (r: Option<
        usize,
    >)
        requires
            old(self).wf(old(rd)),
            idx < BACKEND_MAX_PAGE,
        ensures
            final(self).wf(final(rd)),
            r is Some <==> old(self).has_run(ptr, idx + 1),
            r is None ==> final(self).same_as(final(rd), old(self), old(rd)),
            r matches Some(a) ==> {
                &&& a == ptr
                &&& final(self).took_run(old(self), ptr, idx + 1)
                &&& Self::ends_set(old(rd), final(rd), ptr, idx + 1, 0)
            },
    {
        let n = self.lists[idx].len();
        let mut i: usize = 0;
        while i < n && self.lists[idx][i] != ptr
            invariant
                i <= n,
                n == self.lists[idx as int].len(),
                idx < self.lists.len(),
                *self == *old(self),
                forall|j: int| 0 <= j < i ==> self.lists[idx as int][j] != ptr,
            decreases n - i,
        {
            i += 1;
        }
        if i >= n {
            return None;
        }
        let a = self.lists[idx].remove(i);
        proof {
            let s = old(self).lists[idx as int]@;
            assert(s[i as int] == ptr);
            assert(old(self).has_run(ptr, idx + 1));
            old(self).lemma_run_ok(old(rd), ptr, idx + 1);
            old(self).lemma_no_duplicates(old(rd));
            self.lemma_list_changed(old(self), idx as int, ptr, false);
        }
        let page: u64 = (ptr as u64) / (PG_SIZE as u64);
        rd.remove_pages(page, 1);
        rd.remove_pages(page + idx as u64, 1);
        proof {
            self.lemma_took_run(old(self), old(rd), rd, ptr, idx + 1);
        }
        Some(a)
    }

    /// Puts the run of `idx + 1` pages at `node` at the head of its list
    /// and marks its two ends.
    pub fn insert_one(&mut self, idx: usize, node: usize, rd: &mut RadixTree)
        requires
            old(self).wf(old(rd)),
            idx < BACKEND_MAX_PAGE,
            old(self).can_put(old(rd), node, idx + 1),
        ensures
            final(self).wf(final(rd)),
            final(self).put_run(old(self), node, idx + 1),
            Self::ends_set(old(rd), final(rd), node, idx + 1, mark_of(idx + 1)),
            final(self).lists[idx as int]@ == old(self).lists[idx as int]@.push(node),
            final(self).others_same(old(self), idx as int, idx as int),
    {
        proof {
            assert(in_run(node as int, idx + 1, page_of(node as int)));
            assert(old(self).allocated(page_of(node as int)));
            assert(!old(self).has_run(node, idx + 1));
            assert(!old(self).lists[idx as int]@.contains(node));
            old(self).lemma_no_duplicates(old(rd));
        }
        self.lists[idx].push(node);
        proof {
            self.lemma_list_changed(old(self), idx as int, node, true);
        }
        let page: u64 = (node as u64) / (PG_SIZE as u64);
        let mark: i64 = -((idx + 1) as i64);
        rd.insert_pages(page, mark, 1);
        rd.insert_pages(page + idx as u64, mark, 1);
        proof {
            self.lemma_put_run(old(self), old(rd), rd, node, idx + 1);
        }
    }
}

impl FreeList {
    /// Every list but the lists `i` and `j` is as it was in `before`.
    pub open spec fn others_same(&self, before: &FreeList, i: int, j: int) -> bool {
        &&& self.lists.len() == before.lists.len()
        &&& forall|k: int|
            0 <= k < self.lists.len() && k != i && k != j ==> (#[trigger] self.lists[k])@
                == before.lists[k]@
    }

    /// What taking `n` pages from the lists brings about, where `f` is
    /// the length of the shortest run that holds them. The list of runs
    /// of `f` pages has lost its head. When the run is longer than `n`
    /// pages, the `f - n` pages behind the first `n` have become the
    /// head of the list of their length, with their mark at both ends.
    /// Every other list, the managed pages and the reserve are as they
    /// were.
    pub open spec fn took_from_lists(
        &self,
        rd: &RadixTree,
        before: &FreeList,
        f: int,
        n: int,
    ) -> bool {
        let a = before.lists[f - 1]@.last();
        let rest = (a + n * PG_SIZE) as usize;
        &&& self.managed@ == before.managed@
        &&& self.bump == before.bump
        &&& f == n ==> self.lists[f - 1]@ == before.lists[f - 1]@.drop_last() && self.others_same(
            before,
            f - 1,
            f - 1,
        )
        &&& f > n ==> {
            &&& self.lists[f - 1]@ == before.lists[f - 1]@.drop_last()
            &&& self.lists[f - n - 1]@ == before.lists[f - n - 1]@.push(rest)
            &&& self.others_same(before, f - 1, f - n - 1)
            &&& rd.tag(page_of(rest as int)) == mark_of(f - n)
            &&& rd.tag(page_of(rest as int) + f - n - 1) == mark_of(f - n)
        }
    }

    /// What taking `n` pages from the reserve brings about: the reserve
    /// begins `n` pages later, its pages are managed now, and every list
    /// is as it was.
    pub open spec fn took_from_reserve(&self, before: &FreeList, n: int) -> bool {
        &&& self.lists@ == before.lists@
        &&& self.bump.check_point == before.bump.check_point
        &&& self.bump.current == before.bump.current + n * PG_SIZE
        &&& self.managed@ == before.managed@.union(
            Set::new(|p: int| in_run(before.bump.current as int, n, p)),
        )
    }

    /// What handing out the `n` pages at `a` brings about: the pages were
    /// not allocated in `before`, are allocated in `self` and carry no
    /// tag; every other page is allocated as before, and the tag of every
    /// page allocated before is the same.
    pub open spec fn grabbed(
        &self,
        rd: &RadixTree,
        before: &FreeList,
        rd0: &RadixTree,
        a: usize,
        n: int,
    ) -> bool {
        &&& a as int % (PG_SIZE as int) == 0
        &&& a > 0
        &&& page_of(a as int) + n <= TREE_PAGES
        &&& forall|p: int|
            in_run(a as int, n, p) ==> !before.allocated(p) && self.allocated(p) && rd.tag(p) == 0
        &&& forall|p: int| !in_run(a as int, n, p) ==> (self.allocated(p) <==> before.allocated(p))
        &&& forall|p: int| before.allocated(p) ==> rd.tag(p) == rd0.tag(p)
    }

    /// Taking a whole free run hands out its pages.
    pub proof fn lemma_take_grabbed(
        &self,
        before: &FreeList,
        rd0: &RadixTree,
        rd1: &RadixTree,
        a: usize,
        n: int,
    )
        requires
            before.wf(rd0),
            before.has_run(a, n),
            self.took_run(before, a, n),
            Self::ends_set(rd0, rd1, a, n, 0),
        ensures
            self.grabbed(rd1, before, rd0, a, n),
    {
        self.lemma_took_run(before, rd0, rd1, a, n);
        before.lemma_run_ok(rd0, a, n);
        assert forall|p: int| in_run(a as int, n, p) implies !before.allocated(p) by {
            assert(before.free_page(p));
        }
    }

    /// After a free run of `plen` pages was taken, its last `plen - n`
    /// pages can go back as a run of their own.
    pub proof fn lemma_rest_can_put(
        &self,
        before: &FreeList,
        rd0: &RadixTree,
        rd1: &RadixTree,
        a: usize,
        plen: int,
        n: int,
        remain: usize,
    )
        requires
            before.wf(rd0),
            before.has_run(a, plen),
            self.took_run(before, a, plen),
            Self::ends_set(rd0, rd1, a, plen, 0),
            1 <= n < plen,
            remain == a + n * PG_SIZE,
        ensures
            self.can_put(rd1, remain, plen - n),
    {
        reveal(FreeList::inv);
        self.lemma_took_run(before, rd0, rd1, a, plen);
        before.lemma_run_ok(rd0, a, plen);
        let rest = plen - n;
        assert(page_of(remain as int) == page_of(a as int) + n);
        assert forall|p: int| in_run(remain as int, rest, p) implies self.allocated(p) && rd1.tag(
            p,
        ) == 0 by {
            assert(in_run(a as int, plen, p));
        }
        assert(in_run(a as int, plen, page_of(remain as int) - 1));
        let q = page_of(remain as int) + rest;
        if self.free_page(q) {
            let (b, l) = choose|b: usize, l: int| #[trigger]
                self.has_run(b, l) && in_run(b as int, l, q);
            assert(before.has_run(b, l));
            assert(apart(b as int, l, a as int, plen));
        }
    }

    /// Taking a free run and putting its rest back hands out its first
    /// `n` pages.
    pub proof fn lemma_split_grabbed(
        &self,
        taken: &FreeList,
        before: &FreeList,
        rd0: &RadixTree,
        rd1: &RadixTree,
        rd2: &RadixTree,
        a: usize,
        plen: int,
        n: int,
        remain: usize,
    )
        requires
            before.wf(rd0),
            before.has_run(a, plen),
            taken.took_run(before, a, plen),
            Self::ends_set(rd0, rd1, a, plen, 0),
            1 <= n < plen,
            remain == a + n * PG_SIZE,
            taken.wf(rd1),
            self.put_run(taken, remain, plen - n),
            Self::ends_set(rd1, rd2, remain, plen - n, mark_of(plen - n)),
        ensures
            self.grabbed(rd2, before, rd0, a, n),
    {
        taken.lemma_took_run(before, rd0, rd1, a, plen);
        taken.lemma_rest_can_put(before, rd0, rd1, a, plen, n, remain);
        self.lemma_put_run(taken, rd1, rd2, remain, plen - n);
        before.lemma_run_ok(rd0, a, plen);
        assert(page_of(remain as int) == page_of(a as int) + n);
        assert forall|p: int| in_run(a as int, n, p) implies !before.allocated(p)
            && self.allocated(p) && rd2.tag(p) == 0 by {
            assert(in_run(a as int, plen, p));
            assert(before.free_page(p));
            assert(taken.allocated(p));
            assert(!in_run(remain as int, plen - n, p));
        }
        assert forall|p: int| !in_run(a as int, n, p) implies (self.allocated(p)
            <==> before.allocated(p)) by {
            if in_run(remain as int, plen - n, p) {
                assert(in_run(a as int, plen, p));
                assert(before.free_page(p));
            } else {
                assert(!in_run(a as int, plen, p));
            }
        }
        assert forall|p: int| before.allocated(p) implies rd2.tag(p) == rd0.tag(p) by {
            if in_run(a as int, plen, p) {
                assert(before.free_page(p));
            }
            assert(taken.allocated(p));
            assert(self.allocated(p));
        }
    }

    /// The shortest list from `from` pages on that holds a run, or
    /// `BACKEND_MAX_PAGE + 1` if none does.
    pub open spec fn first_fit(&self, from: int) -> int
        decreases BACKEND_MAX_PAGE + 1 - from,
    {
        if from < 1 || from > BACKEND_MAX_PAGE {
            BACKEND_MAX_PAGE + 1
        } else if self.lists[from - 1].len() > 0 {
            from
        } else {
            self.first_fit(from + 1)
        }
    }

    /// The first fit is a list that holds a run, and no list between
    /// `from` and it does.
    pub proof fn lemma_first_fit(&self, from: int)
        requires
            1 <= from <= BACKEND_MAX_PAGE + 1,
            self.lists.len() == BACKEND_MAX_PAGE,
        ensures
            from <= self.first_fit(from) <= BACKEND_MAX_PAGE + 1,
            self.first_fit(from) <= BACKEND_MAX_PAGE ==> self.lists[self.first_fit(from) - 1].len()
                > 0,
            forall|b: usize, l: int| from <= l < self.first_fit(from) ==> !self.has_run(b, l),
        decreases BACKEND_MAX_PAGE + 1 - from,
    {
        if from <= BACKEND_MAX_PAGE && self.lists[from - 1].len() == 0 {
            self.lemma_first_fit(from + 1);
        }
    }

    /// Hands out `npages` pages from the free runs: the head of the list
    /// of runs of just that length, or else the front of the head of the
    /// shortest longer list, whose rest goes back on the list of its
    /// length.
    pub fn take_from_lists(&mut self, npages: usize, rd: &mut RadixTree) -> (r: Option<usize>)
        requires
            old(self).wf(old(rd)),
            1 <= npages <= BACKEND_MAX_PAGE,
        ensures
            final(self).wf(final(rd)),
            r is None <==> old(self).first_fit(npages as int) > BACKEND_MAX_PAGE,
            r is None ==> final(self).same_as(final(rd), old(self), old(rd)),
            r matches Some(a) ==> {
                &&& a == old(self).lists[old(self).first_fit(npages as int) - 1]@.last()
                &&& final(self).grabbed(final(rd), old(self), old(rd), a, npages as int)
                &&& final(self).took_from_lists(
                    final(rd),
                    old(self),
                    old(self).first_fit(npages as int),
                    npages as int,
                )
            },
    {
        let mut parent_idx: usize = npages - 1;
        proof {
            old(self).lemma_first_fit(npages as int);
        }
        while parent_idx < BACKEND_MAX_PAGE && self.lists[parent_idx].len() == 0
            invariant
                npages - 1 <= parent_idx <= BACKEND_MAX_PAGE,
                *self == *old(self),
                self.lists.len() == BACKEND_MAX_PAGE,
                old(self).first_fit(npages as int) == old(self).first_fit(parent_idx + 1),
            decreases BACKEND_MAX_PAGE - parent_idx,
        {
            parent_idx += 1;
        }
        if parent_idx >= BACKEND_MAX_PAGE {
            proof {
                self.lemma_same_alloc(rd, old(self), old(rd));
            }
            return None;
        }
        let parent = match self.remove_one(parent_idx, rd) {
            Some(parent) => parent,
            None => {
                return None;
            },
        };
        if parent_idx + 1 > npages {
            let ghost taken = *self;
            let ghost rd_taken = *rd;
            proof {
                old(self).lemma_run_ok(old(rd), parent, parent_idx + 1);
            }
            proof {
                old(self).lemma_run_end(old(rd), parent, parent_idx + 1);
            }
            let remain: usize = parent + PG_SIZE * npages;
            proof {
                self.lemma_rest_can_put(
                    old(self),
                    old(rd),
                    rd,
                    parent,
                    parent_idx + 1,
                    npages as int,
                    remain,
                );
            }
            self.insert_one(parent_idx - npages, remain, rd);
            proof {
                assert(self.others_same(old(self), parent_idx as int, parent_idx - npages)) by {
                    assert forall|k: int|
                        0 <= k < self.lists.len() && k != parent_idx && k != parent_idx
                            - npages implies (#[trigger] self.lists[k])@ == old(self).lists[k]@ by {
                        assert(taken.lists[k]@ == old(self).lists[k]@);
                    }
                }
                assert(self.lists[parent_idx as int]@ == taken.lists[parent_idx as int]@);
                assert(taken.lists[parent_idx - npages]@ == old(self).lists[parent_idx - npages]@);
                assert(in_run(remain as int, parent_idx + 1 - npages, page_of(remain as int)));
                self.lemma_split_grabbed(
                    &taken,
                    old(self),
                    old(rd),
                    &rd_taken,
                    rd,
                    parent,
                    parent_idx + 1,
                    npages as int,
                    remain,
                );
            }
        } else {
            proof {
                self.lemma_take_grabbed(old(self), old(rd), rd, parent, npages as int);
            }
        }
        Some(parent)
    }

    /// Hands out `size` bytes, in whole pages, from the front of the
    /// reserve.
    pub fn take_from_reserve(&mut self, size: usize, rd: &RadixTree) -> (r: Result<
        usize,
        AllocError,
    >)
        requires
            old(self).wf(rd),
            0 < size <= usize::MAX - PG_SIZE,
        ensures
            final(self).wf(rd),
            r is Ok <==> old(self).bump.remaining() >= pages_for(size as int) * PG_SIZE,
            r is Err ==> r == Err::<usize, AllocError>(AllocError::ENOMEM) && *final(self) == *old(self),
            r matches Ok(a) ==> a == old(self).bump.current && final(self).grabbed(
                rd,
                old(self),
                rd,
                a,
                pages_for(size as int),
            ) && final(self).took_from_reserve(old(self), pages_for(size as int)),
    {
        match self.bump.allocate(size) {
            Ok(a) => {
                proof {
                    let n = pages_for(size as int);
                    self.managed@ = old(self).managed@.union(
                        Set::new(|p: int| in_run(a as int, n, p)),
                    );
                    self.lemma_reserve_grabbed(old(self), rd, a, n);
                }
                Ok(a)
            },
            Err(e) => Err(e),
        }
    }

    /// Cutting `n` pages off the front of the reserve hands them out.
    pub proof fn lemma_reserve_grabbed(&self, before: &FreeList, rd: &RadixTree, a: usize, n: int)
        requires
            before.wf(rd),
            n >= 1,
            a == before.bump.current,
            a + n * PG_SIZE <= before.bump.check_point,
            self.lists@ == before.lists@,
            self.bump.check_point == before.bump.check_point,
            self.bump.current == a + n * PG_SIZE,
            self.managed@ == before.managed@.union(Set::new(|p: int| in_run(a as int, n, p))),
        ensures
            self.wf(rd),
            self.grabbed(rd, before, rd, a, n),
    {
        reveal(FreeList::inv);
        assert(a as int % (PG_SIZE as int) == 0);
        assert forall|p: int| in_run(a as int, n, p) implies before.in_reserve(p) by {}
        assert forall|b: usize, l: int| self.has_run(b, l) <==> before.has_run(b, l) by {}
        assert forall|b: usize, l: int| #[trigger] self.has_run(b, l) implies self.run_ok(
            rd,
            b,
            l,
        ) by {
            assert(before.has_run(b, l));
            assert(before.run_ok(rd, b, l));
        }
        assert forall|p: int| #[trigger] rd.tag(p) < 0 implies exists|b: usize, l: int| #[trigger]
            self.has_run(b, l) && (p == page_of(b as int) || p == page_of(b as int) + l - 1) by {
            let (b, l) = choose|b: usize, l: int| #[trigger]
                before.has_run(b, l) && (p == page_of(b as int) || p == page_of(b as int) + l - 1);
            assert(self.has_run(b, l));
        }
        assert forall|a1: usize, l1: int, a2: usize, l2: int|
            #[trigger] self.has_run(a1, l1) && #[trigger] self.has_run(a2, l2) && (a1 != a2 || l1
                != l2) implies apart(a1 as int, l1, a2 as int, l2) by {
            assert(before.has_run(a1, l1));
            assert(before.has_run(a2, l2));
        }
        assert forall|p: int| self.free_page(p) <==> before.free_page(p) by {
            if self.free_page(p) {
                let (b, l) = choose|b: usize, l: int| #[trigger]
                    self.has_run(b, l) && in_run(b as int, l, p);
                assert(before.has_run(b, l));
            }
            if before.free_page(p) {
                let (b, l) = choose|b: usize, l: int| #[trigger]
                    before.has_run(b, l) && in_run(b as int, l, p);
                assert(self.has_run(b, l));
            }
        }
        assert forall|p: int| in_run(a as int, n, p) implies !before.free_page(p) by {
            if before.free_page(p) {
                let (b, l) = choose|b: usize, l: int| #[trigger]
                    before.has_run(b, l) && in_run(b as int, l, p);
                assert(before.run_ok(rd, b, l));
                assert(before.managed@.contains(p));
            }
        }
        assert forall|p: int| #[trigger] self.managed@.contains(p) implies 0 < p < TREE_PAGES && (p
            + 1) * PG_SIZE <= usize::MAX by {
            if in_run(a as int, n, p) {
                assert(before.in_reserve(p));
            }
        }
    }

    /// Whether the backend can supply `n` pages in one piece: from a free
    /// run of at least `n` pages, or from the reserve.
    pub open spec fn can_serve(&self, n: int) -> bool {
        ||| exists|b: usize, l: int| #[trigger] self.has_run(b, l) && l >= n
        ||| self.bump.remaining() >= n * PG_SIZE
    }

    /// Hands out `size` bytes as a run of whole pages.
    ///
    /// The run is the head of the list of runs of just that length; else
    /// the front of the head of the shortest longer list, whose rest goes
    /// back on the list of its length; else fresh pages from the reserve.
    /// The pages of the run were not allocated before, are allocated after
    /// and carry no tag; every other page stays as it was. Fails with
    /// `ESIZE` for no byte or more bytes than a `usize` holds in whole
    /// pages, and with `ENOMEM` when neither a run nor the reserve holds
    /// that many pages; a failure changes nothing.
    pub fn alloc_pages(&mut self, size: usize, rd: &mut RadixTree) -> (r: Result<
        usize,
        AllocError,
    >)
        requires
            old(self).wf(old(rd)),
        ensures
            final(self).wf(final(rd)),
            (size == 0 || size > usize::MAX - PG_SIZE) ==> r == Err::<usize, AllocError>(
                AllocError::ESIZE,
            ),
            0 < size <= usize::MAX - PG_SIZE ==> (r is Ok <==> old(self).can_serve(
                pages_for(size as int),
            )),
            0 < size <= usize::MAX - PG_SIZE && r is Err ==> r == Err::<usize, AllocError>(
                AllocError::ENOMEM,
            ),
            r is Err ==> final(self).same_as(final(rd), old(self), old(rd)),
            r matches Ok(a) ==> {
                let n = pages_for(size as int);
                &&& final(self).grabbed(final(rd), old(self), old(rd), a, n)
                &&& old(self).first_fit(n) <= BACKEND_MAX_PAGE ==> a == old(self).lists[old(self).first_fit(n) - 1]@.last()
                    && final(self).took_from_lists(final(rd), old(self), old(self).first_fit(n), n)
                &&& old(self).first_fit(n) > BACKEND_MAX_PAGE ==> a == old(self).bump.current
                    && final(self).took_from_reserve(old(self), n)
            },
    {
        if size == 0 || size > usize::MAX - PG_SIZE {
            return Err(AllocError::ESIZE);
        }
        let npages: usize = (size + PG_SIZE - 1) / PG_SIZE;
        proof {
            let n = npages as int;
            if n <= BACKEND_MAX_PAGE {
                old(self).lemma_first_fit(n);
                let f = old(self).first_fit(n);
                if f <= BACKEND_MAX_PAGE {
                    assert(old(self).has_run(old(self).lists[f - 1][0], f));
                } else {
                    assert forall|b: usize, l: int| l >= n implies !old(self).has_run(b, l) by {}
                }
            } else {
                assert forall|b: usize, l: int| l >= n implies !old(self).has_run(b, l) by {}
            }
        }
        if npages <= BACKEND_MAX_PAGE {
            match self.take_from_lists(npages, rd) {
                Some(a) => {
                    return Ok(a);
                },
                None => {},
            }
        }
        let ghost mid = *self;
        let r = self.take_from_reserve(size, rd);
        proof {
            mid.lemma_same_alloc(rd, old(self), old(rd));
        }
        r
    }
}

/// The length of the free run that ends just before page `q`, read off
/// the mark on the page before `q`; 0 if that page carries no mark.
pub open spec fn run_before(rd: &RadixTree, q: int) -> int {
    if rd.tag(q - 1) < 0 {
        -rd.tag(q - 1)
    } else {
        0
    }
}

/// The length of the free run that starts at page `q`, read off the mark
/// on `q`; 0 if `q` carries no mark.
pub open spec fn run_after(rd: &RadixTree, q: int) -> int {
    if rd.tag(q) < 0 {
        -rd.tag(q)
    } else {
        0
    }
}

impl FreeList {
    /// The `len` pages at `base` are allocated and carry no tag.
    pub open spec fn clear_alloc(&self, rd: &RadixTree, base: usize, len: int) -> bool {
        &&& base as int % (PG_SIZE as int) == 0
        &&& len >= 1
        &&& forall|p: int| in_run(base as int, len, p) ==> self.allocated(p) && rd.tag(p) == 0
    }

    /// An allocated page lies inside the address range.
    pub proof fn lemma_page_bound(&self, rd: &RadixTree, p: int)
        requires
            self.wf(rd),
            self.allocated(p),
        ensures
            0 < p < TREE_PAGES,
            (p + 1) * PG_SIZE <= usize::MAX,
    {
        reveal(FreeList::inv);
    }

    /// An allocated range lies inside the address range.
    pub proof fn lemma_alloc_bounds(&self, rd: &RadixTree, base: usize, len: int)
        requires
            self.wf(rd),
            self.clear_alloc(rd, base, len),
        ensures
            base >= PG_SIZE,
            page_of(base as int) + len <= TREE_PAGES,
            base + len * PG_SIZE <= usize::MAX,
    {
        reveal(FreeList::inv);
        let first = page_of(base as int);
        let last = first + len - 1;
        assert(in_run(base as int, len, first));
        assert(in_run(base as int, len, last));
        assert(self.allocated(first));
        assert(self.allocated(last));
    }

    /// A mark on the page before an allocated range belongs to a free run
    /// that ends there; no mark means that the page is not free.
    pub proof fn lemma_run_before(&self, rd: &RadixTree, base: usize, len: int)
        requires
            self.wf(rd),
            self.clear_alloc(rd, base, len),
        ensures
            0 <= run_before(rd, page_of(base as int)) <= BACKEND_MAX_PAGE,
            run_before(rd, page_of(base as int)) * PG_SIZE < base,
            run_before(rd, page_of(base as int)) > 0 ==> self.has_run(
                (base - run_before(rd, page_of(base as int)) * PG_SIZE) as usize,
                run_before(rd, page_of(base as int)),
            ),
            run_before(rd, page_of(base as int)) == 0 ==> !self.free_page(page_of(base as int) - 1),
    {
        reveal(FreeList::inv);
        let first = page_of(base as int);
        let q = first - 1;
        assert(in_run(base as int, len, first));
        assert(self.allocated(first));
        if rd.tag(q) < 0 {
            let (b, l) = choose|b: usize, l: int| #[trigger]
                self.has_run(b, l) && (q == page_of(b as int) || q == page_of(b as int) + l - 1);
            assert(self.run_ok(rd, b, l));
            if q != page_of(b as int) + l - 1 {
                assert(in_run(b as int, l, first));
                assert(self.free_page(first));
            }
            assert(b == base - l * PG_SIZE);
        } else {
            if self.free_page(q) {
                let (b, l) = choose|b: usize, l: int| #[trigger]
                    self.has_run(b, l) && in_run(b as int, l, q);
                assert(self.run_ok(rd, b, l));
                if q != page_of(b as int) + l - 1 {
                    assert(in_run(b as int, l, first));
                    assert(self.free_page(first));
                }
            }
        }
    }

    /// A mark on the page after an allocated range belongs to a free run
    /// that starts there; no mark means that the page is not free.
    pub proof fn lemma_run_after(&self, rd: &RadixTree, base: usize, len: int)
        requires
            self.wf(rd),
            self.clear_alloc(rd, base, len),
        ensures
            0 <= run_after(rd, page_of(base as int) + len) <= BACKEND_MAX_PAGE,
            run_after(rd, page_of(base as int) + len) > 0 ==> base + len * PG_SIZE <= usize::MAX
                && self.has_run(
                (base + len * PG_SIZE) as usize,
                run_after(rd, page_of(base as int) + len),
            ),
            run_after(rd, page_of(base as int) + len) == 0 ==> !self.free_page(
                page_of(base as int) + len,
            ),
    {
        reveal(FreeList::inv);
        let last = page_of(base as int) + len - 1;
        let q = last + 1;
        assert(in_run(base as int, len, last));
        assert(self.allocated(last));
        if rd.tag(q) < 0 {
            let (b, l) = choose|b: usize, l: int| #[trigger]
                self.has_run(b, l) && (q == page_of(b as int) || q == page_of(b as int) + l - 1);
            assert(self.run_ok(rd, b, l));
            if q != page_of(b as int) {
                assert(in_run(b as int, l, last));
                assert(self.free_page(last));
            }
            assert(b == base + len * PG_SIZE);
        } else {
            if self.free_page(q) {
                let (b, l) = choose|b: usize, l: int| #[trigger]
                    self.has_run(b, l) && in_run(b as int, l, q);
                assert(self.run_ok(rd, b, l));
                if q != page_of(b as int) {
                    assert(in_run(b as int, l, last));
                    assert(self.free_page(last));
                }
            }
        }
    }

    /// What merging a free neighbour into an allocated range brings
    /// about: the range `[base, base + len)` of `before` has grown to
    /// `[nbase, nbase + nlen)`, the pages gained were free and are now
    /// allocated without a tag, and nothing else has changed.
    pub open spec fn merged(
        &self,
        rd: &RadixTree,
        before: &FreeList,
        rd0: &RadixTree,
        base: usize,
        len: int,
        nbase: usize,
        nlen: int,
    ) -> bool {
        &&& self.managed@ == before.managed@
        &&& self.bump == before.bump
        &&& nbase <= base
        &&& page_of(nbase as int) + nlen >= page_of(base as int) + len
        &&& self.clear_alloc(rd, nbase, nlen)
        &&& forall|p: int|
            self.allocated(p) <==> (before.allocated(p) || in_run(nbase as int, nlen, p))
        &&& forall|p: int|
            self.free_page(p) <==> (before.free_page(p) && !in_run(nbase as int, nlen, p))
        &&& forall|p: int| before.allocated(p) ==> rd.tag(p) == rd0.tag(p)
        &&& forall|p: int|
            !in_run(nbase as int, nlen, p) || in_run(base as int, len, p) ==> rd.tag(p) == rd0.tag(
                p,
            )
        &&& forall|p: int|
            in_run(nbase as int, nlen, p) && !in_run(base as int, len, p) ==> before.free_page(p)
    }

    /// Taking the free run just before or just after an allocated range
    /// grows the range by that run.
    pub proof fn lemma_merged(
        &self,
        before: &FreeList,
        rd0: &RadixTree,
        rd1: &RadixTree,
        base: usize,
        len: int,
        run: usize,
        rlen: int,
    )
        requires
            before.wf(rd0),
            before.clear_alloc(rd0, base, len),
            before.has_run(run, rlen),
            run + rlen * PG_SIZE == base || base + len * PG_SIZE == run,
            self.took_run(before, run, rlen),
            Self::ends_set(rd0, rd1, run, rlen, 0),
        ensures
            run + rlen * PG_SIZE == base ==> self.merged(
                rd1,
                before,
                rd0,
                base,
                len,
                run,
                len + rlen,
            ),
            base + len * PG_SIZE == run ==> self.merged(
                rd1,
                before,
                rd0,
                base,
                len,
                base,
                len + rlen,
            ),
    {
        self.lemma_took_run(before, rd0, rd1, run, rlen);
        before.lemma_run_ok(rd0, run, rlen);
        assert forall|p: int| in_run(run as int, rlen, p) implies before.free_page(p) by {}
        assert forall|p: int| in_run(base as int, len, p) implies !before.free_page(p) by {
            assert(before.allocated(p));
        }
        if run + rlen * PG_SIZE == base {
            assert(page_of(base as int) == page_of(run as int) + rlen);
        } else {
            assert(page_of(run as int) == page_of(base as int) + len);
        }
    }

    /// A range that gains nothing stays as it is.
    pub proof fn lemma_merged_none(
        &self,
        rd: &RadixTree,
        before: &FreeList,
        rd0: &RadixTree,
        base: usize,
        len: int,
    )
        requires
            before.clear_alloc(rd0, base, len),
            self.same_as(rd, before, rd0),
        ensures
            self.merged(rd, before, rd0, base, len, base, len),
    {
        self.lemma_same_alloc(rd, before, rd0);
        assert forall|p: int| in_run(base as int, len, p) implies !before.free_page(p) by {
            assert(before.allocated(p));
        }
    }

    /// Merges the free run that ends just before the allocated range of
    /// `npages` pages at `ptr`, if there is one, into the range, and
    /// returns the number of pages gained.
    pub fn merge_prev(&mut self, ptr: usize, npages: usize, rd: &mut RadixTree) -> (gained: usize)
        requires
            old(self).wf(old(rd)),
            old(self).clear_alloc(old(rd), ptr, npages as int),
        ensures
            final(self).wf(final(rd)),
            gained == run_before(old(rd), page_of(ptr as int)),
            gained <= BACKEND_MAX_PAGE,
            gained * PG_SIZE < ptr,
            final(self).merged(
                final(rd),
                old(self),
                old(rd),
                ptr,
                npages as int,
                (ptr - gained * PG_SIZE) as usize,
                npages + gained,
            ),
            !final(self).free_page(page_of(ptr as int) - gained - 1),
    {
        proof {
            old(self).lemma_alloc_bounds(old(rd), ptr, npages as int);
            old(self).lemma_run_before(old(rd), ptr, npages as int);
        }
        let page: u64 = (ptr as u64) / (PG_SIZE as u64);
        let pflag: i64 = rd.lookup(page - 1);
        if pflag < 0 {
            let plen: usize = (-pflag) as usize;
            let start: usize = ptr - plen * PG_SIZE;
            match self.remove_spec_one(plen - 1, start, rd) {
                Some(_) => {
                    proof {
                        self.lemma_merged(
                            old(self),
                            old(rd),
                            rd,
                            ptr,
                            npages as int,
                            start,
                            plen as int,
                        );
                        old(self).lemma_gap(old(rd), start, plen as int);
                        assert(page_of(start as int) == page_of(ptr as int) - plen);
                    }
                    return plen;
                },
                None => {},
            }
        }
        proof {
            self.lemma_same_alloc(rd, old(self), old(rd));
            self.lemma_merged_none(rd, old(self), old(rd), ptr, npages as int);
        }
        0
    }

    /// The pages on both sides of a free run are not free.
    pub proof fn lemma_gap(&self, rd: &RadixTree, run: usize, rlen: int)
        requires
            self.wf(rd),
            self.has_run(run, rlen),
        ensures
            !self.free_page(page_of(run as int) - 1),
            !self.free_page(page_of(run as int) + rlen),
    {
        reveal(FreeList::inv);
        let q1 = page_of(run as int) - 1;
        if self.free_page(q1) {
            let (b, l) = choose|b: usize, l: int| #[trigger]
                self.has_run(b, l) && in_run(b as int, l, q1);
            assert(apart(b as int, l, run as int, rlen));
        }
        let q2 = page_of(run as int) + rlen;
        if self.free_page(q2) {
            let (b, l) = choose|b: usize, l: int| #[trigger]
                self.has_run(b, l) && in_run(b as int, l, q2);
            assert(apart(b as int, l, run as int, rlen));
        }
    }

    /// Merges the free run that starts just after the allocated range of
    /// `npages` pages at `ptr`, if there is one, into the range, and
    /// returns the number of pages gained.
    pub fn merge_next(&mut self, ptr: usize, npages: usize, rd: &mut RadixTree) -> (gained: usize)
        requires
            old(self).wf(old(rd)),
            old(self).clear_alloc(old(rd), ptr, npages as int),
        ensures
            final(self).wf(final(rd)),
            gained == run_after(old(rd), page_of(ptr as int) + npages),
            gained <= BACKEND_MAX_PAGE,
            final(self).merged(
                final(rd),
                old(self),
                old(rd),
                ptr,
                npages as int,
                ptr,
                npages + gained,
            ),
            !final(self).free_page(page_of(ptr as int) + npages + gained),
    {
        proof {
            old(self).lemma_alloc_bounds(old(rd), ptr, npages as int);
            old(self).lemma_run_after(old(rd), ptr, npages as int);
        }
        let page: u64 = (ptr as u64) / (PG_SIZE as u64);
        let nflag: i64 = rd.lookup(page + npages as u64);
        if nflag < 0 {
            let nlen: usize = (-nflag) as usize;
            let start: usize = ptr + npages * PG_SIZE;
            match self.remove_spec_one(nlen - 1, start, rd) {
                Some(_) => {
                    proof {
                        self.lemma_merged(
                            old(self),
                            old(rd),
                            rd,
                            ptr,
                            npages as int,
                            start,
                            nlen as int,
                        );
                        old(self).lemma_gap(old(rd), start, nlen as int);
                        assert(page_of(start as int) == page_of(ptr as int) + npages);
                    }
                    return nlen;
                },
                None => {},
            }
        }
        proof {
            self.lemma_same_alloc(rd, old(self), old(rd));
            self.lemma_merged_none(rd, old(self), old(rd), ptr, npages as int);
        }
        0
    }
}

impl FreeList {
    /// Giving an allocated range without tags back to the system keeps
    /// the invariant; its pages are no longer managed.
    pub proof fn lemma_released(&self, before: &FreeList, rd: &RadixTree, base: usize, len: int)
        requires
            before.wf(rd),
            before.clear_alloc(rd, base, len),
            self.lists@ == before.lists@,
            self.bump == before.bump,
            self.managed@ == before.managed@.difference(Set::new(|p: int| in_run(base as int, len, p))),
        ensures
            self.wf(rd),
            forall|p: int| self.free_page(p) <==> before.free_page(p),
            forall|p: int| self.allocated(p) <==> (before.allocated(p) && !in_run(base as int, len, p)),
    {
        reveal(FreeList::inv);
        assert forall|b: usize, l: int| self.has_run(b, l) <==> before.has_run(b, l) by {}
        assert forall|p: int| self.free_page(p) <==> before.free_page(p) by {
            if self.free_page(p) {
                let (b, l) = choose|b: usize, l: int| #[trigger]
                    self.has_run(b, l) && in_run(b as int, l, p);
                assert(before.has_run(b, l));
            }
            if before.free_page(p) {
                let (b, l) = choose|b: usize, l: int| #[trigger]
                    before.has_run(b, l) && in_run(b as int, l, p);
                assert(self.has_run(b, l));
            }
        }
        assert forall|b: usize, l: int| #[trigger] self.has_run(b, l) implies self.run_ok(
            rd,
            b,
            l,
        ) by {
            assert(before.has_run(b, l));
            assert(before.run_ok(rd, b, l));
            assert forall|p: int| in_run(b as int, l, p) implies #[trigger] self.managed@.contains(
                p,
            ) by {
                assert(before.free_page(p));
                if in_run(base as int, len, p) {
                    assert(before.allocated(p));
                }
            }
        }
        assert forall|p: int| #[trigger] rd.tag(p) < 0 implies exists|b: usize, l: int| #[trigger]
            self.has_run(b, l) && (p == page_of(b as int) || p == page_of(b as int) + l - 1) by {
            let (b, l) = choose|b: usize, l: int| #[trigger]
                before.has_run(b, l) && (p == page_of(b as int) || p == page_of(b as int) + l - 1);
            assert(self.has_run(b, l));
        }
        assert forall|a1: usize, l1: int, a2: usize, l2: int|
            #[trigger] self.has_run(a1, l1) && #[trigger] self.has_run(a2, l2) && (a1 != a2 || l1
                != l2) implies apart(a1 as int, l1, a2 as int, l2) by {
            assert(before.has_run(a1, l1));
            assert(before.has_run(a2, l2));
        }
        assert forall|p: int| !self.managed@.contains(p) implies #[trigger] rd.tag(p) == 0 by {
            if in_run(base as int, len, p) {
                assert(before.allocated(p));
            }
        }
    }

    /// The outcome of the two merges of `free_pages`, told of the state
    /// before them.
    pub proof fn lemma_merged_twice(
        &self,
        rd2: &RadixTree,
        mid: &FreeList,
        rd1: &RadixTree,
        before: &FreeList,
        rd0: &RadixTree,
        ptr: usize,
        n: int,
        b1: usize,
        n1: int,
        n2: int,
    )
        requires
            before.clear_alloc(rd0, ptr, n),
            mid.merged(rd1, before, rd0, ptr, n, b1, n1),
            self.merged(rd2, mid, rd1, b1, n1, b1, n2),
        ensures
            self.clear_alloc(rd2, b1, n2),
            forall|p: int|
                self.allocated(p) && !in_run(b1 as int, n2, p) <==> before.allocated(p) && !in_run(
                    ptr as int,
                    n,
                    p,
                ),
            forall|p: int| !in_run(b1 as int, n2, p) ==> (self.free_page(p) <==> before.free_page(p)),
            forall|p: int| before.allocated(p) ==> rd2.tag(p) == rd0.tag(p),
            forall|p: int| before.allocated(p) ==> self.allocated(p),
    {
        assert forall|p: int|
            self.allocated(p) && !in_run(b1 as int, n2, p) <==> before.allocated(p) && !in_run(
                ptr as int,
                n,
                p,
            ) by {
            if in_run(b1 as int, n2, p) && !in_run(ptr as int, n, p) {
                if in_run(b1 as int, n1, p) {
                    assert(before.free_page(p));
                } else {
                    assert(mid.free_page(p));
                    assert(before.free_page(p));
                }
            }
            if in_run(ptr as int, n, p) {
                assert(in_run(b1 as int, n1, p));
            }
        }
        assert forall|p: int| before.allocated(p) implies rd2.tag(p) == rd0.tag(p) by {
            assert(mid.allocated(p));
        }
    }

    /// Takes back the `size` bytes, in whole pages, at `ptr`.
    ///
    /// The range is merged with the free run that ends just before it and
    /// with the free run that starts just after it, if there are such
    /// runs. A merged range of at most `BACKEND_MAX_PAGE` pages becomes
    /// the head of the list of its length. A longer one leaves the
    /// backend: its base and byte length are returned, for the caller to
    /// hand the range back to the system. The pages of `[ptr, ptr + size)`
    /// are no longer allocated, and nothing changes for other allocated
    /// pages.
    pub fn free_pages(&mut self, ptr: usize, size: usize, rd: &mut RadixTree) -> (r: Option<
        (usize, usize),
    >)
        requires
            old(self).wf(old(rd)),
            0 < size <= usize::MAX - PG_SIZE,
            old(self).clear_alloc(old(rd), ptr, pages_for(size as int)),
        ensures
            final(self).wf(final(rd)),
            final(self).bump == old(self).bump,
            forall|p: int|
                final(self).allocated(p) <==> (old(self).allocated(p) && !in_run(
                    ptr as int,
                    pages_for(size as int),
                    p,
                )),
            forall|p: int| final(self).allocated(p) ==> final(rd).tag(p) == old(rd).tag(p),
            ({
                let n = pages_for(size as int);
                let before = run_before(old(rd), page_of(ptr as int));
                let after = run_after(old(rd), page_of(ptr as int) + n);
                let total = n + before + after;
                let base = (ptr - before * PG_SIZE) as usize;
                &&& r is Some <==> total > BACKEND_MAX_PAGE
                &&& r is None ==> final(self).managed@ == old(self).managed@ && final(self).has_run(
                    base,
                    total,
                ) && final(self).lists[total - 1]@.last() == base
                &&& r matches Some((b, bytes)) ==> b == base && bytes == total * PG_SIZE && final(self).managed@ == old(self).managed@.difference(
                    Set::new(|p: int| in_run(base as int, total, p)),
                ) && forall|p: int| in_run(base as int, total, p) ==> final(rd).tag(p) == 0
            }),
            gave_back(old(self).managed@, final(self).managed@, some_range(r)),
    {
        let npages: usize = (size + PG_SIZE - 1) / PG_SIZE;
        let before: usize = self.merge_prev(ptr, npages, rd);
        let final_ptr: usize = ptr - before * PG_SIZE;
        let ghost mid = *self;
        let ghost rd_mid = *rd;
        proof {
            assert(rd_mid.tag(page_of(ptr as int) + npages) == old(rd).tag(
                page_of(ptr as int) + npages,
            ));
            assert(page_of(final_ptr as int) == page_of(ptr as int) - before);
        }
        let after: usize = self.merge_next(final_ptr, npages + before, rd);
        let total: usize = npages + before + after;
        proof {
            self.lemma_merged_twice(
                rd,
                &mid,
                &rd_mid,
                old(self),
                old(rd),
                ptr,
                npages as int,
                final_ptr,
                npages + before,
                total as int,
            );
            self.lemma_alloc_bounds(rd, final_ptr, total as int);
        }
        if total <= BACKEND_MAX_PAGE {
            let ghost merged = *self;
            let ghost rd_merged = *rd;
            self.insert_one(total - 1, final_ptr, rd);
            proof {
                self.lemma_put_run(&merged, &rd_merged, rd, final_ptr, total as int);
                let s = merged.lists[total - 1]@;
                assert(s.push(final_ptr)[s.len() as int] == final_ptr);
                lemma_gave_nothing(self.managed@);
            }
            None
        } else {
            let ghost merged = *self;
            proof {
                self.managed@ = merged.managed@.difference(
                    Set::new(|p: int| in_run(final_ptr as int, total as int, p)),
                );
                self.lemma_released(&merged, rd, final_ptr, total as int);
                let range = (final_ptr, (total * PG_SIZE) as usize);
                assert(range.1 as int / (PG_SIZE as int) == total);
                assert(range_pages(range) == Set::new(
                    |p: int| in_run(final_ptr as int, total as int, p),
                ));
                assert(range_pages(range).subset_of(merged.managed@)) by {
                    assert forall|p: int| range_pages(range).contains(p) implies merged.managed@.contains(p) by {
                        assert(merged.allocated(p));
                    }
                }
                lemma_gave_one(merged.managed@, self.managed@, range);
            }
            Some((final_ptr, total * PG_SIZE))
        }
    }

    /// Makes `[start, end)` the reserve and returns what was left of the
    /// old one, as a base and a byte length, for the caller to hand back
    /// to the system. Fails with `ELAYOUT`, and changes nothing, unless
    /// the range is page-aligned, starts above address 0 and ends at or
    /// below `ADDRESS_LIMIT`.
    pub fn init_with_range(&mut self, start: usize, end: usize, rd: &RadixTree) -> (r: Result<
        (usize, usize),
        AllocError,
    >)
        requires
            old(self).wf(rd),
            forall|p: int|
                page_of(start as int) <= p < page_of(end as int) ==> !old(self).managed@.contains(p),
        ensures
            final(self).wf(rd),
            r is Ok <==> start % PG_SIZE == 0 && end % PG_SIZE == 0 && 0 < start <= end && end
                <= ADDRESS_LIMIT,
            r is Err ==> r == Err::<(usize, usize), AllocError>(AllocError::ELAYOUT) && *final(self)
                == *old(self),
            r matches Ok(left) ==> {
                &&& left.0 == old(self).bump.current
                &&& left.1 == old(self).bump.remaining()
                &&& final(self).bump.current == start
                &&& final(self).bump.check_point == end
                &&& final(self).lists@ == old(self).lists@
                &&& final(self).managed@ == old(self).managed@
            },
    {
        if start % PG_SIZE != 0 || end % PG_SIZE != 0 || start == 0 || start > end || end as u64
            > ADDRESS_LIMIT {
            return Err(AllocError::ELAYOUT);
        }
        proof {
            reveal(FreeList::inv);
        }
        let left = (self.bump.current, self.bump.check_point - self.bump.current);
        self.bump.init_with_range(start, end);
        proof {
            assert forall|b: usize, l: int| #[trigger] self.has_run(b, l) implies self.run_ok(
                rd,
                b,
                l,
            ) by {
                assert(old(self).has_run(b, l));
                assert(old(self).run_ok(rd, b, l));
            }
            assert forall|p: int| #[trigger] rd.tag(p) < 0 implies exists|b: usize, l: int| #[trigger]
                self.has_run(b, l) && (p == page_of(b as int) || p == page_of(b as int) + l - 1) by {
                let (b, l) = choose|b: usize, l: int| #[trigger]
                    old(self).has_run(b, l) && (p == page_of(b as int) || p == page_of(b as int)
                        + l - 1);
                assert(self.has_run(b, l));
            }
            assert forall|a1: usize, l1: int, a2: usize, l2: int|
                #[trigger] self.has_run(a1, l1) && #[trigger] self.has_run(a2, l2) && (a1 != a2
                    || l1 != l2) implies apart(a1 as int, l1, a2 as int, l2) by {
                assert(old(self).has_run(a1, l1));
                assert(old(self).has_run(a2, l2));
            }
        }
        Ok(left)
    }

    /// Every free run is as long as it can be: no two free runs overlap
    /// or touch.
    pub proof fn lemma_runs_maximal(&self, rd: &RadixTree, a1: usize, l1: int, a2: usize, l2: int)
        requires
            self.wf(rd),
            self.has_run(a1, l1),
            self.has_run(a2, l2),
            a1 != a2 || l1 != l2,
        ensures
            apart(a1 as int, l1, a2 as int, l2),
    {
        reveal(FreeList::inv);
    }

    /// When every managed page is free and the managed pages are one
    /// range, the backend holds at most one free run.
    pub proof fn lemma_all_free_is_one_run(
        &self,
        rd: &RadixTree,
        lo: int,
        hi: int,
        a1: usize,
        l1: int,
        a2: usize,
        l2: int,
    )
        requires
            self.wf(rd),
            forall|p: int| self.managed@.contains(p) <==> lo <= p < hi,
            forall|p: int| !self.allocated(p),
            self.has_run(a1, l1),
            self.has_run(a2, l2),
        ensures
            a1 == a2 && l1 == l2,
    {
        reveal(FreeList::inv);
        if a1 != a2 || l1 != l2 {
            assert(self.run_ok(rd, a1, l1));
            assert(self.run_ok(rd, a2, l2));
            assert(apart(a1 as int, l1, a2 as int, l2));
            let (lo_a, lo_l, hi_a) = if page_of(a1 as int) + l1 < page_of(a2 as int) {
                (a1, l1, a2)
            } else {
                (a2, l2, a1)
            };
            let q = page_of(lo_a as int) + lo_l;
            assert(in_run(lo_a as int, lo_l, q - 1));
            assert(self.managed@.contains(q - 1));
            assert(self.managed@.contains(page_of(hi_a as int))) by {
                assert(in_run(hi_a as int, if hi_a == a1 { l1 } else { l2 }, page_of(hi_a as int)));
            }
            assert(self.managed@.contains(q));
            assert(!self.allocated(q));
            assert(self.free_page(q));
            let (b, l) = choose|b: usize, l: int| #[trigger]
                self.has_run(b, l) && in_run(b as int, l, q);
            assert(apart(b as int, l, lo_a as int, lo_l));
        }
    }

    /// The invariant does not depend on the tags of allocated pages, as
    /// long as they are not negative.
    pub proof fn lemma_tags_frame(&self, rd0: &RadixTree, rd1: &RadixTree)
        requires
            self.wf(rd0),
            rd1.wf(),
            forall|p: int| !self.allocated(p) ==> rd1.tag(p) == rd0.tag(p),
            forall|p: int| self.allocated(p) ==> rd1.tag(p) >= 0,
        ensures
            self.wf(rd1),
    {
        reveal(FreeList::inv);
        assert forall|b: usize, l: int| #[trigger] self.has_run(b, l) implies self.run_ok(
            rd1,
            b,
            l,
        ) by {
            assert(self.run_ok(rd0, b, l));
            assert forall|p: int| in_run(b as int, l, p) implies rd1.tag(p) == rd0.tag(p) by {
                assert(self.free_page(p));
            }
            assert(in_run(b as int, l, page_of(b as int)));
            assert(in_run(b as int, l, page_of(b as int) + l - 1));
        }
        assert forall|p: int| #[trigger] rd1.tag(p) < 0 implies exists|b: usize, l: int| #[trigger]
            self.has_run(b, l) && (p == page_of(b as int) || p == page_of(b as int) + l - 1) by {
            assert(rd0.tag(p) < 0);
        }
    }
}

} // verus!
