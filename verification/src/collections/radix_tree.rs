use crate::PAGE_SIZE;
use vstd::prelude::*;

verus! {

/// Slots in one leaf, and leaves under the head: 2^18 each.
pub const FANOUT: usize = 262144;

/// `FANOUT` as a 64-bit number.
pub const FANOUT64: u64 = 262144;

/// A key is an address shifted left by 16 bits, so the page that a key
/// names is the key divided by 2^28.
pub const KEY_PER_PAGE: u64 = 0x1000_0000;

/// A key is an address times 2^16.
pub const KEY_PER_BYTE: u64 = 0x1_0000;

/// Pages that a two-level tree indexes: 2^36.
pub const TREE_PAGES: u64 = 0x10_0000_0000;

/// Divisor that brings a key down to its top 18 bits (2^46).
pub const KEY_PER_LEAF_SLOT: u64 = 0x4000_0000_0000;

/// The radix tree that indexes the heap: a head over leaves.
pub type RadixTree = RadixNodeHead<RadixBottomNode>;

/// A map from keys to signed tags over a fixed range of slots. A key names
/// one slot; `insert` and `remove` write a run of consecutive slots that
/// starts at the slot of their key.
pub trait TreeNode {
    /// The node's structural invariant.
    spec fn wf(&self) -> bool;

    /// The number of slots; the slots are numbered from 0.
    spec fn capacity(&self) -> int;

    /// The slot that a key names.
    spec fn slot_of(&self, k: usize) -> int;

    /// The tag in a slot; 0 for a slot that was never written.
    spec fn tag(&self, slot: int) -> i64;

    /// Whether the node has memory for a slot. A node that makes its
    /// leaves as they are written has memory for the slots of the leaves
    /// that it has made.
    spec fn made(&self, slot: int) -> bool;

    /// Writes `v` to the `n` slots from the slot of `k` on. Fails, and
    /// changes nothing, when the run does not lie inside the node.
    fn insert(&mut self, k: usize, v: i64, n: usize) -> (r: Result<(), &'static str>)
        requires
            old(self).wf(),
        ensures
            final(self).wf(),
            final(self).capacity() == old(self).capacity(),
            forall|key: usize| final(self).slot_of(key) == old(self).slot_of(key),
            r is Ok <==> 0 <= old(self).slot_of(k) && old(self).slot_of(k) + n <= old(
                self,
            ).capacity(),
            r is Ok ==> forall|s: int|
                #[trigger] final(self).tag(s) == if old(self).slot_of(k) <= s < old(self).slot_of(
                    k,
                ) + n {
                    v
                } else {
                    old(self).tag(s)
                },
            r is Err ==> forall|s: int| #[trigger] final(self).tag(s) == old(self).tag(s),
            forall|s: int| old(self).made(s) ==> #[trigger] final(self).made(s),
            r is Ok ==> forall|s: int|
                old(self).slot_of(k) <= s < old(self).slot_of(k) + n ==> #[trigger] final(self).made(s),
            r is Err ==> forall|s: int| #[trigger] final(self).made(s) == old(self).made(s),
    ;

    /// Writes 0 to the `n` slots from the slot of `k` on. Fails, and
    /// changes nothing, when the run does not lie inside the node.
    fn remove(&mut self, k: usize, n: usize) -> (r: Result<(), &'static str>)
        requires
            old(self).wf(),
        ensures
            final(self).wf(),
            final(self).capacity() == old(self).capacity(),
            forall|key: usize| final(self).slot_of(key) == old(self).slot_of(key),
            r is Ok <==> 0 <= old(self).slot_of(k) && old(self).slot_of(k) + n <= old(
                self,
            ).capacity(),
            r is Ok ==> forall|s: int|
                #[trigger] final(self).tag(s) == if old(self).slot_of(k) <= s < old(self).slot_of(
                    k,
                ) + n {
                    0i64
                } else {
                    old(self).tag(s)
                },
            r is Err ==> forall|s: int| #[trigger] final(self).tag(s) == old(self).tag(s),
            forall|s: int| #[trigger] final(self).made(s) == old(self).made(s),
    ;

    /// The tag in the slot of `k`; 0 when the key names no slot of the node.
    fn get_mut(&mut self, k: usize) -> (v: i64)
        requires
            old(self).wf(),
        ensures
            final(self).wf(),
            final(self).capacity() == old(self).capacity(),
            forall|key: usize| final(self).slot_of(key) == old(self).slot_of(key),
            forall|s: int| #[trigger] final(self).tag(s) == old(self).tag(s),
            v == old(self).tag(old(self).slot_of(k)),
            forall|s: int| #[trigger] final(self).made(s) == old(self).made(s),
    ;
}

/// A leaf: a dense array of `FANOUT` tags.
pub struct RadixBottomNode {
    pub nodes: Vec<i64>,
}

impl RadixBottomNode {
    /// A leaf whose tags are all 0.
    pub fn new() -> (leaf: Self)
        ensures
            leaf.wf(),
            forall|s: int| leaf.tag(s) == 0,
    {
        let nodes: Vec<i64> = vec![0i64; FANOUT];
        RadixBottomNode { nodes }
    }

    /// Writes `v` to the `n` slots from `start` on.
    pub fn fill(&mut self, start: usize, v: i64, n: usize)
        requires
            old(self).wf(),
            start + n <= FANOUT,
        ensures
            final(self).wf(),
            forall|s: int|
                #[trigger] final(self).tag(s) == if start <= s < start + n {
                    v
                } else {
                    old(self).tag(s)
                },
    {
        let mut i: usize = 0;
        while i < n
            invariant
                i <= n,
                start + n <= FANOUT,
                self.nodes.len() == FANOUT,
                forall|s: int|
                    0 <= s < FANOUT ==> #[trigger] self.nodes[s] == if start <= s < start + i {
                        v
                    } else {
                        old(self).nodes[s]
                    },
            decreases n - i,
        {
            self.nodes[start + i] = v;
            i += 1;
        }
    }
}

impl TreeNode for RadixBottomNode {
    open spec fn wf(&self) -> bool {
        self.nodes.len() == FANOUT
    }

    open spec fn capacity(&self) -> int {
        FANOUT as int
    }

    /// A leaf reads the top 18 bits of a 64-bit key.
    open spec fn slot_of(&self, k: usize) -> int {
        (k as int) / (KEY_PER_LEAF_SLOT as int)
    }

    open spec fn made(&self, slot: int) -> bool {
        0 <= slot < FANOUT
    }

    open spec fn tag(&self, slot: int) -> i64 {
        if 0 <= slot < self.nodes.len() {
            self.nodes[slot]
        } else {
            0
        }
    }

    fn insert(&mut self, k: usize, v: i64, n: usize) -> (r: Result<(), &'static str>) {
        let idx: u64 = (k as u64) / KEY_PER_LEAF_SLOT;
        if n > FANOUT || idx > FANOUT64 - n as u64 {
            return Err("run leaves the leaf");
        }
        self.fill(idx as usize, v, n);
        Ok(())
    }

    fn remove(&mut self, k: usize, n: usize) -> (r: Result<(), &'static str>) {
        let idx: u64 = (k as u64) / KEY_PER_LEAF_SLOT;
        if n > FANOUT || idx > FANOUT64 - n as u64 {
            return Err("run leaves the leaf");
        }
        self.fill(idx as usize, 0, n);
        Ok(())
    }

    fn get_mut(&mut self, k: usize) -> (v: i64) {
        let idx: u64 = (k as u64) / KEY_PER_LEAF_SLOT;
        if idx < FANOUT64 {
            self.nodes[idx as usize]
        } else {
            0
        }
    }
}

/// The head of the tree: one optional child per value of the upper 18 bits
/// of a page number. A child is made when a tag is first written under it.
pub struct RadixNodeHead<V> {
    pub nodes: Vec<Option<V>>,
}

/// The page that a key names.
pub open spec fn key_page(k: usize) -> int {
    (k as int) / (KEY_PER_PAGE as int)
}

/// The key of a page-aligned address, as a mathematical integer.
pub open spec fn addr_key(addr: int) -> int {
    addr * (KEY_PER_BYTE as int)
}

impl RadixNodeHead<RadixBottomNode> {
    /// Whether the tree has made its leaf `i`.
    pub open spec fn has_leaf(&self, i: int) -> bool {
        0 <= i < self.nodes.len() && self.nodes[i] is Some
    }

    /// A tree that holds no tag and has made no leaf.
    pub fn new() -> (tree: Self)
        ensures
            tree.wf(),
            forall|s: int| tree.tag(s) == 0,
            forall|i: int| !tree.has_leaf(i),
    {
        let mut nodes: Vec<Option<RadixBottomNode>> = Vec::new();
        let mut i: usize = 0;
        while i < FANOUT
            invariant
                i <= FANOUT,
                nodes.len() == i,
                forall|j: int| 0 <= j < i ==> nodes[j] is None,
            decreases FANOUT - i,
        {
            nodes.push(None);
            i += 1;
        }
        RadixNodeHead { nodes }
    }

    /// Writes `v` to the pages `[page, page + n)`. The leaves of those
    /// pages are made where they are absent, and no other leaf.
    pub fn insert_pages(&mut self, page: u64, v: i64, n: usize)
        requires
            old(self).wf(),
            page + n <= TREE_PAGES,
        ensures
            final(self).wf(),
            forall|s: int|
                #[trigger] final(self).tag(s) == if page <= s < page + n {
                    v
                } else {
                    old(self).tag(s)
                },
            forall|i: int|
                #[trigger] final(self).has_leaf(i) <==> (old(self).has_leaf(i) || (n > 0 && page
                    / FANOUT64 <= i <= (page + n - 1) / (FANOUT as int))),
    {
        let end: u64 = page + n as u64;
        let mut cur: u64 = page;
        while cur < end
            invariant
                forall|i: int|
                    #[trigger] self.has_leaf(i) <==> (old(self).has_leaf(i) || (page < cur && page
                        / FANOUT64 <= i <= (cur - 1) / (FANOUT as int))),
                page <= cur <= end,
                end == page + n,
                end <= TREE_PAGES,
                self.wf(),
                forall|s: int|
                    #[trigger] self.tag(s) == if page <= s < cur {
                        v
                    } else {
                        old(self).tag(s)
                    },
            decreases end - cur,
        {
            let top: usize = (cur / FANOUT64) as usize;
            let off: usize = (cur % FANOUT64) as usize;
            let room: u64 = (FANOUT - off) as u64;
            let cnt: usize = if end - cur < room {
                (end - cur) as usize
            } else {
                FANOUT - off
            };
            let ghost pre = *self;
            if self.nodes[top].is_none() {
                self.nodes[top] = Some(RadixBottomNode::new());
            }
            let ghost before = *self;
            proof {
                assert forall|s: int| #[trigger] before.tag(s) == pre.tag(s) by {
                    if 0 <= s < TREE_PAGES && s / (FANOUT as int) == top && pre.nodes[top as int]
                        is None {
                        assert(before.nodes[top as int]->Some_0.tag(s % (FANOUT as int)) == 0);
                    }
                }
            }
            match &mut self.nodes[top] {
                Some(leaf) => {
                    leaf.fill(off, v, cnt);
                },
                None => {},
            }
            proof {
                assert forall|i: int| #[trigger] self.has_leaf(i) <==> (pre.has_leaf(i) || i == top) by {
                    if 0 <= i < FANOUT && i != top {
                        assert(self.nodes[i] == before.nodes[i]);
                        assert(before.nodes[i] == pre.nodes[i]);
                    }
                }
                assert((cur + cnt - 1) / (FANOUT as int) == top);
                assert(page < cur ==> (cur - 1) / (FANOUT as int) == top || (cur - 1) / (
                FANOUT as int) == top - 1);
                assert(page / FANOUT64 <= top);
                assert forall|s: int|
                    #[trigger] self.tag(s) == if page <= s < cur + cnt {
                        v
                    } else {
                        old(self).tag(s)
                    } by {
                    assert(before.tag(s) == pre.tag(s));
                    if 0 <= s < TREE_PAGES {
                        let t = s / (FANOUT as int);
                        let o = s % (FANOUT as int);
                        if t == top {
                            assert(self.nodes[t]->Some_0.tag(o) == if off <= o < off + cnt {
                                v
                            } else {
                                before.nodes[t]->Some_0.tag(o)
                            });
                        }
                    }
                }
            }
            cur = cur + cnt as u64;
        }
    }

    /// Writes 0 to the pages `[page, page + n)` that lie under a leaf; no
    /// leaf is made.
    pub fn remove_pages(&mut self, page: u64, n: usize)
        requires
            old(self).wf(),
            page + n <= TREE_PAGES,
        ensures
            final(self).wf(),
            forall|s: int|
                #[trigger] final(self).tag(s) == if page <= s < page + n {
                    0i64
                } else {
                    old(self).tag(s)
                },
            forall|i: int| #[trigger] final(self).has_leaf(i) == old(self).has_leaf(i),
    {
        let end: u64 = page + n as u64;
        let mut cur: u64 = page;
        while cur < end
            invariant
                forall|i: int| #[trigger] self.has_leaf(i) == old(self).has_leaf(i),
                page <= cur <= end,
                end == page + n,
                end <= TREE_PAGES,
                self.wf(),
                forall|s: int|
                    #[trigger] self.tag(s) == if page <= s < cur {
                        0i64
                    } else {
                        old(self).tag(s)
                    },
            decreases end - cur,
        {
            let top: usize = (cur / FANOUT64) as usize;
            let off: usize = (cur % FANOUT64) as usize;
            let room: u64 = (FANOUT - off) as u64;
            let cnt: usize = if end - cur < room {
                (end - cur) as usize
            } else {
                FANOUT - off
            };
            let ghost before = *self;
            match &mut self.nodes[top] {
                Some(leaf) => {
                    leaf.fill(off, 0, cnt);
                },
                None => {},
            }
            proof {
                assert forall|i: int| #[trigger] self.has_leaf(i) == before.has_leaf(i) by {
                    if 0 <= i < FANOUT && i != top {
                        assert(self.nodes[i] == before.nodes[i]);
                    }
                }
                assert forall|s: int|
                    #[trigger] self.tag(s) == if page <= s < cur + cnt {
                        0i64
                    } else {
                        old(self).tag(s)
                    } by {
                    assert(before.tag(s) == if page <= s < cur {
                        0i64
                    } else {
                        old(self).tag(s)
                    });
                    if 0 <= s < TREE_PAGES {
                        let t = s / (FANOUT as int);
                        let o = s % (FANOUT as int);
                        if t == top && before.nodes[t] is Some {
                            assert(self.nodes[t]->Some_0.tag(o) == if off <= o < off + cnt {
                                0i64
                            } else {
                                before.nodes[t]->Some_0.tag(o)
                            });
                        }
                    }
                }
            }
            cur = cur + cnt as u64;
        }
    }

    /// The tag of a page; 0 for a page that holds none.
    pub fn lookup(&self, page: u64) -> (v: i64)
        requires
            self.wf(),
        ensures
            v == self.tag(page as int),
    {
        if page >= TREE_PAGES {
            return 0;
        }
        let top: usize = (page / FANOUT64) as usize;
        let off: usize = (page % FANOUT64) as usize;
        match &self.nodes[top] {
            Some(leaf) => leaf.nodes[off],
            None => 0,
        }
    }
}

impl TreeNode for RadixNodeHead<RadixBottomNode> {
    open spec fn wf(&self) -> bool {
        &&& self.nodes.len() == FANOUT
        &&& forall|i: int|
            0 <= i < FANOUT && self.nodes[i] is Some ==> (#[trigger] self.nodes[i])->Some_0.wf()
    }

    open spec fn capacity(&self) -> int {
        TREE_PAGES as int
    }

    /// The head reads a key as a page number.
    open spec fn slot_of(&self, k: usize) -> int {
        key_page(k)
    }

    open spec fn made(&self, slot: int) -> bool {
        0 <= slot < TREE_PAGES && self.has_leaf(slot / (FANOUT as int))
    }

    open spec fn tag(&self, slot: int) -> i64 {
        if 0 <= slot < TREE_PAGES && self.nodes[slot / (FANOUT as int)] is Some {
            self.nodes[slot / (FANOUT as int)]->Some_0.nodes[slot % (FANOUT as int)]
        } else {
            0
        }
    }

    fn insert(&mut self, k: usize, v: i64, n: usize) -> (r: Result<(), &'static str>) {
        let page: u64 = (k as u64) / KEY_PER_PAGE;
        if n as u64 > TREE_PAGES || page > TREE_PAGES - n as u64 {
            return Err("run leaves the tree");
        }
        self.insert_pages(page, v, n);
        Ok(())
    }

    fn remove(&mut self, k: usize, n: usize) -> (r: Result<(), &'static str>) {
        let page: u64 = (k as u64) / KEY_PER_PAGE;
        if n as u64 > TREE_PAGES || page > TREE_PAGES - n as u64 {
            return Err("run leaves the tree");
        }
        self.remove_pages(page, n);
        Ok(())
    }

    fn get_mut(&mut self, k: usize) -> (v: i64) {
        let page: u64 = (k as u64) / KEY_PER_PAGE;
        self.lookup(page)
    }
}

/// A flat index for a heap of fixed place: one tag per page from `base` on.
pub struct ArrayNode {
    pub base: usize,
    pub nodes: Vec<i64>,
}

impl ArrayNode {
    /// An index over no page.
    pub fn new() -> (node: Self)
        ensures
            node.wf(),
            node.base == 0,
            node.capacity() == 0,
    {
        ArrayNode { base: 0, nodes: Vec::new() }
    }

    /// Makes the node index the pages from `start` on, one per entry of
    /// `array`, with the tags that `array` holds.
    pub fn init_with_range(&mut self, start: usize, array: Vec<i64>)
        ensures
            final(self).wf(),
            final(self).base == start,
            final(self).nodes@ == array@,
    {
        self.base = start;
        self.nodes = array;
    }

    /// Grows the index so that it covers the pages from `base` up to
    /// `new_end`; the tags of the pages covered before stay. Returns the
    /// number of pages that were covered before.
    pub fn extend_with_range(&mut self, new_end: usize) -> (count: usize)
        requires
            old(self).wf(),
            old(self).base <= new_end,
            old(self).capacity() <= (new_end - old(self).base) / PAGE_SIZE as int,
        ensures
            final(self).wf(),
            final(self).base == old(self).base,
            count == old(self).capacity(),
            final(self).capacity() == (new_end - old(self).base) / PAGE_SIZE as int,
            forall|s: int| #[trigger] final(self).tag(s) == old(self).tag(s),
    {
        let count = self.nodes.len();
        let pages = (new_end - self.base) / PAGE_SIZE;
        self.nodes.resize(pages, 0i64);
        proof {
            assert forall|s: int| #[trigger] self.tag(s) == old(self).tag(s) by {
                if 0 <= s < count {
                    assert(self.nodes@.subrange(0, count as int)[s] == old(self).nodes@[s]);
                }
            }
        }
        count
    }

    fn slot_index(&self, k: usize) -> (slot: Option<usize>)
        ensures
            slot is Some <==> 0 <= self.slot_of(k),
            slot is Some ==> slot->Some_0 == self.slot_of(k),
    {
        let addr: u64 = (k as u64) / KEY_PER_BYTE;
        if addr < self.base as u64 {
            proof {
                assert((addr - self.base) / (PAGE_SIZE as int) < 0);
            }
            None
        } else {
            Some(((addr - self.base as u64) / PAGE_SIZE as u64) as usize)
        }
    }
}

impl TreeNode for ArrayNode {
    open spec fn wf(&self) -> bool {
        true
    }

    open spec fn capacity(&self) -> int {
        self.nodes.len() as int
    }

    /// A key is an address times 2^16; its slot counts pages from `base`.
    open spec fn slot_of(&self, k: usize) -> int {
        ((k as int) / (KEY_PER_BYTE as int) - self.base) / (PAGE_SIZE as int)
    }

    open spec fn made(&self, slot: int) -> bool {
        0 <= slot < self.nodes.len()
    }

    open spec fn tag(&self, slot: int) -> i64 {
        if 0 <= slot < self.nodes.len() {
            self.nodes[slot]
        } else {
            0
        }
    }

    fn insert(&mut self, k: usize, v: i64, n: usize) -> (r: Result<(), &'static str>) {
        let start = match self.slot_index(k) {
            Some(start) => start,
            None => {
                return Err("key lies below the base");
            },
        };
        if n > self.nodes.len() || start > self.nodes.len() - n {
            return Err("run leaves the index");
        }
        let mut i: usize = 0;
        while i < n
            invariant
                i <= n,
                start + n <= self.nodes.len(),
                self.nodes.len() == old(self).nodes.len(),
                self.base == old(self).base,
                forall|s: int|
                    0 <= s < self.nodes.len() ==> #[trigger] self.nodes[s] == if start <= s < start
                        + i {
                        v
                    } else {
                        old(self).nodes[s]
                    },
            decreases n - i,
        {
            self.nodes[start + i] = v;
            i += 1;
        }
        Ok(())
    }

    fn remove(&mut self, k: usize, n: usize) -> (r: Result<(), &'static str>) {
        let start = match self.slot_index(k) {
            Some(start) => start,
            None => {
                return Err("key lies below the base");
            },
        };
        if n > self.nodes.len() || start > self.nodes.len() - n {
            return Err("run leaves the index");
        }
        let mut i: usize = 0;
        while i < n
            invariant
                i <= n,
                start + n <= self.nodes.len(),
                self.nodes.len() == old(self).nodes.len(),
                self.base == old(self).base,
                forall|s: int|
                    0 <= s < self.nodes.len() ==> #[trigger] self.nodes[s] == if start <= s < start
                        + i {
                        0i64
                    } else {
                        old(self).nodes[s]
                    },
            decreases n - i,
        {
            self.nodes[start + i] = 0;
            i += 1;
        }
        Ok(())
    }

    fn get_mut(&mut self, k: usize) -> (v: i64) {
        match self.slot_index(k) {
            Some(start) => {
                if start < self.nodes.len() {
                    self.nodes[start]
                } else {
                    0
                }
            },
            None => 0,
        }
    }
}

} // verus!
