use crate::buddy_system::buddy::BLOCKS_IN_TREE;
use crate::buddy_system::tree::{
    block_size, block_start, depth, lemma_taken_disjoint, order_of, unused, BuddyTree,
};
use crate::buddy_system::consts::PAGE_SIZE;
use vstd::arithmetic::power2::pow2;
use vstd::prelude::*;

verus! {

/// The position of the highest set bit of `x`; 0 for `x <= 1`.
pub open spec fn floor_log2(x: nat) -> nat
    decreases x,
{
    if x <= 1 {
        0
    } else {
        1 + floor_log2(x / 2)
    }
}

/// The least `k` with `n <= 2^k`.
pub open spec fn ceil_log2(n: nat) -> nat {
    if n <= 1 {
        0
    } else {
        1 + floor_log2((n - 1) as nat)
    }
}

proof fn lemma_leading_zeros_is_log(x: u64)
    requires
        x > 0,
    ensures
        63 - vstd::std_specs::bits::u64_leading_zeros(x) == floor_log2(x as nat),
    decreases x,
{
    reveal_with_fuel(vstd::std_specs::bits::u64_leading_zeros, 3);
    if x > 1 {
        lemma_leading_zeros_is_log(x / 2);
    }
}

/// The binary logarithm of `n`, rounded up.
pub fn log2(n: usize) -> (k: u32)
    ensures
        k == ceil_log2(n as nat),
        k <= 64,
{
    if n <= 1 {
        return 0;
    }
    let m: u64 = (n - 1) as u64;
    proof {
        lemma_leading_zeros_is_log(m);
        vstd::std_specs::bits::axiom_u64_leading_zeros(m);
    }
    64 - m.leading_zeros()
}

/// A size rounded up to whole pages.
pub fn next_page_size(heap_size: usize) -> (size: usize)
    requires
        heap_size <= usize::MAX - PAGE_SIZE,
    ensures
        size == (heap_size + PAGE_SIZE - 1) / (PAGE_SIZE as int) * PAGE_SIZE,
        size >= heap_size,
        size % PAGE_SIZE == 0,
{
    if heap_size % PAGE_SIZE == 0 {
        heap_size
    } else {
        (heap_size + PAGE_SIZE - 1) / PAGE_SIZE * PAGE_SIZE
    }
}

/// The parameters of a buddy system: blocks of 2^BASE_ORDER bytes at
/// order 0, and one block of 2^(BASE_ORDER + MAX_ORDER) bytes at the top.
pub struct BuddySystem<const BASE_ORDER: u8, const MAX_ORDER: u8> {
    /// Where the tree of blocks is kept in memory.
    pub tree_start: usize,
    /// Where the heap begins.
    pub heap_start: usize,
    /// Which blocks are handed out.
    pub tree: BuddyTree<BASE_ORDER, MAX_ORDER>,
}

/// What a reallocation in a buddy system tells its caller to do: the
/// block is now at `ptr` (0 if the request failed and the block stays
/// where it was), and `copy` bytes are to be copied from the old address
/// to `ptr`.
#[derive(Debug, Clone, Copy, PartialEq, Eq, Structural)]
pub struct Regrown {
    pub ptr: usize,
    pub copy: usize,
}

impl<const BASE_ORDER: u8, const MAX_ORDER: u8> BuddySystem<BASE_ORDER, MAX_ORDER> {
    /// The bytes that the tree of blocks takes: one for each block.
    pub fn tree_size() -> (n: usize)
        ensures
            n == BLOCKS_IN_TREE,
    {
        BLOCKS_IN_TREE
    }

    /// The bytes of the heap: 2^(BASE_ORDER + MAX_ORDER).
    pub fn heap_size() -> (n: u64)
        requires
            BASE_ORDER + MAX_ORDER < 64,
        ensures
            n == pow2((BASE_ORDER + MAX_ORDER) as nat),
    {
        proof {
            vstd::bits::lemma_u64_pow2_no_overflow((BASE_ORDER + MAX_ORDER) as nat);
            vstd::bits::lemma_u64_shl_is_mul(1, (BASE_ORDER + MAX_ORDER) as u64);
        }
        1u64 << ((BASE_ORDER + MAX_ORDER) as u64)
    }

    /// The order of the smallest block that holds `val` bytes: the
    /// logarithm of `val`, rounded up, less `BASE_ORDER`, and 0 for a
    /// smaller value.
    pub open spec fn spec_order(val: nat) -> nat {
        if val == 0 || ceil_log2(val) < BASE_ORDER {
            0
        } else {
            (ceil_log2(val) - BASE_ORDER) as nat
        }
    }

    /// The order of the smallest block that holds `val` bytes.
    pub fn order(val: usize) -> (o: u8)
        ensures
            o == Self::spec_order(val as nat),
    {
        if val == 0 {
            return 0;
        }
        let log2: u32 = log2(val);
        let log2: u8 = log2 as u8;
        if log2 >= BASE_ORDER {
            log2 - BASE_ORDER
        } else {
            0
        }
    }

    /// The order of the smallest block that holds `val` bytes.
    pub fn order_checked(val: usize) -> (o: Option<u8>)
        ensures
            o is Some,
            o->Some_0 == Self::spec_order(val as nat),
    {
        Some(Self::order(val))
    }

    /// The order of the smallest block that holds `val` bytes.
    pub fn order_u32(val: usize) -> (o: u32)
        ensures
            o == Self::spec_order(val as nat),
    {
        Self::order(val) as u32
    }

    /// The bytes of a heap whose tree has `level` levels:
    /// 2^(level + BASE_ORDER - 1).
    pub fn get_heap_size_by_level(level: usize) -> (n: u64)
        requires
            1 <= level + BASE_ORDER < 65,
        ensures
            n == pow2((level + BASE_ORDER - 1) as nat),
    {
        let e: u64 = (level + BASE_ORDER as usize - 1) as u64;
        proof {
            vstd::bits::lemma_u64_pow2_no_overflow(e as nat);
            vstd::bits::lemma_u64_shl_is_mul(1, e);
        }
        1u64 << e
    }

    /// The largest size of a request: the largest number of a signed
    /// word.
    pub open spec fn max_request() -> int {
        usize::MAX as int / 2
    }

    /// The invariant of the buddy system: the tree is well-formed, and the
    /// heap lies above address 0 in the addresses of the machine.
    pub open spec fn wf(&self) -> bool {
        &&& self.tree.wf()
        &&& self.heap_start > 0
        &&& self.heap_start + pow2((BASE_ORDER + MAX_ORDER) as nat) <= usize::MAX
    }

    /// The node of the block that a request of `size` bytes gets at the
    /// address `ptr`.
    pub open spec fn node_of(&self, ptr: int, size: int) -> int {
        BuddyTree::<BASE_ORDER, MAX_ORDER>::node_at(
            Self::spec_order(round_to_page(size) as nat) as int,
            ptr - self.heap_start,
        )
    }

    /// Whether a block for `size` bytes at `ptr` is with a user.
    pub open spec fn outstanding(&self, ptr: int, size: int) -> bool {
        let n = self.node_of(ptr, size);
        &&& 0 <= size <= Self::max_request()
        &&& Self::spec_order(round_to_page(size) as nat) <= MAX_ORDER
        &&& self.heap_start <= ptr < self.heap_start + pow2((BASE_ORDER + MAX_ORDER) as nat)
        &&& self.tree.taken(n)
        &&& ptr == self.heap_start + block_start(BASE_ORDER as int, MAX_ORDER as int, n)
        &&& order_of(MAX_ORDER as int, n) == Self::spec_order(round_to_page(size) as nat)
    }

    /// Whether a request of `size` bytes is served: the size is one that
    /// a request may have, and a block of the order that holds it,
    /// rounded up to whole pages, is free.
    pub open spec fn serves(&self, size: usize) -> bool {
        &&& size <= Self::max_request()
        &&& Self::spec_order(round_to_page(size as int) as nat) <= MAX_ORDER
        &&& self.tree.has_room(Self::spec_order(round_to_page(size as int) as nat) as int)
    }

    /// The bytes that a block for `size` bytes may use: those of a block
    /// of its order.
    pub open spec fn usable(size: int) -> int {
        pow2((BASE_ORDER + Self::spec_order(round_to_page(size) as nat)) as nat) as int
    }

    /// Whether a buddy system of these orders can be set up over a heap
    /// at `heap_start`.
    pub open spec fn can_start(heap_start: int) -> bool {
        &&& BuddyTree::<BASE_ORDER, MAX_ORDER>::params_ok()
        &&& heap_start > 0
        &&& heap_start + pow2((BASE_ORDER + MAX_ORDER) as nat) <= usize::MAX
    }

    /// Tells whether a buddy system of these orders can be set up over a
    /// heap at `heap_start`.
    pub fn fits(heap_start: usize) -> (b: bool)
        ensures
            b == Self::can_start(heap_start as int),
    {
        if MAX_ORDER > 30 || BASE_ORDER > 62 - MAX_ORDER || heap_start == 0 {
            return false;
        }
        let bytes: u64 = Self::heap_size();
        bytes <= usize::MAX as u64 && heap_start as u64 <= usize::MAX as u64 - bytes
    }

    /// A buddy system over the heap at `heap_start`, whose tree is kept
    /// at `tree_start`. No block is handed out.
    pub fn new_with_start(heap_start: usize, tree_start: usize) -> (bs: Self)
        requires
            Self::can_start(heap_start as int),
        ensures
            bs.wf(),
            bs.heap_start == heap_start,
            bs.tree_start == tree_start,
            bs.tree.has_room(MAX_ORDER as int),
            forall|p: int, s: int| !bs.outstanding(p, s),
    {
        BuddySystem { tree_start, heap_start, tree: BuddyTree::new() }
    }

    /// Hands out a block for `size` bytes, and returns its address; 0
    /// when the size is larger than a request may be, or when no block
    /// of the order that holds the size, rounded up to whole pages, is
    /// free. The block is one of that order, and the lowest of them that
    /// is free as a whole: no block of that order at a lower address is.
    /// A failure changes no block.
    pub fn allocate(&mut self, size: usize, align: usize) -> (ptr: usize)
        requires
            old(self).wf(),
        ensures
            final(self).wf(),
            final(self).heap_start == old(self).heap_start,
            final(self).tree_start == old(self).tree_start,
            ptr != 0 <==> old(self).serves(size),
            ptr == 0 ==> final(self).tree.flat_blocks@ == old(self).tree.flat_blocks@,
            ptr != 0 ==> {
                let n = final(self).node_of(ptr as int, size as int);
                &&& final(self).outstanding(ptr as int, size as int)
                &&& !old(self).tree.taken(n)
                &&& ptr + Self::usable(size as int) <= old(self).heap_start + pow2(
                    (BASE_ORDER + MAX_ORDER) as nat,
                )
                &&& forall|m: int|
                    m != n ==> (#[trigger] final(self).tree.taken(m) <==> old(self).tree.taken(m))
                &&& unused(old(self).tree.flat_blocks@, MAX_ORDER as int, n)
                &&& forall|m: int|
                    1 <= m < n && depth(m) == depth(n) ==> !#[trigger] unused(
                        old(self).tree.flat_blocks@,
                        MAX_ORDER as int,
                        m,
                    )
            },
    {
        if size > usize::MAX / 2 {
            return 0;
        }
        let rounded: usize = next_page_size(size);
        let order: u8 = Self::order(rounded);
        if order > MAX_ORDER {
            return 0;
        }
        assert(rounded == round_to_page(size as int));
        match self.tree.allocate(order) {
            Some(offset) => {
                let ptr: usize = (offset as usize) + self.heap_start;
                proof {
                    let n = BuddyTree::<BASE_ORDER, MAX_ORDER>::node_at(order as int, offset as int);
                    vstd::arithmetic::power2::lemma_pow2_pos((BASE_ORDER + order) as nat);
                    assert(block_size(BASE_ORDER as int, MAX_ORDER as int, n) == pow2(
                        (BASE_ORDER + order) as nat,
                    ));
                    assert(ptr - self.heap_start == offset);
                    assert(self.node_of(ptr as int, size as int) == n);
                }
                ptr
            },
            None => 0,
        }
    }

    /// Takes back the block for `size` bytes at `ptr`, which is with a
    /// user. For the address 0, or a size larger than a request may be,
    /// nothing is done.
    pub fn deallocate(&mut self, ptr: usize, size: usize)
        requires
            old(self).wf(),
            ptr != 0 && size <= Self::max_request() ==> old(self).outstanding(
                ptr as int,
                size as int,
            ),
        ensures
            final(self).wf(),
            final(self).heap_start == old(self).heap_start,
            final(self).tree_start == old(self).tree_start,
            ptr == 0 || size > Self::max_request() ==> final(self).tree.flat_blocks@ == old(self).tree.flat_blocks@,
            ptr != 0 && size <= Self::max_request() ==> {
                let n = old(self).node_of(ptr as int, size as int);
                &&& !final(self).outstanding(ptr as int, size as int)
                &&& final(self).tree.has_room(
                    Self::spec_order(round_to_page(size as int) as nat) as int,
                )
                &&& forall|m: int|
                    m != n ==> (#[trigger] final(self).tree.taken(m) <==> old(self).tree.taken(m))
            },
    {
        if ptr == 0 || size > usize::MAX / 2 {
            return ;
        }
        let rounded: usize = next_page_size(size);
        let order: u8 = Self::order(rounded);
        let offset: u64 = (ptr - self.heap_start) as u64;
        self.tree.deallocate(offset, order);
    }

    /// Resizes the block for `size` bytes at `ptr`, which is with a user,
    /// to `new_size` bytes.
    ///
    /// When both sizes come to the same number of whole pages, the block
    /// stays as it is. Else a block for `new_size` bytes is handed out
    /// and, once the caller has been told how many bytes to copy, the old
    /// block is taken back. When no new block can be had, the result is
    /// 0 and the old block stays with its user.
    pub fn reallocate(&mut self, ptr: usize, size: usize, new_size: usize, align: usize) -> (r:
        Regrown)
        requires
            old(self).wf(),
            ptr != 0,
            size <= Self::max_request(),
            new_size <= usize::MAX - PAGE_SIZE,
            old(self).outstanding(ptr as int, size as int),
        ensures
            final(self).wf(),
            final(self).heap_start == old(self).heap_start,
            round_to_page(size as int) == round_to_page(new_size as int) ==> r.ptr == ptr && r.copy
                == 0 && final(self).tree.flat_blocks@ == old(self).tree.flat_blocks@,
            round_to_page(size as int) != round_to_page(new_size as int) ==> {
                &&& r.ptr != 0 <==> old(self).serves(new_size)
                &&& r.ptr == 0 ==> r.copy == 0 && final(self).tree.flat_blocks@ == old(self).tree.flat_blocks@
                &&& r.ptr != 0 ==> {
                    let n = final(self).node_of(r.ptr as int, new_size as int);
                    let o = old(self).node_of(ptr as int, size as int);
                    &&& r.copy == if size < new_size {
                        size
                    } else {
                        new_size
                    }
                    &&& n != o
                    &&& final(self).outstanding(r.ptr as int, new_size as int)
                    &&& !old(self).tree.taken(n)
                    &&& !final(self).tree.taken(o)
                    &&& forall|m: int|
                        m != n && m != o ==> (#[trigger] final(self).tree.taken(m) <==> old(self).tree.taken(m))
                }
            },
    {
        if next_page_size(size) == next_page_size(new_size) {
            return Regrown { ptr, copy: 0 };
        }
        let new_ptr = self.allocate(new_size, align);
        if new_ptr == 0 {
            return Regrown { ptr: 0, copy: 0 };
        }
        let copy = if size < new_size {
            size
        } else {
            new_size
        };
        self.deallocate(ptr, size);
        Regrown { ptr: new_ptr, copy }
    }

    /// Tells whether a block for `size` bytes at `ptr` is with a user.
    pub fn is_outstanding(&self, ptr: usize, size: usize) -> (b: bool)
        requires
            self.wf(),
        ensures
            b == self.outstanding(ptr as int, size as int),
    {
        if size > usize::MAX / 2 {
            return false;
        }
        let order: u8 = Self::order(next_page_size(size));
        if order > MAX_ORDER || ptr < self.heap_start {
            return false;
        }
        let offset: usize = ptr - self.heap_start;
        if offset as u64 >= Self::heap_size() {
            return false;
        }
        proof {
            BuddyTree::<BASE_ORDER, MAX_ORDER>::lemma_start_of_located(order as int, offset as int);
            vstd::bits::lemma_u64_pow2_no_overflow((BASE_ORDER + order) as nat);
            vstd::bits::lemma_u64_shl_is_mul(1, (BASE_ORDER + order) as u64);
            vstd::arithmetic::power2::lemma_pow2_pos((BASE_ORDER + order) as nat);
        }
        let block: u64 = 1u64 << ((BASE_ORDER + order) as u64);
        if offset as u64 % block != 0 {
            return false;
        }
        let n: usize = BuddyTree::<BASE_ORDER, MAX_ORDER>::locate(offset as u64, order);
        self.tree.is_taken(n)
    }

    /// No two blocks that are with users share a byte.
    pub proof fn lemma_blocks_disjoint(&self, pa: int, s1: int, pb: int, s2: int)
        requires
            self.wf(),
            self.outstanding(pa, s1),
            self.outstanding(pb, s2),
            pa != pb,
        ensures
            pa + Self::usable(s1) <= pb || pb + Self::usable(s2) <= pa,
    {
        let a = self.node_of(pa, s1);
        let b = self.node_of(pb, s2);
        if a != b {
            lemma_taken_disjoint(
                self.tree.flat_blocks@,
                BASE_ORDER as int,
                MAX_ORDER as int,
                a,
                b,
            );
        }
    }
}

/// A size rounded up to whole pages.
pub open spec fn round_to_page(size: int) -> int {
    (size + PAGE_SIZE - 1) / (PAGE_SIZE as int) * PAGE_SIZE
}

} // verus!
