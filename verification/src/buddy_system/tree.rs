use crate::buddy_system::buddy::Block;
use vstd::arithmetic::power2::{lemma_pow2_pos, lemma_pow2_strictly_increases, lemma_pow2_unfold, pow2};
use vstd::prelude::*;

verus! {

/// The level of node `n` in a tree whose root is node 1 and in which the
/// children of node `n` are the nodes `2n` and `2n + 1`: 0 for the root.
pub open spec fn depth(n: int) -> int
    decreases n,
{
    if n <= 1 {
        0
    } else {
        1 + depth(n / 2)
    }
}

/// Whether node `d` lies below node `a`.
pub open spec fn below(d: int, a: int) -> bool
    decreases d,
{
    a >= 1 && d > a && (d / 2 == a || below(d / 2, a))
}

/// The `order_free` of node `n`.
pub open spec fn val(vals: Seq<Block>, n: int) -> int {
    vals[n - 1].order_free as int
}

/// The order of node `n` in a tree whose root has order `max`.
pub open spec fn order_of(max: int, n: int) -> int {
    max - depth(n)
}

/// Whether what a node that has children holds fits what its children
/// hold. When both children are free as a whole, the node is free as a
/// whole or in use as a whole. Else the node holds the larger of what its
/// children hold.
pub open spec fn settled(vals: Seq<Block>, max: int, n: int) -> bool {
    let o = order_of(max, n);
    let v = val(vals, n);
    let l = val(vals, 2 * n);
    let r = val(vals, 2 * n + 1);
    if l == o && r == o {
        v == o + 1 || v == 0
    } else if l >= r {
        v == l
    } else {
        v == r
    }
}

/// Whether node `n` holds no more than a node of its order can.
pub open spec fn bounded(vals: Seq<Block>, max: int, n: int) -> bool {
    0 <= val(vals, n) <= order_of(max, n) + 1
}

/// The invariant of a tree whose root has order `max`.
pub open spec fn tree_ok(vals: Seq<Block>, max: int) -> bool {
    &&& 0 <= max
    &&& vals.len() == pow2((max + 1) as nat) - 1
    &&& forall|n: int| 1 <= n < pow2((max + 1) as nat) ==> #[trigger] bounded(vals, max, n)
    &&& forall|n: int| 1 <= n < pow2(max as nat) ==> #[trigger] settled(vals, max, n)
}

/// Whether the block of node `n` is handed out: the node is in use, and
/// not because both of its children are.
pub open spec fn taken(vals: Seq<Block>, max: int, n: int) -> bool {
    &&& 1 <= n < pow2((max + 1) as nat)
    &&& val(vals, n) == 0
    &&& n < pow2(max as nat) ==> val(vals, 2 * n) != 0
}

/// The bytes of the block of node `n`, where a block of order 0 has
/// `2^base` bytes.
pub open spec fn block_size(base: int, max: int, n: int) -> int {
    pow2((base + order_of(max, n)) as nat) as int
}

/// The offset of the block of node `n` in the heap.
pub open spec fn block_start(base: int, max: int, n: int) -> int {
    (n - pow2(depth(n) as nat)) * block_size(base, max, n)
}

/// The children of a node lie one level below it.
pub proof fn lemma_depth_child(n: int)
    requires
        n >= 1,
    ensures
        depth(2 * n) == depth(n) + 1,
        depth(2 * n + 1) == depth(n) + 1,
{
    assert((2 * n) / 2 == n);
    assert((2 * n + 1) / 2 == n);
}

/// The nodes of level `k` are the nodes from `2^k` up to `2^(k + 1) - 1`.
pub proof fn lemma_depth_pow(n: int)
    requires
        n >= 1,
    ensures
        depth(n) >= 0,
        pow2(depth(n) as nat) <= n < pow2((depth(n) + 1) as nat),
    decreases n,
{
    if n <= 1 {
        vstd::arithmetic::power2::lemma2_to64();
    } else {
        lemma_depth_pow(n / 2);
        lemma_pow2_unfold(depth(n) as nat);
        lemma_pow2_unfold((depth(n) + 1) as nat);
    }
}

/// A node between `2^k` and `2^(k + 1) - 1` lies in level `k`.
pub proof fn lemma_depth_is(n: int, k: int)
    requires
        0 <= k,
        pow2(k as nat) <= n < pow2((k + 1) as nat),
    ensures
        depth(n) == k,
{
    lemma_pow2_pos(k as nat);
    lemma_depth_pow(n);
    let d = depth(n);
    if d < k {
        if d + 1 < k {
            lemma_pow2_strictly_increases((d + 1) as nat, k as nat);
        }
    } else if d > k {
        if k + 1 < d {
            lemma_pow2_strictly_increases((k + 1) as nat, d as nat);
        }
    }
}

/// A node below `2^k` lies above level `k`.
pub proof fn lemma_depth_lt(n: int, k: int)
    requires
        0 <= k,
        1 <= n < pow2(k as nat),
    ensures
        depth(n) < k,
{
    lemma_depth_pow(n);
    let d = depth(n);
    if d >= k {
        if d > k {
            lemma_pow2_strictly_increases(k as nat, d as nat);
        }
    }
}

/// A node that is no leaf has children in the tree, one order below it.
pub proof fn lemma_children(max: int, n: int)
    requires
        0 <= max,
        1 <= n < pow2(max as nat),
    ensures
        2 * n + 1 < pow2((max + 1) as nat),
        order_of(max, n) >= 1,
        order_of(max, 2 * n) == order_of(max, n) - 1,
        order_of(max, 2 * n + 1) == order_of(max, n) - 1,
{
    lemma_pow2_unfold((max + 1) as nat);
    lemma_depth_lt(n, max);
    lemma_depth_child(n);
}

/// A node below another has a larger number, twice as large at least.
pub proof fn lemma_below_larger(d: int, a: int)
    requires
        below(d, a),
    ensures
        d >= 2 * a,
    decreases d,
{
    if d / 2 != a {
        lemma_below_larger(d / 2, a);
    }
}

/// Under a node whose children are both free as a whole, every node is
/// free as a whole.
pub proof fn lemma_pristine(vals: Seq<Block>, max: int, a: int, d: int)
    requires
        tree_ok(vals, max),
        1 <= a < pow2(max as nat),
        val(vals, 2 * a) == order_of(max, a),
        val(vals, 2 * a + 1) == order_of(max, a),
        below(d, a),
        d < pow2((max + 1) as nat),
    ensures
        val(vals, d) == order_of(max, d) + 1,
    decreases d,
{
    let p = d / 2;
    lemma_children(max, a);
    if p == a {
    } else {
        lemma_pow2_unfold((max + 1) as nat);
        lemma_pristine(vals, max, a, p);
        lemma_children(max, p);
        assert(settled(vals, max, p));
        assert(bounded(vals, max, 2 * p));
        assert(bounded(vals, max, 2 * p + 1));
    }
}

/// No block below a block that is handed out is handed out.
pub proof fn lemma_taken_apart(vals: Seq<Block>, max: int, a: int, d: int)
    requires
        tree_ok(vals, max),
        taken(vals, max, a),
        below(d, a),
        d < pow2((max + 1) as nat),
    ensures
        !taken(vals, max, d),
        val(vals, d) == order_of(max, d) + 1,
{
    lemma_below_larger(d, a);
    lemma_pow2_unfold((max + 1) as nat);
    assert(a < pow2(max as nat));
    lemma_children(max, a);
    assert(settled(vals, max, a));
    assert(bounded(vals, max, 2 * a));
    assert(bounded(vals, max, 2 * a + 1));
    lemma_pristine(vals, max, a, d);
    lemma_depth_pow(d);
    lemma_depth_lt(d, max + 1);
}

/// The block of a node is made of the blocks of its children: the left
/// child has the first half, the right child the second.
pub proof fn lemma_child_blocks(base: int, max: int, n: int)
    requires
        0 <= base,
        0 <= max,
        1 <= n < pow2(max as nat),
    ensures
        block_size(base, max, n) == 2 * block_size(base, max, 2 * n),
        block_size(base, max, 2 * n + 1) == block_size(base, max, 2 * n),
        block_size(base, max, 2 * n) > 0,
        block_start(base, max, 2 * n) == block_start(base, max, n),
        block_start(base, max, 2 * n + 1) == block_start(base, max, n) + block_size(
            base,
            max,
            2 * n,
        ),
        block_start(base, max, n) >= 0,
{
    lemma_children(max, n);
    lemma_depth_child(n);
    lemma_depth_pow(n);
    let d = depth(n);
    let s = base + max - d;
    lemma_pow2_unfold(s as nat);
    lemma_pow2_unfold((d + 1) as nat);
    lemma_pow2_pos((s - 1) as nat);
    let h = pow2((s - 1) as nat) as int;
    let w = pow2(d as nat) as int;
    assert(block_size(base, max, 2 * n) == h);
    assert(block_size(base, max, n) == 2 * h);
    assert((2 * n - 2 * w) * h == (n - w) * (2 * h)) by (nonlinear_arith);
    assert((2 * n + 1 - 2 * w) * h == (n - w) * (2 * h) + h) by (nonlinear_arith);
    assert((n - w) * (2 * h) >= 0) by (nonlinear_arith)
        requires
            n >= w,
            h > 0,
    ;
}

/// The block of a node lies inside the block of every node above it.
pub proof fn lemma_block_inside(base: int, max: int, d: int, a: int)
    requires
        0 <= base,
        0 <= max,
        below(d, a),
        d < pow2((max + 1) as nat),
    ensures
        block_start(base, max, a) <= block_start(base, max, d),
        block_start(base, max, d) + block_size(base, max, d) <= block_start(base, max, a)
            + block_size(base, max, a),
    decreases d,
{
    let p = d / 2;
    lemma_pow2_unfold((max + 1) as nat);
    lemma_below_larger(d, a);
    lemma_child_blocks(base, max, p);
    if p != a {
        lemma_block_inside(base, max, p, a);
    }
}

/// Two nodes of which neither lies below the other have blocks that
/// share no byte.
pub proof fn lemma_blocks_apart(base: int, max: int, a: int, b: int)
    requires
        0 <= base,
        0 <= max,
        1 <= a < pow2((max + 1) as nat),
        1 <= b < pow2((max + 1) as nat),
        a != b,
        !below(a, b),
        !below(b, a),
    ensures
        block_start(base, max, a) + block_size(base, max, a) <= block_start(base, max, b)
            || block_start(base, max, b) + block_size(base, max, b) <= block_start(base, max, a),
    decreases a + b,
{
    lemma_pow2_unfold((max + 1) as nat);
    if a < b {
        let p = b / 2;
        lemma_child_blocks(base, max, p);
        if below(a, p) {
            lemma_below_larger(a, p);
        } else {
            lemma_blocks_apart(base, max, a, p);
        }
    } else {
        let p = a / 2;
        lemma_child_blocks(base, max, p);
        if below(b, p) {
            lemma_below_larger(b, p);
        } else {
            lemma_blocks_apart(base, max, b, p);
        }
    }
}

/// No two blocks that are handed out share a byte.
pub proof fn lemma_taken_disjoint(vals: Seq<Block>, base: int, max: int, a: int, b: int)
    requires
        0 <= base,
        tree_ok(vals, max),
        taken(vals, max, a),
        taken(vals, max, b),
        a != b,
    ensures
        block_start(base, max, a) + block_size(base, max, a) <= block_start(base, max, b)
            || block_start(base, max, b) + block_size(base, max, b) <= block_start(base, max, a),
{
    if below(a, b) {
        lemma_taken_apart(vals, max, b, a);
    }
    if below(b, a) {
        lemma_taken_apart(vals, max, a, b);
    }
    lemma_blocks_apart(base, max, a, b);
}

/// A node that lies below a child of a node lies below the node.
pub proof fn lemma_below_parent(d: int, c: int)
    requires
        below(d, c),
        c >= 2,
    ensures
        below(d, c / 2),
    decreases d,
{
    let p = c / 2;
    assert(below(c, p));
    if d / 2 != c {
        lemma_below_parent(d / 2, c);
    }
}

/// The node above a node that is a node or lies below it is that node
/// or lies below it, unless the two are the same.
pub proof fn lemma_up(n: int, cur: int)
    requires
        cur >= 2,
        cur == n || below(n, cur),
    ensures
        below(n, cur / 2),
        cur / 2 >= 1,
{
    if cur != n {
        lemma_below_parent(n, cur);
    }
}

/// Changing what one node holds changes whether three nodes at most
/// are settled.
pub proof fn lemma_settled_frame(vals: Seq<Block>, after: Seq<Block>, max: int, p: int, m: int)
    requires
        0 <= max,
        vals.len() == pow2((max + 1) as nat) - 1,
        1 <= p <= vals.len(),
        after == vals.update(p - 1, after[p - 1]),
        1 <= m < pow2(max as nat),
        m != p,
        2 * m != p,
        2 * m + 1 != p,
        settled(vals, max, m),
    ensures
        settled(after, max, m),
{
    lemma_children(max, m);
}

/// Whether the block of node `m` is free as a whole and can be handed
/// out: the node holds one more than its order, and no node above it is
/// in use.
pub open spec fn unused(vals: Seq<Block>, max: int, m: int) -> bool {
    &&& 1 <= m < pow2((max + 1) as nat)
    &&& val(vals, m) == order_of(max, m) + 1
    &&& forall|a: int| #[trigger] below(m, a) ==> val(vals, a) > 0
}

/// A node that lies below another is a child of that node or lies below
/// one.
pub proof fn lemma_path_child(n: int, m: int) -> (c: int)
    requires
        below(n, m),
    ensures
        c == 2 * m || c == 2 * m + 1,
        c == n || below(n, c),
    decreases n,
{
    if n / 2 == m {
        n
    } else {
        let c = lemma_path_child(n / 2, m);
        lemma_below_larger(n / 2, m);
        assert(below(n, c));
        c
    }
}

/// Every node above a block that can be handed out holds at least what
/// that block's node holds.
pub proof fn lemma_unused_above(vals: Seq<Block>, max: int, d: int, x: int)
    requires
        tree_ok(vals, max),
        unused(vals, max, d),
        below(d, x),
    ensures
        val(vals, x) >= order_of(max, d) + 1,
    decreases d - x,
{
    let c = lemma_path_child(d, x);
    lemma_below_larger(d, x);
    lemma_pow2_unfold((max + 1) as nat);
    assert(x < pow2(max as nat));
    lemma_children(max, x);
    assert(settled(vals, max, x));
    assert(bounded(vals, max, 2 * x));
    assert(bounded(vals, max, 2 * x + 1));
    assert(val(vals, x) > 0);
    if c != d {
        lemma_unused_above(vals, max, d, c);
    }
}

/// A buddy tree over a heap of `2^(BASE_ORDER + MAX_ORDER)` bytes: the
/// root stands for the whole heap, and the two children of a node stand
/// for the two halves of its block. The nodes are kept level by level,
/// node `n` at index `n - 1`.
pub struct BuddyTree<const BASE_ORDER: u8, const MAX_ORDER: u8> {
    pub flat_blocks: Vec<Block>,
}

impl<const BASE_ORDER: u8, const MAX_ORDER: u8> BuddyTree<BASE_ORDER, MAX_ORDER> {
    /// The tree is no larger than a vector can index on every machine,
    /// and its heap no larger than 64 bits can address.
    pub open spec fn params_ok() -> bool {
        MAX_ORDER <= 30 && BASE_ORDER + MAX_ORDER <= 62
    }

    /// The invariant of the tree.
    pub open spec fn wf(&self) -> bool {
        Self::params_ok() && tree_ok(self.flat_blocks@, MAX_ORDER as int)
    }

    /// Whether the block of node `n` is handed out.
    pub open spec fn taken(&self, n: int) -> bool {
        taken(self.flat_blocks@, MAX_ORDER as int, n)
    }

    /// Whether a block of order `order` is free.
    pub open spec fn has_room(&self, order: int) -> bool {
        val(self.flat_blocks@, 1) > order
    }

    /// The node of the block of order `order` that holds the byte at
    /// offset `ptr`.
    pub open spec fn node_at(order: int, ptr: int) -> int {
        pow2((MAX_ORDER - order) as nat) + ptr / (pow2((BASE_ORDER + order) as nat) as int)
    }

    /// The offset of the block of node `n`.
    pub open spec fn start_of(n: int) -> int {
        block_start(BASE_ORDER as int, MAX_ORDER as int, n)
    }

    /// The bytes of the block of node `n`.
    pub open spec fn size_of(n: int) -> int {
        block_size(BASE_ORDER as int, MAX_ORDER as int, n)
    }

    /// The node at `index` of the vector: node `index + 1` of the tree.
    pub fn block(&self, index: usize) -> (b: &Block)
        requires
            index < self.flat_blocks@.len(),
        ensures
            *b == self.flat_blocks@[index as int],
    {
        &self.flat_blocks[index]
    }

    /// The number of blocks of order 0 in a block of order `order`.
    pub fn blocks_in_level(order: u8) -> (n: usize)
        requires
            order <= 30,
        ensures
            n == pow2(order as nat),
    {
        proof {
            vstd::bits::lemma_u64_pow2_no_overflow(order as nat);
            vstd::bits::lemma_u64_shl_is_mul(1, order as u64);
            lemma_pow2_strictly_increases(order as nat, 31);
            vstd::arithmetic::power2::lemma2_to64();
        }
        (1u64 << (order as u64)) as usize
    }

    /// A tree in which no block is handed out.
    pub fn new() -> (tree: Self)
        requires
            Self::params_ok(),
        ensures
            tree.wf(),
            tree.has_room(MAX_ORDER as int),
            forall|n: int| !tree.taken(n),
    {
        let mut flat_blocks: Vec<Block> = Vec::new();
        let mut level: u8 = 0;
        proof {
            vstd::arithmetic::power2::lemma2_to64();
        }
        while level <= MAX_ORDER
            invariant
                Self::params_ok(),
                level <= MAX_ORDER + 1,
                flat_blocks@.len() == pow2(level as nat) - 1,
                forall|n: int|
                    1 <= n <= flat_blocks@.len() ==> #[trigger] val(flat_blocks@, n) == MAX_ORDER
                        - depth(n) + 1,
            decreases MAX_ORDER + 1 - level,
        {
            let count: usize = Self::blocks_in_level(level);
            let ghost first = flat_blocks@.len() + 1;
            let mut k: usize = 0;
            proof {
                lemma_pow2_unfold((level + 1) as nat);
                lemma_pow2_strictly_increases(level as nat, 31);
                vstd::arithmetic::power2::lemma2_to64();
            }
            while k < count
                invariant
                    Self::params_ok(),
                    level <= MAX_ORDER,
                    k <= count,
                    count == pow2(level as nat),
                    count < 0x8000_0000,
                    first == pow2(level as nat),
                    flat_blocks@.len() == first - 1 + k,
                    forall|n: int|
                        1 <= n <= flat_blocks@.len() ==> #[trigger] val(flat_blocks@, n)
                            == MAX_ORDER - depth(n) + 1,
                decreases count - k,
            {
                let ghost before = flat_blocks@;
                flat_blocks.push(Block::new_free(MAX_ORDER - level));
                proof {
                    let n = first + k;
                    lemma_pow2_unfold((level + 1) as nat);
                    lemma_depth_is(n, level as int);
                    assert forall|m: int| 1 <= m <= flat_blocks@.len() implies #[trigger] val(
                        flat_blocks@,
                        m,
                    ) == MAX_ORDER - depth(m) + 1 by {
                        if m < n {
                            assert(val(before, m) == MAX_ORDER - depth(m) + 1);
                        }
                    }
                }
                k += 1;
            }
            level += 1;
        }
        let tree = BuddyTree { flat_blocks };
        proof {
            let vals = tree.flat_blocks@;
            let max = MAX_ORDER as int;
            assert forall|n: int| 1 <= n < pow2((max + 1) as nat) implies #[trigger] bounded(
                vals,
                max,
                n,
            ) by {
                assert(val(vals, n) == MAX_ORDER - depth(n) + 1);
                lemma_depth_lt(n, max + 1);
            }
            assert forall|n: int| 1 <= n < pow2(max as nat) implies #[trigger] settled(
                vals,
                max,
                n,
            ) by {
                lemma_children(max, n);
                assert(val(vals, n) == MAX_ORDER - depth(n) + 1);
                assert(val(vals, 2 * n) == MAX_ORDER - depth(2 * n) + 1);
                assert(val(vals, 2 * n + 1) == MAX_ORDER - depth(2 * n + 1) + 1);
            }
            assert forall|n: int| !tree.taken(n) by {
                if 1 <= n < pow2((max + 1) as nat) {
                    assert(val(vals, n) == MAX_ORDER - depth(n) + 1);
                    lemma_depth_lt(n, max + 1);
                }
            }
            assert(val(vals, 1) == MAX_ORDER - depth(1) + 1);
            lemma_pow2_pos((max + 1) as nat);
            lemma_pow2_unfold((max + 1) as nat);
            lemma_pow2_pos(max as nat);
        }
        tree
    }

    /// Hands out a block of order `desired_order`, and returns its
    /// offset in the heap; `None` when no such block is free.
    ///
    /// The search goes down from the root, into the left child wherever
    /// a block of the order is free under it, else into the right. The
    /// block that it ends at was free as a whole and is handed out now;
    /// no block of the order on its left was free as a whole, so it is
    /// the lowest such block. No other block is handed out or comes back.
    pub fn allocate(&mut self, desired_order: u8) -> (r: Option<u64>)
        requires
            old(self).wf(),
            desired_order <= MAX_ORDER,
        ensures
            final(self).wf(),
            r is Some <==> old(self).has_room(desired_order as int),
            r is None ==> final(self).flat_blocks@ == old(self).flat_blocks@,
            r matches Some(addr) ==> {
                let n = Self::node_at(desired_order as int, addr as int);
                &&& order_of(MAX_ORDER as int, n) == desired_order
                &&& addr == Self::start_of(n)
                &&& addr + Self::size_of(n) <= pow2((BASE_ORDER + MAX_ORDER) as nat)
                &&& !old(self).taken(n)
                &&& final(self).taken(n)
                &&& forall|m: int| m != n ==> (#[trigger] final(self).taken(m) <==> old(self).taken(m))
                &&& unused(old(self).flat_blocks@, MAX_ORDER as int, n)
                &&& forall|m: int|
                    1 <= m < n && depth(m) == depth(n) ==> !#[trigger] unused(
                        old(self).flat_blocks@,
                        MAX_ORDER as int,
                        m,
                    )
            },
    {
        let ghost max = MAX_ORDER as int;
        let ghost base = BASE_ORDER as int;
        let ghost vals0 = self.flat_blocks@;
        proof {
            lemma_pow2_pos((max + 1) as nat);
            lemma_pow2_unfold((max + 1) as nat);
            lemma_pow2_pos(max as nat);
            assert(bounded(vals0, max, 1));
            vstd::arithmetic::power2::lemma2_to64();
        }
        let root = self.flat_blocks[0].order_free;
        if root == 0 || root - 1 < desired_order {
            return None;
        }
        let mut addr: u64 = 0;
        let mut node: usize = 1;
        let max_level: u8 = MAX_ORDER - desired_order;
        let mut level: u8 = 0;
        while level < max_level
            invariant
                Self::params_ok(),
                max == MAX_ORDER,
                base == BASE_ORDER,
                max_level == MAX_ORDER - desired_order,
                level <= max_level,
                self.flat_blocks@ == vals0,
                tree_ok(vals0, max),
                1 <= node,
                depth(node as int) == level,
                node < pow2((level + 1) as nat),
                val(vals0, node as int) > desired_order,
                addr == block_start(base, max, node as int),
                addr + block_size(base, max, node as int) <= pow2((base + max) as nat),
                forall|m: int| below(node as int, m) ==> val(vals0, m) > desired_order,
                forall|m: int|
                    1 <= m < node && depth(m) == level && order_of(max, m) == desired_order
                        ==> !#[trigger] unused(vals0, max, m),
                forall|m: int, d: int|
                    #[trigger] below(d, m) && 1 <= m < node && depth(m) == level && order_of(max, d)
                        == desired_order ==> !#[trigger] unused(vals0, max, d),
            decreases max_level - level,
        {
            let ghost n0 = node as int;
            proof {
                lemma_pow2_strictly_increases((level + 1) as nat, (max + 1) as nat);
                lemma_pow2_unfold((level + 1) as nat);
                if level + 1 < max {
                    lemma_pow2_strictly_increases((level + 1) as nat, max as nat);
                }
                assert(n0 < pow2(max as nat));
                lemma_children(max, n0);
                lemma_child_blocks(base, max, n0);
                lemma_depth_child(n0);
                assert(settled(vals0, max, n0));
                assert(bounded(vals0, max, 2 * n0));
                assert(bounded(vals0, max, 2 * n0 + 1));
                vstd::arithmetic::power2::lemma2_to64();
                lemma_pow2_strictly_increases((level + 1) as nat, 32);
                lemma_pow2_unfold((level + 2) as nat);
            }
            let left: usize = node * 2;
            let o: u8 = self.flat_blocks[left - 1].order_free;
            if o != 0 && o > desired_order {
                node = left;
            } else {
                let shift: u64 = (BASE_ORDER as u64 + MAX_ORDER as u64) - level as u64 - 1;
                proof {
                    vstd::bits::lemma_u64_pow2_no_overflow(shift as nat);
                    vstd::bits::lemma_u64_shl_is_mul(1, shift);
                    assert(block_size(base, max, 2 * n0) == pow2(shift as nat));
                    vstd::bits::lemma_u64_pow2_no_overflow((base + max) as nat);
                }
                addr = addr + (1u64 << shift);
                node = left + 1;
            }
            proof {
                let c = node as int;
                assert(c / 2 == n0);
                assert forall|m: int| below(c, m) implies val(vals0, m) > desired_order by {
                    if m != n0 {
                        assert(below(n0, m));
                    }
                }
                assert forall|m: int|
                    1 <= m < c && depth(m) == level + 1 && order_of(max, m)
                        == desired_order implies !#[trigger] unused(vals0, max, m) by {
                    assert(m >= 2);
                    let pm = m / 2;
                    assert(depth(pm) == level);
                    assert(below(m, pm));
                }
                assert forall|m: int, d: int|
                    #[trigger] below(d, m) && 1 <= m < c && depth(m) == level + 1 && order_of(
                        max,
                        d,
                    ) == desired_order implies !#[trigger] unused(vals0, max, d) by {
                    assert(m >= 2);
                    let pm = m / 2;
                    assert(depth(pm) == level);
                    lemma_below_parent(d, m);
                    if pm == n0 {
                        if unused(vals0, max, d) {
                            lemma_unused_above(vals0, max, d, m);
                        }
                    }
                }
            }
            level += 1;
        }
        let ghost n = node as int;
        proof {
            lemma_pow2_strictly_increases((level + 1) as nat, (max + 2) as nat);
            if level < max {
                lemma_pow2_strictly_increases((level + 1) as nat, (max + 1) as nat);
            }
            assert(bounded(vals0, max, n));
            vstd::arithmetic::power2::lemma2_to64();
            lemma_pow2_strictly_increases((max + 1) as nat, 32);
        }
        self.flat_blocks[node - 1].order_free = 0;
        let ghost vals1 = self.flat_blocks@;
        proof {
            assert(vals1 == vals0.update(n - 1, vals1[n - 1]));
            assert forall|m: int| 1 <= m < pow2((max + 1) as nat) implies #[trigger] bounded(
                vals1,
                max,
                m,
            ) by {
                assert(bounded(vals0, max, m));
                lemma_depth_lt(m, max + 1);
            }
            assert forall|m: int| 1 <= m < pow2(max as nat) && m != n / 2 implies #[trigger] settled(
                vals1,
                max,
                m,
            ) by {
                assert(settled(vals0, max, m));
                lemma_children(max, m);
                if m != n {
                    lemma_settled_frame(vals0, vals1, max, n, m);
                } else {
                    assert(bounded(vals0, max, n));
                    assert(bounded(vals0, max, 2 * n));
                    assert(bounded(vals0, max, 2 * n + 1));
                    assert(val(vals1, 2 * n) == val(vals0, 2 * n));
                    assert(val(vals1, 2 * n + 1) == val(vals0, 2 * n + 1));
                }
            }
            assert forall|m: int| m != n implies (#[trigger] taken(vals1, max, m) <==> taken(
                vals0,
                max,
                m,
            )) by {
                if 1 <= m < pow2(max as nat) && (2 * m == n) {
                    assert(n / 2 == m);
                    assert(below(n, m));
                }
            }
            if n < pow2(max as nat) {
                lemma_children(max, n);
                assert(settled(vals0, max, n));
                assert(bounded(vals0, max, 2 * n));
                assert(bounded(vals0, max, 2 * n + 1));
            }
        }
        let mut cur: usize = node;
        let mut i: u8 = 0;
        while i < max_level
            invariant
                Self::params_ok(),
                max == MAX_ORDER,
                base == BASE_ORDER,
                max_level == MAX_ORDER - desired_order,
                i <= max_level,
                tree_ok(vals0, max),
                1 <= n < pow2((max + 1) as nat),
                1 <= cur,
                cur == n || below(n, cur as int),
                depth(cur as int) == max_level - i,
                cur < pow2((max_level - i + 1) as nat),
                self.flat_blocks@.len() == vals0.len(),
                forall|m: int|
                    1 <= m < pow2((max + 1) as nat) ==> #[trigger] bounded(self.flat_blocks@, max, m),
                forall|m: int|
                    1 <= m < pow2(max as nat) && m != cur / 2 ==> #[trigger] settled(
                        self.flat_blocks@,
                        max,
                        m,
                    ),
                val(self.flat_blocks@, cur as int) <= order_of(max, cur as int),
                forall|m: int| below(n, m) ==> val(vals0, m) > desired_order,
                forall|m: int| below(cur as int, m) ==> val(self.flat_blocks@, m) == val(vals0, m),
                forall|m: int|
                    m != n ==> (#[trigger] taken(self.flat_blocks@, max, m) <==> taken(vals0, max, m)),
                taken(self.flat_blocks@, max, n),
            decreases max_level - i,
        {
            let ghost c = cur as int;
            let ghost before = self.flat_blocks@;
            proof {
                lemma_depth_pow(c);
                assert(c >= 2) by {
                    if c < 2 {
                        assert(depth(c) == 0);
                    }
                }
                lemma_up(n, c);
                lemma_pow2_strictly_increases((max_level - i + 1) as nat, (max + 2) as nat);
                if max_level - i < max {
                    lemma_pow2_strictly_increases((max_level - i + 1) as nat, (max + 1) as nat);
                }
                lemma_pow2_unfold((max + 1) as nat);
                lemma_pow2_unfold((max_level - i + 1) as nat);
                lemma_children(max, c / 2);
                lemma_depth_child(c / 2);
                vstd::arithmetic::power2::lemma2_to64();
                lemma_pow2_strictly_increases((max + 1) as nat, 32);
                assert(bounded(before, max, 2 * (c / 2)));
                assert(bounded(before, max, 2 * (c / 2) + 1));
            }
            let right_index: usize = cur - cur % 2;
            let parent: usize = cur / 2;
            let left: u8 = self.flat_blocks[right_index - 1].order_free;
            let right: u8 = self.flat_blocks[right_index].order_free;
            self.flat_blocks[parent - 1].order_free = if left >= right {
                left
            } else {
                right
            };
            proof {
                let p = parent as int;
                let after = self.flat_blocks@;
                assert(after == before.update(p - 1, after[p - 1]));
                assert(2 * p == right_index);
                assert forall|m: int| 1 <= m < pow2((max + 1) as nat) implies #[trigger] bounded(
                    after,
                    max,
                    m,
                ) by {
                    assert(bounded(before, max, m));
                }
                assert forall|m: int| 1 <= m < pow2(max as nat) && m != p / 2 implies #[trigger] settled(
                    after,
                    max,
                    m,
                ) by {
                    lemma_children(max, m);
                    if m != p {
                        assert(settled(before, max, m));
                        lemma_settled_frame(before, after, max, p, m);
                    }
                }
                assert forall|m: int| below(p, m) implies val(after, m) == val(vals0, m) by {
                    assert(below(c, m));
                }
                assert forall|m: int| m != n implies (#[trigger] taken(after, max, m) <==> taken(
                    vals0,
                    max,
                    m,
                )) by {
                    assert(taken(before, max, m) <==> taken(vals0, max, m));
                    if 1 <= m < pow2((max + 1) as nat) {
                        if m == p {
                            assert(val(vals0, p) > desired_order);
                            assert(val(before, p) == val(vals0, p));
                        } else if 2 * m == p {
                            assert(p / 2 == m);
                            assert(below(p, m));
                            lemma_below_parent(n, p);
                            assert(val(before, m) == val(vals0, m));
                        }
                    }
                }
                lemma_depth_pow(p);
            }
            cur = parent;
            i += 1;
        }
        proof {
            assert(cur == 1) by {
                if cur > 1 {
                    assert(depth(cur as int) >= 1);
                }
            }
            lemma_pow2_pos(max as nat);
            lemma_depth_pow(n);
            lemma_depth_is(n, max - desired_order);
            let size = pow2((base + desired_order) as nat) as int;
            lemma_pow2_pos((base + desired_order) as nat);
            assert(Self::size_of(n) == size);
            assert(addr == (n - pow2((max - desired_order) as nat)) * size);
            vstd::arithmetic::div_mod::lemma_div_multiples_vanish(
                n - pow2((max - desired_order) as nat),
                size,
            );
            assert(((n - pow2((max - desired_order) as nat)) * size) / size == n - pow2(
                (max - desired_order) as nat,
            )) by {
                vstd::arithmetic::div_mod::lemma_div_by_multiple(
                    n - pow2((max - desired_order) as nat),
                    size,
                );
            }
            assert(Self::node_at(desired_order as int, addr as int) == n);
        }
        Some(addr)
    }

    /// What a node with children holds when it is worked out from what
    /// its children hold: one more than its order when both children are
    /// free as a whole, else the larger of what the two hold.
    pub open spec fn merged(order: int, l: int, r: int) -> int {
        if l == order && r == order {
            order + 1
        } else if l >= r {
            l
        } else {
            r
        }
    }

    /// Works out what the node `node_index` of order `order` holds from
    /// what its children hold.
    pub fn update_block(&mut self, node_index: usize, order: u8)
        requires
            Self::params_ok(),
            old(self).flat_blocks@.len() == pow2((MAX_ORDER + 1) as nat) - 1,
            1 <= node_index < pow2(MAX_ORDER as nat),
            1 <= order <= MAX_ORDER,
        ensures
            final(self).flat_blocks@ == old(self).flat_blocks@.update(
                node_index - 1,
                final(self).flat_blocks@[node_index - 1],
            ),
            val(final(self).flat_blocks@, node_index as int) == Self::merged(
                order as int,
                val(old(self).flat_blocks@, 2 * node_index),
                val(old(self).flat_blocks@, 2 * node_index + 1),
            ),
    {
        proof {
            lemma_pow2_unfold((MAX_ORDER + 1) as nat);
            vstd::arithmetic::power2::lemma2_to64();
            lemma_pow2_strictly_increases((MAX_ORDER + 1) as nat, 32);
        }
        let left_index: usize = node_index * 2 - 1;
        let left: u8 = self.flat_blocks[left_index].order_free;
        let right: u8 = self.flat_blocks[left_index + 1].order_free;
        if left == order && right == order {
            self.flat_blocks[node_index - 1].order_free = order + 1;
        } else {
            self.flat_blocks[node_index - 1].order_free = if left >= right {
                left
            } else {
                right
            };
        }
    }

    /// Works out anew what the nodes above the node `index` of order
    /// `order` hold, from that node up to the root.
    pub fn update_blocks_above(&mut self, index: usize, order: u8)
        requires
            Self::params_ok(),
            old(self).flat_blocks@.len() == pow2((MAX_ORDER + 1) as nat) - 1,
            1 <= index < pow2((MAX_ORDER + 1) as nat),
            order == order_of(MAX_ORDER as int, index as int),
            forall|m: int|
                1 <= m < pow2((MAX_ORDER + 1) as nat) ==> #[trigger] bounded(
                    old(self).flat_blocks@,
                    MAX_ORDER as int,
                    m,
                ),
            forall|m: int|
                1 <= m < pow2(MAX_ORDER as nat) && m != index / 2 ==> #[trigger] settled(
                    old(self).flat_blocks@,
                    MAX_ORDER as int,
                    m,
                ),
        ensures
            tree_ok(final(self).flat_blocks@, MAX_ORDER as int),
            forall|m: int|
                1 <= m < pow2((MAX_ORDER + 1) as nat) && !below(index as int, m) ==> val(
                    final(self).flat_blocks@,
                    m,
                ) == val(old(self).flat_blocks@, m),
            forall|m: int|
                below(index as int, m) ==> val(final(self).flat_blocks@, m) == Self::merged(
                    order_of(MAX_ORDER as int, m),
                    val(final(self).flat_blocks@, 2 * m),
                    val(final(self).flat_blocks@, 2 * m + 1),
                ),
            val(final(self).flat_blocks@, 1) >= val(old(self).flat_blocks@, index as int),
    {
        let ghost max = MAX_ORDER as int;
        let ghost vals0 = self.flat_blocks@;
        let ghost n = index as int;
        let mut node_index: usize = index;
        let mut o: u8 = order;
        proof {
            lemma_depth_pow(n);
            lemma_depth_lt(n, max + 1);
        }
        while o < MAX_ORDER
            invariant
                Self::params_ok(),
                max == MAX_ORDER,
                n == index,
                1 <= n < pow2((max + 1) as nat),
                o <= MAX_ORDER,
                1 <= node_index,
                node_index == n || below(n, node_index as int),
                o == order_of(max, node_index as int),
                self.flat_blocks@.len() == pow2((max + 1) as nat) - 1,
                vals0.len() == pow2((max + 1) as nat) - 1,
                forall|m: int|
                    1 <= m < pow2((max + 1) as nat) ==> #[trigger] bounded(self.flat_blocks@, max, m),
                forall|m: int|
                    1 <= m < pow2(max as nat) && m != node_index / 2 ==> #[trigger] settled(
                        self.flat_blocks@,
                        max,
                        m,
                    ),
                forall|m: int|
                    1 <= m < pow2((max + 1) as nat) && !below(n, m) ==> val(self.flat_blocks@, m)
                        == val(vals0, m),
                forall|m: int|
                    below(node_index as int, m) ==> val(self.flat_blocks@, m) == val(vals0, m),
                forall|m: int|
                    below(n, m) && (m == node_index || below(node_index as int, m) == false)
                        ==> val(self.flat_blocks@, m) == Self::merged(
                        order_of(max, m),
                        val(self.flat_blocks@, 2 * m),
                        val(self.flat_blocks@, 2 * m + 1),
                    ),
                val(self.flat_blocks@, node_index as int) >= val(vals0, n),
            decreases MAX_ORDER - o,
        {
            let ghost c = node_index as int;
            let ghost before = self.flat_blocks@;
            proof {
                lemma_depth_pow(c);
                assert(c >= 2) by {
                    if c < 2 {
                        assert(depth(c) == 0);
                    }
                }
                lemma_up(n, c);
                lemma_below_larger(n, c / 2);
                lemma_pow2_unfold((max + 1) as nat);
                lemma_children(max, c / 2);
                lemma_depth_child(c / 2);
            }
            node_index = node_index / 2;
            o = o + 1;
            self.update_block(node_index, o);
            proof {
                let p = node_index as int;
                let after = self.flat_blocks@;
                assert(bounded(before, max, 2 * p));
                assert(bounded(before, max, 2 * p + 1));
                assert forall|m: int| 1 <= m < pow2((max + 1) as nat) implies #[trigger] bounded(
                    after,
                    max,
                    m,
                ) by {
                    assert(bounded(before, max, m));
                }
                assert forall|m: int| 1 <= m < pow2(max as nat) && m != p / 2 implies #[trigger] settled(
                    after,
                    max,
                    m,
                ) by {
                    lemma_children(max, m);
                    if m != p {
                        assert(settled(before, max, m));
                        lemma_settled_frame(before, after, max, p, m);
                    }
                }
                assert forall|m: int| below(p, m) implies val(after, m) == val(vals0, m) by {
                    assert(below(c, m));
                }
                assert forall|m: int|
                    below(n, m) && (m == p || below(p, m) == false) implies val(after, m)
                    == Self::merged(order_of(max, m), val(after, 2 * m), val(after, 2 * m + 1)) by {
                    if m != p {
                        lemma_below_larger(n, m);
                        assert(m == c || !below(c, m)) by {
                            if below(c, m) && m != p {
                                assert(below(c / 2, m));
                            }
                        }
                        assert(2 * m != p && 2 * m + 1 != p) by {
                            if 2 * m == p || 2 * m + 1 == p {
                                assert(p / 2 == m);
                                assert(below(p, m));
                            }
                        }
                    }
                }
            }
        }
        proof {
            lemma_depth_pow(node_index as int);
            assert(node_index == 1) by {
                if node_index > 1 {
                    lemma_depth_pow(node_index as int / 2);
                    assert(depth(node_index as int) >= 1);
                }
            }
            assert forall|m: int| below(n, m) implies val(self.flat_blocks@, m) == Self::merged(
                order_of(max, m),
                val(self.flat_blocks@, 2 * m),
                val(self.flat_blocks@, 2 * m + 1),
            ) by {
                if below(1, m) {
                    lemma_below_larger(1, m);
                }
            }
        }
    }

    /// The node of the block of order `order` that holds the byte at
    /// offset `ptr`.
    pub fn locate(ptr: u64, order: u8) -> (index: usize)
        requires
            Self::params_ok(),
            order <= MAX_ORDER,
            ptr < pow2((BASE_ORDER + MAX_ORDER) as nat),
        ensures
            index == Self::node_at(order as int, ptr as int),
            1 <= index < pow2((MAX_ORDER + 1) as nat),
            order_of(MAX_ORDER as int, index as int) == order,
    {
        let ghost max = MAX_ORDER as int;
        let ghost base = BASE_ORDER as int;
        let level: u8 = MAX_ORDER - order;
        proof {
            vstd::arithmetic::power2::lemma2_to64();
            lemma_pow2_strictly_increases((max + 1) as nat, 32);
            lemma_pow2_pos(level as nat);
            lemma_pow2_pos((base + order) as nat);
            if level < max {
                lemma_pow2_strictly_increases(level as nat, max as nat);
            }
            lemma_pow2_unfold((max + 1) as nat);
            vstd::bits::lemma_u64_shr_is_div(ptr, (order + BASE_ORDER) as u64);
            vstd::bits::lemma_u64_pow2_no_overflow((base + order) as nat);
            vstd::arithmetic::power2::lemma_pow2_adds(level as nat, (base + order) as nat);
            let size = pow2((base + order) as nat) as int;
            let count = pow2(level as nat) as int;
            assert((ptr as int) < count * size);
            assert((ptr as int) / size < count) by {
                vstd::arithmetic::div_mod::lemma_multiply_divide_lt(ptr as int, size, count);
            }
            lemma_pow2_unfold((level + 1) as nat);
            lemma_depth_is(Self::node_at(order as int, ptr as int), level as int);
            if level + 1 < max + 1 {
                lemma_pow2_strictly_increases((level + 1) as nat, (max + 1) as nat);
            }
        }
        let level_offset: usize = crate::buddy_system::buddy::blocks_in_tree(level);
        level_offset + ((ptr >> ((order + BASE_ORDER) as u64)) as usize) + 1
    }

    /// Once the node `n`, which was handed out, holds one more than its
    /// order and the nodes above it are worked out anew, the block of
    /// `n` is free and no other block has changed hands.
    pub proof fn lemma_freed(vals0: Seq<Block>, vals1: Seq<Block>, vals2: Seq<Block>, n: int)
        requires
            Self::params_ok(),
            tree_ok(vals0, MAX_ORDER as int),
            taken(vals0, MAX_ORDER as int, n),
            vals1 == vals0.update(n - 1, vals1[n - 1]),
            val(vals1, n) == order_of(MAX_ORDER as int, n) + 1,
            tree_ok(vals2, MAX_ORDER as int),
            forall|m: int|
                1 <= m < pow2((MAX_ORDER + 1) as nat) && !below(n, m) ==> val(vals2, m) == val(
                    vals1,
                    m,
                ),
            forall|m: int|
                below(n, m) ==> val(vals2, m) == Self::merged(
                    order_of(MAX_ORDER as int, m),
                    val(vals2, 2 * m),
                    val(vals2, 2 * m + 1),
                ),
        ensures
            !taken(vals2, MAX_ORDER as int, n),
            forall|m: int|
                m != n ==> (#[trigger] taken(vals2, MAX_ORDER as int, m) <==> taken(
                    vals0,
                    MAX_ORDER as int,
                    m,
                )),
    {
        let max = MAX_ORDER as int;
        lemma_depth_pow(n);
        lemma_depth_lt(n, max + 1);
        assert(!below(n, n)) by {
            if below(n, n) {
                lemma_below_larger(n, n);
            }
        }
        assert forall|m: int| m != n implies (#[trigger] taken(vals2, max, m) <==> taken(
            vals0,
            max,
            m,
        )) by {
            if 1 <= m < pow2((max + 1) as nat) {
                if below(n, m) {
                    lemma_below_larger(n, m);
                    lemma_pow2_unfold((max + 1) as nat);
                    if taken(vals0, max, m) {
                        lemma_taken_apart(vals0, max, m, n);
                    }
                    lemma_children(max, m);
                    assert(bounded(vals2, max, 2 * m));
                    assert(bounded(vals2, max, 2 * m + 1));
                } else {
                    assert(val(vals2, m) == val(vals1, m));
                    if m < pow2(max as nat) {
                        lemma_children(max, m);
                        if 2 * m == n {
                            assert(n / 2 == m);
                            assert(below(n, m));
                        }
                        if below(n, 2 * m) {
                            lemma_below_parent(n, 2 * m);
                        }
                        assert(val(vals2, 2 * m) == val(vals1, 2 * m));
                    }
                }
            }
        }
    }

    /// Takes back the block of order `order` at offset `ptr`, which is
    /// handed out. The block is free again, and joins its buddy wherever
    /// that is free as a whole. No other block is handed out or comes
    /// back.
    pub fn deallocate(&mut self, ptr: u64, order: u8)
        requires
            old(self).wf(),
            order <= MAX_ORDER,
            ptr < pow2((BASE_ORDER + MAX_ORDER) as nat),
            old(self).taken(Self::node_at(order as int, ptr as int)),
        ensures
            final(self).wf(),
            final(self).has_room(order as int),
            !final(self).taken(Self::node_at(order as int, ptr as int)),
            forall|m: int|
                m != Self::node_at(order as int, ptr as int) ==> (#[trigger] final(self).taken(m)
                    <==> old(self).taken(m)),
    {
        let ghost max = MAX_ORDER as int;
        let ghost vals0 = self.flat_blocks@;
        let ghost n = Self::node_at(order as int, ptr as int);
        let index: usize = Self::locate(ptr, order);
        self.flat_blocks[index - 1].order_free = order + 1;
        let ghost vals1 = self.flat_blocks@;
        proof {
            assert(vals1 == vals0.update(n - 1, vals1[n - 1]));
            assert(bounded(vals0, max, n));
            assert forall|m: int| 1 <= m < pow2((max + 1) as nat) implies #[trigger] bounded(
                vals1,
                max,
                m,
            ) by {
                assert(bounded(vals0, max, m));
            }
            assert forall|m: int| 1 <= m < pow2(max as nat) && m != n / 2 implies #[trigger] settled(
                vals1,
                max,
                m,
            ) by {
                assert(settled(vals0, max, m));
                lemma_children(max, m);
                if m != n {
                    lemma_settled_frame(vals0, vals1, max, n, m);
                } else {
                    assert(bounded(vals0, max, 2 * n));
                    assert(bounded(vals0, max, 2 * n + 1));
                    assert(val(vals1, 2 * n) == val(vals0, 2 * n));
                    assert(val(vals1, 2 * n + 1) == val(vals0, 2 * n + 1));
                }
            }
        }
        self.update_blocks_above(index, order);
        proof {
            Self::lemma_freed(vals0, vals1, self.flat_blocks@, n);
        }
    }

    /// Tells whether the block of node `n` is handed out.
    pub fn is_taken(&self, n: usize) -> (b: bool)
        requires
            self.wf(),
        ensures
            b == self.taken(n as int),
    {
        let ghost max = MAX_ORDER as int;
        proof {
            vstd::arithmetic::power2::lemma2_to64();
            lemma_pow2_strictly_increases((max + 1) as nat, 32);
            lemma_pow2_unfold((max + 1) as nat);
            lemma_pow2_pos(max as nat);
        }
        if n < 1 || n > self.flat_blocks.len() {
            return false;
        }
        if self.flat_blocks[n - 1].order_free != 0 {
            return false;
        }
        let leaves: usize = Self::blocks_in_level(MAX_ORDER);
        n >= leaves || self.flat_blocks[2 * n - 1].order_free != 0
    }

    /// The block of the node that holds the byte at offset `ptr` begins
    /// at `ptr` rounded down to the size of the block.
    pub proof fn lemma_start_of_located(order: int, ptr: int)
        requires
            Self::params_ok(),
            0 <= order <= MAX_ORDER,
            0 <= ptr < pow2((BASE_ORDER + MAX_ORDER) as nat),
        ensures
            Self::start_of(Self::node_at(order, ptr)) == ptr - ptr % (pow2(
                (BASE_ORDER + order) as nat,
            ) as int),
            Self::size_of(Self::node_at(order, ptr)) == pow2((BASE_ORDER + order) as nat),
            order_of(MAX_ORDER as int, Self::node_at(order, ptr)) == order,
    {
        let max = MAX_ORDER as int;
        let base = BASE_ORDER as int;
        let level = max - order;
        let size = pow2((base + order) as nat) as int;
        let count = pow2(level as nat) as int;
        lemma_pow2_pos(level as nat);
        lemma_pow2_pos((base + order) as nat);
        vstd::arithmetic::power2::lemma_pow2_adds(level as nat, (base + order) as nat);
        assert(ptr < count * size);
        assert(ptr / size < count) by {
            vstd::arithmetic::div_mod::lemma_multiply_divide_lt(ptr, size, count);
        }
        vstd::arithmetic::div_mod::lemma_div_pos_is_pos(ptr, size);
        lemma_pow2_unfold((level + 1) as nat);
        let n = Self::node_at(order, ptr);
        lemma_depth_is(n, level);
        vstd::arithmetic::div_mod::lemma_fundamental_div_mod(ptr, size);
        assert((n - count) * size == size * (ptr / size)) by (nonlinear_arith)
            requires
                n - count == ptr / size,
        ;
    }
}

} // verus!
