use crate::buddy_system::consts::LEVEL_COUNT;
use vstd::arithmetic::power2::pow2;
use vstd::prelude::*;

verus! {

/// Blocks in a tree of `LEVEL_COUNT` levels.
pub const BLOCKS_IN_TREE: usize = 8388607;

/// One node of the buddy tree. `order_free` is 0 for a node that is in
/// use, and else one more than the order of the largest free block under
/// the node.
#[derive(Debug, Copy, Clone, PartialEq, Eq, Structural)]
pub struct Block {
    pub order_free: u8,
}

impl Block {
    /// A block under which a block of order `order` is free.
    pub fn new_free(order: u8) -> (b: Self)
        requires
            order < u8::MAX,
        ensures
            b.order_free == order + 1,
    {
        Self { order_free: order + 1 }
    }

    /// A block that is in use.
    pub fn new_used() -> (b: Self)
        ensures
            b.order_free == 0,
    {
        Self { order_free: 0 }
    }
}

/// The number of blocks in a tree of `levels` levels: 2^levels - 1.
pub fn blocks_in_tree(levels: u8) -> (n: usize)
    requires
        levels < 32,
    ensures
        n == pow2(levels as nat) - 1,
{
    proof {
        vstd::arithmetic::power2::lemma2_to64();
        vstd::bits::lemma_u64_shl_is_mul(1, levels as u64);
        vstd::bits::lemma_u64_pow2_no_overflow(levels as nat);
        if levels < 31 {
            vstd::arithmetic::power2::lemma_pow2_strictly_increases(levels as nat, 31);
        }
    }
    let p: u64 = 1u64 << (levels as u64);
    (p - 1) as usize
}

/// The number of blocks in level `level` of a tree: 2^level.
pub fn blocks_in_level(level: u8) -> (n: usize)
    requires
        level < 31,
    ensures
        n == pow2(level as nat),
{
    proof {
        vstd::arithmetic::power2::lemma_pow2_unfold((level + 1) as nat);
    }
    blocks_in_tree(level + 1) - blocks_in_tree(level)
}

/// The left child of node `index` of a tree whose root is node 1.
pub fn left_child(index: usize) -> (child: usize)
    requires
        index <= usize::MAX / 2,
    ensures
        child == 2 * index,
{
    index * 2
}

/// The parent of node `index` of a tree whose root is node 1.
pub fn parent(index: usize) -> (p: usize)
    ensures
        p == index / 2,
{
    index / 2
}

} // verus!
