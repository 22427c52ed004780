use std::cmp::Ordering;
use unialloc::collections::radix_tree::{ArrayNode, RadixBottomNode, RadixTree, TreeNode};
use unialloc::collections::radix_tree_128::{RadixBottom128Node, RadixNode128Head, Tree128Node};

const PAGE_SIZE: usize = 4096;

#[test]
fn radix_tree_rd_simple_test() {
    let mut rd = RadixTree::new();
    let last = PAGE_SIZE * 4094;
    assert!(rd.insert(last << 16, 4, 2).is_ok());
    assert!(rd.insert((last + 2 * 4096) << 16, 3, 2).is_ok());
    assert_eq!(rd.get_mut(0), 0);
    assert_eq!(rd.get_mut(last << 16), 4);
    assert_eq!(rd.get_mut((last + 4096) << 16), 4);
    assert_eq!(rd.get_mut((last + 2 * 4096) << 16), 3);
    assert_eq!(rd.get_mut((last + 3 * 4096) << 16), 3);
    assert_eq!(rd.get_mut((last + 4 * 4096) << 16), 0);
    assert_eq!(rd.get_mut((last + 5 * 4096) << 16), 0);
    assert_eq!(rd.get_mut((last + 6 * 4096) << 16), 0);
    assert_eq!(rd.get_mut((last + 4096_usize * (1 << 16 + 1)) << 16), 0);
}

#[test]
fn radix_insert_spans_leaves() {
    let mut rd = RadixTree::new();
    // The pages 262142 to 262145 lie in two leaves.
    let first_page: usize = 262142;
    assert!(rd.insert((first_page * PAGE_SIZE) << 16, 9, 4).is_ok());
    assert_eq!(rd.lookup(262141), 0);
    assert_eq!(rd.lookup(262142), 9);
    assert_eq!(rd.lookup(262143), 9);
    assert_eq!(rd.lookup(262144), 9);
    assert_eq!(rd.lookup(262145), 9);
    assert_eq!(rd.lookup(262146), 0);
    assert!(rd.remove((262143 * PAGE_SIZE) << 16, 2).is_ok());
    assert_eq!(rd.lookup(262142), 9);
    assert_eq!(rd.lookup(262143), 0);
    assert_eq!(rd.lookup(262144), 0);
    assert_eq!(rd.lookup(262145), 9);
}

#[test]
fn radix_insert_out_of_range_fails() {
    let mut rd = RadixTree::new();
    let last_page: usize = (1usize << 36) - 1;
    assert!(rd.insert(last_page << 28, 5, 1).is_ok());
    assert_eq!(rd.lookup(last_page as u64), 5);
    assert!(rd.insert(last_page << 28, 7, 2).is_err());
    assert_eq!(rd.lookup(last_page as u64), 5);
    assert!(rd.remove(last_page << 28, 2).is_err());
    assert_eq!(rd.lookup(last_page as u64), 5);
}

#[test]
fn radix_leaf_reads_top_bits() {
    let mut leaf = RadixBottomNode::new();
    let key: usize = 5usize << 46;
    assert!(leaf.insert(key, -3, 2).is_ok());
    assert_eq!(leaf.get_mut(key), -3);
    assert_eq!(leaf.get_mut(6usize << 46), -3);
    assert_eq!(leaf.get_mut(7usize << 46), 0);
    assert!(leaf.insert(262143usize << 46, 1, 2).is_err());
    assert!(leaf.remove(key, 1).is_ok());
    assert_eq!(leaf.get_mut(key), 0);
    assert_eq!(leaf.get_mut(6usize << 46), -3);
}

#[test]
fn array_node_counts_pages_from_base() {
    let mut node = ArrayNode::new();
    node.init_with_range(0x10000, vec![0i64; 4]);
    assert!(node.insert((0x10000 + 4096) << 16, 8, 2).is_ok());
    assert_eq!(node.get_mut(0x10000 << 16), 0);
    assert_eq!(node.get_mut((0x10000 + 4096) << 16), 8);
    assert_eq!(node.get_mut((0x10000 + 2 * 4096) << 16), 8);
    assert_eq!(node.get_mut((0x10000 + 3 * 4096) << 16), 0);
    assert!(node.insert((0x10000 + 3 * 4096) << 16, 1, 2).is_err());
    assert!(node.insert(0x1000 << 16, 1, 1).is_err());
    assert_eq!(node.extend_with_range(0x10000 + 6 * 4096), 4);
    assert!(node.insert((0x10000 + 3 * 4096) << 16, 1, 2).is_ok());
    assert_eq!(node.get_mut((0x10000 + 4 * 4096) << 16), 1);
    assert_eq!(node.get_mut((0x10000 + 4096) << 16), 8);
    assert!(node.remove((0x10000 + 4096) << 16, 1).is_ok());
    assert_eq!(node.get_mut((0x10000 + 4096) << 16), 0);
}

type RadixTree128 = RadixNode128Head<
    RadixNode128Head<RadixNode128Head<RadixNode128Head<RadixNode128Head<RadixBottom128Node>>>>,
>;

#[test]
fn radix_tree_128_rd_simple_test() {
    let mut rd = RadixTree128::new();
    let mut last = (PAGE_SIZE * 4094) as u128;
    match 12_u32.cmp(&PAGE_SIZE.trailing_zeros()) {
        Ordering::Greater => last <<= 12 - PAGE_SIZE.trailing_zeros(),
        Ordering::Less => last >>= PAGE_SIZE.trailing_zeros() - 12,
        Ordering::Equal => {}
    };
    assert!(rd.insert((last << 16) as u128, 4, 2).is_ok());
    assert!(rd.insert(((last + 2 * 4096) << 16) as u128, 3, 2).is_ok());
    assert_eq!(rd.get_mut(0), -1);
    assert_eq!(rd.get_mut((last << 16) as u128), 4);
    assert_eq!(rd.get_mut((last << 16) + 1 as u128), 4);
    assert_eq!(rd.get_mut((last << 16) + 2 as u128), 0);
    assert_eq!(rd.get_mut((last + 4096) << 16), -1);
    assert_eq!(rd.get_mut((last + 2 * 4096) << 16), 3);
    assert_eq!(rd.get_mut(((last + 2 * 4096) << 16) + 1), 3);
    assert_eq!(rd.get_mut(((last + 2 * 4096) << 16) + 2), 0);
    assert_eq!(rd.get_mut((last + 3 * 4096) << 16), -1);
    assert_eq!(rd.get_mut((last + 4 * 4096) << 16), -1);
    assert_eq!(rd.get_mut((last + 5 * 4096) << 16), -1);
    assert_eq!(rd.get_mut((last + 6 * 4096) << 16), -1);
    assert_eq!(rd.get_mut((last + 4096_u128 * (1 << 16 + 1)) << 16), -1);
}

#[test]
fn radix_128_runs_stay_in_one_leaf() {
    let mut rd: RadixNode128Head<RadixBottom128Node> = RadixNode128Head::new();
    // The top 21 bits name the leaf, the 23 bits after them the slot.
    let leaf: u128 = 5 << 107;
    let last_slot: u128 = (1 << 23) - 1;
    assert_eq!(rd.get_mut(leaf), -1);
    assert!(rd.remove(leaf, 1 << 30).is_ok());
    assert!(rd.insert(leaf + (last_slot << 84), 7, 2).is_err());
    assert_eq!(rd.get_mut(leaf), -1);
    assert!(rd.insert(leaf + (last_slot << 84), 7, -1).is_err());
    assert!(rd.insert(leaf + (last_slot << 84), 7, 1).is_ok());
    assert_eq!(rd.get_mut(leaf + (last_slot << 84)), 7);
    assert_eq!(rd.get_mut(leaf + ((last_slot - 1) << 84)), 0);
    assert_eq!(rd.get_mut(leaf), 0);
    assert_eq!(rd.get_mut(4 << 107), -1);
    assert_eq!(rd.nodes.len(), 6);
    assert!(rd.remove(leaf + (last_slot << 84), 2).is_err());
    assert_eq!(rd.get_mut(leaf + (last_slot << 84)), 7);
    assert!(rd.remove(leaf + ((last_slot - 1) << 84), 2).is_ok());
    assert_eq!(rd.get_mut(leaf + (last_slot << 84)), 0);
    let mut bottom = RadixBottom128Node::fresh();
    assert!(bottom.insert(3 << 105, -9, 3).is_ok());
    assert_eq!(bottom.get_mut(2 << 105), 0);
    assert_eq!(bottom.get_mut((5 << 105) + 12345), -9);
    assert_eq!(bottom.get_mut(6 << 105), 0);
    assert_eq!(RadixBottom128Node::leaf_slot(u128::MAX), (1 << 23) - 1);
}
