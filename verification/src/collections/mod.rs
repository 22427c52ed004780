pub mod linklist;
pub mod radix_tree;
pub mod radix_tree_128;
