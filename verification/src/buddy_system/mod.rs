pub mod buddy;
pub mod consts;
pub mod heap;
pub mod tree;
