pub mod bitmap;
pub mod bitmap_heap;
pub mod simd_bitmap;
