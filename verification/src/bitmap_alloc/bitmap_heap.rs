use crate::bitmap_alloc::simd_bitmap::{rank, SIMDBitmap512};
use vstd::prelude::*;

verus! {

/// 4 KiB.
pub const FOUR_K: usize = 4096;

/// 8 KiB.
pub const EIGHT_K: usize = 8192;

/// Bits of the bitmap that stand for the bitmap itself.
pub const RESERVED_BITS: u64 = 16;

/// A page of 4 KiB that is cut into 512 chunks of 8 bytes: a bitmap with
/// one bit for each chunk, and the bytes of the chunks that are not taken
/// up by the bitmap.
pub struct AllocablePage4K {
    pub bitmap: SIMDBitmap512,
    pub data: Vec<u8>,
}

impl AllocablePage4K {
    /// The bitmap is well-formed and the page has its 3968 bytes.
    pub open spec fn wf(&self) -> bool {
        self.bitmap.wf() && self.data@.len() == FOUR_K - 128
    }

    /// A page whose bits and bytes are all 0.
    pub fn new() -> (page: Self)
        ensures
            page.wf(),
            forall|n: int| 0 <= n < 512 ==> !page.bitmap.bit(n),
            forall|i: int| 0 <= i < page.data@.len() ==> page.data@[i] == 0,
    {
        Self { bitmap: SIMDBitmap512::new(), data: vec![0u8; FOUR_K - 128] }
    }

    /// Clears the page.
    pub fn reset(&mut self)
        requires
            old(self).wf(),
        ensures
            final(self).wf(),
            forall|n: int| 0 <= n < 512 ==> !final(self).bitmap.bit(n),
            forall|i: int| 0 <= i < final(self).data@.len() ==> final(self).data@[i] == 0,
    {
        self.fill_zero();
    }

    /// Makes every bit and every byte of the page 0.
    pub fn fill_zero(&mut self)
        requires
            old(self).wf(),
        ensures
            final(self).wf(),
            forall|n: int| 0 <= n < 512 ==> !final(self).bitmap.bit(n),
            forall|i: int| 0 <= i < final(self).data@.len() ==> final(self).data@[i] == 0,
    {
        let mut i: usize = 0;
        while i < self.data.len()
            invariant
                i <= self.data.len(),
                self.data@.len() == FOUR_K - 128,
                forall|j: int| 0 <= j < i ==> self.data@[j] == 0,
            decreases self.data.len() - i,
        {
            self.data[i] = 0;
            i += 1;
        }
        self.bitmap.fill_zero();
    }

    /// The index of the set bit that comes after the 16 set bits that
    /// stand for the bitmap itself.
    pub fn get_first_free_bit(&self) -> (idx: u64)
        requires
            self.wf(),
            rank(self.bitmap.bits@, 512) > RESERVED_BITS,
        ensures
            idx < 512,
            self.bitmap.bit(idx as int),
            rank(self.bitmap.bits@, idx as int) == RESERVED_BITS,
    {
        self.bitmap.select(RESERVED_BITS)
    }

    /// Finds the bit of `get_first_free_bit` and flips it.
    pub fn claim_first_free_bit(&mut self) -> (idx: u64)
        requires
            old(self).wf(),
            rank(old(self).bitmap.bits@, 512) > RESERVED_BITS,
        ensures
            final(self).wf(),
            idx < 512,
            old(self).bitmap.bit(idx as int),
            rank(old(self).bitmap.bits@, idx as int) == RESERVED_BITS,
            forall|j: int|
                0 <= j < 512 ==> final(self).bitmap.bit(j) == if j == idx {
                    false
                } else {
                    old(self).bitmap.bit(j)
                },
            final(self).data == old(self).data,
    {
        let bitidx = self.get_first_free_bit();
        self.bitmap.flip(bitidx as usize);
        bitidx
    }

    /// Flips the bit at `idx`.
    pub fn flip_bit(&mut self, idx: usize)
        requires
            old(self).wf(),
            idx < 512,
        ensures
            final(self).wf(),
            forall|j: int|
                0 <= j < 512 ==> final(self).bitmap.bit(j) == if j == idx {
                    !old(self).bitmap.bit(j)
                } else {
                    old(self).bitmap.bit(j)
                },
            final(self).data == old(self).data,
    {
        self.bitmap.flip(idx);
    }

    /// Whether the bit at `idx` is set.
    pub fn get_bit(&self, idx: usize) -> (b: bool)
        requires
            idx < 512,
        ensures
            b == self.bitmap.bit(idx as int),
    {
        self.bitmap.get(idx)
    }

    /// Clears the bit at `index`, which is set.
    pub fn unset_bit(&mut self, index: usize)
        requires
            old(self).wf(),
            index < 512,
            old(self).bitmap.bit(index as int),
        ensures
            final(self).wf(),
            forall|j: int|
                0 <= j < 512 ==> final(self).bitmap.bit(j) == (j != index && old(self).bitmap.bit(
                    j,
                )),
            final(self).data == old(self).data,
    {
        self.flip_bit(index);
    }

    /// The size of a page in bytes.
    pub fn size() -> (n: usize)
        ensures
            n == FOUR_K,
    {
        FOUR_K
    }

    /// Whether all bits but the 16 for the bitmap itself are set.
    pub fn is_full(&self) -> (full: bool)
        requires
            self.wf(),
        ensures
            full == (rank(self.bitmap.bits@, 512) == 512 - 16),
    {
        self.bitmap.real_size() == (512 - 16)
    }
}

} // verus!
