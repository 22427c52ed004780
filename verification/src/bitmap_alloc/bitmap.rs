use vstd::prelude::*;

verus! {

/// A raw bitmap of 512 bits.
pub type RawBitmap512 = RawBitmap<64>;

/// Whether bit `j` of the byte `b` is set.
pub open spec fn byte_bit(b: u8, j: int) -> bool {
    b & (1u8 << (j as u8)) != 0
}

/// A bitmap of `8 * N` bits, numbered from 0.
pub struct RawBitmap<const N: usize> {
    pub bits: [u8; N],
}

impl<const N: usize> RawBitmap<N> {
    /// Whether bit `n` is set.
    pub open spec fn bit(&self, n: int) -> bool {
        byte_bit(self.bits@[n / 8], n % 8)
    }

    /// A bitmap without a set bit.
    pub fn new() -> (bmp: Self)
        ensures
            forall|n: int| 0 <= n < 8 * N ==> !bmp.bit(n),
    {
        let bmp = Self { bits: [0u8; N] };
        proof {
            assert(forall|j: u8| j < 8 ==> 0u8 & (1u8 << j) == 0) by (bit_vector);
            assert forall|n: int| 0 <= n < 8 * N implies !bmp.bit(n) by {
                let j = (n % 8) as u8;
                assert(j < 8);
                assert(0u8 & (1u8 << j) == 0);
            }
        }
        bmp
    }

    /// Whether bit `n` is set.
    pub fn get_bit(&self, n: usize) -> (b: bool)
        requires
            n < 8 * N,
        ensures
            b == self.bit(n as int),
    {
        let off: u8 = (n % 8) as u8;
        (self.bits[n / 8] & (1u8 << off)) != 0
    }

    /// Sets bit `n`.
    pub fn set_bit(&mut self, n: usize)
        requires
            n < 8 * N,
        ensures
            forall|j: int|
                0 <= j < 8 * N ==> final(self).bit(j) == (j == n || old(self).bit(j)),
    {
        let off: u8 = (n % 8) as u8;
        let byte: u8 = self.bits[n / 8];
        let set: u8 = byte | (1u8 << off);
        assert(forall|j: u8|
            j < 8 ==> ((set & (1u8 << j) != 0) == (j == off || byte & (1u8 << j) != 0)))
            by (bit_vector)
            requires
                off < 8,
                set == byte | (1u8 << off),
        ;
        self.bits[n / 8] = set;
        proof {
            assert forall|j: int| 0 <= j < 8 * N implies self.bit(j) == (j == n || old(self).bit(
                j,
            )) by {
                let jo = (j % 8) as u8;
                if j / 8 == n / 8 {
                    assert(jo < 8);
                    assert((set & (1u8 << jo) != 0) == (jo == off || byte & (1u8 << jo) != 0));
                }
            }
        }
    }

    /// Clears bit `n`.
    pub fn unset_bit(&mut self, n: usize)
        requires
            n < 8 * N,
        ensures
            forall|j: int|
                0 <= j < 8 * N ==> final(self).bit(j) == (j != n && old(self).bit(j)),
    {
        let off: u8 = (n % 8) as u8;
        let byte: u8 = self.bits[n / 8];
        let cleared: u8 = byte & !(1u8 << off);
        assert(forall|j: u8|
            j < 8 ==> ((cleared & (1u8 << j) != 0) == (j != off && byte & (1u8 << j) != 0)))
            by (bit_vector)
            requires
                off < 8,
                cleared == byte & !(1u8 << off),
        ;
        self.bits[n / 8] = cleared;
        proof {
            assert forall|j: int| 0 <= j < 8 * N implies self.bit(j) == (j != n && old(self).bit(
                j,
            )) by {
                let jo = (j % 8) as u8;
                if j / 8 == n / 8 {
                    assert(jo < 8);
                    assert((cleared & (1u8 << jo) != 0) == (jo != off && byte & (1u8 << jo) != 0));
                }
            }
        }
    }
}

/// The sums of a tree over `8 * N` leaves: the first `8 * N` entries are
/// bytes, the `8 * N` after them single bits.
pub struct CompressedSum<const N: usize> {
    pub sum: Vec<u8>,
    pub bmp: RawBitmap<N>,
}

impl<const N: usize> CompressedSum<N> {
    /// The byte part has one entry for each of the first `8 * N`
    /// indices.
    pub open spec fn wf(&self) -> bool {
        self.sum@.len() == 8 * N
    }

    /// The value at `idx`: a byte below `8 * N`, a bit from there on.
    pub open spec fn value(&self, idx: int) -> int {
        if idx < 8 * N {
            self.sum@[idx] as int
        } else if self.bmp.bit(idx - 8 * N) {
            1
        } else {
            0
        }
    }

    /// Sums that are all 0.
    pub fn new() -> (s: Self)
        requires
            8 * N <= usize::MAX,
        ensures
            s.wf(),
            forall|idx: int| 0 <= idx < 16 * N ==> s.value(idx) == 0,
    {
        Self { sum: vec![0u8; N * 8], bmp: RawBitmap::<N>::new() }
    }

    /// The value at `idx`.
    pub fn get(&self, idx: usize) -> (v: u8)
        requires
            self.wf(),
            idx < 16 * N,
        ensures
            v == self.value(idx as int),
    {
        let bytes: usize = self.sum.len();
        if idx < bytes {
            self.sum[idx]
        } else if self.bmp.get_bit(idx - bytes) {
            1
        } else {
            0
        }
    }

    /// Makes the byte at `idx` `val`.
    pub fn set(&mut self, idx: usize, val: u8)
        requires
            old(self).wf(),
            idx < 8 * N,
        ensures
            final(self).wf(),
            final(self).sum@ == old(self).sum@.update(idx as int, val),
            final(self).bmp == old(self).bmp,
    {
        self.sum[idx] = val;
    }

    /// Adds `val` to the byte at `idx`.
    pub fn add(&mut self, idx: usize, val: u8)
        requires
            old(self).wf(),
            idx < 8 * N,
            old(self).sum@[idx as int] + val <= u8::MAX,
        ensures
            final(self).wf(),
            final(self).sum@ == old(self).sum@.update(
                idx as int,
                (old(self).sum@[idx as int] + val) as u8,
            ),
            final(self).bmp == old(self).bmp,
    {
        let cur: u8 = self.sum[idx];
        self.sum[idx] = cur + val;
    }
}

/// A tree of sums and pending additions over `8 * N` leaves that hold 0
/// or 1 each.
pub struct CommutativeBitmap<const N: usize> {
    pub tag: Vec<u8>,
    pub sum: CompressedSum<N>,
}

impl<const N: usize> CommutativeBitmap<N> {
    /// The tree has a pending addition for each of its `16 * N` nodes.
    pub open spec fn wf(&self) -> bool {
        self.tag@.len() == 16 * N && self.sum.wf()
    }

    /// A tree whose sums and pending additions are all 0.
    pub fn new() -> (tree: Self)
        requires
            16 * N <= usize::MAX,
        ensures
            tree.wf(),
            forall|i: int| 0 <= i < 16 * N ==> tree.tag@[i] == 0 && tree.sum.value(i) == 0,
    {
        Self { tag: vec![0u8; N * 16], sum: CompressedSum::<N>::new() }
    }
}

} // verus!
