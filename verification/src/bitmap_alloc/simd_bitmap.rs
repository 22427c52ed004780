use vstd::prelude::*;

verus! {

/// A word in which every bit is set.
pub const BITMAP_FULL: u64 = 0xffff_ffff_ffff_ffff;

/// Whether bit `j` of `w` is set.
pub open spec fn word_bit(w: u64, j: int) -> bool {
    (w >> (j as u64)) & 1u64 == 1u64
}

/// Whether bit `n` of the 512 bits that `words` holds is set.
pub open spec fn bit_of(words: Seq<u64>, n: int) -> bool {
    word_bit(words[n / 64], n % 64)
}

/// The number of set bits among the first `n` bits of `words`.
pub open spec fn rank(words: Seq<u64>, n: int) -> int
    decreases n,
{
    if n <= 0 {
        0
    } else {
        rank(words, n - 1) + if bit_of(words, n - 1) {
            1int
        } else {
            0int
        }
    }
}

/// The rank is at most the number of bits that it counts, and grows with
/// that number.
pub proof fn lemma_rank_bounds(words: Seq<u64>, m: int, n: int)
    requires
        0 <= m <= n,
    ensures
        0 <= rank(words, m) <= rank(words, n) <= rank(words, m) + (n - m),
        rank(words, m) <= m,
    decreases n,
{
    if m < n {
        lemma_rank_bounds(words, m, n - 1);
    } else if m > 0 {
        lemma_rank_bounds(words, m - 1, m - 1);
        lemma_rank_bounds(words, 0, m - 1);
    }
}

/// The rank depends only on the bits that it counts.
pub proof fn lemma_rank_same(a: Seq<u64>, b: Seq<u64>, n: int)
    requires
        forall|j: int| 0 <= j < n ==> bit_of(a, j) == bit_of(b, j),
    ensures
        rank(a, n) == rank(b, n),
    decreases n,
{
    if n > 0 {
        lemma_rank_same(a, b, n - 1);
    }
}

/// A bitmap of 512 bits that keeps, for each of its 8 words, the number
/// of set bits up to the end of the word.
pub struct SIMDBitmap512 {
    pub prefix_sum: [u64; 8],
    pub bits: [u64; 8],
}

impl SIMDBitmap512 {
    /// Whether bit `n` is set.
    pub open spec fn bit(&self, n: int) -> bool {
        bit_of(self.bits@, n)
    }

    /// Entry `i` of the prefix sums is the number of set bits in the
    /// words 0 to `i`.
    pub open spec fn wf(&self) -> bool {
        forall|i: int| 0 <= i < 8 ==> #[trigger] self.prefix_sum[i] == rank(self.bits@, 64 * (i + 1))
    }

    /// A bitmap without a set bit.
    pub fn new() -> (b: Self)
        ensures
            b.wf(),
            forall|n: int| 0 <= n < 512 ==> !b.bit(n),
            rank(b.bits@, 512) == 0,
    {
        let b = Self { prefix_sum: [0u64; 8], bits: [0u64; 8] };
        proof {
            lemma_zero_bits(b.bits@);
        }
        b
    }

    /// The number of set bits.
    pub fn real_size(&self) -> (n: u64)
        requires
            self.wf(),
        ensures
            n == rank(self.bits@, 512),
    {
        self.prefix_sum[7]
    }

    /// Whether all 512 bits are set.
    pub fn is_full(&self) -> (full: bool)
        requires
            self.wf(),
        ensures
            full == (rank(self.bits@, 512) == 512),
    {
        self.prefix_sum[7] == 512
    }

    /// Clears every bit.
    pub fn fill_zero(&mut self)
        ensures
            final(self).wf(),
            forall|n: int| 0 <= n < 512 ==> !final(self).bit(n),
            rank(final(self).bits@, 512) == 0,
    {
        self.prefix_sum = [0u64; 8];
        self.bits = [0u64; 8];
        proof {
            lemma_zero_bits(self.bits@);
        }
    }

    /// Whether bit `n` is set.
    pub fn get(&self, n: usize) -> (b: bool)
        requires
            n < 512,
        ensures
            b == self.bit(n as int),
    {
        let w: u64 = self.bits[n / 64];
        let off: u64 = (n % 64) as u64;
        (w >> off) & 1u64 == 1u64
    }

    /// Flips bit `n` and brings the prefix sums up to date.
    pub fn flip(&mut self, n: usize)
        requires
            n < 512,
        ensures
            final(self).wf(),
            forall|j: int|
                0 <= j < 512 ==> final(self).bit(j) == if j == n {
                    !old(self).bit(j)
                } else {
                    old(self).bit(j)
                },
    {
        let w: usize = n / 64;
        let off: u64 = (n % 64) as u64;
        let word: u64 = self.bits[w];
        let flipped: u64 = word ^ (1u64 << off);
        assert(forall|j: u64|
            j < 64 ==> (((flipped >> j) & 1u64 == 1u64) == if j == off {
                !((word >> j) & 1u64 == 1u64)
            } else {
                (word >> j) & 1u64 == 1u64
            })) by (bit_vector)
            requires
                off < 64,
                flipped == word ^ (1u64 << off),
        ;
        self.bits[w] = flipped;
        proof {
            assert forall|j: int| 0 <= j < 512 implies self.bit(j) == if j == n {
                !old(self).bit(j)
            } else {
                old(self).bit(j)
            } by {
                let jo = (j % 64) as u64;
                if j / 64 == w {
                    assert(jo < 64);
                    assert(((flipped >> jo) & 1u64 == 1u64) == if jo == off {
                        !((word >> jo) & 1u64 == 1u64)
                    } else {
                        (word >> jo) & 1u64 == 1u64
                    });
                }
            }
        }
        self.compute_prefix_sum();
    }

    /// The index of the first set bit.
    pub fn index_fs(&self) -> (idx: u64)
        requires
            rank(self.bits@, 512) > 0,
        ensures
            idx < 512,
            self.bit(idx as int),
            rank(self.bits@, idx as int) == 0,
    {
        self.select(0)
    }

    /// The words of the bitmap.
    pub fn bits(&self) -> (words: &[u64; 8])
        ensures
            words@ == self.bits@,
    {
        &self.bits
    }

    /// The index of the set bit that has `k` set bits before it.
    pub fn select(&self, k: u64) -> (idx: u64)
        requires
            k < rank(self.bits@, 512),
        ensures
            idx < 512,
            self.bit(idx as int),
            rank(self.bits@, idx as int) == k,
    {
        let mut seen: u64 = 0;
        let mut n: usize = 0;
        while n < 512
            invariant
                n <= 512,
                seen == rank(self.bits@, n as int),
                seen <= k,
                k < rank(self.bits@, 512),
            decreases 512 - n,
        {
            if self.get(n) {
                if seen == k {
                    return n as u64;
                }
                proof {
                    lemma_rank_bounds(self.bits@, 0, n as int);
                }
                seen += 1;
            }
            n += 1;
        }
        0
    }

    /// Counts the set bits again, word by word.
    fn compute_prefix_sum(&mut self)
        ensures
            final(self).wf(),
            final(self).bits == old(self).bits,
    {
        let mut seen: u64 = 0;
        let mut n: usize = 0;
        while n < 512
            invariant
                n <= 512,
                self.bits == old(self).bits,
                seen == rank(self.bits@, n as int),
                forall|i: int|
                    0 <= i < n / 64 ==> #[trigger] self.prefix_sum[i] == rank(self.bits@, 64 * (i + 1)),
            decreases 512 - n,
        {
            proof {
                lemma_rank_bounds(self.bits@, 0, n as int);
            }
            if self.get(n) {
                seen += 1;
            }
            n += 1;
            if n % 64 == 0 {
                self.prefix_sum[n / 64 - 1] = seen;
            }
        }
    }
}

/// Words that are all 0 hold no set bit.
pub proof fn lemma_zero_bits(words: Seq<u64>)
    requires
        words.len() == 8,
        forall|i: int| 0 <= i < 8 ==> words[i] == 0,
    ensures
        forall|n: int| 0 <= n < 512 ==> !bit_of(words, n),
        forall|n: int| 0 <= n <= 512 ==> rank(words, n) == 0,
{
    assert(forall|j: u64| j < 64 ==> (0u64 >> j) & 1u64 != 1u64) by (bit_vector);
    assert forall|n: int| 0 <= n < 512 implies !bit_of(words, n) by {
        let j = (n % 64) as u64;
        assert(j < 64);
        assert((0u64 >> j) & 1u64 != 1u64);
    }
    assert forall|n: int| 0 <= n <= 512 implies rank(words, n) == 0 by {
        lemma_zero_rank(words, n);
    }
}

proof fn lemma_zero_rank(words: Seq<u64>, n: int)
    requires
        0 <= n <= 512,
        forall|j: int| 0 <= j < 512 ==> !bit_of(words, j),
    ensures
        rank(words, n) == 0,
    decreases n,
{
    if n > 0 {
        lemma_zero_rank(words, n - 1);
    }
}

/// A bitmap of 512 bits that remembers where it searched last.
pub struct ContBitmap512 {
    pub prefix_sum: [u64; 8],
    pub bits: [u64; 8],
    pub last_pos: u16,
    pub first_zero: u16,
}

impl ContBitmap512 {
    /// The words of the bitmap.
    pub fn bits(&self) -> (words: &[u64; 8])
        ensures
            words@ == self.bits@,
    {
        &self.bits
    }

    /// The number of zero bits below the lowest set bit of the first
    /// word, if those are at least `len`; the first word has room for a
    /// run of `len` zero bits at its low end just then.
    pub fn search_zero_seq(&self, len: usize) -> (r: Option<u32>)
        requires
            len <= 64,
        ensures
            r is Some <==> vstd::std_specs::bits::u64_trailing_zeros(self.bits[0]) >= len,
            r matches Some(z) ==> z == vstd::std_specs::bits::u64_trailing_zeros(self.bits[0]),
    {
        let map: u64 = self.bits[0];
        let z: u32 = map.trailing_zeros();
        proof {
            vstd::std_specs::bits::axiom_u64_trailing_zeros(map);
        }
        if z as usize >= len {
            Some(z)
        } else {
            None
        }
    }
}

} // verus!
