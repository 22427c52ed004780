use vstd::prelude::*;

verus! {

/// Size classes that a per-CPU slab serves.
pub const NUM_CLASSES: usize = 63;

/// Binary logarithm of the size of a per-CPU slab.
pub const SHIFT: usize = 18;

/// Size of a per-CPU slab in bytes.
pub const SLAB_SIZE: usize = 262144;

/// The value of `begin` that marks a header as locked.
pub const LOCKED: u16 = 0xffff;

/// The header of the stack of one size class in a per-CPU slab: four
/// offsets into the slab, counted in words. The stack holds the words
/// from `begin` to `current`; it may grow up to `end`.
#[derive(Debug, Clone, Copy, PartialEq, Eq, Structural)]
pub struct Header {
    pub current: u16,
    pub end_copy: u16,
    pub begin: u16,
    pub end: u16,
}

/// The word that packs four 16-bit fields, the first in the lowest bits.
pub open spec fn pack(current: int, end_copy: int, begin: int, end: int) -> int {
    current + end_copy * 0x1_0000 + begin * 0x1_0000_0000 + end * 0x1_0000_0000_0000
}

impl Header {
    /// A header of the four offsets, each taken modulo 2^16.
    pub fn new(current: usize, end_copy: usize, begin: usize, end: usize) -> (hdr: Self)
        ensures
            hdr.current == current % 0x1_0000,
            hdr.end_copy == end_copy % 0x1_0000,
            hdr.begin == begin % 0x1_0000,
            hdr.end == end % 0x1_0000,
    {
        Self {
            current: (current % 0x1_0000) as u16,
            end_copy: (end_copy % 0x1_0000) as u16,
            begin: (begin % 0x1_0000) as u16,
            end: (end % 0x1_0000) as u16,
        }
    }

    pub fn is_locked(&self) -> (locked: bool)
        ensures
            locked == (self.begin == LOCKED),
    {
        self.begin == 0xffffu16
    }

    /// Locks the stack: no push and no pop goes through while `begin` is
    /// above every offset and `end` below.
    pub fn lock(&mut self)
        ensures
            final(self).begin == LOCKED,
            final(self).end == 0,
            final(self).current == old(self).current,
            final(self).end_copy == old(self).end_copy,
    {
        self.begin = 0xffffu16;
        self.end = 0;
    }

    /// A locked header of an empty stack.
    pub fn locked_header() -> (hdr: Self)
        ensures
            hdr == (Header { current: 0, end_copy: 0, begin: LOCKED, end: 0 }),
    {
        Self { current: 0, end_copy: 0, begin: 0xffffu16, end: 0 }
    }

    /// The four offsets, in the order `current`, `end_copy`, `begin`,
    /// `end`.
    pub fn inner_values(&self) -> (v: (usize, usize, usize, usize))
        ensures
            v.0 == self.current,
            v.1 == self.end_copy,
            v.2 == self.begin,
            v.3 == self.end,
    {
        (self.current as usize, self.end_copy as usize, self.begin as usize, self.end as usize)
    }

    /// The header that the word `hdr` packs.
    pub fn from_word(hdr: u64) -> (h: Self)
        ensures
            pack(h.current as int, h.end_copy as int, h.begin as int, h.end as int) == hdr,
            h == unpacked(hdr),
    {
        proof {
            let w = hdr as int;
            let q1 = w / 0x1_0000;
            let q2 = q1 / 0x1_0000;
            let q3 = q2 / 0x1_0000;
            vstd::arithmetic::div_mod::lemma_fundamental_div_mod(w, 0x1_0000);
            vstd::arithmetic::div_mod::lemma_fundamental_div_mod(q1, 0x1_0000);
            vstd::arithmetic::div_mod::lemma_fundamental_div_mod(q2, 0x1_0000);
            vstd::arithmetic::div_mod::lemma_div_denominator(w, 0x1_0000, 0x1_0000);
            vstd::arithmetic::div_mod::lemma_div_denominator(w, 0x1_0000_0000, 0x1_0000);
            assert(q2 == w / 0x1_0000_0000);
            assert(q3 == w / 0x1_0000_0000_0000);
            assert(q3 < 0x1_0000);
            vstd::arithmetic::div_mod::lemma_small_mod(q3 as nat, 0x1_0000);
        }
        Self {
            current: (hdr % 0x1_0000) as u16,
            end_copy: ((hdr / 0x1_0000) % 0x1_0000) as u16,
            begin: ((hdr / 0x1_0000_0000) % 0x1_0000) as u16,
            end: ((hdr / 0x1_0000_0000_0000) % 0x1_0000) as u16,
        }
    }

    /// The word that packs the header.
    pub fn to_word(&self) -> (hdr: u64)
        ensures
            hdr == pack(
                self.current as int,
                self.end_copy as int,
                self.begin as int,
                self.end as int,
            ),
    {
        (self.end as u64) * 0x1_0000_0000_0000 + (self.begin as u64) * 0x1_0000_0000 + (
        self.end_copy as u64) * 0x1_0000 + self.current as u64
    }
}

/// The header that a word packs.
pub open spec fn unpacked(w: u64) -> Header {
    Header {
        current: (w % 0x1_0000) as u16,
        end_copy: ((w / 0x1_0000) % 0x1_0000) as u16,
        begin: ((w / 0x1_0000_0000) % 0x1_0000) as u16,
        end: ((w / 0x1_0000_0000_0000) % 0x1_0000) as u16,
    }
}

/// The word of a header packs that header.
pub proof fn lemma_unpack(h: Header)
    ensures
        0 <= pack(h.current as int, h.end_copy as int, h.begin as int, h.end as int) <= u64::MAX,
        unpacked(
            pack(h.current as int, h.end_copy as int, h.begin as int, h.end as int) as u64,
        ) == h,
{
    let c = h.current as int;
    let e = h.end_copy as int;
    let b = h.begin as int;
    let d = h.end as int;
    let w = pack(c, e, b, d);
    let x2 = b + d * 0x1_0000;
    let x1 = e + x2 * 0x1_0000;
    assert(w == x1 * 0x1_0000 + c);
    vstd::arithmetic::div_mod::lemma_fundamental_div_mod_converse_mod(w, 0x1_0000, x1, c);
    vstd::arithmetic::div_mod::lemma_fundamental_div_mod_converse_div(w, 0x1_0000, x1, c);
    vstd::arithmetic::div_mod::lemma_fundamental_div_mod_converse_mod(x1, 0x1_0000, x2, e);
    vstd::arithmetic::div_mod::lemma_fundamental_div_mod_converse_div(x1, 0x1_0000, x2, e);
    vstd::arithmetic::div_mod::lemma_fundamental_div_mod_converse_mod(x2, 0x1_0000, d, b);
    vstd::arithmetic::div_mod::lemma_fundamental_div_mod_converse_div(x2, 0x1_0000, d, b);
    vstd::arithmetic::div_mod::lemma_div_denominator(w, 0x1_0000, 0x1_0000);
    vstd::arithmetic::div_mod::lemma_div_denominator(w, 0x1_0000_0000, 0x1_0000);
    assert(w / 0x1_0000 == x1);
    assert(w / 0x1_0000_0000 == x2);
    assert(w / 0x1_0000_0000_0000 == d);
    vstd::arithmetic::div_mod::lemma_small_mod(d as nat, 0x1_0000);
}

/// Packing is one to one: two headers with the same word are the same.
pub proof fn lemma_pack_injective(a: Header, b: Header)
    requires
        pack(a.current as int, a.end_copy as int, a.begin as int, a.end as int) == pack(
            b.current as int,
            b.end_copy as int,
            b.begin as int,
            b.end as int,
        ),
    ensures
        a == b,
{
    lemma_unpack(a);
    lemma_unpack(b);
}

/// Words that the headers of one slab take: one for each size class.
pub const HDR_WORDS: usize = 63;

/// Words of one slab, headers and stacks together.
pub const SLAB_WORDS: usize = 32768;

/// Words that the stack of each size class may take.
pub const CAPACITY: usize = 500;

/// The slab of one CPU: the headers of the stacks of the size classes,
/// and after them the memory of the stacks. The offsets in a header
/// count in words from the start of the slab, so that the word at offset
/// `o` is entry `o - HDR_WORDS` of `mem`.
pub struct CPUSlab {
    pub header: Vec<u64>,
    pub mem: Vec<usize>,
}

/// The slabs of all CPUs. `base` is the address at which the first slab
/// lies in memory; the slab of CPU `i` lies `i * SLAB_SIZE` bytes after
/// it.
pub struct PerCpuSlabs {
    pub slabs: Vec<CPUSlab>,
    pub base: usize,
}

/// The offset at which the stack of class `cl` begins in a slab whose
/// stacks are laid out.
pub open spec fn begin_of(cl: int) -> int {
    HDR_WORDS + cl * CAPACITY
}

impl CPUSlab {
    /// The header of class `cl`.
    pub open spec fn hdr(&self, cl: int) -> Header {
        unpacked(self.header@[cl])
    }

    /// Whether the stack of class `cl` is laid out: it begins at its
    /// place, may take `CAPACITY` words, and holds no more.
    pub open spec fn laid_out(&self, cl: int) -> bool {
        let h = self.hdr(cl);
        &&& h.begin == begin_of(cl)
        &&& h.end == begin_of(cl) + CAPACITY
        &&& h.end_copy == h.end
        &&& h.begin <= h.current <= h.end
    }

    /// Whether the stack of class `cl` is laid out and empty in a slab at
    /// `slab_addr`, with its own address in its first word.
    pub open spec fn ready(&self, cl: int, slab_addr: int) -> bool {
        &&& self.laid_out(cl)
        &&& self.hdr(cl).current == begin_of(cl)
        &&& self.stack(cl).len() == 0
        &&& self.mem@[begin_of(cl) - HDR_WORDS] == slab_addr + 8 * begin_of(cl)
    }

    /// Whether the stack of class `cl` is not laid out yet: every offset
    /// is 0, so that nothing can be pushed and nothing popped.
    pub open spec fn blank(&self, cl: int) -> bool {
        self.header@[cl] == 0
    }

    /// The cells on the stack of class `cl`, the one that was pushed
    /// last last.
    pub open spec fn stack(&self, cl: int) -> Seq<usize> {
        if self.laid_out(cl) {
            self.mem@.subrange(self.hdr(cl).begin - HDR_WORDS, self.hdr(cl).current - HDR_WORDS)
        } else {
            Seq::empty()
        }
    }

    /// The invariant of a slab: every stack is laid out or blank, and no
    /// cell on a stack is at address 0.
    pub open spec fn wf(&self) -> bool {
        &&& self.header@.len() == HDR_WORDS
        &&& self.mem@.len() == SLAB_WORDS - HDR_WORDS
        &&& forall|cl: int|
            0 <= cl < NUM_CLASSES ==> (#[trigger] self.laid_out(cl) || self.blank(cl))
        &&& forall|cl: int, i: int|
            0 <= cl < NUM_CLASSES && self.laid_out(cl) && 0 <= i < self.stack(cl).len()
                ==> #[trigger] self.stack(cl)[i] != 0
    }

    /// A slab whose stacks are blank.
    pub fn new() -> (slab: Self)
        ensures
            slab.wf(),
            forall|cl: int| 0 <= cl < NUM_CLASSES ==> slab.blank(cl),
    {
        let header: Vec<u64> = vec![0u64; HDR_WORDS];
        let words: usize = SLAB_WORDS - HDR_WORDS;
        let mem: Vec<usize> = vec![0usize; words];
        let slab = CPUSlab { header, mem };
        proof {
            assert forall|cl: int| 0 <= cl < NUM_CLASSES implies (#[trigger] slab.laid_out(cl)
                || slab.blank(cl)) by {
                assert(slab.blank(cl));
            }
            assert forall|cl: int| 0 <= cl < NUM_CLASSES implies !slab.laid_out(cl) by {
                assert(slab.hdr(cl).begin == 0);
            }
        }
        slab
    }

    /// Pushes the cell at `item` onto the stack of class `cl`. Returns
    /// false, and changes nothing, when the stack is full or blank.
    pub fn push(&mut self, item: usize, cl: usize) -> (pushed: bool)
        requires
            old(self).wf(),
            cl < NUM_CLASSES,
            item != 0,
        ensures
            final(self).wf(),
            pushed <==> old(self).hdr(cl as int).current < old(self).hdr(cl as int).end,
            !pushed ==> final(self).header@ == old(self).header@ && final(self).mem@ == old(self).mem@,
            pushed ==> final(self).laid_out(cl as int) && final(self).stack(cl as int) == old(self).stack(cl as int).push(item),
            pushed ==> old(self).laid_out(cl as int) && final(self).hdr(cl as int).current == old(self).hdr(cl as int).current + 1,
            forall|k: int|
                0 <= k < NUM_CLASSES && k != cl ==> final(self).header@[k] == old(self).header@[k]
                    && (old(self).laid_out(k) ==> #[trigger] final(self).stack(k) == old(self).stack(k)),
    {
        let mut hdr: Header = Header::from_word(self.header[cl]);
        proof {
            assert(self.laid_out(cl as int) || self.blank(cl as int));
        }
        if hdr.current >= hdr.end {
            return false;
        }
        let current: usize = hdr.current as usize;
        self.mem[current - HDR_WORDS] = item;
        hdr.current = hdr.current + 1;
        self.header[cl] = hdr.to_word();
        proof {
            lemma_unpack(hdr);
            let c = cl as int;
            assert(self.hdr(c) == hdr);
            assert(self.stack(c) =~= old(self).stack(c).push(item));
            assert forall|k: int| 0 <= k < NUM_CLASSES && k != cl implies self.header@[k] == old(self).header@[k] && (old(self).laid_out(k) ==> #[trigger] self.stack(k) == old(self).stack(
                k,
            )) by {
                if old(self).laid_out(k) {
                    assert(self.hdr(k) == old(self).hdr(k));
                    assert(self.stack(k) =~= old(self).stack(k));
                }
            }
            assert forall|k: int| 0 <= k < NUM_CLASSES implies (#[trigger] self.laid_out(k)
                || self.blank(k)) by {
                if k != cl {
                    assert(old(self).laid_out(k) || old(self).blank(k));
                    assert(self.header@[k] == old(self).header@[k]);
                }
            }
            assert forall|k: int, i: int|
                0 <= k < NUM_CLASSES && self.laid_out(k) && 0 <= i < self.stack(k).len()
                    implies #[trigger] self.stack(k)[i] != 0 by {
                if k != cl {
                    assert(self.header@[k] == old(self).header@[k]);
                    assert(old(self).laid_out(k));
                    assert(self.stack(k) == old(self).stack(k));
                    assert(old(self).stack(k)[i] != 0);
                } else {
                    if i < old(self).stack(c).len() {
                        assert(old(self).stack(c)[i] != 0);
                    }
                }
            }
        }
        true
    }

    /// Pops the cell that was pushed last from the stack of class `cl`.
    /// Returns nothing, and changes nothing, when the stack is empty or
    /// blank.
    pub fn pop(&mut self, cl: usize) -> (r: Option<usize>)
        requires
            old(self).wf(),
            cl < NUM_CLASSES,
        ensures
            final(self).wf(),
            r is Some <==> old(self).hdr(cl as int).current > old(self).hdr(cl as int).begin,
            r is None ==> final(self).header@ == old(self).header@,
            final(self).mem@ == old(self).mem@,
            r matches Some(item) ==> item != 0 && item == old(self).stack(cl as int).last()
                && final(self).laid_out(cl as int) && final(self).stack(cl as int) == old(self).stack(cl as int).drop_last(),
            r is Some ==> old(self).laid_out(cl as int) && final(self).hdr(cl as int).current == old(self).hdr(cl as int).current - 1,
            forall|k: int|
                0 <= k < NUM_CLASSES && k != cl ==> final(self).header@[k] == old(self).header@[k]
                    && #[trigger] final(self).stack(k) == old(self).stack(k),
    {
        let mut hdr: Header = Header::from_word(self.header[cl]);
        proof {
            assert(self.laid_out(cl as int) || self.blank(cl as int));
        }
        if hdr.current <= hdr.begin {
            return None;
        }
        let current: usize = hdr.current as usize;
        let result: usize = self.mem[current - 1 - HDR_WORDS];
        hdr.current = hdr.current - 1;
        self.header[cl] = hdr.to_word();
        proof {
            lemma_unpack(hdr);
            let c = cl as int;
            assert(self.hdr(c) == hdr);
            assert(self.stack(c) =~= old(self).stack(c).drop_last());
            assert(result == old(self).stack(c).last());
            assert(old(self).stack(c)[old(self).stack(c).len() - 1] != 0);
            assert forall|k: int| 0 <= k < NUM_CLASSES implies (#[trigger] self.laid_out(k)
                || self.blank(k)) by {
                if k != cl {
                    assert(old(self).laid_out(k) || old(self).blank(k));
                    assert(self.header@[k] == old(self).header@[k]);
                }
            }
            assert forall|k: int, i: int|
                0 <= k < NUM_CLASSES && self.laid_out(k) && 0 <= i < self.stack(k).len()
                    implies #[trigger] self.stack(k)[i] != 0 by {
                if k != cl {
                    assert(self.header@[k] == old(self).header@[k]);
                    assert(old(self).laid_out(k));
                    assert(self.stack(k) == old(self).stack(k));
                    assert(old(self).stack(k)[i] != 0);
                } else {
                    assert(old(self).stack(c)[i] != 0);
                }
            }
        }
        Some(result)
    }
}

impl CPUSlab {
    /// Lays out the stacks of the slab, which lies at `slab_addr`: the
    /// stack of each class gets `CAPACITY` words, one stack after the
    /// other behind the headers, and is empty. Each header is locked
    /// while the stacks are laid out. The first word of each stack is
    /// set to its own address, so that it can be fetched ahead before
    /// anything is pushed.
    pub fn init(&mut self, slab_addr: usize)
        requires
            old(self).wf(),
            slab_addr + SLAB_SIZE <= usize::MAX,
        ensures
            final(self).wf(),
            forall|cl: int| 0 <= cl < NUM_CLASSES ==> #[trigger] final(self).ready(cl, slab_addr as int),
    {
        let mut cl: usize = 0;
        while cl < NUM_CLASSES
            invariant
                cl <= NUM_CLASSES,
                self.header@.len() == HDR_WORDS,
                self.mem@ == old(self).mem@,
                forall|k: int|
                    cl <= k < NUM_CLASSES ==> self.header@[k] == old(self).header@[k],
                old(self).wf(),
            decreases NUM_CLASSES - cl,
        {
            let mut hdr: Header = Header::from_word(self.header[cl]);
            proof {
                assert(old(self).laid_out(cl as int) || old(self).blank(cl as int));
                assert(!(hdr.begin == LOCKED));
            }
            hdr.lock();
            self.header[cl] = hdr.to_word();
            cl += 1;
        }
        let mut byte_used: usize = HDR_WORDS * 8;
        let mut cl: usize = 0;
        while cl < NUM_CLASSES
            invariant
                cl <= NUM_CLASSES,
                slab_addr + SLAB_SIZE <= usize::MAX,
                self.header@.len() == HDR_WORDS,
                self.mem@.len() == SLAB_WORDS - HDR_WORDS,
                byte_used == 8 * begin_of(cl as int),
                forall|k: int| 0 <= k < cl ==> #[trigger] self.ready(k, slab_addr as int),
            decreases NUM_CLASSES - cl,
        {
            let ghost before = *self;
            let current_addr: usize = slab_addr + byte_used;
            let cap: usize = Self::get_capacity(cl);
            let offset: usize = byte_used / 8;
            if cap != 0 {
                self.mem[offset - HDR_WORDS] = current_addr;
            }
            byte_used += cap * 8;
            let current: usize = offset;
            let begin: usize = offset;
            let end_copy: usize = offset + cap;
            let end: usize = offset + cap;
            let hdr: Header = Header::new(current, end_copy, begin, end);
            self.header[cl] = hdr.to_word();
            proof {
                lemma_unpack(hdr);
                assert(self.hdr(cl as int) == hdr);
                assert forall|k: int| 0 <= k < cl + 1 implies #[trigger] self.ready(
                    k,
                    slab_addr as int,
                ) by {
                    if k < cl {
                        assert(self.header@[k] == before.header@[k]);
                        assert(before.ready(k, slab_addr as int));
                        assert(self.hdr(k) == before.hdr(k));
                        assert(self.mem@[begin_of(k) - HDR_WORDS] == before.mem@[begin_of(k)
                            - HDR_WORDS]);
                    }
                }
            }
            cl += 1;
        }
        assert(byte_used <= SLAB_SIZE);
        proof {
            assert forall|k: int| 0 <= k < NUM_CLASSES implies (#[trigger] self.laid_out(k)
                || self.blank(k)) by {
                assert(self.ready(k, slab_addr as int));
            }
            assert forall|k: int, i: int|
                0 <= k < NUM_CLASSES && self.laid_out(k) && 0 <= i < self.stack(k).len()
                    implies #[trigger] self.stack(k)[i] != 0 by {
                assert(self.ready(k, slab_addr as int));
            }
        }
    }

    /// The words that the stack of class `cl` may take.
    pub fn get_capacity(cl: usize) -> (cap: usize)
        ensures
            cap == CAPACITY,
    {
        500
    }
}

impl PerCpuSlabs {
    /// The invariant of the slabs: each slab is well-formed, and all of
    /// them lie in the addresses of the machine.
    pub open spec fn wf(&self) -> bool {
        &&& self.base + self.slabs@.len() * SLAB_SIZE <= usize::MAX
        &&& forall|cpu: int| 0 <= cpu < self.slabs@.len() ==> (#[trigger] self.slabs@[cpu]).wf()
    }

    /// The cells on the stack of class `cl` of CPU `cpu`.
    pub open spec fn stack(&self, cpu: int, cl: int) -> Seq<usize> {
        self.slabs@[cpu].stack(cl)
    }

    /// The slabs of `ncpu` CPUs, to lie at `base`; every stack is blank.
    pub fn new(ncpu: usize, base: usize) -> (slabs: Self)
        requires
            base + ncpu * SLAB_SIZE <= usize::MAX,
        ensures
            slabs.wf(),
            slabs.base == base,
            slabs.slabs@.len() == ncpu,
            forall|cpu: int, cl: int|
                0 <= cpu < ncpu && 0 <= cl < NUM_CLASSES ==> #[trigger] slabs.slabs@[cpu].blank(cl),
    {
        let mut slabs: Vec<CPUSlab> = Vec::new();
        let mut i: usize = 0;
        while i < ncpu
            invariant
                i <= ncpu,
                slabs@.len() == i,
                forall|cpu: int| 0 <= cpu < i ==> (#[trigger] slabs@[cpu]).wf(),
                forall|cpu: int, cl: int|
                    0 <= cpu < i && 0 <= cl < NUM_CLASSES ==> #[trigger] slabs@[cpu].blank(cl),
            decreases ncpu - i,
        {
            slabs.push(CPUSlab::new());
            i += 1;
        }
        PerCpuSlabs { slabs, base }
    }

    /// Lays out the stacks of every CPU.
    pub fn init(&mut self)
        requires
            old(self).wf(),
        ensures
            final(self).wf(),
            final(self).base == old(self).base,
            final(self).slabs@.len() == old(self).slabs@.len(),
            forall|cpu: int, cl: int|
                0 <= cpu < final(self).slabs@.len() && 0 <= cl < NUM_CLASSES ==> #[trigger] final(self).slabs@[cpu].ready(cl, final(self).base + cpu * SLAB_SIZE),
    {
        let mut i: usize = 0;
        while i < self.slabs.len()
            invariant
                i <= self.slabs@.len(),
                self.wf(),
                self.base == old(self).base,
                self.slabs@.len() == old(self).slabs@.len(),
                forall|cpu: int, cl: int|
                    0 <= cpu < i && 0 <= cl < NUM_CLASSES ==> #[trigger] self.slabs@[cpu].ready(
                        cl,
                        self.base + cpu * SLAB_SIZE,
                    ),
            decreases self.slabs@.len() - i,
        {
            let ghost before = *self;
            self.init_cpu(i);
            proof {
                assert forall|cpu: int, cl: int|
                    0 <= cpu < i + 1 && 0 <= cl < NUM_CLASSES implies #[trigger] self.slabs@[cpu].ready(
                    cl,
                    self.base + cpu * SLAB_SIZE,
                ) by {
                    if cpu < i {
                        assert(self.slabs@[cpu] == before.slabs@[cpu]);
                        assert(before.slabs@[cpu].ready(cl, before.base + cpu * SLAB_SIZE));
                    }
                }
            }
            i += 1;
        }
    }

    /// Lays out the stacks of CPU `cpu`; the stacks of the other CPUs
    /// stay as they are.
    pub fn init_cpu(&mut self, cpu: usize)
        requires
            old(self).wf(),
            cpu < old(self).slabs@.len(),
        ensures
            final(self).wf(),
            final(self).base == old(self).base,
            final(self).slabs@.len() == old(self).slabs@.len(),
            forall|other: int|
                0 <= other < final(self).slabs@.len() && other != cpu ==> #[trigger] final(self).slabs@[other] == old(self).slabs@[other],
            forall|cl: int|
                0 <= cl < NUM_CLASSES ==> #[trigger] final(self).slabs@[cpu as int].ready(
                    cl,
                    old(self).base + cpu * SLAB_SIZE,
                ),
    {
        proof {
            assert(self.slabs@[cpu as int].wf());
            assert(cpu * SLAB_SIZE + SLAB_SIZE <= self.slabs@.len() * SLAB_SIZE) by (nonlinear_arith)
                requires
                    cpu < self.slabs@.len(),
            ;
        }
        let slab_addr: usize = self.base + cpu * SLAB_SIZE;
        self.slabs[cpu].init(slab_addr);
        proof {
            assert forall|c: int| 0 <= c < self.slabs@.len() implies (#[trigger] self.slabs@[c]).wf() by {
                if c != cpu {
                    assert(self.slabs@[c] == old(self).slabs@[c]);
                }
            }
        }
    }

    /// Pops the cell that was pushed last from the stack of class `cl`
    /// of CPU `cpu`. Fails with the number of the CPU, and changes
    /// nothing, when the stack is empty or blank.
    pub fn pop(&mut self, cpu: usize, cl: usize) -> (r: Result<usize, usize>)
        requires
            old(self).wf(),
            cpu < old(self).slabs@.len(),
            cl < NUM_CLASSES,
        ensures
            final(self).wf(),
            final(self).base == old(self).base,
            final(self).slabs@.len() == old(self).slabs@.len(),
            forall|other: int|
                0 <= other < final(self).slabs@.len() && other != cpu ==> #[trigger] final(self).slabs@[other] == old(self).slabs@[other],
            forall|k: int|
                0 <= k < NUM_CLASSES && k != cl ==> #[trigger] final(self).stack(cpu as int, k)
                    == old(self).stack(cpu as int, k),
            r is Ok <==> old(self).slabs@[cpu as int].hdr(cl as int).current > old(self).slabs@[cpu as int].hdr(cl as int).begin,
            r is Ok ==> old(self).slabs@[cpu as int].laid_out(cl as int) && final(self).slabs@[cpu as int].laid_out(cl as int) && final(self).slabs@[cpu as int].hdr(cl as int).current == old(self).slabs@[cpu as int].hdr(cl as int).current - 1,
            r matches Ok(item) ==> item != 0 && item == old(self).stack(cpu as int, cl as int).last()
                && final(self).stack(cpu as int, cl as int) == old(self).stack(
                cpu as int,
                cl as int,
            ).drop_last(),
            r matches Err(id) ==> id == cpu && final(self).slabs@[cpu as int].header@ == old(self).slabs@[cpu as int].header@ && final(self).slabs@[cpu as int].mem@ == old(self).slabs@[cpu as int].mem@,
    {
        proof {
            assert(self.slabs@[cpu as int].wf());
        }
        let r = self.slabs[cpu].pop(cl);
        proof {
            assert forall|c: int| 0 <= c < self.slabs@.len() implies (#[trigger] self.slabs@[c]).wf() by {
                if c != cpu {
                    assert(self.slabs@[c] == old(self).slabs@[c]);
                }
            }
        }
        match r {
            Some(item) => Ok(item),
            None => Err(cpu),
        }
    }

    /// Pushes the cell at `ptr` onto the stack of class `cl` of CPU
    /// `cpu`. Fails with the number of the CPU, and changes nothing,
    /// when the stack is full or blank.
    pub fn push(&mut self, cpu: usize, ptr: usize, cl: usize) -> (r: Result<(), usize>)
        requires
            old(self).wf(),
            cpu < old(self).slabs@.len(),
            cl < NUM_CLASSES,
            ptr != 0,
        ensures
            final(self).wf(),
            final(self).base == old(self).base,
            final(self).slabs@.len() == old(self).slabs@.len(),
            forall|other: int|
                0 <= other < final(self).slabs@.len() && other != cpu ==> #[trigger] final(self).slabs@[other] == old(self).slabs@[other],
            forall|k: int|
                0 <= k < NUM_CLASSES && k != cl && old(self).slabs@[cpu as int].laid_out(k)
                    ==> #[trigger] final(self).stack(cpu as int, k) == old(self).stack(cpu as int, k),
            r is Ok <==> old(self).slabs@[cpu as int].hdr(cl as int).current < old(self).slabs@[cpu as int].hdr(cl as int).end,
            r is Ok ==> old(self).slabs@[cpu as int].laid_out(cl as int) && final(self).slabs@[cpu as int].laid_out(cl as int) && final(self).slabs@[cpu as int].hdr(cl as int).current == old(self).slabs@[cpu as int].hdr(cl as int).current + 1,
            r is Ok ==> final(self).stack(cpu as int, cl as int) == old(self).stack(
                cpu as int,
                cl as int,
            ).push(ptr),
            r matches Err(id) ==> id == cpu && final(self).slabs@[cpu as int].header@ == old(self).slabs@[cpu as int].header@ && final(self).slabs@[cpu as int].mem@ == old(self).slabs@[cpu as int].mem@,
    {
        proof {
            assert(self.slabs@[cpu as int].wf());
        }
        let pushed = self.slabs[cpu].push(ptr, cl);
        proof {
            assert forall|c: int| 0 <= c < self.slabs@.len() implies (#[trigger] self.slabs@[c]).wf() by {
                if c != cpu {
                    assert(self.slabs@[c] == old(self).slabs@[c]);
                }
            }
        }
        if pushed {
            Ok(())
        } else {
            Err(cpu)
        }
    }

    /// The words that the stack of class `cl` of CPU `cpu` has room for.
    pub open spec fn room(&self, cpu: int, cl: int) -> int {
        self.slabs@[cpu].hdr(cl).end - self.slabs@[cpu].hdr(cl).current
    }

    /// Pushes the cells of `batch`, from the first on, onto the stack of
    /// class `cl` of CPU `cpu`: `len - start_idx` of them, or as many as
    /// the stack has room for. Returns `start_idx` plus the number of
    /// cells that it pushed.
    pub fn push_batch(&mut self, cpu: usize, batch: &Vec<usize>, cl: usize, len: usize, start_idx: usize) -> (n:
        usize)
        requires
            old(self).wf(),
            cpu < old(self).slabs@.len(),
            cl < NUM_CLASSES,
            start_idx <= len,
            len - start_idx <= batch@.len(),
            forall|i: int| 0 <= i < len - start_idx ==> batch@[i] != 0,
        ensures
            final(self).wf(),
            final(self).base == old(self).base,
            final(self).slabs@.len() == old(self).slabs@.len(),
            start_idx <= n <= len,
            n - start_idx == if len - start_idx <= old(self).room(cpu as int, cl as int) {
                len - start_idx
            } else if old(self).room(cpu as int, cl as int) >= 0 {
                old(self).room(cpu as int, cl as int)
            } else {
                0
            },
            n > start_idx ==> final(self).stack(cpu as int, cl as int) == old(self).stack(
                cpu as int,
                cl as int,
            ) + batch@.subrange(0, n - start_idx),
            n == start_idx ==> final(self).slabs@[cpu as int].header@ == old(self).slabs@[cpu as int].header@ && final(self).slabs@[cpu as int].mem@ == old(self).slabs@[cpu as int].mem@,
            forall|other: int|
                0 <= other < final(self).slabs@.len() && other != cpu ==> #[trigger] final(self).slabs@[other] == old(self).slabs@[other],
    {
        let mut n: usize = start_idx;
        let mut full: bool = false;
        let ghost room0 = self.room(cpu as int, cl as int);
        let ghost stack0 = self.stack(cpu as int, cl as int);
        proof {
            assert(self.slabs@[cpu as int].wf());
            assert(self.slabs@[cpu as int].laid_out(cl as int) || self.slabs@[cpu as int].blank(
                cl as int,
            ));
            assert(batch@.subrange(0, 0) =~= Seq::<usize>::empty());
        }
        while n < len && !full
            invariant
                self.wf(),
                self.base == old(self).base,
                self.slabs@.len() == old(self).slabs@.len(),
                cpu < self.slabs@.len(),
                cl < NUM_CLASSES,
                start_idx <= n <= len,
                len - start_idx <= batch@.len(),
                forall|i: int| 0 <= i < len - start_idx ==> batch@[i] != 0,
                room0 == old(self).room(cpu as int, cl as int),
                stack0 == old(self).stack(cpu as int, cl as int),
                room0 >= 0,
                n - start_idx <= room0,
                self.room(cpu as int, cl as int) == room0 - (n - start_idx),
                full ==> self.room(cpu as int, cl as int) == 0,
                n > start_idx ==> self.slabs@[cpu as int].laid_out(cl as int) && self.stack(
                    cpu as int,
                    cl as int,
                ) == stack0 + batch@.subrange(0, n - start_idx),
                n == start_idx ==> self.slabs@[cpu as int].header@ == old(self).slabs@[cpu as int].header@ && self.slabs@[cpu as int].mem@ == old(self).slabs@[cpu as int].mem@,
                forall|other: int|
                    0 <= other < self.slabs@.len() && other != cpu ==> #[trigger] self.slabs@[other]
                        == old(self).slabs@[other],
            decreases len - n + if full {
                0int
            } else {
                1int
            },
        {
            let ptr: usize = batch[n - start_idx];
            let ghost before = *self;
            let res = self.push(cpu, ptr, cl);
            if res.is_ok() {
                proof {
                    let k = n - start_idx;
                    assert(batch@.subrange(0, k + 1) =~= batch@.subrange(0, k).push(ptr));
                    if k == 0 {
                        assert(before.stack(cpu as int, cl as int) == stack0);
                        assert(stack0 + batch@.subrange(0, 0) =~= stack0);
                    }
                    assert(self.stack(cpu as int, cl as int) =~= stack0 + batch@.subrange(
                        0,
                        k + 1,
                    ));
                    assert(self.slabs@[cpu as int].wf());
                    assert(self.slabs@[cpu as int].laid_out(cl as int)
                        || self.slabs@[cpu as int].blank(cl as int));
                }
                n += 1;
            } else {
                full = true;
            }
        }
        n
    }

    /// Pops cells from the stack of class `cl` of CPU `cpu` into the
    /// entries of `batch` from `start_idx` on, up to entry `len`, or as
    /// many as the stack holds. Returns the index after the last entry
    /// that it wrote.
    pub fn pop_batch(&mut self, cpu: usize, batch: &mut Vec<usize>, cl: usize, len: usize, start_idx: usize) -> (n:
        usize)
        requires
            old(self).wf(),
            cpu < old(self).slabs@.len(),
            cl < NUM_CLASSES,
            start_idx <= len <= old(batch)@.len(),
        ensures
            final(self).wf(),
            final(self).base == old(self).base,
            final(self).slabs@.len() == old(self).slabs@.len(),
            final(batch)@.len() == old(batch)@.len(),
            start_idx <= n <= len,
            n - start_idx == if len - start_idx <= old(self).stack(cpu as int, cl as int).len() {
                len - start_idx
            } else {
                old(self).stack(cpu as int, cl as int).len() as int
            },
            final(self).stack(cpu as int, cl as int) == old(self).stack(
                cpu as int,
                cl as int,
            ).subrange(0, old(self).stack(cpu as int, cl as int).len() - (n - start_idx)),
            forall|i: int|
                0 <= i < n - start_idx ==> #[trigger] final(batch)@[start_idx + i] == old(self).stack(cpu as int, cl as int)[old(self).stack(cpu as int, cl as int).len() - 1 - i],
            forall|k: int|
                0 <= k < final(batch)@.len() && !(start_idx <= k < n) ==> final(batch)@[k] == old(batch)@[k],
            forall|other: int|
                0 <= other < final(self).slabs@.len() && other != cpu ==> #[trigger] final(self).slabs@[other] == old(self).slabs@[other],
    {
        let mut n: usize = start_idx;
        let mut empty: bool = false;
        let ghost stack0 = self.stack(cpu as int, cl as int);
        proof {
            assert(self.slabs@[cpu as int].wf());
            assert(self.slabs@[cpu as int].laid_out(cl as int) || self.slabs@[cpu as int].blank(
                cl as int,
            ));
            assert(stack0.subrange(0, stack0.len() as int) =~= stack0);
        }
        while n < len && !empty
            invariant
                self.wf(),
                self.base == old(self).base,
                self.slabs@.len() == old(self).slabs@.len(),
                batch@.len() == old(batch)@.len(),
                cpu < self.slabs@.len(),
                cl < NUM_CLASSES,
                start_idx <= n <= len <= batch@.len(),
                stack0 == old(self).stack(cpu as int, cl as int),
                n - start_idx <= stack0.len(),
                self.stack(cpu as int, cl as int) == stack0.subrange(
                    0,
                    stack0.len() - (n - start_idx),
                ),
                self.slabs@[cpu as int].hdr(cl as int).current - self.slabs@[cpu as int].hdr(
                    cl as int,
                ).begin == stack0.len() - (n - start_idx),
                empty ==> n - start_idx == stack0.len(),
                forall|i: int|
                    0 <= i < n - start_idx ==> #[trigger] batch@[start_idx + i] == stack0[stack0.len()
                        - 1 - i],
                forall|k: int|
                    0 <= k < batch@.len() && !(start_idx <= k < n) ==> batch@[k] == old(batch)@[k],
                forall|other: int|
                    0 <= other < self.slabs@.len() && other != cpu ==> #[trigger] self.slabs@[other]
                        == old(self).slabs@[other],
            decreases len - n + if empty {
                0int
            } else {
                1int
            },
        {
            let ghost before = *self;
            let ghost batch_before = batch@;
            match self.pop(cpu, cl) {
                Ok(p) => {
                    batch[n] = p;
                    proof {
                        let k = n - start_idx;
                        let cur = before.stack(cpu as int, cl as int);
                        assert(p == cur.last());
                        assert(cur.last() == stack0[stack0.len() - 1 - k]);
                        assert(self.stack(cpu as int, cl as int) =~= stack0.subrange(
                            0,
                            stack0.len() - (k + 1),
                        ));
                        assert forall|i: int| 0 <= i < k + 1 implies #[trigger] batch@[start_idx
                            + i] == stack0[stack0.len() - 1 - i] by {
                            if i < k {
                                assert(batch@[start_idx + i] == batch_before[start_idx + i]);
                            }
                        }
                    }
                    n += 1;
                },
                Err(_) => {
                    empty = true;
                },
            }
        }
        n
    }
}

} // verus!
