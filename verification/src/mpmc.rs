use vstd::prelude::*;

verus! {

/// A queue with room for 2 items.
pub type Q2<T> = MpMcQueue<T, 2>;

/// A queue with room for 4 items.
pub type Q4<T> = MpMcQueue<T, 4>;

/// A queue with room for 8 items.
pub type Q8<T> = MpMcQueue<T, 8>;

/// A queue with room for 16 items.
pub type Q16<T> = MpMcQueue<T, 16>;

/// A queue with room for 32 items.
pub type Q32<T> = MpMcQueue<T, 32>;

/// A queue with room for 64 items.
pub type Q64<T> = MpMcQueue<T, 64>;

/// A queue with room for 128 items.
pub type Q128<T> = MpMcQueue<T, 128>;

/// One slot of the queue. `sequence` tells what the slot waits for: the
/// position of the item that is put into it next, while it is empty, and
/// one more than the position of its item, while it holds one.
pub struct Cell<T> {
    pub data: Option<T>,
    pub sequence: usize,
}

/// A bounded queue of `N` slots that are used in a ring. Items are put
/// in at `enqueue_pos` and taken out at `dequeue_pos`; both positions
/// count up, and position `p` uses the slot `p % N`.
pub struct MpMcQueue<T, const N: usize> {
    pub buffer: Vec<Cell<T>>,
    pub dequeue_pos: usize,
    pub enqueue_pos: usize,
}

/// The difference of two positions as a signed byte sees it: their
/// difference modulo 256, taken between -128 and 127.
pub open spec fn byte_diff(seq: int, pos: int) -> int {
    let d = (seq - pos) % 256;
    if d >= 128 {
        d - 256
    } else {
        d
    }
}

/// The difference of two positions as a signed byte sees it.
pub fn diff(seq: usize, pos: usize) -> (d: i8)
    ensures
        d == byte_diff(seq as int, pos as int),
{
    let a: u16 = (seq % 256) as u16;
    let b: u16 = (pos % 256) as u16;
    let d: u16 = (a + 256 - b) % 256;
    proof {
        vstd::arithmetic::div_mod::lemma_sub_mod_noop(seq as int, pos as int, 256);
        vstd::arithmetic::div_mod::lemma_mod_add_multiples_vanish(a as int - b as int, 256);
    }
    if d >= 128 {
        (d as i16 - 256) as i8
    } else {
        d as i8
    }
}

/// The difference of two positions that lie less than 128 apart is what
/// a signed byte sees.
pub proof fn lemma_byte_diff(seq: int, pos: int)
    requires
        -128 <= seq - pos < 128,
    ensures
        byte_diff(seq, pos) == seq - pos,
{
    let x = seq - pos;
    if x >= 0 {
        vstd::arithmetic::div_mod::lemma_small_mod(x as nat, 256);
    } else {
        vstd::arithmetic::div_mod::lemma_small_mod((x + 256) as nat, 256);
        vstd::arithmetic::div_mod::lemma_mod_add_multiples_vanish(x, 256);
    }
}

impl<T, const N: usize> MpMcQueue<T, N> {
    /// The number of items in the queue.
    pub open spec fn count(&self) -> int {
        self.enqueue_pos - self.dequeue_pos
    }

    /// Whether the slots fit the two positions: the slots of the
    /// positions from `dequeue_pos` up to `enqueue_pos` hold the items of
    /// the queue, and the slots of the `N - count` positions after them
    /// are empty and wait for those positions.
    pub open spec fn wf(&self) -> bool {
        &&& 2 <= N <= 128
        &&& self.buffer@.len() == N
        &&& self.dequeue_pos <= self.enqueue_pos <= self.dequeue_pos + N
        &&& self.dequeue_pos + N <= usize::MAX
        &&& forall|p: int|
            self.dequeue_pos <= p < self.enqueue_pos ==> (#[trigger] self.slot(p)).sequence == p + 1
                && self.slot(p).data is Some
        &&& forall|p: int|
            self.enqueue_pos <= p < self.dequeue_pos + N ==> (#[trigger] self.slot(p)).sequence == p
                && self.slot(p).data is None
    }

    /// The slot that position `p` uses.
    pub open spec fn slot(&self, p: int) -> Cell<T> {
        self.buffer@[p % (N as int)]
    }

    /// The items of the queue, the one that is taken out next first.
    pub open spec fn view(&self) -> Seq<T> {
        Seq::new(self.count() as nat, |j: int| self.slot(self.dequeue_pos + j).data->Some_0)
    }

    /// Two positions less than `N` apart use different slots.
    pub proof fn lemma_slots_differ(p: int, q: int)
        requires
            N > 0,
            0 <= p < q < p + N,
        ensures
            p % (N as int) != q % (N as int),
    {
        let n = N as int;
        vstd::arithmetic::div_mod::lemma_fundamental_div_mod(p, n);
        vstd::arithmetic::div_mod::lemma_fundamental_div_mod(q, n);
        if p % n == q % n {
            assert(q - p == n * (q / n) - n * (p / n));
            assert(q - p == n * (q / n - p / n)) by (nonlinear_arith)
                requires
                    q - p == n * (q / n) - n * (p / n),
            ;
            let k = q / n - p / n;
            assert(0 < n * k < n);
            assert(false) by (nonlinear_arith)
                requires
                    0 < n * k < n,
                    n > 0,
            ;
        }
    }

    /// An empty queue.
    pub fn new() -> (q: Self)
        requires
            2 <= N <= 128,
        ensures
            q.wf(),
            q@.len() == 0,
            q.enqueue_pos == 0,
            q.dequeue_pos == 0,
    {
        let mut buffer: Vec<Cell<T>> = Vec::new();
        let mut cell_count: usize = 0;
        while cell_count != N
            invariant
                cell_count <= N,
                buffer@.len() == cell_count,
                forall|i: int|
                    0 <= i < cell_count ==> (#[trigger] buffer@[i]).sequence == i && buffer@[i].data
                        is None,
            decreases N - cell_count,
        {
            buffer.push(Cell { data: None, sequence: cell_count });
            cell_count += 1;
        }
        let q = MpMcQueue { buffer, dequeue_pos: 0, enqueue_pos: 0 };
        proof {
            assert forall|p: int| 0 <= p < N implies (#[trigger] q.slot(p)).sequence == p && q.slot(
                p,
            ).data is None by {
                vstd::arithmetic::div_mod::lemma_small_mod(p as nat, N as nat);
            }
        }
        q
    }

    /// Puts `item` in at the end of the queue, or hands it back when the
    /// queue is full.
    pub fn enqueue(&mut self, item: T) -> (r: Result<(), T>)
        requires
            old(self).wf(),
            old(self).enqueue_pos + N < usize::MAX,
        ensures
            final(self).wf(),
            final(self).dequeue_pos == old(self).dequeue_pos,
            r is Ok <==> old(self)@.len() < N,
            r is Ok ==> final(self)@ == old(self)@.push(item) && final(self).enqueue_pos == old(self).enqueue_pos + 1,
            r matches Err(back) ==> back == item && final(self)@ == old(self)@ && final(self).enqueue_pos == old(self).enqueue_pos,
    {
        let pos: usize = self.enqueue_pos;
        let idx: usize = pos % N;
        let seq: usize = self.buffer[idx].sequence;
        let dif: i8 = diff(seq, pos);
        proof {
            if pos < self.dequeue_pos + N {
                assert(self.slot(pos as int).sequence == pos);
                lemma_byte_diff(seq as int, pos as int);
            } else {
                let d = self.dequeue_pos as int;
                vstd::arithmetic::div_mod::lemma_mod_add_multiples_vanish(d, N as int);
                assert(self.slot(d).sequence == d + 1);
                lemma_byte_diff(seq as int, pos as int);
            }
        }
        if dif != 0 {
            return Err(item);
        }
        self.buffer[idx].data = Some(item);
        self.buffer[idx].sequence = pos + 1;
        self.enqueue_pos = pos + 1;
        proof {
            let n = N as int;
            assert forall|p: int| self.dequeue_pos <= p < self.enqueue_pos implies (
            #[trigger] self.slot(p)).sequence == p + 1 && self.slot(p).data is Some by {
                if p < pos {
                    Self::lemma_slots_differ(p, pos as int);
                    assert(self.slot(p) == old(self).slot(p));
                }
            }
            assert forall|p: int| self.enqueue_pos <= p < self.dequeue_pos + N implies (
            #[trigger] self.slot(p)).sequence == p && self.slot(p).data is None by {
                Self::lemma_slots_differ(pos as int, p);
                assert(self.slot(p) == old(self).slot(p));
            }
            assert(self@ =~= old(self)@.push(item)) by {
                assert forall|j: int| 0 <= j < old(self).count() implies self@[j] == old(self)@[j] by {
                    Self::lemma_slots_differ(self.dequeue_pos + j, pos as int);
                    assert(self.slot(self.dequeue_pos + j) == old(self).slot(self.dequeue_pos + j));
                }
            }
        }
        Ok(())
    }

    /// Takes the item at the front of the queue out, if the queue holds
    /// one.
    pub fn dequeue(&mut self) -> (r: Option<T>)
        requires
            old(self).wf(),
            old(self).dequeue_pos + N < usize::MAX,
        ensures
            final(self).wf(),
            final(self).enqueue_pos == old(self).enqueue_pos,
            r is Some <==> old(self)@.len() > 0,
            r is None ==> final(self)@ == old(self)@ && final(self).dequeue_pos == old(self).dequeue_pos,
            r matches Some(item) ==> item == old(self)@[0] && final(self)@ == old(self)@.subrange(
                1,
                old(self)@.len() as int,
            ) && final(self).dequeue_pos == old(self).dequeue_pos + 1,
    {
        let pos: usize = self.dequeue_pos;
        let idx: usize = pos % N;
        let seq: usize = self.buffer[idx].sequence;
        let dif: i8 = diff(seq, pos + 1);
        proof {
            if pos < self.enqueue_pos {
                assert(self.slot(pos as int).sequence == pos + 1);
            } else {
                assert(self.slot(pos as int).sequence == pos);
            }
            lemma_byte_diff(seq as int, pos + 1);
        }
        if dif != 0 {
            return None;
        }
        let data = self.buffer[idx].data.take();
        self.buffer[idx].sequence = pos + N;
        self.dequeue_pos = pos + 1;
        proof {
            let n = N as int;
            vstd::arithmetic::div_mod::lemma_mod_add_multiples_vanish(pos as int, n);
            assert forall|p: int| self.dequeue_pos <= p < self.enqueue_pos implies (
            #[trigger] self.slot(p)).sequence == p + 1 && self.slot(p).data is Some by {
                Self::lemma_slots_differ(pos as int, p);
                assert(self.slot(p) == old(self).slot(p));
            }
            assert forall|p: int| self.enqueue_pos <= p < self.dequeue_pos + N implies (
            #[trigger] self.slot(p)).sequence == p && self.slot(p).data is None by {
                if p < pos + N {
                    Self::lemma_slots_differ(pos as int, p);
                    assert(self.slot(p) == old(self).slot(p));
                }
            }
            assert(self@ =~= old(self)@.subrange(1, old(self)@.len() as int)) by {
                assert forall|j: int| 0 <= j < self.count() implies self@[j] == old(self)@[j + 1] by {
                    Self::lemma_slots_differ(pos as int, self.dequeue_pos + j);
                    assert(self.slot(self.dequeue_pos + j) == old(self).slot(pos + (j + 1)));
                }
            }
            assert(old(self)@[0] == old(self).slot(pos + 0).data->Some_0);
        }
        data
    }
}

} // verus!
