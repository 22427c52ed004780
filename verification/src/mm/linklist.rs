use vstd::prelude::*;

verus! {

/// A stack of free cells. The last entry of `cells` is the head of the
/// list: the cell that was pushed last. It is what a chain of cells that
/// are linked through their first words comes to when the links are kept
/// beside the cells.
pub struct Linklist {
    pub cells: Vec<usize>,
}

/// The index of the cell nearest to the head of `cells` whose address is
/// a multiple of `align`, or -1 if there is none.
pub open spec fn top_aligned(cells: Seq<usize>, align: int) -> int
    decreases cells.len(),
{
    if cells.len() == 0 {
        -1
    } else if cells.last() as int % align == 0 {
        cells.len() - 1
    } else {
        top_aligned(cells.drop_last(), align)
    }
}

/// `top_aligned` names the last aligned entry.
pub proof fn lemma_top_aligned(cells: Seq<usize>, align: int)
    ensures
        -1 <= top_aligned(cells, align) < cells.len(),
        top_aligned(cells, align) >= 0 ==> cells[top_aligned(cells, align)] as int % align == 0,
        forall|j: int|
            top_aligned(cells, align) < j < cells.len() ==> #[trigger] cells[j] as int % align != 0,
    decreases cells.len(),
{
    if cells.len() > 0 && cells.last() as int % align != 0 {
        lemma_top_aligned(cells.drop_last(), align);
        assert forall|j: int|
            top_aligned(cells, align) < j < cells.len() implies #[trigger] cells[j] as int % align
            != 0 by {
            if j < cells.len() - 1 {
                assert(cells.drop_last()[j] == cells[j]);
            }
        }
    }
}

/// The last aligned entry is at `k` when `k` is aligned and no entry
/// above it is.
pub proof fn lemma_top_aligned_is(cells: Seq<usize>, align: int, k: int)
    requires
        -1 <= k < cells.len(),
        k >= 0 ==> cells[k] as int % align == 0,
        forall|j: int| k < j < cells.len() ==> #[trigger] cells[j] as int % align != 0,
    ensures
        top_aligned(cells, align) == k,
    decreases cells.len(),
{
    if cells.len() > 0 && cells.last() as int % align != 0 {
        assert forall|j: int| k < j < cells.len() - 1 implies #[trigger] cells.drop_last()[j] as int
            % align != 0 by {
            assert(cells.drop_last()[j] == cells[j]);
        }
        lemma_top_aligned_is(cells.drop_last(), align, k);
    }
}

/// The cell that was pushed last is the first that is found for every
/// alignment that its address has.
pub proof fn lemma_last_in_first_out(cells: Seq<usize>, ptr: usize, align: int)
    requires
        align > 0,
        ptr as int % align == 0,
    ensures
        top_aligned(cells.push(ptr), align) == cells.len(),
        cells.push(ptr)[top_aligned(cells.push(ptr), align)] == ptr,
{
    let pushed = cells.push(ptr);
    assert(pushed.last() == ptr);
}

impl Linklist {
    /// An empty list.
    pub fn new() -> (list: Self)
        ensures
            list.cells@.len() == 0,
    {
        Self { cells: Vec::new() }
    }

    /// Makes `ptr` the head of the list.
    pub fn push_unchecked(&mut self, ptr: usize)
        ensures
            final(self).cells@ == old(self).cells@.push(ptr),
    {
        self.cells.push(ptr);
    }

    /// Takes the cell nearest to the head whose address is a multiple of
    /// `align` out of the list; the other cells keep their order.
    pub fn pop_unchecked_aligned(&mut self, align: usize) -> (r: Option<usize>)
        requires
            align > 0,
        ensures
            r is Some <==> top_aligned(old(self).cells@, align as int) >= 0,
            r is None ==> final(self).cells@ == old(self).cells@,
            r matches Some(a) ==> {
                let k = top_aligned(old(self).cells@, align as int);
                &&& a == old(self).cells@[k]
                &&& a % align == 0
                &&& final(self).cells@ == old(self).cells@.remove(k)
            },
    {
        let mut i: usize = self.cells.len();
        while i > 0
            invariant
                i <= self.cells.len(),
                align > 0,
                self.cells@ == old(self).cells@,
                forall|j: int| i <= j < self.cells.len() ==> #[trigger] self.cells[j] as int % (
                align as int) != 0,
            decreases i,
        {
            i -= 1;
            if self.cells[i] % align == 0 {
                proof {
                    lemma_top_aligned_is(self.cells@, align as int, i as int);
                }
                let a = self.cells.remove(i);
                return Some(a);
            }
        }
        proof {
            lemma_top_aligned_is(self.cells@, align as int, -1);
        }
        None
    }

    /// The number of cells in the list.
    pub fn length(&self) -> (n: usize)
        ensures
            n == self.cells@.len(),
    {
        self.cells.len()
    }

    /// The head of the list, or 0 when the list is empty.
    pub fn link(&self) -> (head: usize)
        ensures
            self.cells@.len() == 0 ==> head == 0,
            self.cells@.len() > 0 ==> head == self.cells@.last(),
    {
        if self.cells.len() == 0 {
            0
        } else {
            self.cells[self.cells.len() - 1]
        }
    }

    /// Tells whether the cell at `ptr` is on the list.
    pub fn contains(&self, ptr: usize) -> (b: bool)
        ensures
            b == self.cells@.contains(ptr),
    {
        holds(&self.cells, ptr)
    }
}

/// Tells whether `x` is an entry of `cells`.
pub fn holds(cells: &Vec<usize>, x: usize) -> (b: bool)
    ensures
        b == cells@.contains(x),
{
    let mut k: usize = 0;
    while k < cells.len()
        invariant
            k <= cells.len(),
            forall|j: int| 0 <= j < k ==> cells@[j] != x,
        decreases cells.len() - k,
    {
        if cells[k] == x {
            return true;
        }
        k += 1;
    }
    false
}

} // verus!
