use crate::error::AllocError;
use vstd::prelude::*;

verus! {

/// One entry of an `ArrayLinkedList`: an item with the indices of the
/// entries before and after it.
pub struct Node<T> {
    pub prev: usize,
    pub next: usize,
    pub item: T,
}

/// Doubly linked lists that are kept in a vector: an entry names its
/// neighbours by their indices. An entry that lies in no list has itself
/// for both neighbours. Which entries make up a list is for the user to
/// keep track of.
pub struct ArrayLinkedList<T> {
    pub list: Vec<Node<T>>,
}

/// The operations of a list that names its entries by index.
pub trait Linkedlist: Sized {
    type Item;

    /// The number of entries.
    spec fn count(&self) -> nat;

    /// The entry before `idx`.
    spec fn prev_of(&self, idx: int) -> int;

    /// The entry after `idx`.
    spec fn next_of(&self, idx: int) -> int;

    /// The item of the entry `idx`.
    spec fn item_of(&self, idx: int) -> Self::Item;

    /// Every entry of `self` holds the item that it holds in `before`.
    open spec fn same_items(&self, before: &Self) -> bool {
        forall|i: int| 0 <= i < self.count() ==> #[trigger] self.item_of(i) == before.item_of(i)
    }

    /// Whether the links fit together: the neighbours of every entry are
    /// entries, and each names the entry as its neighbour on the other
    /// side.
    open spec fn linked(&self) -> bool {
        forall|i: int| 0 <= i < self.count() ==> #[trigger] self.fits(i)
    }

    /// Whether the links of the entry `i` fit those of its neighbours.
    open spec fn fits(&self, i: int) -> bool {
        &&& 0 <= self.prev_of(i) < self.count()
        &&& 0 <= self.next_of(i) < self.count()
        &&& self.next_of(self.prev_of(i)) == i
        &&& self.prev_of(self.next_of(i)) == i
    }

    /// Whether `idx` lies in no list.
    open spec fn alone(&self, idx: int) -> bool {
        self.prev_of(idx) == idx && self.next_of(idx) == idx
    }

    /// The index of the last entry.
    fn tail(&self) -> (idx: usize)
        requires
            self.count() > 0,
        ensures
            idx == self.count() - 1,
    ;

    /// Adds an entry that lies in no list.
    fn push(&mut self, item: Self::Item)
        ensures
            final(self).count() == old(self).count() + 1,
            final(self).alone(old(self).count() as int),
            forall|i: int|
                0 <= i < old(self).count() ==> final(self).prev_of(i) == old(self).prev_of(i)
                    && final(self).next_of(i) == old(self).next_of(i),
            old(self).linked() ==> final(self).linked(),
            final(self).item_of(old(self).count() as int) == item,
            forall|i: int|
                0 <= i < old(self).count() ==> #[trigger] final(self).item_of(i) == old(self).item_of(i),
    ;

    /// Takes the last entry out of its list and out of the vector.
    fn pop(&mut self) -> (item: Option<Self::Item>)
        requires
            old(self).count() > 0,
            old(self).linked(),
        ensures
            item is Some,
            final(self).count() == old(self).count() - 1,
            final(self).linked(),
            forall|i: int|
                0 <= i < final(self).count() ==> #[trigger] final(self).next_of(i) == if old(self).next_of(i) == old(self).count() - 1 {
                    old(self).next_of(old(self).count() - 1)
                } else {
                    old(self).next_of(i)
                },
            forall|i: int|
                0 <= i < final(self).count() ==> #[trigger] final(self).prev_of(i) == if old(self).prev_of(i) == old(self).count() - 1 {
                    old(self).prev_of(old(self).count() - 1)
                } else {
                    old(self).prev_of(i)
                },
            item == Some(old(self).item_of(old(self).count() - 1)),
            final(self).same_items(old(self)),
    ;

    /// Takes the entry `idx` out of its list: its neighbours become each
    /// other's neighbours, and the entry lies in no list.
    fn remove_node(&mut self, idx: usize)
        requires
            idx < old(self).count(),
            old(self).linked(),
        ensures
            final(self).count() == old(self).count(),
            final(self).linked(),
            final(self).alone(idx as int),
            forall|i: int|
                0 <= i < final(self).count() && i != idx ==> #[trigger] final(self).next_of(i)
                    == if old(self).next_of(i) == idx {
                    old(self).next_of(idx as int)
                } else {
                    old(self).next_of(i)
                },
            forall|i: int|
                0 <= i < final(self).count() && i != idx ==> #[trigger] final(self).prev_of(i)
                    == if old(self).prev_of(i) == idx {
                    old(self).prev_of(idx as int)
                } else {
                    old(self).prev_of(i)
                },
            final(self).same_items(old(self)),
    ;

    /// Puts the entry `idx`, which lies in no list, after the entry
    /// `base`.
    fn insert_to_next(&mut self, base: usize, idx: usize)
        requires
            base < old(self).count(),
            idx < old(self).count(),
            base != idx,
            old(self).linked(),
            old(self).alone(idx as int),
        ensures
            final(self).count() == old(self).count(),
            final(self).linked(),
            final(self).next_of(base as int) == idx,
            final(self).prev_of(idx as int) == base,
            final(self).next_of(idx as int) == old(self).next_of(base as int),
            final(self).prev_of(old(self).next_of(base as int)) == idx,
            forall|i: int|
                0 <= i < final(self).count() && i != base && i != idx ==> #[trigger] final(self).next_of(i) == old(self).next_of(i),
            forall|i: int|
                0 <= i < final(self).count() && i != idx && i != old(self).next_of(base as int)
                    ==> #[trigger] final(self).prev_of(i) == old(self).prev_of(i),
            final(self).same_items(old(self)),
    ;

    /// Puts the entry `idx`, which lies in no list, before the entry
    /// `base`.
    fn insert_to_prev(&mut self, base: usize, idx: usize)
        requires
            base < old(self).count(),
            idx < old(self).count(),
            base != idx,
            old(self).linked(),
            old(self).alone(idx as int),
        ensures
            final(self).count() == old(self).count(),
            final(self).linked(),
            final(self).prev_of(base as int) == idx,
            final(self).next_of(idx as int) == base,
            final(self).prev_of(idx as int) == old(self).prev_of(base as int),
            final(self).next_of(old(self).prev_of(base as int)) == idx,
            forall|i: int|
                0 <= i < final(self).count() && i != base && i != idx ==> #[trigger] final(self).prev_of(i) == old(self).prev_of(i),
            forall|i: int|
                0 <= i < final(self).count() && i != idx && i != old(self).prev_of(base as int)
                    ==> #[trigger] final(self).next_of(i) == old(self).next_of(i),
            final(self).same_items(old(self)),
    ;

    /// The entry before `idx`.
    fn get_prev(&self, idx: usize) -> (r: Result<usize, AllocError>)
        requires
            idx < self.count(),
        ensures
            r == Ok::<usize, AllocError>(self.prev_of(idx as int) as usize),
    ;

    /// Makes `new_prev` the entry before `curr`; no other link changes.
    fn set_prev(&mut self, curr: usize, new_prev: usize)
        requires
            curr < old(self).count(),
        ensures
            final(self).count() == old(self).count(),
            final(self).prev_of(curr as int) == new_prev,
            forall|i: int|
                0 <= i < final(self).count() && i != curr ==> #[trigger] final(self).prev_of(i)
                    == old(self).prev_of(i),
            forall|i: int|
                0 <= i < final(self).count() ==> #[trigger] final(self).next_of(i) == old(self).next_of(i),
            final(self).same_items(old(self)),
    ;

    /// The entry after `idx`.
    fn get_next(&self, idx: usize) -> (r: Result<usize, AllocError>)
        requires
            idx < self.count(),
        ensures
            r == Ok::<usize, AllocError>(self.next_of(idx as int) as usize),
    ;

    /// Makes `new_next` the entry after `curr`; no other link changes.
    fn set_next(&mut self, curr: usize, new_next: usize)
        requires
            curr < old(self).count(),
        ensures
            final(self).count() == old(self).count(),
            final(self).next_of(curr as int) == new_next,
            forall|i: int|
                0 <= i < final(self).count() && i != curr ==> #[trigger] final(self).next_of(i)
                    == old(self).next_of(i),
            forall|i: int|
                0 <= i < final(self).count() ==> #[trigger] final(self).prev_of(i) == old(self).prev_of(i),
            final(self).same_items(old(self)),
    ;
}

impl<T> ArrayLinkedList<T> {
    /// A vector without entries.
    pub fn new() -> (l: Self)
        ensures
            l.list@.len() == 0,
    {
        Self { list: Vec::new() }
    }

    /// Makes room for `additional` more entries, so that the next pushes
    /// need no new memory. The entries and their links stay as they are:
    /// only the room of the vector grows, which is for its allocator to
    /// give and which no view of the vector shows.
    pub fn reserve(&mut self, additional: usize)
        ensures
            final(self).list@ == old(self).list@,
    {
        self.list.reserve(additional);
    }

    /// The number of entries.
    pub fn len(&self) -> (n: usize)
        ensures
            n == self.list@.len(),
    {
        self.list.len()
    }

    /// The item of the entry `idx`, if there is such an entry.
    pub fn get(&self, idx: usize) -> (r: Option<&T>)
        ensures
            r is Some <==> idx < self.list@.len(),
            r matches Some(item) ==> *item == self.list@[idx as int].item,
    {
        if idx < self.list.len() {
            Some(&self.list[idx].item)
        } else {
            None
        }
    }

    /// Takes the entry `idx` out of every list, whatever its neighbours
    /// hold: it becomes its own neighbour on both sides.
    pub fn reset_links(&mut self, idx: usize)
        requires
            idx < old(self).list@.len(),
        ensures
            final(self).list@.len() == old(self).list@.len(),
            final(self).list@[idx as int].prev == idx,
            final(self).list@[idx as int].next == idx,
            final(self).list@[idx as int].item == old(self).list@[idx as int].item,
            forall|i: int|
                0 <= i < final(self).list@.len() && i != idx ==> final(self).list@[i] == old(self).list@[i],
    {
        self.list[idx].prev = idx;
        self.list[idx].next = idx;
    }
}

impl<T> Linkedlist for ArrayLinkedList<T> {
    type Item = T;

    open spec fn count(&self) -> nat {
        self.list@.len()
    }

    open spec fn prev_of(&self, idx: int) -> int {
        self.list@[idx].prev as int
    }

    open spec fn next_of(&self, idx: int) -> int {
        self.list@[idx].next as int
    }

    open spec fn item_of(&self, idx: int) -> T {
        self.list@[idx].item
    }

    fn tail(&self) -> (idx: usize) {
        self.list.len() - 1
    }

    fn push(&mut self, item: Self::Item) {
        let new_idx = self.list.len();
        self.list.push(Node { prev: new_idx, next: new_idx, item });
        proof {
            if old(self).linked() {
                assert forall|i: int| 0 <= i < self.count() implies #[trigger] self.fits(i) by {
                    if i < new_idx {
                        assert(old(self).fits(i));
                        assert(self.list@[i] == old(self).list@[i]);
                    }
                }
            }
        }
    }

    fn pop(&mut self) -> (item: Option<Self::Item>) {
        let last = self.list.len() - 1;
        self.remove_node(last);
        let ghost mid = *self;
        let last_item = self.list.pop();
        proof {
            assert forall|i: int| 0 <= i < self.count() implies #[trigger] self.fits(i) by {
                assert(mid.fits(i));
                assert(mid.fits(last as int));
                assert(self.list@[i] == mid.list@[i]);
            }
            assert(mid.item_of(last as int) == old(self).item_of(last as int));
            assert(last_item == Some(mid.list@[last as int]));
            assert forall|i: int| 0 <= i < self.count() implies #[trigger] self.item_of(i) == old(self).item_of(i) by {
                assert(self.list@[i] == mid.list@[i]);
                assert(mid.item_of(i) == old(self).item_of(i));
            }
            assert forall|i: int| 0 <= i < self.count() implies #[trigger] self.next_of(i) == if old(self).next_of(i) == last {
                old(self).next_of(last as int)
            } else {
                old(self).next_of(i)
            } by {
                assert(self.list@[i] == mid.list@[i]);
                assert(self.next_of(i) == mid.next_of(i));
            }
            assert forall|i: int| 0 <= i < self.count() implies #[trigger] self.prev_of(i) == if old(self).prev_of(i) == last {
                old(self).prev_of(last as int)
            } else {
                old(self).prev_of(i)
            } by {
                assert(self.list@[i] == mid.list@[i]);
                assert(self.prev_of(i) == mid.prev_of(i));
            }
        }
        match last_item {
            Some(node) => Some(node.item),
            None => None,
        }
    }

    fn remove_node(&mut self, idx: usize) {
        let prev_idx = self.list[idx].prev;
        let next_idx = self.list[idx].next;
        proof {
            assert(old(self).fits(idx as int));
        }
        self.set_prev(next_idx, prev_idx);
        self.set_next(prev_idx, next_idx);
        self.set_prev(idx, idx);
        self.set_next(idx, idx);
        proof {
            assert forall|i: int| 0 <= i < self.count() implies #[trigger] self.fits(i) by {
                assert(old(self).fits(i));
                assert(old(self).fits(idx as int));
                assert(old(self).fits(old(self).prev_of(i)));
                assert(old(self).fits(old(self).next_of(i)));
            }
            assert forall|i: int| 0 <= i < self.count() && i != idx implies #[trigger] self.next_of(
                i,
            ) == if old(self).next_of(i) == idx {
                old(self).next_of(idx as int)
            } else {
                old(self).next_of(i)
            } by {
                assert(old(self).fits(i));
                assert(old(self).fits(idx as int));
            }
            assert forall|i: int| 0 <= i < self.count() && i != idx implies #[trigger] self.prev_of(
                i,
            ) == if old(self).prev_of(i) == idx {
                old(self).prev_of(idx as int)
            } else {
                old(self).prev_of(i)
            } by {
                assert(old(self).fits(i));
                assert(old(self).fits(idx as int));
            }
        }
    }

    fn insert_to_next(&mut self, base: usize, idx: usize) {
        let next_idx = self.list[base].next;
        proof {
            assert(old(self).fits(base as int));
        }
        self.set_prev(next_idx, idx);
        self.set_next(base, idx);
        self.set_next(idx, next_idx);
        self.set_prev(idx, base);
        proof {
            assert forall|i: int| 0 <= i < self.count() implies #[trigger] self.fits(i) by {
                assert(old(self).fits(i));
                assert(old(self).fits(base as int));
                assert(old(self).fits(old(self).prev_of(i)));
                assert(old(self).fits(old(self).next_of(i)));
            }
        }
    }

    fn insert_to_prev(&mut self, base: usize, idx: usize) {
        let prev_idx = self.list[base].prev;
        proof {
            assert(old(self).fits(base as int));
        }
        self.set_next(prev_idx, idx);
        self.set_prev(base, idx);
        self.set_next(idx, base);
        self.set_prev(idx, prev_idx);
        proof {
            assert forall|i: int| 0 <= i < self.count() implies #[trigger] self.fits(i) by {
                assert(old(self).fits(i));
                assert(old(self).fits(base as int));
                assert(old(self).fits(old(self).prev_of(i)));
                assert(old(self).fits(old(self).next_of(i)));
            }
        }
    }

    fn get_prev(&self, idx: usize) -> (r: Result<usize, AllocError>) {
        Ok(self.list[idx].prev)
    }

    fn set_prev(&mut self, curr: usize, new_prev: usize) {
        self.list[curr].prev = new_prev;
    }

    fn get_next(&self, idx: usize) -> (r: Result<usize, AllocError>) {
        Ok(self.list[idx].next)
    }

    fn set_next(&mut self, curr: usize, new_next: usize) {
        self.list[curr].next = new_next;
    }
}

} // verus!
