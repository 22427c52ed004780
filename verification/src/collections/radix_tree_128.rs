use vstd::prelude::*;

verus! {

/// Children under one inner node: 2^21.
pub const HEAD_FANOUT: usize = 0x20_0000;

/// Slots in one leaf: 2^23.
pub const LEAF_SLOTS: usize = 0x80_0000;

/// Divisor that brings a 128-bit key down to its top 21 bits: 2^107.
pub const HEAD_DIV: u128 = 0x800_0000_0000_0000_0000_0000_0000;

/// Divisor that brings a 128-bit key down to its top 23 bits: 2^105.
pub const LEAF_DIV: u128 = 0x200_0000_0000_0000_0000_0000_0000;

/// The child of an inner node that a key names: its top 21 bits.
pub open spec fn child_of(k: u128) -> int {
    k as int / (HEAD_DIV as int)
}

/// The key that an inner node hands to its child: the key without its
/// top 21 bits, moved up by as many bits.
pub open spec fn rest_of(k: u128) -> u128 {
    ((k as int % (HEAD_DIV as int)) * HEAD_FANOUT) as u128
}

/// The key that an inner node hands to its child.
pub fn rest(k: u128) -> (r: u128)
    ensures
        r == rest_of(k),
{
    let low: u128 = k % HEAD_DIV;
    assert(low * 0x20_0000 <= u128::MAX) by {
        assert(low < 0x800_0000_0000_0000_0000_0000_0000u128);
    }
    low * 0x20_0000
}

/// A map from 128-bit keys to tags that is kept in leaves of `LEAF_SLOTS`
/// slots each. The upper bits of a key name a leaf, the lower bits a slot
/// in it. A leaf is made when a tag is first written to it; a key whose
/// leaf is absent reads as -1. `insert` and `remove` write a run of
/// consecutive slots of one leaf.
pub trait Tree128Node: Sized {
    /// The node's structural invariant.
    spec fn wf(&self) -> bool;

    /// Whether two keys name slots of one leaf.
    spec fn same_leaf(k1: u128, k2: u128) -> bool;

    /// The slot in its leaf that a key names.
    spec fn slot_of(k: u128) -> int;

    /// Whether the leaf of a key is there.
    spec fn present(&self, k: u128) -> bool;

    /// What a key reads as.
    spec fn value(&self, k: u128) -> i32;

    /// A node under which nothing was written.
    fn fresh() -> (node: Self)
        ensures
            node.wf(),
            forall|k: u128|
                #[trigger] node.value(k) == if node.present(k) {
                    0i32
                } else {
                    -1i32
                },
            forall|k1: u128, k2: u128| #[trigger]
                node.present(k1) ==> #[trigger] Self::same_leaf(k2, k1),
    ;

    /// The slot in its leaf that a key names.
    fn leaf_slot(k: u128) -> (s: usize)
        ensures
            s == Self::slot_of(k),
            s < LEAF_SLOTS,
    ;

    /// Writes `v` to the `n` slots from the slot of `k` on, in the leaf of
    /// `k`, which is made if it is absent; its other slots then hold 0.
    /// Fails, and changes nothing, when `n` is negative or the run does
    /// not end inside the leaf.
    fn insert(&mut self, k: u128, v: i32, n: i32) -> (r: Result<(), &'static str>)
        requires
            old(self).wf(),
        ensures
            final(self).wf(),
            r is Ok <==> 0 <= n && Self::slot_of(k) + n <= LEAF_SLOTS,
            r is Ok ==> forall|key: u128|
                #[trigger] final(self).present(key) == (old(self).present(key) || Self::same_leaf(
                    k,
                    key,
                )),
            r is Ok ==> forall|key: u128|
                #[trigger] final(self).value(key) == if Self::same_leaf(k, key) {
                    if Self::slot_of(k) <= Self::slot_of(key) < Self::slot_of(k) + n {
                        v
                    } else if old(self).present(key) {
                        old(self).value(key)
                    } else {
                        0i32
                    }
                } else {
                    old(self).value(key)
                },
            r is Err ==> forall|key: u128|
                #[trigger] final(self).present(key) == old(self).present(key),
            r is Err ==> forall|key: u128| #[trigger] final(self).value(key) == old(self).value(key),
    ;

    /// Writes 0 to the `n` slots from the slot of `k` on, in the leaf of
    /// `k`; when that leaf is absent, nothing is done. Fails, and changes
    /// nothing, when the leaf is there and `n` is negative or the run
    /// does not end inside the leaf.
    fn remove(&mut self, k: u128, n: i32) -> (r: Result<(), &'static str>)
        requires
            old(self).wf(),
        ensures
            final(self).wf(),
            r is Ok <==> !old(self).present(k) || (0 <= n && Self::slot_of(k) + n <= LEAF_SLOTS),
            forall|key: u128| #[trigger] final(self).present(key) == old(self).present(key),
            r is Ok && old(self).present(k) ==> forall|key: u128|
                #[trigger] final(self).value(key) == if Self::same_leaf(k, key) && Self::slot_of(k)
                    <= Self::slot_of(key) < Self::slot_of(k) + n {
                    0i32
                } else {
                    old(self).value(key)
                },
            r is Err || !old(self).present(k) ==> forall|key: u128|
                #[trigger] final(self).value(key) == old(self).value(key),
    ;

    /// What `k` reads as: the tag in its slot, or -1 when its leaf is
    /// absent.
    fn get_mut(&mut self, k: u128) -> (v: i32)
        requires
            old(self).wf(),
        ensures
            final(self).wf(),
            forall|key: u128| #[trigger] final(self).present(key) == old(self).present(key),
            forall|key: u128| #[trigger] final(self).value(key) == old(self).value(key),
            v == old(self).value(k),
    ;
}

/// A leaf: a dense array of `LEAF_SLOTS` tags, read by the top 23 bits of
/// the key that reaches it.
pub struct RadixBottom128Node {
    pub nodes: Vec<i32>,
}

impl RadixBottom128Node {
    /// Writes `v` to the `n` slots from `start` on.
    pub fn fill(&mut self, start: usize, v: i32, n: usize)
        requires
            old(self).wf(),
            start + n <= LEAF_SLOTS,
        ensures
            final(self).wf(),
            forall|s: int|
                0 <= s < LEAF_SLOTS ==> #[trigger] final(self).nodes[s] == if start <= s < start
                    + n {
                    v
                } else {
                    old(self).nodes[s]
                },
    {
        let mut i: usize = 0;
        while i < n
            invariant
                i <= n,
                start + n <= LEAF_SLOTS,
                self.nodes.len() == LEAF_SLOTS,
                forall|s: int|
                    0 <= s < LEAF_SLOTS ==> #[trigger] self.nodes[s] == if start <= s < start + i {
                        v
                    } else {
                        old(self).nodes[s]
                    },
            decreases n - i,
        {
            self.nodes[start + i] = v;
            i += 1;
        }
    }
}

impl Tree128Node for RadixBottom128Node {
    open spec fn wf(&self) -> bool {
        self.nodes.len() == LEAF_SLOTS
    }

    open spec fn same_leaf(k1: u128, k2: u128) -> bool {
        true
    }

    open spec fn slot_of(k: u128) -> int {
        k as int / (LEAF_DIV as int)
    }

    open spec fn present(&self, k: u128) -> bool {
        true
    }

    open spec fn value(&self, k: u128) -> i32 {
        self.nodes[Self::slot_of(k)]
    }

    fn fresh() -> (node: Self) {
        let nodes: Vec<i32> = vec![0i32; LEAF_SLOTS];
        RadixBottom128Node { nodes }
    }

    fn leaf_slot(k: u128) -> (s: usize) {
        (k / LEAF_DIV) as usize
    }

    fn insert(&mut self, k: u128, v: i32, n: i32) -> (r: Result<(), &'static str>) {
        let idx: usize = Self::leaf_slot(k);
        if n < 0 || n as usize > LEAF_SLOTS - idx {
            return Err("run leaves the leaf");
        }
        self.fill(idx, v, n as usize);
        Ok(())
    }

    fn remove(&mut self, k: u128, n: i32) -> (r: Result<(), &'static str>) {
        let idx: usize = Self::leaf_slot(k);
        if n < 0 || n as usize > LEAF_SLOTS - idx {
            return Err("run leaves the leaf");
        }
        self.fill(idx, 0, n as usize);
        Ok(())
    }

    fn get_mut(&mut self, k: u128) -> (v: i32) {
        let idx: usize = Self::leaf_slot(k);
        self.nodes[idx]
    }
}

/// An inner node: one optional child for each value of the top 21 bits of
/// the key that reaches it. The children are kept up to the last one that
/// was made.
pub struct RadixNode128Head<V> {
    pub nodes: Vec<Option<V>>,
}

impl<V: Tree128Node> RadixNode128Head<V> {
    /// A node without children.
    pub fn new() -> (node: Self)
        ensures
            node.wf(),
            forall|k: u128| !node.present(k) && node.value(k) == -1,
    {
        RadixNode128Head { nodes: Vec::new() }
    }

    /// The child that `k` names, if it is there.
    pub open spec fn child(&self, k: u128) -> Option<V> {
        if child_of(k) < self.nodes.len() {
            self.nodes[child_of(k)]
        } else {
            None
        }
    }

    /// Makes room for the child `idx`.
    fn reach(&mut self, idx: usize)
        requires
            old(self).wf(),
            idx < HEAD_FANOUT,
        ensures
            final(self).wf(),
            idx < final(self).nodes.len(),
            forall|k: u128| #[trigger] final(self).child(k) == old(self).child(k),
    {
        while self.nodes.len() <= idx
            invariant
                self.wf(),
                idx < HEAD_FANOUT,
                old(self).nodes.len() <= self.nodes.len(),
                forall|j: int| 0 <= j < old(self).nodes.len() ==> self.nodes[j] == old(self).nodes[j],
                forall|j: int| old(self).nodes.len() <= j < self.nodes.len() ==> self.nodes[j] is None,
            decreases HEAD_FANOUT - self.nodes.len(),
        {
            self.nodes.push(None);
        }
    }
}

impl<V: Tree128Node> Tree128Node for RadixNode128Head<V> {
    open spec fn wf(&self) -> bool {
        &&& self.nodes.len() <= HEAD_FANOUT
        &&& forall|j: int|
            0 <= j < self.nodes.len() && self.nodes[j] is Some ==> (#[trigger] self.nodes[j])->Some_0.wf()
    }

    open spec fn same_leaf(k1: u128, k2: u128) -> bool {
        child_of(k1) == child_of(k2) && V::same_leaf(rest_of(k1), rest_of(k2))
    }

    open spec fn slot_of(k: u128) -> int {
        V::slot_of(rest_of(k))
    }

    open spec fn present(&self, k: u128) -> bool {
        self.child(k) is Some && self.child(k)->Some_0.present(rest_of(k))
    }

    open spec fn value(&self, k: u128) -> i32 {
        if self.child(k) is Some {
            self.child(k)->Some_0.value(rest_of(k))
        } else {
            -1i32
        }
    }

    fn fresh() -> (node: Self) {
        Self::new()
    }

    fn leaf_slot(k: u128) -> (s: usize) {
        V::leaf_slot(rest(k))
    }

    fn insert(&mut self, k: u128, v: i32, n: i32) -> (r: Result<(), &'static str>) {
        let idx: usize = (k / HEAD_DIV) as usize;
        let rest: u128 = self::rest(k);
        let slot: usize = V::leaf_slot(rest);
        if n < 0 || n as usize > LEAF_SLOTS - slot {
            return Err("run leaves the leaf");
        }
        self.reach(idx);
        let ghost pre = *self;
        if self.nodes[idx].is_none() {
            self.nodes[idx] = Some(V::fresh());
        }
        let ghost before = *self;
        match &mut self.nodes[idx] {
            Some(node) => {
                let _ = node.insert(rest, v, n);
            },
            None => {},
        }
        proof {
            assert forall|key: u128|
                #[trigger] self.present(key) == (old(self).present(key) || Self::same_leaf(
                    k,
                    key,
                )) by {
                assert(pre.child(key) == old(self).child(key));
                if child_of(key) == idx {
                    let c0 = before.nodes[idx as int]->Some_0;
                    let c1 = self.nodes[idx as int]->Some_0;
                    assert(c1.present(rest_of(key)) == (c0.present(rest_of(key)) || V::same_leaf(
                        rest,
                        rest_of(key),
                    )));
                } else {
                    assert(self.child(key) == pre.child(key));
                }
            }
            assert forall|key: u128|
                #[trigger] self.value(key) == if Self::same_leaf(k, key) {
                    if Self::slot_of(k) <= Self::slot_of(key) < Self::slot_of(k) + n {
                        v
                    } else if old(self).present(key) {
                        old(self).value(key)
                    } else {
                        0i32
                    }
                } else {
                    old(self).value(key)
                } by {
                assert(pre.child(key) == old(self).child(key));
                if child_of(key) == idx {
                    let c0 = before.nodes[idx as int]->Some_0;
                    let c1 = self.nodes[idx as int]->Some_0;
                    assert(c1.value(rest_of(key)) == if V::same_leaf(rest, rest_of(key)) {
                        if V::slot_of(rest) <= V::slot_of(rest_of(key)) < V::slot_of(rest) + n {
                            v
                        } else if c0.present(rest_of(key)) {
                            c0.value(rest_of(key))
                        } else {
                            0i32
                        }
                    } else {
                        c0.value(rest_of(key))
                    });
                    if pre.nodes[idx as int] is None {
                        assert(c0.value(rest_of(key)) == if c0.present(rest_of(key)) {
                            0i32
                        } else {
                            -1i32
                        });
                        if c0.present(rest_of(key)) {
                            assert(V::same_leaf(rest, rest_of(key)));
                        }
                    }
                } else {
                    assert(self.child(key) == pre.child(key));
                }
            }
        }
        Ok(())
    }

    fn remove(&mut self, k: u128, n: i32) -> (r: Result<(), &'static str>) {
        let idx: usize = (k / HEAD_DIV) as usize;
        let rest: u128 = self::rest(k);
        if idx >= self.nodes.len() {
            return Ok(());
        }
        let r = match &mut self.nodes[idx] {
            Some(node) => node.remove(rest, n),
            None => Ok(()),
        };
        proof {
            assert forall|key: u128| #[trigger] self.present(key) == old(self).present(key) by {
                if child_of(key) != idx {
                    assert(self.child(key) == old(self).child(key));
                }
            }
            assert forall|key: u128|
                #[trigger] self.value(key) == if r is Ok && old(self).present(k) && Self::same_leaf(
                    k,
                    key,
                ) && Self::slot_of(k) <= Self::slot_of(key) < Self::slot_of(k) + n {
                    0i32
                } else {
                    old(self).value(key)
                } by {
                if child_of(key) != idx {
                    assert(self.child(key) == old(self).child(key));
                }
            }
        }
        r
    }

    fn get_mut(&mut self, k: u128) -> (v: i32) {
        let idx: usize = (k / HEAD_DIV) as usize;
        let rest: u128 = self::rest(k);
        if idx >= self.nodes.len() {
            return -1;
        }
        let v = match &mut self.nodes[idx] {
            Some(node) => node.get_mut(rest),
            None => -1,
        };
        proof {
            assert forall|key: u128| #[trigger] self.present(key) == old(self).present(key) by {
                if child_of(key) != idx {
                    assert(self.child(key) == old(self).child(key));
                }
            }
            assert forall|key: u128| #[trigger] self.value(key) == old(self).value(key) by {
                if child_of(key) != idx {
                    assert(self.child(key) == old(self).child(key));
                }
            }
        }
        v
    }
}

} // verus!
