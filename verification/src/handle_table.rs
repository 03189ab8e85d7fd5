//! The handle indirection table.
//!
//! External handles are indices of slots in this table; the slot contents are
//! the current payload address of the object the handle names.  Because a
//! handle is an index and not an address, the collector can move objects and
//! only has to rewrite slot contents: every handle held outside stays valid.
//!
//! Each slot is either occupied — holding a payload address — or free, in
//! which case it holds the index of the next free slot.  The free slots form
//! a single chain starting at `free_head` and ending at the one slot whose
//! successor is `None`; claiming that last slot triggers the growth of a new
//! chunk of `CHUNK_SIZE` slots, so the chain is never empty.

use vstd::prelude::*;

verus! {

/// Slots are grown a chunk at a time.
pub const CHUNK_SIZE: usize = 1024;

/// One slot of the handle table.
#[derive(Clone, Copy, Debug)]
pub enum Slot {
    /// The slot names a live object: it holds the address of the object's
    /// payload in the heap.
    Occupied(usize),
    /// The slot is free: it holds the index of the next free slot, with
    /// `None` marking the end of the free chain.
    Free(Option<usize>),
}

/// A growable arena of handle slots threaded with a free list.
pub struct HandleTable {
    slots: Vec<Slot>,
    free_head: Option<usize>,
    free_chain: Ghost<Seq<int>>,
}

impl HandleTable {
    /// The number of slots, for use in specifications.
    pub closed spec fn spec_len(self) -> int {
        self.slots@.len() as int
    }

    /// Whether slot `i` currently names a live object.
    pub closed spec fn is_occupied(self, i: int) -> bool {
        0 <= i < self.slots@.len() && self.slots@[i] is Occupied
    }

    /// The payload address held by occupied slot `i`.
    pub closed spec fn value_of(self, i: int) -> int {
        self.slots@[i]->Occupied_0 as int
    }

    /// Whether some occupied slot holds the payload address `v`.
    pub open spec fn has_value(self, v: int) -> bool {
        exists|i: int| self.is_occupied(i) && self.value_of(i) == v
    }

    /// Whether at most one occupied slot holds the payload address `v`.
    pub open spec fn unique_value(self, v: int) -> bool {
        forall|i: int, j: int|
            self.is_occupied(i) && self.value_of(i) == v && self.is_occupied(j)
                && self.value_of(j) == v ==> i == j
    }

    /// The slot holding payload address `v`, when there is exactly one.
    pub open spec fn index_of_value(self, v: int) -> int {
        choose|i: int| self.is_occupied(i) && self.value_of(i) == v
    }

    /// The free slots form one acyclic chain from `free_head` down to a
    /// single terminating slot, every free slot is on it, and it is never
    /// empty.
    pub closed spec fn wf(self) -> bool {
        let s = self.slots@;
        let n = s.len() as int;
        let c = self.free_chain@;
        &&& c.len() >= 1
        &&& forall|k: int| 0 <= k < c.len() ==> 0 <= #[trigger] c[k] < n && s[c[k]] is Free
        &&& forall|k: int|
            0 <= k < c.len() - 1 ==> #[trigger] s[c[k]]->Free_0 == Some(c[k + 1] as usize)
        &&& s[c[c.len() - 1]]->Free_0 is None
        &&& self.free_head == Some(c[0] as usize)
        &&& forall|k1: int, k2: int| 0 <= k1 < k2 < c.len() ==> #[trigger] c[k1] != #[trigger] c[k2]
        &&& forall|i: int| 0 <= i < n && s[i] is Free ==> #[trigger] c.contains(i)
    }

    /// An occupied slot index lies within the table.
    pub proof fn lemma_occupied_range(self, i: int)
        requires
            self.is_occupied(i),
        ensures
            0 <= i < self.spec_len(),
    {
    }

    /// A fresh table: one chunk of slots, all free, chained in order.
    #[verifier::loop_isolation(false)]
    pub fn new() -> (r: HandleTable)
        ensures
            r.wf(),
            r.spec_len() == CHUNK_SIZE,
            forall|i: int| !r.is_occupied(i),
    {
        let mut slots: Vec<Slot> = Vec::new();
        let mut k: usize = 0;
        while k < CHUNK_SIZE
            invariant
                k <= CHUNK_SIZE,
                slots@.len() == k,
                forall|j: int|
                    0 <= j < k ==> #[trigger] slots@[j] == (if j + 1 < CHUNK_SIZE {
                        Slot::Free(Some((j + 1) as usize))
                    } else {
                        Slot::Free(None)
                    }),
            decreases CHUNK_SIZE - k,
        {
            if k + 1 < CHUNK_SIZE {
                slots.push(Slot::Free(Some(k + 1)));
            } else {
                slots.push(Slot::Free(None));
            }
            k = k + 1;
        }
        let r = HandleTable {
            slots,
            free_head: Some(0),
            free_chain: Ghost(Seq::new(CHUNK_SIZE as nat, |j: int| j)),
        };
        proof {
            let c = r.free_chain@;
            assert forall|i: int| 0 <= i < CHUNK_SIZE && r.slots@[i] is Free implies #[trigger] c
                .contains(i) by {
                assert(c[i] == i);
            }
        }
        r
    }

    /// The number of slots currently in the table.
    pub fn len(&self) -> (r: usize)
        ensures
            r == self.spec_len(),
    {
        self.slots.len()
    }

    /// Whether `h` is the index of a slot that currently names a live object.
    pub fn is_occupied_slot(&self, h: usize) -> (r: bool)
        ensures
            r == self.is_occupied(h as int),
    {
        h < self.slots.len() && match self.slots[h] {
            Slot::Occupied(_) => true,
            Slot::Free(_) => false,
        }
    }

    /// The payload address held by the occupied slot `h`.
    pub fn read_slot(&self, h: usize) -> (r: usize)
        requires
            self.is_occupied(h as int),
        ensures
            r == self.value_of(h as int),
    {
        match self.slots[h] {
            Slot::Occupied(v) => v,
            Slot::Free(_) => unreached(),
        }
    }

    /// Pops the head of the free list and stores `value` in it.  If the
    /// popped slot was the last of the chain, a new chunk is linked up first,
    /// so a free slot remains for the next claim.
    #[verifier::loop_isolation(false)]
    pub fn claim_slot(&mut self, value: usize) -> (h: usize)
        requires
            old(self).wf(),
        ensures
            final(self).wf(),
            h < final(self).spec_len(),
            !old(self).is_occupied(h as int),
            final(self).is_occupied(h as int),
            final(self).value_of(h as int) == value,
            old(self).spec_len() <= final(self).spec_len(),
            forall|i: int|
                i != h ==> final(self).is_occupied(i) == old(self).is_occupied(i) && (old(self).is_occupied(i) ==> final(self).value_of(i) == old(self).value_of(i)),
    {
        let ghost c = self.free_chain@;
        let n0 = self.slots.len();
        let h = match self.free_head {
            Some(h) => h,
            None => unreached(),
        };
        proof {
            assert(0 <= c[0] < n0);
            assert(self.free_head == Some(c[0] as usize));
            assert(c[0] == h as int);
        }
        let next = match self.slots[h] {
            Slot::Free(n) => n,
            Slot::Occupied(_) => unreached(),
        };
        match next {
            Some(n) => {
                proof {
                    // the chain has a second element, and it is n
                    assert(c.len() >= 2 && c[1] == n as int) by {
                        if c.len() == 1 {
                            assert(self.slots@[c[0]]->Free_0 is None);
                        } else {
                            assert(self.slots@[c[0]]->Free_0 == Some(c[1] as usize));
                            assert(0 <= c[1] < n0);
                        }
                    }
                }
                self.free_head = Some(n);
                self.free_chain = Ghost(c.drop_first());
            },
            None => {
                // the chain is exhausted: link in a fresh chunk before
                // claiming.  The chunk is chained downwards: each new slot
                // points at the one pushed before it, and the first pushed
                // slot ends the chain.
                proof {
                    // the popped slot ends the chain, so it is the whole chain
                    if c.len() >= 2 {
                        assert(self.slots@[c[0]]->Free_0 == Some(c[1] as usize));
                    }
                    assert(c.len() == 1);
                }
                let ghost old_slots = self.slots@;
                let ghost base = self.slots@.len() as int;
                let mut k: usize = 0;
                while k < CHUNK_SIZE
                    invariant
                        k <= CHUNK_SIZE,
                        self.slots@.len() == old_slots.len() + k,
                        forall|j: int| 0 <= j < base ==> self.slots@[j] == old_slots[j],
                        forall|j: int|
                            base <= j < base + k ==> #[trigger] self.slots@[j] == (if j == base {
                                Slot::Free(None)
                            } else {
                                Slot::Free(Some((j - 1) as usize))
                            }),
                    decreases CHUNK_SIZE - k,
                {
                    if k == 0 {
                        self.slots.push(Slot::Free(None));
                    } else {
                        let prev = self.slots.len() - 1;
                        self.slots.push(Slot::Free(Some(prev)));
                    }
                    k = k + 1;
                }
                let head = self.slots.len() - 1;
                self.free_head = Some(head);
                self.free_chain = Ghost(
                    Seq::new(CHUNK_SIZE as nat, |j: int| base + CHUNK_SIZE - 1 - j),
                );
            },
        }
        self.slots.set(h, Slot::Occupied(value));
        proof {
            let s = self.slots@;
            let n = s.len() as int;
            let c2 = self.free_chain@;
            match next {
                Some(_) => {
                    assert forall|i: int| 0 <= i < n && s[i] is Free implies #[trigger] c2.contains(
                        i,
                    ) by {
                        assert(c.contains(i));
                        let k = choose|k: int| 0 <= k < c.len() && c[k] == i;
                        assert(k != 0);
                        assert(c2[k - 1] == i);
                    }
                },
                None => {
                    let base = old(self).spec_len();
                    assert forall|k: int| 0 <= k < c2.len() implies 0 <= #[trigger] c2[k] < n
                        && s[c2[k]] is Free by {
                        assert(c2[k] == base + CHUNK_SIZE - 1 - k);
                    }
                    assert forall|k: int| 0 <= k < c2.len() - 1 implies #[trigger] s[c2[k]]->Free_0
                        == Some(c2[k + 1] as usize) by {
                        assert(c2[k] == base + CHUNK_SIZE - 1 - k && c2[k] > base);
                    }
                    assert(c2[c2.len() - 1] == base);
                    assert forall|i: int| 0 <= i < n && s[i] is Free implies #[trigger] c2.contains(
                        i,
                    ) by {
                        if i < base {
                            // every free slot of the old table was on the old
                            // chain, whose only element is now occupied
                            assert(c.contains(i));
                            let k = choose|k: int| 0 <= k < c.len() && c[k] == i;
                            assert(s[c[k]] is Free);
                        } else {
                            assert(c2[base + CHUNK_SIZE - 1 - i] == i);
                            assert(c2.contains(i));
                        }
                    }
                },
            }
        }
        h
    }

    /// Finds the slot holding payload address `value` and rewrites it to
    /// `new_value`.  The sweep uses this to redirect a handle after moving
    /// the object it names.
    #[verifier::loop_isolation(false)]
    pub fn update_slot_by_value(&mut self, value: usize, new_value: usize)
        requires
            old(self).wf(),
            old(self).has_value(value as int),
            old(self).unique_value(value as int),
        ensures
            final(self).wf(),
            final(self).spec_len() == old(self).spec_len(),
            final(self).is_occupied(old(self).index_of_value(value as int)),
            final(self).value_of(old(self).index_of_value(value as int)) == new_value,
            forall|i: int|
                i != old(self).index_of_value(value as int) ==> final(self).is_occupied(i) == old(self).is_occupied(i) && (old(self).is_occupied(i) ==> final(self).value_of(i) == old(self).value_of(i)),
    {
        let ghost target = old(self).index_of_value(value as int);
        let ghost orig = *old(self);
        let n = self.slots.len();
        let mut i: usize = 0;
        while i < n
            invariant
                *self == orig,
                orig.wf(),
                n == self.slots@.len(),
                orig.is_occupied(target) && orig.value_of(target) == value,
                i <= target,
                forall|j: int|
                    0 <= j < i ==> !(orig.is_occupied(j) && orig.value_of(j) == value),
            decreases n - i,
        {
            let hit = match self.slots[i] {
                Slot::Occupied(v) => v == value,
                Slot::Free(_) => false,
            };
            if hit {
                proof {
                    assert(orig.is_occupied(i as int) && orig.value_of(i as int) == value);
                    assert(i as int == target);
                }
                self.slots.set(i, Slot::Occupied(new_value));
                proof {
                    let s = self.slots@;
                    let c = self.free_chain@;
                    assert forall|ii: int| 0 <= ii < s.len() && s[ii] is Free implies #[trigger] c
                        .contains(ii) by {
                        assert(orig.slots@[ii] is Free);
                    }
                }
                return ;
            }
            i = i + 1;
            proof {
                if i as int <= target {
                } else {
                    assert(false);
                }
            }
        }
        proof {
            assert(false);
        }
    }

    /// Finds the slot holding payload address `value` and returns it to the
    /// free list.  The sweep uses this to drop the handle of an object it
    /// reclaims.
    #[verifier::loop_isolation(false)]
    pub fn free_slot_by_value(&mut self, value: usize)
        requires
            old(self).wf(),
            old(self).has_value(value as int),
            old(self).unique_value(value as int),
        ensures
            final(self).wf(),
            final(self).spec_len() == old(self).spec_len(),
            !final(self).is_occupied(old(self).index_of_value(value as int)),
            forall|i: int|
                i != old(self).index_of_value(value as int) ==> final(self).is_occupied(i) == old(self).is_occupied(i) && (old(self).is_occupied(i) ==> final(self).value_of(i) == old(self).value_of(i)),
    {
        let ghost target = old(self).index_of_value(value as int);
        let ghost orig = *old(self);
        let ghost c = self.free_chain@;
        let n = self.slots.len();
        let mut i: usize = 0;
        while i < n
            invariant
                *self == orig,
                orig.wf(),
                c == orig.free_chain@,
                n == self.slots@.len(),
                orig.is_occupied(target) && orig.value_of(target) == value,
                i <= target,
                forall|j: int|
                    0 <= j < i ==> !(orig.is_occupied(j) && orig.value_of(j) == value),
            decreases n - i,
        {
            let hit = match self.slots[i] {
                Slot::Occupied(v) => v == value,
                Slot::Free(_) => false,
            };
            if hit {
                proof {
                    assert(orig.is_occupied(i as int) && orig.value_of(i as int) == value);
                    assert(i as int == target);
                }
                let head = match self.free_head {
                    Some(h) => h,
                    None => unreached(),
                };
                self.slots.set(i, Slot::Free(Some(head)));
                self.free_head = Some(i);
                self.free_chain = Ghost(seq![i as int] + c);
                proof {
                    let s = self.slots@;
                    let c2 = self.free_chain@;
                    assert(c2[0] == i as int);
                    assert forall|k: int| 0 <= k < c2.len() implies 0 <= #[trigger] c2[k] < s.len()
                        && s[c2[k]] is Free by {
                        if k > 0 {
                            assert(c2[k] == c[k - 1]);
                            assert(c[k - 1] != i as int);
                        }
                    }
                    assert forall|k: int| 0 <= k < c2.len() - 1 implies #[trigger] s[c2[k]]->Free_0
                        == Some(c2[k + 1] as usize) by {
                        if k == 0 {
                            assert(c2[1] == c[0]);
                        } else {
                            assert(c2[k] == c[k - 1] && c2[k + 1] == c[k]);
                            assert(c[k - 1] != i as int);
                        }
                    }
                    assert(c2[c2.len() - 1] == c[c.len() - 1]);
                    assert forall|k1: int, k2: int| 0 <= k1 < k2 < c2.len() implies #[trigger] c2[k1]
                        != #[trigger] c2[k2] by {
                        if k1 == 0 {
                            assert(c2[k2] == c[k2 - 1]);
                            assert(orig.slots@[c[k2 - 1]] is Free);
                        } else {
                            assert(c2[k1] == c[k1 - 1] && c2[k2] == c[k2 - 1]);
                        }
                    }
                    assert forall|ii: int| 0 <= ii < s.len() && s[ii] is Free implies #[trigger] c2
                        .contains(ii) by {
                        if ii == i as int {
                            assert(c2[0] == ii);
                        } else {
                            assert(orig.slots@[ii] is Free);
                            assert(c.contains(ii));
                            let k = choose|k: int| 0 <= k < c.len() && c[k] == ii;
                            assert(c2[k + 1] == ii);
                        }
                    }
                }
                return ;
            }
            i = i + 1;
            proof {
                if i as int <= target {
                } else {
                    assert(false);
                }
            }
        }
        proof {
            assert(false);
        }
    }
}

} // verus!
