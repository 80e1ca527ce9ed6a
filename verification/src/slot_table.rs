//! A dense, reusable-slot table mapping small integer keys to owned values.
//!
//! This is the engine's in-flight operation table: a key is allocated when an
//! operation is accepted for submission and stays valid until its completion
//! is processed, at which point the key is freed and may be reused by a later
//! insertion. Freed slots are recycled before the table grows.

use vstd::prelude::*;

verus! {

use vstd::set_lib::lemma_len_subset;
use vstd::set_lib::lemma_int_range;
use vstd::set_lib::set_int_range;
use vstd::pervasive::unreached;

/// A dense slot table with reusable integer keys.
pub struct SlotTable<E> {
    slots: Vec<Option<E>>,
    free: Vec<usize>,
    occupied: usize,
}

impl<E> SlotTable<E> {
    /// The mathematical contents: a map from occupied slot keys to the values
    /// stored there.
    pub closed spec fn contents(&self) -> Map<int, E> {
        Map::new(
            |k: int| 0 <= k < self.slots@.len() && self.slots@[k] is Some,
            |k: int| self.slots@[k]->0,
        )
    }

    /// Number of slots the table has ever allocated (occupied or free).
    pub closed spec fn num_slots(&self) -> int {
        self.slots@.len() as int
    }

    /// Well-formedness: the free list holds exactly the unoccupied slot keys,
    /// each once, and the occupied count matches.
    pub closed spec fn wf(&self) -> bool {
        &&& forall|j: int|
            0 <= j < self.free@.len() ==> (#[trigger] self.free@[j]) < self.slots@.len()
                && self.slots@[self.free@[j] as int] is None
        &&& forall|k: int|
            0 <= k < self.slots@.len() && self.slots@[k] is None ==> exists|j: int|
                0 <= j < self.free@.len() && (#[trigger] self.free@[j]) == k
        &&& forall|j1: int, j2: int|
            0 <= j1 < j2 < self.free@.len() ==> (#[trigger] self.free@[j1]) != (
            #[trigger] self.free@[j2])
        &&& self.occupied + self.free@.len() == self.slots@.len()
    }

    /// The occupied keys below bound `n`.
    spec fn occ_set(slots: Seq<Option<E>>, n: int) -> Set<int> {
        Set::new(|k: int| 0 <= k < n && k < slots.len() && slots[k] is Some)
    }

    /// The positions in the free list whose key lies below bound `n`.
    spec fn free_below(free: Seq<usize>, slots: Seq<Option<E>>, n: int) -> Set<int> {
        Set::new(|j: int| 0 <= j < free.len() && free[j] < n)
    }

    proof fn lemma_occupied_count(&self, n: int)
        requires
            self.wf(),
            0 <= n <= self.slots@.len(),
        ensures
            Self::occ_set(self.slots@, n).finite(),
            Self::free_below(self.free@, self.slots@, n).finite(),
            Self::occ_set(self.slots@, n).len() + Self::free_below(self.free@, self.slots@, n).len()
                == n,
        decreases n,
    {
        let occ = Self::occ_set(self.slots@, n);
        let fre = Self::free_below(self.free@, self.slots@, n);
        lemma_int_range(0, self.slots@.len() as int);
        lemma_len_subset(occ, set_int_range(0, self.slots@.len() as int));
        lemma_int_range(0, self.free@.len() as int);
        lemma_len_subset(fre, set_int_range(0, self.free@.len() as int));
        if n == 0 {
            assert(occ =~= Set::empty());
            assert(fre =~= Set::empty());
        } else {
            self.lemma_occupied_count(n - 1);
            let occ0 = Self::occ_set(self.slots@, n - 1);
            let fre0 = Self::free_below(self.free@, self.slots@, n - 1);
            if self.slots@[n - 1] is Some {
                assert(occ =~= occ0.insert(n - 1));
                assert(fre =~= fre0);
                assert(!occ0.contains(n - 1));
            } else {
                let j = choose|j: int| 0 <= j < self.free@.len() && self.free@[j] == n - 1;
                assert(occ =~= occ0);
                assert(fre =~= fre0.insert(j));
                assert(!fre0.contains(j));
            }
        }
    }

    /// The set of occupied keys is exactly the contents' domain; it is a
    /// finite set whose size is the occupied count.
    proof fn lemma_occupied_is_dom_len(&self)
        requires
            self.wf(),
        ensures
            self.contents().dom().finite(),
            self.contents().dom().len() == self.occupied,
    {
        self.lemma_occupied_count(self.slots@.len() as int);
        assert(self.contents().dom() =~= Self::occ_set(self.slots@, self.slots@.len() as int));
        assert(Self::free_below(self.free@, self.slots@, self.slots@.len() as int) =~= set_int_range(
            0,
            self.free@.len() as int,
        ));
        lemma_int_range(0, self.free@.len() as int);
    }

    /// Whether one more value can be inserted: there is a freed slot to
    /// reuse, or one more slot key is representable.
    pub closed spec fn room(&self) -> bool {
        self.free@.len() > 0 || self.slots@.len() < usize::MAX
    }

    /// Exec test for [`Self::room`].
    pub fn has_room(&self) -> (b: bool)
        ensures
            b == self.room(),
    {
        self.free.len() > 0 || self.slots.len() < usize::MAX
    }

    /// Occupied keys lie below the slot count, which fits in a `usize`.
    pub proof fn lemma_keys_in_range(&self)
        ensures
            forall|k: int| #[trigger]
                self.contents().dom().contains(k) ==> 0 <= k < self.num_slots(),
            self.num_slots() <= usize::MAX,
    {
        assert(self.slots@.len() == self.slots.len());
    }

    /// Creates an empty table.
    pub fn new() -> (t: Self)
        ensures
            t.wf(),
            t.contents() == Map::<int, E>::empty(),
    {
        let t = SlotTable { slots: Vec::new(), free: Vec::new(), occupied: 0 };
        proof {
            assert(t.contents() =~= Map::<int, E>::empty());
        }
        t
    }

    /// The number of occupied slots.
    pub fn len(&self) -> (n: usize)
        requires
            self.wf(),
        ensures
            n == self.contents().dom().len(),
    {
        proof {
            self.lemma_occupied_is_dom_len();
        }
        self.occupied
    }

    /// Whether the table holds no values.
    pub fn is_empty(&self) -> (b: bool)
        requires
            self.wf(),
        ensures
            b <==> self.contents().dom() == Set::<int>::empty(),
    {
        proof {
            self.lemma_occupied_is_dom_len();
            if self.occupied == 0 {
                self.contents().dom().lemma_len0_is_empty();
            } else {
                if self.contents().dom() == Set::<int>::empty() {
                    assert(self.contents().dom().len() == 0);
                }
            }
        }
        self.occupied == 0
    }

    /// Inserts a value, returning the key of the slot it now occupies. A
    /// freed slot is reused if one exists; otherwise the table grows by one.
    /// The key is never one that is currently occupied.
    pub fn insert(&mut self, value: E) -> (key: usize)
        requires
            old(self).wf(),
            old(self).room(),
        ensures
            final(self).wf(),
            !old(self).contents().dom().contains(key as int),
            final(self).contents() == old(self).contents().insert(key as int, value),
            key < final(self).num_slots(),
            old(self).num_slots() <= final(self).num_slots() <= old(self).num_slots() + 1,
    {
        let cap = self.slots.len();
        let key: usize;
        match self.free.pop() {
            Some(k) => {
                key = k;
                let mut taken: Option<E> = Some(value);
                core::mem::swap(&mut taken, &mut self.slots[key]);
                self.occupied = self.occupied + 1;
                proof {
                    assert forall|k2: int|
                        0 <= k2 < self.slots@.len() && self.slots@[k2] is None implies exists|
                        j: int,
                    |
                        0 <= j < self.free@.len() && (#[trigger] self.free@[j]) == k2 by {
                        let j0 = choose|j0: int|
                            0 <= j0 < old(self).free@.len() && (#[trigger] old(self).free@[j0])
                                == k2;
                        assert(j0 < old(self).free@.len() - 1);
                        assert(self.free@[j0] == k2);
                    }
                }
            },
            None => {
                key = self.slots.len();
                self.slots.push(Some(value));
                self.occupied = self.occupied + 1;
                proof {
                    assert forall|k2: int|
                        0 <= k2 < self.slots@.len() && self.slots@[k2] is None implies exists|
                        j: int,
                    |
                        0 <= j < self.free@.len() && (#[trigger] self.free@[j]) == k2 by {
                        let j0 = choose|j0: int|
                            0 <= j0 < old(self).free@.len() && (#[trigger] old(self).free@[j0])
                                == k2;
                        assert(self.free@[j0] == k2);
                    }
                }
            },
        }
        proof {
            assert(self.contents() =~= old(self).contents().insert(key as int, value));
        }
        key
    }

    /// Whether `key` is currently occupied.
    pub fn contains_key(&self, key: usize) -> (b: bool)
        ensures
            b <==> self.contents().dom().contains(key as int),
    {
        key < self.slots.len() && self.slots[key].is_some()
    }

    /// Removes and returns the value stored under `key`, freeing the slot for
    /// reuse by a later insertion.
    pub fn remove(&mut self, key: usize) -> (value: E)
        requires
            old(self).wf(),
            old(self).contents().dom().contains(key as int),
        ensures
            final(self).wf(),
            value == old(self).contents()[key as int],
            final(self).contents() == old(self).contents().remove(key as int),
            final(self).num_slots() == old(self).num_slots(),
    {
        proof {
            self.lemma_occupied_is_dom_len();
            if self.occupied == 0 {
                self.contents().dom().lemma_len0_is_empty();
            }
        }
        let mut taken: Option<E> = None;
        core::mem::swap(&mut taken, &mut self.slots[key]);
        self.free.push(key);
        self.occupied = self.occupied - 1;
        proof {
            assert forall|k2: int|
                0 <= k2 < self.slots@.len() && self.slots@[k2] is None implies exists|j: int|
                0 <= j < self.free@.len() && (#[trigger] self.free@[j]) == k2 by {
                if k2 == key {
                    assert(self.free@[self.free@.len() - 1] == k2);
                } else {
                    let j0 = choose|j0: int|
                        0 <= j0 < old(self).free@.len() && (#[trigger] old(self).free@[j0]) == k2;
                    assert(self.free@[j0] == k2);
                }
            }
            assert(self.contents() =~= old(self).contents().remove(key as int));
        }
        match taken {
            Some(v) => v,
            None => unreached(),
        }
    }
}

} // verus!
