//! The agent arena: a growable vector of slots with a free list for reuse,
//! a live list with its position index, and a capacity bound.
use vstd::prelude::*;
use std::collections::HashMap;
use crate::error::DnxError;
use crate::port::raw_slot;
use crate::slot::Slot;

verus! {

broadcast use vstd::std_specs::hash::group_hash_axioms;

/// Slot indices have 28 bits.
pub const MAX_SLOTS: u32 = 268435456;

/// Every port word of a slot names a slot below `n`.
pub open spec fn slot_closed(s: Slot, n: int) -> bool {
    &&& raw_slot(s.principal) < n
    &&& raw_slot(s.aux0) < n
    &&& raw_slot(s.aux1) < n
}

/// The eight 32-bit words of a slot in the flat device layout.
pub open spec fn gpu_word(s: Slot, k: int) -> u32 {
    if k == 0 {
        (s.tag as u32) | ((s.claim as u32) << 8u32)
    } else if k == 1 {
        s.generation
    } else if k == 2 {
        s.principal
    } else if k == 3 {
        s.aux0
    } else if k == 4 {
        s.aux1
    } else if k == 5 {
        (s.data as u32) | (((s.delta0 as u16) as u32) << 16u32)
    } else if k == 6 {
        ((s.delta1 as u16) as u32) | ((s.epoch as u32) << 16u32)
    } else {
        0
    }
}

/// The slot store of a net. Index 0 is a sentinel that is never live.
pub struct Arena {
    pub slots: Vec<Slot>,
    pub free: Vec<u32>,
    pub live_list: Vec<u32>,
    pub live_pos: HashMap<u32, usize>,
    pub cap: u32,
}

impl Arena {
    pub open spec fn len(&self) -> int {
        self.slots@.len() as int
    }

    pub open spec fn has_live(&self, idx: u32) -> bool {
        self.live_pos@.contains_key(idx)
    }

    pub open spec fn in_free(&self, idx: u32) -> bool {
        self.free@.contains(idx)
    }

    /// The same contents.
    pub open spec fn same(&self, other: Arena) -> bool {
        &&& self.slots@ == other.slots@
        &&& self.free@ == other.free@
        &&& self.live_list@ == other.live_list@
        &&& self.live_pos@ == other.live_pos@
        &&& self.cap == other.cap
    }

    pub open spec fn wf(&self) -> bool {
        &&& 1 <= self.slots@.len() <= MAX_SLOTS
        &&& self.cap <= MAX_SLOTS
        &&& (self.slots@.len() <= self.cap || self.slots@.len() == 1)
        &&& forall|k: int| 0 <= k < self.free@.len() ==> 0 < #[trigger] self.free@[k] < self.slots@.len()
        &&& forall|k: int, l: int|
            0 <= k < l < self.free@.len() ==> #[trigger] self.free@[k] != #[trigger] self.free@[l]
        &&& forall|k: int| 0 <= k < self.free@.len() ==> !self.live_pos@.contains_key(#[trigger] self.free@[k])
        &&& forall|i: int|
            0 <= i < self.live_list@.len() ==> {
                &&& 0 < #[trigger] self.live_list@[i] < self.slots@.len()
                &&& self.live_pos@.contains_key(self.live_list@[i])
                &&& self.live_pos@[self.live_list@[i]] == i
            }
        &&& forall|x: u32|
            #[trigger] self.live_pos@.contains_key(x) ==> {
                &&& self.live_pos@[x] < self.live_list@.len()
                &&& self.live_list@[self.live_pos@[x] as int] == x
            }
        &&& forall|i: int| 0 <= i < self.slots@.len() ==> slot_closed(#[trigger] self.slots@[i], self.slots@.len() as int)
    }

    /// A live slot index is below the slot count and not the sentinel.
    pub proof fn lemma_live_in_range(&self, idx: u32)
        requires
            self.wf(),
            self.has_live(idx),
        ensures
            0 < idx < self.slots@.len(),
    {
        let p = self.live_pos@[idx] as int;
        assert(self.live_list@[p] == idx);
    }

    pub fn new(capacity: u32) -> (a: Arena)
        ensures
            a.wf(),
            a.cap == (if capacity < MAX_SLOTS { capacity } else { MAX_SLOTS }),
            a.slots@ == seq![Slot::spec_empty()],
            a.free@ == Seq::<u32>::empty(),
            a.live_list@ == Seq::<u32>::empty(),
            a.live_pos@ == Map::<u32, usize>::empty(),
    {
        let cap = if capacity < MAX_SLOTS { capacity } else { MAX_SLOTS };
        let mut slots: Vec<Slot> = Vec::new();
        slots.push(Slot::empty());
        let a = Arena { slots, free: Vec::new(), live_list: Vec::new(), live_pos: HashMap::new(), cap };
        proof {
            assert(a.slots@ =~= seq![Slot::spec_empty()]);
            assert((0u32 >> 4u32) == 0u32) by (bit_vector);
        }
        a
    }

    /// Allocate a slot: reuse the most recently freed one (bumping its
    /// generation), else grow, unless the capacity is reached.
    pub fn alloc_slot(&mut self) -> (r: Result<u32, DnxError>)
        requires
            old(self).wf(),
        ensures
            final(self).wf(),
            final(self).cap == old(self).cap,
            old(self).free@.len() > 0 ==> {
                let idx = old(self).free@.last();
                &&& r == Ok::<u32, DnxError>(idx)
                &&& final(self).slots@ == old(self).slots@.update(
                    idx as int,
                    Slot {
                        generation: old(self).slots@[idx as int].generation.wrapping_add(1),
                        ..Slot::spec_empty()
                    },
                )
                &&& final(self).free@ == old(self).free@.drop_last()
            },
            old(self).free@.len() == 0 && old(self).slots@.len() >= old(self).cap ==> {
                &&& r == Err::<u32, DnxError>(DnxError::ArenaCapacityExceeded)
                &&& final(self).same(*old(self))
            },
            old(self).free@.len() == 0 && old(self).slots@.len() < old(self).cap ==> {
                &&& r == Ok::<u32, DnxError>(old(self).slots@.len() as u32)
                &&& final(self).slots@ == old(self).slots@.push(Slot::spec_empty())
                &&& final(self).free@ == old(self).free@
            },
            r matches Ok(idx) ==> {
                &&& !old(self).has_live(idx)
                &&& final(self).has_live(idx)
                &&& final(self).live_pos@ == old(self).live_pos@.insert(idx, old(self).live_list@.len() as usize)
                &&& final(self).live_list@ == old(self).live_list@.push(idx)
                &&& 0 < idx < final(self).slots@.len()
            },
    {
        let idx;
        if let Some(i) = self.free.pop() {
            proof {
                assert(old(self).free@[old(self).free@.len() - 1] == i);
            }
            let old_gen = self.slots[i as usize].generation;
            let mut s = Slot::empty();
            s.generation = old_gen.wrapping_add(1);
            self.slots.set(i as usize, s);
            idx = i;
            proof {
                assert((0u32 >> 4u32) == 0u32) by (bit_vector);
                assert forall|k: int| 0 <= k < self.free@.len() implies !self.live_pos@.contains_key(
                    #[trigger] self.free@[k],
                ) by {
                    assert(self.free@[k] == old(self).free@[k]);
                }
                assert forall|k: int, l: int|
                    0 <= k < l < self.free@.len() implies #[trigger] self.free@[k]
                    != #[trigger] self.free@[l] by {
                    assert(self.free@[k] == old(self).free@[k]);
                    assert(self.free@[l] == old(self).free@[l]);
                }
            }
        } else {
            let n = self.slots.len() as u32;
            if n >= self.cap {
                return Err(DnxError::ArenaCapacityExceeded);
            }
            self.slots.push(Slot::empty());
            idx = n;
            proof {
                assert((0u32 >> 4u32) == 0u32) by (bit_vector);
                assert forall|i: int| 0 <= i < self.slots@.len() implies slot_closed(
                    #[trigger] self.slots@[i],
                    self.slots@.len() as int,
                ) by {
                    if i < old(self).slots@.len() {
                        assert(slot_closed(old(self).slots@[i], old(self).slots@.len() as int));
                    }
                }
            }
        }
        let pos = self.live_list.len();
        self.live_list.push(idx);
        self.live_pos.insert(idx, pos);
        proof {
            assert forall|i: int| 0 <= i < self.live_list@.len() implies {
                &&& 0 < #[trigger] self.live_list@[i] < self.slots@.len()
                &&& self.live_pos@.contains_key(self.live_list@[i])
                &&& self.live_pos@[self.live_list@[i]] == i
            } by {
                if i < pos {
                    assert(self.live_list@[i] == old(self).live_list@[i]);
                    assert(old(self).live_list@[i] != idx);
                }
            }
        }
        Ok(idx)
    }

    /// Retire a slot: drop it from the live list (moving the last live entry
    /// into its place) and push it on the free list.
    pub fn retire_slot(&mut self, idx: u32)
        requires
            old(self).wf(),
            0 < idx < old(self).slots@.len(),
            !old(self).in_free(idx),
        ensures
            final(self).wf(),
            final(self).slots@ == old(self).slots@,
            final(self).cap == old(self).cap,
            final(self).free@ == old(self).free@.push(idx),
            final(self).live_pos@.dom() == old(self).live_pos@.dom().remove(idx),
            final(self).live_list@.len() == (if old(self).has_live(idx) {
                old(self).live_list@.len() - 1
            } else {
                old(self).live_list@.len() as int
            }),
    {
        if let Some(pos) = self.live_pos.remove(&idx) {
            let last = self.live_list.len() - 1;
            let ghost old_list = self.live_list@;
            let ghost moved_v = old_list[last as int];
            self.live_list.swap_remove(pos);
            if pos < self.live_list.len() {
                let moved = self.live_list[pos];
                proof {
                    assert(moved == moved_v);
                }
                self.live_pos.insert(moved, pos);
            }
            proof {
                assert forall|i: int| 0 <= i < self.live_list@.len() implies {
                    &&& 0 < #[trigger] self.live_list@[i] < self.slots@.len()
                    &&& self.live_pos@.contains_key(self.live_list@[i])
                    &&& self.live_pos@[self.live_list@[i]] == i
                } by {
                    if i != pos {
                        assert(self.live_list@[i] == old_list[i]);
                        assert(old_list[i] != idx);
                        assert(old_list[i] != moved_v);
                    }
                }
                assert forall|x: u32| #[trigger] self.live_pos@.contains_key(x) implies {
                    &&& self.live_pos@[x] < self.live_list@.len()
                    &&& self.live_list@[self.live_pos@[x] as int] == x
                } by {
                    if x != moved_v {
                        let p = old(self).live_pos@[x] as int;
                        assert(old_list[p] == x);
                        assert(p != last);
                    }
                }
            }
        }
        self.free.push(idx);
        proof {
            assert forall|k: int, l: int|
                0 <= k < l < self.free@.len() implies #[trigger] self.free@[k] != #[trigger] self.free@[l] by {
                if l == self.free@.len() - 1 {
                    assert(self.free@[k] == old(self).free@[k]);
                }
            }
            assert forall|k: int| 0 <= k < self.free@.len() implies !self.live_pos@.contains_key(
                #[trigger] self.free@[k],
            ) by {
                if k < old(self).free@.len() {
                    assert(self.free@[k] == old(self).free@[k]);
                }
            }
        }
    }

    pub fn slot(&self, idx: u32) -> (s: &Slot)
        requires
            idx < self.slots@.len(),
        ensures
            *s == self.slots@[idx as int],
    {
        &self.slots[idx as usize]
    }

    /// Overwrite a slot.
    pub fn set_slot(&mut self, idx: u32, s: Slot)
        requires
            old(self).wf(),
            idx < old(self).slots@.len(),
            slot_closed(s, old(self).slots@.len() as int),
        ensures
            final(self).wf(),
            final(self).slots@ == old(self).slots@.update(idx as int, s),
            final(self).free@ == old(self).free@,
            final(self).live_list@ == old(self).live_list@,
            final(self).live_pos@ == old(self).live_pos@,
            final(self).cap == old(self).cap,
    {
        self.slots.set(idx as usize, s);
    }

    pub fn live(&self) -> (l: &Vec<u32>)
        ensures
            l@ == self.live_list@,
    {
        &self.live_list
    }

    pub fn is_live(&self, idx: u32) -> (b: bool)
        ensures
            b == self.has_live(idx),
    {
        self.live_pos.contains_key(&idx)
    }

    /// Making `idx` live leaves every other slot's liveness as it was.
    pub proof fn lemma_live_after_push(&self, new: &Arena, idx: u32, v: u32)
        requires
            self.wf(),
            new.wf(),
            new.live_list@ == self.live_list@.push(idx),
            v != idx,
            !self.has_live(v),
        ensures
            !new.has_live(v),
    {
        if new.has_live(v) {
            let p = new.live_pos@[v] as int;
            assert(new.live_list@[p] == v);
            if p < self.live_list@.len() {
                assert(self.live_list@[p] == v);
            }
        }
    }

    /// Whether `idx` is on the free list.
    pub fn free_contains(&self, idx: u32) -> (b: bool)
        ensures
            b == self.in_free(idx),
    {
        let mut i: usize = 0;
        while i < self.free.len()
            invariant
                i <= self.free@.len(),
                forall|j: int| 0 <= j < i ==> self.free@[j] != idx,
            decreases self.free@.len() - i,
        {
            if self.free[i] == idx {
                assert(self.free@[i as int] == idx);
                return true;
            }
            i = i + 1;
        }
        false
    }

    /// Reserve `n` fresh slots at the end, not yet live. Returns the first
    /// index.
    pub fn reserve(&mut self, n: u32) -> (r: Result<u32, DnxError>)
        requires
            old(self).wf(),
        ensures
            final(self).wf(),
            final(self).cap == old(self).cap,
            final(self).free@ == old(self).free@,
            final(self).live_list@ == old(self).live_list@,
            final(self).live_pos@ == old(self).live_pos@,
            old(self).slots@.len() + n > old(self).cap ==> r == Err::<u32, DnxError>(
                DnxError::ArenaCapacityExceeded,
            ) && final(self).slots@ == old(self).slots@,
            old(self).slots@.len() + n <= old(self).cap ==> r == Ok::<u32, DnxError>(
                old(self).slots@.len() as u32,
            ) && final(self).slots@ == old(self).slots@ + Seq::new(n as nat, |i: int| Slot::spec_empty()),
    {
        let base = self.slots.len() as u32;
        let end = match base.checked_add(n) {
            Some(e) => e,
            None => return Err(DnxError::ArenaCapacityExceeded),
        };
        if end > self.cap {
            return Err(DnxError::ArenaCapacityExceeded);
        }
        let mut j: u32 = 0;
        while j < n
            invariant
                self.wf(),
                old(self).slots@.len() + n <= self.cap,
                self.cap == old(self).cap,
                self.free@ == old(self).free@,
                self.live_list@ == old(self).live_list@,
                self.live_pos@ == old(self).live_pos@,
                base == old(self).slots@.len(),
                j <= n,
                self.slots@ == old(self).slots@ + Seq::new(j as nat, |i: int| Slot::spec_empty()),
            decreases n - j,
        {
            let ghost before = self.slots@;
            self.slots.push(Slot::empty());
            proof {
                assert((0u32 >> 4u32) == 0u32) by (bit_vector);
                assert forall|i: int| 0 <= i < self.slots@.len() implies slot_closed(
                    #[trigger] self.slots@[i],
                    self.slots@.len() as int,
                ) by {
                    if i < before.len() {
                        assert(slot_closed(before[i], before.len() as int));
                    }
                }
                assert(self.slots@ =~= old(self).slots@ + Seq::new((j + 1) as nat, |i: int| Slot::spec_empty()));
            }
            j = j + 1;
        }
        Ok(base)
    }

    /// Make a reserved slot live with the given contents.
    pub fn commit_slot(&mut self, idx: u32, slot: Slot)
        requires
            old(self).wf(),
            0 < idx < old(self).slots@.len(),
            !old(self).has_live(idx),
            !old(self).in_free(idx),
            slot_closed(slot, old(self).slots@.len() as int),
        ensures
            final(self).wf(),
            final(self).slots@ == old(self).slots@.update(idx as int, slot),
            final(self).free@ == old(self).free@,
            final(self).live_list@ == old(self).live_list@.push(idx),
            final(self).has_live(idx),
            final(self).cap == old(self).cap,
    {
        self.slots.set(idx as usize, slot);
        let pos = self.live_list.len();
        self.live_list.push(idx);
        self.live_pos.insert(idx, pos);
        proof {
            assert forall|i: int| 0 <= i < self.live_list@.len() implies {
                &&& 0 < #[trigger] self.live_list@[i] < self.slots@.len()
                &&& self.live_pos@.contains_key(self.live_list@[i])
                &&& self.live_pos@[self.live_list@[i]] == i
            } by {
                if i < pos {
                    assert(self.live_list@[i] == old(self).live_list@[i]);
                }
            }
            assert forall|k: int| 0 <= k < self.free@.len() implies !self.live_pos@.contains_key(
                #[trigger] self.free@[k],
            ) by {
                assert(self.free@.contains(self.free@[k]));
            }
        }
    }

    /// Return the unused tail `base + used .. base + max` of a reservation
    /// to the free list.
    pub fn release_reserved(&mut self, base: u32, used: u32, max: u32)
        requires
            old(self).wf(),
            used <= max,
            0 < base,
            base + max <= old(self).slots@.len(),
            forall|v: u32|
                (base + used <= v && v < base + max) ==> !(#[trigger] old(self).has_live(v)),
            forall|v: u32| (base + used <= v && v < base + max) ==> !(#[trigger] old(self).in_free(v)),
        ensures
            final(self).wf(),
            final(self).slots@ == old(self).slots@,
            final(self).live_list@ == old(self).live_list@,
            final(self).live_pos@ == old(self).live_pos@,
            final(self).free@ == old(self).free@ + Seq::new((max - used) as nat, |i: int| (base + used + i) as u32),
            final(self).cap == old(self).cap,
    {
        let ghost free0 = self.free@;
        let ghost live0 = self.live_pos@;
        let ghost slots0 = self.slots@;
        let ghost list0 = self.live_list@;
        proof {
            assert forall|v: u32|
                base + used <= v < base + max implies !#[trigger] live0.contains_key(v) && !free0.contains(v) by {
                assert(!old(self).has_live(v));
                assert(!old(self).in_free(v));
            }
        }
        let mut j = used;
        while j < max
            invariant
                self.wf(),
                used <= j <= max,
                base + max <= self.slots@.len(),
                0 < base,
                self.slots@ == slots0,
                self.live_list@ == list0,
                self.live_pos@ == live0,
                self.cap == old(self).cap,
                self.free@ == free0 + Seq::new((j - used) as nat, |i: int| (base + used + i) as u32),
                forall|v: u32|
                    base + used <= v < base + max ==> !#[trigger] live0.contains_key(v) && !free0.contains(v),
            decreases max - j,
        {
            let ghost before = self.free@;
            let v = base + j;
            proof {
                assert(!before.contains(v)) by {
                    if before.contains(v) {
                        let k = choose|k: int| 0 <= k < before.len() && before[k] == v;
                        if k >= free0.len() {
                            assert(before[k] == (base + used + (k - free0.len())) as u32);
                        } else {
                            assert(free0[k] == v);
                            assert(free0.contains(v));
                        }
                    }
                }
                assert(!live0.contains_key(v));
            }
            self.free.push(v);
            proof {
                assert forall|k: int, l: int|
                    0 <= k < l < self.free@.len() implies #[trigger] self.free@[k] != #[trigger] self.free@[l] by {
                    if l == self.free@.len() - 1 {
                        assert(self.free@[k] == before[k]);
                        assert(before.contains(before[k]));
                    }
                }
                assert forall|k: int| 0 <= k < self.free@.len() implies !self.live_pos@.contains_key(
                    #[trigger] self.free@[k],
                ) by {
                    if k < before.len() {
                        assert(self.free@[k] == before[k]);
                    }
                }
                assert(self.free@ =~= free0 + Seq::new((j + 1 - used) as nat, |i: int| (base + used + i) as u32));
            }
            j = j + 1;
        }
    }

    pub fn slot_count(&self) -> (n: usize)
        ensures
            n == self.slots@.len(),
    {
        self.slots.len()
    }

    /// Flatten the slots to eight 32-bit words each, in the device layout.
    pub fn encode_gpu(&self) -> (out: Vec<u32>)
        requires
            self.slots@.len() <= MAX_SLOTS,
        ensures
            out@.len() == 8 * self.slots@.len(),
            forall|i: int, k: int|
                0 <= i < self.slots@.len() && 0 <= k < 8 ==> #[trigger] out@[8 * i + k] == gpu_word(
                    self.slots@[i],
                    k,
                ),
    {
        let mut out: Vec<u32> = Vec::new();
        let n = self.slots.len();
        let mut i: usize = 0;
        while i < n
            invariant
                n == self.slots@.len(),
                n <= MAX_SLOTS,
                i <= n,
                out@.len() == 8 * i,
                forall|p: int, k: int|
                    0 <= p < i && 0 <= k < 8 ==> #[trigger] out@[8 * p + k] == gpu_word(self.slots@[p], k),
            decreases n - i,
        {
            let s = &self.slots[i];
            let w0 = (s.tag as u32) | ((s.claim as u32) << 8u32);
            let w5 = (s.data as u32) | (((s.delta0 as u16) as u32) << 16u32);
            let w6 = ((s.delta1 as u16) as u32) | ((s.epoch as u32) << 16u32);
            let ghost before = out@;
            out.push(w0);
            out.push(s.generation);
            out.push(s.principal);
            out.push(s.aux0);
            out.push(s.aux1);
            out.push(w5);
            out.push(w6);
            out.push(0u32);
            proof {
                assert forall|p: int, k: int|
                    0 <= p < i + 1 && 0 <= k < 8 implies #[trigger] out@[8 * p + k] == gpu_word(
                        self.slots@[p],
                        k,
                    ) by {
                    if p < i {
                        assert(8 * p + k < 8 * i) by (nonlinear_arith)
                            requires
                                p < i,
                                k < 8,
                        ;
                        assert(out@[8 * p + k] == before[8 * p + k]);
                    } else {
                        assert(8 * p + k == 8 * i + k);
                    }
                }
            }
            i = i + 1;
        }
        out
    }
}

} // verus!
