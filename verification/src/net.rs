//! An interaction net: the agent arena, the two frontiers of pending work
//! (active pairs, and replicator/application candidates for the second
//! phase), the named roots, and the class and pending-erasure flags.
use vstd::prelude::*;
use std::marker::PhantomData;
use crate::arena::{Arena, slot_closed};
use crate::class::{Canonical, NetClassMarker, NetState, Proper};
use crate::error::DnxError;
use crate::frontier::LoMap;
use crate::lopath::LOPath;
use crate::port::{
    PortId, PortKind, PrincipalPortId, era_raw, lemma_sentinels, pack, raw_is_eraser, raw_kind,
    raw_slot, raw_gen,
};
use crate::slot::{
    Slot, TAG_FAN_ABS, TAG_FAN_APP, TAG_FREE, TAG_REP_IN_UNPAIRED, lemma_flags_keep_class, tag_bit0,
    tag_is_fan, tag_is_free, tag_is_prim, tag_is_rep,
};

verus! {

/// Net flag: an erasure happened since the last sweep.
pub const FLAG_PENDING_C1: u8 = 4;

/// Net flag bits of the class: erasers allowed.
pub const FLAG_HAS_ERA: u8 = 1;

/// Net flag bits of the class: replicators allowed.
pub const FLAG_HAS_REP: u8 = 2;

/// Two principal ports facing each other: a redex.
#[derive(Clone, Copy, Debug)]
pub struct ActivePair {
    pub p0: PrincipalPortId,
    pub p1: PrincipalPortId,
    pub lo: LOPath,
}

impl ActivePair {
    /// A pair of the two ports, when both are principal.
    pub fn new(p0: PortId, p1: PortId, lo: LOPath) -> (r: Option<ActivePair>)
        ensures
            r == (if raw_kind(p0.0) == PortKind::Principal && raw_kind(p1.0)
                == PortKind::Principal {
                Some(ActivePair { p0: PrincipalPortId(p0), p1: PrincipalPortId(p1), lo })
            } else {
                None
            }),
    {
        let a = PrincipalPortId::new(p0);
        let b = PrincipalPortId::new(p1);
        match (a, b) {
            (Some(a), Some(b)) => Some(ActivePair { p0: a, p1: b, lo }),
            _ => None,
        }
    }
}

/// A replicator principal port wired to an application's first auxiliary
/// port: a candidate for replication past the application.
#[derive(Clone, Copy, Debug)]
pub struct C4Candidate {
    pub rep_principal: PortId,
    pub app_aux0: PortId,
    pub lo: LOPath,
}

/// The three ports of a freshly allocated agent.
#[derive(Clone, Copy, Debug)]
pub struct AgentPorts {
    pub principal: PortId,
    pub aux0: PortId,
    pub aux1: PortId,
}

/// A read-only copy of the fields of a slot that readback uses.
#[derive(Copy, Clone, Debug)]
pub struct SlotView {
    pub tag: u8,
    pub principal: u32,
    pub aux0: u32,
    pub aux1: u32,
    pub data: u16,
    pub delta0: i16,
    pub delta1: i16,
}

impl SlotView {
    pub fn is_fan(self) -> (b: bool)
        ensures
            b == tag_is_fan(self.tag),
    {
        (self.tag & 0x0C) == 0x04
    }

    pub fn is_rep(self) -> (b: bool)
        ensures
            b == tag_is_rep(self.tag),
    {
        (self.tag & 0x0C) == 0x08
    }

    pub fn is_free(self) -> (b: bool)
        ensures
            b == tag_is_free(self.tag),
    {
        (self.tag & 0x0C) == 0x00
    }

    pub fn is_prim(self) -> (b: bool)
        ensures
            b == tag_is_prim(self.tag),
    {
        (self.tag & 0x0E) == 0x0C
    }

    pub fn fan_is_abs(self) -> (b: bool)
        ensures
            b == tag_bit0(self.tag),
    {
        (self.tag & 0x01) != 0
    }

    /// The variable id of a free-variable agent: the low 14 bits of `data`.
    pub fn free_var_id(self) -> (r: u16)
        ensures
            r == self.data & 0x3FFF,
    {
        self.data & 0x3FFF
    }
}

/// The view of a slot.
pub open spec fn view_of(s: Slot) -> SlotView {
    SlotView {
        tag: s.tag,
        principal: s.principal,
        aux0: s.aux0,
        aux1: s.aux1,
        data: s.data,
        delta0: s.delta0,
        delta1: s.delta1,
    }
}

/// The null port and eraser ports name no slot that can be written.
pub open spec fn is_virtual(p: PortId) -> bool {
    raw_is_eraser(p.0) || p.0 == 0
}

/// The port names a slot below `n`.
pub open spec fn port_in(p: PortId, n: int) -> bool {
    raw_slot(p.0) < n
}

/// The word stored at port `kind` of a slot.
pub open spec fn word_of(s: Slot, kind: PortKind) -> u32 {
    match kind {
        PortKind::Principal => s.principal,
        PortKind::Aux0 => s.aux0,
        PortKind::Aux1 => s.aux1,
    }
}

/// The peer of a port: itself when virtual, else the word stored at it.
pub open spec fn spec_peer(slots: Seq<Slot>, p: PortId) -> PortId {
    if is_virtual(p) {
        p
    } else {
        PortId(word_of(slots[raw_slot(p.0) as int], raw_kind(p.0)))
    }
}

/// A slot after `v` is written into its port `kind`. An eraser written into
/// an auxiliary port of a replicator also sets that port's erased flag.
pub open spec fn written(s: Slot, kind: PortKind, v: PortId) -> Slot {
    match kind {
        PortKind::Principal => Slot { principal: v.0, ..s },
        PortKind::Aux0 => Slot {
            aux0: v.0,
            tag: if raw_is_eraser(v.0) && tag_is_rep(s.tag) {
                s.tag | 0x40
            } else {
                s.tag
            },
            ..s
        },
        PortKind::Aux1 => Slot {
            aux1: v.0,
            tag: if raw_is_eraser(v.0) && tag_is_rep(s.tag) {
                s.tag | 0x80
            } else {
                s.tag
            },
            ..s
        },
    }
}

/// The slots after `v` is written at port `p` (nothing for a virtual port).
pub open spec fn write_slots(slots: Seq<Slot>, p: PortId, v: PortId) -> Seq<Slot> {
    if is_virtual(p) {
        slots
    } else {
        slots.update(raw_slot(p.0) as int, written(slots[raw_slot(p.0) as int], raw_kind(p.0), v))
    }
}

/// A slot after its port `kind` is set to the eraser: the replicator erased
/// flag of an auxiliary port, and for the second auxiliary port of an agent
/// with bit 0 set, the erasing-abstraction flag.
pub open spec fn erased_slot(s: Slot, kind: PortKind) -> Slot {
    match kind {
        PortKind::Principal => Slot { principal: era_raw(), ..s },
        PortKind::Aux0 => Slot {
            aux0: era_raw(),
            tag: if tag_is_rep(s.tag) {
                s.tag | 0x40
            } else {
                s.tag
            },
            ..s
        },
        PortKind::Aux1 => Slot {
            aux1: era_raw(),
            tag: {
                let t1: u8 = if tag_is_rep(s.tag) {
                    s.tag | 0x80
                } else {
                    s.tag
                };
                if tag_bit0(s.tag) {
                    t1 | 0x10
                } else {
                    t1
                }
            },
            ..s
        },
    }
}

/// The labels (level or id, and the two deltas) of every slot are those of
/// `old`, and no slot was added or removed.
pub open spec fn labels_kept(old: Seq<Slot>, new: Seq<Slot>) -> bool {
    &&& new.len() == old.len()
    &&& forall|i: int|
        0 <= i < new.len() ==> {
            &&& (#[trigger] new[i]).data == old[i].data
            &&& new[i].delta0 == old[i].delta0
            &&& new[i].delta1 == old[i].delta1
            &&& tag_is_rep(new[i].tag) == tag_is_rep(old[i].tag)
            &&& tag_is_fan(new[i].tag) == tag_is_fan(old[i].tag)
            &&& (new[i].tag & 0x0F) == (old[i].tag & 0x0F)
        }
}

/// The ports of the agent in slot `idx` with generation parity `g`.
pub open spec fn ports_of(idx: u32, g: u32) -> AgentPorts {
    AgentPorts {
        principal: PortId(pack(idx, PortKind::Principal, (g & 1) as u8)),
        aux0: PortId(pack(idx, PortKind::Aux0, (g & 1) as u8)),
        aux1: PortId(pack(idx, PortKind::Aux1, (g & 1) as u8)),
    }
}

/// The ports of an agent name its slot (below 2^28) and carry their kinds.
pub proof fn lemma_ports_of(idx: u32, g: u32)
    requires
        idx < 0x1000_0000,
    ensures
        raw_slot(ports_of(idx, g).principal.0) == idx,
        raw_slot(ports_of(idx, g).aux0.0) == idx,
        raw_slot(ports_of(idx, g).aux1.0) == idx,
        raw_kind(ports_of(idx, g).principal.0) == PortKind::Principal,
        raw_kind(ports_of(idx, g).aux0.0) == PortKind::Aux0,
        raw_kind(ports_of(idx, g).aux1.0) == PortKind::Aux1,
        !raw_is_eraser(ports_of(idx, g).principal.0),
        !raw_is_eraser(ports_of(idx, g).aux0.0),
        !raw_is_eraser(ports_of(idx, g).aux1.0),
{
    crate::port::lemma_pack_fields(idx, PortKind::Principal, (g & 1) as u8);
    crate::port::lemma_pack_fields(idx, PortKind::Aux0, (g & 1) as u8);
    crate::port::lemma_pack_fields(idx, PortKind::Aux1, (g & 1) as u8);
}

/// A slot just set up for an agent: the given labels and no wires.
pub open spec fn fresh_agent(s: Slot, tag: u8, data: u16, delta0: i16, delta1: i16) -> bool {
    &&& s.tag == tag
    &&& s.data == data
    &&& s.delta0 == delta0
    &&& s.delta1 == delta1
    &&& s.principal == 0
    &&& s.aux0 == 0
    &&& s.aux1 == 0
}

/// `p` is a live replicator port in `slots`.
pub open spec fn spec_is_rep_port(slots: Seq<Slot>, p: PortId) -> bool {
    !is_virtual(p) && tag_is_rep(slots[raw_slot(p.0) as int].tag)
}

/// `p` is a port of an application fan in `slots`.
pub open spec fn spec_is_app_port(slots: Seq<Slot>, p: PortId) -> bool {
    !is_virtual(p) && tag_is_fan(slots[raw_slot(p.0) as int].tag) && !tag_bit0(
        slots[raw_slot(p.0) as int].tag,
    )
}

/// Two principal ports, neither null: an active pair.
pub open spec fn forms_pair(a: PortId, b: PortId) -> bool {
    raw_kind(a.0) == PortKind::Principal && raw_kind(b.0) == PortKind::Principal && a.0 != 0
        && b.0 != 0
}

/// A replicator principal `a` meeting the first auxiliary port `b` of an
/// application.
pub open spec fn forms_candidate(slots: Seq<Slot>, a: PortId, b: PortId) -> bool {
    raw_kind(a.0) == PortKind::Principal && raw_kind(b.0) == PortKind::Aux0 && spec_is_rep_port(
        slots,
        a,
    ) && spec_is_app_port(slots, b)
}

/// Evidence that a net holds no pending work, built only by
/// `certify_canonical`.
pub struct CanonicalWitness {
    pub(crate) sealed: (),
}

/// An interaction net in state `S` of class `C`.
pub struct Net<S: NetState, C: NetClassMarker> {
    pub arena: Arena,
    pub frontier1: LoMap<ActivePair>,
    pub frontier2: LoMap<C4Candidate>,
    pub free_slots: Vec<(String, PortId)>,
    pub net_flags: u8,
    pub state: PhantomData<(S, C)>,
}

impl<S: NetState, C: NetClassMarker> Net<S, C> {
    /// The number of live agents.
    pub fn agent_count(&self) -> (n: usize)
        ensures
            n == self.arena.live_list@.len(),
    {
        self.arena.live().len()
    }

    pub open spec fn slots(&self) -> Seq<Slot> {
        self.arena.slots@
    }

    pub open spec fn n_slots(&self) -> int {
        self.arena.slots@.len() as int
    }

    /// How many more agents can be allocated: the free list plus the room
    /// left below the capacity.
    pub open spec fn avail(&self) -> int {
        self.arena.free@.len() + (if self.n_slots() <= self.arena.cap {
            self.arena.cap - self.n_slots()
        } else {
            0
        })
    }

    /// The words of a slot name slots of the net.
    pub proof fn lemma_words_in(&self, idx: int)
        requires
            self.wf(),
            0 <= idx < self.n_slots(),
        ensures
            port_in(PortId(self.slots()[idx].principal), self.n_slots()),
            port_in(PortId(self.slots()[idx].aux0), self.n_slots()),
            port_in(PortId(self.slots()[idx].aux1), self.n_slots()),
    {
        assert(slot_closed(self.slots()[idx], self.n_slots()));
    }

    /// Every frontier entry is filed under its own path.
    pub open spec fn wf(&self) -> bool {
        &&& self.arena.wf()
        &&& self.frontier1.wf()
        &&& self.frontier2.wf()
        &&& forall|i: int|
            0 <= i < self.frontier1.entries@.len() ==> (#[trigger] self.frontier1.entries@[i]).1.lo
                == self.frontier1.entries@[i].0
        &&& forall|i: int|
            0 <= i < self.frontier2.entries@.len() ==> (#[trigger] self.frontier2.entries@[i]).1.lo
                == self.frontier2.entries@[i].0
    }

    /// Same frontiers, roots and flags.
    pub open spec fn same_books(&self, other: &Self) -> bool {
        &&& self.frontier1.entries@ == other.frontier1.entries@
        &&& self.frontier2.entries@ == other.frontier2.entries@
        &&& self.free_slots@ == other.free_slots@
        &&& self.net_flags == other.net_flags
    }

    /// Read the slot a port belongs to.
    pub fn slot_view(&self, port: PortId) -> (v: SlotView)
        requires
            port_in(port, self.n_slots()),
        ensures
            v == view_of(self.slots()[raw_slot(port.0) as int]),
    {
        let s = self.arena.slot(port.slot_idx());
        SlotView {
            tag: s.tag,
            principal: s.principal,
            aux0: s.aux0,
            aux1: s.aux1,
            data: s.data,
            delta0: s.delta0,
            delta1: s.delta1,
        }
    }

    /// The slot a port belongs to.
    pub fn slot(&self, port: PortId) -> (s: &Slot)
        requires
            port_in(port, self.n_slots()),
        ensures
            *s == self.slots()[raw_slot(port.0) as int],
    {
        self.arena.slot(port.slot_idx())
    }

    /// The port wired to `port`; a virtual port is its own peer.
    pub fn peer(&self, port: PortId) -> (r: PortId)
        requires
            is_virtual(port) || port_in(port, self.n_slots()),
        ensures
            r == spec_peer(self.slots(), port),
    {
        if port.is_eraser() || port.is_null() {
            return port;
        }
        let s = self.arena.slot(port.slot_idx());
        let raw = match port.port_kind() {
            PortKind::Principal => s.principal,
            PortKind::Aux0 => s.aux0,
            PortKind::Aux1 => s.aux1,
        };
        PortId::from_raw(raw)
    }

    /// The named roots, in the order they were first added.
    pub fn roots(&self) -> (r: &Vec<(String, PortId)>)
        ensures
            r@ == self.free_slots@,
    {
        &self.free_slots
    }

    /// The port of the root named `name`.
    pub fn root(&self, name: &str) -> (r: Option<PortId>)
        ensures
            r matches Some(p) ==> exists|i: int|
                0 <= i < self.free_slots@.len() && (#[trigger] self.free_slots@[i]).0@ == name@
                    && self.free_slots@[i].1 == p,
            r is None ==> forall|i: int|
                0 <= i < self.free_slots@.len() ==> (#[trigger] self.free_slots@[i]).0@ != name@,
    {
        let key = name.to_owned();
        let mut i: usize = 0;
        while i < self.free_slots.len()
            invariant
                i <= self.free_slots@.len(),
                key@ == name@,
                forall|j: int| 0 <= j < i ==> (#[trigger] self.free_slots@[j]).0@ != name@,
            decreases self.free_slots@.len() - i,
        {
            if self.free_slots[i].0 == key {
                return Some(self.free_slots[i].1);
            }
            i = i + 1;
        }
        None
    }

    /// The port is real and its slot is live.
    pub fn slot_is_live(&self, port: PortId) -> (b: bool)
        ensures
            b == (!is_virtual(port) && self.arena.has_live(raw_slot(port.0))),
    {
        !port.is_eraser() && !port.is_null() && self.arena.is_live(port.slot_idx())
    }

    /// The class allows replicators.
    pub fn net_has_rep(&self) -> (b: bool)
        ensures
            b == (self.net_flags & 2 != 0),
    {
        (self.net_flags & FLAG_HAS_REP) != 0
    }

    /// The class allows erasers.
    pub fn net_has_era(&self) -> (b: bool)
        ensures
            b == (self.net_flags & 1 != 0),
    {
        (self.net_flags & FLAG_HAS_ERA) != 0
    }

    /// An erasure is waiting for the final sweep.
    pub fn net_pending_c1(&self) -> (b: bool)
        ensures
            b == (self.net_flags & 4 != 0),
    {
        (self.net_flags & FLAG_PENDING_C1) != 0
    }

    pub fn set_pending_c1(&mut self)
        ensures
            final(self).net_flags == old(self).net_flags | 4,
            final(self).arena == old(self).arena,
            final(self).frontier1 == old(self).frontier1,
            final(self).frontier2 == old(self).frontier2,
            final(self).free_slots == old(self).free_slots,
    {
        self.net_flags = self.net_flags | FLAG_PENDING_C1;
    }

    pub fn clear_pending_c1(&mut self)
        ensures
            final(self).net_flags == old(self).net_flags & !4u8,
            final(self).arena == old(self).arena,
            final(self).frontier1 == old(self).frontier1,
            final(self).frontier2 == old(self).frontier2,
            final(self).free_slots == old(self).free_slots,
    {
        self.net_flags = self.net_flags & !FLAG_PENDING_C1;
    }
}


/// Whether a net may become canonical: no pending pair, candidate or sweep.
pub open spec fn spec_is_canonical<S: NetState, C: NetClassMarker>(net: &Net<S, C>) -> bool {
    &&& net.frontier1.entries@.len() == 0
    &&& net.frontier2.entries@.len() == 0
    &&& net.net_flags & 4 == 0
}

/// Certify that a net holds no pending work.
pub fn certify_canonical<C: NetClassMarker>(net: &Net<Proper, C>) -> (r: Result<
    CanonicalWitness,
    DnxError,
>)
    ensures
        r is Ok <==> spec_is_canonical(net),
        r is Err ==> r == Err::<CanonicalWitness, DnxError>(DnxError::ReadbackIncomplete),
{
    if net.frontier1.is_empty() && net.frontier2.is_empty() && !net.net_pending_c1() {
        Ok(CanonicalWitness { sealed: () })
    } else {
        Err(DnxError::ReadbackIncomplete)
    }
}

/// Move a certified net into the canonical state.
pub fn into_canonical<C: NetClassMarker>(net: Net<Proper, C>, witness: CanonicalWitness) -> (c: Net<
    Canonical,
    C,
>)
    ensures
        c.arena == net.arena,
        c.frontier1 == net.frontier1,
        c.frontier2 == net.frontier2,
        c.free_slots == net.free_slots,
        c.net_flags == net.net_flags,
{
    let _ = witness;
    Net {
        arena: net.arena,
        frontier1: net.frontier1,
        frontier2: net.frontier2,
        free_slots: net.free_slots,
        net_flags: net.net_flags,
        state: PhantomData,
    }
}

impl<C: NetClassMarker> Net<Proper, C> {
    /// An empty net whose arena holds at most `capacity` slots.
    pub fn new(capacity: u32) -> (n: Net<Proper, C>)
        ensures
            n.wf(),
            n.arena.cap == (if capacity < crate::arena::MAX_SLOTS {
                capacity
            } else {
                crate::arena::MAX_SLOTS
            }),
            n.slots() == seq![Slot::spec_empty()],
            n.arena.live_list@.len() == 0,
            n.arena.free@.len() == 0,
            n.frontier1.entries@.len() == 0,
            n.frontier2.entries@.len() == 0,
            n.free_slots@.len() == 0,
            n.net_flags == C::spec_class_bits(),
    {
        Net {
            arena: Arena::new(capacity),
            frontier1: LoMap::new(),
            frontier2: LoMap::new(),
            free_slots: Vec::new(),
            net_flags: C::class_bits(),
            state: PhantomData,
        }
    }

    /// The virtual eraser port.
    pub fn eraser_port() -> (p: PortId)
        ensures
            p.0 == era_raw(),
    {
        PortId::era()
    }

    /// Allocate an agent with the given tag and labels, its ports unwired.
    pub fn alloc_agent(&mut self, tag: u8, data: u16, delta0: i16, delta1: i16) -> (r: Result<
        AgentPorts,
        DnxError,
    >)
        requires
            old(self).wf(),
        ensures
            final(self).wf(),
            final(self).same_books(old(self)),
            final(self).arena.cap == old(self).arena.cap,
            r is Err <==> (old(self).arena.free@.len() == 0 && old(self).n_slots() >= old(
                self,
            ).arena.cap),
            r is Err ==> r == Err::<AgentPorts, DnxError>(DnxError::ArenaCapacityExceeded)
                && final(self).arena.same(old(self).arena),
            r is Ok ==> final(self).avail() == old(self).avail() - 1,
            r matches Ok(ap) ==> {
                let idx = raw_slot(ap.principal.0);
                &&& idx == (if old(self).arena.free@.len() > 0 {
                    old(self).arena.free@.last()
                } else {
                    old(self).n_slots() as u32
                })
                &&& 0 < idx < final(self).n_slots()
                &&& !old(self).arena.has_live(idx)
                &&& final(self).arena.live_list@ == old(self).arena.live_list@.push(idx)
                &&& final(self).arena.live_pos@.dom() == old(self).arena.live_pos@.dom().insert(
                    idx,
                )
                &&& fresh_agent(final(self).slots()[idx as int], tag, data, delta0, delta1)
                &&& ap == ports_of(idx, final(self).slots()[idx as int].generation)
                &&& old(self).n_slots() <= final(self).n_slots() <= old(self).n_slots() + 1
                &&& forall|j: int|
                    0 <= j < old(self).n_slots() && j != idx ==> #[trigger] final(self).slots()[j]
                        == old(self).slots()[j]
            },
    {
        let idx = match self.arena.alloc_slot() {
            Ok(i) => i,
            Err(e) => {
                return Err(e);
            },
        };
        let cur = *self.arena.slot(idx);
        let s = Slot { tag, data, delta0, delta1, ..cur };
        proof {
            assert((0u32 >> 4u32) == 0u32) by (bit_vector);
        }
        self.arena.set_slot(idx, s);
        let g = s.generation;
        let ap = AgentPorts {
            principal: PortId::new(idx, PortKind::Principal, (g & 1) as u8),
            aux0: PortId::new(idx, PortKind::Aux0, (g & 1) as u8),
            aux1: PortId::new(idx, PortKind::Aux1, (g & 1) as u8),
        };
        proof {
            assert(idx % 0x1000_0000 == idx);
        }
        Ok(ap)
    }

    /// A successful allocation at slot `idx`: the slot joins the end of the
    /// live list (so one more agent is counted), the room left shrinks by
    /// one, the capacity stays, and every other slot is as it was.
    pub open spec fn allocated_at(&self, after: &Self, idx: u32) -> bool {
        &&& after.arena.live_list@ == self.arena.live_list@.push(idx)
        &&& after.avail() == self.avail() - 1
        &&& after.arena.cap == self.arena.cap
        &&& forall|j: int|
            0 <= j < self.n_slots() && j != idx ==> #[trigger] after.slots()[j] == self.slots()[j]
    }

    pub fn alloc_abs(&mut self) -> (r: Result<AgentPorts, DnxError>)
        requires
            old(self).wf(),
        ensures
            final(self).wf(),
            final(self).same_books(old(self)),
            final(self).n_slots() >= old(self).n_slots(),
            r matches Err(e) ==> e == DnxError::ArenaCapacityExceeded,
            r is Err <==> (old(self).arena.free@.len() == 0 && old(self).n_slots() >= old(
                self,
            ).arena.cap),
            r matches Ok(ap) ==> {
                let idx = raw_slot(ap.principal.0);
                &&& 0 < idx < final(self).n_slots()
                &&& !old(self).arena.has_live(idx)
                &&& final(self).arena.has_live(idx)
                &&& fresh_agent(final(self).slots()[idx as int], TAG_FAN_ABS, 0, 0, 0)
                &&& ap == ports_of(idx, final(self).slots()[idx as int].generation)
            },
            r is Err ==> final(self).arena.same(old(self).arena),
            r matches Ok(ap) ==> old(self).allocated_at(final(self), raw_slot(ap.principal.0)),
    {
        self.alloc_agent(TAG_FAN_ABS, 0, 0, 0)
    }

    pub fn alloc_app(&mut self) -> (r: Result<AgentPorts, DnxError>)
        requires
            old(self).wf(),
        ensures
            final(self).wf(),
            final(self).same_books(old(self)),
            final(self).n_slots() >= old(self).n_slots(),
            r matches Err(e) ==> e == DnxError::ArenaCapacityExceeded,
            r is Err <==> (old(self).arena.free@.len() == 0 && old(self).n_slots() >= old(
                self,
            ).arena.cap),
            r matches Ok(ap) ==> {
                let idx = raw_slot(ap.principal.0);
                &&& 0 < idx < final(self).n_slots()
                &&& !old(self).arena.has_live(idx)
                &&& final(self).arena.has_live(idx)
                &&& fresh_agent(final(self).slots()[idx as int], TAG_FAN_APP, 0, 0, 0)
                &&& ap == ports_of(idx, final(self).slots()[idx as int].generation)
            },
            r is Err ==> final(self).arena.same(old(self).arena),
            r matches Ok(ap) ==> old(self).allocated_at(final(self), raw_slot(ap.principal.0)),
    {
        self.alloc_agent(TAG_FAN_APP, 0, 0, 0)
    }

    /// Allocate an unpaired fan-in replicator at `level` with the given
    /// level deltas.
    pub fn alloc_rep_in(&mut self, level: u16, delta0: i16, delta1: i16) -> (r: Result<
        AgentPorts,
        DnxError,
    >)
        requires
            old(self).wf(),
        ensures
            final(self).wf(),
            final(self).same_books(old(self)),
            final(self).n_slots() >= old(self).n_slots(),
            r matches Err(e) ==> e == DnxError::ArenaCapacityExceeded,
            r is Err <==> (old(self).arena.free@.len() == 0 && old(self).n_slots() >= old(
                self,
            ).arena.cap),
            r matches Ok(ap) ==> {
                let idx = raw_slot(ap.principal.0);
                &&& 0 < idx < final(self).n_slots()
                &&& !old(self).arena.has_live(idx)
                &&& final(self).arena.has_live(idx)
                &&& fresh_agent(
                    final(self).slots()[idx as int],
                    TAG_REP_IN_UNPAIRED,
                    level,
                    delta0,
                    delta1,
                )
                &&& ap == ports_of(idx, final(self).slots()[idx as int].generation)
            },
            r is Err ==> final(self).arena.same(old(self).arena),
            r matches Ok(ap) ==> old(self).allocated_at(final(self), raw_slot(ap.principal.0)),
    {
        self.alloc_agent(TAG_REP_IN_UNPAIRED, level, delta0, delta1)
    }

    /// Allocate a free-variable agent for `var_id` (kept modulo 2^14) and
    /// return its principal port.
    pub fn alloc_free(&mut self, var_id: u32) -> (r: Result<PortId, DnxError>)
        requires
            old(self).wf(),
        ensures
            final(self).wf(),
            final(self).same_books(old(self)),
            final(self).n_slots() >= old(self).n_slots(),
            r matches Err(e) ==> e == DnxError::ArenaCapacityExceeded,
            r is Err <==> (old(self).arena.free@.len() == 0 && old(self).n_slots() >= old(
                self,
            ).arena.cap),
            r matches Ok(p) ==> {
                let idx = raw_slot(p.0);
                &&& 0 < idx < final(self).n_slots()
                &&& !old(self).arena.has_live(idx)
                &&& final(self).arena.has_live(idx)
                &&& fresh_agent(
                    final(self).slots()[idx as int],
                    TAG_FREE,
                    (var_id & 0x3FFF) as u16,
                    0,
                    0,
                )
                &&& p == ports_of(idx, final(self).slots()[idx as int].generation).principal
            },
            r is Err ==> final(self).arena.same(old(self).arena),
            r matches Ok(p) ==> old(self).allocated_at(final(self), raw_slot(p.0)),
    {
        let ap = self.alloc_agent(TAG_FREE, (var_id & 0x3FFF) as u16, 0, 0);
        match ap {
            Ok(ap) => Ok(ap.principal),
            Err(e) => Err(e),
        }
    }

    /// Write `val` into port `port`. An eraser written into an auxiliary port
    /// of a replicator marks that branch erased, so the flag always agrees
    /// with the wire.
    pub fn write_port(&mut self, port: PortId, val: PortId)
        requires
            old(self).wf(),
            port_in(port, old(self).n_slots()),
            port_in(val, old(self).n_slots()),
        ensures
            final(self).wf(),
            final(self).same_books(old(self)),
            final(self).slots() == write_slots(old(self).slots(), port, val),
            labels_kept(old(self).slots(), final(self).slots()),
            final(self).arena.free@ == old(self).arena.free@,
            final(self).arena.live_list@ == old(self).arena.live_list@,
            final(self).arena.live_pos@ == old(self).arena.live_pos@,
            final(self).arena.cap == old(self).arena.cap,
    {
        if port.is_eraser() || port.is_null() {
            return;
        }
        let idx = port.slot_idx();
        let s = *self.arena.slot(idx);
        let ns = match port.port_kind() {
            PortKind::Principal => Slot { principal: val.raw(), ..s },
            PortKind::Aux0 => {
                let t = if val.is_eraser() && s.is_rep() {
                    s.tag | crate::slot::TAG_AUX0_ERASED
                } else {
                    s.tag
                };
                Slot { aux0: val.raw(), tag: t, ..s }
            },
            PortKind::Aux1 => {
                let t = if val.is_eraser() && s.is_rep() {
                    s.tag | crate::slot::TAG_AUX1_ERASED
                } else {
                    s.tag
                };
                Slot { aux1: val.raw(), tag: t, ..s }
            },
        };
        proof {
            assert(slot_closed(self.slots()[idx as int], self.n_slots()));
            lemma_flags_keep_class(s.tag, 0x40);
            lemma_flags_keep_class(s.tag, 0x80);
        }
        self.arena.set_slot(idx, ns);
    }

    /// Wire two ports to each other without recording a pair.
    pub fn link_no_pair(&mut self, a: PortId, b: PortId)
        requires
            old(self).wf(),
            port_in(a, old(self).n_slots()),
            port_in(b, old(self).n_slots()),
        ensures
            final(self).wf(),
            final(self).same_books(old(self)),
            final(self).slots() == write_slots(write_slots(old(self).slots(), a, b), b, a),
            labels_kept(old(self).slots(), final(self).slots()),
            final(self).arena.free@ == old(self).arena.free@,
            final(self).arena.live_list@ == old(self).arena.live_list@,
            final(self).arena.live_pos@ == old(self).arena.live_pos@,
            final(self).arena.cap == old(self).arena.cap,
    {
        self.write_port(a, b);
        self.write_port(b, a);
    }

    fn is_rep_port(&self, p: PortId) -> (b: bool)
        requires
            port_in(p, self.n_slots()),
        ensures
            b == spec_is_rep_port(self.slots(), p),
    {
        !p.is_eraser() && !p.is_null() && self.arena.slot(p.slot_idx()).is_rep()
    }

    fn is_app_fan_port(&self, p: PortId) -> (b: bool)
        requires
            port_in(p, self.n_slots()),
        ensures
            b == spec_is_app_port(self.slots(), p),
    {
        if p.is_eraser() || p.is_null() {
            return false;
        }
        let s = self.arena.slot(p.slot_idx());
        s.is_fan() && s.fan_is_app()
    }

    /// Record the wire between `a` and `b` as work when it is a redex (two
    /// principal ports) or a replication candidate.
    fn detect_pair(&mut self, a: PortId, b: PortId, lo: LOPath)
        requires
            old(self).wf(),
            lo.wf(),
            port_in(a, old(self).n_slots()),
            port_in(b, old(self).n_slots()),
        ensures
            final(self).wf(),
            final(self).arena == old(self).arena,
            final(self).free_slots == old(self).free_slots,
            final(self).net_flags == old(self).net_flags,
            forms_pair(a, b) ==> final(self).frontier1.is_insert_of(
                old(self).frontier1,
                lo,
                ActivePair { p0: PrincipalPortId(a), p1: PrincipalPortId(b), lo },
            ),
            !forms_pair(a, b) ==> final(self).frontier1 == old(self).frontier1,
            forms_candidate(old(self).slots(), a, b) ==> final(self).frontier2.is_insert_of(
                old(self).frontier2,
                lo,
                C4Candidate { rep_principal: a, app_aux0: b, lo },
            ),
            forms_candidate(old(self).slots(), b, a) ==> final(self).frontier2.is_insert_of(
                old(self).frontier2,
                lo,
                C4Candidate { rep_principal: b, app_aux0: a, lo },
            ),
            !forms_candidate(old(self).slots(), a, b) && !forms_candidate(old(self).slots(), b, a)
                ==> final(self).frontier2 == old(self).frontier2,
    {
        let ka = a.port_kind();
        let kb = b.port_kind();
        if ka == PortKind::Principal && kb == PortKind::Principal {
            if !a.is_null() && !b.is_null() {
                if let Some(ap) = ActivePair::new(a, b, lo) {
                    let ghost old_f = self.frontier1.entries@;
                    self.frontier1.insert(lo, ap);
                    proof {
                        self.lemma_insert_keeps_lo1(old_f, lo, ap);
                    }
                }
            }
        } else if ka == PortKind::Principal && kb == PortKind::Aux0 {
            if self.is_rep_port(a) && self.is_app_fan_port(b) {
                let c = C4Candidate { rep_principal: a, app_aux0: b, lo };
                let ghost old_f = self.frontier2.entries@;
                self.frontier2.insert(lo, c);
                proof {
                    self.lemma_insert_keeps_lo2(old_f, lo, c);
                }
            }
        } else if ka == PortKind::Aux0 && kb == PortKind::Principal {
            if self.is_app_fan_port(a) && self.is_rep_port(b) {
                let c = C4Candidate { rep_principal: b, app_aux0: a, lo };
                let ghost old_f = self.frontier2.entries@;
                self.frontier2.insert(lo, c);
                proof {
                    self.lemma_insert_keeps_lo2(old_f, lo, c);
                }
            }
        }
    }

    proof fn lemma_insert_keeps_lo1(&self, old_f: Seq<(LOPath, ActivePair)>, k: LOPath, v: ActivePair)
        requires
            v.lo == k,
            forall|i: int| 0 <= i < old_f.len() ==> (#[trigger] old_f[i]).1.lo == old_f[i].0,
            (exists|i: int| 0 <= i < old_f.len() && #[trigger] old_f[i].0 == k && self.frontier1.entries@ == old_f.update(i, (k, v)))
            || (exists|p: int| 0 <= p <= old_f.len() && #[trigger] old_f.insert(p, (k, v)) == self.frontier1.entries@),
        ensures
            forall|i: int|
                0 <= i < self.frontier1.entries@.len() ==> (#[trigger] self.frontier1.entries@[i]).1.lo
                    == self.frontier1.entries@[i].0,
    {
        let e = self.frontier1.entries@;
        if exists|i: int| 0 <= i < old_f.len() && #[trigger] old_f[i].0 == k && e == old_f.update(i, (k, v)) {
            let i = choose|i: int| 0 <= i < old_f.len() && #[trigger] old_f[i].0 == k && e == old_f.update(i, (k, v));
            assert forall|j: int| 0 <= j < e.len() implies (#[trigger] e[j]).1.lo == e[j].0 by {
                if j != i {
                    assert(e[j] == old_f[j]);
                }
            }
        } else {
            let p = choose|p: int| 0 <= p <= old_f.len() && #[trigger] old_f.insert(p, (k, v)) == e;
            assert forall|j: int| 0 <= j < e.len() implies (#[trigger] e[j]).1.lo == e[j].0 by {
                if j < p {
                    assert(e[j] == old_f[j]);
                } else if j > p {
                    assert(e[j] == old_f[j - 1]);
                }
            }
        }
    }

    proof fn lemma_insert_keeps_lo2(&self, old_f: Seq<(LOPath, C4Candidate)>, k: LOPath, v: C4Candidate)
        requires
            v.lo == k,
            forall|i: int| 0 <= i < old_f.len() ==> (#[trigger] old_f[i]).1.lo == old_f[i].0,
            (exists|i: int| 0 <= i < old_f.len() && #[trigger] old_f[i].0 == k && self.frontier2.entries@ == old_f.update(i, (k, v)))
            || (exists|p: int| 0 <= p <= old_f.len() && #[trigger] old_f.insert(p, (k, v)) == self.frontier2.entries@),
        ensures
            forall|i: int|
                0 <= i < self.frontier2.entries@.len() ==> (#[trigger] self.frontier2.entries@[i]).1.lo
                    == self.frontier2.entries@[i].0,
    {
        let e = self.frontier2.entries@;
        if exists|i: int| 0 <= i < old_f.len() && #[trigger] old_f[i].0 == k && e == old_f.update(i, (k, v)) {
            let i = choose|i: int| 0 <= i < old_f.len() && #[trigger] old_f[i].0 == k && e == old_f.update(i, (k, v));
            assert forall|j: int| 0 <= j < e.len() implies (#[trigger] e[j]).1.lo == e[j].0 by {
                if j != i {
                    assert(e[j] == old_f[j]);
                }
            }
        } else {
            let p = choose|p: int| 0 <= p <= old_f.len() && #[trigger] old_f.insert(p, (k, v)) == e;
            assert forall|j: int| 0 <= j < e.len() implies (#[trigger] e[j]).1.lo == e[j].0 by {
                if j < p {
                    assert(e[j] == old_f[j]);
                } else if j > p {
                    assert(e[j] == old_f[j - 1]);
                }
            }
        }
    }

    /// Wire `a` and `b` to each other and record the wire as work when it
    /// is a redex or a replication candidate, under path `lo`.
    pub fn connect(&mut self, a: PortId, b: PortId, lo: LOPath) -> (r: Result<(), DnxError>)
        requires
            old(self).wf(),
            lo.wf(),
            port_in(a, old(self).n_slots()),
            port_in(b, old(self).n_slots()),
        ensures
            r == Ok::<(), DnxError>(()),
            final(self).wf(),
            final(self).slots() == write_slots(write_slots(old(self).slots(), a, b), b, a),
            labels_kept(old(self).slots(), final(self).slots()),
            final(self).arena.free@ == old(self).arena.free@,
            final(self).arena.live_list@ == old(self).arena.live_list@,
            final(self).arena.live_pos@ == old(self).arena.live_pos@,
            final(self).arena.cap == old(self).arena.cap,
            final(self).free_slots@ == old(self).free_slots@,
            final(self).net_flags == old(self).net_flags,
            forms_pair(a, b) ==> final(self).frontier1.is_insert_of(
                old(self).frontier1,
                lo,
                ActivePair { p0: PrincipalPortId(a), p1: PrincipalPortId(b), lo },
            ),
            !forms_pair(a, b) ==> final(self).frontier1.entries@ == old(self).frontier1.entries@,
            forms_candidate(final(self).slots(), a, b) ==> final(self).frontier2.is_insert_of(
                old(self).frontier2,
                lo,
                C4Candidate { rep_principal: a, app_aux0: b, lo },
            ),
            forms_candidate(final(self).slots(), b, a) ==> final(self).frontier2.is_insert_of(
                old(self).frontier2,
                lo,
                C4Candidate { rep_principal: b, app_aux0: a, lo },
            ),
            !forms_candidate(final(self).slots(), a, b) && !forms_candidate(
                final(self).slots(),
                b,
                a,
            ) ==> final(self).frontier2.entries@ == old(self).frontier2.entries@,
    {
        self.write_port(a, b);
        self.write_port(b, a);
        self.detect_pair(a, b, lo);
        Ok(())
    }

    /// Put the eraser on port `port`; erasing an auxiliary port also marks
    /// the net for the final sweep.
    pub fn set_eraser_on_port(&mut self, port: PortId)
        requires
            old(self).wf(),
            port_in(port, old(self).n_slots()),
        ensures
            final(self).wf(),
            labels_kept(old(self).slots(), final(self).slots()),
            final(self).slots() == (if is_virtual(port) {
                old(self).slots()
            } else {
                old(self).slots().update(
                    raw_slot(port.0) as int,
                    erased_slot(old(self).slots()[raw_slot(port.0) as int], raw_kind(port.0)),
                )
            }),
            final(self).net_flags == (if !is_virtual(port) && raw_kind(port.0)
                != PortKind::Principal {
                old(self).net_flags | 4
            } else {
                old(self).net_flags
            }),
            final(self).arena.free@ == old(self).arena.free@,
            final(self).arena.live_list@ == old(self).arena.live_list@,
            final(self).arena.live_pos@ == old(self).arena.live_pos@,
            final(self).arena.cap == old(self).arena.cap,
            final(self).frontier1 == old(self).frontier1,
            final(self).frontier2 == old(self).frontier2,
            final(self).free_slots == old(self).free_slots,
    {
        if port.is_eraser() || port.is_null() {
            return;
        }
        let idx = port.slot_idx();
        let s = *self.arena.slot(idx);
        proof {
            assert(slot_closed(self.slots()[idx as int], self.n_slots()));
            lemma_sentinels();
            lemma_flags_keep_class(s.tag, 0x40);
            lemma_flags_keep_class(s.tag, 0x80);
            lemma_flags_keep_class(s.tag | 0x80, 0x10);
            lemma_flags_keep_class(s.tag, 0x10);
        }
        match port.port_kind() {
            PortKind::Principal => {
                self.arena.set_slot(idx, Slot { principal: PortId::era().raw(), ..s });
            },
            PortKind::Aux0 => {
                let t = if s.is_rep() {
                    s.tag | crate::slot::TAG_AUX0_ERASED
                } else {
                    s.tag
                };
                self.arena.set_slot(idx, Slot { aux0: PortId::era().raw(), tag: t, ..s });
                self.set_pending_c1();
            },
            PortKind::Aux1 => {
                let t1 = if s.is_rep() {
                    s.tag | crate::slot::TAG_AUX1_ERASED
                } else {
                    s.tag
                };
                let t = if s.fan_is_abs() {
                    t1 | crate::slot::TAG_ERASING_ABS
                } else {
                    t1
                };
                self.arena.set_slot(idx, Slot { aux1: PortId::era().raw(), tag: t, ..s });
                self.set_pending_c1();
            },
        }
    }

    /// Overwrite the slot of `port` with `s`.
    pub fn set_slot_at(&mut self, port: PortId, s: Slot)
        requires
            old(self).wf(),
            port_in(port, old(self).n_slots()),
            slot_closed(s, old(self).n_slots()),
        ensures
            final(self).wf(),
            final(self).same_books(old(self)),
            final(self).slots() == old(self).slots().update(raw_slot(port.0) as int, s),
            final(self).arena.free@ == old(self).arena.free@,
            final(self).arena.live_list@ == old(self).arena.live_list@,
            final(self).arena.live_pos@ == old(self).arena.live_pos@,
            final(self).arena.cap == old(self).arena.cap,
    {
        self.arena.set_slot(port.slot_idx(), s);
    }

    /// Retire the agent in slot `idx` when it is live.
    pub fn retire(&mut self, idx: u32)
        requires
            old(self).wf(),
        ensures
            final(self).wf(),
            final(self).same_books(old(self)),
            final(self).slots() == old(self).slots(),
            final(self).arena.cap == old(self).arena.cap,
            !final(self).arena.has_live(idx),
            final(self).arena.live_pos@.dom() == old(self).arena.live_pos@.dom().remove(idx),
            final(self).arena.live_list@.len() == old(self).arena.live_list@.len() - (if old(
                self,
            ).arena.has_live(idx) {
                1int
            } else {
                0int
            }),
            old(self).arena.has_live(idx) ==> final(self).arena.free@ == old(self).arena.free@.push(idx),
            !old(self).arena.has_live(idx) ==> final(self).arena.same(old(self).arena),
    {
        if self.arena.is_live(idx) {
            proof {
                self.arena.lemma_live_in_range(idx);
                if self.arena.in_free(idx) {
                    let k = choose|k: int| 0 <= k < self.arena.free@.len() && self.arena.free@[k] == idx;
                    assert(!self.arena.live_pos@.contains_key(self.arena.free@[k]));
                }
            }
            self.arena.retire_slot(idx);
        }
    }

    /// Name port `port` as a root, replacing an earlier root of that name.
    pub fn add_root(&mut self, name: String, port: PortId)
        requires
            old(self).wf(),
        ensures
            final(self).wf(),
            final(self).arena == old(self).arena,
            final(self).frontier1 == old(self).frontier1,
            final(self).frontier2 == old(self).frontier2,
            final(self).net_flags == old(self).net_flags,
            (exists|i: int|
                0 <= i < old(self).free_slots@.len() && (#[trigger] old(self).free_slots@[i]).0@
                    == name@) ==> exists|i: int|
                0 <= i < old(self).free_slots@.len() && (#[trigger] old(self).free_slots@[i]).0@
                    == name@ && final(self).free_slots@[i].1 == port && final(self).free_slots@.len()
                    == old(self).free_slots@.len() && (forall|j: int|
                    0 <= j < old(self).free_slots@.len() && j != i ==> final(self).free_slots@[j]
                        == old(self).free_slots@[j]),
            (forall|i: int|
                0 <= i < old(self).free_slots@.len() ==> (#[trigger] old(self).free_slots@[i]).0@
                    != name@) ==> final(self).free_slots@ == old(self).free_slots@.push((name, port)),
    {
        let mut i: usize = 0;
        while i < self.free_slots.len()
            invariant
                i <= self.free_slots@.len(),
                old(self).wf(),
                self.free_slots@ == old(self).free_slots@,
                self.arena == old(self).arena,
                self.frontier1 == old(self).frontier1,
                self.frontier2 == old(self).frontier2,
                self.net_flags == old(self).net_flags,
                forall|j: int| 0 <= j < i ==> (#[trigger] self.free_slots@[j]).0@ != name@,
            decreases self.free_slots@.len() - i,
        {
            if self.free_slots[i].0 == name {
                let key = self.free_slots[i].0.clone();
                self.free_slots.set(i, (key, port));
                return;
            }
            i = i + 1;
        }
        self.free_slots.push((name, port));
    }

    /// The number of pending active pairs.
    pub fn active_pair_count(&self) -> (n: usize)
        ensures
            n == self.frontier1.entries@.len(),
    {
        self.frontier1.len()
    }

    /// The slots as flat device words, eight per slot.
    pub fn encode_arena_gpu(&self) -> (out: Vec<u32>)
        requires
            self.wf(),
        ensures
            out@.len() == 8 * self.n_slots(),
            forall|i: int, k: int|
                0 <= i < self.n_slots() && 0 <= k < 8 ==> #[trigger] out@[8 * i + k]
                    == crate::arena::gpu_word(self.slots()[i], k),
    {
        self.arena.encode_gpu()
    }

    /// The pending pairs in leftmost-outermost order, each as its two raw
    /// ports and the device words and bit count of its hot path limb.
    pub fn encode_frontier_gpu(&self) -> (out: Vec<(u32, u32, [u32; 4], u8)>)
        ensures
            out@.len() == self.frontier1.entries@.len(),
            forall|k: int|
                0 <= k < out@.len() ==> {
                    let e = #[trigger] self.frontier1.entries@[self.frontier1.entries@.len() - 1
                        - k].1;
                    &&& out@[k].0 == e.p0.0.0
                    &&& out@[k].1 == e.p1.0.0
                    &&& out@[k].2@ == seq![
                        (e.lo.hot >> 96u128) as u32,
                        (e.lo.hot >> 64u128) as u32,
                        (e.lo.hot >> 32u128) as u32,
                        e.lo.hot as u32,
                    ]
                    &&& out@[k].3 == e.lo.len
                },
    {
        let n = self.frontier1.len();
        let mut out: Vec<(u32, u32, [u32; 4], u8)> = Vec::new();
        let mut k: usize = 0;
        while k < n
            invariant
                n == self.frontier1.entries@.len(),
                k <= n,
                out@.len() == k,
                forall|q: int|
                    0 <= q < k ==> {
                        let e = #[trigger] self.frontier1.entries@[n - 1 - q].1;
                        &&& out@[q].0 == e.p0.0.0
                        &&& out@[q].1 == e.p1.0.0
                        &&& out@[q].2@ == seq![
                            (e.lo.hot >> 96u128) as u32,
                            (e.lo.hot >> 64u128) as u32,
                            (e.lo.hot >> 32u128) as u32,
                            e.lo.hot as u32,
                        ]
                        &&& out@[q].3 == e.lo.len
                    },
            decreases n - k,
        {
            let e = self.frontier1.entry(n - 1 - k);
            let (bits, len) = e.1.lo.gpu_bits();
            out.push((e.1.p0.get().raw(), e.1.p1.get().raw(), bits, len));
            k = k + 1;
        }
        out
    }
}

} // verus!
