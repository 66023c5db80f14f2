//! Firing a whole batch of active pairs at once. The pending pairs form an
//! antichain of paths, so their rewrites touch disjoint slots: each pair is
//! fired against a read-only arena into an output record of its own, and
//! the records are then applied to the net one after the other.
use vstd::prelude::*;
use crate::arena::{Arena, MAX_SLOTS, slot_closed};
use crate::class::{NetClassMarker, Proper};
use crate::error::DnxError;
use crate::lopath::LOPath;
use crate::net::{ActivePair, Net, port_in};
use crate::port::{PortId, PortKind, era_raw, lemma_sentinels, pack, raw_is_eraser, raw_kind, raw_slot};
use crate::reduce::canon::{C2Merge, c2_gate_and_shift, c2_spec};
use crate::reduce::ReduceStats;
use crate::reduce::rules::{add_level, left, right, spec_add_level};
use crate::slot::{
    Slot, TAG_FAN_ABS, TAG_FAN_APP, TAG_REP_IN_UNKNOWN, TAG_REP_OUT_UNKNOWN, tag_aux0_erased,
    tag_aux1_erased, tag_bit0, tag_unpaired,
};

verus! {

/// The most agents one rule creates: a fan-replicator commutation and a
/// replicator-replicator commutation each make four.
pub const MAX_NEW: u32 = 4;

/// What firing one pair does to the net, recorded instead of applied.
pub struct WorkerOutput {
    /// Contents of the reserved slots `base ..`, in order.
    pub new_agents: Vec<Slot>,
    /// Slots whose agents are consumed.
    pub retired: Vec<u32>,
    /// Existing slots to overwrite.
    pub slot_muts: Vec<(u32, Slot)>,
    /// Wires to make, with pair detection, under their paths.
    pub connects: Vec<(PortId, PortId, LOPath)>,
    /// Ports that receive the eraser.
    pub set_erasers: Vec<PortId>,
    /// A wire to make without pair detection.
    pub link_direct: Option<(PortId, PortId)>,
}

/// A fresh agent's slot with the given labels.
pub open spec fn agent_slot(tag: u8, data: u16, delta0: i16, delta1: i16) -> Slot {
    Slot { tag, data, delta0, delta1, ..Slot::spec_empty() }
}

/// Everything the output names lies in a net of `n` slots, it creates at
/// most four agents, and its paths are well formed.
pub open spec fn out_fits(out: WorkerOutput, n: int) -> bool {
    &&& out.new_agents@.len() <= MAX_NEW
    &&& forall|i: int| 0 <= i < out.new_agents@.len() ==> slot_closed(#[trigger] out.new_agents@[i], n)
    &&& forall|i: int| 0 <= i < out.retired@.len() ==> #[trigger] out.retired@[i] < n
    &&& forall|i: int|
        0 <= i < out.slot_muts@.len() ==> (#[trigger] out.slot_muts@[i]).0 < n && slot_closed(
            out.slot_muts@[i].1,
            n,
        )
    &&& forall|i: int|
        0 <= i < out.connects@.len() ==> port_in((#[trigger] out.connects@[i]).0, n) && port_in(
            out.connects@[i].1,
            n,
        ) && out.connects@[i].2.wf()
    &&& forall|i: int| 0 <= i < out.set_erasers@.len() ==> port_in(#[trigger] out.set_erasers@[i], n)
    &&& out.link_direct matches Some((a, b)) ==> port_in(a, n) && port_in(b, n)
}

/// Nothing recorded.
pub open spec fn out_empty(out: WorkerOutput) -> bool {
    &&& out.new_agents@.len() == 0
    &&& out.retired@.len() == 0
    &&& out.slot_muts@.len() == 0
    &&& out.connects@.len() == 0
    &&& out.set_erasers@.len() == 0
    &&& out.link_direct is None
}

/// The same record.
pub open spec fn out_same(a: WorkerOutput, b: WorkerOutput) -> bool {
    &&& a.new_agents@ == b.new_agents@
    &&& a.retired@ == b.retired@
    &&& a.slot_muts@ == b.slot_muts@
    &&& a.connects@ == b.connects@
    &&& a.set_erasers@ == b.set_erasers@
    &&& a.link_direct == b.link_direct
}

impl WorkerOutput {
    pub fn new() -> (out: WorkerOutput)
        ensures
            out_empty(out),
    {
        WorkerOutput {
            new_agents: Vec::new(),
            retired: Vec::new(),
            slot_muts: Vec::new(),
            connects: Vec::new(),
            set_erasers: Vec::new(),
            link_direct: None,
        }
    }

    /// Record a new agent in the next reserved slot after `base`; returns
    /// its principal and auxiliary ports.
    fn alloc_agent(&mut self, base: u32, tag: u8, data: u16, delta0: i16, delta1: i16, Ghost(n): Ghost<int>) -> (r: (
        PortId,
        PortId,
        PortId,
    ))
        requires
            out_fits(*old(self), n),
            old(self).new_agents@.len() < MAX_NEW,
            0 < base,
            base + MAX_NEW <= n <= MAX_SLOTS,
        ensures
            out_fits(*final(self), n),
            final(self).new_agents@ == old(self).new_agents@.push(agent_slot(tag, data, delta0, delta1)),
            final(self).retired@ == old(self).retired@,
            final(self).slot_muts@ == old(self).slot_muts@,
            final(self).connects@ == old(self).connects@,
            final(self).set_erasers@ == old(self).set_erasers@,
            final(self).link_direct == old(self).link_direct,
            ({
                let idx = (base + old(self).new_agents@.len()) as u32;
                &&& r.0.0 == pack(idx, PortKind::Principal, 0)
                &&& r.1.0 == pack(idx, PortKind::Aux0, 0)
                &&& r.2.0 == pack(idx, PortKind::Aux1, 0)
                &&& raw_slot(r.0.0) == idx && raw_slot(r.1.0) == idx && raw_slot(r.2.0) == idx
                &&& raw_kind(r.0.0) == PortKind::Principal
            }),
    {
        let idx = base + self.new_agents.len() as u32;
        let mut s = Slot::empty();
        s.tag = tag;
        s.data = data;
        s.delta0 = delta0;
        s.delta1 = delta1;
        proof {
            lemma_sentinels();
        }
        self.new_agents.push(s);
        proof {
            assert forall|i: int| 0 <= i < self.new_agents@.len() implies slot_closed(
                #[trigger] self.new_agents@[i],
                n,
            ) by {
                if i < old(self).new_agents@.len() {
                    assert(self.new_agents@[i] == old(self).new_agents@[i]);
                }
            }
        }
        (
            PortId::new(idx, PortKind::Principal, 0),
            PortId::new(idx, PortKind::Aux0, 0),
            PortId::new(idx, PortKind::Aux1, 0),
        )
    }

    fn retire(&mut self, idx: u32, Ghost(n): Ghost<int>)
        requires
            out_fits(*old(self), n),
            idx < n,
        ensures
            out_fits(*final(self), n),
            final(self).retired@ == old(self).retired@.push(idx),
            final(self).new_agents@ == old(self).new_agents@,
            final(self).slot_muts@ == old(self).slot_muts@,
            final(self).connects@ == old(self).connects@,
            final(self).set_erasers@ == old(self).set_erasers@,
            final(self).link_direct == old(self).link_direct,
    {
        self.retired.push(idx);
        proof {
            assert forall|i: int| 0 <= i < self.retired@.len() implies #[trigger] self.retired@[i] < n by {
                if i < old(self).retired@.len() {
                    assert(self.retired@[i] == old(self).retired@[i]);
                }
            }
        }
    }

    fn connect(&mut self, a: PortId, b: PortId, lo: LOPath, Ghost(n): Ghost<int>)
        requires
            out_fits(*old(self), n),
            port_in(a, n),
            port_in(b, n),
            lo.wf(),
        ensures
            out_fits(*final(self), n),
            final(self).connects@ == old(self).connects@.push((a, b, lo)),
            final(self).new_agents@ == old(self).new_agents@,
            final(self).retired@ == old(self).retired@,
            final(self).slot_muts@ == old(self).slot_muts@,
            final(self).set_erasers@ == old(self).set_erasers@,
            final(self).link_direct == old(self).link_direct,
    {
        self.connects.push((a, b, lo));
        proof {
            assert forall|i: int| 0 <= i < self.connects@.len() implies port_in(
                (#[trigger] self.connects@[i]).0,
                n,
            ) && port_in(self.connects@[i].1, n) && self.connects@[i].2.wf() by {
                if i < old(self).connects@.len() {
                    assert(self.connects@[i] == old(self).connects@[i]);
                }
            }
        }
    }

    fn era(&mut self, p: PortId, Ghost(n): Ghost<int>)
        requires
            out_fits(*old(self), n),
            port_in(p, n),
        ensures
            out_fits(*final(self), n),
            final(self).set_erasers@ == old(self).set_erasers@.push(p),
            final(self).new_agents@ == old(self).new_agents@,
            final(self).retired@ == old(self).retired@,
            final(self).slot_muts@ == old(self).slot_muts@,
            final(self).connects@ == old(self).connects@,
            final(self).link_direct == old(self).link_direct,
    {
        self.set_erasers.push(p);
        proof {
            assert forall|i: int| 0 <= i < self.set_erasers@.len() implies port_in(
                #[trigger] self.set_erasers@[i],
                n,
            ) by {
                if i < old(self).set_erasers@.len() {
                    assert(self.set_erasers@[i] == old(self).set_erasers@[i]);
                }
            }
        }
    }

    fn mutate(&mut self, idx: u32, s: Slot, Ghost(n): Ghost<int>)
        requires
            out_fits(*old(self), n),
            idx < n,
            slot_closed(s, n),
        ensures
            out_fits(*final(self), n),
            final(self).slot_muts@ == old(self).slot_muts@.push((idx, s)),
            final(self).new_agents@ == old(self).new_agents@,
            final(self).retired@ == old(self).retired@,
            final(self).connects@ == old(self).connects@,
            final(self).set_erasers@ == old(self).set_erasers@,
            final(self).link_direct == old(self).link_direct,
    {
        self.slot_muts.push((idx, s));
        proof {
            assert forall|i: int| 0 <= i < self.slot_muts@.len() implies (#[trigger] self.slot_muts@[i]).0
                < n && slot_closed(self.slot_muts@[i].1, n) by {
                if i < old(self).slot_muts@.len() {
                    assert(self.slot_muts@[i] == old(self).slot_muts@[i]);
                }
            }
        }
    }
}

/// Whether `idx` was retired by this record.
fn retired_here(out: &WorkerOutput, idx: u32) -> (b: bool)
    ensures
        b == out.retired@.contains(idx),
{
    let mut i: usize = 0;
    while i < out.retired.len()
        invariant
            i <= out.retired@.len(),
            forall|j: int| 0 <= j < i ==> out.retired@[j] != idx,
        decreases out.retired@.len() - i,
    {
        if out.retired[i] == idx {
            assert(out.retired@[i as int] == idx);
            return true;
        }
        i = i + 1;
    }
    false
}

/// A port is live for a worker when it is the eraser, or its slot is live
/// and was not consumed by this record.
pub open spec fn spec_local_live(arena: &Arena, out: &WorkerOutput, p: PortId) -> bool {
    raw_is_eraser(p.0) || (arena.has_live(raw_slot(p.0)) && !out.retired@.contains(raw_slot(p.0)))
}

fn local_live(arena: &Arena, out: &WorkerOutput, p: PortId) -> (b: bool)
    ensures
        b == spec_local_live(arena, out, p),
{
    p.is_eraser() || (arena.is_live(p.slot_idx()) && !retired_here(out, p.slot_idx()))
}

/// What replicator decay adds to the record: nothing unless the replicator
/// is live here, unpaired, and has both branches erased (the eraser passes
/// up to its principal peer) or one branch erased and the other of delta
/// zero (the other branch is wired to the principal peer); it is retired
/// then.
pub open spec fn c3_par_done(arena: &Arena, before: WorkerOutput, after: WorkerOutput, rep_p: PortId, lo: LOPath) -> bool {
    let rep = arena.slots@[raw_slot(rep_p.0) as int];
    let i = raw_slot(rep_p.0);
    let live = spec_local_live(arena, &before, rep_p);
    let e0 = tag_aux0_erased(rep.tag);
    let e1 = tag_aux1_erased(rep.tag);
    &&& (!live || !tag_unpaired(rep.tag) || !(e0 && e1 || e0 && !e1 && rep.delta1 == 0 || !e0 && e1
        && rep.delta0 == 0)) ==> out_same(after, before)
    &&& live && tag_unpaired(rep.tag) && e0 && e1 ==> {
        &&& after.set_erasers@ == before.set_erasers@.push(PortId(rep.principal))
        &&& after.retired@ == before.retired@.push(i)
        &&& after.connects@ == before.connects@.push((PortId(era_raw()), PortId(rep.principal), lo))
    }
    &&& live && tag_unpaired(rep.tag) && e0 && !e1 && rep.delta1 == 0 ==> {
        &&& after.retired@ == before.retired@.push(i)
        &&& after.connects@ == before.connects@.push((PortId(rep.principal), PortId(rep.aux1), lo))
    }
    &&& live && tag_unpaired(rep.tag) && !e0 && e1 && rep.delta0 == 0 ==> {
        &&& after.retired@ == before.retired@.push(i)
        &&& after.connects@ == before.connects@.push((PortId(rep.principal), PortId(rep.aux0), lo))
    }
    &&& after.new_agents@ == before.new_agents@
    &&& after.slot_muts@ == before.slot_muts@
    &&& after.link_direct == before.link_direct
}

/// What replicator merging adds to the record: nothing unless the
/// replicator is live here and the merge gate admits it (an overflow of the
/// shifted labels is `DeltaOverflow`); then the partner's new labels, the
/// replicator's retirement and the wire past it.
pub open spec fn c2_par_done(
    arena: &Arena,
    before: WorkerOutput,
    after: WorkerOutput,
    rep_a: PortId,
    lo: LOPath,
    r: Result<(), DnxError>,
) -> bool {
    let a = arena.slots@[raw_slot(rep_a.0) as int];
    let live = spec_local_live(arena, &before, rep_a);
    &&& !live ==> r is Ok && out_same(after, before)
    &&& live ==> match c2_spec(a, arena.slots@) {
        Err(e) => r == Err::<(), DnxError>(e) && out_same(after, before),
        Ok(None) => r is Ok && out_same(after, before),
        Ok(Some(m)) => {
            &&& r is Ok
            &&& after.slot_muts@ == before.slot_muts@.push((raw_slot(m.rep_b.0), m.b_shifted))
            &&& after.retired@ == before.retired@.push(raw_slot(rep_a.0))
            &&& after.connects@ == before.connects@.push((m.rep_b, m.ext, lo))
            &&& after.new_agents@ == before.new_agents@
            &&& after.set_erasers@ == before.set_erasers@
            &&& after.link_direct == before.link_direct
        },
    }
}

/// Replicator decay on the record: an unpaired replicator with both
/// branches erased passes the eraser up; with one branch erased and the
/// other of delta zero it becomes a wire.
fn c3_par(arena: &Arena, rep_p: PortId, lo: &LOPath, out: &mut WorkerOutput) -> (r: Result<(), DnxError>)
    requires
        arena.wf(),
        lo.wf(),
        port_in(rep_p, arena.slots@.len() as int),
        out_fits(*old(out), arena.slots@.len() as int),
    ensures
        r is Ok,
        out_fits(*final(out), arena.slots@.len() as int),
        c3_par_done(arena, *old(out), *final(out), rep_p, *lo),
{
    let ghost n = arena.slots@.len() as int;
    if !local_live(arena, out, rep_p) {
        return Ok(());
    }
    let rep = *arena.slot(rep_p.slot_idx());
    if !rep.rep_is_unpaired() {
        return Ok(());
    }
    proof {
        assert(slot_closed(arena.slots@[raw_slot(rep_p.0) as int], n));
        lemma_sentinels();
    }
    let ext = PortId::from_raw(rep.principal);
    let e0 = rep.rep_aux0_erased();
    let e1 = rep.rep_aux1_erased();
    if e0 && e1 {
        out.era(ext, Ghost(n));
        out.retire(rep_p.slot_idx(), Ghost(n));
        out.connect(PortId::era(), ext, *lo, Ghost(n));
    } else if e0 && !e1 && rep.delta1 == 0 {
        let a1p = PortId::from_raw(rep.aux1);
        out.retire(rep_p.slot_idx(), Ghost(n));
        out.connect(ext, a1p, *lo, Ghost(n));
    } else if !e0 && e1 && rep.delta0 == 0 {
        let a0p = PortId::from_raw(rep.aux0);
        out.retire(rep_p.slot_idx(), Ghost(n));
        out.connect(ext, a0p, *lo, Ghost(n));
    }
    Ok(())
}

/// Replicator merging on the record: the merge decision of the sequential
/// rule, with the target's new contents recorded as a slot rewrite.
fn c2_par(arena: &Arena, rep_a: PortId, lo: &LOPath, out: &mut WorkerOutput) -> (r: Result<(), DnxError>)
    requires
        arena.wf(),
        lo.wf(),
        port_in(rep_a, arena.slots@.len() as int),
        out_fits(*old(out), arena.slots@.len() as int),
    ensures
        out_fits(*final(out), arena.slots@.len() as int),
        c2_par_done(arena, *old(out), *final(out), rep_a, *lo, r),
{
    let ghost n = arena.slots@.len() as int;
    if !local_live(arena, out, rep_a) {
        return Ok(());
    }
    let a = *arena.slot(rep_a.slot_idx());
    proof {
        assert(slot_closed(arena.slots@[raw_slot(rep_a.0) as int], n));
    }
    match c2_gate_and_shift(&a, arena) {
        Err(e) => Err(e),
        Ok(None) => Ok(()),
        Ok(Some(m)) => {
            proof {
                assert(slot_closed(arena.slots@[raw_slot(a.aux0) as int], n));
                assert(slot_closed(arena.slots@[raw_slot(a.aux1) as int], n));
            }
            out.mutate(m.rep_b.slot_idx(), m.b_shifted, Ghost(n));
            out.retire(rep_a.slot_idx(), Ghost(n));
            out.connect(m.rep_b, m.ext, *lo, Ghost(n));
            Ok(())
        },
    }
}

/// The record of a fan meeting a replicator: two copies of the fan and two
/// of the replicator (one in, one out, by the fan's kind) are created in
/// the reserved slots and wired in a square; the fan copies' principals go
/// to the replicator's old peers and the replicator copies' principals to
/// the fan's, under the path's second-level extensions; both originals are
/// retired.
pub open spec fn r5_record(
    before: WorkerOutput,
    after: WorkerOutput,
    slots: Seq<Slot>,
    fan_p: PortId,
    rep_p: PortId,
    lo: LOPath,
    base: u32,
) -> bool {
    let fan = slots[raw_slot(fan_p.0) as int];
    let rep = slots[raw_slot(rep_p.0) as int];
    let abs = crate::slot::tag_bit0(fan.tag);
    let ft = if abs { TAG_FAN_ABS } else { TAG_FAN_APP };
    let ta = if abs { TAG_REP_IN_UNKNOWN } else { TAG_REP_OUT_UNKNOWN };
    let tb = if abs { TAG_REP_OUT_UNKNOWN } else { TAG_REP_IN_UNKNOWN };
    let b = before.connects@.len() as int;
    let c = after.connects@;
    &&& after.new_agents@ == before.new_agents@ + seq![
        agent_slot(ft, 0, 0, 0),
        agent_slot(ft, 0, 0, 0),
        agent_slot(ta, rep.data, rep.delta0, rep.delta1),
        agent_slot(tb, rep.data, rep.delta0, rep.delta1),
    ]
    &&& after.retired@ == before.retired@.push(raw_slot(fan_p.0)).push(raw_slot(rep_p.0))
    &&& c.len() == b + 8
    &&& c.subrange(0, b) == before.connects@
    &&& c[b] == (new_port(base, 0, PortKind::Aux0), new_port(base, 2, PortKind::Aux0), lo)
    &&& c[b + 1] == (new_port(base, 0, PortKind::Aux1), new_port(base, 3, PortKind::Aux0), lo)
    &&& c[b + 2] == (new_port(base, 1, PortKind::Aux0), new_port(base, 2, PortKind::Aux1), lo)
    &&& c[b + 3] == (new_port(base, 1, PortKind::Aux1), new_port(base, 3, PortKind::Aux1), lo)
    &&& c[b + 4].0 == new_port(base, 0, PortKind::Principal) && c[b + 4].1 == PortId(rep.aux0)
    &&& c[b + 4].2.bits() == lo.bits().push(false).push(false)
    &&& c[b + 5].0 == new_port(base, 1, PortKind::Principal) && c[b + 5].1 == PortId(rep.aux1)
    &&& c[b + 5].2.bits() == lo.bits().push(false).push(true)
    &&& c[b + 6].0 == new_port(base, 2, PortKind::Principal) && c[b + 6].1 == PortId(fan.aux0)
    &&& c[b + 6].2.bits() == lo.bits().push(true).push(abs != true)
    &&& c[b + 7].0 == new_port(base, 3, PortKind::Principal) && c[b + 7].1 == PortId(fan.aux1)
    &&& c[b + 7].2.bits() == lo.bits().push(true).push(abs)
    &&& after.set_erasers@ == before.set_erasers@
    &&& after.slot_muts@ == before.slot_muts@
    &&& after.link_direct == before.link_direct
}

/// Fan-replicator commutation on the record: two fresh fans and two fresh
/// replicators (at the replicator's level and deltas, no longer unpaired)
/// take the place of the pair.
#[verifier::spinoff_prover]
fn r5_arena(
    arena: &Arena,
    fan_p: PortId,
    rep_p: PortId,
    lo: &LOPath,
    base: u32,
    out: &mut WorkerOutput,
) -> (r: Result<(), DnxError>)
    requires
        arena.wf(),
        lo.wf(),
        port_in(fan_p, arena.slots@.len() as int),
        port_in(rep_p, arena.slots@.len() as int),
        out_fits(*old(out), arena.slots@.len() as int),
        old(out).new_agents@.len() == 0,
        0 < base,
        base + MAX_NEW <= arena.slots@.len() <= MAX_SLOTS,
    ensures
        lo.spec_depth() < 511 ==> r is Ok,
        r is Err ==> r == Err::<(), DnxError>(DnxError::LOPathDepthExceeded),
        r is Ok ==> out_fits(*final(out), arena.slots@.len() as int),
        r is Ok ==> ({
            let fan = arena.slots@[raw_slot(fan_p.0) as int];
            let rep = arena.slots@[raw_slot(rep_p.0) as int];
            let abs = crate::slot::tag_bit0(fan.tag);
            let ft = if abs { TAG_FAN_ABS } else { TAG_FAN_APP };
            let ta = if abs { TAG_REP_IN_UNKNOWN } else { TAG_REP_OUT_UNKNOWN };
            let tb = if abs { TAG_REP_OUT_UNKNOWN } else { TAG_REP_IN_UNKNOWN };
            &&& final(out).new_agents@ == seq![
                agent_slot(ft, 0, 0, 0),
                agent_slot(ft, 0, 0, 0),
                agent_slot(ta, rep.data, rep.delta0, rep.delta1),
                agent_slot(tb, rep.data, rep.delta0, rep.delta1),
            ]
            &&& final(out).retired@ == old(out).retired@.push(raw_slot(fan_p.0)).push(raw_slot(rep_p.0))
            &&& final(out).connects@.len() == old(out).connects@.len() + 8
            &&& final(out).set_erasers@ == old(out).set_erasers@
            &&& final(out).slot_muts@ == old(out).slot_muts@
            &&& final(out).link_direct == old(out).link_direct
        }),
        r is Ok ==> r5_record(*old(out), *final(out), arena.slots@, fan_p, rep_p, *lo, base),
{
    let ghost n = arena.slots@.len() as int;
    let fan = *arena.slot(fan_p.slot_idx());
    let rep = *arena.slot(rep_p.slot_idx());
    proof {
        assert(slot_closed(arena.slots@[raw_slot(fan_p.0) as int], n));
        assert(slot_closed(arena.slots@[raw_slot(rep_p.0) as int], n));
    }
    let is_abs = fan.fan_is_abs();
    let fan_tag = if is_abs {
        TAG_FAN_ABS
    } else {
        TAG_FAN_APP
    };
    let (ra_tag, rb_tag) = if is_abs {
        (TAG_REP_IN_UNKNOWN, TAG_REP_OUT_UNKNOWN)
    } else {
        (TAG_REP_OUT_UNKNOWN, TAG_REP_IN_UNKNOWN)
    };
    let (f0p, f0a0, f0a1) = out.alloc_agent(base, fan_tag, 0, 0, 0, Ghost(n));
    let (f1p, f1a0, f1a1) = out.alloc_agent(base, fan_tag, 0, 0, 0, Ghost(n));
    let (rap, raa0, raa1) = out.alloc_agent(base, ra_tag, rep.data, rep.delta0, rep.delta1, Ghost(n));
    let (rbp, rba0, rba1) = out.alloc_agent(base, rb_tag, rep.data, rep.delta0, rep.delta1, Ghost(n));
    let ext_a = PortId::from_raw(fan.aux0);
    let ext_b = PortId::from_raw(fan.aux1);
    let ext_c = PortId::from_raw(rep.aux0);
    let ext_d = PortId::from_raw(rep.aux1);
    out.retire(fan_p.slot_idx(), Ghost(n));
    out.retire(rep_p.slot_idx(), Ghost(n));
    let l = match left(lo) {
        Ok(v) => v,
        Err(e) => {
            return Err(e);
        },
    };
    let rr = match right(lo) {
        Ok(v) => v,
        Err(e) => {
            return Err(e);
        },
    };
    let lo_00 = match left(&l) {
        Ok(v) => v,
        Err(e) => {
            return Err(e);
        },
    };
    let lo_01 = match right(&l) {
        Ok(v) => v,
        Err(e) => {
            return Err(e);
        },
    };
    let lo_10 = match left(&rr) {
        Ok(v) => v,
        Err(e) => {
            return Err(e);
        },
    };
    let lo_11 = match right(&rr) {
        Ok(v) => v,
        Err(e) => {
            return Err(e);
        },
    };
    let (ra_lo, rb_lo) = if is_abs {
        (lo_10, lo_11)
    } else {
        (lo_11, lo_10)
    };
    out.connect(f0a0, raa0, *lo, Ghost(n));
    out.connect(f0a1, rba0, *lo, Ghost(n));
    out.connect(f1a0, raa1, *lo, Ghost(n));
    out.connect(f1a1, rba1, *lo, Ghost(n));
    out.connect(f0p, ext_c, lo_00, Ghost(n));
    out.connect(f1p, ext_d, lo_01, Ghost(n));
    out.connect(rap, ext_a, ra_lo, Ghost(n));
    out.connect(rbp, ext_b, rb_lo, Ghost(n));
    proof {
        assert(out.connects@ =~= old(out).connects@ + seq![
            (f0a0, raa0, *lo),
            (f0a1, rba0, *lo),
            (f1a0, raa1, *lo),
            (f1a1, rba1, *lo),
            (f0p, ext_c, lo_00),
            (f1p, ext_d, lo_01),
            (rap, ext_a, ra_lo),
            (rbp, ext_b, rb_lo),
        ]);
        assert(out.connects@.subrange(0, old(out).connects@.len() as int) =~= old(out).connects@);
        assert(out.new_agents@ =~= seq![
            agent_slot(fan_tag, 0, 0, 0),
            agent_slot(fan_tag, 0, 0, 0),
            agent_slot(ra_tag, rep.data, rep.delta0, rep.delta1),
            agent_slot(rb_tag, rep.data, rep.delta0, rep.delta1),
        ]);
    }
    Ok(())
}

/// What the class's pre-checks add to the record for the replicator at
/// `rep`: nothing, decay, merging, or decay then merging.
pub open spec fn prechecks_done<C: NetClassMarker>(
    arena: &Arena,
    before: WorkerOutput,
    after: WorkerOutput,
    rep: PortId,
    lo: LOPath,
    r: Result<(), DnxError>,
) -> bool {
    let bits = C::spec_class_bits();
    let c3_on = bits == 1 || bits == 3;
    let c2_on = bits == 2 || bits == 3;
    &&& !c3_on && !c2_on ==> r is Ok && out_same(after, before)
    &&& c3_on && !c2_on ==> r is Ok && c3_par_done(arena, before, after, rep, lo)
    &&& !c3_on && c2_on ==> c2_par_done(arena, before, after, rep, lo, r)
    &&& c3_on && c2_on ==> exists|mid: WorkerOutput|
        #[trigger] c3_par_done(arena, before, mid, rep, lo) && c2_par_done(arena, mid, after, rep, lo, r)
}

/// The record of a fan meeting a replicator: the replicator's pre-checks,
/// then, if it is still live, the commutation.
pub open spec fn fan_rep_record<C: NetClassMarker>(
    arena: &Arena,
    o: WorkerOutput,
    f: WorkerOutput,
    fan_p: PortId,
    rep_p: PortId,
    lo: LOPath,
    base: u32,
    r: Result<(), DnxError>,
) -> bool {
    exists|mid: WorkerOutput, rc: Result<(), DnxError>|
        #[trigger] prechecks_done::<C>(arena, o, mid, rep_p, lo, rc) && (rc is Err ==> r == rc) && (rc is Ok ==> (
        !spec_local_live(arena, &mid, rep_p) ==> r is Ok && out_same(f, mid)) && (spec_local_live(
            arena,
            &mid,
            rep_p,
        ) ==> (lo.spec_depth() < 511 ==> r is Ok) && (r is Ok ==> r5_record(
            mid,
            f,
            arena.slots@,
            fan_p,
            rep_p,
            lo,
            base,
        ))))
}

/// The decay and merge pre-checks a replicator gets before it interacts,
/// in the classes that have them.
fn pre_checks<C: NetClassMarker>(arena: &Arena, rep: PortId, lo: &LOPath, out: &mut WorkerOutput) -> (r: Result<
    (),
    DnxError,
>)
    requires
        arena.wf(),
        lo.wf(),
        port_in(rep, arena.slots@.len() as int),
        out_fits(*old(out), arena.slots@.len() as int),
    ensures
        out_fits(*final(out), arena.slots@.len() as int),
        final(out).new_agents@ == old(out).new_agents@,
        r matches Err(e) ==> e == DnxError::DeltaOverflow,
        prechecks_done::<C>(arena, *old(out), *final(out), rep, *lo, r),
{
    let bits = C::class_bits();
    if bits == 1 || bits == 3 {
        let _ = c3_par(arena, rep, lo, out);
    }
    let ghost mid = *out;
    if !local_live(arena, out, rep) {
        proof {
            assert(c2_par_done(arena, mid, *out, rep, *lo, Ok(())));
        }
        return Ok(());
    }
    if bits == 2 || bits == 3 {
        match c2_par(arena, rep, lo, out) {
            Ok(()) => {},
            Err(e) => {
                proof {
                    assert(crate::reduce::canon::c2_spec(arena.slots@[raw_slot(rep.0) as int], arena.slots@)
                        matches Err(e2) && e2 == DnxError::DeltaOverflow);
                }
                return Err(e);
            },
        }
    }
    Ok(())
}

/// A beta step on the record: both fans retired and their peers wired
/// pairwise, or (for an identity abstraction) a direct link.
pub open spec fn r4_shape(out: WorkerOutput) -> bool {
    &&& out.new_agents@.len() == 0
    &&& out.set_erasers@.len() == 0
    &&& out.retired@.len() == 2
    &&& (out.connects@.len() == 2 && out.link_direct is None || out.connects@.len() == 0
        && out.link_direct is Some)
}

/// The record of a beta step between the abstraction at `abs_p` and the
/// application at `app_p`: both retired, then the body's peer wired to the
/// result's peer under the path's left extension and the variable's peer to
/// the argument's peer under its right extension; for an identity
/// abstraction a direct link of the result's peer to the argument's peer.
pub open spec fn beta_record(out: WorkerOutput, slots: Seq<Slot>, abs_p: PortId, app_p: PortId, lo: LOPath) -> bool {
    let abs = slots[raw_slot(abs_p.0) as int];
    let app = slots[raw_slot(app_p.0) as int];
    let body = PortId(abs.aux0);
    let var = PortId(abs.aux1);
    let res = PortId(app.aux0);
    let arg = PortId(app.aux1);
    &&& out.retired@ == seq![raw_slot(abs_p.0), raw_slot(app_p.0)]
    &&& out.new_agents@.len() == 0
    &&& out.slot_muts@.len() == 0
    &&& out.set_erasers@.len() == 0
    &&& if raw_slot(body.0) == raw_slot(abs_p.0) && raw_slot(var.0) == raw_slot(abs_p.0) {
        out.connects@.len() == 0 && out.link_direct == Some((res, arg))
    } else {
        &&& out.link_direct is None
        &&& out.connects@.len() == 2
        &&& out.connects@[0].0 == body && out.connects@[0].1 == res
        &&& out.connects@[0].2.bits() == lo.bits().push(false)
        &&& out.connects@[1].0 == var && out.connects@[1].1 == arg
        &&& out.connects@[1].2.bits() == lo.bits().push(true)
    }
}

/// The record of an eraser meeting the fan at `fan_p`: the fan retired, an
/// eraser put on both auxiliary peers, and each wired to the eraser under
/// the path's left and right extensions.
pub open spec fn erase_record(out: WorkerOutput, slots: Seq<Slot>, fan_p: PortId, lo: LOPath) -> bool {
    let f = slots[raw_slot(fan_p.0) as int];
    let e0 = PortId(f.aux0);
    let e1 = PortId(f.aux1);
    &&& out.retired@ == seq![raw_slot(fan_p.0)]
    &&& out.new_agents@.len() == 0
    &&& out.slot_muts@.len() == 0
    &&& out.set_erasers@ == seq![e0, e1]
    &&& out.link_direct is None
    &&& out.connects@.len() == 2
    &&& out.connects@[0].0 == PortId(era_raw()) && out.connects@[0].1 == e0
    &&& out.connects@[0].2.bits() == lo.bits().push(false)
    &&& out.connects@[1].0 == PortId(era_raw()) && out.connects@[1].1 == e1
    &&& out.connects@[1].2.bits() == lo.bits().push(true)
}

/// Fire one active pair against a read-only arena, recording the rewrite.
/// The rule follows the two agents as in the sequential reducer; the
/// replicators involved get the class's decay and merge pre-checks first,
/// and a pair they dissolve records only those.
#[verifier::spinoff_prover]
#[verifier::rlimit(60)]
pub fn fire_rule_parallel_arena<C: NetClassMarker>(
    arena: &Arena,
    pair: &ActivePair,
    base: u32,
    out: &mut WorkerOutput,
) -> (r: Result<(), DnxError>)
    requires
        arena.wf(),
        pair.lo.wf(),
        !raw_is_eraser(pair.p0.0.0) ==> port_in(pair.p0.0, arena.slots@.len() as int),
        !raw_is_eraser(pair.p1.0.0) ==> port_in(pair.p1.0, arena.slots@.len() as int),
        out_empty(*old(out)),
        0 < base,
        base + MAX_NEW <= arena.slots@.len() <= MAX_SLOTS,
    ensures
        r is Ok ==> out_fits(*final(out), arena.slots@.len() as int),
        r matches Err(e) ==> e == DnxError::LOPathDepthExceeded || e == DnxError::DeltaOverflow || e
            == DnxError::ReadbackIncomplete,
        raw_is_eraser(pair.p0.0.0) && raw_is_eraser(pair.p1.0.0) ==> r is Ok && out_empty(*final(out)),
        ({
            let live_p = if raw_is_eraser(pair.p0.0.0) {
                pair.p1.0
            } else {
                pair.p0.0
            };
            (raw_is_eraser(pair.p0.0.0) != raw_is_eraser(pair.p1.0.0)) && crate::slot::tag_is_fan(
                arena.slots@[raw_slot(live_p.0) as int].tag,
            ) && pair.lo.spec_depth() < 512 ==> r is Ok && erase_record(*final(out), arena.slots@, live_p, pair.lo)
        }),
        ({
            let s0 = arena.slots@[raw_slot(pair.p0.0.0) as int];
            let s1 = arena.slots@[raw_slot(pair.p1.0.0) as int];
            !raw_is_eraser(pair.p0.0.0) && !raw_is_eraser(pair.p1.0.0) && crate::slot::tag_is_fan(s0.tag)
                && crate::slot::tag_is_fan(s1.tag) && pair.lo.spec_depth() < 512 ==> r is Ok && r4_shape(
                *final(out),
            ) && beta_record(
                *final(out),
                arena.slots@,
                if tag_bit0(s0.tag) {
                    pair.p0.0
                } else {
                    pair.p1.0
                },
                if tag_bit0(s0.tag) {
                    pair.p1.0
                } else {
                    pair.p0.0
                },
                pair.lo,
            )
        }),
        ({
            let s0 = arena.slots@[raw_slot(pair.p0.0.0) as int];
            let s1 = arena.slots@[raw_slot(pair.p1.0.0) as int];
            !raw_is_eraser(pair.p0.0.0) && !raw_is_eraser(pair.p1.0.0) && (crate::slot::tag_is_fan(s0.tag)
                && crate::slot::tag_is_rep(s1.tag) || crate::slot::tag_is_rep(s0.tag) && crate::slot::tag_is_fan(
                s1.tag,
            )) ==> fan_rep_record::<C>(
                arena,
                *old(out),
                *final(out),
                if crate::slot::tag_is_fan(s0.tag) {
                    pair.p0.0
                } else {
                    pair.p1.0
                },
                if crate::slot::tag_is_fan(s0.tag) {
                    pair.p1.0
                } else {
                    pair.p0.0
                },
                pair.lo,
                base,
                r,
            )
        }),
        ({
            let s0 = arena.slots@[raw_slot(pair.p0.0.0) as int];
            let s1 = arena.slots@[raw_slot(pair.p1.0.0) as int];
            !raw_is_eraser(pair.p0.0.0) && !raw_is_eraser(pair.p1.0.0) && crate::slot::tag_is_rep(s0.tag)
                && crate::slot::tag_is_rep(s1.tag) ==> rep_pair_record::<C>(
                arena,
                *old(out),
                *final(out),
                pair.p0.0,
                pair.p1.0,
                pair.lo,
                base,
                r,
            )
        }),
{
    let ghost n = arena.slots@.len() as int;
    let p0 = pair.p0.get();
    let p1 = pair.p1.get();
    let lo = &pair.lo;
    let s0_era = p0.is_eraser();
    let s1_era = p1.is_eraser();
    if s0_era && s1_era {
        return Ok(());
    }
    if s0_era || s1_era {
        let live_p = if s0_era {
            p1
        } else {
            p0
        };
        let s = *arena.slot(live_p.slot_idx());
        proof {
            assert(slot_closed(arena.slots@[raw_slot(live_p.0) as int], n));
            lemma_sentinels();
        }
        if s.is_fan() {
            let ext0 = PortId::from_raw(s.aux0);
            let ext1 = PortId::from_raw(s.aux1);
            out.retire(live_p.slot_idx(), Ghost(n));
            out.era(ext0, Ghost(n));
            out.era(ext1, Ghost(n));
            let l = match left(lo) {
                Ok(v) => v,
                Err(e) => {
                    return Err(e);
                },
            };
            out.connect(PortId::era(), ext0, l, Ghost(n));
            let rr = match right(lo) {
                Ok(v) => v,
                Err(e) => {
                    return Err(e);
                },
            };
            out.connect(PortId::era(), ext1, rr, Ghost(n));
            proof {
                assert(out.retired@ =~= seq![raw_slot(live_p.0)]);
                assert(out.set_erasers@ =~= seq![ext0, ext1]);
            }
        } else {
            match pre_checks::<C>(arena, live_p, lo, out) {
                Ok(()) => {},
                Err(e) => {
                    return Err(e);
                },
            }
            if !local_live(arena, out, live_p) {
                return Ok(());
            }
            let s = *arena.slot(live_p.slot_idx());
            let ext0 = PortId::from_raw(s.aux0);
            let ext1 = PortId::from_raw(s.aux1);
            out.retire(live_p.slot_idx(), Ghost(n));
            out.era(ext0, Ghost(n));
            out.era(ext1, Ghost(n));
            let l = match left(lo) {
                Ok(v) => v,
                Err(e) => {
                    return Err(e);
                },
            };
            out.connect(PortId::era(), ext0, l, Ghost(n));
            let rr = match right(lo) {
                Ok(v) => v,
                Err(e) => {
                    return Err(e);
                },
            };
            out.connect(PortId::era(), ext1, rr, Ghost(n));
        }
        return Ok(());
    }
    let s0 = *arena.slot(p0.slot_idx());
    let s1 = *arena.slot(p1.slot_idx());
    proof {
        assert(slot_closed(arena.slots@[raw_slot(p0.0) as int], n));
        assert(slot_closed(arena.slots@[raw_slot(p1.0) as int], n));
    }
    if s0.is_fan() && s1.is_fan() {
        let (abs_p, app_p) = if s0.fan_is_abs() {
            (p0, p1)
        } else {
            (p1, p0)
        };
        let abs = *arena.slot(abs_p.slot_idx());
        let app = *arena.slot(app_p.slot_idx());
        let body_peer = PortId::from_raw(abs.aux0);
        let var_peer = PortId::from_raw(abs.aux1);
        let res_peer = PortId::from_raw(app.aux0);
        let arg_peer = PortId::from_raw(app.aux1);
        out.retire(abs_p.slot_idx(), Ghost(n));
        out.retire(app_p.slot_idx(), Ghost(n));
        if body_peer.slot_idx() == abs_p.slot_idx() && var_peer.slot_idx() == abs_p.slot_idx() {
            out.link_direct = Some((res_peer, arg_peer));
        } else {
            let l = match left(lo) {
                Ok(v) => v,
                Err(e) => {
                    return Err(e);
                },
            };
            out.connect(body_peer, res_peer, l, Ghost(n));
            let rr = match right(lo) {
                Ok(v) => v,
                Err(e) => {
                    return Err(e);
                },
            };
            out.connect(var_peer, arg_peer, rr, Ghost(n));
        }
        proof {
            assert(out.retired@ =~= seq![raw_slot(abs_p.0), raw_slot(app_p.0)]);
        }
        return Ok(());
    }
    if s0.is_fan() && s1.is_rep() || s1.is_fan() && s0.is_rep() {
        let (fan_p, rep_p) = if s0.is_fan() {
            (p0, p1)
        } else {
            (p1, p0)
        };
        let pc = pre_checks::<C>(arena, rep_p, lo, out);
        let ghost mid = *out;
        proof {
            assert(prechecks_done::<C>(arena, *old(out), mid, rep_p, *lo, pc));
        }
        match pc {
            Ok(()) => {},
            Err(e) => {
                return Err(e);
            },
        }
        if !local_live(arena, out, rep_p) {
            return Ok(());
        }
        let r5 = r5_arena(arena, fan_p, rep_p, lo, base, out);
        proof {
            assert(fan_rep_record::<C>(arena, *old(out), *out, fan_p, rep_p, *lo, base, r5));
        }
        return r5;
    }
    if s0.is_rep() && s1.is_rep() {
        return fire_rep_pair::<C>(arena, p0, p1, lo, base, out);
    }
    Err(DnxError::ReadbackIncomplete)
}

/// Port `kind` of the `k`-th agent created in the slots reserved from
/// `base`.
pub open spec fn new_port(base: u32, k: int, kind: PortKind) -> PortId {
    PortId(pack((base + k) as u32, kind, 0))
}

/// The record of two replicators of equal labels annihilating: both
/// retired, their first auxiliary peers wired under the path's left
/// extension and their second ones under its right extension.
pub open spec fn r6_record(before: WorkerOutput, after: WorkerOutput, slots: Seq<Slot>, p0: PortId, p1: PortId, lo: LOPath) -> bool {
    let s0 = slots[raw_slot(p0.0) as int];
    let s1 = slots[raw_slot(p1.0) as int];
    let b = before.connects@.len() as int;
    &&& after.retired@ == before.retired@.push(raw_slot(p0.0)).push(raw_slot(p1.0))
    &&& after.connects@.len() == b + 2
    &&& after.connects@.subrange(0, b) == before.connects@
    &&& after.connects@[b].0 == PortId(s0.aux0) && after.connects@[b].1 == PortId(s1.aux0)
    &&& after.connects@[b].2.bits() == lo.bits().push(false)
    &&& after.connects@[b + 1].0 == PortId(s0.aux1) && after.connects@[b + 1].1 == PortId(s1.aux1)
    &&& after.connects@[b + 1].2.bits() == lo.bits().push(true)
    &&& after.new_agents@ == before.new_agents@
    &&& after.set_erasers@ == before.set_erasers@
    &&& after.slot_muts@ == before.slot_muts@
    &&& after.link_direct == before.link_direct
}

/// The record of two replicators of different labels commuting: two copies
/// of the higher one (levels shifted by the lower one's deltas) and two of
/// the lower one are created in the reserved slots; the copies are wired to
/// each other in a square, the higher copies' principals to the lower one's
/// old peers and the lower copies' principals to the higher one's, under
/// the path's four second-level extensions; both originals are retired.
pub open spec fn r7_record(
    before: WorkerOutput,
    after: WorkerOutput,
    slots: Seq<Slot>,
    p0: PortId,
    p1: PortId,
    lo: LOPath,
    base: u32,
) -> bool {
    let s0 = slots[raw_slot(p0.0) as int];
    let s1 = slots[raw_slot(p1.0) as int];
    let hi_p = if s0.data > s1.data { p0 } else { p1 };
    let low_p = if s0.data > s1.data { p1 } else { p0 };
    let hi = slots[raw_slot(hi_p.0) as int];
    let low = slots[raw_slot(low_p.0) as int];
    let b = before.connects@.len() as int;
    let c = after.connects@;
    &&& after.new_agents@ == before.new_agents@ + seq![
        agent_slot(hi.tag & 0x0F, (hi.data + low.delta0) as u16, hi.delta0, hi.delta1),
        agent_slot(hi.tag & 0x0F, (hi.data + low.delta1) as u16, hi.delta0, hi.delta1),
        agent_slot(low.tag & 0x0F, low.data, low.delta0, low.delta1),
        agent_slot(low.tag & 0x0F, low.data, low.delta0, low.delta1),
    ]
    &&& after.retired@ == before.retired@.push(raw_slot(hi_p.0)).push(raw_slot(low_p.0))
    &&& c.len() == b + 8
    &&& c.subrange(0, b) == before.connects@
    &&& c[b] == (new_port(base, 0, PortKind::Aux0), new_port(base, 2, PortKind::Aux0), lo)
    &&& c[b + 1] == (new_port(base, 0, PortKind::Aux1), new_port(base, 3, PortKind::Aux0), lo)
    &&& c[b + 2] == (new_port(base, 1, PortKind::Aux0), new_port(base, 2, PortKind::Aux1), lo)
    &&& c[b + 3] == (new_port(base, 1, PortKind::Aux1), new_port(base, 3, PortKind::Aux1), lo)
    &&& c[b + 4].0 == new_port(base, 0, PortKind::Principal) && c[b + 4].1 == PortId(low.aux0)
    &&& c[b + 4].2.bits() == lo.bits().push(false).push(false)
    &&& c[b + 5].0 == new_port(base, 1, PortKind::Principal) && c[b + 5].1 == PortId(low.aux1)
    &&& c[b + 5].2.bits() == lo.bits().push(false).push(true)
    &&& c[b + 6].0 == new_port(base, 2, PortKind::Principal) && c[b + 6].1 == PortId(hi.aux0)
    &&& c[b + 6].2.bits() == lo.bits().push(true).push(false)
    &&& c[b + 7].0 == new_port(base, 3, PortKind::Principal) && c[b + 7].1 == PortId(hi.aux1)
    &&& c[b + 7].2.bits() == lo.bits().push(true).push(true)
    &&& after.set_erasers@ == before.set_erasers@
    &&& after.slot_muts@ == before.slot_muts@
    &&& after.link_direct == before.link_direct
}

/// The two levels of the higher replicator's copies are levels.
pub open spec fn r7_levels_fit(slots: Seq<Slot>, p0: PortId, p1: PortId) -> bool {
    let s0 = slots[raw_slot(p0.0) as int];
    let s1 = slots[raw_slot(p1.0) as int];
    let hi = if s0.data > s1.data { s0 } else { s1 };
    let low = if s0.data > s1.data { s1 } else { s0 };
    spec_add_level(hi.data, low.delta0) is Some && spec_add_level(hi.data, low.delta1) is Some
}

/// Both replicators are still live on the record.
pub open spec fn both_live(arena: &Arena, out: WorkerOutput, p0: PortId, p1: PortId) -> bool {
    spec_local_live(arena, &out, p0) && spec_local_live(arena, &out, p1)
}

/// The decay pre-check on both replicators, in the classes that have it.
pub open spec fn rep_pair_decayed<C: NetClassMarker>(
    arena: &Arena,
    o: WorkerOutput,
    m2: WorkerOutput,
    p0: PortId,
    p1: PortId,
    lo: LOPath,
) -> bool {
    let bits = C::spec_class_bits();
    if bits == 1 || bits == 3 {
        exists|m1: WorkerOutput|
            #[trigger] c3_par_done(arena, o, m1, p0, lo) && c3_par_done(arena, m1, m2, p1, lo)
    } else {
        m2 == o
    }
}

/// The merge pre-check on both replicators, in the classes that have it;
/// an overflow on the first is the result.
pub open spec fn rep_pair_merged<C: NetClassMarker>(
    arena: &Arena,
    m2: WorkerOutput,
    m4: WorkerOutput,
    p0: PortId,
    p1: PortId,
    lo: LOPath,
    rc: Result<(), DnxError>,
) -> bool {
    let bits = C::spec_class_bits();
    if bits == 2 || bits == 3 {
        exists|m3: WorkerOutput, r0: Result<(), DnxError>|
            #[trigger] c2_par_done(arena, m2, m3, p0, lo, r0) && (r0 is Err ==> rc == r0 && m4 == m3) && (
            r0 is Ok ==> c2_par_done(arena, m3, m4, p1, lo, rc))
    } else {
        m4 == m2 && rc is Ok
    }
}

/// Two live replicators interact: equal labels annihilate (within the
/// depth limit), different ones commute (when the shifted levels fit and
/// the depth allows two more steps).
pub open spec fn rep_pair_fired(
    arena: &Arena,
    m4: WorkerOutput,
    f: WorkerOutput,
    p0: PortId,
    p1: PortId,
    lo: LOPath,
    base: u32,
    r: Result<(), DnxError>,
) -> bool {
    let s0 = arena.slots@[raw_slot(p0.0) as int];
    let s1 = arena.slots@[raw_slot(p1.0) as int];
    if s0.data == s1.data && s0.delta0 == s1.delta0 && s0.delta1 == s1.delta1 {
        &&& lo.spec_depth() < 512 <==> r is Ok
        &&& r is Ok ==> r6_record(m4, f, arena.slots@, p0, p1, lo)
    } else {
        &&& r is Ok ==> r7_record(m4, f, arena.slots@, p0, p1, lo, base)
        &&& r7_levels_fit(arena.slots@, p0, p1) && lo.spec_depth() < 511 ==> r is Ok
    }
}

/// After decay: a replicator no longer live ends the firing; otherwise the
/// merges run and, if both are still live, the pair fires.
pub open spec fn rep_pair_rest<C: NetClassMarker>(
    arena: &Arena,
    m2: WorkerOutput,
    f: WorkerOutput,
    p0: PortId,
    p1: PortId,
    lo: LOPath,
    base: u32,
    r: Result<(), DnxError>,
) -> bool {
    &&& !both_live(arena, m2, p0, p1) ==> r is Ok && out_same(f, m2)
    &&& both_live(arena, m2, p0, p1) ==> exists|m4: WorkerOutput, rc: Result<(), DnxError>|
        #[trigger] rep_pair_merged::<C>(arena, m2, m4, p0, p1, lo, rc) && (rc is Err ==> r == rc) && (rc is Ok
            ==> (!both_live(arena, m4, p0, p1) ==> r is Ok && out_same(f, m4)) && (both_live(arena, m4, p0, p1)
            ==> rep_pair_fired(arena, m4, f, p0, p1, lo, base, r)))
}

/// The record of two replicators meeting: the class's pre-checks, then
/// annihilation or commutation.
pub open spec fn rep_pair_record<C: NetClassMarker>(
    arena: &Arena,
    o: WorkerOutput,
    f: WorkerOutput,
    p0: PortId,
    p1: PortId,
    lo: LOPath,
    base: u32,
    r: Result<(), DnxError>,
) -> bool {
    exists|m2: WorkerOutput|
        #[trigger] rep_pair_decayed::<C>(arena, o, m2, p0, p1, lo) && rep_pair_rest::<C>(arena, m2, f, p0, p1, lo, base, r)
}

/// Two replicators meeting, on the record.
fn fire_rep_pair<C: NetClassMarker>(
    arena: &Arena,
    p0: PortId,
    p1: PortId,
    lo: &LOPath,
    base: u32,
    out: &mut WorkerOutput,
) -> (r: Result<(), DnxError>)
    requires
        arena.wf(),
        lo.wf(),
        port_in(p0, arena.slots@.len() as int),
        port_in(p1, arena.slots@.len() as int),
        out_fits(*old(out), arena.slots@.len() as int),
        old(out).new_agents@.len() == 0,
        0 < base,
        base + MAX_NEW <= arena.slots@.len() <= MAX_SLOTS,
    ensures
        r is Ok ==> out_fits(*final(out), arena.slots@.len() as int),
        r matches Err(e) ==> e == DnxError::LOPathDepthExceeded || e == DnxError::DeltaOverflow,
        rep_pair_record::<C>(arena, *old(out), *final(out), p0, p1, *lo, base, r),
{
    let ghost n = arena.slots@.len() as int;
    let ghost o = *out;
    let ghost mut m1 = *out;
    let bits = C::class_bits();
    if bits == 1 || bits == 3 {
        let _ = c3_par(arena, p0, lo, out);
        proof {
            m1 = *out;
        }
        let _ = c3_par(arena, p1, lo, out);
    }
    let ghost m2 = *out;
    proof {
        if bits == 1 || bits == 3 {
            assert(c3_par_done(arena, o, m1, p0, *lo) && c3_par_done(arena, m1, m2, p1, *lo));
        }
        assert(rep_pair_decayed::<C>(arena, o, m2, p0, p1, *lo));
    }
    if !local_live(arena, out, p0) || !local_live(arena, out, p1) {
        return Ok(());
    }
    let ghost mut m3 = *out;
    let ghost mut r0: Result<(), DnxError> = Ok(());
    if bits == 2 || bits == 3 {
        let q0 = c2_par(arena, p0, lo, out);
        proof {
            m3 = *out;
            r0 = q0;
        }
        match q0 {
            Ok(()) => {},
            Err(e) => {
                proof {
                    assert(rep_pair_merged::<C>(arena, m2, m3, p0, p1, *lo, q0));
                    assert(rep_pair_rest::<C>(arena, m2, *out, p0, p1, *lo, base, q0));
                }
                return Err(e);
            },
        }
        let q1 = c2_par(arena, p1, lo, out);
        match q1 {
            Ok(()) => {},
            Err(e) => {
                proof {
                    assert(rep_pair_merged::<C>(arena, m2, *out, p0, p1, *lo, q1));
                    assert(rep_pair_rest::<C>(arena, m2, *out, p0, p1, *lo, base, q1));
                }
                return Err(e);
            },
        }
    }
    let ghost m4 = *out;
    proof {
        assert(rep_pair_merged::<C>(arena, m2, m4, p0, p1, *lo, Ok(())));
    }
    if !local_live(arena, out, p0) || !local_live(arena, out, p1) {
        proof {
            assert(rep_pair_rest::<C>(arena, m2, *out, p0, p1, *lo, base, Ok(())));
        }
        return Ok(());
    }
    let ss0 = *arena.slot(p0.slot_idx());
    let ss1 = *arena.slot(p1.slot_idx());
    proof {
        assert(slot_closed(arena.slots@[raw_slot(p0.0) as int], n));
        assert(slot_closed(arena.slots@[raw_slot(p1.0) as int], n));
    }
    if ss0.data == ss1.data && ss0.delta0 == ss1.delta0 && ss0.delta1 == ss1.delta1 {
        let a0 = PortId::from_raw(ss0.aux0);
        let a1 = PortId::from_raw(ss0.aux1);
        let b0 = PortId::from_raw(ss1.aux0);
        let b1 = PortId::from_raw(ss1.aux1);
        out.retire(p0.slot_idx(), Ghost(n));
        out.retire(p1.slot_idx(), Ghost(n));
        let l = match left(lo) {
            Ok(v) => v,
            Err(e) => {
                proof {
                    assert(rep_pair_fired(arena, m4, *out, p0, p1, *lo, base, Err(e)));
                    assert(rep_pair_rest::<C>(arena, m2, *out, p0, p1, *lo, base, Err(e)));
                }
                return Err(e);
            },
        };
        out.connect(a0, b0, l, Ghost(n));
        let rr = match right(lo) {
            Ok(v) => v,
            Err(e) => {
                return Err(e);
            },
        };
        out.connect(a1, b1, rr, Ghost(n));
        proof {
            assert(out.connects@.subrange(0, m4.connects@.len() as int) =~= m4.connects@);
            assert(rep_pair_fired(arena, m4, *out, p0, p1, *lo, base, Ok(())));
            assert(rep_pair_rest::<C>(arena, m2, *out, p0, p1, *lo, base, Ok(())));
        }
        return Ok(());
    }
    let r7 = r7_arena(arena, p0, p1, lo, base, out);
    proof {
        assert(rep_pair_fired(arena, m4, *out, p0, p1, *lo, base, r7));
        assert(rep_pair_rest::<C>(arena, m2, *out, p0, p1, *lo, base, r7));
    }
    r7
}

/// Replicator-replicator commutation on the record: the higher replicator
/// is copied onto the lower one's branches (its level shifted by each
/// branch's delta) and the lower one onto the higher one's branches.
#[verifier::spinoff_prover]
#[verifier::rlimit(40)]
fn r7_arena(
    arena: &Arena,
    p0: PortId,
    p1: PortId,
    lo: &LOPath,
    base: u32,
    out: &mut WorkerOutput,
) -> (r: Result<(), DnxError>)
    requires
        arena.wf(),
        lo.wf(),
        port_in(p0, arena.slots@.len() as int),
        port_in(p1, arena.slots@.len() as int),
        out_fits(*old(out), arena.slots@.len() as int),
        old(out).new_agents@.len() == 0,
        0 < base,
        base + MAX_NEW <= arena.slots@.len() <= MAX_SLOTS,
    ensures
        r is Ok ==> out_fits(*final(out), arena.slots@.len() as int),
        r matches Err(e) ==> e == DnxError::LOPathDepthExceeded || e == DnxError::DeltaOverflow,
        r is Ok ==> final(out).new_agents@.len() == 4,
        r is Ok ==> r7_record(*old(out), *final(out), arena.slots@, p0, p1, *lo, base),
        r7_levels_fit(arena.slots@, p0, p1) && lo.spec_depth() < 511 ==> r is Ok,
{
    let ghost n = arena.slots@.len() as int;
    let ss0 = *arena.slot(p0.slot_idx());
    let ss1 = *arena.slot(p1.slot_idx());
    proof {
        assert(slot_closed(arena.slots@[raw_slot(p0.0) as int], n));
        assert(slot_closed(arena.slots@[raw_slot(p1.0) as int], n));
    }
    let (hi_p, hi, low_p, low) = if ss0.data > ss1.data {
        (p0, ss0, p1, ss1)
    } else {
        (p1, ss1, p0, ss0)
    };
    let hi_tag = hi.tag & 0x0F;
    let lo_tag = low.tag & 0x0F;
    let lvl0 = match add_level(hi.data, low.delta0) {
        Ok(v) => v,
        Err(e) => {
            return Err(e);
        },
    };
    let (hc0p, hc0a0, hc0a1) = out.alloc_agent(base, hi_tag, lvl0, hi.delta0, hi.delta1, Ghost(n));
    let lvl1 = match add_level(hi.data, low.delta1) {
        Ok(v) => v,
        Err(e) => {
            return Err(e);
        },
    };
    let (hc1p, hc1a0, hc1a1) = out.alloc_agent(base, hi_tag, lvl1, hi.delta0, hi.delta1, Ghost(n));
    let (lc0p, lc0a0, lc0a1) = out.alloc_agent(base, lo_tag, low.data, low.delta0, low.delta1, Ghost(n));
    let (lc1p, lc1a0, lc1a1) = out.alloc_agent(base, lo_tag, low.data, low.delta0, low.delta1, Ghost(n));
    let hi_a0 = PortId::from_raw(hi.aux0);
    let hi_a1 = PortId::from_raw(hi.aux1);
    let lo_a0 = PortId::from_raw(low.aux0);
    let lo_a1 = PortId::from_raw(low.aux1);
    out.retire(hi_p.slot_idx(), Ghost(n));
    out.retire(low_p.slot_idx(), Ghost(n));
    out.connect(hc0a0, lc0a0, *lo, Ghost(n));
    out.connect(hc0a1, lc1a0, *lo, Ghost(n));
    out.connect(hc1a0, lc0a1, *lo, Ghost(n));
    out.connect(hc1a1, lc1a1, *lo, Ghost(n));
    let l = match left(lo) {
        Ok(v) => v,
        Err(e) => {
            return Err(e);
        },
    };
    let rr = match right(lo) {
        Ok(v) => v,
        Err(e) => {
            return Err(e);
        },
    };
    let l0 = match left(&l) {
        Ok(v) => v,
        Err(e) => {
            return Err(e);
        },
    };
    out.connect(hc0p, lo_a0, l0, Ghost(n));
    let l1 = match right(&l) {
        Ok(v) => v,
        Err(e) => {
            return Err(e);
        },
    };
    out.connect(hc1p, lo_a1, l1, Ghost(n));
    let r0 = match left(&rr) {
        Ok(v) => v,
        Err(e) => {
            return Err(e);
        },
    };
    out.connect(lc0p, hi_a0, r0, Ghost(n));
    let r1 = match right(&rr) {
        Ok(v) => v,
        Err(e) => {
            return Err(e);
        },
    };
    out.connect(lc1p, hi_a1, r1, Ghost(n));
    proof {
        assert(out.connects@ =~= old(out).connects@ + seq![
            (hc0a0, lc0a0, *lo),
            (hc0a1, lc1a0, *lo),
            (hc1a0, lc0a1, *lo),
            (hc1a1, lc1a1, *lo),
            (hc0p, lo_a0, l0),
            (hc1p, lo_a1, l1),
            (lc0p, hi_a0, r0),
            (lc1p, hi_a1, r1),
        ]);
        assert(out.connects@.subrange(0, old(out).connects@.len() as int) =~= old(out).connects@);
        assert(out.new_agents@ =~= old(out).new_agents@ + seq![
            agent_slot(hi_tag, lvl0, hi.delta0, hi.delta1),
            agent_slot(hi_tag, lvl1, hi.delta0, hi.delta1),
            agent_slot(lo_tag, low.data, low.delta0, low.delta1),
            agent_slot(lo_tag, low.data, low.delta0, low.delta1),
        ]);
    }
    Ok(())
}

/// Fire one pair of a batch: a pair with an end that is no longer live
/// records nothing; otherwise the rule is fired into a fresh record. `base`
/// must be the start of the four slots reserved for this pair.
pub fn worker_fire<C: NetClassMarker>(arena: &Arena, pair: &ActivePair, base: u32) -> (r: Result<
    WorkerOutput,
    DnxError,
>)
    requires
        arena.wf(),
        pair.lo.wf(),
    ensures
        r matches Ok(out) ==> out_fits(out, arena.slots@.len() as int),
        r matches Err(e) ==> e == DnxError::LOPathDepthExceeded || e == DnxError::DeltaOverflow || e
            == DnxError::ReadbackIncomplete,
        !(raw_is_eraser(pair.p0.0.0) || arena.has_live(raw_slot(pair.p0.0.0))) || !(raw_is_eraser(
            pair.p1.0.0,
        ) || arena.has_live(raw_slot(pair.p1.0.0))) ==> (r matches Ok(out) && out_empty(out)),
        (raw_is_eraser(pair.p0.0.0) || arena.has_live(raw_slot(pair.p0.0.0))) && (raw_is_eraser(
            pair.p1.0.0,
        ) || arena.has_live(raw_slot(pair.p1.0.0))) && !(0 < base && base + MAX_NEW
            <= arena.slots@.len()) ==> r == Err::<WorkerOutput, DnxError>(DnxError::ReadbackIncomplete),
        ({
            let s0 = arena.slots@[raw_slot(pair.p0.0.0) as int];
            let s1 = arena.slots@[raw_slot(pair.p1.0.0) as int];
            !raw_is_eraser(pair.p0.0.0) && !raw_is_eraser(pair.p1.0.0) && arena.has_live(raw_slot(pair.p0.0.0))
                && arena.has_live(raw_slot(pair.p1.0.0)) && 0 < base && base + MAX_NEW <= arena.slots@.len()
                && crate::slot::tag_is_fan(s0.tag) && crate::slot::tag_is_fan(s1.tag) && pair.lo.spec_depth()
                < 512 ==> (r matches Ok(out) && beta_record(
                out,
                arena.slots@,
                if tag_bit0(s0.tag) {
                    pair.p0.0
                } else {
                    pair.p1.0
                },
                if tag_bit0(s0.tag) {
                    pair.p1.0
                } else {
                    pair.p0.0
                },
                pair.lo,
            ))
        }),
{
    let p0 = pair.p0.get();
    let p1 = pair.p1.get();
    let p0_live = p0.is_eraser() || arena.is_live(p0.slot_idx());
    let p1_live = p1.is_eraser() || arena.is_live(p1.slot_idx());
    if !p0_live || !p1_live {
        return Ok(WorkerOutput::new());
    }
    if base == 0 || arena.slots.len() < 4 || base as usize > arena.slots.len() - 4 {
        return Err(DnxError::ReadbackIncomplete);
    }
    proof {
        lemma_sentinels();
        if arena.has_live(raw_slot(p0.0)) {
            arena.lemma_live_in_range(raw_slot(p0.0));
        }
        if arena.has_live(raw_slot(p1.0)) {
            arena.lemma_live_in_range(raw_slot(p1.0));
        }
    }
    let mut out = WorkerOutput::new();
    match fire_rule_parallel_arena::<C>(arena, pair, base, &mut out) {
        Ok(()) => Ok(out),
        Err(e) => Err(e),
    }
}

/// The reserved slots `lo .. hi` are neither live nor free.
pub open spec fn reserved_clear(arena: &Arena, lo: int, hi: int) -> bool {
    forall|v: u32| lo <= v < hi ==> !(#[trigger] arena.has_live(v)) && !arena.in_free(v)
}

/// The record can be applied to the net: everything it names is in range
/// and its four reserved slots are still unused.
pub open spec fn output_ok(out: WorkerOutput, arena: &Arena, base: u32) -> bool {
    &&& out_fits(out, arena.slots@.len() as int)
    &&& 0 < base
    &&& base + MAX_NEW <= arena.slots@.len()
    &&& reserved_clear(arena, base as int, base + MAX_NEW)
}

fn slot_fits(s: &Slot, n: usize) -> (b: bool)
    ensures
        b == slot_closed(*s, n as int),
{
    (PortId::from_raw(s.principal).slot_idx() as usize) < n && (PortId::from_raw(s.aux0).slot_idx()
        as usize) < n && (PortId::from_raw(s.aux1).slot_idx() as usize) < n
}

/// Check `output_ok` at run time.
fn check_output(out: &WorkerOutput, arena: &Arena, base: u32) -> (b: bool)
    requires
        arena.wf(),
    ensures
        b == output_ok(*out, arena, base),
{
    let n = arena.slots.len();
    if out.new_agents.len() > 4 || base == 0 || n < 4 || base as usize > n - 4 {
        return false;
    }
    let mut i: usize = 0;
    while i < out.new_agents.len()
        invariant
            i <= out.new_agents@.len(),
            n == arena.slots@.len(),
            forall|j: int| 0 <= j < i ==> slot_closed(#[trigger] out.new_agents@[j], n as int),
        decreases out.new_agents@.len() - i,
    {
        if !slot_fits(&out.new_agents[i], n) {
            return false;
        }
        i = i + 1;
    }
    i = 0;
    while i < out.retired.len()
        invariant
            i <= out.retired@.len(),
            n == arena.slots@.len(),
            forall|j: int| 0 <= j < i ==> #[trigger] out.retired@[j] < n,
        decreases out.retired@.len() - i,
    {
        if out.retired[i] as usize >= n {
            return false;
        }
        i = i + 1;
    }
    i = 0;
    while i < out.slot_muts.len()
        invariant
            i <= out.slot_muts@.len(),
            n == arena.slots@.len(),
            forall|j: int|
                0 <= j < i ==> (#[trigger] out.slot_muts@[j]).0 < n && slot_closed(
                    out.slot_muts@[j].1,
                    n as int,
                ),
        decreases out.slot_muts@.len() - i,
    {
        if out.slot_muts[i].0 as usize >= n || !slot_fits(&out.slot_muts[i].1, n) {
            return false;
        }
        i = i + 1;
    }
    i = 0;
    while i < out.connects.len()
        invariant
            i <= out.connects@.len(),
            n == arena.slots@.len(),
            forall|j: int|
                0 <= j < i ==> port_in((#[trigger] out.connects@[j]).0, n as int) && port_in(
                    out.connects@[j].1,
                    n as int,
                ) && out.connects@[j].2.wf(),
        decreases out.connects@.len() - i,
    {
        if out.connects[i].0.slot_idx() as usize >= n || out.connects[i].1.slot_idx() as usize >= n
            || !out.connects[i].2.is_wf() {
            return false;
        }
        i = i + 1;
    }
    i = 0;
    while i < out.set_erasers.len()
        invariant
            i <= out.set_erasers@.len(),
            n == arena.slots@.len(),
            forall|j: int| 0 <= j < i ==> port_in(#[trigger] out.set_erasers@[j], n as int),
        decreases out.set_erasers@.len() - i,
    {
        if out.set_erasers[i].slot_idx() as usize >= n {
            return false;
        }
        i = i + 1;
    }
    match out.link_direct {
        Some((a, b)) => {
            if a.slot_idx() as usize >= n || b.slot_idx() as usize >= n {
                return false;
            }
        },
        None => {},
    }
    let mut k: u32 = 0;
    while k < 4
        invariant
            k <= 4,
            0 < base,
            base + MAX_NEW <= arena.slots@.len() <= MAX_SLOTS,
            forall|v: u32| base <= v < base + k ==> !(#[trigger] arena.has_live(v)) && !arena.in_free(v),
        decreases 4 - k,
    {
        let v = base + k;
        if arena.is_live(v) || arena.free_contains(v) {
            return false;
        }
        k = k + 1;
    }
    true
}

proof fn lemma_clear_kept(a: &Arena, b: &Arena, lo: int, hi: int)
    requires
        reserved_clear(a, lo, hi),
        a.live_pos@ == b.live_pos@,
        a.free@ == b.free@,
    ensures
        reserved_clear(b, lo, hi),
{
    assert forall|v: u32| lo <= v < hi implies !(#[trigger] b.has_live(v)) && !b.in_free(v) by {
        assert(!a.has_live(v));
        assert(!a.in_free(v));
    }
}

/// The record changes the net at all.
pub open spec fn touches(out: WorkerOutput) -> bool {
    out.retired@.len() > 0 || out.connects@.len() > 0 || out.link_direct is Some
}

/// Apply one worker's record to the net: commit its new agents into the
/// reserved slots, apply the slot rewrites, erasers, direct link and wires
/// (with pair detection), retire the consumed agents, and hand the unused
/// reserved slots back. A record that changes anything counts as one
/// interaction, and one of the shape of a beta step as one beta step. A
/// record that does not fit the net, or whose reserved slots are in use, is
/// refused and nothing changes.
pub fn commit_output<C: NetClassMarker>(
    net: &mut Net<Proper, C>,
    out: WorkerOutput,
    base: u32,
    stats: &mut ReduceStats,
) -> (r: Result<(), DnxError>)
    requires
        old(net).wf(),
    ensures
        final(net).wf(),
        final(net).n_slots() == old(net).n_slots(),
        final(net).arena.cap == old(net).arena.cap,
        !output_ok(out, &old(net).arena, base) ==> r == Err::<(), DnxError>(DnxError::ReadbackIncomplete)
            && *final(net) == *old(net) && *final(stats) == *old(stats),
        output_ok(out, &old(net).arena, base) && old(stats).interactions < u64::MAX && old(stats).r4_count
            < u64::MAX ==> r is Ok,
        r matches Err(e) ==> e == DnxError::ReadbackIncomplete || e is StepLimitExceeded,
        r is Ok ==> final(stats).interactions == old(stats).interactions + (if touches(out) {
            1int
        } else {
            0int
        }),
        r is Ok ==> final(stats).r4_count == old(stats).r4_count + (if r4_shape(out) {
            1int
        } else {
            0int
        }),
        r is Ok ==> forall|i: int|
            0 <= i < out.retired@.len() ==> !final(net).arena.has_live(#[trigger] out.retired@[i]),
{
    let is_r4 = out.new_agents.len() == 0 && out.set_erasers.len() == 0 && out.retired.len() == 2 && (
    out.connects.len() == 2 && out.link_direct.is_none() || out.connects.len() == 0
        && out.link_direct.is_some());
    apply_record(net, out, base, stats, is_r4)
}

/// Apply a record, counting it as a beta step when `beta` holds.
fn apply_record<C: NetClassMarker>(
    net: &mut Net<Proper, C>,
    out: WorkerOutput,
    base: u32,
    stats: &mut ReduceStats,
    beta: bool,
) -> (r: Result<(), DnxError>)
    requires
        old(net).wf(),
    ensures
        final(net).wf(),
        final(net).n_slots() == old(net).n_slots(),
        final(net).arena.cap == old(net).arena.cap,
        !output_ok(out, &old(net).arena, base) ==> r == Err::<(), DnxError>(DnxError::ReadbackIncomplete)
            && *final(net) == *old(net) && *final(stats) == *old(stats),
        output_ok(out, &old(net).arena, base) && old(stats).interactions < u64::MAX && old(stats).r4_count
            < u64::MAX ==> r is Ok,
        r matches Err(e) ==> e == DnxError::ReadbackIncomplete || e is StepLimitExceeded,
        r is Ok ==> final(stats).interactions == old(stats).interactions + (if touches(out) {
            1int
        } else {
            0int
        }),
        r is Ok ==> final(stats).r4_count == old(stats).r4_count + (if beta {
            1int
        } else {
            0int
        }),
        r is Ok ==> forall|i: int|
            0 <= i < out.retired@.len() ==> !final(net).arena.has_live(#[trigger] out.retired@[i]),
{
    if !check_output(&out, &net.arena, base) {
        return Err(DnxError::ReadbackIncomplete);
    }
    if stats.interactions == u64::MAX {
        return Err(DnxError::StepLimitExceeded(stats.interactions));
    }
    if stats.r4_count == u64::MAX {
        return Err(DnxError::StepLimitExceeded(stats.r4_count));
    }
    let ghost n = net.n_slots();
    let used = out.new_agents.len() as u32;
    if beta {
        stats.r4_count = stats.r4_count + 1;
    }
    if out.retired.len() > 0 || out.connects.len() > 0 || out.link_direct.is_some() {
        stats.interactions = stats.interactions + 1;
    }
    let mut j: u32 = 0;
    while j < used
        invariant
            net.wf(),
            net.n_slots() == n,
            net.arena.cap == old(net).arena.cap,
            j <= used,
            used == out.new_agents@.len(),
            out_fits(out, n),
            0 < base,
            base + MAX_NEW <= n,
            reserved_clear(&net.arena, base + j, base + MAX_NEW),
        decreases used - j,
    {
        let idx = base + j;
        let ghost before = net.arena;
        assert(slot_closed(out.new_agents@[j as int], n));
        net.arena.commit_slot(idx, out.new_agents[j as usize]);
        proof {
            assert forall|v: u32| base + j + 1 <= v < base + MAX_NEW implies !(#[trigger] net.arena.has_live(
                v,
            )) && !net.arena.in_free(v) by {
                assert(!before.has_live(v));
                before.lemma_live_after_push(&net.arena, idx, v);
            }
        }
        j = j + 1;
    }
    let mut i: usize = 0;
    while i < out.slot_muts.len()
        invariant
            net.wf(),
            net.n_slots() == n,
            net.arena.cap == old(net).arena.cap,
            out_fits(out, n),
            used == out.new_agents@.len(),
            reserved_clear(&net.arena, base + used, base + MAX_NEW),
        decreases out.slot_muts@.len() - i,
    {
        let (idx, s) = out.slot_muts[i];
        assert(out.slot_muts@[i as int].0 < n);
        let ghost before = net.arena;
        net.arena.set_slot(idx, s);
        proof {
            lemma_clear_kept(&before, &net.arena, base + used, base + MAX_NEW);
        }
        i = i + 1;
    }
    i = 0;
    while i < out.set_erasers.len()
        invariant
            net.wf(),
            net.n_slots() == n,
            net.arena.cap == old(net).arena.cap,
            out_fits(out, n),
            used == out.new_agents@.len(),
            reserved_clear(&net.arena, base + used, base + MAX_NEW),
        decreases out.set_erasers@.len() - i,
    {
        let p = out.set_erasers[i];
        assert(port_in(out.set_erasers@[i as int], n));
        let ghost before = net.arena;
        net.set_eraser_on_port(p);
        proof {
            lemma_clear_kept(&before, &net.arena, base + used, base + MAX_NEW);
        }
        i = i + 1;
    }
    match out.link_direct {
        Some((a, b)) => {
            let ghost before = net.arena;
            net.link_no_pair(a, b);
            proof {
                lemma_clear_kept(&before, &net.arena, base + used, base + MAX_NEW);
            }
        },
        None => {},
    }
    i = 0;
    while i < out.connects.len()
        invariant
            net.wf(),
            net.n_slots() == n,
            net.arena.cap == old(net).arena.cap,
            out_fits(out, n),
            used == out.new_agents@.len(),
            reserved_clear(&net.arena, base + used, base + MAX_NEW),
        decreases out.connects@.len() - i,
    {
        let (a, b, lo) = out.connects[i];
        assert(port_in(out.connects@[i as int].0, n));
        let ghost before = net.arena;
        let _ = net.connect(a, b, lo);
        proof {
            lemma_clear_kept(&before, &net.arena, base + used, base + MAX_NEW);
        }
        i = i + 1;
    }
    i = 0;
    while i < out.retired.len()
        invariant
            net.wf(),
            net.n_slots() == n,
            net.arena.cap == old(net).arena.cap,
            i <= out.retired@.len(),
            used == out.new_agents@.len(),
            reserved_clear(&net.arena, base + used, base + MAX_NEW),
            forall|k: int| 0 <= k < i ==> !net.arena.has_live(#[trigger] out.retired@[k]),
        decreases out.retired@.len() - i,
    {
        let ghost before = net.arena;
        let idx = out.retired[i];
        net.retire(idx);
        proof {
            assert forall|v: u32| base + used <= v < base + MAX_NEW implies !(#[trigger] net.arena.has_live(
                v,
            )) && !net.arena.in_free(v) by {
                assert(!before.has_live(v));
                assert(!before.in_free(v));
                if before.has_live(idx) {
                    assert(v != idx);
                    assert(net.arena.free@ == before.free@.push(idx));
                    if net.arena.free@.contains(v) {
                        let q = choose|q: int| 0 <= q < net.arena.free@.len() && net.arena.free@[q] == v;
                        if q < before.free@.len() {
                            assert(before.free@[q] == v);
                        }
                    }
                }
            }
            assert forall|k: int| 0 <= k < i + 1 implies !net.arena.has_live(#[trigger] out.retired@[k]) by {
                if k < i {
                    assert(!before.has_live(out.retired@[k]));
                }
            }
        }
        i = i + 1;
    }
    proof {
        assert forall|v: u32| (base + used <= v && v < base + MAX_NEW) implies !(#[trigger] net.arena.in_free(
            v,
        )) by {
            assert(!net.arena.has_live(v));
        }
    }
    net.arena.release_reserved(base, used, MAX_NEW);
    Ok(())
}

/// What a device kernel reports for one pair: the new agents as labels
/// (tag, level, deltas), the consumed slots, the wires, the erasers and a
/// direct link.
pub struct GpuOutput {
    pub new_agents: Vec<(u8, u16, i16, i16)>,
    pub retired: Vec<u32>,
    pub connects: Vec<(PortId, PortId, LOPath)>,
    pub set_erasers: Vec<PortId>,
    pub link_direct: Option<(PortId, PortId)>,
}

/// The device's record counts as a beta step when it consumed two agents
/// and made no agents and no erasers, and made two wires or a direct link.
pub open spec fn gpu_beta(out: &GpuOutput) -> bool {
    &&& out.retired@.len() == 2
    &&& out.new_agents@.len() == 0
    &&& out.set_erasers@.len() == 0
    &&& (out.connects@.len() == 2 || out.link_direct is Some)
}

/// Apply a device kernel's record for the pair whose reserved slots start
/// at `base`, as `commit_output` applies a worker's.
pub fn commit_gpu_output<C: NetClassMarker>(
    net: &mut Net<Proper, C>,
    out: GpuOutput,
    base: u32,
    stats: &mut ReduceStats,
) -> (r: Result<(), DnxError>)
    requires
        old(net).wf(),
    ensures
        final(net).wf(),
        final(net).n_slots() == old(net).n_slots(),
        final(net).arena.cap == old(net).arena.cap,
        r matches Err(e) ==> e == DnxError::ReadbackIncomplete || e is StepLimitExceeded,
        r is Ok ==> final(stats).interactions == old(stats).interactions + (if out.retired@.len() > 0
            || out.connects@.len() > 0 || out.link_direct is Some {
            1int
        } else {
            0int
        }),
        r is Ok ==> final(stats).r4_count == old(stats).r4_count + (if gpu_beta(&out) {
            1int
        } else {
            0int
        }),
        r is Ok ==> forall|i: int|
            0 <= i < out.retired@.len() ==> !final(net).arena.has_live(#[trigger] out.retired@[i]),
{
    let beta = out.retired.len() == 2 && out.new_agents.len() == 0 && out.set_erasers.len() == 0 && (
    out.connects.len() == 2 || out.link_direct.is_some());
    let mut agents: Vec<Slot> = Vec::new();
    let mut k: usize = 0;
    while k < out.new_agents.len()
        invariant
            k <= out.new_agents@.len(),
            agents@.len() == k,
            forall|j: int|
                0 <= j < k ==> #[trigger] agents@[j] == agent_slot(
                    out.new_agents@[j].0,
                    out.new_agents@[j].1,
                    out.new_agents@[j].2,
                    out.new_agents@[j].3,
                ),
        decreases out.new_agents@.len() - k,
    {
        let (tag, data, d0, d1) = out.new_agents[k];
        let mut s = Slot::empty();
        s.tag = tag;
        s.data = data;
        s.delta0 = d0;
        s.delta1 = d1;
        agents.push(s);
        k = k + 1;
    }
    let rec = WorkerOutput {
        new_agents: agents,
        retired: out.retired,
        slot_muts: Vec::new(),
        connects: out.connects,
        set_erasers: out.set_erasers,
        link_direct: out.link_direct,
    };
    apply_record(net, rec, base, stats, beta)
}

/// Take the whole set of pending pairs as a batch, in leftmost-outermost
/// order, and reserve four fresh slots for each. Returns the pairs and the
/// first reserved slot of each.
pub fn prepare_batch<C: NetClassMarker>(net: &mut Net<Proper, C>) -> (r: Result<
    (Vec<ActivePair>, Vec<u32>),
    DnxError,
>)
    requires
        old(net).wf(),
    ensures
        final(net).wf(),
        final(net).n_slots() >= old(net).n_slots(),
        final(net).frontier1.entries@.len() == 0,
        final(net).frontier2 == old(net).frontier2,
        final(net).net_flags == old(net).net_flags,
        old(net).frontier1.entries@.len() == 0 ==> r is Ok && final(net).arena == old(net).arena
            && final(net).free_slots == old(net).free_slots,
        r matches Err(e) ==> e == DnxError::ArenaCapacityExceeded,
        old(net).n_slots() + MAX_NEW * old(net).frontier1.entries@.len() <= old(net).arena.cap ==> r is Ok,
        old(net).frontier1.entries@.len() > 0 && old(net).n_slots() + MAX_NEW * old(
            net,
        ).frontier1.entries@.len() > old(net).arena.cap ==> r == Err::<(Vec<ActivePair>, Vec<u32>), DnxError>(
            DnxError::ArenaCapacityExceeded,
        ),
        r matches Ok((batch, bases)) ==> {
            let es = old(net).frontier1.entries@;
            &&& batch@.len() == es.len()
            &&& bases@.len() == es.len()
            &&& forall|i: int| 0 <= i < es.len() ==> #[trigger] batch@[i] == es[es.len() - 1 - i].1
            &&& forall|i: int| 0 <= i < es.len() ==> (#[trigger] batch@[i]).lo.wf()
            &&& forall|i: int|
                0 <= i < es.len() ==> #[trigger] bases@[i] == old(net).n_slots() + MAX_NEW * i
            &&& final(net).n_slots() == old(net).n_slots() + MAX_NEW * es.len()
        },
{
    let ghost es = net.frontier1.entries@;
    let ghost n0 = net.n_slots();
    let mut batch: Vec<ActivePair> = Vec::new();
    let mut k: usize = net.frontier1.len();
    while k > 0
        invariant
            net.wf(),
            *net == *old(net),
            net.frontier1.entries@ == es,
            k <= es.len(),
            batch@.len() == es.len() - k,
            forall|i: int| 0 <= i < batch@.len() ==> #[trigger] batch@[i] == es[es.len() - 1 - i].1,
            forall|i: int| 0 <= i < batch@.len() ==> (#[trigger] batch@[i]).lo.wf(),
        decreases k,
    {
        k = k - 1;
        let e = net.frontier1.entry(k);
        proof {
            assert(es[k as int].0.wf());
            assert(es[k as int].1.lo == es[k as int].0);
        }
        batch.push(e.1);
    }
    net.frontier1.clear();
    let mut bases: Vec<u32> = Vec::new();
    let mut i: usize = 0;
    while i < batch.len()
        invariant
            net.wf(),
            net.frontier1.entries@.len() == 0,
            net.frontier2 == old(net).frontier2,
            net.net_flags == old(net).net_flags,
            es.len() == 0 ==> net.arena == old(net).arena && net.free_slots == old(net).free_slots,
            i > 0 ==> net.n_slots() <= net.arena.cap,
            i <= batch@.len(),
            batch@.len() == es.len(),
            bases@.len() == i,
            net.n_slots() == n0 + MAX_NEW * i,
            net.arena.cap == old(net).arena.cap,
            n0 == old(net).n_slots(),
            es == old(net).frontier1.entries@,
            forall|q: int| 0 <= q < i ==> #[trigger] bases@[q] == n0 + MAX_NEW * q,
        decreases batch@.len() - i,
    {
        let b = match net.arena.reserve(MAX_NEW) {
            Ok(b) => b,
            Err(e) => {
                return Err(e);
            },
        };
        bases.push(b);
        i = i + 1;
    }
    Ok((batch, bases))
}

/// After the batches: the second phase and the sweep, as in the sequential
/// reducer, and the certificate.
pub fn finish_parallel<C: crate::reduce::CRules>(net: Net<Proper, C>, stats: ReduceStats) -> (r: Result<
    (Net<crate::class::Canonical, C>, ReduceStats),
    DnxError,
>)
    requires
        net.wf(),
    ensures
        r matches Ok((c, st)) ==> c.wf() && crate::net::spec_is_canonical(&c) && st == stats,
        crate::reduce::no_work_left(&net) && net.net_flags & 4 == 0 ==> (r matches Ok((c, st)) && c.arena
            == net.arena && st == stats),
        crate::reduce::no_work_left(&net) && net.net_flags & 4 != 0 && crate::reduce::class_has_era::<C>()
            ==> r is Ok,
        crate::reduce::no_work_left(&net) && net.net_flags & 4 != 0 && !crate::reduce::class_has_era::<C>()
            ==> r == Err::<(Net<crate::class::Canonical, C>, ReduceStats), DnxError>(DnxError::ReadbackIncomplete),
{
    match crate::reduce::finalize_canonical(net) {
        Ok(c) => Ok((c, stats)),
        Err(e) => Err(e),
    }
}

} // verus!
