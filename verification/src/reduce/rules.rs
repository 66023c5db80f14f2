//! The core interaction rules. Each takes the ports of an active pair and
//! rewires the net around it; new wires inherit the pair's path extended by
//! one or two branch bits, so the pending work stays an antichain in
//! leftmost-outermost order.
use vstd::prelude::*;
use crate::class::{NetClassMarker, Proper};
use crate::error::DnxError;
use crate::lopath::LOPath;
use crate::net::{AgentPorts, Net, erased_slot, fresh_agent, is_virtual, port_in, ports_of, write_slots};
use crate::port::{PortId, era_raw, lemma_sentinels, raw_kind, raw_slot};
use crate::slot::{Slot, TAG_FAN_ABS, TAG_FAN_APP, TAG_REP_IN_UNKNOWN, TAG_REP_OUT_UNKNOWN, tag_bit0};

verus! {

/// The live set after retiring `a` and `b`.
pub open spec fn live_after_retire<C: NetClassMarker>(
    old_net: &Net<Proper, C>,
    new_net: &Net<Proper, C>,
    a: u32,
    b: u32,
) -> bool {
    new_net.arena.live_pos@.dom() == old_net.arena.live_pos@.dom().remove(a).remove(b)
}

/// `x + d`, when it is a level (below 2^14).
pub open spec fn spec_add_level(x: u16, d: i16) -> Option<u16> {
    if 0 <= x + d < 16384 {
        Some((x + d) as u16)
    } else {
        None
    }
}

/// Add a level delta to a level; the result must stay a level.
pub fn add_level(level: u16, delta: i16) -> (r: Result<u16, DnxError>)
    ensures
        spec_add_level(level, delta) matches Some(v) ==> r == Ok::<u16, DnxError>(v),
        spec_add_level(level, delta) is None ==> r == Err::<u16, DnxError>(DnxError::DeltaOverflow),
{
    let v: i32 = level as i32 + delta as i32;
    if 0 <= v && v < 16384 {
        Ok(v as u16)
    } else {
        Err(DnxError::DeltaOverflow)
    }
}

/// Extend a path by one left branch, or fail.
pub(crate) fn left(lo: &LOPath) -> (r: Result<LOPath, DnxError>)
    requires
        lo.wf(),
    ensures
        lo.spec_depth() < 512 ==> (r matches Ok(p) && p.wf() && p.spec_depth() == lo.spec_depth()
            + 1 && p.bits() == lo.bits().push(false)),
        lo.spec_depth() >= 512 ==> r == Err::<LOPath, DnxError>(DnxError::LOPathDepthExceeded),
{
    let r = lo.extend_left();
    proof {
        if let Ok(p) = r {
            assert(p.bits().len() == lo.bits().len() + 1);
        }
    }
    r
}

/// Extend a path by one right branch, or fail.
pub(crate) fn right(lo: &LOPath) -> (r: Result<LOPath, DnxError>)
    requires
        lo.wf(),
    ensures
        lo.spec_depth() < 512 ==> (r matches Ok(p) && p.wf() && p.spec_depth() == lo.spec_depth()
            + 1 && p.bits() == lo.bits().push(true)),
        lo.spec_depth() >= 512 ==> r == Err::<LOPath, DnxError>(DnxError::LOPathDepthExceeded),
{
    let r = lo.extend_right();
    proof {
        if let Ok(p) = r {
            assert(p.bits().len() == lo.bits().len() + 1);
        }
    }
    r
}

/// The slots after the eraser flag is put on port `p`.
pub open spec fn mark_erased(slots: Seq<Slot>, p: PortId) -> Seq<Slot> {
    if is_virtual(p) {
        slots
    } else {
        slots.update(raw_slot(p.0) as int, erased_slot(slots[raw_slot(p.0) as int], raw_kind(p.0)))
    }
}

/// The slot words after the agent at `agent_p` is erased: both auxiliary
/// peers marked erased and wired to the eraser.
pub open spec fn erased_agent_slots(slots: Seq<Slot>, agent_p: PortId) -> Seq<Slot> {
    let s = slots[raw_slot(agent_p.0) as int];
    let e0 = PortId(s.aux0);
    let e1 = PortId(s.aux1);
    let era = PortId(era_raw());
    write_slots(write_slots(mark_erased(mark_erased(slots, e0), e1), e0, era), e1, era)
}

/// The slot words after two agents annihilate: first auxiliary peers wired
/// to each other, and second auxiliary peers.
pub open spec fn annihilated_slots(slots: Seq<Slot>, p0: PortId, p1: PortId) -> Seq<Slot> {
    let a = slots[raw_slot(p0.0) as int];
    let b = slots[raw_slot(p1.0) as int];
    let a0 = PortId(a.aux0);
    let a1 = PortId(a.aux1);
    let b0 = PortId(b.aux0);
    let b1 = PortId(b.aux1);
    write_slots(write_slots(write_slots(write_slots(slots, a0, b0), b0, a0), a1, b1), b1, a1)
}

/// Eraser against an agent with two auxiliary ports (a fan, or a replicator
/// once the class rules are done): the agent goes, and an eraser is wired to
/// each of its auxiliary peers.
fn erase_agent<C: NetClassMarker>(net: &mut Net<Proper, C>, agent_p: PortId, lo: &LOPath) -> (r: Result<
    (),
    DnxError,
>)
    requires
        old(net).wf(),
        lo.wf(),
        port_in(agent_p, old(net).n_slots()),
    ensures
        final(net).wf(),
        final(net).n_slots() == old(net).n_slots(),
        final(net).arena.cap == old(net).arena.cap,
        lo.spec_depth() < 512 <==> r is Ok,
        r is Err ==> r == Err::<(), DnxError>(DnxError::LOPathDepthExceeded),
        r is Err ==> *final(net) == *old(net),
        r is Ok ==> live_after_retire(old(net), final(net), raw_slot(agent_p.0), raw_slot(agent_p.0)),
        r is Ok ==> final(net).slots() == erased_agent_slots(old(net).slots(), agent_p),
        r is Ok ==> final(net).arena.live_list@.len() == old(net).arena.live_list@.len() - (if old(
            net,
        ).arena.has_live(raw_slot(agent_p.0)) {
            1int
        } else {
            0int
        }),
{
    let l = match left(lo) {
        Ok(l) => l,
        Err(e) => {
            return Err(e);
        },
    };
    let r = match right(lo) {
        Ok(r) => r,
        Err(e) => {
            return Err(e);
        },
    };
    let s = *net.slot(agent_p);
    proof {
        net.lemma_words_in(raw_slot(agent_p.0) as int);
        lemma_sentinels();
    }
    let ext0 = PortId::from_raw(s.aux0);
    let ext1 = PortId::from_raw(s.aux1);
    net.set_eraser_on_port(ext0);
    net.set_eraser_on_port(ext1);
    net.retire(agent_p.slot_idx());
    let _ = net.connect(PortId::era(), ext0, l);
    let _ = net.connect(PortId::era(), ext1, r);
    proof {
        let i = raw_slot(agent_p.0);
        assert(net.arena.live_pos@.dom() =~= old(net).arena.live_pos@.dom().remove(i).remove(i));
    }
    Ok(())
}

/// Eraser against a fan.
pub fn r2_era_fan<C: NetClassMarker>(net: &mut Net<Proper, C>, fan_p: PortId, lo: &LOPath) -> (r: Result<
    (),
    DnxError,
>)
    requires
        old(net).wf(),
        lo.wf(),
        port_in(fan_p, old(net).n_slots()),
    ensures
        final(net).wf(),
        final(net).n_slots() == old(net).n_slots(),
        final(net).arena.cap == old(net).arena.cap,
        lo.spec_depth() < 512 <==> r is Ok,
        r is Err ==> r == Err::<(), DnxError>(DnxError::LOPathDepthExceeded),
        r is Err ==> *final(net) == *old(net),
        r is Ok ==> live_after_retire(old(net), final(net), raw_slot(fan_p.0), raw_slot(fan_p.0)),
        r is Ok ==> final(net).slots() == erased_agent_slots(old(net).slots(), fan_p),
        r is Ok ==> final(net).arena.live_list@.len() == old(net).arena.live_list@.len() - (if old(
            net,
        ).arena.has_live(raw_slot(fan_p.0)) {
            1int
        } else {
            0int
        }),
{
    erase_agent(net, fan_p, lo)
}

/// Eraser against a replicator.
pub fn r3_era_rep<C: NetClassMarker>(net: &mut Net<Proper, C>, rep_p: PortId, lo: &LOPath) -> (r: Result<
    (),
    DnxError,
>)
    requires
        old(net).wf(),
        lo.wf(),
        port_in(rep_p, old(net).n_slots()),
    ensures
        final(net).wf(),
        final(net).n_slots() == old(net).n_slots(),
        final(net).arena.cap == old(net).arena.cap,
        lo.spec_depth() < 512 <==> r is Ok,
        r is Err ==> r == Err::<(), DnxError>(DnxError::LOPathDepthExceeded),
        r is Err ==> *final(net) == *old(net),
        r is Ok ==> live_after_retire(old(net), final(net), raw_slot(rep_p.0), raw_slot(rep_p.0)),
        r is Ok ==> final(net).slots() == erased_agent_slots(old(net).slots(), rep_p),
        r is Ok ==> final(net).arena.live_list@.len() == old(net).arena.live_list@.len() - (if old(
            net,
        ).arena.has_live(raw_slot(rep_p.0)) {
            1int
        } else {
            0int
        }),
{
    erase_agent(net, rep_p, lo)
}


/// The slot words after a beta step between the abstraction at `abs_p`
/// and the application at `app_p`: the body's peer and the result's peer
/// wired to each other, and the variable's peer and the argument's peer; an
/// identity abstraction wires the result's peer to the argument's peer.
pub open spec fn beta_slots(slots: Seq<Slot>, abs_p: PortId, app_p: PortId) -> Seq<Slot> {
    let abs = slots[raw_slot(abs_p.0) as int];
    let app = slots[raw_slot(app_p.0) as int];
    let body = PortId(abs.aux0);
    let var = PortId(abs.aux1);
    let res = PortId(app.aux0);
    let arg = PortId(app.aux1);
    if raw_slot(body.0) == raw_slot(abs_p.0) && raw_slot(var.0) == raw_slot(abs_p.0) {
        write_slots(write_slots(slots, res, arg), arg, res)
    } else {
        write_slots(
            write_slots(write_slots(write_slots(slots, body, res), res, body), var, arg),
            arg,
            var,
        )
    }
}

/// Abstraction against application (beta): both fans go; the body meets the
/// result and the variable meets the argument. An identity abstraction (its
/// body wired to its own variable) links result and argument directly,
/// recording no pair.
pub fn r4_fan_fan<C: NetClassMarker>(
    net: &mut Net<Proper, C>,
    p0: PortId,
    p1: PortId,
    lo: &LOPath,
) -> (r: Result<(), DnxError>)
    requires
        old(net).wf(),
        lo.wf(),
        port_in(p0, old(net).n_slots()),
        port_in(p1, old(net).n_slots()),
    ensures
        final(net).wf(),
        final(net).n_slots() == old(net).n_slots(),
        final(net).arena.cap == old(net).arena.cap,
        lo.spec_depth() < 512 ==> r is Ok,
        r is Err ==> r == Err::<(), DnxError>(DnxError::LOPathDepthExceeded) && *final(net) == *old(
            net,
        ),
        r is Ok ==> live_after_retire(old(net), final(net), raw_slot(p0.0), raw_slot(p1.0)),
        r is Ok && old(net).arena.has_live(raw_slot(p0.0)) && old(net).arena.has_live(
            raw_slot(p1.0),
        ) && raw_slot(p0.0) != raw_slot(p1.0) ==> final(net).arena.live_list@.len() == old(
            net,
        ).arena.live_list@.len() - 2,
        r is Ok ==> final(net).slots() == (if tag_bit0(old(net).slots()[raw_slot(p0.0) as int].tag) {
            beta_slots(old(net).slots(), p0, p1)
        } else {
            beta_slots(old(net).slots(), p1, p0)
        }),
{
    let (abs_p, app_p) = if net.slot(p0).fan_is_abs() {
        (p0, p1)
    } else {
        (p1, p0)
    };
    let abs = *net.slot(abs_p);
    let app = *net.slot(app_p);
    proof {
        net.lemma_words_in(raw_slot(abs_p.0) as int);
        net.lemma_words_in(raw_slot(app_p.0) as int);
    }
    let body_peer = PortId::from_raw(abs.aux0);
    let var_peer = PortId::from_raw(abs.aux1);
    let res_peer = PortId::from_raw(app.aux0);
    let arg_peer = PortId::from_raw(app.aux1);
    let self_loop = body_peer.slot_idx() == abs_p.slot_idx() && var_peer.slot_idx()
        == abs_p.slot_idx();
    if self_loop {
        net.retire(abs_p.slot_idx());
        net.retire(app_p.slot_idx());
        net.link_no_pair(res_peer, arg_peer);
    } else {
        let l = match left(lo) {
            Ok(l) => l,
            Err(e) => {
                return Err(e);
            },
        };
        let r = match right(lo) {
            Ok(r) => r,
            Err(e) => {
                return Err(e);
            },
        };
        net.retire(abs_p.slot_idx());
        net.retire(app_p.slot_idx());
        let _ = net.connect(body_peer, res_peer, l);
        let _ = net.connect(var_peer, arg_peer, r);
    }
    proof {
        let i0 = raw_slot(p0.0);
        let i1 = raw_slot(p1.0);
        assert(net.arena.live_pos@.dom() =~= old(net).arena.live_pos@.dom().remove(i0).remove(i1));
    }
    Ok(())
}

/// Two equal replicators annihilate: their auxiliary peers are wired
/// pairwise.
pub fn r6_rep_rep<C: NetClassMarker>(
    net: &mut Net<Proper, C>,
    p0: PortId,
    p1: PortId,
    lo: &LOPath,
) -> (r: Result<(), DnxError>)
    requires
        old(net).wf(),
        lo.wf(),
        port_in(p0, old(net).n_slots()),
        port_in(p1, old(net).n_slots()),
    ensures
        final(net).wf(),
        final(net).n_slots() == old(net).n_slots(),
        final(net).arena.cap == old(net).arena.cap,
        lo.spec_depth() < 512 <==> r is Ok,
        r is Err ==> r == Err::<(), DnxError>(DnxError::LOPathDepthExceeded) && *final(net) == *old(
            net,
        ),
        r is Ok ==> live_after_retire(old(net), final(net), raw_slot(p0.0), raw_slot(p1.0)),
        r is Ok && old(net).arena.has_live(raw_slot(p0.0)) && old(net).arena.has_live(
            raw_slot(p1.0),
        ) && raw_slot(p0.0) != raw_slot(p1.0) ==> final(net).arena.live_list@.len() == old(
            net,
        ).arena.live_list@.len() - 2,
        r is Ok ==> final(net).slots() == annihilated_slots(old(net).slots(), p0, p1),
{
    let l = match left(lo) {
        Ok(l) => l,
        Err(e) => {
            return Err(e);
        },
    };
    let r = match right(lo) {
        Ok(r) => r,
        Err(e) => {
            return Err(e);
        },
    };
    let a = *net.slot(p0);
    let b = *net.slot(p1);
    proof {
        net.lemma_words_in(raw_slot(p0.0) as int);
        net.lemma_words_in(raw_slot(p1.0) as int);
    }
    let a0 = PortId::from_raw(a.aux0);
    let a1 = PortId::from_raw(a.aux1);
    let b0 = PortId::from_raw(b.aux0);
    let b1 = PortId::from_raw(b.aux1);
    net.retire(p0.slot_idx());
    net.retire(p1.slot_idx());
    let _ = net.connect(a0, b0, l);
    let _ = net.connect(a1, b1, r);
    proof {
        let i0 = raw_slot(p0.0);
        let i1 = raw_slot(p1.0);
        assert(net.arena.live_pos@.dom() =~= old(net).arena.live_pos@.dom().remove(i0).remove(i1));
    }
    Ok(())
}


/// Slot `i` holds an agent that was not live in `old_net`, is live in
/// `new_net`, and carries the given level and deltas.
pub open spec fn is_new_agent<C: NetClassMarker>(
    old_net: &Net<Proper, C>,
    new_net: &Net<Proper, C>,
    i: u32,
    data: u16,
    delta0: i16,
    delta1: i16,
) -> bool {
    &&& !old_net.arena.has_live(i)
    &&& new_net.arena.has_live(i)
    &&& i < new_net.n_slots()
    &&& new_net.slots()[i as int].data == data
    &&& new_net.slots()[i as int].delta0 == delta0
    &&& new_net.slots()[i as int].delta1 == delta1
}

/// Replicator `a` sorts above `b` by (level, delta0, delta1).
pub open spec fn rep_key_gt(a: Slot, b: Slot) -> bool {
    a.data > b.data || (a.data == b.data && (a.delta0 > b.delta0 || (a.delta0 == b.delta0
        && a.delta1 > b.delta1)))
}

/// The slot of port `p`.
pub open spec fn r7_s0<C: NetClassMarker>(net: &Net<Proper, C>, p: PortId) -> Slot {
    net.slots()[raw_slot(p.0) as int]
}

/// The higher of two replicators.
pub open spec fn r7_hi(s0: Slot, s1: Slot) -> Slot {
    if rep_key_gt(s0, s1) {
        s0
    } else {
        s1
    }
}

/// The lower of two replicators.
pub open spec fn r7_low(s0: Slot, s1: Slot) -> Slot {
    if rep_key_gt(s0, s1) {
        s1
    } else {
        s0
    }
}

/// Both shifted levels of the higher replicator are levels.
pub open spec fn r7_levels_ok(hi: Slot, low: Slot) -> bool {
    spec_add_level(hi.data, low.delta0) is Some && spec_add_level(hi.data, low.delta1) is Some
}

/// The copies that commutation creates: the higher replicator at its level
/// plus each delta of the lower, and the lower replicator unchanged.
pub open spec fn r7_new_agents<C: NetClassMarker>(
    old_net: &Net<Proper, C>,
    new_net: &Net<Proper, C>,
    hi: Slot,
    low: Slot,
) -> bool {
    &&& exists|h: u32|
        is_new_agent(
            old_net,
            new_net,
            h,
            spec_add_level(hi.data, low.delta0).unwrap(),
            hi.delta0,
            hi.delta1,
        )
    &&& exists|h: u32|
        is_new_agent(
            old_net,
            new_net,
            h,
            spec_add_level(hi.data, low.delta1).unwrap(),
            hi.delta0,
            hi.delta1,
        )
    &&& exists|l: u32| is_new_agent(old_net, new_net, l, low.data, low.delta0, low.delta1)
}

/// What two replicators of different labels do to the net: the success and
/// error conditions, both retired, and the four fresh copies wired in.
pub open spec fn r7_done<C: NetClassMarker>(
    before: &Net<Proper, C>,
    after: &Net<Proper, C>,
    p0: PortId,
    p1: PortId,
    lo: LOPath,
    r: Result<(), DnxError>,
) -> bool {
    let hi = r7_hi(r7_s0(before, p0), r7_s0(before, p1));
    let low = r7_low(r7_s0(before, p0), r7_s0(before, p1));
    &&& !r7_levels_ok(hi, low) ==> r == Err::<(), DnxError>(DnxError::DeltaOverflow)
    &&& r7_levels_ok(hi, low) && before.avail() < 4 ==> r == Err::<(), DnxError>(DnxError::ArenaCapacityExceeded)
    &&& r7_levels_ok(hi, low) && before.avail() >= 4 && lo.spec_depth() >= 511 ==> r == Err::<(), DnxError>(
        DnxError::LOPathDepthExceeded,
    )
    &&& r7_levels_ok(hi, low) && before.avail() >= 4 && lo.spec_depth() < 511 ==> r is Ok
    &&& r is Ok ==> r7_new_agents(before, after, hi, low)
    &&& r is Ok ==> !after.arena.has_live(raw_slot(p0.0)) && !after.arena.has_live(raw_slot(p1.0))
    &&& r is Ok ==> forall|x: u32|
        before.arena.has_live(x) && x != raw_slot(p0.0) && x != raw_slot(p1.0)
            ==> #[trigger] after.arena.has_live(x)
    &&& r is Ok && before.arena.has_live(raw_slot(p0.0)) && before.arena.has_live(raw_slot(p1.0))
        && raw_slot(p0.0) != raw_slot(p1.0) ==> after.arena.live_list@.len()
        == before.arena.live_list@.len() + 2
    &&& r is Ok ==> exists|
        mid: Seq<Slot>,
        h0: AgentPorts,
        h1: AgentPorts,
        g0: AgentPorts,
        g1: AgentPorts,
    |
        {
            &&& after.slots() == #[trigger] commuted_slots(mid, h0, h1, g0, g1, hi, low)
            &&& fresh_ports(mid, h0, hi.tag & 0x0F, spec_add_level(hi.data, low.delta0).unwrap(), hi.delta0, hi.delta1)
            &&& fresh_ports(mid, h1, hi.tag & 0x0F, spec_add_level(hi.data, low.delta1).unwrap(), hi.delta0, hi.delta1)
            &&& fresh_ports(mid, g0, low.tag & 0x0F, low.data, low.delta0, low.delta1)
            &&& fresh_ports(mid, g1, low.tag & 0x0F, low.data, low.delta0, low.delta1)
            &&& forall|j: int|
                0 <= j < before.n_slots() && j != raw_slot(h0.principal.0) && j != raw_slot(
                    h1.principal.0,
                ) && j != raw_slot(g0.principal.0) && j != raw_slot(g1.principal.0)
                    ==> #[trigger] mid[j] == before.slots()[j]
        }
}

/// Two distinct replicators commute: the higher one (by level, then deltas)
/// is copied at its level plus each delta of the lower, keeping its own
/// deltas; the lower one is copied exactly.
#[verifier::spinoff_prover]
#[verifier::rlimit(50)]
pub fn r7_rep_rep<C: NetClassMarker>(
    net: &mut Net<Proper, C>,
    p0: PortId,
    p1: PortId,
    lo: &LOPath,
) -> (r: Result<(), DnxError>)
    requires
        old(net).wf(),
        lo.wf(),
        port_in(p0, old(net).n_slots()),
        port_in(p1, old(net).n_slots()),
        old(net).arena.has_live(raw_slot(p0.0)),
        old(net).arena.has_live(raw_slot(p1.0)),
    ensures
        final(net).n_slots() >= old(net).n_slots(),
        final(net).wf(),
        final(net).arena.cap == old(net).arena.cap,
        r7_done(old(net), final(net), p0, p1, *lo, r),
{
    let s0 = *net.slot(p0);
    let s1 = *net.slot(p1);
    let s0_gt = s0.data > s1.data || (s0.data == s1.data && (s0.delta0 > s1.delta0 || (s0.delta0
        == s1.delta0 && s0.delta1 > s1.delta1)));
    let (hi_p, hi, lo_p, low) = if s0_gt {
        (p0, s0, p1, s1)
    } else {
        (p1, s1, p0, s0)
    };
    let hi_level0 = match add_level(hi.data, low.delta0) {
        Ok(v) => v,
        Err(e) => {
            return Err(e);
        },
    };
    let hi_level1 = match add_level(hi.data, low.delta1) {
        Ok(v) => v,
        Err(e) => {
            return Err(e);
        },
    };
    let hi_tag = hi.tag & 0x0F;
    let lo_tag = low.tag & 0x0F;
    let ghost n0 = *net;
    let hc0 = match net.alloc_agent(hi_tag, hi_level0, hi.delta0, hi.delta1) {
        Ok(a) => a,
        Err(e) => {
            return Err(e);
        },
    };
    let ghost n1 = *net;
    let hc1 = match net.alloc_agent(hi_tag, hi_level1, hi.delta0, hi.delta1) {
        Ok(a) => a,
        Err(e) => {
            return Err(e);
        },
    };
    let ghost n2 = *net;
    let lc0 = match net.alloc_agent(lo_tag, low.data, low.delta0, low.delta1) {
        Ok(a) => a,
        Err(e) => {
            return Err(e);
        },
    };
    let ghost n3 = *net;
    let lc1 = match net.alloc_agent(lo_tag, low.data, low.delta0, low.delta1) {
        Ok(a) => a,
        Err(e) => {
            return Err(e);
        },
    };
    let ghost n4 = *net;
    let l = match left(lo) {
        Ok(l) => l,
        Err(e) => {
            return Err(e);
        },
    };
    let rr = match right(lo) {
        Ok(r) => r,
        Err(e) => {
            return Err(e);
        },
    };
    let ll = match left(&l) {
        Ok(v) => v,
        Err(e) => {
            return Err(e);
        },
    };
    let lr = match right(&l) {
        Ok(v) => v,
        Err(e) => {
            return Err(e);
        },
    };
    let rl = match left(&rr) {
        Ok(v) => v,
        Err(e) => {
            return Err(e);
        },
    };
    let r2 = match right(&rr) {
        Ok(v) => v,
        Err(e) => {
            return Err(e);
        },
    };
    proof {
        n0.lemma_words_in(raw_slot(p0.0) as int);
        n0.lemma_words_in(raw_slot(p1.0) as int);
    }
    let hi_a0 = PortId::from_raw(hi.aux0);
    let hi_a1 = PortId::from_raw(hi.aux1);
    let lo_a0 = PortId::from_raw(low.aux0);
    let lo_a1 = PortId::from_raw(low.aux1);
    let ghost h0 = raw_slot(hc0.principal.0);
    let ghost h1 = raw_slot(hc1.principal.0);
    let ghost g0 = raw_slot(lc0.principal.0);
    let ghost g1 = raw_slot(lc1.principal.0);
    proof {
        crate::net::lemma_ports_of(h0, n1.slots()[h0 as int].generation);
        crate::net::lemma_ports_of(h1, n2.slots()[h1 as int].generation);
        crate::net::lemma_ports_of(g0, n3.slots()[g0 as int].generation);
        crate::net::lemma_ports_of(g1, n4.slots()[g1 as int].generation);
        assert(n4.arena.has_live(h0));
        assert(n4.arena.has_live(h1));
        assert(n4.arena.has_live(g0));
        assert(n4.slots()[h0 as int].data == hi_level0);
        assert(n4.slots()[h1 as int].data == hi_level1);
        assert(n4.slots()[g0 as int].data == low.data);
    }
    net.retire(hi_p.slot_idx());
    net.retire(lo_p.slot_idx());
    let _ = net.connect(hc0.aux0, lc0.aux0, *lo);
    let _ = net.connect(hc0.aux1, lc1.aux0, *lo);
    let _ = net.connect(hc1.aux0, lc0.aux1, *lo);
    let _ = net.connect(hc1.aux1, lc1.aux1, *lo);
    let _ = net.connect(hc0.principal, lo_a0, ll);
    let _ = net.connect(hc1.principal, lo_a1, lr);
    let _ = net.connect(lc0.principal, hi_a0, rl);
    let _ = net.connect(lc1.principal, hi_a1, r2);
    proof {
        assert(is_new_agent(old(net), net, h0, hi_level0, hi.delta0, hi.delta1));
        assert(is_new_agent(old(net), net, h1, hi_level1, hi.delta0, hi.delta1));
        assert(is_new_agent(old(net), net, g0, low.data, low.delta0, low.delta1));
        let mid = n4.slots();
        assert(net.slots() == commuted_slots(mid, hc0, hc1, lc0, lc1, hi, low));
        assert(fresh_ports(mid, hc0, hi_tag, hi_level0, hi.delta0, hi.delta1));
        assert(fresh_ports(mid, hc1, hi_tag, hi_level1, hi.delta0, hi.delta1));
        assert(fresh_ports(mid, lc0, lo_tag, low.data, low.delta0, low.delta1));
        assert(fresh_ports(mid, lc1, lo_tag, low.data, low.delta0, low.delta1));
    }
    Ok(())
}


/// The fan of port `fan_p` is wired to itself (both auxiliary peers in its
/// own slot), as the identity abstraction is.
pub open spec fn fan_self_loop<C: NetClassMarker>(net: &Net<Proper, C>, fan_p: PortId) -> bool {
    let f = net.slots()[raw_slot(fan_p.0) as int];
    raw_slot(f.aux0) == raw_slot(fan_p.0) && raw_slot(f.aux1) == raw_slot(fan_p.0)
}

/// Wire `a` and `b` to each other.
pub open spec fn wire2(s: Seq<Slot>, a: PortId, b: PortId) -> Seq<Slot> {
    write_slots(write_slots(s, a, b), b, a)
}

/// The wires a commutation of agents `fan` and `rep` lays on the slots
/// `mid` that hold the four new agents (copies `f0`, `f1` of the first and
/// `ra`, `rb` of the second): each first copy's auxiliaries to the second
/// copies' auxiliaries (first to first), the first copies' principals to
/// the second agent's old peers, and the second copies' principals to the
/// first agent's old peers.
pub open spec fn commuted_slots(
    mid: Seq<Slot>,
    f0: AgentPorts,
    f1: AgentPorts,
    ra: AgentPorts,
    rb: AgentPorts,
    fan: Slot,
    rep: Slot,
) -> Seq<Slot> {
    let inner = wire2(
        wire2(wire2(wire2(mid, f0.aux0, ra.aux0), f0.aux1, rb.aux0), f1.aux0, ra.aux1),
        f1.aux1,
        rb.aux1,
    );
    wire2(
        wire2(wire2(wire2(inner, f0.principal, PortId(rep.aux0)), f1.principal, PortId(rep.aux1)), ra.principal, PortId(fan.aux0)),
        rb.principal,
        PortId(fan.aux1),
    )
}

/// The wires of a self-looped fan meeting a replicator: each of the two
/// fan copies on `mid` loops on itself, and their principals take the
/// replicator's old peers.
pub open spec fn duplicated_slots(mid: Seq<Slot>, f0: AgentPorts, f1: AgentPorts, rep: Slot) -> Seq<Slot> {
    wire2(
        wire2(wire2(wire2(mid, f0.aux0, f0.aux1), f1.aux0, f1.aux1), f0.principal, PortId(rep.aux0)),
        f1.principal,
        PortId(rep.aux1),
    )
}

/// `p` are the ports of a fresh agent of `mid` with the given labels.
pub open spec fn fresh_ports(mid: Seq<Slot>, p: AgentPorts, tag: u8, data: u16, delta0: i16, delta1: i16) -> bool {
    let i = raw_slot(p.principal.0);
    &&& 0 < i < mid.len()
    &&& fresh_agent(mid[i as int], tag, data, delta0, delta1)
    &&& p == ports_of(i, mid[i as int].generation)
}

/// What a fan meeting a replicator does to the net: the success and error
/// conditions, both agents retired, and the four fresh copies wired in (a
/// self-looped fan is duplicated).
pub open spec fn r5_done<C: NetClassMarker>(
    before: &Net<Proper, C>,
    after: &Net<Proper, C>,
    fan_p: PortId,
    rep_p: PortId,
    lo: LOPath,
    r: Result<(), DnxError>,
) -> bool {
    let fan = before.slots()[raw_slot(fan_p.0) as int];
    let rep = before.slots()[raw_slot(rep_p.0) as int];
    let ft = if tag_bit0(fan.tag) { TAG_FAN_ABS } else { TAG_FAN_APP };
    let ta = if tag_bit0(fan.tag) { TAG_REP_IN_UNKNOWN } else { TAG_REP_OUT_UNKNOWN };
    let tb = if tag_bit0(fan.tag) { TAG_REP_OUT_UNKNOWN } else { TAG_REP_IN_UNKNOWN };
    &&& before.avail() < 2 ==> r == Err::<(), DnxError>(DnxError::ArenaCapacityExceeded)
    &&& before.avail() >= 2 && lo.spec_depth() >= 511 ==> r == Err::<(), DnxError>(
        DnxError::LOPathDepthExceeded,
    )
    &&& before.avail() >= 4 && lo.spec_depth() < 511 ==> r is Ok
    &&& r matches Err(e) ==> e == DnxError::ArenaCapacityExceeded || e == DnxError::LOPathDepthExceeded
    &&& r is Ok ==> !after.arena.has_live(raw_slot(fan_p.0))
    &&& r is Ok ==> !after.arena.has_live(raw_slot(rep_p.0))
    &&& r is Ok ==> forall|x: u32|
        before.arena.has_live(x) && x != raw_slot(fan_p.0) && x != raw_slot(rep_p.0)
            ==> #[trigger] after.arena.has_live(x)
    &&& r is Ok ==> exists|f: u32| is_new_agent(before, after, f, 0, 0, 0)
    &&& r is Ok && !fan_self_loop(before, fan_p) ==> exists|q: u32|
        is_new_agent(before, after, q, rep.data, rep.delta0, rep.delta1)
    &&& r is Ok && raw_slot(fan_p.0) != raw_slot(rep_p.0) ==> after.arena.live_list@.len()
        == before.arena.live_list@.len() + (if fan_self_loop(before, fan_p) {
        0int
    } else {
        2int
    })
    &&& r is Ok && !fan_self_loop(before, fan_p) ==> exists|
        mid: Seq<Slot>,
        f0: AgentPorts,
        f1: AgentPorts,
        ra: AgentPorts,
        rb: AgentPorts,
    |
        {
            &&& after.slots() == #[trigger] commuted_slots(mid, f0, f1, ra, rb, fan, rep)
            &&& fresh_ports(mid, f0, ft, 0, 0, 0)
            &&& fresh_ports(mid, f1, ft, 0, 0, 0)
            &&& fresh_ports(mid, ra, ta, rep.data, rep.delta0, rep.delta1)
            &&& fresh_ports(mid, rb, tb, rep.data, rep.delta0, rep.delta1)
            &&& forall|j: int|
                0 <= j < before.n_slots() && j != raw_slot(f0.principal.0) && j != raw_slot(
                    f1.principal.0,
                ) && j != raw_slot(ra.principal.0) && j != raw_slot(rb.principal.0)
                    ==> #[trigger] mid[j] == before.slots()[j]
        }
    &&& r is Ok && fan_self_loop(before, fan_p) ==> exists|mid: Seq<Slot>, f0: AgentPorts, f1: AgentPorts|
        {
            &&& after.slots() == #[trigger] duplicated_slots(mid, f0, f1, rep)
            &&& fresh_ports(mid, f0, ft, 0, 0, 0)
            &&& fresh_ports(mid, f1, ft, 0, 0, 0)
            &&& forall|j: int|
                0 <= j < before.n_slots() && j != raw_slot(f0.principal.0) && j != raw_slot(
                    f1.principal.0,
                ) ==> #[trigger] mid[j] == before.slots()[j]
        }
}

/// A fan meets a replicator: the replicator is copied onto both auxiliary
/// ports of the fan, and the fan onto both auxiliary ports of the
/// replicator; the copies keep the replicator's level and deltas and lose
/// its unpaired status. A self-looped fan is simply duplicated.
#[verifier::spinoff_prover]
#[verifier::rlimit(50)]
pub fn r5_fan_rep<C: NetClassMarker>(
    net: &mut Net<Proper, C>,
    fan_p: PortId,
    rep_p: PortId,
    lo: &LOPath,
) -> (r: Result<(), DnxError>)
    requires
        old(net).wf(),
        lo.wf(),
        port_in(fan_p, old(net).n_slots()),
        port_in(rep_p, old(net).n_slots()),
        old(net).arena.has_live(raw_slot(fan_p.0)),
        old(net).arena.has_live(raw_slot(rep_p.0)),
    ensures
        final(net).n_slots() >= old(net).n_slots(),
        final(net).wf(),
        final(net).arena.cap == old(net).arena.cap,
        r5_done(old(net), final(net), fan_p, rep_p, *lo, r),
{
    let fan = *net.slot(fan_p);
    let rep = *net.slot(rep_p);
    proof {
        net.lemma_words_in(raw_slot(fan_p.0) as int);
        net.lemma_words_in(raw_slot(rep_p.0) as int);
    }
    let is_abs = fan.fan_is_abs();
    let fan_tag = if is_abs {
        TAG_FAN_ABS
    } else {
        TAG_FAN_APP
    };
    let ext_a = PortId::from_raw(fan.aux0);
    let ext_b = PortId::from_raw(fan.aux1);
    let ext_c = PortId::from_raw(rep.aux0);
    let ext_d = PortId::from_raw(rep.aux1);
    let ghost n0 = *net;
    let f0 = match net.alloc_agent(fan_tag, 0, 0, 0) {
        Ok(a) => a,
        Err(e) => {
            return Err(e);
        },
    };
    let ghost n1 = *net;
    let f1 = match net.alloc_agent(fan_tag, 0, 0, 0) {
        Ok(a) => a,
        Err(e) => {
            return Err(e);
        },
    };
    let ghost n2 = *net;
    let l = match left(lo) {
        Ok(v) => v,
        Err(e) => {
            return Err(e);
        },
    };
    let rr = match right(lo) {
        Ok(v) => v,
        Err(e) => {
            return Err(e);
        },
    };
    let lo_00 = match left(&l) {
        Ok(v) => v,
        Err(e) => {
            return Err(e);
        },
    };
    let lo_01 = match right(&l) {
        Ok(v) => v,
        Err(e) => {
            return Err(e);
        },
    };
    let lo_10 = match left(&rr) {
        Ok(v) => v,
        Err(e) => {
            return Err(e);
        },
    };
    let lo_11 = match right(&rr) {
        Ok(v) => v,
        Err(e) => {
            return Err(e);
        },
    };
    let ghost i0 = raw_slot(f0.principal.0);
    let ghost i1 = raw_slot(f1.principal.0);
    proof {
        crate::net::lemma_ports_of(i0, n1.slots()[i0 as int].generation);
        crate::net::lemma_ports_of(i1, n2.slots()[i1 as int].generation);
    }
    if ext_a.slot_idx() == fan_p.slot_idx() && ext_b.slot_idx() == fan_p.slot_idx() {
        net.retire(fan_p.slot_idx());
        net.retire(rep_p.slot_idx());
        let _ = net.connect(f0.aux0, f0.aux1, l);
        let _ = net.connect(f1.aux0, f1.aux1, rr);
        let _ = net.connect(f0.principal, ext_c, lo_00);
        let _ = net.connect(f1.principal, ext_d, lo_01);
        proof {
            assert(is_new_agent(old(net), net, i0, 0, 0, 0));
            let mid = n2.slots();
            assert(net.slots() == duplicated_slots(mid, f0, f1, rep));
            assert(fresh_ports(mid, f0, fan_tag, 0, 0, 0));
            assert(fresh_ports(mid, f1, fan_tag, 0, 0, 0));
        }
        return Ok(());
    }
    let (ra_tag, rb_tag) = if is_abs {
        (TAG_REP_IN_UNKNOWN, TAG_REP_OUT_UNKNOWN)
    } else {
        (TAG_REP_OUT_UNKNOWN, TAG_REP_IN_UNKNOWN)
    };
    let ra = match net.alloc_agent(ra_tag, rep.data, rep.delta0, rep.delta1) {
        Ok(a) => a,
        Err(e) => {
            return Err(e);
        },
    };
    let ghost n3 = *net;
    let rb = match net.alloc_agent(rb_tag, rep.data, rep.delta0, rep.delta1) {
        Ok(a) => a,
        Err(e) => {
            return Err(e);
        },
    };
    let ghost n4 = *net;
    let ghost j0 = raw_slot(ra.principal.0);
    let ghost j1 = raw_slot(rb.principal.0);
    proof {
        crate::net::lemma_ports_of(j0, n3.slots()[j0 as int].generation);
        crate::net::lemma_ports_of(j1, n4.slots()[j1 as int].generation);
    }
    net.retire(fan_p.slot_idx());
    net.retire(rep_p.slot_idx());
    let (ra_lo, rb_lo) = if is_abs {
        (lo_10, lo_11)
    } else {
        (lo_11, lo_10)
    };
    let _ = net.connect(f0.aux0, ra.aux0, *lo);
    let _ = net.connect(f0.aux1, rb.aux0, *lo);
    let _ = net.connect(f1.aux0, ra.aux1, *lo);
    let _ = net.connect(f1.aux1, rb.aux1, *lo);
    let _ = net.connect(f0.principal, ext_c, lo_00);
    let _ = net.connect(f1.principal, ext_d, lo_01);
    let _ = net.connect(ra.principal, ext_a, ra_lo);
    let _ = net.connect(rb.principal, ext_b, rb_lo);
    proof {
        assert(is_new_agent(old(net), net, i0, 0, 0, 0));
        assert(is_new_agent(old(net), net, j0, rep.data, rep.delta0, rep.delta1));
        let mid = n4.slots();
        assert(net.slots() == commuted_slots(mid, f0, f1, ra, rb, fan, rep));
        assert(fresh_ports(mid, f0, fan_tag, 0, 0, 0));
        assert(fresh_ports(mid, f1, fan_tag, 0, 0, 0));
        assert(fresh_ports(mid, ra, ra_tag, rep.data, rep.delta0, rep.delta1));
        assert(fresh_ports(mid, rb, rb_tag, rep.data, rep.delta0, rep.delta1));
    }
    Ok(())
}

} // verus!
