//! The canonicalization rules: merging an unpaired replicator into the
//! replicator below it, decaying an unpaired replicator that lost its
//! branches, replicating past an application, and the final sweep of
//! agents no root reaches.
use vstd::prelude::*;
use crate::arena::{Arena, slot_closed};
use crate::class::{NetClassMarker, Proper};
use crate::error::DnxError;
use crate::lopath::LOPath;
use crate::net::{AgentPorts, Net, port_in, write_slots};
use crate::port::{PortId, PortKind, era_raw, lemma_sentinels, raw_is_eraser, raw_kind, raw_slot};
use crate::reduce::rules::{fresh_ports, live_after_retire, is_new_agent, mark_erased, wire2};
use crate::slot::{
    Slot, TAG_FAN_APP, TAG_REP_IN_UNKNOWN, tag_aux0_erased, tag_aux1_erased, tag_is_rep,
    tag_unpaired,
};

verus! {

/// A resolved merge: the replicator to fold into, the external port of the
/// unpaired replicator, and the new contents of the target.
#[derive(Clone, Copy, Debug)]
pub struct C2Merge {
    pub rep_b: PortId,
    pub ext: PortId,
    pub b_shifted: Slot,
}

/// Auxiliary port `i` of unpaired replicator `a` leads to a replicator `b`
/// whose level is at least that of `a` and at most `a`'s level plus the
/// delta of that port, while the other auxiliary port is erased.
pub open spec fn c2_side_ok(a: Slot, slots: Seq<Slot>, i: int) -> bool {
    let other_erased = if i == 0 {
        tag_aux1_erased(a.tag)
    } else {
        tag_aux0_erased(a.tag)
    };
    let rb = if i == 0 {
        a.aux0
    } else {
        a.aux1
    };
    let d = if i == 0 {
        a.delta0
    } else {
        a.delta1
    };
    &&& other_erased
    &&& !raw_is_eraser(rb)
    &&& rb != 0
    &&& raw_kind(rb) == PortKind::Principal
    &&& tag_is_rep(slots[raw_slot(rb) as int].tag)
    &&& 0 <= slots[raw_slot(rb) as int].data - a.data <= d
}

/// The merge through side `i`: the target takes `a`'s level and its deltas
/// grow by the level difference, so every level it reaches is unchanged.
pub open spec fn c2_merge_at(a: Slot, slots: Seq<Slot>, i: int) -> Result<Option<C2Merge>, DnxError> {
    let rb = if i == 0 {
        a.aux0
    } else {
        a.aux1
    };
    let b = slots[raw_slot(rb) as int];
    let diff = b.data - a.data;
    if !(-32768 <= b.delta0 + diff <= 32767) || !(-32768 <= b.delta1 + diff <= 32767) {
        Err(DnxError::DeltaOverflow)
    } else {
        Ok(
            Some(
                C2Merge {
                    rep_b: PortId(rb),
                    ext: PortId(a.principal),
                    b_shifted: Slot {
                        delta0: (b.delta0 + diff) as i16,
                        delta1: (b.delta1 + diff) as i16,
                        data: a.data,
                        ..b
                    },
                },
            ),
        )
    }
}

/// The merge decision for replicator `a`: the first qualifying side, if
/// `a` is unpaired.
pub open spec fn c2_spec(a: Slot, slots: Seq<Slot>) -> Result<Option<C2Merge>, DnxError> {
    if !tag_unpaired(a.tag) {
        Ok(None)
    } else if c2_side_ok(a, slots, 0) {
        c2_merge_at(a, slots, 0)
    } else if c2_side_ok(a, slots, 1) {
        c2_merge_at(a, slots, 1)
    } else {
        Ok(None)
    }
}

/// Decide whether unpaired replicator `a` merges into a neighbour, and the
/// neighbour's shifted contents. Reads the slots, changes nothing.
pub fn c2_gate_and_shift(a: &Slot, arena: &Arena) -> (r: Result<Option<C2Merge>, DnxError>)
    requires
        arena.wf(),
        slot_closed(*a, arena.slots@.len() as int),
    ensures
        r == c2_spec(*a, arena.slots@),
{
    if !a.rep_is_unpaired() {
        return Ok(None);
    }
    let mut i: u8 = 0;
    while i < 2
        invariant
            i <= 2,
            arena.wf(),
            slot_closed(*a, arena.slots@.len() as int),
            tag_unpaired(a.tag),
            i >= 1 ==> !c2_side_ok(*a, arena.slots@, 0),
            i >= 2 ==> !c2_side_ok(*a, arena.slots@, 1),
        decreases 2 - i,
    {
        let other_erased = if i == 0 {
            a.rep_aux1_erased()
        } else {
            a.rep_aux0_erased()
        };
        if other_erased {
            let rep_b = PortId::from_raw(if i == 0 {
                a.aux0
            } else {
                a.aux1
            });
            if !rep_b.is_eraser() && !rep_b.is_null() && rep_b.port_kind() == PortKind::Principal {
                let b = *arena.slot(rep_b.slot_idx());
                if b.is_rep() {
                    let delta_i: i32 = if i == 0 {
                        a.delta0 as i32
                    } else {
                        a.delta1 as i32
                    };
                    let diff: i32 = b.data as i32 - a.data as i32;
                    if 0 <= diff && diff <= delta_i {
                        let shift = diff as i16;
                        let d0 = match b.delta0.checked_add(shift) {
                            Some(v) => v,
                            None => {
                                return Err(DnxError::DeltaOverflow);
                            },
                        };
                        let d1 = match b.delta1.checked_add(shift) {
                            Some(v) => v,
                            None => {
                                return Err(DnxError::DeltaOverflow);
                            },
                        };
                        let b_shifted = Slot { delta0: d0, delta1: d1, data: a.data, ..b };
                        return Ok(
                            Some(C2Merge { rep_b, ext: PortId::from_raw(a.principal), b_shifted }),
                        );
                    }
                }
            }
        }
        i = i + 1;
    }
    Ok(None)
}


/// What replicator merging does to the net, from the replicator at
/// `rep_a`: nothing (with `DeltaOverflow` when the shifted labels do not
/// fit), or the partner takes the shifted labels and is wired past `rep_a`,
/// which is retired.
pub open spec fn c2_done<C: NetClassMarker>(
    before: &Net<Proper, C>,
    after: &Net<Proper, C>,
    rep_a: PortId,
    r: Result<(), DnxError>,
) -> bool {
    let a = before.slots()[raw_slot(rep_a.0) as int];
    &&& c2_spec(a, before.slots()) is Err ==> r == Err::<(), DnxError>(DnxError::DeltaOverflow)
        && *after == *before
    &&& c2_spec(a, before.slots()) == Ok::<Option<C2Merge>, DnxError>(None) ==> r is Ok && *after
        == *before
    &&& c2_spec(a, before.slots()) matches Ok(Some(m)) ==> {
        &&& r is Ok
        &&& live_after_retire(before, after, raw_slot(rep_a.0), raw_slot(rep_a.0))
        &&& after.slots()[raw_slot(m.rep_b.0) as int].data == m.b_shifted.data
        &&& after.slots()[raw_slot(m.rep_b.0) as int].delta0 == m.b_shifted.delta0
        &&& after.slots()[raw_slot(m.rep_b.0) as int].delta1 == m.b_shifted.delta1
        &&& after.slots() == wire2(
            before.slots().update(raw_slot(m.rep_b.0) as int, m.b_shifted),
            m.rep_b,
            m.ext,
        )
    }
}

/// What replicator decay does to the net, from the replicator at `rep_p`:
/// with both auxiliaries erased its principal peer is erased; with one
/// erased the other is wired to the principal peer; the replicator is then
/// retired. Otherwise nothing changes.
pub open spec fn c3_done<C: NetClassMarker>(before: &Net<Proper, C>, after: &Net<Proper, C>, rep_p: PortId) -> bool {
    let rep = before.slots()[raw_slot(rep_p.0) as int];
    &&& c3_both(rep) || c3_keep1(rep) || c3_keep0(rep) ==> live_after_retire(
        before,
        after,
        raw_slot(rep_p.0),
        raw_slot(rep_p.0),
    )
    &&& c3_both(rep) ==> after.slots() == write_slots(
        mark_erased(before.slots(), PortId(rep.principal)),
        PortId(rep.principal),
        PortId(era_raw()),
    )
    &&& c3_keep1(rep) ==> after.slots() == crate::net::write_slots(
        crate::net::write_slots(before.slots(), PortId(rep.principal), PortId(rep.aux1)),
        PortId(rep.aux1),
        PortId(rep.principal),
    )
    &&& c3_keep0(rep) ==> after.slots() == crate::net::write_slots(
        crate::net::write_slots(before.slots(), PortId(rep.principal), PortId(rep.aux0)),
        PortId(rep.aux0),
        PortId(rep.principal),
    )
    &&& !(c3_both(rep) || c3_keep1(rep) || c3_keep0(rep)) ==> *after == *before
}

/// Merge an unpaired replicator into the replicator on its surviving side
/// when the merge gate admits it: the target takes over the unpaired
/// replicator's level and external wire.
pub fn c2_rep_merge<C: NetClassMarker>(net: &mut Net<Proper, C>, rep_a: PortId, lo: &LOPath) -> (r: Result<
    (),
    DnxError,
>)
    requires
        old(net).wf(),
        lo.wf(),
        port_in(rep_a, old(net).n_slots()),
    ensures
        final(net).wf(),
        final(net).n_slots() == old(net).n_slots(),
        final(net).arena.cap == old(net).arena.cap,
        c2_done(old(net), final(net), rep_a, r),
{
    let a = *net.slot(rep_a);
    proof {
        assert(slot_closed(net.slots()[raw_slot(rep_a.0) as int], net.n_slots()));
    }
    let g = c2_gate_and_shift(&a, &net.arena);
    match g {
        Err(e) => Err(e),
        Ok(None) => Ok(()),
        Ok(Some(m)) => {
            proof {
                let rb = raw_slot(m.rep_b.0) as int;
                assert(slot_closed(net.slots()[rb], net.n_slots()));
                net.lemma_words_in(raw_slot(rep_a.0) as int);
            }
            net.set_slot_at(m.rep_b, m.b_shifted);
            net.retire(rep_a.slot_idx());
            let _ = net.connect(m.rep_b, m.ext, *lo);
            proof {
                let i = raw_slot(rep_a.0);
                assert(net.arena.live_pos@.dom() =~= old(net).arena.live_pos@.dom().remove(i).remove(i));
            }
            Ok(())
        },
    }
}

/// Both auxiliary ports erased and unpaired.
pub open spec fn c3_both(rep: Slot) -> bool {
    tag_aux0_erased(rep.tag) && tag_aux1_erased(rep.tag) && tag_unpaired(rep.tag)
}

/// The first auxiliary port erased and the second, of delta zero, alive.
pub open spec fn c3_keep1(rep: Slot) -> bool {
    tag_aux0_erased(rep.tag) && !tag_aux1_erased(rep.tag) && rep.delta1 == 0
}

/// The second auxiliary port erased and the first, of delta zero, alive.
pub open spec fn c3_keep0(rep: Slot) -> bool {
    !tag_aux0_erased(rep.tag) && tag_aux1_erased(rep.tag) && rep.delta0 == 0
}

/// Decay of a replicator that lost branches: with both branches erased (and
/// unpaired) the eraser moves up past it; with one branch erased and the
/// other of level delta zero it is a plain wire and is cut out, whatever
/// its pairing. Otherwise nothing changes.
pub fn c3_rep_decay<C: NetClassMarker>(net: &mut Net<Proper, C>, rep_p: PortId, lo: &LOPath) -> (r: Result<
    (),
    DnxError,
>)
    requires
        old(net).wf(),
        lo.wf(),
        port_in(rep_p, old(net).n_slots()),
    ensures
        r is Ok,
        final(net).wf(),
        final(net).n_slots() == old(net).n_slots(),
        final(net).arena.cap == old(net).arena.cap,
        c3_done(old(net), final(net), rep_p),
{
    let rep = *net.slot(rep_p);
    proof {
        net.lemma_words_in(raw_slot(rep_p.0) as int);
        lemma_sentinels();
    }
    let ext = PortId::from_raw(rep.principal);
    let e0 = rep.rep_aux0_erased();
    let e1 = rep.rep_aux1_erased();
    if e0 && e1 && rep.rep_is_unpaired() {
        net.set_eraser_on_port(ext);
        net.retire(rep_p.slot_idx());
        let _ = net.connect(PortId::era(), ext, *lo);
    } else if e0 && !e1 && rep.delta1 == 0 {
        let a1p = PortId::from_raw(rep.aux1);
        net.retire(rep_p.slot_idx());
        let _ = net.connect(ext, a1p, *lo);
    } else if !e0 && e1 && rep.delta0 == 0 {
        let a0p = PortId::from_raw(rep.aux0);
        net.retire(rep_p.slot_idx());
        let _ = net.connect(ext, a0p, *lo);
    } else {
        return Ok(());
    }
    proof {
        let i = raw_slot(rep_p.0);
        assert(net.arena.live_pos@.dom() =~= old(net).arena.live_pos@.dom().remove(i).remove(i));
    }
    Ok(())
}


/// The wires of aux-fan replication on the slots `mid` that hold the four
/// new agents: the new replicator `nr` takes the application's old result
/// wire and feeds the two application copies `a0`, `a1` through its
/// auxiliaries; their arguments meet the argument replicator `na`, which
/// takes the application's old argument wire; their functions take the old
/// replicator's auxiliary peers.
pub open spec fn replicated_slots(
    mid: Seq<Slot>,
    nr: AgentPorts,
    na: AgentPorts,
    a0: AgentPorts,
    a1: AgentPorts,
    app: Slot,
    rep: Slot,
) -> Seq<Slot> {
    let inner = wire2(
        wire2(wire2(wire2(mid, nr.aux0, a0.principal), nr.aux1, a1.principal), a0.aux1, na.aux0),
        a1.aux1,
        na.aux1,
    );
    wire2(
        wire2(wire2(wire2(inner, a0.aux0, PortId(rep.aux0)), a1.aux0, PortId(rep.aux1)), nr.principal, PortId(app.principal)),
        na.principal,
        PortId(app.aux1),
    )
}

/// The slot words after an application whose function is erased meets a
/// replicator: its result and argument peers marked erased and wired to the
/// eraser.
pub open spec fn erased_app_slots(slots: Seq<Slot>, app: Slot) -> Seq<Slot> {
    let up = PortId(app.principal);
    let arg = PortId(app.aux1);
    let era = PortId(era_raw());
    write_slots(write_slots(mark_erased(mark_erased(slots, up), arg), up, era), arg, era)
}


/// Replication past an application: a replicator whose principal meets the
/// first auxiliary port of an application moves above it. The application
/// is copied once per branch, its argument gathered by a second replicator;
/// both replicators keep the original's level and deltas. An application
/// whose result is already erased is erased instead.
#[verifier::spinoff_prover]
#[verifier::rlimit(50)]
pub fn c4_aux_fan_replication<C: NetClassMarker>(
    net: &mut Net<Proper, C>,
    cand: &crate::net::C4Candidate,
) -> (r: Result<(), DnxError>)
    requires
        old(net).wf(),
        cand.lo.wf(),
        port_in(cand.app_aux0, old(net).n_slots()),
        port_in(cand.rep_principal, old(net).n_slots()),
        old(net).arena.has_live(raw_slot(cand.app_aux0.0)),
        old(net).arena.has_live(raw_slot(cand.rep_principal.0)),
    ensures
        final(net).n_slots() >= old(net).n_slots(),
        final(net).wf(),
        final(net).arena.cap == old(net).arena.cap,
        r matches Err(e) ==> e == DnxError::ArenaCapacityExceeded || e == DnxError::LOPathDepthExceeded,
        ({
            let app = old(net).slots()[raw_slot(cand.app_aux0.0) as int];
            let rep = old(net).slots()[raw_slot(cand.rep_principal.0) as int];
            let ai = raw_slot(cand.app_aux0.0);
            let ri = raw_slot(cand.rep_principal.0);
            &&& raw_is_eraser(app.aux0) ==> (cand.lo.spec_depth() < 512 <==> r is Ok)
            &&& raw_is_eraser(app.aux0) && r is Ok ==> live_after_retire(old(net), final(net), ai, ri)
            &&& !raw_is_eraser(app.aux0) && old(net).avail() < 4 ==> r == Err::<(), DnxError>(
                DnxError::ArenaCapacityExceeded,
            )
            &&& !raw_is_eraser(app.aux0) && old(net).avail() >= 4 && cand.lo.spec_depth() >= 511
                ==> r == Err::<(), DnxError>(DnxError::LOPathDepthExceeded)
            &&& !raw_is_eraser(app.aux0) && old(net).avail() >= 4 && cand.lo.spec_depth() < 511
                ==> r is Ok
            &&& !raw_is_eraser(app.aux0) && r is Ok ==> {
                &&& !final(net).arena.has_live(ai)
                &&& !final(net).arena.has_live(ri)
                &&& forall|x: u32|
                    old(net).arena.has_live(x) && x != ai && x != ri ==> #[trigger] final(net).arena.has_live(x)
                &&& exists|q: u32| is_new_agent(old(net), final(net), q, rep.data, rep.delta0, rep.delta1)
                &&& ai != ri ==> final(net).arena.live_list@.len() == old(net).arena.live_list@.len() + 2
                &&& exists|
                    mid: Seq<Slot>,
                    nr: AgentPorts,
                    na: AgentPorts,
                    a0: AgentPorts,
                    a1: AgentPorts,
                |
                    {
                        &&& final(net).slots() == #[trigger] replicated_slots(mid, nr, na, a0, a1, app, rep)
                        &&& fresh_ports(mid, nr, TAG_REP_IN_UNKNOWN, rep.data, rep.delta0, rep.delta1)
                        &&& fresh_ports(mid, na, TAG_REP_IN_UNKNOWN, rep.data, rep.delta0, rep.delta1)
                        &&& fresh_ports(mid, a0, TAG_FAN_APP, 0, 0, 0)
                        &&& fresh_ports(mid, a1, TAG_FAN_APP, 0, 0, 0)
                        &&& forall|j: int|
                            0 <= j < old(net).n_slots() && j != raw_slot(nr.principal.0) && j != raw_slot(
                                na.principal.0,
                            ) && j != raw_slot(a0.principal.0) && j != raw_slot(a1.principal.0)
                                ==> #[trigger] mid[j] == old(net).slots()[j]
                    }
            }
            &&& raw_is_eraser(app.aux0) && r is Ok ==> final(net).slots() == erased_app_slots(old(net).slots(), app)
        }),
{
    let app_aux0 = cand.app_aux0;
    let rep_p = cand.rep_principal;
    let lo = &cand.lo;
    let app = *net.slot(app_aux0);
    let rep = *net.slot(rep_p);
    proof {
        net.lemma_words_in(raw_slot(app_aux0.0) as int);
        net.lemma_words_in(raw_slot(rep_p.0) as int);
        lemma_sentinels();
    }
    if PortId::from_raw(app.aux0).is_eraser() {
        let l = match crate::reduce::rules::left(lo) {
            Ok(v) => v,
            Err(e) => {
                return Err(e);
            },
        };
        let rr = match crate::reduce::rules::right(lo) {
            Ok(v) => v,
            Err(e) => {
                return Err(e);
            },
        };
        let up = PortId::from_raw(app.principal);
        let arg = PortId::from_raw(app.aux1);
        net.set_eraser_on_port(up);
        net.set_eraser_on_port(arg);
        net.retire(app_aux0.slot_idx());
        net.retire(rep_p.slot_idx());
        let _ = net.connect(PortId::era(), up, l);
        let _ = net.connect(PortId::era(), arg, rr);
        proof {
            let ai = raw_slot(app_aux0.0);
            let ri = raw_slot(rep_p.0);
            assert(net.arena.live_pos@.dom() =~= old(net).arena.live_pos@.dom().remove(ai).remove(ri));
        }
        return Ok(());
    }
    let ext_up = PortId::from_raw(app.principal);
    let ext_arg = PortId::from_raw(app.aux1);
    let ext_c = PortId::from_raw(rep.aux0);
    let ext_d = PortId::from_raw(rep.aux1);
    let new_rep = match net.alloc_agent(TAG_REP_IN_UNKNOWN, rep.data, rep.delta0, rep.delta1) {
        Ok(a) => a,
        Err(e) => {
            return Err(e);
        },
    };
    let ghost n1 = *net;
    let new_arg = match net.alloc_agent(TAG_REP_IN_UNKNOWN, rep.data, rep.delta0, rep.delta1) {
        Ok(a) => a,
        Err(e) => {
            return Err(e);
        },
    };
    let ghost n2 = *net;
    let app0 = match net.alloc_agent(TAG_FAN_APP, 0, 0, 0) {
        Ok(a) => a,
        Err(e) => {
            return Err(e);
        },
    };
    let ghost n3 = *net;
    let app1 = match net.alloc_agent(TAG_FAN_APP, 0, 0, 0) {
        Ok(a) => a,
        Err(e) => {
            return Err(e);
        },
    };
    let ghost n4 = *net;
    let l = match crate::reduce::rules::left(lo) {
        Ok(v) => v,
        Err(e) => {
            return Err(e);
        },
    };
    let rr = match crate::reduce::rules::right(lo) {
        Ok(v) => v,
        Err(e) => {
            return Err(e);
        },
    };
    let ll = match crate::reduce::rules::left(&l) {
        Ok(v) => v,
        Err(e) => {
            return Err(e);
        },
    };
    let lr = match crate::reduce::rules::right(&l) {
        Ok(v) => v,
        Err(e) => {
            return Err(e);
        },
    };
    let rl = match crate::reduce::rules::left(&rr) {
        Ok(v) => v,
        Err(e) => {
            return Err(e);
        },
    };
    let r2 = match crate::reduce::rules::right(&rr) {
        Ok(v) => v,
        Err(e) => {
            return Err(e);
        },
    };
    let ghost q0 = raw_slot(new_rep.principal.0);
    proof {
        crate::net::lemma_ports_of(q0, n1.slots()[q0 as int].generation);
        crate::net::lemma_ports_of(raw_slot(new_arg.principal.0), n2.slots()[raw_slot(new_arg.principal.0) as int].generation);
        crate::net::lemma_ports_of(raw_slot(app0.principal.0), n3.slots()[raw_slot(app0.principal.0) as int].generation);
        crate::net::lemma_ports_of(raw_slot(app1.principal.0), n4.slots()[raw_slot(app1.principal.0) as int].generation);
    }
    net.retire(app_aux0.slot_idx());
    net.retire(rep_p.slot_idx());
    let _ = net.connect(new_rep.aux0, app0.principal, *lo);
    let _ = net.connect(new_rep.aux1, app1.principal, *lo);
    let _ = net.connect(app0.aux1, new_arg.aux0, *lo);
    let _ = net.connect(app1.aux1, new_arg.aux1, *lo);
    let _ = net.connect(app0.aux0, ext_c, ll);
    let _ = net.connect(app1.aux0, ext_d, lr);
    let _ = net.connect(new_rep.principal, ext_up, rl);
    let _ = net.connect(new_arg.principal, ext_arg, r2);
    proof {
        assert(is_new_agent(old(net), net, q0, rep.data, rep.delta0, rep.delta1));
        let mid = n4.slots();
        assert(net.slots() == replicated_slots(mid, new_rep, new_arg, app0, app1, app, rep));
        assert(fresh_ports(mid, new_rep, TAG_REP_IN_UNKNOWN, rep.data, rep.delta0, rep.delta1));
        assert(fresh_ports(mid, new_arg, TAG_REP_IN_UNKNOWN, rep.data, rep.delta0, rep.delta1));
        assert(fresh_ports(mid, app0, TAG_FAN_APP, 0, 0, 0));
        assert(fresh_ports(mid, app1, TAG_FAN_APP, 0, 0, 0));
    }
    Ok(())
}


/// The slots the roots name (not the sentinel, and inside the arena).
pub open spec fn root_slot_set(roots: Seq<(String, PortId)>, n: int) -> Set<u32> {
    Set::new(
        |x: u32|
            x != 0 && x < n && exists|i: int|
                0 <= i < roots.len() && raw_slot((#[trigger] roots[i]).1.0) == x,
    )
}

/// A wire leads from slot `x` to slot `y` (the sentinel excluded).
pub open spec fn wire_step(slots: Seq<Slot>, x: u32, y: u32) -> bool {
    &&& 0 <= x < slots.len()
    &&& y != 0
    &&& (raw_slot(slots[x as int].principal) == y || raw_slot(slots[x as int].aux0) == y
        || raw_slot(slots[x as int].aux1) == y)
}

/// `path` starts at a root and follows wires.
pub open spec fn is_wire_path(slots: Seq<Slot>, roots: Set<u32>, path: Seq<u32>) -> bool {
    &&& path.len() > 0
    &&& roots.contains(path[0])
    &&& forall|i: int| 0 <= i < path.len() - 1 ==> wire_step(slots, #[trigger] path[i], path[i + 1])
}

/// Slot `y` is reached from `roots` by wires.
pub open spec fn reachable(slots: Seq<Slot>, roots: Set<u32>, y: u32) -> bool {
    exists|path: Seq<u32>| #[trigger] is_wire_path(slots, roots, path) && path.last() == y
}

/// The number of unmarked entries.
pub open spec fn n_unmarked(v: Seq<bool>) -> nat
    decreases v.len(),
{
    if v.len() == 0 {
        0
    } else {
        n_unmarked(v.drop_last()) + if v.last() {
            0nat
        } else {
            1nat
        }
    }
}

proof fn lemma_mark_one(v: Seq<bool>, i: int)
    requires
        0 <= i < v.len(),
        !v[i],
    ensures
        n_unmarked(v.update(i, true)) + 1 == n_unmarked(v),
    decreases v.len(),
{
    let w = v.update(i, true);
    if i == v.len() - 1 {
        assert(w.drop_last() =~= v.drop_last());
    } else {
        lemma_mark_one(v.drop_last(), i);
        assert(w.drop_last() =~= v.drop_last().update(i, true));
    }
}

/// Whatever a closed marking contains the roots of, it contains every
/// slot on a wire path.
proof fn lemma_closed_covers(slots: Seq<Slot>, roots: Set<u32>, marked: Seq<bool>, path: Seq<u32>, i: int)
    requires
        marked.len() == slots.len(),
        forall|x: u32| #[trigger] roots.contains(x) ==> x < marked.len() && marked[x as int],
        forall|x: u32, z: u32|
            x < marked.len() && marked[x as int] && #[trigger] wire_step(slots, x, z) ==> z
                < marked.len() && marked[z as int],
        is_wire_path(slots, roots, path),
        0 <= i < path.len(),
    ensures
        path[i] < marked.len() && marked[path[i] as int],
    decreases i,
{
    if i > 0 {
        lemma_closed_covers(slots, roots, marked, path, i - 1);
        assert(wire_step(slots, path[i - 1], path[(i - 1) + 1]));
    }
}

/// Extending a wire path by one wire.
proof fn lemma_path_step(slots: Seq<Slot>, roots: Set<u32>, from: u32, y: u32)
    requires
        reachable(slots, roots, from),
        wire_step(slots, from, y),
    ensures
        reachable(slots, roots, y),
{
    let p = choose|path: Seq<u32>| #[trigger] is_wire_path(slots, roots, path) && path.last() == from;
    let q = p.push(y);
    assert forall|i: int| 0 <= i < q.len() - 1 implies wire_step(slots, #[trigger] q[i], q[i + 1]) by {
        if i < p.len() - 1 {
            assert(q[i] == p[i] && q[i + 1] == p[i + 1]);
            assert(wire_step(slots, p[i], p[i + 1]));
        } else {
            assert(q[i] == from);
        }
    }
    assert(is_wire_path(slots, roots, q));
}

/// Mark slot `raw_slot(raw)` and schedule it, unless it is the sentinel or
/// already marked.
fn visit(
    marked: &mut Vec<bool>,
    stack: &mut Vec<u32>,
    raw: u32,
    Ghost(slots): Ghost<Seq<Slot>>,
    Ghost(roots): Ghost<Set<u32>>,
    Ghost(from): Ghost<u32>,
)
    requires
        old(marked)@.len() == slots.len(),
        raw_slot(raw) < slots.len(),
        from < slots.len(),
        raw_slot(raw) != 0 ==> wire_step(slots, from, raw_slot(raw)),
        reachable(slots, roots, from),
        forall|x: u32| x < old(marked)@.len() && #[trigger] old(marked)@[x as int] ==> reachable(slots, roots, x),
        forall|j: int| 0 <= j < old(stack)@.len() ==> #[trigger] old(stack)@[j] < slots.len() && old(marked)@[old(stack)@[j] as int],
    ensures
        final(marked)@.len() == slots.len(),
        forall|x: u32| x < final(marked)@.len() && #[trigger] final(marked)@[x as int] ==> reachable(slots, roots, x),
        forall|j: int| 0 <= j < final(stack)@.len() ==> #[trigger] final(stack)@[j] < slots.len() && final(marked)@[final(stack)@[j] as int],
        raw_slot(raw) != 0 ==> final(marked)@[raw_slot(raw) as int],
        forall|x: int| 0 <= x < slots.len() && #[trigger] old(marked)@[x] ==> final(marked)@[x],
        final(stack)@.len() >= old(stack)@.len(),
        forall|j: int| 0 <= j < old(stack)@.len() ==> #[trigger] final(stack)@[j] == old(stack)@[j],
        forall|y: int|
            0 <= y < slots.len() && #[trigger] final(marked)@[y] && !old(marked)@[y]
                ==> final(stack)@.contains(y as u32),
        (raw_slot(raw) != 0 && !old(marked)@[raw_slot(raw) as int]) ==> {
            &&& final(marked)@ == old(marked)@.update(raw_slot(raw) as int, true)
            &&& final(stack)@ == old(stack)@.push(raw_slot(raw))
            &&& n_unmarked(final(marked)@) + 1 == n_unmarked(old(marked)@)
        },
        !(raw_slot(raw) != 0 && !old(marked)@[raw_slot(raw) as int]) ==> {
            &&& final(marked)@ == old(marked)@
            &&& final(stack)@ == old(stack)@
        },
{
    let y = PortId::from_raw(raw).slot_idx();
    if y != 0 && !marked[y as usize] {
        proof {
            lemma_mark_one(marked@, y as int);
            lemma_path_step(slots, roots, from, y);
        }
        marked.set(y as usize, true);
        stack.push(y);
        proof {
            assert(stack@[stack@.len() - 1] == y);
            assert forall|z: int|
                0 <= z < slots.len() && #[trigger] marked@[z] && !old(marked)@[z]
                implies stack@.contains(z as u32) by {
                assert(z == y);
            }
            assert forall|x: u32| x < marked@.len() && #[trigger] marked@[x as int] implies reachable(slots, roots, x) by {
                if x != y {
                    assert(old(marked)@[x as int]);
                } else {
                    lemma_path_step(slots, roots, from, y);
                }
            }
        }
    }
}


/// Slot `x` was visited by the sweep before position `k` of `order` and
/// found unmarked.
pub open spec fn swept(order: Seq<u32>, marked: Seq<bool>, k: int, x: u32) -> bool {
    exists|j: int| 0 <= j < k && #[trigger] order[j] == x && !(x < marked.len() && marked[x as int])
}

/// The final erasure sweep: every agent that no root reaches through wires
/// is retired, and the pending-sweep flag is cleared.
pub fn c1_mark_sweep<C: NetClassMarker>(net: &mut Net<Proper, C>)
    requires
        old(net).wf(),
    ensures
        final(net).wf(),
        final(net).slots() == old(net).slots(),
        final(net).arena.cap == old(net).arena.cap,
        final(net).frontier1.entries@ == old(net).frontier1.entries@,
        final(net).frontier2.entries@ == old(net).frontier2.entries@,
        final(net).free_slots@ == old(net).free_slots@,
        final(net).net_flags == old(net).net_flags & !4u8,
        forall|x: u32|
            #[trigger] final(net).arena.has_live(x) == (old(net).arena.has_live(x) && reachable(
                old(net).slots(),
                root_slot_set(old(net).free_slots@, old(net).n_slots()),
                x,
            )),
{
    let n = net.arena.slot_count();
    let ghost slots = net.slots();
    let ghost roots = root_slot_set(net.free_slots@, n as int);
    let mut marked: Vec<bool> = Vec::new();
    let mut i: usize = 0;
    while i < n
        invariant
            i <= n,
            marked@.len() == i,
            forall|x: int| 0 <= x < i ==> !#[trigger] marked@[x],
        decreases n - i,
    {
        marked.push(false);
        i = i + 1;
    }
    let mut stack: Vec<u32> = Vec::new();
    let mut r: usize = 0;
    while r < net.free_slots.len()
        invariant
            *net == *old(net),
            n == slots.len(),
            slots == net.slots(),
            roots == root_slot_set(net.free_slots@, n as int),
            net.wf(),
            r <= net.free_slots@.len(),
            marked@.len() == n,
            forall|x: u32| x < marked@.len() && #[trigger] marked@[x as int] ==> reachable(slots, roots, x),
            forall|j: int| 0 <= j < stack@.len() ==> #[trigger] stack@[j] < n && marked@[stack@[j] as int],
            forall|j: int| 0 <= j < r ==> {
                let x = raw_slot((#[trigger] net.free_slots@[j]).1.0);
                x != 0 && x < n ==> marked@[x as int]
            },
            forall|x: int| 0 <= x < n && #[trigger] marked@[x] ==> stack@.contains(x as u32),
        decreases net.free_slots@.len() - r,
    {
        let idx = net.free_slots[r].1.slot_idx();
        if idx != 0 && (idx as usize) < n && !marked[idx as usize] {
            proof {
                lemma_mark_one(marked@, idx as int);
                let path = seq![idx];
                assert(roots.contains(idx));
                assert(is_wire_path(slots, roots, path));
            }
            let ghost m_before = marked@;
            let ghost s_before = stack@;
            marked.set(idx as usize, true);
            stack.push(idx);
            proof {
                assert(stack@[stack@.len() - 1] == idx);
                assert forall|x: int| 0 <= x < n && #[trigger] marked@[x] implies stack@.contains(x as u32) by {
                    if x != idx {
                        assert(m_before[x]);
                        assert(s_before.contains(x as u32));
                        let j = choose|j: int| 0 <= j < s_before.len() && s_before[j] == x as u32;
                        assert(stack@[j] == x as u32);
                    }
                }
            }
        }
        r = r + 1;
    }
    proof {
        assert forall|x: u32, z: u32|
            x < marked@.len() && marked@[x as int] && !stack@.contains(x) && #[trigger] wire_step(
                slots,
                x,
                z,
            ) implies z < marked@.len() && marked@[z as int] by {
            assert(stack@.contains(x));
        }
        assert forall|x: u32| #[trigger] roots.contains(x) implies x < marked@.len() && marked@[x as int] by {
            let j = choose|j: int| 0 <= j < net.free_slots@.len() && raw_slot((#[trigger] net.free_slots@[j]).1.0) == x;
        }
    }
    loop
        invariant
            *net == *old(net),
            n == slots.len(),
            slots == net.slots(),
            net.wf(),
            marked@.len() == n,
            forall|x: u32| #[trigger] roots.contains(x) ==> x < marked@.len() && marked@[x as int],
            forall|x: u32| x < marked@.len() && #[trigger] marked@[x as int] ==> reachable(slots, roots, x),
            forall|j: int| 0 <= j < stack@.len() ==> #[trigger] stack@[j] < n && marked@[stack@[j] as int],
            forall|x: u32, z: u32|
                x < marked@.len() && marked@[x as int] && !stack@.contains(x) && #[trigger] wire_step(
                    slots,
                    x,
                    z,
                ) ==> z < marked@.len() && marked@[z as int],
        ensures
            *net == *old(net),
            marked@.len() == n,
            forall|x: u32| x < marked@.len() && #[trigger] marked@[x as int] ==> reachable(slots, roots, x),
            forall|x: u32| #[trigger] roots.contains(x) ==> x < marked@.len() && marked@[x as int],
            forall|x: u32, z: u32|
                x < marked@.len() && marked@[x as int] && #[trigger] wire_step(slots, x, z) ==> z
                    < marked@.len() && marked@[z as int],
        decreases n_unmarked(marked@), stack@.len(),
    {
        let ghost st_pre = stack@;
        match stack.pop() {
            None => {
                proof {
                    assert forall|x: u32, z: u32|
                        x < marked@.len() && marked@[x as int] && #[trigger] wire_step(slots, x, z)
                        implies z < marked@.len() && marked@[z as int] by {
                        assert(!stack@.contains(x));
                    }
                }
                break;
            },
            Some(x) => {
                let s = *net.arena.slot(x);
                proof {
                    assert(st_pre.last() == x);
                    assert(slot_closed(slots[x as int], n as int));
                    assert(marked@[x as int]);
                }
                let ghost m0 = marked@;
                let ghost st0 = stack@;
                visit(&mut marked, &mut stack, s.principal, Ghost(slots), Ghost(roots), Ghost(x));
                let ghost m1 = marked@;
                let ghost st1 = stack@;
                visit(&mut marked, &mut stack, s.aux0, Ghost(slots), Ghost(roots), Ghost(x));
                let ghost m2 = marked@;
                let ghost st2 = stack@;
                visit(&mut marked, &mut stack, s.aux1, Ghost(slots), Ghost(roots), Ghost(x));
                proof {
                    assert forall|y: int| 0 <= y < n && #[trigger] marked@[y] && !m0[y] implies stack@.contains(y as u32) by {
                        if m2[y] {
                            if m1[y] {
                                let j = choose|j: int| 0 <= j < st1.len() && st1[j] == y as u32;
                                assert(stack@[j] == st2[j]);
                            } else {
                                let j = choose|j: int| 0 <= j < st2.len() && st2[j] == y as u32;
                                assert(stack@[j] == y as u32);
                            }
                        }
                    }
                    assert forall|a: u32, z: u32|
                        a < marked@.len() && marked@[a as int] && !stack@.contains(a) && #[trigger] wire_step(
                            slots,
                            a,
                            z,
                        ) implies z < marked@.len() && marked@[z as int] by {
                        if a == x {
                            if raw_slot(s.principal) == z {
                                assert(m1[z as int]);
                            } else if raw_slot(s.aux0) == z {
                                assert(m2[z as int]);
                            }
                        } else {
                            if m0[a as int] {
                                if st_pre.contains(a) {
                                    let j = choose|j: int| 0 <= j < st_pre.len() && st_pre[j] == a;
                                    assert(j < st0.len());
                                    assert(st0[j] == a);
                                    assert(stack@[j] == st2[j]);
                                    assert(st2[j] == st1[j]);
                                    assert(stack@.contains(a));
                                }
                                assert(m0[z as int]);
                            }
                        }
                    }
                }
            },
        }
    }
    proof {
        assert forall|x: u32| x < n && reachable(slots, roots, x) implies marked@[x as int] by {
            let path = choose|path: Seq<u32>| #[trigger] is_wire_path(slots, roots, path) && path.last() == x;
            lemma_closed_covers(slots, roots, marked@, path, path.len() - 1);
        }
    }
    let live_n = net.arena.live().len();
    let mut order: Vec<u32> = Vec::new();
    let mut q: usize = 0;
    while q < live_n
        invariant
            *net == *old(net),
            live_n == net.arena.live_list@.len(),
            q <= live_n,
            order@ == net.arena.live_list@.subrange(0, q as int),
        decreases live_n - q,
    {
        order.push(net.arena.live()[q]);
        proof {
            assert(order@ =~= net.arena.live_list@.subrange(0, (q + 1) as int));
        }
        q = q + 1;
    }
    proof {
        assert(order@ =~= net.arena.live_list@);
    }
    let mut k: usize = 0;
    while k < order.len()
        invariant
            net.wf(),
            n == slots.len(),
            slots == net.slots(),
            marked@.len() == n,
            order@ == old(net).arena.live_list@,
            old(net).wf(),
            slots == old(net).slots(),
            k <= order@.len(),
            net.arena.cap == old(net).arena.cap,
            net.frontier1.entries@ == old(net).frontier1.entries@,
            net.frontier2.entries@ == old(net).frontier2.entries@,
            net.free_slots@ == old(net).free_slots@,
            net.net_flags == old(net).net_flags,
            forall|x: u32|
                #[trigger] net.arena.live_pos@.contains_key(x) == (old(net).arena.live_pos@.contains_key(x)
                    && !swept(order@, marked@, k as int, x)),
        decreases order@.len() - k,
    {
        let idx = order[k];
        proof {
            assert(old(net).arena.live_list@[k as int] == idx);
            assert(0 < idx < n);
        }
        let keep = marked[idx as usize];
        let ghost before = net.arena.live_pos@;
        if !keep {
            net.retire(idx);
        }
        proof {
            assert forall|x: u32|
                #[trigger] net.arena.live_pos@.contains_key(x) == (old(net).arena.live_pos@.contains_key(x)
                    && !swept(order@, marked@, (k + 1) as int, x)) by {
                if swept(order@, marked@, (k + 1) as int, x) && !swept(order@, marked@, k as int, x) {
                    assert(x == idx);
                }
                if swept(order@, marked@, k as int, x) {
                    let j = choose|j: int| 0 <= j < k && #[trigger] order@[j] == x && !(x < marked@.len() && marked@[x as int]);
                    assert(0 <= j < (k + 1) as int);
                }
                if !keep && x == idx {
                    assert(order@[k as int] == x);
                }
            }
        }
        k = k + 1;
    }
    net.clear_pending_c1();
    proof {
        assert forall|x: u32|
            #[trigger] net.arena.has_live(x) == (old(net).arena.has_live(x) && reachable(
                old(net).slots(),
                root_slot_set(old(net).free_slots@, old(net).n_slots()),
                x,
            )) by {
            if old(net).arena.has_live(x) {
                old(net).arena.lemma_live_in_range(x);
                let p = old(net).arena.live_pos@[x] as int;
                assert(order@[p] == x);
                if !(x < marked@.len() && marked@[x as int]) {
                    assert(swept(order@, marked@, order@.len() as int, x));
                }
                if swept(order@, marked@, order@.len() as int, x) {
                    let j = choose|j: int| 0 <= j < order@.len() && #[trigger] order@[j] == x && !(x < marked@.len() && marked@[x as int]);
                }
            }
        }
    }
}

} // verus!
