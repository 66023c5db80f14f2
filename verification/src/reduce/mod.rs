//! Reduction: the interaction rules, the canonicalization rules, and the
//! drivers that run them in leftmost-outermost order.
pub mod rules;
pub mod canon;
pub mod whnf;
pub mod parallel;
pub mod gpu;

use vstd::prelude::*;
use crate::class::{Canonical, DeltaA, DeltaI, DeltaK, DeltaL, NetClassMarker, Proper};
use crate::error::DnxError;
use crate::lopath::LOPath;
use crate::net::{
    ActivePair, C4Candidate, Net, certify_canonical, into_canonical, is_virtual, port_in,
    spec_is_canonical,
};
use crate::port::{PortId, raw_gen, raw_is_eraser, raw_slot};
use crate::reduce::canon::{c1_mark_sweep, c2_done, c2_rep_merge, c3_done, c3_rep_decay, c4_aux_fan_replication};
use crate::reduce::rules::{
    annihilated_slots, beta_slots, erased_agent_slots, r2_era_fan, r3_era_rep, r4_fan_fan, r5_done,
    r5_fan_rep, r6_rep_rep, r7_done, r7_rep_rep,
};
use crate::slot::{tag_bit0, tag_is_fan, tag_is_rep};

verus! {

/// Counters of a reduction: rule firings, and beta steps among them.
#[derive(Debug, Clone, Copy, PartialEq, Eq)]
pub struct ReduceStats {
    pub interactions: u64,
    pub r4_count: u64,
}

impl Default for ReduceStats {
    fn default() -> (s: ReduceStats)
        ensures
            s.interactions == 0 && s.r4_count == 0,
    {
        ReduceStats { interactions: 0, r4_count: 0 }
    }
}

/// The classes the reducer runs on. Which canonicalization rules apply
/// follows from the class bits: merging and replication need replicators,
/// decay needs replicators and erasers, the sweep needs erasers.
pub trait CRules: NetClassMarker {}

impl CRules for DeltaL {}

impl CRules for DeltaA {}

impl CRules for DeltaI {}

impl CRules for DeltaK {}

/// A port still refers to the agent it was made for: an eraser, or a live
/// slot whose generation parity matches.
pub open spec fn spec_port_live<C: NetClassMarker>(p: PortId, net: &Net<Proper, C>) -> bool {
    raw_is_eraser(p.0) || (net.arena.has_live(raw_slot(p.0)) && raw_gen(p.0) == (net.slots()[raw_slot(
        p.0,
    ) as int].generation & 1) as u8)
}

pub fn port_live<C: NetClassMarker>(p: PortId, net: &Net<Proper, C>) -> (b: bool)
    requires
        net.wf(),
    ensures
        b == spec_port_live(p, net),
        b && !raw_is_eraser(p.0) ==> 0 < raw_slot(p.0) < net.n_slots(),
{
    if p.is_eraser() {
        return true;
    }
    let idx = p.slot_idx();
    if !net.arena.is_live(idx) {
        return false;
    }
    proof {
        net.arena.lemma_live_in_range(idx);
    }
    p.gen_low() == (net.arena.slot(idx).generation & 1) as u8
}

/// One end of the pair no longer refers to its agent.
pub fn is_stale_pair<C: NetClassMarker>(pair: &ActivePair, net: &Net<Proper, C>) -> (b: bool)
    requires
        net.wf(),
    ensures
        b == !(spec_port_live(pair.p0.0, net) && spec_port_live(pair.p1.0, net)),
{
    !port_live(pair.p0.get(), net) || !port_live(pair.p1.get(), net)
}

/// One end of the candidate no longer refers to its agent.
pub fn is_stale_c4<C: NetClassMarker>(cand: &C4Candidate, net: &Net<Proper, C>) -> (b: bool)
    requires
        net.wf(),
    ensures
        b == !(spec_port_live(cand.rep_principal, net) && spec_port_live(cand.app_aux0, net)),
{
    !port_live(cand.rep_principal, net) || !port_live(cand.app_aux0, net)
}

/// Replicator decay, in classes with replicators and erasers.
fn run_c3<C: NetClassMarker>(net: &mut Net<Proper, C>, rep: PortId, lo: &LOPath) -> (r: Result<(), DnxError>)
    requires
        old(net).wf(),
        lo.wf(),
        port_in(rep, old(net).n_slots()),
    ensures
        final(net).wf(),
        final(net).arena.cap == old(net).arena.cap,
        r matches Err(e) ==> e == DnxError::DeltaOverflow,
        final(net).n_slots() >= old(net).n_slots(),
        r is Ok,
        C::spec_class_bits() == 3 ==> c3_done(old(net), final(net), rep),
        C::spec_class_bits() != 3 ==> *final(net) == *old(net),
{
    if C::class_bits() == 3 {
        c3_rep_decay(net, rep, lo)
    } else {
        Ok(())
    }
}

/// Replicator merging, in classes with replicators.
fn run_c2<C: NetClassMarker>(net: &mut Net<Proper, C>, rep: PortId, lo: &LOPath) -> (r: Result<(), DnxError>)
    requires
        old(net).wf(),
        lo.wf(),
        port_in(rep, old(net).n_slots()),
    ensures
        final(net).wf(),
        final(net).arena.cap == old(net).arena.cap,
        r matches Err(e) ==> e == DnxError::DeltaOverflow,
        final(net).n_slots() >= old(net).n_slots(),
        class_has_rep::<C>() ==> c2_done(old(net), final(net), rep, r),
        !class_has_rep::<C>() ==> r is Ok && *final(net) == *old(net),
{
    let b = C::class_bits();
    if b == 2 || b == 3 {
        c2_rep_merge(net, rep, lo)
    } else {
        Ok(())
    }
}

/// The agent at `q` erased under path `lo`: within the depth limit its
/// auxiliary peers get erasers and it is retired; beyond it nothing changes
/// and the error is `LOPathDepthExceeded`.
pub open spec fn erased_by<C: NetClassMarker>(
    before: &Net<Proper, C>,
    after: &Net<Proper, C>,
    q: PortId,
    lo: LOPath,
    r: Result<(), DnxError>,
) -> bool {
    &&& lo.spec_depth() < 512 <==> r is Ok
    &&& r is Ok ==> after.slots() == erased_agent_slots(before.slots(), q)
    &&& r is Err ==> *after == *before
}

/// Decay on the replicator at `q`, in the class that has it.
pub open spec fn decayed<C: NetClassMarker>(before: &Net<Proper, C>, after: Net<Proper, C>, q: PortId) -> bool {
    &&& C::spec_class_bits() == 3 ==> c3_done(before, &after, q)
    &&& C::spec_class_bits() != 3 ==> after == *before
    &&& after.wf()
}

/// Merging on the replicator at `q`, in the classes that have it.
pub open spec fn merged<C: NetClassMarker>(
    before: &Net<Proper, C>,
    after: Net<Proper, C>,
    q: PortId,
    r: Result<(), DnxError>,
) -> bool {
    &&& class_has_rep::<C>() ==> c2_done(before, &after, q, r)
    &&& !class_has_rep::<C>() ==> r is Ok && after == *before
    &&& after.wf()
}

/// A fan meeting a replicator: decay, then merging, then (if both are still
/// live) the commutation `r5_done`.
pub open spec fn fan_rep_step<C: NetClassMarker>(
    before: &Net<Proper, C>,
    after: &Net<Proper, C>,
    fan_p: PortId,
    rep_p: PortId,
    lo: LOPath,
    r: Result<(), DnxError>,
) -> bool {
    exists|m1: Net<Proper, C>|
        #[trigger] decayed::<C>(before, m1, rep_p) && (!spec_port_live(rep_p, &m1) ==> r is Ok && *after == m1)
            && (spec_port_live(rep_p, &m1) ==> exists|m2: Net<Proper, C>, rc: Result<(), DnxError>|
            #[trigger] merged::<C>(&m1, m2, rep_p, rc) && (rc is Err ==> r == rc && *after == m2) && (rc is Ok ==> (
            !(spec_port_live(rep_p, &m2) && spec_port_live(fan_p, &m2)) ==> r is Ok && *after == m2) && (
            spec_port_live(rep_p, &m2) && spec_port_live(fan_p, &m2) ==> r5_done(&m2, after, fan_p, rep_p, lo, r))))
}

/// Two live replicators after the pre-checks: equal labels annihilate,
/// different ones commute (`r7_done`).
pub open spec fn rep_rep_fire<C: NetClassMarker>(
    m4: &Net<Proper, C>,
    after: &Net<Proper, C>,
    p0: PortId,
    p1: PortId,
    lo: LOPath,
    r: Result<(), DnxError>,
) -> bool {
    let s0 = m4.slots()[raw_slot(p0.0) as int];
    let s1 = m4.slots()[raw_slot(p1.0) as int];
    &&& !(spec_port_live(p0, m4) && spec_port_live(p1, m4)) ==> r is Ok && *after == *m4
    &&& spec_port_live(p0, m4) && spec_port_live(p1, m4) && s0.data == s1.data && s0.delta0 == s1.delta0
        && s0.delta1 == s1.delta1 ==> {
        &&& lo.spec_depth() < 512 <==> r is Ok
        &&& r is Ok ==> after.slots() == annihilated_slots(m4.slots(), p0, p1)
        &&& r is Err ==> *after == *m4
    }
    &&& spec_port_live(p0, m4) && spec_port_live(p1, m4) && !(s0.data == s1.data && s0.delta0 == s1.delta0
        && s0.delta1 == s1.delta1) ==> r7_done(m4, after, p0, p1, lo, r)
}

/// After decay of both: if both are live, merging of each, then the firing.
pub open spec fn rep_rep_rest<C: NetClassMarker>(
    m2: &Net<Proper, C>,
    after: &Net<Proper, C>,
    p0: PortId,
    p1: PortId,
    lo: LOPath,
    r: Result<(), DnxError>,
) -> bool {
    &&& !(spec_port_live(p0, m2) && spec_port_live(p1, m2)) ==> r is Ok && *after == *m2
    &&& spec_port_live(p0, m2) && spec_port_live(p1, m2) ==> exists|m3: Net<Proper, C>, r0: Result<(), DnxError>|
        #[trigger] merged::<C>(m2, m3, p0, r0) && (r0 is Err ==> r == r0 && *after == m3) && (r0 is Ok ==> exists|
            m4: Net<Proper, C>,
            r1: Result<(), DnxError>,
        |
            #[trigger] merged::<C>(&m3, m4, p1, r1) && (r1 is Err ==> r == r1 && *after == m4) && (r1 is Ok
                ==> rep_rep_fire::<C>(&m4, after, p0, p1, lo, r)))
}

/// Two replicators meeting: decay of each, then the rest.
pub open spec fn rep_rep_step<C: NetClassMarker>(
    before: &Net<Proper, C>,
    after: &Net<Proper, C>,
    p0: PortId,
    p1: PortId,
    lo: LOPath,
    r: Result<(), DnxError>,
) -> bool {
    exists|m1: Net<Proper, C>|
        #[trigger] decayed::<C>(before, m1, p0) && exists|m2: Net<Proper, C>|
            #[trigger] decayed::<C>(&m1, m2, p1) && rep_rep_rest::<C>(&m2, after, p0, p1, lo, r)
}

/// The end of a pair that is not an eraser, when one of them is.
pub open spec fn agent_end(pair: ActivePair) -> PortId {
    if raw_is_eraser(pair.p0.0.0) {
        pair.p1.0
    } else {
        pair.p0.0
    }
}

/// The tag of the agent that `p` names.
pub open spec fn tag_at<C: NetClassMarker>(net: &Net<Proper, C>, p: PortId) -> u8 {
    net.slots()[raw_slot(p.0) as int].tag
}

/// The agent that `p` names is a fan or a replicator.
pub open spec fn fan_or_rep<C: NetClassMarker>(net: &Net<Proper, C>, p: PortId) -> bool {
    tag_is_fan(tag_at(net, p)) || tag_is_rep(tag_at(net, p))
}

/// Reduce one active pair by the rule its two agents select, after the
/// class's canonicalization rules had their chance at the replicators
/// involved. A pair whose ends went stale meanwhile is dropped.
pub fn dispatch_phase1<C: NetClassMarker>(
    net: &mut Net<Proper, C>,
    pair: ActivePair,
    stats: &mut ReduceStats,
) -> (r: Result<(), DnxError>)
    requires
        old(net).wf(),
        pair.lo.wf(),
        spec_port_live(pair.p0.0, old(net)),
        spec_port_live(pair.p1.0, old(net)),
        old(stats).r4_count < u64::MAX,
    ensures
        final(net).wf(),
        final(net).arena.cap == old(net).arena.cap,
        r matches Err(e) ==> e == DnxError::LOPathDepthExceeded || e == DnxError::ArenaCapacityExceeded
            || e == DnxError::DeltaOverflow || e == DnxError::ReadbackIncomplete,
        final(net).n_slots() >= old(net).n_slots(),
        final(stats).interactions == old(stats).interactions,
        ({
            let e0 = raw_is_eraser(pair.p0.0.0);
            let e1 = raw_is_eraser(pair.p1.0.0);
            let p0 = pair.p0.0;
            let p1 = pair.p1.0;
            &&& e0 && e1 ==> r is Ok && *final(net) == *old(net)
            &&& e0 != e1 ==> {
                let q = agent_end(pair);
                &&& tag_is_fan(tag_at(old(net), q)) ==> erased_by(old(net), final(net), q, pair.lo, r)
                &&& !tag_is_fan(tag_at(old(net), q)) && C::spec_class_bits() != 3 ==> erased_by(
                    old(net),
                    final(net),
                    q,
                    pair.lo,
                    r,
                )
                &&& !tag_is_fan(tag_at(old(net), q)) && C::spec_class_bits() == 3 ==> exists|mid: Net<
                    Proper,
                    C,
                >|
                    #[trigger] c3_done(old(net), &mid, q) && mid.wf() && (spec_port_live(q, &mid) ==> erased_by(
                        &mid,
                        final(net),
                        q,
                        pair.lo,
                        r,
                    )) && (!spec_port_live(q, &mid) ==> r is Ok && *final(net) == mid)
            }
            &&& !e0 && !e1 && tag_is_fan(tag_at(old(net), p0)) && tag_is_fan(tag_at(old(net), p1)) ==> {
                &&& final(stats).r4_count == old(stats).r4_count + 1
                &&& pair.lo.spec_depth() < 512 ==> r is Ok
                &&& r is Err ==> *final(net) == *old(net)
                &&& r is Ok ==> final(net).slots() == (if tag_bit0(tag_at(old(net), p0)) {
                    beta_slots(old(net).slots(), p0, p1)
                } else {
                    beta_slots(old(net).slots(), p1, p0)
                })
            }
            &&& !(!e0 && !e1 && tag_is_fan(tag_at(old(net), p0)) && tag_is_fan(tag_at(old(net), p1)))
                ==> final(stats).r4_count == old(stats).r4_count
            &&& !e0 && !e1 && !(fan_or_rep(old(net), p0) && fan_or_rep(old(net), p1)) ==> r
                == Err::<(), DnxError>(DnxError::ReadbackIncomplete) && *final(net) == *old(net)
            &&& !e0 && !e1 && tag_is_fan(tag_at(old(net), p0)) && tag_is_rep(tag_at(old(net), p1))
                ==> fan_rep_step::<C>(old(net), final(net), p0, p1, pair.lo, r)
            &&& !e0 && !e1 && tag_is_rep(tag_at(old(net), p0)) && tag_is_fan(tag_at(old(net), p1))
                ==> fan_rep_step::<C>(old(net), final(net), p1, p0, pair.lo, r)
            &&& !e0 && !e1 && tag_is_rep(tag_at(old(net), p0)) && tag_is_rep(tag_at(old(net), p1))
                ==> rep_rep_step::<C>(old(net), final(net), p0, p1, pair.lo, r)
        }),
{
    let p0 = pair.p0.get();
    let p1 = pair.p1.get();
    let lo = pair.lo;
    let s0_era = p0.is_eraser();
    let s1_era = p1.is_eraser();
    if s0_era && s1_era {
        return Ok(());
    }
    if s0_era || s1_era {
        let live_p = if s0_era {
            p1
        } else {
            p0
        };
        let s = *net.slot(live_p);
        if s.is_fan() {
            return r2_era_fan(net, live_p, &lo);
        }
        match run_c3(net, live_p, &lo) {
            Ok(()) => {},
            Err(e) => {
                return Err(e);
            },
        }
        let ghost mid = *net;
        proof {
            if C::spec_class_bits() == 3 {
                assert(c3_done(old(net), &mid, live_p));
            } else {
                assert(mid == *old(net));
            }
        }
        if !port_live(live_p, net) {
            return Ok(());
        }
        let r3 = r3_era_rep(net, live_p, &lo);
        proof {
            if C::spec_class_bits() == 3 {
                assert(c3_done(old(net), &mid, live_p) && mid.wf() && spec_port_live(live_p, &mid));
            }
        }
        return r3;
    }
    let s0 = *net.slot(p0);
    let s1 = *net.slot(p1);
    if s0.is_fan() && s1.is_fan() {
        stats.r4_count = stats.r4_count + 1;
        return r4_fan_fan(net, p0, p1, &lo);
    }
    if s0.is_fan() && s1.is_rep() || s0.is_rep() && s1.is_fan() {
        let (fan_p, rep_p) = if s0.is_fan() {
            (p0, p1)
        } else {
            (p1, p0)
        };
        match run_c3(net, rep_p, &lo) {
            Ok(()) => {},
            Err(e) => {
                return Err(e);
            },
        }
        let ghost m1 = *net;
        proof {
            assert(decayed::<C>(old(net), m1, rep_p));
        }
        if !port_live(rep_p, net) {
            return Ok(());
        }
        let rc = run_c2(net, rep_p, &lo);
        let ghost m2 = *net;
        proof {
            assert(merged::<C>(&m1, m2, rep_p, rc));
        }
        match rc {
            Ok(()) => {},
            Err(e) => {
                return Err(e);
            },
        }
        if !port_live(rep_p, net) || !port_live(fan_p, net) {
            return Ok(());
        }
        let r5 = r5_fan_rep(net, fan_p, rep_p, &lo);
        proof {
            assert(r5_done(&m2, net, fan_p, rep_p, lo, r5));
        }
        return r5;
    }
    if s0.is_rep() && s1.is_rep() {
        match run_c3(net, p0, &lo) {
            Ok(()) => {},
            Err(e) => {
                return Err(e);
            },
        }
        let ghost m1 = *net;
        match run_c3(net, p1, &lo) {
            Ok(()) => {},
            Err(e) => {
                return Err(e);
            },
        }
        let ghost m2 = *net;
        proof {
            assert(decayed::<C>(old(net), m1, p0) && decayed::<C>(&m1, m2, p1));
        }
        if !port_live(p0, net) || !port_live(p1, net) {
            proof {
                assert(rep_rep_rest::<C>(&m2, net, p0, p1, lo, Ok(())));
            }
            return Ok(());
        }
        let r0 = run_c2(net, p0, &lo);
        let ghost m3 = *net;
        proof {
            assert(merged::<C>(&m2, m3, p0, r0));
        }
        match r0 {
            Ok(()) => {},
            Err(e) => {
                proof {
                    assert(rep_rep_rest::<C>(&m2, net, p0, p1, lo, r0));
                }
                return Err(e);
            },
        }
        let r1 = run_c2(net, p1, &lo);
        let ghost m4 = *net;
        proof {
            assert(merged::<C>(&m3, m4, p1, r1));
        }
        match r1 {
            Ok(()) => {},
            Err(e) => {
                proof {
                    assert(rep_rep_rest::<C>(&m2, net, p0, p1, lo, r1));
                }
                return Err(e);
            },
        }
        if !port_live(p0, net) || !port_live(p1, net) {
            proof {
                assert(rep_rep_fire::<C>(&m4, net, p0, p1, lo, Ok(())));
                assert(rep_rep_rest::<C>(&m2, net, p0, p1, lo, Ok(())));
            }
            return Ok(());
        }
        let ss0 = *net.slot(p0);
        let ss1 = *net.slot(p1);
        if ss0.data == ss1.data && ss0.delta0 == ss1.delta0 && ss0.delta1 == ss1.delta1 {
            let r6 = r6_rep_rep(net, p0, p1, &lo);
            proof {
                assert(rep_rep_fire::<C>(&m4, net, p0, p1, lo, r6));
                assert(rep_rep_rest::<C>(&m2, net, p0, p1, lo, r6));
            }
            return r6;
        } else {
            let r7 = r7_rep_rep(net, p0, p1, &lo);
            proof {
                assert(rep_rep_fire::<C>(&m4, net, p0, p1, lo, r7));
                assert(rep_rep_rest::<C>(&m2, net, p0, p1, lo, r7));
            }
            return r7;
        }
    }
    Err(DnxError::ReadbackIncomplete)
}


/// No pair or replication candidate is waiting.
pub open spec fn no_work_left<C: NetClassMarker>(net: &Net<Proper, C>) -> bool {
    net.frontier1.entries@.len() == 0 && net.frontier2.entries@.len() == 0
}

/// Whether the class holds erasers (and so runs the sweep).
pub open spec fn class_has_era<C: NetClassMarker>() -> bool {
    C::spec_class_bits() == 1 || C::spec_class_bits() == 3
}

/// Whether the class holds replicators.
pub open spec fn class_has_rep<C: NetClassMarker>() -> bool {
    C::spec_class_bits() == 2 || C::spec_class_bits() == 3
}

/// One step of the second phase: take the leftmost-outermost replication
/// candidate and, unless it went stale, give decay, merging and then
/// replication past the application their turn. Reports whether a
/// candidate was taken.
pub fn drain_phase2<C: NetClassMarker>(net: &mut Net<Proper, C>) -> (r: Result<bool, DnxError>)
    requires
        old(net).wf(),
    ensures
        final(net).wf(),
        final(net).n_slots() >= old(net).n_slots(),
        r matches Ok(b) ==> b == (class_has_rep::<C>() && old(net).frontier2.entries@.len() > 0),
        r matches Err(e) ==> e == DnxError::DeltaOverflow || e == DnxError::ArenaCapacityExceeded
            || e == DnxError::LOPathDepthExceeded,
        !class_has_rep::<C>() ==> r == Ok::<bool, DnxError>(false) && *final(net) == *old(net),
        old(net).frontier2.entries@.len() == 0 ==> {
            &&& r == Ok::<bool, DnxError>(false)
            &&& final(net).arena == old(net).arena
            &&& final(net).frontier1 == old(net).frontier1
            &&& final(net).frontier2.entries@.len() == 0
            &&& final(net).free_slots == old(net).free_slots
            &&& final(net).net_flags == old(net).net_flags
        },
{
    let bits = C::class_bits();
    if !(bits == 2 || bits == 3) {
        return Ok(false);
    }
    let cand = match net.frontier2.pop_first() {
        None => {
            return Ok(false);
        },
        Some(e) => e.1,
    };
    proof {
        let e = old(net).frontier2.entries@.last();
        assert(old(net).frontier2.entries@[old(net).frontier2.entries@.len() - 1] == e);
    }
    if cand.rep_principal.is_eraser() || cand.app_aux0.is_eraser() {
        return Ok(true);
    }
    if is_stale_c4(&cand, net) {
        return Ok(true);
    }
    let lo = cand.lo;
    match run_c3(net, cand.rep_principal, &lo) {
        Ok(()) => {},
        Err(e) => {
            return Err(e);
        },
    }
    if is_stale_c4(&cand, net) {
        return Ok(true);
    }
    match run_c2(net, cand.rep_principal, &lo) {
        Ok(()) => {},
        Err(e) => {
            return Err(e);
        },
    }
    if is_stale_c4(&cand, net) {
        return Ok(true);
    }
    match c4_aux_fan_replication(net, &cand) {
        Ok(()) => Ok(true),
        Err(e) => Err(e),
    }
}

/// Run the erasure sweep when one is pending and the class has erasers.
fn finish_c1<C: NetClassMarker>(net: &mut Net<Proper, C>)
    requires
        old(net).wf(),
    ensures
        final(net).wf(),
        final(net).frontier1.entries@ == old(net).frontier1.entries@,
        final(net).frontier2.entries@ == old(net).frontier2.entries@,
        (C::spec_class_bits() == 1 || C::spec_class_bits() == 3) && old(net).net_flags & 4 != 0
            ==> final(net).net_flags & 4 == 0,
        !((C::spec_class_bits() == 1 || C::spec_class_bits() == 3) && old(net).net_flags & 4 != 0)
            ==> *final(net) == *old(net),
{
    if net.net_pending_c1() {
        let b = C::class_bits();
        if b == 1 || b == 3 {
            c1_mark_sweep(net);
            proof {
                let f = old(net).net_flags;
                assert((f & !4u8) & 4 == 0) by (bit_vector);
            }
        }
    }
}

/// Run the second phase until no candidate is left, then the sweep, and
/// certify the net canonical.
pub fn finalize_canonical<C: CRules>(net: Net<Proper, C>) -> (r: Result<Net<Canonical, C>, DnxError>)
    requires
        net.wf(),
    ensures
        r matches Ok(c) ==> c.wf() && spec_is_canonical(&c),
        r matches Err(e) ==> e == DnxError::DeltaOverflow || e == DnxError::ArenaCapacityExceeded
            || e == DnxError::LOPathDepthExceeded || e is StepLimitExceeded
            || e == DnxError::ReadbackIncomplete,
        no_work_left(&net) && net.net_flags & 4 == 0 ==> (r matches Ok(c) && c.arena == net.arena
            && c.free_slots == net.free_slots && c.net_flags == net.net_flags),
        no_work_left(&net) && net.net_flags & 4 != 0 && class_has_era::<C>() ==> r is Ok,
        no_work_left(&net) && net.net_flags & 4 != 0 && !class_has_era::<C>() ==> r == Err::<
            Net<Canonical, C>,
            DnxError,
        >(DnxError::ReadbackIncomplete),
{
    let mut cur = net;
    let mut fuel: u64 = 0;
    loop
        invariant_except_break
            no_work_left(&net) ==> fuel == 0,
        invariant
            cur.wf(),
            no_work_left(&net) ==> {
                &&& cur.arena == net.arena
                &&& cur.frontier1.entries@.len() == 0
                &&& cur.frontier2.entries@.len() == 0
                &&& cur.free_slots == net.free_slots
                &&& cur.net_flags == net.net_flags
            },
        decreases u64::MAX - fuel,
    {
        if fuel == u64::MAX {
            return Err(DnxError::StepLimitExceeded(fuel));
        }
        fuel = fuel + 1;
        match drain_phase2(&mut cur) {
            Ok(true) => {},
            Ok(false) => {
                break;
            },
            Err(e) => {
                return Err(e);
            },
        }
    }
    finish_c1(&mut cur);
    let w = match certify_canonical(&cur) {
        Ok(w) => w,
        Err(e) => {
            return Err(e);
        },
    };
    Ok(into_canonical(cur, w))
}

/// Normalize a net: fire active pairs in leftmost-outermost order until none
/// is left (dropping stale ones), run the second phase and the sweep, and
/// certify the result canonical. Returns it with the rule counts.
pub fn normalize<C: CRules>(net: Net<Proper, C>) -> (r: Result<(Net<Canonical, C>, ReduceStats), DnxError>)
    requires
        net.wf(),
    ensures
        r matches Ok((c, st)) ==> c.wf() && spec_is_canonical(&c) && st.r4_count <= st.interactions,
        no_work_left(&net) && net.net_flags & 4 == 0 ==> (r matches Ok((c, st)) && c.arena == net.arena
            && st.interactions == 0 && st.r4_count == 0),
        no_work_left(&net) && net.net_flags & 4 != 0 && class_has_era::<C>() ==> r is Ok,
        no_work_left(&net) && net.net_flags & 4 != 0 && !class_has_era::<C>() ==> r == Err::<
            (Net<Canonical, C>, ReduceStats),
            DnxError,
        >(DnxError::ReadbackIncomplete),
{
    let mut cur = net;
    let mut stats = ReduceStats { interactions: 0, r4_count: 0 };
    let mut fuel: u64 = 0;
    loop
        invariant_except_break
            no_work_left(&net) ==> fuel == 0,
        invariant
            cur.wf(),
            stats.interactions <= fuel,
            stats.r4_count <= stats.interactions,
            no_work_left(&net) ==> {
                &&& cur.arena == net.arena
                &&& cur.frontier1.entries@.len() == 0
                &&& cur.frontier2 == net.frontier2
                &&& cur.free_slots == net.free_slots
                &&& cur.net_flags == net.net_flags
                &&& stats.interactions == 0
                &&& stats.r4_count == 0
            },
        decreases u64::MAX - fuel,
    {
        if fuel == u64::MAX {
            return Err(DnxError::StepLimitExceeded(fuel));
        }
        fuel = fuel + 1;
        let ghost before = cur.frontier1.entries@;
        let pair = match cur.frontier1.pop_first() {
            None => {
                break;
            },
            Some(e) => e.1,
        };
        proof {
            assert(before[before.len() - 1] == before.last());
        }
        if is_stale_pair(&pair, &cur) {
            continue;
        }
        stats.interactions = stats.interactions + 1;
        match dispatch_phase1(&mut cur, pair, &mut stats) {
            Ok(()) => {},
            Err(e) => {
                return Err(e);
            },
        }
    }
    match finalize_canonical(cur) {
        Ok(c) => Ok((c, stats)),
        Err(e) => Err(e),
    }
}

} // verus!
