//! Demand-driven reduction to weak head normal form: fire active pairs in
//! leftmost-outermost order only until the agent facing a port is a value.
use vstd::prelude::*;
use crate::class::{NetClassMarker, Proper};
use crate::error::DnxError;
use crate::lopath::LOPath;
use crate::net::{ActivePair, Net, is_virtual, port_in, spec_peer};
use crate::port::{PortId, PortKind, pack, raw_gen, raw_kind, raw_slot};
use crate::reduce::{CRules, ReduceStats, dispatch_phase1, is_stale_pair, spec_port_live};
use crate::slot::{Slot, tag_bit0, tag_is_fan, tag_is_free, tag_is_prim, tag_is_rep, tag_polarity};

verus! {

/// What the agent facing a demanded port turned out to be.
#[derive(Debug, Clone, Copy, PartialEq, Eq, Structural)]
pub enum ValueHead {
    /// An abstraction.
    Abs,
    /// A primitive value or function.
    Prim,
    /// Head normal but no value: a free variable, an eraser or nothing;
    /// carries the head's port.
    Stuck(PortId),
}

/// Limits of a forcing run; `None` is unbounded.
#[derive(Debug, Clone, Copy)]
pub struct NormalizeConfig {
    /// Stop after this many rule firings.
    pub max_steps: Option<u64>,
    /// Stop once the arena holds more slots than this.
    pub max_agents: Option<u32>,
}

impl Default for NormalizeConfig {
    fn default() -> (c: NormalizeConfig)
        ensures
            c.max_steps is None && c.max_agents is None,
    {
        NormalizeConfig { max_steps: None, max_agents: None }
    }
}

/// The classification of head port `head`: a value, head normal, or still
/// reducible (`None`: an application or a replicator).
pub open spec fn spec_classify(slots: Seq<crate::slot::Slot>, head: PortId) -> Option<ValueHead> {
    if is_virtual(head) {
        Some(ValueHead::Stuck(head))
    } else {
        let t = slots[raw_slot(head.0) as int].tag;
        if tag_is_fan(t) && tag_bit0(t) {
            Some(ValueHead::Abs)
        } else if tag_is_prim(t) {
            Some(ValueHead::Prim)
        } else if tag_is_free(t) {
            Some(ValueHead::Stuck(head))
        } else {
            None
        }
    }
}

/// A head facing a replicator or an application is still reducible: it is
/// neither a value nor head normal, so forcing it goes on firing pairs.
pub proof fn lemma_rep_or_app_head_is_reducible(slots: Seq<crate::slot::Slot>, head: PortId)
    requires
        !is_virtual(head),
        ({
            let t = slots[raw_slot(head.0) as int].tag;
            tag_is_rep(t) || (tag_is_fan(t) && !tag_bit0(t))
        }),
    ensures
        spec_classify(slots, head) is None,
{
    crate::slot::lemma_classes_exclusive(slots[raw_slot(head.0) as int].tag);
}

/// Only a free variable (or a virtual port) is head normal without being a
/// value; an abstraction and a primitive are values.
pub proof fn lemma_free_head_is_stuck(slots: Seq<crate::slot::Slot>, head: PortId)
    requires
        !is_virtual(head),
    ensures
        tag_is_free(slots[raw_slot(head.0) as int].tag) ==> spec_classify(slots, head) == Some(
            ValueHead::Stuck(head),
        ),
        ({
            let t = slots[raw_slot(head.0) as int].tag;
            tag_is_fan(t) && tag_bit0(t)
        }) ==> spec_classify(slots, head) == Some(ValueHead::Abs),
        tag_is_prim(slots[raw_slot(head.0) as int].tag) ==> spec_classify(slots, head) == Some(
            ValueHead::Prim,
        ),
{
    crate::slot::lemma_classes_exclusive(slots[raw_slot(head.0) as int].tag);
}

/// The port facing `port`.
pub fn head_at<C: NetClassMarker>(net: &Net<Proper, C>, port: PortId) -> (h: PortId)
    requires
        net.wf(),
        is_virtual(port) || port_in(port, net.n_slots()),
    ensures
        h == spec_peer(net.slots(), port),
        is_virtual(h) || port_in(h, net.n_slots()),
{
    proof {
        if !is_virtual(port) {
            net.lemma_words_in(raw_slot(port.0) as int);
        }
    }
    net.peer(port)
}

/// Classify the agent behind head port `head`.
pub fn classify_head<C: NetClassMarker>(net: &Net<Proper, C>, head: PortId) -> (r: Option<ValueHead>)
    requires
        is_virtual(head) || port_in(head, net.n_slots()),
    ensures
        r == spec_classify(net.slots(), head),
{
    if head.is_eraser() || head.is_null() {
        return Some(ValueHead::Stuck(head));
    }
    let s = net.slot(head);
    if s.is_fan() && s.fan_is_abs() {
        return Some(ValueHead::Abs);
    }
    if s.is_prim() {
        return Some(ValueHead::Prim);
    }
    if s.is_free() {
        return Some(ValueHead::Stuck(head));
    }
    None
}

/// Reduce until the agent facing `port` is a value, firing pairs in
/// leftmost-outermost order; stop stuck when no live pair is left, or with
/// an error when a limit of `cfg` is passed.
pub fn force_whnf<C: CRules>(net: &mut Net<Proper, C>, port: PortId, cfg: &NormalizeConfig) -> (r: Result<
    ValueHead,
    DnxError,
>)
    requires
        old(net).wf(),
        is_virtual(port) || port_in(port, old(net).n_slots()),
    ensures
        final(net).wf(),
        r matches Ok(v) ==> match v {
            ValueHead::Stuck(h) => h == spec_peer(final(net).slots(), port) && (spec_classify(
                final(net).slots(),
                h,
            ) == Some(ValueHead::Stuck(h)) || (spec_classify(final(net).slots(), h) is None
                && final(net).frontier1.entries@.len() == 0)),
            _ => spec_classify(final(net).slots(), spec_peer(final(net).slots(), port)) == Some(v),
        },
        r matches Ok(ValueHead::Stuck(h)) ==> is_virtual(h) || tag_is_free(
            final(net).slots()[raw_slot(h.0) as int].tag,
        ) || final(net).frontier1.entries@.len() == 0,
        r matches Err(DnxError::StepLimitExceeded(s)) ==> (cfg.max_steps matches Some(m) && s > m)
            || s == u64::MAX,
        r matches Err(e) ==> e is StepLimitExceeded || e == DnxError::ArenaCapacityExceeded || e
            == DnxError::LOPathDepthExceeded || e == DnxError::DeltaOverflow || e == DnxError::ReadbackIncomplete,
        final(net).arena.cap == old(net).arena.cap,
{
    let mut steps: u64 = 0;
    let mut stats = ReduceStats { interactions: 0, r4_count: 0 };
    loop
        invariant
            net.wf(),
            is_virtual(port) || port_in(port, net.n_slots()),
            stats.r4_count <= steps,
            net.arena.cap == old(net).arena.cap,
        decreases u64::MAX - steps,
    {
        let head = head_at(net, port);
        match classify_head(net, head) {
            Some(vh) => {
                return Ok(vh);
            },
            None => {},
        }
        let pair: ActivePair;
        loop
            invariant
                net.wf(),
                is_virtual(port) || port_in(port, net.n_slots()),
                head == spec_peer(net.slots(), port),
                spec_classify(net.slots(), head) is None,
                net.arena.cap == old(net).arena.cap,
            ensures
                net.wf(),
                is_virtual(port) || port_in(port, net.n_slots()),
                pair.lo.wf(),
                crate::reduce::spec_port_live(pair.p0.0, net),
                crate::reduce::spec_port_live(pair.p1.0, net),
                net.arena.cap == old(net).arena.cap,
            decreases net.frontier1.entries@.len(),
        {
            let ghost before = net.frontier1.entries@;
            match net.frontier1.pop_first() {
                None => {
                    return Ok(ValueHead::Stuck(head));
                },
                Some(e) => {
                    proof {
                        assert(before[before.len() - 1] == before.last());
                    }
                    if !is_stale_pair(&e.1, net) {
                        pair = e.1;
                        break;
                    }
                },
            }
        }
        if steps == u64::MAX {
            return Err(DnxError::StepLimitExceeded(steps));
        }
        steps = steps + 1;
        match cfg.max_steps {
            Some(max) => {
                if steps > max {
                    return Err(DnxError::StepLimitExceeded(steps));
                }
            },
            None => {},
        }
        match cfg.max_agents {
            Some(max_a) => {
                if net.arena.slot_count() as u64 > max_a as u64 {
                    return Err(DnxError::ArenaCapacityExceeded);
                }
            },
            None => {},
        }
        match dispatch_phase1(net, pair, &mut stats) {
            Ok(()) => {},
            Err(e) => {
                return Err(e);
            },
        }
    }
}

/// Most steps a spine walk takes.
pub const SPINE_FUEL: u32 = 1_000_000;

/// The walk down the demand spine from `cur`: follow the wire; a principal
/// port at the other end ends the walk with the pair `(cur, q)`, an
/// auxiliary port leads on to its agent's principal port. The result carries
/// the auxiliary turns taken (`false` = first auxiliary). `None`: the spine
/// ends in a virtual port or a free slot, or takes more than `fuel` steps.
pub open spec fn spine_walk(slots: Seq<Slot>, cur: PortId, fuel: nat) -> Option<
    (PortId, PortId, Seq<bool>),
>
    decreases fuel,
{
    if fuel == 0 {
        None
    } else {
        let q = spec_peer(slots, cur);
        if is_virtual(q) {
            None
        } else if raw_kind(q.0) == PortKind::Principal {
            if tag_is_free(slots[raw_slot(q.0) as int].tag) || tag_is_free(
                slots[raw_slot(cur.0) as int].tag,
            ) {
                None
            } else {
                Some((cur, q, Seq::<bool>::empty()))
            }
        } else {
            let next = PortId(pack(raw_slot(q.0), PortKind::Principal, raw_gen(q.0)));
            match spine_walk(slots, next, (fuel - 1) as nat) {
                Some((a, b, d)) => Some((a, b, seq![raw_kind(q.0) != PortKind::Aux0] + d)),
                None => None,
            }
        }
    }
}

/// Both ports carry a polarity, and the same one.
pub open spec fn same_polarity(slots: Seq<Slot>, a: PortId, b: PortId) -> bool {
    &&& tag_polarity(slots[raw_slot(a.0) as int].tag, raw_kind(a.0)) is Some
    &&& tag_polarity(slots[raw_slot(a.0) as int].tag, raw_kind(a.0)) == tag_polarity(
        slots[raw_slot(b.0) as int].tag,
        raw_kind(b.0),
    )
}

/// The pair joins `a` and `b`, in either order.
pub open spec fn pair_joins(ap: ActivePair, a: PortId, b: PortId) -> bool {
    (ap.p0.0 == a && ap.p1.0 == b) || (ap.p0.0 == b && ap.p1.0 == a)
}

/// `r` is the pair built from the wires: `a` and `b` with the path `d`,
/// when `a` is a principal port.
pub open spec fn built_pair(r: Option<ActivePair>, a: PortId, b: PortId, d: Seq<bool>) -> bool {
    &&& r is Some <==> raw_kind(a.0) == PortKind::Principal
    &&& r matches Some(p) ==> p.p0.0 == a && p.p1.0 == b && p.lo.wf() && p.lo.bits() == d
}

/// What taking the spine pair `(a, b)` with path `d` does to the first
/// frontier, now `es2`, and returns: without an entry joining the two ports
/// the frontier stays and the pair is built; else the last such entry (the
/// leftmost-outermost) leaves, and is returned when both its ends are live.
pub open spec fn takes_spine_pair<C: NetClassMarker>(
    net: &Net<Proper, C>,
    es2: Seq<(LOPath, ActivePair)>,
    r: Option<ActivePair>,
    a: PortId,
    b: PortId,
    d: Seq<bool>,
) -> bool {
    let es = net.frontier1.entries@;
    &&& (forall|i: int| 0 <= i < es.len() ==> !pair_joins(#[trigger] es[i].1, a, b)) ==> es2
        == es && built_pair(r, a, b, d)
    &&& (exists|i: int| 0 <= i < es.len() && pair_joins(#[trigger] es[i].1, a, b)) ==> exists|
        k: int,
    |
        0 <= k < es.len() && pair_joins(#[trigger] es[k].1, a, b) && (forall|j: int|
            k < j < es.len() ==> !pair_joins(#[trigger] es[j].1, a, b)) && es2 == es.remove(k) && (
        if spec_port_live(es[k].1.p0.0, net) && spec_port_live(es[k].1.p1.0, net) {
            r == Some(es[k].1)
        } else {
            built_pair(r, a, b, d)
        })
}

/// Walk the demand spine of `port`; the two principal ports at its top and
/// the path of turns to them.
fn walk_spine<C: NetClassMarker>(net: &Net<Proper, C>, port: PortId) -> (r: Option<
    (PortId, PortId, LOPath),
>)
    requires
        net.wf(),
        is_virtual(port) || port_in(port, net.n_slots()),
    ensures
        ({
            let w = spine_walk(net.slots(), port, SPINE_FUEL as nat);
            &&& w is None ==> r is None
            &&& w matches Some((a, b, d)) ==> (d.len() > 512 ==> r is None)
            &&& w matches Some((a, b, d)) ==> (d.len() <= 512 ==> (r matches Some((a2, b2, lo))
                && a2 == a && b2 == b && lo.wf() && lo.bits() == d))
        }),
        r matches Some((a, b, lo)) ==> port_in(a, net.n_slots()) && port_in(b, net.n_slots())
            && raw_kind(b.0) == PortKind::Principal && lo.wf() && spine_walk(
            net.slots(),
            port,
            SPINE_FUEL as nat,
        ) == Some((a, b, lo.bits())),
{
    let ghost slots = net.slots();
    let ghost w = spine_walk(slots, port, SPINE_FUEL as nat);
    let mut cur = port;
    let mut lo = LOPath::root();
    let mut guard: u32 = 0;
    proof {
        assert(lo.bits() + Seq::<bool>::empty() =~= Seq::<bool>::empty());
        match spine_walk(slots, port, SPINE_FUEL as nat) {
            Some((a, b, d)) => {
                assert(lo.bits() + d =~= d);
            },
            None => {},
        }
    }
    loop
        invariant
            net.wf(),
            slots == net.slots(),
            w == spine_walk(slots, port, SPINE_FUEL as nat),
            guard <= SPINE_FUEL,
            is_virtual(cur) || port_in(cur, net.n_slots()),
            lo.wf(),
            w == (match spine_walk(slots, cur, (SPINE_FUEL - guard) as nat) {
                Some((a, b, d)) => Some((a, b, lo.bits() + d)),
                None => None,
            }),
        decreases SPINE_FUEL - guard,
    {
        if guard == SPINE_FUEL {
            return None;
        }
        guard = guard + 1;
        let q = net.peer(cur);
        proof {
            if !is_virtual(cur) {
                net.lemma_words_in(raw_slot(cur.0) as int);
            }
        }
        if q.is_null() || q.is_eraser() {
            return None;
        }
        if q.port_kind() == PortKind::Principal {
            if net.slot(q).is_free() {
                return None;
            }
            if net.slot(cur).is_free() {
                return None;
            }
            proof {
                assert(lo.bits() + Seq::<bool>::empty() =~= lo.bits());
            }
            return Some((cur, q, lo));
        }
        let ghost fuel = (SPINE_FUEL - guard) as nat;
        let ghost next = PortId(pack(raw_slot(q.0), PortKind::Principal, raw_gen(q.0)));
        let ghost turn = raw_kind(q.0) != PortKind::Aux0;
        let ext = match q.port_kind() {
            PortKind::Aux0 => lo.extend_left(),
            _ => lo.extend_right(),
        };
        match ext {
            Ok(l) => {
                proof {
                    match spine_walk(slots, next, fuel) {
                        Some((a, b, d)) => {
                            assert(lo.bits() + (seq![turn] + d) =~= l.bits() + d);
                        },
                        None => {},
                    }
                }
                lo = l;
            },
            Err(_) => {
                proof {
                    match spine_walk(slots, next, fuel) {
                        Some((a, b, d)) => {
                            assert((lo.bits() + (seq![turn] + d)).len() > 512);
                        },
                        None => {},
                    }
                }
                return None;
            },
        }
        cur = PortId::new(q.slot_idx(), PortKind::Principal, q.gen_low());
    }
}

/// Take the leftmost-outermost redex on `port`'s demand spine: the two
/// principal ports at the top of the spine, when they face each other with
/// opposite polarities. A frontier entry holding that pair is taken out; it
/// is handed back when both its ends are live, else a pair is built from the
/// wires with the path walked. The arena is not touched.
pub fn take_spine_redex<C: NetClassMarker>(net: &mut Net<Proper, C>, port: PortId) -> (r: Option<
    ActivePair,
>)
    requires
        old(net).wf(),
        is_virtual(port) || port_in(port, old(net).n_slots()),
    ensures
        final(net).wf(),
        final(net).arena == old(net).arena,
        final(net).frontier2 == old(net).frontier2,
        final(net).free_slots == old(net).free_slots,
        final(net).net_flags == old(net).net_flags,
        ({
            let w = spine_walk(old(net).slots(), port, SPINE_FUEL as nat);
            let es = old(net).frontier1.entries@;
            &&& w is None ==> r is None && final(net).frontier1.entries@ == es
            &&& w matches Some((a, b, d)) ==> ((d.len() > 512 || same_polarity(
                old(net).slots(),
                a,
                b,
            )) ==> r is None && final(net).frontier1.entries@ == es)
            &&& w matches Some((a, b, d)) ==> ((d.len() <= 512 && !same_polarity(
                old(net).slots(),
                a,
                b,
            )) ==> takes_spine_pair(old(net), final(net).frontier1.entries@, r, a, b, d))
        }),
{
    let walked = walk_spine(net, port);
    let (pa, pb, lo) = match walked {
        None => {
            return None;
        },
        Some(t) => t,
    };
    let pol_a = net.slot(pa).polarity(pa.port_kind());
    let pol_b = net.slot(pb).polarity(pb.port_kind());
    match (pol_a, pol_b) {
        (Some(x), Some(y)) => {
            if x == y {
                return None;
            }
        },
        _ => {},
    }
    let ghost es = net.frontier1.entries@;
    let n = net.frontier1.len();
    let mut i = n;
    let mut found: Option<usize> = None;
    while i > 0 && found.is_none()
        invariant
            i <= n,
            n == es.len(),
            es == net.frontier1.entries@,
            found is None ==> forall|j: int| i <= j < n ==> !pair_joins(#[trigger] es[j].1, pa, pb),
            found matches Some(k) ==> (k == i && k < n && pair_joins(es[k as int].1, pa, pb) && (
            forall|j: int| k < j < n ==> !pair_joins(#[trigger] es[j].1, pa, pb))),
        decreases i,
    {
        i = i - 1;
        let ap = net.frontier1.entry(i).1;
        if (ap.p0.get() == pa && ap.p1.get() == pb) || (ap.p0.get() == pb && ap.p1.get() == pa) {
            found = Some(i);
        }
    }
    match found {
        Some(k) => {
            let (_, pair) = net.frontier1.remove_at(k);
            if !is_stale_pair(&pair, net) {
                return Some(pair);
            }
        },
        None => {
            assert(forall|j: int| 0 <= j < es.len() ==> !pair_joins(#[trigger] es[j].1, pa, pb));
        },
    }
    ActivePair::new(pa, pb, lo)
}

} // verus!
