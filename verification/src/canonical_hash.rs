//! Canonical serialization of a net from a root, its BLAKE3 content
//! address, and an intern table that decides identity by exact bytes.
use vstd::prelude::*;
use crate::blob_format::{
    BlobRecord, CANON_HASH_V1_TAG, Edge, enc_blob, enc_edge, enc_record, enc_records, le16, le32,
    lemma_blob_round_trip, parse_blob, record_wf,
};
use crate::class::{Canonical, NetClassMarker};
use crate::error::DnxError;
use crate::net::{AgentPorts, Net, is_virtual, port_in, ports_of, spec_peer};
use crate::port::{PortId, PortKind, raw_gen, raw_is_eraser, raw_kind, raw_slot};
use crate::slot::{Slot, tag_bit0, tag_is_fan, tag_is_free, tag_is_prim, tag_is_rep};

verus! {

/// A 32-byte BLAKE3 digest.
pub type Blake3Hash = [u8; 32];

/// The BLAKE3 digest of a byte string.
pub uninterp spec fn blake3_of(data: Seq<u8>) -> Seq<u8>;

/// Calls `blake3::hash` and returns the 32 bytes of the digest. Trusted to
/// be BLAKE3 of the input, a function of the input bytes alone; nothing
/// further about the digest is stated.
#[verifier::external_body]
pub(crate) fn blake3_hash(data: &[u8]) -> (h: [u8; 32])
    ensures
        h@ == blake3_of(data@),
{
    *blake3::hash(data).as_bytes()
}

/// The digest of a serialization.
pub fn digest_of(bytes: &Vec<u8>) -> (h: Blake3Hash)
    ensures
        h@ == blake3_of(bytes@),
{
    blake3_hash(bytes.as_slice())
}

/// The number of unassigned entries (`u32::MAX`).
pub open spec fn n_unassigned(v: Seq<u32>) -> nat
    decreases v.len(),
{
    if v.len() == 0 {
        0
    } else {
        n_unassigned(v.drop_last()) + if v.last() == 0xFFFF_FFFFu32 {
            1nat
        } else {
            0nat
        }
    }
}

/// Indexing one unindexed slot leaves one fewer unindexed.
pub proof fn lemma_assign_one(v: Seq<u32>, i: int, x: u32)
    requires
        0 <= i < v.len(),
        v[i] == 0xFFFF_FFFFu32,
        x != 0xFFFF_FFFFu32,
    ensures
        n_unassigned(v.update(i, x)) + 1 == n_unassigned(v),
    decreases v.len(),
{
    let w = v.update(i, x);
    if i == v.len() - 1 {
        assert(w.drop_last() =~= v.drop_last());
    } else {
        lemma_assign_one(v.drop_last(), i, x);
        assert(w.drop_last() =~= v.drop_last().update(i, x));
    }
}

proof fn lemma_unassigned_le(v: Seq<u32>)
    ensures
        n_unassigned(v) <= v.len(),
    decreases v.len(),
{
    if v.len() > 0 {
        lemma_unassigned_le(v.drop_last());
    }
}

/// The ports of the agent that `p` names.
pub open spec fn agent_ports(p: PortId) -> AgentPorts {
    ports_of(raw_slot(p.0), raw_gen(p.0) as u32)
}

/// The agent at `p` is a fan or a replicator, whose record carries edges.
pub open spec fn carries_edges(slots: Seq<Slot>, p: PortId) -> bool {
    tag_is_fan(slots[raw_slot(p.0) as int].tag) || tag_is_rep(slots[raw_slot(p.0) as int].tag)
}

/// No agent of the net is primitive: every slot is free, a fan or a
/// replicator.
pub open spec fn no_prim_agents(slots: Seq<Slot>) -> bool {
    forall|i: int|
        0 <= i < slots.len() ==> {
            let t = (#[trigger] slots[i]).tag;
            tag_is_free(t) || tag_is_fan(t) || tag_is_rep(t)
        }
}

/// Port `q` is virtual, indexed, or waiting on `stack` to be visited.
pub open spec fn covered(q: PortId, idx_of: Seq<u32>, stack: Seq<PortId>) -> bool {
    ||| is_virtual(q)
    ||| raw_slot(q.0) < idx_of.len() && idx_of[raw_slot(q.0) as int] != 0xFFFF_FFFFu32
    ||| stack.contains(q)
}

/// Every peer of a visited fan or replicator is covered.
pub open spec fn peers_covered(slots: Seq<Slot>, order: Seq<PortId>, idx_of: Seq<u32>, stack: Seq<PortId>) -> bool {
    forall|k: int|
        0 <= k < order.len() && carries_edges(slots, #[trigger] order[k]) ==> {
            &&& covered(spec_peer(slots, agent_ports(order[k]).principal), idx_of, stack)
            &&& covered(spec_peer(slots, agent_ports(order[k]).aux0), idx_of, stack)
            &&& covered(spec_peer(slots, agent_ports(order[k]).aux1), idx_of, stack)
        }
}

proof fn lemma_covered_pop(q: PortId, idx_of: Seq<u32>, idx2: Seq<u32>, stack: Seq<PortId>)
    requires
        covered(q, idx_of, stack),
        stack.len() > 0,
        idx2.len() == idx_of.len(),
        forall|j: int| 0 <= j < idx_of.len() && idx_of[j] != 0xFFFF_FFFFu32 ==> #[trigger] idx2[j] != 0xFFFF_FFFFu32,
        covered(stack.last(), idx2, stack.drop_last()),
    ensures
        covered(q, idx2, stack.drop_last()),
{
    if !is_virtual(q) && !(raw_slot(q.0) < idx_of.len() && idx_of[raw_slot(q.0) as int] != 0xFFFF_FFFFu32) {
        let i = choose|i: int| 0 <= i < stack.len() && stack[i] == q;
        if i < stack.len() - 1 {
            assert(stack.drop_last()[i] == q);
        }
    } else if !is_virtual(q) {
        assert(idx2[raw_slot(q.0) as int] != 0xFFFF_FFFFu32);
    }
}

proof fn lemma_covered_push(q: PortId, idx_of: Seq<u32>, stack: Seq<PortId>, x: PortId)
    requires
        covered(q, idx_of, stack),
    ensures
        covered(q, idx_of, stack.push(x)),
{
    if stack.contains(q) {
        let i = choose|i: int| 0 <= i < stack.len() && stack[i] == q;
        assert(stack.push(x)[i] == q);
    }
}

/// The depth-first traversal from a state (visited ports in order, index
/// of each slot, ports still to visit): take the top port; a virtual port,
/// or one whose slot is already indexed, is dropped; otherwise it takes the
/// next index and, when it is a fan or a replicator, the peers of its
/// principal, first and second auxiliary ports are visited next, in that
/// order. Ends when nothing is left to visit.
pub open spec fn dfs_run(slots: Seq<Slot>, order: Seq<PortId>, idx_of: Seq<u32>, stack: Seq<PortId>) -> (
    Seq<PortId>,
    Seq<u32>,
)
    decreases n_unassigned(idx_of), stack.len(),
{
    if stack.len() == 0 {
        (order, idx_of)
    } else {
        let p = stack.last();
        let rest = stack.drop_last();
        let i = raw_slot(p.0) as int;
        if is_virtual(p) || i >= idx_of.len() || idx_of[i] != 0xFFFF_FFFFu32 || order.len()
            >= 0xFFFF_FFFF {
            dfs_run(slots, order, idx_of, rest)
        } else {
            proof {
                lemma_assign_one(idx_of, i, order.len() as u32);
            }
            let order2 = order.push(p);
            let idx2 = idx_of.update(i, order.len() as u32);
            let t = slots[i].tag;
            if tag_is_fan(t) || tag_is_rep(t) {
                let ps = agent_ports(p);
                dfs_run(
                    slots,
                    order2,
                    idx2,
                    rest.push(spec_peer(slots, ps.aux1)).push(spec_peer(slots, ps.aux0)).push(
                        spec_peer(slots, ps.principal),
                    ),
                )
            } else {
                dfs_run(slots, order2, idx2, rest)
            }
        }
    }
}

/// The traversal from `root` over a net with slots `slots`: the visited
/// ports in order, and each slot's index (`u32::MAX` when not visited).
pub open spec fn dfs_from(slots: Seq<Slot>, root: PortId) -> (Seq<PortId>, Seq<u32>) {
    dfs_run(slots, Seq::empty(), Seq::new(slots.len(), |j: int| 0xFFFF_FFFFu32), seq![root])
}

/// The record written for the agent at `p` (an eraser stands in where no
/// record can be written).
pub open spec fn record_or_eraser(slots: Seq<Slot>, p: PortId, idx_of: Seq<u32>) -> BlobRecord {
    match record_at(slots, p, idx_of) {
        Some(Ok(r)) => r,
        _ => BlobRecord::Eraser,
    }
}

/// The records of the net from `root`: one per visited agent, in the
/// traversal's order.
pub open spec fn records_from(slots: Seq<Slot>, root: PortId) -> Seq<BlobRecord> {
    let (order, idx_of) = dfs_from(slots, root);
    Seq::new(order.len(), |k: int| record_or_eraser(slots, order[k], idx_of))
}

/// The canonical serialization of the net from `root`.
pub open spec fn serialization_of(slots: Seq<Slot>, root: PortId) -> Seq<u8> {
    enc_blob(records_from(slots, root))
}

/// Canonical indices by depth-first first visit from `root`, following
/// principal, then first, then second auxiliary peers of fans and
/// replicators. Returns the visited ports in order and, per slot, its
/// index (`u32::MAX` when not visited).
fn dfs_assign<C: NetClassMarker>(net: &Net<Canonical, C>, root: PortId) -> (r: (Vec<PortId>, Vec<u32>))
    requires
        net.wf(),
        is_virtual(root) || port_in(root, net.n_slots()),
    ensures
        r.1@.len() == net.n_slots(),
        r.0@.len() <= net.n_slots(),
        forall|i: int| 0 <= i < r.0@.len() ==> port_in(#[trigger] r.0@[i], net.n_slots()) && !is_virtual(r.0@[i]),
        forall|s: int| 0 <= s < r.1@.len() && #[trigger] r.1@[s] != 0xFFFF_FFFFu32 ==> r.1@[s] < r.0@.len(),
        peers_covered(net.slots(), r.0@, r.1@, Seq::empty()),
        is_virtual(root) ==> r.0@.len() == 0,
        !is_virtual(root) ==> r.0@.len() > 0,
        (r.0@, r.1@) == dfs_from(net.slots(), root),
{
    let n = net.arena.slot_count();
    let mut idx_of: Vec<u32> = Vec::new();
    let mut i: usize = 0;
    while i < n
        invariant
            i <= n,
            idx_of@.len() == i,
            forall|j: int| 0 <= j < i ==> #[trigger] idx_of@[j] == 0xFFFF_FFFFu32,
        decreases n - i,
    {
        idx_of.push(0xFFFF_FFFFu32);
        i = i + 1;
    }
    proof {
        assert forall|j: int| 0 <= j < n implies #[trigger] idx_of@[j] == 0xFFFF_FFFFu32 by {}
        lemma_all_unassigned(idx_of@);
        assert(idx_of@ =~= Seq::new(net.slots().len(), |j: int| 0xFFFF_FFFFu32));
    }
    let mut order: Vec<PortId> = Vec::new();
    let mut stack: Vec<PortId> = Vec::new();
    stack.push(root);
    loop
        invariant
            net.wf(),
            n == net.n_slots(),
            n <= crate::arena::MAX_SLOTS,
            idx_of@.len() == n,
            order@.len() + n_unassigned(idx_of@) == n,
            forall|j: int| 0 <= j < stack@.len() ==> is_virtual(#[trigger] stack@[j]) || port_in(stack@[j], n as int),
            forall|k: int| 0 <= k < order@.len() ==> port_in(#[trigger] order@[k], n as int) && !is_virtual(order@[k]),
            forall|s: int| 0 <= s < n && #[trigger] idx_of@[s] != 0xFFFF_FFFFu32 ==> idx_of@[s] < order@.len(),
            peers_covered(net.slots(), order@, idx_of@, stack@),
            is_virtual(root) ==> order@.len() == 0 && (stack@ == seq![root] || stack@.len() == 0),
            !is_virtual(root) ==> order@.len() > 0 || stack@ == seq![root],
            order@.len() == 0 ==> forall|j: int| 0 <= j < n ==> #[trigger] idx_of@[j] == 0xFFFF_FFFFu32,
            dfs_run(net.slots(), order@, idx_of@, stack@) == dfs_from(net.slots(), root),
        ensures
            stack@ =~= Seq::<PortId>::empty(),
        decreases n_unassigned(idx_of@), stack@.len(),
    {
        let ghost stack0 = stack@;
        let port = match stack.pop() {
            None => {
                proof {
                    assert(stack@ =~= Seq::<PortId>::empty());
                }
                break;
            },
            Some(p) => p,
        };
        proof {
            assert(stack@ == stack0.drop_last() && port == stack0.last());
        }
        if port.is_eraser() || port.is_null() {
            proof {
                assert forall|k: int|
                    0 <= k < order@.len() && carries_edges(net.slots(), #[trigger] order@[k]) implies {
                        &&& covered(spec_peer(net.slots(), agent_ports(order@[k]).principal), idx_of@, stack@)
                        &&& covered(spec_peer(net.slots(), agent_ports(order@[k]).aux0), idx_of@, stack@)
                        &&& covered(spec_peer(net.slots(), agent_ports(order@[k]).aux1), idx_of@, stack@)
                    } by {
                    lemma_covered_pop(spec_peer(net.slots(), agent_ports(order@[k]).principal), idx_of@, idx_of@, stack0);
                    lemma_covered_pop(spec_peer(net.slots(), agent_ports(order@[k]).aux0), idx_of@, idx_of@, stack0);
                    lemma_covered_pop(spec_peer(net.slots(), agent_ports(order@[k]).aux1), idx_of@, idx_of@, stack0);
                }
            }
            continue;
        }
        let slot_idx = port.slot_idx();
        if idx_of[slot_idx as usize] != 0xFFFF_FFFFu32 {
            proof {
                assert forall|k: int|
                    0 <= k < order@.len() && carries_edges(net.slots(), #[trigger] order@[k]) implies {
                        &&& covered(spec_peer(net.slots(), agent_ports(order@[k]).principal), idx_of@, stack@)
                        &&& covered(spec_peer(net.slots(), agent_ports(order@[k]).aux0), idx_of@, stack@)
                        &&& covered(spec_peer(net.slots(), agent_ports(order@[k]).aux1), idx_of@, stack@)
                    } by {
                    lemma_covered_pop(spec_peer(net.slots(), agent_ports(order@[k]).principal), idx_of@, idx_of@, stack0);
                    lemma_covered_pop(spec_peer(net.slots(), agent_ports(order@[k]).aux0), idx_of@, idx_of@, stack0);
                    lemma_covered_pop(spec_peer(net.slots(), agent_ports(order@[k]).aux1), idx_of@, idx_of@, stack0);
                }
            }
            continue;
        }
        proof {
            lemma_unassigned_le(idx_of@);
            lemma_assign_one(idx_of@, slot_idx as int, order@.len() as u32);
        }
        let ghost idx0 = idx_of@;
        let ghost order0 = order@;
        let idx = order.len() as u32;
        idx_of.set(slot_idx as usize, idx);
        order.push(port);
        proof {
            assert forall|k: int|
                0 <= k < order0.len() && carries_edges(net.slots(), #[trigger] order0[k]) implies {
                    &&& covered(spec_peer(net.slots(), agent_ports(order0[k]).principal), idx_of@, stack@)
                    &&& covered(spec_peer(net.slots(), agent_ports(order0[k]).aux0), idx_of@, stack@)
                    &&& covered(spec_peer(net.slots(), agent_ports(order0[k]).aux1), idx_of@, stack@)
                } by {
                lemma_covered_pop(spec_peer(net.slots(), agent_ports(order0[k]).principal), idx0, idx_of@, stack0);
                lemma_covered_pop(spec_peer(net.slots(), agent_ports(order0[k]).aux0), idx0, idx_of@, stack0);
                lemma_covered_pop(spec_peer(net.slots(), agent_ports(order0[k]).aux1), idx0, idx_of@, stack0);
            }
            assert forall|k: int| 0 <= k < order0.len() implies #[trigger] order@[k] == order0[k] by {}
        }
        let s = net.slot_view(port);
        if s.is_free() {
            continue;
        }
        if s.is_fan() || s.is_rep() {
            let g = port.gen_low();
            proof {
                crate::net::lemma_ports_of(slot_idx, g as u32);
                assert((g as u32) & 1 == g as u32) by (bit_vector)
                    requires g <= 1;
                assert(((g as u32) & 1) as u8 == g) by (bit_vector)
                    requires g <= 1;
                net.lemma_words_in(slot_idx as int);
            }
            let pa1 = PortId::new(slot_idx, PortKind::Aux1, g);
            let pa0 = PortId::new(slot_idx, PortKind::Aux0, g);
            let pp = PortId::new(slot_idx, PortKind::Principal, g);
            let q1 = net.peer(pa1);
            let q0 = net.peer(pa0);
            let qp = net.peer(pp);
            let ghost stack1 = stack@;
            stack.push(q1);
            stack.push(q0);
            stack.push(qp);
            proof {
                let sl = net.slots();
                let ps = agent_ports(port);
                assert(ps.principal == pp);
                assert(ps.aux0 == pa0);
                assert(ps.aux1 == pa1);
                assert(stack@ == stack1.push(q1).push(q0).push(qp));
                assert(stack@[stack1.len() as int] == q1);
                assert(stack@[stack1.len() as int + 1] == q0);
                assert(stack@[stack1.len() as int + 2] == qp);
                assert forall|k: int|
                    0 <= k < order@.len() && carries_edges(sl, #[trigger] order@[k]) implies {
                        &&& covered(spec_peer(sl, agent_ports(order@[k]).principal), idx_of@, stack@)
                        &&& covered(spec_peer(sl, agent_ports(order@[k]).aux0), idx_of@, stack@)
                        &&& covered(spec_peer(sl, agent_ports(order@[k]).aux1), idx_of@, stack@)
                    } by {
                    if k < order0.len() {
                        let a = spec_peer(sl, agent_ports(order@[k]).principal);
                        let b = spec_peer(sl, agent_ports(order@[k]).aux0);
                        let c = spec_peer(sl, agent_ports(order@[k]).aux1);
                        assert(order@[k] == order0[k]);
                        lemma_covered_push(a, idx_of@, stack1, q1);
                        lemma_covered_push(a, idx_of@, stack1.push(q1), q0);
                        lemma_covered_push(a, idx_of@, stack1.push(q1).push(q0), qp);
                        lemma_covered_push(b, idx_of@, stack1, q1);
                        lemma_covered_push(b, idx_of@, stack1.push(q1), q0);
                        lemma_covered_push(b, idx_of@, stack1.push(q1).push(q0), qp);
                        lemma_covered_push(c, idx_of@, stack1, q1);
                        lemma_covered_push(c, idx_of@, stack1.push(q1), q0);
                        lemma_covered_push(c, idx_of@, stack1.push(q1).push(q0), qp);
                    } else {
                        assert(order@[k] == port);
                    }
                }
            }
        }
    }
    (order, idx_of)
}

proof fn lemma_all_unassigned(v: Seq<u32>)
    requires
        forall|j: int| 0 <= j < v.len() ==> #[trigger] v[j] == 0xFFFF_FFFFu32,
    ensures
        n_unassigned(v) == v.len(),
    decreases v.len(),
{
    if v.len() > 0 {
        assert forall|j: int| 0 <= j < v.drop_last().len() implies #[trigger] v.drop_last()[j] == 0xFFFF_FFFFu32 by {
            assert(v.drop_last()[j] == v[j]);
        }
        lemma_all_unassigned(v.drop_last());
    }
}


/// The edge from port `p`: the eraser when its peer is virtual, else the
/// peer's index and port kind; an unindexed peer is an error.
pub open spec fn edge_at(slots: Seq<Slot>, p: PortId, idx_of: Seq<u32>) -> Result<Edge, DnxError> {
    let q = spec_peer(slots, p);
    if is_virtual(q) {
        Ok(Edge::Era)
    } else if idx_of[raw_slot(q.0) as int] == 0xFFFF_FFFFu32 {
        Err(DnxError::ReadbackIncomplete)
    } else {
        Ok(Edge::To(idx_of[raw_slot(q.0) as int], raw_kind(q.0)))
    }
}

/// Both edges, when neither is an error.
pub open spec fn both_edges(a: Result<Edge, DnxError>, b: Result<Edge, DnxError>) -> Option<(Edge, Edge)> {
    match a {
        Ok(x) => match b {
            Ok(y) => Some((x, y)),
            Err(_) => None,
        },
        Err(_) => None,
    }
}

/// The record of the agent at `port`; none for a primitive agent, whose
/// record cannot be written.
pub open spec fn record_at(slots: Seq<Slot>, port: PortId, idx_of: Seq<u32>) -> Option<Result<BlobRecord, DnxError>> {
    if raw_is_eraser(port.0) {
        Some(Ok(BlobRecord::Eraser))
    } else {
        let s = slots[raw_slot(port.0) as int];
        let ps = agent_ports(port);
        let a0 = edge_at(slots, ps.aux0, idx_of);
        let a1 = edge_at(slots, ps.aux1, idx_of);
        let pr = edge_at(slots, ps.principal, idx_of);
        if tag_is_free(s.tag) {
            Some(Ok(BlobRecord::FreeVar((s.data & 0x3FFF) as u32)))
        } else if tag_is_fan(s.tag) && tag_bit0(s.tag) {
            Some(match both_edges(a0, a1) {
                Some((x, y)) => Ok(BlobRecord::Abs(x, y)),
                None => Err(DnxError::ReadbackIncomplete),
            })
        } else if tag_is_fan(s.tag) {
            Some(match both_edges(pr, a1) {
                Some((x, y)) => Ok(BlobRecord::App(x, y)),
                None => Err(DnxError::ReadbackIncomplete),
            })
        } else if tag_is_rep(s.tag) {
            Some(match both_edges(a0, a1) {
                Some((x, y)) => Ok(BlobRecord::Rep(s.data, s.delta0, s.delta1, x, y)),
                None => Err(DnxError::ReadbackIncomplete),
            })
        } else {
            None
        }
    }
}

/// The edge from port `p`: the eraser for a virtual peer, else the peer's
/// canonical index and port. A peer the traversal did not index is an
/// error.
fn edge_of<C: NetClassMarker>(net: &Net<Canonical, C>, p: PortId, idx_of: &Vec<u32>) -> (r: Result<
    Edge,
    DnxError,
>)
    requires
        net.wf(),
        port_in(p, net.n_slots()),
        idx_of@.len() == net.n_slots(),
    ensures
        r == edge_at(net.slots(), p, idx_of@),
{
    proof {
        if !is_virtual(p) {
            net.lemma_words_in(raw_slot(p.0) as int);
        }
    }
    let peer = net.peer(p);
    if peer.is_eraser() || peer.is_null() {
        return Ok(Edge::Era);
    }
    let i = idx_of[peer.slot_idx() as usize];
    if i == 0xFFFF_FFFFu32 {
        return Err(DnxError::ReadbackIncomplete);
    }
    Ok(Edge::To(i, peer.port_kind()))
}

/// The record of the agent at `port`: its kind, labels and the edges it
/// carries. A primitive agent cannot be serialized yet.
fn record_of<C: NetClassMarker>(net: &Net<Canonical, C>, port: PortId, idx_of: &Vec<u32>) -> (r: Result<
    BlobRecord,
    DnxError,
>)
    requires
        net.wf(),
        port_in(port, net.n_slots()),
        idx_of@.len() == net.n_slots(),
    ensures
        r matches Ok(rec) ==> record_wf(rec),
        r matches Err(e) ==> e == DnxError::ReadbackIncomplete || e is PrimError,
        record_at(net.slots(), port, idx_of@) matches Some(x) ==> r == x,
        record_at(net.slots(), port, idx_of@) is None ==> (r matches Err(e) && e is PrimError),
{
    if port.is_eraser() {
        return Ok(BlobRecord::Eraser);
    }
    let s = net.slot_view(port);
    let slot_idx = port.slot_idx();
    let g = port.gen_low();
    proof {
        crate::net::lemma_ports_of(slot_idx, g as u32);
        assert(((g as u32) & 1) as u8 == g) by (bit_vector)
            requires g <= 1;
    }
    let p_principal = PortId::new(slot_idx, PortKind::Principal, g);
    let p_aux0 = PortId::new(slot_idx, PortKind::Aux0, g);
    let p_aux1 = PortId::new(slot_idx, PortKind::Aux1, g);
    if s.is_free() {
        let v = s.free_var_id();
        proof {
            let d = s.data;
            lemma_id_bits(d);
        }
        return Ok(BlobRecord::FreeVar(v as u32));
    }
    if s.is_fan() && s.fan_is_abs() {
        let e0 = match edge_of(net, p_aux0, idx_of) {
            Ok(e) => e,
            Err(e) => {
                return Err(e);
            },
        };
        let e1 = match edge_of(net, p_aux1, idx_of) {
            Ok(e) => e,
            Err(e) => {
                return Err(e);
            },
        };
        return Ok(BlobRecord::Abs(e0, e1));
    }
    if s.is_fan() {
        let e0 = match edge_of(net, p_principal, idx_of) {
            Ok(e) => e,
            Err(e) => {
                return Err(e);
            },
        };
        let e1 = match edge_of(net, p_aux1, idx_of) {
            Ok(e) => e,
            Err(e) => {
                return Err(e);
            },
        };
        return Ok(BlobRecord::App(e0, e1));
    }
    if s.is_rep() {
        let e0 = match edge_of(net, p_aux0, idx_of) {
            Ok(e) => e,
            Err(e) => {
                return Err(e);
            },
        };
        let e1 = match edge_of(net, p_aux1, idx_of) {
            Ok(e) => e,
            Err(e) => {
                return Err(e);
            },
        };
        return Ok(BlobRecord::Rep(s.data, s.delta0, s.delta1, e0, e1));
    }
    Err(DnxError::PrimError(String::from_str("canonical_hash: PrimVal/PrimFun not yet supported (Phase C)")))
}

pub(crate) fn push_u32(buf: &mut Vec<u8>, x: u32)
    ensures
        final(buf)@ == old(buf)@ + le32(x),
{
    buf.push(x as u8);
    buf.push((x >> 8) as u8);
    buf.push((x >> 16) as u8);
    buf.push((x >> 24) as u8);
    proof {
        assert(final(buf)@ =~= old(buf)@ + le32(x));
    }
}

fn push_u16(buf: &mut Vec<u8>, x: u16)
    ensures
        final(buf)@ == old(buf)@ + le16(x),
{
    buf.push(x as u8);
    buf.push((x >> 8) as u8);
    proof {
        assert(final(buf)@ =~= old(buf)@ + le16(x));
    }
}

fn push_edge(buf: &mut Vec<u8>, e: Edge)
    ensures
        final(buf)@ == old(buf)@ + enc_edge(e),
{
    match e {
        Edge::Era => {
            push_u32(buf, crate::blob_format::ERASER_IDX);
            buf.push(crate::blob_format::ERASER_SEL);
        },
        Edge::To(i, k) => {
            push_u32(buf, i);
            let sel: u8 = match k {
                PortKind::Principal => 0,
                PortKind::Aux0 => 1,
                PortKind::Aux1 => 2,
            };
            buf.push(sel);
        },
    }
    proof {
        assert(final(buf)@ =~= old(buf)@ + enc_edge(e));
    }
}

/// Append the bytes of a record.
pub fn write_record(rec: &BlobRecord, buf: &mut Vec<u8>)
    ensures
        final(buf)@ == old(buf)@ + enc_record(*rec),
{
    match *rec {
        BlobRecord::Eraser => {
            buf.push(crate::blob_format::KIND_ERASER);
        },
        BlobRecord::FreeVar(v) => {
            buf.push(crate::blob_format::KIND_FREE_VAR);
            push_u32(buf, v);
        },
        BlobRecord::Abs(e0, e1) => {
            buf.push(crate::blob_format::KIND_FAN_ABS);
            push_edge(buf, e0);
            push_edge(buf, e1);
        },
        BlobRecord::App(e0, e1) => {
            buf.push(crate::blob_format::KIND_FAN_APP);
            push_edge(buf, e0);
            push_edge(buf, e1);
        },
        BlobRecord::Rep(l, d0, d1, e0, e1) => {
            buf.push(crate::blob_format::KIND_REP_IN);
            push_u16(buf, l);
            push_u16(buf, d0 as u16);
            push_u16(buf, d1 as u16);
            push_edge(buf, e0);
            push_edge(buf, e1);
        },
    }
    proof {
        assert(final(buf)@ =~= old(buf)@ + enc_record(*rec));
    }
}

/// Nets with the same canonical serialization have the same content
/// address.
pub proof fn lemma_same_serialization_same_address(a: Seq<Slot>, ra: PortId, b: Seq<Slot>, rb: PortId)
    requires
        serialization_of(a, ra) == serialization_of(b, rb),
    ensures
        blake3_of(serialization_of(a, ra)) == blake3_of(serialization_of(b, rb)),
{
}

/// A free variable's identifier is the low 14 bits of its data.
proof fn lemma_id_bits(d: u16)
    ensures
        d & 0x3FFF <= 0x3FFF,
{
    assert(d & 0x3FFF <= 0x3FFF) by (bit_vector);
}

/// The traversal visits real agents only: no visited port is virtual.
proof fn lemma_dfs_visits_real(slots: Seq<Slot>, order: Seq<PortId>, idx_of: Seq<u32>, stack: Seq<PortId>)
    requires
        forall|k: int| 0 <= k < order.len() ==> !is_virtual(#[trigger] order[k]),
    ensures
        forall|k: int|
            0 <= k < dfs_run(slots, order, idx_of, stack).0.len() ==> !is_virtual(
                #[trigger] dfs_run(slots, order, idx_of, stack).0[k],
            ),
    decreases n_unassigned(idx_of), stack.len(),
{
    if stack.len() > 0 {
        let p = stack.last();
        let rest = stack.drop_last();
        let i = raw_slot(p.0) as int;
        if is_virtual(p) || i >= idx_of.len() || idx_of[i] != 0xFFFF_FFFFu32 || order.len()
            >= 0xFFFF_FFFF {
            assert(dfs_run(slots, order, idx_of, stack) == dfs_run(slots, order, idx_of, rest));
            lemma_dfs_visits_real(slots, order, idx_of, rest);
        } else {
            lemma_assign_one(idx_of, i, order.len() as u32);
            let order2 = order.push(p);
            let idx2 = idx_of.update(i, order.len() as u32);
            assert forall|k: int| 0 <= k < order2.len() implies !is_virtual(#[trigger] order2[k]) by {
                if k < order.len() {
                    assert(order2[k] == order[k]);
                }
            }
            let t = slots[i].tag;
            if tag_is_fan(t) || tag_is_rep(t) {
                let ps = agent_ports(p);
                let st2 = rest.push(spec_peer(slots, ps.aux1)).push(spec_peer(slots, ps.aux0)).push(
                    spec_peer(slots, ps.principal),
                );
                assert(dfs_run(slots, order, idx_of, stack) == dfs_run(slots, order2, idx2, st2));
                lemma_dfs_visits_real(slots, order2, idx2, st2);
            } else {
                assert(dfs_run(slots, order, idx_of, stack) == dfs_run(slots, order2, idx2, rest));
                lemma_dfs_visits_real(slots, order2, idx2, rest);
            }
        }
    }
}

/// A free variable is written with its identifier: wherever the traversal
/// from `root` visits a free-variable agent, its record is that variable
/// with the low 14 bits of the slot's data.
pub proof fn lemma_free_var_records_carry_ids(slots: Seq<Slot>, root: PortId, k: int)
    requires
        0 <= k < records_from(slots, root).len(),
        tag_is_free(slots[raw_slot(dfs_from(slots, root).0[k].0) as int].tag),
    ensures
        records_from(slots, root)[k] == BlobRecord::FreeVar(
            (slots[raw_slot(dfs_from(slots, root).0[k].0) as int].data & 0x3FFF) as u32,
        ),
{
    lemma_dfs_visits_real(
        slots,
        Seq::empty(),
        Seq::new(slots.len(), |j: int| 0xFFFF_FFFFu32),
        seq![root],
    );
    let p = dfs_from(slots, root).0[k];
    assert(!is_virtual(p));
}

/// Each visited agent is written as a record of its own class: an
/// abstraction as an abstraction, an application as an application, and a
/// replicator as a replicator with its level and deltas (an eraser stands
/// in only where an edge cannot be written).
pub proof fn lemma_records_follow_agents(slots: Seq<Slot>, root: PortId, k: int)
    requires
        0 <= k < records_from(slots, root).len(),
    ensures
        ({
            let s = slots[raw_slot(dfs_from(slots, root).0[k].0) as int];
            let rec = records_from(slots, root)[k];
            &&& tag_is_rep(s.tag) ==> (rec is Eraser || (rec matches BlobRecord::Rep(l, d0, d1, _, _)
                && l == s.data && d0 == s.delta0 && d1 == s.delta1))
            &&& (tag_is_fan(s.tag) && tag_bit0(s.tag)) ==> (rec is Eraser || rec is Abs)
            &&& (tag_is_fan(s.tag) && !tag_bit0(s.tag)) ==> (rec is Eraser || rec is App)
        }),
{
    lemma_dfs_visits_real(
        slots,
        Seq::empty(),
        Seq::new(slots.len(), |j: int| 0xFFFF_FFFFu32),
        seq![root],
    );
    let p = dfs_from(slots, root).0[k];
    assert(!is_virtual(p));
    crate::slot::lemma_classes_exclusive(slots[raw_slot(p.0) as int].tag);
}

/// The records of a net whose root is a free variable: that one variable,
/// with its identifier.
pub proof fn lemma_free_root_records(slots: Seq<Slot>, root: PortId)
    requires
        !is_virtual(root),
        raw_slot(root.0) < slots.len(),
        tag_is_free(slots[raw_slot(root.0) as int].tag),
    ensures
        records_from(slots, root) == seq![
            BlobRecord::FreeVar((slots[raw_slot(root.0) as int].data & 0x3FFF) as u32),
        ],
{
    let init = Seq::new(slots.len(), |j: int| 0xFFFF_FFFFu32);
    let i = raw_slot(root.0) as int;
    let idx2 = init.update(i, 0u32);
    lemma_assign_one(init, i, 0u32);
    assert(seq![root].drop_last() =~= Seq::<PortId>::empty());
    assert(dfs_run(slots, seq![root], idx2, Seq::empty()) == (seq![root], idx2));
    assert(dfs_from(slots, root) == (seq![root], idx2));
    lemma_free_var_records_carry_ids(slots, root, 0);
    assert(records_from(slots, root) =~= seq![
        BlobRecord::FreeVar((slots[raw_slot(root.0) as int].data & 0x3FFF) as u32),
    ]);
}

/// Free variables are told apart by their identifiers: two nets whose roots
/// are free variables have the same serialization exactly when the
/// variables' identifiers are equal.
pub proof fn lemma_free_roots_serialize_by_id(a: Seq<Slot>, ra: PortId, b: Seq<Slot>, rb: PortId)
    requires
        !is_virtual(ra),
        raw_slot(ra.0) < a.len(),
        tag_is_free(a[raw_slot(ra.0) as int].tag),
        !is_virtual(rb),
        raw_slot(rb.0) < b.len(),
        tag_is_free(b[raw_slot(rb.0) as int].tag),
    ensures
        (serialization_of(a, ra) == serialization_of(b, rb)) == ((a[raw_slot(ra.0) as int].data
            & 0x3FFF) == (b[raw_slot(rb.0) as int].data & 0x3FFF)),
{
    lemma_free_root_records(a, ra);
    lemma_free_root_records(b, rb);
    let da = a[raw_slot(ra.0) as int].data;
    let db = b[raw_slot(rb.0) as int].data;
    lemma_id_bits(da);
    lemma_id_bits(db);
    let sa = seq![BlobRecord::FreeVar((da & 0x3FFF) as u32)];
    let sb = seq![BlobRecord::FreeVar((db & 0x3FFF) as u32)];
    lemma_blob_round_trip(sa);
    lemma_blob_round_trip(sb);
    if serialization_of(a, ra) == serialization_of(b, rb) {
        assert(sa[0] == sb[0]);
    }
}

/// The bytes are the format's encoding of some well-formed records.
pub open spec fn is_serialization(b: Seq<u8>) -> bool {
    exists|rs: Seq<BlobRecord>|
        #[trigger] enc_blob(rs) == b && rs.len() > 0 && forall|i: int|
            0 <= i < rs.len() ==> record_wf(#[trigger] rs[i])
}

/// Serialize the part of a canonical net reachable from `root`: one record
/// per agent in depth-first first-visit order. The result always decodes.
pub fn serialize<C: NetClassMarker>(net: &Net<Canonical, C>, root: PortId) -> (r: Result<
    Vec<u8>,
    DnxError,
>)
    requires
        net.wf(),
        is_virtual(root) || port_in(root, net.n_slots()),
    ensures
        r matches Ok(b) ==> is_serialization(b@) && parse_blob(b@) is Some,
        r matches Err(e) ==> e == DnxError::ReadbackIncomplete || e is PrimError,
        is_virtual(root) ==> r == Err::<Vec<u8>, DnxError>(DnxError::ReadbackIncomplete),
        !is_virtual(root) ==> (r is Ok || (r matches Err(e) && e is PrimError)),
        !is_virtual(root) && no_prim_agents(net.slots()) ==> r is Ok,
        r matches Ok(b) ==> b@ == serialization_of(net.slots(), root),
        r matches Ok(b) ==> parse_blob(b@) == Some(records_from(net.slots(), root)),
{
    let (order, idx_of) = dfs_assign(net, root);
    let mut buf: Vec<u8> = Vec::new();
    buf.push(CANON_HASH_V1_TAG);
    let cnt = order.len() as u32;
    push_u32(&mut buf, cnt);
    let ghost mut rs: Seq<BlobRecord> = Seq::empty();
    let mut k: usize = 0;
    while k < order.len()
        invariant
            net.wf(),
            idx_of@.len() == net.n_slots(),
            order@.len() <= net.n_slots(),
            net.n_slots() <= crate::arena::MAX_SLOTS,
            cnt == order@.len(),
            forall|i: int| 0 <= i < order@.len() ==> port_in(#[trigger] order@[i], net.n_slots()) && !is_virtual(order@[i]),
            peers_covered(net.slots(), order@, idx_of@, Seq::empty()),
            is_virtual(root) ==> order@.len() == 0,
            k <= order@.len(),
            rs.len() == k,
            (order@, idx_of@) == dfs_from(net.slots(), root),
            rs =~= Seq::new(k as nat, |j: int| record_or_eraser(net.slots(), order@[j], idx_of@)),
            forall|i: int| 0 <= i < rs.len() ==> record_wf(#[trigger] rs[i]),
            buf@ == seq![CANON_HASH_V1_TAG] + le32(cnt) + enc_records(rs),
        decreases order@.len() - k,
    {
        let rec = match record_of(net, order[k], &idx_of) {
            Ok(r) => r,
            Err(e) => {
                proof {
                    let p = order@[k as int];
                    let sl = net.slots();
                    net.lemma_words_in(raw_slot(p.0) as int);
                    if carries_edges(sl, p) {
                        assert(covered(spec_peer(sl, agent_ports(p).principal), idx_of@, Seq::empty()));
                        assert(covered(spec_peer(sl, agent_ports(p).aux0), idx_of@, Seq::empty()));
                        assert(covered(spec_peer(sl, agent_ports(p).aux1), idx_of@, Seq::empty()));
                    }
                    assert(record_at(sl, p, idx_of@) is None);
                    assert(!no_prim_agents(sl)) by {
                        let t = sl[raw_slot(p.0) as int].tag;
                        assert(!(tag_is_free(t) || tag_is_fan(t) || tag_is_rep(t)));
                    }
                }
                return Err(e);
            },
        };
        write_record(&rec, &mut buf);
        proof {
            let rs2 = rs.push(rec);
            assert(rs2.drop_last() =~= rs);
            assert(enc_records(rs2) == enc_records(rs) + enc_record(rec));
            assert(buf@ =~= seq![CANON_HASH_V1_TAG] + le32(cnt) + enc_records(rs2));
            assert(record_at(net.slots(), order@[k as int], idx_of@) == Some(Ok::<BlobRecord, DnxError>(rec)));
            assert(rs2 =~= Seq::new((k + 1) as nat, |j: int| record_or_eraser(net.slots(), order@[j], idx_of@)));
            rs = rs2;
        }
        k = k + 1;
    }
    if order.len() == 0 {
        return Err(DnxError::ReadbackIncomplete);
    }
    proof {
        assert(buf@ =~= enc_blob(rs));
        lemma_blob_round_trip(rs);
        assert(rs =~= records_from(net.slots(), root));
    }
    Ok(buf)
}

/// The BLAKE3 digest of the serialization of the net from `root`.
pub fn canonical_hash<C: NetClassMarker>(net: &Net<Canonical, C>, root: PortId) -> (r: Result<
    Blake3Hash,
    DnxError,
>)
    requires
        net.wf(),
        is_virtual(root) || port_in(root, net.n_slots()),
    ensures
        r matches Ok(h) ==> exists|b: Seq<u8>| is_serialization(b) && #[trigger] blake3_of(b) == h@,
        r matches Err(e) ==> e == DnxError::ReadbackIncomplete || e is PrimError,
        is_virtual(root) ==> r == Err::<Blake3Hash, DnxError>(DnxError::ReadbackIncomplete),
        !is_virtual(root) ==> (r is Ok || (r matches Err(e) && e is PrimError)),
        !is_virtual(root) && no_prim_agents(net.slots()) ==> r is Ok,
        r matches Ok(h) ==> h@ == blake3_of(serialization_of(net.slots(), root)),
{
    let bytes = match serialize(net, root) {
        Ok(b) => b,
        Err(e) => {
            return Err(e);
        },
    };
    let h = digest_of(&bytes);
    proof {
        assert(is_serialization(bytes@) && blake3_of(bytes@) == h@);
    }
    Ok(h)
}


/// Byte-wise equality of two byte vectors.
pub fn bytes_equal(a: &Vec<u8>, b: &Vec<u8>) -> (r: bool)
    ensures
        r == (a@ == b@),
{
    if a.len() != b.len() {
        return false;
    }
    let mut i: usize = 0;
    while i < a.len()
        invariant
            a@.len() == b@.len(),
            i <= a@.len(),
            forall|j: int| 0 <= j < i ==> a@[j] == b@[j],
        decreases a@.len() - i,
    {
        if a[i] != b[i] {
            return false;
        }
        i = i + 1;
    }
    proof {
        assert(a@ =~= b@);
    }
    true
}

/// The identity of an interned artifact within one intern table.
#[derive(Copy, Clone, PartialEq, Eq, Debug, Structural)]
pub struct ArtifactLocal(pub u64);

/// Serializations and the ids they were given: entry `i` has id `i`, and no
/// two entries hold the same bytes.
pub struct Interner {
    pub table: Vec<(Vec<u8>, u64)>,
}

impl Interner {
    pub open spec fn wf(&self) -> bool {
        &&& self.table@.len() < 0xFFFF_FFFF_FFFF_FFFF
        &&& forall|i: int| 0 <= i < self.table@.len() ==> (#[trigger] self.table@[i]).1 == i
        &&& forall|i: int, j: int|
            0 <= i < j < self.table@.len() ==> (#[trigger] self.table@[i]).0@ != (
            #[trigger] self.table@[j]).0@
    }

    pub open spec fn has_bytes(&self, b: Seq<u8>) -> bool {
        exists|i: int| 0 <= i < self.table@.len() && (#[trigger] self.table@[i]).0@ == b
    }

    pub fn new() -> (t: Interner)
        ensures
            t.wf(),
            t.table@.len() == 0,
    {
        Interner { table: Vec::new() }
    }

    /// The id of `bytes`: the one it already has, or the next fresh id.
    pub fn intern_bytes(&mut self, bytes: Vec<u8>) -> (a: ArtifactLocal)
        requires
            old(self).wf(),
            old(self).table@.len() + 1 < 0xFFFF_FFFF_FFFF_FFFF,
        ensures
            final(self).wf(),
            a.0 < final(self).table@.len(),
            final(self).table@[a.0 as int].0@ == bytes@,
            old(self).has_bytes(bytes@) ==> final(self).table@ == old(self).table@,
            !old(self).has_bytes(bytes@) ==> a.0 == old(self).table@.len() && final(self).table@.len()
                == old(self).table@.len() + 1 && final(self).table@.drop_last() == old(self).table@,
    {
        let mut i: usize = 0;
        while i < self.table.len()
            invariant
                self.wf(),
                *self == *old(self),
                i <= self.table@.len(),
                forall|j: int| 0 <= j < i ==> (#[trigger] self.table@[j]).0@ != bytes@,
            decreases self.table@.len() - i,
        {
            if bytes_equal(&self.table[i].0, &bytes) {
                return ArtifactLocal(self.table[i].1);
            }
            i = i + 1;
        }
        let next = self.table.len() as u64;
        let ghost old_t = self.table@;
        self.table.push((bytes, next));
        proof {
            assert forall|i: int, j: int| 0 <= i < j < self.table@.len() implies (#[trigger] self.table@[i]).0@
                != (#[trigger] self.table@[j]).0@ by {
                if j == old_t.len() {
                    assert(self.table@[i] == old_t[i]);
                } else {
                    assert(self.table@[i] == old_t[i] && self.table@[j] == old_t[j]);
                }
            }
            assert forall|i: int| 0 <= i < self.table@.len() implies (#[trigger] self.table@[i]).1 == i by {
                if i < old_t.len() {
                    assert(self.table@[i] == old_t[i]);
                }
            }
            assert(self.table@.drop_last() =~= old_t);
        }
        ArtifactLocal(next)
    }

    /// Intern the serialization of a canonical net from `root`.
    pub fn intern_local<C: NetClassMarker>(&mut self, net: &Net<Canonical, C>, root: PortId) -> (r: Result<
        ArtifactLocal,
        DnxError,
    >)
        requires
            old(self).wf(),
            old(self).table@.len() + 1 < 0xFFFF_FFFF_FFFF_FFFF,
            net.wf(),
            is_virtual(root) || port_in(root, net.n_slots()),
        ensures
            final(self).wf(),
            r matches Ok(a) ==> a.0 < final(self).table@.len() && is_serialization(
                final(self).table@[a.0 as int].0@,
            ),
            r is Err ==> *final(self) == *old(self),
            r matches Ok(a) ==> final(self).table@ == old(self).table@ || (a.0 == old(self).table@.len()
                && final(self).table@.len() == old(self).table@.len() + 1 && final(self).table@.drop_last()
                == old(self).table@),
            r matches Err(e) ==> e == DnxError::ReadbackIncomplete || e is PrimError,
            is_virtual(root) ==> r == Err::<ArtifactLocal, DnxError>(DnxError::ReadbackIncomplete),
            !is_virtual(root) ==> (r is Ok || (r matches Err(e) && e is PrimError)),
            !is_virtual(root) && no_prim_agents(net.slots()) ==> r is Ok,
            r matches Ok(a) ==> final(self).table@[a.0 as int].0@ == serialization_of(net.slots(), root),
    {
        let bytes = match serialize(net, root) {
            Ok(b) => b,
            Err(e) => {
                return Err(e);
            },
        };
        Ok(self.intern_bytes(bytes))
    }
}

/// Interned artifacts have the same id exactly when their serializations
/// are byte-identical.
pub proof fn lemma_intern_exact(t: &Interner, i: int, j: int)
    requires
        t.wf(),
        0 <= i < t.table@.len(),
        0 <= j < t.table@.len(),
    ensures
        (t.table@[i].0@ == t.table@[j].0@) <==> (t.table@[i].1 == t.table@[j].1),
{
    if i < j {
        assert(t.table@[i].0@ != t.table@[j].0@);
    } else if j < i {
        assert(t.table@[j].0@ != t.table@[i].0@);
    }
}

} // verus!
