//! The blob codec: a canonical net to its bytes, and untrusted bytes back
//! to a net that is certified canonical. Malformed input is an error, never
//! a panic, and nothing is sized from an unchecked count.
use vstd::prelude::*;
use crate::blob_format::{
    BlobRecord, CANON_HASH_V1_TAG, Edge, ERASER_IDX, ERASER_SEL, FREE_VAR_ID_MAX, KIND_ERASER,
    KIND_FAN_ABS, KIND_FAN_APP, KIND_FREE_VAR, KIND_REP_IN, get16, get32, kind_of_sel, parse_blob,
    parse_edge, parse_edges, parse_record, parse_records,
};
use crate::canonical_hash::{is_serialization, no_prim_agents, records_from, serialization_of, serialize};
use crate::class::{Canonical, NetClassMarker, Proper};
use crate::error::DnxError;
use crate::lopath::LOPath;
use crate::net::{Net, certify_canonical, into_canonical, is_virtual, labels_kept, port_in, spec_is_canonical, write_slots};
use crate::slot::{Slot, tag_is_fan, tag_is_rep};
use crate::port::{PortId, PortKind, era_raw, pack, raw_gen, raw_slot};

verus! {

/// Serialize a canonical net from `root` (the inverse of `from_blob`).
pub fn to_blob<C: NetClassMarker>(net: &Net<Canonical, C>, root: PortId) -> (r: Result<
    Vec<u8>,
    DnxError,
>)
    requires
        net.wf(),
        is_virtual(root) || port_in(root, net.n_slots()),
    ensures
        r matches Ok(b) ==> is_serialization(b@) && parse_blob(b@) is Some,
        r matches Ok(b) ==> b@ == serialization_of(net.slots(), root),
        r matches Ok(b) ==> parse_blob(b@) == Some(records_from(net.slots(), root)),
        r matches Err(e) ==> e == DnxError::ReadbackIncomplete || e is PrimError,
        is_virtual(root) ==> r == Err::<Vec<u8>, DnxError>(DnxError::ReadbackIncomplete),
        !is_virtual(root) && no_prim_agents(net.slots()) ==> r is Ok,
{
    serialize(net, root)
}

fn read_u8(b: &[u8], p: usize) -> (r: Result<(u8, usize), DnxError>)
    ensures
        (p < b@.len()) == (r is Ok),
        r matches Ok((v, q)) ==> v == b@[p as int] && q == p + 1,
        r is Err ==> r == Err::<(u8, usize), DnxError>(DnxError::ReadbackIncomplete),
{
    if p < b.len() {
        Ok((b[p], p + 1))
    } else {
        Err(DnxError::ReadbackIncomplete)
    }
}

fn read_u32(b: &[u8], p: usize) -> (r: Result<(u32, usize), DnxError>)
    ensures
        (p + 4 <= b@.len()) == (r is Ok),
        r matches Ok((v, q)) ==> v == get32(b@[p as int], b@[p + 1], b@[p + 2], b@[p + 3]) && q == p
            + 4,
        r is Err ==> r == Err::<(u32, usize), DnxError>(DnxError::ReadbackIncomplete),
{
    if p < b.len() && b.len() - p >= 4 {
        let v = (b[p] as u32) | ((b[p + 1] as u32) << 8) | ((b[p + 2] as u32) << 16) | ((b[p
            + 3] as u32) << 24);
        Ok((v, p + 4))
    } else {
        Err(DnxError::ReadbackIncomplete)
    }
}

fn read_u16(b: &[u8], p: usize) -> (r: Result<(u16, usize), DnxError>)
    ensures
        (p + 2 <= b@.len()) == (r is Ok),
        r matches Ok((v, q)) ==> v == get16(b@[p as int], b@[p + 1]) && q == p + 2,
        r is Err ==> r == Err::<(u16, usize), DnxError>(DnxError::ReadbackIncomplete),
{
    if p < b.len() && b.len() - p >= 2 {
        let v = (b[p] as u16) | ((b[p + 1] as u16) << 8);
        Ok((v, p + 2))
    } else {
        Err(DnxError::ReadbackIncomplete)
    }
}

/// The port kind of a selector byte.
fn port_kind_of(sel: u8) -> (r: Result<PortKind, DnxError>)
    ensures
        kind_of_sel(sel) matches Some(k) ==> r == Ok::<PortKind, DnxError>(k),
        kind_of_sel(sel) is None ==> r == Err::<PortKind, DnxError>(DnxError::ReadbackIncomplete),
{
    if sel == 0 {
        Ok(PortKind::Principal)
    } else if sel == 1 {
        Ok(PortKind::Aux0)
    } else if sel == 2 {
        Ok(PortKind::Aux1)
    } else {
        Err(DnxError::ReadbackIncomplete)
    }
}

fn read_edge(b: &[u8], p: usize) -> (r: Result<(Edge, usize), DnxError>)
    ensures
        parse_edge(b@, p as int) matches Some((e, q)) ==> r matches Ok((e2, q2)) && e2 == e && q2
            == q,
        parse_edge(b@, p as int) is None ==> r == Err::<(Edge, usize), DnxError>(
            DnxError::ReadbackIncomplete,
        ),
{
    let (i, p1) = match read_u32(b, p) {
        Ok(v) => v,
        Err(e) => {
            return Err(e);
        },
    };
    let (s, p2) = match read_u8(b, p1) {
        Ok(v) => v,
        Err(e) => {
            return Err(e);
        },
    };
    if i == ERASER_IDX && s == ERASER_SEL {
        return Ok((Edge::Era, p2));
    }
    match port_kind_of(s) {
        Ok(k) => Ok((Edge::To(i, k), p2)),
        Err(e) => Err(e),
    }
}

fn read_edges(b: &[u8], p: usize) -> (r: Result<(Edge, Edge, usize), DnxError>)
    ensures
        parse_edges(b@, p as int) matches Some((e0, e1, q)) ==> r matches Ok((f0, f1, q2)) && f0
            == e0 && f1 == e1 && q2 == q,
        parse_edges(b@, p as int) is None ==> r == Err::<(Edge, Edge, usize), DnxError>(
            DnxError::ReadbackIncomplete,
        ),
{
    let (e0, p1) = match read_edge(b, p) {
        Ok(v) => v,
        Err(e) => {
            return Err(e);
        },
    };
    let (e1, p2) = match read_edge(b, p1) {
        Ok(v) => v,
        Err(e) => {
            return Err(e);
        },
    };
    Ok((e0, e1, p2))
}

/// Decode the record at `p`.
fn read_record(b: &[u8], p: usize) -> (r: Result<(BlobRecord, usize), DnxError>)
    ensures
        parse_record(b@, p as int) matches Some((rec, q)) ==> r matches Ok((rec2, q2)) && rec2
            == rec && q2 == q,
        parse_record(b@, p as int) is None ==> r == Err::<(BlobRecord, usize), DnxError>(
            DnxError::ReadbackIncomplete,
        ),
{
    let (kind, p1) = match read_u8(b, p) {
        Ok(v) => v,
        Err(e) => {
            return Err(e);
        },
    };
    if kind == KIND_ERASER {
        Ok((BlobRecord::Eraser, p1))
    } else if kind == KIND_FREE_VAR {
        let (v, p2) = match read_u32(b, p1) {
            Ok(v) => v,
            Err(e) => {
                return Err(e);
            },
        };
        if v > FREE_VAR_ID_MAX {
            return Err(DnxError::ReadbackIncomplete);
        }
        Ok((BlobRecord::FreeVar(v), p2))
    } else if kind == KIND_FAN_ABS {
        match read_edges(b, p1) {
            Ok((e0, e1, q)) => Ok((BlobRecord::Abs(e0, e1), q)),
            Err(e) => Err(e),
        }
    } else if kind == KIND_FAN_APP {
        match read_edges(b, p1) {
            Ok((e0, e1, q)) => Ok((BlobRecord::App(e0, e1), q)),
            Err(e) => Err(e),
        }
    } else if kind == KIND_REP_IN {
        let (l, p2) = match read_u16(b, p1) {
            Ok(v) => v,
            Err(e) => {
                return Err(e);
            },
        };
        let (d0, p3) = match read_u16(b, p2) {
            Ok(v) => v,
            Err(e) => {
                return Err(e);
            },
        };
        let (d1, p4) = match read_u16(b, p3) {
            Ok(v) => v,
            Err(e) => {
                return Err(e);
            },
        };
        match read_edges(b, p4) {
            Ok((e0, e1, q)) => Ok((BlobRecord::Rep(l, d0 as i16, d1 as i16, e0, e1), q)),
            Err(e) => Err(e),
        }
    } else {
        Err(DnxError::ReadbackIncomplete)
    }
}

proof fn lemma_parse_records_fail(b: Seq<u8>, p: int, m: nat, k: nat)
    requires
        parse_records(b, p, m) is None,
        m <= k,
    ensures
        parse_records(b, p, k) is None,
    decreases k - m,
{
    if m < k {
        lemma_parse_records_fail(b, p, m, (k - 1) as nat);
    }
}


/// Decode a whole blob into its records.
fn read_blob(b: &[u8]) -> (r: Result<Vec<BlobRecord>, DnxError>)
    ensures
        parse_blob(b@) matches Some(rs) ==> r matches Ok(v) && v@ == rs,
        parse_blob(b@) is None ==> r == Err::<Vec<BlobRecord>, DnxError>(DnxError::ReadbackIncomplete),
{
    let (v, p1) = match read_u8(b, 0) {
        Ok(x) => x,
        Err(e) => {
            return Err(e);
        },
    };
    if v != CANON_HASH_V1_TAG {
        return Err(DnxError::ReadbackIncomplete);
    }
    let (n, p2) = match read_u32(b, p1) {
        Ok(x) => x,
        Err(e) => {
            return Err(e);
        },
    };
    let mut records: Vec<BlobRecord> = Vec::new();
    let mut pos: usize = p2;
    let mut i: u32 = 0;
    while i < n
        invariant
            b@.len() >= 5,
            b@[0] == CANON_HASH_V1_TAG,
            n == get32(b@[1], b@[2], b@[3], b@[4]),
            i <= n,
            parse_records(b@, 5, i as nat) == Some((records@, pos as int)),
        decreases n - i,
    {
        let (rec, q) = match read_record(b, pos) {
            Ok(x) => x,
            Err(e) => {
                proof {
                    assert(parse_records(b@, 5, (i + 1) as nat) is None);
                    lemma_parse_records_fail(b@, 5, (i + 1) as nat, n as nat);
                }
                return Err(e);
            },
        };
        records.push(rec);
        pos = q;
        i = i + 1;
    }
    if pos != b.len() {
        return Err(DnxError::ReadbackIncomplete);
    }
    Ok(records)
}

/// A slot shows the agent of a record: its kind and labels.
pub open spec fn slot_shows(s: Slot, rec: BlobRecord) -> bool {
    match rec {
        BlobRecord::Eraser => true,
        BlobRecord::FreeVar(v) => !tag_is_fan(s.tag) && !tag_is_rep(s.tag) && s.data == (v & 0x3FFF) as u16,
        BlobRecord::Abs(_, _) => tag_is_fan(s.tag),
        BlobRecord::App(_, _) => tag_is_fan(s.tag),
        BlobRecord::Rep(l, d0, d1, _, _) => tag_is_rep(s.tag) && s.data == l && s.delta0 == d0 && s.delta1 == d1,
    }
}

/// The number of records that stand for agents (all but erasers).
pub open spec fn agents_of(rs: Seq<BlobRecord>) -> nat
    decreases rs.len(),
{
    if rs.len() == 0 {
        0
    } else {
        agents_of(rs.drop_last()) + if rs.last() is Eraser {
            0nat
        } else {
            1nat
        }
    }
}

/// Allocate the agent of a record and return its principal port (the
/// eraser port for an eraser record).
fn alloc_record<C: NetClassMarker>(net: &mut Net<Proper, C>, rec: &BlobRecord) -> (r: Result<
    PortId,
    DnxError,
>)
    requires
        old(net).wf(),
    ensures
        final(net).wf(),
        final(net).n_slots() >= old(net).n_slots(),
        r matches Ok(p) ==> port_in(p, final(net).n_slots()),
        r matches Err(e) ==> e == DnxError::ArenaCapacityExceeded,
        *rec is Eraser ==> r == Ok::<PortId, DnxError>(PortId(era_raw())) && *final(net) == *old(net),
        !(*rec is Eraser) ==> (r matches Ok(p) ==> !is_virtual(p) && old(net).allocated_at(final(net), raw_slot(p.0))
            && !old(net).arena.has_live(raw_slot(p.0)) && final(net).arena.has_live(raw_slot(p.0))
            && slot_shows(final(net).slots()[raw_slot(p.0) as int], *rec)),
{
    proof {
        crate::slot::lemma_agent_tags();
        assert((0u32 >> 4u32) == 0u32) by (bit_vector);
    }
    match *rec {
        BlobRecord::Eraser => {
            proof {
                crate::port::lemma_sentinels();
            }
            Ok(PortId::era())
        },
        BlobRecord::FreeVar(v) => {
            let r = net.alloc_free(v);
            proof {
                if let Ok(p) = r {
                    crate::net::lemma_ports_of(raw_slot(p.0), net.slots()[raw_slot(p.0) as int].generation as u32);
                }
            }
            r
        },
        BlobRecord::Abs(_, _) => match net.alloc_abs() {
            Ok(a) => {
                proof {
                    crate::net::lemma_ports_of(raw_slot(a.principal.0), net.slots()[raw_slot(a.principal.0) as int].generation as u32);
                }
                Ok(a.principal)
            },
            Err(e) => Err(e),
        },
        BlobRecord::App(_, _) => match net.alloc_app() {
            Ok(a) => {
                proof {
                    crate::net::lemma_ports_of(raw_slot(a.principal.0), net.slots()[raw_slot(a.principal.0) as int].generation as u32);
                }
                Ok(a.principal)
            },
            Err(e) => Err(e),
        },
        BlobRecord::Rep(l, d0, d1, _, _) => match net.alloc_rep_in(l, d0, d1) {
            Ok(a) => {
                proof {
                    crate::net::lemma_ports_of(raw_slot(a.principal.0), net.slots()[raw_slot(a.principal.0) as int].generation as u32);
                }
                Ok(a.principal)
            },
            Err(e) => Err(e),
        },
    }
}

/// The port of kind `kind` on the agent that `base` names.
pub open spec fn port_on(base: PortId, kind: PortKind) -> PortId {
    PortId(pack(raw_slot(base.0), kind, raw_gen(base.0)))
}

/// The port an edge names among the agents allocated so far: an eraser, or
/// the given port of the agent of that record; none when the record index
/// is out of range.
pub open spec fn resolved(slots: Seq<PortId>, edge: Edge) -> Option<PortId> {
    match edge {
        Edge::Era => Some(PortId(era_raw())),
        Edge::To(idx, kind) => if idx < slots.len() {
            Some(port_on(slots[idx as int], kind))
        } else {
            None
        },
    }
}

/// The port an edge names among the allocated agents.
fn resolve(slots: &Vec<PortId>, edge: Edge, Ghost(n): Ghost<int>) -> (r: Result<PortId, DnxError>)
    requires
        1 <= n,
        forall|j: int| 0 <= j < slots@.len() ==> port_in(#[trigger] slots@[j], n),
    ensures
        r matches Ok(p) ==> port_in(p, n),
        r matches Err(e) ==> e == DnxError::ReadbackIncomplete,
        resolved(slots@, edge) matches Some(d) ==> r == Ok::<PortId, DnxError>(d),
        resolved(slots@, edge) is None ==> r is Err,
{
    match edge {
        Edge::Era => {
            proof {
                crate::port::lemma_sentinels();
            }
            Ok(PortId::era())
        },
        Edge::To(idx, kind) => {
            if (idx as usize) < slots.len() {
                let base = slots[idx as usize];
                let p = PortId::new(base.slot_idx(), kind, base.gen_low());
                Ok(p)
            } else {
                Err(DnxError::ReadbackIncomplete)
            }
        },
    }
}

/// Wire port `kind` of the agent at `base` to the target of `edge`.
fn wire_edge<C: NetClassMarker>(
    net: &mut Net<Proper, C>,
    slots: &Vec<PortId>,
    base: PortId,
    kind: PortKind,
    edge: Edge,
) -> (r: Result<(), DnxError>)
    requires
        old(net).wf(),
        port_in(base, old(net).n_slots()),
        forall|j: int| 0 <= j < slots@.len() ==> port_in(#[trigger] slots@[j], old(net).n_slots()),
    ensures
        final(net).wf(),
        final(net).n_slots() == old(net).n_slots(),
        r matches Err(e) ==> e == DnxError::ReadbackIncomplete,
        final(net).arena.live_list@ == old(net).arena.live_list@,
        labels_kept(old(net).slots(), final(net).slots()),
        resolved(slots@, edge) is None ==> r is Err && *final(net) == *old(net),
        resolved(slots@, edge) matches Some(d) ==> {
            &&& r is Ok
            &&& final(net).slots() == write_slots(
                write_slots(old(net).slots(), port_on(base, kind), d),
                d,
                port_on(base, kind),
            )
            &&& final(net).arena.free@ == old(net).arena.free@
            &&& final(net).arena.cap == old(net).arena.cap
        },
{
    let dst = match resolve(slots, edge, Ghost(net.n_slots())) {
        Ok(d) => d,
        Err(e) => {
            return Err(e);
        },
    };
    let src = PortId::new(base.slot_idx(), kind, base.gen_low());
    let _ = net.connect(src, dst, LOPath::root());
    Ok(())
}

/// Decode an untrusted blob into a canonical net and its root (the agent of
/// the first record). Malformed bytes, an empty net, an edge to a missing
/// agent, or a wiring with a redex (which no canonical net has) are
/// rejected.
pub fn from_blob<C: NetClassMarker>(bytes: &[u8]) -> (r: Result<(Net<Canonical, C>, PortId), DnxError>)
    ensures
        parse_blob(bytes@) is None ==> r == Err::<(Net<Canonical, C>, PortId), DnxError>(
            DnxError::ReadbackIncomplete,
        ),
        parse_blob(bytes@) == Some(Seq::<BlobRecord>::empty()) ==> r == Err::<
            (Net<Canonical, C>, PortId),
            DnxError,
        >(DnxError::ReadbackIncomplete),
        r matches Ok((net, root)) ==> {
            &&& net.wf()
            &&& spec_is_canonical(&net)
            &&& is_virtual(root) || port_in(root, net.n_slots())
            &&& parse_blob(bytes@) matches Some(rs) && rs.len() > 0
        },
        r matches Err(e) ==> e == DnxError::ReadbackIncomplete || e == DnxError::ArenaCapacityExceeded,
        r matches Ok((net, root)) ==> parse_blob(bytes@) matches Some(rs) && net.arena.live_list@.len()
            == agents_of(rs) && (!(rs[0] is Eraser) ==> !is_virtual(root) && slot_shows(
            net.slots()[raw_slot(root.0) as int],
            rs[0],
        )),
{
    let records = match read_blob(bytes) {
        Ok(v) => v,
        Err(e) => {
            return Err(e);
        },
    };
    if records.len() == 0 {
        return Err(DnxError::ReadbackIncomplete);
    }
    let count = records.len();
    let cap: u32 = if count >= 0xFFFF_FFFF {
        0xFFFF_FFFF
    } else {
        let c = (count as u32) + 1;
        if c < 2 {
            2
        } else {
            c
        }
    };
    let mut net = Net::<Proper, C>::new(cap);
    let mut slots: Vec<PortId> = Vec::new();
    let mut i: usize = 0;
    while i < count
        invariant
            net.wf(),
            count == records@.len(),
            parse_blob(bytes@) == Some(records@),
            count > 0,
            i <= count,
            slots@.len() == i,
            forall|j: int| 0 <= j < slots@.len() ==> port_in(#[trigger] slots@[j], net.n_slots()),
            net.arena.live_list@.len() == agents_of(records@.take(i as int)),
            i > 0 && !(records@[0] is Eraser) ==> !is_virtual(slots@[0]) && net.arena.has_live(raw_slot(slots@[0].0))
                && slot_shows(net.slots()[raw_slot(slots@[0].0) as int], records@[0]),
        decreases count - i,
    {
        let ghost before = net;
        let p = match alloc_record(&mut net, &records[i]) {
            Ok(p) => p,
            Err(e) => {
                return Err(e);
            },
        };
        proof {
            let t = records@.take(i + 1);
            assert(t.drop_last() =~= records@.take(i as int));
            assert(t.last() == records@[i as int]);
            if i > 0 && !(records@[0] is Eraser) {
                let x = raw_slot(slots@[0].0);
                if !(records@[i as int] is Eraser) {
                    assert(x != raw_slot(p.0));
                    let pos = before.arena.live_pos@[x];
                    assert(before.arena.live_list@[pos as int] == x);
                    assert(net.arena.live_list@[pos as int] == x);
                    before.arena.lemma_live_in_range(x);
                }
            }
            if i == 0 && !(records@[0] is Eraser) {
                assert(slots@.push(p)[0] == p);
            }
        }
        slots.push(p);
        i = i + 1;
    }
    proof {
        assert(records@.take(count as int) =~= records@);
    }
    let mut k: usize = 0;
    while k < count
        invariant
            net.wf(),
            count == records@.len(),
            parse_blob(bytes@) == Some(records@),
            count > 0,
            slots@.len() == count,
            k <= count,
            forall|j: int| 0 <= j < slots@.len() ==> port_in(#[trigger] slots@[j], net.n_slots()),
            net.arena.live_list@.len() == agents_of(records@),
            !(records@[0] is Eraser) ==> !is_virtual(slots@[0]) && slot_shows(
                net.slots()[raw_slot(slots@[0].0) as int],
                records@[0],
            ),
        decreases count - k,
    {
        let base = slots[k];
        let res = match records[k] {
            BlobRecord::Abs(e0, e1) => match wire_edge(&mut net, &slots, base, PortKind::Aux0, e0) {
                Ok(()) => wire_edge(&mut net, &slots, base, PortKind::Aux1, e1),
                Err(e) => Err(e),
            },
            BlobRecord::App(e0, e1) => match wire_edge(&mut net, &slots, base, PortKind::Principal, e0) {
                Ok(()) => wire_edge(&mut net, &slots, base, PortKind::Aux1, e1),
                Err(e) => Err(e),
            },
            BlobRecord::Rep(_, _, _, e0, e1) => match wire_edge(&mut net, &slots, base, PortKind::Aux0, e0) {
                Ok(()) => wire_edge(&mut net, &slots, base, PortKind::Aux1, e1),
                Err(e) => Err(e),
            },
            _ => Ok(()),
        };
        match res {
            Ok(()) => {},
            Err(e) => {
                return Err(e);
            },
        }
        k = k + 1;
    }
    let root = slots[0];
    let witness = match certify_canonical(&net) {
        Ok(w) => w,
        Err(e) => {
            return Err(e);
        },
    };
    Ok((into_canonical(net, witness), root))
}

} // verus!
