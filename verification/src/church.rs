//! Church booleans as nets: `true = λt.λe.t` and `false = λt.λe.e`, built
//! from two abstractions with the unused variable erased, and recognized
//! by that shape.
use vstd::prelude::*;
use crate::class::{NetClassMarker, Proper};
use crate::error::DnxError;
use crate::lopath::LOPath;
use crate::net::{Net, is_virtual, lemma_ports_of, port_in, ports_of, write_slots};
use crate::port::{PortId, era_raw, lemma_sentinels, raw_is_eraser, raw_slot};
use crate::slot::{TAG_FAN_ABS, tag_bit0, tag_is_fan};

verus! {

/// The boolean a port's agent encodes: an abstraction whose body is a live
/// abstraction, with the inner variable erased (true) or else the outer
/// one erased (false).
pub open spec fn church_bool_of<C: NetClassMarker>(net: &Net<Proper, C>, p: PortId) -> Option<bool> {
    let o = net.slots()[raw_slot(p.0) as int];
    let ip = PortId(o.aux0);
    let i = net.slots()[raw_slot(o.aux0) as int];
    if !(tag_is_fan(o.tag) && tag_bit0(o.tag)) {
        None
    } else if is_virtual(ip) || !net.arena.has_live(raw_slot(o.aux0)) {
        None
    } else if !(tag_is_fan(i.tag) && tag_bit0(i.tag)) {
        None
    } else if raw_is_eraser(i.aux1) {
        Some(true)
    } else if raw_is_eraser(o.aux1) {
        Some(false)
    } else {
        None
    }
}

/// Recognize a Church boolean at port `p`; none for any other shape.
pub fn try_church_bool<C: NetClassMarker>(net: &Net<Proper, C>, p: PortId) -> (r: Option<bool>)
    requires
        net.wf(),
        port_in(p, net.n_slots()),
    ensures
        r == church_bool_of(net, p),
{
    let outer = net.slot_view(p);
    if !outer.is_fan() || !outer.fan_is_abs() {
        return None;
    }
    let inner_p = PortId::from_raw(outer.aux0);
    if !net.slot_is_live(inner_p) {
        return None;
    }
    proof {
        net.lemma_words_in(raw_slot(p.0) as int);
    }
    let inner = net.slot_view(inner_p);
    if !inner.is_fan() || !inner.fan_is_abs() {
        return None;
    }
    if PortId::from_raw(inner.aux1).is_eraser() {
        return Some(true);
    }
    if PortId::from_raw(outer.aux1).is_eraser() {
        return Some(false);
    }
    None
}

/// Build the Church boolean `b` and return its root port; it reads back as
/// `b`.
pub fn emit_church_bool<C: NetClassMarker>(net: &mut Net<Proper, C>, b: bool) -> (r: Result<PortId, DnxError>)
    requires
        old(net).wf(),
    ensures
        final(net).wf(),
        final(net).n_slots() >= old(net).n_slots(),
        r matches Err(e) ==> e == DnxError::ArenaCapacityExceeded,
        r matches Ok(p) ==> port_in(p, final(net).n_slots()) && church_bool_of(final(net), p) == Some(b),
        r matches Ok(p) ==> {
            let io = raw_slot(p.0);
            let ii = raw_slot(final(net).slots()[io as int].aux0);
            let o = final(net).slots()[io as int];
            let i = final(net).slots()[ii as int];
            &&& final(net).arena.live_list@ == old(net).arena.live_list@.push(io).push(ii)
            &&& b ==> raw_is_eraser(i.aux1) && i.aux0 == ports_of(io, o.generation).aux1.0
                && o.aux1 == ports_of(ii, i.generation).aux0.0
            &&& !b ==> raw_is_eraser(o.aux1) && i.aux0 == ports_of(ii, i.generation).aux1.0
                && i.aux1 == ports_of(ii, i.generation).aux0.0
            &&& forall|j: int|
                0 <= j < old(net).n_slots() && j != io && j != ii ==> #[trigger] final(net).slots()[j]
                    == old(net).slots()[j]
        },
{
    let lo = LOPath::root();
    let outer = match net.alloc_agent(TAG_FAN_ABS, 0, 0, 0) {
        Ok(a) => a,
        Err(e) => {
            return Err(e);
        },
    };
    let ghost io = raw_slot(outer.principal.0);
    let ghost go = net.slots()[io as int].generation;
    proof {
        lemma_ports_of(io, go);
    }
    let inner = match net.alloc_agent(TAG_FAN_ABS, 0, 0, 0) {
        Ok(a) => a,
        Err(e) => {
            return Err(e);
        },
    };
    let ghost ii = raw_slot(inner.principal.0);
    let ghost gi = net.slots()[ii as int].generation;
    proof {
        lemma_ports_of(ii, gi);
        lemma_sentinels();
        assert(ii != io);
        assert(net.slots()[io as int].tag == TAG_FAN_ABS);
        lemma_abs_tag(TAG_FAN_ABS);
    }
    let ghost s1 = net.slots();
    let _ = net.connect(outer.aux0, inner.principal, lo);
    let ghost s2 = net.slots();
    if b {
        let _ = net.connect(inner.aux0, outer.aux1, lo);
        let ghost s3 = net.slots();
        let _ = net.connect(inner.aux1, Net::<Proper, C>::eraser_port(), lo);
        proof {
            let fo = net.slots()[io as int];
            let fi = net.slots()[ii as int];
            assert(fo.aux0 == inner.principal.0);
            assert(fi.aux1 == era_raw());
            assert((fo.tag & 0x0F) == (s1[io as int].tag & 0x0F));
            assert((fi.tag & 0x0F) == (s1[ii as int].tag & 0x0F));
            lemma_abs_tag(fo.tag);
            lemma_abs_tag(fi.tag);
        }
    } else {
        let _ = net.connect(inner.aux0, inner.aux1, lo);
        let _ = net.connect(outer.aux1, Net::<Proper, C>::eraser_port(), lo);
        proof {
            let fo = net.slots()[io as int];
            let fi = net.slots()[ii as int];
            assert(fo.aux0 == inner.principal.0);
            assert(fi.aux1 == inner.aux0.0);
            assert(fo.aux1 == era_raw());
            assert((fo.tag & 0x0F) == (s1[io as int].tag & 0x0F));
            assert((fi.tag & 0x0F) == (s1[ii as int].tag & 0x0F));
            lemma_abs_tag(fo.tag);
            lemma_abs_tag(fi.tag);
        }
    }
    Ok(outer.principal)
}

/// Read-back of `true = λt.λe.t`: an abstraction at `p` whose body is a
/// live abstraction, the inner variable `e` erased and the inner body the
/// outer variable `t`, reads as `true`.
pub proof fn lemma_true_reads_true<C: NetClassMarker>(net: &Net<Proper, C>, p: PortId)
    requires
        ({
            let io = raw_slot(p.0);
            let o = net.slots()[io as int];
            let ii = raw_slot(o.aux0);
            let i = net.slots()[ii as int];
            &&& tag_is_fan(o.tag) && tag_bit0(o.tag)
            &&& !is_virtual(PortId(o.aux0)) && net.arena.has_live(ii)
            &&& tag_is_fan(i.tag) && tag_bit0(i.tag)
            &&& raw_is_eraser(i.aux1)
            &&& i.aux0 == ports_of(io, o.generation).aux1.0
        }),
    ensures
        church_bool_of(net, p) == Some(true),
{
}

/// Read-back of `false = λt.λe.e`: an abstraction at `p` whose body is a
/// live abstraction, the outer variable `t` erased and the inner body the
/// inner variable `e`, reads as `false`.
pub proof fn lemma_false_reads_false<C: NetClassMarker>(net: &Net<Proper, C>, p: PortId)
    requires
        ({
            let io = raw_slot(p.0);
            let o = net.slots()[io as int];
            let ii = raw_slot(o.aux0);
            let i = net.slots()[ii as int];
            &&& tag_is_fan(o.tag) && tag_bit0(o.tag)
            &&& !is_virtual(PortId(o.aux0)) && net.arena.has_live(ii)
            &&& tag_is_fan(i.tag) && tag_bit0(i.tag)
            &&& raw_is_eraser(o.aux1)
            &&& i.aux1 == ports_of(ii, i.generation).aux0.0
        }),
    ensures
        church_bool_of(net, p) == Some(false),
{
    let w: u32 = net.slots()[raw_slot(p.0) as int].aux0;
    let ii = raw_slot(w);
    let g = net.slots()[ii as int].generation;
    crate::port::lemma_raw_slot_bound(w);
    lemma_ports_of(ii, g);
}

/// Only the two Church shapes read as booleans: a `true` read-back has the
/// inner variable erased, a `false` one the outer variable erased and the
/// inner one not, and in both the port faces an abstraction whose body is a
/// live abstraction.
pub proof fn lemma_read_back_has_church_shape<C: NetClassMarker>(net: &Net<Proper, C>, p: PortId)
    requires
        church_bool_of(net, p) is Some,
    ensures
        ({
            let io = raw_slot(p.0);
            let o = net.slots()[io as int];
            let ii = raw_slot(o.aux0);
            let i = net.slots()[ii as int];
            &&& tag_is_fan(o.tag) && tag_bit0(o.tag)
            &&& !is_virtual(PortId(o.aux0)) && net.arena.has_live(ii)
            &&& tag_is_fan(i.tag) && tag_bit0(i.tag)
            &&& church_bool_of(net, p) == Some(true) ==> raw_is_eraser(i.aux1)
            &&& church_bool_of(net, p) == Some(false) ==> raw_is_eraser(o.aux1) && !raw_is_eraser(i.aux1)
        }),
{
}

/// A tag whose class bits are those of an abstraction fan is a fan with bit
/// 0 set.
proof fn lemma_abs_tag(t: u8)
    by (bit_vector)
    ensures
        t == 0x05 ==> t & 0x0F == 0x05,
        t & 0x0F == 0x05 ==> t & 0x0C == 0x04,
        t & 0x0F == 0x05 ==> t & 0x01 != 0,
{
}

} // verus!
