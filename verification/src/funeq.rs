//! Structural equality of canonical function nets, by content address.
use vstd::prelude::*;
use crate::canonical_hash::{blake3_of, canonical_hash, is_serialization, no_prim_agents, serialization_of};
use crate::class::{Canonical, NetClassMarker};
use crate::error::DnxError;
use crate::net::{Net, is_virtual, port_in};
use crate::port::PortId;

verus! {

/// Equality of two digests.
pub fn digest_eq(a: &[u8; 32], b: &[u8; 32]) -> (r: bool)
    ensures
        r == (a@ == b@),
{
    let mut i: usize = 0;
    while i < 32
        invariant
            i <= 32,
            a@.len() == 32,
            b@.len() == 32,
            forall|j: int| 0 <= j < i ==> a@[j] == b@[j],
        decreases 32 - i,
    {
        if a[i] != b[i] {
            return false;
        }
        i = i + 1;
    }
    proof {
        assert(a@ =~= b@);
    }
    true
}

/// Whether two canonical nets, from their roots, have the same content
/// address (BLAKE3 of their serializations).
pub fn fn_eq<C: NetClassMarker>(
    net_a: &Net<Canonical, C>,
    root_a: PortId,
    net_b: &Net<Canonical, C>,
    root_b: PortId,
) -> (r: Result<bool, DnxError>)
    requires
        net_a.wf(),
        net_b.wf(),
        is_virtual(root_a) || port_in(root_a, net_a.n_slots()),
        is_virtual(root_b) || port_in(root_b, net_b.n_slots()),
    ensures
        r matches Ok(e) ==> exists|ba: Seq<u8>, bb: Seq<u8>|
            is_serialization(ba) && is_serialization(bb) && e == (#[trigger] blake3_of(ba)
                == #[trigger] blake3_of(bb)),
        r matches Ok(e) ==> e == (blake3_of(serialization_of(net_a.slots(), root_a)) == blake3_of(
            serialization_of(net_b.slots(), root_b),
        )),
        serialization_of(net_a.slots(), root_a) == serialization_of(net_b.slots(), root_b) ==> (r matches Ok(
            e,
        ) ==> e),
        r matches Err(e) ==> e == DnxError::ReadbackIncomplete || e is PrimError,
        is_virtual(root_a) ==> r == Err::<bool, DnxError>(DnxError::ReadbackIncomplete),
        !is_virtual(root_a) && no_prim_agents(net_a.slots()) && is_virtual(root_b) ==> r == Err::<
            bool,
            DnxError,
        >(DnxError::ReadbackIncomplete),
        !is_virtual(root_a) && !is_virtual(root_b) && no_prim_agents(net_a.slots()) && no_prim_agents(
            net_b.slots(),
        ) ==> r is Ok,
        !is_virtual(root_a) && !is_virtual(root_b) ==> (r is Ok || (r matches Err(e) && e is PrimError)),
{
    let ha = match canonical_hash(net_a, root_a) {
        Ok(h) => h,
        Err(e) => {
            return Err(e);
        },
    };
    let hb = match canonical_hash(net_b, root_b) {
        Ok(h) => h,
        Err(e) => {
            return Err(e);
        },
    };
    let e = digest_eq(&ha, &hb);
    proof {
        let ba = choose|b: Seq<u8>| is_serialization(b) && #[trigger] blake3_of(b) == ha@;
        let bb = choose|b: Seq<u8>| is_serialization(b) && #[trigger] blake3_of(b) == hb@;
        assert(is_serialization(ba) && is_serialization(bb) && e == (blake3_of(ba) == blake3_of(bb)));
    }
    Ok(e)
}

} // verus!
