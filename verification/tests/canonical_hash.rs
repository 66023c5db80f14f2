use dnx::blob_format::ERASER_IDX;
use dnx::canonical_hash::{canonical_hash, serialize};
use dnx::slot::TAG_PRIM_VAL;
use dnx::{normalize, Canonical, DeltaL, DnxError, LOPath, Net, NetClassMarker, PortId, PortKind, Proper};

#[test]
fn hash_equal_nets_equal() {
    fn make_id() -> (Net<Canonical, DeltaL>, PortId) {
        let mut n = Net::<Proper, DeltaL>::new(16);
        let abs = n.alloc_abs().unwrap();
        n.connect(abs.aux0, abs.aux1, LOPath::root()).unwrap();
        n.add_root("r".into(), abs.principal);
        let (c, _) = normalize(n).unwrap();
        (c, abs.principal)
    }
    let (n1, r1) = make_id();
    let (n2, r2) = make_id();
    let h1 = canonical_hash(&n1, r1).unwrap();
    let h2 = canonical_hash(&n2, r2).unwrap();
    assert_eq!(h1, h2, "equal nets should have equal hash");
}

#[test]
fn hash_different_nets_differ() {
    fn make_id() -> (Net<Canonical, DeltaL>, PortId) {
        let mut n = Net::<Proper, DeltaL>::new(16);
        let abs = n.alloc_abs().unwrap();
        n.connect(abs.aux0, abs.aux1, LOPath::root()).unwrap();
        n.add_root("r".into(), abs.principal);
        let (c, _) = normalize(n).unwrap();
        (c, abs.principal)
    }
    fn make_k() -> (Net<Canonical, DeltaL>, PortId) {
        let mut n = Net::<Proper, DeltaL>::new(32);
        let abs1 = n.alloc_abs().unwrap();
        let abs2 = n.alloc_abs().unwrap();
        let app = n.alloc_app().unwrap();
        n.connect(abs1.aux0, abs2.principal, LOPath::root())
            .unwrap();
        n.connect(app.principal, abs1.aux1, LOPath::root()).unwrap();
        n.connect(app.aux1, abs2.aux1, LOPath::root()).unwrap();
        n.connect(abs2.aux0, app.aux0, LOPath::root()).unwrap();
        n.add_root("r".into(), abs1.principal);
        let (c, _) = normalize(n).unwrap();
        (c, abs1.principal)
    }
    let (n1, r1) = make_id();
    let (n2, r2) = make_k();
    let h1 = canonical_hash(&n1, r1).unwrap();
    let h2 = canonical_hash(&n2, r2).unwrap();
    assert_ne!(h1, h2, "different nets should have different hash");
}

#[test]
fn prim_slot_serialize_errs_not_panics() {
    let mut n = Net::<Proper, DeltaL>::new(8);
    let p = n.alloc_agent(TAG_PRIM_VAL, 0, 0, 0).unwrap();
    n.add_root("r".into(), p.principal);
    let (c, _) = normalize(n).unwrap();
    let r = canonical_hash(&c, p.principal);
    assert!(
        matches!(r, Err(DnxError::PrimError(_))),
        "prim slot must yield Err(PrimError), got {r:?}"
    );
}

#[test]
fn one_record_per_agent_shared_var() {
    let mut n = Net::<Proper, DeltaL>::new(32);
    let abs = n.alloc_abs().unwrap();
    let app = n.alloc_app().unwrap();
    let rep = n.alloc_rep_in(0, 0, 0).unwrap();
    n.connect(rep.principal, abs.aux1, LOPath::root()).unwrap();
    n.connect(app.principal, rep.aux0, LOPath::root()).unwrap();
    n.connect(app.aux1, rep.aux1, LOPath::root()).unwrap();
    n.connect(abs.aux0, app.aux0, LOPath::root()).unwrap();
    n.add_root("r".into(), abs.principal);
    let (c, _) = normalize(n).unwrap();
    let s = serialize(&c, abs.principal).unwrap();
    let n_records = u32::from_le_bytes([s[1], s[2], s[3], s[4]]);
    let agents = reachable_agents(&c, abs.principal);
    assert_eq!(
        n_records as usize, agents,
        "serialize must emit one record per agent ({agents}), got {n_records} \
         (old PortId-keying over-counts shared/back-edge agents — C1)"
    );
    assert!(
        !s.windows(4).any(|w| w == ERASER_IDX.to_le_bytes()),
        "no live edge may serialize to the eraser sentinel (C1)"
    );
}

fn reachable_agents<C: NetClassMarker>(net: &Net<Canonical, C>, root: PortId) -> usize {
    fn go<C: NetClassMarker>(
        net: &Net<Canonical, C>,
        p: PortId,
        seen: &mut std::collections::HashSet<u32>,
    ) {
        if p.is_eraser() || p.is_null() || !seen.insert(p.slot_idx()) {
            return;
        }
        let s = net.slot_view(p);
        if s.is_fan() || s.is_rep() {
            let g = p.gen_low();
            go(
                net,
                net.peer(PortId::new(p.slot_idx(), PortKind::Principal, g)),
                seen,
            );
            go(
                net,
                net.peer(PortId::new(p.slot_idx(), PortKind::Aux0, g)),
                seen,
            );
            go(
                net,
                net.peer(PortId::new(p.slot_idx(), PortKind::Aux1, g)),
                seen,
            );
        }
    }
    let mut seen = std::collections::HashSet::new();
    go(net, root, &mut seen);
    seen.len()
}


#[test]
fn canonical_hash_is_blake3_of_the_blob() {
    let mut n = Net::<Proper, DeltaL>::new(16);
    let abs = n.alloc_abs().unwrap();
    n.connect(abs.aux0, abs.aux1, LOPath::root()).unwrap();
    n.add_root("r".into(), abs.principal);
    let (c, _) = normalize(n).unwrap();
    let bytes = serialize(&c, abs.principal).unwrap();
    assert_eq!(bytes.len(), 16);
    let h = canonical_hash(&c, abs.principal).unwrap();
    assert_eq!(h, *blake3::hash(&bytes).as_bytes());
}

#[test]
fn serialize_from_an_eraser_root_is_incomplete() {
    let n = Net::<Proper, DeltaL>::new(4);
    let (c, st) = normalize(n).unwrap();
    assert_eq!(st.interactions, 0);
    assert_eq!(st.r4_count, 0);
    assert!(matches!(serialize(&c, PortId::era()), Err(DnxError::ReadbackIncomplete)));
    assert!(matches!(canonical_hash(&c, PortId::era()), Err(DnxError::ReadbackIncomplete)));
}

#[test]
fn serialize_of_a_net_without_primitives_succeeds() {
    let mut n = Net::<Proper, DeltaL>::new(8);
    let abs = n.alloc_abs().unwrap();
    let free = n.alloc_free(3).unwrap();
    let other = n.alloc_free(4).unwrap();
    n.connect(abs.aux0, free, LOPath::root()).unwrap();
    n.connect(abs.aux1, other, LOPath::root()).unwrap();
    n.add_root("r".into(), abs.principal);
    let (c, _) = normalize(n).unwrap();
    assert!(serialize(&c, abs.principal).is_ok());
    assert!(canonical_hash(&c, abs.principal).is_ok());
}
