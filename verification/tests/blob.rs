use dnx::blob::{from_blob, to_blob};
use dnx::blob_format::{CANON_HASH_V1_TAG, ERASER_IDX, ERASER_SEL, KIND_FAN_ABS, KIND_FAN_APP};
use dnx::canonical_hash::canonical_hash;
use dnx::{normalize, Canonical, DeltaL, DnxError, LOPath, Net, PortId, Proper};

fn id() -> (Net<Canonical, DeltaL>, PortId) {
    let mut n = Net::<Proper, DeltaL>::new(16);
    let abs = n.alloc_abs().unwrap();
    n.connect(abs.aux0, abs.aux1, LOPath::root()).unwrap();
    n.add_root("r".into(), abs.principal);
    let (c, _) = normalize(n).unwrap();
    (c, abs.principal)
}

fn church_one() -> (Net<Canonical, DeltaL>, PortId) {
    let mut n = Net::<Proper, DeltaL>::new(32);
    let abs1 = n.alloc_abs().unwrap();
    let abs2 = n.alloc_abs().unwrap();
    let app = n.alloc_app().unwrap();
    n.connect(abs1.aux0, abs2.principal, LOPath::root())
        .unwrap();
    n.connect(app.principal, abs1.aux1, LOPath::root()).unwrap();
    n.connect(app.aux1, abs2.aux1, LOPath::root()).unwrap();
    n.connect(abs2.aux0, app.aux0, LOPath::root()).unwrap();
    n.add_root("r".into(), abs1.principal);
    let (c, _) = normalize(n).unwrap();
    (c, abs1.principal)
}

fn dup() -> (Net<Canonical, DeltaL>, PortId) {
    let mut n = Net::<Proper, DeltaL>::new(32);
    let abs = n.alloc_abs().unwrap();
    let app = n.alloc_app().unwrap();
    let rep = n.alloc_rep_in(0, 0, 0).unwrap();
    n.connect(rep.principal, abs.aux1, LOPath::root()).unwrap();
    n.connect(app.principal, rep.aux0, LOPath::root()).unwrap();
    n.connect(app.aux1, rep.aux1, LOPath::root()).unwrap();
    n.connect(abs.aux0, app.aux0, LOPath::root()).unwrap();
    n.add_root("r".into(), abs.principal);
    let (c, _) = normalize(n).unwrap();
    (c, abs.principal)
}

fn assert_round_trip(net: &Net<Canonical, DeltaL>, root: PortId) {
    let blob = to_blob(net, root).unwrap();
    let want = canonical_hash(net, root).unwrap();
    let (back, back_root): (Net<Canonical, DeltaL>, PortId) = from_blob(&blob).unwrap();
    let got = canonical_hash(&back, back_root).unwrap();
    assert_eq!(want, got, "round-trip must be canonical_hash-equal");
    assert_eq!(
        blob,
        to_blob(&back, back_root).unwrap(),
        "blob must be stable"
    );
}

#[test]
fn round_trip_id() {
    let (c, r) = id();
    assert_round_trip(&c, r);
}

#[test]
fn round_trip_church_one() {
    let (c, r) = church_one();
    assert_round_trip(&c, r);
}

#[test]
fn round_trip_dup_rep() {
    let (c, r) = dup();
    assert_round_trip(&c, r);
}

#[test]
fn empty_blob_errs() {
    let r: Result<(Net<Canonical, DeltaL>, PortId), _> = from_blob(&[]);
    assert!(matches!(r, Err(DnxError::ReadbackIncomplete)));
}

#[test]
fn bad_version_errs() {
    let mut blob = to_blob(&id().0, id().1).unwrap();
    blob[0] = 0x02;
    let r: Result<(Net<Canonical, DeltaL>, PortId), _> = from_blob(&blob);
    assert!(matches!(r, Err(DnxError::ReadbackIncomplete)));
}

#[test]
fn truncated_blob_errs() {
    let blob = to_blob(&church_one().0, church_one().1).unwrap();
    let r: Result<(Net<Canonical, DeltaL>, PortId), _> = from_blob(&blob[..blob.len() - 1]);
    assert!(matches!(r, Err(DnxError::ReadbackIncomplete)));
}

#[test]
fn trailing_bytes_err() {
    let mut blob = to_blob(&id().0, id().1).unwrap();
    blob.push(0x00);
    let r: Result<(Net<Canonical, DeltaL>, PortId), _> = from_blob(&blob);
    assert!(matches!(r, Err(DnxError::ReadbackIncomplete)));
}

#[test]
fn bad_edge_index_errs() {
    let mut blob = vec![CANON_HASH_V1_TAG];
    blob.extend_from_slice(&1u32.to_le_bytes());
    blob.push(KIND_FAN_ABS);
    blob.extend_from_slice(&9u32.to_le_bytes());
    blob.push(1);
    blob.extend_from_slice(&ERASER_IDX.to_le_bytes());
    blob.push(ERASER_SEL);
    let r: Result<(Net<Canonical, DeltaL>, PortId), _> = from_blob(&blob);
    assert!(matches!(r, Err(DnxError::ReadbackIncomplete)));
}

#[test]
fn bad_selector_errs() {
    let mut blob = vec![CANON_HASH_V1_TAG];
    blob.extend_from_slice(&1u32.to_le_bytes());
    blob.push(KIND_FAN_ABS);
    blob.extend_from_slice(&0u32.to_le_bytes());
    blob.push(7);
    blob.extend_from_slice(&ERASER_IDX.to_le_bytes());
    blob.push(ERASER_SEL);
    let r: Result<(Net<Canonical, DeltaL>, PortId), _> = from_blob(&blob);
    assert!(matches!(r, Err(DnxError::ReadbackIncomplete)));
}

#[test]
fn huge_record_count_no_amplification() {
    let mut blob = vec![CANON_HASH_V1_TAG];
    blob.extend_from_slice(&u32::MAX.to_le_bytes());
    let r: Result<(Net<Canonical, DeltaL>, PortId), _> = from_blob(&blob);
    assert!(matches!(r, Err(DnxError::ReadbackIncomplete)));
}

#[test]
fn forged_active_pair_rejected() {
    let mut blob = vec![CANON_HASH_V1_TAG];
    blob.extend_from_slice(&2u32.to_le_bytes());
    blob.push(KIND_FAN_APP);
    blob.extend_from_slice(&1u32.to_le_bytes());
    blob.push(0);
    blob.extend_from_slice(&ERASER_IDX.to_le_bytes());
    blob.push(ERASER_SEL);
    blob.push(KIND_FAN_APP);
    blob.extend_from_slice(&0u32.to_le_bytes());
    blob.push(0);
    blob.extend_from_slice(&ERASER_IDX.to_le_bytes());
    blob.push(ERASER_SEL);
    let r: Result<(Net<Canonical, DeltaL>, PortId), _> = from_blob(&blob);
    assert!(
        matches!(r, Err(DnxError::ReadbackIncomplete)),
        "a forged active-pair blob must NOT mint a Canonical net, got Ok"
    );
}

fn abs_chain_blob(len: u32) -> Vec<u8> {
    let mut blob = vec![CANON_HASH_V1_TAG];
    blob.extend_from_slice(&len.to_le_bytes());
    for i in 0..len {
        blob.push(KIND_FAN_ABS);
        if i + 1 < len {
            blob.extend_from_slice(&(i + 1).to_le_bytes());
            blob.push(1);
        } else {
            blob.extend_from_slice(&ERASER_IDX.to_le_bytes());
            blob.push(ERASER_SEL);
        }
        blob.extend_from_slice(&ERASER_IDX.to_le_bytes());
        blob.push(ERASER_SEL);
    }
    blob
}

#[test]
fn deep_chain_no_stack_overflow() {
    let blob = abs_chain_blob(200_000);
    let (net, root): (Net<Canonical, DeltaL>, PortId) =
        from_blob(&blob).expect("deep chain decodes");
    let h = canonical_hash(&net, root).expect("deep chain hashes");
    assert_eq!(to_blob(&net, root).unwrap(), blob, "deep chain round-trips");
    assert_eq!(h.len(), 32);
}


#[test]
fn a_level_1000_replicator_decodes_into_that_replicator() {
    let bytes: Vec<u8> = vec![
        0x01, 1, 0, 0, 0, 0x03, 0xE8, 0x03, 0, 0, 0, 0, 0xFF, 0xFF, 0xFF, 0xFF, 0xFF, 0xFF, 0xFF, 0xFF,
        0xFF, 0xFF,
    ];
    match from_blob::<DeltaL>(&bytes) {
        Ok((c, r)) => {
            assert!(c.slot_view(r).is_rep());
            assert_eq!(c.slot_view(r).data, 1000);
            assert_eq!(c.agent_count(), 1);
        }
        Err(e) => assert_eq!(e, DnxError::ReadbackIncomplete),
    }
}
