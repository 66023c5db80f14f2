
use dnx::{DeltaL, 
    normalize, Canonical, DnxError, LOPath, Net, PortId, PortKind, Proper, SlotView, DeltaA, DeltaI,
};

struct Harness {
    net: Net<Proper, DeltaI>,
    root: LOPath,
}

impl Harness {
    fn new() -> Self {
        Harness {
            net: Net::<Proper, DeltaI>::new(64),
            root: LOPath::root(),
        }
    }

    fn park(&mut self, name: &str, port: PortId) -> Result<(), DnxError> {
        let h = self.net.alloc_abs()?;
        self.net.connect(port, h.aux0, self.root.clone())?;
        self.net.add_root(String::from(name), h.principal);
        Ok(())
    }
}

fn parked(canon: &Net<Canonical, DeltaI>, name: &str) -> Result<SlotView, DnxError> {
    let hp = canon.root(name).ok_or(DnxError::ReadbackIncomplete)?;
    let port = PortId::new(hp.slot_idx(), PortKind::Aux0, hp.gen_low());
    Ok(canon.slot_view(canon.peer(port)))
}

fn rep_id(canon: &Net<Canonical, DeltaI>, name: &str) -> Result<(bool, u16, i16, i16), DnxError> {
    let sv = parked(canon, name)?;
    Ok((sv.is_rep(), sv.data, sv.delta0, sv.delta1))
}

#[test]
fn r4_fan_fan_annihilates_in_one_beta() -> Result<(), DnxError> {
    let mut n = Net::<Proper, DeltaL>::new(16);
    let root = LOPath::root();
    let abs = n.alloc_abs()?;
    let app = n.alloc_app()?;
    let arg = n.alloc_free(0)?;
    let res = n.alloc_free(1)?;
    n.connect(abs.aux0, abs.aux1, root.clone())?;
    n.connect(app.aux0, res, root.clone())?;
    n.connect(app.aux1, arg, root.clone())?;
    n.connect(abs.principal, app.principal, root.clone())?;
    n.add_root(String::from("res"), res);
    let (_canon, stats) = normalize(n)?;
    assert_eq!(stats.r4_count, 1, "exactly one β (annihilation)");
    assert_eq!(
        stats.interactions, 1,
        "annihilation is a single interaction"
    );
    Ok(())
}

#[test]
fn r6_rep_rep_equal_annihilates() -> Result<(), DnxError> {
    let mut h = Harness::new();
    let ra = h.net.alloc_rep_in(3, 1, 2)?;
    let rb = h.net.alloc_rep_in(3, 1, 2)?;
    h.park("a0", ra.aux0)?;
    h.park("a1", ra.aux1)?;
    h.park("b0", rb.aux0)?;
    h.park("b1", rb.aux1)?;
    h.net.connect(ra.principal, rb.principal, h.root.clone())?;
    let (canon, stats) = normalize(h.net)?;
    assert_eq!(
        stats.interactions, 1,
        "rep-rep annihilation = one interaction"
    );
    assert_eq!(stats.r4_count, 0, "no β in a pure rep-rep interaction");
    for nm in ["a0", "a1", "b0", "b1"] {
        let (is_rep, ..) = rep_id(&canon, nm)?;
        assert!(!is_rep, "{nm}: annihilation removes both replicators");
    }
    Ok(())
}

#[test]
fn r7_rep_rep_distinct_commutes_with_exact_level_arithmetic() -> Result<(), DnxError> {
    let mut h = Harness::new();
    let hi = h.net.alloc_rep_in(5, 7, 9)?;
    let low = h.net.alloc_rep_in(2, 1, -1)?;
    h.park("hi0", hi.aux0)?;
    h.park("hi1", hi.aux1)?;
    h.park("lo0", low.aux0)?;
    h.park("lo1", low.aux1)?;
    h.net.connect(hi.principal, low.principal, h.root.clone())?;
    let (canon, stats) = normalize(h.net)?;
    assert_eq!(stats.interactions, 1, "commutation = one interaction");
    assert_eq!(stats.r4_count, 0, "no β");

    assert_eq!(rep_id(&canon, "hi0")?, (true, 2, 1, -1), "exact lower dup");
    assert_eq!(rep_id(&canon, "hi1")?, (true, 2, 1, -1), "exact lower dup");
    assert_eq!(rep_id(&canon, "lo0")?, (true, 6, 7, 9), "5 + low.δ0(1) = 6");
    assert_eq!(
        rep_id(&canon, "lo1")?,
        (true, 4, 7, 9),
        "5 + low.δ1(-1) = 4"
    );
    Ok(())
}

#[test]
fn r7_signed_negative_delta_lowers_replica_level() -> Result<(), DnxError> {
    let mut h = Harness::new();
    let hi = h.net.alloc_rep_in(8, 0, 0)?;
    let low = h.net.alloc_rep_in(3, -3, 2)?;
    h.park("hi0", hi.aux0)?;
    h.park("hi1", hi.aux1)?;
    h.park("lo0", low.aux0)?;
    h.park("lo1", low.aux1)?;
    h.net.connect(hi.principal, low.principal, h.root.clone())?;
    let (canon, _stats) = normalize(h.net)?;
    assert_eq!(
        rep_id(&canon, "lo0")?,
        (true, 5, 0, 0),
        "8 + (-3) = 5 (signed down)"
    );
    assert_eq!(
        rep_id(&canon, "lo1")?,
        (true, 10, 0, 0),
        "8 + 2 = 10 (signed up)"
    );
    Ok(())
}

#[test]
fn r7_delta_underflow_is_error_not_wraparound() -> Result<(), DnxError> {
    let mut h = Harness::new();
    let hi = h.net.alloc_rep_in(2, 0, 0)?;
    let low = h.net.alloc_rep_in(1, -10, 0)?;
    h.park("hi0", hi.aux0)?;
    h.park("hi1", hi.aux1)?;
    h.park("lo0", low.aux0)?;
    h.park("lo1", low.aux1)?;
    h.net.connect(hi.principal, low.principal, h.root.clone())?;
    match normalize(h.net) {
        Err(DnxError::DeltaOverflow) => Ok(()),
        Err(e) => panic!("expected DeltaOverflow, got {e:?}"),
        Ok(_) => panic!("expected DeltaOverflow, but normalize succeeded (level wrapped?)"),
    }
}

#[test]
fn r7_hi_lo_split_is_by_level_not_delta_magnitude() -> Result<(), DnxError> {
    let mut h = Harness::new();
    let hi = h.net.alloc_rep_in(6, 1, 1)?;
    let low = h.net.alloc_rep_in(3, 9, 8)?;
    h.park("hi0", hi.aux0)?;
    h.park("hi1", hi.aux1)?;
    h.park("lo0", low.aux0)?;
    h.park("lo1", low.aux1)?;
    h.net.connect(hi.principal, low.principal, h.root.clone())?;
    let (canon, stats) = normalize(h.net)?;
    assert_eq!(stats.interactions, 1);
    assert_eq!(
        rep_id(&canon, "hi0")?,
        (true, 3, 9, 8),
        "lower exact-duped (by level)"
    );
    assert_eq!(rep_id(&canon, "hi1")?, (true, 3, 9, 8));
    assert_eq!(
        rep_id(&canon, "lo0")?,
        (true, 15, 1, 1),
        "6 + low.δ0(9) = 15"
    );
    assert_eq!(
        rep_id(&canon, "lo1")?,
        (true, 14, 1, 1),
        "6 + low.δ1(8) = 14"
    );
    Ok(())
}

#[test]
fn r5_fan_rep_yields_two_exact_replicator_copies() -> Result<(), DnxError> {
    let mut h = Harness::new();
    let rep = h.net.alloc_rep_in(2, -1, 3)?;
    let lam = h.net.alloc_abs()?;
    h.park("r0", rep.aux0)?;
    h.park("r1", rep.aux1)?;
    h.park("f0", lam.aux0)?;
    h.park("f1", lam.aux1)?;
    h.net
        .connect(rep.principal, lam.principal, h.root.clone())?;
    let (canon, stats) = normalize(h.net)?;
    assert_eq!(stats.interactions, 1, "rep⊗fan = one interaction");
    assert_eq!(stats.r4_count, 0, "rep⊗fan is not β");
    for nm in ["f0", "f1"] {
        assert_eq!(
            rep_id(&canon, nm)?,
            (true, 2, -1, 3),
            "{nm}: exact replicator copy (level+deltas preserved)"
        );
    }
    Ok(())
}

#[test]
fn r2_eraser_fan_is_reachable_and_erases_the_fan() -> Result<(), DnxError> {
    let mut n = Net::<Proper, DeltaA>::new(16);
    let root = LOPath::root();
    let app = n.alloc_app()?;
    let res = n.alloc_free(0)?;
    n.connect(app.aux0, res, root.clone())?;
    n.connect(app.aux1, Net::<Proper, DeltaA>::eraser_port(), root.clone())?;
    n.add_root(String::from("res"), res);
    n.connect(
        app.principal,
        Net::<Proper, DeltaA>::eraser_port(),
        root.clone(),
    )?;
    assert_eq!(n.active_pair_count(), 1, "eraser⊗fan forms an active pair");
    let (canon, stats) = normalize(n)?;
    assert!(stats.interactions >= 1, "the eraser interaction fired");
    assert_eq!(stats.r4_count, 0, "erasure is not β");
    assert!(
        !canon.slot_is_live(app.principal),
        "the fan was erased (R2)"
    );
    Ok(())
}

#[test]
fn r3_eraser_rep_is_reachable_and_erases_the_rep() -> Result<(), DnxError> {
    let mut n = Net::<Proper, DeltaI>::new(16);
    let root = LOPath::root();
    let rep = n.alloc_rep_in(3, 0, 0)?;
    let c = n.alloc_free(0)?;
    let d = n.alloc_free(1)?;
    n.connect(rep.aux0, c, root.clone())?;
    n.connect(rep.aux1, d, root.clone())?;
    n.add_root(String::from("c"), c);
    n.add_root(String::from("d"), d);
    n.connect(
        rep.principal,
        Net::<Proper, DeltaI>::eraser_port(),
        root.clone(),
    )?;
    assert_eq!(n.active_pair_count(), 1, "eraser⊗rep forms an active pair");
    let (canon, stats) = normalize(n)?;
    assert!(stats.interactions >= 1, "the eraser interaction fired");
    assert_eq!(stats.r4_count, 0, "erasure is not β");
    assert!(
        !canon.slot_is_live(rep.principal),
        "the replicator was erased (R3)"
    );
    Ok(())
}

#[test]
fn r1_eraser_eraser_fires_as_a_virtual_noop() -> Result<(), DnxError> {
    let mut n = Net::<Proper, DeltaA>::new(8);
    let root = LOPath::root();
    n.connect(
        Net::<Proper, DeltaA>::eraser_port(),
        Net::<Proper, DeltaA>::eraser_port(),
        root,
    )?;
    assert_eq!(
        n.active_pair_count(),
        1,
        "eraser⊗eraser forms one active pair"
    );
    let (_canon, stats) = normalize(n)?;
    assert_eq!(stats.interactions, 1, "R1 fires as exactly one interaction");
    assert_eq!(stats.r4_count, 0, "R1 is a no-op, not β");
    assert!(PortId::era().is_eraser());
    Ok(())
}
