use dnx::reduce::rules::{add_level, r2_era_fan, r3_era_rep, r4_fan_fan, r5_fan_rep, r6_rep_rep, r7_rep_rep};
use dnx::{DeltaA, DeltaI, DeltaL, DnxError, LOPath, Net, PortId, Proper};

fn first_levels(n: &Net<Proper, DeltaI>) -> Vec<u16> {
    n.frontier1.entries.iter().map(|e| n.slot(e.1.p0.get()).data).collect()
}

#[test]
fn r2_era_fan_propagates_erasers() -> Result<(), DnxError> {
    let mut n = Net::<Proper, DeltaA>::new(16);
    let app = n.alloc_app()?;
    let e0 = n.alloc_free(0)?;
    let e1 = n.alloc_free(1)?;
    let root = LOPath::root();
    n.connect(app.aux0, e0, root.clone())?;
    n.connect(app.aux1, e1, root.clone())?;
    r2_era_fan(&mut n, app.principal, &root)?;
    assert_eq!(n.frontier1.len(), 2);
    assert_eq!(n.slot(e0).principal, PortId::era().raw());
    Ok(())
}

#[test]
fn r3_era_rep_propagates_erasers() -> Result<(), DnxError> {
    let mut n = Net::<Proper, DeltaI>::new(16);
    let rep = n.alloc_rep_in(1, 0, 0)?;
    let e0 = n.alloc_free(0)?;
    let e1 = n.alloc_free(1)?;
    let root = LOPath::root();
    n.connect(rep.aux0, e0, root.clone())?;
    n.connect(rep.aux1, e1, root.clone())?;
    r3_era_rep(&mut n, rep.principal, &root)?;
    assert_eq!(n.frontier1.len(), 2);
    Ok(())
}

#[test]
fn r4_beta_crosswires() -> Result<(), DnxError> {
    let mut n = Net::<Proper, DeltaL>::new(32);
    let abs = n.alloc_abs()?;
    let app = n.alloc_app()?;
    let body = n.alloc_free(0)?;
    let var = n.alloc_free(1)?;
    let res = n.alloc_free(2)?;
    let arg = n.alloc_free(3)?;
    let root = LOPath::root();
    n.connect(abs.aux0, body, root.clone())?;
    n.connect(abs.aux1, var, root.clone())?;
    n.connect(app.aux0, res, root.clone())?;
    n.connect(app.aux1, arg, root.clone())?;
    let live0 = n.arena.live().len();
    r4_fan_fan(&mut n, abs.principal, app.principal, &root)?;
    assert_eq!(n.arena.live().len(), live0 - 2);
    assert_eq!(n.frontier1.len(), 2);
    Ok(())
}

#[test]
fn r5_fan_rep_emits_four_agents_four_pairs() -> Result<(), DnxError> {
    let mut n = Net::<Proper, DeltaI>::new(32);
    let fan = n.alloc_abs()?;
    let rep = n.alloc_rep_in(2, -1, 0)?;
    let a = n.alloc_free(0)?;
    let b = n.alloc_free(1)?;
    let c = n.alloc_free(2)?;
    let d = n.alloc_free(3)?;
    let root = LOPath::root();
    n.connect(fan.aux0, a, root.clone())?;
    n.connect(fan.aux1, b, root.clone())?;
    n.connect(rep.aux0, c, root.clone())?;
    n.connect(rep.aux1, d, root.clone())?;
    let live0 = n.arena.live().len();
    r5_fan_rep(&mut n, fan.principal, rep.principal, &root)?;
    assert_eq!(n.arena.live().len(), live0 + 2);
    assert_eq!(n.frontier1.len(), 4);
    Ok(())
}

#[test]
fn r6_annihilation_two_pairs() -> Result<(), DnxError> {
    let mut n = Net::<Proper, DeltaI>::new(32);
    let ra = n.alloc_rep_in(3, 1, 2)?;
    let rb = n.alloc_rep_in(3, 1, 2)?;
    let w = n.alloc_free(0)?;
    let x = n.alloc_free(1)?;
    let y = n.alloc_free(2)?;
    let z = n.alloc_free(3)?;
    let root = LOPath::root();
    n.connect(ra.aux0, w, root.clone())?;
    n.connect(ra.aux1, x, root.clone())?;
    n.connect(rb.aux0, y, root.clone())?;
    n.connect(rb.aux1, z, root.clone())?;
    let live0 = n.arena.live().len();
    r6_rep_rep(&mut n, ra.principal, rb.principal, &root)?;
    assert_eq!(n.arena.live().len(), live0 - 2);
    assert_eq!(n.frontier1.len(), 2);
    Ok(())
}

#[test]
fn r7_commutation_levels() -> Result<(), DnxError> {
    let mut n = Net::<Proper, DeltaI>::new(32);
    let hi = n.alloc_rep_in(5, 0, 0)?;
    let low = n.alloc_rep_in(2, 1, -1)?;
    let a = n.alloc_free(0)?;
    let b = n.alloc_free(1)?;
    let c = n.alloc_free(2)?;
    let d = n.alloc_free(3)?;
    let root = LOPath::root();
    n.connect(hi.aux0, a, root.clone())?;
    n.connect(hi.aux1, b, root.clone())?;
    n.connect(low.aux0, c, root.clone())?;
    n.connect(low.aux1, d, root.clone())?;
    let live0 = n.arena.live().len();
    r7_rep_rep(&mut n, hi.principal, low.principal, &root)?;
    assert_eq!(n.arena.live().len(), live0 + 2);
    assert_eq!(n.frontier1.len(), 4);
    let mut levels = first_levels(&n);
    levels.sort_unstable();
    assert_eq!(levels, vec![2, 2, 4, 6]);
    Ok(())
}

#[test]
fn r7_delta_overflow_errors() -> Result<(), DnxError> {
    let mut n = Net::<Proper, DeltaI>::new(16);
    let hi = n.alloc_rep_in(5, 0, 0)?;
    let low = n.alloc_rep_in(2, -10, 0)?;
    let root = LOPath::root();
    assert_eq!(
        r7_rep_rep(&mut n, hi.principal, low.principal, &root),
        Err(DnxError::DeltaOverflow)
    );
    Ok(())
}

fn rep_triple(n: &Net<Proper, DeltaI>, key: &LOPath) -> Option<(u16, i16, i16)> {
    n.frontier1.get(key).map(|pr| {
        let s0 = *n.slot(pr.p0.get());
        let s = if s0.is_rep() { s0 } else { *n.slot(pr.p1.get()) };
        (s.data, s.delta0, s.delta1)
    })
}

#[test]
fn r7_oracle_levels_deltas_lopaths() -> Result<(), DnxError> {
    let mut n = Net::<Proper, DeltaI>::new(32);
    let hi = n.alloc_rep_in(5, 7, 9)?;
    let low = n.alloc_rep_in(2, 1, -1)?;
    let (a, b, c, d) = (n.alloc_free(0)?, n.alloc_free(1)?, n.alloc_free(2)?, n.alloc_free(3)?);
    let root = LOPath::root();
    n.connect(hi.aux0, a, root.clone())?;
    n.connect(hi.aux1, b, root.clone())?;
    n.connect(low.aux0, c, root.clone())?;
    n.connect(low.aux1, d, root.clone())?;
    r7_rep_rep(&mut n, hi.principal, low.principal, &root)?;
    let ll = root.extend_left()?.extend_left()?;
    let lr = root.extend_left()?.extend_right()?;
    let rl = root.extend_right()?.extend_left()?;
    let rr = root.extend_right()?.extend_right()?;
    assert_eq!(rep_triple(&n, &ll), Some((6, 7, 9)));
    assert_eq!(rep_triple(&n, &lr), Some((4, 7, 9)));
    assert_eq!(rep_triple(&n, &rl), Some((2, 1, -1)));
    assert_eq!(rep_triple(&n, &rr), Some((2, 1, -1)));
    Ok(())
}

#[test]
fn r6_oracle_lopath_antichain() -> Result<(), DnxError> {
    let mut n = Net::<Proper, DeltaI>::new(32);
    let ra = n.alloc_rep_in(3, 1, 2)?;
    let rb = n.alloc_rep_in(3, 1, 2)?;
    let (w, x, y, z) = (n.alloc_free(0)?, n.alloc_free(1)?, n.alloc_free(2)?, n.alloc_free(3)?);
    let root = LOPath::root();
    n.connect(ra.aux0, w, root.clone())?;
    n.connect(ra.aux1, x, root.clone())?;
    n.connect(rb.aux0, y, root.clone())?;
    n.connect(rb.aux1, z, root.clone())?;
    r6_rep_rep(&mut n, ra.principal, rb.principal, &root)?;
    // Entries are kept in descending order; reversed they are sorted.
    let keys: Vec<LOPath> = n.frontier1.entries.iter().rev().map(|e| e.0).collect();
    assert_eq!(keys, vec![root.extend_left()?, root.extend_right()?]);
    assert!(keys[0].prefix_independent(&keys[1]), "antichain");
    Ok(())
}

#[test]
fn r5_oracle_status_unknown_levels_lopaths() -> Result<(), DnxError> {
    let mut n = Net::<Proper, DeltaI>::new(32);
    let fan = n.alloc_abs()?;
    let rep = n.alloc_rep_in(2, -1, 3)?;
    assert!(n.slot(rep.principal).rep_is_unpaired(), "rep born unpaired");
    let (a, b, c, d) = (n.alloc_free(0)?, n.alloc_free(1)?, n.alloc_free(2)?, n.alloc_free(3)?);
    let root = LOPath::root();
    n.connect(fan.aux0, a, root.clone())?;
    n.connect(fan.aux1, b, root.clone())?;
    n.connect(rep.aux0, c, root.clone())?;
    n.connect(rep.aux1, d, root.clone())?;
    r5_fan_rep(&mut n, fan.principal, rep.principal, &root)?;
    let repin = root.extend_right()?.extend_left()?;
    let repout = root.extend_right()?.extend_right()?;
    for key in [&repin, &repout] {
        assert_eq!(rep_triple(&n, key), Some((2, -1, 3)), "level+deltas preserved");
        let pr = match n.frontier1.get(key) {
            Some(pr) => *pr,
            None => return Err(DnxError::ReadbackIncomplete),
        };
        let s0 = *n.slot(pr.p0.get());
        let s = if s0.is_rep() { s0 } else { *n.slot(pr.p1.get()) };
        assert!(!s.rep_is_unpaired(), "rep copy is UNKNOWN after fan commute");
    }
    Ok(())
}

#[test]
fn add_level_checks_the_range() {
    assert_eq!(add_level(5, -3), Ok(2));
    assert_eq!(add_level(16383, 0), Ok(16383));
    assert_eq!(add_level(16383, 1), Err(DnxError::DeltaOverflow));
    assert_eq!(add_level(0, -1), Err(DnxError::DeltaOverflow));
}
