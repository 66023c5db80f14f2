use dnx::reduce::canon::{c1_mark_sweep, c2_rep_merge, c3_rep_decay, c4_aux_fan_replication};
use dnx::reduce::normalize;
use dnx::{DeltaA, DeltaI, DeltaK, DeltaL, DnxError, LOPath, Net, PortId, Proper};

#[test]
fn c1_retires_unreachable() -> Result<(), DnxError> {
    let mut n = Net::<Proper, DeltaA>::new(16);
    let root = n.alloc_free(0)?;
    let abs = n.alloc_abs()?;
    let _orphan = n.alloc_app()?;
    n.connect(root, abs.principal, LOPath::root())?;
    n.add_root(String::from("r"), root);
    let live0 = n.arena.live().len();
    c1_mark_sweep(&mut n);
    assert_eq!(n.arena.live().len(), live0 - 1);
    Ok(())
}

#[test]
fn c2_merges_unpaired_rep_shifting_level() -> Result<(), DnxError> {
    let mut n = Net::<Proper, DeltaI>::new(16);
    let a = n.alloc_rep_in(1, 5, 0)?;
    let b = n.alloc_rep_in(3, 0, 0)?;
    let parent = n.alloc_free(0)?;
    let bc = n.alloc_free(1)?;
    let bd = n.alloc_free(2)?;
    n.connect(a.principal, parent, LOPath::root())?;
    n.connect(a.aux0, b.principal, LOPath::root())?;
    n.set_eraser_on_port(a.aux1);
    n.connect(b.aux0, bc, LOPath::root())?;
    n.connect(b.aux1, bd, LOPath::root())?;
    let live0 = n.arena.live().len();
    c2_rep_merge(&mut n, a.principal, &LOPath::root())?;
    assert_eq!(n.arena.live().len(), live0 - 1);
    let bs = *n.slot(b.principal);
    assert_eq!((bs.data, bs.delta0, bs.delta1), (1, 2, 2));
    Ok(())
}

#[test]
fn c3_decay_case_a_erases_up() -> Result<(), DnxError> {
    let mut n = Net::<Proper, DeltaK>::new(16);
    let rep = n.alloc_rep_in(1, 0, 0)?;
    let parent = n.alloc_free(0)?;
    n.connect(rep.principal, parent, LOPath::root())?;
    n.set_eraser_on_port(rep.aux0);
    n.set_eraser_on_port(rep.aux1);
    let live0 = n.arena.live().len();
    c3_rep_decay(&mut n, rep.principal, &LOPath::root())?;
    assert_eq!(n.arena.live().len(), live0 - 1);
    assert_eq!(n.slot(parent).principal, PortId::era().raw());
    Ok(())
}

#[test]
fn c4_subb_replicates_preserving_level() -> Result<(), DnxError> {
    let mut n = Net::<Proper, DeltaI>::new(32);
    let rep = n.alloc_rep_in(2, 0, 0)?;
    let app = n.alloc_app()?;
    let up = n.alloc_free(0)?;
    let arg = n.alloc_free(1)?;
    let c = n.alloc_free(2)?;
    let d = n.alloc_free(3)?;
    n.connect(app.principal, up, LOPath::root())?;
    n.connect(app.aux1, arg, LOPath::root())?;
    n.connect(rep.aux0, c, LOPath::root())?;
    n.connect(rep.aux1, d, LOPath::root())?;
    n.connect(rep.principal, app.aux0, LOPath::root())?;
    let cand = n.frontier2.entries.last().map(|e| e.1);
    let cand = match cand {
        Some(cand) => cand,
        None => return Err(DnxError::ReadbackIncomplete),
    };
    n.frontier1.clear();
    n.frontier2.clear();
    let live0 = n.arena.live().len();
    c4_aux_fan_replication(&mut n, &cand)?;
    assert_eq!(n.arena.live().len(), live0 + 2);
    assert_eq!(n.frontier1.len(), 2);
    let mut levels: Vec<u16> = n.frontier1.entries.iter().map(|e| n.slot(e.1.p0.get()).data).collect();
    levels.sort_unstable();
    assert_eq!(levels, vec![2, 2]);
    Ok(())
}

type Setup = (Net<Proper, DeltaI>, PortId, PortId);

fn c2_setup(la: u16, da0: i16, lb: u16) -> Result<Setup, DnxError> {
    let mut n = Net::<Proper, DeltaI>::new(16);
    let a = n.alloc_rep_in(la, da0, 0)?;
    let b = n.alloc_rep_in(lb, 0, 0)?;
    let parent = n.alloc_free(0)?;
    let bc = n.alloc_free(1)?;
    let bd = n.alloc_free(2)?;
    n.connect(a.principal, parent, LOPath::root())?;
    n.connect(a.aux0, b.principal, LOPath::root())?;
    n.set_eraser_on_port(a.aux1);
    n.connect(b.aux0, bc, LOPath::root())?;
    n.connect(b.aux1, bd, LOPath::root())?;
    Ok((n, a.principal, b.principal))
}

#[test]
fn c2_merge_gate_boundaries() -> Result<(), DnxError> {
    for (la, da0, lb, want_merge) in [
        (1u16, 5i16, 1u16, true),
        (1, 5, 6, true),
        (1, 5, 7, false),
        (3, 5, 1, false),
    ] {
        let (mut n, ap, _) = c2_setup(la, da0, lb)?;
        let live0 = n.arena.live().len();
        c2_rep_merge(&mut n, ap, &LOPath::root())?;
        assert_eq!(n.arena.live().len() == live0 - 1, want_merge, "la={la} da0={da0} lb={lb}");
    }
    Ok(())
}

#[test]
fn c2_merged_level_delta_invariant() -> Result<(), DnxError> {
    let (mut n, ap, bp) = c2_setup(1, 5, 4)?;
    c2_rep_merge(&mut n, ap, &LOPath::root())?;
    let b = *n.slot(bp);
    assert_eq!((b.data, b.delta0, b.delta1), (1, 3, 3));
    assert_eq!(i32::from(b.data) + i32::from(b.delta0), 4);
    Ok(())
}

#[test]
fn c3_decay_wire_through_iff_zero_delta() -> Result<(), DnxError> {
    for (delta1, want_retire) in [(0i16, true), (2i16, false)] {
        let mut n = Net::<Proper, DeltaK>::new(16);
        let rep = n.alloc_rep_in(1, 0, delta1)?;
        let parent = n.alloc_free(0)?;
        let survivor = n.alloc_free(1)?;
        n.connect(rep.principal, parent, LOPath::root())?;
        n.set_eraser_on_port(rep.aux0);
        n.connect(rep.aux1, survivor, LOPath::root())?;
        let live0 = n.arena.live().len();
        c3_rep_decay(&mut n, rep.principal, &LOPath::root())?;
        assert_eq!(n.arena.live().len() == live0 - 1, want_retire, "delta1={delta1}");
    }
    Ok(())
}

#[test]
fn c4_subb_preserves_deltas_and_lopaths() -> Result<(), DnxError> {
    let mut n = Net::<Proper, DeltaI>::new(32);
    let rep = n.alloc_rep_in(2, -3, 4)?;
    let app = n.alloc_app()?;
    let (up, arg, c, d) = (n.alloc_free(0)?, n.alloc_free(1)?, n.alloc_free(2)?, n.alloc_free(3)?);
    let root = LOPath::root();
    n.connect(app.principal, up, root.clone())?;
    n.connect(app.aux1, arg, root.clone())?;
    n.connect(rep.aux0, c, root.clone())?;
    n.connect(rep.aux1, d, root.clone())?;
    n.connect(rep.principal, app.aux0, root.clone())?;
    let cand = match n.frontier2.entries.last().map(|e| e.1) {
        Some(c) => c,
        None => return Err(DnxError::ReadbackIncomplete),
    };
    n.frontier1.clear();
    n.frontier2.clear();
    c4_aux_fan_replication(&mut n, &cand)?;
    let up_key = root.extend_right()?.extend_left()?;
    let arg_key = root.extend_right()?.extend_right()?;
    for key in [&up_key, &arg_key] {
        let pr = match n.frontier1.get(key) {
            Some(pr) => *pr,
            None => return Err(DnxError::ReadbackIncomplete),
        };
        let s0 = *n.slot(pr.p0.get());
        let s = if s0.is_rep() { s0 } else { *n.slot(pr.p1.get()) };
        assert_eq!((s.data, s.delta0, s.delta1), (2, -3, 4), "C4 preserves level+deltas");
    }
    Ok(())
}

#[test]
fn normalize_identity_no_interactions() -> Result<(), DnxError> {
    let mut n = Net::<Proper, DeltaL>::new(8);
    let abs = n.alloc_abs()?;
    let var = n.alloc_free(0)?;
    n.connect(abs.aux0, var, LOPath::root())?;
    n.connect(abs.aux1, var, LOPath::root())?;
    n.add_root(String::from("r"), abs.principal);
    let (_, stats) = normalize(n)?;
    assert_eq!(stats.interactions, 0);
    assert_eq!(stats.r4_count, 0);
    Ok(())
}

#[test]
fn c1_keeps_everything_reachable_from_roots() -> Result<(), DnxError> {
    let mut n = Net::<Proper, DeltaK>::new(16);
    let r = n.alloc_free(0)?;
    let abs = n.alloc_abs()?;
    let inner = n.alloc_abs()?;
    let orphan_a = n.alloc_app()?;
    let orphan_b = n.alloc_app()?;
    n.connect(r, abs.principal, LOPath::root())?;
    n.connect(abs.aux0, inner.principal, LOPath::root())?;
    n.connect(orphan_a.aux0, orphan_b.aux0, LOPath::root())?;
    n.add_root(String::from("r"), r);
    c1_mark_sweep(&mut n);
    assert!(n.slot_is_live(r) && n.slot_is_live(abs.principal) && n.slot_is_live(inner.principal));
    assert!(!n.slot_is_live(orphan_a.principal) && !n.slot_is_live(orphan_b.principal));
    assert!(!n.net_pending_c1());
    Ok(())
}
