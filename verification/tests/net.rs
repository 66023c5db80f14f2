use dnx::net::{certify_canonical, into_canonical};
use dnx::{Canonical, DeltaA, DeltaI, DeltaK, DeltaL, DnxError, LOPath, Net, PortId, Proper};

#[test]
fn class_flags_and_eraser_port() {
    let nk = Net::<Proper, DeltaK>::new(16);
    assert!(nk.net_has_rep() && nk.net_has_era());
    let nl = Net::<Proper, DeltaL>::new(16);
    assert!(!nl.net_has_rep() && !nl.net_has_era());
    let ni = Net::<Proper, DeltaI>::new(16);
    assert!(ni.net_has_rep() && !ni.net_has_era());
    let na = Net::<Proper, DeltaA>::new(16);
    assert!(!na.net_has_rep() && na.net_has_era());
    assert!(Net::<Proper, DeltaL>::eraser_port().is_eraser());
}

#[test]
fn alloc_sets_tag_and_rep_data() -> Result<(), DnxError> {
    let mut n = Net::<Proper, DeltaK>::new(16);
    let abs = n.alloc_abs()?;
    assert!(n.arena.slot(abs.principal.slot_idx()).fan_is_abs());
    let app = n.alloc_app()?;
    assert!(n.arena.slot(app.principal.slot_idx()).fan_is_app());
    let rep = n.alloc_rep_in(1, -1, 0)?;
    let rs = n.arena.slot(rep.principal.slot_idx());
    assert!(rs.is_rep() && rs.rep_is_in() && rs.rep_is_unpaired());
    assert_eq!((rs.data, rs.delta0, rs.delta1), (1, -1, 0));
    Ok(())
}

#[test]
fn principal_pair_routes_to_frontier1() -> Result<(), DnxError> {
    let mut n = Net::<Proper, DeltaL>::new(16);
    let f = n.alloc_app()?;
    let g = n.alloc_app()?;
    n.connect(f.principal, g.principal, LOPath::root())?;
    assert_eq!((n.frontier1.len(), n.frontier2.len()), (1, 0));
    let first = n.frontier1.entries.last().map(|e| e.1);
    if let Some(p) = first {
        assert_eq!((p.p0.get(), p.p1.get()), (f.principal, g.principal));
        assert_eq!(p.lo, LOPath::root());
    }
    Ok(())
}

#[test]
fn rep_principal_to_app_aux0_routes_to_frontier2() -> Result<(), DnxError> {
    let mut n = Net::<Proper, DeltaI>::new(16);
    let rep = n.alloc_rep_in(1, 0, 0)?;
    let app = n.alloc_app()?;
    n.connect(rep.principal, app.aux0, LOPath::root())?;
    assert_eq!((n.frontier1.len(), n.frontier2.len()), (0, 1));
    let first = n.frontier2.entries.last().map(|e| e.1);
    if let Some(c) = first {
        assert_eq!((c.rep_principal, c.app_aux0), (rep.principal, app.aux0));
        assert_eq!(c.lo, LOPath::root());
    }
    Ok(())
}

#[test]
fn plain_wire_routes_to_neither() -> Result<(), DnxError> {
    let mut n = Net::<Proper, DeltaL>::new(16);
    let f = n.alloc_abs()?;
    let g = n.alloc_app()?;
    n.connect(f.aux0, g.aux1, LOPath::root())?;
    assert_eq!((n.frontier1.len(), n.frontier2.len()), (0, 0));
    Ok(())
}

#[test]
fn eraser_on_rep_aux1_sets_flag_and_pending_c1() -> Result<(), DnxError> {
    let mut n = Net::<Proper, DeltaK>::new(16);
    let rep = n.alloc_rep_in(1, 0, 0)?;
    n.set_eraser_on_port(rep.aux1);
    let s = n.arena.slot(rep.principal.slot_idx());
    assert!(s.rep_aux1_erased());
    assert_eq!(s.aux1, PortId::era().raw());
    assert!(n.net_pending_c1());
    Ok(())
}

#[test]
fn witness_gates_canonical_transition() -> Result<(), DnxError> {
    let n = Net::<Proper, DeltaL>::new(16);
    let w = certify_canonical(&n)?;
    let _c: Net<Canonical, DeltaL> = into_canonical(n, w);

    let mut m = Net::<Proper, DeltaL>::new(16);
    let f = m.alloc_app()?;
    let g = m.alloc_app()?;
    m.connect(f.principal, g.principal, LOPath::root())?;
    assert!(certify_canonical(&m).is_err());
    Ok(())
}

#[test]
fn roots_peers_and_counts() -> Result<(), DnxError> {
    let mut n = Net::<Proper, DeltaL>::new(16);
    let abs = n.alloc_abs()?;
    let v = n.alloc_free(0x4005)?;
    n.connect(abs.aux0, v, LOPath::root())?;
    n.add_root(String::from("r"), abs.principal);
    n.add_root(String::from("r"), v);
    assert_eq!(n.roots().len(), 1);
    assert_eq!(n.root("r"), Some(v));
    assert_eq!(n.root("missing"), None);
    assert_eq!(n.peer(abs.aux0), v);
    assert_eq!(n.peer(v), abs.aux0);
    assert_eq!(n.slot_view(v).free_var_id(), 5);
    assert_eq!(n.agent_count(), 2);
    assert_eq!(n.active_pair_count(), 0);
    assert!(n.slot_is_live(abs.principal));
    assert!(!n.slot_is_live(PortId::era()));
    Ok(())
}

#[test]
fn frontier_encoding_in_lo_order() -> Result<(), DnxError> {
    let mut n = Net::<Proper, DeltaL>::new(16);
    let a = n.alloc_app()?;
    let b = n.alloc_abs()?;
    let c = n.alloc_app()?;
    let d = n.alloc_abs()?;
    let right = LOPath::root().extend_right()?;
    let left = LOPath::root().extend_left()?;
    n.connect(a.principal, b.principal, right)?;
    n.connect(c.principal, d.principal, left)?;
    let enc = n.encode_frontier_gpu();
    assert_eq!(enc.len(), 2);
    assert_eq!(enc[0].0, c.principal.raw());
    assert_eq!(enc[1].0, a.principal.raw());
    assert_eq!(enc[1].2[0], 0x8000_0000);
    assert_eq!(enc[1].3, 1);
    assert_eq!(n.encode_arena_gpu().len(), 8 * 5);
    Ok(())
}
