
use dnx::{canonical_hash, normalize, DnxError, LOPath, Net, Proper, DeltaI, DeltaK, DeltaL};

fn id_applied() -> Result<Net<Proper, DeltaL>, DnxError> {
    let mut n = Net::<Proper, DeltaL>::new(16);
    let abs = n.alloc_abs()?;
    let app = n.alloc_app()?;
    let arg = n.alloc_free(0)?;
    let res = n.alloc_free(1)?;
    n.connect(abs.aux0, abs.aux1, LOPath::root())?;
    n.connect(app.aux0, res, LOPath::root())?;
    n.connect(app.aux1, arg, LOPath::root())?;
    n.connect(abs.principal, app.principal, LOPath::root())?;
    n.add_root(String::from("res"), res);
    Ok(n)
}

fn id_id() -> Result<Net<Proper, DeltaL>, DnxError> {
    let mut n = Net::<Proper, DeltaL>::new(16);
    let abs1 = n.alloc_abs()?;
    let abs2 = n.alloc_abs()?;
    let app = n.alloc_app()?;
    let res = n.alloc_free(0)?;
    n.connect(abs1.aux0, abs1.aux1, LOPath::root())?;
    n.connect(abs2.aux0, abs2.aux1, LOPath::root())?;
    n.connect(app.principal, abs1.principal, LOPath::root())?;
    n.connect(app.aux1, abs2.principal, LOPath::root())?;
    n.connect(app.aux0, res, LOPath::root())?;
    n.add_root(String::from("res"), res);
    Ok(n)
}

fn two_independent_ids() -> Result<Net<Proper, DeltaL>, DnxError> {
    let mut n = Net::<Proper, DeltaL>::new(32);
    let lo0 = LOPath::root().extend_left()?;
    let lo1 = LOPath::root().extend_right()?;
    for (lo, var_id, root_name) in [(lo0, 0u32, "r0"), (lo1, 2u32, "r1")] {
        let abs = n.alloc_abs()?;
        let app = n.alloc_app()?;
        let arg = n.alloc_free(var_id)?;
        let res = n.alloc_free(var_id + 1)?;
        n.connect(abs.aux0, abs.aux1, lo.clone())?;
        n.connect(app.aux1, arg, lo.clone())?;
        n.connect(app.aux0, res, lo.clone())?;
        n.connect(abs.principal, app.principal, lo.clone())?;
        n.add_root(String::from(root_name), res);
    }
    Ok(n)
}

fn self_apply_id() -> Result<Net<Proper, DeltaI>, DnxError> {
    let mut n = Net::<Proper, DeltaI>::new(64);
    let lo = LOPath::root();
    let outer = n.alloc_abs()?;
    let rep = n.alloc_rep_in(0, 0, 0)?;
    let inner_app = n.alloc_app()?;
    n.connect(rep.principal, outer.aux1, lo.clone())?;
    n.connect(rep.aux0, inner_app.principal, lo.clone())?;
    n.connect(rep.aux1, inner_app.aux1, lo.clone())?;
    n.connect(inner_app.aux0, outer.aux0, lo.clone())?;
    let id = n.alloc_abs()?;
    n.connect(id.aux0, id.aux1, lo.clone())?;
    let app = n.alloc_app()?;
    let res = n.alloc_free(0)?;
    n.connect(app.principal, outer.principal, lo.clone())?;
    n.connect(app.aux1, id.principal, lo.clone())?;
    n.connect(app.aux0, res, lo.clone())?;
    n.add_root(String::from("res"), res);
    Ok(n)
}

fn root_hash<C: dnx::NetClassMarker>(
    net: &dnx::Net<dnx::Canonical, C>,
    name: &str,
) -> [u8; 32] {
    let port = net.root(name).expect("root missing");
    canonical_hash(net, port).expect("canonical_hash on a pure NF")
}

#[test]

fn confluence_id_hash_stable() -> Result<(), DnxError> {
    let (n1, _) = normalize(id_applied()?)?;
    let (n2, _) = normalize(id_applied()?)?;
    assert_eq!(
        root_hash(&n1, "res"),
        root_hash(&n2, "res"),
        "id_applied: hash must be stable"
    );
    Ok(())
}

#[test]

fn optimality_dl_interactions_eq_beta() -> Result<(), DnxError> {
    for (name, net) in [
        ("id_applied", id_applied()?),
        ("two_ids", two_independent_ids()?),
        ("id_id", id_id()?),
    ] {
        let (_, s) = normalize(net)?;
        assert_eq!(
            s.interactions, s.r4_count,
            "DeltaL optimality violated for '{name}': interactions={} r4={}",
            s.interactions, s.r4_count
        );
    }
    Ok(())
}

#[test]

fn optimality_id_exact_one_beta() -> Result<(), DnxError> {
    let (_, s) = normalize(id_applied()?)?;
    assert_eq!(s.r4_count, 1, "id_applied: 1 β");
    assert_eq!(s.interactions, 1, "id_applied: 1 total interaction");
    Ok(())
}

#[test]

fn optimality_two_ids_exact_two_beta() -> Result<(), DnxError> {
    let (_, s) = normalize(two_independent_ids()?)?;
    assert_eq!(s.r4_count, 2, "two ids: 2 β");
    assert_eq!(s.interactions, 2, "two ids: 2 total interactions");
    Ok(())
}

#[test]

fn optimality_di_no_duplicate_beta() -> Result<(), DnxError> {
    let (_, s) = normalize(self_apply_id()?)?;
    assert_eq!(
        s.r4_count, 2,
        "(λx.x x) id: exactly 2 β (sharing = no duplication)"
    );
    Ok(())
}

#[test]

fn optimality_no_redex_zero_interactions() -> Result<(), DnxError> {
    let mut n = Net::<Proper, DeltaL>::new(8);
    let abs = n.alloc_abs()?;
    n.add_root(String::from("r"), abs.principal);
    let (_, s) = normalize(n)?;
    assert_eq!(s.interactions, 0);
    assert_eq!(s.r4_count, 0);
    Ok(())
}

#[test]

fn di_omega_bounded_memory() -> Result<(), DnxError> {
    let mut n = Net::<Proper, DeltaI>::new(32);
    let abs = n.alloc_abs()?;
    let rep = n.alloc_rep_in(0, 0, 0)?;
    let app = n.alloc_app()?;
    let r = n.alloc_free(0)?;
    n.connect(rep.aux0, abs.aux0, LOPath::root())?;
    n.connect(rep.aux1, abs.aux1, LOPath::root())?;
    n.connect(rep.principal, app.aux1, LOPath::root())?;
    n.connect(app.aux0, r, LOPath::root())?;
    n.connect(abs.principal, app.principal, LOPath::root())?;
    assert_eq!(n.active_pair_count(), 1, "ω ω: one active pair");
    assert!(n.agent_count() <= 32, "ω ω: bounded agents");
    Ok(())
}

#[test]

fn confluence_independent_pairs_hash_stable() -> Result<(), DnxError> {
    let (a, _) = normalize(two_independent_ids()?)?;
    let (b, _) = normalize(two_independent_ids()?)?;
    assert_eq!(root_hash(&a, "r0"), root_hash(&b, "r0"), "r0 hash stable");
    assert_eq!(root_hash(&a, "r1"), root_hash(&b, "r1"), "r1 hash stable");
    Ok(())
}

#[test]

fn confluence_id_id_hash_stable() -> Result<(), DnxError> {
    let (a, _) = normalize(id_id()?)?;
    let (b, _) = normalize(id_id()?)?;
    assert_eq!(
        root_hash(&a, "res"),
        root_hash(&b, "res"),
        "id_id hash stable"
    );
    Ok(())
}

#[test]

fn dk_sharing_hash_stable() -> Result<(), DnxError> {
    let mk = || -> Result<Net<Proper, DeltaK>, DnxError> {
        let mut n = Net::<Proper, DeltaK>::new(32);
        let abs = n.alloc_abs()?;
        let app = n.alloc_app()?;
        let arg = n.alloc_free(0)?;
        let res = n.alloc_free(1)?;
        n.connect(abs.aux0, abs.aux1, LOPath::root())?;
        n.connect(app.aux0, res, LOPath::root())?;
        n.connect(app.aux1, arg, LOPath::root())?;
        n.connect(abs.principal, app.principal, LOPath::root())?;
        n.add_root(String::from("res"), res);
        Ok(n)
    };
    let (n1, _) = normalize(mk()?)?;
    let (n2, _) = normalize(mk()?)?;
    assert_eq!(
        root_hash(&n1, "res"),
        root_hash(&n2, "res"),
        "DeltaK: same hash both runs"
    );
    Ok(())
}
