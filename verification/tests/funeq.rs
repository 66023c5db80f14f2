use dnx::{fn_eq, normalize, Canonical, DeltaL, LOPath, Net, PortId, Proper};

fn make_id() -> (Net<Canonical, DeltaL>, PortId) {
    let mut n = Net::<Proper, DeltaL>::new(16);
    let abs = n.alloc_abs().unwrap();
    n.connect(abs.aux0, abs.aux1, LOPath::root()).unwrap();
    n.add_root("r".into(), abs.principal);
    let (c, _) = normalize(n).unwrap();
    (c, abs.principal)
}

fn make_app() -> (Net<Canonical, DeltaL>, PortId) {
    let mut n = Net::<Proper, DeltaL>::new(32);
    let abs1 = n.alloc_abs().unwrap();
    let abs2 = n.alloc_abs().unwrap();
    let app = n.alloc_app().unwrap();
    n.connect(abs1.aux0, abs2.principal, LOPath::root())
        .unwrap();
    n.connect(app.principal, abs1.aux1, LOPath::root()).unwrap();
    n.connect(app.aux1, abs2.aux1, LOPath::root()).unwrap();
    n.connect(abs2.aux0, app.aux0, LOPath::root()).unwrap();
    n.add_root("r".into(), abs1.principal);
    let (c, _) = normalize(n).unwrap();
    (c, abs1.principal)
}

#[test]
fn id_eq_id() {
    let (n1, r1) = make_id();
    let (n2, r2) = make_id();
    assert!(fn_eq(&n1, r1, &n2, r2).unwrap(), "λx.x == λx.x");
}

#[test]
fn id_ne_app() {
    let (n1, r1) = make_id();
    let (n2, r2) = make_app();
    assert!(!fn_eq(&n1, r1, &n2, r2).unwrap(), "λx.x != λf.λx.f x");
}

