use dnx::{
    force_whnf, take_spine_redex, DeltaL, DnxError, LOPath, Net, NormalizeConfig, Proper,
    ValueHead,
};

fn id_applied() -> Result<(Net<Proper, DeltaL>, dnx::AgentPorts, dnx::AgentPorts, dnx::PortId), DnxError> {
    let mut n = Net::<Proper, DeltaL>::new(32);
    let abs = n.alloc_abs()?;
    let app = n.alloc_app()?;
    let arg = n.alloc_free(0)?;
    let res = n.alloc_free(1)?;
    n.connect(abs.aux0, abs.aux1, LOPath::root())?;
    n.connect(app.aux0, res, LOPath::root())?;
    n.connect(app.aux1, arg, LOPath::root())?;
    n.connect(abs.principal, app.principal, LOPath::root())?;
    Ok((n, abs, app, res))
}

#[test]
fn spine_redex_is_the_application_under_the_demanded_port() -> Result<(), DnxError> {
    let (mut n, abs, app, res) = id_applied()?;
    let before = n.frontier1.len();
    let pair = take_spine_redex(&mut n, res).expect("a redex on the spine");
    let ends = (pair.p0.get(), pair.p1.get());
    assert!(ends == (abs.principal, app.principal) || ends == (app.principal, abs.principal));
    assert!(n.frontier1.len() <= before);
    Ok(())
}

#[test]
fn spine_of_a_value_holds_no_redex() -> Result<(), DnxError> {
    let mut n = Net::<Proper, DeltaL>::new(16);
    let abs = n.alloc_abs()?;
    let res = n.alloc_free(0)?;
    n.connect(abs.aux0, abs.aux1, LOPath::root())?;
    n.connect(abs.principal, res, LOPath::root())?;
    assert!(take_spine_redex(&mut n, res).is_none());
    Ok(())
}

#[test]
fn forcing_an_applied_identity_leaves_the_free_argument() -> Result<(), DnxError> {
    let (mut n, _, _, res) = id_applied()?;
    let v = force_whnf(&mut n, res, &NormalizeConfig::default())?;
    assert!(matches!(v, ValueHead::Stuck(_)));
    Ok(())
}

#[test]
fn forcing_a_lambda_gives_an_abstraction() -> Result<(), DnxError> {
    let mut n = Net::<Proper, DeltaL>::new(16);
    let abs = n.alloc_abs()?;
    let res = n.alloc_free(0)?;
    n.connect(abs.aux0, abs.aux1, LOPath::root())?;
    n.connect(abs.principal, res, LOPath::root())?;
    assert_eq!(force_whnf(&mut n, res, &NormalizeConfig::default())?, ValueHead::Abs);
    Ok(())
}
