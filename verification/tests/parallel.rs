use dnx::{
    commit_output, finish_parallel, normalize, prepare_batch, worker_fire, DeltaK, DeltaL, DnxError,
    LOPath, Net, PortId, Proper, ReduceStats, WorkerOutput,
};

fn id_applied() -> Result<Net<Proper, DeltaL>, DnxError> {
    let mut n = Net::<Proper, DeltaL>::new(32);
    let abs = n.alloc_abs()?;
    let app = n.alloc_app()?;
    let arg = n.alloc_free(0)?;
    let res = n.alloc_free(1)?;
    n.connect(abs.aux0, abs.aux1, LOPath::root())?;
    n.connect(app.aux0, res, LOPath::root())?;
    n.connect(app.aux1, arg, LOPath::root())?;
    n.connect(abs.principal, app.principal, LOPath::root())?;
    n.add_root(String::from("res"), res);
    Ok(n)
}

fn batched<C: dnx::CRules>(mut net: Net<Proper, C>) -> Result<(Net<dnx::Canonical, C>, ReduceStats), DnxError> {
    let mut stats = ReduceStats::default();
    loop {
        let (batch, bases) = prepare_batch(&mut net)?;
        if batch.is_empty() {
            break;
        }
        let outs: Vec<Result<WorkerOutput, DnxError>> =
            batch.iter().zip(bases.iter()).map(|(p, &b)| worker_fire::<C>(&net.arena, p, b)).collect();
        for (i, o) in outs.into_iter().enumerate() {
            commit_output(&mut net, o?, bases[i], &mut stats).map_err(|_| DnxError::ReadbackIncomplete)?;
        }
    }
    finish_parallel(net, stats)
}

#[test]
fn batched_identity_application_is_one_beta() -> Result<(), DnxError> {
    let (_, s) = batched(id_applied()?)?;
    let (_, t) = normalize(id_applied()?)?;
    assert_eq!(s.r4_count, 1);
    assert_eq!(s.interactions, 1);
    assert_eq!(t.r4_count, s.r4_count);
    Ok(())
}

#[test]
fn two_independent_redexes_fire_in_one_batch() -> Result<(), DnxError> {
    let mut n = Net::<Proper, DeltaL>::new(64);
    let mut results: Vec<PortId> = Vec::new();
    for k in 0..2u32 {
        let abs = n.alloc_abs()?;
        let app = n.alloc_app()?;
        let arg = n.alloc_free(2 * k)?;
        let res = n.alloc_free(2 * k + 1)?;
        n.connect(abs.aux0, abs.aux1, LOPath::root())?;
        n.connect(app.aux0, res, LOPath::root())?;
        n.connect(app.aux1, arg, LOPath::root())?;
        let lo = if k == 0 { LOPath::root().extend_left()? } else { LOPath::root().extend_right()? };
        n.connect(abs.principal, app.principal, lo)?;
        results.push(res);
    }
    let (batch, bases) = prepare_batch(&mut n)?;
    assert_eq!(batch.len(), 2);
    assert_eq!(bases.len(), 2);
    assert!(batch[0].lo.lo_order(&batch[1].lo) < 0, "batch in leftmost-outermost order");
    let mut stats = ReduceStats::default();
    for (i, p) in batch.iter().enumerate() {
        let out = worker_fire::<DeltaL>(&n.arena, p, bases[i])?;
        assert_eq!(out.retired.len(), 2);
        commit_output(&mut n, out, bases[i], &mut stats).map_err(|_| DnxError::ReadbackIncomplete)?;
    }
    assert_eq!(stats.r4_count, 2);
    assert_eq!(n.agent_count(), 4);
    Ok(())
}

#[test]
fn a_record_for_the_wrong_reservation_is_refused() -> Result<(), DnxError> {
    let mut n = id_applied()?;
    let (batch, bases) = prepare_batch(&mut n)?;
    let out = worker_fire::<DeltaL>(&n.arena, &batch[0], bases[0])?;
    let mut stats = ReduceStats::default();
    let r = commit_output(&mut n, out, 0, &mut stats);
    assert!(r.is_err());
    assert_eq!(stats.interactions, 0);
    Ok(())
}

#[test]
fn eraser_pairs_record_nothing() -> Result<(), DnxError> {
    let mut n = Net::<Proper, DeltaK>::new(16);
    let era = Net::<Proper, DeltaK>::eraser_port();
    let pair = dnx::net::ActivePair::new(era, era, LOPath::root()).expect("principal ports");
    let base = n.arena.reserve(4)?;
    let out = worker_fire::<DeltaK>(&n.arena, &pair, base)?;
    assert!(out.retired.is_empty() && out.connects.is_empty() && out.new_agents.is_empty());
    Ok(())
}

#[test]
fn the_worker_records_a_beta_step_as_retire_and_link() -> Result<(), DnxError> {
    let mut n = Net::<Proper, DeltaL>::new(32);
    let abs = n.alloc_abs()?;
    let app = n.alloc_app()?;
    let arg = n.alloc_free(0)?;
    let res = n.alloc_free(1)?;
    n.connect(abs.aux0, abs.aux1, LOPath::root())?;
    n.connect(app.aux0, res, LOPath::root())?;
    n.connect(app.aux1, arg, LOPath::root())?;
    n.connect(abs.principal, app.principal, LOPath::root())?;
    let (batch, bases) = prepare_batch(&mut n)?;
    let pair = batch
        .iter()
        .position(|p| {
            let e = (p.p0.get(), p.p1.get());
            e == (abs.principal, app.principal) || e == (app.principal, abs.principal)
        })
        .expect("the beta pair is pending");
    let out = worker_fire::<DeltaL>(&n.arena, &batch[pair], bases[pair])?;
    assert_eq!(out.retired, vec![abs.principal.slot_idx(), app.principal.slot_idx()]);
    assert!(out.connects.is_empty());
    assert_eq!(out.link_direct, Some((res, arg)));
    Ok(())
}

#[test]
fn two_replicators_commute_on_the_record() -> Result<(), DnxError> {
    let root = LOPath::root();
    let mut n = Net::<Proper, dnx::DeltaI>::new(32);
    let hi = n.alloc_rep_in(5, 7, 9)?;
    let low = n.alloc_rep_in(2, 1, -1)?;
    let a = n.alloc_free(0)?;
    let b = n.alloc_free(1)?;
    let c = n.alloc_free(2)?;
    let d = n.alloc_free(3)?;
    n.connect(hi.aux0, a, root)?;
    n.connect(hi.aux1, b, root)?;
    n.connect(low.aux0, c, root)?;
    n.connect(low.aux1, d, root)?;
    let pair = dnx::net::ActivePair::new(hi.principal, low.principal, root).expect("principal ports");
    let base = n.arena.reserve(4)?;
    let mut out = WorkerOutput::new();
    dnx::reduce::parallel::fire_rule_parallel_arena::<dnx::DeltaI>(&n.arena, &pair, base, &mut out)?;
    let labels: Vec<(u16, i16, i16)> = out.new_agents.iter().map(|s| (s.data, s.delta0, s.delta1)).collect();
    assert_eq!(labels, vec![(6, 7, 9), (4, 7, 9), (2, 1, -1), (2, 1, -1)]);
    assert_eq!(out.retired, vec![hi.principal.slot_idx(), low.principal.slot_idx()]);
    assert_eq!(out.connects.len(), 8);
    let outer: Vec<PortId> = out.connects[4..8].iter().map(|e| e.1).collect();
    assert_eq!(outer, vec![c, d, a, b]);
    assert!(out.set_erasers.is_empty());
    assert!(out.link_direct.is_none());
    Ok(())
}
