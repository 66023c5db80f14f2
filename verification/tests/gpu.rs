use dnx::{
    normalize_gpu_batched, DeltaL, DnxError, GpuOutput, LOPath, Net, PortId, Proper,
};

fn id_applied() -> Result<Net<Proper, DeltaL>, DnxError> {
    let mut n = Net::<Proper, DeltaL>::new(32);
    let abs = n.alloc_abs()?;
    let app = n.alloc_app()?;
    let arg = n.alloc_free(0)?;
    let res = n.alloc_free(1)?;
    n.connect(abs.aux0, abs.aux1, LOPath::root())?;
    n.connect(app.aux0, res, LOPath::root())?;
    n.connect(app.aux1, arg, LOPath::root())?;
    n.connect(abs.principal, app.principal, LOPath::root())?;
    Ok(n)
}

#[test]
fn a_kernel_that_fires_nothing_leaves_the_counts_at_zero() -> Result<(), DnxError> {
    let mut n = Net::<Proper, DeltaL>::new(16);
    let abs = n.alloc_abs()?;
    let res = n.alloc_free(0)?;
    n.connect(abs.aux0, abs.aux1, LOPath::root())?;
    n.connect(abs.principal, res, LOPath::root())?;
    let calls = std::cell::Cell::new(0u32);
    let kernel = |_: &[(PortId, PortId, LOPath)], _: &[u32], _: &[u32]| -> Result<Vec<GpuOutput>, DnxError> {
        calls.set(calls.get() + 1);
        Ok(vec![])
    };
    let (_, stats) = normalize_gpu_batched(n, kernel)?;
    assert_eq!(stats.interactions, 0);
    assert_eq!(stats.r4_count, 0);
    assert!(calls.get() <= 1);
    Ok(())
}

#[test]
fn the_kernel_sees_the_pending_pair_and_its_error_comes_back() -> Result<(), DnxError> {
    let n = id_applied()?;
    let slots = n.arena.slot_count() as usize;
    let kernel = move |pairs: &[(PortId, PortId, LOPath)], words: &[u32], bases: &[u32]| -> Result<Vec<GpuOutput>, DnxError> {
        assert_eq!(pairs.len(), 1);
        assert_eq!(bases.len(), 1);
        assert_eq!(words.len() % 8, 0);
        assert!(words.len() / 8 >= slots);
        Err(DnxError::DeltaOverflow)
    };
    assert!(matches!(normalize_gpu_batched(n, kernel), Err(DnxError::DeltaOverflow)));
    Ok(())
}

#[test]
fn more_records_than_pairs_is_refused() -> Result<(), DnxError> {
    let n = id_applied()?;
    let kernel = |_: &[(PortId, PortId, LOPath)], _: &[u32], _: &[u32]| -> Result<Vec<GpuOutput>, DnxError> {
        let empty = || GpuOutput {
            new_agents: vec![],
            retired: vec![],
            connects: vec![],
            set_erasers: vec![],
            link_direct: None,
        };
        Ok(vec![empty(), empty()])
    };
    assert!(matches!(normalize_gpu_batched(n, kernel), Err(DnxError::ReadbackIncomplete)));
    Ok(())
}
