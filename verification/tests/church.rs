use dnx::{emit_church_bool, try_church_bool, DeltaA, DnxError, Net, Proper};

#[test]
fn church_booleans_read_back() -> Result<(), DnxError> {
    let mut n = Net::<Proper, DeltaA>::new(16);
    let t = emit_church_bool(&mut n, true)?;
    let f = emit_church_bool(&mut n, false)?;
    assert_eq!(try_church_bool(&n, t), Some(true));
    assert_eq!(try_church_bool(&n, f), Some(false));
    Ok(())
}

#[test]
fn other_shapes_are_not_booleans() -> Result<(), DnxError> {
    let mut n = Net::<Proper, DeltaA>::new(16);
    let abs = n.alloc_abs()?;
    assert_eq!(try_church_bool(&n, abs.principal), None);
    let v = n.alloc_free(1)?;
    assert_eq!(try_church_bool(&n, v), None);
    Ok(())
}

#[test]
fn emitting_needs_room_for_two_agents() {
    let mut n = Net::<Proper, DeltaA>::new(2);
    assert!(matches!(emit_church_bool(&mut n, true), Err(DnxError::ArenaCapacityExceeded)));
}
