use dnx::{DnxError, LOPath};

fn lo(bits: &[u8]) -> Result<LOPath, DnxError> {
    bits.iter().try_fold(LOPath::root(), |p, &b| {
        if b == 0 {
            p.extend_left()
        } else {
            p.extend_right()
        }
    })
}

#[test]
fn depth_counts_bits() -> Result<(), DnxError> {
    assert_eq!(LOPath::root().depth(), 0);
    assert_eq!(lo(&[0, 1, 0])?.depth(), 3);
    Ok(())
}

#[test]
fn lo_order_outer_before_inner() -> Result<(), DnxError> {
    assert!(LOPath::root() < lo(&[0])?);
    assert!(lo(&[0])? < lo(&[0, 1])?);
    Ok(())
}

#[test]
fn lo_order_left_before_right() -> Result<(), DnxError> {
    assert!(lo(&[0])? < lo(&[1])?);
    assert!(lo(&[0, 1, 1])? < lo(&[1])?);
    Ok(())
}

#[test]
fn prefix_independence_iff_disjoint() -> Result<(), DnxError> {
    assert!(lo(&[0])?.prefix_independent(&lo(&[1])?));
    assert!(!lo(&[0])?.prefix_independent(&lo(&[0, 1])?));
    assert!(LOPath::root().is_prefix_of(&lo(&[1, 0, 1])?));
    Ok(())
}

#[test]
fn shard_key_is_first_branch_bit() -> Result<(), DnxError> {
    assert_eq!(LOPath::root().shard_key(), None);
    assert_eq!(lo(&[0, 1, 1])?.shard_key(), Some(0));
    assert_eq!(lo(&[1, 0, 0])?.shard_key(), Some(1));
    Ok(())
}

#[test]
fn limb_promotion_and_overflow() -> Result<(), DnxError> {
    let deep = (0..512).try_fold(LOPath::root(), |p, _| p.extend_right())?;
    assert_eq!(deep.depth(), 512);
    assert_eq!(deep.extend_right(), Err(DnxError::LOPathDepthExceeded));
    Ok(())
}

#[test]
fn shard_key_correct_across_limb_promotion() -> Result<(), DnxError> {
    let mut p = LOPath::root().extend_left()?;
    for _ in 0..200 {
        p = p.extend_right()?;
    }
    assert!(p.depth() > 128);
    assert_eq!(p.shard_key(), Some(0));
    Ok(())
}

#[test]
fn order_across_limbs_and_gpu_bits() -> Result<(), DnxError> {
    let mut a = LOPath::root();
    for _ in 0..130 {
        a = a.extend_left()?;
    }
    let b = a.extend_right()?;
    assert!(a < b);
    assert!(a.is_prefix_of(&b));
    assert!(!b.is_prefix_of(&a));
    let c = lo(&[1, 0, 1])?;
    let (words, len) = c.gpu_bits();
    assert_eq!(len, 3);
    assert_eq!(words[0], 0xA000_0000);
    let back = LOPath::from_gpu_bits(words[0], words[1], words[2], words[3], len);
    assert_eq!(back, c);
    Ok(())
}
