use std::sync::Arc;

use dnx::{
    canonical_hash, normalize, normalize_cached, Blake3Hash, CacheError, Canonical, DeltaL,
    DnxError, EffectRow, LOPath, Net, PortId, Proper, ResultCache,
};

const ROOT: &str = "res";

fn id_applied() -> Result<Net<Proper, DeltaL>, DnxError> {
    let mut n = Net::<Proper, DeltaL>::new(16);
    let abs = n.alloc_abs()?;
    let app = n.alloc_app()?;
    let arg = n.alloc_free(0)?;
    let res = n.alloc_free(1)?;
    n.connect(abs.aux0, abs.aux1, LOPath::root())?;
    n.connect(app.aux0, res, LOPath::root())?;
    n.connect(app.aux1, arg, LOPath::root())?;
    n.connect(abs.principal, app.principal, LOPath::root())?;
    n.add_root(String::from(ROOT), res);
    Ok(n)
}

fn root_of(net: &Net<Canonical, DeltaL>) -> Result<PortId, DnxError> {
    net.root(ROOT).ok_or(DnxError::ReadbackIncomplete)
}

fn hash_of(net: &Net<Canonical, DeltaL>) -> Result<Blake3Hash, DnxError> {
    canonical_hash(net, root_of(net)?)
}

#[test]
fn demo_second_eval_is_free() -> Result<(), CacheError> {
    let (nf, _) = normalize(id_applied()?)?;
    let key = hash_of(&nf)?;
    let root = root_of(&nf)?;

    let mut cache = ResultCache::<DeltaL>::new();
    let pure = EffectRow::pure();
    assert!(cache.is_empty(), "the demo starts with a cold cache");

    let (r1, s1) = normalize_cached(&mut cache, key, id_applied()?, root, &pure)?;
    assert!(s1.interactions > 0, "eval #1 must do real reduction work, got {s1:?}");
    assert_eq!(cache.len(), 1, "eval #1 must memoize exactly one result");

    let (r2, s2) = normalize_cached(&mut cache, key, id_applied()?, root, &pure)?;
    assert_eq!(s2.interactions, 0, "eval #2 must recompute nothing, got {s2:?}");

    assert_eq!(hash_of(&r1)?, hash_of(&r2)?, "both evals must yield a hash-equal result net");
    assert!(Arc::ptr_eq(&r1, &r2), "the hit must return the stored result by reference");
    assert_eq!(cache.len(), 1, "the hit must not grow the cache");
    Ok(())
}

#[test]
fn hit_does_zero_work() -> Result<(), CacheError> {
    let (probe, _) = normalize(id_applied()?)?;
    let key = hash_of(&probe)?;
    let root = root_of(&probe)?;

    let mut cache = ResultCache::<DeltaL>::new();
    let pure = EffectRow::pure();

    let (a, sa) = normalize_cached(&mut cache, key, id_applied()?, root, &pure)?;
    assert!(sa.interactions > 0, "miss must do reduction work");
    assert_eq!(cache.len(), 1, "miss must store the result");

    let (b, sb) = normalize_cached(&mut cache, key, id_applied()?, root, &pure)?;
    assert_eq!(sb.interactions, 0, "hit must never recompute");
    assert_eq!(cache.len(), 1, "hit must not grow the cache");
    assert!(Arc::ptr_eq(&a, &b), "hit must return the stored Arc");
    assert_eq!(hash_of(&a)?, hash_of(&b)?, "hit result must hash-equal");
    Ok(())
}

#[test]
fn wrong_key_misses() -> Result<(), CacheError> {
    let (probe, _) = normalize(id_applied()?)?;
    let key = hash_of(&probe)?;
    let root = root_of(&probe)?;
    let mut other = key;
    other[0] ^= 0xff;

    let mut cache = ResultCache::<DeltaL>::new();
    let pure = EffectRow::pure();

    let _ = normalize_cached(&mut cache, key, id_applied()?, root, &pure)?;
    let r = normalize_cached(&mut cache, other, id_applied()?, root, &pure);
    assert!(matches!(r, Err(CacheError::HashMismatch)), "a key that does not address the result is rejected");
    assert_eq!(cache.len(), 1, "a mismatched key stores nothing");
    Ok(())
}

#[test]
fn insert_rejects_wrong_key() -> Result<(), CacheError> {
    let (result, _) = normalize(id_applied()?)?;
    let root = root_of(&result)?;
    let real = canonical_hash(&result, root)?;
    let mut forged = real;
    forged[0] ^= 0xff;

    let mut cache = ResultCache::<DeltaL>::new();
    let shared = Arc::new(result);

    let bad = cache.insert(forged, Arc::clone(&shared), root);
    assert!(matches!(bad, Err(CacheError::HashMismatch)), "forged key must be rejected");
    assert!(cache.is_empty(), "a rejected seed stores nothing");

    cache.insert(real, shared, root)?;
    assert_eq!(cache.len(), 1, "the content-address key seeds the entry");
    Ok(())
}

#[test]
fn effectful_results_are_never_cached() -> Result<(), CacheError> {
    let (probe, _) = normalize(id_applied()?)?;
    let key = hash_of(&probe)?;
    let root = root_of(&probe)?;
    let mut cache = ResultCache::<DeltaL>::new();
    let io = EffectRow::single("io");
    let (_, s1) = normalize_cached(&mut cache, key, id_applied()?, root, &io)?;
    let (_, s2) = normalize_cached(&mut cache, key, id_applied()?, root, &io)?;
    assert!(s1.interactions > 0 && s2.interactions > 0);
    assert!(cache.is_empty());
    Ok(())
}

#[test]
fn verify_blob_accepts_only_the_matching_key() -> Result<(), DnxError> {
    let (nf, _) = normalize(id_applied()?)?;
    let root = root_of(&nf)?;
    let key = canonical_hash(&nf, root)?;
    let blob = dnx::to_blob(&nf, root)?;
    assert!(dnx::verify_blob::<DeltaL>(&key, &blob).is_ok());
    let mut other = key;
    other[31] ^= 1;
    assert!(matches!(dnx::verify_blob::<DeltaL>(&other, &blob), Err(CacheError::HashMismatch)));
    assert!(matches!(dnx::verify_blob::<DeltaL>(&key, &blob[..3]), Err(CacheError::Decode(_))));
    Ok(())
}

#[test]
fn hex_names_a_blob_in_lower_case() {
    let mut h = [0u8; 32];
    h[0] = 0xAB;
    h[31] = 0x0F;
    let s = dnx::hex(&h);
    assert_eq!(s.len(), 64);
    assert!(s.starts_with("ab00"));
    assert!(s.ends_with("000f"));
}

#[test]
fn held_keys_keeps_the_keys_reported_present_in_order() {
    let a = [1u8; 32];
    let b = [2u8; 32];
    let c = [3u8; 32];
    assert_eq!(dnx::held_keys(&[a, b, c], &[true, false, true]), vec![a, c]);
    assert_eq!(dnx::held_keys(&[a, b, c], &[false, true]), vec![b]);
    assert!(dnx::held_keys(&[a], &[]).is_empty());
}

#[test]
fn parse_hash_reads_64_hex_digits_in_either_case() {
    let lower = "00ff".repeat(16);
    let mut want = [0u8; 32];
    for i in 0..32 {
        want[i] = if i % 2 == 0 { 0x00 } else { 0xff };
    }
    assert_eq!(dnx::parse_hash(&lower), Ok(want));
    assert_eq!(dnx::parse_hash(&lower.to_uppercase()), Ok(want));
    assert_eq!(dnx::parse_hash(&dnx::hex(&[0xab; 32])), Ok([0xab; 32]));
    assert!(dnx::parse_hash("abc").is_err());
    assert!(dnx::parse_hash(&"g".repeat(64)).is_err());
}
