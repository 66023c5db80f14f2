use dnx::{missing_handler, ArtifactId, EffectRow, HandlerError};

#[test]
fn effect_row_union() {
    let a = EffectRow::single("io");
    let b = EffectRow::single("nix.store");
    let c = EffectRow::union(&a, &b);
    assert_eq!(c.labels.len(), 2);
    assert!(!c.is_pure());
}

#[test]
fn effect_row_pure() {
    assert!(EffectRow::pure().is_pure());
    assert!(!EffectRow::single("io").is_pure());
}

#[test]
fn union_is_sorted_and_deduplicated() {
    let a = EffectRow::union(&EffectRow::single("time"), &EffectRow::single("env"));
    let b = EffectRow::union(&EffectRow::single("io"), &EffectRow::single("time"));
    let c = EffectRow::union(&a, &b);
    assert_eq!(c.labels, vec![String::from("env"), String::from("io"), String::from("time")]);
    assert!(c.tail.is_none());
}

#[test]
fn union_keeps_the_first_open_tail() {
    let mut a = EffectRow::single("io");
    a.tail = Some(String::from("r"));
    let mut b = EffectRow::pure();
    b.tail = Some(String::from("s"));
    assert_eq!(EffectRow::union(&a, &b).tail, Some(String::from("r")));
    assert_eq!(EffectRow::union(&EffectRow::pure(), &b).tail, Some(String::from("s")));
    let open = EffectRow { labels: Vec::new(), tail: Some(String::from("t")) };
    assert!(!open.is_pure());
}

#[test]
fn missing_handler_reports_the_first_unhandled_label() {
    let row = EffectRow::union(&EffectRow::single("io"), &EffectRow::single("random"));
    let registered = vec![String::from("io")];
    assert_eq!(
        missing_handler(&registered, &row),
        Err(HandlerError::NoHandler(String::from("random")))
    );
    let all = vec![String::from("random"), String::from("io")];
    assert_eq!(missing_handler(&all, &row), Ok(()));
    assert_eq!(missing_handler(&Vec::new(), &EffectRow::pure()), Ok(()));
}

#[test]
fn pure_artifact_has_a_pure_row() {
    let id = ArtifactId::pure([5u8; 32]);
    assert_eq!(id.net_hash, [5u8; 32]);
    assert!(id.effect_row.is_pure());
}
