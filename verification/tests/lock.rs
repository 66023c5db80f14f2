use dnx::{FlakeError, LockFile};

#[test]
fn lock_round_trips_through_its_text() {
    let mut lock = LockFile::default();
    lock.pin_bytes("b-input", "inputs/b", b"second");
    lock.pin_bytes("a-input", "inputs/a", b"first");
    assert_eq!(lock.entries().len(), 2);
    assert_eq!(lock.entries()[0].name(), "a-input");
    assert_eq!(lock.entries()[1].name(), "b-input");
    let text = lock.to_text();
    let reparsed = LockFile::from_text(&text).expect("from_text");
    assert_eq!(reparsed, lock);
    assert_eq!(reparsed.to_text(), text);
}

#[test]
fn pin_hashes_with_blake3() {
    let mut lock = LockFile::default();
    lock.pin_bytes("x", "x.nix", b"hello");
    assert_eq!(lock.entries()[0].hash(), blake3::hash(b"hello").as_bytes());
    assert_eq!(lock.entries()[0].path(), "x.nix");
}

#[test]
fn pin_replaces_an_entry_of_the_same_name() {
    let mut lock = LockFile::default();
    lock.pin_bytes("x", "old", b"1");
    lock.pin_bytes("x", "new", b"2");
    assert_eq!(lock.entries().len(), 1);
    assert_eq!(lock.entries()[0].path(), "new");
}

#[test]
fn text_form_is_name_tab_path_tab_hex() {
    let mut lock = LockFile::default();
    lock.pin_bytes("n", "p", b"");
    let text = lock.to_text();
    let hex: String = blake3::hash(b"").as_bytes().iter().map(|b| format!("{b:02x}")).collect();
    assert_eq!(text, format!("n\tp\t{hex}\n"));
}

#[test]
fn from_text_sorts_by_name_and_skips_blank_lines() {
    let h = "00".repeat(32);
    let text = format!("zeta\tz\t{h}\r\n\nalpha\ta\t{h}");
    let lock = LockFile::from_text(&text).expect("parses");
    assert_eq!(lock.entries().len(), 2);
    assert_eq!(lock.entries()[0].name(), "alpha");
    assert_eq!(lock.entries()[1].name(), "zeta");
    assert_eq!(lock.entries()[1].hash(), &[0u8; 32]);
}

#[test]
fn malformed_lines_are_lock_errors() {
    let h = "ab".repeat(32);
    assert!(matches!(LockFile::from_text("only-name"), Err(FlakeError::Lock(_))));
    assert!(matches!(LockFile::from_text("n\tp"), Err(FlakeError::Lock(_))));
    assert!(matches!(LockFile::from_text(&format!("n\tp\t{h}\textra")), Err(FlakeError::Lock(_))));
    assert!(matches!(LockFile::from_text("n\tp\tabc"), Err(FlakeError::Lock(_))));
    let upper = "AB".repeat(32);
    assert!(matches!(LockFile::from_text(&format!("n\tp\t{upper}")), Err(FlakeError::Lock(_))));
}

#[test]
fn check_entry_detects_changed_content() {
    let mut lock = LockFile::default();
    lock.pin_bytes("x", "x", b"v1");
    let e = &lock.entries()[0];
    assert!(LockFile::check_entry(e, b"v1").is_ok());
    assert!(matches!(
        LockFile::check_entry(e, b"v2"),
        Err(FlakeError::HashMismatch { input }) if input == "x"
    ));
}

#[test]
fn is_sorted_tells_an_ordered_lock_from_a_shuffled_one() {
    let mut lock = LockFile::default();
    assert!(lock.is_sorted());
    lock.pin_bytes("b-input", "inputs/b", b"second");
    lock.pin_bytes("a-input", "inputs/a", b"first");
    lock.pin_bytes("c-input", "inputs/c", b"third");
    assert!(lock.is_sorted());
    lock.entries.swap(0, 2);
    assert!(!lock.is_sorted());
}
