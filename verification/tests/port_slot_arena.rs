use dnx::arena::Arena;
use dnx::port::Polarity;
use dnx::port::Polarity::{Child, Parent};
use dnx::PortKind::{Aux0, Aux1, Principal};
use dnx::slot::Slot;
use dnx::{DnxError, PortId, PortKind};

#[test]
fn portid_roundtrip() {
    let p = PortId::new(5, PortKind::Aux1, 1);
    assert_eq!(p.slot_idx(), 5);
    assert_eq!(p.port_kind(), PortKind::Aux1);
    assert_eq!(p.gen_low(), 1);
    assert!(!p.is_eraser());
}

#[test]
fn sentinels() {
    assert!(PortId::era().is_eraser());
    assert!(PortId::null().is_null());
    assert_eq!(PortId::null().slot_idx(), 0);
}

fn t(tag: u8) -> Slot {
    Slot { tag, ..Slot::empty() }
}

#[test]
fn variant_table_round_trips() {
    assert!(t(0b0000).is_free());
    assert!(t(0b0100).is_fan() && t(0b0100).fan_is_app());
    assert!(t(0b0101).is_fan() && t(0b0101).fan_is_abs());
    assert!(t(0b1000).is_rep() && t(0b1000).rep_is_in() && t(0b1000).rep_is_unpaired());
    assert!(t(0b1001).is_rep() && !t(0b1001).rep_is_in() && t(0b1001).rep_is_unpaired());
    assert!(t(0b1010).is_rep() && t(0b1010).rep_is_in() && !t(0b1010).rep_is_unpaired());
    assert!(t(0b1011).is_rep() && !t(0b1011).rep_is_in() && !t(0b1011).rep_is_unpaired());
    assert!(t(0xC).is_prim() && t(0xD).is_prim());
}

#[test]
fn polarity_matches_paper_child_parent_duality() {
    assert_eq!(t(0b0100).polarity(Principal), Some(Child));
    assert_eq!(t(0b0100).polarity(Aux0), Some(Parent));
    assert_eq!(t(0b0100).polarity(Aux1), Some(Child));
    assert_eq!(t(0b0101).polarity(Principal), Some(Parent));
    assert_eq!(t(0b0101).polarity(Aux0), Some(Child));
    assert_eq!(t(0b0101).polarity(Aux1), Some(Parent));
    assert_eq!(t(0b1010).polarity(Principal), Some(Child));
    assert_eq!(t(0b1010).polarity(Aux0), Some(Parent));
    assert_eq!(t(0b1011).polarity(Principal), Some(Parent));
    assert_eq!(t(0b1011).polarity(Aux0), Some(Child));
    assert_eq!(t(0b0000).polarity(Principal), None);
    assert_eq!(t(0x0C).polarity(Principal), None);
}

#[test]
fn prim_predicate_excludes_0xe_0xf() {
    assert!(!t(0x0E).is_prim() && !t(0x0E).is_rep() && !t(0x0E).is_fan());
    assert!(!t(0x0F).is_prim() && !t(0x0F).is_rep() && !t(0x0F).is_fan());
}

#[test]
fn upper_nibble_flags() {
    assert!(t(0xA8).rep_aux1_erased() && !t(0xA8).rep_aux0_erased());
    assert!(t(0x20).is_c1_marked());
    assert!(t(0x15).fan_is_abs() && t(0x15).abs_is_erasing());
    assert!(t(0x88).rep_c3_candidate());
    assert!(!t(0x08).rep_c3_candidate());
}

#[test]
fn value_head_is_prim_or_fanabs() {
    assert!(t(0xC).is_value_head() && t(0xD).is_value_head());
    assert!(t(0b0101).is_value_head());
    assert!(!t(0b0100).is_value_head());
    assert!(!t(0b1000).is_value_head());
}

#[test]
fn alloc_skips_sentinel_and_tracks_live() -> Result<(), DnxError> {
    let mut a = Arena::new(8);
    let i = a.alloc_slot()?;
    let j = a.alloc_slot()?;
    let k = a.alloc_slot()?;
    assert_eq!((i, j, k), (1, 2, 3));
    a.retire_slot(j);
    let mut live = a.live().to_vec();
    live.sort_unstable();
    assert_eq!(live, vec![1, 3]);
    Ok(())
}

#[test]
fn reuse_bumps_generation_aba_parity() -> Result<(), DnxError> {
    let mut a = Arena::new(8);
    let i = a.alloc_slot()?;
    let g0 = a.slot(i).generation;
    a.retire_slot(i);
    let j = a.alloc_slot()?;
    assert_eq!(i, j, "tombstone reused");
    assert_eq!(a.slot(j).generation, g0.wrapping_add(1));
    assert_ne!(g0 & 1, a.slot(j).generation & 1, "gen_low parity flips");
    Ok(())
}

#[test]
fn capacity_exceeded_errors() -> Result<(), DnxError> {
    let mut a = Arena::new(3);
    a.alloc_slot()?;
    a.alloc_slot()?;
    assert_eq!(a.alloc_slot(), Err(DnxError::ArenaCapacityExceeded));
    Ok(())
}

#[test]
fn encode_gpu_lays_out_eight_words_per_slot() -> Result<(), DnxError> {
    let mut a = Arena::new(8);
    let i = a.alloc_slot()?;
    let mut s = *a.slot(i);
    s.tag = 0x0A;
    s.claim = 3;
    s.data = 7;
    s.delta0 = -1;
    s.delta1 = 2;
    s.epoch = 5;
    a.set_slot(i, s);
    let words = a.encode_gpu();
    assert_eq!(words.len(), 16);
    let base = 8 * i as usize;
    assert_eq!(words[base], 0x0A | (3 << 8));
    assert_eq!(words[base + 5], 7 | (0xFFFF << 16));
    assert_eq!(words[base + 6], 2 | (5 << 16));
    assert_eq!(words[base + 7], 0);
    Ok(())
}
