//! Type-level markers: the net class (which agent kinds a net may hold) and
//! the net state (proper, or certified canonical).
use vstd::prelude::*;

verus! {

/// Implemented only by the markers of this module.
pub trait Sealed {}

/// A net class. Bit 0 of its class bits: erasers allowed; bit 1:
/// replicators allowed.
pub trait NetClassMarker: Sealed {
    spec fn spec_class_bits() -> u8;

    fn class_bits() -> (b: u8)
        ensures
            b == Self::spec_class_bits(),
    ;
}

/// The linear lambda calculus: fans only.
pub struct DeltaL;

/// The affine class: fans and erasers.
pub struct DeltaA;

/// The relevant class: fans and replicators.
pub struct DeltaI;

/// The full class: fans, replicators and erasers.
pub struct DeltaK;

impl Sealed for DeltaL {}

impl Sealed for DeltaA {}

impl Sealed for DeltaI {}

impl Sealed for DeltaK {}

impl NetClassMarker for DeltaL {
    open spec fn spec_class_bits() -> u8 {
        0
    }

    fn class_bits() -> (b: u8) {
        0
    }
}

impl NetClassMarker for DeltaA {
    open spec fn spec_class_bits() -> u8 {
        1
    }

    fn class_bits() -> (b: u8) {
        1
    }
}

impl NetClassMarker for DeltaI {
    open spec fn spec_class_bits() -> u8 {
        2
    }

    fn class_bits() -> (b: u8) {
        2
    }
}

impl NetClassMarker for DeltaK {
    open spec fn spec_class_bits() -> u8 {
        3
    }

    fn class_bits() -> (b: u8) {
        3
    }
}

/// A net that may still hold redexes.
pub struct Proper;

/// A net certified to hold none.
pub struct Canonical;

impl Sealed for Proper {}

impl Sealed for Canonical {}

/// The state of a net.
pub trait NetState: Sealed {}

impl NetState for Proper {}

impl NetState for Canonical {}

/// Classes with replicators.
pub trait IsRepNet: NetClassMarker {}

impl IsRepNet for DeltaI {}

impl IsRepNet for DeltaK {}

/// Classes with erasers.
pub trait IsEraNet: NetClassMarker {}

impl IsEraNet for DeltaA {}

impl IsEraNet for DeltaK {}

} // verus!
