//! Port identifiers: a packed `u32` holding slot index, port kind, the eraser
//! flag and the low generation bit.
//!
//! Layout (least significant bit first): bit 0 = generation parity, bit 1 =
//! eraser flag, bits 2..4 = port kind, bits 4..32 = slot index.
use vstd::prelude::*;

verus! {

/// A port of an agent, packed in one word.
#[derive(Copy, Clone, PartialEq, Eq, Hash, Debug, Structural)]
pub struct PortId(pub u32);

/// The three ports of an agent.
#[derive(Copy, Clone, PartialEq, Eq, Debug, Structural)]
pub enum PortKind {
    Principal,
    Aux0,
    Aux1,
}

/// Port direction in the child/parent duality: every legal wire joins a child
/// port with a parent port.
#[derive(Copy, Clone, PartialEq, Eq, Debug, Structural)]
pub enum Polarity {
    Child,
    Parent,
}

/// The kind encoded by two bits: 0 principal, 1 first auxiliary, 2 and 3 second
/// auxiliary.
pub open spec fn kind_of_bits(bits: u32) -> PortKind {
    if bits & 3 == 0 {
        PortKind::Principal
    } else if bits & 3 == 1 {
        PortKind::Aux0
    } else {
        PortKind::Aux1
    }
}

/// The two-bit code of a port kind.
pub open spec fn kind_code(k: PortKind) -> u32 {
    match k {
        PortKind::Principal => 0,
        PortKind::Aux0 => 1,
        PortKind::Aux1 => 2,
    }
}

/// Slot index field of a raw port word.
pub open spec fn raw_slot(raw: u32) -> u32 {
    raw >> 4
}

/// Port-kind field of a raw port word.
pub open spec fn raw_kind(raw: u32) -> PortKind {
    kind_of_bits(raw >> 2)
}

/// Eraser flag of a raw port word.
pub open spec fn raw_is_eraser(raw: u32) -> bool {
    (raw >> 1) & 1 == 1
}

/// Generation parity of a raw port word.
pub open spec fn raw_gen(raw: u32) -> u8 {
    (raw & 1) as u8
}

/// The raw word that `PortId::new` packs.
pub open spec fn pack(slot_idx: u32, kind: PortKind, gen_low: u8) -> u32 {
    (slot_idx << 4) | (kind_code(kind) << 2) | ((gen_low & 1) as u32)
}

/// The null port (raw word 0).
pub open spec fn null_raw() -> u32 {
    0
}

/// The virtual eraser port (raw word 2).
pub open spec fn era_raw() -> u32 {
    2
}

impl PortKind {
    pub fn from_bits(bits: u32) -> (k: PortKind)
        ensures
            k == kind_of_bits(bits),
    {
        let b = bits & 0x3;
        if b == 0 {
            PortKind::Principal
        } else if b == 1 {
            PortKind::Aux0
        } else {
            PortKind::Aux1
        }
    }

    pub fn bits(self) -> (b: u32)
        ensures
            b == kind_code(self),
            b < 3,
    {
        match self {
            PortKind::Principal => 0,
            PortKind::Aux0 => 1,
            PortKind::Aux1 => 2,
        }
    }
}

/// Packing then unpacking gives back the slot index (modulo 2^28), the kind
/// and the generation parity, and never the eraser flag.
pub proof fn lemma_pack_fields(slot_idx: u32, kind: PortKind, gen_low: u8)
    ensures
        raw_slot(pack(slot_idx, kind, gen_low)) == slot_idx % 0x1000_0000,
        raw_kind(pack(slot_idx, kind, gen_low)) == kind,
        raw_gen(pack(slot_idx, kind, gen_low)) == gen_low & 1,
        !raw_is_eraser(pack(slot_idx, kind, gen_low)),
{
    let c = kind_code(kind);
    let g = (gen_low & 1) as u32;
    assert(g <= 1) by (bit_vector)
        requires
            g == (gen_low & 1) as u32,
    ;
    assert(c <= 2);
    assert((((slot_idx << 4) | (c << 2) | g) >> 4) == slot_idx % 0x1000_0000) by (bit_vector)
        requires
            c <= 2,
            g <= 1,
    ;
    assert(((((slot_idx << 4) | (c << 2) | g) >> 2) & 3) == c) by (bit_vector)
        requires
            c <= 2,
            g <= 1,
    ;
    assert(((((slot_idx << 4) | (c << 2) | g) & 1) as u8) == gen_low & 1) by (bit_vector)
        requires
            c <= 2,
            g == (gen_low & 1) as u32,
    ;
    assert(((((slot_idx << 4) | (c << 2) | g) >> 1) & 1) == 0) by (bit_vector)
        requires
            c <= 2,
            g <= 1,
    ;
}

impl PortId {
    /// The null port: no wire.
    pub fn null() -> (p: PortId)
        ensures
            p.0 == null_raw(),
    {
        PortId(0)
    }

    /// The virtual eraser port.
    pub fn era() -> (p: PortId)
        ensures
            p.0 == era_raw(),
    {
        PortId(0b10)
    }

    pub fn new(slot_idx: u32, kind: PortKind, gen_low: u8) -> (p: PortId)
        ensures
            p.0 == pack(slot_idx, kind, gen_low),
            raw_slot(p.0) == slot_idx % 0x1000_0000,
            raw_kind(p.0) == kind,
            raw_gen(p.0) == gen_low & 1,
            !raw_is_eraser(p.0),
    {
        proof {
            lemma_pack_fields(slot_idx, kind, gen_low);
        }
        PortId((slot_idx << 4) | (kind.bits() << 2) | ((gen_low & 1) as u32))
    }

    pub fn slot_idx(self) -> (r: u32)
        ensures
            r == raw_slot(self.0),
            r < 0x1000_0000,
    {
        proof {
            lemma_raw_slot_bound(self.0);
        }
        self.0 >> 4
    }

    pub fn port_kind(self) -> (k: PortKind)
        ensures
            k == raw_kind(self.0),
    {
        PortKind::from_bits(self.0 >> 2)
    }

    pub fn is_eraser(self) -> (b: bool)
        ensures
            b == raw_is_eraser(self.0),
    {
        (self.0 >> 1) & 1 == 1
    }

    pub fn gen_low(self) -> (g: u8)
        ensures
            g == raw_gen(self.0),
            g <= 1,
    {
        let v = self.0;
        assert(((v & 1) as u8) <= 1) by (bit_vector);
        (self.0 & 1) as u8
    }

    pub fn is_null(self) -> (b: bool)
        ensures
            b == (self.0 == 0),
    {
        self.0 == 0
    }

    pub fn raw(self) -> (r: u32)
        ensures
            r == self.0,
    {
        self.0
    }

    pub fn from_raw(v: u32) -> (p: PortId)
        ensures
            p.0 == v,
    {
        PortId(v)
    }
}

/// The null port is not an eraser and sits in slot 0; the eraser port is an
/// eraser, is not null, and also sits in slot 0.
/// Every raw word names a slot below 2^28.
pub proof fn lemma_raw_slot_bound(raw: u32)
    ensures
        raw_slot(raw) < 0x1000_0000,
{
    assert(raw >> 4 < 0x1000_0000) by (bit_vector);
}

pub proof fn lemma_sentinels()
    ensures
        !raw_is_eraser(null_raw()),
        raw_slot(null_raw()) == 0,
        raw_is_eraser(era_raw()),
        raw_slot(era_raw()) == 0,
        raw_kind(era_raw()) == PortKind::Principal,
{
    assert(((0u32 >> 1) & 1) == 0u32) by (bit_vector);
    assert((0u32 >> 4) == 0u32) by (bit_vector);
    assert(((2u32 >> 1) & 1) == 1u32) by (bit_vector);
    assert((2u32 >> 4) == 0u32) by (bit_vector);
    assert(((2u32 >> 2) & 3) == 0u32) by (bit_vector);
}

/// A port statically known to be a principal port. The only way to build one
/// is `PrincipalPortId::new`, which checks the kind.
#[derive(Copy, Clone, PartialEq, Eq, Hash, Debug, Structural)]
pub struct PrincipalPortId(pub PortId);

impl PrincipalPortId {
    pub fn new(p: PortId) -> (r: Option<PrincipalPortId>)
        ensures
            r == (if raw_kind(p.0) == PortKind::Principal {
                Some(PrincipalPortId(p))
            } else {
                None
            }),
    {
        match p.port_kind() {
            PortKind::Principal => Some(PrincipalPortId(p)),
            _ => None,
        }
    }

    pub fn get(self) -> (p: PortId)
        ensures
            p == self.0,
    {
        self.0
    }
}

} // verus!
