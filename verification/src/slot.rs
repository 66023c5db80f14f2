//! The arena cell of one agent and the meaning of its tag bits.
//!
//! Tag layout: bits 2..4 select the agent class (00 free, 01 fan, 10
//! replicator, 11 primitive); bit 0 is the fan abs/app or replicator in/out
//! bit; bit 1 is the replicator unpaired/unknown bit (and the value/function
//! bit of a primitive); the high nibble holds flags.
use vstd::prelude::*;
use crate::port::{Polarity, PortKind};

verus! {

/// One agent: tag, generation, the three peer words, and the replicator
/// level and deltas (`data` is also the free-variable id or primitive index).
#[derive(Copy, Clone, Debug)]
pub struct Slot {
    pub tag: u8,
    pub claim: u8,
    pub generation: u32,
    pub principal: u32,
    pub aux0: u32,
    pub aux1: u32,
    pub data: u16,
    pub delta0: i16,
    pub delta1: i16,
    pub epoch: u16,
}

pub const TAG_FREE: u8 = 0b0000;
pub const TAG_FAN_APP: u8 = 0b0100;
pub const TAG_FAN_ABS: u8 = 0b0101;
pub const TAG_REP_IN_UNPAIRED: u8 = 0b1000;
pub const TAG_REP_IN_UNKNOWN: u8 = 0b1010;
pub const TAG_REP_OUT_UNKNOWN: u8 = 0b1011;
pub const TAG_PRIM_VAL: u8 = 0x0C;
pub const TAG_PRIM_FUN: u8 = 0x0D;
pub const TAG_AUX0_ERASED: u8 = 0x40;
pub const TAG_AUX1_ERASED: u8 = 0x80;
pub const TAG_ERASING_ABS: u8 = 0x10;
pub const TAG_C1_MARK: u8 = 0x20;

pub open spec fn tag_is_free(t: u8) -> bool {
    t & 0x0C == 0x00
}

pub open spec fn tag_is_fan(t: u8) -> bool {
    t & 0x0C == 0x04
}

pub open spec fn tag_is_rep(t: u8) -> bool {
    t & 0x0C == 0x08
}

pub open spec fn tag_is_prim(t: u8) -> bool {
    t & 0x0E == 0x0C
}

/// Bit 0: abstraction (for a fan) or fan-out replicator.
pub open spec fn tag_bit0(t: u8) -> bool {
    t & 0x01 != 0
}

/// Bit 1 clear: an unpaired replicator.
pub open spec fn tag_unpaired(t: u8) -> bool {
    t & 0x02 == 0
}

pub open spec fn tag_aux0_erased(t: u8) -> bool {
    t & 0x40 != 0
}

pub open spec fn tag_aux1_erased(t: u8) -> bool {
    t & 0x80 != 0
}

pub open spec fn tag_c1_marked(t: u8) -> bool {
    t & 0x20 != 0
}

pub open spec fn tag_erasing_abs(t: u8) -> bool {
    t & 0x10 != 0
}

/// The polarity of port `kind` of an agent with tag `t`, `None` outside the
/// fan/replicator classes. App: principal child, aux0 parent, aux1 child.
/// Abs: principal parent, aux0 child, aux1 parent. Fan-in replicator:
/// principal child, both aux parent. Fan-out replicator: the reverse.
pub open spec fn tag_polarity(t: u8, kind: PortKind) -> Option<Polarity> {
    if !tag_is_fan(t) && !tag_is_rep(t) {
        None
    } else {
        let flipped = tag_bit0(t);
        Some(
            match kind {
                PortKind::Principal => if flipped {
                    Polarity::Parent
                } else {
                    Polarity::Child
                },
                PortKind::Aux0 => if tag_is_fan(t) {
                    if flipped {
                        Polarity::Child
                    } else {
                        Polarity::Parent
                    }
                } else if flipped {
                    Polarity::Child
                } else {
                    Polarity::Parent
                },
                PortKind::Aux1 => if tag_is_fan(t) {
                    if flipped {
                        Polarity::Parent
                    } else {
                        Polarity::Child
                    }
                } else if flipped {
                    Polarity::Child
                } else {
                    Polarity::Parent
                },
            },
        )
    }
}

/// The four agent classes are mutually exclusive.
pub proof fn lemma_classes_exclusive(t: u8)
    ensures
        !(tag_is_free(t) && tag_is_fan(t)),
        !(tag_is_free(t) && tag_is_rep(t)),
        !(tag_is_fan(t) && tag_is_rep(t)),
        tag_is_prim(t) ==> !tag_is_free(t) && !tag_is_fan(t) && !tag_is_rep(t),
{
    assert(!((t & 0x0C) == 0x00 && (t & 0x0C) == 0x04)) by (bit_vector);
    assert(!((t & 0x0C) == 0x00 && (t & 0x0C) == 0x08)) by (bit_vector);
    assert(!((t & 0x0C) == 0x04 && (t & 0x0C) == 0x08)) by (bit_vector);
    assert((t & 0x0E) == 0x0C ==> (t & 0x0C) == 0x0C) by (bit_vector);
}

/// The classes of the tags agents are allocated with.
pub proof fn lemma_agent_tags()
    ensures
        tag_is_fan(TAG_FAN_APP) && !tag_bit0(TAG_FAN_APP),
        tag_is_fan(TAG_FAN_ABS) && tag_bit0(TAG_FAN_ABS),
        tag_is_rep(TAG_REP_IN_UNPAIRED),
        !tag_is_fan(TAG_FREE) && !tag_is_rep(TAG_FREE),
{
    assert((0x04u8 & 0x0C) == 0x04 && (0x04u8 & 0x01) == 0 && (0x05u8 & 0x0C) == 0x04 && (0x05u8
        & 0x01) != 0 && (0x08u8 & 0x0C) == 0x08 && (0x00u8 & 0x0C) == 0x00) by (bit_vector);
}

/// Setting flag bits of the high nibble keeps the class and variant bits.
pub proof fn lemma_flags_keep_class(t: u8, f: u8)
    requires
        f == 0x10 || f == 0x20 || f == 0x40 || f == 0x80,
    ensures
        (t | f) & 0x0F == t & 0x0F,
        (t | f) & 0x0C == t & 0x0C,
        tag_is_rep(t | f) == tag_is_rep(t),
        tag_is_fan(t | f) == tag_is_fan(t),
        tag_bit0(t | f) == tag_bit0(t),
        tag_unpaired(t | f) == tag_unpaired(t),
{
    assert((t | f) & 0x0F == t & 0x0F) by (bit_vector)
        requires
            f == 0x10 || f == 0x20 || f == 0x40 || f == 0x80,
    ;
    assert((t | f) & 0x0C == t & 0x0C) by (bit_vector)
        requires
            f == 0x10 || f == 0x20 || f == 0x40 || f == 0x80,
    ;
    assert((t | f) & 0x01 == t & 0x01) by (bit_vector)
        requires
            f == 0x10 || f == 0x20 || f == 0x40 || f == 0x80,
    ;
    assert((t | f) & 0x02 == t & 0x02) by (bit_vector)
        requires
            f == 0x10 || f == 0x20 || f == 0x40 || f == 0x80,
    ;
}

impl Slot {
    /// A fresh, all-zero slot.
    pub fn empty() -> (s: Slot)
        ensures
            s == Slot::spec_empty(),
    {
        Slot {
            tag: 0,
            claim: 0,
            generation: 0,
            principal: 0,
            aux0: 0,
            aux1: 0,
            data: 0,
            delta0: 0,
            delta1: 0,
            epoch: 0,
        }
    }

    pub open spec fn spec_empty() -> Slot {
        Slot {
            tag: 0,
            claim: 0,
            generation: 0,
            principal: 0,
            aux0: 0,
            aux1: 0,
            data: 0,
            delta0: 0,
            delta1: 0,
            epoch: 0,
        }
    }

    pub fn is_free(&self) -> (b: bool)
        ensures
            b == tag_is_free(self.tag),
    {
        (self.tag & 0x0C) == 0x00
    }

    pub fn is_fan(&self) -> (b: bool)
        ensures
            b == tag_is_fan(self.tag),
    {
        (self.tag & 0x0C) == 0x04
    }

    pub fn is_rep(&self) -> (b: bool)
        ensures
            b == tag_is_rep(self.tag),
    {
        (self.tag & 0x0C) == 0x08
    }

    pub fn is_prim(&self) -> (b: bool)
        ensures
            b == tag_is_prim(self.tag),
    {
        (self.tag & 0x0E) == 0x0C
    }

    /// A fan-in replicator (bit 0 clear).
    pub fn rep_is_in(&self) -> (b: bool)
        ensures
            b == !tag_bit0(self.tag),
    {
        (self.tag & 0x01) == 0
    }

    pub fn rep_is_unpaired(&self) -> (b: bool)
        ensures
            b == tag_unpaired(self.tag),
    {
        (self.tag & 0x02) == 0
    }

    pub fn fan_is_abs(&self) -> (b: bool)
        ensures
            b == tag_bit0(self.tag),
    {
        (self.tag & 0x01) != 0
    }

    pub fn fan_is_app(&self) -> (b: bool)
        ensures
            b == !tag_bit0(self.tag),
    {
        (self.tag & 0x01) == 0
    }

    pub fn polarity(&self, kind: PortKind) -> (r: Option<Polarity>)
        ensures
            r == tag_polarity(self.tag, kind),
    {
        let fan = self.is_fan();
        if !fan && !self.is_rep() {
            return None;
        }
        let flipped = (self.tag & 0x01) != 0;
        let p = match kind {
            PortKind::Principal => if flipped {
                Polarity::Parent
            } else {
                Polarity::Child
            },
            PortKind::Aux0 => if flipped {
                Polarity::Child
            } else {
                Polarity::Parent
            },
            PortKind::Aux1 => if fan {
                if flipped {
                    Polarity::Parent
                } else {
                    Polarity::Child
                }
            } else if flipped {
                Polarity::Child
            } else {
                Polarity::Parent
            },
        };
        Some(p)
    }

    pub fn rep_aux1_erased(&self) -> (b: bool)
        ensures
            b == tag_aux1_erased(self.tag),
    {
        (self.tag & 0x80) != 0
    }

    pub fn rep_aux0_erased(&self) -> (b: bool)
        ensures
            b == tag_aux0_erased(self.tag),
    {
        (self.tag & 0x40) != 0
    }

    pub fn is_c1_marked(&self) -> (b: bool)
        ensures
            b == tag_c1_marked(self.tag),
    {
        (self.tag & 0x20) != 0
    }

    pub fn abs_is_erasing(&self) -> (b: bool)
        ensures
            b == tag_erasing_abs(self.tag),
    {
        (self.tag & 0x10) != 0
    }

    /// A fan-in, unpaired replicator whose second auxiliary is erased and
    /// whose first is not: the decay candidate.
    pub fn rep_c3_candidate(&self) -> (b: bool)
        ensures
            b == (self.tag & 0xCA == 0x88),
    {
        (self.tag & 0xCA) == 0x88
    }

    /// A value head: a primitive or an abstraction fan.
    pub fn is_value_head(&self) -> (b: bool)
        ensures
            b == (tag_is_prim(self.tag) || self.tag & 0x0D == 0x05),
    {
        self.is_prim() || (self.tag & 0x0D) == 0x05
    }
}

} // verus!
