use vstd::prelude::*;

use crate::records::be_at;
use crate::wire::{be16, read_u16, ParseError};
use crate::writer::Writer;

verus! {

/// The 16-bit flags word of a DNS header.
///
/// QR is bit 15, the opcode bits 11 to 14, AA bit 10, TC bit 9, RD bit 8,
/// RA bit 7, Z bits 4 to 6 and RCODE bits 0 to 3.
#[derive(Clone, Copy, PartialEq, Eq, Structural, Debug, Default)]
pub struct Flags(pub u16);

/// The operation of a DNS message.
#[derive(Debug, Clone, Copy, PartialEq, Eq, Structural)]
pub enum Opcode {
    Query,
    IQuery,
    Status,
    Reserved,
    Notify,
    Update,
}

/// The opcode that a 4-bit field value denotes; unassigned values are `Reserved`.
pub open spec fn opcode_of(v: u8) -> Opcode {
    if v == 0 {
        Opcode::Query
    } else if v == 1 {
        Opcode::IQuery
    } else if v == 2 {
        Opcode::Status
    } else if v == 4 {
        Opcode::Notify
    } else if v == 5 {
        Opcode::Update
    } else {
        Opcode::Reserved
    }
}

/// The field value of an opcode.
pub open spec fn opcode_value(o: Opcode) -> u8 {
    match o {
        Opcode::Query => 0,
        Opcode::IQuery => 1,
        Opcode::Status => 2,
        Opcode::Reserved => 3,
        Opcode::Notify => 4,
        Opcode::Update => 5,
    }
}

/// `w` with the bits of `mask` set when `on`, cleared otherwise.
pub open spec fn with_bits(w: u16, mask: u16, on: bool) -> u16 {
    if on {
        w | mask
    } else {
        w & !mask
    }
}

impl Opcode {
    /// The opcode that a field value denotes.
    pub fn from_u8(v: u8) -> (r: Opcode)
        ensures
            r == opcode_of(v),
    {
        match v {
            0 => Opcode::Query,
            1 => Opcode::IQuery,
            2 => Opcode::Status,
            4 => Opcode::Notify,
            5 => Opcode::Update,
            _ => Opcode::Reserved,
        }
    }

    /// The field value of this opcode.
    pub fn to_u8(&self) -> (r: u8)
        ensures
            r == opcode_value(*self),
    {
        match self {
            Opcode::Query => 0,
            Opcode::IQuery => 1,
            Opcode::Status => 2,
            Opcode::Reserved => 3,
            Opcode::Notify => 4,
            Opcode::Update => 5,
        }
    }
}

impl From<u8> for Opcode {
    fn from(v: u8) -> (r: Opcode) {
        Opcode::from_u8(v)
    }
}

impl vstd::std_specs::convert::FromSpecImpl<u8> for Opcode {
    open spec fn obeys_from_spec() -> bool {
        true
    }

    open spec fn from_spec(v: u8) -> Opcode {
        opcode_of(v)
    }
}

impl From<Opcode> for u8 {
    fn from(o: Opcode) -> (r: u8) {
        o.to_u8()
    }
}

impl vstd::std_specs::convert::FromSpecImpl<Opcode> for u8 {
    open spec fn obeys_from_spec() -> bool {
        true
    }

    open spec fn from_spec(o: Opcode) -> u8 {
        opcode_value(o)
    }
}

impl Flags {
    fn new() -> (r: Flags)
        ensures
            r.0 == 0,
    {
        Flags(0)
    }

    /// A query: QR clear, opcode Query, RD set, everything else clear.
    pub fn standard_request() -> (r: Flags)
        ensures
            r.0 == 0x0100,
    {
        let mut flags = Flags::new();
        flags.set_query(true);
        flags.set_opcode(Opcode::Query);
        flags.set_recursion_desired(true);
        assert((0u16 & !0x8000u16) == 0) by (bit_vector);
        assert(((0u16 & !0x7800u16) | ((0u16 & 0x0F) << 11u16)) == 0) by (bit_vector);
        assert((0u16 | 0x0100u16) == 0x0100) by (bit_vector);
        flags
    }

    /// An answer: QR set, opcode Query, AA set, RA clear, everything else clear.
    pub fn standard_response() -> (r: Flags)
        ensures
            r.0 == 0x8400,
    {
        let mut flags = Flags::new();
        flags.set_query(false);
        flags.set_opcode(Opcode::Query);
        flags.set_authoritative(true);
        flags.set_recursion_available(false);
        assert((0u16 | 0x8000u16) == 0x8000) by (bit_vector);
        assert(((0x8000u16 & !0x7800u16) | ((0u16 & 0x0F) << 11u16)) == 0x8000) by (bit_vector);
        assert((0x8000u16 | 0x0400u16) == 0x8400) by (bit_vector);
        assert((0x8400u16 & !0x0080u16) == 0x8400) by (bit_vector);
        flags
    }

    /// Whether the QR bit marks a query.
    pub fn is_query(&self) -> (r: bool)
        ensures
            r == (self.0 & 0x8000 == 0),
    {
        (self.0 & 0x8000) == 0
    }

    /// Marks the message as a query (QR clear) or a response (QR set).
    pub fn set_query(&mut self, is_query: bool)
        ensures
            final(self).0 == with_bits(old(self).0, 0x8000, !is_query),
    {
        if is_query {
            self.0 &= !0x8000u16;
        } else {
            self.0 |= 0x8000;
        }
    }

    /// The opcode in bits 11 to 14.
    pub fn get_opcode(&self) -> (r: Opcode)
        ensures
            r == opcode_of(((self.0 >> 11u16) & 0x0F) as u8),
    {
        Opcode::from_u8(((self.0 >> 11u16) & 0x0F) as u8)
    }

    /// Stores the opcode in bits 11 to 14, keeping the other bits.
    pub fn set_opcode(&mut self, opcode: Opcode)
        ensures
            final(self).0 == (old(self).0 & !0x7800u16) | (((opcode_value(opcode) as u16) & 0x0F) << 11u16),
    {
        self.0 = (self.0 & !0x7800u16) | (((opcode.to_u8() as u16) & 0x0F) << 11u16);
    }

    /// Whether the AA bit is set.
    pub fn is_authoritative(&self) -> (r: bool)
        ensures
            r == (self.0 & 0x0400 != 0),
    {
        (self.0 & 0x0400) != 0
    }

    /// Sets or clears the AA bit.
    pub fn set_authoritative(&mut self, authoritative: bool)
        ensures
            final(self).0 == with_bits(old(self).0, 0x0400, authoritative),
    {
        if authoritative {
            self.0 |= 0x0400;
        } else {
            self.0 &= !0x0400u16;
        }
    }

    /// Whether the TC bit is set.
    pub fn is_truncated(&self) -> (r: bool)
        ensures
            r == (self.0 & 0x0200 != 0),
    {
        (self.0 & 0x0200) != 0
    }

    /// Sets or clears the TC bit.
    pub fn set_truncated(&mut self, truncated: bool)
        ensures
            final(self).0 == with_bits(old(self).0, 0x0200, truncated),
    {
        if truncated {
            self.0 |= 0x0200;
        } else {
            self.0 &= !0x0200u16;
        }
    }

    /// Whether the RD bit is set.
    pub fn is_recursion_desired(&self) -> (r: bool)
        ensures
            r == (self.0 & 0x0100 != 0),
    {
        (self.0 & 0x0100) != 0
    }

    /// Sets or clears the RD bit.
    pub fn set_recursion_desired(&mut self, recursion_desired: bool)
        ensures
            final(self).0 == with_bits(old(self).0, 0x0100, recursion_desired),
    {
        if recursion_desired {
            self.0 |= 0x0100;
        } else {
            self.0 &= !0x0100u16;
        }
    }

    /// Whether the RA bit is set.
    pub fn is_recursion_available(&self) -> (r: bool)
        ensures
            r == (self.0 & 0x0080 != 0),
    {
        (self.0 & 0x0080) != 0
    }

    /// Sets or clears the RA bit.
    pub fn set_recursion_available(&mut self, recursion_available: bool)
        ensures
            final(self).0 == with_bits(old(self).0, 0x0080, recursion_available),
    {
        if recursion_available {
            self.0 |= 0x0080;
        } else {
            self.0 &= !0x0080u16;
        }
    }

    /// The Z field, bits 4 to 6.
    pub fn get_reserved(&self) -> (r: u8)
        ensures
            r == ((self.0 >> 4u16) & 0x07) as u8,
    {
        ((self.0 >> 4u16) & 0x07) as u8
    }

    /// Stores the low three bits of `reserved` in the Z field, keeping the other bits.
    pub fn set_reserved(&mut self, reserved: u8)
        ensures
            final(self).0 == (old(self).0 & !0x0070u16) | (((reserved as u16) & 0x07) << 4u16),
    {
        self.0 = (self.0 & !0x0070u16) | (((reserved as u16) & 0x07) << 4u16);
    }

    /// The RCODE field, bits 0 to 3.
    pub fn get_rcode(&self) -> (r: u8)
        ensures
            r == (self.0 & 0x000F) as u8,
    {
        (self.0 & 0x000F) as u8
    }

    /// Stores the low four bits of `rcode` in the RCODE field, keeping the other bits.
    pub fn set_rcode(&mut self, rcode: u8)
        ensures
            final(self).0 == (old(self).0 & !0x000Fu16) | ((rcode as u16) & 0x0F),
    {
        self.0 = (self.0 & !0x000Fu16) | ((rcode as u16) & 0x0F);
    }
}

impl Flags {
    /// Reads the flags word at `pos` of `ctx`.
    pub fn parse(ctx: &[u8], pos: usize) -> (r: Result<(Flags, usize), ParseError>)
        ensures
            pos + 2 <= ctx@.len() ==> (r matches Ok((f, e)) && f.0 == be_at(ctx@, pos as int, 2) && e == pos + 2),
            pos + 2 > ctx@.len() ==> r == Err::<(Flags, usize), ParseError>(ParseError::Incomplete),
    {
        match read_u16(ctx, pos) {
            Ok(v) => {
                assert(ctx@.len() == ctx.len());
                Ok((Flags(v), pos + 2))
            },
            Err(e) => Err(e),
        }
    }

    /// Writes the flags word.
    pub fn serialize<const LK: usize>(&self, w: &mut Writer<LK>)
        requires
            old(w).wf(),
        ensures
            Writer::<LK>::emits(*old(w), *final(w), be16(self.0), old(w).memo()),
    {
        w.write_u16(self.0);
    }
}

} // verus!
