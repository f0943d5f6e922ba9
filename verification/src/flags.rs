//! The flag byte of the tag header.

use vstd::prelude::*;

verus! {

/// Flags used in the ID3 header.
#[derive(Clone, Copy, Debug, PartialEq, Eq, Structural)]
pub struct TagFlags {
    /// Indicates whether or not unsynchronization is used.
    pub unsynchronization: bool,
    /// Indicates whether or not the header is followed by an extended header.
    pub extended_header: bool,
    /// Indicates whether the tag is in an experimental stage.
    pub experimental: bool,
    /// Indicates whether a footer is present.
    pub footer: bool,
    /// Indicates whether or not compression is used. This flag is only used in ID3v2.2.
    pub compression: bool,
}

/// `mask` if `set`, else no bit.
pub open spec fn bit_if(set: bool, mask: u8) -> u8 {
    if set {
        mask
    } else {
        0u8
    }
}

impl TagFlags {
    /// The header byte that stands for these flags: bit 7 unsynchronization, bit 6 extended
    /// header, bit 5 experimental, bit 4 footer. Compression has no bit of its own.
    pub open spec fn spec_byte(self) -> u8 {
        bit_if(self.unsynchronization, 0x80) | bit_if(self.extended_header, 0x40) | bit_if(
            self.experimental,
            0x20,
        ) | bit_if(self.footer, 0x10)
    }

    /// The flags that a header byte stands for in a tag of the given major version. In
    /// version 2 bit 6 means compression and bits 5 and 4 mean nothing.
    pub open spec fn spec_from_byte(byte: u8, major: u8) -> TagFlags {
        TagFlags {
            unsynchronization: byte & 0x80 != 0,
            extended_header: major != 2 && byte & 0x40 != 0,
            experimental: major != 2 && byte & 0x20 != 0,
            footer: major != 2 && byte & 0x10 != 0,
            compression: major == 2 && byte & 0x40 != 0,
        }
    }

    /// The flags with none set.
    pub open spec fn spec_new() -> TagFlags {
        TagFlags {
            unsynchronization: false,
            extended_header: false,
            experimental: false,
            footer: false,
            compression: false,
        }
    }

    /// Creates a new `TagFlags` with all flags set to false.
    pub fn new() -> (flags: TagFlags)
        ensures
            flags == TagFlags::spec_new(),
    {
        TagFlags {
            unsynchronization: false,
            extended_header: false,
            experimental: false,
            footer: false,
            compression: false,
        }
    }

    /// The header byte for these flags.
    pub fn to_byte(&self) -> (byte: u8)
        ensures
            byte == self.spec_byte(),
    {
        let a: u8 = if self.unsynchronization { 0x80 } else { 0 };
        let b: u8 = if self.extended_header { 0x40 } else { 0 };
        let c: u8 = if self.experimental { 0x20 } else { 0 };
        let d: u8 = if self.footer { 0x10 } else { 0 };
        a | b | c | d
    }

    /// Creates a vector representation of the flags suitable for writing to an ID3 tag.
    pub fn to_bytes(&self) -> (bytes: Vec<u8>)
        ensures
            bytes@ == seq![self.spec_byte()],
    {
        let mut bytes: Vec<u8> = Vec::new();
        bytes.push(self.to_byte());
        assert(bytes@ =~= seq![self.spec_byte()]);
        bytes
    }

    /// Reads the flags out of a header byte of a tag with the given major version.
    pub fn from_byte(byte: u8, major: u8) -> (flags: TagFlags)
        ensures
            flags == TagFlags::spec_from_byte(byte, major),
    {
        TagFlags {
            unsynchronization: byte & 0x80 != 0,
            extended_header: major != 2 && byte & 0x40 != 0,
            experimental: major != 2 && byte & 0x20 != 0,
            footer: major != 2 && byte & 0x10 != 0,
            compression: major == 2 && byte & 0x40 != 0,
        }
    }

    /// Writing the flags and reading the byte back, in a version that has all four bits,
    /// gives the same four flags; the low four bits of the byte are never set.
    pub proof fn lemma_byte_round_trip(self, major: u8)
        requires
            major != 2,
        ensures
            TagFlags::spec_from_byte(self.spec_byte(), major) == (TagFlags {
                compression: false,
                ..self
            }),
            self.spec_byte() & 0x0F == 0,
    {
        lemma_or_masks(
            bit_if(self.unsynchronization, 0x80),
            bit_if(self.extended_header, 0x40),
            bit_if(self.experimental, 0x20),
            bit_if(self.footer, 0x10),
        );
    }
}

/// Four flags that each hold one distinct bit or none keep apart when or-ed together.
proof fn lemma_or_masks(a: u8, b: u8, c: u8, d: u8)
    requires
        a == 0 || a == 0x80,
        b == 0 || b == 0x40,
        c == 0 || c == 0x20,
        d == 0 || d == 0x10,
    ensures
        (a | b | c | d) & 0x80 == a,
        (a | b | c | d) & 0x40 == b,
        (a | b | c | d) & 0x20 == c,
        (a | b | c | d) & 0x10 == d,
        (a | b | c | d) & 0x0F == 0,
{
    assert((a == 0 || a == 0x80) && (b == 0 || b == 0x40) && (c == 0 || c == 0x20) && (d == 0 || d
        == 0x10) ==> (a | b | c | d) & 0x80 == a && (a | b | c | d) & 0x40 == b && (a | b | c | d)
        & 0x20 == c && (a | b | c | d) & 0x10 == d && (a | b | c | d) & 0x0F == 0) by (bit_vector);
}

} // verus!
