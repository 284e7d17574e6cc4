//! The `TMR SEGA` header of a cartridge.
use vstd::prelude::*;
use crate::bits::lemma_nibbles;
use crate::text::{dec, text, Text};

verus! {

/// Where the header stands in a ROM.
pub const HEADER_OFFSET: usize = 0x7FF0;

/// What a header starts with: `TMR SEGA`.
pub const HEADER_MAGIC: [u8; 8] = [0x54, 0x4D, 0x52, 0x20, 0x53, 0x45, 0x47, 0x41];

/// The sixteen header bytes, taken apart.
///
/// Relative to the header: bytes 0 to 7 the magic, 8 and 9 reserved, 10 and 11
/// the checksum (low byte first), 12 to 14 the product code in binary-coded
/// decimal with the version in the low half of byte 14, and byte 15 the region
/// (high half) and the size code (low half).
#[derive(Debug)]
pub struct TmrSegaHeader {
    /// `TMR SEGA`.
    pub magic: [u8; 8],
    /// Padding.
    pub reserved: [u8; 2],
    /// The stored checksum.
    pub checksum: u16,
    /// Five binary-coded decimal digits.
    pub product_code: u32,
    /// Four bits.
    pub version: u8,
    /// Four bits.
    pub region: u8,
    /// Four bits.
    pub rom_size: u8,
}

/// Why a header cannot be read.
#[derive(Debug)]
#[allow(inconsistent_fields)]
pub enum HeaderError {
    /// The ROM ends before the header does.
    TooSmall {
        /// The least number of bytes.
        required: usize,
        /// The bytes there are.
        got: usize,
    },
    /// The header does not start with the magic.
    InvalidMagic {
        /// What stands there.
        got: [u8; 8],
    },
}

/// Bytes in base ten with a comma and a space between neighbours.
pub open spec fn dec_join(bytes: Seq<u8>) -> Seq<char>
    decreases bytes.len(),
{
    if bytes.len() == 0 {
        Seq::empty()
    } else if bytes.len() == 1 {
        dec(bytes[0] as int)
    } else {
        dec_join(bytes.drop_last()) + ", "@ + dec(bytes.last() as int)
    }
}

impl HeaderError {
    /// The message of an error.
    pub open spec fn text(self) -> Seq<char> {
        match self {
            HeaderError::TooSmall { required, got } => "ROM too small: need at least "@ + dec(
                required as int,
            ) + " bytes, got "@ + dec(got as int),
            HeaderError::InvalidMagic { got } => "invalid magic: expected 'TMR SEGA', got ["@
                + dec_join(got@) + "]"@,
        }
    }

    /// The message of an error.
    pub fn to_string(&self) -> (s: String)
        ensures
            s@ == self.text(),
    {
        match self {
            HeaderError::TooSmall { required, got } => text("ROM too small: need at least ").dec(
                *required,
            ).lit(" bytes, got ").dec(*got).finish(),
            HeaderError::InvalidMagic { got } => {
                let start = text("invalid magic: expected 'TMR SEGA', got [");
                push_dec_join(start, got).lit("]").finish()
            },
        }
    }
}

fn push_dec_join(start: Text, bytes: &[u8; 8]) -> (t: Text)
    ensures
        t@ == start@ + dec_join(bytes@),
{
    let ghost begin = start@;
    let mut t = start;
    let mut i: usize = 0;
    proof {
        assert(begin + dec_join(bytes@.take(0)) =~= begin);
    }
    while i < 8
        invariant
            i <= 8,
            t@ == begin + dec_join(bytes@.take(i as int)),
        decreases 8 - i,
    {
        let ghost upto = bytes@.take(i + 1);
        proof {
            assert(upto.drop_last() =~= bytes@.take(i as int));
        }
        if i > 0 {
            t = t.lit(", ");
        }
        t = t.dec(bytes[i] as usize);
        proof {
            assert(t@ =~= begin + dec_join(upto));
        }
        i += 1;
    }
    proof {
        assert(bytes@.take(8) =~= bytes@);
    }
    t
}

/// The sum of bytes.
pub open spec fn byte_sum(bytes: Seq<u8>) -> int
    decreases bytes.len(),
{
    if bytes.len() == 0 {
        0
    } else {
        byte_sum(bytes.drop_last()) + bytes.last()
    }
}

/// The checksum of a ROM: the sum of the bytes before the header, of which sixteen
/// bits are kept.
pub open spec fn checksum(rom: Seq<u8>) -> int {
    let end = if rom.len() < 0x7FF0 {
        rom.len() as int
    } else {
        0x7FF0
    };
    byte_sum(rom.take(end)) % 0x1_0000
}

/// The checksum field of a ROM.
pub open spec fn stored_checksum(rom: Seq<u8>) -> int {
    rom[0x7FFA] + 256 * rom[0x7FFB]
}

/// A ROM after its checksum field has been brought up to date.
pub open spec fn with_checksum(rom: Seq<u8>) -> Seq<u8> {
    rom.update(0x7FFA, (checksum(rom) % 256) as u8).update(0x7FFB, (checksum(rom) / 256) as u8)
}

impl TmrSegaHeader {
    /// Reads the header of a ROM.
    pub fn parse(rom: &[u8]) -> (res: Result<Self, HeaderError>)
        ensures
            match res {
                Ok(h) => {
                    &&& rom@.len() >= 0x8000
                    &&& rom@.subrange(0x7FF0, 0x7FF8) == HEADER_MAGIC@
                    &&& h.magic@ == HEADER_MAGIC@
                    &&& h.reserved@ == rom@.subrange(0x7FF8, 0x7FFA)
                    &&& h.checksum == stored_checksum(rom@)
                    &&& h.product_code == (rom@[0x7FFE] / 16) * 0x1_0000 + rom@[0x7FFD] * 0x100
                        + rom@[0x7FFC]
                    &&& h.version == rom@[0x7FFE] % 16
                    &&& h.region == rom@[0x7FFF] / 16
                    &&& h.rom_size == rom@[0x7FFF] % 16
                },
                Err(HeaderError::TooSmall { required, got }) => rom@.len() < 0x8000 && required
                    == 0x8000 && got == rom@.len(),
                Err(HeaderError::InvalidMagic { got }) => rom@.len() >= 0x8000 && got@
                    == rom@.subrange(0x7FF0, 0x7FF8) && got@ != HEADER_MAGIC@,
            },
    {
        let required: usize = HEADER_OFFSET + 16;
        if rom.len() < required {
            return Err(HeaderError::TooSmall { required, got: rom.len() });
        }
        let magic: [u8; 8] = [
            rom[0x7FF0],
            rom[0x7FF1],
            rom[0x7FF2],
            rom[0x7FF3],
            rom[0x7FF4],
            rom[0x7FF5],
            rom[0x7FF6],
            rom[0x7FF7],
        ];
        proof {
            assert(magic@ =~= rom@.subrange(0x7FF0, 0x7FF8));
        }
        let mut i: usize = 0;
        while i < 8
            invariant
                i <= 8,
                rom@.len() >= 0x8000,
                magic@ == rom@.subrange(0x7FF0, 0x7FF8),
                forall|j: int| 0 <= j < i ==> magic@[j] == HEADER_MAGIC@[j],
            decreases 8 - i,
        {
            if magic[i] != HEADER_MAGIC[i] {
                return Err(HeaderError::InvalidMagic { got: magic });
            }
            i += 1;
        }
        let reserved: [u8; 2] = [rom[0x7FF8], rom[0x7FF9]];
        let low: u8 = rom[0x7FFC];
        let mid: u8 = rom[0x7FFD];
        let top: u8 = rom[0x7FFE];
        let last: u8 = rom[0x7FFF];
        proof {
            assert(magic@ =~= HEADER_MAGIC@);
            assert(reserved@ =~= rom@.subrange(0x7FF8, 0x7FFA));
            lemma_nibbles(top);
            lemma_nibbles(last);
        }
        Ok(
            TmrSegaHeader {
                magic,
                reserved,
                checksum: rom[0x7FFA] as u16 + 256 * rom[0x7FFB] as u16,
                product_code: ((top & 0xF0) >> 4) as u32 * 0x1_0000 + mid as u32 * 0x100
                    + low as u32,
                version: top & 0x0F,
                region: (last & 0xF0) >> 4,
                rom_size: last & 0x0F,
            },
        )
    }

    /// The checksum of a ROM.
    pub fn compute_checksum(rom: &[u8]) -> (sum: u16)
        ensures
            sum == checksum(rom@),
    {
        let end: usize = if rom.len() < HEADER_OFFSET {
            rom.len()
        } else {
            HEADER_OFFSET
        };
        let mut sum: u32 = 0;
        let mut i: usize = 0;
        while i < end
            invariant
                i <= end,
                end <= rom@.len(),
                end <= 0x7FF0,
                sum == byte_sum(rom@.take(i as int)),
                sum <= 255 * i,
            decreases end - i,
        {
            proof {
                assert(rom@.take(i + 1).drop_last() =~= rom@.take(i as int));
            }
            sum += rom[i] as u32;
            i += 1;
        }
        (sum % 0x1_0000) as u16
    }

    /// Brings the checksum field of a ROM up to date.
    pub fn update_checksum(rom: &mut [u8])
        requires
            old(rom)@.len() > 0x7FFB,
        ensures
            final(rom)@ == with_checksum(old(rom)@),
    {
        let sum = Self::compute_checksum(rom);
        rom[HEADER_OFFSET + 10] = (sum % 256) as u8;
        rom[HEADER_OFFSET + 11] = (sum / 256) as u8;
    }
}

/// After an update the checksum field holds the checksum, both of the ROM before
/// and of the ROM after; only the two bytes of the field have changed.
pub proof fn law_checksum_round_trip(rom: Seq<u8>)
    requires
        rom.len() > 0x7FFB,
    ensures
        stored_checksum(with_checksum(rom)) == checksum(rom),
        checksum(with_checksum(rom)) == checksum(rom),
        with_checksum(rom).len() == rom.len(),
        forall|i: int|
            0 <= i < rom.len() && i != 0x7FFA && i != 0x7FFB ==> with_checksum(rom)[i] == rom[i],
{
    let end: int = if rom.len() < 0x7FF0 {
        rom.len() as int
    } else {
        0x7FF0
    };
    assert(with_checksum(rom).take(end) =~= rom.take(end));
}

} // verus!
