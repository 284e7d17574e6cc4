//! The Sega bank mapper of the Game Gear and the Master System.
use vstd::prelude::*;
use std::ops::Range;

verus! {

/// Mapper control register.
pub const MAPPER_CTRL: u16 = 0xFFFC;

/// Bank register of slot 0.
pub const SLOT0_BANK: u16 = 0xFFFD;

/// Bank register of slot 1.
pub const SLOT1_BANK: u16 = 0xFFFE;

/// Bank register of slot 2.
pub const SLOT2_BANK: u16 = 0xFFFF;

/// The size of a bank: 16 KiB.
pub const BANK_SIZE: usize = 0x4000;

/// Address translation of the mapper.
pub struct SegaMapper;

/// Where a logical address lies in the ROM. Slot 0 always shows bank 0, slots 1
/// and 2 show the given banks; addresses from `$C000` on are RAM and are kept.
pub open spec fn physical(addr: int, slot1_bank: int, slot2_bank: int) -> int {
    if 0x4000 <= addr < 0x8000 {
        slot1_bank * 0x4000 + (addr - 0x4000)
    } else if 0x8000 <= addr < 0xC000 {
        slot2_bank * 0x4000 + (addr - 0x8000)
    } else {
        addr
    }
}

impl SegaMapper {
    /// Logical address and slot banks to ROM offset.
    pub fn logical_to_physical(addr: u16, slot1_bank: u8, slot2_bank: u8) -> (offset: usize)
        ensures
            offset == physical(addr as int, slot1_bank as int, slot2_bank as int),
    {
        let addr: usize = addr as usize;
        if addr < 0x4000 {
            addr
        } else if addr < 0x8000 {
            slot1_bank as usize * BANK_SIZE + (addr - 0x4000)
        } else if addr < 0xC000 {
            slot2_bank as usize * BANK_SIZE + (addr - 0x8000)
        } else {
            addr
        }
    }

    /// ROM offset to bank number, of which the low eight bits are kept, and offset
    /// within the bank.
    pub fn physical_to_bank(offset: usize) -> (at: (u8, u16))
        ensures
            at.0 as int == (offset as int / 0x4000) % 256,
            at.1 as int == offset as int % 0x4000,
    {
        (((offset / BANK_SIZE) % 256) as u8, (offset % BANK_SIZE) as u16)
    }

    /// The ROM offsets of a bank.
    pub fn bank_range(bank: u8) -> (range: Range<usize>)
        ensures
            range.start == bank * 0x4000,
            range.end == bank * 0x4000 + 0x4000,
    {
        let start: usize = bank as usize * BANK_SIZE;
        start..start + BANK_SIZE
    }
}

/// A ROM offset below 4 MiB is found again through slot 1 and through slot 2 once
/// its bank is selected there.
pub proof fn law_bank_round_trip(offset: int)
    requires
        0 <= offset < 0x40_0000,
    ensures
        physical(0x4000 + offset % 0x4000, offset / 0x4000, 0) == offset,
        physical(0x8000 + offset % 0x4000, 0, offset / 0x4000) == offset,
{
}

/// What a slot shows lies in the bank that is selected for it.
pub proof fn law_slots_show_their_bank(addr: int, slot1_bank: int, slot2_bank: int)
    requires
        0 <= addr < 0xC000,
        0 <= slot1_bank < 256,
        0 <= slot2_bank < 256,
    ensures
        physical(addr, slot1_bank, slot2_bank) % 0x4000 == addr % 0x4000,
        physical(addr, slot1_bank, slot2_bank) / 0x4000 == if addr < 0x4000 {
            0
        } else if addr < 0x8000 {
            slot1_bank
        } else {
            slot2_bank
        },
{
}

} // verus!
