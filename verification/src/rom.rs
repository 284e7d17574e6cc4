//! Building the patched ROM.
use vstd::prelude::*;
use crate::bytes::le16;
use crate::digest::{crc32, crc32_of, lower_hex, md5_hex, md5_of};
use crate::error::{plain, Fault, PatchError};
use crate::glyph::{
    GLYPH_RENDER_HOOK_ORIG, GLYPH_RENDER_HOOK_SITE, HOOK_CALL_SITE, KO_HANDLER_PHYS,
    MONEY_GLYPH_KO_GEUM, MONEY_KANJI_GLYPH_ADDR, MONEY_KANJI_JP,
};
use crate::header::{checksum, HEADER_MAGIC};
use crate::parse::same_str;
use crate::patching::{progress, write_checked, write_free, Progress};
use crate::pointers::{
    cutscene_pointer_at, cutscene_pointer_for_physical, cutscene_pointer_offset, pointer_to,
    region_addressable, region_pointer_at, region_pointer_for_physical, region_pointer_offset,
    region_pointer_to,
};
use crate::script::{bytes_of, fault_outcome, raw_entry_bytes, EntryView, ScriptEntry};
use crate::text::{hex, text};
use crate::tracked_rom::{same_bytes, TrackedRom};
use crate::translation::{EncodedOverride, EncodedView, SourceView, TranslationSource};

verus! {

/// Checksum of the cartridge that the offsets here belong to.
pub const JP_CRC32: u32 = 0x7EC9_5282;

/// Digest of that cartridge.
pub const JP_MD5: &'static str = "ab0d1eb20ac63a984d874a885ca2588d";

/// Size of that cartridge.
pub const JP_SIZE: usize = 0x8_0000;

/// Size of the expanded ROM.
pub const EXPANDED_ROM_SIZE: usize = 0x10_0000;

/// The byte of the header that holds region and size.
pub const ROM_SIZE_CODE_OFFSET: usize = 0x7FFF;

/// A line of the introduction, for trials.
pub const POC2_SCRIPT_EDIT: usize = 0x1A694;

/// Another line of the introduction, for trials.
pub const POC3_SCRIPT_EDIT: usize = 0x1A697;

/// The bank of region 0 in the expanded ROM; the other regions follow.
pub const REGION_REPACK_BASE: u8 = 33;

// ---------------------------------------------------------------------------
// The source
// ---------------------------------------------------------------------------

/// Data padded with `0xFF` to the size of the expanded ROM.
pub open spec fn expanded(data: Seq<u8>) -> Seq<u8> {
    if data.len() < 0x10_0000 {
        data + Seq::new((0x10_0000 - data.len()) as nat, |i: int| 0xFFu8)
    } else {
        data
    }
}

/// Pads data with `0xFF` to the size of the expanded ROM.
pub fn expand_rom_for_ko(data: &mut Vec<u8>)
    ensures
        final(data)@ == expanded(old(data)@),
{
    let ghost start = data@;
    while data.len() < EXPANDED_ROM_SIZE
        invariant
            start.len() <= data@.len(),
            data@.len() <= 0x10_0000 || data@ == start,
            data@ =~= start + Seq::new((data@.len() - start.len()) as nat, |i: int| 0xFFu8),
        decreases 0x10_0000 - data@.len(),
    {
        data.push(0xFF);
    }
    proof {
        assert(data@ =~= expanded(start));
    }
}

/// The image that a build starts from: expanded where glyphs are added.
pub fn expanded_source(data: Vec<u8>, has_glyphs: bool) -> (r: Vec<u8>)
    ensures
        r@ == if has_glyphs {
            expanded(data@)
        } else {
            data@
        },
{
    let mut data = data;
    if has_glyphs {
        expand_rom_for_ko(&mut data);
    }
    data
}

/// Whether a checksum is accepted, and what is said where it is not.
pub open spec fn crc_fault(crc: u32, allow_noncanonical: bool) -> Option<Fault> {
    if crc == JP_CRC32 || allow_noncanonical {
        None
    } else {
        Some(
            plain(
                "입력 CRC32 "@ + hex(crc as int, 8)
                    + "가 JP 원본(7EC95282)과 다름. JP 원본으로 빌드하거나 --allow-noncanonical-source를 명시하라"@,
            ),
        )
    }
}

/// Refuses every source but the known cartridge, unless others are allowed.
pub fn require_canonical_crc(crc: u32, allow_noncanonical: bool) -> (res: Result<(), PatchError>)
    ensures
        fault_outcome(res) == crc_fault(crc, allow_noncanonical),
{
    if crc == JP_CRC32 || allow_noncanonical {
        return Ok(());
    }
    Err(
        text("입력 CRC32 ").hex(crc as usize, 8).lit(
            "가 JP 원본(7EC95282)과 다름. JP 원본으로 빌드하거나 --allow-noncanonical-source를 명시하라",
        ).fail(),
    )
}

/// Refuses a source that is not the known cartridge, unless others are allowed.
pub fn require_canonical_source(data: &[u8], allow_noncanonical: bool) -> (res: Result<
    (),
    PatchError,
>)
    ensures
        fault_outcome(res) == crc_fault(crc32_of(data@), allow_noncanonical),
{
    require_canonical_crc(crc32(data), allow_noncanonical)
}

/// What the header of a ROM says.
#[derive(Debug)]
pub struct HeaderInfo {
    /// The eight bytes where the magic should be.
    pub magic: [u8; 8],
    /// Whether they are the magic.
    pub magic_ok: bool,
    /// The checksum field.
    pub checksum: u16,
    /// The region.
    pub region: u8,
    /// The size code.
    pub size_code: u8,
}

/// What there is to know about a ROM.
#[derive(Debug)]
pub struct RomInfo {
    /// Its size.
    pub size: usize,
    /// Its checksum.
    pub crc32: u32,
    /// Its digest.
    pub md5: String,
    /// Whether it is the known cartridge.
    pub jp_match: bool,
    /// Its header, where it is long enough to have one.
    pub header: Option<HeaderInfo>,
}

impl HeaderInfo {
    /// Whether this is the header of a ROM.
    pub open spec fn describes(self, rom: Seq<u8>) -> bool {
        &&& self.magic@ == rom.subrange(0x7FF0, 0x7FF8)
        &&& self.magic_ok == (self.magic@ == HEADER_MAGIC@)
        &&& self.checksum == crate::header::stored_checksum(rom)
        &&& self.region == rom[0x7FFF] / 16
        &&& self.size_code == rom[0x7FFF] % 16
    }
}

/// What there is to know about a ROM, given its checksum and its digest.
pub fn describe_rom(data: &[u8], crc: u32, md5: String) -> (info: RomInfo)
    ensures
        info.size == data@.len(),
        info.crc32 == crc,
        info.md5 == md5,
        info.jp_match == (crc == JP_CRC32 && md5@ == JP_MD5@),
        match info.header {
            Some(h) => data@.len() >= 0x8000 && h.describes(data@),
            None => data@.len() < 0x8000,
        },
{
    let jp_match: bool = crc == JP_CRC32 && same_str(md5.as_str(), JP_MD5);
    let header: Option<HeaderInfo> = if data.len() >= 0x8000 {
        let magic: [u8; 8] = [
            data[0x7FF0],
            data[0x7FF1],
            data[0x7FF2],
            data[0x7FF3],
            data[0x7FF4],
            data[0x7FF5],
            data[0x7FF6],
            data[0x7FF7],
        ];
        proof {
            assert(magic@ =~= data@.subrange(0x7FF0, 0x7FF8));
        }
        let magic_ok: bool = same_bytes(magic.as_slice(), HEADER_MAGIC.as_slice());
        Some(
            HeaderInfo {
                magic,
                magic_ok,
                checksum: data[0x7FFA] as u16 + 256 * data[0x7FFB] as u16,
                region: data[0x7FFF] / 16,
                size_code: data[0x7FFF] % 16,
            },
        )
    } else {
        None
    };
    RomInfo { size: data.len(), crc32: crc, md5, jp_match, header }
}

/// What there is to know about a ROM.
pub fn rom_info(data: &[u8]) -> (info: RomInfo)
    ensures
        info.size == data@.len(),
        info.crc32 == crc32_of(data@),
        info.md5@ == lower_hex(md5_of(data@), 16),
        info.jp_match == (crc32_of(data@) == JP_CRC32 && lower_hex(md5_of(data@), 16) == JP_MD5@),
        match info.header {
            Some(h) => data@.len() >= 0x8000 && h.describes(data@),
            None => data@.len() < 0x8000,
        },
{
    describe_rom(data, crc32(data), md5_hex(data))
}

// ---------------------------------------------------------------------------
// Hooks
// ---------------------------------------------------------------------------

/// How many bytes the handler of Korean glyphs may have: up to the relocated cutscene
/// text.
pub const HANDLER_ROOM: usize = 0x100;

/// A chain of writes after the call in the text loop has been led to a handler.
pub open spec fn call_hooked(p: Progress, handler: Seq<u8>, call: Seq<u8>) -> Progress {
    p.free("poc ko handler"@, 0x1B726, handler).checked(
        "poc hook call-site"@,
        0x199F1,
        seq![0xCDu8, 0x3Eu8, 0x9Au8],
        call,
    )
}

/// A chain of writes after the glyph renderer has been led to a handler.
pub open spec fn renderer_hooked(p: Progress, handler: Seq<u8>, jump: Seq<u8>) -> Progress {
    p.free("ko glyph hook handler"@, 0x1B726, handler).checked(
        "ko glyph render hook"@,
        0x19A3E,
        GLYPH_RENDER_HOOK_ORIG@,
        jump,
    )
}

/// Leads the call in the text loop to a handler.
pub fn install_ko_hook(rom: &mut TrackedRom, handler: &[u8], call: &[u8; 3]) -> (res: Result<
    (),
    PatchError,
>)
    requires
        old(rom)@.wf(),
        handler@.len() <= 0x100,
    ensures
        progress(final(rom)@, res) == call_hooked(
            Progress::begin(old(rom)@),
            handler@,
            call@,
        ),
        final(rom)@.wf(),
{
    match write_free(rom, "poc ko handler", KO_HANDLER_PHYS, handler) {
        Ok(_) => {},
        Err(e) => {
            return Err(e);
        },
    }
    let known: [u8; 3] = [0xCD, 0x3E, 0x9A];
    proof {
        assert(known@ =~= seq![0xCDu8, 0x3Eu8, 0x9Au8]);
    }
    write_checked(
        rom,
        "poc hook call-site",
        HOOK_CALL_SITE,
        known.as_slice(),
        call.as_slice(),
    )
}

/// Leads the glyph renderer to a handler.
pub fn install_ko_prefix2_hook(rom: &mut TrackedRom, handler: &[u8], jump: &[u8; 3]) -> (res: Result<
    (),
    PatchError,
>)
    requires
        old(rom)@.wf(),
        handler@.len() <= 0x100,
    ensures
        progress(final(rom)@, res) == renderer_hooked(
            Progress::begin(old(rom)@),
            handler@,
            jump@,
        ),
        final(rom)@.wf(),
{
    match write_free(rom, "ko glyph hook handler", KO_HANDLER_PHYS, handler) {
        Ok(_) => {},
        Err(e) => {
            return Err(e);
        },
    }
    write_checked(
        rom,
        "ko glyph render hook",
        GLYPH_RENDER_HOOK_SITE,
        GLYPH_RENDER_HOOK_ORIG.as_slice(),
        jump.as_slice(),
    )
}

/// A chain of writes after the header has been given the size code of the expanded
/// ROM; the region is kept.
pub open spec fn size_marked(p: Progress, original: Seq<u8>) -> Progress {
    let b = original[0x7FFF];
    p.checked(
        "rom size code 1MB"@,
        0x7FFF,
        seq![b],
        seq![(b as int / 16 * 16 + 2) as u8],
    )
}

/// Gives the header the size code of the expanded ROM.
pub fn mark_rom_size_1mb(rom: &mut TrackedRom, original: &[u8]) -> (res: Result<(), PatchError>)
    requires
        old(rom)@.wf(),
        original@.len() > 0x7FFF,
    ensures
        progress(final(rom)@, res) == size_marked(Progress::begin(old(rom)@), original@),
        final(rom)@.wf(),
{
    let b: u8 = original[ROM_SIZE_CODE_OFFSET];
    let known: [u8; 1] = [b];
    let new: [u8; 1] = [b / 16 * 16 + 2];
    proof {
        assert(known@ =~= seq![b]);
        assert(new@ =~= seq![(b as int / 16 * 16 + 2) as u8]);
    }
    write_checked(
        rom,
        "rom size code 1MB",
        ROM_SIZE_CODE_OFFSET,
        known.as_slice(),
        new.as_slice(),
    )
}

/// A chain of writes after the currency sign has been replaced.
pub open spec fn money_patched(p: Progress) -> Progress {
    p.checked(
        "money kanji 金 → hangul 금"@,
        0x19B55,
        MONEY_KANJI_JP@,
        MONEY_GLYPH_KO_GEUM@,
    )
}

/// Replaces the glyph of the currency sign.
pub fn patch_money_glyph(rom: &mut TrackedRom) -> (res: Result<(), PatchError>)
    requires
        old(rom)@.wf(),
    ensures
        progress(final(rom)@, res) == money_patched(Progress::begin(old(rom)@)),
        final(rom)@.wf(),
{
    write_checked(
        rom,
        "money kanji 金 → hangul 금",
        MONEY_KANJI_GLYPH_ADDR,
        MONEY_KANJI_JP.as_slice(),
        MONEY_GLYPH_KO_GEUM.as_slice(),
    )
}

// ---------------------------------------------------------------------------
// Sources of translations
// ---------------------------------------------------------------------------

/// What is wrong with the source of a translated script in view of the script that it
/// replaces, which has a given checksum, if anything: it must be those bytes.
pub open spec fn drift_from(
    id: Seq<char>,
    actual: Seq<u8>,
    sum: u32,
    source: SourceView,
) -> Option<Fault> {
    if actual != source.bytes {
        Some(plain(id + ": translation source bytes do not match current ROM extract"@))
    } else {
        match source.crc32 {
            Some(expected) if sum != expected => Some(
                plain(
                    id + ": translation source CRC32 mismatch: metadata "@ + hex(expected as int, 8)
                        + " vs ROM "@ + hex(sum as int, 8),
                ),
            ),
            _ => None,
        }
    }
}

/// What is wrong with a translated script in view of the script that it replaces, if
/// anything: it must have been made from those bytes.
pub open spec fn source_drift(entry: EntryView, encoded: EncodedView) -> Option<Fault> {
    match encoded.source {
        None => None,
        Some(source) => match bytes_of(entry) {
            Err(e) => Some(e),
            Ok(actual) => drift_from(entry.id, actual, crc32_of(actual), source),
        },
    }
}

/// Checks the source of a translated script against the bytes of a script, which have a
/// given checksum.
pub fn compare_source(id: &str, actual: &[u8], sum: u32, source: &TranslationSource) -> (res: Result<
    (),
    PatchError,
>)
    ensures
        fault_outcome(res) == drift_from(id@, actual@, sum, source@),
{
    if !same_bytes(actual, source.bytes.as_slice()) {
        return Err(
            text(id).lit(": translation source bytes do not match current ROM extract").fail(),
        );
    }
    match source.crc32 {
        Some(expected) => if sum != expected {
            Err(
                text(id).lit(": translation source CRC32 mismatch: metadata ").hex(
                    expected as usize,
                    8,
                ).lit(" vs ROM ").hex(sum as usize, 8).fail(),
            )
        } else {
            Ok(())
        },
        None => Ok(()),
    }
}

/// Checks a translated script against the script that it replaces.
pub fn validate_translation_source(entry: &ScriptEntry, encoded: &EncodedOverride) -> (res: Result<
    (),
    PatchError,
>)
    ensures
        fault_outcome(res) == source_drift(entry@, encoded@),
{
    match &encoded.source {
        None => Ok(()),
        Some(source) => {
            let actual = match raw_entry_bytes(entry) {
                Ok(bytes) => bytes,
                Err(e) => {
                    return Err(e);
                },
            };
            compare_source(
                entry.id.as_str(),
                actual.as_slice(),
                crc32(actual.as_slice()),
                source,
            )
        },
    }
}

// ---------------------------------------------------------------------------
// Single relocations
// ---------------------------------------------------------------------------

/// A chain of writes after a cutscene script has been put at `dst` and its pointer has
/// been led there.
pub open spec fn cutscene_relocated(p: Progress, entry: EntryView, bytes: Seq<u8>, dst: int) -> Progress {
    if p.fault is Some {
        p
    } else {
        match pointer_to(0x18000, dst, 0x8000) {
            Err(e) => p.fail(e),
            Ok(ptr) => {
                let q = p.free("cutscene relocation data "@ + entry.id, dst, bytes);
                if q.fault is Some {
                    q
                } else {
                    match (cutscene_pointer_at(entry.index), pointer_to(
                        0x18000,
                        entry.offset,
                        0x8000,
                    )) {
                        (Err(e), _) => q.fail(e),
                        (Ok(_), Err(e)) => q.fail(e),
                        (Ok(at), Ok(old_ptr)) => q.checked(
                            "cutscene relocation pointer "@ + entry.id,
                            at,
                            le16(old_ptr),
                            le16(ptr),
                        ),
                    }
                }
            },
        }
    }
}

/// A chain of writes after a region script has been put at `dst` and its pointer has
/// been led there.
pub open spec fn region_relocated(p: Progress, entry: EntryView, bytes: Seq<u8>, dst: int) -> Progress {
    if p.fault is Some {
        p
    } else {
        match entry.region {
            None => p.fail(plain(entry.id + " missing region number"@)),
            Some(region) => match region_pointer_to(p.rom.data, region, dst) {
                Err(e) => p.fail(e),
                Ok(ptr) => {
                    let q = p.free("region relocation data "@ + entry.id, dst, bytes);
                    if q.fault is Some {
                        q
                    } else {
                        match (
                            region_pointer_at(q.rom.data, region, entry.index),
                            region_pointer_to(q.rom.data, region, entry.offset),
                        ) {
                            (Err(e), _) => q.fail(e),
                            (Ok(_), Err(e)) => q.fail(e),
                            (Ok(at), Ok(old_ptr)) => q.checked(
                                "region relocation pointer "@ + entry.id,
                                at,
                                le16(old_ptr),
                                le16(ptr),
                            ),
                        }
                    }
                },
            },
        }
    }
}

fn word_bytes(v: u16) -> (b: [u8; 2])
    ensures
        b@ == le16(v as int),
{
    let b: [u8; 2] = [(v % 256) as u8, (v / 256) as u8];
    proof {
        assert(b@ =~= le16(v as int));
    }
    b
}

/// Puts a cutscene script at the cursor, leads its pointer there and moves the cursor
/// behind it.
pub fn relocate_cutscene_entry(
    rom: &mut TrackedRom,
    entry: &ScriptEntry,
    bytes: &[u8],
    cursor: &mut usize,
) -> (res: Result<(), PatchError>)
    requires
        old(rom)@.wf(),
        *old(cursor) + bytes@.len() <= usize::MAX,
    ensures
        progress(final(rom)@, res) == cutscene_relocated(
            Progress::begin(old(rom)@),
            entry@,
            bytes@,
            *old(cursor) as int,
        ),
        final(rom)@.wf(),
        *final(cursor) == if res is Ok {
            *old(cursor) + bytes@.len()
        } else {
            *old(cursor) as int
        },
{
    let dst: usize = *cursor;
    let ptr: u16 = match cutscene_pointer_for_physical(dst) {
        Ok(ptr) => ptr,
        Err(e) => {
            return Err(e);
        },
    };
    let label = text("cutscene relocation data ").lit(entry.id.as_str()).finish();
    match write_free(rom, label.as_str(), dst, bytes) {
        Ok(_) => {},
        Err(e) => {
            return Err(e);
        },
    }
    let at: usize = match cutscene_pointer_offset(entry.index) {
        Ok(at) => at,
        Err(e) => {
            return Err(e);
        },
    };
    let old_ptr: u16 = match cutscene_pointer_for_physical(entry.offset) {
        Ok(ptr) => ptr,
        Err(e) => {
            return Err(e);
        },
    };
    let label = text("cutscene relocation pointer ").lit(entry.id.as_str()).finish();
    let known = word_bytes(old_ptr);
    let new = word_bytes(ptr);
    match write_checked(rom, label.as_str(), at, known.as_slice(), new.as_slice()) {
        Ok(_) => {},
        Err(e) => {
            return Err(e);
        },
    }
    *cursor = dst + bytes.len();
    Ok(())
}

/// Puts a region script at the cursor, leads its pointer there and moves the cursor
/// behind it.
pub fn relocate_region_entry(
    rom: &mut TrackedRom,
    entry: &ScriptEntry,
    bytes: &[u8],
    cursor: &mut usize,
) -> (res: Result<(), PatchError>)
    requires
        old(rom)@.wf(),
        *old(cursor) + bytes@.len() <= usize::MAX,
        entry.region matches Some(region) ==> region_addressable(region as int),
    ensures
        progress(final(rom)@, res) == region_relocated(
            Progress::begin(old(rom)@),
            entry@,
            bytes@,
            *old(cursor) as int,
        ),
        final(rom)@.wf(),
        *final(cursor) == if res is Ok {
            *old(cursor) + bytes@.len()
        } else {
            *old(cursor) as int
        },
{
    let region: usize = match entry.region {
        Some(region) => region,
        None => {
            return Err(text(entry.id.as_str()).lit(" missing region number").fail());
        },
    };
    let dst: usize = *cursor;
    let ptr: u16 = match region_pointer_for_physical(rom.data(), region, dst) {
        Ok(ptr) => ptr,
        Err(e) => {
            return Err(e);
        },
    };
    let label = text("region relocation data ").lit(entry.id.as_str()).finish();
    match write_free(rom, label.as_str(), dst, bytes) {
        Ok(_) => {},
        Err(e) => {
            return Err(e);
        },
    }
    let at: usize = match region_pointer_offset(rom.data(), region, entry.index) {
        Ok(at) => at,
        Err(e) => {
            return Err(e);
        },
    };
    let old_ptr: u16 = match region_pointer_for_physical(rom.data(), region, entry.offset) {
        Ok(ptr) => ptr,
        Err(e) => {
            return Err(e);
        },
    };
    let label = text("region relocation pointer ").lit(entry.id.as_str()).finish();
    let known = word_bytes(old_ptr);
    let new = word_bytes(ptr);
    match write_checked(rom, label.as_str(), at, known.as_slice(), new.as_slice()) {
        Ok(_) => {},
        Err(e) => {
            return Err(e);
        },
    }
    *cursor = dst + bytes.len();
    Ok(())
}

} // verus!
