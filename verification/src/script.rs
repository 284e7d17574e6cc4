//! Script entries: reading them out of the ROM and checking extracted files.
use vstd::prelude::*;
use vstd::slice::slice_subrange;
use crate::bytes::to_vec;
use crate::digest::{crc32, crc32_of, lower_hex, md5_hex, md5_of};
use crate::error::{outcome, plain, Fault, PatchError};
use crate::hexbytes::{hex_bytes, hex_text, hex_text_bytes, law_hex_round_trip, parse_hex_bytes};
use crate::jp_text::{decode_preview, preview};
use crate::parse::same_str;
use crate::pointers::{
    pointer_target, read_u16_le, region_bank, region_bank_base, region_string_count, region_table,
    region_table_addr, script_count, slot_pointer_to_physical, word, CUTSCENE_COUNT,
    CUTSCENE_POINTER_TABLE, REGION_COUNT, SLOT1_BASE, SLOT2_BASE,
};
use crate::text::{dec, dec_pad, hex, text};
use crate::tracked_rom::same_bytes;

verus! {

/// Where the shop scripts start.
pub const SHOP_START: usize = 0x25BB7;

/// How many shop scripts there are.
pub const SHOP_COUNT: usize = 12;

/// What a script belongs to.
#[derive(Debug, Clone, Copy, PartialEq, Eq, Structural)]
pub enum ScriptKind {
    /// A region.
    Region,
    /// The cutscenes.
    Cutscene,
    /// The shop.
    Shop,
}

impl ScriptKind {
    /// The name of a kind.
    pub open spec fn name_spec(self) -> Seq<char> {
        match self {
            ScriptKind::Region => "Region"@,
            ScriptKind::Cutscene => "Cutscene"@,
            ScriptKind::Shop => "Shop"@,
        }
    }

    /// The name of a kind.
    pub fn name(self) -> (s: &'static str)
        ensures
            s@ == self.name_spec(),
    {
        match self {
            ScriptKind::Region => "Region",
            ScriptKind::Cutscene => "Cutscene",
            ScriptKind::Shop => "Shop",
        }
    }
}

/// A script with where it stands and what it holds.
#[derive(Debug, Clone)]
pub struct ScriptEntry {
    /// Unique name.
    pub id: String,
    /// What the script belongs to.
    pub kind: ScriptKind,
    /// The region, for region scripts.
    pub region: Option<usize>,
    /// Number within its kind or region.
    pub index: usize,
    /// The slot through which the game reads it.
    pub slot: u8,
    /// ROM offset.
    pub offset: usize,
    /// Length in bytes.
    pub len: usize,
    /// The bytes as hexadecimal words.
    pub bytes_hex: String,
    /// Checksum of the bytes, empty where there are none.
    pub source_crc32: String,
    /// The bytes in readable form.
    pub jp_preview: String,
    /// The translation.
    pub ko: String,
    /// Whether the entry is left alone.
    pub skip: bool,
}

/// The model of a script entry.
#[verifier::ext_equal]
pub struct EntryView {
    /// Unique name.
    pub id: Seq<char>,
    /// What the script belongs to.
    pub kind: ScriptKind,
    /// The region, for region scripts.
    pub region: Option<int>,
    /// Number within its kind or region.
    pub index: int,
    /// The slot through which the game reads it.
    pub slot: int,
    /// ROM offset.
    pub offset: int,
    /// Length in bytes.
    pub len: int,
    /// The bytes as hexadecimal words.
    pub bytes_hex: Seq<char>,
    /// Checksum of the bytes.
    pub source_crc32: Seq<char>,
    /// The bytes in readable form.
    pub jp_preview: Seq<char>,
    /// The translation.
    pub ko: Seq<char>,
    /// Whether the entry is left alone.
    pub skip: bool,
}

/// A number that may be absent, as a model.
pub open spec fn opt_int(n: Option<usize>) -> Option<int> {
    match n {
        Some(v) => Some(v as int),
        None => None,
    }
}

impl View for ScriptEntry {
    type V = EntryView;

    open spec fn view(&self) -> EntryView {
        EntryView {
            id: self.id@,
            kind: self.kind,
            region: opt_int(self.region),
            index: self.index as int,
            slot: self.slot as int,
            offset: self.offset as int,
            len: self.len as int,
            bytes_hex: self.bytes_hex@,
            source_crc32: self.source_crc32@,
            jp_preview: self.jp_preview@,
            ko: self.ko@,
            skip: self.skip,
        }
    }
}

/// The models of entries.
pub open spec fn entry_views(list: Seq<ScriptEntry>) -> Seq<EntryView> {
    Seq::new(list.len(), |i: int| list[i]@)
}

/// The models of entries that are referred to.
pub open spec fn entry_ref_views(list: Seq<&ScriptEntry>) -> Seq<EntryView> {
    Seq::new(list.len(), |i: int| list[i]@)
}

/// A result that holds entries, in terms of models.
pub open spec fn entries_outcome(result: Result<Vec<ScriptEntry>, PatchError>) -> Result<
    Seq<EntryView>,
    Fault,
> {
    match result {
        Ok(list) => Ok(entry_views(list@)),
        Err(e) => Err(e@),
    }
}

// ---------------------------------------------------------------------------
// Reading one script
// ---------------------------------------------------------------------------

/// Why a script that starts at a given offset cannot be read.
pub enum ScriptFault {
    /// The operand of the flags code at this offset is cut off.
    CutFlags(int),
    /// There is no end code.
    NoEnd,
}

/// Where the script that goes on at `pos` ends. The byte after the flags code
/// `0xFE` is its operand, whatever its value; otherwise `0x00` is the end code.
pub open spec fn script_end(rom: Seq<u8>, pos: int) -> Result<int, ScriptFault>
    decreases rom.len() - pos,
{
    if pos < 0 || pos >= rom.len() {
        Err(ScriptFault::NoEnd)
    } else if rom[pos] == 0xFE {
        if pos + 1 >= rom.len() {
            Err(ScriptFault::CutFlags(pos))
        } else {
            script_end(rom, pos + 2)
        }
    } else if rom[pos] == 0x00 {
        Ok(pos + 1)
    } else {
        script_end(rom, pos + 1)
    }
}

/// The script at `offset`, its end code included.
pub open spec fn script_at(rom: Seq<u8>, offset: int) -> Result<Seq<u8>, Fault> {
    if offset >= rom.len() {
        Err(plain("script offset out of ROM: 0x"@ + hex(offset, 5)))
    } else {
        match script_end(rom, offset) {
            Ok(end) => Ok(rom.subrange(offset, end)),
            Err(ScriptFault::CutFlags(at)) => Err(plain("flags op at EOF: 0x"@ + hex(at, 5))),
            Err(ScriptFault::NoEnd) => Err(plain("unterminated script at 0x"@ + hex(offset, 5))),
        }
    }
}

pub proof fn lemma_script_end(rom: Seq<u8>, pos: int)
    requires
        0 <= pos,
    ensures
        script_end(rom, pos) matches Ok(end) ==> pos < end <= rom.len() && rom[end - 1] == 0,
    decreases rom.len() - pos,
{
    if pos < rom.len() {
        if rom[pos] == 0xFE {
            if pos + 1 < rom.len() {
                lemma_script_end(rom, pos + 2);
            }
        } else if rom[pos] != 0x00 {
            lemma_script_end(rom, pos + 1);
        }
    }
}

/// Reads the script at `offset`, its end code included.
pub fn read_script_bytes(rom: &[u8], offset: usize) -> (res: Result<Vec<u8>, PatchError>)
    ensures
        outcome(res) == script_at(rom@, offset as int),
        res matches Ok(bytes) ==> 0 < bytes@.len() && offset + bytes@.len() <= rom@.len(),
{
    if offset >= rom.len() {
        return Err(text("script offset out of ROM: 0x").hex(offset, 5).fail());
    }
    let mut pos: usize = offset;
    while pos < rom.len()
        invariant
            offset <= pos <= rom@.len(),
            offset < rom@.len(),
            script_end(rom@, offset as int) == script_end(rom@, pos as int),
        decreases rom@.len() - pos,
    {
        let b: u8 = rom[pos];
        if b == 0xFE {
            if pos == rom.len() - 1 {
                return Err(text("flags op at EOF: 0x").hex(pos, 5).fail());
            }
            pos += 2;
        } else if b == 0x00 {
            return Ok(to_vec(slice_subrange(rom, offset, pos + 1)));
        } else {
            pos += 1;
        }
    }
    Err(text("unterminated script at 0x").hex(offset, 5).fail())
}

/// A script that was read ends with the end code.
pub proof fn law_script_ends_with_end_code(rom: Seq<u8>, offset: int)
    requires
        0 <= offset,
        script_at(rom, offset) is Ok,
    ensures
        script_at(rom, offset)->Ok_0.len() > 0,
        script_at(rom, offset)->Ok_0.last() == 0x00,
{
    lemma_script_end(rom, offset);
}

/// Reading depends on nothing behind the end code: a script that stands anywhere
/// else is read there as the same bytes.
pub proof fn law_script_position_independent(rom: Seq<u8>, offset: int, other: Seq<u8>, at: int)
    requires
        0 <= offset,
        0 <= at,
        script_at(rom, offset) is Ok,
        at + script_at(rom, offset)->Ok_0.len() <= other.len(),
        other.subrange(at, at + script_at(rom, offset)->Ok_0.len()) == script_at(rom, offset)->Ok_0,
    ensures
        script_at(other, at) == script_at(rom, offset),
{
    let script = script_at(rom, offset)->Ok_0;
    lemma_script_end(rom, offset);
    lemma_script_moved(rom, offset, other, at, script.len() as int, 0);
}

proof fn lemma_script_moved(
    rom: Seq<u8>,
    offset: int,
    other: Seq<u8>,
    at: int,
    len: int,
    k: int,
)
    requires
        0 <= offset,
        0 <= at,
        0 <= k <= len,
        offset + len <= rom.len(),
        at + len <= other.len(),
        rom.subrange(offset, offset + len) == other.subrange(at, at + len),
        script_end(rom, offset + k) == Ok::<int, ScriptFault>(offset + len),
    ensures
        script_end(other, at + k) == Ok::<int, ScriptFault>(at + len),
    decreases len - k,
{
    lemma_script_end(rom, offset + k);
    assert(rom.subrange(offset, offset + len)[k] == rom[offset + k]);
    assert(other.subrange(at, at + len)[k] == other[at + k]);
    if rom[offset + k] == 0xFE {
        lemma_script_end(rom, offset + k + 2);
        lemma_script_moved(rom, offset, other, at, len, k + 2);
    } else if rom[offset + k] != 0x00 {
        lemma_script_end(rom, offset + k + 1);
        lemma_script_moved(rom, offset, other, at, len, k + 1);
    }
}

// ---------------------------------------------------------------------------
// Making entries
// ---------------------------------------------------------------------------

/// A checksum of a script as text; empty for an empty script.
pub open spec fn sum_text(bytes: Seq<u8>, sum: u32) -> Seq<char> {
    if bytes.len() == 0 {
        Seq::empty()
    } else {
        hex(sum as int, 8)
    }
}

/// The checksum of a script as text; empty for an empty script.
pub open spec fn crc_text(bytes: Seq<u8>) -> Seq<char> {
    sum_text(bytes, crc32_of(bytes))
}

/// A checksum of a script as text; empty for an empty script.
pub fn show_sum(bytes: &[u8], sum: u32) -> (s: String)
    ensures
        s@ == sum_text(bytes@, sum),
{
    let mut s = String::new();
    if bytes.len() > 0 {
        crate::text::push_hex(&mut s, sum as u128, 8);
        proof {
            assert(s@ =~= sum_text(bytes@, sum));
        }
    }
    s
}

/// The checksum of a script as text; empty for an empty script.
pub fn source_crc32(bytes: &[u8]) -> (s: String)
    ensures
        s@ == crc_text(bytes@),
{
    show_sum(bytes, crc32(bytes))
}

/// The name of an entry.
pub open spec fn entry_id(kind: ScriptKind, region: Option<int>, index: int) -> Seq<char> {
    match kind {
        ScriptKind::Region => "region/"@ + dec(region->0) + "/"@ + hex(index, 3),
        ScriptKind::Cutscene => "cutscene/"@ + hex(index, 3),
        ScriptKind::Shop => "shop/"@ + dec_pad(index, 2),
    }
}

/// The entry of a script.
pub open spec fn entry_of(
    kind: ScriptKind,
    region: Option<int>,
    index: int,
    slot: int,
    offset: int,
    bytes: Seq<u8>,
) -> EntryView {
    EntryView {
        id: entry_id(kind, region, index),
        kind,
        region,
        index,
        slot,
        offset,
        len: bytes.len() as int,
        bytes_hex: hex_text(bytes),
        source_crc32: crc_text(bytes),
        jp_preview: preview(bytes),
        ko: Seq::empty(),
        skip: false,
    }
}

/// Makes the entry of a script.
pub fn entry(
    kind: ScriptKind,
    region: Option<usize>,
    index: usize,
    slot: u8,
    offset: usize,
    bytes: &[u8],
) -> (e: ScriptEntry)
    requires
        kind == ScriptKind::Region ==> region is Some,
    ensures
        e@ == entry_of(
            kind,
            opt_int(region),
            index as int,
            slot as int,
            offset as int,
            bytes@,
        ),
{
    let id: String = match kind {
        ScriptKind::Region => {
            let number: usize = match region {
                Some(r) => r,
                None => 0,
            };
            text("region/").dec(number).lit("/").hex(index, 3).finish()
        },
        ScriptKind::Cutscene => text("cutscene/").hex(index, 3).finish(),
        ScriptKind::Shop => text("shop/").dec_pad(index, 2).finish(),
    };
    ScriptEntry {
        id,
        kind,
        region,
        index,
        slot,
        offset,
        len: bytes.len(),
        bytes_hex: hex_bytes(bytes),
        source_crc32: source_crc32(bytes),
        jp_preview: decode_preview(bytes),
        ko: String::new(),
        skip: false,
    }
}

// ---------------------------------------------------------------------------
// Extraction
// ---------------------------------------------------------------------------

/// The one region script that is not stored in the ROM: its text is put together
/// in memory while the game runs.
pub open spec fn is_dynamic(region: int, index: int) -> bool {
    region == 3 && index == 0x25
}

/// The entry of a region's script.
pub open spec fn region_entry(rom: Seq<u8>, region: int, index: int) -> Result<
    EntryView,
    Fault,
> {
    if is_dynamic(region, index) {
        Ok(entry_of(ScriptKind::Region, Some(region), index, 1, 0, Seq::empty()))
    } else {
        match region_table(rom, region) {
            Err(e) => Err(e),
            Ok(table) => match word(rom, table + index * 2) {
                Err(cause) => Err(
                    cause.under("region "@ + dec(region) + " script "@ + hex(index, 3) + " ptr"@),
                ),
                Ok(ptr) => match pointer_target(region_bank(rom, region)->Ok_0, ptr, 0x4000) {
                    Err(e) => Err(e),
                    Ok(offset) => match script_at(rom, offset) {
                        Err(cause) => Err(
                            cause.under(
                                "region "@ + dec(region) + " script "@ + hex(index, 3) + " at 0x"@
                                    + hex(offset, 5),
                            ),
                        ),
                        Ok(bytes) => Ok(
                            entry_of(ScriptKind::Region, Some(region), index, 1, offset, bytes),
                        ),
                    },
                },
            },
        }
    }
}

/// The entry of a cutscene script.
pub open spec fn cutscene_entry(rom: Seq<u8>, index: int) -> Result<EntryView, Fault> {
    match word(rom, 0x1B162 + index * 2) {
        Err(cause) => Err(cause.under("cutscene "@ + hex(index, 3) + " ptr"@)),
        Ok(ptr) => match pointer_target(0x18000, ptr, 0x8000) {
            Err(e) => Err(e),
            Ok(offset) => match script_at(rom, offset) {
                Err(cause) => Err(cause.under(
                    "cutscene "@ + hex(index, 3) + " at 0x"@ + hex(offset, 5),
                )),
                Ok(bytes) => Ok(entry_of(ScriptKind::Cutscene, None, index, 2, offset, bytes)),
            },
        },
    }
}

/// The entry of a shop script at an offset.
pub open spec fn shop_entry(rom: Seq<u8>, index: int, offset: int) -> Result<
    EntryView,
    Fault,
> {
    match script_at(rom, offset) {
        Err(cause) => Err(cause.under("shop "@ + dec_pad(index, 2) + " at 0x"@ + hex(offset, 5))),
        Ok(bytes) => Ok(entry_of(ScriptKind::Shop, None, index, 2, offset, bytes)),
    }
}

/// A list extended by one more entry, or the first failure.
pub open spec fn and_push(
    list: Result<Seq<EntryView>, Fault>,
    next: Result<EntryView, Fault>,
) -> Result<Seq<EntryView>, Fault> {
    match (list, next) {
        (Err(e), _) => Err(e),
        (Ok(_), Err(e)) => Err(e),
        (Ok(l), Ok(v)) => Ok(l.push(v)),
    }
}

/// A list extended by another one, or the first failure.
pub open spec fn and_append(
    list: Result<Seq<EntryView>, Fault>,
    more: Result<Seq<EntryView>, Fault>,
) -> Result<Seq<EntryView>, Fault> {
    match (list, more) {
        (Err(e), _) => Err(e),
        (Ok(_), Err(e)) => Err(e),
        (Ok(l), Ok(m)) => Ok(l + m),
    }
}

/// The first `n` entries of a region.
pub open spec fn region_list(rom: Seq<u8>, region: int, n: int) -> Result<
    Seq<EntryView>,
    Fault,
>
    decreases n,
{
    if n <= 0 {
        Ok(Seq::empty())
    } else {
        and_push(region_list(rom, region, n - 1), region_entry(rom, region, n - 1))
    }
}

/// The entries of the first `n` regions.
pub open spec fn regions_list(rom: Seq<u8>, n: int) -> Result<Seq<EntryView>, Fault>
    decreases n,
{
    if n <= 0 {
        Ok(Seq::empty())
    } else {
        and_append(regions_list(rom, n - 1), region_list(rom, n - 1, script_count(n - 1)))
    }
}

/// The first `n` cutscene entries.
pub open spec fn cutscene_list(rom: Seq<u8>, n: int) -> Result<Seq<EntryView>, Fault>
    decreases n,
{
    if n <= 0 {
        Ok(Seq::empty())
    } else {
        and_push(cutscene_list(rom, n - 1), cutscene_entry(rom, n - 1))
    }
}

/// Where shop script `n` starts: the scripts follow one another without gaps.
pub open spec fn shop_offset(rom: Seq<u8>, n: int) -> int
    decreases n,
{
    if n <= 0 {
        0x25BB7
    } else {
        shop_offset(rom, n - 1) + script_at(rom, shop_offset(rom, n - 1))->Ok_0.len()
    }
}

/// The first `n` shop entries.
pub open spec fn shop_list(rom: Seq<u8>, n: int) -> Result<Seq<EntryView>, Fault>
    decreases n,
{
    if n <= 0 {
        Ok(Seq::empty())
    } else {
        and_push(shop_list(rom, n - 1), shop_entry(rom, n - 1, shop_offset(rom, n - 1)))
    }
}

/// Every script of the ROM: regions, cutscenes, shop.
pub open spec fn all_entries(rom: Seq<u8>) -> Result<Seq<EntryView>, Fault> {
    and_append(and_append(regions_list(rom, 11), cutscene_list(rom, 0xA8)), shop_list(rom, 12))
}

fn extract_region_entry(rom: &[u8], region: usize, index: usize) -> (res: Result<
    ScriptEntry,
    PatchError,
>)
    requires
        region < 11,
        index < 0x100,
    ensures
        outcome(res) == region_entry(rom@, region as int, index as int),
{
    if region == 3 && index == 0x25 {
        let none: Vec<u8> = Vec::new();
        proof {
            assert(none@ =~= Seq::<u8>::empty());
        }
        return Ok(entry(ScriptKind::Region, Some(region), index, 1, 0, none.as_slice()));
    }
    let table: usize = match region_table_addr(rom, region) {
        Ok(table) => table,
        Err(e) => {
            return Err(e);
        },
    };
    let ptr: u16 = match read_u16_le(rom, table + index * 2) {
        Ok(ptr) => ptr,
        Err(cause) => {
            return Err(
                text("region ").dec(region).lit(" script ").hex(index, 3).lit(" ptr").fail_after(cause),
            );
        },
    };
    let bank_base: usize = match region_bank_base(rom, region) {
        Ok(base) => base,
        Err(e) => {
            return Err(e);
        },
    };
    let offset: usize = match slot_pointer_to_physical(bank_base, ptr, SLOT1_BASE) {
        Ok(offset) => offset,
        Err(e) => {
            return Err(e);
        },
    };
    match read_script_bytes(rom, offset) {
        Ok(bytes) => Ok(
            entry(ScriptKind::Region, Some(region), index, 1, offset, bytes.as_slice()),
        ),
        Err(cause) => Err(
            text("region ").dec(region).lit(" script ").hex(index, 3).lit(" at 0x").hex(
                offset,
                5,
            ).fail_after(cause),
        ),
    }
}

proof fn lemma_region_list_fail(rom: Seq<u8>, region: int, k: int, n: int)
    requires
        k <= n,
        region_list(rom, region, k) is Err,
    ensures
        region_list(rom, region, n) == region_list(rom, region, k),
    decreases n - k,
{
    if k < n {
        lemma_region_list_fail(rom, region, k, n - 1);
    }
}

proof fn lemma_regions_list_fail(rom: Seq<u8>, k: int, n: int)
    requires
        k <= n,
        regions_list(rom, k) is Err,
    ensures
        regions_list(rom, n) == regions_list(rom, k),
    decreases n - k,
{
    if k < n {
        lemma_regions_list_fail(rom, k, n - 1);
    }
}

proof fn lemma_cutscene_list_fail(rom: Seq<u8>, k: int, n: int)
    requires
        k <= n,
        cutscene_list(rom, k) is Err,
    ensures
        cutscene_list(rom, n) == cutscene_list(rom, k),
    decreases n - k,
{
    if k < n {
        lemma_cutscene_list_fail(rom, k, n - 1);
    }
}

proof fn lemma_shop_list_fail(rom: Seq<u8>, k: int, n: int)
    requires
        k <= n,
        shop_list(rom, k) is Err,
    ensures
        shop_list(rom, n) == shop_list(rom, k),
    decreases n - k,
{
    if k < n {
        lemma_shop_list_fail(rom, k, n - 1);
    }
}

/// Reads the scripts of all regions.
pub fn extract_regions(rom: &[u8]) -> (res: Result<Vec<ScriptEntry>, PatchError>)
    ensures
        entries_outcome(res) == regions_list(rom@, 11),
{
    let mut all: Vec<ScriptEntry> = Vec::new();
    let mut region: usize = 0;
    proof {
        assert(entry_views(all@) =~= Seq::empty());
    }
    while region < REGION_COUNT
        invariant
            region <= 11,
            regions_list(rom@, region as int) == Ok::<Seq<EntryView>, Fault>(
                entry_views(all@),
            ),
        decreases 11 - region,
    {
        let count: usize = region_string_count(region);
        let mut list: Vec<ScriptEntry> = Vec::new();
        let mut index: usize = 0;
        proof {
            assert(entry_views(list@) =~= Seq::empty());
        }
        while index < count
            invariant
                region < 11,
                index <= count <= 0x9F,
                region_list(rom@, region as int, index as int) == Ok::<Seq<EntryView>, Fault>(
                    entry_views(list@),
                ),
                count == script_count(region as int),
                regions_list(rom@, region as int) is Ok,
            decreases count - index,
        {
            match extract_region_entry(rom, region, index) {
                Ok(e) => {
                    let ghost was = entry_views(list@);
                    list.push(e);
                    proof {
                        assert(entry_views(list@) =~= was.push(e@));
                    }
                },
                Err(e) => {
                    proof {
                        lemma_region_list_fail(rom@, region as int, index + 1, count as int);
                        lemma_regions_list_fail(rom@, region + 1, 11);
                    }
                    return Err(e);
                },
            }
            index += 1;
        }
        let ghost was = entry_views(all@);
        let ghost more = entry_views(list@);
        all.append(&mut list);
        proof {
            assert(entry_views(all@) =~= was + more);
        }
        region += 1;
    }
    Ok(all)
}

/// Reads the cutscene scripts.
pub fn extract_cutscenes(rom: &[u8]) -> (res: Result<Vec<ScriptEntry>, PatchError>)
    ensures
        entries_outcome(res) == cutscene_list(rom@, 0xA8),
{
    let mut list: Vec<ScriptEntry> = Vec::new();
    let mut index: usize = 0;
    proof {
        assert(entry_views(list@) =~= Seq::empty());
    }
    while index < CUTSCENE_COUNT
        invariant
            index <= 0xA8,
            cutscene_list(rom@, index as int) == Ok::<Seq<EntryView>, Fault>(
                entry_views(list@),
            ),
        decreases 0xA8 - index,
    {
        let ghost was = entry_views(list@);
        let ptr: u16 = match read_u16_le(rom, CUTSCENE_POINTER_TABLE + index * 2) {
            Ok(ptr) => ptr,
            Err(cause) => {
                proof {
                    lemma_cutscene_list_fail(rom@, index + 1, 0xA8);
                }
                return Err(text("cutscene ").hex(index, 3).lit(" ptr").fail_after(cause));
            },
        };
        let offset: usize = match slot_pointer_to_physical(
            crate::pointers::CUTSCENE_BANK_BASE,
            ptr,
            SLOT2_BASE,
        ) {
            Ok(offset) => offset,
            Err(e) => {
                proof {
                    lemma_cutscene_list_fail(rom@, index + 1, 0xA8);
                }
                return Err(e);
            },
        };
        match read_script_bytes(rom, offset) {
            Ok(bytes) => {
                let e = entry(ScriptKind::Cutscene, None, index, 2, offset, bytes.as_slice());
                list.push(e);
                proof {
                    assert(entry_views(list@) =~= was.push(e@));
                }
            },
            Err(cause) => {
                proof {
                    lemma_cutscene_list_fail(rom@, index + 1, 0xA8);
                }
                return Err(
                    text("cutscene ").hex(index, 3).lit(" at 0x").hex(offset, 5).fail_after(cause),
                );
            },
        }
        index += 1;
    }
    Ok(list)
}

/// Reads the shop scripts.
pub fn extract_shop(rom: &[u8]) -> (res: Result<Vec<ScriptEntry>, PatchError>)
    ensures
        entries_outcome(res) == shop_list(rom@, 12),
{
    let mut list: Vec<ScriptEntry> = Vec::new();
    let mut index: usize = 0;
    let mut offset: usize = SHOP_START;
    let size: usize = rom.len();
    proof {
        assert(entry_views(list@) =~= Seq::empty());
    }
    while index < SHOP_COUNT
        invariant
            index <= 12,
            size == rom@.len(),
            offset == shop_offset(rom@, index as int),
            shop_list(rom@, index as int) == Ok::<Seq<EntryView>, Fault>(entry_views(list@)),
        decreases 12 - index,
    {
        let ghost was = entry_views(list@);
        match read_script_bytes(rom, offset) {
            Ok(bytes) => {
                let e = entry(ScriptKind::Shop, None, index, 2, offset, bytes.as_slice());
                list.push(e);
                proof {
                    assert(entry_views(list@) =~= was.push(e@));
                }
                offset += bytes.len();
            },
            Err(cause) => {
                proof {
                    lemma_shop_list_fail(rom@, index + 1, 12);
                }
                return Err(
                    text("shop ").dec_pad(index, 2).lit(" at 0x").hex(offset, 5).fail_after(cause),
                );
            },
        }
        index += 1;
    }
    Ok(list)
}

/// Reads every script of the ROM: regions, cutscenes, shop.
pub fn extract_entries(rom: &[u8]) -> (res: Result<Vec<ScriptEntry>, PatchError>)
    ensures
        entries_outcome(res) == all_entries(rom@),
{
    let mut all = match extract_regions(rom) {
        Ok(list) => list,
        Err(e) => {
            return Err(e);
        },
    };
    let mut cutscenes = match extract_cutscenes(rom) {
        Ok(list) => list,
        Err(e) => {
            return Err(e);
        },
    };
    let mut shop = match extract_shop(rom) {
        Ok(list) => list,
        Err(e) => {
            return Err(e);
        },
    };
    let ghost a = entry_views(all@);
    let ghost b = entry_views(cutscenes@);
    let ghost c = entry_views(shop@);
    all.append(&mut cutscenes);
    proof {
        assert(entry_views(all@) =~= a + b);
    }
    all.append(&mut shop);
    proof {
        assert(entry_views(all@) =~= a + b + c);
    }
    Ok(all)
}

// ---------------------------------------------------------------------------
// Extracted files
// ---------------------------------------------------------------------------

/// What an extracted file says about its ROM.
#[derive(Debug)]
pub struct ExtractRomInfo {
    /// Path of the ROM.
    pub path: String,
    /// Its size.
    pub size: usize,
    /// Its checksum.
    pub crc32: String,
    /// Its digest.
    pub md5: String,
}

/// How many entries an extracted file has.
#[derive(Debug, Clone, Copy, PartialEq, Eq, Structural)]
pub struct ExtractCounts {
    /// All of them.
    pub total: usize,
    /// Region entries.
    pub regions: usize,
    /// Cutscene entries.
    pub cutscenes: usize,
    /// Shop entries.
    pub shop: usize,
}

/// An extracted file.
#[derive(Debug)]
pub struct ExtractFile {
    /// Name of the format.
    pub format: String,
    /// The ROM.
    pub rom: ExtractRomInfo,
    /// How many entries there are.
    pub counts: ExtractCounts,
    /// The entries.
    pub entries: Vec<ScriptEntry>,
}

/// How many entries are of a kind.
pub open spec fn kind_count(entries: Seq<EntryView>, kind: ScriptKind) -> int
    decreases entries.len(),
{
    if entries.len() == 0 {
        0
    } else {
        kind_count(entries.drop_last(), kind) + if entries.last().kind == kind {
            1int
        } else {
            0
        }
    }
}

/// How many entries are of a kind.
pub fn count_kind(entries: &[ScriptEntry], kind: ScriptKind) -> (n: usize)
    ensures
        n == kind_count(entry_views(entries@), kind),
{
    let ghost all = entry_views(entries@);
    let mut n: usize = 0;
    let mut i: usize = 0;
    while i < entries.len()
        invariant
            i <= entries@.len(),
            all == entry_views(entries@),
            n <= i,
            n == kind_count(all.take(i as int), kind),
        decreases entries@.len() - i,
    {
        proof {
            assert(all.take(i + 1).drop_last() =~= all.take(i as int));
            assert(all.take(i + 1).last() == entries@[i as int]@);
        }
        if entries[i].kind == kind {
            n += 1;
        }
        i += 1;
    }
    proof {
        assert(all.take(i as int) =~= all);
    }
    n
}

/// Whether an extracted file describes a ROM: the format, the ROM's size, checksum
/// and digest, the number of entries of each kind, and every script.
pub open spec fn is_extract_of(file: ExtractFile, rom: Seq<u8>, path: Seq<char>) -> bool {
    &&& is_extract(file, path, rom.len() as int, crc32_of(rom), lower_hex(md5_of(rom), 16))
    &&& all_entries(rom) == Ok::<Seq<EntryView>, Fault>(entry_views(file.entries@))
}

/// Whether an extracted file describes a ROM of a given size, checksum and digest and
/// says how many entries of each kind it holds.
pub open spec fn is_extract(
    file: ExtractFile,
    path: Seq<char>,
    size: int,
    sum: u32,
    md5: Seq<char>,
) -> bool {
    let entries = entry_views(file.entries@);
    &&& file.format@ == "madoua-text-extract-v1"@
    &&& file.rom.path@ == path
    &&& file.rom.size == size
    &&& file.rom.crc32@ == hex(sum as int, 8)
    &&& file.rom.md5@ == md5
    &&& file.counts.total == entries.len()
    &&& file.counts.regions == kind_count(entries, ScriptKind::Region)
    &&& file.counts.cutscenes == kind_count(entries, ScriptKind::Cutscene)
    &&& file.counts.shop == kind_count(entries, ScriptKind::Shop)
}

/// Makes a file of extracted scripts, given the size, the checksum and the digest of
/// their ROM.
pub fn describe_extract(
    entries: Vec<ScriptEntry>,
    path: &str,
    size: usize,
    sum: u32,
    md5: String,
) -> (file: ExtractFile)
    ensures
        is_extract(file, path@, size as int, sum, md5@),
        file.entries == entries,
{
    let counts = ExtractCounts {
        total: entries.len(),
        regions: count_kind(entries.as_slice(), ScriptKind::Region),
        cutscenes: count_kind(entries.as_slice(), ScriptKind::Cutscene),
        shop: count_kind(entries.as_slice(), ScriptKind::Shop),
    };
    let mut crc32 = String::new();
    crate::text::push_hex(&mut crc32, sum as u128, 8);
    proof {
        assert(crc32@ =~= hex(sum as int, 8));
    }
    ExtractFile {
        format: "madoua-text-extract-v1".to_owned(),
        rom: ExtractRomInfo { path: path.to_owned(), size, crc32, md5 },
        counts,
        entries,
    }
}

/// Extracts every script of a ROM into a file with its description.
pub fn extract_file(rom: &[u8], path: &str) -> (res: Result<ExtractFile, PatchError>)
    ensures
        match res {
            Ok(file) => is_extract_of(file, rom@, path@),
            Err(e) => all_entries(rom@) == Err::<Seq<EntryView>, Fault>(e@),
        },
{
    let entries = match extract_entries(rom) {
        Ok(list) => list,
        Err(e) => {
            return Err(e);
        },
    };
    Ok(describe_extract(entries, path, rom.len(), crc32(rom), md5_hex(rom)))
}

/// What is wrong with the format name of an extracted file, if anything.
pub open spec fn format_fault(format: Seq<char>) -> Option<Fault> {
    if format == "madoua-text-extract-v1"@ {
        None
    } else {
        Some(plain("지원하지 않는 extract format: "@ + format))
    }
}

/// What is wrong with the counts of an extracted file, if anything.
pub open spec fn counts_fault(counts: ExtractCounts, entries: Seq<EntryView>) -> Option<Fault> {
    let regions = kind_count(entries, ScriptKind::Region);
    let cutscenes = kind_count(entries, ScriptKind::Cutscene);
    let shop = kind_count(entries, ScriptKind::Shop);
    if counts.total != entries.len() {
        Some(
            plain(
                "count mismatch: total "@ + dec(counts.total as int) + " vs entries "@ + dec(
                    entries.len() as int,
                ),
            ),
        )
    } else if counts.regions != regions || counts.cutscenes != cutscenes || counts.shop != shop {
        Some(
            plain(
                "count mismatch: header regions/cutscenes/shop = "@ + dec(counts.regions as int)
                    + "/"@ + dec(counts.cutscenes as int) + "/"@ + dec(counts.shop as int)
                    + " but entries = "@ + dec(regions) + "/"@ + dec(cutscenes) + "/"@ + dec(shop),
            ),
        )
    } else {
        None
    }
}

/// A failure that may be absent, as a model.
pub open spec fn fault_outcome(result: Result<(), PatchError>) -> Option<Fault> {
    match result {
        Ok(_) => None,
        Err(e) => Some(e@),
    }
}

/// Checks the counts of an extracted file against its entries.
pub fn validate_counts(counts: &ExtractCounts, entries: &[ScriptEntry]) -> (res: Result<
    (),
    PatchError,
>)
    ensures
        fault_outcome(res) == counts_fault(*counts, entry_views(entries@)),
{
    let regions: usize = count_kind(entries, ScriptKind::Region);
    let cutscenes: usize = count_kind(entries, ScriptKind::Cutscene);
    let shop: usize = count_kind(entries, ScriptKind::Shop);
    if counts.total != entries.len() {
        return Err(
            text("count mismatch: total ").dec(counts.total).lit(" vs entries ").dec(
                entries.len(),
            ).fail(),
        );
    }
    if counts.regions != regions || counts.cutscenes != cutscenes || counts.shop != shop {
        return Err(
            text("count mismatch: header regions/cutscenes/shop = ").dec(counts.regions).lit(
                "/",
            ).dec(counts.cutscenes).lit("/").dec(counts.shop).lit(" but entries = ").dec(
                regions,
            ).lit("/").dec(cutscenes).lit("/").dec(shop).fail(),
        );
    }
    Ok(())
}

/// The bytes of an entry.
pub open spec fn bytes_of(entry: EntryView) -> Result<Seq<u8>, Fault> {
    match hex_text_bytes(entry.bytes_hex) {
        Ok(bytes) => Ok(bytes),
        Err(cause) => Err(cause.under(entry.id + " bytes_hex"@)),
    }
}

/// The bytes of an entry.
pub fn raw_entry_bytes(entry: &ScriptEntry) -> (res: Result<Vec<u8>, PatchError>)
    ensures
        outcome(res) == bytes_of(entry@),
{
    match parse_hex_bytes(entry.bytes_hex.as_str()) {
        Ok(bytes) => Ok(bytes),
        Err(cause) => Err(text(entry.id.as_str()).lit(" bytes_hex").fail_after(cause)),
    }
}

/// What is wrong with an entry in view of the ROM, if anything.
pub open spec fn entry_fault(entry: EntryView, rom: Seq<u8>) -> Option<Fault> {
    match bytes_of(entry) {
        Err(e) => Some(e),
        Ok(bytes) => {
            let end = entry.offset + bytes.len();
            if entry.len != bytes.len() {
                Some(
                    plain(
                        entry.id + " len mismatch: metadata "@ + dec(entry.len) + " vs bytes "@ + dec(
                            bytes.len() as int,
                        ),
                    ),
                )
            } else if bytes.len() == 0 && entry.offset == 0 {
                None
            } else if end > usize::MAX {
                Some(plain(entry.id + " offset overflow"@))
            } else if end > rom.len() {
                Some(
                    plain(
                        entry.id + " range out of ROM: 0x"@ + hex(entry.offset, 5) + "..0x"@ + hex(
                            end,
                            5,
                        ),
                    ),
                )
            } else if rom.subrange(entry.offset, end) != bytes {
                Some(plain(entry.id + " raw bytes do not match ROM at 0x"@ + hex(entry.offset, 5)))
            } else {
                None
            }
        },
    }
}

/// What is wrong with the first entry that something is wrong with.
pub open spec fn entries_fault(entries: Seq<EntryView>, rom: Seq<u8>) -> Option<Fault>
    decreases entries.len(),
{
    if entries.len() == 0 {
        None
    } else {
        match entries_fault(entries.drop_last(), rom) {
            Some(e) => Some(e),
            None => entry_fault(entries.last(), rom),
        }
    }
}

proof fn lemma_entries_fault(entries: Seq<EntryView>, rom: Seq<u8>, k: int)
    requires
        0 <= k <= entries.len(),
        entries_fault(entries.take(k), rom) is Some,
    ensures
        entries_fault(entries, rom) == entries_fault(entries.take(k), rom),
    decreases entries.len(),
{
    if k == entries.len() {
        assert(entries.take(k) =~= entries);
    } else {
        assert(entries.drop_last().take(k) =~= entries.take(k));
        lemma_entries_fault(entries.drop_last(), rom, k);
    }
}

fn validate_entry(entry: &ScriptEntry, rom: &[u8]) -> (res: Result<(), PatchError>)
    ensures
        fault_outcome(res) == entry_fault(entry@, rom@),
{
    let bytes = match raw_entry_bytes(entry) {
        Ok(bytes) => bytes,
        Err(e) => {
            return Err(e);
        },
    };
    if entry.len != bytes.len() {
        return Err(
            text(entry.id.as_str()).lit(" len mismatch: metadata ").dec(entry.len).lit(
                " vs bytes ",
            ).dec(bytes.len()).fail(),
        );
    }
    if bytes.len() == 0 && entry.offset == 0 {
        return Ok(());
    }
    let end: usize = match entry.offset.checked_add(bytes.len()) {
        Some(end) => end,
        None => {
            return Err(text(entry.id.as_str()).lit(" offset overflow").fail());
        },
    };
    if end > rom.len() {
        return Err(
            text(entry.id.as_str()).lit(" range out of ROM: 0x").hex(entry.offset, 5).lit(
                "..0x",
            ).hex(end, 5).fail(),
        );
    }
    if !same_bytes(slice_subrange(rom, entry.offset, end), bytes.as_slice()) {
        return Err(
            text(entry.id.as_str()).lit(" raw bytes do not match ROM at 0x").hex(
                entry.offset,
                5,
            ).fail(),
        );
    }
    Ok(())
}

/// Checks entries against the ROM.
pub fn validate_entries_against_rom(entries: &[ScriptEntry], rom: &[u8]) -> (res: Result<
    (),
    PatchError,
>)
    ensures
        fault_outcome(res) == entries_fault(entry_views(entries@), rom@),
{
    let ghost all = entry_views(entries@);
    let mut i: usize = 0;
    while i < entries.len()
        invariant
            i <= entries@.len(),
            all == entry_views(entries@),
            entries_fault(all.take(i as int), rom@) is None,
        decreases entries@.len() - i,
    {
        proof {
            assert(all.take(i + 1).drop_last() =~= all.take(i as int));
            assert(all.take(i + 1).last() == entries@[i as int]@);
        }
        match validate_entry(&entries[i], rom) {
            Ok(_) => {},
            Err(e) => {
                proof {
                    lemma_entries_fault(all, rom@, i + 1);
                }
                return Err(e);
            },
        }
        i += 1;
    }
    proof {
        assert(all.take(i as int) =~= all);
    }
    Ok(())
}

/// What is wrong with an extracted file on its own, if anything.
pub open spec fn extract_fault(file: ExtractFile) -> Option<Fault> {
    match format_fault(file.format@) {
        Some(e) => Some(e),
        None => counts_fault(file.counts, entry_views(file.entries@)),
    }
}

/// Checks the format and the counts of an extracted file.
pub fn validate_extract(file: &ExtractFile) -> (res: Result<(), PatchError>)
    ensures
        fault_outcome(res) == extract_fault(*file),
{
    if !same_str(file.format.as_str(), "madoua-text-extract-v1") {
        return Err(text("지원하지 않는 extract format: ").lit(file.format.as_str()).fail());
    }
    validate_counts(&file.counts, file.entries.as_slice())
}

// ---------------------------------------------------------------------------
// What was extracted passes the checks
// ---------------------------------------------------------------------------

/// Whether an entry is the one that stands for a text which the game puts together as it
/// runs.
pub open spec fn is_dynamic_entry(e: EntryView) -> bool {
    e.kind == ScriptKind::Region && e.region is Some && is_dynamic(e.region->0, e.index)
}

/// Whether an entry denotes the script at its offset.
pub open spec fn denotes_script(e: EntryView, rom: Seq<u8>) -> bool {
    if is_dynamic_entry(e) {
        e.offset == 0 && e.len == 0 && bytes_of(e) == Ok::<Seq<u8>, Fault>(Seq::empty())
    } else {
        &&& 0 <= e.offset
        &&& script_at(rom, e.offset) is Ok
        &&& bytes_of(e) == script_at(rom, e.offset)
        &&& e.len == script_at(rom, e.offset)->Ok_0.len()
    }
}

/// Whether nothing is wrong with an entry in view of the ROM, and it denotes the script
/// at its offset.
pub open spec fn is_sound(e: EntryView, rom: Seq<u8>) -> bool {
    entry_fault(e, rom) is None && denotes_script(e, rom)
}

/// Whether every entry denotes the bytes at its offset.
pub open spec fn all_sound(list: Seq<EntryView>, rom: Seq<u8>) -> bool {
    forall|i: int| 0 <= i < list.len() ==> is_sound(#[trigger] list[i], rom)
}

proof fn lemma_sound_entry(
    rom: Seq<u8>,
    kind: ScriptKind,
    region: Option<int>,
    index: int,
    slot: int,
    offset: int,
)
    requires
        rom.len() <= usize::MAX,
        0 <= offset,
        script_at(rom, offset) is Ok,
        !(kind == ScriptKind::Region && region is Some && is_dynamic(region->0, index)),
    ensures
        is_sound(
            entry_of(kind, region, index, slot, offset, script_at(rom, offset)->Ok_0),
            rom,
        ),
{
    lemma_script_end(rom, offset);
    law_hex_round_trip(script_at(rom, offset)->Ok_0);
}

proof fn lemma_sound_region(rom: Seq<u8>, region: int, n: int)
    requires
        rom.len() <= usize::MAX,
        0 <= region,
        region_list(rom, region, n) is Ok,
    ensures
        all_sound(region_list(rom, region, n)->Ok_0, rom),
    decreases n,
{
    if n > 0 {
        lemma_sound_region(rom, region, n - 1);
        let list = region_list(rom, region, n)->Ok_0;
        let prev = region_list(rom, region, n - 1)->Ok_0;
        let index = n - 1;
        if is_dynamic(region, index) {
            law_hex_round_trip(Seq::empty());
        } else {
            let ptr = word(rom, region_table(rom, region)->Ok_0 + index * 2)->Ok_0;
            let offset = pointer_target(region_bank(rom, region)->Ok_0, ptr, 0x4000)->Ok_0;
            lemma_sound_entry(rom, ScriptKind::Region, Some(region), index, 1, offset);
        }
        assert forall|i: int| 0 <= i < list.len() implies is_sound(
            #[trigger] list[i],
            rom,
        ) by {
            if i < list.len() - 1 {
                assert(list[i] == prev[i]);
            }
        }
    }
}

proof fn lemma_sound_regions(rom: Seq<u8>, n: int)
    requires
        rom.len() <= usize::MAX,
        regions_list(rom, n) is Ok,
    ensures
        all_sound(regions_list(rom, n)->Ok_0, rom),
    decreases n,
{
    if n > 0 {
        lemma_sound_regions(rom, n - 1);
        lemma_sound_region(rom, n - 1, script_count(n - 1));
        let a = regions_list(rom, n - 1)->Ok_0;
        let b = region_list(rom, n - 1, script_count(n - 1))->Ok_0;
        lemma_sound_append(a, b, rom);
    }
}

proof fn lemma_sound_append(a: Seq<EntryView>, b: Seq<EntryView>, rom: Seq<u8>)
    requires
        all_sound(a, rom),
        all_sound(b, rom),
    ensures
        all_sound(a + b, rom),
{
    assert forall|i: int| 0 <= i < (a + b).len() implies is_sound(
            #[trigger] (a + b)[i],
            rom,
        ) by {
        if i < a.len() {
            assert((a + b)[i] == a[i]);
        } else {
            assert((a + b)[i] == b[i - a.len()]);
        }
    }
}

proof fn lemma_sound_cutscenes(rom: Seq<u8>, n: int)
    requires
        rom.len() <= usize::MAX,
        cutscene_list(rom, n) is Ok,
    ensures
        all_sound(cutscene_list(rom, n)->Ok_0, rom),
    decreases n,
{
    if n > 0 {
        lemma_sound_cutscenes(rom, n - 1);
        let list = cutscene_list(rom, n)->Ok_0;
        let prev = cutscene_list(rom, n - 1)->Ok_0;
        let ptr = word(rom, 0x1B162 + (n - 1) * 2)->Ok_0;
        let offset = pointer_target(0x18000, ptr, 0x8000)->Ok_0;
        lemma_sound_entry(rom, ScriptKind::Cutscene, None, n - 1, 2, offset);
        assert forall|i: int| 0 <= i < list.len() implies is_sound(
            #[trigger] list[i],
            rom,
        ) by {
            if i < list.len() - 1 {
                assert(list[i] == prev[i]);
            }
        }
    }
}

proof fn lemma_shop_offset(rom: Seq<u8>, n: int)
    ensures
        shop_offset(rom, n) >= 0x25BB7,
    decreases n,
{
    if n > 0 {
        lemma_shop_offset(rom, n - 1);
    }
}

proof fn lemma_sound_shop(rom: Seq<u8>, n: int)
    requires
        rom.len() <= usize::MAX,
        shop_list(rom, n) is Ok,
    ensures
        all_sound(shop_list(rom, n)->Ok_0, rom),
    decreases n,
{
    if n > 0 {
        lemma_sound_shop(rom, n - 1);
        lemma_shop_offset(rom, n - 1);
        let list = shop_list(rom, n)->Ok_0;
        let prev = shop_list(rom, n - 1)->Ok_0;
        lemma_sound_entry(rom, ScriptKind::Shop, None, n - 1, 2, shop_offset(rom, n - 1));
        assert forall|i: int| 0 <= i < list.len() implies is_sound(
            #[trigger] list[i],
            rom,
        ) by {
            if i < list.len() - 1 {
                assert(list[i] == prev[i]);
            }
        }
    }
}

proof fn lemma_no_fault(list: Seq<EntryView>, rom: Seq<u8>)
    requires
        all_sound(list, rom),
    ensures
        entries_fault(list, rom) is None,
    decreases list.len(),
{
    if list.len() > 0 {
        let front = list.drop_last();
        assert forall|i: int| 0 <= i < front.len() implies is_sound(
            #[trigger] front[i],
            rom,
        ) by {
            assert(front[i] == list[i]);
        }
        lemma_no_fault(front, rom);
        assert(is_sound(list[list.len() - 1], rom));
    }
}

/// A file that was extracted from a ROM passes the checks on its own and against
/// that ROM: every entry denotes the bytes at its offset.
pub proof fn law_extract_passes(file: ExtractFile, rom: Seq<u8>, path: Seq<char>)
    requires
        rom.len() <= usize::MAX,
        is_extract_of(file, rom, path),
    ensures
        extract_fault(file) is None,
        entries_fault(entry_views(file.entries@), rom) is None,
{
    lemma_extracted_sound(rom);
    lemma_no_fault(all_entries(rom)->Ok_0, rom);
}

/// Entries that were extracted denote the bytes at their offsets, and the ROM reaches
/// beyond the start of the shop scripts.
pub proof fn lemma_extracted_sound(rom: Seq<u8>)
    requires
        rom.len() <= usize::MAX,
        all_entries(rom) is Ok,
    ensures
        all_sound(all_entries(rom)->Ok_0, rom),
        rom.len() > 0x25BB7,
{
    lemma_sound_regions(rom, 11);
    lemma_sound_cutscenes(rom, 0xA8);
    lemma_sound_shop(rom, 12);
    let a = regions_list(rom, 11)->Ok_0;
    let b = cutscene_list(rom, 0xA8)->Ok_0;
    let c = shop_list(rom, 12)->Ok_0;
    lemma_sound_append(a, b, rom);
    lemma_sound_append(a + b, c, rom);
    if shop_list(rom, 1) is Err {
        lemma_shop_list_fail(rom, 1, 12);
    }
}

/// The bytes of an entry that was extracted are those of the ROM at its offset, and they
/// end with the end code. Only the entry of the text which the game puts together as it
/// runs is empty.
pub proof fn law_extracted_bytes(rom: Seq<u8>, k: int)
    requires
        rom.len() <= usize::MAX,
        all_entries(rom) is Ok,
        0 <= k < all_entries(rom)->Ok_0.len(),
    ensures
        ({
            let e = all_entries(rom)->Ok_0[k];
            let end = e.offset + e.len;
            &&& 0 <= e.offset <= end <= rom.len()
            &&& bytes_of(e) == Ok::<Seq<u8>, Fault>(rom.subrange(e.offset, end))
            &&& if is_dynamic_entry(e) {
                e.offset == 0 && e.len == 0
            } else {
                e.len > 0 && rom[end - 1] == 0x00
            }
        }),
{
    lemma_extracted_sound(rom);
    let e = all_entries(rom)->Ok_0[k];
    assert(is_sound(e, rom));
    if is_dynamic_entry(e) {
        assert(rom.subrange(0, 0) =~= Seq::empty());
    } else {
        lemma_script_end(rom, e.offset);
        law_script_ends_with_end_code(rom, e.offset);
    }
}

// ---------------------------------------------------------------------------
// Translation files
// ---------------------------------------------------------------------------

/// An entry as it stands in a fresh translation file.
#[derive(Debug)]
pub struct TranslationStageEntry {
    /// Unique name.
    pub id: String,
    /// What the script belongs to.
    pub kind: ScriptKind,
    /// The region, for region scripts.
    pub region: Option<usize>,
    /// Number within its kind or region.
    pub index: usize,
    /// ROM offset, written out.
    pub offset: String,
    /// Length in bytes.
    pub len: usize,
    /// The script in readable form.
    pub jp: String,
    /// The bytes as hexadecimal words.
    pub bytes_hex: String,
    /// Checksum of the bytes.
    pub source_crc32: String,
    /// The translation, empty at first.
    pub ko: String,
    /// How far the translation has come.
    pub status: String,
    /// Remarks.
    pub notes: String,
}

impl TranslationStageEntry {
    /// Whether this is the untranslated form of a script entry.
    pub open spec fn starts_from(self, e: EntryView) -> bool {
        &&& self.id@ == e.id
        &&& self.kind == e.kind
        &&& opt_int(self.region) == e.region
        &&& self.index == e.index
        &&& self.offset@ == "0x"@ + hex(e.offset, 5)
        &&& self.len == e.len
        &&& self.jp@ == e.jp_preview
        &&& self.bytes_hex@ == e.bytes_hex
        &&& self.source_crc32@ == e.source_crc32
        &&& self.ko@ == ""@
        &&& self.status@ == "untranslated"@
        &&& self.notes@ == ""@
    }
}

/// The untranslated form of a script entry.
pub fn stage_entry(e: &ScriptEntry) -> (s: TranslationStageEntry)
    ensures
        s.starts_from(e@),
{
    TranslationStageEntry {
        id: e.id.clone(),
        kind: e.kind,
        region: e.region,
        index: e.index,
        offset: text("0x").hex(e.offset, 5).finish(),
        len: e.len,
        jp: e.jp_preview.clone(),
        bytes_hex: e.bytes_hex.clone(),
        source_crc32: e.source_crc32.clone(),
        ko: "".to_owned(),
        status: "untranslated".to_owned(),
        notes: "".to_owned(),
    }
}

} // verus!
