//! Where script pointers stand and what they point at.
use vstd::prelude::*;
use crate::bytes::word_at;
use crate::error::{outcome, plain, u16_outcome, usize_outcome, Fault, PatchError};
use crate::runs::{has_value, lemma_runs_shape, run_views, runs, value_runs};
use crate::text::{dec, hex, text};
use vstd::slice::slice_subrange;

verus! {

/// The size of a bank.
pub const BANK_SIZE: usize = 0x4000;

/// Where slot 1 starts.
pub const SLOT1_BASE: u16 = 0x4000;

/// Where slot 2 starts.
pub const SLOT2_BASE: u16 = 0x8000;

/// The table of regions: a resource number and a bank for each.
pub const REGION_LOC_TABLE: usize = 0x1A069;

/// The pointers of the cutscene scripts.
pub const CUTSCENE_POINTER_TABLE: usize = 0x1B162;

/// How many cutscene scripts there are.
pub const CUTSCENE_COUNT: usize = 0xA8;

/// How many regions there are.
pub const REGION_COUNT: usize = 11;

/// How many scripts each region has.
pub const REGION_STRING_COUNTS: [usize; 11] = [
    0x73,
    0x35,
    0x76,
    0x2C,
    0x0F,
    0x16,
    0x9F,
    0x7C,
    0x37,
    0x48,
    0x05,
];

/// How many scripts a region has.
pub open spec fn script_count(region: int) -> int {
    REGION_STRING_COUNTS@[region] as int
}

/// How many scripts a region has.
pub fn region_string_count(region: usize) -> (count: usize)
    requires
        region < 11,
    ensures
        count == script_count(region as int),
        5 <= count <= 0x9F,
{
    REGION_STRING_COUNTS[region]
}

/// The 16-bit number at `offset`, if both of its bytes are there.
pub open spec fn word(data: Seq<u8>, offset: int) -> Result<int, Fault> {
    if offset + 1 < data.len() {
        Ok(word_at(data, offset))
    } else {
        Err(plain("u16 read out of range at 0x"@ + hex(offset, 5)))
    }
}

/// Reads the 16-bit number at `offset`, low byte first.
pub fn read_u16_le(data: &[u8], offset: usize) -> (res: Result<u16, PatchError>)
    requires
        offset < usize::MAX,
    ensures
        u16_outcome(res) == word(data@, offset as int),
{
    if offset + 1 < data.len() {
        Ok(data[offset] as u16 + 256 * data[offset + 1] as u16)
    } else {
        Err(text("u16 read out of range at 0x").hex(offset, 5).fail())
    }
}

/// What a slot pointer points at while the bank at `bank_base` is selected.
pub open spec fn pointer_target(bank_base: int, ptr: int, slot_base: int) -> Result<
    int,
    Fault,
> {
    if ptr >= slot_base {
        Ok(bank_base + (ptr - slot_base))
    } else {
        Err(plain("slot pointer $"@ + hex(ptr, 4) + " below slot base $"@ + hex(slot_base, 4)))
    }
}

/// What a slot pointer points at while the bank at `bank_base` is selected.
pub fn slot_pointer_to_physical(bank_base: usize, ptr: u16, slot_base: u16) -> (res: Result<
    usize,
    PatchError,
>)
    requires
        bank_base + 0xFFFF <= usize::MAX,
    ensures
        usize_outcome(res) == pointer_target(bank_base as int, ptr as int, slot_base as int),
{
    if ptr >= slot_base {
        Ok(bank_base + (ptr - slot_base) as usize)
    } else {
        Err(
            text("slot pointer $").hex(ptr as usize, 4).lit(" below slot base $").hex(
                slot_base as usize,
                4,
            ).fail(),
        )
    }
}

/// The slot pointer to a ROM offset while the bank at `bank_base` is selected.
pub open spec fn pointer_to(bank_base: int, offset: int, slot_base: int) -> Result<int, Fault> {
    if !(bank_base <= offset < bank_base + 0x4000) {
        Err(plain(
            "physical offset 0x"@ + hex(offset, 5) + " outside bank base 0x"@ + hex(bank_base, 5),
        ))
    } else if slot_base + (offset - bank_base) > 0xFFFF {
        Err(plain("slot pointer overflow for offset 0x"@ + hex(offset, 5)))
    } else {
        Ok(slot_base + (offset - bank_base))
    }
}

/// The slot pointer to a ROM offset while the bank at `bank_base` is selected.
pub fn physical_to_slot_pointer(bank_base: usize, offset: usize, slot_base: u16) -> (res: Result<
    u16,
    PatchError,
>)
    requires
        bank_base + 0x4000 <= usize::MAX,
    ensures
        u16_outcome(res) == pointer_to(bank_base as int, offset as int, slot_base as int),
{
    if !(bank_base <= offset && offset < bank_base + BANK_SIZE) {
        return Err(
            text("physical offset 0x").hex(offset, 5).lit(" outside bank base 0x").hex(
                bank_base,
                5,
            ).fail(),
        );
    }
    let ptr: usize = slot_base as usize + (offset - bank_base);
    if ptr > 0xFFFF {
        return Err(text("slot pointer overflow for offset 0x").hex(offset, 5).fail());
    }
    Ok(ptr as u16)
}

/// A pointer that was made for an offset leads back to that offset.
pub proof fn law_pointer_round_trip(bank_base: int, offset: int, slot_base: int)
    requires
        pointer_to(bank_base, offset, slot_base) is Ok,
    ensures
        pointer_target(bank_base, pointer_to(bank_base, offset, slot_base)->Ok_0, slot_base) == Ok::<
            int,
            Fault,
        >(offset),
{
}

// ---------------------------------------------------------------------------
// Cutscenes
// ---------------------------------------------------------------------------

/// The bank of the cutscene scripts.
pub const CUTSCENE_BANK_BASE: usize = 0x18000;

/// Where the pointer of a cutscene script stands.
pub open spec fn cutscene_pointer_at(index: int) -> Result<int, Fault> {
    if index < 0xA8 {
        Ok(0x1B162 + index * 2)
    } else {
        Err(plain("cutscene index out of range: "@ + dec(index) + " >= 168"@))
    }
}

/// Where the pointer of a cutscene script stands.
pub fn cutscene_pointer_offset(index: usize) -> (res: Result<usize, PatchError>)
    ensures
        usize_outcome(res) == cutscene_pointer_at(index as int),
{
    if index < CUTSCENE_COUNT {
        Ok(CUTSCENE_POINTER_TABLE + index * 2)
    } else {
        Err(text("cutscene index out of range: ").dec(index).lit(" >= 168").fail())
    }
}

/// The pointer to a cutscene script at a ROM offset.
pub fn cutscene_pointer_for_physical(offset: usize) -> (res: Result<u16, PatchError>)
    ensures
        u16_outcome(res) == pointer_to(0x18000, offset as int, 0x8000),
{
    physical_to_slot_pointer(CUTSCENE_BANK_BASE, offset, SLOT2_BASE)
}

/// Where relocated cutscene scripts start. The glyphs stand in a bank of their own,
/// so how many there are does not matter.
pub fn cutscene_relocation_start(_glyph_bank_len: usize) -> (start: usize)
    ensures
        start == 0x1B826,
{
    crate::glyph::KO_CUTSCENE_RELOC_START
}

// ---------------------------------------------------------------------------
// Regions
// ---------------------------------------------------------------------------

/// The largest region number whose place in the table is a valid offset.
pub open spec fn region_addressable(region: int) -> bool {
    0x1A069 + region * 2 + 1 <= usize::MAX
}

/// What is said where the table of regions is cut off.
pub open spec fn no_region(region: int) -> Seq<char> {
    "region loc table out of ROM for region "@ + dec(region)
}

/// The resource number of a region.
pub open spec fn region_resource(rom: Seq<u8>, region: int) -> Result<u8, Fault> {
    if 0x1A069 + region * 2 + 1 < rom.len() {
        Ok(rom[0x1A069 + region * 2])
    } else {
        Err(plain(no_region(region)))
    }
}

/// Where the bank of a region starts.
pub open spec fn region_bank(rom: Seq<u8>, region: int) -> Result<int, Fault> {
    if 0x1A069 + region * 2 + 1 < rom.len() {
        Ok(rom[0x1A069 + region * 2 + 1] * 0x4000)
    } else {
        Err(plain(no_region(region)))
    }
}

/// Where the script pointers of a region stand: the resource table at the start of
/// its bank says so.
pub open spec fn region_table(rom: Seq<u8>, region: int) -> Result<int, Fault> {
    match (region_bank(rom, region), region_resource(rom, region)) {
        (Ok(bank_base), Ok(id)) => match word(rom, bank_base + 4 + id * 2) {
            Ok(ptr) => pointer_target(bank_base, ptr, 0x4000),
            Err(cause) => Err(cause.under("region "@ + dec(region) + " resource pointer"@)),
        },
        _ => Err(plain(no_region(region))),
    }
}

/// Where the pointer of a region's script stands.
pub open spec fn region_pointer_at(rom: Seq<u8>, region: int, index: int) -> Result<
    int,
    Fault,
> {
    if region >= 11 {
        Err(plain("region out of range: "@ + dec(region)))
    } else if index >= script_count(region) {
        Err(
            plain(
                "region "@ + dec(region) + " index out of range: "@ + dec(index) + " >= "@ + dec(
                    script_count(region),
                ),
            ),
        )
    } else {
        match region_table(rom, region) {
            Ok(table) => Ok(table + index * 2),
            Err(e) => Err(e),
        }
    }
}

/// The resource number of a region.
pub fn region_rsrc_id(rom: &[u8], region: usize) -> (res: Result<u8, PatchError>)
    requires
        region_addressable(region as int),
    ensures
        outcome(res) == region_resource(rom@, region as int),
{
    let loc: usize = REGION_LOC_TABLE + region * 2;
    if loc + 1 < rom.len() {
        Ok(rom[loc])
    } else {
        Err(text("region loc table out of ROM for region ").dec(region).fail())
    }
}

/// Where the bank of a region starts.
pub fn region_bank_base(rom: &[u8], region: usize) -> (res: Result<usize, PatchError>)
    requires
        region_addressable(region as int),
    ensures
        usize_outcome(res) == region_bank(rom@, region as int),
        res matches Ok(base) ==> base <= 255 * 0x4000,
{
    let loc: usize = REGION_LOC_TABLE + region * 2;
    if loc + 1 < rom.len() {
        Ok(rom[loc + 1] as usize * BANK_SIZE)
    } else {
        Err(text("region loc table out of ROM for region ").dec(region).fail())
    }
}

/// Where the bank of a region starts.
pub fn region_bank_base_for_region(rom: &[u8], region: usize) -> (res: Result<usize, PatchError>)
    requires
        region_addressable(region as int),
    ensures
        usize_outcome(res) == region_bank(rom@, region as int),
        res matches Ok(base) ==> base <= 255 * 0x4000,
{
    region_bank_base(rom, region)
}

/// Where the script pointers of a region stand.
pub fn region_table_addr(rom: &[u8], region: usize) -> (res: Result<usize, PatchError>)
    requires
        region_addressable(region as int),
    ensures
        usize_outcome(res) == region_table(rom@, region as int),
        res matches Ok(table) ==> table <= 255 * 0x4000 + 0xBFFF,
{
    let bank_base: usize = match region_bank_base(rom, region) {
        Ok(base) => base,
        Err(e) => {
            return Err(e);
        },
    };
    let rsrc_id: u8 = match region_rsrc_id(rom, region) {
        Ok(id) => id,
        Err(e) => {
            return Err(e);
        },
    };
    match read_u16_le(rom, bank_base + 4 + rsrc_id as usize * 2) {
        Ok(ptr) => slot_pointer_to_physical(bank_base, ptr, SLOT1_BASE),
        Err(cause) => Err(text("region ").dec(region).lit(" resource pointer").fail_after(cause)),
    }
}

/// Where the pointer of a region's script stands.
pub fn region_pointer_offset(rom: &[u8], region: usize, index: usize) -> (res: Result<
    usize,
    PatchError,
>)
    ensures
        usize_outcome(res) == region_pointer_at(rom@, region as int, index as int),
        res matches Ok(at) ==> at <= 0x50_0000,
{
    if region >= REGION_COUNT {
        return Err(text("region out of range: ").dec(region).fail());
    }
    let entries: usize = region_string_count(region);
    if index >= entries {
        return Err(
            text("region ").dec(region).lit(" index out of range: ").dec(index).lit(" >= ").dec(
                entries,
            ).fail(),
        );
    }
    match region_table_addr(rom, region) {
        Ok(table) => Ok(table + index * 2),
        Err(e) => Err(e),
    }
}

/// The pointer to a region's script at a ROM offset.
pub open spec fn region_pointer_to(rom: Seq<u8>, region: int, offset: int) -> Result<
    int,
    Fault,
> {
    match region_bank(rom, region) {
        Ok(bank_base) => pointer_to(bank_base, offset, 0x4000),
        Err(e) => Err(e),
    }
}

/// The pointer to a region's script at a ROM offset.
pub fn region_pointer_for_physical(rom: &[u8], region: usize, offset: usize) -> (res: Result<
    u16,
    PatchError,
>)
    requires
        region_addressable(region as int),
    ensures
        u16_outcome(res) == region_pointer_to(rom@, region as int, offset as int),
{
    match region_bank_base(rom, region) {
        Ok(bank_base) => physical_to_slot_pointer(bank_base, offset, SLOT1_BASE),
        Err(e) => Err(e),
    }
}

/// The longest of some runs; the first of them where several are equally long.
pub open spec fn longest_run(list: Seq<(int, int)>) -> Option<(int, int)>
    decreases list.len(),
{
    if list.len() == 0 {
        None
    } else {
        match longest_run(list.drop_last()) {
            Some(best) if list.last().1 - list.last().0 <= best.1 - best.0 => Some(best),
            _ => Some(list.last()),
        }
    }
}

/// The longest run of `0xFF` between `start` and `end`, as far as there are bytes.
pub open spec fn largest_ff_run(data: Seq<u8>, start: int, end: int) -> Option<(int, int)> {
    let to = if end < data.len() {
        end
    } else {
        data.len() as int
    };
    let from = if start < to {
        start
    } else {
        to
    };
    let window = data.subrange(from, to);
    match longest_run(runs(has_value(window, 0xFF), to - from)) {
        Some(r) => Some((from + r.0, from + r.1)),
        None => None,
    }
}

/// The longest run of `0xFF` between `start` and `end`, as far as there are bytes;
/// the first of them where several are equally long.
pub fn find_largest_ff_run(data: &[u8], start: usize, end: usize) -> (r: Option<(usize, usize)>)
    ensures
        match r {
            Some(run) => largest_ff_run(data@, start as int, end as int) == Some(
                (run.0 as int, run.1 as int),
            ) && run.0 < run.1 <= data@.len(),
            None => largest_ff_run(data@, start as int, end as int) is None,
        },
{
    let size: usize = data.len();
    let to: usize = if end < size {
        end
    } else {
        size
    };
    let from: usize = if start < to {
        start
    } else {
        to
    };
    let window = slice_subrange(data, from, to);
    let list = value_runs(window, 0xFF);
    let ghost all = run_views(list@);
    proof {
        lemma_runs_shape(has_value(window@, 0xFF), window@.len() as int);
    }
    let mut best: Option<(usize, usize)> = None;
    let mut k: usize = 0;
    while k < list.len()
        invariant
            k <= list@.len(),
            all == run_views(list@),
            forall|i: int|
                0 <= i < all.len() ==> 0 <= (#[trigger] all[i]).0 && all[i].0 < all[i].1
                    && all[i].1 <= to - from,
            match best {
                Some(b) => longest_run(all.take(k as int)) == Some((b.0 as int, b.1 as int)) && b.0
                    < b.1 <= to - from,
                None => longest_run(all.take(k as int)) is None,
            },
        decreases list@.len() - k,
    {
        proof {
            assert(all.take(k + 1).drop_last() =~= all.take(k as int));
            assert(all.take(k + 1).last() == all[k as int]);
        }
        match best {
            Some(b) => {
                if list[k].1 - list[k].0 > b.1 - b.0 {
                    best = Some(list[k]);
                }
            },
            None => {
                best = Some(list[k]);
            },
        }
        k += 1;
    }
    proof {
        assert(all.take(k as int) =~= all);
    }
    match best {
        Some(b) => Some((from + b.0, from + b.1)),
        None => None,
    }
}

/// Where relocated scripts of a region start.
pub open spec fn region_relocation(rom: Seq<u8>, region: int) -> Result<int, Fault> {
    match region_bank(rom, region) {
        Ok(bank_base) => match largest_ff_run(rom, bank_base, bank_base + 0x4000) {
            Some(run) => Ok(run.0),
            None => Err(plain("region "@ + dec(region) + " bank has no 0xFF relocation run"@)),
        },
        Err(e) => Err(e),
    }
}

/// Where relocated scripts of a region start: at the longest free run of its bank.
pub fn region_relocation_start(rom: &[u8], region: usize) -> (res: Result<usize, PatchError>)
    requires
        region_addressable(region as int),
    ensures
        usize_outcome(res) == region_relocation(rom@, region as int),
{
    let bank_base: usize = match region_bank_base(rom, region) {
        Ok(base) => base,
        Err(e) => {
            return Err(e);
        },
    };
    match find_largest_ff_run(rom, bank_base, bank_base + BANK_SIZE) {
        Some(run) => Ok(run.0),
        None => Err(text("region ").dec(region).lit(" bank has no 0xFF relocation run").fail()),
    }
}

/// The script pointers of a region, the first `n` of them.
pub open spec fn region_pointers(rom: Seq<u8>, region: int, n: int) -> Result<
    Seq<int>,
    Fault,
>
    decreases n,
{
    match region_table(rom, region) {
        Err(e) => Err(e),
        Ok(table) => if n <= 0 {
            Ok(Seq::empty())
        } else {
            match region_pointers(rom, region, n - 1) {
                Err(e) => Err(e),
                Ok(list) => match word(rom, table + (n - 1) * 2) {
                    Ok(ptr) => Ok(list.push(ptr)),
                    Err(cause) => Err(cause.under(
                        "region "@ + dec(region) + " 원본 포인터 idx "@ + dec(n - 1),
                    )),
                },
            }
        },
    }
}

/// The models of pointers.
pub open spec fn pointer_views(list: Seq<u16>) -> Seq<int> {
    Seq::new(list.len(), |i: int| list[i] as int)
}

/// The script pointers of a region as they stand in the ROM.
pub fn region_original_pointers(rom: &[u8], region: usize) -> (res: Result<Vec<u16>, PatchError>)
    requires
        region < 11,
    ensures
        match res {
            Ok(list) => region_pointers(rom@, region as int, script_count(region as int)) == Ok::<
                Seq<int>,
                Fault,
            >(pointer_views(list@)) && list@.len() == script_count(region as int),
            Err(e) => region_pointers(rom@, region as int, script_count(region as int)) == Err::<
                Seq<int>,
                Fault,
            >(e@),
        },
{
    let count: usize = region_string_count(region);
    let table: usize = match region_table_addr(rom, region) {
        Ok(table) => table,
        Err(e) => {
            return Err(e);
        },
    };
    let mut list: Vec<u16> = Vec::new();
    let mut i: usize = 0;
    proof {
        assert(pointer_views(list@) =~= Seq::<int>::empty());
    }
    while i < count
        invariant
            i <= count <= 0x9F,
            region < 11,
            count == script_count(region as int),
            region_table(rom@, region as int) == Ok::<int, Fault>(table as int),
            table <= 255 * 0x4000 + 0xBFFF,
            list@.len() == i,
            region_pointers(rom@, region as int, i as int) == Ok::<Seq<int>, Fault>(
                pointer_views(list@),
            ),
        decreases count - i,
    {
        match read_u16_le(rom, table + i * 2) {
            Ok(ptr) => {
                let ghost was = pointer_views(list@);
                list.push(ptr);
                proof {
                    assert(pointer_views(list@) =~= was.push(ptr as int));
                }
            },
            Err(cause) => {
                proof {
                    lemma_pointers_fail(rom@, region as int, i + 1, count as int);
                }
                return Err(
                    text("region ").dec(region).lit(" 원본 포인터 idx ").dec(i).fail_after(cause),
                );
            },
        }
        i += 1;
    }
    Ok(list)
}

proof fn lemma_pointers_fail(rom: Seq<u8>, region: int, k: int, n: int)
    requires
        k <= n,
        region_pointers(rom, region, k) is Err,
        region_table(rom, region) is Ok,
    ensures
        region_pointers(rom, region, n) == region_pointers(rom, region, k),
    decreases n - k,
{
    if k < n {
        lemma_pointers_fail(rom, region, k, n - 1);
        if n <= 0 {
            assert(k < 0);
        }
    }
}

} // verus!
