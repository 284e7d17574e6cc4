//! Which scripts an extraction finds, and where.
use vstd::prelude::*;
use crate::bytes::word_at;
use crate::digest::crc32_of;
use crate::jp_text::preview;
use crate::pointers::script_count;
use crate::script::{
    all_entries, bytes_of, cutscene_entry, cutscene_list, kind_count, law_extracted_bytes,
    region_entry, region_list, regions_list, script_at, script_end, shop_entry, shop_list,
    shop_offset, EntryView, ScriptKind,
};
use crate::text::{dec, dec_pad, hex};

verus! {

// ---------------------------------------------------------------------------
// Scripts
// ---------------------------------------------------------------------------

proof fn lemma_no_end_before(rom: Seq<u8>, pos: int, i: int)
    requires
        0 <= pos <= i,
        script_end(rom, pos) is Ok,
        i < script_end(rom, pos)->Ok_0 - 1,
        rom[i] == 0x00,
    ensures
        i > pos,
        rom[i - 1] == 0xFE,
    decreases i - pos,
{
    if rom[pos] == 0xFE {
        if i > pos + 1 {
            lemma_no_end_before(rom, pos + 2, i);
        }
    } else {
        if i > pos {
            lemma_no_end_before(rom, pos + 1, i);
        }
    }
}

proof fn lemma_end_within(rom: Seq<u8>, pos: int)
    requires
        0 <= pos,
        script_end(rom, pos) is Ok,
    ensures
        pos < script_end(rom, pos)->Ok_0 <= rom.len(),
    decreases rom.len() - pos,
{
    if rom[pos] == 0xFE {
        lemma_end_within(rom, pos + 2);
    } else if rom[pos] != 0x00 {
        lemma_end_within(rom, pos + 1);
    }
}

/// A script is read up to its first end code: a zero byte before the end is the operand of
/// the flags code before it.
pub proof fn law_script_stops_at_its_end(rom: Seq<u8>, offset: int, i: int)
    requires
        0 <= offset,
        script_at(rom, offset) is Ok,
        0 <= i < script_at(rom, offset)->Ok_0.len() - 1,
        script_at(rom, offset)->Ok_0[i] == 0x00,
    ensures
        i > 0,
        script_at(rom, offset)->Ok_0[i - 1] == 0xFE,
        script_at(rom, offset)->Ok_0 == rom.subrange(
            offset,
            offset + script_at(rom, offset)->Ok_0.len(),
        ),
{
    lemma_end_within(rom, offset);
    lemma_no_end_before(rom, offset, offset + i);
}

// ---------------------------------------------------------------------------
// The list
// ---------------------------------------------------------------------------

/// How many scripts the regions have: 782 in all.
pub proof fn law_region_counts(region: int)
    requires
        0 <= region < 11,
    ensures
        script_count(region) == [
            115usize,
            53usize,
            118usize,
            44usize,
            15usize,
            22usize,
            159usize,
            124usize,
            55usize,
            72usize,
            5usize,
        ]@[region],
        region_start(0) == 0,
        region_start(11) == 782,
{
    reveal_with_fuel(region_start, 12);
}

/// Where the scripts of a region start in the list: behind those of the regions before it.
pub open spec fn region_start(region: int) -> int
    decreases region,
{
    if region <= 0 {
        0
    } else {
        region_start(region - 1) + script_count(region - 1)
    }
}

proof fn lemma_region_list(rom: Seq<u8>, region: int, n: int, i: int)
    requires
        0 <= n,
        region_list(rom, region, n) is Ok,
    ensures
        region_list(rom, region, n)->Ok_0.len() == n,
        0 <= i < n ==> region_entry(rom, region, i) is Ok && region_list(rom, region, n)->Ok_0[i]
            == region_entry(rom, region, i)->Ok_0,
    decreases n,
{
    if n > 0 {
        lemma_region_list(rom, region, n - 1, i);
    }
}

proof fn lemma_regions_list(rom: Seq<u8>, n: int, region: int, i: int)
    requires
        0 <= n <= 11,
        regions_list(rom, n) is Ok,
    ensures
        regions_list(rom, n)->Ok_0.len() == region_start(n),
        0 <= region < n && 0 <= i < script_count(region) ==> {
            &&& region_entry(rom, region, i) is Ok
            &&& region_start(region) + i < region_start(n)
            &&& 0 <= region_start(region)
            &&& regions_list(rom, n)->Ok_0[region_start(region) + i] == region_entry(
                rom,
                region,
                i,
            )->Ok_0
        },
    decreases n,
{
    if n > 0 {
        lemma_regions_list(rom, n - 1, region, i);
        lemma_region_list(rom, n - 1, script_count(n - 1), i);
        let front = regions_list(rom, n - 1)->Ok_0;
        let own = region_list(rom, n - 1, script_count(n - 1))->Ok_0;
        let all = regions_list(rom, n)->Ok_0;
        assert(all == front + own);
        if 0 <= region < n && 0 <= i < script_count(region) {
            if region < n - 1 {
                assert(all[region_start(region) + i] == front[region_start(region) + i]);
            } else {
                assert(all[front.len() + i] == own[i]);
            }
        }
    }
}

proof fn lemma_cutscene_list(rom: Seq<u8>, n: int, i: int)
    requires
        0 <= n,
        cutscene_list(rom, n) is Ok,
    ensures
        cutscene_list(rom, n)->Ok_0.len() == n,
        0 <= i < n ==> cutscene_entry(rom, i) is Ok && cutscene_list(rom, n)->Ok_0[i]
            == cutscene_entry(rom, i)->Ok_0,
    decreases n,
{
    if n > 0 {
        lemma_cutscene_list(rom, n - 1, i);
    }
}

proof fn lemma_shop_list(rom: Seq<u8>, n: int, i: int)
    requires
        0 <= n,
        shop_list(rom, n) is Ok,
    ensures
        shop_list(rom, n)->Ok_0.len() == n,
        0 <= i < n ==> shop_entry(rom, i, shop_offset(rom, i)) is Ok && shop_list(rom, n)->Ok_0[i]
            == shop_entry(rom, i, shop_offset(rom, i))->Ok_0,
    decreases n,
{
    if n > 0 {
        lemma_shop_list(rom, n - 1, i);
    }
}

proof fn lemma_list(rom: Seq<u8>)
    requires
        all_entries(rom) is Ok,
    ensures
        regions_list(rom, 11) is Ok,
        cutscene_list(rom, 0xA8) is Ok,
        shop_list(rom, 12) is Ok,
        regions_list(rom, 11)->Ok_0.len() == 782,
        cutscene_list(rom, 0xA8)->Ok_0.len() == 168,
        shop_list(rom, 12)->Ok_0.len() == 12,
        all_entries(rom)->Ok_0 == regions_list(rom, 11)->Ok_0 + cutscene_list(rom, 0xA8)->Ok_0
            + shop_list(rom, 12)->Ok_0,
{
    lemma_regions_list(rom, 11, 0, 0);
    lemma_cutscene_list(rom, 0xA8, 0);
    lemma_shop_list(rom, 12, 0);
    law_region_counts(0);
}

/// Where the bank of a region starts: the location table has its number.
pub open spec fn bank_of(rom: Seq<u8>, region: int) -> int {
    rom[0x1A069 + 2 * region + 1] * 0x4000
}

/// Where the pointers of a region stand: the resource table at the start of its bank has
/// their place, as seen through slot 1.
pub open spec fn table_of(rom: Seq<u8>, region: int) -> int {
    bank_of(rom, region) + (word_at(
        rom,
        bank_of(rom, region) + 4 + rom[0x1A069 + 2 * region] * 2,
    ) - 0x4000)
}

/// An extraction finds the scripts of the eleven regions, of the 168 cutscenes and of the
/// shop, in this order and under their names, 962 in all. The script of a region stands
/// where the region's pointer leads through slot 1, that of a cutscene where its pointer
/// leads through slot 2; the shop scripts follow one another from a fixed place on.
pub proof fn law_extracted_scripts(rom: Seq<u8>, region: int, i: int)
    requires
        rom.len() <= usize::MAX,
        all_entries(rom) is Ok,
    ensures
        all_entries(rom)->Ok_0.len() == 962,
        0 <= region < 11 && 0 <= i < script_count(region) ==> {
            let e = all_entries(rom)->Ok_0[region_start(region) + i];
            &&& e.kind == ScriptKind::Region && e.region == Some(region) && e.index == i
            &&& e.slot == 1
            &&& e.id == "region/"@ + dec(region) + "/"@ + hex(i, 3)
            &&& if region == 3 && i == 37 {
                e.offset == 0 && e.len == 0
            } else {
                e.offset == bank_of(rom, region) + (word_at(rom, table_of(rom, region) + 2 * i)
                    - 0x4000)
            }
        },
        0 <= i < 168 ==> {
            let e = all_entries(rom)->Ok_0[782 + i];
            &&& e.kind == ScriptKind::Cutscene && e.region is None && e.index == i && e.slot == 2
            &&& e.id == "cutscene/"@ + hex(i, 3)
            &&& e.offset == 0x18000 + (word_at(rom, 0x1B162 + 2 * i) - 0x8000)
        },
        0 <= i < 12 ==> {
            let e = all_entries(rom)->Ok_0[950 + i];
            &&& e.kind == ScriptKind::Shop && e.region is None && e.index == i && e.slot == 2
            &&& e.id == "shop/"@ + dec_pad(i, 2)
            &&& i == 0 ==> e.offset == 0x25BB7
            &&& i > 0 ==> e.offset == all_entries(rom)->Ok_0[950 + i - 1].offset + all_entries(
                rom,
            )->Ok_0[950 + i - 1].len
        },
{
    lemma_list(rom);
    let a = regions_list(rom, 11)->Ok_0;
    let b = cutscene_list(rom, 0xA8)->Ok_0;
    let c = shop_list(rom, 12)->Ok_0;
    let all = all_entries(rom)->Ok_0;
    if 0 <= region < 11 && 0 <= i < script_count(region) {
        lemma_regions_list(rom, 11, region, i);
        assert(all[region_start(region) + i] == a[region_start(region) + i]);
    }
    if 0 <= i < 168 {
        lemma_cutscene_list(rom, 0xA8, i);
        assert(all[782 + i] == b[i]);
    }
    if 0 <= i < 12 {
        lemma_shop_list(rom, 12, i);
        assert(all[950 + i] == c[i]);
        if i > 0 {
            lemma_shop_list(rom, 12, i - 1);
            assert(all[950 + i - 1] == c[i - 1]);
        }
    }
}

proof fn lemma_entry_text(rom: Seq<u8>, k: int)
    requires
        rom.len() <= usize::MAX,
        all_entries(rom) is Ok,
        0 <= k < all_entries(rom)->Ok_0.len(),
    ensures
        ({
            let e = all_entries(rom)->Ok_0[k];
            exists|bytes: Seq<u8>|
                {
                    &&& e.bytes_hex == #[trigger] crate::hexbytes::hex_text(bytes)
                    &&& e.jp_preview == preview(bytes)
                    &&& e.source_crc32 == if bytes.len() == 0 {
                        Seq::empty()
                    } else {
                        hex(crc32_of(bytes) as int, 8)
                    }
                    &&& e.ko.len() == 0
                    &&& !e.skip
                }
        }),
{
    lemma_list(rom);
    let a = regions_list(rom, 11)->Ok_0;
    let b = cutscene_list(rom, 0xA8)->Ok_0;
    let c = shop_list(rom, 12)->Ok_0;
    let all = all_entries(rom)->Ok_0;
    let e = all[k];
    if k < 782 {
        assert(e == a[k]);
        law_region_counts(0);
        let (region, i) = lemma_region_of(11, k);
        lemma_regions_list(rom, 11, region, i);
        if region == 3 && i == 0x25 {
            assert(e.bytes_hex == crate::hexbytes::hex_text(Seq::empty()));
        } else {
            let bytes = script_at(rom, e.offset)->Ok_0;
            assert(e.bytes_hex == crate::hexbytes::hex_text(bytes));
        }
    } else if k < 950 {
        assert(e == b[k - 782]);
        lemma_cutscene_list(rom, 0xA8, k - 782);
        let bytes = script_at(rom, e.offset)->Ok_0;
        assert(e.bytes_hex == crate::hexbytes::hex_text(bytes));
    } else {
        assert(e == c[k - 950]);
        lemma_shop_list(rom, 12, k - 950);
        let bytes = script_at(rom, e.offset)->Ok_0;
        assert(e.bytes_hex == crate::hexbytes::hex_text(bytes));
    }
}

proof fn lemma_region_of(n: int, k: int) -> (place: (int, int))
    requires
        0 <= n <= 11,
        0 <= k < region_start(n),
    ensures
        0 <= place.0 < n,
        0 <= place.1 < script_count(place.0),
        k == region_start(place.0) + place.1,
    decreases n,
{
    if k >= region_start(n - 1) {
        (n - 1, k - region_start(n - 1))
    } else {
        lemma_region_of(n - 1, k)
    }
}

/// An extracted entry shows its bytes in readable form, carries their checksum, which is
/// left out for the empty one, and has no translation yet.
pub proof fn law_extracted_entry(rom: Seq<u8>, k: int)
    requires
        rom.len() <= usize::MAX,
        all_entries(rom) is Ok,
        0 <= k < all_entries(rom)->Ok_0.len(),
    ensures
        ({
            let e = all_entries(rom)->Ok_0[k];
            let bytes = rom.subrange(e.offset, e.offset + e.len);
            &&& e.jp_preview == preview(bytes)
            &&& e.len > 0 ==> e.source_crc32 == hex(crc32_of(bytes) as int, 8)
            &&& e.len == 0 ==> e.source_crc32.len() == 0
            &&& e.ko.len() == 0
            &&& !e.skip
        }),
{
    law_extracted_bytes(rom, k);
    lemma_entry_text(rom, k);
    let e = all_entries(rom)->Ok_0[k];
    let bytes = choose|bytes: Seq<u8>|
        {
            &&& e.bytes_hex == #[trigger] crate::hexbytes::hex_text(bytes)
            &&& e.jp_preview == preview(bytes)
            &&& e.source_crc32 == if bytes.len() == 0 {
                Seq::empty()
            } else {
                hex(crc32_of(bytes) as int, 8)
            }
            &&& e.ko.len() == 0
            &&& !e.skip
        };
    crate::hexbytes::law_hex_round_trip(bytes);
    assert(bytes_of(e) == Ok::<Seq<u8>, crate::error::Fault>(bytes));
}

proof fn lemma_kind_count(list: Seq<EntryView>, kind: ScriptKind, n: int, from: int, to: int)
    requires
        0 <= n <= list.len(),
        0 <= from <= to,
        forall|k: int| 0 <= k < list.len() ==> ((#[trigger] list[k]).kind == kind <==> from <= k
            < to),
    ensures
        kind_count(list.take(n), kind) == if n <= from {
            0
        } else if n <= to {
            n - from
        } else {
            to - from
        },
    decreases n,
{
    if n > 0 {
        let part = list.take(n);
        assert(part.drop_last() =~= list.take(n - 1));
        assert(part.last() == list[n - 1]);
        lemma_kind_count(list, kind, n - 1, from, to);
    }
}

/// An extraction counts 782 region scripts, 168 cutscene scripts and 12 shop scripts.
pub proof fn law_extracted_counts(rom: Seq<u8>)
    requires
        rom.len() <= usize::MAX,
        all_entries(rom) is Ok,
    ensures
        kind_count(all_entries(rom)->Ok_0, ScriptKind::Region) == 782,
        kind_count(all_entries(rom)->Ok_0, ScriptKind::Cutscene) == 168,
        kind_count(all_entries(rom)->Ok_0, ScriptKind::Shop) == 12,
{
    let all = all_entries(rom)->Ok_0;
    law_extracted_scripts(rom, 0, 0);
    law_region_counts(0);
    assert forall|k: int| 0 <= k < all.len() implies {
        &&& (#[trigger] all[k]).kind == ScriptKind::Region <==> k < 782
        &&& all[k].kind == ScriptKind::Cutscene <==> 782 <= k < 950
        &&& all[k].kind == ScriptKind::Shop <==> 950 <= k
    } by {
        if k < 782 {
            let (region, i) = lemma_region_of(11, k);
            law_extracted_scripts(rom, region, i);
        } else if k < 950 {
            law_extracted_scripts(rom, 0, k - 782);
        } else {
            law_extracted_scripts(rom, 0, k - 950);
        }
    }
    assert(all.take(962) =~= all);
    lemma_kind_count(all, ScriptKind::Region, 962, 0, 782);
    lemma_kind_count(all, ScriptKind::Cutscene, 962, 782, 950);
    lemma_kind_count(all, ScriptKind::Shop, 962, 950, 962);
}

} // verus!
