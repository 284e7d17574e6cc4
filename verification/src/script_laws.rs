//! What files of extracted scripts and rebuilt tables of scripts promise.
use vstd::prelude::*;
use crate::bytes::word_at;
use crate::error::{Fault, PatchError};
use crate::number_laws::law_addresses_read_back;
use crate::order::{is_stable_order, lemma_order_covers};
use crate::runtime_probe::address_value;
use crate::script::{
    bytes_of, entries_fault, entry_fault, entry_ref_views, entry_views, extract_fault, kind_count,
    EntryView, ExtractFile, ScriptEntry, ScriptKind, TranslationStageEntry,
};
use crate::script_bins::{
    arranged, bin_fault, bin_starts, index_keys, is_selection, law_selection_is_numbered,
    repack_bin, repack_parts, selected, slice_fault, slices_fault, Selection,
};
use crate::text::dec;

verus! {

// ---------------------------------------------------------------------------
// Extracts
// ---------------------------------------------------------------------------

/// A script agrees with a ROM exactly if its bytes can be read, are as many as it says, and
/// stand in the ROM where it says; one without bytes at offset zero stands nowhere.
pub proof fn law_accepted_script(e: EntryView, rom: Seq<u8>)
    requires
        0 <= e.offset,
        rom.len() <= usize::MAX,
    ensures
        entry_fault(e, rom) is None <==> {
            &&& bytes_of(e) is Ok
            &&& e.len == bytes_of(e)->Ok_0.len()
            &&& (e.offset == 0 && e.len == 0) || (e.offset + e.len <= rom.len() && forall|i: int|
                0 <= i < e.len ==> rom[e.offset + i] == #[trigger] bytes_of(e)->Ok_0[i])
        },
{
    if bytes_of(e) is Ok && e.len == bytes_of(e)->Ok_0.len() && e.offset + e.len <= rom.len() {
        let bytes = bytes_of(e)->Ok_0;
        let found = rom.subrange(e.offset, e.offset + e.len);
        if found == bytes {
            assert forall|i: int| 0 <= i < e.len implies rom[e.offset + i] == #[trigger] bytes[i] by {
                assert(found[i] == rom[e.offset + i]);
            }
        }
        if forall|i: int| 0 <= i < e.len ==> rom[e.offset + i] == #[trigger] bytes[i] {
            assert forall|i: int| 0 <= i < e.len implies #[trigger] found[i] == bytes[i] by {
                assert(rom[e.offset + i] == bytes[i]);
            }
            assert(found =~= bytes);
        }
    }
}

/// Scripts agree with a ROM exactly if each of them does.
pub proof fn law_accepted_scripts(entries: Seq<EntryView>, rom: Seq<u8>)
    ensures
        entries_fault(entries, rom) is None <==> forall|i: int|
            0 <= i < entries.len() ==> entry_fault(#[trigger] entries[i], rom) is None,
    decreases entries.len(),
{
    if entries.len() > 0 {
        let front = entries.drop_last();
        law_accepted_scripts(front, rom);
        assert forall|i: int| 0 <= i < front.len() implies front[i] == #[trigger] entries[i] by {}
        if entries_fault(front, rom) is Some {
            let i = choose|i: int|
                0 <= i < front.len() && entry_fault(#[trigger] front[i], rom) is Some;
            assert(entry_fault(entries[i], rom) is Some);
        } else {
            assert forall|i: int| 0 <= i < front.len() implies entry_fault(
                #[trigger] entries[i],
                rom,
            ) is None by {
                assert(entry_fault(front[i], rom) is None);
            }
            assert(entries[entries.len() - 1] == entries.last());
        }
    }
}

/// The scripts of a kind.
pub open spec fn of_kind(entries: Seq<EntryView>, kind: ScriptKind) -> Set<int> {
    Set::new(|i: int| 0 <= i < entries.len() && entries[i].kind == kind)
}

/// Scripts are counted by their kind.
pub proof fn law_kinds_counted(entries: Seq<EntryView>, kind: ScriptKind)
    ensures
        of_kind(entries, kind).finite(),
        kind_count(entries, kind) == of_kind(entries, kind).len(),
    decreases entries.len(),
{
    let all = of_kind(entries, kind);
    if entries.len() == 0 {
        assert(all =~= Set::empty());
    } else {
        let front = entries.drop_last();
        law_kinds_counted(front, kind);
        if entries.last().kind == kind {
            assert(all =~= of_kind(front, kind).insert(entries.len() - 1));
        } else {
            assert(all =~= of_kind(front, kind));
        }
    }
}

/// A file of extracted scripts is read exactly if it is in the known format and counts what
/// it holds.
pub proof fn law_accepted_extract(file: ExtractFile)
    ensures
        extract_fault(file) is None <==> {
            let entries = entry_views(file.entries@);
            &&& file.format@ == "madoua-text-extract-v1"@
            &&& file.counts.total == entries.len()
            &&& file.counts.regions == of_kind(entries, ScriptKind::Region).len()
            &&& file.counts.cutscenes == of_kind(entries, ScriptKind::Cutscene).len()
            &&& file.counts.shop == of_kind(entries, ScriptKind::Shop).len()
        },
{
    let entries = entry_views(file.entries@);
    law_kinds_counted(entries, ScriptKind::Region);
    law_kinds_counted(entries, ScriptKind::Cutscene);
    law_kinds_counted(entries, ScriptKind::Shop);
}

/// A script starts out untranslated: without a text or notes, and with what was extracted.
/// Its offset is written in base sixteen and reads back.
pub proof fn law_fresh_script(s: TranslationStageEntry, e: EntryView)
    requires
        s.starts_from(e),
        0 <= e.offset <= 0xFFFF_FFFF,
    ensures
        s.status@ == "untranslated"@,
        s.ko@.len() == 0,
        s.notes@.len() == 0,
        address_value(s.offset@) == Ok::<int, Fault>(e.offset),
        s.id@ == e.id,
        s.jp@ == e.jp_preview,
        s.bytes_hex@ == e.bytes_hex,
        s.source_crc32@ == e.source_crc32,
        s.index == e.index,
        s.len == e.len,
        s.kind == e.kind,
{
    reveal_strlit("");
    law_addresses_read_back(e.offset, 5);
}

// ---------------------------------------------------------------------------
// Selections
// ---------------------------------------------------------------------------

/// Whether a selection asks for a script: it is of the kind, and of the region where one is
/// named.
pub open spec fn is_asked_for(by: Selection, e: EntryView) -> bool {
    &&& e.kind == by.kind
    &&& by.region is Some ==> e.region is Some && e.region->0 == by.region->0
}

proof fn lemma_selected(entries: Seq<EntryView>, by: Selection)
    ensures
        forall|i: int|
            0 <= i < entries.len() && is_asked_for(by, #[trigger] entries[i]) ==> selected(
                entries,
                by,
            ).contains(entries[i]),
        forall|k: int|
            0 <= k < selected(entries, by).len() ==> is_asked_for(
                by,
                #[trigger] selected(entries, by)[k],
            ) && entries.contains(selected(entries, by)[k]),
    decreases entries.len(),
{
    if entries.len() > 0 {
        let front = entries.drop_last();
        let before = selected(front, by);
        let all = selected(entries, by);
        lemma_selected(front, by);
        assert forall|i: int| 0 <= i < entries.len() && is_asked_for(by, #[trigger] entries[i])
            implies all.contains(entries[i]) by {
            if i < front.len() {
                assert(front[i] == entries[i]);
                let k = choose|k: int| 0 <= k < before.len() && before[k] == entries[i];
                assert(all[k] == entries[i]);
            } else {
                assert(all[before.len() as int] == entries[i]);
            }
        }
        assert forall|k: int| 0 <= k < all.len() implies is_asked_for(by, #[trigger] all[k])
            && entries.contains(all[k]) by {
            if k < before.len() {
                assert(all[k] == before[k]);
                let i = choose|i: int| 0 <= i < front.len() && front[i] == before[k];
                assert(entries[i] == all[k]);
            } else {
                assert(entries[entries.len() - 1] == all[k]);
            }
        }
    }
}

/// A selection has as many scripts as it should, each at the place of its number; they are
/// those that were asked for, and all of them.
pub proof fn law_selection(
    found: Vec<&ScriptEntry>,
    entries: Seq<EntryView>,
    by: Selection,
    expected: int,
)
    requires
        is_selection(Ok::<Vec<&ScriptEntry>, PatchError>(found), entries, by, expected),
    ensures
        ({
            let list = entry_ref_views(found@);
            &&& list.len() == expected
            &&& forall|i: int|
                0 <= i < list.len() ==> (#[trigger] list[i]).index == i && is_asked_for(by, list[i])
                    && entries.contains(list[i])
            &&& forall|i: int|
                0 <= i < entries.len() && is_asked_for(by, #[trigger] entries[i]) ==> list.contains(
                    entries[i],
                )
        }),
{
    let chosen = selected(entries, by);
    let list = entry_ref_views(found@);
    let order = choose|order: Seq<usize>|
        {
            let arr = arranged(chosen, order);
            &&& #[trigger] is_stable_order(index_keys(chosen), order)
            &&& crate::script_bins::numbering_fault(
                arr,
                by.title_spec(),
                expected,
                arr.len() as int,
            ) is None
            &&& list == arr
        };
    lemma_selected(entries, by);
    law_selection_is_numbered(list, by.title_spec(), expected, list.len() as int);
    assert forall|i: int| 0 <= i < list.len() implies (#[trigger] list[i]).index == i
        && is_asked_for(by, list[i]) && entries.contains(list[i]) by {
        assert(list[i] == chosen[order[i] as int]);
    }
    assert forall|i: int|
        0 <= i < entries.len() && is_asked_for(by, #[trigger] entries[i]) implies list.contains(
        entries[i],
    ) by {
        let p = choose|p: int| 0 <= p < chosen.len() && chosen[p] == entries[i];
        let q = lemma_order_covers(index_keys(chosen), order, p);
        assert(list[q] == entries[i]);
    }
}

/// A selection is titled by its region where it has one, and by its kind otherwise.
pub proof fn law_titles(by: Selection)
    ensures
        by.region matches Some(r) ==> by.title_spec() == "region "@ + dec(r as int),
        by.region is None && by.kind == ScriptKind::Region ==> by.title_spec() == "Region"@,
        by.region is None && by.kind == ScriptKind::Cutscene ==> by.title_spec() == "Cutscene"@,
        by.region is None && by.kind == ScriptKind::Shop ==> by.title_spec() == "Shop"@,
{
}

// ---------------------------------------------------------------------------
// Tables of scripts
// ---------------------------------------------------------------------------

/// Where script `k` of a table starts: where its pointer leads, for a table that shows at
/// `base`; what would be the next one starts where the table ends.
pub open spec fn start_of(bin: Seq<u8>, base: int, n: int, k: int) -> int {
    if k < n {
        bin[2 * k] + 256 * bin[2 * k + 1] - base
    } else {
        bin.len() as int
    }
}

/// Whether a table holds a script: its pointer leads into the table, and from there to the
/// start of the next one stand its bytes.
pub open spec fn holds_script(bin: Seq<u8>, entries: Seq<EntryView>, base: int, k: int) -> bool {
    let n = entries.len() as int;
    let from = start_of(bin, base, n, k);
    let to = start_of(bin, base, n, k + 1);
    &&& from <= to <= bin.len()
    &&& bytes_of(entries[k]) is Ok
    &&& bin.subrange(from, to) == bytes_of(entries[k])->Ok_0
}

proof fn lemma_starts(bin: Seq<u8>, base: int, n: int, m: int)
    requires
        0 <= m <= n,
    ensures
        bin_starts(bin, base, m) is Ok <==> forall|k: int|
            0 <= k < m ==> #[trigger] start_of(bin, base, n, k) >= 0,
        bin_starts(bin, base, m) matches Ok(list) ==> list.len() == m && forall|k: int|
            0 <= k < m ==> list[k] == #[trigger] start_of(bin, base, n, k),
    decreases m,
{
    if m > 0 {
        lemma_starts(bin, base, n, m - 1);
        let s = start_of(bin, base, n, m - 1);
        assert(word_at(bin, 2 * (m - 1)) - base == s);
        if bin_starts(bin, base, m) is Ok {
            let list = bin_starts(bin, base, m)->Ok_0;
            let before = bin_starts(bin, base, m - 1)->Ok_0;
            assert(list == before.push(s));
        }
    }
}

proof fn lemma_slices(bin: Seq<u8>, entries: Seq<EntryView>, base: int, starts: Seq<int>, m: int)
    requires
        0 <= m <= entries.len(),
        starts.len() == entries.len(),
        forall|k: int|
            0 <= k < entries.len() ==> starts[k] == #[trigger] start_of(
                bin,
                base,
                entries.len() as int,
                k,
            ),
    ensures
        slices_fault(bin, entries, starts, m) is None <==> forall|k: int|
            0 <= k < m ==> #[trigger] holds_script(bin, entries, base, k),
    decreases m,
{
    if m > 0 {
        lemma_slices(bin, entries, base, starts, m - 1);
        let n = entries.len() as int;
        assert(starts[m - 1] == start_of(bin, base, n, m - 1));
        if m < n {
            assert(starts[m] == start_of(bin, base, n, m));
        }
        assert(slice_fault(bin, entries, starts, m - 1) is None <==> holds_script(
            bin,
            entries,
            base,
            m - 1,
        ));
    }
}

/// A table of scripts is accepted exactly if it has room for its pointers, none of them
/// leads before it, and it holds each script.
pub proof fn law_accepted_table(bin: Seq<u8>, entries: Seq<EntryView>, base: int)
    ensures
        bin_fault(bin, entries, base) is None <==> {
            &&& bin.len() >= 2 * entries.len()
            &&& forall|k: int|
                0 <= k < entries.len() ==> #[trigger] start_of(
                    bin,
                    base,
                    entries.len() as int,
                    k,
                ) >= 0
            &&& forall|k: int|
                0 <= k < entries.len() ==> #[trigger] holds_script(bin, entries, base, k)
        },
{
    let n = entries.len() as int;
    lemma_starts(bin, base, n, n);
    if bin_starts(bin, base, n) is Ok {
        lemma_slices(bin, entries, base, bin_starts(bin, base, n)->Ok_0, n);
    }
}

/// The bytes of the first texts together.
pub open spec fn bytes_before(strings: Seq<Seq<u8>>, n: int) -> int
    decreases n,
{
    if n <= 0 {
        0
    } else {
        bytes_before(strings, n - 1) + strings[n - 1].len()
    }
}

/// Whether a pointer leads into the first slot.
pub open spec fn in_first_slot(ptr: int) -> bool {
    0x4000 <= ptr < 0x8000
}

proof fn lemma_repack(strings: Seq<Seq<u8>>, orig: Seq<int>, first: int, n: int)
    requires
        0 <= n <= strings.len(),
    ensures
        repack_parts(strings, orig, first, n) is Ok <==> forall|k: int|
            0 <= k < n ==> (#[trigger] strings[k].len() == 0 ==> !in_first_slot(orig[k])) && (
            strings[k].len() > 0 ==> first + bytes_before(strings, k) <= 0xFFFF),
        repack_parts(strings, orig, first, n) matches Ok(p) ==> p.1.len() == bytes_before(
            strings,
            n,
        ),
    decreases n,
{
    if n > 0 {
        lemma_repack(strings, orig, first, n - 1);
        let ok = forall|k: int|
            0 <= k < n ==> (#[trigger] strings[k].len() == 0 ==> !in_first_slot(orig[k])) && (
            strings[k].len() > 0 ==> first + bytes_before(strings, k) <= 0xFFFF);
        if ok {
            assert(strings[n - 1].len() == 0 ==> !in_first_slot(orig[n - 1]));
        }
        if repack_parts(strings, orig, first, n) is Ok {
            assert forall|k: int| 0 <= k < n implies (#[trigger] strings[k].len() == 0
                ==> !in_first_slot(orig[k])) && (strings[k].len() > 0 ==> first + bytes_before(
                strings,
                k,
            ) <= 0xFFFF) by {}
        }
    }
}

/// Scripts of a region can be packed anew exactly if there is an old pointer for each, the
/// texts start within the reach of a pointer, and no script without a text has an old
/// pointer into the first slot, where it would be lost.
pub proof fn law_repackable(strings: Seq<Seq<u8>>, orig: Seq<int>, table_offset: int)
    ensures
        repack_bin(strings, orig, table_offset) is Ok <==> {
            &&& strings.len() == orig.len()
            &&& forall|k: int|
                0 <= k < strings.len() ==> (#[trigger] strings[k].len() == 0 ==> !in_first_slot(
                    orig[k],
                )) && (strings[k].len() > 0 ==> 0x4000 + table_offset + 2 * strings.len()
                    + bytes_before(strings, k) < 0x1_0000)
        },
{
    lemma_repack(
        strings,
        orig,
        0x4000 + table_offset + 2 * strings.len(),
        strings.len() as int,
    );
}

} // verus!
