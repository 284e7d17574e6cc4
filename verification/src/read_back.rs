//! What a build has put in can be read back from it.
use vstd::prelude::*;
use crate::error::Fault;
use crate::build_rom::{
    build_chain, cutscene_strings, cutscene_table, cutscenes_repacked, cutscenes_written,
    entry_index, glyph_bank, glyph_cell, glyphs_installed, in_place_written,
    law_cutscenes_keep_to_their_stretches, law_glyph_stands_at_its_rank, lemma_cutscenes_sound,
    lemma_expect_sound, lemma_glyphs_sound, lemma_hook_sound, lemma_in_place_sound,
    lemma_labels_in_place_sound, lemma_labels_moved_sound, lemma_money_sound, lemma_region_sound,
    lemma_regions_sound, lemma_size_sound, lemma_ui_sound, lemma_written_sound, placing,
    region_image, region_repacked, region_strings, regions_repacked, string_for, Job, Texts,
};
use crate::build_ui::{block_fault, ui_chain};
use crate::bytes::{le16, word_at};
use crate::font::GlyphFont;
use crate::header::{law_checksum_round_trip, with_checksum};
use crate::lzss::{law_lossless, packed, unpack};
use crate::patching::{
    law_written_is_there, law_written_stays, lemma_after, lemma_after_itself, lemma_begin_sound,
    Progress,
};
use crate::pointers::{
    law_pointer_round_trip, pointer_target, pointer_to, region_bank, region_pointer_at,
    region_pointer_to, region_pointers, region_table, script_count, word,
};
use crate::poc::fresh;
use crate::rom::{
    cutscene_relocated, expanded, money_patched, region_relocated, renderer_hooked, size_marked,
};
use crate::jp_text::lemma_jp_code;
use crate::ko_text::{
    is_drawn_mark, is_hangul, law_rank_from_code, lemma_rank_of, rank_code, rank_of, text_code,
    token_code, tokens_code, tokens_of, TextToken,
};
use crate::script::{
    law_script_ends_with_end_code, law_script_position_independent, script_at, script_end,
    EntryView, ScriptKind,
};
use crate::script_bins::{law_repack_pointers, repack_bin};
use crate::text::{dec, hex};
use crate::tracked_rom::{lemma_written_wf, ExpectView, RomView};
use crate::ui_labels::{
    blob_entry, inplace_label, label_in_place, labels_in_place, retyped, set_blob, set_labels,
    set_xs, ui_labels_applied,
};
use crate::z80_machine::{called_glyph, is_glyph_call, rank_of_code, Machine};

verus! {

/// A build after the glyphs.
pub open spec fn glyph_stage(original: Seq<u8>, j: Job) -> Progress {
    glyphs_installed(
        Progress::begin(RomView { data: original, writes: Seq::empty() }),
        j,
        original,
    )
}

/// A build after the regions.
pub open spec fn region_stage(original: Seq<u8>, j: Job) -> Progress {
    regions_repacked(glyph_stage(original, j), j.texts, 11)
}

/// A build after the cutscenes.
pub open spec fn cutscene_stage(original: Seq<u8>, j: Job) -> Progress {
    cutscenes_repacked(region_stage(original, j), j.texts)
}

/// A build after the texts in place.
pub open spec fn in_place_stage(original: Seq<u8>, j: Job) -> Progress {
    in_place_written(cutscene_stage(original, j), j.texts, j.texts.encoded.len() as int)
}

/// A build after the currency sign.
pub open spec fn money_stage(original: Seq<u8>, j: Job) -> Progress {
    money_patched(in_place_stage(original, j))
}

/// A finished build, checksum included.
pub open spec fn built(original: Seq<u8>, j: Job) -> Seq<u8> {
    with_checksum(build_chain(original, j).rom.data)
}

/// Whether a build with glyphs comes to its end.
pub open spec fn succeeds(original: Seq<u8>, j: Job) -> bool {
    j.order.len() > 0 && comes_to_end(original, j)
}

/// Whether a build, with glyphs or without, comes to its end.
pub open spec fn comes_to_end(original: Seq<u8>, j: Job) -> bool {
    &&& forall|k: int| 0 <= k < j.texts.entries.len() ==> 0 <= (#[trigger] j.texts.entries[k]).offset
    &&& build_chain(original, j).fault is None
}

/// Whether a pointer leads to a text.
pub open spec fn leads_to(
    rom: Seq<u8>,
    pointer_at: int,
    bank_base: int,
    slot_base: int,
    text: Seq<u8>,
) -> bool {
    match word(rom, pointer_at) {
        Err(_) => false,
        Ok(ptr) => match pointer_target(bank_base, ptr, slot_base) {
            Err(_) => false,
            Ok(at) => at + text.len() <= rom.len() && rom.subrange(at, at + text.len()) == text,
        },
    }
}

pub proof fn lemma_stages(original: Seq<u8>, j: Job)
    requires
        succeeds(original, j),
    ensures
        glyph_stage(original, j).sound(original),
        region_stage(original, j).sound(original),
        cutscene_stage(original, j).sound(original),
        in_place_stage(original, j).sound(original),
        money_stage(original, j).sound(original),
        build_chain(original, j).sound(original),
        build_chain(original, j).after(glyph_stage(original, j)),
        build_chain(original, j).after(region_stage(original, j)),
        build_chain(original, j).after(cutscene_stage(original, j)),
        build_chain(original, j).after(in_place_stage(original, j)),
        build_chain(original, j).after(money_stage(original, j)),
        build_chain(original, j) == ui_labels_applied(
            money_stage(original, j),
            j.font,
            j.save_load,
            j.flee_load,
        ),
{
    let fresh = Progress::begin(RomView { data: original, writes: Seq::empty() });
    let n = j.texts.encoded.len() as int;
    lemma_begin_sound(original);
    lemma_glyphs_sound(fresh, j, original);
    let a = glyph_stage(original, j);
    let b = region_stage(original, j);
    let c = cutscene_stage(original, j);
    let d = in_place_stage(original, j);
    let e = money_stage(original, j);
    let f = build_chain(original, j);
    lemma_regions_sound(a, j.texts, original, 11);
    lemma_cutscenes_sound(b, j.texts, original);
    lemma_in_place_sound(c, j.texts, original, 0, n);
    lemma_money_sound(d, original);
    lemma_ui_sound(e, j.font, original, j.save_load, j.flee_load);
    lemma_after(d, e, f);
    lemma_after(c, d, f);
    lemma_after(b, c, f);
    lemma_after(a, b, f);
}

proof fn lemma_regions_later(p: Progress, t: Texts, original: Seq<u8>, k: int, n: int)
    requires
        p.sound(original),
        0 <= k <= n <= 11,
    ensures
        regions_repacked(p, t, n).after(regions_repacked(p, t, k)),
    decreases n,
{
    if k < n {
        lemma_regions_later(p, t, original, k, n - 1);
        lemma_regions_sound(p, t, original, n - 1);
        lemma_region_sound(regions_repacked(p, t, n - 1), t, original, n - 1);
        lemma_after(
            regions_repacked(p, t, k),
            regions_repacked(p, t, n - 1),
            regions_repacked(p, t, n),
        );
    } else {
        lemma_after_itself(regions_repacked(p, t, k));
    }
}

proof fn lemma_pointers_fit(rom: Seq<u8>, region: int, n: int)
    requires
        0 <= n,
        region_pointers(rom, region, n) is Ok,
    ensures
        region_pointers(rom, region, n)->Ok_0.len() == n,
        forall|i: int| 0 <= i < n ==> 0 <= #[trigger] region_pointers(rom, region, n)->Ok_0[i] <= 0xFFFF,
    decreases n,
{
    if n > 0 {
        lemma_pointers_fit(rom, region, n - 1);
    }
}

/// The text of a region's script in a build.
pub open spec fn region_text(t: Texts, region: int, i: int) -> Result<Seq<u8>, Fault> {
    string_for(
        t.entries,
        t.encoded,
        "region/"@ + dec(region) + "/"@ + hex(i, 3),
        "region repack: 알 수 없는 id "@,
    )
}

/// The text of a cutscene script in a build.
pub open spec fn cutscene_text(t: Texts, i: int) -> Result<Seq<u8>, Fault> {
    string_for(
        t.entries,
        t.encoded,
        "cutscene/"@ + hex(i, 3),
        "cutscene repack: 알 수 없는 id "@,
    )
}

proof fn lemma_region_strings(t: Texts, region: int, n: int)
    requires
        0 <= n,
        region_strings(t, region, n) is Ok,
    ensures
        region_strings(t, region, n)->Ok_0.len() == n,
        forall|i: int|
            0 <= i < n ==> region_text(t, region, i) == Ok::<Seq<u8>, Fault>(
                #[trigger] region_strings(t, region, n)->Ok_0[i],
            ),
    decreases n,
{
    if n > 0 {
        lemma_region_strings(t, region, n - 1);
    }
}

proof fn lemma_cutscene_strings(t: Texts, n: int)
    requires
        0 <= n,
        cutscene_strings(t, n) is Ok,
    ensures
        cutscene_strings(t, n)->Ok_0.len() == n,
        forall|i: int|
            0 <= i < n ==> cutscene_text(t, i) == Ok::<Seq<u8>, Fault>(
                #[trigger] cutscene_strings(t, n)->Ok_0[i],
            ),
    decreases n,
{
    if n > 0 {
        lemma_cutscene_strings(t, n - 1);
    }
}

/// A part of a ROM that does not touch the checksum field survives an update of it.
proof fn lemma_checksum_spares(rom: Seq<u8>, from: int, to: int)
    requires
        0x7FFC <= from <= to <= rom.len(),
    ensures
        with_checksum(rom).len() == rom.len(),
        with_checksum(rom).subrange(from, to) == rom.subrange(from, to),
{
    law_checksum_round_trip(rom);
    assert(with_checksum(rom).subrange(from, to) =~= rom.subrange(from, to));
}

proof fn lemma_region_written(p: Progress, t: Texts, original: Seq<u8>, region: int, f: Progress)
    requires
        p.sound(original),
        0 <= region < 11,
        f.after(region_repacked(p, t, region)),
        f.fault is None,
    ensures
        region_strings(t, region, script_count(region)) is Ok,
        region_pointers(p.rom.data, region, script_count(region)) is Ok,
        ({
            let strings = region_strings(t, region, script_count(region))->Ok_0;
            let orig = region_pointers(p.rom.data, region, script_count(region))->Ok_0;
            let bin = repack_bin(strings, orig, 0x10);
            let base = (33 + region) * 0x4000;
            let loc = 0x1A069 + region * 2;
            &&& bin is Ok
            &&& bin->Ok_0.len() <= 0x3FF0
            &&& base + 0x4000 <= f.rom.data.len()
            &&& f.rom.data.subrange(base, base + 0x4000) == region_image(bin->Ok_0)
            &&& f.rom.data.subrange(loc, loc + 2) == seq![0x00u8, (33 + region) as u8]
        }),
{
    let q = region_repacked(p, t, region);
    let n = script_count(region);
    assert(q.fault is None);
    assert(p.fault is None);
    let strings = region_strings(t, region, n)->Ok_0;
    let orig = region_pointers(p.rom.data, region, n)->Ok_0;
    let bin = repack_bin(strings, orig, 0x10)->Ok_0;
    let bank = 33 + region;
    let base = bank * 0x4000;
    let image = region_image(bin);
    let label = "region "@ + dec(region) + " repack bank"@;
    let moved = "region "@ + dec(region) + " loc redirect"@;
    let redirect = seq![0x00u8, bank as u8];
    let loc = 0x1A069 + region * 2;
    let r = p.free(label, base, image);
    lemma_expect_sound(p, original, label, base, Seq::empty(), image);
    lemma_expect_sound(r, original, moved, loc, Seq::empty(), redirect);
    assert(q == r.over(moved, loc, redirect));
    lemma_after(r, q, f);
    law_written_is_there(p, label, base, image, ExpectView::FreeSpace(0xFF), f);
    law_written_is_there(
        r,
        moved,
        loc,
        redirect,
        ExpectView::Bytes(r.rom.data.subrange(loc, loc + redirect.len())),
        f,
    );
}

proof fn lemma_region_read(
    rom: Seq<u8>,
    region: int,
    strings: Seq<Seq<u8>>,
    orig: Seq<int>,
    i: int,
)
    requires
        0 <= region < 11,
        strings.len() == script_count(region),
        0 <= i < strings.len(),
        forall|k: int| 0 <= k < orig.len() ==> 0 <= #[trigger] orig[k] <= 0xFFFF,
        repack_bin(strings, orig, 0x10) is Ok,
        repack_bin(strings, orig, 0x10)->Ok_0.len() <= 0x3FF0,
        (33 + region) * 0x4000 + 0x4000 <= rom.len(),
        rom.subrange((33 + region) * 0x4000, (33 + region) * 0x4000 + 0x4000) == region_image(
            repack_bin(strings, orig, 0x10)->Ok_0,
        ),
        rom.subrange(0x1A069 + region * 2, 0x1A069 + region * 2 + 2) == seq![
            0x00u8,
            (33 + region) as u8,
        ],
    ensures
        region_bank(rom, region) == Ok::<int, Fault>((33 + region) * 0x4000),
        region_pointer_at(rom, region, i) is Ok,
        strings[i].len() > 0 ==> leads_to(
            rom,
            region_pointer_at(rom, region, i)->Ok_0,
            (33 + region) * 0x4000,
            0x4000,
            strings[i],
        ),
        strings[i].len() == 0 ==> word(rom, region_pointer_at(rom, region, i)->Ok_0) == Ok::<
            int,
            Fault,
        >(orig[i]),
{
    let bin = repack_bin(strings, orig, 0x10)->Ok_0;
    let bank = 33 + region;
    let base = bank * 0x4000;
    let image = region_image(bin);
    let loc = 0x1A069 + region * 2;
    let seen = rom.subrange(base, base + 0x4000);
    let pair = rom.subrange(loc, loc + 2);
    assert(pair[0] == 0x00 && pair[1] == bank);
    assert(rom[loc] == pair[0] && rom[loc + 1] == pair[1]);
    assert(image[4] == 0x10 && image[5] == 0x40);
    assert(rom[base + 4] == seen[4] && rom[base + 5] == seen[5]);
    assert(region_table(rom, region) == Ok::<int, Fault>(base + 0x10));
    law_repack_pointers(strings, orig, 0x10, i);
    assert forall|k: int| 0 <= k < bin.len() implies rom[base + 0x10 + k] == bin[k] by {
        assert(seen[0x10 + k] == image[0x10 + k]);
    }
    assert(rom[base + 0x10 + 2 * i] == bin[2 * i]);
    assert(rom[base + 0x10 + (2 * i + 1)] == bin[2 * i + 1]);
    assert(word_at(rom, base + 0x10 + 2 * i) == word_at(bin, 2 * i));
    if strings[i].len() > 0 {
        let at = word_at(bin, 2 * i) - 0x4000 - 0x10;
        assert(rom.subrange(base + 0x10 + at, base + 0x10 + at + strings[i].len()) =~= bin.subrange(
            at,
            at + strings[i].len(),
        ));
    }
}

/// In a build, the table of regions leads to the bank of each region, and in there every
/// pointer leads to the text of its script: the translation where there is one, else the
/// text as it was.
pub proof fn law_region_text_reads_back(original: Seq<u8>, j: Job, region: int, i: int)
    requires
        succeeds(original, j),
        0 <= region < 11,
        0 <= i < script_count(region),
    ensures
        region_text(j.texts, region, i) is Ok,
        region_bank(built(original, j), region) == Ok::<int, Fault>((33 + region) * 0x4000),
        region_pointer_at(built(original, j), region, i) is Ok,
        ({
            let text = region_text(j.texts, region, i)->Ok_0;
            text.len() > 0 ==> leads_to(
                built(original, j),
                region_pointer_at(built(original, j), region, i)->Ok_0,
                (33 + region) * 0x4000,
                0x4000,
                text,
            )
        }),
{
    let a = glyph_stage(original, j);
    let f = build_chain(original, j);
    let t = j.texts;
    let n = script_count(region);
    lemma_stages(original, j);
    let p = regions_repacked(a, t, region);
    let q = regions_repacked(a, t, region + 1);
    lemma_regions_sound(a, t, original, region);
    lemma_regions_later(a, t, original, region + 1, 11);
    lemma_after(q, region_stage(original, j), f);
    lemma_region_written(p, t, original, region, f);
    let strings = region_strings(t, region, n)->Ok_0;
    let orig = region_pointers(p.rom.data, region, n)->Ok_0;
    let base = (33 + region) * 0x4000;
    let loc = 0x1A069 + region * 2;
    lemma_checksum_spares(f.rom.data, base, base + 0x4000);
    lemma_checksum_spares(f.rom.data, loc, loc + 2);
    lemma_pointers_fit(p.rom.data, region, n);
    lemma_region_strings(t, region, n);
    lemma_region_read(built(original, j), region, strings, orig, i);
    assert(region_text(t, region, i) == Ok::<Seq<u8>, Fault>(strings[i]));
}

proof fn lemma_table(strings: Seq<Seq<u8>>, addrs: Seq<int>, n: int, i: int)
    requires
        0 <= i < n,
        forall|k: int|
            0 <= k < n && strings[k].len() > 0 ==> 0x18000 <= #[trigger] addrs[k] < 0x1C000,
    ensures
        cutscene_table(strings, addrs, n).len() == 2 * n,
        word_at(cutscene_table(strings, addrs, n), 2 * i) == if strings[i].len() == 0 {
            0
        } else {
            addrs[i] - 0x10000
        },
    decreases n,
{
    let prev = cutscene_table(strings, addrs, n - 1);
    let all = cutscene_table(strings, addrs, n);
    if n > 1 {
        lemma_table(strings, addrs, n - 1, if i < n - 1 {
            i
        } else {
            0
        });
    }
    assert(prev.len() == 2 * (n - 1));
    if i < n - 1 {
        assert(all[2 * i] == prev[2 * i] && all[2 * i + 1] == prev[2 * i + 1]);
    } else {
        assert(strings[i].len() > 0 ==> 0x18000 <= addrs[i] < 0x1C000);
        let ptr = if strings[i].len() == 0 {
            0
        } else {
            pointer_to(0x18000, addrs[i], 0x8000)->Ok_0
        };
        assert(all[2 * i] == le16(ptr)[0] && all[2 * i + 1] == le16(ptr)[1]);
    }
}

proof fn lemma_cutscene_written(p: Progress, t: Texts, original: Seq<u8>, i: int, f: Progress)
    requires
        p.sound(original),
        0 <= i < 0xA8,
        f.after(cutscenes_repacked(p, t)),
        f.fault is None,
    ensures
        cutscene_strings(t, 0xA8) is Ok,
        placing(cutscene_strings(t, 0xA8)->Ok_0, 0xA8) is Ok,
        ({
            let strings = cutscene_strings(t, 0xA8)->Ok_0;
            let addrs = placing(strings, 0xA8)->Ok_0.addrs;
            let table = cutscene_table(strings, addrs, 0xA8);
            &&& strings.len() == 0xA8
            &&& table.len() == 0x150
            &&& word_at(table, 2 * i) == if strings[i].len() == 0 {
                0
            } else {
                addrs[i] - 0x10000
            }
            &&& 0x1B2B2 <= f.rom.data.len()
            &&& f.rom.data.subrange(0x1B162, 0x1B2B2) == table
            &&& strings[i].len() > 0 ==> {
                &&& 0x1A66D <= addrs[i]
                &&& addrs[i] + strings[i].len() <= 0x1C000
                &&& addrs[i] + strings[i].len() <= f.rom.data.len()
                &&& f.rom.data.subrange(addrs[i], addrs[i] + strings[i].len()) == strings[i]
            }
        }),
{
    let q = cutscenes_repacked(p, t);
    assert(q.fault is None);
    assert(p.fault is None);
    let strings = cutscene_strings(t, 0xA8)->Ok_0;
    lemma_cutscene_strings(t, 0xA8);
    let addrs = placing(strings, 0xA8)->Ok_0.addrs;
    law_cutscenes_keep_to_their_stretches(strings, 0xA8);
    let table = cutscene_table(strings, addrs, 0xA8);
    lemma_table(strings, addrs, 0xA8, i);
    let w = cutscenes_written(p, strings, addrs, 0xA8);
    lemma_written_sound(p, original, strings, addrs, 0, 0xA8);
    lemma_expect_sound(w, original, "cutscene table repack"@, 0x1B162, Seq::empty(), table);
    assert(q == w.over("cutscene table repack"@, 0x1B162, table));
    law_written_is_there(
        w,
        "cutscene table repack"@,
        0x1B162,
        table,
        ExpectView::Bytes(w.rom.data.subrange(0x1B162, (0x1B162 + table.len()) as int)),
        f,
    );
    if strings[i].len() > 0 {
        lemma_after(w, q, f);
        let before = cutscenes_written(p, strings, addrs, i);
        let label = "cutscene "@ + hex(i, 3) + " repack"@;
        lemma_written_sound(p, original, strings, addrs, i + 1, 0xA8);
        lemma_written_sound(p, original, strings, addrs, i, i);
        lemma_written_sound(p, original, strings, addrs, i, 0xA8);
        lemma_after(cutscenes_written(p, strings, addrs, i + 1), w, f);
        assert(0x1A66D <= addrs[i]);
        assert(before.fault is None);
        law_written_is_there(
            before,
            label,
            addrs[i],
            strings[i],
            if addrs[i] >= 0x1B826 {
                ExpectView::FreeSpace(0xFF)
            } else {
                ExpectView::Bytes(
                    before.rom.data.subrange(addrs[i], addrs[i] + strings[i].len()),
                )
            },
            f,
        );
    }
}

/// In a build, every pointer of the cutscene table leads to the text of its script: the
/// translation where there is one, else the text as it was. A script without text has
/// pointer 0.
pub proof fn law_cutscene_text_reads_back(original: Seq<u8>, j: Job, i: int)
    requires
        succeeds(original, j),
        0 <= i < 0xA8,
    ensures
        cutscene_text(j.texts, i) is Ok,
        ({
            let text = cutscene_text(j.texts, i)->Ok_0;
            if text.len() > 0 {
                leads_to(built(original, j), 0x1B162 + 2 * i, 0x18000, 0x8000, text)
            } else {
                word(built(original, j), 0x1B162 + 2 * i) == Ok::<int, Fault>(0)
            }
        }),
{
    let f = build_chain(original, j);
    let rom = built(original, j);
    let t = j.texts;
    lemma_stages(original, j);
    lemma_cutscene_written(region_stage(original, j), t, original, i, f);
    lemma_cutscene_strings(t, 0xA8);
    let strings = cutscene_strings(t, 0xA8)->Ok_0;
    let addrs = placing(strings, 0xA8)->Ok_0.addrs;
    let table = cutscene_table(strings, addrs, 0xA8);
    assert(cutscene_text(t, i) == Ok::<Seq<u8>, Fault>(strings[i]));
    lemma_checksum_spares(f.rom.data, 0x1B162, 0x1B2B2);
    let seen = rom.subrange(0x1B162, 0x1B2B2);
    assert(rom[0x1B162 + 2 * i] == seen[2 * i]);
    assert(rom[0x1B162 + 2 * i + 1] == seen[2 * i + 1]);
    assert(word_at(rom, 0x1B162 + 2 * i) == word_at(table, 2 * i));
    if strings[i].len() > 0 {
        lemma_checksum_spares(f.rom.data, addrs[i], addrs[i] + strings[i].len());
    }
}

/// In a build, with glyphs or without, a translated shop text stands where the text stood.
pub proof fn law_shop_text_reads_back(original: Seq<u8>, j: Job, k: int)
    requires
        comes_to_end(original, j),
        0 <= k < j.texts.encoded.len(),
        entry_index(j.texts.entries, j.texts.encoded[k].id) is Some,
        ({
            let entry = j.texts.entries[entry_index(j.texts.entries, j.texts.encoded[k].id)->0];
            entry.kind == ScriptKind::Shop && 0x8000 <= entry.offset
        }),
    ensures
        ({
            let e = j.texts.encoded[k];
            let entry = j.texts.entries[entry_index(j.texts.entries, e.id)->0];
            &&& e.bytes.len() == entry.len
            &&& entry.offset + entry.len <= built(original, j).len()
            &&& built(original, j).subrange(entry.offset, entry.offset + entry.len) == e.bytes
        }),
{
    let t = j.texts;
    let f = build_chain(original, j);
    let n = t.encoded.len() as int;
    let p = if j.order.len() > 0 {
        cutscene_stage(original, j)
    } else {
        Progress::begin(RomView { data: original, writes: Seq::empty() })
    };
    let e = t.encoded[k];
    let entry = t.entries[entry_index(t.entries, e.id)->0];
    if j.order.len() > 0 {
        lemma_stages(original, j);
    } else {
        lemma_begin_sound(original);
        lemma_in_place_sound(p, t, original, 0, n);
        lemma_money_sound(in_place_written(p, t, n), original);
    }
    lemma_in_place_sound(p, t, original, k, k);
    lemma_in_place_sound(p, t, original, k + 1, n);
    lemma_in_place_sound(p, t, original, k, k + 1);
    let before = in_place_written(p, t, k);
    let next = in_place_written(p, t, k + 1);
    lemma_after(next, in_place_written(p, t, n), f);
    lemma_after(before, next, f);
    assert(before.fault is None);
    assert(next.fault is None);
    law_written_is_there(
        before,
        "translation "@ + entry.id,
        entry.offset,
        e.bytes,
        ExpectView::Bytes(crate::script::bytes_of(entry)->Ok_0),
        f,
    );
    lemma_checksum_spares(f.rom.data, entry.offset, entry.offset + e.bytes.len());
}

/// In a build, the glyph of each rank stands at eight times its rank in its bank.
pub proof fn law_glyphs_read_back(original: Seq<u8>, j: Job, rank: int)
    requires
        succeeds(original, j),
        0 <= rank < j.order.len(),
    ensures
        0x80000 + 8 * rank + 8 <= built(original, j).len(),
        built(original, j).subrange(0x80000 + 8 * rank, 0x80000 + 8 * rank + 8) == glyph_cell(
            j.order[rank],
            j.font,
        ),
{
    let f = build_chain(original, j);
    let fresh = Progress::begin(RomView { data: original, writes: Seq::empty() });
    let n = j.order.len() as int;
    let bank = glyph_bank(j.order, j.font, n);
    let label = "build ko glyph bank"@;
    lemma_stages(original, j);
    lemma_begin_sound(original);
    lemma_expect_sound(fresh, original, label, 0x80000, Seq::empty(), bank);
    let a = fresh.free(label, 0x80000, bank);
    lemma_hook_sound(a, original, j.handler, j.jump);
    let b = renderer_hooked(a, j.handler, j.jump);
    lemma_size_sound(b, original, original);
    lemma_after(a, b, glyph_stage(original, j));
    lemma_after(a, glyph_stage(original, j), f);
    law_written_is_there(fresh, label, 0x80000, bank, ExpectView::FreeSpace(0xFF), f);
    law_glyph_stands_at_its_rank(j.order, j.font, n, rank);
    let at = 0x80000 + 8 * rank;
    lemma_checksum_spares(f.rom.data, at, at + 8);
    let seen = f.rom.data.subrange(0x80000, (0x80000 + bank.len()) as int);
    assert(f.rom.data.subrange(at, at + 8) =~= seen.subrange(8 * rank, 8 * rank + 8));
}


proof fn lemma_label_reads_back(p: Progress, font: GlyphFont, original: Seq<u8>, i: int, f: Progress)
    requires
        p.sound(original),
        0 <= i < 7,
        f.after(labels_in_place(p, font, 7)),
        f.fault is None,
    ensures
        ({
            let blob = blob_entry(set_blob(i));
            let rom = with_checksum(f.rom.data);
            let tiles = retyped(
                labels_in_place(p, font, i).rom.data,
                blob,
                set_labels(i),
                set_xs(i),
                font,
            );
            &&& tiles is Ok
            &&& unpack(rom, blob.addr, Seq::empty()).0 == tiles->Ok_0
            &&& tiles->Ok_0.len() == blob.size
        }),
{
    let blob = blob_entry(set_blob(i));
    let rom = with_checksum(f.rom.data);
    let before = labels_in_place(p, font, i);
    let next = labels_in_place(p, font, i + 1);
    lemma_labels_in_place_sound(p, font, original, i, i);
    lemma_labels_in_place_sound(p, font, original, i, i + 1);
    lemma_labels_in_place_sound(p, font, original, i + 1, 7);
    lemma_after(next, labels_in_place(p, font, 7), f);
    assert(next.fault is None);
    assert(before.fault is None);
    assert(next == label_in_place(before, i, font));
    let tiles = retyped(before.rom.data, blob, set_labels(i), set_xs(i), font)->Ok_0;
    let stream = packed(tiles);
    let end = blob.addr + stream.len();
    law_written_is_there(
        before,
        inplace_label(blob),
        blob.addr,
        stream,
        ExpectView::Bytes(before.rom.data.subrange(blob.addr, end)),
        f,
    );
    lemma_checksum_spares(f.rom.data, blob.addr, end);
    law_lossless(rom.take(blob.addr), tiles, rom.skip(end));
    assert(rom.take(blob.addr) + rom.subrange(blob.addr, end) + rom.skip(end) =~= rom);
    crate::ui_labels::law_retyped_size(before.rom.data, i, font);
}

proof fn lemma_blocks_decode(rom: Seq<u8>, i: int)
    requires
        0 <= i <= 7,
        forall|k: int|
            0 <= k < 7 ==> unpack(
                rom,
                (#[trigger] blob_entry(set_blob(k))).addr,
                Seq::empty(),
            ).0.len() == blob_entry(set_blob(k)).size,
    ensures
        block_fault(rom, i) is None,
    decreases 7 - i,
{
    if i < 7 {
        lemma_blocks_decode(rom, i + 1);
    }
}

proof fn lemma_all_labels_read_back(p: Progress, font: GlyphFont, original: Seq<u8>, f: Progress)
    requires
        p.sound(original),
        f.after(labels_in_place(p, font, 7)),
        f.fault is None,
    ensures
        block_fault(with_checksum(f.rom.data), 0) is None,
{
    assert forall|k: int| 0 <= k < 7 implies unpack(
        with_checksum(f.rom.data),
        (#[trigger] blob_entry(set_blob(k))).addr,
        Seq::empty(),
    ).0.len() == blob_entry(set_blob(k)).size by {
        lemma_label_reads_back(p, font, original, k, f);
    }
    lemma_blocks_decode(with_checksum(f.rom.data), 0);
}

/// In a build with glyphs, every block of interface graphics that got its labels in place
/// decodes to its size.
pub proof fn law_build_labels_decode(original: Seq<u8>, j: Job)
    requires
        succeeds(original, j),
    ensures
        block_fault(built(original, j), 0) is None,
{
    let e = money_stage(original, j);
    lemma_stages(original, j);
    lemma_labels_in_place_sound(e, j.font, original, 0, 7);
    lemma_labels_moved_sound(
        labels_in_place(e, j.font, 7),
        j.font,
        original,
        j.save_load,
        j.flee_load,
    );
    lemma_all_labels_read_back(e, j.font, original, build_chain(original, j));
}

/// In a build with interface labels only, every block of interface graphics that got its
/// labels in place decodes to its size: the check of a finished build never fails.
pub proof fn law_ui_build_labels_decode(
    data: Seq<u8>,
    font: GlyphFont,
    save_load: Seq<u8>,
    flee_load: Seq<u8>,
)
    requires
        ui_chain(data, font, save_load, flee_load).fault is None,
    ensures
        block_fault(with_checksum(ui_chain(data, font, save_load, flee_load).rom.data), 0) is None,
{
    let original = expanded(data);
    let p = size_marked(fresh(data), original);
    lemma_begin_sound(original);
    lemma_size_sound(fresh(data), original, original);
    lemma_labels_in_place_sound(p, font, original, 0, 7);
    lemma_labels_moved_sound(
        labels_in_place(p, font, 7),
        font,
        original,
        save_load,
        flee_load,
    );
    lemma_all_labels_read_back(p, font, original, ui_chain(data, font, save_load, flee_load));
}

// ---------------------------------------------------------------------------
// Scripts
// ---------------------------------------------------------------------------

/// Whether a token is one that neither ends a script nor takes the byte behind it away.
pub open spec fn is_plain(t: TextToken) -> bool {
    t != TextToken::End && t != TextToken::Raw(0x00) && t != TextToken::Raw(0xFE)
}

/// Whether a text ends where it says so: no token but the last is an end, none is a raw
/// flags code, and the last one is not a flags operation with operand 0, which looks like
/// an end.
pub open spec fn ends_once(tokens: Seq<TextToken>) -> bool {
    &&& forall|i: int| 0 <= i < tokens.len() - 1 ==> is_plain(#[trigger] tokens[i])
    &&& tokens.len() > 0 ==> tokens.last() != TextToken::Raw(0xFE) && tokens.last()
        != TextToken::Flags(0x00)
}

proof fn lemma_token_passes(t: TextToken, order: Seq<char>, all: Seq<u8>, at: int)
    requires
        is_plain(t),
        token_code(t, order) is Ok,
        0 <= at,
        at + token_code(t, order)->Ok_0.len() <= all.len(),
        all.subrange(at, at + token_code(t, order)->Ok_0.len()) == token_code(t, order)->Ok_0,
    ensures
        script_end(all, at) == script_end(all, at + token_code(t, order)->Ok_0.len()),
{
    let code = token_code(t, order)->Ok_0;
    let seen = all.subrange(at, at + code.len());
    if code.len() > 0 {
        assert(all[at] == seen[0]);
    }
    if code.len() > 1 {
        assert(all[at + 1] == seen[1]);
    }
    match t {
        TextToken::Char(ch) => {
            if is_hangul(ch) || is_drawn_mark(ch) {
                let rank = rank_of(order, ch)->0;
                lemma_rank_of(order, ch);
                assert(code == rank_code(rank));
                assert(code[0] != 0x00 && code[0] != 0xFE);
                assert(code[1] != 0x00 && code[1] != 0xFE);
                assert(script_end(all, at) == script_end(all, at + 1));
                assert(script_end(all, at + 1) == script_end(all, at + 2));
            } else {
                lemma_jp_code(ch);
                assert(code[0] != 0x00 && code[0] != 0xFE);
                assert(script_end(all, at) == script_end(all, at + 1));
                if code.len() == 2 {
                    assert(code[1] != 0x00 && code[1] != 0xFE);
                    assert(script_end(all, at + 1) == script_end(all, at + 2));
                }
            }
        },
        TextToken::Flags(v) => {
            assert(code.len() == 2 && code[0] == 0xFE);
        },
        _ => {
            assert(code.len() == 1);
        },
    }
}

proof fn lemma_tokens_pass(
    tokens: Seq<TextToken>,
    order: Seq<char>,
    all: Seq<u8>,
    n: int,
)
    requires
        0 <= n <= tokens.len(),
        forall|i: int| 0 <= i < n ==> is_plain(#[trigger] tokens[i]),
        tokens_code(tokens.take(n), order) is Ok,
        tokens_code(tokens.take(n), order)->Ok_0.len() <= all.len(),
        all.take(tokens_code(tokens.take(n), order)->Ok_0.len() as int) == tokens_code(
            tokens.take(n),
            order,
        )->Ok_0,
    ensures
        script_end(all, 0) == script_end(
            all,
            tokens_code(tokens.take(n), order)->Ok_0.len() as int,
        ),
    decreases n,
{
    if n > 0 {
        let upto = tokens.take(n);
        assert(upto.drop_last() =~= tokens.take(n - 1));
        assert(upto.last() == tokens[n - 1]);
        let before = tokens_code(tokens.take(n - 1), order)->Ok_0;
        let code = token_code(tokens[n - 1], order)->Ok_0;
        let now = tokens_code(upto, order)->Ok_0;
        assert(now == before + code);
        assert(all.take(before.len() as int) =~= before) by {
            assert forall|k: int| 0 <= k < before.len() implies all[k] == before[k] by {
                assert(all.take(now.len() as int)[k] == now[k]);
            }
        }
        let at = before.len() as int;
        assert(all.subrange(at, at + code.len()) =~= code) by {
            assert forall|k: int| 0 <= k < code.len() implies all[at + k] == code[k] by {
                assert(all.take(now.len() as int)[at + k] == now[at + k]);
            }
        }
        lemma_tokens_pass(tokens, order, all, n - 1);
        lemma_token_passes(tokens[n - 1], order, all, at);
    }
}

/// A translated text that ends where it says so is read by the game as one script: all of
/// it, and nothing more.
pub proof fn law_text_is_one_script(s: Seq<char>, order: Seq<char>)
    requires
        tokens_of(s) is Ok,
        ends_once(tokens_of(s)->Ok_0),
        text_code(s, order) is Ok,
    ensures
        script_at(text_code(s, order)->Ok_0, 0) == Ok::<Seq<u8>, Fault>(
            text_code(s, order)->Ok_0,
        ),
{
    let tokens = tokens_of(s)->Ok_0;
    let bytes = tokens_code(tokens, order)->Ok_0;
    let all = text_code(s, order)->Ok_0;
    let n = tokens.len() as int;
    assert(tokens.take(n) =~= tokens);
    if n > 0 && (tokens.last() == TextToken::End || tokens.last() == TextToken::Raw(0x00)) {
        let before = tokens_code(tokens.drop_last(), order)->Ok_0;
        assert(tokens.take(n - 1) =~= tokens.drop_last());
        assert(bytes == before + seq![0x00u8]);
        assert(all == bytes);
        assert(all.take(before.len() as int) =~= before);
        lemma_tokens_pass(tokens, order, all, n - 1);
        assert(all[before.len() as int] == 0x00);
    } else {
        if n > 0 {
            let before = tokens_code(tokens.drop_last(), order)->Ok_0;
            let code = token_code(tokens.last(), order)->Ok_0;
            assert(bytes == before + code);
            lemma_last_byte(tokens.last(), order);
            assert(bytes.last() == code.last());
        }
        assert(all == bytes.push(0x00));
        assert(all.take(bytes.len() as int) =~= bytes);
        lemma_tokens_pass(tokens, order, all, n);
        assert(all[bytes.len() as int] == 0x00);
    }
    assert(all.subrange(0, all.len() as int) =~= all);
}

proof fn lemma_last_byte(t: TextToken, order: Seq<char>)
    requires
        is_plain(t),
        t != TextToken::Flags(0x00),
        token_code(t, order) is Ok,
    ensures
        token_code(t, order)->Ok_0.len() > 0,
        token_code(t, order)->Ok_0.last() != 0x00,
{
    match t {
        TextToken::Char(ch) => {
            if is_hangul(ch) || is_drawn_mark(ch) {
                lemma_rank_of(order, ch);
            } else {
                lemma_jp_code(ch);
            }
        },
        _ => {},
    }
}

/// In a build, the script that a region's pointer leads to is read as the text that was
/// put in, wherever that text is one script.
pub proof fn law_region_script_reads_back(original: Seq<u8>, j: Job, region: int, i: int)
    requires
        succeeds(original, j),
        0 <= region < 11,
        0 <= i < script_count(region),
        region_text(j.texts, region, i) is Ok,
        script_at(region_text(j.texts, region, i)->Ok_0, 0) == region_text(j.texts, region, i),
    ensures
        ({
            let rom = built(original, j);
            let ptr = word(rom, region_pointer_at(rom, region, i)->Ok_0)->Ok_0;
            let at = pointer_target((33 + region) * 0x4000, ptr, 0x4000)->Ok_0;
            script_at(rom, at) == region_text(j.texts, region, i)
        }),
{
    let rom = built(original, j);
    let text = region_text(j.texts, region, i)->Ok_0;
    law_region_text_reads_back(original, j, region, i);
    law_script_ends_with_end_code(text, 0);
    let ptr = word(rom, region_pointer_at(rom, region, i)->Ok_0)->Ok_0;
    let at = pointer_target((33 + region) * 0x4000, ptr, 0x4000)->Ok_0;
    law_script_position_independent(text, 0, rom, at);
}

/// In a build, the script that a cutscene pointer leads to is read as the text that was
/// put in, wherever that text is one script.
pub proof fn law_cutscene_script_reads_back(original: Seq<u8>, j: Job, i: int)
    requires
        succeeds(original, j),
        0 <= i < 0xA8,
        cutscene_text(j.texts, i) is Ok,
        script_at(cutscene_text(j.texts, i)->Ok_0, 0) == cutscene_text(j.texts, i),
    ensures
        ({
            let rom = built(original, j);
            let ptr = word(rom, 0x1B162 + 2 * i)->Ok_0;
            let at = pointer_target(0x18000, ptr, 0x8000)->Ok_0;
            script_at(rom, at) == cutscene_text(j.texts, i)
        }),
{
    let rom = built(original, j);
    let text = cutscene_text(j.texts, i)->Ok_0;
    law_cutscene_text_reads_back(original, j, i);
    law_script_ends_with_end_code(text, 0);
    let ptr = word(rom, 0x1B162 + 2 * i)->Ok_0;
    let at = pointer_target(0x18000, ptr, 0x8000)->Ok_0;
    law_script_position_independent(text, 0, rom, at);
}

/// In a build, the glyph that the handler draws for the code of a rank is that of the
/// character with this rank.
pub proof fn law_codes_show_their_characters(original: Seq<u8>, j: Job, rank: int, m: Machine)
    requires
        succeeds(original, j),
        0 <= rank < j.order.len(),
        rank < 1000,
        m.rom == built(original, j),
        is_glyph_call(m),
        seq![m.a, m.peek(m.de)] == rank_code(rank),
    ensures
        called_glyph(m) == glyph_cell(j.order[rank], j.font),
{
    let code = seq![m.a, m.peek(m.de)];
    law_rank_from_code(rank);
    assert(code[0] == m.a && code[1] == m.peek(m.de));
    law_glyphs_read_back(original, j, rank);
    let at = 0x80000 + 8 * rank;
    assert(rank_of_code(m.a, m.peek(m.de)) == rank);
    assert(called_glyph(m) =~= m.rom.subrange(at, at + 8));
}

// ---------------------------------------------------------------------------
// Single relocations
// ---------------------------------------------------------------------------

proof fn lemma_pointer_then_text(
    p: Progress,
    label: Seq<char>,
    dst: int,
    bytes: Seq<u8>,
    pointer_label: Seq<char>,
    at: int,
    known: Seq<u8>,
    bank_base: int,
    slot_base: int,
)
    requires
        p.rom.wf(),
        0 <= at,
        0 <= dst,
        0 <= slot_base,
        pointer_to(bank_base, dst, slot_base) is Ok,
        p.free(label, dst, bytes).checked(
            pointer_label,
            at,
            known,
            le16(pointer_to(bank_base, dst, slot_base)->Ok_0),
        ).fault is None,
    ensures
        leads_to(
            p.free(label, dst, bytes).checked(
                pointer_label,
                at,
                known,
                le16(pointer_to(bank_base, dst, slot_base)->Ok_0),
            ).rom.data,
            at,
            bank_base,
            slot_base,
            bytes,
        ),
{
    let ptr = pointer_to(bank_base, dst, slot_base)->Ok_0;
    let q = p.free(label, dst, bytes);
    let r = q.checked(pointer_label, at, known, le16(ptr));
    lemma_written_wf(p.rom, label, dst, bytes);
    law_written_stays(q, pointer_label, at, le16(ptr), ExpectView::Bytes(known));
    law_written_is_there(p, label, dst, bytes, ExpectView::FreeSpace(0xFF), r);
    lemma_after_itself(r);
    law_written_is_there(q, pointer_label, at, le16(ptr), ExpectView::Bytes(known), r);
    let seen = r.rom.data.subrange(at, at + 2);
    assert(le16(ptr).len() == 2);
    assert(r.rom.data[at] == seen[0]);
    assert(r.rom.data[at + 1] == seen[1]);
    assert(word_at(r.rom.data, at) == ptr);
    law_pointer_round_trip(bank_base, dst, slot_base);
}

/// A cutscene script that has been moved is where its pointer leads.
pub proof fn law_moved_cutscene_reads_back(p: Progress, entry: EntryView, bytes: Seq<u8>, dst: int)
    requires
        p.rom.wf(),
        0 <= entry.index,
        cutscene_relocated(p, entry, bytes, dst).fault is None,
    ensures
        leads_to(
            cutscene_relocated(p, entry, bytes, dst).rom.data,
            0x1B162 + 2 * entry.index,
            0x18000,
            0x8000,
            bytes,
        ),
{
    let old_ptr = pointer_to(0x18000, entry.offset, 0x8000)->Ok_0;
    lemma_pointer_then_text(
        p,
        "cutscene relocation data "@ + entry.id,
        dst,
        bytes,
        "cutscene relocation pointer "@ + entry.id,
        0x1B162 + 2 * entry.index,
        le16(old_ptr),
        0x18000,
        0x8000,
    );
}

/// A region's script that has been moved is where its pointer leads. The bank is the one
/// that was found before the text was written, the pointer's place the one that was found
/// after that.
pub proof fn law_moved_region_script_reads_back(
    p: Progress,
    entry: EntryView,
    bytes: Seq<u8>,
    dst: int,
)
    requires
        p.rom.wf(),
        0 <= entry.index,
        entry.region matches Some(region) ==> 0 <= region,
        region_relocated(p, entry, bytes, dst).fault is None,
    ensures
        entry.region is Some,
        region_bank(p.rom.data, entry.region->0) is Ok,
        ({
            let with_text = p.free("region relocation data "@ + entry.id, dst, bytes).rom.data;
            let at = region_pointer_at(with_text, entry.region->0, entry.index);
            &&& at is Ok
            &&& leads_to(
                region_relocated(p, entry, bytes, dst).rom.data,
                at->Ok_0,
                region_bank(p.rom.data, entry.region->0)->Ok_0,
                0x4000,
                bytes,
            )
        }),
{
    let region = entry.region->0;
    let q = p.free("region relocation data "@ + entry.id, dst, bytes);
    let old_ptr = region_pointer_to(q.rom.data, region, entry.offset)->Ok_0;
    lemma_pointer_then_text(
        p,
        "region relocation data "@ + entry.id,
        dst,
        bytes,
        "region relocation pointer "@ + entry.id,
        region_pointer_at(q.rom.data, region, entry.index)->Ok_0,
        le16(old_ptr),
        region_bank(p.rom.data, region)->Ok_0,
        0x4000,
    );
}

// ---------------------------------------------------------------------------
// The cutscene layout by itself
// ---------------------------------------------------------------------------

/// Once the cutscene text has been laid out anew, every pointer of its table leads to the
/// text of its script. A script without text has pointer 0.
pub proof fn law_repacked_cutscene_reads_back(p: Progress, t: Texts, i: int)
    requires
        p.rom.wf(),
        cutscenes_repacked(p, t).fault is None,
        0 <= i < 0xA8,
    ensures
        cutscene_text(t, i) is Ok,
        ({
            let rom = cutscenes_repacked(p, t).rom.data;
            let text = cutscene_text(t, i)->Ok_0;
            if text.len() > 0 {
                leads_to(rom, 0x1B162 + 2 * i, 0x18000, 0x8000, text)
            } else {
                word(rom, 0x1B162 + 2 * i) == Ok::<int, Fault>(0)
            }
        }),
{
    let f = cutscenes_repacked(p, t);
    let rom = f.rom.data;
    assert(p.sound(p.rom.data));
    lemma_after_itself(f);
    lemma_cutscene_written(p, t, p.rom.data, i, f);
    lemma_cutscene_strings(t, 0xA8);
    let strings = cutscene_strings(t, 0xA8)->Ok_0;
    let addrs = placing(strings, 0xA8)->Ok_0.addrs;
    let table = cutscene_table(strings, addrs, 0xA8);
    assert(cutscene_text(t, i) == Ok::<Seq<u8>, Fault>(strings[i]));
    let seen = rom.subrange(0x1B162, 0x1B2B2);
    assert(rom[0x1B162 + 2 * i] == seen[2 * i]);
    assert(rom[0x1B162 + 2 * i + 1] == seen[2 * i + 1]);
    assert(word_at(rom, 0x1B162 + 2 * i) == word_at(table, 2 * i));
}

/// Whether a byte lies where cutscene text and its table go: the first stretch up to the
/// end of the table, or the second stretch.
pub open spec fn is_cutscene_room(i: int) -> bool {
    0x1A66D <= i < 0x1B2B2 || 0x1B826 <= i < 0x1C000
}

proof fn lemma_written_spares(
    p: Progress,
    strings: Seq<Seq<u8>>,
    addrs: Seq<int>,
    n: int,
    i: int,
)
    requires
        strings.len() == 0xA8,
        placing(strings, 0xA8) is Ok,
        addrs == placing(strings, 0xA8)->Ok_0.addrs,
        0 <= n <= 0xA8,
        0 <= i < p.rom.data.len(),
        !is_cutscene_room(i),
    ensures
        cutscenes_written(p, strings, addrs, n).rom.data.len() == p.rom.data.len(),
        cutscenes_written(p, strings, addrs, n).rom.data[i] == p.rom.data[i],
    decreases n,
{
    if n > 0 {
        lemma_written_spares(p, strings, addrs, n - 1, i);
        law_cutscenes_keep_to_their_stretches(strings, 0xA8);
        if strings[n - 1].len() > 0 {
            let end = addrs[n - 1] + strings[n - 1].len();
            assert(0x1A66D <= addrs[n - 1] && end <= 0x1B162 || 0x1B826 <= addrs[n - 1] && end
                <= 0x1C000);
        }
    }
}

/// Laying the cutscene text out anew changes nothing outside its stretches and its table:
/// the code between table and handler stays as it is.
pub proof fn law_cutscene_repack_spares(p: Progress, t: Texts, i: int)
    requires
        0 <= i < p.rom.data.len(),
        !is_cutscene_room(i),
    ensures
        cutscenes_repacked(p, t).rom.data.len() == p.rom.data.len(),
        cutscenes_repacked(p, t).rom.data[i] == p.rom.data[i],
{
    if p.fault is None && cutscene_strings(t, 0xA8) is Ok {
        let strings = cutscene_strings(t, 0xA8)->Ok_0;
        lemma_cutscene_strings(t, 0xA8);
        if placing(strings, 0xA8) is Ok {
            let addrs = placing(strings, 0xA8)->Ok_0.addrs;
            lemma_written_spares(p, strings, addrs, 0xA8, i);
            law_cutscenes_keep_to_their_stretches(strings, 0xA8);
            lemma_table(strings, addrs, 0xA8, 0);
        }
    }
}

} // verus!
