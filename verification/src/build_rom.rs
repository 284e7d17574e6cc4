//! The translated ROM, from the source and a translation plan.
use vstd::prelude::*;
use crate::bytes::{le16, push_all, to_vec};
use crate::error::{plain, Fault, PatchError};
use crate::font::GlyphFont;
use crate::glyph::{dynamic_punctuation_glyph, punctuation, KO_BANK_PHYS};
use crate::header::{with_checksum, TmrSegaHeader};
use crate::parse::same_str;
use crate::patching::{
    ensure_all_writes_tracked, law_chain_stays_sound, law_written_stays, lemma_after,
    lemma_after_itself, overwrite_tracked, progress, write_checked, write_free, Progress,
};
use crate::pointers::{
    cutscene_pointer_for_physical, pointer_to, region_original_pointers, region_pointers,
    region_string_count, script_count,
};
use crate::rom::{
    call_hooked, expanded, expanded_source, install_ko_prefix2_hook, mark_rom_size_1mb,
    money_patched, patch_money_glyph, renderer_hooked, size_marked, source_drift,
    validate_translation_source, REGION_REPACK_BASE,
};
use crate::script::{
    all_entries, bytes_of, entry_fault, entry_views, extract_entries, lemma_extracted_sound,
    raw_entry_bytes, EntryView, ScriptEntry, ScriptKind,
};
use crate::script_bins::{build_region_repack_bin, byte_views, position_views, repack_bin};
use crate::text::{dec, hex, text};
use crate::tracked_rom::{RomView, TrackedRom};
use crate::translation::{encoded_views, EncodedOverride, EncodedView, TranslationPlan};
use crate::ui_labels::{
    apply_ui_labels, has_ui_labels, label_in_place, labels_in_place, labels_moved,
    ui_labels_applied, AssetLoads,
};

verus! {

// ---------------------------------------------------------------------------
// What a build works with
// ---------------------------------------------------------------------------

/// Machine code that a build puts into the ROM, as assembled.
#[derive(Debug)]
pub struct HookCode {
    /// The handler of Korean glyphs.
    pub handler: Vec<u8>,
    /// The jump to it.
    pub jump: [u8; 3],
    /// The instructions that ask for the moved interface graphics.
    pub loads: AssetLoads,
}

/// The texts of a build, as a model.
pub struct Texts {
    /// The scripts of the source.
    pub entries: Seq<EntryView>,
    /// The translated scripts.
    pub encoded: Seq<EncodedView>,
}

/// The texts that two lists hold.
pub open spec fn texts_of(entries: Seq<ScriptEntry>, encoded: Seq<EncodedOverride>) -> Texts {
    Texts { entries: entry_views(entries), encoded: encoded_views(encoded) }
}

/// What a build works with, as a model.
pub struct Job {
    /// The texts.
    pub texts: Texts,
    /// The order of glyphs.
    pub order: Seq<char>,
    /// The font.
    pub font: GlyphFont,
    /// The handler of Korean glyphs.
    pub handler: Seq<u8>,
    /// The jump to it.
    pub jump: Seq<u8>,
    /// The instruction that asks for the moved save button.
    pub save_load: Seq<u8>,
    /// The instruction that asks for the moved flee buttons.
    pub flee_load: Seq<u8>,
}

/// The last script with a given name.
pub open spec fn entry_index(entries: Seq<EntryView>, id: Seq<char>) -> Option<int>
    decreases entries.len(),
{
    if entries.len() == 0 {
        None
    } else if entries.last().id == id {
        Some(entries.len() - 1)
    } else {
        entry_index(entries.drop_last(), id)
    }
}

/// The last translated script with a given name.
pub open spec fn encoded_index(encoded: Seq<EncodedView>, id: Seq<char>) -> Option<int>
    decreases encoded.len(),
{
    if encoded.len() == 0 {
        None
    } else if encoded.last().id == id {
        Some(encoded.len() - 1)
    } else {
        encoded_index(encoded.drop_last(), id)
    }
}

fn find_entry(entries: &[ScriptEntry], id: &str) -> (r: Option<usize>)
    ensures
        match r {
            Some(k) => k < entries@.len() && entry_index(entry_views(entries@), id@) == Some(
                k as int,
            ),
            None => entry_index(entry_views(entries@), id@) is None,
        },
{
    let ghost all = entry_views(entries@);
    let mut n: usize = entries.len();
    proof {
        assert(all.take(n as int) =~= all);
    }
    while n > 0
        invariant
            n <= entries@.len(),
            all == entry_views(entries@),
            entry_index(all, id@) == entry_index(all.take(n as int), id@),
        decreases n,
    {
        proof {
            assert(all.take(n as int).last() == entries@[n - 1]@);
            assert(all.take(n as int).drop_last() =~= all.take(n - 1));
        }
        if same_str(entries[n - 1].id.as_str(), id) {
            return Some(n - 1);
        }
        n -= 1;
    }
    None
}

fn find_encoded(encoded: &[EncodedOverride], id: &str) -> (r: Option<usize>)
    ensures
        match r {
            Some(k) => k < encoded@.len() && encoded_index(encoded_views(encoded@), id@) == Some(
                k as int,
            ),
            None => encoded_index(encoded_views(encoded@), id@) is None,
        },
{
    let ghost all = encoded_views(encoded@);
    let mut n: usize = encoded.len();
    proof {
        assert(all.take(n as int) =~= all);
    }
    while n > 0
        invariant
            n <= encoded@.len(),
            all == encoded_views(encoded@),
            encoded_index(all, id@) == encoded_index(all.take(n as int), id@),
        decreases n,
    {
        proof {
            assert(all.take(n as int).last() == encoded@[n - 1]@);
            assert(all.take(n as int).drop_last() =~= all.take(n - 1));
        }
        if same_str(encoded[n - 1].id.as_str(), id) {
            return Some(n - 1);
        }
        n -= 1;
    }
    None
}

/// The bytes of a script in the build: its translation where there is one, which must
/// have been made from it; else its own bytes; none where it does not exist.
pub open spec fn string_for(
    entries: Seq<EntryView>,
    encoded: Seq<EncodedView>,
    id: Seq<char>,
    unknown: Seq<char>,
) -> Result<Seq<u8>, Fault> {
    match (encoded_index(encoded, id), entry_index(entries, id)) {
        (Some(_), None) => Err(plain(unknown + id)),
        (Some(k), Some(e)) => match source_drift(entries[e], encoded[k]) {
            Some(f) => Err(f),
            None => Ok(encoded[k].bytes),
        },
        (None, Some(e)) => bytes_of(entries[e]),
        (None, None) => Ok(Seq::empty()),
    }
}

fn make_string(
    entries: &[ScriptEntry],
    encoded: &[EncodedOverride],
    id: &str,
    unknown: &str,
) -> (res: Result<Vec<u8>, PatchError>)
    ensures
        crate::error::outcome(res) == string_for(
            entry_views(entries@),
            encoded_views(encoded@),
            id@,
            unknown@,
        ),
{
    match find_encoded(encoded, id) {
        Some(k) => {
            proof {
                assert(encoded_views(encoded@)[k as int] == encoded@[k as int]@);
            }
            match find_entry(entries, id) {
                None => Err(text(unknown).lit(id).fail()),
                Some(e) => {
                    proof {
                        assert(entry_views(entries@)[e as int] == entries@[e as int]@);
                    }
                    match validate_translation_source(&entries[e], &encoded[k]) {
                        Ok(_) => Ok(to_vec(encoded[k].bytes.as_slice())),
                        Err(err) => Err(err),
                    }
                },
            }
        },
        None => match find_entry(entries, id) {
            Some(e) => {
                proof {
                    assert(entry_views(entries@)[e as int] == entries@[e as int]@);
                }
                raw_entry_bytes(&entries[e])
            },
            None => {
                let none: Vec<u8> = Vec::new();
                proof {
                    assert(none@ =~= Seq::<u8>::empty());
                }
                Ok(none)
            },
        },
    }
}

// ---------------------------------------------------------------------------
// Glyphs
// ---------------------------------------------------------------------------

/// The cell of an added glyph: drawn for punctuation marks, rendered for the rest.
pub open spec fn glyph_cell(ch: char, font: GlyphFont) -> Seq<u8> {
    match punctuation(ch) {
        Some(cell) => cell@,
        None => font.cell(ch),
    }
}

/// The cells of the first `n` added glyphs.
pub open spec fn glyph_bank(order: Seq<char>, font: GlyphFont, n: int) -> Seq<u8>
    decreases n,
{
    if n <= 0 {
        Seq::empty()
    } else {
        glyph_bank(order, font, n - 1) + glyph_cell(order[n - 1], font)
    }
}

/// Whether a font has every glyph that is rendered.
pub open spec fn has_glyphs_of(font: GlyphFont, order: Seq<char>) -> bool {
    forall|i: int|
        0 <= i < order.len() ==> punctuation(#[trigger] order[i]) is Some || font.has(order[i])
}

/// Whether a font has every glyph that is rendered.
pub fn font_has_glyphs_of(font: &GlyphFont, order: &[char]) -> (r: bool)
    ensures
        r == has_glyphs_of(*font, order@),
{
    let mut i: usize = 0;
    while i < order.len()
        invariant
            i <= order@.len(),
            forall|k: int|
                0 <= k < i ==> punctuation(#[trigger] order@[k]) is Some || font.has(order@[k]),
        decreases order@.len() - i,
    {
        if dynamic_punctuation_glyph(order[i]).is_none() && font.find(order[i]).is_none() {
            return false;
        }
        i += 1;
    }
    true
}

fn make_glyph_bank(order: &[char], font: &GlyphFont) -> (bank: Vec<u8>)
    requires
        font.wf(),
        has_glyphs_of(*font, order@),
        order@.len() <= 1000,
    ensures
        bank@ == glyph_bank(order@, *font, order@.len() as int),
        bank@.len() == 8 * order@.len(),
{
    let mut bank: Vec<u8> = Vec::new();
    let mut i: usize = 0;
    while i < order.len()
        invariant
            font.wf(),
            has_glyphs_of(*font, order@),
            i <= order@.len(),
            bank@ == glyph_bank(order@, *font, i as int),
            bank@.len() == 8 * i,
        decreases order@.len() - i,
    {
        let ch: char = order[i];
        let cell: [u8; 8] = match dynamic_punctuation_glyph(ch) {
            Some(cell) => cell,
            None => font.render(ch),
        };
        push_all(&mut bank, cell.as_slice());
        i += 1;
    }
    bank
}

/// The glyph of rank `i` stands at eight times its rank in the glyph bank, which is
/// where the handler looks for it.
pub proof fn law_glyph_stands_at_its_rank(order: Seq<char>, font: GlyphFont, n: int, i: int)
    requires
        0 <= i < n <= order.len(),
    ensures
        glyph_bank(order, font, n).len() == 8 * n,
        glyph_bank(order, font, n).subrange(8 * i, 8 * i + 8) == glyph_cell(order[i], font),
    decreases n,
{
    let prev = glyph_bank(order, font, n - 1);
    let cell = glyph_cell(order[n - 1], font);
    lemma_bank_len(order, font, n - 1);
    assert(cell.len() == 8);
    if i < n - 1 {
        law_glyph_stands_at_its_rank(order, font, n - 1, i);
        assert((prev + cell).subrange(8 * i, 8 * i + 8) =~= prev.subrange(8 * i, 8 * i + 8));
    } else {
        assert((prev + cell).subrange(8 * i, 8 * i + 8) =~= cell);
    }
}

proof fn lemma_bank_len(order: Seq<char>, font: GlyphFont, n: int)
    requires
        0 <= n <= order.len(),
    ensures
        glyph_bank(order, font, n).len() == 8 * n,
    decreases n,
{
    if n > 0 {
        lemma_bank_len(order, font, n - 1);
        assert(glyph_cell(order[n - 1], font).len() == 8);
    }
}

/// A chain of writes after the glyphs, their handler and the new size code have been
/// put in.
pub open spec fn glyphs_installed(p: Progress, j: Job, original: Seq<u8>) -> Progress {
    size_marked(
        renderer_hooked(
            p.free(
                "build ko glyph bank"@,
                0x80000,
                glyph_bank(j.order, j.font, j.order.len() as int),
            ),
            j.handler,
            j.jump,
        ),
        original,
    )
}

fn install_glyphs(rom: &mut TrackedRom, order: &[char], font: &GlyphFont, code: &HookCode, original: &[u8]) -> (res:
    Result<(), PatchError>)
    requires
        old(rom)@.wf(),
        font.wf(),
        has_glyphs_of(*font, order@),
        order@.len() <= 1000,
        code.handler@.len() <= 0x100,
        original@.len() > 0x7FFF,
    ensures
        ({
            let p = Progress::begin(old(rom)@);
            progress(final(rom)@, res) == size_marked(
                renderer_hooked(
                    p.free(
                        "build ko glyph bank"@,
                        0x80000,
                        glyph_bank(order@, *font, order@.len() as int),
                    ),
                    code.handler@,
                    code.jump@,
                ),
                original@,
            )
        }),
        final(rom)@.wf(),
{
    let bank = make_glyph_bank(order, font);
    match write_free(rom, "build ko glyph bank", KO_BANK_PHYS, bank.as_slice()) {
        Ok(_) => {},
        Err(e) => {
            return Err(e);
        },
    }
    match install_ko_prefix2_hook(rom, code.handler.as_slice(), &code.jump) {
        Ok(_) => {},
        Err(e) => {
            return Err(e);
        },
    }
    mark_rom_size_1mb(rom, original)
}

// ---------------------------------------------------------------------------
// Regions
// ---------------------------------------------------------------------------

/// The strings of the first `n` scripts of a region.
pub open spec fn region_strings(t: Texts, region: int, n: int) -> Result<Seq<Seq<u8>>, Fault>
    decreases n,
{
    if n <= 0 {
        Ok(Seq::empty())
    } else {
        match region_strings(t, region, n - 1) {
            Err(e) => Err(e),
            Ok(list) => match string_for(
                t.entries,
                t.encoded,
                "region/"@ + dec(region) + "/"@ + hex(n - 1, 3),
                "region repack: 알 수 없는 id "@,
            ) {
                Err(e) => Err(e),
                Ok(s) => Ok(list.push(s)),
            },
        }
    }
}

/// The image of a region's bank: a header, the pointer to the table, filler, the table
/// with its strings, and filler.
pub open spec fn region_image(bin: Seq<u8>) -> Seq<u8> {
    seq![0x42u8, 0x30u8, 0x37u8, 0x07u8] + le16(0x4010) + Seq::new(10, |i: int| 0xFFu8) + bin
        + Seq::new((0x3FF0 - bin.len()) as nat, |i: int| 0xFFu8)
}

/// A chain of writes after the strings of a region have been put into a bank of their
/// own and the table of regions has been led there.
pub open spec fn bank_repacked(p: Progress, region: int, strings: Seq<Seq<u8>>, bank: int) -> Progress {
    if p.fault is Some {
        p
    } else {
        match region_pointers(p.rom.data, region, script_count(region)) {
            Err(e) => p.fail(e),
            Ok(orig) => match repack_bin(strings, orig, 0x10) {
                Err(e) => p.fail(e),
                Ok(bin) => if 0x10 + bin.len() > 0x4000 {
                    p.fail(
                        plain(
                            "region "@ + dec(region) + " 대사 bin("@ + dec(bin.len() as int)
                                + "B)이 16KB 뱅크를 초과"@,
                        ),
                    )
                } else {
                    let q = p.free(
                        "region "@ + dec(region) + " repack bank"@,
                        bank * 0x4000,
                        region_image(bin),
                    );
                    if q.fault is Some {
                        q
                    } else {
                        q.over(
                            "region "@ + dec(region) + " loc redirect"@,
                            0x1A069 + region * 2,
                            seq![0x00u8, bank as u8],
                        )
                    }
                },
            },
        }
    }
}

/// A chain of writes after the strings of a region have been moved.
pub open spec fn region_repacked(p: Progress, t: Texts, region: int) -> Progress {
    if p.fault is Some {
        p
    } else {
        match region_strings(t, region, script_count(region)) {
            Err(e) => p.fail(e),
            Ok(strings) => bank_repacked(p, region, strings, 33 + region),
        }
    }
}

/// A chain of writes after the strings of the first `n` regions have been moved.
pub open spec fn regions_repacked(p: Progress, t: Texts, n: int) -> Progress
    decreases n,
{
    if n <= 0 {
        p
    } else {
        region_repacked(regions_repacked(p, t, n - 1), t, n - 1)
    }
}

fn make_region_image(bin: &[u8]) -> (image: Vec<u8>)
    requires
        bin@.len() <= 0x3FF0,
    ensures
        image@ == region_image(bin@),
        image@.len() == 0x4000,
{
    let mut image: Vec<u8> = vec![
        0x42,
        0x30,
        0x37,
        0x07,
        0x10,
        0x40,
        0xFF,
        0xFF,
        0xFF,
        0xFF,
        0xFF,
        0xFF,
        0xFF,
        0xFF,
        0xFF,
        0xFF,
    ];
    proof {
        assert(image@ =~= seq![0x42u8, 0x30u8, 0x37u8, 0x07u8] + le16(0x4010) + Seq::new(
            10,
            |i: int| 0xFFu8,
        ));
    }
    push_all(&mut image, bin);
    let ghost body = image@;
    while image.len() < 0x4000
        invariant
            body.len() <= image@.len() <= 0x4000,
            image@ =~= body + Seq::new((image@.len() - body.len()) as nat, |i: int| 0xFFu8),
        decreases 0x4000 - image@.len(),
    {
        image.push(0xFF);
    }
    proof {
        assert(image@ =~= region_image(bin@));
    }
    image
}

/// Puts the strings of a region into a bank of their own and leads the table of regions
/// there.
pub fn repack_region(rom: &mut TrackedRom, region: usize, strings: &[Vec<u8>], target_bank: u8) -> (res:
    Result<(), PatchError>)
    requires
        old(rom)@.wf(),
        region < 11,
    ensures
        progress(final(rom)@, res) == bank_repacked(
            Progress::begin(old(rom)@),
            region as int,
            byte_views(strings@),
            target_bank as int,
        ),
        final(rom)@.wf(),
{
    let orig = match region_original_pointers(rom.data(), region) {
        Ok(orig) => orig,
        Err(e) => {
            return Err(e);
        },
    };
    let bin = match build_region_repack_bin(strings, orig.as_slice(), 0x10) {
        Ok(bin) => bin,
        Err(e) => {
            return Err(e);
        },
    };
    if bin.len() > 0x3FF0 {
        return Err(
            text("region ").dec(region).lit(" 대사 bin(").dec(bin.len()).lit(
                "B)이 16KB 뱅크를 초과",
            ).fail(),
        );
    }
    let image = make_region_image(bin.as_slice());
    let label = text("region ").dec(region).lit(" repack bank").finish();
    let ghost before = rom@;
    match write_free(rom, label.as_str(), target_bank as usize * 0x4000, image.as_slice()) {
        Ok(_) => {},
        Err(e) => {
            return Err(e);
        },
    }
    proof {
        lemma_pointers_need_table(before.data, region as int, script_count(region as int));
    }
    let label = text("region ").dec(region).lit(" loc redirect").finish();
    let redirect: [u8; 2] = [0x00, target_bank];
    proof {
        assert(redirect@ =~= seq![0x00u8, target_bank]);
    }
    overwrite_tracked(rom, label.as_str(), 0x1A069 + region * 2, redirect.as_slice())
}

proof fn lemma_pointers_need_table(rom: Seq<u8>, region: int, n: int)
    requires
        region_pointers(rom, region, n) is Ok,
    ensures
        0x1A069 + region * 2 + 1 < rom.len(),
{
}

fn make_region_strings(entries: &[ScriptEntry], encoded: &[EncodedOverride], region: usize) -> (res: Result<Vec<Vec<u8>>, PatchError>)
    requires
        region < 11,
    ensures
        match res {
            Ok(list) => region_strings(texts_of(entries@, encoded@), region as int, script_count(region as int)) == Ok::<
                Seq<Seq<u8>>,
                Fault,
            >(byte_views(list@)),
            Err(e) => region_strings(texts_of(entries@, encoded@), region as int, script_count(region as int)) == Err::<
                Seq<Seq<u8>>,
                Fault,
            >(e@),
        },
{
    let ghost t = texts_of(entries@, encoded@);
    let count: usize = region_string_count(region);
    let mut list: Vec<Vec<u8>> = Vec::new();
    let mut i: usize = 0;
    proof {
        assert(byte_views(list@) =~= Seq::empty());
    }
    while i < count
        invariant
            t == texts_of(entries@, encoded@),
            i <= count,
            region < 11,
            count == script_count(region as int),
            region_strings(t, region as int, i as int) == Ok::<Seq<Seq<u8>>, Fault>(
                byte_views(list@),
            ),
        decreases count - i,
    {
        let id = text("region/").dec(region).lit("/").hex(i, 3).finish();
        match make_string(entries, encoded, id.as_str(), "region repack: 알 수 없는 id ") {
            Ok(s) => {
                let ghost was = byte_views(list@);
                list.push(s);
                proof {
                    assert(byte_views(list@) =~= was.push(s@));
                }
            },
            Err(e) => {
                proof {
                    lemma_region_strings_fail(t, region as int, i + 1, count as int);
                }
                return Err(e);
            },
        }
        i += 1;
    }
    Ok(list)
}

proof fn lemma_region_strings_fail(t: Texts, region: int, k: int, n: int)
    requires
        k <= n,
        region_strings(t, region, k) is Err,
    ensures
        region_strings(t, region, n) == region_strings(t, region, k),
    decreases n - k,
{
    if k < n {
        lemma_region_strings_fail(t, region, k, n - 1);
    }
}

proof fn lemma_regions_fail(p: Progress, t: Texts, k: int, n: int)
    requires
        k <= n,
        regions_repacked(p, t, k).fault is Some,
    ensures
        regions_repacked(p, t, n) == regions_repacked(p, t, k),
    decreases n - k,
{
    if k < n {
        lemma_regions_fail(p, t, k, n - 1);
    }
}

fn repack_regions(rom: &mut TrackedRom, entries: &[ScriptEntry], encoded: &[EncodedOverride]) -> (res: Result<(), PatchError>)
    requires
        old(rom)@.wf(),
    ensures
        progress(final(rom)@, res) == regions_repacked(Progress::begin(old(rom)@), texts_of(entries@, encoded@), 11),
        final(rom)@.wf(),
{
    let ghost t = texts_of(entries@, encoded@);
    let ghost start = Progress::begin(rom@);
    let mut region: usize = 0;
    while region < 11
        invariant
            t == texts_of(entries@, encoded@),
            region <= 11,
            rom@.wf(),
            start == Progress::begin(old(rom)@),
            regions_repacked(start, t, region as int) == Progress::begin(rom@),
        decreases 11 - region,
    {
        let strings = match make_region_strings(entries, encoded, region) {
            Ok(list) => list,
            Err(e) => {
                proof {
                    lemma_regions_fail(start, t, region + 1, 11);
                }
                return Err(e);
            },
        };
        match repack_region(rom, region, strings.as_slice(), REGION_REPACK_BASE + region as u8) {
            Ok(_) => {},
            Err(e) => {
                proof {
                    lemma_regions_fail(start, t, region + 1, 11);
                }
                return Err(e);
            },
        }
        region += 1;
    }
    Ok(())
}

// ---------------------------------------------------------------------------
// Cutscenes
// ---------------------------------------------------------------------------

/// The strings of the first `n` cutscene scripts.
pub open spec fn cutscene_strings(t: Texts, n: int) -> Result<Seq<Seq<u8>>, Fault>
    decreases n,
{
    if n <= 0 {
        Ok(Seq::empty())
    } else {
        match cutscene_strings(t, n - 1) {
            Err(e) => Err(e),
            Ok(list) => match string_for(
                t.entries,
                t.encoded,
                "cutscene/"@ + hex(n - 1, 3),
                "cutscene repack: 알 수 없는 id "@,
            ) {
                Err(e) => Err(e),
                Ok(s) => Ok(list.push(s)),
            },
        }
    }
}

/// Where the two stretches for cutscene text start: the old text, and the free space
/// behind the glyph handler.
pub open spec fn stretch_start(k: int) -> int {
    if k == 0 {
        0x1A66D
    } else {
        0x1B826
    }
}

/// Where the two stretches end: at the pointer table, and at the end of the bank.
pub open spec fn stretch_end(k: int) -> int {
    if k == 0 {
        0x1B162
    } else {
        0x1C000
    }
}

/// How far strings have been placed.
#[verifier::ext_equal]
pub struct Placing {
    /// The stretch in use.
    pub stretch: int,
    /// Where the next string goes.
    pub cursor: int,
    /// The address of each string, 0 for empty ones.
    pub addrs: Seq<int>,
}

/// Where the first `n` strings go: one after the other, going on to the second stretch
/// once the first has no room for the next string.
pub open spec fn placing(strings: Seq<Seq<u8>>, n: int) -> Result<Placing, Fault>
    decreases n,
{
    if n <= 0 {
        Ok(Placing { stretch: 0, cursor: 0x1A66D, addrs: Seq::empty() })
    } else {
        match placing(strings, n - 1) {
            Err(e) => Err(e),
            Ok(p) => {
                let len = strings[n - 1].len() as int;
                let moves = p.cursor + len > stretch_end(p.stretch);
                let stretch = if moves {
                    p.stretch + 1
                } else {
                    p.stretch
                };
                let at = if moves {
                    stretch_start(stretch)
                } else {
                    p.cursor
                };
                if len == 0 {
                    Ok(Placing { addrs: p.addrs.push(0), ..p })
                } else if stretch >= 2 {
                    Err(plain("cutscene repack: bank 6 자유공간 초과"@))
                } else if at + len > stretch_end(stretch) {
                    Err(
                        plain("cutscene repack: 문자열 "@ + hex(n - 1, 3) + "이 세그먼트를 초과"@),
                    )
                } else {
                    Ok(Placing { stretch, cursor: at + len, addrs: p.addrs.push(at) })
                }
            },
        }
    }
}

/// A chain of writes after the first `n` strings have been written where they go: over
/// the old text in the first stretch, to free space in the second.
pub open spec fn cutscenes_written(
    p: Progress,
    strings: Seq<Seq<u8>>,
    addrs: Seq<int>,
    n: int,
) -> Progress
    decreases n,
{
    if n <= 0 {
        p
    } else {
        let q = cutscenes_written(p, strings, addrs, n - 1);
        let label = "cutscene "@ + hex(n - 1, 3) + " repack"@;
        if strings[n - 1].len() == 0 || q.fault is Some {
            q
        } else if addrs[n - 1] >= 0x1B826 {
            q.free(label, addrs[n - 1], strings[n - 1])
        } else {
            q.over(label, addrs[n - 1], strings[n - 1])
        }
    }
}

/// The pointer table of the first `n` cutscene scripts; empty ones have pointer 0.
pub open spec fn cutscene_table(strings: Seq<Seq<u8>>, addrs: Seq<int>, n: int) -> Seq<u8>
    decreases n,
{
    if n <= 0 {
        Seq::empty()
    } else {
        cutscene_table(strings, addrs, n - 1) + le16(if strings[n - 1].len() == 0 {
            0
        } else {
            pointer_to(0x18000, addrs[n - 1], 0x8000)->Ok_0
        })
    }
}

/// A chain of writes after the cutscene text has been laid out anew within its bank.
pub open spec fn cutscenes_repacked(p: Progress, t: Texts) -> Progress {
    if p.fault is Some {
        p
    } else {
        match cutscene_strings(t, 0xA8) {
            Err(e) => p.fail(e),
            Ok(strings) => match placing(strings, 0xA8) {
                Err(e) => p.fail(e),
                Ok(placed) => {
                    let q = cutscenes_written(p, strings, placed.addrs, 0xA8);
                    if q.fault is Some {
                        q
                    } else {
                        q.over(
                            "cutscene table repack"@,
                            0x1B162,
                            cutscene_table(strings, placed.addrs, 0xA8),
                        )
                    }
                },
            },
        }
    }
}

/// Whether a ROM reaches far enough for what is written over old text, as far as the
/// writes come to that: each string of the first stretch, then the pointer table.
pub open spec fn has_cutscene_room(p: Progress, t: Texts) -> bool {
    cutscene_strings(t, 0xA8) matches Ok(strings) ==> placing(strings, 0xA8) matches Ok(placed)
        ==> {
        &&& strings_have_room(p, strings, placed.addrs)
        &&& cutscenes_written(p, strings, placed.addrs, 0xA8).fault is None ==> 0x1B2B2
            <= p.rom.data.len()
    }
}

/// Whether a ROM reaches to the end of each string of the first stretch, up to the first
/// one that cannot be written.
pub open spec fn strings_have_room(p: Progress, strings: Seq<Seq<u8>>, addrs: Seq<int>) -> bool {
    forall|i: int|
        0 <= i < 0xA8 && strings[i].len() > 0 && #[trigger] addrs[i] < 0x1B826
            && cutscenes_written(p, strings, addrs, i).fault is None ==> addrs[i]
            + strings[i].len() <= p.rom.data.len()
}

/// A ROM that holds the whole bank has room for all cutscene text.
proof fn lemma_whole_bank_has_room(p: Progress, t: Texts)
    requires
        p.rom.data.len() >= 0x1C000,
    ensures
        has_cutscene_room(p, t),
{
    if cutscene_strings(t, 0xA8) is Ok {
        let strings = cutscene_strings(t, 0xA8)->Ok_0;
        if placing(strings, 0xA8) is Ok {
            lemma_cutscene_string_count(t, 0xA8);
            law_cutscenes_keep_to_their_stretches(strings, 0xA8);
        }
    }
}

proof fn lemma_cutscene_string_count(t: Texts, n: int)
    requires
        0 <= n,
        cutscene_strings(t, n) is Ok,
    ensures
        cutscene_strings(t, n)->Ok_0.len() == n,
    decreases n,
{
    if n > 0 {
        lemma_cutscene_string_count(t, n - 1);
    }
}

proof fn lemma_cutscene_strings_fail(t: Texts, k: int, n: int)
    requires
        k <= n,
        cutscene_strings(t, k) is Err,
    ensures
        cutscene_strings(t, n) == cutscene_strings(t, k),
    decreases n - k,
{
    if k < n {
        lemma_cutscene_strings_fail(t, k, n - 1);
    }
}

proof fn lemma_placing_fail(strings: Seq<Seq<u8>>, k: int, n: int)
    requires
        k <= n,
        placing(strings, k) is Err,
    ensures
        placing(strings, n) == placing(strings, k),
    decreases n - k,
{
    if k < n {
        lemma_placing_fail(strings, k, n - 1);
    }
}

proof fn lemma_written_fail(p: Progress, strings: Seq<Seq<u8>>, addrs: Seq<int>, k: int, n: int)
    requires
        k <= n,
        cutscenes_written(p, strings, addrs, k).fault is Some,
    ensures
        cutscenes_written(p, strings, addrs, n) == cutscenes_written(p, strings, addrs, k),
    decreases n - k,
{
    if k < n {
        lemma_written_fail(p, strings, addrs, k, n - 1);
    }
}

/// Where strings are placed, each one lies within one of the stretches, and no two of
/// them overlap.
pub proof fn law_cutscenes_keep_to_their_stretches(strings: Seq<Seq<u8>>, n: int)
    requires
        0 <= n <= strings.len(),
        placing(strings, n) is Ok,
    ensures
        ({
            let p = placing(strings, n)->Ok_0;
            &&& p.addrs.len() == n
            &&& p.stretch == 0 || p.stretch == 1
            &&& stretch_start(p.stretch) <= p.cursor <= stretch_end(p.stretch)
            &&& forall|i: int|
                0 <= i < n && strings[i].len() > 0 ==> {
                    let end = #[trigger] p.addrs[i] + strings[i].len();
                    ||| 0x1A66D <= p.addrs[i] && end <= 0x1B162 && (p.stretch == 0 ==> end
                        <= p.cursor)
                    ||| 0x1B826 <= p.addrs[i] && p.stretch == 1 && end <= p.cursor
                }
            &&& forall|i: int, k: int|
                0 <= i < k < n && strings[i].len() > 0 && strings[k].len() > 0
                    ==> #[trigger] p.addrs[i] + strings[i].len() <= #[trigger] p.addrs[k]
        }),
    decreases n,
{
    if n > 0 {
        law_cutscenes_keep_to_their_stretches(strings, n - 1);
        let prev = placing(strings, n - 1)->Ok_0;
        let now = placing(strings, n)->Ok_0;
        assert forall|i: int| 0 <= i < n && strings[i].len() > 0 implies ({
            let end = #[trigger] now.addrs[i] + strings[i].len();
            ||| 0x1A66D <= now.addrs[i] && end <= 0x1B162 && (now.stretch == 0 ==> end
                <= now.cursor)
            ||| 0x1B826 <= now.addrs[i] && now.stretch == 1 && end <= now.cursor
        }) by {
            if i < n - 1 {
                assert(now.addrs[i] == prev.addrs[i]);
            }
        }
        assert forall|i: int, k: int|
            0 <= i < k < n && strings[i].len() > 0 && strings[k].len() > 0 implies #[trigger] now.addrs[i]
            + strings[i].len() <= #[trigger] now.addrs[k] by {
            assert(now.addrs[i] == prev.addrs[i]);
            if k < n - 1 {
                assert(now.addrs[k] == prev.addrs[k]);
            }
        }
    }
}

fn make_cutscene_strings(entries: &[ScriptEntry], encoded: &[EncodedOverride]) -> (res:
    Result<Vec<Vec<u8>>, PatchError>)
    ensures
        match res {
            Ok(list) => cutscene_strings(texts_of(entries@, encoded@), 0xA8) == Ok::<Seq<Seq<u8>>, Fault>(
                byte_views(list@),
            ) && list@.len() == 0xA8,
            Err(e) => cutscene_strings(texts_of(entries@, encoded@), 0xA8) == Err::<Seq<Seq<u8>>, Fault>(e@),
        },
{
    let ghost t = texts_of(entries@, encoded@);
    let mut list: Vec<Vec<u8>> = Vec::new();
    let mut i: usize = 0;
    proof {
        assert(byte_views(list@) =~= Seq::empty());
    }
    while i < 0xA8
        invariant
            t == texts_of(entries@, encoded@),
            i <= 0xA8,
            list@.len() == i,
            cutscene_strings(t, i as int) == Ok::<Seq<Seq<u8>>, Fault>(byte_views(list@)),
        decreases 0xA8 - i,
    {
        let id = text("cutscene/").hex(i, 3).finish();
        match make_string(entries, encoded, id.as_str(), "cutscene repack: 알 수 없는 id ") {
            Ok(s) => {
                let ghost was = byte_views(list@);
                list.push(s);
                proof {
                    assert(byte_views(list@) =~= was.push(s@));
                }
            },
            Err(e) => {
                proof {
                    lemma_cutscene_strings_fail(t, i + 1, 0xA8);
                }
                return Err(e);
            },
        }
        i += 1;
    }
    Ok(list)
}

fn place_cutscenes(strings: &[Vec<u8>]) -> (res: Result<Vec<usize>, PatchError>)
    requires
        strings@.len() == 0xA8,
    ensures
        match res {
            Ok(addrs) => placing(byte_views(strings@), 0xA8) matches Ok(p) && p.addrs
                == position_views(addrs@),
            Err(e) => placing(byte_views(strings@), 0xA8) == Err::<Placing, Fault>(e@),
        },
{
    let ghost list = byte_views(strings@);
    let mut addrs: Vec<usize> = Vec::new();
    let mut stretch: usize = 0;
    let mut cursor: usize = 0x1A66D;
    let mut i: usize = 0;
    proof {
        assert(position_views(addrs@) =~= Seq::<int>::empty());
    }
    while i < 0xA8
        invariant
            i <= 0xA8,
            strings@.len() == 0xA8,
            list == byte_views(strings@),
            stretch <= 1,
            cursor <= 0x1C000,
            placing(list, i as int) == Ok::<Placing, Fault>(
                Placing {
                    stretch: stretch as int,
                    cursor: cursor as int,
                    addrs: position_views(addrs@),
                },
            ),
        decreases 0xA8 - i,
    {
        let ghost was = position_views(addrs@);
        let len: usize = strings[i].len();
        proof {
            assert(list[i as int].len() == len);
        }
        if len == 0 {
            addrs.push(0);
            proof {
                assert(position_views(addrs@) =~= was.push(0));
            }
        } else {
            let end: usize = if stretch == 0 {
                0x1B162
            } else {
                0x1C000
            };
            if cursor > end || len > end - cursor {
                stretch += 1;
                if stretch >= 2 {
                    proof {
                        lemma_placing_fail(list, i + 1, 0xA8);
                    }
                    return Err(text("cutscene repack: bank 6 자유공간 초과").fail());
                }
                cursor = 0x1B826;
            }
            let end: usize = if stretch == 0 {
                0x1B162
            } else {
                0x1C000
            };
            if len > end - cursor {
                proof {
                    lemma_placing_fail(list, i + 1, 0xA8);
                }
                return Err(
                    text("cutscene repack: 문자열 ").hex(i, 3).lit("이 세그먼트를 초과").fail(),
                );
            }
            addrs.push(cursor);
            proof {
                assert(position_views(addrs@) =~= was.push(cursor as int));
            }
            cursor += len;
        }
        i += 1;
    }
    Ok(addrs)
}

fn write_cutscenes(rom: &mut TrackedRom, strings: &[Vec<u8>], addrs: &[usize]) -> (res: Result<
    (),
    PatchError,
>)
    requires
        old(rom)@.wf(),
        strings@.len() == 0xA8,
        strings_have_room(
            Progress::begin(old(rom)@),
            byte_views(strings@),
            position_views(addrs@),
        ),
        placing(byte_views(strings@), 0xA8) matches Ok(p) && p.addrs == position_views(addrs@),
    ensures
        progress(final(rom)@, res) == cutscenes_written(
            Progress::begin(old(rom)@),
            byte_views(strings@),
            position_views(addrs@),
            0xA8,
        ),
        final(rom)@.wf(),
        final(rom)@.data.len() == old(rom)@.data.len(),
{
    let ghost start = Progress::begin(rom@);
    let ghost list = byte_views(strings@);
    let ghost at = position_views(addrs@);
    let ghost size = rom@.data.len();
    proof {
        law_cutscenes_keep_to_their_stretches(list, 0xA8);
    }
    let mut i: usize = 0;
    while i < 0xA8
        invariant
            i <= 0xA8,
            strings@.len() == 0xA8,
            list == byte_views(strings@),
            at == position_views(addrs@),
            at.len() == 0xA8,
            start == Progress::begin(old(rom)@),
            rom@.wf(),
            rom@.data.len() == size,
            size == old(rom)@.data.len(),
            strings_have_room(start, list, at),
            forall|k: int|
                0 <= k < 0xA8 && list[k].len() > 0 ==> 0x1A66D <= #[trigger] at[k] && at[k]
                    + list[k].len() <= 0x1C000,
            cutscenes_written(start, list, at, i as int) == Progress::begin(rom@),
        decreases 0xA8 - i,
    {
        let s = strings[i].as_slice();
        proof {
            assert(list[i as int] == s@);
            assert(at[i as int] == addrs@[i as int]);
        }
        if s.len() > 0 {
            let label = text("cutscene ").hex(i, 3).lit(" repack").finish();
            let off: usize = addrs[i];
            let res = if off >= 0x1B826 {
                write_free(rom, label.as_str(), off, s)
            } else {
                overwrite_tracked(rom, label.as_str(), off, s)
            };
            match res {
                Ok(_) => {},
                Err(e) => {
                    proof {
                        lemma_written_fail(start, list, at, i + 1, 0xA8);
                    }
                    return Err(e);
                },
            }
        }
        i += 1;
    }
    Ok(())
}

fn make_cutscene_table(strings: &[Vec<u8>], addrs: &[usize]) -> (table: Vec<u8>)
    requires
        strings@.len() == 0xA8,
        placing(byte_views(strings@), 0xA8) matches Ok(p) && p.addrs == position_views(addrs@),
    ensures
        table@ == cutscene_table(byte_views(strings@), position_views(addrs@), 0xA8),
        table@.len() == 0x150,
{
    let ghost list = byte_views(strings@);
    let ghost at = position_views(addrs@);
    proof {
        law_cutscenes_keep_to_their_stretches(list, 0xA8);
    }
    let mut table: Vec<u8> = Vec::new();
    let mut i: usize = 0;
    while i < 0xA8
        invariant
            i <= 0xA8,
            strings@.len() == 0xA8,
            list == byte_views(strings@),
            at == position_views(addrs@),
            at.len() == 0xA8,
            forall|k: int|
                0 <= k < 0xA8 && list[k].len() > 0 ==> 0x1A66D <= #[trigger] at[k] && at[k]
                    + list[k].len() <= 0x1C000,
            table@ == cutscene_table(list, at, i as int),
            table@.len() == 2 * i,
        decreases 0xA8 - i,
    {
        let ghost was = table@;
        proof {
            assert(list[i as int] == strings@[i as int]@);
            assert(at[i as int] == addrs@[i as int]);
        }
        let ptr: u16 = if strings[i].len() == 0 {
            0
        } else {
            match cutscene_pointer_for_physical(addrs[i]) {
                Ok(ptr) => ptr,
                Err(_) => 0,
            }
        };
        table.push((ptr % 256) as u8);
        table.push((ptr / 256) as u8);
        proof {
            assert(table@ =~= was + le16(ptr as int));
        }
        i += 1;
    }
    table
}

/// Lays the cutscene text out anew within its bank: the strings in two stretches, the
/// pointer table in its old place. Returns how many scripts there are.
pub fn repack_cutscenes(rom: &mut TrackedRom, entries: &[ScriptEntry], encoded: &[EncodedOverride]) -> (res: Result<usize, PatchError>)
    requires
        old(rom)@.wf(),
        has_cutscene_room(Progress::begin(old(rom)@), texts_of(entries@, encoded@)),
    ensures
        ({
            let p = cutscenes_repacked(Progress::begin(old(rom)@), texts_of(entries@, encoded@));
            &&& final(rom)@ == p.rom
            &&& match res {
                Ok(n) => n == 0xA8 && p.fault is None,
                Err(e) => p.fault == Some(e@),
            }
        }),
        final(rom)@.wf(),
{
    let ghost t = texts_of(entries@, encoded@);
    let strings = match make_cutscene_strings(entries, encoded) {
        Ok(list) => list,
        Err(e) => {
            return Err(e);
        },
    };
    let addrs = match place_cutscenes(strings.as_slice()) {
        Ok(addrs) => addrs,
        Err(e) => {
            return Err(e);
        },
    };
    match write_cutscenes(rom, strings.as_slice(), addrs.as_slice()) {
        Ok(_) => {},
        Err(e) => {
            return Err(e);
        },
    }
    let table = make_cutscene_table(strings.as_slice(), addrs.as_slice());
    match overwrite_tracked(rom, "cutscene table repack", 0x1B162, table.as_slice()) {
        Ok(_) => Ok(0xA8),
        Err(e) => Err(e),
    }
}

// ---------------------------------------------------------------------------
// Shop texts
// ---------------------------------------------------------------------------

/// A chain of writes after the first `n` translated scripts have been put in place, as
/// far as they are not moved: shop texts, which keep their length.
pub open spec fn in_place_written(p: Progress, t: Texts, n: int) -> Progress
    decreases n,
{
    if n <= 0 {
        p
    } else {
        let q = in_place_written(p, t, n - 1);
        let e = t.encoded[n - 1];
        if q.fault is Some {
            q
        } else {
            match entry_index(t.entries, e.id) {
                None => q.fail(plain("알 수 없는 translation id: "@ + e.id)),
                Some(k) => {
                    let entry = t.entries[k];
                    if entry.kind != ScriptKind::Shop {
                        q
                    } else {
                        match source_drift(entry, e) {
                            Some(f) => q.fail(f),
                            None => if e.bytes.len() != entry.len {
                                q.fail(
                                    plain(
                                        entry.id
                                            + ": shop 문자열은 relocation 전까지 원본 길이와 정확히 같아야 함 ("@
                                            + dec(e.bytes.len() as int) + " != "@ + dec(entry.len)
                                            + ")"@,
                                    ),
                                )
                            } else {
                                match bytes_of(entry) {
                                    Err(f) => q.fail(f),
                                    Ok(known) => q.checked(
                                        "translation "@ + entry.id,
                                        entry.offset,
                                        known,
                                        e.bytes,
                                    ),
                                }
                            },
                        }
                    }
                },
            }
        }
    }
}

proof fn lemma_in_place_written_fail(p: Progress, t: Texts, k: int, n: int)
    requires
        k <= n,
        in_place_written(p, t, k).fault is Some,
    ensures
        in_place_written(p, t, n) == in_place_written(p, t, k),
    decreases n - k,
{
    if k < n {
        lemma_in_place_written_fail(p, t, k, n - 1);
    }
}

fn write_shop_text(rom: &mut TrackedRom, entry: &ScriptEntry, e: &EncodedOverride) -> (res: Result<
    (),
    PatchError,
>)
    requires
        old(rom)@.wf(),
        entry.offset + entry.len <= usize::MAX,
    ensures
        ({
            let p = Progress::begin(old(rom)@);
            progress(final(rom)@, res) == match source_drift(entry@, e@) {
                Some(f) => p.fail(f),
                None => if e@.bytes.len() != entry@.len {
                    p.fail(
                        plain(
                            entry@.id
                                + ": shop 문자열은 relocation 전까지 원본 길이와 정확히 같아야 함 ("@
                                + dec(e@.bytes.len() as int) + " != "@ + dec(entry@.len) + ")"@,
                        ),
                    )
                } else {
                    match bytes_of(entry@) {
                        Err(f) => p.fail(f),
                        Ok(known) => p.checked(
                            "translation "@ + entry@.id,
                            entry@.offset,
                            known,
                            e@.bytes,
                        ),
                    }
                },
            }
        }),
        final(rom)@.wf(),
{
    match validate_translation_source(entry, e) {
        Ok(_) => {},
        Err(err) => {
            return Err(err);
        },
    }
    if e.bytes.len() != entry.len {
        return Err(
            text(entry.id.as_str()).lit(
                ": shop 문자열은 relocation 전까지 원본 길이와 정확히 같아야 함 (",
            ).dec(e.bytes.len()).lit(" != ").dec(entry.len).lit(")").fail(),
        );
    }
    let known = match raw_entry_bytes(entry) {
        Ok(bytes) => bytes,
        Err(err) => {
            return Err(err);
        },
    };
    let label = text("translation ").lit(entry.id.as_str()).finish();
    write_checked(rom, label.as_str(), entry.offset, known.as_slice(), e.bytes.as_slice())
}

fn write_in_place(rom: &mut TrackedRom, entries: &[ScriptEntry], encoded: &[EncodedOverride]) -> (res: Result<(), PatchError>)
    requires
        old(rom)@.wf(),
        forall|k: int|
            0 <= k < entries@.len() ==> (#[trigger] entries@[k]).offset + entries@[k].len
                <= usize::MAX,
    ensures
        progress(final(rom)@, res) == in_place_written(
            Progress::begin(old(rom)@),
            texts_of(entries@, encoded@),
            encoded@.len() as int,
        ),
        final(rom)@.wf(),
{
    let ghost t = texts_of(entries@, encoded@);
    let ghost start = Progress::begin(rom@);
    let mut i: usize = 0;
    while i < encoded.len()
        invariant
            t == texts_of(entries@, encoded@),
            i <= encoded@.len(),
            rom@.wf(),
            start == Progress::begin(old(rom)@),
            forall|k: int|
                0 <= k < entries@.len() ==> (#[trigger] entries@[k]).offset + entries@[k].len
                    <= usize::MAX,
            in_place_written(start, t, i as int) == Progress::begin(rom@),
        decreases encoded@.len() - i,
    {
        let e = &encoded[i];
        proof {
            assert(t.encoded[i as int] == e@);
        }
        let k: usize = match find_entry(entries, e.id.as_str()) {
            Some(k) => k,
            None => {
                proof {
                    lemma_in_place_written_fail(start, t, i + 1, encoded@.len() as int);
                }
                return Err(
                    text("알 수 없는 translation id: ").lit(e.id.as_str()).fail(),
                );
            },
        };
        proof {
            assert(t.entries[k as int] == entries@[k as int]@);
        }
        if entries[k].kind == ScriptKind::Shop {
            match write_shop_text(rom, &entries[k], e) {
                Ok(_) => {},
                Err(err) => {
                    proof {
                        lemma_in_place_written_fail(start, t, i + 1, encoded@.len() as int);
                    }
                    return Err(err);
                },
            }
        }
        i += 1;
    }
    Ok(())
}

// ---------------------------------------------------------------------------
// The build
// ---------------------------------------------------------------------------

/// The chain of writes of a build. Without glyphs only texts in place and the currency
/// sign are written.
pub open spec fn build_chain(original: Seq<u8>, j: Job) -> Progress {
    let fresh = Progress::begin(RomView { data: original, writes: Seq::empty() });
    let n = j.texts.encoded.len() as int;
    if j.order.len() > 0 {
        ui_labels_applied(
            money_patched(
                in_place_written(
                    cutscenes_repacked(
                        regions_repacked(glyphs_installed(fresh, j, original), j.texts, 11),
                        j.texts,
                    ),
                    j.texts,
                    n,
                ),
            ),
            j.font,
            j.save_load,
            j.flee_load,
        )
    } else {
        money_patched(in_place_written(fresh, j.texts, n))
    }
}

/// What a build gives.
#[derive(Debug)]
pub struct BuildOutput {
    /// The ROM.
    pub rom: Vec<u8>,
    /// How many translated scripts there are.
    pub translations: usize,
    /// How many regions were moved.
    pub relocated_regions: usize,
    /// How many cutscene scripts were laid out anew.
    pub relocated_cutscenes: usize,
    /// How many blocks of interface graphics have new labels.
    pub ui_labels: usize,
    /// How many glyphs were added.
    pub glyphs: usize,
}

/// What a build works with.
pub open spec fn job_of(
    entries: Seq<EntryView>,
    plan: TranslationPlan,
    font: Option<&GlyphFont>,
    code: HookCode,
) -> Job {
    Job {
        texts: Texts { entries, encoded: encoded_views(plan.encoded@) },
        order: plan.encoding@,
        font: *font->0,
        handler: code.handler@,
        jump: code.jump@,
        save_load: code.loads.save@,
        flee_load: code.loads.flee@,
    }
}

/// A write of any kind keeps what holds all along a chain.
pub proof fn lemma_expect_sound(
    p: Progress,
    original: Seq<u8>,
    label: Seq<char>,
    offset: int,
    known: Seq<u8>,
    bytes: Seq<u8>,
)
    requires
        p.sound(original),
        0 <= offset,
    ensures
        p.free(label, offset, bytes).sound(original),
        p.checked(label, offset, known, bytes).sound(original),
        p.over(label, offset, bytes).sound(original),
        p.free(label, offset, bytes).after(p),
        p.checked(label, offset, known, bytes).after(p),
        p.over(label, offset, bytes).after(p),
{
    law_written_stays(
        p,
        label,
        offset,
        bytes,
        crate::tracked_rom::ExpectView::FreeSpace(0xFF),
    );
    law_written_stays(p, label, offset, bytes, crate::tracked_rom::ExpectView::Bytes(known));
    law_written_stays(
        p,
        label,
        offset,
        bytes,
        crate::tracked_rom::ExpectView::Bytes(
            p.rom.data.subrange(offset, offset + bytes.len()),
        ),
    );
    law_chain_stays_sound(
        p,
        original,
        label,
        offset,
        bytes,
        crate::tracked_rom::ExpectView::FreeSpace(0xFF),
    );
    law_chain_stays_sound(
        p,
        original,
        label,
        offset,
        bytes,
        crate::tracked_rom::ExpectView::Bytes(known),
    );
    law_chain_stays_sound(
        p,
        original,
        label,
        offset,
        bytes,
        crate::tracked_rom::ExpectView::Bytes(
            p.rom.data.subrange(offset, offset + bytes.len()),
        ),
    );
}

/// Glyphs keep what holds all along a chain.
pub proof fn lemma_glyphs_sound(p: Progress, j: Job, original: Seq<u8>)
    requires
        p.sound(original),
    ensures
        glyphs_installed(p, j, original).sound(original),
        glyphs_installed(p, j, original).after(p),
{
    let none = Seq::<u8>::empty();
    let bank = glyph_bank(j.order, j.font, j.order.len() as int);
    lemma_expect_sound(p, original, "build ko glyph bank"@, 0x80000, none, bank);
    let a = p.free("build ko glyph bank"@, 0x80000, bank);
    lemma_hook_sound(a, original, j.handler, j.jump);
    let b = renderer_hooked(a, j.handler, j.jump);
    lemma_size_sound(b, original, original);
    lemma_after(p, a, b);
    lemma_after(p, b, size_marked(b, original));
}

/// A handler with its branch keeps what holds all along a chain.
pub proof fn lemma_hook_sound(p: Progress, original: Seq<u8>, handler: Seq<u8>, jump: Seq<u8>)
    requires
        p.sound(original),
    ensures
        renderer_hooked(p, handler, jump).sound(original),
        call_hooked(p, handler, jump).sound(original),
        renderer_hooked(p, handler, jump).after(p),
        call_hooked(p, handler, jump).after(p),
{
    let none = Seq::<u8>::empty();
    lemma_expect_sound(p, original, "ko glyph hook handler"@, 0x1B726, none, handler);
    lemma_expect_sound(
        p.free("ko glyph hook handler"@, 0x1B726, handler),
        original,
        "ko glyph render hook"@,
        0x19A3E,
        crate::glyph::GLYPH_RENDER_HOOK_ORIG@,
        jump,
    );
    lemma_expect_sound(p, original, "poc ko handler"@, 0x1B726, none, handler);
    lemma_expect_sound(
        p.free("poc ko handler"@, 0x1B726, handler),
        original,
        "poc hook call-site"@,
        0x199F1,
        seq![0xCDu8, 0x3Eu8, 0x9Au8],
        jump,
    );
    lemma_after(
        p,
        p.free("ko glyph hook handler"@, 0x1B726, handler),
        renderer_hooked(p, handler, jump),
    );
    lemma_after(
        p,
        p.free("poc ko handler"@, 0x1B726, handler),
        call_hooked(p, handler, jump),
    );
}

/// The new size code keeps what holds all along a chain.
pub proof fn lemma_size_sound(p: Progress, original: Seq<u8>, from: Seq<u8>)
    requires
        p.sound(original),
    ensures
        size_marked(p, from).sound(original),
        size_marked(p, from).after(p),
{
    let b = from[0x7FFF];
    lemma_expect_sound(
        p,
        original,
        "rom size code 1MB"@,
        0x7FFF,
        seq![b],
        seq![(b as int / 16 * 16 + 2) as u8],
    );
}

/// Moving the strings of a region keeps what holds all along a chain.
pub proof fn lemma_region_sound(q: Progress, t: Texts, original: Seq<u8>, region: int)
    requires
        q.sound(original),
        0 <= region <= 10,
    ensures
        region_repacked(q, t, region).sound(original),
        region_repacked(q, t, region).after(q),
{
    lemma_after_itself(q);
    if q.fault is None && region_strings(t, region, script_count(region)) is Ok {
        let strings = region_strings(t, region, script_count(region))->Ok_0;
        let none = Seq::<u8>::empty();
        let bank = 33 + region;
        if region_pointers(q.rom.data, region, script_count(region)) is Ok {
            let orig = region_pointers(q.rom.data, region, script_count(region))->Ok_0;
            if repack_bin(strings, orig, 0x10) is Ok {
                let bin = repack_bin(strings, orig, 0x10)->Ok_0;
                let label = "region "@ + dec(region) + " repack bank"@;
                lemma_expect_sound(q, original, label, bank * 0x4000, none, region_image(bin));
                let r = q.free(label, bank * 0x4000, region_image(bin));
                lemma_expect_sound(
                    r,
                    original,
                    "region "@ + dec(region) + " loc redirect"@,
                    0x1A069 + region * 2,
                    none,
                    seq![0x00u8, bank as u8],
                );
                if 0x10 + bin.len() <= 0x4000 {
                    lemma_after(q, r, region_repacked(q, t, region));
                }
            }
        }
    }
}

/// Moving the strings of regions keeps what holds all along a chain.
pub proof fn lemma_regions_sound(p: Progress, t: Texts, original: Seq<u8>, n: int)
    requires
        p.sound(original),
        n <= 11,
    ensures
        regions_repacked(p, t, n).sound(original),
        regions_repacked(p, t, n).after(p),
    decreases n,
{
    lemma_after_itself(p);
    if n > 0 {
        lemma_regions_sound(p, t, original, n - 1);
        let q = regions_repacked(p, t, n - 1);
        lemma_region_sound(q, t, original, n - 1);
        lemma_after(p, q, region_repacked(q, t, n - 1));
    }
}

/// Cutscene text keeps what holds all along a chain.
pub proof fn lemma_written_sound(
    p: Progress,
    original: Seq<u8>,
    strings: Seq<Seq<u8>>,
    addrs: Seq<int>,
    k: int,
    n: int,
)
    requires
        p.sound(original),
        0 <= k <= n,
        forall|i: int| 0 <= i < n && strings[i].len() > 0 ==> 0 <= #[trigger] addrs[i],
    ensures
        cutscenes_written(p, strings, addrs, n).sound(original),
        cutscenes_written(p, strings, addrs, n).after(cutscenes_written(p, strings, addrs, k)),
    decreases n,
{
    lemma_after_itself(cutscenes_written(p, strings, addrs, k));
    if n > 0 {
        let from = if k < n {
            k
        } else {
            n - 1
        };
        let q = cutscenes_written(p, strings, addrs, n - 1);
        lemma_written_sound(p, original, strings, addrs, from, n - 1);
        lemma_after_itself(q);
        if strings[n - 1].len() > 0 {
            assert(0 <= addrs[n - 1]);
            lemma_expect_sound(
                q,
                original,
                "cutscene "@ + hex(n - 1, 3) + " repack"@,
                addrs[n - 1],
                Seq::empty(),
                strings[n - 1],
            );
        }
        if k < n {
            lemma_after(
                cutscenes_written(p, strings, addrs, k),
                q,
                cutscenes_written(p, strings, addrs, n),
            );
        }
    }
}

proof fn lemma_cutscenes_len(t: Texts, n: int)
    requires
        0 <= n,
        cutscene_strings(t, n) is Ok,
    ensures
        cutscene_strings(t, n)->Ok_0.len() == n,
    decreases n,
{
    if n > 0 {
        lemma_cutscenes_len(t, n - 1);
    }
}

/// Cutscene text laid out anew keeps what holds all along a chain.
pub proof fn lemma_cutscenes_sound(p: Progress, t: Texts, original: Seq<u8>)
    requires
        p.sound(original),
    ensures
        cutscenes_repacked(p, t).sound(original),
        cutscenes_repacked(p, t).after(p),
{
    lemma_after_itself(p);
    if p.fault is None && cutscene_strings(t, 0xA8) is Ok {
        let strings = cutscene_strings(t, 0xA8)->Ok_0;
        lemma_cutscenes_len(t, 0xA8);
        if placing(strings, 0xA8) is Ok {
            let addrs = placing(strings, 0xA8)->Ok_0.addrs;
            law_cutscenes_keep_to_their_stretches(strings, 0xA8);
            lemma_written_sound(p, original, strings, addrs, 0, 0xA8);
            lemma_expect_sound(
                cutscenes_written(p, strings, addrs, 0xA8),
                original,
                "cutscene table repack"@,
                0x1B162,
                Seq::empty(),
                cutscene_table(strings, addrs, 0xA8),
            );
            lemma_after(
                p,
                cutscenes_written(p, strings, addrs, 0xA8),
                cutscenes_repacked(p, t),
            );
        }
    }
}

proof fn lemma_entry_index_bound(entries: Seq<EntryView>, id: Seq<char>)
    ensures
        entry_index(entries, id) matches Some(k) ==> 0 <= k < entries.len(),
    decreases entries.len(),
{
    if entries.len() > 0 {
        lemma_entry_index_bound(entries.drop_last(), id);
    }
}

proof fn lemma_in_place_step(p: Progress, t: Texts, original: Seq<u8>, n: int)
    requires
        in_place_written(p, t, n - 1).sound(original),
        0 < n <= t.encoded.len(),
        forall|k: int| 0 <= k < t.entries.len() ==> 0 <= (#[trigger] t.entries[k]).offset,
    ensures
        in_place_written(p, t, n).sound(original),
        in_place_written(p, t, n).after(in_place_written(p, t, n - 1)),
{
    let q = in_place_written(p, t, n - 1);
    let e = t.encoded[n - 1];
    lemma_after_itself(q);
    lemma_entry_index_bound(t.entries, e.id);
    if entry_index(t.entries, e.id) is Some {
        let entry = t.entries[entry_index(t.entries, e.id)->0];
        assert(0 <= entry.offset);
        if bytes_of(entry) is Ok {
            lemma_expect_sound(
                q,
                original,
                "translation "@ + entry.id,
                entry.offset,
                bytes_of(entry)->Ok_0,
                e.bytes,
            );
        }
    }
}

/// Texts in place keep what holds all along a chain.
pub proof fn lemma_in_place_sound(p: Progress, t: Texts, original: Seq<u8>, k: int, n: int)
    requires
        p.sound(original),
        0 <= k <= n <= t.encoded.len(),
        forall|i: int| 0 <= i < t.entries.len() ==> 0 <= (#[trigger] t.entries[i]).offset,
    ensures
        in_place_written(p, t, n).sound(original),
        in_place_written(p, t, n).after(in_place_written(p, t, k)),
    decreases n,
{
    lemma_after_itself(in_place_written(p, t, k));
    if k < n {
        lemma_in_place_sound(p, t, original, k, n - 1);
        lemma_in_place_step(p, t, original, n);
        lemma_after(
            in_place_written(p, t, k),
            in_place_written(p, t, n - 1),
            in_place_written(p, t, n),
        );
    } else if k > 0 {
        lemma_in_place_sound(p, t, original, 0, n - 1);
        lemma_in_place_step(p, t, original, n);
    }
}

/// The currency sign keeps what holds all along a chain.
pub proof fn lemma_money_sound(p: Progress, original: Seq<u8>)
    requires
        p.sound(original),
    ensures
        money_patched(p).sound(original),
        money_patched(p).after(p),
{
    lemma_expect_sound(
        p,
        original,
        "money kanji 金 → hangul 금"@,
        0x19B55,
        crate::glyph::MONEY_KANJI_JP@,
        crate::glyph::MONEY_GLYPH_KO_GEUM@,
    );
}

proof fn lemma_label_sound(q: Progress, font: GlyphFont, original: Seq<u8>, i: int)
    requires
        q.sound(original),
        0 <= i < 7,
    ensures
        label_in_place(q, i, font).sound(original),
        label_in_place(q, i, font).after(q),
{
    lemma_after_itself(q);
    let blob = crate::ui_labels::blob_entry(crate::ui_labels::set_blob(i));
    match crate::ui_labels::retyped(
        q.rom.data,
        blob,
        crate::ui_labels::set_labels(i),
        crate::ui_labels::set_xs(i),
        font,
    ) {
        Ok(buf) => {
            lemma_expect_sound(
                q,
                original,
                crate::ui_labels::inplace_label(blob),
                blob.addr,
                Seq::empty(),
                crate::lzss::packed(buf),
            );
        },
        Err(_) => {},
    }
}

/// Labels in place keep what holds all along a chain.
pub proof fn lemma_labels_in_place_sound(
    p: Progress,
    font: GlyphFont,
    original: Seq<u8>,
    k: int,
    n: int,
)
    requires
        p.sound(original),
        0 <= k <= n <= 7,
    ensures
        labels_in_place(p, font, n).sound(original),
        labels_in_place(p, font, n).after(labels_in_place(p, font, k)),
    decreases n,
{
    lemma_after_itself(labels_in_place(p, font, k));
    if n > 0 {
        let from = if k < n {
            k
        } else {
            n - 1
        };
        let q = labels_in_place(p, font, n - 1);
        lemma_labels_in_place_sound(p, font, original, from, n - 1);
        lemma_label_sound(q, font, original, n - 1);
        if k < n {
            lemma_after(labels_in_place(p, font, k), q, labels_in_place(p, font, n));
        }
    }
}

/// Moved labels keep what holds all along a chain.
pub proof fn lemma_labels_moved_sound(
    p: Progress,
    font: GlyphFont,
    original: Seq<u8>,
    save_load: Seq<u8>,
    flee_load: Seq<u8>,
)
    requires
        p.sound(original),
    ensures
        labels_moved(p, font, save_load, flee_load).sound(original),
        labels_moved(p, font, save_load, flee_load).after(p),
{
    lemma_after_itself(p);
    let save = crate::ui_labels::retyped(
        p.rom.data,
        crate::ui_labels::blob_entry(3),
        crate::ui_labels::set_labels(7),
        crate::ui_labels::set_xs(7),
        font,
    );
    let flee = crate::ui_labels::retyped(
        p.rom.data,
        crate::ui_labels::blob_entry(4),
        crate::ui_labels::set_labels(8),
        crate::ui_labels::set_xs(8),
        font,
    );
    if save is Ok && flee is Ok {
        let none = Seq::<u8>::empty();
        let image = crate::ui_labels::resource_bank(
            crate::lzss::packed(save->Ok_0),
            crate::lzss::packed(flee->Ok_0),
        );
        lemma_expect_sound(
            p,
            original,
            "ui relocated resource bank 44"@,
            0xB0000,
            none,
            image,
        );
        let a = p.free("ui relocated resource bank 44"@, 0xB0000, image);
        lemma_expect_sound(
            a,
            original,
            "ui save asset id 0217 -> 2C00"@,
            0x1A2F5,
            crate::ui_labels::SAVE_ASSET_LOAD_ORIG@,
            save_load,
        );
        let b = a.checked(
            "ui save asset id 0217 -> 2C00"@,
            0x1A2F5,
            crate::ui_labels::SAVE_ASSET_LOAD_ORIG@,
            save_load,
        );
        lemma_expect_sound(
            b,
            original,
            "ui flee asset id 0218 -> 2C01"@,
            0x1A33E,
            crate::ui_labels::FLEE_ASSET_LOAD_ORIG@,
            flee_load,
        );
        let c = b.checked(
            "ui flee asset id 0218 -> 2C01"@,
            0x1A33E,
            crate::ui_labels::FLEE_ASSET_LOAD_ORIG@,
            flee_load,
        );
        lemma_after(p, a, b);
        lemma_after(p, b, c);
    }
}

/// The new labels keep what holds all along a chain.
pub proof fn lemma_ui_sound(
    p: Progress,
    font: GlyphFont,
    original: Seq<u8>,
    save_load: Seq<u8>,
    flee_load: Seq<u8>,
)
    requires
        p.sound(original),
    ensures
        ui_labels_applied(p, font, save_load, flee_load).sound(original),
        ui_labels_applied(p, font, save_load, flee_load).after(p),
{
    lemma_labels_in_place_sound(p, font, original, 0, 7);
    lemma_labels_moved_sound(
        labels_in_place(p, font, 7),
        font,
        original,
        save_load,
        flee_load,
    );
    lemma_after(
        p,
        labels_in_place(p, font, 7),
        ui_labels_applied(p, font, save_load, flee_load),
    );
}

/// Every byte of a build that differs from the source is covered by a recorded write,
/// no two of which overlap; the image keeps its size.
pub proof fn law_build_is_tracked(original: Seq<u8>, j: Job)
    requires
        forall|k: int| 0 <= k < j.texts.entries.len() ==> 0 <= (#[trigger] j.texts.entries[k]).offset,
    ensures
        build_chain(original, j).sound(original),
{
    let fresh = Progress::begin(RomView { data: original, writes: Seq::empty() });
    let n = j.texts.encoded.len() as int;
    crate::patching::lemma_begin_sound(original);
    lemma_in_place_sound(fresh, j.texts, original, 0, n);
    lemma_money_sound(in_place_written(fresh, j.texts, n), original);
    lemma_glyphs_sound(fresh, j, original);
    let a = glyphs_installed(fresh, j, original);
    lemma_regions_sound(a, j.texts, original, 11);
    let b = regions_repacked(a, j.texts, 11);
    lemma_cutscenes_sound(b, j.texts, original);
    let c = cutscenes_repacked(b, j.texts);
    lemma_in_place_sound(c, j.texts, original, 0, n);
    let d = in_place_written(c, j.texts, n);
    lemma_money_sound(d, original);
    let e = money_patched(d);
    lemma_ui_sound(e, j.font, original, j.save_load, j.flee_load);
}

/// Builds the translated ROM from the source and a translation plan.
#[verifier::rlimit(40)]
pub fn build_rom(
    data: Vec<u8>,
    plan: &TranslationPlan,
    font: Option<&GlyphFont>,
    code: &HookCode,
) -> (res: Result<BuildOutput, PatchError>)
    requires
        plan.encoding@.len() <= 1000,
        code.handler@.len() <= 0x100,
        plan.encoding@.len() > 0 ==> font is Some && font->0.wf() && has_glyphs_of(
            *font->0,
            plan.encoding@,
        ) && has_ui_labels(*font->0),
    ensures
        ({
            let has_glyphs = plan.encoding@.len() > 0;
            let original = if has_glyphs {
                expanded(data@)
            } else {
                data@
            };
            match all_entries(original) {
                Err(f) => res matches Err(e) && e@ == f,
                Ok(entries) => {
                    let p = build_chain(original, job_of(entries, *plan, font, *code));
                    match p.fault {
                        Some(f) => res matches Err(e) && e@ == f,
                        None => {
                            &&& res is Ok
                            &&& res->Ok_0.rom@ == with_checksum(p.rom.data)
                            &&& res->Ok_0.translations == plan.encoded@.len()
                            &&& res->Ok_0.glyphs == plan.encoding@.len()
                            &&& res->Ok_0.relocated_regions == if has_glyphs {
                                11int
                            } else {
                                0
                            }
                            &&& res->Ok_0.relocated_cutscenes == if has_glyphs {
                                0xA8int
                            } else {
                                0
                            }
                            &&& res->Ok_0.ui_labels == if has_glyphs {
                                9int
                            } else {
                                0
                            }
                        },
                    }
                },
            }
        }),
{
    let has_glyphs: bool = plan.encoding.glyph_count() > 0;
    let data = expanded_source(data, has_glyphs);
    let original = to_vec(data.as_slice());
    let ghost source = original@;
    let size: usize = original.len();
    let mut cutscenes: usize = 0;
    let mut rom = TrackedRom::new(data);
    let entries = match extract_entries(rom.data()) {
        Ok(list) => list,
        Err(e) => {
            return Err(e);
        },
    };
    let ghost j = job_of(entry_views(entries@), *plan, font, *code);
    let ghost fresh = Progress::begin(RomView { data: source, writes: Seq::empty() });
    proof {
        assert(rom@ =~= fresh.rom);
        lemma_extracted_sound(source);
        assert forall|k: int| 0 <= k < entries@.len() implies (#[trigger] entries@[k]).offset
            + entries@[k].len <= usize::MAX by {
            assert(entry_views(entries@)[k] == entries@[k]@);
            assert(entry_fault(entry_views(entries@)[k], source) is None);
        }
        assert forall|k: int| 0 <= k < j.texts.entries.len() implies 0 <= (
        #[trigger] j.texts.entries[k]).offset by {
            assert(j.texts.entries[k] == entries@[k]@);
        }
        law_build_is_tracked(source, j);
    }
    match font {
        Some(f) if has_glyphs => {
            match install_glyphs(
                &mut rom,
                plan.encoding.glyph_chars(),
                f,
                code,
                original.as_slice(),
            ) {
                Ok(_) => {},
                Err(e) => {
                    proof {
                        lemma_build_stops(source, j);
                    }
                    return Err(e);
                },
            }
            match repack_regions(
                &mut rom,
                entries.as_slice(),
                plan.encoded.as_slice()
            ) {
                Ok(_) => {},
                Err(e) => {
                    proof {
                        lemma_build_stops(source, j);
                    }
                    return Err(e);
                },
            }
            proof {
                lemma_glyphs_sound(fresh, j, source);
                lemma_regions_sound(glyphs_installed(fresh, j, source), j.texts, source, 11);
                lemma_whole_bank_has_room(Progress::begin(rom@), j.texts);
            }
            match repack_cutscenes(
                &mut rom,
                entries.as_slice(),
                plan.encoded.as_slice()
            ) {
                Ok(n) => {
                    cutscenes = n;
                },
                Err(e) => {
                    proof {
                        lemma_build_stops(source, j);
                    }
                    return Err(e);
                },
            }
        },
        _ => {},
    }
    match write_in_place(&mut rom, entries.as_slice(), plan.encoded.as_slice()) {
        Ok(_) => {},
        Err(e) => {
            proof {
                lemma_build_stops(source, j);
            }
            return Err(e);
        },
    }
    match patch_money_glyph(&mut rom) {
        Ok(_) => {},
        Err(e) => {
            proof {
                lemma_build_stops(source, j);
            }
            return Err(e);
        },
    }
    let ui_labels: usize = match font {
        Some(f) if has_glyphs => match apply_ui_labels(&mut rom, f, &code.loads) {
            Ok(n) => n,
            Err(e) => {
                return Err(e);
            },
        },
        _ => 0,
    };
    proof {
        assert(rom@ == build_chain(source, j).rom);
    }
    match ensure_all_writes_tracked(&rom, original.as_slice()) {
        Ok(_) => {},
        Err(e) => {
            return Err(e);
        },
    }
    let mut built = rom.into_data();
    TmrSegaHeader::update_checksum(built.as_mut_slice());
    Ok(
        BuildOutput {
            rom: built,
            translations: plan.encoded.len(),
            relocated_regions: if has_glyphs {
                11
            } else {
                0
            },
            relocated_cutscenes: cutscenes,
            ui_labels,
            glyphs: plan.encoding.glyph_count(),
        },
    )
}

/// Once something has gone wrong, the rest of the chain changes nothing.
proof fn lemma_build_stops(original: Seq<u8>, j: Job)
    ensures
        ({
            let fresh = Progress::begin(RomView { data: original, writes: Seq::empty() });
            let n = j.texts.encoded.len() as int;
            let a = glyphs_installed(fresh, j, original);
            let b = regions_repacked(a, j.texts, 11);
            let c = cutscenes_repacked(b, j.texts);
            let d = in_place_written(c, j.texts, n);
            let e = money_patched(d);
            &&& j.order.len() > 0 ==> {
                &&& a.fault is Some ==> build_chain(original, j) == a
                &&& b.fault is Some ==> build_chain(original, j) == b
                &&& c.fault is Some ==> build_chain(original, j) == c
                &&& d.fault is Some ==> build_chain(original, j) == d
                &&& e.fault is Some ==> build_chain(original, j) == e
            }
            &&& j.order.len() == 0 ==> in_place_written(fresh, j.texts, n).fault is Some
                ==> build_chain(original, j) == in_place_written(fresh, j.texts, n)
        }),
{
    let fresh = Progress::begin(RomView { data: original, writes: Seq::empty() });
    let n = j.texts.encoded.len() as int;
    let a = glyphs_installed(fresh, j, original);
    let b = regions_repacked(a, j.texts, 11);
    let c = cutscenes_repacked(b, j.texts);
    let d = in_place_written(c, j.texts, n);
    let e = money_patched(d);
    if a.fault is Some {
        lemma_regions_fail(a, j.texts, 0, 11);
    }
    if c.fault is Some {
        lemma_in_place_written_fail(c, j.texts, 0, n);
    }
    if e.fault is Some {
        lemma_labels_stop(e, j.font, 7);
    }
}

/// Labels change nothing once something has gone wrong.
pub proof fn lemma_labels_stop(p: Progress, font: GlyphFont, n: int)
    requires
        p.fault is Some,
    ensures
        labels_in_place(p, font, n) == p,
    decreases n,
{
    if n > 0 {
        lemma_labels_stop(p, font, n - 1);
    }
}

} // verus!
