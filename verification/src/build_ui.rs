//! The ROM with Korean interface labels and nothing else.
use vstd::prelude::*;
use crate::build_rom::{lemma_size_sound, lemma_ui_sound};
use crate::bytes::to_vec;
use crate::error::{plain, Fault, PatchError};
use crate::font::GlyphFont;
use crate::header::{with_checksum, TmrSegaHeader};
use crate::lzss::{decompress, unpack};
use crate::patching::{ensure_all_writes_tracked, lemma_begin_sound, Progress};
use crate::poc::fresh;
use crate::rom::{expand_rom_for_ko, expanded, mark_rom_size_1mb, size_marked};
use crate::script::fault_outcome;
use crate::text::text;
use crate::tracked_rom::TrackedRom;
use crate::ui_labels::{
    apply_ui_labels, blob_entry, has_ui_labels, set_blob, ui_label_set, ui_labels_applied,
    AssetLoads, UI_LABEL_COUNT,
};

verus! {

/// The chain of writes of a build with interface labels only.
pub open spec fn ui_chain(
    data: Seq<u8>,
    font: GlyphFont,
    save_load: Seq<u8>,
    flee_load: Seq<u8>,
) -> Progress {
    ui_labels_applied(size_marked(fresh(data), expanded(data)), font, save_load, flee_load)
}

/// What a build with interface labels gives.
#[derive(Debug)]
pub struct UiBuild {
    /// The ROM.
    pub rom: Vec<u8>,
    /// How many blocks have new labels.
    pub patched: usize,
}

/// Every byte of a build with interface labels that differs from the expanded source is
/// covered by a recorded write, no two of which overlap.
pub proof fn law_ui_build_is_tracked(
    data: Seq<u8>,
    font: GlyphFont,
    save_load: Seq<u8>,
    flee_load: Seq<u8>,
)
    ensures
        ui_chain(data, font, save_load, flee_load).sound(expanded(data)),
{
    lemma_begin_sound(expanded(data));
    lemma_size_sound(fresh(data), expanded(data), expanded(data));
    lemma_ui_sound(
        size_marked(fresh(data), expanded(data)),
        font,
        expanded(data),
        save_load,
        flee_load,
    );
}

/// Builds the ROM with Korean interface labels.
pub fn build_ui(data: Vec<u8>, font: &GlyphFont, loads: &AssetLoads) -> (res: Result<
    UiBuild,
    PatchError,
>)
    requires
        font.wf(),
        has_ui_labels(*font),
    ensures
        ({
            let p = ui_chain(data@, *font, loads.save@, loads.flee@);
            match res {
                Ok(b) => p.fault is None && b.rom@ == with_checksum(p.rom.data) && b.patched == 9,
                Err(e) => p.fault == Some(e@),
            }
        }),
{
    let ghost source = data@;
    let mut data = data;
    expand_rom_for_ko(&mut data);
    let original = to_vec(data.as_slice());
    let mut rom = TrackedRom::new(data);
    proof {
        assert(rom@ =~= fresh(source).rom);
        law_ui_build_is_tracked(source, *font, loads.save@, loads.flee@);
    }
    match mark_rom_size_1mb(&mut rom, original.as_slice()) {
        Ok(_) => {},
        Err(e) => {
            proof {
                crate::build_rom::lemma_labels_stop(
                    size_marked(fresh(source), expanded(source)),
                    *font,
                    7,
                );
            }
            return Err(e);
        },
    }
    let patched: usize = match apply_ui_labels(&mut rom, font, loads) {
        Ok(n) => n,
        Err(e) => {
            return Err(e);
        },
    };
    match ensure_all_writes_tracked(&rom, original.as_slice()) {
        Ok(_) => {},
        Err(e) => {
            return Err(e);
        },
    }
    let mut built = rom.into_data();
    TmrSegaHeader::update_checksum(built.as_mut_slice());
    Ok(UiBuild { rom: built, patched })
}

/// The first of the blocks with labels in place, from the `i`-th on, that does not decode
/// to its size.
pub open spec fn block_fault(rom: Seq<u8>, i: int) -> Option<Fault>
    decreases 7 - i,
{
    if i < 0 || i >= 7 {
        None
    } else {
        let blob = blob_entry(set_blob(i));
        if unpack(rom, blob.addr, Seq::empty()).0.len() != blob.size {
            Some(plain(blob.name + ": 패치 후 디컴프 크기 불일치"@))
        } else {
            block_fault(rom, i + 1)
        }
    }
}

/// Checks that every block with labels in place decodes to its size.
pub fn check_patched_blocks(rom: &[u8]) -> (res: Result<(), PatchError>)
    ensures
        fault_outcome(res) == block_fault(rom@, 0),
{
    let mut i: usize = 0;
    while i < UI_LABEL_COUNT
        invariant
            i <= 7,
            block_fault(rom@, i as int) == block_fault(rom@, 0),
        decreases 7 - i,
    {
        let set = ui_label_set(i);
        let (decoded, _) = decompress(rom, set.blob.compressed_addr);
        if decoded.len() != set.blob.uncompressed_len {
            return Err(
                text(set.blob.name).lit(": 패치 후 디컴프 크기 불일치").fail(),
            );
        }
        i += 1;
    }
    Ok(())
}

} // verus!
