//! Trial patches: a glyph of the game's own font replaced, and Korean glyphs shown in
//! the opening text.
use vstd::prelude::*;
use crate::build_rom::{lemma_expect_sound, lemma_hook_sound};
use crate::bytes::{push_all, to_vec};
use crate::error::{plain, Fault, PatchError};
use crate::font::GlyphFont;
use crate::glyph::{FONT_BASE, KO_BANK_PHYS, KO_PREFIX, POC_GA};
use crate::patching::{
    ensure_all_writes_tracked, lemma_begin_sound, overwrite_tracked, write_checked, write_free,
    Progress,
};
use crate::rom::{
    call_hooked, expand_rom_for_ko, expanded, install_ko_hook, install_ko_prefix2_hook,
    renderer_hooked, POC2_SCRIPT_EDIT, POC3_SCRIPT_EDIT,
};
use crate::text::{chars_of, text};
use crate::tracked_rom::{RomView, TrackedRom};

verus! {

/// The start of the chain of writes on an expanded source.
pub open spec fn fresh(data: Seq<u8>) -> Progress {
    Progress::begin(RomView { data: expanded(data), writes: Seq::empty() })
}

/// The ROM that a chain of writes gives, or what went wrong.
pub open spec fn chain_outcome(p: Progress) -> Result<Seq<u8>, Fault> {
    match p.fault {
        Some(f) => Err(f),
        None => Ok(p.rom.data),
    }
}

/// What a ROM or an error says.
pub open spec fn bytes_outcome(res: Result<Vec<u8>, PatchError>) -> Result<Seq<u8>, Fault> {
    match res {
        Ok(rom) => Ok(rom@),
        Err(e) => Err(e@),
    }
}

/// A finished trial.
#[derive(Debug)]
pub struct GlyphTrial {
    /// The ROM.
    pub rom: Vec<u8>,
    /// Where the glyph stands.
    pub offset: usize,
    /// The glyph as it was.
    pub before: Vec<u8>,
}

/// Replaces one glyph of the game's own font by a hand-drawn syllable.
pub fn poc_patch(data: Vec<u8>, index: usize) -> (res: Result<GlyphTrial, PatchError>)
    requires
        0x19AFD + index * 8 + 8 <= usize::MAX,
    ensures
        ({
            let at = 0x19AFD + index * 8;
            let source = expanded(data@);
            match res {
                Ok(t) => {
                    &&& at + 8 <= source.len()
                    &&& t.offset == at
                    &&& t.before@ == source.subrange(at, at + 8)
                    &&& t.rom@ == source.take(at) + POC_GA@ + source.skip(at + 8)
                },
                Err(e) => at + 8 > source.len() && e@ == plain("폰트 슬롯이 ROM 범위를 벗어남"@),
            }
        }),
{
    let mut data = data;
    expand_rom_for_ko(&mut data);
    let original = to_vec(data.as_slice());
    let size: usize = data.len();
    let mut rom = TrackedRom::new(data);
    let off: usize = FONT_BASE + index * 8;
    if off + 8 > size {
        return Err(text("폰트 슬롯이 ROM 범위를 벗어남").fail());
    }
    let before = to_vec(vstd::slice::slice_subrange(rom.data(), off, off + 8));
    let ghost start = Progress::begin(rom@);
    proof {
        lemma_begin_sound(original@);
        lemma_expect_sound(
            start,
            original@,
            "poc1 glyph replacement"@,
            off as int,
            Seq::empty(),
            POC_GA@,
        );
    }
    match overwrite_tracked(&mut rom, "poc1 glyph replacement", off, POC_GA.as_slice()) {
        Ok(_) => {},
        Err(e) => {
            return Err(e);
        },
    }
    match ensure_all_writes_tracked(&rom, original.as_slice()) {
        Ok(_) => {},
        Err(e) => {
            return Err(e);
        },
    }
    proof {
        assert(rom@.data =~= original@.take(off as int) + POC_GA@ + original@.skip(off + 8));
    }
    Ok(GlyphTrial { rom: rom.into_data(), offset: off, before })
}

/// A chain of writes that puts glyphs and a handler in and has the opening text show
/// them.
pub open spec fn trial_chain(
    data: Seq<u8>,
    fixed: bool,
    bank_label: Seq<char>,
    bank: Seq<u8>,
    handler: Seq<u8>,
    branch: Seq<u8>,
    edit_label: Seq<char>,
    edit_at: int,
    known: Seq<u8>,
    edit: Seq<u8>,
) -> Progress {
    let p = fresh(data).free(bank_label, 0x80000, bank);
    let q = if fixed {
        renderer_hooked(p, handler, branch)
    } else {
        call_hooked(p, handler, branch)
    };
    q.checked(edit_label, edit_at, known, edit)
}

fn run_trial(
    data: Vec<u8>,
    fixed: bool,
    bank_label: &str,
    bank: &[u8],
    handler: &[u8],
    branch: &[u8; 3],
    edit_label: &str,
    edit_at: usize,
    known: &[u8],
    edit: &[u8],
) -> (res: Result<Vec<u8>, PatchError>)
    requires
        handler@.len() <= 0x100,
        bank@.len() <= 0x100,
        edit_at <= 0x80000,
        edit@.len() <= 0x100,
    ensures
        bytes_outcome(res) == chain_outcome(
            trial_chain(
                data@,
                fixed,
                bank_label@,
                bank@,
                handler@,
                branch@,
                edit_label@,
                edit_at as int,
                known@,
                edit@,
            ),
        ),
{
    let ghost source = data@;
    let mut data = data;
    expand_rom_for_ko(&mut data);
    let original = to_vec(data.as_slice());
    let mut rom = TrackedRom::new(data);
    proof {
        let p = fresh(source);
        assert(rom@ =~= p.rom);
        lemma_begin_sound(original@);
        lemma_expect_sound(p, original@, bank_label@, 0x80000, Seq::empty(), bank@);
        let p = p.free(bank_label@, 0x80000, bank@);
        lemma_hook_sound(p, original@, handler@, branch@);
        let q = if fixed {
            renderer_hooked(p, handler@, branch@)
        } else {
            call_hooked(p, handler@, branch@)
        };
        lemma_expect_sound(q, original@, edit_label@, edit_at as int, known@, edit@);
    }
    match write_free(&mut rom, bank_label, KO_BANK_PHYS, bank) {
        Ok(_) => {},
        Err(e) => {
            return Err(e);
        },
    }
    let hooked = if fixed {
        install_ko_prefix2_hook(&mut rom, handler, branch)
    } else {
        install_ko_hook(&mut rom, handler, branch)
    };
    match hooked {
        Ok(_) => {},
        Err(e) => {
            return Err(e);
        },
    }
    match write_checked(&mut rom, edit_label, edit_at, known, edit) {
        Ok(_) => {},
        Err(e) => {
            return Err(e);
        },
    }
    match ensure_all_writes_tracked(&rom, original.as_slice()) {
        Ok(_) => {},
        Err(e) => {
            return Err(e);
        },
    }
    Ok(rom.into_data())
}

/// Shows the hand-drawn syllable in the opening text, through a handler that is called
/// from the text loop.
pub fn poc2_patch(data: Vec<u8>, handler: &[u8], call: &[u8; 3]) -> (res: Result<
    Vec<u8>,
    PatchError,
>)
    requires
        handler@.len() <= 0x100,
    ensures
        bytes_outcome(res) == chain_outcome(
            trial_chain(
                data@,
                false,
                "poc2 ko glyph bank"@,
                POC_GA@,
                handler@,
                call@,
                "poc2 script edit"@,
                0x1A694,
                seq![0x10u8, 0x11u8],
                seq![0xA3u8, 0x00u8],
            ),
        ),
{
    let known: [u8; 2] = [0x10, 0x11];
    let edit: [u8; 2] = [KO_PREFIX, 0x00];
    proof {
        assert(known@ =~= seq![0x10u8, 0x11u8]);
        assert(edit@ =~= seq![0xA3u8, 0x00u8]);
    }
    run_trial(
        data,
        false,
        "poc2 ko glyph bank",
        POC_GA.as_slice(),
        handler,
        call,
        "poc2 script edit",
        POC2_SCRIPT_EDIT,
        known.as_slice(),
        edit.as_slice(),
    )
}

/// Shows the hand-drawn syllable in the opening text, through a handler in place of the
/// glyph renderer.
pub fn poc2_fixed_patch(data: Vec<u8>, handler: &[u8], jump: &[u8; 3]) -> (res: Result<
    Vec<u8>,
    PatchError,
>)
    requires
        handler@.len() <= 0x100,
    ensures
        bytes_outcome(res) == chain_outcome(
            trial_chain(
                data@,
                true,
                "poc2 fixed ko glyph bank"@,
                POC_GA@,
                handler@,
                jump@,
                "poc2 fixed script edit"@,
                0x1A694,
                seq![0x10u8, 0x11u8],
                seq![0xA3u8, 0x01u8],
            ),
        ),
{
    let known: [u8; 2] = [0x10, 0x11];
    let edit: [u8; 2] = [KO_PREFIX, 0x01];
    proof {
        assert(known@ =~= seq![0x10u8, 0x11u8]);
        assert(edit@ =~= seq![0xA3u8, 0x01u8]);
    }
    run_trial(
        data,
        true,
        "poc2 fixed ko glyph bank",
        POC_GA.as_slice(),
        handler,
        jump,
        "poc2 fixed script edit",
        POC2_SCRIPT_EDIT,
        known.as_slice(),
        edit.as_slice(),
    )
}

/// The two syllables of a word for a trial.
pub fn two_syllables(word: &str) -> (res: Result<[char; 2], PatchError>)
    ensures
        match res {
            Ok(pair) => pair@ == word@,
            Err(e) => word@.len() != 2 && e@ == plain(
                "이 PoC는 2음절 단어를 받는다 (4바이트 치환)"@,
            ),
        },
{
    let chars = chars_of(word);
    if chars.len() == 2 {
        let pair: [char; 2] = [chars[0], chars[1]];
        proof {
            assert(pair@ =~= word@);
        }
        Ok(pair)
    } else {
        Err(text("이 PoC는 2음절 단어를 받는다 (4바이트 치환)").fail())
    }
}

fn render_pair(font: &GlyphFont, word: &[char; 2]) -> (bank: Vec<u8>)
    requires
        font.wf(),
        font.has(word@[0]),
        font.has(word@[1]),
    ensures
        bank@ == font.cell(word@[0]) + font.cell(word@[1]),
        bank@.len() == 16,
{
    let mut bank: Vec<u8> = Vec::new();
    let first = font.render(word[0]);
    let second = font.render(word[1]);
    push_all(&mut bank, first.as_slice());
    push_all(&mut bank, second.as_slice());
    proof {
        assert(bank@ =~= font.cell(word@[0]) + font.cell(word@[1]));
    }
    bank
}

/// Shows a word of two rendered syllables in the opening text, through a handler that is
/// called from the text loop.
pub fn poc3_patch(data: Vec<u8>, word: &[char; 2], font: &GlyphFont, handler: &[u8], call: &[u8; 3]) -> (res:
    Result<Vec<u8>, PatchError>)
    requires
        font.wf(),
        font.has(word@[0]),
        font.has(word@[1]),
        handler@.len() <= 0x100,
    ensures
        bytes_outcome(res) == chain_outcome(
            trial_chain(
                data@,
                false,
                "poc3 ko glyph bank"@,
                font.cell(word@[0]) + font.cell(word@[1]),
                handler@,
                call@,
                "poc3 script edit"@,
                0x1A697,
                seq![0x4Fu8, 0x59u8, 0x15u8, 0x16u8],
                seq![0xA3u8, 0x00u8, 0xA3u8, 0x01u8],
            ),
        ),
{
    let bank = render_pair(font, word);
    let known: [u8; 4] = [0x4F, 0x59, 0x15, 0x16];
    let edit: [u8; 4] = [KO_PREFIX, 0x00, KO_PREFIX, 0x01];
    proof {
        assert(known@ =~= seq![0x4Fu8, 0x59u8, 0x15u8, 0x16u8]);
        assert(edit@ =~= seq![0xA3u8, 0x00u8, 0xA3u8, 0x01u8]);
    }
    run_trial(
        data,
        false,
        "poc3 ko glyph bank",
        bank.as_slice(),
        handler,
        call,
        "poc3 script edit",
        POC3_SCRIPT_EDIT,
        known.as_slice(),
        edit.as_slice(),
    )
}

/// Shows a word of two rendered syllables in the opening text, through a handler in
/// place of the glyph renderer.
pub fn poc3_fixed_patch(
    data: Vec<u8>,
    word: &[char; 2],
    font: &GlyphFont,
    handler: &[u8],
    jump: &[u8; 3],
) -> (res: Result<Vec<u8>, PatchError>)
    requires
        font.wf(),
        font.has(word@[0]),
        font.has(word@[1]),
        handler@.len() <= 0x100,
    ensures
        bytes_outcome(res) == chain_outcome(
            trial_chain(
                data@,
                true,
                "poc3 fixed ko glyph bank"@,
                font.cell(word@[0]) + font.cell(word@[1]),
                handler@,
                jump@,
                "poc3 fixed script edit"@,
                0x1A697,
                seq![0x4Fu8, 0x59u8, 0x15u8, 0x16u8],
                seq![0xA3u8, 0x01u8, 0xA3u8, 0x02u8],
            ),
        ),
{
    let bank = render_pair(font, word);
    let known: [u8; 4] = [0x4F, 0x59, 0x15, 0x16];
    let edit: [u8; 4] = [KO_PREFIX, 0x01, KO_PREFIX, 0x02];
    proof {
        assert(known@ =~= seq![0x4Fu8, 0x59u8, 0x15u8, 0x16u8]);
        assert(edit@ =~= seq![0xA3u8, 0x01u8, 0xA3u8, 0x02u8]);
    }
    run_trial(
        data,
        true,
        "poc3 fixed ko glyph bank",
        bank.as_slice(),
        handler,
        jump,
        "poc3 fixed script edit",
        POC3_SCRIPT_EDIT,
        known.as_slice(),
        edit.as_slice(),
    )
}

} // verus!
