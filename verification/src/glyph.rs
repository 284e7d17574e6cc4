//! Glyphs of the game's font and where the Korean additions stand in the ROM.
//!
//! The font is stored uncompressed, eight bytes per glyph, one per row; bit 7 is
//! the leftmost pixel. Text code `c` shows glyph `c - 1`.
use vstd::prelude::*;
use crate::bits::bit_at;

verus! {

/// Where the main font starts.
pub const FONT_BASE: usize = 0x19AFD;

/// The bytes of a glyph.
pub const GLYPH_BYTES: usize = 8;

/// A tilde drawn for eight pixels.
pub const KO_TILDE: [u8; 8] = [0x00, 0x00, 0x00, 0x61, 0x92, 0x0C, 0x00, 0x00];

/// A comma drawn for eight pixels.
pub const KO_COMMA: [u8; 8] = [0x00, 0x00, 0x00, 0x00, 0x30, 0x30, 0x20, 0x40];

/// The first of the bytes that announce a Korean glyph.
pub const KO_PREFIX: u8 = 0xA3;

/// The bytes that announce a Korean glyph. Glyph `i` is written as prefix
/// `i / PER_PREFIX` followed by the byte `1 + i % PER_PREFIX`.
pub const KO_PREFIXES: [u8; 4] = [0xA3, 0xA4, 0xA5, 0xA6];

/// How many glyphs a prefix reaches: second bytes `0x01..=0xFA`.
pub const PER_PREFIX: usize = 250;

/// How many glyphs the prefixes reach together.
pub const KO_MULTI_PREFIX_CAP: usize = 1000;

/// The call of the glyph renderer in the loop at `$9981`.
pub const HOOK_CALL_SITE: usize = 0x199F1;

/// The dispatch on prefix bytes in the loop at `$9981`.
pub const PREFIX_DISPATCH_SITE: usize = 0x199A4;

/// The entry of the glyph renderer that all text modes share.
pub const GLYPH_RENDER_HOOK_SITE: usize = 0x19A3E;

/// What stands at that entry: `dec a`, `push de`, `ex de, hl`.
pub const GLYPH_RENDER_HOOK_ORIG: [u8; 3] = [0x3D, 0xD5, 0xEB];

/// The logical address of the glyph renderer.
pub const ORIGINAL_FONT_EXPAND_LOGICAL: u16 = 0x9A3E;

/// Where the glyph renderer goes on after its first three bytes.
pub const GLYPH_RENDER_CONT_LOGICAL: u16 = 0x9A41;

/// Where the handler of Korean glyphs stands.
pub const KO_HANDLER_PHYS: usize = 0x1B726;

/// The logical address of the handler.
pub const KO_HANDLER_LOGICAL: u16 = 0xB726;

/// Where relocated cutscene text starts, behind the handler.
pub const KO_CUTSCENE_RELOC_START: usize = 0x1B826;

/// Where the Korean glyphs start: bank 32 of the expanded ROM.
pub const KO_BANK_PHYS: usize = 0x80000;

/// The logical address of the Korean glyphs in slot 1.
pub const KO_BANK_LOGICAL: u16 = 0x4000;

/// The bank of the Korean glyphs.
pub const KO_BANK_BANK: u8 = 32;

/// The bank register of slot 1.
pub const KO_SLOT1_MAPPER: u16 = 0xFFFE;

/// A hand-drawn syllable for trials.
pub const POC_GA: [u8; 8] = [0xF4, 0x14, 0x24, 0x46, 0x44, 0x84, 0x04, 0x04];

/// Where the glyph of the currency sign stands.
pub const MONEY_KANJI_GLYPH_ADDR: usize = 0x19B55;

/// The currency sign as it is in the game.
pub const MONEY_KANJI_JP: [u8; 8] = [0x10, 0x28, 0x7C, 0x92, 0x7C, 0x10, 0x54, 0xFE];

/// The currency sign in Korean.
pub const MONEY_GLYPH_KO_GEUM: [u8; 8] = [0x00, 0x7C, 0x04, 0xFE, 0x00, 0x7C, 0x44, 0x7C];

/// The drawn glyph of a punctuation mark, for the marks that have one.
pub open spec fn punctuation(ch: char) -> Option<[u8; 8]> {
    if ch == '~' {
        Some(KO_TILDE)
    } else if ch == ',' {
        Some(KO_COMMA)
    } else {
        None
    }
}

/// The drawn glyph of a punctuation mark, for the marks that have one.
pub fn dynamic_punctuation_glyph(ch: char) -> (glyph: Option<[u8; 8]>)
    ensures
        glyph == punctuation(ch),
{
    if ch == '~' {
        Some(KO_TILDE)
    } else if ch == ',' {
        Some(KO_COMMA)
    } else {
        None
    }
}

/// The glyph that a text code shows. Code 0 shows none and wraps around.
pub fn font_index(text_code: u8) -> (index: usize)
    ensures
        text_code > 0 ==> index == text_code - 1,
        text_code == 0 ==> index == usize::MAX,
{
    (text_code as usize).wrapping_sub(1)
}

/// The first `n` pixels of a row as `#` and `.`.
pub open spec fn ascii_row(b: u8, n: int) -> Seq<char>
    decreases n,
{
    if n <= 0 {
        Seq::empty()
    } else {
        ascii_row(b, n - 1).push(if bit_at(b, (7 - (n - 1)) as u8) == 1 {
            '#'
        } else {
            '.'
        })
    }
}

/// The first `n` rows of a glyph as lines of `#` and `.`.
pub open spec fn ascii_art(glyph: Seq<u8>, n: int) -> Seq<char>
    decreases n,
{
    if n <= 0 {
        Seq::empty()
    } else {
        (ascii_art(glyph, n - 1) + ascii_row(glyph[n - 1], 8)).push('\n')
    }
}

/// A glyph as lines of `#` and `.`.
pub fn to_ascii(glyph: &[u8; 8]) -> (s: String)
    ensures
        s@ == ascii_art(glyph@, 8),
{
    let mut s = String::new();
    let mut y: usize = 0;
    while y < 8
        invariant
            y <= 8,
            s@ == ascii_art(glyph@, y as int),
        decreases 8 - y,
    {
        let b: u8 = glyph[y];
        let ghost begin = s@;
        let mut x: u8 = 0;
        proof {
            assert(s@ =~= begin + ascii_row(b, 0));
        }
        while x < 8
            invariant
                x <= 8,
                s@ == begin + ascii_row(b, x as int),
            decreases 8 - x,
        {
            s.push(if (b >> (7 - x)) & 1 == 1 {
                '#'
            } else {
                '.'
            });
            x += 1;
            proof {
                assert(s@ =~= begin + ascii_row(b, x as int));
            }
        }
        s.push('\n');
        y += 1;
    }
    s
}

} // verus!
