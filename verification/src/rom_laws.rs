//! What reading, marking and changing a ROM does to its bytes.
use vstd::prelude::*;
use crate::bits::bit_at;
use crate::bytes::{dword_at, le16, le32, word_at};
use crate::digest::{crc32_of, lower_hex};
use crate::build_rom::has_glyphs_of;
use crate::font::{centred, raster_index, GlyphFont, Raster};
use crate::glyph::{
    ascii_art, ascii_row, punctuation, KO_COMMA, KO_TILDE, MONEY_GLYPH_KO_GEUM, MONEY_KANJI_JP,
};
use crate::header::{byte_sum, checksum, HEADER_MAGIC};
use crate::number_laws::law_hex_denotes;
use crate::patching::Progress;
use crate::rom::{
    crc_fault, drift_from, expanded, money_patched, size_marked, source_drift, HeaderInfo,
};
use crate::runs::{lemma_runs_cover, lemma_runs_shape, runs};
use crate::script::{bytes_of, EntryView};
use crate::surface_laws::picture_of;
use crate::text::hex;
use crate::tracked_rom::{first_clash, ExpectView, RomView, WriteView};
use crate::translation::{EncodedView, SourceView};

verus! {

// ---------------------------------------------------------------------------
// Numbers in bytes
// ---------------------------------------------------------------------------

/// Numbers are stored with their low byte first, and are read back.
pub proof fn law_stored_numbers(v: int)
    ensures
        0 <= v < 0x1_0000 ==> le16(v).len() == 2 && word_at(le16(v), 0) == v,
        0 <= v < 0x1_0000_0000 ==> le32(v).len() == 4 && dword_at(le32(v), 0) == v,
        0 <= v < 0x100 ==> le16(v)[0] == v && le16(v)[1] == 0 && le32(v)[0] == v && le32(v)[3] == 0,
{
    if 0 <= v < 0x1_0000_0000 {
        let a = v / 256;
        let b = v / 0x1_0000;
        let c = v / 0x100_0000;
        assert(v == 256 * a + v % 256);
        assert(a == 256 * b + a % 256);
        assert(b == 256 * c + b % 256);
        assert(c % 256 == c);
    }
}

/// The value of a lower-case digit of base sixteen.
pub open spec fn lower_digit_value(c: char) -> int {
    if c as int >= 0x61 {
        c as int - 0x61 + 10
    } else {
        c as int - 0x30
    }
}

/// A digest is written with two digits for each byte, the high one first, in base sixteen
/// and lower case.
pub proof fn law_digest_digits(bytes: Seq<u8>, n: int, i: int)
    requires
        0 <= i < n <= bytes.len(),
    ensures
        lower_hex(bytes, n).len() == 2 * n,
        ({
            let high = lower_hex(bytes, n)[2 * i];
            let low = lower_hex(bytes, n)[2 * i + 1];
            &&& 0x30 <= high as int <= 0x39 || 0x61 <= high as int <= 0x66
            &&& 0x30 <= low as int <= 0x39 || 0x61 <= low as int <= 0x66
            &&& 16 * lower_digit_value(high) + lower_digit_value(low) == bytes[i]
        }),
    decreases n,
{
    let front = lower_hex(bytes, n - 1);
    let all = lower_hex(bytes, n);
    if n == 1 {
        assert(front =~= Seq::empty());
    } else {
        law_digest_digits(bytes, n - 1, if i < n - 1 {
            i
        } else {
            0
        });
    }
    if i < n - 1 {
        assert(all[2 * i] == front[2 * i]);
        assert(all[2 * i + 1] == front[2 * i + 1]);
    }
}

// ---------------------------------------------------------------------------
// The header
// ---------------------------------------------------------------------------

/// The header starts with the words `TMR SEGA`.
pub proof fn law_header_words(i: int)
    requires
        0 <= i < 8,
    ensures
        HEADER_MAGIC@[i] == "TMR SEGA"@[i] as int,
{
    reveal_strlit("TMR SEGA");
}

proof fn lemma_sum_update(bytes: Seq<u8>, i: int, b: u8)
    requires
        0 <= i < bytes.len(),
    ensures
        byte_sum(bytes.update(i, b)) == byte_sum(bytes) - bytes[i] + b,
    decreases bytes.len(),
{
    let changed = bytes.update(i, b);
    if i == bytes.len() - 1 {
        assert(changed.drop_last() =~= bytes.drop_last());
    } else {
        lemma_sum_update(bytes.drop_last(), i, b);
        assert(changed.drop_last() =~= bytes.drop_last().update(i, b));
    }
}

proof fn lemma_sum_zero(bytes: Seq<u8>)
    requires
        forall|i: int| 0 <= i < bytes.len() ==> #[trigger] bytes[i] == 0,
    ensures
        byte_sum(bytes) == 0,
    decreases bytes.len(),
{
    if bytes.len() > 0 {
        lemma_sum_zero(bytes.drop_last());
    }
}

/// The checksum of a ROM of zeros is zero. Each byte before the header counts into it as
/// much as any other; no byte from the header on does.
pub proof fn law_checksum(rom: Seq<u8>, i: int, b: u8)
    requires
        0 <= i < rom.len(),
    ensures
        0 <= checksum(rom) < 0x1_0000,
        (forall|k: int| 0 <= k < rom.len() ==> #[trigger] rom[k] == 0) ==> checksum(rom) == 0,
        i < 0x7FF0 ==> (checksum(rom.update(i, b)) - checksum(rom) - (b - rom[i])) % 0x1_0000 == 0,
        i >= 0x7FF0 ==> checksum(rom.update(i, b)) == checksum(rom),
{
    let end: int = if rom.len() < 0x7FF0 {
        rom.len() as int
    } else {
        0x7FF0
    };
    let changed = rom.update(i, b);
    if i < 0x7FF0 {
        lemma_sum_update(rom.take(end), i, b);
        assert(changed.take(end) =~= rom.take(end).update(i, b));
        let before = byte_sum(rom.take(end));
        let after = byte_sum(changed.take(end));
        let p = before / 0x1_0000;
        let q = after / 0x1_0000;
        assert(before == 0x1_0000 * p + before % 0x1_0000);
        assert(after == 0x1_0000 * q + after % 0x1_0000);
        assert(checksum(changed) - checksum(rom) - (b - rom[i]) == 0x1_0000 * (p - q));
    } else {
        assert(changed.take(end) =~= rom.take(end));
    }
    if forall|k: int| 0 <= k < rom.len() ==> #[trigger] rom[k] == 0 {
        lemma_sum_zero(rom.take(end));
    }
}

/// The last byte of the header holds the region in its high digit and the size in its low
/// one. The header is in order exactly if it starts with the words that it should.
pub proof fn law_described_rom(info: HeaderInfo, rom: Seq<u8>)
    requires
        rom.len() >= 0x8000,
        info.describes(rom),
    ensures
        rom[0x7FFF] == 16 * info.region + info.size_code,
        info.size_code < 16,
        info.magic_ok <==> forall|i: int|
            0 <= i < 8 ==> rom[0x7FF0 + i] == #[trigger] "TMR SEGA"@[i] as int,
        rom[0x7FFA] == info.checksum % 256,
        rom[0x7FFB] == info.checksum / 256,
{
    reveal_strlit("TMR SEGA");
    let found = rom.subrange(0x7FF0, 0x7FF8);
    assert forall|i: int| 0 <= i < 8 implies HEADER_MAGIC@[i] == #[trigger] "TMR SEGA"@[i] as int by {
        law_header_words(i);
    }
    if info.magic_ok {
        assert forall|i: int| 0 <= i < 8 implies rom[0x7FF0 + i] == #[trigger] "TMR SEGA"@[i] as int
            by {
            assert(found[i] == rom[0x7FF0 + i]);
        }
    }
    if forall|i: int| 0 <= i < 8 ==> rom[0x7FF0 + i] == #[trigger] "TMR SEGA"@[i] as int {
        assert forall|i: int| 0 <= i < 8 implies found[i] == HEADER_MAGIC@[i] by {
            assert(rom[0x7FF0 + i] == "TMR SEGA"@[i] as int);
        }
        assert(found =~= HEADER_MAGIC@);
    }
}

/// Without leave, only a ROM whose checksum reads `7EC95282` is accepted as a source.
pub proof fn law_known_source(crc: u32, allowed: bool)
    ensures
        crc_fault(crc, true) is None,
        crc_fault(crc, false) is None <==> hex(crc as int, 8) == "7EC95282"@,
{
    reveal_strlit("7EC95282");
    reveal_with_fuel(hex, 10);
    assert(hex(0x7EC9_5282, 8) =~= "7EC95282"@);
    law_hex_denotes(crc as int, 8);
    law_hex_denotes(0x7EC9_5282, 8);
}

// ---------------------------------------------------------------------------
// Changes
// ---------------------------------------------------------------------------

/// A ROM that is made larger keeps its bytes, is then one megabyte long, and is filled up
/// with `0xFF`; one that is at least as long is kept as it is.
pub proof fn law_expanded(data: Seq<u8>)
    ensures
        data.len() < 1024 * 1024 ==> expanded(data).len() == 1024 * 1024,
        data.len() >= 1024 * 1024 ==> expanded(data).len() == data.len(),
        forall|i: int| 0 <= i < data.len() ==> #[trigger] expanded(data)[i] == data[i],
        forall|i: int|
            data.len() <= i < expanded(data).len() ==> #[trigger] expanded(data)[i] == 0xFF,
{
}

/// Whether two stretches have nothing in common.
pub open spec fn are_apart(w: WriteView, offset: int, len: int) -> bool {
    w.offset + w.len <= offset || offset + len <= w.offset
}

proof fn lemma_no_clash(writes: Seq<WriteView>, offset: int, len: int)
    ensures
        first_clash(writes, offset, len) is None <==> forall|k: int|
            0 <= k < writes.len() ==> are_apart(#[trigger] writes[k], offset, len),
        first_clash(writes, offset, len) matches Some(w) ==> writes.contains(w) && !are_apart(
            w,
            offset,
            len,
        ),
    decreases writes.len(),
{
    if writes.len() > 0 {
        let front = writes.drop_last();
        lemma_no_clash(front, offset, len);
        if first_clash(front, offset, len) is Some {
            let w = first_clash(front, offset, len)->0;
            let k = choose|k: int| 0 <= k < front.len() && front[k] == w;
            assert(writes[k] == w);
        } else {
            assert forall|k: int| 0 <= k < writes.len() - 1 implies are_apart(
                #[trigger] writes[k],
                offset,
                len,
            ) by {
                assert(front[k] == writes[k]);
            }
            assert(writes[writes.len() - 1] == writes.last());
        }
    }
}

/// A write is refused exactly if it reaches over the end of the ROM or touches what was
/// written before.
pub proof fn law_refused_writes(rom: RomView, label: Seq<char>, offset: int, len: int)
    ensures
        rom.refusal(label, offset, len) is None <==> offset + len <= rom.data.len() && forall|k: int|
            0 <= k < rom.writes.len() ==> are_apart(#[trigger] rom.writes[k], offset, len),
{
    lemma_no_clash(rom.writes, offset, len);
}

/// A write that expects something is refused, besides, exactly if what it replaces is not
/// what it expects: free space all of one byte, or known bytes.
pub proof fn law_expected_bytes(
    rom: RomView,
    label: Seq<char>,
    offset: int,
    len: int,
    fill: u8,
    known: Seq<u8>,
)
    requires
        0 <= offset,
        0 <= len,
    ensures
        rom.expect_refusal(label, offset, len, ExpectView::FreeSpace(fill)) is None <==> rom.refusal(
            label,
            offset,
            len,
        ) is None && forall|i: int| offset <= i < offset + len ==> #[trigger] rom.data[i] == fill,
        rom.expect_refusal(label, offset, len, ExpectView::Bytes(known)) is None <==> rom.refusal(
            label,
            offset,
            len,
        ) is None && known.len() == len && forall|i: int|
            offset <= i < offset + len ==> #[trigger] rom.data[i] == known[i - offset],
{
    if offset + len <= rom.data.len() {
        let found = rom.data.subrange(offset, offset + len);
        assert forall|i: int| offset <= i < offset + len implies #[trigger] rom.data[i] == found[i
            - offset] by {}
        if forall|i: int| 0 <= i < len ==> found[i] == fill {
            assert forall|i: int| offset <= i < offset + len implies #[trigger] rom.data[i]
                == fill by {
                assert(found[i - offset] == fill);
            }
        }
        if forall|i: int| offset <= i < offset + len ==> #[trigger] rom.data[i] == fill {
            assert forall|i: int| 0 <= i < len implies found[i] == fill by {
                assert(rom.data[offset + i] == fill);
            }
        }
        if known.len() == len && forall|i: int|
            offset <= i < offset + len ==> #[trigger] rom.data[i] == known[i - offset] {
            assert forall|i: int| 0 <= i < len implies found[i] == known[i] by {
                assert(rom.data[offset + i] == known[i]);
            }
            assert(found =~= known);
        }
    }
}

/// What is put into free space replaces bytes that are all `0xFF`.
pub proof fn law_free_space(p: Progress, label: Seq<char>, offset: int, bytes: Seq<u8>)
    requires
        0 <= offset,
        p.free(label, offset, bytes).fault is None,
    ensures
        forall|i: int| offset <= i < offset + bytes.len() ==> #[trigger] p.rom.data[i] == 0xFF,
{
    law_expected_bytes(p.rom, label, offset, bytes.len() as int, 0xFF, bytes);
}

/// Marking a ROM as one megabyte large sets the low digit of the last byte of the header to
/// two and changes nothing else.
pub proof fn law_marked_size(p: Progress, original: Seq<u8>, i: int)
    requires
        p.fault is None,
        original.len() >= 0x8000,
        size_marked(p, original).fault is None,
        0 <= i < p.rom.data.len(),
    ensures
        p.rom.data[0x7FFF] == original[0x7FFF],
        size_marked(p, original).rom.data[0x7FFF] % 16 == 2,
        size_marked(p, original).rom.data[0x7FFF] / 16 == original[0x7FFF] / 16,
        i != 0x7FFF ==> size_marked(p, original).rom.data[i] == p.rom.data[i],
{
    let b = original[0x7FFF];
    law_expected_bytes(p.rom, "rom size code 1MB"@, 0x7FFF, 1, 0, seq![b]);
    assert(p.rom.data[0x7FFF] == seq![b][0]);
    assert(b as int / 16 * 16 + 2 < 256);
}

/// The sign for money is redrawn where the font holds it: where the picture of code `0x0C`
/// stood, that of the Korean sign stands, and nothing else changes.
pub proof fn law_redrawn_money(p: Progress, i: int)
    requires
        p.fault is None,
        money_patched(p).fault is None,
        0 <= i < p.rom.data.len(),
    ensures
        picture_of(0x0C) <= i < picture_of(0x0C) + 8 ==> p.rom.data[i] == MONEY_KANJI_JP@[i
            - picture_of(0x0C)] && money_patched(p).rom.data[i] == MONEY_GLYPH_KO_GEUM@[i
            - picture_of(0x0C)],
        !(picture_of(0x0C) <= i < picture_of(0x0C) + 8) ==> money_patched(p).rom.data[i]
            == p.rom.data[i],
{
    law_expected_bytes(
        p.rom,
        "money kanji 金 → hangul 금"@,
        picture_of(0x0C),
        8,
        0,
        MONEY_KANJI_JP@,
    );
}

/// A source has drifted exactly if its bytes are not those that are expected, or the
/// expected checksum, where there is one, is not theirs.
pub proof fn law_drifted_source(id: Seq<char>, actual: Seq<u8>, sum: u32, source: SourceView)
    ensures
        drift_from(id, actual, sum, source) is None <==> actual.len() == source.bytes.len() && (
        forall|i: int| 0 <= i < actual.len() ==> actual[i] == #[trigger] source.bytes[i]) && (
        source.crc32 is Some ==> source.crc32->0 == sum),
{
    if actual.len() == source.bytes.len() && forall|i: int|
        0 <= i < actual.len() ==> actual[i] == #[trigger] source.bytes[i] {
        assert(actual =~= source.bytes);
    }
}

// ---------------------------------------------------------------------------
// Pictures
// ---------------------------------------------------------------------------

/// A picture is centred in the eight pixels of a cell: without a shift, the room before and
/// behind it differs by at most one, and so does what is cut off on the two sides of one
/// that is too large. A shift moves it by as much.
pub proof fn law_centred(size: int, off: int)
    requires
        0 <= size,
    ensures
        ({
            let before = centred(size, 0);
            let behind = 8 - size - before;
            -1 <= behind - before <= 1
        }),
        size <= 8 ==> centred(size, 0) >= 0 && centred(size, 0) + size <= 8,
        centred(size, off) == centred(size, 0) + off,
{
}

/// A pixel of a cell is inked exactly if the picture has a pixel there that is covered at
/// least as much as asked for: pixel (u, v) of the picture lands `u` and `v` pixels into
/// the room that it has been given.
pub proof fn law_inked(r: Raster, threshold: u8, x_off: int, y_off: int, u: int, v: int)
    requires
        r.coverage@.len() == r.width * r.height,
        0 <= u < r.width,
        0 <= v < r.height,
    ensures
        ({
            let x = centred(r.width as int, x_off) + u;
            let y = centred(r.height as int, y_off) + v;
            r.inks(threshold, x_off, y_off, x, y) <==> r.coverage@[v * r.width + u] >= threshold
        }),
        forall|x: int, y: int|
            x < centred(r.width as int, x_off) || x >= centred(r.width as int, x_off) + r.width || y
                < centred(r.height as int, y_off) || y >= centred(r.height as int, y_off) + r.height
                ==> !#[trigger] r.inks(threshold, x_off, y_off, x, y),
{
}

proof fn lemma_row(b: u8, n: int, x: int)
    requires
        0 <= x < n <= 8,
    ensures
        ascii_row(b, n).len() == n,
        ascii_row(b, n)[x] == if bit_at(b, (7 - x) as u8) == 1 {
            '#'
        } else {
            '.'
        },
    decreases n,
{
    if n > 1 {
        lemma_row(b, n - 1, if x < n - 1 {
            x
        } else {
            0
        });
    } else {
        assert(ascii_row(b, 0) =~= Seq::empty());
    }
}

/// A picture is written out in lines of eight characters: a number sign for each pixel that
/// is set, the highest bit of a row first, and a full stop for each other one.
pub proof fn law_written_picture(glyph: Seq<u8>, n: int, x: int, y: int)
    requires
        0 <= y < n <= glyph.len(),
        0 <= x < 8,
    ensures
        ascii_art(glyph, n).len() == 9 * n,
        ascii_art(glyph, n)[9 * y + x] == if bit_at(glyph[y], (7 - x) as u8) == 1 {
            '#'
        } else {
            '.'
        },
        ascii_art(glyph, n)[9 * y + 8] == '\n',
    decreases n,
{
    let before = ascii_art(glyph, n - 1);
    let row = ascii_row(glyph[n - 1], 8);
    let all = ascii_art(glyph, n);
    lemma_row(glyph[n - 1], 8, x);
    if n > 1 {
        law_written_picture(glyph, n - 1, x, if y < n - 1 {
            y
        } else {
            0
        });
    } else {
        assert(before =~= Seq::empty());
    }
    if y < n - 1 {
        assert(all[9 * y + x] == before[9 * y + x]);
        assert(all[9 * y + 8] == before[9 * y + 8]);
    } else {
        assert(all[9 * y + x] == row[x]);
    }
}

/// Two marks are drawn and not taken from a font: the tilde and the comma.
pub proof fn law_drawn_marks(ch: char)
    ensures
        punctuation(ch) is Some <==> ch == '~' || ch == ',',
        punctuation('~') is Some,
        punctuation('~')->0@ == seq![0x00u8, 0x00u8, 0x00u8, 0x61u8, 0x92u8, 0x0Cu8, 0x00u8, 0x00u8],
        punctuation(',') is Some,
        punctuation(',')->0@ == seq![0x00u8, 0x00u8, 0x00u8, 0x00u8, 0x30u8, 0x30u8, 0x20u8, 0x40u8],
{
    assert(KO_TILDE@ =~= seq![0x00u8, 0x00u8, 0x00u8, 0x61u8, 0x92u8, 0x0Cu8, 0x00u8, 0x00u8]);
    assert(KO_COMMA@ =~= seq![0x00u8, 0x00u8, 0x00u8, 0x00u8, 0x30u8, 0x30u8, 0x20u8, 0x40u8]);
}

/// The picture of a character is the first one that the font has for it.
pub proof fn law_first_picture(rasters: Seq<Raster>, ch: char)
    ensures
        raster_index(rasters, ch) is None <==> forall|k: int|
            0 <= k < rasters.len() ==> (#[trigger] rasters[k]).ch != ch,
        raster_index(rasters, ch) matches Some(k) ==> 0 <= k < rasters.len() && rasters[k].ch == ch
            && forall|j: int| 0 <= j < k ==> (#[trigger] rasters[j]).ch != ch,
    decreases rasters.len(),
{
    if rasters.len() > 0 {
        let front = rasters.drop_last();
        law_first_picture(front, ch);
        assert forall|k: int| 0 <= k < front.len() implies front[k] == #[trigger] rasters[k] by {}
        if raster_index(front, ch) is None {
            assert forall|k: int| 0 <= k < front.len() implies (#[trigger] rasters[k]).ch != ch by {
                assert(front[k].ch != ch);
            }
            assert(rasters[rasters.len() - 1] == rasters.last());
        } else {
            let k = raster_index(front, ch)->0;
            assert(rasters[k].ch == ch);
            assert forall|j: int| 0 <= j < k implies (#[trigger] rasters[j]).ch != ch by {
                assert(front[j].ch != ch);
            }
        }
    }
}

/// Glyphs can be drawn exactly if each is a tilde, a comma, or a character that the font has
/// a picture for.
pub proof fn law_drawable(font: GlyphFont, order: Seq<char>)
    ensures
        has_glyphs_of(font, order) <==> forall|i: int|
            0 <= i < order.len() ==> #[trigger] order[i] == '~' || order[i] == ',' || exists|k: int|
                0 <= k < font.rasters@.len() && (#[trigger] font.rasters@[k]).ch == order[i],
{
    assert forall|i: int| 0 <= i < order.len() implies ((punctuation(#[trigger] order[i]) is Some
        || font.has(order[i])) <==> (order[i] == '~' || order[i] == ',' || exists|k: int|
        0 <= k < font.rasters@.len() && (#[trigger] font.rasters@[k]).ch == order[i])) by {
        law_first_picture(font.rasters@, order[i]);
        law_drawn_marks(order[i]);
    }
}

/// A translation is refused for its source exactly if it states one and the script is not
/// what it states.
pub proof fn law_refused_source(entry: EntryView, encoded: EncodedView)
    ensures
        source_drift(entry, encoded) is None <==> (encoded.source matches Some(s) ==> bytes_of(
            entry,
        ) is Ok && bytes_of(entry)->Ok_0 == s.bytes && (s.crc32 is Some ==> s.crc32->0 == crc32_of(
            s.bytes,
        ))),
{
}

proof fn lemma_no_runs(flag: spec_fn(int) -> bool, n: int)
    requires
        n >= 0,
    ensures
        runs(flag, n).len() == 0 <==> forall|i: int| 0 <= i < n ==> !#[trigger] flag(i),
{
    lemma_runs_shape(flag, n);
    if runs(flag, n).len() > 0 {
        assert(flag(runs(flag, n)[0].0));
    } else if exists|i: int| 0 <= i < n && #[trigger] flag(i) {
        let i = choose|i: int| 0 <= i < n && #[trigger] flag(i);
        let k = lemma_runs_cover(flag, n, i);
    }
}

/// Writes that were not recorded are found exactly if a byte differs from the original and
/// no write covers it.
pub proof fn law_untracked_writes(rom: RomView, original: Seq<u8>)
    ensures
        rom.stray_runs(original).len() == 0 <==> forall|i: int|
            0 <= i < original.len() && i < rom.data.len() && original[i] != #[trigger] rom.data[i]
                ==> exists|k: int|
                0 <= k < rom.writes.len() && (#[trigger] rom.writes[k]).offset <= i && i
                    < rom.writes[k].offset + rom.writes[k].len,
{
    let n = if original.len() < rom.data.len() {
        original.len() as int
    } else {
        rom.data.len() as int
    };
    let flag = |i: int| rom.stray(original, i);
    lemma_no_runs(flag, n);
    assert forall|i: int| 0 <= i < n implies (!#[trigger] flag(i) <==> (original[i] != rom.data[i]
        ==> exists|k: int|
        0 <= k < rom.writes.len() && (#[trigger] rom.writes[k]).offset <= i && i
            < rom.writes[k].offset + rom.writes[k].len)) by {
        if rom.covered(i) {
            let k = choose|k: int| 0 <= k < rom.writes.len() && (#[trigger] rom.writes[k]).covers(i);
            assert(rom.writes[k].offset <= i);
        } else {
            assert forall|k: int| 0 <= k < rom.writes.len() implies !(
            (#[trigger] rom.writes[k]).offset <= i && i < rom.writes[k].offset
                + rom.writes[k].len) by {
                assert(!rom.writes[k].covers(i));
            }
        }
    }
    if forall|i: int|
        0 <= i < original.len() && i < rom.data.len() && original[i] != #[trigger] rom.data[i]
            ==> exists|k: int|
            0 <= k < rom.writes.len() && (#[trigger] rom.writes[k]).offset <= i && i
                < rom.writes[k].offset + rom.writes[k].len {
        assert forall|i: int| 0 <= i < n implies !#[trigger] flag(i) by {
            let b = rom.data[i];
        }
    } else {
        let i = choose|i: int|
            0 <= i < original.len() && i < rom.data.len() && original[i] != #[trigger] rom.data[i]
                && !(exists|k: int|
                0 <= k < rom.writes.len() && (#[trigger] rom.writes[k]).offset <= i && i
                    < rom.writes[k].offset + rom.writes[k].len);
        assert(flag(i));
    }
}

} // verus!
