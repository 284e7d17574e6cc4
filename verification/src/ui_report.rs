//! Checks and pictures of the interface graphics.
use vstd::prelude::*;
use vstd::slice::slice_subrange;
use crate::error::{plain, Fault, PatchError};
use crate::font::GlyphFont;
use crate::lzss::{compress, copied, decompress, law_lossless, packed, unpack};
use crate::parse::{index_of, index_or_len, lemma_index_or_len, string_views, trim, trim_spec};
use crate::script::fault_outcome;
use crate::text::{chars_of, dec, hex, lower_digit_char, string_of, text};
use crate::tracked_rom::same_bytes;
use crate::ui_graphics::{blob_addr, blob_buttons, blob_name, get_at, ui_blob, UiBlob};
use crate::ui_labels::{has_labels, retype_blob, retyped};
use crate::vram::pixel;

verus! {

// ---------------------------------------------------------------------------
// The codec on the blocks of the ROM
// ---------------------------------------------------------------------------

/// What encoding a block of the ROM anew gives.
#[derive(Debug)]
pub struct BlobCheck {
    /// The block.
    pub blob: UiBlob,
    /// How many bytes it decodes to.
    pub decoded: usize,
    /// How many bytes it takes in the ROM.
    pub consumed: usize,
    /// How many bytes it takes once it is encoded anew.
    pub recompressed: usize,
    /// Whether it decodes to the expected number of bytes.
    pub size_ok: bool,
    /// Whether decoding what was encoded anew gives the same bytes.
    pub lossless: bool,
    /// Whether it can be put back in its place.
    pub fits: bool,
}

impl BlobCheck {
    /// Whether this is the check of block `i`.
    pub open spec fn is_check(self, rom: Seq<u8>, i: int) -> bool {
        let addr = blob_addr(i);
        let got = unpack(rom, addr, Seq::empty());
        &&& self.blob.is_entry(i)
        &&& self.decoded == got.0.len()
        &&& self.consumed == got.1 - addr
        &&& self.recompressed == packed(got.0).len()
        &&& self.size_ok == (got.0.len() == 192 * blob_buttons(i))
        &&& self.lossless
        &&& self.fits == (packed(got.0).len() <= got.1 - addr)
    }

    /// Whether the block passes.
    pub open spec fn passes(self) -> bool {
        self.size_ok && self.lossless && self.fits
    }

    /// Whether the block passes.
    pub fn ok(&self) -> (r: bool)
        ensures
            r == self.passes(),
    {
        self.size_ok && self.lossless && self.fits
    }
}

proof fn lemma_copied_len(out: Seq<u8>, back: int, len: int)
    requires
        0 <= len,
    ensures
        copied(out, back, len).len() == out.len() + len,
    decreases len,
{
    if len > 0 {
        lemma_copied_len(out, back, len - 1);
    }
}

proof fn lemma_unpack_len(data: Seq<u8>, i: int, out: Seq<u8>)
    requires
        0 <= i <= data.len(),
    ensures
        unpack(data, i, out).0.len() <= out.len() + 65 * (data.len() - i),
    decreases data.len() - i,
{
    if i < data.len() && data[i] != 0 {
        if data[i] < 0x80 {
            let end = if i + 1 + data[i] < data.len() {
                i + 1 + data[i]
            } else {
                data.len() as int
            };
            lemma_unpack_len(data, end, out + data.subrange(i + 1, end));
        } else if i + 1 < data.len() {
            let more = copied(out, data[i + 1] + 1, data[i] - 0x80 + 3);
            lemma_copied_len(out, data[i + 1] + 1, data[i] - 0x80 + 3);
            lemma_unpack_len(data, i + 2, more);
        }
    }
}

/// What is wrong with the place of the first of the first `n` blocks that does not lie
/// within the ROM.
pub open spec fn blobs_fault(rom: Seq<u8>, n: int) -> Option<Fault>
    decreases n,
{
    if n <= 0 {
        None
    } else {
        match blobs_fault(rom, n - 1) {
            Some(e) => Some(e),
            None => if blob_addr(n - 1) >= rom.len() {
                Some(
                    plain(
                        blob_name(n - 1) + ": 압축 주소 0x"@ + hex(blob_addr(n - 1), 5)
                            + "가 ROM 범위를 벗어남"@,
                    ),
                )
            } else {
                None
            },
        }
    }
}

proof fn lemma_blobs(rom: Seq<u8>, k: int, n: int)
    requires
        k <= n,
        blobs_fault(rom, k) is Some,
    ensures
        blobs_fault(rom, n) == blobs_fault(rom, k),
    decreases n - k,
{
    if k < n {
        lemma_blobs(rom, k, n - 1);
    }
}

/// Encodes every block of the inventory anew and reports what that gives.
pub fn check_ui_graphics(rom: &[u8]) -> (res: Result<Vec<BlobCheck>, PatchError>)
    requires
        130 * rom@.len() + 1 <= usize::MAX,
    ensures
        match res {
            Ok(list) => {
                &&& blobs_fault(rom@, 10) is None
                &&& list@.len() == 10
                &&& forall|i: int| 0 <= i < 10 ==> (#[trigger] list@[i]).is_check(rom@, i)
            },
            Err(e) => blobs_fault(rom@, 10) == Some(e@),
        },
{
    let mut list: Vec<BlobCheck> = Vec::new();
    let mut i: usize = 0;
    while i < 10
        invariant
            i <= 10,
            130 * rom@.len() + 1 <= usize::MAX,
            list@.len() == i,
            blobs_fault(rom@, i as int) is None,
            forall|k: int| 0 <= k < i ==> (#[trigger] list@[k]).is_check(rom@, k),
        decreases 10 - i,
    {
        let blob = ui_blob(i);
        if blob.compressed_addr >= rom.len() {
            proof {
                lemma_blobs(rom@, i + 1, 10);
            }
            return Err(
                text(blob.name).lit(": 압축 주소 0x").hex(blob.compressed_addr, 5).lit(
                    "가 ROM 범위를 벗어남",
                ).fail(),
            );
        }
        let (buf, consumed) = decompress(rom, blob.compressed_addr);
        proof {
            lemma_unpack_len(rom@, blob.compressed_addr as int, Seq::empty());
        }
        let stream = compress(buf.as_slice());
        let (back, _) = decompress(stream.as_slice(), 0);
        proof {
            law_lossless(Seq::empty(), buf@, Seq::empty());
            assert(Seq::<u8>::empty() + packed(buf@) + Seq::<u8>::empty() =~= packed(buf@));
        }
        let check = BlobCheck {
            blob,
            decoded: buf.len(),
            consumed,
            recompressed: stream.len(),
            size_ok: buf.len() == blob.uncompressed_len,
            lossless: same_bytes(back.as_slice(), buf.as_slice()),
            fits: stream.len() <= consumed,
        };
        list.push(check);
        i += 1;
    }
    Ok(list)
}

/// How many of the first `n` blocks do not pass.
pub open spec fn failure_count(list: Seq<BlobCheck>, n: int) -> int
    decreases n,
{
    if n <= 0 {
        0
    } else {
        failure_count(list, n - 1) + if list[n - 1].passes() {
            0int
        } else {
            1
        }
    }
}

/// Fails where some block does not pass.
pub fn require_blobs_ok(list: &[BlobCheck]) -> (res: Result<(), PatchError>)
    ensures
        fault_outcome(res) == if failure_count(list@, list@.len() as int) == 0 {
            None
        } else {
            Some(
                plain(
                    "UI 압축 블록 "@ + dec(failure_count(list@, list@.len() as int))
                        + "개가 코덱 검사에 실패함"@,
                ),
            )
        },
{
    let mut failures: usize = 0;
    let mut i: usize = 0;
    while i < list.len()
        invariant
            i <= list@.len(),
            failures <= i,
            failures == failure_count(list@, i as int),
        decreases list@.len() - i,
    {
        if !list[i].ok() {
            failures += 1;
        }
        i += 1;
    }
    if failures == 0 {
        Ok(())
    } else {
        Err(
            text("UI 압축 블록 ").dec(failures).lit("개가 코덱 검사에 실패함").fail(),
        )
    }
}

// ---------------------------------------------------------------------------
// Pictures
// ---------------------------------------------------------------------------

/// The colour of the `k`-th pixel of a buffer, tile by tile and row by row.
pub open spec fn nth_pixel(buf: Seq<u8>, k: int) -> int {
    pixel(buf, k / 64 * 32, k % 8, k % 64 / 8)
}

/// How many of the first `n` pixels have a colour.
pub open spec fn color_count(buf: Seq<u8>, color: int, n: int) -> int
    decreases n,
{
    if n <= 0 {
        0
    } else {
        color_count(buf, color, n - 1) + if nth_pixel(buf, n - 1) == color {
            1int
        } else {
            0
        }
    }
}

/// How often each colour occurs in tiles.
pub fn index_histogram(buf: &[u8], tiles: usize) -> (counts: Vec<usize>)
    requires
        32 * tiles <= buf@.len(),
        64 * tiles <= usize::MAX,
    ensures
        counts@.len() == 16,
        forall|c: int|
            0 <= c < 16 ==> #[trigger] counts@[c] == color_count(buf@, c, 64 * tiles),
{
    let mut counts: Vec<usize> = vec![0usize; 16];
    let n: usize = 64 * tiles;
    let mut k: usize = 0;
    while k < n
        invariant
            k <= n,
            n == 64 * tiles,
            32 * tiles <= buf@.len(),
            counts@.len() == 16,
            forall|c: int| 0 <= c < 16 ==> #[trigger] counts@[c] == color_count(buf@, c, k as int),
            forall|c: int| 0 <= c < 16 ==> #[trigger] counts@[c] <= k,
        decreases n - k,
    {
        let ghost was = counts@;
        let tile: usize = k / 64;
        let v: usize = get_at(buf, tile * 32, k % 8, k % 64 / 8) as usize;
        let more: usize = counts[v] + 1;
        counts.set(v, more);
        proof {
            assert(v == nth_pixel(buf@, k as int));
            assert forall|c: int| 0 <= c < 16 implies #[trigger] counts@[c] == color_count(
                buf@,
                c,
                k + 1,
            ) && counts@[c] <= k + 1 by {
                assert(was[c] == color_count(buf@, c, k as int));
            }
        }
        k += 1;
    }
    counts
}

/// A colour as a character: a dot for 0, else a hexadecimal digit.
pub open spec fn color_char(v: int) -> char {
    if v == 0 {
        '.'
    } else {
        lower_digit_char(v)
    }
}

fn show_color(v: u8) -> (c: char)
    requires
        v < 16,
    ensures
        c == color_char(v as int),
{
    if v == 0 {
        '.'
    } else if v < 10 {
        (0x30 + v) as char
    } else {
        (0x57 + v) as char
    }
}

/// Which tile of a button a pixel lies in, counted down the columns or along the rows.
pub open spec fn tile_in_button(gx: int, gy: int, colmajor: bool) -> int {
    if colmajor {
        (gx / 8) * 2 + gy / 8
    } else {
        (gy / 8) * 3 + gx / 8
    }
}

/// A line of a button of 24×16 pixels whose first tile is `base`.
pub open spec fn button_line(buf: Seq<u8>, base: int, gy: int, colmajor: bool) -> Seq<char> {
    Seq::new(
        24,
        |gx: int|
            color_char(
                pixel(
                    buf,
                    (base + tile_in_button(gx, gy, colmajor)) * 32,
                    gx % 8,
                    gy % 8,
                ),
            ),
    )
}

/// The picture of a button: sixteen lines.
pub fn button_lines(buf: &[u8], base: usize, colmajor: bool) -> (lines: Vec<String>)
    requires
        (base + 6) * 32 <= buf@.len(),
    ensures
        lines@.len() == 16,
        forall|gy: int|
            0 <= gy < 16 ==> (#[trigger] lines@[gy])@ == button_line(
                buf@,
                base as int,
                gy,
                colmajor,
            ),
{
    let size: usize = buf.len();
    let mut lines: Vec<String> = Vec::new();
    let mut gy: usize = 0;
    while gy < 16
        invariant
            gy <= 16,
            size == buf@.len(),
            (base + 6) * 32 <= buf@.len(),
            lines@.len() == gy,
            forall|k: int|
                0 <= k < gy ==> (#[trigger] lines@[k])@ == button_line(
                    buf@,
                    base as int,
                    k,
                    colmajor,
                ),
        decreases 16 - gy,
    {
        let ghost want = button_line(buf@, base as int, gy as int, colmajor);
        let mut line = String::new();
        let mut gx: usize = 0;
        while gx < 24
            invariant
                gx <= 24,
                gy < 16,
                size == buf@.len(),
                (base + 6) * 32 <= buf@.len(),
                want == button_line(buf@, base as int, gy as int, colmajor),
                line@ == want.take(gx as int),
            decreases 24 - gx,
        {
            let tile: usize = if colmajor {
                (gx / 8) * 2 + gy / 8
            } else {
                (gy / 8) * 3 + gx / 8
            };
            let v: u8 = get_at(buf, (base + tile) * 32, gx % 8, gy % 8);
            line.push(show_color(v));
            proof {
                assert(line@ =~= want.take(gx + 1));
            }
            gx += 1;
        }
        proof {
            assert(want.take(24) =~= want);
        }
        lines.push(line);
        gy += 1;
    }
    lines
}

/// A line of a tile.
pub open spec fn tile_line(buf: Seq<u8>, tile: int, y: int) -> Seq<char> {
    Seq::new(8, |x: int| color_char(pixel(buf, tile * 32, x, y)))
}

/// The picture of a tile: eight lines.
pub fn tile_lines(buf: &[u8], tile: usize) -> (lines: Vec<String>)
    requires
        (tile + 1) * 32 <= buf@.len(),
    ensures
        lines@.len() == 8,
        forall|y: int| 0 <= y < 8 ==> (#[trigger] lines@[y])@ == tile_line(buf@, tile as int, y),
{
    let size: usize = buf.len();
    let mut lines: Vec<String> = Vec::new();
    let mut y: usize = 0;
    while y < 8
        invariant
            y <= 8,
            size == buf@.len(),
            (tile + 1) * 32 <= buf@.len(),
            lines@.len() == y,
            forall|k: int| 0 <= k < y ==> (#[trigger] lines@[k])@ == tile_line(buf@, tile as int, k),
        decreases 8 - y,
    {
        let ghost want = tile_line(buf@, tile as int, y as int);
        let mut line = String::new();
        let mut x: usize = 0;
        while x < 8
            invariant
                x <= 8,
                y < 8,
                size == buf@.len(),
                (tile + 1) * 32 <= buf@.len(),
                want == tile_line(buf@, tile as int, y as int),
                line@ == want.take(x as int),
            decreases 8 - x,
        {
            let v: u8 = get_at(buf, tile * 32, x, y);
            line.push(show_color(v));
            proof {
                assert(line@ =~= want.take(x + 1));
            }
            x += 1;
        }
        proof {
            assert(want.take(8) =~= want);
        }
        lines.push(line);
        y += 1;
    }
    lines
}

/// The labels of a list that is separated by commas, without surrounding space.
pub open spec fn comma_list(s: Seq<char>) -> Seq<Seq<char>>
    decreases s.len(),
    via comma_decreases
{
    let end = index_or_len(s, ',');
    if end >= s.len() {
        seq![trim_spec(s)]
    } else {
        seq![trim_spec(s.take(end))] + comma_list(s.skip(end + 1))
    }
}

#[via_fn]
proof fn comma_decreases(s: Seq<char>) {
    lemma_index_or_len(s, ',');
}

/// The labels of a list that is separated by commas, without surrounding space.
pub fn split_labels(csv: &str) -> (labels: Vec<String>)
    ensures
        string_views(labels@) == comma_list(csv@),
{
    let all = chars_of(csv);
    let mut rest = all.as_slice();
    let mut labels: Vec<String> = Vec::new();
    proof {
        assert(string_views(labels@) + comma_list(rest@) =~= comma_list(csv@));
    }
    loop
        invariant
            string_views(labels@) + comma_list(rest@) == comma_list(csv@),
        decreases rest@.len(),
    {
        let ghost listed = string_views(labels@);
        let ghost here = rest@;
        let end = index_of(rest, ',');
        if end == rest.len() {
            let label = string_of(trim(rest));
            labels.push(label);
            proof {
                assert(string_views(labels@) =~= listed.push(label@));
                assert(string_views(labels@) =~= listed + comma_list(here));
            }
            return labels;
        }
        let label = string_of(trim(slice_subrange(rest, 0, end)));
        labels.push(label);
        rest = slice_subrange(rest, end + 1, rest.len());
        proof {
            assert(here.subrange(0, end as int) =~= here.take(end as int));
            assert(rest@ =~= here.skip(end + 1));
            assert(string_views(labels@) =~= listed.push(label@));
            assert(string_views(labels@) + comma_list(rest@) =~= listed + comma_list(here));
        }
    }
}

// ---------------------------------------------------------------------------
// Previews of new labels
// ---------------------------------------------------------------------------

/// What a block looks like with new labels.
#[derive(Debug)]
pub struct RetypePreview {
    /// Its tiles.
    pub tiles: Vec<u8>,
    /// How many bytes it takes once it is encoded anew.
    pub recompressed: usize,
    /// How many bytes the old block takes in the ROM.
    pub consumed: usize,
    /// Whether it fits in the place of the old block.
    pub in_place: bool,
}

/// Gives a block of the ROM new labels, without writing it back.
pub fn preview_retype(rom: &[u8], blob: &UiBlob, labels: &[String], font: &GlyphFont) -> (res: Result<
    RetypePreview,
    PatchError,
>)
    requires
        unpack(rom@, blob.compressed_addr as int, Seq::empty()).0.len() == blob.uncompressed_len
            && labels@.len() == blob.tiles as int / 6 ==> blob.wf(),
        2 * blob.uncompressed_len + 1 <= usize::MAX,
        font.wf(),
        has_labels(*font, string_views(labels@)),
    ensures
        match res {
            Ok(r) => {
                let at = blob.compressed_addr as int;
                &&& retyped(rom@, blob@, string_views(labels@), None, *font) == Ok::<
                    Seq<u8>,
                    Fault,
                >(r.tiles@)
                &&& r.tiles@.len() == blob.uncompressed_len
                &&& r.recompressed == packed(r.tiles@).len()
                &&& r.consumed == unpack(rom@, at, Seq::empty()).1 - at
                &&& r.in_place == (packed(r.tiles@).len() <= unpack(rom@, at, Seq::empty()).1 - at)
            },
            Err(e) => retyped(rom@, blob@, string_views(labels@), None, *font) == Err::<
                Seq<u8>,
                Fault,
            >(e@),
        },
{
    let (_, consumed) = decompress(rom, blob.compressed_addr);
    let tiles = match retype_blob(rom, blob, labels, None, font) {
        Ok(tiles) => tiles,
        Err(e) => {
            return Err(e);
        },
    };
    let recompressed: usize = compress(tiles.as_slice()).len();
    Ok(RetypePreview { tiles, recompressed, consumed, in_place: recompressed <= consumed })
}

} // verus!
