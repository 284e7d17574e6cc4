//! What the report on interface graphics shows.
use vstd::prelude::*;
use crate::build_ui::block_fault;
use crate::bits::{bit_at, lemma_bit_range};
use crate::font::GlyphFont;
use crate::lzss::{packed, unpack};
use crate::parse::{index_or_len, lemma_index_or_len, split_spec, trim_spec};
use crate::ui_graphics::{blob_addr, blob_buttons, blob_index, blob_name};
use crate::ui_labels::{
    has_all, has_labels, has_ui_labels, label_fault, relabelled_block, retyped, set_labels,
    BlobView,
};
use crate::ui_report::{
    blobs_fault, button_line, color_char, color_count, comma_list, failure_count, nth_pixel,
    tile_in_button, tile_line, BlobCheck,
};
use crate::vram::pixel;

verus! {

// ---------------------------------------------------------------------------
// Blocks
// ---------------------------------------------------------------------------

proof fn lemma_block_names(i: int, j: int)
    requires
        0 <= i < j < 10,
    ensures
        blob_name(i) != blob_name(j),
{
    reveal_strlit("compass");
    reveal_strlit("buttons_map");
    reveal_strlit("buttons_magic_item");
    reveal_strlit("buttons_save");
    reveal_strlit("buttons_flee_lipemco");
    reveal_strlit("buttons_file");
    reveal_strlit("buttons_yes_no");
    reveal_strlit("button_cursor");
    reveal_strlit("buttons_buy_sell_leave");
    reveal_strlit("buttons_title");
    assert("compass"@.len() == 7);
    assert("buttons_map"@.len() == 11);
    assert("buttons_magic_item"@.len() == 18);
    assert("buttons_save"@.len() == 12);
    assert("buttons_flee_lipemco"@.len() == 20);
    assert("buttons_file"@.len() == 12);
    assert("buttons_yes_no"@.len() == 14);
    assert("button_cursor"@.len() == 13);
    assert("buttons_buy_sell_leave"@.len() == 22);
    assert("buttons_title"@.len() == 13);
    assert("buttons_save"@[8] == 's');
    assert("buttons_file"@[8] == 'f');
    assert("button_cursor"@[6] == '_');
    assert("buttons_title"@[6] == 's');
}

proof fn lemma_block_found(name: Seq<char>, from: int, i: int)
    requires
        0 <= from <= i < 10,
        blob_name(i) == name,
    ensures
        blob_index(name, from) == Some(i),
    decreases i - from,
{
    if from < i {
        lemma_block_names(from, i);
        lemma_block_found(name, from + 1, i);
    }
}

proof fn lemma_block_named(name: Seq<char>, from: int)
    requires
        0 <= from <= 10,
    ensures
        blob_index(name, from) matches Some(i) ==> from <= i < 10 && blob_name(i) == name,
    decreases 10 - from,
{
    if from < 10 {
        lemma_block_named(name, from + 1);
    }
}

/// A block is found by its name, and each of the ten has a name of its own.
pub proof fn law_blocks_by_name(name: Seq<char>, i: int)
    ensures
        blob_index(name, 0) == Some(i) <==> 0 <= i < 10 && blob_name(i) == name,
{
    lemma_block_named(name, 0);
    if 0 <= i < 10 && blob_name(i) == name {
        lemma_block_found(name, 0, i);
    }
}

/// A block passes exactly if it unpacks to six tiles of 32 bytes for each of its buttons and
/// packs again into no more bytes than it took.
pub proof fn law_checked_block(c: BlobCheck, rom: Seq<u8>, i: int)
    requires
        0 <= i < 10,
        c.is_check(rom, i),
    ensures
        c.passes() <==> c.decoded == 6 * 32 * blob_buttons(i) && c.recompressed <= c.consumed,
        c.decoded == unpack(rom, blob_addr(i), Seq::empty()).0.len(),
        c.recompressed == packed(unpack(rom, blob_addr(i), Seq::empty()).0).len(),
{
}

/// The blocks can be looked at exactly if the ROM reaches to all of them.
pub proof fn law_blocks_in_rom(rom: Seq<u8>, n: int)
    requires
        0 <= n <= 10,
    ensures
        blobs_fault(rom, n) is None <==> forall|i: int|
            0 <= i < n ==> #[trigger] blob_addr(i) < rom.len(),
    decreases n,
{
    if n > 0 {
        law_blocks_in_rom(rom, n - 1);
        if blobs_fault(rom, n) is None {
            assert forall|i: int| 0 <= i < n implies #[trigger] blob_addr(i) < rom.len() by {}
        } else {
            if blobs_fault(rom, n - 1) is None {
                assert(!(blob_addr(n - 1) < rom.len()));
            }
        }
    }
}

/// The blocks of a list that do not pass.
pub open spec fn failures(list: Seq<BlobCheck>) -> Set<int> {
    Set::new(|i: int| 0 <= i < list.len() && !list[i].passes())
}

proof fn lemma_failures(list: Seq<BlobCheck>, n: int)
    requires
        0 <= n <= list.len(),
    ensures
        failures(list.take(n)).finite(),
        failure_count(list, n) == failures(list.take(n)).len(),
    decreases n,
{
    let here = failures(list.take(n));
    if n == 0 {
        assert(here =~= Set::empty());
    } else {
        lemma_failures(list, n - 1);
        let before = failures(list.take(n - 1));
        if !list[n - 1].passes() {
            assert(here =~= before.insert(n - 1));
        } else {
            assert(here =~= before);
        }
    }
}

/// As many failures are counted as there are blocks that do not pass.
pub proof fn law_failures(list: Seq<BlobCheck>)
    ensures
        failure_count(list, list.len() as int) == failures(list).len(),
{
    lemma_failures(list, list.len() as int);
    assert(list.take(list.len() as int) =~= list);
}

// ---------------------------------------------------------------------------
// Labels
// ---------------------------------------------------------------------------

/// A label fits on a button exactly if it has at most two characters, which are centred, or
/// at most three, each with a place of its own.
pub proof fn law_labels_fit(name: Seq<char>, label: Seq<char>, xs: Option<Seq<usize>>)
    ensures
        xs is None ==> (label_fault(name, label, xs) is None <==> label.len() <= 2),
        xs is Some ==> (label_fault(name, label, xs) is None <==> label.len() <= 3 && xs->0.len()
            == label.len()),
{
}

proof fn lemma_block_labels(
    buf: Seq<u8>,
    blob: BlobView,
    labels: Seq<Seq<char>>,
    xs: Option<Seq<usize>>,
    font: GlyphFont,
    n: int,
)
    requires
        0 <= n <= labels.len(),
    ensures
        relabelled_block(buf, blob, labels, xs, font, n) is Ok <==> forall|k: int|
            0 <= k < n ==> label_fault(blob.name, #[trigger] labels[k], xs) is None,
    decreases n,
{
    if n > 0 {
        lemma_block_labels(buf, blob, labels, xs, font, n - 1);
    }
}

/// A block gets new labels exactly if it unpacks to its size, there is one label for each
/// six tiles, and each of them fits.
pub proof fn law_relabelling(
    rom: Seq<u8>,
    blob: BlobView,
    labels: Seq<Seq<char>>,
    xs: Option<Seq<usize>>,
    font: GlyphFont,
)
    ensures
        retyped(rom, blob, labels, xs, font) is Ok <==> {
            &&& unpack(rom, blob.addr, Seq::empty()).0.len() == blob.size
            &&& 6 * labels.len() <= blob.tiles
            &&& blob.tiles < 6 * (labels.len() + 1)
            &&& forall|k: int|
                0 <= k < labels.len() ==> label_fault(blob.name, #[trigger] labels[k], xs) is None
        },
{
    let buf = unpack(rom, blob.addr, Seq::empty()).0;
    lemma_block_labels(buf, blob, labels, xs, font, labels.len() as int);
}

proof fn lemma_list(s: Seq<char>)
    ensures
        comma_list(s).len() == split_spec(s, ',').len(),
        forall|i: int|
            0 <= i < comma_list(s).len() ==> #[trigger] comma_list(s)[i] == trim_spec(
                split_spec(s, ',')[i],
            ),
    decreases s.len(),
{
    lemma_index_or_len(s, ',');
    let end = index_or_len(s, ',');
    if end < s.len() {
        let rest = s.skip(end + 1);
        lemma_list(rest);
        assert forall|i: int| 0 <= i < comma_list(s).len() implies #[trigger] comma_list(s)[i]
            == trim_spec(split_spec(s, ',')[i]) by {
            if i > 0 {
                assert(comma_list(s)[i] == comma_list(rest)[i - 1]);
                assert(split_spec(s, ',')[i] == split_spec(rest, ',')[i - 1]);
            }
        }
    }
}

/// Labels are read from between commas, without the white space around them.
pub proof fn law_listed_labels(s: Seq<char>, i: int)
    requires
        0 <= i < split_spec(s, ',').len(),
    ensures
        comma_list(s).len() == split_spec(s, ',').len(),
        comma_list(s)[i] == trim_spec(split_spec(s, ',')[i]),
{
    lemma_list(s);
}

// ---------------------------------------------------------------------------
// Pixels
// ---------------------------------------------------------------------------

/// The colour of a pixel is made of one bit of each of four bytes, the lowest bit first: the
/// bytes of its row, and in each the bit at its column from the left.
pub proof fn law_colour_planes(data: Seq<u8>, base: int, x: int, y: int)
    requires
        0 <= x < 8,
    ensures
        0 <= pixel(data, base, x, y) < 16,
        pixel(data, base, x, y) % 2 == bit_at(data[base + 4 * y], (7 - x) as u8),
        pixel(data, base, x, y) / 2 % 2 == bit_at(data[base + 4 * y + 1], (7 - x) as u8),
        pixel(data, base, x, y) / 4 % 2 == bit_at(data[base + 4 * y + 2], (7 - x) as u8),
        pixel(data, base, x, y) / 8 == bit_at(data[base + 4 * y + 3], (7 - x) as u8),
{
    let k = (7 - x) as u8;
    lemma_bit_range(data[base + 4 * y], k);
    lemma_bit_range(data[base + 4 * y + 1], k);
    lemma_bit_range(data[base + 4 * y + 2], k);
    lemma_bit_range(data[base + 4 * y + 3], k);
}

/// Pixels are counted tile by tile, 64 for each 32 bytes, and in a tile row by row.
pub proof fn law_counted_pixels(buf: Seq<u8>, tile: int, x: int, y: int)
    requires
        0 <= tile,
        0 <= x < 8,
        0 <= y < 8,
    ensures
        nth_pixel(buf, 64 * tile + 8 * y + x) == pixel(buf, 32 * tile, x, y),
{
    let k = 64 * tile + 8 * y + x;
    assert(k / 64 == tile);
    assert(k % 8 == x);
    assert(k % 64 == 8 * y + x);
}

/// The pixels of a colour among the first ones.
pub open spec fn pixels_of(buf: Seq<u8>, color: int, n: int) -> Set<int> {
    Set::new(|k: int| 0 <= k < n && nth_pixel(buf, k) == color)
}

/// A colour is counted as often as there are pixels of it.
pub proof fn law_colour_counts(buf: Seq<u8>, color: int, n: int)
    requires
        0 <= n,
    ensures
        pixels_of(buf, color, n).finite(),
        color_count(buf, color, n) == pixels_of(buf, color, n).len(),
    decreases n,
{
    let here = pixels_of(buf, color, n);
    if n == 0 {
        assert(here =~= Set::empty());
    } else {
        law_colour_counts(buf, color, n - 1);
        let before = pixels_of(buf, color, n - 1);
        if nth_pixel(buf, n - 1) == color {
            assert(here =~= before.insert(n - 1));
        } else {
            assert(here =~= before);
        }
    }
}

/// A pixel is shown as the digit of its colour in base sixteen; the first colour is shown as
/// a full stop.
pub proof fn law_shown_colours(v: int)
    requires
        0 <= v < 16,
    ensures
        v == 0 ==> color_char(v) == '.',
        v > 0 ==> color_char(v) == "0123456789abcdef"@[v],
{
    reveal_strlit("0123456789abcdef");
}

/// A button is shown as its pixels lie on the screen: three tiles wide and two high, its
/// tiles either column by column or row by row.
pub proof fn law_shown_button(
    buf: Seq<u8>,
    base: int,
    column: int,
    row: int,
    x: int,
    y: int,
)
    requires
        0 <= column < 3,
        0 <= row < 2,
        0 <= x < 8,
        0 <= y < 8,
    ensures
        button_line(buf, base, 8 * row + y, true).len() == 24,
        button_line(buf, base, 8 * row + y, true)[8 * column + x] == color_char(
            pixel(buf, 32 * (base + 2 * column + row), x, y),
        ),
        button_line(buf, base, 8 * row + y, false).len() == 24,
        button_line(buf, base, 8 * row + y, false)[8 * column + x] == color_char(
            pixel(buf, 32 * (base + 3 * row + column), x, y),
        ),
{
    let gx = 8 * column + x;
    let gy = 8 * row + y;
    assert(gx / 8 == column && gx % 8 == x);
    assert(gy / 8 == row && gy % 8 == y);
    assert(tile_in_button(gx, gy, true) == 2 * column + row);
    assert(tile_in_button(gx, gy, false) == 3 * row + column);
}

/// A tile is shown row by row, eight pixels each.
pub proof fn law_shown_tile(buf: Seq<u8>, tile: int, x: int, y: int)
    requires
        0 <= x < 8,
    ensures
        tile_line(buf, tile, y).len() == 8,
        tile_line(buf, tile, y)[x] == color_char(pixel(buf, 32 * tile, x, y)),
{
}

/// Whether a block of the ROM unpacks to six tiles of 32 bytes for each of its buttons.
pub open spec fn unpacks_whole(rom: Seq<u8>, i: int) -> bool {
    unpack(rom, blob_addr(i), Seq::empty()).0.len() == 6 * 32 * blob_buttons(i)
}

/// The blocks that get their labels in place pass afterwards exactly if each of them still
/// unpacks to its size: map, magic and items, the shop, yes and no, the title, the compass,
/// and files.
pub proof fn law_patched_blocks(rom: Seq<u8>)
    ensures
        block_fault(rom, 0) is None <==> {
            &&& unpacks_whole(rom, 1)
            &&& unpacks_whole(rom, 2)
            &&& unpacks_whole(rom, 8)
            &&& unpacks_whole(rom, 6)
            &&& unpacks_whole(rom, 9)
            &&& unpacks_whole(rom, 0)
            &&& unpacks_whole(rom, 5)
        },
{
    reveal_with_fuel(block_fault, 8);
}

/// A font has what the labels need exactly if it has every character of every label.
pub proof fn law_label_characters(font: GlyphFont)
    ensures
        has_ui_labels(font) <==> forall|i: int, k: int, c: int|
            0 <= i < 9 && 0 <= k < set_labels(i).len() && 0 <= c < set_labels(i)[k].len()
                ==> font.has(#[trigger] set_labels(i)[k][c]),
{
    if has_ui_labels(font) {
        assert forall|i: int, k: int, c: int|
            0 <= i < 9 && 0 <= k < set_labels(i).len() && 0 <= c < set_labels(i)[k].len()
            implies font.has(#[trigger] set_labels(i)[k][c]) by {
            assert(has_all(font, set_labels(i)[k]));
        }
    }
    if forall|i: int, k: int, c: int|
        0 <= i < 9 && 0 <= k < set_labels(i).len() && 0 <= c < set_labels(i)[k].len() ==> font.has(
            #[trigger] set_labels(i)[k][c],
        ) {
        assert forall|i: int| 0 <= i < 9 implies has_labels(font, #[trigger] set_labels(i)) by {
            assert forall|k: int| 0 <= k < set_labels(i).len() implies has_all(
                font,
                #[trigger] set_labels(i)[k],
            ) by {}
        }
    }
}

} // verus!
