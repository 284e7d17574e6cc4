//! Interface graphics: tiles, the inventory of compressed blocks, and buttons with
//! new labels.
use vstd::prelude::*;
use crate::bits::{bit_at, lemma_bit_range, lemma_join4};
use crate::parse::same_str;
use crate::vram::{law_set_pixel, lemma_pixel_range, pixel, with_pixel};

verus! {

/// The bytes of a tile.
pub const TILE_BYTES: usize = 32;

/// The colour of a button's face.
pub const BG_INDEX: u8 = 1;

/// The colour of a button's label.
pub const INK_INDEX: u8 = 15;

// ---------------------------------------------------------------------------
// Tiles
// ---------------------------------------------------------------------------

/// The colour of a pixel of a tile.
pub fn get_index(tile: &[u8], x: usize, y: usize) -> (color: u8)
    requires
        x < 8,
        4 * y + 4 <= tile@.len(),
    ensures
        color as int == pixel(tile@, 0, x as int, y as int),
        color < 16,
{
    get_at(tile, 0, x, y)
}

/// The colour of a pixel of the tile that starts at `base`.
pub fn get_at(buf: &[u8], base: usize, x: usize, y: usize) -> (color: u8)
    requires
        x < 8,
        base + 4 * y + 4 <= buf@.len(),
    ensures
        color as int == pixel(buf@, base as int, x as int, y as int),
        color < 16,
{
    let size: usize = buf.len();
    let row: usize = base + y * 4;
    let bit: u8 = 7 - x as u8;
    let b0: u8 = (buf[row] >> bit) & 1;
    let b1: u8 = (buf[row + 1] >> bit) & 1;
    let b2: u8 = (buf[row + 2] >> bit) & 1;
    let b3: u8 = (buf[row + 3] >> bit) & 1;
    proof {
        lemma_pixel_range(buf@, base as int, x as int, y as int);
        lemma_bit_range(buf@[row as int], bit);
        lemma_bit_range(buf@[row + 1], bit);
        lemma_bit_range(buf@[row + 2], bit);
        lemma_bit_range(buf@[row + 3], bit);
        lemma_join4(b0, b1, b2, b3);
    }
    b0 | (b1 << 1) | (b2 << 2) | (b3 << 3)
}

/// Sets the colour of a pixel of a tile; the low four bits of `idx` count.
pub fn set_index(tile: &mut [u8], x: usize, y: usize, idx: u8)
    requires
        x < 8,
        4 * y + 4 <= old(tile)@.len(),
    ensures
        final(tile)@ == with_pixel(old(tile)@, 0, x as int, y as int, idx),
{
    let size: usize = tile.len();
    let row: usize = y * 4;
    let bit: u8 = 7 - x as u8;
    let mask: u8 = !(1u8 << bit);
    let ghost before = tile@;
    tile[row] = (tile[row] & mask) | (((idx >> 0) & 1) << bit);
    tile[row + 1] = (tile[row + 1] & mask) | (((idx >> 1) & 1) << bit);
    tile[row + 2] = (tile[row + 2] & mask) | (((idx >> 2) & 1) << bit);
    tile[row + 3] = (tile[row + 3] & mask) | (((idx >> 3) & 1) << bit);
    proof {
        assert(tile@ =~= with_pixel(before, 0, x as int, y as int, idx));
    }
}

/// Sets the colour of a pixel of the tile that starts at `base`.
fn set_at(buf: &mut [u8], base: usize, x: usize, y: usize, idx: u8)
    requires
        x < 8,
        base + 4 * y + 4 <= old(buf)@.len(),
    ensures
        final(buf)@ == with_pixel(old(buf)@, base as int, x as int, y as int, idx),
        final(buf)@.len() == old(buf)@.len(),
{
    let size: usize = buf.len();
    let row: usize = base + y * 4;
    let bit: u8 = 7 - x as u8;
    let mask: u8 = !(1u8 << bit);
    let ghost before = buf@;
    buf[row] = (buf[row] & mask) | (((idx >> 0) & 1) << bit);
    buf[row + 1] = (buf[row + 1] & mask) | (((idx >> 1) & 1) << bit);
    buf[row + 2] = (buf[row + 2] & mask) | (((idx >> 2) & 1) << bit);
    buf[row + 3] = (buf[row + 3] & mask) | (((idx >> 3) & 1) << bit);
    proof {
        assert(buf@ =~= with_pixel(before, base as int, x as int, y as int, idx));
    }
}

/// One row of colours.
fn decode_row(tile: &[u8], y: usize) -> (row: [u8; 8])
    requires
        y < 8,
        tile@.len() >= 32,
    ensures
        forall|x: int| 0 <= x < 8 ==> #[trigger] row@[x] as int == pixel(tile@, 0, x, y as int),
{
    let mut row: [u8; 8] = [0u8; 8];
    let mut x: usize = 0;
    while x < 8
        invariant
            x <= 8,
            y < 8,
            tile@.len() >= 32,
            forall|i: int| 0 <= i < x ==> #[trigger] row@[i] as int == pixel(tile@, 0, i, y as int),
        decreases 8 - x,
    {
        row[x] = get_index(tile, x, y);
        x += 1;
    }
    row
}

/// The colours of a tile, row by row.
pub fn decode_tile(tile: &[u8]) -> (grid: [[u8; 8]; 8])
    requires
        tile@.len() >= 32,
    ensures
        forall|x: int, y: int|
            0 <= x < 8 && 0 <= y < 8 ==> #[trigger] grid@[y]@[x] as int == pixel(tile@, 0, x, y),
{
    [
        decode_row(tile, 0),
        decode_row(tile, 1),
        decode_row(tile, 2),
        decode_row(tile, 3),
        decode_row(tile, 4),
        decode_row(tile, 5),
        decode_row(tile, 6),
        decode_row(tile, 7),
    ]
}

// ---------------------------------------------------------------------------
// Inventory
// ---------------------------------------------------------------------------

/// A compressed block of interface graphics.
#[derive(Debug, Clone, Copy)]
pub struct UiBlob {
    /// What it is called.
    pub name: &'static str,
    /// Where it stands in the ROM.
    pub compressed_addr: usize,
    /// Its size once it is decoded.
    pub uncompressed_len: usize,
    /// How many tiles that is.
    pub tiles: usize,
    /// What it says in the game.
    pub jp: &'static str,
    /// What it could say in Korean.
    pub ko_hint: &'static str,
    /// The inside of a button: first row, row after the last, first column, column
    /// after the last.
    pub interior_box: (usize, usize, usize, usize),
}

/// The inside of most buttons.
pub const DEFAULT_INTERIOR_BOX: (usize, usize, usize, usize) = (3, 13, 3, 21);

/// The inside of the compass stones, whose frames are wider.
pub const COMPASS_INTERIOR_BOX: (usize, usize, usize, usize) = (3, 13, 4, 20);

/// How many blocks the inventory has.
pub const UI_BLOB_COUNT: usize = 10;

/// The names of the blocks.
pub open spec fn blob_name(i: int) -> Seq<char> {
    if i == 0 {
        "compass"@
    } else if i == 1 {
        "buttons_map"@
    } else if i == 2 {
        "buttons_magic_item"@
    } else if i == 3 {
        "buttons_save"@
    } else if i == 4 {
        "buttons_flee_lipemco"@
    } else if i == 5 {
        "buttons_file"@
    } else if i == 6 {
        "buttons_yes_no"@
    } else if i == 7 {
        "button_cursor"@
    } else if i == 8 {
        "buttons_buy_sell_leave"@
    } else {
        "buttons_title"@
    }
}

/// What the buttons of the blocks say in the game.
pub open spec fn blob_jp(i: int) -> Seq<char> {
    if i == 0 {
        "東西南北"@
    } else if i == 1 {
        "マップ"@
    } else if i == 2 {
        "じゅもん/アイテム"@
    } else if i == 3 {
        "セーブ"@
    } else if i == 4 {
        "ダッシュ/にげる"@
    } else if i == 5 {
        "ファイル1~4"@
    } else if i == 6 {
        "はい/いいえ"@
    } else if i == 7 {
        "(커서)"@
    } else if i == 8 {
        "かう/うる/やめる"@
    } else {
        "はじめ/つづき"@
    }
}

/// What the buttons of the blocks say in Korean.
pub open spec fn blob_hint(i: int) -> Seq<char> {
    if i == 0 {
        "동/서/남/북"@
    } else if i == 1 {
        "지도"@
    } else if i == 2 {
        "주문/아이템"@
    } else if i == 3 {
        "저장"@
    } else if i == 4 {
        "대시/도망"@
    } else if i == 5 {
        "파일1~4"@
    } else if i == 6 {
        "예/아니오"@
    } else if i == 7 {
        "(원본 유지)"@
    } else if i == 8 {
        "사기/팔기/가기"@
    } else {
        "시작/계속"@
    }
}

/// Where the blocks stand.
pub open spec fn blob_addr(i: int) -> int {
    if i == 0 {
        0x92DA
    } else if i == 1 {
        0x8C30
    } else if i == 2 {
        0x8CCA
    } else if i == 3 {
        0x8DD3
    } else if i == 4 {
        0x8E6E
    } else if i == 5 {
        0x944D
    } else if i == 6 {
        0x9578
    } else if i == 7 {
        0x9526
    } else if i == 8 {
        0x25CEA
    } else {
        0x23D22
    }
}

/// How many buttons the blocks hold.
pub open spec fn blob_buttons(i: int) -> int {
    if i == 0 || i == 5 {
        4
    } else if i == 1 || i == 3 || i == 7 {
        1
    } else if i == 8 {
        3
    } else {
        2
    }
}

impl UiBlob {
    /// Whether this is block `i` of the inventory.
    pub open spec fn is_entry(self, i: int) -> bool {
        &&& self.name@ == blob_name(i)
        &&& self.compressed_addr == blob_addr(i)
        &&& self.jp@ == blob_jp(i)
        &&& self.ko_hint@ == blob_hint(i)
        &&& self.tiles == 6 * blob_buttons(i)
        &&& self.uncompressed_len == 32 * self.tiles
        &&& self.interior_box == if i == 0 {
            COMPASS_INTERIOR_BOX
        } else {
            DEFAULT_INTERIOR_BOX
        }
    }

    /// Whether the whole buttons of the block, if there are any, fit into what it decodes
    /// to, and every pixel of its box lies in a tile of the button.
    pub open spec fn wf(self) -> bool {
        self.tiles >= 6 ==> {
            &&& 192 * (self.tiles as int / 6) <= self.uncompressed_len
            &&& box_fits(
                self.interior_box.0 as int,
                self.interior_box.1 as int,
                self.interior_box.2 as int,
                self.interior_box.3 as int,
            )
        }
    }
}

/// Block `i` of the inventory.
pub fn ui_blob(i: usize) -> (b: UiBlob)
    requires
        i < 10,
    ensures
        b.is_entry(i as int),
        b.wf(),
        b.uncompressed_len <= 768,
{
    if i == 0 {
        UiBlob {
            name: "compass",
            compressed_addr: 0x92DA,
            uncompressed_len: 768,
            tiles: 24,
            jp: "東西南北",
            ko_hint: "동/서/남/북",
            interior_box: COMPASS_INTERIOR_BOX,
        }
    } else if i == 1 {
        UiBlob {
            name: "buttons_map",
            compressed_addr: 0x8C30,
            uncompressed_len: 192,
            tiles: 6,
            jp: "マップ",
            ko_hint: "지도",
            interior_box: DEFAULT_INTERIOR_BOX,
        }
    } else if i == 2 {
        UiBlob {
            name: "buttons_magic_item",
            compressed_addr: 0x8CCA,
            uncompressed_len: 384,
            tiles: 12,
            jp: "じゅもん/アイテム",
            ko_hint: "주문/아이템",
            interior_box: DEFAULT_INTERIOR_BOX,
        }
    } else if i == 3 {
        UiBlob {
            name: "buttons_save",
            compressed_addr: 0x8DD3,
            uncompressed_len: 192,
            tiles: 6,
            jp: "セーブ",
            ko_hint: "저장",
            interior_box: DEFAULT_INTERIOR_BOX,
        }
    } else if i == 4 {
        UiBlob {
            name: "buttons_flee_lipemco",
            compressed_addr: 0x8E6E,
            uncompressed_len: 384,
            tiles: 12,
            jp: "ダッシュ/にげる",
            ko_hint: "대시/도망",
            interior_box: DEFAULT_INTERIOR_BOX,
        }
    } else if i == 5 {
        UiBlob {
            name: "buttons_file",
            compressed_addr: 0x944D,
            uncompressed_len: 768,
            tiles: 24,
            jp: "ファイル1~4",
            ko_hint: "파일1~4",
            interior_box: DEFAULT_INTERIOR_BOX,
        }
    } else if i == 6 {
        UiBlob {
            name: "buttons_yes_no",
            compressed_addr: 0x9578,
            uncompressed_len: 384,
            tiles: 12,
            jp: "はい/いいえ",
            ko_hint: "예/아니오",
            interior_box: DEFAULT_INTERIOR_BOX,
        }
    } else if i == 7 {
        UiBlob {
            name: "button_cursor",
            compressed_addr: 0x9526,
            uncompressed_len: 192,
            tiles: 6,
            jp: "(커서)",
            ko_hint: "(원본 유지)",
            interior_box: DEFAULT_INTERIOR_BOX,
        }
    } else if i == 8 {
        UiBlob {
            name: "buttons_buy_sell_leave",
            compressed_addr: 0x25CEA,
            uncompressed_len: 576,
            tiles: 18,
            jp: "かう/うる/やめる",
            ko_hint: "사기/팔기/가기",
            interior_box: DEFAULT_INTERIOR_BOX,
        }
    } else {
        UiBlob {
            name: "buttons_title",
            compressed_addr: 0x23D22,
            uncompressed_len: 384,
            tiles: 12,
            jp: "はじめ/つづき",
            ko_hint: "시작/계속",
            interior_box: DEFAULT_INTERIOR_BOX,
        }
    }
}

/// The number of a block by name, among blocks from `i` on.
pub open spec fn blob_index(name: Seq<char>, i: int) -> Option<int>
    decreases 10 - i,
{
    if i >= 10 {
        None
    } else if blob_name(i) == name {
        Some(i)
    } else {
        blob_index(name, i + 1)
    }
}

/// A block by name.
pub fn blob_by_name(name: &str) -> (r: Option<UiBlob>)
    ensures
        match r {
            Some(b) => blob_index(name@, 0) matches Some(i) && b.is_entry(i) && b.wf()
                && b.uncompressed_len <= 768,
            None => blob_index(name@, 0) is None,
        },
{
    let mut i: usize = 0;
    while i < UI_BLOB_COUNT
        invariant
            i <= 10,
            blob_index(name@, 0) == blob_index(name@, i as int),
        decreases 10 - i,
    {
        let b = ui_blob(i);
        if same_str(b.name, name) {
            return Some(b);
        }
        i += 1;
    }
    None
}

// ---------------------------------------------------------------------------
// Painting buttons
// ---------------------------------------------------------------------------

/// Which of the six tiles of a button of 24×16 pixels a pixel lies in: tiles go down
/// the columns.
pub open spec fn button_tile(gx: int, gy: int) -> int {
    (gx / 8) * 2 + gy / 8
}

/// Whether every pixel of a box lies in one of the six tiles of a button.
pub open spec fn box_fits(r0: int, r1: int, c0: int, c1: int) -> bool {
    forall|gx: int, gy: int|
        c0 <= gx < c1 && r0 <= gy < r1 ==> #[trigger] button_tile(gx, gy) < 6
}

/// Whether a pixel of a button can be painted: its tile is one of the six, and that
/// tile lies within the buffer.
pub open spec fn paintable(len: int, tiles: Seq<usize>, p: (int, int)) -> bool {
    &&& 0 <= p.0
    &&& 0 <= p.1
    &&& button_tile(p.0, p.1) < 6
    &&& (tiles[button_tile(p.0, p.1)] + 1) * 32 <= len
}

/// A buffer with one pixel of a button painted.
pub open spec fn dab(buf: Seq<u8>, tiles: Seq<usize>, p: (int, int), color: u8) -> Seq<u8> {
    with_pixel(buf, tiles[button_tile(p.0, p.1)] * 32, p.0 % 8, p.1 % 8, color)
}

/// A buffer with pixels of a button painted.
pub open spec fn painted(buf: Seq<u8>, tiles: Seq<usize>, points: Seq<(int, int)>, color: u8) -> Seq<
    u8,
>
    decreases points.len(),
{
    if points.len() == 0 {
        buf
    } else {
        dab(painted(buf, tiles, points.drop_last(), color), tiles, points.last(), color)
    }
}

/// The pixels of a row.
pub open spec fn row_points(gy: int, c0: int, c1: int) -> Seq<(int, int)> {
    Seq::new(
        if c1 > c0 {
            (c1 - c0) as nat
        } else {
            0
        },
        |i: int| (c0 + i, gy),
    )
}

/// The pixels of a box, row by row.
pub open spec fn box_points(r0: int, r1: int, c0: int, c1: int) -> Seq<(int, int)>
    decreases r1 - r0,
{
    if r1 <= r0 {
        Seq::empty()
    } else {
        box_points(r0, r1 - 1, c0, c1) + row_points(r1 - 1, c0, c1)
    }
}

/// The pixels of the first `n` columns of a row of a glyph that stands at column `x0`,
/// as far as they are on the button.
pub open spec fn ink_row(row: u8, x0: int, gy: int, n: int) -> Seq<(int, int)>
    decreases n,
{
    if n <= 0 {
        Seq::empty()
    } else if bit_at(row, (7 - (n - 1)) as u8) == 1 && x0 + (n - 1) < 24 {
        ink_row(row, x0, gy, n - 1).push((x0 + (n - 1), gy))
    } else {
        ink_row(row, x0, gy, n - 1)
    }
}

/// The pixels of the first `n` rows of a glyph; glyphs start at row 4.
pub open spec fn ink_glyph(glyph: Seq<u8>, x0: int, n: int) -> Seq<(int, int)>
    decreases n,
{
    if n <= 0 {
        Seq::empty()
    } else {
        ink_glyph(glyph, x0, n - 1) + ink_row(glyph[n - 1], x0, 4 + (n - 1), 8)
    }
}

/// Where glyph `i` of `k` stands: where it is told to, else side by side with the
/// others in the middle of the button.
pub open spec fn glyph_x(k: int, xs: Option<Seq<usize>>, i: int) -> int {
    match xs {
        Some(list) if i < list.len() => list[i] as int,
        _ => (if k < 3 {
            (24 - 8 * k) / 2
        } else {
            0
        }) + 8 * i,
    }
}

/// The pixels of the first `n` glyphs of a label.
pub open spec fn ink_points(glyphs: Seq<Seq<u8>>, xs: Option<Seq<usize>>, n: int) -> Seq<(int, int)>
    decreases n,
{
    if n <= 0 {
        Seq::empty()
    } else {
        ink_points(glyphs, xs, n - 1) + ink_glyph(
            glyphs[n - 1],
            glyph_x(glyphs.len() as int, xs, n - 1),
            8,
        )
    }
}

/// A buffer in which a button has got a new label: its inside is wiped with the
/// colour of the face, then the glyphs are stamped in the colour of the label.
pub open spec fn relabelled(
    buf: Seq<u8>,
    tiles: Seq<usize>,
    glyphs: Seq<Seq<u8>>,
    xs: Option<Seq<usize>>,
    r0: int,
    r1: int,
    c0: int,
    c1: int,
) -> Seq<u8> {
    painted(
        painted(buf, tiles, box_points(r0, r1, c0, c1), 1),
        tiles,
        ink_points(glyphs, xs, glyphs.len() as int),
        15,
    )
}

/// The models of glyphs.
pub open spec fn glyph_views(list: Seq<[u8; 8]>) -> Seq<Seq<u8>> {
    Seq::new(list.len(), |i: int| list[i]@)
}

/// Positions that may be absent, as a model.
pub open spec fn xs_view(xs: Option<&[usize]>) -> Option<Seq<usize>> {
    match xs {
        Some(list) => Some(list@),
        None => None,
    }
}

/// Whether all pixels of a list can be painted.
pub open spec fn all_paintable(len: int, tiles: Seq<usize>, points: Seq<(int, int)>) -> bool {
    forall|i: int| 0 <= i < points.len() ==> paintable(len, tiles, #[trigger] points[i])
}

/// Painting keeps the size of a buffer.
pub proof fn lemma_painted_len(buf: Seq<u8>, tiles: Seq<usize>, points: Seq<(int, int)>, color: u8)
    requires
        all_paintable(buf.len() as int, tiles, points),
    ensures
        painted(buf, tiles, points, color).len() == buf.len(),
    decreases points.len(),
{
    if points.len() > 0 {
        let front = points.drop_last();
        assert forall|i: int| 0 <= i < front.len() implies paintable(
            buf.len() as int,
            tiles,
            #[trigger] front[i],
        ) by {
            assert(front[i] == points[i]);
        }
        assert(paintable(buf.len() as int, tiles, points[points.len() - 1]));
        lemma_painted_len(buf, tiles, points.drop_last(), color);
    }
}

proof fn lemma_box_prefix(r0: int, r: int, r1: int, c0: int, c1: int, j: int)
    requires
        r0 <= r < r1,
        c0 <= c0 + j < c1,
        0 <= j,
    ensures
        0 <= box_points(r0, r, c0, c1).len() + j < box_points(r0, r1, c0, c1).len(),
        box_points(r0, r1, c0, c1)[box_points(r0, r, c0, c1).len() + j] == (c0 + j, r),
        box_points(r0, r, c0, c1).len() == (r - r0) * (c1 - c0),
    decreases r1 - r,
{
    lemma_box_len(r0, r, c0, c1);
    if r == r1 - 1 {
        let front = box_points(r0, r, c0, c1);
        assert(box_points(r0, r1, c0, c1) == front + row_points(r, c0, c1));
        assert((front + row_points(r, c0, c1))[front.len() + j] == row_points(r, c0, c1)[j]);
    } else {
        lemma_box_prefix(r0, r, r1 - 1, c0, c1, j);
    }
}

proof fn lemma_box_len(r0: int, r: int, c0: int, c1: int)
    requires
        r0 <= r,
        c0 <= c1,
    ensures
        box_points(r0, r, c0, c1).len() == (r - r0) * (c1 - c0),
    decreases r - r0,
{
    if r > r0 {
        lemma_box_len(r0, r - 1, c0, c1);
        assert((r - r0) * (c1 - c0) == (r - 1 - r0) * (c1 - c0) + (c1 - c0)) by (nonlinear_arith);
    } else {
        assert((r - r0) * (c1 - c0) == 0) by (nonlinear_arith)
            requires
                r == r0,
        ;
    }
}

/// Wipes the inside of a button.
fn wipe_box(
    buf: &mut [u8],
    tiles: &[usize; 6],
    interior_box: (usize, usize, usize, usize),
)
    requires
        all_paintable(
            old(buf)@.len() as int,
            tiles@,
            box_points(
                interior_box.0 as int,
                interior_box.1 as int,
                interior_box.2 as int,
                interior_box.3 as int,
            ),
        ),
    ensures
        final(buf)@ == painted(
            old(buf)@,
            tiles@,
            box_points(
                interior_box.0 as int,
                interior_box.1 as int,
                interior_box.2 as int,
                interior_box.3 as int,
            ),
            1,
        ),
        final(buf)@.len() == old(buf)@.len(),
{
    let (r0, r1, c0, c1) = interior_box;
    let ghost begin = buf@;
    let ghost len = buf@.len() as int;
    let ghost all = box_points(r0 as int, r1 as int, c0 as int, c1 as int);
    let mut gy: usize = r0;
    if r0 >= r1 {
        return ;
    }
    if c0 >= c1 {
        proof {
            lemma_no_points(r0 as int, r1 as int, c0 as int, c1 as int);
        }
        return ;
    }
    while gy < r1
        invariant
            r0 <= gy <= r1,
            c0 < c1,
            len == begin.len(),
            all == box_points(r0 as int, r1 as int, c0 as int, c1 as int),
            all_paintable(len, tiles@, all),
            buf@.len() == len,
            buf@ == painted(
                begin,
                tiles@,
                box_points(r0 as int, gy as int, c0 as int, c1 as int),
                1,
            ),
        decreases r1 - gy,
    {
        let ghost done = box_points(r0 as int, gy as int, c0 as int, c1 as int);
        let mut gx: usize = c0;
        proof {
            assert(done + row_points(gy as int, c0 as int, c0 as int) =~= done);
        }
        while gx < c1
            invariant
                r0 <= gy < r1,
                c0 <= gx <= c1,
                len == begin.len(),
                all == box_points(r0 as int, r1 as int, c0 as int, c1 as int),
                all_paintable(len, tiles@, all),
                done == box_points(r0 as int, gy as int, c0 as int, c1 as int),
                buf@.len() == len,
                buf@ == painted(
                    begin,
                    tiles@,
                    done + row_points(gy as int, c0 as int, gx as int),
                    1,
                ),
            decreases c1 - gx,
        {
            let ghost p = (gx as int, gy as int);
            let ghost was = done + row_points(gy as int, c0 as int, gx as int);
            let ghost now = done + row_points(gy as int, c0 as int, gx + 1);
            proof {
                lemma_box_prefix(
                    r0 as int,
                    gy as int,
                    r1 as int,
                    c0 as int,
                    c1 as int,
                    gx - c0,
                );
                assert(paintable(len, tiles@, all[done.len() + (gx - c0)]));
                assert(now.drop_last() =~= was);
                assert(now.last() == p);
            }
            let size: usize = buf.len();
            let tile: usize = tiles[(gx / 8) * 2 + gy / 8];
            set_at(buf, tile * TILE_BYTES, gx % 8, gy % 8, BG_INDEX);
            gx += 1;
        }
        proof {
            assert(box_points(r0 as int, gy + 1, c0 as int, c1 as int) =~= done + row_points(
                gy as int,
                c0 as int,
                c1 as int,
            ));
        }
        gy += 1;
    }
}

proof fn lemma_no_points(r0: int, r1: int, c0: int, c1: int)
    requires
        c0 >= c1,
    ensures
        box_points(r0, r1, c0, c1) == Seq::<(int, int)>::empty(),
    decreases r1 - r0,
{
    if r1 > r0 {
        lemma_no_points(r0, r1 - 1, c0, c1);
        assert(box_points(r0, r1, c0, c1) =~= Seq::<(int, int)>::empty());
    }
}

/// Stamps one row of a glyph.
fn stamp_row(
    buf: &mut [u8],
    tiles: &[usize; 6],
    row: u8,
    x0: usize,
    gy: usize,
    begin: Ghost<Seq<u8>>,
    done: Ghost<Seq<(int, int)>>,
)
    requires
        gy < 16,
        old(buf)@.len() == begin@.len(),
        old(buf)@ == painted(begin@, tiles@, done@, 15),
        all_paintable(begin@.len() as int, tiles@, ink_row(row, x0 as int, gy as int, 8)),
    ensures
        final(buf)@.len() == begin@.len(),
        final(buf)@ == painted(
            begin@,
            tiles@,
            done@ + ink_row(row, x0 as int, gy as int, 8),
            15,
        ),
{
    let ghost all = ink_row(row, x0 as int, gy as int, 8);
    let ghost len = begin@.len() as int;
    let mut rx: u8 = 0;
    proof {
        assert(done@ + ink_row(row, x0 as int, gy as int, 0) =~= done@);
    }
    while rx < 8
        invariant
            rx <= 8,
            gy < 16,
            len == begin@.len(),
            all == ink_row(row, x0 as int, gy as int, 8),
            all_paintable(len, tiles@, all),
            buf@.len() == len,
            buf@ == painted(
                begin@,
                tiles@,
                done@ + ink_row(row, x0 as int, gy as int, rx as int),
                15,
            ),
        decreases 8 - rx,
    {
        let ghost was = done@ + ink_row(row, x0 as int, gy as int, rx as int);
        let ghost now = done@ + ink_row(row, x0 as int, gy as int, rx + 1);
        if (row >> (7 - rx)) & 1 == 1 && x0 < 24 && x0 + (rx as usize) < 24 {
            let gx: usize = x0 + rx as usize;
            proof {
                lemma_ink_row_prefix(row, x0 as int, gy as int, rx + 1, 8);
                let k = ink_row(row, x0 as int, gy as int, rx as int).len() as int;
                assert(paintable(len, tiles@, all[k]));
                assert(now.drop_last() =~= was);
                assert(now.last() == (gx as int, gy as int));
            }
            let size: usize = buf.len();
            let tile: usize = tiles[(gx / 8) * 2 + gy / 8];
            set_at(buf, tile * TILE_BYTES, gx % 8, gy % 8, INK_INDEX);
        }
        rx += 1;
    }
}

proof fn lemma_ink_row_prefix(row: u8, x0: int, gy: int, k: int, n: int)
    requires
        0 <= k <= n,
    ensures
        ink_row(row, x0, gy, k).len() <= ink_row(row, x0, gy, n).len(),
        forall|i: int|
            0 <= i < ink_row(row, x0, gy, k).len() ==> ink_row(row, x0, gy, k)[i] == ink_row(
                row,
                x0,
                gy,
                n,
            )[i],
    decreases n - k,
{
    if k < n {
        lemma_ink_row_prefix(row, x0, gy, k, n - 1);
    }
}

/// Stamps one glyph.
fn stamp_glyph(
    buf: &mut [u8],
    tiles: &[usize; 6],
    glyph: &[u8; 8],
    x0: usize,
    begin: Ghost<Seq<u8>>,
    done: Ghost<Seq<(int, int)>>,
)
    requires
        old(buf)@.len() == begin@.len(),
        old(buf)@ == painted(begin@, tiles@, done@, 15),
        all_paintable(begin@.len() as int, tiles@, ink_glyph(glyph@, x0 as int, 8)),
    ensures
        final(buf)@.len() == begin@.len(),
        final(buf)@ == painted(begin@, tiles@, done@ + ink_glyph(glyph@, x0 as int, 8), 15),
{
    let ghost all = ink_glyph(glyph@, x0 as int, 8);
    let ghost len = begin@.len() as int;
    let mut ry: usize = 0;
    proof {
        assert(done@ + ink_glyph(glyph@, x0 as int, 0) =~= done@);
    }
    while ry < 8
        invariant
            ry <= 8,
            len == begin@.len(),
            all == ink_glyph(glyph@, x0 as int, 8),
            all_paintable(len, tiles@, all),
            buf@.len() == len,
            buf@ == painted(
                begin@,
                tiles@,
                done@ + ink_glyph(glyph@, x0 as int, ry as int),
                15,
            ),
        decreases 8 - ry,
    {
        let ghost front = ink_glyph(glyph@, x0 as int, ry as int);
        let ghost row = ink_row(glyph@[ry as int], x0 as int, 4 + ry, 8);
        proof {
            lemma_ink_glyph_prefix(glyph@, x0 as int, ry + 1, 8);
            assert forall|i: int| 0 <= i < row.len() implies paintable(
                len,
                tiles@,
                #[trigger] row[i],
            ) by {
                assert(ink_glyph(glyph@, x0 as int, ry + 1)[front.len() + i] == row[i]);
                assert(paintable(len, tiles@, all[front.len() + i]));
            }
        }
        stamp_row(buf, tiles, glyph[ry], x0, 4 + ry, begin, Ghost(done@ + front));
        proof {
            assert((done@ + front) + row =~= done@ + ink_glyph(glyph@, x0 as int, ry + 1));
        }
        ry += 1;
    }
}

proof fn lemma_ink_glyph_prefix(glyph: Seq<u8>, x0: int, k: int, n: int)
    requires
        0 <= k <= n,
    ensures
        ink_glyph(glyph, x0, k).len() <= ink_glyph(glyph, x0, n).len(),
        forall|i: int|
            0 <= i < ink_glyph(glyph, x0, k).len() ==> ink_glyph(glyph, x0, k)[i] == ink_glyph(
                glyph,
                x0,
                n,
            )[i],
    decreases n - k,
{
    if k < n {
        lemma_ink_glyph_prefix(glyph, x0, k, n - 1);
    }
}

proof fn lemma_ink_points_prefix(glyphs: Seq<Seq<u8>>, xs: Option<Seq<usize>>, k: int, n: int)
    requires
        0 <= k <= n,
    ensures
        ink_points(glyphs, xs, k).len() <= ink_points(glyphs, xs, n).len(),
        forall|i: int|
            0 <= i < ink_points(glyphs, xs, k).len() ==> ink_points(glyphs, xs, k)[i] == ink_points(
                glyphs,
                xs,
                n,
            )[i],
    decreases n - k,
{
    if k < n {
        lemma_ink_points_prefix(glyphs, xs, k, n - 1);
    }
}

proof fn lemma_far_row(row: u8, x0: int, gy: int, n: int)
    requires
        x0 >= 24,
        n >= 0,
    ensures
        ink_row(row, x0, gy, n) == Seq::<(int, int)>::empty(),
    decreases n,
{
    if n > 0 {
        lemma_far_row(row, x0, gy, n - 1);
    }
}

proof fn lemma_far_glyph(glyph: Seq<u8>, x0: int, n: int)
    requires
        x0 >= 24,
        n >= 0,
    ensures
        ink_glyph(glyph, x0, n) == Seq::<(int, int)>::empty(),
    decreases n,
{
    if n > 0 {
        lemma_far_glyph(glyph, x0, n - 1);
        lemma_far_row(glyph[n - 1], x0, 4 + (n - 1), 8);
        assert(ink_glyph(glyph, x0, n) =~= Seq::<(int, int)>::empty());
    }
}

/// Gives a button a new label: wipes its inside and stamps the glyphs.
pub fn retype_button(
    buf: &mut [u8],
    tiles: &[usize; 6],
    glyphs: &[[u8; 8]],
    xs: Option<&[usize]>,
    interior_box: (usize, usize, usize, usize),
)
    requires
        all_paintable(
            old(buf)@.len() as int,
            tiles@,
            box_points(
                interior_box.0 as int,
                interior_box.1 as int,
                interior_box.2 as int,
                interior_box.3 as int,
            ),
        ),
        all_paintable(
            old(buf)@.len() as int,
            tiles@,
            ink_points(glyph_views(glyphs@), xs_view(xs), glyphs@.len() as int),
        ),
    ensures
        final(buf)@ == relabelled(
            old(buf)@,
            tiles@,
            glyph_views(glyphs@),
            xs_view(xs),
            interior_box.0 as int,
            interior_box.1 as int,
            interior_box.2 as int,
            interior_box.3 as int,
        ),
        final(buf)@.len() == old(buf)@.len(),
{
    let ghost first = buf@;
    let ghost list = glyph_views(glyphs@);
    let ghost places = xs_view(xs);
    let ghost len = buf@.len() as int;
    let ghost all = ink_points(list, places, glyphs@.len() as int);
    wipe_box(buf, tiles, interior_box);
    let ghost begin = buf@;
    let k: usize = glyphs.len();
    let x_start: usize = if k < 3 {
        (24 - 8 * k) / 2
    } else {
        0
    };
    let mut i: usize = 0;
    while i < k
        invariant
            i <= k,
            k == glyphs@.len(),
            x_start == if k < 3 {
                (24 - 8 * k) / 2
            } else {
                0
            },
            list == glyph_views(glyphs@),
            places == xs_view(xs),
            len == begin.len(),
            all == ink_points(list, places, k as int),
            all_paintable(len, tiles@, all),
            buf@.len() == len,
            buf@ == painted(begin, tiles@, ink_points(list, places, i as int), 15),
        decreases k - i,
    {
        let ghost front = ink_points(list, places, i as int);
        let given: Option<usize> = match xs {
            Some(l) => if i < l.len() {
                Some(l[i])
            } else {
                None
            },
            None => None,
        };
        let x0: usize = match given {
            Some(x) => x,
            None => if i < 3 {
                x_start + 8 * i
            } else {
                24
            },
        };
        let ghost want = glyph_x(k as int, places, i as int);
        let ghost own = ink_glyph(list[i as int], x0 as int, 8);
        proof {
            assert(list[i as int] == glyphs@[i as int]@);
            if x0 != want {
                lemma_far_glyph(list[i as int], x0 as int, 8);
                lemma_far_glyph(list[i as int], want, 8);
            }
            assert(own == ink_glyph(list[i as int], want, 8));
            lemma_ink_points_prefix(list, places, i + 1, k as int);
            assert forall|j: int| 0 <= j < own.len() implies paintable(
                len,
                tiles@,
                #[trigger] own[j],
            ) by {
                assert(ink_points(list, places, i + 1)[front.len() + j] == own[j]);
                assert(paintable(len, tiles@, all[front.len() + j]));
            }
        }
        stamp_glyph(buf, tiles, &glyphs[i], x0, Ghost(begin), Ghost(front));
        i += 1;
    }
}

// ---------------------------------------------------------------------------
// What painting shows
// ---------------------------------------------------------------------------

/// Whether one of some pixels of a button is pixel (`x`, `y`) of a tile.
pub open spec fn touches(tiles: Seq<usize>, points: Seq<(int, int)>, tile: int, x: int, y: int) -> bool {
    exists|i: int|
        0 <= i < points.len() && {
            let p = #[trigger] points[i];
            tiles[button_tile(p.0, p.1)] == tile && p.0 % 8 == x && p.1 % 8 == y
        }
}

proof fn lemma_painted_pixel(
    buf: Seq<u8>,
    tiles: Seq<usize>,
    points: Seq<(int, int)>,
    color: u8,
    tile: int,
    x: int,
    y: int,
)
    requires
        color < 16,
        0 <= tile,
        (tile + 1) * 32 <= buf.len(),
        0 <= x < 8,
        0 <= y < 8,
        all_paintable(buf.len() as int, tiles, points),
    ensures
        pixel(painted(buf, tiles, points, color), tile * 32, x, y) == if touches(
            tiles,
            points,
            tile,
            x,
            y,
        ) {
            color as int
        } else {
            pixel(buf, tile * 32, x, y)
        },
    decreases points.len(),
{
    if points.len() > 0 {
        let front = points.drop_last();
        let p = points.last();
        assert(paintable(buf.len() as int, tiles, points[points.len() - 1]));
        assert forall|i: int| 0 <= i < front.len() implies paintable(
            buf.len() as int,
            tiles,
            #[trigger] front[i],
        ) by {
            assert(front[i] == points[i]);
        }
        lemma_painted_pixel(buf, tiles, front, color, tile, x, y);
        let mid = painted(buf, tiles, front, color);
        lemma_painted_len(buf, tiles, front, color);
        let t = tiles[button_tile(p.0, p.1)] as int;
        law_set_pixel(mid, t * 32, p.0 % 8, p.1 % 8, color, tile * 32, x, y);
        assert((t * 32) % 4 == 0);
        assert((tile * 32) % 4 == 0);
        let hit = t == tile && p.0 % 8 == x && p.1 % 8 == y;
        assert((tile * 32 + 4 * y == t * 32 + 4 * (p.1 % 8) && x == p.0 % 8) == hit);
        if hit {
            assert(points[points.len() - 1] == p);
            assert(touches(tiles, points, tile, x, y));
        } else {
            if touches(tiles, front, tile, x, y) {
                let i = choose|i: int|
                    0 <= i < front.len() && {
                        let q = #[trigger] front[i];
                        tiles[button_tile(q.0, q.1)] == tile && q.0 % 8 == x && q.1 % 8 == y
                    };
                assert(points[i] == front[i]);
            }
            if touches(tiles, points, tile, x, y) {
                let i = choose|i: int|
                    0 <= i < points.len() && {
                        let q = #[trigger] points[i];
                        tiles[button_tile(q.0, q.1)] == tile && q.0 % 8 == x && q.1 % 8 == y
                    };
                assert(front[i] == points[i]);
            }
        }
    }
}

/// After a button has got a new label, every pixel of every tile shows the colour of
/// the label where a glyph was stamped, else the colour of the face where the inside
/// was wiped, else what it showed before: frames and other buttons are kept.
pub proof fn law_relabelled_pixels(
    buf: Seq<u8>,
    tiles: Seq<usize>,
    glyphs: Seq<Seq<u8>>,
    xs: Option<Seq<usize>>,
    r0: int,
    r1: int,
    c0: int,
    c1: int,
    tile: int,
    x: int,
    y: int,
)
    requires
        0 <= tile,
        (tile + 1) * 32 <= buf.len(),
        0 <= x < 8,
        0 <= y < 8,
        all_paintable(buf.len() as int, tiles, box_points(r0, r1, c0, c1)),
        all_paintable(buf.len() as int, tiles, ink_points(glyphs, xs, glyphs.len() as int)),
    ensures
        pixel(relabelled(buf, tiles, glyphs, xs, r0, r1, c0, c1), tile * 32, x, y) == if touches(
            tiles,
            ink_points(glyphs, xs, glyphs.len() as int),
            tile,
            x,
            y,
        ) {
            15int
        } else if touches(tiles, box_points(r0, r1, c0, c1), tile, x, y) {
            1
        } else {
            pixel(buf, tile * 32, x, y)
        },
{
    let wiped = painted(buf, tiles, box_points(r0, r1, c0, c1), 1);
    lemma_painted_len(buf, tiles, box_points(r0, r1, c0, c1), 1);
    lemma_painted_pixel(buf, tiles, box_points(r0, r1, c0, c1), 1, tile, x, y);
    lemma_painted_pixel(
        wiped,
        tiles,
        ink_points(glyphs, xs, glyphs.len() as int),
        15,
        tile,
        x,
        y,
    );
}

} // verus!
