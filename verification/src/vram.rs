//! Tiles in video memory.
use vstd::prelude::*;
use crate::bits::{bit_at, lemma_bit_range, lemma_join4, lemma_split4, lemma_with_bit, with_bit};

verus! {

/// Data port of the video processor.
pub const VDP_DATA_PORT: u8 = 0xBE;

/// Control port of the video processor.
pub const VDP_CTRL_PORT: u8 = 0xBF;

/// Vertical counter.
pub const V_COUNTER_PORT: u8 = 0x7E;

/// Horizontal counter.
pub const H_COUNTER_PORT: u8 = 0x7F;

/// Sound generator.
pub const PSG_PORT: u8 = 0x7F;

/// A tile of 8×8 pixels with four bits per pixel.
///
/// Eight rows of four bytes, one per bit plane. In a row, bit 7 is the leftmost
/// pixel and bit 0 the rightmost; the colour of a pixel is put together from the
/// same bit of the four planes, plane 0 first.
#[derive(Clone, PartialEq, Eq, Debug)]
pub struct Tile4bpp {
    /// The planes, row by row.
    pub data: [u8; 32],
}

/// The colour of pixel (`x`, `y`) of the tile whose bytes start at `base`.
pub open spec fn pixel(data: Seq<u8>, base: int, x: int, y: int) -> int {
    let row = base + 4 * y;
    let k = (7 - x) as u8;
    bit_at(data[row], k) + 2 * bit_at(data[row + 1], k) + 4 * bit_at(data[row + 2], k) + 8 * bit_at(
        data[row + 3],
        k,
    )
}

/// The bytes of a tile after pixel (`x`, `y`) has been given a colour: one bit of
/// each plane of the row is replaced.
pub open spec fn with_pixel(data: Seq<u8>, base: int, x: int, y: int, color: u8) -> Seq<u8> {
    let row = base + 4 * y;
    let k = (7 - x) as u8;
    data.update(row, with_bit(data[row], k, bit_at(color, 0))).update(
        row + 1,
        with_bit(data[row + 1], k, bit_at(color, 1)),
    ).update(row + 2, with_bit(data[row + 2], k, bit_at(color, 2))).update(
        row + 3,
        with_bit(data[row + 3], k, bit_at(color, 3)),
    )
}

/// A pixel that has been set shows its new colour, and no other pixel of any tile
/// changes.
pub proof fn law_set_pixel(
    data: Seq<u8>,
    base: int,
    x: int,
    y: int,
    color: u8,
    base2: int,
    x2: int,
    y2: int,
)
    requires
        0 <= base,
        base % 4 == 0,
        0 <= base2,
        base2 % 4 == 0,
        0 <= x < 8,
        0 <= y < 8,
        0 <= x2 < 8,
        0 <= y2 < 8,
        color < 16,
        base + 32 <= data.len(),
        base2 + 32 <= data.len(),
    ensures
        pixel(with_pixel(data, base, x, y, color), base2, x2, y2) == if base2 + 4 * y2 == base + 4
            * y && x2 == x {
            color as int
        } else {
            pixel(data, base2, x2, y2)
        },
        with_pixel(data, base, x, y, color).len() == data.len(),
{
    let k = (7 - x) as u8;
    let k2 = (7 - x2) as u8;
    let row = base + 4 * y;
    lemma_split4(color);
    lemma_bit_range(color, 0);
    lemma_bit_range(color, 1);
    lemma_bit_range(color, 2);
    lemma_bit_range(color, 3);
    lemma_with_bit(data[row], k, bit_at(color, 0), k2);
    lemma_with_bit(data[row + 1], k, bit_at(color, 1), k2);
    lemma_with_bit(data[row + 2], k, bit_at(color, 2), k2);
    lemma_with_bit(data[row + 3], k, bit_at(color, 3), k2);
}

/// A colour is a number below sixteen.
pub proof fn lemma_pixel_range(data: Seq<u8>, base: int, x: int, y: int)
    requires
        0 <= x < 8,
    ensures
        0 <= pixel(data, base, x, y) < 16,
{
    let row = base + 4 * y;
    let k = (7 - x) as u8;
    lemma_bit_range(data[row], k);
    lemma_bit_range(data[row + 1], k);
    lemma_bit_range(data[row + 2], k);
    lemma_bit_range(data[row + 3], k);
}

impl Tile4bpp {
    /// The bytes of a tile.
    pub const SIZE: usize = 32;

    /// The address of a tile in video memory.
    pub fn tile_vram_addr(index: u16) -> (addr: u16)
        requires
            index < 2048,
        ensures
            addr == index * 32,
    {
        index * 32
    }

    /// The colour at (`x`, `y`), where `x` is 0 at the left.
    pub fn get_pixel(&self, x: u8, y: u8) -> (color: u8)
        requires
            x < 8,
            y < 8,
        ensures
            color as int == pixel(self.data@, 0, x as int, y as int),
            color < 16,
    {
        let row: usize = y as usize * 4;
        let bit: u8 = 7 - x;
        let b0: u8 = (self.data[row] >> bit) & 1;
        let b1: u8 = (self.data[row + 1] >> bit) & 1;
        let b2: u8 = (self.data[row + 2] >> bit) & 1;
        let b3: u8 = (self.data[row + 3] >> bit) & 1;
        proof {
            lemma_pixel_range(self.data@, 0, x as int, y as int);
            lemma_bit_range(self.data@[row as int], bit);
            lemma_bit_range(self.data@[row + 1], bit);
            lemma_bit_range(self.data@[row + 2], bit);
            lemma_bit_range(self.data@[row + 3], bit);
            lemma_join4(b0, b1, b2, b3);
        }
        b0 | (b1 << 1) | (b2 << 2) | (b3 << 3)
    }

    /// Sets the colour at (`x`, `y`), where `x` is 0 at the left.
    pub fn set_pixel(&mut self, x: u8, y: u8, color: u8)
        requires
            x < 8,
            y < 8,
            color < 16,
        ensures
            final(self).data@ == with_pixel(old(self).data@, 0, x as int, y as int, color),
            forall|x2: int, y2: int|
                0 <= x2 < 8 && 0 <= y2 < 8 ==> #[trigger] pixel(final(self).data@, 0, x2, y2) == if x2
                    == x && y2 == y {
                    color as int
                } else {
                    pixel(old(self).data@, 0, x2, y2)
                },
    {
        let row: usize = y as usize * 4;
        let bit: u8 = 7 - x;
        let mask: u8 = !(1u8 << bit);
        let ghost before = self.data@;
        let p0: u8 = (color >> 0) & 1;
        let p1: u8 = (color >> 1) & 1;
        let p2: u8 = (color >> 2) & 1;
        let p3: u8 = (color >> 3) & 1;
        self.data[row] = (self.data[row] & mask) | (p0 << bit);
        self.data[row + 1] = (self.data[row + 1] & mask) | (p1 << bit);
        self.data[row + 2] = (self.data[row + 2] & mask) | (p2 << bit);
        self.data[row + 3] = (self.data[row + 3] & mask) | (p3 << bit);
        proof {
            assert(self.data@ =~= with_pixel(before, 0, x as int, y as int, color));
            assert forall|x2: int, y2: int| 0 <= x2 < 8 && 0 <= y2 < 8 implies #[trigger] pixel(
                self.data@,
                0,
                x2,
                y2,
            ) == if x2 == x && y2 == y {
                color as int
            } else {
                pixel(before, 0, x2, y2)
            } by {
                law_set_pixel(before, 0, x as int, y as int, color, 0, x2, y2);
            }
        }
    }
}

} // verus!
