//! Glyph cells of eight by eight pixels, made from rasterised characters.
//!
//! A cell is eight bytes, one per row; bit 7 is the leftmost pixel and 1 is the
//! foreground, as in the fonts of the game.
use vstd::prelude::*;
use crate::bits::{bit_at, lemma_with_bit, with_bit};
use crate::glyph::ascii_art;

verus! {

/// A rasterised character: `width * height` coverage values, row by row.
#[derive(Debug)]
pub struct Raster {
    /// The character.
    pub ch: char,
    /// Columns.
    pub width: usize,
    /// Rows.
    pub height: usize,
    /// Coverage, 0 for none and 255 for full.
    pub coverage: Vec<u8>,
}

/// Characters of a font at one size, and how they are put into cells.
#[derive(Debug)]
pub struct GlyphFont {
    /// The rasterised characters.
    pub rasters: Vec<Raster>,
    /// The least coverage that makes a pixel foreground.
    pub threshold: u8,
    /// Moves every character to the right.
    pub x_off: i32,
    /// Moves every character down.
    pub y_off: i32,
}

/// Where a raster of `size` columns or rows starts so that it is centred in a cell,
/// moved by `off`. Halves are rounded toward the centre.
pub open spec fn centred(size: int, off: int) -> int {
    (if size <= 8 {
        (8 - size) / 2
    } else {
        -((size - 8) / 2)
    }) + off
}

impl Raster {
    /// The coverage values are all there, and positions stay within the numbers
    /// that offsets are computed in.
    pub open spec fn wf(self, x_off: int, y_off: int) -> bool {
        &&& self.coverage@.len() == self.width * self.height
        &&& self.width <= i32::MAX
        &&& self.height <= i32::MAX
        &&& i32::MIN <= centred(self.width as int, x_off)
        &&& centred(self.width as int, x_off) + self.width <= i32::MAX
        &&& i32::MIN <= centred(self.height as int, y_off)
        &&& centred(self.height as int, y_off) + self.height <= i32::MAX
    }

    /// Whether the raster makes cell pixel (`x`, `y`) foreground.
    pub open spec fn inks(self, threshold: u8, x_off: int, y_off: int, x: int, y: int) -> bool {
        let gx = x - centred(self.width as int, x_off);
        let gy = y - centred(self.height as int, y_off);
        0 <= gx < self.width && 0 <= gy < self.height && self.coverage@[gy * self.width + gx]
            >= threshold
    }
}

/// Whether pixel (`x`, `y`) of a cell is foreground.
pub open spec fn lit(cell: Seq<u8>, x: int, y: int) -> bool {
    bit_at(cell[y], (7 - x) as u8) == 1
}

/// The first raster of a character.
pub open spec fn raster_index(rasters: Seq<Raster>, ch: char) -> Option<int>
    decreases rasters.len(),
{
    if rasters.len() == 0 {
        None
    } else {
        match raster_index(rasters.drop_last(), ch) {
            Some(k) => Some(k),
            None => if rasters.last().ch == ch {
                Some(rasters.len() - 1)
            } else {
                None
            },
        }
    }
}

impl GlyphFont {
    /// Every raster can be put into a cell.
    pub open spec fn wf(self) -> bool {
        forall|k: int|
            0 <= k < self.rasters@.len() ==> (#[trigger] self.rasters@[k]).wf(
                self.x_off as int,
                self.y_off as int,
            )
    }

    /// Whether the font has a character.
    pub open spec fn has(self, ch: char) -> bool {
        raster_index(self.rasters@, ch) is Some
    }

    /// Whether pixel (`x`, `y`) of a character's cell is foreground.
    pub open spec fn inks(self, ch: char, x: int, y: int) -> bool {
        self.rasters@[raster_index(self.rasters@, ch)->0].inks(
            self.threshold,
            self.x_off as int,
            self.y_off as int,
            x,
            y,
        )
    }

    /// The cell of a character.
    pub open spec fn cell(self, ch: char) -> Seq<u8> {
        cell_of(|x: int, y: int| self.inks(ch, x, y))
    }

    /// Looks a character up.
    pub fn find(&self, ch: char) -> (index: Option<usize>)
        ensures
            match index {
                Some(k) => raster_index(self.rasters@, ch) == Some(k as int) && k
                    < self.rasters@.len(),
                None => !self.has(ch),
            },
    {
        let mut k: usize = 0;
        let ghost all = self.rasters@;
        while k < self.rasters.len()
            invariant
                k <= self.rasters@.len(),
                all == self.rasters@,
                raster_index(all.take(k as int), ch) is None,
            decreases self.rasters@.len() - k,
        {
            proof {
                assert(all.take(k + 1).drop_last() =~= all.take(k as int));
                assert(all.take(k + 1).last() == all[k as int]);
            }
            if self.rasters[k].ch == ch {
                proof {
                    lemma_raster_prefix(all, ch, k + 1);
                }
                return Some(k);
            }
            k += 1;
        }
        proof {
            assert(all.take(k as int) =~= all);
        }
        None
    }

    /// Renders a character into a cell.
    pub fn render(&self, ch: char) -> (cell: [u8; 8])
        requires
            self.wf(),
            self.has(ch),
        ensures
            cell@ == self.cell(ch),
            forall|x: int, y: int|
                0 <= x < 8 && 0 <= y < 8 ==> #[trigger] lit(cell@, x, y) == self.inks(ch, x, y),
    {
        let k: usize = match self.find(ch) {
            Some(k) => k,
            None => 0,
        };
        proof {
            lemma_raster_bound(self.rasters@, ch);
            lemma_cell_of(|x: int, y: int| self.inks(ch, x, y));
        }
        let raster = &self.rasters[k];
        let base_x: i64 = centre(raster.width, self.x_off);
        let base_y: i64 = centre(raster.height, self.y_off);
        let mut out: [u8; 8] = [0u8; 8];
        let ghost want = |x: int, y: int| self.inks(ch, x, y);
        let mut y: usize = 0;
        while y < 8
            invariant
                y <= 8,
                raster.wf(self.x_off as int, self.y_off as int),
                base_x == centred(raster.width as int, self.x_off as int),
                base_y == centred(raster.height as int, self.y_off as int),
                want == (|x: int, y: int|
                    raster.inks(
                        self.threshold,
                        self.x_off as int,
                        self.y_off as int,
                        x,
                        y,
                    )),
                forall|i: int| 0 <= i < y ==> out@[i] == cell_row(want, i, 8),
            decreases 8 - y,
        {
            let mut row: u8 = 0;
            let mut x: usize = 0;
            while x < 8
                invariant
                    x <= 8,
                    y < 8,
                    raster.wf(self.x_off as int, self.y_off as int),
                    base_x == centred(raster.width as int, self.x_off as int),
                    base_y == centred(raster.height as int, self.y_off as int),
                    want == (|x: int, y: int|
                        raster.inks(
                            self.threshold,
                            self.x_off as int,
                            self.y_off as int,
                            x,
                            y,
                        )),
                    row == cell_row(want, y as int, x as int),
                decreases 8 - x,
            {
                let gx: i64 = x as i64 - base_x;
                let gy: i64 = y as i64 - base_y;
                if 0 <= gx && gx < raster.width as i64 && 0 <= gy && gy < raster.height as i64 {
                    proof {
                        let w = raster.width as int;
                        let h = raster.height as int;
                        assert(0 <= gy * w && gy * w + gx < w * h) by (nonlinear_arith)
                            requires
                                0 <= gx < w,
                                0 <= gy < h,
                        ;
                    }
                    let _total: usize = raster.coverage.len();
                    if raster.coverage[gy as usize * raster.width + gx as usize]
                        >= self.threshold {
                        let bit: u8 = 7 - x as u8;
                        row = (row & !(1u8 << bit)) | (1u8 << bit);
                    }
                }
                x += 1;
            }
            out[y] = row;
            y += 1;
        }
        proof {
            assert(out@ =~= cell_of(want));
            assert(want =~= (|x: int, y: int| self.inks(ch, x, y)));
        }
        out
    }
}

/// One row of a cell, of which the first `n` pixels are drawn.
pub open spec fn cell_row(ink: spec_fn(int, int) -> bool, y: int, n: int) -> u8
    decreases n,
{
    if n <= 0 {
        0
    } else if ink(n - 1, y) {
        with_bit(cell_row(ink, y, n - 1), (7 - (n - 1)) as u8, 1)
    } else {
        cell_row(ink, y, n - 1)
    }
}

/// The cell whose foreground pixels are given.
pub open spec fn cell_of(ink: spec_fn(int, int) -> bool) -> Seq<u8> {
    Seq::new(8, |y: int| cell_row(ink, y, 8))
}

proof fn lemma_zero_bit(k: u8)
    by (bit_vector)
    requires
        k < 8,
    ensures
        (0u8 >> k) & 1 == 0,
{
}

proof fn lemma_cell_row(ink: spec_fn(int, int) -> bool, y: int, n: int, x: int)
    requires
        0 <= n <= 8,
        0 <= x < 8,
    ensures
        (bit_at(cell_row(ink, y, n), (7 - x) as u8) == 1) == (x < n && ink(x, y)),
    decreases n,
{
    if n <= 0 {
        lemma_zero_bit((7 - x) as u8);
    } else {
        lemma_cell_row(ink, y, n - 1, x);
        lemma_with_bit(cell_row(ink, y, n - 1), (7 - (n - 1)) as u8, 1, (7 - x) as u8);
    }
}

/// A cell shows exactly the pixels that it was made of.
pub proof fn lemma_cell_of(ink: spec_fn(int, int) -> bool)
    ensures
        forall|x: int, y: int|
            0 <= x < 8 && 0 <= y < 8 ==> #[trigger] lit(cell_of(ink), x, y) == ink(x, y),
{
    assert forall|x: int, y: int| 0 <= x < 8 && 0 <= y < 8 implies #[trigger] lit(
        cell_of(ink),
        x,
        y,
    ) == ink(x, y) by {
        lemma_cell_row(ink, y, 8, x);
    }
}

proof fn lemma_raster_prefix(rasters: Seq<Raster>, ch: char, k: int)
    requires
        0 <= k <= rasters.len(),
        raster_index(rasters.take(k), ch) is Some,
    ensures
        raster_index(rasters, ch) == raster_index(rasters.take(k), ch),
    decreases rasters.len(),
{
    if k == rasters.len() {
        assert(rasters.take(k) =~= rasters);
    } else {
        assert(rasters.drop_last().take(k) =~= rasters.take(k));
        lemma_raster_prefix(rasters.drop_last(), ch, k);
    }
}

proof fn lemma_raster_bound(rasters: Seq<Raster>, ch: char)
    ensures
        raster_index(rasters, ch) matches Some(k) ==> 0 <= k < rasters.len() && rasters[k].ch == ch,
    decreases rasters.len(),
{
    if rasters.len() > 0 {
        lemma_raster_bound(rasters.drop_last(), ch);
    }
}

/// Where a raster starts in a cell.
fn centre(size: usize, off: i32) -> (at: i64)
    requires
        size <= i32::MAX,
    ensures
        at == centred(size as int, off as int),
{
    let half: i64 = if size <= 8 {
        ((8 - size) / 2) as i64
    } else {
        -(((size - 8) / 2) as i64)
    };
    half + off as i64
}

/// A cell as lines of `#` and `.`.
pub fn to_ascii(g: &[u8; 8]) -> (s: String)
    ensures
        s@ == ascii_art(g@, 8),
{
    crate::glyph::to_ascii(g)
}

} // verus!
