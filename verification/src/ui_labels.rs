//! Korean labels on the buttons of the interface.
use vstd::prelude::*;
use crate::bytes::{le16, push_all};
use crate::error::{outcome, plain, Fault, PatchError};
use crate::font::GlyphFont;
use crate::lzss::{compress, decompress, law_lossless, packed, unpack};
use crate::patching::{progress, write_checked, write_free, Progress};
use crate::parse::string_views;
use crate::text::{chars_of, dec, hex, text};
use crate::tracked_rom::{same_bytes, TrackedRom};
use crate::ui_graphics::{
    all_paintable, blob_addr, blob_buttons, blob_hint, blob_jp, blob_name, box_fits, box_points,
    button_tile, glyph_views, glyph_x, ink_glyph, ink_points, ink_row, lemma_painted_len, paintable,
    painted, relabelled, retype_button, row_points, ui_blob, xs_view, UiBlob,
};

verus! {

/// The model of a block of interface graphics.
#[verifier::ext_equal]
pub struct BlobView {
    /// What it is called.
    pub name: Seq<char>,
    /// Where it stands in the ROM.
    pub addr: int,
    /// Its size once it is decoded.
    pub size: int,
    /// How many tiles that is.
    pub tiles: int,
    /// What its buttons say in the game.
    pub jp: Seq<char>,
    /// What its buttons say in Korean.
    pub hint: Seq<char>,
    /// The inside of a button.
    pub interior: (int, int, int, int),
}

impl View for UiBlob {
    type V = BlobView;

    open spec fn view(&self) -> BlobView {
        BlobView {
            name: self.name@,
            addr: self.compressed_addr as int,
            size: self.uncompressed_len as int,
            tiles: self.tiles as int,
            jp: self.jp@,
            hint: self.ko_hint@,
            interior: (
                self.interior_box.0 as int,
                self.interior_box.1 as int,
                self.interior_box.2 as int,
                self.interior_box.3 as int,
            ),
        }
    }
}

/// Block `i` of the inventory.
pub open spec fn blob_entry(i: int) -> BlobView {
    BlobView {
        name: blob_name(i),
        addr: blob_addr(i),
        size: 192 * blob_buttons(i),
        tiles: 6 * blob_buttons(i),
        jp: blob_jp(i),
        hint: blob_hint(i),
        interior: if i == 0 {
            (3, 13, 4, 20)
        } else {
            (3, 13, 3, 21)
        },
    }
}

// ---------------------------------------------------------------------------
// One block
// ---------------------------------------------------------------------------

/// The cells of the characters of a label.
pub open spec fn label_cells(font: GlyphFont, label: Seq<char>) -> Seq<Seq<u8>> {
    Seq::new(label.len(), |i: int| font.cell(label[i]))
}

/// The tiles of button `b`.
pub open spec fn button_tiles(b: int) -> Seq<usize> {
    Seq::new(6, |i: int| (6 * b + i) as usize)
}

/// What is wrong with a label, if anything: a button has room for two characters, or
/// for three where their positions are given.
pub open spec fn label_fault(name: Seq<char>, label: Seq<char>, xs: Option<Seq<usize>>) -> Option<Fault> {
    let n = label.len() as int;
    if !(n <= 2 || (n == 3 && xs is Some)) {
        Some(
            plain(
                name + ": 라벨 '"@ + label + "'은 "@ + dec(n)
                    + "글자 — 24px 버튼은 2글자(중앙) 또는 3글자(xs 명시)까지"@,
            ),
        )
    } else {
        match xs {
            Some(list) if list.len() != n => Some(
                plain(
                    name + ": 라벨 '"@ + label + "' 글리프 "@ + dec(n) + "개 != xs "@ + dec(
                        list.len() as int,
                    ) + "개"@,
                ),
            ),
            _ => None,
        }
    }
}

/// A decoded block after the first `n` buttons have got their labels.
pub open spec fn relabelled_block(
    buf: Seq<u8>,
    blob: BlobView,
    labels: Seq<Seq<char>>,
    xs: Option<Seq<usize>>,
    font: GlyphFont,
    n: int,
) -> Result<Seq<u8>, Fault>
    decreases n,
{
    if n <= 0 {
        Ok(buf)
    } else {
        match relabelled_block(buf, blob, labels, xs, font, n - 1) {
            Err(e) => Err(e),
            Ok(b) => match label_fault(blob.name, labels[n - 1], xs) {
                Some(e) => Err(e),
                None => Ok(
                    relabelled(
                        b,
                        button_tiles(n - 1),
                        label_cells(font, labels[n - 1]),
                        xs,
                        blob.interior.0,
                        blob.interior.1,
                        blob.interior.2,
                        blob.interior.3,
                    ),
                ),
            },
        }
    }
}

/// A block of the ROM, decoded and with new labels, one for each button.
pub open spec fn retyped(
    rom: Seq<u8>,
    blob: BlobView,
    labels: Seq<Seq<char>>,
    xs: Option<Seq<usize>>,
    font: GlyphFont,
) -> Result<Seq<u8>, Fault> {
    let buf = unpack(rom, blob.addr, Seq::empty()).0;
    if buf.len() != blob.size {
        Err(
            plain(blob.name + ": 디컴프 크기 "@ + dec(buf.len() as int) + " != 예상 "@ + dec(blob.size)),
        )
    } else if labels.len() != blob.tiles / 6 {
        Err(
            plain(
                blob.name + ": 라벨 "@ + dec(labels.len() as int) + "개 != 버튼 "@ + dec(
                    blob.tiles / 6,
                ) + "개"@,
            ),
        )
    } else {
        relabelled_block(buf, blob, labels, xs, font, labels.len() as int)
    }
}

/// Whether a font has every character of a text.
pub open spec fn has_all(font: GlyphFont, s: Seq<char>) -> bool {
    forall|i: int| 0 <= i < s.len() ==> font.has(#[trigger] s[i])
}

/// Whether a font has every character of labels.
pub open spec fn has_labels(font: GlyphFont, labels: Seq<Seq<char>>) -> bool {
    forall|i: int| 0 <= i < labels.len() ==> has_all(font, #[trigger] labels[i])
}

proof fn lemma_box_paintable(
    len: int,
    tiles: Seq<usize>,
    r0: int,
    r1: int,
    c0: int,
    c1: int,
)
    requires
        0 <= r0,
        0 <= c0,
        box_fits(r0, r1, c0, c1),
        tiles.len() == 6,
        forall|k: int| 0 <= k < 6 ==> (#[trigger] tiles[k] + 1) * 32 <= len,
    ensures
        all_paintable(len, tiles, box_points(r0, r1, c0, c1)),
    decreases r1 - r0,
{
    if r1 > r0 {
        assert forall|gx: int, gy: int| c0 <= gx < c1 && r0 <= gy < r1 - 1 implies #[trigger] button_tile(
            gx,
            gy,
        ) < 6 by {}
        lemma_box_paintable(len, tiles, r0, r1 - 1, c0, c1);
        let front = box_points(r0, r1 - 1, c0, c1);
        let row = row_points(r1 - 1, c0, c1);
        let all = box_points(r0, r1, c0, c1);
        assert forall|i: int| 0 <= i < all.len() implies paintable(
            len,
            tiles,
            #[trigger] all[i],
        ) by {
            if i < front.len() {
                assert(all[i] == front[i]);
            } else {
                assert(all[i] == row[i - front.len()]);
                let p = all[i];
                assert(0 <= button_tile(p.0, p.1) < 6);
                assert((tiles[button_tile(p.0, p.1)] + 1) * 32 <= len);
            }
        }
    }
}

proof fn lemma_row_paintable(len: int, tiles: Seq<usize>, row: u8, x0: int, gy: int, n: int)
    requires
        0 <= x0,
        0 <= gy < 16,
        tiles.len() == 6,
        forall|k: int| 0 <= k < 6 ==> (#[trigger] tiles[k] + 1) * 32 <= len,
    ensures
        all_paintable(len, tiles, ink_row(row, x0, gy, n)),
    decreases n,
{
    if n > 0 {
        lemma_row_paintable(len, tiles, row, x0, gy, n - 1);
        let front = ink_row(row, x0, gy, n - 1);
        let all = ink_row(row, x0, gy, n);
        assert forall|i: int| 0 <= i < all.len() implies paintable(
            len,
            tiles,
            #[trigger] all[i],
        ) by {
            if i < front.len() {
                assert(all[i] == front[i]);
            } else {
                let p = all[i];
                assert(0 <= button_tile(p.0, p.1) < 6);
                assert((tiles[button_tile(p.0, p.1)] + 1) * 32 <= len);
            }
        }
    }
}

proof fn lemma_glyph_paintable(len: int, tiles: Seq<usize>, glyph: Seq<u8>, x0: int, n: int)
    requires
        0 <= x0,
        n <= 8,
        tiles.len() == 6,
        forall|k: int| 0 <= k < 6 ==> (#[trigger] tiles[k] + 1) * 32 <= len,
    ensures
        all_paintable(len, tiles, ink_glyph(glyph, x0, n)),
    decreases n,
{
    if n > 0 {
        lemma_glyph_paintable(len, tiles, glyph, x0, n - 1);
        lemma_row_paintable(len, tiles, glyph[n - 1], x0, 4 + (n - 1), 8);
        let front = ink_glyph(glyph, x0, n - 1);
        let row = ink_row(glyph[n - 1], x0, 4 + (n - 1), 8);
        let all = ink_glyph(glyph, x0, n);
        assert forall|i: int| 0 <= i < all.len() implies paintable(
            len,
            tiles,
            #[trigger] all[i],
        ) by {
            if i < front.len() {
                assert(all[i] == front[i]);
            } else {
                assert(all[i] == row[i - front.len()]);
            }
        }
    }
}

proof fn lemma_ink_paintable(
    len: int,
    tiles: Seq<usize>,
    glyphs: Seq<Seq<u8>>,
    xs: Option<Seq<usize>>,
    n: int,
)
    requires
        tiles.len() == 6,
        forall|k: int| 0 <= k < 6 ==> (#[trigger] tiles[k] + 1) * 32 <= len,
    ensures
        all_paintable(len, tiles, ink_points(glyphs, xs, n)),
    decreases n,
{
    if n > 0 {
        lemma_ink_paintable(len, tiles, glyphs, xs, n - 1);
        let x0 = glyph_x(glyphs.len() as int, xs, n - 1);
        lemma_glyph_paintable(len, tiles, glyphs[n - 1], x0, 8);
        let front = ink_points(glyphs, xs, n - 1);
        let own = ink_glyph(glyphs[n - 1], x0, 8);
        let all = ink_points(glyphs, xs, n);
        assert forall|i: int| 0 <= i < all.len() implies paintable(
            len,
            tiles,
            #[trigger] all[i],
        ) by {
            if i < front.len() {
                assert(all[i] == front[i]);
            } else {
                assert(all[i] == own[i - front.len()]);
            }
        }
    }
}

proof fn lemma_relabelled_len(
    buf: Seq<u8>,
    blob: BlobView,
    labels: Seq<Seq<char>>,
    xs: Option<Seq<usize>>,
    font: GlyphFont,
    n: int,
)
    requires
        buf.len() == 32 * blob.tiles,
        0 <= n,
        6 * n <= blob.tiles <= 100,
        0 <= blob.interior.0,
        0 <= blob.interior.2,
        box_fits(blob.interior.0, blob.interior.1, blob.interior.2, blob.interior.3),
    ensures
        relabelled_block(buf, blob, labels, xs, font, n) matches Ok(b) ==> b.len() == buf.len(),
    decreases n,
{
    if n > 0 {
        lemma_relabelled_len(buf, blob, labels, xs, font, n - 1);
        match relabelled_block(buf, blob, labels, xs, font, n - 1) {
            Ok(b) => {
                let tiles = button_tiles(n - 1);
                let glyphs = label_cells(font, labels[n - 1]);
                let len = b.len() as int;
                let inside = box_points(
                    blob.interior.0,
                    blob.interior.1,
                    blob.interior.2,
                    blob.interior.3,
                );
                assert forall|k: int| 0 <= k < 6 implies (#[trigger] tiles[k] + 1) * 32 <= len by {
                    assert(tiles[k] == 6 * (n - 1) + k);
                }
                lemma_box_paintable(
                    len,
                    tiles,
                    blob.interior.0,
                    blob.interior.1,
                    blob.interior.2,
                    blob.interior.3,
                );
                lemma_ink_paintable(len, tiles, glyphs, xs, glyphs.len() as int);
                lemma_painted_len(b, tiles, inside, 1);
                lemma_painted_len(
                    painted(b, tiles, inside, 1),
                    tiles,
                    ink_points(glyphs, xs, glyphs.len() as int),
                    15,
                );
            },
            Err(_) => {},
        }
    }
}

/// A block of the inventory keeps its size when its buttons get new labels.
pub proof fn law_retyped_size(rom: Seq<u8>, i: int, font: GlyphFont)
    requires
        0 <= i < 9,
    ensures
        retyped(
            rom,
            blob_entry(set_blob(i)),
            set_labels(i),
            set_xs(i),
            font,
        ) matches Ok(b) ==> b.len() == blob_entry(set_blob(i)).size,
{
    let blob = blob_entry(set_blob(i));
    let buf = unpack(rom, blob.addr, Seq::empty()).0;
    if buf.len() == blob.size && set_labels(i).len() == blob.tiles / 6 {
        lemma_relabelled_len(
            buf,
            blob,
            set_labels(i),
            set_xs(i),
            font,
            set_labels(i).len() as int,
        );
    }
}

proof fn lemma_relabelled_fail(
    buf: Seq<u8>,
    blob: BlobView,
    labels: Seq<Seq<char>>,
    xs: Option<Seq<usize>>,
    font: GlyphFont,
    k: int,
    n: int,
)
    requires
        k <= n,
        relabelled_block(buf, blob, labels, xs, font, k) is Err,
    ensures
        relabelled_block(buf, blob, labels, xs, font, n) == relabelled_block(
            buf,
            blob,
            labels,
            xs,
            font,
            k,
        ),
    decreases n - k,
{
    if k < n {
        lemma_relabelled_fail(buf, blob, labels, xs, font, k, n - 1);
    }
}

fn render_label(font: &GlyphFont, label: &[char]) -> (glyphs: Vec<[u8; 8]>)
    requires
        font.wf(),
        has_all(*font, label@),
    ensures
        glyph_views(glyphs@) == label_cells(*font, label@),
{
    let mut glyphs: Vec<[u8; 8]> = Vec::new();
    let mut i: usize = 0;
    while i < label.len()
        invariant
            font.wf(),
            has_all(*font, label@),
            i <= label@.len(),
            glyphs@.len() == i,
            forall|k: int| 0 <= k < i ==> (#[trigger] glyphs@[k])@ == font.cell(label@[k]),
        decreases label@.len() - i,
    {
        let cell = font.render(label[i]);
        glyphs.push(cell);
        i += 1;
    }
    proof {
        assert(glyph_views(glyphs@) =~= label_cells(*font, label@));
    }
    glyphs
}

/// Decodes a block of the ROM and gives its buttons new labels.
pub fn retype_blob(
    rom: &[u8],
    blob: &UiBlob,
    labels: &[String],
    xs: Option<&[usize]>,
    font: &GlyphFont,
) -> (res: Result<Vec<u8>, PatchError>)
    requires
        unpack(rom@, blob.compressed_addr as int, Seq::empty()).0.len() == blob.uncompressed_len
            && labels@.len() == blob.tiles as int / 6 ==> blob.wf(),
        font.wf(),
        has_labels(*font, string_views(labels@)),
    ensures
        outcome(res) == retyped(rom@, blob@, string_views(labels@), xs_view(xs), *font),
        res matches Ok(buf) ==> buf@.len() == blob.uncompressed_len,
{
    let ghost all = string_views(labels@);
    let ghost places = xs_view(xs);
    let (mut buf, _) = decompress(rom, blob.compressed_addr);
    if buf.len() != blob.uncompressed_len {
        return Err(
            text(blob.name).lit(": 디컴프 크기 ").dec(buf.len()).lit(" != 예상 ").dec(
                blob.uncompressed_len,
            ).fail(),
        );
    }
    let buttons: usize = blob.tiles / 6;
    if labels.len() != buttons {
        return Err(
            text(blob.name).lit(": 라벨 ").dec(labels.len()).lit("개 != 버튼 ").dec(buttons).lit(
                "개",
            ).fail(),
        );
    }
    let ghost first = buf@;
    let mut b: usize = 0;
    while b < labels.len()
        invariant
            b <= labels@.len(),
            blob.wf(),
            font.wf(),
            all == string_views(labels@),
            places == xs_view(xs),
            has_labels(*font, all),
            labels@.len() == blob.tiles as int / 6,
            first == unpack(rom@, blob@.addr, Seq::empty()).0,
            first.len() == blob.uncompressed_len,
            buf@.len() == blob.uncompressed_len,
            relabelled_block(first, blob@, all, places, *font, b as int) == Ok::<
                Seq<u8>,
                Fault,
            >(buf@),
        decreases labels@.len() - b,
    {
        let label = chars_of(labels[b].as_str());
        proof {
            assert(all[b as int] == label@);
            assert(has_all(*font, all[b as int]));
        }
        let n: usize = label.len();
        if !(n <= 2 || (n == 3 && xs.is_some())) {
            proof {
                lemma_relabelled_fail(first, blob@, all, places, *font, b + 1, all.len() as int);
            }
            return Err(
                text(blob.name).lit(": 라벨 '").lit(labels[b].as_str()).lit("'은 ").dec(n).lit(
                    "글자 — 24px 버튼은 2글자(중앙) 또는 3글자(xs 명시)까지",
                ).fail(),
            );
        }
        match xs {
            Some(list) => {
                if list.len() != n {
                    proof {
                        lemma_relabelled_fail(
                            first,
                            blob@,
                            all,
                            places,
                            *font,
                            b + 1,
                            all.len() as int,
                        );
                    }
                    return Err(
                        text(blob.name).lit(": 라벨 '").lit(labels[b].as_str()).lit(
                            "' 글리프 ",
                        ).dec(n).lit("개 != xs ").dec(list.len()).lit("개").fail(),
                    );
                }
            },
            None => {},
        }
        let glyphs = render_label(font, label.as_slice());
        let base: usize = b * 6;
        let tiles: [usize; 6] = [base, base + 1, base + 2, base + 3, base + 4, base + 5];
        proof {
            assert(tiles@ =~= button_tiles(b as int));
            let len = buf@.len() as int;
            assert forall|k: int| 0 <= k < 6 implies (#[trigger] tiles@[k] + 1) * 32 <= len by {
                assert(tiles@[k] == 6 * b + k);
            }
            lemma_box_paintable(
                len,
                tiles@,
                blob.interior_box.0 as int,
                blob.interior_box.1 as int,
                blob.interior_box.2 as int,
                blob.interior_box.3 as int,
            );
            lemma_ink_paintable(
                len,
                tiles@,
                glyph_views(glyphs@),
                places,
                glyphs@.len() as int,
            );
        }
        retype_button(
            buf.as_mut_slice(),
            &tiles,
            glyphs.as_slice(),
            xs,
            blob.interior_box,
        );
        b += 1;
    }
    Ok(buf)
}

// ---------------------------------------------------------------------------
// Label sets
// ---------------------------------------------------------------------------

/// The labels of a block.
#[derive(Debug)]
pub struct UiLabelSet {
    /// The block.
    pub blob: UiBlob,
    /// One label for each button.
    pub labels: Vec<String>,
    /// Where the characters of each label stand, where they are not centred.
    pub xs: Option<Vec<usize>>,
}

/// How many blocks get their labels in place.
pub const UI_LABEL_COUNT: usize = 7;

/// How many blocks are moved because their labels need more room.
pub const UI_RELOCATED_COUNT: usize = 2;

/// The block of label set `i`.
pub open spec fn set_blob(i: int) -> int {
    if i == 0 {
        1
    } else if i == 1 {
        2
    } else if i == 2 {
        8
    } else if i == 3 {
        6
    } else if i == 4 {
        9
    } else if i == 5 {
        0
    } else if i == 6 {
        5
    } else if i == 7 {
        3
    } else {
        4
    }
}

/// The labels of label set `i`.
pub open spec fn set_labels(i: int) -> Seq<Seq<char>> {
    if i == 0 {
        seq!["지도"@]
    } else if i == 1 {
        seq!["주문"@, "물건"@]
    } else if i == 2 {
        seq!["사기"@, "팔기"@, "가기"@]
    } else if i == 3 {
        seq!["예"@, "아니"@]
    } else if i == 4 {
        seq!["시작"@, "계속"@]
    } else if i == 5 {
        seq!["동"@, "서"@, "남"@, "북"@]
    } else if i == 6 {
        seq!["일기1"@, "일기2"@, "일기3"@, "일기4"@]
    } else if i == 7 {
        seq!["저장"@]
    } else {
        seq!["대시"@, "도망"@]
    }
}

/// The positions of label set `i`.
pub open spec fn set_xs(i: int) -> Option<Seq<usize>> {
    if i == 6 {
        Some(seq![3usize, 9usize, 15usize])
    } else {
        None
    }
}

/// Positions that may be absent, as a model.
pub open spec fn owned_xs_view(xs: Option<Vec<usize>>) -> Option<Seq<usize>> {
    match xs {
        Some(list) => Some(list@),
        None => None,
    }
}

impl UiLabelSet {
    /// Whether this is label set `i`.
    pub open spec fn is_set(self, i: int) -> bool {
        &&& self.blob@ == blob_entry(set_blob(i))
        &&& string_views(self.labels@) == set_labels(i)
        &&& owned_xs_view(self.xs) == set_xs(i)
    }
}

fn owned2(a: &str, b: &str) -> (v: Vec<String>)
    ensures
        string_views(v@) == seq![a@, b@],
{
    let v: Vec<String> = vec![a.to_owned(), b.to_owned()];
    proof {
        assert(string_views(v@) =~= seq![a@, b@]);
    }
    v
}

fn owned4(a: &str, b: &str, c: &str, d: &str) -> (v: Vec<String>)
    ensures
        string_views(v@) == seq![a@, b@, c@, d@],
{
    let v: Vec<String> = vec![a.to_owned(), b.to_owned(), c.to_owned(), d.to_owned()];
    proof {
        assert(string_views(v@) =~= seq![a@, b@, c@, d@]);
    }
    v
}

fn owned1(a: &str) -> (v: Vec<String>)
    ensures
        string_views(v@) == seq![a@],
{
    let v: Vec<String> = vec![a.to_owned()];
    proof {
        assert(string_views(v@) =~= seq![a@]);
    }
    v
}

fn owned3(a: &str, b: &str, c: &str) -> (v: Vec<String>)
    ensures
        string_views(v@) == seq![a@, b@, c@],
{
    let v: Vec<String> = vec![a.to_owned(), b.to_owned(), c.to_owned()];
    proof {
        assert(string_views(v@) =~= seq![a@, b@, c@]);
    }
    v
}

/// Label set `i`: the first seven are put in place, the last two are moved.
pub fn ui_label_set(i: usize) -> (s: UiLabelSet)
    requires
        i < 9,
    ensures
        s.is_set(i as int),
        s.blob.wf(),
        s.blob.uncompressed_len <= 768,
{
    if i == 0 {
        UiLabelSet { blob: ui_blob(1), labels: owned1("지도"), xs: None }
    } else if i == 1 {
        UiLabelSet { blob: ui_blob(2), labels: owned2("주문", "물건"), xs: None }
    } else if i == 2 {
        UiLabelSet { blob: ui_blob(8), labels: owned3("사기", "팔기", "가기"), xs: None }
    } else if i == 3 {
        UiLabelSet { blob: ui_blob(6), labels: owned2("예", "아니"), xs: None }
    } else if i == 4 {
        UiLabelSet { blob: ui_blob(9), labels: owned2("시작", "계속"), xs: None }
    } else if i == 5 {
        UiLabelSet { blob: ui_blob(0), labels: owned4("동", "서", "남", "북"), xs: None }
    } else if i == 6 {
        let xs: Vec<usize> = vec![3, 9, 15];
        proof {
            assert(xs@ =~= seq![3usize, 9usize, 15usize]);
        }
        UiLabelSet {
            blob: ui_blob(5),
            labels: owned4("일기1", "일기2", "일기3", "일기4"),
            xs: Some(xs),
        }
    } else if i == 7 {
        UiLabelSet { blob: ui_blob(3), labels: owned1("저장"), xs: None }
    } else {
        UiLabelSet { blob: ui_blob(4), labels: owned2("대시", "도망"), xs: None }
    }
}

/// Whether a font has every character of every label set.
pub open spec fn has_ui_labels(font: GlyphFont) -> bool {
    forall|i: int| 0 <= i < 9 ==> has_labels(font, #[trigger] set_labels(i))
}

/// Whether a font has every character of every label set.
pub fn font_has_ui_labels(font: &GlyphFont) -> (r: bool)
    ensures
        r == has_ui_labels(*font),
{
    let mut i: usize = 0;
    while i < 9
        invariant
            i <= 9,
            forall|k: int| 0 <= k < i ==> has_labels(*font, #[trigger] set_labels(k)),
        decreases 9 - i,
    {
        let set = ui_label_set(i);
        let ghost labels = set_labels(i as int);
        let mut j: usize = 0;
        while j < set.labels.len()
            invariant
                i < 9,
                j <= set.labels@.len(),
                labels == string_views(set.labels@),
                labels == set_labels(i as int),
                forall|k: int| 0 <= k < j ==> has_all(*font, #[trigger] labels[k]),
            decreases set.labels@.len() - j,
        {
            let label = chars_of(set.labels[j].as_str());
            proof {
                assert(labels[j as int] == label@);
            }
            if !font_has_all(font, label.as_slice()) {
                proof {
                    assert(!has_labels(*font, set_labels(i as int)));
                }
                return false;
            }
            j += 1;
        }
        i += 1;
    }
    true
}

/// Whether a font has every character of a text.
pub fn font_has_all(font: &GlyphFont, s: &[char]) -> (r: bool)
    ensures
        r == has_all(*font, s@),
{
    let mut i: usize = 0;
    while i < s.len()
        invariant
            i <= s@.len(),
            forall|k: int| 0 <= k < i ==> font.has(#[trigger] s@[k]),
        decreases s@.len() - i,
    {
        if font.find(s[i]).is_none() {
            return false;
        }
        i += 1;
    }
    true
}

// ---------------------------------------------------------------------------
// Labels in place
// ---------------------------------------------------------------------------

/// The name of the write that puts labels in place.
pub open spec fn inplace_label(blob: BlobView) -> Seq<char> {
    "ui_label_inplace_"@ + blob.name + "_0x"@ + hex(blob.addr, 5)
}

/// A chain of writes after the labels of a block have been put in place: the block is
/// encoded anew and written over the old one, which must be at least as long.
pub open spec fn label_in_place(p: Progress, i: int, font: GlyphFont) -> Progress {
    let blob = blob_entry(set_blob(i));
    let used = unpack(p.rom.data, blob.addr, Seq::empty()).1 - blob.addr;
    if p.fault is Some {
        p
    } else {
        match retyped(p.rom.data, blob, set_labels(i), set_xs(i), font) {
            Err(e) => p.fail(e),
            Ok(buf) => if packed(buf).len() > used {
                p.fail(
                    plain(
                        blob.name + ": 재조판 후 "@ + dec(packed(buf).len() as int) + "B > 원본 "@
                            + dec(used) + "B — relocate 필요(UI_LABELS에서 제외돼야 함)"@,
                    ),
                )
            } else {
                p.over(inplace_label(blob), blob.addr, packed(buf))
            },
        }
    }
}

/// A chain of writes after the labels of the first `n` sets have been put in place.
pub open spec fn labels_in_place(p: Progress, font: GlyphFont, n: int) -> Progress
    decreases n,
{
    if n <= 0 {
        p
    } else {
        label_in_place(labels_in_place(p, font, n - 1), n - 1, font)
    }
}

proof fn lemma_unpack_bound(data: Seq<u8>, i: int, out: Seq<u8>)
    requires
        0 <= i,
    ensures
        i <= unpack(data, i, out).1,
        i <= data.len() ==> unpack(data, i, out).1 <= data.len(),
        i > data.len() ==> unpack(data, i, out).1 == i,
    decreases data.len() - i,
{
    if i < data.len() && data[i] != 0 {
        if data[i] < 0x80 {
            let end = if i + 1 + data[i] < data.len() {
                i + 1 + data[i]
            } else {
                data.len() as int
            };
            lemma_unpack_bound(data, end, out + data.subrange(i + 1, end));
        } else if i + 1 < data.len() {
            lemma_unpack_bound(
                data,
                i + 2,
                crate::lzss::copied(out, data[i + 1] + 1, data[i] - 0x80 + 3),
            );
        }
    }
}

fn place_labels(rom: &mut TrackedRom, i: usize, font: &GlyphFont) -> (res: Result<(), PatchError>)
    requires
        i < 7,
        old(rom)@.wf(),
        font.wf(),
        has_ui_labels(*font),
    ensures
        progress(final(rom)@, res) == label_in_place(
            Progress::begin(old(rom)@),
            i as int,
            *font,
        ),
        final(rom)@.wf(),
{
    let set = ui_label_set(i);
    let blob = &set.blob;
    let ghost start = rom@;
    proof {
        assert(has_labels(*font, set_labels(i as int)));
    }
    let xs: Option<&[usize]> = match &set.xs {
        Some(list) => Some(list.as_slice()),
        None => None,
    };
    proof {
        assert(xs_view(xs) == set_xs(i as int));
    }
    let buf = match retype_blob(rom.data(), blob, set.labels.as_slice(), xs, font) {
        Ok(buf) => buf,
        Err(e) => {
            return Err(e);
        },
    };
    let stream = compress(buf.as_slice());
    let (back, _) = decompress(stream.as_slice(), 0);
    proof {
        law_lossless(Seq::empty(), buf@, Seq::empty());
        assert(Seq::<u8>::empty() + packed(buf@) + Seq::<u8>::empty() =~= packed(buf@));
        assert(back@ == buf@);
    }
    if !same_bytes(back.as_slice(), buf.as_slice()) {
        return Err(text(blob.name).lit(": 재조판 재압축 라운드트립 실패").fail());
    }
    let (_, used) = decompress(rom.data(), blob.compressed_addr);
    if stream.len() > used {
        return Err(
            text(blob.name).lit(": 재조판 후 ").dec(stream.len()).lit("B > 원본 ").dec(used).lit(
                "B — relocate 필요(UI_LABELS에서 제외돼야 함)",
            ).fail(),
        );
    }
    let label = text("ui_label_inplace_").lit(blob.name).lit("_0x").hex(
        blob.compressed_addr,
        5,
    ).finish();
    let ghost addr = blob.compressed_addr as int;
    proof {
        lemma_unpack_bound(start.data, addr, Seq::empty());
        crate::lzss::law_ends_with_end_mark(buf@);
        assert(used > 0);
    }
    crate::patching::overwrite_tracked(
        rom,
        label.as_str(),
        blob.compressed_addr,
        stream.as_slice(),
    )
}

// ---------------------------------------------------------------------------
// Labels in a bank of their own
// ---------------------------------------------------------------------------

/// The bank of the blocks that are moved.
pub const UI_RELOC_BANK_BASE: usize = 0xB0000;

/// Where the game asks for the save button.
pub const SAVE_ASSET_LOAD_SITE: usize = 0x1A2F5;

/// The address of that place.
pub const SAVE_ASSET_LOAD_LOGICAL: u16 = 0xA2F5;

/// What stands there: `ld hl, $0217`.
pub const SAVE_ASSET_LOAD_ORIG: [u8; 3] = [0x21, 0x17, 0x02];

/// Where the game asks for the flee buttons.
pub const FLEE_ASSET_LOAD_SITE: usize = 0x1A33E;

/// The address of that place.
pub const FLEE_ASSET_LOAD_LOGICAL: u16 = 0xA33E;

/// What stands there: `ld hl, $0218`.
pub const FLEE_ASSET_LOAD_ORIG: [u8; 3] = [0x21, 0x18, 0x02];

/// The number of the moved save button: bank 44, resource 0.
pub const SAVE_RELOC_ASSET_ID: u16 = 0x2C00;

/// The number of the moved flee buttons: bank 44, resource 1.
pub const FLEE_RELOC_ASSET_ID: u16 = 0x2C01;

/// The contents of the bank of moved blocks: a header, a table of two slot pointers,
/// filler up to offset `0x10`, then for each block a descriptor of three bytes (kind
/// and video memory address) and its stream.
pub open spec fn resource_bank(save: Seq<u8>, flee: Seq<u8>) -> Seq<u8> {
    seq![0x42u8, 0x30u8, 0x37u8, 0x07u8] + le16(0x4010) + le16(0x4013 + save.len() as int) + Seq::new(
        8,
        |i: int| 0xFFu8,
    ) + seq![0x02u8, 0xC0u8, 0x07u8] + save + seq![0x02u8, 0x00u8, 0x07u8] + flee
}

/// Puts the bank of moved blocks together. Returns it with the offsets of the two
/// streams.
pub fn build_relocated_ui_resource_bank(save_recomp: &[u8], flee_recomp: &[u8]) -> (res: Result<
    (Vec<u8>, usize, usize),
    PatchError,
>)
    requires
        save_recomp@.len() + flee_recomp@.len() + 0x16 <= usize::MAX,
    ensures
        match res {
            Ok(r) => {
                &&& save_recomp@.len() + flee_recomp@.len() + 0x16 <= 0x4000
                &&& r.0@ == resource_bank(save_recomp@, flee_recomp@)
                &&& r.1 == 0x13
                &&& r.2 == 0x16 + save_recomp@.len()
            },
            Err(e) => {
                let end = save_recomp@.len() + flee_recomp@.len() + 0x16;
                &&& end > 0x4000
                &&& e@ == plain(
                    "UI relocation 리소스 "@ + dec(end as int) + "B가 16KB bank를 초과"@,
                )
            },
        },
{
    let save_stream: usize = 0x13;
    let flee_desc: usize = save_stream + save_recomp.len();
    let flee_stream: usize = flee_desc + 3;
    let end: usize = flee_stream + flee_recomp.len();
    if end > 0x4000 {
        return Err(
            text("UI relocation 리소스 ").dec(end).lit("B가 16KB bank를 초과").fail(),
        );
    }
    let flee_ptr: usize = 0x4000 + flee_desc;
    let mut bank: Vec<u8> = vec![
        0x42,
        0x30,
        0x37,
        0x07,
        0x10,
        0x40,
        (flee_ptr % 256) as u8,
        (flee_ptr / 256) as u8,
        0xFF,
        0xFF,
        0xFF,
        0xFF,
        0xFF,
        0xFF,
        0xFF,
        0xFF,
        0x02,
        0xC0,
        0x07,
    ];
    proof {
        assert(bank@ =~= seq![0x42u8, 0x30u8, 0x37u8, 0x07u8] + le16(0x4010) + le16(
            0x4013 + save_recomp@.len() as int,
        ) + Seq::new(8, |i: int| 0xFFu8) + seq![0x02u8, 0xC0u8, 0x07u8]);
    }
    push_all(&mut bank, save_recomp);
    let ghost with_save = bank@;
    bank.push(0x02);
    bank.push(0x00);
    bank.push(0x07);
    proof {
        assert(bank@ =~= with_save + seq![0x02u8, 0x00u8, 0x07u8]);
    }
    push_all(&mut bank, flee_recomp);
    Ok((bank, save_stream, flee_stream))
}

/// In the bank of moved blocks, decoding at the two stream offsets gives the blocks
/// back, and the table points at the descriptors in front of them.
pub proof fn law_resource_bank_streams(save: Seq<u8>, flee: Seq<u8>)
    requires
        packed(save).len() + packed(flee).len() + 0x16 <= 0x4000,
    ensures
        ({
            let bank = resource_bank(packed(save), packed(flee));
            let flee_at = 0x16 + packed(save).len() as int;
            &&& bank.len() == 0x16 + packed(save).len() + packed(flee).len()
            &&& unpack(bank, 0x13, Seq::empty()).0 == save
            &&& unpack(bank, flee_at, Seq::empty()).0 == flee
            &&& crate::bytes::word_at(bank, 4) == 0x4000 + (0x13 - 3)
            &&& crate::bytes::word_at(bank, 6) == 0x4000 + (flee_at - 3)
        }),
{
    let a = packed(save);
    let b = packed(flee);
    let bank = resource_bank(a, b);
    let head = seq![0x42u8, 0x30u8, 0x37u8, 0x07u8] + le16(0x4010) + le16(0x4013 + a.len() as int)
        + Seq::new(8, |i: int| 0xFFu8) + seq![0x02u8, 0xC0u8, 0x07u8];
    let mid = seq![0x02u8, 0x00u8, 0x07u8];
    assert(head.len() == 0x13);
    assert(bank =~= head + a + (mid + b));
    law_lossless(head, save, mid + b);
    assert(bank =~= (head + a + mid) + b + Seq::<u8>::empty());
    law_lossless(head + a + mid, flee, Seq::empty());
}

/// The instructions that ask for the moved blocks.
#[derive(Debug)]
pub struct AssetLoads {
    /// `ld hl, $2C00`, as assembled.
    pub save: [u8; 3],
    /// `ld hl, $2C01`, as assembled.
    pub flee: [u8; 3],
}

/// A chain of writes after the save and flee buttons have been moved to a bank of
/// their own and the game has been told where they are now.
pub open spec fn labels_moved(p: Progress, font: GlyphFont, save_load: Seq<u8>, flee_load: Seq<u8>) -> Progress {
    let save = retyped(p.rom.data, blob_entry(3), set_labels(7), set_xs(7), font);
    let flee = retyped(p.rom.data, blob_entry(4), set_labels(8), set_xs(8), font);
    if p.fault is Some {
        p
    } else if p.rom.data.len() < 0xB4000 {
        p.fail(plain("UI relocation은 1MB 확장 ROM이 필요함"@))
    } else {
        match (save, flee) {
            (Err(e), _) => p.fail(e),
            (Ok(_), Err(e)) => p.fail(e),
            (Ok(a), Ok(b)) => {
                let end = packed(a).len() + packed(b).len() + 0x16;
                if end > 0x4000 {
                    p.fail(
                        plain(
                            "UI relocation 리소스 "@ + dec(end as int)
                                + "B가 16KB bank를 초과"@,
                        ),
                    )
                } else {
                    let q = p.free(
                        "ui relocated resource bank 44"@,
                        0xB0000,
                        resource_bank(packed(a), packed(b)),
                    ).checked(
                        "ui save asset id 0217 -> 2C00"@,
                        0x1A2F5,
                        SAVE_ASSET_LOAD_ORIG@,
                        save_load,
                    ).checked(
                        "ui flee asset id 0218 -> 2C01"@,
                        0x1A33E,
                        FLEE_ASSET_LOAD_ORIG@,
                        flee_load,
                    );
                    let save_back = unpack(q.rom.data, 0xB0013, Seq::empty()).0;
                    let flee_back = unpack(
                        q.rom.data,
                        0xB0016 + packed(a).len() as int,
                        Seq::empty(),
                    ).0;
                    if q.fault is Some {
                        q
                    } else if save_back != a {
                        q.fail(plain("relocated save LZSS 검증 실패"@))
                    } else if flee_back != b {
                        q.fail(plain("relocated flee LZSS 검증 실패"@))
                    } else {
                        q
                    }
                }
            },
        }
    }
}

fn move_labels(rom: &mut TrackedRom, font: &GlyphFont, loads: &AssetLoads) -> (res: Result<
    (),
    PatchError,
>)
    requires
        old(rom)@.wf(),
        font.wf(),
        has_ui_labels(*font),
    ensures
        progress(final(rom)@, res) == labels_moved(
            Progress::begin(old(rom)@),
            *font,
            loads.save@,
            loads.flee@,
        ),
        final(rom)@.wf(),
{
    if rom.len() < UI_RELOC_BANK_BASE + 0x4000 {
        return Err(text("UI relocation은 1MB 확장 ROM이 필요함").fail());
    }
    let save_set = ui_label_set(7);
    let flee_set = ui_label_set(8);
    proof {
        assert(has_labels(*font, set_labels(7)));
        assert(has_labels(*font, set_labels(8)));
    }
    let save_buf = match retype_blob(
        rom.data(),
        &save_set.blob,
        save_set.labels.as_slice(),
        None,
        font,
    ) {
        Ok(buf) => buf,
        Err(e) => {
            return Err(e);
        },
    };
    let flee_buf = match retype_blob(
        rom.data(),
        &flee_set.blob,
        flee_set.labels.as_slice(),
        None,
        font,
    ) {
        Ok(buf) => buf,
        Err(e) => {
            return Err(e);
        },
    };
    let save_stream = compress(save_buf.as_slice());
    let flee_stream = compress(flee_buf.as_slice());
    proof {
        crate::lzss::lemma_packed_bound(save_buf@);
        crate::lzss::lemma_packed_bound(flee_buf@);
    }
    let (bank, save_at, flee_at) = match build_relocated_ui_resource_bank(
        save_stream.as_slice(),
        flee_stream.as_slice(),
    ) {
        Ok(r) => r,
        Err(e) => {
            return Err(e);
        },
    };
    match write_free(rom, "ui relocated resource bank 44", UI_RELOC_BANK_BASE, bank.as_slice()) {
        Ok(_) => {},
        Err(e) => {
            return Err(e);
        },
    }
    match write_checked(
        rom,
        "ui save asset id 0217 -> 2C00",
        SAVE_ASSET_LOAD_SITE,
        SAVE_ASSET_LOAD_ORIG.as_slice(),
        loads.save.as_slice(),
    ) {
        Ok(_) => {},
        Err(e) => {
            return Err(e);
        },
    }
    match write_checked(
        rom,
        "ui flee asset id 0218 -> 2C01",
        FLEE_ASSET_LOAD_SITE,
        FLEE_ASSET_LOAD_ORIG.as_slice(),
        loads.flee.as_slice(),
    ) {
        Ok(_) => {},
        Err(e) => {
            return Err(e);
        },
    }
    let (save_back, _) = decompress(rom.data(), UI_RELOC_BANK_BASE + save_at);
    if !same_bytes(save_back.as_slice(), save_buf.as_slice()) {
        return Err(text("relocated save LZSS 검증 실패").fail());
    }
    let (flee_back, _) = decompress(rom.data(), UI_RELOC_BANK_BASE + flee_at);
    if !same_bytes(flee_back.as_slice(), flee_buf.as_slice()) {
        return Err(text("relocated flee LZSS 검증 실패").fail());
    }
    Ok(())
}

/// A chain of writes after every label of the interface has been put in.
pub open spec fn ui_labels_applied(
    p: Progress,
    font: GlyphFont,
    save_load: Seq<u8>,
    flee_load: Seq<u8>,
) -> Progress {
    labels_moved(labels_in_place(p, font, 7), font, save_load, flee_load)
}

proof fn lemma_in_place_fail(p: Progress, font: GlyphFont, k: int, n: int)
    requires
        k <= n,
        labels_in_place(p, font, k).fault is Some,
    ensures
        labels_in_place(p, font, n) == labels_in_place(p, font, k),
    decreases n - k,
{
    if k < n {
        lemma_in_place_fail(p, font, k, n - 1);
    }
}

/// Puts every label of the interface in: seven blocks in place, two moved to a bank of
/// their own. Returns how many blocks that is.
pub fn apply_ui_labels(rom: &mut TrackedRom, font: &GlyphFont, loads: &AssetLoads) -> (res: Result<
    usize,
    PatchError,
>)
    requires
        old(rom)@.wf(),
        font.wf(),
        has_ui_labels(*font),
    ensures
        ({
            let p = ui_labels_applied(
                Progress::begin(old(rom)@),
                *font,
                loads.save@,
                loads.flee@,
            );
            &&& final(rom)@ == p.rom
            &&& match res {
                Ok(n) => n == 9 && p.fault is None,
                Err(e) => p.fault == Some(e@),
            }
        }),
        final(rom)@.wf(),
{
    let ghost start = Progress::begin(rom@);
    let mut i: usize = 0;
    while i < UI_LABEL_COUNT
        invariant
            i <= 7,
            rom@.wf(),
            font.wf(),
            has_ui_labels(*font),
            labels_in_place(start, *font, i as int) == Progress::begin(rom@),
            start == Progress::begin(old(rom)@),
        decreases 7 - i,
    {
        match place_labels(rom, i, font) {
            Ok(_) => {},
            Err(e) => {
                proof {
                    lemma_in_place_fail(start, *font, i + 1, 7);
                }
                return Err(e);
            },
        }
        i += 1;
    }
    match move_labels(rom, font, loads) {
        Ok(_) => Ok(9),
        Err(e) => Err(e),
    }
}

} // verus!
