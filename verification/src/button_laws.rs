//! What the interface buttons say and how they look.
use vstd::prelude::*;
use crate::bits::bit_at;
use crate::font::lit;
use crate::parse::string_views;
use crate::ui_graphics::{
    box_points, button_tile, glyph_x, ink_glyph, ink_points, ink_row, law_relabelled_pixels,
    paintable, relabelled, row_points, touches, UiBlob,
};
use crate::ui_labels::{button_tiles, set_labels, UiLabelSet};
use crate::vram::pixel;

verus! {

// ---------------------------------------------------------------------------
// What the buttons say
// ---------------------------------------------------------------------------

/// Whether a set of labels is for a block with a given name and text in the game, and gives
/// its buttons, in order, these Korean words.
pub open spec fn translates(s: UiLabelSet, name: Seq<char>, jp: Seq<char>, words: Seq<Seq<char>>) -> bool {
    &&& s.blob.name@ == name
    &&& s.blob.jp@ == jp
    &&& s.blob.tiles == 6 * words.len()
    &&& s.labels@.len() == words.len()
    &&& forall|b: int| 0 <= b < words.len() ==> (#[trigger] s.labels@[b])@ == words[b]
}

/// Every button gets the Korean word for what it says in the game: the button for yes says
/// yes, the one for no says no, each button of the compass its own direction, and each
/// file its own number.
pub proof fn law_buttons_say_what_they_said(s: UiLabelSet, i: int)
    requires
        s.is_set(i),
        0 <= i < 9,
    ensures
        i == 0 ==> translates(s, "buttons_map"@, "マップ"@, seq!["지도"@]),
        i == 1 ==> translates(s, "buttons_magic_item"@, "じゅもん/アイテム"@, seq!["주문"@, "물건"@]),
        i == 2 ==> translates(s, "buttons_buy_sell_leave"@, "かう/うる/やめる"@, seq!["사기"@, "팔기"@, "가기"@]),
        i == 3 ==> translates(s, "buttons_yes_no"@, "はい/いいえ"@, seq!["예"@, "아니"@]),
        i == 4 ==> translates(s, "buttons_title"@, "はじめ/つづき"@, seq!["시작"@, "계속"@]),
        i == 5 ==> translates(s, "compass"@, "東西南北"@, seq!["동"@, "서"@, "남"@, "북"@]),
        i == 6 ==> translates(s, "buttons_file"@, "ファイル1~4"@, seq!["일기1"@, "일기2"@, "일기3"@, "일기4"@]),
        i == 7 ==> translates(s, "buttons_save"@, "セーブ"@, seq!["저장"@]),
        i == 8 ==> translates(s, "buttons_flee_lipemco"@, "ダッシュ/にげる"@, seq!["대시"@, "도망"@]),
        i != 6 ==> s.xs is None,
        i == 6 ==> s.xs is Some && s.xs->0@ == seq![3usize, 9usize, 15usize],
{
    let labels = string_views(s.labels@);
    assert(labels.len() == s.labels@.len());
    assert forall|b: int| 0 <= b < labels.len() implies #[trigger] s.labels@[b]@ == set_labels(
        i,
    )[b] by {
        assert(labels[b] == s.labels@[b]@);
    }
}

/// The blocks of interface graphics stand where the game has them: each at its address,
/// with a whole number of buttons of six tiles of 32 bytes.
pub proof fn law_inventory(b: UiBlob, i: int)
    requires
        b.is_entry(i),
        0 <= i < 10,
    ensures
        i == 0 ==> b.name@ == "compass"@ && b.compressed_addr == 0x92DA && b.tiles == 24,
        i == 1 ==> b.name@ == "buttons_map"@ && b.compressed_addr == 0x8C30 && b.tiles == 6,
        i == 2 ==> b.name@ == "buttons_magic_item"@ && b.compressed_addr == 0x8CCA && b.tiles == 12,
        i == 3 ==> b.name@ == "buttons_save"@ && b.compressed_addr == 0x8DD3 && b.tiles == 6,
        i == 4 ==> b.name@ == "buttons_flee_lipemco"@ && b.compressed_addr == 0x8E6E && b.tiles == 12,
        i == 5 ==> b.name@ == "buttons_file"@ && b.compressed_addr == 0x944D && b.tiles == 24,
        i == 6 ==> b.name@ == "buttons_yes_no"@ && b.compressed_addr == 0x9578 && b.tiles == 12,
        i == 7 ==> b.name@ == "button_cursor"@ && b.compressed_addr == 0x9526 && b.tiles == 6,
        i == 8 ==> b.name@ == "buttons_buy_sell_leave"@ && b.compressed_addr == 0x25CEA && b.tiles == 18,
        i == 9 ==> b.name@ == "buttons_title"@ && b.compressed_addr == 0x23D22 && b.tiles == 12,
        i == 0 ==> b.jp@ == "東西南北"@ && b.ko_hint@ == "동/서/남/북"@,
        i == 1 ==> b.jp@ == "マップ"@ && b.ko_hint@ == "지도"@,
        i == 2 ==> b.jp@ == "じゅもん/アイテム"@ && b.ko_hint@ == "주문/아이템"@,
        i == 3 ==> b.jp@ == "セーブ"@ && b.ko_hint@ == "저장"@,
        i == 4 ==> b.jp@ == "ダッシュ/にげる"@ && b.ko_hint@ == "대시/도망"@,
        i == 5 ==> b.jp@ == "ファイル1~4"@ && b.ko_hint@ == "파일1~4"@,
        i == 6 ==> b.jp@ == "はい/いいえ"@ && b.ko_hint@ == "예/아니오"@,
        i == 7 ==> b.jp@ == "(커서)"@ && b.ko_hint@ == "(원본 유지)"@,
        i == 8 ==> b.jp@ == "かう/うる/やめる"@ && b.ko_hint@ == "사기/팔기/가기"@,
        i == 9 ==> b.jp@ == "はじめ/つづき"@ && b.ko_hint@ == "시작/계속"@,
        b.uncompressed_len == 32 * b.tiles,
        b.interior_box.0 == 3 && b.interior_box.1 == 13,
        b.interior_box.2 == if i == 0 {
            4
        } else {
            3int
        },
        b.interior_box.3 == if i == 0 {
            20
        } else {
            21int
        },
{
}

// ---------------------------------------------------------------------------
// How a button looks
// ---------------------------------------------------------------------------

proof fn lemma_row_points(gy: int, c0: int, c1: int, p: (int, int))
    ensures
        row_points(gy, c0, c1).contains(p) <==> c0 <= p.0 < c1 && p.1 == gy,
{
    let row = row_points(gy, c0, c1);
    if c0 <= p.0 < c1 && p.1 == gy {
        assert(row[p.0 - c0] == p);
    }
}

proof fn lemma_append_contains(a: Seq<(int, int)>, b: Seq<(int, int)>, p: (int, int))
    ensures
        (a + b).contains(p) <==> a.contains(p) || b.contains(p),
{
    let all = a + b;
    if a.contains(p) {
        let i = choose|i: int| 0 <= i < a.len() && a[i] == p;
        assert(all[i] == p);
    }
    if b.contains(p) {
        let i = choose|i: int| 0 <= i < b.len() && b[i] == p;
        assert(all[a.len() + i] == p);
    }
    if all.contains(p) {
        let i = choose|i: int| 0 <= i < all.len() && all[i] == p;
        if i < a.len() {
            assert(a[i] == p);
        } else {
            assert(b[i - a.len()] == p);
        }
    }
}

proof fn lemma_push_contains(a: Seq<(int, int)>, q: (int, int), p: (int, int))
    ensures
        a.push(q).contains(p) <==> a.contains(p) || p == q,
{
    let all = a.push(q);
    if a.contains(p) {
        let i = choose|i: int| 0 <= i < a.len() && a[i] == p;
        assert(all[i] == p);
    }
    assert(all[a.len() as int] == q);
    if all.contains(p) {
        let i = choose|i: int| 0 <= i < all.len() && all[i] == p;
        if i < a.len() {
            assert(a[i] == p);
        }
    }
}

proof fn lemma_box_points(r0: int, r1: int, c0: int, c1: int, p: (int, int))
    ensures
        box_points(r0, r1, c0, c1).contains(p) <==> r0 <= p.1 < r1 && c0 <= p.0 < c1,
    decreases r1 - r0,
{
    if r1 > r0 {
        lemma_box_points(r0, r1 - 1, c0, c1, p);
        lemma_row_points(r1 - 1, c0, c1, p);
        lemma_append_contains(
            box_points(r0, r1 - 1, c0, c1),
            row_points(r1 - 1, c0, c1),
            p,
        );
    }
}

proof fn lemma_ink_row(row: u8, x0: int, gy: int, n: int, p: (int, int))
    requires
        0 <= n <= 8,
    ensures
        ink_row(row, x0, gy, n).contains(p) <==> {
            &&& p.1 == gy
            &&& x0 <= p.0 < x0 + n
            &&& p.0 < 24
            &&& bit_at(row, (7 - (p.0 - x0)) as u8) == 1
        },
    decreases n,
{
    if n > 0 {
        lemma_ink_row(row, x0, gy, n - 1, p);
        if bit_at(row, (7 - (n - 1)) as u8) == 1 && x0 + (n - 1) < 24 {
            lemma_push_contains(ink_row(row, x0, gy, n - 1), (x0 + (n - 1), gy), p);
        }
    }
}

/// Whether a pixel of a button lies on the ink of a glyph whose left edge is at `x0`: the
/// glyph takes eight columns and the rows from 4 on.
pub open spec fn on_ink(glyph: Seq<u8>, x0: int, gx: int, gy: int) -> bool {
    x0 <= gx < x0 + 8 && gx < 24 && 4 <= gy < 12 && lit(glyph, gx - x0, gy - 4)
}

proof fn lemma_ink_glyph(glyph: Seq<u8>, x0: int, n: int, p: (int, int))
    requires
        0 <= n <= 8,
    ensures
        ink_glyph(glyph, x0, n).contains(p) <==> on_ink(glyph, x0, p.0, p.1) && p.1 < 4 + n,
    decreases n,
{
    if n > 0 {
        lemma_ink_glyph(glyph, x0, n - 1, p);
        lemma_ink_row(glyph[n - 1], x0, 4 + (n - 1), 8, p);
        lemma_append_contains(
            ink_glyph(glyph, x0, n - 1),
            ink_row(glyph[n - 1], x0, 4 + (n - 1), 8),
            p,
        );
    }
}

/// Where the glyphs of a label stand: where it was asked for, else side by side, one glyph
/// with 8 columns free on either side, two with 4.
pub open spec fn left_edge(k: int, xs: Option<Seq<usize>>, i: int) -> int {
    if xs is Some && i < xs->0.len() {
        xs->0[i] as int
    } else if k == 1 {
        8 + 8 * i
    } else if k == 2 {
        4 + 8 * i
    } else {
        8 * i
    }
}

/// Whether a pixel of a button lies on the ink of its label.
pub open spec fn on_label(glyphs: Seq<Seq<u8>>, xs: Option<Seq<usize>>, gx: int, gy: int) -> bool {
    exists|i: int|
        0 <= i < glyphs.len() && on_ink(
            #[trigger] glyphs[i],
            left_edge(glyphs.len() as int, xs, i),
            gx,
            gy,
        )
}

proof fn lemma_ink_points(glyphs: Seq<Seq<u8>>, xs: Option<Seq<usize>>, n: int, p: (int, int))
    requires
        0 <= n <= glyphs.len(),
    ensures
        ink_points(glyphs, xs, n).contains(p) <==> exists|i: int|
            0 <= i < n && on_ink(
                #[trigger] glyphs[i],
                left_edge(glyphs.len() as int, xs, i),
                p.0,
                p.1,
            ),
    decreases n,
{
    if n > 0 {
        let x0 = glyph_x(glyphs.len() as int, xs, n - 1);
        assert(x0 == left_edge(glyphs.len() as int, xs, n - 1));
        lemma_ink_points(glyphs, xs, n - 1, p);
        lemma_ink_glyph(glyphs[n - 1], x0, 8, p);
        lemma_append_contains(
            ink_points(glyphs, xs, n - 1),
            ink_glyph(glyphs[n - 1], x0, 8),
            p,
        );
        if ink_points(glyphs, xs, n).contains(p) && !ink_points(glyphs, xs, n - 1).contains(p) {
            assert(on_ink(glyphs[n - 1], left_edge(glyphs.len() as int, xs, n - 1), p.0, p.1));
        }
    }
}

proof fn lemma_touches(b: int, points: Seq<(int, int)>, gx: int, gy: int)
    requires
        0 <= b,
        6 * b + 5 <= usize::MAX,
        0 <= gx < 24,
        0 <= gy < 16,
        forall|i: int|
            0 <= i < points.len() ==> 0 <= (#[trigger] points[i]).0 < 24 && 0 <= points[i].1 < 16,
    ensures
        touches(
            button_tiles(b),
            points,
            6 * b + (gx / 8) * 2 + gy / 8,
            gx % 8,
            gy % 8,
        ) <==> points.contains((gx, gy)),
{
    let tiles = button_tiles(b);
    let tile = 6 * b + (gx / 8) * 2 + gy / 8;
    if points.contains((gx, gy)) {
        let i = choose|i: int| 0 <= i < points.len() && points[i] == (gx, gy);
        assert(tiles[button_tile(gx, gy)] == tile);
        assert(points[i].0 == gx);
    }
    if touches(tiles, points, tile, gx % 8, gy % 8) {
        let i = choose|i: int|
            0 <= i < points.len() && {
                let p = #[trigger] points[i];
                tiles[button_tile(p.0, p.1)] == tile && p.0 % 8 == gx % 8 && p.1 % 8 == gy % 8
            };
        let p = points[i];
        assert(0 <= button_tile(p.0, p.1) < 6);
        assert(tiles[button_tile(p.0, p.1)] == 6 * b + button_tile(p.0, p.1));
        assert(p == (gx, gy));
    }
}

proof fn lemma_ink_within(glyphs: Seq<Seq<u8>>, xs: Option<Seq<usize>>)
    ensures
        forall|i: int|
            0 <= i < ink_points(glyphs, xs, glyphs.len() as int).len() ==> {
                let p = #[trigger] ink_points(glyphs, xs, glyphs.len() as int)[i];
                0 <= p.0 < 24 && 4 <= p.1 < 12
            },
{
    let all = ink_points(glyphs, xs, glyphs.len() as int);
    assert forall|i: int| 0 <= i < all.len() implies ({
        let p = #[trigger] all[i];
        0 <= p.0 < 24 && 4 <= p.1 < 12
    }) by {
        let p = all[i];
        assert(all.contains(p));
        lemma_ink_points(glyphs, xs, glyphs.len() as int, p);
    }
}

/// What a button of 24 by 16 pixels looks like with a new label: ink where a glyph of the
/// label has ink, the colour of the face inside the box, and as before elsewhere. Glyphs
/// stand in the rows from 4 to 11, in the middle of the button where nothing else was
/// asked for.
pub proof fn law_button_picture(
    buf: Seq<u8>,
    b: int,
    glyphs: Seq<Seq<u8>>,
    xs: Option<Seq<usize>>,
    r0: int,
    r1: int,
    c0: int,
    c1: int,
    gx: int,
    gy: int,
)
    requires
        0 <= b,
        6 * b + 5 <= usize::MAX,
        192 * (b + 1) <= buf.len(),
        0 <= r0 && r1 <= 16,
        0 <= c0 && c1 <= 24,
        0 <= gx < 24,
        0 <= gy < 16,
    ensures
        ({
            let at = (6 * b + (gx / 8) * 2 + gy / 8) * 32;
            pixel(
                relabelled(buf, button_tiles(b), glyphs, xs, r0, r1, c0, c1),
                at,
                gx % 8,
                gy % 8,
            ) == if on_label(glyphs, xs, gx, gy) {
                15int
            } else if r0 <= gy < r1 && c0 <= gx < c1 {
                1
            } else {
                pixel(buf, at, gx % 8, gy % 8)
            }
        }),
{
    let tiles = button_tiles(b);
    let n = glyphs.len() as int;
    let ink = ink_points(glyphs, xs, n);
    let face = box_points(r0, r1, c0, c1);
    let len = buf.len() as int;
    lemma_ink_within(glyphs, xs);
    assert forall|i: int| 0 <= i < face.len() implies 0 <= (#[trigger] face[i]).0 < 24 && 0
        <= face[i].1 < 16 by {
        assert(face.contains(face[i]));
        lemma_box_points(r0, r1, c0, c1, face[i]);
    }
    assert forall|i: int| 0 <= i < face.len() implies paintable(len, tiles, #[trigger] face[i]) by {
        let p = face[i];
        assert(0 <= button_tile(p.0, p.1) < 6);
        assert(tiles[button_tile(p.0, p.1)] == 6 * b + button_tile(p.0, p.1));
    }
    assert forall|i: int| 0 <= i < ink.len() implies paintable(len, tiles, #[trigger] ink[i]) by {
        let p = ink[i];
        assert(0 <= p.0 < 24 && 4 <= p.1 < 12);
        assert(0 <= button_tile(p.0, p.1) < 6);
        assert(tiles[button_tile(p.0, p.1)] == 6 * b + button_tile(p.0, p.1));
    }
    let tile = 6 * b + (gx / 8) * 2 + gy / 8;
    lemma_touches(b, ink, gx, gy);
    lemma_touches(b, face, gx, gy);
    lemma_ink_points(glyphs, xs, n, (gx, gy));
    lemma_box_points(r0, r1, c0, c1, (gx, gy));
    law_relabelled_pixels(buf, tiles, glyphs, xs, r0, r1, c0, c1, tile, gx % 8, gy % 8);
}

} // verus!
