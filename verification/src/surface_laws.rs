//! What the catalogue of text outside the scripts promises.
use vstd::prelude::*;
use crate::hexbytes::hex_text_bytes;
use crate::parse::{joined, trim_spec};
use crate::raw_text::RawView;
use crate::scan::occurrences;
use crate::scan_laws::{law_occurrences, positions};
use crate::surfaces::{
    blockers_of, catalog_fault, coverage, coverage_fault, glyph_offsets, lines_joined,
    money_entries_fault, money_entry_fault, money_sources_fault, money_total, places_fault,
    readiness_fault, shop_count, shop_ids, source_fault, surface_fault, surfaces_fault,
    unverified_count, SurfaceView,
};
use crate::tags::add_name;
use crate::term_laws::{
    is_filled, is_script, law_found_where_it_stands, law_scripts_by_name, law_trim, stands_at,
};

verus! {

// ---------------------------------------------------------------------------
// One surface
// ---------------------------------------------------------------------------

/// A surface passes on its own exactly if it has a name, a known kind, policy and status,
/// notes, and no empty risk.
pub proof fn law_accepted_surface(s: SurfaceView)
    ensures
        surface_fault(s) is None <==> {
            &&& is_filled(s.id)
            &&& s.kind == "shop_text"@ || s.kind == "hud_or_graphics_text"@ || s.kind
                == "graphics_text"@
            &&& s.policy == "fixed_len_only"@ || s.policy == "inventory_required"@ || s.policy
                == "do_not_build"@ || s.policy == "normal_text"@
            &&& s.status == "cataloged"@ || s.status == "blocked_until_policy"@ || s.status
                == "unverified"@ || s.status == "verified"@
            &&& is_filled(s.notes)
            &&& forall|k: int| 0 <= k < s.risks.len() ==> is_filled(#[trigger] s.risks[k])
        },
{
    law_trim(s.id);
    law_trim(s.notes);
    assert forall|k: int| 0 <= k < s.risks.len() implies (trim_spec(#[trigger] s.risks[k]).len() > 0
        <==> is_filled(s.risks[k])) by {
        law_trim(s.risks[k]);
    }
}

/// Whether a surface refers to a script by name, with or without white space around it.
pub open spec fn refers_to(s: SurfaceView, id: Seq<char>) -> bool {
    s.source_ref is Some && is_filled(s.source_ref->0) && trim_spec(s.source_ref->0) == id
}

/// Whether a surface refers to no script.
pub open spec fn refers_to_none(s: SurfaceView) -> bool {
    s.source_ref is Some ==> !is_filled(s.source_ref->0)
}

proof fn lemma_script(s: SurfaceView)
    ensures
        s.script() is None <==> refers_to_none(s),
        s.script() matches Some(id) ==> refers_to(s, id),
{
    if s.source_ref is Some {
        law_trim(s.source_ref->0);
    }
}

/// What a surface refers to has to be there. Text of a shop refers to a script of a shop
/// that has a length, and keeps it; so does everything else that is to keep its length.
pub proof fn law_surface_sources(s: SurfaceView, raws: Seq<RawView>, id: Seq<char>, r: int)
    ensures
        refers_to(s, id) && is_script(raws, id, r) ==> (source_fault(s, raws) is None <==> (s.kind
            == "shop_text"@ ==> {
            &&& raws[r].kind == Some("shop"@)
            &&& raws[r].len is Some
            &&& s.policy == "fixed_len_only"@
        })),
        refers_to(s, id) && (forall|k: int| 0 <= k < raws.len() ==> (#[trigger] raws[k]).id != id)
            ==> source_fault(s, raws) is Some,
        refers_to_none(s) ==> (source_fault(s, raws) is None <==> s.kind != "shop_text"@ && s.policy
            != "fixed_len_only"@),
{
    lemma_script(s);
    law_scripts_by_name(raws, id);
}

// ---------------------------------------------------------------------------
// The catalogue
// ---------------------------------------------------------------------------

/// Whether a surface is the shop text of a script.
pub open spec fn is_text_of(s: SurfaceView, id: Seq<char>) -> bool {
    s.kind == "shop_text"@ && refers_to(s, id)
}

proof fn lemma_all_places(list: Seq<SurfaceView>, raws: Seq<RawView>, n: int)
    requires
        0 <= n <= list.len(),
    ensures
        places_fault(list, raws, n) is None <==> (forall|i: int|
            0 <= i < n ==> surface_fault(#[trigger] list[i]) is None && source_fault(list[i], raws)
                is None) && (forall|i: int, j: int|
            0 <= i < j < n ==> (#[trigger] list[i]).id != (#[trigger] list[j]).id),
    decreases n,
{
    if n > 0 {
        lemma_all_places(list, raws, n - 1);
        let s = list[n - 1];
        if places_fault(list, raws, n) is None {
            assert forall|i: int, j: int| 0 <= i < j < n implies (#[trigger] list[i]).id != (
            #[trigger] list[j]).id by {
                assert(list[i].id != s.id || i == n - 1);
            }
        }
    }
}

proof fn lemma_coverage_none(list: Seq<SurfaceView>, id: Seq<char>, n: int)
    requires
        0 <= n <= list.len(),
    ensures
        coverage(list, id, n) >= 0,
        coverage(list, id, n) == 0 <==> forall|i: int|
            0 <= i < n ==> !is_text_of(#[trigger] list[i], id),
    decreases n,
{
    if n > 0 {
        lemma_coverage_none(list, id, n - 1);
        lemma_script(list[n - 1]);
    }
}

proof fn lemma_coverage_one(list: Seq<SurfaceView>, id: Seq<char>, n: int)
    requires
        0 <= n <= list.len(),
    ensures
        coverage(list, id, n) == 1 <==> exists|i: int|
            0 <= i < n && is_text_of(#[trigger] list[i], id) && forall|j: int|
                0 <= j < n && j != i ==> !is_text_of(#[trigger] list[j], id),
    decreases n,
{
    if n > 0 {
        lemma_coverage_one(list, id, n - 1);
        lemma_coverage_none(list, id, n - 1);
        lemma_script(list[n - 1]);
        let s = list[n - 1];
        if is_text_of(s, id) {
            if coverage(list, id, n - 1) == 0 {
                assert(is_text_of(list[n - 1], id));
                assert(forall|j: int|
                    0 <= j < n && j != n - 1 ==> !is_text_of(#[trigger] list[j], id));
            } else {
                let k = choose|k: int| 0 <= k < n - 1 && is_text_of(#[trigger] list[k], id);
                assert(is_text_of(list[k], id));
                assert forall|i: int|
                    0 <= i < n && is_text_of(#[trigger] list[i], id) implies exists|j: int|
                    0 <= j < n && j != i && is_text_of(#[trigger] list[j], id) by {
                    if i == n - 1 {
                        assert(is_text_of(list[k], id));
                    } else {
                        assert(is_text_of(list[n - 1], id));
                    }
                }
            }
        } else {
            if coverage(list, id, n - 1) == 1 {
                let i = choose|i: int|
                    0 <= i < n - 1 && is_text_of(#[trigger] list[i], id) && forall|j: int|
                        0 <= j < n - 1 && j != i ==> !is_text_of(#[trigger] list[j], id);
                assert(is_text_of(list[i], id));
            }
        }
    }
}

proof fn lemma_added(list: Seq<(Seq<char>, int)>, name: Seq<char>, i: int)
    ensures
        exists|k: int|
            0 <= k < add_name(list, name).len() && (#[trigger] add_name(list, name)[k]).0 == name,
        0 <= i < list.len() ==> exists|k: int|
            0 <= k < add_name(list, name).len() && (#[trigger] add_name(list, name)[k]).0
                == list[i].0,
    decreases list.len(),
{
    let all = add_name(list, name);
    if list.len() == 0 {
        assert(all[0].0 == name);
    } else if name == list[0].0 {
        assert(all[0].0 == name);
        if 0 <= i < list.len() {
            assert(all[i].0 == list[i].0);
        }
    } else if crate::tags::comes_before(name, list[0].0) {
        assert(all[0].0 == name);
        if 0 <= i < list.len() {
            assert(all[i + 1].0 == list[i].0);
        }
    } else {
        let rest = list.drop_first();
        let inner = add_name(rest, name);
        lemma_added(rest, name, i - 1);
        let k = choose|k: int| 0 <= k < inner.len() && (#[trigger] inner[k]).0 == name;
        assert(all[k + 1].0 == name);
        if i == 0 {
            assert(all[0].0 == list[0].0);
        } else if 0 < i < list.len() {
            let j = choose|j: int| 0 <= j < inner.len() && (#[trigger] inner[j]).0 == rest[i - 1].0;
            assert(all[j + 1].0 == list[i].0);
        }
    }
}

proof fn lemma_shop_listed(raws: Seq<RawView>, r: int, n: int)
    requires
        0 <= r < n <= raws.len(),
        raws[r].kind == Some("shop"@),
    ensures
        exists|k: int|
            0 <= k < shop_ids(raws, n).len() && (#[trigger] shop_ids(raws, n)[k]).0 == raws[r].id,
    decreases n,
{
    let before = shop_ids(raws, n - 1);
    if r == n - 1 {
        lemma_added(before, raws[r].id, 0);
        assert(shop_ids(raws, n) == add_name(before, raws[r].id));
    } else {
        lemma_shop_listed(raws, r, n - 1);
        let k = choose|k: int| 0 <= k < before.len() && (#[trigger] before[k]).0 == raws[r].id;
        if raws[n - 1].is_shop() {
            lemma_added(before, raws[n - 1].id, k);
            assert(shop_ids(raws, n) == add_name(before, raws[n - 1].id));
        } else {
            assert(shop_ids(raws, n)[k].0 == raws[r].id);
        }
    }
}

proof fn lemma_each_covered(list: Seq<SurfaceView>, ids: Seq<(Seq<char>, int)>, n: int, k: int)
    requires
        0 <= k < n <= ids.len(),
        coverage_fault(list, ids, n) is None,
    ensures
        coverage(list, ids[k].0, list.len() as int) == 1,
    decreases n,
{
    if k < n - 1 {
        lemma_each_covered(list, ids, n - 1, k);
    }
}

/// In a catalogue that passes, every surface passes, no two have the same name, and every
/// script of a shop is the source of exactly one shop text.
pub proof fn law_passed_catalogue(list: Seq<SurfaceView>, raws: Seq<RawView>)
    requires
        surfaces_fault(list, raws) is None,
    ensures
        forall|i: int|
            0 <= i < list.len() ==> surface_fault(#[trigger] list[i]) is None && source_fault(
                list[i],
                raws,
            ) is None,
        forall|i: int, j: int|
            0 <= i < j < list.len() ==> (#[trigger] list[i]).id != (#[trigger] list[j]).id,
        forall|r: int|
            0 <= r < raws.len() && (#[trigger] raws[r]).kind == Some("shop"@) ==> exists|i: int|
                0 <= i < list.len() && is_text_of(#[trigger] list[i], raws[r].id) && forall|j: int|
                    0 <= j < list.len() && j != i ==> !is_text_of(#[trigger] list[j], raws[r].id),
        shop_ids(raws, raws.len() as int).len() == 12,
{
    lemma_all_places(list, raws, list.len() as int);
    let ids = shop_ids(raws, raws.len() as int);
    assert forall|r: int|
        0 <= r < raws.len() && (#[trigger] raws[r]).kind == Some("shop"@) implies exists|i: int|
        0 <= i < list.len() && is_text_of(#[trigger] list[i], raws[r].id) && forall|j: int|
            0 <= j < list.len() && j != i ==> !is_text_of(#[trigger] list[j], raws[r].id) by {
        lemma_shop_listed(raws, r, raws.len() as int);
        let k = choose|k: int| 0 <= k < ids.len() && (#[trigger] ids[k]).0 == raws[r].id;
        lemma_each_covered(list, ids, 12, k);
        lemma_coverage_one(list, raws[r].id, list.len() as int);
    }
}

/// Nothing stands against a release exactly if every surface is verified and none waits for
/// its inventory or is not to be built.
pub proof fn law_nothing_blocks(list: Seq<SurfaceView>, n: int)
    requires
        0 <= n <= list.len(),
    ensures
        blockers_of(list, n).len() == 0 <==> forall|i: int|
            0 <= i < n ==> (#[trigger] list[i]).status == "verified"@ && list[i].policy
                != "inventory_required"@ && list[i].policy != "do_not_build"@,
    decreases n,
{
    if n > 0 {
        law_nothing_blocks(list, n - 1);
    }
}

/// A catalogue is read exactly if it is in the known format and not empty; a release is
/// refused exactly if something stands against it.
pub proof fn law_catalogues(format: Seq<char>, n: int, prefix: Seq<char>, list: Seq<Seq<char>>)
    ensures
        catalog_fault(format, n) is None <==> format == "madoua-surface-inventory-v1"@ && n != 0,
        readiness_fault(prefix, list) is None <==> list.len() == 0,
{
}

/// A surface that is drawn and has not been verified.
pub open spec fn is_open_picture(s: SurfaceView) -> bool {
    (s.kind == "hud_or_graphics_text"@ || s.kind == "graphics_text"@) && s.status == "unverified"@
}

/// The surfaces of a list that are drawn and not verified.
pub open spec fn open_pictures(list: Seq<SurfaceView>) -> Set<int> {
    Set::new(|i: int| 0 <= i < list.len() && is_open_picture(list[i]))
}

proof fn lemma_open_pictures(list: Seq<SurfaceView>, n: int)
    requires
        0 <= n <= list.len(),
    ensures
        open_pictures(list.take(n)).finite(),
        unverified_count(list, n) == open_pictures(list.take(n)).len(),
    decreases n,
{
    let here = open_pictures(list.take(n));
    if n == 0 {
        assert(here =~= Set::empty());
    } else {
        lemma_open_pictures(list, n - 1);
        let before = open_pictures(list.take(n - 1));
        assert forall|i: int| 0 <= i < n - 1 implies list.take(n - 1)[i] == #[trigger] list.take(
            n,
        )[i] by {}
        if is_open_picture(list[n - 1]) {
            assert(here =~= before.insert(n - 1));
        } else {
            assert(here =~= before);
        }
    }
}

/// What is counted as unverified are the drawn surfaces that have not been verified.
pub proof fn law_open_pictures(list: Seq<SurfaceView>)
    ensures
        unverified_count(list, list.len() as int) == open_pictures(list).len(),
{
    lemma_open_pictures(list, list.len() as int);
    assert(list.take(list.len() as int) =~= list);
}

// ---------------------------------------------------------------------------
// Money
// ---------------------------------------------------------------------------

proof fn lemma_occurs(bytes: Seq<u8>, b: u8)
    ensures
        occurrences(bytes, b) >= 0,
        occurrences(bytes, b) > 0 <==> exists|i: int| 0 <= i < bytes.len() && #[trigger] bytes[i] == b,
    decreases bytes.len(),
{
    if bytes.len() > 0 {
        let front = bytes.drop_last();
        lemma_occurs(front, b);
        if bytes.last() == b {
            assert(bytes[bytes.len() - 1] == b);
        } else if occurrences(front, b) > 0 {
            let i = choose|i: int| 0 <= i < front.len() && #[trigger] front[i] == b;
            assert(bytes[i] == b);
        } else {
            assert forall|i: int| 0 <= i < bytes.len() implies #[trigger] bytes[i] != b by {
                if i < front.len() {
                    assert(front[i] == bytes[i]);
                }
            }
        }
    }
}

/// Whether a script of a shop shows the sign for money: its code, `0x0C`, stands in its
/// bytes, and the sign in its text.
pub open spec fn shows_money(raw: RawView) -> bool {
    &&& hex_text_bytes(raw.bytes_hex) is Ok
    &&& exists|i: int|
        0 <= i < hex_text_bytes(raw.bytes_hex)->Ok_0.len() && #[trigger] hex_text_bytes(
            raw.bytes_hex,
        )->Ok_0[i] == 0x0Cu8
    &&& exists|i: int| 0 <= i < raw.jp.len() && #[trigger] raw.jp[i] == '金'
}

proof fn lemma_shows_money(raw: RawView)
    ensures
        money_entry_fault(raw) is None <==> shows_money(raw),
{
    reveal_strlit("金");
    law_found_where_it_stands(raw.jp, "金"@);
    if hex_text_bytes(raw.bytes_hex) is Ok {
        lemma_occurs(hex_text_bytes(raw.bytes_hex)->Ok_0, 0x0C);
    }
    assert forall|i: int| 0 <= i < raw.jp.len() && #[trigger] raw.jp[i] == '金' implies stands_at(
        raw.jp,
        "金"@,
        i,
    ) by {
        assert(raw.jp.subrange(i, i + 1) =~= "金"@);
    }
    assert forall|p: int| #[trigger] stands_at(raw.jp, "金"@, p) implies raw.jp[p] == '金' by {
        assert(raw.jp.subrange(p, p + 1)[0] == '金');
    }
}

proof fn lemma_all_show_money(raws: Seq<RawView>, n: int)
    requires
        0 <= n <= raws.len(),
    ensures
        money_entries_fault(raws, n) is None <==> forall|r: int|
            0 <= r < n && (#[trigger] raws[r]).kind == Some("shop"@) ==> shows_money(raws[r]),
    decreases n,
{
    if n > 0 {
        lemma_all_show_money(raws, n - 1);
        lemma_shows_money(raws[n - 1]);
    }
}

/// The scripts of shops.
pub open spec fn shops(raws: Seq<RawView>) -> Set<int> {
    Set::new(|r: int| 0 <= r < raws.len() && raws[r].kind == Some("shop"@))
}

proof fn lemma_shops(raws: Seq<RawView>, n: int)
    requires
        0 <= n <= raws.len(),
    ensures
        shops(raws.take(n)).finite(),
        shop_count(raws, n) == shops(raws.take(n)).len(),
    decreases n,
{
    let here = shops(raws.take(n));
    if n == 0 {
        assert(here =~= Set::empty());
    } else {
        lemma_shops(raws, n - 1);
        let before = shops(raws.take(n - 1));
        if raws[n - 1].kind == Some("shop"@) {
            assert(here =~= before.insert(n - 1));
        } else {
            assert(here =~= before);
        }
    }
}

/// Where the font holds the picture of a code: eight bytes for each, from code 1 on.
pub open spec fn picture_of(code: int) -> int {
    0x19AFD + 8 * (code - 1)
}

/// The sources of money are accepted exactly if there are twelve scripts of shops, each of
/// them shows the sign for money, and the font of the ROM has a picture for its code.
pub proof fn law_money_sources(rom: Seq<u8>, raws: Seq<RawView>)
    ensures
        money_sources_fault(rom, raws) is None <==> {
            &&& shops(raws).len() == 12
            &&& forall|r: int|
                0 <= r < raws.len() && (#[trigger] raws[r]).kind == Some("shop"@) ==> shows_money(
                    raws[r],
                )
            &&& rom.len() >= picture_of(0x0C) + 8
            &&& exists|i: int|
                picture_of(0x0C) <= i < picture_of(0x0C) + 8 && #[trigger] rom[i] != 0
        },
{
    let n = raws.len() as int;
    lemma_shops(raws, n);
    assert(raws.take(n) =~= raws);
    lemma_all_show_money(raws, n);
}

/// A picture is listed at every place where the ROM holds it, and nowhere else, in order.
pub proof fn law_picture_places(rom: Seq<u8>, glyph: Seq<u8>, n: int, at: int)
    requires
        0 <= n,
        n + 7 <= rom.len(),
        glyph.len() == 8,
    ensures
        glyph_offsets(rom, glyph, n).contains(at) <==> 0 <= at < n && forall|k: int|
            0 <= k < 8 ==> rom[at + k] == #[trigger] glyph[k],
        forall|i: int, j: int|
            0 <= i < j < glyph_offsets(rom, glyph, n).len() ==> #[trigger] glyph_offsets(
                rom,
                glyph,
                n,
            )[i] < #[trigger] glyph_offsets(rom, glyph, n)[j],
        forall|i: int|
            0 <= i < glyph_offsets(rom, glyph, n).len() ==> 0 <= #[trigger] glyph_offsets(
                rom,
                glyph,
                n,
            )[i] < n,
    decreases n,
{
    let all = glyph_offsets(rom, glyph, n);
    if n > 0 {
        let before = glyph_offsets(rom, glyph, n - 1);
        law_picture_places(rom, glyph, n - 1, at);
        let part = rom.subrange(n - 1, n + 7);
        if part == glyph {
            assert forall|k: int| 0 <= k < 8 implies rom[n - 1 + k] == #[trigger] glyph[k] by {
                assert(part[k] == rom[n - 1 + k]);
            }
            assert(all == before.push(n - 1));
            assert(all[before.len() as int] == n - 1);
            if before.contains(at) {
                let i = choose|i: int| 0 <= i < before.len() && before[i] == at;
                assert(all[i] == at);
            }
            if all.contains(at) && at != n - 1 {
                let i = choose|i: int| 0 <= i < all.len() && all[i] == at;
                assert(before[i] == at);
            }
        } else if at == n - 1 {
            if forall|k: int| 0 <= k < 8 ==> rom[at + k] == #[trigger] glyph[k] {
                assert forall|k: int| 0 <= k < 8 implies #[trigger] part[k] == glyph[k] by {
                    assert(rom[at + k] == glyph[k]);
                }
                assert(part =~= glyph);
            }
        }
    }
}

/// Signs for money are counted over the scripts of shops.
pub proof fn law_money_counted(raws: Seq<RawView>, n: int)
    requires
        0 < n <= raws.len(),
    ensures
        money_total(raws, 0) == 0,
        raws[n - 1].kind != Some("shop"@) ==> money_total(raws, n) == money_total(raws, n - 1),
        raws[n - 1].kind == Some("shop"@) ==> money_total(raws, n) - money_total(raws, n - 1)
            == positions(hex_text_bytes(raws[n - 1].bytes_hex)->Ok_0, 0x0C).len(),
{
    law_occurrences(hex_text_bytes(raws[n - 1].bytes_hex)->Ok_0, 0x0C);
}

/// Whether every surface passes, no two have the same name, and each shop script has exactly
/// one shop text.
pub open spec fn is_good_catalogue(list: Seq<SurfaceView>, raws: Seq<RawView>) -> bool {
    &&& forall|i: int|
        0 <= i < list.len() ==> surface_fault(#[trigger] list[i]) is None && source_fault(
            list[i],
            raws,
        ) is None
    &&& forall|i: int, j: int|
        0 <= i < j < list.len() ==> (#[trigger] list[i]).id != (#[trigger] list[j]).id
    &&& forall|r: int|
        0 <= r < raws.len() && (#[trigger] raws[r]).kind == Some("shop"@) ==> exists|i: int|
            0 <= i < list.len() && is_text_of(#[trigger] list[i], raws[r].id) && forall|j: int|
                0 <= j < list.len() && j != i ==> !is_text_of(#[trigger] list[j], raws[r].id)
}

proof fn lemma_listed_shop(raws: Seq<RawView>, n: int, k: int)
    requires
        0 <= n <= raws.len(),
        0 <= k < shop_ids(raws, n).len(),
    ensures
        exists|r: int|
            0 <= r < n && (#[trigger] raws[r]).kind == Some("shop"@) && raws[r].id == shop_ids(
                raws,
                n,
            )[k].0,
    decreases n,
{
    if n > 0 {
        let before = shop_ids(raws, n - 1);
        if raws[n - 1].is_shop() {
            let id = raws[n - 1].id;
            lemma_from_added(before, id, k);
            if shop_ids(raws, n)[k].0 == id {
                assert(raws[n - 1].kind == Some("shop"@));
            } else {
                let i = choose|i: int|
                    0 <= i < before.len() && (#[trigger] before[i]).0 == shop_ids(raws, n)[k].0;
                lemma_listed_shop(raws, n - 1, i);
            }
        } else {
            lemma_listed_shop(raws, n - 1, k);
        }
    }
}

proof fn lemma_from_added(list: Seq<(Seq<char>, int)>, name: Seq<char>, k: int)
    requires
        0 <= k < add_name(list, name).len(),
    ensures
        add_name(list, name)[k].0 == name || exists|i: int|
            0 <= i < list.len() && (#[trigger] list[i]).0 == add_name(list, name)[k].0,
    decreases list.len(),
{
    let all = add_name(list, name);
    if list.len() == 0 {
    } else if name == list[0].0 {
        if k > 0 {
            assert(list[k].0 == all[k].0);
        }
    } else if crate::tags::comes_before(name, list[0].0) {
        if k > 0 {
            assert(list[k - 1].0 == all[k].0);
        }
    } else if k == 0 {
        assert(list[0].0 == all[0].0);
    } else {
        let rest = list.drop_first();
        let inner = add_name(rest, name);
        assert(all[k] == inner[k - 1]);
        lemma_from_added(rest, name, k - 1);
        if all[k].0 != name {
            let i = choose|i: int| 0 <= i < rest.len() && (#[trigger] rest[i]).0 == inner[k - 1].0;
            assert(list[i + 1].0 == all[k].0);
        }
    }
}

proof fn lemma_all_covered(list: Seq<SurfaceView>, ids: Seq<(Seq<char>, int)>, n: int)
    requires
        0 <= n <= ids.len(),
        forall|k: int|
            0 <= k < n ==> coverage(list, (#[trigger] ids[k]).0, list.len() as int) == 1,
    ensures
        coverage_fault(list, ids, n) is None,
    decreases n,
{
    if n > 0 {
        lemma_all_covered(list, ids, n - 1);
        assert(coverage(list, ids[n - 1].0, list.len() as int) == 1);
    }
}

/// A catalogue of the twelve shops passes exactly if every surface passes, no two have the
/// same name, and each shop script has exactly one shop text.
pub proof fn law_accepted_catalogue(list: Seq<SurfaceView>, raws: Seq<RawView>)
    requires
        shop_ids(raws, raws.len() as int).len() == 12,
    ensures
        surfaces_fault(list, raws) is None <==> is_good_catalogue(list, raws),
{
    let ids = shop_ids(raws, raws.len() as int);
    lemma_all_places(list, raws, list.len() as int);
    if surfaces_fault(list, raws) is None {
        law_passed_catalogue(list, raws);
    }
    if is_good_catalogue(list, raws) {
        assert forall|k: int| 0 <= k < 12 implies coverage(
            list,
            (#[trigger] ids[k]).0,
            list.len() as int,
        ) == 1 by {
            lemma_listed_shop(raws, raws.len() as int, k);
            let r = choose|r: int|
                0 <= r < raws.len() && (#[trigger] raws[r]).kind == Some("shop"@) && raws[r].id
                    == ids[k].0;
            assert(raws[r].kind == Some("shop"@));
            lemma_coverage_one(list, raws[r].id, list.len() as int);
        }
        lemma_all_covered(list, ids, 12);
    }
}

/// What stands against a release is written out one to a line.
pub proof fn law_written_lines(list: Seq<Seq<char>>)
    ensures
        lines_joined(list) == joined(list, "\n"@),
    decreases list.len(),
{
    if list.len() > 1 {
        law_written_lines(list.drop_last());
    }
}

} // verus!
