//! What interface labels look like in a build.
use vstd::prelude::*;
use crate::error::Fault;
use crate::build_rom::{
    lemma_labels_in_place_sound, lemma_labels_moved_sound, lemma_size_sound, Job,
};
use crate::build_ui::ui_chain;
use crate::bytes::word_at;
use crate::font::GlyphFont;
use crate::header::{law_checksum_round_trip, with_checksum};
use crate::lzss::{copied, law_lossless, lemma_copied_adds, packed, unpack};
use crate::patching::{
    law_written_is_there, law_written_stays, lemma_after, lemma_begin_sound, Progress,
};
use crate::poc::fresh;
use crate::read_back::{built, lemma_stages, money_stage, succeeds};
use crate::rom::{expanded, size_marked};
use crate::tracked_rom::{lemma_written_wf, ExpectView};
use crate::ui_labels::{
    blob_entry, inplace_label, label_in_place, labels_in_place, labels_moved,
    law_resource_bank_streams, resource_bank, retyped, set_blob, set_labels, set_xs,
    ui_labels_applied, FLEE_ASSET_LOAD_ORIG, SAVE_ASSET_LOAD_ORIG,
};

verus! {

// ---------------------------------------------------------------------------
// Blocks
// ---------------------------------------------------------------------------

/// Where the block of label set `k` starts.
pub open spec fn block_start(k: int) -> int {
    blob_entry(set_blob(k)).addr
}

/// Where the block of label set `k` ends in a ROM.
pub open spec fn block_end(rom: Seq<u8>, k: int) -> int {
    unpack(rom, block_start(k), Seq::empty()).1
}

/// Whether a byte belongs to the block of label set `k`.
pub open spec fn in_block(rom: Seq<u8>, k: int, i: int) -> bool {
    block_start(k) <= i < block_end(rom, k)
}

/// Whether the blocks of two label sets have no byte in common.
pub open spec fn are_apart(rom: Seq<u8>, j: int, k: int) -> bool {
    block_end(rom, j) <= block_start(k) || block_end(rom, k) <= block_start(j)
}

/// Whether no two blocks that get labels have a byte in common.
pub open spec fn blocks_apart(rom: Seq<u8>) -> bool {
    forall|j: int, k: int| 0 <= j < k < 9 ==> #[trigger] are_apart(rom, j, k)
}

/// A block of a ROM with the labels of set `k`.
pub open spec fn relabelled_set(rom: Seq<u8>, k: int, font: GlyphFont) -> Result<
    Seq<u8>,
    Fault,
> {
    retyped(rom, blob_entry(set_blob(k)), set_labels(k), set_xs(k), font)
}

/// Whether a ROM shows the block of label set `k` of another ROM with its new labels, in
/// no more room than before.
pub open spec fn is_shown(rom: Seq<u8>, source: Seq<u8>, k: int, font: GlyphFont) -> bool {
    &&& relabelled_set(source, k, font) == Ok::<Seq<u8>, Fault>(
        unpack(rom, block_start(k), Seq::empty()).0,
    )
    &&& block_end(rom, k) <= block_end(source, k)
}

/// Whether the old block of label set `k` is as it was.
pub open spec fn is_kept(rom: Seq<u8>, source: Seq<u8>, k: int) -> bool {
    forall|i: int| in_block(source, k, i) ==> #[trigger] rom[i] == source[i]
}

/// Whether the bank of moved blocks holds the save and flee buttons of a ROM with their
/// new labels, and its table leads to the descriptors in front of them.
pub open spec fn are_moved(rom: Seq<u8>, source: Seq<u8>, font: GlyphFont) -> bool {
    let save = relabelled_set(source, 7, font);
    let flee = relabelled_set(source, 8, font);
    &&& save is Ok
    &&& flee is Ok
    &&& ({
        let flee_at = 0xB0016 + packed(save->Ok_0).len() as int;
        &&& unpack(rom, 0xB0013, Seq::empty()).0 == save->Ok_0
        &&& unpack(rom, flee_at, Seq::empty()).0 == flee->Ok_0
        &&& word_at(rom, 0xB0004) == 0x4010
        &&& word_at(rom, 0xB0006) == 0x4000 + (flee_at - 3 - 0xB0000)
    })
}

/// Whether a ROM shows the blocks of another ROM with their new labels: seven in place,
/// two moved, for which the game loads the new numbers.
pub open spec fn labels_show(
    rom: Seq<u8>,
    source: Seq<u8>,
    font: GlyphFont,
    save_load: Seq<u8>,
    flee_load: Seq<u8>,
) -> bool {
    &&& rom.len() == source.len()
    &&& forall|k: int| 0 <= k < 7 ==> #[trigger] is_shown(rom, source, k, font)
    &&& are_moved(rom, source, font)
    &&& is_kept(rom, source, 7)
    &&& is_kept(rom, source, 8)
    &&& 0x1A2F5 + save_load.len() <= rom.len()
    &&& 0x1A33E + flee_load.len() <= rom.len()
    &&& rom.subrange(0x1A2F5, (0x1A2F5 + save_load.len()) as int) == save_load
    &&& rom.subrange(0x1A33E, (0x1A33E + flee_load.len()) as int) == flee_load
}

// ---------------------------------------------------------------------------
// Reading depends on the block alone
// ---------------------------------------------------------------------------

proof fn lemma_unpack_local(a: Seq<u8>, b: Seq<u8>, i: int, out: Seq<u8>)
    requires
        a.len() == b.len(),
        0 <= i,
        forall|k: int| i <= k < unpack(a, i, out).1 ==> #[trigger] b[k] == a[k],
    ensures
        unpack(b, i, out) == unpack(a, i, out),
        i <= unpack(a, i, out).1,
    decreases a.len() - i,
{
    lemma_unpack_reach(a, i, out);
    if i < a.len() {
        assert(i < unpack(a, i, out).1) by {
            lemma_first_read(a, i, out);
        }
        assert(b[i] == a[i]);
        if a[i] != 0 && a[i] < 0x80 {
            let end = if i + 1 + a[i] < a.len() {
                i + 1 + a[i]
            } else {
                a.len() as int
            };
            let next = out + a.subrange(i + 1, end);
            lemma_unpack_reach(a, end, next);
            assert(b.subrange(i + 1, end) =~= a.subrange(i + 1, end));
            lemma_unpack_local(a, b, end, next);
        } else if a[i] >= 0x80 && i + 1 < a.len() {
            let next = copied(out, a[i + 1] + 1, a[i] - 0x80 + 3);
            lemma_unpack_reach(a, i + 2, next);
            assert(b[i + 1] == a[i + 1]);
            lemma_unpack_local(a, b, i + 2, next);
        }
    }
}

proof fn lemma_first_read(data: Seq<u8>, i: int, out: Seq<u8>)
    requires
        0 <= i < data.len(),
    ensures
        i < unpack(data, i, out).1,
{
    if data[i] != 0 && data[i] < 0x80 {
        let end = if i + 1 + data[i] < data.len() {
            i + 1 + data[i]
        } else {
            data.len() as int
        };
        lemma_unpack_reach(data, end, out + data.subrange(i + 1, end));
    } else if data[i] >= 0x80 && i + 1 < data.len() {
        lemma_unpack_reach(data, i + 2, copied(out, data[i + 1] + 1, data[i] - 0x80 + 3));
    }
}

/// A stream is at most twice as long as what it decodes to, but for its end.
proof fn lemma_unpack_reach(data: Seq<u8>, i: int, out: Seq<u8>)
    requires
        0 <= i,
    ensures
        i <= unpack(data, i, out).1,
        out.len() <= unpack(data, i, out).0.len(),
        unpack(data, i, out).1 - i <= 2 * (unpack(data, i, out).0.len() - out.len()) + 2,
    decreases data.len() - i,
{
    if i < data.len() && data[i] != 0 {
        if data[i] < 0x80 {
            let end = if i + 1 + data[i] < data.len() {
                i + 1 + data[i]
            } else {
                data.len() as int
            };
            let next = out + data.subrange(i + 1, end);
            lemma_unpack_reach(data, end, next);
            if end == i + 1 {
                assert(unpack(data, end, next) == (next, end));
            }
        } else if i + 1 < data.len() {
            let next = copied(out, data[i + 1] + 1, data[i] - 0x80 + 3);
            lemma_copied_adds(out, data[i + 1] + 1, data[i] - 0x80 + 3);
            lemma_unpack_reach(data, i + 2, next);
        }
    }
}

proof fn lemma_block_local(a: Seq<u8>, b: Seq<u8>, k: int, font: GlyphFont)
    requires
        a.len() == b.len(),
        0 <= k < 9,
        forall|i: int| in_block(a, k, i) ==> #[trigger] b[i] == a[i],
    ensures
        unpack(b, block_start(k), Seq::empty()) == unpack(a, block_start(k), Seq::empty()),
        block_end(b, k) == block_end(a, k),
        relabelled_set(b, k, font) == relabelled_set(a, k, font),
{
    lemma_unpack_local(a, b, block_start(k), Seq::empty());
}

proof fn lemma_apart_local(a: Seq<u8>, b: Seq<u8>)
    requires
        blocks_apart(a),
        forall|k: int| 0 <= k < 9 ==> block_end(b, k) == #[trigger] block_end(a, k),
    ensures
        blocks_apart(b),
{
    assert forall|j: int, k: int| 0 <= j < k < 9 implies #[trigger] are_apart(b, j, k) by {
        assert(are_apart(a, j, k));
        assert(block_end(b, j) == block_end(a, j));
        assert(block_end(b, k) == block_end(a, k));
    }
}

// ---------------------------------------------------------------------------
// Labels in place
// ---------------------------------------------------------------------------

/// Whether a byte belongs to none of the blocks of the first `n` label sets.
spec fn is_outside(rom: Seq<u8>, n: int, i: int) -> bool {
    forall|k: int| 0 <= k < n ==> !#[trigger] in_block(rom, k, i)
}

proof fn lemma_in_place_keeps(p: Progress, font: GlyphFont, n: int)
    requires
        p.sound(p.rom.data),
        blocks_apart(p.rom.data),
        0 <= n <= 7,
        labels_in_place(p, font, n).fault is None,
    ensures
        labels_in_place(p, font, n).rom.data.len() == p.rom.data.len(),
        forall|i: int|
            0 <= i < p.rom.data.len() && is_outside(p.rom.data, n, i) ==> #[trigger] labels_in_place(
                p,
                font,
                n,
            ).rom.data[i] == p.rom.data[i],
        forall|k: int|
            n <= k < 9 ==> {
                &&& #[trigger] block_end(labels_in_place(p, font, n).rom.data, k) == block_end(
                    p.rom.data,
                    k,
                )
                &&& relabelled_set(labels_in_place(p, font, n).rom.data, k, font)
                    == relabelled_set(p.rom.data, k, font)
                &&& is_kept(labels_in_place(p, font, n).rom.data, p.rom.data, k)
            },
    decreases n,
{
    let source = p.rom.data;
    let q = labels_in_place(p, font, n);
    lemma_labels_in_place_sound(p, font, source, 0, n);
    if n > 0 {
        let before = labels_in_place(p, font, n - 1);
        let blob = blob_entry(set_blob(n - 1));
        assert(q == label_in_place(before, n - 1, font));
        assert(before.fault is None);
        lemma_in_place_keeps(p, font, n - 1);
        assert(block_end(before.rom.data, n - 1) == block_end(source, n - 1));
        let stream = packed(relabelled_set(before.rom.data, n - 1, font)->Ok_0);
        assert(q.rom == before.rom.written(inplace_label(blob), blob.addr, stream));
        assert(blob.addr + stream.len() <= block_end(source, n - 1));
        assert forall|i: int| 0 <= i < source.len() && is_outside(source, n, i) implies #[trigger] q.rom.data[i]
            == source[i] by {
            assert(!in_block(source, n - 1, i));
            assert forall|k: int| 0 <= k < n - 1 implies !#[trigger] in_block(source, k, i) by {}
            assert(is_outside(source, n - 1, i));
            assert(before.rom.data[i] == source[i]);
        }
    }
    assert forall|k: int| n <= k < 9 implies {
        &&& #[trigger] block_end(q.rom.data, k) == block_end(source, k)
        &&& relabelled_set(q.rom.data, k, font) == relabelled_set(source, k, font)
        &&& is_kept(q.rom.data, source, k)
    } by {
        lemma_block_within(source, k);
        assert forall|i: int| in_block(source, k, i) implies #[trigger] q.rom.data[i] == source[i] by {
            assert forall|m: int| 0 <= m < n implies !#[trigger] in_block(source, m, i) by {
                assert(are_apart(source, m, k));
            }
            assert(is_outside(source, n, i));
        }
        lemma_block_local(source, q.rom.data, k, font);
    }
}

proof fn lemma_block_within(rom: Seq<u8>, k: int)
    ensures
        block_end(rom, k) <= rom.len() || block_end(rom, k) == block_start(k),
        0x8C30 <= block_start(k),
{
    lemma_read_end(rom, block_start(k), Seq::empty());
}

proof fn lemma_read_end(data: Seq<u8>, i: int, out: Seq<u8>)
    requires
        0 <= i,
    ensures
        unpack(data, i, out).1 <= data.len() || unpack(data, i, out).1 == i,
    decreases data.len() - i,
{
    if i < data.len() && data[i] != 0 {
        if data[i] < 0x80 {
            let end = if i + 1 + data[i] < data.len() {
                i + 1 + data[i]
            } else {
                data.len() as int
            };
            lemma_read_end(data, end, out + data.subrange(i + 1, end));
        } else if i + 1 < data.len() {
            lemma_read_end(data, i + 2, copied(out, data[i + 1] + 1, data[i] - 0x80 + 3));
        }
    }
}

proof fn lemma_shown(p: Progress, font: GlyphFont, k: int, f: Progress)
    requires
        p.sound(p.rom.data),
        blocks_apart(p.rom.data),
        0 <= k < 7,
        f.after(labels_in_place(p, font, 7)),
        f.fault is None,
    ensures
        is_shown(f.rom.data, p.rom.data, k, font),
{
    let source = p.rom.data;
    let rom = f.rom.data;
    let blob = blob_entry(set_blob(k));
    let before = labels_in_place(p, font, k);
    let next = labels_in_place(p, font, k + 1);
    lemma_labels_in_place_sound(p, font, source, k, k);
    lemma_labels_in_place_sound(p, font, source, k, k + 1);
    lemma_labels_in_place_sound(p, font, source, k + 1, 7);
    lemma_after(next, labels_in_place(p, font, 7), f);
    assert(next == label_in_place(before, k, font));
    assert(next.fault is None);
    assert(before.fault is None);
    lemma_in_place_keeps(p, font, k);
    assert(block_end(before.rom.data, k) == block_end(source, k));
    let tiles = relabelled_set(before.rom.data, k, font)->Ok_0;
    let stream = packed(tiles);
    let end = blob.addr + stream.len();
    law_written_is_there(
        before,
        inplace_label(blob),
        blob.addr,
        stream,
        ExpectView::Bytes(before.rom.data.subrange(blob.addr, end)),
        f,
    );
    law_lossless(rom.take(blob.addr), tiles, rom.skip(end));
    assert(rom.take(blob.addr) + rom.subrange(blob.addr, end) + rom.skip(end) =~= rom);
}

// ---------------------------------------------------------------------------
// Moved labels
// ---------------------------------------------------------------------------

proof fn lemma_moved(p: Progress, font: GlyphFont, save_load: Seq<u8>, flee_load: Seq<u8>)
    requires
        p.rom.wf(),
        labels_moved(p, font, save_load, flee_load).fault is None,
    ensures
        ({
            let rom = labels_moved(p, font, save_load, flee_load).rom.data;
            &&& rom.len() == p.rom.data.len()
            &&& are_moved(rom, p.rom.data, font)
            &&& 0x1A2F5 + save_load.len() <= rom.len()
            &&& 0x1A33E + flee_load.len() <= rom.len()
            &&& rom.subrange(0x1A2F5, (0x1A2F5 + save_load.len()) as int) == save_load
            &&& rom.subrange(0x1A33E, (0x1A33E + flee_load.len()) as int) == flee_load
            &&& save_load.len() == 3 && flee_load.len() == 3 ==> forall|i: int|
                0 <= i < 0x1A2F5 ==> #[trigger] rom[i] == p.rom.data[i]
        }),
{
    let save = relabelled_set(p.rom.data, 7, font)->Ok_0;
    let flee = relabelled_set(p.rom.data, 8, font)->Ok_0;
    let bank = resource_bank(packed(save), packed(flee));
    let known = ExpectView::FreeSpace(0xFF);
    let save_known = ExpectView::Bytes(SAVE_ASSET_LOAD_ORIG@);
    let flee_known = ExpectView::Bytes(FLEE_ASSET_LOAD_ORIG@);
    let a = p.free("ui relocated resource bank 44"@, 0xB0000, bank);
    let b = a.expect("ui save asset id 0217 -> 2C00"@, 0x1A2F5, save_load, save_known);
    let c = b.expect("ui flee asset id 0218 -> 2C01"@, 0x1A33E, flee_load, flee_known);
    assert(labels_moved(p, font, save_load, flee_load) == c);
    lemma_written_wf(p.rom, "ui relocated resource bank 44"@, 0xB0000, bank);
    lemma_written_wf(a.rom, "ui save asset id 0217 -> 2C00"@, 0x1A2F5, save_load);
    law_written_stays(a, "ui save asset id 0217 -> 2C00"@, 0x1A2F5, save_load, save_known);
    law_written_stays(b, "ui flee asset id 0218 -> 2C01"@, 0x1A33E, flee_load, flee_known);
    lemma_after(a, b, c);
    crate::patching::lemma_after_itself(c);
    law_written_is_there(p, "ui relocated resource bank 44"@, 0xB0000, bank, known, c);
    law_written_is_there(a, "ui save asset id 0217 -> 2C00"@, 0x1A2F5, save_load, save_known, c);
    law_written_is_there(b, "ui flee asset id 0218 -> 2C01"@, 0x1A33E, flee_load, flee_known, c);
    law_resource_bank_streams(save, flee);
    let rom = c.rom.data;
    let seen = rom.subrange(0xB0000, (0xB0000 + bank.len()) as int);
    assert(rom[0xB0004] == seen[4]);
    assert(rom[0xB0005] == seen[5]);
    assert(rom[0xB0006] == seen[6]);
    assert(rom[0xB0007] == seen[7]);
}

/// Once labels have been applied to a ROM whose blocks have no bytes in common, it shows
/// the blocks with their new labels: those in place within their old room, the moved ones
/// in their bank, with the old blocks of these as they were and the new loads in place.
pub proof fn law_labels_show(
    p: Progress,
    font: GlyphFont,
    save_load: Seq<u8>,
    flee_load: Seq<u8>,
)
    requires
        p.rom.wf(),
        blocks_apart(p.rom.data),
        save_load.len() == 3,
        flee_load.len() == 3,
        ui_labels_applied(p, font, save_load, flee_load).fault is None,
    ensures
        labels_show(
            ui_labels_applied(p, font, save_load, flee_load).rom.data,
            p.rom.data,
            font,
            save_load,
            flee_load,
        ),
{
    let source = p.rom.data;
    let q = labels_in_place(p, font, 7);
    let f = ui_labels_applied(p, font, save_load, flee_load);
    let rom = f.rom.data;
    assert(p.sound(source));
    assert(f == labels_moved(q, font, save_load, flee_load));
    assert(q.fault is None);
    lemma_labels_in_place_sound(p, font, source, 0, 7);
    lemma_labels_moved_sound(q, font, source, save_load, flee_load);
    lemma_in_place_keeps(p, font, 7);
    lemma_moved(q, font, save_load, flee_load);
    assert(block_end(q.rom.data, 7) == block_end(source, 7));
    assert(block_end(q.rom.data, 8) == block_end(source, 8));
    assert forall|k: int| 0 <= k < 7 implies #[trigger] is_shown(rom, source, k, font) by {
        lemma_shown(p, font, k, f);
    }
    lemma_unpack_reach(source, block_start(7), Seq::empty());
    lemma_unpack_reach(source, block_start(8), Seq::empty());
    assert(relabelled_set(source, 7, font) is Ok);
    assert(relabelled_set(source, 8, font) is Ok);
    assert forall|i: int| in_block(source, 7, i) implies #[trigger] rom[i] == source[i] by {
        assert(q.rom.data[i] == source[i]);
    }
    assert forall|i: int| in_block(source, 8, i) implies #[trigger] rom[i] == source[i] by {
        assert(q.rom.data[i] == source[i]);
    }
}

// ---------------------------------------------------------------------------
// Builds
// ---------------------------------------------------------------------------

proof fn lemma_read_spared(rom: Seq<u8>, at: int)
    requires
        0x7FFC <= at,
        rom.len() > 0x7FFB,
    ensures
        unpack(with_checksum(rom), at, Seq::empty()) == unpack(rom, at, Seq::empty()),
{
    law_checksum_round_trip(rom);
    lemma_read_end(rom, at, Seq::empty());
    let now = with_checksum(rom);
    assert forall|k: int| at <= k < unpack(rom, at, Seq::empty()).1 implies #[trigger] now[k]
        == rom[k] by {}
    lemma_unpack_local(rom, now, at, Seq::empty());
}

proof fn lemma_show_with_checksum(
    rom: Seq<u8>,
    source: Seq<u8>,
    font: GlyphFont,
    save_load: Seq<u8>,
    flee_load: Seq<u8>,
)
    requires
        labels_show(rom, source, font, save_load, flee_load),
        rom.len() > 0xB0007,
    ensures
        labels_show(with_checksum(rom), source, font, save_load, flee_load),
{
    let now = with_checksum(rom);
    law_checksum_round_trip(rom);
    assert forall|k: int| 0 <= k < 7 implies #[trigger] is_shown(now, source, k, font) by {
        assert(is_shown(rom, source, k, font));
        lemma_block_within(rom, k);
        lemma_read_spared(rom, block_start(k));
    }
    lemma_read_spared(rom, 0xB0013);
    lemma_read_spared(rom, 0xB0016 + packed(relabelled_set(source, 7, font)->Ok_0).len() as int);
    lemma_block_within(source, 7);
    lemma_block_within(source, 8);
    assert forall|i: int| in_block(source, 7, i) implies #[trigger] now[i] == source[i] by {
        assert(rom[i] == source[i]);
    }
    assert forall|i: int| in_block(source, 8, i) implies #[trigger] now[i] == source[i] by {
        assert(rom[i] == source[i]);
    }
    assert(now.subrange(0x1A2F5, (0x1A2F5 + save_load.len()) as int) =~= rom.subrange(
        0x1A2F5,
        (0x1A2F5 + save_load.len()) as int,
    ));
    assert(now.subrange(0x1A33E, (0x1A33E + flee_load.len()) as int) =~= rom.subrange(
        0x1A33E,
        (0x1A33E + flee_load.len()) as int,
    ));
}

/// Whether no recorded write touches a block that gets labels.
pub open spec fn blocks_untouched(p: Progress, source: Seq<u8>) -> bool {
    forall|k: int, i: int|
        0 <= k < 9 && #[trigger] in_block(source, k, i) ==> !p.rom.covered(i)
}

proof fn lemma_show_of_source(
    p: Progress,
    source: Seq<u8>,
    font: GlyphFont,
    save_load: Seq<u8>,
    flee_load: Seq<u8>,
)
    requires
        p.sound(source),
        blocks_apart(source),
        blocks_untouched(p, source),
        save_load.len() == 3,
        flee_load.len() == 3,
        ui_labels_applied(p, font, save_load, flee_load).fault is None,
    ensures
        labels_show(
            with_checksum(ui_labels_applied(p, font, save_load, flee_load).rom.data),
            source,
            font,
            save_load,
            flee_load,
        ),
{
    let before = p.rom.data;
    let rom = ui_labels_applied(p, font, save_load, flee_load).rom.data;
    assert forall|k: int| 0 <= k < 9 implies {
        &&& block_end(before, k) == #[trigger] block_end(source, k)
        &&& relabelled_set(before, k, font) == relabelled_set(source, k, font)
        &&& is_kept(before, source, k)
    } by {
        lemma_block_within(source, k);
        assert forall|i: int| in_block(source, k, i) implies #[trigger] before[i] == source[i] by {
            assert(!p.rom.covered(i));
        }
        lemma_block_local(source, before, k, font);
    }
    lemma_apart_local(source, before);
    law_labels_show(p, font, save_load, flee_load);
    assert(block_end(before, 7) == block_end(source, 7));
    assert(block_end(before, 8) == block_end(source, 8));
    assert forall|k: int| 0 <= k < 7 implies #[trigger] is_shown(rom, source, k, font) by {
        assert(is_shown(rom, before, k, font));
        assert(block_end(before, k) == block_end(source, k));
    }
    assert forall|i: int| in_block(source, 7, i) implies #[trigger] rom[i] == source[i] by {
        assert(in_block(before, 7, i));
        assert(before[i] == source[i]);
    }
    assert forall|i: int| in_block(source, 8, i) implies #[trigger] rom[i] == source[i] by {
        assert(in_block(before, 8, i));
        assert(before[i] == source[i]);
    }
    assert(rom.len() >= 0xB4000);
    lemma_show_with_checksum(rom, source, font, save_load, flee_load);
}

/// A build with glyphs shows the blocks of the source with their new labels, where these
/// blocks have no bytes in common and no other write of the build touches them.
pub proof fn law_build_labels_show(original: Seq<u8>, j: Job)
    requires
        succeeds(original, j),
        blocks_apart(original),
        blocks_untouched(money_stage(original, j), original),
        j.save_load.len() == 3,
        j.flee_load.len() == 3,
    ensures
        labels_show(built(original, j), original, j.font, j.save_load, j.flee_load),
{
    lemma_stages(original, j);
    lemma_show_of_source(
        money_stage(original, j),
        original,
        j.font,
        j.save_load,
        j.flee_load,
    );
}

/// A build with interface labels only shows the blocks of the expanded source with their
/// new labels, where these blocks have no bytes in common.
pub proof fn law_ui_build_labels_show(
    data: Seq<u8>,
    font: GlyphFont,
    save_load: Seq<u8>,
    flee_load: Seq<u8>,
)
    requires
        ui_chain(data, font, save_load, flee_load).fault is None,
        blocks_apart(expanded(data)),
        save_load.len() == 3,
        flee_load.len() == 3,
    ensures
        labels_show(
            with_checksum(ui_chain(data, font, save_load, flee_load).rom.data),
            expanded(data),
            font,
            save_load,
            flee_load,
        ),
{
    let source = expanded(data);
    let p = size_marked(fresh(data), source);
    lemma_begin_sound(source);
    lemma_size_sound(fresh(data), source, source);
    assert forall|k: int, i: int| 0 <= k < 9 && #[trigger] in_block(source, k, i) implies !p.rom.covered(
        i,
    ) by {
        lemma_block_within(source, k);
        assert(i != 0x7FFF);
    }
    lemma_show_of_source(p, source, font, save_load, flee_load);
}

} // verus!
