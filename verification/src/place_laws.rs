//! Where things stand: pointers, free stretches and the tables of the game.
use vstd::prelude::*;
use crate::build_rom::{
    encoded_index, entry_index, law_cutscenes_keep_to_their_stretches, placing, region_image,
    string_for,
};
use crate::bytes::{le16, word_at};
use crate::pointers::{
    cutscene_pointer_at, largest_ff_run, longest_run, pointer_target, pointer_to, region_bank,
    region_pointer_at, region_pointer_to, region_pointers, region_relocation, region_resource,
    region_table, script_count, word,
};
use crate::rom::source_drift;
use crate::runs::{has_value, lemma_runs_cover, lemma_runs_shape, runs};
use crate::scan_laws::{lemma_apart, lemma_runs_end};
use crate::script::{bytes_of, EntryView};
use crate::translation::EncodedView;
use crate::ui_labels::resource_bank;

verus! {

// ---------------------------------------------------------------------------
// Pointers
// ---------------------------------------------------------------------------

/// A number is read from two bytes, the low one first, wherever both are there.
pub proof fn law_words_in_bytes(data: Seq<u8>, offset: int)
    requires
        0 <= offset,
    ensures
        word(data, offset) is Ok <==> offset + 2 <= data.len(),
        word(data, offset) matches Ok(v) ==> v % 256 == data[offset] && v / 256 == data[offset + 1],
{
}

/// An offset has a pointer exactly if it lies in the bank and the pointer fits in sixteen
/// bits. The pointer leads back to the offset and lies as far into the slot as the offset
/// lies into the bank.
pub proof fn law_pointers(bank_base: int, offset: int, slot_base: int)
    requires
        0 <= bank_base,
        0 <= slot_base,
    ensures
        pointer_to(bank_base, offset, slot_base) is Ok <==> bank_base
            <= offset && offset - bank_base < 0x4000 && slot_base + offset - bank_base < 0x1_0000,
        pointer_to(bank_base, offset, slot_base) matches Ok(p) ==> p - slot_base == offset
            - bank_base && pointer_target(bank_base, p, slot_base) == Ok::<
            int,
            crate::error::Fault,
        >(offset),
{
}

/// A pointer leads as far into the bank as it lies into the slot; one below the slot leads
/// nowhere.
pub proof fn law_pointer_targets(bank_base: int, ptr: int, slot_base: int)
    ensures
        pointer_target(bank_base, ptr, slot_base) is Ok <==> ptr >= slot_base,
        pointer_target(bank_base, ptr, slot_base) matches Ok(at) ==> at - bank_base == ptr
            - slot_base,
{
}

/// There are 168 pointers to cutscenes, two bytes each, from `0x1B162` on.
pub proof fn law_cutscene_pointers(index: int)
    requires
        0 <= index,
    ensures
        cutscene_pointer_at(index) is Ok <==> index < 168,
        cutscene_pointer_at(0)->Ok_0 == 0x1B162,
        index < 167 ==> cutscene_pointer_at(index + 1)->Ok_0 == cutscene_pointer_at(index)->Ok_0 + 2,
        cutscene_pointer_at(index) matches Ok(at) ==> 0x1B162 <= at < 0x1B162 + 2 * 168,
{
}

/// Each region has two bytes in a table at `0x1A069`: the number of its resource and, behind
/// it, the number of the bank of sixteen kilobytes that holds it.
pub proof fn law_region_tables(rom: Seq<u8>, region: int)
    requires
        0 <= region,
    ensures
        region_resource(rom, region) is Ok <==> 0x1A069 + 2 * (region + 1) <= rom.len(),
        region_bank(rom, region) is Ok <==> 0x1A069 + 2 * (region + 1) <= rom.len(),
        region_resource(rom, region) matches Ok(id) ==> id == rom[0x1A069 + 2 * region],
        region_bank(rom, region) matches Ok(base) ==> base == 0x4000 * rom[0x1A069 + 2 * region
            + 1],
{
}

/// The pointers of a region stand where the pointer of its resource leads. That pointer is
/// in the bank's own list, behind its first four bytes, and is one for the slot at `0x4000`.
pub proof fn law_region_pointer_table(rom: Seq<u8>, region: int)
    requires
        0 <= region,
        region_table(rom, region) is Ok,
    ensures
        ({
            let base = region_bank(rom, region)->Ok_0;
            let id = region_resource(rom, region)->Ok_0;
            let ptr = word_at(rom, base + 4 + 2 * id);
            &&& region_bank(rom, region) is Ok
            &&& ptr >= 0x4000
            &&& region_table(rom, region)->Ok_0 - base == ptr - 0x4000
        }),
{
}

/// A region's pointers are two bytes each, one for each of its scripts, and lead into the
/// region's bank through the slot at `0x4000`.
pub proof fn law_region_pointers(rom: Seq<u8>, region: int, index: int, offset: int)
    requires
        0 <= region,
        0 <= index,
        region_table(rom, region) is Ok,
    ensures
        region_pointer_at(rom, region, index) is Ok <==> region < 11 && index < script_count(region),
        region_pointer_at(rom, region, index) matches Ok(at) ==> at == region_table(
            rom,
            region,
        )->Ok_0 + index + index,
        region_pointer_to(rom, region, offset) is Ok <==> region_bank(rom, region)->Ok_0 <= offset
            && offset < region_bank(rom, region)->Ok_0 + 0x4000,
        region_pointer_to(rom, region, offset) matches Ok(p) ==> 0x4000 <= p < 0x8000 && p - 0x4000
            == offset - region_bank(rom, region)->Ok_0,
{
}

/// The pointers of a region are read from its table in order.
pub proof fn law_region_pointers_read(rom: Seq<u8>, region: int, n: int, i: int)
    requires
        0 <= i < n,
        region_pointers(rom, region, n) is Ok,
    ensures
        region_pointers(rom, region, n)->Ok_0.len() == n,
        region_pointers(rom, region, n)->Ok_0[i] == word_at(
            rom,
            region_table(rom, region)->Ok_0 + i + i,
        ),
    decreases n,
{
    if n > 1 {
        law_region_pointers_read(rom, region, n - 1, if i < n - 1 {
            i
        } else {
            0
        });
    } else {
        assert(region_pointers(rom, region, 0)->Ok_0 =~= Seq::<int>::empty());
    }
}

// ---------------------------------------------------------------------------
// Free stretches
// ---------------------------------------------------------------------------

proof fn lemma_longest(list: Seq<(int, int)>)
    ensures
        longest_run(list) is None <==> list.len() == 0,
        longest_run(list) matches Some(best) ==> exists|k: int|
            0 <= k < list.len() && #[trigger] list[k] == best && forall|j: int|
                0 <= j < list.len() ==> {
                    &&& (#[trigger] list[j]).1 - list[j].0 <= best.1 - best.0
                    &&& j < k ==> list[j].1 - list[j].0 < best.1 - best.0
                },
    decreases list.len(),
{
    if list.len() > 0 {
        let front = list.drop_last();
        let n = list.len() - 1;
        lemma_longest(front);
        let best = longest_run(list)->0;
        if longest_run(front) is Some {
            let was = longest_run(front)->0;
            let k = choose|k: int|
                0 <= k < front.len() && #[trigger] front[k] == was && forall|j: int|
                    0 <= j < front.len() ==> {
                        &&& (#[trigger] front[j]).1 - front[j].0 <= was.1 - was.0
                        &&& j < k ==> front[j].1 - front[j].0 < was.1 - was.0
                    };
            assert forall|j: int| 0 <= j < n implies (#[trigger] list[j]).1 - list[j].0 <= was.1
                - was.0 && (j < k ==> list[j].1 - list[j].0 < was.1 - was.0) by {
                assert(front[j] == list[j]);
            }
            if best == was && list.last().1 - list.last().0 <= was.1 - was.0 {
                assert(list[k] == best);
            } else {
                assert(list[n] == best);
            }
        } else {
            assert(list[0] == best);
        }
    }
}

/// Whether a stretch of the data is all `0xFF`.
pub open spec fn is_free(data: Seq<u8>, from: int, to: int) -> bool {
    forall|i: int| from <= i < to ==> #[trigger] data[i] == 0xFF
}

proof fn lemma_free_in_run(window: Seq<u8>, k: int, x: int, y: int)
    requires
        ({
            let list = runs(has_value(window, 0xFF), window.len() as int);
            &&& 0 <= k < list.len()
            &&& list[k].0 <= x < list[k].1
        }),
        x < y <= window.len(),
        is_free(window, x, y),
    ensures
        y <= runs(has_value(window, 0xFF), window.len() as int)[k].1,
{
    let flag = has_value(window, 0xFF);
    let n = window.len() as int;
    let r = runs(flag, n)[k];
    lemma_runs_shape(flag, n);
    lemma_runs_end(flag, n, k);
    if r.1 < y {
        assert(window[r.1] == 0xFF);
        assert(flag(r.1));
    }
}

proof fn lemma_best_of_window(window: Seq<u8>, x: int, y: int)
    requires
        0 <= x < y <= window.len(),
        is_free(window, x, y),
    ensures
        ({
            let best = longest_run(runs(has_value(window, 0xFF), window.len() as int));
            &&& best is Some
            &&& match best {
                Some(r) => {
                    &&& 0 <= r.0 < r.1 <= window.len()
                    &&& is_free(window, r.0, r.1)
                    &&& y - x <= r.1 - r.0
                    &&& y - x == r.1 - r.0 ==> r.0 <= x
                },
                None => false,
            }
        }),
{
    let flag = has_value(window, 0xFF);
    let n = window.len() as int;
    let list = runs(flag, n);
    lemma_runs_shape(flag, n);
    assert(flag(x));
    let k = lemma_runs_cover(flag, n, x);
    lemma_free_in_run(window, k, x, y);
    lemma_longest(list);
    let best = longest_run(list)->0;
    let b = choose|b: int|
        0 <= b < list.len() && #[trigger] list[b] == best && forall|j: int|
            0 <= j < list.len() ==> {
                &&& (#[trigger] list[j]).1 - list[j].0 <= best.1 - best.0
                &&& j < b ==> list[j].1 - list[j].0 < best.1 - best.0
            };
    assert(list[k].1 - list[k].0 <= best.1 - best.0);
    lemma_apart(flag, n, b, k);
    assert forall|i: int| best.0 <= i < best.1 implies #[trigger] window[i] == 0xFF by {
        assert(flag(i));
    }
}

/// The largest free stretch of a window lies in it, is all `0xFF`, and no other one there is
/// longer; of several it is the first.
pub proof fn law_largest_free(data: Seq<u8>, start: int, end: int, x: int, y: int)
    requires
        0 <= start <= end,
        start <= x < y <= end,
        y <= data.len(),
        is_free(data, x, y),
    ensures
        largest_ff_run(data, start, end) is Some,
        ({
            let r = largest_ff_run(data, start, end)->0;
            &&& start <= r.0 < r.1 <= end
            &&& r.1 <= data.len()
            &&& is_free(data, r.0, r.1)
            &&& y - x <= r.1 - r.0
            &&& y - x == r.1 - r.0 ==> r.0 <= x
        }),
{
    let to = if end < data.len() {
        end
    } else {
        data.len() as int
    };
    let window = data.subrange(start, to);
    assert forall|i: int| x - start <= i < y - start implies #[trigger] window[i] == 0xFF by {
        assert(window[i] == data[i + start]);
    }
    lemma_best_of_window(window, x - start, y - start);
    let best = longest_run(runs(has_value(window, 0xFF), window.len() as int))->0;
    assert(window.len() == to - start);
    assert forall|i: int| start + best.0 <= i < start + best.1 implies #[trigger] data[i] == 0xFF by {
        assert(window[i - start] == data[i]);
    }
}

/// What a window without a free byte has to offer is nothing.
pub proof fn law_nothing_free(data: Seq<u8>, start: int, end: int)
    requires
        0 <= start <= end,
        forall|i: int| start <= i < end && i < data.len() ==> #[trigger] data[i] != 0xFF,
    ensures
        largest_ff_run(data, start, end) is None,
{
    let to = if end < data.len() {
        end
    } else {
        data.len() as int
    };
    let from = if start < to {
        start
    } else {
        to
    };
    let window = data.subrange(from, to);
    let flag = has_value(window, 0xFF);
    let list = runs(flag, to - from);
    lemma_runs_shape(flag, to - from);
    lemma_longest(list);
    if list.len() > 0 {
        assert(flag(list[0].0));
        assert(window[list[0].0] == data[from + list[0].0]);
    }
}

/// Scripts of a region move to the start of the largest free stretch of the region's bank.
pub proof fn law_region_room(rom: Seq<u8>, region: int, x: int, y: int)
    requires
        0 <= region,
        region_relocation(rom, region) is Ok,
        region_bank(rom, region)->Ok_0 <= x < y <= region_bank(rom, region)->Ok_0 + 0x4000,
        y <= rom.len(),
        is_free(rom, x, y),
    ensures
        ({
            let at = region_relocation(rom, region)->Ok_0;
            let base = region_bank(rom, region)->Ok_0;
            &&& base <= at
            &&& at + (y - x) <= base + 0x4000
            &&& is_free(rom, at, at + (y - x))
        }),
{
    let base = region_bank(rom, region)->Ok_0;
    law_largest_free(rom, base, base + 0x4000, x, y);
}

// ---------------------------------------------------------------------------
// Banks that are made anew
// ---------------------------------------------------------------------------

/// Whether a bank has the four bytes that such banks start with: `B07` and a seven.
pub open spec fn has_bank_head(bank: Seq<u8>) -> bool {
    &&& bank.len() >= 4
    &&& bank[0] == 'B' as int
    &&& bank[1] == '0' as int
    &&& bank[2] == '7' as int
    &&& bank[3] == 7
}

/// A bank for the scripts of a region is sixteen kilobytes long. Behind its head it has one
/// pointer, through the slot at `0x4000`, to the table of scripts, which stands at its
/// sixteenth byte; all else is `0xFF`.
pub proof fn law_region_bank(bin: Seq<u8>, i: int)
    requires
        bin.len() <= 0x3FF0,
        0 <= i < 0x4000,
    ensures
        ({
            let bank = region_image(bin);
            &&& bank.len() == 0x4000
            &&& has_bank_head(bank)
            &&& word_at(bank, 4) - 0x4000 == 16
            &&& 16 <= i < 16 + bin.len() ==> bank[i] == bin[i - 16]
            &&& 6 <= i < 16 || i >= 16 + bin.len() ==> bank[i] == 0xFF
        }),
{
    assert(le16(0x4010) =~= seq![0x10u8, 0x40u8]);
}

/// A bank for moved interface graphics has two pointers behind its head, through the slot
/// at `0x4000`. Each leads to three bytes with packed graphics behind them: a two and a
/// number, `0x7C0` for the first block and `0x700` for the second.
pub proof fn law_graphics_bank(save: Seq<u8>, flee: Seq<u8>)
    requires
        save.len() <= 0x3000,
    ensures
        ({
            let bank = resource_bank(save, flee);
            let a = word_at(bank, 4) - 0x4000;
            let b = word_at(bank, 6) - 0x4000;
            &&& has_bank_head(bank)
            &&& a == 16
            &&& bank[a] == 2
            &&& word_at(bank, a + 1) == 0x7C0
            &&& bank.subrange(a + 3, a + 3 + save.len()) == save
            &&& b == a + 3 + save.len()
            &&& bank[b] == 2
            &&& word_at(bank, b + 1) == 0x700
            &&& bank.subrange(b + 3, b + 3 + flee.len()) == flee
            &&& bank.len() == b + 3 + flee.len()
            &&& forall|i: int| 8 <= i < 16 ==> #[trigger] bank[i] == 0xFF
        }),
{
    let bank = resource_bank(save, flee);
    let at = 0x4013 + save.len() as int;
    assert(le16(0x4010) =~= seq![0x10u8, 0x40u8]);
    assert(le16(at).len() == 2);
    assert(at % 256 + 256 * (at / 256 % 256) == at);
    assert(bank[6] == le16(at)[0]);
    assert(bank[7] == le16(at)[1]);
    assert(word_at(bank, 6) == at);
    assert(bank.subrange(19, 19 + save.len() as int) =~= save);
    let b = 19 + save.len() as int;
    assert(bank.subrange(b + 3, b + 3 + flee.len()) =~= flee);
}

/// Cutscenes are packed one behind the other: from `0x1A66D` on as long as they end by
/// `0x1B162`, and, from the first that does not, from `0x1B826` on up to the end of the bank
/// at `0x1C000`. They are refused exactly if one does not fit there either. A cutscene
/// without bytes takes no room.
pub proof fn law_packed_cutscenes(strings: Seq<Seq<u8>>, n: int)
    requires
        0 < n <= strings.len(),
        placing(strings, n - 1) is Ok,
    ensures
        placing(strings, 0)->Ok_0.cursor == 0x1A66D,
        placing(strings, 0)->Ok_0.stretch == 0,
        ({
            let p = placing(strings, n - 1)->Ok_0;
            let len = strings[n - 1].len() as int;
            let stays = p.stretch == 0 && p.cursor + len <= 0x1B162;
            let at = if stays || p.stretch == 1 {
                p.cursor
            } else {
                0x1B826
            };
            &&& p.stretch == 0 || p.stretch == 1
            &&& placing(strings, n) is Ok <==> len == 0 || stays || at + len <= 0x1C000
            &&& placing(strings, n) matches Ok(q) ==> {
                &&& q.addrs == p.addrs.push(if len == 0 {
                    0
                } else {
                    at
                })
                &&& len == 0 ==> q.cursor == p.cursor && q.stretch == p.stretch
                &&& len > 0 ==> q.cursor == at + len && q.stretch == if stays {
                    0int
                } else {
                    1
                }
            }
        }),
{
    law_cutscenes_keep_to_their_stretches(strings, n - 1);
}

// ---------------------------------------------------------------------------
// What stands in a rebuilt table
// ---------------------------------------------------------------------------

proof fn lemma_text_named(encoded: Seq<EncodedView>, id: Seq<char>)
    ensures
        encoded_index(encoded, id) is None <==> forall|k: int|
            0 <= k < encoded.len() ==> (#[trigger] encoded[k]).id != id,
        encoded_index(encoded, id) matches Some(k) ==> 0 <= k < encoded.len() && encoded[k].id == id
            && forall|j: int| k < j < encoded.len() ==> (#[trigger] encoded[j]).id != id,
    decreases encoded.len(),
{
    if encoded.len() > 0 {
        let front = encoded.drop_last();
        lemma_text_named(front, id);
        assert(encoded[encoded.len() - 1] == encoded.last());
        if encoded.last().id != id {
            if encoded_index(front, id) is None {
                assert forall|k: int| 0 <= k < encoded.len() implies (#[trigger] encoded[k]).id
                    != id by {
                    if k < front.len() {
                        assert(front[k].id != id);
                    }
                }
            } else {
                let k = encoded_index(front, id)->0;
                assert(encoded[k].id == id);
                assert forall|j: int| k < j < encoded.len() implies (#[trigger] encoded[j]).id
                    != id by {
                    if j < front.len() {
                        assert(front[j].id != id);
                    }
                }
            }
        }
    }
}

proof fn lemma_entry_named(entries: Seq<EntryView>, id: Seq<char>)
    ensures
        entry_index(entries, id) is None <==> forall|k: int|
            0 <= k < entries.len() ==> (#[trigger] entries[k]).id != id,
        entry_index(entries, id) matches Some(k) ==> 0 <= k < entries.len() && entries[k].id == id
            && forall|j: int| k < j < entries.len() ==> (#[trigger] entries[j]).id != id,
    decreases entries.len(),
{
    if entries.len() > 0 {
        let front = entries.drop_last();
        lemma_entry_named(front, id);
        assert(entries[entries.len() - 1] == entries.last());
        if entries.last().id != id {
            if entry_index(front, id) is None {
                assert forall|k: int| 0 <= k < entries.len() implies (#[trigger] entries[k]).id
                    != id by {
                    if k < front.len() {
                        assert(front[k].id != id);
                    }
                }
            } else {
                let k = entry_index(front, id)->0;
                assert(entries[k].id == id);
                assert forall|j: int| k < j < entries.len() implies (#[trigger] entries[j]).id
                    != id by {
                    if j < front.len() {
                        assert(front[j].id != id);
                    }
                }
            }
        }
    }
}

/// Whether entry `e` is the last of a name.
pub open spec fn is_entry_named(entries: Seq<EntryView>, id: Seq<char>, e: int) -> bool {
    &&& 0 <= e < entries.len()
    &&& entries[e].id == id
    &&& forall|j: int| e < j < entries.len() ==> (#[trigger] entries[j]).id != id
}

/// Whether text `k` is the last of a name.
pub open spec fn is_text_named(encoded: Seq<EncodedView>, id: Seq<char>, k: int) -> bool {
    &&& 0 <= k < encoded.len()
    &&& encoded[k].id == id
    &&& forall|j: int| k < j < encoded.len() ==> (#[trigger] encoded[j]).id != id
}

/// In a rebuilt table a script has its translation where there is one and its source has not
/// changed, and its old bytes where there is none.
pub proof fn law_texts_of_tables(
    entries: Seq<EntryView>,
    encoded: Seq<EncodedView>,
    id: Seq<char>,
    unknown: Seq<char>,
    e: int,
    k: int,
)
    requires
        is_entry_named(entries, id, e),
    ensures
        is_text_named(encoded, id, k) ==> (string_for(entries, encoded, id, unknown) is Ok
            <==> source_drift(entries[e], encoded[k]) is None),
        is_text_named(encoded, id, k) && string_for(entries, encoded, id, unknown) is Ok
            ==> string_for(entries, encoded, id, unknown)->Ok_0 == encoded[k].bytes,
        (forall|j: int| 0 <= j < encoded.len() ==> (#[trigger] encoded[j]).id != id) ==> string_for(
            entries,
            encoded,
            id,
            unknown,
        ) == bytes_of(entries[e]),
{
    lemma_text_named(encoded, id);
    lemma_entry_named(entries, id);
    assert(entry_index(entries, id) == Some(e)) by {
        let other = entry_index(entries, id);
        if other is None {
            assert(entries[e].id != id);
        }
    }
    if is_text_named(encoded, id, k) {
        let other = encoded_index(encoded, id);
        if other is None {
            assert(encoded[k].id != id);
        }
        assert(other == Some(k));
    }
}

} // verus!
