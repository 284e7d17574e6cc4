//! What scanning a ROM finds.
use vstd::prelude::*;
use crate::number_laws::{law_dec_denotes, law_hex_denotes};
use crate::order::{is_stable_order, lemma_order_covers};
use crate::parse::{find_spec, has_prefix, index_or_len, is_space, joined};
use crate::runs::{has_value, lemma_runs_cover, lemma_runs_shape, long_runs, runs};
use crate::scan::{
    byte_range_text, byte_ranges_text, byte_runs, byte_set_text, bytes_where, count_keys,
    distinct_files, has_byte, int_value, is_engine_control, is_longest, is_top, length_keys,
    mark_range, occurrences, startmsg_ranges, ByteRun, RangeView,
};
use crate::script_callers::{
    byte_load, context_of, debug_logical, decodes, hits_below, jump_name, line_index, line_length,
    lines_from, load_text, loads_between, raw_loads, routine_at, routine_logical, routine_name,
    word_load, Decoded, LineView,
};
use crate::tag_laws::lemma_trim_nothing;
use crate::term_laws::{law_found_where_it_stands, stands_at};
use crate::text::{dec, hex};

verus! {

// ---------------------------------------------------------------------------
// Instructions
// ---------------------------------------------------------------------------

/// The condition that three bits of a conditional jump or call stand for.
pub open spec fn condition(bits: int) -> Seq<char> {
    if bits == 0 {
        "NZ"@
    } else if bits == 1 {
        "Z"@
    } else if bits == 2 {
        "NC"@
    } else if bits == 3 {
        "C"@
    } else if bits == 4 {
        "PO"@
    } else if bits == 5 {
        "PE"@
    } else if bits == 6 {
        "P"@
    } else {
        "M"@
    }
}

proof fn lemma_condition_words()
    ensures
        "JP NZ"@ == "JP "@ + "NZ"@,
        "JP Z"@ == "JP "@ + "Z"@,
        "JP NC"@ == "JP "@ + "NC"@,
        "JP C"@ == "JP "@ + "C"@,
        "JP PO"@ == "JP "@ + "PO"@,
        "JP PE"@ == "JP "@ + "PE"@,
        "JP P"@ == "JP "@ + "P"@,
        "JP M"@ == "JP "@ + "M"@,
{
    reveal_strlit("JP ");
    reveal_strlit("NZ");
    reveal_strlit("Z");
    reveal_strlit("NC");
    reveal_strlit("C");
    reveal_strlit("PO");
    reveal_strlit("PE");
    reveal_strlit("P");
    reveal_strlit("M");
    reveal_strlit("JP NZ");
    reveal_strlit("JP Z");
    reveal_strlit("JP NC");
    reveal_strlit("JP C");
    reveal_strlit("JP PO");
    reveal_strlit("JP PE");
    reveal_strlit("JP P");
    reveal_strlit("JP M");
    assert("JP NZ"@ =~= "JP "@ + "NZ"@);
    assert("JP Z"@ =~= "JP "@ + "Z"@);
    assert("JP NC"@ =~= "JP "@ + "NC"@);
    assert("JP C"@ =~= "JP "@ + "C"@);
    assert("JP PO"@ =~= "JP "@ + "PO"@);
    assert("JP PE"@ =~= "JP "@ + "PE"@);
    assert("JP P"@ =~= "JP "@ + "P"@);
    assert("JP M"@ =~= "JP "@ + "M"@);
}

proof fn lemma_call_words()
    ensures
        "CALL NZ"@ == "CALL "@ + "NZ"@,
        "CALL Z"@ == "CALL "@ + "Z"@,
        "CALL NC"@ == "CALL "@ + "NC"@,
        "CALL C"@ == "CALL "@ + "C"@,
        "CALL PO"@ == "CALL "@ + "PO"@,
        "CALL PE"@ == "CALL "@ + "PE"@,
        "CALL P"@ == "CALL "@ + "P"@,
        "CALL M"@ == "CALL "@ + "M"@,
{
    reveal_strlit("CALL ");
    reveal_strlit("NZ");
    reveal_strlit("Z");
    reveal_strlit("NC");
    reveal_strlit("C");
    reveal_strlit("PO");
    reveal_strlit("PE");
    reveal_strlit("P");
    reveal_strlit("M");
    reveal_strlit("CALL NZ");
    reveal_strlit("CALL Z");
    reveal_strlit("CALL NC");
    reveal_strlit("CALL C");
    reveal_strlit("CALL PO");
    reveal_strlit("CALL PE");
    reveal_strlit("CALL P");
    reveal_strlit("CALL M");
    assert("CALL NZ"@ =~= "CALL "@ + "NZ"@);
    assert("CALL Z"@ =~= "CALL "@ + "Z"@);
    assert("CALL NC"@ =~= "CALL "@ + "NC"@);
    assert("CALL C"@ =~= "CALL "@ + "C"@);
    assert("CALL PO"@ =~= "CALL "@ + "PO"@);
    assert("CALL PE"@ =~= "CALL "@ + "PE"@);
    assert("CALL P"@ =~= "CALL "@ + "P"@);
    assert("CALL M"@ =~= "CALL "@ + "M"@);
}

/// Jumps and calls to an address are `0xC3` and `0xCD` without a condition; with one, the
/// low three bits of the opcode tell a jump (2) from a call (4), the top two are set, and
/// those between are the condition. No other opcode is a jump or a call to an address.
pub proof fn law_jumps_and_calls(opcode: u8)
    ensures
        opcode == 0xC3 ==> jump_name(opcode) == Some("JP"@),
        opcode == 0xCD ==> jump_name(opcode) == Some("CALL"@),
        opcode >= 0xC0 && opcode % 8 == 2 ==> jump_name(opcode) == Some(
            "JP "@ + condition((opcode - 0xC0) / 8),
        ),
        opcode >= 0xC0 && opcode % 8 == 4 ==> jump_name(opcode) == Some(
            "CALL "@ + condition((opcode - 0xC0) / 8),
        ),
        jump_name(opcode) is Some ==> opcode == 0xC3 || opcode == 0xCD || (opcode >= 0xC0 && (opcode
            % 8 == 2 || opcode % 8 == 4)),
{
    lemma_condition_words();
    lemma_call_words();
}

/// The register that three bits of an opcode stand for; six stands for memory.
pub open spec fn register(bits: int) -> Seq<char> {
    if bits == 0 {
        "B"@
    } else if bits == 1 {
        "C"@
    } else if bits == 2 {
        "D"@
    } else if bits == 3 {
        "E"@
    } else if bits == 4 {
        "H"@
    } else if bits == 5 {
        "L"@
    } else {
        "A"@
    }
}

/// The pair of registers that two bits of an opcode stand for.
pub open spec fn register_pair(bits: int) -> Seq<char> {
    if bits == 0 {
        "BC"@
    } else if bits == 1 {
        "DE"@
    } else if bits == 2 {
        "HL"@
    } else {
        "SP"@
    }
}

/// A byte is loaded into a register by the opcodes below `0x40` whose low three bits are
/// six, but for the one that stores to memory; a word is loaded by those whose low four
/// bits are one. The bits above are the register and the pair.
pub proof fn law_loads(opcode: u8)
    ensures
        byte_load(opcode) is Some <==> opcode < 0x40 && opcode % 8 == 6 && opcode / 8 != 6,
        byte_load(opcode) matches Some(name) ==> name == register(opcode as int / 8),
        word_load(opcode) is Some <==> opcode < 0x40 && opcode % 16 == 1,
        word_load(opcode) matches Some(name) ==> name == register_pair(opcode as int / 16),
{
}

// ---------------------------------------------------------------------------
// Callers
// ---------------------------------------------------------------------------

/// Whether a name and an address are those of a text routine of the game.
pub open spec fn is_routine(name: Seq<char>, address: int) -> bool {
    ||| name == "runScript"@ && address == 0x98E0
    ||| name == "renderLoop"@ && address == 0x9979
    ||| name == "fontDecode1bppTo4bpp"@ && address == 0x9A3E
    ||| name == "runTabledScript"@ && address == 0xA00D
    ||| name == "getScriptPointer"@ && address == 0xA05B
    ||| name == "runCutsceneScript"@ && address == 0xA54E
}

/// The text routines of the game are looked up by their addresses, each with its own name.
pub proof fn law_routines(target: int, i: int)
    ensures
        0 <= i < 6 ==> routine_at(routine_logical(i)) == Some(i),
        0 <= i < 6 ==> is_routine(routine_name(i), routine_logical(i)),
        routine_at(target) matches Some(k) ==> 0 <= k < 6 && routine_logical(k) == target,
{
}

/// Whether an instruction that jumps to or calls a text routine stands at an offset: its
/// opcode, and behind it the address of the routine, low byte first.
pub open spec fn reaches_routine(rom: Seq<u8>, at: int, routine: int) -> bool {
    &&& jump_name(rom[at]) is Some
    &&& 0 <= routine < 6
    &&& rom[at + 1] + 256 * rom[at + 2] == routine_logical(routine)
}

/// The callers that are found are the offsets at which a jump to or a call of a text
/// routine stands, each with the routine that it reaches and with the instruction's name,
/// in order.
pub proof fn law_callers(rom: Seq<u8>, lines: Seq<LineView>, reach: int, n: int)
    requires
        0 <= n,
    ensures
        ({
            let hits = hits_below(rom, lines, reach, n);
            &&& forall|k: int|
                0 <= k < hits.len() ==> 0 <= (#[trigger] hits[k]).physical < n && reaches_routine(
                    rom,
                    hits[k].physical,
                    hits[k].routine,
                ) && jump_name(rom[hits[k].physical]) == Some(hits[k].opcode)
            &&& forall|i: int, j: int|
                0 <= i < j < hits.len() ==> (#[trigger] hits[i]).physical < (
                #[trigger] hits[j]).physical
            &&& forall|at: int, routine: int|
                0 <= at < n && #[trigger] reaches_routine(rom, at, routine) ==> exists|k: int|
                    0 <= k < hits.len() && (#[trigger] hits[k]).physical == at && hits[k].routine
                        == routine
        }),
    decreases n,
{
    let hits = hits_below(rom, lines, reach, n);
    if n > 0 {
        let before = hits_below(rom, lines, reach, n - 1);
        law_callers(rom, lines, reach, n - 1);
        assert forall|at: int, routine: int|
            0 <= at < n && #[trigger] reaches_routine(rom, at, routine) implies exists|k: int|
            0 <= k < hits.len() && (#[trigger] hits[k]).physical == at && hits[k].routine
                == routine by {
            if at < n - 1 {
                let k = choose|k: int|
                    0 <= k < before.len() && (#[trigger] before[k]).physical == at
                        && before[k].routine == routine;
                assert(hits[k] == before[k]);
            } else {
                law_routines(0, routine);
                assert(hits[before.len() as int].physical == at);
            }
        }
        law_routines(rom[n] + 256 * rom[n + 1], 0);
    }
}

/// Where an offset shows: the first bank at its own address, any other through the window
/// from `0x8000` on, as far into it as the offset is into its bank.
pub proof fn law_where_offsets_show(physical: int)
    requires
        0 <= physical,
    ensures
        ({
            let (bank, slot, logical) = debug_logical(physical);
            &&& bank * 0x4000 <= physical < (bank + 1) * 0x4000
            &&& physical < 0x4000 ==> slot == "slot0"@ && logical == physical
            &&& physical >= 0x4000 ==> slot == "slot2"@ && 0x8000 <= logical < 0xC000 && logical
                - 0x8000 == physical - bank * 0x4000
        }),
{
}

/// What is shown around an instruction are the lines up to `reach` before and behind it,
/// in order, and the instruction itself is marked.
pub proof fn law_context(lines: Seq<LineView>, index: int, reach: int, j: int)
    requires
        0 <= index < lines.len(),
        0 <= reach,
        0 <= j < lines.len(),
        index - reach <= j <= index + reach,
    ensures
        ({
            let shown = context_of(lines, index, reach);
            let k = if index > reach {
                j - (index - reach)
            } else {
                j
            };
            &&& 0 <= k < shown.len() <= 2 * reach + 1
            &&& shown[k].len() >= lines[j].text.len()
            &&& shown[k].skip(shown[k].len() - lines[j].text.len()) == lines[j].text
            &&& lines[j].physical == lines[index].physical ==> shown[k].take(3) == "=> "@
            &&& lines[j].physical != lines[index].physical ==> shown[k].take(3) == "   "@
        }),
{
    let shown = context_of(lines, index, reach);
    let k = if index > reach {
        j - (index - reach)
    } else {
        j
    };
    reveal_strlit("=>");
    reveal_strlit("  ");
    reveal_strlit("=> ");
    reveal_strlit("   ");
    reveal_strlit(" phys 0x");
    reveal_strlit(" ");
    let line = lines[j];
    let mark = if line.physical == lines[index].physical {
        "=>"@
    } else {
        "  "@
    };
    assert(shown[k] == mark + " phys 0x"@ + hex(line.physical, 5) + " "@ + line.text);
    assert(shown[k].skip(shown[k].len() - line.text.len()) =~= line.text);
    assert(shown[k][2] == ' ');
    assert(shown[k].take(3) =~= if line.physical == lines[index].physical {
        "=> "@
    } else {
        "   "@
    });
}

/// A listing holds one line for each instruction, each where the one before it ends, and
/// the last one ends with the ROM.
pub proof fn law_lines_follow(rom: Seq<u8>, decoded: Seq<Decoded>, at: int)
    requires
        decodes(decoded, rom.len() as int),
        0 <= at <= rom.len(),
    ensures
        ({
            let lines = lines_from(rom, decoded, at);
            &&& at < rom.len() ==> lines.len() > 0 && lines[0].physical == at
            &&& forall|k: int|
                0 <= k < lines.len() - 1 ==> lines[k + 1].physical == (
                #[trigger] lines[k]).physical + line_length(decoded[lines[k].physical])
            &&& lines.len() > 0 ==> lines.last().physical + line_length(
                decoded[lines.last().physical],
            ) == rom.len()
        }),
    decreases rom.len() - at,
{
    if at < rom.len() {
        let next = at + line_length(decoded[at]);
        assert(decoded[at] is Instruction || decoded[at] is Failure);
        law_lines_follow(rom, decoded, next);
        let rest = lines_from(rom, decoded, next);
        let lines = lines_from(rom, decoded, at);
        assert forall|k: int| 0 <= k < lines.len() - 1 implies lines[k + 1].physical == (
        #[trigger] lines[k]).physical + line_length(decoded[lines[k].physical]) by {
            if k > 0 {
                assert(lines[k] == rest[k - 1]);
                assert(lines[k + 1] == rest[k]);
            } else {
                assert(lines[1] == rest[0]);
            }
        }
        if rest.len() > 0 {
            assert(lines.last() == rest.last());
        }
    }
}

/// The loads before a call are those of the lines between, in order.
pub proof fn law_loads_between(lines: Seq<LineView>, start: int, end: int, j: int)
    requires
        0 <= start <= j < end <= lines.len(),
    ensures
        lines[j].immediate matches Some(s) ==> exists|k: int|
            0 <= k < loads_between(lines, start, end).len() && #[trigger] loads_between(
                lines,
                start,
                end,
            )[k] == s,
    decreases end - start,
{
    let all = loads_between(lines, start, end);
    let before = loads_between(lines, start, end - 1);
    if lines[j].immediate is Some {
        if j == end - 1 {
            assert(all[before.len() as int] == lines[j].immediate->0);
        } else {
            law_loads_between(lines, start, end - 1, j);
            let k = choose|k: int|
                0 <= k < before.len() && #[trigger] before[k] == lines[j].immediate->0;
            assert(all[k] == before[k]);
        }
    }
}

// ---------------------------------------------------------------------------
// Bytes and runs
// ---------------------------------------------------------------------------

/// The bytes that steer the text engine are the end code and the last five.
pub proof fn law_engine_controls(b: u8)
    ensures
        is_engine_control(b) <==> b == 0x00 || b == 0xFB || b == 0xFC || b == 0xFD || b == 0xFE || b
            == 0xFF,
{
}

/// The positions of a byte.
pub open spec fn positions(bytes: Seq<u8>, b: u8) -> Set<int> {
    Set::new(|i: int| 0 <= i < bytes.len() && bytes[i] == b)
}

/// A byte occurs as often as there are positions that hold it.
pub proof fn law_occurrences(bytes: Seq<u8>, b: u8)
    ensures
        positions(bytes, b).finite(),
        occurrences(bytes, b) == positions(bytes, b).len(),
    decreases bytes.len(),
{
    let all = positions(bytes, b);
    if bytes.len() == 0 {
        assert(all =~= Set::empty());
    } else {
        let front = bytes.drop_last();
        law_occurrences(front, b);
        if bytes.last() == b {
            assert(all =~= positions(front, b).insert(bytes.len() - 1));
        } else {
            assert(all =~= positions(front, b));
        }
    }
}

/// Whether a stretch holds one value throughout and cannot be made longer.
pub open spec fn is_whole_run(data: Seq<u8>, value: u8, from: int, to: int) -> bool {
    &&& 0 <= from < to <= data.len()
    &&& forall|i: int| from <= i < to ==> #[trigger] data[i] == value
    &&& from > 0 ==> data[from - 1] != value
    &&& to < data.len() ==> data[to] != value
}

/// What stands on either side of a run is not flagged.
pub proof fn lemma_runs_end(flag: spec_fn(int) -> bool, n: int, k: int)
    requires
        n >= 0,
        0 <= k < runs(flag, n).len(),
    ensures
        runs(flag, n)[k].1 < n ==> !flag(runs(flag, n)[k].1),
        runs(flag, n)[k].0 > 0 ==> !flag(runs(flag, n)[k].0 - 1),
{
    lemma_runs_shape(flag, n);
    let list = runs(flag, n);
    let r = list[k];
    if r.1 < n && flag(r.1) {
        let j = lemma_runs_cover(flag, n, r.1);
        lemma_apart(flag, n, k, j);
    }
    if r.0 > 0 && flag(r.0 - 1) {
        let j = lemma_runs_cover(flag, n, r.0 - 1);
        lemma_apart(flag, n, k, j);
    }
}

/// Runs keep apart, in order.
pub proof fn lemma_apart(flag: spec_fn(int) -> bool, n: int, i: int, j: int)
    requires
        n >= 0,
        0 <= i < runs(flag, n).len(),
        0 <= j < runs(flag, n).len(),
    ensures
        i < j ==> runs(flag, n)[i].1 < runs(flag, n)[j].0,
        j < i ==> runs(flag, n)[j].1 < runs(flag, n)[i].0,
    decreases if i < j {
        j - i
    } else {
        i - j
    },
{
    lemma_runs_shape(flag, n);
    if i + 1 < j {
        lemma_apart(flag, n, i, j - 1);
        assert(runs(flag, n)[j - 1].1 < runs(flag, n)[j].0);
    } else if i + 1 == j {
        assert(runs(flag, n)[j - 1].1 < runs(flag, n)[j].0);
    } else if j + 1 < i {
        lemma_apart(flag, n, i - 1, j);
        assert(runs(flag, n)[i - 1].1 < runs(flag, n)[i].0);
    } else if j + 1 == i {
        assert(runs(flag, n)[i - 1].1 < runs(flag, n)[i].0);
    }
}

proof fn lemma_long_ones(list: Seq<(int, int)>, min: int, r: (int, int))
    ensures
        long_runs(list, min).contains(r) <==> list.contains(r) && r.1 - r.0 >= min,
    decreases list.len(),
{
    if list.len() > 0 {
        let front = list.drop_last();
        let kept = long_runs(list, min);
        lemma_long_ones(front, min, r);
        if list.contains(r) {
            let i = choose|i: int| 0 <= i < list.len() && list[i] == r;
            if i < front.len() {
                assert(front[i] == r);
            }
        }
        if front.contains(r) {
            let i = choose|i: int| 0 <= i < front.len() && front[i] == r;
            assert(list[i] == r);
        }
        assert(list[list.len() - 1] == list.last());
        if list.last().1 - list.last().0 >= min {
            let before = long_runs(front, min);
            assert(kept == before.push(list.last()));
            if before.contains(r) {
                let i = choose|i: int| 0 <= i < before.len() && before[i] == r;
                assert(kept[i] == r);
            }
            assert(kept[before.len() as int] == list.last());
            if kept.contains(r) {
                let i = choose|i: int| 0 <= i < kept.len() && kept[i] == r;
                if i < before.len() {
                    assert(before[i] == r);
                }
            }
        }
    }
}

/// The runs of a value that are listed are the stretches that hold it throughout, cannot be
/// made longer, and are long enough.
pub proof fn law_byte_runs(data: Seq<u8>, value: u8, min: int, from: int, to: int)
    ensures
        byte_runs(data, value, min).contains((from, to)) <==> is_whole_run(data, value, from, to)
            && to - from >= min,
{
    let flag = has_value(data, value);
    let n = data.len() as int;
    let list = runs(flag, n);
    lemma_long_ones(list, min, (from, to));
    lemma_runs_shape(flag, n);
    if list.contains((from, to)) {
        let k = choose|k: int| 0 <= k < list.len() && list[k] == (from, to);
        lemma_runs_end(flag, n, k);
        assert forall|i: int| from <= i < to implies #[trigger] data[i] == value by {
            assert(flag(i));
        }
    }
    if is_whole_run(data, value, from, to) {
        assert(flag(from));
        let k = lemma_runs_cover(flag, n, from);
        let r = list[k];
        lemma_runs_end(flag, n, k);
        if r.0 < from {
            assert(flag(from - 1));
        }
        if r.1 > to {
            assert(flag(to));
        }
        if r.1 < to {
            assert(data[r.1] == value);
            assert(flag(r.1));
        }
        assert(list[k] == (from, to));
    }
}

/// The most frequent bytes are twelve, or all where there are fewer, in falling order of
/// their counts, and no byte that is left out is more frequent than one that is listed.
pub proof fn law_most_frequent(freq: Map<u8, usize>, used: Seq<u8>, top: Seq<(u8, usize)>)
    requires
        is_top(freq, used, top),
    ensures
        top.len() <= 12,
        top.len() < 12 ==> top.len() == used.len(),
        forall|i: int|
            0 <= i < top.len() ==> used.contains((#[trigger] top[i]).0) && top[i].1
                == freq[top[i].0],
        forall|i: int, j: int|
            0 <= i < j < top.len() ==> (#[trigger] top[i]).1 >= (#[trigger] top[j]).1,
        forall|p: int, i: int|
            0 <= p < used.len() && 0 <= i < top.len() && (forall|j: int|
                0 <= j < top.len() ==> (#[trigger] top[j]).0 != used[p]) ==> freq[
            #[trigger] used[p]] <= (#[trigger] top[i]).1,
{
    let keys = count_keys(freq, used);
    let order = choose|order: Seq<usize>|
        {
            &&& #[trigger] is_stable_order(keys, order)
            &&& top.len() == if used.len() < 12 {
                used.len() as int
            } else {
                12
            }
            &&& forall|i: int|
                0 <= i < top.len() ==> #[trigger] top[i] == (
                    used[order[i] as int],
                    freq[used[order[i] as int]],
                )
        };
    assert forall|i: int, j: int| 0 <= i < j < top.len() implies (#[trigger] top[i]).1 >= (
    #[trigger] top[j]).1 by {
        assert(crate::order::before(keys, order[i] as int, order[j] as int));
    }
    assert forall|p: int, i: int|
        0 <= p < used.len() && 0 <= i < top.len() && (forall|j: int|
            0 <= j < top.len() ==> (#[trigger] top[j]).0 != used[p]) implies freq[
    #[trigger] used[p]] <= (#[trigger] top[i]).1 by {
        let q = lemma_order_covers(keys, order, p);
        if q < top.len() {
            assert(top[q].0 == used[p]);
        }
        assert(crate::order::before(keys, order[i] as int, order[q] as int));
    }
}

/// The longest runs are twenty, or all where there are fewer, in falling order of their
/// lengths, and no run that is left out is longer than one that is listed.
pub proof fn law_longest_runs(list: Seq<(int, int)>, value: u8, longest: Seq<ByteRun>)
    requires
        is_longest(list, value, longest),
        forall|k: int| 0 <= k < list.len() ==> 0 <= (#[trigger] list[k]).0 <= list[k].1 <= usize::MAX,
    ensures
        longest.len() <= 20,
        longest.len() < 20 ==> longest.len() == list.len(),
        forall|i: int|
            0 <= i < longest.len() ==> (#[trigger] longest[i]).value == value && list.contains(
                (longest[i].offset as int, longest[i].offset + longest[i].len),
            ),
        forall|i: int, j: int|
            0 <= i < j < longest.len() ==> (#[trigger] longest[i]).len >= (#[trigger] longest[j]).len,
        forall|p: int, i: int|
            0 <= p < list.len() && 0 <= i < longest.len() && (forall|j: int|
                0 <= j < longest.len() ==> (#[trigger] longest[j]).offset != list[p].0) ==> (
            #[trigger] list[p]).1 - list[p].0 <= (#[trigger] longest[i]).len,
{
    let keys = length_keys(list);
    let order = choose|order: Seq<usize>|
        {
            &&& #[trigger] is_stable_order(keys, order)
            &&& longest.len() == if list.len() < 20 {
                list.len() as int
            } else {
                20
            }
            &&& forall|i: int|
                0 <= i < longest.len() ==> {
                    let r = list[order[i] as int];
                    #[trigger] longest[i] == (ByteRun {
                        value,
                        offset: r.0 as usize,
                        len: (r.1 - r.0) as usize,
                    })
                }
        };
    assert forall|i: int| 0 <= i < longest.len() implies (#[trigger] longest[i]).value == value
        && list.contains((longest[i].offset as int, longest[i].offset + longest[i].len)) by {
        let r = list[order[i] as int];
        assert(r == (longest[i].offset as int, longest[i].offset + longest[i].len));
    }
    assert forall|i: int, j: int| 0 <= i < j < longest.len() implies (#[trigger] longest[i]).len >= (
    #[trigger] longest[j]).len by {
        assert(crate::order::before(keys, order[i] as int, order[j] as int));
        let r = list[order[i] as int];
        let q = list[order[j] as int];
    }
    assert forall|p: int, i: int|
        0 <= p < list.len() && 0 <= i < longest.len() && (forall|j: int|
            0 <= j < longest.len() ==> (#[trigger] longest[j]).offset != list[p].0) implies (
    #[trigger] list[p]).1 - list[p].0 <= (#[trigger] longest[i]).len by {
        let q = lemma_order_covers(keys, order, p);
        if q < longest.len() {
            assert(longest[q].offset == list[p].0);
        }
        assert(crate::order::before(keys, order[i] as int, order[q] as int));
        let r = list[order[i] as int];
    }
}

// ---------------------------------------------------------------------------
// Marks in script files
// ---------------------------------------------------------------------------

/// A number is read in base sixteen behind `0x` and in base ten otherwise.
pub proof fn law_numbers_in_marks(n: int, width: int)
    requires
        0 <= n <= usize::MAX,
        0 <= width,
    ensures
        int_value("0x"@ + hex(n, width)) == Some(n),
        int_value(dec(n)) == Some(n),
{
    reveal_strlit("0x");
    reveal_strlit("0X");
    law_hex_denotes(n, width);
    law_dec_denotes(n);
    let s = "0x"@ + hex(n, width);
    assert(s.take(2) =~= "0x"@);
    assert(s.skip(2) =~= hex(n, width));
    assert(hex(n, width)[0] != '+');
    let t = dec(n);
    assert(t[0] != '+');
    if has_prefix(t, "0x"@) {
        assert(t.take(2)[1] == 'x');
    }
    if has_prefix(t, "0X"@) {
        assert(t.take(2)[1] == 'X');
    }
}

proof fn lemma_first(a: Seq<char>, c: char, rest: Seq<char>)
    requires
        forall|i: int| 0 <= i < a.len() ==> #[trigger] a[i] != c,
    ensures
        index_or_len(a + seq![c] + rest, c) == a.len(),
        index_or_len(a, c) == a.len(),
    decreases a.len(),
{
    let s = a + seq![c] + rest;
    if a.len() > 0 {
        let tail = a.drop_first();
        assert forall|i: int| 0 <= i < tail.len() implies #[trigger] tail[i] != c by {
            assert(tail[i] == a[i + 1]);
        }
        lemma_first(tail, c, rest);
        assert(s.drop_first() =~= tail + seq![c] + rest);
    }
}

/// A mark names the offset and the length of a range, in either base, with a comma between.
pub proof fn law_mark(offset: int, len: int, width: int, file: Seq<char>)
    requires
        0 <= offset <= usize::MAX,
        0 <= len <= usize::MAX,
        0 <= width,
    ensures
        mark_range("0x"@ + hex(offset, width) + seq![','] + dec(len), file) == Some(
            RangeView { file, offset, len },
        ),
        mark_range(dec(offset) + seq![','] + dec(len), file) == Some(
            RangeView { file, offset, len },
        ),
{
    reveal_strlit("0x");
    law_numbers_in_marks(offset, width);
    law_numbers_in_marks(len, width);
    law_hex_denotes(offset, width);
    law_dec_denotes(offset);
    law_dec_denotes(len);
    lemma_mark("0x"@ + hex(offset, width), dec(len), file);
    lemma_mark(dec(offset), dec(len), file);
}

proof fn lemma_mark(a: Seq<char>, b: Seq<char>, file: Seq<char>)
    requires
        forall|i: int| 0 <= i < a.len() ==> #[trigger] a[i] != ',' && !is_space(a[i]),
        forall|i: int| 0 <= i < b.len() ==> #[trigger] b[i] != ',' && !is_space(b[i]),
        int_value(a) is Some,
        int_value(b) is Some,
    ensures
        mark_range(a + seq![','] + b, file) == Some(
            RangeView { file, offset: int_value(a)->0, len: int_value(b)->0 },
        ),
{
    let s = a + seq![','] + b;
    lemma_first(a, ',', b);
    lemma_first(b, ',', Seq::empty());
    assert(s.take(a.len() as int) =~= a);
    assert(s.skip(a.len() as int + 1) =~= b);
    assert(b.take(b.len() as int) =~= b);
    lemma_trim_nothing(a);
    lemma_trim_nothing(b);
}

/// The first mark of a text comes first, and the others are found behind it.
pub proof fn law_marks(before: Seq<char>, args: Seq<char>, rest: Seq<char>, file: Seq<char>)
    requires
        forall|i: int| 0 <= i < before.len() ==> #[trigger] before[i] != '#',
        forall|i: int| 0 <= i < args.len() ==> #[trigger] args[i] != ')',
    ensures
        ({
            let tail = startmsg_ranges(rest, file);
            let all = startmsg_ranges(
                before + "#STARTMSG("@ + args + seq![')'] + rest,
                file,
            );
            &&& mark_range(args, file) matches Some(r) ==> all == seq![r] + tail
            &&& mark_range(args, file) is None ==> all == tail
        }),
{
    reveal_strlit("#STARTMSG(");
    let open = "#STARTMSG("@;
    let s = before + open + args + seq![')'] + rest;
    law_found_where_it_stands(s, open);
    assert(s.subrange(before.len() as int, before.len() as int + open.len()) =~= open);
    assert(stands_at(s, open, before.len() as int));
    let at = find_spec(s, open)->0;
    if at < before.len() {
        assert(s.subrange(at, at + open.len())[0] == s[at]);
        assert(s[at] == before[at]);
    }
    assert(at == before.len());
    let behind = s.skip(at + open.len());
    assert(behind =~= args + seq![')'] + rest);
    lemma_first(args, ')', rest);
    assert(behind.take(args.len() as int) =~= args);
    assert(behind.skip(args.len() as int + 1) =~= rest);
}

/// The files that ranges were read from.
pub open spec fn files_of(ranges: Seq<RangeView>) -> Set<Seq<char>> {
    Set::new(
        |f: Seq<char>| exists|i: int| 0 <= i < ranges.len() && (#[trigger] ranges[i]).file == f,
    )
}

/// Files are counted once each.
pub proof fn law_counted_files(ranges: Seq<RangeView>)
    ensures
        files_of(ranges).finite(),
        distinct_files(ranges) == files_of(ranges).len(),
    decreases ranges.len(),
{
    let all = files_of(ranges);
    if ranges.len() == 0 {
        assert(all =~= Set::empty());
    } else {
        let front = ranges.drop_last();
        let n = ranges.len() - 1;
        law_counted_files(front);
        assert(ranges[n] == ranges.last());
        assert forall|f: Seq<char>| all.contains(f) <==> files_of(front).contains(f) || f
            == ranges.last().file by {
            if all.contains(f) {
                let i = choose|i: int| 0 <= i < ranges.len() && (#[trigger] ranges[i]).file == f;
                if i < n {
                    assert(front[i].file == f);
                }
            }
            if files_of(front).contains(f) {
                let i = choose|i: int| 0 <= i < front.len() && (#[trigger] front[i]).file == f;
                assert(ranges[i].file == f);
            }
        }
        if files_of(front).contains(ranges.last().file) {
            assert(all =~= files_of(front));
        } else {
            assert(all =~= files_of(front).insert(ranges.last().file));
        }
    }
}

/// The bytes of a choice are listed in rising order, each once, and no others.
pub proof fn law_listed_bytes(keep: spec_fn(u8) -> bool, n: int, b: u8)
    requires
        0 <= n <= 256,
    ensures
        bytes_where(keep, n).contains(b) <==> b < n && keep(b),
        forall|i: int|
            0 <= i < bytes_where(keep, n).len() ==> #[trigger] bytes_where(keep, n)[i] < n,
        forall|i: int, j: int|
            0 <= i < j < bytes_where(keep, n).len() ==> #[trigger] bytes_where(keep, n)[i]
                < #[trigger] bytes_where(keep, n)[j],
    decreases n,
{
    if n > 0 {
        law_listed_bytes(keep, n - 1, b);
        let before = bytes_where(keep, n - 1);
        let all = bytes_where(keep, n);
        let last = (n - 1) as u8;
        if keep(last) {
            assert(all == before.push(last));
            assert(all[before.len() as int] == last);
            if before.contains(b) {
                let i = choose|i: int| 0 <= i < before.len() && before[i] == b;
                assert(all[i] == b);
            }
            if all.contains(b) && b != last {
                let i = choose|i: int| 0 <= i < all.len() && all[i] == b;
                assert(before[i] == b);
            }
        }
    }
}

/// Bytes that follow one another are written as the first and the last with a dash between,
/// a single one as itself, and none in words.
pub proof fn law_byte_range_text(bytes: Seq<u8>, a: int, b: int)
    requires
        0 <= a <= b < 256,
        forall|v: int| #[trigger] has_byte(bytes, v) <==> a <= v <= b,
    ensures
        byte_set_text(Seq::empty()) == "(none)"@,
        a == b ==> byte_set_text(bytes) == hex(a, 2),
        a < b ==> byte_set_text(bytes) == hex(a, 2) + "-"@ + hex(b, 2),
{
    let flag = |v: int| has_byte(bytes, v);
    let list = runs(flag, 256);
    lemma_runs_shape(flag, 256);
    assert(has_byte(bytes, a));
    assert(bytes.len() > 0);
    assert(flag(a));
    let k = lemma_runs_cover(flag, 256, a);
    lemma_runs_end(flag, 256, k);
    let r = list[k];
    if r.0 < a {
        assert(flag(r.0));
        assert(has_byte(bytes, r.0));
    }
    if r.1 <= b {
        assert(has_byte(bytes, r.1));
        assert(flag(r.1));
    }
    if r.1 > b + 1 {
        assert(flag(b + 1));
        assert(has_byte(bytes, b + 1));
    }
    assert(r == (a, b + 1));
    if list.len() > 1 {
        let j: int = if k == 0 {
            1
        } else {
            0
        };
        lemma_apart(flag, 256, j, k);
        assert(flag(list[j].0));
        assert(has_byte(bytes, list[j].0));
    }
    assert(list =~= seq![(a, b + 1)]);
}

// ---------------------------------------------------------------------------
// Lines and loads
// ---------------------------------------------------------------------------

/// The line of an offset is the first that stands there.
pub proof fn law_line_at_offset(lines: Seq<LineView>, physical: int)
    ensures
        line_index(lines, physical) is None <==> forall|k: int|
            0 <= k < lines.len() ==> (#[trigger] lines[k]).physical != physical,
        line_index(lines, physical) matches Some(k) ==> 0 <= k < lines.len() && lines[k].physical
            == physical && forall|j: int|
            0 <= j < k ==> (#[trigger] lines[j]).physical != physical,
    decreases lines.len(),
{
    if lines.len() > 0 {
        let front = lines.drop_last();
        law_line_at_offset(front, physical);
        if line_index(front, physical) is None {
            assert forall|k: int| 0 <= k < front.len() implies (#[trigger] lines[k]).physical
                != physical by {
                assert(front[k].physical != physical);
            }
            assert(lines[lines.len() - 1] == lines.last());
        } else {
            let k = line_index(front, physical)->0;
            assert(lines[k].physical == physical);
            assert forall|j: int| 0 <= j < k implies (#[trigger] lines[j]).physical != physical by {
                assert(front[j].physical != physical);
            }
        }
    }
}

/// Among bytes that were not read as instructions, every load whose operand stands before
/// the call is listed with its register and value, a word with its low byte first.
pub proof fn law_raw_loads(rom: Seq<u8>, start: int, end: int, to: int, at: int)
    requires
        0 <= start <= at < to <= end <= rom.len(),
    ensures
        byte_load(rom[at]) is Some && at + 1 < end ==> raw_loads(rom, start, end, to).contains(
            "raw 0x"@ + hex(at, 5) + ": LD "@ + byte_load(rom[at])->0 + ", $"@ + hex(
                rom[at + 1] as int,
                2,
            ),
        ),
        word_load(rom[at]) is Some && at + 2 < end ==> raw_loads(rom, start, end, to).contains(
            "raw 0x"@ + hex(at, 5) + ": LD "@ + word_load(rom[at])->0 + ", $"@ + hex(
                rom[at + 2] * 256 + rom[at + 1],
                4,
            ),
        ),
    decreases to,
{
    let all = raw_loads(rom, start, end, to);
    let before = raw_loads(rom, start, end, to - 1);
    let last = to - 1;
    let narrow = match byte_load(rom[last]) {
        Some(reg) if last + 1 < end => before.push(
            "raw "@ + load_text(last, reg, rom[last + 1] as int, false),
        ),
        _ => before,
    };
    assert forall|i: int| 0 <= i < before.len() implies narrow[i] == before[i] && all[i]
        == #[trigger] before[i] by {}
    reveal_strlit("raw ");
    reveal_strlit("0x");
    reveal_strlit("raw 0x");
    assert("raw "@ + "0x"@ =~= "raw 0x"@);
    let tight = "raw 0x"@ + hex(at, 5) + ": LD "@ + byte_load(rom[at])->0 + ", $"@ + hex(
        rom[at + 1] as int,
        2,
    );
    let wide = "raw 0x"@ + hex(at, 5) + ": LD "@ + word_load(rom[at])->0 + ", $"@ + hex(
        rom[at + 2] * 256 + rom[at + 1],
        4,
    );
    if at < last {
        law_raw_loads(rom, start, end, to - 1, at);
        if byte_load(rom[at]) is Some && at + 1 < end {
            let i = choose|i: int| 0 <= i < before.len() && before[i] == tight;
            assert(all[i] == tight);
        }
        if word_load(rom[at]) is Some && at + 2 < end {
            let i = choose|i: int| 0 <= i < before.len() && before[i] == wide;
            assert(all[i] == wide);
        }
    } else {
        if byte_load(rom[at]) is Some && at + 1 < end {
            assert(tight =~= "raw "@ + load_text(at, byte_load(rom[at])->0, rom[at + 1] as int, false));
            assert(narrow[before.len() as int] == tight);
            assert(all[before.len() as int] == tight);
        }
        if word_load(rom[at]) is Some && at + 2 < end {
            assert(wide =~= "raw "@ + load_text(
                at,
                word_load(rom[at])->0,
                rom[at + 1] + 256 * rom[at + 2],
                true,
            ));
            assert(all[narrow.len() as int] == wide);
        }
    }
}

/// Ranges of bytes are written out one after the other, with commas between.
pub proof fn law_written_ranges(list: Seq<(int, int)>)
    ensures
        byte_ranges_text(list) == joined(
            Seq::new(list.len(), |i: int| byte_range_text(list[i])),
            ", "@,
        ),
    decreases list.len(),
{
    let all = Seq::new(list.len(), |i: int| byte_range_text(list[i]));
    if list.len() > 1 {
        let front = list.drop_last();
        law_written_ranges(front);
        assert(all.drop_last() =~= Seq::new(front.len(), |i: int| byte_range_text(front[i])));
        assert(all.last() == byte_range_text(list.last()));
    } else if list.len() == 1 {
        assert(all[0] == byte_range_text(list[0]));
    }
}

} // verus!
