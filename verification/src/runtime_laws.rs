//! What the rules for runtime scenes and probes mean.
use vstd::prelude::*;
use crate::digest::crc32_of;
use crate::error::Fault;
use crate::hexbytes::lemma_hex_byte;
use crate::parse::{byte_len, has_prefix, index_or_len, split_spec, uint_value};
use crate::runtime_events::{
    bank_clause, compact_bytes, event_match, pair_bytes, recorded_byte, slot_bank, verdict,
    EventView, SnapshotView,
};
use crate::runtime_gate::{
    chosen_scenes, gate_fault, hits_of_probe, invalid_hits, required_fault, valid_hits, GateRules,
};
use crate::runtime_probe::{
    address_value, breakpoint_kind, crc_value, in_phase, pc_fault, place_fault, probe_fault,
    request_of, snapshot_fault, value_fault, ProbeView,
};
use crate::runtime_report::{ProbeEventReport, SceneEventSummary};
use crate::runtime_scene::{
    action_fault, actions_fault, evidence_fault, phase_steps, planned_scenes, probes_fault,
    route_fault, scene_fault, screenshot_fault, ActionView, RouteView, SceneView,
};
use crate::tag_laws::lemma_trim_nothing;
use crate::term_laws::{is_filled, law_trim};
use crate::text::{hex, hex_join};

verus! {

// ---------------------------------------------------------------------------
// Probes
// ---------------------------------------------------------------------------

/// What a kind of probe has the emulator break on: execution, reads or writes.
pub open spec fn breaks_on(kind: Seq<char>, what: Seq<char>) -> bool {
    ||| kind == "logical_exec_bp"@ && what == "exec"@
    ||| kind == "logical_read_bp"@ && what == "read"@
    ||| kind == "vram_write_bp"@ && what == "write"@
}

/// Whether a kind of probe needs a breakpoint.
pub open spec fn needs_break(kind: Seq<char>) -> bool {
    kind == "logical_exec_bp"@ || kind == "logical_read_bp"@ || kind == "vram_write_bp"@
}

proof fn lemma_kinds()
    ensures
        "logical_exec_bp"@ != "logical_read_bp"@,
        "logical_exec_bp"@ != "vram_write_bp"@,
        "logical_read_bp"@ != "vram_write_bp"@,
        "route_replay"@ != "logical_exec_bp"@,
        "route_replay"@ != "logical_read_bp"@,
        "route_replay"@ != "vram_write_bp"@,
{
    reveal_strlit("logical_exec_bp");
    reveal_strlit("logical_read_bp");
    reveal_strlit("vram_write_bp");
    reveal_strlit("route_replay");
    assert("logical_exec_bp"@[8] == 'e');
    assert("logical_read_bp"@[8] == 'r');
    assert("vram_write_bp"@[0] == 'v');
    assert("logical_exec_bp"@[0] == 'l');
    assert("logical_read_bp"@[0] == 'l');
    assert("route_replay"@[0] == 'r');
}

/// A kind of probe breaks on one thing: a probe for execution on execution, one for reads
/// on reads, one for writes to video memory on writes. Other kinds need no breakpoint.
pub proof fn law_breakpoint_kinds(kind: Seq<char>)
    ensures
        breakpoint_kind(kind) matches Some(what) ==> breaks_on(kind, what),
        breakpoint_kind(kind) is Some <==> needs_break(kind),
{
    lemma_kinds();
}

/// Whether a number fits in so many bytes.
pub open spec fn fits(n: int, len: int) -> bool {
    ||| len == 1 && n < 0x100
    ||| len == 2 && n < 0x1_0000
    ||| len == 3 && n < 0x100_0000
    ||| len == 4 && n < 0x1_0000_0000
}

proof fn lemma_address_bound(raw: Seq<char>)
    ensures
        address_value(raw) matches Ok(n) ==> n <= 0xFFFF_FFFF,
{
}

/// Whether a probe says where to watch: in a known memory, from an address, up to an end
/// that is not before it.
pub open spec fn place_is_given(p: ProbeView) -> bool {
    &&& p.memory_type is Some
    &&& p.memory_type->0 == "smsMemory"@ || p.memory_type->0 == "smsVideoRam"@
        || p.memory_type->0 == "smsPrgRom"@
    &&& p.address is Some && address_value(p.address->0) is Ok
    &&& p.end is Some ==> address_value(p.end->0) is Ok && address_value(p.address->0)->Ok_0
        <= address_value(p.end->0)->Ok_0
}

/// Whether the value that a probe watches for, if it watches for one, is in order: it and
/// its mask fit in their length of one to four bytes, one where no length is given.
pub open spec fn value_is_sound(p: ProbeView) -> bool {
    p.value is Some || p.value_len is Some || p.value_mask is Some ==> {
        let len = if p.value_len is Some {
            p.value_len->0 as int
        } else {
            1
        };
        &&& p.kind != "logical_exec_bp"@
        &&& p.value is Some && address_value(p.value->0) is Ok
        &&& 1 <= len <= 4
        &&& fits(address_value(p.value->0)->Ok_0, len)
        &&& p.value_mask is Some ==> address_value(p.value_mask->0) is Ok && fits(
            address_value(p.value_mask->0)->Ok_0,
            len,
        )
    }
}

/// Whether the instructions that a probe watches, if it names some, are in order.
pub open spec fn pc_is_sound(p: ProbeView) -> bool {
    p.pc_min is Some || p.pc_max is Some ==> {
        &&& needs_break(p.kind)
        &&& p.pc_min is Some && address_value(p.pc_min->0) is Ok
        &&& p.pc_max is Some && address_value(p.pc_max->0) is Ok
        &&& address_value(p.pc_min->0)->Ok_0 <= address_value(p.pc_max->0)->Ok_0
    }
}

/// A probe passes exactly if it has a name, notes and a known kind; says where to watch if
/// it needs a breakpoint; has sound filters; is installed in a known phase; and states when
/// its hits count where it records memory, the form of which must be right.
pub proof fn law_accepted_probe(scene: Seq<char>, p: ProbeView)
    ensures
        probe_fault(scene, p) is None <==> {
            &&& is_filled(p.id)
            &&& is_filled(p.notes)
            &&& needs_break(p.kind) || p.kind == "route_replay"@
            &&& needs_break(p.kind) ==> place_is_given(p)
            &&& value_is_sound(p)
            &&& pc_is_sound(p)
            &&& p.install_phase is Some ==> p.install_phase->0 == "fresh_start"@
                || p.install_phase->0 == "after_scene_reached"@ || p.install_phase->0
                == "manual_deferred"@
            &&& p.bank_snapshot is Some ==> snapshot_fault(scene, p.id, p.bank_snapshot->0) is None
                && p.valid_when is Some && is_filled(p.valid_when->0)
        },
{
    lemma_kinds();
    law_trim(p.id);
    law_trim(p.notes);
    if p.valid_when is Some {
        law_trim(p.valid_when->0);
    }
    if p.value is Some {
        lemma_address_bound(p.value->0);
    }
    if p.value_mask is Some {
        lemma_address_bound(p.value_mask->0);
    }
    assert(place_fault(scene, p) is None <==> place_is_given(p));
    assert(value_fault(scene, p) is None <==> value_is_sound(p));
    assert(pc_fault(scene, p) is None <==> pc_is_sound(p));
}

proof fn lemma_first_colon(a: Seq<char>, rest: Seq<char>)
    requires
        forall|i: int| 0 <= i < a.len() ==> #[trigger] a[i] != ':',
    ensures
        index_or_len(a + seq![':'] + rest, ':') == a.len(),
        index_or_len(a, ':') == a.len(),
    decreases a.len(),
{
    let s = a + seq![':'] + rest;
    if a.len() > 0 {
        let tail = a.drop_first();
        assert forall|i: int| 0 <= i < tail.len() implies #[trigger] tail[i] != ':' by {
            assert(tail[i] == a[i + 1]);
        }
        lemma_first_colon(tail, rest);
        assert(s.drop_first() =~= tail + seq![':'] + rest);
    }
}

/// Memory to record is named by its kind, its address and its length, with colons between:
/// only the processor's memory can be recorded, and not nothing of it.
pub proof fn law_recorded_memory(
    scene: Seq<char>,
    id: Seq<char>,
    kind: Seq<char>,
    address: Seq<char>,
    len: Seq<char>,
)
    requires
        forall|i: int| 0 <= i < kind.len() ==> #[trigger] kind[i] != ':',
        forall|i: int| 0 <= i < address.len() ==> #[trigger] address[i] != ':',
        forall|i: int| 0 <= i < len.len() ==> #[trigger] len[i] != ':',
        address.len() > 0,
        len.len() > 0,
    ensures
        snapshot_fault(scene, id, kind + seq![':'] + (address + seq![':'] + len)) is None <==> {
            &&& kind == "smsMemory"@
            &&& address_value(address) is Ok
            &&& address_value(len) is Ok && address_value(len)->Ok_0 > 0
        },
{
    let tail = address + seq![':'] + len;
    let all = kind + seq![':'] + tail;
    lemma_first_colon(kind, tail);
    lemma_first_colon(address, len);
    lemma_first_colon(len, Seq::empty());
    assert(all.take(kind.len() as int) =~= kind);
    assert(all.skip((kind.len() + 1) as int) =~= tail);
    assert(tail.take(address.len() as int) =~= address);
    assert(tail.skip((address.len() + 1) as int) =~= len);
    reveal_with_fuel(split_spec, 4);
    assert(split_spec(len, ':') =~= seq![len]);
    assert(split_spec(tail, ':') =~= seq![address, len]);
    assert(split_spec(all, ':') =~= seq![kind, address, len]);
    reveal_strlit("smsMemory");
}

/// What a breakpoint asks the emulator for: to stop where the probe says, from its address
/// to its end or at its address alone, for the value, mask and instructions that it names,
/// one byte where it gives no length, and to record the memory that it names.
pub proof fn law_requests(p: ProbeView)
    ensures
        request_of(p) is Some <==> needs_break(p.kind) && p.memory_type is Some && p.address is Some,
        request_of(p) matches Some(r) ==> {
            &&& r.tool == "set_breakpoint"@
            &&& breaks_on(p.kind, r.kind)
            &&& r.memory_type == p.memory_type->0
            &&& r.start == p.address->0
            &&& p.end is Some ==> r.end == p.end->0
            &&& p.end is None ==> r.end == p.address->0
            &&& r.pause_on_hit
            &&& r.value == p.value && r.value_mask == p.value_mask
            &&& r.pc_min == p.pc_min && r.pc_max == p.pc_max
            &&& p.value is None ==> r.value_len is None
            &&& p.value is Some && p.value_len is Some ==> r.value_len == p.value_len
            &&& p.value is Some && p.value_len is None ==> r.value_len == Some(1u8)
            &&& p.bank_snapshot is None ==> r.snapshot is None
            &&& p.bank_snapshot is Some ==> r.snapshot is Some && r.snapshot->0.len() == 1
                && r.snapshot->0[0] == p.bank_snapshot->0
        },
{
    law_breakpoint_kinds(p.kind);
}

/// A probe without a phase of its own is installed at a fresh start.
pub proof fn law_phases(p: ProbeView, phase: Seq<char>)
    ensures
        in_phase(p, None),
        p.install_phase is Some ==> (in_phase(p, Some(phase)) <==> p.install_phase->0 == phase),
        p.install_phase is None ==> (in_phase(p, Some(phase)) <==> phase == "fresh_start"@),
{
}

// ---------------------------------------------------------------------------
// Events
// ---------------------------------------------------------------------------

/// An event is a hit of a probe that passes exactly if it is of the kind that the probe
/// breaks on, lies where the probe watches, comes from the instructions that it names, and
/// has the value that it watches for, as far as the mask goes.
pub proof fn law_hits(scene: Seq<char>, p: ProbeView, e: EventView)
    requires
        probe_fault(scene, p) is None,
    ensures
        event_match(p, e) is Ok,
        event_match(p, e)->Ok_0 <==> {
            &&& e.kind is Some && breaks_on(p.kind, e.kind->0)
            &&& e.address is Some
            &&& address_value(p.address->0)->Ok_0 <= e.address->0
            &&& p.end is Some ==> e.address->0 <= address_value(p.end->0)->Ok_0
            &&& p.end is None ==> e.address->0 == address_value(p.address->0)->Ok_0
            &&& p.pc_min is Some ==> e.pc is Some && address_value(p.pc_min->0)->Ok_0 <= e.pc->0
                && e.pc->0 <= address_value(p.pc_max->0)->Ok_0
            &&& p.value is Some ==> e.value is Some && {
                let want = address_value(p.value->0)->Ok_0 as u32;
                let mask = if p.value_mask is Some {
                    address_value(p.value_mask->0)->Ok_0 as u32
                } else {
                    0xFFFF_FFFFu32
                };
                e.value->0 & mask == want & mask
            }
        },
{
    law_accepted_probe(scene, p);
    law_breakpoint_kinds(p.kind);
    lemma_kinds();
    lemma_break_words();
}

proof fn lemma_break_words()
    ensures
        "exec"@ != "read"@,
        "exec"@ != "write"@,
        "read"@ != "write"@,
{
    reveal_strlit("exec");
    reveal_strlit("read");
    reveal_strlit("write");
    assert("exec"@[0] == 'e');
    assert("read"@[0] == 'r');
    assert("write"@[0] == 'w');
}

proof fn lemma_pairs_of_bytes(bytes: Seq<u8>)
    ensures
        pair_bytes(hex_join(bytes, Seq::empty())) == Some(bytes),
        byte_len(hex_join(bytes, Seq::empty())) == 2 * bytes.len(),
        forall|i: int|
            0 <= i < hex_join(bytes, Seq::empty()).len() ==> crate::number_laws::is_hex_digit(
                #[trigger] hex_join(bytes, Seq::empty())[i],
            ),
    decreases bytes.len(),
{
    let none = Seq::<char>::empty();
    let s = hex_join(bytes, none);
    if bytes.len() == 0 {
        assert(bytes =~= Seq::empty());
    } else {
        let rest = bytes.drop_first();
        let w = hex(bytes[0] as int, 2);
        lemma_pairs_of_bytes(rest);
        lemma_hex_byte(bytes[0]);
        lemma_join_front_bare(bytes);
        assert(s == w + hex_join(rest, none));
        assert(s.take(2) =~= w);
        assert(s.skip(2) =~= hex_join(rest, none));
        assert(seq![bytes[0]] + rest =~= bytes);
        assert(uint_value(w, 16, 0xFF) == Some(bytes[0] as int));
        let tail = s.drop_first();
        assert(tail.drop_first() =~= hex_join(rest, none));
        assert(s[0] == w[0] && tail[0] == w[1]);
        assert(byte_len(tail) == 1 + byte_len(tail.drop_first()));
        assert(byte_len(s) == 1 + byte_len(tail));
        assert forall|i: int| 0 <= i < s.len() implies crate::number_laws::is_hex_digit(
            #[trigger] s[i],
        ) by {
            if i >= 2 {
                assert(s[i] == hex_join(rest, none)[i - 2]);
            } else {
                assert(s[i] == w[i]);
            }
        }
    }
}

proof fn lemma_join_front_bare(bytes: Seq<u8>)
    requires
        bytes.len() > 0,
    ensures
        hex_join(bytes, Seq::empty()) == hex(bytes[0] as int, 2) + hex_join(
            bytes.drop_first(),
            Seq::empty(),
        ),
    decreases bytes.len(),
{
    let none = Seq::<char>::empty();
    let front = bytes.drop_last();
    if bytes.len() == 1 {
        assert(bytes.drop_first() =~= Seq::empty());
        assert(hex_join(bytes, none) =~= hex(bytes[0] as int, 2) + hex_join(
            bytes.drop_first(),
            none,
        ));
    } else {
        lemma_join_front_bare(front);
        let rest = bytes.drop_first();
        assert(front.drop_first() =~= rest.drop_last());
        assert(rest.last() == bytes.last());
        assert(front[0] == bytes[0]);
        let last = hex(bytes.last() as int, 2);
        assert(hex_join(bytes, none) == hex_join(front, none) + none + last);
        if rest.len() == 1 {
            assert(rest.drop_last() =~= Seq::empty());
            assert(hex_join(rest, none) =~= last);
        } else {
            assert(hex_join(rest, none) == hex_join(rest.drop_last(), none) + none + last);
        }
        assert(hex_join(bytes, none) =~= hex(bytes[0] as int, 2) + hex_join(rest, none));
    }
}

/// Recorded memory that was written out as digits is read back.
pub proof fn law_recorded_digits(bytes: Seq<u8>)
    ensures
        compact_bytes(hex_join(bytes, Seq::empty())) == Ok::<Seq<u8>, Fault>(bytes),
{
    let s = hex_join(bytes, Seq::empty());
    lemma_pairs_of_bytes(bytes);
    assert forall|i: int| 0 <= i < s.len() implies !crate::parse::is_space(#[trigger] s[i]) by {
        assert(crate::number_laws::is_hex_digit(s[i]));
    }
    lemma_trim_nothing(s);
}

/// Whether a record holds the byte of an address.
pub open spec fn record_holds(r: SnapshotView, address: int) -> bool {
    r.memory_type == "smsMemory"@ && compact_bytes(r.hex) is Ok && r.address <= address < r.address
        + compact_bytes(r.hex)->Ok_0.len()
}

/// The bank of slot 1 is the byte that was recorded at `0xFFFE`, that of slot 2 the one at
/// `0xFFFF`, both from the first record that holds it.
pub proof fn law_recorded_banks(e: EventView, slot: int, k: int)
    requires
        slot == 1 || slot == 2,
        0 <= k < e.snapshot.len(),
        record_holds(e.snapshot[k], 0xFFFD + slot),
        forall|j: int|
            0 <= j < k ==> !record_holds(#[trigger] e.snapshot[j], 0xFFFD + slot) && (
            e.snapshot[j].memory_type != "smsMemory"@ || compact_bytes(e.snapshot[j].hex) is Ok),
    ensures
        slot_bank(e, slot) == Ok::<Option<u8>, Fault>(
            Some(
                compact_bytes(e.snapshot[k].hex)->Ok_0[0xFFFD + slot - e.snapshot[k].address],
            ),
        ),
{
    lemma_recorded(e.snapshot, 0xFFFD + slot, 0, k);
}

proof fn lemma_recorded(list: Seq<SnapshotView>, address: int, i: int, k: int)
    requires
        0 <= i <= k < list.len(),
        record_holds(list[k], address),
        forall|j: int|
            0 <= j < k ==> !record_holds(#[trigger] list[j], address) && (list[j].memory_type
                != "smsMemory"@ || compact_bytes(list[j].hex) is Ok),
    ensures
        recorded_byte(list, address, i) == Ok::<Option<u8>, Fault>(
            Some(compact_bytes(list[k].hex)->Ok_0[address - list[k].address]),
        ),
    decreases k - i,
{
    if i < k {
        assert(!record_holds(list[i], address));
        lemma_recorded(list, address, i + 1, k);
    }
}

/// A hit counts exactly if every slot that its condition names held the bank that it asks
/// for.
pub proof fn law_conditions(e: EventView, conditions: Seq<(u8, u8)>, n: int)
    requires
        0 <= n <= conditions.len(),
        verdict(e, conditions, n) is Ok,
    ensures
        verdict(e, conditions, n)->Ok_0.0 <==> forall|i: int|
            0 <= i < n ==> slot_bank(e, (#[trigger] conditions[i]).0 as int) == Ok::<
                Option<u8>,
                Fault,
            >(Some(conditions[i].1)),
        verdict(e, conditions, n)->Ok_0.1.len() == n,
    decreases n,
{
    if n > 0 {
        law_conditions(e, conditions, n - 1);
    }
}

/// A clause is about a slot if it starts with the slot's name and an equals sign.
pub proof fn law_clauses(rest: Seq<char>, other: Seq<char>)
    ensures
        bank_clause("slot1="@ + rest) == Some((1u8, rest)),
        bank_clause("slot2="@ + rest) == Some((2u8, rest)),
        !has_prefix(other, "slot1="@) && !has_prefix(other, "slot2="@) ==> bank_clause(
            other,
        ) is None,
{
    reveal_strlit("slot1=");
    reveal_strlit("slot2=");
    assert(("slot1="@ + rest).take(6) =~= "slot1="@);
    assert(("slot2="@ + rest).take(6) =~= "slot2="@);
    assert(("slot1="@ + rest).skip(6) =~= rest);
    assert(("slot2="@ + rest).skip(6) =~= rest);
    assert("slot1="@[4] == '1');
    assert("slot2="@[4] == '2');
}

// ---------------------------------------------------------------------------
// Scenes
// ---------------------------------------------------------------------------

/// Whether a step on the way to a scene is in order: waiting takes frames, tapping takes
/// buttons and not zero taps, pressing takes buttons and frames.
pub open spec fn is_sound_step(a: ActionView) -> bool {
    let framed = a.frames is Some && a.frames->0 > 0;
    ||| a.op == "step"@ && framed
    ||| a.op == "tap"@ && a.buttons.len() > 0 && a.count != Some(0u32)
    ||| a.op == "press"@ && a.buttons.len() > 0 && framed
}

proof fn lemma_ops()
    ensures
        "step"@ != "tap"@,
        "step"@ != "press"@,
        "tap"@ != "press"@,
        "active"@ != "pending"@,
{
    reveal_strlit("step");
    reveal_strlit("tap");
    reveal_strlit("press");
    reveal_strlit("active");
    reveal_strlit("pending");
    assert("step"@.len() == 4 && "tap"@.len() == 3 && "press"@.len() == 5);
    assert("active"@.len() == 6 && "pending"@.len() == 7);
}

proof fn lemma_steps(scene: Seq<char>, list: Seq<ActionView>, n: int)
    requires
        0 <= n <= list.len(),
    ensures
        actions_fault(scene, list, n) is None <==> forall|i: int|
            0 <= i < n ==> is_sound_step(#[trigger] list[i]),
    decreases n,
{
    if n > 0 {
        lemma_ops();
        lemma_steps(scene, list, n - 1);
        assert(action_fault(scene, n - 1, list[n - 1]) is None <==> is_sound_step(list[n - 1]));
    }
}

/// Whether a way to a scene is in order: made with the known tool, with a start, steps, a
/// screenshot with a checksum as evidence, and a text that it should show.
pub open spec fn is_sound_route(r: RouteView) -> bool {
    &&& r.tool == "emucap"@
    &&& is_filled(r.start)
    &&& r.actions.len() > 0
    &&& forall|i: int| 0 <= i < r.actions.len() ==> is_sound_step(#[trigger] r.actions[i])
    &&& is_filled(r.evidence_screenshot)
    &&& r.evidence_screenshot.len() >= 4 && r.evidence_screenshot.skip(
        r.evidence_screenshot.len() - 4,
    ) == ".png"@
    &&& is_filled(r.evidence_crc32) && crc_value(r.evidence_crc32) is Ok
    &&& is_filled(r.expected_text_ref)
}

proof fn lemma_all_probes(scene: Seq<char>, list: Seq<ProbeView>, n: int)
    requires
        0 <= n <= list.len(),
    ensures
        probes_fault(scene, list, n) is None <==> forall|i: int|
            0 <= i < n ==> probe_fault(scene, #[trigger] list[i]) is None,
    decreases n,
{
    if n > 0 {
        lemma_all_probes(scene, list, n - 1);
    }
}

/// A scene passes exactly if it has a name, notes and a known status; an active one names
/// its ROM and its screenshot and does not run for zero frames; a pending one has a way to
/// it or something to watch for; and the way and the probes, where there are some, pass.
pub proof fn law_accepted_scene(s: SceneView)
    ensures
        scene_fault(s) is None <==> {
            &&& is_filled(s.id)
            &&& is_filled(s.notes)
            &&& s.status == "active"@ || s.status == "pending"@
            &&& s.status == "active"@ ==> s.rom is Some && s.screenshot is Some && s.frames != Some(
                0u32,
            ) && (s.expected_crc32 is Some ==> crc_value(s.expected_crc32->0) is Ok)
            &&& s.status == "pending"@ ==> s.route is Some || s.probes.len() > 0
            &&& s.route is Some ==> is_sound_route(s.route->0)
            &&& forall|i: int|
                0 <= i < s.probes.len() ==> probe_fault(s.id, #[trigger] s.probes[i]) is None
        },
{
    lemma_ops();
    law_trim(s.id);
    law_trim(s.notes);
    lemma_all_probes(s.id, s.probes, s.probes.len() as int);
    if s.route is Some {
        let r = s.route->0;
        law_trim(r.start);
        law_trim(r.evidence_screenshot);
        law_trim(r.evidence_crc32);
        law_trim(r.expected_text_ref);
        lemma_steps(s.id, r.actions, r.actions.len() as int);
        assert(route_fault(s.id, r) is None <==> is_sound_route(r));
    }
}

/// Evidence is accepted exactly if it is a PNG file with the stated checksum.
pub proof fn law_evidence(scene: Seq<char>, path: Seq<char>, crc: Seq<char>, bytes: Seq<u8>)
    ensures
        evidence_fault(scene, path, crc, bytes) is None <==> {
            &&& bytes.len() >= 8
            &&& bytes.take(8) == seq![0x89u8, 0x50u8, 0x4Eu8, 0x47u8, 0x0Du8, 0x0Au8, 0x1Au8, 0x0Au8]
            &&& crc_value(crc) is Ok && crc_value(crc)->Ok_0 == crc32_of(bytes)
        },
{
    assert(crate::runtime_scene::PNG_MAGIC@ =~= seq![
        0x89u8,
        0x50u8,
        0x4Eu8,
        0x47u8,
        0x0Du8,
        0x0Au8,
        0x1Au8,
        0x0Au8,
    ]);
}

/// A screenshot is accepted exactly if it is not empty and has the stated checksum, where
/// one is stated.
pub proof fn law_screenshots(bytes: Seq<u8>, path: Seq<char>, expected: Option<Seq<char>>)
    ensures
        screenshot_fault(bytes, path, expected) is None <==> bytes.len() > 0 && (expected is Some
            ==> crc_value(expected->0) is Ok && crc_value(expected->0)->Ok_0 == crc32_of(bytes)),
{
}

proof fn lemma_planned(
    scenes: Seq<SceneView>,
    selection: Option<Seq<char>>,
    phase: Option<Seq<char>>,
    n: int,
    i: int,
)
    requires
        0 <= i < n <= scenes.len(),
        match selection {
            Some(id) => scenes[i].id == id,
            None => scenes[i].status == "pending"@,
        },
    ensures
        exists|k: int|
            0 <= k < planned_scenes(scenes, selection, phase, n).len() && (
            #[trigger] planned_scenes(scenes, selection, phase, n)[k]).scene == scenes[i]
                && planned_scenes(scenes, selection, phase, n)[k].probes == phase_steps(
                scenes[i].probes,
                phase,
                scenes[i].probes.len() as int,
            ),
    decreases n,
{
    let all = planned_scenes(scenes, selection, phase, n);
    let before = planned_scenes(scenes, selection, phase, n - 1);
    if i < n - 1 {
        lemma_planned(scenes, selection, phase, n - 1, i);
        let k = choose|k: int|
            0 <= k < before.len() && (#[trigger] before[k]).scene == scenes[i] && before[k].probes
                == phase_steps(scenes[i].probes, phase, scenes[i].probes.len() as int);
        assert(all[k] == before[k]);
    } else {
        assert(all[before.len() as int].scene == scenes[i]);
    }
}

/// A plan has the scene that was asked for, or every pending scene where none was, each
/// with the probes of the phase.
pub proof fn law_planned_scenes(
    scenes: Seq<SceneView>,
    selection: Option<Seq<char>>,
    phase: Option<Seq<char>>,
    i: int,
)
    requires
        0 <= i < scenes.len(),
        selection is Some ==> scenes[i].id == selection->0,
        selection is None ==> scenes[i].status == "pending"@,
    ensures
        exists|k: int|
            0 <= k < planned_scenes(scenes, selection, phase, scenes.len() as int).len() && (
            #[trigger] planned_scenes(scenes, selection, phase, scenes.len() as int)[k]).scene
                == scenes[i],
{
    lemma_planned(scenes, selection, phase, scenes.len() as int, i);
    let all = planned_scenes(scenes, selection, phase, scenes.len() as int);
    let k = choose|k: int|
        0 <= k < all.len() && (#[trigger] all[k]).scene == scenes[i] && all[k].probes == phase_steps(
            scenes[i].probes,
            phase,
            scenes[i].probes.len() as int,
        );
    assert(all[k].scene == scenes[i]);
}

// ---------------------------------------------------------------------------
// Reports
// ---------------------------------------------------------------------------

proof fn lemma_required(list: Seq<SceneEventSummary>, required: Seq<Seq<char>>, n: int)
    requires
        0 <= n <= required.len(),
    ensures
        required_fault(list, required, n) is None <==> forall|i: int|
            0 <= i < n ==> hits_of_probe(list, #[trigger] required[i], list.len() as int) > 0,
    decreases n,
{
    if n > 0 {
        lemma_required(list, required, n - 1);
    }
}

/// A report passes exactly if no events were lost, unless that is allowed; a scene was
/// chosen or there is only one; enough hits count; no hit does not count and no event is
/// left over where those are rejected; and every required probe has a hit that counts.
pub proof fn law_accepted_report(
    report: ProbeEventReport,
    selection: Option<Seq<char>>,
    rules: GateRules,
)
    ensures
        gate_fault(report, selection, rules) is None <==> {
            let list = chosen_scenes(report.scenes@, selection, report.scenes@.len() as int);
            let n = list.len() as int;
            &&& rules.allow_dropped_events || report.dropped_events == 0
            &&& selection is Some || report.scenes@.len() == 1
            &&& n > 0
            &&& valid_hits(list, n) >= rules.min_valid_hits
            &&& rules.reject_invalid_hits ==> invalid_hits(list, n) == 0
            &&& rules.reject_unmatched_events ==> report.unmatched_events@.len() == 0
            &&& forall|i: int|
                0 <= i < rules.required.len() ==> hits_of_probe(list, #[trigger] rules.required[i], n)
                    > 0
        },
{
    let list = chosen_scenes(report.scenes@, selection, report.scenes@.len() as int);
    lemma_required(list, rules.required, rules.required.len() as int);
}

} // verus!
