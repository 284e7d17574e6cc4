//! What a report on runtime probes counts.
use vstd::prelude::*;
use crate::error::Fault;
use crate::number_laws::law_addresses_read_back;
use crate::number_laws::law_hex_denotes;
use crate::parse::{index_or_len, is_space, split_spec};
use crate::parse_laws::law_words;
use crate::runtime_events::{
    bank_clause, bank_conditions, condition_value, event_match, first_word, hit_validity, slot_bank,
    verdict, without_commas, EventView,
};
use crate::runtime_gate::{
    chosen_scenes, hits_in_scene, hits_of_probe, invalid_hits, report_fault, valid_hits,
};
use crate::runtime_laws::law_clauses;
use crate::runtime_probe::{in_phase, request_of, ProbeView};
use crate::runtime_report::{
    any_probe, any_scene, dropped_total, file_sightings, hits_of, scene_summaries, scenes_fault,
    selected_scenes, selection_fault, sightings, summaries_of, unmatched, valid_count, with_hits,
    with_valid_hits, FileView, HitView, ProbeEventSummary, ProbeSummaryView, SceneEventSummary,
    SightingView,
};
use crate::runtime_scene::{
    manifest_fault, pending_ids, phase_steps, planned_scenes, scene_fault, SceneView,
};
use crate::tag_laws::lemma_trim_nothing;
use crate::text::hex;

verus! {

// ---------------------------------------------------------------------------
// Events
// ---------------------------------------------------------------------------

/// Every event of every file is seen, with the path of its file.
pub proof fn law_all_events_seen(files: Seq<FileView>, n: int, f: int, k: int)
    requires
        0 <= f < n <= files.len(),
        0 <= k < files[f].events.len(),
    ensures
        exists|i: int|
            0 <= i < sightings(files, n).len() && (#[trigger] sightings(files, n)[i]).path
                == files[f].path && sightings(files, n)[i].event == files[f].events[k],
    decreases n,
{
    let before = sightings(files, n - 1);
    let all = sightings(files, n);
    if f < n - 1 {
        law_all_events_seen(files, n - 1, f, k);
        let i = choose|i: int|
            0 <= i < before.len() && (#[trigger] before[i]).path == files[f].path && before[i].event
                == files[f].events[k];
        assert(all[i] == before[i]);
    } else {
        assert(all[before.len() + k] == file_sightings(files[f])[k]);
    }
}

/// How many events files hold.
pub open spec fn events_before(files: Seq<FileView>, n: int) -> int
    decreases n,
{
    if n <= 0 {
        0
    } else {
        files[n - 1].events.len() + events_before(files, n - 1)
    }
}

/// No event is seen twice: there are as many as the files hold. Events were dropped exactly
/// if some file says so.
pub proof fn law_seen_and_dropped(files: Seq<FileView>, n: int)
    requires
        0 <= n <= files.len(),
        forall|f: int| 0 <= f < files.len() ==> (#[trigger] files[f]).dropped >= 0,
    ensures
        sightings(files, n).len() == events_before(files, n),
        dropped_total(files, n) >= 0,
        dropped_total(files, n) == 0 <==> forall|f: int|
            0 <= f < n ==> (#[trigger] files[f]).dropped == 0,
        n > 0 ==> dropped_total(files, n) - dropped_total(files, n - 1) == files[n - 1].dropped,
    decreases n,
{
    if n > 0 {
        law_seen_and_dropped(files, n - 1);
    }
}

/// The events that a probe matches.
pub open spec fn matches_of(p: ProbeView, seen: Seq<SightingView>, n: int) -> Set<int> {
    Set::new(|i: int| 0 <= i < n && event_match(p, seen[i].event) == Ok::<bool, Fault>(true))
}

/// The hits of a probe are the events that it matches, as many and no others, each with what
/// the probe's condition says of it.
pub proof fn law_hits_are_matches(p: ProbeView, seen: Seq<SightingView>, n: int)
    requires
        0 <= n <= seen.len(),
        hits_of(p, seen, n) is Ok,
    ensures
        matches_of(p, seen, n).finite(),
        hits_of(p, seen, n)->Ok_0.len() == matches_of(p, seen, n).len(),
        forall|k: int|
            0 <= k < hits_of(p, seen, n)->Ok_0.len() ==> {
                let h = #[trigger] hits_of(p, seen, n)->Ok_0[k];
                &&& event_match(p, h.seen.event) == Ok::<bool, Fault>(true)
                &&& hit_validity(p, h.seen.event) == Ok::<
                    (Option<bool>, Option<Seq<char>>),
                    Fault,
                >((h.matched, h.detail))
            },
    decreases n,
{
    let here = matches_of(p, seen, n);
    if n == 0 {
        assert(here =~= Set::empty());
    } else {
        law_hits_are_matches(p, seen, n - 1);
        let before = matches_of(p, seen, n - 1);
        if event_match(p, seen[n - 1].event) == Ok::<bool, Fault>(true) {
            assert(here =~= before.insert(n - 1));
        } else {
            assert(here =~= before);
        }
    }
}

/// The hits that count: those whose condition did not fail.
pub open spec fn counting_hits(hits: Seq<HitView>, n: int) -> Set<int> {
    Set::new(|k: int| 0 <= k < n && (hits[k].matched is Some ==> hits[k].matched->0))
}

/// A hit counts unless its condition failed.
pub proof fn law_counting_hits(hits: Seq<HitView>, n: int)
    requires
        0 <= n <= hits.len(),
    ensures
        counting_hits(hits, n).finite(),
        valid_count(hits, n) == counting_hits(hits, n).len(),
    decreases n,
{
    let here = counting_hits(hits, n);
    if n == 0 {
        assert(here =~= Set::empty());
    } else {
        law_counting_hits(hits, n - 1);
        let before = counting_hits(hits, n - 1);
        if hits[n - 1].matched is Some && !hits[n - 1].matched->0 {
            assert(here =~= before);
        } else {
            assert(here =~= before.insert(n - 1));
        }
    }
}

/// Whether some probe of the scenes matches an event.
pub open spec fn is_expected(scenes: Seq<SceneView>, e: EventView) -> bool {
    exists|s: int, k: int|
        0 <= s < scenes.len() && 0 <= k < scenes[s].probes.len() && event_match(
            #[trigger] scenes[s].probes[k],
            e,
        ) == Ok::<bool, Fault>(true)
}

proof fn lemma_any_probe(probes: Seq<ProbeView>, e: EventView, i: int)
    requires
        0 <= i,
        any_probe(probes, e, i) is Ok,
    ensures
        any_probe(probes, e, i)->Ok_0 <==> exists|k: int|
            i <= k < probes.len() && event_match(#[trigger] probes[k], e) == Ok::<bool, Fault>(true),
    decreases probes.len() - i,
{
    if i < probes.len() {
        if event_match(probes[i], e) == Ok::<bool, Fault>(false) {
            lemma_any_probe(probes, e, i + 1);
        } else {
            assert(event_match(probes[i], e) == Ok::<bool, Fault>(true));
        }
    }
}

proof fn lemma_any_scene(scenes: Seq<SceneView>, e: EventView, i: int)
    requires
        0 <= i,
        any_scene(scenes, e, i) is Ok,
    ensures
        any_scene(scenes, e, i)->Ok_0 <==> exists|s: int, k: int|
            i <= s < scenes.len() && 0 <= k < scenes[s].probes.len() && event_match(
                #[trigger] scenes[s].probes[k],
                e,
            ) == Ok::<bool, Fault>(true),
    decreases scenes.len() - i,
{
    if i < scenes.len() {
        lemma_any_probe(scenes[i].probes, e, 0);
        if any_probe(scenes[i].probes, e, 0) == Ok::<bool, Fault>(false) {
            lemma_any_scene(scenes, e, i + 1);
        } else {
            let k = choose|k: int|
                0 <= k < scenes[i].probes.len() && event_match(#[trigger] scenes[i].probes[k], e)
                    == Ok::<bool, Fault>(true);
            assert(event_match(scenes[i].probes[k], e) == Ok::<bool, Fault>(true));
        }
    }
}

/// The events that are left over are those that no probe of the scenes matches.
pub proof fn law_left_over(scenes: Seq<SceneView>, seen: Seq<SightingView>, n: int)
    requires
        0 <= n <= seen.len(),
        unmatched(scenes, seen, n) is Ok,
    ensures
        forall|k: int|
            0 <= k < unmatched(scenes, seen, n)->Ok_0.len() ==> !is_expected(
                scenes,
                (#[trigger] unmatched(scenes, seen, n)->Ok_0[k]).event,
            ),
        forall|i: int|
            0 <= i < n && !is_expected(scenes, (#[trigger] seen[i]).event) ==> unmatched(
                scenes,
                seen,
                n,
            )->Ok_0.contains(seen[i]),
    decreases n,
{
    if n > 0 {
        law_left_over(scenes, seen, n - 1);
        lemma_any_scene(scenes, seen[n - 1].event, 0);
        let before = unmatched(scenes, seen, n - 1)->Ok_0;
        let all = unmatched(scenes, seen, n)->Ok_0;
        assert forall|i: int| 0 <= i < n && !is_expected(scenes, (#[trigger] seen[i]).event)
            implies all.contains(seen[i]) by {
            if i < n - 1 {
                let k = choose|k: int| 0 <= k < before.len() && before[k] == seen[i];
                assert(all[k] == seen[i]);
            } else {
                assert(all[before.len() as int] == seen[i]);
            }
        }
    }
}

// ---------------------------------------------------------------------------
// Conditions
// ---------------------------------------------------------------------------

/// The condition that a slot holds a bank.
pub open spec fn slot_is(slot: Seq<char>, bank: u8) -> Seq<char> {
    slot + ("0x"@ + hex(bank as int, 2))
}

proof fn lemma_slot_is(slot: Seq<char>, bank: u8)
    requires
        slot == "slot1="@ || slot == "slot2="@,
    ensures
        forall|i: int|
            0 <= i < slot_is(slot, bank).len() ==> !is_space(#[trigger] slot_is(slot, bank)[i])
                && slot_is(slot, bank)[i] != ';',
        slot_is(slot, bank).len() > 0,
        bank_clause(slot_is(slot, bank)) == Some(
            (
                if slot == "slot1="@ {
                    1u8
                } else {
                    2u8
                },
                "0x"@ + hex(bank as int, 2),
            ),
        ),
        condition_value("0x"@ + hex(bank as int, 2)) == Ok::<u8, Fault>(bank),
{
    reveal_strlit("slot1=");
    reveal_strlit("slot2=");
    reveal_strlit("0x");
    law_hex_denotes(bank as int, 2);
    law_addresses_read_back(bank as int, 2);
    let w = "0x"@ + hex(bank as int, 2);
    law_clauses(w, w);
    lemma_slot_words();
    assert forall|i: int| 0 <= i < w.len() implies !is_space(#[trigger] w[i]) && w[i] != ';' && w[i]
        != ',' by {
        if i >= 2 {
            assert(w[i] == hex(bank as int, 2)[i - 2]);
        }
    }
    assert forall|i: int| 0 <= i < slot_is(slot, bank).len() implies !is_space(
        #[trigger] slot_is(slot, bank)[i],
    ) && slot_is(slot, bank)[i] != ';' by {
        if i >= 6 {
            assert(slot_is(slot, bank)[i] == w[i - 6]);
        }
    }
    law_words(w, ' ', w);
    assert(first_word(w) == w);
    assert(w[w.len() - 1] != ',');
    assert(without_commas(w) == w);
}

proof fn lemma_first_piece(a: Seq<char>, c: char, rest: Seq<char>)
    requires
        forall|i: int| 0 <= i < a.len() ==> #[trigger] a[i] != c,
    ensures
        index_or_len(a + seq![c] + rest, c) == a.len(),
        index_or_len(a, c) == a.len(),
    decreases a.len(),
{
    let s = a + seq![c] + rest;
    if a.len() > 0 {
        let tail = a.drop_first();
        assert forall|i: int| 0 <= i < tail.len() implies #[trigger] tail[i] != c by {
            assert(tail[i] == a[i + 1]);
        }
        lemma_first_piece(tail, c, rest);
        assert(s.drop_first() =~= tail + seq![c] + rest);
    }
}

/// Whether a text is a clause for a slot and a bank, without white space or separators.
spec fn is_clause(x: Seq<char>, slot: u8, bank: u8) -> bool {
    &&& x.len() > 0
    &&& forall|i: int| 0 <= i < x.len() ==> !is_space(#[trigger] x[i]) && x[i] != ';'
    &&& match bank_clause(x) {
        Some(c) => c.0 == slot && condition_value(c.1) == Ok::<u8, Fault>(bank),
        None => false,
    }
}

proof fn lemma_one_clause(p: ProbeView, e: EventView, x: Seq<char>, slot: u8, bank: u8)
    requires
        is_clause(x, slot, bank),
        slot_bank(e, slot as int) is Ok,
        p.valid_when == Some(x),
    ensures
        hit_validity(p, e) is Ok,
        hit_validity(p, e)->Ok_0.0 == Some(slot_bank(e, slot as int)->Ok_0 == Some(bank)),
{
    lemma_trim_nothing(x);
    lemma_first_piece(x, ';', x);
    assert(split_spec(x, ';') =~= seq![x]);
    reveal_with_fuel(bank_conditions, 2);
    reveal_with_fuel(verdict, 2);
    assert(bank_conditions(seq![x], 1)->Ok_0 =~= seq![(slot, bank)]);
}

proof fn lemma_two_clauses(
    p: ProbeView,
    e: EventView,
    x: Seq<char>,
    y: Seq<char>,
    s: u8,
    t: u8,
    a: u8,
    b: u8,
)
    requires
        is_clause(x, s, a),
        is_clause(y, t, b),
        slot_bank(e, s as int) is Ok,
        slot_bank(e, t as int) is Ok,
        p.valid_when == Some(x + seq![';'] + y),
    ensures
        hit_validity(p, e) is Ok,
        hit_validity(p, e)->Ok_0.0 == Some(
            slot_bank(e, s as int)->Ok_0 == Some(a) && slot_bank(e, t as int)->Ok_0 == Some(b),
        ),
{
    let both = x + seq![';'] + y;
    lemma_trim_nothing(x);
    lemma_trim_nothing(y);
    assert forall|i: int| 0 <= i < both.len() implies !is_space(#[trigger] both[i]) by {
        if i < x.len() {
            assert(both[i] == x[i]);
        } else if i > x.len() {
            assert(both[i] == y[i - x.len() - 1]);
        }
    }
    lemma_trim_nothing(both);
    lemma_first_piece(x, ';', y);
    lemma_first_piece(y, ';', y);
    assert(both.take(x.len() as int) =~= x);
    assert(both.skip(x.len() as int + 1) =~= y);
    assert(split_spec(y, ';') =~= seq![y]);
    let list = seq![x, y];
    assert(split_spec(both, ';') =~= list);
    let one = seq![(s, a)];
    let two = seq![(s, a), (t, b)];
    assert(bank_conditions(list, 0) == Ok::<Seq<(u8, u8)>, Fault>(Seq::empty()));
    assert(bank_conditions(list, 1)->Ok_0 =~= one);
    assert(bank_conditions(list, 2)->Ok_0 =~= two);
    assert(verdict(e, two, 0)->Ok_0.0);
    assert(verdict(e, two, 1)->Ok_0.0 == (slot_bank(e, s as int)->Ok_0 == Some(a)));
}

/// A hit counts exactly if each slot that the condition names held the bank that it names;
/// conditions are separated by semicolons.
pub proof fn law_bank_conditions(p: ProbeView, e: EventView, a: u8, b: u8)
    requires
        slot_bank(e, 1) is Ok,
        slot_bank(e, 2) is Ok,
    ensures
        p.valid_when == Some(slot_is("slot1="@, a)) ==> hit_validity(p, e) is Ok && hit_validity(
            p,
            e,
        )->Ok_0.0 == Some(slot_bank(e, 1)->Ok_0 == Some(a)),
        p.valid_when == Some(slot_is("slot2="@, b)) ==> hit_validity(p, e) is Ok && hit_validity(
            p,
            e,
        )->Ok_0.0 == Some(slot_bank(e, 2)->Ok_0 == Some(b)),
        p.valid_when == Some(slot_is("slot1="@, a) + seq![';'] + slot_is("slot2="@, b))
            ==> hit_validity(p, e) is Ok && hit_validity(p, e)->Ok_0.0 == Some(
            slot_bank(e, 1)->Ok_0 == Some(a) && slot_bank(e, 2)->Ok_0 == Some(b),
        ),
{
    let x = slot_is("slot1="@, a);
    let y = slot_is("slot2="@, b);
    lemma_slot_is("slot1="@, a);
    lemma_slot_is("slot2="@, b);
    lemma_slot_words();
    assert(is_clause(x, 1, a));
    assert(is_clause(y, 2, b));
    if p.valid_when == Some(x) {
        lemma_one_clause(p, e, x, 1, a);
    }
    if p.valid_when == Some(y) {
        lemma_one_clause(p, e, y, 2, b);
    }
    if p.valid_when == Some(x + seq![';'] + y) {
        lemma_two_clauses(p, e, x, y, 1, 2, a, b);
    }
}

proof fn lemma_slot_words()
    ensures
        "slot1="@ != "slot2="@,
{
    reveal_strlit("slot1=");
    reveal_strlit("slot2=");
    assert("slot1="@[4] == '1');
    assert("slot2="@[4] == '2');
}

/// Nothing is decided about a hit whose probe states no condition.
pub proof fn law_no_condition(p: ProbeView, e: EventView)
    ensures
        p.valid_when is None ==> hit_validity(p, e) is Ok && hit_validity(p, e)->Ok_0.0 is None,
{
}

/// Only the first word behind the equals sign counts, and commas behind it do not.
pub proof fn law_condition_words(w: Seq<char>, rest: Seq<char>)
    requires
        w.len() > 0,
        forall|i: int| 0 <= i < w.len() ==> !is_space(#[trigger] w[i]),
    ensures
        first_word(w + (seq![' '] + rest)) == w,
        without_commas(w + seq![',']) == without_commas(w),
{
    law_words(w, ' ', rest);
    assert((w + seq![',']).drop_last() =~= w);
}

// ---------------------------------------------------------------------------
// Scenes
// ---------------------------------------------------------------------------

/// The scenes of a report are the one that was asked for, or all, in order.
pub proof fn law_selected_scenes(scenes: Seq<SceneView>, selection: Option<Seq<char>>, n: int)
    requires
        0 <= n <= scenes.len(),
    ensures
        selection is None ==> selected_scenes(scenes, selection, n) == scenes.take(n),
        forall|i: int|
            0 <= i < n && (selection is Some ==> (#[trigger] scenes[i]).id == selection->0)
                ==> selected_scenes(scenes, selection, n).contains(scenes[i]),
        forall|k: int|
            0 <= k < selected_scenes(scenes, selection, n).len() && selection is Some ==> (
            #[trigger] selected_scenes(scenes, selection, n)[k]).id == selection->0,
    decreases n,
{
    let all = selected_scenes(scenes, selection, n);
    if n == 0 {
        assert(scenes.take(0) =~= Seq::empty());
    } else {
        law_selected_scenes(scenes, selection, n - 1);
        let before = selected_scenes(scenes, selection, n - 1);
        assert(scenes.take(n) =~= scenes.take(n - 1).push(scenes[n - 1]));
        assert forall|i: int|
            0 <= i < n && (selection is Some ==> (#[trigger] scenes[i]).id == selection->0)
            implies all.contains(scenes[i]) by {
            if i < n - 1 {
                let k = choose|k: int| 0 <= k < before.len() && before[k] == scenes[i];
                assert(all[k] == scenes[i]);
            } else {
                assert(all[before.len() as int] == scenes[i]);
            }
        }
    }
}

proof fn lemma_all_scenes(scenes: Seq<SceneView>, n: int)
    requires
        0 <= n <= scenes.len(),
    ensures
        scenes_fault(scenes, n) is None <==> forall|i: int|
            0 <= i < n ==> scene_fault(#[trigger] scenes[i]) is None,
    decreases n,
{
    if n > 0 {
        lemma_all_scenes(scenes, n - 1);
    }
}

/// Scenes can be reported on exactly if each passes and at least one is asked for.
pub proof fn law_reportable(scenes: Seq<SceneView>, selection: Option<Seq<char>>)
    ensures
        selection_fault(scenes, selection) is None <==> (forall|i: int|
            0 <= i < scenes.len() ==> scene_fault(#[trigger] scenes[i]) is None) && exists|i: int|
            0 <= i < scenes.len() && (selection is Some ==> (#[trigger] scenes[i]).id
                == selection->0),
{
    let n = scenes.len() as int;
    lemma_all_scenes(scenes, n);
    law_selected_scenes(scenes, selection, n);
    if selected_scenes(scenes, selection, n).len() > 0 {
        lemma_selected_from(scenes, selection, n);
    }
}

proof fn lemma_selected_from(scenes: Seq<SceneView>, selection: Option<Seq<char>>, n: int)
    requires
        0 <= n <= scenes.len(),
        selected_scenes(scenes, selection, n).len() > 0,
    ensures
        exists|i: int|
            0 <= i < n && (selection is Some ==> (#[trigger] scenes[i]).id == selection->0),
    decreases n,
{
    if selection is None || scenes[n - 1].id == selection->0 {
        assert(scenes[n - 1] == scenes[n - 1]);
    } else {
        lemma_selected_from(scenes, selection, n - 1);
    }
}

/// The steps for a phase are the probes of that phase with what each asks the emulator for.
pub proof fn law_phase_steps(list: Seq<ProbeView>, phase: Option<Seq<char>>, n: int)
    requires
        0 <= n <= list.len(),
    ensures
        forall|i: int|
            0 <= i < n && in_phase(#[trigger] list[i], phase) ==> phase_steps(
                list,
                phase,
                n,
            ).contains((list[i], request_of(list[i]))),
        forall|k: int|
            0 <= k < phase_steps(list, phase, n).len() ==> in_phase(
                (#[trigger] phase_steps(list, phase, n)[k]).0,
                phase,
            ),
    decreases n,
{
    let all = phase_steps(list, phase, n);
    if n > 0 {
        law_phase_steps(list, phase, n - 1);
        let before = phase_steps(list, phase, n - 1);
        assert forall|i: int| 0 <= i < n && in_phase(#[trigger] list[i], phase) implies all.contains(
            (list[i], request_of(list[i])),
        ) by {
            if i < n - 1 {
                let k = choose|k: int|
                    0 <= k < before.len() && before[k] == (list[i], request_of(list[i]));
                assert(all[k] == before[k]);
            } else {
                assert(all[before.len() as int] == (list[i], request_of(list[i])));
            }
        }
    }
}

/// A plan has no scene that was not asked for; where none was asked for, none that is not
/// pending.
pub proof fn law_only_planned(
    scenes: Seq<SceneView>,
    selection: Option<Seq<char>>,
    phase: Option<Seq<char>>,
    n: int,
)
    requires
        0 <= n <= scenes.len(),
    ensures
        forall|k: int|
            0 <= k < planned_scenes(scenes, selection, phase, n).len() ==> {
                let s = (#[trigger] planned_scenes(scenes, selection, phase, n)[k]).scene;
                &&& selection is Some ==> s.id == selection->0
                &&& selection is None ==> s.status == "pending"@
            },
        planned_scenes(scenes, selection, phase, n).len() <= n,
    decreases n,
{
    if n > 0 {
        law_only_planned(scenes, selection, phase, n - 1);
    }
}

/// What is listed as pending are the names of the pending scenes.
pub proof fn law_pending_names(scenes: Seq<SceneView>, n: int, i: int)
    requires
        0 <= i < n <= scenes.len(),
    ensures
        scenes[i].status == "pending"@ ==> pending_ids(scenes, n).contains(scenes[i].id),
    decreases n,
{
    let all = pending_ids(scenes, n);
    let before = pending_ids(scenes, n - 1);
    if scenes[i].status == "pending"@ {
        if i < n - 1 {
            law_pending_names(scenes, n - 1, i);
            let k = choose|k: int| 0 <= k < before.len() && before[k] == scenes[i].id;
            assert(all[k] == before[k]);
        } else {
            assert(all[before.len() as int] == scenes[i].id);
        }
    }
}

/// A list of scenes is read exactly if it is in the known format and not empty; so is a
/// report on scenes.
pub proof fn law_formats(format: Seq<char>, scenes: int, path: Seq<char>)
    ensures
        manifest_fault(format, scenes) is None <==> format == "madoua-runtime-scenes-v1"@ && scenes
            != 0,
        report_fault(format, scenes, path) is None <==> format
            == "madoua-runtime-probe-events-summary-v1"@ && scenes != 0,
{
}

// ---------------------------------------------------------------------------
// Sums
// ---------------------------------------------------------------------------

/// The scenes that count are the one that was asked for, or all.
pub proof fn law_chosen_scenes(
    scenes: Seq<SceneEventSummary>,
    selection: Option<Seq<char>>,
    n: int,
)
    requires
        0 <= n <= scenes.len(),
    ensures
        selection is None ==> chosen_scenes(scenes, selection, n) == scenes.take(n),
        forall|i: int|
            0 <= i < n && (selection is Some ==> (#[trigger] scenes[i]).scene_id@ == selection->0)
                ==> chosen_scenes(scenes, selection, n).contains(scenes[i]),
        forall|k: int|
            0 <= k < chosen_scenes(scenes, selection, n).len() && selection is Some ==> (
            #[trigger] chosen_scenes(scenes, selection, n)[k]).scene_id@ == selection->0,
    decreases n,
{
    let all = chosen_scenes(scenes, selection, n);
    if n == 0 {
        assert(scenes.take(0) =~= Seq::empty());
    } else {
        law_chosen_scenes(scenes, selection, n - 1);
        let before = chosen_scenes(scenes, selection, n - 1);
        assert(scenes.take(n) =~= scenes.take(n - 1).push(scenes[n - 1]));
        assert forall|i: int|
            0 <= i < n && (selection is Some ==> (#[trigger] scenes[i]).scene_id@ == selection->0)
            implies all.contains(scenes[i]) by {
            if i < n - 1 {
                let k = choose|k: int| 0 <= k < before.len() && before[k] == scenes[i];
                assert(all[k] == scenes[i]);
            } else {
                assert(all[before.len() as int] == scenes[i]);
            }
        }
    }
}

/// No hit counts exactly if none counts in any scene, and likewise for the others; a single
/// scene contributes what it has.
pub proof fn law_hit_sums(scenes: Seq<SceneEventSummary>, n: int)
    requires
        0 <= n <= scenes.len(),
    ensures
        valid_hits(scenes, n) >= 0,
        invalid_hits(scenes, n) >= 0,
        valid_hits(scenes, n) == 0 <==> forall|i: int|
            0 <= i < n ==> (#[trigger] scenes[i]).valid_hit_count == 0,
        invalid_hits(scenes, n) == 0 <==> forall|i: int|
            0 <= i < n ==> (#[trigger] scenes[i]).invalid_hit_count == 0,
        n == 1 ==> valid_hits(scenes, n) == scenes[0].valid_hit_count && invalid_hits(scenes, n)
            == scenes[0].invalid_hit_count,
    decreases n,
{
    if n > 0 {
        law_hit_sums(scenes, n - 1);
        assert(n == 1 ==> valid_hits(scenes, 0) == 0 && invalid_hits(scenes, 0) == 0);
    }
}

proof fn lemma_probe_in_scene(probes: Seq<ProbeEventSummary>, id: Seq<char>, n: int)
    requires
        0 <= n <= probes.len(),
    ensures
        hits_in_scene(probes, id, n) >= 0,
        hits_in_scene(probes, id, n) > 0 <==> exists|k: int|
            0 <= k < n && (#[trigger] probes[k]).probe_id@ == id && probes[k].valid_hit_count > 0,
    decreases n,
{
    if n > 0 {
        lemma_probe_in_scene(probes, id, n - 1);
        if probes[n - 1].probe_id@ == id && probes[n - 1].valid_hit_count > 0 {
            assert(probes[n - 1].probe_id@ == id);
        }
    }
}

/// A probe was hit exactly if one of its name has a hit that counts in some scene.
pub proof fn law_probe_was_hit(scenes: Seq<SceneEventSummary>, id: Seq<char>, n: int)
    requires
        0 <= n <= scenes.len(),
    ensures
        hits_of_probe(scenes, id, n) >= 0,
        hits_of_probe(scenes, id, n) > 0 <==> exists|s: int, k: int|
            0 <= s < n && 0 <= k < scenes[s].probes@.len() && (
            #[trigger] scenes[s].probes@[k]).probe_id@ == id && scenes[s].probes@[k].valid_hit_count
                > 0,
    decreases n,
{
    if n > 0 {
        law_probe_was_hit(scenes, id, n - 1);
        let last = scenes[n - 1].probes@;
        lemma_probe_in_scene(last, id, last.len() as int);
        if hits_in_scene(last, id, last.len() as int) > 0 {
            let k = choose|k: int|
                0 <= k < last.len() && (#[trigger] last[k]).probe_id@ == id
                    && last[k].valid_hit_count > 0;
            assert(scenes[n - 1].probes@[k].probe_id@ == id);
        }
    }
}

// ---------------------------------------------------------------------------
// Summaries
// ---------------------------------------------------------------------------

/// What a report says of a scene covers exactly the probes that have a breakpoint, in order,
/// each with its hits.
pub proof fn law_probe_summaries(probes: Seq<ProbeView>, seen: Seq<SightingView>, n: int, i: int)
    requires
        0 <= n <= probes.len(),
        summaries_of(probes, seen, n) is Ok,
    ensures
        0 <= i < n && request_of(probes[i]) is Some ==> exists|k: int|
            0 <= k < summaries_of(probes, seen, n)->Ok_0.len() && (#[trigger] summaries_of(
                probes,
                seen,
                n,
            )->Ok_0[k]).probe == probes[i] && hits_of(probes[i], seen, seen.len() as int) == Ok::<
                Seq<HitView>,
                Fault,
            >(summaries_of(probes, seen, n)->Ok_0[k].hits),
        forall|k: int|
            0 <= k < summaries_of(probes, seen, n)->Ok_0.len() ==> request_of(
                (#[trigger] summaries_of(probes, seen, n)->Ok_0[k]).probe,
            ) is Some && hits_of(
                summaries_of(probes, seen, n)->Ok_0[k].probe,
                seen,
                seen.len() as int,
            ) == Ok::<Seq<HitView>, Fault>(summaries_of(probes, seen, n)->Ok_0[k].hits),
    decreases n,
{
    if n > 0 {
        law_probe_summaries(probes, seen, n - 1, i);
        let before = summaries_of(probes, seen, n - 1)->Ok_0;
        let all = summaries_of(probes, seen, n)->Ok_0;
        if 0 <= i < n - 1 && request_of(probes[i]) is Some {
            let k = choose|k: int|
                0 <= k < before.len() && (#[trigger] before[k]).probe == probes[i] && hits_of(
                    probes[i],
                    seen,
                    seen.len() as int,
                ) == Ok::<Seq<HitView>, Fault>(before[k].hits);
            assert(all[k] == before[k]);
        } else if i == n - 1 && request_of(probes[i]) is Some {
            assert(all[before.len() as int].probe == probes[i]);
        }
    }
}

/// A report has one part for each scene, in order, under the scene's name.
pub proof fn law_scene_summaries(scenes: Seq<SceneView>, seen: Seq<SightingView>, n: int, i: int)
    requires
        0 <= i < n <= scenes.len(),
        scene_summaries(scenes, seen, n) is Ok,
    ensures
        scene_summaries(scenes, seen, n)->Ok_0.len() == n,
        scene_summaries(scenes, seen, n)->Ok_0[i].id == scenes[i].id,
        summaries_of(scenes[i].probes, seen, scenes[i].probes.len() as int) == Ok::<
            Seq<ProbeSummaryView>,
            Fault,
        >(scene_summaries(scenes, seen, n)->Ok_0[i].probes),
    decreases n,
{
    if n > 1 {
        law_scene_summaries(scenes, seen, n - 1, if i < n - 1 {
            i
        } else {
            0
        });
    } else {
        assert(scene_summaries(scenes, seen, 0)->Ok_0.len() == 0);
    }
}

/// The probes of a list that were hit.
pub open spec fn hit_probes(list: Seq<ProbeSummaryView>, n: int) -> Set<int> {
    Set::new(|i: int| 0 <= i < n && list[i].hits.len() > 0)
}

/// The probes of a list with a hit that counts.
pub open spec fn counting_probes(list: Seq<ProbeSummaryView>, n: int) -> Set<int> {
    Set::new(
        |i: int|
            0 <= i < n && exists|k: int|
                0 <= k < list[i].hits.len() && ((#[trigger] list[i].hits[k]).matched is Some
                    ==> list[i].hits[k].matched->0),
    )
}

/// Probes are counted that were hit, and those of them with a hit that counts.
pub proof fn law_counted_probes(list: Seq<ProbeSummaryView>, n: int)
    requires
        0 <= n <= list.len(),
    ensures
        hit_probes(list, n).finite(),
        with_hits(list, n) == hit_probes(list, n).len(),
        counting_probes(list, n).finite(),
        with_valid_hits(list, n) == counting_probes(list, n).len(),
    decreases n,
{
    if n == 0 {
        assert(hit_probes(list, n) =~= Set::empty());
        assert(counting_probes(list, n) =~= Set::empty());
    } else {
        law_counted_probes(list, n - 1);
        let s = list[n - 1];
        let count = s.hits.len() as int;
        law_counting_hits(s.hits, count);
        let good = counting_hits(s.hits, count);
        if s.hits.len() > 0 {
            assert(hit_probes(list, n) =~= hit_probes(list, n - 1).insert(n - 1));
        } else {
            assert(hit_probes(list, n) =~= hit_probes(list, n - 1));
        }
        if valid_count(s.hits, count) > 0 {
            let k = good.choose();
            assert(good.contains(k));
            assert(s.hits[k].matched is Some ==> s.hits[k].matched->0);
            assert(counting_probes(list, n) =~= counting_probes(list, n - 1).insert(n - 1));
        } else {
            assert(good =~= Set::empty());
            assert forall|k: int| 0 <= k < s.hits.len() implies !(
            (#[trigger] s.hits[k]).matched is Some ==> s.hits[k].matched->0) by {
                assert(!good.contains(k));
            }
            assert(counting_probes(list, n) =~= counting_probes(list, n - 1));
        }
    }
}

} // verus!
