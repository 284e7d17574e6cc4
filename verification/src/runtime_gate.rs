//! The rules that a report on probes has to meet.
use vstd::prelude::*;
use crate::error::{first_fault, plain, Fault, PatchError};
use crate::jp_text::opt_view;
use crate::parse::{same_str, string_views};
use crate::runtime_report::{ProbeEventReport, ProbeEventSummary, SceneEventSummary};
use crate::script::fault_outcome;
use crate::text::{dec, text};

verus! {

/// What the rules were held against.
#[derive(Debug)]
pub struct ProbeSummaryGateResult {
    /// How many scenes were looked at.
    pub scenes_checked: usize,
    /// How many hits count.
    pub valid_hit_count: usize,
    /// How many hits do not.
    pub invalid_hit_count: usize,
    /// How many events no probe was watching for.
    pub unmatched_event_count: usize,
}

/// What the rules ask for.
pub struct GateRules {
    /// How many hits have to count.
    pub min_valid_hits: int,
    /// The probes that need a hit that counts.
    pub required: Seq<Seq<char>>,
    /// Whether there may be no hit that does not count.
    pub reject_invalid_hits: bool,
    /// Whether there may be no event that no probe was watching for.
    pub reject_unmatched_events: bool,
    /// Whether events may have been lost.
    pub allow_dropped_events: bool,
}

/// What is wrong with a report as a whole, if anything.
pub open spec fn report_fault(format: Seq<char>, scenes: int, path: Seq<char>) -> Option<Fault> {
    if format != "madoua-runtime-probe-events-summary-v1"@ {
        Some(plain("지원하지 않는 probe summary format: "@ + format))
    } else if scenes == 0 {
        Some(plain("probe summary scenes가 비어 있음: "@ + path))
    } else {
        None
    }
}

/// Checks a report as a whole.
pub fn check_probe_report_header(report: &ProbeEventReport, path: &str) -> (res: Result<
    (),
    PatchError,
>)
    ensures
        fault_outcome(res) == report_fault(
            report.format@,
            report.scenes@.len() as int,
            path@,
        ),
{
    if !same_str(report.format.as_str(), "madoua-runtime-probe-events-summary-v1") {
        return Err(
            text("지원하지 않는 probe summary format: ").lit(report.format.as_str()).fail(),
        );
    }
    if report.scenes.len() == 0 {
        return Err(text("probe summary scenes가 비어 있음: ").lit(path).fail());
    }
    Ok(())
}

/// The scenes among the first `n` that were chosen.
pub open spec fn chosen_scenes(
    scenes: Seq<SceneEventSummary>,
    selection: Option<Seq<char>>,
    n: int,
) -> Seq<SceneEventSummary>
    decreases n,
{
    if n <= 0 {
        Seq::empty()
    } else if selection is None || scenes[n - 1].scene_id@ == selection->0 {
        chosen_scenes(scenes, selection, n - 1).push(scenes[n - 1])
    } else {
        chosen_scenes(scenes, selection, n - 1)
    }
}

/// How many hits of the first `n` scenes count.
pub open spec fn valid_hits(scenes: Seq<SceneEventSummary>, n: int) -> int
    decreases n,
{
    if n <= 0 {
        0
    } else {
        valid_hits(scenes, n - 1) + scenes[n - 1].valid_hit_count
    }
}

/// How many hits of the first `n` scenes do not count.
pub open spec fn invalid_hits(scenes: Seq<SceneEventSummary>, n: int) -> int
    decreases n,
{
    if n <= 0 {
        0
    } else {
        invalid_hits(scenes, n - 1) + scenes[n - 1].invalid_hit_count
    }
}

/// How many hits count of the probes with a given name among the first `n` of a scene.
pub open spec fn hits_in_scene(probes: Seq<ProbeEventSummary>, id: Seq<char>, n: int) -> int
    decreases n,
{
    if n <= 0 {
        0
    } else {
        hits_in_scene(probes, id, n - 1) + if probes[n - 1].probe_id@ == id {
            probes[n - 1].valid_hit_count as int
        } else {
            0
        }
    }
}

/// How many hits count of the probes with a given name in the first `n` scenes.
pub open spec fn hits_of_probe(scenes: Seq<SceneEventSummary>, id: Seq<char>, n: int) -> int
    decreases n,
{
    if n <= 0 {
        0
    } else {
        hits_of_probe(scenes, id, n - 1) + hits_in_scene(
            scenes[n - 1].probes@,
            id,
            scenes[n - 1].probes@.len() as int,
        )
    }
}

/// What is said of the first of the required probes that has no hit that counts.
pub open spec fn required_fault(
    list: Seq<SceneEventSummary>,
    required: Seq<Seq<char>>,
    n: int,
) -> Option<Fault>
    decreases n,
{
    if n <= 0 {
        None
    } else {
        match required_fault(list, required, n - 1) {
            Some(f) => Some(f),
            None => if hits_of_probe(list, required[n - 1], list.len() as int) > 0 {
                None
            } else {
                Some(
                    plain(
                        "runtime probe summary gate failed: required probe "@ + required[n - 1]
                            + " has no valid hits"@,
                    ),
                )
            },
        }
    }
}

/// What stands in the way of looking at the hits of a report, if anything does.
pub open spec fn choice_fault(
    report: ProbeEventReport,
    selection: Option<Seq<char>>,
    rules: GateRules,
) -> Option<Fault> {
    let list = chosen_scenes(report.scenes@, selection, report.scenes@.len() as int);
    if !rules.allow_dropped_events && report.dropped_events != 0 {
        Some(plain("probe summary has dropped events: "@ + dec(report.dropped_events as int)))
    } else if selection is None && report.scenes@.len() != 1 {
        Some(
            plain(
                "probe summary has "@ + dec(report.scenes@.len() as int)
                    + " scenes; pass --scene to choose one"@,
            ),
        )
    } else if list.len() == 0 {
        Some(plain("probe summary scene not found: "@ + selection->0))
    } else {
        None
    }
}

/// What is wrong with the hits and the other events of a report, if anything.
pub open spec fn count_fault(
    report: ProbeEventReport,
    selection: Option<Seq<char>>,
    rules: GateRules,
) -> Option<Fault> {
    let list = chosen_scenes(report.scenes@, selection, report.scenes@.len() as int);
    let n = list.len() as int;
    let unmatched = report.unmatched_events@.len() as int;
    if valid_hits(list, n) < rules.min_valid_hits {
        Some(
            plain(
                "runtime probe summary gate failed: valid_hit_count "@ + dec(valid_hits(list, n))
                    + " < required "@ + dec(rules.min_valid_hits),
            ),
        )
    } else if rules.reject_invalid_hits && invalid_hits(list, n) != 0 {
        Some(
            plain(
                "runtime probe summary gate failed: invalid_hit_count "@ + dec(invalid_hits(list, n))
                    + " > 0"@,
            ),
        )
    } else if rules.reject_unmatched_events && unmatched != 0 {
        Some(
            plain(
                "runtime probe summary gate failed: unmatched_event_count "@ + dec(unmatched)
                    + " > 0"@,
            ),
        )
    } else {
        None
    }
}

/// Why a report does not pass, if it does not.
pub open spec fn gate_fault(
    report: ProbeEventReport,
    selection: Option<Seq<char>>,
    rules: GateRules,
) -> Option<Fault> {
    let list = chosen_scenes(report.scenes@, selection, report.scenes@.len() as int);
    first_fault(
        choice_fault(report, selection, rules),
        first_fault(
            count_fault(report, selection, rules),
            required_fault(list, rules.required, rules.required.len() as int),
        ),
    )
}

/// Whether the counts of a report can be added up, as far as the rules come to that.
pub open spec fn counts_fit(
    report: ProbeEventReport,
    selection: Option<Seq<char>>,
    rules: GateRules,
) -> bool {
    let list = chosen_scenes(report.scenes@, selection, report.scenes@.len() as int);
    choice_fault(report, selection, rules) is None ==> {
        &&& valid_hits(list, list.len() as int) <= usize::MAX
        &&& invalid_hits(list, list.len() as int) <= usize::MAX
        &&& count_fault(report, selection, rules) is None ==> probe_counts_fit(list, rules.required)
    }
}

/// Whether the hits of required probes can be added up, up to the first probe without any.
pub open spec fn probe_counts_fit(list: Seq<SceneEventSummary>, required: Seq<Seq<char>>) -> bool {
    forall|i: int|
        0 <= i < required.len() && required_fault(list, required, i) is None ==> hits_of_probe(
            list,
            #[trigger] required[i],
            list.len() as int,
        ) <= usize::MAX
}

spec fn refs(list: Seq<&SceneEventSummary>) -> Seq<SceneEventSummary> {
    Seq::new(list.len(), |i: int| *list[i])
}

proof fn lemma_sums_grow(list: Seq<SceneEventSummary>, id: Seq<char>, k: int, n: int)
    requires
        0 <= k <= n <= list.len(),
    ensures
        0 <= valid_hits(list, k) <= valid_hits(list, n),
        0 <= invalid_hits(list, k) <= invalid_hits(list, n),
        0 <= hits_of_probe(list, id, k) <= hits_of_probe(list, id, n),
    decreases n,
{
    if n > 0 {
        let from = if k < n {
            k
        } else {
            n - 1
        };
        lemma_sums_grow(list, id, from, n - 1);
        lemma_hits_grow(list[n - 1].probes@, id, 0, list[n - 1].probes@.len() as int);
    }
}

proof fn lemma_hits_grow(probes: Seq<ProbeEventSummary>, id: Seq<char>, k: int, n: int)
    requires
        0 <= k <= n <= probes.len(),
    ensures
        0 <= hits_in_scene(probes, id, k) <= hits_in_scene(probes, id, n),
    decreases n,
{
    if n > 0 {
        let from = if k < n {
            k
        } else {
            n - 1
        };
        lemma_hits_grow(probes, id, from, n - 1);
    }
}

proof fn lemma_required_fail(
    list: Seq<SceneEventSummary>,
    required: Seq<Seq<char>>,
    k: int,
    n: int,
)
    requires
        k <= n,
        required_fault(list, required, k) is Some,
    ensures
        required_fault(list, required, n) == required_fault(list, required, k),
    decreases n - k,
{
    if k < n {
        lemma_required_fail(list, required, k, n - 1);
    }
}

fn choose_scenes<'a>(scenes: &'a [SceneEventSummary], scene_id: Option<&str>) -> (list: Vec<
    &'a SceneEventSummary,
>)
    ensures
        refs(list@) == chosen_scenes(scenes@, opt_view(scene_id), scenes@.len() as int),
{
    let ghost selection = opt_view(scene_id);
    let mut list: Vec<&'a SceneEventSummary> = Vec::new();
    let mut i: usize = 0;
    proof {
        assert(refs(list@) =~= Seq::empty());
    }
    while i < scenes.len()
        invariant
            i <= scenes@.len(),
            selection == opt_view(scene_id),
            refs(list@) == chosen_scenes(scenes@, selection, i as int),
        decreases scenes@.len() - i,
    {
        let scene = &scenes[i];
        let chosen: bool = match scene_id {
            None => true,
            Some(id) => same_str(scene.scene_id.as_str(), id),
        };
        if chosen {
            let ghost was = refs(list@);
            list.push(scene);
            proof {
                assert(refs(list@) =~= was.push(*scene));
            }
        }
        i += 1;
    }
    list
}

fn count_hits(list: &[&SceneEventSummary]) -> (r: (usize, usize))
    requires
        valid_hits(refs(list@), list@.len() as int) <= usize::MAX,
        invalid_hits(refs(list@), list@.len() as int) <= usize::MAX,
    ensures
        r.0 == valid_hits(refs(list@), list@.len() as int),
        r.1 == invalid_hits(refs(list@), list@.len() as int),
{
    let ghost all = refs(list@);
    let mut valid: usize = 0;
    let mut invalid: usize = 0;
    let mut i: usize = 0;
    while i < list.len()
        invariant
            i <= list@.len(),
            all == refs(list@),
            valid_hits(all, list@.len() as int) <= usize::MAX,
            invalid_hits(all, list@.len() as int) <= usize::MAX,
            valid == valid_hits(all, i as int),
            invalid == invalid_hits(all, i as int),
        decreases list@.len() - i,
    {
        proof {
            assert(all[i as int] == *list@[i as int]);
            lemma_sums_grow(all, Seq::empty(), i + 1, list@.len() as int);
        }
        valid += list[i].valid_hit_count;
        invalid += list[i].invalid_hit_count;
        i += 1;
    }
    (valid, invalid)
}

fn count_probe_hits(list: &[&SceneEventSummary], id: &str) -> (total: usize)
    requires
        hits_of_probe(refs(list@), id@, list@.len() as int) <= usize::MAX,
    ensures
        total == hits_of_probe(refs(list@), id@, list@.len() as int),
{
    let ghost all = refs(list@);
    let mut total: usize = 0;
    let mut i: usize = 0;
    while i < list.len()
        invariant
            i <= list@.len(),
            all == refs(list@),
            hits_of_probe(all, id@, list@.len() as int) <= usize::MAX,
            total == hits_of_probe(all, id@, i as int),
        decreases list@.len() - i,
    {
        let ghost before = total as int;
        let probes = list[i].probes.as_slice();
        proof {
            assert(all[i as int] == *list@[i as int]);
            lemma_sums_grow(all, id@, i + 1, list@.len() as int);
        }
        let mut k: usize = 0;
        while k < probes.len()
            invariant
                k <= probes@.len(),
                i < list@.len(),
                before + hits_in_scene(probes@, id@, probes@.len() as int) <= usize::MAX,
                total == before + hits_in_scene(probes@, id@, k as int),
            decreases probes@.len() - k,
        {
            proof {
                lemma_hits_grow(probes@, id@, k + 1, probes@.len() as int);
            }
            if same_str(probes[k].probe_id.as_str(), id) {
                total += probes[k].valid_hit_count;
            }
            k += 1;
        }
        i += 1;
    }
    total
}

fn check_required(list: &[&SceneEventSummary], required: &[String]) -> (res: Result<
    (),
    PatchError,
>)
    requires
        probe_counts_fit(refs(list@), string_views(required@)),
    ensures
        fault_outcome(res) == required_fault(
            refs(list@),
            string_views(required@),
            required@.len() as int,
        ),
{
    let ghost all = string_views(required@);
    let ghost scenes = refs(list@);
    let mut i: usize = 0;
    while i < required.len()
        invariant
            i <= required@.len(),
            all == string_views(required@),
            scenes == refs(list@),
            probe_counts_fit(scenes, all),
            required_fault(scenes, all, i as int) is None,
        decreases required@.len() - i,
    {
        let id = required[i].as_str();
        proof {
            assert(all[i as int] == id@);
            assert(scenes.len() == list@.len());
        }
        if count_probe_hits(list, id) == 0 {
            proof {
                lemma_sums_grow(scenes, id@, 0, list@.len() as int);
                lemma_required_fail(scenes, all, i + 1, required@.len() as int);
            }
            return Err(
                text("runtime probe summary gate failed: required probe ").lit(id).lit(
                    " has no valid hits",
                ).fail(),
            );
        }
        proof {
            lemma_sums_grow(scenes, id@, 0, list@.len() as int);
        }
        i += 1;
    }
    Ok(())
}

/// A result without what it holds.
pub open spec fn gate_verdict(res: Result<ProbeSummaryGateResult, PatchError>) -> Result<
    (),
    PatchError,
> {
    match res {
        Ok(_) => Ok(()),
        Err(e) => Err(e),
    }
}

/// Holds a report against the rules.
pub fn check_probe_event_report(
    report: &ProbeEventReport,
    scene_id: Option<&str>,
    min_valid_hits: usize,
    required_valid_probes: &[String],
    reject_invalid_hits: bool,
    reject_unmatched_events: bool,
    allow_dropped_events: bool,
) -> (res: Result<ProbeSummaryGateResult, PatchError>)
    requires
        counts_fit(
            *report,
            opt_view(scene_id),
            (GateRules {
                min_valid_hits: min_valid_hits as int,
                required: string_views(required_valid_probes@),
                reject_invalid_hits,
                reject_unmatched_events,
                allow_dropped_events,
            }),
        ),
    ensures
        ({
            let rules = GateRules {
                min_valid_hits: min_valid_hits as int,
                required: string_views(required_valid_probes@),
                reject_invalid_hits,
                reject_unmatched_events,
                allow_dropped_events,
            };
            fault_outcome(gate_verdict(res)) == gate_fault(*report, opt_view(scene_id), rules)
        }),
        match res {
            Ok(r) => {
                let list = chosen_scenes(
                    report.scenes@,
                    opt_view(scene_id),
                    report.scenes@.len() as int,
                );
                &&& r.scenes_checked == list.len()
                &&& r.valid_hit_count == valid_hits(list, list.len() as int)
                &&& r.invalid_hit_count == invalid_hits(list, list.len() as int)
                &&& r.unmatched_event_count == report.unmatched_events@.len()
            },
            Err(_) => true,
        },
{
    if !allow_dropped_events && report.dropped_events != 0 {
        return Err(
            text("probe summary has dropped events: ").dec_wide(
                report.dropped_events as u128,
            ).fail(),
        );
    }
    if scene_id.is_none() && report.scenes.len() != 1 {
        return Err(
            text("probe summary has ").dec(report.scenes.len()).lit(
                " scenes; pass --scene to choose one",
            ).fail(),
        );
    }
    let list = choose_scenes(report.scenes.as_slice(), scene_id);
    proof {
        assert(refs(list@).len() == list@.len());
    }
    if list.len() == 0 {
        return match scene_id {
            Some(id) => Err(text("probe summary scene not found: ").lit(id).fail()),
            None => {
                proof {
                    lemma_none_chosen(report.scenes@, report.scenes@.len() as int);
                }
                Err(text("probe summary has no scenes").fail())
            },
        };
    }
    let (valid, invalid) = count_hits(list.as_slice());
    if valid < min_valid_hits {
        return Err(
            text("runtime probe summary gate failed: valid_hit_count ").dec(valid).lit(
                " < required ",
            ).dec(min_valid_hits).fail(),
        );
    }
    if reject_invalid_hits && invalid != 0 {
        return Err(
            text("runtime probe summary gate failed: invalid_hit_count ").dec(invalid).lit(
                " > 0",
            ).fail(),
        );
    }
    let unmatched: usize = report.unmatched_events.len();
    if reject_unmatched_events && unmatched != 0 {
        return Err(
            text("runtime probe summary gate failed: unmatched_event_count ").dec(unmatched).lit(
                " > 0",
            ).fail(),
        );
    }
    match check_required(list.as_slice(), required_valid_probes) {
        Ok(_) => {},
        Err(e) => {
            return Err(e);
        },
    }
    Ok(
        ProbeSummaryGateResult {
            scenes_checked: list.len(),
            valid_hit_count: valid,
            invalid_hit_count: invalid,
            unmatched_event_count: unmatched,
        },
    )
}

proof fn lemma_none_chosen(scenes: Seq<SceneEventSummary>, n: int)
    requires
        0 <= n <= scenes.len(),
    ensures
        chosen_scenes(scenes, None, n).len() == n,
    decreases n,
{
    if n > 0 {
        lemma_none_chosen(scenes, n - 1);
    }
}

proof fn lemma_required_met(
    list: Seq<SceneEventSummary>,
    required: Seq<Seq<char>>,
    n: int,
    i: int,
)
    requires
        0 <= i < n <= required.len(),
        required_fault(list, required, n) is None,
    ensures
        hits_of_probe(list, required[i], list.len() as int) > 0,
    decreases n,
{
    if i < n - 1 {
        lemma_required_met(list, required, n - 1, i);
    }
}

/// A report that passes has lost no events unless that was allowed, has enough hits that
/// count, none that do not where those are rejected, and a hit for every required probe.
pub proof fn law_gate_passed(
    report: ProbeEventReport,
    selection: Option<Seq<char>>,
    rules: GateRules,
)
    requires
        gate_fault(report, selection, rules) is None,
    ensures
        rules.allow_dropped_events || report.dropped_events == 0,
        ({
            let list = chosen_scenes(report.scenes@, selection, report.scenes@.len() as int);
            &&& list.len() > 0
            &&& valid_hits(list, list.len() as int) >= rules.min_valid_hits
            &&& rules.reject_invalid_hits ==> invalid_hits(list, list.len() as int) == 0
            &&& rules.reject_unmatched_events ==> report.unmatched_events@.len() == 0
            &&& forall|i: int|
                0 <= i < rules.required.len() ==> hits_of_probe(
                    list,
                    #[trigger] rules.required[i],
                    list.len() as int,
                ) > 0
        }),
{
    let list = chosen_scenes(report.scenes@, selection, report.scenes@.len() as int);
    assert forall|i: int| 0 <= i < rules.required.len() implies hits_of_probe(
        list,
        #[trigger] rules.required[i],
        list.len() as int,
    ) > 0 by {
        lemma_required_met(list, rules.required, rules.required.len() as int, i);
    }
}

} // verus!
