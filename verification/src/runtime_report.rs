//! Reports on which probes were hit.
use vstd::prelude::*;
use crate::error::{first_fault, plain, Fault, PatchError};
use crate::jp_text::opt_view;
use crate::parse::{same_str, string_views};
use crate::raw_text::copy_text;
use crate::runtime_events::{
    evaluate_probe_hit_validity, event_match, hit_validity, probe_matches_event, snapshot_views,
    EmucapEvent, EmucapEventSnapshot, EventView,
};
use crate::runtime_probe::{emucap_breakpoint_request, request_of, ProbeRequirement, ProbeView};
use crate::runtime_scene::{
    owned, probe_views, scene_fault, scene_views, validate_runtime_scene, RuntimeScene,
    RuntimeSceneManifest, SceneView,
};
use crate::script::fault_outcome;
use crate::script_callers::opt_text;
use crate::text::text;

verus! {

// ---------------------------------------------------------------------------
// Events of several files
// ---------------------------------------------------------------------------

/// Events that an emulator handed out at one time.
#[derive(Debug)]
pub struct EmucapPollEvents {
    /// How many events were lost.
    pub dropped: Option<u64>,
    /// The events.
    pub events: Vec<EmucapEvent>,
}

/// A file of events.
#[derive(Debug)]
pub struct EventFile {
    /// Where it is.
    pub path: String,
    /// What it holds.
    pub events: EmucapPollEvents,
}

/// The model of a file of events.
pub struct FileView {
    pub path: Seq<char>,
    pub dropped: int,
    pub events: Seq<EventView>,
}

/// The models of events.
pub open spec fn event_views(list: Seq<EmucapEvent>) -> Seq<EventView> {
    Seq::new(list.len(), |i: int| list[i]@)
}

impl View for EventFile {
    type V = FileView;

    open spec fn view(&self) -> FileView {
        FileView {
            path: self.path@,
            dropped: match self.events.dropped {
                Some(n) => n as int,
                None => 0,
            },
            events: event_views(self.events.events@),
        }
    }
}

/// The models of files of events.
pub open spec fn file_views(list: Seq<EventFile>) -> Seq<FileView> {
    Seq::new(list.len(), |i: int| list[i]@)
}

/// An event and the file that it comes from.
pub struct SightingView {
    pub path: Seq<char>,
    pub event: EventView,
}

/// The events of a file.
pub open spec fn file_sightings(file: FileView) -> Seq<SightingView> {
    Seq::new(
        file.events.len(),
        |i: int| SightingView { path: file.path, event: file.events[i] },
    )
}

/// The events of the first `n` files.
pub open spec fn sightings(files: Seq<FileView>, n: int) -> Seq<SightingView>
    decreases n,
{
    if n <= 0 {
        Seq::empty()
    } else {
        sightings(files, n - 1) + file_sightings(files[n - 1])
    }
}

/// How many events of the first `n` files were lost.
pub open spec fn dropped_total(files: Seq<FileView>, n: int) -> int
    decreases n,
{
    if n <= 0 {
        0
    } else {
        dropped_total(files, n - 1) + files[n - 1].dropped
    }
}

proof fn lemma_dropped_grows(files: Seq<FileView>, k: int, n: int)
    requires
        0 <= k <= n <= files.len(),
        forall|i: int| 0 <= i < files.len() ==> 0 <= (#[trigger] files[i]).dropped,
    ensures
        0 <= dropped_total(files, k) <= dropped_total(files, n),
    decreases n,
{
    if k < n {
        lemma_dropped_grows(files, k, n - 1);
        assert(0 <= files[n - 1].dropped);
    } else if n > 0 {
        lemma_dropped_grows(files, n - 1, n - 1);
        assert(0 <= files[n - 1].dropped);
    }
}

/// An event with a link to its file.
#[derive(Debug)]
pub struct Sighting<'a> {
    /// The file.
    pub path: &'a str,
    /// The event.
    pub event: &'a EmucapEvent,
}

impl<'a> View for Sighting<'a> {
    type V = SightingView;

    open spec fn view(&self) -> SightingView {
        SightingView { path: self.path@, event: self.event@ }
    }
}

spec fn sighting_views(list: Seq<Sighting<'_>>) -> Seq<SightingView> {
    Seq::new(list.len(), |i: int| list[i]@)
}

fn push_sightings<'a>(list: &mut Vec<Sighting<'a>>, file: &'a EventFile)
    ensures
        sighting_views(final(list)@) == sighting_views(old(list)@) + file_sightings(file@),
{
    let ghost start = sighting_views(list@);
    let ghost more = file_sightings(file@);
    let events = file.events.events.as_slice();
    let mut i: usize = 0;
    proof {
        assert(start + more.take(0) =~= start);
    }
    while i < events.len()
        invariant
            i <= events@.len(),
            start == sighting_views(old(list)@),
            more == file_sightings(file@),
            events@ == file.events.events@,
            sighting_views(list@) == start + more.take(i as int),
        decreases events@.len() - i,
    {
        let ghost was = sighting_views(list@);
        let s = Sighting { path: file.path.as_str(), event: &events[i] };
        list.push(s);
        proof {
            assert(file@.events[i as int] == events@[i as int]@);
            assert(more[i as int] == s@);
            assert(sighting_views(list@) =~= was.push(s@));
            assert(start + more.take(i + 1) =~= (start + more.take(i as int)).push(s@));
        }
        i += 1;
    }
    proof {
        assert(more.take(i as int) =~= more);
    }
}

fn collect_sightings<'a>(files: &'a [EventFile]) -> (list: Vec<Sighting<'a>>)
    ensures
        sighting_views(list@) == sightings(file_views(files@), files@.len() as int),
{
    let ghost all = file_views(files@);
    let mut list: Vec<Sighting<'a>> = Vec::new();
    let mut i: usize = 0;
    proof {
        assert(sighting_views(list@) =~= Seq::empty());
    }
    while i < files.len()
        invariant
            i <= files@.len(),
            all == file_views(files@),
            sighting_views(list@) == sightings(all, i as int),
        decreases files@.len() - i,
    {
        proof {
            assert(all[i as int] == files@[i as int]@);
        }
        push_sightings(&mut list, &files[i]);
        i += 1;
    }
    list
}

// ---------------------------------------------------------------------------
// Hits
// ---------------------------------------------------------------------------

/// A hit of a probe.
#[derive(Debug)]
pub struct ProbeEventHit {
    /// The file of the event.
    pub path: String,
    /// When it was.
    pub frame: Option<u64>,
    /// The breakpoint that was hit.
    pub breakpoint_id: Option<u64>,
    /// The address that was touched.
    pub address: Option<u32>,
    /// The value that was read or written.
    pub value: Option<u32>,
    /// The address of the instruction.
    pub pc: Option<u32>,
    /// Whether the condition holds.
    pub valid_when_matched: Option<bool>,
    /// What is said of the condition.
    pub valid_when_detail: Option<String>,
    /// The memory that was recorded.
    pub snapshot: Vec<EmucapEventSnapshot>,
}

/// The model of a hit.
pub struct HitView {
    pub seen: SightingView,
    pub matched: Option<bool>,
    pub detail: Option<Seq<char>>,
}

impl ProbeEventHit {
    /// Whether this is a given hit.
    pub open spec fn is_hit(self, h: HitView) -> bool {
        &&& self.path@ == h.seen.path
        &&& self.frame == h.seen.event.frame
        &&& self.breakpoint_id == h.seen.event.breakpoint_id
        &&& self.address == h.seen.event.address
        &&& self.value == h.seen.event.value
        &&& self.pc == h.seen.event.pc
        &&& self.valid_when_matched == h.matched
        &&& opt_text(self.valid_when_detail) == h.detail
        &&& snapshot_views(self.snapshot@) == h.seen.event.snapshot
    }
}

/// The hits of a probe among the first `n` events.
pub open spec fn hits_of(p: ProbeView, seen: Seq<SightingView>, n: int) -> Result<
    Seq<HitView>,
    Fault,
>
    decreases n,
{
    if n <= 0 {
        Ok(Seq::empty())
    } else {
        match hits_of(p, seen, n - 1) {
            Err(e) => Err(e),
            Ok(list) => match event_match(p, seen[n - 1].event) {
                Err(e) => Err(e),
                Ok(false) => Ok(list),
                Ok(true) => match hit_validity(p, seen[n - 1].event) {
                    Err(e) => Err(e),
                    Ok(v) => Ok(
                        list.push(HitView { seen: seen[n - 1], matched: v.0, detail: v.1 }),
                    ),
                },
            },
        }
    }
}

/// How many of the first `n` hits count.
pub open spec fn valid_count(hits: Seq<HitView>, n: int) -> int
    decreases n,
{
    if n <= 0 {
        0
    } else if hits[n - 1].matched != Some(false) {
        valid_count(hits, n - 1) + 1
    } else {
        valid_count(hits, n - 1)
    }
}

/// Hits, one for one.
pub open spec fn are_hits(list: Seq<ProbeEventHit>, hits: Seq<HitView>) -> bool {
    &&& list.len() == hits.len()
    &&& forall|i: int| 0 <= i < hits.len() ==> (#[trigger] list[i]).is_hit(hits[i])
}

proof fn lemma_hits_fail(p: ProbeView, seen: Seq<SightingView>, k: int, n: int)
    requires
        k <= n,
        hits_of(p, seen, k) is Err,
    ensures
        hits_of(p, seen, n) == hits_of(p, seen, k),
    decreases n - k,
{
    if k < n {
        lemma_hits_fail(p, seen, k, n - 1);
    }
}

proof fn lemma_hits_len(p: ProbeView, seen: Seq<SightingView>, n: int)
    requires
        0 <= n,
        hits_of(p, seen, n) is Ok,
    ensures
        hits_of(p, seen, n)->Ok_0.len() <= n,
    decreases n,
{
    if n > 0 {
        lemma_hits_len(p, seen, n - 1);
    }
}

proof fn lemma_valid_count(hits: Seq<HitView>, n: int)
    requires
        0 <= n <= hits.len(),
    ensures
        0 <= valid_count(hits, n) <= n,
    decreases n,
{
    if n > 0 {
        lemma_valid_count(hits, n - 1);
    }
}

fn copy_snapshots(list: &[EmucapEventSnapshot]) -> (copy: Vec<EmucapEventSnapshot>)
    ensures
        snapshot_views(copy@) == snapshot_views(list@),
{
    let mut copy: Vec<EmucapEventSnapshot> = Vec::new();
    let mut i: usize = 0;
    while i < list.len()
        invariant
            i <= list@.len(),
            copy@.len() == i,
            forall|k: int| 0 <= k < i ==> (#[trigger] copy@[k])@ == list@[k]@,
        decreases list@.len() - i,
    {
        let s = &list[i];
        copy.push(
            EmucapEventSnapshot {
                address: s.address,
                hex: s.hex.clone(),
                memory_type: s.memory_type.clone(),
            },
        );
        i += 1;
    }
    proof {
        assert(snapshot_views(copy@) =~= snapshot_views(list@));
    }
    copy
}

fn collect_hits(probe: &ProbeRequirement, seen: &[Sighting<'_>]) -> (res: Result<
    Vec<ProbeEventHit>,
    PatchError,
>)
    ensures
        match res {
            Ok(list) => hits_of(
                probe@,
                sighting_views(seen@),
                seen@.len() as int,
            ) matches Ok(hits) && are_hits(list@, hits) && hits.len() <= seen@.len(),
            Err(e) => hits_of(probe@, sighting_views(seen@), seen@.len() as int) == Err::<
                Seq<HitView>,
                Fault,
            >(e@),
        },
{
    let ghost all = sighting_views(seen@);
    let ghost p = probe@;
    let ghost mut hits: Seq<HitView> = Seq::empty();
    let mut list: Vec<ProbeEventHit> = Vec::new();
    let mut i: usize = 0;
    while i < seen.len()
        invariant
            i <= seen@.len(),
            all == sighting_views(seen@),
            p == probe@,
            hits_of(p, all, i as int) == Ok::<Seq<HitView>, Fault>(hits),
            are_hits(list@, hits),
        decreases seen@.len() - i,
    {
        let event = seen[i].event;
        proof {
            assert(all[i as int] == seen@[i as int]@);
        }
        match probe_matches_event(probe, event) {
            Err(e) => {
                proof {
                    lemma_hits_fail(p, all, i + 1, seen@.len() as int);
                }
                return Err(e);
            },
            Ok(false) => {},
            Ok(true) => match evaluate_probe_hit_validity(probe, event) {
                Err(e) => {
                    proof {
                        lemma_hits_fail(p, all, i + 1, seen@.len() as int);
                    }
                    return Err(e);
                },
                Ok(validity) => {
                    let ghost hit = HitView {
                        seen: all[i as int],
                        matched: validity.matched,
                        detail: opt_text(validity.detail),
                    };
                    let ghost was = list@;
                    list.push(
                        ProbeEventHit {
                            path: seen[i].path.to_owned(),
                            frame: event.frame,
                            breakpoint_id: event.breakpoint_id,
                            address: event.address,
                            value: event.value,
                            pc: event.pc,
                            valid_when_matched: validity.matched,
                            valid_when_detail: validity.detail,
                            snapshot: copy_snapshots(event.snapshot.as_slice()),
                        },
                    );
                    proof {
                        let before = hits;
                        hits = hits.push(hit);
                        assert forall|k: int| 0 <= k < hits.len() implies (
                        #[trigger] list@[k]).is_hit(hits[k]) by {
                            if k < before.len() {
                                assert(list@[k] == was[k]);
                            }
                        }
                    }
                },
            },
        }
        i += 1;
    }
    proof {
        lemma_hits_len(p, all, seen@.len() as int);
    }
    Ok(list)
}

// ---------------------------------------------------------------------------
// Probes
// ---------------------------------------------------------------------------

/// What became of a probe.
#[derive(Debug)]
pub struct ProbeEventSummary {
    /// Its name.
    pub probe_id: String,
    /// Its kind.
    pub kind: String,
    /// The first address that it watches.
    pub address: Option<String>,
    /// The last address that it watches.
    pub end: Option<String>,
    /// How many hits it had.
    pub hit_count: usize,
    /// How many of them count.
    pub valid_hit_count: usize,
    /// How many of them do not.
    pub invalid_hit_count: usize,
    /// The hits.
    pub hits: Vec<ProbeEventHit>,
}

/// The model of what became of a probe.
pub struct ProbeSummaryView {
    pub probe: ProbeView,
    pub hits: Seq<HitView>,
}

impl ProbeSummaryView {
    /// How many hits the probe had.
    pub open spec fn hit_count(self) -> int {
        self.hits.len() as int
    }

    /// How many of them count.
    pub open spec fn valid(self) -> int {
        valid_count(self.hits, self.hits.len() as int)
    }

    /// How many of them do not.
    pub open spec fn invalid(self) -> int {
        self.hit_count() - self.valid()
    }
}

impl ProbeEventSummary {
    /// Whether this says what became of a probe.
    pub open spec fn is_summary(self, s: ProbeSummaryView) -> bool {
        &&& self.probe_id@ == s.probe.id
        &&& self.kind@ == s.probe.kind
        &&& opt_text(self.address) == s.probe.address
        &&& opt_text(self.end) == s.probe.end
        &&& self.hit_count == s.hit_count()
        &&& self.valid_hit_count == s.valid()
        &&& self.invalid_hit_count == s.invalid()
        &&& are_hits(self.hits@, s.hits)
    }
}

/// Summaries, one for one.
pub open spec fn are_summaries(list: Seq<ProbeEventSummary>, s: Seq<ProbeSummaryView>) -> bool {
    &&& list.len() == s.len()
    &&& forall|i: int| 0 <= i < s.len() ==> (#[trigger] list[i]).is_summary(s[i])
}

/// What became of the first `n` probes, as far as they need a breakpoint.
pub open spec fn summaries_of(probes: Seq<ProbeView>, seen: Seq<SightingView>, n: int) -> Result<
    Seq<ProbeSummaryView>,
    Fault,
>
    decreases n,
{
    if n <= 0 {
        Ok(Seq::empty())
    } else {
        match summaries_of(probes, seen, n - 1) {
            Err(e) => Err(e),
            Ok(list) => if request_of(probes[n - 1]) is None {
                Ok(list)
            } else {
                match hits_of(probes[n - 1], seen, seen.len() as int) {
                    Err(e) => Err(e),
                    Ok(hits) => Ok(list.push(ProbeSummaryView { probe: probes[n - 1], hits })),
                }
            },
        }
    }
}

proof fn lemma_summaries_fail(probes: Seq<ProbeView>, seen: Seq<SightingView>, k: int, n: int)
    requires
        k <= n,
        summaries_of(probes, seen, k) is Err,
    ensures
        summaries_of(probes, seen, n) == summaries_of(probes, seen, k),
    decreases n - k,
{
    if k < n {
        lemma_summaries_fail(probes, seen, k, n - 1);
    }
}

fn summarize_probe(probe: &ProbeRequirement, hits: Vec<ProbeEventHit>, model: Ghost<Seq<HitView>>) -> (s:
    ProbeEventSummary)
    requires
        are_hits(hits@, model@),
    ensures
        s.is_summary(ProbeSummaryView { probe: probe@, hits: model@ }),
{
    let count: usize = hits.len();
    let mut valid: usize = 0;
    let mut i: usize = 0;
    while i < count
        invariant
            i <= count,
            count == hits@.len(),
            are_hits(hits@, model@),
            valid <= i,
            valid == valid_count(model@, i as int),
        decreases count - i,
    {
        proof {
            assert(hits@[i as int].is_hit(model@[i as int]));
        }
        let counts: bool = match hits[i].valid_when_matched {
            Some(false) => false,
            _ => true,
        };
        if counts {
            valid += 1;
        }
        i += 1;
    }
    ProbeEventSummary {
        probe_id: probe.id.clone(),
        kind: probe.kind.clone(),
        address: copy_text(&probe.address),
        end: copy_text(&probe.end),
        hit_count: count,
        valid_hit_count: valid,
        invalid_hit_count: count - valid,
        hits,
    }
}

fn summarize_probes(probes: &[ProbeRequirement], seen: &[Sighting<'_>]) -> (res: Result<
    Vec<ProbeEventSummary>,
    PatchError,
>)
    ensures
        match res {
            Ok(list) => summaries_of(
                probe_views(probes@),
                sighting_views(seen@),
                probes@.len() as int,
            ) matches Ok(s) && are_summaries(list@, s),
            Err(e) => summaries_of(
                probe_views(probes@),
                sighting_views(seen@),
                probes@.len() as int,
            ) == Err::<Seq<ProbeSummaryView>, Fault>(e@),
        },
{
    let ghost all = probe_views(probes@);
    let ghost events = sighting_views(seen@);
    let ghost mut model: Seq<ProbeSummaryView> = Seq::empty();
    let mut list: Vec<ProbeEventSummary> = Vec::new();
    let mut i: usize = 0;
    while i < probes.len()
        invariant
            i <= probes@.len(),
            all == probe_views(probes@),
            events == sighting_views(seen@),
            summaries_of(all, events, i as int) == Ok::<Seq<ProbeSummaryView>, Fault>(model),
            are_summaries(list@, model),
        decreases probes@.len() - i,
    {
        let probe = &probes[i];
        proof {
            assert(all[i as int] == probe@);
            assert(events.len() == seen@.len());
        }
        if emucap_breakpoint_request(probe).is_some() {
            match collect_hits(probe, seen) {
                Err(e) => {
                    proof {
                        lemma_summaries_fail(all, events, i + 1, probes@.len() as int);
                    }
                    return Err(e);
                },
                Ok(hits) => {
                    let ghost found = hits_of(probe@, events, seen@.len() as int)->Ok_0;
                    let s = summarize_probe(probe, hits, Ghost(found));
                    let ghost was = list@;
                    list.push(s);
                    proof {
                        let before = model;
                        model = model.push(ProbeSummaryView { probe: probe@, hits: found });
                        assert forall|k: int| 0 <= k < model.len() implies (
                        #[trigger] list@[k]).is_summary(model[k]) by {
                            if k < before.len() {
                                assert(list@[k] == was[k]);
                            }
                        }
                    }
                },
            }
        }
        i += 1;
    }
    Ok(list)
}

// ---------------------------------------------------------------------------
// Scenes
// ---------------------------------------------------------------------------

/// What became of the probes of a scene.
#[derive(Debug)]
pub struct SceneEventSummary {
    /// The name of the scene.
    pub scene_id: String,
    /// How many probes there are.
    pub probe_count: usize,
    /// How many of them had hits.
    pub probes_with_hits: usize,
    /// How many of them had hits that count.
    pub probes_with_valid_hits: usize,
    /// How many hits there were.
    pub hit_count: usize,
    /// How many of them count.
    pub valid_hit_count: usize,
    /// How many of them do not.
    pub invalid_hit_count: usize,
    /// The probes.
    pub probes: Vec<ProbeEventSummary>,
}

/// The model of what became of the probes of a scene.
pub struct SceneSummaryView {
    pub id: Seq<char>,
    pub probes: Seq<ProbeSummaryView>,
}

/// How many of the first `n` probes had hits.
pub open spec fn with_hits(list: Seq<ProbeSummaryView>, n: int) -> int
    decreases n,
{
    if n <= 0 {
        0
    } else {
        with_hits(list, n - 1) + if list[n - 1].hit_count() > 0 {
            1int
        } else {
            0
        }
    }
}

/// How many of the first `n` probes had hits that count.
pub open spec fn with_valid_hits(list: Seq<ProbeSummaryView>, n: int) -> int
    decreases n,
{
    if n <= 0 {
        0
    } else {
        with_valid_hits(list, n - 1) + if list[n - 1].valid() > 0 {
            1int
        } else {
            0
        }
    }
}

/// How many hits the first `n` probes had.
pub open spec fn hit_sum(list: Seq<ProbeSummaryView>, n: int) -> int
    decreases n,
{
    if n <= 0 {
        0
    } else {
        hit_sum(list, n - 1) + list[n - 1].hit_count()
    }
}

/// How many hits of the first `n` probes count.
pub open spec fn valid_sum(list: Seq<ProbeSummaryView>, n: int) -> int
    decreases n,
{
    if n <= 0 {
        0
    } else {
        valid_sum(list, n - 1) + list[n - 1].valid()
    }
}

impl SceneSummaryView {
    /// How many hits there were.
    pub open spec fn hit_count(self) -> int {
        hit_sum(self.probes, self.probes.len() as int)
    }

    /// How many of them count.
    pub open spec fn valid(self) -> int {
        valid_sum(self.probes, self.probes.len() as int)
    }
}

impl SceneEventSummary {
    /// Whether this says what became of the probes of a scene.
    pub open spec fn is_summary(self, s: SceneSummaryView) -> bool {
        let n = s.probes.len() as int;
        &&& self.scene_id@ == s.id
        &&& self.probe_count == n
        &&& self.probes_with_hits == with_hits(s.probes, n)
        &&& self.probes_with_valid_hits == with_valid_hits(s.probes, n)
        &&& self.hit_count == s.hit_count()
        &&& self.valid_hit_count == s.valid()
        &&& self.invalid_hit_count == s.hit_count() - s.valid()
        &&& are_summaries(self.probes@, s.probes)
    }
}

/// Scene summaries, one for one.
pub open spec fn are_scene_summaries(list: Seq<SceneEventSummary>, s: Seq<SceneSummaryView>) -> bool {
    &&& list.len() == s.len()
    &&& forall|i: int| 0 <= i < s.len() ==> (#[trigger] list[i]).is_summary(s[i])
}

/// The scenes among the first `n` that a report is about.
pub open spec fn selected_scenes(scenes: Seq<SceneView>, selection: Option<Seq<char>>, n: int) -> Seq<
    SceneView,
>
    decreases n,
{
    if n <= 0 {
        Seq::empty()
    } else if selection is None || scenes[n - 1].id == selection->0 {
        selected_scenes(scenes, selection, n - 1).push(scenes[n - 1])
    } else {
        selected_scenes(scenes, selection, n - 1)
    }
}

/// What became of the probes of the first `n` scenes.
pub open spec fn scene_summaries(scenes: Seq<SceneView>, seen: Seq<SightingView>, n: int) -> Result<
    Seq<SceneSummaryView>,
    Fault,
>
    decreases n,
{
    if n <= 0 {
        Ok(Seq::empty())
    } else {
        match scene_summaries(scenes, seen, n - 1) {
            Err(e) => Err(e),
            Ok(list) => {
                let s = scenes[n - 1];
                match summaries_of(s.probes, seen, s.probes.len() as int) {
                    Err(e) => Err(e),
                    Ok(probes) => Ok(list.push(SceneSummaryView { id: s.id, probes })),
                }
            },
        }
    }
}

/// How many hits the first `n` scenes had.
pub open spec fn matched_sum(list: Seq<SceneSummaryView>, n: int) -> int
    decreases n,
{
    if n <= 0 {
        0
    } else {
        matched_sum(list, n - 1) + list[n - 1].hit_count()
    }
}

/// Whether the hits can be counted, up to the first scene that something is wrong with.
pub open spec fn hits_fit(scenes: Seq<SceneView>, seen: Seq<SightingView>) -> bool {
    forall|n: int|
        0 <= n <= scenes.len() ==> (#[trigger] scene_summaries(scenes, seen, n) matches Ok(list)
            ==> matched_sum(list, n) <= usize::MAX)
}

proof fn lemma_scene_summaries_fail(scenes: Seq<SceneView>, seen: Seq<SightingView>, k: int, n: int)
    requires
        k <= n,
        scene_summaries(scenes, seen, k) is Err,
    ensures
        scene_summaries(scenes, seen, n) == scene_summaries(scenes, seen, k),
    decreases n - k,
{
    if k < n {
        lemma_scene_summaries_fail(scenes, seen, k, n - 1);
    }
}

proof fn lemma_sums(list: Seq<ProbeSummaryView>, n: int)
    requires
        0 <= n <= list.len(),
    ensures
        0 <= with_valid_hits(list, n) <= n,
        0 <= with_hits(list, n) <= n,
        0 <= valid_sum(list, n) <= hit_sum(list, n),
    decreases n,
{
    if n > 0 {
        lemma_sums(list, n - 1);
        let last = list[n - 1];
        lemma_valid_count(last.hits, last.hits.len() as int);
    }
}

proof fn lemma_hit_sum_grows(list: Seq<ProbeSummaryView>, k: int, n: int)
    requires
        0 <= k <= n <= list.len(),
    ensures
        hit_sum(list, k) <= hit_sum(list, n),
    decreases n,
{
    if k < n {
        lemma_hit_sum_grows(list, k, n - 1);
    }
}

proof fn lemma_matched_sum(list: Seq<SceneSummaryView>, n: int)
    requires
        0 <= n <= list.len(),
    ensures
        0 <= matched_sum(list, n),
    decreases n,
{
    if n > 0 {
        lemma_matched_sum(list, n - 1);
        lemma_sums(list[n - 1].probes, list[n - 1].probes.len() as int);
    }
}

fn summarize_scene(scene: &RuntimeScene, probes: Vec<ProbeEventSummary>, model: Ghost<
    Seq<ProbeSummaryView>,
>) -> (s: SceneEventSummary)
    requires
        are_summaries(probes@, model@),
        hit_sum(model@, model@.len() as int) <= usize::MAX,
    ensures
        s.is_summary(SceneSummaryView { id: scene@.id, probes: model@ }),
{
    let count: usize = probes.len();
    let mut hit: usize = 0;
    let mut valid: usize = 0;
    let mut with: usize = 0;
    let mut with_valid: usize = 0;
    let mut i: usize = 0;
    while i < count
        invariant
            i <= count,
            count == probes@.len(),
            are_summaries(probes@, model@),
            hit_sum(model@, model@.len() as int) <= usize::MAX,
            hit == hit_sum(model@, i as int),
            valid == valid_sum(model@, i as int),
            with == with_hits(model@, i as int),
            with_valid == with_valid_hits(model@, i as int),
        decreases count - i,
    {
        let p = &probes[i];
        proof {
            assert(probes@[i as int].is_summary(model@[i as int]));
            lemma_sums(model@, i + 1);
            lemma_sums(model@, i as int);
            lemma_hit_sum_grows(model@, i + 1, model@.len() as int);
        }
        hit += p.hit_count;
        valid += p.valid_hit_count;
        if p.hit_count > 0 {
            with += 1;
        }
        if p.valid_hit_count > 0 {
            with_valid += 1;
        }
        i += 1;
    }
    proof {
        lemma_sums(model@, count as int);
    }
    SceneEventSummary {
        scene_id: scene.id.clone(),
        probe_count: count,
        probes_with_hits: with,
        probes_with_valid_hits: with_valid,
        hit_count: hit,
        valid_hit_count: valid,
        invalid_hit_count: hit - valid,
        probes,
    }
}

spec fn scene_ref_views(list: Seq<&RuntimeScene>) -> Seq<SceneView> {
    Seq::new(list.len(), |i: int| list[i]@)
}

fn summarize_scenes(scenes: &[&RuntimeScene], seen: &[Sighting<'_>]) -> (res: Result<
    (Vec<SceneEventSummary>, usize),
    PatchError,
>)
    requires
        hits_fit(scene_ref_views(scenes@), sighting_views(seen@)),
    ensures
        match res {
            Ok(r) => scene_summaries(
                scene_ref_views(scenes@),
                sighting_views(seen@),
                scenes@.len() as int,
            ) matches Ok(s) && are_scene_summaries(r.0@, s) && r.1 == matched_sum(
                s,
                s.len() as int,
            ),
            Err(e) => scene_summaries(
                scene_ref_views(scenes@),
                sighting_views(seen@),
                scenes@.len() as int,
            ) == Err::<Seq<SceneSummaryView>, Fault>(e@),
        },
{
    let ghost all = scene_ref_views(scenes@);
    let ghost events = sighting_views(seen@);
    let ghost mut model: Seq<SceneSummaryView> = Seq::empty();
    let mut list: Vec<SceneEventSummary> = Vec::new();
    let mut matched: usize = 0;
    let mut i: usize = 0;
    while i < scenes.len()
        invariant
            i <= scenes@.len(),
            all == scene_ref_views(scenes@),
            events == sighting_views(seen@),
            hits_fit(all, events),
            scene_summaries(all, events, i as int) == Ok::<Seq<SceneSummaryView>, Fault>(model),
            are_scene_summaries(list@, model),
            model.len() == i,
            matched == matched_sum(model, i as int),
        decreases scenes@.len() - i,
    {
        let scene = scenes[i];
        proof {
            assert(all[i as int] == scene@);
        }
        match summarize_probes(scene.probe_requirements.as_slice(), seen) {
            Err(e) => {
                proof {
                    lemma_scene_summaries_fail(all, events, i + 1, scenes@.len() as int);
                }
                return Err(e);
            },
            Ok(probes) => {
                let ghost found = summaries_of(
                    scene@.probes,
                    events,
                    scene@.probes.len() as int,
                )->Ok_0;
                proof {
                    let next = model.push(SceneSummaryView { id: scene@.id, probes: found });
                    assert(scene_summaries(all, events, i + 1) == Ok::<
                        Seq<SceneSummaryView>,
                        Fault,
                    >(next));
                    lemma_matched_prefix(model, next, i as int);
                    lemma_matched_sum(next, i as int);
                    lemma_sums(found, found.len() as int);
                }
                let s = summarize_scene(scene, probes, Ghost(found));
                let ghost was = list@;
                matched += s.hit_count;
                list.push(s);
                proof {
                    let before = model;
                    model = model.push(SceneSummaryView { id: scene@.id, probes: found });
                    assert forall|k: int| 0 <= k < model.len() implies (
                    #[trigger] list@[k]).is_summary(model[k]) by {
                        if k < before.len() {
                            assert(list@[k] == was[k]);
                        }
                    }
                    lemma_matched_prefix(before, model, i as int);
                }
            },
        }
        i += 1;
    }
    Ok((list, matched))
}

proof fn lemma_matched_prefix(a: Seq<SceneSummaryView>, b: Seq<SceneSummaryView>, n: int)
    requires
        0 <= n <= a.len(),
        a.len() <= b.len(),
        forall|i: int| 0 <= i < n ==> #[trigger] a[i] == b[i],
    ensures
        matched_sum(a, n) == matched_sum(b, n),
    decreases n,
{
    if n > 0 {
        lemma_matched_prefix(a, b, n - 1);
        assert(a[n - 1] == b[n - 1]);
    }
}

// ---------------------------------------------------------------------------
// Events without a probe
// ---------------------------------------------------------------------------

/// An event that no probe was watching for.
#[derive(Debug)]
pub struct UnmatchedProbeEvent {
    /// The file of the event.
    pub path: String,
    /// What was done.
    pub kind: Option<String>,
    /// The address that was touched.
    pub address: Option<u32>,
    /// The address of the instruction.
    pub pc: Option<u32>,
    /// When it was.
    pub frame: Option<u64>,
    /// The breakpoint that was hit.
    pub breakpoint_id: Option<u64>,
}

impl UnmatchedProbeEvent {
    /// Whether this is a given event.
    pub open spec fn is_event(self, s: SightingView) -> bool {
        &&& self.path@ == s.path
        &&& opt_text(self.kind) == s.event.kind
        &&& self.address == s.event.address
        &&& self.pc == s.event.pc
        &&& self.frame == s.event.frame
        &&& self.breakpoint_id == s.event.breakpoint_id
    }
}

/// Events, one for one.
pub open spec fn are_events(list: Seq<UnmatchedProbeEvent>, s: Seq<SightingView>) -> bool {
    &&& list.len() == s.len()
    &&& forall|i: int| 0 <= i < s.len() ==> (#[trigger] list[i]).is_event(s[i])
}

/// Whether one of the probes from the `i`-th on was watching for an event.
pub open spec fn any_probe(probes: Seq<ProbeView>, e: EventView, i: int) -> Result<bool, Fault>
    decreases probes.len() - i,
{
    if i < 0 || i >= probes.len() {
        Ok(false)
    } else {
        match event_match(probes[i], e) {
            Ok(false) => any_probe(probes, e, i + 1),
            other => other,
        }
    }
}

/// Whether a probe of one of the scenes from the `i`-th on was watching for an event.
pub open spec fn any_scene(scenes: Seq<SceneView>, e: EventView, i: int) -> Result<bool, Fault>
    decreases scenes.len() - i,
{
    if i < 0 || i >= scenes.len() {
        Ok(false)
    } else {
        match any_probe(scenes[i].probes, e, 0) {
            Ok(false) => any_scene(scenes, e, i + 1),
            other => other,
        }
    }
}

/// The events among the first `n` that no probe was watching for.
pub open spec fn unmatched(scenes: Seq<SceneView>, seen: Seq<SightingView>, n: int) -> Result<
    Seq<SightingView>,
    Fault,
>
    decreases n,
{
    if n <= 0 {
        Ok(Seq::empty())
    } else {
        match unmatched(scenes, seen, n - 1) {
            Err(e) => Err(e),
            Ok(list) => match any_scene(scenes, seen[n - 1].event, 0) {
                Err(e) => Err(e),
                Ok(true) => Ok(list),
                Ok(false) => Ok(list.push(seen[n - 1])),
            },
        }
    }
}

proof fn lemma_unmatched_fail(scenes: Seq<SceneView>, seen: Seq<SightingView>, k: int, n: int)
    requires
        k <= n,
        unmatched(scenes, seen, k) is Err,
    ensures
        unmatched(scenes, seen, n) == unmatched(scenes, seen, k),
    decreases n - k,
{
    if k < n {
        lemma_unmatched_fail(scenes, seen, k, n - 1);
    }
}

fn some_probe(probes: &[ProbeRequirement], event: &EmucapEvent) -> (res: Result<bool, PatchError>)
    ensures
        crate::runtime_events::bool_outcome(res) == any_probe(probe_views(probes@), event@, 0),
{
    let ghost all = probe_views(probes@);
    let mut i: usize = 0;
    while i < probes.len()
        invariant
            i <= probes@.len(),
            all == probe_views(probes@),
            any_probe(all, event@, 0) == any_probe(all, event@, i as int),
        decreases probes@.len() - i,
    {
        proof {
            assert(all[i as int] == probes@[i as int]@);
        }
        match probe_matches_event(&probes[i], event) {
            Ok(false) => {},
            other => {
                return other;
            },
        }
        i += 1;
    }
    Ok(false)
}

fn some_scene(scenes: &[&RuntimeScene], event: &EmucapEvent) -> (res: Result<bool, PatchError>)
    ensures
        crate::runtime_events::bool_outcome(res) == any_scene(
            scene_ref_views(scenes@),
            event@,
            0,
        ),
{
    let ghost all = scene_ref_views(scenes@);
    let mut i: usize = 0;
    while i < scenes.len()
        invariant
            i <= scenes@.len(),
            all == scene_ref_views(scenes@),
            any_scene(all, event@, 0) == any_scene(all, event@, i as int),
        decreases scenes@.len() - i,
    {
        proof {
            assert(all[i as int] == scenes@[i as int]@);
        }
        match some_probe(scenes[i].probe_requirements.as_slice(), event) {
            Ok(false) => {},
            other => {
                return other;
            },
        }
        i += 1;
    }
    Ok(false)
}

fn collect_unmatched(scenes: &[&RuntimeScene], seen: &[Sighting<'_>]) -> (res: Result<
    Vec<UnmatchedProbeEvent>,
    PatchError,
>)
    ensures
        match res {
            Ok(list) => unmatched(
                scene_ref_views(scenes@),
                sighting_views(seen@),
                seen@.len() as int,
            ) matches Ok(s) && are_events(list@, s),
            Err(e) => unmatched(
                scene_ref_views(scenes@),
                sighting_views(seen@),
                seen@.len() as int,
            ) == Err::<Seq<SightingView>, Fault>(e@),
        },
{
    let ghost all = scene_ref_views(scenes@);
    let ghost events = sighting_views(seen@);
    let ghost mut model: Seq<SightingView> = Seq::empty();
    let mut list: Vec<UnmatchedProbeEvent> = Vec::new();
    let mut i: usize = 0;
    while i < seen.len()
        invariant
            i <= seen@.len(),
            all == scene_ref_views(scenes@),
            events == sighting_views(seen@),
            unmatched(all, events, i as int) == Ok::<Seq<SightingView>, Fault>(model),
            are_events(list@, model),
        decreases seen@.len() - i,
    {
        let event = seen[i].event;
        proof {
            assert(events[i as int] == seen@[i as int]@);
        }
        match some_scene(scenes, event) {
            Err(e) => {
                proof {
                    lemma_unmatched_fail(all, events, i + 1, seen@.len() as int);
                }
                return Err(e);
            },
            Ok(true) => {},
            Ok(false) => {
                let ghost was = list@;
                list.push(
                    UnmatchedProbeEvent {
                        path: seen[i].path.to_owned(),
                        kind: copy_text(&event.kind),
                        address: event.address,
                        pc: event.pc,
                        frame: event.frame,
                        breakpoint_id: event.breakpoint_id,
                    },
                );
                proof {
                    let before = model;
                    model = model.push(events[i as int]);
                    assert forall|k: int| 0 <= k < model.len() implies (
                    #[trigger] list@[k]).is_event(model[k]) by {
                        if k < before.len() {
                            assert(list@[k] == was[k]);
                        }
                    }
                }
            },
        }
        i += 1;
    }
    Ok(list)
}

// ---------------------------------------------------------------------------
// Reports
// ---------------------------------------------------------------------------

/// A report on which probes were hit.
#[derive(Debug)]
pub struct ProbeEventReport {
    /// The name of the format.
    pub format: String,
    /// Where the scenes come from.
    pub manifest: String,
    /// The scene that was asked for.
    pub scene: Option<String>,
    /// Where the events come from.
    pub event_files: Vec<String>,
    /// How many events there are.
    pub total_events: usize,
    /// How many events were lost.
    pub dropped_events: u64,
    /// How many hits there were.
    pub matched_events: usize,
    /// The events that no probe was watching for.
    pub unmatched_events: Vec<UnmatchedProbeEvent>,
    /// What became of the probes.
    pub scenes: Vec<SceneEventSummary>,
}

/// The model of a report.
pub struct ReportView {
    pub files: Seq<FileView>,
    pub scenes: Seq<SceneSummaryView>,
    pub unmatched: Seq<SightingView>,
}

/// What is wrong with the first `n` scenes, if anything.
pub open spec fn scenes_fault(scenes: Seq<SceneView>, n: int) -> Option<Fault>
    decreases n,
{
    if n <= 0 {
        None
    } else {
        first_fault(scenes_fault(scenes, n - 1), scene_fault(scenes[n - 1]))
    }
}

proof fn lemma_scenes_fail(scenes: Seq<SceneView>, k: int, n: int)
    requires
        k <= n,
        scenes_fault(scenes, k) is Some,
    ensures
        scenes_fault(scenes, n) == scenes_fault(scenes, k),
    decreases n - k,
{
    if k < n {
        lemma_scenes_fail(scenes, k, n - 1);
    }
}

/// What stands in the way of a report on scenes, if anything does.
pub open spec fn selection_fault(scenes: Seq<SceneView>, selection: Option<Seq<char>>) -> Option<Fault> {
    first_fault(
        scenes_fault(scenes, scenes.len() as int),
        if selected_scenes(scenes, selection, scenes.len() as int).len() > 0 {
            None
        } else {
            match selection {
                Some(id) => Some(plain("runtime scene not found: "@ + id)),
                None => Some(plain("runtime scene manifest has no scenes"@)),
            }
        },
    )
}

fn check_scenes(scenes: &[RuntimeScene]) -> (res: Result<(), PatchError>)
    ensures
        fault_outcome(res) == scenes_fault(scene_views(scenes@), scenes@.len() as int),
{
    let ghost all = scene_views(scenes@);
    let mut i: usize = 0;
    while i < scenes.len()
        invariant
            i <= scenes@.len(),
            all == scene_views(scenes@),
            scenes_fault(all, i as int) is None,
        decreases scenes@.len() - i,
    {
        proof {
            assert(all[i as int] == scenes@[i as int]@);
        }
        match validate_runtime_scene(&scenes[i]) {
            Ok(_) => {},
            Err(e) => {
                proof {
                    lemma_scenes_fail(all, i + 1, scenes@.len() as int);
                }
                return Err(e);
            },
        }
        i += 1;
    }
    Ok(())
}

/// The scenes that a report is about. All scenes must be in order.
pub fn select_report_scenes<'a>(manifest: &'a RuntimeSceneManifest, scene_id: Option<&str>) -> (res:
    Result<Vec<&'a RuntimeScene>, PatchError>)
    ensures
        match res {
            Ok(list) => {
                &&& selection_fault(scene_views(manifest.scenes@), opt_view(scene_id)) is None
                &&& list@.len() == selected_scenes(
                    scene_views(manifest.scenes@),
                    opt_view(scene_id),
                    manifest.scenes@.len() as int,
                ).len()
                &&& forall|i: int|
                    0 <= i < list@.len() ==> (#[trigger] list@[i])@ == selected_scenes(
                        scene_views(manifest.scenes@),
                        opt_view(scene_id),
                        manifest.scenes@.len() as int,
                    )[i]
            },
            Err(e) => selection_fault(scene_views(manifest.scenes@), opt_view(scene_id)) == Some(
                e@,
            ),
        },
{
    match check_scenes(manifest.scenes.as_slice()) {
        Ok(_) => {},
        Err(e) => {
            return Err(e);
        },
    }
    let ghost all = scene_views(manifest.scenes@);
    let ghost selection = opt_view(scene_id);
    let mut list: Vec<&'a RuntimeScene> = Vec::new();
    let mut i: usize = 0;
    proof {
        assert(scene_ref_views(list@) =~= Seq::empty());
    }
    while i < manifest.scenes.len()
        invariant
            i <= manifest.scenes@.len(),
            all == scene_views(manifest.scenes@),
            selection == opt_view(scene_id),
            scene_ref_views(list@) == selected_scenes(all, selection, i as int),
        decreases manifest.scenes@.len() - i,
    {
        let scene = &manifest.scenes[i];
        proof {
            assert(all[i as int] == scene@);
        }
        let chosen: bool = match scene_id {
            None => true,
            Some(id) => same_str(scene.id.as_str(), id),
        };
        if chosen {
            let ghost was = scene_ref_views(list@);
            list.push(scene);
            proof {
                assert(scene_ref_views(list@) =~= was.push(scene@));
            }
        }
        i += 1;
    }
    proof {
        let want = selected_scenes(all, selection, i as int);
        assert(want.len() == list@.len());
        assert forall|k: int| 0 <= k < list@.len() implies (#[trigger] list@[k])@ == want[k] by {
            assert(scene_ref_views(list@)[k] == list@[k]@);
        }
    }
    if list.len() == 0 {
        return match scene_id {
            Some(id) => Err(text("runtime scene not found: ").lit(id).fail()),
            None => Err(text("runtime scene manifest has no scenes").fail()),
        };
    }
    Ok(list)
}

/// Checks that there are files of events.
pub fn require_event_files(count: usize) -> (res: Result<(), PatchError>)
    ensures
        fault_outcome(res) == if count == 0 {
            Some(plain("event 파일을 하나 이상 지정해야 함"@))
        } else {
            None
        },
{
    if count == 0 {
        Err(text("event 파일을 하나 이상 지정해야 함").fail())
    } else {
        Ok(())
    }
}

/// What a report says, or what stands in its way.
pub open spec fn report_of(
    scenes: Seq<SceneView>,
    selection: Option<Seq<char>>,
    files: Seq<FileView>,
) -> Result<ReportView, Fault> {
    let seen = sightings(files, files.len() as int);
    let chosen = selected_scenes(scenes, selection, scenes.len() as int);
    if files.len() == 0 {
        Err(plain("event 파일을 하나 이상 지정해야 함"@))
    } else {
        match selection_fault(scenes, selection) {
            Some(f) => Err(f),
            None => match scene_summaries(chosen, seen, chosen.len() as int) {
                Err(f) => Err(f),
                Ok(list) => match unmatched(chosen, seen, seen.len() as int) {
                    Err(f) => Err(f),
                    Ok(rest) => Ok(ReportView { files, scenes: list, unmatched: rest }),
                },
            },
        }
    }
}

/// The paths of files of events.
pub open spec fn path_views(files: Seq<FileView>) -> Seq<Seq<char>> {
    Seq::new(files.len(), |i: int| files[i].path)
}

impl ProbeEventReport {
    /// Whether this says what a model of a report says.
    pub open spec fn is_report(self, r: ReportView) -> bool {
        &&& self.format@ == "madoua-runtime-probe-events-summary-v1"@
        &&& string_views(self.event_files@) == path_views(r.files)
        &&& self.total_events == sightings(r.files, r.files.len() as int).len()
        &&& self.dropped_events == dropped_total(r.files, r.files.len() as int)
        &&& self.matched_events == matched_sum(r.scenes, r.scenes.len() as int)
        &&& are_events(self.unmatched_events@, r.unmatched)
        &&& are_scene_summaries(self.scenes@, r.scenes)
    }
}

fn sum_dropped(files: &[EventFile]) -> (total: u64)
    requires
        dropped_total(file_views(files@), files@.len() as int) <= u64::MAX,
    ensures
        total == dropped_total(file_views(files@), files@.len() as int),
{
    let ghost all = file_views(files@);
    let mut total: u64 = 0;
    let mut i: usize = 0;
    while i < files.len()
        invariant
            i <= files@.len(),
            all == file_views(files@),
            dropped_total(all, files@.len() as int) <= u64::MAX,
            total == dropped_total(all, i as int),
        decreases files@.len() - i,
    {
        proof {
            assert(all[i as int] == files@[i as int]@);
            assert forall|k: int| 0 <= k < all.len() implies 0 <= (
            #[trigger] all[k]).dropped by {
                assert(all[k] == files@[k]@);
            }
            lemma_dropped_grows(all, i + 1, files@.len() as int);
        }
        let more: u64 = match files[i].events.dropped {
            Some(n) => n,
            None => 0,
        };
        total += more;
        i += 1;
    }
    total
}

fn list_paths(files: &[EventFile]) -> (paths: Vec<String>)
    ensures
        string_views(paths@) == path_views(file_views(files@)),
{
    let mut paths: Vec<String> = Vec::new();
    let mut i: usize = 0;
    while i < files.len()
        invariant
            i <= files@.len(),
            paths@.len() == i,
            forall|k: int| 0 <= k < i ==> (#[trigger] paths@[k])@ == files@[k].path@,
        decreases files@.len() - i,
    {
        paths.push(files[i].path.clone());
        i += 1;
    }
    proof {
        assert(string_views(paths@) =~= path_views(file_views(files@)));
    }
    paths
}

/// Whether lost events and hits can be counted, once there are files and scenes to report
/// on.
pub open spec fn report_countable(
    scenes: Seq<SceneView>,
    selection: Option<Seq<char>>,
    files: Seq<FileView>,
) -> bool {
    let chosen = selected_scenes(scenes, selection, scenes.len() as int);
    files.len() > 0 && selection_fault(scenes, selection) is None ==> {
        &&& dropped_total(files, files.len() as int) <= u64::MAX
        &&& hits_fit(chosen, sightings(files, files.len() as int))
    }
}

/// Reports which probes of the chosen scenes were hit, and which events no probe was
/// watching for.
pub fn build_probe_event_report(
    manifest: &RuntimeSceneManifest,
    manifest_path: &str,
    files: &[EventFile],
    scene_id: Option<&str>,
) -> (res: Result<ProbeEventReport, PatchError>)
    requires
        report_countable(
            scene_views(manifest.scenes@),
            opt_view(scene_id),
            file_views(files@),
        ),
    ensures
        match res {
            Ok(report) => {
                &&& report_of(
                    scene_views(manifest.scenes@),
                    opt_view(scene_id),
                    file_views(files@),
                ) is Ok
                &&& report.is_report(
                    report_of(
                        scene_views(manifest.scenes@),
                        opt_view(scene_id),
                        file_views(files@),
                    )->Ok_0,
                )
                &&& report.manifest@ == manifest_path@
                &&& opt_text(report.scene) == opt_view(scene_id)
            },
            Err(e) => report_of(
                scene_views(manifest.scenes@),
                opt_view(scene_id),
                file_views(files@),
            ) == Err::<ReportView, Fault>(e@),
        },
{
    let ghost all = scene_views(manifest.scenes@);
    let ghost selection = opt_view(scene_id);
    match require_event_files(files.len()) {
        Ok(_) => {},
        Err(e) => {
            return Err(e);
        },
    }
    let chosen = match select_report_scenes(manifest, scene_id) {
        Ok(list) => list,
        Err(e) => {
            return Err(e);
        },
    };
    let seen = collect_sightings(files);
    proof {
        let want = selected_scenes(all, selection, all.len() as int);
        assert(scene_ref_views(chosen@) =~= want);
    }
    let (scenes, matched) = match summarize_scenes(chosen.as_slice(), seen.as_slice()) {
        Ok(r) => r,
        Err(e) => {
            return Err(e);
        },
    };
    let rest = match collect_unmatched(chosen.as_slice(), seen.as_slice()) {
        Ok(list) => list,
        Err(e) => {
            return Err(e);
        },
    };
    Ok(
        ProbeEventReport {
            format: "madoua-runtime-probe-events-summary-v1".to_owned(),
            manifest: manifest_path.to_owned(),
            scene: owned(scene_id),
            event_files: list_paths(files),
            total_events: seen.len(),
            dropped_events: sum_dropped(files),
            matched_events: matched,
            unmatched_events: rest,
            scenes,
        },
    )
}

// ---------------------------------------------------------------------------
// Hits and the rest
// ---------------------------------------------------------------------------

/// Whether no probe of the scenes was watching for any of the first `n` events.
pub open spec fn nothing_seen(scenes: Seq<SceneView>, seen: Seq<SightingView>, n: int) -> bool {
    forall|s: int, k: int, i: int|
        0 <= s < scenes.len() && 0 <= k < scenes[s].probes.len() && 0 <= i < n ==> event_match(
            #[trigger] scenes[s].probes[k],
            (#[trigger] seen[i]).event,
        ) == Ok::<bool, Fault>(false)
}

proof fn lemma_no_hits(p: ProbeView, seen: Seq<SightingView>, n: int)
    requires
        0 <= n,
        hits_of(p, seen, n) is Ok,
    ensures
        hits_of(p, seen, n)->Ok_0.len() == 0 <==> forall|i: int|
            0 <= i < n ==> event_match(p, (#[trigger] seen[i]).event) == Ok::<bool, Fault>(
                false,
            ),
    decreases n,
{
    if n > 0 {
        lemma_no_hits(p, seen, n - 1);
        if event_match(p, seen[n - 1].event) != Ok::<bool, Fault>(false) {
            assert(event_match(p, seen[n - 1].event) == Ok::<bool, Fault>(true));
        }
    }
}

proof fn lemma_probe_in_order(scene: Seq<char>, list: Seq<ProbeView>, n: int, k: int)
    requires
        0 <= k < n,
        crate::runtime_scene::probes_fault(scene, list, n) is None,
    ensures
        crate::runtime_probe::probe_fault(scene, list[k]) is None,
    decreases n,
{
    if k < n - 1 {
        lemma_probe_in_order(scene, list, n - 1, k);
    }
}

proof fn lemma_no_summary_hits(scene: SceneView, seen: Seq<SightingView>, n: int)
    requires
        0 <= n <= scene.probes.len(),
        scene_fault(scene) is None,
        summaries_of(scene.probes, seen, n) is Ok,
    ensures
        ({
            let list = summaries_of(scene.probes, seen, n)->Ok_0;
            &&& 0 <= hit_sum(list, list.len() as int)
            &&& hit_sum(list, list.len() as int) == 0 <==> forall|k: int, i: int|
                0 <= k < n && 0 <= i < seen.len() ==> event_match(
                    #[trigger] scene.probes[k],
                    (#[trigger] seen[i]).event,
                ) == Ok::<bool, Fault>(false)
        }),
    decreases n,
{
    if n > 0 {
        lemma_no_summary_hits(scene, seen, n - 1);
        let p = scene.probes[n - 1];
        let before = summaries_of(scene.probes, seen, n - 1)->Ok_0;
        let now = summaries_of(scene.probes, seen, n)->Ok_0;
        lemma_probe_in_order(scene.id, scene.probes, scene.probes.len() as int, n - 1);
        if request_of(p) is None {
            assert(forall|i: int|
                0 <= i < seen.len() ==> event_match(p, (#[trigger] seen[i]).event) == Ok::<
                    bool,
                    Fault,
                >(false));
        } else {
            lemma_no_hits(p, seen, seen.len() as int);
            lemma_hit_sum_prefix(before, now, before.len() as int);
        }
        let quiet = hit_sum(now, now.len() as int) == 0;
        if quiet {
            assert forall|k: int, i: int|
                0 <= k < n && 0 <= i < seen.len() implies event_match(
                #[trigger] scene.probes[k],
                (#[trigger] seen[i]).event,
            ) == Ok::<bool, Fault>(false) by {
                if k == n - 1 {
                    assert(event_match(p, seen[i].event) == Ok::<bool, Fault>(false));
                }
            }
        }
    }
}

proof fn lemma_hit_sum_prefix(a: Seq<ProbeSummaryView>, b: Seq<ProbeSummaryView>, n: int)
    requires
        0 <= n <= a.len(),
        a.len() <= b.len(),
        forall|i: int| 0 <= i < n ==> #[trigger] a[i] == b[i],
    ensures
        hit_sum(a, n) == hit_sum(b, n),
    decreases n,
{
    if n > 0 {
        lemma_hit_sum_prefix(a, b, n - 1);
        assert(a[n - 1] == b[n - 1]);
    }
}

proof fn lemma_no_matched(scenes: Seq<SceneView>, seen: Seq<SightingView>, n: int)
    requires
        0 <= n <= scenes.len(),
        forall|s: int| 0 <= s < scenes.len() ==> scene_fault(#[trigger] scenes[s]) is None,
        scene_summaries(scenes, seen, n) is Ok,
    ensures
        ({
            let list = scene_summaries(scenes, seen, n)->Ok_0;
            &&& list.len() == n
            &&& 0 <= matched_sum(list, n)
            &&& matched_sum(list, n) == 0 <==> forall|s: int, k: int, i: int|
                0 <= s < n && 0 <= k < scenes[s].probes.len() && 0 <= i < seen.len()
                    ==> event_match(
                    #[trigger] scenes[s].probes[k],
                    (#[trigger] seen[i]).event,
                ) == Ok::<bool, Fault>(false)
        }),
    decreases n,
{
    if n > 0 {
        lemma_no_matched(scenes, seen, n - 1);
        let s = scenes[n - 1];
        assert(scene_fault(scenes[n - 1]) is None);
        lemma_no_summary_hits(s, seen, s.probes.len() as int);
        let before = scene_summaries(scenes, seen, n - 1)->Ok_0;
        let now = scene_summaries(scenes, seen, n)->Ok_0;
        lemma_matched_prefix(before, now, n - 1);
        if matched_sum(now, n) == 0 {
            assert forall|t: int, k: int, i: int|
                0 <= t < n && 0 <= k < scenes[t].probes.len() && 0 <= i
                    < seen.len() implies event_match(
                #[trigger] scenes[t].probes[k],
                (#[trigger] seen[i]).event,
            ) == Ok::<bool, Fault>(false) by {
                if t == n - 1 {
                    assert(event_match(s.probes[k], seen[i].event) == Ok::<bool, Fault>(
                        false,
                    ));
                }
            }
        } else if hit_sum(now[n - 1].probes, now[n - 1].probes.len() as int) != 0 {
            let (k, i) = choose|k: int, i: int|
                0 <= k < s.probes.len() && 0 <= i < seen.len() && event_match(
                    #[trigger] s.probes[k],
                    (#[trigger] seen[i]).event,
                ) != Ok::<bool, Fault>(false);
            assert(event_match(scenes[n - 1].probes[k], seen[i].event) != Ok::<bool, Fault>(
                false,
            ));
        }
    }
}

proof fn lemma_any_probe(probes: Seq<ProbeView>, e: EventView, i: int)
    requires
        0 <= i <= probes.len(),
    ensures
        any_probe(probes, e, i) == Ok::<bool, Fault>(false) <==> forall|k: int|
            i <= k < probes.len() ==> event_match(#[trigger] probes[k], e) == Ok::<
                bool,
                Fault,
            >(false),
    decreases probes.len() - i,
{
    if i < probes.len() {
        lemma_any_probe(probes, e, i + 1);
    }
}

proof fn lemma_any_scene(scenes: Seq<SceneView>, e: EventView, i: int)
    requires
        0 <= i <= scenes.len(),
    ensures
        any_scene(scenes, e, i) == Ok::<bool, Fault>(false) <==> forall|s: int, k: int|
            i <= s < scenes.len() && 0 <= k < scenes[s].probes.len() ==> event_match(
                #[trigger] scenes[s].probes[k],
                e,
            ) == Ok::<bool, Fault>(false),
    decreases scenes.len() - i,
{
    if i < scenes.len() {
        lemma_any_scene(scenes, e, i + 1);
        lemma_any_probe(scenes[i].probes, e, 0);
        if any_probe(scenes[i].probes, e, 0) != Ok::<bool, Fault>(false) {
            let k = choose|k: int|
                0 <= k < scenes[i].probes.len() && event_match(#[trigger] scenes[i].probes[k], e)
                    != Ok::<bool, Fault>(false);
            assert(event_match(scenes[i].probes[k], e) != Ok::<bool, Fault>(false));
        } else {
            assert(forall|k: int|
                0 <= k < scenes[i].probes.len() ==> event_match(#[trigger] scenes[i].probes[k], e)
                    == Ok::<bool, Fault>(false));
        }
    }
}

proof fn lemma_all_unmatched(scenes: Seq<SceneView>, seen: Seq<SightingView>, n: int)
    requires
        0 <= n <= seen.len(),
        unmatched(scenes, seen, n) is Ok,
    ensures
        unmatched(scenes, seen, n)->Ok_0.len() <= n,
        unmatched(scenes, seen, n)->Ok_0.len() == n <==> nothing_seen(scenes, seen, n),
    decreases n,
{
    if n > 0 {
        lemma_all_unmatched(scenes, seen, n - 1);
        let e = seen[n - 1].event;
        lemma_any_scene(scenes, e, 0);
        if any_scene(scenes, e, 0) == Ok::<bool, Fault>(false) {
            if nothing_seen(scenes, seen, n - 1) {
                assert forall|s: int, k: int, i: int|
                    0 <= s < scenes.len() && 0 <= k < scenes[s].probes.len() && 0 <= i
                        < n implies event_match(
                    #[trigger] scenes[s].probes[k],
                    (#[trigger] seen[i]).event,
                ) == Ok::<bool, Fault>(false) by {
                }
            }
        } else {
            let (s, k) = choose|s: int, k: int|
                0 <= s < scenes.len() && 0 <= k < scenes[s].probes.len() && event_match(
                    #[trigger] scenes[s].probes[k],
                    e,
                ) != Ok::<bool, Fault>(false);
            assert(event_match(scenes[s].probes[k], seen[n - 1].event) != Ok::<bool, Fault>(
                false,
            ));
        }
    }
}

/// In a report on scenes that are in order, there are no hits exactly if every event is
/// one that no probe was watching for.
pub proof fn law_no_hits_or_no_rest(scenes: Seq<SceneView>, seen: Seq<SightingView>)
    requires
        forall|s: int| 0 <= s < scenes.len() ==> scene_fault(#[trigger] scenes[s]) is None,
        scene_summaries(scenes, seen, scenes.len() as int) is Ok,
        unmatched(scenes, seen, seen.len() as int) is Ok,
    ensures
        matched_sum(
            scene_summaries(scenes, seen, scenes.len() as int)->Ok_0,
            scenes.len() as int,
        ) == 0 <==> unmatched(scenes, seen, seen.len() as int)->Ok_0.len() == seen.len(),
{
    lemma_no_matched(scenes, seen, scenes.len() as int);
    lemma_all_unmatched(scenes, seen, seen.len() as int);
}

} // verus!
