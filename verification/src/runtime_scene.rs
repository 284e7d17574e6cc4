//! Scenes of the running game that are to be checked.
use vstd::prelude::*;
use crate::digest::{crc32, crc32_of};
use crate::error::{first_fault, plain, Fault, PatchError};
use crate::jp_text::opt_view;
use crate::parse::{join, joined, same_str, string_views, trim_spec};
use crate::runtime_probe::{
    crc_value, emucap_breakpoint_request, in_phase, is_install_phase, opt_request, parse_crc32,
    probe_fault, probe_matches_install_phase, request_of, supported_install_phase,
    validate_probe_requirement, EmucapBreakpointRequest, ProbeRequirement, ProbeView, RequestView,
};
use crate::script::fault_outcome;
use crate::script_callers::opt_text;
use crate::text::{chars_of, dec, hex, text};
use crate::tracked_rom::same_bytes;
use crate::translation::is_blank;
use vstd::slice::slice_subrange;

verus! {

// ---------------------------------------------------------------------------
// Scenes
// ---------------------------------------------------------------------------

/// One step of a route.
#[derive(Debug)]
pub struct CandidateRouteAction {
    /// What to do.
    pub op: String,
    /// For how many frames.
    pub frames: Option<u32>,
    /// Which buttons.
    pub buttons: Vec<String>,
    /// How often.
    pub count: Option<u32>,
}

/// The model of a step of a route.
pub struct ActionView {
    pub op: Seq<char>,
    pub frames: Option<u32>,
    pub buttons: Seq<Seq<char>>,
    pub count: Option<u32>,
}

impl View for CandidateRouteAction {
    type V = ActionView;

    open spec fn view(&self) -> ActionView {
        ActionView {
            op: self.op@,
            frames: self.frames,
            buttons: string_views(self.buttons@),
            count: self.count,
        }
    }
}

/// A way to a scene.
#[derive(Debug)]
pub struct CandidateRoute {
    /// The tool that follows it.
    pub tool: String,
    /// Where it starts.
    pub start: String,
    /// Its steps.
    pub actions: Vec<CandidateRouteAction>,
    /// The picture of where it ends.
    pub evidence_screenshot: String,
    /// The checksum of the picture.
    pub evidence_crc32: String,
    /// The text that is to be seen.
    pub expected_text_ref: String,
}

/// The model of a way to a scene.
pub struct RouteView {
    pub tool: Seq<char>,
    pub start: Seq<char>,
    pub actions: Seq<ActionView>,
    pub evidence_screenshot: Seq<char>,
    pub evidence_crc32: Seq<char>,
    pub expected_text_ref: Seq<char>,
}

/// The models of steps.
pub open spec fn action_views(list: Seq<CandidateRouteAction>) -> Seq<ActionView> {
    Seq::new(list.len(), |i: int| list[i]@)
}

impl View for CandidateRoute {
    type V = RouteView;

    open spec fn view(&self) -> RouteView {
        RouteView {
            tool: self.tool@,
            start: self.start@,
            actions: action_views(self.actions@),
            evidence_screenshot: self.evidence_screenshot@,
            evidence_crc32: self.evidence_crc32@,
            expected_text_ref: self.expected_text_ref@,
        }
    }
}

/// A scene.
#[derive(Debug)]
pub struct RuntimeScene {
    /// Its name.
    pub id: String,
    /// Whether it is checked already.
    pub status: String,
    /// The ROM to run.
    pub rom: Option<String>,
    /// Where the picture goes.
    pub screenshot: Option<String>,
    /// For how many frames to run.
    pub frames: Option<u32>,
    /// The inputs to replay.
    pub replay: Option<String>,
    /// The checksum that the picture should have.
    pub expected_crc32: Option<String>,
    /// Remarks.
    pub notes: String,
    /// A way to the scene.
    pub candidate_route: Option<CandidateRoute>,
    /// What to watch for.
    pub probe_requirements: Vec<ProbeRequirement>,
}

/// The model of a scene.
pub struct SceneView {
    pub id: Seq<char>,
    pub status: Seq<char>,
    pub rom: Option<Seq<char>>,
    pub screenshot: Option<Seq<char>>,
    pub frames: Option<u32>,
    pub replay: Option<Seq<char>>,
    pub expected_crc32: Option<Seq<char>>,
    pub notes: Seq<char>,
    pub route: Option<RouteView>,
    pub probes: Seq<ProbeView>,
}

/// The models of probes.
pub open spec fn probe_views(list: Seq<ProbeRequirement>) -> Seq<ProbeView> {
    Seq::new(list.len(), |i: int| list[i]@)
}

/// The model of a route that may be absent.
pub open spec fn opt_route(route: Option<CandidateRoute>) -> Option<RouteView> {
    match route {
        Some(r) => Some(r@),
        None => None,
    }
}

impl View for RuntimeScene {
    type V = SceneView;

    open spec fn view(&self) -> SceneView {
        SceneView {
            id: self.id@,
            status: self.status@,
            rom: opt_text(self.rom),
            screenshot: opt_text(self.screenshot),
            frames: self.frames,
            replay: opt_text(self.replay),
            expected_crc32: opt_text(self.expected_crc32),
            notes: self.notes@,
            route: opt_route(self.candidate_route),
            probes: probe_views(self.probe_requirements@),
        }
    }
}

/// A list of scenes.
#[derive(Debug)]
pub struct RuntimeSceneManifest {
    /// The name of the format.
    pub format: String,
    /// The scenes.
    pub scenes: Vec<RuntimeScene>,
}

/// The models of scenes.
pub open spec fn scene_views(list: Seq<RuntimeScene>) -> Seq<SceneView> {
    Seq::new(list.len(), |i: int| list[i]@)
}

// ---------------------------------------------------------------------------
// Routes
// ---------------------------------------------------------------------------

/// The start of a message about a step.
pub open spec fn action_message(scene: Seq<char>, index: int, tail: Seq<char>) -> Seq<char> {
    scene + ": route action "@ + dec(index) + tail
}

/// What is wrong with the number of frames of a step, if anything.
pub open spec fn frames_fault(
    scene: Seq<char>,
    index: int,
    frames: Option<u32>,
    missing: Seq<char>,
) -> Option<Fault> {
    match frames {
        None => Some(plain(action_message(scene, index, missing))),
        Some(n) => if n > 0 {
            None
        } else {
            Some(plain(action_message(scene, index, " frames must be > 0"@)))
        },
    }
}

/// What is wrong with a step of a route, if anything.
pub open spec fn action_fault(scene: Seq<char>, index: int, a: ActionView) -> Option<Fault> {
    if a.op == "step"@ {
        frames_fault(scene, index, a.frames, " step requires frames"@)
    } else if a.op == "tap"@ {
        if a.buttons.len() == 0 {
            Some(plain(action_message(scene, index, " tap requires buttons"@)))
        } else if a.count == Some(0u32) {
            Some(plain(action_message(scene, index, " count must be > 0"@)))
        } else {
            None
        }
    } else if a.op == "press"@ {
        if a.buttons.len() == 0 {
            Some(plain(action_message(scene, index, " press requires buttons"@)))
        } else {
            frames_fault(scene, index, a.frames, " press requires frames"@)
        }
    } else {
        Some(plain(action_message(scene, index, " unsupported op "@) + a.op))
    }
}

fn check_frames(scene: &str, index: usize, frames: Option<u32>, missing: &str) -> (res: Result<
    (),
    PatchError,
>)
    ensures
        fault_outcome(res) == frames_fault(scene@, index as int, frames, missing@),
{
    match frames {
        None => Err(text(scene).lit(": route action ").dec(index).lit(missing).fail()),
        Some(n) => if n > 0 {
            Ok(())
        } else {
            Err(text(scene).lit(": route action ").dec(index).lit(" frames must be > 0").fail())
        },
    }
}

fn check_action(scene: &str, index: usize, a: &CandidateRouteAction) -> (res: Result<
    (),
    PatchError,
>)
    ensures
        fault_outcome(res) == action_fault(scene@, index as int, a@),
{
    let op = a.op.as_str();
    if same_str(op, "step") {
        return check_frames(scene, index, a.frames, " step requires frames");
    }
    if same_str(op, "tap") {
        if a.buttons.len() == 0 {
            return Err(
                text(scene).lit(": route action ").dec(index).lit(" tap requires buttons").fail(),
            );
        }
        let count: u32 = match a.count {
            Some(n) => n,
            None => 1,
        };
        if count == 0 {
            return Err(
                text(scene).lit(": route action ").dec(index).lit(" count must be > 0").fail(),
            );
        }
        return Ok(());
    }
    if same_str(op, "press") {
        if a.buttons.len() == 0 {
            return Err(
                text(scene).lit(": route action ").dec(index).lit(" press requires buttons").fail(),
            );
        }
        return check_frames(scene, index, a.frames, " press requires frames");
    }
    Err(text(scene).lit(": route action ").dec(index).lit(" unsupported op ").lit(op).fail())
}

/// What is wrong with the first `n` steps of a route, if anything.
pub open spec fn actions_fault(scene: Seq<char>, list: Seq<ActionView>, n: int) -> Option<Fault>
    decreases n,
{
    if n <= 0 {
        None
    } else {
        first_fault(
            actions_fault(scene, list, n - 1),
            action_fault(scene, n - 1, list[n - 1]),
        )
    }
}

proof fn lemma_actions_fail(scene: Seq<char>, list: Seq<ActionView>, k: int, n: int)
    requires
        k <= n,
        actions_fault(scene, list, k) is Some,
    ensures
        actions_fault(scene, list, n) == actions_fault(scene, list, k),
    decreases n - k,
{
    if k < n {
        lemma_actions_fail(scene, list, k, n - 1);
    }
}

fn check_actions(scene: &str, list: &[CandidateRouteAction]) -> (res: Result<(), PatchError>)
    ensures
        fault_outcome(res) == actions_fault(
            scene@,
            action_views(list@),
            list@.len() as int,
        ),
{
    let ghost all = action_views(list@);
    let mut i: usize = 0;
    while i < list.len()
        invariant
            i <= list@.len(),
            all == action_views(list@),
            actions_fault(scene@, all, i as int) is None,
        decreases list@.len() - i,
    {
        proof {
            assert(all[i as int] == list@[i as int]@);
        }
        match check_action(scene, i, &list[i]) {
            Ok(_) => {},
            Err(e) => {
                proof {
                    lemma_actions_fail(scene@, all, i + 1, list@.len() as int);
                }
                return Err(e);
            },
        }
        i += 1;
    }
    Ok(())
}

/// Whether a text ends in `.png`.
pub open spec fn ends_in_png(s: Seq<char>) -> bool {
    s.len() >= 4 && s.skip(s.len() - 4) == ".png"@
}

fn has_png_end(s: &str) -> (r: bool)
    ensures
        r == ends_in_png(s@),
{
    let chars = chars_of(s);
    let n: usize = chars.len();
    if n < 4 {
        return false;
    }
    let png = chars_of(".png");
    let tail = slice_subrange(chars.as_slice(), n - 4, n);
    proof {
        assert(tail@ =~= s@.skip(s@.len() - 4));
    }
    crate::parse::same_chars(tail, png.as_slice())
}

/// What is wrong with a way to a scene, if anything.
pub open spec fn route_fault(scene: Seq<char>, r: RouteView) -> Option<Fault> {
    if r.tool != "emucap"@ {
        Some(plain(scene + ": unsupported candidate_route tool "@ + r.tool))
    } else if trim_spec(r.start).len() == 0 {
        Some(plain(scene + ": candidate_route start가 비어 있음"@))
    } else if r.actions.len() == 0 {
        Some(plain(scene + ": candidate_route actions가 비어 있음"@))
    } else if trim_spec(r.evidence_screenshot).len() == 0 {
        Some(plain(scene + ": candidate_route evidence_screenshot가 비어 있음"@))
    } else if trim_spec(r.evidence_crc32).len() == 0 {
        Some(plain(scene + ": candidate_route evidence_crc32가 비어 있음"@))
    } else if crc_value(r.evidence_crc32) is Err {
        Some(
            crc_value(r.evidence_crc32)->Err_0.under(scene + " candidate_route evidence_crc32"@),
        )
    } else if trim_spec(r.expected_text_ref).len() == 0 {
        Some(plain(scene + ": candidate_route expected_text_ref가 비어 있음"@))
    } else {
        first_fault(
            actions_fault(scene, r.actions, r.actions.len() as int),
            if ends_in_png(r.evidence_screenshot) {
                None
            } else {
                Some(plain(scene + ": candidate_route evidence_screenshot should be a PNG path"@))
            },
        )
    }
}

/// Checks a way to a scene.
pub fn validate_candidate_route(scene_id: &str, route: &CandidateRoute) -> (res: Result<
    (),
    PatchError,
>)
    ensures
        fault_outcome(res) == route_fault(scene_id@, route@),
{
    if !same_str(route.tool.as_str(), "emucap") {
        return Err(
            text(scene_id).lit(": unsupported candidate_route tool ").lit(
                route.tool.as_str(),
            ).fail(),
        );
    }
    if is_blank(route.start.as_str()) {
        return Err(text(scene_id).lit(": candidate_route start가 비어 있음").fail());
    }
    if route.actions.len() == 0 {
        return Err(text(scene_id).lit(": candidate_route actions가 비어 있음").fail());
    }
    if is_blank(route.evidence_screenshot.as_str()) {
        return Err(
            text(scene_id).lit(": candidate_route evidence_screenshot가 비어 있음").fail(),
        );
    }
    if is_blank(route.evidence_crc32.as_str()) {
        return Err(text(scene_id).lit(": candidate_route evidence_crc32가 비어 있음").fail());
    }
    match parse_crc32(route.evidence_crc32.as_str()) {
        Ok(_) => {},
        Err(cause) => {
            return Err(text(scene_id).lit(" candidate_route evidence_crc32").fail_after(cause));
        },
    }
    if is_blank(route.expected_text_ref.as_str()) {
        return Err(
            text(scene_id).lit(": candidate_route expected_text_ref가 비어 있음").fail(),
        );
    }
    match check_actions(scene_id, route.actions.as_slice()) {
        Ok(_) => {},
        Err(e) => {
            return Err(e);
        },
    }
    if has_png_end(route.evidence_screenshot.as_str()) {
        Ok(())
    } else {
        Err(
            text(scene_id).lit(
                ": candidate_route evidence_screenshot should be a PNG path",
            ).fail(),
        )
    }
}

// ---------------------------------------------------------------------------
// Checks of scenes
// ---------------------------------------------------------------------------

/// What is wrong with the first `n` probes of a scene, if anything.
pub open spec fn probes_fault(scene: Seq<char>, list: Seq<ProbeView>, n: int) -> Option<Fault>
    decreases n,
{
    if n <= 0 {
        None
    } else {
        first_fault(probes_fault(scene, list, n - 1), probe_fault(scene, list[n - 1]))
    }
}

proof fn lemma_probes_fail(scene: Seq<char>, list: Seq<ProbeView>, k: int, n: int)
    requires
        k <= n,
        probes_fault(scene, list, k) is Some,
    ensures
        probes_fault(scene, list, n) == probes_fault(scene, list, k),
    decreases n - k,
{
    if k < n {
        lemma_probes_fail(scene, list, k, n - 1);
    }
}

fn check_probes(scene: &str, list: &[ProbeRequirement]) -> (res: Result<(), PatchError>)
    ensures
        fault_outcome(res) == probes_fault(scene@, probe_views(list@), list@.len() as int),
{
    let ghost all = probe_views(list@);
    let mut i: usize = 0;
    while i < list.len()
        invariant
            i <= list@.len(),
            all == probe_views(list@),
            probes_fault(scene@, all, i as int) is None,
        decreases list@.len() - i,
    {
        proof {
            assert(all[i as int] == list@[i as int]@);
        }
        match validate_probe_requirement(scene, &list[i]) {
            Ok(_) => {},
            Err(e) => {
                proof {
                    lemma_probes_fail(scene@, all, i + 1, list@.len() as int);
                }
                return Err(e);
            },
        }
        i += 1;
    }
    Ok(())
}

/// What an active scene lacks, if anything.
pub open spec fn active_fault(s: SceneView) -> Option<Fault> {
    if s.rom is None {
        Some(plain(s.id + ": active scene requires rom"@))
    } else if s.screenshot is None {
        Some(plain(s.id + ": active scene requires screenshot"@))
    } else if s.frames == Some(0u32) {
        Some(plain(s.id + ": frames must be > 0"@))
    } else {
        match s.expected_crc32 {
            Some(raw) => match crc_value(raw) {
                Err(cause) => Some(cause.under(s.id + " expected_crc32"@)),
                Ok(_) => None,
            },
            None => None,
        }
    }
}

fn check_active(scene: &RuntimeScene) -> (res: Result<(), PatchError>)
    ensures
        fault_outcome(res) == active_fault(scene@),
{
    let id = scene.id.as_str();
    if scene.rom.is_none() {
        return Err(text(id).lit(": active scene requires rom").fail());
    }
    if scene.screenshot.is_none() {
        return Err(text(id).lit(": active scene requires screenshot").fail());
    }
    match scene.frames {
        Some(n) => {
            if n == 0 {
                return Err(text(id).lit(": frames must be > 0").fail());
            }
        },
        None => {},
    }
    match &scene.expected_crc32 {
        None => Ok(()),
        Some(raw) => match parse_crc32(raw.as_str()) {
            Ok(_) => Ok(()),
            Err(cause) => Err(text(id).lit(" expected_crc32").fail_after(cause)),
        },
    }
}

/// How many frames a run takes where a scene does not say.
pub const DEFAULT_FRAMES: u32 = 980;

/// How many frames the run of a scene takes.
pub fn scene_frames(scene: &RuntimeScene) -> (frames: u32)
    ensures
        frames == match scene@.frames {
            Some(n) => n,
            None => 980,
        },
{
    match scene.frames {
        Some(n) => n,
        None => DEFAULT_FRAMES,
    }
}

/// Fails for a run without frames.
pub fn require_frames(frames: u32) -> (res: Result<(), PatchError>)
    ensures
        fault_outcome(res) == if frames > 0 {
            None
        } else {
            Some(plain("--frames must be > 0"@))
        },
{
    if frames > 0 {
        Ok(())
    } else {
        Err(text("--frames must be > 0").fail())
    }
}

/// What is wrong with a scene, if anything.
pub open spec fn scene_fault(s: SceneView) -> Option<Fault> {
    if trim_spec(s.id).len() == 0 {
        Some(plain("빈 runtime scene id"@))
    } else if s.status != "active"@ && s.status != "pending"@ {
        Some(plain(s.id + ": 알 수 없는 runtime scene status "@ + s.status))
    } else if trim_spec(s.notes).len() == 0 {
        Some(plain(s.id + ": runtime scene notes가 비어 있음"@))
    } else {
        first_fault(
            if s.status == "active"@ {
                active_fault(s)
            } else {
                None
            },
            first_fault(
                match s.route {
                    Some(r) => route_fault(s.id, r),
                    None => None,
                },
                first_fault(
                    probes_fault(s.id, s.probes, s.probes.len() as int),
                    if s.status == "pending"@ && s.route is None && s.probes.len() == 0 {
                        Some(
                            plain(
                                s.id
                                    + ": pending scene requires candidate_route or probe_requirements"@,
                            ),
                        )
                    } else {
                        None
                    },
                ),
            ),
        )
    }
}

/// Checks a scene.
pub fn validate_runtime_scene(scene: &RuntimeScene) -> (res: Result<(), PatchError>)
    ensures
        fault_outcome(res) == scene_fault(scene@),
{
    let id = scene.id.as_str();
    if is_blank(id) {
        return Err(text("빈 runtime scene id").fail());
    }
    let active: bool = same_str(scene.status.as_str(), "active");
    let pending: bool = same_str(scene.status.as_str(), "pending");
    if !active && !pending {
        return Err(
            text(id).lit(": 알 수 없는 runtime scene status ").lit(scene.status.as_str()).fail(),
        );
    }
    if is_blank(scene.notes.as_str()) {
        return Err(text(id).lit(": runtime scene notes가 비어 있음").fail());
    }
    if active {
        match check_active(scene) {
            Ok(_) => {},
            Err(e) => {
                return Err(e);
            },
        }
    }
    match &scene.candidate_route {
        None => {},
        Some(route) => match validate_candidate_route(id, route) {
            Ok(_) => {},
            Err(e) => {
                return Err(e);
            },
        },
    }
    match check_probes(id, scene.probe_requirements.as_slice()) {
        Ok(_) => {},
        Err(e) => {
            return Err(e);
        },
    }
    if pending && scene.candidate_route.is_none() && scene.probe_requirements.len() == 0 {
        return Err(
            text(id).lit(
                ": pending scene requires candidate_route or probe_requirements",
            ).fail(),
        );
    }
    Ok(())
}

/// What is wrong with a list of scenes as a whole, if anything.
pub open spec fn manifest_fault(format: Seq<char>, scenes: int) -> Option<Fault> {
    if format != "madoua-runtime-scenes-v1"@ {
        Some(plain("지원하지 않는 runtime scene manifest format: "@ + format))
    } else if scenes == 0 {
        Some(plain("runtime scene manifest scenes가 비어 있음"@))
    } else {
        None
    }
}

/// Checks a list of scenes as a whole.
pub fn check_runtime_scene_manifest(manifest: &RuntimeSceneManifest) -> (res: Result<
    (),
    PatchError,
>)
    ensures
        fault_outcome(res) == manifest_fault(manifest.format@, manifest.scenes@.len() as int),
{
    if !same_str(manifest.format.as_str(), "madoua-runtime-scenes-v1") {
        return Err(
            text("지원하지 않는 runtime scene manifest format: ").lit(
                manifest.format.as_str(),
            ).fail(),
        );
    }
    if manifest.scenes.len() == 0 {
        return Err(text("runtime scene manifest scenes가 비어 있음").fail());
    }
    Ok(())
}

/// The names of the pending scenes among the first `n`.
pub open spec fn pending_ids(scenes: Seq<SceneView>, n: int) -> Seq<Seq<char>>
    decreases n,
{
    if n <= 0 {
        Seq::empty()
    } else if scenes[n - 1].status == "pending"@ {
        pending_ids(scenes, n - 1).push(scenes[n - 1].id)
    } else {
        pending_ids(scenes, n - 1)
    }
}

/// Checks that no scene is pending.
pub fn ensure_all_runtime_scenes_active(manifest: &RuntimeSceneManifest) -> (res: Result<
    (),
    PatchError,
>)
    ensures
        ({
            let ids = pending_ids(scene_views(manifest.scenes@), manifest.scenes@.len() as int);
            fault_outcome(res) == if ids.len() == 0 {
                None
            } else {
                Some(
                    plain(
                        "runtime release readiness failed: pending scenes: "@ + joined(ids, ", "@),
                    ),
                )
            }
        }),
{
    let ghost all = scene_views(manifest.scenes@);
    let mut ids: Vec<String> = Vec::new();
    let mut i: usize = 0;
    proof {
        assert(string_views(ids@) =~= Seq::empty());
    }
    while i < manifest.scenes.len()
        invariant
            i <= manifest.scenes@.len(),
            all == scene_views(manifest.scenes@),
            string_views(ids@) == pending_ids(all, i as int),
        decreases manifest.scenes@.len() - i,
    {
        let scene = &manifest.scenes[i];
        proof {
            assert(all[i as int] == scene@);
        }
        if same_str(scene.status.as_str(), "pending") {
            let ghost was = string_views(ids@);
            ids.push(scene.id.clone());
            proof {
                assert(string_views(ids@) =~= was.push(scene.id@));
            }
        }
        i += 1;
    }
    if ids.len() == 0 {
        Ok(())
    } else {
        let list = join(ids.as_slice(), ", ");
        Err(
            text("runtime release readiness failed: pending scenes: ").lit(list.as_str()).fail(),
        )
    }
}

/// A list of checked scenes passes the release check exactly if every scene is active.
pub proof fn law_release_ready(scenes: Seq<SceneView>, n: int)
    requires
        0 <= n <= scenes.len(),
        forall|i: int| 0 <= i < n ==> scene_fault(#[trigger] scenes[i]) is None,
    ensures
        pending_ids(scenes, n).len() == 0 <==> forall|i: int|
            0 <= i < n ==> (#[trigger] scenes[i]).status == "active"@,
    decreases n,
{
    reveal_strlit("active");
    reveal_strlit("pending");
    assert("active"@.len() != "pending"@.len());
    if n > 0 {
        law_release_ready(scenes, n - 1);
        assert(scene_fault(scenes[n - 1]) is None);
    }
}

// ---------------------------------------------------------------------------
// Pictures
// ---------------------------------------------------------------------------

/// The first bytes of a PNG file.
pub const PNG_MAGIC: [u8; 8] = [0x89, 0x50, 0x4E, 0x47, 0x0D, 0x0A, 0x1A, 0x0A];

/// What is wrong with the picture of a route, if anything.
pub open spec fn evidence_fault(scene: Seq<char>, path: Seq<char>, crc: Seq<char>, bytes: Seq<u8>) -> Option<Fault> {
    if !(bytes.len() >= 8 && bytes.take(8) == PNG_MAGIC@) {
        Some(plain(scene + ": candidate_route evidence_screenshot is not a PNG: "@ + path))
    } else {
        evidence_mismatch(scene, path, crc, crc32_of(bytes))
    }
}

/// What is said of a picture of a route whose checksum is not the stated one.
pub open spec fn evidence_mismatch(scene: Seq<char>, path: Seq<char>, crc: Seq<char>, sum: u32) -> Option<Fault> {
    match crc_value(crc) {
        Err(e) => Some(e),
        Ok(expected) => if sum == expected {
            None
        } else {
            Some(
                plain(
                    scene + ": candidate_route evidence_screenshot CRC32 mismatch: expected "@ + hex(
                        expected,
                        8,
                    ) + ", got "@ + hex(sum as int, 8) + ": "@ + path,
                ),
            )
        },
    }
}

/// Checks the checksum of the picture of a route.
pub fn compare_evidence(scene_id: &str, route: &CandidateRoute, sum: u32) -> (res: Result<
    (),
    PatchError,
>)
    ensures
        fault_outcome(res) == evidence_mismatch(
            scene_id@,
            route@.evidence_screenshot,
            route@.evidence_crc32,
            sum,
        ),
{
    match parse_crc32(route.evidence_crc32.as_str()) {
        Err(e) => Err(e),
        Ok(expected) => if sum == expected {
            Ok(())
        } else {
            Err(
                text(scene_id).lit(
                    ": candidate_route evidence_screenshot CRC32 mismatch: expected ",
                ).hex(expected as usize, 8).lit(", got ").hex(sum as usize, 8).lit(": ").lit(
                    route.evidence_screenshot.as_str(),
                ).fail(),
            )
        },
    }
}

/// Checks the picture of a route: it is a PNG and has its checksum.
pub fn check_evidence(scene_id: &str, route: &CandidateRoute, bytes: &[u8]) -> (res: Result<
    (),
    PatchError,
>)
    ensures
        fault_outcome(res) == evidence_fault(
            scene_id@,
            route@.evidence_screenshot,
            route@.evidence_crc32,
            bytes@,
        ),
{
    let path = route.evidence_screenshot.as_str();
    let mut png: bool = false;
    if bytes.len() >= 8 {
        let head = slice_subrange(bytes, 0, 8);
        proof {
            assert(head@ =~= bytes@.take(8));
        }
        png = same_bytes(head, PNG_MAGIC.as_slice());
    }
    if !png {
        return Err(
            text(scene_id).lit(": candidate_route evidence_screenshot is not a PNG: ").lit(
                path,
            ).fail(),
        );
    }
    compare_evidence(scene_id, route, crc32(bytes))
}

/// What is wrong with the picture of a run, if anything.
pub open spec fn screenshot_fault(bytes: Seq<u8>, path: Seq<char>, expected: Option<Seq<char>>) -> Option<Fault> {
    if bytes.len() == 0 {
        Some(plain("screenshot이 비어 있음: "@ + path))
    } else {
        screenshot_mismatch(crc32_of(bytes), expected)
    }
}

/// What is said of a picture of a run whose checksum is not the stated one.
pub open spec fn screenshot_mismatch(sum: u32, expected: Option<Seq<char>>) -> Option<Fault> {
    match expected {
        None => None,
        Some(raw) => match crc_value(raw) {
            Err(e) => Some(e),
            Ok(want) => if sum == want {
                None
            } else {
                Some(
                    plain(
                        "screenshot CRC32 mismatch: expected "@ + hex(want, 8) + ", got "@ + hex(
                            sum as int,
                            8,
                        ),
                    ),
                )
            },
        },
    }
}

/// Checks the checksum of the picture of a run.
pub fn compare_screenshot(sum: u32, expected_crc32: Option<&str>) -> (res: Result<(), PatchError>)
    ensures
        fault_outcome(res) == screenshot_mismatch(sum, opt_view(expected_crc32)),
{
    match expected_crc32 {
        None => Ok(()),
        Some(raw) => match parse_crc32(raw) {
            Err(e) => Err(e),
            Ok(want) => if sum == want {
                Ok(())
            } else {
                Err(
                    text("screenshot CRC32 mismatch: expected ").hex(want as usize, 8).lit(
                        ", got ",
                    ).hex(sum as usize, 8).fail(),
                )
            },
        },
    }
}

/// Checks the picture of a run, and gives its checksum.
pub fn check_screenshot(bytes: &[u8], path: &str, expected_crc32: Option<&str>) -> (res: Result<
    u32,
    PatchError,
>)
    ensures
        match res {
            Ok(crc) => crc == crc32_of(bytes@) && screenshot_fault(
                bytes@,
                path@,
                opt_view(expected_crc32),
            ) is None,
            Err(e) => screenshot_fault(bytes@, path@, opt_view(expected_crc32)) == Some(e@),
        },
{
    if bytes.len() == 0 {
        return Err(text("screenshot이 비어 있음: ").lit(path).fail());
    }
    let crc: u32 = crc32(bytes);
    match compare_screenshot(crc, expected_crc32) {
        Ok(_) => Ok(crc),
        Err(e) => Err(e),
    }
}

// ---------------------------------------------------------------------------
// Probe plans
// ---------------------------------------------------------------------------

/// A probe of a plan with the request for it.
#[derive(Debug)]
pub struct RuntimeProbeStep<'a> {
    /// The probe.
    pub probe: &'a ProbeRequirement,
    /// The request, where the probe needs one.
    pub emucap_set_breakpoint: Option<EmucapBreakpointRequest<'a>>,
}

/// A scene of a plan.
#[derive(Debug)]
pub struct RuntimeProbeScenePlan<'a> {
    /// The scene.
    pub scene: &'a RuntimeScene,
    /// Its probes.
    pub probes: Vec<RuntimeProbeStep<'a>>,
}

/// What to watch for in which scenes.
#[derive(Debug)]
pub struct RuntimeProbePlan<'a> {
    /// The name of the format.
    pub format: &'static str,
    /// Where the scenes come from.
    pub manifest: String,
    /// The scene that was asked for.
    pub selection: Option<String>,
    /// The phase that was asked for.
    pub install_phase: Option<String>,
    /// Whether to start afresh.
    pub fresh_start_required: bool,
    /// Remarks.
    pub notes: &'static str,
    /// The scenes.
    pub scenes: Vec<RuntimeProbeScenePlan<'a>>,
}

/// The model of a scene of a plan: the scene, and its probes with their requests.
pub struct ScenePlanView {
    pub scene: SceneView,
    pub probes: Seq<(ProbeView, Option<RequestView>)>,
}

/// The models of the probes of a plan.
pub open spec fn step_views(list: Seq<RuntimeProbeStep<'_>>) -> Seq<(ProbeView, Option<RequestView>)> {
    Seq::new(list.len(), |i: int| (list[i].probe@, opt_request(list[i].emucap_set_breakpoint)))
}

/// The models of the scenes of a plan.
pub open spec fn scene_plan_views(list: Seq<RuntimeProbeScenePlan<'_>>) -> Seq<ScenePlanView> {
    Seq::new(
        list.len(),
        |i: int| ScenePlanView { scene: list[i].scene@, probes: step_views(list[i].probes@) },
    )
}

/// The probes among the first `n` that belong to a phase, with their requests.
pub open spec fn phase_steps(list: Seq<ProbeView>, phase: Option<Seq<char>>, n: int) -> Seq<
    (ProbeView, Option<RequestView>),
>
    decreases n,
{
    if n <= 0 {
        Seq::empty()
    } else if in_phase(list[n - 1], phase) {
        phase_steps(list, phase, n - 1).push((list[n - 1], request_of(list[n - 1])))
    } else {
        phase_steps(list, phase, n - 1)
    }
}

/// Whether a scene belongs to a plan: the one that was asked for, else every pending one.
pub open spec fn is_planned(s: SceneView, selection: Option<Seq<char>>) -> bool {
    match selection {
        Some(id) => s.id == id,
        None => s.status == "pending"@,
    }
}

/// The plans of the first `n` scenes, as far as they belong to a plan.
pub open spec fn planned_scenes(
    scenes: Seq<SceneView>,
    selection: Option<Seq<char>>,
    phase: Option<Seq<char>>,
    n: int,
) -> Seq<ScenePlanView>
    decreases n,
{
    if n <= 0 {
        Seq::empty()
    } else {
        let before = planned_scenes(scenes, selection, phase, n - 1);
        let s = scenes[n - 1];
        if is_planned(s, selection) {
            before.push(
                ScenePlanView {
                    scene: s,
                    probes: phase_steps(s.probes, phase, s.probes.len() as int),
                },
            )
        } else {
            before
        }
    }
}

/// What is said where there is nothing to plan.
pub open spec fn no_scene(selection: Option<Seq<char>>) -> Seq<char> {
    match selection {
        Some(id) => "runtime scene not found: "@ + id,
        None => "runtime scene manifest has no pending scenes"@,
    }
}

/// The remarks of a plan.
pub const PLAN_NOTES: &'static str = "Start from a fresh boot or explicitly documented fresh route. In this Mesen/GG setup, install breakpoints after reset because reset clears breakpoints. Interpret banked CPU addresses only with the included mapper snapshot.";

fn plan_steps<'a>(scene: &'a RuntimeScene, install_phase: Option<&str>) -> (steps: Vec<
    RuntimeProbeStep<'a>,
>)
    ensures
        step_views(steps@) == phase_steps(
            scene@.probes,
            opt_view(install_phase),
            scene@.probes.len() as int,
        ),
{
    let ghost all = scene@.probes;
    let ghost phase = opt_view(install_phase);
    let list = scene.probe_requirements.as_slice();
    let mut steps: Vec<RuntimeProbeStep<'a>> = Vec::new();
    let mut i: usize = 0;
    proof {
        assert(step_views(steps@) =~= Seq::empty());
    }
    while i < list.len()
        invariant
            i <= list@.len(),
            all == probe_views(list@),
            phase == opt_view(install_phase),
            step_views(steps@) == phase_steps(all, phase, i as int),
        decreases list@.len() - i,
    {
        let probe = &list[i];
        proof {
            assert(all[i as int] == probe@);
        }
        if probe_matches_install_phase(probe, install_phase) {
            let ghost was = step_views(steps@);
            let step = RuntimeProbeStep {
                probe,
                emucap_set_breakpoint: emucap_breakpoint_request(probe),
            };
            steps.push(step);
            proof {
                assert(step_views(steps@) =~= was.push((probe@, request_of(probe@))));
            }
        }
        i += 1;
    }
    steps
}

/// A copy of a string that may be absent.
pub fn owned(s: Option<&str>) -> (r: Option<String>)
    ensures
        opt_text(r) == opt_view(s),
{
    match s {
        Some(t) => Some(t.to_owned()),
        None => None,
    }
}

/// Makes a plan of what to watch for.
pub fn build_runtime_probe_plan<'a>(
    manifest: &'a RuntimeSceneManifest,
    manifest_path: &str,
    scene_id: Option<&str>,
    install_phase: Option<&str>,
) -> (res: Result<RuntimeProbePlan<'a>, PatchError>)
    ensures
        ({
            let selection = opt_view(scene_id);
            let phase = opt_view(install_phase);
            let scenes = planned_scenes(
                scene_views(manifest.scenes@),
                selection,
                phase,
                manifest.scenes@.len() as int,
            );
            if phase is Some && !is_install_phase(phase->0) {
                res matches Err(e) && e@ == plain(
                    "unsupported install_phase filter "@ + phase->0,
                )
            } else if scenes.len() == 0 {
                res matches Err(e) && e@ == plain(no_scene(selection))
            } else {
                &&& res is Ok
                &&& res->Ok_0.format@ == "madoua-emucap-probe-plan-v1"@
                &&& res->Ok_0.manifest@ == manifest_path@
                &&& opt_text(res->Ok_0.selection) == selection
                &&& opt_text(res->Ok_0.install_phase) == phase
                &&& res->Ok_0.fresh_start_required
                &&& res->Ok_0.notes@ == PLAN_NOTES@
                &&& scene_plan_views(res->Ok_0.scenes@) == scenes
            }
        }),
{
    match install_phase {
        None => {},
        Some(phase) => {
            if !supported_install_phase(phase) {
                return Err(text("unsupported install_phase filter ").lit(phase).fail());
            }
        },
    }
    let ghost all = scene_views(manifest.scenes@);
    let ghost selection = opt_view(scene_id);
    let ghost phase = opt_view(install_phase);
    let mut scenes: Vec<RuntimeProbeScenePlan<'a>> = Vec::new();
    let mut i: usize = 0;
    proof {
        assert(scene_plan_views(scenes@) =~= Seq::empty());
    }
    while i < manifest.scenes.len()
        invariant
            i <= manifest.scenes@.len(),
            all == scene_views(manifest.scenes@),
            selection == opt_view(scene_id),
            phase == opt_view(install_phase),
            scene_plan_views(scenes@) == planned_scenes(all, selection, phase, i as int),
        decreases manifest.scenes@.len() - i,
    {
        let scene = &manifest.scenes[i];
        proof {
            assert(all[i as int] == scene@);
        }
        let planned: bool = match scene_id {
            Some(id) => same_str(scene.id.as_str(), id),
            None => same_str(scene.status.as_str(), "pending"),
        };
        if planned {
            let ghost was = scene_plan_views(scenes@);
            let probes = plan_steps(scene, install_phase);
            let ghost steps = step_views(probes@);
            scenes.push(RuntimeProbeScenePlan { scene, probes });
            proof {
                assert(scene_plan_views(scenes@) =~= was.push(
                    ScenePlanView { scene: scene@, probes: steps },
                ));
            }
        }
        i += 1;
    }
    if scenes.len() == 0 {
        return match scene_id {
            Some(id) => Err(text("runtime scene not found: ").lit(id).fail()),
            None => Err(text("runtime scene manifest has no pending scenes").fail()),
        };
    }
    Ok(
        RuntimeProbePlan {
            format: "madoua-emucap-probe-plan-v1",
            manifest: manifest_path.to_owned(),
            selection: owned(scene_id),
            install_phase: owned(install_phase),
            fresh_start_required: true,
            notes: PLAN_NOTES,
            scenes,
        },
    )
}

} // verus!
