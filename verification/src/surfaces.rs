//! The catalogue of places where text is shown, and where the currency sign comes
//! from.
use vstd::prelude::*;
use vstd::slice::slice_subrange;
use crate::error::{plain, Fault, PatchError};
use crate::glyph::{FONT_BASE, GLYPH_BYTES};
use crate::hexbytes::{hex_text_bytes, parse_hex_bytes};
use crate::ko_text::MONEY_TEXT_BYTE;
use crate::parse::{same_str, string_views, trim, trim_spec};
use crate::raw_text::{find_raw, is_text, raw_index, raw_views, RawTextEntry, RawView};
use crate::script::fault_outcome;
use crate::script_bins::position_views;
use crate::script_callers::opt_text;
use crate::tags::{add_name, count_name, count_views, counts_at_most};
use crate::text::{chars_of, dec, string_of, text};
use crate::tracked_rom::same_bytes;
use crate::translation::{contains_text, has_text, is_blank};

verus! {

/// A place where text is shown.
#[derive(Debug, Clone)]
pub struct SurfaceEntry {
    /// Unique name.
    pub id: String,
    /// What sort of place it is.
    pub kind: String,
    /// The script that is shown there.
    pub source_ref: Option<String>,
    /// How it may be changed.
    pub policy: String,
    /// How far it has been looked into.
    pub status: String,
    /// What could go wrong.
    pub risks: Vec<String>,
    /// Remarks.
    pub notes: String,
}

/// The model of a place.
#[verifier::ext_equal]
pub struct SurfaceView {
    /// Unique name.
    pub id: Seq<char>,
    /// What sort of place it is.
    pub kind: Seq<char>,
    /// The script that is shown there.
    pub source_ref: Option<Seq<char>>,
    /// How it may be changed.
    pub policy: Seq<char>,
    /// How far it has been looked into.
    pub status: Seq<char>,
    /// What could go wrong.
    pub risks: Seq<Seq<char>>,
    /// Remarks.
    pub notes: Seq<char>,
}

impl View for SurfaceEntry {
    type V = SurfaceView;

    open spec fn view(&self) -> SurfaceView {
        SurfaceView {
            id: self.id@,
            kind: self.kind@,
            source_ref: opt_text(self.source_ref),
            policy: self.policy@,
            status: self.status@,
            risks: string_views(self.risks@),
            notes: self.notes@,
        }
    }
}

/// The models of places.
pub open spec fn surface_views(list: Seq<SurfaceEntry>) -> Seq<SurfaceView> {
    Seq::new(list.len(), |i: int| list[i]@)
}

/// The catalogue.
#[derive(Debug)]
pub struct SurfaceCatalog {
    /// Name of the format.
    pub format: String,
    /// The places.
    pub surfaces: Vec<SurfaceEntry>,
}

/// What is wrong with a catalogue as a file, if anything.
pub open spec fn catalog_fault(format: Seq<char>, n: int) -> Option<Fault> {
    if format != "madoua-surface-inventory-v1"@ {
        Some(plain("지원하지 않는 surface catalog format: "@ + format))
    } else if n == 0 {
        Some(plain("surface catalog surfaces가 비어 있음"@))
    } else {
        None
    }
}

/// Checks the format of a catalogue.
pub fn check_surface_catalog(catalog: &SurfaceCatalog) -> (res: Result<(), PatchError>)
    ensures
        fault_outcome(res) == catalog_fault(catalog.format@, catalog.surfaces@.len() as int),
{
    if !same_str(catalog.format.as_str(), "madoua-surface-inventory-v1") {
        return Err(
            text("지원하지 않는 surface catalog format: ").lit(catalog.format.as_str()).fail(),
        );
    }
    if catalog.surfaces.len() == 0 {
        return Err(text("surface catalog surfaces가 비어 있음").fail());
    }
    Ok(())
}

// ---------------------------------------------------------------------------
// One place
// ---------------------------------------------------------------------------

/// Whether one of the first `n` risks is blank.
pub open spec fn blank_risk(risks: Seq<Seq<char>>, n: int) -> bool {
    exists|k: int| 0 <= k < n && trim_spec(#[trigger] risks[k]).len() == 0
}

/// What is wrong with a place on its own, if anything.
pub open spec fn surface_fault(s: SurfaceView) -> Option<Fault> {
    if trim_spec(s.id).len() == 0 {
        Some(plain("빈 surface id"@))
    } else if !(s.kind == "shop_text"@ || s.kind == "hud_or_graphics_text"@ || s.kind
        == "graphics_text"@) {
        Some(plain(s.id + ": 알 수 없는 surface kind "@ + s.kind))
    } else if !(s.policy == "fixed_len_only"@ || s.policy == "inventory_required"@ || s.policy
        == "do_not_build"@ || s.policy == "normal_text"@) {
        Some(plain(s.id + ": 알 수 없는 surface policy "@ + s.policy))
    } else if !(s.status == "cataloged"@ || s.status == "blocked_until_policy"@ || s.status
        == "unverified"@ || s.status == "verified"@) {
        Some(plain(s.id + ": 알 수 없는 surface status "@ + s.status))
    } else if trim_spec(s.notes).len() == 0 {
        Some(plain(s.id + ": surface notes가 비어 있음"@))
    } else if blank_risk(s.risks, s.risks.len() as int) {
        Some(plain(s.id + ": 빈 surface risk"@))
    } else {
        None
    }
}

/// Checks a place on its own.
pub fn validate_surface_entry(s: &SurfaceEntry) -> (res: Result<(), PatchError>)
    ensures
        fault_outcome(res) == surface_fault(s@),
{
    let id = s.id.as_str();
    if is_blank(id) {
        return Err(text("빈 surface id").fail());
    }
    let kind = s.kind.as_str();
    if !(same_str(kind, "shop_text") || same_str(kind, "hud_or_graphics_text") || same_str(
        kind,
        "graphics_text",
    )) {
        return Err(text(id).lit(": 알 수 없는 surface kind ").lit(kind).fail());
    }
    let policy = s.policy.as_str();
    if !(same_str(policy, "fixed_len_only") || same_str(policy, "inventory_required") || same_str(
        policy,
        "do_not_build",
    ) || same_str(policy, "normal_text")) {
        return Err(text(id).lit(": 알 수 없는 surface policy ").lit(policy).fail());
    }
    let status = s.status.as_str();
    if !(same_str(status, "cataloged") || same_str(status, "blocked_until_policy") || same_str(
        status,
        "unverified",
    ) || same_str(status, "verified")) {
        return Err(text(id).lit(": 알 수 없는 surface status ").lit(status).fail());
    }
    if is_blank(s.notes.as_str()) {
        return Err(text(id).lit(": surface notes가 비어 있음").fail());
    }
    let mut k: usize = 0;
    while k < s.risks.len()
        invariant
            k <= s.risks@.len(),
            !blank_risk(s@.risks, k as int),
            id@ == s@.id,
            surface_fault(s@) == if blank_risk(s@.risks, s@.risks.len() as int) {
                Some(plain(s@.id + ": 빈 surface risk"@))
            } else {
                None
            },
        decreases s.risks@.len() - k,
    {
        proof {
            assert(s@.risks[k as int] == s.risks@[k as int]@);
        }
        if is_blank(s.risks[k].as_str()) {
            return Err(text(id).lit(": 빈 surface risk").fail());
        }
        k += 1;
    }
    Ok(())
}

impl SurfaceView {
    /// The script that is shown, without surrounding space; none where it is blank.
    pub open spec fn script(self) -> Option<Seq<char>> {
        match self.source_ref {
            Some(r) if trim_spec(r).len() > 0 => Some(trim_spec(r)),
            _ => None,
        }
    }

    /// Whether the place shows shop text.
    pub open spec fn is_shop_text(self) -> bool {
        self.kind == "shop_text"@
    }

    /// Whether the place is a graphic that nobody has looked into.
    pub open spec fn unverified_graphic(self) -> bool {
        (self.kind == "hud_or_graphics_text"@ || self.kind == "graphics_text"@) && self.status
            == "unverified"@
    }
}

/// The script that is shown, without surrounding space; none where it is blank.
fn script_of(s: &SurfaceEntry) -> (r: Option<String>)
    ensures
        opt_text(r) == s@.script(),
{
    match &s.source_ref {
        None => None,
        Some(t) => {
            let chars = chars_of(t.as_str());
            let trimmed = trim(chars.as_slice());
            if trimmed.len() == 0 {
                None
            } else {
                Some(string_of(trimmed))
            }
        },
    }
}

/// What is wrong with what a place shows, if anything. Shop text must show a shop
/// script of known length and keep that length.
pub open spec fn source_fault(s: SurfaceView, raws: Seq<RawView>) -> Option<Fault> {
    match s.script() {
        Some(r) => match raw_index(raws, r) {
            None => Some(plain(s.id + ": raw source_ref not found: "@ + r)),
            Some(k) => if !s.is_shop_text() {
                None
            } else if !raws[k].is_shop() {
                Some(plain(s.id + ": shop_text source_ref must point to raw kind=shop"@))
            } else if s.policy != "fixed_len_only"@ {
                Some(
                    plain(
                        s.id
                            + ": shop_text must stay policy=fixed_len_only until relocation/UI policy is proven"@,
                    ),
                )
            } else if raws[k].len is None {
                Some(plain(s.id + ": shop_text raw source must carry len"@))
            } else {
                None
            },
        },
        None => if s.is_shop_text() {
            Some(plain(s.id + ": shop_text requires source_ref"@))
        } else if s.policy == "fixed_len_only"@ {
            Some(plain(s.id + ": fixed_len_only surface requires source_ref"@))
        } else {
            None
        },
    }
}

fn check_source(s: &SurfaceEntry, raws: &[RawTextEntry]) -> (res: Result<(), PatchError>)
    ensures
        fault_outcome(res) == source_fault(s@, raw_views(raws@)),
{
    let id = s.id.as_str();
    let shop: bool = same_str(s.kind.as_str(), "shop_text");
    match script_of(s) {
        Some(r) => match find_raw(raws, r.as_str()) {
            None => Err(text(id).lit(": raw source_ref not found: ").lit(r.as_str()).fail()),
            Some(k) => {
                proof {
                    assert(raw_views(raws@)[k as int] == raws@[k as int]@);
                }
                if !shop {
                    return Ok(());
                }
                if !is_text(&raws[k].kind, "shop") {
                    return Err(
                        text(id).lit(
                            ": shop_text source_ref must point to raw kind=shop",
                        ).fail(),
                    );
                }
                if !same_str(s.policy.as_str(), "fixed_len_only") {
                    return Err(
                        text(id).lit(
                            ": shop_text must stay policy=fixed_len_only until relocation/UI policy is proven",
                        ).fail(),
                    );
                }
                if raws[k].len.is_none() {
                    return Err(
                        text(id).lit(": shop_text raw source must carry len").fail(),
                    );
                }
                Ok(())
            },
        },
        None => {
            if shop {
                return Err(text(id).lit(": shop_text requires source_ref").fail());
            }
            if same_str(s.policy.as_str(), "fixed_len_only") {
                return Err(
                    text(id).lit(": fixed_len_only surface requires source_ref").fail(),
                );
            }
            Ok(())
        },
    }
}

// ---------------------------------------------------------------------------
// The whole catalogue
// ---------------------------------------------------------------------------

/// The names of the shop scripts, sorted, each with how often it occurs.
pub open spec fn shop_ids(raws: Seq<RawView>, n: int) -> Seq<(Seq<char>, int)>
    decreases n,
{
    if n <= 0 {
        Seq::empty()
    } else if raws[n - 1].is_shop() {
        add_name(shop_ids(raws, n - 1), raws[n - 1].id)
    } else {
        shop_ids(raws, n - 1)
    }
}

/// Whether one of the first `n` places has a given name.
pub open spec fn named_before(list: Seq<SurfaceView>, id: Seq<char>, n: int) -> bool {
    exists|k: int| 0 <= k < n && (#[trigger] list[k]).id == id
}

/// What is wrong with the first `n` places, if anything.
pub open spec fn places_fault(list: Seq<SurfaceView>, raws: Seq<RawView>, n: int) -> Option<Fault>
    decreases n,
{
    if n <= 0 {
        None
    } else {
        let s = list[n - 1];
        match places_fault(list, raws, n - 1) {
            Some(e) => Some(e),
            None => match surface_fault(s) {
                Some(e) => Some(e),
                None => if named_before(list, s.id, n - 1) {
                    Some(plain("중복 surface id: "@ + s.id))
                } else {
                    source_fault(s, raws)
                },
            },
        }
    }
}

/// How many of the first `n` places show a shop script.
pub open spec fn coverage(list: Seq<SurfaceView>, id: Seq<char>, n: int) -> int
    decreases n,
{
    if n <= 0 {
        0
    } else {
        coverage(list, id, n - 1) + if list[n - 1].is_shop_text() && list[n - 1].script() == Some(
            id,
        ) {
            1int
        } else {
            0
        }
    }
}

/// What is wrong with how the first `n` shop scripts are covered, if anything: each
/// is shown in exactly one place.
pub open spec fn coverage_fault(
    list: Seq<SurfaceView>,
    ids: Seq<(Seq<char>, int)>,
    n: int,
) -> Option<Fault>
    decreases n,
{
    if n <= 0 {
        None
    } else {
        let id = ids[n - 1].0;
        let count = coverage(list, id, list.len() as int);
        match coverage_fault(list, ids, n - 1) {
            Some(e) => Some(e),
            None => if count != 1 {
                Some(
                    plain(
                        id + ": raw shop entry needs exactly one shop_text surface, got "@ + dec(
                            count,
                        ),
                    ),
                )
            } else {
                None
            },
        }
    }
}

/// What is wrong with a catalogue in view of the scripts, if anything.
pub open spec fn surfaces_fault(list: Seq<SurfaceView>, raws: Seq<RawView>) -> Option<Fault> {
    let ids = shop_ids(raws, raws.len() as int);
    if ids.len() != 12 {
        Some(
            plain("raw shop entry count changed: expected 12, got "@ + dec(ids.len() as int)),
        )
    } else {
        match places_fault(list, raws, list.len() as int) {
            Some(e) => Some(e),
            None => coverage_fault(list, ids, 12),
        }
    }
}

/// How many of the first `n` places are graphics that nobody has looked into.
pub open spec fn unverified_count(list: Seq<SurfaceView>, n: int) -> int
    decreases n,
{
    if n <= 0 {
        0
    } else {
        unverified_count(list, n - 1) + if list[n - 1].unverified_graphic() {
            1int
        } else {
            0
        }
    }
}

/// What keeps the first `n` places from a release.
pub open spec fn blockers_of(list: Seq<SurfaceView>, n: int) -> Seq<Seq<char>>
    decreases n,
{
    if n <= 0 {
        Seq::empty()
    } else {
        let s = list[n - 1];
        let before = blockers_of(list, n - 1);
        let by_status = if s.status != "verified"@ {
            before.push(s.id + ": status="@ + s.status + " is not release-ready"@)
        } else {
            before
        };
        if s.policy == "inventory_required"@ || s.policy == "do_not_build"@ {
            by_status.push(s.id + ": policy="@ + s.policy + " is not release-ready"@)
        } else {
            by_status
        }
    }
}

/// What a check of the catalogue found.
#[derive(Debug)]
pub struct SurfaceReport {
    /// How many places there are.
    pub surfaces: usize,
    /// How many shop scripts there are, each of them covered.
    pub shop_entries: usize,
    /// How many graphics nobody has looked into.
    pub unverified_graphics: usize,
    /// What keeps places from a release.
    pub blockers: Vec<String>,
}

proof fn lemma_places(list: Seq<SurfaceView>, raws: Seq<RawView>, k: int, n: int)
    requires
        k <= n,
        places_fault(list, raws, k) is Some,
    ensures
        places_fault(list, raws, n) == places_fault(list, raws, k),
    decreases n - k,
{
    if k < n {
        lemma_places(list, raws, k, n - 1);
    }
}

proof fn lemma_coverage(list: Seq<SurfaceView>, ids: Seq<(Seq<char>, int)>, k: int, n: int)
    requires
        k <= n,
        coverage_fault(list, ids, k) is Some,
    ensures
        coverage_fault(list, ids, n) == coverage_fault(list, ids, k),
    decreases n - k,
{
    if k < n {
        lemma_coverage(list, ids, k, n - 1);
    }
}

fn collect_shop_ids(raws: &[RawTextEntry]) -> (ids: Vec<(Vec<char>, u128)>)
    ensures
        count_views(ids@) == shop_ids(raw_views(raws@), raws@.len() as int),
{
    let ghost all = raw_views(raws@);
    let mut ids: Vec<(Vec<char>, u128)> = Vec::new();
    let mut i: usize = 0;
    proof {
        assert(count_views(ids@) =~= Seq::empty());
    }
    while i < raws.len()
        invariant
            i <= raws@.len(),
            all == raw_views(raws@),
            count_views(ids@) == shop_ids(all, i as int),
            counts_at_most(count_views(ids@), i as int),
        decreases raws@.len() - i,
    {
        proof {
            assert(all[i as int] == raws@[i as int]@);
        }
        if is_text(&raws[i].kind, "shop") {
            let name = chars_of(raws[i].id.as_str());
            count_name(&mut ids, name, Ghost(i as int));
        }
        i += 1;
    }
    ids
}

fn is_named_before(list: &[SurfaceEntry], id: &str, n: usize) -> (r: bool)
    requires
        n <= list@.len(),
    ensures
        r == named_before(surface_views(list@), id@, n as int),
{
    let ghost all = surface_views(list@);
    let mut k: usize = 0;
    while k < n
        invariant
            k <= n <= list@.len(),
            all == surface_views(list@),
            !named_before(all, id@, k as int),
        decreases n - k,
    {
        proof {
            assert(all[k as int] == list@[k as int]@);
        }
        if same_str(list[k].id.as_str(), id) {
            return true;
        }
        k += 1;
    }
    false
}

fn check_places(list: &[SurfaceEntry], raws: &[RawTextEntry]) -> (res: Result<(), PatchError>)
    ensures
        fault_outcome(res) == places_fault(
            surface_views(list@),
            raw_views(raws@),
            list@.len() as int,
        ),
{
    let ghost all = surface_views(list@);
    let ghost rv = raw_views(raws@);
    let mut i: usize = 0;
    while i < list.len()
        invariant
            i <= list@.len(),
            all == surface_views(list@),
            rv == raw_views(raws@),
            places_fault(all, rv, i as int) is None,
        decreases list@.len() - i,
    {
        let s = &list[i];
        proof {
            assert(all[i as int] == s@);
        }
        match validate_surface_entry(s) {
            Ok(_) => {},
            Err(e) => {
                proof {
                    lemma_places(all, rv, i + 1, all.len() as int);
                }
                return Err(e);
            },
        }
        if is_named_before(list, s.id.as_str(), i) {
            proof {
                lemma_places(all, rv, i + 1, all.len() as int);
            }
            return Err(text("중복 surface id: ").lit(s.id.as_str()).fail());
        }
        match check_source(s, raws) {
            Ok(_) => {},
            Err(e) => {
                proof {
                    lemma_places(all, rv, i + 1, all.len() as int);
                }
                return Err(e);
            },
        }
        i += 1;
    }
    Ok(())
}

fn count_coverage(list: &[SurfaceEntry], id: &str) -> (n: usize)
    ensures
        n == coverage(surface_views(list@), id@, list@.len() as int),
{
    let ghost all = surface_views(list@);
    let mut n: usize = 0;
    let mut i: usize = 0;
    while i < list.len()
        invariant
            i <= list@.len(),
            all == surface_views(list@),
            n <= i,
            n == coverage(all, id@, i as int),
        decreases list@.len() - i,
    {
        proof {
            assert(all[i as int] == list@[i as int]@);
        }
        if same_str(list[i].kind.as_str(), "shop_text") {
            match script_of(&list[i]) {
                Some(r) => {
                    if same_str(r.as_str(), id) {
                        n += 1;
                    }
                },
                None => {},
            }
        }
        i += 1;
    }
    n
}

/// Checks a catalogue against the extracted scripts: every place is described, and
/// every shop script is shown in exactly one place.
pub fn check_surfaces(list: &[SurfaceEntry], raws: &[RawTextEntry]) -> (res: Result<
    SurfaceReport,
    PatchError,
>)
    ensures
        match res {
            Ok(r) => {
                let all = surface_views(list@);
                let n = all.len() as int;
                &&& surfaces_fault(all, raw_views(raws@)) is None
                &&& r.surfaces == n
                &&& r.shop_entries == 12
                &&& r.unverified_graphics == unverified_count(all, n)
                &&& string_views(r.blockers@) == blockers_of(all, n)
            },
            Err(e) => surfaces_fault(surface_views(list@), raw_views(raws@)) == Some(e@),
        },
{
    let ghost all = surface_views(list@);
    let ghost rv = raw_views(raws@);
    let ids = collect_shop_ids(raws);
    let ghost names = count_views(ids@);
    if ids.len() != 12 {
        return Err(
            text("raw shop entry count changed: expected 12, got ").dec(ids.len()).fail(),
        );
    }
    match check_places(list, raws) {
        Ok(_) => {},
        Err(e) => {
            return Err(e);
        },
    }
    let mut k: usize = 0;
    while k < 12
        invariant
            k <= 12,
            ids@.len() == 12,
            names == count_views(ids@),
            names == shop_ids(rv, rv.len() as int),
            all == surface_views(list@),
            rv == raw_views(raws@),
            places_fault(all, rv, all.len() as int) is None,
            coverage_fault(all, names, k as int) is None,
        decreases 12 - k,
    {
        let id = string_of(ids[k].0.as_slice());
        proof {
            assert(names[k as int].0 == id@);
        }
        let count: usize = count_coverage(list, id.as_str());
        if count != 1 {
            proof {
                lemma_coverage(all, names, k + 1, 12);
            }
            return Err(
                text(id.as_str()).lit(
                    ": raw shop entry needs exactly one shop_text surface, got ",
                ).dec(count).fail(),
            );
        }
        k += 1;
    }
    let mut unverified: usize = 0;
    let mut blockers: Vec<String> = Vec::new();
    let mut i: usize = 0;
    proof {
        assert(string_views(blockers@) =~= Seq::empty());
    }
    while i < list.len()
        invariant
            i <= list@.len(),
            all == surface_views(list@),
            unverified <= i,
            unverified == unverified_count(all, i as int),
            string_views(blockers@) == blockers_of(all, i as int),
        decreases list@.len() - i,
    {
        let s = &list[i];
        proof {
            assert(all[i as int] == s@);
        }
        let id = s.id.as_str();
        let kind = s.kind.as_str();
        let status = s.status.as_str();
        let policy = s.policy.as_str();
        if (same_str(kind, "hud_or_graphics_text") || same_str(kind, "graphics_text")) && same_str(
            status,
            "unverified",
        ) {
            unverified += 1;
        }
        let ghost was = string_views(blockers@);
        if !same_str(status, "verified") {
            let line = text(id).lit(": status=").lit(status).lit(
                " is not release-ready",
            ).finish();
            blockers.push(line);
            proof {
                assert(string_views(blockers@) =~= was.push(line@));
            }
        }
        let ghost mid = string_views(blockers@);
        if same_str(policy, "inventory_required") || same_str(policy, "do_not_build") {
            let line = text(id).lit(": policy=").lit(policy).lit(
                " is not release-ready",
            ).finish();
            blockers.push(line);
            proof {
                assert(string_views(blockers@) =~= mid.push(line@));
            }
        }
        i += 1;
    }
    Ok(
        SurfaceReport {
            surfaces: list.len(),
            shop_entries: 12,
            unverified_graphics: unverified,
            blockers,
        },
    )
}

/// Texts with a line break between neighbours.
pub open spec fn lines_joined(list: Seq<Seq<char>>) -> Seq<char>
    decreases list.len(),
{
    if list.len() == 0 {
        Seq::empty()
    } else if list.len() == 1 {
        list[0]
    } else {
        lines_joined(list.drop_last()) + "\n"@ + list.last()
    }
}

/// What is said of a list of blockers, if there are any.
pub open spec fn readiness_fault(prefix: Seq<char>, list: Seq<Seq<char>>) -> Option<Fault> {
    if list.len() == 0 {
        None
    } else {
        Some(plain(prefix + lines_joined(list)))
    }
}

/// Refuses a release where a list of blockers is not empty.
pub fn refuse_if_blocked(prefix: &str, blockers: &[String]) -> (res: Result<(), PatchError>)
    ensures
        fault_outcome(res) == readiness_fault(prefix@, string_views(blockers@)),
{
    let ghost all = string_views(blockers@);
    if blockers.len() == 0 {
        return Ok(());
    }
    let mut t = text(prefix);
    let ghost begin = t@;
    let mut i: usize = 0;
    proof {
        assert(begin + lines_joined(all.take(0)) =~= begin);
    }
    while i < blockers.len()
        invariant
            i <= blockers@.len(),
            all == string_views(blockers@),
            t@ == begin + lines_joined(all.take(i as int)),
        decreases blockers@.len() - i,
    {
        let ghost upto = all.take(i + 1);
        proof {
            assert(upto.drop_last() =~= all.take(i as int));
            assert(upto.last() == blockers@[i as int]@);
        }
        if i > 0 {
            t = t.lit("\n");
        }
        t = t.lit(blockers[i].as_str());
        proof {
            assert(t@ =~= begin + lines_joined(upto));
        }
        i += 1;
    }
    proof {
        assert(all.take(i as int) =~= all);
    }
    Err(t.fail())
}

/// Refuses a release where the check of the catalogue found blockers.
pub fn require_surfaces_ready(report: &SurfaceReport) -> (res: Result<(), PatchError>)
    ensures
        fault_outcome(res) == readiness_fault(
            "surface release readiness failed:\n"@,
            string_views(report.blockers@),
        ),
{
    refuse_if_blocked("surface release readiness failed:\n", report.blockers.as_slice())
}

// ---------------------------------------------------------------------------
// The currency sign
// ---------------------------------------------------------------------------

/// Whether the eight bytes at an offset are a glyph.
pub open spec fn glyph_at(rom: Seq<u8>, glyph: Seq<u8>, at: int) -> bool {
    rom.subrange(at, at + 8) == glyph
}

/// The offsets below `n` at which a glyph stands.
pub open spec fn glyph_offsets(rom: Seq<u8>, glyph: Seq<u8>, n: int) -> Seq<int>
    decreases n,
{
    if n <= 0 {
        Seq::empty()
    } else if glyph_at(rom, glyph, n - 1) {
        glyph_offsets(rom, glyph, n - 1).push(n - 1)
    } else {
        glyph_offsets(rom, glyph, n - 1)
    }
}

/// Every offset at which a glyph stands.
pub fn find_exact_glyph_matches(rom: &[u8], glyph: &[u8; 8]) -> (list: Vec<usize>)
    ensures
        position_views(list@) == glyph_offsets(rom@, glyph@, rom@.len() - 7),
{
    let mut list: Vec<usize> = Vec::new();
    let mut at: usize = 0;
    proof {
        assert(position_views(list@) =~= Seq::<int>::empty());
    }
    while at < rom.len() && rom.len() - at >= 8
        invariant
            at == 0 || at <= rom@.len() - 7,
            position_views(list@) == glyph_offsets(rom@, glyph@, at as int),
        decreases rom@.len() - at,
    {
        let size: usize = rom.len();
        if same_bytes(slice_subrange(rom, at, at + 8), glyph.as_slice()) {
            let ghost was = position_views(list@);
            list.push(at);
            proof {
                assert(position_views(list@) =~= was.push(at as int));
            }
        }
        at += 1;
    }
    list
}

/// The address of a ROM offset in slot 2.
pub fn slot2_logical_address(physical_offset: usize) -> (addr: u16)
    ensures
        addr == 0x8000 + physical_offset as int % 0x4000,
{
    (0x8000 + physical_offset % 0x4000) as u16
}

/// How often the currency sign occurs in bytes.
pub open spec fn money_count(bytes: Seq<u8>) -> int {
    crate::scan::occurrences(bytes, 0x0C)
}

/// What is wrong with a shop script in view of its currency sign, if anything.
pub open spec fn money_entry_fault(raw: RawView) -> Option<Fault> {
    match hex_text_bytes(raw.bytes_hex) {
        Err(cause) => Some(cause.under(raw.id + " bytes_hex"@)),
        Ok(bytes) => if money_count(bytes) == 0 {
            Some(plain(raw.id + ": shop raw entry does not contain money text byte 0x0C"@))
        } else if !has_text(raw.jp, "金"@) {
            Some(plain(raw.id + ": shop raw jp preview does not contain 金"@))
        } else {
            None
        },
    }
}

/// What is wrong with the shop scripts among the first `n` entries, if anything.
pub open spec fn money_entries_fault(raws: Seq<RawView>, n: int) -> Option<Fault>
    decreases n,
{
    if n <= 0 {
        None
    } else {
        match money_entries_fault(raws, n - 1) {
            Some(e) => Some(e),
            None => if raws[n - 1].is_shop() {
                money_entry_fault(raws[n - 1])
            } else {
                None
            },
        }
    }
}

/// How many of the first `n` entries are shop scripts.
pub open spec fn shop_count(raws: Seq<RawView>, n: int) -> int
    decreases n,
{
    if n <= 0 {
        0
    } else {
        shop_count(raws, n - 1) + if raws[n - 1].is_shop() {
            1int
        } else {
            0
        }
    }
}

/// How often the currency sign occurs in the shop scripts among the first `n`
/// entries.
pub open spec fn money_total(raws: Seq<RawView>, n: int) -> int
    decreases n,
{
    if n <= 0 {
        0
    } else {
        money_total(raws, n - 1) + if raws[n - 1].is_shop() {
            money_count(hex_text_bytes(raws[n - 1].bytes_hex)->Ok_0)
        } else {
            0
        }
    }
}

/// What is wrong with the sources of the currency sign, if anything.
pub open spec fn money_sources_fault(rom: Seq<u8>, raws: Seq<RawView>) -> Option<Fault> {
    let n = raws.len() as int;
    if shop_count(raws, n) != 12 {
        Some(plain("raw shop entry count changed: expected 12, got "@ + dec(shop_count(raws, n))))
    } else {
        match money_entries_fault(raws, n) {
            Some(e) => Some(e),
            None => if rom.len() < 0x19B5D {
                Some(plain("money glyph candidate offset 0x19B55 is outside ROM"@))
            } else if forall|i: int| 0x19B55 <= i < 0x19B5D ==> rom[i] == 0 {
                Some(plain("money glyph candidate at 0x19B55 is blank"@))
            } else {
                None
            },
        }
    }
}

/// What a check of the currency sign found.
#[derive(Debug)]
pub struct MoneyReport {
    /// The number of its glyph in the font.
    pub glyph_index: usize,
    /// Where that glyph stands.
    pub glyph_offset: usize,
    /// The glyph.
    pub glyph_bytes: [u8; 8],
    /// Every offset at which the same bytes stand.
    pub exact_matches: Vec<usize>,
    /// How many shop scripts there are, each with the currency sign.
    pub entries_with_money: usize,
    /// How often the sign occurs in them.
    pub money_occurrences: u128,
}

proof fn lemma_money_entries(raws: Seq<RawView>, k: int, n: int)
    requires
        k <= n,
        money_entries_fault(raws, k) is Some,
    ensures
        money_entries_fault(raws, n) == money_entries_fault(raws, k),
    decreases n - k,
{
    if k < n {
        lemma_money_entries(raws, k, n - 1);
    }
}

fn count_money(bytes: &[u8]) -> (n: usize)
    ensures
        n == money_count(bytes@),
{
    let ghost all = bytes@;
    let mut n: usize = 0;
    let mut i: usize = 0;
    while i < bytes.len()
        invariant
            i <= bytes@.len(),
            all == bytes@,
            n <= i,
            n == money_count(all.take(i as int)),
        decreases bytes@.len() - i,
    {
        proof {
            assert(all.take(i + 1).drop_last() =~= all.take(i as int));
            assert(all.take(i + 1).last() == all[i as int]);
        }
        if bytes[i] == MONEY_TEXT_BYTE {
            n += 1;
        }
        i += 1;
    }
    proof {
        assert(all.take(i as int) =~= all);
    }
    n
}

fn check_money_entry(raw: &RawTextEntry) -> (res: Result<usize, PatchError>)
    ensures
        match res {
            Ok(n) => money_entry_fault(raw@) is None && n == money_count(
                hex_text_bytes(raw@.bytes_hex)->Ok_0,
            ),
            Err(e) => money_entry_fault(raw@) == Some(e@),
        },
{
    let id = raw.id.as_str();
    let bytes = match parse_hex_bytes(raw.bytes_hex.as_str()) {
        Ok(bytes) => bytes,
        Err(cause) => {
            return Err(text(id).lit(" bytes_hex").fail_after(cause));
        },
    };
    let count: usize = count_money(bytes.as_slice());
    if count == 0 {
        return Err(
            text(id).lit(": shop raw entry does not contain money text byte 0x0C").fail(),
        );
    }
    let jp = chars_of(raw.jp.as_str());
    if !contains_text(jp.as_slice(), "金") {
        return Err(text(id).lit(": shop raw jp preview does not contain 金").fail());
    }
    Ok(count)
}

/// Checks where the currency sign comes from: it occurs in every shop script, and its
/// glyph is in the font.
pub fn check_money_sources(rom: &[u8], raws: &[RawTextEntry]) -> (res: Result<
    MoneyReport,
    PatchError,
>)
    ensures
        match res {
            Ok(r) => {
                let all = raw_views(raws@);
                let n = all.len() as int;
                &&& money_sources_fault(rom@, all) is None
                &&& r.glyph_index == 11
                &&& r.glyph_offset == 0x19B55
                &&& r.glyph_bytes@ == rom@.subrange(0x19B55, 0x19B5D)
                &&& position_views(r.exact_matches@) == glyph_offsets(
                    rom@,
                    r.glyph_bytes@,
                    rom@.len() - 7,
                )
                &&& r.entries_with_money == 12
                &&& r.money_occurrences == money_total(all, n)
            },
            Err(e) => money_sources_fault(rom@, raw_views(raws@)) == Some(e@),
        },
{
    let ghost all = raw_views(raws@);
    let ghost n = all.len() as int;
    let mut shops: usize = 0;
    let mut i: usize = 0;
    while i < raws.len()
        invariant
            i <= raws@.len(),
            all == raw_views(raws@),
            shops <= i,
            shops == shop_count(all, i as int),
        decreases raws@.len() - i,
    {
        proof {
            assert(all[i as int] == raws@[i as int]@);
        }
        if is_text(&raws[i].kind, "shop") {
            shops += 1;
        }
        i += 1;
    }
    if shops != 12 {
        return Err(
            text("raw shop entry count changed: expected 12, got ").dec(shops).fail(),
        );
    }
    let mut total: u128 = 0;
    let mut i: usize = 0;
    proof {
        assert(usize::MAX <= 0xFFFF_FFFF_FFFF_FFFF);
    }
    while i < raws.len()
        invariant
            i <= raws@.len(),
            all == raw_views(raws@),
            n == all.len(),
            usize::MAX <= 0xFFFF_FFFF_FFFF_FFFF,
            shop_count(all, n) == 12,
            money_entries_fault(all, i as int) is None,
            total == money_total(all, i as int),
            total <= i * 0xFFFF_FFFF_FFFF_FFFF,
        decreases raws@.len() - i,
    {
        proof {
            assert(all[i as int] == raws@[i as int]@);
            assert(i * 0xFFFF_FFFF_FFFF_FFFF <= 0xFFFF_FFFF_FFFF_FFFE * 0xFFFF_FFFF_FFFF_FFFF)
                by (nonlinear_arith)
                requires
                    0 <= i <= 0xFFFF_FFFF_FFFF_FFFE,
            ;
        }
        if is_text(&raws[i].kind, "shop") {
            match check_money_entry(&raws[i]) {
                Ok(count) => {
                    total += count as u128;
                },
                Err(e) => {
                    proof {
                        lemma_money_entries(all, i + 1, n);
                    }
                    return Err(e);
                },
            }
        }
        i += 1;
    }
    let glyph_index: usize = crate::glyph::font_index(MONEY_TEXT_BYTE);
    let glyph_offset: usize = FONT_BASE + glyph_index * GLYPH_BYTES;
    if rom.len() < glyph_offset + GLYPH_BYTES {
        return Err(text("money glyph candidate offset 0x19B55 is outside ROM").fail());
    }
    let glyph_bytes: [u8; 8] = [
        rom[0x19B55],
        rom[0x19B56],
        rom[0x19B57],
        rom[0x19B58],
        rom[0x19B59],
        rom[0x19B5A],
        rom[0x19B5B],
        rom[0x19B5C],
    ];
    proof {
        assert(glyph_bytes@ =~= rom@.subrange(0x19B55, 0x19B5D));
    }
    if crate::tracked_rom::all_equal(glyph_bytes.as_slice(), 0) {
        proof {
            assert forall|i: int| 0x19B55 <= i < 0x19B5D implies rom@[i] == 0 by {
                assert(glyph_bytes@[i - 0x19B55] == 0);
            }
        }
        return Err(text("money glyph candidate at 0x19B55 is blank").fail());
    }
    proof {
        let k = choose|k: int| 0 <= k < 8 && glyph_bytes@[k] != 0;
        assert(rom@[0x19B55 + k] != 0);
    }
    let exact_matches = find_exact_glyph_matches(rom, &glyph_bytes);
    Ok(
        MoneyReport {
            glyph_index,
            glyph_offset,
            glyph_bytes,
            exact_matches,
            entries_with_money: 12,
            money_occurrences: total,
        },
    )
}

} // verus!
