//! The files and directories of the translation stages.
use vstd::prelude::*;
use crate::error::{plain, PatchError};
use crate::jp_text::opt_view;
use crate::parse::{same_str, string_views};
use crate::pointers::{script_count, CUTSCENE_COUNT};
use crate::script::{
    entry_ref_views, entry_views, stage_entry, EntryView, SHOP_COUNT, ScriptEntry, ScriptKind,
    TranslationStageEntry,
};
use crate::script_bins::{entries_for_kind, entries_for_region, is_selection, Selection};
use crate::script_callers::opt_text;
use crate::text::{dec, dec_pad, text};

verus! {

// ---------------------------------------------------------------------------
// Directories
// ---------------------------------------------------------------------------

/// How many stages there are.
pub const STAGE_COUNT: usize = 5;

/// The names of the stages, in order.
pub open spec fn stage_name(i: int) -> Seq<char> {
    if i == 0 {
        "raw"@
    } else if i == 1 {
        "in_progress"@
    } else if i == 2 {
        "needs_review"@
    } else if i == 3 {
        "needs_human_review"@
    } else {
        "complete"@
    }
}

/// The name of a stage.
pub fn stage_dir_name(i: usize) -> (name: &'static str)
    requires
        i < 5,
    ensures
        name@ == stage_name(i as int),
{
    if i == 0 {
        "raw"
    } else if i == 1 {
        "in_progress"
    } else if i == 2 {
        "needs_review"
    } else if i == 3 {
        "needs_human_review"
    } else {
        "complete"
    }
}

/// Whether a name is that of a stage.
pub open spec fn is_stage(name: Seq<char>) -> bool {
    exists|i: int| 0 <= i < 5 && name == #[trigger] stage_name(i)
}

fn names_stage(name: &str) -> (r: bool)
    ensures
        r == is_stage(name@),
{
    let mut i: usize = 0;
    while i < STAGE_COUNT
        invariant
            i <= 5,
            forall|k: int| 0 <= k < i ==> name@ != #[trigger] stage_name(k),
        decreases 5 - i,
    {
        if same_str(name, stage_dir_name(i)) {
            proof {
                assert(name@ == stage_name(i as int));
            }
            return true;
        }
        i += 1;
    }
    false
}

/// The stage that a directory belongs to: the innermost of the directories on its path
/// that is named like one.
pub open spec fn innermost_stage(dirs: Seq<Seq<char>>) -> Option<Seq<char>>
    decreases dirs.len(),
{
    if dirs.len() == 0 {
        None
    } else if is_stage(dirs.last()) {
        Some(dirs.last())
    } else {
        innermost_stage(dirs.drop_last())
    }
}

/// The stage that a directory belongs to, by the names on its path, outermost first.
pub fn stage_name_for_path(dirs: &[String]) -> (stage: Option<String>)
    ensures
        opt_text(stage) == innermost_stage(string_views(dirs@)),
{
    let ghost all = string_views(dirs@);
    let mut n: usize = dirs.len();
    proof {
        assert(all.take(n as int) =~= all);
    }
    while n > 0
        invariant
            n <= dirs@.len(),
            all == string_views(dirs@),
            innermost_stage(all) == innermost_stage(all.take(n as int)),
        decreases n,
    {
        proof {
            assert(all.take(n as int).last() == dirs@[n - 1]@);
            assert(all.take(n as int).drop_last() =~= all.take(n - 1));
        }
        if names_stage(dirs[n - 1].as_str()) {
            return Some(dirs[n - 1].clone());
        }
        n -= 1;
    }
    None
}

/// Where the directory of a stage is, seen from a given directory.
#[derive(Debug, Clone, Copy, PartialEq, Eq, Structural)]
pub enum StageDir {
    /// It is the directory itself.
    Itself,
    /// It is in `scripts`.
    UnderScripts,
    /// It is in the directory.
    Direct,
}

/// Where the directory of a stage is: the directory itself where it is named like the
/// stage, else the one in `scripts`, else the one in the directory.
pub open spec fn stage_place(
    name: Option<Seq<char>>,
    stage: Seq<char>,
    under_scripts: bool,
    direct: bool,
) -> Option<StageDir> {
    if name == Some(stage) {
        Some(StageDir::Itself)
    } else if under_scripts {
        Some(StageDir::UnderScripts)
    } else if direct {
        Some(StageDir::Direct)
    } else {
        None
    }
}

fn place_stage(name: Option<&str>, stage: &str, under_scripts: bool, direct: bool) -> (r: Option<
    StageDir,
>)
    ensures
        r == stage_place(opt_view(name), stage@, under_scripts, direct),
{
    let own: bool = match name {
        Some(n) => same_str(n, stage),
        None => false,
    };
    if own {
        Some(StageDir::Itself)
    } else if under_scripts {
        Some(StageDir::UnderScripts)
    } else if direct {
        Some(StageDir::Direct)
    } else {
        None
    }
}

/// Where the directory of a stage is, seen from a directory with a given path and name.
pub fn named_stage_dir(
    path: &str,
    name: Option<&str>,
    stage: &str,
    under_scripts: bool,
    direct: bool,
) -> (res: Result<StageDir, PatchError>)
    ensures
        match stage_place(opt_view(name), stage@, under_scripts, direct) {
            Some(d) => res == Ok::<StageDir, PatchError>(d),
            None => res matches Err(e) && e@ == plain(
                path@ + " is not a "@ + stage@
                    + " translation input; pass that stage directly or its workflow root"@,
            ),
        },
{
    match place_stage(name, stage, under_scripts, direct) {
        Some(d) => Ok(d),
        None => Err(
            text(path).lit(" is not a ").lit(stage).lit(
                " translation input; pass that stage directly or its workflow root",
            ).fail(),
        ),
    }
}

/// Where the directory of finished translations is, seen from a directory with a given
/// path and name.
pub fn complete_stage_dir(path: &str, name: Option<&str>, under_scripts: bool, direct: bool) -> (res:
    Result<StageDir, PatchError>)
    ensures
        match stage_place(opt_view(name), "complete"@, under_scripts, direct) {
            Some(d) => res == Ok::<StageDir, PatchError>(d),
            None => res matches Err(e) && e@ == plain(
                path@
                    + " is a directory translation input, but no scripts/complete or complete directory exists; pass a specific JSON file for gate overlays"@,
            ),
        },
{
    match place_stage(name, "complete", under_scripts, direct) {
        Some(d) => Ok(d),
        None => Err(
            text(path).lit(
                " is a directory translation input, but no scripts/complete or complete directory exists; pass a specific JSON file for gate overlays",
            ).fail(),
        ),
    }
}

/// Where the directory of raw scripts is, seen from a directory with a given path and
/// name.
pub fn raw_stage_dir(path: &str, name: Option<&str>, under_scripts: bool, direct: bool) -> (res: Result<
    StageDir,
    PatchError,
>)
    ensures
        match stage_place(opt_view(name), "raw"@, under_scripts, direct) {
            Some(d) => res == Ok::<StageDir, PatchError>(d),
            None => res matches Err(e) && e@ == plain(
                path@
                    + " is a raw text input directory, but no scripts/raw or raw directory exists"@,
            ),
        },
{
    match place_stage(name, "raw", under_scripts, direct) {
        Some(d) => Ok(d),
        None => Err(
            text(path).lit(
                " is a raw text input directory, but no scripts/raw or raw directory exists",
            ).fail(),
        ),
    }
}

// ---------------------------------------------------------------------------
// Raw files
// ---------------------------------------------------------------------------

/// A file of scripts that are still to be translated.
#[derive(Debug)]
pub struct StageFile {
    /// Its name.
    pub name: String,
    /// What it holds, in words.
    pub description: String,
    /// The scripts.
    pub entries: Vec<TranslationStageEntry>,
}

/// How many raw files there are: one for each region, one for cutscenes, one for shops.
pub const RAW_FILE_COUNT: usize = 13;

/// The name of a raw file.
pub open spec fn raw_file_name(i: int) -> Seq<char> {
    if i < 11 {
        "region_"@ + dec_pad(i, 2) + ".json"@
    } else if i == 11 {
        "cutscenes.json"@
    } else {
        "shop.json"@
    }
}

/// What a raw file holds, in words.
pub open spec fn raw_file_description(i: int) -> Seq<char> {
    if i < 11 {
        "region/"@ + dec(i) + " raw extract"@
    } else if i == 11 {
        "cutscene raw extract"@
    } else {
        "shop raw extract"@
    }
}

/// Which scripts a raw file holds.
pub open spec fn raw_file_selection(i: int) -> Selection {
    if i < 11 {
        Selection { kind: ScriptKind::Region, region: Some(i as usize) }
    } else if i == 11 {
        Selection { kind: ScriptKind::Cutscene, region: None }
    } else {
        Selection { kind: ScriptKind::Shop, region: None }
    }
}

/// How many scripts a raw file holds.
pub open spec fn raw_file_size(i: int) -> int {
    if i < 11 {
        script_count(i)
    } else if i == 11 {
        0xA8
    } else {
        12
    }
}

/// Whether a file holds the untranslated forms of scripts, one for one.
pub open spec fn holds_scripts(file: StageFile, list: Seq<EntryView>) -> bool {
    &&& file.entries@.len() == list.len()
    &&& forall|k: int| 0 <= k < list.len() ==> (#[trigger] file.entries@[k]).starts_from(list[k])
}

/// Whether a result is raw file `i` of a list of scripts, or what is wrong with the
/// scripts.
pub open spec fn is_raw_file(res: Result<StageFile, PatchError>, entries: Seq<EntryView>, i: int) -> bool {
    exists|found: Result<Vec<&ScriptEntry>, PatchError>|
        {
            &&& #[trigger] is_selection(found, entries, raw_file_selection(i), raw_file_size(i))
            &&& match (res, found) {
                (Ok(file), Ok(list)) => {
                    &&& file.name@ == raw_file_name(i)
                    &&& file.description@ == raw_file_description(i)
                    &&& holds_scripts(file, entry_ref_views(list@))
                },
                (Err(a), Err(b)) => a@ == b@,
                _ => false,
            }
        }
}

fn stage_entries(list: &[&ScriptEntry]) -> (entries: Vec<TranslationStageEntry>)
    ensures
        entries@.len() == list@.len(),
        forall|k: int|
            0 <= k < list@.len() ==> (#[trigger] entries@[k]).starts_from(
                entry_ref_views(list@)[k],
            ),
{
    let mut entries: Vec<TranslationStageEntry> = Vec::new();
    let mut k: usize = 0;
    while k < list.len()
        invariant
            k <= list@.len(),
            entries@.len() == k,
            forall|j: int|
                0 <= j < k ==> (#[trigger] entries@[j]).starts_from(entry_ref_views(list@)[j]),
        decreases list@.len() - k,
    {
        entries.push(stage_entry(list[k]));
        k += 1;
    }
    entries
}

/// Makes a raw file of a list of scripts.
pub fn raw_stage_file(entries: &[ScriptEntry], i: usize) -> (res: Result<StageFile, PatchError>)
    requires
        i < 13,
    ensures
        is_raw_file(res, entry_views(entries@), i as int),
{
    let found = if i < 11 {
        entries_for_region(entries, i)
    } else if i == 11 {
        entries_for_kind(entries, ScriptKind::Cutscene, CUTSCENE_COUNT)
    } else {
        entries_for_kind(entries, ScriptKind::Shop, SHOP_COUNT)
    };
    let ghost kept = found;
    proof {
        assert(is_selection(
            kept,
            entry_views(entries@),
            raw_file_selection(i as int),
            raw_file_size(i as int),
        ));
    }
    match found {
        Err(e) => Err(e),
        Ok(list) => {
            let name = if i < 11 {
                text("region_").dec_pad(i, 2).lit(".json").finish()
            } else if i == 11 {
                text("cutscenes.json").finish()
            } else {
                text("shop.json").finish()
            };
            let description = if i < 11 {
                text("region/").dec(i).lit(" raw extract").finish()
            } else if i == 11 {
                text("cutscene raw extract").finish()
            } else {
                text("shop raw extract").finish()
            };
            Ok(StageFile { name, description, entries: stage_entries(list.as_slice()) })
        },
    }
}

} // verus!
