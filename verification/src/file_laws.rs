//! What the files of scripts hold and how they are named.
use vstd::prelude::*;
use vstd::relations::injective_on;
use vstd::set_lib::lemma_map_size;
use crate::number_laws::law_dec_pad_denotes;
use crate::parse::numeral;
use crate::raw_text::{
    distinct_ids, is_last, raw_collected, raw_file_fault, raw_merged, raw_views, RawInput, RawView,
};
use crate::script::ScriptKind;
use crate::stage_files::{
    innermost_stage, is_stage, raw_file_name, raw_file_selection, raw_file_size, stage_name,
    stage_place, StageDir,
};
use crate::term_laws::{is_filled, is_script, law_scripts_by_name, law_trim};
use crate::text::dec_pad;

verus! {

// ---------------------------------------------------------------------------
// Scripts from files
// ---------------------------------------------------------------------------

/// The names of scripts.
pub open spec fn names(list: Seq<RawView>) -> Set<Seq<char>> {
    Set::new(|id: Seq<char>| exists|i: int| 0 <= i < list.len() && (#[trigger] list[i]).id == id)
}

spec fn last_ones(list: Seq<RawView>, n: int) -> Set<int> {
    Set::new(|i: int| 0 <= i < n && is_last(list, i))
}

proof fn lemma_last_ones(list: Seq<RawView>, n: int)
    requires
        0 <= n <= list.len(),
    ensures
        last_ones(list, n).finite(),
        last_ones(list, n).len() == distinct_ids(list, n),
    decreases n,
{
    if n == 0 {
        assert(last_ones(list, n) =~= Set::empty());
    } else {
        lemma_last_ones(list, n - 1);
        if is_last(list, n - 1) {
            assert(last_ones(list, n) =~= last_ones(list, n - 1).insert(n - 1));
        } else {
            assert(last_ones(list, n) =~= last_ones(list, n - 1));
        }
    }
}

/// Scripts are counted by their names.
pub proof fn law_scripts_counted(list: Seq<RawView>)
    ensures
        names(list).finite(),
        distinct_ids(list, list.len() as int) == names(list).len(),
{
    let n = list.len() as int;
    let ones = last_ones(list, n);
    let f = |i: int| list[i].id;
    lemma_last_ones(list, n);
    assert(injective_on(f, ones)) by {
        assert forall|i: int, j: int|
            ones.contains(i) && ones.contains(j) && #[trigger] f(i) == #[trigger] f(j) implies i
            == j by {}
    }
    assert(ones.map(f) =~= names(list)) by {
        assert forall|id: Seq<char>| names(list).contains(id) implies ones.map(f).contains(id) by {
            law_scripts_by_name(list, id);
            let k = choose|k: int| 0 <= k < list.len() && (#[trigger] list[k]).id == id;
            let r = crate::raw_text::raw_index(list, id)->0;
            assert(is_script(list, id, r));
            assert(ones.contains(r));
            assert(f(r) == id);
        }
        assert forall|id: Seq<char>| ones.map(f).contains(id) implies names(list).contains(id) by {
            let i = choose|i: int| ones.contains(i) && f(i) == id;
            assert(list[i].id == id);
        }
    }
    lemma_map_size(ones, names(list), f);
}

/// Whether every script of a file has a name.
pub open spec fn is_named(file: RawInput) -> bool {
    forall|k: int| 0 <= k < file.entries@.len() ==> is_filled((#[trigger] file.entries@[k]).id@)
}

proof fn lemma_named(file: RawInput, n: int)
    requires
        0 <= n <= file.entries@.len(),
    ensures
        raw_file_fault(file, n) is None <==> forall|k: int|
            0 <= k < n ==> is_filled((#[trigger] file.entries@[k]).id@),
    decreases n,
{
    if n > 0 {
        lemma_named(file, n - 1);
        law_trim(file.entries@[n - 1].id@);
    }
}

/// Where the scripts of a file start among those of all files.
pub open spec fn scripts_before(files: Seq<RawInput>, f: int) -> int
    decreases f,
{
    if f <= 0 {
        0
    } else {
        scripts_before(files, f - 1) + files[f - 1].entries@.len()
    }
}

proof fn lemma_merged(files: Seq<RawInput>, n: int)
    requires
        0 <= n <= files.len(),
    ensures
        raw_merged(files, n) is Ok <==> forall|f: int| 0 <= f < n ==> is_named(#[trigger] files[f]),
        raw_merged(files, n) matches Ok(list) ==> list.len() == scripts_before(files, n),
    decreases n,
{
    if n > 0 {
        lemma_merged(files, n - 1);
        lemma_named(files[n - 1], files[n - 1].entries@.len() as int);
    }
}

proof fn lemma_merged_entry(files: Seq<RawInput>, n: int, f: int, k: int)
    requires
        0 <= f < n <= files.len(),
        0 <= k < files[f].entries@.len(),
        raw_merged(files, n) is Ok,
    ensures
        0 <= scripts_before(files, f),
        scripts_before(files, f) + k < raw_merged(files, n)->Ok_0.len(),
        raw_merged(files, n)->Ok_0[scripts_before(files, f) + k] == files[f].entries@[k]@,
    decreases n,
{
    lemma_merged(files, n);
    lemma_merged(files, n - 1);
    let before = raw_merged(files, n - 1)->Ok_0;
    if f < n - 1 {
        lemma_merged_entry(files, n - 1, f, k);
    } else {
        assert(raw_merged(files, n)->Ok_0[before.len() + k] == raw_views(files[f].entries@)[k]);
    }
}

/// Scripts are taken from all files, in order. They are refused exactly if one of them has
/// no name or there are none at all.
pub proof fn law_collected_scripts(files: Seq<RawInput>, path: Seq<char>)
    ensures
        raw_collected(files, path) is Ok <==> scripts_before(files, files.len() as int) > 0
            && forall|f: int| 0 <= f < files.len() ==> is_named(#[trigger] files[f]),
        raw_collected(files, path) matches Ok(list) ==> {
            &&& list.len() == scripts_before(files, files.len() as int)
            &&& forall|f: int, k: int|
                0 <= f < files.len() && 0 <= k < files[f].entries@.len() ==> list[scripts_before(
                    files,
                    f,
                ) + k] == (#[trigger] files[f].entries@[k])@
        },
{
    lemma_merged(files, files.len() as int);
    if raw_merged(files, files.len() as int) is Ok {
        assert forall|f: int, k: int|
            0 <= f < files.len() && 0 <= k < files[f].entries@.len() implies raw_merged(
            files,
            files.len() as int,
        )->Ok_0[scripts_before(files, f) + k] == (#[trigger] files[f].entries@[k])@ by {
            lemma_merged_entry(files, files.len() as int, f, k);
        }
    }
}

// ---------------------------------------------------------------------------
// Stages
// ---------------------------------------------------------------------------

/// The stages of translation have these five names.
pub proof fn law_stage_names(name: Seq<char>)
    ensures
        is_stage(name) <==> name == "raw"@ || name == "in_progress"@ || name == "needs_review"@
            || name == "needs_human_review"@ || name == "complete"@,
        stage_name(0) == "raw"@,
        stage_name(1) == "in_progress"@,
        stage_name(2) == "needs_review"@,
        stage_name(3) == "needs_human_review"@,
        stage_name(4) == "complete"@,
{
    assert(stage_name(0) == "raw"@);
    assert(stage_name(1) == "in_progress"@);
    assert(stage_name(2) == "needs_review"@);
    assert(stage_name(3) == "needs_human_review"@);
    assert(stage_name(4) == "complete"@);
}

/// A path is in the stage whose directory is nearest to its end, if there is one.
pub proof fn law_innermost_stage(dirs: Seq<Seq<char>>)
    ensures
        innermost_stage(dirs) is None <==> forall|i: int|
            0 <= i < dirs.len() ==> !is_stage(#[trigger] dirs[i]),
        innermost_stage(dirs) matches Some(name) ==> is_stage(name) && exists|i: int|
            0 <= i < dirs.len() && #[trigger] dirs[i] == name && forall|j: int|
                i < j < dirs.len() ==> !is_stage(#[trigger] dirs[j]),
    decreases dirs.len(),
{
    if dirs.len() > 0 {
        let front = dirs.drop_last();
        let n = dirs.len() - 1;
        law_innermost_stage(front);
        if is_stage(dirs.last()) {
            assert(dirs[n] == dirs.last());
        } else if innermost_stage(front) is Some {
            let name = innermost_stage(front)->0;
            let i = choose|i: int|
                0 <= i < front.len() && #[trigger] front[i] == name && forall|j: int|
                    i < j < front.len() ==> !is_stage(#[trigger] front[j]);
            assert(dirs[i] == name);
            assert forall|j: int| i < j < dirs.len() implies !is_stage(#[trigger] dirs[j]) by {
                if j < n {
                    assert(front[j] == dirs[j]);
                }
            }
        } else {
            assert forall|i: int| 0 <= i < dirs.len() implies !is_stage(#[trigger] dirs[i]) by {
                if i < n {
                    assert(front[i] == dirs[i]);
                }
            }
        }
    }
}

/// A directory of a stage is the one that was named; or, where another was named, the one of
/// the stage under its scripts; or, where there is none, the one directly in it.
pub proof fn law_stage_places(
    name: Option<Seq<char>>,
    stage: Seq<char>,
    under_scripts: bool,
    direct: bool,
)
    ensures
        stage_place(name, stage, under_scripts, direct) is None <==> name != Some(stage)
            && !under_scripts && !direct,
        stage_place(name, stage, under_scripts, direct) == Some(StageDir::Itself) <==> name == Some(
            stage,
        ),
        stage_place(name, stage, under_scripts, direct) == Some(StageDir::Direct) <==> name != Some(
            stage,
        ) && !under_scripts && direct,
{
}

// ---------------------------------------------------------------------------
// Files of extracted scripts
// ---------------------------------------------------------------------------

proof fn lemma_two_digits(i: int)
    requires
        0 <= i < 100,
    ensures
        dec_pad(i, 2).len() == 2,
{
    reveal_with_fuel(dec_pad, 4);
}

/// The file of a region is named after its number, with two digits.
pub proof fn law_region_files(i: int)
    requires
        0 <= i < 11,
    ensures
        raw_file_name(i).len() == 14,
        raw_file_name(i).take(7) == "region_"@,
        numeral(raw_file_name(i).subrange(7, 9), 10) == Some(i),
        raw_file_name(i).skip(9) == ".json"@,
        raw_file_selection(i).kind == ScriptKind::Region,
        raw_file_selection(i).region == Some(i as usize),
{
    reveal_strlit("region_");
    reveal_strlit(".json");
    lemma_two_digits(i);
    law_dec_pad_denotes(i, 2);
    assert(raw_file_name(i).take(7) =~= "region_"@);
    assert(raw_file_name(i).subrange(7, 9) =~= dec_pad(i, 2));
    assert(raw_file_name(i).skip(9) =~= ".json"@);
}

/// The cutscenes and the shops have a file each, and the thirteen files together have room
/// for all 962 scripts.
pub proof fn law_other_files()
    ensures
        raw_file_name(11) == "cutscenes.json"@,
        raw_file_selection(11).kind == ScriptKind::Cutscene,
        raw_file_selection(11).region is None,
        raw_file_size(11) == 168,
        raw_file_name(12) == "shop.json"@,
        raw_file_selection(12).kind == ScriptKind::Shop,
        raw_file_selection(12).region is None,
        raw_file_size(12) == 12,
        raw_file_size(0) + raw_file_size(1) + raw_file_size(2) + raw_file_size(3) + raw_file_size(4)
            + raw_file_size(5) + raw_file_size(6) + raw_file_size(7) + raw_file_size(8)
            + raw_file_size(9) + raw_file_size(10) + raw_file_size(11) + raw_file_size(12) == 962,
{
}

} // verus!
