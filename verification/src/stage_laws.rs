//! What holds of a translation stage that passes its check.
use vstd::prelude::*;
use crate::error::PatchError;
use crate::hexbytes::hex_text_bytes;
use crate::jp_text::{token, voiced};
use crate::ko_text::{
    all_tokens, is_glyph_order, law_glyph_order_is_unique, text_code, tokens_of, TextToken,
};
use crate::parse::trim_spec;
use crate::raw_text::{raw_index, RawView};
use crate::shop_layout::{column_after, lines_fit, shop_fault, width_fault};
use crate::stage::{
    entry_tally, fields_fault, first_japanese, first_staged, is_stage_result, look_of,
    residue_fault, stage_entry_fault, stage_status_fault, stage_tallies, stage_texts, tally_count,
    StageContext, StageReport, StageView, StagedView, Tally,
};
use crate::term_laws::{
    is_filled, is_owed, is_script, is_visible, law_found_where_it_stands, law_outside_tags,
    law_scripts_by_name, law_settled_words_are_used, law_trim, stands_at,
};
use crate::terms::{normal_text, outside_tags, usage_fault, TermView};
use crate::text_laws::{
    law_pairs_follow_unicode, law_table_follows_unicode, pair_point, shown_point, shows_pair,
};
use crate::translation::{metadata_fault, punctuation_fault, OverrideView};

verus! {

// ---------------------------------------------------------------------------
// One entry
// ---------------------------------------------------------------------------

/// Whether a code point belongs to Japanese text: hiragana and katakana, or a Chinese
/// character.
pub open spec fn is_japanese_point(n: int) -> bool {
    0x3040 <= n <= 0x30FF || 0x4E00 <= n <= 0x9FFF
}

proof fn lemma_first_japanese_none(s: Seq<char>, n: int, k: int)
    requires
        0 <= k < n <= s.len(),
        first_japanese(s, n) is None,
    ensures
        !is_japanese_point(s[k] as int),
    decreases n,
{
    if k < n - 1 {
        lemma_first_japanese_none(s, n - 1, k);
    }
}

proof fn lemma_first_japanese_some(s: Seq<char>, n: int)
    requires
        0 <= n <= s.len(),
        first_japanese(s, n) is Some,
    ensures
        s.contains(first_japanese(s, n)->0),
        is_japanese_point(first_japanese(s, n)->0 as int),
    decreases n,
{
    if first_japanese(s, n - 1) is Some {
        lemma_first_japanese_some(s, n - 1);
    } else {
        assert(s[n - 1] == first_japanese(s, n)->0);
    }
}

/// An entry that is not skipped is refused for Japanese text exactly if a visible
/// character of its translation is kana or a Chinese character. Tags may hold any text,
/// and so may an entry that is skipped.
pub proof fn law_residue(e: OverrideView)
    ensures
        residue_fault(e) is Some <==> !e.skip && exists|i: int|
            is_visible(e.ko, i) && is_japanese_point(#[trigger] e.ko[i] as int),
{
    let visible = outside_tags(e.ko);
    let n = visible.len() as int;
    law_trim(e.ko);
    if !e.skip && exists|i: int|
        is_visible(e.ko, i) && is_japanese_point(#[trigger] e.ko[i] as int) {
        let i = choose|i: int|
            is_visible(e.ko, i) && is_japanese_point(#[trigger] e.ko[i] as int);
        crate::term_laws::law_white_space(e.ko[i]);
        assert(is_filled(e.ko));
        law_outside_tags(e.ko, i);
        let p = choose|p: int| 0 <= p < visible.len() && visible[p] == e.ko[i];
        if first_japanese(visible, n) is None {
            lemma_first_japanese_none(visible, n, p);
        }
    }
    if residue_fault(e) is Some {
        lemma_first_japanese_some(visible, n);
        let c = first_japanese(visible, n)->0;
        let p = choose|p: int| 0 <= p < visible.len() && visible[p] == c;
        law_outside_tags(e.ko, 0);
        assert(exists|k: int| is_visible(e.ko, k) && #[trigger] e.ko[k] == visible[p]);
    }
}

/// Every kana that the game's font can show, alone or as a pair of bytes, is refused in a
/// translation.
pub proof fn law_game_kana_are_refused(e: OverrideView, i: int, b: u8, base: u8)
    requires
        !e.skip,
        is_visible(e.ko, i),
        ({
            ||| 0x0F <= b <= 0x7C && token(b) == Some(seq![e.ko[i]])
            ||| (b == 0xFB || b == 0xFC) && voiced(b, base) == Some(seq![e.ko[i]])
        }),
    ensures
        residue_fault(e) is Some,
{
    law_table_follows_unicode(b);
    law_pairs_follow_unicode(b, base);
    let one = seq![e.ko[i]];
    assert(one[0] == e.ko[i]);
    if 0x0F <= b <= 0x7C && token(b) == Some(one) {
        assert(e.ko[i] as int == shown_point(b as int));
    } else {
        assert(shows_pair(b, base));
        assert(e.ko[i] as int == pair_point(b, base));
    }
    law_residue(e);
}

/// An entry passes the comparison with its script exactly if its text, bytes and checksum
/// are there and as they were extracted, and so is each of kind, region, number, offset
/// and length that it gives.
pub proof fn law_protected_fields(path: Seq<char>, e: StageView, raw: RawView)
    ensures
        fields_fault(path, e, raw) is None <==> {
            &&& is_filled(e.entry.jp) && e.entry.jp == raw.jp
            &&& is_filled(e.entry.bytes_hex) && e.entry.bytes_hex == raw.bytes_hex
            &&& is_filled(e.entry.source_crc32) && e.entry.source_crc32 == raw.source_crc32
            &&& e.kind is None || e.kind == raw.kind
            &&& e.region is None || e.region == raw.region
            &&& e.index is None || e.index == raw.index
            &&& e.offset is None || e.offset == raw.offset
            &&& e.len is None || e.len == raw.len
        },
{
    law_trim(e.entry.jp);
    law_trim(e.entry.bytes_hex);
    law_trim(e.entry.source_crc32);
}

proof fn lemma_stage_words()
    ensures
        "raw"@ != "in_progress"@,
        "raw"@ != "needs_review"@,
        "raw"@ != "needs_human_review"@,
        "raw"@ != "complete"@,
        "in_progress"@ != "needs_review"@,
        "in_progress"@ != "needs_human_review"@,
        "in_progress"@ != "complete"@,
        "needs_review"@ != "needs_human_review"@,
        "needs_review"@ != "complete"@,
        "needs_human_review"@ != "complete"@,
{
    reveal_strlit("raw");
    reveal_strlit("in_progress");
    reveal_strlit("needs_review");
    reveal_strlit("needs_human_review");
    reveal_strlit("complete");
    assert("in_progress"@[0] == 'i');
    assert("needs_review"@[0] == 'n');
    assert("raw"@.len() == 3);
    assert("in_progress"@.len() == 11);
    assert("needs_review"@.len() == 12);
    assert("needs_human_review"@.len() == 18);
    assert("complete"@.len() == 8);
}

/// Which states an entry may be in at each stage: untouched in the raw stage; begun, done
/// or up for review in progress; in the later stages the states of that stage, with a
/// translation and with notes; anywhere else some state.
pub proof fn law_stage_states(path: Seq<char>, stage: Option<Seq<char>>, e: OverrideView)
    ensures
        ({
            let state = trim_spec(e.status);
            let worked_on = is_filled(e.ko) && is_filled(e.notes);
            let passes = stage_status_fault(path, stage, e) is None;
            &&& stage == Some("raw"@) ==> (passes <==> state == "untranslated"@ && !is_filled(e.ko))
            &&& stage == Some("in_progress"@) ==> (passes <==> (state == "in_progress"@ || state
                == "done"@ || state == "needs_review"@))
            &&& stage == Some("needs_review"@) ==> (passes <==> (state == "done"@ || state
                == "needs_review"@) && worked_on)
            &&& stage == Some("needs_human_review"@) ==> (passes <==> state
                == "needs_human_review"@ && worked_on)
            &&& stage == Some("complete"@) ==> (passes <==> (state == "complete"@ || state
                == "done"@) && worked_on)
            &&& stage is None ==> (passes <==> is_filled(e.status))
        }),
{
    law_trim(e.ko);
    law_trim(e.notes);
    law_trim(e.status);
    lemma_stage_words();
}

/// Whether a text holds no Japanese punctuation: no ideographic comma or full stop, no
/// wide tilde or wave dash, and no ellipsis of three points.
pub open spec fn is_western(s: Seq<char>) -> bool {
    &&& forall|i: int|
        0 <= i < s.len() ==> {
            let n = #[trigger] s[i] as int;
            n != 0x3001 && n != 0x3002 && n != 0xFF5E && n != 0x301C
        }
    &&& forall|i: int|
        0 <= i < s.len() - 2 ==> !({
            let n = #[trigger] s[i] as int;
            s[i + 1] as int == n && s[i + 2] as int == n && (n == 0x2E || n == 0x30FB || n
                == 0xFF0E)
        })
}

proof fn lemma_one_mark(s: Seq<char>, mark: Seq<char>, point: int)
    requires
        mark.len() == 1,
        mark[0] as int == point,
    ensures
        crate::translation::has_text(s, mark) <==> exists|i: int|
            0 <= i < s.len() && #[trigger] s[i] as int == point,
{
    law_found_where_it_stands(s, mark);
    if exists|i: int| 0 <= i < s.len() && #[trigger] s[i] as int == point {
        let i = choose|i: int| 0 <= i < s.len() && #[trigger] s[i] as int == point;
        assert(s.subrange(i, i + 1) =~= mark);
        assert(stands_at(s, mark, i));
    }
    if exists|p: int| #[trigger] stands_at(s, mark, p) {
        let p = choose|p: int| #[trigger] stands_at(s, mark, p);
        assert(s.subrange(p, p + 1)[0] == s[p]);
        assert(s[p] as int == point);
    }
}

proof fn lemma_three_marks(s: Seq<char>, mark: Seq<char>, point: int)
    requires
        mark.len() == 3,
        mark[0] as int == point,
        mark[1] as int == point,
        mark[2] as int == point,
    ensures
        crate::translation::has_text(s, mark) <==> exists|i: int|
            0 <= i < s.len() - 2 && #[trigger] s[i] as int == point && s[i + 1] as int == point
                && s[i + 2] as int == point,
{
    law_found_where_it_stands(s, mark);
    if exists|i: int|
        0 <= i < s.len() - 2 && #[trigger] s[i] as int == point && s[i + 1] as int == point && s[i
            + 2] as int == point {
        let i = choose|i: int|
            0 <= i < s.len() - 2 && #[trigger] s[i] as int == point && s[i + 1] as int == point
                && s[i + 2] as int == point;
        assert(s.subrange(i, i + 3) =~= mark);
        assert(stands_at(s, mark, i));
    }
    if exists|p: int| #[trigger] stands_at(s, mark, p) {
        let p = choose|p: int| #[trigger] stands_at(s, mark, p);
        assert(s.subrange(p, p + 3)[0] == s[p]);
        assert(s.subrange(p, p + 3)[1] == s[p + 1]);
        assert(s.subrange(p, p + 3)[2] == s[p + 2]);
    }
}

/// A translation is refused for its punctuation exactly if it holds Japanese punctuation.
pub proof fn law_punctuation(id: Seq<char>, s: Seq<char>)
    ensures
        punctuation_fault(id, s) is None <==> is_western(s),
{
    reveal_strlit("、");
    reveal_strlit("。");
    reveal_strlit("～");
    reveal_strlit("〜");
    reveal_strlit("...");
    reveal_strlit("・・・");
    reveal_strlit("．．．");
    lemma_one_mark(s, "、"@, 0x3001);
    lemma_one_mark(s, "。"@, 0x3002);
    lemma_one_mark(s, "～"@, 0xFF5E);
    lemma_one_mark(s, "〜"@, 0x301C);
    lemma_three_marks(s, "..."@, 0x2E);
    lemma_three_marks(s, "・・・"@, 0x30FB);
    lemma_three_marks(s, "．．．"@, 0xFF0E);
    law_trim(s);
    if !is_filled(s) {
        assert forall|i: int| 0 <= i < s.len() implies ({
            let n = #[trigger] s[i] as int;
            n != 0x3001 && n != 0x3002 && n != 0xFF5E && n != 0x301C && n != 0x2E && n != 0x30FB
                && n != 0xFF0E
        }) by {
            assert(crate::parse::is_space(s[i]));
        }
    }
}

// ---------------------------------------------------------------------------
// Lines
// ---------------------------------------------------------------------------

/// Whether a token takes a tile of its line.
pub open spec fn takes_tile(t: TextToken) -> bool {
    t is Char || t is Money || t is Raw
}

proof fn lemma_column_reaches(tokens: Seq<TextToken>, i: int, j: int)
    requires
        0 <= i <= j <= tokens.len(),
        forall|k: int| i <= k < j ==> takes_tile(#[trigger] tokens[k]),
    ensures
        column_after(tokens, j) >= j - i,
        column_after(tokens, i) >= 0,
    decreases j,
{
    lemma_column_within(tokens, i);
    if i < j {
        lemma_column_reaches(tokens, i, j - 1);
        assert(takes_tile(tokens[j - 1]));
    }
}

proof fn lemma_column_within(tokens: Seq<TextToken>, n: int)
    requires
        0 <= n <= tokens.len(),
    ensures
        0 <= column_after(tokens, n) <= n,
    decreases n,
{
    if n > 0 {
        lemma_column_within(tokens, n - 1);
    }
}

proof fn lemma_column_from(tokens: Seq<TextToken>, n: int) -> (i: int)
    requires
        0 <= n <= tokens.len(),
    ensures
        0 <= i <= n,
        column_after(tokens, n) <= n - i,
        forall|k: int| i <= k < n ==> takes_tile(#[trigger] tokens[k]) || tokens[k] is Flags,
    decreases n,
{
    if n <= 0 {
        0
    } else {
        let t = tokens[n - 1];
        if takes_tile(t) || t is Flags {
            lemma_column_from(tokens, n - 1)
        } else {
            n
        }
    }
}

/// The screen holds 20 tiles in a line: a text with more than 20 characters in a row
/// between line breaks, pauses and ends is refused, and one with at most 20 tokens in
/// every such row is not.
pub proof fn law_lines(id: Seq<char>, s: Seq<char>, i: int, j: int)
    requires
        tokens_of(s) is Ok,
    ensures
        ({
            let tokens = tokens_of(s)->Ok_0;
            &&& 0 <= i <= j <= tokens.len() && j - i > 20 && (forall|k: int|
                i <= k < j ==> takes_tile(#[trigger] tokens[k])) ==> width_fault(id, s, 20) is Some
            &&& (forall|a: int, b: int|
                0 <= a <= b <= tokens.len() && (forall|k: int|
                    a <= k < b ==> takes_tile(#[trigger] tokens[k]) || tokens[k] is Flags)
                    ==> #[trigger] (b - a) <= 20) ==> width_fault(id, s, 20) is None
        }),
{
    let tokens = tokens_of(s)->Ok_0;
    if 0 <= i <= j <= tokens.len() && j - i > 20 && (forall|k: int|
        i <= k < j ==> takes_tile(#[trigger] tokens[k])) {
        lemma_column_reaches(tokens, i, j);
        assert(column_after(tokens, j) > 20);
    }
    if forall|a: int, b: int|
        0 <= a <= b <= tokens.len() && (forall|k: int|
            a <= k < b ==> takes_tile(#[trigger] tokens[k]) || tokens[k] is Flags)
            ==> #[trigger] (b - a) <= 20 {
        assert forall|n: int| 0 <= n <= tokens.len() implies #[trigger] column_after(tokens, n)
            <= 20 by {
            let a = lemma_column_from(tokens, n);
            assert((n - a) <= 20);
        }
        assert(lines_fit(tokens, 20));
    }
}

// ---------------------------------------------------------------------------
// A whole stage
// ---------------------------------------------------------------------------

proof fn lemma_tallies_prefix(list: Seq<StagedView>, c: StageContext, k: int, n: int)
    requires
        0 <= k <= n,
        stage_tallies(list, c, n) is Ok,
    ensures
        stage_tallies(list, c, k) is Ok,
        stage_tallies(list, c, n)->Ok_0.len() == n,
        stage_tallies(list, c, k)->Ok_0 == stage_tallies(list, c, n)->Ok_0.take(k),
    decreases n,
{
    if n > 0 {
        if k < n {
            lemma_tallies_prefix(list, c, k, n - 1);
            let done = stage_tallies(list, c, n - 1)->Ok_0;
            assert(done.take(k) =~= stage_tallies(list, c, n)->Ok_0.take(k));
        } else {
            lemma_tallies_prefix(list, c, n - 1, n - 1);
            let all = stage_tallies(list, c, n)->Ok_0;
            assert(all.take(n) =~= all);
        }
    } else {
        assert(stage_tallies(list, c, n)->Ok_0.take(0) =~= Seq::empty());
    }
}

proof fn lemma_first_staged_none(list: Seq<StagedView>, id: Seq<char>, n: int, k: int)
    requires
        0 <= k < n,
        first_staged(list, id, n) is None,
    ensures
        list[k].entry.entry.id != id,
    decreases n,
{
    if k < n - 1 {
        lemma_first_staged_none(list, id, n - 1, k);
    }
}

/// What an accepted stage gives for one entry: the order of glyphs, its script and what it
/// counts as.
proof fn lemma_accepted(
    report: StageReport,
    list: Seq<StagedView>,
    stage: Option<Seq<char>>,
    stage_path: Seq<char>,
    raws: Seq<RawView>,
    terms: Seq<TermView>,
    defer_cap: bool,
    k: int,
) -> (found: (Seq<char>, int, Seq<Tally>))
    requires
        is_stage_result(Ok(report), list, stage, stage_path, raws, terms, defer_cap),
        0 <= k < list.len(),
    ensures
        ({
            let (order, r, tallies) = found;
            let c = StageContext { stage, raws, terms, order };
            let s = list[k];
            &&& all_tokens(stage_texts(list)) is Ok
            &&& is_glyph_order(all_tokens(stage_texts(list))->Ok_0, order)
            &&& order.len() <= 1000 || defer_cap
            &&& is_script(raws, s.entry.entry.id, r)
            &&& stage_entry_fault(s.path, stage, s.entry, raws[r], terms, order) is None
            &&& tallies.len() == list.len()
            &&& crate::stage::report_adds_up(report, tallies, order.len() as int)
            &&& entry_tally(s.path, stage, s.entry, raws[r], terms, order) == Ok::<
                Tally,
                crate::error::Fault,
            >(tallies[k])
            &&& forall|j: int| 0 <= j < k ==> (#[trigger] list[j]).entry.entry.id != s.entry.entry.id
        }),
{
    let tokens = all_tokens(stage_texts(list))->Ok_0;
    let n = list.len() as int;
    let order = choose|order: Seq<char>|
        {
            &&& #[trigger] is_glyph_order(tokens, order)
            &&& if order.len() > 1000 && !defer_cap {
                false
            } else {
                match stage_tallies(list, (StageContext { stage, raws, terms, order }), n) {
                    Err(_) => false,
                    Ok(tallies) => crate::stage::report_adds_up(
                        report,
                        tallies,
                        order.len() as int,
                    ),
                }
            }
        };
    let c = StageContext { stage, raws, terms, order };
    let tallies = stage_tallies(list, c, n)->Ok_0;
    lemma_tallies_prefix(list, c, k, n);
    lemma_tallies_prefix(list, c, k + 1, n);
    let s = list[k];
    let id = s.entry.entry.id;
    law_scripts_by_name(raws, id);
    let r = raw_index(raws, id)->0;
    assert(stage_tallies(list, c, k + 1)->Ok_0.last() == tallies[k]);
    assert forall|j: int| 0 <= j < k implies (#[trigger] list[j]).entry.entry.id != id by {
        lemma_first_staged_none(list, id, k, j);
    }
    (order, r, tallies)
}

/// In a stage that passes, no entry that is put into the game shows Japanese text.
pub proof fn law_no_japanese_left(
    report: StageReport,
    list: Seq<StagedView>,
    stage: Option<Seq<char>>,
    stage_path: Seq<char>,
    raws: Seq<RawView>,
    terms: Seq<TermView>,
    defer_cap: bool,
    k: int,
    i: int,
)
    requires
        is_stage_result(Ok(report), list, stage, stage_path, raws, terms, defer_cap),
        0 <= k < list.len(),
        !list[k].entry.entry.skip,
        is_visible(list[k].entry.entry.ko, i),
    ensures
        !(0x3040 <= list[k].entry.entry.ko[i] as int <= 0x30FF),
        !(0x4E00 <= list[k].entry.entry.ko[i] as int <= 0x9FFF),
{
    let found = lemma_accepted(
        report,
        list,
        stage,
        stage_path,
        raws,
        terms,
        defer_cap,
        k,
    );
    let e = list[k].entry.entry;
    law_residue(e);
    if is_japanese_point(e.ko[i] as int) {
        assert(residue_fault(e) is Some);
    }
}

/// In a stage that passes, every entry has a script of its name whose text, bytes and
/// checksum it carries unchanged, no two entries have the same name, no entry holds
/// Japanese punctuation, and every settled word that concerns a translated script is used.
pub proof fn law_passed_stage(
    report: StageReport,
    list: Seq<StagedView>,
    stage: Option<Seq<char>>,
    stage_path: Seq<char>,
    raws: Seq<RawView>,
    terms: Seq<TermView>,
    defer_cap: bool,
    k: int,
)
    requires
        is_stage_result(Ok(report), list, stage, stage_path, raws, terms, defer_cap),
        0 <= k < list.len(),
    ensures
        ({
            let e = list[k].entry.entry;
            &&& exists|r: int|
                #[trigger] is_script(raws, e.id, r) && e.jp == raws[r].jp && e.bytes_hex
                    == raws[r].bytes_hex && e.source_crc32 == raws[r].source_crc32
            &&& forall|j: int| 0 <= j < k ==> (#[trigger] list[j]).entry.entry.id != e.id
            &&& is_western(e.ko)
            &&& !e.skip && is_filled(e.ko) ==> forall|t: int|
                0 <= t < terms.len() && is_owed(#[trigger] terms[t], e.id, e.jp) ==> exists|p: int|
                    #[trigger] stands_at(normal_text(e.ko), normal_text(terms[t].ko), p)
            &&& stage == Some("raw"@) ==> !is_filled(e.ko)
            &&& stage == Some("needs_review"@) || stage == Some("needs_human_review"@) || stage
                == Some("complete"@) ==> is_filled(e.ko) && is_filled(e.notes)
        }),
{
    let found = lemma_accepted(
        report,
        list,
        stage,
        stage_path,
        raws,
        terms,
        defer_cap,
        k,
    );
    let e = list[k].entry.entry;
    let r = found.1;
    law_protected_fields(list[k].path, list[k].entry, raws[r]);
    law_punctuation(e.id, e.ko);
    law_trim(e.ko);
    law_settled_words_are_used(terms, e.id, e.jp, e.ko, terms.len() as int);
    law_stage_states(list[k].path, stage, e);
    assert(is_script(raws, e.id, r));
}

/// In a stage that passes, every entry that is put into the game can be encoded with the
/// glyphs of the stage; outside the shop no line of it is longer than the screen.
pub proof fn law_passed_texts_fit(
    report: StageReport,
    list: Seq<StagedView>,
    stage: Option<Seq<char>>,
    stage_path: Seq<char>,
    raws: Seq<RawView>,
    terms: Seq<TermView>,
    defer_cap: bool,
    k: int,
    i: int,
    j: int,
)
    requires
        is_stage_result(Ok(report), list, stage, stage_path, raws, terms, defer_cap),
        0 <= k < list.len(),
        !list[k].entry.entry.skip,
        is_filled(list[k].entry.entry.ko),
        forall|r: int|
            #[trigger] is_script(raws, list[k].entry.entry.id, r) ==> raws[r].kind != Some(
                "shop"@,
            ),
    ensures
        ({
            let ko = list[k].entry.entry.ko;
            &&& tokens_of(ko) is Ok
            &&& 0 <= i <= j <= tokens_of(ko)->Ok_0.len() && (forall|m: int|
                i <= m < j ==> takes_tile(#[trigger] tokens_of(ko)->Ok_0[m])) ==> j - i <= 20
            &&& exists|order: Seq<char>|
                #[trigger] is_glyph_order(all_tokens(stage_texts(list))->Ok_0, order) && text_code(
                    ko,
                    order,
                ) is Ok
        }),
{
    let found = lemma_accepted(
        report,
        list,
        stage,
        stage_path,
        raws,
        terms,
        defer_cap,
        k,
    );
    let e = list[k].entry.entry;
    law_trim(e.ko);
    assert(is_script(raws, e.id, found.1));
    assert(look_of(e, raws[found.1], found.0) is Ok);
    law_lines(e.id, e.ko, i, j);
}

proof fn lemma_tally_sum(list: Seq<Tally>)
    ensures
        tally_count(list, Tally::Inactive) + tally_count(list, Tally::Shop) + tally_count(
            list,
            Tally::Screen,
        ) + tally_count(list, Tally::Overlength) == list.len(),
        tally_count(list, Tally::Screen) >= 0,
    decreases list.len(),
{
    if list.len() > 0 {
        lemma_tally_sum(list.drop_last());
    }
}

/// The counts of a stage that passes add up: every entry is counted, and every translated
/// text was held either against the shop's layout or against the screen.
pub proof fn law_stage_counts(
    report: StageReport,
    list: Seq<StagedView>,
    stage: Option<Seq<char>>,
    stage_path: Seq<char>,
    raws: Seq<RawView>,
    terms: Seq<TermView>,
    defer_cap: bool,
)
    requires
        is_stage_result(Ok(report), list, stage, stage_path, raws, terms, defer_cap),
    ensures
        report.entries == list.len(),
        list.len() > 0,
        report.translated == report.shop_layout_verified + report.screen_ceiling_verified,
        report.overlength <= report.screen_ceiling_verified,
        report.glyphs <= 1000 || defer_cap,
{
    let found = lemma_accepted(
        report,
        list,
        stage,
        stage_path,
        raws,
        terms,
        defer_cap,
        0,
    );
    lemma_tally_sum(found.2);
}

/// What an entry counts as: nothing where it is skipped or blank, a shop text where its
/// script is one, else a text of the screen, which is too long where its code is longer
/// than the script.
pub proof fn law_what_entries_count_as(
    path: Seq<char>,
    stage: Option<Seq<char>>,
    e: StageView,
    raw: RawView,
    terms: Seq<TermView>,
    order: Seq<char>,
)
    requires
        entry_tally(path, stage, e, raw, terms, order) is Ok,
    ensures
        ({
            let t = entry_tally(path, stage, e, raw, terms, order)->Ok_0;
            let active = !e.entry.skip && is_filled(e.entry.ko);
            &&& t == Tally::Inactive <==> !active
            &&& t == Tally::Shop <==> active && raw.kind == Some("shop"@)
            &&& t == Tally::Overlength <==> active && raw.kind != Some("shop"@) && raw.len is Some
                && text_code(e.entry.ko, order) is Ok && text_code(e.entry.ko, order)->Ok_0.len()
                > raw.len->0
        }),
{
    law_trim(e.entry.ko);
}

// ---------------------------------------------------------------------------
// What is not refused
// ---------------------------------------------------------------------------

/// An entry of a stage passes exactly if its protected fields, its state, its source, its
/// characters and its punctuation do, and, where it is put into the game, it uses the
/// settled words, can be encoded, and fits: into the layout of its source in a shop, into
/// lines of twenty tiles elsewhere.
pub proof fn law_accepted_entry(
    path: Seq<char>,
    stage: Option<Seq<char>>,
    e: StageView,
    raw: RawView,
    terms: Seq<TermView>,
    order: Seq<char>,
)
    ensures
        entry_tally(path, stage, e, raw, terms, order) is Ok <==> {
            let o = e.entry;
            &&& fields_fault(path, e, raw) is None
            &&& stage_status_fault(path, stage, o) is None
            &&& metadata_fault(o) is None
            &&& residue_fault(o) is None
            &&& punctuation_fault(o.id, o.ko) is None
            &&& !o.skip && is_filled(o.ko) ==> {
                &&& usage_fault(terms, o.id, o.jp, o.ko, terms.len() as int) is None
                &&& text_code(o.ko, order) is Ok
                &&& raw.kind != Some("shop"@) ==> width_fault(o.id, o.ko, 20) is None
                &&& raw.kind == Some("shop"@) ==> {
                    &&& hex_text_bytes(raw.bytes_hex) is Ok
                    &&& raw.len is Some
                    &&& shop_fault(
                        o.id,
                        raw.jp,
                        o.ko,
                        hex_text_bytes(raw.bytes_hex)->Ok_0,
                        text_code(o.ko, order)->Ok_0,
                        raw.len->0,
                    ) is None
                }
            }
        },
{
    law_trim(e.entry.ko);
}

/// Whether an entry of a stage has a script and passes against it.
pub open spec fn passes_against(s: StagedView, c: StageContext, r: int) -> bool {
    is_script(c.raws, s.entry.entry.id, r) && entry_tally(
        s.path,
        c.stage,
        s.entry,
        c.raws[r],
        c.terms,
        c.order,
    ) is Ok
}

/// Whether an entry of a stage passes against the script of its name.
pub open spec fn has_passed(s: StagedView, c: StageContext) -> bool {
    exists|r: int| #[trigger] passes_against(s, c, r)
}

/// Whether the first entries of a stage pass, each under a name of its own.
pub open spec fn all_pass(list: Seq<StagedView>, c: StageContext, n: int) -> bool {
    &&& forall|k: int| 0 <= k < n ==> has_passed(#[trigger] list[k], c)
    &&& forall|j: int, k: int|
        0 <= j < k < n ==> (#[trigger] list[j]).entry.entry.id != (
        #[trigger] list[k]).entry.entry.id
}

proof fn lemma_no_first(list: Seq<StagedView>, id: Seq<char>, n: int)
    requires
        0 <= n <= list.len(),
    ensures
        first_staged(list, id, n) is None <==> forall|k: int|
            0 <= k < n ==> (#[trigger] list[k]).entry.entry.id != id,
    decreases n,
{
    if n > 0 {
        lemma_no_first(list, id, n - 1);
    }
}

proof fn lemma_has_passed(s: StagedView, c: StageContext)
    ensures
        has_passed(s, c) <==> {
            let at = raw_index(c.raws, s.entry.entry.id);
            at is Some && entry_tally(
                s.path,
                c.stage,
                s.entry,
                c.raws[at->0],
                c.terms,
                c.order,
            ) is Ok
        },
{
    let at = raw_index(c.raws, s.entry.entry.id);
    law_scripts_by_name(c.raws, s.entry.entry.id);
    if at is Some {
        assert(is_script(c.raws, s.entry.entry.id, at->0));
        if entry_tally(s.path, c.stage, s.entry, c.raws[at->0], c.terms, c.order) is Ok {
            assert(passes_against(s, c, at->0));
        }
    }
    if has_passed(s, c) {
        let r = choose|r: int| #[trigger] passes_against(s, c, r);
        assert(is_script(c.raws, s.entry.entry.id, r));
        assert(at == Some(r));
    }
}

proof fn lemma_all_pass(list: Seq<StagedView>, c: StageContext, n: int)
    requires
        0 <= n <= list.len(),
    ensures
        stage_tallies(list, c, n) is Ok <==> all_pass(list, c, n),
    decreases n,
{
    if n > 0 {
        lemma_all_pass(list, c, n - 1);
        let s = list[n - 1];
        let id = s.entry.entry.id;
        lemma_no_first(list, id, n - 1);
        lemma_has_passed(s, c);
        assert(stage_tallies(list, c, n) is Ok <==> stage_tallies(list, c, n - 1) is Ok
            && first_staged(list, id, n - 1) is None && has_passed(s, c));
        if all_pass(list, c, n) {
            assert(has_passed(list[n - 1], c));
            assert forall|k: int| 0 <= k < n - 1 implies (#[trigger] list[k]).entry.entry.id
                != id by {}
        }
    }
}

/// A stage passes exactly if it has entries, their texts can be read and need no more than
/// a thousand glyphs, unless that is left for later, and every entry passes under a name of
/// its own.
pub proof fn law_accepted_stage(
    result: Result<StageReport, PatchError>,
    list: Seq<StagedView>,
    stage: Option<Seq<char>>,
    stage_path: Seq<char>,
    raws: Seq<RawView>,
    terms: Seq<TermView>,
    defer_cap: bool,
    order: Seq<char>,
)
    requires
        is_stage_result(result, list, stage, stage_path, raws, terms, defer_cap),
    ensures
        result is Ok ==> list.len() > 0 && all_tokens(stage_texts(list)) is Ok,
        list.len() > 0 && all_tokens(stage_texts(list)) is Ok && is_glyph_order(
            all_tokens(stage_texts(list))->Ok_0,
            order,
        ) ==> (result is Ok <==> (order.len() <= 1000 || defer_cap) && all_pass(
            list,
            (StageContext { stage, raws, terms, order }),
            list.len() as int,
        )),
{
    if list.len() > 0 && all_tokens(stage_texts(list)) is Ok && is_glyph_order(
        all_tokens(stage_texts(list))->Ok_0,
        order,
    ) {
        let tokens = all_tokens(stage_texts(list))->Ok_0;
        let c = StageContext { stage, raws, terms, order };
        lemma_all_pass(list, c, list.len() as int);
        assert forall|other: Seq<char>| #[trigger] is_glyph_order(tokens, other) implies other
            == order by {
            law_glyph_order_is_unique(tokens, order, other);
        }
    }
}

/// The entries of a stage that count as something.
pub open spec fn counted_as(tallies: Seq<Tally>, t: Tally) -> Set<int> {
    Set::new(|k: int| 0 <= k < tallies.len() && tallies[k] == t)
}

/// Entries are counted by what they count as.
pub proof fn law_counted_entries(tallies: Seq<Tally>, t: Tally)
    ensures
        counted_as(tallies, t).finite(),
        tally_count(tallies, t) == counted_as(tallies, t).len(),
    decreases tallies.len(),
{
    let all = counted_as(tallies, t);
    if tallies.len() == 0 {
        assert(all =~= Set::empty());
    } else {
        let front = tallies.drop_last();
        law_counted_entries(front, t);
        if tallies.last() == t {
            assert(all =~= counted_as(front, t).insert(tallies.len() - 1));
        } else {
            assert(all =~= counted_as(front, t));
        }
    }
}

} // verus!
