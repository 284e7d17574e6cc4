//! What holds of a plan that was made from translation files.
use vstd::prelude::*;
use crate::digest::crc32_of;
use crate::error::{plain, Fault, PatchError};
use crate::hexbytes::hex_text_bytes;
use crate::ko_text::{
    all_tokens, exceeds_capacity, is_glyph_order, law_glyph_order_is_unique, over_capacity,
    text_code, TextToken,
};
use crate::parse::{byte_len, numeral, unsigned_digits};
use crate::stage_laws::{is_western, law_punctuation};
use crate::tags::tags_fault;
use crate::term_laws::{is_filled, law_trim};
use crate::translation::{
    active_texts, all_placed, crc_digits, encoded_views, entries_of, first_with_id, guard_of,
    is_plan, merged, metadata_fault, names_fault, optional_crc, placed, plan_entries,
    sourceless_fault, status_fault, EncodedView, OverrideView, Placed, TranslationInput,
    TranslationPlan,
};

verus! {

// ---------------------------------------------------------------------------
// Files
// ---------------------------------------------------------------------------

proof fn lemma_place(files: Seq<TranslationInput>, f: int, i: int) -> (at: int)
    requires
        0 <= f < files.len(),
        0 <= i < files[f].entries@.len(),
    ensures
        0 <= at < all_placed(files).len(),
        all_placed(files)[at].entry == files[f].entries@[i]@,
    decreases files.len(),
{
    let front = all_placed(files.drop_last());
    let own = placed(files.last(), files.last().entries@.len() as int);
    assert(all_placed(files) == front + own);
    if f == files.len() - 1 {
        assert(own[i].entry == files[f].entries@[i]@);
        assert((front + own)[front.len() + i] == own[i]);
        (front.len() + i) as int
    } else {
        let at = lemma_place(files.drop_last(), f, i);
        assert((front + own)[at] == front[at]);
        at
    }
}

/// Every entry of every file is among those that are put together.
pub proof fn law_every_entry_is_taken(files: Seq<TranslationInput>, f: int, i: int)
    requires
        merged(files) is Ok,
        0 <= f < files.len(),
        0 <= i < files[f].entries@.len(),
    ensures
        merged(files)->Ok_0.contains(files[f].entries@[i]@),
{
    let list = all_placed(files);
    let at = lemma_place(files, f, i);
    assert(entries_of(list)[at] == files[f].entries@[i]@);
}

proof fn lemma_no_first(list: Seq<Placed>, id: Seq<char>, n: int, k: int)
    requires
        0 <= k < n,
        first_with_id(list, id, n) is None,
    ensures
        list[k].entry.id != id,
    decreases n,
{
    if k < n - 1 {
        lemma_no_first(list, id, n - 1, k);
    }
}

proof fn lemma_names(list: Seq<Placed>, n: int, j: int, k: int)
    requires
        0 <= j < k < n <= list.len(),
        names_fault(list, n) is None,
    ensures
        list[j].entry.id != list[k].entry.id,
        is_filled(list[k].entry.id),
        is_filled(list[j].entry.id),
    decreases n,
{
    if k < n - 1 {
        lemma_names(list, n - 1, j, k);
    } else {
        lemma_no_first(list, list[k].entry.id, k, j);
        law_trim(list[k].entry.id);
        lemma_name_filled(list, n, j);
    }
}

proof fn lemma_name_filled(list: Seq<Placed>, n: int, k: int)
    requires
        0 <= k < n <= list.len(),
        names_fault(list, n) is None,
    ensures
        is_filled(list[k].entry.id),
    decreases n,
{
    if k < n - 1 {
        lemma_name_filled(list, n - 1, k);
    } else {
        law_trim(list[k].entry.id);
    }
}

/// In files that can be put together, every entry has a name, and no two have the same,
/// whichever files they stand in.
pub proof fn law_names_differ(files: Seq<TranslationInput>, j: int, k: int)
    requires
        merged(files) is Ok,
        0 <= j < k < merged(files)->Ok_0.len(),
    ensures
        merged(files)->Ok_0[j].id != merged(files)->Ok_0[k].id,
        is_filled(merged(files)->Ok_0[j].id),
        is_filled(merged(files)->Ok_0[k].id),
{
    let list = all_placed(files);
    lemma_names(list, list.len() as int, j, k);
}

// ---------------------------------------------------------------------------
// Entries
// ---------------------------------------------------------------------------

/// Whether an entry is put into the game: it is not skipped and has a translation.
pub open spec fn is_put_in(e: OverrideView) -> bool {
    !e.skip && is_filled(e.ko)
}

/// Whether a part of a plan is the code of an entry: under its name, the code of its
/// translation, with the bytes that the entry says it was made from.
pub open spec fn is_code_of(v: EncodedView, e: OverrideView, order: Seq<char>) -> bool {
    &&& v.id == e.id
    &&& text_code(e.ko, order) == Ok::<Seq<u8>, Fault>(v.bytes)
    &&& is_filled(e.bytes_hex) ==> v.source is Some && hex_text_bytes(e.bytes_hex) == Ok::<
        Seq<u8>,
        Fault,
    >(v.source->0.bytes)
    &&& !is_filled(e.bytes_hex) ==> v.source is None
}

proof fn lemma_plan_entry(list: Seq<OverrideView>, order: Seq<char>, n: int, i: int) -> (k: int)
    requires
        0 <= i < n <= list.len(),
        plan_entries(list, order, n) is Ok,
        is_put_in(list[i]),
    ensures
        0 <= k < plan_entries(list, order, n)->Ok_0.len(),
        is_code_of(plan_entries(list, order, n)->Ok_0[k], list[i], order),
        is_western(list[i].ko),
    decreases n,
{
    let done = plan_entries(list, order, n - 1)->Ok_0;
    let now = plan_entries(list, order, n)->Ok_0;
    if i < n - 1 {
        let k = lemma_plan_entry(list, order, n - 1, i);
        assert(now[k] == done[k]);
        k
    } else {
        let e = list[i];
        law_trim(e.ko);
        law_trim(e.bytes_hex);
        law_punctuation(e.id, e.ko);
        assert(now[done.len() as int] == now.last());
        done.len() as int
    }
}

proof fn lemma_plan_origin(list: Seq<OverrideView>, order: Seq<char>, n: int, k: int) -> (i: int)
    requires
        n <= list.len(),
        plan_entries(list, order, n) is Ok,
        0 <= k < plan_entries(list, order, n)->Ok_0.len(),
    ensures
        0 <= i < n,
        is_put_in(list[i]),
        is_code_of(plan_entries(list, order, n)->Ok_0[k], list[i], order),
    decreases n,
{
    let done = plan_entries(list, order, n - 1)->Ok_0;
    let now = plan_entries(list, order, n)->Ok_0;
    if k < done.len() {
        let i = lemma_plan_origin(list, order, n - 1, k);
        assert(now[k] == done[k]);
        i
    } else {
        let e = list[n - 1];
        law_trim(e.ko);
        law_trim(e.bytes_hex);
        n - 1
    }
}

proof fn lemma_plan_metadata(list: Seq<OverrideView>, order: Seq<char>, n: int, i: int)
    requires
        0 <= i < n <= list.len(),
        plan_entries(list, order, n) is Ok,
    ensures
        metadata_fault(list[i]) is None,
    decreases n,
{
    if i < n - 1 {
        lemma_plan_metadata(list, order, n - 1, i);
    }
}

proof fn lemma_status_all(list: Seq<OverrideView>, required: Option<Seq<char>>, n: int, i: int)
    requires
        0 <= i < n <= list.len(),
        required is Some,
        status_fault(list, required, n) is None,
    ensures
        list[i].status == required->0,
    decreases n,
{
    if i < n - 1 {
        lemma_status_all(list, required, n - 1, i);
    }
}

/// A plan holds the code of every entry that is put into the game, in the glyph order of
/// the plan, and of no other entry; every entry keeps the control tags of its source; and
/// where a state was asked for, every entry is in it.
pub proof fn law_plan_is_complete(
    plan: TranslationPlan,
    files: Seq<TranslationInput>,
    required: Option<Seq<char>>,
    i: int,
    k: int,
)
    requires
        is_plan(Ok(plan), files, required),
    ensures
        merged(files) is Ok,
        ({
            let list = merged(files)->Ok_0;
            let codes = encoded_views(plan.encoded@);
            &&& plan.encoding@.len() <= 1000
            &&& all_tokens(active_texts(list)) is Ok
            &&& is_glyph_order(all_tokens(active_texts(list))->Ok_0, plan.encoding@)
            &&& 0 <= i < list.len() && is_put_in(list[i]) ==> exists|m: int|
                0 <= m < codes.len() && is_code_of(#[trigger] codes[m], list[i], plan.encoding@)
            &&& 0 <= i < list.len() && is_put_in(list[i]) ==> is_western(list[i].ko)
            &&& 0 <= i < list.len() ==> tags_fault(list[i].id, list[i].jp, list[i].ko) is None
            &&& 0 <= i < list.len() && required is Some ==> list[i].status == required->0
            &&& 0 <= k < codes.len() ==> exists|m: int|
                0 <= m < list.len() && is_put_in(#[trigger] list[m]) && is_code_of(
                    codes[k],
                    list[m],
                    plan.encoding@,
                )
        }),
{
    let list = merged(files)->Ok_0;
    let n = list.len() as int;
    let order = plan.encoding@;
    assert(plan_entries(list, order, n) == Ok::<Seq<EncodedView>, Fault>(
        encoded_views(plan.encoded@),
    ));
    let codes = encoded_views(plan.encoded@);
    if 0 <= i < n {
        lemma_plan_metadata(list, order, n, i);
        if is_put_in(list[i]) {
            let m = lemma_plan_entry(list, order, n, i);
            assert(is_code_of(codes[m], list[i], order));
        }
        if required is Some {
            lemma_status_all(list, required, n, i);
        }
    }
    if 0 <= k < codes.len() {
        let m = lemma_plan_origin(list, order, n, k);
        assert(is_put_in(list[m]));
    }
}

/// The texts that a plan takes glyphs for are those of the entries that are put into the
/// game.
pub proof fn law_active_texts(list: Seq<OverrideView>, s: Seq<char>)
    ensures
        active_texts(list).contains(s) <==> exists|i: int|
            0 <= i < list.len() && is_put_in(#[trigger] list[i]) && list[i].ko == s,
    decreases list.len(),
{
    let texts = active_texts(list);
    if list.len() > 0 {
        let front = list.drop_last();
        let before = active_texts(front);
        law_active_texts(front, s);
        law_trim(list.last().ko);
        if texts.contains(s) {
            let p = choose|p: int| 0 <= p < texts.len() && texts[p] == s;
            if p < before.len() {
                assert(before[p] == s);
                assert(before.contains(s));
                let i = choose|i: int|
                    0 <= i < front.len() && is_put_in(#[trigger] front[i]) && front[i].ko == s;
                assert(list[i] == front[i]);
            } else {
                assert(is_put_in(list[list.len() - 1]));
            }
        }
        if exists|i: int| 0 <= i < list.len() && is_put_in(#[trigger] list[i]) && list[i].ko == s {
            let i = choose|i: int|
                0 <= i < list.len() && is_put_in(#[trigger] list[i]) && list[i].ko == s;
            if i < front.len() {
                assert(front[i] == list[i]);
                assert(before.contains(s));
                let p = choose|p: int| 0 <= p < before.len() && before[p] == s;
                assert(texts[p] == s);
            } else {
                assert(texts[before.len() as int] == s);
            }
        }
    }
}

/// A list of codes for a release is refused exactly if one of them does not say what it
/// was made from.
pub proof fn law_release_needs_sources(list: Seq<EncodedView>, n: int)
    requires
        0 <= n <= list.len(),
    ensures
        sourceless_fault(list, n) is None <==> forall|k: int|
            0 <= k < n ==> (#[trigger] list[k]).source is Some,
    decreases n,
{
    if n > 0 {
        law_release_needs_sources(list, n - 1);
    }
}

// ---------------------------------------------------------------------------
// Sources
// ---------------------------------------------------------------------------

/// What an entry says of its source is accepted exactly if its translation keeps the control
/// tags; its bytes can be read and have the checksum that it states, where it states them;
/// and it states no checksum without bytes.
pub proof fn law_accepted_source(e: OverrideView)
    ensures
        metadata_fault(e) is None <==> {
            &&& tags_fault(e.id, e.jp, e.ko) is None
            &&& !is_filled(e.bytes_hex) ==> !is_filled(e.source_crc32)
            &&& is_filled(e.bytes_hex) ==> hex_text_bytes(e.bytes_hex) is Ok && optional_crc(
                e.source_crc32,
            ) is Ok && (is_filled(e.source_crc32) ==> optional_crc(e.source_crc32)->Ok_0 == Some(
                crc32_of(hex_text_bytes(e.bytes_hex)->Ok_0),
            ))
        },
{
    law_trim(e.bytes_hex);
    law_trim(e.source_crc32);
}

/// A checksum is left out exactly if it is blank. One that is given has eight digits of base
/// sixteen behind its marks.
pub proof fn law_given_checksums(raw: Seq<char>)
    ensures
        !is_filled(raw) ==> optional_crc(raw) == Ok::<Option<u32>, Fault>(None),
        is_filled(raw) && optional_crc(raw) is Ok ==> optional_crc(raw)->Ok_0 is Some && byte_len(
            crc_digits(raw),
        ) == 8 && numeral(unsigned_digits(crc_digits(raw)), 16) is Some,
{
    law_trim(raw);
}

/// The source that an entry is held against is what it says itself: its bytes, and the
/// checksum where there is one.
pub proof fn law_stated_source(e: OverrideView)
    requires
        guard_of(e) is Ok,
    ensures
        guard_of(e)->Ok_0 is Some <==> is_filled(e.bytes_hex),
        guard_of(e)->Ok_0 matches Some(s) ==> hex_text_bytes(e.bytes_hex) == Ok::<Seq<u8>, Fault>(
            s.bytes,
        ) && optional_crc(e.source_crc32) == Ok::<Option<u32>, Fault>(s.crc32) && (s.crc32 is Some
            <==> is_filled(e.source_crc32)),
{
    law_trim(e.bytes_hex);
    law_trim(e.source_crc32);
}

proof fn lemma_first_none(list: Seq<Placed>, id: Seq<char>, n: int)
    requires
        0 <= n <= list.len(),
    ensures
        first_with_id(list, id, n) is None <==> forall|k: int|
            0 <= k < n ==> (#[trigger] list[k]).entry.id != id,
    decreases n,
{
    if n > 0 {
        lemma_first_none(list, id, n - 1);
    }
}

proof fn lemma_good_names(list: Seq<Placed>, n: int)
    requires
        0 <= n <= list.len(),
    ensures
        names_fault(list, n) is None <==> (forall|k: int|
            0 <= k < n ==> is_filled((#[trigger] list[k]).entry.id)) && (forall|j: int, k: int|
            0 <= j < k < n ==> (#[trigger] list[j]).entry.id != (#[trigger] list[k]).entry.id),
    decreases n,
{
    if n > 0 {
        let p = list[n - 1];
        lemma_good_names(list, n - 1);
        law_trim(p.entry.id);
        lemma_first_none(list, p.entry.id, n - 1);
        if names_fault(list, n) is None {
            assert forall|j: int, k: int| 0 <= j < k < n implies (#[trigger] list[j]).entry.id != (
            #[trigger] list[k]).entry.id by {
                assert(k == n - 1 ==> list[j].entry.id != p.entry.id);
            }
        }
    }
}

/// Files can be put together exactly if every entry has a name of its own.
pub proof fn law_mergeable(files: Seq<TranslationInput>)
    ensures
        merged(files) is Ok <==> {
            let list = all_placed(files);
            &&& forall|k: int| 0 <= k < list.len() ==> is_filled((#[trigger] list[k]).entry.id)
            &&& forall|j: int, k: int|
                0 <= j < k < list.len() ==> (#[trigger] list[j]).entry.id != (
                #[trigger] list[k]).entry.id
        },
{
    let list = all_placed(files);
    lemma_good_names(list, list.len() as int);
}

/// Texts need more glyphs than can be shown exactly if their glyph order has more than a
/// thousand.
pub proof fn law_capacity(tokens: Seq<TextToken>, order: Seq<char>, fault: Fault)
    requires
        is_glyph_order(tokens, order),
    ensures
        exceeds_capacity(tokens, fault) ==> order.len() > 1000,
        order.len() > 1000 ==> exists|f: Fault| #[trigger] exceeds_capacity(tokens, f),
{
    if exceeds_capacity(tokens, fault) {
        let other = choose|other: Seq<char>|
            {
                &&& #[trigger] is_glyph_order(tokens, other)
                &&& other.len() > 1000
                &&& fault == plain(over_capacity(other.len() as int))
            };
        law_glyph_order_is_unique(tokens, order, other);
    }
    if order.len() > 1000 {
        assert(exceeds_capacity(tokens, plain(over_capacity(order.len() as int))));
    }
}

// ---------------------------------------------------------------------------
// What is not refused
// ---------------------------------------------------------------------------

/// Whether an entry can be put into a plan: what it says of its source is accepted, and,
/// where it is put into the game, its punctuation is, and its text can be encoded.
pub open spec fn can_be_planned(e: OverrideView, order: Seq<char>) -> bool {
    &&& metadata_fault(e) is None
    &&& is_put_in(e) ==> is_western(e.ko) && text_code(e.ko, order) is Ok
}

proof fn lemma_planned_entries(list: Seq<OverrideView>, order: Seq<char>, n: int)
    requires
        0 <= n <= list.len(),
    ensures
        plan_entries(list, order, n) is Ok <==> forall|i: int|
            0 <= i < n ==> can_be_planned(#[trigger] list[i], order),
    decreases n,
{
    if n > 0 {
        let e = list[n - 1];
        lemma_planned_entries(list, order, n - 1);
        law_trim(e.ko);
        law_punctuation(e.id, e.ko);
        law_accepted_source(e);
        law_trim(e.bytes_hex);
        assert(metadata_fault(e) is None ==> guard_of(e) is Ok);
    }
}

proof fn lemma_states(list: Seq<OverrideView>, required: Seq<char>, n: int)
    requires
        0 <= n <= list.len(),
    ensures
        status_fault(list, Some(required), n) is None <==> forall|i: int|
            0 <= i < n ==> (#[trigger] list[i]).status == required,
    decreases n,
{
    if n > 0 {
        lemma_states(list, required, n - 1);
    }
}

/// A plan is made exactly if the files can be put together, every entry is in the state that
/// was asked for, the texts can be read and need no more than a thousand glyphs, and each
/// entry can be put into it.
pub proof fn law_accepted_plan(
    result: Result<TranslationPlan, PatchError>,
    files: Seq<TranslationInput>,
    required: Option<Seq<char>>,
    order: Seq<char>,
)
    requires
        is_plan(result, files, required),
    ensures
        result is Ok ==> merged(files) is Ok && all_tokens(active_texts(merged(files)->Ok_0)) is Ok,
        merged(files) is Ok && all_tokens(active_texts(merged(files)->Ok_0)) is Ok && is_glyph_order(
            all_tokens(active_texts(merged(files)->Ok_0))->Ok_0,
            order,
        ) ==> (result is Ok <==> {
            let list = merged(files)->Ok_0;
            &&& order.len() <= 1000
            &&& required is Some ==> forall|i: int|
                0 <= i < list.len() ==> (#[trigger] list[i]).status == required->0
            &&& forall|i: int| 0 <= i < list.len() ==> can_be_planned(#[trigger] list[i], order)
        }),
{
    if merged(files) is Ok && all_tokens(active_texts(merged(files)->Ok_0)) is Ok && is_glyph_order(
        all_tokens(active_texts(merged(files)->Ok_0))->Ok_0,
        order,
    ) {
        let list = merged(files)->Ok_0;
        let tokens = all_tokens(active_texts(list))->Ok_0;
        lemma_planned_entries(list, order, list.len() as int);
        if required is Some {
            lemma_states(list, required->0, list.len() as int);
        }
        assert forall|other: Seq<char>| #[trigger] is_glyph_order(tokens, other) implies other
            == order by {
            law_glyph_order_is_unique(tokens, order, other);
        }
    }
}

} // verus!
