//! What it means that a text holds a word, and what the glossary asks of scripts and
//! translations.
use vstd::prelude::*;
use crate::ko_text::behind_tag;
use crate::parse::{
    find_from, find_spec, has_prefix, index_or_len, is_space, lead, lemma_find, lemma_index_or_len,
    lemma_lead_bounds, trim_end_spec, trim_spec, trim_start_spec,
};
use crate::raw_text::{is_last, raw_index, RawView};
use crate::terms::{
    first_term, glossary_fault, normal_text, outside_tags, refs_fault, term_fault, term_uses,
    terms_file_fault, usage_fault, without_space, word_in, TermView,
};
use crate::text_laws::tagged;
use crate::translation::has_text;

verus! {

// ---------------------------------------------------------------------------
// Blank texts
// ---------------------------------------------------------------------------

/// White space is what Unicode has as such: the controls from the tab to the carriage
/// return, the next line, and the blanks, the ideographic one among them.
pub proof fn law_white_space(c: char)
    ensures
        is_space(c) <==> {
            let n = c as int;
            ||| n == 0x09 || n == 0x0A || n == 0x0B || n == 0x0C || n == 0x0D || n == 0x20
            ||| n == 0x85 || n == 0xA0 || n == 0x1680 || n == 0x2028 || n == 0x2029
            ||| n == 0x202F || n == 0x205F || n == 0x3000
            ||| 0x2000 <= n < 0x200B
        },
{
}

/// Whether a text holds something besides white space.
pub open spec fn is_filled(s: Seq<char>) -> bool {
    exists|i: int| 0 <= i < s.len() && !is_space(#[trigger] s[i])
}

proof fn lemma_lead_all(s: Seq<char>)
    ensures
        forall|i: int| 0 <= i < lead(s, true) ==> is_space(#[trigger] s[i]),
        lead(s, true) < s.len() ==> !is_space(s[lead(s, true)]),
        0 <= lead(s, true) <= s.len(),
    decreases s.len(),
{
    lemma_lead_bounds(s, true);
    if s.len() > 0 && is_space(s[0]) {
        let rest = s.drop_first();
        lemma_lead_all(rest);
        assert forall|i: int| 0 <= i < lead(s, true) implies is_space(#[trigger] s[i]) by {
            if i > 0 {
                assert(s[i] == rest[i - 1]);
            }
        }
        if lead(s, true) < s.len() {
            assert(s[lead(s, true)] == rest[lead(rest, true)]);
        }
    }
}

proof fn lemma_trim_end(s: Seq<char>)
    ensures
        trim_end_spec(s).len() <= s.len(),
        trim_end_spec(s) == s.take(trim_end_spec(s).len() as int),
        forall|i: int| trim_end_spec(s).len() <= i < s.len() ==> is_space(#[trigger] s[i]),
        trim_end_spec(s).len() > 0 ==> !is_space(trim_end_spec(s).last()),
    decreases s.len(),
{
    if s.len() > 0 && is_space(s.last()) {
        let front = s.drop_last();
        lemma_trim_end(front);
        let n = trim_end_spec(s).len() as int;
        assert(front.take(n) =~= s.take(n));
        assert forall|i: int| n <= i < s.len() implies is_space(#[trigger] s[i]) by {
            if i < s.len() - 1 {
                assert(s[i] == front[i]);
            }
        }
    } else {
        assert(s.take(s.len() as int) =~= s);
    }
}

/// Trimming takes white space off both ends and nothing else: what is left is a part of
/// the text that neither starts nor ends with white space, with nothing but white space
/// around it. Nothing is left exactly of a text that is all white space.
pub proof fn law_trim(s: Seq<char>)
    ensures
        ({
            let t = trim_spec(s);
            &&& t.len() > 0 ==> !is_space(t[0]) && !is_space(t.last())
            &&& exists|from: int|
                {
                    &&& 0 <= from
                    &&& from + t.len() <= s.len()
                    &&& #[trigger] s.subrange(from, from + t.len()) == t
                    &&& forall|i: int|
                        0 <= i < from || from + t.len() <= i < s.len() ==> is_space(#[trigger] s[i])
                }
            &&& t.len() > 0 <==> is_filled(s)
        }),
{
    let from = lead(s, true);
    let mid = trim_start_spec(s);
    let t = trim_spec(s);
    lemma_lead_all(s);
    lemma_trim_end(mid);
    assert(s.subrange(from, from + t.len()) =~= t);
    assert forall|i: int| 0 <= i < from || from + t.len() <= i < s.len() implies is_space(
        #[trigger] s[i],
    ) by {
        if i >= from {
            assert(s[i] == mid[i - from]);
        }
    }
    if t.len() > 0 {
        assert(t[0] == mid[0]);
        assert(mid[0] == s[from]);
        assert(!is_space(s[from]));
    } else {
        assert forall|i: int| 0 <= i < s.len() implies is_space(#[trigger] s[i]) by {}
    }
}

// ---------------------------------------------------------------------------
// Outside of tags
// ---------------------------------------------------------------------------

/// Whether a position of a text lies outside of tags: every bracket that was opened before
/// it was closed before it, and it opens none itself.
pub open spec fn is_visible(s: Seq<char>, i: int) -> bool {
    &&& 0 <= i < s.len()
    &&& s[i] != '['
    &&& forall|j: int|
        0 <= j < i && #[trigger] s[j] == '[' ==> exists|k: int| j < k < i && #[trigger] s[k] == ']'
}

/// How far a tag at the front of a text reaches: behind its closing bracket.
spec fn tag_reach(s: Seq<char>) -> int {
    let end = index_or_len(s.drop_first(), ']');
    if end < s.len() - 1 {
        end + 2
    } else {
        end + 1
    }
}

proof fn lemma_tag_reach(s: Seq<char>)
    requires
        s.len() > 0,
    ensures
        1 <= tag_reach(s) <= s.len(),
        behind_tag(s.drop_first()) == s.skip(tag_reach(s)),
        forall|k: int| 0 < k < tag_reach(s) - 1 ==> #[trigger] s[k] != ']',
        tag_reach(s) < s.len() || s[tag_reach(s) - 1] == ']' ==> tag_reach(s) > 1 ==> s[tag_reach(s)
            - 1] == ']',
        tag_reach(s) < s.len() ==> tag_reach(s) > 1 && s[tag_reach(s) - 1] == ']',
        forall|k: int| 0 < k < s.len() && #[trigger] s[k] == ']' ==> tag_reach(s) <= k + 1,
{
    let rest = s.drop_first();
    lemma_index_or_len(rest, ']');
    let end = index_or_len(rest, ']');
    assert(behind_tag(rest) =~= s.skip(tag_reach(s)));
    assert forall|k: int| 0 < k < s.len() && #[trigger] s[k] == ']' implies tag_reach(s) <= k
        + 1 by {
        assert(rest[k - 1] == ']');
    }
    assert forall|k: int| 0 < k < tag_reach(s) - 1 implies #[trigger] s[k] != ']' by {
        assert(rest[k - 1] == s[k]);
    }
    if end < rest.len() {
        assert(s[end + 1] == rest[end]);
    }
}

/// The characters of a text outside of tags are those at visible positions.
pub proof fn law_outside_tags(s: Seq<char>, i: int)
    ensures
        is_visible(s, i) ==> outside_tags(s).contains(s[i]),
        forall|p: int|
            0 <= p < outside_tags(s).len() ==> exists|k: int|
                is_visible(s, k) && #[trigger] s[k] == #[trigger] outside_tags(s)[p],
    decreases s.len(),
{
    let out = outside_tags(s);
    if s.len() == 0 {
    } else if s[0] == '[' {
        lemma_tag_reach(s);
        let n = tag_reach(s);
        let rest = s.skip(n);
        assert(out == outside_tags(rest));
        law_outside_tags(rest, i - n);
        if is_visible(s, i) {
            assert(i > 0);
            let k = choose|k: int| 0 < k < i && #[trigger] s[k] == ']';
            assert(n <= i);
            assert(rest[i - n] == s[i]);
            assert forall|j: int| 0 <= j < i - n && #[trigger] rest[j] == '[' implies exists|k: int|
                j < k < i - n && #[trigger] rest[k] == ']' by {
                assert(s[j + n] == '[');
                let k = choose|k: int| j + n < k < i && #[trigger] s[k] == ']';
                assert(rest[k - n] == ']');
            }
            assert(is_visible(rest, i - n));
        }
        assert forall|p: int| 0 <= p < out.len() implies exists|k: int|
            is_visible(s, k) && #[trigger] s[k] == #[trigger] out[p] by {
            let k = choose|k: int| is_visible(rest, k) && #[trigger] rest[k] == outside_tags(rest)[p];
            lemma_visible_behind(s, k);
            assert(s[k + n] == out[p]);
        }
    } else {
        let rest = s.drop_first();
        let tail = outside_tags(rest);
        assert(out == seq![s[0]] + tail);
        law_outside_tags(rest, i - 1);
        if is_visible(s, i) {
            if i == 0 {
                assert(out[0] == s[0]);
            } else {
                assert(rest[i - 1] == s[i]);
                assert forall|j: int| 0 <= j < i - 1 && #[trigger] rest[j] == '[' implies exists|
                    k: int,
                |
                    j < k < i - 1 && #[trigger] rest[k] == ']' by {
                    assert(s[j + 1] == '[');
                    let k = choose|k: int| j + 1 < k < i && #[trigger] s[k] == ']';
                    assert(rest[k - 1] == ']');
                }
                assert(is_visible(rest, i - 1));
                let p = choose|p: int| 0 <= p < tail.len() && tail[p] == s[i];
                assert(out[p + 1] == s[i]);
            }
        }
        assert forall|p: int| 0 <= p < out.len() implies exists|k: int|
            is_visible(s, k) && #[trigger] s[k] == #[trigger] out[p] by {
            if p == 0 {
                assert(is_visible(s, 0));
                assert(s[0] == out[0]);
            } else {
                assert(out[p] == tail[p - 1]);
                let k = choose|k: int| is_visible(rest, k) && #[trigger] rest[k] == tail[p - 1];
                lemma_visible_next(s, k);
                assert(s[k + 1] == out[p]);
            }
        }
    }
}

proof fn lemma_visible_behind(s: Seq<char>, k: int)
    requires
        s.len() > 0,
        s[0] == '[',
        is_visible(s.skip(tag_reach(s)), k),
    ensures
        is_visible(s, k + tag_reach(s)),
        s[k + tag_reach(s)] == s.skip(tag_reach(s))[k],
{
    lemma_tag_reach(s);
    let n = tag_reach(s);
    let rest = s.skip(n);
    assert(s[n - 1] == ']');
    assert forall|j: int| 0 <= j < k + n && #[trigger] s[j] == '[' implies exists|m: int|
        j < m < k + n && #[trigger] s[m] == ']' by {
        if j < n {
            assert(j < n - 1);
            assert(s[n - 1] == ']');
        } else {
            assert(rest[j - n] == '[');
            let m = choose|m: int| j - n < m < k && #[trigger] rest[m] == ']';
            assert(s[m + n] == ']');
        }
    }
}

proof fn lemma_visible_next(s: Seq<char>, k: int)
    requires
        s.len() > 0,
        s[0] != '[',
        is_visible(s.drop_first(), k),
    ensures
        is_visible(s, k + 1),
        s[k + 1] == s.drop_first()[k],
{
    let rest = s.drop_first();
    assert forall|j: int| 0 <= j < k + 1 && #[trigger] s[j] == '[' implies exists|m: int|
        j < m < k + 1 && #[trigger] s[m] == ']' by {
        assert(rest[j - 1] == '[');
        let m = choose|m: int| j - 1 < m < k && #[trigger] rest[m] == ']';
        assert(s[m + 1] == ']');
    }
}

// ---------------------------------------------------------------------------
// Words in texts
// ---------------------------------------------------------------------------

/// Whether a text stands at a position of another.
pub open spec fn stands_at(s: Seq<char>, part: Seq<char>, p: int) -> bool {
    0 <= p && p + part.len() <= s.len() && s.subrange(p, p + part.len()) == part
}

/// A text is found in another exactly if it stands somewhere in it.
pub proof fn law_found_where_it_stands(s: Seq<char>, part: Seq<char>)
    ensures
        has_text(s, part) <==> exists|p: int| #[trigger] stands_at(s, part, p),
        find_spec(s, part) matches Some(k) ==> stands_at(s, part, k) && forall|p: int|
            0 <= p < k ==> !#[trigger] stands_at(s, part, p),
{
    lemma_find(s, part, 0);
    if has_text(s, part) {
        let k = find_spec(s, part)->0;
        assert(s.skip(k).take(part.len() as int) =~= s.subrange(k, k + part.len()));
        assert(stands_at(s, part, k));
        assert forall|p: int| 0 <= p < k implies !#[trigger] stands_at(s, part, p) by {
            lemma_not_before(s, part, 0, p);
        }
    } else {
        assert forall|p: int| !#[trigger] stands_at(s, part, p) by {
            if stands_at(s, part, p) {
                assert(s.skip(p).take(part.len() as int) =~= s.subrange(p, p + part.len()));
                assert(has_prefix(s.skip(p), part));
            }
        }
    }
}

proof fn lemma_not_before(s: Seq<char>, part: Seq<char>, at: int, p: int)
    requires
        0 <= at <= p,
        find_from(s, part, at) matches Some(k) && p < k,
    ensures
        !stands_at(s, part, p),
    decreases p - at,
{
    if at == p {
        if stands_at(s, part, p) {
            assert(s.skip(p).take(part.len() as int) =~= s.subrange(p, p + part.len()));
        }
    } else {
        lemma_not_before(s, part, at + 1, p);
    }
}

proof fn lemma_without_space_front(c: char, rest: Seq<char>)
    ensures
        without_space(seq![c] + rest) == if is_space(c) {
            without_space(rest)
        } else {
            seq![c] + without_space(rest)
        },
    decreases rest.len(),
{
    let s = seq![c] + rest;
    if rest.len() == 0 {
        assert(s.drop_last() =~= Seq::empty());
        assert(s.last() == c);
        assert(rest =~= Seq::empty());
        assert(without_space(s) =~= if is_space(c) {
            without_space(rest)
        } else {
            seq![c] + without_space(rest)
        });
    } else {
        assert(s.drop_last() =~= seq![c] + rest.drop_last());
        assert(s.last() == rest.last());
        lemma_without_space_front(c, rest.drop_last());
        assert(without_space(s) =~= if is_space(c) {
            without_space(rest)
        } else {
            seq![c] + without_space(rest)
        });
    }
}

proof fn lemma_closing(word: Seq<char>, rest: Seq<char>)
    requires
        forall|i: int| 0 <= i < word.len() ==> word[i] != ']',
    ensures
        index_or_len(word + seq![']'] + rest, ']') == word.len(),
    decreases word.len(),
{
    let s = word + seq![']'] + rest;
    if word.len() > 0 {
        let tail = word.drop_first();
        assert forall|i: int| 0 <= i < tail.len() implies tail[i] != ']' by {
            assert(tail[i] == word[i + 1]);
        }
        lemma_closing(tail, rest);
        assert(s.drop_first() =~= tail + seq![']'] + rest);
    }
}

/// The form in which texts are searched loses tags and white space and keeps every other
/// character in its order.
pub proof fn law_normal_form(ch: char, word: Seq<char>, rest: Seq<char>)
    ensures
        normal_text(Seq::empty()) == Seq::<char>::empty(),
        ch != '[' && !is_space(ch) ==> normal_text(seq![ch] + rest) == seq![ch] + normal_text(rest),
        ch != '[' && is_space(ch) ==> normal_text(seq![ch] + rest) == normal_text(rest),
        (forall|i: int| 0 <= i < word.len() ==> word[i] != ']') ==> normal_text(tagged(word) + rest)
            == normal_text(rest),
{
    let s = seq![ch] + rest;
    assert(s.drop_first() =~= rest);
    if ch != '[' {
        assert(outside_tags(s) == seq![ch] + outside_tags(rest));
        lemma_without_space_front(ch, outside_tags(rest));
    }
    if forall|i: int| 0 <= i < word.len() ==> word[i] != ']' {
        reveal_strlit("[");
        reveal_strlit("]");
        let t = tagged(word) + rest;
        let inner = word + seq![']'] + rest;
        assert(t.drop_first() =~= inner);
        lemma_closing(word, rest);
        assert(inner.skip((word.len() + 1) as int) =~= rest);
        assert(behind_tag(inner) == rest);
    }
}

/// Whether a script holds a form of a word: tags and white space aside, the form stands
/// somewhere in it.
pub open spec fn holds_form(jp: Seq<char>, form: Seq<char>) -> bool {
    normal_text(form).len() > 0 && exists|p: int|
        #[trigger] stands_at(normal_text(jp), normal_text(form), p)
}

/// Whether a script holds a word in any of its forms.
pub open spec fn holds_word(jp: Seq<char>, t: TermView) -> bool {
    holds_form(jp, t.jp) || exists|k: int|
        0 <= k < t.aliases.len() && holds_form(jp, #[trigger] t.aliases[k])
}

proof fn lemma_holds(jp: Seq<char>, t: TermView)
    ensures
        t.occurs_in(normal_text(jp)) == holds_word(jp, t),
{
    let normal = normal_text(jp);
    law_found_where_it_stands(normal, normal_text(t.jp));
    assert(word_in(normal, t.jp) == holds_form(jp, t.jp));
    assert forall|k: int| 0 <= k < t.aliases.len() implies word_in(normal, #[trigger] t.aliases[k])
        == holds_form(jp, t.aliases[k]) by {
        law_found_where_it_stands(normal, normal_text(t.aliases[k]));
    }
    if t.occurs_in(normal) && !word_in(normal, t.jp) {
        let k = choose|k: int| 0 <= k < t.aliases.len() && word_in(normal, #[trigger] t.aliases[k]);
        assert(holds_form(jp, t.aliases[k]));
    }
    if holds_word(jp, t) && !holds_form(jp, t.jp) {
        let k = choose|k: int| 0 <= k < t.aliases.len() && holds_form(jp, #[trigger] t.aliases[k]);
        assert(word_in(normal, t.aliases[k]));
    }
}

// ---------------------------------------------------------------------------
// References and uses
// ---------------------------------------------------------------------------

/// Whether script `r` is the one that a name stands for: the last one of that name.
pub open spec fn is_script(raws: Seq<RawView>, id: Seq<char>, r: int) -> bool {
    &&& 0 <= r < raws.len()
    &&& raws[r].id == id
    &&& forall|k: int| r < k < raws.len() ==> (#[trigger] raws[k]).id != id
}

/// A name stands for the last script of that name; a name that no script has stands for
/// none.
pub proof fn law_scripts_by_name(raws: Seq<RawView>, id: Seq<char>)
    ensures
        raw_index(raws, id) matches Some(r) ==> is_script(raws, id, r),
        raw_index(raws, id) is None ==> forall|k: int|
            0 <= k < raws.len() ==> (#[trigger] raws[k]).id != id,
        forall|r: int| #[trigger] is_script(raws, id, r) ==> raw_index(raws, id) == Some(r),
    decreases raws.len(),
{
    if raws.len() > 0 {
        let front = raws.drop_last();
        law_scripts_by_name(front, id);
        if raws.last().id != id {
            assert forall|k: int| 0 <= k < raws.len() && raw_index(raws, id) is None implies (
            #[trigger] raws[k]).id != id by {
                if k < raws.len() - 1 {
                    assert(front[k] == raws[k]);
                }
            }
            if raw_index(raws, id) is Some {
                let r = raw_index(raws, id)->0;
                assert forall|k: int| r < k < raws.len() implies (#[trigger] raws[k]).id != id by {
                    if k < raws.len() - 1 {
                        assert(front[k] == raws[k]);
                    }
                }
            }
        }
        assert forall|r: int| #[trigger] is_script(raws, id, r) implies raw_index(raws, id) == Some(
            r,
        ) by {
            if r < raws.len() - 1 {
                assert(raws[raws.len() - 1].id != id);
                assert forall|k: int| r < k < front.len() implies (#[trigger] front[k]).id != id by {
                    assert(front[k] == raws[k]);
                }
                assert(is_script(front, id, r));
            }
        }
    }
}

/// Whether a name stands for a script that holds a word.
pub open spec fn names_holder(t: TermView, raws: Seq<RawView>, id: Seq<char>) -> bool {
    exists|r: int| #[trigger] is_script(raws, id, r) && holds_word(raws[r].jp, t)
}

/// A reference of a word is accepted exactly if it names a script that holds the word,
/// under the word's own form or any other of its forms.
pub proof fn law_references(t: TermView, raws: Seq<RawView>, n: int)
    requires
        0 <= n < t.refs.len(),
        refs_fault(t, raws, n) is None,
    ensures
        refs_fault(t, raws, n + 1) is None <==> names_holder(t, raws, t.refs[n]),
{
    law_scripts_by_name(raws, t.refs[n]);
    match raw_index(raws, t.refs[n]) {
        Some(k) => {
            lemma_holds(raws[k].jp, t);
        },
        None => {},
    }
}

/// Each script that a name stands for and that holds the word counts as one use of it;
/// no other does.
pub proof fn law_uses(t: TermView, raws: Seq<RawView>, r: int)
    requires
        0 <= r < raws.len(),
    ensures
        term_uses(t, raws, 0) == 0,
        term_uses(t, raws, r + 1) - term_uses(t, raws, r) == if is_script(raws, raws[r].id, r)
            && holds_word(raws[r].jp, t) {
            1int
        } else {
            0
        },
{
    law_scripts_by_name(raws, raws[r].id);
    lemma_holds(raws[r].jp, t);
    assert(is_last(raws, r) == is_script(raws, raws[r].id, r));
}

proof fn lemma_glossary_prefix(list: Seq<TermView>, raws: Seq<RawView>, k: int, n: int)
    requires
        0 <= k <= n,
        glossary_fault(list, raws, n) is None,
    ensures
        glossary_fault(list, raws, k) is None,
    decreases n,
{
    if k < n {
        lemma_glossary_prefix(list, raws, k, n - 1);
    }
}

proof fn lemma_refs_prefix(t: TermView, raws: Seq<RawView>, k: int, n: int)
    requires
        0 <= k <= n,
        refs_fault(t, raws, n) is None,
    ensures
        refs_fault(t, raws, k) is None,
    decreases n,
{
    if k < n {
        lemma_refs_prefix(t, raws, k, n - 1);
    }
}

proof fn lemma_first_term_none(
    list: Seq<TermView>,
    category: Seq<char>,
    jp: Seq<char>,
    n: int,
    k: int,
)
    requires
        0 <= k < n,
        first_term(list, category, jp, n) is None,
    ensures
        !(list[k].category == category && list[k].jp == jp),
    decreases n,
{
    if k < n - 1 {
        lemma_first_term_none(list, category, jp, n - 1, k);
    }
}

/// In a glossary that passes, every word has a category, a source form, a Korean form, a
/// known status and at least one reference; each reference names a script that holds the
/// word; and no two words of a category have the same source form.
pub proof fn law_passed_glossary(list: Seq<TermView>, raws: Seq<RawView>, i: int, n: int)
    requires
        glossary_fault(list, raws, list.len() as int) is None,
        0 <= i < list.len(),
        0 <= n < list[i].refs.len(),
    ensures
        is_filled(list[i].category),
        is_filled(list[i].jp),
        is_filled(list[i].ko),
        list[i].status == "approved_series"@ || list[i].status == "project_decision"@
            || list[i].status == "needs_review"@ || list[i].status == "tentative"@,
        names_holder(list[i], raws, list[i].refs[n]),
        forall|k: int|
            0 <= k < i ==> !((#[trigger] list[k]).category == list[i].category && list[k].jp
                == list[i].jp),
{
    let t = list[i];
    lemma_glossary_prefix(list, raws, i + 1, list.len() as int);
    law_trim(t.category);
    law_trim(t.jp);
    law_trim(t.ko);
    lemma_refs_prefix(t, raws, n + 1, t.refs.len() as int);
    lemma_refs_prefix(t, raws, n, t.refs.len() as int);
    law_references(t, raws, n);
    assert forall|k: int| 0 <= k < i implies !((#[trigger] list[k]).category == t.category
        && list[k].jp == t.jp) by {
        lemma_first_term_none(list, t.category, t.jp, i, k);
    }
}

/// A glossary passes if every word is in order by itself, no two words of a category have
/// the same source form, and every reference names a script that holds its word.
pub proof fn law_glossary_in_order(list: Seq<TermView>, raws: Seq<RawView>, i: int)
    requires
        0 <= i < list.len(),
        glossary_fault(list, raws, i) is None,
        is_filled(list[i].category),
        is_filled(list[i].jp),
        is_filled(list[i].ko),
        list[i].refs.len() > 0,
        list[i].status == "approved_series"@ || list[i].status == "project_decision"@
            || list[i].status == "needs_review"@ || list[i].status == "tentative"@,
        forall|k: int|
            0 <= k < i ==> !((#[trigger] list[k]).category == list[i].category && list[k].jp
                == list[i].jp),
        forall|n: int|
            0 <= n < list[i].refs.len() ==> names_holder(list[i], raws, #[trigger] list[i].refs[n]),
    ensures
        glossary_fault(list, raws, i + 1) is None,
{
    let t = list[i];
    law_trim(t.category);
    law_trim(t.jp);
    law_trim(t.ko);
    assert(term_fault(t) is None);
    lemma_no_first_term(list, t.category, t.jp, i);
    lemma_all_refs(t, raws, t.refs.len() as int);
}

proof fn lemma_no_first_term(list: Seq<TermView>, category: Seq<char>, jp: Seq<char>, n: int)
    requires
        forall|k: int|
            0 <= k < n ==> !((#[trigger] list[k]).category == category && list[k].jp == jp),
    ensures
        first_term(list, category, jp, n) is None,
    decreases n,
{
    if n > 0 {
        lemma_no_first_term(list, category, jp, n - 1);
        assert(!(list[n - 1].category == category && list[n - 1].jp == jp));
    }
}

proof fn lemma_all_refs(t: TermView, raws: Seq<RawView>, n: int)
    requires
        0 <= n <= t.refs.len(),
        forall|k: int|
            0 <= k < t.refs.len() ==> names_holder(t, raws, #[trigger] t.refs[k]),
    ensures
        refs_fault(t, raws, n) is None,
    decreases n,
{
    if n > 0 {
        lemma_all_refs(t, raws, n - 1);
        law_references(t, raws, n - 1);
    }
}

// ---------------------------------------------------------------------------
// Translations
// ---------------------------------------------------------------------------

/// Whether a translation has to use a word: the word is settled, and it concerns the
/// script, by its name where the word is looked for in named scripts only, else because
/// the script holds it.
pub open spec fn is_owed(t: TermView, id: Seq<char>, jp: Seq<char>) -> bool {
    &&& t.status == "approved_series"@ || t.status == "project_decision"@
    &&& if t.match_refs_only {
        t.refs.contains(id)
    } else {
        holds_word(jp, t)
    }
}

/// A translation passes exactly if it holds the Korean form, tags and white space aside,
/// of every settled word that concerns its script.
pub proof fn law_settled_words_are_used(
    list: Seq<TermView>,
    id: Seq<char>,
    jp: Seq<char>,
    ko: Seq<char>,
    n: int,
)
    requires
        0 <= n <= list.len(),
    ensures
        usage_fault(list, id, jp, ko, n) is None <==> forall|i: int|
            0 <= i < n && is_owed(#[trigger] list[i], id, jp) ==> exists|p: int|
                #[trigger] stands_at(normal_text(ko), normal_text(list[i].ko), p),
    decreases n,
{
    if n > 0 {
        let t = list[n - 1];
        law_settled_words_are_used(list, id, jp, ko, n - 1);
        lemma_holds(jp, t);
        law_found_where_it_stands(normal_text(ko), normal_text(t.ko));
        assert(t.refs.contains(id) == exists|k: int|
            0 <= k < t.refs.len() && #[trigger] t.refs[k] == id);
        assert(is_owed(list[n - 1], id, jp) == (t.stable() && crate::terms::term_concerns(
            t,
            id,
            jp,
        )));
        if usage_fault(list, id, jp, ko, n) is None {
            assert forall|i: int| 0 <= i < n && is_owed(#[trigger] list[i], id, jp) implies exists|
                p: int,
            |
                #[trigger] stands_at(normal_text(ko), normal_text(list[i].ko), p) by {
                if i < n - 1 {
                    assert(usage_fault(list, id, jp, ko, n - 1) is None);
                }
            }
        }
        if forall|i: int|
            0 <= i < n && is_owed(#[trigger] list[i], id, jp) ==> exists|p: int|
                #[trigger] stands_at(normal_text(ko), normal_text(list[i].ko), p) {
            assert(usage_fault(list, id, jp, ko, n - 1) is None);
            if is_owed(list[n - 1], id, jp) {
                assert(exists|p: int|
                    #[trigger] stands_at(normal_text(ko), normal_text(list[n - 1].ko), p));
            }
        }
    }
}

/// A glossary is read exactly if it is in the known format and not empty.
pub proof fn law_glossary_format(format: Seq<char>, n: int)
    ensures
        terms_file_fault(format, n) is None <==> format == "madoua-terms-v1"@ && n != 0,
{
}

} // verus!
