//! Control tags as they occur in a text, and their comparison.
use vstd::prelude::*;
use vstd::slice::slice_subrange;
use crate::error::{plain, Fault, PatchError};
use crate::ko_text::{behind_tag, is_word, operand, parse_hex_u8};
use crate::parse::{
    copy_chars, index_of, index_or_len, join, joined, lemma_index_or_len, lower_all, lower_chars,
    same_chars, string_views, trim, trim_spec, views,
};
use crate::text::{chars_of, dec, lower_hex_byte, string_of, text};

verus! {

/// The form in which `format!("{:?}")` shows a string: in quotes, with escapes.
pub uninterp spec fn debug_text(s: Seq<char>) -> Seq<char>;

/// `format!("{:?}")` of a string: a text that depends on the string alone. Its value
/// is only named here, by `debug_text`.
#[verifier::external_body]
pub(crate) fn debug_str(s: &str) -> (r: String)
    ensures
        r@ == debug_text(s@),
{
    format!("{s:?}")
}

// ---------------------------------------------------------------------------
// Finding tags
// ---------------------------------------------------------------------------

/// The tags of a text, without their brackets.
pub open spec fn tags_of(s: Seq<char>) -> Seq<Seq<char>>
    decreases s.len(),
    via tags_decreases
{
    if s.len() == 0 {
        Seq::empty()
    } else if s[0] == '[' {
        let rest = s.drop_first();
        seq![rest.take(index_or_len(rest, ']'))] + tags_of(behind_tag(rest))
    } else {
        tags_of(s.drop_first())
    }
}

#[via_fn]
proof fn tags_decreases(s: Seq<char>) {
    if s.len() > 0 {
        lemma_index_or_len(s.drop_first(), ']');
    }
}

/// The tags of a text, without their brackets.
pub fn find_tags(s: &[char]) -> (tags: Vec<Vec<char>>)
    ensures
        views(tags@) == tags_of(s@),
{
    let mut tags: Vec<Vec<char>> = Vec::new();
    let mut rest = s;
    proof {
        assert(views(tags@) + tags_of(rest@) =~= tags_of(s@));
    }
    while rest.len() > 0
        invariant
            views(tags@) + tags_of(rest@) == tags_of(s@),
        decreases rest@.len(),
    {
        let ghost here = rest@;
        let ch: char = rest[0];
        rest = slice_subrange(rest, 1, rest.len());
        proof {
            assert(rest@ =~= here.drop_first());
        }
        if ch == '[' {
            let end = index_of(rest, ']');
            let tag = copy_chars(slice_subrange(rest, 0, end));
            let ghost listed = views(tags@);
            tags.push(tag);
            let next: usize = if end < rest.len() {
                end + 1
            } else {
                end
            };
            let ghost tail = rest@;
            rest = slice_subrange(rest, next, rest.len());
            proof {
                assert(tag@ =~= tail.take(end as int));
                assert(rest@ =~= behind_tag(tail));
                assert(views(tags@) =~= listed.push(tag@));
                assert(views(tags@) + tags_of(rest@) =~= listed + tags_of(here));
            }
        }
    }
    proof {
        assert(views(tags@) + tags_of(rest@) =~= views(tags@));
    }
    tags
}

/// A tag's name: what stands before the first colon, in lower case.
pub open spec fn tag_name(tag: Seq<char>) -> Seq<char> {
    lower_all(tag.take(index_or_len(tag, ':')))
}

// ---------------------------------------------------------------------------
// Counts
// ---------------------------------------------------------------------------

/// Whether one text comes before another by the code points of their characters.
pub open spec fn comes_before(a: Seq<char>, b: Seq<char>) -> bool
    decreases a.len(),
{
    if b.len() == 0 {
        false
    } else if a.len() == 0 {
        true
    } else if a[0] != b[0] {
        (a[0] as int) < (b[0] as int)
    } else {
        comes_before(a.drop_first(), b.drop_first())
    }
}

/// Whether one text comes before another by the code points of their characters.
pub fn less_chars(a: &[char], b: &[char]) -> (r: bool)
    ensures
        r == comes_before(a@, b@),
{
    let mut i: usize = 0;
    proof {
        assert(a@.skip(0) =~= a@);
        assert(b@.skip(0) =~= b@);
    }
    while i < a.len() && i < b.len()
        invariant
            i <= a@.len(),
            i <= b@.len(),
            comes_before(a@, b@) == comes_before(a@.skip(i as int), b@.skip(i as int)),
        decreases a@.len() - i,
    {
        proof {
            assert(a@.skip(i as int)[0] == a@[i as int]);
            assert(b@.skip(i as int)[0] == b@[i as int]);
            assert(a@.skip(i as int).drop_first() =~= a@.skip(i + 1));
            assert(b@.skip(i as int).drop_first() =~= b@.skip(i + 1));
        }
        let x: char = a[i];
        let y: char = b[i];
        if x != y {
            return x < y;
        }
        i += 1;
    }
    i < b.len()
}

/// A sorted list of names with counts, after one more occurrence of a name.
pub open spec fn add_name(list: Seq<(Seq<char>, int)>, name: Seq<char>) -> Seq<(Seq<char>, int)>
    decreases list.len(),
{
    if list.len() == 0 {
        seq![(name, 1)]
    } else if name == list[0].0 {
        list.update(0, (name, list[0].1 + 1))
    } else if comes_before(name, list[0].0) {
        seq![(name, 1int)] + list
    } else {
        seq![list[0]] + add_name(list.drop_first(), name)
    }
}

/// Whether a tag counts: it has a name, and is not the currency sign, which is
/// visible text.
pub open spec fn is_control(name: Seq<char>) -> bool {
    name.len() > 0 && name != "money"@
}

/// The control tags among tags, sorted by name, with how often each occurs.
pub open spec fn tag_counts(tags: Seq<Seq<char>>) -> Seq<(Seq<char>, int)>
    decreases tags.len(),
{
    if tags.len() == 0 {
        Seq::empty()
    } else {
        let name = tag_name(tags.last());
        if is_control(name) {
            add_name(tag_counts(tags.drop_last()), name)
        } else {
            tag_counts(tags.drop_last())
        }
    }
}

/// The model of a list of names with counts.
pub open spec fn count_views(list: Seq<(Vec<char>, u128)>) -> Seq<(Seq<char>, int)> {
    Seq::new(list.len(), |i: int| (list[i].0@, list[i].1 as int))
}

/// Whether no count is larger than `n`.
pub open spec fn counts_at_most(list: Seq<(Seq<char>, int)>, n: int) -> bool {
    forall|i: int| 0 <= i < list.len() ==> (#[trigger] list[i]).1 <= n
}

proof fn lemma_add_name_at(list: Seq<(Seq<char>, int)>, name: Seq<char>, at: int)
    requires
        0 <= at <= list.len(),
        forall|i: int|
            0 <= i < at ==> name != (#[trigger] list[i]).0 && !comes_before(name, list[i].0),
        at < list.len() ==> name == list[at].0 || comes_before(name, list[at].0),
    ensures
        at < list.len() && name == list[at].0 ==> add_name(list, name) == list.update(
            at,
            (name, list[at].1 + 1),
        ),
        at == list.len() || name != list[at].0 ==> add_name(list, name) == list.insert(
            at,
            (name, 1int),
        ),
    decreases list.len(),
{
    if at == 0 {
        if list.len() == 0 {
            assert(add_name(list, name) =~= list.insert(0, (name, 1int)));
        } else if name != list[0].0 {
            assert(add_name(list, name) =~= list.insert(0, (name, 1int)));
        }
    } else {
        let tail = list.drop_first();
        assert forall|i: int| 0 <= i < at - 1 implies name != (#[trigger] tail[i]).0
            && !comes_before(name, tail[i].0) by {
            assert(tail[i] == list[i + 1]);
        }
        lemma_add_name_at(tail, name, at - 1);
        assert(name != list[0].0 && !comes_before(name, list[0].0));
        if at < list.len() && name == list[at].0 {
            assert(add_name(list, name) =~= list.update(at, (name, list[at].1 + 1)));
        } else {
            assert(add_name(list, name) =~= list.insert(at, (name, 1int)));
        }
    }
}

/// Counts one more occurrence of a name in a sorted list.
pub(crate) fn count_name(list: &mut Vec<(Vec<char>, u128)>, name: Vec<char>, limit: Ghost<int>)
    requires
        counts_at_most(count_views(old(list)@), limit@),
        0 <= limit@ < u128::MAX,
    ensures
        count_views(final(list)@) == add_name(count_views(old(list)@), name@),
        counts_at_most(count_views(final(list)@), limit@ + 1),
{
    let ghost was = count_views(list@);
    let mut at: usize = 0;
    while at < list.len() && !same_chars(name.as_slice(), list[at].0.as_slice()) && !less_chars(
        name.as_slice(),
        list[at].0.as_slice(),
    )
        invariant
            at <= list@.len(),
            was == count_views(list@),
            forall|i: int|
                0 <= i < at ==> name@ != (#[trigger] was[i]).0 && !comes_before(
                    name@,
                    was[i].0,
                ),
        decreases list@.len() - at,
    {
        proof {
            assert(was[at as int].0 == list@[at as int].0@);
        }
        at += 1;
    }
    proof {
        if at < list@.len() {
            assert(was[at as int].0 == list@[at as int].0@);
        }
        lemma_add_name_at(was, name@, at as int);
    }
    if at < list.len() && same_chars(name.as_slice(), list[at].0.as_slice()) {
        proof {
            assert(was[at as int].1 <= limit@);
        }
        let more: u128 = list[at].1 + 1;
        let ghost key = name@;
        list.set(at, (name, more));
        proof {
            assert(count_views(list@) =~= was.update(at as int, (key, more as int)));
        }
    } else {
        let ghost key = name@;
        let ghost old_list = list@;
        list.insert(at, (name, 1));
        proof {
            assert(list@ =~= old_list.insert(at as int, (name, 1u128)));
            assert(count_views(list@) =~= was.insert(at as int, (key, 1int)));
            let now = count_views(list@);
            assert forall|i: int| 0 <= i < now.len() implies (#[trigger] now[i]).1 <= limit@
                + 1 by {
                if i < at {
                    assert(now[i] == was[i]);
                } else if i > at {
                    assert(now[i] == was[i - 1]);
                }
            }
        }
    }
}

/// The control tags of a text, sorted by name, with how often each occurs.
pub fn control_tag_counts(tags: &[Vec<char>]) -> (list: Vec<(Vec<char>, u128)>)
    ensures
        count_views(list@) == tag_counts(views(tags@)),
{
    let ghost all = views(tags@);
    let mut list: Vec<(Vec<char>, u128)> = Vec::new();
    let mut i: usize = 0;
    proof {
        assert(count_views(list@) =~= Seq::empty());
    }
    while i < tags.len()
        invariant
            i <= tags@.len(),
            all == views(tags@),
            count_views(list@) == tag_counts(all.take(i as int)),
            counts_at_most(count_views(list@), i as int),
        decreases tags@.len() - i,
    {
        proof {
            assert(all.take(i + 1).drop_last() =~= all.take(i as int));
            assert(all.take(i + 1).last() == tags@[i as int]@);
        }
        let tag = tags[i].as_slice();
        let name = lower_chars(slice_subrange(tag, 0, index_of(tag, ':')));
        proof {
            assert(tag@.subrange(0, index_or_len(tag@, ':')) =~= tag@.take(
                index_or_len(tag@, ':'),
            ));
        }
        if name.len() > 0 && !is_word(name.as_slice(), "money") {
            count_name(&mut list, name, Ghost(i as int));
        }
        i += 1;
    }
    proof {
        assert(all.take(i as int) =~= all);
    }
    list
}

/// Whether two lists of names with counts are equal.
pub fn same_counts(a: &[(Vec<char>, u128)], b: &[(Vec<char>, u128)]) -> (r: bool)
    ensures
        r == (count_views(a@) == count_views(b@)),
{
    let ghost va = count_views(a@);
    let ghost vb = count_views(b@);
    if a.len() != b.len() {
        proof {
            assert(va.len() != vb.len());
        }
        return false;
    }
    let mut i: usize = 0;
    while i < a.len()
        invariant
            i <= a@.len(),
            a@.len() == b@.len(),
            va == count_views(a@),
            vb == count_views(b@),
            forall|j: int| 0 <= j < i ==> va[j] == vb[j],
        decreases a@.len() - i,
    {
        if a[i].1 != b[i].1 || !same_chars(a[i].0.as_slice(), b[i].0.as_slice()) {
            proof {
                assert(va[i as int] != vb[i as int]);
            }
            return false;
        }
        i += 1;
    }
    proof {
        assert(va =~= vb);
    }
    true
}

/// Names with their counts in words, separated by commas.
pub open spec fn counted(shown: Seq<Seq<char>>, counts: Seq<int>, n: int) -> Seq<char>
    decreases n,
{
    if n <= 0 {
        Seq::empty()
    } else if n == 1 {
        shown[0] + ": "@ + dec(counts[0])
    } else {
        counted(shown, counts, n - 1) + ", "@ + shown[n - 1] + ": "@ + dec(counts[n - 1])
    }
}

/// Counts, as a model.
pub open spec fn number_views(list: Seq<u128>) -> Seq<int> {
    Seq::new(list.len(), |i: int| list[i] as int)
}

/// Puts names and their counts into words.
pub fn count_items(shown: &[String], counts: &[u128]) -> (s: String)
    requires
        shown@.len() == counts@.len(),
    ensures
        s@ == counted(string_views(shown@), number_views(counts@), counts@.len() as int),
{
    let ghost names = string_views(shown@);
    let ghost numbers = number_views(counts@);
    let mut t = text("");
    let mut i: usize = 0;
    proof {
        reveal_strlit("");
        assert(t@ =~= counted(names, numbers, 0));
    }
    while i < counts.len()
        invariant
            i <= counts@.len(),
            shown@.len() == counts@.len(),
            names == string_views(shown@),
            numbers == number_views(counts@),
            t@ == counted(names, numbers, i as int),
        decreases counts@.len() - i,
    {
        t = if i == 0 {
            text(shown[i].as_str())
        } else {
            t.lit(", ").lit(shown[i].as_str())
        };
        t = t.lit(": ").dec_wide(counts[i]);
        i += 1;
    }
    t.finish()
}

/// How names are shown.
pub open spec fn shown_names(list: Seq<Seq<char>>) -> Seq<Seq<char>> {
    Seq::new(list.len(), |i: int| debug_text(list[i]))
}

fn show_names(list: &[Vec<char>]) -> (shown: Vec<String>)
    ensures
        string_views(shown@) == shown_names(views(list@)),
{
    let mut shown: Vec<String> = Vec::new();
    let mut i: usize = 0;
    while i < list.len()
        invariant
            i <= list@.len(),
            shown@.len() == i,
            forall|k: int| 0 <= k < i ==> (#[trigger] shown@[k])@ == debug_text(list@[k]@),
        decreases list@.len() - i,
    {
        let name = string_of(list[i].as_slice());
        shown.push(debug_str(name.as_str()));
        i += 1;
    }
    proof {
        assert(string_views(shown@) =~= shown_names(views(list@)));
    }
    shown
}

/// The names of a list of counts.
pub open spec fn count_names(list: Seq<(Seq<char>, int)>) -> Seq<Seq<char>> {
    Seq::new(list.len(), |i: int| list[i].0)
}

/// The numbers of a list of counts.
pub open spec fn count_numbers(list: Seq<(Seq<char>, int)>) -> Seq<int> {
    Seq::new(list.len(), |i: int| list[i].1)
}

/// A list of names with counts in words.
pub open spec fn counts_body(list: Seq<(Seq<char>, int)>) -> Seq<char> {
    counted(shown_names(count_names(list)), count_numbers(list), list.len() as int)
}

fn counts_text(list: &[(Vec<char>, u128)]) -> (s: String)
    ensures
        s@ == counts_body(count_views(list@)),
{
    let mut names: Vec<Vec<char>> = Vec::new();
    let mut numbers: Vec<u128> = Vec::new();
    let mut i: usize = 0;
    while i < list.len()
        invariant
            i <= list@.len(),
            names@.len() == i,
            numbers@.len() == i,
            forall|k: int| 0 <= k < i ==> (#[trigger] names@[k])@ == list@[k].0@,
            forall|k: int| 0 <= k < i ==> #[trigger] numbers@[k] == list@[k].1,
        decreases list@.len() - i,
    {
        names.push(crate::parse::copy_chars(list[i].0.as_slice()));
        numbers.push(list[i].1);
        i += 1;
    }
    proof {
        assert(views(names@) =~= count_names(count_views(list@)));
        assert(number_views(numbers@) =~= count_numbers(count_views(list@)));
    }
    let shown = show_names(names.as_slice());
    proof {
        assert(string_views(shown@).len() == shown@.len());
    }
    count_items(shown.as_slice(), numbers.as_slice())
}

// ---------------------------------------------------------------------------
// Order
// ---------------------------------------------------------------------------

/// The normal form of a control tag, none for tags that do not count. The operands
/// of `flags` and `raw` are compared by value.
pub open spec fn tag_label(tag: Seq<char>) -> Result<Option<Seq<char>>, Fault> {
    let colon = index_or_len(tag, ':');
    let name = lower_all(trim_spec(tag.take(colon)));
    let argument = tag.skip(colon + 1);
    if name.len() == 0 || name == "money"@ {
        Ok(None)
    } else if colon >= tag.len() {
        Ok(Some(name))
    } else if name == "flags"@ || name == "raw"@ {
        match operand(argument) {
            Err(e) => Err(e),
            Ok(v) => Ok(Some(name + ":"@ + lower_hex_byte(v))),
        }
    } else {
        Ok(Some(name + ":"@ + lower_all(trim_spec(argument))))
    }
}

/// The normal forms of the control tags among tags, in order.
pub open spec fn tag_labels(tags: Seq<Seq<char>>) -> Result<Seq<Seq<char>>, Fault>
    decreases tags.len(),
{
    if tags.len() == 0 {
        Ok(Seq::empty())
    } else {
        match tag_labels(tags.drop_last()) {
            Err(e) => Err(e),
            Ok(list) => match tag_label(tags.last()) {
                Err(e) => Err(e),
                Ok(None) => Ok(list),
                Ok(Some(label)) => Ok(list.push(label)),
            },
        }
    }
}

fn normal_tag(tag: &[char]) -> (res: Result<Option<Vec<char>>, PatchError>)
    ensures
        match res {
            Ok(Some(label)) => tag_label(tag@) == Ok::<Option<Seq<char>>, Fault>(
                Some(label@),
            ),
            Ok(None) => tag_label(tag@) == Ok::<Option<Seq<char>>, Fault>(None),
            Err(e) => tag_label(tag@) == Err::<Option<Seq<char>>, Fault>(e@),
        },
{
    let colon = index_of(tag, ':');
    let name = lower_chars(trim(slice_subrange(tag, 0, colon)));
    proof {
        assert(tag@.subrange(0, colon as int) =~= tag@.take(colon as int));
    }
    if name.len() == 0 || is_word(name.as_slice(), "money") {
        return Ok(None);
    }
    if colon == tag.len() {
        return Ok(Some(name));
    }
    let argument = slice_subrange(tag, colon + 1, tag.len());
    proof {
        assert(argument@ =~= tag@.skip(colon + 1));
    }
    if is_word(name.as_slice(), "flags") || is_word(name.as_slice(), "raw") {
        match parse_hex_u8(argument) {
            Err(e) => Err(e),
            Ok(v) => {
                let mut s = string_of(name.as_slice());
                let head = text(s.as_str()).lit(":");
                let mut content = head.finish();
                crate::text::push_lower_hex(&mut content, v);
                Ok(Some(chars_of(content.as_str())))
            },
        }
    } else {
        let low = lower_chars(trim(argument));
        let s = string_of(name.as_slice());
        let label = text(s.as_str()).lit(":").chars(low.as_slice()).finish();
        Ok(Some(chars_of(label.as_str())))
    }
}

proof fn lemma_labels_fail(tags: Seq<Seq<char>>, k: int)
    requires
        0 <= k <= tags.len(),
        tag_labels(tags.take(k)) is Err,
    ensures
        tag_labels(tags) == tag_labels(tags.take(k)),
    decreases tags.len(),
{
    if k == tags.len() {
        assert(tags.take(k) =~= tags);
    } else {
        assert(tags.drop_last().take(k) =~= tags.take(k));
        lemma_labels_fail(tags.drop_last(), k);
    }
}

/// The normal forms of the control tags among tags, in order.
pub fn control_tag_sequence(tags: &[Vec<char>]) -> (res: Result<Vec<Vec<char>>, PatchError>)
    ensures
        match res {
            Ok(list) => tag_labels(views(tags@)) == Ok::<Seq<Seq<char>>, Fault>(views(list@)),
            Err(e) => tag_labels(views(tags@)) == Err::<Seq<Seq<char>>, Fault>(e@),
        },
{
    let ghost all = views(tags@);
    let mut list: Vec<Vec<char>> = Vec::new();
    let mut i: usize = 0;
    proof {
        assert(views(list@) =~= Seq::empty());
    }
    while i < tags.len()
        invariant
            i <= tags@.len(),
            all == views(tags@),
            tag_labels(all.take(i as int)) == Ok::<Seq<Seq<char>>, Fault>(views(list@)),
        decreases tags@.len() - i,
    {
        proof {
            assert(all.take(i + 1).drop_last() =~= all.take(i as int));
            assert(all.take(i + 1).last() == tags@[i as int]@);
        }
        let ghost was = views(list@);
        match normal_tag(tags[i].as_slice()) {
            Err(e) => {
                proof {
                    lemma_labels_fail(all, i + 1);
                }
                return Err(e);
            },
            Ok(None) => {},
            Ok(Some(label)) => {
                list.push(label);
                proof {
                    assert(views(list@) =~= was.push(label@));
                }
            },
        }
        i += 1;
    }
    proof {
        assert(all.take(i as int) =~= all);
    }
    Ok(list)
}

/// Whether two lists of texts are equal.
pub fn same_lists(a: &[Vec<char>], b: &[Vec<char>]) -> (r: bool)
    ensures
        r == (views(a@) == views(b@)),
{
    let ghost va = views(a@);
    let ghost vb = views(b@);
    if a.len() != b.len() {
        proof {
            assert(va.len() != vb.len());
        }
        return false;
    }
    let mut i: usize = 0;
    while i < a.len()
        invariant
            i <= a@.len(),
            a@.len() == b@.len(),
            va == views(a@),
            vb == views(b@),
            forall|j: int| 0 <= j < i ==> va[j] == vb[j],
        decreases a@.len() - i,
    {
        if !same_chars(a[i].as_slice(), b[i].as_slice()) {
            proof {
                assert(va[i as int] != vb[i as int]);
            }
            return false;
        }
        i += 1;
    }
    proof {
        assert(va =~= vb);
    }
    true
}

/// A list of texts in words.
pub open spec fn list_body(list: Seq<Seq<char>>) -> Seq<char> {
    joined(shown_names(list), ", "@)
}

fn list_text(list: &[Vec<char>]) -> (s: String)
    ensures
        s@ == list_body(views(list@)),
{
    let shown = show_names(list);
    join(shown.as_slice(), ", ")
}

// ---------------------------------------------------------------------------
// Comparison
// ---------------------------------------------------------------------------

/// What is wrong with the control tags of a translation, if anything: they must be
/// those of the source, as often and in the same order. A source or a translation
/// that is blank is not compared.
pub open spec fn tags_fault(id: Seq<char>, jp: Seq<char>, ko: Seq<char>) -> Option<Fault> {
    let jp_counts = tag_counts(tags_of(jp));
    let ko_counts = tag_counts(tags_of(ko));
    if trim_spec(jp).len() == 0 || trim_spec(ko).len() == 0 {
        None
    } else if jp_counts != ko_counts {
        Some(
            plain(
                id + " control tag mismatch: jp {"@ + counts_body(jp_counts) + "} vs ko {"@
                    + counts_body(ko_counts) + "}"@,
            ),
        )
    } else {
        match tag_labels(tags_of(jp)) {
            Err(e) => Some(e),
            Ok(a) => match tag_labels(tags_of(ko)) {
                Err(e) => Some(e),
                Ok(b) => if a != b {
                    Some(
                        plain(
                            id + " control tag order mismatch: jp ["@ + list_body(a) + "] vs ko ["@
                                + list_body(b) + "]"@,
                        ),
                    )
                } else {
                    None
                },
            },
        }
    }
}

/// Checks the control tags of a translation against its source.
pub fn check_control_tags(id: &str, jp: &str, ko: &str) -> (res: Result<(), PatchError>)
    ensures
        crate::script::fault_outcome(res) == tags_fault(id@, jp@, ko@),
{
    let jp_chars = chars_of(jp);
    let ko_chars = chars_of(ko);
    if trim(jp_chars.as_slice()).len() == 0 || trim(ko_chars.as_slice()).len() == 0 {
        return Ok(());
    }
    let jp_tags = find_tags(jp_chars.as_slice());
    let ko_tags = find_tags(ko_chars.as_slice());
    let jp_counts = control_tag_counts(jp_tags.as_slice());
    let ko_counts = control_tag_counts(ko_tags.as_slice());
    if !same_counts(jp_counts.as_slice(), ko_counts.as_slice()) {
        let jp_text = counts_text(jp_counts.as_slice());
        let ko_text = counts_text(ko_counts.as_slice());
        return Err(
            text(id).lit(" control tag mismatch: jp {").lit(jp_text.as_str()).lit("} vs ko {").lit(
                ko_text.as_str(),
            ).lit("}").fail(),
        );
    }
    let a = match control_tag_sequence(jp_tags.as_slice()) {
        Ok(list) => list,
        Err(e) => {
            return Err(e);
        },
    };
    let b = match control_tag_sequence(ko_tags.as_slice()) {
        Ok(list) => list,
        Err(e) => {
            return Err(e);
        },
    };
    if !same_lists(a.as_slice(), b.as_slice()) {
        let jp_text = list_text(a.as_slice());
        let ko_text = list_text(b.as_slice());
        return Err(
            text(id).lit(" control tag order mismatch: jp [").lit(jp_text.as_str()).lit(
                "] vs ko [",
            ).lit(ko_text.as_str()).lit("]").fail(),
        );
    }
    Ok(())
}

} // verus!
