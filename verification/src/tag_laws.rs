//! What the comparison of control tags means for the codes of a text.
use vstd::prelude::*;
use crate::error::Fault;
use crate::ko_text::{behind_tag, operand, tag_token, tokens_of, TextToken};
use crate::parse::{
    has_prefix, index_or_len, is_space, joined, lemma_index_or_len, lower, lower_all, trim_spec,
};
use crate::parse_laws::{law_text_order_is_total, law_text_order_is_transitive};
use crate::tags::{
    add_name, comes_before, counted, is_control, tag_counts, tag_label, tag_labels, tag_name,
    tags_fault, tags_of,
};
use crate::term_laws::{is_filled, law_trim};
use crate::text::{dec, lower_digit_char, lower_hex_byte};

verus! {

/// Whether a token is a control code: everything but characters and the currency sign.
pub open spec fn is_control_token(t: TextToken) -> bool {
    !(t is Char) && !(t is Money)
}

/// The control codes of a text, in order.
pub open spec fn controls(tokens: Seq<TextToken>) -> Seq<TextToken>
    decreases tokens.len(),
{
    if tokens.len() == 0 {
        Seq::empty()
    } else if is_control_token(tokens[0]) {
        seq![tokens[0]] + controls(tokens.drop_first())
    } else {
        controls(tokens.drop_first())
    }
}

/// The name of a control code.
spec fn name_of(t: TextToken) -> Seq<char> {
    match t {
        TextToken::Br => "br"@,
        TextToken::Wait => "wait"@,
        TextToken::End => "end"@,
        TextToken::Flags(_) => "flags"@,
        _ => "raw"@,
    }
}

/// The name of a control code with its operand.
spec fn label_of(t: TextToken) -> Seq<char> {
    match t {
        TextToken::Flags(v) => "flags"@ + ":"@ + lower_hex_byte(v),
        TextToken::Raw(v) => "raw"@ + ":"@ + lower_hex_byte(v),
        _ => name_of(t),
    }
}

proof fn lemma_reveal_names()
    ensures
        "br"@ == seq!['b', 'r'],
        "wait"@ == seq!['w', 'a', 'i', 't'],
        "end"@ == seq!['e', 'n', 'd'],
        "money"@ == seq!['m', 'o', 'n', 'e', 'y'],
        "flags"@ == seq!['f', 'l', 'a', 'g', 's'],
        "raw"@ == seq!['r', 'a', 'w'],
        "flags:"@ == seq!['f', 'l', 'a', 'g', 's', ':'],
        "raw:"@ == seq!['r', 'a', 'w', ':'],
        ":"@ == seq![':'],
{
    reveal_strlit("br");
    reveal_strlit("wait");
    reveal_strlit("end");
    reveal_strlit("money");
    reveal_strlit("flags");
    reveal_strlit("raw");
    reveal_strlit("flags:");
    reveal_strlit("raw:");
    reveal_strlit(":");
    assert("br"@ =~= seq!['b', 'r']);
    assert("wait"@ =~= seq!['w', 'a', 'i', 't']);
    assert("end"@ =~= seq!['e', 'n', 'd']);
    assert("money"@ =~= seq!['m', 'o', 'n', 'e', 'y']);
    assert("flags"@ =~= seq!['f', 'l', 'a', 'g', 's']);
    assert("raw"@ =~= seq!['r', 'a', 'w']);
    assert("flags:"@ =~= seq!['f', 'l', 'a', 'g', 's', ':']);
    assert("raw:"@ =~= seq!['r', 'a', 'w', ':']);
    assert(":"@ =~= seq![':']);
}

pub proof fn lemma_trim_nothing(s: Seq<char>)
    requires
        forall|i: int| 0 <= i < s.len() ==> !is_space(#[trigger] s[i]),
    ensures
        trim_spec(s) == s,
{
    law_trim(s);
    let t = trim_spec(s);
    let from = choose|from: int|
        {
            &&& 0 <= from
            &&& from + t.len() <= s.len()
            &&& #[trigger] s.subrange(from, from + t.len()) == t
            &&& forall|i: int|
                0 <= i < from || from + t.len() <= i < s.len() ==> is_space(#[trigger] s[i])
        };
    if from > 0 {
        assert(is_space(s[0]));
    }
    if from + t.len() < s.len() {
        assert(is_space(s[from + t.len()]));
    }
    assert(t =~= s);
}

proof fn lemma_no_colon(s: Seq<char>)
    requires
        forall|i: int| 0 <= i < s.len() ==> #[trigger] s[i] != ':',
    ensures
        index_or_len(s, ':') == s.len(),
{
    lemma_index_or_len(s, ':');
}

/// A word of small letters, whatever the case of the tag that gave it.
proof fn lemma_plain_word(tag: Seq<char>, word: Seq<char>)
    requires
        lower_all(tag) == word,
        forall|i: int| 0 <= i < word.len() ==> 'a' <= #[trigger] word[i] <= 'z',
    ensures
        index_or_len(tag, ':') == tag.len(),
        tag.take(tag.len() as int) == tag,
        trim_spec(tag) == tag,
{
    assert forall|i: int| 0 <= i < tag.len() implies #[trigger] tag[i] != ':' && !is_space(
        tag[i],
    ) by {
        assert(lower_all(tag)[i] == lower(tag[i]));
        assert('a' <= word[i] <= 'z');
    }
    lemma_no_colon(tag);
    lemma_trim_nothing(tag);
    assert(tag.take(tag.len() as int) =~= tag);
}

/// A name before a colon.
proof fn lemma_named(tag: Seq<char>, name: Seq<char>)
    requires
        has_prefix(lower_all(tag), name + seq![':']),
        forall|i: int| 0 <= i < name.len() ==> 'a' <= #[trigger] name[i] <= 'z',
    ensures
        index_or_len(tag, ':') == name.len(),
        name.len() < tag.len(),
        trim_spec(tag.take(name.len() as int)) == tag.take(name.len() as int),
        lower_all(tag.take(name.len() as int)) == name,
{
    let n = name.len() as int;
    let low = lower_all(tag);
    let head = tag.take(n);
    let mark = name + seq![':'];
    assert forall|i: int| 0 <= i < n implies #[trigger] tag[i] != ':' && !is_space(tag[i])
        && lower(tag[i]) == name[i] by {
        assert(low.take(n + 1)[i] == mark[i]);
        assert(low[i] == lower(tag[i]));
        assert('a' <= name[i] <= 'z');
    }
    assert(low.take(n + 1)[n] == mark[n]);
    assert(low[n] == lower(tag[n]));
    assert(tag[n] == ':');
    lemma_index_or_len(tag, ':');
    let at = index_or_len(tag, ':');
    if at < n {
        assert(tag[at] == ':');
    }
    if at > n {
        assert(tag[n] != ':');
    }
    assert forall|i: int| 0 <= i < head.len() implies !is_space(#[trigger] head[i]) by {
        assert(head[i] == tag[i]);
    }
    lemma_trim_nothing(head);
    assert(lower_all(head) =~= name);
}

proof fn lemma_tag_label(tag: Seq<char>)
    requires
        tag_token(tag) is Ok,
    ensures
        ({
            let t = tag_token(tag)->Ok_0;
            &&& tag_label(tag) == Ok::<Option<Seq<char>>, Fault>(
                if is_control_token(t) {
                    Some(label_of(t))
                } else {
                    None
                },
            )
            &&& is_control(tag_name(tag)) == is_control_token(t)
            &&& is_control_token(t) ==> tag_name(tag) == name_of(t)
            &&& !(t is Char)
        }),
{
    lemma_reveal_names();
    let low = lower_all(tag);
    if low == "br"@ || low == "wait"@ || low == "end"@ || low == "money"@ {
        assert forall|i: int| 0 <= i < low.len() implies 'a' <= #[trigger] low[i] <= 'z' by {}
        lemma_plain_word(tag, low);
        assert("br"@.len() == 2 && "wait"@.len() == 4 && "end"@.len() == 3 && "money"@.len() == 5);
        assert(low.len() == tag.len());
    } else if has_prefix(low, "flags:"@) {
        assert("flags"@ + seq![':'] =~= "flags:"@);
        lemma_named(tag, "flags"@);
        assert("flags"@.len() == 5);
        assert("flags"@[0] == 'f');
        assert("money"@[0] == 'm');
    } else {
        assert("raw"@ + seq![':'] =~= "raw:"@);
        lemma_named(tag, "raw"@);
        assert("raw"@.len() == 3);
        assert("money"@.len() == 5);
    }
}

proof fn lemma_labels_front(tag: Seq<char>, rest: Seq<Seq<char>>)
    requires
        tag_label(tag) is Ok,
        tag_labels(rest) is Ok,
    ensures
        tag_labels(seq![tag] + rest) == Ok::<Seq<Seq<char>>, Fault>(
            match tag_label(tag)->Ok_0 {
                Some(label) => seq![label] + tag_labels(rest)->Ok_0,
                None => tag_labels(rest)->Ok_0,
            },
        ),
    decreases rest.len(),
{
    let all = seq![tag] + rest;
    if rest.len() == 0 {
        assert(all.drop_last() =~= Seq::empty());
        assert(all.last() == tag);
        let none = Seq::<Seq<char>>::empty();
        assert(tag_labels(all.drop_last()) == Ok::<Seq<Seq<char>>, Fault>(none));
        assert(tag_labels(rest) == Ok::<Seq<Seq<char>>, Fault>(none));
        match tag_label(tag)->Ok_0 {
            Some(label) => {
                assert(none.push(label) =~= seq![label] + none);
                assert(tag_labels(all) == Ok::<Seq<Seq<char>>, Fault>(none.push(label)));
            },
            None => {
                assert(tag_labels(all) == Ok::<Seq<Seq<char>>, Fault>(none));
            },
        }
    } else {
        assert(all.drop_last() =~= seq![tag] + rest.drop_last());
        assert(all.last() == rest.last());
        lemma_labels_front(tag, rest.drop_last());
        assert(tag_label(rest.last()) is Ok);
        match (tag_label(tag)->Ok_0, tag_label(rest.last())->Ok_0) {
            (Some(a), Some(b)) => {
                let mid = tag_labels(rest.drop_last())->Ok_0;
                assert((seq![a] + mid).push(b) =~= seq![a] + mid.push(b));
            },
            _ => {},
        }
    }
}

spec fn labels_of(list: Seq<TextToken>) -> Seq<Seq<char>> {
    Seq::new(list.len(), |i: int| label_of(list[i]))
}

spec fn control_names(tags: Seq<Seq<char>>) -> Seq<Seq<char>>
    decreases tags.len(),
{
    if tags.len() == 0 {
        Seq::empty()
    } else if is_control(tag_name(tags[0])) {
        seq![tag_name(tags[0])] + control_names(tags.drop_first())
    } else {
        control_names(tags.drop_first())
    }
}

spec fn names_of(list: Seq<TextToken>) -> Seq<Seq<char>> {
    Seq::new(list.len(), |i: int| name_of(list[i]))
}

proof fn lemma_controls_push(t: TextToken, rest: Seq<TextToken>)
    ensures
        controls(seq![t] + rest) == if is_control_token(t) {
            seq![t] + controls(rest)
        } else {
            controls(rest)
        },
        labels_of(seq![t] + rest) == seq![label_of(t)] + labels_of(rest),
        names_of(seq![t] + rest) == seq![name_of(t)] + names_of(rest),
{
    let all = seq![t] + rest;
    assert(all.drop_first() =~= rest);
    assert(all[0] == t);
    assert(labels_of(all) =~= seq![label_of(t)] + labels_of(rest));
    assert(names_of(all) =~= seq![name_of(t)] + names_of(rest));
}

proof fn lemma_names_push(tag: Seq<char>, rest: Seq<Seq<char>>)
    ensures
        control_names(seq![tag] + rest) == if is_control(tag_name(tag)) {
            seq![tag_name(tag)] + control_names(rest)
        } else {
            control_names(rest)
        },
{
    let all = seq![tag] + rest;
    assert(all.drop_first() =~= rest);
    assert(all[0] == tag);
}

proof fn lemma_text_labels(s: Seq<char>)
    requires
        tokens_of(s) is Ok,
    ensures
        tag_labels(tags_of(s)) == Ok::<Seq<Seq<char>>, Fault>(
            labels_of(controls(tokens_of(s)->Ok_0)),
        ),
        control_names(tags_of(s)) == names_of(controls(tokens_of(s)->Ok_0)),
    decreases s.len(),
{
    if s.len() == 0 {
        assert(labels_of(Seq::empty()) =~= Seq::empty());
        assert(names_of(Seq::empty()) =~= Seq::empty());
    } else if s[0] == '[' {
        let rest = s.drop_first();
        lemma_index_or_len(rest, ']');
        let tag = rest.take(index_or_len(rest, ']'));
        let next = behind_tag(rest);
        let t = tag_token(tag)->Ok_0;
        let list = tokens_of(next)->Ok_0;
        assert(tokens_of(s)->Ok_0 == seq![t] + list);
        lemma_text_labels(next);
        lemma_tag_label(tag);
        lemma_labels_front(tag, tags_of(next));
        lemma_controls_push(t, list);
        lemma_controls_push(t, controls(list));
        lemma_names_push(tag, tags_of(next));
    } else {
        let list = tokens_of(s.drop_first())->Ok_0;
        lemma_text_labels(s.drop_first());
        lemma_char_pushed(s[0], list);
        assert(tokens_of(s)->Ok_0 == seq![TextToken::Char(s[0])] + list);
    }
}

proof fn lemma_char_pushed(ch: char, list: Seq<TextToken>)
    ensures
        controls(seq![TextToken::Char(ch)] + list) == controls(list),
{
    lemma_controls_push(TextToken::Char(ch), list);
}

proof fn lemma_hex_byte_differs(a: u8, b: u8)
    requires
        lower_hex_byte(a) == lower_hex_byte(b),
    ensures
        a == b,
{
    let x = lower_hex_byte(a);
    let y = lower_hex_byte(b);
    assert(x[0] == lower_digit_char(a as int / 16));
    assert(x[1] == lower_digit_char(a as int % 16));
    assert(y[0] == lower_digit_char(b as int / 16));
    assert(y[1] == lower_digit_char(b as int % 16));
}

proof fn lemma_label_differs(a: TextToken, b: TextToken)
    requires
        is_control_token(a),
        is_control_token(b),
        label_of(a) == label_of(b),
    ensures
        a == b,
{
    lemma_reveal_names();
    let x = label_of(a);
    let y = label_of(b);
    assert("br"@.len() == 2 && "wait"@.len() == 4 && "end"@.len() == 3);
    assert("flags"@.len() == 5 && "raw"@.len() == 3 && ":"@.len() == 1);
    match (a, b) {
        (TextToken::Flags(v), TextToken::Flags(w)) => {
            assert(x.skip(6) =~= lower_hex_byte(v));
            assert(y.skip(6) =~= lower_hex_byte(w));
            lemma_hex_byte_differs(v, w);
        },
        (TextToken::Raw(v), TextToken::Raw(w)) => {
            assert(x.skip(4) =~= lower_hex_byte(v));
            assert(y.skip(4) =~= lower_hex_byte(w));
            lemma_hex_byte_differs(v, w);
        },
        _ => {
            assert(lower_hex_byte(0).len() == 2);
            assert(x.len() == y.len());
        },
    }
}

proof fn lemma_counts_by_name(a: Seq<Seq<char>>, b: Seq<Seq<char>>)
    requires
        control_names(a) == control_names(b),
    ensures
        tag_counts(a) == tag_counts(b),
{
    lemma_counts_of_names(a);
    lemma_counts_of_names(b);
}

spec fn counts_of(names: Seq<Seq<char>>) -> Seq<(Seq<char>, int)>
    decreases names.len(),
{
    if names.len() == 0 {
        Seq::empty()
    } else {
        add_name(counts_of(names.drop_last()), names.last())
    }
}

proof fn lemma_names_back(tags: Seq<Seq<char>>)
    requires
        tags.len() > 0,
    ensures
        control_names(tags) == if is_control(tag_name(tags.last())) {
            control_names(tags.drop_last()).push(tag_name(tags.last()))
        } else {
            control_names(tags.drop_last())
        },
    decreases tags.len(),
{
    if tags.len() == 1 {
        assert(tags.drop_first() =~= Seq::empty());
        assert(tags.drop_last() =~= Seq::empty());
        assert(control_names(tags) =~= if is_control(tag_name(tags.last())) {
            control_names(tags.drop_last()).push(tag_name(tags.last()))
        } else {
            control_names(tags.drop_last())
        });
    } else {
        let rest = tags.drop_first();
        lemma_names_back(rest);
        assert(rest.last() == tags.last());
        assert(rest.drop_last() =~= tags.drop_last().drop_first());
        assert(tags.drop_last()[0] == tags[0]);
        assert(control_names(tags) =~= if is_control(tag_name(tags.last())) {
            control_names(tags.drop_last()).push(tag_name(tags.last()))
        } else {
            control_names(tags.drop_last())
        });
    }
}

proof fn lemma_counts_of_names(tags: Seq<Seq<char>>)
    ensures
        tag_counts(tags) == counts_of(control_names(tags)),
    decreases tags.len(),
{
    if tags.len() > 0 {
        lemma_counts_of_names(tags.drop_last());
        lemma_names_back(tags);
        if is_control(tag_name(tags.last())) {
            let names = control_names(tags.drop_last());
            let now = names.push(tag_name(tags.last()));
            assert(now.drop_last() =~= names);
            assert(now.last() == tag_name(tags.last()));
        }
    }
}

/// A translation keeps the control codes of its source: where both can be read and are not
/// blank, they pass exactly if they have the same line breaks, pauses, ends, flags and raw
/// bytes in the same order, the same operands included. Characters and the currency sign
/// may differ.
pub proof fn law_control_codes_are_kept(id: Seq<char>, jp: Seq<char>, ko: Seq<char>)
    requires
        is_filled(jp),
        is_filled(ko),
        tokens_of(jp) is Ok,
        tokens_of(ko) is Ok,
    ensures
        tags_fault(id, jp, ko) is None <==> controls(tokens_of(jp)->Ok_0) == controls(
            tokens_of(ko)->Ok_0,
        ),
{
    let a = controls(tokens_of(jp)->Ok_0);
    let b = controls(tokens_of(ko)->Ok_0);
    law_trim(jp);
    law_trim(ko);
    lemma_text_labels(jp);
    lemma_text_labels(ko);
    if tags_fault(id, jp, ko) is None {
        assert(labels_of(a) == labels_of(b));
        assert(labels_of(a).len() == a.len());
        assert(labels_of(b).len() == b.len());
        assert forall|i: int| 0 <= i < a.len() implies a[i] == b[i] by {
            assert(labels_of(a)[i] == label_of(a[i]));
            assert(labels_of(b)[i] == label_of(b[i]));
            lemma_controls_only(tokens_of(jp)->Ok_0, i);
            lemma_controls_only(tokens_of(ko)->Ok_0, i);
            lemma_label_differs(a[i], b[i]);
        }
        assert(a =~= b);
    }
    if a == b {
        lemma_counts_by_name(tags_of(jp), tags_of(ko));
    }
}

proof fn lemma_controls_only(tokens: Seq<TextToken>, i: int)
    requires
        0 <= i < controls(tokens).len(),
    ensures
        is_control_token(controls(tokens)[i]),
    decreases tokens.len(),
{
    if tokens.len() > 0 {
        let rest = controls(tokens.drop_first());
        if is_control_token(tokens[0]) {
            if i > 0 {
                lemma_controls_only(tokens.drop_first(), i - 1);
                assert(controls(tokens)[i] == rest[i - 1]);
            }
        } else {
            lemma_controls_only(tokens.drop_first(), i);
        }
    }
}

// ---------------------------------------------------------------------------
// Tags and their counts
// ---------------------------------------------------------------------------

proof fn lemma_no_tags(before: Seq<char>, rest: Seq<char>)
    requires
        forall|i: int| 0 <= i < before.len() ==> #[trigger] before[i] != '[',
    ensures
        tags_of(before + rest) == tags_of(rest),
    decreases before.len(),
{
    let s = before + rest;
    if before.len() > 0 {
        let tail = before.drop_first();
        assert forall|i: int| 0 <= i < tail.len() implies #[trigger] tail[i] != '[' by {
            assert(tail[i] == before[i + 1]);
        }
        lemma_no_tags(tail, rest);
        assert(s.drop_first() =~= tail + rest);
        assert(s[0] == before[0]);
    } else {
        assert(s =~= rest);
    }
}

/// The tags of a text are what stands between brackets, in order; the last one may lack its
/// closing bracket.
pub proof fn law_tags_between_brackets(before: Seq<char>, tag: Seq<char>, rest: Seq<char>)
    requires
        forall|i: int| 0 <= i < before.len() ==> #[trigger] before[i] != '[',
        forall|i: int| 0 <= i < tag.len() ==> #[trigger] tag[i] != ']',
    ensures
        tags_of(before) == Seq::<Seq<char>>::empty(),
        tags_of(before + (seq!['['] + tag + seq![']'] + rest)) == seq![tag] + tags_of(rest),
        tags_of(before + (seq!['['] + tag)) == seq![tag],
{
    let none = Seq::<char>::empty();
    assert(before + none =~= before);
    lemma_no_tags(before, none);
    assert(tags_of(none) =~= Seq::<Seq<char>>::empty());
    let closed = seq!['['] + tag + seq![']'] + rest;
    lemma_no_tags(before, closed);
    let inner = closed.drop_first();
    assert(inner =~= tag + seq![']'] + rest);
    lemma_index_or_len(inner, ']');
    assert(inner[tag.len() as int] == ']');
    assert forall|i: int| 0 <= i < tag.len() implies inner[i] != ']' by {
        assert(inner[i] == tag[i]);
    }
    assert(index_or_len(inner, ']') == tag.len());
    assert(inner.take(tag.len() as int) =~= tag);
    assert(behind_tag(inner) =~= rest);
    let open = seq!['['] + tag;
    lemma_no_tags(before, open);
    assert(open.drop_first() =~= tag);
    lemma_index_or_len(tag, ']');
    assert(index_or_len(tag, ']') == tag.len());
    assert(tag.take(tag.len() as int) =~= tag);
    assert(behind_tag(tag) =~= none);
    assert(tags_of(open) =~= seq![tag]);
}

/// The number that a list of counts has for a name; zero where it has none.
pub open spec fn count_in(list: Seq<(Seq<char>, int)>, name: Seq<char>) -> int
    decreases list.len(),
{
    if list.len() == 0 {
        0
    } else if list[0].0 == name {
        list[0].1
    } else {
        count_in(list.drop_first(), name)
    }
}

/// Whether names are listed in order, each once.
pub open spec fn is_sorted(list: Seq<(Seq<char>, int)>) -> bool {
    forall|i: int, j: int|
        0 <= i < j < list.len() ==> comes_before((#[trigger] list[i]).0, (#[trigger] list[j]).0)
}

proof fn lemma_not_listed(list: Seq<(Seq<char>, int)>, name: Seq<char>)
    requires
        forall|i: int| 0 <= i < list.len() ==> (#[trigger] list[i]).0 != name,
    ensures
        count_in(list, name) == 0,
    decreases list.len(),
{
    if list.len() > 0 {
        let tail = list.drop_first();
        assert forall|i: int| 0 <= i < tail.len() implies (#[trigger] tail[i]).0 != name by {
            assert(tail[i] == list[i + 1]);
        }
        lemma_not_listed(tail, name);
        assert(list[0].0 != name);
    }
}

proof fn lemma_add_name(list: Seq<(Seq<char>, int)>, name: Seq<char>, x: Seq<char>)
    requires
        is_sorted(list),
    ensures
        is_sorted(add_name(list, name)),
        count_in(add_name(list, name), x) == count_in(list, x) + if x == name {
            1int
        } else {
            0
        },
        forall|k: int|
            0 <= k < add_name(list, name).len() ==> (#[trigger] add_name(list, name)[k]).0 == name
                || exists|i: int|
                0 <= i < list.len() && (#[trigger] list[i]).0 == add_name(list, name)[k].0,
    decreases list.len(),
{
    let all = add_name(list, name);
    if list.len() == 0 {
        assert(all.drop_first() =~= Seq::empty());
        assert(count_in(all.drop_first(), x) == 0);
    } else if name == list[0].0 {
        assert forall|i: int| 0 <= i < list.len() implies (#[trigger] all[i]).0 == list[i].0 by {}
        assert forall|i: int, j: int| 0 <= i < j < all.len() implies comes_before(
            (#[trigger] all[i]).0,
            (#[trigger] all[j]).0,
        ) by {
            assert(comes_before(list[i].0, list[j].0));
        }
        assert(all.drop_first() =~= list.drop_first());
        assert forall|k: int| 0 <= k < all.len() implies (#[trigger] all[k]).0 == name || exists|
            i: int,
        |
            0 <= i < list.len() && (#[trigger] list[i]).0 == all[k].0 by {
            assert(list[k].0 == all[k].0);
        }
    } else if comes_before(name, list[0].0) {
        assert(all.drop_first() =~= list);
        assert forall|i: int| 0 <= i < list.len() implies comes_before(
            name,
            (#[trigger] list[i]).0,
        ) by {
            if i > 0 {
                law_text_order_is_transitive(name, list[0].0, list[i].0);
            }
        }
        assert forall|i: int, j: int| 0 <= i < j < all.len() implies comes_before(
            (#[trigger] all[i]).0,
            (#[trigger] all[j]).0,
        ) by {
            assert(all[j] == list[j - 1]);
            if i > 0 {
                assert(all[i] == list[i - 1]);
            }
        }
        assert forall|i: int| 0 <= i < list.len() implies (#[trigger] list[i]).0 != name by {
            lemma_not_before_itself(name);
        }
        lemma_not_listed(list, name);
        assert forall|k: int| 0 <= k < all.len() implies (#[trigger] all[k]).0 == name || exists|
            i: int,
        |
            0 <= i < list.len() && (#[trigger] list[i]).0 == all[k].0 by {
            if k > 0 {
                assert(list[k - 1].0 == all[k].0);
            }
        }
    } else {
        let tail = list.drop_first();
        let inner = add_name(tail, name);
        assert forall|i: int, j: int| 0 <= i < j < tail.len() implies comes_before(
            (#[trigger] tail[i]).0,
            (#[trigger] tail[j]).0,
        ) by {
            assert(tail[i] == list[i + 1]);
            assert(tail[j] == list[j + 1]);
        }
        lemma_add_name(tail, name, x);
        law_text_order_is_total(name, list[0].0);
        assert(all.drop_first() =~= inner);
        assert forall|k: int| 0 <= k < inner.len() implies comes_before(
            list[0].0,
            (#[trigger] inner[k]).0,
        ) by {
            if inner[k].0 != name {
                let i = choose|i: int| 0 <= i < tail.len() && (#[trigger] tail[i]).0 == inner[k].0;
                assert(tail[i] == list[i + 1]);
            }
        }
        assert forall|i: int, j: int| 0 <= i < j < all.len() implies comes_before(
            (#[trigger] all[i]).0,
            (#[trigger] all[j]).0,
        ) by {
            assert(all[j] == inner[j - 1]);
            if i > 0 {
                assert(all[i] == inner[i - 1]);
            }
        }
        assert forall|k: int| 0 <= k < all.len() implies (#[trigger] all[k]).0 == name || exists|
            i: int,
        |
            0 <= i < list.len() && (#[trigger] list[i]).0 == all[k].0 by {
            if k == 0 {
                assert(list[0].0 == all[k].0);
            } else {
                assert(all[k] == inner[k - 1]);
                if inner[k - 1].0 != name {
                    let i = choose|i: int|
                        0 <= i < tail.len() && (#[trigger] tail[i]).0 == inner[k - 1].0;
                    assert(list[i + 1].0 == all[k].0);
                }
            }
        }
    }
}

proof fn lemma_not_before_itself(a: Seq<char>)
    ensures
        !comes_before(a, a),
    decreases a.len(),
{
    if a.len() > 0 {
        lemma_not_before_itself(a.drop_first());
    }
}

/// The tags with a name, which stands before their colon; capitals do not matter.
pub open spec fn tags_named(tags: Seq<Seq<char>>, name: Seq<char>) -> Set<int> {
    Set::new(
        |i: int|
            0 <= i < tags.len() && lower_all(tags[i].take(index_or_len(tags[i], ':'))) == name,
    )
}

/// Tags are counted by their names, which are listed in order. The currency sign and tags
/// without a name are not counted.
pub proof fn law_tag_counts(tags: Seq<Seq<char>>, name: Seq<char>)
    ensures
        is_sorted(tag_counts(tags)),
        tags_named(tags, name).finite(),
        name.len() > 0 && name != "money"@ ==> count_in(tag_counts(tags), name) == tags_named(
            tags,
            name,
        ).len(),
        name.len() == 0 || name == "money"@ ==> count_in(tag_counts(tags), name) == 0,
    decreases tags.len(),
{
    let all = tags_named(tags, name);
    if tags.len() == 0 {
        assert(all =~= Set::empty());
    } else {
        let front = tags.drop_last();
        let last = tag_name(tags.last());
        law_tag_counts(front, name);
        lemma_add_name(tag_counts(front), last, name);
        if last == name {
            assert(all =~= tags_named(front, name).insert(tags.len() - 1));
        } else {
            assert(all =~= tags_named(front, name));
        }
    }
}

/// Each item of a list with its number.
pub open spec fn numbered(shown: Seq<Seq<char>>, counts: Seq<int>, n: int) -> Seq<Seq<char>> {
    Seq::new(n as nat, |i: int| shown[i] + ": "@ + dec(counts[i]))
}

/// Counts are written out as items with their numbers, with commas between.
pub proof fn law_written_counts(shown: Seq<Seq<char>>, counts: Seq<int>, n: int)
    requires
        0 <= n,
    ensures
        counted(shown, counts, n) == joined(numbered(shown, counts, n), ", "@),
    decreases n,
{
    let all = numbered(shown, counts, n);
    if n > 1 {
        law_written_counts(shown, counts, n - 1);
        assert(all.drop_last() =~= numbered(shown, counts, n - 1));
        let rest = joined(all.drop_last(), ", "@);
        assert(joined(all, ", "@) == rest + ", "@ + all.last());
        assert(all.last() == shown[n - 1] + ": "@ + dec(counts[n - 1]));
        assert(counted(shown, counts, n) =~= rest + ", "@ + all.last());
    } else if n == 1 {
        assert(all[0] == shown[0] + ": "@ + dec(counts[0]));
    }
}

} // verus!
