//! What holds of a shop text that passes, and of the order of glyphs.
use vstd::prelude::*;
use crate::ko_text::{
    all_tokens, behind_tag, char_count, drawn_marks, is_glyph_order, is_hangul, tag_token,
    tokens_of, TextToken,
};
use crate::parse::{index_or_len, lemma_index_or_len};
use crate::shop_layout::{
    blanks_from, layout_after, money_fault, positions, shop_bytes_fault, shop_fault, widths_fault,
};
use crate::term_laws::is_visible;
use crate::text_laws::needs_glyph;

verus! {

// ---------------------------------------------------------------------------
// Bytes of a shop text
// ---------------------------------------------------------------------------

proof fn lemma_positions(bytes: Seq<u8>, needle: u8, n: int, i: int)
    requires
        0 <= n <= bytes.len(),
    ensures
        positions(bytes, needle, n).contains(i) <==> 0 <= i < n && bytes[i] == needle,
    decreases n,
{
    if n > 0 {
        let front = positions(bytes, needle, n - 1);
        let all = positions(bytes, needle, n);
        lemma_positions(bytes, needle, n - 1, i);
        if front.contains(i) {
            let p = choose|p: int| 0 <= p < front.len() && front[p] == i;
            assert(all[p] == i);
        }
        if bytes[n - 1] == needle {
            assert(all[front.len() as int] == n - 1);
        }
        if all.contains(i) {
            let p = choose|p: int| 0 <= p < all.len() && all[p] == i;
            if p < front.len() {
                assert(front[p] == i);
            }
        }
    }
}

proof fn lemma_blanks(bytes: Seq<u8>, at: int, d: int)
    requires
        0 <= at,
        0 <= d,
    ensures
        d <= blanks_from(bytes, at) <==> at + d <= bytes.len() && (forall|i: int|
            at <= i < at + d ==> #[trigger] bytes[i] == 0x01) || d == 0,
        0 <= blanks_from(bytes, at),
    decreases d,
{
    if d > 0 {
        if at < bytes.len() && bytes[at] == 0x01 {
            lemma_blanks(bytes, at + 1, d - 1);
            lemma_blanks_least(bytes, at + 1);
            if d <= blanks_from(bytes, at) {
                assert forall|i: int| at <= i < at + d implies #[trigger] bytes[i] == 0x01 by {
                    if i > at {
                        assert(d - 1 <= blanks_from(bytes, at + 1));
                    }
                }
            }
        } else {
            lemma_blanks_least(bytes, at);
        }
    } else {
        lemma_blanks_least(bytes, at);
    }
}

proof fn lemma_blanks_least(bytes: Seq<u8>, at: int)
    ensures
        0 <= blanks_from(bytes, at),
    decreases bytes.len() - at,
{
    if !(at < 0 || at >= bytes.len() || bytes[at] != 0x01) {
        lemma_blanks_least(bytes, at + 1);
    }
}

/// Whether bytes hold the currency sign exactly once, at a given place.
pub open spec fn only_money_at(bytes: Seq<u8>, p: int) -> bool {
    &&& 0 <= p < bytes.len()
    &&& bytes[p] == 0x0C
    &&& forall|i: int| 0 <= i < bytes.len() && i != p ==> #[trigger] bytes[i] != 0x0C
}

/// Whether so many blanks stand from a place on.
pub open spec fn blanks_stand(bytes: Seq<u8>, at: int, d: int) -> bool {
    at + d <= bytes.len() && forall|i: int| at <= i < at + d ==> #[trigger] bytes[i] == 0x01
}

/// A shop text that passes has the length of its source, the currency sign exactly once,
/// as the source has it, and behind it as many blanks for the price as the source has.
pub proof fn law_price_keeps_its_room(
    id: Seq<char>,
    raw: Seq<u8>,
    encoded: Seq<u8>,
    len: int,
    d: int,
)
    requires
        shop_bytes_fault(id, raw, encoded, len) is None,
        0 < d,
    ensures
        raw.len() == len,
        encoded.len() == len,
        exists|p: int, q: int|
            #![trigger only_money_at(encoded, p), only_money_at(raw, q)]
            only_money_at(encoded, p) && only_money_at(raw, q) && (blanks_stand(encoded, p + 1, d)
                <==> blanks_stand(raw, q + 1, d)),
{
    let ps = positions(encoded, 0x0C, encoded.len() as int);
    let qs = positions(raw, 0x0C, raw.len() as int);
    let p = ps[0];
    let q = qs[0];
    assert(ps.contains(p) && qs.contains(q));
    lemma_positions(encoded, 0x0C, encoded.len() as int, p);
    lemma_positions(raw, 0x0C, raw.len() as int, q);
    assert forall|i: int| 0 <= i < encoded.len() && i != p implies #[trigger] encoded[i] != 0x0C by {
        lemma_positions(encoded, 0x0C, encoded.len() as int, i);
    }
    assert forall|i: int| 0 <= i < raw.len() && i != q implies #[trigger] raw[i] != 0x0C by {
        lemma_positions(raw, 0x0C, raw.len() as int, i);
    }
    assert(only_money_at(encoded, p));
    assert(only_money_at(raw, q));
    lemma_blanks(encoded, p + 1, d);
    lemma_blanks(raw, q + 1, d);
}

// ---------------------------------------------------------------------------
// Lines of a shop text
// ---------------------------------------------------------------------------

/// How many line breaks stand among the first `n` tokens.
pub open spec fn line_of(tokens: Seq<TextToken>, n: int) -> int
    decreases n,
{
    if n <= 0 {
        0
    } else {
        line_of(tokens, n - 1) + if tokens[n - 1] is Br {
            1int
        } else {
            0
        }
    }
}

/// How many characters stand behind the last line break among the first `n` tokens. Flags,
/// pauses and ends take no room.
pub open spec fn column_of(tokens: Seq<TextToken>, n: int) -> int
    decreases n,
{
    if n <= 0 {
        0
    } else if tokens[n - 1] is Br {
        0
    } else {
        column_of(tokens, n - 1) + if tokens[n - 1] is Char || tokens[n - 1] is Money
            || tokens[n - 1] is Raw {
            1int
        } else {
            0
        }
    }
}

/// How many ends stand among the first `n` tokens.
pub open spec fn ends_of(tokens: Seq<TextToken>, n: int) -> int
    decreases n,
{
    if n <= 0 {
        0
    } else {
        ends_of(tokens, n - 1) + if tokens[n - 1] is End {
            1int
        } else {
            0
        }
    }
}

/// Whether a token shows the currency sign: by its tag or by its character.
pub open spec fn shows_money(t: TextToken) -> bool {
    t is Money || (t is Char && t->Char_0 as int == 0x91D1)
}

/// The layout of a shop text: one line more than there are line breaks, the width of each
/// line as far as its break, and the place of every currency sign, in order.
pub proof fn law_shop_layout(tokens: Seq<TextToken>, n: int, k: int)
    requires
        0 <= n <= tokens.len(),
    ensures
        ({
            let l = layout_after(tokens, n);
            &&& l.widths.len() == line_of(tokens, n) + 1
            &&& l.column == column_of(tokens, n)
            &&& l.widths.last() == column_of(tokens, n)
            &&& l.ends == ends_of(tokens, n)
            &&& 0 <= k < n && tokens[k] is Br ==> 0 <= line_of(tokens, k) < l.widths.len()
                && l.widths[line_of(tokens, k)] == column_of(tokens, k)
            &&& 0 <= k < n && shows_money(tokens[k]) ==> l.money.contains(
                (line_of(tokens, k), column_of(tokens, k)),
            )
            &&& 0 <= line_of(tokens, n)
        }),
    decreases n,
{
    if n > 0 {
        law_shop_layout(tokens, n - 1, k);
        let before = layout_after(tokens, n - 1);
        let l = layout_after(tokens, n);
        if 0 <= k < n - 1 && shows_money(tokens[k]) {
            let place = (line_of(tokens, k), column_of(tokens, k));
            let m = choose|m: int| 0 <= m < before.money.len() && before.money[m] == place;
            assert(l.money[m] == place);
        }
        if 0 <= k < n - 1 && tokens[k] is Br {
            lemma_line_grows(tokens, k, n - 1);
        }
        if k == n - 1 && shows_money(tokens[k]) {
            assert(l.money[before.money.len() as int] == (
                line_of(tokens, k),
                column_of(tokens, k),
            ));
        }
    }
}

proof fn lemma_line_grows(tokens: Seq<TextToken>, k: int, n: int)
    requires
        0 <= k < n <= tokens.len(),
        tokens[k] is Br,
    ensures
        0 <= line_of(tokens, k) < line_of(tokens, n),
    decreases n,
{
    if k < n - 1 {
        lemma_line_grows(tokens, k, n - 1);
    } else {
        lemma_line_least(tokens, k);
    }
}

proof fn lemma_line_least(tokens: Seq<TextToken>, n: int)
    ensures
        0 <= line_of(tokens, n),
    decreases n,
{
    if n > 0 {
        lemma_line_least(tokens, n - 1);
    }
}

proof fn lemma_money_kept(id: Seq<char>, raw: Seq<(int, int)>, now: Seq<(int, int)>, n: int, m: int)
    requires
        0 <= m < n,
        money_fault(id, raw, now, n) is None,
    ensures
        now[m].0 == raw[m].0,
        now[m].1 <= raw[m].1,
    decreases n,
{
    if m < n - 1 {
        lemma_money_kept(id, raw, now, n - 1, m);
    }
}

proof fn lemma_widths_kept(id: Seq<char>, raw: Seq<int>, now: Seq<int>, n: int, m: int)
    requires
        0 <= m < n,
        widths_fault(id, raw, now, n) is None,
    ensures
        now[m] <= raw[m],
    decreases n,
{
    if m < n - 1 {
        lemma_widths_kept(id, raw, now, n - 1, m);
    }
}

/// A shop text that passes has one end, as its source has, as many lines, none of them
/// wider, and as many currency signs, each on its old line and no further to the right.
pub proof fn law_passed_shop_text(
    id: Seq<char>,
    raw_text: Seq<char>,
    translated: Seq<char>,
    raw: Seq<u8>,
    encoded: Seq<u8>,
    len: int,
    m: int,
)
    requires
        shop_fault(id, raw_text, translated, raw, encoded, len) is None,
    ensures
        tokens_of(raw_text) is Ok,
        tokens_of(translated) is Ok,
        ({
            let a = tokens_of(raw_text)->Ok_0;
            let b = tokens_of(translated)->Ok_0;
            let was = layout_after(a, a.len() as int);
            let now = layout_after(b, b.len() as int);
            &&& ends_of(a, a.len() as int) == 1
            &&& ends_of(b, b.len() as int) == 1
            &&& line_of(a, a.len() as int) == line_of(b, b.len() as int)
            &&& 0 <= m < was.widths.len() ==> now.widths[m] <= was.widths[m]
            &&& was.money.len() == now.money.len()
            &&& 0 <= m < was.money.len() ==> now.money[m].0 == was.money[m].0 && now.money[m].1
                <= was.money[m].1
            &&& shop_bytes_fault(id, raw, encoded, len) is None
        }),
{
    let a = tokens_of(raw_text)->Ok_0;
    let b = tokens_of(translated)->Ok_0;
    law_shop_layout(a, a.len() as int, 0);
    law_shop_layout(b, b.len() as int, 0);
    let was = layout_after(a, a.len() as int);
    let now = layout_after(b, b.len() as int);
    if 0 <= m < was.money.len() {
        lemma_money_kept(id, was.money, now.money, was.money.len() as int, m);
    }
    if 0 <= m < was.widths.len() {
        lemma_widths_kept(id, was.widths, now.widths, was.widths.len() as int, m);
    }
}

// ---------------------------------------------------------------------------
// The order of glyphs
// ---------------------------------------------------------------------------

/// In the order of glyphs the Korean syllables come first, the more frequent ones before
/// the rarer ones, and no syllable comes twice.
pub proof fn law_frequent_glyphs_first(tokens: Seq<TextToken>, order: Seq<char>, i: int, j: int)
    requires
        is_glyph_order(tokens, order),
        0 <= i < j < order.len(),
    ensures
        order[i] != order[j],
        needs_glyph(order[i]) && needs_glyph(order[j]),
        is_hangul(order[j]) ==> is_hangul(order[i]) && char_count(tokens, order[i]) >= char_count(
            tokens,
            order[j],
        ),
{
    let marks = drawn_marks(tokens);
    let n = order.len() - marks.len();
    if j >= n {
        assert(order.skip(n)[j - n] == order[j]);
        assert(order[j] == ',' || order[j] == '~');
        if i >= n {
            assert(order.skip(n)[i - n] == order[i]);
        }
    } else {
        assert(crate::ko_text::ranks_before(tokens, order[i], order[j]));
    }
}

proof fn lemma_visible_token(s: Seq<char>, i: int)
    requires
        is_visible(s, i),
        tokens_of(s) is Ok,
    ensures
        tokens_of(s)->Ok_0.contains(TextToken::Char(s[i])),
    decreases s.len(),
{
    let all = tokens_of(s)->Ok_0;
    if s[0] == '[' {
        let rest = s.drop_first();
        lemma_index_or_len(rest, ']');
        let end = index_or_len(rest, ']');
        let k = choose|k: int| 0 < k < i && #[trigger] s[k] == ']';
        assert(rest[k - 1] == ']');
        assert(end <= k - 1);
        let next = behind_tag(rest);
        let n = end + 2;
        assert(next =~= s.skip(n));
        assert forall|j: int| 0 <= j < i - n && #[trigger] next[j] == '[' implies exists|m: int|
            j < m < i - n && #[trigger] next[m] == ']' by {
            assert(s[j + n] == '[');
            let m = choose|m: int| j + n < m < i && #[trigger] s[m] == ']';
            assert(next[m - n] == ']');
        }
        assert(next[i - n] == s[i]);
        assert(is_visible(next, i - n));
        lemma_visible_token(next, i - n);
        let t = tag_token(rest.take(end))->Ok_0;
        let list = tokens_of(next)->Ok_0;
        assert(all == seq![t] + list);
        let p = choose|p: int| 0 <= p < list.len() && list[p] == TextToken::Char(s[i]);
        assert(all[p + 1] == list[p]);
    } else {
        let rest = s.drop_first();
        let list = tokens_of(rest)->Ok_0;
        assert(all == seq![TextToken::Char(s[0])] + list);
        if i == 0 {
            lemma_first_token(s[0], list);
            assert(all[0] == TextToken::Char(s[0]));
        } else {
            assert forall|j: int| 0 <= j < i - 1 && #[trigger] rest[j] == '[' implies exists|m: int|
                j < m < i - 1 && #[trigger] rest[m] == ']' by {
                assert(s[j + 1] == '[');
                let m = choose|m: int| j + 1 < m < i && #[trigger] s[m] == ']';
                assert(rest[m - 1] == ']');
            }
            assert(rest[i - 1] == s[i]);
            assert(is_visible(rest, i - 1));
            lemma_visible_token(rest, i - 1);
            let p = choose|p: int| 0 <= p < list.len() && list[p] == TextToken::Char(s[i]);
            lemma_later_token(s[0], list, p);
            assert(all[p + 1] == list[p]);
        }
    }
}

proof fn lemma_first_token(ch: char, list: Seq<TextToken>)
    ensures
        (seq![TextToken::Char(ch)] + list).len() == list.len() + 1,
        (seq![TextToken::Char(ch)] + list)[0] == TextToken::Char(ch),
{
}

proof fn lemma_later_token(ch: char, list: Seq<TextToken>, p: int)
    requires
        0 <= p < list.len(),
    ensures
        (seq![TextToken::Char(ch)] + list).len() == list.len() + 1,
        (seq![TextToken::Char(ch)] + list)[p + 1] == list[p],
{
}

proof fn lemma_counted(tokens: Seq<TextToken>, ch: char)
    requires
        tokens.contains(TextToken::Char(ch)),
    ensures
        char_count(tokens, ch) > 0,
    decreases tokens.len(),
{
    let p = choose|p: int| 0 <= p < tokens.len() && tokens[p] == TextToken::Char(ch);
    let front = tokens.drop_last();
    lemma_count_least(front, ch);
    if p < front.len() {
        assert(front[p] == TextToken::Char(ch));
        lemma_counted(front, ch);
    }
}

proof fn lemma_count_least(tokens: Seq<TextToken>, ch: char)
    ensures
        char_count(tokens, ch) >= 0,
    decreases tokens.len(),
{
    if tokens.len() > 0 {
        lemma_count_least(tokens.drop_last(), ch);
    }
}

proof fn lemma_among_all(texts: Seq<Seq<char>>, k: int, t: TextToken)
    requires
        all_tokens(texts) is Ok,
        0 <= k < texts.len(),
        tokens_of(texts[k]) is Ok ==> tokens_of(texts[k])->Ok_0.contains(t),
    ensures
        tokens_of(texts[k]) is Ok,
        all_tokens(texts)->Ok_0.contains(t),
    decreases texts.len(),
{
    let front = all_tokens(texts.drop_last())->Ok_0;
    let own = tokens_of(texts.last())->Ok_0;
    let all = all_tokens(texts)->Ok_0;
    assert(all == front + own);
    if k == texts.len() - 1 {
        let p = choose|p: int| 0 <= p < own.len() && own[p] == t;
        assert(all[front.len() + p] == t);
    } else {
        assert(texts.drop_last()[k] == texts[k]);
        lemma_among_all(texts.drop_last(), k, t);
        let p = choose|p: int| 0 <= p < front.len() && front[p] == t;
        assert(all[p] == t);
    }
}

proof fn lemma_all_tokens_each(texts: Seq<Seq<char>>, k: int)
    requires
        all_tokens(texts) is Ok,
        0 <= k < texts.len(),
    ensures
        tokens_of(texts[k]) is Ok,
    decreases texts.len(),
{
    if k < texts.len() - 1 {
        assert(texts.drop_last()[k] == texts[k]);
        lemma_all_tokens_each(texts.drop_last(), k);
    }
}

/// Every visible character of every text that needs a glyph has one in the order.
pub proof fn law_every_text_has_its_glyphs(
    texts: Seq<Seq<char>>,
    order: Seq<char>,
    k: int,
    i: int,
)
    requires
        all_tokens(texts) is Ok,
        is_glyph_order(all_tokens(texts)->Ok_0, order),
        0 <= k < texts.len(),
        is_visible(texts[k], i),
        needs_glyph(texts[k][i]),
    ensures
        order.contains(texts[k][i]),
{
    let tokens = all_tokens(texts)->Ok_0;
    let ch = texts[k][i];
    lemma_all_tokens_each(texts, k);
    lemma_visible_token(texts[k], i);
    lemma_among_all(texts, k, TextToken::Char(ch));
    lemma_counted(tokens, ch);
    crate::ko_text::law_own_glyphs_suffice(tokens, order, ch);
    crate::ko_text::lemma_rank_of(order, ch);
    let r = crate::ko_text::rank_of(order, ch)->0;
    assert(order[r] == ch);
}

// ---------------------------------------------------------------------------
// What is not refused
// ---------------------------------------------------------------------------

proof fn lemma_only_position(bytes: Seq<u8>, p: int, n: int)
    requires
        only_money_at(bytes, p),
        0 <= n <= bytes.len(),
    ensures
        positions(bytes, 0x0C, n) == if n > p {
            seq![p]
        } else {
            Seq::empty()
        },
    decreases n,
{
    if n > 0 {
        lemma_only_position(bytes, p, n - 1);
        if n - 1 == p {
            assert(positions(bytes, 0x0C, n) =~= seq![p]);
        } else {
            assert(bytes[n - 1] != 0x0C);
        }
    }
}

proof fn lemma_same_blanks(a: Seq<u8>, b: Seq<u8>, p: int, q: int)
    requires
        0 <= p,
        0 <= q,
        forall|d: int| 0 < d ==> (#[trigger] blanks_stand(a, p, d) ==> blanks_stand(b, q, d)),
    ensures
        blanks_from(a, p) <= blanks_from(b, q),
{
    let d = blanks_from(a, p);
    lemma_blanks_least(a, p);
    lemma_blanks_least(b, q);
    if d > 0 {
        lemma_blanks(a, p, d);
        assert(blanks_stand(a, p, d));
        lemma_blanks(b, q, d);
    }
}

/// The bytes of a shop text are not refused where they have the length of the source, the
/// currency sign once, as the source has it, and as many blanks behind it.
pub proof fn law_accepted_shop_bytes(
    id: Seq<char>,
    raw: Seq<u8>,
    encoded: Seq<u8>,
    len: int,
    p: int,
    q: int,
)
    requires
        raw.len() == len,
        encoded.len() == len,
        only_money_at(encoded, p),
        only_money_at(raw, q),
        forall|d: int|
            0 < d ==> (#[trigger] blanks_stand(encoded, p + 1, d) <==> blanks_stand(raw, q + 1, d)),
    ensures
        shop_bytes_fault(id, raw, encoded, len) is None,
{
    lemma_only_position(encoded, p, len);
    lemma_only_position(raw, q, len);
    lemma_same_blanks(encoded, raw, p + 1, q + 1);
    assert forall|d: int| 0 < d implies (#[trigger] blanks_stand(raw, q + 1, d) ==> blanks_stand(
        encoded,
        p + 1,
        d,
    )) by {
        assert(blanks_stand(encoded, p + 1, d) <==> blanks_stand(raw, q + 1, d));
    }
    lemma_same_blanks(raw, encoded, q + 1, p + 1);
}

proof fn lemma_money_may_stay(id: Seq<char>, raw: Seq<(int, int)>, now: Seq<(int, int)>, n: int)
    requires
        0 <= n <= raw.len(),
        forall|m: int|
            0 <= m < n ==> now[m].0 == (#[trigger] raw[m]).0 && now[m].1 <= raw[m].1,
    ensures
        money_fault(id, raw, now, n) is None,
    decreases n,
{
    if n > 0 {
        lemma_money_may_stay(id, raw, now, n - 1);
        assert(now[n - 1].0 == raw[n - 1].0);
    }
}

proof fn lemma_widths_may_stay(id: Seq<char>, raw: Seq<int>, now: Seq<int>, n: int)
    requires
        0 <= n <= raw.len(),
        forall|m: int| 0 <= m < n ==> now[m] <= #[trigger] raw[m],
    ensures
        widths_fault(id, raw, now, n) is None,
    decreases n,
{
    if n > 0 {
        lemma_widths_may_stay(id, raw, now, n - 1);
        assert(now[n - 1] <= raw[n - 1]);
    }
}

/// A shop text is not refused where its bytes are not, both texts have one end and as many
/// lines, no line is wider than it was, and there are as many currency signs, each on its
/// old line and no further to the right.
pub proof fn law_accepted_shop_text(
    id: Seq<char>,
    raw_text: Seq<char>,
    translated: Seq<char>,
    raw: Seq<u8>,
    encoded: Seq<u8>,
    len: int,
)
    requires
        shop_bytes_fault(id, raw, encoded, len) is None,
        tokens_of(raw_text) is Ok,
        tokens_of(translated) is Ok,
        ({
            let a = tokens_of(raw_text)->Ok_0;
            let b = tokens_of(translated)->Ok_0;
            let was = layout_after(a, a.len() as int);
            let now = layout_after(b, b.len() as int);
            &&& ends_of(a, a.len() as int) == 1
            &&& ends_of(b, b.len() as int) == 1
            &&& line_of(a, a.len() as int) == line_of(b, b.len() as int)
            &&& was.money.len() == now.money.len()
            &&& forall|m: int|
                0 <= m < was.widths.len() ==> now.widths[m] <= #[trigger] was.widths[m]
            &&& forall|m: int|
                0 <= m < was.money.len() ==> now.money[m].0 == (#[trigger] was.money[m]).0
                    && now.money[m].1 <= was.money[m].1
        }),
    ensures
        shop_fault(id, raw_text, translated, raw, encoded, len) is None,
{
    let a = tokens_of(raw_text)->Ok_0;
    let b = tokens_of(translated)->Ok_0;
    law_shop_layout(a, a.len() as int, 0);
    law_shop_layout(b, b.len() as int, 0);
    let was = layout_after(a, a.len() as int);
    let now = layout_after(b, b.len() as int);
    lemma_money_may_stay(id, was.money, now.money, was.money.len() as int);
    lemma_widths_may_stay(id, was.widths, now.widths, was.widths.len() as int);
}

/// Syllables that are as frequent as one another stand in the order of their code points,
/// and the drawn marks stand behind all syllables, the comma before the tilde.
pub proof fn law_glyph_ties(tokens: Seq<TextToken>, order: Seq<char>, i: int, j: int)
    requires
        is_glyph_order(tokens, order),
        0 <= i < j < order.len(),
    ensures
        is_hangul(order[i]) && is_hangul(order[j]) && char_count(tokens, order[i]) == char_count(
            tokens,
            order[j],
        ) ==> (order[i] as int) < (order[j] as int),
        !is_hangul(order[i]) ==> order[i] == ',' && order[j] == '~',
{
    let marks = drawn_marks(tokens);
    let n = order.len() - marks.len();
    if j >= n {
        assert(order.skip(n)[j - n] == order[j]);
        if i >= n {
            assert(order.skip(n)[i - n] == order[i]);
        }
    } else {
        assert(crate::ko_text::ranks_before(tokens, order[i], order[j]));
    }
}

} // verus!
