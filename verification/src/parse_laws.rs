//! What reading and comparing texts means.
use vstd::prelude::*;
use crate::error::{plain, Fault};
use crate::number_laws::{law_dec_denotes, law_hex_denotes};
use crate::parse::{
    byte_len, char_width, digit_value, digits_fault, has_prefix, index_or_len, is_space, joined,
    lead, lemma_index_or_len, lemma_lead_bounds, lower, lower_all, numeral, split_spec, strip_all,
    trim_start_spec, uint_read, uint_value, words_spec,
};
use crate::tags::comes_before;
use crate::text::{dec, hex};

verus! {

// ---------------------------------------------------------------------------
// Words
// ---------------------------------------------------------------------------

proof fn lemma_lead_word(w: Seq<char>, rest: Seq<char>)
    requires
        forall|i: int| 0 <= i < w.len() ==> !is_space(#[trigger] w[i]),
        rest.len() == 0 || is_space(rest[0]),
    ensures
        lead(w + rest, false) == w.len(),
    decreases w.len(),
{
    let s = w + rest;
    if w.len() > 0 {
        assert(s[0] == w[0]);
        let tail = w.drop_first();
        assert forall|i: int| 0 <= i < tail.len() implies !is_space(#[trigger] tail[i]) by {
            assert(tail[i] == w[i + 1]);
        }
        lemma_lead_word(tail, rest);
        assert(s.drop_first() =~= tail + rest);
    } else {
        assert(s =~= rest);
    }
}

/// The words of a text are what stands between white space: the empty text has none, white
/// space at the start makes none, and a word ends with the text or at the next white space.
pub proof fn law_words(w: Seq<char>, space: char, rest: Seq<char>)
    requires
        is_space(space),
        w.len() > 0,
        forall|i: int| 0 <= i < w.len() ==> !is_space(#[trigger] w[i]),
    ensures
        words_spec(Seq::empty()) == Seq::<Seq<char>>::empty(),
        words_spec(seq![space] + rest) == words_spec(rest),
        words_spec(w) == seq![w],
        words_spec(w + (seq![space] + rest)) == seq![w] + words_spec(rest),
{
    let none = Seq::<char>::empty();
    assert(trim_start_spec(none) =~= none);
    assert(words_spec(none) =~= Seq::empty());
    let spaced = seq![space] + rest;
    lemma_lead_bounds(rest, true);
    assert(spaced.drop_first() =~= rest);
    assert(lead(spaced, true) == 1 + lead(rest, true));
    assert(trim_start_spec(spaced) =~= trim_start_spec(rest));
    assert(words_spec(spaced) == words_spec(rest));
    lemma_lead_word(w, none);
    assert(w + none =~= w);
    assert(lead(w, true) == 0) by {
        assert(!is_space(w[0]));
    }
    assert(trim_start_spec(w) =~= w);
    assert(w.take(w.len() as int) =~= w);
    assert(w.skip(w.len() as int) =~= none);
    assert(words_spec(w) =~= seq![w]);
    let all = w + spaced;
    lemma_lead_word(w, spaced);
    assert(all[0] == w[0]);
    assert(lead(all, true) == 0);
    assert(trim_start_spec(all) =~= all);
    assert(all.take(w.len() as int) =~= w);
    assert(all.skip(w.len() as int) =~= spaced);
}

// ---------------------------------------------------------------------------
// Pieces
// ---------------------------------------------------------------------------

proof fn lemma_join_first(first: Seq<char>, list: Seq<Seq<char>>, between: Seq<char>)
    requires
        list.len() > 0,
    ensures
        joined(seq![first] + list, between) == first + between + joined(list, between),
    decreases list.len(),
{
    let all = seq![first] + list;
    assert(all.last() == list.last());
    if list.len() == 1 {
        assert(all.drop_last() =~= seq![first]);
        assert(joined(all.drop_last(), between) == first);
    } else {
        lemma_join_first(first, list.drop_last(), between);
        assert(all.drop_last() =~= seq![first] + list.drop_last());
    }
    assert(joined(all, between) == joined(all.drop_last(), between) + between + all.last());
    assert(joined(all, between) =~= first + between + joined(list, between));
}

/// Splitting a text at a character gives pieces without it, at least one, and joining them
/// with the character gives the text back.
pub proof fn law_split_and_join(s: Seq<char>, c: char)
    ensures
        split_spec(s, c).len() >= 1,
        joined(split_spec(s, c), seq![c]) == s,
        forall|k: int, i: int|
            0 <= k < split_spec(s, c).len() && 0 <= i < split_spec(s, c)[k].len()
                ==> #[trigger] split_spec(s, c)[k][i] != c,
    decreases s.len(),
{
    lemma_index_or_len(s, c);
    let k = index_or_len(s, c);
    let list = split_spec(s, c);
    if k < s.len() {
        let tail = s.skip(k + 1);
        let rest = split_spec(tail, c);
        law_split_and_join(tail, c);
        lemma_join_first(s.take(k), rest, seq![c]);
        assert(s =~= s.take(k) + seq![c] + tail);
        assert forall|n: int, i: int|
            0 <= n < list.len() && 0 <= i < list[n].len() implies #[trigger] list[n][i] != c by {
            if n > 0 {
                assert(list[n] == rest[n - 1]);
                assert(rest[n - 1][i] != c);
            }
        }
    } else {
        assert(list =~= seq![s]);
    }
}

/// A text so many times over.
pub open spec fn repeated(p: Seq<char>, n: nat) -> Seq<char>
    decreases n,
{
    if n == 0 {
        Seq::empty()
    } else {
        p + repeated(p, (n - 1) as nat)
    }
}

/// Stripping a text takes it off the front as often as it stands there and takes nothing
/// else.
pub proof fn law_strip(s: Seq<char>, p: Seq<char>)
    requires
        p.len() > 0,
    ensures
        !has_prefix(strip_all(s, p), p),
        exists|n: nat| s == #[trigger] repeated(p, n) + strip_all(s, p),
    decreases s.len(),
{
    if has_prefix(s, p) {
        let tail = s.skip(p.len() as int);
        law_strip(tail, p);
        let n = choose|n: nat| tail == #[trigger] repeated(p, n) + strip_all(tail, p);
        assert(s =~= p + tail);
        assert(s =~= repeated(p, n + 1) + strip_all(s, p));
    } else {
        assert(s =~= repeated(p, 0) + strip_all(s, p));
    }
}

// ---------------------------------------------------------------------------
// Characters
// ---------------------------------------------------------------------------

/// A capital of the Latin alphabet becomes the small letter at the same place of the
/// alphabet; every other character stays as it is.
pub proof fn law_lower(i: int, c: char)
    requires
        0 <= i < 26,
    ensures
        lower("ABCDEFGHIJKLMNOPQRSTUVWXYZ"@[i]) == "abcdefghijklmnopqrstuvwxyz"@[i],
        (forall|k: int| 0 <= k < 26 ==> c != #[trigger] "ABCDEFGHIJKLMNOPQRSTUVWXYZ"@[k]) ==> lower(c)
            == c,
{
    reveal_strlit("ABCDEFGHIJKLMNOPQRSTUVWXYZ");
    reveal_strlit("abcdefghijklmnopqrstuvwxyz");
    if 'A' <= c <= 'Z' {
        let k = c as int - 0x41;
        assert("ABCDEFGHIJKLMNOPQRSTUVWXYZ"@[k] == c);
    }
}

/// Making a text lower case keeps its length, and doing it twice is doing it once.
pub proof fn law_lower_text(s: Seq<char>)
    ensures
        lower_all(s).len() == s.len(),
        lower_all(lower_all(s)) == lower_all(s),
        forall|i: int| 0 <= i < s.len() ==> #[trigger] lower_all(s)[i] == lower(s[i]),
{
    assert(lower_all(lower_all(s)) =~= lower_all(s));
}

/// A character takes as many bytes as its number needs: seven bits fit in one, eleven in
/// two, sixteen in three, and all others take four. A text takes the sum.
pub proof fn law_bytes_of_text(c: char, a: Seq<char>, b: Seq<char>)
    ensures
        char_width(c) == 1 <==> (c as int) < 128,
        char_width(c) == 2 <==> 128 <= c as int && (c as int) < 2048,
        char_width(c) == 3 <==> 2048 <= c as int && (c as int) < 65536,
        char_width(c) == 4 <==> 65536 <= c as int,
        byte_len(seq![c]) == char_width(c),
        byte_len(a + b) == byte_len(a) + byte_len(b),
    decreases a.len(),
{
    assert(seq![c].drop_first() =~= Seq::empty());
    assert(byte_len(seq![c].drop_first()) == 0);
    if a.len() > 0 {
        law_bytes_of_text(c, a.drop_first(), b);
        assert((a + b).drop_first() =~= a.drop_first() + b);
        assert((a + b)[0] == a[0]);
    } else {
        assert(a + b =~= b);
    }
}

// ---------------------------------------------------------------------------
// Numbers
// ---------------------------------------------------------------------------

/// A digit stands for its place among the digits, as a small letter or as a capital; other
/// characters, and digits of a larger base, stand for nothing.
pub proof fn law_digits(c: char, radix: int, d: int)
    requires
        2 <= radix <= 36,
        0 <= d < radix,
    ensures
        digit_value(c, radix) == Some(d) <==> c == "0123456789abcdefghijklmnopqrstuvwxyz"@[d] || c
            == "0123456789ABCDEFGHIJKLMNOPQRSTUVWXYZ"@[d],
        digit_value(c, radix) matches Some(v) ==> 0 <= v < radix,
{
    reveal_strlit("0123456789abcdefghijklmnopqrstuvwxyz");
    reveal_strlit("0123456789ABCDEFGHIJKLMNOPQRSTUVWXYZ");
}

proof fn lemma_bad_digit(s: Seq<char>, radix: int, i: int)
    requires
        0 <= i < s.len(),
        digit_value(s[i], radix) is None,
    ensures
        numeral(s, radix) is None,
    decreases s.len(),
{
    if i < s.len() - 1 {
        lemma_bad_digit(s.drop_last(), radix, i);
    }
}

proof fn lemma_leading_zero(s: Seq<char>, radix: int)
    requires
        2 <= radix <= 36,
    ensures
        numeral(seq!['0'] + s, radix) == numeral(s, radix),
    decreases s.len(),
{
    let t = seq!['0'] + s;
    if s.len() == 0 {
        assert(t.drop_last() =~= Seq::empty());
        assert(t.last() == '0');
        assert(numeral(t.drop_last(), radix) == Some(0int));
        assert(digit_value('0', radix) == Some(0int));
        assert(0 * radix == 0);
    } else {
        lemma_leading_zero(s.drop_last(), radix);
        assert(t.drop_last() =~= seq!['0'] + s.drop_last());
        assert(t.last() == s.last());
    }
}

/// An unsigned number is what its digits denote, if that is not too large. One plus sign
/// may stand before it, and zeros change nothing. A text without digits, or with anything
/// else in it, is no number.
pub proof fn law_unsigned_numbers(n: int, width: int, max: int, s: Seq<char>, i: int)
    requires
        0 <= n,
        0 <= width,
    ensures
        n <= max ==> uint_value(hex(n, width), 16, max) == Some(n) && uint_value(dec(n), 10, max)
            == Some(n),
        n > max ==> uint_value(hex(n, width), 16, max) is None && uint_value(dec(n), 10, max) is None,
        s.len() > 0 && s[0] != '+' ==> uint_value(seq!['+'] + s, 10, max) == uint_value(s, 10, max)
            && uint_value(seq!['0'] + s, 10, max) == uint_value(s, 10, max),
        uint_value(Seq::empty(), 10, max) is None,
        1 <= i < s.len() && digit_value(s[i], 10) is None ==> uint_value(s, 10, max) is None,
{
    law_hex_denotes(n, width);
    law_dec_denotes(n);
    assert(hex(n, width)[0] != '+');
    assert(dec(n)[0] != '+');
    if s.len() > 0 && s[0] != '+' {
        assert((seq!['+'] + s).drop_first() =~= s);
        lemma_leading_zero(s, 10);
    }
    if 1 <= i < s.len() && digit_value(s[i], 10) is None {
        lemma_bad_digit(s, 10, i);
        let tail = s.drop_first();
        assert(tail[i - 1] == s[i]);
        lemma_bad_digit(tail, 10, i - 1);
    }
}

// ---------------------------------------------------------------------------
// Order
// ---------------------------------------------------------------------------

/// Texts are ordered as in a dictionary: by the first character in which they differ, and
/// a text comes before what it starts.
pub proof fn law_text_order(p: Seq<char>, x: char, y: char, u: Seq<char>, v: Seq<char>)
    ensures
        x != y ==> (comes_before(p + (seq![x] + u), p + (seq![y] + v)) <==> (x as int) < (y as int)),
        comes_before(p, p + (seq![x] + u)),
        !comes_before(p + u, p),
        !comes_before(p, p),
    decreases p.len(),
{
    let a = p + (seq![x] + u);
    let b = p + (seq![y] + v);
    let c = p + u;
    if p.len() > 0 {
        let t = p.drop_first();
        law_text_order(t, x, y, u, v);
        assert(a.drop_first() =~= t + (seq![x] + u));
        assert(b.drop_first() =~= t + (seq![y] + v));
        assert(c.drop_first() =~= t + u);
        assert(a[0] == p[0] && b[0] == p[0] && c[0] == p[0]);
    } else {
        assert(a[0] == x);
        assert(b[0] == y);
    }
}

/// Of two different texts exactly one comes before the other.
pub proof fn law_text_order_is_total(a: Seq<char>, b: Seq<char>)
    ensures
        a != b ==> (comes_before(a, b) <==> !comes_before(b, a)),
    decreases a.len(),
{
    if a.len() > 0 && b.len() > 0 && a[0] == b[0] {
        let s = a.drop_first();
        let t = b.drop_first();
        law_text_order_is_total(s, t);
        if s == t {
            assert(a =~= seq![a[0]] + s);
            assert(b =~= seq![b[0]] + t);
        }
    } else if a.len() == 0 && b.len() == 0 {
        assert(a =~= b);
    }
}

/// What comes before a text that comes before a third comes before the third.
pub proof fn law_text_order_is_transitive(a: Seq<char>, b: Seq<char>, c: Seq<char>)
    requires
        comes_before(a, b),
        comes_before(b, c),
    ensures
        comes_before(a, c),
    decreases a.len(),
{
    if a.len() > 0 && a[0] == b[0] && b[0] == c[0] {
        law_text_order_is_transitive(a.drop_first(), b.drop_first(), c.drop_first());
    }
}

proof fn lemma_too_large(s: Seq<char>, radix: int, max: int, i: int)
    requires
        0 <= i < s.len(),
        forall|k: int| 0 <= k < s.len() ==> digit_value(#[trigger] s[k], radix) is Some,
        numeral(s, radix) is Some,
        numeral(s, radix)->0 > max,
    ensures
        digits_fault(s, radix, max, i) == "number too large to fit in target type"@,
    decreases s.len() - i,
{
    assert(digit_value(s[i], radix) is Some);
    if i == s.len() - 1 {
        assert(s.take(i + 1) =~= s);
    } else if numeral(s.take(i + 1), radix)->0 <= max {
        lemma_too_large(s, radix, max, i + 1);
    }
}

/// What is wrong with a text that is no number: there is nothing, it does not start with a
/// digit, or it is too large.
pub proof fn law_number_faults(n: int, width: int, max: int, s: Seq<char>)
    requires
        0 <= n,
        0 <= width,
    ensures
        uint_read(Seq::empty(), 16, max) == Err::<int, Fault>(
            plain("cannot parse integer from empty string"@),
        ),
        s.len() > 0 && s[0] != '+' && digit_value(s[0], 16) is None ==> uint_read(s, 16, max)
            == Err::<int, Fault>(plain("invalid digit found in string"@)),
        n > max ==> uint_read(hex(n, width), 16, max) == Err::<int, Fault>(
            plain("number too large to fit in target type"@),
        ),
{
    let h = hex(n, width);
    law_hex_denotes(n, width);
    assert(h[0] != '+');
    if n > max {
        assert forall|k: int| 0 <= k < h.len() implies digit_value(#[trigger] h[k], 16) is Some by {
            assert(crate::number_laws::is_hex_digit(h[k]));
        }
        lemma_too_large(h, 16, max, 0);
    }
    if s.len() > 0 && s[0] != '+' && digit_value(s[0], 16) is None {
        lemma_bad_digit(s, 16, 0);
    }
}

} // verus!
