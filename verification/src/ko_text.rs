//! Korean text: control tags, the order of glyphs, and the bytes of a translation.
use vstd::prelude::*;
use vstd::slice::slice_subrange;
use crate::error::{outcome, plain, Fault, PatchError};
use crate::glyph::{KO_MULTI_PREFIX_CAP, KO_PREFIXES, PER_PREFIX};
use crate::jp_text::{encode_jp_char, jp_code};
use crate::order::{before, is_stable_order, lemma_order_covers, stable_order};
use crate::parse::{
    byte_len, fits_bytes, has_prefix, index_of, index_or_len, lemma_index_or_len, lower_all,
    lower_chars, read_uint, same_chars, starts_with, string_views, strip_all, strip_repeated, trim,
    trim_spec, uint_read,
};
use crate::text::{chars_of, dec, hex, text};

verus! {

/// The byte that shows the currency sign.
pub const MONEY_TEXT_BYTE: u8 = 0x0C;

/// A piece of translated text.
#[derive(Debug, Clone, Copy, PartialEq, Eq)]
pub enum TextToken {
    /// A character.
    Char(char),
    /// The currency sign.
    Money,
    /// A line break.
    Br,
    /// A pause.
    Wait,
    /// The end.
    End,
    /// Flags for the text engine.
    Flags(u8),
    /// A byte as it is.
    Raw(u8),
}

// ---------------------------------------------------------------------------
// Tags
// ---------------------------------------------------------------------------

/// The digits of a byte operand: without surrounding space, then without leading
/// dollar signs, then without leading copies of `0x`.
pub open spec fn operand_digits(raw: Seq<char>) -> Seq<char> {
    strip_all(strip_all(trim_spec(raw), "$"@), "0x"@)
}

/// The byte that an operand denotes.
pub open spec fn operand(raw: Seq<char>) -> Result<u8, Fault> {
    let digits = operand_digits(raw);
    if byte_len(digits) > 2 {
        Err(plain("u8 범위를 넘는 hex 값: "@ + raw))
    } else {
        match uint_read(digits, 16, 255) {
            Ok(v) => Ok(v as u8),
            Err(e) => Err(e.under("hex 파싱 실패: "@ + raw)),
        }
    }
}

/// Reads the operand of a tag.
pub fn parse_hex_u8(raw: &[char]) -> (res: Result<u8, PatchError>)
    ensures
        outcome(res) == operand(raw@),
{
    let dollar = chars_of("$");
    let zero_x = chars_of("0x");
    let digits = strip_repeated(
        strip_repeated(trim(raw), dollar.as_slice()),
        zero_x.as_slice(),
    );
    if !fits_bytes(digits, 2) {
        return Err(text("u8 범위를 넘는 hex 값: ").chars(raw).fail());
    }
    match read_uint(digits, 16, 255) {
        Ok(v) => Ok(v as u8),
        Err(e) => Err(text("hex 파싱 실패: ").chars(raw).fail_after(e)),
    }
}

/// What a tag stands for; letters may be in either case.
pub open spec fn tag_token(tag: Seq<char>) -> Result<TextToken, Fault> {
    let low = lower_all(tag);
    if low == "br"@ {
        Ok(TextToken::Br)
    } else if low == "wait"@ {
        Ok(TextToken::Wait)
    } else if low == "end"@ {
        Ok(TextToken::End)
    } else if low == "money"@ {
        Ok(TextToken::Money)
    } else if has_prefix(low, "flags:"@) {
        match operand(tag.skip(6)) {
            Ok(v) => Ok(TextToken::Flags(v)),
            Err(e) => Err(e),
        }
    } else if has_prefix(low, "raw:"@) {
        match operand(tag.skip(4)) {
            Ok(v) => Ok(TextToken::Raw(v)),
            Err(e) => Err(e),
        }
    } else {
        Err(plain("알 수 없는 control tag: ["@ + tag + "]"@))
    }
}

/// A token result in terms of models.
pub open spec fn token_outcome(result: Result<TextToken, PatchError>) -> Result<
    TextToken,
    Fault,
> {
    match result {
        Ok(t) => Ok(t),
        Err(e) => Err(e@),
    }
}

/// Whether a text is a given word.
pub fn is_word(s: &[char], word: &str) -> (r: bool)
    ensures
        r == (s@ == word@),
{
    let w = chars_of(word);
    same_chars(s, w.as_slice())
}

/// Reads a tag.
pub fn parse_tag(tag: &[char]) -> (res: Result<TextToken, PatchError>)
    ensures
        token_outcome(res) == tag_token(tag@),
{
    let low = lower_chars(tag);
    let flags = chars_of("flags:");
    let raw = chars_of("raw:");
    proof {
        reveal_strlit("flags:");
        reveal_strlit("raw:");
    }
    if is_word(low.as_slice(), "br") {
        Ok(TextToken::Br)
    } else if is_word(low.as_slice(), "wait") {
        Ok(TextToken::Wait)
    } else if is_word(low.as_slice(), "end") {
        Ok(TextToken::End)
    } else if is_word(low.as_slice(), "money") {
        Ok(TextToken::Money)
    } else if starts_with(low.as_slice(), flags.as_slice()) {
        match parse_hex_u8(slice_subrange(tag, 6, tag.len())) {
            Ok(v) => Ok(TextToken::Flags(v)),
            Err(e) => Err(e),
        }
    } else if starts_with(low.as_slice(), raw.as_slice()) {
        match parse_hex_u8(slice_subrange(tag, 4, tag.len())) {
            Ok(v) => Ok(TextToken::Raw(v)),
            Err(e) => Err(e),
        }
    } else {
        Err(text("알 수 없는 control tag: [").chars(tag).lit("]").fail())
    }
}

/// A list of tokens put behind others, unless there was a failure.
pub open spec fn after(
    first: Seq<TextToken>,
    rest: Result<Seq<TextToken>, Fault>,
) -> Result<Seq<TextToken>, Fault> {
    match rest {
        Ok(list) => Ok(first + list),
        Err(e) => Err(e),
    }
}

/// What follows a tag whose text starts at the front: everything behind the closing
/// bracket, nothing where there is none.
pub open spec fn behind_tag(rest: Seq<char>) -> Seq<char> {
    let end = index_or_len(rest, ']');
    rest.skip(if end < rest.len() {
        end + 1
    } else {
        end
    })
}

/// The tokens of a text. A tag runs from `[` to the next `]`, or to the end of the
/// text where there is none.
pub open spec fn tokens_of(s: Seq<char>) -> Result<Seq<TextToken>, Fault>
    decreases s.len(),
    via tokens_decreases
{
    if s.len() == 0 {
        Ok(Seq::empty())
    } else if s[0] == '[' {
        let rest = s.drop_first();
        let tag = rest.take(index_or_len(rest, ']'));
        if tag.len() == 0 {
            Err(plain("빈 control tag"@))
        } else {
            match tag_token(tag) {
                Err(e) => Err(e),
                Ok(t) => after(seq![t], tokens_of(behind_tag(rest))),
            }
        }
    } else {
        after(seq![TextToken::Char(s[0])], tokens_of(s.drop_first()))
    }
}

#[via_fn]
proof fn tokens_decreases(s: Seq<char>) {
    if s.len() > 0 {
        lemma_index_or_len(s.drop_first(), ']');
    }
}

/// A list of tokens in terms of models.
pub open spec fn tokens_outcome(result: Result<Vec<TextToken>, PatchError>) -> Result<
    Seq<TextToken>,
    Fault,
> {
    match result {
        Ok(list) => Ok(list@),
        Err(e) => Err(e@),
    }
}

proof fn lemma_push_shift(first: Seq<TextToken>, t: TextToken, rest: Seq<TextToken>)
    ensures
        first.push(t) + rest == first + (seq![t] + rest),
{
    assert(first.push(t) + rest =~= first + (seq![t] + rest));
}

/// Splits a text into characters and control tags.
pub fn parse_text(s: &str) -> (res: Result<Vec<TextToken>, PatchError>)
    ensures
        tokens_outcome(res) == tokens_of(s@),
{
    let all = chars_of(s);
    let mut tokens: Vec<TextToken> = Vec::new();
    let mut rest = all.as_slice();
    proof {
        match tokens_of(s@) {
            Ok(list) => {
                assert(Seq::<TextToken>::empty() + list =~= list);
            },
            Err(_) => {},
        }
        assert(after(tokens@, tokens_of(rest@)) == tokens_of(s@));
    }
    while rest.len() > 0
        invariant
            after(tokens@, tokens_of(rest@)) == tokens_of(s@),
        decreases rest@.len(),
    {
        let ghost was = tokens@;
        let ghost here = rest@;
        let ch: char = rest[0];
        rest = slice_subrange(rest, 1, rest.len());
        proof {
            assert(rest@ =~= here.drop_first());
        }
        if ch == '[' {
            let end = index_of(rest, ']');
            let tag = slice_subrange(rest, 0, end);
            proof {
                assert(tag@ =~= rest@.take(end as int));
            }
            if tag.len() == 0 {
                return Err(text("빈 control tag").fail());
            }
            match parse_tag(tag) {
                Err(e) => {
                    return Err(e);
                },
                Ok(t) => {
                    tokens.push(t);
                    let next: usize = if end < rest.len() {
                        end + 1
                    } else {
                        end
                    };
                    let ghost tail = rest@;
                    rest = slice_subrange(rest, next, rest.len());
                    proof {
                        assert(rest@ =~= behind_tag(tail));
                        match tokens_of(rest@) {
                            Ok(list) => {
                                lemma_push_shift(was, t, list);
                            },
                            Err(_) => {},
                        }
                    }
                },
            }
        } else {
            let token = TextToken::Char(ch);
            tokens.push(token);
            proof {
                assert(ch == here[0]);
                match tokens_of(rest@) {
                    Ok(list) => {
                        lemma_push_shift(was, token, list);
                    },
                    Err(_) => {},
                }
            }
        }
    }
    proof {
        assert(tokens@ + Seq::<TextToken>::empty() =~= tokens@);
    }
    Ok(tokens)
}

// ---------------------------------------------------------------------------
// Characters
// ---------------------------------------------------------------------------

/// Whether a character is a composed Korean syllable.
pub open spec fn is_hangul(ch: char) -> bool {
    0xAC00 <= ch as int <= 0xD7A3
}

/// Whether a character is a punctuation mark that has a drawn glyph.
pub open spec fn is_drawn_mark(ch: char) -> bool {
    ch == ',' || ch == '~'
}

/// Whether a character is a composed Korean syllable.
pub fn is_hangul_syllable(ch: char) -> (r: bool)
    ensures
        r == is_hangul(ch),
{
    let code: u32 = ch as u32;
    0xAC00 <= code && code <= 0xD7A3
}

/// Whether a character is shown by an added glyph.
pub fn is_ko_dynamic_char(ch: char) -> (r: bool)
    ensures
        r == (is_hangul(ch) || is_drawn_mark(ch)),
{
    is_hangul_syllable(ch) || ch == ',' || ch == '~'
}

// ---------------------------------------------------------------------------
// Codes
// ---------------------------------------------------------------------------

/// The two bytes of the glyph with a given rank. Beyond the capacity of the
/// prefixes these are used again from the first on.
pub open spec fn rank_code(rank: int) -> Seq<u8> {
    seq![(0xA3 + (rank / 250) % 4) as u8, (1 + rank % 250) as u8]
}

/// The two bytes of the glyph with a given rank.
pub fn code_for_rank(rank: usize) -> (code: [u8; 2])
    ensures
        code@ == rank_code(rank as int),
{
    let prefix: usize = (rank / PER_PREFIX) % 4;
    let code: [u8; 2] = [KO_PREFIXES[prefix], 1 + (rank % PER_PREFIX) as u8];
    proof {
        assert(code@ =~= rank_code(rank as int));
    }
    code
}

/// Within the capacity of the prefixes a rank can be told from its code, so no two
/// ranks have the same code; the second byte is never the end code nor a control
/// code.
pub proof fn law_rank_from_code(rank: int)
    requires
        0 <= rank < 1000,
    ensures
        (rank_code(rank)[0] - 0xA3) * 250 + (rank_code(rank)[1] - 1) == rank,
        0xA3 <= rank_code(rank)[0] <= 0xA6,
        0x01 <= rank_code(rank)[1] <= 0xFA,
{
}

/// How often a character occurs among tokens.
pub open spec fn char_count(tokens: Seq<TextToken>, ch: char) -> int
    decreases tokens.len(),
{
    if tokens.len() == 0 {
        0
    } else {
        char_count(tokens.drop_last(), ch) + if tokens.last() == TextToken::Char(ch) {
            1int
        } else {
            0
        }
    }
}

/// The tokens of several texts, one text after the other, or what is wrong with the
/// first text that something is wrong with.
pub open spec fn all_tokens(texts: Seq<Seq<char>>) -> Result<Seq<TextToken>, Fault>
    decreases texts.len(),
{
    if texts.len() == 0 {
        Ok(Seq::empty())
    } else {
        match all_tokens(texts.drop_last()) {
            Err(e) => Err(e),
            Ok(list) => after(list, tokens_of(texts.last())),
        }
    }
}

/// The drawn punctuation marks that occur, in their fixed order.
pub open spec fn drawn_marks(tokens: Seq<TextToken>) -> Seq<char> {
    let comma = if char_count(tokens, ',') > 0 {
        seq![',']
    } else {
        Seq::empty()
    };
    let tilde = if char_count(tokens, '~') > 0 {
        seq!['~']
    } else {
        Seq::empty()
    };
    comma + tilde
}

/// Whether one syllable ranks before another: by the larger count, then by the
/// smaller code point.
pub open spec fn ranks_before(tokens: Seq<TextToken>, a: char, b: char) -> bool {
    char_count(tokens, a) > char_count(tokens, b) || (char_count(tokens, a) == char_count(tokens, b)
        && (a as int) < (b as int))
}

/// Whether a list of characters is the order of glyphs for tokens: the syllables
/// that occur, each once and by rank, then the drawn punctuation marks that occur.
pub open spec fn is_glyph_order(tokens: Seq<TextToken>, order: Seq<char>) -> bool {
    let marks = drawn_marks(tokens);
    let n = order.len() - marks.len();
    &&& n >= 0
    &&& order.skip(n) == marks
    &&& forall|i: int|
        0 <= i < n ==> is_hangul(#[trigger] order[i]) && char_count(tokens, order[i]) > 0
    &&& forall|i: int, j: int|
        0 <= i < j < n ==> ranks_before(tokens, #[trigger] order[i], #[trigger] order[j])
    &&& forall|ch: char|
        is_hangul(ch) && #[trigger] char_count(tokens, ch) > 0 ==> exists|i: int|
            0 <= i < n && #[trigger] order[i] == ch
}

/// Tokens have only one order of glyphs.
pub proof fn law_glyph_order_is_unique(tokens: Seq<TextToken>, a: Seq<char>, b: Seq<char>)
    requires
        is_glyph_order(tokens, a),
        is_glyph_order(tokens, b),
    ensures
        a == b,
{
    let marks = drawn_marks(tokens);
    let n = a.len() - marks.len();
    let m = b.len() - marks.len();
    lemma_order_agrees(tokens, a, b, if n < m {
        n
    } else {
        m
    });
    if n < m {
        lemma_order_covered(tokens, b, a, n);
    } else if m < n {
        lemma_order_covered(tokens, a, b, m);
    }
    assert(a =~= b) by {
        assert forall|i: int| 0 <= i < a.len() implies a[i] == b[i] by {
            if i >= n {
                assert(a.skip(n)[i - n] == a[i]);
                assert(b.skip(n)[i - n] == b[i]);
            }
        }
    }
}

/// An order cannot go on behind the place where another one, equal up to there, has
/// run out of syllables.
proof fn lemma_order_covered(tokens: Seq<TextToken>, long: Seq<char>, short: Seq<char>, n: int)
    requires
        is_glyph_order(tokens, long),
        is_glyph_order(tokens, short),
        n == short.len() - drawn_marks(tokens).len(),
        n <= long.len() - drawn_marks(tokens).len(),
        forall|i: int| 0 <= i < n ==> long[i] == short[i],
    ensures
        n == long.len() - drawn_marks(tokens).len(),
{
    if n < long.len() - drawn_marks(tokens).len() {
        let ch = long[n];
        assert(is_hangul(ch) && char_count(tokens, ch) > 0);
        let i = choose|i: int| 0 <= i < n && #[trigger] short[i] == ch;
        assert(long[i] == ch);
        assert(ranks_before(tokens, long[i], long[n]));
    }
}

proof fn lemma_order_agrees(tokens: Seq<TextToken>, a: Seq<char>, b: Seq<char>, k: int)
    requires
        is_glyph_order(tokens, a),
        is_glyph_order(tokens, b),
        0 <= k <= a.len() - drawn_marks(tokens).len(),
        k <= b.len() - drawn_marks(tokens).len(),
    ensures
        forall|i: int| 0 <= i < k ==> a[i] == b[i],
    decreases k,
{
    if k > 0 {
        lemma_order_agrees(tokens, a, b, k - 1);
        let n = a.len() - drawn_marks(tokens).len();
        let m = b.len() - drawn_marks(tokens).len();
        let p = k - 1;
        let x = a[p];
        let y = b[p];
        assert(is_hangul(x) && char_count(tokens, x) > 0);
        assert(is_hangul(y) && char_count(tokens, y) > 0);
        let j = choose|j: int| 0 <= j < m && #[trigger] b[j] == x;
        let i = choose|i: int| 0 <= i < n && #[trigger] a[i] == y;
        if j < p {
            assert(a[j] == x);
            assert(ranks_before(tokens, a[j], a[p]));
        }
        if i < p {
            assert(b[i] == y);
            assert(ranks_before(tokens, b[i], b[p]));
        }
        if x != y {
            assert(ranks_before(tokens, b[p], b[j]));
            assert(ranks_before(tokens, a[p], a[i]));
        }
    }
}

/// The order of glyphs, from which the code of each follows.
#[derive(Debug, Clone)]
pub struct KoEncoding {
    ordered_chars: Vec<char>,
}

impl View for KoEncoding {
    type V = Seq<char>;

    closed spec fn view(&self) -> Seq<char> {
        self.ordered_chars@
    }
}

/// The rank of a character in an order.
pub open spec fn rank_of(order: Seq<char>, ch: char) -> Option<int>
    decreases order.len(),
{
    if order.len() == 0 {
        None
    } else {
        match rank_of(order.drop_last(), ch) {
            Some(k) => Some(k),
            None => if order.last() == ch {
                Some(order.len() - 1)
            } else {
                None
            },
        }
    }
}

pub proof fn lemma_rank_of(order: Seq<char>, ch: char)
    ensures
        rank_of(order, ch) matches Some(k) ==> 0 <= k < order.len() && order[k] == ch,
        rank_of(order, ch) is None ==> !order.contains(ch),
    decreases order.len(),
{
    if order.len() > 0 {
        lemma_rank_of(order.drop_last(), ch);
        if rank_of(order, ch) is None {
            assert forall|i: int| 0 <= i < order.len() implies order[i] != ch by {
                if i < order.len() - 1 {
                    assert(order.drop_last()[i] == order[i]);
                    assert(!order.drop_last().contains(ch));
                }
            }
        }
    }
}

proof fn lemma_rank_prefix(order: Seq<char>, ch: char, k: int)
    requires
        0 <= k <= order.len(),
        rank_of(order.take(k), ch) is Some,
    ensures
        rank_of(order, ch) == rank_of(order.take(k), ch),
    decreases order.len(),
{
    if k == order.len() {
        assert(order.take(k) =~= order);
    } else {
        assert(order.drop_last().take(k) =~= order.take(k));
        lemma_rank_prefix(order.drop_last(), ch, k);
    }
}

proof fn lemma_count_bounds(tokens: Seq<TextToken>, ch: char)
    ensures
        0 <= char_count(tokens, ch) <= tokens.len(),
    decreases tokens.len(),
{
    if tokens.len() > 0 {
        lemma_count_bounds(tokens.drop_last(), ch);
    }
}

proof fn lemma_all_tokens_fail(texts: Seq<Seq<char>>, k: int)
    requires
        0 <= k <= texts.len(),
        all_tokens(texts.take(k)) is Err,
    ensures
        all_tokens(texts) == all_tokens(texts.take(k)),
    decreases texts.len(),
{
    if k == texts.len() {
        assert(texts.take(k) =~= texts);
    } else {
        assert(texts.drop_last().take(k) =~= texts.take(k));
        lemma_all_tokens_fail(texts.drop_last(), k);
    }
}

/// What is said where there are more glyphs than the prefixes reach.
pub open spec fn over_capacity(n: int) -> Seq<char> {
    "KO 글리프 "@ + dec(n)
        + "개가 다중 프리픽스 용량 1000개(4 prefixes × 250)를 초과함"@
}

/// Whether tokens need more glyphs than the prefixes reach, and an error says so.
pub open spec fn exceeds_capacity(tokens: Seq<TextToken>, fault: Fault) -> bool {
    exists|order: Seq<char>|
        {
            &&& #[trigger] is_glyph_order(tokens, order)
            &&& order.len() > 1000
            &&& fault == plain(over_capacity(order.len() as int))
        }
}

/// The counts of the syllables that tokens hold: one number for each code point.
pub open spec fn counts_syllables(tokens: Seq<TextToken>, counts: Seq<u128>) -> bool {
    &&& counts.len() == 11172
    &&& forall|k: int|
        0 <= k < 11172 ==> #[trigger] counts[k] == char_count(tokens, (0xAC00 + k) as char)
}

impl KoEncoding {
    /// The order of glyphs for texts, within the capacity of the prefixes.
    pub fn from_texts(texts: &[String]) -> (res: Result<Self, PatchError>)
        ensures
            match res {
                Ok(enc) => all_tokens(string_views(texts@)) matches Ok(tokens) && is_glyph_order(
                    tokens,
                    enc@,
                ) && enc@.len() <= 1000,
                Err(e) => match all_tokens(string_views(texts@)) {
                    Err(fault) => e@ == fault,
                    Ok(tokens) => exceeds_capacity(tokens, e@),
                },
            },
    {
        Self::from_texts_capped(texts, true)
    }

    /// The order of glyphs for texts. With `enforce_cap` it fails where there are
    /// more glyphs than the prefixes reach.
    pub fn from_texts_capped(texts: &[String], enforce_cap: bool) -> (res: Result<Self, PatchError>)
        ensures
            match res {
                Ok(enc) => all_tokens(string_views(texts@)) matches Ok(tokens) && is_glyph_order(
                    tokens,
                    enc@,
                ) && (enforce_cap ==> enc@.len() <= 1000),
                Err(e) => match all_tokens(string_views(texts@)) {
                    Err(fault) => e@ == fault,
                    Ok(tokens) => enforce_cap && exceeds_capacity(tokens, e@),
                },
            },
    {
        let ghost all = string_views(texts@);
        let mut counts: Vec<u128> = vec![0u128; 11172];
        let mut comma: bool = false;
        let mut tilde: bool = false;
        let ghost mut seen: Seq<TextToken> = Seq::empty();
        let mut i: usize = 0;
        proof {
            assert(usize::MAX <= 0xFFFF_FFFF_FFFF_FFFF);
        }
        while i < texts.len()
            invariant
                i <= texts@.len(),
                all == string_views(texts@),
                usize::MAX <= 0xFFFF_FFFF_FFFF_FFFF,
                all_tokens(all.take(i as int)) == Ok::<Seq<TextToken>, Fault>(seen),
                seen.len() <= i * 0xFFFF_FFFF_FFFF_FFFF,
                counts_syllables(seen, counts@),
                comma == (char_count(seen, ',') > 0),
                tilde == (char_count(seen, '~') > 0),
            decreases texts@.len() - i,
        {
            let ghost upto = all.take(i + 1);
            proof {
                assert(upto.drop_last() =~= all.take(i as int));
                assert(upto.last() == texts@[i as int]@);
            }
            let tokens = match parse_text(texts[i].as_str()) {
                Ok(tokens) => tokens,
                Err(e) => {
                    proof {
                        lemma_all_tokens_fail(all, i + 1);
                    }
                    return Err(e);
                },
            };
            let ghost base = seen;
            let total: usize = tokens.len();
            let mut k: usize = 0;
            proof {
                assert(tokens@.take(0) =~= Seq::empty());
                assert(base + tokens@.take(0) =~= base);
            }
            while k < tokens.len()
                invariant
                    k <= tokens@.len(),
                    total == tokens@.len(),
                    i < texts@.len(),
                    usize::MAX <= 0xFFFF_FFFF_FFFF_FFFF,
                    base.len() <= i * 0xFFFF_FFFF_FFFF_FFFF,
                    seen == base + tokens@.take(k as int),
                    counts_syllables(seen, counts@),
                    comma == (char_count(seen, ',') > 0),
                    tilde == (char_count(seen, '~') > 0),
                decreases tokens@.len() - k,
            {
                let token = tokens[k];
                let ghost was = seen;
                proof {
                    seen = base + tokens@.take(k + 1);
                    assert(seen =~= was.push(token));
                    assert(seen.drop_last() =~= was);
                    assert(was.len() < u128::MAX) by {
                        assert(i * 0xFFFF_FFFF_FFFF_FFFF <= 0xFFFF_FFFF_FFFF_FFFF
                            * 0xFFFF_FFFF_FFFF_FFFF) by (nonlinear_arith)
                            requires
                                0 <= i <= 0xFFFF_FFFF_FFFF_FFFF,
                        ;
                    }
                }
                match token {
                    TextToken::Char(ch) => {
                        proof {
                            lemma_count_bounds(was, ch);
                            lemma_count_bounds(was, ',');
                            lemma_count_bounds(was, '~');
                        }
                        if is_hangul_syllable(ch) {
                            let at: usize = ch as usize - 0xAC00;
                            let ghost old_counts = counts@;
                            let more: u128 = counts[at] + 1;
                            counts.set(at, more);
                            proof {
                                assert((0xAC00 + at as int) as char == ch);
                                assert forall|j: int| 0 <= j < 11172 implies #[trigger] counts@[j]
                                    == char_count(seen, (0xAC00 + j) as char) by {
                                    assert(old_counts[j] == char_count(
                                        was,
                                        (0xAC00 + j) as char,
                                    ));
                                }
                            }
                        } else {
                            if ch == ',' {
                                comma = true;
                            } else if ch == '~' {
                                tilde = true;
                            }
                            proof {
                                assert forall|j: int| 0 <= j < 11172 implies #[trigger] counts@[j]
                                    == char_count(seen, (0xAC00 + j) as char) by {
                                    assert(is_hangul((0xAC00 + j) as char));
                                }
                            }
                        }
                    },
                    _ => {
                        proof {
                            assert forall|j: int| 0 <= j < 11172 implies #[trigger] counts@[j]
                                == char_count(seen, (0xAC00 + j) as char) by {}
                        }
                    },
                }
                k += 1;
            }
            proof {
                assert(tokens@.take(k as int) =~= tokens@);
            }
            i += 1;
        }
        proof {
            assert(all.take(i as int) =~= all);
        }
        let chars = Self::arrange(Ghost(seen), counts.as_slice(), comma, tilde);
        if enforce_cap && chars.len() > KO_MULTI_PREFIX_CAP {
            let e = text("KO 글리프 ").dec(chars.len()).lit(
                "개가 다중 프리픽스 용량 1000개(4 prefixes × 250)를 초과함",
            ).fail();
            proof {
                assert(all_tokens(all) == Ok::<Seq<TextToken>, Fault>(seen));
                assert(e@ == plain(over_capacity(chars@.len() as int)));
                assert(is_glyph_order(seen, chars@));
                assert(exceeds_capacity(seen, e@));
            }
            return Err(e);
        }
        Ok(KoEncoding { ordered_chars: chars })
    }

    /// Puts the syllables that were counted into order and the drawn marks behind
    /// them.
    fn arrange(tokens: Ghost<Seq<TextToken>>, counts: &[u128], comma: bool, tilde: bool) -> (chars:
        Vec<char>)
        requires
            counts_syllables(tokens@, counts@),
            comma == (char_count(tokens@, ',') > 0),
            tilde == (char_count(tokens@, '~') > 0),
        ensures
            is_glyph_order(tokens@, chars@),
    {
        let ghost seen = tokens@;
        let mut found: Vec<char> = Vec::new();
        let mut keys: Vec<u128> = Vec::new();
        let mut k: usize = 0;
        while k < 11172
            invariant
                k <= 11172,
                counts_syllables(seen, counts@),
                keys@.len() == found@.len(),
                forall|i: int|
                    0 <= i < found@.len() ==> {
                        &&& 0xAC00 <= (#[trigger] found@[i]) as int
                        &&& (found@[i] as int) < 0xAC00 + k
                        &&& char_count(seen, found@[i]) > 0
                        &&& keys@[i] == u128::MAX - char_count(seen, found@[i])
                    },
                forall|i: int, j: int|
                    0 <= i < j < found@.len() ==> (#[trigger] found@[i] as int) < (
                    #[trigger] found@[j] as int),
                forall|c: int|
                    0xAC00 <= c < 0xAC00 + k && #[trigger] char_count(seen, c as char) > 0
                        ==> exists|i: int| 0 <= i < found@.len() && #[trigger] found@[i] == c as char,
            decreases 11172 - k,
        {
            let ghost was = found@;
            let ghost was_keys = keys@;
            if counts[k] > 0 {
                let ch: char = syllable(k);
                found.push(ch);
                keys.push(u128::MAX - counts[k]);
                proof {
                    assert(counts@[k as int] == char_count(seen, (0xAC00 + k) as char));
                    assert forall|i: int| 0 <= i < found@.len() implies ({
                        &&& 0xAC00 <= (#[trigger] found@[i]) as int
                        &&& (found@[i] as int) < 0xAC00 + k + 1
                        &&& char_count(seen, found@[i]) > 0
                        &&& keys@[i] == u128::MAX - char_count(seen, found@[i])
                    }) by {
                        if i < was.len() {
                            assert(found@[i] == was[i]);
                            assert(keys@[i] == was_keys[i]);
                        }
                    }
                    assert forall|i: int, j: int| 0 <= i < j < found@.len() implies (
                    #[trigger] found@[i] as int) < (#[trigger] found@[j] as int) by {
                        assert(found@[i] == was[i]);
                        if j < was.len() {
                            assert(found@[j] == was[j]);
                        }
                    }
                    assert forall|c: int|
                        0xAC00 <= c < 0xAC00 + k + 1 && #[trigger] char_count(seen, c as char)
                            > 0 implies exists|i: int|
                        0 <= i < found@.len() && #[trigger] found@[i] == c as char by {
                        if c < 0xAC00 + k {
                            let i = choose|i: int| 0 <= i < was.len() && #[trigger] was[i] == c as char;
                            assert(found@[i] == c as char);
                        } else {
                            assert(found@[was.len() as int] == c as char);
                        }
                    }
                }
            } else {
                proof {
                    assert(counts@[k as int] == char_count(seen, (0xAC00 + k) as char));
                    assert forall|c: int|
                        0xAC00 <= c < 0xAC00 + k + 1 && #[trigger] char_count(seen, c as char)
                            > 0 implies exists|i: int|
                        0 <= i < found@.len() && #[trigger] found@[i] == c as char by {
                        assert(c < 0xAC00 + k);
                    }
                }
            }
            k += 1;
        }
        let order = stable_order(keys.as_slice());
        let mut chars: Vec<char> = Vec::new();
        let mut i: usize = 0;
        while i < order.len()
            invariant
                i <= order@.len(),
                is_stable_order(keys@, order@),
                keys@.len() == found@.len(),
                chars@.len() == i,
                forall|k: int| 0 <= k < i ==> #[trigger] chars@[k] == found@[order@[k] as int],
            decreases order@.len() - i,
        {
            chars.push(found[order[i]]);
            i += 1;
        }
        let ghost sorted = chars@;
        if comma {
            chars.push(',');
        }
        if tilde {
            chars.push('~');
        }
        proof {
            let n = sorted.len() as int;
            let marks = drawn_marks(seen);
            assert(chars@ =~= sorted + marks);
            assert(chars@.skip(n) =~= marks);
            assert forall|i: int| 0 <= i < n implies is_hangul(#[trigger] chars@[i]) && char_count(
                seen,
                chars@[i],
            ) > 0 by {
                assert(chars@[i] == sorted[i]);
                assert(0 <= order@[i] < keys@.len());
                let f = found@[order@[i] as int];
                assert(sorted[i] == f);
            }
            assert forall|i: int, j: int| 0 <= i < j < n implies ranks_before(
                seen,
                #[trigger] chars@[i],
                #[trigger] chars@[j],
            ) by {
                assert(chars@[i] == sorted[i]);
                assert(chars@[j] == sorted[j]);
                let a = order@[i] as int;
                let b = order@[j] as int;
                assert(before(keys@, a, b));
                assert(sorted[i] == found@[a]);
                assert(sorted[j] == found@[b]);
                if a < b {
                    assert((found@[a] as int) < (found@[b] as int));
                }
            }
            assert forall|ch: char|
                is_hangul(ch) && #[trigger] char_count(seen, ch) > 0 implies exists|i: int|
                0 <= i < n && #[trigger] chars@[i] == ch by {
                assert((ch as int) as char == ch);
                let f = choose|f: int| 0 <= f < found@.len() && #[trigger] found@[f] == ch;
                let i = lemma_order_covers(keys@, order@, f);
                assert(sorted[i] == ch);
                assert(chars@[i] == ch);
            }
        }
        chars
    }

    /// How many glyphs there are.
    pub fn glyph_count(&self) -> (n: usize)
        ensures
            n == self@.len(),
    {
        self.ordered_chars.len()
    }

    /// The characters of the glyphs, by rank.
    pub fn glyph_chars(&self) -> (chars: &[char])
        ensures
            chars@ == self@,
    {
        self.ordered_chars.as_slice()
    }

    /// The code of a character, if it has a glyph.
    pub fn code_for(&self, ch: char) -> (code: Option<[u8; 2]>)
        ensures
            match code {
                Some(c) => rank_of(self@, ch) matches Some(k) && c@ == rank_code(k),
                None => rank_of(self@, ch) is None,
            },
    {
        let ghost all = self@;
        let mut k: usize = 0;
        while k < self.ordered_chars.len()
            invariant
                k <= self.ordered_chars@.len(),
                all == self.ordered_chars@,
                all == self@,
                rank_of(all.take(k as int), ch) is None,
            decreases self.ordered_chars@.len() - k,
        {
            proof {
                assert(all.take(k + 1).drop_last() =~= all.take(k as int));
                assert(all.take(k + 1).last() == all[k as int]);
            }
            if self.ordered_chars[k] == ch {
                proof {
                    lemma_rank_prefix(all, ch, k + 1);
                }
                return Some(code_for_rank(k));
            }
            k += 1;
        }
        proof {
            assert(all.take(k as int) =~= all);
        }
        None
    }
}

fn syllable(k: usize) -> (ch: char)
    requires
        k < 11172,
    ensures
        ch as int == 0xAC00 + k,
{
    crate::text::char_at(0xAC00 + k as u32)
}

// ---------------------------------------------------------------------------
// Encoding
// ---------------------------------------------------------------------------

/// The bytes of a token.
pub open spec fn token_code(t: TextToken, order: Seq<char>) -> Result<Seq<u8>, Fault> {
    match t {
        TextToken::Char(ch) => if is_hangul(ch) || is_drawn_mark(ch) {
            match rank_of(order, ch) {
                Some(k) => Ok(rank_code(k)),
                None => Err(plain("인코딩에 없는 KO 글리프: "@ + seq![ch])),
            }
        } else {
            match jp_code(ch) {
                Some(code) => Ok(code),
                None => Err(
                    plain("지원하지 않는 문자 '"@ + seq![ch] + "' (U+"@ + hex(ch as int, 4) + ")"@),
                ),
            }
        },
        TextToken::Money => Ok(seq![0x0Cu8]),
        TextToken::Br => Ok(seq![0xFFu8]),
        TextToken::Wait => Ok(seq![0xFDu8]),
        TextToken::End => Ok(seq![0x00u8]),
        TextToken::Flags(v) => Ok(seq![0xFEu8, v]),
        TextToken::Raw(v) => Ok(seq![v]),
    }
}

/// The bytes of tokens, or what is wrong with the first token that has none.
pub open spec fn tokens_code(tokens: Seq<TextToken>, order: Seq<char>) -> Result<
    Seq<u8>,
    Fault,
>
    decreases tokens.len(),
{
    if tokens.len() == 0 {
        Ok(Seq::empty())
    } else {
        match tokens_code(tokens.drop_last(), order) {
            Err(e) => Err(e),
            Ok(bytes) => match token_code(tokens.last(), order) {
                Err(e) => Err(e),
                Ok(more) => Ok(bytes + more),
            },
        }
    }
}

/// Bytes with an end code behind them, unless they end with one.
pub open spec fn ended(bytes: Seq<u8>) -> Seq<u8> {
    if bytes.len() > 0 && bytes.last() == 0x00 {
        bytes
    } else {
        bytes.push(0x00)
    }
}

/// The bytes of a translated text.
pub open spec fn text_code(s: Seq<char>, order: Seq<char>) -> Result<Seq<u8>, Fault> {
    match tokens_of(s) {
        Err(e) => Err(e),
        Ok(tokens) => match tokens_code(tokens, order) {
            Err(e) => Err(e),
            Ok(bytes) => Ok(ended(bytes)),
        },
    }
}

proof fn lemma_tokens_code_fail(tokens: Seq<TextToken>, order: Seq<char>, k: int)
    requires
        0 <= k <= tokens.len(),
        tokens_code(tokens.take(k), order) is Err,
    ensures
        tokens_code(tokens, order) == tokens_code(tokens.take(k), order),
    decreases tokens.len(),
{
    if k == tokens.len() {
        assert(tokens.take(k) =~= tokens);
    } else {
        assert(tokens.drop_last().take(k) =~= tokens.take(k));
        lemma_tokens_code_fail(tokens.drop_last(), order, k);
    }
}

fn push_char_code(out: &mut Vec<u8>, ch: char, encoding: &KoEncoding) -> (res: Result<
    (),
    PatchError,
>)
    ensures
        match res {
            Ok(_) => token_code(TextToken::Char(ch), encoding@) matches Ok(code) && final(out)@
                == old(out)@ + code,
            Err(e) => token_code(TextToken::Char(ch), encoding@) == Err::<Seq<u8>, Fault>(e@),
        },
{
    let one: Vec<char> = vec![ch];
    proof {
        assert(one@ =~= seq![ch]);
    }
    if is_ko_dynamic_char(ch) {
        match encoding.code_for(ch) {
            Some(code) => {
                let ghost was = out@;
                out.push(code[0]);
                out.push(code[1]);
                proof {
                    assert(out@ =~= was + code@);
                }
                Ok(())
            },
            None => Err(text("인코딩에 없는 KO 글리프: ").chars(one.as_slice()).fail()),
        }
    } else {
        match encode_jp_char(ch) {
            Some(code) => {
                crate::bytes::push_all(out, code.as_slice());
                Ok(())
            },
            None => Err(
                text("지원하지 않는 문자 '").chars(one.as_slice()).lit("' (U+").hex(
                    ch as u32 as usize,
                    4,
                ).lit(")").fail(),
            ),
        }
    }
}

/// The bytes of a translated text: codes of glyphs for Korean, codes of the game's
/// font for other characters, control codes for tags, and an end code.
pub fn encode_translation_text(s: &str, encoding: &KoEncoding) -> (res: Result<
    Vec<u8>,
    PatchError,
>)
    ensures
        outcome(res) == text_code(s@, encoding@),
{
    let tokens = match parse_text(s) {
        Ok(tokens) => tokens,
        Err(e) => {
            return Err(e);
        },
    };
    let ghost all = tokens@;
    let ghost order = encoding@;
    let mut out: Vec<u8> = Vec::new();
    let mut k: usize = 0;
    while k < tokens.len()
        invariant
            k <= tokens@.len(),
            all == tokens@,
            order == encoding@,
            tokens_of(s@) == Ok::<Seq<TextToken>, Fault>(all),
            tokens_code(all.take(k as int), order) == Ok::<Seq<u8>, Fault>(out@),
        decreases tokens@.len() - k,
    {
        let ghost was = out@;
        let ghost upto = all.take(k + 1);
        proof {
            assert(upto.drop_last() =~= all.take(k as int));
            assert(upto.last() == all[k as int]);
        }
        match tokens[k] {
            TextToken::Char(ch) => {
                match push_char_code(&mut out, ch, encoding) {
                    Ok(_) => {},
                    Err(e) => {
                        proof {
                            lemma_tokens_code_fail(all, order, k + 1);
                        }
                        return Err(e);
                    },
                }
            },
            TextToken::Money => {
                out.push(MONEY_TEXT_BYTE);
                proof {
                    assert(out@ =~= was + seq![0x0Cu8]);
                }
            },
            TextToken::Br => {
                out.push(0xFF);
                proof {
                    assert(out@ =~= was + seq![0xFFu8]);
                }
            },
            TextToken::Wait => {
                out.push(0xFD);
                proof {
                    assert(out@ =~= was + seq![0xFDu8]);
                }
            },
            TextToken::End => {
                out.push(0x00);
                proof {
                    assert(out@ =~= was + seq![0x00u8]);
                }
            },
            TextToken::Flags(v) => {
                out.push(0xFE);
                out.push(v);
                proof {
                    assert(out@ =~= was + seq![0xFEu8, v]);
                }
            },
            TextToken::Raw(v) => {
                out.push(v);
                proof {
                    assert(out@ =~= was + seq![v]);
                }
            },
        }
        k += 1;
    }
    proof {
        assert(all.take(k as int) =~= all);
    }
    if out.len() == 0 || out[out.len() - 1] != 0x00 {
        out.push(0x00);
    }
    Ok(out)
}

/// An encoded text ends with the end code.
pub proof fn law_encoded_text_ends(s: Seq<char>, order: Seq<char>)
    requires
        text_code(s, order) is Ok,
    ensures
        text_code(s, order)->Ok_0.len() > 0,
        text_code(s, order)->Ok_0.last() == 0x00,
{
}

/// With the glyph order of its own tokens, every Korean character of a text has a
/// code of two bytes, whatever its rank.
pub proof fn law_own_glyphs_suffice(tokens: Seq<TextToken>, order: Seq<char>, ch: char)
    requires
        is_glyph_order(tokens, order),
        is_hangul(ch) || is_drawn_mark(ch),
        char_count(tokens, ch) > 0,
    ensures
        token_code(TextToken::Char(ch), order) matches Ok(code) && code.len() == 2,
{
    lemma_rank_of(order, ch);
    let marks = drawn_marks(tokens);
    let n = order.len() - marks.len();
    if is_hangul(ch) {
        let i = choose|i: int| 0 <= i < n && #[trigger] order[i] == ch;
        assert(order.contains(ch));
    } else {
        assert(marks.contains(ch)) by {
            if ch == ',' {
                assert(marks[0] == ',');
            } else {
                assert(marks.last() == '~');
            }
        }
        let j = choose|j: int| 0 <= j < marks.len() && marks[j] == ch;
        assert(order.skip(n)[j] == order[n + j]);
        assert(order.contains(ch));
    }
}

proof fn lemma_code_len(tokens: Seq<TextToken>, a: Seq<char>, b: Seq<char>)
    requires
        tokens_code(tokens, a) is Ok,
        tokens_code(tokens, b) is Ok,
    ensures
        tokens_code(tokens, a)->Ok_0.len() == tokens_code(tokens, b)->Ok_0.len(),
        tokens.len() > 0 && tokens_code(tokens, a)->Ok_0.len() > 0 ==> (tokens_code(
            tokens,
            a,
        )->Ok_0.last() == 0x00 <==> tokens_code(tokens, b)->Ok_0.last() == 0x00),
    decreases tokens.len(),
{
    if tokens.len() > 0 {
        lemma_code_len(tokens.drop_last(), a, b);
        let ca = tokens_code(tokens.drop_last(), a)->Ok_0;
        let cb = tokens_code(tokens.drop_last(), b)->Ok_0;
        let ta = token_code(tokens.last(), a)->Ok_0;
        let tb = token_code(tokens.last(), b)->Ok_0;
        match tokens.last() {
            TextToken::Char(ch) => {
                if is_hangul(ch) || is_drawn_mark(ch) {
                    assert(ta.len() == 2 && tb.len() == 2);
                    assert((ca + ta).last() == ta[1]);
                    assert((cb + tb).last() == tb[1]);
                    lemma_rank_of(a, ch);
                    lemma_rank_of(b, ch);
                } else {
                    assert(ta == tb);
                    assert(ta.len() > 0);
                    assert((ca + ta).last() == ta.last());
                    assert((cb + tb).last() == tb.last());
                }
            },
            _ => {
                assert(ta == tb);
                assert((ca + ta).last() == ta.last());
                assert((cb + tb).last() == tb.last());
            },
        }
    }
}

/// The length of an encoded text does not depend on the ranks of its glyphs.
pub proof fn law_length_is_rank_independent(s: Seq<char>, a: Seq<char>, b: Seq<char>)
    requires
        text_code(s, a) is Ok,
        text_code(s, b) is Ok,
    ensures
        text_code(s, a)->Ok_0.len() == text_code(s, b)->Ok_0.len(),
{
    lemma_code_len(tokens_of(s)->Ok_0, a, b);
}

} // verus!
