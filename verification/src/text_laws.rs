//! The text table of the game, in terms of Unicode, and how the readable form of a text and
//! its encoding go together.
use vstd::prelude::*;
use crate::error::Fault;
use crate::hexbytes::lemma_hex_byte;
use crate::jp_text::{find_single, find_voiced, jp_code, preview, preview_item, token, voiced};
use crate::ko_text::{
    behind_tag, ended, is_drawn_mark, is_hangul, operand, tag_token, text_code, token_code,
    tokens_code, tokens_of, TextToken,
};
use crate::parse::{has_prefix, index_or_len, lower_all, strip_all, trim_spec};
use crate::text::{digit_char, hex};

verus! {

// ---------------------------------------------------------------------------
// The table in terms of Unicode
// ---------------------------------------------------------------------------

/// The code point of hiragana number `k` of the table. The table has the plain syllables
/// in the order of the Japanese alphabet, `n` before `wo`, then the small ones; Unicode
/// has small and voiced forms in between.
pub open spec fn hiragana_point(k: int) -> int {
    if k < 5 {
        0x3042 + 2 * k
    } else if k < 17 {
        0x304B + 2 * (k - 5)
    } else if k < 20 {
        0x3064 + 2 * (k - 17)
    } else if k < 25 {
        0x306A + (k - 20)
    } else if k < 30 {
        0x306F + 3 * (k - 25)
    } else if k < 35 {
        0x307E + (k - 30)
    } else if k < 38 {
        0x3084 + 2 * (k - 35)
    } else if k < 43 {
        0x3089 + (k - 38)
    } else if k == 43 {
        0x308F
    } else if k == 44 {
        0x3093
    } else if k == 45 {
        0x3092
    } else if k < 51 {
        0x3041 + 2 * (k - 46)
    } else if k < 54 {
        0x3083 + 2 * (k - 51)
    } else {
        0x3063
    }
}

/// Whether a byte shows one character on its own.
pub open spec fn shows_character(b: u8) -> bool {
    0x01 <= b <= 0xA0 || b == 0xA2 || b == 0xFB || b == 0xFC
}

/// The code point of the character that a byte shows on its own: the space, ten digits,
/// the currency sign, two stops, hiragana, katakana in the same order, marks, and 26
/// letters.
pub open spec fn shown_point(b: int) -> int {
    if b == 0x01 {
        0x3000
    } else if 0x02 <= b <= 0x0B {
        0xFF10 + (b - 0x02)
    } else if b == 0x0C {
        0x91D1
    } else if 0x0D <= b <= 0x0E {
        0x3001 + (b - 0x0D)
    } else if 0x0F <= b <= 0x45 {
        hiragana_point(b - 0x0F)
    } else if 0x46 <= b <= 0x7C {
        hiragana_point(b - 0x46) + 0x60
    } else if 0x7D <= b <= 0x7E {
        0x300E + (b - 0x7D)
    } else if b == 0x7F {
        0xFF01
    } else if b == 0x80 {
        0xFF1F
    } else if 0x81 <= b <= 0x82 {
        0x30FB + (b - 0x81)
    } else if b == 0x83 {
        0xFF06
    } else if b == 0x84 {
        0xFF0E
    } else if 0x85 <= b <= 0x9E {
        0xFF21 + (b - 0x85)
    } else if 0x9F <= b <= 0xA0 {
        0xFF08 + (b - 0x9F)
    } else if b == 0xA2 {
        0x2026
    } else if b == 0xFB {
        0x309C
    } else {
        0x309B
    }
}

/// Whether a byte is that of a hiragana or katakana with a voiced form.
pub open spec fn can_be_voiced(b: int) -> bool {
    0x14 <= b <= 0x22 || 0x28 <= b <= 0x2C || 0x4B <= b <= 0x59 || 0x5F <= b <= 0x63
}

/// Whether a byte is that of a hiragana or katakana with a half-voiced form.
pub open spec fn can_be_half_voiced(b: int) -> bool {
    0x28 <= b <= 0x2C || 0x5F <= b <= 0x63
}

/// Whether a text is the one character with a given code point.
pub open spec fn is_point(s: Option<Seq<char>>, point: int) -> bool {
    s matches Some(t) && t.len() == 1 && t[0] as int == point
}

proof fn lemma_tokens_1(b: u8)
    requires
        0x01 <= b <= 0x1B,
        shows_character(b),
    ensures
        is_point(token(b), shown_point(b as int)),
{
    reveal_strlit("　");
    reveal_strlit("０");
    reveal_strlit("１");
    reveal_strlit("２");
    reveal_strlit("３");
    reveal_strlit("４");
    reveal_strlit("５");
    reveal_strlit("６");
    reveal_strlit("７");
    reveal_strlit("８");
    reveal_strlit("９");
    reveal_strlit("金");
    reveal_strlit("、");
    reveal_strlit("。");
    reveal_strlit("あ");
    reveal_strlit("い");
    reveal_strlit("う");
    reveal_strlit("え");
    reveal_strlit("お");
    reveal_strlit("か");
    reveal_strlit("き");
    reveal_strlit("く");
    reveal_strlit("け");
    reveal_strlit("こ");
    reveal_strlit("さ");
    reveal_strlit("し");
    reveal_strlit("す");
}

proof fn lemma_tokens_2(b: u8)
    requires
        0x1C <= b <= 0x36,
        shows_character(b),
    ensures
        is_point(token(b), shown_point(b as int)),
{
    reveal_strlit("せ");
    reveal_strlit("そ");
    reveal_strlit("た");
    reveal_strlit("ち");
    reveal_strlit("つ");
    reveal_strlit("て");
    reveal_strlit("と");
    reveal_strlit("な");
    reveal_strlit("に");
    reveal_strlit("ぬ");
    reveal_strlit("ね");
    reveal_strlit("の");
    reveal_strlit("は");
    reveal_strlit("ひ");
    reveal_strlit("ふ");
    reveal_strlit("へ");
    reveal_strlit("ほ");
    reveal_strlit("ま");
    reveal_strlit("み");
    reveal_strlit("む");
    reveal_strlit("め");
    reveal_strlit("も");
    reveal_strlit("や");
    reveal_strlit("ゆ");
    reveal_strlit("よ");
    reveal_strlit("ら");
    reveal_strlit("り");
}

proof fn lemma_tokens_3(b: u8)
    requires
        0x37 <= b <= 0x51,
        shows_character(b),
    ensures
        is_point(token(b), shown_point(b as int)),
{
    reveal_strlit("る");
    reveal_strlit("れ");
    reveal_strlit("ろ");
    reveal_strlit("わ");
    reveal_strlit("ん");
    reveal_strlit("を");
    reveal_strlit("ぁ");
    reveal_strlit("ぃ");
    reveal_strlit("ぅ");
    reveal_strlit("ぇ");
    reveal_strlit("ぉ");
    reveal_strlit("ゃ");
    reveal_strlit("ゅ");
    reveal_strlit("ょ");
    reveal_strlit("っ");
    reveal_strlit("ア");
    reveal_strlit("イ");
    reveal_strlit("ウ");
    reveal_strlit("エ");
    reveal_strlit("オ");
    reveal_strlit("カ");
    reveal_strlit("キ");
    reveal_strlit("ク");
    reveal_strlit("ケ");
    reveal_strlit("コ");
    reveal_strlit("サ");
    reveal_strlit("シ");
}

proof fn lemma_tokens_4(b: u8)
    requires
        0x52 <= b <= 0x6C,
        shows_character(b),
    ensures
        is_point(token(b), shown_point(b as int)),
{
    reveal_strlit("ス");
    reveal_strlit("セ");
    reveal_strlit("ソ");
    reveal_strlit("タ");
    reveal_strlit("チ");
    reveal_strlit("ツ");
    reveal_strlit("テ");
    reveal_strlit("ト");
    reveal_strlit("ナ");
    reveal_strlit("ニ");
    reveal_strlit("ヌ");
    reveal_strlit("ネ");
    reveal_strlit("ノ");
    reveal_strlit("ハ");
    reveal_strlit("ヒ");
    reveal_strlit("フ");
    reveal_strlit("ヘ");
    reveal_strlit("ホ");
    reveal_strlit("マ");
    reveal_strlit("ミ");
    reveal_strlit("ム");
    reveal_strlit("メ");
    reveal_strlit("モ");
    reveal_strlit("ヤ");
    reveal_strlit("ユ");
    reveal_strlit("ヨ");
    reveal_strlit("ラ");
}

proof fn lemma_tokens_5(b: u8)
    requires
        0x6D <= b <= 0x87,
        shows_character(b),
    ensures
        is_point(token(b), shown_point(b as int)),
{
    reveal_strlit("リ");
    reveal_strlit("ル");
    reveal_strlit("レ");
    reveal_strlit("ロ");
    reveal_strlit("ワ");
    reveal_strlit("ン");
    reveal_strlit("ヲ");
    reveal_strlit("ァ");
    reveal_strlit("ィ");
    reveal_strlit("ゥ");
    reveal_strlit("ェ");
    reveal_strlit("ォ");
    reveal_strlit("ャ");
    reveal_strlit("ュ");
    reveal_strlit("ョ");
    reveal_strlit("ッ");
    reveal_strlit("『");
    reveal_strlit("』");
    reveal_strlit("！");
    reveal_strlit("？");
    reveal_strlit("・");
    reveal_strlit("ー");
    reveal_strlit("＆");
    reveal_strlit("．");
    reveal_strlit("Ａ");
    reveal_strlit("Ｂ");
    reveal_strlit("Ｃ");
}

proof fn lemma_tokens_6(b: u8)
    requires
        0x88 <= b <= 0xFB,
        shows_character(b),
    ensures
        is_point(token(b), shown_point(b as int)),
{
    reveal_strlit("Ｄ");
    reveal_strlit("Ｅ");
    reveal_strlit("Ｆ");
    reveal_strlit("Ｇ");
    reveal_strlit("Ｈ");
    reveal_strlit("Ｉ");
    reveal_strlit("Ｊ");
    reveal_strlit("Ｋ");
    reveal_strlit("Ｌ");
    reveal_strlit("Ｍ");
    reveal_strlit("Ｎ");
    reveal_strlit("Ｏ");
    reveal_strlit("Ｐ");
    reveal_strlit("Ｑ");
    reveal_strlit("Ｒ");
    reveal_strlit("Ｓ");
    reveal_strlit("Ｔ");
    reveal_strlit("Ｕ");
    reveal_strlit("Ｖ");
    reveal_strlit("Ｗ");
    reveal_strlit("Ｘ");
    reveal_strlit("Ｙ");
    reveal_strlit("Ｚ");
    reveal_strlit("（");
    reveal_strlit("）");
    reveal_strlit("…");
    reveal_strlit("゜");
}

proof fn lemma_tokens_7(b: u8)
    requires
        0xFC <= b <= 0xFC,
        shows_character(b),
    ensures
        is_point(token(b), shown_point(b as int)),
{
    reveal_strlit("゛");
}

/// Every byte that shows a character on its own shows the one that the order of the table
/// asks for: digits and letters ascend, and katakana stand where the hiragana of the same
/// sound stand. One byte shows a tag, and no other byte but the control codes shows
/// anything.
pub proof fn law_table_follows_unicode(b: u8)
    ensures
        shows_character(b) ==> is_point(token(b), shown_point(b as int)),
        b == 0xA1 ==> token(b) == Some("[copyright]"@),
        !shows_character(b) && b != 0xA1 ==> token(b) is None,
{
    if shows_character(b) {
        if b <= 0x1B {
            lemma_tokens_1(b);
        } else if b <= 0x36 {
            lemma_tokens_2(b);
        } else if b <= 0x51 {
            lemma_tokens_3(b);
        } else if b <= 0x6C {
            lemma_tokens_4(b);
        } else if b <= 0x87 {
            lemma_tokens_5(b);
        } else if b <= 0xFB {
            lemma_tokens_6(b);
        } else {
            lemma_tokens_7(b);
        }
    }
}

proof fn lemma_voiced_hiragana(base: u8)
    requires
        base <= 0x2C,
    ensures
        can_be_voiced(base as int) ==> is_point(voiced(0xFC, base), shown_point(base as int) + 1),
        !can_be_voiced(base as int) ==> voiced(0xFC, base) is None,
{
    reveal_strlit("が");
    reveal_strlit("ぎ");
    reveal_strlit("ぐ");
    reveal_strlit("げ");
    reveal_strlit("ご");
    reveal_strlit("ざ");
    reveal_strlit("じ");
    reveal_strlit("ず");
    reveal_strlit("ぜ");
    reveal_strlit("ぞ");
    reveal_strlit("だ");
    reveal_strlit("ぢ");
    reveal_strlit("づ");
    reveal_strlit("で");
    reveal_strlit("ど");
    reveal_strlit("ば");
    reveal_strlit("び");
    reveal_strlit("ぶ");
    reveal_strlit("べ");
    reveal_strlit("ぼ");
}

proof fn lemma_voiced_katakana(base: u8)
    requires
        base > 0x2C,
        base != 0x76,
    ensures
        can_be_voiced(base as int) ==> is_point(voiced(0xFC, base), shown_point(base as int) + 1),
        !can_be_voiced(base as int) ==> voiced(0xFC, base) is None,
{
    reveal_strlit("ガ");
    reveal_strlit("ギ");
    reveal_strlit("グ");
    reveal_strlit("ゲ");
    reveal_strlit("ゴ");
    reveal_strlit("ザ");
    reveal_strlit("ジ");
    reveal_strlit("ズ");
    reveal_strlit("ゼ");
    reveal_strlit("ゾ");
    reveal_strlit("ダ");
    reveal_strlit("ヂ");
    reveal_strlit("ヅ");
    reveal_strlit("デ");
    reveal_strlit("ド");
    reveal_strlit("バ");
    reveal_strlit("ビ");
    reveal_strlit("ブ");
    reveal_strlit("ベ");
    reveal_strlit("ボ");
    reveal_strlit("ヴ");
}

/// Behind the mark for voiced sounds a syllable shows its voiced form, which Unicode has
/// right behind it; behind the mark for half-voiced sounds it shows the form behind that.
/// The one exception is `vu`. No other byte takes part in a pair.
pub proof fn law_pairs_follow_unicode(prefix: u8, base: u8)
    ensures
        prefix == 0xFC && can_be_voiced(base as int) ==> is_point(
            voiced(prefix, base),
            shown_point(base as int) + 1,
        ),
        prefix == 0xFB && can_be_half_voiced(base as int) ==> is_point(
            voiced(prefix, base),
            shown_point(base as int) + 2,
        ),
        prefix == 0xFC && base == 0x76 ==> is_point(voiced(prefix, base), 0x30F4),
        voiced(prefix, base) is Some ==> {
            ||| prefix == 0xFC && (can_be_voiced(base as int) || base == 0x76)
            ||| prefix == 0xFB && can_be_half_voiced(base as int)
        },
{
    if prefix == 0xFC {
        if base <= 0x2C {
            lemma_voiced_hiragana(base);
        } else if base != 0x76 {
            lemma_voiced_katakana(base);
        }
        reveal_strlit("ヴ");
    } else if prefix == 0xFB {
        reveal_strlit("ぱ");
        reveal_strlit("ぴ");
        reveal_strlit("ぷ");
        reveal_strlit("ぺ");
        reveal_strlit("ぽ");
        reveal_strlit("パ");
        reveal_strlit("ピ");
        reveal_strlit("プ");
        reveal_strlit("ペ");
        reveal_strlit("ポ");
    }
}

// ---------------------------------------------------------------------------
// Codes of characters
// ---------------------------------------------------------------------------

proof fn lemma_points_differ(a: int, b: int)
    requires
        0x01 <= a <= 0xA0 || a == 0xA2 || a == 0xFB || a == 0xFC,
        0x01 <= b <= 0xA0 || b == 0xA2 || b == 0xFB || b == 0xFC,
        shown_point(a) == shown_point(b),
    ensures
        a == b,
{
}

proof fn lemma_pair_points_differ(a: int, b: int)
    requires
        0x01 <= a <= 0xA0 || a == 0xA2 || a == 0xFB || a == 0xFC,
        can_be_voiced(b),
    ensures
        shown_point(a) != shown_point(b) + 1,
        can_be_half_voiced(b) ==> shown_point(a) != shown_point(b) + 2,
        shown_point(a) != 0x30F4,
{
}

proof fn lemma_finds_single(b: u8, ch: char, from: int)
    requires
        shows_character(b),
        ch as int == shown_point(b as int),
        1 <= from <= b,
    ensures
        find_single(ch, from) == Some(b),
    decreases b - from,
{
    let f = from as u8;
    law_table_follows_unicode(f);
    if from < b {
        if shows_character(f) {
            if shown_point(f as int) == shown_point(b as int) {
                lemma_points_differ(f as int, b as int);
            }
            assert(token(f)->0[0] != ch);
        } else {
            reveal_strlit("[copyright]");
        }
        assert(token(f) != Some(seq![ch])) by {
            if token(f) == Some(seq![ch]) {
                assert(token(f)->0.len() == 1);
                assert(token(f)->0[0] == ch);
            }
        }
        lemma_finds_single(b, ch, from + 1);
    } else {
        assert(token(b)->0 =~= seq![ch]);
    }
}

proof fn lemma_finds_no_single(ch: char, from: int)
    requires
        1 <= from,
        forall|b: u8| shows_character(b) ==> #[trigger] shown_point(b as int) != ch as int,
    ensures
        find_single(ch, from) is None,
    decreases 0xFD - from,
{
    if from <= 0xFC {
        let f = from as u8;
        law_table_follows_unicode(f);
        if shows_character(f) {
            assert(shown_point(f as int) != ch as int);
            assert(token(f)->0[0] != ch);
        } else {
            reveal_strlit("[copyright]");
        }
        assert(token(f) != Some(seq![ch])) by {
            if token(f) == Some(seq![ch]) {
                assert(token(f)->0.len() == 1);
                assert(token(f)->0[0] == ch);
            }
        }
        lemma_finds_no_single(ch, from + 1);
    }
}

/// The code point that a pair shows.
pub open spec fn pair_point(prefix: u8, base: u8) -> int {
    if prefix == 0xFB {
        shown_point(base as int) + 2
    } else if base == 0x76 {
        0x30F4
    } else {
        shown_point(base as int) + 1
    }
}

/// Whether two bytes show one character together.
pub open spec fn shows_pair(prefix: u8, base: u8) -> bool {
    ||| prefix == 0xFC && (can_be_voiced(base as int) || base == 0x76)
    ||| prefix == 0xFB && can_be_half_voiced(base as int)
}

proof fn lemma_pairs_differ(prefix: u8, a: u8, other: u8, b: u8)
    requires
        shows_pair(prefix, a),
        shows_pair(other, b),
        pair_point(prefix, a) == pair_point(other, b),
    ensures
        prefix == other && a == b,
{
}

proof fn lemma_finds_voiced(prefix: u8, base: u8, ch: char, other: u8, from: int)
    requires
        shows_pair(prefix, base),
        ch as int == pair_point(prefix, base),
        0 <= from <= 0x100,
        other == prefix ==> from <= base,
        other == 0xFB || other == 0xFC,
    ensures
        find_voiced(ch, other, from) == if other == prefix {
            Some(base)
        } else {
            None
        },
    decreases 0x100 - from,
{
    if from <= 0xFF {
        let f = from as u8;
        law_pairs_follow_unicode(other, f);
        if other == prefix && f == base {
            assert(voiced(prefix, base)->0 =~= seq![ch]);
        } else {
            if shows_pair(other, f) && pair_point(other, f) == pair_point(prefix, base) {
                lemma_pairs_differ(other, f, prefix, base);
            }
            if voiced(other, f) is Some {
                assert(voiced(other, f)->0[0] != ch);
            }
            assert(voiced(other, f) != Some(seq![ch]));
            lemma_finds_voiced(prefix, base, ch, other, from + 1);
        }
    }
}

/// A character of the game's font has the byte that shows it as its code; one that only a
/// pair of bytes shows has that pair.
pub proof fn law_characters_have_their_codes(b: u8, base: u8, ch: char)
    ensures
        shows_character(b) && ch as int == shown_point(b as int) ==> jp_code(ch) == Some(seq![b]),
        shows_pair(b, base) && ch as int == pair_point(b, base) ==> jp_code(ch) == Some(
            seq![b, base],
        ),
{
    if shows_character(b) && ch as int == shown_point(b as int) {
        lemma_finds_single(b, ch, 1);
    }
    if shows_pair(b, base) && ch as int == pair_point(b, base) {
        assert forall|x: u8| shows_character(x) implies #[trigger] shown_point(x as int)
            != ch as int by {
            if can_be_voiced(base as int) {
                lemma_pair_points_differ(x as int, base as int);
            } else {
                lemma_pair_points_differ(x as int, 0x14);
            }
        }
        lemma_finds_no_single(ch, 1);
        lemma_finds_voiced(b, base, ch, 0xFB, 0);
        lemma_finds_voiced(b, base, ch, 0xFC, 0);
    }
}

proof fn lemma_no_voiced(ch: char, prefix: u8, from: int)
    requires
        0 <= from,
        prefix == 0xFB || prefix == 0xFC,
        forall|base: u8|
            shows_pair(prefix, base) ==> #[trigger] pair_point(prefix, base) != ch as int,
    ensures
        find_voiced(ch, prefix, from) is None,
    decreases 0x100 - from,
{
    if from <= 0xFF {
        let f = from as u8;
        law_pairs_follow_unicode(prefix, f);
        if voiced(prefix, f) is Some {
            assert(pair_point(prefix, f) != ch as int);
            assert(voiced(prefix, f)->0[0] != ch);
        }
        lemma_no_voiced(ch, prefix, from + 1);
    }
}

/// Whether the game's font has a character.
pub open spec fn in_font(ch: char) -> bool {
    ||| exists|b: u8| shows_character(b) && #[trigger] shown_point(b as int) == ch as int
    ||| exists|prefix: u8, base: u8|
        shows_pair(prefix, base) && #[trigger] pair_point(prefix, base) == ch as int
}

/// A character has a code exactly if the game's font has it.
pub proof fn law_only_the_font_has_codes(ch: char)
    ensures
        jp_code(ch) is Some <==> in_font(ch),
{
    if in_font(ch) {
        if exists|b: u8| shows_character(b) && #[trigger] shown_point(b as int) == ch as int {
            let b = choose|b: u8| shows_character(b) && #[trigger] shown_point(b as int) == ch as int;
            law_characters_have_their_codes(b, 0, ch);
        } else {
            let (prefix, base) = choose|prefix: u8, base: u8|
                shows_pair(prefix, base) && #[trigger] pair_point(prefix, base) == ch as int;
            law_characters_have_their_codes(prefix, base, ch);
        }
    } else {
        lemma_finds_no_single(ch, 1);
        lemma_no_voiced(ch, 0xFB, 0);
        lemma_no_voiced(ch, 0xFC, 0);
    }
}

// ---------------------------------------------------------------------------
// Texts piece by piece
// ---------------------------------------------------------------------------

proof fn lemma_code_front(t: TextToken, rest: Seq<TextToken>, order: Seq<char>)
    ensures
        tokens_code(seq![t] + rest, order) == match (token_code(t, order), tokens_code(rest, order)) {
            (Err(e), _) => Err::<Seq<u8>, Fault>(e),
            (Ok(_), Err(e)) => Err(e),
            (Ok(a), Ok(b)) => Ok(a + b),
        },
    decreases rest.len(),
{
    let all = seq![t] + rest;
    if rest.len() == 0 {
        assert(all.drop_last() =~= Seq::empty());
        assert(all.last() == t);
        match token_code(t, order) {
            Ok(a) => {
                assert(Seq::<u8>::empty() + a =~= a);
                assert(a + Seq::<u8>::empty() =~= a);
            },
            Err(_) => {},
        }
    } else {
        assert(all.drop_last() =~= seq![t] + rest.drop_last());
        assert(all.last() == rest.last());
        lemma_code_front(t, rest.drop_last(), order);
        match (token_code(t, order), tokens_code(rest.drop_last(), order), token_code(rest.last(), order)) {
            (Ok(a), Ok(b), Ok(c)) => {
                assert(a + (b + c) =~= (a + b) + c);
            },
            _ => {},
        }
    }
}

proof fn lemma_closing_bracket(word: Seq<char>, rest: Seq<char>)
    requires
        forall|i: int| 0 <= i < word.len() ==> word[i] != ']',
    ensures
        index_or_len(word + seq![']'] + rest, ']') == word.len(),
    decreases word.len(),
{
    let s = word + seq![']'] + rest;
    if word.len() > 0 {
        let tail = word.drop_first();
        assert forall|i: int| 0 <= i < tail.len() implies tail[i] != ']' by {
            assert(tail[i] == word[i + 1]);
        }
        lemma_closing_bracket(tail, rest);
        assert(s.drop_first() =~= tail + seq![']'] + rest);
        assert(s[0] == word[0]);
    }
}

/// A tag in brackets.
pub open spec fn tagged(word: Seq<char>) -> Seq<char> {
    "["@ + word + "]"@
}

proof fn lemma_tag_first(word: Seq<char>, rest: Seq<char>)
    requires
        word.len() > 0,
        forall|i: int| 0 <= i < word.len() ==> word[i] != ']',
    ensures
        tokens_of(tagged(word) + rest) == match (tag_token(word), tokens_of(rest)) {
            (Err(e), _) => Err::<Seq<TextToken>, Fault>(e),
            (Ok(_), Err(e)) => Err(e),
            (Ok(t), Ok(list)) => Ok(seq![t] + list),
        },
{
    reveal_strlit("[");
    reveal_strlit("]");
    let s = tagged(word) + rest;
    let inner = word + seq![']'] + rest;
    assert(s.drop_first() =~= inner);
    lemma_closing_bracket(word, rest);
    assert(inner.take(word.len() as int) =~= word);
    assert(inner.skip((word.len() + 1) as int) =~= rest);
    assert(behind_tag(inner) == rest);
}

proof fn lemma_char_first(ch: char, rest: Seq<char>)
    requires
        ch != '[',
    ensures
        tokens_of(seq![ch] + rest) == match tokens_of(rest) {
            Err(e) => Err::<Seq<TextToken>, Fault>(e),
            Ok(list) => Ok(seq![TextToken::Char(ch)] + list),
        },
{
    let s = seq![ch] + rest;
    assert(s.drop_first() =~= rest);
}

proof fn lemma_word_tags()
    ensures
        tag_token("br"@) == Ok::<TextToken, Fault>(TextToken::Br),
        tag_token("wait"@) == Ok::<TextToken, Fault>(TextToken::Wait),
        tag_token("end"@) == Ok::<TextToken, Fault>(TextToken::End),
        tag_token("money"@) == Ok::<TextToken, Fault>(TextToken::Money),
{
    reveal_strlit("br");
    reveal_strlit("wait");
    reveal_strlit("end");
    reveal_strlit("money");
    assert(lower_all("br"@) =~= "br"@);
    assert(lower_all("wait"@) =~= "wait"@);
    assert(lower_all("end"@) =~= "end"@);
    assert(lower_all("money"@) =~= "money"@);
    assert("wait"@.len() == 4);
    assert("br"@.len() == 2);
    assert("end"@.len() == 3);
    assert("money"@.len() == 5);
}

/// Whether texts go together with bytes whatever stands behind: where the rest can be
/// encoded, the bytes stand before those of the rest.
pub open spec fn encodes_to(piece: Seq<char>, code: Seq<u8>, rest: Seq<char>, order: Seq<char>) -> bool {
    match text_code(rest, order) {
        Ok(bytes) => text_code(piece + rest, order) == Ok::<Seq<u8>, Fault>(code + bytes),
        Err(_) => text_code(piece + rest, order) is Err,
    }
}

proof fn lemma_piece(
    piece: Seq<char>,
    t: TextToken,
    code: Seq<u8>,
    rest: Seq<char>,
    order: Seq<char>,
)
    requires
        tokens_of(piece + rest) == match tokens_of(rest) {
            Err(e) => Err::<Seq<TextToken>, Fault>(e),
            Ok(list) => Ok(seq![t] + list),
        },
        token_code(t, order) == Ok::<Seq<u8>, Fault>(code),
        code.len() > 0,
        code.last() != 0x00 || rest.len() > 0,
    ensures
        encodes_to(piece, code, rest, order),
{
    match tokens_of(rest) {
        Ok(list) => {
            lemma_code_front(t, list, order);
            match tokens_code(list, order) {
                Ok(bytes) => {
                    if rest.len() > 0 {
                        lemma_has_tokens(rest);
                        lemma_has_bytes(list, order);
                    }
                    assert(ended(code + bytes) =~= code + ended(bytes));
                },
                Err(_) => {},
            }
        },
        Err(_) => {},
    }
}

proof fn lemma_one_more(t: TextToken, list: Seq<TextToken>)
    ensures
        (seq![t] + list).len() == 1 + list.len(),
{
}

proof fn lemma_has_tokens(s: Seq<char>)
    requires
        s.len() > 0,
        tokens_of(s) is Ok,
    ensures
        tokens_of(s)->Ok_0.len() > 0,
{
    if s[0] == '[' {
        let rest = s.drop_first();
        let tag = rest.take(index_or_len(rest, ']'));
        let t = tag_token(tag)->Ok_0;
        let list = tokens_of(behind_tag(rest))->Ok_0;
        assert(tokens_of(s)->Ok_0 == seq![t] + list);
        assert((seq![t] + list).len() == 1 + list.len());
    } else {
        let list = tokens_of(s.drop_first())->Ok_0;
        lemma_one_more(TextToken::Char(s[0]), list);
    }
}

proof fn lemma_has_bytes(tokens: Seq<TextToken>, order: Seq<char>)
    requires
        tokens.len() > 0,
        tokens_code(tokens, order) is Ok,
    ensures
        tokens_code(tokens, order)->Ok_0.len() > 0,
{
    match tokens.last() {
        TextToken::Char(ch) => {
            if !(is_hangul(ch) || is_drawn_mark(ch)) {
                crate::jp_text::lemma_jp_code(ch);
            }
        },
        _ => {},
    }
}

/// What the control tags are encoded to, whatever text follows: a line break is `0xFF`, a
/// pause is `0xFD`, the currency sign is `0x0C`, and an end that is not the last thing is
/// `0x00`. An end at the very end adds nothing to the end code that every text gets.
pub proof fn law_control_tags(rest: Seq<char>, order: Seq<char>)
    ensures
        encodes_to("[br]"@, seq![0xFFu8], rest, order),
        encodes_to("[wait]"@, seq![0xFDu8], rest, order),
        encodes_to("[money]"@, seq![0x0Cu8], rest, order),
        rest.len() > 0 ==> encodes_to("[end]"@, seq![0x00u8], rest, order),
        text_code("[end]"@, order) == Ok::<Seq<u8>, Fault>(seq![0x00u8]),
        text_code(Seq::empty(), order) == Ok::<Seq<u8>, Fault>(seq![0x00u8]),
{
    reveal_strlit("br");
    reveal_strlit("wait");
    reveal_strlit("end");
    reveal_strlit("money");
    reveal_strlit("[br]");
    reveal_strlit("[wait]");
    reveal_strlit("[end]");
    reveal_strlit("[money]");
    reveal_strlit("[");
    reveal_strlit("]");
    lemma_word_tags();
    lemma_tag_words();
    lemma_tag_first("br"@, rest);
    lemma_tag_first("wait"@, rest);
    lemma_tag_first("money"@, rest);
    lemma_tag_first("end"@, rest);
    lemma_piece("[br]"@, TextToken::Br, seq![0xFFu8], rest, order);
    lemma_piece("[wait]"@, TextToken::Wait, seq![0xFDu8], rest, order);
    lemma_piece("[money]"@, TextToken::Money, seq![0x0Cu8], rest, order);
    if rest.len() > 0 {
        lemma_piece("[end]"@, TextToken::End, seq![0x00u8], rest, order);
    }
    lemma_tag_first("end"@, Seq::empty());
    assert("[end]"@ + Seq::<char>::empty() =~= "[end]"@);
    lemma_code_front(TextToken::End, Seq::empty(), order);
    assert(seq![0x00u8] + Seq::<u8>::empty() =~= seq![0x00u8]);
    assert(ended(Seq::empty()) =~= seq![0x00u8]);
}

proof fn lemma_tag_words()
    ensures
        tagged("br"@) == "[br]"@,
        tagged("wait"@) == "[wait]"@,
        tagged("end"@) == "[end]"@,
        tagged("money"@) == "[money]"@,
{
    reveal_strlit("br");
    reveal_strlit("wait");
    reveal_strlit("end");
    reveal_strlit("money");
    reveal_strlit("[br]");
    reveal_strlit("[wait]");
    reveal_strlit("[end]");
    reveal_strlit("[money]");
    reveal_strlit("[");
    reveal_strlit("]");
    assert(tagged("br"@) =~= "[br]"@);
    assert(tagged("wait"@) =~= "[wait]"@);
    assert(tagged("end"@) =~= "[end]"@);
    assert(tagged("money"@) =~= "[money]"@);
}

proof fn lemma_operand(v: u8)
    ensures
        operand(hex(v as int, 2)) == Ok::<u8, Fault>(v),
        hex(v as int, 2).len() == 2,
        forall|i: int| 0 <= i < 2 ==> #[trigger] hex(v as int, 2)[i] != ']',
{
    let w = hex(v as int, 2);
    lemma_hex_byte(v);
    reveal_strlit("$");
    reveal_strlit("0x");
    assert(crate::parse::lead(w, true) == 0);
    assert(crate::parse::trim_start_spec(w) =~= w);
    assert(trim_spec(w) == w);
    assert(w[0] == digit_char(v as int / 16));
    assert(w[1] == digit_char(v as int % 16));
    assert(!has_prefix(w, "$"@)) by {
        if has_prefix(w, "$"@) {
            assert(w.take(1)[0] == '$');
        }
    }
    assert(!has_prefix(w, "0x"@)) by {
        if has_prefix(w, "0x"@) {
            assert(w.take(2)[1] == 'x');
        }
    }
    assert(strip_all(strip_all(trim_spec(w), "$"@), "0x"@) == w);
}

/// Flags and raw bytes stand in a text as hexadecimal numbers and go into the code as they
/// are, flags behind the code `0xFE`.
pub proof fn law_byte_tags(v: u8, rest: Seq<char>, order: Seq<char>)
    requires
        v != 0x00 || rest.len() > 0,
    ensures
        encodes_to("[flags:"@ + hex(v as int, 2) + "]"@, seq![0xFEu8, v], rest, order),
        encodes_to("[raw:"@ + hex(v as int, 2) + "]"@, seq![v], rest, order),
{
    let w = hex(v as int, 2);
    let flags = "flags:"@ + w;
    let raw = "raw:"@ + w;
    lemma_operand(v);
    reveal_strlit("[flags:");
    reveal_strlit("[raw:");
    reveal_strlit("flags:");
    reveal_strlit("raw:");
    reveal_strlit("br");
    reveal_strlit("wait");
    reveal_strlit("end");
    reveal_strlit("money");
    reveal_strlit("[");
    reveal_strlit("]");
    assert(tagged(flags) =~= "[flags:"@ + w + "]"@);
    assert(tagged(raw) =~= "[raw:"@ + w + "]"@);
    assert(flags.skip(6) =~= w);
    assert(raw.skip(4) =~= w);
    assert(lower_all(flags).len() == 8);
    assert(lower_all(raw).len() == 6);
    assert(lower_all(flags).take(6) =~= "flags:"@);
    assert(lower_all(raw).take(4) =~= "raw:"@);
    assert(lower_all(raw)[0] == 'r');
    assert(!has_prefix(lower_all(raw), "flags:"@)) by {
        if has_prefix(lower_all(raw), "flags:"@) {
            assert(lower_all(raw).take(6)[0] == 'f');
        }
    }
    assert(tag_token(flags) == Ok::<TextToken, Fault>(TextToken::Flags(v)));
    assert(tag_token(raw) == Ok::<TextToken, Fault>(TextToken::Raw(v)));
    assert forall|i: int| 0 <= i < flags.len() implies flags[i] != ']' by {
        if i >= 6 {
            assert(flags[i] == w[i - 6]);
        }
    }
    assert forall|i: int| 0 <= i < raw.len() implies raw[i] != ']' by {
        if i >= 4 {
            assert(raw[i] == w[i - 4]);
        }
    }
    lemma_tag_first(flags, rest);
    lemma_tag_first(raw, rest);
    lemma_piece(tagged(flags), TextToken::Flags(v), seq![0xFEu8, v], rest, order);
    lemma_piece(tagged(raw), TextToken::Raw(v), seq![v], rest, order);
}

proof fn lemma_font_point(b: u8, base: u8)
    ensures
        shows_character(b) ==> {
            &&& shown_point(b as int) != 0x5B
            &&& !(0xAC00 <= shown_point(b as int) <= 0xD7A3)
            &&& shown_point(b as int) != 0x2C
            &&& shown_point(b as int) != 0x7E
        },
        shows_pair(b, base) ==> 0x3040 <= pair_point(b, base) <= 0x30FF,
{
}

/// A character of the game's font goes into the code as the byte, or the pair of bytes,
/// that shows it.
pub proof fn law_font_characters(b: u8, base: u8, ch: char, rest: Seq<char>, order: Seq<char>)
    ensures
        shows_character(b) && ch as int == shown_point(b as int) ==> encodes_to(
            seq![ch],
            seq![b],
            rest,
            order,
        ),
        shows_pair(b, base) && ch as int == pair_point(b, base) ==> encodes_to(
            seq![ch],
            seq![b, base],
            rest,
            order,
        ),
{
    lemma_font_point(b, base);
    law_characters_have_their_codes(b, base, ch);
    if shows_character(b) && ch as int == shown_point(b as int) {
        lemma_char_first(ch, rest);
        lemma_piece(seq![ch], TextToken::Char(ch), seq![b], rest, order);
    }
    if shows_pair(b, base) && ch as int == pair_point(b, base) {
        lemma_char_first(ch, rest);
        lemma_piece(seq![ch], TextToken::Char(ch), seq![b, base], rest, order);
    }
}

/// Whether a character is shown by an added glyph: a composed Korean syllable, the comma
/// or the tilde.
pub open spec fn needs_glyph(ch: char) -> bool {
    0xAC00 <= ch as int <= 0xD7A3 || ch as int == 0x2C || ch as int == 0x7E
}

/// A character with an added glyph goes into the code as the prefix and the number of its
/// place in the order of glyphs: 250 places to each of the prefixes from `0xA3` on,
/// numbered from 1.
pub proof fn law_glyph_characters(k: int, rest: Seq<char>, order: Seq<char>)
    requires
        0 <= k < order.len(),
        k < 1000,
        needs_glyph(order[k]),
        forall|i: int| 0 <= i < k ==> order[i] != order[k],
    ensures
        encodes_to(
            seq![order[k]],
            seq![(0xA3 + k / 250) as u8, (1 + k % 250) as u8],
            rest,
            order,
        ),
{
    let ch = order[k];
    crate::ko_text::lemma_rank_of(order, ch);
    lemma_rank_is_first(order, ch, k);
    lemma_char_first(ch, rest);
    lemma_piece(
        seq![ch],
        TextToken::Char(ch),
        seq![(0xA3 + k / 250) as u8, (1 + k % 250) as u8],
        rest,
        order,
    );
}

proof fn lemma_rank_is_first(order: Seq<char>, ch: char, k: int)
    requires
        0 <= k < order.len(),
        order[k] == ch,
        forall|i: int| 0 <= i < k ==> order[i] != ch,
    ensures
        crate::ko_text::rank_of(order, ch) == Some(k),
    decreases order.len(),
{
    let front = order.drop_last();
    crate::ko_text::lemma_rank_of(front, ch);
    if k < order.len() - 1 {
        lemma_rank_is_first(front, ch, k);
    } else if crate::ko_text::rank_of(front, ch) is Some {
        let i = crate::ko_text::rank_of(front, ch)->0;
        assert(order[i] == ch);
    }
}

/// A text with a character that can be shown neither by the font nor by a glyph of the
/// order is refused, and so is one with an empty tag or one that says none of the words.
pub proof fn law_what_cannot_be_shown(
    ch: char,
    word: Seq<char>,
    rest: Seq<char>,
    order: Seq<char>,
)
    ensures
        ch != '[' && needs_glyph(ch) && !order.contains(ch) ==> text_code(
            seq![ch] + rest,
            order,
        ) is Err,
        ch != '[' && !needs_glyph(ch) && !in_font(ch) ==> text_code(seq![ch] + rest, order) is Err,
        text_code("[]"@ + rest, order) is Err,
        (forall|i: int| 0 <= i < word.len() ==> word[i] != ']' && word[i] != ':') && (forall|i: int|
            0 <= i < word.len() ==> !(0x41 <= #[trigger] word[i] as int <= 0x5A)) && word != "br"@
            && word != "wait"@ && word != "end"@ && word != "money"@ ==> text_code(
            tagged(word) + rest,
            order,
        ) is Err,
{
    if ch != '[' {
        lemma_char_first(ch, rest);
        crate::ko_text::lemma_rank_of(order, ch);
        law_only_the_font_has_codes(ch);
        match tokens_of(rest) {
            Ok(list) => {
                lemma_code_front(TextToken::Char(ch), list, order);
            },
            Err(_) => {},
        }
        if crate::ko_text::rank_of(order, ch) is Some {
            assert(order.contains(ch));
        }
    }
    reveal_strlit("[]");
    reveal_strlit("[");
    reveal_strlit("]");
    let s = "[]"@ + rest;
    assert(s.drop_first() =~= seq![']'] + rest);
    assert(index_or_len(s.drop_first(), ']') == 0);
    assert(s.drop_first().take(0) =~= Seq::<char>::empty());
    if (forall|i: int| 0 <= i < word.len() ==> word[i] != ']' && word[i] != ':') && (forall|i: int|
        0 <= i < word.len() ==> !(0x41 <= #[trigger] word[i] as int <= 0x5A)) && word != "br"@
        && word != "wait"@ && word != "end"@ && word != "money"@ {
        if word.len() == 0 {
            assert(tagged(word) + rest =~= "[]"@ + rest);
        } else {
            lemma_tag_first(word, rest);
            assert(lower_all(word) =~= word);
            reveal_strlit("flags:");
            reveal_strlit("raw:");
            if has_prefix(word, "flags:"@) {
                assert(word.take(6)[5] == ':');
            }
            if has_prefix(word, "raw:"@) {
                assert(word.take(4)[3] == ':');
            }
            assert(tag_token(word) is Err);
        }
    }
}

// ---------------------------------------------------------------------------
// Readable forms piece by piece
// ---------------------------------------------------------------------------

/// A byte that shows nothing, as it stands in a readable form.
pub open spec fn in_angles(v: u8) -> Seq<char> {
    "<$"@ + hex(v as int, 2) + ">"@
}

/// What the bytes of a text show, whatever follows: `0x00` is an end, `0xFD` a pause,
/// `0xFF` a line break, `0xFE` stands before a byte of flags, a pair of bytes shows its
/// character, and a byte that shows nothing is written out.
pub proof fn law_readable_codes(v: u8, rest: Seq<u8>)
    ensures
        preview(Seq::empty()) == Seq::<char>::empty(),
        preview(seq![0x00u8] + rest) == "[end]"@ + preview(rest),
        preview(seq![0xFDu8] + rest) == "[wait]"@ + preview(rest),
        preview(seq![0xFFu8] + rest) == "[br]"@ + preview(rest),
        preview(seq![0xFEu8, v] + rest) == "[flags]"@ + in_angles(v) + preview(rest),
        preview(seq![0xFEu8]) == "[flags]"@,
        preview(seq![0xA1u8] + rest) == "[copyright]"@ + preview(rest),
        0xA3 <= v <= 0xFA ==> preview(seq![v] + rest) == in_angles(v) + preview(rest),
        shows_character(v) && v < 0xFB ==> {
            let s = preview(seq![v] + rest);
            &&& s.len() == 1 + preview(rest).len()
            &&& s[0] as int == shown_point(v as int)
            &&& s.drop_first() == preview(rest)
        },
{
    law_table_follows_unicode(v);
    law_table_follows_unicode(0xA1);
    assert((seq![0x00u8] + rest).skip(1) =~= rest);
    assert((seq![0xFDu8] + rest).skip(1) =~= rest);
    assert((seq![0xFFu8] + rest).skip(1) =~= rest);
    assert((seq![0xA1u8] + rest).skip(1) =~= rest);
    assert((seq![v] + rest).skip(1) =~= rest);
    assert((seq![0xFEu8, v] + rest).skip(2) =~= rest);
    let one = seq![0xFEu8];
    assert(one.len() == 1);
    assert(preview_item(one) == ("[flags]"@, 1int));
    assert(one.skip(1) =~= Seq::<u8>::empty());
    assert(preview(one.skip(1)) =~= Seq::<char>::empty());
    assert(preview(one) == "[flags]"@ + preview(one.skip(1)));
    assert(preview(one) =~= "[flags]"@);
    if shows_character(v) && v < 0xFB {
        let s = preview(seq![v] + rest);
        assert(s == token(v)->0 + preview(rest));
        assert(s.drop_first() =~= preview(rest));
    }
}

/// What a mark for voiced or half-voiced sounds shows: together with a syllable that has
/// the form, the one character; else itself.
pub proof fn law_readable_pairs(prefix: u8, rest: Seq<u8>)
    requires
        prefix == 0xFB || prefix == 0xFC,
    ensures
        ({
            let s = preview(seq![prefix] + rest);
            if rest.len() > 0 && shows_pair(prefix, rest[0]) {
                &&& s.len() == 1 + preview(rest.drop_first()).len()
                &&& s[0] as int == pair_point(prefix, rest[0])
                &&& s.drop_first() == preview(rest.drop_first())
            } else {
                &&& s.len() == 1 + preview(rest).len()
                &&& s[0] as int == shown_point(prefix as int)
                &&& s.drop_first() == preview(rest)
            }
        }),
{
    let all = seq![prefix] + rest;
    let s = preview(all);
    law_table_follows_unicode(prefix);
    assert(all.skip(1) =~= rest);
    if rest.len() > 0 {
        assert(all[1] == rest[0]);
        law_pairs_follow_unicode(prefix, rest[0]);
        assert(all.skip(2) =~= rest.drop_first());
        if shows_pair(prefix, rest[0]) {
            assert(s == voiced(prefix, rest[0])->0 + preview(rest.drop_first()));
            assert(s.drop_first() =~= preview(rest.drop_first()));
        }
    }
    if !(rest.len() > 0 && shows_pair(prefix, rest[0])) {
        assert(s == token(prefix)->0 + preview(rest));
        assert(s.drop_first() =~= preview(rest));
    }
}

// ---------------------------------------------------------------------------
// There and back
// ---------------------------------------------------------------------------

/// Whether a byte is one whose readable form can be encoded: a character or a control
/// code without flags.
pub open spec fn is_readable_byte(b: u8) -> bool {
    shows_character(b) || b == 0x00 || b == 0xFD || b == 0xFF
}

proof fn lemma_control_back(b: u8, shown: Seq<char>, order: Seq<char>)
    requires
        b == 0x00 || b == 0xFD || b == 0xFF,
        tokens_of(shown) is Ok,
    ensures
        ({
            let word = if b == 0x00 {
                "[end]"@
            } else if b == 0xFD {
                "[wait]"@
            } else {
                "[br]"@
            };
            &&& tokens_of(word + shown) is Ok
            &&& tokens_code(tokens_of(shown)->Ok_0, order) matches Ok(bytes) ==> tokens_code(
                tokens_of(word + shown)->Ok_0,
                order,
            ) == Ok::<Seq<u8>, Fault>(seq![b] + bytes)
        }),
{
    lemma_word_tags();
    lemma_tag_words();
    reveal_strlit("br");
    reveal_strlit("wait");
    reveal_strlit("end");
    lemma_tag_first("br"@, shown);
    lemma_tag_first("wait"@, shown);
    lemma_tag_first("end"@, shown);
    let list = tokens_of(shown)->Ok_0;
    lemma_code_front(TextToken::End, list, order);
    lemma_code_front(TextToken::Wait, list, order);
    lemma_code_front(TextToken::Br, list, order);
}

proof fn lemma_character_back(
    b: u8,
    base: u8,
    code: Seq<u8>,
    ch: char,
    shown: Seq<char>,
    order: Seq<char>,
)
    requires
        ({
            ||| shows_character(b) && ch as int == shown_point(b as int) && code == seq![b]
            ||| shows_pair(b, base) && ch as int == pair_point(b, base) && code == seq![b, base]
        }),
        tokens_of(shown) is Ok,
    ensures
        tokens_of(seq![ch] + shown) is Ok,
        tokens_code(tokens_of(shown)->Ok_0, order) matches Ok(bytes) ==> tokens_code(
            tokens_of(seq![ch] + shown)->Ok_0,
            order,
        ) == Ok::<Seq<u8>, Fault>(code + bytes),
{
    lemma_font_point(b, base);
    law_characters_have_their_codes(b, base, ch);
    lemma_char_first(ch, shown);
    lemma_code_front(TextToken::Char(ch), tokens_of(shown)->Ok_0, order);
}

/// The first item of a readable text: a control code, or a character of one or two bytes.
proof fn lemma_item(bytes: Seq<u8>)
    requires
        bytes.len() > 0,
        is_readable_byte(bytes[0]),
    ensures
        ({
            let b = bytes[0];
            let item = preview_item(bytes);
            &&& 1 <= item.1 <= bytes.len()
            &&& b == 0x00 ==> item == ("[end]"@, 1int)
            &&& b == 0xFD ==> item == ("[wait]"@, 1int)
            &&& b == 0xFF ==> item == ("[br]"@, 1int)
            &&& shows_character(b) ==> {
                &&& item.0.len() == 1
                &&& item.1 == 1 ==> item.0[0] as int == shown_point(b as int)
                &&& item.1 != 1 ==> item.1 == 2 && shows_pair(b, bytes[1]) && item.0[0] as int
                    == pair_point(b, bytes[1])
            }
        }),
{
    law_table_follows_unicode(bytes[0]);
    if bytes.len() > 1 {
        law_pairs_follow_unicode(bytes[0], bytes[1]);
    }
}

proof fn lemma_back(bytes: Seq<u8>, order: Seq<char>)
    requires
        forall|i: int| 0 <= i < bytes.len() ==> is_readable_byte(#[trigger] bytes[i]),
    ensures
        tokens_of(preview(bytes)) is Ok,
        tokens_code(tokens_of(preview(bytes))->Ok_0, order) == Ok::<Seq<u8>, Fault>(bytes),
    decreases bytes.len(),
{
    if bytes.len() > 0 {
        let b = bytes[0];
        let item = preview_item(bytes);
        let rest = bytes.skip(item.1);
        assert(is_readable_byte(bytes[0]));
        lemma_item(bytes);
        assert forall|i: int| 0 <= i < rest.len() implies is_readable_byte(#[trigger] rest[i]) by {
            assert(rest[i] == bytes[i + item.1]);
        }
        lemma_back(rest, order);
        let shown = preview(rest);
        let code = bytes.take(item.1);
        assert(code + rest =~= bytes);
        assert(preview(bytes) == item.0 + shown);
        if b == 0x00 || b == 0xFD || b == 0xFF {
            lemma_control_back(b, shown, order);
            assert(code =~= seq![b]);
        } else {
            let ch = item.0[0];
            assert(item.0 =~= seq![ch]);
            if item.1 == 2 {
                assert(code =~= seq![b, bytes[1]]);
                lemma_character_back(b, bytes[1], code, ch, shown, order);
            } else {
                assert(code =~= seq![b]);
                lemma_character_back(b, 0, code, ch, shown, order);
            }
        }
    } else {
        assert(bytes =~= Seq::empty());
    }
}

/// Encoding the readable form of a script gives the script back, wherever it holds only
/// characters and control codes without flags: no line break, pause, end or character is
/// lost or mistaken for another. A text without an end gets one.
pub proof fn law_preview_encodes_back(bytes: Seq<u8>, order: Seq<char>)
    requires
        forall|i: int| 0 <= i < bytes.len() ==> is_readable_byte(#[trigger] bytes[i]),
    ensures
        text_code(preview(bytes), order) == Ok::<Seq<u8>, Fault>(
            if bytes.len() > 0 && bytes.last() == 0x00 {
                bytes
            } else {
                bytes.push(0x00)
            },
        ),
{
    lemma_back(bytes, order);
}

/// Two scripts of characters and control codes without flags that look alike are the same.
pub proof fn law_readable_forms_differ(a: Seq<u8>, b: Seq<u8>)
    requires
        forall|i: int| 0 <= i < a.len() ==> is_readable_byte(#[trigger] a[i]),
        forall|i: int| 0 <= i < b.len() ==> is_readable_byte(#[trigger] b[i]),
        preview(a) == preview(b),
    ensures
        a == b,
{
    lemma_back(a, Seq::empty());
    lemma_back(b, Seq::empty());
}

} // verus!
