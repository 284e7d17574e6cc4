//! Byte strings written as hexadecimal words.
use vstd::prelude::*;
use crate::error::{outcome, plain, Fault, PatchError};
use crate::parse::{
    byte_len, digit_value, fits_bytes, is_space, lead, lemma_lead_bounds, numeral, read_uint,
    trim_start_spec, uint_read, uint_value, unsigned_digits, views, words, words_spec,
};
use crate::text::{chars_of, digit_char, hex, hex_join, text};

verus! {

/// The byte that a word denotes: two bytes of text that are a hexadecimal number.
pub open spec fn byte_word(word: Seq<char>) -> Result<u8, Fault> {
    if byte_len(word) != 2 {
        Err(plain("invalid byte token: "@ + word))
    } else {
        match uint_read(word, 16, 255) {
            Ok(v) => Ok(v as u8),
            Err(e) => Err(e.under("invalid byte token: "@ + word)),
        }
    }
}

/// The bytes that words denote, or what is wrong with the first bad one.
pub open spec fn byte_words(list: Seq<Seq<char>>) -> Result<Seq<u8>, Fault>
    decreases list.len(),
{
    if list.len() == 0 {
        Ok(Seq::empty())
    } else {
        match byte_words(list.drop_last()) {
            Err(e) => Err(e),
            Ok(bytes) => match byte_word(list.last()) {
                Err(e) => Err(e),
                Ok(b) => Ok(bytes.push(b)),
            },
        }
    }
}

/// The bytes that a text denotes, one per word.
pub open spec fn hex_text_bytes(s: Seq<char>) -> Result<Seq<u8>, Fault> {
    byte_words(words_spec(s))
}

proof fn lemma_byte_words_fail(list: Seq<Seq<char>>, k: int)
    requires
        0 <= k <= list.len(),
        byte_words(list.take(k)) is Err,
    ensures
        byte_words(list) == byte_words(list.take(k)),
    decreases list.len(),
{
    if k == list.len() {
        assert(list.take(k) =~= list);
    } else {
        assert(list.drop_last().take(k) =~= list.take(k));
        lemma_byte_words_fail(list.drop_last(), k);
    }
}

/// Reads bytes written as hexadecimal words of two characters each.
pub fn parse_hex_bytes(s: &str) -> (res: Result<Vec<u8>, PatchError>)
    ensures
        outcome(res) == hex_text_bytes(s@),
{
    let chars = chars_of(s);
    let list = words(chars.as_slice());
    let ghost all = words_spec(s@);
    let mut bytes: Vec<u8> = Vec::new();
    let mut i: usize = 0;
    while i < list.len()
        invariant
            i <= list@.len(),
            views(list@) == all,
            all == words_spec(s@),
            byte_words(all.take(i as int)) == Ok::<Seq<u8>, Fault>(bytes@),
        decreases list@.len() - i,
    {
        let word = list[i].as_slice();
        let ghost upto = all.take(i + 1);
        proof {
            assert(upto.drop_last() =~= all.take(i as int));
            assert(upto.last() == word@);
        }
        if !(fits_bytes(word, 2) && !fits_bytes(word, 1)) {
            proof {
                lemma_byte_words_fail(all, i + 1);
            }
            return Err(text("invalid byte token: ").chars(word).fail());
        }
        match read_uint(word, 16, 255) {
            Ok(v) => {
                bytes.push(v as u8);
            },
            Err(e) => {
                proof {
                    lemma_byte_words_fail(all, i + 1);
                }
                return Err(text("invalid byte token: ").chars(word).fail_after(e));
            },
        }
        i += 1;
    }
    proof {
        assert(all.take(i as int) =~= all);
    }
    Ok(bytes)
}

/// Bytes as hexadecimal words with a space between neighbours.
pub open spec fn hex_text(bytes: Seq<u8>) -> Seq<char> {
    hex_join(bytes, " "@)
}

/// Bytes as hexadecimal words with a space between neighbours.
pub fn hex_bytes(bytes: &[u8]) -> (s: String)
    ensures
        s@ == hex_text(bytes@),
{
    let empty = text("");
    proof {
        reveal_strlit("");
        assert(empty@ + hex_join(bytes@, " "@) =~= hex_join(bytes@, " "@));
    }
    empty.hex_join(bytes, " ").finish()
}

// ---------------------------------------------------------------------------
// Round trip
// ---------------------------------------------------------------------------

/// The two digits of a byte denote it.
pub proof fn lemma_hex_byte(b: u8)
    ensures
        hex(b as int, 2) == seq![digit_char(b as int / 16), digit_char(b as int % 16)],
        !is_space(hex(b as int, 2)[0]),
        !is_space(hex(b as int, 2)[1]),
        uint_value(hex(b as int, 2), 16, 0xFF) == Some(b as int),
        byte_word(hex(b as int, 2)) == Ok::<u8, Fault>(b),
{
    reveal_with_fuel(hex, 3);
    let w = hex(b as int, 2);
    assert(w =~= seq![digit_char(b as int / 16), digit_char(b as int % 16)]);
    reveal_with_fuel(byte_len, 3);
    assert(w.drop_first().drop_first() =~= Seq::empty());
    assert(byte_len(w) == 2);
    reveal_with_fuel(numeral, 3);
    assert(unsigned_digits(w) == w);
    assert(w.drop_last().drop_last() =~= Seq::empty());
    assert(digit_value(w[0], 16) == Some(b as int / 16));
    assert(digit_value(w[1], 16) == Some(b as int % 16));
    assert(numeral(w.drop_last(), 16) == Some(b as int / 16));
}

/// Joining unfolds at the front as well.
proof fn lemma_join_front(bytes: Seq<u8>, separator: Seq<char>)
    requires
        bytes.len() >= 2,
    ensures
        hex_join(bytes, separator) == hex(bytes[0] as int, 2) + separator + hex_join(
            bytes.drop_first(),
            separator,
        ),
    decreases bytes.len(),
{
    let front = bytes.drop_last();
    if bytes.len() == 2 {
        assert(front[0] == bytes[0]);
        assert(bytes.drop_first()[0] == bytes[1]);
    } else {
        lemma_join_front(front, separator);
        assert(front.drop_first() =~= bytes.drop_first().drop_last());
        assert(bytes.drop_first().last() == bytes.last());
        assert(hex_join(bytes.drop_first(), separator) == hex_join(front.drop_first(), separator)
            + separator + hex(bytes.last() as int, 2));
    }
    assert(hex_join(bytes, separator) == hex_join(front, separator) + separator + hex(
        bytes.last() as int,
        2,
    ));
    assert(hex_join(bytes, separator) =~= hex(bytes[0] as int, 2) + separator + hex_join(
        bytes.drop_first(),
        separator,
    ));
}

/// A word of two characters, alone or followed by a space, is the first word.
proof fn lemma_first_word(w: Seq<char>, rest: Seq<char>)
    requires
        w.len() == 2,
        !is_space(w[0]),
        !is_space(w[1]),
        rest.len() == 0 || rest[0] == ' ',
    ensures
        words_spec(w + rest) == seq![w] + words_spec(rest),
{
    let s = w + rest;
    assert(lead(s, true) == 0);
    assert(trim_start_spec(s) =~= s);
    assert(s.drop_first().drop_first() =~= rest);
    assert(lead(rest, false) == 0);
    assert(lead(s.drop_first(), false) == 1);
    assert(lead(s, false) == 2);
    assert(s.take(2) =~= w);
    assert(s.skip(2) =~= rest);
}

/// A leading space does not change the words.
proof fn lemma_skip_space(rest: Seq<char>)
    ensures
        words_spec(seq![' '] + rest) == words_spec(rest),
{
    let s = seq![' '] + rest;
    lemma_lead_bounds(rest, true);
    assert(s.drop_first() =~= rest);
    assert(lead(s, true) == 1 + lead(rest, true));
    assert(trim_start_spec(s) =~= trim_start_spec(rest));
}

proof fn lemma_words_of_hex(bytes: Seq<u8>)
    ensures
        words_spec(hex_text(bytes)) == Seq::new(bytes.len(), |i: int| hex(bytes[i] as int, 2)),
    decreases bytes.len(),
{
    let want = Seq::new(bytes.len(), |i: int| hex(bytes[i] as int, 2));
    reveal_strlit(" ");
    assert(" "@ =~= seq![' ']);
    if bytes.len() == 0 {
        assert(words_spec(Seq::empty()) =~= want);
    } else {
        let w = hex(bytes[0] as int, 2);
        lemma_hex_byte(bytes[0]);
        if bytes.len() == 1 {
            lemma_first_word(w, Seq::empty());
            assert(w + Seq::empty() =~= w);
            assert(words_spec(Seq::empty()) =~= Seq::empty());
            assert(words_spec(hex_text(bytes)) =~= want);
        } else {
            let tail = bytes.drop_first();
            lemma_join_front(bytes, " "@);
            lemma_words_of_hex(tail);
            let rest = " "@ + hex_text(tail);
            assert(hex_text(bytes) =~= w + rest);
            lemma_first_word(w, rest);
            lemma_skip_space(hex_text(tail));
            assert(words_spec(hex_text(bytes)) =~= want);
        }
    }
}

proof fn lemma_byte_words_of(bytes: Seq<u8>, n: int)
    requires
        0 <= n <= bytes.len(),
    ensures
        byte_words(Seq::new(bytes.len(), |i: int| hex(bytes[i] as int, 2)).take(n)) == Ok::<
            Seq<u8>,
            Fault,
        >(bytes.take(n)),
    decreases n,
{
    let all = Seq::new(bytes.len(), |i: int| hex(bytes[i] as int, 2));
    if n > 0 {
        lemma_byte_words_of(bytes, n - 1);
        lemma_hex_byte(bytes[n - 1]);
        assert(all.take(n).drop_last() =~= all.take(n - 1));
        assert(bytes.take(n - 1).push(bytes[n - 1]) =~= bytes.take(n));
    } else {
        assert(bytes.take(0) =~= Seq::empty());
    }
}

/// Bytes that were written out are read back.
pub proof fn law_hex_round_trip(bytes: Seq<u8>)
    ensures
        hex_text_bytes(hex_text(bytes)) == Ok::<Seq<u8>, Fault>(bytes),
{
    let all = Seq::new(bytes.len(), |i: int| hex(bytes[i] as int, 2));
    lemma_words_of_hex(bytes);
    lemma_byte_words_of(bytes, bytes.len() as int);
    assert(all.take(bytes.len() as int) =~= all);
    assert(bytes.take(bytes.len() as int) =~= bytes);
}

} // verus!
