//! Numbers that were written out are read back.
use vstd::prelude::*;
use crate::error::Fault;
use crate::hexbytes::hex_text;
use crate::ko_text::{operand, operand_digits};
use crate::parse::{
    byte_len, digit_value, has_prefix, is_space, numeral, strip_all, trim_spec, uint_read,
    uint_value, unsigned_digits,
};
use crate::runtime_probe::{address_value, crc_value, marked_hex};
use crate::tag_laws::lemma_trim_nothing;
use crate::text::{dec, dec_pad, digit_char, hex};
use crate::translation::{crc_digits, optional_crc};

verus! {

/// Whether a character is a digit of base sixteen in capitals.
pub open spec fn is_hex_digit(c: char) -> bool {
    0x30 <= c as int <= 0x39 || 0x41 <= c as int <= 0x46
}

proof fn lemma_digit(d: int, radix: int)
    requires
        0 <= d < radix <= 16,
    ensures
        digit_value(digit_char(d), radix) == Some(d),
        is_hex_digit(digit_char(d)),
        d < 10 ==> 0x30 <= digit_char(d) as int <= 0x39,
{
}

/// A number in base sixteen has at least as many digits as were asked for, all of them
/// digits, and denotes the number.
pub proof fn law_hex_denotes(n: int, width: int)
    requires
        0 <= n,
        0 <= width,
    ensures
        numeral(hex(n, width), 16) == Some(n),
        hex(n, width).len() >= 1,
        hex(n, width).len() >= width,
        forall|i: int| 0 <= i < hex(n, width).len() ==> is_hex_digit(#[trigger] hex(n, width)[i]),
    decreases n + width,
{
    let s = hex(n, width);
    if n < 16 && width <= 1 {
        lemma_digit(n, 16);
        assert(s.drop_last() =~= Seq::empty());
        assert(numeral(s.drop_last(), 16) == Some(0int));
    } else {
        let less = if width == 0 {
            0
        } else {
            width - 1
        };
        law_hex_denotes(n / 16, less);
        lemma_digit(n % 16, 16);
        let front = hex(n / 16, less);
        assert(s.drop_last() =~= front);
        assert(s.last() == digit_char(n % 16));
        assert(n / 16 * 16 + n % 16 == n);
    }
}

/// A number below the largest of so many digits of base sixteen takes exactly that many.
pub proof fn law_hex_width(n: int, width: int)
    requires
        0 <= n,
        1 <= width,
        n < pow16(width),
    ensures
        hex(n, width).len() == width,
    decreases width,
{
    if n < 16 && width <= 1 {
    } else if width == 1 {
        assert(pow16(1) == 16 * pow16(0));
    } else {
        assert(pow16(width) == 16 * pow16(width - 1));
        law_hex_width(n / 16, width - 1);
    }
}

/// Sixteen to a power.
pub open spec fn pow16(width: int) -> int
    decreases width,
{
    if width <= 0 {
        1
    } else {
        16 * pow16(width - 1)
    }
}

/// A number in base ten denotes the number.
pub proof fn law_dec_denotes(n: int)
    requires
        0 <= n,
    ensures
        numeral(dec(n), 10) == Some(n),
        dec(n).len() >= 1,
        forall|i: int| 0 <= i < dec(n).len() ==> 0x30 <= #[trigger] dec(n)[i] as int <= 0x39,
    decreases n,
{
    let s = dec(n);
    if n < 10 {
        lemma_digit(n, 10);
        assert(s.drop_last() =~= Seq::empty());
        assert(numeral(s.drop_last(), 10) == Some(0int));
    } else {
        law_dec_denotes(n / 10);
        lemma_digit(n % 10, 10);
        let front = dec(n / 10);
        assert(s.drop_last() =~= front);
        assert(s.last() == digit_char(n % 10));
        assert forall|i: int| 0 <= i < s.len() implies 0x30 <= #[trigger] s[i] as int <= 0x39 by {
            if i < s.len() - 1 {
                assert(s[i] == front[i]);
            }
        }
    }
}

/// A number in base ten with leading zeros denotes the number.
pub proof fn law_dec_pad_denotes(n: int, width: int)
    requires
        0 <= n,
        0 <= width,
    ensures
        numeral(dec_pad(n, width), 10) == Some(n),
        dec_pad(n, width).len() >= width,
    decreases n + width,
{
    let s = dec_pad(n, width);
    if n < 10 && width <= 1 {
        lemma_digit(n, 10);
        assert(s.drop_last() =~= Seq::empty());
        assert(numeral(s.drop_last(), 10) == Some(0int));
    } else {
        let less = if width == 0 {
            0
        } else {
            width - 1
        };
        law_dec_pad_denotes(n / 10, less);
        lemma_digit(n % 10, 10);
        assert(s.drop_last() =~= dec_pad(n / 10, less));
        assert(s.last() == digit_char(n % 10));
        assert(n / 10 * 10 + n % 10 == n);
    }
}

proof fn lemma_hex_read(n: int, width: int, max: int)
    requires
        0 <= n <= max,
        0 <= width,
    ensures
        uint_read(hex(n, width), 16, max) == Ok::<int, Fault>(n),
{
    law_hex_denotes(n, width);
    assert(hex(n, width)[0] != '+');
}

proof fn lemma_marked(mark: Seq<char>, s: Seq<char>)
    requires
        forall|i: int| 0 <= i < mark.len() ==> !is_space(#[trigger] mark[i]),
        forall|i: int| 0 <= i < s.len() ==> !is_space(#[trigger] s[i]),
    ensures
        trim_spec(mark + s) == mark + s,
{
    let all = mark + s;
    assert forall|i: int| 0 <= i < all.len() implies !is_space(#[trigger] all[i]) by {
        if i < mark.len() {
            assert(all[i] == mark[i]);
        } else {
            assert(all[i] == s[i - mark.len()]);
        }
    }
    lemma_trim_nothing(all);
}

/// Addresses are read back however they were written: in base sixteen behind `0x`, `0X` or
/// a dollar sign, or in base ten.
pub proof fn law_addresses_read_back(n: int, width: int)
    requires
        0 <= n <= 0xFFFF_FFFF,
        0 <= width,
    ensures
        address_value("0x"@ + hex(n, width)) == Ok::<int, Fault>(n),
        address_value("0X"@ + hex(n, width)) == Ok::<int, Fault>(n),
        address_value("$"@ + hex(n, width)) == Ok::<int, Fault>(n),
        address_value(dec(n)) == Ok::<int, Fault>(n),
{
    reveal_strlit("0x");
    reveal_strlit("0X");
    reveal_strlit("$");
    let h = hex(n, width);
    let d = dec(n);
    law_hex_denotes(n, width);
    law_dec_denotes(n);
    lemma_hex_read(n, width, 0xFFFF_FFFF);
    assert forall|i: int| 0 <= i < h.len() implies !is_space(#[trigger] h[i]) by {
        assert(is_hex_digit(h[i]));
    }
    assert forall|i: int| 0 <= i < d.len() implies !is_space(#[trigger] d[i]) by {
        assert(0x30 <= d[i] as int <= 0x39);
    }
    lemma_marked("0x"@, h);
    lemma_marked("0X"@, h);
    lemma_marked("$"@, h);
    lemma_trim_nothing(d);
    assert(("0x"@ + h).skip(2) =~= h);
    assert(("0X"@ + h).skip(2) =~= h);
    assert(("$"@ + h).skip(1) =~= h);
    assert(0x30 <= d[0] as int <= 0x39);
    if d.len() >= 2 {
        assert(0x30 <= d[1] as int <= 0x39);
    }
    assert(marked_hex(d) is None);
    assert(unsigned_digits(d) == d);
    assert(uint_value(d, 10, 0xFFFF_FFFF) == Some(n));
}

proof fn lemma_ascii_len(s: Seq<char>)
    requires
        forall|i: int| 0 <= i < s.len() ==> #[trigger] s[i] as int <= 0x7F,
    ensures
        byte_len(s) == s.len(),
    decreases s.len(),
{
    if s.len() > 0 {
        let rest = s.drop_first();
        assert forall|i: int| 0 <= i < rest.len() implies #[trigger] rest[i] as int <= 0x7F by {
            assert(rest[i] == s[i + 1]);
        }
        lemma_ascii_len(rest);
        assert(s[0] as int <= 0x7F);
    }
}

/// A checksum that was written out in eight digits is read back, for scenes and for
/// translations; a blank one is none.
pub proof fn law_checksums_read_back(sum: u32)
    ensures
        crc_value(hex(sum as int, 8)) == Ok::<int, Fault>(sum as int),
        optional_crc(hex(sum as int, 8)) == Ok::<Option<u32>, Fault>(Some(sum)),
        optional_crc(Seq::empty()) == Ok::<Option<u32>, Fault>(None),
{
    let n = sum as int;
    let h = hex(n, 8);
    reveal_strlit("$");
    reveal_strlit("0x");
    reveal_with_fuel(pow16, 9);
    law_hex_width(n, 8);
    law_hex_denotes(n, 8);
    lemma_hex_read(n, 8, 0xFFFF_FFFF);
    assert forall|i: int| 0 <= i < h.len() implies !is_space(#[trigger] h[i]) && h[i] as int
        <= 0x7F by {
        assert(is_hex_digit(h[i]));
    }
    lemma_trim_nothing(h);
    lemma_trim_nothing(Seq::empty());
    lemma_ascii_len(h);
    assert(!has_prefix(h, "$"@)) by {
        if has_prefix(h, "$"@) {
            assert(h.take(1)[0] == '$');
            assert(is_hex_digit(h[0]));
        }
    }
    assert(!has_prefix(h, "0x"@)) by {
        if has_prefix(h, "0x"@) {
            assert(h.take(2)[1] == 'x');
            assert(is_hex_digit(h[1]));
        }
    }
    assert(strip_all(h, "$"@) == h);
    assert(strip_all(h, "0x"@) == h);
    assert(crc_digits(h) == h);
}

/// Bytes are written out with two digits each and one blank between them.
pub proof fn law_written_bytes(bytes: Seq<u8>, i: int)
    requires
        0 <= i < bytes.len(),
    ensures
        hex_text(bytes).len() == 3 * bytes.len() - 1,
        numeral(hex_text(bytes).subrange(3 * i, 3 * i + 2), 16) == Some(bytes[i] as int),
        i < bytes.len() - 1 ==> hex_text(bytes)[3 * i + 2] == ' ',
    decreases bytes.len(),
{
    let s = hex_text(bytes);
    let n = bytes.len() as int;
    let last = hex(bytes.last() as int, 2);
    reveal_strlit(" ");
    law_hex_denotes(bytes.last() as int, 2);
    assert(pow16(2) == 256) by {
        reveal_with_fuel(pow16, 3);
    }
    law_hex_width(bytes.last() as int, 2);
    if n == 1 {
        assert(s.subrange(0, 2) =~= last);
    } else {
        let front = bytes.drop_last();
        law_written_bytes(front, if i < n - 1 {
            i
        } else {
            0
        });
        let t = hex_text(front);
        assert(s == t + " "@ + last);
        if i < n - 1 {
            assert(s.subrange(3 * i, 3 * i + 2) =~= t.subrange(3 * i, 3 * i + 2));
            if i < n - 2 {
                assert(s[3 * i + 2] == t[3 * i + 2]);
            } else {
                assert(s[3 * i + 2] == ' ');
            }
        } else {
            assert(s.subrange(3 * i, 3 * i + 2) =~= last);
        }
    }
}

proof fn lemma_bare(h: Seq<char>)
    requires
        forall|i: int| 0 <= i < h.len() ==> is_hex_digit(#[trigger] h[i]),
    ensures
        strip_all(h, "$"@) == h,
        strip_all(h, "0x"@) == h,
{
    reveal_strlit("$");
    reveal_strlit("0x");
    if has_prefix(h, "$"@) {
        assert(h.take(1)[0] == '$');
        assert(is_hex_digit(h[0]));
    }
    if has_prefix(h, "0x"@) {
        assert(h.take(2)[1] == 'x');
        assert(is_hex_digit(h[1]));
    }
}

proof fn lemma_marks_go(h: Seq<char>)
    requires
        forall|i: int| 0 <= i < h.len() ==> is_hex_digit(#[trigger] h[i]),
    ensures
        crc_digits(h) == h,
        crc_digits("$"@ + h) == h,
        crc_digits("0x"@ + h) == h,
        operand_digits(h) == h,
        operand_digits("$"@ + h) == h,
        operand_digits("0x"@ + h) == h,
{
    reveal_strlit("$");
    reveal_strlit("0x");
    assert forall|i: int| 0 <= i < h.len() implies !is_space(#[trigger] h[i]) by {
        assert(is_hex_digit(h[i]));
    }
    lemma_bare(h);
    lemma_trim_nothing(h);
    lemma_marked("$"@, h);
    lemma_marked("0x"@, h);
    let a = "$"@ + h;
    let b = "0x"@ + h;
    assert(a.take(1) =~= "$"@);
    assert(a.skip(1) =~= h);
    assert(strip_all(a, "$"@) == strip_all(h, "$"@));
    assert(b.take(2) =~= "0x"@);
    assert(b.skip(2) =~= h);
    if has_prefix(b, "$"@) {
        assert(b.take(1)[0] == '$');
        assert(b[0] == '0');
    }
    assert(strip_all(b, "$"@) == b);
    assert(strip_all(b, "0x"@) == strip_all(h, "0x"@));
}

/// Checksums and the operands of tags may have a dollar sign or `0x` before their digits. An
/// operand has at most two digits, a checksum exactly eight.
pub proof fn law_marked_numbers(v: u8, sum: u32, h: Seq<char>)
    requires
        forall|i: int| 0 <= i < h.len() ==> is_hex_digit(#[trigger] h[i]),
    ensures
        operand(hex(v as int, 2)) == Ok::<u8, Fault>(v),
        operand("$"@ + hex(v as int, 2)) == Ok::<u8, Fault>(v),
        operand("0x"@ + hex(v as int, 2)) == Ok::<u8, Fault>(v),
        h.len() > 2 ==> operand(h) is Err,
        crc_value("$"@ + hex(sum as int, 8)) == Ok::<int, Fault>(sum as int),
        crc_value("0x"@ + hex(sum as int, 8)) == Ok::<int, Fault>(sum as int),
        optional_crc("$"@ + hex(sum as int, 8)) == Ok::<Option<u32>, Fault>(Some(sum)),
        optional_crc("0x"@ + hex(sum as int, 8)) == Ok::<Option<u32>, Fault>(Some(sum)),
        h.len() != 8 ==> crc_value(h) is Err,
{
    let b = hex(v as int, 2);
    let d = hex(sum as int, 8);
    reveal_strlit("$");
    reveal_strlit("0x");
    law_hex_denotes(v as int, 2);
    law_hex_denotes(sum as int, 8);
    law_checksums_read_back(sum);
    lemma_hex_read(v as int, 2, 255);
    lemma_hex_read(sum as int, 8, 0xFFFF_FFFF);
    lemma_marks_go(b);
    lemma_marks_go(d);
    lemma_marks_go(h);
    assert forall|i: int| 0 <= i < h.len() implies h[i] as int <= 0x7F by {
        assert(is_hex_digit(h[i]));
    }
    lemma_ascii_len(h);
    assert forall|i: int| 0 <= i < b.len() implies b[i] as int <= 0x7F by {
        assert(is_hex_digit(b[i]));
    }
    lemma_ascii_len(b);
    assert(pow16(2) == 256) by {
        reveal_with_fuel(pow16, 3);
    }
    law_hex_width(v as int, 2);
    lemma_marked("$"@, d);
    lemma_marked("0x"@, d);
}

} // verus!
