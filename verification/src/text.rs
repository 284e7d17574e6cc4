//! Characters, numbers in text, and message building.
//!
//! Text is handled as slices of `char`; the model of every text is `Seq<char>`.
use vstd::prelude::*;
use crate::error::{plain, PatchError};

verus! {

/// `std::string::String::push` appends one character to the string.
pub assume_specification[ String::push ](s: &mut String, c: char)
    ensures
        final(s)@ == old(s)@.push(c),
;

/// `char::from_u32` gives the character of a code point, and none exactly where the
/// number is a surrogate or beyond the last code point.
pub assume_specification[ char::from_u32 ](i: u32) -> (c: Option<char>)
    ensures
        match c {
            Some(ch) => ch as int == i,
            None => 0xD800 <= i <= 0xDFFF || i > 0x10FFFF,
        },
;

// ---------------------------------------------------------------------------
// Numbers as text
// ---------------------------------------------------------------------------

/// The upper-case digit of value `d` in bases up to sixteen.
pub open spec fn digit_char(d: int) -> char {
    if 0 <= d < 10 {
        (0x30 + d) as char
    } else {
        (0x37 + d) as char
    }
}

/// `n` in base ten, without leading zeros.
pub open spec fn dec(n: int) -> Seq<char>
    decreases n,
{
    if n < 10 {
        seq![digit_char(n)]
    } else {
        dec(n / 10).push(digit_char(n % 10))
    }
}

/// `n` in base sixteen, upper case, padded with zeros on the left to at least
/// `width` digits.
pub open spec fn hex(n: int, width: int) -> Seq<char>
    decreases n + width,
{
    if n < 0 || width < 0 || (n < 16 && width <= 1) {
        seq![digit_char(n)]
    } else {
        hex(n / 16, if width == 0 { 0 } else { width - 1 }).push(digit_char(n % 16))
    }
}

/// `n` in base ten, padded with zeros on the left to at least `width` digits.
pub open spec fn dec_pad(n: int, width: int) -> Seq<char>
    decreases n + width,
{
    if n < 0 || width < 0 || (n < 10 && width <= 1) {
        seq![digit_char(n)]
    } else {
        dec_pad(n / 10, if width == 0 { 0 } else { width - 1 }).push(digit_char(n % 10))
    }
}

/// Bytes as two-digit hexadecimal numbers with a separator between neighbours.
pub open spec fn hex_join(bytes: Seq<u8>, separator: Seq<char>) -> Seq<char>
    decreases bytes.len(),
{
    if bytes.len() == 0 {
        Seq::empty()
    } else if bytes.len() == 1 {
        hex(bytes[0] as int, 2)
    } else {
        hex_join(bytes.drop_last(), separator) + separator + hex(bytes.last() as int, 2)
    }
}

/// The digit character of `d`.
pub fn digit(d: u8) -> (c: char)
    requires
        d < 16,
    ensures
        c == digit_char(d as int),
{
    if d < 10 {
        (0x30 + d) as char
    } else {
        (0x37 + d) as char
    }
}

/// Appends `n` in base ten.
pub fn push_dec(s: &mut String, n: u128)
    ensures
        final(s)@ == old(s)@ + dec(n as int),
    decreases n,
{
    let ghost start = s@;
    if n >= 10 {
        push_dec(s, n / 10);
    }
    s.push(digit((n % 10) as u8));
    proof {
        assert(s@ =~= start + dec(n as int));
    }
}

/// Appends `n` in base sixteen with at least `width` digits.
pub fn push_hex(s: &mut String, n: u128, width: usize)
    ensures
        final(s)@ == old(s)@ + hex(n as int, width as int),
    decreases n + width,
{
    let ghost start = s@;
    if !(n < 16 && width <= 1) {
        push_hex(s, n / 16, if width == 0 { 0 } else { width - 1 });
    }
    s.push(digit((n % 16) as u8));
    proof {
        assert(s@ =~= start + hex(n as int, width as int));
    }
}

/// Appends `n` in base ten with at least `width` digits.
pub fn push_dec_pad(s: &mut String, n: u128, width: usize)
    ensures
        final(s)@ == old(s)@ + dec_pad(n as int, width as int),
    decreases n + width,
{
    let ghost start = s@;
    if !(n < 10 && width <= 1) {
        push_dec_pad(s, n / 10, if width == 0 { 0 } else { width - 1 });
    }
    s.push(digit((n % 10) as u8));
    proof {
        assert(s@ =~= start + dec_pad(n as int, width as int));
    }
}

/// The lower-case digit of value `d`.
pub open spec fn lower_digit_char(d: int) -> char {
    if 0 <= d < 10 {
        (0x30 + d) as char
    } else {
        (0x57 + d) as char
    }
}

/// A byte as two lower-case hexadecimal digits.
pub open spec fn lower_hex_byte(b: u8) -> Seq<char> {
    seq![lower_digit_char(b as int / 16), lower_digit_char(b as int % 16)]
}

fn lower_digit(d: u8) -> (c: char)
    requires
        d < 16,
    ensures
        c == lower_digit_char(d as int),
{
    if d < 10 {
        (0x30 + d) as char
    } else {
        (0x57 + d) as char
    }
}

/// Appends a byte as two lower-case hexadecimal digits.
pub fn push_lower_hex(s: &mut String, b: u8)
    ensures
        final(s)@ == old(s)@ + lower_hex_byte(b),
{
    let ghost start = s@;
    s.push(lower_digit(b / 16));
    s.push(lower_digit(b % 16));
    proof {
        assert(s@ =~= start + lower_hex_byte(b));
    }
}

// ---------------------------------------------------------------------------
// Conversions between strings and character vectors
// ---------------------------------------------------------------------------

/// The characters of a string.
pub fn chars_of(s: &str) -> (chars: Vec<char>)
    ensures
        chars@ == s@,
{
    let mut chars: Vec<char> = Vec::new();
    for c in it: s.chars()
        invariant
            it.seq() == s@,
            chars@ == s@.take(it.index()),
    {
        chars.push(c);
        proof {
            assert(chars@ =~= s@.take(it.index() + 1));
        }
    }
    proof {
        assert(s@.take(s@.len() as int) =~= s@);
    }
    chars
}

/// The string made of the given characters.
pub fn string_of(chars: &[char]) -> (s: String)
    ensures
        s@ == chars@,
{
    let mut s = String::new();
    let mut i: usize = 0;
    while i < chars.len()
        invariant
            i <= chars@.len(),
            s@ == chars@.take(i as int),
        decreases chars@.len() - i,
    {
        s.push(chars[i]);
        i += 1;
        proof {
            assert(s@ =~= chars@.take(i as int));
        }
    }
    proof {
        assert(chars@.take(i as int) =~= chars@);
    }
    s
}

/// The character of a code point.
pub fn char_at(code: u32) -> (c: char)
    requires
        code <= 0xD7FF,
    ensures
        c as int == code,
{
    match char::from_u32(code) {
        Some(c) => c,
        None => ' ',
    }
}

// ---------------------------------------------------------------------------
// Message building
// ---------------------------------------------------------------------------

/// A text under construction.
#[derive(Debug)]
pub struct Text {
    /// What has been written so far.
    pub content: String,
}

impl View for Text {
    type V = Seq<char>;

    open spec fn view(&self) -> Seq<char> {
        self.content@
    }
}

/// Starts a text.
pub fn text(start: &str) -> (t: Text)
    ensures
        t@ == start@,
{
    Text { content: start.to_owned() }
}

impl Text {
    /// Appends a string.
    pub fn lit(self, s: &str) -> (t: Text)
        ensures
            t@ == self@ + s@,
    {
        let mut content = self.content;
        content.append(s);
        Text { content }
    }

    /// Appends characters.
    pub fn chars(self, s: &[char]) -> (t: Text)
        ensures
            t@ == self@ + s@,
    {
        let tail = string_of(s);
        self.lit(tail.as_str())
    }

    /// Appends a number in base ten.
    pub fn dec(self, n: usize) -> (t: Text)
        ensures
            t@ == self@ + dec(n as int),
    {
        let mut content = self.content;
        push_dec(&mut content, n as u128);
        Text { content }
    }

    /// Appends a number in base sixteen with at least `width` digits.
    pub fn hex(self, n: usize, width: usize) -> (t: Text)
        ensures
            t@ == self@ + hex(n as int, width as int),
    {
        let mut content = self.content;
        push_hex(&mut content, n as u128, width);
        Text { content }
    }

    /// Appends a wide number in base ten.
    pub fn dec_wide(self, n: u128) -> (t: Text)
        ensures
            t@ == self@ + dec(n as int),
    {
        let mut content = self.content;
        push_dec(&mut content, n);
        Text { content }
    }

    /// Appends a wide number in base sixteen with at least `width` digits.
    pub fn hex_wide(self, n: u128, width: usize) -> (t: Text)
        ensures
            t@ == self@ + hex(n as int, width as int),
    {
        let mut content = self.content;
        push_hex(&mut content, n, width);
        Text { content }
    }

    /// Appends a number in base ten with at least `width` digits.
    pub fn dec_pad(self, n: usize, width: usize) -> (t: Text)
        ensures
            t@ == self@ + dec_pad(n as int, width as int),
    {
        let mut content = self.content;
        push_dec_pad(&mut content, n as u128, width);
        Text { content }
    }

    /// Appends bytes as two-digit numbers with a separator between neighbours.
    pub fn hex_join(self, bytes: &[u8], separator: &str) -> (t: Text)
        ensures
            t@ == self@ + hex_join(bytes@, separator@),
    {
        let mut content = self.content;
        let ghost start = content@;
        let mut i: usize = 0;
        proof {
            assert(start + hex_join(bytes@.take(0), separator@) =~= start);
        }
        while i < bytes.len()
            invariant
                i <= bytes@.len(),
                content@ == start + hex_join(bytes@.take(i as int), separator@),
            decreases bytes@.len() - i,
        {
            let ghost before = bytes@.take(i as int);
            let ghost after = bytes@.take(i + 1);
            proof {
                assert(after.drop_last() =~= before);
            }
            if i > 0 {
                content.append(separator);
            }
            push_hex(&mut content, bytes[i] as u128, 2);
            proof {
                assert(content@ =~= start + hex_join(after, separator@));
            }
            i += 1;
        }
        proof {
            assert(bytes@.take(i as int) =~= bytes@);
        }
        Text { content }
    }

    /// The finished string.
    pub fn finish(self) -> (s: String)
        ensures
            s@ == self@,
    {
        self.content
    }

    /// The finished text as the message of an error that another one led to.
    pub fn fail_after(self, cause: PatchError) -> (error: PatchError)
        ensures
            error@ == cause@.under(self@),
    {
        cause.under(self.content)
    }

    /// The finished text as an error message.
    pub fn fail(self) -> (error: PatchError)
        ensures
            error@ == plain(self@),
    {
        PatchError::new(self.content)
    }
}

} // verus!
