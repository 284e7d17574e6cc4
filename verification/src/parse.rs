//! Reading numbers and words out of text.
use vstd::prelude::*;
use vstd::slice::slice_subrange;
use crate::error::{plain, Fault, PatchError};
use crate::text::text;

verus! {

// ---------------------------------------------------------------------------
// White space
// ---------------------------------------------------------------------------

/// The characters with the Unicode property `White_Space`.
pub open spec fn is_space(c: char) -> bool {
    let n = c as int;
    ||| 0x09 <= n <= 0x0D
    ||| n == 0x20
    ||| n == 0x85
    ||| n == 0xA0
    ||| n == 0x1680
    ||| 0x2000 <= n <= 0x200A
    ||| n == 0x2028
    ||| n == 0x2029
    ||| n == 0x202F
    ||| n == 0x205F
    ||| n == 0x3000
}

/// Whether a character is white space.
pub fn space(c: char) -> (r: bool)
    ensures
        r == is_space(c),
{
    let n: u32 = c as u32;
    (0x09 <= n && n <= 0x0D) || n == 0x20 || n == 0x85 || n == 0xA0 || n == 0x1680 || (0x2000 <= n
        && n <= 0x200A) || n == 0x2028 || n == 0x2029 || n == 0x202F || n == 0x205F || n == 0x3000
}

/// How many leading characters are white space (`space`) or are not (`!space`).
pub open spec fn lead(s: Seq<char>, space: bool) -> int
    decreases s.len(),
{
    if s.len() == 0 || is_space(s[0]) != space {
        0
    } else {
        1 + lead(s.drop_first(), space)
    }
}

/// The text without leading white space.
pub open spec fn trim_start_spec(s: Seq<char>) -> Seq<char> {
    s.skip(lead(s, true))
}

/// The text without trailing white space.
pub open spec fn trim_end_spec(s: Seq<char>) -> Seq<char>
    decreases s.len(),
{
    if s.len() > 0 && is_space(s.last()) {
        trim_end_spec(s.drop_last())
    } else {
        s
    }
}

/// The text without white space at either end.
pub open spec fn trim_spec(s: Seq<char>) -> Seq<char> {
    trim_end_spec(trim_start_spec(s))
}

pub proof fn lemma_lead_bounds(s: Seq<char>, space: bool)
    ensures
        0 <= lead(s, space) <= s.len(),
    decreases s.len(),
{
    if !(s.len() == 0 || is_space(s[0]) != space) {
        lemma_lead_bounds(s.drop_first(), space);
    }
}

/// How far the run at the start of `s` reaches.
pub fn lead_len(s: &[char], is_blank: bool) -> (n: usize)
    ensures
        n as int == lead(s@, is_blank),
        n <= s@.len(),
{
    let mut n: usize = 0;
    proof {
        assert(s@.skip(0) =~= s@);
    }
    while n < s.len() && space(s[n]) == is_blank
        invariant
            n <= s@.len(),
            lead(s@, is_blank) == n + lead(s@.skip(n as int), is_blank),
        decreases s@.len() - n,
    {
        proof {
            assert(s@.skip(n as int).drop_first() =~= s@.skip(n + 1));
        }
        n += 1;
    }
    n
}

/// The text without leading white space.
pub fn trim_start(s: &[char]) -> (r: &[char])
    ensures
        r@ == trim_start_spec(s@),
{
    let n = lead_len(s, true);
    slice_subrange(s, n, s.len())
}

/// The text without trailing white space.
pub fn trim_end(s: &[char]) -> (r: &[char])
    ensures
        r@ == trim_end_spec(s@),
{
    let mut n: usize = s.len();
    proof {
        assert(s@.take(n as int) =~= s@);
    }
    while n > 0 && space(s[n - 1])
        invariant
            n <= s@.len(),
            trim_end_spec(s@) == trim_end_spec(s@.take(n as int)),
        decreases n,
    {
        proof {
            assert(s@.take(n as int).drop_last() =~= s@.take(n - 1));
        }
        n -= 1;
    }
    slice_subrange(s, 0, n)
}

/// The text without white space at either end.
pub fn trim(s: &[char]) -> (r: &[char])
    ensures
        r@ == trim_spec(s@),
{
    trim_end(trim_start(s))
}

/// The words of a text: its maximal runs without white space.
pub open spec fn words_spec(s: Seq<char>) -> Seq<Seq<char>>
    decreases s.len(),
    via words_decreases
{
    let t = trim_start_spec(s);
    if t.len() == 0 {
        Seq::empty()
    } else {
        let n = lead(t, false);
        seq![t.take(n)] + words_spec(t.skip(n))
    }
}

#[via_fn]
proof fn words_decreases(s: Seq<char>) {
    lemma_lead_bounds(s, true);
    let t = trim_start_spec(s);
    lemma_lead_bounds(t, false);
    if t.len() > 0 {
        lemma_first_not_space(s);
        lemma_lead_bounds(t.drop_first(), false);
    }
}

proof fn lemma_first_not_space(s: Seq<char>)
    ensures
        trim_start_spec(s).len() > 0 ==> !is_space(trim_start_spec(s)[0]),
    decreases s.len(),
{
    lemma_lead_bounds(s, true);
    if s.len() > 0 && is_space(s[0]) {
        lemma_first_not_space(s.drop_first());
        lemma_lead_bounds(s.drop_first(), true);
        assert(s.skip(lead(s, true)) =~= s.drop_first().skip(lead(s.drop_first(), true)));
    } else {
        assert(s.skip(0) =~= s);
    }
}

/// The models of a list of texts.
pub open spec fn views(list: Seq<Vec<char>>) -> Seq<Seq<char>> {
    Seq::new(list.len(), |i: int| list[i]@)
}

/// The models of a list of strings.
pub open spec fn string_views(list: Seq<String>) -> Seq<Seq<char>> {
    Seq::new(list.len(), |i: int| list[i]@)
}

/// A copy of a text.
pub fn copy_chars(s: &[char]) -> (v: Vec<char>)
    ensures
        v@ == s@,
{
    let mut v: Vec<char> = Vec::new();
    let mut i: usize = 0;
    while i < s.len()
        invariant
            i <= s@.len(),
            v@ == s@.take(i as int),
        decreases s@.len() - i,
    {
        v.push(s[i]);
        i += 1;
        proof {
            assert(v@ =~= s@.take(i as int));
        }
    }
    proof {
        assert(s@.take(i as int) =~= s@);
    }
    v
}

/// The words of a text.
pub fn words(s: &[char]) -> (list: Vec<Vec<char>>)
    ensures
        views(list@) == words_spec(s@),
{
    let mut list: Vec<Vec<char>> = Vec::new();
    let mut rest = s;
    proof {
        assert(views(list@) + words_spec(rest@) =~= words_spec(s@));
    }
    loop
        invariant
            views(list@) + words_spec(rest@) == words_spec(s@),
        decreases rest@.len(),
    {
        let ghost before = rest@;
        let t = trim_start(rest);
        proof {
            lemma_lead_bounds(rest@, true);
            lemma_first_not_space(rest@);
        }
        if t.len() == 0 {
            proof {
                assert(words_spec(rest@) =~= Seq::empty());
                assert(views(list@) + words_spec(rest@) =~= views(list@));
            }
            return list;
        }
        let n = lead_len(t, false);
        proof {
            lemma_lead_bounds(t@.drop_first(), false);
        }
        let word = copy_chars(slice_subrange(t, 0, n));
        let ghost listed = views(list@);
        list.push(word);
        rest = slice_subrange(t, n, t.len());
        proof {
            assert(word@ =~= t@.take(n as int));
            assert(rest@ =~= t@.skip(n as int));
            assert(words_spec(before) =~= seq![word@] + words_spec(rest@));
            assert(views(list@) =~= listed + seq![word@]);
            assert(views(list@) + words_spec(rest@) =~= listed + words_spec(before));
        }
    }
}

// ---------------------------------------------------------------------------
// Prefixes, case and comparison
// ---------------------------------------------------------------------------

/// Whether `p` stands at the start of `s`.
pub open spec fn has_prefix(s: Seq<char>, p: Seq<char>) -> bool {
    p.len() <= s.len() && s.take(p.len() as int) == p
}

/// Whether `p` stands at the start of `s`.
pub fn starts_with(s: &[char], p: &[char]) -> (r: bool)
    ensures
        r == has_prefix(s@, p@),
{
    if s.len() < p.len() {
        return false;
    }
    same_chars(slice_subrange(s, 0, p.len()), p)
}

/// Whether two texts are equal.
pub fn same_chars(a: &[char], b: &[char]) -> (r: bool)
    ensures
        r == (a@ == b@),
{
    if a.len() != b.len() {
        return false;
    }
    let mut i: usize = 0;
    while i < a.len()
        invariant
            i <= a@.len(),
            a@.len() == b@.len(),
            forall|j: int| 0 <= j < i ==> a@[j] == b@[j],
        decreases a@.len() - i,
    {
        if a[i] != b[i] {
            return false;
        }
        i += 1;
    }
    proof {
        assert(a@ =~= b@);
    }
    true
}

/// Whether two strings are equal.
pub fn same_str(a: &str, b: &str) -> (r: bool)
    ensures
        r == (a@ == b@),
{
    a.to_owned() == b.to_owned()
}

/// `s` with every leading copy of `p` removed.
pub open spec fn strip_all(s: Seq<char>, p: Seq<char>) -> Seq<char>
    decreases s.len(),
{
    if p.len() > 0 && has_prefix(s, p) {
        strip_all(s.skip(p.len() as int), p)
    } else {
        s
    }
}

/// `s` with every leading copy of `p` removed.
pub fn strip_repeated<'a>(s: &'a [char], p: &[char]) -> (r: &'a [char])
    ensures
        r@ == strip_all(s@, p@),
{
    let mut rest = s;
    while p.len() > 0 && starts_with(rest, p)
        invariant
            strip_all(rest@, p@) == strip_all(s@, p@),
        decreases rest@.len(),
    {
        rest = slice_subrange(rest, p.len(), rest.len());
    }
    rest
}

/// The lower-case form of an ASCII letter; any other character is kept.
pub open spec fn lower(c: char) -> char {
    if 'A' <= c <= 'Z' {
        (c as int + 32) as char
    } else {
        c
    }
}

/// The lower-case form of a text in ASCII.
pub open spec fn lower_all(s: Seq<char>) -> Seq<char> {
    Seq::new(s.len(), |i: int| lower(s[i]))
}

/// The lower-case form of an ASCII letter; any other character is kept.
pub fn to_lower(c: char) -> (r: char)
    ensures
        r == lower(c),
{
    let n: u32 = c as u32;
    if 0x41 <= n && n <= 0x5A {
        (n as u8 + 32) as char
    } else {
        c
    }
}

/// The lower-case form of a text in ASCII.
pub fn lower_chars(s: &[char]) -> (r: Vec<char>)
    ensures
        r@ == lower_all(s@),
{
    let mut r: Vec<char> = Vec::new();
    let mut i: usize = 0;
    while i < s.len()
        invariant
            i <= s@.len(),
            r@ == lower_all(s@.take(i as int)),
        decreases s@.len() - i,
    {
        r.push(to_lower(s[i]));
        i += 1;
        proof {
            assert(r@ =~= lower_all(s@.take(i as int)));
        }
    }
    proof {
        assert(s@.take(i as int) =~= s@);
    }
    r
}

/// The number of bytes that a character takes in UTF-8.
pub open spec fn char_width(c: char) -> int {
    let n = c as int;
    if n < 0x80 {
        1
    } else if n < 0x800 {
        2
    } else if n < 0x10000 {
        3
    } else {
        4
    }
}

/// The number of bytes that a text takes in UTF-8.
pub open spec fn byte_len(s: Seq<char>) -> int
    decreases s.len(),
{
    if s.len() == 0 {
        0
    } else {
        char_width(s[0]) + byte_len(s.drop_first())
    }
}

pub proof fn lemma_byte_len_bound(s: Seq<char>)
    ensures
        byte_len(s) >= s.len(),
    decreases s.len(),
{
    if s.len() > 0 {
        lemma_byte_len_bound(s.drop_first());
    }
}

/// The number of bytes that a character takes in UTF-8.
pub fn utf8_width(c: char) -> (width: usize)
    ensures
        width as int == char_width(c),
{
    let n: u32 = c as u32;
    if n < 0x80 {
        1
    } else if n < 0x800 {
        2
    } else if n < 0x10000 {
        3
    } else {
        4
    }
}

/// Whether a text takes at most `limit` bytes in UTF-8.
pub fn fits_bytes(s: &[char], limit: usize) -> (r: bool)
    ensures
        r == (byte_len(s@) <= limit),
{
    let mut left: usize = limit;
    let mut i: usize = 0;
    proof {
        assert(s@.skip(0) =~= s@);
    }
    while i < s.len()
        invariant
            i <= s@.len(),
            (byte_len(s@) <= limit) == (byte_len(s@.skip(i as int)) <= left),
        decreases s@.len() - i,
    {
        let width = utf8_width(s[i]);
        proof {
            assert(s@.skip(i as int)[0] == s@[i as int]);
            assert(s@.skip(i as int).drop_first() =~= s@.skip(i + 1));
            lemma_byte_len_bound(s@.skip(i + 1));
            assert(byte_len(s@.skip(i as int)) == width + byte_len(s@.skip(i + 1)));
        }
        if width > left {
            return false;
        }
        left -= width;
        i += 1;
    }
    true
}

// ---------------------------------------------------------------------------
// Searching
// ---------------------------------------------------------------------------

/// Where `p` occurs first in `s`, counting from `at`.
pub open spec fn find_from(s: Seq<char>, p: Seq<char>, at: int) -> Option<int>
    decreases s.len() + 1 - at,
{
    if at < 0 || at > s.len() {
        None
    } else if has_prefix(s.skip(at), p) {
        Some(at)
    } else {
        find_from(s, p, at + 1)
    }
}

/// Where `p` occurs first in `s`.
pub open spec fn find_spec(s: Seq<char>, p: Seq<char>) -> Option<int> {
    find_from(s, p, 0)
}

pub proof fn lemma_find(s: Seq<char>, p: Seq<char>, at: int)
    requires
        0 <= at,
    ensures
        find_from(s, p, at) matches Some(k) ==> at <= k && k + p.len() <= s.len() && has_prefix(
            s.skip(k),
            p,
        ),
        find_from(s, p, at) is None ==> forall|k: int|
            at <= k <= s.len() ==> !has_prefix(#[trigger] s.skip(k), p),
    decreases s.len() + 1 - at,
{
    if !(at < 0 || at > s.len()) && !has_prefix(s.skip(at), p) {
        lemma_find(s, p, at + 1);
        assert(find_from(s, p, at) is None ==> forall|k: int|
            at <= k <= s.len() ==> !has_prefix(#[trigger] s.skip(k), p));
    }
}

/// Where `p` occurs first in `s`.
pub fn find(s: &[char], p: &[char]) -> (r: Option<usize>)
    ensures
        match r {
            Some(k) => find_spec(s@, p@) == Some(k as int) && k + p@.len() <= s@.len(),
            None => find_spec(s@, p@) is None,
        },
{
    let mut at: usize = 0;
    loop
        invariant
            at <= s@.len(),
            find_spec(s@, p@) == find_from(s@, p@, at as int),
        decreases s@.len() - at,
    {
        if starts_with(slice_subrange(s, at, s.len()), p) {
            return Some(at);
        }
        if at == s.len() {
            proof {
                assert(find_from(s@, p@, at + 1) is None);
            }
            return None;
        }
        at += 1;
    }
}

/// Whether `p` occurs in `s`.
pub fn contains(s: &[char], p: &[char]) -> (r: bool)
    ensures
        r == find_spec(s@, p@) is Some,
{
    find(s, p).is_some()
}

/// Where a character occurs first, or the length where it does not.
pub open spec fn index_or_len(s: Seq<char>, c: char) -> int
    decreases s.len(),
{
    if s.len() == 0 || s[0] == c {
        0
    } else {
        1 + index_or_len(s.drop_first(), c)
    }
}

pub proof fn lemma_index_or_len(s: Seq<char>, c: char)
    ensures
        0 <= index_or_len(s, c) <= s.len(),
        index_or_len(s, c) < s.len() ==> s[index_or_len(s, c)] == c,
        forall|k: int| 0 <= k < index_or_len(s, c) ==> s[k] != c,
    decreases s.len(),
{
    if !(s.len() == 0 || s[0] == c) {
        lemma_index_or_len(s.drop_first(), c);
        assert forall|k: int| 0 <= k < index_or_len(s, c) implies s[k] != c by {
            if k > 0 {
                assert(s[k] == s.drop_first()[k - 1]);
            }
        }
    }
}

/// Where a character occurs first, or the length where it does not.
pub fn index_of(s: &[char], c: char) -> (k: usize)
    ensures
        k as int == index_or_len(s@, c),
        k <= s@.len(),
{
    let mut k: usize = 0;
    proof {
        assert(s@.skip(0) =~= s@);
    }
    while k < s.len() && s[k] != c
        invariant
            k <= s@.len(),
            index_or_len(s@, c) == k + index_or_len(s@.skip(k as int), c),
        decreases s@.len() - k,
    {
        proof {
            assert(s@.skip(k as int).drop_first() =~= s@.skip(k + 1));
        }
        k += 1;
    }
    k
}

/// The pieces of a text between the places where a character stands.
pub open spec fn split_spec(s: Seq<char>, c: char) -> Seq<Seq<char>>
    decreases s.len(),
{
    let k = index_or_len(s, c);
    if 0 <= k < s.len() {
        seq![s.take(k)] + split_spec(s.skip(k + 1), c)
    } else {
        seq![s]
    }
}

/// The pieces of a text between the places where a character stands.
pub fn split(s: &[char], c: char) -> (list: Vec<Vec<char>>)
    ensures
        views(list@) == split_spec(s@, c),
        list@.len() >= 1,
{
    let mut list: Vec<Vec<char>> = Vec::new();
    let mut rest = s;
    let mut k: usize = index_of(rest, c);
    proof {
        assert(views(list@) + split_spec(rest@, c) =~= split_spec(s@, c));
    }
    while k < rest.len()
        invariant
            k as int == index_or_len(rest@, c),
            k <= rest@.len(),
            views(list@) + split_spec(rest@, c) == split_spec(s@, c),
        decreases rest@.len(),
    {
        let ghost was = views(list@);
        let ghost before = rest@;
        list.push(copy_chars(slice_subrange(rest, 0, k)));
        rest = slice_subrange(rest, k + 1, rest.len());
        proof {
            assert(views(list@) =~= was.push(before.take(k as int)));
            assert(rest@ =~= before.skip(k + 1));
            assert(views(list@) + split_spec(rest@, c) =~= was + split_spec(before, c));
        }
        k = index_of(rest, c);
    }
    let ghost was = views(list@);
    list.push(copy_chars(rest));
    proof {
        assert(views(list@) =~= was + split_spec(rest@, c));
    }
    list
}

/// Texts with a separator between them.
pub open spec fn joined(list: Seq<Seq<char>>, separator: Seq<char>) -> Seq<char>
    decreases list.len(),
{
    if list.len() == 0 {
        Seq::empty()
    } else if list.len() == 1 {
        list[0]
    } else {
        joined(list.drop_last(), separator) + separator + list.last()
    }
}

/// Texts with a separator between them.
pub fn join(list: &[String], separator: &str) -> (s: String)
    ensures
        s@ == joined(string_views(list@), separator@),
{
    let ghost all = string_views(list@);
    let mut s = text("");
    let mut i: usize = 0;
    proof {
        reveal_strlit("");
        assert(s@ =~= joined(all.take(0), separator@));
    }
    while i < list.len()
        invariant
            i <= list@.len(),
            all == string_views(list@),
            s@ == joined(all.take(i as int), separator@),
        decreases list@.len() - i,
    {
        let ghost upto = all.take(i + 1);
        proof {
            assert(upto.drop_last() =~= all.take(i as int));
            assert(upto.last() == list@[i as int]@);
        }
        s = if i == 0 {
            text(list[i].as_str())
        } else {
            s.lit(separator).lit(list[i].as_str())
        };
        i += 1;
    }
    proof {
        assert(all.take(i as int) =~= all);
    }
    s.finish()
}

// ---------------------------------------------------------------------------
// Numbers
// ---------------------------------------------------------------------------

/// The value of a digit character, letters in either case.
pub open spec fn digit_value(c: char, radix: int) -> Option<int> {
    let n = c as int;
    let d = if 0x30 <= n <= 0x39 {
        n - 0x30
    } else if 0x41 <= n <= 0x5A {
        n - 0x37
    } else if 0x61 <= n <= 0x7A {
        n - 0x57
    } else {
        radix
    };
    if d < radix {
        Some(d)
    } else {
        None
    }
}

/// The value of a run of digits, if every character is one.
pub open spec fn numeral(s: Seq<char>, radix: int) -> Option<int>
    decreases s.len(),
{
    if s.len() == 0 {
        Some(0)
    } else {
        match (numeral(s.drop_last(), radix), digit_value(s.last(), radix)) {
            (Some(v), Some(d)) => Some(v * radix + d),
            _ => None,
        }
    }
}

/// The digits of an unsigned number: one leading plus sign is skipped when
/// something follows it.
pub open spec fn unsigned_digits(s: Seq<char>) -> Seq<char> {
    if s.len() > 1 && s[0] == '+' {
        s.drop_first()
    } else {
        s
    }
}

/// The unsigned number that a text denotes, if it is one and at most `max`.
pub open spec fn uint_value(s: Seq<char>, radix: int, max: int) -> Option<int> {
    let body = unsigned_digits(s);
    match numeral(body, radix) {
        Some(v) if body.len() > 0 && v <= max => Some(v),
        _ => None,
    }
}

proof fn lemma_numeral_grows(s: Seq<char>, k: int, radix: int)
    requires
        0 <= k <= s.len(),
        radix >= 2,
    ensures
        numeral(s, radix) is Some ==> numeral(s.take(k), radix) is Some && 0 <= numeral(
            s.take(k),
            radix,
        )->0 <= numeral(s, radix)->0,
    decreases s.len(),
{
    if k == s.len() {
        assert(s.take(k) =~= s);
        if s.len() > 0 {
            lemma_numeral_grows(s.drop_last(), s.len() - 1, radix);
            assert(s.drop_last().take(s.len() - 1) =~= s.drop_last());
            if numeral(s, radix) is Some {
                let v = numeral(s.drop_last(), radix)->0;
                assert(v * radix >= 0) by (nonlinear_arith)
                    requires
                        v >= 0,
                        radix >= 2,
                ;
            }
        }
    } else {
        lemma_numeral_grows(s.drop_last(), k, radix);
        assert(s.drop_last().take(k) =~= s.take(k));
        if numeral(s, radix) is Some {
            let v = numeral(s.drop_last(), radix)->0;
            assert(v * radix >= v) by (nonlinear_arith)
                requires
                    v >= 0,
                    radix >= 2,
            ;
        }
    }
}

/// The value of a digit character, letters in either case.
pub fn to_digit(c: char, radix: u32) -> (r: Option<u32>)
    requires
        2 <= radix <= 36,
    ensures
        r matches Some(d) ==> digit_value(c, radix as int) == Some(d as int),
        r is None ==> digit_value(c, radix as int) is None,
{
    let n: u32 = c as u32;
    let d: u32 = if 0x30 <= n && n <= 0x39 {
        n - 0x30
    } else if 0x41 <= n && n <= 0x5A {
        n - 0x37
    } else if 0x61 <= n && n <= 0x7A {
        n - 0x57
    } else {
        radix
    };
    if d < radix {
        Some(d)
    } else {
        None
    }
}

/// What is wrong with the digits of a number from position `i` on: the first character
/// that is no digit, or with which the number gets too large.
pub open spec fn digits_fault(body: Seq<char>, radix: int, max: int, i: int) -> Seq<char>
    decreases body.len() - i,
{
    if i < 0 || i >= body.len() || digit_value(body[i], radix) is None {
        "invalid digit found in string"@
    } else if numeral(body.take(i + 1), radix)->0 > max {
        "number too large to fit in target type"@
    } else {
        digits_fault(body, radix, max, i + 1)
    }
}

/// What is wrong with a text that is not an unsigned number of at most `max`.
pub open spec fn uint_fault(s: Seq<char>, radix: int, max: int) -> Seq<char> {
    if s.len() == 0 {
        "cannot parse integer from empty string"@
    } else {
        digits_fault(unsigned_digits(s), radix, max, 0)
    }
}

/// The unsigned number that a text denotes, or what is wrong with it.
pub open spec fn uint_read(s: Seq<char>, radix: int, max: int) -> Result<int, Fault> {
    match uint_value(s, radix, max) {
        Some(v) => Ok(v),
        None => Err(plain(uint_fault(s, radix, max))),
    }
}

/// Reads an unsigned number that is at most `max`.
pub fn read_uint(s: &[char], radix: u32, max: u64) -> (res: Result<u64, PatchError>)
    requires
        2 <= radix <= 36,
    ensures
        match res {
            Ok(v) => uint_read(s@, radix as int, max as int) == Ok::<int, Fault>(v as int),
            Err(e) => uint_read(s@, radix as int, max as int) == Err::<int, Fault>(e@),
        },
        res matches Ok(v) ==> v <= max,
{
    let body = if s.len() > 1 && s[0] == '+' {
        slice_subrange(s, 1, s.len())
    } else {
        s
    };
    proof {
        assert(body@ =~= unsigned_digits(s@));
    }
    if s.len() == 0 {
        return Err(text("cannot parse integer from empty string").fail());
    }
    let mut value: u64 = 0;
    let mut i: usize = 0;
    while i < body.len()
        invariant
            body@ == unsigned_digits(s@),
            s@.len() > 0,
            body@.len() > 0,
            2 <= radix <= 36,
            i <= body@.len(),
            value <= max,
            numeral(body@.take(i as int), radix as int) == Some(value as int),
            digits_fault(body@, radix as int, max as int, 0) == digits_fault(
                body@,
                radix as int,
                max as int,
                i as int,
            ),
        decreases body@.len() - i,
    {
        proof {
            lemma_numeral_grows(body@, i + 1, radix as int);
            assert(body@.take(i + 1).drop_last() =~= body@.take(i as int));
        }
        match to_digit(body[i], radix) {
            None => {
                return Err(text("invalid digit found in string").fail());
            },
            Some(d) => {
                proof {
                    assert(value as int * radix as int <= 0xFFFF_FFFF_FFFF_FFFF * 36)
                        by (nonlinear_arith)
                        requires
                            0 <= value <= 0xFFFF_FFFF_FFFF_FFFF,
                            0 <= radix <= 36,
                    ;
                }
                let next: u128 = value as u128 * radix as u128 + d as u128;
                if next > max as u128 {
                    return Err(text("number too large to fit in target type").fail());
                }
                value = next as u64;
            },
        }
        i += 1;
    }
    proof {
        assert(body@.take(i as int) =~= body@);
    }
    Ok(value)
}

/// Reads an unsigned number that is at most `max`, if there is one.
pub fn parse_uint(s: &[char], radix: u32, max: u64) -> (r: Option<u64>)
    requires
        2 <= radix <= 36,
    ensures
        r matches Some(v) ==> uint_value(s@, radix as int, max as int) == Some(v as int),
        r is None ==> uint_value(s@, radix as int, max as int) is None,
{
    match read_uint(s, radix, max) {
        Ok(v) => Some(v),
        Err(_) => None,
    }
}

} // verus!
