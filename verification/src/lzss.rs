//! The compression of the game's interface graphics.
//!
//! A stream is a row of tokens:
//! - `0x00` ends the stream;
//! - `0x01..=0x7F` is a literal run: that many bytes follow and are copied;
//! - `0x80..=0xFF` is a back reference of length `(control & 0x7F) + 3`; one byte
//!   `d` follows, and the bytes are copied one by one from `d + 1` positions back.
//!   The source may overlap what is being written; positions before the start of
//!   the output read as `0x00`.
use vstd::prelude::*;

verus! {

/// The longest back reference.
pub const MAX_MATCH: usize = 130;

/// The longest literal run.
pub const MAX_LITERAL: usize = 0x7F;

/// The farthest back reference.
pub const MAX_DIST: usize = 256;

/// The shortest back reference.
pub const MIN_MATCH: usize = 3;

// ---------------------------------------------------------------------------
// Decoding
// ---------------------------------------------------------------------------

/// `out` followed by `len` bytes, each copied from `back` positions earlier.
pub open spec fn copied(out: Seq<u8>, back: int, len: int) -> Seq<u8>
    decreases len,
{
    if len <= 0 {
        out
    } else {
        let prev = copied(out, back, len - 1);
        prev.push(if prev.len() >= back {
            prev[prev.len() - back]
        } else {
            0
        })
    }
}

/// What decoding from position `i` on adds to `out`, and the position after the
/// last byte that is read. A stream that is cut off ends where its bytes end.
pub open spec fn unpack(data: Seq<u8>, i: int, out: Seq<u8>) -> (Seq<u8>, int)
    decreases data.len() - i,
{
    if i < 0 || i >= data.len() {
        (out, i)
    } else if data[i] == 0 {
        (out, i + 1)
    } else if data[i] < 0x80 {
        let end = if i + 1 + data[i] < data.len() {
            i + 1 + data[i]
        } else {
            data.len() as int
        };
        unpack(data, end, out + data.subrange(i + 1, end))
    } else if i + 1 >= data.len() {
        (out, i + 1)
    } else {
        unpack(data, i + 2, copied(out, data[i + 1] + 1, data[i] - 0x80 + 3))
    }
}

/// Decodes the stream that starts at `start`. Returns the bytes and how many bytes
/// of the stream were read, its end mark included.
pub fn decompress(data: &[u8], start: usize) -> (r: (Vec<u8>, usize))
    ensures
        r.0@ == unpack(data@, start as int, Seq::empty()).0,
        r.1 == unpack(data@, start as int, Seq::empty()).1 - start,
{
    let mut out: Vec<u8> = Vec::new();
    let mut i: usize = start;
    let ghost goal = unpack(data@, start as int, Seq::empty());
    while i < data.len()
        invariant
            start <= i,
            i <= data@.len() || i == start,
            unpack(data@, i as int, out@) == goal,
            goal == unpack(data@, start as int, Seq::empty()),
        decreases data@.len() - i,
    {
        let ctrl: u8 = data[i];
        i += 1;
        if ctrl == 0x00 {
            return (out, i - start);
        }
        if ctrl < 0x80 {
            let room: usize = data.len() - i;
            let n: usize = if (ctrl as usize) < room {
                ctrl as usize
            } else {
                room
            };
            let ghost before = out@;
            let mut k: usize = 0;
            while k < n
                invariant
                    k <= n,
                    i + n <= data@.len(),
                    i + n <= usize::MAX,
                    out@ == before + data@.subrange(i as int, i + k),
                decreases n - k,
            {
                out.push(data[i + k]);
                k += 1;
                proof {
                    assert(out@ =~= before + data@.subrange(i as int, i + k));
                }
            }
            i += n;
        } else {
            let len: usize = (ctrl - 0x80) as usize + MIN_MATCH;
            if i >= data.len() {
                return (out, i - start);
            }
            let back: usize = data[i] as usize + 1;
            i += 1;
            let ghost before = out@;
            let mut k: usize = 0;
            while k < len
                invariant
                    k <= len,
                    back >= 1,
                    out@ == copied(before, back as int, k as int),
                decreases len - k,
            {
                let b: u8 = if out.len() >= back {
                    out[out.len() - back]
                } else {
                    0
                };
                out.push(b);
                k += 1;
            }
        }
    }
    (out, i - start)
}

// ---------------------------------------------------------------------------
// Encoding
// ---------------------------------------------------------------------------

/// A token: a literal run of `len` bytes (`dist` is 0), or a back reference.
pub struct Token {
    /// How many bytes of output it stands for.
    pub len: int,
    /// How far back it reaches; 0 for a literal run.
    pub dist: int,
}

/// The byte that a back reference finds at a position: `0x00` before the start.
pub open spec fn byte_at(data: Seq<u8>, at: int) -> u8 {
    if at < 0 {
        0
    } else {
        data[at]
    }
}

/// How far, from `k` on, the bytes at `src` agree with those at `pos`.
pub open spec fn agree(data: Seq<u8>, src: int, pos: int, k: int) -> int
    decreases 130 - k,
{
    if k < 130 && pos + k < data.len() && byte_at(data, src + k) == data[pos + k] {
        agree(data, src, pos, k + 1)
    } else {
        k
    }
}

/// The longest back reference at `pos` among the sources in the data below `src`: its
/// length and its distance. Among sources of equal length the farthest is taken.
pub open spec fn longest(data: Seq<u8>, pos: int, src: int) -> (int, int)
    decreases src,
{
    if src <= 0 || src <= pos - 256 {
        (0, 0)
    } else {
        let best = longest(data, pos, src - 1);
        let len = agree(data, src - 1, pos, 0);
        if len > best.0 {
            (len, pos - (src - 1))
        } else {
            best
        }
    }
}

/// The longest back reference at `pos` among the sources in the data and those from
/// `from` on before its start. One before the start is taken only where it is longer
/// than all behind it.
pub open spec fn longest_from(data: Seq<u8>, pos: int, from: int) -> (int, int)
    decreases -from,
{
    if from >= 0 {
        longest(data, pos, pos)
    } else {
        let best = longest_from(data, pos, from + 1);
        let len = agree(data, from, pos, 0);
        if len > best.0 {
            (len, pos - from)
        } else {
            best
        }
    }
}

/// The longest back reference at `pos`: its length and its distance.
pub open spec fn best_match(data: Seq<u8>, pos: int) -> (int, int) {
    longest_from(data, pos, pos - 256)
}

/// The longest literal run at `i`.
pub open spec fn literal_limit(data: Seq<u8>, i: int) -> int {
    if data.len() - i < 127 {
        data.len() - i
    } else {
        127
    }
}

/// The cheaper of two choices; the earlier one where they cost the same.
pub open spec fn cheaper(best: Option<(int, Token)>, cost: int, token: Token) -> Option<
    (int, Token),
> {
    match best {
        Some(b) if b.0 <= cost => best,
        _ => Some((cost, token)),
    }
}

/// The cheapest way to go on from `i` by a back reference of at most `l` bytes.
pub open spec fn pick_match(data: Seq<u8>, i: int, l: int) -> Option<(int, Token)>
    decreases data.len() - i, 0int, l,
{
    if l < 3 || i + l > data.len() {
        None
    } else {
        cheaper(
            pick_match(data, i, l - 1),
            cost(data, i + l) + 2,
            Token { len: l, dist: best_match(data, i).1 },
        )
    }
}

/// The cheapest way to go on from `i` by a back reference or by a literal run of at
/// most `l` bytes.
pub open spec fn pick(data: Seq<u8>, i: int, l: int) -> Option<(int, Token)>
    decreases data.len() - i, 1int, l,
{
    if l < 1 || i + l > data.len() {
        pick_match(data, i, best_match(data, i).0)
    } else {
        cheaper(pick(data, i, l - 1), cost(data, i + l) + 1 + l, Token { len: l, dist: 0 })
    }
}

/// The length of the stream that encodes the bytes from `i` on.
pub open spec fn cost(data: Seq<u8>, i: int) -> int
    decreases data.len() - i, 2int, 0int,
{
    if i >= data.len() {
        1
    } else {
        match pick(data, i, literal_limit(data, i)) {
            Some(choice) => choice.0,
            None => 0,
        }
    }
}

/// The token that the encoder puts at `i`.
pub open spec fn choice(data: Seq<u8>, i: int) -> Token {
    pick(data, i, literal_limit(data, i))->Some_0.1
}

/// The bytes of a token at position `i` of the data.
pub open spec fn token_bytes(data: Seq<u8>, i: int, token: Token) -> Seq<u8> {
    if token.dist == 0 {
        seq![token.len as u8] + data.subrange(i, i + token.len)
    } else {
        seq![(0x80 + token.len - 3) as u8, (token.dist - 1) as u8]
    }
}

/// The stream that encodes the bytes from `i` on, its end mark included.
pub open spec fn packed_from(data: Seq<u8>, i: int) -> Seq<u8>
    decreases data.len() - i,
{
    if i >= data.len() {
        seq![0u8]
    } else if choice(data, i).len < 1 || i + choice(data, i).len > data.len() {
        Seq::empty()
    } else {
        token_bytes(data, i, choice(data, i)) + packed_from(data, i + choice(data, i).len)
    }
}

/// The stream that encodes `data`.
pub open spec fn packed(data: Seq<u8>) -> Seq<u8> {
    packed_from(data, 0)
}

/// Whether a token may stand at position `i`: a literal run of bytes that are
/// there, or a back reference that repeats bytes before `i`, `0x00` before the start.
pub open spec fn token_fits(data: Seq<u8>, i: int, token: Token) -> bool {
    if token.dist == 0 {
        1 <= token.len <= 127 && i + token.len <= data.len()
    } else {
        &&& 3 <= token.len <= 130
        &&& 1 <= token.dist <= 256
        &&& i + token.len <= data.len()
        &&& forall|k: int|
            0 <= k < token.len ==> #[trigger] byte_at(data, i - token.dist + k) == data[i + k]
    }
}

/// How many bytes a token takes in a stream.
pub open spec fn token_cost(token: Token) -> int {
    if token.dist == 0 {
        1 + token.len
    } else {
        2
    }
}

/// Whether a row of tokens encodes the data from `i` on.
pub open spec fn tokens_fit(data: Seq<u8>, i: int, tokens: Seq<Token>) -> bool
    decreases tokens.len(),
{
    if tokens.len() == 0 {
        i == data.len()
    } else {
        token_fits(data, i, tokens[0]) && tokens_fit(
            data,
            i + tokens[0].len,
            tokens.drop_first(),
        )
    }
}

/// The length of the stream made of a row of tokens and the end mark.
pub open spec fn tokens_cost(tokens: Seq<Token>) -> int
    decreases tokens.len(),
{
    if tokens.len() == 0 {
        1
    } else {
        token_cost(tokens[0]) + tokens_cost(tokens.drop_first())
    }
}

proof fn lemma_agree(data: Seq<u8>, src: int, pos: int, k: int)
    requires
        src < pos <= data.len(),
        0 <= k <= 130,
        pos + k <= data.len(),
    ensures
        k <= agree(data, src, pos, k) <= 130,
        pos + agree(data, src, pos, k) <= data.len(),
        forall|j: int|
            k <= j < agree(data, src, pos, k) ==> #[trigger] byte_at(data, src + j) == data[pos + j],
        agree(data, src, pos, k) < 130 && pos + agree(data, src, pos, k) < data.len() ==> byte_at(
            data,
            src + agree(data, src, pos, k),
        ) != data[pos + agree(data, src, pos, k)],
    decreases 130 - k,
{
    if k < 130 && pos + k < data.len() && byte_at(data, src + k) == data[pos + k] {
        lemma_agree(data, src, pos, k + 1);
    }
}

/// Whether a length and a distance are those of a back reference at `pos`.
spec fn is_match(data: Seq<u8>, pos: int, m: (int, int)) -> bool {
    &&& 0 <= m.0 <= 130
    &&& pos + m.0 <= data.len()
    &&& m.0 > 0 ==> {
        &&& 1 <= m.1 <= 256
        &&& forall|k: int| 0 <= k < m.0 ==> #[trigger] byte_at(data, pos - m.1 + k) == data[pos + k]
    }
}

proof fn lemma_longest(data: Seq<u8>, pos: int, src: int)
    requires
        0 <= src <= pos <= data.len(),
    ensures
        is_match(data, pos, longest(data, pos, src)),
        forall|s: int|
            0 <= s < src && s >= pos - 256 ==> #[trigger] agree(data, s, pos, 0) <= longest(
                data,
                pos,
                src,
            ).0,
    decreases src,
{
    if !(src <= 0 || src <= pos - 256) {
        lemma_longest(data, pos, src - 1);
        lemma_agree(data, src - 1, pos, 0);
    }
}

proof fn lemma_longest_from(data: Seq<u8>, pos: int, from: int)
    requires
        0 <= pos <= data.len(),
        pos - 256 <= from,
    ensures
        is_match(data, pos, longest_from(data, pos, from)),
        forall|s: int|
            from <= s < pos && s >= pos - 256 ==> #[trigger] agree(data, s, pos, 0) <= longest_from(
                data,
                pos,
                from,
            ).0,
    decreases -from,
{
    if from >= 0 {
        lemma_longest(data, pos, pos);
    } else {
        lemma_longest_from(data, pos, from + 1);
        lemma_agree(data, from, pos, 0);
    }
}

proof fn lemma_pick_match(data: Seq<u8>, i: int, l: int)
    requires
        0 <= i < data.len(),
        l <= best_match(data, i).0,
    ensures
        ({
            let best = pick_match(data, i, l);
            &&& best is Some <==> l >= 3
            &&& best is Some ==> {
                &&& token_fits(data, i, best->Some_0.1)
                &&& best->Some_0.1.len <= l
                &&& best->Some_0.0 == cost(data, i + best->Some_0.1.len) + token_cost(best->Some_0.1)
                &&& forall|m: int|
                    3 <= m <= l ==> best->Some_0.0 <= #[trigger] cost(data, i + m) + 2
            }
        }),
    decreases l,
{
    lemma_longest_from(data, i, i - 256);
    if l >= 3 {
        lemma_pick_match(data, i, l - 1);
    }
}

proof fn lemma_pick(data: Seq<u8>, i: int, l: int)
    requires
        0 <= i < data.len(),
        0 <= l <= literal_limit(data, i),
    ensures
        ({
            let best = pick(data, i, l);
            let long = best_match(data, i).0;
            &&& l >= 1 ==> best is Some
            &&& best is Some ==> {
                &&& token_fits(data, i, best->Some_0.1)
                &&& best->Some_0.0 == cost(data, i + best->Some_0.1.len) + token_cost(best->Some_0.1)
                &&& forall|m: int|
                    3 <= m <= long ==> best->Some_0.0 <= #[trigger] cost(data, i + m) + 2
                &&& forall|m: int|
                    1 <= m <= l ==> best->Some_0.0 <= #[trigger] cost(data, i + m) + 1 + m
            }
        }),
    decreases l,
{
    lemma_longest_from(data, i, i - 256);
    lemma_pick_match(data, i, best_match(data, i).0);
    if l >= 1 {
        lemma_pick(data, i, l - 1);
    }
}

proof fn lemma_choice(data: Seq<u8>, i: int)
    requires
        0 <= i < data.len(),
    ensures
        token_fits(data, i, choice(data, i)),
        cost(data, i) == cost(data, i + choice(data, i).len) + token_cost(choice(data, i)),
        cost(data, i) <= cost(data, i + 1) + 2,
{
    lemma_pick(data, i, literal_limit(data, i));
}

proof fn lemma_cost_bound(data: Seq<u8>, i: int)
    requires
        0 <= i <= data.len(),
    ensures
        1 <= cost(data, i) <= 2 * (data.len() - i) + 1,
    decreases data.len() - i,
{
    if i < data.len() {
        lemma_choice(data, i);
        lemma_cost_bound(data, i + 1);
        lemma_cost_bound(data, i + choice(data, i).len);
    }
}

proof fn lemma_copied(data: Seq<u8>, i: int, dist: int, l: int, len: int)
    requires
        1 <= dist,
        0 <= i,
        0 <= l <= len,
        i + len <= data.len(),
        forall|k: int| 0 <= k < len ==> #[trigger] byte_at(data, i - dist + k) == data[i + k],
    ensures
        copied(data.take(i), dist, l) == data.take(i + l),
    decreases l,
{
    if l > 0 {
        lemma_copied(data, i, dist, l - 1, len);
        assert(byte_at(data, i - dist + (l - 1)) == data[i + (l - 1)]);
        assert(copied(data.take(i), dist, l) =~= data.take(i + l));
    } else {
        assert(data.take(i + 0) =~= data.take(i));
    }
}

proof fn lemma_packed_len(data: Seq<u8>, i: int)
    requires
        0 <= i <= data.len(),
    ensures
        packed_from(data, i).len() == cost(data, i),
        packed_from(data, i).last() == 0,
    decreases data.len() - i,
{
    if i < data.len() {
        lemma_choice(data, i);
        let next = i + choice(data, i).len;
        lemma_packed_len(data, next);
        lemma_cost_bound(data, next);
    }
}

proof fn lemma_unpack_packed(stream: Seq<u8>, at: int, data: Seq<u8>, i: int)
    requires
        0 <= i <= data.len(),
        0 <= at,
        at + packed_from(data, i).len() <= stream.len(),
        stream.subrange(at, at + packed_from(data, i).len()) == packed_from(data, i),
    ensures
        unpack(stream, at, data.take(i)) == (data, at + packed_from(data, i).len()),
    decreases data.len() - i,
{
    let rest = packed_from(data, i);
    lemma_packed_len(data, i);
    lemma_cost_bound(data, i);
    assert(stream[at] == rest[0]) by {
        assert(stream.subrange(at, at + rest.len())[0] == rest[0]);
    }
    if i == data.len() {
        assert(data.take(i) =~= data);
    } else {
        lemma_choice(data, i);
        let token = choice(data, i);
        let head = token_bytes(data, i, token);
        let next = i + token.len;
        let tail = packed_from(data, next);
        assert(rest == head + tail);
        let after = at + head.len();
        assert(stream.subrange(after, after + tail.len()) =~= tail) by {
            assert forall|k: int| 0 <= k < tail.len() implies #[trigger] stream.subrange(
                after,
                after + tail.len(),
            )[k] == tail[k] by {
                assert(stream.subrange(at, at + rest.len())[head.len() + k] == rest[head.len()
                    + k]);
            }
        }
        lemma_unpack_packed(stream, after, data, next);
        if token.dist == 0 {
            assert(stream.subrange(at + 1, at + 1 + token.len) =~= data.subrange(i, next)) by {
                assert forall|k: int| 0 <= k < token.len implies #[trigger] stream.subrange(
                    at + 1,
                    at + 1 + token.len,
                )[k] == data.subrange(i, next)[k] by {
                    assert(stream.subrange(at, at + rest.len())[1 + k] == rest[1 + k]);
                    assert(rest[1 + k] == head[1 + k]);
                }
            }
            lemma_packed_len(data, next);
            lemma_cost_bound(data, next);
            assert(data.take(i) + data.subrange(i, next) =~= data.take(next));
        } else {
            assert(stream[at + 1] == head[1]) by {
                assert(stream.subrange(at, at + rest.len())[1] == rest[1]);
            }
            lemma_copied(data, i, token.dist, token.len, token.len);
        }
    }
}

/// Decoding what was encoded gives the data back and reads exactly the stream,
/// wherever it stands and whatever follows it.
pub proof fn law_lossless(prefix: Seq<u8>, data: Seq<u8>, suffix: Seq<u8>)
    ensures
        unpack(prefix + packed(data) + suffix, prefix.len() as int, Seq::empty()) == (
            data,
            (prefix.len() + packed(data).len()) as int,
        ),
{
    let stream = prefix + packed(data) + suffix;
    let at = prefix.len() as int;
    assert(stream.subrange(at, at + packed(data).len()) =~= packed(data));
    assert(data.take(0) =~= Seq::empty());
    lemma_unpack_packed(stream, at, data, 0);
}

/// An encoded stream is at most twice as long as the data, but for the end mark.
pub proof fn lemma_packed_bound(data: Seq<u8>)
    ensures
        1 <= packed(data).len() <= 2 * data.len() + 1,
{
    lemma_packed_len(data, 0);
    lemma_cost_bound(data, 0);
}

/// An encoded stream ends with the end mark.
pub proof fn law_ends_with_end_mark(data: Seq<u8>)
    ensures
        packed(data).len() >= 1,
        packed(data).last() == 0,
{
    lemma_packed_len(data, 0);
    lemma_cost_bound(data, 0);
}

/// No row of tokens that encodes the same data makes a shorter stream.
pub proof fn law_shortest(data: Seq<u8>, tokens: Seq<Token>)
    requires
        tokens_fit(data, 0, tokens),
    ensures
        packed(data).len() <= tokens_cost(tokens),
{
    lemma_packed_len(data, 0);
    lemma_cost_minimal(data, 0, tokens);
}

/// Whether the stream that starts at `i` has an end mark, so that decoding stops there and
/// not because there are no more bytes.
pub open spec fn has_end_mark(stream: Seq<u8>, i: int) -> bool
    decreases stream.len() - i,
{
    if i < 0 || i >= stream.len() {
        false
    } else if stream[i] == 0 {
        true
    } else if stream[i] < 0x80 {
        i + 1 + stream[i] <= stream.len() && has_end_mark(stream, i + 1 + stream[i])
    } else {
        i + 2 <= stream.len() && has_end_mark(stream, i + 2)
    }
}

pub proof fn lemma_copied_adds(out: Seq<u8>, back: int, len: int)
    requires
        0 <= len,
        1 <= back,
    ensures
        copied(out, back, len).len() == out.len() + len,
        copied(out, back, len).take(out.len() as int) == out,
        forall|k: int|
            0 <= k < len ==> #[trigger] copied(out, back, len)[out.len() + k] == byte_at(
                copied(out, back, len),
                out.len() - back + k,
            ),
    decreases len,
{
    if len > 0 {
        lemma_copied_adds(out, back, len - 1);
        let before = copied(out, back, len - 1);
        let now = copied(out, back, len);
        assert(now.take(out.len() as int) =~= before.take(out.len() as int));
        assert forall|k: int| 0 <= k < len implies #[trigger] now[out.len() + k] == byte_at(
            now,
            out.len() - back + k,
        ) by {
            if k < len - 1 {
                assert(before[out.len() + k] == byte_at(before, out.len() - back + k));
            }
        }
    } else {
        assert(out.take(out.len() as int) =~= out);
    }
}

proof fn lemma_unpack_adds(stream: Seq<u8>, i: int, out: Seq<u8>)
    ensures
        out.len() <= unpack(stream, i, out).0.len(),
        unpack(stream, i, out).0.take(out.len() as int) == out,
    decreases stream.len() - i,
{
    assert(out.take(out.len() as int) =~= out);
    if i < 0 || i >= stream.len() || stream[i] == 0 {
    } else if stream[i] < 0x80 {
        let end = if i + 1 + stream[i] < stream.len() {
            i + 1 + stream[i]
        } else {
            stream.len() as int
        };
        let next = out + stream.subrange(i + 1, end);
        lemma_unpack_adds(stream, end, next);
        let all = unpack(stream, end, next).0;
        assert(all.take(out.len() as int) =~= all.take(next.len() as int).take(out.len() as int));
        assert(next.take(out.len() as int) =~= out);
    } else if i + 1 < stream.len() {
        let next = copied(out, stream[i + 1] + 1, stream[i] - 0x80 + 3);
        lemma_copied_adds(out, stream[i + 1] + 1, stream[i] - 0x80 + 3);
        lemma_unpack_adds(stream, i + 2, next);
        let all = unpack(stream, i + 2, next).0;
        assert(all.take(out.len() as int) =~= all.take(next.len() as int).take(out.len() as int));
    }
}

proof fn lemma_stream_cost(stream: Seq<u8>, i: int, data: Seq<u8>, n: int)
    requires
        0 <= n <= data.len(),
        has_end_mark(stream, i),
        unpack(stream, i, data.take(n)).0 == data,
    ensures
        cost(data, n) <= unpack(stream, i, data.take(n)).1 - i,
    decreases stream.len() - i,
{
    let out = data.take(n);
    if stream[i] == 0 {
        assert(out.len() == n);
    } else if stream[i] < 0x80 {
        let len = stream[i] as int;
        let next = out + stream.subrange(i + 1, i + 1 + len);
        lemma_unpack_adds(stream, i + 1 + len, next);
        assert(next == data.take(n + len));
        lemma_stream_cost(stream, i + 1 + len, data, n + len);
        lemma_pick(data, n, literal_limit(data, n));
        assert(cost(data, n) <= cost(data, n + len) + 1 + len);
    } else {
        let len = stream[i] - 0x80 + 3;
        let back = stream[i + 1] + 1;
        let next = copied(out, back, len);
        lemma_copied_adds(out, back, len);
        lemma_unpack_adds(stream, i + 2, next);
        assert(next == data.take(n + len));
        lemma_stream_cost(stream, i + 2, data, n + len);
        lemma_pick(data, n, literal_limit(data, n));
        lemma_longest_from(data, n, n - 256);
        lemma_agree(data, n - back, n, 0);
        let reach = agree(data, n - back, n, 0);
        if reach < len {
            assert(next[out.len() + reach] == byte_at(next, out.len() - back + reach));
        }
        assert(cost(data, n) <= cost(data, n + len) + 2);
    }
}

/// No stream with an end mark that decodes to the data is shorter than the encoded one.
pub proof fn law_no_shorter_stream(stream: Seq<u8>, data: Seq<u8>)
    requires
        has_end_mark(stream, 0),
        unpack(stream, 0, Seq::empty()).0 == data,
    ensures
        packed(data).len() <= unpack(stream, 0, Seq::empty()).1 <= stream.len(),
{
    lemma_packed_len(data, 0);
    assert(data.take(0) =~= Seq::empty());
    lemma_stream_cost(stream, 0, data, 0);
    lemma_read_within(stream, 0, Seq::empty());
}

proof fn lemma_read_within(stream: Seq<u8>, i: int, out: Seq<u8>)
    requires
        0 <= i <= stream.len(),
    ensures
        unpack(stream, i, out).1 <= stream.len(),
    decreases stream.len() - i,
{
    if i == stream.len() || stream[i] == 0 {
    } else if stream[i] < 0x80 {
        let end = if i + 1 + stream[i] < stream.len() {
            i + 1 + stream[i]
        } else {
            stream.len() as int
        };
        lemma_read_within(stream, end, out + stream.subrange(i + 1, end));
    } else if i + 1 < stream.len() {
        lemma_read_within(
            stream,
            i + 2,
            copied(out, stream[i + 1] + 1, stream[i] - 0x80 + 3),
        );
    }
}

proof fn lemma_cost_minimal(data: Seq<u8>, i: int, tokens: Seq<Token>)
    requires
        0 <= i <= data.len(),
        tokens_fit(data, i, tokens),
    ensures
        cost(data, i) <= tokens_cost(tokens),
    decreases tokens.len(),
{
    if tokens.len() > 0 {
        let token = tokens[0];
        lemma_cost_minimal(data, i + token.len, tokens.drop_first());
        lemma_pick(data, i, literal_limit(data, i));
        if token.dist != 0 {
            let src = i - token.dist;
            lemma_longest_from(data, i, i - 256);
            lemma_agree(data, src, i, 0);
            let reach = agree(data, src, i, 0);
            if reach < token.len {
                assert(byte_at(data, i - token.dist + reach) == data[i + reach]);
            }
            assert(reach <= best_match(data, i).0);
            assert(cost(data, i) <= cost(data, i + token.len) + 2);
        } else {
            assert(cost(data, i) <= cost(data, i + token.len) + 1 + token.len);
        }
    }
}

/// How far the bytes from `dist` positions back agree with those at `pos`.
fn match_len(data: &[u8], pos: usize, dist: usize) -> (l: usize)
    requires
        pos < data@.len(),
        1 <= dist,
    ensures
        l == agree(data@, pos - dist, pos as int, 0),
        l <= 130,
{
    let mut l: usize = 0;
    while l < MAX_MATCH && l < data.len() - pos
        invariant
            pos < data@.len(),
            1 <= dist,
            l <= 130,
            pos + l <= data@.len(),
            agree(data@, pos - dist, pos as int, 0) == agree(
                data@,
                pos - dist,
                pos as int,
                l as int,
            ),
        decreases 130 - l,
    {
        let b: u8 = if pos + l < dist {
            0
        } else {
            data[pos + l - dist]
        };
        if b != data[pos + l] {
            return l;
        }
        l += 1;
    }
    l
}

/// The longest back reference at `pos`: its length and its distance.
fn find_match(data: &[u8], pos: usize) -> (r: (usize, usize))
    requires
        pos < data@.len(),
    ensures
        (r.0 as int, r.1 as int) == best_match(data@, pos as int),
{
    let mut best_len: usize = 0;
    let mut best_dist: usize = 0;
    let lo: usize = if pos > MAX_DIST {
        pos - MAX_DIST
    } else {
        0
    };
    let mut src: usize = lo;
    while src < pos && best_len < MAX_MATCH
        invariant
            pos < data@.len(),
            lo <= src <= pos,
            lo == if pos > 256 {
                pos - 256
            } else {
                0
            },
            best_len <= 130,
            (best_len as int, best_dist as int) == longest(data@, pos as int, src as int),
        decreases pos - src,
    {
        let l: usize = match_len(data, pos, pos - src);
        if l > best_len {
            best_len = l;
            best_dist = pos - src;
        }
        src += 1;
    }
    proof {
        lemma_longest_is_full(data@, pos as int, src as int, pos as int);
    }
    let mut dist: usize = pos;
    while dist < MAX_DIST && best_len < MAX_MATCH
        invariant
            pos < data@.len(),
            pos <= dist,
            dist <= 256 || dist == pos,
            best_len <= 130,
            (best_len as int, best_dist as int) == longest_from(data@, pos as int, pos - dist),
        decreases 256 - dist,
    {
        dist += 1;
        let l: usize = match_len(data, pos, dist);
        if l > best_len {
            best_len = l;
            best_dist = dist;
        }
    }
    proof {
        lemma_longest_from_is_full(data@, pos as int, pos - dist, pos - 256);
    }
    (best_len, best_dist)
}

proof fn lemma_longest_is_full(data: Seq<u8>, pos: int, src: int, to: int)
    requires
        0 <= src <= to <= pos <= data.len(),
        src == to || longest(data, pos, src).0 == 130,
    ensures
        longest(data, pos, to) == longest(data, pos, src),
    decreases to - src,
{
    if src < to {
        lemma_longest_is_full(data, pos, src, to - 1);
        lemma_agree(data, to - 1, pos, 0);
    }
}

proof fn lemma_longest_from_is_full(data: Seq<u8>, pos: int, from: int, to: int)
    requires
        0 <= pos <= data.len(),
        from <= 0,
        from == to || (from == 0 && to > 0) || (to < from && longest_from(data, pos, from).0 == 130),
    ensures
        longest_from(data, pos, to) == longest_from(data, pos, from),
    decreases from - to,
{
    if to < from {
        lemma_longest_from_is_full(data, pos, from, to + 1);
        lemma_agree(data, to, pos, 0);
    }
}

/// Encodes `data` in the shortest way there is.
pub fn compress(data: &[u8]) -> (out: Vec<u8>)
    requires
        2 * data@.len() + 1 <= usize::MAX,
    ensures
        out@ == packed(data@),
{
    let n: usize = data.len();
    let mut costs: Vec<usize> = vec![0usize; n + 1];
    let mut lens: Vec<usize> = vec![0usize; n + 1];
    let mut dists: Vec<usize> = vec![0usize; n + 1];
    costs.set(n, 1);
    let mut i: usize = n;
    while i > 0
        invariant
            n == data@.len(),
            2 * n + 1 <= usize::MAX,
            i <= n,
            costs@.len() == n + 1,
            lens@.len() == n + 1,
            dists@.len() == n + 1,
            forall|j: int| i <= j <= n ==> #[trigger] costs@[j] as int == cost(data@, j),
            forall|j: int| i <= j < n ==> (#[trigger] lens@[j]) as int == choice(data@, j).len,
            forall|j: int| i <= j < n ==> (#[trigger] dists@[j]) as int == choice(data@, j).dist,
        decreases i,
    {
        i -= 1;
        let (long, dist) = find_match(data, i);
        let ghost mut best: Option<(int, Token)> = None;
        let mut found: bool = false;
        let mut best_cost: usize = 0;
        let mut best_len: usize = 0;
        let mut best_dist: usize = 0;
        proof {
            lemma_longest_from(data@, i as int, i - 256);
        }
        let mut l: usize = MIN_MATCH;
        while l <= long
            invariant
                i < n,
                n == data@.len(),
                2 * n + 1 <= usize::MAX,
                3 <= l <= 131,
                l == 3 || l <= long + 1,
                long <= 130,
                i + long <= n,
                (long as int, dist as int) == best_match(data@, i as int),
                costs@.len() == n + 1,
                forall|j: int| i < j <= n ==> #[trigger] costs@[j] as int == cost(data@, j),
                best == pick_match(data@, i as int, l - 1),
                found == (best is Some),
                found ==> best == Some(
                    (best_cost as int, Token { len: best_len as int, dist: best_dist as int }),
                ),
            decreases 131 - l,
        {
            proof {
                lemma_cost_bound(data@, i + l);
                best = pick_match(data@, i as int, l as int);
            }
            let c: usize = costs[i + l] + 2;
            if !found || c < best_cost {
                found = true;
                best_cost = c;
                best_len = l;
                best_dist = dist;
            }
            l += 1;
        }
        proof {
            if long < 3 {
                assert(pick_match(data@, i as int, 2) == pick_match(data@, i as int, long as int));
            }
            assert(pick(data@, i as int, 0) == best);
        }
        let max_l: usize = if n - i < MAX_LITERAL {
            n - i
        } else {
            MAX_LITERAL
        };
        let mut l: usize = 1;
        while l <= max_l
            invariant
                i < n,
                n == data@.len(),
                2 * n + 1 <= usize::MAX,
                1 <= l <= max_l + 1,
                max_l == literal_limit(data@, i as int),
                costs@.len() == n + 1,
                forall|j: int| i < j <= n ==> #[trigger] costs@[j] as int == cost(data@, j),
                best == pick(data@, i as int, l - 1),
                found == (best is Some),
                found ==> best == Some(
                    (best_cost as int, Token { len: best_len as int, dist: best_dist as int }),
                ),
            decreases max_l + 1 - l,
        {
            proof {
                lemma_cost_bound(data@, i + l);
                best = pick(data@, i as int, l as int);
            }
            let c: usize = costs[i + l] + (1 + l);
            if !found || c < best_cost {
                found = true;
                best_cost = c;
                best_len = l;
                best_dist = 0;
            }
            l += 1;
        }
        proof {
            lemma_pick(data@, i as int, literal_limit(data@, i as int));
            assert(l - 1 == max_l);
            assert(choice(data@, i as int) == (Token {
                len: best_len as int,
                dist: best_dist as int,
            }));
        }
        costs.set(i, best_cost);
        lens.set(i, best_len);
        dists.set(i, best_dist);
    }
    let mut out: Vec<u8> = Vec::new();
    let mut i: usize = 0;
    proof {
        assert(out@ + packed_from(data@, 0) =~= packed(data@));
    }
    while i < n
        invariant
            n == data@.len(),
            i <= n,
            lens@.len() == n + 1,
            dists@.len() == n + 1,
            forall|j: int| 0 <= j < n ==> (#[trigger] lens@[j]) as int == choice(data@, j).len,
            forall|j: int| 0 <= j < n ==> (#[trigger] dists@[j]) as int == choice(data@, j).dist,
            out@ + packed_from(data@, i as int) == packed(data@),
        decreases n - i,
    {
        let l: usize = lens[i];
        let d: usize = dists[i];
        let ghost before = out@;
        proof {
            lemma_choice(data@, i as int);
        }
        if d == 0 {
            out.push(l as u8);
            let mut k: usize = 0;
            while k < l
                invariant
                    k <= l,
                    i + l <= n,
                    n == data@.len(),
                    out@ == before + seq![l as u8] + data@.subrange(i as int, i + k),
                decreases l - k,
            {
                out.push(data[i + k]);
                k += 1;
                proof {
                    assert(out@ =~= before + seq![l as u8] + data@.subrange(i as int, i + k));
                }
            }
        } else {
            out.push((0x80 + (l - MIN_MATCH)) as u8);
            out.push((d - 1) as u8);
        }
        proof {
            let token = choice(data@, i as int);
            let head = token_bytes(data@, i as int, token);
            assert(out@ =~= before + head);
            assert(out@ + packed_from(data@, i + l) =~= before + packed_from(data@, i as int));
        }
        i += l;
    }
    out.push(0x00);
    out
}

} // verus!
