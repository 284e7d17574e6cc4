//! What packed graphics and patches look like, byte by byte.
use vstd::prelude::*;
use crate::bps::{
    action_number, actions, carried_end, equal_run, law_number_round_trip, lemma_carried_end,
    lemma_equal_run, number_bytes, patch_body, patch_of, patch_signed, read_number,
};
use crate::bytes::{dword_at, le32};
use crate::digest::crc32_of;
use crate::lzss::{copied, unpack};
use crate::mapper::physical;
use crate::rom_laws::law_stored_numbers;

verus! {

// ---------------------------------------------------------------------------
// Packed graphics
// ---------------------------------------------------------------------------

/// Whether one output goes on from another by repeating what stands `back` bytes before:
/// each new byte is the one that far before it, and zero where there is none.
pub open spec fn repeats(out: Seq<u8>, more: Seq<u8>, back: int, len: int) -> bool {
    &&& more.len() == out.len() + len
    &&& more.take(out.len() as int) == out
    &&& forall|p: int|
        out.len() <= p < more.len() ==> #[trigger] more[p] == if p >= back {
            more[p - back]
        } else {
            0u8
        }
}

proof fn lemma_copied(out: Seq<u8>, back: int, len: int)
    requires
        1 <= back,
        0 <= len,
    ensures
        repeats(out, copied(out, back, len), back, len),
    decreases len,
{
    let more = copied(out, back, len);
    if len == 0 {
        assert(more.take(out.len() as int) =~= out);
    } else {
        lemma_copied(out, back, len - 1);
        let prev = copied(out, back, len - 1);
        assert(more.take(out.len() as int) =~= prev.take(out.len() as int));
        assert forall|p: int| out.len() <= p < more.len() implies #[trigger] more[p] == if p >= back {
            more[p - back]
        } else {
            0u8
        } by {
            if p < prev.len() {
                assert(more[p] == prev[p]);
                if p >= back {
                    assert(more[p - back] == prev[p - back]);
                }
            }
        }
    }
}

/// Packed data ends at a zero byte.
pub proof fn law_end_mark(stream: Seq<u8>, i: int, out: Seq<u8>)
    requires
        0 <= i < stream.len(),
        stream[i] == 0,
    ensures
        unpack(stream, i, out) == (out, i + 1),
{
}

/// A byte from 1 to 127 is followed by as many bytes that are taken as they are.
pub proof fn law_literal_run(stream: Seq<u8>, i: int, out: Seq<u8>)
    requires
        0 <= i,
        i + 1 < stream.len(),
        1 <= stream[i] <= 127,
        i + stream[i] < stream.len(),
    ensures
        unpack(stream, i, out) == unpack(
            stream,
            i + stream[i] + 1,
            out + stream.subrange(i + 1, i + stream[i] + 1),
        ),
{
}

/// A byte from 128 on is followed by a distance less one, and repeats what stands that far
/// back: three bytes for 128, and one more for each number above.
pub proof fn law_back_reference(stream: Seq<u8>, i: int, out: Seq<u8>)
    requires
        0 <= i,
        i + 1 < stream.len(),
        stream[i] >= 128,
    ensures
        exists|more: Seq<u8>|
            #[trigger] repeats(out, more, stream[i + 1] + 1, stream[i] - 125) && unpack(stream, i, out)
                == unpack(stream, i + 2, more),
{
    lemma_copied(out, stream[i + 1] + 1, stream[i] - 125);
    let more = copied(out, stream[i + 1] + 1, stream[i] - 125);
    assert(repeats(out, more, stream[i + 1] + 1, stream[i] - 125));
}

// ---------------------------------------------------------------------------
// Patches
// ---------------------------------------------------------------------------

/// A number is written seven bits at a time, the lowest first, with the high bit set in the
/// last byte only; each byte behind the first adds one to what is above it.
pub proof fn law_written_numbers(v: int, input: Seq<u8>, at: int)
    requires
        0 <= v,
        0 <= at < input.len(),
    ensures
        forall|i: int|
            0 <= i < number_bytes(v).len() - 1 ==> #[trigger] number_bytes(v)[i] < 0x80,
        number_bytes(v).len() > 0,
        number_bytes(v).last() >= 0x80,
        input[at] >= 0x80 ==> read_number(input, at) == Some((input[at] - 0x80, at + 1)),
        input[at] < 0x80 && at + 1 < input.len() && input[at + 1] >= 0x80 ==> read_number(input, at)
            == Some((input[at] + 128 * (input[at + 1] - 0x80) + 128, at + 2)),
    decreases v,
{
    if at + 1 < input.len() && input[at + 1] >= 0x80 {
        assert(read_number(input, at + 1) == Some((input[at + 1] - 0x80, at + 2)));
    }
    if v >= 128 {
        let rest = number_bytes(v / 128 - 1);
        law_written_numbers(v / 128 - 1, input, at);
        let all = number_bytes(v);
        assert(all == seq![(v % 128) as u8] + rest);
        assert forall|i: int| 0 <= i < all.len() - 1 implies #[trigger] all[i] < 0x80 by {
            if i > 0 {
                assert(all[i] == rest[i - 1]);
            }
        }
        assert(all.last() == rest.last());
    }
}

/// What a patch does next is the remainder of a number by four: zero takes bytes from the
/// source and one from the patch; the rest of the number is how many, less one.
pub proof fn law_actions(action: int, len: int)
    requires
        0 <= action < 4,
        1 <= len <= 0x4000_0000_0000_0000,
    ensures
        action_number(action, len) % 4 == action,
        action_number(action, len) / 4 == len - 1,
{
}

/// A patch starts with the letters `BPS1` and the sizes of the source, the target and the
/// metadata, and then has the metadata. It ends with the checksums of the source, of the
/// target, and of all that stands before.
pub proof fn law_patch_layout(source: Seq<u8>, target: Seq<u8>, metadata: Seq<u8>)
    ensures
        ({
            let patch = patch_of(source, target, metadata);
            let n = patch.len() as int;
            let a = read_number(patch, 4);
            &&& n >= 16
            &&& forall|i: int| 0 <= i < 4 ==> patch[i] == #[trigger] "BPS1"@[i] as int
            &&& a matches Some(x) && x.0 == source.len() && (read_number(patch, x.1) matches Some(y)
                && y.0 == target.len() && (read_number(patch, y.1) matches Some(z) && z.0
                == metadata.len() && z.1 + metadata.len() <= n - 12 && patch.subrange(
                z.1,
                z.1 + metadata.len(),
            ) == metadata))
            &&& dword_at(patch, n - 12) == crc32_of(source)
            &&& dword_at(patch, n - 8) == crc32_of(target)
            &&& dword_at(patch, n - 4) == crc32_of(patch.take(n - 4))
        }),
{
    reveal_strlit("BPS1");
    let patch = patch_of(source, target, metadata);
    let signed = patch_signed(source, target, metadata);
    let body = patch_body(source, target, metadata);
    let n = patch.len() as int;
    let s = number_bytes(source.len() as int);
    let t = number_bytes(target.len() as int);
    let m = number_bytes(metadata.len() as int);
    let x: int = 4 + s.len() as int;
    let y: int = x + t.len();
    let z: int = y + m.len();
    law_stored_numbers(crc32_of(source) as int);
    law_stored_numbers(crc32_of(target) as int);
    law_stored_numbers(crc32_of(signed) as int);
    assert(signed.len() == body.len() + 8);
    assert(patch.subrange(4, x) =~= s);
    assert(patch.subrange(x, y) =~= t);
    assert(patch.subrange(y, z) =~= m);
    assert(patch.subrange(z, z + metadata.len()) =~= metadata);
    law_number_round_trip(source.len() as int, patch, 4);
    law_number_round_trip(target.len() as int, patch, x);
    law_number_round_trip(metadata.len() as int, patch, y);
    assert(patch.take(n - 4) =~= signed);
    lemma_dword(patch, n - 12, le32(crc32_of(source) as int));
    lemma_dword(patch, n - 8, le32(crc32_of(target) as int));
    lemma_dword(patch, n - 4, le32(crc32_of(signed) as int));
}

proof fn lemma_dword(data: Seq<u8>, at: int, bytes: Seq<u8>)
    requires
        0 <= at,
        at + 4 <= data.len(),
        bytes.len() == 4,
        forall|i: int| 0 <= i < 4 ==> data[at + i] == #[trigger] bytes[i],
    ensures
        dword_at(data, at) == dword_at(bytes, 0),
{
    assert(data[at + 0] == bytes[0]);
    assert(data[at + 1] == bytes[1]);
    assert(data[at + 2] == bytes[2]);
    assert(data[at + 3] == bytes[3]);
}

// ---------------------------------------------------------------------------
// Banks
// ---------------------------------------------------------------------------

/// Addresses outside the two slots that can be switched are offsets as they stand.
pub proof fn law_fixed_addresses(addr: int, slot1_bank: int, slot2_bank: int)
    ensures
        addr < 0x4000 || addr >= 0xC000 ==> physical(addr, slot1_bank, slot2_bank) == addr,
        0x4000 <= addr < 0x8000 ==> physical(addr, slot1_bank, slot2_bank) == physical(
            addr,
            slot1_bank,
            0,
        ),
        0x8000 <= addr < 0xC000 ==> physical(addr, slot1_bank, slot2_bank) == physical(
            addr,
            0,
            slot2_bank,
        ),
{
}

// ---------------------------------------------------------------------------
// What a patch takes from where
// ---------------------------------------------------------------------------

/// Whether source and target have the same bytes at the same place.
pub open spec fn agrees(source: Seq<u8>, target: Seq<u8>, at: int, len: int) -> bool {
    &&& at + len <= source.len()
    &&& at + len <= target.len()
    &&& forall|i: int| at <= i < at + len ==> #[trigger] source[i] == target[i]
}

proof fn lemma_agrees(source: Seq<u8>, target: Seq<u8>, at: int, len: int)
    requires
        0 <= at,
        1 <= len,
    ensures
        agrees(source, target, at, len) <==> len <= equal_run(source, target, at),
    decreases len,
{
    lemma_equal_run(source, target, at);
    if agrees(source, target, at, len) {
        assert(source[at] == target[at]);
        if len > 1 {
            assert(agrees(source, target, at + 1, len - 1));
            lemma_agrees(source, target, at + 1, len - 1);
        } else {
            lemma_equal_run(source, target, at + 1);
        }
    }
}

proof fn lemma_carried(source: Seq<u8>, target: Seq<u8>, at: int)
    requires
        0 <= at <= target.len(),
    ensures
        ({
            let end = carried_end(source, target, at);
            &&& at <= end <= target.len()
            &&& end == target.len() || agrees(source, target, end, 4)
            &&& forall|i: int| at <= i < end ==> !#[trigger] agrees(source, target, i, 4)
        }),
    decreases target.len() - at,
{
    let run = equal_run(source, target, at);
    let end = carried_end(source, target, at);
    lemma_equal_run(source, target, at);
    lemma_carried_end(source, target, at);
    lemma_agrees(source, target, at, 4);
    if at < target.len() && run < 4 {
        let step = if run < 1 {
            1
        } else {
            run
        };
        lemma_carried(source, target, at + step);
        assert forall|i: int| at <= i < end implies !#[trigger] agrees(source, target, i, 4) by {
            if at < i < at + step && agrees(source, target, i, 4) {
                assert(agrees(source, target, at, run + 1)) by {
                    assert forall|k: int| at <= k < at + run + 1 implies #[trigger] source[k]
                        == target[k] by {}
                }
                lemma_agrees(source, target, at, run + 1);
            }
        }
    }
}

/// Where source and target agree in at least four bytes, a patch takes all that agree from
/// the source. Elsewhere it carries the bytes of the target itself, up to the next place
/// where they do.
pub proof fn law_taken_bytes(source: Seq<u8>, target: Seq<u8>, at: int)
    requires
        0 <= at < target.len() <= 0x4000_0000_0000_0000,
    ensures
        agrees(source, target, at, 4) ==> exists|len: int|
            {
                &&& len >= 4
                &&& #[trigger] agrees(source, target, at, len)
                &&& !agrees(source, target, at, len + 1)
                &&& actions(source, target, at) == number_bytes(4 * (len - 1)) + actions(
                    source,
                    target,
                    at + len,
                )
            },
        !agrees(source, target, at, 4) ==> exists|end: int|
            {
                &&& at < end <= target.len()
                &&& end == target.len() || agrees(source, target, end, 4)
                &&& forall|i: int| at <= i < end ==> !#[trigger] agrees(source, target, i, 4)
                &&& actions(source, target, at) == number_bytes(4 * (end - at - 1) + 1)
                    + #[trigger] target.subrange(at, end) + actions(source, target, end)
            },
{
    let run = equal_run(source, target, at);
    lemma_equal_run(source, target, at);
    lemma_agrees(source, target, at, 4);
    if run >= 4 {
        lemma_agrees(source, target, at, run);
        lemma_agrees(source, target, at, run + 1);
        assert(action_number(0, run) == 4 * (run - 1));
        assert(agrees(source, target, at, run));
    } else {
        lemma_carried(source, target, at);
        lemma_carried_end(source, target, at);
        let end = carried_end(source, target, at);
        assert(action_number(1, end - at) == 4 * (end - at - 1) + 1);
        assert(target.subrange(at, end) == target.subrange(at, end));
    }
}

} // verus!
