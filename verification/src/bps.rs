//! BPS patches.
//!
//! Only two of the format's actions are used: copying from the source at the
//! current position, and carrying bytes of the target in the patch.
use vstd::prelude::*;
use crate::bytes::{append_u32_le, dword_at, le32, lemma_dword_le32, push_all};
use crate::digest::{crc32, crc32_of};
use crate::error::{plain, PatchError};
use crate::text::text;
use vstd::slice::slice_subrange;

verus! {

/// Copies from the source.
pub const SOURCE_READ: u64 = 0;

/// Copies from the patch.
pub const TARGET_READ: u64 = 1;

/// The shortest run of equal bytes that is copied from the source.
pub const MIN_SOURCE_READ_RUN: usize = 4;

/// A number in the format's variable-length form: seven bits per byte, low bits
/// first, the last byte marked by its high bit; each further byte stands for one
/// more than what it holds.
pub open spec fn number_bytes(v: int) -> Seq<u8>
    decreases v,
{
    if v < 128 {
        seq![(0x80 + v) as u8]
    } else {
        seq![(v % 128) as u8] + number_bytes(v / 128 - 1)
    }
}

/// How many bytes from `offset` on are equal in source and target.
pub open spec fn equal_run(source: Seq<u8>, target: Seq<u8>, offset: int) -> int
    decreases source.len() - offset,
{
    if offset < source.len() && offset < target.len() && source[offset] == target[offset] {
        1 + equal_run(source, target, offset + 1)
    } else {
        0
    }
}

/// Where the bytes that the patch carries from `offset` on end: at the next run
/// that is long enough to be copied from the source.
pub open spec fn carried_end(source: Seq<u8>, target: Seq<u8>, offset: int) -> int
    decreases target.len() - offset,
    via carried_decreases
{
    let run = equal_run(source, target, offset);
    if offset >= target.len() || run >= 4 {
        offset
    } else {
        carried_end(source, target, offset + if run < 1 {
            1
        } else {
            run
        })
    }
}

#[via_fn]
proof fn carried_decreases(source: Seq<u8>, target: Seq<u8>, offset: int) {
    lemma_equal_run(source, target, offset);
}

/// The number that stands for an action of `len` bytes: 62 bits for the length less
/// one, two bits for the action.
pub open spec fn action_number(action: int, len: int) -> int {
    ((len - 1) % 0x4000_0000_0000_0000) * 4 + action
}

/// The actions that make the target from `offset` on.
pub open spec fn actions(source: Seq<u8>, target: Seq<u8>, offset: int) -> Seq<u8>
    decreases target.len() - offset,
    via actions_decreases
{
    let run = equal_run(source, target, offset);
    if offset >= target.len() {
        Seq::empty()
    } else if run >= 4 {
        number_bytes(action_number(0, run)) + actions(source, target, offset + run)
    } else {
        let end = carried_end(source, target, offset);
        number_bytes(action_number(1, end - offset)) + target.subrange(offset, end) + actions(
            source,
            target,
            end,
        )
    }
}

#[via_fn]
proof fn actions_decreases(source: Seq<u8>, target: Seq<u8>, offset: int) {
    lemma_equal_run(source, target, offset);
    if offset < target.len() && equal_run(source, target, offset) < 4 {
        lemma_carried_end(source, target, offset);
    }
}

/// Bytes that agree lie in both, and are equal.
pub proof fn lemma_equal_run(source: Seq<u8>, target: Seq<u8>, offset: int)
    ensures
        0 <= equal_run(source, target, offset),
        equal_run(source, target, offset) > 0 ==> offset + equal_run(source, target, offset)
            <= source.len() && offset + equal_run(source, target, offset) <= target.len(),
        forall|i: int|
            offset <= i < offset + equal_run(source, target, offset) ==> source[i] == target[i],
    decreases source.len() - offset,
{
    if offset < source.len() && offset < target.len() && source[offset] == target[offset] {
        lemma_equal_run(source, target, offset + 1);
    }
}

/// What is carried ends within the target, and is not empty where little agrees.
pub proof fn lemma_carried_end(source: Seq<u8>, target: Seq<u8>, offset: int)
    requires
        offset <= target.len(),
    ensures
        offset <= carried_end(source, target, offset) <= target.len(),
        offset < target.len() && equal_run(source, target, offset) < 4 ==> offset < carried_end(
            source,
            target,
            offset,
        ),
    decreases target.len() - offset,
{
    lemma_equal_run(source, target, offset);
    let run = equal_run(source, target, offset);
    if !(offset >= target.len() || run >= 4) {
        lemma_carried_end(source, target, offset + if run < 1 {
            1
        } else {
            run
        });
    }
}

/// What a patch starts with: `BPS1`.
pub open spec fn magic() -> Seq<u8> {
    seq![0x42u8, 0x50u8, 0x53u8, 0x31u8]
}

/// A patch up to its checksums.
pub open spec fn patch_body(source: Seq<u8>, target: Seq<u8>, metadata: Seq<u8>) -> Seq<u8> {
    magic() + number_bytes(source.len() as int) + number_bytes(target.len() as int) + number_bytes(
        metadata.len() as int,
    ) + metadata + actions(source, target, 0)
}

/// A patch up to its own checksum, with given checksums of source and target.
pub open spec fn patch_framed(
    source: Seq<u8>,
    target: Seq<u8>,
    metadata: Seq<u8>,
    source_crc: int,
    target_crc: int,
) -> Seq<u8> {
    patch_body(source, target, metadata) + le32(source_crc) + le32(target_crc)
}

/// A patch up to its own checksum.
pub open spec fn patch_signed(source: Seq<u8>, target: Seq<u8>, metadata: Seq<u8>) -> Seq<u8> {
    patch_body(source, target, metadata) + le32(crc32_of(source) as int) + le32(
        crc32_of(target) as int,
    )
}

/// The patch that turns `source` into `target`.
pub open spec fn patch_of(source: Seq<u8>, target: Seq<u8>, metadata: Seq<u8>) -> Seq<u8> {
    let signed = patch_signed(source, target, metadata);
    signed + le32(crc32_of(signed) as int)
}

// ---------------------------------------------------------------------------
// Writing
// ---------------------------------------------------------------------------

/// Appends a number in the format's variable-length form.
pub fn encode_number(data: u64, out: &mut Vec<u8>)
    ensures
        final(out)@ == old(out)@ + number_bytes(data as int),
{
    let ghost before = out@;
    let ghost all = number_bytes(data as int);
    let mut data: u64 = data;
    proof {
        assert(out@ + number_bytes(data as int) =~= before + all);
    }
    while data >= 128
        invariant
            out@ + number_bytes(data as int) == before + all,
        decreases data,
    {
        let ghost was = out@;
        let ghost v = data as int;
        out.push((data % 128) as u8);
        data = data / 128 - 1;
        proof {
            assert(out@ + number_bytes(data as int) =~= was + number_bytes(v));
        }
    }
    let ghost was = out@;
    out.push((0x80 + data) as u8);
    proof {
        assert(out@ =~= was + number_bytes(data as int));
    }
}

/// Appends an action of `len` bytes; refused where `len` is 0.
pub fn emit_action(action: u64, len: usize, out: &mut Vec<u8>) -> (res: Result<(), PatchError>)
    requires
        action < 4,
    ensures
        match res {
            Ok(_) => len > 0 && final(out)@ == old(out)@ + number_bytes(
                action_number(action as int, len as int),
            ),
            Err(e) => len == 0 && e@ == plain("BPS action length must be nonzero"@) && final(out)@
                == old(out)@,
        },
{
    if len == 0 {
        return Err(text("BPS action length must be nonzero").fail());
    }
    encode_number(((len - 1) as u64 % 0x4000_0000_0000_0000) * 4 + action, out);
    Ok(())
}

/// How many bytes from `offset` on are equal in source and target.
fn source_read_len(source: &[u8], target: &[u8], offset: usize) -> (len: usize)
    ensures
        len as int == equal_run(source@, target@, offset as int),
{
    let max: usize = if source.len() < target.len() {
        source.len()
    } else {
        target.len()
    };
    let mut len: usize = 0;
    while offset < max && len < max - offset && source[offset + len] == target[offset + len]
        invariant
            max <= source@.len(),
            max <= target@.len(),
            max == source@.len() || max == target@.len(),
            offset < max ==> len <= max - offset,
            offset >= max ==> len == 0,
            equal_run(source@, target@, offset as int) == len + equal_run(
                source@,
                target@,
                offset + len,
            ),
        decreases max - len,
    {
        len += 1;
    }
    len
}

/// The patch that turns `source` into `target`, up to its own checksum.
pub fn frame_bps(
    source: &[u8],
    target: &[u8],
    metadata: &[u8],
    source_crc: u32,
    target_crc: u32,
) -> (res: Result<Vec<u8>, PatchError>)
    ensures
        res matches Ok(patch) && patch@ == patch_framed(
            source@,
            target@,
            metadata@,
            source_crc as int,
            target_crc as int,
        ),
{
    let mut out: Vec<u8> = Vec::new();
    out.push(0x42);
    out.push(0x50);
    out.push(0x53);
    out.push(0x31);
    proof {
        assert(out@ =~= magic());
    }
    encode_number(source.len() as u64, &mut out);
    encode_number(target.len() as u64, &mut out);
    encode_number(metadata.len() as u64, &mut out);
    push_all(&mut out, metadata);
    let ghost head = out@;
    let mut offset: usize = 0;
    proof {
        assert(out@ + actions(source@, target@, 0) =~= head + actions(source@, target@, 0));
    }
    while offset < target.len()
        invariant
            offset <= target@.len(),
            out@ + actions(source@, target@, offset as int) == head + actions(source@, target@, 0),
        decreases target@.len() - offset,
    {
        let ghost was = out@;
        let ghost at = offset as int;
        let same: usize = source_read_len(source, target, offset);
        proof {
            lemma_equal_run(source@, target@, at);
            lemma_carried_end(source@, target@, at);
        }
        if same >= MIN_SOURCE_READ_RUN {
            match emit_action(SOURCE_READ, same, &mut out) {
                Ok(_) => {},
                Err(e) => {
                    return Err(e);
                },
            }
            offset += same;
            proof {
                assert(out@ + actions(source@, target@, offset as int) =~= was + actions(
                    source@,
                    target@,
                    at,
                ));
            }
        } else {
            let start: usize = offset;
            let mut end: usize = offset;
            let ghost goal = carried_end(source@, target@, at);
            let mut run: usize = same;
            while end < target.len() && run < MIN_SOURCE_READ_RUN
                invariant
                    start <= end <= target@.len(),
                    run as int == equal_run(source@, target@, end as int),
                    carried_end(source@, target@, end as int) == goal,
                decreases target@.len() - end,
            {
                proof {
                    lemma_equal_run(source@, target@, end as int);
                }
                end += if run < 1 {
                    1
                } else {
                    run
                };
                run = source_read_len(source, target, end);
            }
            match emit_action(TARGET_READ, end - start, &mut out) {
                Ok(_) => {},
                Err(e) => {
                    return Err(e);
                },
            }
            push_all(&mut out, slice_subrange(target, start, end));
            offset = end;
            proof {
                assert(out@ + actions(source@, target@, offset as int) =~= was + actions(
                    source@,
                    target@,
                    at,
                ));
            }
        }
    }
    proof {
        assert(out@ =~= head + actions(source@, target@, 0));
        assert(out@ == patch_body(source@, target@, metadata@));
    }
    append_u32_le(&mut out, source_crc);
    append_u32_le(&mut out, target_crc);
    Ok(out)
}

/// The patch that turns `source` into `target`.
pub fn create_bps(source: &[u8], target: &[u8], metadata: &[u8]) -> (res: Result<
    Vec<u8>,
    PatchError,
>)
    ensures
        res matches Ok(patch) && patch@ == patch_of(source@, target@, metadata@),
{
    match frame_bps(source, target, metadata, crc32(source), crc32(target)) {
        Err(e) => Err(e),
        Ok(frame) => {
            let mut out = frame;
            let patch_crc: u32 = crc32(out.as_slice());
            append_u32_le(&mut out, patch_crc);
            Ok(out)
        },
    }
}

// ---------------------------------------------------------------------------
// What a patch means
// ---------------------------------------------------------------------------

/// The number that stands at `at`, and where it ends.
pub open spec fn read_number(input: Seq<u8>, at: int) -> Option<(int, int)>
    decreases input.len() - at,
{
    if at < 0 || at >= input.len() {
        None
    } else if input[at] >= 0x80 {
        Some((input[at] - 0x80, at + 1))
    } else {
        match read_number(input, at + 1) {
            Some(r) => Some((input[at] + 128 * (r.0 + 1), r.1)),
            None => None,
        }
    }
}

/// What the actions from `at` up to `end` add to `out`, if they can be carried out.
pub open spec fn run_actions(
    source: Seq<u8>,
    patch: Seq<u8>,
    at: int,
    end: int,
    out: Seq<u8>,
) -> Option<Seq<u8>>
    decreases end - at,
{
    if at >= end {
        Some(out)
    } else {
        match read_number(patch, at) {
            None => None,
            Some(r) => {
                let len = r.0 / 4 + 1;
                if r.1 <= at || r.1 > end {
                    None
                } else if r.0 % 4 == 0 && out.len() + len <= source.len() {
                    run_actions(
                        source,
                        patch,
                        r.1,
                        end,
                        out + source.subrange(out.len() as int, out.len() + len),
                    )
                } else if r.0 % 4 == 1 && len >= 0 && r.1 + len <= end {
                    run_actions(source, patch, r.1 + len, end, out + patch.subrange(r.1, r.1 + len))
                } else {
                    None
                }
            },
        }
    }
}

/// Why a patch cannot be applied.
pub enum ApplyFault {
    /// It is too short, does not start with the magic, or holds an action that
    /// cannot be carried out.
    Malformed,
    /// Its own checksum is wrong.
    PatchCrc,
    /// The source has another size.
    SourceSize,
    /// The result has another size.
    TargetSize,
    /// The source has another checksum.
    SourceCrc,
    /// The result has another checksum.
    TargetCrc,
}

/// What applying a patch to a source gives.
pub open spec fn apply(source: Seq<u8>, patch: Seq<u8>) -> Result<Seq<u8>, ApplyFault> {
    let n = patch.len() as int;
    let source_size = read_number(patch, 4);
    let target_size = read_number(patch, source_size->Some_0.1);
    let metadata_size = read_number(patch, target_size->Some_0.1);
    let out = run_actions(
        source,
        patch,
        metadata_size->Some_0.1 + metadata_size->Some_0.0,
        n - 12,
        Seq::empty(),
    );
    if n < 16 || patch.take(4) != magic() || source_size is None || target_size is None
        || metadata_size is None {
        Err(ApplyFault::Malformed)
    } else if crc32_of(patch.take(n - 4)) != dword_at(patch, n - 4) {
        Err(ApplyFault::PatchCrc)
    } else if source_size->Some_0.0 != source.len() {
        Err(ApplyFault::SourceSize)
    } else if out is None {
        Err(ApplyFault::Malformed)
    } else if target_size->Some_0.0 != out->0.len() {
        Err(ApplyFault::TargetSize)
    } else if crc32_of(source) != dword_at(patch, n - 12) {
        Err(ApplyFault::SourceCrc)
    } else if crc32_of(out->0) != dword_at(patch, n - 8) {
        Err(ApplyFault::TargetCrc)
    } else {
        Ok(out->0)
    }
}

/// A number that was written is read back, wherever it stands.
pub proof fn law_number_round_trip(v: int, input: Seq<u8>, at: int)
    requires
        v >= 0,
        at >= 0,
        at + number_bytes(v).len() <= input.len(),
        input.subrange(at, at + number_bytes(v).len()) == number_bytes(v),
    ensures
        read_number(input, at) == Some((v, at + number_bytes(v).len())),
        number_bytes(v).len() > 0,
    decreases v,
{
    let bytes = number_bytes(v);
    assert(input[at] == bytes[0]) by {
        assert(input.subrange(at, at + bytes.len())[0] == bytes[0]);
    }
    if v >= 128 {
        let tail = number_bytes(v / 128 - 1);
        assert(input.subrange(at + 1, at + 1 + tail.len()) =~= tail) by {
            assert forall|k: int| 0 <= k < tail.len() implies #[trigger] input.subrange(
                at + 1,
                at + 1 + tail.len(),
            )[k] == tail[k] by {
                assert(input.subrange(at, at + bytes.len())[1 + k] == bytes[1 + k]);
            }
        }
        law_number_round_trip(v / 128 - 1, input, at + 1);
    }
}

proof fn lemma_part(whole: Seq<u8>, at: int, a: Seq<u8>, b: Seq<u8>)
    requires
        0 <= at,
        at + a.len() + b.len() <= whole.len(),
        whole.subrange(at, at + (a + b).len()) == a + b,
    ensures
        whole.subrange(at, at + a.len()) == a,
        whole.subrange(at + a.len(), at + a.len() + b.len()) == b,
{
    assert forall|k: int| 0 <= k < a.len() implies #[trigger] whole.subrange(at, at + a.len())[k]
        == a[k] by {
        assert(whole.subrange(at, at + (a + b).len())[k] == (a + b)[k]);
    }
    assert(whole.subrange(at, at + a.len()) =~= a);
    assert forall|k: int| 0 <= k < b.len() implies #[trigger] whole.subrange(
        at + a.len(),
        at + a.len() + b.len(),
    )[k] == b[k] by {
        assert(whole.subrange(at, at + (a + b).len())[a.len() + k] == (a + b)[a.len() + k]);
        assert((a + b)[a.len() + k] == b[k]);
        assert(whole.subrange(at, at + (a + b).len())[a.len() + k] == whole[at + a.len() + k]);
    }
    assert(whole.subrange(at + a.len(), at + a.len() + b.len()) =~= b);
}

proof fn lemma_action_number(action: int, len: int)
    requires
        0 <= action < 4,
        1 <= len <= 0x4000_0000_0000_0000,
    ensures
        action_number(action, len) >= 0,
        action_number(action, len) / 4 + 1 == len,
        action_number(action, len) % 4 == action,
{
}

proof fn lemma_step_source(given: Seq<u8>, patch: Seq<u8>, at: int, end: int, out: Seq<u8>, len: int)
    requires
        1 <= len <= 0x4000_0000_0000_0000,
        out.len() + len <= given.len(),
        0 <= at,
        at + number_bytes(action_number(0, len)).len() <= end <= patch.len(),
        patch.subrange(at, at + number_bytes(action_number(0, len)).len()) == number_bytes(
            action_number(0, len),
        ),
    ensures
        run_actions(given, patch, at, end, out) == run_actions(
            given,
            patch,
            at + number_bytes(action_number(0, len)).len(),
            end,
            out + given.subrange(out.len() as int, out.len() + len),
        ),
{
    lemma_action_number(0, len);
    law_number_round_trip(action_number(0, len), patch, at);
}

proof fn lemma_step_target(
    given: Seq<u8>,
    patch: Seq<u8>,
    at: int,
    end: int,
    out: Seq<u8>,
    carried: Seq<u8>,
)
    requires
        1 <= carried.len() <= 0x4000_0000_0000_0000,
        0 <= at,
        ({
            let head = number_bytes(action_number(1, carried.len() as int));
            &&& at + head.len() + carried.len() <= end <= patch.len()
            &&& patch.subrange(at, at + head.len()) == head
            &&& patch.subrange(at + head.len(), at + head.len() + carried.len()) == carried
        }),
    ensures
        run_actions(given, patch, at, end, out) == run_actions(
            given,
            patch,
            at + number_bytes(action_number(1, carried.len() as int)).len() + carried.len(),
            end,
            out + carried,
        ),
{
    lemma_action_number(1, carried.len() as int);
    law_number_round_trip(action_number(1, carried.len() as int), patch, at);
}

proof fn lemma_run_actions(
    source: Seq<u8>,
    target: Seq<u8>,
    given: Seq<u8>,
    patch: Seq<u8>,
    at: int,
    offset: int,
    out: Seq<u8>,
)
    requires
        0 <= offset <= target.len() <= 0x4000_0000_0000_0000,
        0 <= at,
        given.len() == source.len(),
        out.len() == offset,
        at + actions(source, target, offset).len() <= patch.len(),
        patch.subrange(at, at + actions(source, target, offset).len()) == actions(
            source,
            target,
            offset,
        ),
    ensures
        ({
            let end = at + actions(source, target, offset).len();
            let made = run_actions(given, patch, at, end, out);
            &&& made is Some
            &&& made->0.len() == target.len()
            &&& given == source && out == target.take(offset) ==> made->0 == target
        }),
    decreases target.len() - offset,
{
    let body = actions(source, target, offset);
    let end = at + body.len();
    let run = equal_run(source, target, offset);
    lemma_equal_run(source, target, offset);
    lemma_carried_end(source, target, offset);
    if offset == target.len() {
        assert(target.take(offset) =~= target);
    } else if run >= 4 {
        let head = number_bytes(action_number(0, run));
        let tail = actions(source, target, offset + run);
        lemma_part(patch, at, head, tail);
        lemma_step_source(given, patch, at, end, out, run);
        let next = out + given.subrange(offset, offset + run);
        lemma_run_actions(source, target, given, patch, at + head.len(), offset + run, next);
        if given == source && out == target.take(offset) {
            assert(next =~= target.take(offset + run));
        }
    } else {
        let to = carried_end(source, target, offset);
        let head = number_bytes(action_number(1, to - offset));
        let carried = target.subrange(offset, to);
        let tail = actions(source, target, to);
        assert(body =~= head + (carried + tail));
        lemma_part(patch, at, head, carried + tail);
        lemma_part(patch, at + head.len(), carried, tail);
        lemma_step_target(given, patch, at, end, out, carried);
        let next = out + carried;
        lemma_run_actions(
            source,
            target,
            given,
            patch,
            at + head.len() + carried.len(),
            to,
            next,
        );
        if given == source && out == target.take(offset) {
            assert(next =~= target.take(to));
        }
    }
}

/// Where the parts of a patch stand: behind the magic the three numbers, the metadata and
/// the actions, then the three checksums.
proof fn lemma_patch_parts(source: Seq<u8>, target: Seq<u8>, metadata: Seq<u8>)
    ensures
        ({
            let patch = patch_of(source, target, metadata);
            let n = patch.len() as int;
            let signed = patch_signed(source, target, metadata);
            let s = number_bytes(source.len() as int);
            let t = number_bytes(target.len() as int);
            let m = number_bytes(metadata.len() as int);
            let a = actions(source, target, 0);
            let at_t = 4 + s.len() as int;
            let at_m = at_t + t.len();
            let at_a = at_m + m.len() + metadata.len();
            &&& n - 12 == at_a + a.len()
            &&& patch.take(4) == magic()
            &&& patch.take(n - 4) == signed
            &&& patch.subrange(4, at_t) == s
            &&& patch.subrange(at_t, at_m) == t
            &&& patch.subrange(at_m, at_m + m.len()) == m
            &&& patch.subrange(at_a, n - 12) == a
            &&& patch.subrange(n - 12, n - 8) == le32(crc32_of(source) as int)
            &&& patch.subrange(n - 8, n - 4) == le32(crc32_of(target) as int)
            &&& patch.subrange(n - 4, n) == le32(crc32_of(signed) as int)
        }),
{
    let patch = patch_of(source, target, metadata);
    let n = patch.len() as int;
    let signed = patch_signed(source, target, metadata);
    let s = number_bytes(source.len() as int);
    let t = number_bytes(target.len() as int);
    let m = number_bytes(metadata.len() as int);
    let a = actions(source, target, 0);
    let at_t = 4 + s.len() as int;
    let at_m = at_t + t.len();
    let at_a = at_m + m.len() + metadata.len();
    assert(patch.take(4) =~= magic());
    assert(patch.take(n - 4) =~= signed);
    assert(patch.subrange(n - 4, n) =~= le32(crc32_of(signed) as int));
    assert(patch.subrange(n - 8, n - 4) =~= le32(crc32_of(target) as int));
    assert(patch.subrange(n - 12, n - 8) =~= le32(crc32_of(source) as int));
    assert(patch.subrange(4, at_t) =~= s);
    assert(patch.subrange(at_t, at_m) =~= t);
    assert(patch.subrange(at_m, at_m + m.len()) =~= m);
    assert(patch.subrange(at_a, n - 12) =~= a);
}

#[verifier::rlimit(30)]
proof fn lemma_apply(source: Seq<u8>, target: Seq<u8>, metadata: Seq<u8>, given: Seq<u8>)
    requires
        target.len() <= 0x4000_0000_0000_0000,
    ensures
        given.len() != source.len() ==> apply(given, patch_of(source, target, metadata)) == Err::<
            Seq<u8>,
            ApplyFault,
        >(ApplyFault::SourceSize),
        given.len() == source.len() && crc32_of(given) != crc32_of(source) ==> apply(
            given,
            patch_of(source, target, metadata),
        ) == Err::<Seq<u8>, ApplyFault>(ApplyFault::SourceCrc),
        given == source ==> apply(given, patch_of(source, target, metadata)) == Ok::<
            Seq<u8>,
            ApplyFault,
        >(target),
{
    let patch = patch_of(source, target, metadata);
    let n = patch.len() as int;
    let signed = patch_signed(source, target, metadata);
    let s = number_bytes(source.len() as int);
    let t = number_bytes(target.len() as int);
    let m = number_bytes(metadata.len() as int);
    let at_t = 4 + s.len() as int;
    let at_m = at_t + t.len();
    let at_a = at_m + m.len() + metadata.len();
    lemma_patch_parts(source, target, metadata);
    lemma_dword_le32(patch, n - 4, crc32_of(signed) as int);
    lemma_dword_le32(patch, n - 8, crc32_of(target) as int);
    lemma_dword_le32(patch, n - 12, crc32_of(source) as int);
    law_number_round_trip(source.len() as int, patch, 4);
    law_number_round_trip(target.len() as int, patch, at_t);
    law_number_round_trip(metadata.len() as int, patch, at_m);
    if given.len() == source.len() {
        lemma_run_actions(source, target, given, patch, at_a, 0, Seq::empty());
        assert(target.take(0) =~= Seq::empty());
    }
}

/// Applying a patch to the source that it was made from gives the target.
pub proof fn law_patch_round_trip(source: Seq<u8>, target: Seq<u8>, metadata: Seq<u8>)
    requires
        target.len() <= 0x4000_0000_0000_0000,
    ensures
        apply(source, patch_of(source, target, metadata)) == Ok::<Seq<u8>, ApplyFault>(target),
{
    lemma_apply(source, target, metadata, source);
}

/// A patch is refused for every other source, told apart by its size or its
/// checksum.
pub proof fn law_patch_rejects_other_source(
    source: Seq<u8>,
    target: Seq<u8>,
    metadata: Seq<u8>,
    given: Seq<u8>,
)
    requires
        target.len() <= 0x4000_0000_0000_0000,
        given.len() != source.len() || crc32_of(given) != crc32_of(source),
    ensures
        apply(given, patch_of(source, target, metadata)) == Err::<Seq<u8>, ApplyFault>(
            if given.len() != source.len() {
                ApplyFault::SourceSize
            } else {
                ApplyFault::SourceCrc
            },
        ),
{
    lemma_apply(source, target, metadata, given);
}

} // verus!
