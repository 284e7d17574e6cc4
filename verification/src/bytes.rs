//! Byte strings and little-endian numbers.
use vstd::prelude::*;

verus! {

/// A 16-bit number, low byte first.
pub open spec fn le16(v: int) -> Seq<u8> {
    seq![(v % 256) as u8, (v / 256 % 256) as u8]
}

/// A 32-bit number, low byte first.
pub open spec fn le32(v: int) -> Seq<u8> {
    seq![
        (v % 256) as u8,
        (v / 256 % 256) as u8,
        (v / 0x1_0000 % 256) as u8,
        (v / 0x100_0000 % 256) as u8,
    ]
}

/// The 16-bit number whose low byte stands at `at`.
pub open spec fn word_at(data: Seq<u8>, at: int) -> int {
    data[at] + 256 * data[at + 1]
}

/// The 32-bit number whose low byte stands at `at`.
pub open spec fn dword_at(data: Seq<u8>, at: int) -> int {
    data[at] + 0x100 * data[at + 1] + 0x1_0000 * data[at + 2] + 0x100_0000 * data[at + 3]
}

/// Appends the bytes of a slice.
pub fn push_all(out: &mut Vec<u8>, bytes: &[u8])
    ensures
        final(out)@ == old(out)@ + bytes@,
{
    let ghost before = out@;
    let mut i: usize = 0;
    proof {
        assert(out@ =~= before + bytes@.take(0));
    }
    while i < bytes.len()
        invariant
            i <= bytes@.len(),
            out@ == before + bytes@.take(i as int),
        decreases bytes@.len() - i,
    {
        out.push(bytes[i]);
        i += 1;
        proof {
            assert(out@ =~= before + bytes@.take(i as int));
        }
    }
    proof {
        assert(bytes@.take(i as int) =~= bytes@);
    }
}

/// A copy of a slice.
pub fn to_vec(bytes: &[u8]) -> (out: Vec<u8>)
    ensures
        out@ == bytes@,
{
    let mut out: Vec<u8> = Vec::new();
    push_all(&mut out, bytes);
    proof {
        assert(out@ =~= bytes@);
    }
    out
}

/// Appends a 32-bit number, low byte first.
pub fn append_u32_le(out: &mut Vec<u8>, value: u32)
    ensures
        final(out)@ == old(out)@ + le32(value as int),
{
    let ghost before = out@;
    out.push((value % 256) as u8);
    out.push((value / 256 % 256) as u8);
    out.push((value / 0x1_0000 % 256) as u8);
    out.push((value / 0x100_0000 % 256) as u8);
    proof {
        assert(out@ =~= before + le32(value as int));
    }
}

/// Reading a number gives back what was stored.
pub proof fn lemma_dword_le32(data: Seq<u8>, at: int, v: int)
    requires
        0 <= at,
        at + 4 <= data.len(),
        0 <= v <= u32::MAX,
        data.subrange(at, at + 4) == le32(v),
    ensures
        dword_at(data, at) == v,
{
    assert(data.subrange(at, at + 4)[0] == data[at]);
    assert(data.subrange(at, at + 4)[1] == data[at + 1]);
    assert(data.subrange(at, at + 4)[2] == data[at + 2]);
    assert(data.subrange(at, at + 4)[3] == data[at + 3]);
}

} // verus!
