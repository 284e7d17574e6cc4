//! Patches as chains of checked writes.
use vstd::prelude::*;
use vstd::slice::slice_subrange;
use crate::bytes::to_vec;
use crate::error::{plain, Fault, PatchError};
use crate::script::fault_outcome;
use crate::tracked_rom::{law_writes_are_tracked, Expect, ExpectView, RomView, TrackedRom};

verus! {

/// How far a chain of writes has come: the ROM, and what went wrong, if anything did.
/// Nothing is written any more once something has gone wrong.
#[verifier::ext_equal]
pub struct Progress {
    /// The ROM.
    pub rom: RomView,
    /// What went wrong.
    pub fault: Option<Fault>,
}

impl Progress {
    /// The start of a chain.
    pub open spec fn begin(rom: RomView) -> Progress {
        Progress { rom, fault: None }
    }

    /// One more write with an expectation.
    pub open spec fn expect(
        self,
        label: Seq<char>,
        offset: int,
        bytes: Seq<u8>,
        expect: ExpectView,
    ) -> Progress {
        if self.fault is Some {
            self
        } else {
            match self.rom.expect_refusal(label, offset, bytes.len() as int, expect) {
                Some(refusal) => Progress { rom: self.rom, fault: Some(plain(refusal.text())) },
                None => Progress { rom: self.rom.written(label, offset, bytes), fault: None },
            }
        }
    }

    /// One more write to free space.
    pub open spec fn free(self, label: Seq<char>, offset: int, bytes: Seq<u8>) -> Progress {
        self.expect(label, offset, bytes, ExpectView::FreeSpace(0xFF))
    }

    /// One more write over known bytes.
    pub open spec fn checked(
        self,
        label: Seq<char>,
        offset: int,
        known: Seq<u8>,
        bytes: Seq<u8>,
    ) -> Progress {
        self.expect(label, offset, bytes, ExpectView::Bytes(known))
    }

    /// One more write over whatever is there.
    pub open spec fn over(self, label: Seq<char>, offset: int, bytes: Seq<u8>) -> Progress {
        self.checked(
            label,
            offset,
            self.rom.data.subrange(offset, offset + bytes.len()),
            bytes,
        )
    }

    /// A failure that is not about a write.
    pub open spec fn fail(self, fault: Fault) -> Progress {
        if self.fault is Some {
            self
        } else {
            Progress { rom: self.rom, fault: Some(fault) }
        }
    }

    /// What holds all along a chain that starts from `original`: the record of writes
    /// is in order, the image keeps its size, and every change is on record.
    pub open spec fn sound(self, original: Seq<u8>) -> bool {
        &&& self.rom.wf()
        &&& self.rom.data.len() == original.len()
        &&& self.rom.tracks(original)
    }

    /// Whether a chain has come here from an earlier point: the record has only grown,
    /// nothing that was on record then has changed since, and a chain that had failed has
    /// not gone on.
    pub open spec fn after(self, earlier: Progress) -> bool {
        &&& earlier.rom.writes.len() <= self.rom.writes.len()
        &&& self.rom.writes.take(earlier.rom.writes.len() as int) == earlier.rom.writes
        &&& self.rom.data.len() == earlier.rom.data.len()
        &&& forall|i: int|
            0 <= i < earlier.rom.data.len() && earlier.rom.covered(i)
                ==> #[trigger] self.rom.data[i] == earlier.rom.data[i]
        &&& earlier.fault is Some ==> self == earlier
    }
}

/// A result together with the ROM, as progress.
pub open spec fn progress(rom: RomView, result: Result<(), PatchError>) -> Progress {
    Progress { rom, fault: fault_outcome(result) }
}

/// A write keeps what holds all along a chain.
pub proof fn law_chain_stays_sound(
    p: Progress,
    original: Seq<u8>,
    label: Seq<char>,
    offset: int,
    bytes: Seq<u8>,
    expect: ExpectView,
)
    requires
        p.sound(original),
        0 <= offset,
    ensures
        p.expect(label, offset, bytes, expect).sound(original),
{
    let q = p.expect(label, offset, bytes, expect);
    if p.fault is None && p.rom.expect_refusal(
        label,
        offset,
        bytes.len() as int,
        expect,
    ) is None {
        law_writes_are_tracked(p.rom, original, label, offset, bytes);
        crate::tracked_rom::lemma_written_wf(p.rom, label, offset, bytes);
    }
}

/// What one write has put in, no later write of the chain changes.
pub proof fn law_written_stays(
    p: Progress,
    label: Seq<char>,
    offset: int,
    bytes: Seq<u8>,
    expect: ExpectView,
)
    requires
        p.rom.wf(),
        0 <= offset,
    ensures
        p.expect(label, offset, bytes, expect).after(p),
{
    let q = p.expect(label, offset, bytes, expect);
    if q == p || q.fault is Some {
        assert(q.rom.writes.take(p.rom.writes.len() as int) =~= p.rom.writes);
    } else {
        assert(q.rom.writes.take(p.rom.writes.len() as int) =~= p.rom.writes);
        assert(p.rom.refusal(label, offset, bytes.len() as int) is None);
        assert forall|i: int| 0 <= i < p.rom.data.len() && p.rom.covered(i) implies #[trigger] q.rom.data[i]
            == p.rom.data[i] by {
            let k = choose|k: int|
                0 <= k < p.rom.writes.len() && (#[trigger] p.rom.writes[k]).covers(i);
            crate::tracked_rom::lemma_first_clash(p.rom.writes, offset, bytes.len() as int, k);
        }
    }
}

/// What comes after a later point comes after an earlier one.
pub proof fn lemma_after(a: Progress, b: Progress, c: Progress)
    requires
        b.after(a),
        c.after(b),
    ensures
        c.after(a),
{
    let n = a.rom.writes.len() as int;
    assert(c.rom.writes.take(n) =~= b.rom.writes.take(n)) by {
        assert forall|k: int| 0 <= k < n implies c.rom.writes[k] == b.rom.writes[k] by {
            assert(c.rom.writes.take(b.rom.writes.len() as int)[k] == b.rom.writes[k]);
        }
    }
    assert forall|i: int| 0 <= i < a.rom.data.len() && a.rom.covered(i) implies #[trigger] c.rom.data[i]
        == a.rom.data[i] by {
        let k = choose|k: int|
            0 <= k < a.rom.writes.len() && (#[trigger] a.rom.writes[k]).covers(i);
        assert(b.rom.writes.take(n)[k] == b.rom.writes[k]);
        assert(b.rom.writes[k].covers(i));
        assert(b.rom.covered(i));
        assert(b.rom.data[i] == a.rom.data[i]);
    }
}

/// A chain comes after itself.
pub proof fn lemma_after_itself(p: Progress)
    ensures
        p.after(p),
{
    assert(p.rom.writes.take(p.rom.writes.len() as int) =~= p.rom.writes);
}

/// What an accepted write has put in is there at every later point of the chain.
pub proof fn law_written_is_there(
    p: Progress,
    label: Seq<char>,
    offset: int,
    bytes: Seq<u8>,
    expect: ExpectView,
    later: Progress,
)
    requires
        p.rom.wf(),
        0 <= offset,
        later.after(p.expect(label, offset, bytes, expect)),
        later.fault is None,
    ensures
        offset + bytes.len() <= later.rom.data.len(),
        later.rom.data.subrange(offset, offset + bytes.len()) == bytes,
{
    let q = p.expect(label, offset, bytes, expect);
    assert(q.fault is None);
    assert forall|i: int| offset <= i < offset + bytes.len() implies later.rom.data[i] == bytes[i
        - offset] by {
        assert(q.rom.writes.last().covers(i));
        assert(q.rom.covered(i));
        assert(q.rom.data[i] == bytes[i - offset]);
    }
    assert(later.rom.data.subrange(offset, offset + bytes.len()) =~= bytes);
}

/// A fresh ROM is a sound start of a chain.
pub proof fn lemma_begin_sound(original: Seq<u8>)
    ensures
        Progress::begin(
            RomView { data: original, writes: Seq::empty() },
        ).sound(original),
{
}

/// Writes over known bytes.
pub fn write_checked(rom: &mut TrackedRom, label: &str, off: usize, expect: &[u8], new: &[u8]) -> (res:
    Result<(), PatchError>)
    requires
        old(rom)@.wf(),
        off + new@.len() <= usize::MAX,
    ensures
        progress(final(rom)@, res) == Progress::begin(old(rom)@).checked(
            label@,
            off as int,
            expect@,
            new@,
        ),
        final(rom)@.wf(),
{
    match rom.write_expect(label, off, new, &Expect::Bytes(expect)) {
        Ok(_) => Ok(()),
        Err(e) => Err(PatchError::new(e.to_string())),
    }
}

/// Writes to free space.
pub fn write_free(rom: &mut TrackedRom, label: &str, off: usize, new: &[u8]) -> (res: Result<
    (),
    PatchError,
>)
    requires
        old(rom)@.wf(),
        off + new@.len() <= usize::MAX,
    ensures
        progress(final(rom)@, res) == Progress::begin(old(rom)@).free(label@, off as int, new@),
        final(rom)@.wf(),
{
    match rom.write_expect(label, off, new, &Expect::FreeSpace(0xFF)) {
        Ok(_) => Ok(()),
        Err(e) => Err(PatchError::new(e.to_string())),
    }
}

/// Writes over whatever is there.
pub fn overwrite_tracked(rom: &mut TrackedRom, label: &str, off: usize, new: &[u8]) -> (res: Result<
    (),
    PatchError,
>)
    requires
        old(rom)@.wf(),
        off + new@.len() <= old(rom)@.data.len(),
    ensures
        progress(final(rom)@, res) == Progress::begin(old(rom)@).over(label@, off as int, new@),
        final(rom)@.wf(),
{
    let size: usize = rom.len();
    let current = to_vec(slice_subrange(rom.data(), off, off + new.len()));
    write_checked(rom, label, off, current.as_slice(), new)
}

/// Checks that every byte that differs from the original is on record.
pub fn ensure_all_writes_tracked(rom: &TrackedRom, original: &[u8]) -> (res: Result<(), PatchError>)
    requires
        rom@.wf(),
    ensures
        res is Ok <==> rom@.tracks(original@),
        res matches Err(e) ==> e@ == plain(
            crate::tracked_rom::stray_report(rom@.stray_runs(original@)),
        ),
{
    match rom.check_untracked_writes(original) {
        Ok(_) => Ok(()),
        Err(report) => Err(PatchError::new(report)),
    }
}

} // verus!
