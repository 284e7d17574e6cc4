//! A ROM image that keeps a record of every write to it.
use vstd::prelude::*;
use vstd::slice::slice_subrange;
use crate::runs::{
    lemma_runs_cover, lemma_runs_shape, lemma_scan_step, lemma_total_len, run_views, runs, scanned,
    total_len,
};
use crate::text::{dec, hex, hex_join, text};

verus! {

/// One write: what it was for and which bytes it covers.
#[derive(Debug)]
pub struct WriteOp {
    /// What the write was for.
    pub label: String,
    /// Where it starts.
    pub offset: usize,
    /// How many bytes it covers.
    pub len: usize,
}

/// The model of a write.
#[verifier::ext_equal]
pub struct WriteView {
    /// What the write was for.
    pub label: Seq<char>,
    /// Where it starts.
    pub offset: int,
    /// How many bytes it covers.
    pub len: int,
}

impl View for WriteOp {
    type V = WriteView;

    open spec fn view(&self) -> WriteView {
        WriteView { label: self.label@, offset: self.offset as int, len: self.len as int }
    }
}

impl WriteView {
    /// Whether the write covers the byte at `i`.
    pub open spec fn covers(self, i: int) -> bool {
        self.offset <= i < self.offset + self.len
    }

    /// Whether the write gets in the way of another one.
    pub open spec fn clashes(self, offset: int, len: int) -> bool {
        !(offset + len <= self.offset || offset >= self.offset + self.len)
    }
}

/// What a write takes for granted about the bytes that it replaces.
#[derive(Clone, Debug)]
pub enum Expect<'a> {
    /// All of them have this value.
    FreeSpace(u8),
    /// They are exactly these.
    Bytes(&'a [u8]),
}

/// The model of an expectation.
#[verifier::ext_equal]
pub enum ExpectView {
    /// All bytes have this value.
    FreeSpace(u8),
    /// They are exactly these.
    Bytes(Seq<u8>),
}

impl<'a> View for Expect<'a> {
    type V = ExpectView;

    open spec fn view(&self) -> ExpectView {
        match *self {
            Expect::FreeSpace(fill) => ExpectView::FreeSpace(fill),
            Expect::Bytes(bytes) => ExpectView::Bytes(bytes@),
        }
    }
}

/// The model of a ROM and its record of writes.
#[verifier::ext_equal]
pub struct RomView {
    /// The image.
    pub data: Seq<u8>,
    /// The writes, oldest first.
    pub writes: Seq<WriteView>,
}

/// Why a write was refused.
#[derive(Debug)]
#[allow(inconsistent_fields)]
pub enum TrackedRomError {
    /// It would overlap an earlier write.
    Collision {
        /// Label of the refused write.
        new_label: String,
        /// Its start.
        new_offset: usize,
        /// Its length.
        new_len: usize,
        /// Label of the earlier write.
        existing_label: String,
        /// Its start.
        existing_offset: usize,
        /// Its length.
        existing_len: usize,
    },
    /// It would go past the end of the image.
    OutOfBounds {
        /// Its start.
        offset: usize,
        /// Its length.
        len: usize,
        /// The size of the image.
        rom_size: usize,
    },
    /// The bytes to be replaced are not what they should be.
    Expectation {
        /// Label of the refused write.
        label: String,
        /// Its start.
        offset: usize,
        /// What was expected and what was found.
        detail: String,
    },
}

/// The model of a refusal.
pub enum RefusalView {
    /// Overlap with an earlier write.
    Collision {
        /// Label of the refused write.
        new_label: Seq<char>,
        /// Its start.
        new_offset: int,
        /// Its length.
        new_len: int,
        /// The earlier write.
        existing: WriteView,
    },
    /// Past the end of the image.
    OutOfBounds {
        /// Start of the refused write.
        offset: int,
        /// Its length.
        len: int,
        /// The size of the image.
        rom_size: int,
    },
    /// Unexpected bytes.
    Expectation {
        /// Label of the refused write.
        label: Seq<char>,
        /// Its start.
        offset: int,
        /// What was expected and what was found.
        detail: Seq<char>,
    },
}

impl View for TrackedRomError {
    type V = RefusalView;

    open spec fn view(&self) -> RefusalView {
        match *self {
            TrackedRomError::Collision {
                new_label,
                new_offset,
                new_len,
                existing_label,
                existing_offset,
                existing_len,
            } => RefusalView::Collision {
                new_label: new_label@,
                new_offset: new_offset as int,
                new_len: new_len as int,
                existing: WriteView {
                    label: existing_label@,
                    offset: existing_offset as int,
                    len: existing_len as int,
                },
            },
            TrackedRomError::OutOfBounds { offset, len, rom_size } => RefusalView::OutOfBounds {
                offset: offset as int,
                len: len as int,
                rom_size: rom_size as int,
            },
            TrackedRomError::Expectation { label, offset, detail } => RefusalView::Expectation {
                label: label@,
                offset: offset as int,
                detail: detail@,
            },
        }
    }
}

impl RefusalView {
    /// The message of a refusal.
    pub open spec fn text(self) -> Seq<char> {
        match self {
            RefusalView::Collision { new_label, new_offset, new_len, existing } => "write collision: '"@
                + new_label + "' at 0x"@ + hex(new_offset, 0) + "+"@ + dec(new_len)
                + " overlaps '"@ + existing.label + "' at 0x"@ + hex(existing.offset, 0) + "+"@
                + dec(existing.len),
            RefusalView::OutOfBounds { offset, len, rom_size } => "write out of bounds: offset 0x"@
                + hex(offset, 0) + " + len "@ + dec(len) + " exceeds ROM size "@ + dec(rom_size),
            RefusalView::Expectation { label, offset, detail } => "["@ + label
                + "] expectation failed at 0x"@ + hex(offset, 0) + ": "@ + detail,
        }
    }
}

impl TrackedRomError {
    /// The message of a refusal.
    pub fn to_string(&self) -> (s: String)
        ensures
            s@ == self@.text(),
    {
        match self {
            TrackedRomError::Collision {
                new_label,
                new_offset,
                new_len,
                existing_label,
                existing_offset,
                existing_len,
            } => text("write collision: '").lit(new_label.as_str()).lit("' at 0x").hex(
                *new_offset,
                0,
            ).lit("+").dec(*new_len).lit(" overlaps '").lit(existing_label.as_str()).lit(
                "' at 0x",
            ).hex(*existing_offset, 0).lit("+").dec(*existing_len).finish(),
            TrackedRomError::OutOfBounds { offset, len, rom_size } => text(
                "write out of bounds: offset 0x",
            ).hex(*offset, 0).lit(" + len ").dec(*len).lit(" exceeds ROM size ").dec(
                *rom_size,
            ).finish(),
            TrackedRomError::Expectation { label, offset, detail } => text("[").lit(
                label.as_str(),
            ).lit("] expectation failed at 0x").hex(*offset, 0).lit(": ").lit(
                detail.as_str(),
            ).finish(),
        }
    }
}

/// `base` with the bytes from `offset` on replaced by `bytes`.
pub open spec fn overwrite(base: Seq<u8>, offset: int, bytes: Seq<u8>) -> Seq<u8> {
    Seq::new(
        base.len(),
        |i: int|
            if offset <= i < offset + bytes.len() {
                bytes[i - offset]
            } else {
                base[i]
            },
    )
}

/// The oldest of `writes` that gets in the way of a new one.
pub open spec fn first_clash(writes: Seq<WriteView>, offset: int, len: int) -> Option<WriteView>
    decreases writes.len(),
{
    if writes.len() == 0 {
        None
    } else {
        match first_clash(writes.drop_last(), offset, len) {
            Some(w) => Some(w),
            None => if writes.last().clashes(offset, len) {
                Some(writes.last())
            } else {
                None
            },
        }
    }
}

/// What is wrong with the bytes that a write is to replace, if anything.
pub open spec fn unmet(data: Seq<u8>, offset: int, len: int, expect: ExpectView) -> Option<
    Seq<char>,
> {
    let found = data.subrange(offset, offset + len);
    match expect {
        ExpectView::FreeSpace(fill) => if forall|i: int| 0 <= i < len ==> found[i] == fill {
            None
        } else {
            Some(
                "expected free space (0x"@ + hex(fill as int, 2) + "), found ["@ + hex_join(
                    found.take(if len < 16 {
                        len
                    } else {
                        16
                    }),
                    ", "@,
                ) + "]"@,
            )
        },
        ExpectView::Bytes(expected) => if expected.len() != len {
            Some(
                "Expect::Bytes length ("@ + dec(expected.len() as int)
                    + ") must equal write length ("@ + dec(len) + ")"@,
            )
        } else if found != expected {
            Some(
                "expected bytes ["@ + hex_join(expected, ", "@) + "], found ["@ + hex_join(
                    found,
                    ", "@,
                ) + "]"@,
            )
        } else {
            None
        },
    }
}

impl RomView {
    /// Every recorded write lies within the image, and no two of them overlap.
    pub open spec fn wf(self) -> bool {
        &&& forall|k: int|
            0 <= k < self.writes.len() ==> {
                &&& 0 <= (#[trigger] self.writes[k]).offset
                &&& 0 <= self.writes[k].len
                &&& self.writes[k].offset + self.writes[k].len <= self.data.len()
            }
        &&& forall|j: int, k: int|
            0 <= j < k < self.writes.len() ==> !(#[trigger] self.writes[j]).clashes(
                (#[trigger] self.writes[k]).offset,
                self.writes[k].len,
            )
    }

    /// Whether some recorded write covers the byte at `i`.
    pub open spec fn covered(self, i: int) -> bool {
        exists|k: int| 0 <= k < self.writes.len() && (#[trigger] self.writes[k]).covers(i)
    }

    /// Why a write would be refused.
    pub open spec fn refusal(self, label: Seq<char>, offset: int, len: int) -> Option<RefusalView> {
        if offset + len > self.data.len() {
            Some(RefusalView::OutOfBounds { offset, len, rom_size: self.data.len() as int })
        } else {
            match first_clash(self.writes, offset, len) {
                Some(existing) => Some(
                    RefusalView::Collision {
                        new_label: label,
                        new_offset: offset,
                        new_len: len,
                        existing,
                    },
                ),
                None => None,
            }
        }
    }

    /// The ROM after a write that is not refused.
    pub open spec fn written(self, label: Seq<char>, offset: int, bytes: Seq<u8>) -> RomView {
        RomView {
            data: overwrite(self.data, offset, bytes),
            writes: self.writes.push(WriteView { label, offset, len: bytes.len() as int }),
        }
    }

    /// The ROM after an attempt to write: a refused write changes nothing.
    pub open spec fn after_write(self, label: Seq<char>, offset: int, bytes: Seq<u8>) -> RomView {
        if self.refusal(label, offset, bytes.len() as int) is Some {
            self
        } else {
            self.written(label, offset, bytes)
        }
    }

    /// Why a write with an expectation would be refused.
    pub open spec fn expect_refusal(
        self,
        label: Seq<char>,
        offset: int,
        len: int,
        expect: ExpectView,
    ) -> Option<RefusalView> {
        if offset + len > self.data.len() {
            Some(RefusalView::OutOfBounds { offset, len, rom_size: self.data.len() as int })
        } else {
            match unmet(self.data, offset, len, expect) {
                Some(detail) => Some(RefusalView::Expectation { label, offset, detail }),
                None => self.refusal(label, offset, len),
            }
        }
    }

    /// The ROM after an attempt to write with an expectation.
    pub open spec fn after_expect(
        self,
        label: Seq<char>,
        offset: int,
        bytes: Seq<u8>,
        expect: ExpectView,
    ) -> RomView {
        if self.expect_refusal(label, offset, bytes.len() as int, expect) is Some {
            self
        } else {
            self.written(label, offset, bytes)
        }
    }

    /// Whether the byte at `i` differs from `original` though no write covers it.
    pub open spec fn stray(self, original: Seq<u8>, i: int) -> bool {
        original[i] != self.data[i] && !self.covered(i)
    }

    /// The runs of bytes that differ from `original` though no write covers them.
    pub open spec fn stray_runs(self, original: Seq<u8>) -> Seq<(int, int)> {
        runs(
            |i: int| self.stray(original, i),
            if original.len() < self.data.len() {
                original.len() as int
            } else {
                self.data.len() as int
            },
        )
    }

    /// Every byte that differs from `original` is covered by a recorded write.
    pub open spec fn tracks(self, original: Seq<u8>) -> bool {
        forall|i: int|
            #![trigger self.data[i]]
            0 <= i < self.data.len() && i < original.len() && original[i] != self.data[i]
                ==> self.covered(i)
    }
}

/// The lines of a report on stray bytes, one for each run.
pub open spec fn stray_lines(list: Seq<(int, int)>) -> Seq<char>
    decreases list.len(),
{
    if list.len() == 0 {
        Seq::empty()
    } else {
        stray_lines(list.drop_last()) + "  UNTRACKED: [0x"@ + hex(list.last().0, 6) + "..0x"@ + hex(
            list.last().1,
            6,
        ) + ") ("@ + dec(list.last().1 - list.last().0) + " bytes)\n"@
    }
}

/// The report on stray bytes.
pub open spec fn stray_report(list: Seq<(int, int)>) -> Seq<char> {
    "Untracked ROM writes detected ("@ + dec(list.len() as int) + " region(s), "@ + dec(
        total_len(list),
    ) + " bytes total):\n"@ + stray_lines(list)
}

/// The models of recorded writes.
pub open spec fn write_views(writes: Seq<WriteOp>) -> Seq<WriteView> {
    Seq::new(writes.len(), |k: int| writes[k]@)
}

/// A result of a write in terms of models: the refusal, if there was one.
pub open spec fn refused(result: Result<(), TrackedRomError>) -> Option<RefusalView> {
    match result {
        Ok(_) => None,
        Err(e) => Some(e@),
    }
}

/// A ROM image with its record of writes. Reading goes through a plain slice;
/// writing only through the methods that keep the record.
#[derive(Debug)]
pub struct TrackedRom {
    data: Vec<u8>,
    writes: Vec<WriteOp>,
}

impl View for TrackedRom {
    type V = RomView;

    closed spec fn view(&self) -> RomView {
        RomView { data: self.data@, writes: write_views(self.writes@) }
    }
}

/// A write that clashes is found.
pub proof fn lemma_first_clash(writes: Seq<WriteView>, offset: int, len: int, k: int)
    requires
        0 <= k < writes.len(),
    ensures
        writes[k].clashes(offset, len) ==> first_clash(writes, offset, len) is Some,
    decreases writes.len(),
{
    if k < writes.len() - 1 {
        lemma_first_clash(writes.drop_last(), offset, len, k);
    }
}

proof fn lemma_first_clash_prefix(writes: Seq<WriteView>, offset: int, len: int, k: int)
    requires
        0 <= k <= writes.len(),
        first_clash(writes.take(k), offset, len) is Some,
    ensures
        first_clash(writes, offset, len) == first_clash(writes.take(k), offset, len),
    decreases writes.len(),
{
    if k == writes.len() {
        assert(writes.take(k) =~= writes);
    } else {
        assert(writes.drop_last().take(k) =~= writes.take(k));
        lemma_first_clash_prefix(writes.drop_last(), offset, len, k);
    }
}

impl TrackedRom {
    /// A ROM without recorded writes.
    pub fn new(data: Vec<u8>) -> (rom: Self)
        ensures
            rom@.data == data@,
            rom@.writes == Seq::<WriteView>::empty(),
            rom@.wf(),
    {
        let rom = TrackedRom { data, writes: Vec::new() };
        proof {
            assert(rom@.writes =~= Seq::<WriteView>::empty());
        }
        rom
    }

    /// The image.
    pub fn data(&self) -> (bytes: &[u8])
        ensures
            bytes@ == self@.data,
    {
        self.data.as_slice()
    }

    /// The size of the image.
    pub fn len(&self) -> (n: usize)
        ensures
            n == self@.data.len(),
    {
        self.data.len()
    }

    /// Whether the image has no bytes.
    pub fn is_empty(&self) -> (r: bool)
        ensures
            r == (self@.data.len() == 0),
    {
        self.data.len() == 0
    }

    /// The bytes of a range, if it lies within the image.
    pub fn read(&self, offset: usize, len: usize) -> (bytes: Option<&[u8]>)
        ensures
            match bytes {
                Some(b) => offset + len <= self@.data.len() && b@ == self@.data.subrange(
                    offset as int,
                    offset + len,
                ),
                None => offset + len > self@.data.len(),
            },
    {
        let size: usize = self.data.len();
        match offset.checked_add(len) {
            None => None,
            Some(end) => if end <= size {
                Some(slice_subrange(self.data.as_slice(), offset, end))
            } else {
                None
            },
        }
    }

    /// Writes bytes under a label. Refused where the range leaves the image or
    /// overlaps an earlier write; a refused write changes nothing.
    pub fn write(&mut self, label: &str, offset: usize, data: &[u8]) -> (res: Result<
        (),
        TrackedRomError,
    >)
        requires
            old(self)@.wf(),
            offset + data@.len() <= usize::MAX,
        ensures
            final(self)@ == old(self)@.after_write(label@, offset as int, data@),
            refused(res) == old(self)@.refusal(label@, offset as int, data@.len() as int),
            final(self)@.wf(),
    {
        let len: usize = data.len();
        if offset + len > self.data.len() {
            return Err(
                TrackedRomError::OutOfBounds { offset, len, rom_size: self.data.len() },
            );
        }
        match self.check_collision(offset, len) {
            Some(k) => {
                return Err(
                    TrackedRomError::Collision {
                        new_label: label.to_owned(),
                        new_offset: offset,
                        new_len: len,
                        existing_label: self.writes[k].label.clone(),
                        existing_offset: self.writes[k].offset,
                        existing_len: self.writes[k].len,
                    },
                );
            },
            None => {},
        }
        let ghost before = self@;
        let ghost bytes = data@;
        let mut i: usize = 0;
        while i < len
            invariant
                i <= len,
                len == data@.len(),
                data@ == bytes,
                offset + len <= self@.data.len(),
                offset + len <= usize::MAX,
                self@.data.len() == before.data.len(),
                self@.writes == before.writes,
                self@.data =~= overwrite(before.data, offset as int, bytes.take(i as int)),
                before.wf(),
            decreases len - i,
        {
            self.data.set(offset + i, data[i]);
            i += 1;
        }
        proof {
            assert(bytes.take(len as int) =~= bytes);
            assert forall|k: int| 0 <= k < before.writes.len() implies !(
            #[trigger] before.writes[k]).clashes(offset as int, len as int) by {
                lemma_first_clash(before.writes, offset as int, len as int, k);
            }
        }
        let op = WriteOp { label: label.to_owned(), offset, len };
        let ghost target = before.written(label@, offset as int, bytes);
        proof {
            assert(write_views(self.writes@.push(op)) =~= target.writes);
            assert(target.wf());
        }
        self.writes.push(op);
        proof {
            assert(self@ =~= target);
        }
        Ok(())
    }

    /// The record of writes, oldest first.
    pub fn write_reports(&self) -> (reports: &[WriteOp])
        ensures
            write_views(reports@) == self@.writes,
    {
        self.writes.as_slice()
    }

    /// The oldest write that gets in the way of a new one.
    fn check_collision(&self, offset: usize, len: usize) -> (found: Option<usize>)
        requires
            self@.wf(),
            offset + len <= self@.data.len(),
        ensures
            match found {
                Some(k) => k < self.writes@.len() && first_clash(
                    self@.writes,
                    offset as int,
                    len as int,
                ) == Some(self.writes@[k as int]@),
                None => first_clash(self@.writes, offset as int, len as int) is None,
            },
    {
        let ghost all = self@.writes;
        let size: usize = self.data.len();
        let new_end: usize = offset + len;
        let mut k: usize = 0;
        while k < self.writes.len()
            invariant
                k <= self.writes@.len(),
                new_end == offset + len,
                size == self@.data.len(),
                self@.wf(),
                all == self@.writes,
                all.len() == self.writes@.len(),
                first_clash(all.take(k as int), offset as int, len as int) is None,
            decreases self.writes@.len() - k,
        {
            let ghost upto = all.take(k + 1);
            proof {
                assert(all[k as int] == self.writes@[k as int]@);
                assert(upto.drop_last() =~= all.take(k as int));
                assert(upto.last() == all[k as int]);
            }
            let start: usize = self.writes[k].offset;
            let end: usize = start + self.writes[k].len;
            if !(new_end <= start || offset >= end) {
                proof {
                    lemma_first_clash_prefix(all, offset as int, len as int, k + 1);
                }
                return Some(k);
            }
            k += 1;
        }
        proof {
            assert(all.take(k as int) =~= all);
        }
        None
    }

    /// The image, without the record.
    pub fn into_data(self) -> (data: Vec<u8>)
        ensures
            data@ == self@.data,
    {
        self.data
    }

    /// Writes at an offset within a bank.
    pub fn write_bank(&mut self, label: &str, bank: u8, off_in_bank: usize, data: &[u8]) -> (res:
        Result<(), TrackedRomError>)
        requires
            old(self)@.wf(),
            bank * 0x4000 + off_in_bank + data@.len() <= usize::MAX,
        ensures
            final(self)@ == old(self)@.after_write(label@, bank * 0x4000 + off_in_bank, data@),
            refused(res) == old(self)@.refusal(
                label@,
                bank * 0x4000 + off_in_bank,
                data@.len() as int,
            ),
            final(self)@.wf(),
    {
        let at: usize = bank as usize * crate::mapper::BANK_SIZE + off_in_bank;
        self.write(label, at, data)
    }

    /// Writes bytes under a label where the bytes to be replaced are as expected.
    pub fn write_expect(&mut self, label: &str, offset: usize, data: &[u8], expect: &Expect) -> (res:
        Result<(), TrackedRomError>)
        requires
            old(self)@.wf(),
            offset + data@.len() <= usize::MAX,
        ensures
            final(self)@ == old(self)@.after_expect(label@, offset as int, data@, expect@),
            refused(res) == old(self)@.expect_refusal(
                label@,
                offset as int,
                data@.len() as int,
                expect@,
            ),
            final(self)@.wf(),
    {
        let len: usize = data.len();
        let end: usize = offset + len;
        if end > self.data.len() {
            return Err(
                TrackedRomError::OutOfBounds { offset, len, rom_size: self.data.len() },
            );
        }
        match check_expect(self.data.as_slice(), offset, len, expect) {
            Some(detail) => {
                return Err(
                    TrackedRomError::Expectation { label: label.to_owned(), offset, detail },
                );
            },
            None => {},
        }
        self.write(label, offset, data)
    }

    /// Whether some recorded write covers the byte at `i`.
    fn is_covered(&self, i: usize) -> (r: bool)
        requires
            self@.wf(),
        ensures
            r == self@.covered(i as int),
    {
        let size: usize = self.data.len();
        let mut k: usize = 0;
        while k < self.writes.len()
            invariant
                k <= self.writes@.len(),
                size == self@.data.len(),
                self@.wf(),
                forall|j: int| 0 <= j < k ==> !(#[trigger] self@.writes[j]).covers(i as int),
            decreases self.writes@.len() - k,
        {
            proof {
                assert(self@.writes[k as int] == self.writes@[k as int]@);
            }
            if self.writes[k].offset <= i && i < self.writes[k].offset + self.writes[k].len {
                return true;
            }
            k += 1;
        }
        false
    }

    /// Reports the bytes that differ from `original` though no recorded write
    /// covers them.
    pub fn check_untracked_writes(&self, original: &[u8]) -> (res: Result<(), String>)
        requires
            self@.wf(),
        ensures
            match res {
                Ok(_) => self@.stray_runs(original@).len() == 0,
                Err(report) => self@.stray_runs(original@).len() > 0 && report@ == stray_report(
                    self@.stray_runs(original@),
                ),
            },
            res is Ok <==> self@.tracks(original@),
    {
        let n: usize = if original.len() < self.data.len() {
            original.len()
        } else {
            self.data.len()
        };
        let ghost flag = |i: int| self@.stray(original@, i);
        let mut strays: Vec<(usize, usize)> = Vec::new();
        let mut run_start: Option<usize> = None;
        let mut i: usize = 0;
        proof {
            assert(scanned(strays@, run_start, 0) =~= runs(flag, 0));
        }
        while i < n
            invariant
                i <= n,
                n <= original@.len(),
                n <= self.data@.len(),
                self@.data == self.data@,
                self@.wf(),
                flag == (|i: int| self@.stray(original@, i)),
                runs(flag, i as int) == scanned(strays@, run_start, i as int),
                run_start is Some <==> i > 0 && flag(i - 1),
            decreases n - i,
        {
            proof {
                lemma_scan_step(flag, strays@, run_start, i as int);
            }
            if original[i] != self.data[i] && !self.is_covered(i) {
                if run_start.is_none() {
                    run_start = Some(i);
                }
            } else {
                match run_start {
                    Some(start) => {
                        strays.push((start, i));
                        run_start = None;
                    },
                    None => {},
                }
            }
            i += 1;
        }
        match run_start {
            Some(start) => {
                strays.push((start, n));
            },
            None => {},
        }
        let ghost list = self@.stray_runs(original@);
        proof {
            assert(run_views(strays@) =~= runs(flag, n as int));
            assert(runs(flag, n as int) == list);
            lemma_runs_shape(flag, n as int);
            lemma_total_len(flag, n as int);
            if list.len() == 0 {
                assert forall|i: int|
                    #![trigger self@.data[i]]
                    0 <= i < self@.data.len() && i < original@.len() && original@[i]
                        != self@.data[i] implies self@.covered(i) by {
                    if !self@.covered(i) {
                        assert(flag(i));
                        let k = lemma_runs_cover(flag, n as int, i);
                    }
                }
            } else {
                let i = list[0].0;
                assert(flag(i));
                assert(self@.data[i] != original@[i]);
            }
        }
        if strays.len() == 0 {
            return Ok(());
        }
        let mut total: usize = 0;
        let mut k: usize = 0;
        while k < strays.len()
            invariant
                k <= strays@.len(),
                list == run_views(strays@),
                forall|j: int| 0 <= j < list.len() ==> 0 <= (#[trigger] list[j]).0 < list[j].1,
                forall|j: int|
                    0 <= j <= list.len() ==> 0 <= #[trigger] total_len(list.take(j)) <= n,
                total == total_len(list.take(k as int)),
            decreases strays@.len() - k,
        {
            proof {
                assert(list.take(k + 1).drop_last() =~= list.take(k as int));
                assert(list.take(k + 1).last() == list[k as int]);
                assert(0 <= total_len(list.take(k + 1)) <= n);
            }
            total += strays[k].1 - strays[k].0;
            k += 1;
        }
        proof {
            assert(list.take(k as int) =~= list);
        }
        let mut report = text("Untracked ROM writes detected (").dec(strays.len()).lit(
            " region(s), ",
        ).dec(total).lit(" bytes total):\n");
        let ghost head = report@;
        let mut j: usize = 0;
        proof {
            assert(report@ =~= head + stray_lines(list.take(0)));
        }
        while j < strays.len()
            invariant
                j <= strays@.len(),
                list == run_views(strays@),
                forall|j: int| 0 <= j < list.len() ==> 0 <= (#[trigger] list[j]).0 < list[j].1,
                report@ == head + stray_lines(list.take(j as int)),
            decreases strays@.len() - j,
        {
            let ghost upto = list.take(j + 1);
            proof {
                assert(upto.drop_last() =~= list.take(j as int));
                assert(upto.last() == list[j as int]);
            }
            report = report.lit("  UNTRACKED: [0x").hex(strays[j].0, 6).lit("..0x").hex(
                strays[j].1,
                6,
            ).lit(") (").dec(strays[j].1 - strays[j].0).lit(" bytes)\n");
            proof {
                assert(report@ =~= head + stray_lines(upto));
            }
            j += 1;
        }
        proof {
            assert(list.take(j as int) =~= list);
        }
        Err(report.finish())
    }
}

/// What is wrong with the bytes that a write is to replace, if anything.
fn check_expect(data: &[u8], offset: usize, len: usize, expect: &Expect) -> (detail: Option<String>)
    requires
        offset + len <= data@.len(),
    ensures
        match detail {
            Some(s) => unmet(data@, offset as int, len as int, expect@) == Some(s@),
            None => unmet(data@, offset as int, len as int, expect@) is None,
        },
{
    let size: usize = data.len();
    let found = slice_subrange(data, offset, offset + len);
    match expect {
        Expect::FreeSpace(fill) => {
            if all_equal(found, *fill) {
                return None;
            }
            let shown = slice_subrange(
                found,
                0,
                if len < 16 {
                    len
                } else {
                    16
                },
            );
            Some(
                text("expected free space (0x").hex(*fill as usize, 2).lit("), found [").hex_join(
                    shown,
                    ", ",
                ).lit("]").finish(),
            )
        },
        Expect::Bytes(expected) => {
            if expected.len() != len {
                return Some(
                    text("Expect::Bytes length (").dec(expected.len()).lit(
                        ") must equal write length (",
                    ).dec(len).lit(")").finish(),
                );
            }
            if same_bytes(found, expected) {
                return None;
            }
            Some(
                text("expected bytes [").hex_join(expected, ", ").lit("], found [").hex_join(
                    found,
                    ", ",
                ).lit("]").finish(),
            )
        },
    }
}

/// Whether every byte has the given value.
pub fn all_equal(bytes: &[u8], value: u8) -> (r: bool)
    ensures
        r == (forall|i: int| 0 <= i < bytes@.len() ==> bytes@[i] == value),
{
    let mut i: usize = 0;
    while i < bytes.len()
        invariant
            i <= bytes@.len(),
            forall|j: int| 0 <= j < i ==> bytes@[j] == value,
        decreases bytes@.len() - i,
    {
        if bytes[i] != value {
            return false;
        }
        i += 1;
    }
    true
}

/// Whether two byte strings are equal.
pub fn same_bytes(a: &[u8], b: &[u8]) -> (r: bool)
    ensures
        r == (a@ == b@),
{
    if a.len() != b.len() {
        return false;
    }
    let mut i: usize = 0;
    while i < a.len()
        invariant
            i <= a@.len(),
            a@.len() == b@.len(),
            forall|j: int| 0 <= j < i ==> a@[j] == b@[j],
        decreases a@.len() - i,
    {
        if a[i] != b[i] {
            return false;
        }
        i += 1;
    }
    proof {
        assert(a@ =~= b@);
    }
    true
}

impl std::ops::Deref for TrackedRom {
    type Target = [u8];

    /// The image, for reading.
    fn deref(&self) -> (bytes: &[u8])
        ensures
            bytes@ == self@.data,
    {
        self.data.as_slice()
    }
}

/// A write that was not refused is found again where it was put, and every byte
/// outside it is kept.
pub proof fn law_read_after_write(rom: RomView, label: Seq<char>, offset: int, bytes: Seq<u8>)
    requires
        0 <= offset,
        rom.refusal(label, offset, bytes.len() as int) is None,
    ensures
        rom.after_write(label, offset, bytes).data.subrange(offset, offset + bytes.len()) == bytes,
        rom.after_write(label, offset, bytes).data.len() == rom.data.len(),
        forall|i: int|
            0 <= i < rom.data.len() && !(offset <= i < offset + bytes.len()) ==> rom.after_write(
                label,
                offset,
                bytes,
            ).data[i] == rom.data[i],
{
    assert(rom.after_write(label, offset, bytes).data.subrange(offset, offset + bytes.len())
        =~= bytes);
}

/// Bytes that an earlier write has put down are never changed by a later one.
pub proof fn law_writes_are_final(rom: RomView, k: int, i: int, label: Seq<char>, offset: int, bytes: Seq<u8>)
    requires
        rom.wf(),
        0 <= offset,
        0 <= k < rom.writes.len(),
        rom.writes[k].covers(i),
    ensures
        rom.after_write(label, offset, bytes).data[i] == rom.data[i],
{
    lemma_first_clash(rom.writes, offset, bytes.len() as int, k);
}

/// A write that was not refused keeps the record of writes in order.
pub proof fn lemma_written_wf(rom: RomView, label: Seq<char>, offset: int, bytes: Seq<u8>)
    requires
        rom.wf(),
        0 <= offset,
        rom.refusal(label, offset, bytes.len() as int) is None,
    ensures
        rom.written(label, offset, bytes).wf(),
{
    let len = bytes.len() as int;
    let now = rom.written(label, offset, bytes);
    let n = rom.writes.len() as int;
    assert forall|k: int| 0 <= k < n implies !(#[trigger] rom.writes[k]).clashes(offset, len) by {
        lemma_first_clash(rom.writes, offset, len, k);
    }
    assert forall|j: int, k: int| 0 <= j < k < now.writes.len() implies !(
    #[trigger] now.writes[j]).clashes((#[trigger] now.writes[k]).offset, now.writes[k].len) by {
        assert(now.writes[j] == rom.writes[j]);
        if k < n {
            assert(now.writes[k] == rom.writes[k]);
        }
    }
}

/// A fresh ROM tracks the image that it was made of, and every write, refused or
/// not, keeps that so: an image that was changed through writes alone passes the
/// check for untracked writes.
pub proof fn law_writes_are_tracked(
    rom: RomView,
    original: Seq<u8>,
    label: Seq<char>,
    offset: int,
    bytes: Seq<u8>,
)
    requires
        0 <= offset,
    ensures
        (RomView { data: original, writes: Seq::empty() }).tracks(original),
        rom.tracks(original) ==> rom.after_write(label, offset, bytes).tracks(original),
{
    let after = rom.after_write(label, offset, bytes);
    if rom.tracks(original) && rom.refusal(label, offset, bytes.len() as int) is None {
        assert forall|i: int|
            #![trigger after.data[i]]
            0 <= i < after.data.len() && i < original.len() && original[i]
                != after.data[i] implies after.covered(i) by {
            let n = rom.writes.len() as int;
            if offset <= i < offset + bytes.len() {
                assert(after.writes[n].covers(i));
            } else {
                assert(rom.data[i] == after.data[i]);
                let k = choose|k: int| 0 <= k < n && (#[trigger] rom.writes[k]).covers(i);
                assert(after.writes[k].covers(i));
            }
        }
    }
}

} // verus!
