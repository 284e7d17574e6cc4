//! Script collections with a table of pointers in front.
use vstd::prelude::*;
use vstd::slice::slice_subrange;
use crate::bytes::{le16, push_all, word_at};
use crate::error::{outcome, plain, Fault, PatchError};
use crate::order::{is_stable_order, stable_order};
use crate::pointers::{pointer_views, region_string_count, script_count, CUTSCENE_COUNT};
use crate::script::{
    bytes_of, entry_ref_views, entry_views, fault_outcome, raw_entry_bytes, EntryView, ScriptEntry,
    ScriptKind,
};
use crate::text::{dec, hex, text};
use crate::tracked_rom::same_bytes;

verus! {

// ---------------------------------------------------------------------------
// Selecting entries
// ---------------------------------------------------------------------------

/// What is selected: a kind, and a region where one is given.
#[derive(Clone, Copy)]
pub struct Selection {
    /// The kind.
    pub kind: ScriptKind,
    /// The region, for region scripts.
    pub region: Option<usize>,
}

impl Selection {
    /// Whether an entry is selected.
    pub open spec fn takes(self, entry: EntryView) -> bool {
        entry.kind == self.kind && (self.region is None || entry.region == Some(
            self.region->0 as int,
        ))
    }

    /// What a selection is called in messages.
    pub open spec fn title_spec(self) -> Seq<char> {
        match self.region {
            Some(r) => "region "@ + dec(r as int),
            None => self.kind.name_spec(),
        }
    }

    /// What a selection is called in messages.
    pub fn title(self) -> (s: String)
        ensures
            s@ == self.title_spec(),
    {
        match self.region {
            Some(r) => text("region ").dec(r).finish(),
            None => text(self.kind.name()).finish(),
        }
    }
}

/// The selected entries, in their order.
pub open spec fn selected(entries: Seq<EntryView>, by: Selection) -> Seq<EntryView>
    decreases entries.len(),
{
    if entries.len() == 0 {
        Seq::empty()
    } else if by.takes(entries.last()) {
        selected(entries.drop_last(), by).push(entries.last())
    } else {
        selected(entries.drop_last(), by)
    }
}

/// The keys by which entries are ordered.
pub open spec fn index_keys(list: Seq<EntryView>) -> Seq<u128> {
    Seq::new(list.len(), |i: int| list[i].index as u128)
}

/// Entries put into an order.
pub open spec fn arranged(list: Seq<EntryView>, order: Seq<usize>) -> Seq<EntryView> {
    Seq::new(order.len(), |i: int| list[order[i] as int])
}

/// What is wrong with entries that should be numbered from 0 to `expected - 1`:
/// their number, or the first of the first `n` places that holds another index.
pub open spec fn numbering_fault(
    list: Seq<EntryView>,
    title: Seq<char>,
    expected: int,
    n: int,
) -> Option<Fault>
    decreases n,
{
    if n <= 0 {
        if list.len() != expected {
            Some(
                plain(
                    title + " count mismatch: "@ + dec(list.len() as int) + " vs "@ + dec(expected),
                ),
            )
        } else {
            None
        }
    } else {
        match numbering_fault(list, title, expected, n - 1) {
            Some(e) => Some(e),
            None => if list[n - 1].index != n - 1 {
                Some(
                    plain(
                        title + " index mismatch at position "@ + dec(n - 1) + ": "@ + dec(
                            list[n - 1].index,
                        ),
                    ),
                )
            } else {
                None
            },
        }
    }
}

/// Whether a result is the selection, sorted by index, or what is wrong with it.
pub open spec fn is_selection(
    result: Result<Vec<&ScriptEntry>, PatchError>,
    entries: Seq<EntryView>,
    by: Selection,
    expected: int,
) -> bool {
    exists|order: Seq<usize>|
        {
            let list = arranged(selected(entries, by), order);
            &&& #[trigger] is_stable_order(index_keys(selected(entries, by)), order)
            &&& match result {
                Ok(found) => {
                    &&& numbering_fault(list, by.title_spec(), expected, list.len() as int) is None
                    &&& entry_ref_views(found@) == list
                },
                Err(e) => numbering_fault(list, by.title_spec(), expected, list.len() as int)
                    == Some(e@),
            }
        }
}

proof fn lemma_numbering(list: Seq<EntryView>, title: Seq<char>, expected: int, k: int, n: int)
    requires
        0 <= k <= n,
        numbering_fault(list, title, expected, k) is Some,
    ensures
        numbering_fault(list, title, expected, n) == numbering_fault(list, title, expected, k),
    decreases n - k,
{
    if k < n {
        lemma_numbering(list, title, expected, k, n - 1);
    }
}

/// A selection that passes is numbered from 0 on without gaps.
pub proof fn law_selection_is_numbered(list: Seq<EntryView>, title: Seq<char>, expected: int, n: int)
    requires
        0 <= n <= list.len(),
        numbering_fault(list, title, expected, n) is None,
    ensures
        list.len() == expected,
        forall|i: int| 0 <= i < n ==> (#[trigger] list[i]).index == i,
    decreases n,
{
    if n > 0 {
        lemma_numbering_none(list, title, expected, n);
        law_selection_is_numbered(list, title, expected, n - 1);
    }
}

proof fn lemma_numbering_none(list: Seq<EntryView>, title: Seq<char>, expected: int, n: int)
    requires
        0 < n,
        numbering_fault(list, title, expected, n) is None,
    ensures
        numbering_fault(list, title, expected, n - 1) is None,
        list[n - 1].index == n - 1,
{
}

/// The selected entries in order of their indices; fails where these are not the
/// numbers from 0 to `expected - 1`.
pub fn select_entries<'a>(entries: &'a [ScriptEntry], by: Selection, expected: usize) -> (res:
    Result<Vec<&'a ScriptEntry>, PatchError>)
    ensures
        is_selection(res, entry_views(entries@), by, expected as int),
{
    let ghost all = entry_views(entries@);
    let mut found: Vec<&'a ScriptEntry> = Vec::new();
    let mut keys: Vec<u128> = Vec::new();
    let mut i: usize = 0;
    proof {
        assert(entry_ref_views(found@) =~= selected(all.take(0), by));
        assert(keys@ =~= index_keys(selected(all.take(0), by)));
    }
    while i < entries.len()
        invariant
            i <= entries@.len(),
            all == entry_views(entries@),
            entry_ref_views(found@) == selected(all.take(i as int), by),
            keys@ == index_keys(selected(all.take(i as int), by)),
        decreases entries@.len() - i,
    {
        let ghost was = entry_ref_views(found@);
        let ghost upto = all.take(i + 1);
        proof {
            assert(upto.drop_last() =~= all.take(i as int));
            assert(upto.last() == entries@[i as int]@);
        }
        let region_ok: bool = match by.region {
            None => true,
            Some(r) => match entries[i].region {
                Some(q) => q == r,
                None => false,
            },
        };
        if entries[i].kind == by.kind && region_ok {
            found.push(&entries[i]);
            keys.push(entries[i].index as u128);
            proof {
                assert(entry_ref_views(found@) =~= was.push(entries@[i as int]@));
                assert(keys@ =~= index_keys(selected(upto, by)));
            }
        }
        i += 1;
    }
    proof {
        assert(all.take(i as int) =~= all);
    }
    let order = stable_order(keys.as_slice());
    let ghost base = selected(all, by);
    let mut sorted: Vec<&'a ScriptEntry> = Vec::new();
    let mut k: usize = 0;
    while k < order.len()
        invariant
            k <= order@.len(),
            base == entry_ref_views(found@),
            is_stable_order(keys@, order@),
            keys@.len() == found@.len(),
            entry_ref_views(sorted@) == arranged(base, order@).take(k as int),
        decreases order@.len() - k,
    {
        let ghost was = entry_ref_views(sorted@);
        sorted.push(found[order[k]]);
        proof {
            assert(0 <= order@[k as int] < keys@.len());
            assert(entry_ref_views(sorted@) =~= was.push(base[order@[k as int] as int]));
            assert(entry_ref_views(sorted@) =~= arranged(base, order@).take(k + 1));
        }
        k += 1;
    }
    let ghost list = arranged(base, order@);
    proof {
        assert(entry_ref_views(sorted@) =~= list);
    }
    let title = by.title();
    if sorted.len() != expected {
        proof {
            lemma_numbering(list, title@, expected as int, 0, list.len() as int);
        }
        return Err(
            text(title.as_str()).lit(" count mismatch: ").dec(sorted.len()).lit(" vs ").dec(
                expected,
            ).fail(),
        );
    }
    let mut k: usize = 0;
    while k < sorted.len()
        invariant
            k <= sorted@.len(),
            list == entry_ref_views(sorted@),
            title@ == by.title_spec(),
            numbering_fault(list, title@, expected as int, k as int) is None,
            list == arranged(base, order@),
            base == selected(all, by),
            all == entry_views(entries@),
            is_stable_order(index_keys(base), order@),
        decreases sorted@.len() - k,
    {
        if sorted[k].index != k {
            proof {
                lemma_numbering(list, title@, expected as int, k + 1, list.len() as int);
            }
            return Err(
                text(title.as_str()).lit(" index mismatch at position ").dec(k).lit(": ").dec(
                    sorted[k].index,
                ).fail(),
            );
        }
        k += 1;
    }
    Ok(sorted)
}

/// The scripts of a region, sorted by index.
pub fn entries_for_region(entries: &[ScriptEntry], region: usize) -> (res: Result<
    Vec<&ScriptEntry>,
    PatchError,
>)
    requires
        region < 11,
    ensures
        is_selection(
            res,
            entry_views(entries@),
            Selection { kind: ScriptKind::Region, region: Some(region) },
            script_count(region as int),
        ),
{
    select_entries(
        entries,
        Selection { kind: ScriptKind::Region, region: Some(region) },
        region_string_count(region),
    )
}

/// The scripts of a kind, sorted by index.
pub fn entries_for_kind(entries: &[ScriptEntry], kind: ScriptKind, expected: usize) -> (res: Result<
    Vec<&ScriptEntry>,
    PatchError,
>)
    ensures
        is_selection(
            res,
            entry_views(entries@),
            Selection { kind, region: None },
            expected as int,
        ),
{
    select_entries(entries, Selection { kind, region: None }, expected)
}

// ---------------------------------------------------------------------------
// Building
// ---------------------------------------------------------------------------

/// The pointers and the scripts of the first `n` entries. `first` is the address of
/// the byte behind the table.
pub open spec fn bin_parts(entries: Seq<EntryView>, first: int, n: int) -> Result<
    (Seq<u8>, Seq<u8>),
    Fault,
>
    decreases n,
{
    if n <= 0 {
        Ok((Seq::empty(), Seq::empty()))
    } else {
        match bin_parts(entries, first, n - 1) {
            Err(e) => Err(e),
            Ok(p) => {
                let ptr = first + p.1.len();
                if ptr > 0xFFFF {
                    Err(plain(entries[n - 1].id + " pointer overflow: 0x"@ + hex(ptr, 0)))
                } else {
                    match bytes_of(entries[n - 1]) {
                        Err(e) => Err(e),
                        Ok(bytes) => Ok((p.0 + le16(ptr), p.1 + bytes)),
                    }
                }
            },
        }
    }
}

/// A table of pointers followed by the scripts that they point at, for a table
/// that stands at address `base`.
pub open spec fn tabled_bin(entries: Seq<EntryView>, base: int) -> Result<Seq<u8>, Fault> {
    let n = entries.len() as int;
    match bin_parts(entries, base + 2 * n, n) {
        Err(e) => Err(e),
        Ok(p) => Ok(p.0 + p.1),
    }
}

proof fn lemma_parts_fail(entries: Seq<EntryView>, first: int, k: int, n: int)
    requires
        k <= n,
        bin_parts(entries, first, k) is Err,
    ensures
        bin_parts(entries, first, n) == bin_parts(entries, first, k),
    decreases n - k,
{
    if k < n {
        lemma_parts_fail(entries, first, k, n - 1);
    }
}

fn build_bin(entries: &[&ScriptEntry], base: usize) -> (res: Result<Vec<u8>, PatchError>)
    requires
        base <= 0x1_FFFE,
    ensures
        outcome(res) == tabled_bin(entry_ref_views(entries@), base as int),
{
    let ghost list = entry_ref_views(entries@);
    let n: usize = entries.len();
    let first: u128 = base as u128 + 2 * n as u128;
    let mut table: Vec<u8> = Vec::new();
    let mut data: Vec<u8> = Vec::new();
    let mut i: usize = 0;
    while i < n
        invariant
            i <= n,
            n == entries@.len(),
            list == entry_ref_views(entries@),
            base <= 0x1_FFFE,
            first == base + 2 * n,
            bin_parts(list, first as int, i as int) == Ok::<(Seq<u8>, Seq<u8>), Fault>(
                (table@, data@),
            ),
        decreases n - i,
    {
        let e = entries[i];
        let ptr: u128 = first + data.len() as u128;
        if ptr > 0xFFFF {
            proof {
                lemma_parts_fail(list, first as int, i + 1, n as int);
            }
            return Err(
                text(e.id.as_str()).lit(" pointer overflow: 0x").hex_wide(ptr, 0).fail(),
            );
        }
        let bytes = match raw_entry_bytes(e) {
            Ok(bytes) => bytes,
            Err(err) => {
                proof {
                    lemma_parts_fail(list, first as int, i + 1, n as int);
                }
                return Err(err);
            },
        };
        let ghost was = table@;
        table.push((ptr % 256) as u8);
        table.push((ptr / 256) as u8);
        proof {
            assert(table@ =~= was + le16(ptr as int));
        }
        push_all(&mut data, bytes.as_slice());
        i += 1;
    }
    push_all(&mut table, data.as_slice());
    Ok(table)
}

/// Scripts behind a table of slot pointers; the table stands `slot_sub_offset`
/// bytes into the slot.
pub fn build_slot_tabled_bin(entries: &[&ScriptEntry], slot_base: u16, slot_sub_offset: u16) -> (res:
    Result<Vec<u8>, PatchError>)
    ensures
        outcome(res) == tabled_bin(entry_ref_views(entries@), slot_base + slot_sub_offset),
{
    build_bin(entries, slot_base as usize + slot_sub_offset as usize)
}

/// Scripts behind a table of offsets.
pub fn build_tabled_bin(entries: &[&ScriptEntry]) -> (res: Result<Vec<u8>, PatchError>)
    ensures
        outcome(res) == tabled_bin(entry_ref_views(entries@), 0),
{
    build_bin(entries, 0)
}

// ---------------------------------------------------------------------------
// Checking
// ---------------------------------------------------------------------------

/// Where the first `n` scripts of a bin start, as its table has it.
pub open spec fn bin_starts(bin: Seq<u8>, base: int, n: int) -> Result<Seq<int>, Fault>
    decreases n,
{
    if n <= 0 {
        Ok(Seq::empty())
    } else {
        match bin_starts(bin, base, n - 1) {
            Err(e) => Err(e),
            Ok(list) => {
                let ptr = word_at(bin, 2 * (n - 1));
                if ptr < base {
                    Err(
                        plain(
                            "slot pointer $"@ + hex(ptr, 4) + " below logical base $"@ + hex(base, 4),
                        ),
                    )
                } else {
                    Ok(list.push(ptr - base))
                }
            },
        }
    }
}

/// What is wrong with script `i` of a bin, if anything.
pub open spec fn slice_fault(
    bin: Seq<u8>,
    entries: Seq<EntryView>,
    starts: Seq<int>,
    i: int,
) -> Option<Fault> {
    let start = starts[i];
    let end = if i + 1 < starts.len() {
        starts[i + 1]
    } else {
        bin.len() as int
    };
    if !(start <= end && end <= bin.len()) {
        Some(
            plain(
                entries[i].id + " invalid bin slice "@ + dec(start) + ".."@ + dec(end) + " of "@ + dec(
                    bin.len() as int,
                ),
            ),
        )
    } else {
        match bytes_of(entries[i]) {
            Err(e) => Some(e),
            Ok(bytes) => if bin.subrange(start, end) != bytes {
                Some(plain(entries[i].id + " rebuilt bin bytes mismatch"@))
            } else {
                None
            },
        }
    }
}

/// What is wrong with the first of the first `n` scripts that something is wrong
/// with.
pub open spec fn slices_fault(
    bin: Seq<u8>,
    entries: Seq<EntryView>,
    starts: Seq<int>,
    n: int,
) -> Option<Fault>
    decreases n,
{
    if n <= 0 {
        None
    } else {
        match slices_fault(bin, entries, starts, n - 1) {
            Some(e) => Some(e),
            None => slice_fault(bin, entries, starts, n - 1),
        }
    }
}

/// What is wrong with a bin in view of the entries that it should hold.
pub open spec fn bin_fault(bin: Seq<u8>, entries: Seq<EntryView>, base: int) -> Option<Fault> {
    let n = entries.len() as int;
    if bin.len() < 2 * n {
        Some(
            plain(
                "bin shorter than pointer table: "@ + dec(bin.len() as int) + " < "@ + dec(2 * n),
            ),
        )
    } else {
        match bin_starts(bin, base, n) {
            Err(e) => Some(e),
            Ok(starts) => slices_fault(bin, entries, starts, n),
        }
    }
}

proof fn lemma_starts_fail(bin: Seq<u8>, base: int, k: int, n: int)
    requires
        k <= n,
        bin_starts(bin, base, k) is Err,
    ensures
        bin_starts(bin, base, n) == bin_starts(bin, base, k),
    decreases n - k,
{
    if k < n {
        lemma_starts_fail(bin, base, k, n - 1);
    }
}

proof fn lemma_slices_fail(
    bin: Seq<u8>,
    entries: Seq<EntryView>,
    starts: Seq<int>,
    k: int,
    n: int,
)
    requires
        k <= n,
        slices_fault(bin, entries, starts, k) is Some,
    ensures
        slices_fault(bin, entries, starts, n) == slices_fault(bin, entries, starts, k),
    decreases n - k,
{
    if k < n {
        lemma_slices_fail(bin, entries, starts, k, n - 1);
    }
}

/// The models of positions.
pub open spec fn position_views(list: Seq<usize>) -> Seq<int> {
    Seq::new(list.len(), |i: int| list[i] as int)
}

fn check_bin(bin: &[u8], entries: &[&ScriptEntry], base: usize) -> (res: Result<(), PatchError>)
    ensures
        fault_outcome(res) == bin_fault(bin@, entry_ref_views(entries@), base as int),
{
    let ghost list = entry_ref_views(entries@);
    let n: usize = entries.len();
    if bin.len() / 2 < n {
        return Err(
            text("bin shorter than pointer table: ").dec(bin.len()).lit(" < ").dec_wide(
                2 * n as u128,
            ).fail(),
        );
    }
    let mut starts: Vec<usize> = Vec::new();
    let mut i: usize = 0;
    proof {
        assert(position_views(starts@) =~= Seq::<int>::empty());
    }
    while i < n
        invariant
            i <= n,
            n == list.len(),
            2 * n <= bin@.len(),
            starts@.len() == i,
            list == entry_ref_views(entries@),
            bin_starts(bin@, base as int, i as int) == Ok::<Seq<int>, Fault>(
                position_views(starts@),
            ),
        decreases n - i,
    {
        let ghost was = position_views(starts@);
        let size: usize = bin.len();
        let ptr: usize = bin[2 * i] as usize + 256 * bin[2 * i + 1] as usize;
        if ptr < base {
            proof {
                lemma_starts_fail(bin@, base as int, i + 1, n as int);
            }
            return Err(
                text("slot pointer $").hex(ptr, 4).lit(" below logical base $").hex(
                    base,
                    4,
                ).fail(),
            );
        }
        starts.push(ptr - base);
        proof {
            assert(position_views(starts@) =~= was.push(ptr - base));
        }
        i += 1;
    }
    let ghost at = position_views(starts@);
    let mut i: usize = 0;
    while i < n
        invariant
            i <= n,
            n == list.len(),
            n == entries@.len(),
            2 * n <= bin@.len(),
            starts@.len() == n,
            at == position_views(starts@),
            list == entry_ref_views(entries@),
            bin_starts(bin@, base as int, n as int) == Ok::<Seq<int>, Fault>(at),
            slices_fault(bin@, list, at, i as int) is None,
        decreases n - i,
    {
        let start: usize = starts[i];
        let end: usize = if i + 1 < starts.len() {
            starts[i + 1]
        } else {
            bin.len()
        };
        let e = entries[i];
        if !(start <= end && end <= bin.len()) {
            proof {
                lemma_slices_fail(bin@, list, at, i + 1, n as int);
            }
            return Err(
                text(e.id.as_str()).lit(" invalid bin slice ").dec(start).lit("..").dec(end).lit(
                    " of ",
                ).dec(bin.len()).fail(),
            );
        }
        let expected = match raw_entry_bytes(e) {
            Ok(bytes) => bytes,
            Err(err) => {
                proof {
                    lemma_slices_fail(bin@, list, at, i + 1, n as int);
                }
                return Err(err);
            },
        };
        if !same_bytes(slice_subrange(bin, start, end), expected.as_slice()) {
            proof {
                lemma_slices_fail(bin@, list, at, i + 1, n as int);
            }
            return Err(text(e.id.as_str()).lit(" rebuilt bin bytes mismatch").fail());
        }
        i += 1;
    }
    Ok(())
}

/// Checks a bin with slot pointers against its entries.
pub fn verify_slot_tabled_bin(
    bin: &[u8],
    entries: &[&ScriptEntry],
    slot_base: u16,
    slot_sub_offset: u16,
) -> (res: Result<(), PatchError>)
    ensures
        fault_outcome(res) == bin_fault(
            bin@,
            entry_ref_views(entries@),
            slot_base + slot_sub_offset,
        ),
{
    check_bin(bin, entries, slot_base as usize + slot_sub_offset as usize)
}

/// Checks a bin with offsets against its entries.
pub fn verify_tabled_bin(bin: &[u8], entries: &[&ScriptEntry]) -> (res: Result<(), PatchError>)
    ensures
        fault_outcome(res) == bin_fault(bin@, entry_ref_views(entries@), 0),
{
    check_bin(bin, entries, 0)
}

/// The bin of entries that should be numbered from 0 to `expected - 1`, once it has
/// been built and checked.
pub open spec fn rebuilt_bin(
    list: Seq<EntryView>,
    title: Seq<char>,
    expected: int,
    base: int,
) -> Result<Seq<u8>, Fault> {
    match numbering_fault(list, title, expected, list.len() as int) {
        Some(e) => Err(e),
        None => match tabled_bin(list, base) {
            Err(e) => Err(e),
            Ok(bin) => match bin_fault(bin, list, base) {
                Some(e) => Err(e),
                None => Ok(bin),
            },
        },
    }
}

/// Whether a result is the bin rebuilt from the selected entries.
pub open spec fn is_rebuilt(
    result: Result<Vec<u8>, PatchError>,
    entries: Seq<EntryView>,
    by: Selection,
    expected: int,
    base: int,
) -> bool {
    exists|order: Seq<usize>|
        #[trigger] is_stable_order(index_keys(selected(entries, by)), order) && outcome(result)
            == rebuilt_bin(
            arranged(selected(entries, by), order),
            by.title_spec(),
            expected,
            base,
        )
}

fn rebuild(entries: &[ScriptEntry], by: Selection, expected: usize, base: usize) -> (res: Result<
    Vec<u8>,
    PatchError,
>)
    requires
        base <= 0x1_FFFE,
    ensures
        is_rebuilt(res, entry_views(entries@), by, expected as int, base as int),
{
    let list = match select_entries(entries, by, expected) {
        Ok(list) => list,
        Err(e) => {
            return Err(e);
        },
    };
    let bin = match build_bin(list.as_slice(), base) {
        Ok(bin) => bin,
        Err(e) => {
            return Err(e);
        },
    };
    match check_bin(bin.as_slice(), list.as_slice(), base) {
        Ok(_) => Ok(bin),
        Err(e) => Err(e),
    }
}

/// Rebuilds the scripts of a region as they stand in its bank: behind sixteen bytes
/// of slot 1.
pub fn roundtrip_region(entries: &[ScriptEntry], region: usize) -> (res: Result<
    Vec<u8>,
    PatchError,
>)
    requires
        region < 11,
    ensures
        is_rebuilt(
            res,
            entry_views(entries@),
            Selection { kind: ScriptKind::Region, region: Some(region) },
            script_count(region as int),
            0x4010,
        ),
{
    rebuild(
        entries,
        Selection { kind: ScriptKind::Region, region: Some(region) },
        region_string_count(region),
        0x4010,
    )
}

/// Rebuilds the cutscene scripts behind a table of offsets.
pub fn roundtrip_cutscenes(entries: &[ScriptEntry]) -> (res: Result<Vec<u8>, PatchError>)
    ensures
        is_rebuilt(
            res,
            entry_views(entries@),
            Selection { kind: ScriptKind::Cutscene, region: None },
            0xA8,
            0,
        ),
{
    rebuild(
        entries,
        Selection { kind: ScriptKind::Cutscene, region: None },
        CUTSCENE_COUNT,
        0,
    )
}

// ---------------------------------------------------------------------------
// A bin that was built passes the check
// ---------------------------------------------------------------------------

/// Where script `i` starts among the scripts.
pub open spec fn data_start(entries: Seq<EntryView>, first: int, i: int) -> int {
    bin_parts(entries, first, i)->Ok_0.1.len() as int
}

proof fn lemma_parts(entries: Seq<EntryView>, first: int, k: int, n: int)
    requires
        0 <= k <= n <= entries.len(),
        0 <= first,
        bin_parts(entries, first, n) is Ok,
    ensures
        bin_parts(entries, first, k) is Ok,
        bin_parts(entries, first, k)->Ok_0.0.len() == 2 * k,
        bin_parts(entries, first, k)->Ok_0.0 == bin_parts(entries, first, n)->Ok_0.0.take(2 * k),
        data_start(entries, first, k) <= data_start(entries, first, n),
        bin_parts(entries, first, k)->Ok_0.1 == bin_parts(entries, first, n)->Ok_0.1.take(
            data_start(entries, first, k),
        ),
        k < n ==> {
            let all = bin_parts(entries, first, n)->Ok_0;
            let from = data_start(entries, first, k);
            let to = data_start(entries, first, k + 1);
            &&& bytes_of(entries[k]) is Ok
            &&& from <= to <= all.1.len()
            &&& all.1.subrange(from, to) == bytes_of(entries[k])->Ok_0
            &&& first + from <= 0xFFFF
            &&& word_at(all.0, 2 * k) == first + from
        },
        bin_parts(entries, first, n)->Ok_0.0.len() == 2 * n,
    decreases n,
{
    if n == 0 {
        let p = bin_parts(entries, first, 0)->Ok_0;
        assert(p.0.take(0) =~= p.0);
        assert(p.1.take(0) =~= p.1);
    } else {
        let prev = bin_parts(entries, first, n - 1)->Ok_0;
        let all = bin_parts(entries, first, n)->Ok_0;
        if k == n {
            lemma_parts(entries, first, n - 1, n - 1);
            assert(all.0.take(2 * n) =~= all.0);
            assert(all.1.take(all.1.len() as int) =~= all.1);
        } else {
            lemma_parts(entries, first, k, n - 1);
            let p = bin_parts(entries, first, k)->Ok_0;
            assert(all.0.take(2 * k) =~= prev.0.take(2 * k));
            assert(all.1.take(p.1.len() as int) =~= prev.1.take(p.1.len() as int));
            let from = data_start(entries, first, k);
            let to = data_start(entries, first, k + 1);
            if k == n - 1 {
                assert(p.1 == prev.1);
                assert(all.1.subrange(from, to) =~= bytes_of(entries[k])->Ok_0);
                assert(all.0[2 * k] == le16(first + from)[0]);
                assert(all.0[2 * k + 1] == le16(first + from)[1]);
            } else {
                lemma_parts(entries, first, k + 1, n - 1);
                assert(all.1.subrange(from, to) =~= prev.1.subrange(from, to));
                assert(all.0[2 * k] == prev.0[2 * k]);
                assert(all.0[2 * k + 1] == prev.0[2 * k + 1]);
            }
        }
    }
}

proof fn lemma_built_starts(entries: Seq<EntryView>, base: int, n: int)
    requires
        0 <= base,
        tabled_bin(entries, base) is Ok,
        0 <= n <= entries.len(),
    ensures
        bin_starts(tabled_bin(entries, base)->Ok_0, base, n) == Ok::<Seq<int>, Fault>(
            Seq::new(
                n as nat,
                |i: int|
                    2 * entries.len() + data_start(entries, base + 2 * entries.len() as int, i),
            ),
        ),
    decreases n,
{
    let all = entries.len() as int;
    let first = base + 2 * all;
    let bin = tabled_bin(entries, base)->Ok_0;
    let starts = Seq::new(n as nat, |i: int| 2 * entries.len() + data_start(entries, first, i));
    if n > 0 {
        lemma_built_starts(entries, base, n - 1);
        lemma_parts(entries, first, n - 1, all);
        let table = bin_parts(entries, first, all)->Ok_0.0;
        assert(bin[2 * (n - 1)] == table[2 * (n - 1)]);
        assert(bin[2 * (n - 1) + 1] == table[2 * (n - 1) + 1]);
        assert(starts =~= Seq::new(
            (n - 1) as nat,
            |i: int| 2 * entries.len() + data_start(entries, first, i),
        ).push(starts[n - 1]));
    } else {
        assert(starts =~= Seq::empty());
    }
}

/// A bin that was built from entries passes the check against them.
pub proof fn law_built_bin_passes(entries: Seq<EntryView>, base: int)
    requires
        0 <= base,
        tabled_bin(entries, base) is Ok,
    ensures
        bin_fault(tabled_bin(entries, base)->Ok_0, entries, base) is None,
{
    let n = entries.len() as int;
    let first = base + 2 * n;
    let bin = tabled_bin(entries, base)->Ok_0;
    lemma_parts(entries, first, n, n);
    lemma_built_starts(entries, base, n);
    lemma_built_slices(entries, base, n);
}

proof fn lemma_slices_pass(
    bin: Seq<u8>,
    entries: Seq<EntryView>,
    starts: Seq<int>,
    k: int,
    n: int,
)
    requires
        0 <= k < n,
        slices_fault(bin, entries, starts, n) is None,
    ensures
        slice_fault(bin, entries, starts, k) is None,
    decreases n,
{
    if k < n - 1 {
        lemma_slices_pass(bin, entries, starts, k, n - 1);
    }
}

proof fn lemma_same_starts(a: Seq<u8>, b: Seq<u8>, base: int, n: int)
    requires
        forall|i: int| 0 <= i < 2 * n ==> #[trigger] a[i] == b[i],
    ensures
        bin_starts(a, base, n) == bin_starts(b, base, n),
    decreases n,
{
    if n > 0 {
        lemma_same_starts(a, b, base, n - 1);
        assert(a[2 * (n - 1)] == b[2 * (n - 1)]);
        assert(a[2 * (n - 1) + 1] == b[2 * (n - 1) + 1]);
    }
}

/// The script of a bin that a byte belongs to, from script `k` on.
spec fn script_of(starts: Seq<int>, at: int, k: int) -> int
    decreases starts.len() - k,
{
    if k + 1 >= starts.len() || at < starts[k + 1] {
        k
    } else {
        script_of(starts, at, k + 1)
    }
}

proof fn lemma_script_of(starts: Seq<int>, at: int, k: int)
    requires
        0 <= k < starts.len(),
        starts[k] <= at,
    ensures
        k <= script_of(starts, at, k) < starts.len(),
        starts[script_of(starts, at, k)] <= at,
        script_of(starts, at, k) + 1 < starts.len() ==> at < starts[script_of(starts, at, k) + 1],
    decreases starts.len() - k,
{
    if !(k + 1 >= starts.len() || at < starts[k + 1]) {
        lemma_script_of(starts, at, k + 1);
    }
}

/// A bin that was built from entries is refused once a byte behind its table has changed.
pub proof fn law_changed_bin_is_refused(entries: Seq<EntryView>, base: int, at: int, value: u8)
    requires
        0 <= base,
        tabled_bin(entries, base) is Ok,
        2 * entries.len() <= at < tabled_bin(entries, base)->Ok_0.len(),
        value != tabled_bin(entries, base)->Ok_0[at],
    ensures
        bin_fault(tabled_bin(entries, base)->Ok_0.update(at, value), entries, base) is Some,
{
    let n = entries.len() as int;
    let first = base + 2 * n;
    let bin = tabled_bin(entries, base)->Ok_0;
    let other = bin.update(at, value);
    lemma_parts(entries, first, n, n);
    lemma_built_starts(entries, base, n);
    lemma_same_starts(other, bin, base, n);
    law_built_bin_passes(entries, base);
    let starts = bin_starts(bin, base, n)->Ok_0;
    if n > 0 && bin_fault(other, entries, base) is None {
        assert(starts[0] == 2 * n + data_start(entries, first, 0));
        lemma_script_of(starts, at, 0);
        let k = script_of(starts, at, 0);
        let start = starts[k];
        let end = if k + 1 < n {
            starts[k + 1]
        } else {
            bin.len() as int
        };
        lemma_slices_pass(bin, entries, starts, k, n);
        lemma_slices_pass(other, entries, starts, k, n);
        assert(bin.subrange(start, end)[at - start] == bin[at]);
        assert(other.subrange(start, end)[at - start] == value);
    }
}

proof fn lemma_built_slices(entries: Seq<EntryView>, base: int, k: int)
    requires
        0 <= base,
        tabled_bin(entries, base) is Ok,
        0 <= k <= entries.len(),
    ensures
        slices_fault(
            tabled_bin(entries, base)->Ok_0,
            entries,
            bin_starts(tabled_bin(entries, base)->Ok_0, base, entries.len() as int)->Ok_0,
            k,
        ) is None,
    decreases k,
{
    let n = entries.len() as int;
    let first = base + 2 * n;
    let bin = tabled_bin(entries, base)->Ok_0;
    let parts = bin_parts(entries, first, n)->Ok_0;
    lemma_built_starts(entries, base, n);
    let starts = bin_starts(bin, base, n)->Ok_0;
    if k > 0 {
        let i = k - 1;
        lemma_built_slices(entries, base, i);
        lemma_parts(entries, first, i, n);
        let from = data_start(entries, first, i);
        let to = data_start(entries, first, i + 1);
        assert(bin.subrange(2 * n + from, 2 * n + to) =~= parts.1.subrange(from, to));
        if k == n {
            assert(bin.len() == 2 * n + to);
        }
    }
}

// ---------------------------------------------------------------------------
// Region banks
// ---------------------------------------------------------------------------

/// The pointers and the strings of the first `n` strings of a region bank. `first`
/// is the slot address of the byte behind the table. An empty string keeps the
/// pointer that it has, which must not lead into slot 1.
pub open spec fn repack_parts(
    strings: Seq<Seq<u8>>,
    orig: Seq<int>,
    first: int,
    n: int,
) -> Result<(Seq<u8>, Seq<u8>), Fault>
    decreases n,
{
    if n <= 0 {
        Ok((Seq::empty(), Seq::empty()))
    } else {
        match repack_parts(strings, orig, first, n - 1) {
            Err(e) => Err(e),
            Ok(p) => if strings[n - 1].len() == 0 {
                if 0x4000 <= orig[n - 1] < 0x8000 {
                    Err(
                        plain(
                            "region repack: 빈 문자열 idx "@ + dec(n - 1) + "의 원본 포인터 $"@ + hex(
                                orig[n - 1],
                                4,
                            )
                                + "가 slot1 in-bank라 verbatim 보존 불가(fresh 뱅크에 터미네이터 문자열이 필요)"@,
                        ),
                    )
                } else {
                    Ok((p.0 + le16(orig[n - 1]), p.1))
                }
            } else {
                let ptr = first + p.1.len();
                if ptr > 0xFFFF {
                    Err(plain("region repack 포인터 오버플로우: 0x"@ + hex(ptr, 0)))
                } else {
                    Ok((p.0 + le16(ptr), p.1 + strings[n - 1]))
                }
            },
        }
    }
}

/// The contents of a region bank: a table of slot pointers and the strings.
pub open spec fn repack_bin(strings: Seq<Seq<u8>>, orig: Seq<int>, table_offset: int) -> Result<
    Seq<u8>,
    Fault,
> {
    let n = strings.len() as int;
    if n != orig.len() {
        Err(
            plain(
                "build_region_repack_bin: strings("@ + dec(n) + ") != orig_pointers("@ + dec(
                    orig.len() as int,
                ) + ")"@,
            ),
        )
    } else {
        match repack_parts(strings, orig, 0x4000 + table_offset + 2 * n, n) {
            Err(e) => Err(e),
            Ok(p) => Ok(p.0 + p.1),
        }
    }
}

/// The models of byte strings.
pub open spec fn byte_views(list: Seq<Vec<u8>>) -> Seq<Seq<u8>> {
    Seq::new(list.len(), |i: int| list[i]@)
}

proof fn lemma_repack_fail(strings: Seq<Seq<u8>>, orig: Seq<int>, first: int, k: int, n: int)
    requires
        k <= n,
        repack_parts(strings, orig, first, k) is Err,
    ensures
        repack_parts(strings, orig, first, n) == repack_parts(strings, orig, first, k),
    decreases n - k,
{
    if k < n {
        lemma_repack_fail(strings, orig, first, k, n - 1);
    }
}

/// The contents of a region bank: a table of slot pointers, which stands
/// `table_slot_offset` bytes into the bank, and the strings. An empty string keeps
/// its original pointer.
pub fn build_region_repack_bin(
    strings: &[Vec<u8>],
    orig_pointers: &[u16],
    table_slot_offset: u16,
) -> (res: Result<Vec<u8>, PatchError>)
    ensures
        outcome(res) == repack_bin(
            byte_views(strings@),
            pointer_views(orig_pointers@),
            table_slot_offset as int,
        ),
{
    let ghost list = byte_views(strings@);
    let ghost orig = pointer_views(orig_pointers@);
    let n: usize = strings.len();
    if n != orig_pointers.len() {
        return Err(
            text("build_region_repack_bin: strings(").dec(n).lit(") != orig_pointers(").dec(
                orig_pointers.len(),
            ).lit(")").fail(),
        );
    }
    let first: u128 = 0x4000 + table_slot_offset as u128 + 2 * n as u128;
    let mut table: Vec<u8> = Vec::new();
    let mut data: Vec<u8> = Vec::new();
    let mut i: usize = 0;
    while i < n
        invariant
            i <= n,
            n == strings@.len(),
            n == orig_pointers@.len(),
            list == byte_views(strings@),
            orig == pointer_views(orig_pointers@),
            first == 0x4000 + table_slot_offset + 2 * n,
            repack_parts(list, orig, first as int, i as int) == Ok::<
                (Seq<u8>, Seq<u8>),
                Fault,
            >((table@, data@)),
        decreases n - i,
    {
        let ghost was = table@;
        if strings[i].len() == 0 {
            let ptr: u16 = orig_pointers[i];
            if 0x4000 <= ptr && ptr < 0x8000 {
                proof {
                    lemma_repack_fail(list, orig, first as int, i + 1, n as int);
                }
                return Err(
                    text("region repack: 빈 문자열 idx ").dec(i).lit("의 원본 포인터 $").hex(
                        ptr as usize,
                        4,
                    ).lit(
                        "가 slot1 in-bank라 verbatim 보존 불가(fresh 뱅크에 터미네이터 문자열이 필요)",
                    ).fail(),
                );
            }
            table.push((ptr % 256) as u8);
            table.push((ptr / 256) as u8);
            proof {
                assert(table@ =~= was + le16(ptr as int));
            }
        } else {
            let ptr: u128 = first + data.len() as u128;
            if ptr > 0xFFFF {
                proof {
                    lemma_repack_fail(list, orig, first as int, i + 1, n as int);
                }
                return Err(text("region repack 포인터 오버플로우: 0x").hex_wide(ptr, 0).fail());
            }
            table.push((ptr % 256) as u8);
            table.push((ptr / 256) as u8);
            proof {
                assert(table@ =~= was + le16(ptr as int));
            }
            push_all(&mut data, strings[i].as_slice());
        }
        i += 1;
    }
    push_all(&mut table, data.as_slice());
    Ok(table)
}

proof fn lemma_repack(strings: Seq<Seq<u8>>, orig: Seq<int>, first: int, k: int, n: int)
    requires
        0 <= k < n <= strings.len(),
        orig.len() == strings.len(),
        forall|i: int| 0 <= i < orig.len() ==> 0 <= #[trigger] orig[i] <= 0xFFFF,
        0 <= first,
        repack_parts(strings, orig, first, n) is Ok,
    ensures
        ({
            let all = repack_parts(strings, orig, first, n)->Ok_0;
            &&& all.0.len() == 2 * n
            &&& strings[k].len() == 0 ==> word_at(all.0, 2 * k) == orig[k]
            &&& strings[k].len() > 0 ==> {
                let at = word_at(all.0, 2 * k) - first;
                &&& 0 <= at
                &&& at + strings[k].len() <= all.1.len()
                &&& all.1.subrange(at, at + strings[k].len()) == strings[k]
            }
        }),
    decreases n,
{
    let prev = repack_parts(strings, orig, first, n - 1)->Ok_0;
    let all = repack_parts(strings, orig, first, n)->Ok_0;
    if n > 1 {
        lemma_repack(strings, orig, first, if k < n - 1 {
            k
        } else {
            0
        }, n - 1);
    }
    if k < n - 1 {
        assert(all.0[2 * k] == prev.0[2 * k]);
        assert(all.0[2 * k + 1] == prev.0[2 * k + 1]);
        if strings[k].len() > 0 {
            let at = word_at(all.0, 2 * k) - first;
            assert(all.1.subrange(at, at + strings[k].len()) =~= prev.1.subrange(
                at,
                at + strings[k].len(),
            ));
        }
    } else {
        assert(all.0.len() == prev.0.len() + 2);
        if strings[k].len() > 0 {
            let ptr = first + prev.1.len();
            assert(all.0[2 * k] == le16(ptr)[0]);
            assert(all.0[2 * k + 1] == le16(ptr)[1]);
            let at = prev.1.len() as int;
            assert(all.1.subrange(at, at + strings[k].len()) =~= strings[k]);
        } else {
            assert(all.0[2 * k] == le16(orig[k])[0]);
            assert(all.0[2 * k + 1] == le16(orig[k])[1]);
        }
    }
}

/// In a region bank that was built, the pointer of an empty string is the original
/// one, and every other pointer leads to its string: the string stands where the
/// pointer says once the bank, with the table at its offset, is seen through slot 1.
pub proof fn law_repack_pointers(
    strings: Seq<Seq<u8>>,
    orig: Seq<int>,
    table_offset: int,
    k: int,
)
    requires
        0 <= k < strings.len(),
        0 <= table_offset,
        forall|i: int| 0 <= i < orig.len() ==> 0 <= #[trigger] orig[i] <= 0xFFFF,
        repack_bin(strings, orig, table_offset) is Ok,
    ensures
        ({
            let bin = repack_bin(strings, orig, table_offset)->Ok_0;
            let ptr = word_at(bin, 2 * k);
            &&& 2 * k + 2 <= bin.len()
            &&& strings[k].len() == 0 ==> ptr == orig[k]
            &&& strings[k].len() > 0 ==> {
                let at = ptr - 0x4000 - table_offset;
                &&& 0 <= at
                &&& at + strings[k].len() <= bin.len()
                &&& bin.subrange(at, at + strings[k].len()) == strings[k]
            }
        }),
{
    let n = strings.len() as int;
    let first = 0x4000 + table_offset + 2 * n;
    let bin = repack_bin(strings, orig, table_offset)->Ok_0;
    let parts = repack_parts(strings, orig, first, n)->Ok_0;
    lemma_repack(strings, orig, first, k, n);
    assert(bin[2 * k] == parts.0[2 * k]);
    assert(bin[2 * k + 1] == parts.0[2 * k + 1]);
    if strings[k].len() > 0 {
        let at = word_at(bin, 2 * k) - first;
        assert(bin.subrange(2 * n + at, 2 * n + at + strings[k].len()) =~= parts.1.subrange(
            at,
            at + strings[k].len(),
        ));
    }
}

} // verus!
