//! Surveys of a ROM: which byte values scripts use, and where space is free.
use vstd::prelude::*;
use vstd::slice::slice_subrange;
use std::collections::HashMap;
use crate::error::{plain, Fault, PatchError};
use crate::order::{is_stable_order, stable_order};
use crate::parse::{
    find, find_spec, has_prefix, index_of, index_or_len, lemma_find, lemma_index_or_len, parse_uint,
    same_str, starts_with, trim, trim_spec, uint_value,
};
use crate::runs::{
    flagged, has_value, lemma_long_runs, lemma_runs_shape, lemma_total_is_flagged, lemma_total_len,
    long_runs, run_views, runs, total_len, value_runs,
};
use crate::script::fault_outcome;
use crate::text::{chars_of, dec, hex, text, Text};

verus! {

/// A range of the ROM that a script file names.
#[derive(Debug, Clone, PartialEq, Eq)]
pub struct ScriptRange {
    /// The file.
    pub file: String,
    /// Where the range starts.
    pub offset: usize,
    /// How long it is.
    pub len: usize,
}

/// The model of a range.
#[verifier::ext_equal]
pub struct RangeView {
    /// The file.
    pub file: Seq<char>,
    /// Where the range starts.
    pub offset: int,
    /// How long it is.
    pub len: int,
}

impl View for ScriptRange {
    type V = RangeView;

    open spec fn view(&self) -> RangeView {
        RangeView { file: self.file@, offset: self.offset as int, len: self.len as int }
    }
}

/// The models of ranges.
pub open spec fn range_views(ranges: Seq<ScriptRange>) -> Seq<RangeView> {
    Seq::new(ranges.len(), |i: int| ranges[i]@)
}

/// A run of equal bytes.
#[derive(Debug, Clone, Copy, PartialEq, Eq)]
pub struct ByteRun {
    /// The byte.
    pub value: u8,
    /// Where the run starts.
    pub offset: usize,
    /// How long it is.
    pub len: usize,
}

// ---------------------------------------------------------------------------
// Ranges in script files
// ---------------------------------------------------------------------------

/// A number in base sixteen after `0x` or `0X`, in base ten otherwise.
pub open spec fn int_value(s: Seq<char>) -> Option<int> {
    if has_prefix(s, "0x"@) || has_prefix(s, "0X"@) {
        uint_value(s.skip(2), 16, usize::MAX as int)
    } else {
        uint_value(s, 10, usize::MAX as int)
    }
}

/// Reads a number in base sixteen after `0x` or `0X`, in base ten otherwise.
pub fn parse_int(s: &[char]) -> (r: Option<usize>)
    ensures
        match r {
            Some(v) => int_value(s@) == Some(v as int),
            None => int_value(s@) is None,
        },
{
    proof {
        reveal_strlit("0x");
        reveal_strlit("0X");
    }
    let small = chars_of("0x");
    let large = chars_of("0X");
    let value: Option<u64> = if starts_with(s, small.as_slice()) || starts_with(
        s,
        large.as_slice(),
    ) {
        parse_uint(slice_subrange(s, 2, s.len()), 16, usize::MAX as u64)
    } else {
        parse_uint(s, 10, usize::MAX as u64)
    };
    match value {
        Some(v) => Some(v as usize),
        None => None,
    }
}

/// The range that the arguments of a mark name, if there are two or more and the
/// first two are numbers.
pub open spec fn mark_range(args: Seq<char>, file: Seq<char>) -> Option<RangeView> {
    let comma = index_or_len(args, ',');
    let rest = args.skip(comma + 1);
    let first = int_value(trim_spec(args.take(comma)));
    let second = int_value(trim_spec(rest.take(index_or_len(rest, ','))));
    match (first, second) {
        (Some(offset), Some(len)) if comma < args.len() => Some(RangeView { file, offset, len }),
        _ => None,
    }
}

/// The ranges named by the marks `#STARTMSG(..)` of a text, in order. A mark
/// without a closing bracket ends the search.
pub open spec fn startmsg_ranges(s: Seq<char>, file: Seq<char>) -> Seq<RangeView>
    decreases s.len(),
    via startmsg_decreases
{
    match find_spec(s, "#STARTMSG("@) {
        None => Seq::empty(),
        Some(at) => {
            let rest = s.skip(at + "#STARTMSG("@.len());
            let end = index_or_len(rest, ')');
            if end >= rest.len() {
                Seq::empty()
            } else {
                let tail = startmsg_ranges(rest.skip(end + 1), file);
                match mark_range(rest.take(end), file) {
                    Some(range) => seq![range] + tail,
                    None => tail,
                }
            }
        },
    }
}

#[via_fn]
proof fn startmsg_decreases(s: Seq<char>, file: Seq<char>) {
    reveal_strlit("#STARTMSG(");
    lemma_find(s, "#STARTMSG("@, 0);
    match find_spec(s, "#STARTMSG("@) {
        None => {},
        Some(at) => {
            let rest = s.skip(at + "#STARTMSG("@.len());
            lemma_index_or_len(rest, ')');
        },
    }
}

fn parse_mark(args: &[char], file: &str) -> (r: Option<ScriptRange>)
    ensures
        match r {
            Some(range) => mark_range(args@, file@) == Some(range@),
            None => mark_range(args@, file@) is None,
        },
{
    let comma = index_of(args, ',');
    if comma == args.len() {
        return None;
    }
    let rest = slice_subrange(args, comma + 1, args.len());
    let second = slice_subrange(rest, 0, index_of(rest, ','));
    match (parse_int(trim(slice_subrange(args, 0, comma))), parse_int(trim(second))) {
        (Some(offset), Some(len)) => Some(ScriptRange { file: file.to_owned(), offset, len }),
        _ => None,
    }
}

/// The ranges named by the marks `#STARTMSG(offset, length, ..)` of a script file.
pub fn parse_startmsg_ranges(text: &str, file: &str) -> (ranges: Vec<ScriptRange>)
    ensures
        range_views(ranges@) == startmsg_ranges(text@, file@),
{
    let all = chars_of(text);
    let mark = chars_of("#STARTMSG(");
    let mut ranges: Vec<ScriptRange> = Vec::new();
    let mut rest = all.as_slice();
    proof {
        assert(range_views(ranges@) + startmsg_ranges(rest@, file@) =~= startmsg_ranges(
            text@,
            file@,
        ));
    }
    loop
        invariant
            mark@ == "#STARTMSG("@,
            range_views(ranges@) + startmsg_ranges(rest@, file@) == startmsg_ranges(text@, file@),
        decreases rest@.len(),
    {
        let ghost here = rest@;
        proof {
            reveal_strlit("#STARTMSG(");
        }
        let at: usize = match find(rest, mark.as_slice()) {
            None => {
                proof {
                    assert(range_views(ranges@) + startmsg_ranges(here, file@) =~= range_views(
                        ranges@,
                    ));
                }
                return ranges;
            },
            Some(at) => at,
        };
        let total: usize = rest.len();
        let after = slice_subrange(rest, at + mark.len(), total);
        let end = index_of(after, ')');
        if end == after.len() {
            proof {
                assert(range_views(ranges@) + startmsg_ranges(here, file@) =~= range_views(
                    ranges@,
                ));
            }
            return ranges;
        }
        let found = parse_mark(slice_subrange(after, 0, end), file);
        rest = slice_subrange(after, end + 1, after.len());
        let ghost listed = range_views(ranges@);
        proof {
            assert(after@ =~= here.skip(at + "#STARTMSG("@.len()));
            assert(rest@ =~= after@.skip(end + 1));
            assert(after@.subrange(0, end as int) =~= after@.take(end as int));
        }
        match found {
            Some(range) => {
                ranges.push(range);
                proof {
                    assert(range_views(ranges@) =~= listed.push(range@));
                    assert(range_views(ranges@) + startmsg_ranges(rest@, file@) =~= listed
                        + startmsg_ranges(here, file@));
                }
            },
            None => {},
        }
    }
}

/// How many different files a list of ranges names.
pub open spec fn distinct_files(ranges: Seq<RangeView>) -> int
    decreases ranges.len(),
{
    if ranges.len() == 0 {
        0
    } else {
        let before = ranges.drop_last();
        distinct_files(before) + if exists|k: int|
            0 <= k < before.len() && (#[trigger] before[k]).file == ranges.last().file {
            0int
        } else {
            1
        }
    }
}

/// How many different files a list of ranges names.
pub fn count_files(ranges: &[ScriptRange]) -> (n: usize)
    ensures
        n == distinct_files(range_views(ranges@)),
{
    let ghost all = range_views(ranges@);
    let mut n: usize = 0;
    let mut i: usize = 0;
    while i < ranges.len()
        invariant
            i <= ranges@.len(),
            all == range_views(ranges@),
            n <= i,
            n == distinct_files(all.take(i as int)),
        decreases ranges@.len() - i,
    {
        let ghost before = all.take(i as int);
        let mut seen: bool = false;
        let mut k: usize = 0;
        while k < i
            invariant
                k <= i,
                i < ranges@.len(),
                all == range_views(ranges@),
                before == all.take(i as int),
                seen == exists|j: int|
                    0 <= j < k && (#[trigger] before[j]).file == ranges@[i as int].file@,
            decreases i - k,
        {
            proof {
                assert(before[k as int].file == ranges@[k as int].file@);
            }
            if same_str(ranges[k].file.as_str(), ranges[i].file.as_str()) {
                seen = true;
            }
            k += 1;
        }
        proof {
            assert(all.take(i + 1).drop_last() =~= before);
            assert(all.take(i + 1).last() == ranges@[i as int]@);
        }
        if !seen {
            n += 1;
        }
        i += 1;
    }
    proof {
        assert(all.take(i as int) =~= all);
    }
    n
}

// ---------------------------------------------------------------------------
// Byte frequencies
// ---------------------------------------------------------------------------

/// How often a byte occurs.
pub open spec fn occurrences(bytes: Seq<u8>, b: u8) -> int
    decreases bytes.len(),
{
    if bytes.len() == 0 {
        0
    } else {
        occurrences(bytes.drop_last(), b) + if bytes.last() == b {
            1int
        } else {
            0
        }
    }
}

/// How often a byte occurs in ranges of the ROM; what lies in two of them counts
/// twice.
pub open spec fn range_occurrences(rom: Seq<u8>, ranges: Seq<RangeView>, b: u8) -> int
    decreases ranges.len(),
{
    if ranges.len() == 0 {
        0
    } else {
        let r = ranges.last();
        range_occurrences(rom, ranges.drop_last(), b) + occurrences(
            rom.subrange(r.offset, r.offset + r.len),
            b,
        )
    }
}

/// The lengths of ranges taken together.
pub open spec fn ranges_len(ranges: Seq<RangeView>) -> int
    decreases ranges.len(),
{
    if ranges.len() == 0 {
        0
    } else {
        ranges_len(ranges.drop_last()) + ranges.last().len
    }
}

/// What is wrong with a range, if anything.
pub open spec fn range_fault(rom: Seq<u8>, r: RangeView) -> Option<Fault> {
    if r.offset + r.len > usize::MAX {
        Some(plain("range overflow: "@ + r.file + " 0x"@ + hex(r.offset, 0) + "+"@ + dec(r.len)))
    } else if r.offset + r.len > rom.len() {
        Some(
            plain(
                r.file + " range out of ROM: 0x"@ + hex(r.offset, 0) + "..0x"@ + hex(
                    r.offset + r.len,
                    0,
                ) + " (rom len 0x"@ + hex(rom.len() as int, 0) + ")"@,
            ),
        )
    } else {
        None
    }
}

/// What is wrong with the first range that something is wrong with.
pub open spec fn ranges_fault(rom: Seq<u8>, ranges: Seq<RangeView>) -> Option<Fault>
    decreases ranges.len(),
{
    if ranges.len() == 0 {
        None
    } else {
        match ranges_fault(rom, ranges.drop_last()) {
            Some(fault) => Some(fault),
            None => range_fault(rom, ranges.last()),
        }
    }
}

/// Whether a table holds the given count for each byte that occurs, and nothing
/// for the others.
pub open spec fn tallies(freq: Map<u8, usize>, count: spec_fn(u8) -> int) -> bool {
    forall|b: u8|
        (#[trigger] freq.contains_key(b) <==> count(b) > 0) && (freq.contains_key(b) ==> freq[b]
            == count(b))
}

proof fn lemma_occurrences(bytes: Seq<u8>, b: u8)
    ensures
        0 <= occurrences(bytes, b) <= bytes.len(),
    decreases bytes.len(),
{
    if bytes.len() > 0 {
        lemma_occurrences(bytes.drop_last(), b);
    }
}

proof fn lemma_occurrences_grow(bytes: Seq<u8>, b: u8, k: int)
    requires
        0 <= k <= bytes.len(),
    ensures
        occurrences(bytes.take(k), b) <= occurrences(bytes, b),
    decreases bytes.len(),
{
    if k == bytes.len() {
        assert(bytes.take(k) =~= bytes);
    } else {
        assert(bytes.drop_last().take(k) =~= bytes.take(k));
        lemma_occurrences_grow(bytes.drop_last(), b, k);
    }
}

proof fn lemma_range_occurrences_grow(rom: Seq<u8>, ranges: Seq<RangeView>, b: u8, k: int)
    requires
        0 <= k <= ranges.len(),
    ensures
        0 <= range_occurrences(rom, ranges.take(k), b) <= range_occurrences(rom, ranges, b),
    decreases ranges.len(),
{
    if ranges.len() > 0 {
        let r = ranges.last();
        lemma_occurrences(rom.subrange(r.offset, r.offset + r.len), b);
        if k == ranges.len() {
            assert(ranges.take(k) =~= ranges);
            lemma_range_occurrences_grow(rom, ranges.drop_last(), b, k - 1);
            assert(ranges.drop_last().take(k - 1) =~= ranges.drop_last());
        } else {
            assert(ranges.drop_last().take(k) =~= ranges.take(k));
            lemma_range_occurrences_grow(rom, ranges.drop_last(), b, k);
        }
    }
}

proof fn lemma_fault_prefix(rom: Seq<u8>, ranges: Seq<RangeView>, k: int)
    requires
        0 <= k <= ranges.len(),
        ranges_fault(rom, ranges.take(k)) is Some,
    ensures
        ranges_fault(rom, ranges) == ranges_fault(rom, ranges.take(k)),
    decreases ranges.len(),
{
    if k == ranges.len() {
        assert(ranges.take(k) =~= ranges);
    } else {
        assert(ranges.drop_last().take(k) =~= ranges.take(k));
        lemma_fault_prefix(rom, ranges.drop_last(), k);
    }
}

/// Checks that ranges lie within the ROM.
fn check_ranges(rom: &[u8], ranges: &[ScriptRange]) -> (res: Result<(), PatchError>)
    ensures
        fault_outcome(res) == ranges_fault(rom@, range_views(ranges@)),
{
    let ghost all = range_views(ranges@);
    let mut k: usize = 0;
    while k < ranges.len()
        invariant
            k <= ranges@.len(),
            all == range_views(ranges@),
            ranges_fault(rom@, all.take(k as int)) is None,
        decreases ranges@.len() - k,
    {
        let r = &ranges[k];
        proof {
            let upto = all.take(k + 1);
            assert(upto.drop_last() =~= all.take(k as int));
            assert(upto.last() == r@);
        }
        let end: usize = match r.offset.checked_add(r.len) {
            None => {
                proof {
                    lemma_fault_prefix(rom@, all, k + 1);
                }
                return Err(
                    text("range overflow: ").lit(r.file.as_str()).lit(" 0x").hex(r.offset, 0).lit(
                        "+",
                    ).dec(r.len).fail(),
                );
            },
            Some(end) => end,
        };
        if end > rom.len() {
            proof {
                lemma_fault_prefix(rom@, all, k + 1);
            }
            return Err(
                text(r.file.as_str()).lit(" range out of ROM: 0x").hex(r.offset, 0).lit("..0x").hex(
                    end,
                    0,
                ).lit(" (rom len 0x").hex(rom.len(), 0).lit(")").fail(),
            );
        }
        k += 1;
    }
    proof {
        assert(all.take(k as int) =~= all);
    }
    Ok(())
}

proof fn lemma_range_within(rom: Seq<u8>, ranges: Seq<RangeView>, k: int)
    requires
        ranges_fault(rom, ranges) is None,
        0 <= k < ranges.len(),
    ensures
        range_fault(rom, ranges[k]) is None,
    decreases ranges.len(),
{
    if k < ranges.len() - 1 {
        lemma_range_within(rom, ranges.drop_last(), k);
    }
}

/// Counts the bytes of ranges of the ROM. Fails at the first range that does not
/// lie within it.
pub fn byte_frequency(rom: &[u8], ranges: &[ScriptRange]) -> (res: Result<
    HashMap<u8, usize>,
    PatchError,
>)
    requires
        ranges_fault(rom@, range_views(ranges@)) is None ==> forall|b: u8|
            #[trigger] range_occurrences(rom@, range_views(ranges@), b) <= usize::MAX,
    ensures
        match res {
            Ok(freq) => ranges_fault(rom@, range_views(ranges@)) is None && tallies(
                freq@,
                |b: u8| range_occurrences(rom@, range_views(ranges@), b),
            ),
            Err(e) => ranges_fault(rom@, range_views(ranges@)) == Some(e@),
        },
{
    broadcast use vstd::std_specs::hash::group_hash_axioms;

    let ghost all = range_views(ranges@);
    match check_ranges(rom, ranges) {
        Ok(_) => {},
        Err(e) => {
            return Err(e);
        },
    }
    let mut freq: HashMap<u8, usize> = HashMap::new();
    let mut k: usize = 0;
    while k < ranges.len()
        invariant
            k <= ranges@.len(),
            all == range_views(ranges@),
            ranges_fault(rom@, all) is None,
            forall|b: u8| #[trigger] range_occurrences(rom@, all, b) <= usize::MAX,
            tallies(freq@, |b: u8| range_occurrences(rom@, all.take(k as int), b)),
        decreases ranges@.len() - k,
    {
        let r = &ranges[k];
        let ghost done = all.take(k as int);
        let ghost upto = all.take(k + 1);
        proof {
            assert(upto.drop_last() =~= done);
            assert(upto.last() == r@);
            assert(all[k as int] == r@);
            lemma_range_within(rom@, all, k as int);
        }
        let end: usize = r.offset + r.len;
        let ghost window = rom@.subrange(r.offset as int, end as int);
        let mut i: usize = r.offset;
        proof {
            assert forall|b: u8| range_occurrences(rom@, done, b) + #[trigger] occurrences(
                window.take(0),
                b,
            ) == range_occurrences(rom@, done, b) by {}
        }
        while i < end
            invariant
                r.offset <= i <= end,
                end <= rom@.len(),
                end == r.offset + r.len,
                window == rom@.subrange(r.offset as int, end as int),
                upto.drop_last() == done,
                upto.last() == r@,
                upto == all.take(k + 1),
                k < all.len(),
                all == range_views(ranges@),
                forall|b: u8| #[trigger] range_occurrences(rom@, all, b) <= usize::MAX,
                done == all.take(k as int),
                tallies(
                    freq@,
                    |b: u8|
                        range_occurrences(rom@, done, b) + occurrences(
                            window.take(i - r.offset),
                            b,
                        ),
                ),
            decreases end - i,
        {
            let b: u8 = rom[i];
            let ghost seen = window.take(i - r.offset);
            let ghost next = window.take(i + 1 - r.offset);
            let ghost count = |b: u8| range_occurrences(rom@, done, b) + occurrences(seen, b);
            let ghost was = freq@;
            proof {
                assert(next.drop_last() =~= seen);
                assert(next.last() == b);
                assert forall|x: u8| 0 <= #[trigger] count(x) by {
                    lemma_range_occurrences_grow(rom@, done, x, done.len() as int);
                    assert(done.take(done.len() as int) =~= done);
                    lemma_occurrences(seen, x);
                }
                lemma_occurrences_grow(window, b, i + 1 - r.offset);
                lemma_range_occurrences_grow(rom@, all, b, k + 1);
                assert(count(b) + 1 <= range_occurrences(rom@, upto, b));
                assert(freq@.contains_key(b) <==> count(b) > 0);
            }
            let so_far: usize = match freq.get(&b) {
                Some(n) => *n,
                None => 0,
            };
            proof {
                assert(so_far == count(b));
            }
            freq.insert(b, so_far + 1);
            proof {
                assert forall|x: u8|
                    (#[trigger] freq@.contains_key(x) <==> range_occurrences(rom@, done, x)
                        + occurrences(next, x) > 0) && (freq@.contains_key(x) ==> freq@[x]
                        == range_occurrences(rom@, done, x) + occurrences(next, x)) by {
                    assert(was.contains_key(x) <==> count(x) > 0);
                    assert(count(x) >= 0);
                }
            }
            i += 1;
        }
        proof {
            assert(window.take(i - r.offset) =~= window);
            let count = |b: u8|
                range_occurrences(rom@, done, b) + occurrences(window.take(i - r.offset), b);
            assert forall|x: u8|
                (#[trigger] freq@.contains_key(x) <==> range_occurrences(rom@, upto, x) > 0) && (
                freq@.contains_key(x) ==> freq@[x] == range_occurrences(rom@, upto, x)) by {
                assert(range_occurrences(rom@, upto, x) == count(x));
            }
        }
        k += 1;
    }
    proof {
        assert(all.take(k as int) =~= all);
    }
    Ok(freq)
}

// ---------------------------------------------------------------------------
// Unused byte values
// ---------------------------------------------------------------------------

/// The bytes below `n` for which `keep` holds, in ascending order.
pub open spec fn bytes_where(keep: spec_fn(u8) -> bool, n: int) -> Seq<u8>
    decreases n,
{
    if n <= 0 {
        Seq::empty()
    } else if keep((n - 1) as u8) {
        bytes_where(keep, n - 1).push((n - 1) as u8)
    } else {
        bytes_where(keep, n - 1)
    }
}

/// The counts of the bytes below `n`, taken together.
pub open spec fn count_total(freq: Map<u8, usize>, n: int) -> int
    decreases n,
{
    if n <= 0 {
        0
    } else {
        count_total(freq, n - 1) + if freq.contains_key((n - 1) as u8) {
            freq[(n - 1) as u8] as int
        } else {
            0
        }
    }
}

spec fn occurrence_sum(bytes: Seq<u8>, n: int) -> int
    decreases n,
{
    if n <= 0 {
        0
    } else {
        occurrence_sum(bytes, n - 1) + occurrences(bytes, (n - 1) as u8)
    }
}

spec fn range_occurrence_sum(rom: Seq<u8>, ranges: Seq<RangeView>, n: int) -> int
    decreases n,
{
    if n <= 0 {
        0
    } else {
        range_occurrence_sum(rom, ranges, n - 1) + range_occurrences(rom, ranges, (n - 1) as u8)
    }
}

proof fn lemma_one_more(bytes: Seq<u8>, n: int)
    requires
        0 <= n <= 256,
        bytes.len() > 0,
    ensures
        occurrence_sum(bytes, n) == occurrence_sum(bytes.drop_last(), n) + if bytes.last() < n {
            1int
        } else {
            0
        },
    decreases n,
{
    if n > 0 {
        lemma_one_more(bytes, n - 1);
    }
}

proof fn lemma_occurrence_sum(bytes: Seq<u8>, n: int)
    requires
        0 <= n <= 256,
    ensures
        bytes.len() == 0 ==> occurrence_sum(bytes, n) == 0,
        n == 256 ==> occurrence_sum(bytes, n) == bytes.len(),
    decreases bytes.len(), n,
{
    if bytes.len() > 0 {
        lemma_one_more(bytes, n);
        lemma_occurrence_sum(bytes.drop_last(), n);
    } else if n > 0 {
        lemma_occurrence_sum(bytes, n - 1);
    }
}

proof fn lemma_range_sum_step(rom: Seq<u8>, ranges: Seq<RangeView>, n: int)
    requires
        0 <= n <= 256,
        ranges.len() > 0,
    ensures
        range_occurrence_sum(rom, ranges, n) == range_occurrence_sum(rom, ranges.drop_last(), n)
            + occurrence_sum(
            rom.subrange(ranges.last().offset, ranges.last().offset + ranges.last().len),
            n,
        ),
    decreases n,
{
    if n > 0 {
        lemma_range_sum_step(rom, ranges, n - 1);
    }
}

proof fn lemma_range_sum(rom: Seq<u8>, ranges: Seq<RangeView>, n: int)
    requires
        0 <= n <= 256,
        ranges_fault(rom, ranges) is None,
        forall|k: int|
            0 <= k < ranges.len() ==> 0 <= (#[trigger] ranges[k]).offset && 0 <= ranges[k].len,
    ensures
        ranges.len() == 0 ==> range_occurrence_sum(rom, ranges, n) == 0,
        n == 256 ==> range_occurrence_sum(rom, ranges, n) == ranges_len(ranges),
    decreases ranges.len(), n,
{
    if ranges.len() > 0 {
        let r = ranges.last();
        assert(0 <= ranges[ranges.len() - 1].offset);
        lemma_range_sum_step(rom, ranges, n);
        lemma_range_sum(rom, ranges.drop_last(), n);
        lemma_occurrence_sum(rom.subrange(r.offset, r.offset + r.len), n);
    } else if n > 0 {
        lemma_range_sum(rom, ranges, n - 1);
    }
}

proof fn lemma_tallied_total(freq: Map<u8, usize>, rom: Seq<u8>, ranges: Seq<RangeView>, n: int)
    requires
        0 <= n <= 256,
        tallies(freq, |b: u8| range_occurrences(rom, ranges, b)),
    ensures
        count_total(freq, n) == range_occurrence_sum(rom, ranges, n),
    decreases n,
{
    if n > 0 {
        let b = (n - 1) as u8;
        lemma_tallied_total(freq, rom, ranges, n - 1);
        lemma_range_occurrences_grow(rom, ranges, b, ranges.len() as int);
        assert(ranges.take(ranges.len() as int) =~= ranges);
        assert(freq.contains_key(b) <==> range_occurrences(rom, ranges, b) > 0);
    }
}

/// The counts of the bytes of ranges add up to the lengths of the ranges.
pub proof fn law_counts_add_up(freq: Map<u8, usize>, rom: Seq<u8>, ranges: Seq<RangeView>)
    requires
        ranges_fault(rom, ranges) is None,
        forall|k: int|
            0 <= k < ranges.len() ==> 0 <= (#[trigger] ranges[k]).offset && 0 <= ranges[k].len,
        tallies(freq, |b: u8| range_occurrences(rom, ranges, b)),
    ensures
        count_total(freq, 256) == ranges_len(ranges),
{
    lemma_tallied_total(freq, rom, ranges, 256);
    lemma_range_sum(rom, ranges, 256);
}

/// The bytes that the text engine gives a meaning of its own.
pub open spec fn is_engine_control(b: u8) -> bool {
    b == 0x00 || b >= 0xFB
}

/// What the use of bytes in scripts looks like.
#[derive(Debug)]
pub struct PrefixSummary {
    /// How many bytes were counted.
    pub total: usize,
    /// The byte values that occur.
    pub used: Vec<u8>,
    /// The byte values that do not occur.
    pub free: Vec<u8>,
    /// Those of them that the text engine does not interpret.
    pub free_safe: Vec<u8>,
    /// The byte values that occur most often, at most twelve: by count, the
    /// largest first, then by value.
    pub top: Vec<(u8, usize)>,
}

/// The keys by which byte values are ordered: a larger count comes first.
pub open spec fn count_keys(freq: Map<u8, usize>, used: Seq<u8>) -> Seq<u128> {
    Seq::new(used.len(), |i: int| (usize::MAX - freq[used[i]]) as u128)
}

/// Whether `top` lists the most frequent of the bytes `used`.
pub open spec fn is_top(freq: Map<u8, usize>, used: Seq<u8>, top: Seq<(u8, usize)>) -> bool {
    exists|order: Seq<usize>|
        {
            &&& #[trigger] is_stable_order(count_keys(freq, used), order)
            &&& top.len() == if used.len() < 12 {
                used.len() as int
            } else {
                12
            }
            &&& forall|i: int|
                0 <= i < top.len() ==> #[trigger] top[i] == (
                    used[order[i] as int],
                    freq[used[order[i] as int]],
                )
        }
}

proof fn lemma_count_total(freq: Map<u8, usize>, n: int, m: int)
    requires
        0 <= n <= m,
    ensures
        0 <= count_total(freq, n) <= count_total(freq, m),
    decreases m,
{
    if n < m {
        lemma_count_total(freq, n, m - 1);
    } else if n > 0 {
        lemma_count_total(freq, n - 1, n - 1);
    }
}

/// Summarises a table of byte counts.
pub fn summarize_prefix(freq: &HashMap<u8, usize>) -> (s: PrefixSummary)
    requires
        count_total(freq@, 256) <= usize::MAX,
    ensures
        s.total == count_total(freq@, 256),
        s.used@ == bytes_where(|b: u8| freq@.contains_key(b), 256),
        s.free@ == bytes_where(|b: u8| !freq@.contains_key(b), 256),
        s.free_safe@ == bytes_where(
            |b: u8| !freq@.contains_key(b) && !is_engine_control(b),
            256,
        ),
        is_top(freq@, s.used@, s.top@),
{
    broadcast use vstd::std_specs::hash::group_hash_axioms;

    let mut total: usize = 0;
    let mut used: Vec<u8> = Vec::new();
    let mut free: Vec<u8> = Vec::new();
    let mut free_safe: Vec<u8> = Vec::new();
    let mut keys: Vec<u128> = Vec::new();
    let mut counts: Vec<usize> = Vec::new();
    let mut n: u16 = 0;
    while n < 256
        invariant
            n <= 256,
            count_total(freq@, 256) <= usize::MAX,
            total == count_total(freq@, n as int),
            used@ == bytes_where(|b: u8| freq@.contains_key(b), n as int),
            free@ == bytes_where(|b: u8| !freq@.contains_key(b), n as int),
            free_safe@ == bytes_where(
                |b: u8| !freq@.contains_key(b) && !is_engine_control(b),
                n as int,
            ),
            counts@.len() == used@.len(),
            forall|i: int| 0 <= i < used@.len() ==> #[trigger] counts@[i] == freq@[used@[i]],
            keys@ == count_keys(freq@, used@),
        decreases 256 - n,
    {
        let b: u8 = n as u8;
        proof {
            lemma_count_total(freq@, n + 1, 256);
            lemma_count_total(freq@, n as int, n as int);
        }
        match freq.get(&b) {
            Some(count) => {
                total += *count;
                used.push(b);
                counts.push(*count);
                keys.push((usize::MAX - *count) as u128);
                proof {
                    assert(keys@ =~= count_keys(freq@, used@));
                }
            },
            None => {
                free.push(b);
                if b != 0x00 && b < 0xFB {
                    free_safe.push(b);
                }
            },
        }
        n += 1;
    }
    let order = stable_order(keys.as_slice());
    let limit: usize = if order.len() < 12 {
        order.len()
    } else {
        12
    };
    let mut top: Vec<(u8, usize)> = Vec::new();
    let mut i: usize = 0;
    while i < limit
        invariant
            i <= limit,
            limit <= order@.len(),
            top@.len() == i,
            is_stable_order(keys@, order@),
            keys@.len() == used@.len(),
            counts@.len() == used@.len(),
            forall|k: int| 0 <= k < used@.len() ==> #[trigger] counts@[k] == freq@[used@[k]],
            forall|k: int|
                0 <= k < i ==> #[trigger] top@[k] == (
                    used@[order@[k] as int],
                    freq@[used@[order@[k] as int]],
                ),
        decreases limit - i,
    {
        let at: usize = order[i];
        top.push((used[at], counts[at]));
        i += 1;
    }
    PrefixSummary { total, used, free, free_safe, top }
}

/// One run of byte values: a single value, or the first and the last.
pub open spec fn byte_range_text(r: (int, int)) -> Seq<char> {
    if r.1 - r.0 == 1 {
        hex(r.0, 2)
    } else {
        hex(r.0, 2) + "-"@ + hex(r.1 - 1, 2)
    }
}

/// Runs of byte values with a comma and a space between neighbours.
pub open spec fn byte_ranges_text(list: Seq<(int, int)>) -> Seq<char>
    decreases list.len(),
{
    if list.len() == 0 {
        Seq::empty()
    } else if list.len() == 1 {
        byte_range_text(list[0])
    } else {
        byte_ranges_text(list.drop_last()) + ", "@ + byte_range_text(list.last())
    }
}

/// Whether a set of bytes, given as a list, has a value.
pub open spec fn has_byte(bytes: Seq<u8>, v: int) -> bool {
    exists|k: int| 0 <= k < bytes.len() && #[trigger] bytes[k] == v
}

/// The values among `bytes` as runs, `(none)` where there are none.
pub open spec fn byte_set_text(bytes: Seq<u8>) -> Seq<char> {
    if bytes.len() == 0 {
        "(none)"@
    } else {
        byte_ranges_text(runs(|v: int| has_byte(bytes, v), 256))
    }
}

fn push_byte_range(t: Text, first: usize, end: usize) -> (r: Text)
    requires
        first < end <= 256,
    ensures
        r@ == t@ + byte_range_text((first as int, end as int)),
{
    let ghost begin = t@;
    let r = if end - first == 1 {
        t.hex(first, 2)
    } else {
        t.hex(first, 2).lit("-").hex(end - 1, 2)
    };
    proof {
        assert(r@ =~= begin + byte_range_text((first as int, end as int)));
    }
    r
}

/// Byte values as runs such as `01-0A, 20`. Order and repetition do not matter.
pub fn format_byte_ranges(bytes: &[u8]) -> (s: String)
    ensures
        s@ == byte_set_text(bytes@),
{
    if bytes.len() == 0 {
        return text("(none)").finish();
    }
    let ghost flag = |v: int| has_byte(bytes@, v);
    let mut marks: Vec<u8> = vec![0u8; 256];
    let mut k: usize = 0;
    while k < bytes.len()
        invariant
            k <= bytes@.len(),
            marks@.len() == 256,
            forall|v: int|
                0 <= v < 256 ==> #[trigger] marks@[v] == if has_byte(bytes@.take(k as int), v) {
                    1u8
                } else {
                    0
                },
        decreases bytes@.len() - k,
    {
        let ghost was = bytes@.take(k as int);
        let ghost now = bytes@.take(k + 1);
        let ghost old_marks = marks@;
        marks.set(bytes[k] as usize, 1);
        proof {
            assert forall|v: int| 0 <= v < 256 implies #[trigger] marks@[v] == if has_byte(now, v) {
                1u8
            } else {
                0
            } by {
                assert(old_marks[v] == if has_byte(was, v) {
                    1u8
                } else {
                    0
                });
                if has_byte(was, v) {
                    let j = choose|j: int| 0 <= j < was.len() && #[trigger] was[j] == v;
                    assert(now[j] == v);
                }
                if has_byte(now, v) && bytes@[k as int] != v {
                    let j = choose|j: int| 0 <= j < now.len() && #[trigger] now[j] == v;
                    assert(was[j] == v);
                }
                assert(now[k as int] == bytes@[k as int]);
            }
        }
        k += 1;
    }
    proof {
        assert(bytes@.take(k as int) =~= bytes@);
    }
    let list = value_runs(marks.as_slice(), 1);
    let ghost all = run_views(list@);
    proof {
        let mark_flag = has_value(marks@, 1);
        lemma_same_runs(mark_flag, flag, 256);
        lemma_runs_shape(flag, 256);
    }
    let mut t = text("");
    let mut j: usize = 0;
    proof {
        reveal_strlit("");
        assert(t@ =~= byte_ranges_text(all.take(0)));
    }
    while j < list.len()
        invariant
            j <= list@.len(),
            all == run_views(list@),
            forall|i: int|
                0 <= i < all.len() ==> 0 <= (#[trigger] all[i]).0 && all[i].0 < all[i].1
                    && all[i].1 <= 256,
            t@ == byte_ranges_text(all.take(j as int)),
        decreases list@.len() - j,
    {
        let ghost upto = all.take(j + 1);
        proof {
            assert(upto.drop_last() =~= all.take(j as int));
            assert(upto.last() == all[j as int]);
        }
        if j > 0 {
            t = t.lit(", ");
        }
        t = push_byte_range(t, list[j].0, list[j].1);
        proof {
            assert(t@ =~= byte_ranges_text(upto));
        }
        j += 1;
    }
    proof {
        assert(all.take(j as int) =~= all);
    }
    t.finish()
}

proof fn lemma_same_runs(f: spec_fn(int) -> bool, g: spec_fn(int) -> bool, n: int)
    requires
        forall|i: int| 0 <= i < n ==> #[trigger] f(i) == g(i),
    ensures
        runs(f, n) == runs(g, n),
    decreases n,
{
    if n > 0 {
        lemma_same_runs(f, g, n - 1);
        assert(f(n - 1) == g(n - 1));
        if n >= 2 {
            assert(f(n - 2) == g(n - 2));
        }
    }
}

// ---------------------------------------------------------------------------
// Free space
// ---------------------------------------------------------------------------

/// The runs of a value that are at least `min` bytes long.
pub open spec fn byte_runs(data: Seq<u8>, value: u8, min: int) -> Seq<(int, int)> {
    long_runs(runs(has_value(data, value), data.len() as int), min)
}

/// Whether a list of runs is the given one.
pub open spec fn lists_runs(found: Seq<ByteRun>, value: u8, list: Seq<(int, int)>) -> bool {
    &&& found.len() == list.len()
    &&& forall|k: int|
        0 <= k < found.len() ==> (#[trigger] found[k]).value == value && found[k].offset
            == list[k].0 && found[k].len == list[k].1 - list[k].0
}

/// The runs of a value that are at least `min_run` bytes long, in order.
pub fn find_runs(data: &[u8], value: u8, min_run: usize) -> (found: Vec<ByteRun>)
    ensures
        lists_runs(found@, value, byte_runs(data@, value, min_run as int)),
{
    let list = value_runs(data, value);
    let ghost flag = has_value(data@, value);
    let ghost all = run_views(list@);
    proof {
        lemma_runs_shape(flag, data@.len() as int);
    }
    let mut found: Vec<ByteRun> = Vec::new();
    let mut k: usize = 0;
    while k < list.len()
        invariant
            k <= list@.len(),
            all == run_views(list@),
            forall|i: int| 0 <= i < all.len() ==> 0 <= (#[trigger] all[i]).0 && all[i].0 < all[i].1,
            lists_runs(found@, value, long_runs(all.take(k as int), min_run as int)),
        decreases list@.len() - k,
    {
        proof {
            assert(all.take(k + 1).drop_last() =~= all.take(k as int));
            assert(all.take(k + 1).last() == all[k as int]);
        }
        let len: usize = list[k].1 - list[k].0;
        if len >= min_run {
            found.push(ByteRun { value, offset: list[k].0, len });
        }
        k += 1;
    }
    proof {
        assert(all.take(k as int) =~= all);
    }
    found
}

/// The free space that one filler byte makes.
#[derive(Debug)]
pub struct FreeSection {
    /// How many runs there are.
    pub count: usize,
    /// How long they are together.
    pub total: usize,
    /// The longest of them, at most twenty, the longest first; runs of equal
    /// length in order of their offsets.
    pub longest: Vec<ByteRun>,
}

/// The keys by which runs are ordered: a longer run comes first.
pub open spec fn length_keys(list: Seq<(int, int)>) -> Seq<u128> {
    Seq::new(list.len(), |i: int| (usize::MAX - (list[i].1 - list[i].0)) as u128)
}

/// Whether `longest` lists the longest of the given runs.
pub open spec fn is_longest(list: Seq<(int, int)>, value: u8, longest: Seq<ByteRun>) -> bool {
    exists|order: Seq<usize>|
        {
            &&& #[trigger] is_stable_order(length_keys(list), order)
            &&& longest.len() == if list.len() < 20 {
                list.len() as int
            } else {
                20
            }
            &&& forall|i: int|
                0 <= i < longest.len() ==> {
                    let r = list[order[i] as int];
                    #[trigger] longest[i] == (ByteRun {
                        value,
                        offset: r.0 as usize,
                        len: (r.1 - r.0) as usize,
                    })
                }
        }
}

/// Surveys the runs of one filler byte.
pub fn free_section(rom: &[u8], value: u8, min_run: usize) -> (s: FreeSection)
    ensures
        s.count == byte_runs(rom@, value, min_run as int).len(),
        s.total == total_len(byte_runs(rom@, value, min_run as int)),
        is_longest(byte_runs(rom@, value, min_run as int), value, s.longest@),
        s.total <= flagged(has_value(rom@, value), rom@.len() as int),
{
    let found = find_runs(rom, value, min_run);
    let ghost flag = has_value(rom@, value);
    let ghost n = rom@.len() as int;
    let ghost list = byte_runs(rom@, value, min_run as int);
    let size: usize = rom.len();
    proof {
        lemma_runs_shape(flag, n);
        lemma_total_len(flag, n);
        lemma_total_is_flagged(flag, n);
        lemma_long_runs(runs(flag, n), min_run as int, n);
    }
    let mut total: usize = 0;
    let mut keys: Vec<u128> = Vec::new();
    let mut k: usize = 0;
    while k < found.len()
        invariant
            k <= found@.len(),
            size == n,
            lists_runs(found@, value, list),
            forall|i: int|
                0 <= i < list.len() ==> 0 <= (#[trigger] list[i]).0 && list[i].0 <= list[i].1
                    && list[i].1 <= n,
            total_len(list) <= n,
            total == total_len(list.take(k as int)),
            keys@ == length_keys(list.take(k as int)),
        decreases found@.len() - k,
    {
        proof {
            assert(list.take(k + 1).drop_last() =~= list.take(k as int));
            assert(list.take(k + 1).last() == list[k as int]);
            lemma_total_prefix(list, k + 1, n);
        }
        total += found[k].len;
        keys.push((usize::MAX - found[k].len) as u128);
        proof {
            assert(keys@ =~= length_keys(list.take(k + 1)));
        }
        k += 1;
    }
    proof {
        assert(list.take(k as int) =~= list);
    }
    let order = stable_order(keys.as_slice());
    let limit: usize = if order.len() < 20 {
        order.len()
    } else {
        20
    };
    let mut longest: Vec<ByteRun> = Vec::new();
    let mut i: usize = 0;
    while i < limit
        invariant
            i <= limit,
            limit <= order@.len(),
            longest@.len() == i,
            is_stable_order(keys@, order@),
            keys@.len() == list.len(),
            lists_runs(found@, value, list),
            forall|k: int|
                0 <= k < i ==> {
                    let r = list[order@[k] as int];
                    #[trigger] longest@[k] == (ByteRun {
                        value,
                        offset: r.0 as usize,
                        len: (r.1 - r.0) as usize,
                    })
                },
        decreases limit - i,
    {
        longest.push(found[order[i]]);
        i += 1;
    }
    FreeSection { count: found.len(), total, longest }
}

proof fn lemma_total_prefix(list: Seq<(int, int)>, k: int, n: int)
    requires
        0 <= k <= list.len(),
        forall|i: int| 0 <= i < list.len() ==> (#[trigger] list[i]).0 <= list[i].1,
    ensures
        0 <= total_len(list.take(k)) <= total_len(list),
    decreases list.len(),
{
    if k == list.len() {
        assert(list.take(k) =~= list);
        if list.len() > 0 {
            lemma_total_prefix(list.drop_last(), list.len() - 1, n);
            assert(list.drop_last().take(list.len() - 1) =~= list.drop_last());
        }
    } else {
        assert(list.drop_last().take(k) =~= list.take(k));
        lemma_total_prefix(list.drop_last(), k, n);
    }
}

/// The free space of a ROM.
#[derive(Debug)]
pub struct FreeSurvey {
    /// Runs of `0xFF`.
    pub ones: FreeSection,
    /// Runs of `0x00`.
    pub zeros: FreeSection,
    /// How long all of them are together.
    pub total: usize,
}

/// Surveys the free space of a ROM: runs of `0xFF` and of `0x00`.
pub fn survey_free_space(rom: &[u8], min_run: usize) -> (s: FreeSurvey)
    ensures
        s.ones.count == byte_runs(rom@, 0xFF, min_run as int).len(),
        s.ones.total == total_len(byte_runs(rom@, 0xFF, min_run as int)),
        is_longest(byte_runs(rom@, 0xFF, min_run as int), 0xFF, s.ones.longest@),
        s.zeros.count == byte_runs(rom@, 0x00, min_run as int).len(),
        s.zeros.total == total_len(byte_runs(rom@, 0x00, min_run as int)),
        is_longest(byte_runs(rom@, 0x00, min_run as int), 0x00, s.zeros.longest@),
        s.total == s.ones.total + s.zeros.total,
{
    let size: usize = rom.len();
    let ones = free_section(rom, 0xFF, min_run);
    let zeros = free_section(rom, 0x00, min_run);
    proof {
        lemma_disjoint_flags(rom@, rom@.len() as int);
    }
    let total: usize = ones.total + zeros.total;
    FreeSurvey { ones, zeros, total }
}

proof fn lemma_disjoint_flags(rom: Seq<u8>, n: int)
    requires
        0 <= n <= rom.len(),
    ensures
        flagged(has_value(rom, 0xFF), n) + flagged(has_value(rom, 0x00), n) <= n,
    decreases n,
{
    if n > 0 {
        lemma_disjoint_flags(rom, n - 1);
    }
}

} // verus!
