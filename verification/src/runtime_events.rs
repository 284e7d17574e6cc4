//! Events that an emulator reports, and which probes they hit.
use vstd::prelude::*;
use crate::error::{plain, Fault, PatchError};
use crate::parse::{
    byte_len, has_prefix, join, joined, parse_uint, same_str, split, split_spec, starts_with,
    string_views, trim, trim_spec, uint_value, utf8_width, views, words, words_spec,
};
use crate::raw_text::is_text;
use crate::runtime_probe::{
    address_value, breakpoint_kind, emucap_breakpoint_kind, parse_address, probe_fault,
    ProbeRequirement, ProbeView,
};
use crate::script_callers::opt_text;
use crate::text::{chars_of, dec, hex, string_of, text};
use vstd::slice::slice_subrange;

verus! {

/// Memory that was recorded with an event.
#[derive(Debug, Clone)]
pub struct EmucapEventSnapshot {
    /// Where it starts.
    pub address: u32,
    /// Its bytes as hexadecimal digits.
    pub hex: String,
    /// Which memory it is.
    pub memory_type: String,
}

/// The model of recorded memory.
pub struct SnapshotView {
    pub address: u32,
    pub hex: Seq<char>,
    pub memory_type: Seq<char>,
}

impl View for EmucapEventSnapshot {
    type V = SnapshotView;

    open spec fn view(&self) -> SnapshotView {
        SnapshotView {
            address: self.address,
            hex: self.hex@,
            memory_type: self.memory_type@,
        }
    }
}

/// The models of recorded memory.
pub open spec fn snapshot_views(list: Seq<EmucapEventSnapshot>) -> Seq<SnapshotView> {
    Seq::new(list.len(), |i: int| list[i]@)
}

/// Something that an emulator saw.
#[derive(Debug)]
pub struct EmucapEvent {
    /// The address that was touched.
    pub address: Option<u32>,
    /// The breakpoint that was hit.
    pub breakpoint_id: Option<u64>,
    /// When it was.
    pub frame: Option<u64>,
    /// What was done.
    pub kind: Option<String>,
    /// The value that was read or written.
    pub value: Option<u32>,
    /// The address of the instruction.
    pub pc: Option<u32>,
    /// The memory that was recorded.
    pub snapshot: Vec<EmucapEventSnapshot>,
}

/// The model of an event.
pub struct EventView {
    pub address: Option<u32>,
    pub breakpoint_id: Option<u64>,
    pub frame: Option<u64>,
    pub kind: Option<Seq<char>>,
    pub value: Option<u32>,
    pub pc: Option<u32>,
    pub snapshot: Seq<SnapshotView>,
}

impl View for EmucapEvent {
    type V = EventView;

    open spec fn view(&self) -> EventView {
        EventView {
            address: self.address,
            breakpoint_id: self.breakpoint_id,
            frame: self.frame,
            kind: opt_text(self.kind),
            value: self.value,
            pc: self.pc,
            snapshot: snapshot_views(self.snapshot@),
        }
    }
}

// ---------------------------------------------------------------------------
// Matching
// ---------------------------------------------------------------------------

/// Whether a number lies between two others.
pub open spec fn between(low: int, n: int, high: int) -> bool {
    low <= n <= high
}

/// Whether an event is at a place that a probe watches.
pub open spec fn place_match(p: ProbeView, e: EventView) -> Result<bool, Fault> {
    match (e.address, p.address) {
        (Some(at), Some(first)) => match address_value(first) {
            Err(f) => Err(f),
            Ok(start) => match p.end {
                None => Ok(at == start),
                Some(last) => match address_value(last) {
                    Err(f) => Err(f),
                    Ok(end) => Ok(between(start, at as int, end)),
                },
            },
        },
        _ => Ok(false),
    }
}

/// A number that may be absent.
pub open spec fn number_or(raw: Option<Seq<char>>, otherwise: int) -> Result<int, Fault> {
    match raw {
        Some(s) => address_value(s),
        None => Ok(otherwise),
    }
}

/// Whether an event comes from an instruction that a probe watches.
pub open spec fn pc_match(p: ProbeView, e: EventView) -> Result<bool, Fault> {
    if p.pc_min is None && p.pc_max is None {
        Ok(true)
    } else {
        match e.pc {
            None => Ok(false),
            Some(pc) => match (number_or(p.pc_min, 0), number_or(p.pc_max, 0xFFFF_FFFF)) {
                (Err(f), _) => Err(f),
                (Ok(_), Err(f)) => Err(f),
                (Ok(min), Ok(max)) => Ok(between(min, pc as int, max)),
            },
        }
    }
}

/// Whether an event has a value that a probe watches for.
pub open spec fn value_match(p: ProbeView, e: EventView) -> Result<bool, Fault> {
    match p.value {
        None => Ok(true),
        Some(raw) => match (address_value(raw), e.value) {
            (Err(f), _) => Err(f),
            (Ok(_), None) => Ok(false),
            (Ok(expected), Some(actual)) => match number_or(p.value_mask, 0xFFFF_FFFF) {
                Err(f) => Err(f),
                Ok(mask) => Ok(actual & (mask as u32) == (expected as u32) & (mask as u32)),
            },
        },
    }
}

/// Whether an event is what a probe watches for.
pub open spec fn event_match(p: ProbeView, e: EventView) -> Result<bool, Fault> {
    if breakpoint_kind(p.kind) is None || e.kind != breakpoint_kind(p.kind) {
        Ok(false)
    } else {
        match place_match(p, e) {
            Ok(true) => match pc_match(p, e) {
                Ok(true) => value_match(p, e),
                other => other,
            },
            other => other,
        }
    }
}

/// A result that holds a truth value, in terms of models.
pub open spec fn bool_outcome(res: Result<bool, PatchError>) -> Result<bool, Fault> {
    match res {
        Ok(b) => Ok(b),
        Err(e) => Err(e@),
    }
}

fn place_matches(probe: &ProbeRequirement, event: &EmucapEvent) -> (res: Result<bool, PatchError>)
    ensures
        bool_outcome(res) == place_match(probe@, event@),
{
    let at: u32 = match event.address {
        Some(at) => at,
        None => {
            return Ok(false);
        },
    };
    let start: u32 = match &probe.address {
        None => {
            return Ok(false);
        },
        Some(first) => match parse_address(first.as_str()) {
            Ok(start) => start,
            Err(e) => {
                return Err(e);
            },
        },
    };
    match &probe.end {
        None => Ok(at == start),
        Some(last) => match parse_address(last.as_str()) {
            Ok(end) => Ok(start <= at && at <= end),
            Err(e) => Err(e),
        },
    }
}

fn number_from(raw: &Option<String>, otherwise: u32) -> (res: Result<u32, PatchError>)
    ensures
        crate::error::u32_outcome(res) == number_or(opt_text(*raw), otherwise as int),
{
    match raw {
        Some(s) => parse_address(s.as_str()),
        None => Ok(otherwise),
    }
}

fn pc_matches(probe: &ProbeRequirement, event: &EmucapEvent) -> (res: Result<bool, PatchError>)
    ensures
        bool_outcome(res) == pc_match(probe@, event@),
{
    if probe.pc_min.is_none() && probe.pc_max.is_none() {
        return Ok(true);
    }
    let pc: u32 = match event.pc {
        Some(pc) => pc,
        None => {
            return Ok(false);
        },
    };
    let min: u32 = match number_from(&probe.pc_min, 0) {
        Ok(v) => v,
        Err(e) => {
            return Err(e);
        },
    };
    let max: u32 = match number_from(&probe.pc_max, 0xFFFF_FFFF) {
        Ok(v) => v,
        Err(e) => {
            return Err(e);
        },
    };
    Ok(min <= pc && pc <= max)
}

fn value_matches(probe: &ProbeRequirement, event: &EmucapEvent) -> (res: Result<bool, PatchError>)
    ensures
        bool_outcome(res) == value_match(probe@, event@),
{
    let expected: u32 = match &probe.value {
        None => {
            return Ok(true);
        },
        Some(raw) => match parse_address(raw.as_str()) {
            Ok(v) => v,
            Err(e) => {
                return Err(e);
            },
        },
    };
    let actual: u32 = match event.value {
        Some(v) => v,
        None => {
            return Ok(false);
        },
    };
    let mask: u32 = match number_from(&probe.value_mask, 0xFFFF_FFFF) {
        Ok(v) => v,
        Err(e) => {
            return Err(e);
        },
    };
    Ok(actual & mask == expected & mask)
}

/// Whether an event is what a probe watches for.
pub fn probe_matches_event(probe: &ProbeRequirement, event: &EmucapEvent) -> (res: Result<
    bool,
    PatchError,
>)
    ensures
        bool_outcome(res) == event_match(probe@, event@),
{
    let kind = match emucap_breakpoint_kind(probe) {
        Some(kind) => kind,
        None => {
            return Ok(false);
        },
    };
    if !is_text(&event.kind, kind) {
        return Ok(false);
    }
    match place_matches(probe, event) {
        Ok(true) => {},
        Ok(false) => {
            return Ok(false);
        },
        Err(e) => {
            return Err(e);
        },
    }
    match pc_matches(probe, event) {
        Ok(true) => {},
        Ok(false) => {
            return Ok(false);
        },
        Err(e) => {
            return Err(e);
        },
    }
    value_matches(probe, event)
}

/// A probe that was checked can be held against any event.
pub proof fn law_checked_probe_can_be_matched(scene: Seq<char>, p: ProbeView, e: EventView)
    requires
        probe_fault(scene, p) is None,
    ensures
        event_match(p, e) is Ok,
{
}

// ---------------------------------------------------------------------------
// Recorded memory
// ---------------------------------------------------------------------------

/// The bytes that pairs of hexadecimal digits denote.
pub open spec fn pair_bytes(s: Seq<char>) -> Option<Seq<u8>>
    decreases s.len(),
{
    if s.len() == 0 {
        Some(Seq::empty())
    } else if s.len() >= 2 && uint_value(s.take(2), 16, 0xFF) is Some {
        match pair_bytes(s.skip(2)) {
            Some(rest) => Some(seq![uint_value(s.take(2), 16, 0xFF)->0 as u8] + rest),
            None => None,
        }
    } else {
        None
    }
}

/// The bytes that hexadecimal digits without separators denote.
pub open spec fn compact_bytes(raw: Seq<char>) -> Result<Seq<u8>, Fault> {
    if byte_len(trim_spec(raw)) % 2 != 0 {
        Err(plain("snapshot hex length must be even: "@ + raw))
    } else {
        match pair_bytes(trim_spec(raw)) {
            Some(bytes) => Ok(bytes),
            None => Err(
                plain("invalid digit found in string"@).under("snapshot hex 파싱 실패: "@ + raw),
            ),
        }
    }
}

fn has_even_bytes(s: &[char]) -> (r: bool)
    ensures
        r == (byte_len(s@) % 2 == 0),
{
    let mut even: bool = true;
    let mut i: usize = 0;
    proof {
        assert(s@.skip(0) =~= s@);
    }
    while i < s.len()
        invariant
            i <= s@.len(),
            (byte_len(s@) % 2 == 0) == ((byte_len(s@.skip(i as int)) % 2 == 0) == even),
        decreases s@.len() - i,
    {
        proof {
            assert(s@.skip(i as int).drop_first() =~= s@.skip(i + 1));
            assert(s@.skip(i as int)[0] == s@[i as int]);
        }
        if utf8_width(s[i]) % 2 == 1 {
            even = !even;
        }
        i += 1;
    }
    even
}

fn bad_digits(raw: &str) -> (e: PatchError)
    ensures
        e@ == plain("invalid digit found in string"@).under("snapshot hex 파싱 실패: "@ + raw@),
{
    text("snapshot hex 파싱 실패: ").lit(raw).fail_after(
        text("invalid digit found in string").fail(),
    )
}

/// Reads hexadecimal digits without separators.
pub fn parse_compact_hex_bytes(raw: &str) -> (res: Result<Vec<u8>, PatchError>)
    ensures
        crate::error::outcome(res) == compact_bytes(raw@),
{
    let chars = chars_of(raw);
    let all = trim(chars.as_slice());
    if !has_even_bytes(all) {
        return Err(text("snapshot hex length must be even: ").lit(raw).fail());
    }
    let mut bytes: Vec<u8> = Vec::new();
    let mut i: usize = 0;
    proof {
        assert(all@.skip(0) =~= all@);
    }
    while i < all.len()
        invariant
            i <= all@.len(),
            all@ == trim_spec(raw@),
            byte_len(all@) % 2 == 0,
            pair_bytes(all@) == match pair_bytes(all@.skip(i as int)) {
                Some(rest) => Some(bytes@ + rest),
                None => None,
            },
        decreases all@.len() - i,
    {
        let ghost here = all@.skip(i as int);
        if all.len() - i < 2 {
            return Err(bad_digits(raw));
        }
        let pair = slice_subrange(all, i, i + 2);
        proof {
            assert(pair@ =~= here.take(2));
            assert(here.skip(2) =~= all@.skip(i + 2));
        }
        match parse_uint(pair, 16, 0xFF) {
            None => {
                return Err(bad_digits(raw));
            },
            Some(v) => {
                let ghost was = bytes@;
                bytes.push(v as u8);
                proof {
                    if pair_bytes(all@.skip(i + 2)) is Some {
                        let rest = pair_bytes(all@.skip(i + 2))->0;
                        assert(bytes@ + rest =~= was + (seq![v as u8] + rest));
                    }
                }
            },
        }
        i += 2;
    }
    proof {
        assert(all@.skip(i as int) =~= Seq::empty());
        assert(bytes@ + Seq::<u8>::empty() =~= bytes@);
    }
    Ok(bytes)
}

/// The byte of an address in recorded memory, from the `i`-th record on; none where no
/// record holds it.
pub open spec fn recorded_byte(list: Seq<SnapshotView>, address: int, i: int) -> Result<
    Option<u8>,
    Fault,
>
    decreases list.len() - i,
{
    if i < 0 || i >= list.len() {
        Ok(None)
    } else if list[i].memory_type != "smsMemory"@ {
        recorded_byte(list, address, i + 1)
    } else {
        match compact_bytes(list[i].hex) {
            Err(e) => Err(e),
            Ok(bytes) => if list[i].address <= address < list[i].address + bytes.len() {
                Ok(Some(bytes[address - list[i].address]))
            } else {
                recorded_byte(list, address, i + 1)
            },
        }
    }
}

/// The bank that a slot held when an event came, as far as it was recorded. Only the
/// registers of slots 1 and 2 are looked for.
pub open spec fn slot_bank(e: EventView, slot: int) -> Result<Option<u8>, Fault> {
    if slot == 1 {
        recorded_byte(e.snapshot, 0xFFFE, 0)
    } else if slot == 2 {
        recorded_byte(e.snapshot, 0xFFFF, 0)
    } else {
        Ok(None)
    }
}

/// A result that holds a byte that may be absent, in terms of models.
pub open spec fn byte_outcome(res: Result<Option<u8>, PatchError>) -> Result<
    Option<u8>,
    Fault,
> {
    match res {
        Ok(b) => Ok(b),
        Err(e) => Err(e@),
    }
}

/// The bank that a slot held when an event came, as far as it was recorded.
pub fn mapper_slot_snapshot_byte(event: &EmucapEvent, slot: u8) -> (res: Result<
    Option<u8>,
    PatchError,
>)
    ensures
        byte_outcome(res) == slot_bank(event@, slot as int),
{
    let address: u32 = if slot == 1 {
        0xFFFE
    } else if slot == 2 {
        0xFFFF
    } else {
        return Ok(None);
    };
    let ghost all = event@.snapshot;
    let mut i: usize = 0;
    while i < event.snapshot.len()
        invariant
            i <= event.snapshot@.len(),
            all == event@.snapshot,
            slot_bank(event@, slot as int) == recorded_byte(all, address as int, 0),
            recorded_byte(all, address as int, 0) == recorded_byte(all, address as int, i as int),
        decreases event.snapshot@.len() - i,
    {
        let s = &event.snapshot[i];
        proof {
            assert(all[i as int] == s@);
        }
        if same_str(s.memory_type.as_str(), "smsMemory") {
            let bytes = match parse_compact_hex_bytes(s.hex.as_str()) {
                Ok(bytes) => bytes,
                Err(e) => {
                    return Err(e);
                },
            };
            if s.address <= address && ((address - s.address) as usize) < bytes.len() {
                return Ok(Some(bytes[(address - s.address) as usize]));
            }
        }
        i += 1;
    }
    Ok(None)
}

// ---------------------------------------------------------------------------
// Conditions
// ---------------------------------------------------------------------------

/// A text without trailing commas.
pub open spec fn without_commas(s: Seq<char>) -> Seq<char>
    decreases s.len(),
{
    if s.len() > 0 && s.last() == ',' {
        without_commas(s.drop_last())
    } else {
        s
    }
}

/// The first word of a text, empty where there is none.
pub open spec fn first_word(s: Seq<char>) -> Seq<char> {
    if words_spec(s).len() > 0 {
        words_spec(s)[0]
    } else {
        Seq::empty()
    }
}

/// The byte that a condition asks for: its first word, without trailing commas.
pub open spec fn condition_value(raw: Seq<char>) -> Result<u8, Fault> {
    match address_value(without_commas(first_word(raw))) {
        Err(e) => Err(e),
        Ok(v) => if v <= 0xFF {
            Ok(v as u8)
        } else {
            Err(plain("valid_when 값이 1바이트를 초과함: "@ + raw))
        },
    }
}

fn strip_commas(s: &[char]) -> (r: &[char])
    ensures
        r@ == without_commas(s@),
{
    let mut n: usize = s.len();
    proof {
        assert(s@.take(n as int) =~= s@);
    }
    while n > 0 && s[n - 1] == ','
        invariant
            n <= s@.len(),
            without_commas(s@) == without_commas(s@.take(n as int)),
        decreases n,
    {
        proof {
            assert(s@.take(n as int).drop_last() =~= s@.take(n - 1));
        }
        n -= 1;
    }
    let r = slice_subrange(s, 0, n);
    proof {
        assert(r@ =~= s@.take(n as int));
    }
    r
}

/// Reads the byte that a condition asks for.
pub fn parse_condition_value(raw: &str) -> (res: Result<u8, PatchError>)
    ensures
        match res {
            Ok(v) => condition_value(raw@) == Ok::<u8, Fault>(v),
            Err(e) => condition_value(raw@) == Err::<u8, Fault>(e@),
        },
{
    let chars = chars_of(raw);
    let list = words(chars.as_slice());
    let mut word: Vec<char> = Vec::new();
    proof {
        assert(word@ =~= Seq::empty());
        assert(views(list@).len() == list@.len());
    }
    if list.len() > 0 {
        proof {
            assert(views(list@)[0] == list@[0]@);
        }
        word = crate::parse::copy_chars(list[0].as_slice());
    }
    let token = string_of(strip_commas(word.as_slice()));
    match parse_address(token.as_str()) {
        Err(e) => Err(e),
        Ok(v) => if v <= 0xFF {
            Ok(v as u8)
        } else {
            Err(text("valid_when 값이 1바이트를 초과함: ").lit(raw).fail())
        },
    }
}

/// The condition on a bank that a clause states, if it states one: the slot, and what
/// stands behind the equals sign.
pub open spec fn bank_clause(clause: Seq<char>) -> Option<(u8, Seq<char>)> {
    if has_prefix(clause, "slot1="@) {
        Some((1, clause.skip(6)))
    } else if has_prefix(clause, "slot2="@) {
        Some((2, clause.skip(6)))
    } else {
        None
    }
}

/// The conditions on banks among the first `n` clauses.
pub open spec fn bank_conditions(clauses: Seq<Seq<char>>, n: int) -> Result<
    Seq<(u8, u8)>,
    Fault,
>
    decreases n,
{
    if n <= 0 {
        Ok(Seq::empty())
    } else {
        match bank_conditions(clauses, n - 1) {
            Err(e) => Err(e),
            Ok(list) => match bank_clause(trim_spec(clauses[n - 1])) {
                None => Ok(list),
                Some(c) => match condition_value(c.1) {
                    Err(e) => Err(e),
                    Ok(v) => Ok(list.push((c.0, v))),
                },
            },
        }
    }
}

proof fn lemma_conditions_fail(clauses: Seq<Seq<char>>, k: int, n: int)
    requires
        k <= n,
        bank_conditions(clauses, k) is Err,
    ensures
        bank_conditions(clauses, n) == bank_conditions(clauses, k),
    decreases n - k,
{
    if k < n {
        lemma_conditions_fail(clauses, k, n - 1);
    }
}

fn read_conditions(clauses: &[Vec<char>]) -> (res: Result<Vec<(u8, u8)>, PatchError>)
    ensures
        match res {
            Ok(list) => bank_conditions(views(clauses@), clauses@.len() as int) == Ok::<
                Seq<(u8, u8)>,
                Fault,
            >(list@),
            Err(e) => bank_conditions(views(clauses@), clauses@.len() as int) == Err::<
                Seq<(u8, u8)>,
                Fault,
            >(e@),
        },
{
    let ghost all = views(clauses@);
    let slot1 = chars_of("slot1=");
    let slot2 = chars_of("slot2=");
    proof {
        reveal_strlit("slot1=");
        reveal_strlit("slot2=");
        assert(slot1@.len() == 6);
        assert(slot2@.len() == 6);
    }
    let mut list: Vec<(u8, u8)> = Vec::new();
    let mut i: usize = 0;
    proof {
        assert(list@ =~= Seq::empty());
    }
    while i < clauses.len()
        invariant
            i <= clauses@.len(),
            all == views(clauses@),
            slot1@ == "slot1="@,
            slot2@ == "slot2="@,
            slot1@.len() == 6,
            slot2@.len() == 6,
            bank_conditions(all, i as int) == Ok::<Seq<(u8, u8)>, Fault>(list@),
        decreases clauses@.len() - i,
    {
        let clause = trim(clauses[i].as_slice());
        proof {
            assert(all[i as int] == clauses@[i as int]@);
        }
        let slot: u8 = if starts_with(clause, slot1.as_slice()) {
            1
        } else if starts_with(clause, slot2.as_slice()) {
            2
        } else {
            0
        };
        if slot > 0 {
            let rest = slice_subrange(clause, 6, clause.len());
            proof {
                assert(rest@ =~= clause@.skip(6));
            }
            let raw = string_of(rest);
            match parse_condition_value(raw.as_str()) {
                Ok(v) => {
                    list.push((slot, v));
                },
                Err(e) => {
                    proof {
                        lemma_conditions_fail(all, i + 1, clauses@.len() as int);
                    }
                    return Err(e);
                },
            }
        }
        i += 1;
    }
    Ok(list)
}

/// What is said of one condition.
pub open spec fn condition_detail(slot: u8, expected: u8, actual: Option<u8>) -> Seq<char> {
    match actual {
        None => "slot"@ + dec(slot as int) + "=missing expected 0x"@ + hex(expected as int, 2),
        Some(v) => if v == expected {
            "slot"@ + dec(slot as int) + "=0x"@ + hex(v as int, 2) + " matched"@
        } else {
            "slot"@ + dec(slot as int) + "=0x"@ + hex(v as int, 2) + " expected 0x"@ + hex(
                expected as int,
                2,
            )
        },
    }
}

/// Whether the first `n` conditions hold, and what is said of each.
pub open spec fn verdict(e: EventView, conditions: Seq<(u8, u8)>, n: int) -> Result<
    (bool, Seq<Seq<char>>),
    Fault,
>
    decreases n,
{
    if n <= 0 {
        Ok((true, Seq::empty()))
    } else {
        match verdict(e, conditions, n - 1) {
            Err(f) => Err(f),
            Ok(v) => {
                let c = conditions[n - 1];
                match slot_bank(e, c.0 as int) {
                    Err(f) => Err(f),
                    Ok(actual) => Ok(
                        (v.0 && actual == Some(c.1), v.1.push(condition_detail(c.0, c.1, actual))),
                    ),
                }
            },
        }
    }
}

proof fn lemma_verdict_fail(e: EventView, conditions: Seq<(u8, u8)>, k: int, n: int)
    requires
        k <= n,
        verdict(e, conditions, k) is Err,
    ensures
        verdict(e, conditions, n) == verdict(e, conditions, k),
    decreases n - k,
{
    if k < n {
        lemma_verdict_fail(e, conditions, k, n - 1);
    }
}

fn judge(event: &EmucapEvent, conditions: &[(u8, u8)]) -> (res: Result<
    (bool, Vec<String>),
    PatchError,
>)
    ensures
        match res {
            Ok(v) => verdict(event@, conditions@, conditions@.len() as int) == Ok::<
                (bool, Seq<Seq<char>>),
                Fault,
            >((v.0, string_views(v.1@))),
            Err(e) => verdict(event@, conditions@, conditions@.len() as int) == Err::<
                (bool, Seq<Seq<char>>),
                Fault,
            >(e@),
        },
{
    let mut all_matched: bool = true;
    let mut details: Vec<String> = Vec::new();
    let mut i: usize = 0;
    proof {
        assert(string_views(details@) =~= Seq::empty());
    }
    while i < conditions.len()
        invariant
            i <= conditions@.len(),
            verdict(event@, conditions@, i as int) == Ok::<(bool, Seq<Seq<char>>), Fault>(
                (all_matched, string_views(details@)),
            ),
        decreases conditions@.len() - i,
    {
        let slot: u8 = conditions[i].0;
        let expected: u8 = conditions[i].1;
        let actual: Option<u8> = match mapper_slot_snapshot_byte(event, slot) {
            Ok(actual) => actual,
            Err(e) => {
                proof {
                    lemma_verdict_fail(event@, conditions@, i + 1, conditions@.len() as int);
                }
                return Err(e);
            },
        };
        let detail = match actual {
            None => {
                all_matched = false;
                text("slot").dec(slot as usize).lit("=missing expected 0x").hex(
                    expected as usize,
                    2,
                )
            },
            Some(v) => if v == expected {
                text("slot").dec(slot as usize).lit("=0x").hex(v as usize, 2).lit(" matched")
            } else {
                all_matched = false;
                text("slot").dec(slot as usize).lit("=0x").hex(v as usize, 2).lit(
                    " expected 0x",
                ).hex(expected as usize, 2)
            },
        };
        let ghost was = string_views(details@);
        let line = detail.finish();
        details.push(line);
        proof {
            assert(string_views(details@) =~= was.push(line@));
        }
        i += 1;
    }
    Ok((all_matched, details))
}

/// Whether a hit counts.
#[derive(Debug)]
pub struct ProbeHitValidity {
    /// Whether its condition holds; unknown where no condition on banks is stated.
    pub matched: Option<bool>,
    /// What is said of the condition.
    pub detail: Option<String>,
}

/// Whether a hit counts, and what is said of it.
pub open spec fn hit_validity(p: ProbeView, e: EventView) -> Result<
    (Option<bool>, Option<Seq<char>>),
    Fault,
> {
    match p.valid_when {
        None => Ok((None, None)),
        Some(raw) => {
            let trimmed = trim_spec(raw);
            let clauses = split_spec(trimmed, ';');
            if trimmed.len() == 0 {
                Ok((None, None))
            } else {
                match bank_conditions(clauses, clauses.len() as int) {
                    Err(f) => Err(f),
                    Ok(conditions) => if conditions.len() == 0 {
                        Ok(
                            (
                                None,
                                Some(
                                    "valid_when has no machine-parsed bank condition: "@
                                        + trimmed,
                                ),
                            ),
                        )
                    } else {
                        match verdict(e, conditions, conditions.len() as int) {
                            Err(f) => Err(f),
                            Ok(v) => Ok((Some(v.0), Some(joined(v.1, "; "@)))),
                        }
                    },
                }
            }
        },
    }
}

/// A result that holds the validity of a hit, in terms of models.
pub open spec fn validity_outcome(res: Result<ProbeHitValidity, PatchError>) -> Result<
    (Option<bool>, Option<Seq<char>>),
    Fault,
> {
    match res {
        Ok(v) => Ok((v.matched, opt_text(v.detail))),
        Err(e) => Err(e@),
    }
}

/// Whether a hit counts, and what is said of it.
pub fn evaluate_probe_hit_validity(probe: &ProbeRequirement, event: &EmucapEvent) -> (res: Result<
    ProbeHitValidity,
    PatchError,
>)
    ensures
        validity_outcome(res) == hit_validity(probe@, event@),
{
    let raw = match &probe.valid_when {
        None => {
            return Ok(ProbeHitValidity { matched: None, detail: None });
        },
        Some(raw) => chars_of(raw.as_str()),
    };
    let trimmed = trim(raw.as_slice());
    if trimmed.len() == 0 {
        return Ok(ProbeHitValidity { matched: None, detail: None });
    }
    let clauses = split(trimmed, ';');
    proof {
        assert(views(clauses@).len() == clauses@.len());
    }
    let conditions = match read_conditions(clauses.as_slice()) {
        Ok(list) => list,
        Err(e) => {
            return Err(e);
        },
    };
    if conditions.len() == 0 {
        let detail = text("valid_when has no machine-parsed bank condition: ").chars(
            trimmed,
        ).finish();
        return Ok(ProbeHitValidity { matched: None, detail: Some(detail) });
    }
    match judge(event, conditions.as_slice()) {
        Err(e) => Err(e),
        Ok(v) => {
            let detail = join(v.1.as_slice(), "; ");
            Ok(ProbeHitValidity { matched: Some(v.0), detail: Some(detail) })
        },
    }
}

} // verus!
