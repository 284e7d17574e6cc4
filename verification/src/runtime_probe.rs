//! Probes of a running game: what to watch for, and how to ask an emulator to.
use vstd::prelude::*;
use crate::error::{first_fault, plain, u32_outcome, Fault, PatchError};
use crate::parse::{
    byte_len, fits_bytes, read_uint, same_str, split, split_spec, strip_repeated, trim, trim_spec,
    uint_read, views,
};
use crate::script::fault_outcome;
use crate::script_callers::opt_text;
use crate::text::{chars_of, dec, string_of, text, Text};
use crate::translation::{crc_digits, is_blank};
use vstd::slice::slice_subrange;

verus! {

// ---------------------------------------------------------------------------
// Numbers
// ---------------------------------------------------------------------------

/// The checksum that a text denotes.
pub open spec fn crc_value(raw: Seq<char>) -> Result<int, Fault> {
    if byte_len(crc_digits(raw)) != 8 {
        Err(plain("CRC32는 8자리 hex여야 함: "@ + raw))
    } else {
        match uint_read(crc_digits(raw), 16, 0xFFFF_FFFF) {
            Ok(v) => Ok(v),
            Err(e) => Err(e.under("CRC32 파싱 실패: "@ + raw)),
        }
    }
}

/// Reads a checksum of eight hexadecimal digits.
pub fn parse_crc32(raw: &str) -> (res: Result<u32, PatchError>)
    ensures
        u32_outcome(res) == crc_value(raw@),
{
    let chars = chars_of(raw);
    let dollar = chars_of("$");
    let zero_x = chars_of("0x");
    let digits = strip_repeated(
        strip_repeated(trim(chars.as_slice()), dollar.as_slice()),
        zero_x.as_slice(),
    );
    if !(fits_bytes(digits, 8) && !fits_bytes(digits, 7)) {
        return Err(text("CRC32는 8자리 hex여야 함: ").lit(raw).fail());
    }
    match read_uint(digits, 16, 0xFFFF_FFFF) {
        Ok(v) => Ok(v as u32),
        Err(e) => Err(text("CRC32 파싱 실패: ").lit(raw).fail_after(e)),
    }
}

/// The digits of a hexadecimal number with its mark: `0x`, `0X` or `$`.
pub open spec fn marked_hex(s: Seq<char>) -> Option<Seq<char>> {
    if s.len() >= 2 && s[0] == '0' && (s[1] == 'x' || s[1] == 'X') {
        Some(s.skip(2))
    } else if s.len() >= 1 && s[0] == '$' {
        Some(s.skip(1))
    } else {
        None
    }
}

/// The number that a text denotes: hexadecimal with a mark, else decimal.
pub open spec fn address_value(raw: Seq<char>) -> Result<int, Fault> {
    let trimmed = trim_spec(raw);
    if trimmed.len() == 0 {
        Err(plain("빈 숫자"@))
    } else {
        match marked_hex(trimmed) {
            Some(digits) => match uint_read(digits, 16, 0xFFFF_FFFF) {
                Ok(v) => Ok(v),
                Err(e) => Err(e.under("hex 파싱 실패: "@ + raw)),
            },
            None => match uint_read(trimmed, 10, 0xFFFF_FFFF) {
                Ok(v) => Ok(v),
                Err(e) => Err(e.under("decimal 파싱 실패: "@ + raw)),
            },
        }
    }
}

/// Reads a number: hexadecimal with a mark, else decimal.
pub fn parse_address(raw: &str) -> (res: Result<u32, PatchError>)
    ensures
        u32_outcome(res) == address_value(raw@),
{
    let chars = chars_of(raw);
    let trimmed = trim(chars.as_slice());
    if trimmed.len() == 0 {
        return Err(text("빈 숫자").fail());
    }
    let skip: usize = if trimmed.len() >= 2 && trimmed[0] == '0' && (trimmed[1] == 'x' || trimmed[1]
        == 'X') {
        2
    } else if trimmed[0] == '$' {
        1
    } else {
        0
    };
    if skip > 0 {
        let digits = slice_subrange(trimmed, skip, trimmed.len());
        proof {
            assert(digits@ =~= trimmed@.skip(skip as int));
        }
        match read_uint(digits, 16, 0xFFFF_FFFF) {
            Ok(v) => Ok(v as u32),
            Err(e) => Err(text("hex 파싱 실패: ").lit(raw).fail_after(e)),
        }
    } else {
        match read_uint(trimmed, 10, 0xFFFF_FFFF) {
            Ok(v) => Ok(v as u32),
            Err(e) => Err(text("decimal 파싱 실패: ").lit(raw).fail_after(e)),
        }
    }
}

// ---------------------------------------------------------------------------
// Probes
// ---------------------------------------------------------------------------

/// Something to watch for.
#[derive(Debug)]
pub struct ProbeRequirement {
    /// Its name.
    pub id: String,
    /// What kind of thing it is.
    pub kind: String,
    /// The memory to watch.
    pub memory_type: Option<String>,
    /// The first address to watch.
    pub address: Option<String>,
    /// The last address to watch; the first one where it is absent.
    pub end: Option<String>,
    /// The value to watch for.
    pub value: Option<String>,
    /// How many bytes the value has.
    pub value_len: Option<u8>,
    /// Which bits of the value count.
    pub value_mask: Option<String>,
    /// The lowest address of the instruction.
    pub pc_min: Option<String>,
    /// The highest address of the instruction.
    pub pc_max: Option<String>,
    /// When to start watching.
    pub install_phase: Option<String>,
    /// The memory to record with each hit: its type, address and length.
    pub bank_snapshot: Option<String>,
    /// When a hit counts.
    pub valid_when: Option<String>,
    /// Remarks.
    pub notes: String,
}

/// The model of a probe.
pub struct ProbeView {
    pub id: Seq<char>,
    pub kind: Seq<char>,
    pub memory_type: Option<Seq<char>>,
    pub address: Option<Seq<char>>,
    pub end: Option<Seq<char>>,
    pub value: Option<Seq<char>>,
    pub value_len: Option<u8>,
    pub value_mask: Option<Seq<char>>,
    pub pc_min: Option<Seq<char>>,
    pub pc_max: Option<Seq<char>>,
    pub install_phase: Option<Seq<char>>,
    pub bank_snapshot: Option<Seq<char>>,
    pub valid_when: Option<Seq<char>>,
    pub notes: Seq<char>,
}

impl View for ProbeRequirement {
    type V = ProbeView;

    open spec fn view(&self) -> ProbeView {
        ProbeView {
            id: self.id@,
            kind: self.kind@,
            memory_type: opt_text(self.memory_type),
            address: opt_text(self.address),
            end: opt_text(self.end),
            value: opt_text(self.value),
            value_len: self.value_len,
            value_mask: opt_text(self.value_mask),
            pc_min: opt_text(self.pc_min),
            pc_max: opt_text(self.pc_max),
            install_phase: opt_text(self.install_phase),
            bank_snapshot: opt_text(self.bank_snapshot),
            valid_when: opt_text(self.valid_when),
            notes: self.notes@,
        }
    }
}

/// The start of a message about a probe.
pub open spec fn probe_message(scene: Seq<char>, id: Seq<char>, tail: Seq<char>) -> Seq<char> {
    scene + ": probe "@ + id + tail
}

fn probe_text(scene: &str, id: &str, tail: &str) -> (t: Text)
    ensures
        t@ == probe_message(scene@, id@, tail@),
{
    text(scene).lit(": probe ").lit(id).lit(tail)
}

/// The breakpoint that a kind of probe needs, if it needs one.
pub open spec fn breakpoint_kind(kind: Seq<char>) -> Option<Seq<char>> {
    if kind == "logical_exec_bp"@ {
        Some("exec"@)
    } else if kind == "logical_read_bp"@ {
        Some("read"@)
    } else if kind == "vram_write_bp"@ {
        Some("write"@)
    } else {
        None
    }
}

/// The breakpoint that a probe needs, if it needs one.
pub fn emucap_breakpoint_kind(probe: &ProbeRequirement) -> (kind: Option<&'static str>)
    ensures
        crate::jp_text::opt_view(kind) == breakpoint_kind(probe@.kind),
{
    let kind = probe.kind.as_str();
    if same_str(kind, "logical_exec_bp") {
        Some("exec")
    } else if same_str(kind, "logical_read_bp") {
        Some("read")
    } else if same_str(kind, "vram_write_bp") {
        Some("write")
    } else {
        None
    }
}

/// Whether there is such a time to start watching.
pub open spec fn is_install_phase(phase: Seq<char>) -> bool {
    ||| phase == "fresh_start"@
    ||| phase == "after_scene_reached"@
    ||| phase == "manual_deferred"@
}

/// Whether there is such a time to start watching.
pub fn supported_install_phase(install_phase: &str) -> (r: bool)
    ensures
        r == is_install_phase(install_phase@),
{
    same_str(install_phase, "fresh_start") || same_str(install_phase, "after_scene_reached")
        || same_str(install_phase, "manual_deferred")
}

/// Whether there is such a memory.
pub open spec fn is_memory_type(t: Seq<char>) -> bool {
    ||| t == "smsMemory"@
    ||| t == "smsVideoRam"@
    ||| t == "smsPrgRom"@
}

fn known_memory_type(t: &str) -> (r: bool)
    ensures
        r == is_memory_type(t@),
{
    same_str(t, "smsMemory") || same_str(t, "smsVideoRam") || same_str(t, "smsPrgRom")
}

/// What is wrong with the place that a probe with a breakpoint watches, if anything.
pub open spec fn place_fault(scene: Seq<char>, p: ProbeView) -> Option<Fault> {
    match (p.memory_type, p.address) {
        (None, _) => Some(plain(probe_message(scene, p.id, " requires memory_type"@))),
        (Some(t), address) => if !is_memory_type(t) {
            Some(plain(probe_message(scene, p.id, " unsupported memory_type "@) + t))
        } else {
            match address {
                None => Some(plain(probe_message(scene, p.id, " requires address"@))),
                Some(raw) => match address_value(raw) {
                    Err(cause) => Some(
                        cause.under(probe_message(scene, p.id, " address 파싱 실패: "@) + raw),
                    ),
                    Ok(start) => match p.end {
                        None => None,
                        Some(last) => match address_value(last) {
                            Err(cause) => Some(
                                cause.under(probe_message(scene, p.id, " end 파싱 실패: "@) + last),
                            ),
                            Ok(end) => if end < start {
                                Some(
                                    plain(probe_message(scene, p.id, " end must be >= address"@)),
                                )
                            } else {
                                None
                            },
                        },
                    },
                },
            }
        },
    }
}

fn check_place(scene: &str, probe: &ProbeRequirement) -> (res: Result<(), PatchError>)
    ensures
        fault_outcome(res) == place_fault(scene@, probe@),
{
    let id = probe.id.as_str();
    match &probe.memory_type {
        None => {
            return Err(probe_text(scene, id, " requires memory_type").fail());
        },
        Some(t) => {
            if !known_memory_type(t.as_str()) {
                return Err(
                    probe_text(scene, id, " unsupported memory_type ").lit(t.as_str()).fail(),
                );
            }
        },
    }
    let raw = match &probe.address {
        None => {
            return Err(probe_text(scene, id, " requires address").fail());
        },
        Some(raw) => raw.as_str(),
    };
    let start: u32 = match parse_address(raw) {
        Ok(start) => start,
        Err(cause) => {
            return Err(probe_text(scene, id, " address 파싱 실패: ").lit(raw).fail_after(cause));
        },
    };
    match &probe.end {
        None => Ok(()),
        Some(last) => match parse_address(last.as_str()) {
            Err(cause) => Err(probe_text(scene, id, " end 파싱 실패: ").lit(last.as_str()).fail_after(cause)),
            Ok(end) => if end < start {
                Err(probe_text(scene, id, " end must be >= address").fail())
            } else {
                Ok(())
            },
        },
    }
}

/// The largest number of so many bytes.
pub open spec fn max_of_len(len: int) -> int {
    if len <= 0 {
        0
    } else if len == 1 {
        0xFF
    } else if len == 2 {
        0xFFFF
    } else if len == 3 {
        0xFF_FFFF
    } else {
        0xFFFF_FFFF
    }
}

/// What is said of a value that has too many bytes.
pub open spec fn fit_fault(scene: Seq<char>, id: Seq<char>, label: Seq<char>, value: int, len: int) -> Option<Fault> {
    if value <= max_of_len(len) {
        None
    } else {
        Some(
            plain(probe_message(scene, id, " "@) + label + " must fit "@ + dec(len) + " byte(s)"@),
        )
    }
}

/// Checks that a value has no more bytes than it should.
pub fn ensure_value_fits_len(
    scene_id: &str,
    probe: &ProbeRequirement,
    label: &str,
    value: u32,
    value_len: u8,
) -> (res: Result<(), PatchError>)
    requires
        value_len <= 4,
    ensures
        fault_outcome(res) == fit_fault(
            scene_id@,
            probe@.id,
            label@,
            value as int,
            value_len as int,
        ),
{
    let max: u32 = if value_len == 4 {
        0xFFFF_FFFF
    } else if value_len == 3 {
        0xFF_FFFF
    } else if value_len == 2 {
        0xFFFF
    } else if value_len == 1 {
        0xFF
    } else {
        0
    };
    if value <= max {
        Ok(())
    } else {
        Err(
            probe_text(scene_id, probe.id.as_str(), " ").lit(label).lit(" must fit ").dec(
                value_len as usize,
            ).lit(" byte(s)").fail(),
        )
    }
}

/// What is wrong with the mask of a probe, if anything.
pub open spec fn mask_fault(scene: Seq<char>, p: ProbeView, len: int) -> Option<Fault> {
    match p.value_mask {
        None => None,
        Some(raw) => match address_value(raw) {
            Err(cause) => Some(cause.under(
                probe_message(scene, p.id, " value_mask 파싱 실패: "@) + raw,
            )),
            Ok(mask) => fit_fault(scene, p.id, "value_mask"@, mask, len),
        },
    }
}

/// What is wrong with the value that a probe watches for, if anything.
pub open spec fn value_fault(scene: Seq<char>, p: ProbeView) -> Option<Fault> {
    if p.value is None && p.value_len is None && p.value_mask is None {
        None
    } else if p.kind == "logical_exec_bp"@ {
        Some(
            plain(probe_message(scene, p.id, " logical_exec_bp does not support value filters"@)),
        )
    } else {
        match p.value {
            None => Some(plain(probe_message(scene, p.id, " value filter fields require value"@))),
            Some(raw) => {
                let len = match p.value_len {
                    Some(n) => n as int,
                    None => 1,
                };
                if !(1 <= len <= 4) {
                    Some(plain(probe_message(scene, p.id, " value_len must be 1..=4"@)))
                } else {
                    match address_value(raw) {
                        Err(cause) => Some(
                            cause.under(probe_message(scene, p.id, " value 파싱 실패: "@) + raw),
                        ),
                        Ok(value) => first_fault(
                            fit_fault(scene, p.id, "value"@, value, len),
                            mask_fault(scene, p, len),
                        ),
                    }
                }
            },
        }
    }
}

fn check_value(scene: &str, probe: &ProbeRequirement) -> (res: Result<(), PatchError>)
    ensures
        fault_outcome(res) == value_fault(scene@, probe@),
{
    let id = probe.id.as_str();
    if probe.value.is_none() && probe.value_len.is_none() && probe.value_mask.is_none() {
        return Ok(());
    }
    if same_str(probe.kind.as_str(), "logical_exec_bp") {
        return Err(
            probe_text(scene, id, " logical_exec_bp does not support value filters").fail(),
        );
    }
    let raw = match &probe.value {
        None => {
            return Err(probe_text(scene, id, " value filter fields require value").fail());
        },
        Some(raw) => raw.as_str(),
    };
    let len: u8 = match probe.value_len {
        Some(n) => n,
        None => 1,
    };
    if !(1 <= len && len <= 4) {
        return Err(probe_text(scene, id, " value_len must be 1..=4").fail());
    }
    let value: u32 = match parse_address(raw) {
        Ok(value) => value,
        Err(cause) => {
            return Err(probe_text(scene, id, " value 파싱 실패: ").lit(raw).fail_after(cause));
        },
    };
    match ensure_value_fits_len(scene, probe, "value", value, len) {
        Ok(_) => {},
        Err(e) => {
            return Err(e);
        },
    }
    match &probe.value_mask {
        None => Ok(()),
        Some(raw) => match parse_address(raw.as_str()) {
            Err(cause) => Err(
                probe_text(scene, id, " value_mask 파싱 실패: ").lit(raw.as_str()).fail_after(cause),
            ),
            Ok(mask) => ensure_value_fits_len(scene, probe, "value_mask", mask, len),
        },
    }
}

/// What is wrong with the instructions that a probe watches, if anything.
pub open spec fn pc_fault(scene: Seq<char>, p: ProbeView) -> Option<Fault> {
    if p.pc_min is None && p.pc_max is None {
        None
    } else if breakpoint_kind(p.kind) is None {
        Some(plain(probe_message(scene, p.id, " pc filters require a breakpoint kind"@)))
    } else {
        match (p.pc_min, p.pc_max) {
            (None, _) => Some(
                plain(probe_message(scene, p.id, " pc filter fields require pc_min"@)),
            ),
            (Some(_), None) => Some(
                plain(probe_message(scene, p.id, " pc filter fields require pc_max"@)),
            ),
            (Some(low), Some(high)) => match (address_value(low), address_value(high)) {
                (Err(cause), _) => Some(
                    cause.under(probe_message(scene, p.id, " pc_min 파싱 실패: "@) + low),
                ),
                (Ok(_), Err(cause)) => Some(
                    cause.under(probe_message(scene, p.id, " pc_max 파싱 실패: "@) + high),
                ),
                (Ok(min), Ok(max)) => if max < min {
                    Some(plain(probe_message(scene, p.id, " pc_max must be >= pc_min"@)))
                } else {
                    None
                },
            },
        }
    }
}

fn check_pc(scene: &str, probe: &ProbeRequirement) -> (res: Result<(), PatchError>)
    ensures
        fault_outcome(res) == pc_fault(scene@, probe@),
{
    let id = probe.id.as_str();
    if probe.pc_min.is_none() && probe.pc_max.is_none() {
        return Ok(());
    }
    if emucap_breakpoint_kind(probe).is_none() {
        return Err(probe_text(scene, id, " pc filters require a breakpoint kind").fail());
    }
    let low = match &probe.pc_min {
        None => {
            return Err(probe_text(scene, id, " pc filter fields require pc_min").fail());
        },
        Some(raw) => raw.as_str(),
    };
    let high = match &probe.pc_max {
        None => {
            return Err(probe_text(scene, id, " pc filter fields require pc_max").fail());
        },
        Some(raw) => raw.as_str(),
    };
    let min: u32 = match parse_address(low) {
        Ok(v) => v,
        Err(cause) => {
            return Err(probe_text(scene, id, " pc_min 파싱 실패: ").lit(low).fail_after(cause));
        },
    };
    let max: u32 = match parse_address(high) {
        Ok(v) => v,
        Err(cause) => {
            return Err(probe_text(scene, id, " pc_max 파싱 실패: ").lit(high).fail_after(cause));
        },
    };
    if max < min {
        Err(probe_text(scene, id, " pc_max must be >= pc_min").fail())
    } else {
        Ok(())
    }
}

/// What is wrong with the memory that a probe records, if anything.
pub open spec fn snapshot_fault(scene: Seq<char>, id: Seq<char>, snapshot: Seq<char>) -> Option<Fault> {
    let parts = split_spec(snapshot, ':');
    if !(parts.len() == 3 && parts[0].len() > 0 && parts[1].len() > 0 && parts[2].len() > 0) {
        Some(
            plain(probe_message(scene, id, " bank_snapshot must be memory_type:address:length"@)),
        )
    } else if parts[0] != "smsMemory"@ {
        Some(plain(probe_message(scene, id, " bank_snapshot memory_type must be smsMemory"@)))
    } else {
        match (address_value(parts[1]), address_value(parts[2])) {
            (Err(cause), _) => Some(
                cause.under(probe_message(scene, id, " bank_snapshot address 파싱 실패: "@) + parts[1]),
            ),
            (Ok(_), Err(cause)) => Some(
                cause.under(probe_message(scene, id, " bank_snapshot length 파싱 실패: "@) + parts[2]),
            ),
            (Ok(_), Ok(len)) => if len > 0 {
                None
            } else {
                Some(plain(probe_message(scene, id, " bank_snapshot length must be > 0"@)))
            },
        }
    }
}

/// Checks the memory that a probe records.
pub fn validate_bank_snapshot(scene_id: &str, probe: &ProbeRequirement, snapshot: &str) -> (res: Result<
    (),
    PatchError,
>)
    ensures
        fault_outcome(res) == snapshot_fault(scene_id@, probe@.id, snapshot@),
{
    let id = probe.id.as_str();
    let chars = chars_of(snapshot);
    let parts = split(chars.as_slice(), ':');
    proof {
        let all = views(parts@);
        assert(all.len() == parts@.len());
        assert(forall|k: int| 0 <= k < parts@.len() ==> #[trigger] all[k] == parts@[k]@);
    }
    if !(parts.len() == 3 && parts[0].len() > 0 && parts[1].len() > 0 && parts[2].len() > 0) {
        return Err(
            probe_text(scene_id, id, " bank_snapshot must be memory_type:address:length").fail(),
        );
    }
    let memory_type = string_of(parts[0].as_slice());
    let address = string_of(parts[1].as_slice());
    let length = string_of(parts[2].as_slice());
    if !same_str(memory_type.as_str(), "smsMemory") {
        return Err(
            probe_text(scene_id, id, " bank_snapshot memory_type must be smsMemory").fail(),
        );
    }
    match parse_address(address.as_str()) {
        Ok(_) => {},
        Err(cause) => {
            return Err(
                probe_text(scene_id, id, " bank_snapshot address 파싱 실패: ").lit(
                    address.as_str(),
                ).fail_after(cause),
            );
        },
    }
    match parse_address(length.as_str()) {
        Err(cause) => Err(
            probe_text(scene_id, id, " bank_snapshot length 파싱 실패: ").lit(
                length.as_str(),
            ).fail_after(cause),
        ),
        Ok(len) => if len > 0 {
            Ok(())
        } else {
            Err(probe_text(scene_id, id, " bank_snapshot length must be > 0").fail())
        },
    }
}

/// What is wrong with when a probe is watched and when its hits count, if anything.
pub open spec fn condition_fault(scene: Seq<char>, p: ProbeView) -> Option<Fault> {
    let phase = match p.install_phase {
        Some(phase) if !is_install_phase(phase) => Some(
            plain(probe_message(scene, p.id, " unsupported install_phase "@) + phase),
        ),
        _ => None,
    };
    let snapshot = match p.bank_snapshot {
        None => None,
        Some(s) => first_fault(
            snapshot_fault(scene, p.id, s),
            match p.valid_when {
                Some(w) if trim_spec(w).len() > 0 => None,
                _ => Some(plain(probe_message(scene, p.id, " bank_snapshot requires valid_when"@))),
            },
        ),
    };
    first_fault(phase, snapshot)
}

fn check_condition(scene: &str, probe: &ProbeRequirement) -> (res: Result<(), PatchError>)
    ensures
        fault_outcome(res) == condition_fault(scene@, probe@),
{
    let id = probe.id.as_str();
    match &probe.install_phase {
        None => {},
        Some(phase) => {
            if !supported_install_phase(phase.as_str()) {
                return Err(
                    probe_text(scene, id, " unsupported install_phase ").lit(
                        phase.as_str(),
                    ).fail(),
                );
            }
        },
    }
    match &probe.bank_snapshot {
        None => Ok(()),
        Some(s) => {
            match validate_bank_snapshot(scene, probe, s.as_str()) {
                Ok(_) => {},
                Err(e) => {
                    return Err(e);
                },
            }
            let stated = match &probe.valid_when {
                None => false,
                Some(w) => !is_blank(w.as_str()),
            };
            if stated {
                Ok(())
            } else {
                Err(probe_text(scene, id, " bank_snapshot requires valid_when").fail())
            }
        },
    }
}

/// What is wrong with a probe of a scene, if anything.
pub open spec fn probe_fault(scene: Seq<char>, p: ProbeView) -> Option<Fault> {
    if trim_spec(p.id).len() == 0 {
        Some(plain(scene + ": probe requirement id가 비어 있음"@))
    } else if breakpoint_kind(p.kind) is None && p.kind != "route_replay"@ {
        Some(plain(scene + ": unsupported probe requirement kind "@ + p.kind))
    } else if trim_spec(p.notes).len() == 0 {
        Some(plain(scene + ": probe requirement "@ + p.id + " notes가 비어 있음"@))
    } else {
        first_fault(
            if breakpoint_kind(p.kind) is Some {
                place_fault(scene, p)
            } else {
                None
            },
            first_fault(
                value_fault(scene, p),
                first_fault(pc_fault(scene, p), condition_fault(scene, p)),
            ),
        )
    }
}

/// Checks a probe of a scene.
pub fn validate_probe_requirement(scene_id: &str, probe: &ProbeRequirement) -> (res: Result<
    (),
    PatchError,
>)
    ensures
        fault_outcome(res) == probe_fault(scene_id@, probe@),
{
    let id = probe.id.as_str();
    if is_blank(id) {
        return Err(text(scene_id).lit(": probe requirement id가 비어 있음").fail());
    }
    let breaks: bool = emucap_breakpoint_kind(probe).is_some();
    if !breaks && !same_str(probe.kind.as_str(), "route_replay") {
        return Err(
            text(scene_id).lit(": unsupported probe requirement kind ").lit(
                probe.kind.as_str(),
            ).fail(),
        );
    }
    if is_blank(probe.notes.as_str()) {
        return Err(
            text(scene_id).lit(": probe requirement ").lit(id).lit(" notes가 비어 있음").fail(),
        );
    }
    if breaks {
        match check_place(scene_id, probe) {
            Ok(_) => {},
            Err(e) => {
                return Err(e);
            },
        }
    }
    match check_value(scene_id, probe) {
        Ok(_) => {},
        Err(e) => {
            return Err(e);
        },
    }
    match check_pc(scene_id, probe) {
        Ok(_) => {},
        Err(e) => {
            return Err(e);
        },
    }
    check_condition(scene_id, probe)
}

// ---------------------------------------------------------------------------
// Requests
// ---------------------------------------------------------------------------

/// Whether a probe belongs to a phase; every probe does where none is asked for, and one
/// that names no phase belongs to the fresh start.
pub open spec fn in_phase(p: ProbeView, phase: Option<Seq<char>>) -> bool {
    match phase {
        None => true,
        Some(want) => match p.install_phase {
            Some(own) => own == want,
            None => want == "fresh_start"@,
        },
    }
}

/// Whether a probe belongs to a phase.
pub fn probe_matches_install_phase(probe: &ProbeRequirement, install_phase: Option<&str>) -> (r: bool)
    ensures
        r == in_phase(probe@, crate::jp_text::opt_view(install_phase)),
{
    match install_phase {
        None => true,
        Some(want) => match &probe.install_phase {
            Some(own) => same_str(own.as_str(), want),
            None => same_str(want, "fresh_start"),
        },
    }
}

/// A request for a breakpoint.
#[derive(Debug)]
pub struct EmucapBreakpointRequest<'a> {
    /// The tool to call.
    pub tool: &'static str,
    /// Its arguments.
    pub args: EmucapBreakpointArgs<'a>,
}

/// The arguments of a request for a breakpoint.
#[derive(Debug)]
pub struct EmucapBreakpointArgs<'a> {
    pub kind: &'static str,
    pub memory_type: &'a str,
    pub start: &'a str,
    pub end: &'a str,
    pub pause_on_hit: bool,
    pub value: Option<&'a str>,
    pub value_len: Option<u8>,
    pub value_mask: Option<&'a str>,
    pub pc_min: Option<&'a str>,
    pub pc_max: Option<&'a str>,
    pub snapshot: Option<Vec<&'a str>>,
}

/// The model of a request for a breakpoint.
pub struct RequestView {
    pub tool: Seq<char>,
    pub kind: Seq<char>,
    pub memory_type: Seq<char>,
    pub start: Seq<char>,
    pub end: Seq<char>,
    pub pause_on_hit: bool,
    pub value: Option<Seq<char>>,
    pub value_len: Option<u8>,
    pub value_mask: Option<Seq<char>>,
    pub pc_min: Option<Seq<char>>,
    pub pc_max: Option<Seq<char>>,
    pub snapshot: Option<Seq<Seq<char>>>,
}

/// The characters of texts.
pub open spec fn str_views(list: Seq<&str>) -> Seq<Seq<char>> {
    Seq::new(list.len(), |i: int| list[i]@)
}

impl<'a> View for EmucapBreakpointRequest<'a> {
    type V = RequestView;

    open spec fn view(&self) -> RequestView {
        RequestView {
            tool: self.tool@,
            kind: self.args.kind@,
            memory_type: self.args.memory_type@,
            start: self.args.start@,
            end: self.args.end@,
            pause_on_hit: self.args.pause_on_hit,
            value: crate::jp_text::opt_view(self.args.value),
            value_len: self.args.value_len,
            value_mask: crate::jp_text::opt_view(self.args.value_mask),
            pc_min: crate::jp_text::opt_view(self.args.pc_min),
            pc_max: crate::jp_text::opt_view(self.args.pc_max),
            snapshot: match self.args.snapshot {
                Some(list) => Some(str_views(list@)),
                None => None,
            },
        }
    }
}

/// The breakpoint that has an emulator watch for a probe: none for a probe that needs
/// none or that does not say where.
pub open spec fn request_of(p: ProbeView) -> Option<RequestView> {
    match (breakpoint_kind(p.kind), p.memory_type, p.address) {
        (Some(kind), Some(memory_type), Some(start)) => Some(
            RequestView {
                tool: "set_breakpoint"@,
                kind,
                memory_type,
                start,
                end: match p.end {
                    Some(end) => end,
                    None => start,
                },
                pause_on_hit: true,
                value: p.value,
                value_len: if p.value is Some {
                    Some(
                        match p.value_len {
                            Some(n) => n,
                            None => 1,
                        },
                    )
                } else {
                    None
                },
                value_mask: p.value_mask,
                pc_min: p.pc_min,
                pc_max: p.pc_max,
                snapshot: match p.bank_snapshot {
                    Some(memory) => Some(seq![memory]),
                    None => None,
                },
            },
        ),
        _ => None,
    }
}

/// The model of a request that may be absent.
pub open spec fn opt_request(r: Option<EmucapBreakpointRequest<'_>>) -> Option<RequestView> {
    match r {
        Some(request) => Some(request@),
        None => None,
    }
}

fn opt_str(s: &Option<String>) -> (r: Option<&str>)
    ensures
        crate::jp_text::opt_view(r) == opt_text(*s),
{
    match s {
        Some(t) => Some(t.as_str()),
        None => None,
    }
}

/// The breakpoint that has an emulator watch for a probe.
pub fn emucap_breakpoint_request(probe: &ProbeRequirement) -> (r: Option<
    EmucapBreakpointRequest<'_>,
>)
    ensures
        opt_request(r) == request_of(probe@),
{
    let kind = match emucap_breakpoint_kind(probe) {
        Some(kind) => kind,
        None => {
            return None;
        },
    };
    let memory_type = match opt_str(&probe.memory_type) {
        Some(t) => t,
        None => {
            return None;
        },
    };
    let start = match opt_str(&probe.address) {
        Some(start) => start,
        None => {
            return None;
        },
    };
    let end = match opt_str(&probe.end) {
        Some(end) => end,
        None => start,
    };
    let value_len: Option<u8> = if probe.value.is_some() {
        match probe.value_len {
            Some(n) => Some(n),
            None => Some(1),
        }
    } else {
        None
    };
    let snapshot = match opt_str(&probe.bank_snapshot) {
        Some(memory) => {
            let list = vec![memory];
            proof {
                assert(str_views(list@) =~= seq![memory@]);
            }
            Some(list)
        },
        None => None,
    };
    Some(
        EmucapBreakpointRequest {
            tool: "set_breakpoint",
            args: EmucapBreakpointArgs {
                kind,
                memory_type,
                start,
                end,
                pause_on_hit: true,
                value: opt_str(&probe.value),
                value_len,
                value_mask: opt_str(&probe.value_mask),
                pc_min: opt_str(&probe.pc_min),
                pc_max: opt_str(&probe.pc_max),
                snapshot,
            },
        },
    )
}

/// A probe that was checked and needs a breakpoint gets one.
pub proof fn law_checked_probe_has_request(scene: Seq<char>, p: ProbeView)
    requires
        probe_fault(scene, p) is None,
    ensures
        breakpoint_kind(p.kind) is Some <==> request_of(p) is Some,
{
}

} // verus!
