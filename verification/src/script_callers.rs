//! A search for the places that call the script routines.
//!
//! Instruction decoding is done elsewhere; what is handed in is the decoding at
//! every offset of the ROM.
use vstd::prelude::*;
use crate::parse::string_views;
use crate::text::{hex, hex_join, text, Text};
use vstd::slice::slice_subrange;

verus! {

/// A routine of the script engine.
#[derive(Debug, Clone, Copy)]
pub struct ScriptRoutine {
    /// What it is called.
    pub name: &'static str,
    /// Its address in slot 2.
    pub logical: u16,
    /// Its ROM offset.
    pub physical: usize,
}

/// How many routines are searched for.
pub const ROUTINE_COUNT: usize = 6;

/// The name of a routine.
pub open spec fn routine_name(i: int) -> Seq<char> {
    if i == 0 {
        "runScript"@
    } else if i == 1 {
        "renderLoop"@
    } else if i == 2 {
        "fontDecode1bppTo4bpp"@
    } else if i == 3 {
        "runTabledScript"@
    } else if i == 4 {
        "getScriptPointer"@
    } else {
        "runCutsceneScript"@
    }
}

/// The address of a routine.
pub open spec fn routine_logical(i: int) -> int {
    if i == 0 {
        0x98E0
    } else if i == 1 {
        0x9979
    } else if i == 2 {
        0x9A3E
    } else if i == 3 {
        0xA00D
    } else if i == 4 {
        0xA05B
    } else {
        0xA54E
    }
}

/// A routine by number. All of them stand in bank 6.
pub fn script_routine(i: usize) -> (r: ScriptRoutine)
    requires
        i < 6,
    ensures
        r.name@ == routine_name(i as int),
        r.logical == routine_logical(i as int),
        r.physical == r.logical + 0x10000,
{
    if i == 0 {
        ScriptRoutine { name: "runScript", logical: 0x98E0, physical: 0x198E0 }
    } else if i == 1 {
        ScriptRoutine { name: "renderLoop", logical: 0x9979, physical: 0x19979 }
    } else if i == 2 {
        ScriptRoutine { name: "fontDecode1bppTo4bpp", logical: 0x9A3E, physical: 0x19A3E }
    } else if i == 3 {
        ScriptRoutine { name: "runTabledScript", logical: 0xA00D, physical: 0x1A00D }
    } else if i == 4 {
        ScriptRoutine { name: "getScriptPointer", logical: 0xA05B, physical: 0x1A05B }
    } else {
        ScriptRoutine { name: "runCutsceneScript", logical: 0xA54E, physical: 0x1A54E }
    }
}

/// The number of the routine at an address.
pub open spec fn routine_at(target: int) -> Option<int> {
    if target == 0x98E0 {
        Some(0)
    } else if target == 0x9979 {
        Some(1)
    } else if target == 0x9A3E {
        Some(2)
    } else if target == 0xA00D {
        Some(3)
    } else if target == 0xA05B {
        Some(4)
    } else if target == 0xA54E {
        Some(5)
    } else {
        None
    }
}

fn find_routine(target: u16) -> (r: Option<usize>)
    ensures
        match r {
            Some(i) => i < 6 && routine_at(target as int) == Some(i as int),
            None => routine_at(target as int) is None,
        },
{
    if target == 0x98E0 {
        Some(0)
    } else if target == 0x9979 {
        Some(1)
    } else if target == 0x9A3E {
        Some(2)
    } else if target == 0xA00D {
        Some(3)
    } else if target == 0xA05B {
        Some(4)
    } else if target == 0xA54E {
        Some(5)
    } else {
        None
    }
}

/// The instruction that an opcode with a 16-bit target is, if it is one.
pub open spec fn jump_name(opcode: u8) -> Option<Seq<char>> {
    match opcode {
        0xC3 => Some("JP"@),
        0xC2 => Some("JP NZ"@),
        0xCA => Some("JP Z"@),
        0xD2 => Some("JP NC"@),
        0xDA => Some("JP C"@),
        0xE2 => Some("JP PO"@),
        0xEA => Some("JP PE"@),
        0xF2 => Some("JP P"@),
        0xFA => Some("JP M"@),
        0xCD => Some("CALL"@),
        0xC4 => Some("CALL NZ"@),
        0xCC => Some("CALL Z"@),
        0xD4 => Some("CALL NC"@),
        0xDC => Some("CALL C"@),
        0xE4 => Some("CALL PO"@),
        0xEC => Some("CALL PE"@),
        0xF4 => Some("CALL P"@),
        0xFC => Some("CALL M"@),
        _ => None,
    }
}

/// The instruction that an opcode with a 16-bit target is, if it is one.
pub fn direct_target_opcode(opcode: u8) -> (s: Option<&'static str>)
    ensures
        crate::jp_text::opt_view(s) == jump_name(opcode),
{
    match opcode {
        0xC3 => Some("JP"),
        0xC2 => Some("JP NZ"),
        0xCA => Some("JP Z"),
        0xD2 => Some("JP NC"),
        0xDA => Some("JP C"),
        0xE2 => Some("JP PO"),
        0xEA => Some("JP PE"),
        0xF2 => Some("JP P"),
        0xFA => Some("JP M"),
        0xCD => Some("CALL"),
        0xC4 => Some("CALL NZ"),
        0xCC => Some("CALL Z"),
        0xD4 => Some("CALL NC"),
        0xDC => Some("CALL C"),
        0xE4 => Some("CALL PO"),
        0xEC => Some("CALL PE"),
        0xF4 => Some("CALL P"),
        0xFC => Some("CALL M"),
        _ => None,
    }
}

/// The register of an 8-bit immediate load.
pub open spec fn byte_load(opcode: u8) -> Option<Seq<char>> {
    match opcode {
        0x06 => Some("B"@),
        0x0E => Some("C"@),
        0x16 => Some("D"@),
        0x1E => Some("E"@),
        0x26 => Some("H"@),
        0x2E => Some("L"@),
        0x3E => Some("A"@),
        _ => None,
    }
}

/// The register of an 8-bit immediate load.
pub fn ld_r_imm_reg(opcode: u8) -> (s: Option<&'static str>)
    ensures
        crate::jp_text::opt_view(s) == byte_load(opcode),
{
    match opcode {
        0x06 => Some("B"),
        0x0E => Some("C"),
        0x16 => Some("D"),
        0x1E => Some("E"),
        0x26 => Some("H"),
        0x2E => Some("L"),
        0x3E => Some("A"),
        _ => None,
    }
}

/// The register pair of a 16-bit immediate load.
pub open spec fn word_load(opcode: u8) -> Option<Seq<char>> {
    match opcode {
        0x01 => Some("BC"@),
        0x11 => Some("DE"@),
        0x21 => Some("HL"@),
        0x31 => Some("SP"@),
        _ => None,
    }
}

/// The register pair of a 16-bit immediate load.
pub fn ld_rr_imm_reg(opcode: u8) -> (s: Option<&'static str>)
    ensures
        crate::jp_text::opt_view(s) == word_load(opcode),
{
    match opcode {
        0x01 => Some("BC"),
        0x11 => Some("DE"),
        0x21 => Some("HL"),
        0x31 => Some("SP"),
        _ => None,
    }
}

/// The bank of a ROM offset, the slot through which it is assumed to be seen, and
/// the address there.
pub open spec fn debug_logical(physical: int) -> (int, Seq<char>, int) {
    if physical / 0x4000 == 0 {
        (0, "slot0"@, physical % 0x4000)
    } else {
        (physical / 0x4000, "slot2"@, 0x8000 + physical % 0x4000)
    }
}

/// The bank of a ROM offset, the slot through which it is assumed to be seen, and
/// the address there: slot 0 for bank 0, slot 2 for every other bank.
pub fn physical_to_debug_logical(physical: usize) -> (r: (usize, &'static str, u16))
    ensures
        (r.0 as int, r.1@, r.2 as int) == debug_logical(physical as int),
{
    let bank: usize = physical / 0x4000;
    let in_bank: u16 = (physical % 0x4000) as u16;
    if bank == 0 {
        (bank, "slot0", in_bank)
    } else {
        (bank, "slot2", 0x8000 + in_bank)
    }
}

// ---------------------------------------------------------------------------
// Decoded instructions
// ---------------------------------------------------------------------------

/// An immediate load that was decoded.
#[derive(Debug)]
pub struct Immediate {
    /// The register.
    pub register: String,
    /// The value.
    pub value: u16,
    /// Whether the value has sixteen bits.
    pub wide: bool,
}

/// What decoding at an offset gave.
#[derive(Debug)]
pub enum Decoded {
    /// An instruction.
    Instruction {
        /// Its length.
        length: usize,
        /// Its text.
        text: String,
        /// The immediate load, if it is one.
        immediate: Option<Immediate>,
    },
    /// No instruction.
    Failure {
        /// Why not.
        reason: String,
    },
}

/// The decodings of a ROM: one for each offset, none of an instruction that goes
/// past the end of its bank.
pub open spec fn decodes(decoded: Seq<Decoded>, size: int) -> bool {
    &&& decoded.len() == size
    &&& forall|i: int|
        0 <= i < size ==> (#[trigger] decoded[i] matches Decoded::Instruction { length, .. } ==> 1
            <= length && i + length <= size && i % 0x4000 + length <= 0x4000)
}

/// Text followed by spaces up to a width.
pub open spec fn padded(s: Seq<char>, width: int) -> Seq<char>
    decreases width - s.len(),
{
    if s.len() >= width {
        s
    } else {
        padded(s.push(' '), width)
    }
}

/// A line of the disassembly.
#[derive(Debug)]
pub struct DisasmLine {
    /// ROM offset.
    pub physical: usize,
    /// What an immediate load loads.
    pub immediate: Option<String>,
    /// The text of the line.
    pub text: String,
}

/// The model of a line.
#[verifier::ext_equal]
pub struct LineView {
    /// ROM offset.
    pub physical: int,
    /// What an immediate load loads.
    pub immediate: Option<Seq<char>>,
    /// The text of the line.
    pub text: Seq<char>,
}

/// A string that may be absent, as a model.
pub open spec fn opt_text(s: Option<String>) -> Option<Seq<char>> {
    match s {
        Some(t) => Some(t@),
        None => None,
    }
}

impl View for DisasmLine {
    type V = LineView;

    open spec fn view(&self) -> LineView {
        LineView {
            physical: self.physical as int,
            immediate: opt_text(self.immediate),
            text: self.text@,
        }
    }
}

/// The models of lines.
pub open spec fn line_views(lines: Seq<DisasmLine>) -> Seq<LineView> {
    Seq::new(lines.len(), |i: int| lines[i]@)
}

/// An immediate load in words.
pub open spec fn load_text(at: int, register: Seq<char>, value: int, wide: bool) -> Seq<char> {
    "0x"@ + hex(at, 5) + ": LD "@ + register + ", $"@ + hex(value, if wide {
        4
    } else {
        2
    })
}

/// How many bytes the line at an offset covers.
pub open spec fn line_length(d: Decoded) -> int {
    match d {
        Decoded::Instruction { length, .. } => length as int,
        Decoded::Failure { .. } => 1,
    }
}

/// The line at an offset.
pub open spec fn line_at(rom: Seq<u8>, d: Decoded, at: int) -> LineView {
    let logical = debug_logical(at).2;
    match d {
        Decoded::Instruction { length, text, immediate } => LineView {
            physical: at,
            immediate: match immediate {
                Some(i) => Some(load_text(at, i.register@, i.value as int, i.wide)),
                None => None,
            },
            text: "$"@ + hex(logical, 4) + ": "@ + padded(
                hex_join(rom.subrange(at, at + length), " "@),
                11,
            ) + " "@ + text@,
        },
        Decoded::Failure { reason } => LineView {
            physical: at,
            immediate: None,
            text: "$"@ + hex(logical, 4) + ": "@ + hex(rom[at] as int, 2) + "          .DB $"@ + hex(
                rom[at] as int,
                2,
            ) + " ; "@ + reason@,
        },
    }
}

/// The lines from an offset on: one instruction after the other. Every bank starts
/// afresh, since no instruction goes past the end of its bank.
pub open spec fn lines_from(rom: Seq<u8>, decoded: Seq<Decoded>, at: int) -> Seq<LineView>
    decreases rom.len() - at,
{
    if at >= rom.len() || line_length(decoded[at]) < 1 || at + line_length(decoded[at]) > rom.len() {
        Seq::empty()
    } else {
        seq![line_at(rom, decoded[at], at)] + lines_from(
            rom,
            decoded,
            at + line_length(decoded[at]),
        )
    }
}

fn push_padded(t: Text, s: Text, width: usize) -> (r: Text)
    ensures
        r@ == t@ + padded(s@, width as int),
{
    let ghost want = padded(s@, width as int);
    let mut s = s;
    let mut n: usize = crate::text::chars_of(s.content.as_str()).len();
    while n < width
        invariant
            n == s@.len(),
            padded(s@, width as int) == want,
        decreases width - n,
    {
        let ghost was = s@;
        let mut content = s.content;
        content.push(' ');
        s = Text { content };
        n += 1;
    }
    t.lit(s.content.as_str())
}

fn make_line(rom: &[u8], d: &Decoded, at: usize) -> (line: DisasmLine)
    requires
        at < rom@.len(),
        d matches Decoded::Instruction { length, .. } ==> at + *length <= rom@.len(),
    ensures
        line@ == line_at(rom@, *d, at as int),
{
    let (_, _, logical) = physical_to_debug_logical(at);
    let size: usize = rom.len();
    let start = text("$").hex(logical as usize, 4).lit(": ");
    match d {
        Decoded::Instruction { length, text: name, immediate } => {
            let empty = text("");
            proof {
                reveal_strlit("");
                assert(empty@ + hex_join(rom@.subrange(at as int, at + *length), " "@) =~= hex_join(
                    rom@.subrange(at as int, at + *length),
                    " "@,
                ));
            }
            let shown = empty.hex_join(slice_subrange(rom, at, at + *length), " ");
            let line = push_padded(start, shown, 11).lit(" ").lit(name.as_str()).finish();
            let clue: Option<String> = match immediate {
                Some(i) => Some(
                    text("0x").hex(at, 5).lit(": LD ").lit(i.register.as_str()).lit(", $").hex(
                        i.value as usize,
                        if i.wide {
                            4
                        } else {
                            2
                        },
                    ).finish(),
                ),
                None => None,
            };
            DisasmLine { physical: at, immediate: clue, text: line }
        },
        Decoded::Failure { reason } => {
            let b: usize = rom[at] as usize;
            DisasmLine {
                physical: at,
                immediate: None,
                text: start.hex(b, 2).lit("          .DB $").hex(b, 2).lit(" ; ").lit(
                    reason.as_str(),
                ).finish(),
            }
        },
    }
}

/// The disassembly of a ROM, bank by bank.
pub fn aligned_disasm(rom: &[u8], decoded: &[Decoded]) -> (lines: Vec<DisasmLine>)
    requires
        decodes(decoded@, rom@.len() as int),
    ensures
        line_views(lines@) == lines_from(rom@, decoded@, 0),
        forall|k: int| 0 <= k < lines@.len() ==> (#[trigger] lines@[k]).physical < rom@.len(),
{
    let mut lines: Vec<DisasmLine> = Vec::new();
    let mut at: usize = 0;
    proof {
        assert(line_views(lines@) + lines_from(rom@, decoded@, 0) =~= lines_from(
            rom@,
            decoded@,
            0,
        ));
    }
    while at < rom.len()
        invariant
            decodes(decoded@, rom@.len() as int),
            at <= rom@.len(),
            line_views(lines@) + lines_from(rom@, decoded@, at as int) == lines_from(
                rom@,
                decoded@,
                0,
            ),
            forall|k: int| 0 <= k < lines@.len() ==> (#[trigger] lines@[k]).physical < rom@.len(),
        decreases rom@.len() - at,
    {
        let d = &decoded[at];
        let ghost was = line_views(lines@);
        let ghost here = at as int;
        let line = make_line(rom, d, at);
        lines.push(line);
        let size: usize = rom.len();
        let step: usize = match d {
            Decoded::Instruction { length, .. } => *length,
            Decoded::Failure { .. } => 1,
        };
        at += step;
        proof {
            assert(line_views(lines@) =~= was.push(line@));
            assert(line_views(lines@) + lines_from(rom@, decoded@, at as int) =~= was + lines_from(
                rom@,
                decoded@,
                here,
            ));
        }
    }
    proof {
        assert(line_views(lines@) =~= lines_from(rom@, decoded@, 0));
    }
    lines
}

// ---------------------------------------------------------------------------
// The search
// ---------------------------------------------------------------------------

/// The first line at an offset.
pub open spec fn line_index(lines: Seq<LineView>, physical: int) -> Option<int>
    decreases lines.len(),
{
    if lines.len() == 0 {
        None
    } else {
        match line_index(lines.drop_last(), physical) {
            Some(k) => Some(k),
            None => if lines.last().physical == physical {
                Some(lines.len() - 1)
            } else {
                None
            },
        }
    }
}

proof fn lemma_line_index(lines: Seq<LineView>, physical: int, k: int)
    requires
        0 <= k <= lines.len(),
        line_index(lines.take(k), physical) is Some,
    ensures
        line_index(lines, physical) == line_index(lines.take(k), physical),
    decreases lines.len(),
{
    if k == lines.len() {
        assert(lines.take(k) =~= lines);
    } else {
        assert(lines.drop_last().take(k) =~= lines.take(k));
        lemma_line_index(lines.drop_last(), physical, k);
    }
}

fn find_line(lines: &[DisasmLine], physical: usize) -> (r: Option<usize>)
    ensures
        match r {
            Some(k) => k < lines@.len() && line_index(line_views(lines@), physical as int) == Some(
                k as int,
            ),
            None => line_index(line_views(lines@), physical as int) is None,
        },
{
    let ghost all = line_views(lines@);
    let mut k: usize = 0;
    while k < lines.len()
        invariant
            k <= lines@.len(),
            all == line_views(lines@),
            line_index(all.take(k as int), physical as int) is None,
        decreases lines@.len() - k,
    {
        proof {
            assert(all.take(k + 1).drop_last() =~= all.take(k as int));
            assert(all.take(k + 1).last() == lines@[k as int]@);
        }
        if lines[k].physical == physical {
            proof {
                lemma_line_index(all, physical as int, k + 1);
            }
            return Some(k);
        }
        k += 1;
    }
    proof {
        assert(all.take(k as int) =~= all);
    }
    None
}

/// A line of the context of a hit.
pub open spec fn context_line(line: LineView, hit: int) -> Seq<char> {
    (if line.physical == hit {
        "=>"@
    } else {
        "  "@
    }) + " phys 0x"@ + hex(line.physical, 5) + " "@ + line.text
}

/// The lines around line `index`, up to `reach` before and after it.
pub open spec fn context_of(lines: Seq<LineView>, index: int, reach: int) -> Seq<Seq<char>> {
    let start = if index > reach {
        index - reach
    } else {
        0
    };
    let end = if index + reach + 1 < lines.len() {
        index + reach + 1
    } else {
        lines.len() as int
    };
    Seq::new(
        (end - start) as nat,
        |i: int| context_line(lines[start + i], lines[index].physical),
    )
}

/// The lines around line `index`, up to `context_lines` before and after it; an
/// arrow marks the line itself.
pub fn disasm_context(lines: &[DisasmLine], index: usize, context_lines: usize) -> (r: Vec<String>)
    requires
        index < lines@.len(),
        index + context_lines + 1 <= usize::MAX,
    ensures
        string_views(r@) == context_of(line_views(lines@), index as int, context_lines as int),
{
    let ghost all = line_views(lines@);
    let start: usize = if index > context_lines {
        index - context_lines
    } else {
        0
    };
    let end: usize = if index + context_lines + 1 < lines.len() {
        index + context_lines + 1
    } else {
        lines.len()
    };
    let hit: usize = lines[index].physical;
    let ghost want = context_of(all, index as int, context_lines as int);
    let mut r: Vec<String> = Vec::new();
    let mut k: usize = start;
    proof {
        assert(string_views(r@) =~= want.take(0));
    }
    while k < end
        invariant
            start <= k <= end <= lines@.len(),
            index < lines@.len(),
            all == line_views(lines@),
            hit == all[index as int].physical,
            want.len() == end - start,
            forall|i: int|
                0 <= i < want.len() ==> #[trigger] want[i] == context_line(
                    all[start + i],
                    hit as int,
                ),
            string_views(r@) == want.take(k - start),
        decreases end - k,
    {
        let ghost was = string_views(r@);
        let line = &lines[k];
        let mark = if line.physical == hit {
            text("=>")
        } else {
            text("  ")
        };
        let s = mark.lit(" phys 0x").hex(line.physical, 5).lit(" ").lit(
            line.text.as_str(),
        ).finish();
        r.push(s);
        proof {
            assert(all[k as int] == lines@[k as int]@);
            assert(want[k - start] == context_line(all[start + (k - start)], hit as int));
            assert(string_views(r@) =~= was.push(s@));
            assert(string_views(r@) =~= want.take(k + 1 - start));
        }
        k += 1;
    }
    proof {
        assert(want.take(k - start) =~= want);
    }
    r
}

/// The immediate loads on lines `start` to `end`.
pub open spec fn loads_between(lines: Seq<LineView>, start: int, end: int) -> Seq<Seq<char>>
    decreases end - start,
{
    if end <= start {
        Seq::empty()
    } else {
        match lines[end - 1].immediate {
            Some(s) => loads_between(lines, start, end - 1).push(s),
            None => loads_between(lines, start, end - 1),
        }
    }
}

/// The immediate loads on the `context_lines` lines before line `index`.
pub fn disasm_immediate_clues(lines: &[DisasmLine], index: usize, context_lines: usize) -> (r: Vec<
    String,
>)
    requires
        index < lines@.len(),
    ensures
        string_views(r@) == loads_between(
            line_views(lines@),
            if index > context_lines {
                index - context_lines
            } else {
                0
            },
            index as int,
        ),
{
    let ghost all = line_views(lines@);
    let start: usize = if index > context_lines {
        index - context_lines
    } else {
        0
    };
    let mut r: Vec<String> = Vec::new();
    let mut k: usize = start;
    proof {
        assert(string_views(r@) =~= Seq::empty());
    }
    while k < index
        invariant
            start <= k <= index,
            index < lines@.len(),
            all == line_views(lines@),
            string_views(r@) == loads_between(all, start as int, k as int),
        decreases index - k,
    {
        let ghost was = string_views(r@);
        proof {
            assert(all[k as int] == lines@[k as int]@);
        }
        match &lines[k].immediate {
            Some(s) => {
                r.push(s.clone());
                proof {
                    assert(string_views(r@) =~= was.push(s@));
                }
            },
            None => {},
        }
        k += 1;
    }
    r
}

/// The immediate loads that bytes from `start` up to `end` look like, whatever the
/// instructions there really are.
pub open spec fn raw_loads(rom: Seq<u8>, start: int, end: int, to: int) -> Seq<Seq<char>>
    decreases to - start,
{
    if to <= start {
        Seq::empty()
    } else {
        let at = to - 1;
        let before = raw_loads(rom, start, end, at);
        let narrow = match byte_load(rom[at]) {
            Some(reg) if at + 1 < end => before.push(
                "raw "@ + load_text(at, reg, rom[at + 1] as int, false),
            ),
            _ => before,
        };
        match word_load(rom[at]) {
            Some(reg) if at + 2 < end => narrow.push(
                "raw "@ + load_text(at, reg, rom[at + 1] + 256 * rom[at + 2], true),
            ),
            _ => narrow,
        }
    }
}

fn raw_load(at: usize, register: &str, value: usize, wide: bool) -> (s: String)
    ensures
        s@ == "raw "@ + load_text(at as int, register@, value as int, wide),
{
    let body = text("0x").hex(at, 5).lit(": LD ").lit(register).lit(", $").hex(
        value,
        if wide {
            4
        } else {
            2
        },
    ).finish();
    text("raw ").lit(body.as_str()).finish()
}

/// The immediate loads that the `window` bytes before an offset look like.
pub fn immediate_clues_before(rom: &[u8], offset: usize, window: usize) -> (r: Vec<String>)
    requires
        offset <= rom@.len(),
    ensures
        string_views(r@) == raw_loads(
            rom@,
            if offset > window {
                offset - window
            } else {
                0
            },
            offset as int,
            offset as int,
        ),
{
    let start: usize = if offset > window {
        offset - window
    } else {
        0
    };
    let mut r: Vec<String> = Vec::new();
    let mut at: usize = start;
    proof {
        assert(string_views(r@) =~= Seq::empty());
    }
    while at < offset
        invariant
            start <= at <= offset,
            offset <= rom@.len(),
            string_views(r@) == raw_loads(rom@, start as int, offset as int, at as int),
        decreases offset - at,
    {
        let ghost was = string_views(r@);
        if offset - at > 1 {
            match ld_r_imm_reg(rom[at]) {
                Some(reg) => {
                    let s = raw_load(at, reg, rom[at + 1] as usize, false);
                    r.push(s);
                    proof {
                        assert(string_views(r@) =~= was.push(s@));
                    }
                },
                None => {},
            }
        }
        let ghost narrow = string_views(r@);
        if offset - at > 2 {
            match ld_rr_imm_reg(rom[at]) {
                Some(reg) => {
                    let value: usize = rom[at + 1] as usize + 256 * rom[at + 2] as usize;
                    let s = raw_load(at, reg, value, true);
                    r.push(s);
                    proof {
                        assert(string_views(r@) =~= narrow.push(s@));
                    }
                },
                None => {},
            }
        }
        at += 1;
    }
    r
}

/// A place that calls or jumps to a script routine.
#[derive(Debug)]
pub struct ScriptCallerHit {
    /// The routine.
    pub routine: ScriptRoutine,
    /// The instruction.
    pub opcode: &'static str,
    /// ROM offset of the instruction.
    pub physical: usize,
    /// Its bank.
    pub bank: usize,
    /// Its address.
    pub logical: u16,
    /// The slot of that address.
    pub slot: &'static str,
    /// Immediate loads shortly before it.
    pub immediate_clues: Vec<String>,
    /// The disassembly around it.
    pub context: Vec<String>,
}

/// The model of a hit.
#[verifier::ext_equal]
pub struct HitView {
    /// The number of the routine.
    pub routine: int,
    /// The instruction.
    pub opcode: Seq<char>,
    /// ROM offset of the instruction.
    pub physical: int,
    /// Immediate loads shortly before it.
    pub immediate_clues: Seq<Seq<char>>,
    /// The disassembly around it.
    pub context: Seq<Seq<char>>,
}

impl ScriptCallerHit {
    /// Whether this hit is the given one.
    pub open spec fn is_hit(self, v: HitView) -> bool {
        &&& self.routine.name@ == routine_name(v.routine)
        &&& self.routine.logical == routine_logical(v.routine)
        &&& self.routine.physical == routine_logical(v.routine) + 0x10000
        &&& self.opcode@ == v.opcode
        &&& self.physical == v.physical
        &&& (self.bank as int, self.slot@, self.logical as int) == debug_logical(v.physical)
        &&& string_views(self.immediate_clues@) == v.immediate_clues
        &&& string_views(self.context@) == v.context
    }
}

/// The hit at an offset, if there is one. Where the disassembly has no line there,
/// the loads are guessed from the sixteen bytes before it.
pub open spec fn hit_at(rom: Seq<u8>, lines: Seq<LineView>, at: int, reach: int) -> Option<HitView> {
    let target = rom[at + 1] + 256 * rom[at + 2];
    match (jump_name(rom[at]), routine_at(target)) {
        (Some(opcode), Some(routine)) => Some(
            match line_index(lines, at) {
                Some(index) => HitView {
                    routine,
                    opcode,
                    physical: at,
                    immediate_clues: loads_between(
                        lines,
                        if index > 2 * reach {
                            index - 2 * reach
                        } else {
                            0
                        },
                        index,
                    ),
                    context: context_of(lines, index, reach),
                },
                None => HitView {
                    routine,
                    opcode,
                    physical: at,
                    immediate_clues: raw_loads(
                        rom,
                        if at > 16 {
                            at - 16
                        } else {
                            0
                        },
                        at,
                        at,
                    ),
                    context: Seq::empty(),
                },
            },
        ),
        _ => None,
    }
}

/// The hits at offsets below `n`.
pub open spec fn hits_below(rom: Seq<u8>, lines: Seq<LineView>, reach: int, n: int) -> Seq<HitView>
    decreases n,
{
    if n <= 0 {
        Seq::empty()
    } else {
        match hit_at(rom, lines, n - 1, reach) {
            Some(hit) => hits_below(rom, lines, reach, n - 1).push(hit),
            None => hits_below(rom, lines, reach, n - 1),
        }
    }
}

/// Whether a list of hits is the given one.
pub open spec fn lists_hits(found: Seq<ScriptCallerHit>, want: Seq<HitView>) -> bool {
    &&& found.len() == want.len()
    &&& forall|k: int| 0 <= k < found.len() ==> (#[trigger] found[k]).is_hit(want[k])
}

/// Every place that looks like a call of, or a jump to, a script routine.
pub fn scan_script_callers(rom: &[u8], decoded: &[Decoded], context_lines: usize) -> (hits: Vec<
    ScriptCallerHit,
>)
    requires
        decodes(decoded@, rom@.len() as int),
        2 * context_lines <= usize::MAX,
        rom@.len() + context_lines + 1 <= usize::MAX,
    ensures
        lists_hits(
            hits@,
            hits_below(
                rom@,
                lines_from(rom@, decoded@, 0),
                context_lines as int,
                rom@.len() - 2,
            ),
        ),
{
    let lines = aligned_disasm(rom, decoded);
    let ghost all = lines_from(rom@, decoded@, 0);
    proof {
        lemma_line_count(rom@, decoded@, 0);
    }
    let mut hits: Vec<ScriptCallerHit> = Vec::new();
    let mut at: usize = 0;
    while at < rom.len() && rom.len() - at > 2
        invariant
            line_views(lines@) == all,
            all.len() <= rom@.len(),
            2 * context_lines <= usize::MAX,
            rom@.len() + context_lines + 1 <= usize::MAX,
            at == 0 || at <= rom@.len() - 2,
            lists_hits(hits@, hits_below(rom@, all, context_lines as int, at as int)),
        decreases rom@.len() - at,
    {
        let target: u16 = rom[at + 1] as u16 + 256 * rom[at + 2] as u16;
        match (direct_target_opcode(rom[at]), find_routine(target)) {
            (Some(opcode), Some(which)) => {
                let (bank, slot, logical) = physical_to_debug_logical(at);
                let (context, immediate_clues): (Vec<String>, Vec<String>) = match find_line(
                    lines.as_slice(),
                    at,
                ) {
                    Some(index) => (
                        disasm_context(lines.as_slice(), index, context_lines),
                        disasm_immediate_clues(lines.as_slice(), index, context_lines * 2),
                    ),
                    None => (Vec::new(), immediate_clues_before(rom, at, 16)),
                };
                let hit = ScriptCallerHit {
                    routine: script_routine(which),
                    opcode,
                    physical: at,
                    bank,
                    logical,
                    slot,
                    immediate_clues,
                    context,
                };
                proof {
                    let want = hit_at(rom@, all, at as int, context_lines as int)->0;
                    assert(string_views(hit.context@) =~= want.context);
                    assert(hit.is_hit(want));
                }
                hits.push(hit);
            },
            _ => {},
        }
        at += 1;
    }
    proof {
        if rom@.len() < 2 {
            assert(at == 0);
        }
    }
    hits
}

proof fn lemma_line_count(rom: Seq<u8>, decoded: Seq<Decoded>, at: int)
    requires
        0 <= at <= rom.len(),
        decodes(decoded, rom.len() as int),
    ensures
        lines_from(rom, decoded, at).len() <= rom.len() - at,
    decreases rom.len() - at,
{
    if at < rom.len() {
        lemma_line_count(rom, decoded, at + line_length(decoded[at]));
    }
}

} // verus!
