//! The machine code that a patch adds to the game, as instructions.
//!
//! The programs stand here as lists of instructions; an assembler turns them into bytes.
use vstd::prelude::*;
use crate::error::{plain, PatchError};
use crate::glyph::{KO_BANK_BANK, KO_BANK_LOGICAL, KO_HANDLER_LOGICAL, KO_PREFIX, KO_SLOT1_MAPPER};
use crate::rom::HANDLER_ROOM;
use crate::text::{dec, text};
use crate::ui_labels::{FLEE_RELOC_ASSET_ID, SAVE_RELOC_ASSET_ID};

verus! {

/// A byte register, or the byte that `HL` points at.
#[derive(Clone, Copy, Debug, PartialEq, Eq, Structural)]
pub enum Reg8 {
    A,
    B,
    C,
    H,
    L,
    AtHl,
}

/// A pair of registers that holds an address.
#[derive(Clone, Copy, Debug, PartialEq, Eq, Structural)]
pub enum Reg16 {
    De,
    Hl,
}

/// A pair of registers that goes onto the stack.
#[derive(Clone, Copy, Debug, PartialEq, Eq, Structural)]
pub enum Pair {
    Af,
    Bc,
    De,
    Hl,
}

/// The condition of a jump.
#[derive(Clone, Copy, Debug, PartialEq, Eq, Structural)]
pub enum Cond {
    Nz,
    Z,
    Nc,
    C,
}

/// An operation on the accumulator.
#[derive(Clone, Copy, Debug, PartialEq, Eq, Structural)]
pub enum Alu {
    Sub,
    And,
    Or,
    Cp,
}

/// A place in a program.
#[derive(Clone, Copy, Debug, PartialEq, Eq, Structural)]
pub enum Place {
    /// The start of a glyph row.
    Row,
    /// Behind the write to a plane.
    PlaneSkip(u8),
    /// The way of the game's own glyphs.
    Orig,
    /// Where the glyphs of one more prefix are skipped.
    AddLoop,
    /// Where no more glyphs are skipped.
    NoAdd,
}

/// An instruction, or a mark for a place.
#[derive(Clone, Copy, Debug, PartialEq, Eq, Structural)]
pub enum Op {
    /// An operation with a number.
    AluImm(Alu, u8),
    /// An operation with a register.
    AluReg(Alu, Reg8),
    /// `jp cond, nn`
    JpCond(Cond, u16),
    /// `jp nn`
    Jp(u16),
    /// `call nn`
    Call(u16),
    /// `ld a, (de)`
    LdADe,
    /// `ld a, (nn)`
    LdAFrom(u16),
    /// `ld (nn), a`
    LdToA(u16),
    /// `ld r, r'`
    Ld8(Reg8, Reg8),
    /// `ld r, n`
    LdImm8(Reg8, u8),
    /// `ld rr, nn`
    LdImm16(Reg16, u16),
    /// `inc rr`
    Inc16(Reg16),
    /// `dec r`
    Dec8(Reg8),
    /// `add hl, rr`
    AddHl(Reg16),
    /// `ex de, hl`
    ExDeHl,
    /// `push rr`
    Push(Pair),
    /// `pop rr`
    Pop(Pair),
    /// `rlca`
    Rlca,
    /// `rrca`
    Rrca,
    /// `bit n, r`
    Bit(u8, Reg8),
    /// `res n, r`
    Res(u8, Reg8),
    /// `ret`
    Ret,
    /// A mark; no code.
    Mark(Place),
    /// `jr cond, place`
    JrCond(Cond, Place),
    /// `djnz place`
    Djnz(Place),
}

/// How many bytes an instruction takes.
pub open spec fn op_size(op: Op) -> int {
    match op {
        Op::Mark(_) => 0,
        Op::JpCond(_, _) | Op::Jp(_) | Op::Call(_) | Op::LdAFrom(_) | Op::LdToA(_) | Op::LdImm16(
            _,
            _,
        ) => 3,
        Op::AluImm(_, _) | Op::LdImm8(_, _) | Op::Bit(_, _) | Op::Res(_, _) | Op::JrCond(_, _)
        | Op::Djnz(_) => 2,
        _ => 1,
    }
}

/// How many bytes the first `n` instructions of a program take.
pub open spec fn code_size(ops: Seq<Op>, n: int) -> int
    decreases n,
{
    if n <= 0 {
        0
    } else {
        code_size(ops, n - 1) + op_size(ops[n - 1])
    }
}

/// How many bytes a program takes.
pub open spec fn program_size(ops: Seq<Op>) -> int {
    code_size(ops, ops.len() as int)
}

// ---------------------------------------------------------------------------
// Glyph rows
// ---------------------------------------------------------------------------

/// Writes the accumulator to a plane if the mask in `C` has its bit, else 0.
pub open spec fn plane_write(bit: u8) -> Seq<Op> {
    seq![
        Op::LdImm8(Reg8::AtHl, 0x00),
        Op::Bit(bit, Reg8::C),
        Op::JrCond(Cond::Z, Place::PlaneSkip(bit)),
        Op::Ld8(Reg8::AtHl, Reg8::A),
        Op::Mark(Place::PlaneSkip(bit)),
    ]
}

/// Expands eight rows from `DE` to `HL`: the first plane is full, the others as the mask
/// says.
pub open spec fn glyph_rows() -> Seq<Op> {
    seq![Op::LdImm8(Reg8::B, 8), Op::Mark(Place::Row), Op::LdADe] + plane_write(0) + seq![
        Op::LdImm8(Reg8::AtHl, 0xFF),
        Op::Inc16(Reg16::Hl),
    ] + plane_write(1) + seq![Op::Inc16(Reg16::Hl)] + plane_write(2) + seq![Op::Inc16(Reg16::Hl)]
        + plane_write(3) + seq![
        Op::Inc16(Reg16::Hl),
        Op::Inc16(Reg16::De),
        Op::Djnz(Place::Row),
    ]
}

fn push_ops(list: &mut Vec<Op>, more: &[Op])
    ensures
        final(list)@ == old(list)@ + more@,
{
    let ghost start = list@;
    let mut i: usize = 0;
    proof {
        assert(start + more@.take(0) =~= start);
    }
    while i < more.len()
        invariant
            i <= more@.len(),
            start == old(list)@,
            list@ == start + more@.take(i as int),
        decreases more@.len() - i,
    {
        list.push(more[i]);
        i += 1;
        proof {
            assert(start + more@.take(i as int) =~= (start + more@.take(i - 1)).push(more@[i - 1]));
        }
    }
    proof {
        assert(more@.take(i as int) =~= more@);
    }
}

fn push_plane_write(list: &mut Vec<Op>, bit: u8)
    ensures
        final(list)@ == old(list)@ + plane_write(bit),
{
    let ops: [Op; 5] = [
        Op::LdImm8(Reg8::AtHl, 0x00),
        Op::Bit(bit, Reg8::C),
        Op::JrCond(Cond::Z, Place::PlaneSkip(bit)),
        Op::Ld8(Reg8::AtHl, Reg8::A),
        Op::Mark(Place::PlaneSkip(bit)),
    ];
    proof {
        assert(ops@ =~= plane_write(bit));
    }
    push_ops(list, ops.as_slice());
}

fn push_glyph_rows(list: &mut Vec<Op>)
    ensures
        final(list)@ == old(list)@ + glyph_rows(),
{
    let ghost start = list@;
    list.push(Op::LdImm8(Reg8::B, 8));
    list.push(Op::Mark(Place::Row));
    list.push(Op::LdADe);
    push_plane_write(list, 0);
    list.push(Op::LdImm8(Reg8::AtHl, 0xFF));
    list.push(Op::Inc16(Reg16::Hl));
    push_plane_write(list, 1);
    list.push(Op::Inc16(Reg16::Hl));
    push_plane_write(list, 2);
    list.push(Op::Inc16(Reg16::Hl));
    push_plane_write(list, 3);
    list.push(Op::Inc16(Reg16::Hl));
    list.push(Op::Inc16(Reg16::De));
    list.push(Op::Djnz(Place::Row));
    proof {
        assert(list@ =~= start + glyph_rows());
    }
}

// ---------------------------------------------------------------------------
// Handlers
// ---------------------------------------------------------------------------

/// The handler for one prefix: anything but the prefix goes to the game's own renderer;
/// behind the prefix comes the number of the glyph.
pub open spec fn single_prefix_handler() -> Seq<Op> {
    seq![
        Op::AluImm(Alu::Cp, 0xA3),
        Op::JpCond(Cond::Nz, 0x9A3E),
        Op::LdADe,
        Op::Inc16(Reg16::De),
        Op::Push(Pair::De),
        Op::Push(Pair::Hl),
        Op::Ld8(Reg8::L, Reg8::A),
        Op::LdImm8(Reg8::H, 0x00),
        Op::AddHl(Reg16::Hl),
        Op::AddHl(Reg16::Hl),
        Op::AddHl(Reg16::Hl),
        Op::LdImm16(Reg16::De, 0x4000),
        Op::AddHl(Reg16::De),
        Op::ExDeHl,
        Op::Pop(Pair::Hl),
        Op::Push(Pair::Bc),
    ] + glyph_rows() + seq![Op::Pop(Pair::Bc), Op::Pop(Pair::De), Op::Ret]
}

/// The handler for one prefix.
pub fn ko_handler_program() -> (program: Vec<Op>)
    ensures
        program@ == single_prefix_handler(),
{
    let mut list: Vec<Op> = vec![
        Op::AluImm(Alu::Cp, KO_PREFIX),
        Op::JpCond(Cond::Nz, ORIGINAL_FONT_EXPAND_LOGICAL),
        Op::LdADe,
        Op::Inc16(Reg16::De),
        Op::Push(Pair::De),
        Op::Push(Pair::Hl),
        Op::Ld8(Reg8::L, Reg8::A),
        Op::LdImm8(Reg8::H, 0x00),
        Op::AddHl(Reg16::Hl),
        Op::AddHl(Reg16::Hl),
        Op::AddHl(Reg16::Hl),
        Op::LdImm16(Reg16::De, KO_BANK_LOGICAL),
        Op::AddHl(Reg16::De),
        Op::ExDeHl,
        Op::Pop(Pair::Hl),
        Op::Push(Pair::Bc),
    ];
    push_glyph_rows(&mut list);
    list.push(Op::Pop(Pair::Bc));
    list.push(Op::Pop(Pair::De));
    list.push(Op::Ret);
    proof {
        assert(list@ =~= single_prefix_handler());
    }
    list
}

/// Where the game's own renderer starts.
pub const ORIGINAL_FONT_EXPAND_LOGICAL: u16 = 0x9A3E;

/// Where the game's own renderer goes on behind what the hook replaces.
pub const GLYPH_RENDER_CONT_LOGICAL: u16 = 0x9A41;

/// The start of the handler for several prefixes: anything but a prefix goes to the
/// game's own renderer; the number of the prefix goes into bits 4 and 5 of `C`, the byte
/// behind the prefix into the accumulator.
pub open spec fn prefix_entry() -> Seq<Op> {
    seq![
        Op::AluImm(Alu::Cp, 0xA3),
        Op::JrCond(Cond::C, Place::Orig),
        Op::AluImm(Alu::Cp, 0xA7),
        Op::JrCond(Cond::Nc, Place::Orig),
        Op::AluImm(Alu::Sub, 0xA3),
        Op::Rlca,
        Op::Rlca,
        Op::Rlca,
        Op::Rlca,
        Op::Res(4, Reg8::C),
        Op::Res(5, Reg8::C),
        Op::AluReg(Alu::Or, Reg8::C),
        Op::Ld8(Reg8::C, Reg8::A),
        Op::LdADe,
        Op::Inc16(Reg16::De),
    ]
}

/// The number of the prefix goes into `B`, and `C` gets its mask back.
pub open spec fn split_prefix() -> Seq<Op> {
    seq![
        Op::Push(Pair::Bc),
        Op::Push(Pair::Af),
        Op::Ld8(Reg8::A, Reg8::C),
        Op::AluImm(Alu::And, 0x30),
        Op::Rrca,
        Op::Rrca,
        Op::Rrca,
        Op::Rrca,
        Op::Ld8(Reg8::B, Reg8::A),
        Op::Ld8(Reg8::A, Reg8::C),
        Op::AluImm(Alu::And, 0x8F),
        Op::Ld8(Reg8::C, Reg8::A),
        Op::Pop(Pair::Af),
        Op::Push(Pair::De),
        Op::Push(Pair::Hl),
    ]
}

/// The address of the glyph goes into `DE`: eight bytes for each rank.
pub open spec fn find_glyph() -> Seq<Op> {
    seq![
        Op::Dec8(Reg8::A),
        Op::Ld8(Reg8::L, Reg8::A),
        Op::LdImm8(Reg8::H, 0x00),
        Op::Ld8(Reg8::A, Reg8::B),
        Op::AluReg(Alu::Or, Reg8::A),
        Op::JrCond(Cond::Z, Place::NoAdd),
        Op::LdImm16(Reg16::De, 250),
        Op::Mark(Place::AddLoop),
        Op::AddHl(Reg16::De),
        Op::Djnz(Place::AddLoop),
        Op::Mark(Place::NoAdd),
        Op::AddHl(Reg16::Hl),
        Op::AddHl(Reg16::Hl),
        Op::AddHl(Reg16::Hl),
        Op::LdImm16(Reg16::De, 0x4000),
        Op::AddHl(Reg16::De),
        Op::ExDeHl,
        Op::Pop(Pair::Hl),
    ]
}

/// The bank of glyphs comes into slot 1; the bank that was there goes onto the stack.
pub open spec fn select_bank() -> Seq<Op> {
    seq![
        Op::LdAFrom(0xFFFE),
        Op::Push(Pair::Af),
        Op::LdImm8(Reg8::A, 32),
        Op::LdToA(0xFFFE),
        Op::Push(Pair::Bc),
    ]
}

/// Everything is put back, and the handler returns; then comes the way of the game's own
/// glyphs, which does what the hook has replaced.
pub open spec fn restore_and_return() -> Seq<Op> {
    seq![
        Op::Pop(Pair::Bc),
        Op::Pop(Pair::Af),
        Op::LdToA(0xFFFE),
        Op::Pop(Pair::De),
        Op::Pop(Pair::Bc),
        Op::Ret,
        Op::Mark(Place::Orig),
        Op::Dec8(Reg8::A),
        Op::Push(Pair::De),
        Op::ExDeHl,
        Op::Jp(0x9A41),
    ]
}

/// The handler for several prefixes.
pub open spec fn multi_prefix_handler() -> Seq<Op> {
    prefix_entry() + split_prefix() + find_glyph() + select_bank() + glyph_rows()
        + restore_and_return()
}

/// The handler for several prefixes.
pub fn ko_prefix2_handler_program() -> (program: Vec<Op>)
    ensures
        program@ == multi_prefix_handler(),
{
    let mut list: Vec<Op> = vec![
        Op::AluImm(Alu::Cp, 0xA3),
        Op::JrCond(Cond::C, Place::Orig),
        Op::AluImm(Alu::Cp, 0xA7),
        Op::JrCond(Cond::Nc, Place::Orig),
        Op::AluImm(Alu::Sub, 0xA3),
        Op::Rlca,
        Op::Rlca,
        Op::Rlca,
        Op::Rlca,
        Op::Res(4, Reg8::C),
        Op::Res(5, Reg8::C),
        Op::AluReg(Alu::Or, Reg8::C),
        Op::Ld8(Reg8::C, Reg8::A),
        Op::LdADe,
        Op::Inc16(Reg16::De),
    ];
    proof {
        assert(list@ =~= prefix_entry());
    }
    let split: [Op; 15] = [
        Op::Push(Pair::Bc),
        Op::Push(Pair::Af),
        Op::Ld8(Reg8::A, Reg8::C),
        Op::AluImm(Alu::And, 0x30),
        Op::Rrca,
        Op::Rrca,
        Op::Rrca,
        Op::Rrca,
        Op::Ld8(Reg8::B, Reg8::A),
        Op::Ld8(Reg8::A, Reg8::C),
        Op::AluImm(Alu::And, 0x8F),
        Op::Ld8(Reg8::C, Reg8::A),
        Op::Pop(Pair::Af),
        Op::Push(Pair::De),
        Op::Push(Pair::Hl),
    ];
    proof {
        assert(split@ =~= split_prefix());
    }
    push_ops(&mut list, split.as_slice());
    let find: [Op; 18] = [
        Op::Dec8(Reg8::A),
        Op::Ld8(Reg8::L, Reg8::A),
        Op::LdImm8(Reg8::H, 0x00),
        Op::Ld8(Reg8::A, Reg8::B),
        Op::AluReg(Alu::Or, Reg8::A),
        Op::JrCond(Cond::Z, Place::NoAdd),
        Op::LdImm16(Reg16::De, 250),
        Op::Mark(Place::AddLoop),
        Op::AddHl(Reg16::De),
        Op::Djnz(Place::AddLoop),
        Op::Mark(Place::NoAdd),
        Op::AddHl(Reg16::Hl),
        Op::AddHl(Reg16::Hl),
        Op::AddHl(Reg16::Hl),
        Op::LdImm16(Reg16::De, KO_BANK_LOGICAL),
        Op::AddHl(Reg16::De),
        Op::ExDeHl,
        Op::Pop(Pair::Hl),
    ];
    proof {
        assert(find@ =~= find_glyph());
    }
    push_ops(&mut list, find.as_slice());
    let select: [Op; 5] = [
        Op::LdAFrom(KO_SLOT1_MAPPER),
        Op::Push(Pair::Af),
        Op::LdImm8(Reg8::A, KO_BANK_BANK),
        Op::LdToA(KO_SLOT1_MAPPER),
        Op::Push(Pair::Bc),
    ];
    proof {
        assert(select@ =~= select_bank());
    }
    push_ops(&mut list, select.as_slice());
    push_glyph_rows(&mut list);
    let restore: [Op; 11] = [
        Op::Pop(Pair::Bc),
        Op::Pop(Pair::Af),
        Op::LdToA(KO_SLOT1_MAPPER),
        Op::Pop(Pair::De),
        Op::Pop(Pair::Bc),
        Op::Ret,
        Op::Mark(Place::Orig),
        Op::Dec8(Reg8::A),
        Op::Push(Pair::De),
        Op::ExDeHl,
        Op::Jp(GLYPH_RENDER_CONT_LOGICAL),
    ];
    proof {
        assert(restore@ =~= restore_and_return());
    }
    push_ops(&mut list, restore.as_slice());
    list
}

/// The instruction that calls the handler.
pub fn ko_handler_call() -> (op: Op)
    ensures
        op == Op::Call(0xB726),
{
    Op::Call(KO_HANDLER_LOGICAL)
}

/// The instruction that jumps to the handler.
pub fn ko_handler_jump() -> (op: Op)
    ensures
        op == Op::Jp(0xB726),
{
    Op::Jp(KO_HANDLER_LOGICAL)
}

/// The instructions that ask for the moved interface graphics: the save button, and the
/// flee buttons.
pub fn asset_load_ops() -> (ops: (Op, Op))
    ensures
        ops == (Op::LdImm16(Reg16::Hl, 0x2C00), Op::LdImm16(Reg16::Hl, 0x2C01)),
{
    (
        Op::LdImm16(Reg16::Hl, SAVE_RELOC_ASSET_ID),
        Op::LdImm16(Reg16::Hl, FLEE_RELOC_ASSET_ID),
    )
}

/// Checks that an assembled handler fits in front of the relocated cutscene text.
pub fn check_handler_room(code: &[u8]) -> (res: Result<(), PatchError>)
    ensures
        match res {
            Ok(_) => code@.len() <= 0x100,
            Err(e) => code@.len() > 0x100 && e@ == plain(
                "한글 글리프 훅 핸들러가 예약 공간(256B)을 초과: "@ + dec(code@.len() as int) + "B"@,
            ),
        },
{
    if code.len() <= HANDLER_ROOM {
        Ok(())
    } else {
        Err(
            text("한글 글리프 훅 핸들러가 예약 공간(256B)을 초과: ").dec(code.len()).lit("B").fail(),
        )
    }
}

// ---------------------------------------------------------------------------
// Sizes
// ---------------------------------------------------------------------------

proof fn lemma_size_prefix(a: Seq<Op>, b: Seq<Op>, n: int)
    requires
        0 <= n <= a.len(),
    ensures
        code_size(a + b, n) == code_size(a, n),
    decreases n,
{
    if n > 0 {
        lemma_size_prefix(a, b, n - 1);
    }
}

proof fn lemma_size_joined(a: Seq<Op>, b: Seq<Op>, n: int)
    requires
        0 <= n <= b.len(),
    ensures
        code_size(a + b, a.len() + n) == program_size(a) + code_size(b, n),
    decreases n,
{
    if n > 0 {
        lemma_size_joined(a, b, n - 1);
        assert((a + b)[a.len() + n - 1] == b[n - 1]);
    } else {
        lemma_size_prefix(a, b, a.len() as int);
    }
}

/// The code of two programs one after the other is as long as both together.
pub proof fn law_sizes_add_up(a: Seq<Op>, b: Seq<Op>)
    ensures
        program_size(a + b) == program_size(a) + program_size(b),
{
    lemma_size_joined(a, b, b.len() as int);
    assert(a.len() + b.len() as int == (a + b).len());
}

proof fn lemma_plane_size(bit: u8)
    ensures
        program_size(plane_write(bit)) == 7,
{
    reveal_with_fuel(code_size, 6);
}

proof fn lemma_rows_size()
    ensures
        program_size(glyph_rows()) == 40,
{
    let start = seq![Op::LdImm8(Reg8::B, 8), Op::Mark(Place::Row), Op::LdADe];
    let full = seq![Op::LdImm8(Reg8::AtHl, 0xFF), Op::Inc16(Reg16::Hl)];
    let step = seq![Op::Inc16(Reg16::Hl)];
    let last = seq![Op::Inc16(Reg16::Hl), Op::Inc16(Reg16::De), Op::Djnz(Place::Row)];
    reveal_with_fuel(code_size, 4);
    assert(program_size(start) == 3);
    assert(program_size(full) == 3);
    assert(program_size(step) == 1);
    assert(program_size(last) == 4);
    lemma_plane_size(0);
    lemma_plane_size(1);
    lemma_plane_size(2);
    lemma_plane_size(3);
    let a = start + plane_write(0);
    law_sizes_add_up(start, plane_write(0));
    let b = a + full;
    law_sizes_add_up(a, full);
    let c = b + plane_write(1);
    law_sizes_add_up(b, plane_write(1));
    let d = c + step;
    law_sizes_add_up(c, step);
    let e = d + plane_write(2);
    law_sizes_add_up(d, plane_write(2));
    let f = e + step;
    law_sizes_add_up(e, step);
    let g = f + plane_write(3);
    law_sizes_add_up(f, plane_write(3));
    law_sizes_add_up(g, last);
}

/// The handler for one prefix takes 65 bytes.
pub proof fn law_single_prefix_handler_size()
    ensures
        program_size(single_prefix_handler()) == 65,
{
    let start = seq![
        Op::AluImm(Alu::Cp, 0xA3),
        Op::JpCond(Cond::Nz, 0x9A3E),
        Op::LdADe,
        Op::Inc16(Reg16::De),
        Op::Push(Pair::De),
        Op::Push(Pair::Hl),
        Op::Ld8(Reg8::L, Reg8::A),
        Op::LdImm8(Reg8::H, 0x00),
        Op::AddHl(Reg16::Hl),
        Op::AddHl(Reg16::Hl),
        Op::AddHl(Reg16::Hl),
        Op::LdImm16(Reg16::De, 0x4000),
        Op::AddHl(Reg16::De),
        Op::ExDeHl,
        Op::Pop(Pair::Hl),
        Op::Push(Pair::Bc),
    ];
    let last = seq![Op::Pop(Pair::Bc), Op::Pop(Pair::De), Op::Ret];
    reveal_with_fuel(code_size, 17);
    assert(program_size(start) == 22);
    assert(program_size(last) == 3);
    lemma_rows_size();
    law_sizes_add_up(start, glyph_rows());
    law_sizes_add_up(start + glyph_rows(), last);
}

/// The handler for several prefixes fits in front of the relocated cutscene text.
pub proof fn law_multi_prefix_handler_fits()
    ensures
        program_size(multi_prefix_handler()) <= 0x100,
{
    reveal_with_fuel(code_size, 19);
    assert(program_size(prefix_entry()) <= 40);
    assert(program_size(split_prefix()) <= 40);
    assert(program_size(find_glyph()) <= 40);
    assert(program_size(select_bank()) <= 20);
    assert(program_size(restore_and_return()) <= 20);
    lemma_rows_size();
    let a = prefix_entry() + split_prefix();
    law_sizes_add_up(prefix_entry(), split_prefix());
    let b = a + find_glyph();
    law_sizes_add_up(a, find_glyph());
    let c = b + select_bank();
    law_sizes_add_up(b, select_bank());
    let d = c + glyph_rows();
    law_sizes_add_up(c, glyph_rows());
    law_sizes_add_up(d, restore_and_return());
}

} // verus!
