//! What the glyph handlers do when the game runs them.
//!
//! The machine is modelled as far as the handlers use it: registers, two flags, the
//! stack, the memory that can be written, and the ROM behind the bank registers. The
//! stack is kept apart from the memory.
use vstd::prelude::*;
use crate::z80::{
    find_glyph, glyph_rows, multi_prefix_handler, prefix_entry, restore_and_return, select_bank,
    single_prefix_handler, split_prefix, Alu, Cond, Op, Pair, Place, Reg16, Reg8,
};

verus! {

// ---------------------------------------------------------------------------
// The machine
// ---------------------------------------------------------------------------

/// The state of the machine.
#[verifier::ext_equal]
pub struct Machine {
    pub a: u8,
    pub b: u8,
    pub c: u8,
    pub de: int,
    pub hl: int,
    pub zero: bool,
    pub carry: bool,
    /// What was pushed, the last on top.
    pub stack: Seq<int>,
    /// The memory from `0xC000` on, bank registers included.
    pub ram: Map<int, u8>,
    /// The ROM.
    pub rom: Seq<u8>,
}

impl Machine {
    /// The byte at an address.
    pub open spec fn peek(self, at: int) -> u8 {
        if at < 0x4000 {
            self.rom[at]
        } else if at < 0x8000 {
            self.rom[self.ram[0xFFFE] * 0x4000 + (at - 0x4000)]
        } else if at < 0xC000 {
            self.rom[self.ram[0xFFFF] * 0x4000 + (at - 0x8000)]
        } else {
            self.ram[at]
        }
    }

    /// The machine after a byte was written.
    pub open spec fn poke(self, at: int, v: u8) -> Machine {
        if at < 0xC000 {
            self
        } else {
            Machine { ram: self.ram.insert(at, v), ..self }
        }
    }

    /// The value of a register.
    pub open spec fn get(self, r: Reg8) -> u8 {
        match r {
            Reg8::A => self.a,
            Reg8::B => self.b,
            Reg8::C => self.c,
            Reg8::H => (self.hl / 256) as u8,
            Reg8::L => (self.hl % 256) as u8,
            Reg8::AtHl => self.peek(self.hl),
        }
    }

    /// The machine with another value in a register.
    pub open spec fn set(self, r: Reg8, v: u8) -> Machine {
        match r {
            Reg8::A => Machine { a: v, ..self },
            Reg8::B => Machine { b: v, ..self },
            Reg8::C => Machine { c: v, ..self },
            Reg8::H => Machine { hl: v * 256 + self.hl % 256, ..self },
            Reg8::L => Machine { hl: self.hl / 256 * 256 + v, ..self },
            Reg8::AtHl => self.poke(self.hl, v),
        }
    }

    /// The value of a pair of registers.
    pub open spec fn get16(self, r: Reg16) -> int {
        match r {
            Reg16::De => self.de,
            Reg16::Hl => self.hl,
        }
    }

    /// The machine with another value in a pair of registers.
    pub open spec fn set16(self, r: Reg16, v: int) -> Machine {
        match r {
            Reg16::De => Machine { de: v, ..self },
            Reg16::Hl => Machine { hl: v, ..self },
        }
    }

    /// The flags as a byte.
    pub open spec fn flags(self) -> int {
        (if self.zero {
            0x40int
        } else {
            0
        }) + (if self.carry {
            1int
        } else {
            0
        })
    }

    /// What a push puts on the stack.
    pub open spec fn pair(self, p: Pair) -> int {
        match p {
            Pair::Af => self.a * 256 + self.flags(),
            Pair::Bc => self.b * 256 + self.c,
            Pair::De => self.de,
            Pair::Hl => self.hl,
        }
    }

    /// The machine with a pair of registers from the stack.
    pub open spec fn with_pair(self, p: Pair, v: int) -> Machine {
        match p {
            Pair::Af => Machine {
                a: (v / 256) as u8,
                zero: v % 256 / 0x40 % 2 == 1,
                carry: v % 2 == 1,
                ..self
            },
            Pair::Bc => Machine { b: (v / 256) as u8, c: (v % 256) as u8, ..self },
            Pair::De => Machine { de: v, ..self },
            Pair::Hl => Machine { hl: v, ..self },
        }
    }

    /// The machine after an operation on the accumulator.
    pub open spec fn alu(self, op: Alu, n: u8) -> Machine {
        match op {
            Alu::Sub => Machine {
                a: ((self.a - n) % 256) as u8,
                zero: self.a == n,
                carry: self.a < n,
                ..self
            },
            Alu::Cp => Machine { zero: self.a == n, carry: self.a < n, ..self },
            Alu::And => Machine { a: self.a & n, zero: self.a & n == 0, carry: false, ..self },
            Alu::Or => Machine { a: self.a | n, zero: self.a | n == 0, carry: false, ..self },
        }
    }

    /// Whether a condition holds.
    pub open spec fn holds(self, c: Cond) -> bool {
        match c {
            Cond::Nz => !self.zero,
            Cond::Z => self.zero,
            Cond::Nc => !self.carry,
            Cond::C => self.carry,
        }
    }
}

/// The value of a bit.
pub open spec fn bit(v: u8, n: u8) -> bool {
    v & (1u8 << n) != 0
}

/// The machine after an instruction, but for where it goes on.
pub open spec fn effect(op: Op, m: Machine) -> Machine {
    match op {
        Op::AluImm(op, n) => m.alu(op, n),
        Op::AluReg(op, r) => m.alu(op, m.get(r)),
        Op::LdADe => Machine { a: m.peek(m.de), ..m },
        Op::LdAFrom(at) => Machine { a: m.peek(at as int), ..m },
        Op::LdToA(at) => m.poke(at as int, m.a),
        Op::Ld8(to, from) => m.set(to, m.get(from)),
        Op::LdImm8(to, n) => m.set(to, n),
        Op::LdImm16(to, n) => m.set16(to, n as int),
        Op::Inc16(r) => m.set16(r, (m.get16(r) + 1) % 0x10000),
        Op::Dec8(r) => {
            let v = ((m.get(r) - 1) % 256) as u8;
            Machine { zero: v == 0, ..m.set(r, v) }
        },
        Op::AddHl(r) => {
            let sum = m.hl + m.get16(r);
            Machine { hl: sum % 0x10000, carry: sum >= 0x10000, ..m }
        },
        Op::ExDeHl => Machine { de: m.hl, hl: m.de, ..m },
        Op::Push(p) => Machine { stack: m.stack.push(m.pair(p)), ..m },
        Op::Pop(p) => Machine { stack: m.stack.drop_last(), ..m }.with_pair(p, m.stack.last()),
        Op::Rlca => Machine {
            a: (m.a * 2 % 256 + m.a / 128) as u8,
            carry: m.a >= 128,
            ..m
        },
        Op::Rrca => Machine { a: (m.a / 2 + m.a % 2 * 128) as u8, carry: m.a % 2 == 1, ..m },
        Op::Bit(n, r) => Machine { zero: !bit(m.get(r), n), ..m },
        Op::Res(n, r) => m.set(r, m.get(r) & !(1u8 << n)),
        Op::Djnz(_) => Machine { b: ((m.b - 1) % 256) as u8, ..m },
        Op::JpCond(_, _) | Op::Jp(_) | Op::Call(_) | Op::Ret | Op::Mark(_) | Op::JrCond(_, _) => m,
    }
}

/// Where a program is: at an instruction, back at its caller, or at an address outside.
pub enum At {
    Pc(int),
    Returned,
    Outside(u16),
}

/// The last mark of a place among the first `n` instructions.
pub open spec fn mark_of(ops: Seq<Op>, place: Place, n: int) -> Option<int>
    decreases n,
{
    if n <= 0 {
        None
    } else if ops[n - 1] == Op::Mark(place) {
        Some(n - 1)
    } else {
        mark_of(ops, place, n - 1)
    }
}

/// Where a program goes on after an instruction.
pub open spec fn next(ops: Seq<Op>, pc: int, m: Machine) -> At {
    match ops[pc] {
        Op::Jp(to) => At::Outside(to),
        Op::JpCond(c, to) => if m.holds(c) {
            At::Outside(to)
        } else {
            At::Pc(pc + 1)
        },
        Op::Call(to) => At::Outside(to),
        Op::Ret => At::Returned,
        Op::JrCond(c, place) => if m.holds(c) {
            At::Pc(mark_of(ops, place, ops.len() as int)->0)
        } else {
            At::Pc(pc + 1)
        },
        Op::Djnz(place) => if m.b != 1 {
            At::Pc(mark_of(ops, place, ops.len() as int)->0)
        } else {
            At::Pc(pc + 1)
        },
        _ => At::Pc(pc + 1),
    }
}

/// The machine and the place after `n` instructions.
pub open spec fn run(ops: Seq<Op>, at: At, m: Machine, n: nat) -> (At, Machine)
    decreases n,
{
    if n == 0 {
        (at, m)
    } else {
        match at {
            At::Pc(pc) => run(ops, next(ops, pc, m), effect(ops[pc], m), (n - 1) as nat),
            _ => (at, m),
        }
    }
}

/// A run goes on where an earlier part of it has come to.
pub proof fn law_runs_join(ops: Seq<Op>, at: At, m: Machine, n: nat, k: nat)
    ensures
        run(ops, at, m, n + k) == run(ops, run(ops, at, m, n).0, run(ops, at, m, n).1, k),
    decreases n,
{
    if n > 0 {
        match at {
            At::Pc(pc) => {
                law_runs_join(
                    ops,
                    next(ops, pc, m),
                    effect(ops[pc], m),
                    (n - 1) as nat,
                    k,
                );
                assert((n + k - 1) as nat == (n - 1) as nat + k);
            },
            _ => {},
        }
    }
}

/// Whether a part of a program stands at a place.
pub open spec fn stands_at(ops: Seq<Op>, at: int, seg: Seq<Op>) -> bool {
    &&& 0 <= at
    &&& at + seg.len() <= ops.len()
    &&& forall|i: int| 0 <= i < seg.len() ==> ops[at + i] == #[trigger] seg[i]
}

proof fn lemma_one_step(ops: Seq<Op>, pc: int, m: Machine)
    ensures
        run(ops, At::Pc(pc), m, 1) == (next(ops, pc, m), effect(ops[pc], m)),
{
    reveal_with_fuel(run, 2);
}

// ---------------------------------------------------------------------------
// The layout of the handler
// ---------------------------------------------------------------------------

proof fn lemma_mark_front(a: Seq<Op>, b: Seq<Op>, place: Place, n: int)
    requires
        n <= a.len(),
    ensures
        mark_of(a + b, place, n) == mark_of(a, place, n),
    decreases n,
{
    if n > 0 {
        lemma_mark_front(a, b, place, n - 1);
    }
}

proof fn lemma_mark_joined(a: Seq<Op>, b: Seq<Op>, place: Place, n: int)
    requires
        0 <= n <= b.len(),
    ensures
        mark_of(a + b, place, a.len() + n) == match mark_of(b, place, n) {
            Some(i) => Some(a.len() + i),
            None => mark_of(a, place, a.len() as int),
        },
    decreases n,
{
    if n > 0 {
        lemma_mark_joined(a, b, place, n - 1);
        assert((a + b)[a.len() + n - 1] == b[n - 1]);
    } else {
        lemma_mark_front(a, b, place, a.len() as int);
    }
}

proof fn lemma_mark(a: Seq<Op>, b: Seq<Op>, place: Place)
    ensures
        mark_of(a + b, place, (a + b).len() as int) == match mark_of(b, place, b.len() as int) {
            Some(i) => Some(a.len() + i),
            None => mark_of(a, place, a.len() as int),
        },
{
    lemma_mark_joined(a, b, place, b.len() as int);
    assert((a + b).len() == a.len() + b.len());
}

/// The instructions of a glyph row, one by one.
pub open spec fn row_ops() -> Seq<Op> {
    seq![
        Op::LdImm8(Reg8::B, 8),
        Op::Mark(Place::Row),
        Op::LdADe,
        Op::LdImm8(Reg8::AtHl, 0x00),
        Op::Bit(0, Reg8::C),
        Op::JrCond(Cond::Z, Place::PlaneSkip(0)),
        Op::Ld8(Reg8::AtHl, Reg8::A),
        Op::Mark(Place::PlaneSkip(0)),
        Op::LdImm8(Reg8::AtHl, 0xFF),
        Op::Inc16(Reg16::Hl),
        Op::LdImm8(Reg8::AtHl, 0x00),
        Op::Bit(1, Reg8::C),
        Op::JrCond(Cond::Z, Place::PlaneSkip(1)),
        Op::Ld8(Reg8::AtHl, Reg8::A),
        Op::Mark(Place::PlaneSkip(1)),
        Op::Inc16(Reg16::Hl),
        Op::LdImm8(Reg8::AtHl, 0x00),
        Op::Bit(2, Reg8::C),
        Op::JrCond(Cond::Z, Place::PlaneSkip(2)),
        Op::Ld8(Reg8::AtHl, Reg8::A),
        Op::Mark(Place::PlaneSkip(2)),
        Op::Inc16(Reg16::Hl),
        Op::LdImm8(Reg8::AtHl, 0x00),
        Op::Bit(3, Reg8::C),
        Op::JrCond(Cond::Z, Place::PlaneSkip(3)),
        Op::Ld8(Reg8::AtHl, Reg8::A),
        Op::Mark(Place::PlaneSkip(3)),
        Op::Inc16(Reg16::Hl),
        Op::Inc16(Reg16::De),
        Op::Djnz(Place::Row),
    ]
}

proof fn lemma_row_ops()
    ensures
        glyph_rows() == row_ops(),
        row_ops().len() == 30,
{
    assert(glyph_rows() =~= row_ops());
}

proof fn lemma_row_marks(place: Place)
    ensures
        mark_of(row_ops(), place, 30) == match place {
            Place::Row => Some(1int),
            Place::PlaneSkip(b) => if b == 0 {
                Some(7int)
            } else if b == 1 {
                Some(14int)
            } else if b == 2 {
                Some(20int)
            } else if b == 3 {
                Some(26int)
            } else {
                None
            },
            _ => None,
        },
{
    reveal_with_fuel(mark_of, 31);
}

proof fn lemma_other_marks(place: Place)
    ensures
        mark_of(prefix_entry(), place, 15) is None,
        mark_of(split_prefix(), place, 15) is None,
        mark_of(select_bank(), place, 5) is None,
        mark_of(restore_and_return(), place, 11) == if place == Place::Orig {
            Some(6int)
        } else {
            None
        },
        mark_of(find_glyph(), place, 18) == if place == Place::AddLoop {
            Some(7int)
        } else if place == Place::NoAdd {
            Some(10int)
        } else {
            None
        },
{
    reveal_with_fuel(mark_of, 19);
}

/// Where the parts of the handler stand.
proof fn lemma_layout()
    ensures
        multi_prefix_handler().len() == 94,
        stands_at(multi_prefix_handler(), 0, prefix_entry()),
        stands_at(multi_prefix_handler(), 15, split_prefix()),
        stands_at(multi_prefix_handler(), 30, find_glyph()),
        stands_at(multi_prefix_handler(), 48, select_bank()),
        stands_at(multi_prefix_handler(), 53, row_ops()),
        stands_at(multi_prefix_handler(), 83, restore_and_return()),
{
    lemma_row_ops();
    let ops = multi_prefix_handler();
    let a = prefix_entry() + split_prefix();
    let b = a + find_glyph();
    let c = b + select_bank();
    let d = c + glyph_rows();
    assert(ops == d + restore_and_return());
    assert(forall|i: int| 0 <= i < 83 ==> ops[i] == #[trigger] d[i]);
    assert(forall|i: int| 0 <= i < 53 ==> d[i] == #[trigger] c[i]);
    assert(forall|i: int| 0 <= i < 48 ==> c[i] == #[trigger] b[i]);
    assert(forall|i: int| 0 <= i < 30 ==> b[i] == #[trigger] a[i]);
    assert forall|i: int| 0 <= i < 15 implies ops[0 + i] == #[trigger] prefix_entry()[i] by {
        assert(a[i] == prefix_entry()[i]);
    }
    assert forall|i: int| 0 <= i < 15 implies ops[15 + i] == #[trigger] split_prefix()[i] by {
        assert(a[15 + i] == split_prefix()[i]);
    }
    assert forall|i: int| 0 <= i < 18 implies ops[30 + i] == #[trigger] find_glyph()[i] by {
        assert(b[30 + i] == find_glyph()[i]);
    }
    assert forall|i: int| 0 <= i < 5 implies ops[48 + i] == #[trigger] select_bank()[i] by {
        assert(c[48 + i] == select_bank()[i]);
    }
    assert forall|i: int| 0 <= i < 30 implies ops[53 + i] == #[trigger] row_ops()[i] by {
        assert(d[53 + i] == glyph_rows()[i]);
    }
    assert forall|i: int| 0 <= i < 11 implies ops[83 + i] == #[trigger] restore_and_return()[i] by {
        assert(ops[83 + i] == restore_and_return()[i]);
    }
}

/// Where the marks of the handler stand.
proof fn lemma_marks(place: Place)
    ensures
        mark_of(multi_prefix_handler(), place, 94) == match place {
            Place::Row => Some(54int),
            Place::Orig => Some(89int),
            Place::AddLoop => Some(37int),
            Place::NoAdd => Some(40int),
            Place::PlaneSkip(b) => if b == 0 {
                Some(60int)
            } else if b == 1 {
                Some(67int)
            } else if b == 2 {
                Some(73int)
            } else if b == 3 {
                Some(79int)
            } else {
                None
            },
        },
{
    lemma_row_ops();
    lemma_row_marks(place);
    lemma_other_marks(place);
    lemma_mark_of_parts(
        prefix_entry(),
        split_prefix(),
        find_glyph(),
        select_bank(),
        glyph_rows(),
        restore_and_return(),
        place,
    );
}

proof fn lemma_mark_of_parts(
    entry: Seq<Op>,
    split: Seq<Op>,
    find: Seq<Op>,
    select: Seq<Op>,
    rows: Seq<Op>,
    restore: Seq<Op>,
    place: Place,
)
    requires
        entry.len() == 15,
        split.len() == 15,
        find.len() == 18,
        select.len() == 5,
        rows.len() == 30,
        restore.len() == 11,
        mark_of(entry, place, 15) is None,
        mark_of(split, place, 15) is None,
        mark_of(select, place, 5) is None,
    ensures
        mark_of(entry + split + find + select + rows + restore, place, 94) == match mark_of(
            restore,
            place,
            11,
        ) {
            Some(i) => Some(83 + i),
            None => match mark_of(rows, place, 30) {
                Some(i) => Some(53 + i),
                None => match mark_of(find, place, 18) {
                    Some(i) => Some(30 + i),
                    None => None,
                },
            },
        },
{
    let a = entry + split;
    let b = a + find;
    let c = b + select;
    let d = c + rows;
    lemma_mark(entry, split, place);
    lemma_mark(a, find, place);
    lemma_mark(b, select, place);
    lemma_mark(c, rows, place);
    lemma_mark(d, restore, place);
}

/// The start of the handler, instruction by instruction.
pub open spec fn entry_at(ops: Seq<Op>) -> bool {
    &&& ops[0] == Op::AluImm(Alu::Cp, 0xA3)
    &&& ops[1] == Op::JrCond(Cond::C, Place::Orig)
    &&& ops[2] == Op::AluImm(Alu::Cp, 0xA7)
    &&& ops[3] == Op::JrCond(Cond::Nc, Place::Orig)
    &&& ops[4] == Op::AluImm(Alu::Sub, 0xA3)
    &&& ops[5] == Op::Rlca
    &&& ops[6] == Op::Rlca
    &&& ops[7] == Op::Rlca
    &&& ops[8] == Op::Rlca
    &&& ops[9] == Op::Res(4, Reg8::C)
    &&& ops[10] == Op::Res(5, Reg8::C)
    &&& ops[11] == Op::AluReg(Alu::Or, Reg8::C)
    &&& ops[12] == Op::Ld8(Reg8::C, Reg8::A)
    &&& ops[13] == Op::LdADe
    &&& ops[14] == Op::Inc16(Reg16::De)
}

proof fn lemma_entry_at(ops: Seq<Op>)
    requires
        stands_at(ops, 0, prefix_entry()),
    ensures
        entry_at(ops),
{
    let seg = prefix_entry();
    assert(ops[0] == seg[0]);
    assert(ops[1] == seg[1]);
    assert(ops[2] == seg[2]);
    assert(ops[3] == seg[3]);
    assert(ops[4] == seg[4]);
    assert(ops[5] == seg[5]);
    assert(ops[6] == seg[6]);
    assert(ops[7] == seg[7]);
    assert(ops[8] == seg[8]);
    assert(ops[9] == seg[9]);
    assert(ops[10] == seg[10]);
    assert(ops[11] == seg[11]);
    assert(ops[12] == seg[12]);
    assert(ops[13] == seg[13]);
    assert(ops[14] == seg[14]);
}

/// How the handler splits the prefix off, instruction by instruction.
pub open spec fn split_at(ops: Seq<Op>) -> bool {
    &&& ops[15] == Op::Push(Pair::Bc)
    &&& ops[16] == Op::Push(Pair::Af)
    &&& ops[17] == Op::Ld8(Reg8::A, Reg8::C)
    &&& ops[18] == Op::AluImm(Alu::And, 0x30)
    &&& ops[19] == Op::Rrca
    &&& ops[20] == Op::Rrca
    &&& ops[21] == Op::Rrca
    &&& ops[22] == Op::Rrca
    &&& ops[23] == Op::Ld8(Reg8::B, Reg8::A)
    &&& ops[24] == Op::Ld8(Reg8::A, Reg8::C)
    &&& ops[25] == Op::AluImm(Alu::And, 0x8F)
    &&& ops[26] == Op::Ld8(Reg8::C, Reg8::A)
    &&& ops[27] == Op::Pop(Pair::Af)
    &&& ops[28] == Op::Push(Pair::De)
    &&& ops[29] == Op::Push(Pair::Hl)
}

proof fn lemma_split_at(ops: Seq<Op>)
    requires
        stands_at(ops, 15, split_prefix()),
    ensures
        split_at(ops),
{
    let seg = split_prefix();
    assert(ops[15] == seg[0]);
    assert(ops[16] == seg[1]);
    assert(ops[17] == seg[2]);
    assert(ops[18] == seg[3]);
    assert(ops[19] == seg[4]);
    assert(ops[20] == seg[5]);
    assert(ops[21] == seg[6]);
    assert(ops[22] == seg[7]);
    assert(ops[23] == seg[8]);
    assert(ops[24] == seg[9]);
    assert(ops[25] == seg[10]);
    assert(ops[26] == seg[11]);
    assert(ops[27] == seg[12]);
    assert(ops[28] == seg[13]);
    assert(ops[29] == seg[14]);
}

/// How the handler finds the glyph, instruction by instruction.
pub open spec fn find_at(ops: Seq<Op>) -> bool {
    &&& ops[30] == Op::Dec8(Reg8::A)
    &&& ops[31] == Op::Ld8(Reg8::L, Reg8::A)
    &&& ops[32] == Op::LdImm8(Reg8::H, 0x00)
    &&& ops[33] == Op::Ld8(Reg8::A, Reg8::B)
    &&& ops[34] == Op::AluReg(Alu::Or, Reg8::A)
    &&& ops[35] == Op::JrCond(Cond::Z, Place::NoAdd)
    &&& ops[36] == Op::LdImm16(Reg16::De, 250)
    &&& ops[37] == Op::Mark(Place::AddLoop)
    &&& ops[38] == Op::AddHl(Reg16::De)
    &&& ops[39] == Op::Djnz(Place::AddLoop)
    &&& ops[40] == Op::Mark(Place::NoAdd)
    &&& ops[41] == Op::AddHl(Reg16::Hl)
    &&& ops[42] == Op::AddHl(Reg16::Hl)
    &&& ops[43] == Op::AddHl(Reg16::Hl)
    &&& ops[44] == Op::LdImm16(Reg16::De, 0x4000)
    &&& ops[45] == Op::AddHl(Reg16::De)
    &&& ops[46] == Op::ExDeHl
    &&& ops[47] == Op::Pop(Pair::Hl)
}

proof fn lemma_find_at(ops: Seq<Op>)
    requires
        stands_at(ops, 30, find_glyph()),
    ensures
        find_at(ops),
{
    let seg = find_glyph();
    assert(ops[30] == seg[0]);
    assert(ops[31] == seg[1]);
    assert(ops[32] == seg[2]);
    assert(ops[33] == seg[3]);
    assert(ops[34] == seg[4]);
    assert(ops[35] == seg[5]);
    assert(ops[36] == seg[6]);
    assert(ops[37] == seg[7]);
    assert(ops[38] == seg[8]);
    assert(ops[39] == seg[9]);
    assert(ops[40] == seg[10]);
    assert(ops[41] == seg[11]);
    assert(ops[42] == seg[12]);
    assert(ops[43] == seg[13]);
    assert(ops[44] == seg[14]);
    assert(ops[45] == seg[15]);
    assert(ops[46] == seg[16]);
    assert(ops[47] == seg[17]);
}

/// How the handler selects the bank, instruction by instruction.
pub open spec fn select_at(ops: Seq<Op>) -> bool {
    &&& ops[48] == Op::LdAFrom(0xFFFE)
    &&& ops[49] == Op::Push(Pair::Af)
    &&& ops[50] == Op::LdImm8(Reg8::A, 32)
    &&& ops[51] == Op::LdToA(0xFFFE)
    &&& ops[52] == Op::Push(Pair::Bc)
}

proof fn lemma_select_at(ops: Seq<Op>)
    requires
        stands_at(ops, 48, select_bank()),
    ensures
        select_at(ops),
{
    let seg = select_bank();
    assert(ops[48] == seg[0]);
    assert(ops[49] == seg[1]);
    assert(ops[50] == seg[2]);
    assert(ops[51] == seg[3]);
    assert(ops[52] == seg[4]);
}

/// How the handler draws rows, instruction by instruction.
pub open spec fn rows_at(ops: Seq<Op>, p: int) -> bool {
    &&& 0 <= p
    &&& p + 30 <= ops.len()
    &&& ops[p] == Op::LdImm8(Reg8::B, 8)
    &&& ops[p + 1] == Op::Mark(Place::Row)
    &&& ops[p + 2] == Op::LdADe
    &&& ops[p + 3] == Op::LdImm8(Reg8::AtHl, 0x00)
    &&& ops[p + 4] == Op::Bit(0, Reg8::C)
    &&& ops[p + 5] == Op::JrCond(Cond::Z, Place::PlaneSkip(0))
    &&& ops[p + 6] == Op::Ld8(Reg8::AtHl, Reg8::A)
    &&& ops[p + 7] == Op::Mark(Place::PlaneSkip(0))
    &&& ops[p + 8] == Op::LdImm8(Reg8::AtHl, 0xFF)
    &&& ops[p + 9] == Op::Inc16(Reg16::Hl)
    &&& ops[p + 10] == Op::LdImm8(Reg8::AtHl, 0x00)
    &&& ops[p + 11] == Op::Bit(1, Reg8::C)
    &&& ops[p + 12] == Op::JrCond(Cond::Z, Place::PlaneSkip(1))
    &&& ops[p + 13] == Op::Ld8(Reg8::AtHl, Reg8::A)
    &&& ops[p + 14] == Op::Mark(Place::PlaneSkip(1))
    &&& ops[p + 15] == Op::Inc16(Reg16::Hl)
    &&& ops[p + 16] == Op::LdImm8(Reg8::AtHl, 0x00)
    &&& ops[p + 17] == Op::Bit(2, Reg8::C)
    &&& ops[p + 18] == Op::JrCond(Cond::Z, Place::PlaneSkip(2))
    &&& ops[p + 19] == Op::Ld8(Reg8::AtHl, Reg8::A)
    &&& ops[p + 20] == Op::Mark(Place::PlaneSkip(2))
    &&& ops[p + 21] == Op::Inc16(Reg16::Hl)
    &&& ops[p + 22] == Op::LdImm8(Reg8::AtHl, 0x00)
    &&& ops[p + 23] == Op::Bit(3, Reg8::C)
    &&& ops[p + 24] == Op::JrCond(Cond::Z, Place::PlaneSkip(3))
    &&& ops[p + 25] == Op::Ld8(Reg8::AtHl, Reg8::A)
    &&& ops[p + 26] == Op::Mark(Place::PlaneSkip(3))
    &&& ops[p + 27] == Op::Inc16(Reg16::Hl)
    &&& ops[p + 28] == Op::Inc16(Reg16::De)
    &&& ops[p + 29] == Op::Djnz(Place::Row)
}

proof fn lemma_rows_at(ops: Seq<Op>, p: int)
    requires
        stands_at(ops, p, row_ops()),
    ensures
        rows_at(ops, p),
{
    let seg = row_ops();
    assert(seg.len() == 30);
    assert(ops[p + 0] == seg[0]);
    assert(ops[p + 1] == seg[1]);
    assert(ops[p + 2] == seg[2]);
    assert(ops[p + 3] == seg[3]);
    assert(ops[p + 4] == seg[4]);
    assert(ops[p + 5] == seg[5]);
    assert(ops[p + 6] == seg[6]);
    assert(ops[p + 7] == seg[7]);
    assert(ops[p + 8] == seg[8]);
    assert(ops[p + 9] == seg[9]);
    assert(ops[p + 10] == seg[10]);
    assert(ops[p + 11] == seg[11]);
    assert(ops[p + 12] == seg[12]);
    assert(ops[p + 13] == seg[13]);
    assert(ops[p + 14] == seg[14]);
    assert(ops[p + 15] == seg[15]);
    assert(ops[p + 16] == seg[16]);
    assert(ops[p + 17] == seg[17]);
    assert(ops[p + 18] == seg[18]);
    assert(ops[p + 19] == seg[19]);
    assert(ops[p + 20] == seg[20]);
    assert(ops[p + 21] == seg[21]);
    assert(ops[p + 22] == seg[22]);
    assert(ops[p + 23] == seg[23]);
    assert(ops[p + 24] == seg[24]);
    assert(ops[p + 25] == seg[25]);
    assert(ops[p + 26] == seg[26]);
    assert(ops[p + 27] == seg[27]);
    assert(ops[p + 28] == seg[28]);
    assert(ops[p + 29] == seg[29]);
}

/// The places of the marks of glyph rows that start at `p`.
pub open spec fn row_marks_at(ops: Seq<Op>, p: int) -> bool {
    let n = ops.len() as int;
    &&& mark_of(ops, Place::Row, n) == Some(p + 1)
    &&& mark_of(ops, Place::PlaneSkip(0), n) == Some(p + 7)
    &&& mark_of(ops, Place::PlaneSkip(1), n) == Some(p + 14)
    &&& mark_of(ops, Place::PlaneSkip(2), n) == Some(p + 20)
    &&& mark_of(ops, Place::PlaneSkip(3), n) == Some(p + 26)
}

/// The end of the handler, instruction by instruction.
pub open spec fn tail_at(ops: Seq<Op>) -> bool {
    &&& ops[83] == Op::Pop(Pair::Bc)
    &&& ops[84] == Op::Pop(Pair::Af)
    &&& ops[85] == Op::LdToA(0xFFFE)
    &&& ops[86] == Op::Pop(Pair::De)
    &&& ops[87] == Op::Pop(Pair::Bc)
    &&& ops[88] == Op::Ret
    &&& ops[89] == Op::Mark(Place::Orig)
    &&& ops[90] == Op::Dec8(Reg8::A)
    &&& ops[91] == Op::Push(Pair::De)
    &&& ops[92] == Op::ExDeHl
    &&& ops[93] == Op::Jp(0x9A41)
}

proof fn lemma_tail_at(ops: Seq<Op>)
    requires
        stands_at(ops, 83, restore_and_return()),
    ensures
        tail_at(ops),
{
    let seg = restore_and_return();
    assert(ops[83] == seg[0]);
    assert(ops[84] == seg[1]);
    assert(ops[85] == seg[2]);
    assert(ops[86] == seg[3]);
    assert(ops[87] == seg[4]);
    assert(ops[88] == seg[5]);
    assert(ops[89] == seg[6]);
    assert(ops[90] == seg[7]);
    assert(ops[91] == seg[8]);
    assert(ops[92] == seg[9]);
    assert(ops[93] == seg[10]);
}

/// The places of the handler's marks.
pub open spec fn marks_at(ops: Seq<Op>) -> bool {
    &&& ops.len() == 94
    &&& mark_of(ops, Place::Row, 94) == Some(54int)
    &&& mark_of(ops, Place::Orig, 94) == Some(89int)
    &&& mark_of(ops, Place::AddLoop, 94) == Some(37int)
    &&& mark_of(ops, Place::NoAdd, 94) == Some(40int)
    &&& mark_of(ops, Place::PlaneSkip(0), 94) == Some(60int)
    &&& mark_of(ops, Place::PlaneSkip(1), 94) == Some(67int)
    &&& mark_of(ops, Place::PlaneSkip(2), 94) == Some(73int)
    &&& mark_of(ops, Place::PlaneSkip(3), 94) == Some(79int)
}

proof fn lemma_marks_at()
    ensures
        marks_at(multi_prefix_handler()),
{
    lemma_layout();
    lemma_marks(Place::Row);
    lemma_marks(Place::Orig);
    lemma_marks(Place::AddLoop);
    lemma_marks(Place::NoAdd);
    lemma_marks(Place::PlaneSkip(0));
    lemma_marks(Place::PlaneSkip(1));
    lemma_marks(Place::PlaneSkip(2));
    lemma_marks(Place::PlaneSkip(3));
}

/// Whether a program is the handler, instruction by instruction.
pub open spec fn is_handler(ops: Seq<Op>) -> bool {
    &&& marks_at(ops)
    &&& entry_at(ops)
    &&& split_at(ops)
    &&& find_at(ops)
    &&& select_at(ops)
    &&& rows_at(ops, 53)
    &&& tail_at(ops)
}

proof fn lemma_is_handler()
    ensures
        is_handler(multi_prefix_handler()),
{
    let ops = multi_prefix_handler();
    lemma_marks_at();
    lemma_layout();
    lemma_entry_at(ops);
    lemma_split_at(ops);
    lemma_find_at(ops);
    lemma_select_at(ops);
    lemma_rows_at(ops, 53);
    lemma_tail_at(ops);
}

/// Two runs one after the other.
proof fn lemma_join(
    ops: Seq<Op>,
    at: At,
    m: Machine,
    n: nat,
    at1: At,
    m1: Machine,
    k: nat,
    at2: At,
    m2: Machine,
)
    requires
        run(ops, at, m, n) == (at1, m1),
        run(ops, at1, m1, k) == (at2, m2),
    ensures
        run(ops, at, m, n + k) == (at2, m2),
{
    law_runs_join(ops, at, m, n, k);
}

// ---------------------------------------------------------------------------
// Other codes
// ---------------------------------------------------------------------------

proof fn lemma_pass_through(ops: Seq<Op>, m: Machine)
    requires
        tail_at(ops),
    ensures
        run(ops, At::Pc(89), m, 5) == (
            At::Outside(0x9A41),
            effect(
                Op::ExDeHl,
                effect(Op::Push(Pair::De), effect(Op::Dec8(Reg8::A), m)),
            ),
        ),
{
    let m1 = effect(Op::Dec8(Reg8::A), m);
    let m2 = effect(Op::Push(Pair::De), m1);
    let m3 = effect(Op::ExDeHl, m2);
    lemma_one_step(ops, 89, m);
    lemma_one_step(ops, 90, m);
    lemma_one_step(ops, 91, m1);
    lemma_one_step(ops, 92, m2);
    lemma_one_step(ops, 93, m3);
    law_runs_join(ops, At::Pc(89), m, 1, 1);
    law_runs_join(ops, At::Pc(89), m, 2, 1);
    law_runs_join(ops, At::Pc(89), m, 3, 1);
    law_runs_join(ops, At::Pc(89), m, 4, 1);
}

/// How many instructions the handler takes for a code that is no prefix.
pub open spec fn pass_steps(a: u8) -> nat {
    if a < 0xA3 {
        7
    } else {
        9
    }
}

/// For a code that is no prefix the handler does what the hook has replaced, decrement,
/// push and exchange, and goes on in the game's own renderer behind it. Only the carry
/// flag may differ.
pub proof fn law_other_codes_pass_through(m: Machine)
    requires
        m.a < 0xA3 || m.a >= 0xA7,
    ensures
        run(multi_prefix_handler(), At::Pc(0), m, pass_steps(m.a)) == (
            At::Outside(0x9A41),
            effect(
                Op::ExDeHl,
                effect(
                    Op::Push(Pair::De),
                    effect(Op::Dec8(Reg8::A), Machine { carry: m.a < 0xA3, ..m }),
                ),
            ),
        ),
{
    lemma_is_handler();
    lemma_other_codes(multi_prefix_handler(), m);
}

proof fn lemma_other_codes(ops: Seq<Op>, m: Machine)
    requires
        marks_at(ops),
        entry_at(ops),
        tail_at(ops),
        m.a < 0xA3 || m.a >= 0xA7,
    ensures
        run(ops, At::Pc(0), m, pass_steps(m.a)) == (
            At::Outside(0x9A41),
            effect(
                Op::ExDeHl,
                effect(
                    Op::Push(Pair::De),
                    effect(Op::Dec8(Reg8::A), Machine { carry: m.a < 0xA3, ..m }),
                ),
            ),
        ),
{
    let m1 = effect(ops[0], m);
    lemma_one_step(ops, 0, m);
    lemma_one_step(ops, 1, m1);
    law_runs_join(ops, At::Pc(0), m, 1, 1);
    let plain = Machine { carry: m.a < 0xA3, ..m };
    if m.a < 0xA3 {
        lemma_pass_through(ops, m1);
        law_runs_join(ops, At::Pc(0), m, 2, 5);
        assert(effect(Op::Dec8(Reg8::A), m1) == effect(Op::Dec8(Reg8::A), plain));
    } else {
        let m2 = effect(ops[2], m1);
        lemma_one_step(ops, 2, m1);
        lemma_one_step(ops, 3, m2);
        law_runs_join(ops, At::Pc(0), m, 2, 1);
        law_runs_join(ops, At::Pc(0), m, 3, 1);
        lemma_pass_through(ops, m2);
        law_runs_join(ops, At::Pc(0), m, 4, 5);
        assert(effect(Op::Dec8(Reg8::A), m2) == effect(Op::Dec8(Reg8::A), plain));
    }
}

// ---------------------------------------------------------------------------
// Glyph rows
// ---------------------------------------------------------------------------

/// What a plane of a row shows: the first is full, the others as the mask says.
pub open spec fn plane_byte(c: u8, row: u8, plane: int) -> u8 {
    if plane == 0 {
        0xFF
    } else if bit(c, plane as u8) {
        row
    } else {
        0
    }
}

/// Memory after a row was drawn.
pub open spec fn row_drawn(ram: Map<int, u8>, c: u8, row: u8, at: int) -> Map<int, u8> {
    ram.insert(at, plane_byte(c, row, 0)).insert(at + 1, plane_byte(c, row, 1)).insert(
        at + 2,
        plane_byte(c, row, 2),
    ).insert(at + 3, plane_byte(c, row, 3))
}

/// Memory after rows were drawn one behind the other.
pub open spec fn rows_drawn(ram: Map<int, u8>, c: u8, rows: Seq<u8>, at: int) -> Map<int, u8>
    decreases rows.len(),
{
    if rows.len() == 0 {
        ram
    } else {
        rows_drawn(row_drawn(ram, c, rows[0], at), c, rows.drop_first(), at + 4)
    }
}

proof fn lemma_plane(ops: Seq<Op>, pc: int, b: u8, m: Machine) -> (n: nat)
    requires
        0 <= pc,
        pc + 5 <= ops.len(),
        ops[pc] == Op::LdImm8(Reg8::AtHl, 0x00),
        ops[pc + 1] == Op::Bit(b, Reg8::C),
        ops[pc + 2] == Op::JrCond(Cond::Z, Place::PlaneSkip(b)),
        ops[pc + 3] == Op::Ld8(Reg8::AtHl, Reg8::A),
        ops[pc + 4] == Op::Mark(Place::PlaneSkip(b)),
        mark_of(ops, Place::PlaneSkip(b), ops.len() as int) == Some(pc + 4),
        0xC000 <= m.hl,
    ensures
        run(ops, At::Pc(pc), m, n) == (
            At::Pc(pc + 5),
            Machine {
                zero: !bit(m.c, b),
                ram: m.ram.insert(
                    m.hl,
                    if bit(m.c, b) {
                        m.a
                    } else {
                        0
                    },
                ),
                ..m
            },
        ),
{
    let m1 = effect(ops[pc], m);
    let m2 = effect(ops[pc + 1], m1);
    lemma_one_step(ops, pc, m);
    lemma_one_step(ops, pc + 1, m1);
    lemma_one_step(ops, pc + 2, m2);
    law_runs_join(ops, At::Pc(pc), m, 1, 1);
    law_runs_join(ops, At::Pc(pc), m, 2, 1);
    if bit(m.c, b) {
        let m3 = effect(ops[pc + 3], m2);
        lemma_one_step(ops, pc + 3, m2);
        lemma_one_step(ops, pc + 4, m3);
        law_runs_join(ops, At::Pc(pc), m, 3, 1);
        law_runs_join(ops, At::Pc(pc), m, 4, 1);
        assert(m.ram.insert(m.hl, 0).insert(m.hl, m.a) =~= m.ram.insert(m.hl, m.a));
        5
    } else {
        lemma_one_step(ops, pc + 4, m2);
        law_runs_join(ops, At::Pc(pc), m, 3, 1);
        4
    }
}

/// The machine behind a row, but for the counter.
pub open spec fn behind_row(m: Machine) -> Machine {
    Machine {
        a: m.peek(m.de),
        de: m.de + 1,
        hl: m.hl + 4,
        zero: !bit(m.c, 3),
        ram: row_drawn(m.ram, m.c, m.peek(m.de), m.hl),
        ..m
    }
}

/// A plane and the step to the next one.
proof fn lemma_plane_step(ops: Seq<Op>, pc: int, b: u8, m: Machine) -> (n: nat)
    requires
        0 <= pc,
        pc + 6 <= ops.len(),
        ops[pc] == Op::LdImm8(Reg8::AtHl, 0x00),
        ops[pc + 1] == Op::Bit(b, Reg8::C),
        ops[pc + 2] == Op::JrCond(Cond::Z, Place::PlaneSkip(b)),
        ops[pc + 3] == Op::Ld8(Reg8::AtHl, Reg8::A),
        ops[pc + 4] == Op::Mark(Place::PlaneSkip(b)),
        ops[pc + 5] == Op::Inc16(Reg16::Hl),
        mark_of(ops, Place::PlaneSkip(b), ops.len() as int) == Some(pc + 4),
        0xC000 <= m.hl < 0xFFFC,
        1 <= b <= 3,
    ensures
        run(ops, At::Pc(pc), m, n) == (
            At::Pc(pc + 6),
            Machine {
                zero: !bit(m.c, b),
                ram: m.ram.insert(m.hl, plane_byte(m.c, m.a, b as int)),
                hl: m.hl + 1,
                ..m
            },
        ),
{
    let n = lemma_plane(ops, pc, b, m);
    let m1 = Machine {
        zero: !bit(m.c, b),
        ram: m.ram.insert(m.hl, plane_byte(m.c, m.a, b as int)),
        ..m
    };
    lemma_one_step(ops, pc + 5, m1);
    let m2 = effect(ops[pc + 5], m1);
    lemma_join(ops, At::Pc(pc), m, n, At::Pc(pc + 5), m1, 1, At::Pc(pc + 6), m2);
    n + 1
}

/// The first plane with the byte that it is read from.
proof fn lemma_first_plane(ops: Seq<Op>, p: int, m: Machine) -> (n: nat)
    requires
        row_marks_at(ops, p),
        rows_at(ops, p),
        0xC000 <= m.hl < 0xFFFC,
    ensures
        run(ops, At::Pc(p + 2), m, n) == (
            At::Pc(p + 10),
            Machine {
                a: m.peek(m.de),
                zero: !bit(m.c, 0),
                ram: m.ram.insert(m.hl, 0xFF),
                hl: m.hl + 1,
                ..m
            },
        ),
{
    let row = m.peek(m.de);
    let m1 = Machine { a: row, ..m };
    lemma_one_step(ops, p + 2, m);
    let n0 = lemma_plane(ops, p + 3, 0, m1);
    let v: u8 = if bit(m.c, 0) {
        row
    } else {
        0
    };
    let m2 = Machine { zero: !bit(m.c, 0), ram: m.ram.insert(m.hl, v), ..m1 };
    lemma_join(ops, At::Pc(p + 2), m, 1, At::Pc(p + 3), m1, n0, At::Pc(p + 8), m2);
    let m3 = Machine { ram: m.ram.insert(m.hl, 0xFF), ..m2 };
    assert(m2.ram.insert(m.hl, 0xFF) =~= m.ram.insert(m.hl, 0xFF));
    lemma_one_step(ops, p + 8, m2);
    lemma_join(ops, At::Pc(p + 2), m, 1 + n0, At::Pc(p + 8), m2, 1, At::Pc(p + 9), m3);
    let m4 = Machine { hl: m.hl + 1, ..m3 };
    lemma_one_step(ops, p + 9, m3);
    lemma_join(ops, At::Pc(p + 2), m, 2 + n0, At::Pc(p + 9), m3, 1, At::Pc(p + 10), m4);
    3 + n0
}

proof fn lemma_row(ops: Seq<Op>, p: int, m: Machine) -> (n: nat)
    requires
        row_marks_at(ops, p),
        rows_at(ops, p),
        0xC000 <= m.hl,
        m.hl + 4 <= 0xFFFC,
        0 <= m.de < 0xFFFF,
    ensures
        run(ops, At::Pc(p + 2), m, n) == (At::Pc(p + 29), behind_row(m)),
{
    let row = m.peek(m.de);
    let n0 = lemma_first_plane(ops, p, m);
    let m1 = Machine {
        a: row,
        zero: !bit(m.c, 0),
        ram: m.ram.insert(m.hl, plane_byte(m.c, row, 0)),
        hl: m.hl + 1,
        ..m
    };
    let n1 = lemma_plane_step(ops, p + 10, 1, m1);
    let m2 = Machine {
        zero: !bit(m.c, 1),
        ram: m1.ram.insert(m.hl + 1, plane_byte(m.c, row, 1)),
        hl: m.hl + 2,
        ..m1
    };
    lemma_join(ops, At::Pc(p + 2), m, n0, At::Pc(p + 10), m1, n1, At::Pc(p + 16), m2);
    let n2 = lemma_plane_step(ops, p + 16, 2, m2);
    let m3 = Machine {
        zero: !bit(m.c, 2),
        ram: m2.ram.insert(m.hl + 2, plane_byte(m.c, row, 2)),
        hl: m.hl + 3,
        ..m2
    };
    lemma_join(ops, At::Pc(p + 2), m, n0 + n1, At::Pc(p + 16), m2, n2, At::Pc(p + 22), m3);
    let n3 = lemma_plane_step(ops, p + 22, 3, m3);
    let m4 = Machine {
        zero: !bit(m.c, 3),
        ram: m3.ram.insert(m.hl + 3, plane_byte(m.c, row, 3)),
        hl: m.hl + 4,
        ..m3
    };
    lemma_join(ops, At::Pc(p + 2), m, n0 + n1 + n2, At::Pc(p + 22), m3, n3, At::Pc(p + 28), m4);
    let m5 = behind_row(m);
    lemma_one_step(ops, p + 28, m4);
    assert(effect(ops[p + 28], m4) == m5);
    lemma_join(ops, At::Pc(p + 2), m, n0 + n1 + n2 + n3, At::Pc(p + 28), m4, 1, At::Pc(p + 29), m5);
    n0 + n1 + n2 + n3 + 1
}

/// Whether a machine stands behind rows that were drawn.
pub open spec fn is_behind_rows(after: Machine, m: Machine, rows: Seq<u8>) -> bool {
    &&& after.b == 0
    &&& after.c == m.c
    &&& after.de == m.de + rows.len()
    &&& after.hl == m.hl + 4 * rows.len()
    &&& after.stack == m.stack
    &&& after.rom == m.rom
    &&& after.ram == rows_drawn(m.ram, m.c, rows, m.hl)
}

proof fn lemma_rows(ops: Seq<Op>, p: int, m: Machine, rows: Seq<u8>) -> (n: nat)
    requires
        row_marks_at(ops, p),
        rows_at(ops, p),
        1 <= rows.len() <= 8,
        m.b == rows.len(),
        0xC000 <= m.hl,
        m.hl + 4 * rows.len() <= 0xFFFC,
        0x4000 <= m.de,
        m.de + rows.len() <= 0x8000,
        forall|i: int| 0 <= i < rows.len() ==> m.peek(m.de + i) == #[trigger] rows[i],
    ensures
        run(ops, At::Pc(p + 1), m, n).0 == At::Pc(p + 30),
        is_behind_rows(run(ops, At::Pc(p + 1), m, n).1, m, rows),
    decreases rows.len(),
{
    lemma_one_step(ops, p + 1, m);
    let n1 = lemma_row(ops, p, m);
    let m1 = behind_row(m);
    assert(rows[0] == m.peek(m.de + 0));
    lemma_join(ops, At::Pc(p + 1), m, 1, At::Pc(p + 2), m, n1, At::Pc(p + 29), m1);
    lemma_one_step(ops, p + 29, m1);
    let m2 = effect(ops[p + 29], m1);
    let to = next(ops, p + 29, m1);
    lemma_join(ops, At::Pc(p + 1), m, 1 + n1, At::Pc(p + 29), m1, 1, to, m2);
    let rest = rows.drop_first();
    if rows.len() == 1 {
        assert(rest.len() == 0);
        assert(rows_drawn(m.ram, m.c, rows, m.hl) == rows_drawn(m2.ram, m.c, rest, m.hl + 4));
        2 + n1
    } else {
        assert(m2.ram[0xFFFE] == m.ram[0xFFFE]);
        assert forall|i: int| 0 <= i < rest.len() implies m2.peek(m2.de + i) == #[trigger] rest[i] by {
            assert(rows[i + 1] == m.peek(m.de + (i + 1)));
        }
        let n2 = lemma_rows(ops, p, m2, rest);
        let end = run(ops, At::Pc(p + 1), m2, n2);
        lemma_join(ops, At::Pc(p + 1), m, 2 + n1, At::Pc(p + 1), m2, n2, end.0, end.1);
        2 + n1 + n2
    }
}

/// What a byte of memory holds after rows were drawn.
pub open spec fn drawn_byte(ram: Map<int, u8>, c: u8, rows: Seq<u8>, at: int, i: int) -> u8 {
    if at <= i < at + 4 * rows.len() {
        plane_byte(c, rows[(i - at) / 4], (i - at) % 4)
    } else {
        ram[i]
    }
}

proof fn lemma_drawn(ram: Map<int, u8>, c: u8, rows: Seq<u8>, at: int, i: int)
    ensures
        rows_drawn(ram, c, rows, at)[i] == drawn_byte(ram, c, rows, at, i),
    decreases rows.len(),
{
    if rows.len() > 0 {
        let now = row_drawn(ram, c, rows[0], at);
        let rest = rows.drop_first();
        lemma_drawn(now, c, rest, at + 4, i);
        if at + 4 <= i < at + 4 * rows.len() {
            assert((i - at) / 4 == (i - (at + 4)) / 4 + 1);
            assert((i - at) % 4 == (i - (at + 4)) % 4);
            assert(rest[(i - (at + 4)) / 4] == rows[(i - at) / 4]);
        } else if at <= i < at + 4 {
            assert((i - at) / 4 == 0);
        }
    }
}

// ---------------------------------------------------------------------------
// Prefixes
// ---------------------------------------------------------------------------

/// The mask register with the number of a prefix in bits 4 and 5.
pub open spec fn marked(c: u8, index: u8) -> u8 {
    (index * 16) as u8 | ((c & !(1u8 << 4)) & !(1u8 << 5))
}

proof fn lemma_marked(c: u8, index: u8)
    requires
        index <= 3,
    ensures
        marked(c, index) & 0x30 == index * 16,
        marked(c, index) & 0x8F == c & 0x8F,
{
    let high: u8 = (index * 16) as u8;
    let v: u8 = high | ((c & !(1u8 << 4)) & !(1u8 << 5));
    assert(v & 0x30 == high && v & 0x8F == c & 0x8F) by (bit_vector)
        requires
            high == 0 || high == 16 || high == 32 || high == 48,
            v == high | ((c & !(1u8 << 4)) & !(1u8 << 5)),
    ;
}

/// Behind the entry: the number of the prefix in the mask register, the byte behind the
/// prefix in the accumulator.
proof fn lemma_entry(ops: Seq<Op>, m: Machine)
    requires
        entry_at(ops),
        marks_at(ops),
        0xA3 <= m.a < 0xA7,
        0 <= m.de < 0xFFFF,
    ensures
        ({
            let r = run(ops, At::Pc(0), m, 15);
            &&& r.0 == At::Pc(15)
            &&& r.1 == Machine {
                a: m.peek(m.de),
                c: marked(m.c, (m.a - 0xA3) as u8),
                de: m.de + 1,
                zero: r.1.zero,
                carry: r.1.carry,
                ..m
            }
        }),
{
    let index: u8 = (m.a - 0xA3) as u8;
    let m1 = lemma_entry_test(ops, m);
    let m2 = lemma_entry_shift(ops, m1);
    lemma_join(ops, At::Pc(0), m, 4, At::Pc(4), m1, 5, At::Pc(9), m2);
    let m3 = lemma_entry_merge(ops, m2);
    lemma_join(ops, At::Pc(0), m, 9, At::Pc(9), m2, 6, At::Pc(15), m3);
    assert(m3.c == marked(m.c, index));
}

proof fn lemma_entry_test(ops: Seq<Op>, m: Machine) -> (r: Machine)
    requires
        entry_at(ops),
        marks_at(ops),
        0xA3 <= m.a < 0xA7,
    ensures
        run(ops, At::Pc(0), m, 4) == (At::Pc(4), r),
        r == (Machine { zero: r.zero, carry: r.carry, ..m }),
{
    let m1 = m.alu(Alu::Cp, 0xA3);
    lemma_one_step(ops, 0, m);
    lemma_one_step(ops, 1, m1);
    lemma_join(ops, At::Pc(0), m, 1, At::Pc(1), m1, 1, At::Pc(2), m1);
    let m2 = m1.alu(Alu::Cp, 0xA7);
    lemma_one_step(ops, 2, m1);
    lemma_join(ops, At::Pc(0), m, 2, At::Pc(2), m1, 1, At::Pc(3), m2);
    lemma_one_step(ops, 3, m2);
    lemma_join(ops, At::Pc(0), m, 3, At::Pc(3), m2, 1, At::Pc(4), m2);
    m2
}

proof fn lemma_doubled(ops: Seq<Op>, pc: int, m: Machine) -> (r: Machine)
    requires
        ops[pc] == Op::Rlca,
        m.a < 128,
    ensures
        run(ops, At::Pc(pc), m, 1) == (At::Pc(pc + 1), r),
        r == (Machine { a: r.a, carry: r.carry, ..m }),
        r.a == m.a * 2,
{
    lemma_one_step(ops, pc, m);
    effect(ops[pc], m)
}

proof fn lemma_entry_shift(ops: Seq<Op>, m: Machine) -> (r: Machine)
    requires
        entry_at(ops),
        0xA3 <= m.a < 0xA7,
    ensures
        run(ops, At::Pc(4), m, 5) == (At::Pc(9), r),
        r == (Machine { a: r.a, zero: r.zero, carry: r.carry, ..m }),
        r.a == (m.a - 0xA3) * 16,
{
    let m1 = m.alu(Alu::Sub, 0xA3);
    lemma_one_step(ops, 4, m);
    let m2 = lemma_doubled(ops, 5, m1);
    lemma_join(ops, At::Pc(4), m, 1, At::Pc(5), m1, 1, At::Pc(6), m2);
    let m3 = lemma_doubled(ops, 6, m2);
    lemma_join(ops, At::Pc(4), m, 2, At::Pc(6), m2, 1, At::Pc(7), m3);
    let m4 = lemma_doubled(ops, 7, m3);
    lemma_join(ops, At::Pc(4), m, 3, At::Pc(7), m3, 1, At::Pc(8), m4);
    let m5 = lemma_doubled(ops, 8, m4);
    lemma_join(ops, At::Pc(4), m, 4, At::Pc(8), m4, 1, At::Pc(9), m5);
    m5
}

proof fn lemma_entry_mask(ops: Seq<Op>, m: Machine) -> (r: Machine)
    requires
        entry_at(ops),
    ensures
        run(ops, At::Pc(9), m, 3) == (At::Pc(12), r),
        r == (Machine {
            a: m.a | ((m.c & !(1u8 << 4)) & !(1u8 << 5)),
            c: (m.c & !(1u8 << 4)) & !(1u8 << 5),
            zero: r.zero,
            carry: r.carry,
            ..m
        }),
{
    let m1 = Machine { c: m.c & !(1u8 << 4), ..m };
    lemma_one_step(ops, 9, m);
    let m2 = Machine { c: m1.c & !(1u8 << 5), ..m };
    lemma_one_step(ops, 10, m1);
    lemma_join(ops, At::Pc(9), m, 1, At::Pc(10), m1, 1, At::Pc(11), m2);
    let m3 = m2.alu(Alu::Or, m2.c);
    lemma_one_step(ops, 11, m2);
    lemma_join(ops, At::Pc(9), m, 2, At::Pc(11), m2, 1, At::Pc(12), m3);
    m3
}

proof fn lemma_entry_byte(ops: Seq<Op>, m: Machine) -> (r: Machine)
    requires
        entry_at(ops),
        0 <= m.de < 0xFFFF,
    ensures
        run(ops, At::Pc(12), m, 3) == (At::Pc(15), r),
        r == (Machine { a: m.peek(m.de), c: m.a, de: m.de + 1, ..m }),
{
    let m4 = Machine { c: m.a, ..m };
    lemma_one_step(ops, 12, m);
    let m5 = Machine { a: m.peek(m.de), ..m4 };
    lemma_one_step(ops, 13, m4);
    lemma_join(ops, At::Pc(12), m, 1, At::Pc(13), m4, 1, At::Pc(14), m5);
    let m6 = Machine { de: m.de + 1, ..m5 };
    lemma_one_step(ops, 14, m5);
    lemma_join(ops, At::Pc(12), m, 2, At::Pc(14), m5, 1, At::Pc(15), m6);
    m6
}

proof fn lemma_entry_merge(ops: Seq<Op>, m: Machine) -> (r: Machine)
    requires
        entry_at(ops),
        0 <= m.de < 0xFFFF,
    ensures
        run(ops, At::Pc(9), m, 6) == (At::Pc(15), r),
        r == (Machine {
            a: m.peek(m.de),
            c: m.a | ((m.c & !(1u8 << 4)) & !(1u8 << 5)),
            de: m.de + 1,
            zero: r.zero,
            carry: r.carry,
            ..m
        }),
{
    let m3 = lemma_entry_mask(ops, m);
    let m6 = lemma_entry_byte(ops, m3);
    lemma_join(ops, At::Pc(9), m, 3, At::Pc(12), m3, 3, At::Pc(15), m6);
    m6
}

proof fn lemma_halved(ops: Seq<Op>, pc: int, m: Machine) -> (r: Machine)
    requires
        ops[pc] == Op::Rrca,
        m.a % 2 == 0,
    ensures
        run(ops, At::Pc(pc), m, 1) == (At::Pc(pc + 1), r),
        r == (Machine { a: r.a, carry: r.carry, ..m }),
        r.a == m.a / 2,
{
    lemma_one_step(ops, pc, m);
    effect(ops[pc], m)
}

/// The number of the prefix goes into the counter.
proof fn lemma_split_number(ops: Seq<Op>, m: Machine, index: u8) -> (r: Machine)
    requires
        split_at(ops),
        index <= 3,
        m.c & 0x30 == index * 16,
    ensures
        run(ops, At::Pc(17), m, 7) == (At::Pc(24), r),
        r == (Machine { a: r.a, b: index, zero: r.zero, carry: r.carry, ..m }),
{
    let m1 = Machine { a: m.c, ..m };
    lemma_one_step(ops, 17, m);
    let m2 = m1.alu(Alu::And, 0x30);
    lemma_one_step(ops, 18, m1);
    lemma_join(ops, At::Pc(17), m, 1, At::Pc(18), m1, 1, At::Pc(19), m2);
    let m3 = lemma_halved(ops, 19, m2);
    lemma_join(ops, At::Pc(17), m, 2, At::Pc(19), m2, 1, At::Pc(20), m3);
    let m4 = lemma_halved(ops, 20, m3);
    lemma_join(ops, At::Pc(17), m, 3, At::Pc(20), m3, 1, At::Pc(21), m4);
    let m5 = lemma_halved(ops, 21, m4);
    lemma_join(ops, At::Pc(17), m, 4, At::Pc(21), m4, 1, At::Pc(22), m5);
    let m6 = lemma_halved(ops, 22, m5);
    lemma_join(ops, At::Pc(17), m, 5, At::Pc(22), m5, 1, At::Pc(23), m6);
    let m7 = Machine { b: m6.a, ..m6 };
    lemma_one_step(ops, 23, m6);
    lemma_join(ops, At::Pc(17), m, 6, At::Pc(23), m6, 1, At::Pc(24), m7);
    m7
}

/// The mask register gets its mask back, and the accumulator its byte.
proof fn lemma_split_mask(ops: Seq<Op>, m: Machine, a: u8) -> (r: Machine)
    requires
        split_at(ops),
        m.stack.len() > 0,
        m.stack.last() / 256 == a,
    ensures
        run(ops, At::Pc(24), m, 4) == (At::Pc(28), r),
        r == (Machine {
            a,
            c: m.c & 0x8F,
            zero: r.zero,
            carry: r.carry,
            stack: m.stack.drop_last(),
            ..m
        }),
{
    let m1 = Machine { a: m.c, ..m };
    lemma_one_step(ops, 24, m);
    let m2 = m1.alu(Alu::And, 0x8F);
    lemma_one_step(ops, 25, m1);
    lemma_join(ops, At::Pc(24), m, 1, At::Pc(25), m1, 1, At::Pc(26), m2);
    let m3 = Machine { c: m2.a, ..m2 };
    lemma_one_step(ops, 26, m2);
    lemma_join(ops, At::Pc(24), m, 2, At::Pc(26), m2, 1, At::Pc(27), m3);
    let m4 = effect(Op::Pop(Pair::Af), m3);
    lemma_one_step(ops, 27, m3);
    lemma_join(ops, At::Pc(24), m, 3, At::Pc(27), m3, 1, At::Pc(28), m4);
    m4
}

proof fn lemma_pushed(ops: Seq<Op>, pc: int, p: Pair, m: Machine) -> (r: Machine)
    requires
        ops[pc] == Op::Push(p),
    ensures
        run(ops, At::Pc(pc), m, 1) == (At::Pc(pc + 1), r),
        r == (Machine { stack: m.stack.push(m.pair(p)), ..m }),
{
    lemma_one_step(ops, pc, m);
    effect(ops[pc], m)
}

/// Behind the split: the number of the prefix in the counter, the mask in the mask
/// register, and three words on the stack.
proof fn lemma_split(ops: Seq<Op>, m: Machine, index: u8) -> (r: Machine)
    requires
        split_at(ops),
        index <= 3,
        m.c & 0x30 == index * 16,
    ensures
        run(ops, At::Pc(15), m, 15) == (At::Pc(30), r),
        r == (Machine {
            b: index,
            c: m.c & 0x8F,
            zero: r.zero,
            carry: r.carry,
            stack: m.stack.push(m.b * 256 + m.c).push(m.de).push(m.hl),
            ..m
        }),
{
    let m1 = lemma_pushed(ops, 15, Pair::Bc, m);
    let m2 = lemma_pushed(ops, 16, Pair::Af, m1);
    lemma_join(ops, At::Pc(15), m, 1, At::Pc(16), m1, 1, At::Pc(17), m2);
    let m3 = lemma_split_number(ops, m2, index);
    lemma_join(ops, At::Pc(15), m, 2, At::Pc(17), m2, 7, At::Pc(24), m3);
    assert(m3.stack.last() == m1.a * 256 + m1.flags());
    let m4 = lemma_split_mask(ops, m3, m.a);
    lemma_join(ops, At::Pc(15), m, 9, At::Pc(24), m3, 4, At::Pc(28), m4);
    assert(m4.stack =~= m1.stack);
    let m5 = lemma_pushed(ops, 28, Pair::De, m4);
    lemma_join(ops, At::Pc(15), m, 13, At::Pc(28), m4, 1, At::Pc(29), m5);
    let m6 = lemma_pushed(ops, 29, Pair::Hl, m5);
    lemma_join(ops, At::Pc(15), m, 14, At::Pc(29), m5, 1, At::Pc(30), m6);
    m6
}

/// The glyphs of earlier prefixes are skipped.
proof fn lemma_skip_prefixes(ops: Seq<Op>, m: Machine) -> (n: nat)
    requires
        find_at(ops),
        marks_at(ops),
        1 <= m.b <= 3,
        m.de == 250,
        0 <= m.hl,
        m.hl + 250 * m.b < 0x10000,
    ensures
        ({
            let r = run(ops, At::Pc(37), m, n);
            &&& r.0 == At::Pc(40)
            &&& r.1 == Machine {
                b: 0,
                hl: m.hl + 250 * m.b,
                carry: r.1.carry,
                ..m
            }
        }),
    decreases m.b,
{
    lemma_one_step(ops, 37, m);
    let m1 = Machine { hl: m.hl + 250, carry: false, ..m };
    lemma_one_step(ops, 38, m);
    lemma_join(ops, At::Pc(37), m, 1, At::Pc(38), m, 1, At::Pc(39), m1);
    let m2 = Machine { b: (m.b - 1) as u8, ..m1 };
    lemma_one_step(ops, 39, m1);
    if m.b == 1 {
        lemma_join(ops, At::Pc(37), m, 2, At::Pc(39), m1, 1, At::Pc(40), m2);
        3
    } else {
        lemma_join(ops, At::Pc(37), m, 2, At::Pc(39), m1, 1, At::Pc(37), m2);
        let n = lemma_skip_prefixes(ops, m2);
        let end = run(ops, At::Pc(37), m2, n);
        lemma_join(ops, At::Pc(37), m, 3, At::Pc(37), m2, n, end.0, end.1);
        3 + n
    }
}

/// The byte behind the prefix, less one, goes into `HL`.
proof fn lemma_load_base(ops: Seq<Op>, m: Machine) -> (r: Machine)
    requires
        find_at(ops),
        1 <= m.a,
    ensures
        run(ops, At::Pc(30), m, 5) == (At::Pc(35), r),
        r == (Machine {
            a: m.b,
            hl: m.a - 1,
            zero: m.b == 0,
            carry: r.carry,
            ..m
        }),
{
    let v = (m.a - 1) as u8;
    let m1 = Machine { a: v, zero: v == 0, ..m };
    lemma_one_step(ops, 30, m);
    let m2 = Machine { hl: m.hl / 256 * 256 + v, ..m1 };
    lemma_one_step(ops, 31, m1);
    lemma_join(ops, At::Pc(30), m, 1, At::Pc(31), m1, 1, At::Pc(32), m2);
    let m3 = Machine { hl: v as int, ..m1 };
    lemma_one_step(ops, 32, m2);
    assert((m.hl / 256 * 256 + v) % 256 == v as int);
    lemma_join(ops, At::Pc(30), m, 2, At::Pc(32), m2, 1, At::Pc(33), m3);
    let m4 = Machine { a: m.b, ..m3 };
    lemma_one_step(ops, 33, m3);
    lemma_join(ops, At::Pc(30), m, 3, At::Pc(33), m3, 1, At::Pc(34), m4);
    let b = m.b;
    assert(b | b == b) by (bit_vector);
    let m5 = Machine { zero: m.b == 0, carry: false, ..m4 };
    lemma_one_step(ops, 34, m4);
    lemma_join(ops, At::Pc(30), m, 4, At::Pc(34), m4, 1, At::Pc(35), m5);
    m5
}

/// The rank of the glyph goes into `HL`.
proof fn lemma_find_rank(ops: Seq<Op>, m: Machine) -> (n: nat)
    requires
        find_at(ops),
        marks_at(ops),
        1 <= m.a <= 250,
        m.b <= 3,
    ensures
        ({
            let r = run(ops, At::Pc(30), m, n);
            &&& r.0 == At::Pc(40)
            &&& r.1 == Machine {
                a: r.1.a,
                b: 0,
                de: r.1.de,
                hl: m.a - 1 + 250 * m.b,
                zero: r.1.zero,
                carry: r.1.carry,
                ..m
            }
        }),
{
    let m1 = lemma_load_base(ops, m);
    lemma_one_step(ops, 35, m1);
    if m.b == 0 {
        lemma_join(ops, At::Pc(30), m, 5, At::Pc(35), m1, 1, At::Pc(40), m1);
        6
    } else {
        lemma_join(ops, At::Pc(30), m, 5, At::Pc(35), m1, 1, At::Pc(36), m1);
        let m2 = Machine { de: 250, ..m1 };
        lemma_one_step(ops, 36, m1);
        lemma_join(ops, At::Pc(30), m, 6, At::Pc(36), m1, 1, At::Pc(37), m2);
        let n = lemma_skip_prefixes(ops, m2);
        let end = run(ops, At::Pc(37), m2, n);
        lemma_join(ops, At::Pc(30), m, 7, At::Pc(37), m2, n, end.0, end.1);
        7 + n
    }
}

proof fn lemma_hl_doubled(ops: Seq<Op>, pc: int, m: Machine) -> (r: Machine)
    requires
        ops[pc] == Op::AddHl(Reg16::Hl),
        0 <= m.hl < 0x8000,
    ensures
        run(ops, At::Pc(pc), m, 1) == (At::Pc(pc + 1), r),
        r == (Machine { hl: 2 * m.hl, carry: false, ..m }),
{
    lemma_one_step(ops, pc, m);
    effect(ops[pc], m)
}

/// The address of the glyph goes into `DE`, the place to draw at into `HL`.
proof fn lemma_find_address(ops: Seq<Op>, m: Machine, dst: int) -> (r: Machine)
    requires
        find_at(ops),
        0 <= m.hl < 1000,
        m.stack.len() > 0,
        m.stack.last() == dst,
    ensures
        run(ops, At::Pc(40), m, 8) == (At::Pc(48), r),
        r == (Machine {
            de: 0x4000 + 8 * m.hl,
            hl: dst,
            carry: r.carry,
            stack: m.stack.drop_last(),
            ..m
        }),
{
    lemma_one_step(ops, 40, m);
    let m1 = lemma_hl_doubled(ops, 41, m);
    lemma_join(ops, At::Pc(40), m, 1, At::Pc(41), m, 1, At::Pc(42), m1);
    let m2 = lemma_hl_doubled(ops, 42, m1);
    lemma_join(ops, At::Pc(40), m, 2, At::Pc(42), m1, 1, At::Pc(43), m2);
    let m3 = lemma_hl_doubled(ops, 43, m2);
    lemma_join(ops, At::Pc(40), m, 3, At::Pc(43), m2, 1, At::Pc(44), m3);
    let m4 = Machine { de: 0x4000, ..m3 };
    lemma_one_step(ops, 44, m3);
    lemma_join(ops, At::Pc(40), m, 4, At::Pc(44), m3, 1, At::Pc(45), m4);
    let m5 = Machine { hl: 8 * m.hl + 0x4000, carry: false, ..m4 };
    lemma_one_step(ops, 45, m4);
    lemma_join(ops, At::Pc(40), m, 5, At::Pc(45), m4, 1, At::Pc(46), m5);
    let m6 = Machine { de: m5.hl, hl: m5.de, ..m5 };
    lemma_one_step(ops, 46, m5);
    lemma_join(ops, At::Pc(40), m, 6, At::Pc(46), m5, 1, At::Pc(47), m6);
    let m7 = Machine { hl: dst, stack: m.stack.drop_last(), ..m6 };
    lemma_one_step(ops, 47, m6);
    lemma_join(ops, At::Pc(40), m, 7, At::Pc(47), m6, 1, At::Pc(48), m7);
    m7
}

/// The bank of glyphs comes into slot 1, and the rows are counted.
proof fn lemma_select(ops: Seq<Op>, m: Machine) -> (r: Machine)
    requires
        select_at(ops),
        rows_at(ops, 53),
    ensures
        run(ops, At::Pc(48), m, 6) == (At::Pc(54), r),
        r.b == 8,
        r.c == m.c,
        r.de == m.de,
        r.hl == m.hl,
        r.rom == m.rom,
        r.ram == m.ram.insert(0xFFFE, 32),
        r.stack.len() == m.stack.len() + 2,
        r.stack[m.stack.len() as int] / 256 == m.ram[0xFFFE],
        r.stack.take(m.stack.len() as int) == m.stack,
{
    let m1 = Machine { a: m.ram[0xFFFE], ..m };
    lemma_one_step(ops, 48, m);
    let m2 = lemma_pushed(ops, 49, Pair::Af, m1);
    lemma_join(ops, At::Pc(48), m, 1, At::Pc(49), m1, 1, At::Pc(50), m2);
    let m3 = Machine { a: 32, ..m2 };
    lemma_one_step(ops, 50, m2);
    lemma_join(ops, At::Pc(48), m, 2, At::Pc(50), m2, 1, At::Pc(51), m3);
    let m4 = Machine { ram: m.ram.insert(0xFFFE, 32), ..m3 };
    lemma_one_step(ops, 51, m3);
    lemma_join(ops, At::Pc(48), m, 3, At::Pc(51), m3, 1, At::Pc(52), m4);
    let m5 = lemma_pushed(ops, 52, Pair::Bc, m4);
    lemma_join(ops, At::Pc(48), m, 4, At::Pc(52), m4, 1, At::Pc(53), m5);
    let m6 = Machine { b: 8, ..m5 };
    lemma_one_step(ops, 53, m5);
    lemma_join(ops, At::Pc(48), m, 5, At::Pc(53), m5, 1, At::Pc(54), m6);
    assert(m6.stack.take(m.stack.len() as int) =~= m.stack);
    m6
}

/// Everything is put back.
proof fn lemma_restore(ops: Seq<Op>, m: Machine, base: Seq<int>, bank: u8, de: int, bc: int) -> (r:
    Machine)
    requires
        tail_at(ops),
        m.stack.len() == base.len() + 4,
        m.stack.take(base.len() as int) == base,
        m.stack[base.len() as int] == bc,
        m.stack[base.len() as int + 1] == de,
        m.stack[base.len() as int + 2] / 256 == bank,
    ensures
        run(ops, At::Pc(83), m, 6) == (At::Returned, r),
        r.b == (bc / 256) as u8,
        r.c == (bc % 256) as u8,
        r.de == de,
        r.hl == m.hl,
        r.rom == m.rom,
        r.ram == m.ram.insert(0xFFFE, bank),
        r.stack == base,
{
    let n = base.len() as int;
    let m1 = effect(Op::Pop(Pair::Bc), m);
    lemma_one_step(ops, 83, m);
    assert(m1.stack.last() == m.stack[n + 2]);
    let m2 = effect(Op::Pop(Pair::Af), m1);
    lemma_one_step(ops, 84, m1);
    lemma_join(ops, At::Pc(83), m, 1, At::Pc(84), m1, 1, At::Pc(85), m2);
    assert(m2.a == bank);
    let m3 = Machine { ram: m.ram.insert(0xFFFE, bank), ..m2 };
    lemma_one_step(ops, 85, m2);
    lemma_join(ops, At::Pc(83), m, 2, At::Pc(85), m2, 1, At::Pc(86), m3);
    assert(m3.stack.last() == m.stack[n + 1]);
    let m4 = effect(Op::Pop(Pair::De), m3);
    lemma_one_step(ops, 86, m3);
    lemma_join(ops, At::Pc(83), m, 3, At::Pc(86), m3, 1, At::Pc(87), m4);
    assert(m4.stack.last() == m.stack[n]);
    let m5 = effect(Op::Pop(Pair::Bc), m4);
    lemma_one_step(ops, 87, m4);
    lemma_join(ops, At::Pc(83), m, 4, At::Pc(87), m4, 1, At::Pc(88), m5);
    lemma_one_step(ops, 88, m5);
    lemma_join(ops, At::Pc(83), m, 5, At::Pc(88), m5, 1, At::Returned, m5);
    assert(m5.stack =~= base);
    m5
}

proof fn lemma_mask(c: u8, row: u8, plane: int)
    requires
        0 <= plane <= 3,
    ensures
        plane_byte(c & 0x8F, row, plane) == plane_byte(c, row, plane),
{
    let p = plane as u8;
    assert((c & 0x8F) & (1u8 << p) == c & (1u8 << p)) by (bit_vector)
        requires
            p <= 3,
    ;
}

/// The rank of the glyph that a prefix and the byte behind it stand for.
pub open spec fn rank_of_code(prefix: u8, base: u8) -> int {
    250 * (prefix - 0xA3) + base - 1
}

/// What the machine is to be like when the handler is called with a prefix: the byte
/// behind the prefix stands for a glyph, and the place to draw at is writable memory in
/// front of the bank registers.
pub open spec fn is_glyph_call(m: Machine) -> bool {
    &&& 0xA3 <= m.a < 0xA7
    &&& 0 <= m.de < 0xFFFF
    &&& 1 <= m.peek(m.de) <= 250
    &&& 0xC000 <= m.hl
    &&& m.hl + 32 <= 0xFFFC
}

/// The rows of the glyph that the handler is called for: eight bytes for each rank in the
/// bank of glyphs.
pub open spec fn called_glyph(m: Machine) -> Seq<u8> {
    let at = 0x80000 + 8 * rank_of_code(m.a, m.peek(m.de));
    Seq::new(8, |i: int| m.rom[at + i])
}

/// For a prefix and the byte behind it the handler draws the glyph of their rank and
/// returns: every row takes four bytes, one for each plane, the first full, the others as
/// the mask says. All other memory is as before, the selected bank among it, and so are
/// the stack and the counter of the caller. The text goes on behind the second byte.
pub proof fn law_handler_draws_glyph(m: Machine) -> (n: nat)
    requires
        is_glyph_call(m),
    ensures
        ({
            let r = run(multi_prefix_handler(), At::Pc(0), m, n);
            &&& r.0 == At::Returned
            &&& r.1.b == m.b
            &&& r.1.c == marked(m.c, (m.a - 0xA3) as u8)
            &&& r.1.de == m.de + 1
            &&& r.1.hl == m.hl + 32
            &&& r.1.stack == m.stack
            &&& r.1.rom == m.rom
            &&& forall|i: int|
                #[trigger] r.1.ram[i] == drawn_byte(m.ram, m.c, called_glyph(m), m.hl, i)
        }),
{
    lemma_is_handler();
    lemma_draws_glyph(multi_prefix_handler(), m)
}

proof fn lemma_draws_glyph(ops: Seq<Op>, m: Machine) -> (n: nat)
    requires
        is_handler(ops),
        is_glyph_call(m),
    ensures
        ({
            let r = run(ops, At::Pc(0), m, n);
            &&& r.0 == At::Returned
            &&& r.1.b == m.b
            &&& r.1.c == marked(m.c, (m.a - 0xA3) as u8)
            &&& r.1.de == m.de + 1
            &&& r.1.hl == m.hl + 32
            &&& r.1.stack == m.stack
            &&& r.1.rom == m.rom
            &&& forall|i: int|
                #[trigger] r.1.ram[i] == drawn_byte(m.ram, m.c, called_glyph(m), m.hl, i)
        }),
{
    let index: u8 = (m.a - 0xA3) as u8;
    let base = m.peek(m.de);
    let rank = rank_of_code(m.a, base);
    let rows = called_glyph(m);
    // entry
    lemma_entry(ops, m);
    let m1 = run(ops, At::Pc(0), m, 15).1;
    lemma_marked(m.c, index);
    // split
    let m2 = lemma_split(ops, m1, index);
    lemma_join(ops, At::Pc(0), m, 15, At::Pc(15), m1, 15, At::Pc(30), m2);
    // find
    let n3 = lemma_find_rank(ops, m2);
    let m3 = run(ops, At::Pc(30), m2, n3).1;
    lemma_join(ops, At::Pc(0), m, 30, At::Pc(30), m2, n3, At::Pc(40), m3);
    assert(m3.hl == rank);
    let m4 = lemma_find_address(ops, m3, m.hl);
    lemma_join(ops, At::Pc(0), m, 30 + n3, At::Pc(40), m3, 8, At::Pc(48), m4);
    let kept = m.stack.push(m.b * 256 + m1.c).push(m.de + 1);
    assert(m4.stack =~= kept);
    // select
    let m5 = lemma_select(ops, m4);
    lemma_join(ops, At::Pc(0), m, 38 + n3, At::Pc(48), m4, 6, At::Pc(54), m5);
    // rows
    assert forall|i: int| 0 <= i < rows.len() implies m5.peek(m5.de + i) == #[trigger] rows[i] by {
        assert(m5.ram[0xFFFE] == 32);
    }
    assert(row_marks_at(ops, 53));
    let n6 = lemma_rows(ops, 53, m5, rows);
    let m6 = run(ops, At::Pc(54), m5, n6).1;
    lemma_join(ops, At::Pc(0), m, 44 + n3, At::Pc(54), m5, n6, At::Pc(83), m6);
    // restore
    let k = m.stack.len() as int;
    assert(m5.stack.take(k + 2) == kept);
    assert(m5.stack[k] == kept[k]) by {
        assert(m5.stack.take(k + 2)[k] == m5.stack[k]);
    }
    assert(m5.stack[k + 1] == kept[k + 1]) by {
        assert(m5.stack.take(k + 2)[k + 1] == m5.stack[k + 1]);
    }
    assert(m6.stack.take(k) =~= m.stack) by {
        assert forall|i: int| 0 <= i < k implies m6.stack[i] == m.stack[i] by {
            assert(m5.stack.take(k + 2)[i] == kept[i]);
        }
    }
    let bank = m.ram[0xFFFE];
    let bc = m.b * 256 + m1.c;
    let m7 = lemma_restore(ops, m6, m.stack, bank, m.de + 1, bc);
    lemma_join(ops, At::Pc(0), m, 44 + n3 + n6, At::Pc(83), m6, 6, At::Returned, m7);
    assert(bc / 256 == m.b as int && bc % 256 == m1.c as int);
    assert forall|i: int| #[trigger] m7.ram[i] == drawn_byte(m.ram, m.c, rows, m.hl, i) by {
        lemma_drawn(m5.ram, m5.c, rows, m.hl, i);
        if m.hl <= i < m.hl + 32 {
            lemma_mask(m.c, rows[(i - m.hl) / 4], (i - m.hl) % 4);
        }
    }
    50 + n3 + n6
}

// ---------------------------------------------------------------------------
// The handler of a single prefix
// ---------------------------------------------------------------------------

/// The handler of a single prefix around its glyph rows, instruction by instruction.
pub open spec fn single_at(ops: Seq<Op>) -> bool {
    &&& ops.len() == 49
    &&& ops[0] == Op::AluImm(Alu::Cp, 0xA3)
    &&& ops[1] == Op::JpCond(Cond::Nz, 0x9A3E)
    &&& ops[2] == Op::LdADe
    &&& ops[3] == Op::Inc16(Reg16::De)
    &&& ops[4] == Op::Push(Pair::De)
    &&& ops[5] == Op::Push(Pair::Hl)
    &&& ops[6] == Op::Ld8(Reg8::L, Reg8::A)
    &&& ops[7] == Op::LdImm8(Reg8::H, 0x00)
    &&& ops[8] == Op::AddHl(Reg16::Hl)
    &&& ops[9] == Op::AddHl(Reg16::Hl)
    &&& ops[10] == Op::AddHl(Reg16::Hl)
    &&& ops[11] == Op::LdImm16(Reg16::De, 0x4000)
    &&& ops[12] == Op::AddHl(Reg16::De)
    &&& ops[13] == Op::ExDeHl
    &&& ops[14] == Op::Pop(Pair::Hl)
    &&& ops[15] == Op::Push(Pair::Bc)
    &&& ops[46] == Op::Pop(Pair::Bc)
    &&& ops[47] == Op::Pop(Pair::De)
    &&& ops[48] == Op::Ret
}

proof fn lemma_single_layout()
    ensures
        single_at(single_prefix_handler()),
        rows_at(single_prefix_handler(), 16),
        row_marks_at(single_prefix_handler(), 16),
{
    let ops = single_prefix_handler();
    lemma_row_ops();
    let head = seq![
        Op::AluImm(Alu::Cp, 0xA3),
        Op::JpCond(Cond::Nz, 0x9A3E),
        Op::LdADe,
        Op::Inc16(Reg16::De),
        Op::Push(Pair::De),
        Op::Push(Pair::Hl),
        Op::Ld8(Reg8::L, Reg8::A),
        Op::LdImm8(Reg8::H, 0x00),
        Op::AddHl(Reg16::Hl),
        Op::AddHl(Reg16::Hl),
        Op::AddHl(Reg16::Hl),
        Op::LdImm16(Reg16::De, 0x4000),
        Op::AddHl(Reg16::De),
        Op::ExDeHl,
        Op::Pop(Pair::Hl),
        Op::Push(Pair::Bc),
    ];
    let tail = seq![Op::Pop(Pair::Bc), Op::Pop(Pair::De), Op::Ret];
    assert(ops == head + glyph_rows() + tail);
    assert(head.len() == 16);
    assert(tail.len() == 3);
    assert forall|i: int| 0 <= i < 16 implies ops[i] == #[trigger] head[i] by {}
    assert forall|i: int| 0 <= i < 30 implies ops[16 + i] == #[trigger] row_ops()[i] by {}
    assert forall|i: int| 0 <= i < 3 implies ops[46 + i] == #[trigger] tail[i] by {}
    assert(ops[46] == tail[0]);
    assert(ops[47] == tail[1]);
    assert(ops[48] == tail[2]);
    assert(stands_at(ops, 16, row_ops()));
    lemma_rows_at(ops, 16);
    lemma_row_marks(Place::Row);
    lemma_row_marks(Place::PlaneSkip(0));
    lemma_row_marks(Place::PlaneSkip(1));
    lemma_row_marks(Place::PlaneSkip(2));
    lemma_row_marks(Place::PlaneSkip(3));
    lemma_single_mark(head, tail, Place::Row);
    lemma_single_mark(head, tail, Place::PlaneSkip(0));
    lemma_single_mark(head, tail, Place::PlaneSkip(1));
    lemma_single_mark(head, tail, Place::PlaneSkip(2));
    lemma_single_mark(head, tail, Place::PlaneSkip(3));
}

proof fn lemma_single_mark(head: Seq<Op>, tail: Seq<Op>, place: Place)
    requires
        head.len() == 16,
        tail.len() == 3,
        forall|i: int| 0 <= i < 3 ==> !(#[trigger] tail[i] is Mark),
        mark_of(glyph_rows(), place, 30) is Some,
        glyph_rows().len() == 30,
    ensures
        mark_of(head + glyph_rows() + tail, place, 49) == Some(
            16 + mark_of(glyph_rows(), place, 30)->0,
        ),
{
    reveal_with_fuel(mark_of, 4);
    assert(!(tail[0] is Mark) && !(tail[1] is Mark) && !(tail[2] is Mark));
    assert(mark_of(tail, place, 3) is None);
    lemma_mark(head, glyph_rows(), place);
    lemma_mark(head + glyph_rows(), tail, place);
}

/// Any other code goes to the game's own renderer with the registers as they were.
pub proof fn law_single_prefix_passes_others(m: Machine)
    requires
        m.a != 0xA3,
    ensures
        ({
            let r = run(single_prefix_handler(), At::Pc(0), m, 2);
            &&& r.0 == At::Outside(0x9A3E)
            &&& r.1.a == m.a && r.1.b == m.b && r.1.c == m.c
            &&& r.1.de == m.de && r.1.hl == m.hl
            &&& r.1.stack == m.stack && r.1.ram == m.ram && r.1.rom == m.rom
        }),
{
    let ops = single_prefix_handler();
    lemma_single_layout();
    let m1 = m.alu(Alu::Cp, 0xA3);
    lemma_one_step(ops, 0, m);
    lemma_one_step(ops, 1, m1);
    lemma_join(ops, At::Pc(0), m, 1, At::Pc(1), m1, 1, At::Outside(0x9A3E), m1);
}

proof fn lemma_single_entry(ops: Seq<Op>, m: Machine) -> (r: Machine)
    requires
        single_at(ops),
        m.a == 0xA3,
        0 <= m.de < 0xFFFF,
    ensures
        run(ops, At::Pc(0), m, 6) == (At::Pc(6), r),
        r == (Machine {
            a: m.peek(m.de),
            de: m.de + 1,
            zero: true,
            carry: false,
            stack: m.stack.push(m.de + 1).push(m.hl),
            ..m
        }),
{
    let m1 = m.alu(Alu::Cp, 0xA3);
    lemma_one_step(ops, 0, m);
    lemma_one_step(ops, 1, m1);
    lemma_join(ops, At::Pc(0), m, 1, At::Pc(1), m1, 1, At::Pc(2), m1);
    let m2 = Machine { a: m.peek(m.de), ..m1 };
    lemma_one_step(ops, 2, m1);
    lemma_join(ops, At::Pc(0), m, 2, At::Pc(2), m1, 1, At::Pc(3), m2);
    let m3 = Machine { de: m.de + 1, ..m2 };
    lemma_one_step(ops, 3, m2);
    lemma_join(ops, At::Pc(0), m, 3, At::Pc(3), m2, 1, At::Pc(4), m3);
    let m4 = lemma_pushed(ops, 4, Pair::De, m3);
    lemma_join(ops, At::Pc(0), m, 4, At::Pc(4), m3, 1, At::Pc(5), m4);
    let m5 = lemma_pushed(ops, 5, Pair::Hl, m4);
    lemma_join(ops, At::Pc(0), m, 5, At::Pc(5), m4, 1, At::Pc(6), m5);
    m5
}

proof fn lemma_single_address(ops: Seq<Op>, m: Machine) -> (r: Machine)
    requires
        single_at(ops),
        0 <= m.hl < 0x10000,
    ensures
        run(ops, At::Pc(6), m, 6) == (At::Pc(12), r),
        r == (Machine { hl: 8 * m.a, de: 0x4000, carry: r.carry, ..m }),
{
    let m1 = Machine { hl: m.hl / 256 * 256 + m.a, ..m };
    lemma_one_step(ops, 6, m);
    let m2 = Machine { hl: m.a as int, ..m1 };
    assert(m1.hl % 256 == m.a);
    lemma_one_step(ops, 7, m1);
    assert(effect(ops[7], m1) == m2);
    lemma_join(ops, At::Pc(6), m, 1, At::Pc(7), m1, 1, At::Pc(8), m2);
    let m3 = lemma_hl_doubled(ops, 8, m2);
    lemma_join(ops, At::Pc(6), m, 2, At::Pc(8), m2, 1, At::Pc(9), m3);
    let m4 = lemma_hl_doubled(ops, 9, m3);
    lemma_join(ops, At::Pc(6), m, 3, At::Pc(9), m3, 1, At::Pc(10), m4);
    let m5 = lemma_hl_doubled(ops, 10, m4);
    lemma_join(ops, At::Pc(6), m, 4, At::Pc(10), m4, 1, At::Pc(11), m5);
    let m6 = Machine { de: 0x4000, ..m5 };
    lemma_one_step(ops, 11, m5);
    lemma_join(ops, At::Pc(6), m, 5, At::Pc(11), m5, 1, At::Pc(12), m6);
    m6
}

proof fn lemma_single_ready(ops: Seq<Op>, m: Machine, base: Seq<int>, dst: int) -> (r: Machine)
    requires
        single_at(ops),
        rows_at(ops, 16),
        m.de == 0x4000,
        0 <= m.hl < 0x1000,
        m.stack == base.push(dst),
    ensures
        run(ops, At::Pc(12), m, 5) == (At::Pc(17), r),
        r == (Machine {
            b: 8,
            de: 0x4000 + m.hl,
            hl: dst,
            stack: base.push(m.b * 256 + m.c),
            carry: false,
            ..m
        }),
{
    let m1 = Machine { hl: 0x4000 + m.hl, carry: false, ..m };
    lemma_one_step(ops, 12, m);
    let m2 = Machine { de: 0x4000 + m.hl, hl: 0x4000, ..m1 };
    lemma_one_step(ops, 13, m1);
    lemma_join(ops, At::Pc(12), m, 1, At::Pc(13), m1, 1, At::Pc(14), m2);
    let m3 = Machine { hl: dst, stack: base, ..m2 };
    assert(m2.stack.drop_last() =~= base);
    lemma_one_step(ops, 14, m2);
    lemma_join(ops, At::Pc(12), m, 2, At::Pc(14), m2, 1, At::Pc(15), m3);
    let m4 = lemma_pushed(ops, 15, Pair::Bc, m3);
    lemma_join(ops, At::Pc(12), m, 3, At::Pc(15), m3, 1, At::Pc(16), m4);
    let m5 = Machine { b: 8, ..m4 };
    lemma_one_step(ops, 16, m4);
    lemma_join(ops, At::Pc(12), m, 4, At::Pc(16), m4, 1, At::Pc(17), m5);
    m5
}

proof fn lemma_single_return(ops: Seq<Op>, m: Machine, base: Seq<int>, de: int, bc: int) -> (r: Machine)
    requires
        single_at(ops),
        m.stack == base.push(de).push(bc),
    ensures
        run(ops, At::Pc(46), m, 3) == (At::Returned, r),
        r == (Machine {
            b: (bc / 256) as u8,
            c: (bc % 256) as u8,
            de,
            stack: base,
            ..m
        }),
{
    let m1 = Machine {
        b: (bc / 256) as u8,
        c: (bc % 256) as u8,
        stack: base.push(de),
        ..m
    };
    assert(m.stack.drop_last() =~= base.push(de));
    lemma_one_step(ops, 46, m);
    let m2 = Machine { de, stack: base, ..m1 };
    assert(m1.stack.drop_last() =~= base);
    lemma_one_step(ops, 47, m1);
    lemma_join(ops, At::Pc(46), m, 1, At::Pc(47), m1, 1, At::Pc(48), m2);
    lemma_one_step(ops, 48, m2);
    lemma_join(ops, At::Pc(46), m, 2, At::Pc(48), m2, 1, At::Returned, m2);
    m2
}

/// For its prefix the handler of a single prefix draws the glyph whose number is the byte
/// behind it, from the bank that the first slot shows, and returns: rows are drawn as by the
/// handler of all prefixes, all other memory is as before, and so are the stack and the
/// registers of the caller. The text goes on behind the second byte.
pub proof fn law_single_prefix_draws_glyph(m: Machine) -> (n: nat)
    requires
        m.a == 0xA3,
        0 <= m.de < 0xFFFF,
        0xC000 <= m.hl,
        m.hl + 32 <= 0xFFFC,
    ensures
        ({
            let r = run(single_prefix_handler(), At::Pc(0), m, n);
            let glyph = Seq::new(8, |i: int| m.peek(0x4000 + 8 * m.peek(m.de) + i));
            &&& r.0 == At::Returned
            &&& r.1.b == m.b && r.1.c == m.c
            &&& r.1.de == m.de + 1
            &&& r.1.hl == m.hl + 32
            &&& r.1.stack == m.stack
            &&& r.1.rom == m.rom
            &&& forall|i: int| #[trigger] r.1.ram[i] == drawn_byte(m.ram, m.c, glyph, m.hl, i)
        }),
{
    let ops = single_prefix_handler();
    let glyph = Seq::new(8, |i: int| m.peek(0x4000 + 8 * m.peek(m.de) + i));
    lemma_single_layout();
    let m1 = lemma_single_entry(ops, m);
    let m2 = lemma_single_address(ops, m1);
    lemma_join(ops, At::Pc(0), m, 6, At::Pc(6), m1, 6, At::Pc(12), m2);
    let base = m.stack.push(m.de + 1);
    let m3 = lemma_single_ready(ops, m2, base, m.hl);
    lemma_join(ops, At::Pc(0), m, 12, At::Pc(12), m2, 5, At::Pc(17), m3);
    assert forall|i: int| 0 <= i < glyph.len() implies m3.peek(m3.de + i) == #[trigger] glyph[i] by {
        assert(m3.de + i == 0x4000 + 8 * m.peek(m.de) + i);
    }
    let n4 = lemma_rows(ops, 16, m3, glyph);
    let m4 = run(ops, At::Pc(17), m3, n4).1;
    lemma_join(ops, At::Pc(0), m, 17, At::Pc(17), m3, n4, At::Pc(46), m4);
    let bc = m.b * 256 + m.c;
    let m5 = lemma_single_return(ops, m4, m.stack, m.de + 1, bc);
    lemma_join(ops, At::Pc(0), m, 17 + n4, At::Pc(46), m4, 3, At::Returned, m5);
    assert(bc / 256 == m.b as int && bc % 256 == m.c as int);
    assert forall|i: int| #[trigger] m5.ram[i] == drawn_byte(m.ram, m.c, glyph, m.hl, i) by {
        lemma_drawn(m3.ram, m3.c, glyph, m.hl, i);
    }
    20 + n4
}

} // verus!
