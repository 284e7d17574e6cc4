use madoua_kr::glyph::{dynamic_punctuation_glyph, KO_COMMA, KO_PREFIXES, KO_TILDE};
use madoua_kr::rom::HANDLER_ROOM;
use madoua_kr::z80::{
    ko_handler_program, ko_prefix2_handler_program, Alu, Cond, Op, Pair, Place, Reg16, Reg8,
    GLYPH_RENDER_CONT_LOGICAL,
};

/// How many bytes an instruction takes.
fn op_len(op: &Op) -> usize {
    match op {
        Op::Mark(_) => 0,
        Op::JpCond(..) | Op::Jp(_) | Op::Call(_) => 3,
        Op::LdAFrom(_) | Op::LdToA(_) | Op::LdImm16(..) => 3,
        Op::AluImm(..) | Op::LdImm8(..) | Op::Bit(..) | Op::Res(..) => 2,
        Op::JrCond(..) | Op::Djnz(_) => 2,
        _ => 1,
    }
}

#[test]
fn western_punctuation_uses_series_synth_glyphs() {
    assert_eq!(dynamic_punctuation_glyph('~'), Some(KO_TILDE));
    assert_eq!(dynamic_punctuation_glyph(','), Some(KO_COMMA));
    assert_eq!(dynamic_punctuation_glyph('、'), None);
    assert_ne!(KO_COMMA, KO_TILDE);
}

#[test]
fn glyph_hook_handler_has_expected_shape() {
    let program = ko_prefix2_handler_program();
    assert!(program.iter().map(op_len).sum::<usize>() <= HANDLER_ROOM);
    assert_eq!(
        program[0],
        Op::AluImm(Alu::Cp, KO_PREFIXES[0]),
        "handler starts with cp first-prefix"
    );
    let tail = [
        Op::Dec8(Reg8::A),
        Op::Push(Pair::De),
        Op::ExDeHl,
        Op::Jp(GLYPH_RENDER_CONT_LOGICAL),
    ];
    assert!(
        program.windows(tail.len()).any(|w| w == tail),
        "orig path replays dec a; push de; ex de,hl then jp $9A41"
    );
}

/// A machine that runs the handlers.
struct Machine {
    a: u8,
    b: u8,
    c: u8,
    de: usize,
    hl: usize,
    zero: bool,
    carry: bool,
    stack: Vec<usize>,
    ram: Vec<u8>,
    rom: Vec<u8>,
}

impl Machine {
    fn peek(&self, at: usize) -> u8 {
        match at {
            0..=0x3FFF => self.rom[at],
            0x4000..=0x7FFF => self.rom[self.ram[0xFFFE] as usize * 0x4000 + at - 0x4000],
            0x8000..=0xBFFF => self.rom[self.ram[0xFFFF] as usize * 0x4000 + at - 0x8000],
            _ => self.ram[at],
        }
    }

    fn get(&self, r: Reg8) -> u8 {
        match r {
            Reg8::A => self.a,
            Reg8::B => self.b,
            Reg8::C => self.c,
            Reg8::H => (self.hl >> 8) as u8,
            Reg8::L => self.hl as u8,
            Reg8::AtHl => self.peek(self.hl),
        }
    }

    fn set(&mut self, r: Reg8, v: u8) {
        match r {
            Reg8::A => self.a = v,
            Reg8::B => self.b = v,
            Reg8::C => self.c = v,
            Reg8::H => self.hl = (v as usize) << 8 | self.hl & 0xFF,
            Reg8::L => self.hl = self.hl & 0xFF00 | v as usize,
            Reg8::AtHl => self.ram[self.hl] = v,
        }
    }

    fn wide(&mut self, r: Reg16) -> &mut usize {
        match r {
            Reg16::De => &mut self.de,
            Reg16::Hl => &mut self.hl,
        }
    }

    fn alu(&mut self, op: Alu, n: u8) {
        let (a, keep) = match op {
            Alu::Sub => (self.a.wrapping_sub(n), false),
            Alu::Cp => (self.a.wrapping_sub(n), true),
            Alu::And => (self.a & n, false),
            Alu::Or => (self.a | n, false),
        };
        self.zero = a == 0;
        self.carry = matches!(op, Alu::Sub | Alu::Cp) && self.a < n;
        if !keep {
            self.a = a;
        }
    }

    fn holds(&self, c: Cond) -> bool {
        match c {
            Cond::Nz => !self.zero,
            Cond::Z => self.zero,
            Cond::Nc => !self.carry,
            Cond::C => self.carry,
        }
    }

    /// Runs a program; where it leaves by a jump, the address.
    fn run(&mut self, ops: &[Op]) -> Option<u16> {
        let mark = |place: Place| ops.iter().position(|&op| op == Op::Mark(place)).unwrap();
        let mut pc = 0;
        loop {
            let op = ops[pc];
            pc += 1;
            match op {
                Op::AluImm(op, n) => self.alu(op, n),
                Op::AluReg(op, r) => self.alu(op, self.get(r)),
                Op::JpCond(c, to) if self.holds(c) => return Some(to),
                Op::JrCond(c, place) if self.holds(c) => pc = mark(place),
                Op::JpCond(..) | Op::JrCond(..) | Op::Mark(_) => {}
                Op::Jp(to) | Op::Call(to) => return Some(to),
                Op::Ret => return None,
                Op::Djnz(place) => {
                    self.b = self.b.wrapping_sub(1);
                    if self.b != 0 {
                        pc = mark(place);
                    }
                }
                Op::LdADe => self.a = self.peek(self.de),
                Op::LdAFrom(at) => self.a = self.peek(at as usize),
                Op::LdToA(at) => self.ram[at as usize] = self.a,
                Op::Ld8(to, from) => self.set(to, self.get(from)),
                Op::LdImm8(to, n) => self.set(to, n),
                Op::LdImm16(to, n) => *self.wide(to) = n as usize,
                Op::Inc16(r) => *self.wide(r) += 1,
                Op::Dec8(r) => {
                    let v = self.get(r).wrapping_sub(1);
                    self.zero = v == 0;
                    self.set(r, v);
                }
                Op::AddHl(r) => {
                    let sum = self.hl + *self.wide(r);
                    self.carry = sum > 0xFFFF;
                    self.hl = sum & 0xFFFF;
                }
                Op::ExDeHl => std::mem::swap(&mut self.de, &mut self.hl),
                Op::Push(p) => self.stack.push(match p {
                    Pair::Af => (self.a as usize) << 8,
                    Pair::Bc => (self.b as usize) << 8 | self.c as usize,
                    Pair::De => self.de,
                    Pair::Hl => self.hl,
                }),
                Op::Pop(p) => {
                    let v = self.stack.pop().unwrap();
                    match p {
                        Pair::Af => self.a = (v >> 8) as u8,
                        Pair::Bc => {
                            self.b = (v >> 8) as u8;
                            self.c = v as u8;
                        }
                        Pair::De => self.de = v,
                        Pair::Hl => self.hl = v,
                    }
                }
                Op::Rlca => self.a = self.a.rotate_left(1),
                Op::Rrca => self.a = self.a.rotate_right(1),
                Op::Bit(n, r) => self.zero = self.get(r) & (1 << n) == 0,
                Op::Res(n, r) => self.set(r, self.get(r) & !(1 << n)),
            }
        }
    }
}

fn machine(a: u8, c: u8, rank: usize) -> Machine {
    let mut rom = vec![0u8; 0x84000];
    for y in 0..8 {
        rom[0x80000 + 8 * rank + y] = 0x11 * (y as u8 + 1);
    }
    let mut ram = vec![0u8; 0x10000];
    ram[0xFFFE] = 7;
    Machine {
        a,
        b: 9,
        c,
        de: 0xD000,
        hl: 0xC100,
        zero: false,
        carry: false,
        stack: Vec::new(),
        ram,
        rom,
    }
}

#[test]
fn handler_draws_the_glyph_of_a_code() {
    for (prefix, base) in [(0xA3u8, 1u8), (0xA3, 250), (0xA4, 1), (0xA6, 250), (0xA5, 77)] {
        let rank = (prefix as usize - 0xA3) * 250 + base as usize - 1;
        let mut m = machine(prefix, 0x0A, rank);
        m.ram[0xD000] = base;
        assert_eq!(m.run(&ko_prefix2_handler_program()), None);
        for y in 0..8 {
            let row = 0x11 * (y as u8 + 1);
            let at = 0xC100 + 4 * y;
            assert_eq!(&m.ram[at..at + 4], &[0xFF, row, 0, row], "{prefix:X} {base}");
        }
        assert_eq!((m.b, m.de, m.ram[0xFFFE]), (9, 0xD001, 7));
        assert_eq!(m.c & 0x0F, 0x0A);
        assert!(m.stack.is_empty());
        assert_eq!(m.ram[0xC0FF], 0);
        assert_eq!(m.ram[0xC120], 0);
    }
}

#[test]
fn handler_passes_other_codes_through() {
    for a in [0x01u8, 0xA2, 0xA7, 0xFF] {
        let mut m = machine(a, 0x0A, 0);
        assert_eq!(m.run(&ko_prefix2_handler_program()), Some(0x9A41));
        assert_eq!((m.a, m.de, m.hl), (a - 1, 0xC100, 0xD000));
        assert_eq!(m.stack, [0xD000]);
    }
    let mut m = machine(0x10, 0x0A, 0);
    assert_eq!(m.run(&ko_handler_program()), Some(0x9A3E));
    assert_eq!(m.a, 0x10);
}
