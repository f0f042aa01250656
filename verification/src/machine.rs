//! The 6502 processor of a Commodore 64 as a mathematical machine: its memory,
//! its registers, and what one instruction does to them.
//!
//! The sound chip answers at the addresses $D400 to $D7FF, its registers repeated
//! every 32 bytes; everything else is RAM.

use crate::chip::{chip_reading, ChipEvent};
use vstd::prelude::*;

verus! {

/// Bytes of memory.
pub const RAM_SIZE: usize = 0x10000;

/// Number of chip registers that are shadowed.
pub const NUM_REGS: usize = 0x20;

/// Carry.
pub const C: u8 = 0x01;

/// Zero.
pub const Z: u8 = 0x02;

/// Interrupt disable.
pub const I: u8 = 0x04;

/// Decimal mode.
pub const D: u8 = 0x08;

/// The two bits of a pushed status byte that stand for no flag: the break bit,
/// and the one above it, which is always set.
pub const B: u8 = 0x10;

pub const U: u8 = 0x20;

/// Overflow.
pub const V: u8 = 0x40;

/// Negative.
pub const N: u8 = 0x80;

/// What an instruction does. `Cpa` compares with the accumulator.
#[derive(Clone, Copy, PartialEq, Eq, Structural, Debug)]
pub enum Op {
    Adc, Sbc, And, Ora, Eor, Cpa, Lda, Sta, Asl, Lsr, Rol, Ror, Dec, Inc, Bit, Cpx,
    Cpy, Ldx, Ldy, Stx, Sty, Bpl, Bmi, Bvc, Bvs, Bcc, Bcs, Bne, Beq, Jmp, Jsr, Rts,
    Rti, Dex, Inx, Dey, Iny, Tax, Tay, Txa, Tya, Tsx, Txs, Pha, Pla, Php, Plp, Clc,
    Sec, Cli, Sei, Clv, Cld, Sed, Nop,
}

/// Where an instruction finds its operand.
#[derive(Clone, Copy, PartialEq, Eq, Structural, Debug)]
pub enum Mode {
    /// Nowhere: the instruction needs none.
    Imp,
    /// In the accumulator.
    Acc,
    /// In the byte after the opcode.
    Imm,
    /// In the zero page, at the address after the opcode.
    Zp,
    /// The same with X or Y added, staying in the zero page.
    ZpX,
    ZpY,
    /// At the two-byte address after the opcode.
    Abs,
    /// The same with X or Y added.
    AbsX,
    AbsY,
    /// At the address that stands in the zero page at the byte plus X.
    IndX,
    /// At the address that stands in the zero page at the byte, plus Y.
    IndY,
    /// At the address that stands at the two-byte address after the opcode.
    Ind,
    /// So many bytes after the instruction, as a signed byte.
    Rel,
}

/// The instruction that an opcode stands for; `None` for those not emulated.
pub open spec fn decoded(op: u8) -> Option<(Op, Mode)> {
    match op {
        0x69 => Some((Op::Adc, Mode::Imm)),
        0x65 => Some((Op::Adc, Mode::Zp)),
        0x75 => Some((Op::Adc, Mode::ZpX)),
        0x6d => Some((Op::Adc, Mode::Abs)),
        0x7d => Some((Op::Adc, Mode::AbsX)),
        0x79 => Some((Op::Adc, Mode::AbsY)),
        0x61 => Some((Op::Adc, Mode::IndX)),
        0x71 => Some((Op::Adc, Mode::IndY)),
        0xe9 => Some((Op::Sbc, Mode::Imm)),
        0xe5 => Some((Op::Sbc, Mode::Zp)),
        0xf5 => Some((Op::Sbc, Mode::ZpX)),
        0xed => Some((Op::Sbc, Mode::Abs)),
        0xfd => Some((Op::Sbc, Mode::AbsX)),
        0xf9 => Some((Op::Sbc, Mode::AbsY)),
        0xe1 => Some((Op::Sbc, Mode::IndX)),
        0xf1 => Some((Op::Sbc, Mode::IndY)),
        0x29 => Some((Op::And, Mode::Imm)),
        0x25 => Some((Op::And, Mode::Zp)),
        0x35 => Some((Op::And, Mode::ZpX)),
        0x2d => Some((Op::And, Mode::Abs)),
        0x3d => Some((Op::And, Mode::AbsX)),
        0x39 => Some((Op::And, Mode::AbsY)),
        0x21 => Some((Op::And, Mode::IndX)),
        0x31 => Some((Op::And, Mode::IndY)),
        0x09 => Some((Op::Ora, Mode::Imm)),
        0x05 => Some((Op::Ora, Mode::Zp)),
        0x15 => Some((Op::Ora, Mode::ZpX)),
        0x0d => Some((Op::Ora, Mode::Abs)),
        0x1d => Some((Op::Ora, Mode::AbsX)),
        0x19 => Some((Op::Ora, Mode::AbsY)),
        0x01 => Some((Op::Ora, Mode::IndX)),
        0x11 => Some((Op::Ora, Mode::IndY)),
        0x49 => Some((Op::Eor, Mode::Imm)),
        0x45 => Some((Op::Eor, Mode::Zp)),
        0x55 => Some((Op::Eor, Mode::ZpX)),
        0x4d => Some((Op::Eor, Mode::Abs)),
        0x5d => Some((Op::Eor, Mode::AbsX)),
        0x59 => Some((Op::Eor, Mode::AbsY)),
        0x41 => Some((Op::Eor, Mode::IndX)),
        0x51 => Some((Op::Eor, Mode::IndY)),
        0xc9 => Some((Op::Cpa, Mode::Imm)),
        0xc5 => Some((Op::Cpa, Mode::Zp)),
        0xd5 => Some((Op::Cpa, Mode::ZpX)),
        0xcd => Some((Op::Cpa, Mode::Abs)),
        0xdd => Some((Op::Cpa, Mode::AbsX)),
        0xd9 => Some((Op::Cpa, Mode::AbsY)),
        0xc1 => Some((Op::Cpa, Mode::IndX)),
        0xd1 => Some((Op::Cpa, Mode::IndY)),
        0xa9 => Some((Op::Lda, Mode::Imm)),
        0xa5 => Some((Op::Lda, Mode::Zp)),
        0xb5 => Some((Op::Lda, Mode::ZpX)),
        0xad => Some((Op::Lda, Mode::Abs)),
        0xbd => Some((Op::Lda, Mode::AbsX)),
        0xb9 => Some((Op::Lda, Mode::AbsY)),
        0xa1 => Some((Op::Lda, Mode::IndX)),
        0xb1 => Some((Op::Lda, Mode::IndY)),
        0x85 => Some((Op::Sta, Mode::Zp)),
        0x95 => Some((Op::Sta, Mode::ZpX)),
        0x8d => Some((Op::Sta, Mode::Abs)),
        0x9d => Some((Op::Sta, Mode::AbsX)),
        0x99 => Some((Op::Sta, Mode::AbsY)),
        0x81 => Some((Op::Sta, Mode::IndX)),
        0x91 => Some((Op::Sta, Mode::IndY)),
        0x0a => Some((Op::Asl, Mode::Acc)),
        0x06 => Some((Op::Asl, Mode::Zp)),
        0x16 => Some((Op::Asl, Mode::ZpX)),
        0x0e => Some((Op::Asl, Mode::Abs)),
        0x1e => Some((Op::Asl, Mode::AbsX)),
        0x4a => Some((Op::Lsr, Mode::Acc)),
        0x46 => Some((Op::Lsr, Mode::Zp)),
        0x56 => Some((Op::Lsr, Mode::ZpX)),
        0x4e => Some((Op::Lsr, Mode::Abs)),
        0x5e => Some((Op::Lsr, Mode::AbsX)),
        0x2a => Some((Op::Rol, Mode::Acc)),
        0x26 => Some((Op::Rol, Mode::Zp)),
        0x36 => Some((Op::Rol, Mode::ZpX)),
        0x2e => Some((Op::Rol, Mode::Abs)),
        0x3e => Some((Op::Rol, Mode::AbsX)),
        0x6a => Some((Op::Ror, Mode::Acc)),
        0x66 => Some((Op::Ror, Mode::Zp)),
        0x76 => Some((Op::Ror, Mode::ZpX)),
        0x6e => Some((Op::Ror, Mode::Abs)),
        0x7e => Some((Op::Ror, Mode::AbsX)),
        0xc6 => Some((Op::Dec, Mode::Zp)),
        0xd6 => Some((Op::Dec, Mode::ZpX)),
        0xce => Some((Op::Dec, Mode::Abs)),
        0xde => Some((Op::Dec, Mode::AbsX)),
        0xe6 => Some((Op::Inc, Mode::Zp)),
        0xf6 => Some((Op::Inc, Mode::ZpX)),
        0xee => Some((Op::Inc, Mode::Abs)),
        0xfe => Some((Op::Inc, Mode::AbsX)),
        0x24 => Some((Op::Bit, Mode::Zp)),
        0x2c => Some((Op::Bit, Mode::Abs)),
        0xe0 => Some((Op::Cpx, Mode::Imm)),
        0xe4 => Some((Op::Cpx, Mode::Zp)),
        0xec => Some((Op::Cpx, Mode::Abs)),
        0xc0 => Some((Op::Cpy, Mode::Imm)),
        0xc4 => Some((Op::Cpy, Mode::Zp)),
        0xcc => Some((Op::Cpy, Mode::Abs)),
        0xa2 => Some((Op::Ldx, Mode::Imm)),
        0xa6 => Some((Op::Ldx, Mode::Zp)),
        0xb6 => Some((Op::Ldx, Mode::ZpY)),
        0xae => Some((Op::Ldx, Mode::Abs)),
        0xbe => Some((Op::Ldx, Mode::AbsY)),
        0xa0 => Some((Op::Ldy, Mode::Imm)),
        0xa4 => Some((Op::Ldy, Mode::Zp)),
        0xb4 => Some((Op::Ldy, Mode::ZpX)),
        0xac => Some((Op::Ldy, Mode::Abs)),
        0xbc => Some((Op::Ldy, Mode::AbsX)),
        0x86 => Some((Op::Stx, Mode::Zp)),
        0x96 => Some((Op::Stx, Mode::ZpY)),
        0x8e => Some((Op::Stx, Mode::Abs)),
        0x84 => Some((Op::Sty, Mode::Zp)),
        0x94 => Some((Op::Sty, Mode::ZpX)),
        0x8c => Some((Op::Sty, Mode::Abs)),
        0x10 => Some((Op::Bpl, Mode::Rel)),
        0x30 => Some((Op::Bmi, Mode::Rel)),
        0x50 => Some((Op::Bvc, Mode::Rel)),
        0x70 => Some((Op::Bvs, Mode::Rel)),
        0x90 => Some((Op::Bcc, Mode::Rel)),
        0xb0 => Some((Op::Bcs, Mode::Rel)),
        0xd0 => Some((Op::Bne, Mode::Rel)),
        0xf0 => Some((Op::Beq, Mode::Rel)),
        0x4c => Some((Op::Jmp, Mode::Abs)),
        0x6c => Some((Op::Jmp, Mode::Ind)),
        0x20 => Some((Op::Jsr, Mode::Abs)),
        0x60 => Some((Op::Rts, Mode::Imp)),
        0x40 => Some((Op::Rti, Mode::Imp)),
        0xca => Some((Op::Dex, Mode::Imp)),
        0xe8 => Some((Op::Inx, Mode::Imp)),
        0x88 => Some((Op::Dey, Mode::Imp)),
        0xc8 => Some((Op::Iny, Mode::Imp)),
        0xaa => Some((Op::Tax, Mode::Imp)),
        0xa8 => Some((Op::Tay, Mode::Imp)),
        0x8a => Some((Op::Txa, Mode::Imp)),
        0x98 => Some((Op::Tya, Mode::Imp)),
        0xba => Some((Op::Tsx, Mode::Imp)),
        0x9a => Some((Op::Txs, Mode::Imp)),
        0x48 => Some((Op::Pha, Mode::Imp)),
        0x68 => Some((Op::Pla, Mode::Imp)),
        0x08 => Some((Op::Php, Mode::Imp)),
        0x28 => Some((Op::Plp, Mode::Imp)),
        0x18 => Some((Op::Clc, Mode::Imp)),
        0x38 => Some((Op::Sec, Mode::Imp)),
        0x58 => Some((Op::Cli, Mode::Imp)),
        0x78 => Some((Op::Sei, Mode::Imp)),
        0xb8 => Some((Op::Clv, Mode::Imp)),
        0xd8 => Some((Op::Cld, Mode::Imp)),
        0xf8 => Some((Op::Sed, Mode::Imp)),
        0x1a | 0x3a | 0x5a | 0x7a | 0xda | 0xea | 0xfa => Some((Op::Nop, Mode::Imp)),
        _ => None,
    }
}

/// The 16-bit word with these low and high bytes.
pub open spec fn word(lo: u8, hi: u8) -> u16 {
    (lo + 256 * hi) as u16
}

/// A byte as a signed number.
pub open spec fn signed(b: u8) -> int {
    if b < 128 {
        b as int
    } else {
        b - 256
    }
}

pub open spec fn bit(on: bool) -> int {
    if on {
        1
    } else {
        0
    }
}

/// An address that the sound chip answers.
pub open spec fn in_chip(addr: u16) -> bool {
    0xd400 <= addr <= 0xd7ff
}

/// The chip register behind an address.
pub open spec fn chip_reg(addr: u16) -> u8 {
    (addr % 32) as u8
}

/// The processor, its memory and the history of the sound chip.
#[verifier::ext_equal]
pub struct Machine {
    pub a: u8,
    pub x: u8,
    pub y: u8,
    /// The stack pointer: the stack lies at $0100, growing down.
    pub sp: u8,
    pub pc: u16,
    /// The flags: N V - B D I Z C.
    pub p: u8,
    pub ram: Seq<u8>,
    /// What was last written to each chip register.
    pub regs: Seq<u8>,
    /// An opcode that is not emulated was met.
    pub halt: bool,
    pub log: Seq<ChipEvent>,
}

/// The machine that power-on leaves, with a chip of this history.
pub open spec fn reset_machine(log: Seq<ChipEvent>) -> Machine {
    Machine {
        a: 0,
        x: 0,
        y: 0,
        sp: 0xff,
        pc: 0,
        p: 0x24,
        ram: Seq::new(RAM_SIZE as nat, |i: int| 0u8),
        regs: Seq::new(NUM_REGS as nat, |i: int| 0u8),
        halt: false,
        log,
    }
}

impl Machine {
    /// Memory and register shadow have their sizes.
    pub open spec fn wf(self) -> bool {
        &&& self.ram.len() == RAM_SIZE
        &&& self.regs.len() == NUM_REGS
    }

    /// The byte at an address.
    pub open spec fn get(self, addr: u16) -> u8 {
        if in_chip(addr) {
            chip_reading(self.log, chip_reg(addr))
        } else {
            self.ram[addr as int]
        }
    }

    /// A byte stored at an address.
    pub open spec fn put(self, addr: u16, v: u8) -> Machine {
        if in_chip(addr) {
            Machine {
                regs: self.regs.update(chip_reg(addr) as int, v),
                log: self.log.push(ChipEvent::Write(chip_reg(addr), v)),
                ..self
            }
        } else {
            Machine { ram: self.ram.update(addr as int, v), ..self }
        }
    }

    /// The little-endian word at an address.
    pub open spec fn get16(self, addr: u16) -> u16 {
        word(self.get(addr), self.get(addr.wrapping_add(1)))
    }

    /// The word in the zero page at `z`, which wraps within the page.
    pub open spec fn zp16(self, z: u8) -> u16 {
        word(self.get(z as u16), self.get(z.wrapping_add(1) as u16))
    }

    pub open spec fn flag(self, f: u8) -> bool {
        self.p & f != 0
    }

    pub open spec fn set(self, f: u8, on: bool) -> Machine {
        Machine {
            p: if on {
                self.p | f
            } else {
                self.p & !f
            },
            ..self
        }
    }

    /// The zero and negative flags follow a value.
    pub open spec fn zn(self, v: u8) -> Machine {
        self.set(Z, v == 0).set(N, v >= 128)
    }

    /// A memory image at an address; what lies beyond the end of memory is lost.
    pub open spec fn loaded(self, load: u16, body: Seq<u8>) -> Machine {
        Machine {
            ram: Seq::new(
                self.ram.len(),
                |i: int|
                    if load <= i < load + body.len() {
                        body[i - load]
                    } else {
                        self.ram[i]
                    },
            ),
            ..self
        }
    }

    /// The chip clocked for so many cycles with room for so many samples.
    pub open spec fn clocked(self, cycles: u32, room: nat) -> Machine {
        Machine { log: self.log.push(ChipEvent::Clock(cycles, room)), ..self }
    }

    pub open spec fn push(self, v: u8) -> Machine {
        Machine {
            ram: self.ram.update(0x100 + self.sp, v),
            sp: self.sp.wrapping_sub(1),
            ..self
        }
    }

    /// The byte on top of the stack.
    pub open spec fn top(self) -> u8 {
        self.ram[0x100 + self.sp.wrapping_add(1)]
    }

    pub open spec fn pop(self) -> Machine {
        Machine { sp: self.sp.wrapping_add(1), ..self }
    }

    pub open spec fn push16(self, v: u16) -> Machine {
        self.push((v / 256) as u8).push((v % 256) as u8)
    }

    pub open spec fn top16(self) -> u16 {
        word(self.top(), self.pop().top())
    }

    pub open spec fn at(self, pc: u16) -> Machine {
        Machine { pc, ..self }
    }

    pub open spec fn skip(self, n: u16) -> Machine {
        self.at(self.pc.wrapping_add(n))
    }

    pub open spec fn load_a(self, v: u8) -> Machine {
        Machine { a: v, ..self }.zn(v)
    }

    pub open spec fn load_x(self, v: u8) -> Machine {
        Machine { x: v, ..self }.zn(v)
    }

    pub open spec fn load_y(self, v: u8) -> Machine {
        Machine { y: v, ..self }.zn(v)
    }

    /// A byte stored at an address, with the flags following it.
    pub open spec fn store(self, addr: u16, v: u8) -> Machine {
        self.put(addr, v).zn(v)
    }

    /// The number of operand bytes of a mode.
    pub open spec fn operand_bytes(mode: Mode) -> u16 {
        match mode {
            Mode::Imp | Mode::Acc => 0,
            Mode::Abs | Mode::AbsX | Mode::AbsY | Mode::Ind => 2,
            _ => 1,
        }
    }

    /// The address that a mode names, with the operand bytes at `pc`. A pointer
    /// in the last byte of a page takes its high byte from the same page.
    pub open spec fn address(self, mode: Mode) -> u16 {
        let b = self.get(self.pc);
        let w = self.get16(self.pc);
        match mode {
            Mode::Imp | Mode::Acc => 0,
            Mode::Imm => self.pc,
            Mode::Zp => b as u16,
            Mode::ZpX => b.wrapping_add(self.x) as u16,
            Mode::ZpY => b.wrapping_add(self.y) as u16,
            Mode::Abs => w,
            Mode::AbsX => w.wrapping_add(self.x as u16),
            Mode::AbsY => w.wrapping_add(self.y as u16),
            Mode::IndX => self.zp16(b.wrapping_add(self.x)),
            Mode::IndY => self.zp16(b).wrapping_add(self.y as u16),
            Mode::Ind => word(self.get(w), self.get(((w / 256) * 256 + (w + 1) % 256) as u16)),
            Mode::Rel => ((self.pc + 1 + signed(b)) % 0x10000) as u16,
        }
    }

    /// Addition with carry. In decimal mode each nibble is a digit; the overflow
    /// flag then looks at the high digit before it is corrected.
    pub open spec fn adc(self, v: u8) -> Machine {
        let a = self.a;
        let c = bit(self.flag(C));
        if self.flag(D) {
            let lo = a % 16 + v % 16 + c;
            let hi = a / 16 + v / 16 + bit(lo > 9);
            let over = (a < 128) == (v < 128) && (a < 128) != (hi % 16 < 8);
            let lo_digit = if lo > 9 {
                lo + 6
            } else {
                lo
            };
            let hi_digit = if hi > 9 {
                hi + 6
            } else {
                hi
            };
            self.set(C, hi_digit > 15).set(V, over).load_a(
                (16 * (hi_digit % 16) + lo_digit % 16) as u8,
            )
        } else {
            let sum = a + v + c;
            let over = !(-128 <= signed(a) + signed(v) + c <= 127);
            self.set(C, sum > 255).set(V, over).load_a((sum % 256) as u8)
        }
    }

    /// Subtraction; a clear carry is a borrow. Carry and overflow are those of
    /// the binary difference in both modes.
    pub open spec fn sbc(self, v: u8) -> Machine {
        let a = self.a;
        let b = bit(!self.flag(C));
        let diff = a - v - b;
        let over = !(-128 <= signed(a) - signed(v) - b <= 127);
        let res = if self.flag(D) {
            let lo = a % 16 - v % 16 - b;
            let hi = a / 16 - v / 16 - bit(lo < 0);
            let lo_digit = if lo < 0 {
                lo - 6
            } else {
                lo
            };
            let hi_digit = if hi < 0 {
                hi - 6
            } else {
                hi
            };
            16 * (hi_digit % 16) + lo_digit % 16
        } else {
            diff % 256
        };
        self.set(C, diff >= 0).set(V, over).load_a(res as u8)
    }

    /// Comparison of a register with a value.
    pub open spec fn compare(self, reg: u8, v: u8) -> Machine {
        self.set(C, reg >= v).zn(reg.wrapping_sub(v))
    }

    /// The flags from a status byte off the stack.
    pub open spec fn pull_flags(self) -> Machine {
        Machine { p: (self.top() & !B) | U, ..self.pop() }
    }

    /// A shift or rotation of a value by one place.
    pub open spec fn shifted(self, op: Op, v: u8) -> u8 {
        let c = bit(self.flag(C));
        (match op {
            Op::Asl => (2 * v) % 256,
            Op::Lsr => v as int / 2,
            Op::Rol => (2 * v) % 256 + c,
            _ => v as int / 2 + 128 * c,
        }) as u8
    }

    /// The carry that the shift leaves: the bit that fell out.
    pub open spec fn shifted_out(op: Op, v: u8) -> bool {
        match op {
            Op::Asl | Op::Rol => v >= 128,
            _ => v % 2 == 1,
        }
    }

    /// The condition of a branch.
    pub open spec fn taken(self, op: Op) -> bool {
        match op {
            Op::Bpl => !self.flag(N),
            Op::Bmi => self.flag(N),
            Op::Bvc => !self.flag(V),
            Op::Bvs => self.flag(V),
            Op::Bcc => !self.flag(C),
            Op::Bcs => self.flag(C),
            Op::Bne => !self.flag(Z),
            _ => self.flag(Z),
        }
    }

    /// One instruction, with `pc` behind its operand and `addr` the address that
    /// its mode named.
    pub open spec fn executed(self, op: Op, mode: Mode, addr: u16) -> Machine {
        let v = self.get(addr);
        match op {
            Op::Adc => self.adc(v),
            Op::Sbc => self.sbc(v),
            Op::And => self.load_a(self.a & v),
            Op::Ora => self.load_a(self.a | v),
            Op::Eor => self.load_a(self.a ^ v),
            Op::Cpa => self.compare(self.a, v),
            Op::Cpx => self.compare(self.x, v),
            Op::Cpy => self.compare(self.y, v),
            Op::Lda => self.load_a(v),
            Op::Ldx => self.load_x(v),
            Op::Ldy => self.load_y(v),
            Op::Sta => self.put(addr, self.a),
            Op::Stx => self.put(addr, self.x),
            Op::Sty => self.put(addr, self.y),
            Op::Asl | Op::Lsr | Op::Rol | Op::Ror => if mode == Mode::Acc {
                self.set(C, Self::shifted_out(op, self.a)).load_a(self.shifted(op, self.a))
            } else {
                self.set(C, Self::shifted_out(op, v)).store(addr, self.shifted(op, v))
            },
            Op::Dec => self.store(addr, v.wrapping_sub(1)),
            Op::Inc => self.store(addr, v.wrapping_add(1)),
            Op::Bit => self.set(Z, self.a & v == 0).set(N, v >= 128).set(V, v & 0x40 != 0),
            Op::Bpl | Op::Bmi | Op::Bvc | Op::Bvs | Op::Bcc | Op::Bcs | Op::Bne | Op::Beq =>
            if self.taken(op) {
                self.at(addr)
            } else {
                self
            },
            Op::Jmp => self.at(addr),
            Op::Jsr => self.push16(self.pc.wrapping_sub(1)).at(addr),
            Op::Rts => self.pop().pop().at(self.top16().wrapping_add(1)),
            Op::Rti => self.pull_flags().pop().pop().at(self.pop().top16()),
            Op::Dex => self.load_x(self.x.wrapping_sub(1)),
            Op::Inx => self.load_x(self.x.wrapping_add(1)),
            Op::Dey => self.load_y(self.y.wrapping_sub(1)),
            Op::Iny => self.load_y(self.y.wrapping_add(1)),
            Op::Tax => self.load_x(self.a),
            Op::Tay => self.load_y(self.a),
            Op::Txa => self.load_a(self.x),
            Op::Tya => self.load_a(self.y),
            Op::Tsx => self.load_x(self.sp),
            Op::Txs => Machine { sp: self.x, ..self },
            Op::Pha => self.push(self.a),
            Op::Pla => self.pop().load_a(self.top()),
            Op::Php => self.push(self.p | B | U),
            Op::Plp => self.pull_flags(),
            Op::Clc => self.set(C, false),
            Op::Sec => self.set(C, true),
            Op::Cli => self.set(I, false),
            Op::Sei => self.set(I, true),
            Op::Clv => self.set(V, false),
            Op::Cld => self.set(D, false),
            Op::Sed => self.set(D, true),
            Op::Nop => self,
        }
    }

    /// One instruction: fetched, its operand resolved, executed. An opcode that
    /// is not emulated changes nothing but sets `halt`.
    pub open spec fn step(self) -> Machine {
        match decoded(self.get(self.pc)) {
            Some((op, mode)) => {
                let fetched = self.skip(1);
                fetched.skip(Self::operand_bytes(mode)).executed(op, mode, fetched.address(mode))
            },
            None => Machine { halt: true, ..self },
        }
    }

    /// The routine at `pc` has come to the return that leaves it.
    pub open spec fn returning(self, entry_sp: u8) -> bool {
        self.get(self.pc) == 0x60 && self.sp >= entry_sp
    }

    /// Instructions until the routine returns or halts, and at most `spare + 1`.
    pub open spec fn run(self, entry_sp: u8, spare: nat) -> Machine
        decreases spare,
    {
        if self.returning(entry_sp) {
            self
        } else if self.step().halt || spare == 0 {
            self.step()
        } else {
            self.step().run(entry_sp, (spare - 1) as nat)
        }
    }

    /// A call of the routine at `addr` with `a` in the accumulator.
    pub open spec fn called(self, addr: u16, a: u8) -> Machine {
        Machine { a, pc: addr, halt: false, ..self }.run(self.sp, CALL_STEPS as nat)
    }
}

/// A routine is given up when it has run more instructions than this.
pub const CALL_STEPS: u32 = 2_000_000;

} // verus!
