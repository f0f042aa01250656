//! The processor that runs: memory, registers and the emulated sound chip, each
//! operation of it held to the mathematical machine.

use crate::chip::{can_sample, chip_log, chip_read, chip_sample, chip_samples, chip_write};
use crate::machine::{
    decoded, reset_machine, signed, word, B, C, CALL_STEPS, D, I, Machine, Mode, N, NUM_REGS,
    Op, RAM_SIZE, U, V, Z,
};
use crate::machine_laws::law_only_unknown_opcodes_halt;
use resid::Sid;
use vstd::prelude::*;

verus! {

/// A 6502 with 64K of RAM and a sound chip at $D400.
pub struct Cpu {
    a: u8,
    x: u8,
    y: u8,
    sp: u8,
    pc: u16,
    p: u8,
    ram: Vec<u8>,
    sid: Sid,
    regs: [u8; NUM_REGS],
    halt: bool,
}

impl View for Cpu {
    type V = Machine;

    closed spec fn view(&self) -> Machine {
        Machine {
            a: self.a,
            x: self.x,
            y: self.y,
            sp: self.sp,
            pc: self.pc,
            p: self.p,
            ram: self.ram@,
            regs: self.regs@,
            halt: self.halt,
            log: chip_log(self.sid),
        }
    }
}

/// The instruction that an opcode stands for.
pub fn decode(op: u8) -> (r: Option<(Op, Mode)>)
    ensures
        r == decoded(op),
{
    match op {
        0x69 => Some((Op::Adc, Mode::Imm)),
        0x65 => Some((Op::Adc, Mode::Zp)),
        0x75 => Some((Op::Adc, Mode::ZpX)),
        0x6d => Some((Op::Adc, Mode::Abs)),
        0x7d => Some((Op::Adc, Mode::AbsX)),
        0x79 => Some((Op::Adc, Mode::AbsY)),
        0x61 => Some((Op::Adc, Mode::IndX)),
        0x71 => Some((Op::Adc, Mode::IndY)),
        0xe9 => Some((Op::Sbc, Mode::Imm)),
        0xe5 => Some((Op::Sbc, Mode::Zp)),
        0xf5 => Some((Op::Sbc, Mode::ZpX)),
        0xed => Some((Op::Sbc, Mode::Abs)),
        0xfd => Some((Op::Sbc, Mode::AbsX)),
        0xf9 => Some((Op::Sbc, Mode::AbsY)),
        0xe1 => Some((Op::Sbc, Mode::IndX)),
        0xf1 => Some((Op::Sbc, Mode::IndY)),
        0x29 => Some((Op::And, Mode::Imm)),
        0x25 => Some((Op::And, Mode::Zp)),
        0x35 => Some((Op::And, Mode::ZpX)),
        0x2d => Some((Op::And, Mode::Abs)),
        0x3d => Some((Op::And, Mode::AbsX)),
        0x39 => Some((Op::And, Mode::AbsY)),
        0x21 => Some((Op::And, Mode::IndX)),
        0x31 => Some((Op::And, Mode::IndY)),
        0x09 => Some((Op::Ora, Mode::Imm)),
        0x05 => Some((Op::Ora, Mode::Zp)),
        0x15 => Some((Op::Ora, Mode::ZpX)),
        0x0d => Some((Op::Ora, Mode::Abs)),
        0x1d => Some((Op::Ora, Mode::AbsX)),
        0x19 => Some((Op::Ora, Mode::AbsY)),
        0x01 => Some((Op::Ora, Mode::IndX)),
        0x11 => Some((Op::Ora, Mode::IndY)),
        0x49 => Some((Op::Eor, Mode::Imm)),
        0x45 => Some((Op::Eor, Mode::Zp)),
        0x55 => Some((Op::Eor, Mode::ZpX)),
        0x4d => Some((Op::Eor, Mode::Abs)),
        0x5d => Some((Op::Eor, Mode::AbsX)),
        0x59 => Some((Op::Eor, Mode::AbsY)),
        0x41 => Some((Op::Eor, Mode::IndX)),
        0x51 => Some((Op::Eor, Mode::IndY)),
        0xc9 => Some((Op::Cpa, Mode::Imm)),
        0xc5 => Some((Op::Cpa, Mode::Zp)),
        0xd5 => Some((Op::Cpa, Mode::ZpX)),
        0xcd => Some((Op::Cpa, Mode::Abs)),
        0xdd => Some((Op::Cpa, Mode::AbsX)),
        0xd9 => Some((Op::Cpa, Mode::AbsY)),
        0xc1 => Some((Op::Cpa, Mode::IndX)),
        0xd1 => Some((Op::Cpa, Mode::IndY)),
        0xa9 => Some((Op::Lda, Mode::Imm)),
        0xa5 => Some((Op::Lda, Mode::Zp)),
        0xb5 => Some((Op::Lda, Mode::ZpX)),
        0xad => Some((Op::Lda, Mode::Abs)),
        0xbd => Some((Op::Lda, Mode::AbsX)),
        0xb9 => Some((Op::Lda, Mode::AbsY)),
        0xa1 => Some((Op::Lda, Mode::IndX)),
        0xb1 => Some((Op::Lda, Mode::IndY)),
        0x85 => Some((Op::Sta, Mode::Zp)),
        0x95 => Some((Op::Sta, Mode::ZpX)),
        0x8d => Some((Op::Sta, Mode::Abs)),
        0x9d => Some((Op::Sta, Mode::AbsX)),
        0x99 => Some((Op::Sta, Mode::AbsY)),
        0x81 => Some((Op::Sta, Mode::IndX)),
        0x91 => Some((Op::Sta, Mode::IndY)),
        0x0a => Some((Op::Asl, Mode::Acc)),
        0x06 => Some((Op::Asl, Mode::Zp)),
        0x16 => Some((Op::Asl, Mode::ZpX)),
        0x0e => Some((Op::Asl, Mode::Abs)),
        0x1e => Some((Op::Asl, Mode::AbsX)),
        0x4a => Some((Op::Lsr, Mode::Acc)),
        0x46 => Some((Op::Lsr, Mode::Zp)),
        0x56 => Some((Op::Lsr, Mode::ZpX)),
        0x4e => Some((Op::Lsr, Mode::Abs)),
        0x5e => Some((Op::Lsr, Mode::AbsX)),
        0x2a => Some((Op::Rol, Mode::Acc)),
        0x26 => Some((Op::Rol, Mode::Zp)),
        0x36 => Some((Op::Rol, Mode::ZpX)),
        0x2e => Some((Op::Rol, Mode::Abs)),
        0x3e => Some((Op::Rol, Mode::AbsX)),
        0x6a => Some((Op::Ror, Mode::Acc)),
        0x66 => Some((Op::Ror, Mode::Zp)),
        0x76 => Some((Op::Ror, Mode::ZpX)),
        0x6e => Some((Op::Ror, Mode::Abs)),
        0x7e => Some((Op::Ror, Mode::AbsX)),
        0xc6 => Some((Op::Dec, Mode::Zp)),
        0xd6 => Some((Op::Dec, Mode::ZpX)),
        0xce => Some((Op::Dec, Mode::Abs)),
        0xde => Some((Op::Dec, Mode::AbsX)),
        0xe6 => Some((Op::Inc, Mode::Zp)),
        0xf6 => Some((Op::Inc, Mode::ZpX)),
        0xee => Some((Op::Inc, Mode::Abs)),
        0xfe => Some((Op::Inc, Mode::AbsX)),
        0x24 => Some((Op::Bit, Mode::Zp)),
        0x2c => Some((Op::Bit, Mode::Abs)),
        0xe0 => Some((Op::Cpx, Mode::Imm)),
        0xe4 => Some((Op::Cpx, Mode::Zp)),
        0xec => Some((Op::Cpx, Mode::Abs)),
        0xc0 => Some((Op::Cpy, Mode::Imm)),
        0xc4 => Some((Op::Cpy, Mode::Zp)),
        0xcc => Some((Op::Cpy, Mode::Abs)),
        0xa2 => Some((Op::Ldx, Mode::Imm)),
        0xa6 => Some((Op::Ldx, Mode::Zp)),
        0xb6 => Some((Op::Ldx, Mode::ZpY)),
        0xae => Some((Op::Ldx, Mode::Abs)),
        0xbe => Some((Op::Ldx, Mode::AbsY)),
        0xa0 => Some((Op::Ldy, Mode::Imm)),
        0xa4 => Some((Op::Ldy, Mode::Zp)),
        0xb4 => Some((Op::Ldy, Mode::ZpX)),
        0xac => Some((Op::Ldy, Mode::Abs)),
        0xbc => Some((Op::Ldy, Mode::AbsX)),
        0x86 => Some((Op::Stx, Mode::Zp)),
        0x96 => Some((Op::Stx, Mode::ZpY)),
        0x8e => Some((Op::Stx, Mode::Abs)),
        0x84 => Some((Op::Sty, Mode::Zp)),
        0x94 => Some((Op::Sty, Mode::ZpX)),
        0x8c => Some((Op::Sty, Mode::Abs)),
        0x10 => Some((Op::Bpl, Mode::Rel)),
        0x30 => Some((Op::Bmi, Mode::Rel)),
        0x50 => Some((Op::Bvc, Mode::Rel)),
        0x70 => Some((Op::Bvs, Mode::Rel)),
        0x90 => Some((Op::Bcc, Mode::Rel)),
        0xb0 => Some((Op::Bcs, Mode::Rel)),
        0xd0 => Some((Op::Bne, Mode::Rel)),
        0xf0 => Some((Op::Beq, Mode::Rel)),
        0x4c => Some((Op::Jmp, Mode::Abs)),
        0x6c => Some((Op::Jmp, Mode::Ind)),
        0x20 => Some((Op::Jsr, Mode::Abs)),
        0x60 => Some((Op::Rts, Mode::Imp)),
        0x40 => Some((Op::Rti, Mode::Imp)),
        0xca => Some((Op::Dex, Mode::Imp)),
        0xe8 => Some((Op::Inx, Mode::Imp)),
        0x88 => Some((Op::Dey, Mode::Imp)),
        0xc8 => Some((Op::Iny, Mode::Imp)),
        0xaa => Some((Op::Tax, Mode::Imp)),
        0xa8 => Some((Op::Tay, Mode::Imp)),
        0x8a => Some((Op::Txa, Mode::Imp)),
        0x98 => Some((Op::Tya, Mode::Imp)),
        0xba => Some((Op::Tsx, Mode::Imp)),
        0x9a => Some((Op::Txs, Mode::Imp)),
        0x48 => Some((Op::Pha, Mode::Imp)),
        0x68 => Some((Op::Pla, Mode::Imp)),
        0x08 => Some((Op::Php, Mode::Imp)),
        0x28 => Some((Op::Plp, Mode::Imp)),
        0x18 => Some((Op::Clc, Mode::Imp)),
        0x38 => Some((Op::Sec, Mode::Imp)),
        0x58 => Some((Op::Cli, Mode::Imp)),
        0x78 => Some((Op::Sei, Mode::Imp)),
        0xb8 => Some((Op::Clv, Mode::Imp)),
        0xd8 => Some((Op::Cld, Mode::Imp)),
        0xf8 => Some((Op::Sed, Mode::Imp)),
        0x1a | 0x3a | 0x5a | 0x7a | 0xda | 0xea | 0xfa => Some((Op::Nop, Mode::Imp)),
        _ => None,
    }
}

fn make_word(lo: u8, hi: u8) -> (w: u16)
    ensures
        w == word(lo, hi),
{
    lo as u16 + 256 * hi as u16
}

impl Cpu {
    /// The processor at power-on, wired to a chip.
    pub fn new(sid: Sid) -> (cpu: Cpu)
        ensures
            cpu@ == reset_machine(chip_log(sid)),
    {
        let mut ram: Vec<u8> = Vec::new();
        ram.resize(RAM_SIZE, 0u8);
        let cpu = Cpu {
            a: 0,
            x: 0,
            y: 0,
            sp: 0xff,
            pc: 0,
            p: 0x24,
            ram,
            sid,
            regs: [0u8; NUM_REGS],
            halt: false,
        };
        assert(cpu@ =~= reset_machine(chip_log(sid)));
        cpu
    }

    /// The byte at an address.
    pub fn rd(&self, addr: u16) -> (v: u8)
        requires
            self@.wf(),
        ensures
            v == self@.get(addr),
    {
        if 0xd400 <= addr && addr <= 0xd7ff {
            chip_read(&self.sid, (addr % 32) as u8)
        } else {
            self.ram[addr as usize]
        }
    }

    /// Stores a byte at an address.
    pub fn wr(&mut self, addr: u16, v: u8)
        requires
            old(self)@.wf(),
        ensures
            final(self)@ == old(self)@.put(addr, v),
            final(self)@.wf(),
    {
        if 0xd400 <= addr && addr <= 0xd7ff {
            let reg: u8 = (addr % 32) as u8;
            chip_write(&mut self.sid, reg, v);
            self.regs[reg as usize] = v;
        } else {
            self.ram.set(addr as usize, v);
        }
        assert(self@ =~= old(self)@.put(addr, v));
    }

    /// Loads a memory image at an address; what lies beyond the end is dropped.
    pub fn load(&mut self, load: u16, body: &Vec<u8>)
        requires
            old(self)@.wf(),
        ensures
            final(self)@ == old(self)@.loaded(load, body@),
            final(self)@.wf(),
    {
        let mut i: usize = 0;
        let room: usize = RAM_SIZE - load as usize;
        while i < body.len() && i < room
            invariant
                self@.wf(),
                room == RAM_SIZE - load,
                i <= body@.len(),
                i <= room,
                self@ == old(self)@.loaded(load, body@.take(i as int)),
            decreases room - i,
        {
            self.ram.set(load as usize + i, body[i]);
            i += 1;
            assert(self@ =~= old(self)@.loaded(load, body@.take(i as int)));
        }
        assert(self@ =~= old(self)@.loaded(load, body@));
    }

    /// Clocks the chip for at most `cycles` cycles, with samples going to `out`
    /// from index `from` on. Returns their number and the cycles left over.
    pub fn sample(&mut self, cycles: u32, out: &mut [i16], from: usize) -> (r: (usize, u32))
        requires
            can_sample(old(self)@.log),
            cycles < 0x8000,
            from <= old(out)@.len(),
        ensures
            ({
                let room = (old(out)@.len() - from) as nat;
                let made = chip_samples(old(self)@.log, cycles, room);
                &&& r.0 == made.0.len()
                &&& r.1 == made.1
                &&& r.0 <= room
                &&& r.1 <= cycles
                &&& r.0 < room ==> r.1 == 0
                &&& final(out)@ == old(out)@.take(from as int) + made.0 + old(out)@.skip(from + r.0)
                &&& final(self)@ == old(self)@.clocked(cycles, room)
            }),
    {
        chip_sample(&mut self.sid, cycles, out, from)
    }

    /// The accumulator.
    pub fn accumulator(&self) -> (a: u8)
        ensures
            a == self@.a,
    {
        self.a
    }

    /// The register shadow.
    pub fn registers(&self) -> (regs: [u8; NUM_REGS])
        ensures
            regs@ == self@.regs,
    {
        self.regs
    }

    /// The little-endian word at an address.
    pub fn rd16(&self, addr: u16) -> (w: u16)
        requires
            self@.wf(),
        ensures
            w == self@.get16(addr),
    {
        make_word(self.rd(addr), self.rd(addr.wrapping_add(1)))
    }

    fn zp16(&self, z: u8) -> (w: u16)
        requires
            self@.wf(),
        ensures
            w == self@.zp16(z),
    {
        make_word(self.rd(z as u16), self.rd(z.wrapping_add(1) as u16))
    }

    fn set_zn(&mut self, v: u8)
        ensures
            final(self)@ == old(self)@.zn(v),
    {
        self.setf(Z, v == 0);
        self.setf(N, v >= 128);
    }

    fn flag(&self, f: u8) -> (on: bool)
        ensures
            on == self@.flag(f),
    {
        self.p & f != 0
    }

    fn setf(&mut self, f: u8, on: bool)
        ensures
            final(self)@ == old(self)@.set(f, on),
    {
        if on {
            self.p = self.p | f;
        } else {
            self.p = self.p & !f;
        }
    }

    fn push(&mut self, v: u8)
        requires
            old(self)@.wf(),
        ensures
            final(self)@ == old(self)@.push(v),
            final(self)@.wf(),
    {
        self.ram.set(0x100 + self.sp as usize, v);
        self.sp = self.sp.wrapping_sub(1);
        assert(self@ =~= old(self)@.push(v));
    }

    fn pop(&mut self) -> (v: u8)
        requires
            old(self)@.wf(),
        ensures
            v == old(self)@.top(),
            final(self)@ == old(self)@.pop(),
            final(self)@.wf(),
    {
        self.sp = self.sp.wrapping_add(1);
        self.ram[0x100 + self.sp as usize]
    }

    fn push16(&mut self, v: u16)
        requires
            old(self)@.wf(),
        ensures
            final(self)@ == old(self)@.push16(v),
            final(self)@.wf(),
    {
        self.push((v / 256) as u8);
        self.push((v % 256) as u8);
    }

    fn pop16(&mut self) -> (w: u16)
        requires
            old(self)@.wf(),
        ensures
            w == old(self)@.top16(),
            final(self)@ == old(self)@.pop().pop(),
            final(self)@.wf(),
    {
        let lo: u8 = self.pop();
        let hi: u8 = self.pop();
        make_word(lo, hi)
    }

    fn load_a(&mut self, v: u8)
        ensures
            final(self)@ == old(self)@.load_a(v),
    {
        self.a = v;
        self.set_zn(v);
    }

    fn load_x(&mut self, v: u8)
        ensures
            final(self)@ == old(self)@.load_x(v),
    {
        self.x = v;
        self.set_zn(v);
    }

    fn load_y(&mut self, v: u8)
        ensures
            final(self)@ == old(self)@.load_y(v),
    {
        self.y = v;
        self.set_zn(v);
    }

    fn store(&mut self, addr: u16, v: u8)
        requires
            old(self)@.wf(),
        ensures
            final(self)@ == old(self)@.store(addr, v),
            final(self)@.wf(),
    {
        self.wr(addr, v);
        self.set_zn(v);
    }

    /// The operand's address; `pc` moves behind the operand.
    fn resolve(&mut self, mode: Mode) -> (addr: u16)
        requires
            old(self)@.wf(),
        ensures
            addr == old(self)@.address(mode),
            final(self)@ == old(self)@.skip(Machine::operand_bytes(mode)),
    {
        let pc: u16 = self.pc;
        match mode {
            Mode::Imp | Mode::Acc => {
                return 0;
            },
            Mode::Imm => {
                self.pc = pc.wrapping_add(1);
                return pc;
            },
            Mode::Abs | Mode::AbsX | Mode::AbsY | Mode::Ind => {
                let w: u16 = self.rd16(pc);
                self.pc = pc.wrapping_add(2);
                match mode {
                    Mode::AbsX => w.wrapping_add(self.x as u16),
                    Mode::AbsY => w.wrapping_add(self.y as u16),
                    Mode::Ind => {
                        let next: u16 = (w / 256) * 256 + w.wrapping_add(1) % 256;
                        make_word(self.rd(w), self.rd(next))
                    },
                    _ => w,
                }
            },
            _ => {
                let b: u8 = self.rd(pc);
                self.pc = pc.wrapping_add(1);
                match mode {
                    Mode::ZpX => b.wrapping_add(self.x) as u16,
                    Mode::ZpY => b.wrapping_add(self.y) as u16,
                    Mode::IndX => self.zp16(b.wrapping_add(self.x)),
                    Mode::IndY => self.zp16(b).wrapping_add(self.y as u16),
                    Mode::Rel => if b < 128 {
                        self.pc.wrapping_add(b as u16)
                    } else {
                        self.pc.wrapping_sub(256 - b as u16)
                    },
                    _ => b as u16,
                }
            },
        }
    }

    fn adc(&mut self, v: u8)
        ensures
            final(self)@ == old(self)@.adc(v),
    {
        let a: u8 = self.a;
        let c: u16 = if self.flag(C) {
            1
        } else {
            0
        };
        if self.flag(D) {
            let lo: u16 = (a % 16) as u16 + (v % 16) as u16 + c;
            let hi: u16 = (a / 16) as u16 + (v / 16) as u16 + (if lo > 9 {
                1u16
            } else {
                0u16
            });
            let over = (a < 128) == (v < 128) && (a < 128) != (hi % 16 < 8);
            let lo_digit: u16 = if lo > 9 {
                lo + 6
            } else {
                lo
            };
            let hi_digit: u16 = if hi > 9 {
                hi + 6
            } else {
                hi
            };
            self.setf(C, hi_digit > 15);
            self.setf(V, over);
            self.load_a((16 * (hi_digit % 16) + lo_digit % 16) as u8);
        } else {
            let sum: u16 = a as u16 + v as u16 + c;
            let s: i16 = to_signed(a) + to_signed(v) + c as i16;
            self.setf(C, sum > 255);
            self.setf(V, s < -128 || s > 127);
            self.load_a((sum % 256) as u8);
        }
    }

    fn sbc(&mut self, v: u8)
        ensures
            final(self)@ == old(self)@.sbc(v),
    {
        let a: u8 = self.a;
        let b: i16 = if self.flag(C) {
            0
        } else {
            1
        };
        let diff: i16 = a as i16 - v as i16 - b;
        let s: i16 = to_signed(a) - to_signed(v) - b;
        let res: u8 = if self.flag(D) {
            let lo: i16 = (a % 16) as i16 - (v % 16) as i16 - b;
            let hi: i16 = (a / 16) as i16 - (v / 16) as i16 - (if lo < 0 {
                1i16
            } else {
                0i16
            });
            (16 * borrowed_digit(hi) + borrowed_digit(lo)) as u8
        } else if diff < 0 {
            (diff + 256) as u8
        } else {
            diff as u8
        };
        self.setf(C, diff >= 0);
        self.setf(V, s < -128 || s > 127);
        self.load_a(res);
    }

    fn compare(&mut self, reg: u8, v: u8)
        ensures
            final(self)@ == old(self)@.compare(reg, v),
    {
        self.setf(C, reg >= v);
        self.set_zn(reg.wrapping_sub(v));
    }

    /// The flags from a status byte off the stack.
    fn pull_flags(&mut self)
        requires
            old(self)@.wf(),
        ensures
            final(self)@ == old(self)@.pull_flags(),
            final(self)@.wf(),
    {
        let v: u8 = self.pop();
        self.p = (v & !B) | U;
    }

    fn shifted(&self, op: Op, v: u8) -> (r: u8)
        ensures
            r == self@.shifted(op, v),
    {
        let c: u8 = if self.flag(C) {
            1
        } else {
            0
        };
        let doubled: u8 = if v >= 128 {
            (v - 128) * 2
        } else {
            v * 2
        };
        match op {
            Op::Asl => doubled,
            Op::Lsr => v / 2,
            Op::Rol => doubled + c,
            _ => v / 2 + 128 * c,
        }
    }

    /// Shifts the accumulator or a byte in memory by one place.
    fn shift(&mut self, op: Op, mode: Mode, addr: u16)
        requires
            old(self)@.wf(),
            op == Op::Asl || op == Op::Lsr || op == Op::Rol || op == Op::Ror,
        ensures
            final(self)@ == old(self)@.executed(op, mode, addr),
            final(self)@.wf(),
    {
        let v: u8 = if matches!(mode, Mode::Acc) {
            self.a
        } else {
            self.rd(addr)
        };
        let r: u8 = self.shifted(op, v);
        let out = match op {
            Op::Asl | Op::Rol => v >= 128,
            _ => v % 2 == 1,
        };
        self.setf(C, out);
        if matches!(mode, Mode::Acc) {
            self.load_a(r);
        } else {
            self.store(addr, r);
        }
    }

    fn branch(&mut self, op: Op, addr: u16)
        ensures
            final(self)@ == (if old(self)@.taken(op) {
                old(self)@.at(addr)
            } else {
                old(self)@
            }),
    {
        let taken = match op {
            Op::Bpl => !self.flag(N),
            Op::Bmi => self.flag(N),
            Op::Bvc => !self.flag(V),
            Op::Bvs => self.flag(V),
            Op::Bcc => !self.flag(C),
            Op::Bcs => self.flag(C),
            Op::Bne => !self.flag(Z),
            _ => self.flag(Z),
        };
        if taken {
            self.pc = addr;
        }
    }

    fn execute(&mut self, op: Op, mode: Mode, addr: u16)
        requires
            old(self)@.wf(),
        ensures
            final(self)@ == old(self)@.executed(op, mode, addr),
            final(self)@.wf(),
    {
        match op {
            Op::Adc => {
                let v: u8 = self.rd(addr);
                self.adc(v)
            },
            Op::Sbc => {
                let v: u8 = self.rd(addr);
                self.sbc(v)
            },
            Op::And => {
                let v: u8 = self.rd(addr);
                self.load_a(self.a & v)
            },
            Op::Ora => {
                let v: u8 = self.rd(addr);
                self.load_a(self.a | v)
            },
            Op::Eor => {
                let v: u8 = self.rd(addr);
                self.load_a(self.a ^ v)
            },
            Op::Cpa => {
                let v: u8 = self.rd(addr);
                self.compare(self.a, v)
            },
            Op::Cpx => {
                let v: u8 = self.rd(addr);
                self.compare(self.x, v)
            },
            Op::Cpy => {
                let v: u8 = self.rd(addr);
                self.compare(self.y, v)
            },
            Op::Lda => {
                let v: u8 = self.rd(addr);
                self.load_a(v)
            },
            Op::Ldx => {
                let v: u8 = self.rd(addr);
                self.load_x(v)
            },
            Op::Ldy => {
                let v: u8 = self.rd(addr);
                self.load_y(v)
            },
            Op::Sta => self.wr(addr, self.a),
            Op::Stx => self.wr(addr, self.x),
            Op::Sty => self.wr(addr, self.y),
            Op::Asl | Op::Lsr | Op::Rol | Op::Ror => self.shift(op, mode, addr),
            Op::Dec => {
                let v: u8 = self.rd(addr);
                self.store(addr, v.wrapping_sub(1))
            },
            Op::Inc => {
                let v: u8 = self.rd(addr);
                self.store(addr, v.wrapping_add(1))
            },
            Op::Bit => {
                let v: u8 = self.rd(addr);
                self.setf(Z, self.a & v == 0);
                self.setf(N, v >= 128);
                self.setf(V, v & 0x40 != 0);
            },
            Op::Bpl | Op::Bmi | Op::Bvc | Op::Bvs | Op::Bcc | Op::Bcs | Op::Bne | Op::Beq =>
                self.branch(op, addr),
            Op::Jmp => {
                self.pc = addr;
            },
            Op::Jsr => {
                self.push16(self.pc.wrapping_sub(1));
                self.pc = addr;
            },
            Op::Rts => {
                let to: u16 = self.pop16();
                self.pc = to.wrapping_add(1);
            },
            Op::Rti => {
                self.pull_flags();
                let to: u16 = self.pop16();
                self.pc = to;
            },
            Op::Dex => self.load_x(self.x.wrapping_sub(1)),
            Op::Inx => self.load_x(self.x.wrapping_add(1)),
            Op::Dey => self.load_y(self.y.wrapping_sub(1)),
            Op::Iny => self.load_y(self.y.wrapping_add(1)),
            Op::Tax => self.load_x(self.a),
            Op::Tay => self.load_y(self.a),
            Op::Txa => self.load_a(self.x),
            Op::Tya => self.load_a(self.y),
            Op::Tsx => self.load_x(self.sp),
            Op::Txs => {
                self.sp = self.x;
            },
            Op::Pha => self.push(self.a),
            Op::Pla => {
                let v: u8 = self.pop();
                self.load_a(v);
            },
            Op::Php => self.push(self.p | B | U),
            Op::Plp => self.pull_flags(),
            Op::Clc => self.setf(C, false),
            Op::Sec => self.setf(C, true),
            Op::Cli => self.setf(I, false),
            Op::Sei => self.setf(I, true),
            Op::Clv => self.setf(V, false),
            Op::Cld => self.setf(D, false),
            Op::Sed => self.setf(D, true),
            Op::Nop => {},
        }
    }

    /// Executes one instruction, and says whether it could: an opcode that is not
    /// emulated stops the routine, `pc` stays on it and `halt` is set.
    pub fn step(&mut self) -> (go_on: bool)
        requires
            old(self)@.wf(),
        ensures
            final(self)@ == old(self)@.step(),
            final(self)@.wf(),
            go_on == (decoded(old(self)@.get(old(self)@.pc)) is Some),
            final(self)@.halt == (old(self)@.halt || !go_on),
    {
        proof {
            law_only_unknown_opcodes_halt(self@);
        }
        let op: u8 = self.rd(self.pc);
        match decode(op) {
            Some((op, mode)) => {
                self.pc = self.pc.wrapping_add(1);
                let addr: u16 = self.resolve(mode);
                self.execute(op, mode, addr);
                true
            },
            None => {
                self.halt = true;
                false
            },
        }
    }

    /// Calls a subroutine with `a` in the accumulator and runs it until it
    /// returns to its (phantom) caller, which shows by a return instruction with
    /// the stack back where it began. Code that runs away is given up.
    pub fn call(&mut self, addr: u16, a: u8)
        requires
            old(self)@.wf(),
        ensures
            final(self)@ == old(self)@.called(addr, a),
            final(self)@.wf(),
    {
        self.a = a;
        self.pc = addr;
        self.halt = false;
        let entry_sp: u8 = self.sp;
        let ghost start = self@;
        assert(start == Machine { a, pc: addr, halt: false, ..old(self)@ });
        let mut guard: u32 = 0;
        loop
            invariant_except_break
                guard <= CALL_STEPS,
                !self@.halt,
                start.run(entry_sp, CALL_STEPS as nat) == self@.run(
                    entry_sp,
                    (CALL_STEPS - guard) as nat,
                ),
            invariant
                self@.wf(),
            ensures
                self@ == start.run(entry_sp, CALL_STEPS as nat),
            decreases CALL_STEPS - guard,
        {
            if self.rd(self.pc) == 0x60 && self.sp >= entry_sp {
                break ;
            }
            if !self.step() {
                break ;
            }
            guard += 1;
            if guard > CALL_STEPS {
                break ;
            }
        }
    }
}

/// The decimal digit of a difference of two nibbles, modulo sixteen: below zero
/// it borrows ten from the next.
fn borrowed_digit(d: i16) -> (r: i16)
    requires
        -16 <= d <= 15,
    ensures
        r == (if d < 0 {
            d - 6
        } else {
            d as int
        }) % 16,
        0 <= r <= 15,
{
    if d < -10 {
        d + 26
    } else if d < 0 {
        d + 10
    } else {
        d
    }
}

fn to_signed(b: u8) -> (s: i16)
    ensures
        s == signed(b),
{
    if b < 128 {
        b as i16
    } else {
        b as i16 - 256
    }
}

} // verus!
