//! What the instructions of the processor are for, each stated over the registers, the flags
//! by their bits and the memory before and after it.

use crate::chip::{chip_reading, ChipEvent};
use crate::machine::{decoded, reset_machine, Machine, Mode, Op};
use vstd::prelude::*;

verus! {

// ---- the opcodes ---------------------------------------------------------------------------------

/// The opcodes of the accumulator: the upper three bits choose what is done, the three
/// below them where the operand is, and the lowest two are 01.
pub proof fn law_accumulator_opcodes(row: int, column: int)
    requires
        0 <= row < 8,
        0 <= column < 8,
        row != 4 || column != 2,
    ensures
        decoded((32 * row + 4 * column + 1) as u8) == Some(
            (
                seq![Op::Ora, Op::And, Op::Eor, Op::Adc, Op::Sta, Op::Lda, Op::Cpa, Op::Sbc][row],
                seq![
                    Mode::IndX,
                    Mode::Zp,
                    Mode::Imm,
                    Mode::Abs,
                    Mode::IndY,
                    Mode::ZpX,
                    Mode::AbsY,
                    Mode::AbsX,
                ][column],
            ),
        ),
{
    let op = (32 * row + 4 * column + 1) as u8;
    assert(row == 0 || row == 1 || row == 2 || row == 3 || row == 4 || row == 5 || row == 6 || row
        == 7);
    assert(column == 0 || column == 1 || column == 2 || column == 3 || column == 4 || column == 5
        || column == 6 || column == 7);
}

/// The opcodes that shift, and those that count in memory: the lowest two bits are 10.
pub proof fn law_shift_opcodes(row: int, column: int)
    requires
        0 <= row < 4 || 6 <= row < 8,
        column == 1 || column == 3 || column == 5 || column == 7 || (column == 2 && row < 4),
    ensures
        decoded((32 * row + 4 * column + 2) as u8) == Some(
            (
                seq![Op::Asl, Op::Rol, Op::Lsr, Op::Ror, Op::Nop, Op::Nop, Op::Dec, Op::Inc][row],
                if column == 1 {
                    Mode::Zp
                } else if column == 2 {
                    Mode::Acc
                } else if column == 3 {
                    Mode::Abs
                } else if column == 5 {
                    Mode::ZpX
                } else {
                    Mode::AbsX
                },
            ),
        ),
{
    assert(row == 0 || row == 1 || row == 2 || row == 3 || row == 6 || row == 7);
}

/// The opcodes of the index registers, and of the bit test.
pub proof fn law_index_opcodes()
    ensures
        decoded(0xa2) == Some((Op::Ldx, Mode::Imm)),
        decoded(0xa6) == Some((Op::Ldx, Mode::Zp)),
        decoded(0xb6) == Some((Op::Ldx, Mode::ZpY)),
        decoded(0xae) == Some((Op::Ldx, Mode::Abs)),
        decoded(0xbe) == Some((Op::Ldx, Mode::AbsY)),
        decoded(0xa0) == Some((Op::Ldy, Mode::Imm)),
        decoded(0xa4) == Some((Op::Ldy, Mode::Zp)),
        decoded(0xb4) == Some((Op::Ldy, Mode::ZpX)),
        decoded(0xac) == Some((Op::Ldy, Mode::Abs)),
        decoded(0xbc) == Some((Op::Ldy, Mode::AbsX)),
        decoded(0x86) == Some((Op::Stx, Mode::Zp)),
        decoded(0x96) == Some((Op::Stx, Mode::ZpY)),
        decoded(0x8e) == Some((Op::Stx, Mode::Abs)),
        decoded(0x84) == Some((Op::Sty, Mode::Zp)),
        decoded(0x94) == Some((Op::Sty, Mode::ZpX)),
        decoded(0x8c) == Some((Op::Sty, Mode::Abs)),
        decoded(0xe0) == Some((Op::Cpx, Mode::Imm)),
        decoded(0xe4) == Some((Op::Cpx, Mode::Zp)),
        decoded(0xec) == Some((Op::Cpx, Mode::Abs)),
        decoded(0xc0) == Some((Op::Cpy, Mode::Imm)),
        decoded(0xc4) == Some((Op::Cpy, Mode::Zp)),
        decoded(0xcc) == Some((Op::Cpy, Mode::Abs)),
        decoded(0x24) == Some((Op::Bit, Mode::Zp)),
        decoded(0x2c) == Some((Op::Bit, Mode::Abs)),
{
}

/// The opcodes of one byte, and those that jump.
pub proof fn law_single_opcodes()
    ensures
        decoded(0x4c) == Some((Op::Jmp, Mode::Abs)),
        decoded(0x6c) == Some((Op::Jmp, Mode::Ind)),
        decoded(0x20) == Some((Op::Jsr, Mode::Abs)),
        decoded(0x60) == Some((Op::Rts, Mode::Imp)),
        decoded(0x40) == Some((Op::Rti, Mode::Imp)),
        decoded(0xca) == Some((Op::Dex, Mode::Imp)),
        decoded(0xe8) == Some((Op::Inx, Mode::Imp)),
        decoded(0x88) == Some((Op::Dey, Mode::Imp)),
        decoded(0xc8) == Some((Op::Iny, Mode::Imp)),
        decoded(0xaa) == Some((Op::Tax, Mode::Imp)),
        decoded(0xa8) == Some((Op::Tay, Mode::Imp)),
        decoded(0x8a) == Some((Op::Txa, Mode::Imp)),
        decoded(0x98) == Some((Op::Tya, Mode::Imp)),
        decoded(0xba) == Some((Op::Tsx, Mode::Imp)),
        decoded(0x9a) == Some((Op::Txs, Mode::Imp)),
        decoded(0x48) == Some((Op::Pha, Mode::Imp)),
        decoded(0x68) == Some((Op::Pla, Mode::Imp)),
        decoded(0x08) == Some((Op::Php, Mode::Imp)),
        decoded(0x28) == Some((Op::Plp, Mode::Imp)),
        decoded(0x18) == Some((Op::Clc, Mode::Imp)),
        decoded(0x38) == Some((Op::Sec, Mode::Imp)),
        decoded(0x58) == Some((Op::Cli, Mode::Imp)),
        decoded(0x78) == Some((Op::Sei, Mode::Imp)),
        decoded(0xb8) == Some((Op::Clv, Mode::Imp)),
        decoded(0xd8) == Some((Op::Cld, Mode::Imp)),
        decoded(0xf8) == Some((Op::Sed, Mode::Imp)),
        forall|op: u8|
            #[trigger] decoded(op) == Some((Op::Nop, Mode::Imp)) <==> op == 0x1a || op == 0x3a || op
                == 0x5a || op == 0x7a || op == 0xda || op == 0xea || op == 0xfa,
{
}

/// No instruction has an opcode that ends in 11, and none stands for a break.
pub proof fn law_other_opcodes_are_not_emulated(op: u8)
    ensures
        op % 4 == 3 ==> decoded(op) is None,
        op == 0x00 ==> decoded(op) is None,
        op == 0x80 || op == 0x89 || op == 0x9c || op == 0x9e || op == 0x02 || op == 0x82 ==> decoded(
            op,
        ) is None,
        op % 4 == 0 && decoded(op) is Some ==> op != 0x04 && op != 0x0c && op != 0x14 && op != 0x1c
            && op != 0x34 && op != 0x3c && op != 0x44 && op != 0x54 && op != 0x5c && op != 0x64 && op
            != 0x74 && op != 0x7c && op != 0xd4 && op != 0xdc && op != 0xf4 && op != 0xfc,
{
}

// ---- where the operand is ----------------------------------------------------------------------------

/// The byte so many bytes behind the opcode.
pub open spec fn behind(m: Machine, k: int) -> int {
    m.get(((m.pc + k) % 0x10000) as u16) as int
}

proof fn lemma_behind(m: Machine)
    ensures
        m.skip(1).get(m.skip(1).pc) == behind(m, 1),
        m.skip(1).get16(m.skip(1).pc) == behind(m, 1) + 256 * behind(m, 2),
        m.skip(1).pc == (m.pc + 1) % 0x10000,
        0 <= behind(m, 1) < 256,
        0 <= behind(m, 2) < 256,
{
    let n = m.skip(1);
    assert(n.pc == (m.pc + 1) % 0x10000);
    assert(n.pc.wrapping_add(1) == (m.pc + 2) % 0x10000);
    assert(n.get(n.pc) == behind(m, 1));
    assert(n.get(n.pc.wrapping_add(1)) == behind(m, 2));
}

/// An operand may be the byte behind the opcode, lie in the zero page at that byte, or at the
/// address of the two bytes behind it, the low one first.
pub proof fn law_operands_are_found(m: Machine)
    ensures
        m.skip(1).address(Mode::Imm) == (m.pc + 1) % 0x10000,
        m.skip(1).address(Mode::Zp) == behind(m, 1),
        m.skip(1).address(Mode::Abs) == behind(m, 1) + 256 * behind(m, 2),
{
    lemma_behind(m);
}

/// An index register is added to the address. What would leave the zero page, or the memory,
/// comes in again at its start.
pub proof fn law_indexed_operands_are_found(m: Machine)
    ensures
        m.skip(1).address(Mode::ZpX) == (behind(m, 1) + m.x) % 256,
        m.skip(1).address(Mode::ZpY) == (behind(m, 1) + m.y) % 256,
        m.skip(1).address(Mode::AbsX) == (behind(m, 1) + 256 * behind(m, 2) + m.x) % 0x10000,
        m.skip(1).address(Mode::AbsY) == (behind(m, 1) + 256 * behind(m, 2) + m.y) % 0x10000,
{
    lemma_behind(m);
}

/// The address may stand in the zero page: X is added before it is read, and Y to what was
/// read.
pub proof fn law_pointers_are_followed(m: Machine)
    ensures
        ({
            let b = behind(m, 1);
            let z = (b + m.x) % 256;
            &&& m.skip(1).address(Mode::IndX) == m.get(z as u16) + 256 * m.get(
                ((z + 1) % 256) as u16,
            )
            &&& m.skip(1).address(Mode::IndY) == (m.get(b as u16) + 256 * m.get(
                ((b + 1) % 256) as u16,
            ) + m.y) % 0x10000
        }),
{
    lemma_behind(m);
    let n = m.skip(1);
    let b = n.get(n.pc);
    assert(b.wrapping_add(m.x) == (b + m.x) % 256);
    assert(b.wrapping_add(1) == (b + 1) % 256);
    let z = b.wrapping_add(m.x);
    assert(z.wrapping_add(1) == (z + 1) % 256);
    assert(n.zp16(z) == m.get(z as u16) + 256 * m.get(((z + 1) % 256) as u16));
    assert(n.zp16(b) == m.get(b as u16) + 256 * m.get(((b + 1) % 256) as u16));
}

/// A jump through a pointer reads it within one page: behind the last byte of a page comes
/// the first of the same page.
pub proof fn law_jumps_read_within_a_page(m: Machine)
    ensures
        ({
            let lo = behind(m, 1);
            let page = 256 * behind(m, 2);
            m.skip(1).address(Mode::Ind) == m.get((page + lo) as u16) + 256 * m.get(
                (page + (lo + 1) % 256) as u16,
            )
        }),
{
    lemma_behind(m);
    let n = m.skip(1);
    let w = n.get16(n.pc);
    let lo = behind(m, 1);
    let hi = behind(m, 2);
    assert(w / 256 == hi && (w + 1) % 256 == (lo + 1) % 256) by (nonlinear_arith)
        requires
            w == lo + 256 * hi,
            0 <= lo < 256,
            0 <= hi < 256,
    ;
}

/// A branch counts from behind itself, backward where the byte is above 127.
pub proof fn law_branches_count_from_behind(m: Machine)
    ensures
        ({
            let b = behind(m, 1);
            let to = m.skip(1).address(Mode::Rel);
            &&& b <= 127 ==> to == (m.pc + 2 + b) % 0x10000
            &&& b > 127 ==> to == (m.pc + 2 + b - 256) % 0x10000
        }),
{
    lemma_behind(m);
}

/// How long the instructions are: the program goes on behind the operand.
pub proof fn law_instructions_have_their_length(m: Machine, op: Op, mode: Mode)
    requires
        decoded(m.get(m.pc)) == Some((op, mode)),
        mode != Mode::Rel,
        op != Op::Jmp,
        op != Op::Jsr,
        op != Op::Rts,
        op != Op::Rti,
    ensures
        m.step().pc == (m.pc + (if mode == Mode::Imp || mode == Mode::Acc {
            1int
        } else if mode == Mode::Abs || mode == Mode::AbsX || mode == Mode::AbsY {
            3
        } else {
            2
        })) % 0x10000,
{
    lemma_branches_only_relative(m.get(m.pc));
    lemma_executed_keeps_pc(
        m.skip(1).skip(Machine::operand_bytes(mode)),
        op,
        mode,
        m.skip(1).address(mode),
    );
}

proof fn lemma_branches_only_relative(op: u8)
    ensures
        decoded(op) matches Some((o, mode)) ==> ((o == Op::Bpl || o == Op::Bmi || o == Op::Bvc || o
            == Op::Bvs || o == Op::Bcc || o == Op::Bcs || o == Op::Bne || o == Op::Beq) <==> mode
            == Mode::Rel) && (mode == Mode::Ind ==> o == Op::Jmp),
{
}

proof fn lemma_executed_keeps_pc(n: Machine, op: Op, mode: Mode, addr: u16)
    requires
        op != Op::Jmp,
        op != Op::Jsr,
        op != Op::Rts,
        op != Op::Rti,
        op != Op::Bpl && op != Op::Bmi && op != Op::Bvc && op != Op::Bvs && op != Op::Bcc && op
            != Op::Bcs && op != Op::Bne && op != Op::Beq,
    ensures
        n.executed(op, mode, addr).pc == n.pc,
{
}

// ---- the flags ------------------------------------------------------------------------------------------

proof fn lemma_set(m: Machine, f: u8, on: bool, keep: u8)
    requires
        f & keep == 0,
    ensures
        m.set(f, on).p & keep == m.p & keep,
        m.set(f, on) == (Machine { p: m.set(f, on).p, ..m }),
        f != 0 ==> m.set(f, on).flag(f) == on,
{
    let p = m.p;
    assert((p | f) & keep == p & keep && (p & !f) & keep == p & keep && (f != 0 ==> (p | f) & f
        != 0) && (p & !f) & f == 0) by (bit_vector)
        requires
            f & keep == 0,
    ;
}

proof fn lemma_masks()
    ensures
        0x01u8 & 0xfeu8 == 0 && 0x02u8 & 0xfdu8 == 0 && 0x80u8 & 0x7fu8 == 0 && 0x40u8 & 0xbfu8 == 0,
        0x04u8 & 0xfbu8 == 0 && 0x08u8 & 0xf7u8 == 0,
        0x01u8 & 0x02u8 == 0 && 0x01u8 & 0x80u8 == 0 && 0x01u8 & 0x40u8 == 0,
        0x02u8 & 0x80u8 == 0 && 0x02u8 & 0x01u8 == 0 && 0x02u8 & 0x40u8 == 0,
        0x80u8 & 0x01u8 == 0 && 0x80u8 & 0x02u8 == 0 && 0x80u8 & 0x40u8 == 0,
        0x40u8 & 0x01u8 == 0 && 0x40u8 & 0x02u8 == 0 && 0x40u8 & 0x80u8 == 0,
        0x02u8 & 0x7du8 == 0 && 0x80u8 & 0x7du8 == 0,
        0x01u8 & 0x7cu8 == 0 && 0x02u8 & 0x7cu8 == 0 && 0x80u8 & 0x7cu8 == 0,
        0x01u8 & 0x3cu8 == 0 && 0x02u8 & 0x3cu8 == 0 && 0x80u8 & 0x3cu8 == 0 && 0x40u8 & 0x3cu8 == 0,
        0x01u8 & 0x08u8 == 0 && 0x02u8 & 0x3du8 == 0 && 0x80u8 & 0x3du8 == 0 && 0x40u8 & 0x3du8 == 0,
{
    assert(0x01u8 & 0xfeu8 == 0 && 0x02u8 & 0xfdu8 == 0 && 0x80u8 & 0x7fu8 == 0 && 0x40u8 & 0xbfu8
        == 0 && 0x04u8 & 0xfbu8 == 0 && 0x08u8 & 0xf7u8 == 0 && 0x01u8 & 0x02u8 == 0 && 0x01u8
        & 0x80u8 == 0 && 0x01u8 & 0x40u8 == 0 && 0x02u8 & 0x80u8 == 0 && 0x02u8 & 0x01u8 == 0
        && 0x02u8 & 0x40u8 == 0 && 0x80u8 & 0x01u8 == 0 && 0x80u8 & 0x02u8 == 0 && 0x80u8 & 0x40u8
        == 0 && 0x40u8 & 0x01u8 == 0 && 0x40u8 & 0x02u8 == 0 && 0x40u8 & 0x80u8 == 0 && 0x02u8
        & 0x7du8 == 0 && 0x80u8 & 0x7du8 == 0 && 0x01u8 & 0x7cu8 == 0 && 0x02u8 & 0x7cu8 == 0
        && 0x80u8 & 0x7cu8 == 0 && 0x01u8 & 0x3cu8 == 0 && 0x02u8 & 0x3cu8 == 0 && 0x80u8 & 0x3cu8
        == 0 && 0x40u8 & 0x3cu8 == 0 && 0x01u8 & 0x08u8 == 0 && 0x02u8 & 0x3du8 == 0 && 0x80u8
        & 0x3du8 == 0 && 0x40u8 & 0x3du8 == 0) by (bit_vector);
}

/// The zero flag and the negative flag say what they should of a value, and the other flags
/// are as they were.
pub open spec fn shows(m: Machine, n: Machine, v: u8) -> bool {
    &&& (n.p & 0x02 != 0) == (v == 0)
    &&& (n.p & 0x80 != 0) == (v > 127)
    &&& n.p & 0x7d == m.p & 0x7d
}

proof fn lemma_zn(m: Machine, v: u8)
    ensures
        shows(m, m.zn(v), v),
        m.zn(v) == (Machine { p: m.zn(v).p, ..m }),
{
    lemma_masks();
    let z = m.set(0x02, v == 0);
    lemma_set(m, 0x02, v == 0, 0x7d);
    lemma_set(z, 0x80, v >= 128, 0x7d);
    lemma_set(z, 0x80, v >= 128, 0x02);
}

/// The zero flag and the negative flag follow a value, the carry is as told, and the other
/// flags are as they were.
pub open spec fn shows_with_carry(m: Machine, n: Machine, v: u8, carry: bool) -> bool {
    &&& (n.p & 0x01 != 0) == carry
    &&& (n.p & 0x02 != 0) == (v == 0)
    &&& (n.p & 0x80 != 0) == (v > 127)
    &&& n.p & 0x7c == m.p & 0x7c
}

proof fn lemma_czn(m: Machine, on: bool, v: u8)
    ensures
        shows_with_carry(m, m.set(0x01, on).zn(v), v, on),
        m.set(0x01, on).zn(v) == (Machine { p: m.set(0x01, on).zn(v).p, ..m }),
{
    lemma_masks();
    let c = m.set(0x01, on);
    let z = c.set(0x02, v == 0);
    lemma_set(m, 0x01, on, 0x7c);
    lemma_set(c, 0x02, v == 0, 0x7c);
    lemma_set(c, 0x02, v == 0, 0x01);
    lemma_set(z, 0x80, v >= 128, 0x7c);
    lemma_set(z, 0x80, v >= 128, 0x01);
    lemma_set(z, 0x80, v >= 128, 0x02);
}

proof fn lemma_cvzn(m: Machine, carry: bool, over: bool, v: u8)
    ensures
        ({
            let n = m.set(0x01, carry).set(0x40, over).zn(v);
            &&& (n.p & 0x01 != 0) == carry
            &&& (n.p & 0x40 != 0) == over
            &&& (n.p & 0x02 != 0) == (v == 0)
            &&& (n.p & 0x80 != 0) == (v > 127)
            &&& n.p & 0x3c == m.p & 0x3c
            &&& n == (Machine { p: n.p, ..m })
        }),
{
    lemma_masks();
    let c = m.set(0x01, carry);
    let o = c.set(0x40, over);
    let z = o.set(0x02, v == 0);
    lemma_set(m, 0x01, carry, 0x3c);
    lemma_set(c, 0x40, over, 0x3c);
    lemma_set(c, 0x40, over, 0x01);
    lemma_set(o, 0x02, v == 0, 0x3c);
    lemma_set(o, 0x02, v == 0, 0x01);
    lemma_set(o, 0x02, v == 0, 0x40);
    lemma_set(z, 0x80, v >= 128, 0x3c);
    lemma_set(z, 0x80, v >= 128, 0x01);
    lemma_set(z, 0x80, v >= 128, 0x02);
    lemma_set(z, 0x80, v >= 128, 0x40);
}

/// The byte that an instruction works on.
pub open spec fn operand(m: Machine, mode: Mode) -> u8 {
    m.get(m.skip(1).address(mode))
}

/// Nothing changed but the accumulator, the flags and the place in the program.
pub open spec fn only_a(m: Machine, n: Machine) -> bool {
    &&& n.x == m.x && n.y == m.y && n.sp == m.sp && n.ram == m.ram && n.regs == m.regs
    &&& n.log == m.log && n.halt == m.halt
}

/// Nothing changed but the flags and the place in the program.
pub open spec fn only_flags(m: Machine, n: Machine) -> bool {
    only_a(m, n) && n.a == m.a
}

// ---- arithmetic ------------------------------------------------------------------------------------------

/// The number that two decimal digits in a byte say.
pub open spec fn decimal_value(b: u8) -> int {
    10 * (b as int / 16) + b as int % 16
}

pub open spec fn is_decimal(b: u8) -> bool {
    b as int / 16 < 10 && b as int % 16 < 10
}

/// Addition: the sum of the accumulator, the operand and the carry, of which the new carry is
/// what no longer fits. The overflow flag says that the sum of the signed numbers is not what
/// the accumulator says as one.
pub proof fn law_addition(m: Machine, mode: Mode)
    requires
        decoded(m.get(m.pc)) == Some((Op::Adc, mode)),
        m.p & 0x08 == 0,
    ensures
        ({
            let n = m.step();
            let v = operand(m, mode);
            let carry = if m.p & 0x01 != 0 {
                1int
            } else {
                0
            };
            let out = if n.p & 0x01 != 0 {
                1int
            } else {
                0
            };
            let low = |b: u8| if b < 128 {
                b as int
            } else {
                b - 256
            };
            &&& n.a + 256 * out == m.a + v + carry
            &&& (n.p & 0x40 == 0) == (low(n.a) == low(m.a) + low(v) + carry)
            &&& (n.p & 0x02 != 0) == (n.a == 0)
            &&& (n.p & 0x80 != 0) == (n.a > 127)
            &&& n.p & 0x3c == m.p & 0x3c
            &&& only_a(m, n)
        }),
{
    let v = operand(m, mode);
    let k = m.skip(1).skip(Machine::operand_bytes(mode));
    let c = crate::machine::bit(k.flag(0x01));
    let sum = k.a + v + c;
    let over = !(-128 <= crate::machine::signed(k.a) + crate::machine::signed(v) + c <= 127);
    let r = (sum % 256) as u8;
    lemma_cvzn(Machine { a: r, ..k }, sum > 255, over, r);
    assert(k.set(0x01, sum > 255).set(0x40, over).load_a(r) =~= (Machine { a: r, ..k }).set(
        0x01,
        sum > 255,
    ).set(0x40, over).zn(r));
    assert(m.step() == k.adc(v));
}

/// Subtraction: the accumulator without the operand and without the borrow, which is a clear
/// carry. The new carry is clear where more was taken than there was.
pub proof fn law_subtraction(m: Machine, mode: Mode)
    requires
        decoded(m.get(m.pc)) == Some((Op::Sbc, mode)),
        m.p & 0x08 == 0,
    ensures
        ({
            let n = m.step();
            let v = operand(m, mode);
            let borrow = if m.p & 0x01 != 0 {
                0int
            } else {
                1
            };
            let owed = if n.p & 0x01 != 0 {
                0int
            } else {
                1
            };
            let low = |b: u8| if b < 128 {
                b as int
            } else {
                b - 256
            };
            &&& n.a - 256 * owed == m.a - v - borrow
            &&& (n.p & 0x40 == 0) == (low(n.a) == low(m.a) - low(v) - borrow)
            &&& (n.p & 0x02 != 0) == (n.a == 0)
            &&& (n.p & 0x80 != 0) == (n.a > 127)
            &&& n.p & 0x3c == m.p & 0x3c
            &&& only_a(m, n)
        }),
{
    let v = operand(m, mode);
    let k = m.skip(1).skip(Machine::operand_bytes(mode));
    let b = crate::machine::bit(!k.flag(0x01));
    let diff = k.a - v - b;
    let over = !(-128 <= crate::machine::signed(k.a) - crate::machine::signed(v) - b <= 127);
    let r = (diff % 256) as u8;
    lemma_cvzn(Machine { a: r, ..k }, diff >= 0, over, r);
    assert(k.set(0x01, diff >= 0).set(0x40, over).load_a(r) =~= (Machine { a: r, ..k }).set(
        0x01,
        diff >= 0,
    ).set(0x40, over).zn(r));
    assert(m.step() == k.sbc(v));
}

proof fn lemma_digits_added(ah: int, al: int, vh: int, vl: int, c: int, r: u8)
    requires
        0 <= ah < 10 && 0 <= al < 10 && 0 <= vh < 10 && 0 <= vl < 10,
        0 <= c <= 1,
        ({
            let lo = al + vl + c;
            let hi = ah + vh + crate::machine::bit(lo > 9);
            let ld = if lo > 9 {
                lo + 6
            } else {
                lo
            };
            let hd = if hi > 9 {
                hi + 6
            } else {
                hi
            };
            r == 16 * (hd % 16) + ld % 16
        }),
    ensures
        ({
            let hi = ah + vh + crate::machine::bit(al + vl + c > 9);
            let hd = if hi > 9 {
                hi + 6
            } else {
                hi
            };
            &&& is_decimal(r)
            &&& decimal_value(r) + (if hd > 15 {
                100int
            } else {
                0
            }) == 10 * ah + al + 10 * vh + vl + c
        }),
{
    let lo = al + vl + c;
    let hi = ah + vh + crate::machine::bit(lo > 9);
    let x = if lo > 9 {
        lo - 10
    } else {
        lo
    };
    let y = if hi > 9 {
        hi - 10
    } else {
        hi
    };
    assert(r == 16 * y + x);
    assert(r as int / 16 == y && r as int % 16 == x);
}

proof fn lemma_digits_taken(ah: int, al: int, vh: int, vl: int, b: int, r: u8)
    requires
        0 <= ah < 10 && 0 <= al < 10 && 0 <= vh < 10 && 0 <= vl < 10,
        0 <= b <= 1,
        ({
            let lo = al - vl - b;
            let hi = ah - vh - crate::machine::bit(lo < 0);
            let ld = if lo < 0 {
                lo - 6
            } else {
                lo
            };
            let hd = if hi < 0 {
                hi - 6
            } else {
                hi
            };
            r == 16 * (hd % 16) + ld % 16
        }),
    ensures
        is_decimal(r),
        decimal_value(r) - (if 16 * ah + al - (16 * vh + vl) - b >= 0 {
            0int
        } else {
            100
        }) == 10 * ah + al - (10 * vh + vl) - b,
{
    let lo = al - vl - b;
    let hi = ah - vh - crate::machine::bit(lo < 0);
    let x = if lo < 0 {
        lo + 10
    } else {
        lo
    };
    let y = if hi < 0 {
        hi + 10
    } else {
        hi
    };
    assert(r == 16 * y + x);
    assert(r as int / 16 == y && r as int % 16 == x);
}

/// In decimal mode two digits are added to two digits, and the carry counts a hundred.
pub proof fn law_decimal_addition(m: Machine, mode: Mode)
    requires
        decoded(m.get(m.pc)) == Some((Op::Adc, mode)),
        m.p & 0x08 != 0,
        is_decimal(m.a),
        is_decimal(operand(m, mode)),
    ensures
        ({
            let n = m.step();
            let carry = if m.p & 0x01 != 0 {
                1int
            } else {
                0
            };
            let out = if n.p & 0x01 != 0 {
                1int
            } else {
                0
            };
            &&& is_decimal(n.a)
            &&& decimal_value(n.a) + 100 * out == decimal_value(m.a) + decimal_value(
                operand(m, mode),
            ) + carry
            &&& (n.p & 0x02 != 0) == (n.a == 0)
            &&& (n.p & 0x80 != 0) == (n.a > 127)
            &&& n.p & 0x3c == m.p & 0x3c
            &&& only_a(m, n)
        }),
{
    let v = operand(m, mode);
    let k = m.skip(1).skip(Machine::operand_bytes(mode));
    let a = k.a;
    let c = crate::machine::bit(k.flag(0x01));
    let lo = a % 16 + v % 16 + c;
    let hi = a / 16 + v / 16 + crate::machine::bit(lo > 9);
    let over = (a < 128) == (v < 128) && (a < 128) != (hi % 16 < 8);
    let lo_digit = if lo > 9 {
        lo + 6
    } else {
        lo
    };
    let hi_digit = if hi > 9 {
        hi + 6
    } else {
        hi
    };
    let r = (16 * (hi_digit % 16) + lo_digit % 16) as u8;
    lemma_digits_added(a as int / 16, a as int % 16, v as int / 16, v as int % 16, c, r);
    lemma_cvzn(Machine { a: r, ..k }, hi_digit > 15, over, r);
    assert(k.set(0x01, hi_digit > 15).set(0x40, over).load_a(r) =~= (Machine { a: r, ..k }).set(
        0x01,
        hi_digit > 15,
    ).set(0x40, over).zn(r));
    assert(m.step() == k.adc(v));
}

/// In decimal mode two digits are taken from two digits, and a borrow counts a hundred.
pub proof fn law_decimal_subtraction(m: Machine, mode: Mode)
    requires
        decoded(m.get(m.pc)) == Some((Op::Sbc, mode)),
        m.p & 0x08 != 0,
        is_decimal(m.a),
        is_decimal(operand(m, mode)),
    ensures
        ({
            let n = m.step();
            let borrow = if m.p & 0x01 != 0 {
                0int
            } else {
                1
            };
            let owed = if n.p & 0x01 != 0 {
                0int
            } else {
                1
            };
            &&& is_decimal(n.a)
            &&& decimal_value(n.a) - 100 * owed == decimal_value(m.a) - decimal_value(
                operand(m, mode),
            ) - borrow
            &&& (n.p & 0x02 != 0) == (n.a == 0)
            &&& (n.p & 0x80 != 0) == (n.a > 127)
            &&& n.p & 0x3c == m.p & 0x3c
            &&& only_a(m, n)
        }),
{
    let v = operand(m, mode);
    let k = m.skip(1).skip(Machine::operand_bytes(mode));
    let a = k.a;
    let b = crate::machine::bit(!k.flag(0x01));
    let diff = a - v - b;
    let over = !(-128 <= crate::machine::signed(a) - crate::machine::signed(v) - b <= 127);
    let lo = a % 16 - v % 16 - b;
    let hi = a / 16 - v / 16 - crate::machine::bit(lo < 0);
    let lo_digit = if lo < 0 {
        lo - 6
    } else {
        lo
    };
    let hi_digit = if hi < 0 {
        hi - 6
    } else {
        hi
    };
    let r = (16 * (hi_digit % 16) + lo_digit % 16) as u8;
    lemma_digits_taken(a as int / 16, a as int % 16, v as int / 16, v as int % 16, b, r);
    lemma_cvzn(Machine { a: r, ..k }, diff >= 0, over, r);
    assert(k.set(0x01, diff >= 0).set(0x40, over).load_a(r) =~= (Machine { a: r, ..k }).set(
        0x01,
        diff >= 0,
    ).set(0x40, over).zn(r));
    assert(m.step() == k.sbc(v));
}

/// The register that a comparison is of.
pub open spec fn compared(m: Machine, op: Op) -> u8 {
    if op == Op::Cpx {
        m.x
    } else if op == Op::Cpy {
        m.y
    } else {
        m.a
    }
}

/// A comparison leaves the carry set where nothing need be borrowed to take the operand from
/// the register, so that it is set where they are equal. The zero flag says whether they are
/// equal. No register changes.
pub proof fn law_comparison(m: Machine, op: Op, mode: Mode)
    requires
        op == Op::Cpa || op == Op::Cpx || op == Op::Cpy,
        decoded(m.get(m.pc)) == Some((op, mode)),
    ensures
        ({
            let n = m.step();
            let left = compared(m, op) - operand(m, mode);
            &&& (n.p & 0x01 != 0) == (left >= 0)
            &&& (n.p & 0x02 != 0) == (left == 0)
            &&& (n.p & 0x80 != 0) == (left % 256 > 127)
            &&& n.p & 0x7c == m.p & 0x7c
            &&& only_flags(m, n)
        }),
{
    let v = operand(m, mode);
    let reg = compared(m, op);
    let k = m.skip(1).skip(Machine::operand_bytes(mode));
    lemma_czn(k, reg >= v, reg.wrapping_sub(v));
    assert(m.step() == k.compare(reg, v));
    assert(reg.wrapping_sub(v) == (reg - v) % 256);
}

/// A comparison with the accumulator leaves the carry, the zero flag and the negative flag
/// that a subtraction without a borrow leaves.
pub proof fn law_comparison_is_a_subtraction(m: Machine, s: Machine, mode: Mode)
    requires
        decoded(m.get(m.pc)) == Some((Op::Cpa, mode)),
        decoded(s.get(s.pc)) == Some((Op::Sbc, mode)),
        s.p & 0x08 == 0,
        s.p & 0x01 != 0,
        s.a == m.a,
        operand(s, mode) == operand(m, mode),
    ensures
        (m.step().p & 0x01 != 0) == (s.step().p & 0x01 != 0),
        (m.step().p & 0x02 != 0) == (s.step().p & 0x02 != 0),
        (m.step().p & 0x80 != 0) == (s.step().p & 0x80 != 0),
{
    law_comparison(m, Op::Cpa, mode);
    law_subtraction(s, mode);
}

// ---- loading, storing and logic ----------------------------------------------------------------------------

/// A load puts the operand into its register, and the flags follow it.
pub proof fn law_loads(m: Machine, mode: Mode)
    ensures
        ({
            let n = m.step();
            let v = operand(m, mode);
            &&& decoded(m.get(m.pc)) == Some((Op::Lda, mode)) ==> n.a == v && only_a(m, n) && shows(
                m,
                n,
                v,
            )
            &&& decoded(m.get(m.pc)) == Some((Op::Ldx, mode)) ==> n.x == v && only_a(
                Machine { x: v, ..m },
                n,
            ) && n.a == m.a && shows(m, n, v)
            &&& decoded(m.get(m.pc)) == Some((Op::Ldy, mode)) ==> n.y == v && only_a(
                Machine { y: v, ..m },
                n,
            ) && n.a == m.a && shows(m, n, v)
        }),
{
    let v = operand(m, mode);
    let k = m.skip(1).skip(Machine::operand_bytes(mode));
    lemma_zn(Machine { a: v, ..k }, v);
    lemma_zn(Machine { x: v, ..k }, v);
    lemma_zn(Machine { y: v, ..k }, v);
}

/// Logic works on the accumulator bit by bit: a bit is set where both, one at least, or just
/// one of the two have it.
pub proof fn law_logic(m: Machine, mode: Mode, i: u8)
    requires
        i < 8,
    ensures
        ({
            let n = m.step();
            let b = (1u8 << i);
            let x = m.a & b != 0;
            let y = operand(m, mode) & b != 0;
            let z = n.a & b != 0;
            &&& decoded(m.get(m.pc)) == Some((Op::And, mode)) ==> z == (x && y) && only_a(m, n)
                && shows(m, n, n.a)
            &&& decoded(m.get(m.pc)) == Some((Op::Ora, mode)) ==> z == (x || y) && only_a(m, n)
                && shows(m, n, n.a)
            &&& decoded(m.get(m.pc)) == Some((Op::Eor, mode)) ==> z == (x != y) && only_a(m, n)
                && shows(m, n, n.a)
        }),
{
    let v = operand(m, mode);
    let a = m.a;
    let k = m.skip(1).skip(Machine::operand_bytes(mode));
    let b = 1u8 << i;
    assert(((a & v) & b != 0) == (a & b != 0 && v & b != 0) && ((a | v) & b != 0) == (a & b != 0 || v
        & b != 0) && ((a ^ v) & b != 0) == ((a & b != 0) != (v & b != 0))) by (bit_vector)
        requires
            b == 1u8 << i,
            i < 8,
    ;
    lemma_zn(Machine { a: a & v, ..k }, a & v);
    lemma_zn(Machine { a: a | v, ..k }, a | v);
    lemma_zn(Machine { a: a ^ v, ..k }, a ^ v);
}

/// A byte reached its address: RAM holds it there and is as it was elsewhere; at the chip's
/// addresses $D400 to $D7FF the chip is told, in the register that repeats every 32 bytes.
pub open spec fn reached(m: Machine, n: Machine, addr: u16, v: u8) -> bool {
    if 0xd400 <= addr && addr <= 0xd7ff {
        &&& n.ram == m.ram
        &&& n.log == m.log.push(ChipEvent::Write((addr as int % 32) as u8, v))
        &&& n.regs == m.regs.update(addr as int % 32, v)
    } else {
        &&& n.ram == m.ram.update(addr as int, v)
        &&& n.log == m.log
        &&& n.regs == m.regs
    }
}

/// A store puts its register where the operand is, and changes no register and no flag.
pub proof fn law_stores(m: Machine, op: Op, mode: Mode)
    requires
        op == Op::Sta || op == Op::Stx || op == Op::Sty,
        decoded(m.get(m.pc)) == Some((op, mode)),
    ensures
        ({
            let n = m.step();
            let v = if op == Op::Sta {
                m.a
            } else if op == Op::Stx {
                m.x
            } else {
                m.y
            };
            &&& reached(m, n, m.skip(1).address(mode), v)
            &&& n.a == m.a && n.x == m.x && n.y == m.y && n.sp == m.sp && n.p == m.p && n.halt
                == m.halt
        }),
{
}

/// What is read: RAM, but for the chip's addresses, where the chip answers.
pub proof fn law_reads(m: Machine, addr: u16)
    ensures
        addr < 0xd400 || addr > 0xd7ff ==> m.get(addr) == m.ram[addr as int],
        0xd400 <= addr && addr <= 0xd7ff ==> m.get(addr) == chip_reading(
            m.log,
            (addr as int % 32) as u8,
        ),
{
}

/// What a program writes reaches its address.
pub proof fn law_writes(m: Machine, addr: u16, v: u8)
    ensures
        reached(m, m.put(addr, v), addr, v),
        ({
            let n = m.put(addr, v);
            n.a == m.a && n.x == m.x && n.y == m.y && n.sp == m.sp && n.p == m.p && n.pc == m.pc
                && n.halt == m.halt
        }),
{
}

/// A program lies in memory byte by byte from its address on; what would lie behind the end
/// of memory is left out, and all else is as it was.
pub proof fn law_programs_are_loaded(m: Machine, load: u16, body: Seq<u8>, i: int)
    requires
        m.wf(),
        0 <= i < 0x10000,
    ensures
        m.loaded(load, body).ram.len() == 0x10000,
        load <= i && i - load < body.len() ==> m.loaded(load, body).ram[i] == body[i - load],
        i < load || i >= load + body.len() ==> m.loaded(load, body).ram[i] == m.ram[i],
        m.loaded(load, body) == (Machine { ram: m.loaded(load, body).ram, ..m }),
{
}

/// At power-on the memory is empty, the stack too, and interrupts are off.
pub proof fn law_power_on(log: Seq<ChipEvent>)
    ensures
        ({
            let m = reset_machine(log);
            &&& m.ram.len() == 0x10000
            &&& forall|i: int| 0 <= i < 0x10000 ==> #[trigger] m.ram[i] == 0
            &&& m.regs.len() == 32
            &&& forall|i: int| 0 <= i < 32 ==> #[trigger] m.regs[i] == 0
            &&& m.sp == 0xff
            &&& m.p & 0x04 != 0
            &&& m.p & 0xcb == 0
            &&& m.a == 0 && m.x == 0 && m.y == 0
            &&& !m.halt
            &&& m.log == log
        }),
{
    assert(0x24u8 & 0x04u8 != 0 && 0x24u8 & 0xcbu8 == 0) by (bit_vector);
}

// ---- shifting and counting --------------------------------------------------------------------------------------

/// The byte that an instruction works on: the accumulator, or one in memory.
pub open spec fn worked_on(m: Machine, mode: Mode) -> u8 {
    if mode == Mode::Acc {
        m.a
    } else {
        operand(m, mode)
    }
}

/// A byte came back to where it was taken from: the accumulator or memory.
pub open spec fn gave_back(m: Machine, n: Machine, mode: Mode, v: u8) -> bool {
    &&& n.x == m.x && n.y == m.y && n.sp == m.sp && n.halt == m.halt
    &&& if mode == Mode::Acc {
        n.a == v && n.ram == m.ram && n.log == m.log && n.regs == m.regs
    } else {
        n.a == m.a && reached(m, n, m.skip(1).address(mode), v)
    }
}

proof fn lemma_shift(m: Machine, op: Op, mode: Mode)
    requires
        op == Op::Asl || op == Op::Rol || op == Op::Lsr || op == Op::Ror,
        decoded(m.get(m.pc)) == Some((op, mode)),
    ensures
        ({
            let n = m.step();
            let v = worked_on(m, mode);
            let r = m.shifted(op, v);
            &&& gave_back(m, n, mode, r)
            &&& shows_with_carry(m, n, r, Machine::shifted_out(op, v))
        }),
{
    let k = m.skip(1).skip(Machine::operand_bytes(mode));
    let v = worked_on(m, mode);
    let r = m.shifted(op, v);
    let out = Machine::shifted_out(op, v);
    assert(k.shifted(op, v) == r);
    let addr = m.skip(1).address(mode);
    if mode == Mode::Acc {
        lemma_czn(Machine { a: r, ..k }, out, r);
        assert(k.set(0x01, out).load_a(r) =~= (Machine { a: r, ..k }).set(0x01, out).zn(r));
    } else {
        lemma_czn(k.put(addr, r), out, r);
        assert(k.set(0x01, out).put(addr, r) =~= k.put(addr, r).set(0x01, out));
        assert(k.set(0x01, out).store(addr, r) =~= k.put(addr, r).set(0x01, out).zn(r));
    }
}

/// A shift to the left doubles: the carry is what no longer fits, and a rotation adds the
/// carry that was. A shift to the right halves: the carry is what is left, and a rotation
/// brings in the carry that was at the top.
pub proof fn law_shifts(m: Machine, op: Op, mode: Mode) -> (r: u8)
    requires
        op == Op::Asl || op == Op::Rol || op == Op::Lsr || op == Op::Ror,
        decoded(m.get(m.pc)) == Some((op, mode)),
    ensures
        ({
            let n = m.step();
            let v = worked_on(m, mode);
            let carry = if m.p & 0x01 != 0 {
                1int
            } else {
                0
            };
            let out = if n.p & 0x01 != 0 {
                1int
            } else {
                0
            };
            &&& gave_back(m, n, mode, r)
            &&& (n.p & 0x02 != 0) == (r == 0)
            &&& (n.p & 0x80 != 0) == (r > 127)
            &&& n.p & 0x7c == m.p & 0x7c
            &&& op == Op::Asl ==> r + 256 * out == 2 * v
            &&& op == Op::Rol ==> r + 256 * out == 2 * v + carry
            &&& op == Op::Lsr ==> 2 * r + out == v
            &&& op == Op::Ror ==> 2 * r + out == v + 256 * carry
        }),
{
    lemma_shift(m, op, mode);
    m.shifted(op, worked_on(m, mode))
}

/// Counting in memory and in the index registers goes by one, round from 255 to 0 and back.
pub proof fn law_counting(m: Machine, op: Op, mode: Mode)
    requires
        decoded(m.get(m.pc)) == Some((op, mode)),
    ensures
        ({
            let n = m.step();
            let v = operand(m, mode);
            &&& op == Op::Inc ==> gave_back(m, n, mode, ((v + 1) % 256) as u8) && shows(
                m,
                n,
                ((v + 1) % 256) as u8,
            )
            &&& op == Op::Dec ==> gave_back(m, n, mode, ((v + 255) % 256) as u8) && shows(
                m,
                n,
                ((v + 255) % 256) as u8,
            )
            &&& op == Op::Inx ==> n.x == (m.x + 1) % 256 && n.y == m.y && shows(m, n, n.x)
            &&& op == Op::Dex ==> n.x == (m.x + 255) % 256 && n.y == m.y && shows(m, n, n.x)
            &&& op == Op::Iny ==> n.y == (m.y + 1) % 256 && n.x == m.x && shows(m, n, n.y)
            &&& op == Op::Dey ==> n.y == (m.y + 255) % 256 && n.x == m.x && shows(m, n, n.y)
            &&& op == Op::Inx || op == Op::Dex || op == Op::Iny || op == Op::Dey ==> n.a == m.a
                && n.sp == m.sp && n.ram == m.ram && n.log == m.log && n.regs == m.regs && n.halt
                == m.halt
        }),
{
    let k = m.skip(1).skip(Machine::operand_bytes(mode));
    let v = operand(m, mode);
    let addr = m.skip(1).address(mode);
    lemma_count_modes(m.get(m.pc));
    if op == Op::Inc {
        lemma_zn(k.put(addr, v.wrapping_add(1)), v.wrapping_add(1));
    } else if op == Op::Dec {
        lemma_zn(k.put(addr, v.wrapping_sub(1)), v.wrapping_sub(1));
    } else if op == Op::Inx {
        let w = k.x.wrapping_add(1);
        lemma_zn(Machine { x: w, ..k }, w);
    } else if op == Op::Dex {
        let w = k.x.wrapping_sub(1);
        lemma_zn(Machine { x: w, ..k }, w);
    } else if op == Op::Iny {
        let w = k.y.wrapping_add(1);
        lemma_zn(Machine { y: w, ..k }, w);
    } else if op == Op::Dey {
        let w = k.y.wrapping_sub(1);
        lemma_zn(Machine { y: w, ..k }, w);
    }
}

proof fn lemma_count_modes(op: u8)
    ensures
        decoded(op) matches Some((o, mode)) ==> (o == Op::Inc || o == Op::Dec ==> mode
            != Mode::Acc),
{
}

/// The bit test compares without changing anything: the zero flag says that accumulator and
/// operand share no bit, and the operand's upper two bits become the negative flag and the
/// overflow flag.
pub proof fn law_bit_test(m: Machine, mode: Mode)
    requires
        decoded(m.get(m.pc)) == Some((Op::Bit, mode)),
    ensures
        ({
            let n = m.step();
            let v = operand(m, mode);
            &&& (n.p & 0x02 != 0) == (m.a & v == 0)
            &&& (n.p & 0x80 != 0) == (v & 0x80 != 0)
            &&& (n.p & 0x40 != 0) == (v & 0x40 != 0)
            &&& n.p & 0x3d == m.p & 0x3d
            &&& only_flags(m, n)
        }),
{
    let v = operand(m, mode);
    let k = m.skip(1).skip(Machine::operand_bytes(mode));
    lemma_masks();
    assert((v & 0x80 != 0) == (v >= 128)) by (bit_vector);
    let z = k.set(0x02, k.a & v == 0);
    let s = z.set(0x80, v >= 128);
    lemma_set(k, 0x02, k.a & v == 0, 0x3d);
    lemma_set(z, 0x80, v >= 128, 0x3d);
    lemma_set(z, 0x80, v >= 128, 0x02);
    lemma_set(s, 0x40, v & 0x40 != 0, 0x3d);
    lemma_set(s, 0x40, v & 0x40 != 0, 0x02);
    lemma_set(s, 0x40, v & 0x40 != 0, 0x80);
    assert(m.step() == s.set(0x40, v & 0x40 != 0));
}

// ---- branches and jumps ------------------------------------------------------------------------------------------

/// The upper two bits of a branch's opcode name a flag, and the third says whether it must be
/// set. The branch goes where its operand says or on behind itself, and does nothing else.
pub proof fn law_branches(m: Machine, which: int, set: bool)
    requires
        0 <= which < 4,
        m.get(m.pc) == 64 * which + (if set {
            0x30int
        } else {
            0x10
        }),
    ensures
        ({
            let n = m.step();
            let mask = seq![0x80u8, 0x40u8, 0x01u8, 0x02u8][which];
            let b = behind(m, 1);
            let hop = if b > 127 {
                b - 256
            } else {
                b
            };
            &&& n.pc == if (m.p & mask != 0) == set {
                (m.pc + 2 + hop) % 0x10000
            } else {
                (m.pc + 2) % 0x10000
            }
            &&& only_flags(m, n)
            &&& n.p == m.p
        }),
{
    law_branches_count_from_behind(m);
    assert(which == 0 || which == 1 || which == 2 || which == 3);
}

/// A jump goes where its operand is.
pub proof fn law_jumps(m: Machine, mode: Mode)
    requires
        decoded(m.get(m.pc)) == Some((Op::Jmp, mode)),
    ensures
        m.step() == (Machine { pc: m.skip(1).address(mode), ..m }),
{
}

/// A call of a subroutine leaves the address of its last byte on the stack, the high byte
/// first, and goes to the subroutine.
pub proof fn law_subroutine_calls(m: Machine)
    requires
        m.wf(),
        m.get(m.pc) == 0x20,
    ensures
        ({
            let n = m.step();
            let back = (m.pc + 2) % 0x10000;
            let below = (m.sp + 255) % 256;
            &&& n.pc == behind(m, 1) + 256 * behind(m, 2)
            &&& n.sp == (m.sp + 254) % 256
            &&& n.ram == m.ram.update(0x100 + m.sp, (back / 256) as u8).update(
                0x100 + below,
                (back % 256) as u8,
            )
            &&& n.a == m.a && n.x == m.x && n.y == m.y && n.p == m.p && n.log == m.log && n.regs
                == m.regs && n.halt == m.halt
        }),
{
    law_operands_are_found(m);
    let k = m.skip(1).skip(2);
    let w = k.pc.wrapping_sub(1);
    assert(w == (m.pc + 2) % 0x10000);
}

/// A return takes the address off the stack, the low byte first, and goes on behind it.
pub proof fn law_returns(m: Machine)
    requires
        m.get(m.pc) == 0x60,
    ensures
        ({
            let n = m.step();
            let lo = m.ram[0x100 + (m.sp + 1) % 256];
            let hi = m.ram[0x100 + (m.sp + 2) % 256];
            &&& n.pc == (lo + 256 * hi + 1) % 0x10000
            &&& n.sp == (m.sp + 2) % 256
            &&& only_flags(Machine { sp: n.sp, ..m }, n)
            &&& n.p == m.p
        }),
{
    let k = m.skip(1).skip(0);
    assert(k.sp.wrapping_add(1) == (m.sp + 1) % 256);
    assert(k.pop().sp.wrapping_add(1) == (m.sp + 2) % 256);
}

/// A return from an interrupt takes the flags off the stack first, and goes to the address
/// itself.
pub proof fn law_interrupt_returns(m: Machine)
    requires
        m.get(m.pc) == 0x40,
    ensures
        ({
            let n = m.step();
            let flags = m.ram[0x100 + (m.sp + 1) % 256];
            let lo = m.ram[0x100 + (m.sp + 2) % 256];
            let hi = m.ram[0x100 + (m.sp + 3) % 256];
            &&& n.p & 0xcf == flags & 0xcf
            &&& n.p & 0x30 == 0x20
            &&& n.pc == lo + 256 * hi
            &&& n.sp == (m.sp + 3) % 256
            &&& only_flags(Machine { sp: n.sp, ..m }, n)
        }),
{
    let k = m.skip(1).skip(0);
    assert(k.sp.wrapping_add(1) == (m.sp + 1) % 256);
    assert(k.pop().sp.wrapping_add(1) == (m.sp + 2) % 256);
    assert(k.pop().pop().sp.wrapping_add(1) == (m.sp + 3) % 256);
    let f = m.ram[0x100 + (m.sp + 1) % 256];
    assert(((f & !0x10u8) | 0x20u8) & 0xcfu8 == f & 0xcfu8 && ((f & !0x10u8) | 0x20u8) & 0x30u8
        == 0x20u8) by (bit_vector);
}

// ---- the stack and the registers -----------------------------------------------------------------------------------

/// A push writes to the stack at $0100 and moves down; a pull moves up and reads. The flags
/// are pushed with both bits set that stand for no flag.
pub proof fn law_stack_instructions(m: Machine)
    requires
        m.wf(),
    ensures
        ({
            let n = m.step();
            let op = m.get(m.pc);
            let top = m.ram[0x100 + (m.sp + 1) % 256];
            &&& op == 0x48 ==> n.ram == m.ram.update(0x100 + m.sp, m.a) && n.sp == (m.sp + 255) % 256
                && n.p == m.p && n.a == m.a
            &&& op == 0x08 ==> n.ram == m.ram.update(0x100 + m.sp, m.p | 0x30) && n.sp == (m.sp + 255)
                % 256 && n.p == m.p && n.a == m.a
            &&& op == 0x68 ==> n.a == top && n.sp == (m.sp + 1) % 256 && n.ram == m.ram && shows(
                m,
                n,
                top,
            )
            &&& op == 0x28 ==> n.p & 0xcf == top & 0xcf && n.p & 0x30 == 0x20 && n.sp == (m.sp + 1)
                % 256 && n.ram == m.ram && n.a == m.a
            &&& op == 0x48 || op == 0x08 || op == 0x68 || op == 0x28 ==> n.x == m.x && n.y == m.y
                && n.log == m.log && n.regs == m.regs && n.halt == m.halt
        }),
{
    let k = m.skip(1).skip(0);
    let p = m.p;
    assert(p | 0x10u8 | 0x20u8 == p | 0x30u8) by (bit_vector);
    assert(k.sp.wrapping_add(1) == (m.sp + 1) % 256);
    let top = m.ram[0x100 + (m.sp + 1) % 256];
    assert(((top & !0x10u8) | 0x20u8) & 0xcfu8 == top & 0xcfu8 && ((top & !0x10u8) | 0x20u8)
        & 0x30u8 == 0x20u8) by (bit_vector);
    lemma_zn(Machine { a: top, ..k.pop() }, top);
    law_single_opcodes();
}

/// A transfer copies one register to another, and the flags follow it, but for the one to
/// the stack pointer.
pub proof fn law_transfers(m: Machine)
    ensures
        ({
            let n = m.step();
            let op = m.get(m.pc);
            &&& op == 0xaa ==> n.x == m.a && n.a == m.a && n.y == m.y && n.sp == m.sp && shows(
                m,
                n,
                m.a,
            )
            &&& op == 0xa8 ==> n.y == m.a && n.a == m.a && n.x == m.x && n.sp == m.sp && shows(
                m,
                n,
                m.a,
            )
            &&& op == 0x8a ==> n.a == m.x && n.x == m.x && n.y == m.y && n.sp == m.sp && shows(
                m,
                n,
                m.x,
            )
            &&& op == 0x98 ==> n.a == m.y && n.x == m.x && n.y == m.y && n.sp == m.sp && shows(
                m,
                n,
                m.y,
            )
            &&& op == 0xba ==> n.x == m.sp && n.a == m.a && n.y == m.y && n.sp == m.sp && shows(
                m,
                n,
                m.sp,
            )
            &&& op == 0x9a ==> n.sp == m.x && n.a == m.a && n.x == m.x && n.y == m.y && n.p == m.p
            &&& op == 0xaa || op == 0xa8 || op == 0x8a || op == 0x98 || op == 0xba || op == 0x9a ==>
                n.ram == m.ram && n.log == m.log && n.regs == m.regs && n.halt == m.halt
        }),
{
    law_single_opcodes();
    let k = m.skip(1).skip(0);
    lemma_zn(Machine { x: k.a, ..k }, k.a);
    lemma_zn(Machine { y: k.a, ..k }, k.a);
    lemma_zn(Machine { a: k.x, ..k }, k.x);
    lemma_zn(Machine { a: k.y, ..k }, k.y);
    lemma_zn(Machine { x: k.sp, ..k }, k.sp);
}

/// The instructions on a single flag set or clear it and leave the others; the one that does
/// nothing only goes on.
pub proof fn law_flag_instructions(m: Machine)
    ensures
        ({
            let n = m.step();
            let op = m.get(m.pc);
            &&& op == 0x18 ==> n.p & 0x01 == 0 && n.p & 0xfe == m.p & 0xfe
            &&& op == 0x38 ==> n.p & 0x01 != 0 && n.p & 0xfe == m.p & 0xfe
            &&& op == 0x58 ==> n.p & 0x04 == 0 && n.p & 0xfb == m.p & 0xfb
            &&& op == 0x78 ==> n.p & 0x04 != 0 && n.p & 0xfb == m.p & 0xfb
            &&& op == 0xb8 ==> n.p & 0x40 == 0 && n.p & 0xbf == m.p & 0xbf
            &&& op == 0xd8 ==> n.p & 0x08 == 0 && n.p & 0xf7 == m.p & 0xf7
            &&& op == 0xf8 ==> n.p & 0x08 != 0 && n.p & 0xf7 == m.p & 0xf7
            &&& op == 0xea ==> n.p == m.p
            &&& op == 0x18 || op == 0x38 || op == 0x58 || op == 0x78 || op == 0xb8 || op == 0xd8 || op
                == 0xf8 || op == 0xea ==> only_flags(m, n) && n.pc == (m.pc + 1) % 0x10000
        }),
{
    law_single_opcodes();
    lemma_masks();
    let k = m.skip(1).skip(0);
    lemma_set(k, 0x01, false, 0xfe);
    lemma_set(k, 0x01, true, 0xfe);
    lemma_set(k, 0x04, false, 0xfb);
    lemma_set(k, 0x04, true, 0xfb);
    lemma_set(k, 0x40, false, 0xbf);
    lemma_set(k, 0x08, false, 0xf7);
    lemma_set(k, 0x08, true, 0xf7);
}

// ---- calls ---------------------------------------------------------------------------------------------------------

/// The machine after so many instructions.
pub open spec fn stepped(m: Machine, n: nat) -> Machine
    decreases n,
{
    if n == 0 {
        m
    } else {
        stepped(m.step(), (n - 1) as nat)
    }
}

/// The machine stands at a return with the stack no lower than it was.
pub open spec fn at_return(m: Machine, sp: u8) -> bool {
    m.get(m.pc) == 0x60 && sp <= m.sp
}

proof fn lemma_run_is_steps(m: Machine, sp: u8, spare: nat) -> (n: nat)
    ensures
        m.run(sp, spare) == stepped(m, n),
        n <= spare + 1,
        forall|k: nat| k < n ==> !at_return(#[trigger] stepped(m, k), sp),
        forall|k: nat| 0 < k < n ==> !(#[trigger] stepped(m, k)).halt,
        at_return(stepped(m, n), sp) || (n > 0 && stepped(m, n).halt) || n == spare + 1,
    decreases spare,
{
    if m.returning(sp) {
        0
    } else if m.step().halt || spare == 0 {
        assert(stepped(m, 1) == m.step()) by {
            reveal_with_fuel(stepped, 3);
        }
        assert forall|k: nat| k < 1 implies !at_return(#[trigger] stepped(m, k), sp) by {
            assert(k == 0);
        }
        1
    } else {
        let n = lemma_run_is_steps(m.step(), sp, (spare - 1) as nat);
        assert forall|k: nat| k < n + 1 implies !at_return(#[trigger] stepped(m, k), sp) by {
            if k > 0 {
                assert(stepped(m, k) == stepped(m.step(), (k - 1) as nat));
            }
        }
        assert forall|k: nat| 0 < k < n + 1 implies !(#[trigger] stepped(m, k)).halt by {
            assert(stepped(m, k) == stepped(m.step(), (k - 1) as nat));
        }
        (n + 1) as nat
    }
}

/// A call runs the routine at its address, with its argument in the accumulator, instruction
/// by instruction, to the first return that leaves the routine, to an opcode that is not
/// emulated, or to the two million and first instruction.
pub proof fn law_calls_run_to_the_return(m: Machine, addr: u16, a: u8) -> (n: nat)
    ensures
        ({
            let start = Machine { a, pc: addr, halt: false, ..m };
            &&& m.called(addr, a) == stepped(start, n)
            &&& n <= 2_000_001
            &&& forall|k: nat| k < n ==> !at_return(#[trigger] stepped(start, k), m.sp)
            &&& forall|k: nat| 0 < k < n ==> !(#[trigger] stepped(start, k)).halt
            &&& at_return(m.called(addr, a), m.sp) || (n > 0 && m.called(addr, a).halt) || n
                == 2_000_001
        }),
{
    lemma_run_is_steps(Machine { a, pc: addr, halt: false, ..m }, m.sp, 2_000_000)
}

} // verus!
