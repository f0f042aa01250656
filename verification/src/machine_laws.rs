//! What holds of every instruction of the machine.

use crate::chip::ChipEvent;
use crate::machine::{
    chip_reg, decoded, in_chip, reset_machine, word, B, C, CALL_STEPS, D, I, Machine, Mode, N,
    NUM_REGS, Op, U, V, Z,
};
use vstd::prelude::*;

verus! {

/// A byte stored in RAM is read back, and no other address of RAM changes. The
/// sound chip hears nothing of it.
pub proof fn law_ram_keeps_what_is_stored(m: Machine, addr: u16, v: u8, other: u16)
    requires
        m.wf(),
        !in_chip(addr),
    ensures
        m.put(addr, v).get(addr) == v,
        other != addr ==> m.put(addr, v).get(other) == m.get(other),
        m.put(addr, v).log == m.log,
        m.put(addr, v).regs == m.regs,
{
}

/// A byte stored at a chip address never reaches RAM: it is told to the chip and
/// noted in the register shadow.
pub proof fn law_chip_stores_miss_ram(m: Machine, addr: u16, v: u8)
    requires
        m.wf(),
        in_chip(addr),
    ensures
        m.put(addr, v).ram == m.ram,
        m.put(addr, v).log == m.log.push(ChipEvent::Write(chip_reg(addr), v)),
        m.put(addr, v).regs[chip_reg(addr) as int] == v,
{
}

/// What is pushed is on top of the stack, and popping it gives the stack pointer
/// back.
pub proof fn law_pop_undoes_push(m: Machine, v: u8)
    requires
        m.wf(),
    ensures
        m.push(v).top() == v,
        m.push(v).pop().sp == m.sp,
{
}

proof fn lemma_word_bytes(w: u16)
    ensures
        word((w % 256) as u8, (w / 256) as u8) == w,
{
}

/// The same for words.
pub proof fn law_pop_undoes_push_word(m: Machine, w: u16)
    requires
        m.wf(),
    ensures
        m.push16(w).top16() == w,
        m.push16(w).pop().pop().sp == m.sp,
{
    lemma_word_bytes(w);
}

/// A subroutine call whose subroutine returns at once comes back behind the
/// call, with every register and the stack pointer as they were.
pub proof fn law_return_undoes_call(m: Machine)
    requires
        m.wf(),
        decoded(m.get(m.pc)) == Some((Op::Jsr, Mode::Abs)),
        decoded(m.step().get(m.step().pc)) == Some((Op::Rts, Mode::Imp)),
    ensures
        m.step().step() == (Machine { ram: m.step().ram, ..m.skip(3) }),
{
    let fetched = m.skip(1);
    let n = fetched.skip(2);
    assert(n.pc == m.pc.wrapping_add(3));
    let called = m.step();
    assert(called == n.push16(n.pc.wrapping_sub(1)).at(fetched.address(Mode::Abs)));
    law_pop_undoes_push_word(n, n.pc.wrapping_sub(1));
    assert(called.skip(1).skip(0).top16() == n.pc.wrapping_sub(1));
    assert(m.step().step() =~= Machine { ram: m.step().ram, ..m.skip(3) });
}

/// An opcode that is not emulated stops the machine where it is.
pub proof fn law_unknown_opcode_halts(m: Machine)
    requires
        decoded(m.get(m.pc)) is None,
    ensures
        m.step() == (Machine { halt: true, ..m }),
{
}

proof fn lemma_executed_keeps_halt(n: Machine, op: Op, mode: Mode, addr: u16)
    ensures
        n.executed(op, mode, addr).halt == n.halt,
{
}

/// An instruction stops the machine only where its opcode is not emulated.
pub proof fn law_only_unknown_opcodes_halt(m: Machine)
    ensures
        m.step().halt == (m.halt || decoded(m.get(m.pc)) is None),
{
    match decoded(m.get(m.pc)) {
        Some((op, mode)) => {
            let fetched = m.skip(1);
            let n = fetched.skip(Machine::operand_bytes(mode));
            lemma_executed_keeps_halt(n, op, mode, fetched.address(mode));
        },
        None => {},
    }
}

// ---- the flags ------------------------------------------------------------------

/// Setting a flag sets that flag and leaves the others.
pub proof fn law_flags_are_apart(m: Machine, f: u8, on: bool, other: u8)
    requires
        f != 0,
        f & other == 0,
    ensures
        m.set(f, on).flag(f) == on,
        m.set(f, on).flag(other) == m.flag(other),
{
    let p = m.p;
    assert((p | f) & f != 0 && (p & !f) & f == 0 && (p | f) & other == p & other && (p & !f) & other
        == p & other) by (bit_vector)
        requires
            f != 0,
            f & other == 0,
    ;
}

/// The two bits of the status byte that no instruction can change, as they are outside an
/// interrupt: the unused bit is set, and the break bit is clear.
pub open spec fn fixed_bits(m: Machine) -> bool {
    m.flag(U) && !m.flag(B)
}

proof fn lemma_fixed_bits(m: Machine)
    ensures
        fixed_bits(m) <==> m.p & 0x30 == 0x20,
{
    let p = m.p;
    assert((p & 0x20 != 0 && p & 0x10 == 0) <==> p & 0x30 == 0x20) by (bit_vector);
}

proof fn lemma_flag_bits()
    ensures
        C & U == 0 && C & B == 0,
        Z & U == 0 && Z & B == 0,
        I & U == 0 && I & B == 0,
        D & U == 0 && D & B == 0,
        V & U == 0 && V & B == 0,
        N & U == 0 && N & B == 0,
{
    assert(0x01u8 & 0x20u8 == 0 && 0x02u8 & 0x20u8 == 0 && 0x04u8 & 0x20u8 == 0 && 0x08u8 & 0x20u8
        == 0 && 0x40u8 & 0x20u8 == 0 && 0x80u8 & 0x20u8 == 0) by (bit_vector);
    assert(0x01u8 & 0x10u8 == 0 && 0x02u8 & 0x10u8 == 0 && 0x04u8 & 0x10u8 == 0 && 0x08u8 & 0x10u8
        == 0 && 0x40u8 & 0x10u8 == 0 && 0x80u8 & 0x10u8 == 0) by (bit_vector);
}

/// Whatever is executed, the unused bit of the status byte stays set and the break bit
/// stays clear.
pub proof fn law_fixed_bits_stay(m: Machine)
    requires
        m.p & 0x30 == 0x20,
    ensures
        m.step().p & 0x30 == 0x20,
{
    lemma_fixed_bits(m);
    lemma_fixed_bits(m.step());
    match decoded(m.get(m.pc)) {
        Some((op, mode)) => {
            let fetched = m.skip(1);
            let addr = fetched.address(mode);
            let n = fetched.skip(Machine::operand_bytes(mode));
            lemma_executed_keeps_bits(n, op, mode, addr);
        },
        None => {},
    }
}

#[verifier::rlimit(60)]
proof fn lemma_executed_keeps_bits(n: Machine, op: Op, mode: Mode, addr: u16)
    requires
        fixed_bits(n),
    ensures
        fixed_bits(n.executed(op, mode, addr)),
{
    lemma_flag_bits();
    assert forall|m: Machine, f: u8, on: bool|
        fixed_bits(m) && f & U == 0 && f & B == 0 && f != 0 implies fixed_bits(
        #[trigger] m.set(f, on),
    ) by {
        law_flags_are_apart(m, f, on, U);
        law_flags_are_apart(m, f, on, B);
    }
    let top = n.top();
    assert(((top & !0x10u8) | 0x20u8) & 0x20u8 != 0 && ((top & !0x10u8) | 0x20u8) & 0x10u8 == 0)
        by (bit_vector);
    assert(n.pull_flags().p == (top & !B) | U);
}

proof fn lemma_run_keeps_bits(m: Machine, entry_sp: u8, spare: nat)
    requires
        m.p & 0x30 == 0x20,
    ensures
        m.run(entry_sp, spare).p & 0x30 == 0x20,
    decreases spare,
{
    if !m.returning(entry_sp) {
        law_fixed_bits_stay(m);
        if !(m.step().halt || spare == 0) {
            lemma_run_keeps_bits(m.step(), entry_sp, (spare - 1) as nat);
        }
    }
}

/// The same of a whole call.
pub proof fn law_fixed_bits_stay_in_a_call(m: Machine, addr: u16, a: u8)
    requires
        m.p & 0x30 == 0x20,
    ensures
        m.called(addr, a).p & 0x30 == 0x20,
{
    lemma_run_keeps_bits(Machine { a, pc: addr, halt: false, ..m }, m.sp, CALL_STEPS as nat);
}

/// At power-on the two bits are as they stay.
pub proof fn law_fixed_bits_at_power_on(log: Seq<ChipEvent>)
    ensures
        reset_machine(log).p & 0x30 == 0x20,
{
    assert(0x24u8 & 0x30u8 == 0x20u8) by (bit_vector);
}

// ---- the register shadow ----------------------------------------------------------

/// What a register was last told; zero when it was told nothing.
pub open spec fn last_told(log: Seq<ChipEvent>, reg: int) -> u8
    decreases log.len(),
{
    if log.len() == 0 {
        0
    } else {
        match log.last() {
            ChipEvent::Write(r, v) if r == reg => v,
            _ => last_told(log.drop_last(), reg),
        }
    }
}

/// The register shadow holds what each register was last told.
pub open spec fn mirrors(m: Machine) -> bool {
    &&& m.wf()
    &&& forall|reg: int| 0 <= reg < NUM_REGS ==> #[trigger] m.regs[reg] == last_told(m.log, reg)
}

proof fn lemma_put_mirrors(m: Machine, addr: u16, v: u8)
    requires
        mirrors(m),
    ensures
        mirrors(m.put(addr, v)),
{
    let n = m.put(addr, v);
    if in_chip(addr) {
        assert(n.log.drop_last() =~= m.log);
        assert forall|reg: int| 0 <= reg < NUM_REGS implies #[trigger] n.regs[reg] == last_told(
            n.log,
            reg,
        ) by {
            assert(m.regs[reg] == last_told(m.log, reg));
        }
    } else {
        assert forall|reg: int| 0 <= reg < NUM_REGS implies #[trigger] n.regs[reg] == last_told(
            n.log,
            reg,
        ) by {
            assert(m.regs[reg] == last_told(m.log, reg));
        }
    }
}

proof fn lemma_same_chip_mirrors(m: Machine, n: Machine)
    requires
        mirrors(m),
        n.wf(),
        n.regs == m.regs,
        n.log == m.log,
    ensures
        mirrors(n),
{
    assert forall|reg: int| 0 <= reg < NUM_REGS implies #[trigger] n.regs[reg] == last_told(
        n.log,
        reg,
    ) by {
        assert(m.regs[reg] == last_told(m.log, reg));
    }
}

/// The instructions that store into memory at the address they name.
spec fn stores(op: Op, mode: Mode) -> bool {
    match op {
        Op::Sta | Op::Stx | Op::Sty | Op::Dec | Op::Inc => true,
        Op::Asl | Op::Lsr | Op::Rol | Op::Ror => mode != Mode::Acc,
        _ => false,
    }
}

proof fn lemma_others_leave_chip(n: Machine, op: Op, mode: Mode, addr: u16)
    requires
        n.wf(),
        !stores(op, mode),
    ensures
        n.executed(op, mode, addr).wf(),
        n.executed(op, mode, addr).regs == n.regs,
        n.executed(op, mode, addr).log == n.log,
{
}

proof fn lemma_executed_mirrors(n: Machine, op: Op, mode: Mode, addr: u16)
    requires
        mirrors(n),
    ensures
        mirrors(n.executed(op, mode, addr)),
{
    let v = n.get(addr);
    let r = n.executed(op, mode, addr);
    match op {
        Op::Sta => lemma_put_mirrors(n, addr, n.a),
        Op::Stx => lemma_put_mirrors(n, addr, n.x),
        Op::Sty => lemma_put_mirrors(n, addr, n.y),
        Op::Dec => {
            lemma_put_mirrors(n, addr, v.wrapping_sub(1));
            lemma_same_chip_mirrors(n.put(addr, v.wrapping_sub(1)), r);
        },
        Op::Inc => {
            lemma_put_mirrors(n, addr, v.wrapping_add(1));
            lemma_same_chip_mirrors(n.put(addr, v.wrapping_add(1)), r);
        },
        Op::Asl | Op::Lsr | Op::Rol | Op::Ror => {
            if mode == Mode::Acc {
                lemma_others_leave_chip(n, op, mode, addr);
                lemma_same_chip_mirrors(n, r);
            } else {
                let shown = n.set(C, Machine::shifted_out(op, v));
                lemma_same_chip_mirrors(n, shown);
                lemma_put_mirrors(shown, addr, n.shifted(op, v));
                lemma_same_chip_mirrors(shown.put(addr, n.shifted(op, v)), r);
            }
        },
        _ => {
            lemma_others_leave_chip(n, op, mode, addr);
            lemma_same_chip_mirrors(n, r);
        },
    }
}

/// Whatever is executed, the register shadow goes on holding what each register
/// of the chip was last told.
pub proof fn law_shadow_mirrors_chip(m: Machine)
    requires
        mirrors(m),
    ensures
        mirrors(m.step()),
{
    match decoded(m.get(m.pc)) {
        Some((op, mode)) => {
            let fetched = m.skip(1);
            let n = fetched.skip(Machine::operand_bytes(mode));
            lemma_same_chip_mirrors(m, n);
            lemma_executed_mirrors(n, op, mode, fetched.address(mode));
        },
        None => lemma_same_chip_mirrors(m, m.step()),
    }
}

proof fn lemma_run_mirrors(m: Machine, entry_sp: u8, spare: nat)
    requires
        mirrors(m),
    ensures
        mirrors(m.run(entry_sp, spare)),
    decreases spare,
{
    if !m.returning(entry_sp) {
        law_shadow_mirrors_chip(m);
        if !(m.step().halt || spare == 0) {
            lemma_run_mirrors(m.step(), entry_sp, (spare - 1) as nat);
        }
    }
}

/// The same of a whole call.
pub proof fn law_call_mirrors_chip(m: Machine, addr: u16, a: u8)
    requires
        mirrors(m),
    ensures
        mirrors(m.called(addr, a)),
{
    let n = Machine { a, pc: addr, halt: false, ..m };
    lemma_same_chip_mirrors(m, n);
    lemma_run_mirrors(n, m.sp, CALL_STEPS as nat);
}

/// Clocking the chip tells it nothing.
pub proof fn law_clock_mirrors_chip(m: Machine, cycles: u32, room: nat)
    requires
        mirrors(m),
    ensures
        mirrors(m.clocked(cycles, room)),
{
    let n = m.clocked(cycles, room);
    assert(n.log.drop_last() =~= m.log);
    assert forall|reg: int| 0 <= reg < NUM_REGS implies #[trigger] n.regs[reg] == last_told(
        n.log,
        reg,
    ) by {
        assert(m.regs[reg] == last_told(m.log, reg));
    }
}

} // verus!
