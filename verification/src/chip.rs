//! The SID sound chip: the emulation of the `resid-rs` crate, seen through the
//! history of what a chip has been told since it was made.
//!
//! The emulated chip is deterministic: what a register reads and which samples
//! come out depend on the events so far and on nothing else. `chip_log` is that
//! history, and every reading and every run of samples is a function of it.

use resid::{ChipModel, SamplingMethod, Sid};
use vstd::prelude::*;

verus! {

/// The emulated chip of `resid-rs`.
#[verifier::external_type_specification]
#[verifier::external_body]
pub struct ExSid(Sid);

/// The two models of the chip.
#[derive(Clone, Copy, PartialEq, Eq, Structural, Debug)]
pub enum Model {
    Mos6581,
    Mos8580,
}

/// Something that happened to a chip.
pub enum ChipEvent {
    /// It was made, as this model.
    Made(Model),
    /// Interpolated sampling of a clock of this frequency at this rate.
    Sampling(u32, u32),
    /// A register was written.
    Write(u8, u8),
    /// The chip was clocked for so many cycles with room for so many samples.
    Clock(u32, nat),
}

/// The events of a chip since it was made, oldest first.
pub uninterp spec fn chip_log(chip: Sid) -> Seq<ChipEvent>;

/// What reading a register of a chip with this history gives.
pub uninterp spec fn chip_reading(log: Seq<ChipEvent>, reg: u8) -> u8;

/// The samples that clocking a chip with this history for `cycles` cycles gives
/// when there is room for `room` of them, and the cycles that were left over.
pub uninterp spec fn chip_samples(log: Seq<ChipEvent>, cycles: u32, room: nat) -> (Seq<i16>, u32);

/// `resid::Sid::new`: a chip of the given model, with no other event yet.
#[verifier::external_body]
pub(crate) fn chip_new(model: Model) -> (chip: Sid)
    ensures
        chip_log(chip) == seq![ChipEvent::Made(model)],
{
    Sid::new(
        match model {
            Model::Mos6581 => ChipModel::Mos6581,
            Model::Mos8580 => ChipModel::Mos8580,
        },
    )
}

/// `resid::Sid::set_sampling_parameters`, with interpolated sampling: the
/// setting joins the history.
#[verifier::external_body]
pub(crate) fn chip_set_sampling(chip: &mut Sid, clock: u32, rate: u32)
    ensures
        chip_log(*final(chip)) == chip_log(*old(chip)).push(ChipEvent::Sampling(clock, rate)),
{
    chip.set_sampling_parameters(SamplingMethod::Interpolate, clock, rate)
}

/// `resid::Sid::read`: a reading follows from the history and the register.
#[verifier::external_body]
pub(crate) fn chip_read(chip: &Sid, reg: u8) -> (v: u8)
    ensures
        v == chip_reading(chip_log(*chip), reg),
{
    chip.read(reg)
}

/// `resid::Sid::write`: the write joins the history.
#[verifier::external_body]
pub(crate) fn chip_write(chip: &mut Sid, reg: u8, v: u8)
    ensures
        chip_log(*final(chip)) == chip_log(*old(chip)).push(ChipEvent::Write(reg, v)),
{
    chip.write(reg, v)
}

/// The clock and the rate that a chip with this history samples at.
pub open spec fn sampling_of(log: Seq<ChipEvent>) -> Option<(u32, u32)>
    decreases log.len(),
{
    if log.len() == 0 {
        None
    } else {
        match log.last() {
            ChipEvent::Sampling(clock, rate) => Some((clock, rate)),
            _ => sampling_of(log.drop_last()),
        }
    }
}

/// Rates at which the sampler's fixed-point arithmetic works: at least one clock
/// cycle to a sample, and fewer than 32767 of them.
pub open spec fn rate_fits(clock: u32, rate: u32) -> bool {
    rate <= clock < 32767 * rate
}

/// A chip with this history has been given a rate that fits.
pub open spec fn can_sample(log: Seq<ChipEvent>) -> bool {
    sampling_of(log) matches Some((clock, rate)) && rate_fits(clock, rate)
}

/// `resid::Sid::sample`, into `out` from index `from` on: writes the samples that
/// the history gives there and nothing else, and returns their number and the
/// cycles left over. Cycles are left over only when the room is used up.
///
/// The chip counts and interpolates with plain `-`, `+` and `*` that are meant to wrap: its
/// envelope steps below zero when a voice is let go before it sounded, and the step between
/// two outputs can leave its 16 or 32 bits. They wrap, and the contract holds, where
/// `resid-rs` is built without overflow checks. Built with them it stops there with a panic.
/// How the crate is built cannot be said in the contract.
#[verifier::external_body]
pub(crate) fn chip_sample(chip: &mut Sid, cycles: u32, out: &mut [i16], from: usize) -> (r: (
    usize,
    u32,
))
    requires
        can_sample(chip_log(*old(chip))),
        cycles < 0x8000,
        from <= old(out)@.len(),
    ensures
        ({
            let room = (old(out)@.len() - from) as nat;
            let made = chip_samples(chip_log(*old(chip)), cycles, room);
            &&& r.0 == made.0.len()
            &&& r.1 == made.1
            &&& r.0 <= room
            &&& r.1 <= cycles
            &&& r.0 < room ==> r.1 == 0
            &&& final(out)@ == old(out)@.take(from as int) + made.0 + old(out)@.skip(from + r.0)
            &&& chip_log(*final(chip)) == chip_log(*old(chip)).push(ChipEvent::Clock(cycles, room))
        }),
{
    chip.sample(cycles, &mut out[from..], 1)
}

} // verus!
